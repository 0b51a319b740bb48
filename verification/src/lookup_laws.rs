//! A lookup finds what the leaves of a tree hold, and nothing else.
use crate::extent::{extent_for, extents_in, header_at, index_at, lookup_in, ExtentVerifyCtx};
use crate::extent_laws::{holds, lemma_covering_in_order, maps_to};
use crate::order_laws::{
    extents_of_leaf, lemma_pick, ordered, pick, start_of, stop_of, tree_in_order, FILE_BLOCKS,
};
use crate::pwrite_laws::levels;
use crate::tree_laws::{child_at, lemma_found_in_tree, lemma_unverified_child, tree_maps};
use vstd::prelude::*;

verus! {

/// No extent of a tree that is responsible for the file blocks before `hi`
/// reaches beyond what its leaf is responsible for.
pub open spec fn ends_within(img: Seq<u8>, bs: int, node: Seq<u8>, depth: nat, hi: int) -> bool
    decreases depth,
{
    if depth == 0 {
        forall|i: int|
            0 <= i < extents_of_leaf(node).len() ==> (#[trigger] extents_of_leaf(node)[i]).logical_block
                + extents_of_leaf(node)[i].length <= hi
    } else {
        forall|i: int|
            0 <= i < header_at(node).entries ==> ((#[trigger] child_at(img, bs, node, depth, i)) matches Ok(c)
                ==> ends_within(img, bs, c, (depth - 1) as nat, stop_of(node, i, hi)))
    }
}

/// What a leaf holds of a block is in the range of the leaf.
proof fn lemma_maps_in_range(img: Seq<u8>, bs: int, node: Seq<u8>, depth: nat, lo: int, hi: int, l: int, p: int)
    requires
        ordered(img, bs, node, depth, lo, hi),
        ends_within(img, bs, node, depth, hi),
        tree_maps(img, bs, node, depth, l, p),
    ensures
        lo <= l < hi,
    decreases depth,
{
    if depth == 0 {
        let all = extents_of_leaf(node);
        let i = choose|i: int|
            0 <= i < header_at(node).entries && (#[trigger] extents_in(node, header_at(node).entries as nat)[i]).covers(l)
                && extents_in(node, header_at(node).entries as nat)[i].place(l) == p;
        assert(all[i].covers(l));
        assert(all[i].logical_block + all[i].length <= hi);
    } else {
        let i = choose|i: int|
            0 <= i < header_at(node).entries && (#[trigger] child_at(img, bs, node, depth, i)) is Ok && tree_maps(
                img,
                bs,
                child_at(img, bs, node, depth, i)->Ok_0,
                (depth - 1) as nat,
                l,
                p,
            );
        let c = child_at(img, bs, node, depth, i)->Ok_0;
        lemma_maps_in_range(img, bs, c, (depth - 1) as nat, start_of(node, i), stop_of(node, i, hi), l, p);
        assert(lo <= start_of(node, i) < hi);
        if i + 1 < header_at(node).entries {
            assert(start_of(node, i + 1) < hi);
        }
    }
}

/// What a leaf holds of a block is found.
proof fn lemma_mapped_is_found(
    img: Seq<u8>,
    bs: int,
    node: Seq<u8>,
    depth: nat,
    lo: int,
    hi: int,
    l: int,
    p: int,
    ctx: Option<ExtentVerifyCtx>,
)
    requires
        ordered(img, bs, node, depth, lo, hi),
        ends_within(img, bs, node, depth, hi),
        tree_maps(img, bs, node, depth, l, p),
        lookup_in(img, bs, node, depth, l, ctx) is Ok,
    ensures
        lookup_in(img, bs, node, depth, l, ctx)->Ok_0 matches Some(e) && e.covers(l) && e.place(l) == p,
    decreases depth,
{
    if depth == 0 {
        let all = extents_of_leaf(node);
        let i = choose|i: int|
            0 <= i < header_at(node).entries && (#[trigger] extents_in(node, header_at(node).entries as nat)[i]).covers(l)
                && extents_in(node, header_at(node).entries as nat)[i].place(l) == p;
        assert(holds(all[i], l, p, all[i].uninitialized));
        assert(maps_to(all, l, p, all[i].uninitialized));
        lemma_covering_in_order(all, l, p, all[i].uninitialized);
    } else {
        let n = header_at(node).entries as int;
        let i = choose|i: int|
            0 <= i < header_at(node).entries && (#[trigger] child_at(img, bs, node, depth, i)) is Ok && tree_maps(
                img,
                bs,
                child_at(img, bs, node, depth, i)->Ok_0,
                (depth - 1) as nat,
                l,
                p,
            );
        let c = child_at(img, bs, node, depth, i)->Ok_0;
        let (a, b) = (start_of(node, i), stop_of(node, i, hi));
        lemma_maps_in_range(img, bs, c, (depth - 1) as nat, a, b, l, p);
        lemma_pick(node, n, l);
        let k = pick(node, n, l);
        assert(k == i) by {
            if k < i {
                assert(start_of(node, i) > l);
            } else if i < k {
                assert(start_of(node, i + 1) > l);
                if i + 1 < k {
                    assert(start_of(node, i + 1) < start_of(node, k));
                }
            }
        }
        lemma_unverified_child(img, bs, index_at(node, 12 + 12 * i).leaf_block, depth - 1, ctx);
        lemma_mapped_is_found(img, bs, c, (depth - 1) as nat, a, b, l, p, ctx);
    }
}

/// A lookup finds an extent exactly where a leaf of the tree holds one, and finds
/// the place that the leaf gives; where no leaf holds the block, it finds none.
/// The tree is in order, no extent reaches beyond its leaf's range, and the nodes
/// on the way can be read.
pub proof fn law_lookup_finds_what_the_leaves_hold(
    img: Seq<u8>,
    bs: int,
    root: Seq<u8>,
    l: int,
    p: int,
    ctx: Option<ExtentVerifyCtx>,
)
    requires
        tree_in_order(img, bs, root),
        ends_within(img, bs, root, levels(root), FILE_BLOCKS as int),
        extent_for(img, bs, root, l, ctx) is Ok,
    ensures
        tree_maps(img, bs, root, levels(root), l, p) <==> (extent_for(img, bs, root, l, ctx)->Ok_0 matches Some(e)
            && e.covers(l) && e.place(l) == p),
{
    let d = header_at(root).depth as nat;
    lemma_found_in_tree(img, bs, root, d, l, ctx);
    if tree_maps(img, bs, root, d, l, p) {
        lemma_mapped_is_found(img, bs, root, d, 0, FILE_BLOCKS as int, l, p, ctx);
    }
}

} // verus!
