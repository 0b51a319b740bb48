//! Which blocks an extent tree is made of, and which it leads to.
use crate::block_io::block_at;
use crate::error::Result;
use crate::extent::{
    child_for, child_node, covering, extent_at, extents_in, header_at, index_at, lookup_in, Extent, ExtentVerifyCtx,
};
use vstd::prelude::*;

verus! {

/// Some entry of a leaf puts file block `l` at device block `p`.
pub open spec fn leaf_maps(node: Seq<u8>, l: int, p: int) -> bool {
    exists|i: int|
        0 <= i < header_at(node).entries && (#[trigger] extents_in(node, header_at(node).entries as nat)[i]).covers(l)
            && extents_in(node, header_at(node).entries as nat)[i].place(l) == p
}

/// The child that entry `i` of an index node leads to.
pub open spec fn child_at(img: Seq<u8>, bs: int, node: Seq<u8>, depth: nat, i: int) -> Result<Seq<u8>> {
    child_node(img, bs, index_at(node, 12 + 12 * i).leaf_block, depth - 1, None)
}

/// Some leaf under `node`, which is `depth` levels above the leaves, puts file
/// block `l` at device block `p`.
pub open spec fn tree_maps(img: Seq<u8>, bs: int, node: Seq<u8>, depth: nat, l: int, p: int) -> bool
    decreases depth,
{
    if depth == 0 {
        leaf_maps(node, l, p)
    } else {
        exists|i: int|
            0 <= i < header_at(node).entries && (#[trigger] child_at(img, bs, node, depth, i)) is Ok && tree_maps(
                img,
                bs,
                child_at(img, bs, node, depth, i)->Ok_0,
                (depth - 1) as nat,
                l,
                p,
            )
    }
}

/// Block `k` is a node under `node`, or is taken for one.
pub open spec fn tree_node(img: Seq<u8>, bs: int, node: Seq<u8>, depth: nat, k: int) -> bool
    decreases depth,
{
    depth > 0 && exists|i: int|
        0 <= i < header_at(node).entries && (index_at(node, 12 + 12 * i).leaf_block == k || ((#[trigger] child_at(
            img,
            bs,
            node,
            depth,
            i,
        )) is Ok && tree_node(img, bs, child_at(img, bs, node, depth, i)->Ok_0, (depth - 1) as nat, k)))
}

/// A node's number is a block number.
pub proof fn lemma_node_number(img: Seq<u8>, bs: int, node: Seq<u8>, depth: nat, k: int)
    requires
        tree_node(img, bs, node, depth, k),
    ensures
        0 <= k <= u64::MAX,
    decreases depth,
{
    let i = choose|i: int|
        0 <= i < header_at(node).entries && (index_at(node, 12 + 12 * i).leaf_block == k || ((#[trigger] child_at(
            img,
            bs,
            node,
            depth,
            i,
        )) is Ok && tree_node(img, bs, child_at(img, bs, node, depth, i)->Ok_0, (depth - 1) as nat, k)));
    if index_at(node, 12 + 12 * i).leaf_block != k {
        lemma_node_number(img, bs, child_at(img, bs, node, depth, i)->Ok_0, (depth - 1) as nat, k);
    }
}

/// The index entry that a lookup takes is one of the node's.
proof fn lemma_child_for(node: Seq<u8>, n: int, l: int)
    ensures
        child_for(node, n, l) matches Some(idx) ==> exists|i: int|
            0 <= i < n && idx == #[trigger] index_at(node, 12 + 12 * i),
    decreases n,
{
    if n > 0 {
        if index_at(node, 12 + 12 * (n - 1)).logical_block <= l {
            assert(index_at(node, 12 + 12 * (n - 1)) == index_at(node, 12 + 12 * (n - 1)));
        } else {
            lemma_child_for(node, n - 1, l);
        }
    }
}

/// Which of a node's entries a lookup takes.
pub(crate) proof fn lemma_child_index(node: Seq<u8>, n: int, l: int) -> (i: int)
    requires
        child_for(node, n, l) is Some,
    ensures
        0 <= i < n,
        child_for(node, n, l)->Some_0 == index_at(node, 12 + 12 * i),
{
    lemma_child_for(node, n, l);
    choose|i: int| 0 <= i < n && child_for(node, n, l)->Some_0 == #[trigger] index_at(node, 12 + 12 * i)
}

proof fn lemma_covering_is_entry(extents: Seq<Extent>, l: int)
    ensures
        covering(extents, l) matches Some(e) ==> e.covers(l) && exists|i: int|
            0 <= i < extents.len() && e == #[trigger] extents[i],
    decreases extents.len(),
{
    if extents.len() > 0 {
        if extents[0].covers(l) {
        } else {
            let rest = extents.drop_first();
            lemma_covering_is_entry(rest, l);
            if let Some(e) = covering(rest, l) {
                let i = choose|i: int| 0 <= i < rest.len() && e == #[trigger] rest[i];
                assert(extents[i + 1] == e);
            }
        }
    }
}

/// What is read with a node verified is what is read without.
pub(crate) proof fn lemma_unverified_child(img: Seq<u8>, bs: int, block: u64, depth: int, ctx: Option<ExtentVerifyCtx>)
    ensures
        child_node(img, bs, block, depth, ctx) is Ok ==> child_node(img, bs, block, depth, None) == child_node(
            img,
            bs,
            block,
            depth,
            ctx,
        ),
{
}

/// What a lookup finds is in the tree.
pub proof fn lemma_found_in_tree(
    img: Seq<u8>,
    bs: int,
    node: Seq<u8>,
    depth: nat,
    l: int,
    ctx: Option<ExtentVerifyCtx>,
)
    ensures
        lookup_in(img, bs, node, depth, l, ctx) matches Ok(Some(e)) ==> e.covers(l) && 0 <= e.place(l) <= u64::MAX
            && tree_maps(img, bs, node, depth, l, e.place(l)),
    decreases depth,
{
    let n = header_at(node).entries as int;
    if let Ok(Some(e)) = lookup_in(img, bs, node, depth, l, ctx) {
        if depth == 0 {
            let all = extents_in(node, n as nat);
            lemma_covering_is_entry(all, l);
            let i = choose|i: int| 0 <= i < all.len() && e == #[trigger] all[i];
            assert(extents_in(node, header_at(node).entries as nat)[i] == e);
            assert(e == extent_at(node, 12 + 12 * i));
            assert(e.physical_block < 0x1_0000_0000_0000);
        } else {
            let i = lemma_child_index(node, n, l);
            lemma_unverified_child(img, bs, index_at(node, 12 + 12 * i).leaf_block, depth - 1, ctx);
            let child = child_at(img, bs, node, depth, i)->Ok_0;
            lemma_found_in_tree(img, bs, child, (depth - 1) as nat, l, ctx);
        }
    }
}

/// A lookup depends on the tree's own blocks alone.
pub proof fn lemma_lookup_same(
    img: Seq<u8>,
    other: Seq<u8>,
    bs: int,
    node: Seq<u8>,
    depth: nat,
    l: int,
    ctx: Option<ExtentVerifyCtx>,
)
    requires
        forall|k: int| #[trigger] tree_node(img, bs, node, depth, k) ==> block_at(other, bs, k) == block_at(img, bs, k),
    ensures
        lookup_in(other, bs, node, depth, l, ctx) == lookup_in(img, bs, node, depth, l, ctx),
    decreases depth,
{
    let n = header_at(node).entries as int;
    if depth > 0 && child_for(node, n, l) is Some {
        let i = lemma_child_index(node, n, l);
        let b = index_at(node, 12 + 12 * i).leaf_block;
        assert(child_at(img, bs, node, depth, i) == child_at(img, bs, node, depth, i));
        assert(tree_node(img, bs, node, depth, b as int));
        if child_node(img, bs, b, depth - 1, ctx) is Ok {
            lemma_unverified_child(img, bs, b, depth - 1, ctx);
            let child = child_at(img, bs, node, depth, i)->Ok_0;
            assert forall|k: int| #[trigger] tree_node(img, bs, child, (depth - 1) as nat, k) implies block_at(
                other,
                bs,
                k,
            ) == block_at(img, bs, k) by {
                assert(tree_node(img, bs, node, depth, k));
            }
            lemma_lookup_same(img, other, bs, child, (depth - 1) as nat, l, ctx);
        }
    }
}

/// What a lookup finds with the tree verified is what it finds without.
pub proof fn lemma_lookup_unverified(
    img: Seq<u8>,
    bs: int,
    node: Seq<u8>,
    depth: nat,
    l: int,
    ctx: Option<ExtentVerifyCtx>,
)
    requires
        lookup_in(img, bs, node, depth, l, ctx) is Ok,
    ensures
        lookup_in(img, bs, node, depth, l, None) == lookup_in(img, bs, node, depth, l, ctx),
    decreases depth,
{
    let n = header_at(node).entries as int;
    if depth > 0 && child_for(node, n, l) is Some {
        let b = child_for(node, n, l)->Some_0.leaf_block;
        lemma_unverified_child(img, bs, b, depth - 1, ctx);
        lemma_lookup_unverified(
            img,
            bs,
            child_node(img, bs, b, depth - 1, ctx)->Ok_0,
            (depth - 1) as nat,
            l,
            ctx,
        );
    }
}

} // verus!
