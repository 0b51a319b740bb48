//! Growing an extent tree leaves what it mapped before where it was.
use crate::block_io::block_at;
use crate::error::{Error, Result};
use crate::extent::{
    child_for, child_node, covering, extent_for, extents_in, header_at, header_of, index_at, lookup_in, Extent,
    ExtentHeader, ExtentIdx,
};
use crate::extent_laws::{
    holds, in_order, law_insert_adds_the_new_mapping, law_insert_keeps_order, lemma_covering_found, lemma_covering_in_order,
    lemma_holder_pos, lemma_insert_pos, lemma_inserted_storable,
};
use crate::extent_mut::{
    all_storable, any_overlap, block_capacity, deep_insert, holder_pos, index_inserted, index_pos, indexes_in, insert_pos,
    inserted, leaf_insert, leaf_path, lowered, merge_at, mergeable, node_bytes, promoted, split_leaf, storable, DeepInsertView,
    LeafPathView,
};
use crate::grow::{node_stamped, stage_nodes};
use crate::growth_laws::{
    lemma_index_fields, lemma_inserted_len, lemma_leaf_fields, lemma_leaf_path, lemma_lowered, lemma_node_stamped,
    lemma_nodes_written,
    lemma_points_within, lemma_read_storable, lemma_under, points_to,
};
use crate::tree_laws::{child_at, lemma_child_index, tree_node};
use crate::volume::{Stage, Vol};
use vstd::prelude::*;

verus! {

// -- lists of extents -------------------------------------------------------

/// Where a lookup says a file block is, and whether it was never written.
pub open spec fn where_is(found: Result<Option<Extent>>, l: int) -> Result<Option<(int, bool)>> {
    match found {
        Err(e) => Err(e),
        Ok(None) => Ok(None),
        Ok(Some(e)) => Ok(Some((e.place(l), e.uninitialized))),
    }
}

/// The extents of a leaf that is responsible for the file blocks `lo..hi`:
/// in order, none empty, and each starting in that range.
pub open spec fn list_ordered(es: Seq<Extent>, lo: int, hi: int) -> bool {
    in_order(es) && forall|i: int|
        0 <= i < es.len() ==> (#[trigger] es[i]).length > 0 && lo <= es[i].logical_block < hi
}

/// A block that the new extent does not cover is where it was.
proof fn lemma_covering_inserted(es: Seq<Extent>, new: Extent, l: int, lo: int, hi: int)
    requires
        list_ordered(es, lo, hi),
        !any_overlap(es, new),
        new.length > 0,
        !new.covers(l),
    ensures
        where_is(Ok(covering(inserted(es, new), l)), l) == where_is(Ok(covering(es, l)), l),
{
    let out = inserted(es, new);
    law_insert_keeps_order(es, new);
    lemma_covering_found(es, l);
    lemma_covering_found(out, l);
    match covering(es, l) {
        Some(e) => {
            law_insert_adds_the_new_mapping(es, new, l, e.place(l), e.uninitialized);
            lemma_covering_in_order(out, l, e.place(l), e.uninitialized);
        },
        None => {
            if let Some(e) = covering(out, l) {
                law_insert_adds_the_new_mapping(es, new, l, e.place(l), e.uninitialized);
            }
        },
    }
}

/// A lookup of the first block of `new` finds it where `new` puts it.
pub open spec fn finds_new(found: Result<Option<Extent>>, new: Extent) -> bool {
    where_is(found, new.logical_block as int) == Ok::<Option<(int, bool)>, Error>(
        Some((new.physical_block as int, new.uninitialized)),
    )
}

proof fn lemma_covering_new(es: Seq<Extent>, new: Extent)
    requires
        in_order(es),
        forall|i: int| 0 <= i < es.len() ==> (#[trigger] es[i]).length > 0,
        !any_overlap(es, new),
        new.length > 0,
    ensures
        finds_new(Ok(covering(inserted(es, new), new.logical_block as int)), new),
{
    let x = new.logical_block as int;
    law_insert_keeps_order(es, new);
    assert(holds(new, x, new.place(x), new.uninitialized));
    law_insert_adds_the_new_mapping(es, new, x, new.place(x), new.uninitialized);
    lemma_covering_in_order(inserted(es, new), x, new.place(x), new.uninitialized);
}

proof fn lemma_merged_ordered(es: Seq<Extent>, i: int, lo: int, hi: int)
    requires
        forall|k: int| 0 <= k < es.len() ==> (#[trigger] es[k]).length > 0 && lo <= es[k].logical_block < hi,
        0 <= i,
        i + 1 < es.len(),
        mergeable(es[i], es[i + 1]),
    ensures
        forall|k: int|
            0 <= k < merge_at(es, i).len() ==> (#[trigger] merge_at(es, i)[k]).length > 0 && lo
                <= merge_at(es, i)[k].logical_block < hi,
{
    let out = merge_at(es, i);
    assert forall|k: int| 0 <= k < out.len() implies (#[trigger] out[k]).length > 0 && lo <= out[k].logical_block < hi by {
        if k < i {
            assert(out[k] == es[k]);
        } else if k > i {
            assert(out[k] == es[k + 1]);
        } else {
            assert(es[i].length > 0 && es[i + 1].length > 0);
        }
    }
}

/// A list stays in order, and in its range, when an extent of the range is
/// inserted.
proof fn lemma_inserted_ordered(es: Seq<Extent>, new: Extent, lo: int, hi: int)
    requires
        list_ordered(es, lo, hi),
        !any_overlap(es, new),
        new.length > 0,
        lo <= new.logical_block < hi,
    ensures
        list_ordered(inserted(es, new), lo, hi),
{
    law_insert_keeps_order(es, new);
    let pos = insert_pos(es, new, 0);
    lemma_insert_pos(es, new, 0);
    let placed = es.insert(pos, new);
    assert forall|k: int| 0 <= k < placed.len() implies (#[trigger] placed[k]).length > 0 && lo
        <= placed[k].logical_block < hi by {
        if k < pos {
            assert(placed[k] == es[k]);
        } else if k > pos {
            assert(placed[k] == es[k - 1]);
        }
    }
    let left = if pos > 0 && mergeable(placed[pos - 1], placed[pos]) {
        merge_at(placed, pos - 1)
    } else {
        placed
    };
    if pos > 0 && mergeable(placed[pos - 1], placed[pos]) {
        lemma_merged_ordered(placed, pos - 1, lo, hi);
    }
    lemma_holder_pos(left, new, 0);
    let at = holder_pos(left, new, 0);
    if at + 1 < left.len() && mergeable(left[at], left[at + 1]) {
        lemma_merged_ordered(left, at, lo, hi);
    }
}

proof fn lemma_covering_none(es: Seq<Extent>, l: int)
    requires
        forall|i: int| 0 <= i < es.len() ==> !(#[trigger] es[i]).covers(l),
    ensures
        covering(es, l) is None,
    decreases es.len(),
{
    if es.len() > 0 {
        let rest = es.drop_first();
        assert forall|i: int| 0 <= i < rest.len() implies !(#[trigger] rest[i]).covers(l) by {
            assert(rest[i] == es[i + 1]);
        }
        lemma_covering_none(rest, l);
    }
}

proof fn lemma_covering_front(es: Seq<Extent>, k: int, l: int)
    requires
        0 <= k <= es.len(),
        forall|i: int| k <= i < es.len() ==> !(#[trigger] es[i]).covers(l),
    ensures
        covering(es.take(k), l) == covering(es, l),
    decreases k,
{
    if k == 0 {
        lemma_covering_none(es, l);
    } else if !es[0].covers(l) {
        let rest = es.drop_first();
        assert forall|i: int| k - 1 <= i < rest.len() implies !(#[trigger] rest[i]).covers(l) by {
            assert(rest[i] == es[i + 1]);
        }
        lemma_covering_front(rest, k - 1, l);
        assert(es.take(k).drop_first() =~= rest.take(k - 1));
    }
}

proof fn lemma_covering_back(es: Seq<Extent>, k: int, l: int)
    requires
        0 <= k <= es.len(),
        forall|i: int| 0 <= i < k ==> !(#[trigger] es[i]).covers(l),
    ensures
        covering(es.skip(k), l) == covering(es, l),
    decreases k,
{
    if k == 0 {
        assert(es.skip(0) =~= es);
    } else {
        let rest = es.drop_first();
        assert(!es[0].covers(l));
        assert forall|i: int| 0 <= i < k - 1 implies !(#[trigger] rest[i]).covers(l) by {
            assert(rest[i] == es[i + 1]);
        }
        lemma_covering_back(rest, k - 1, l);
        assert(rest.skip(k - 1) =~= es.skip(k));
    }
}

/// A list cut in two: each half is in order, in its part of the range, and maps
/// what the whole maps there.
proof fn lemma_halves(es: Seq<Extent>, k: int, lo: int, hi: int, l: int)
    requires
        list_ordered(es, lo, hi),
        0 < k < es.len(),
    ensures
        list_ordered(es.take(k), lo, es[k].logical_block as int),
        list_ordered(es.skip(k), es[k].logical_block as int, hi),
        lo < es[k].logical_block < hi,
        l < es[k].logical_block ==> covering(es.take(k), l) == covering(es, l),
        l >= es[k].logical_block ==> covering(es.skip(k), l) == covering(es, l),
{
    let one = es.take(k);
    let two = es.skip(k);
    assert forall|i: int, j: int| 0 <= i < j < one.len() implies (#[trigger] one[i]).logical_block + one[i].length <= (
    #[trigger] one[j]).logical_block by {
        assert(one[i] == es[i] && one[j] == es[j]);
    }
    assert forall|i: int, j: int| 0 <= i < j < two.len() implies (#[trigger] two[i]).logical_block + two[i].length <= (
    #[trigger] two[j]).logical_block by {
        assert(two[i] == es[k + i] && two[j] == es[k + j]);
    }
    assert forall|i: int| 0 <= i < one.len() implies (#[trigger] one[i]).length > 0 && lo <= one[i].logical_block
        < es[k].logical_block by {
        assert(one[i] == es[i]);
        assert(es[i].logical_block + es[i].length <= es[k].logical_block);
    }
    assert forall|i: int| 0 <= i < two.len() implies (#[trigger] two[i]).length > 0 && es[k].logical_block
        <= two[i].logical_block < hi by {
        assert(two[i] == es[k + i]);
        if i > 0 {
            assert(es[k].logical_block + es[k].length <= es[k + i].logical_block);
        }
    }
    assert(one[0].logical_block >= lo);
    if l < es[k].logical_block {
        assert forall|i: int| k <= i < es.len() implies !(#[trigger] es[i]).covers(l) by {
            if i > k {
                assert(es[k].logical_block + es[k].length <= es[i].logical_block);
            }
        }
        lemma_covering_front(es, k, l);
    } else {
        assert forall|i: int| 0 <= i < k implies !(#[trigger] es[i]).covers(l) by {
            assert(es[i].logical_block + es[i].length <= es[k].logical_block);
        }
        lemma_covering_back(es, k, l);
    }
}

// -- trees ------------------------------------------------------------------

/// The first file block that child `i` is responsible for.
pub open spec fn start_of(node: Seq<u8>, i: int) -> int {
    index_at(node, 12 + 12 * i).logical_block as int
}

/// Where child `i`'s responsibility ends.
pub open spec fn stop_of(node: Seq<u8>, i: int, hi: int) -> int {
    if i + 1 < header_at(node).entries {
        start_of(node, i + 1)
    } else {
        hi
    }
}

/// The extents of a leaf.
pub open spec fn extents_of_leaf(node: Seq<u8>) -> Seq<Extent> {
    extents_in(node, header_at(node).entries as nat)
}

/// The children of an index node start one after another, in its range.
pub open spec fn starts_ordered(node: Seq<u8>, lo: int, hi: int) -> bool {
    &&& forall|i: int, j: int| 0 <= i < j < header_at(node).entries ==> #[trigger] start_of(node, i) < #[trigger] start_of(
        node,
        j,
    )
    &&& forall|i: int| 0 <= i < header_at(node).entries ==> lo <= #[trigger] start_of(node, i) < hi
}

/// A tree that is responsible for the file blocks `lo..hi` is in order: so are
/// its nodes, and each part is responsible for its own blocks. No leaf below an
/// index is empty.
pub open spec fn ordered(img: Seq<u8>, bs: int, node: Seq<u8>, depth: nat, lo: int, hi: int) -> bool
    decreases depth,
{
    if depth == 0 {
        list_ordered(extents_of_leaf(node), lo, hi)
    } else {
        &&& starts_ordered(node, lo, hi)
        &&& forall|i: int|
            0 <= i < header_at(node).entries ==> ((#[trigger] child_at(img, bs, node, depth, i)) matches Ok(c)
                ==> header_at(c).entries > 0 && ordered(
                img,
                bs,
                c,
                (depth - 1) as nat,
                start_of(node, i),
                stop_of(node, i, hi),
            ))
    }
}

/// Which child a lookup of `l` takes, among the first `n`; -1 for none.
pub open spec fn pick(node: Seq<u8>, n: int, l: int) -> int
    decreases n,
{
    if n <= 0 {
        -1
    } else if start_of(node, n - 1) <= l {
        n - 1
    } else {
        pick(node, n - 1, l)
    }
}

pub(crate) proof fn lemma_pick(node: Seq<u8>, n: int, l: int)
    ensures
        child_for(node, n, l) == (if pick(node, n, l) >= 0 {
            Some(index_at(node, 12 + 12 * pick(node, n, l)))
        } else {
            None
        }),
        -1 <= pick(node, n, l),
        n >= 0 ==> pick(node, n, l) < n,
        pick(node, n, l) >= 0 ==> start_of(node, pick(node, n, l)) <= l,
        forall|j: int| pick(node, n, l) < j < n ==> #[trigger] start_of(node, j) > l,
    decreases n,
{
    if n > 0 && start_of(node, n - 1) > l {
        lemma_pick(node, n - 1, l);
    }
}

/// A node's new contents are in order, and map every block that `new` does not
/// cover where the old ones did.
pub open spec fn kept(
    img: Seq<u8>,
    other: Seq<u8>,
    bs: int,
    old_node: Seq<u8>,
    new_node: Seq<u8>,
    depth: nat,
    lo: int,
    hi: int,
    new: Extent,
) -> bool {
    &&& ordered(other, bs, new_node, depth, lo, hi)
    &&& forall|l: int|
        !new.covers(l) ==> where_is(#[trigger] lookup_in(other, bs, new_node, depth, l, None), l) == where_is(
            lookup_in(img, bs, old_node, depth, l, None),
            l,
        )
}

/// Child `i` of a node is kept, or cannot be read as before.
pub open spec fn child_kept(
    img: Seq<u8>,
    other: Seq<u8>,
    bs: int,
    node: Seq<u8>,
    depth: nat,
    lo: int,
    hi: int,
    new: Extent,
    i: int,
) -> bool {
    match child_at(img, bs, node, depth, i) {
        Err(e) => child_at(other, bs, node, depth, i) == Err::<Seq<u8>, Error>(e),
        Ok(c) => {
            &&& child_at(other, bs, node, depth, i) is Ok
            &&& header_at(child_at(other, bs, node, depth, i)->Ok_0).entries > 0
            &&& kept(
                img,
                other,
                bs,
                c,
                child_at(other, bs, node, depth, i)->Ok_0,
                (depth - 1) as nat,
                start_of(node, i),
                stop_of(node, i, hi),
                new,
            )
        },
    }
}

/// A node all of whose children are kept is kept.
proof fn lemma_compose(
    img: Seq<u8>,
    other: Seq<u8>,
    bs: int,
    node: Seq<u8>,
    depth: nat,
    lo: int,
    hi: int,
    new: Extent,
)
    requires
        depth > 0,
        ordered(img, bs, node, depth, lo, hi),
        forall|i: int|
            0 <= i < header_at(node).entries ==> #[trigger] child_kept(img, other, bs, node, depth, lo, hi, new, i),
    ensures
        kept(img, other, bs, node, node, depth, lo, hi, new),
{
    assert(ordered(other, bs, node, depth, lo, hi)) by {
        assert forall|i: int| 0 <= i < header_at(node).entries implies ((#[trigger] child_at(
            other,
            bs,
            node,
            depth,
            i,
        )) matches Ok(c) ==> header_at(c).entries > 0 && ordered(
            other,
            bs,
            c,
            (depth - 1) as nat,
            start_of(node, i),
            stop_of(node, i, hi),
        )) by {
            assert(child_kept(img, other, bs, node, depth, lo, hi, new, i));
        }
    }
    assert forall|l: int| !new.covers(l) implies where_is(#[trigger] lookup_in(other, bs, node, depth, l, None), l)
        == where_is(lookup_in(img, bs, node, depth, l, None), l) by {
        let n = header_at(node).entries as int;
        lemma_pick(node, n, l);
        let i = pick(node, n, l);
        if i >= 0 {
            assert(child_kept(img, other, bs, node, depth, lo, hi, new, i));
            if child_at(img, bs, node, depth, i) is Ok {
                let c = child_at(other, bs, node, depth, i)->Ok_0;
                assert(where_is(lookup_in(other, bs, c, (depth - 1) as nat, l, None), l) == where_is(
                    lookup_in(img, bs, child_at(img, bs, node, depth, i)->Ok_0, (depth - 1) as nat, l, None),
                    l,
                ));
            }
        }
    }
}

/// A leaf with an extent of its own range inserted is kept.
proof fn lemma_leaf_kept(
    img: Seq<u8>,
    other: Seq<u8>,
    bs: int,
    leaf: Seq<u8>,
    after: Seq<u8>,
    lo: int,
    hi: int,
    new: Extent,
)
    requires
        ordered(img, bs, leaf, 0, lo, hi),
        extents_of_leaf(after) == inserted(extents_of_leaf(leaf), new),
        !any_overlap(extents_of_leaf(leaf), new),
        new.length > 0,
        lo <= new.logical_block < hi,
    ensures
        kept(img, other, bs, leaf, after, 0, lo, hi, new),
{
    let es = extents_of_leaf(leaf);
    lemma_inserted_ordered(es, new, lo, hi);
    assert forall|l: int| !new.covers(l) implies where_is(#[trigger] lookup_in(other, bs, after, 0, l, None), l)
        == where_is(lookup_in(img, bs, leaf, 0, l, None), l) by {
        lemma_covering_inserted(es, new, l, lo, hi);
    }
}

/// A tree that did not change is kept.
proof fn lemma_same_kept(
    img: Seq<u8>,
    other: Seq<u8>,
    bs: int,
    node: Seq<u8>,
    lo: int,
    hi: int,
    new: Extent,
)
    requires
        ordered(img, bs, node, 0, lo, hi),
    ensures
        kept(img, other, bs, node, node, 0, lo, hi, new),
{
}

/// The range of the leaf that a lookup of `x` ends in.
pub open spec fn leaf_range(img: Seq<u8>, bs: int, node: Seq<u8>, depth: nat, lo: int, hi: int, x: int) -> (int, int)
    decreases depth,
{
    if depth == 0 {
        (lo, hi)
    } else {
        let i = pick(node, header_at(node).entries as int, x);
        leaf_range(
            img,
            bs,
            child_at(img, bs, node, depth, i)->Ok_0,
            (depth - 1) as nat,
            start_of(node, i),
            stop_of(node, i, hi),
            x,
        )
    }
}

/// The range of the leaf that a path ends in lies within every range on the
/// way, and holds what the path was for.
proof fn lemma_range_within(
    img: Seq<u8>,
    bs: int,
    node: Seq<u8>,
    block: Option<u64>,
    depth: nat,
    lo: int,
    hi: int,
    x: int,
)
    requires
        depth > 0,
        ordered(img, bs, node, depth, lo, hi),
        lo <= x < hi,
        leaf_path(img, bs, node, block, depth, x) is Ok,
    ensures
        ({
            let (a, b) = leaf_range(img, bs, node, depth, lo, hi, x);
            let i = pick(node, header_at(node).entries as int, x);
            let p = leaf_path(img, bs, node, block, depth, x)->Ok_0;
            &&& lo <= a <= x < b <= hi
            &&& 0 <= i < header_at(node).entries
            &&& start_of(node, i) <= a
            &&& b <= stop_of(node, i, hi)
            &&& child_at(img, bs, node, depth, i) is Ok
            &&& ordered(img, bs, p.leaf, 0, a, b)
            &&& header_at(p.leaf).entries > 0
        }),
    decreases depth,
{
    let n = header_at(node).entries as int;
    let i = pick(node, n, x);
    lemma_pick(node, n, x);
    assert(start_of(node, i) <= x);
    if i + 1 < n {
        assert(start_of(node, i + 1) > x);
    }
    let c = child_at(img, bs, node, depth, i)->Ok_0;
    let b = index_at(node, 12 + 12 * i).leaf_block;
    assert(child_at(img, bs, node, depth, i) is Ok);
    if depth > 1 {
        lemma_range_within(img, bs, c, Some(b), (depth - 1) as nat, start_of(node, i), stop_of(node, i, hi), x);
    } else {
        reveal_with_fuel(leaf_range, 2);
    }
}

/// Two children are responsible for different blocks.
proof fn lemma_apart(node: Seq<u8>, lo: int, hi: int, i: int, j: int)
    requires
        starts_ordered(node, lo, hi),
        0 <= i < header_at(node).entries,
        0 <= j < header_at(node).entries,
        i != j,
    ensures
        stop_of(node, i, hi) <= start_of(node, j) || stop_of(node, j, hi) <= start_of(node, i),
        lo <= start_of(node, i) < stop_of(node, i, hi) <= hi,
{
    if i < j {
        if i + 1 < j {
            assert(start_of(node, i + 1) < start_of(node, j));
        }
    } else {
        if j + 1 < i {
            assert(start_of(node, j + 1) < start_of(node, i));
        }
    }
    if i + 1 < header_at(node).entries {
        assert(start_of(node, i) < start_of(node, i + 1));
        assert(start_of(node, i + 1) < hi);
    }
}

proof fn lemma_child_range(node: Seq<u8>, lo: int, hi: int, i: int)
    requires
        starts_ordered(node, lo, hi),
        0 <= i < header_at(node).entries,
    ensures
        lo <= start_of(node, i) < stop_of(node, i, hi) <= hi,
{
    if i + 1 < header_at(node).entries {
        assert(start_of(node, i) < start_of(node, i + 1));
        assert(start_of(node, i + 1) < hi);
    }
}

/// A leaf that is not empty is responsible for one range only.
proof fn lemma_one_range(img: Seq<u8>, bs: int, leaf: Seq<u8>, a: int, b: int, lo: int, hi: int)
    requires
        ordered(img, bs, leaf, 0, a, b),
        ordered(img, bs, leaf, 0, lo, hi),
        header_at(leaf).entries > 0,
    ensures
        !(b <= lo || hi <= a),
{
    let e = extents_of_leaf(leaf)[0];
    assert(lo <= e.logical_block < hi && a <= e.logical_block < b);
}

/// A tree with one leaf rewritten is kept. `on` says that the way to the leaf
/// leads through `node`; otherwise the leaf's range is none of `node`'s.
proof fn lemma_leaf_change(
    img: Seq<u8>,
    other: Seq<u8>,
    bs: int,
    node: Seq<u8>,
    block: Option<u64>,
    depth: nat,
    lo: int,
    hi: int,
    new: Extent,
    at: u64,
    leaf: Seq<u8>,
    after: Seq<u8>,
    on: bool,
    a: int,
    b: int,
)
    requires
        depth > 0,
        ordered(img, bs, node, depth, lo, hi),
        forall|k: int| k >= 0 && k != at ==> #[trigger] block_at(other, bs, k) == block_at(img, bs, k),
        child_node(img, bs, at, 0, None) == Ok::<Seq<u8>, Error>(leaf),
        child_node(other, bs, at, 0, None) == Ok::<Seq<u8>, Error>(after),
        header_at(leaf).entries > 0,
        header_at(after).entries > 0,
        extents_of_leaf(after) == inserted(extents_of_leaf(leaf), new),
        !any_overlap(extents_of_leaf(leaf), new),
        new.length > 0,
        ordered(img, bs, leaf, 0, a, b),
        a <= new.logical_block < b,
        on ==> {
            let x = new.logical_block as int;
            &&& lo <= x < hi
            &&& leaf_range(img, bs, node, depth, lo, hi, x) == (a, b)
            &&& leaf_path(img, bs, node, block, depth, x) is Ok
            &&& leaf_path(img, bs, node, block, depth, x)->Ok_0.leaf_block == at
        },
        !on ==> b <= lo || hi <= a,
    ensures
        kept(img, other, bs, node, node, depth, lo, hi, new),
    decreases depth,
{
    let n = header_at(node).entries as int;
    let x = new.logical_block as int;
    let j = pick(node, n, x);
    if on {
        lemma_range_within(img, bs, node, block, depth, lo, hi, x);
        lemma_pick(node, n, x);
    }
    assert forall|i: int| 0 <= i < n implies #[trigger] child_kept(img, other, bs, node, depth, lo, hi, new, i) by {
        let blk = index_at(node, 12 + 12 * i).leaf_block;
        let here = on && i == j;
        lemma_child_range(node, lo, hi, i);
        if on && i != j {
            lemma_apart(node, lo, hi, i, j);
        }
        let from = start_of(node, i);
        let to = stop_of(node, i, hi);
        if blk == at {
            if depth == 1 {
                assert(child_at(img, bs, node, depth, i) == Ok::<Seq<u8>, Error>(leaf));
                if here {
                    reveal_with_fuel(leaf_range, 2);
                    assert(from == a && to == b);
                    lemma_leaf_kept(img, other, bs, leaf, after, a, b, new);
                } else {
                    lemma_one_range(img, bs, leaf, a, b, from, to);
                }
            }
        } else {
            assert(block_at(other, bs, blk as int) == block_at(img, bs, blk as int));
            assert(child_at(other, bs, node, depth, i) == child_at(img, bs, node, depth, i));
            if child_at(img, bs, node, depth, i) is Ok {
                let c = child_at(img, bs, node, depth, i)->Ok_0;
                if depth == 1 {
                    lemma_same_kept(img, other, bs, c, from, to, new);
                } else {
                    lemma_leaf_change(
                        img,
                        other,
                        bs,
                        c,
                        Some(blk),
                        (depth - 1) as nat,
                        from,
                        to,
                        new,
                        at,
                        leaf,
                        after,
                        here,
                        a,
                        b,
                    );
                }
            }
        }
    }
    lemma_compose(img, other, bs, node, depth, lo, hi, new);
}

proof fn lemma_pick_unique(node: Seq<u8>, n: int, l: int, j: int)
    requires
        -1 <= j < n,
        j >= 0 ==> start_of(node, j) <= l,
        forall|m: int| j < m < n ==> #[trigger] start_of(node, m) > l,
    ensures
        pick(node, n, l) == j,
    decreases n,
{
    if j < n - 1 {
        assert(start_of(node, n - 1) > l);
        lemma_pick_unique(node, n - 1, l, j);
    }
}

/// What splitting a leaf leaves behind: two leaves, and a parent with one entry
/// more, right behind the entry for the old leaf.
pub open spec fn split_at(
    img: Seq<u8>,
    other: Seq<u8>,
    bs: int,
    parent: Seq<u8>,
    grown: Seq<u8>,
    i: int,
    at: u64,
    s: u64,
    above: Option<u64>,
    leaf: Seq<u8>,
    one: Seq<u8>,
    two: Seq<u8>,
    k: int,
    new: Extent,
) -> bool {
    let n = header_at(parent).entries as int;
    let out = inserted(extents_of_leaf(leaf), new);
    &&& forall|x: int|
        x >= 0 && x != at && x != s && !(above matches Some(p) && p == x) ==> #[trigger] block_at(other, bs, x)
            == block_at(img, bs, x)
    &&& above matches Some(p) ==> child_node(img, bs, p, 1, None) == Ok::<Seq<u8>, Error>(parent) && child_node(
        other,
        bs,
        p,
        1,
        None,
    ) == Ok::<Seq<u8>, Error>(grown)
    &&& 0 <= i < n
    &&& index_at(parent, 12 + 12 * i).leaf_block == at
    &&& child_node(img, bs, at, 0, None) == Ok::<Seq<u8>, Error>(leaf)
    &&& child_node(other, bs, at, 0, None) == Ok::<Seq<u8>, Error>(one)
    &&& child_node(other, bs, s, 0, None) == Ok::<Seq<u8>, Error>(two)
    &&& header_at(leaf).entries > 0
    &&& header_at(one).entries > 0
    &&& header_at(two).entries > 0
    &&& 0 < k < out.len()
    &&& extents_of_leaf(one) == out.take(k)
    &&& extents_of_leaf(two) == out.skip(k)
    &&& !any_overlap(extents_of_leaf(leaf), new)
    &&& new.length > 0
    &&& header_at(grown).entries == n + 1
    &&& forall|j: int| 0 <= j <= i ==> #[trigger] index_at(grown, 12 + 12 * j) == index_at(parent, 12 + 12 * j)
    &&& index_at(grown, 12 + 12 * (i + 1)) == (ExtentIdx { logical_block: out[k].logical_block, leaf_block: s })
    &&& forall|j: int|
        i + 1 < j <= n ==> #[trigger] index_at(grown, 12 + 12 * j) == index_at(parent, 12 + 12 * (j - 1))
}

/// The parent of a leaf that was split is kept.
#[verifier::rlimit(40)]
proof fn lemma_parent_split(
    img: Seq<u8>,
    other: Seq<u8>,
    bs: int,
    parent: Seq<u8>,
    grown: Seq<u8>,
    i: int,
    at: u64,
    s: u64,
    above: Option<u64>,
    leaf: Seq<u8>,
    one: Seq<u8>,
    two: Seq<u8>,
    k: int,
    new: Extent,
    lo: int,
    hi: int,
)
    requires
        split_at(img, other, bs, parent, grown, i, at, s, above, leaf, one, two, k, new),
        ordered(img, bs, parent, 1, lo, hi),
        start_of(parent, i) <= new.logical_block < stop_of(parent, i, hi),
        forall|j: int|
            0 <= j < header_at(parent).entries ==> (#[trigger] index_at(parent, 12 + 12 * j)).leaf_block != s,
    ensures
        kept(img, other, bs, parent, grown, 1, lo, hi, new),
{
    reveal_with_fuel(ordered, 2);
    reveal_with_fuel(lookup_in, 2);
    let n = header_at(parent).entries as int;
    let es = extents_of_leaf(leaf);
    let out = inserted(es, new);
    let from = start_of(parent, i);
    let to = stop_of(parent, i, hi);
    assert(child_at(img, bs, parent, 1, i) == Ok::<Seq<u8>, Error>(leaf));
    assert(list_ordered(es, from, to));
    lemma_inserted_ordered(es, new, from, to);
    lemma_halves(out, k, from, to, 0);
    let mid = out[k].logical_block as int;
    lemma_child_range(parent, lo, hi, i);
    assert(starts_ordered(grown, lo, hi)) by {
        assert forall|x: int| 0 <= x <= n implies #[trigger] start_of(grown, x) == (if x <= i {
            start_of(parent, x)
        } else if x == i + 1 {
            mid
        } else {
            start_of(parent, x - 1)
        }) by {
            assert(index_at(grown, 12 + 12 * x) == index_at(grown, 12 + 12 * x));
        }
        assert forall|x: int, y: int| 0 <= x < y <= n implies #[trigger] start_of(grown, x) < #[trigger] start_of(
            grown,
            y,
        ) by {
            if x <= i && y == i + 1 {
                if x < i {
                    assert(start_of(parent, x) < start_of(parent, i));
                }
            } else if x == i + 1 && y > i + 1 {
                assert(start_of(parent, i + 1) >= to);
                if y - 1 > i + 1 {
                    assert(start_of(parent, i + 1) < start_of(parent, y - 1));
                }
            } else if x <= i && y > i + 1 {
                assert(start_of(parent, x) < start_of(parent, y - 1));
            } else if x > i + 1 {
                assert(start_of(parent, x - 1) < start_of(parent, y - 1));
            }
        }
    }
    assert forall|j: int| 0 <= j < n && j != i implies index_at(parent, 12 + 12 * j).leaf_block != at && #[trigger] child_at(
        other,
        bs,
        parent,
        1,
        j,
    ) == child_at(img, bs, parent, 1, j) by {
        let blk = index_at(parent, 12 + 12 * j).leaf_block;
        if blk == at {
            assert(child_at(img, bs, parent, 1, j) == Ok::<Seq<u8>, Error>(leaf));
            lemma_apart(parent, lo, hi, i, j);
            lemma_one_range(img, bs, leaf, from, to, start_of(parent, j), stop_of(parent, j, hi));
        }
        if above != Some(blk) {
            assert(block_at(other, bs, blk as int) == block_at(img, bs, blk as int));
        }
    }
    assert(ordered(other, bs, grown, 1, lo, hi)) by {
        assert forall|j: int| 0 <= j < n + 1 implies ((#[trigger] child_at(other, bs, grown, 1, j)) matches Ok(c)
            ==> header_at(c).entries > 0 && ordered(other, bs, c, 0, start_of(grown, j), stop_of(grown, j, hi))) by {
            assert(index_at(grown, 12 + 12 * j) == index_at(grown, 12 + 12 * j));
            if j + 1 <= n {
                assert(index_at(grown, 12 + 12 * (j + 1)) == index_at(grown, 12 + 12 * (j + 1)));
            }
            if j < i {
                assert(child_at(other, bs, grown, 1, j) == child_at(img, bs, parent, 1, j)) by {
                    assert(child_at(other, bs, parent, 1, j) == child_at(img, bs, parent, 1, j));
                }
            } else if j > i + 1 {
                assert(child_at(other, bs, grown, 1, j) == child_at(img, bs, parent, 1, j - 1)) by {
                    assert(child_at(other, bs, parent, 1, j - 1) == child_at(img, bs, parent, 1, j - 1));
                }
            } else if j == i {
                assert(child_at(other, bs, grown, 1, j) == Ok::<Seq<u8>, Error>(one));
            } else {
                assert(child_at(other, bs, grown, 1, j) == Ok::<Seq<u8>, Error>(two));
                assert(stop_of(grown, j, hi) == to);
            }
        }
    }
    assert forall|l: int| !new.covers(l) implies where_is(#[trigger] lookup_in(other, bs, grown, 1, l, None), l)
        == where_is(lookup_in(img, bs, parent, 1, l, None), l) by {
        lemma_split_lookup(img, other, bs, parent, grown, i, at, s, above, leaf, one, two, k, new, lo, hi, l);
    }
}

/// A lookup in the parent of a leaf that was split.
proof fn lemma_split_lookup(
    img: Seq<u8>,
    other: Seq<u8>,
    bs: int,
    parent: Seq<u8>,
    grown: Seq<u8>,
    i: int,
    at: u64,
    s: u64,
    above: Option<u64>,
    leaf: Seq<u8>,
    one: Seq<u8>,
    two: Seq<u8>,
    k: int,
    new: Extent,
    lo: int,
    hi: int,
    l: int,
)
    requires
        split_at(img, other, bs, parent, grown, i, at, s, above, leaf, one, two, k, new),
        ordered(img, bs, parent, 1, lo, hi),
        list_ordered(extents_of_leaf(leaf), start_of(parent, i), stop_of(parent, i, hi)),
        start_of(parent, i) <= new.logical_block < stop_of(parent, i, hi),
        forall|j: int|
            0 <= j < header_at(parent).entries && j != i ==> #[trigger] child_at(other, bs, parent, 1, j) == child_at(
                img,
                bs,
                parent,
                1,
                j,
            ),
        !new.covers(l),
    ensures
        where_is(lookup_in(other, bs, grown, 1, l, None), l) == where_is(lookup_in(img, bs, parent, 1, l, None), l),
{
    reveal_with_fuel(lookup_in, 2);
    let n = header_at(parent).entries as int;
    let es = extents_of_leaf(leaf);
    let out = inserted(es, new);
    let from = start_of(parent, i);
    let to = stop_of(parent, i, hi);
    lemma_inserted_ordered(es, new, from, to);
    lemma_halves(out, k, from, to, l);
    let mid = out[k].logical_block as int;
    let j = pick(parent, n, l);
    lemma_pick(parent, n, l);
    assert forall|x: int| 0 <= x <= n implies #[trigger] start_of(grown, x) == (if x <= i {
        start_of(parent, x)
    } else if x == i + 1 {
        mid
    } else {
        start_of(parent, x - 1)
    }) by {
        assert(index_at(grown, 12 + 12 * x) == index_at(grown, 12 + 12 * x));
    }
    let g = if j < i {
        j
    } else if j > i {
        j + 1
    } else if l < mid {
        i
    } else {
        i + 1
    };
    assert forall|m: int| g < m < n + 1 implies #[trigger] start_of(grown, m) > l by {
        if m <= i {
            assert(start_of(parent, m) > l);
        } else if m == i + 1 {
            if j < i {
                assert(start_of(parent, i) > l);
            }
        } else {
            assert(start_of(parent, m - 1) > l);
        }
    }
    lemma_pick_unique(grown, n + 1, l, g);
    lemma_pick(grown, n + 1, l);
    if g >= 0 {
        assert(index_at(grown, 12 + 12 * g) == index_at(grown, 12 + 12 * g));
        if j == i {
            lemma_covering_inserted(es, new, l, from, to);
            assert(child_at(img, bs, parent, 1, i) == Ok::<Seq<u8>, Error>(leaf));
            if l < mid {
                assert(child_at(other, bs, grown, 1, g) == Ok::<Seq<u8>, Error>(one));
            } else {
                assert(child_at(other, bs, grown, 1, g) == Ok::<Seq<u8>, Error>(two));
            }
        } else {
            assert(child_at(other, bs, parent, 1, j) == child_at(img, bs, parent, 1, j));
            assert(child_at(other, bs, grown, 1, g) == child_at(img, bs, parent, 1, j));
        }
    }
}

/// A tree with one leaf split is kept above the leaf's parent. `on` says that
/// the way to the leaf leads through `node`; otherwise the leaf's range is none
/// of `node`'s.
#[verifier::rlimit(40)]
proof fn lemma_split_change(
    img: Seq<u8>,
    other: Seq<u8>,
    bs: int,
    node: Seq<u8>,
    block: Option<u64>,
    depth: nat,
    lo: int,
    hi: int,
    path: LeafPathView,
    grown: Seq<u8>,
    i: int,
    s: u64,
    one: Seq<u8>,
    two: Seq<u8>,
    k: int,
    new: Extent,
    on: bool,
    a: int,
    b: int,
)
    requires
        depth > 0,
        on ==> depth > 1,
        path.parent_block is Some,
        split_at(
            img,
            other,
            bs,
            path.parent,
            grown,
            i,
            path.leaf_block,
            s,
            path.parent_block,
            path.leaf,
            one,
            two,
            k,
            new,
        ),
        i == pick(path.parent, header_at(path.parent).entries as int, new.logical_block as int),
        ordered(img, bs, node, depth, lo, hi),
        !tree_node(img, bs, node, depth, s as int),
        ordered(img, bs, path.leaf, 0, a, b),
        a <= new.logical_block < b,
        on ==> {
            let x = new.logical_block as int;
            &&& lo <= x < hi
            &&& leaf_range(img, bs, node, depth, lo, hi, x) == (a, b)
            &&& leaf_path(img, bs, node, block, depth, x) == Ok::<LeafPathView, Error>(path)
        },
        !on ==> b <= lo || hi <= a,
    ensures
        kept(img, other, bs, node, node, depth, lo, hi, new),
    decreases depth,
{
    let n = header_at(node).entries as int;
    let x = new.logical_block as int;
    let j = pick(node, n, x);
    let above = path.parent_block->Some_0;
    if on {
        lemma_range_within(img, bs, node, block, depth, lo, hi, x);
        lemma_pick(node, n, x);
    }
    assert forall|m: int| 0 <= m < n implies #[trigger] child_kept(img, other, bs, node, depth, lo, hi, new, m) by {
        let blk = index_at(node, 12 + 12 * m).leaf_block;
        let here = on && m == j;
        let from = start_of(node, m);
        let to = stop_of(node, m, hi);
        assert(points_to(node, blk));
        lemma_points_within(img, bs, node, depth, blk);
        lemma_child_range(node, lo, hi, m);
        if on && m != j {
            lemma_apart(node, lo, hi, m, j);
        }
        if blk == above {
            if depth == 2 {
                let c = path.parent;
                assert(child_at(img, bs, node, depth, m) == Ok::<Seq<u8>, Error>(c));
                assert(ordered(img, bs, c, 1, from, to));
                lemma_child_range(c, from, to, i);
                assert(child_at(img, bs, c, 1, i) == Ok::<Seq<u8>, Error>(path.leaf));
                if here {
                    lemma_range_within(img, bs, c, Some(blk), 1, from, to, x);
                    assert forall|y: int| 0 <= y < header_at(c).entries implies (#[trigger] index_at(
                        c,
                        12 + 12 * y,
                    )).leaf_block != s by {
                        if index_at(c, 12 + 12 * y).leaf_block == s {
                            assert(points_to(c, s));
                            lemma_points_within(img, bs, c, 1, s);
                            lemma_under(img, bs, node, depth, m, s as int);
                        }
                    }
                    lemma_pick(c, header_at(c).entries as int, x);
                    if i + 1 < header_at(c).entries {
                        assert(start_of(c, i + 1) > x);
                    }
                    lemma_parent_split(
                        img,
                        other,
                        bs,
                        c,
                        grown,
                        i,
                        path.leaf_block,
                        s,
                        path.parent_block,
                        path.leaf,
                        one,
                        two,
                        k,
                        new,
                        from,
                        to,
                    );
                } else {
                    reveal_with_fuel(ordered, 2);
                    lemma_one_range(img, bs, path.leaf, a, b, start_of(c, i), stop_of(c, i, to));
                }
            }
        } else if blk == path.leaf_block {
            if depth == 1 {
                assert(child_at(img, bs, node, depth, m) == Ok::<Seq<u8>, Error>(path.leaf));
                lemma_one_range(img, bs, path.leaf, a, b, from, to);
            }
        } else {
            assert(block_at(other, bs, blk as int) == block_at(img, bs, blk as int));
            assert(child_at(other, bs, node, depth, m) == child_at(img, bs, node, depth, m));
            if child_at(img, bs, node, depth, m) is Ok {
                let c = child_at(img, bs, node, depth, m)->Ok_0;
                if depth == 1 {
                    lemma_same_kept(img, other, bs, c, from, to, new);
                } else {
                    if tree_node(img, bs, c, (depth - 1) as nat, s as int) {
                        lemma_under(img, bs, node, depth, m, s as int);
                    }
                    lemma_split_change(
                        img,
                        other,
                        bs,
                        c,
                        Some(blk),
                        (depth - 1) as nat,
                        from,
                        to,
                        path,
                        grown,
                        i,
                        s,
                        one,
                        two,
                        k,
                        new,
                        here,
                        a,
                        b,
                    );
                }
            }
        }
    }
    lemma_compose(img, other, bs, node, depth, lo, hi, new);
}

/// A root whose first child reaches further down maps what it mapped.
proof fn lemma_low_kept(img: Seq<u8>, bs: int, root: Seq<u8>, hi: int, new: Extent)
    requires
        root.len() == 60,
        header_of(root) is Ok,
        header_at(root).depth == 1,
        ordered(img, bs, root, 1, 0, hi),
        new.logical_block < hi,
        leaf_path(img, bs, lowered(root, new.logical_block), None, 1, new.logical_block as int) is Ok,
    ensures
        kept(img, img, bs, root, lowered(root, new.logical_block), 1, 0, hi, new),
        header_at(lowered(root, new.logical_block)) == header_at(root),
{
    broadcast use crate::bytes::group_fields;

    reveal_with_fuel(ordered, 2);
    reveal_with_fuel(lookup_in, 2);
    let x = new.logical_block as int;
    let low = lowered(root, new.logical_block);
    let n = header_at(root).entries as int;
    if low != root {
        assert forall|i: int| 0 <= i < n implies index_at(low, 12 + 12 * i).leaf_block == index_at(
            root,
            12 + 12 * i,
        ).leaf_block && (i > 0 ==> #[trigger] start_of(low, i) == start_of(root, i)) by {
        }
        assert(start_of(low, 0) == x);
        assert forall|i: int| 0 <= i < n implies #[trigger] child_at(img, bs, low, 1, i) == child_at(img, bs, root, 1, i) by {
            assert(start_of(low, i) == start_of(low, i));
        }
        assert(starts_ordered(low, 0, hi)) by {
            assert forall|i: int, j: int| 0 <= i < j < n implies #[trigger] start_of(low, i) < #[trigger] start_of(low, j) by {
                assert(start_of(root, i) < start_of(root, j));
                assert(start_of(root, 0) < start_of(root, j));
            }
            assert forall|i: int| 0 <= i < n implies 0 <= #[trigger] start_of(low, i) < hi by {
                assert(start_of(root, i) < hi);
            }
        }
        lemma_pick(low, n, x);
        lemma_pick_unique(low, n, x, 0);
        let c = child_at(img, bs, root, 1, 0)->Ok_0;
        assert(child_at(img, bs, low, 1, 0) is Ok);
        assert forall|i: int| 0 <= i < n implies ((#[trigger] child_at(img, bs, low, 1, i)) matches Ok(d)
            ==> header_at(d).entries > 0 && ordered(img, bs, d, 0, start_of(low, i), stop_of(low, i, hi))) by {
            assert(child_at(img, bs, low, 1, i) == child_at(img, bs, root, 1, i));
            assert(start_of(low, i) <= start_of(root, i));
            if i + 1 < n {
                assert(start_of(low, i + 1) == start_of(root, i + 1));
            }
        }
        assert forall|l: int| !new.covers(l) implies where_is(#[trigger] lookup_in(img, bs, low, 1, l, None), l)
            == where_is(lookup_in(img, bs, root, 1, l, None), l) by {
            let j = pick(root, n, l);
            lemma_pick(root, n, l);
            lemma_pick(low, n, l);
            if j > 0 {
                assert forall|m: int| j < m < n implies #[trigger] start_of(low, m) > l by {
                    assert(start_of(root, m) > l);
                }
                assert(start_of(low, j) == start_of(root, j));
                lemma_pick_unique(low, n, l, j);
                assert(child_at(img, bs, low, 1, j) == child_at(img, bs, root, 1, j));
            } else {
                assert forall|m: int| 0 < m < n implies #[trigger] start_of(low, m) > l by {
                    assert(start_of(root, m) > l);
                }
                if l >= x {
                    lemma_pick_unique(low, n, l, 0);
                    assert(child_at(img, bs, low, 1, 0) == child_at(img, bs, root, 1, 0));
                    if j < 0 {
                        let es = extents_of_leaf(c);
                        assert forall|m: int| 0 <= m < es.len() implies !(#[trigger] es[m]).covers(l) by {
                            assert(start_of(root, 0) <= es[m].logical_block);
                            assert(start_of(root, 0) > l);
                        }
                        lemma_covering_none(es, l);
                    }
                } else {
                    lemma_pick_unique(low, n, l, -1);
                    if j == 0 {
                        assert(start_of(root, 0) <= l);
                    }
                }
            }
        }
    }
}

// -- an insertion -----------------------------------------------------------

/// How many blocks a file can have.
pub const FILE_BLOCKS: u64 = 0x1_0000_0000;

/// The tree of a file is in order.
pub open spec fn tree_in_order(img: Seq<u8>, bs: int, root: Seq<u8>) -> bool {
    &&& header_of(root) is Ok
    &&& header_at(root).max >= 1
    &&& ordered(img, bs, root, header_at(root).depth as nat, 0, FILE_BLOCKS as int)
}

/// Every block that `new` does not cover is where it was.
pub open spec fn same_elsewhere(
    img: Seq<u8>,
    root: Seq<u8>,
    other: Seq<u8>,
    grown: Seq<u8>,
    bs: int,
    new: Extent,
) -> bool {
    forall|l: int|
        !new.covers(l) ==> where_is(#[trigger] extent_for(other, bs, grown, l, None), l) == where_is(
            extent_for(img, bs, root, l, None),
            l,
        )
}

proof fn lemma_kept_is(
    img: Seq<u8>,
    other: Seq<u8>,
    bs: int,
    root: Seq<u8>,
    grown: Seq<u8>,
    new: Extent,
)
    requires
        header_of(root) is Ok,
        header_of(grown) is Ok,
        header_at(grown).max >= 1,
        header_at(grown).depth == header_at(root).depth,
        kept(img, other, bs, root, grown, header_at(root).depth as nat, 0, FILE_BLOCKS as int, new),
    ensures
        tree_in_order(other, bs, grown),
        same_elsewhere(img, root, other, grown, bs, new),
{
    assert forall|l: int| !new.covers(l) implies where_is(#[trigger] extent_for(other, bs, grown, l, None), l)
        == where_is(extent_for(img, bs, root, l, None), l) by {
        assert(where_is(lookup_in(other, bs, grown, header_at(root).depth as nat, l, None), l) == where_is(
            lookup_in(img, bs, root, header_at(root).depth as nat, l, None),
            l,
        ));
    }
}

/// An insertion into a root that has room.
proof fn lemma_root_kept(img: Seq<u8>, bs: int, root: Seq<u8>, new: Extent)
    requires
        root.len() == 60,
        storable(new),
        new.length > 0,
        tree_in_order(img, bs, root),
        header_at(root).depth == 0,
        leaf_insert(root, new) is Ok,
        leaf_insert(root, new)->Ok_0 is Some,
    ensures
        tree_in_order(img, bs, leaf_insert(root, new)->Ok_0->Some_0),
        same_elsewhere(img, root, img, leaf_insert(root, new)->Ok_0->Some_0, bs, new),
        finds_new(
            extent_for(img, bs, leaf_insert(root, new)->Ok_0->Some_0, new.logical_block as int, None),
            new,
        ),
{
    let h = header_at(root);
    let es = extents_of_leaf(root);
    let out = inserted(es, new);
    let grown = leaf_insert(root, new)->Ok_0->Some_0;
    lemma_read_storable(root, h.entries as nat);
    lemma_inserted_storable(es, new);
    lemma_leaf_fields(h, out, 60);
    lemma_leaf_kept(img, img, bs, root, grown, 0, FILE_BLOCKS as int, new);
    lemma_kept_is(img, img, bs, root, grown, new);
    lemma_covering_new(es, new);
}

/// A leaf that was laid out with this header, stamped and staged, reads as the
/// leaf it was laid out as.
proof fn lemma_leaf_stands(
    v: Vol,
    ino: u32,
    generation: u32,
    img: Seq<u8>,
    at: u64,
    h: ExtentHeader,
    es: Seq<Extent>,
)
    requires
        v.wf(),
        h.depth == 0,
        0 < es.len() <= h.max,
        12 + 12 * h.max <= v.bs(),
        all_storable(es),
        block_at(img, v.bs(), at as int) == Ok::<Seq<u8>, Error>(
            node_stamped(v, ino, generation, node_bytes(h, es, v.bs() as nat)),
        ),
    ensures
        child_node(img, v.bs(), at, 0, None) is Ok,
        header_at(child_node(img, v.bs(), at, 0, None)->Ok_0).entries > 0,
        extents_of_leaf(child_node(img, v.bs(), at, 0, None)->Ok_0) == es,
{
    let node = node_bytes(h, es, v.bs() as nat);
    lemma_leaf_fields(h, es, v.bs() as nat);
    lemma_node_stamped(v, ino, generation, node);
}

/// An insertion that moves the root's extents to a leaf of their own.
#[verifier::rlimit(40)]
proof fn lemma_promoted_kept(v: Vol, st: Stage, ino: u32, generation: u32, root: Seq<u8>, new: Extent, s: u64)
    requires
        v.wf(),
        st.img.len() == v.img.len(),
        root.len() == 60,
        storable(new),
        new.length > 0,
        tree_in_order(st.img, v.bs(), root),
        header_at(root).depth == 0,
        s < 0x1_0000_0000_0000,
        !any_overlap(extents_of_leaf(root), new),
        inserted(extents_of_leaf(root), new).len() <= block_capacity(v.bs(), v.csum.enabled),
        stage_nodes(
            v,
            st,
            ino,
            generation,
            promoted(root, v.bs(), inserted(extents_of_leaf(root), new), s, v.csum.enabled)->writes,
        ) is Ok,
    ensures
        ({
            let out = promoted(root, v.bs(), inserted(extents_of_leaf(root), new), s, v.csum.enabled);
            let after = stage_nodes(v, st, ino, generation, out->writes)->Ok_0;
            &&& tree_in_order(after.img, v.bs(), out->Done_root)
            &&& same_elsewhere(st.img, root, after.img, out->Done_root, v.bs(), new)
            &&& finds_new(extent_for(after.img, v.bs(), out->Done_root, new.logical_block as int, None), new)
        }),
{
    let bs = v.bs();
    let h = header_at(root);
    let es = extents_of_leaf(root);
    let out = inserted(es, new);
    let plan = promoted(root, bs, out, s, v.csum.enabled);
    let writes = plan->writes;
    let grown = plan->Done_root;
    let cap = block_capacity(bs, v.csum.enabled);
    lemma_inserted_len(es, new);
    lemma_read_storable(root, h.entries as nat);
    lemma_inserted_storable(es, new);
    lemma_inserted_ordered(es, new, 0, FILE_BLOCKS as int);
    let idx = ExtentIdx { logical_block: out[0].logical_block, leaf_block: s };
    lemma_index_fields(ExtentHeader { depth: 1, ..h }, seq![idx], 60);
    assert(index_at(grown, 12 + 12 * 0int) == idx);
    let lh = ExtentHeader { max: cap as u16, depth: 0, ..h };
    let node = node_bytes(lh, out, bs as nat);
    lemma_leaf_fields(lh, out, bs as nat);
    assert(writes[0] == (s, node));
    lemma_nodes_written(v, st, ino, generation, writes);
    let after = stage_nodes(v, st, ino, generation, writes)->Ok_0;
    assert(block_at(after.img, bs, writes[0].0 as int) == Ok::<Seq<u8>, Error>(
        node_stamped(v, ino, generation, node),
    ));
    lemma_leaf_stands(v, ino, generation, after.img, s, lh, out);
    let c = child_node(after.img, bs, s, 0, None)->Ok_0;
    let first = out[0].logical_block as int;
    assert(start_of(grown, 0) == first);
    reveal_with_fuel(ordered, 2);
    reveal_with_fuel(lookup_in, 2);
    assert(ordered(after.img, bs, grown, 1, 0, FILE_BLOCKS as int)) by {
        assert forall|i: int| 0 <= i < header_at(grown).entries implies ((#[trigger] child_at(
            after.img,
            bs,
            grown,
            1,
            i,
        )) matches Ok(d) ==> header_at(d).entries > 0 && ordered(
            after.img,
            bs,
            d,
            0,
            start_of(grown, i),
            stop_of(grown, i, FILE_BLOCKS as int),
        )) by {
            assert(i == 0);
            assert forall|m: int| 0 <= m < out.len() implies (#[trigger] out[m]).length > 0 && first
                <= out[m].logical_block < FILE_BLOCKS by {
                if m > 0 {
                    assert(out[0].logical_block + out[0].length <= out[m].logical_block);
                }
            }
        }
    }
    assert forall|l: int| !new.covers(l) implies where_is(#[trigger] extent_for(after.img, bs, grown, l, None), l)
        == where_is(extent_for(st.img, bs, root, l, None), l) by {
        lemma_covering_inserted(es, new, l, 0, FILE_BLOCKS as int);
        lemma_pick(grown, 1, l);
        if l < first {
            lemma_pick_unique(grown, 1, l, -1);
            assert forall|m: int| 0 <= m < out.len() implies !(#[trigger] out[m]).covers(l) by {
                if m > 0 {
                    assert(out[0].logical_block + out[0].length <= out[m].logical_block);
                }
            }
            lemma_covering_none(out, l);
        } else {
            lemma_pick_unique(grown, 1, l, 0);
        }
    }
    let x = new.logical_block as int;
    lemma_covering_new(es, new);
    lemma_covering_found(out, x);
    let e = covering(out, x)->Some_0;
    assert(first <= x) by {
        let k = choose|k: int| 0 <= k < out.len() && holds(#[trigger] out[k], x, e.place(x), e.uninitialized);
        if k > 0 {
            assert(out[0].logical_block + out[0].length <= out[k].logical_block);
        }
    }
    lemma_pick(grown, 1, x);
    lemma_pick_unique(grown, 1, x, 0);
}

/// How a path to a leaf ends.
proof fn lemma_path_end(
    img: Seq<u8>,
    bs: int,
    node: Seq<u8>,
    block: Option<u64>,
    depth: nat,
    lo: int,
    hi: int,
    x: int,
)
    requires
        depth > 0,
        ordered(img, bs, node, depth, lo, hi),
        lo <= x < hi,
        leaf_path(img, bs, node, block, depth, x) is Ok,
    ensures
        ({
            let p = leaf_path(img, bs, node, block, depth, x)->Ok_0;
            let n = header_at(p.parent).entries as int;
            let i = pick(p.parent, n, x);
            let (a, b) = leaf_range(img, bs, node, depth, lo, hi, x);
            &&& 0 <= i < n
            &&& index_at(p.parent, 12 + 12 * i).leaf_block == p.leaf_block
            &&& start_of(p.parent, i) == a
            &&& i + 1 < n ==> start_of(p.parent, i + 1) == b
            &&& forall|y: int, z: int| 0 <= y < z < n ==> #[trigger] start_of(p.parent, y) < #[trigger] start_of(
                p.parent,
                z,
            )
            &&& depth == 1 ==> b == stop_of(node, i, hi)
        }),
    decreases depth,
{
    let n = header_at(node).entries as int;
    let i = pick(node, n, x);
    lemma_range_within(img, bs, node, block, depth, lo, hi, x);
    lemma_pick(node, n, x);
    if depth > 1 {
        let c = child_at(img, bs, node, depth, i)->Ok_0;
        let b = index_at(node, 12 + 12 * i).leaf_block;
        if i + 1 < n {
            assert(start_of(node, i + 1) > x);
        }
        lemma_path_end(img, bs, c, Some(b), (depth - 1) as nat, start_of(node, i), stop_of(node, i, hi), x);
    } else {
        reveal_with_fuel(leaf_range, 2);
    }
}

/// A lookup ends in the leaf that the path to it ends in.
proof fn lemma_lookup_leaf(img: Seq<u8>, bs: int, node: Seq<u8>, block: Option<u64>, depth: nat, x: int)
    requires
        depth > 0,
        leaf_path(img, bs, node, block, depth, x) is Ok,
    ensures
        lookup_in(img, bs, node, depth, x, None) == Ok::<Option<Extent>, Error>(
            covering(extents_of_leaf(leaf_path(img, bs, node, block, depth, x)->Ok_0.leaf), x),
        ),
    decreases depth,
{
    let idx = child_for(node, header_at(node).entries as int, x)->Some_0;
    let child = child_node(img, bs, idx.leaf_block, depth - 1, None)->Ok_0;
    if depth > 1 {
        lemma_lookup_leaf(img, bs, child, Some(idx.leaf_block), (depth - 1) as nat, x);
    } else {
        reveal_with_fuel(lookup_in, 2);
    }
}

/// The path to a leaf that was rewritten ends in it as it is now.
proof fn lemma_path_rewritten(
    img: Seq<u8>,
    other: Seq<u8>,
    bs: int,
    node: Seq<u8>,
    block: Option<u64>,
    depth: nat,
    x: int,
    at: u64,
    after: Seq<u8>,
)
    requires
        depth > 0,
        leaf_path(img, bs, node, block, depth, x) is Ok,
        leaf_path(img, bs, node, block, depth, x)->Ok_0.leaf_block == at,
        forall|k: int| k >= 0 && k != at ==> #[trigger] block_at(other, bs, k) == block_at(img, bs, k),
        child_node(other, bs, at, 0, None) == Ok::<Seq<u8>, Error>(after),
    ensures
        leaf_path(other, bs, node, block, depth, x) is Ok,
        leaf_path(other, bs, node, block, depth, x)->Ok_0.leaf == after,
    decreases depth,
{
    let idx = child_for(node, header_at(node).entries as int, x)->Some_0;
    let blk = idx.leaf_block;
    if depth > 1 {
        let child = child_node(img, bs, blk, depth - 1, None)->Ok_0;
        lemma_leaf_path(img, bs, child, Some(blk), (depth - 1) as nat, x);
        assert(blk != at);
        assert(block_at(other, bs, blk as int) == block_at(img, bs, blk as int));
        lemma_path_rewritten(img, other, bs, child, Some(blk), (depth - 1) as nat, x, at, after);
    }
}

/// A lookup goes through the parent of a leaf that was split.
proof fn lemma_lookup_parent(
    img: Seq<u8>,
    other: Seq<u8>,
    bs: int,
    node: Seq<u8>,
    block: Option<u64>,
    depth: nat,
    x: int,
    s: u64,
    grown: Seq<u8>,
)
    requires
        depth > 1,
        leaf_path(img, bs, node, block, depth, x) is Ok,
        !tree_node(img, bs, node, depth, s as int),
        ({
            let p = leaf_path(img, bs, node, block, depth, x)->Ok_0;
            &&& p.parent_block is Some
            &&& forall|k: int|
                k >= 0 && k != p.leaf_block && k != s && k != p.parent_block->Some_0 ==> #[trigger] block_at(
                    other,
                    bs,
                    k,
                ) == block_at(img, bs, k)
            &&& child_node(other, bs, p.parent_block->Some_0, 1, None) == Ok::<Seq<u8>, Error>(grown)
        }),
    ensures
        lookup_in(other, bs, node, depth, x, None) == lookup_in(other, bs, grown, 1, x, None),
    decreases depth,
{
    let n = header_at(node).entries as int;
    let p = leaf_path(img, bs, node, block, depth, x)->Ok_0;
    let m = lemma_child_index(node, n, x);
    let blk = index_at(node, 12 + 12 * m).leaf_block;
    let child = child_at(img, bs, node, depth, m)->Ok_0;
    lemma_leaf_path(img, bs, child, Some(blk), (depth - 1) as nat, x);
    if depth == 2 {
        assert(p.parent_block == Some(blk));
    } else {
        assert(points_to(node, blk));
        lemma_points_within(img, bs, node, depth, blk);
        assert(blk != p.leaf_block && blk != s && blk != p.parent_block->Some_0);
        assert(block_at(other, bs, blk as int) == block_at(img, bs, blk as int));
        if tree_node(img, bs, child, (depth - 1) as nat, s as int) {
            lemma_under(img, bs, node, depth, m, s as int);
        }
        lemma_lookup_parent(img, other, bs, child, Some(blk), (depth - 1) as nat, x, s, grown);
    }
}

/// A lookup of the new extent in the parent of the leaf that was split for it.
proof fn lemma_split_finds(
    img: Seq<u8>,
    other: Seq<u8>,
    bs: int,
    parent: Seq<u8>,
    grown: Seq<u8>,
    i: int,
    at: u64,
    s: u64,
    above: Option<u64>,
    leaf: Seq<u8>,
    one: Seq<u8>,
    two: Seq<u8>,
    k: int,
    new: Extent,
    from: int,
    to: int,
)
    requires
        split_at(img, other, bs, parent, grown, i, at, s, above, leaf, one, two, k, new),
        list_ordered(extents_of_leaf(leaf), from, to),
        from <= new.logical_block < to,
        i == pick(parent, header_at(parent).entries as int, new.logical_block as int),
    ensures
        finds_new(lookup_in(other, bs, grown, 1, new.logical_block as int, None), new),
{
    reveal_with_fuel(lookup_in, 2);
    let n = header_at(parent).entries as int;
    let x = new.logical_block as int;
    let es = extents_of_leaf(leaf);
    let out = inserted(es, new);
    lemma_inserted_ordered(es, new, from, to);
    lemma_halves(out, k, from, to, x);
    lemma_covering_new(es, new);
    let mid = out[k].logical_block as int;
    lemma_pick(parent, n, x);
    assert forall|y: int| 0 <= y <= n implies #[trigger] start_of(grown, y) == (if y <= i {
        start_of(parent, y)
    } else if y == i + 1 {
        mid
    } else {
        start_of(parent, y - 1)
    }) by {
        assert(index_at(grown, 12 + 12 * y) == index_at(grown, 12 + 12 * y));
    }
    let g = if x < mid {
        i
    } else {
        i + 1
    };
    assert forall|m: int| g < m < n + 1 implies #[trigger] start_of(grown, m) > x by {
        if m > i + 1 {
            assert(start_of(parent, m - 1) > x);
        }
    }
    lemma_pick_unique(grown, n + 1, x, g);
    lemma_pick(grown, n + 1, x);
    assert(index_at(grown, 12 + 12 * g) == index_at(grown, 12 + 12 * g));
    if x < mid {
        assert(child_at(other, bs, grown, 1, g) == Ok::<Seq<u8>, Error>(one));
    } else {
        assert(child_at(other, bs, grown, 1, g) == Ok::<Seq<u8>, Error>(two));
    }
}

/// An insertion into a leaf that has room.
proof fn lemma_room_kept(v: Vol, st: Stage, ino: u32, generation: u32, root: Seq<u8>, new: Extent)
    requires
        v.wf(),
        st.img.len() == v.img.len(),
        storable(new),
        new.length > 0,
        tree_in_order(st.img, v.bs(), root),
        header_at(root).depth > 0,
        leaf_path(st.img, v.bs(), root, None, header_at(root).depth as nat, new.logical_block as int) is Ok,
        ({
            let p = leaf_path(
                st.img,
                v.bs(),
                root,
                None,
                header_at(root).depth as nat,
                new.logical_block as int,
            )->Ok_0;
            &&& leaf_insert(p.leaf, new) is Ok
            &&& leaf_insert(p.leaf, new)->Ok_0 is Some
            &&& stage_nodes(
                v,
                st,
                ino,
                generation,
                seq![(p.leaf_block, leaf_insert(p.leaf, new)->Ok_0->Some_0)],
            ) is Ok
        }),
    ensures
        ({
            let p = leaf_path(
                st.img,
                v.bs(),
                root,
                None,
                header_at(root).depth as nat,
                new.logical_block as int,
            )->Ok_0;
            let writes = seq![(p.leaf_block, leaf_insert(p.leaf, new)->Ok_0->Some_0)];
            let after = stage_nodes(v, st, ino, generation, writes)->Ok_0;
            &&& kept(
                st.img,
                after.img,
                v.bs(),
                root,
                root,
                header_at(root).depth as nat,
                0,
                FILE_BLOCKS as int,
                new,
            )
            &&& finds_new(
                lookup_in(
                    after.img,
                    v.bs(),
                    root,
                    header_at(root).depth as nat,
                    new.logical_block as int,
                    None,
                ),
                new,
            )
        }),
{
    let bs = v.bs();
    let d = header_at(root).depth as nat;
    let x = new.logical_block as int;
    let p = leaf_path(st.img, bs, root, None, d, x)->Ok_0;
    lemma_leaf_path(st.img, bs, root, None, d, x);
    lemma_range_within(st.img, bs, root, None, d, 0, FILE_BLOCKS as int, x);
    let (a, b) = leaf_range(st.img, bs, root, d, 0, FILE_BLOCKS as int, x);
    let h = header_at(p.leaf);
    let es = extents_of_leaf(p.leaf);
    let out = inserted(es, new);
    lemma_inserted_len(es, new);
    lemma_read_storable(p.leaf, h.entries as nat);
    lemma_inserted_storable(es, new);
    let node = node_bytes(h, out, bs as nat);
    lemma_leaf_fields(h, out, bs as nat);
    let writes = seq![(p.leaf_block, leaf_insert(p.leaf, new)->Ok_0->Some_0)];
    assert(writes[0] == (p.leaf_block, node));
    lemma_nodes_written(v, st, ino, generation, writes);
    let after = stage_nodes(v, st, ino, generation, writes)->Ok_0;
    assert(block_at(after.img, bs, writes[0].0 as int) == Ok::<Seq<u8>, Error>(
        node_stamped(v, ino, generation, node),
    ));
    lemma_leaf_stands(v, ino, generation, after.img, p.leaf_block, h, out);
    let c = child_node(after.img, bs, p.leaf_block, 0, None)->Ok_0;
    assert forall|k: int| k >= 0 && k != p.leaf_block implies #[trigger] block_at(after.img, bs, k) == block_at(
        st.img,
        bs,
        k,
    ) by {
        assert forall|i: int| 0 <= i < writes.len() implies (#[trigger] writes[i]).0 != k by {
            assert(writes[i] == (p.leaf_block, node));
        }
    }
    lemma_leaf_change(
        st.img,
        after.img,
        bs,
        root,
        None,
        d,
        0,
        FILE_BLOCKS as int,
        new,
        p.leaf_block,
        p.leaf,
        c,
        true,
        a,
        b,
    );
    lemma_path_rewritten(st.img, after.img, bs, root, None, d, x, p.leaf_block, c);
    lemma_lookup_leaf(after.img, bs, root, None, d, x);
    lemma_covering_new(es, new);
}

proof fn lemma_index_place(idxs: Seq<ExtentIdx>, l: u32, i: int, from: int)
    requires
        0 <= from <= i + 1 <= idxs.len(),
        forall|j: int| from <= j <= i ==> (#[trigger] idxs[j]).logical_block <= l,
        i + 1 < idxs.len() ==> idxs[i + 1].logical_block > l,
    ensures
        index_pos(idxs, l, from) == i + 1,
    decreases i + 1 - from,
{
    if from <= i {
        assert(idxs[from].logical_block <= l);
        lemma_index_place(idxs, l, i, from + 1);
    }
}

/// An index node with an entry put right behind entry `i`.
proof fn lemma_entry_behind(node: Seq<u8>, idx: ExtentIdx, i: int)
    requires
        header_of(node) is Ok,
        header_at(node).entries < header_at(node).max,
        idx.leaf_block < 0x1_0000_0000_0000,
        0 <= i < header_at(node).entries,
        forall|y: int, z: int| 0 <= y < z < header_at(node).entries ==> #[trigger] start_of(node, y) < #[trigger] start_of(
            node,
            z,
        ),
        start_of(node, i) < idx.logical_block,
        i + 1 < header_at(node).entries ==> idx.logical_block < start_of(node, i + 1),
    ensures
        ({
            let after = index_inserted(node, idx);
            &&& after.len() == node.len()
            &&& header_at(after) == (ExtentHeader {
                entries: (header_at(node).entries + 1) as u16,
                ..header_at(node)
            })
            &&& header_of(after) is Ok
            &&& forall|j: int| 0 <= j <= i ==> #[trigger] index_at(after, 12 + 12 * j) == index_at(node, 12 + 12 * j)
            &&& index_at(after, 12 + 12 * (i + 1)) == idx
            &&& forall|j: int|
                i + 1 < j <= header_at(node).entries ==> #[trigger] index_at(after, 12 + 12 * j) == index_at(
                    node,
                    12 + 12 * (j - 1),
                )
        }),
{
    let h = header_at(node);
    let n = h.entries as int;
    let idxs = indexes_in(node, h.entries as nat);
    assert forall|j: int| 0 <= j <= i implies (#[trigger] idxs[j]).logical_block <= idx.logical_block by {
        assert(start_of(node, j) == idxs[j].logical_block);
        if j < i {
            assert(start_of(node, j) < start_of(node, i));
        }
    }
    if i + 1 < n {
        assert(start_of(node, i + 1) == idxs[i + 1].logical_block);
    }
    lemma_index_place(idxs, idx.logical_block, i, 0);
    let more = idxs.insert(i + 1, idx);
    assert forall|j: int| 0 <= j < more.len() implies (#[trigger] more[j]).leaf_block < 0x1_0000_0000_0000 by {
        if j <= i {
            assert(more[j] == idxs[j]);
        } else if j > i + 1 {
            assert(more[j] == idxs[j - 1]);
        }
    }
    lemma_index_fields(h, more, node.len());
    let after = index_inserted(node, idx);
    assert forall|j: int| 0 <= j <= i implies #[trigger] index_at(after, 12 + 12 * j) == index_at(node, 12 + 12 * j) by {
        assert(more[j] == idxs[j]);
        assert(index_at(after, 12 + 12 * j) == more[j]);
    }
    assert(index_at(after, 12 + 12 * (i + 1)) == more[i + 1]);
    assert forall|j: int| i + 1 < j <= n implies #[trigger] index_at(after, 12 + 12 * j) == index_at(
        node,
        12 + 12 * (j - 1),
    ) by {
        assert(more[j] == idxs[j - 1]);
        assert(index_at(after, 12 + 12 * j) == more[j]);
    }
}

/// What an insertion into a full leaf stages is a split of it.
#[verifier::rlimit(40)]
proof fn lemma_split_stands(v: Vol, st: Stage, ino: u32, generation: u32, root: Seq<u8>, new: Extent, s: u64)
    requires
        v.wf(),
        st.img.len() == v.img.len(),
        root.len() == 60,
        storable(new),
        new.length > 0,
        tree_in_order(st.img, v.bs(), root),
        header_at(root).depth > 0,
        s < 0x1_0000_0000_0000,
        !tree_node(st.img, v.bs(), root, header_at(root).depth as nat, s as int),
        leaf_path(st.img, v.bs(), root, None, header_at(root).depth as nat, new.logical_block as int) is Ok,
        ({
            let p = leaf_path(
                st.img,
                v.bs(),
                root,
                None,
                header_at(root).depth as nat,
                new.logical_block as int,
            )->Ok_0;
            let out = inserted(extents_of_leaf(p.leaf), new);
            &&& !any_overlap(extents_of_leaf(p.leaf), new)
            &&& out.len() > header_at(p.leaf).max
            &&& header_at(p.parent).entries < header_at(p.parent).max
            &&& stage_nodes(v, st, ino, generation, split_leaf(root, p, out, s)->writes) is Ok
        }),
    ensures
        ({
            let d = header_at(root).depth as nat;
            let x = new.logical_block as int;
            let p = leaf_path(st.img, v.bs(), root, None, d, x)->Ok_0;
            let out = inserted(extents_of_leaf(p.leaf), new);
            let plan = split_leaf(root, p, out, s);
            let after = stage_nodes(v, st, ino, generation, plan->writes)->Ok_0;
            let i = pick(p.parent, header_at(p.parent).entries as int, x);
            let grown = match p.parent_block {
                None => plan->Done_root,
                Some(b) => child_node(after.img, v.bs(), b, 1, None)->Ok_0,
            };
            &&& child_node(after.img, v.bs(), p.leaf_block, 0, None) is Ok
            &&& child_node(after.img, v.bs(), s, 0, None) is Ok
            &&& header_of(plan->Done_root) is Ok
            &&& header_at(plan->Done_root).max == header_at(root).max
            &&& header_at(plan->Done_root).depth == header_at(root).depth
            &&& split_at(
                st.img,
                after.img,
                v.bs(),
                p.parent,
                grown,
                i,
                p.leaf_block,
                s,
                p.parent_block,
                p.leaf,
                child_node(after.img, v.bs(), p.leaf_block, 0, None)->Ok_0,
                child_node(after.img, v.bs(), s, 0, None)->Ok_0,
                (out.len() / 2) as int,
                new,
            )
        }),
{
    let bs = v.bs();
    let d = header_at(root).depth as nat;
    let x = new.logical_block as int;
    let p = leaf_path(st.img, bs, root, None, d, x)->Ok_0;
    lemma_leaf_path(st.img, bs, root, None, d, x);
    lemma_range_within(st.img, bs, root, None, d, 0, FILE_BLOCKS as int, x);
    lemma_path_end(st.img, bs, root, None, d, 0, FILE_BLOCKS as int, x);
    let (a, b) = leaf_range(st.img, bs, root, d, 0, FILE_BLOCKS as int, x);
    let h = header_at(p.leaf);
    let es = extents_of_leaf(p.leaf);
    let out = inserted(es, new);
    lemma_inserted_len(es, new);
    lemma_read_storable(p.leaf, h.entries as nat);
    lemma_inserted_storable(es, new);
    let k = (out.len() / 2) as int;
    assert(h.entries <= h.max && h.entries > 0);
    assert(0 < k < out.len() && out.len() <= h.max + 1);
    lemma_inserted_ordered(es, new, a, b);
    lemma_halves(out, k, a, b, 0);
    let one = out.take(k);
    let two = out.skip(k);
    assert(all_storable(one) && all_storable(two));
    let n1 = node_bytes(h, one, bs as nat);
    let n2 = node_bytes(h, two, bs as nat);
    lemma_leaf_fields(h, one, bs as nat);
    lemma_leaf_fields(h, two, bs as nat);
    let i = pick(p.parent, header_at(p.parent).entries as int, x);
    let idx = ExtentIdx { logical_block: out[k].logical_block, leaf_block: s };
    lemma_entry_behind(p.parent, idx, i);
    let parent = index_inserted(p.parent, idx);
    let plan = split_leaf(root, p, out, s);
    let writes = plan->writes;
    assert(p.leaf_block != s);
    assert(writes[0] == (p.leaf_block, n1));
    assert(writes[1] == (s, n2));
    match p.parent_block {
        None => {
            assert(writes.len() == 2);
        },
        Some(q) => {
            assert(writes.len() == 3);
            assert(writes[2] == (q, parent));
            assert(d > 1);
            assert(q != s);
            assert(q != p.leaf_block);
        },
    }
    lemma_nodes_written(v, st, ino, generation, writes);
    let after = stage_nodes(v, st, ino, generation, writes)->Ok_0;
    assert(block_at(after.img, bs, writes[0].0 as int) == Ok::<Seq<u8>, Error>(node_stamped(v, ino, generation, n1)));
    assert(block_at(after.img, bs, writes[1].0 as int) == Ok::<Seq<u8>, Error>(node_stamped(v, ino, generation, n2)));
    lemma_leaf_stands(v, ino, generation, after.img, p.leaf_block, h, one);
    lemma_leaf_stands(v, ino, generation, after.img, s, h, two);
    lemma_node_stamped(v, ino, generation, parent);
    if p.parent_block is Some {
        assert(block_at(after.img, bs, writes[2].0 as int) == Ok::<Seq<u8>, Error>(
            node_stamped(v, ino, generation, parent),
        ));
        let grown = node_stamped(v, ino, generation, parent);
        assert(child_node(after.img, bs, p.parent_block->Some_0, 1, None) == Ok::<Seq<u8>, Error>(grown));
        assert(index_at(grown, 12 + 12 * (i + 1)) == index_at(parent, 12 + 12 * (i + 1)));
        assert forall|j: int| 0 <= j <= i implies #[trigger] index_at(grown, 12 + 12 * j) == index_at(
            p.parent,
            12 + 12 * j,
        ) by {
            assert(index_at(parent, 12 + 12 * j) == index_at(p.parent, 12 + 12 * j));
        }
        assert forall|j: int| i + 1 < j <= header_at(p.parent).entries implies #[trigger] index_at(grown, 12 + 12 * j)
            == index_at(p.parent, 12 + 12 * (j - 1)) by {
            assert(index_at(parent, 12 + 12 * j) == index_at(p.parent, 12 + 12 * (j - 1)));
        }
    }
    assert forall|y: int|
        y >= 0 && y != p.leaf_block && y != s && !(p.parent_block matches Some(q) && q == y) implies #[trigger] block_at(
        after.img,
        bs,
        y,
    ) == block_at(st.img, bs, y) by {
        assert forall|m: int| 0 <= m < writes.len() implies (#[trigger] writes[m]).0 != y by {
            if m == 0 {
                assert(writes[m] == (p.leaf_block, n1));
            } else if m == 1 {
                assert(writes[m] == (s, n2));
            }
        }
    }
}

/// An insertion into a full leaf.
#[verifier::rlimit(40)]
proof fn lemma_full_kept(v: Vol, st: Stage, ino: u32, generation: u32, root: Seq<u8>, new: Extent, s: u64)
    requires
        v.wf(),
        st.img.len() == v.img.len(),
        root.len() == 60,
        storable(new),
        new.length > 0,
        tree_in_order(st.img, v.bs(), root),
        header_at(root).depth > 0,
        s < 0x1_0000_0000_0000,
        !tree_node(st.img, v.bs(), root, header_at(root).depth as nat, s as int),
        leaf_path(st.img, v.bs(), root, None, header_at(root).depth as nat, new.logical_block as int) is Ok,
        ({
            let p = leaf_path(
                st.img,
                v.bs(),
                root,
                None,
                header_at(root).depth as nat,
                new.logical_block as int,
            )->Ok_0;
            let out = inserted(extents_of_leaf(p.leaf), new);
            &&& !any_overlap(extents_of_leaf(p.leaf), new)
            &&& out.len() > header_at(p.leaf).max
            &&& header_at(p.parent).entries < header_at(p.parent).max
            &&& stage_nodes(v, st, ino, generation, split_leaf(root, p, out, s)->writes) is Ok
        }),
    ensures
        ({
            let d = header_at(root).depth as nat;
            let p = leaf_path(st.img, v.bs(), root, None, d, new.logical_block as int)->Ok_0;
            let out = inserted(extents_of_leaf(p.leaf), new);
            let plan = split_leaf(root, p, out, s);
            let after = stage_nodes(v, st, ino, generation, plan->writes)->Ok_0;
            &&& header_of(plan->Done_root) is Ok
            &&& header_at(plan->Done_root).max == header_at(root).max
            &&& header_at(plan->Done_root).depth == header_at(root).depth
            &&& kept(st.img, after.img, v.bs(), root, plan->Done_root, d, 0, FILE_BLOCKS as int, new)
            &&& finds_new(
                lookup_in(after.img, v.bs(), plan->Done_root, d, new.logical_block as int, None),
                new,
            )
        }),
{
    let bs = v.bs();
    let d = header_at(root).depth as nat;
    let x = new.logical_block as int;
    let p = leaf_path(st.img, bs, root, None, d, x)->Ok_0;
    lemma_split_stands(v, st, ino, generation, root, new, s);
    lemma_leaf_path(st.img, bs, root, None, d, x);
    lemma_range_within(st.img, bs, root, None, d, 0, FILE_BLOCKS as int, x);
    lemma_path_end(st.img, bs, root, None, d, 0, FILE_BLOCKS as int, x);
    let (a, b) = leaf_range(st.img, bs, root, d, 0, FILE_BLOCKS as int, x);
    let out = inserted(extents_of_leaf(p.leaf), new);
    let plan = split_leaf(root, p, out, s);
    let after = stage_nodes(v, st, ino, generation, plan->writes)->Ok_0;
    let n = header_at(p.parent).entries as int;
    let i = pick(p.parent, n, x);
    let k = (out.len() / 2) as int;
    let one = child_node(after.img, bs, p.leaf_block, 0, None)->Ok_0;
    let two = child_node(after.img, bs, s, 0, None)->Ok_0;
    let top = match p.parent_block {
        None => plan->Done_root,
        Some(q) => child_node(after.img, bs, q, 1, None)->Ok_0,
    };
    lemma_split_finds(
        st.img,
        after.img,
        bs,
        p.parent,
        top,
        i,
        p.leaf_block,
        s,
        p.parent_block,
        p.leaf,
        one,
        two,
        k,
        new,
        a,
        b,
    );
    if d > 1 {
        assert(plan->Done_root == root);
        lemma_lookup_parent(st.img, after.img, bs, root, None, d, x, s, top);
    }
    if d == 1 {
        assert forall|y: int| 0 <= y < n implies (#[trigger] index_at(p.parent, 12 + 12 * y)).leaf_block != s by {
            if index_at(p.parent, 12 + 12 * y).leaf_block == s {
                assert(points_to(root, s));
                lemma_points_within(st.img, bs, root, 1, s);
            }
        }
        lemma_parent_split(
            st.img,
            after.img,
            bs,
            root,
            plan->Done_root,
            i,
            p.leaf_block,
            s,
            None,
            p.leaf,
            one,
            two,
            k,
            new,
            0,
            FILE_BLOCKS as int,
        );
    } else {
        let grown = child_node(after.img, bs, p.parent_block->Some_0, 1, None)->Ok_0;
        lemma_split_change(
            st.img,
            after.img,
            bs,
            root,
            None,
            d,
            0,
            FILE_BLOCKS as int,
            p,
            grown,
            i,
            s,
            one,
            two,
            k,
            new,
            true,
            a,
            b,
        );
    }
}

/// An insertion that was staged leaves the tree in order, and every block that
/// the new extent does not cover where it was.
#[verifier::rlimit(40)]
pub(crate) proof fn lemma_insertion_kept(
    v: Vol,
    st: Stage,
    ino: u32,
    generation: u32,
    root: Seq<u8>,
    new: Extent,
    spare: Option<u64>,
    grown: Seq<u8>,
    writes: Seq<(u64, Seq<u8>)>,
)
    requires
        v.wf(),
        st.img.len() == v.img.len(),
        root.len() == 60,
        storable(new),
        new.length > 0,
        tree_in_order(st.img, v.bs(), root),
        spare matches Some(s) ==> s < 0x1_0000_0000_0000 && !tree_node(
            st.img,
            v.bs(),
            root,
            header_at(root).depth as nat,
            s as int,
        ),
        deep_insert(st.img, v.bs(), root, new, v.csum.enabled, spare) == Ok::<DeepInsertView, Error>(
            DeepInsertView::Done { root: grown, writes },
        ),
        stage_nodes(v, st, ino, generation, writes) is Ok,
    ensures
        ({
            let after = stage_nodes(v, st, ino, generation, writes)->Ok_0;
            &&& tree_in_order(after.img, v.bs(), grown)
            &&& same_elsewhere(st.img, root, after.img, grown, v.bs(), new)
            &&& finds_new(extent_for(after.img, v.bs(), grown, new.logical_block as int, None), new)
        }),
{
    let bs = v.bs();
    let h = header_at(root);
    let d = h.depth as nat;
    let after = stage_nodes(v, st, ino, generation, writes)->Ok_0;
    let x = new.logical_block as int;
    if h.depth == 0 {
        if leaf_insert(root, new)->Ok_0 is Some {
            lemma_root_kept(st.img, bs, root, new);
            assert(writes.len() == 0);
            assert(after == st);
        } else {
            let out = inserted(extents_of_leaf(root), new);
            assert(promoted(root, bs, out, spare->Some_0, v.csum.enabled) == (DeepInsertView::Done {
                root: grown,
                writes,
            }));
            lemma_promoted_kept(v, st, ino, generation, root, new, spare->Some_0);
        }
    } else {
        let low = lowered(root, new.logical_block);
        lemma_lowered(st.img, bs, root, new.logical_block);
        let p = leaf_path(st.img, bs, low, None, d, x)->Ok_0;
        if d == 1 {
            lemma_low_kept(st.img, bs, root, FILE_BLOCKS as int, new);
        } else {
            assert(low == root);
        }
        assert(tree_in_order(st.img, bs, low));
        if leaf_insert(p.leaf, new)->Ok_0 is Some {
            assert(writes == seq![(p.leaf_block, leaf_insert(p.leaf, new)->Ok_0->Some_0)]);
            lemma_room_kept(v, st, ino, generation, low, new);
        } else {
            let out = inserted(extents_of_leaf(p.leaf), new);
            assert(split_leaf(low, p, out, spare->Some_0) == (DeepInsertView::Done { root: grown, writes }));
            lemma_full_kept(v, st, ino, generation, low, new, spare->Some_0);
        }
        lemma_kept_is(st.img, after.img, bs, low, grown, new);
        assert forall|l: int| !new.covers(l) implies where_is(#[trigger] extent_for(after.img, bs, grown, l, None), l)
            == where_is(extent_for(st.img, bs, root, l, None), l) by {
            assert(where_is(extent_for(after.img, bs, grown, l, None), l) == where_is(
                extent_for(st.img, bs, low, l, None),
                l,
            ));
            if d == 1 {
                assert(where_is(lookup_in(st.img, bs, low, 1, l, None), l) == where_is(
                    lookup_in(st.img, bs, root, 1, l, None),
                    l,
                ));
            }
        }
    }
}

/// Whether a tree is in order depends on its own blocks alone.
pub(crate) proof fn lemma_order_same(img: Seq<u8>, other: Seq<u8>, bs: int, node: Seq<u8>, depth: nat, lo: int, hi: int)
    requires
        ordered(img, bs, node, depth, lo, hi),
        forall|k: int| #[trigger] tree_node(img, bs, node, depth, k) ==> block_at(other, bs, k) == block_at(img, bs, k),
    ensures
        ordered(other, bs, node, depth, lo, hi),
    decreases depth,
{
    if depth > 0 {
        assert forall|i: int| 0 <= i < header_at(node).entries implies ((#[trigger] child_at(other, bs, node, depth, i)) matches Ok(
            c,
        ) ==> header_at(c).entries > 0 && ordered(
            other,
            bs,
            c,
            (depth - 1) as nat,
            start_of(node, i),
            stop_of(node, i, hi),
        )) by {
            let b = index_at(node, 12 + 12 * i).leaf_block;
            assert(points_to(node, b));
            lemma_points_within(img, bs, node, depth, b);
            assert(child_at(other, bs, node, depth, i) == child_at(img, bs, node, depth, i));
            if child_at(img, bs, node, depth, i) is Ok {
                let c = child_at(img, bs, node, depth, i)->Ok_0;
                assert forall|k: int| #[trigger] tree_node(img, bs, c, (depth - 1) as nat, k) implies block_at(
                    other,
                    bs,
                    k,
                ) == block_at(img, bs, k) by {
                    lemma_under(img, bs, node, depth, i, k);
                }
                lemma_order_same(img, other, bs, c, (depth - 1) as nat, start_of(node, i), stop_of(node, i, hi));
            }
        }
    }
}

} // verus!
