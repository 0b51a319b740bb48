//! What a change to an extent tree does to where a file's blocks are.
use crate::error::Error;
use crate::extent::{block_for, covering, extent_for, Extent};
use crate::extent_mut::{
    all_storable, any_overlap, holder_pos, insert_pos, inserted, law_merge_keeps_mapping, law_node_round_trip,
    leaf_insert, leaf_of, lemma_merge_storable, merge_at, mergeable, merged, overlap, storable,
};
use vstd::prelude::*;

verus! {

/// An extent holds file block `l`, at device block `p`; `u` is whether it was
/// never written.
pub open spec fn holds(e: Extent, l: int, p: int, u: bool) -> bool {
    e.covers(l) && e.place(l) == p && e.uninitialized == u
}

/// Some extent of a list holds file block `l`, at device block `p`.
pub open spec fn maps_to(entries: Seq<Extent>, l: int, p: int, u: bool) -> bool {
    exists|i: int| 0 <= i < entries.len() && holds(#[trigger] entries[i], l, p, u)
}

/// The extents of a list follow each other, none reaching into the next.
pub open spec fn in_order(entries: Seq<Extent>) -> bool {
    forall|i: int, j: int|
        0 <= i < j < entries.len() ==> (#[trigger] entries[i]).logical_block + entries[i].length
            <= (#[trigger] entries[j]).logical_block
}

proof fn lemma_merge_maps(entries: Seq<Extent>, i: int, l: int, p: int, u: bool)
    requires
        0 <= i,
        i + 1 < entries.len(),
        mergeable(entries[i], entries[i + 1]),
    ensures
        maps_to(merge_at(entries, i), l, p, u) == maps_to(entries, l, p, u),
{
    let out = merge_at(entries, i);
    let a = entries[i];
    let b = entries[i + 1];
    law_merge_keeps_mapping(a, b, l);
    if maps_to(entries, l, p, u) {
        let k = choose|k: int| 0 <= k < entries.len() && holds(#[trigger] entries[k], l, p, u);
        if k < i {
            assert(holds(out[k], l, p, u));
        } else if k <= i + 1 {
            assert(holds(out[i], l, p, u));
        } else {
            assert(holds(out[k - 1], l, p, u));
        }
    }
    if maps_to(out, l, p, u) {
        let k = choose|k: int| 0 <= k < out.len() && holds(#[trigger] out[k], l, p, u);
        if k < i {
            assert(holds(entries[k], l, p, u));
        } else if k == i {
            assert(out[i] == merged(a, b));
            if a.covers(l) {
                assert(holds(entries[i], l, p, u));
            } else {
                assert(holds(entries[i + 1], l, p, u));
            }
        } else {
            assert(holds(entries[k + 1], l, p, u));
        }
    }
}

pub(crate) proof fn lemma_insert_pos(entries: Seq<Extent>, new: Extent, from: int)
    requires
        0 <= from <= entries.len(),
        forall|i: int| 0 <= i < from ==> (#[trigger] entries[i]).logical_block <= new.logical_block,
    ensures
        from <= insert_pos(entries, new, from) <= entries.len(),
        forall|i: int|
            0 <= i < insert_pos(entries, new, from) ==> (#[trigger] entries[i]).logical_block
                <= new.logical_block,
        insert_pos(entries, new, from) < entries.len() ==> entries[insert_pos(
            entries,
            new,
            from,
        )].logical_block > new.logical_block,
    decreases entries.len() - from,
{
    if from < entries.len() && entries[from].logical_block <= new.logical_block {
        lemma_insert_pos(entries, new, from + 1);
    }
}

pub(crate) proof fn lemma_holder_pos(entries: Seq<Extent>, new: Extent, from: int)
    requires
        0 <= from <= entries.len(),
        entries.len() > 0,
    ensures
        0 <= holder_pos(entries, new, from) < entries.len(),
    decreases entries.len() - from,
{
    if from < entries.len() {
        lemma_holder_pos(entries, new, from + 1);
    }
}

/// A list with an extent inserted maps what it mapped before and what the new
/// extent maps, and nothing else: merging neighbours changes nothing.
pub proof fn law_insert_adds_the_new_mapping(entries: Seq<Extent>, new: Extent, l: int, p: int, u: bool)
    ensures
        maps_to(inserted(entries, new), l, p, u) == (maps_to(entries, l, p, u) || holds(new, l, p, u)),
{
    lemma_insert_pos(entries, new, 0);
    let pos = insert_pos(entries, new, 0);
    let placed = entries.insert(pos, new);
    assert(maps_to(placed, l, p, u) == (maps_to(entries, l, p, u) || holds(new, l, p, u))) by {
        if maps_to(entries, l, p, u) {
            let k = choose|k: int| 0 <= k < entries.len() && holds(#[trigger] entries[k], l, p, u);
            if k < pos {
                assert(holds(placed[k], l, p, u));
            } else {
                assert(holds(placed[k + 1], l, p, u));
            }
        }
        if holds(new, l, p, u) {
            assert(holds(placed[pos], l, p, u));
        }
        if maps_to(placed, l, p, u) {
            let k = choose|k: int| 0 <= k < placed.len() && holds(#[trigger] placed[k], l, p, u);
            if k < pos {
                assert(holds(entries[k], l, p, u));
            } else if k > pos {
                assert(holds(entries[k - 1], l, p, u));
            }
        }
    }
    let left = if pos > 0 && mergeable(placed[pos - 1], placed[pos]) {
        merge_at(placed, pos - 1)
    } else {
        placed
    };
    if pos > 0 && mergeable(placed[pos - 1], placed[pos]) {
        lemma_merge_maps(placed, pos - 1, l, p, u);
    }
    assert(left.len() > 0);
    lemma_holder_pos(left, new, 0);
    let at = holder_pos(left, new, 0);
    if at + 1 < left.len() && mergeable(left[at], left[at + 1]) {
        lemma_merge_maps(left, at, l, p, u);
    }
}

proof fn lemma_merge_order(entries: Seq<Extent>, i: int)
    requires
        in_order(entries),
        0 <= i,
        i + 1 < entries.len(),
        mergeable(entries[i], entries[i + 1]),
    ensures
        in_order(merge_at(entries, i)),
{
    let out = merge_at(entries, i);
    assert forall|j: int, k: int| 0 <= j < k < out.len() implies (#[trigger] out[j]).logical_block
        + out[j].length <= (#[trigger] out[k]).logical_block by {
        let jj = if j <= i {
            j
        } else {
            j + 1
        };
        let kk = if k <= i {
            k
        } else {
            k + 1
        };
        assert(entries[jj].logical_block + entries[jj].length <= entries[kk].logical_block);
        if j == i {
            assert(entries[i + 1].logical_block + entries[i + 1].length <= entries[kk].logical_block);
        }
    }
}

/// A list in order stays in order when an extent that overlaps none of it is
/// inserted.
pub proof fn law_insert_keeps_order(entries: Seq<Extent>, new: Extent)
    requires
        in_order(entries),
        !any_overlap(entries, new),
        new.length > 0,
        forall|i: int| 0 <= i < entries.len() ==> (#[trigger] entries[i]).length > 0,
    ensures
        in_order(inserted(entries, new)),
{
    lemma_insert_pos(entries, new, 0);
    let pos = insert_pos(entries, new, 0);
    let placed = entries.insert(pos, new);
    assert(in_order(placed)) by {
        assert forall|j: int, k: int| 0 <= j < k < placed.len() implies (#[trigger] placed[j]).logical_block
            + placed[j].length <= (#[trigger] placed[k]).logical_block by {
            if j == pos {
                let e = entries[k - 1];
                assert(!overlap(new, e));
                assert(entries[pos].logical_block > new.logical_block);
                if k - 1 > pos {
                    assert(entries[pos].logical_block + entries[pos].length <= e.logical_block);
                }
            } else if k == pos {
                assert(!overlap(new, entries[j]));
                assert(entries[j].logical_block <= new.logical_block);
            } else {
                let jj = if j < pos {
                    j
                } else {
                    j - 1
                };
                let kk = if k < pos {
                    k
                } else {
                    k - 1
                };
                assert(entries[jj].logical_block + entries[jj].length <= entries[kk].logical_block);
            }
        }
    }
    let left = if pos > 0 && mergeable(placed[pos - 1], placed[pos]) {
        merge_at(placed, pos - 1)
    } else {
        placed
    };
    if pos > 0 && mergeable(placed[pos - 1], placed[pos]) {
        lemma_merge_order(placed, pos - 1);
    }
    lemma_holder_pos(left, new, 0);
    let at = holder_pos(left, new, 0);
    if at + 1 < left.len() && mergeable(left[at], left[at + 1]) {
        lemma_merge_order(left, at);
    }
}

/// In a list in order, looking a block up finds the extent that holds it.
pub proof fn lemma_covering_in_order(entries: Seq<Extent>, l: int, p: int, u: bool)
    requires
        in_order(entries),
        maps_to(entries, l, p, u),
    ensures
        covering(entries, l) matches Some(e) && holds(e, l, p, u),
    decreases entries.len(),
{
    let k = choose|k: int| 0 <= k < entries.len() && holds(#[trigger] entries[k], l, p, u);
    if !entries[0].covers(l) {
        let rest = entries.drop_first();
        assert(rest[k - 1] == entries[k]);
        assert(maps_to(rest, l, p, u));
        assert forall|i: int, j: int| 0 <= i < j < rest.len() implies (#[trigger] rest[i]).logical_block
            + rest[i].length <= (#[trigger] rest[j]).logical_block by {
            assert(entries[i + 1].logical_block + entries[i + 1].length <= entries[j + 1].logical_block);
        }
        lemma_covering_in_order(rest, l, p, u);
    } else if k > 0 {
        assert(entries[0].logical_block + entries[0].length <= entries[k].logical_block);
    }
}

/// Looking a block up finds an extent of the list, if any holds it.
pub proof fn lemma_covering_found(entries: Seq<Extent>, l: int)
    ensures
        covering(entries, l) matches Some(e) ==> maps_to(entries, l, e.place(l), e.uninitialized),
        covering(entries, l) is None ==> forall|p: int, u: bool| !maps_to(entries, l, p, u),
    decreases entries.len(),
{
    if entries.len() > 0 {
        if entries[0].covers(l) {
            assert(holds(entries[0], l, entries[0].place(l), entries[0].uninitialized));
        } else {
            let rest = entries.drop_first();
            lemma_covering_found(rest, l);
            if let Some(e) = covering(rest, l) {
                let k = choose|k: int|
                    0 <= k < rest.len() && holds(#[trigger] rest[k], l, e.place(l), e.uninitialized);
                assert(holds(entries[k + 1], l, e.place(l), e.uninitialized));
            } else {
                assert forall|p: int, u: bool| !maps_to(entries, l, p, u) by {
                    if maps_to(entries, l, p, u) {
                        let k = choose|k: int| 0 <= k < entries.len() && holds(#[trigger] entries[k], l, p, u);
                        assert(rest[k - 1] == entries[k]);
                        assert(maps_to(rest, l, p, u));
                    }
                }
            }
        }
    }
}

pub(crate) proof fn lemma_inserted_storable(entries: Seq<Extent>, new: Extent)
    requires
        storable(new),
        all_storable(entries),
    ensures
        all_storable(inserted(entries, new)),
{
    lemma_insert_pos(entries, new, 0);
    let pos = insert_pos(entries, new, 0);
    let placed = entries.insert(pos, new);
    assert forall|k: int| 0 <= k < placed.len() implies storable(#[trigger] placed[k]) by {
        if k < pos {
            assert(storable(entries[k]));
        } else if k > pos {
            assert(storable(entries[k - 1]));
        }
    }
    let left = if pos > 0 && mergeable(placed[pos - 1], placed[pos]) {
        merge_at(placed, pos - 1)
    } else {
        placed
    };
    if pos > 0 && mergeable(placed[pos - 1], placed[pos]) {
        lemma_merge_storable(placed, pos - 1);
    }
    lemma_holder_pos(left, new, 0);
    let at = holder_pos(left, new, 0);
    if at + 1 < left.len() && mergeable(left[at], left[at + 1]) {
        lemma_merge_storable(left, at);
    }
}

/// A tree that is all in its root, with an extent inserted: the blocks of the
/// extent are found where it puts them, and every other block where it was.
pub proof fn law_insert_maps(img: Seq<u8>, bs: int, root: Seq<u8>, new: Extent, l: int)
    requires
        storable(new),
        new.length > 0,
        leaf_of(root) matches Ok(p) && in_order(p.1) && all_storable(p.1) && 12 + 12 * p.0.max <= root.len() && (
        forall|i: int| 0 <= i < p.1.len() ==> (#[trigger] p.1[i]).length > 0),
        leaf_insert(root, new) matches Ok(Some(_)),
    ensures
        ({
            let after = leaf_insert(root, new)->Ok_0->0;
            block_for(img, bs, after, l) == (if new.covers(l) {
                if new.uninitialized {
                    Ok::<Option<u64>, Error>(None)
                } else {
                    Ok(Some(new.place(l) as u64))
                }
            } else {
                block_for(img, bs, root, l)
            })
        }),
{
    let (h, entries) = leaf_of(root)->Ok_0;
    let out = inserted(entries, new);
    let after = leaf_insert(root, new)->Ok_0->0;
    law_insert_keeps_order(entries, new);
    lemma_inserted_storable(entries, new);
    law_node_round_trip(h, out, root.len());
    assert(leaf_of(after)->Ok_0.1 == out);
    assert(extent_for(img, bs, after, l, None) == Ok::<Option<Extent>, Error>(covering(out, l)));
    assert(extent_for(img, bs, root, l, None) == Ok::<Option<Extent>, Error>(covering(entries, l)));
    if new.covers(l) {
        law_insert_adds_the_new_mapping(entries, new, l, new.place(l), new.uninitialized);
        lemma_covering_in_order(out, l, new.place(l), new.uninitialized);
    } else {
        lemma_covering_found(entries, l);
        lemma_covering_found(out, l);
        if let Some(e) = covering(entries, l) {
            law_insert_adds_the_new_mapping(entries, new, l, e.place(l), e.uninitialized);
            lemma_covering_in_order(out, l, e.place(l), e.uninitialized);
        } else if let Some(e) = covering(out, l) {
            law_insert_adds_the_new_mapping(entries, new, l, e.place(l), e.uninitialized);
        }
    }
}

} // verus!
