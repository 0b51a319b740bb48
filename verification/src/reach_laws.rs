//! What following a path reads, and when it comes out the same.
use crate::bgd::inode_place;
use crate::block_io::block_at;
use crate::bytes::le32;
use crate::dirops::{
    component_end, dir_blocks, find_entry, find_entry_from, lemma_component_end, walk_from, SLASH,
};
use crate::extent::header_of;
use crate::fs::{checked_inode, file_block, raw_inode};
use crate::growth_laws::lemma_tree_same;
use crate::indirect::{follow, indirect_block_for, span};
use crate::inode::{block_area_of, flags_of, mode_is_dir, mode_of, FL_EXTENTS};
use crate::pwrite_laws::levels;
use crate::tree_laws::{lemma_lookup_same, tree_node};
use crate::volume::Vol;
use vstd::prelude::*;

verus! {

/// Block `b` holds one of some inode records. A record is given as its block
/// and the byte of the block where it starts.
pub open spec fn slot_block(slots: Seq<(int, int)>, b: int) -> bool {
    exists|i: int| 0 <= i < slots.len() && (#[trigger] slots[i]).0 == b
}

/// Byte `j` of block `b` is part of one of some records of `size` bytes.
pub open spec fn in_slot(slots: Seq<(int, int)>, size: int, b: int, j: int) -> bool {
    exists|i: int| 0 <= i < slots.len() && (#[trigger] slots[i]).0 == b && slots[i].1 <= j < slots[i].1 + size
}

/// The record of inode `d` is in a block that stays as it is, or in one that
/// holds other records of which some change.
pub open spec fn record_clear(v: Vol, safe: spec_fn(int) -> bool, slots: Seq<(int, int)>, d: u32) -> bool {
    match inode_place(v.sb, v.groups, d) {
        Err(_) => true,
        Ok((b, off)) => safe(b as int) || (slot_block(slots, b as int) && forall|j: int|
            off <= j < off + v.sb.inode_size ==> !(#[trigger] in_slot(slots, v.sb.inode_size as int, b as int, j))),
    }
}

/// Following a pointer reads only blocks that stay as they are.
pub open spec fn follow_clear(v: Vol, safe: spec_fn(int) -> bool, p: u32, level: nat, i: int) -> bool
    decreases level,
{
    p == 0 || level == 0 || (safe(p as int) && (block_at(v.img, v.bs(), p as int) matches Ok(b) ==> follow_clear(
        v,
        safe,
        le32(b, 4 * (i / span(v.bs() / 4, (level - 1) as nat))),
        (level - 1) as nat,
        i % span(v.bs() / 4, (level - 1) as nat),
    )))
}

/// Finding file block `l` by the pointers in `dir` reads only blocks that stay
/// as they are.
pub open spec fn pointers_clear(v: Vol, safe: spec_fn(int) -> bool, dir: Seq<u8>, l: int) -> bool {
    let per = v.bs() / 4;
    if l < 12 {
        true
    } else if l - 12 < span(per, 1) {
        follow_clear(v, safe, le32(dir, 48), 1, l - 12)
    } else if l - 12 - span(per, 1) < span(per, 2) {
        follow_clear(v, safe, le32(dir, 52), 2, l - 12 - span(per, 1))
    } else if l - 12 - span(per, 1) - span(per, 2) < span(per, 3) {
        follow_clear(v, safe, le32(dir, 56), 3, l - 12 - span(per, 1) - span(per, 2))
    } else {
        true
    }
}

/// Finding the blocks of the directory with record `raw` reads only blocks
/// that stay as they are.
pub open spec fn map_clear(v: Vol, safe: spec_fn(int) -> bool, raw: Seq<u8>) -> bool {
    let dir = block_area_of(raw);
    &&& flags_of(raw) & FL_EXTENTS != 0 ==> forall|k: int| #[trigger]
        tree_node(v.img, v.bs(), dir, levels(dir), k) ==> safe(k)
    &&& flags_of(raw) & FL_EXTENTS == 0 ==> forall|l: int|
        0 <= l < dir_blocks(v, raw) ==> #[trigger] pointers_clear(v, safe, dir, l)
}

/// Searching the directory with record `raw` reads only blocks that stay as
/// they are.
pub open spec fn dir_clear(v: Vol, safe: spec_fn(int) -> bool, raw: Seq<u8>) -> bool {
    &&& map_clear(v, safe, raw)
    &&& forall|l: int|
        0 <= l < dir_blocks(v, raw) ==> ((#[trigger] file_block(v, raw, l)) matches Ok(Some(p)) ==> safe(p as int))
}

/// Following the rest of a path reads only blocks that stay as they are, but
/// for the records and the searches of the directories `buts`.
pub open spec fn path_clear(
    v: Vol,
    safe: spec_fn(int) -> bool,
    slots: Seq<(int, int)>,
    buts: Seq<u32>,
    path: Seq<u8>,
    at: int,
    d: u32,
) -> bool
    decreases path.len() - at via path_clear_decreases
{
    if at < 0 || at >= path.len() {
        true
    } else if path[at] == SLASH {
        path_clear(v, safe, slots, buts, path, at + 1, d)
    } else {
        &&& !buts.contains(d) ==> record_clear(v, safe, slots, d)
        &&& checked_inode(v, d) matches Ok(raw) ==> mode_is_dir(mode_of(raw)) ==> {
            &&& !buts.contains(d) ==> dir_clear(v, safe, raw)
            &&& find_entry(v, d, raw, path.subrange(at, component_end(path, at))) matches Ok(child) ==> path_clear(
                v,
                safe,
                slots,
                buts,
                path,
                component_end(path, at),
                child,
            )
        }
    }
}

#[via_fn]
proof fn path_clear_decreases(
    v: Vol,
    safe: spec_fn(int) -> bool,
    slots: Seq<(int, int)>,
    buts: Seq<u32>,
    path: Seq<u8>,
    at: int,
    d: u32,
) {
    if 0 <= at < path.len() {
        lemma_component_end(path, at);
    }
}

/// Of a block that holds records of which some change, the rest stays.
pub open spec fn slots_apart(x: Seq<u8>, y: Seq<u8>, bs: int, slots: Seq<(int, int)>, size: int, b: int) -> bool {
    &&& block_at(x, bs, b) is Ok ==> block_at(y, bs, b) is Ok
    &&& block_at(x, bs, b) is Err ==> block_at(y, bs, b) == block_at(x, bs, b)
    &&& block_at(x, bs, b) is Ok ==> {
        let old = block_at(x, bs, b)->Ok_0;
        let new = block_at(y, bs, b)->Ok_0;
        &&& new.len() == old.len()
        &&& forall|j: int| 0 <= j < old.len() && !in_slot(slots, size, b, j) ==> #[trigger] new[j] == old[j]
    }
}

/// Volume `w` is volume `v` with other contents in some blocks, none of them
/// `safe`, and in some inode records.
pub open spec fn beside(v: Vol, w: Vol, safe: spec_fn(int) -> bool, slots: Seq<(int, int)>) -> bool {
    &&& w.sb == v.sb
    &&& w.csum == v.csum
    &&& forall|d: u32| #[trigger] inode_place(w.sb, w.groups, d) == inode_place(v.sb, v.groups, d)
    &&& forall|k: int| #[trigger] safe(k) ==> block_at(w.img, v.bs(), k) == block_at(v.img, v.bs(), k)
    &&& forall|b: int| #[trigger]
        slot_block(slots, b) ==> slots_apart(v.img, w.img, v.bs(), slots, v.sb.inode_size as int, b)
}

/// What stays as it is in one volume may stay as it is in another.
pub open spec fn safe_in(safe: spec_fn(int) -> bool, next: spec_fn(int) -> bool) -> bool {
    forall|k: int| #[trigger] safe(k) ==> next(k)
}

pub(crate) proof fn lemma_record_beside(
    v: Vol,
    w: Vol,
    safe: spec_fn(int) -> bool,
    next: spec_fn(int) -> bool,
    slots: Seq<(int, int)>,
    d: u32,
)
    requires
        beside(v, w, safe, slots),
        safe_in(safe, next),
        record_clear(v, safe, slots, d),
    ensures
        raw_inode(w, d) == raw_inode(v, d),
        checked_inode(w, d) == checked_inode(v, d),
        record_clear(w, next, slots, d),
{
    assert(inode_place(w.sb, w.groups, d) == inode_place(v.sb, v.groups, d));
    if let Ok((b, off)) = inode_place(v.sb, v.groups, d) {
        if !safe(b as int) && block_at(v.img, v.bs(), b as int) is Ok {
            assert(slots_apart(v.img, w.img, v.bs(), slots, v.sb.inode_size as int, b as int));
            let old = block_at(v.img, v.bs(), b as int)->Ok_0;
            let new = block_at(w.img, v.bs(), b as int)->Ok_0;
            if off + v.sb.inode_size <= old.len() {
                let x = new.subrange(off as int, off + v.sb.inode_size);
                let y = old.subrange(off as int, off + v.sb.inode_size);
                assert forall|j: int| 0 <= j < v.sb.inode_size implies #[trigger] x[j] == y[j] by {
                    assert(!in_slot(slots, v.sb.inode_size as int, b as int, off + j));
                    assert(new[off + j] == old[off + j]);
                }
                assert(x =~= y);
            }
        }
    }
}

proof fn lemma_follow_beside(
    v: Vol,
    w: Vol,
    safe: spec_fn(int) -> bool,
    next: spec_fn(int) -> bool,
    slots: Seq<(int, int)>,
    p: u32,
    level: nat,
    i: int,
)
    requires
        beside(v, w, safe, slots),
        safe_in(safe, next),
        follow_clear(v, safe, p, level, i),
    ensures
        follow(w.img, v.bs(), p, level, i) == follow(v.img, v.bs(), p, level, i),
        follow_clear(w, next, p, level, i),
    decreases level,
{
    if p != 0 && level != 0 {
        assert(safe(p as int));
        if let Ok(b) = block_at(v.img, v.bs(), p as int) {
            lemma_follow_beside(
                v,
                w,
                safe,
                next,
                slots,
                le32(b, 4 * (i / span(v.bs() / 4, (level - 1) as nat))),
                (level - 1) as nat,
                i % span(v.bs() / 4, (level - 1) as nat),
            );
        }
    }
}

proof fn lemma_pointers_beside(
    v: Vol,
    w: Vol,
    safe: spec_fn(int) -> bool,
    next: spec_fn(int) -> bool,
    slots: Seq<(int, int)>,
    dir: Seq<u8>,
    l: int,
)
    requires
        beside(v, w, safe, slots),
        safe_in(safe, next),
        pointers_clear(v, safe, dir, l),
    ensures
        indirect_block_for(w.img, v.bs(), dir, l) == indirect_block_for(v.img, v.bs(), dir, l),
        pointers_clear(w, next, dir, l),
{
    let per = v.bs() / 4;
    if l < 12 {
    } else if l - 12 < span(per, 1) {
        lemma_follow_beside(v, w, safe, next, slots, le32(dir, 48), 1, l - 12);
    } else if l - 12 - span(per, 1) < span(per, 2) {
        lemma_follow_beside(v, w, safe, next, slots, le32(dir, 52), 2, l - 12 - span(per, 1));
    } else if l - 12 - span(per, 1) - span(per, 2) < span(per, 3) {
        lemma_follow_beside(v, w, safe, next, slots, le32(dir, 56), 3, l - 12 - span(per, 1) - span(per, 2));
    }
}

/// Where a directory's blocks are stays the same.
pub(crate) proof fn lemma_map_beside(
    v: Vol,
    w: Vol,
    safe: spec_fn(int) -> bool,
    next: spec_fn(int) -> bool,
    slots: Seq<(int, int)>,
    raw: Seq<u8>,
)
    requires
        beside(v, w, safe, slots),
        safe_in(safe, next),
        map_clear(v, safe, raw),
    ensures
        forall|l: int| 0 <= l < dir_blocks(v, raw) ==> #[trigger] file_block(w, raw, l) == file_block(v, raw, l),
        map_clear(w, next, raw),
{
    let bs = v.bs();
    let dir = block_area_of(raw);
    let d = levels(dir);
    if flags_of(raw) & FL_EXTENTS != 0 {
        assert forall|k: int| #[trigger] tree_node(v.img, bs, dir, d, k) implies block_at(w.img, bs, k) == block_at(
            v.img,
            bs,
            k,
        ) by {
            assert(safe(k));
        }
        lemma_tree_same(v.img, w.img, bs, dir, d);
        assert forall|k: int| #[trigger] tree_node(w.img, bs, dir, d, k) implies next(k) by {
            assert(tree_node(v.img, bs, dir, d, k));
            assert(safe(k));
        }
    }
    assert forall|l: int| 0 <= l < dir_blocks(v, raw) implies #[trigger] file_block(w, raw, l) == file_block(v, raw, l) by {
        if flags_of(raw) & FL_EXTENTS != 0 {
            if header_of(dir) is Ok {
                lemma_lookup_same(v.img, w.img, bs, dir, d, l, None);
            }
        } else {
            assert(pointers_clear(v, safe, dir, l));
            lemma_pointers_beside(v, w, safe, next, slots, dir, l);
        }
    }
    if flags_of(raw) & FL_EXTENTS == 0 {
        assert forall|l: int| 0 <= l < dir_blocks(w, raw) implies #[trigger] pointers_clear(w, next, dir, l) by {
            assert(pointers_clear(v, safe, dir, l));
            lemma_pointers_beside(v, w, safe, next, slots, dir, l);
        }
    }
}

pub(crate) proof fn lemma_dir_beside(
    v: Vol,
    w: Vol,
    safe: spec_fn(int) -> bool,
    next: spec_fn(int) -> bool,
    slots: Seq<(int, int)>,
    raw: Seq<u8>,
)
    requires
        beside(v, w, safe, slots),
        safe_in(safe, next),
        dir_clear(v, safe, raw),
    ensures
        forall|l: int| 0 <= l < dir_blocks(v, raw) ==> #[trigger] file_block(w, raw, l) == file_block(v, raw, l),
        dir_clear(w, next, raw),
{
    lemma_map_beside(v, w, safe, next, slots, raw);
    assert forall|l: int| 0 <= l < dir_blocks(w, raw) implies ((#[trigger] file_block(w, raw, l)) matches Ok(Some(p))
        ==> next(p as int)) by {
        assert(file_block(w, raw, l) == file_block(v, raw, l));
        if let Ok(Some(p)) = file_block(v, raw, l) {
            assert(safe(p as int));
        }
    }
}

/// What a directory's search finds stays the same.
pub(crate) proof fn lemma_find_beside(
    v: Vol,
    w: Vol,
    safe: spec_fn(int) -> bool,
    slots: Seq<(int, int)>,
    d: u32,
    raw: Seq<u8>,
    name: Seq<u8>,
    l: int,
)
    requires
        beside(v, w, safe, slots),
        dir_clear(v, safe, raw),
        0 <= l,
        forall|l: int| 0 <= l < dir_blocks(v, raw) ==> #[trigger] file_block(w, raw, l) == file_block(v, raw, l),
    ensures
        find_entry_from(w, d, raw, name, l) == find_entry_from(v, d, raw, name, l),
    decreases dir_blocks(v, raw) - l,
{
    if l < dir_blocks(v, raw) {
        assert(file_block(w, raw, l) == file_block(v, raw, l));
        if let Ok(Some(p)) = file_block(v, raw, l) {
            assert(safe(p as int));
        }
        lemma_find_beside(v, w, safe, slots, d, raw, name, l + 1);
    }
}

/// Where a path leads stays the same.
pub(crate) proof fn lemma_walk_beside(
    v: Vol,
    w: Vol,
    safe: spec_fn(int) -> bool,
    next: spec_fn(int) -> bool,
    slots: Seq<(int, int)>,
    path: Seq<u8>,
    at: int,
    d: u32,
)
    requires
        beside(v, w, safe, slots),
        safe_in(safe, next),
        path_clear(v, safe, slots, Seq::empty(), path, at, d),
    ensures
        walk_from(w, path, at, d) == walk_from(v, path, at, d),
        path_clear(w, next, slots, Seq::empty(), path, at, d),
    decreases path.len() - at,
{
    if 0 <= at < path.len() {
        if path[at] == SLASH {
            lemma_walk_beside(v, w, safe, next, slots, path, at + 1, d);
        } else {
            lemma_component_end(path, at);
            lemma_record_beside(v, w, safe, next, slots, d);
            if let Ok(raw) = checked_inode(v, d) {
                if mode_is_dir(mode_of(raw)) {
                    let name = path.subrange(at, component_end(path, at));
                    lemma_dir_beside(v, w, safe, next, slots, raw);
                    lemma_find_beside(v, w, safe, slots, d, raw, name, 0);
                    if let Ok(child) = find_entry(v, d, raw, name) {
                        lemma_walk_beside(v, w, safe, next, slots, path, component_end(path, at), child);
                    }
                }
            }
        }
    }
}

} // verus!
