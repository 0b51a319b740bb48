//! Where paths lead once a name has been moved over another.
use crate::block_io::block_at;
use crate::commit::committed;
use crate::content_laws::record_block;
use crate::dir::DirEntryType;
use crate::dirops::{
    component_end, dir_blocks, find_entry, lemma_component_end, parent_and_base, resolve, stage_add_entry, stage_add_from,
    stage_remove_from, walk_from, EXT4_ROOT_INODE, SLASH,
};
use crate::entry_laws::{
    good_dir, law_removed_name_is_not_found, lemma_removed_elsewhere, lemma_removed_keeps, named_once_each,
};
use crate::error::{Error, Result};
use crate::frame_laws::is_meta;
use crate::fs::{checked_inode, file_block};
use crate::growth_laws::lemma_tree_same;
use crate::inode::{block_area_of, links_of, mode_is_dir, mode_of};
use crate::link_laws::relinked_record;
use crate::name_laws::{dir_holds, lemma_dir_stands, lemma_path_steps, moved, own_slot, quiet};
use crate::pwrite_laws::levels;
use crate::reach_laws::{
    beside, dir_clear, lemma_dir_beside, lemma_find_beside, lemma_record_beside, path_clear, slot_block, slots_apart,
};
use crate::remove_laws::lemma_named_same;
use crate::rename::{
    moved_type, rename_intent, renamed, stage_make_way, stage_move_rest, Intent, Move,
};
use crate::rename_laws::{
    avoids, dir_kept, dirs_apart, ends_apart, lemma_across_slots, lemma_avoids_file, lemma_clear_again, lemma_dirs_moved,
    lemma_edit_moved, lemma_intent, lemma_nodes_apart, lemma_quiet_beside, lemma_records_alone, lemma_rest_moved,
    lemma_swapped, parent_block, parent_slots, parents_after, swapped, unmoved, way_across, ways_clear,
};
use crate::volume::{fresh_stage, Stage, Vol};
use vstd::prelude::*;

verus! {

/// A directory is still one, and every name in it that led somewhere leads
/// there still, but for the two names of a move.
pub open spec fn names_kept(v: Vol, w: Vol, d: u32, m: Move) -> bool {
    checked_inode(v, d) matches Ok(raw) ==> {
        &&& checked_inode(w, d) is Ok
        &&& mode_of(checked_inode(w, d)->Ok_0) == mode_of(raw)
        &&& forall|part: Seq<u8>|
            find_entry(v, d, raw, part) is Ok && !(d == m.src.dir && part == m.src.name) && !(d == m.dst.dir && part
                == m.dst.name) ==> #[trigger] find_entry(w, d, checked_inode(w, d)->Ok_0, part) == find_entry(
                v,
                d,
                raw,
                part,
            )
    }
}

/// Where a path leads stays the same if it goes through neither name of a
/// move. If it goes through the old one, it leads there or nowhere.
proof fn lemma_walk_over(
    v: Vol,
    w: Vol,
    safe: spec_fn(int) -> bool,
    slots: Seq<(int, int)>,
    buts: Seq<u32>,
    m: Move,
    path: Seq<u8>,
    at: int,
    d: u32,
    r: u32,
)
    requires
        beside(v, w, safe, slots),
        0 <= at,
        path_clear(v, safe, slots, buts, path, at, d),
        forall|b: u32| #[trigger] buts.contains(b) ==> names_kept(v, w, b, m),
        buts.contains(m.src.dir),
        buts.contains(m.dst.dir),
        checked_inode(w, m.src.dir) matches Ok(raw) ==> find_entry(w, m.src.dir, raw, m.src.name) is Err,
        avoids(v, path, at, d, m.dst.dir, m.dst.name),
        walk_from(v, path, at, d) == Ok::<u32, Error>(r),
    ensures
        avoids(v, path, at, d, m.src.dir, m.src.name) ==> walk_from(w, path, at, d) == Ok::<u32, Error>(r),
        walk_from(w, path, at, d) == Ok::<u32, Error>(r) || walk_from(w, path, at, d) is Err,
    decreases path.len() - at,
{
    if at < path.len() {
        if path[at] == SLASH {
            lemma_walk_over(v, w, safe, slots, buts, m, path, at + 1, d, r);
        } else {
            lemma_component_end(path, at);
            let raw = checked_inode(v, d)->Ok_0;
            let end = component_end(path, at);
            let part = path.subrange(at, end);
            let c = find_entry(v, d, raw, part)->Ok_0;
            if buts.contains(d) {
                assert(names_kept(v, w, d, m));
                if !(d == m.src.dir && part == m.src.name) {
                    assert(find_entry(w, d, checked_inode(w, d)->Ok_0, part) == find_entry(v, d, raw, part));
                }
            } else {
                lemma_record_beside(v, w, safe, safe, slots, d);
                lemma_dir_beside(v, w, safe, safe, slots, raw);
                lemma_find_beside(v, w, safe, slots, d, raw, part, 0);
            }
            lemma_walk_over(v, w, safe, slots, buts, m, path, end, c, r);
        }
    }
}

/// A name is entered in the same block while a directory has its blocks where
/// it had them.
proof fn lemma_add_same(
    v: Vol,
    u: Vol,
    a: Stage,
    b: Stage,
    ino: u32,
    raw: Seq<u8>,
    name: Seq<u8>,
    target: u32,
    ft: DirEntryType,
    l: int,
)
    requires
        u.sb == v.sb,
        u.csum == v.csum,
        forall|l: int| #[trigger] file_block(u, raw, l) == file_block(v, raw, l),
        same_edits(a, b),
    ensures
        same_staged(
            stage_add_from(v, a, ino, raw, name, target, ft, l),
            stage_add_from(u, b, ino, raw, name, target, ft, l),
        ),
    decreases dir_blocks(v, raw) - l,
{
    if l < dir_blocks(v, raw) {
        assert(file_block(u, raw, l) == file_block(v, raw, l));
        lemma_add_same(v, u, a, b, ino, raw, name, target, ft, l + 1);
    }
}

/// So is one taken out.
proof fn lemma_remove_same(v: Vol, u: Vol, a: Stage, b: Stage, ino: u32, raw: Seq<u8>, name: Seq<u8>, l: int)
    requires
        u.sb == v.sb,
        u.csum == v.csum,
        forall|l: int| #[trigger] file_block(u, raw, l) == file_block(v, raw, l),
        same_edits(a, b),
    ensures
        same_staged(stage_remove_from(v, a, ino, raw, name, l), stage_remove_from(u, b, ino, raw, name, l)),
    decreases dir_blocks(v, raw) - l,
{
    if l < dir_blocks(v, raw) {
        assert(file_block(u, raw, l) == file_block(v, raw, l));
        lemma_remove_same(v, u, a, b, ino, raw, name, l + 1);
    }
}

/// Two stages that leave the same volume.
pub open spec fn same_edits(a: Stage, b: Stage) -> bool {
    a.img == b.img && a.cleared == b.cleared
}

/// Two edits that come to the same volume, or fail alike.
pub open spec fn same_staged(a: Result<Stage>, b: Result<Stage>) -> bool {
    match a {
        Ok(x) => b is Ok && same_edits(x, b->Ok_0),
        Err(e) => b == Err::<Stage, Error>(e),
    }
}

/// A volume with one directory block edited, for which both directories of a
/// move have their blocks where they had them.
pub open spec fn way_made(v: Vol, u: Vol, m: Move) -> bool {
    &&& u.sb == v.sb
    &&& u.csum == v.csum
    &&& u.groups == v.groups
    &&& u.img.len() == v.img.len()
    &&& forall|l: int| #[trigger] file_block(u, m.src.raw, l) == file_block(v, m.src.raw, l)
    &&& forall|l: int| #[trigger] file_block(u, m.dst.raw, l) == file_block(v, m.dst.raw, l)
    &&& forall|k: int|
        k >= 0 && !dir_holds(v, m.dst.raw, k) ==> #[trigger] block_at(u.img, v.bs(), k) == block_at(v.img, v.bs(), k)
}

/// Which block the replaced name was in.
proof fn lemma_way_block(v: Vol, m: Move, st: Stage) -> (p: u64)
    requires
        v.wf(),
        m.replaced is Some,
        good_dir(v, m.dst.raw),
        named_once_each(v, m.dst.raw, m.dst.name),
        stage_make_way(v, m) == Ok::<Stage, Error>(st),
    ensures
        dir_holds(v, m.dst.raw, p as int),
        st.img.len() == v.img.len(),
        st.cleared == Seq::<(usize, u16)>::empty(),
        committed(v, st).groups == v.groups,
        moved(v, fresh_stage(v), st, Seq::empty(), seq![p]),
        forall|k: int| k >= 0 && k != p ==> #[trigger] block_at(st.img, v.bs(), k) == block_at(v.img, v.bs(), k),
{
    let start = fresh_stage(v);
    assert(committed(v, start) == v);
    let n = lemma_removed_elsewhere(v, start, m.dst.dir, m.dst.raw, m.dst.name);
    let p = file_block(v, m.dst.raw, n)->Ok_0->Some_0;
    assert(file_block(v, m.dst.raw, n) == Ok::<Option<u64>, Error>(Some(p as int as u64)));
    assert(dir_holds(v, m.dst.raw, p as int));
    lemma_edit_moved(v, start, st, m.dst.raw, p);
    p
}

/// The directory that the replaced name was in, once it is out.
proof fn lemma_way_target(v: Vol, m: Move, st: Stage, other: Seq<u8>)
    requires
        v.wf(),
        m.replaced is Some,
        good_dir(v, m.dst.raw),
        named_once_each(v, m.dst.raw, m.dst.name),
        stage_make_way(v, m) == Ok::<Stage, Error>(st),
        other != m.dst.name,
    ensures
        ({
            let u = committed(v, st);
            &&& good_dir(u, m.dst.raw)
            &&& forall|l: int| #[trigger] file_block(u, m.dst.raw, l) == file_block(v, m.dst.raw, l)
            &&& named_once_each(v, m.dst.raw, other) ==> named_once_each(u, m.dst.raw, other)
            &&& forall|part: Seq<u8>|
                part != m.dst.name && find_entry(v, m.dst.dir, m.dst.raw, part) is Ok ==> #[trigger] find_entry(
                    u,
                    m.dst.dir,
                    m.dst.raw,
                    part,
                ) == find_entry(v, m.dst.dir, m.dst.raw, part)
        }),
{
    let start = fresh_stage(v);
    let u = committed(v, st);
    assert(committed(v, start) == v);
    lemma_removed_keeps(v, start, m.dst.dir, m.dst.raw, m.dst.name, other);
    assert forall|part: Seq<u8>|
        part != m.dst.name && find_entry(v, m.dst.dir, m.dst.raw, part) is Ok implies #[trigger] find_entry(
        u,
        m.dst.dir,
        m.dst.raw,
        part,
    ) == find_entry(v, m.dst.dir, m.dst.raw, part) by {
        law_removed_name_is_not_found(v, start, m.dst.dir, m.dst.raw, m.dst.name, part);
    }
}

/// The other directory of a move, once the replaced name is out.
proof fn lemma_way_source(v: Vol, m: Move, new: Seq<u64>, st: Stage, p: u64)
    requires
        v.wf(),
        m.src.dir != m.dst.dir,
        good_dir(v, m.src.raw),
        dirs_apart(v, m.dst.raw, m.src.raw),
        dir_clear(v, quiet(v, parent_slots(v, m), new), m.src.raw),
        named_once_each(v, m.src.raw, m.src.name),
        dir_holds(v, m.dst.raw, p as int),
        moved(v, fresh_stage(v), st, Seq::empty(), seq![p]),
    ensures
        ({
            let u = committed(v, st);
            &&& good_dir(u, m.src.raw)
            &&& forall|l: int| #[trigger] file_block(u, m.src.raw, l) == file_block(v, m.src.raw, l)
            &&& named_once_each(u, m.src.raw, m.src.name)
            &&& forall|part: Seq<u8>| #[trigger]
                find_entry(u, m.src.dir, m.src.raw, part) == find_entry(v, m.src.dir, m.src.raw, part)
        }),
{
    let start = fresh_stage(v);
    let none = Seq::<(int, int)>::empty();
    assert(committed(v, start) == v);
    assert(dirs_apart(v, m.src.raw, m.dst.raw)) by {
        assert forall|k: int| #[trigger] dir_holds(v, m.src.raw, k) implies !dir_holds(v, m.dst.raw, k) by {
            if dir_holds(v, m.dst.raw, k) {
                assert(!dir_holds(v, m.src.raw, k));
            }
        }
    }
    lemma_quiet_beside(v, quiet(v, parent_slots(v, m), new), m.src.raw, m.dst.raw, p);
    lemma_dir_stands(v, start, st, none, seq![p], m.src.dir, m.src.raw);
    lemma_named_same(v, start, st, none, seq![p], m.src.raw, m.src.name);
}

/// Both directories are still in good order, and share nothing, once the
/// replaced name is out.
proof fn lemma_ends_still_apart(v: Vol, m: Move, new: Seq<u64>, st: Stage)
    requires
        ends_apart(v, m, new),
        m.replaced is Some,
        m.src.dir == m.dst.dir ==> m.src.raw == m.dst.raw && m.src.name != m.dst.name,
        named_once_each(v, m.dst.raw, m.dst.name),
        stage_make_way(v, m) == Ok::<Stage, Error>(st),
    ensures
        ({
            let u = committed(v, st);
            &&& st.img == u.img && st.cleared == Seq::<(usize, u16)>::empty()
            &&& way_made(v, u, m)
            &&& ends_apart(u, m, new)
            &&& forall|part: Seq<u8>|
                find_entry(v, m.src.dir, m.src.raw, part) is Ok && !(m.src.dir == m.dst.dir && part == m.dst.name)
                    ==> #[trigger] find_entry(u, m.src.dir, m.src.raw, part) == find_entry(
                    v,
                    m.src.dir,
                    m.src.raw,
                    part,
                )
            &&& forall|part: Seq<u8>|
                find_entry(v, m.dst.dir, m.dst.raw, part) is Ok && part != m.dst.name ==> #[trigger] find_entry(
                    u,
                    m.dst.dir,
                    m.dst.raw,
                    part,
                ) == find_entry(v, m.dst.dir, m.dst.raw, part)
        }),
{
    reveal(ends_apart);
    let u = committed(v, st);
    let slots = parent_slots(v, m);
    let safe = quiet(v, slots, new);
    let p = lemma_way_block(v, m, st);
    let other = if m.src.dir == m.dst.dir {
        m.src.name
    } else {
        m.dst.name.push(0)
    };
    if m.src.dir != m.dst.dir {
        assert(other.len() != m.dst.name.len());
        lemma_way_source(v, m, new, st, p);
    }
    lemma_way_target(v, m, st, other);
    lemma_nodes_apart(v, m.src.raw, m.dst.raw, m.src.dir == m.dst.dir);
    lemma_nodes_apart(v, m.dst.raw, m.src.raw, m.src.dir == m.dst.dir);
    lemma_clear_again(v, u, safe, m.src.raw);
    lemma_clear_again(v, u, safe, m.dst.raw);
    lemma_same_spots(v, u, m, new);
}

/// What is said of places is the same of both volumes.
proof fn lemma_same_spots(v: Vol, u: Vol, m: Move, new: Seq<u64>)
    requires
        way_made(v, u, m),
        good_dir(v, m.src.raw),
        good_dir(v, m.dst.raw),
        m.src.dir == m.dst.dir ==> m.src.raw == m.dst.raw,
        m.src.dir != m.dst.dir ==> dirs_apart(v, m.dst.raw, m.src.raw),
    ensures
        parent_slots(u, m) == parent_slots(v, m),
        forall|k: int| #[trigger] is_meta(u, k) == is_meta(v, k),
        forall|k: int| #[trigger] dir_holds(u, m.src.raw, k) == dir_holds(v, m.src.raw, k),
        forall|k: int| #[trigger] dir_holds(u, m.dst.raw, k) == dir_holds(v, m.dst.raw, k),
        quiet(u, parent_slots(v, m), new) == quiet(v, parent_slots(v, m), new),
        unmoved(u, m, new) == unmoved(v, m, new),
        m.src.dir != m.dst.dir ==> dirs_apart(u, m.dst.raw, m.src.raw),
{
    assert forall|k: int| #[trigger] is_meta(u, k) == is_meta(v, k) by {}
    assert forall|k: int| #[trigger] dir_holds(u, m.src.raw, k) == dir_holds(v, m.src.raw, k) by {
        if dir_holds(v, m.src.raw, k) {
            lemma_holds_same(v, u, m.src.raw, k);
        }
        if dir_holds(u, m.src.raw, k) {
            lemma_holds_same(u, v, m.src.raw, k);
        }
    }
    assert forall|k: int| #[trigger] dir_holds(u, m.dst.raw, k) == dir_holds(v, m.dst.raw, k) by {
        if dir_holds(v, m.dst.raw, k) {
            lemma_holds_same(v, u, m.dst.raw, k);
        }
        if dir_holds(u, m.dst.raw, k) {
            lemma_holds_same(u, v, m.dst.raw, k);
        }
    }
    assert(quiet(u, parent_slots(v, m), new) =~= quiet(v, parent_slots(v, m), new));
    assert(unmoved(u, m, new) =~= unmoved(v, m, new));
    if m.src.dir != m.dst.dir {
        lemma_nodes_apart(v, m.src.raw, m.dst.raw, false);
        lemma_nodes_apart(v, m.dst.raw, m.src.raw, false);
        lemma_tree_same(v.img, u.img, v.bs(), block_area_of(m.src.raw), levels(block_area_of(m.src.raw)));
        lemma_tree_same(v.img, u.img, v.bs(), block_area_of(m.dst.raw), levels(block_area_of(m.dst.raw)));
    }
}

proof fn lemma_holds_same(v: Vol, u: Vol, raw: Seq<u8>, k: int)
    requires
        u.sb == v.sb,
        forall|l: int| #[trigger] file_block(u, raw, l) == file_block(v, raw, l),
        dir_holds(v, raw, k),
    ensures
        dir_holds(u, raw, k),
{
    let l = choose|l: int|
        0 <= l < dir_blocks(v, raw) && (#[trigger] file_block(v, raw, l)) == Ok::<Option<u64>, Error>(Some(k as u64)) && k
            <= u64::MAX;
    assert(file_block(u, raw, l) == file_block(v, raw, l));
}

/// A directory's names, over both steps.
proof fn lemma_kept_over(v: Vol, u: Vol, w: Vol, d: u32, raw: Seq<u8>, m: Move)
    requires
        checked_inode(v, d) == Ok::<Seq<u8>, Error>(raw),
        checked_inode(u, d) == Ok::<Seq<u8>, Error>(raw),
        forall|part: Seq<u8>|
            find_entry(v, d, raw, part) is Ok && !(d == m.dst.dir && part == m.dst.name) ==> #[trigger] find_entry(
                u,
                d,
                raw,
                part,
            ) == find_entry(v, d, raw, part),
        dir_kept(u, w, d, m.src.dir, m.src.name),
    ensures
        names_kept(v, w, d, m),
{
    assert forall|part: Seq<u8>|
        find_entry(v, d, raw, part) is Ok && !(d == m.src.dir && part == m.src.name) && !(d == m.dst.dir && part
            == m.dst.name) implies #[trigger] find_entry(w, d, checked_inode(w, d)->Ok_0, part) == find_entry(
        v,
        d,
        raw,
        part,
    ) by {
        assert(find_entry(u, d, raw, part) == find_entry(v, d, raw, part));
    }
}

/// The records of both directories are as they were when the replaced name is
/// out.
proof fn lemma_records_stay(v: Vol, u: Vol, m: Move, new: Seq<u64>)
    requires
        ends_apart(v, m, new),
        way_made(v, u, m),
        checked_inode(v, m.src.dir) is Ok,
        checked_inode(v, m.dst.dir) is Ok,
    ensures
        checked_inode(u, m.src.dir) == checked_inode(v, m.src.dir),
        checked_inode(u, m.dst.dir) == checked_inode(v, m.dst.dir),
{
    let slots = parent_slots(v, m);
    lemma_across_slots(v, m, new);
    assert(slots[0] == own_slot(v, m.src.dir) && slots[1] == own_slot(v, m.dst.dir));
    assert(slot_block(slots, slots[0].0) && slot_block(slots, slots[1].0));
    assert(block_at(u.img, v.bs(), record_block(v, m.src.dir)) == block_at(v.img, v.bs(), record_block(v, m.src.dir)));
    assert(block_at(u.img, v.bs(), record_block(v, m.dst.dir)) == block_at(v.img, v.bs(), record_block(v, m.dst.dir)));
}

/// Blocks and records that a move leaves alone, over both steps.
proof fn lemma_beside_over(v: Vol, u: Vol, w: Vol, m: Move, new: Seq<u64>)
    requires
        ends_apart(v, m, new),
        way_made(v, u, m),
        unmoved(u, m, new) == unmoved(v, m, new),
        beside(u, w, unmoved(u, m, new), parent_slots(v, m)),
    ensures
        beside(v, w, unmoved(v, m, new), parent_slots(v, m)),
{
    let slots = parent_slots(v, m);
    let safe = unmoved(v, m, new);
    let size = v.sb.inode_size as int;
    lemma_across_slots(v, m, new);
    assert forall|k: int| #[trigger] safe(k) implies block_at(w.img, v.bs(), k) == block_at(v.img, v.bs(), k) by {
        assert(unmoved(u, m, new)(k));
        assert(block_at(u.img, v.bs(), k) == block_at(v.img, v.bs(), k));
    }
    assert forall|k: int| #[trigger] slot_block(slots, k) implies slots_apart(v.img, w.img, v.bs(), slots, size, k) by {
        assert(block_at(u.img, v.bs(), k) == block_at(v.img, v.bs(), k));
        assert(slots_apart(u.img, w.img, v.bs(), slots, size, k));
    }
}

/// The two entries, edited in the volume without the replaced name.
proof fn lemma_swapped_over(v: Vol, u: Vol, m: Move, new: Seq<u64>, st0: Stage, st1: Stage, st: Stage)
    requires
        ends_apart(u, m, new),
        way_made(v, u, m),
        st0.img == u.img,
        st0.cleared == Seq::<(usize, u16)>::empty(),
        m.dst.name.len() <= 255,
        m.src.dir == m.dst.dir ==> m.src.raw == m.dst.raw,
        find_entry(u, m.src.dir, m.src.raw, m.src.name) == Ok::<u32, Error>(m.ino),
        find_entry(u, m.dst.dir, m.dst.raw, m.dst.name) == Err::<u32, Error>(Error::NotFound),
        stage_add_entry(v, st0, m.dst.dir, m.dst.raw, m.dst.name, m.ino, moved_type(mode_of(m.raw))) == Ok::<
            Stage,
            Error,
        >(st1),
        stage_remove_from(v, st1, m.src.dir, m.src.raw, m.src.name, 0) == Ok::<Stage, Error>(st),
    ensures
        swapped(u, st, m.dst.dir, m.dst.raw, m.dst.name, m.ino, m.src.dir, m.src.raw, m.src.name),
{
    let ft = moved_type(mode_of(m.raw));
    let start = fresh_stage(u);
    lemma_add_same(v, u, st0, start, m.dst.dir, m.dst.raw, m.dst.name, m.ino, ft, 0);
    let mid = stage_add_entry(u, start, m.dst.dir, m.dst.raw, m.dst.name, m.ino, ft)->Ok_0;
    lemma_remove_same(v, u, st1, mid, m.src.dir, m.src.raw, m.src.name, 0);
    let end = stage_remove_from(u, mid, m.src.dir, m.src.raw, m.src.name, 0)->Ok_0;
    lemma_swapped(u, m, new);
    assert(committed(u, end) == committed(u, st));
}

/// Both directories once a move that replaces something is done.
#[verifier::rlimit(40)]
proof fn lemma_moved_over(v: Vol, m: Move, st0: Stage, st1: Stage, fin: Stage, now: u32)
    requires
        ends_apart(v, m, parent_block(v, m)),
        m.replaced is Some,
        checked_inode(v, m.replaced->Some_0.0) == Ok::<Seq<u8>, Error>(m.replaced->Some_0.1),
        m.dst.name.len() <= 255,
        m.src.dir == m.dst.dir ==> m.src.raw == m.dst.raw && m.src.name != m.dst.name,
        checked_inode(v, m.src.dir) == Ok::<Seq<u8>, Error>(m.src.raw),
        checked_inode(v, m.dst.dir) == Ok::<Seq<u8>, Error>(m.dst.raw),
        find_entry(v, m.src.dir, m.src.raw, m.src.name) == Ok::<u32, Error>(m.ino),
        named_once_each(v, m.dst.raw, m.dst.name),
        stage_make_way(v, m) == Ok::<Stage, Error>(st0),
        find_entry(committed(v, st0), m.dst.dir, m.dst.raw, m.dst.name) == Err::<u32, Error>(Error::NotFound),
        stage_add_entry(v, st0, m.dst.dir, m.dst.raw, m.dst.name, m.ino, moved_type(mode_of(m.raw))) == Ok::<
            Stage,
            Error,
        >(st1),
        stage_move_rest(v, st1, m, now) == Ok::<Stage, Error>(fin),
    ensures
        ({
            let w = committed(v, fin);
            let (sa, da) = parents_after(v, m);
            &&& beside(v, w, unmoved(v, m, parent_block(v, m)), parent_slots(v, m))
            &&& checked_inode(w, m.src.dir) == Ok::<Seq<u8>, Error>(sa)
            &&& checked_inode(w, m.dst.dir) == Ok::<Seq<u8>, Error>(da)
            &&& mode_of(da) == mode_of(m.dst.raw)
            &&& find_entry(w, m.dst.dir, da, m.dst.name) == Ok::<u32, Error>(m.ino)
            &&& find_entry(w, m.src.dir, sa, m.src.name) is Err
            &&& names_kept(v, w, m.src.dir, m)
            &&& names_kept(v, w, m.dst.dir, m)
            &&& links_of(m.replaced->Some_0.1) > 1 && !mode_is_dir(mode_of(m.replaced->Some_0.1)) ==> checked_inode(
                w,
                m.replaced->Some_0.0,
            ) == Ok::<Seq<u8>, Error>(relinked_record(v, m.replaced->Some_0.0, m.replaced->Some_0.1, -1))
        }),
{
    let new = parent_block(v, m);
    let u = committed(v, st0);
    let w = committed(v, fin);
    let st = stage_remove_from(v, st1, m.src.dir, m.src.raw, m.src.name, 0)->Ok_0;
    let (sa, da) = parents_after(v, m);
    lemma_ends_still_apart(v, m, new, st0);
    lemma_records_stay(v, u, m, new);
    lemma_swapped_over(v, u, m, new, st0, st1, st);
    lemma_records_alone(u, st, m, new);
    assert(committed(u, st) == committed(v, st));
    assert(committed(u, fin) == w);
    lemma_rest_moved(v, m, st1, st, fin, now);
    lemma_across_dirs(v, m, new);
    lemma_same_spots(v, u, m, new);
    lemma_moved_same(v, u, st, fin, parent_slots(v, m), new);
    lemma_dirs_moved(u, m, new, st, fin, sa, da);
    lemma_beside_over(v, u, w, m, new);
    lemma_kept_over(v, u, w, m.src.dir, m.src.raw, m);
    lemma_kept_over(v, u, w, m.dst.dir, m.dst.raw, m);
}

proof fn lemma_across_dirs(v: Vol, m: Move, new: Seq<u64>)
    requires
        ends_apart(v, m, new),
    ensures
        good_dir(v, m.src.raw),
        good_dir(v, m.dst.raw),
        m.src.dir != m.dst.dir ==> dirs_apart(v, m.dst.raw, m.src.raw),
{
    reveal(ends_apart);
}

proof fn lemma_moved_same(v: Vol, u: Vol, a: Stage, b: Stage, slots: Seq<(int, int)>, new: Seq<u64>)
    requires
        u.sb == v.sb,
        forall|k: int| #[trigger] is_meta(u, k) == is_meta(v, k),
        moved(v, a, b, slots, new),
    ensures
        moved(u, a, b, slots, new),
{
}

/// The ways to both directories, over a move that replaces something.
#[verifier::rlimit(40)]
proof fn lemma_paths_over(v: Vol, w: Vol, m: Move, src: Seq<u8>, dst: Seq<u8>, sa: Seq<u8>, da: Seq<u8>)
    requires
        parent_and_base(src) is Ok,
        parent_and_base(dst) is Ok,
        m.src.name == parent_and_base(src)->Ok_0.1,
        m.dst.name == parent_and_base(dst)->Ok_0.1,
        ways_clear(v, m, parent_and_base(src)->Ok_0.0, parent_and_base(dst)->Ok_0.0),
        mode_is_dir(mode_of(m.raw)) ==> avoids(
            v,
            parent_and_base(dst)->Ok_0.0,
            0,
            EXT4_ROOT_INODE,
            m.src.dir,
            m.src.name,
        ),
        avoids(v, parent_and_base(src)->Ok_0.0, 0, EXT4_ROOT_INODE, m.dst.dir, m.dst.name),
        avoids(v, parent_and_base(dst)->Ok_0.0, 0, EXT4_ROOT_INODE, m.dst.dir, m.dst.name),
        resolve(v, parent_and_base(src)->Ok_0.0) == Ok::<u32, Error>(m.src.dir),
        resolve(v, parent_and_base(dst)->Ok_0.0) == Ok::<u32, Error>(m.dst.dir),
        checked_inode(v, m.src.dir) == Ok::<Seq<u8>, Error>(m.src.raw),
        checked_inode(v, m.dst.dir) == Ok::<Seq<u8>, Error>(m.dst.raw),
        mode_is_dir(mode_of(m.dst.raw)),
        find_entry(v, m.src.dir, m.src.raw, m.src.name) == Ok::<u32, Error>(m.ino),
        checked_inode(v, m.ino) == Ok::<Seq<u8>, Error>(m.raw),
        checked_inode(w, m.src.dir) == Ok::<Seq<u8>, Error>(sa),
        checked_inode(w, m.dst.dir) == Ok::<Seq<u8>, Error>(da),
        mode_of(da) == mode_of(m.dst.raw),
        beside(v, w, unmoved(v, m, parent_block(v, m)), parent_slots(v, m)),
        find_entry(w, m.dst.dir, da, m.dst.name) == Ok::<u32, Error>(m.ino),
        find_entry(w, m.src.dir, sa, m.src.name) is Err,
        names_kept(v, w, m.src.dir, m),
        names_kept(v, w, m.dst.dir, m),
    ensures
        resolve(w, dst) == Ok::<u32, Error>(m.ino),
        resolve(w, src) is Err,
{
    reveal(ways_clear);
    let slots = parent_slots(v, m);
    let safe = unmoved(v, m, parent_block(v, m));
    let buts = seq![m.src.dir, m.dst.dir];
    let (sp, sname) = parent_and_base(src)->Ok_0;
    let (dp, dname) = parent_and_base(dst)->Ok_0;
    let root = EXT4_ROOT_INODE;
    assert(buts[0] == m.src.dir && buts[1] == m.dst.dir);
    assert forall|b: u32| #[trigger] buts.contains(b) implies names_kept(v, w, b, m) by {}
    if !mode_is_dir(mode_of(m.raw)) {
        lemma_avoids_file(v, dp, 0, root, m.src.dir, m.src.raw, sname, m.dst.dir);
    }
    lemma_walk_over(v, w, safe, slots, buts, m, dp, 0, root, m.dst.dir);
    lemma_walk_over(v, w, safe, slots, buts, m, sp, 0, root, m.src.dir);
    lemma_path_steps(w, dst);
    lemma_path_steps(w, src);
}

/// A name that was moved over another is at that one's path and no longer at
/// its own; every other name of the two directories that led somewhere leads
/// there still. The links that directories take with them are moved with them,
/// and a replaced file that has other links has one less. Both directories are
/// in good order, the one it goes to had the name once and reads to its end
/// without it, and neither path goes through a directory that is replaced.
#[verifier::rlimit(40)]
pub proof fn law_moved_name_replaces_another(v: Vol, src: Seq<u8>, dst: Seq<u8>, replace: bool, now: u32, m: Move)
    requires
        rename_intent(v, src, dst, replace) == Ok::<Intent, Error>(Intent::Move(m)),
        m.replaced is Some,
        way_across(v, m, parent_and_base(src)->Ok_0.0, parent_and_base(dst)->Ok_0.0),
        named_once_each(v, m.dst.raw, m.dst.name),
        mode_is_dir(mode_of(m.replaced->Some_0.1)) ==> {
            &&& avoids(v, parent_and_base(src)->Ok_0.0, 0, EXT4_ROOT_INODE, m.dst.dir, m.dst.name)
            &&& avoids(v, parent_and_base(dst)->Ok_0.0, 0, EXT4_ROOT_INODE, m.dst.dir, m.dst.name)
        },
        ({
            let ft = moved_type(mode_of(m.raw));
            let st0 = stage_make_way(v, m);
            let st1 = stage_add_entry(v, st0->Ok_0, m.dst.dir, m.dst.raw, m.dst.name, m.ino, ft);
            &&& st0 is Ok
            &&& find_entry(committed(v, st0->Ok_0), m.dst.dir, m.dst.raw, m.dst.name) == Err::<u32, Error>(
                Error::NotFound,
            )
            &&& st1 is Ok
            &&& stage_move_rest(v, st1->Ok_0, m, now) is Ok
        }),
    ensures
        ({
            let (w, r) = renamed(v, src, dst, replace, now);
            let (old, oraw) = m.replaced->Some_0;
            &&& r is Ok
            &&& resolve(v, src) == Ok::<u32, Error>(m.ino)
            &&& resolve(w, dst) == Ok::<u32, Error>(m.ino)
            &&& resolve(w, src) is Err
            &&& names_kept(v, w, m.src.dir, m)
            &&& names_kept(v, w, m.dst.dir, m)
            &&& checked_inode(w, m.src.dir) == Ok::<Seq<u8>, Error>(parents_after(v, m).0)
            &&& checked_inode(w, m.dst.dir) == Ok::<Seq<u8>, Error>(parents_after(v, m).1)
            &&& links_of(oraw) > 1 && !mode_is_dir(mode_of(oraw)) ==> checked_inode(w, old) == Ok::<Seq<u8>, Error>(
                relinked_record(v, old, oraw, -1),
            )
        }),
{
    let ft = moved_type(mode_of(m.raw));
    let st0 = stage_make_way(v, m)->Ok_0;
    let st1 = stage_add_entry(v, st0, m.dst.dir, m.dst.raw, m.dst.name, m.ino, ft)->Ok_0;
    let fin = stage_move_rest(v, st1, m, now)->Ok_0;
    let (sp, sname) = parent_and_base(src)->Ok_0;
    let (dp, dname) = parent_and_base(dst)->Ok_0;
    let root = EXT4_ROOT_INODE;
    lemma_intent(v, src, dst, replace, m);
    lemma_moved_over(v, m, st0, st1, fin, now);
    if !mode_is_dir(mode_of(m.replaced->Some_0.1)) {
        lemma_avoids_file(v, sp, 0, root, m.dst.dir, m.dst.raw, dname, m.src.dir);
        lemma_avoids_file(v, dp, 0, root, m.dst.dir, m.dst.raw, dname, m.dst.dir);
    }
    let (sa, da) = parents_after(v, m);
    lemma_paths_over(v, committed(v, fin), m, src, dst, sa, da);
    lemma_path_steps(v, src);
}

} // verus!
