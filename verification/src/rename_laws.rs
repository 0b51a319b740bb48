//! Where paths lead once a name has been moved.
use crate::block_io::{block_at, lemma_with_block};
use crate::bgd::inode_place;
use crate::commit::committed;
use crate::content_laws::{lemma_same_place, record_block};
use crate::dir::{find_from, record_at, DirEntryType};
use crate::dirops::{
    component_end, dir_blocks, find_entry, find_entry_from, lemma_component_end, parent_and_base, resolve, stage_add_entry,
    stage_dotdot, stage_remove_from, walk_from, EXT4_ROOT_INODE, SLASH,
};
use crate::entry_laws::{
    good_dir, law_entered_name_is_found, law_removed_name_is_not_found, lemma_entered_elsewhere, lemma_entered_keeps,
    lemma_removed_elsewhere, named_once_each,
};
use crate::error::Error;
use crate::extent::header_of;
use crate::frame_laws::is_meta;
use crate::fs::{checked_inode, file_block, keeps_types};
use crate::growth_laws::lemma_tree_same;
use crate::inode::{block_area_of, flags_of, links_of, mode_is_dir, mode_of, FL_EXTENTS};
use crate::link_laws::{lemma_checked, lemma_relinked, relinked_record, slots_differ};
use crate::name_laws::{
    alike, dir_holds, is_new, lemma_alike_finds, lemma_dir_stands, lemma_dir_stands_on, lemma_edited_dir,
    lemma_moved_beside, lemma_moved_on, lemma_moved_record, lemma_path_steps, lemma_still, lemma_walk_from_file, moved, own_slot, quiet, slots_stand,
};
use crate::pwrite_laws::{lemma_block_for_found, levels};
use crate::reach_laws::{
    beside, dir_clear, in_slot, lemma_dir_beside, lemma_find_beside, lemma_record_beside, path_clear, slot_block, slots_apart,
};
use crate::remove_laws::{lemma_named_same, lemma_reaped};
use crate::rename::{
    changes_parent, dst_links, moved_type, passes, rename_intent, renamed, replaced_runs, src_links, stage_link_delta, stage_link_deltas,
    stage_move_rest, stage_replaced, Intent, Move,
};
use crate::tree_laws::{lemma_lookup_same, lemma_node_number, tree_node};
use crate::volume::{fresh_stage, Stage, Vol};
use vstd::prelude::*;

verus! {

/// A walk does not step from directory `dir` through `name`.
pub open spec fn avoids(v: Vol, path: Seq<u8>, at: int, d: u32, dir: u32, name: Seq<u8>) -> bool
    decreases path.len() - at via avoids_decreases
{
    if at < 0 || at >= path.len() {
        true
    } else if path[at] == SLASH {
        avoids(v, path, at + 1, d, dir, name)
    } else {
        let part = path.subrange(at, component_end(path, at));
        &&& !(d == dir && part == name)
        &&& checked_inode(v, d) matches Ok(raw) ==> (find_entry(v, d, raw, part) matches Ok(c) ==> avoids(
            v,
            path,
            component_end(path, at),
            c,
            dir,
            name,
        ))
    }
}

#[via_fn]
proof fn avoids_decreases(v: Vol, path: Seq<u8>, at: int, d: u32, dir: u32, name: Seq<u8>) {
    if 0 <= at < path.len() {
        lemma_component_end(path, at);
    }
}

/// A directory is still one, and every name in it that led somewhere leads
/// there still, but for `name` in `dir`.
pub open spec fn dir_kept(v: Vol, w: Vol, d: u32, dir: u32, name: Seq<u8>) -> bool {
    checked_inode(v, d) matches Ok(raw) ==> {
        &&& checked_inode(w, d) is Ok
        &&& mode_of(checked_inode(w, d)->Ok_0) == mode_of(raw)
        &&& forall|part: Seq<u8>|
            find_entry(v, d, raw, part) is Ok && !(d == dir && part == name) ==> #[trigger] find_entry(
                w,
                d,
                checked_inode(w, d)->Ok_0,
                part,
            ) == find_entry(v, d, raw, part)
    }
}

/// Where a path leads stays the same, though some directories were edited, if
/// it does not go through the name that is gone. If it does, it leads there or
/// nowhere.
proof fn lemma_walk_edited(
    v: Vol,
    w: Vol,
    safe: spec_fn(int) -> bool,
    slots: Seq<(int, int)>,
    buts: Seq<u32>,
    dir: u32,
    name: Seq<u8>,
    path: Seq<u8>,
    at: int,
    d: u32,
    r: u32,
)
    requires
        beside(v, w, safe, slots),
        0 <= at,
        path_clear(v, safe, slots, buts, path, at, d),
        forall|b: u32| #[trigger] buts.contains(b) ==> dir_kept(v, w, b, dir, name),
        buts.contains(dir),
        checked_inode(w, dir) matches Ok(raw) ==> find_entry(w, dir, raw, name) is Err,
        walk_from(v, path, at, d) == Ok::<u32, Error>(r),
    ensures
        avoids(v, path, at, d, dir, name) ==> walk_from(w, path, at, d) == Ok::<u32, Error>(r),
        walk_from(w, path, at, d) == Ok::<u32, Error>(r) || walk_from(w, path, at, d) is Err,
    decreases path.len() - at,
{
    if at < path.len() {
        if path[at] == SLASH {
            lemma_walk_edited(v, w, safe, slots, buts, dir, name, path, at + 1, d, r);
        } else {
            lemma_component_end(path, at);
            let raw = checked_inode(v, d)->Ok_0;
            let end = component_end(path, at);
            let part = path.subrange(at, end);
            let c = find_entry(v, d, raw, part)->Ok_0;
            if buts.contains(d) {
                assert(dir_kept(v, w, d, dir, name));
                if !(d == dir && part == name) {
                    assert(find_entry(w, d, checked_inode(w, d)->Ok_0, part) == find_entry(v, d, raw, part));
                }
            } else {
                lemma_record_beside(v, w, safe, safe, slots, d);
                lemma_dir_beside(v, w, safe, safe, slots, raw);
                lemma_find_beside(v, w, safe, slots, d, raw, part, 0);
            }
            lemma_walk_edited(v, w, safe, slots, buts, dir, name, path, end, c, r);
        }
    }
}

/// A directory whose tree's blocks did not change has its blocks where it had
/// them, and finding them reads the same blocks.
pub(crate) proof fn lemma_clear_again(v: Vol, x: Vol, safe: spec_fn(int) -> bool, raw: Seq<u8>)
    requires
        flags_of(raw) & FL_EXTENTS != 0,
        x.sb == v.sb,
        forall|k: int| #[trigger]
            tree_node(v.img, v.bs(), block_area_of(raw), levels(block_area_of(raw)), k) ==> block_at(x.img, v.bs(), k)
                == block_at(v.img, v.bs(), k),
        dir_clear(v, safe, raw),
    ensures
        dir_clear(x, safe, raw),
        forall|l: int| #[trigger] file_block(x, raw, l) == file_block(v, raw, l),
{
    let root = block_area_of(raw);
    let d = levels(root);
    lemma_tree_same(v.img, x.img, v.bs(), root, d);
    assert forall|l: int| #[trigger] file_block(x, raw, l) == file_block(v, raw, l) by {
        if header_of(root) is Ok {
            lemma_lookup_same(v.img, x.img, v.bs(), root, d, l, None);
        }
    }
    assert forall|k: int| #[trigger] tree_node(x.img, v.bs(), root, d, k) implies safe(k) by {
        assert(tree_node(v.img, v.bs(), root, d, k));
    }
    assert forall|l: int| 0 <= l < dir_blocks(x, raw) implies ((#[trigger] file_block(x, raw, l)) matches Ok(Some(q))
        ==> safe(q as int)) by {
        assert(file_block(x, raw, l) == file_block(v, raw, l));
    }
}

/// Two directories share no blocks, nor do their trees.
pub open spec fn dirs_apart(v: Vol, a: Seq<u8>, b: Seq<u8>) -> bool {
    &&& forall|k: int| #[trigger] dir_holds(v, a, k) ==> !dir_holds(v, b, k)
    &&& forall|k: int| #[trigger]
        tree_node(v.img, v.bs(), block_area_of(a), levels(block_area_of(a)), k) ==> !dir_holds(v, b, k)
    &&& forall|k: int| #[trigger]
        tree_node(v.img, v.bs(), block_area_of(b), levels(block_area_of(b)), k) ==> !dir_holds(v, a, k)
}

/// What entering one name and taking out another does to the two directories,
/// or the one, and to everything else.
pub open spec fn swapped(
    v: Vol,
    st: Stage,
    to: u32,
    traw: Seq<u8>,
    tname: Seq<u8>,
    target: u32,
    from: u32,
    fraw: Seq<u8>,
    fname: Seq<u8>,
) -> bool {
    let w = committed(v, st);
    &&& st.img.len() == v.img.len()
    &&& st.cleared == fresh_stage(v).cleared
    &&& find_entry(w, to, traw, tname) == Ok::<u32, Error>(target)
    &&& find_entry(w, from, fraw, fname) is Err
    &&& forall|part: Seq<u8>|
        part != fname && find_entry(v, from, fraw, part) is Ok ==> #[trigger] find_entry(w, from, fraw, part)
            == find_entry(v, from, fraw, part)
    &&& forall|part: Seq<u8>|
        !(to == from && part == fname) && find_entry(v, to, traw, part) is Ok ==> #[trigger] find_entry(
            w,
            to,
            traw,
            part,
        ) == find_entry(v, to, traw, part)
    &&& forall|k: int|
        k >= 0 && !dir_holds(v, traw, k) && !dir_holds(v, fraw, k) ==> #[trigger] block_at(w.img, v.bs(), k)
            == block_at(v.img, v.bs(), k)
}

/// Block `p` of a directory was edited, and no other.
pub open spec fn edited_at(v: Vol, a: Stage, b: Stage, raw: Seq<u8>, p: u64) -> bool {
    &&& b.img.len() == a.img.len()
    &&& b.cleared == a.cleared
    &&& dir_holds(v, raw, p as int)
    &&& forall|k: int| k >= 0 && k != p ==> #[trigger] block_at(b.img, v.bs(), k) == block_at(a.img, v.bs(), k)
}

/// One directory, two names.
proof fn lemma_swapped_within(
    v: Vol,
    dir: u32,
    raw: Seq<u8>,
    tname: Seq<u8>,
    target: u32,
    ft: DirEntryType,
    fname: Seq<u8>,
)
    requires
        v.wf(),
        good_dir(v, raw),
        named_once_each(v, raw, fname),
        tname.len() <= 255,
        target != 0,
        tname != fname,
        find_entry(v, dir, raw, tname) == Err::<u32, Error>(Error::NotFound),
        find_entry(v, dir, raw, fname) is Ok,
        stage_add_entry(v, fresh_stage(v), dir, raw, tname, target, ft) is Ok,
        stage_remove_from(
            v,
            stage_add_entry(v, fresh_stage(v), dir, raw, tname, target, ft)->Ok_0,
            dir,
            raw,
            fname,
            0,
        ) is Ok,
    ensures
        ({
            let st1 = stage_add_entry(v, fresh_stage(v), dir, raw, tname, target, ft)->Ok_0;
            let st2 = stage_remove_from(v, st1, dir, raw, fname, 0)->Ok_0;
            swapped(v, st2, dir, raw, tname, target, dir, raw, fname)
        }),
{
    let start = fresh_stage(v);
    assert(committed(v, start) == v);
    let st1 = stage_add_entry(v, start, dir, raw, tname, target, ft)->Ok_0;
    let w1 = committed(v, st1);
    let m = lemma_entered_elsewhere(v, start, dir, raw, tname, target, ft);
    let p = file_block(v, raw, m)->Ok_0->Some_0;
    assert(file_block(v, raw, m) == Ok::<Option<u64>, Error>(Some(p as int as u64)));
    lemma_entered_keeps(v, start, dir, raw, tname, target, ft, fname);
    law_entered_name_is_found(v, start, dir, raw, tname, target, ft, fname);
    let st2 = stage_remove_from(v, st1, dir, raw, fname, 0)->Ok_0;
    let w = committed(v, st2);
    let n = lemma_removed_elsewhere(v, st1, dir, raw, fname);
    let q = file_block(v, raw, n)->Ok_0->Some_0;
    assert(file_block(v, raw, n) == Ok::<Option<u64>, Error>(Some(q as int as u64)));
    assert(dir_holds(v, raw, p as int) && dir_holds(v, raw, q as int));
    law_removed_name_is_not_found(v, st1, dir, raw, fname, tname);
    law_removed_name_is_not_found(v, st1, dir, raw, fname, fname);
    assert forall|part: Seq<u8>| part != fname && find_entry(v, dir, raw, part) is Ok implies #[trigger] find_entry(
        w,
        dir,
        raw,
        part,
    ) == find_entry(v, dir, raw, part) by {
        law_entered_name_is_found(v, start, dir, raw, tname, target, ft, part);
        law_removed_name_is_not_found(v, st1, dir, raw, fname, part);
    }
    assert forall|k: int| k >= 0 && !dir_holds(v, raw, k) && !dir_holds(v, raw, k) implies #[trigger] block_at(
        w.img,
        v.bs(),
        k,
    ) == block_at(v.img, v.bs(), k) by {
        assert(block_at(st2.img, v.bs(), k) == block_at(st1.img, v.bs(), k));
        assert(block_at(st1.img, v.bs(), k) == block_at(start.img, v.bs(), k));
    }
}

/// A block that is edited is, for another directory, as good as new.
pub(crate) proof fn lemma_quiet_beside(v: Vol, safe: spec_fn(int) -> bool, raw: Seq<u8>, other: Seq<u8>, p: u64)
    requires
        good_dir(v, raw),
        forall|k: int| #[trigger] safe(k) ==> k >= 0 && !is_meta(v, k),
        dir_clear(v, safe, raw),
        dirs_apart(v, raw, other),
        dir_holds(v, other, p as int),
    ensures
        dir_clear(v, quiet(v, Seq::empty(), seq![p]), raw),
{
    let next = quiet(v, Seq::empty(), seq![p]);
    let root = block_area_of(raw);
    assert forall|k: int| safe(k) && k != p implies #[trigger] next(k) by {
        if is_new(seq![p], k) {
            let i = choose|i: int| 0 <= i < seq![p].len() && #[trigger] seq![p][i] == k;
        }
    }
    assert forall|k: int| #[trigger] tree_node(v.img, v.bs(), root, levels(root), k) implies next(k) by {
        assert(safe(k));
    }
    assert forall|l: int| 0 <= l < dir_blocks(v, raw) implies ((#[trigger] file_block(v, raw, l)) matches Ok(Some(q))
        ==> next(q as int)) by {
        if let Ok(Some(q)) = file_block(v, raw, l) {
            assert(file_block(v, raw, l) == Ok::<Option<u64>, Error>(Some(q as int as u64)));
            assert(dir_holds(v, raw, q as int));
            assert(safe(q as int));
        }
    }
}

/// An edit of one block moves nothing else.
pub(crate) proof fn lemma_edit_moved(v: Vol, a: Stage, b: Stage, raw: Seq<u8>, p: u64)
    requires
        edited_at(v, a, b, raw, p),
    ensures
        moved(v, a, b, Seq::empty(), seq![p]),
{
    assert forall|k: int| k >= 0 && !is_new(seq![p], k) implies #[trigger] block_at(b.img, v.bs(), k) == block_at(
        a.img,
        v.bs(),
        k,
    ) by {
        assert(seq![p][0] == p);
        assert(k != p);
    }
}

/// Two directories, a name in each.
#[verifier::rlimit(40)]
proof fn lemma_swapped_across(
    v: Vol,
    safe: spec_fn(int) -> bool,
    to: u32,
    traw: Seq<u8>,
    tname: Seq<u8>,
    target: u32,
    ft: DirEntryType,
    from: u32,
    fraw: Seq<u8>,
    fname: Seq<u8>,
)
    requires
        v.wf(),
        to != from,
        good_dir(v, traw),
        good_dir(v, fraw),
        forall|k: int| #[trigger] safe(k) ==> k >= 0 && !is_meta(v, k),
        dir_clear(v, safe, traw),
        dir_clear(v, safe, fraw),
        dirs_apart(v, traw, fraw),
        named_once_each(v, fraw, fname),
        tname.len() <= 255,
        target != 0,
        find_entry(v, to, traw, tname) == Err::<u32, Error>(Error::NotFound),
        find_entry(v, from, fraw, fname) is Ok,
        stage_add_entry(v, fresh_stage(v), to, traw, tname, target, ft) is Ok,
        stage_remove_from(
            v,
            stage_add_entry(v, fresh_stage(v), to, traw, tname, target, ft)->Ok_0,
            from,
            fraw,
            fname,
            0,
        ) is Ok,
    ensures
        ({
            let st1 = stage_add_entry(v, fresh_stage(v), to, traw, tname, target, ft)->Ok_0;
            let st2 = stage_remove_from(v, st1, from, fraw, fname, 0)->Ok_0;
            swapped(v, st2, to, traw, tname, target, from, fraw, fname)
        }),
{
    let start = fresh_stage(v);
    let none = Seq::<(int, int)>::empty();
    assert(committed(v, start) == v);
    let st1 = stage_add_entry(v, start, to, traw, tname, target, ft)->Ok_0;
    let w1 = committed(v, st1);
    let m = lemma_entered_elsewhere(v, start, to, traw, tname, target, ft);
    let p = file_block(v, traw, m)->Ok_0->Some_0;
    assert(file_block(v, traw, m) == Ok::<Option<u64>, Error>(Some(p as int as u64)));
    assert(dir_holds(v, traw, p as int));
    lemma_edit_moved(v, start, st1, traw, p);
    assert(dirs_apart(v, fraw, traw)) by {
        assert forall|k: int| #[trigger] dir_holds(v, fraw, k) implies !dir_holds(v, traw, k) by {
            if dir_holds(v, traw, k) {
                assert(!dir_holds(v, fraw, k));
            }
        }
    }
    lemma_quiet_beside(v, safe, fraw, traw, p);
    lemma_dir_stands(v, start, st1, none, seq![p], from, fraw);
    lemma_named_same(v, start, st1, none, seq![p], fraw, fname);
    let st2 = stage_remove_from(v, st1, from, fraw, fname, 0)->Ok_0;
    let w = committed(v, st2);
    let n = lemma_removed_elsewhere(v, st1, from, fraw, fname);
    let q = file_block(v, fraw, n)->Ok_0->Some_0;
    assert(file_block(v, fraw, n) == Ok::<Option<u64>, Error>(Some(q as int as u64)));
    assert(dir_holds(v, fraw, q as int));
    lemma_edit_moved(v, st1, st2, fraw, q);
    lemma_quiet_beside(v, safe, traw, fraw, q);
    lemma_still(v, start, none, seq![q]);
    lemma_edited_dir(v, start, st1, none, seq![q], traw, m, p);
    lemma_dir_stands_on(v, st1, st2, none, seq![q], to, traw);
    law_entered_name_is_found(v, start, to, traw, tname, target, ft, tname);
    assert(find_entry(w, to, traw, tname) == find_entry(w1, to, traw, tname));
    assert(find_entry(w1, from, fraw, fname) == find_entry(v, from, fraw, fname));
    law_removed_name_is_not_found(v, st1, from, fraw, fname, fname);
    assert forall|part: Seq<u8>| part != fname && find_entry(v, from, fraw, part) is Ok implies #[trigger] find_entry(
        w,
        from,
        fraw,
        part,
    ) == find_entry(v, from, fraw, part) by {
        assert(find_entry(w1, from, fraw, part) == find_entry(v, from, fraw, part));
        law_removed_name_is_not_found(v, st1, from, fraw, fname, part);
    }
    assert forall|part: Seq<u8>|
        !(to == from && part == fname) && find_entry(v, to, traw, part) is Ok implies #[trigger] find_entry(
        w,
        to,
        traw,
        part,
    ) == find_entry(v, to, traw, part) by {
        law_entered_name_is_found(v, start, to, traw, tname, target, ft, part);
        assert(find_entry(w, to, traw, part) == find_entry(w1, to, traw, part));
    }
    assert forall|k: int| k >= 0 && !dir_holds(v, traw, k) && !dir_holds(v, fraw, k) implies #[trigger] block_at(
        w.img,
        v.bs(),
        k,
    ) == block_at(v.img, v.bs(), k) by {
        assert(block_at(st2.img, v.bs(), k) == block_at(st1.img, v.bs(), k));
        assert(block_at(st1.img, v.bs(), k) == block_at(start.img, v.bs(), k));
    }
}

/// A name that is found leads to an inode.
proof fn lemma_found_is_inode(b: Seq<u8>, at: int, name: Seq<u8>, has_ft: bool)
    ensures
        find_from(b, at, name, has_ft) matches Ok(Some(c)) ==> c != 0,
    decreases b.len() - at,
{
    if at < b.len() && record_at(b, at, b.len() as int, has_ft) is Ok {
        lemma_found_is_inode(b, at + record_at(b, at, b.len() as int, has_ft)->Ok_0.rec_len, name, has_ft);
    }
}

proof fn lemma_entry_is_inode(v: Vol, d: u32, raw: Seq<u8>, name: Seq<u8>, l: int)
    ensures
        find_entry_from(v, d, raw, name, l) matches Ok(c) ==> c != 0,
    decreases dir_blocks(v, raw) - l,
{
    if l < dir_blocks(v, raw) {
        if let Ok(Some(p)) = file_block(v, raw, l) {
            if let Ok(b) = v.block(p as int) {
                lemma_found_is_inode(b, 0, name, keeps_types(v));
            }
        }
        lemma_entry_is_inode(v, d, raw, name, l + 1);
    }
}

/// A walk that ends in a directory does not go through a name that leads to
/// something else.
pub(crate) proof fn lemma_avoids_file(v: Vol, path: Seq<u8>, at: int, d: u32, dir: u32, raw: Seq<u8>, name: Seq<u8>, r: u32)
    requires
        0 <= at,
        checked_inode(v, dir) == Ok::<Seq<u8>, Error>(raw),
        find_entry(v, dir, raw, name) is Ok,
        checked_inode(v, find_entry(v, dir, raw, name)->Ok_0) is Ok,
        !mode_is_dir(mode_of(checked_inode(v, find_entry(v, dir, raw, name)->Ok_0)->Ok_0)),
        checked_inode(v, r) is Ok,
        mode_is_dir(mode_of(checked_inode(v, r)->Ok_0)),
        walk_from(v, path, at, d) == Ok::<u32, Error>(r),
    ensures
        avoids(v, path, at, d, dir, name),
    decreases path.len() - at,
{
    if at < path.len() {
        if path[at] == SLASH {
            lemma_avoids_file(v, path, at + 1, d, dir, raw, name, r);
        } else {
            lemma_component_end(path, at);
            let end = component_end(path, at);
            let part = path.subrange(at, end);
            let c = find_entry(v, d, checked_inode(v, d)->Ok_0, part)->Ok_0;
            if d == dir && part == name {
                lemma_walk_from_file(v, path, end, c);
            } else {
                lemma_avoids_file(v, path, end, c, dir, raw, name, r);
            }
        }
    }
}

/// The block that a moved directory keeps its parent in, if it changes.
pub open spec fn parent_block(v: Vol, m: Move) -> Seq<u64> {
    if changes_parent(m) {
        seq![file_block(v, m.raw, 0)->Ok_0->Some_0]
    } else {
        Seq::empty()
    }
}

/// The records that a move may change: those of its two directories, and of
/// what it replaces.
pub open spec fn parent_slots(v: Vol, m: Move) -> Seq<(int, int)> {
    let both = seq![own_slot(v, m.src.dir), own_slot(v, m.dst.dir)];
    match m.replaced {
        Some((old, _)) => both.push(own_slot(v, old)),
        None => both,
    }
}

/// The blocks that a move leaves alone.
pub open spec fn unmoved(v: Vol, m: Move, new: Seq<u64>) -> spec_fn(int) -> bool {
    |k: int|
        k >= 0 && !is_meta(v, k) && !slot_block(parent_slots(v, m), k) && !is_new(new, k) && !dir_holds(v, m.src.raw, k)
            && !dir_holds(v, m.dst.raw, k)
}

/// Both directories of a move are in good order and share nothing with each
/// other or with what else the move changes, of which `new` is the moved
/// directory's own block.
#[verifier::opaque]
pub open spec fn ends_apart(v: Vol, m: Move, new: Seq<u64>) -> bool {
    let slots = parent_slots(v, m);
    let size = v.sb.inode_size as int;
    &&& v.wf()
    &&& slots_stand(v, slots, new)
    &&& forall|k: int| #[trigger]
        slot_block(slots, k) ==> !dir_holds(v, m.src.raw, k) && !dir_holds(v, m.dst.raw, k)
    &&& m.src.dir != m.dst.dir ==> {
        &&& dirs_apart(v, m.dst.raw, m.src.raw)
        &&& slots_differ(own_slot(v, m.src.dir), own_slot(v, m.dst.dir), size)
    }
    &&& m.replaced matches Some((old, _)) ==> {
        &&& slots_differ(own_slot(v, old), own_slot(v, m.src.dir), size)
        &&& slots_differ(own_slot(v, old), own_slot(v, m.dst.dir), size)
    }
    &&& good_dir(v, m.src.raw)
    &&& good_dir(v, m.dst.raw)
    &&& dir_clear(v, quiet(v, slots, new), m.src.raw)
    &&& dir_clear(v, quiet(v, slots, new), m.dst.raw)
    &&& named_once_each(v, m.src.raw, m.src.name)
}

/// The ways to both directories of a move are clear.
#[verifier::opaque]
pub open spec fn ways_clear(v: Vol, m: Move, from: Seq<u8>, to: Seq<u8>) -> bool {
    let slots = parent_slots(v, m);
    let safe = unmoved(v, m, parent_block(v, m));
    let buts = seq![m.src.dir, m.dst.dir];
    &&& path_clear(v, safe, slots, buts, from, 0, EXT4_ROOT_INODE)
    &&& path_clear(v, safe, slots, buts, to, 0, EXT4_ROOT_INODE)
}

/// Both directories of a move are in good order, and so are the ways to them.
pub open spec fn way_across(v: Vol, m: Move, from: Seq<u8>, to: Seq<u8>) -> bool {
    ends_apart(v, m, parent_block(v, m)) && ways_clear(v, m, from, to)
}

/// The records that a move changes lie apart from all else.
pub(crate) proof fn lemma_across_slots(v: Vol, m: Move, new: Seq<u64>)
    requires
        ends_apart(v, m, new),
    ensures
        v.wf(),
        slots_stand(v, parent_slots(v, m), new),
        forall|k: int| #[trigger]
            slot_block(parent_slots(v, m), k) ==> !dir_holds(v, m.src.raw, k) && !dir_holds(v, m.dst.raw, k),
        m.src.dir != m.dst.dir ==> slots_differ(
            own_slot(v, m.src.dir),
            own_slot(v, m.dst.dir),
            v.sb.inode_size as int,
        ),
        m.replaced matches Some((old, _)) ==> {
            &&& slots_differ(own_slot(v, old), own_slot(v, m.src.dir), v.sb.inode_size as int)
            &&& slots_differ(own_slot(v, old), own_slot(v, m.dst.dir), v.sb.inode_size as int)
        },
{
    reveal(ends_apart);
}

/// What a stage is after the two entries were edited.
pub(crate) proof fn lemma_swapped(v: Vol, m: Move, new: Seq<u64>)
    requires
        ends_apart(v, m, new),
        m.dst.name.len() <= 255,
        m.src.dir == m.dst.dir ==> m.src.raw == m.dst.raw,
        find_entry(v, m.src.dir, m.src.raw, m.src.name) == Ok::<u32, Error>(m.ino),
        find_entry(v, m.dst.dir, m.dst.raw, m.dst.name) == Err::<u32, Error>(Error::NotFound),
        ({
            let ft = moved_type(mode_of(m.raw));
            let st1 = stage_add_entry(v, fresh_stage(v), m.dst.dir, m.dst.raw, m.dst.name, m.ino, ft);
            &&& st1 is Ok
            &&& stage_remove_from(v, st1->Ok_0, m.src.dir, m.src.raw, m.src.name, 0) is Ok
        }),
    ensures
        ({
            let ft = moved_type(mode_of(m.raw));
            let st1 = stage_add_entry(v, fresh_stage(v), m.dst.dir, m.dst.raw, m.dst.name, m.ino, ft)->Ok_0;
            let st2 = stage_remove_from(v, st1, m.src.dir, m.src.raw, m.src.name, 0)->Ok_0;
            swapped(v, st2, m.dst.dir, m.dst.raw, m.dst.name, m.ino, m.src.dir, m.src.raw, m.src.name)
        }),
{
    reveal(ends_apart);
    lemma_entry_is_inode(v, m.src.dir, m.src.raw, m.src.name, 0);
    let ft = moved_type(mode_of(m.raw));
    if m.src.dir == m.dst.dir {
        lemma_swapped_within(v, m.dst.dir, m.dst.raw, m.dst.name, m.ino, ft, m.src.name);
    } else {
        lemma_swapped_across(
            v,
            quiet(v, parent_slots(v, m), new),
            m.dst.dir,
            m.dst.raw,
            m.dst.name,
            m.ino,
            ft,
            m.src.dir,
            m.src.raw,
            m.src.name,
        );
    }
}

/// Both directories, and all that a move leaves alone, once records and the
/// moved directory's own block have followed.
#[verifier::rlimit(40)]
proof fn lemma_followed(v: Vol, m: Move, new: Seq<u64>, st: Stage, fin: Stage)
    requires
        ends_apart(v, m, new),
        m.src.dir == m.dst.dir ==> m.src.raw == m.dst.raw,
        swapped(v, st, m.dst.dir, m.dst.raw, m.dst.name, m.ino, m.src.dir, m.src.raw, m.src.name),
        moved(v, st, fin, parent_slots(v, m), new),
    ensures
        beside(v, committed(v, fin), unmoved(v, m, new), parent_slots(v, m)),
        forall|part: Seq<u8>| #[trigger]
            find_entry(committed(v, fin), m.src.dir, m.src.raw, part) == find_entry(
                committed(v, st),
                m.src.dir,
                m.src.raw,
                part,
            ),
        forall|part: Seq<u8>| #[trigger]
            find_entry(committed(v, fin), m.dst.dir, m.dst.raw, part) == find_entry(
                committed(v, st),
                m.dst.dir,
                m.dst.raw,
                part,
            ),
{
    reveal(ends_apart);
    let slots = parent_slots(v, m);
    let safe = unmoved(v, m, new);
    let x = committed(v, st);
    let w = committed(v, fin);
    let size = v.sb.inode_size as int;
    lemma_nodes_apart(v, m.src.raw, m.dst.raw, m.src.dir == m.dst.dir);
    lemma_nodes_apart(v, m.dst.raw, m.src.raw, m.src.dir == m.dst.dir);
    lemma_clear_again(v, x, quiet(v, slots, new), m.src.raw);
    lemma_clear_again(v, x, quiet(v, slots, new), m.dst.raw);
    lemma_dir_stands_on(v, st, fin, slots, new, m.src.dir, m.src.raw);
    lemma_dir_stands_on(v, st, fin, slots, new, m.dst.dir, m.dst.raw);
    assert forall|d: u32| #[trigger] inode_place(w.sb, w.groups, d) == inode_place(v.sb, v.groups, d) by {
        lemma_same_place(v, fin, d);
    }
    assert forall|k: int| #[trigger] safe(k) implies block_at(w.img, v.bs(), k) == block_at(v.img, v.bs(), k) by {
        assert(block_at(fin.img, v.bs(), k) == block_at(st.img, v.bs(), k));
        assert(block_at(x.img, v.bs(), k) == block_at(v.img, v.bs(), k));
    }
    assert forall|k: int| #[trigger] slot_block(slots, k) implies slots_apart(v.img, w.img, v.bs(), slots, size, k) by {
        assert(block_at(x.img, v.bs(), k) == block_at(v.img, v.bs(), k));
        assert(slots_apart(st.img, fin.img, v.bs(), slots, size, k));
    }
}

/// No node of a directory's tree is a block of it, or of the other directory.
pub(crate) proof fn lemma_nodes_apart(v: Vol, a: Seq<u8>, b: Seq<u8>, same: bool)
    requires
        good_dir(v, a),
        same ==> a == b,
        !same ==> dirs_apart(v, a, b) || dirs_apart(v, b, a),
    ensures
        forall|k: int| #[trigger]
            tree_node(v.img, v.bs(), block_area_of(a), levels(block_area_of(a)), k) ==> k >= 0 && !dir_holds(v, a, k)
                && !dir_holds(v, b, k),
{
    let root = block_area_of(a);
    assert forall|k: int| #[trigger] tree_node(v.img, v.bs(), root, levels(root), k) implies k >= 0 && !dir_holds(v, a, k)
        && !dir_holds(v, b, k) by {
        lemma_node_number(v.img, v.bs(), root, levels(root), k);
        if dir_holds(v, a, k) {
            let l = choose|l: int|
                0 <= l < dir_blocks(v, a) && (#[trigger] file_block(v, a, l)) == Ok::<Option<u64>, Error>(
                    Some(k as u64),
                ) && k <= u64::MAX;
            lemma_block_for_found(v.img, v.bs(), root, l);
        }
    }
}

/// A moved directory's own block follows.
proof fn lemma_dotdot_moved(v: Vol, m: Move, st: Stage, slots: Seq<(int, int)>)
    requires
        v.wf(),
        changes_parent(m),
        slots_stand(v, slots, parent_block(v, m)),
        stage_dotdot(v, st, m.ino, m.raw, m.dst.dir) is Ok,
    ensures
        moved(v, st, stage_dotdot(v, st, m.ino, m.raw, m.dst.dir)->Ok_0, slots, parent_block(v, m)),
{
    broadcast use crate::bytes::group_fields;

    let new = parent_block(v, m);
    let p = file_block(v, m.raw, 0)->Ok_0->Some_0;
    let b = block_at(st.img, v.bs(), p as int)->Ok_0;
    let after = stage_dotdot(v, st, m.ino, m.raw, m.dst.dir)->Ok_0;
    assert(new[0] == p);
    assert(is_new(new, p as int));
    let out = block_at(after.img, v.bs(), p as int);
    let put = if flags_of(m.raw) & crate::inode::FL_INDEX != 0 {
        if v.csum.enabled {
            crate::checksum::dx_stamped(
                v.csum.seed,
                m.ino,
                crate::inode::generation_of(m.raw),
                crate::bytes::put32(b, 12, m.dst.dir),
                32,
            )
        } else {
            crate::bytes::put32(b, 12, m.dst.dir)
        }
    } else {
        crate::dirops::dir_restamped(
            v,
            m.ino,
            m.raw,
            crate::dirops::tail_of(v, crate::bytes::put32(b, 12, m.dst.dir)),
            crate::bytes::put32(b, 12, m.dst.dir),
        )
    };
    assert(put.len() == v.bs());
    lemma_with_block(st.img, v.bs(), p as int, put, 0);
    assert forall|k: int| k >= 0 && k != p implies #[trigger] block_at(after.img, v.bs(), k) == block_at(
        st.img,
        v.bs(),
        k,
    ) by {
        lemma_with_block(st.img, v.bs(), p as int, put, k);
    }
}

/// A record that lies apart from those that change stays.
proof fn lemma_record_through(v: Vol, a: Stage, b: Stage, slots: Seq<(int, int)>, new: Seq<u64>, d: u32)
    requires
        v.wf(),
        moved(v, a, b, slots, new),
        !is_meta(v, record_block(v, d)),
        !is_new(new, record_block(v, d)),
        record_block(v, d) >= 0,
        forall|i: int| 0 <= i < slots.len() ==> slots_differ(#[trigger] slots[i], own_slot(v, d), v.sb.inode_size as int),
    ensures
        checked_inode(committed(v, b), d) == checked_inode(committed(v, a), d),
{
    let u = committed(v, a);
    let w = committed(v, b);
    let safe = quiet(v, slots, new);
    lemma_moved_beside(v, a, b, slots, new);
    lemma_same_place(v, a, d);
    if let Ok((k, off)) = inode_place(v.sb, v.groups, d) {
        if slot_block(slots, k as int) {
            assert forall|j: int| off <= j < off + v.sb.inode_size implies !(#[trigger] in_slot(
                slots,
                v.sb.inode_size as int,
                k as int,
                j,
            )) by {
                if in_slot(slots, v.sb.inode_size as int, k as int, j) {
                    let i = choose|i: int|
                        0 <= i < slots.len() && (#[trigger] slots[i]).0 == k && slots[i].1 <= j < slots[i].1
                            + v.sb.inode_size;
                    assert(slots_differ(slots[i], own_slot(v, d), v.sb.inode_size as int));
                }
            }
        }
    }
    lemma_record_beside(u, w, safe, safe, slots, d);
}

/// A directory's record with its link count moved by `delta`; a count that
/// stays is not written.
pub open spec fn counted(v: Vol, d: u32, raw: Seq<u8>, delta: int) -> Seq<u8> {
    if delta == 0 {
        raw
    } else {
        relinked_record(v, d, raw, delta)
    }
}

/// One directory's link count follows.
proof fn lemma_count_moved(v: Vol, st: Stage, fin: Stage, d: u32, raw: Seq<u8>, delta: int, slots: Seq<(int, int)>, new: Seq<
    u64,
>, i: int)
    requires
        v.wf(),
        0 <= i < slots.len(),
        slots[i] == own_slot(v, d),
        checked_inode(v, d) == Ok::<Seq<u8>, Error>(raw),
        checked_inode(committed(v, st), d) == Ok::<Seq<u8>, Error>(raw),
        stage_link_delta(v, st, d, delta) == Ok::<Stage, Error>(fin),
    ensures
        moved(v, st, fin, slots, new),
        checked_inode(committed(v, fin), d) == Ok::<Seq<u8>, Error>(counted(v, d, raw, delta)),
        alike(raw, counted(v, d, raw, delta)),
        alike(raw, raw),
{
    let rec = relinked_record(v, d, raw, delta);
    lemma_relinked(v, d, raw, delta);
    if delta == 0 {
        lemma_still(v, st, slots, new);
    } else {
        lemma_moved_record(v, st, d, rec, slots, new, i);
        lemma_checked(v, committed(v, fin), d, raw, rec);
    }
}

/// Both directories' records, once a move is done: the same, but for the links
/// that came and went with directories.
pub open spec fn parents_after(v: Vol, m: Move) -> (Seq<u8>, Seq<u8>) {
    if m.src.dir == m.dst.dir {
        let rec = counted(v, m.src.dir, m.src.raw, src_links(m) + dst_links(m));
        (rec, rec)
    } else {
        (counted(v, m.src.dir, m.src.raw, src_links(m)), counted(v, m.dst.dir, m.dst.raw, dst_links(m)))
    }
}

/// The link counts of both directories follow.
#[verifier::rlimit(40)]
proof fn lemma_links_moved(v: Vol, m: Move, new: Seq<u64>, st: Stage, fin: Stage)
    requires
        ends_apart(v, m, new),
        m.src.dir == m.dst.dir ==> m.src.raw == m.dst.raw,
        checked_inode(v, m.src.dir) == Ok::<Seq<u8>, Error>(m.src.raw),
        checked_inode(v, m.dst.dir) == Ok::<Seq<u8>, Error>(m.dst.raw),
        checked_inode(committed(v, st), m.src.dir) == Ok::<Seq<u8>, Error>(m.src.raw),
        checked_inode(committed(v, st), m.dst.dir) == Ok::<Seq<u8>, Error>(m.dst.raw),
        stage_link_deltas(v, st, m.src.dir, src_links(m), m.dst.dir, dst_links(m)) == Ok::<Stage, Error>(fin),
    ensures
        moved(v, st, fin, parent_slots(v, m), new),
        checked_inode(committed(v, fin), m.src.dir) == Ok::<Seq<u8>, Error>(parents_after(v, m).0),
        checked_inode(committed(v, fin), m.dst.dir) == Ok::<Seq<u8>, Error>(parents_after(v, m).1),
        alike(m.src.raw, parents_after(v, m).0),
        alike(m.dst.raw, parents_after(v, m).1),
        m.replaced matches Some((old, _)) ==> checked_inode(committed(v, fin), old) == checked_inode(
            committed(v, st),
            old,
        ),
{
    let slots = parent_slots(v, m);
    let (a, b) = (m.src.dir, m.dst.dir);
    let (da, db) = (src_links(m), dst_links(m));
    lemma_across_slots(v, m, new);
    assert(slots[0] == own_slot(v, a) && slots[1] == own_slot(v, b));
    assert(slot_block(slots, slots[0].0) && slot_block(slots, slots[1].0));
    let only_a = seq![own_slot(v, a)];
    let only_b = seq![own_slot(v, b)];
    if a == b {
        lemma_count_moved(v, st, fin, a, m.src.raw, da + db, slots, new, 0);
        if let Some((old, _)) = m.replaced {
            lemma_count_moved(v, st, fin, a, m.src.raw, da + db, only_a, new, 0);
            assert(slots[2] == own_slot(v, old));
            assert(slot_block(slots, slots[2].0));
            lemma_record_through(v, st, fin, only_a, new, old);
        }
    } else if a < b {
        let mid = stage_link_delta(v, st, a, da)->Ok_0;
        lemma_count_moved(v, st, mid, a, m.src.raw, da, slots, new, 0);
        lemma_count_moved(v, st, mid, a, m.src.raw, da, only_a, new, 0);
        lemma_record_through(v, st, mid, only_a, new, b);
        lemma_count_moved(v, mid, fin, b, m.dst.raw, db, slots, new, 1);
        lemma_count_moved(v, mid, fin, b, m.dst.raw, db, only_b, new, 0);
        lemma_record_through(v, mid, fin, only_b, new, a);
        lemma_moved_on(v, st, mid, fin, slots, new);
        if let Some((old, _)) = m.replaced {
            assert(slots[2] == own_slot(v, old));
            assert(slot_block(slots, slots[2].0));
            lemma_record_through(v, st, mid, only_a, new, old);
            lemma_record_through(v, mid, fin, only_b, new, old);
        }
    } else {
        let mid = stage_link_delta(v, st, b, db)->Ok_0;
        lemma_count_moved(v, st, mid, b, m.dst.raw, db, slots, new, 1);
        lemma_count_moved(v, st, mid, b, m.dst.raw, db, only_b, new, 0);
        lemma_record_through(v, st, mid, only_b, new, a);
        lemma_count_moved(v, mid, fin, a, m.src.raw, da, slots, new, 0);
        lemma_count_moved(v, mid, fin, a, m.src.raw, da, only_a, new, 0);
        lemma_record_through(v, mid, fin, only_a, new, b);
        lemma_moved_on(v, st, mid, fin, slots, new);
        if let Some((old, _)) = m.replaced {
            assert(slots[2] == own_slot(v, old));
            assert(slot_block(slots, slots[2].0));
            lemma_record_through(v, st, mid, only_b, new, old);
            lemma_record_through(v, mid, fin, only_a, new, old);
        }
    }
}

/// What was replaced loses its link, or goes.
proof fn lemma_replaced_moved(
    v: Vol,
    st: Stage,
    fin: Stage,
    old: u32,
    oraw: Seq<u8>,
    now: u32,
    slots: Seq<(int, int)>,
    new: Seq<u64>,
    i: int,
)
    requires
        v.wf(),
        0 <= i < slots.len(),
        slots[i] == own_slot(v, old),
        slots_stand(v, slots, new),
        checked_inode(v, old) == Ok::<Seq<u8>, Error>(oraw),
        stage_replaced(v, st, old, oraw, now) == Ok::<Stage, Error>(fin),
    ensures
        moved(v, st, fin, slots, new),
        links_of(oraw) > 1 && !mode_is_dir(mode_of(oraw)) ==> checked_inode(committed(v, fin), old) == Ok::<
            Seq<u8>,
            Error,
        >(relinked_record(v, old, oraw, -1)),
{
    let dir = mode_is_dir(mode_of(oraw));
    if links_of(oraw) > 1 && !dir {
        lemma_relinked(v, old, oraw, -1);
        lemma_moved_record(v, st, old, relinked_record(v, old, oraw, -1), slots, new, i);
        lemma_checked(v, committed(v, fin), old, oraw, relinked_record(v, old, oraw, -1));
    } else {
        lemma_reaped(v, st, old, oraw, replaced_runs(v, oraw)->Ok_0, dir, now, slots, new, i);
    }
}

/// The rest of a move, once both entries are edited.
#[verifier::rlimit(40)]
pub(crate) proof fn lemma_rest_moved(v: Vol, m: Move, st1: Stage, st: Stage, fin: Stage, now: u32)
    requires
        ends_apart(v, m, parent_block(v, m)),
        m.src.dir == m.dst.dir ==> m.src.raw == m.dst.raw,
        m.replaced matches Some((old, oraw)) ==> checked_inode(v, old) == Ok::<Seq<u8>, Error>(oraw),
        checked_inode(v, m.src.dir) == Ok::<Seq<u8>, Error>(m.src.raw),
        checked_inode(v, m.dst.dir) == Ok::<Seq<u8>, Error>(m.dst.raw),
        checked_inode(committed(v, st), m.src.dir) == Ok::<Seq<u8>, Error>(m.src.raw),
        checked_inode(committed(v, st), m.dst.dir) == Ok::<Seq<u8>, Error>(m.dst.raw),
        stage_remove_from(v, st1, m.src.dir, m.src.raw, m.src.name, 0) == Ok::<Stage, Error>(st),
        stage_move_rest(v, st1, m, now) == Ok::<Stage, Error>(fin),
    ensures
        moved(v, st, fin, parent_slots(v, m), parent_block(v, m)),
        checked_inode(committed(v, fin), m.src.dir) == Ok::<Seq<u8>, Error>(parents_after(v, m).0),
        checked_inode(committed(v, fin), m.dst.dir) == Ok::<Seq<u8>, Error>(parents_after(v, m).1),
        alike(m.src.raw, parents_after(v, m).0),
        alike(m.dst.raw, parents_after(v, m).1),
        m.replaced matches Some((old, oraw)) ==> (links_of(oraw) > 1 && !mode_is_dir(mode_of(oraw)) ==> checked_inode(
            committed(v, fin),
            old,
        ) == Ok::<Seq<u8>, Error>(relinked_record(v, old, oraw, -1))),
{
    let slots = parent_slots(v, m);
    let new = parent_block(v, m);
    lemma_across_slots(v, m, new);
    let st2 = if changes_parent(m) {
        stage_dotdot(v, st, m.ino, m.raw, m.dst.dir)->Ok_0
    } else {
        st
    };
    let st3 = match m.replaced {
        Some((old, oraw)) => stage_replaced(v, st2, old, oraw, now)->Ok_0,
        None => st2,
    };
    assert(stage_link_deltas(v, st3, m.src.dir, src_links(m), m.dst.dir, dst_links(m)) == Ok::<Stage, Error>(fin));
    lemma_middle_moved(v, m, st, st2, st3, now);
    lemma_links_moved(v, m, new, st3, fin);
    lemma_moved_on(v, st, st3, fin, slots, new);
}

/// Up to the link counts of the two directories.
proof fn lemma_middle_moved(v: Vol, m: Move, st: Stage, st2: Stage, st3: Stage, now: u32)
    requires
        ends_apart(v, m, parent_block(v, m)),
        if changes_parent(m) {
            stage_dotdot(v, st, m.ino, m.raw, m.dst.dir) == Ok::<Stage, Error>(st2)
        } else {
            st2 == st
        },
        match m.replaced {
            Some((old, oraw)) => stage_replaced(v, st2, old, oraw, now) == Ok::<Stage, Error>(st3) && checked_inode(
                v,
                old,
            ) == Ok::<Seq<u8>, Error>(oraw),
            None => st3 == st2,
        },
    ensures
        moved(v, st, st3, parent_slots(v, m), parent_block(v, m)),
        checked_inode(committed(v, st3), m.src.dir) == checked_inode(committed(v, st), m.src.dir),
        checked_inode(committed(v, st3), m.dst.dir) == checked_inode(committed(v, st), m.dst.dir),
        m.replaced matches Some((old, oraw)) ==> (links_of(oraw) > 1 && !mode_is_dir(mode_of(oraw)) ==> checked_inode(
            committed(v, st3),
            old,
        ) == Ok::<Seq<u8>, Error>(relinked_record(v, old, oraw, -1))),
{
    let slots = parent_slots(v, m);
    let new = parent_block(v, m);
    let none = Seq::<(int, int)>::empty();
    lemma_across_slots(v, m, new);
    assert(slots[0] == own_slot(v, m.src.dir) && slots[1] == own_slot(v, m.dst.dir));
    assert(slot_block(slots, slots[0].0) && slot_block(slots, slots[1].0));
    if changes_parent(m) {
        lemma_dotdot_moved(v, m, st, slots);
        lemma_dotdot_moved(v, m, st, none);
    } else {
        lemma_still(v, st, slots, new);
        lemma_still(v, st, none, new);
    }
    lemma_record_through(v, st, st2, none, new, m.src.dir);
    lemma_record_through(v, st, st2, none, new, m.dst.dir);
    if let Some((old, oraw)) = m.replaced {
        let only = seq![own_slot(v, old)];
        assert(slots[2] == own_slot(v, old));
        assert(slot_block(slots, slots[2].0));
        assert forall|k: int| #[trigger] slot_block(only, k) implies k >= 0 && !is_meta(v, k) && !is_new(new, k) by {
            assert(slot_block(slots, k));
        }
        lemma_replaced_moved(v, st2, st3, old, oraw, now, slots, new, 2);
        lemma_replaced_moved(v, st2, st3, old, oraw, now, only, new, 0);
        lemma_record_through(v, st2, st3, only, new, m.src.dir);
        lemma_record_through(v, st2, st3, only, new, m.dst.dir);
        lemma_moved_on(v, st, st2, st3, slots, new);
    }
}

/// A directory's record is as it was while only entries changed.
proof fn lemma_record_alone(v: Vol, st: Stage, m: Move, d: u32, i: int)
    requires
        v.wf(),
        checked_inode(v, d) is Ok,
        0 <= i < parent_slots(v, m).len(),
        parent_slots(v, m)[i] == own_slot(v, d),
        slot_block(parent_slots(v, m), own_slot(v, d).0),
        forall|k: int| #[trigger]
            slot_block(parent_slots(v, m), k) ==> !dir_holds(v, m.src.raw, k) && !dir_holds(v, m.dst.raw, k),
        swapped(v, st, m.dst.dir, m.dst.raw, m.dst.name, m.ino, m.src.dir, m.src.raw, m.src.name),
    ensures
        checked_inode(committed(v, st), d) == checked_inode(v, d),
{
    let w = committed(v, st);
    lemma_same_place(v, st, d);
    assert(block_at(w.img, v.bs(), record_block(v, d)) == block_at(v.img, v.bs(), record_block(v, d)));
}

/// So are the records of both directories.
pub(crate) proof fn lemma_records_alone(v: Vol, st: Stage, m: Move, new: Seq<u64>)
    requires
        ends_apart(v, m, new),
        checked_inode(v, m.src.dir) is Ok,
        checked_inode(v, m.dst.dir) is Ok,
        swapped(v, st, m.dst.dir, m.dst.raw, m.dst.name, m.ino, m.src.dir, m.src.raw, m.src.name),
    ensures
        checked_inode(committed(v, st), m.src.dir) == checked_inode(v, m.src.dir),
        checked_inode(committed(v, st), m.dst.dir) == checked_inode(v, m.dst.dir),
{
    let slots = parent_slots(v, m);
    lemma_across_slots(v, m, new);
    assert(slots[0] == own_slot(v, m.src.dir) && slots[1] == own_slot(v, m.dst.dir));
    assert(slot_block(slots, slots[0].0) && slot_block(slots, slots[1].0));
    lemma_record_alone(v, st, m, m.src.dir, 0);
    lemma_record_alone(v, st, m, m.dst.dir, 1);
}

/// A directory's names stay while its record changes in nothing they go by.
proof fn lemma_kept_dir(
    v: Vol,
    x: Vol,
    w: Vol,
    d: u32,
    raw: Seq<u8>,
    after: Seq<u8>,
    dir: u32,
    name: Seq<u8>,
)
    requires
        checked_inode(v, d) == Ok::<Seq<u8>, Error>(raw),
        checked_inode(w, d) == Ok::<Seq<u8>, Error>(after),
        alike(raw, after),
        forall|part: Seq<u8>| #[trigger] find_entry(w, d, raw, part) == find_entry(x, d, raw, part),
        forall|part: Seq<u8>|
            !(d == dir && part == name) && find_entry(v, d, raw, part) is Ok ==> #[trigger] find_entry(x, d, raw, part)
                == find_entry(v, d, raw, part),
    ensures
        dir_kept(v, w, d, dir, name),
        forall|part: Seq<u8>| #[trigger] find_entry(w, d, after, part) == find_entry(x, d, raw, part),
{
    assert forall|part: Seq<u8>| #[trigger] find_entry(w, d, after, part) == find_entry(x, d, raw, part) by {
        lemma_alike_finds(w, d, raw, after, part, 0);
        assert(find_entry(w, d, raw, part) == find_entry(x, d, raw, part));
    }
    assert forall|part: Seq<u8>| find_entry(v, d, raw, part) is Ok && !(d == dir && part == name) implies
        #[trigger] find_entry(w, d, after, part) == find_entry(v, d, raw, part) by {
        assert(find_entry(x, d, raw, part) == find_entry(v, d, raw, part));
    }
}

/// What both directories hold once all of a move is done.
#[verifier::rlimit(40)]
pub(crate) proof fn lemma_dirs_moved(
    v: Vol,
    m: Move,
    new: Seq<u64>,
    st: Stage,
    fin: Stage,
    sa: Seq<u8>,
    da: Seq<u8>,
)
    requires
        ends_apart(v, m, new),
        m.src.dir == m.dst.dir ==> m.src.raw == m.dst.raw,
        checked_inode(v, m.src.dir) == Ok::<Seq<u8>, Error>(m.src.raw),
        checked_inode(v, m.dst.dir) == Ok::<Seq<u8>, Error>(m.dst.raw),
        swapped(v, st, m.dst.dir, m.dst.raw, m.dst.name, m.ino, m.src.dir, m.src.raw, m.src.name),
        moved(v, st, fin, parent_slots(v, m), new),
        checked_inode(committed(v, fin), m.src.dir) == Ok::<Seq<u8>, Error>(sa),
        checked_inode(committed(v, fin), m.dst.dir) == Ok::<Seq<u8>, Error>(da),
        alike(m.src.raw, sa),
        alike(m.dst.raw, da),
    ensures
        ({
            let w = committed(v, fin);
            &&& beside(v, w, unmoved(v, m, new), parent_slots(v, m))
            &&& find_entry(w, m.dst.dir, da, m.dst.name) == Ok::<u32, Error>(m.ino)
            &&& find_entry(w, m.src.dir, sa, m.src.name) is Err
            &&& dir_kept(v, w, m.src.dir, m.src.dir, m.src.name)
            &&& dir_kept(v, w, m.dst.dir, m.src.dir, m.src.name)
        }),
{
    let w = committed(v, fin);
    let x = committed(v, st);
    lemma_followed(v, m, new, st, fin);
    lemma_kept_dir(v, x, w, m.src.dir, m.src.raw, sa, m.src.dir, m.src.name);
    lemma_kept_dir(v, x, w, m.dst.dir, m.dst.raw, da, m.src.dir, m.src.name);
}

/// Where both paths lead once all of a move is done.
#[verifier::rlimit(40)]
pub(crate) proof fn lemma_paths_moved(v: Vol, w: Vol, m: Move, src: Seq<u8>, dst: Seq<u8>, sa: Seq<u8>, da: Seq<u8>)
    requires
        parent_and_base(src) is Ok,
        parent_and_base(dst) is Ok,
        m.src.name == parent_and_base(src)->Ok_0.1,
        m.dst.name == parent_and_base(dst)->Ok_0.1,
        ways_clear(v, m, parent_and_base(src)->Ok_0.0, parent_and_base(dst)->Ok_0.0),
        mode_is_dir(mode_of(m.raw)) ==> avoids(
            v,
            parent_and_base(dst)->Ok_0.0,
            0,
            EXT4_ROOT_INODE,
            m.src.dir,
            m.src.name,
        ),
        resolve(v, parent_and_base(src)->Ok_0.0) == Ok::<u32, Error>(m.src.dir),
        resolve(v, parent_and_base(dst)->Ok_0.0) == Ok::<u32, Error>(m.dst.dir),
        checked_inode(v, m.src.dir) == Ok::<Seq<u8>, Error>(m.src.raw),
        checked_inode(v, m.dst.dir) == Ok::<Seq<u8>, Error>(m.dst.raw),
        mode_is_dir(mode_of(m.dst.raw)),
        find_entry(v, m.src.dir, m.src.raw, m.src.name) == Ok::<u32, Error>(m.ino),
        checked_inode(v, m.ino) == Ok::<Seq<u8>, Error>(m.raw),
        checked_inode(w, m.src.dir) == Ok::<Seq<u8>, Error>(sa),
        checked_inode(w, m.dst.dir) == Ok::<Seq<u8>, Error>(da),
        mode_of(da) == mode_of(m.dst.raw),
        beside(v, w, unmoved(v, m, parent_block(v, m)), parent_slots(v, m)),
        find_entry(w, m.dst.dir, da, m.dst.name) == Ok::<u32, Error>(m.ino),
        find_entry(w, m.src.dir, sa, m.src.name) is Err,
        dir_kept(v, w, m.src.dir, m.src.dir, m.src.name),
        dir_kept(v, w, m.dst.dir, m.src.dir, m.src.name),
    ensures
        resolve(w, dst) == Ok::<u32, Error>(m.ino),
        resolve(w, src) is Err,
{
    reveal(ways_clear);
    let slots = parent_slots(v, m);
    let safe = unmoved(v, m, parent_block(v, m));
    let buts = seq![m.src.dir, m.dst.dir];
    let (sp, sname) = parent_and_base(src)->Ok_0;
    let (dp, dname) = parent_and_base(dst)->Ok_0;
    let root = EXT4_ROOT_INODE;
    assert(buts[0] == m.src.dir && buts[1] == m.dst.dir);
    assert forall|b: u32| #[trigger] buts.contains(b) implies dir_kept(v, w, b, m.src.dir, sname) by {
    }
    if !mode_is_dir(mode_of(m.raw)) {
        lemma_avoids_file(v, dp, 0, root, m.src.dir, m.src.raw, sname, m.dst.dir);
    }
    lemma_walk_edited(v, w, safe, slots, buts, m.src.dir, sname, dp, 0, root, m.dst.dir);
    lemma_walk_edited(v, w, safe, slots, buts, m.src.dir, sname, sp, 0, root, m.src.dir);
    lemma_path_steps(w, dst);
    lemma_path_steps(w, src);
}

/// What is known of a move that is to be made.
pub(crate) proof fn lemma_intent(v: Vol, src: Seq<u8>, dst: Seq<u8>, replace: bool, m: Move)
    requires
        rename_intent(v, src, dst, replace) == Ok::<Intent, Error>(Intent::Move(m)),
    ensures
        parent_and_base(src) is Ok,
        parent_and_base(dst) is Ok,
        m.src.name == parent_and_base(src)->Ok_0.1,
        m.dst.name == parent_and_base(dst)->Ok_0.1,
        m.dst.name.len() <= 255,
        resolve(v, parent_and_base(src)->Ok_0.0) == Ok::<u32, Error>(m.src.dir),
        resolve(v, parent_and_base(dst)->Ok_0.0) == Ok::<u32, Error>(m.dst.dir),
        checked_inode(v, m.src.dir) == Ok::<Seq<u8>, Error>(m.src.raw),
        checked_inode(v, m.dst.dir) == Ok::<Seq<u8>, Error>(m.dst.raw),
        m.src.dir == m.dst.dir ==> m.src.raw == m.dst.raw,
        mode_is_dir(mode_of(m.src.raw)),
        mode_is_dir(mode_of(m.dst.raw)),
        find_entry(v, m.src.dir, m.src.raw, m.src.name) == Ok::<u32, Error>(m.ino),
        checked_inode(v, m.ino) == Ok::<Seq<u8>, Error>(m.raw),
        mode_is_dir(mode_of(m.raw)) ==> avoids(
            v,
            parent_and_base(dst)->Ok_0.0,
            0,
            EXT4_ROOT_INODE,
            m.src.dir,
            m.src.name,
        ),
        match m.replaced {
            None => find_entry(v, m.dst.dir, m.dst.raw, m.dst.name) == Err::<u32, Error>(Error::NotFound),
            Some((old, oraw)) => {
                &&& old != m.ino
                &&& find_entry(v, m.dst.dir, m.dst.raw, m.dst.name) == Ok::<u32, Error>(old)
                &&& checked_inode(v, old) == Ok::<Seq<u8>, Error>(oraw)
            },
        },
{
    if mode_is_dir(mode_of(m.raw)) {
        lemma_not_passed(
            v,
            parent_and_base(dst)->Ok_0.0,
            0,
            EXT4_ROOT_INODE,
            m.src.dir,
            m.src.raw,
            m.src.name,
            m.ino,
        );
    }
}

/// A walk that does not meet an inode does not go through a name that leads to
/// it.
proof fn lemma_not_passed(v: Vol, path: Seq<u8>, at: int, d: u32, dir: u32, raw: Seq<u8>, name: Seq<u8>, ino: u32)
    requires
        0 <= at,
        checked_inode(v, dir) == Ok::<Seq<u8>, Error>(raw),
        mode_is_dir(mode_of(raw)),
        find_entry(v, dir, raw, name) == Ok::<u32, Error>(ino),
        !passes(v, path, at, d, ino),
        walk_from(v, path, at, d) is Ok,
    ensures
        avoids(v, path, at, d, dir, name),
    decreases path.len() - at,
{
    if at < path.len() {
        if path[at] == SLASH {
            lemma_not_passed(v, path, at + 1, d, dir, raw, name, ino);
        } else {
            lemma_component_end(path, at);
            let end = component_end(path, at);
            let c = find_entry(v, d, checked_inode(v, d)->Ok_0, path.subrange(at, end))->Ok_0;
            lemma_not_passed(v, path, end, c, dir, raw, name, ino);
        }
    }
}

/// Both directories once a move that replaces nothing is done.
#[verifier::rlimit(40)]
proof fn lemma_moved_within(v: Vol, m: Move, st1: Stage, fin: Stage, now: u32)
    requires
        ends_apart(v, m, parent_block(v, m)),
        m.replaced is None,
        m.dst.name.len() <= 255,
        m.src.dir == m.dst.dir ==> m.src.raw == m.dst.raw,
        checked_inode(v, m.src.dir) == Ok::<Seq<u8>, Error>(m.src.raw),
        checked_inode(v, m.dst.dir) == Ok::<Seq<u8>, Error>(m.dst.raw),
        find_entry(v, m.src.dir, m.src.raw, m.src.name) == Ok::<u32, Error>(m.ino),
        find_entry(v, m.dst.dir, m.dst.raw, m.dst.name) == Err::<u32, Error>(Error::NotFound),
        stage_add_entry(
            v,
            fresh_stage(v),
            m.dst.dir,
            m.dst.raw,
            m.dst.name,
            m.ino,
            moved_type(mode_of(m.raw)),
        ) == Ok::<Stage, Error>(st1),
        stage_move_rest(v, st1, m, now) == Ok::<Stage, Error>(fin),
    ensures
        ({
            let w = committed(v, fin);
            let (sa, da) = parents_after(v, m);
            &&& beside(v, w, unmoved(v, m, parent_block(v, m)), parent_slots(v, m))
            &&& checked_inode(w, m.src.dir) == Ok::<Seq<u8>, Error>(sa)
            &&& checked_inode(w, m.dst.dir) == Ok::<Seq<u8>, Error>(da)
            &&& mode_of(da) == mode_of(m.dst.raw)
            &&& find_entry(w, m.dst.dir, da, m.dst.name) == Ok::<u32, Error>(m.ino)
            &&& find_entry(w, m.src.dir, sa, m.src.name) is Err
            &&& dir_kept(v, w, m.src.dir, m.src.dir, m.src.name)
            &&& dir_kept(v, w, m.dst.dir, m.src.dir, m.src.name)
        }),
{
    let new = parent_block(v, m);
    let st = stage_remove_from(v, st1, m.src.dir, m.src.raw, m.src.name, 0)->Ok_0;
    let (sa, da) = parents_after(v, m);
    lemma_swapped(v, m, new);
    lemma_records_alone(v, st, m, new);
    lemma_rest_moved(v, m, st1, st, fin, now);
    lemma_dirs_moved(v, m, new, st, fin, sa, da);
}

/// A name that was moved is at its new path and no longer at its old one;
/// every other name of the two directories that led somewhere leads there
/// still. A directory that changes its parent takes a link from one to the
/// other. The new name was free, and its directory had room for it; both
/// directories are in good order.
#[verifier::rlimit(40)]
pub proof fn law_renamed_name_has_moved(v: Vol, src: Seq<u8>, dst: Seq<u8>, replace: bool, now: u32, m: Move)
    requires
        rename_intent(v, src, dst, replace) == Ok::<Intent, Error>(Intent::Move(m)),
        m.replaced is None,
        way_across(v, m, parent_and_base(src)->Ok_0.0, parent_and_base(dst)->Ok_0.0),
        ({
            let ft = moved_type(mode_of(m.raw));
            let st1 = stage_add_entry(v, fresh_stage(v), m.dst.dir, m.dst.raw, m.dst.name, m.ino, ft);
            &&& st1 is Ok
            &&& stage_move_rest(v, st1->Ok_0, m, now) is Ok
        }),
    ensures
        ({
            let (w, r) = renamed(v, src, dst, replace, now);
            &&& r is Ok
            &&& resolve(v, src) == Ok::<u32, Error>(m.ino)
            &&& resolve(w, dst) == Ok::<u32, Error>(m.ino)
            &&& resolve(w, src) is Err
            &&& dir_kept(v, w, m.src.dir, m.src.dir, m.src.name)
            &&& dir_kept(v, w, m.dst.dir, m.src.dir, m.src.name)
            &&& checked_inode(w, m.src.dir) == Ok::<Seq<u8>, Error>(parents_after(v, m).0)
            &&& checked_inode(w, m.dst.dir) == Ok::<Seq<u8>, Error>(parents_after(v, m).1)
        }),
{
    let ft = moved_type(mode_of(m.raw));
    let st1 = stage_add_entry(v, fresh_stage(v), m.dst.dir, m.dst.raw, m.dst.name, m.ino, ft)->Ok_0;
    let fin = stage_move_rest(v, st1, m, now)->Ok_0;
    lemma_intent(v, src, dst, replace, m);
    lemma_moved_within(v, m, st1, fin, now);
    let (sa, da) = parents_after(v, m);
    lemma_paths_moved(v, committed(v, fin), m, src, dst, sa, da);
    lemma_path_steps(v, src);
}

} // verus!
