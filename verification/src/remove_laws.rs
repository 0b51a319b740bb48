//! Where a path leads once its name has been taken out.
use crate::attr::inode_at;
use crate::commit::committed;
use crate::dirops::{
    component_end, dir_blocks, find_entry, lemma_component_end, parent_and_base, resolve, stage_remove_from, walk_from,
    EXT4_ROOT_INODE, SLASH,
};
use crate::entry_laws::{law_removed_name_is_not_found, lemma_removed_elsewhere, named_in, named_once_each};
use crate::error::Error;
use crate::file_mut::{runs_total, stage_free_runs};
use crate::frame_laws::{
    lemma_counters_framed, lemma_free_inode_framed, lemma_free_runs_framed, lemma_totals_framed,
};
use crate::fs::{checked_inode, file_block, keeps_types};
use crate::grow::home_group;
use crate::inode::{generation_of, links_of, mode_of};
use crate::inode_edit::dead_inode;
use crate::link_laws::{lemma_checked, lemma_relinked, relinked_record};
use crate::name_laws::{
    alike, dir_holds, lemma_alike_finds, lemma_dir_stands, lemma_dir_stands_on, lemma_edited_beside, lemma_edited_dir,
    lemma_moved_framed, lemma_moved_on, lemma_moved_record, lemma_path_steps, lemma_still, lemma_walk_but, lemma_way_slots, moved,
    own_slot, quiet, slots_stand, untouched, way_in,
};
use crate::names::{dir_runs, file_runs, rmdir_stage, stage_links, stage_reap, unlink_stage};
use crate::reach_laws::{beside, lemma_dir_beside, lemma_find_beside, lemma_record_beside, path_clear, record_clear};
use crate::stage::{stage_counters, stage_free_inode, stage_inode, stage_totals};
use crate::volume::{fresh_stage, Stage, Vol};
use vstd::prelude::*;

verus! {

/// A walk comes out as it did, or fails, once a name is gone from one
/// directory.
proof fn lemma_walk_or_not(
    v: Vol,
    w: Vol,
    safe: spec_fn(int) -> bool,
    slots: Seq<(int, int)>,
    dir: u32,
    draw: Seq<u8>,
    after: Seq<u8>,
    name: Seq<u8>,
    path: Seq<u8>,
    at: int,
    d: u32,
    r: u32,
)
    requires
        beside(v, w, safe, slots),
        0 <= at,
        path_clear(v, safe, slots, seq![dir], path, at, d),
        checked_inode(v, dir) == Ok::<Seq<u8>, Error>(draw),
        checked_inode(w, dir) == Ok::<Seq<u8>, Error>(after),
        mode_of(after) == mode_of(draw),
        forall|other: Seq<u8>|
            other != name && find_entry(v, dir, draw, other) is Ok ==> #[trigger] find_entry(w, dir, after, other)
                == find_entry(v, dir, draw, other),
        find_entry(w, dir, after, name) is Err,
        walk_from(v, path, at, d) == Ok::<u32, Error>(r),
    ensures
        walk_from(w, path, at, d) == Ok::<u32, Error>(r) || walk_from(w, path, at, d) is Err,
    decreases path.len() - at,
{
    if at < path.len() {
        if path[at] == SLASH {
            lemma_walk_or_not(v, w, safe, slots, dir, draw, after, name, path, at + 1, d, r);
        } else {
            lemma_component_end(path, at);
            let raw = checked_inode(v, d)->Ok_0;
            let end = component_end(path, at);
            let part = path.subrange(at, end);
            let c = find_entry(v, d, raw, part)->Ok_0;
            if d == dir {
                if part != name {
                    assert(find_entry(w, dir, after, part) == find_entry(v, dir, draw, part));
                }
            } else {
                lemma_record_beside(v, w, safe, safe, slots, d);
                lemma_dir_beside(v, w, safe, safe, slots, raw);
                lemma_find_beside(v, w, safe, slots, d, raw, part, 0);
            }
            lemma_walk_or_not(v, w, safe, slots, dir, draw, after, name, path, end, c, r);
        }
    }
}

/// Names stand in a directory as they did while bookkeeping and records
/// change.
pub(crate) proof fn lemma_named_same(v: Vol, a: Stage, b: Stage, slots: Seq<(int, int)>, new: Seq<u64>, raw: Seq<u8>, name: Seq<u8>)
    requires
        v.wf(),
        moved(v, a, b, slots, new),
        crate::reach_laws::dir_clear(committed(v, a), quiet(v, slots, new), raw),
        forall|l: int| #[trigger] file_block(committed(v, b), raw, l) == file_block(committed(v, a), raw, l),
        named_once_each(committed(v, a), raw, name),
    ensures
        named_once_each(committed(v, b), raw, name),
{
    let u = committed(v, a);
    let w = committed(v, b);
    let safe = quiet(v, slots, new);
    assert forall|l: int| 0 <= l < dir_blocks(w, raw) implies ((#[trigger] file_block(w, raw, l)) matches Ok(Some(p))
        ==> w.block(p as int) == u.block(p as int)) by {
        assert(file_block(w, raw, l) == file_block(u, raw, l));
        if let Ok(Some(p)) = file_block(u, raw, l) {
            assert(safe(p as int));
        }
    }
    assert forall|l: int, m: int| #[trigger] named_in(w, raw, name, l) && #[trigger] named_in(w, raw, name, m) implies l
        == m by {
        assert(file_block(w, raw, l) == file_block(u, raw, l) && file_block(w, raw, m) == file_block(u, raw, m));
        assert(named_in(u, raw, name, l) && named_in(u, raw, name, m));
    }
    assert forall|l: int| 0 <= l < dir_blocks(w, raw) implies ((#[trigger] file_block(w, raw, l)) matches Ok(Some(p))
        ==> (w.block(p as int) matches Ok(b) ==> crate::dir_laws::names_differ(
        crate::dir_laws::entries_of(crate::dir::list_from(b, 0, keeps_types(w))->Ok_0),
    ))) by {
        assert(file_block(w, raw, l) == file_block(u, raw, l));
    }
}

/// A name taken out of a directory, and some records changed: its path leads
/// nowhere, and every other name that led somewhere leads there still.
#[verifier::rlimit(40)]
proof fn lemma_removed_at(
    v: Vol,
    st: Stage,
    fin: Stage,
    slots: Seq<(int, int)>,
    new: Seq<u64>,
    path: Seq<u8>,
    parent: u32,
    raw: Seq<u8>,
    after: Seq<u8>,
)
    requires
        parent_and_base(path) is Ok,
        way_in(v, slots, new, parent_and_base(path)->Ok_0.0, parent, raw),
        named_once_each(v, raw, parent_and_base(path)->Ok_0.1),
        find_entry(v, parent, raw, parent_and_base(path)->Ok_0.1) is Ok,
        moved(v, fresh_stage(v), st, slots, new),
        stage_remove_from(v, st, parent, raw, parent_and_base(path)->Ok_0.1, 0) is Ok,
        moved(
            v,
            stage_remove_from(v, st, parent, raw, parent_and_base(path)->Ok_0.1, 0)->Ok_0,
            fin,
            slots,
            new,
        ),
        checked_inode(committed(v, fin), parent) == Ok::<Seq<u8>, Error>(after),
        alike(raw, after),
    ensures
        ({
            let name = parent_and_base(path)->Ok_0.1;
            let w = committed(v, fin);
            &&& resolve(w, path) is Err
            &&& find_entry(w, parent, after, name) is Err
            &&& beside(v, w, untouched(v, slots, new, raw), slots)
            &&& forall|other: Seq<u8>|
                other != name && find_entry(v, parent, raw, other) is Ok ==> #[trigger] find_entry(
                    w,
                    parent,
                    after,
                    other,
                ) == find_entry(v, parent, raw, other)
        }),
{
    reveal(way_in);
    let (parent_path, name) = parent_and_base(path)->Ok_0;
    let start = fresh_stage(v);
    let u = committed(v, st);
    let safe = untouched(v, slots, new, raw);
    assert(committed(v, start) == v);
    lemma_dir_stands(v, start, st, slots, new, parent, raw);
    lemma_named_same(v, start, st, slots, new, raw, name);
    let m = lemma_removed_elsewhere(v, st, parent, raw, name);
    let p = file_block(v, raw, m)->Ok_0->Some_0;
    let mid = stage_remove_from(v, st, parent, raw, name, 0)->Ok_0;
    let x = committed(v, mid);
    let w = committed(v, fin);
    assert(file_block(v, raw, m) == Ok::<Option<u64>, Error>(Some(p as int as u64)));
    assert(dir_holds(v, raw, p as int));
    lemma_edited_beside(v, st, mid, fin, slots, new, raw, p);
    lemma_edited_dir(v, st, mid, slots, new, raw, m, p);
    lemma_dir_stands_on(v, mid, fin, slots, new, parent, raw);
    assert forall|other: Seq<u8>| other != name && find_entry(v, parent, raw, other) is Ok implies #[trigger] find_entry(
        w,
        parent,
        after,
        other,
    ) == find_entry(v, parent, raw, other) by {
        assert(find_entry(u, parent, raw, other) == find_entry(v, parent, raw, other));
        law_removed_name_is_not_found(v, st, parent, raw, name, other);
        assert(find_entry(w, parent, raw, other) == find_entry(x, parent, raw, other));
        lemma_alike_finds(w, parent, raw, after, other, 0);
    }
    assert(find_entry(u, parent, raw, name) == find_entry(v, parent, raw, name));
    law_removed_name_is_not_found(v, st, parent, raw, name, name);
    assert(find_entry(w, parent, raw, name) == find_entry(x, parent, raw, name));
    lemma_alike_finds(w, parent, raw, after, name, 0);
    lemma_walk_or_not(v, w, safe, slots, parent, raw, after, name, parent_path, 0, EXT4_ROOT_INODE, parent);
    lemma_path_steps(w, path);
}

/// Releasing an inode moves nothing but bookkeeping and its record.
pub(crate) proof fn lemma_reaped(
    v: Vol,
    st: Stage,
    ino: u32,
    raw: Seq<u8>,
    runs: Seq<(u64, u32)>,
    dir: bool,
    now: u32,
    slots: Seq<(int, int)>,
    new: Seq<u64>,
    i: int,
)
    requires
        v.wf(),
        0 <= i < slots.len(),
        slots[i] == own_slot(v, ino),
        slots_stand(v, slots, new),
        stage_reap(v, st, ino, raw, runs, dir, now) is Ok,
    ensures
        moved(v, st, stage_reap(v, st, ino, raw, runs, dir, now)->Ok_0, slots, new),
{
    lemma_free_runs_framed(v, st, runs);
    let st1 = stage_free_runs(v, st, runs)->Ok_0;
    lemma_moved_framed(v, st, st1, slots, new);
    lemma_free_inode_framed(v, st1, ino);
    let st2 = stage_free_inode(v, st1, ino)->Ok_0;
    lemma_moved_framed(v, st1, st2, slots, new);
    lemma_moved_on(v, st, st1, st2, slots, new);
    let st3 = if dir {
        stage_counters(v, st2, home_group(v, ino) as int, 0, 0, -1)->Ok_0
    } else {
        st2
    };
    if dir {
        lemma_home_group(v, ino);
        lemma_counters_framed(v, st2, home_group(v, ino) as int, 0, 0, -1);
        lemma_moved_framed(v, st2, st3, slots, new);
        lemma_moved_on(v, st, st2, st3, slots, new);
    }
    lemma_totals_framed(v, st3, runs_total(runs), 1);
    let st4 = stage_totals(v, st3, runs_total(runs), 1)->Ok_0;
    lemma_moved_framed(v, st3, st4, slots, new);
    lemma_moved_on(v, st, st3, st4, slots, new);
    let rec = dead_inode(v, ino, generation_of(raw), now);
    lemma_dead_len(v, ino, generation_of(raw), now);
    lemma_moved_record(v, st4, ino, rec, slots, new, i);
    lemma_moved_on(v, st, st4, stage_inode(v, st4, ino, rec)->Ok_0, slots, new);
}

pub(crate) proof fn lemma_dead_len(v: Vol, ino: u32, generation: u32, now: u32)
    requires
        v.wf(),
    ensures
        dead_inode(v, ino, generation, now).len() == v.sb.inode_size,
{
    broadcast use crate::bytes::group_fields;
}

/// The group of an inode that the volume has.
pub(crate) proof fn lemma_home_group(v: Vol, ino: u32)
    requires
        v.wf(),
        crate::stage::group_of_inode(v, ino) is Some,
    ensures
        home_group(v, ino) < v.groups.len(),
{
    let gi = (ino - 1) / v.sb.inodes_per_group as int;
    assert(0 <= gi <= ino) by (nonlinear_arith)
        requires
            ino > 0,
            v.sb.inodes_per_group > 0,
            gi == (ino - 1) / v.sb.inodes_per_group as int,
    ;
}

/// A name that was unlinked leads nowhere any more; every other name of its
/// directory that led somewhere leads there still, and so does the path of the
/// directory. A file with more than one link has one less. The directory is in
/// good order and had the name once.
#[verifier::rlimit(40)]
pub proof fn law_unlinked_name_is_gone(v: Vol, path: Seq<u8>, now: u32)
    requires
        v.wf(),
        unlink_stage(v, path, now) is Ok,
        ({
            let (parent_path, name) = parent_and_base(path)->Ok_0;
            let (parent, praw) = inode_at(v, parent_path)->Ok_0;
            let ino = find_entry(v, parent, praw, name)->Ok_0;
            let slots = seq![own_slot(v, ino)];
            &&& way_in(v, slots, Seq::empty(), parent_path, parent, praw)
            &&& record_clear(v, untouched(v, slots, Seq::empty(), praw), slots, parent)
            &&& named_once_each(v, praw, name)
        }),
    ensures
        ({
            let (parent_path, name) = parent_and_base(path)->Ok_0;
            let (parent, praw) = inode_at(v, parent_path)->Ok_0;
            let ino = find_entry(v, parent, praw, name)->Ok_0;
            let raw = checked_inode(v, ino)->Ok_0;
            let w = committed(v, unlink_stage(v, path, now)->Ok_0);
            &&& resolve(w, path) is Err
            &&& inode_at(w, parent_path) == Ok::<(u32, Seq<u8>), Error>((parent, praw))
            &&& forall|other: Seq<u8>|
                other != name && find_entry(v, parent, praw, other) is Ok ==> #[trigger] find_entry(
                    w,
                    parent,
                    praw,
                    other,
                ) == find_entry(v, parent, praw, other)
            &&& links_of(raw) > 1 ==> checked_inode(w, ino) == Ok::<Seq<u8>, Error>(relinked_record(v, ino, raw, -1))
        }),
{
    let (parent_path, name) = parent_and_base(path)->Ok_0;
    let (parent, praw) = inode_at(v, parent_path)->Ok_0;
    let ino = find_entry(v, parent, praw, name)->Ok_0;
    let raw = checked_inode(v, ino)->Ok_0;
    let slots = seq![own_slot(v, ino)];
    let new = Seq::<u64>::empty();
    let start = fresh_stage(v);
    let safe = untouched(v, slots, new, praw);
    let mid = stage_remove_from(v, start, parent, praw, name, 0)->Ok_0;
    let fin = unlink_stage(v, path, now)->Ok_0;
    let w = committed(v, fin);
    reveal(way_in);
    lemma_still(v, start, slots, new);
    lemma_relinked(v, ino, raw, -1);
    if links_of(raw) > 1 {
        lemma_moved_record(v, mid, ino, relinked_record(v, ino, raw, -1), slots, new, 0);
        lemma_checked(v, w, ino, raw, relinked_record(v, ino, raw, -1));
    } else {
        lemma_reaped(v, mid, ino, raw, file_runs(v, raw)->Ok_0, false, now, slots, new, 0);
    }
    lemma_removal_beside(v, start, fin, slots, new, path, parent, praw);
    lemma_record_beside(v, w, safe, safe, slots, parent);
    lemma_removed_at(v, start, fin, slots, new, path, parent, praw, praw);
    lemma_walk_but(v, w, safe, slots, parent, praw, praw, name, parent_path, 0, EXT4_ROOT_INODE, parent);
}

/// A removal touches nothing else.
proof fn lemma_removal_beside(
    v: Vol,
    st: Stage,
    fin: Stage,
    slots: Seq<(int, int)>,
    new: Seq<u64>,
    path: Seq<u8>,
    parent: u32,
    raw: Seq<u8>,
)
    requires
        parent_and_base(path) is Ok,
        way_in(v, slots, new, parent_and_base(path)->Ok_0.0, parent, raw),
        named_once_each(v, raw, parent_and_base(path)->Ok_0.1),
        moved(v, fresh_stage(v), st, slots, new),
        stage_remove_from(v, st, parent, raw, parent_and_base(path)->Ok_0.1, 0) is Ok,
        moved(
            v,
            stage_remove_from(v, st, parent, raw, parent_and_base(path)->Ok_0.1, 0)->Ok_0,
            fin,
            slots,
            new,
        ),
    ensures
        beside(v, committed(v, fin), untouched(v, slots, new, raw), slots),
{
    reveal(way_in);
    let (parent_path, name) = parent_and_base(path)->Ok_0;
    let start = fresh_stage(v);
    assert(committed(v, start) == v);
    lemma_dir_stands(v, start, st, slots, new, parent, raw);
    lemma_named_same(v, start, st, slots, new, raw, name);
    let m = lemma_removed_elsewhere(v, st, parent, raw, name);
    let p = file_block(v, raw, m)->Ok_0->Some_0;
    let mid = stage_remove_from(v, st, parent, raw, name, 0)->Ok_0;
    assert(file_block(v, raw, m) == Ok::<Option<u64>, Error>(Some(p as int as u64)));
    assert(dir_holds(v, raw, p as int));
    lemma_edited_beside(v, st, mid, fin, slots, new, raw, p);
}

/// A directory that was removed is at its path no more; every other name of
/// its parent that led somewhere leads there still, and the parent has one link
/// less. The parent is in good order and had the name once.
pub proof fn law_removed_directory_is_gone(v: Vol, path: Seq<u8>, now: u32)
    requires
        v.wf(),
        rmdir_stage(v, path, now) is Ok,
        ({
            let (parent_path, name) = parent_and_base(path)->Ok_0;
            let (parent, praw) = inode_at(v, parent_path)->Ok_0;
            let ino = find_entry(v, parent, praw, name)->Ok_0;
            let slots = seq![own_slot(v, ino), own_slot(v, parent)];
            &&& way_in(v, slots, Seq::empty(), parent_path, parent, praw)
            &&& named_once_each(v, praw, name)
        }),
    ensures
        ({
            let (parent_path, name) = parent_and_base(path)->Ok_0;
            let (parent, praw) = inode_at(v, parent_path)->Ok_0;
            let w = committed(v, rmdir_stage(v, path, now)->Ok_0);
            let after = relinked_record(v, parent, praw, -1);
            &&& resolve(w, path) is Err
            &&& checked_inode(w, parent) == Ok::<Seq<u8>, Error>(after)
            &&& forall|other: Seq<u8>|
                other != name && find_entry(v, parent, praw, other) is Ok ==> #[trigger] find_entry(
                    w,
                    parent,
                    after,
                    other,
                ) == find_entry(v, parent, praw, other)
        }),
{
    let (parent_path, name) = parent_and_base(path)->Ok_0;
    let (parent, praw) = inode_at(v, parent_path)->Ok_0;
    let ino = find_entry(v, parent, praw, name)->Ok_0;
    let raw = checked_inode(v, ino)->Ok_0;
    let slots = seq![own_slot(v, ino), own_slot(v, parent)];
    let new = Seq::<u64>::empty();
    let start = fresh_stage(v);
    let runs = dir_runs(v, raw)->Ok_0;
    lemma_way_slots(v, slots, new, parent_path, parent, praw);
    lemma_reaped(v, start, ino, raw, runs, true, now, slots, new, 0);
    let st = stage_reap(v, start, ino, raw, runs, true, now)->Ok_0;
    let mid = stage_remove_from(v, st, parent, praw, name, 0)->Ok_0;
    let after = relinked_record(v, parent, praw, -1);
    lemma_relinked(v, parent, praw, -1);
    lemma_moved_record(v, mid, parent, after, slots, new, 1);
    let fin = stage_links(v, mid, parent, praw, -1)->Ok_0;
    lemma_checked(v, committed(v, fin), parent, praw, after);
    lemma_removed_at(v, st, fin, slots, new, path, parent, praw, after);
}

} // verus!
