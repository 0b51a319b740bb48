//! What removing a directory comes to, right after it was made and otherwise.
use crate::allocator::{inode_planned, law_planned_inode_is_free, law_planned_run_is_free, lemma_group_blocks};
use crate::attr::inode_at;
use crate::bgd::inode_place;
use crate::block_io::block_at;
use crate::bytes::{put16, put32, zeros};
use crate::checksum::{dir_tail_present, law_stamped_dir_verifies};
use crate::commit::{committed, lemma_published_keeps, lemma_published_len};
use crate::content_laws::{lemma_same_place, lemma_whole_extent_maps};
use crate::contents::whole_extent;
use crate::create_laws::roomy_records;
use crate::dir::{is_dots, only_dots_from, record_at, type_byte, DirEntryType};
use crate::dirops::{
    dir_blocks, dir_empty_from, find_entry, parent_and_base, resolve, stage_add_entry, stage_remove_from,
    EXT4_ROOT_INODE,
};
use crate::entry_laws::{
    good_dir, law_removed_name_is_not_found, lemma_all_pass, lemma_entered_elsewhere, lemma_entered_once, lemma_found_name_goes,
    lemma_named_dir, lemma_removed_elsewhere, named_in, named_once_each,
};
use crate::error::Error;
use crate::file_mut::{runs_total, stage_free_runs};
use crate::frame_laws::is_meta;
use crate::fs::{checked_inode, file_block, keeps_types};
use crate::grow::{
    bitmaps_of, dots_block, home_group, stage_block_plan, stage_inode_plan, usable_of, volume_plan,
};
use crate::inode::{
    block_area_of, flags_of, generation_of, links_of, mode_is_dir, mode_of, size_of_file, FL_EXTENTS,
};
use crate::inode_edit::{dead_inode, first_block_extent, moved_links, new_dir_inode, root_with};
use crate::link_laws::{
    dot, dot_dot, lemma_checked, lemma_dir_record, lemma_dots_found, lemma_dots_records, lemma_relinked, relinked_record,
    slots_differ,
};
use crate::mkdir_laws::{law_new_directory_is_at_its_path, lemma_dots_kept, lemma_new_dir_staged, new_dir_block};
use crate::name_laws::{
    alike, dir_holds, is_new, lemma_path_steps, lemma_walk_but, lemma_alike_finds, lemma_dir_stands, lemma_dir_stands_on, lemma_edited_beside, lemma_edited_dir,
    lemma_moved_beside, lemma_moved_record, lemma_way_slots, moved, own_slot, quiet, slots_stand, untouched, way_in,
};
use crate::names::{dir_runs, free_name, made_dir, new_dir_stage, rmdir_stage, stage_links, stage_reap};
use crate::reach_laws::{beside, dir_clear, in_slot, lemma_dir_beside, slot_block, slots_apart};
use crate::remove_laws::{lemma_dead_len, lemma_named_same, lemma_reaped};
use crate::stage::{
    desc_block, group_of_block, group_of_inode, stage_counters, stage_free_blocks, stage_free_inode, stage_inode,
    stage_mark_blocks, stage_mark_inode, stage_totals, super_block,
};
use crate::undo_laws::{lemma_made_found, one_block_dir};
use crate::volume::{fresh_stage, Stage, Vol};
use vstd::prelude::*;

verus! {

/// A directory that names something besides itself and its parent is not
/// removed: the answer says that it is not empty, and nothing is staged.
pub proof fn law_directory_that_names_something_stays(
    v: Vol,
    path: Seq<u8>,
    later: u32,
    parent: u32,
    praw: Seq<u8>,
    ino: u32,
    raw: Seq<u8>,
    inner: Seq<u8>,
)
    requires
        parent_and_base(path) is Ok,
        inode_at(v, parent_and_base(path)->Ok_0.0) == Ok::<(u32, Seq<u8>), Error>((parent, praw)),
        mode_is_dir(mode_of(praw)),
        find_entry(v, parent, praw, parent_and_base(path)->Ok_0.1) == Ok::<u32, Error>(ino),
        checked_inode(v, ino) == Ok::<Seq<u8>, Error>(raw),
        mode_is_dir(mode_of(raw)),
        !is_dots(inner),
        find_entry(v, ino, raw, inner) is Ok,
    ensures
        rmdir_stage(v, path, later) is Err,
        rmdir_stage(v, path, later)->Err_0 == Error::DirectoryNotEmpty,
{
    lemma_named_dir(v, ino, raw, inner, 0);
}

// -- giving back what a directory of one block holds ------------------------

/// The blocks that the removal of inode `ino` and of block `phys` rewrites are
/// all on the device.
#[verifier::opaque]
pub open spec fn reap_ready(w: Vol, ino: u32, phys: u64) -> bool {
    let gi = group_of_inode(w, ino)->Some_0;
    let gj = group_of_block(w, phys)->Some_0;
    &&& group_of_inode(w, ino) is Some
    &&& group_of_block(w, phys) is Some
    &&& 0 <= gi < w.groups.len()
    &&& 0 <= gj < w.groups.len()
    &&& home_group(w, ino) == gi
    &&& w.block(w.groups[gi].inode_bitmap as int) is Ok
    &&& w.block(w.groups[gj].block_bitmap as int) is Ok
    &&& w.block(desc_block(w.sb, gi)) is Ok
    &&& w.block(desc_block(w.sb, gj)) is Ok
    &&& w.block(super_block(w.sb)) is Ok
}

/// What a new directory took can be given back.
#[verifier::rlimit(40)]
proof fn lemma_ready(v: Vol, parent: u32, mode: u16, now: u32, generation: u32)
    requires
        v.wf(),
        new_dir_stage(v, parent, mode, now, generation) is Ok,
    ensures
        reap_ready(v, new_dir_stage(v, parent, mode, now, generation)->Ok_0.1, new_dir_block(v, parent)),
{
    reveal(reap_ready);
    reveal(new_dir_stage);
    reveal(new_dir_block);
    let hint = home_group(v, parent);
    law_planned_inode_is_free(v.sb, v.groups, true, hint, bitmaps_of(v));
    let iplan = inode_planned(v.sb, v.groups, true, hint, bitmaps_of(v))->Ok_0;
    law_planned_run_is_free(v.sb, v.groups, 1, iplan.bgd.group_idx, Seq::empty(), bitmaps_of(v));
    let bplan = volume_plan(v, 1, iplan.bgd.group_idx, Seq::empty())->Ok_0;
    let gi = iplan.bgd.group_idx as int;
    let gj = bplan.bgd.group_idx as int;
    let ib = iplan.bitmap.bit_start as int;
    let bb = bplan.bitmap.bit_start as int;
    let ino = iplan.inode;
    let phys = bplan.first_block;
    let ipg = v.sb.inodes_per_group as int;
    let bpg = v.sb.blocks_per_group as int;
    lemma_group_blocks(v.sb, gj);
    assert((ino - 1) / ipg == gi) by {
        vstd::arithmetic::div_mod::lemma_fundamental_div_mod_converse(ino - 1, ipg, gi, ib);
    }
    assert((phys - v.sb.first_data_block) / bpg == gj) by {
        vstd::arithmetic::div_mod::lemma_fundamental_div_mod_converse(phys - v.sb.first_data_block, bpg, gj, bb);
    }
    assert(gj * bpg >= 0) by (nonlinear_arith)
        requires
            gj >= 0,
            bpg > 0,
    ;
    let start = fresh_stage(v);
    let a1 = stage_mark_inode(v, start, ino)->Ok_0;
    let a3 = stage_inode_plan(v, start, iplan)->Ok_0;
    let b1 = stage_mark_blocks(v, a3, phys, 1)->Ok_0;
    assert(a1.img.len() == v.img.len());
    assert(a3.img.len() == v.img.len());
    assert(b1.img.len() == v.img.len());
    assert(stage_block_plan(v, a3, bplan) is Ok);
}

/// A volume of the same shape is as ready.
proof fn lemma_ready_same(v: Vol, w: Vol, ino: u32, phys: u64)
    requires
        reap_ready(v, ino, phys),
        w.sb == v.sb,
        w.img.len() == v.img.len(),
        w.groups.len() == v.groups.len(),
        forall|gi: int|
            0 <= gi < v.groups.len() ==> (#[trigger] w.groups[gi]).block_bitmap == v.groups[gi].block_bitmap
                && w.groups[gi].inode_bitmap == v.groups[gi].inode_bitmap,
    ensures
        reap_ready(w, ino, phys),
{
    reveal(reap_ready);
    let gi = group_of_inode(w, ino)->Some_0;
    let gj = group_of_block(w, phys)->Some_0;
    let g = w.groups[gi];
    let h = w.groups[gj];
}

/// Reaping such a directory goes through.
#[verifier::rlimit(40)]
proof fn lemma_reap_goes(w: Vol, ino: u32, rec: Seq<u8>, phys: u64, later: u32)
    requires
        w.wf(),
        reap_ready(w, ino, phys),
        checked_inode(w, ino) == Ok::<Seq<u8>, Error>(rec),
    ensures
        stage_reap(w, fresh_stage(w), ino, rec, seq![(phys, 1u32)], true, later) is Ok,
{
    reveal(reap_ready);
    let start = fresh_stage(w);
    let runs = seq![(phys, 1u32)];
    assert(runs.drop_last() =~= Seq::<(u64, u32)>::empty());
    reveal_with_fuel(stage_free_runs, 2);
    reveal_with_fuel(runs_total, 2);
    assert(stage_free_runs(w, start, runs) == stage_free_blocks(w, start, phys, 1));
    let st1 = stage_free_blocks(w, start, phys, 1)->Ok_0;
    assert(stage_free_blocks(w, start, phys, 1) is Ok && st1.img.len() == w.img.len());
    let st2 = stage_free_inode(w, st1, ino)->Ok_0;
    assert(stage_free_inode(w, st1, ino) is Ok && st2.img.len() == w.img.len());
    let st3 = stage_counters(w, st2, home_group(w, ino) as int, 0, 0, -1)->Ok_0;
    assert(stage_counters(w, st2, home_group(w, ino) as int, 0, 0, -1) is Ok && st3.img.len() == w.img.len());
    let st4 = stage_totals(w, st3, runs_total(runs), 1)->Ok_0;
    assert(stage_totals(w, st3, runs_total(runs), 1) is Ok && st4.img.len() == w.img.len());
    lemma_dead_len(w, ino, generation_of(rec), later);
    assert(stage_inode(w, st4, ino, dead_inode(w, ino, generation_of(rec), later)) is Ok);
}

// -- removing it ------------------------------------------------------------

/// A directory `ino` of one block, with record `rec`, that names nothing, in
/// the directory `parent`, which is in good order: what its removal asks of a
/// volume.
#[verifier::opaque]
spec fn removable(w: Vol, path: Seq<u8>, parent: u32, praw: Seq<u8>, ino: u32, rec: Seq<u8>, phys: u64) -> bool {
    let slots = seq![own_slot(w, ino), own_slot(w, parent)];
    let (parent_path, name) = parent_and_base(path)->Ok_0;
    &&& w.wf()
    &&& reap_ready(w, ino, phys)
    &&& slots_stand(w, slots, Seq::empty())
    &&& forall|k: int| #[trigger] slot_block(slots, k) ==> !dir_holds(w, praw, k)
    &&& good_dir(w, praw)
    &&& dir_clear(w, quiet(w, slots, Seq::empty()), praw)
    &&& named_once_each(w, praw, name)
    &&& parent_and_base(path) is Ok
    &&& inode_at(w, parent_path) == Ok::<(u32, Seq<u8>), Error>((parent, praw))
    &&& mode_is_dir(mode_of(praw))
    &&& find_entry(w, parent, praw, name) == Ok::<u32, Error>(ino)
    &&& checked_inode(w, ino) == Ok::<Seq<u8>, Error>(rec)
    &&& mode_is_dir(mode_of(rec))
    &&& dir_empty_from(w, ino, rec, 0) == Ok::<bool, Error>(true)
    &&& dir_runs(w, rec) == Ok::<Seq<(u64, u32)>, Error>(seq![(phys, 1u32)])
}

/// Its entry can be taken out, and its parent's record rewritten.
#[verifier::rlimit(40)]
proof fn lemma_removal_goes(
    w: Vol,
    path: Seq<u8>,
    parent: u32,
    praw: Seq<u8>,
    ino: u32,
    rec: Seq<u8>,
    phys: u64,
    later: u32,
)
    requires
        removable(w, path, parent, praw, ino, rec, phys),
    ensures
        rmdir_stage(w, path, later) is Ok,
        ({
            let name = parent_and_base(path)->Ok_0.1;
            let runs = seq![(phys, 1u32)];
            let st = stage_reap(w, fresh_stage(w), ino, rec, runs, true, later);
            let mid = stage_remove_from(w, st->Ok_0, parent, praw, name, 0);
            &&& st is Ok
            &&& mid is Ok
            &&& stage_links(w, mid->Ok_0, parent, praw, -1) is Ok
            &&& rmdir_stage(w, path, later) == stage_links(w, mid->Ok_0, parent, praw, -1)
        }),
{
    reveal(removable);
    let name = parent_and_base(path)->Ok_0.1;
    let slots = seq![own_slot(w, ino), own_slot(w, parent)];
    let new = Seq::<u64>::empty();
    let start = fresh_stage(w);
    let runs = seq![(phys, 1u32)];
    lemma_reap_goes(w, ino, rec, phys, later);
    let st = stage_reap(w, start, ino, rec, runs, true, later)->Ok_0;
    lemma_reaped(w, start, ino, rec, runs, true, later, slots, new, 0);
    assert(committed(w, start) == w);
    lemma_dir_stands(w, start, st, slots, new, parent, praw);
    assert(find_entry(committed(w, st), parent, praw, name) == find_entry(w, parent, praw, name));
    lemma_found_name_goes(w, st, parent, praw, name, 0);
    let mid = stage_remove_from(w, st, parent, praw, name, 0)->Ok_0;
    lemma_named_same(w, start, st, slots, new, praw, name);
    let m = lemma_removed_elsewhere(w, st, parent, praw, name);
    lemma_relinked(w, parent, praw, -1);
    assert(stage_inode(w, mid, parent, relinked_record(w, parent, praw, -1)) is Ok);
}

/// What is left once it is removed.
#[verifier::rlimit(40)]
proof fn lemma_removal_leaves(
    w: Vol,
    path: Seq<u8>,
    parent: u32,
    praw: Seq<u8>,
    ino: u32,
    rec: Seq<u8>,
    phys: u64,
    later: u32,
)
    requires
        removable(w, path, parent, praw, ino, rec, phys),
    ensures
        ({
            let name = parent_and_base(path)->Ok_0.1;
            let slots = seq![own_slot(w, ino), own_slot(w, parent)];
            let u = committed(w, rmdir_stage(w, path, later)->Ok_0);
            let after = relinked_record(w, parent, praw, -1);
            &&& rmdir_stage(w, path, later) is Ok
            &&& checked_inode(u, parent) == Ok::<Seq<u8>, Error>(after)
            &&& alike(praw, after)
            &&& links_of(after) == moved_links(links_of(praw), -1)
            &&& beside(w, u, untouched(w, slots, Seq::empty(), praw), slots)
            &&& find_entry(u, parent, after, name) is Err
            &&& forall|other: Seq<u8>|
                other != name && find_entry(w, parent, praw, other) != Err::<u32, Error>(
                    Error::BadChecksum("directory block"),
                ) ==> #[trigger] find_entry(u, parent, after, other) == find_entry(w, parent, praw, other)
        }),
{
    lemma_removal_goes(w, path, parent, praw, ino, rec, phys, later);
    reveal(removable);
    let name = parent_and_base(path)->Ok_0.1;
    let slots = seq![own_slot(w, ino), own_slot(w, parent)];
    let new = Seq::<u64>::empty();
    let start = fresh_stage(w);
    let runs = seq![(phys, 1u32)];
    let st = stage_reap(w, start, ino, rec, runs, true, later)->Ok_0;
    lemma_reaped(w, start, ino, rec, runs, true, later, slots, new, 0);
    assert(committed(w, start) == w);
    lemma_dir_stands(w, start, st, slots, new, parent, praw);
    lemma_named_same(w, start, st, slots, new, praw, name);
    let m = lemma_removed_elsewhere(w, st, parent, praw, name);
    let p = file_block(w, praw, m)->Ok_0->Some_0;
    let mid = stage_remove_from(w, st, parent, praw, name, 0)->Ok_0;
    let after = relinked_record(w, parent, praw, -1);
    lemma_relinked(w, parent, praw, -1);
    lemma_moved_record(w, mid, parent, after, slots, new, 1);
    let fin = stage_links(w, mid, parent, praw, -1)->Ok_0;
    let x = committed(w, mid);
    let u = committed(w, fin);
    lemma_checked(w, u, parent, praw, after);
    assert(file_block(w, praw, m) == Ok::<Option<u64>, Error>(Some(p as int as u64)));
    assert(dir_holds(w, praw, p as int));
    lemma_edited_beside(w, st, mid, fin, slots, new, praw, p);
    lemma_edited_dir(w, st, mid, slots, new, praw, m, p);
    lemma_dir_stands_on(w, mid, fin, slots, new, parent, praw);
    let before = committed(w, st);
    assert forall|other: Seq<u8>|
        other != name && find_entry(w, parent, praw, other) != Err::<u32, Error>(
            Error::BadChecksum("directory block"),
        ) implies #[trigger] find_entry(u, parent, after, other) == find_entry(w, parent, praw, other) by {
        assert(find_entry(before, parent, praw, other) == find_entry(w, parent, praw, other));
        law_removed_name_is_not_found(w, st, parent, praw, name, other);
        assert(find_entry(u, parent, praw, other) == find_entry(x, parent, praw, other));
        lemma_alike_finds(u, parent, praw, after, other, 0);
    }
    assert(find_entry(before, parent, praw, name) == find_entry(w, parent, praw, name));
    law_removed_name_is_not_found(w, st, parent, praw, name, name);
    assert(find_entry(u, parent, praw, name) == find_entry(x, parent, praw, name));
    lemma_alike_finds(u, parent, praw, after, name, 0);
}

// -- right after it was made ------------------------------------------------

/// The bookkeeping stays in the same blocks.
proof fn lemma_meta_same(v: Vol, st: Stage)
    requires
        v.wf(),
    ensures
        committed(v, st).groups.len() == v.groups.len(),
        forall|gi: int|
            0 <= gi < v.groups.len() ==> (#[trigger] committed(v, st).groups[gi]).block_bitmap
                == v.groups[gi].block_bitmap && committed(v, st).groups[gi].inode_bitmap == v.groups[gi].inode_bitmap,
        forall|k: int| #[trigger] is_meta(committed(v, st), k) == is_meta(v, k),
{
    let w = committed(v, st);
    lemma_published_len(v.groups, st.cleared);
    assert forall|gi: int| 0 <= gi < v.groups.len() implies (#[trigger] w.groups[gi]).block_bitmap
        == v.groups[gi].block_bitmap && w.groups[gi].inode_bitmap == v.groups[gi].inode_bitmap by {
        lemma_published_keeps(v.groups, st.cleared, gi);
    }
    assert forall|k: int| #[trigger] is_meta(w, k) == is_meta(v, k) by {
        if is_meta(v, k) {
            if exists|gi: int| 0 <= gi < v.groups.len() && k == (#[trigger] v.groups[gi]).block_bitmap {
                let gi = choose|gi: int| 0 <= gi < v.groups.len() && k == (#[trigger] v.groups[gi]).block_bitmap;
                assert(k == w.groups[gi].block_bitmap);
            } else if exists|gi: int| 0 <= gi < v.groups.len() && k == (#[trigger] v.groups[gi]).inode_bitmap {
                let gi = choose|gi: int| 0 <= gi < v.groups.len() && k == (#[trigger] v.groups[gi]).inode_bitmap;
                assert(k == w.groups[gi].inode_bitmap);
            }
        }
        if is_meta(w, k) {
            if exists|gi: int| 0 <= gi < w.groups.len() && k == (#[trigger] w.groups[gi]).block_bitmap {
                let gi = choose|gi: int| 0 <= gi < w.groups.len() && k == (#[trigger] w.groups[gi]).block_bitmap;
                assert(k == v.groups[gi].block_bitmap);
            } else if exists|gi: int| 0 <= gi < w.groups.len() && k == (#[trigger] w.groups[gi]).inode_bitmap {
                let gi = choose|gi: int| 0 <= gi < w.groups.len() && k == (#[trigger] w.groups[gi]).inode_bitmap;
                assert(k == v.groups[gi].inode_bitmap);
            }
        }
    }
}

/// A record that differs in nothing that a search reads.
proof fn lemma_alike_dir(w: Vol, safe: spec_fn(int) -> bool, raw: Seq<u8>, after: Seq<u8>, name: Seq<u8>)
    requires
        alike(raw, after),
        good_dir(w, raw),
        dir_clear(w, safe, raw),
        named_once_each(w, raw, name),
    ensures
        good_dir(w, after),
        dir_clear(w, safe, after),
        named_once_each(w, after, name),
        forall|l: int| #[trigger] file_block(w, after, l) == file_block(w, raw, l),
        dir_blocks(w, after) == dir_blocks(w, raw),
{
    assert forall|l: int| #[trigger] file_block(w, after, l) == file_block(w, raw, l) by {
    }
    assert forall|l: int| #[trigger] named_in(w, after, name, l) implies named_in(w, raw, name, l) by {
    }
    assert forall|l: int, m: int| #[trigger] named_in(w, after, name, l) && #[trigger] named_in(w, after, name, m) implies l
        == m by {
        assert(named_in(w, raw, name, l) && named_in(w, raw, name, m));
    }
}

/// What a directory's search reads stays as it is if more does.
proof fn lemma_clear_more(w: Vol, safe: spec_fn(int) -> bool, next: spec_fn(int) -> bool, raw: Seq<u8>)
    requires
        good_dir(w, raw),
        dir_clear(w, safe, raw),
        forall|k: int| #[trigger] safe(k) ==> next(k),
    ensures
        dir_clear(w, next, raw),
{
}

/// The parent of a new directory is in good order still, names it once, and its
/// blocks are where they were.
#[verifier::rlimit(40)]
proof fn lemma_parent_good(
    v: Vol,
    path: Seq<u8>,
    parent: u32,
    raw: Seq<u8>,
    st: Stage,
    ino: u32,
    phys: u64,
)
    requires
        v.wf(),
        parent_and_base(path) is Ok,
        parent_and_base(path)->Ok_0.1.len() <= 255,
        checked_inode(v, parent) == Ok::<Seq<u8>, Error>(raw),
        find_entry(v, parent, raw, parent_and_base(path)->Ok_0.1) == Err::<u32, Error>(Error::NotFound),
        named_once_each(v, raw, parent_and_base(path)->Ok_0.1),
        ino != 0,
        moved(v, fresh_stage(v), st, seq![own_slot(v, ino), own_slot(v, parent)], seq![phys]),
        way_in(
            v,
            seq![own_slot(v, ino), own_slot(v, parent)],
            seq![phys],
            parent_and_base(path)->Ok_0.0,
            parent,
            raw,
        ),
        ({
            let name = parent_and_base(path)->Ok_0.1;
            let mid = stage_add_entry(v, st, parent, raw, name, ino, DirEntryType::Directory);
            &&& mid is Ok
            &&& stage_links(v, mid->Ok_0, parent, raw, 1) is Ok
        }),
    ensures
        ({
            let name = parent_and_base(path)->Ok_0.1;
            let slots = seq![own_slot(v, ino), own_slot(v, parent)];
            let mid = stage_add_entry(v, st, parent, raw, name, ino, DirEntryType::Directory)->Ok_0;
            let fin = stage_links(v, mid, parent, raw, 1)->Ok_0;
            let w = committed(v, fin);
            let after = relinked_record(v, parent, raw, 1);
            &&& w.img.len() == v.img.len()
            &&& alike(raw, after)
            &&& links_of(after) == moved_links(links_of(raw), 1)
            &&& good_dir(w, after)
            &&& dir_clear(w, quiet(v, slots, seq![phys]), after)
            &&& named_once_each(w, after, name)
            &&& forall|l: int| #[trigger] file_block(w, after, l) == file_block(v, raw, l)
            &&& dir_blocks(w, after) == dir_blocks(v, raw)
            &&& beside(v, w, untouched(v, slots, seq![phys], raw), slots)
        }),
{
    let name = parent_and_base(path)->Ok_0.1;
    let slots = seq![own_slot(v, ino), own_slot(v, parent)];
    let new = seq![phys];
    let ft = DirEntryType::Directory;
    let start = fresh_stage(v);
    let safe = quiet(v, slots, new);
    let after = relinked_record(v, parent, raw, 1);
    lemma_way_slots(v, slots, new, parent_and_base(path)->Ok_0.0, parent, raw);
    reveal(way_in);
    assert(committed(v, start) == v);
    lemma_dir_stands(v, start, st, slots, new, parent, raw);
    lemma_named_same(v, start, st, slots, new, raw, name);
    assert(find_entry(committed(v, st), parent, raw, name) == find_entry(v, parent, raw, name));
    lemma_entered_once(v, st, parent, raw, name, ino, ft);
    let m = lemma_entered_elsewhere(v, st, parent, raw, name, ino, ft);
    let p = file_block(v, raw, m)->Ok_0->Some_0;
    let mid = stage_add_entry(v, st, parent, raw, name, ino, ft)->Ok_0;
    lemma_relinked(v, parent, raw, 1);
    lemma_moved_record(v, mid, parent, after, slots, new, 1);
    let fin = stage_links(v, mid, parent, raw, 1)->Ok_0;
    assert(file_block(v, raw, m) == Ok::<Option<u64>, Error>(Some(p as int as u64)));
    assert(dir_holds(v, raw, p as int));
    lemma_edited_beside(v, st, mid, fin, slots, new, raw, p);
    lemma_edited_dir(v, st, mid, slots, new, raw, m, p);
    lemma_dir_stands(v, mid, fin, slots, new, parent, raw);
    lemma_named_same(v, mid, fin, slots, new, raw, name);
    let w = committed(v, fin);
    lemma_moved_beside(v, mid, fin, slots, new);
    lemma_dir_beside(committed(v, mid), w, safe, safe, slots, raw);
    lemma_alike_dir(w, safe, raw, after, name);
    assert forall|l: int| #[trigger] file_block(w, after, l) == file_block(v, raw, l) by {
        assert(file_block(w, raw, l) == file_block(committed(v, mid), raw, l));
    }
}

/// A new directory names nothing.
proof fn lemma_dots_empty(
    v: Vol,
    w: Vol,
    ino: u32,
    parent: u32,
    generation: u32,
    phys: u64,
    rec: Seq<u8>,
)
    requires
        v.wf(),
        w.sb == v.sb,
        w.csum == v.csum,
        v.csum.enabled ==> keeps_types(v),
        ino != 0,
        parent != 0,
        phys < 0x1_0000_0000_0000,
        size_of_file(rec) == v.bs(),
        flags_of(rec) == FL_EXTENTS,
        generation_of(rec) == generation,
        block_area_of(rec) == root_with(seq![first_block_extent(phys)]),
        w.block(phys as int) == Ok::<Seq<u8>, Error>(dots_block(v, ino, parent, generation)),
    ensures
        dir_empty_from(w, ino, rec, 0) == Ok::<bool, Error>(true),
{
    lemma_whole_extent_maps(w.img, v.bs(), phys, 1, 0, None);
    assert(whole_extent(phys, 1) == first_block_extent(phys));
    assert(0x80000u32 & 0x80000u32 != 0) by (bit_vector);
    assert(file_block(w, rec, 0) == Ok::<Option<u64>, Error>(Some(phys)));
    lemma_dots_found(v, ino, parent, generation, dot());
    lemma_dots_only_dots(v, ino, parent, generation);
    assert(dir_blocks(w, rec) == 1) by (nonlinear_arith)
        requires
            dir_blocks(w, rec) == (v.bs() + v.bs() - 1) / v.bs(),
            v.bs() > 0,
    ;
    reveal_with_fuel(dir_empty_from, 2);
}

proof fn lemma_dots_only_dots(v: Vol, ino: u32, parent: u32, generation: u32)
    requires
        v.wf(),
        ino != 0,
        parent != 0,
        v.csum.enabled ==> keeps_types(v),
    ensures
        only_dots_from(dots_block(v, ino, parent, generation), 0, keeps_types(v)) == Ok::<bool, Error>(true),
{
    broadcast use crate::bytes::group_fields;

    let b = dots_block(v, ino, parent, generation);
    let has_ft = keeps_types(v);
    let at = usable_of(v);
    lemma_dots_records(v, ino, parent, generation);
    reveal_with_fuel(only_dots_from, 4);
    assert(is_dots(dot()) && is_dots(dot_dot()));
    if v.csum.enabled {
        assert(dir_tail_present(b)) by {
            lemma_dots_tail(v, ino, parent, generation);
        }
        assert(record_at(b, at, b.len() as int, has_ft) is Ok);
        assert(record_at(b, at, b.len() as int, has_ft)->Ok_0.inode == 0);
        assert(record_at(b, at, b.len() as int, has_ft)->Ok_0.rec_len == 12);
    }
}

proof fn lemma_dots_tail(v: Vol, ino: u32, parent: u32, generation: u32)
    requires
        v.wf(),
        v.csum.enabled,
    ensures
        dots_block(v, ino, parent, generation).len() == v.bs(),
        dir_tail_present(dots_block(v, ino, parent, generation)),
{
    broadcast use crate::bytes::group_fields;

    let t = type_byte(DirEntryType::Directory, keeps_types(v));
    let plain = put16(
        put32(
            put16(put32(zeros(v.bs() as nat), 0, ino), 4, 12).update(6, 1u8).update(7, t).update(8, 0x2Eu8),
            12,
            parent,
        ),
        16,
        ((usable_of(v) - 12) % 0x1_0000) as u16,
    ).update(18, 2u8).update(19, t).update(20, 0x2Eu8).update(21, 0x2Eu8);
    law_stamped_dir_verifies(v.csum, ino, generation, plain);
}

/// A new directory can be removed.
#[verifier::rlimit(40)]
proof fn lemma_made_removable(
    v: Vol,
    path: Seq<u8>,
    parent: u32,
    raw: Seq<u8>,
    fin: Stage,
    ino: u32,
    rec: Seq<u8>,
    phys: u64,
)
    requires
        v.wf(),
        reap_ready(v, ino, phys),
        parent_and_base(path) is Ok,
        ({
            let w = committed(v, fin);
            let (parent_path, name) = parent_and_base(path)->Ok_0;
            let slots = seq![own_slot(v, ino), own_slot(v, parent)];
            let after = relinked_record(v, parent, raw, 1);
            &&& way_in(v, slots, seq![phys], parent_path, parent, raw)
            &&& checked_inode(v, parent) == Ok::<Seq<u8>, Error>(raw)
            &&& mode_is_dir(mode_of(raw))
            &&& find_entry(v, parent, raw, name) == Err::<u32, Error>(Error::NotFound)
            &&& made_inside(w, path, parent, after, ino, rec, phys)
            &&& made_outside(v, w, path, parent, raw, ino, phys)
            &&& names_kept(v, w, parent, raw, after, name)
        }),
    ensures
        just_made(v, committed(v, fin), path, parent, raw, ino, rec, phys),
{
    reveal(made_inside);
    reveal(made_outside);
    reveal(names_kept);
    reveal(one_block_dir);
    reveal(just_made);
    let w = committed(v, fin);
    let slots = seq![own_slot(v, ino), own_slot(v, parent)];
    let new = seq![phys];
    let none = Seq::<u64>::empty();
    let after = relinked_record(v, parent, raw, 1);
    reveal(removable);
    lemma_meta_same(v, fin);
    lemma_ready_same(v, w, ino, phys);
    lemma_same_place(v, fin, ino);
    lemma_same_place(v, fin, parent);
    lemma_way_slots(v, slots, new, parent_and_base(path)->Ok_0.0, parent, raw);
    assert forall|k: int| #[trigger] slot_block(slots, k) implies k >= 0 && !is_meta(w, k) && !is_new(none, k)
        && !dir_holds(w, after, k) by {
        assert(!is_meta(v, k));
        assert(!dir_holds(v, raw, k)) by {
            reveal(way_in);
        }
        if dir_holds(w, after, k) {
            let l = choose|l: int|
                0 <= l < dir_blocks(w, after) && (#[trigger] file_block(w, after, l)) == Ok::<Option<u64>, Error>(
                    Some(k as u64),
                ) && k <= u64::MAX;
            assert(file_block(v, raw, l) == Ok::<Option<u64>, Error>(Some(k as u64)));
            assert(dir_holds(v, raw, k));
        }
    }
    let safe = quiet(v, slots, new);
    let next = quiet(w, slots, none);
    assert forall|k: int| #[trigger] safe(k) implies next(k) by {
    }
    lemma_clear_more(w, safe, next, after);
}

/// Two changes beside the same blocks.
proof fn lemma_beside_both(
    v: Vol,
    w: Vol,
    u: Vol,
    safe: spec_fn(int) -> bool,
    next: spec_fn(int) -> bool,
    slots: Seq<(int, int)>,
)
    requires
        beside(v, w, safe, slots),
        beside(w, u, next, slots),
        forall|k: int| #[trigger] safe(k) ==> next(k),
    ensures
        beside(v, u, safe, slots),
{
    let size = v.sb.inode_size as int;
    assert forall|d: u32| #[trigger] inode_place(u.sb, u.groups, d) == inode_place(v.sb, v.groups, d) by {
        assert(inode_place(w.sb, w.groups, d) == inode_place(v.sb, v.groups, d));
    }
    assert forall|k: int| #[trigger] safe(k) implies block_at(u.img, v.bs(), k) == block_at(v.img, v.bs(), k) by {
        assert(next(k));
        assert(block_at(w.img, v.bs(), k) == block_at(v.img, v.bs(), k));
    }
    assert forall|b: int| #[trigger] slot_block(slots, b) implies slots_apart(v.img, u.img, v.bs(), slots, size, b) by {
        assert(slots_apart(v.img, w.img, v.bs(), slots, size, b));
        assert(slots_apart(w.img, u.img, v.bs(), slots, size, b));
        if block_at(v.img, v.bs(), b) is Ok {
            let x = block_at(v.img, v.bs(), b)->Ok_0;
            let y = block_at(w.img, v.bs(), b)->Ok_0;
            let z = block_at(u.img, v.bs(), b)->Ok_0;
            assert forall|j: int| 0 <= j < x.len() && !in_slot(slots, size, b, j) implies #[trigger] z[j] == x[j] by {
                assert(y[j] == x[j]);
            }
        }
    }
}

/// A directory that was just made can be removed, and is then at its path no
/// more. Its parent is where it was, names what it named before the directory
/// was made and nothing else, and has the links it had, unless those are as many
/// as a record can count: one more than 65535 is written as none.
///
/// The parent is extent-mapped and in good order, had room for the entry, and
/// has no two entries of one name in a block. On a volume with checksums entries
/// carry types: without those the checksum record of a directory block is no
/// entry, and no directory can be read.
#[verifier::rlimit(40)]
pub proof fn law_new_directory_can_be_removed(
    v: Vol,
    path: Seq<u8>,
    mode: u16,
    now: u32,
    generation: u32,
    later: u32,
)
    requires
        v.wf(),
        roomy_records(v),
        v.csum.enabled ==> keeps_types(v),
        free_name(v, path) is Ok,
        free_name(v, path)->Ok_0.0 != 0,
        new_dir_stage(v, free_name(v, path)->Ok_0.0, mode, now, generation) is Ok,
        ({
            let (parent, raw, name) = free_name(v, path)->Ok_0;
            let (st, ino) = new_dir_stage(v, parent, mode, now, generation)->Ok_0;
            let phys = new_dir_block(v, parent);
            let slots = seq![own_slot(v, ino), own_slot(v, parent)];
            let st1 = stage_add_entry(v, st, parent, raw, name, ino, DirEntryType::Directory);
            &&& way_in(v, slots, seq![phys], parent_and_base(path)->Ok_0.0, parent, raw)
            &&& slots_differ(own_slot(v, parent), own_slot(v, ino), v.sb.inode_size as int)
            &&& named_once_each(v, raw, name)
            &&& st1 is Ok
            &&& stage_links(v, st1->Ok_0, parent, raw, 1) is Ok
        }),
    ensures
        ({
            let (parent, raw, name) = free_name(v, path)->Ok_0;
            let parent_path = parent_and_base(path)->Ok_0.0;
            let w = made_dir(v, path, mode, now, generation).0;
            let u = committed(w, rmdir_stage(w, path, later)->Ok_0);
            let after = checked_inode(u, parent)->Ok_0;
            &&& rmdir_stage(w, path, later) is Ok
            &&& resolve(u, path) is Err
            &&& resolve(u, parent_path) == Ok::<u32, Error>(parent)
            &&& checked_inode(u, parent) is Ok
            &&& links_of(raw) < 0xFFFF ==> links_of(after) == links_of(raw)
            &&& find_entry(u, parent, after, name) is Err
            &&& forall|other: Seq<u8>|
                other != name ==> #[trigger] find_entry(u, parent, after, other) == find_entry(v, parent, raw, other)
        }),
{
    let (parent, raw, name) = free_name(v, path)->Ok_0;
    let parent_path = parent_and_base(path)->Ok_0.0;
    let (st, ino) = new_dir_stage(v, parent, mode, now, generation)->Ok_0;
    let phys = new_dir_block(v, parent);
    let rec = new_dir_inode(v, ino, mode, phys, now, generation);
    let mid = stage_add_entry(v, st, parent, raw, name, ino, DirEntryType::Directory)->Ok_0;
    let fin = stage_links(v, mid, parent, raw, 1)->Ok_0;
    let w = made_dir(v, path, mode, now, generation).0;
    assert(w == committed(v, fin));
    lemma_made_ready(v, path, mode, now, generation);
    lemma_gone_again(v, w, path, parent, raw, ino, rec, phys, later);
}

/// The directory that was made, as its removal finds it.
#[verifier::opaque]
spec fn made_inside(w: Vol, path: Seq<u8>, parent: u32, praw: Seq<u8>, ino: u32, rec: Seq<u8>, phys: u64) -> bool {
    &&& one_block_dir(w, path, parent, praw, ino, rec, phys)
    &&& mode_is_dir(mode_of(rec))
    &&& dir_empty_from(w, ino, rec, 0) == Ok::<bool, Error>(true)
}

/// Its parent, as the removal finds it.
#[verifier::opaque]
spec fn made_outside(v: Vol, w: Vol, path: Seq<u8>, parent: u32, raw: Seq<u8>, ino: u32, phys: u64) -> bool {
    let name = parent_and_base(path)->Ok_0.1;
    let slots = seq![own_slot(v, ino), own_slot(v, parent)];
    let after = relinked_record(v, parent, raw, 1);
    &&& w.img.len() == v.img.len()
    &&& alike(raw, after)
    &&& links_of(after) == moved_links(links_of(raw), 1)
    &&& good_dir(w, after)
    &&& dir_clear(w, quiet(v, slots, seq![phys]), after)
    &&& named_once_each(w, after, name)
    &&& forall|l: int| #[trigger] file_block(w, after, l) == file_block(v, raw, l)
    &&& dir_blocks(w, after) == dir_blocks(v, raw)
    &&& beside(v, w, untouched(v, slots, seq![phys], raw), slots)
}

/// Every other name of the parent leads where it did.
#[verifier::opaque]
spec fn names_kept(v: Vol, w: Vol, parent: u32, raw: Seq<u8>, after: Seq<u8>, name: Seq<u8>) -> bool {
    forall|other: Seq<u8>|
        other != name ==> #[trigger] find_entry(w, parent, after, other) == find_entry(v, parent, raw, other)
}

#[verifier::rlimit(40)]
proof fn lemma_made_inside(v: Vol, path: Seq<u8>, mode: u16, now: u32, generation: u32)
    requires
        v.wf(),
        roomy_records(v),
        v.csum.enabled ==> keeps_types(v),
        free_name(v, path) is Ok,
        free_name(v, path)->Ok_0.0 != 0,
        new_dir_stage(v, free_name(v, path)->Ok_0.0, mode, now, generation) is Ok,
        ({
            let (parent, raw, name) = free_name(v, path)->Ok_0;
            let (st, ino) = new_dir_stage(v, parent, mode, now, generation)->Ok_0;
            let phys = new_dir_block(v, parent);
            let slots = seq![own_slot(v, ino), own_slot(v, parent)];
            let st1 = stage_add_entry(v, st, parent, raw, name, ino, DirEntryType::Directory);
            &&& way_in(v, slots, seq![phys], parent_and_base(path)->Ok_0.0, parent, raw)
            &&& slots_differ(own_slot(v, parent), own_slot(v, ino), v.sb.inode_size as int)
            &&& named_once_each(v, raw, name)
            &&& st1 is Ok
            &&& stage_links(v, st1->Ok_0, parent, raw, 1) is Ok
        }),
    ensures
        ({
            let (parent, raw, name) = free_name(v, path)->Ok_0;
            let ino = new_dir_stage(v, parent, mode, now, generation)->Ok_0.1;
            let phys = new_dir_block(v, parent);
            let rec = new_dir_inode(v, ino, mode, phys, now, generation);
            let w = made_dir(v, path, mode, now, generation).0;
            let after = relinked_record(v, parent, raw, 1);
            made_inside(w, path, parent, after, ino, rec, phys)
        }),
{
    let (parent, raw, name) = free_name(v, path)->Ok_0;
    let parent_path = parent_and_base(path)->Ok_0.0;
    let (st, ino) = new_dir_stage(v, parent, mode, now, generation)->Ok_0;
    let phys = new_dir_block(v, parent);
    let slots = seq![own_slot(v, ino), own_slot(v, parent)];
    let rec = new_dir_inode(v, ino, mode, phys, now, generation);
    let mid = stage_add_entry(v, st, parent, raw, name, ino, DirEntryType::Directory)->Ok_0;
    let fin = stage_links(v, mid, parent, raw, 1)->Ok_0;
    let w = committed(v, fin);
    reveal(made_inside);
    lemma_way_slots(v, slots, seq![phys], parent_path, parent, raw);
    lemma_new_dir_staged(v, parent, mode, now, generation, slots);
    lemma_made_found(v, path, mode, now, generation);
    lemma_dir_record(v, ino, mode, phys, now, generation);
    lemma_dots_kept(v, path, parent, raw, st, ino, phys, dots_block(v, ino, parent, generation));
    lemma_dots_empty(v, w, ino, parent, generation, phys, rec);
}

#[verifier::rlimit(40)]
proof fn lemma_made_outside(v: Vol, path: Seq<u8>, mode: u16, now: u32, generation: u32)
    requires
        v.wf(),
        roomy_records(v),
        v.csum.enabled ==> keeps_types(v),
        free_name(v, path) is Ok,
        free_name(v, path)->Ok_0.0 != 0,
        new_dir_stage(v, free_name(v, path)->Ok_0.0, mode, now, generation) is Ok,
        ({
            let (parent, raw, name) = free_name(v, path)->Ok_0;
            let (st, ino) = new_dir_stage(v, parent, mode, now, generation)->Ok_0;
            let phys = new_dir_block(v, parent);
            let slots = seq![own_slot(v, ino), own_slot(v, parent)];
            let st1 = stage_add_entry(v, st, parent, raw, name, ino, DirEntryType::Directory);
            &&& way_in(v, slots, seq![phys], parent_and_base(path)->Ok_0.0, parent, raw)
            &&& slots_differ(own_slot(v, parent), own_slot(v, ino), v.sb.inode_size as int)
            &&& named_once_each(v, raw, name)
            &&& st1 is Ok
            &&& stage_links(v, st1->Ok_0, parent, raw, 1) is Ok
        }),
    ensures
        ({
            let (parent, raw, name) = free_name(v, path)->Ok_0;
            let ino = new_dir_stage(v, parent, mode, now, generation)->Ok_0.1;
            let phys = new_dir_block(v, parent);
            let rec = new_dir_inode(v, ino, mode, phys, now, generation);
            let w = made_dir(v, path, mode, now, generation).0;
            let after = relinked_record(v, parent, raw, 1);
            made_outside(v, w, path, parent, raw, ino, phys)
        }),
{
    let (parent, raw, name) = free_name(v, path)->Ok_0;
    let parent_path = parent_and_base(path)->Ok_0.0;
    let (st, ino) = new_dir_stage(v, parent, mode, now, generation)->Ok_0;
    let phys = new_dir_block(v, parent);
    let slots = seq![own_slot(v, ino), own_slot(v, parent)];
    let rec = new_dir_inode(v, ino, mode, phys, now, generation);
    let mid = stage_add_entry(v, st, parent, raw, name, ino, DirEntryType::Directory)->Ok_0;
    let fin = stage_links(v, mid, parent, raw, 1)->Ok_0;
    let w = committed(v, fin);
    reveal(made_outside);
    lemma_way_slots(v, slots, seq![phys], parent_path, parent, raw);
    lemma_new_dir_staged(v, parent, mode, now, generation, slots);
    lemma_parent_good(v, path, parent, raw, st, ino, phys);
}

#[verifier::rlimit(40)]
proof fn lemma_names_kept(v: Vol, path: Seq<u8>, mode: u16, now: u32, generation: u32)
    requires
        v.wf(),
        roomy_records(v),
        v.csum.enabled ==> keeps_types(v),
        free_name(v, path) is Ok,
        free_name(v, path)->Ok_0.0 != 0,
        new_dir_stage(v, free_name(v, path)->Ok_0.0, mode, now, generation) is Ok,
        ({
            let (parent, raw, name) = free_name(v, path)->Ok_0;
            let (st, ino) = new_dir_stage(v, parent, mode, now, generation)->Ok_0;
            let phys = new_dir_block(v, parent);
            let slots = seq![own_slot(v, ino), own_slot(v, parent)];
            let st1 = stage_add_entry(v, st, parent, raw, name, ino, DirEntryType::Directory);
            &&& way_in(v, slots, seq![phys], parent_and_base(path)->Ok_0.0, parent, raw)
            &&& slots_differ(own_slot(v, parent), own_slot(v, ino), v.sb.inode_size as int)
            &&& named_once_each(v, raw, name)
            &&& st1 is Ok
            &&& stage_links(v, st1->Ok_0, parent, raw, 1) is Ok
        }),
    ensures
        ({
            let (parent, raw, name) = free_name(v, path)->Ok_0;
            let ino = new_dir_stage(v, parent, mode, now, generation)->Ok_0.1;
            let phys = new_dir_block(v, parent);
            let rec = new_dir_inode(v, ino, mode, phys, now, generation);
            let w = made_dir(v, path, mode, now, generation).0;
            let after = relinked_record(v, parent, raw, 1);
            names_kept(v, w, parent, raw, after, name)
        }),
{
    reveal(names_kept);
    law_new_directory_is_at_its_path(v, path, mode, now, generation);
}

/// What the removal of a new directory rests on, from how it was made.
#[verifier::rlimit(40)]
proof fn lemma_made_ready(v: Vol, path: Seq<u8>, mode: u16, now: u32, generation: u32)
    requires
        v.wf(),
        roomy_records(v),
        v.csum.enabled ==> keeps_types(v),
        free_name(v, path) is Ok,
        free_name(v, path)->Ok_0.0 != 0,
        new_dir_stage(v, free_name(v, path)->Ok_0.0, mode, now, generation) is Ok,
        ({
            let (parent, raw, name) = free_name(v, path)->Ok_0;
            let (st, ino) = new_dir_stage(v, parent, mode, now, generation)->Ok_0;
            let phys = new_dir_block(v, parent);
            let slots = seq![own_slot(v, ino), own_slot(v, parent)];
            let st1 = stage_add_entry(v, st, parent, raw, name, ino, DirEntryType::Directory);
            &&& way_in(v, slots, seq![phys], parent_and_base(path)->Ok_0.0, parent, raw)
            &&& slots_differ(own_slot(v, parent), own_slot(v, ino), v.sb.inode_size as int)
            &&& named_once_each(v, raw, name)
            &&& st1 is Ok
            &&& stage_links(v, st1->Ok_0, parent, raw, 1) is Ok
        }),
    ensures
        ({
            let (parent, raw, name) = free_name(v, path)->Ok_0;
            let ino = new_dir_stage(v, parent, mode, now, generation)->Ok_0.1;
            let phys = new_dir_block(v, parent);
            let rec = new_dir_inode(v, ino, mode, phys, now, generation);
            let w = made_dir(v, path, mode, now, generation).0;
            let after = relinked_record(v, parent, raw, 1);
            just_made(v, w, path, parent, raw, ino, rec, phys)
        }),
{
    let (parent, raw, name) = free_name(v, path)->Ok_0;
    let parent_path = parent_and_base(path)->Ok_0.0;
    let (st, ino) = new_dir_stage(v, parent, mode, now, generation)->Ok_0;
    let phys = new_dir_block(v, parent);
    let slots = seq![own_slot(v, ino), own_slot(v, parent)];
    let rec = new_dir_inode(v, ino, mode, phys, now, generation);
    let mid = stage_add_entry(v, st, parent, raw, name, ino, DirEntryType::Directory)->Ok_0;
    let fin = stage_links(v, mid, parent, raw, 1)->Ok_0;
    let w = committed(v, fin);
    lemma_ready(v, parent, mode, now, generation);
    lemma_made_inside(v, path, mode, now, generation);
    lemma_made_outside(v, path, mode, now, generation);
    lemma_names_kept(v, path, mode, now, generation);
    lemma_made_removable(v, path, parent, raw, fin, ino, rec, phys);
}

/// A directory that can be removed from `w`, which is `v` but for what making
/// it changed.
#[verifier::opaque]
spec fn just_made(
    v: Vol,
    w: Vol,
    path: Seq<u8>,
    parent: u32,
    raw: Seq<u8>,
    ino: u32,
    rec: Seq<u8>,
    phys: u64,
) -> bool {
    let name = parent_and_base(path)->Ok_0.1;
    let slots = seq![own_slot(v, ino), own_slot(v, parent)];
    let after = relinked_record(v, parent, raw, 1);
    &&& v.wf()
    &&& w.sb == v.sb
    &&& w.csum == v.csum
    &&& parent_and_base(path) is Ok
    &&& way_in(v, slots, seq![phys], parent_and_base(path)->Ok_0.0, parent, raw)
    &&& checked_inode(v, parent) == Ok::<Seq<u8>, Error>(raw)
    &&& find_entry(v, parent, raw, name) == Err::<u32, Error>(Error::NotFound)
    &&& removable(w, path, parent, after, ino, rec, phys)
    &&& own_slot(w, ino) == own_slot(v, ino)
    &&& own_slot(w, parent) == own_slot(v, parent)
    &&& alike(raw, after)
    &&& links_of(after) == moved_links(links_of(raw), 1)
    &&& forall|k: int| #[trigger] is_meta(w, k) == is_meta(v, k)
    &&& forall|l: int| #[trigger] file_block(w, after, l) == file_block(v, raw, l)
    &&& dir_blocks(w, after) == dir_blocks(v, raw)
    &&& beside(v, w, untouched(v, slots, seq![phys], raw), slots)
    &&& forall|other: Seq<u8>|
        other != name ==> #[trigger] find_entry(w, parent, after, other) == find_entry(v, parent, raw, other)
}

/// Blocks that the making left alone the removal leaves alone.
proof fn lemma_untouched_more(v: Vol, w: Vol, slots: Seq<(int, int)>, new: Seq<u64>, raw: Seq<u8>, praw: Seq<u8>)
    requires
        forall|k: int| #[trigger] is_meta(w, k) == is_meta(v, k),
        forall|l: int| #[trigger] file_block(w, praw, l) == file_block(v, raw, l),
        dir_blocks(w, praw) == dir_blocks(v, raw),
    ensures
        forall|k: int| #[trigger] untouched(v, slots, new, raw)(k) ==> untouched(w, slots, Seq::empty(), praw)(k),
{
    let safe = untouched(v, slots, new, raw);
    let next = untouched(w, slots, Seq::empty(), praw);
    assert forall|k: int| #[trigger] safe(k) implies next(k) by {
        if dir_holds(w, praw, k) {
            let l = choose|l: int|
                0 <= l < dir_blocks(w, praw) && (#[trigger] file_block(w, praw, l)) == Ok::<Option<u64>, Error>(
                    Some(k as u64),
                ) && k <= u64::MAX;
            assert(file_block(v, raw, l) == Ok::<Option<u64>, Error>(Some(k as u64)));
            assert(dir_holds(v, raw, k));
        }
        assert(is_meta(w, k) == is_meta(v, k));
    }
}

/// Such a directory removed, as its parent shows it.
#[verifier::rlimit(40)]
proof fn lemma_name_gone_again(
    v: Vol,
    w: Vol,
    path: Seq<u8>,
    parent: u32,
    raw: Seq<u8>,
    ino: u32,
    rec: Seq<u8>,
    phys: u64,
    later: u32,
)
    requires
        just_made(v, w, path, parent, raw, ino, rec, phys),
    ensures
        ({
            let name = parent_and_base(path)->Ok_0.1;
            let u = committed(w, rmdir_stage(w, path, later)->Ok_0);
            let slots = seq![own_slot(v, ino), own_slot(v, parent)];
            let praw = relinked_record(v, parent, raw, 1);
            let after = relinked_record(w, parent, praw, -1);
            &&& rmdir_stage(w, path, later) is Ok
            &&& checked_inode(u, parent) == Ok::<Seq<u8>, Error>(after)
            &&& mode_of(after) == mode_of(raw)
            &&& links_of(raw) < 0xFFFF ==> links_of(after) == links_of(raw)
            &&& beside(w, u, untouched(w, slots, Seq::empty(), praw), slots)
            &&& find_entry(u, parent, after, name) is Err
            &&& forall|other: Seq<u8>|
                other != name ==> #[trigger] find_entry(u, parent, after, other) == find_entry(v, parent, raw, other)
        }),
{
    reveal(just_made);
    let name = parent_and_base(path)->Ok_0.1;
    let praw = relinked_record(v, parent, raw, 1);
    let after = relinked_record(w, parent, praw, -1);
    lemma_removal_leaves(w, path, parent, praw, ino, rec, phys, later);
    let u = committed(w, rmdir_stage(w, path, later)->Ok_0);
    assert forall|other: Seq<u8>| other != name implies #[trigger] find_entry(u, parent, after, other) == find_entry(
        v,
        parent,
        raw,
        other,
    ) by {
        assert(find_entry(w, parent, praw, other) == find_entry(v, parent, raw, other));
        lemma_all_pass(v, parent, raw, name, other, 0);
    }
}

/// Such a directory removed.
#[verifier::rlimit(40)]
proof fn lemma_gone_again(
    v: Vol,
    w: Vol,
    path: Seq<u8>,
    parent: u32,
    raw: Seq<u8>,
    ino: u32,
    rec: Seq<u8>,
    phys: u64,
    later: u32,
)
    requires
        just_made(v, w, path, parent, raw, ino, rec, phys),
    ensures
        ({
            let (parent_path, name) = parent_and_base(path)->Ok_0;
            let u = committed(w, rmdir_stage(w, path, later)->Ok_0);
            let after = checked_inode(u, parent)->Ok_0;
            &&& rmdir_stage(w, path, later) is Ok
            &&& resolve(u, path) is Err
            &&& resolve(u, parent_path) == Ok::<u32, Error>(parent)
            &&& checked_inode(u, parent) is Ok
            &&& links_of(raw) < 0xFFFF ==> links_of(after) == links_of(raw)
            &&& find_entry(u, parent, after, name) is Err
            &&& forall|other: Seq<u8>|
                other != name ==> #[trigger] find_entry(u, parent, after, other) == find_entry(v, parent, raw, other)
        }),
{
    lemma_name_gone_again(v, w, path, parent, raw, ino, rec, phys, later);
    let u = committed(w, rmdir_stage(w, path, later)->Ok_0);
    let after = checked_inode(u, parent)->Ok_0;
    lemma_path_gone_again(v, w, u, path, parent, raw, ino, rec, phys, after);
}

/// The way to the parent stands once such a directory is removed.
proof fn lemma_path_gone_again(
    v: Vol,
    w: Vol,
    u: Vol,
    path: Seq<u8>,
    parent: u32,
    raw: Seq<u8>,
    ino: u32,
    rec: Seq<u8>,
    phys: u64,
    after: Seq<u8>,
)
    requires
        just_made(v, w, path, parent, raw, ino, rec, phys),
        ({
            let name = parent_and_base(path)->Ok_0.1;
            let slots = seq![own_slot(v, ino), own_slot(v, parent)];
            let praw = relinked_record(v, parent, raw, 1);
            &&& checked_inode(u, parent) == Ok::<Seq<u8>, Error>(after)
            &&& mode_of(after) == mode_of(raw)
            &&& beside(w, u, untouched(w, slots, Seq::empty(), praw), slots)
            &&& find_entry(u, parent, after, name) is Err
            &&& forall|other: Seq<u8>|
                other != name ==> #[trigger] find_entry(u, parent, after, other) == find_entry(v, parent, raw, other)
        }),
    ensures
        resolve(u, path) is Err,
        resolve(u, parent_and_base(path)->Ok_0.0) == Ok::<u32, Error>(parent),
{
    reveal(just_made);
    let (parent_path, name) = parent_and_base(path)->Ok_0;
    let slots = seq![own_slot(v, ino), own_slot(v, parent)];
    let praw = relinked_record(v, parent, raw, 1);
    let safe = untouched(v, slots, seq![phys], raw);
    let next = untouched(w, slots, Seq::empty(), praw);
    lemma_untouched_more(v, w, slots, seq![phys], raw, praw);
    lemma_beside_both(v, w, u, safe, next, slots);
    lemma_parent_reached(v, u, slots, seq![phys], parent_path, parent, raw, after, name);
    lemma_path_steps(u, path);
}

/// The parent is reached as before.
proof fn lemma_parent_reached(
    v: Vol,
    u: Vol,
    slots: Seq<(int, int)>,
    new: Seq<u64>,
    parent_path: Seq<u8>,
    parent: u32,
    raw: Seq<u8>,
    after: Seq<u8>,
    name: Seq<u8>,
)
    requires
        way_in(v, slots, new, parent_path, parent, raw),
        beside(v, u, untouched(v, slots, new, raw), slots),
        checked_inode(v, parent) == Ok::<Seq<u8>, Error>(raw),
        checked_inode(u, parent) == Ok::<Seq<u8>, Error>(after),
        mode_of(after) == mode_of(raw),
        find_entry(v, parent, raw, name) is Err,
        forall|other: Seq<u8>|
            other != name ==> #[trigger] find_entry(u, parent, after, other) == find_entry(v, parent, raw, other),
    ensures
        resolve(u, parent_path) == Ok::<u32, Error>(parent),
{
    reveal(way_in);
    let safe = untouched(v, slots, new, raw);
    lemma_walk_but(v, u, safe, slots, parent, raw, after, name, parent_path, 0, EXT4_ROOT_INODE, parent);
}

} // verus!
