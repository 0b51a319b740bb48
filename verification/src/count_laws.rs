//! What is free is counted: each group counts its own, and the superblock all.
use crate::allocator::{group_first_block, inode_planned, law_planned_inode_is_free, law_planned_run_is_free};
use crate::bgd::{BLOCK_UNINIT, INODE_UNINIT};
use crate::bitmap::{bit_set, lemma_with_bit, lemma_with_bits, with_bit, with_bits};
use crate::books::{
    books, books_apart, held, lemma_counters_booked, lemma_free_blocks_booked, lemma_free_inode_booked,
    lemma_mark_blocks_booked, lemma_mark_inode_booked, lemma_totals_booked, with_bitmap, with_counts, Books,
    Counts,
};
use crate::commit::committed;
use crate::content_laws::record_block;
use crate::dirops::{find_entry, stage_remove_from};
use crate::error::Error;
use crate::file_mut::{runs_total, stage_free_runs};
use crate::frame_laws::is_meta;
use crate::fs::checked_inode;
use crate::grow::{bitmaps_of, home_group, stage_block_plan, stage_inode_plan, volume_plan};
use crate::inode::{generation_of, links_of};
use crate::inode_edit::dead_inode;
use crate::link_laws::relinked_record;
use crate::names::{dir_runs, file_runs, rmdir_stage, stage_reap, unlink_stage};
use crate::release_laws::dir_apart;
use crate::rename::names_in;
use crate::stage::{
    bit_of_inode, group_of_block, group_of_inode, stage_counters, stage_free_inode, stage_mark_blocks,
    stage_mark_inode, stage_totals,
};
use crate::superblock::Superblock;
use crate::undo_laws::{lemma_record_booked, lemma_removal_booked};
use crate::volume::{fresh_stage, Stage, Vol};
use vstd::prelude::*;

verus! {

/// What the groups count together: free blocks, free inodes, and directories.
pub open spec fn counted_in_all(counts: Seq<Counts>) -> (int, int, int)
    decreases counts.len(),
{
    if counts.len() == 0 {
        (0, 0, 0)
    } else {
        let before = counted_in_all(counts.drop_last());
        let c = counts.last();
        (before.0 + c.blocks, before.1 + c.inodes, before.2 + c.dirs)
    }
}

/// How many blocks some runs have.
pub open spec fn blocks_in(runs: Seq<(u64, u32)>) -> int
    decreases runs.len(),
{
    if runs.len() == 0 {
        0
    } else {
        runs[0].1 + blocks_in(runs.drop_first())
    }
}

/// No counter of a group comes to its end with so many more blocks and inodes,
/// and none is below zero with a directory less.
pub open spec fn room_to_count(sb: Superblock, k: Books, blocks: int, inodes: int, dirs: int) -> bool {
    forall|gi: int|
        0 <= gi < k.counts.len() ==> {
            let c = #[trigger] k.counts[gi];
            let most: int = if sb.desc_size >= 64 {
                0xFFFF_FFFF
            } else {
                0xFFFF
            };
            &&& 0 <= c.blocks && c.blocks + blocks <= most
            &&& 0 <= c.inodes && c.inodes + inodes <= most
            &&& dirs <= c.dirs <= most
        }
}

/// The books of one state and of another differ in the counts by so much, and
/// the groups together differ by as much as the superblock.
pub open spec fn counts_moved(a: Books, b: Books, blocks: int, inodes: int, dirs: int) -> bool {
    &&& b.free_blocks == a.free_blocks + blocks
    &&& b.free_inodes == a.free_inodes + inodes
    &&& counted_in_all(b.counts).0 == counted_in_all(a.counts).0 + blocks
    &&& counted_in_all(b.counts).1 == counted_in_all(a.counts).1 + inodes
    &&& counted_in_all(b.counts).2 == counted_in_all(a.counts).2 + dirs
}

proof fn lemma_one_count(counts: Seq<Counts>, gi: int, c: Counts)
    requires
        0 <= gi < counts.len(),
    ensures
        ({
            let a = counted_in_all(counts);
            let b = counted_in_all(counts.update(gi, c));
            let was = counts[gi];
            &&& b.0 == a.0 - was.blocks + c.blocks
            &&& b.1 == a.1 - was.inodes + c.inodes
            &&& b.2 == a.2 - was.dirs + c.dirs
        }),
    decreases counts.len(),
{
    let after = counts.update(gi, c);
    if gi == counts.len() - 1 {
        assert(after.drop_last() =~= counts.drop_last());
    } else {
        assert(after.drop_last() =~= counts.drop_last().update(gi, c));
        lemma_one_count(counts.drop_last(), gi, c);
    }
}

/// A group's counters moved, where they have room.
proof fn lemma_counts_follow(sb: Superblock, k: Books, gi: int, fb: int, fi: int, ud: int)
    requires
        0 <= gi < k.counts.len(),
        ({
            let c = k.counts[gi];
            let most: int = if sb.desc_size >= 64 {
                0xFFFF_FFFF
            } else {
                0xFFFF
            };
            &&& 0 <= c.blocks + fb <= most
            &&& 0 <= c.inodes + fi <= most
            &&& 0 <= c.dirs + ud <= most
        }),
    ensures
        ({
            let b = with_counts(sb, k, gi, fb, fi, ud);
            &&& counted_in_all(b.counts).0 == counted_in_all(k.counts).0 + fb
            &&& counted_in_all(b.counts).1 == counted_in_all(k.counts).1 + fi
            &&& counted_in_all(b.counts).2 == counted_in_all(k.counts).2 + ud
            &&& b.counts.len() == k.counts.len()
            &&& b.counts[gi].blocks == k.counts[gi].blocks + fb
            &&& b.counts[gi].inodes == k.counts[gi].inodes + fi
            &&& b.counts[gi].dirs == k.counts[gi].dirs + ud
            &&& forall|gj: int| 0 <= gj < k.counts.len() && gj != gi ==> #[trigger] b.counts[gj] == k.counts[gj]
        }),
{
    reveal(held);
    let c = k.counts[gi];
    let b = with_counts(sb, k, gi, fb, fi, ud);
    lemma_one_count(k.counts, gi, b.counts[gi]);
    assert(b.counts =~= k.counts.update(gi, b.counts[gi]));
}

proof fn lemma_blocks_in(runs: Seq<(u64, u32)>)
    ensures
        blocks_in(runs) == runs_total(runs),
        0 <= blocks_in(runs),
    decreases runs.len(),
{
    if runs.len() > 0 {
        lemma_blocks_in(runs.drop_last());
        lemma_blocks_in(runs.drop_first());
        if runs.len() > 1 {
            let rest = runs.drop_first();
            assert(rest.drop_last() =~= runs.drop_last().drop_first());
            assert(rest.last() == runs.last());
            lemma_blocks_in(rest.drop_last());
            assert(runs_total(rest) == runs_total(rest.drop_last()) + runs.last().1);
            assert(blocks_in(runs.drop_last()) == runs.drop_last()[0].1 + blocks_in(runs.drop_last().drop_first()));
        } else {
            assert(runs.drop_last().len() == 0);
            assert(runs.drop_first().len() == 0);
        }
    }
}

proof fn lemma_groups_counted(v: Vol, img: Seq<u8>)
    ensures
        books(v, img).counts.len() == v.groups.len(),
{
    reveal(books);
}

/// Runs that are released are counted.
proof fn lemma_runs_counted(v: Vol, st: Stage, runs: Seq<(u64, u32)>, more: int)
    requires
        v.wf(),
        books_apart(v),
        stage_free_runs(v, st, runs) is Ok,
        0 <= more,
        room_to_count(v.sb, books(v, st.img), runs_total(runs) + more, 1, 0),
    ensures
        ({
            let a = books(v, st.img);
            let b = books(v, stage_free_runs(v, st, runs)->Ok_0.img);
            &&& b.free_blocks == a.free_blocks
            &&& b.free_inodes == a.free_inodes
            &&& counted_in_all(b.counts).0 == counted_in_all(a.counts).0 + runs_total(runs)
            &&& counted_in_all(b.counts).1 == counted_in_all(a.counts).1
            &&& counted_in_all(b.counts).2 == counted_in_all(a.counts).2
            &&& b.counts.len() == a.counts.len()
            &&& forall|gi: int|
                0 <= gi < a.counts.len() ==> (#[trigger] b.counts[gi]).inodes == a.counts[gi].inodes
                    && b.counts[gi].dirs == a.counts[gi].dirs && 0 <= b.counts[gi].blocks <= a.counts[gi].blocks
                    + runs_total(runs)
        }),
    decreases runs.len(),
{
    lemma_blocks_in(runs);
    lemma_groups_counted(v, st.img);
    if runs.len() > 0 {
        let front = runs.drop_last();
        let (start, len) = runs.last();
        let a = books(v, st.img);
        let before = stage_free_runs(v, st, front)->Ok_0;
        lemma_blocks_in(front);
        lemma_runs_counted(v, st, front, more + len);
        let k = books(v, before.img);
        lemma_free_blocks_booked(v, before, start, len as int);
        crate::books::lemma_group_of_block(v, start);
        let gi = group_of_block(v, start)->Some_0;
        let bit = start - group_first_block(v.sb, gi);
        let bits = with_bits(k.block_bits[gi]->Ok_0, bit, len as nat, false);
        let mid = with_bitmap(k, gi, false, bits);
        assert(mid.counts == k.counts);
        let c = a.counts[gi];
        assert(k.counts[gi].inodes == c.inodes && k.counts[gi].dirs == c.dirs);
        lemma_counts_follow(v.sb, mid, gi, len as int, 0, 0);
        let b = books(v, stage_free_runs(v, st, runs)->Ok_0.img);
        assert(b == with_counts(v.sb, mid, gi, len as int, 0, 0));
        assert forall|gj: int| 0 <= gj < a.counts.len() implies (#[trigger] b.counts[gj]).inodes == a.counts[gj].inodes
            && b.counts[gj].dirs == a.counts[gj].dirs && 0 <= b.counts[gj].blocks <= a.counts[gj].blocks + runs_total(
            runs,
        ) by {
            assert(k.counts[gj].inodes == a.counts[gj].inodes);
        }
    }
}

/// What a reaped inode leaves is counted.
proof fn lemma_reap_counted(v: Vol, st: Stage, ino: u32, raw: Seq<u8>, runs: Seq<(u64, u32)>, dir: bool, now: u32)
    requires
        v.wf(),
        books_apart(v),
        !is_meta(v, record_block(v, ino)),
        stage_reap(v, st, ino, raw, runs, dir, now) is Ok,
        room_to_count(v.sb, books(v, st.img), runs_total(runs), 1, if dir { 1 } else { 0 }),
        books(v, st.img).free_blocks + runs_total(runs) <= u64::MAX,
        books(v, st.img).free_inodes < u32::MAX,
    ensures
        counts_moved(
            books(v, st.img),
            books(v, stage_reap(v, st, ino, raw, runs, dir, now)->Ok_0.img),
            runs_total(runs),
            1,
            if dir { -1 } else { 0 },
        ),
{
    let a = books(v, st.img);
    lemma_groups_counted(v, st.img);
    lemma_blocks_in(runs);
    let st1 = stage_free_runs(v, st, runs)->Ok_0;
    assert(room_to_count(v.sb, a, runs_total(runs) + 0, 1, 0)) by {
        assert forall|gi: int| 0 <= gi < a.counts.len() implies 0 <= (#[trigger] a.counts[gi]).dirs by {
        }
    }
    lemma_runs_counted(v, st, runs, 0);
    let k1 = books(v, st1.img);
    let st2 = stage_free_inode(v, st1, ino)->Ok_0;
    lemma_free_inode_booked(v, st1, ino);
    crate::remove_laws::lemma_home_group(v, ino);
    crate::books::lemma_group_of_inode(v, ino);
    let gi = group_of_inode(v, ino)->Some_0;
    let mid = with_bitmap(k1, gi, true, with_bit(k1.inode_bits[gi]->Ok_0, bit_of_inode(v, ino), false));
    assert(mid.counts == k1.counts);
    let c = a.counts[gi];
    assert(k1.counts[gi].inodes == c.inodes && k1.counts[gi].dirs == c.dirs);
    lemma_counts_follow(v.sb, mid, gi, 0, 1, 0);
    let k2 = books(v, st2.img);
    let st3 = if dir {
        stage_counters(v, st2, home_group(v, ino) as int, 0, 0, -1)->Ok_0
    } else {
        st2
    };
    if dir {
        let gh = home_group(v, ino) as int;
        lemma_counters_booked(v, st2, gh, 0, 0, -1);
        let d = a.counts[gh];
        assert(k1.counts[gh].inodes == d.inodes && k1.counts[gh].dirs == d.dirs);
        assert(k2.counts[gh].dirs == d.dirs);
        assert(0 <= k2.counts[gh].blocks);
        if gh != gi {
            assert(k2.counts[gh] == mid.counts[gh]);
        }
        lemma_counts_follow(v.sb, k2, gh, 0, 0, -1);
    }
    let st4 = stage_totals(v, st3, runs_total(runs), 1)->Ok_0;
    lemma_totals_booked(v, st3, runs_total(runs), 1);
    assert(0 <= a.free_blocks && 0 <= a.free_inodes) by {
        reveal(books);
    }
    lemma_record_booked(v, st4, ino, dead_inode(v, ino, generation_of(raw), now));
}

/// A file that loses its last name is counted free: the superblock counts one
/// inode more and as many blocks more as the file's runs have, and so do the
/// groups together.
pub proof fn law_unlinked_file_is_counted_free(
    v: Vol,
    path: Seq<u8>,
    dir: u32,
    draw: Seq<u8>,
    name: Seq<u8>,
    ino: u32,
    raw: Seq<u8>,
    now: u32,
)
    requires
        v.wf(),
        books_apart(v),
        names_in(v, path, dir, draw, name),
        find_entry(v, dir, draw, name) == Ok::<u32, Error>(ino),
        checked_inode(v, ino) == Ok::<Seq<u8>, Error>(raw),
        links_of(raw) <= 1,
        dir_apart(v, draw),
        !is_meta(v, record_block(v, ino)),
        unlink_stage(v, path, now) is Ok,
        room_to_count(v.sb, books(v, v.img), blocks_in(file_runs(v, raw)->Ok_0), 1, 0),
        books(v, v.img).free_blocks + blocks_in(file_runs(v, raw)->Ok_0) <= u64::MAX,
        books(v, v.img).free_inodes < u32::MAX,
    ensures
        file_runs(v, raw) is Ok,
        counts_moved(
            books(v, v.img),
            books(v, committed(v, unlink_stage(v, path, now)->Ok_0).img),
            blocks_in(file_runs(v, raw)->Ok_0),
            1,
            0,
        ),
{
    let start = fresh_stage(v);
    let runs = file_runs(v, raw)->Ok_0;
    let st = stage_remove_from(v, start, dir, draw, name, 0)->Ok_0;
    lemma_removal_booked(v, start, dir, draw, name, 0);
    lemma_blocks_in(runs);
    lemma_reap_counted(v, st, ino, raw, runs, false, now);
}

/// A directory that is removed is counted free: one inode and its blocks more,
/// and one directory less.
pub proof fn law_removed_directory_is_counted_free(
    v: Vol,
    path: Seq<u8>,
    dir: u32,
    draw: Seq<u8>,
    name: Seq<u8>,
    ino: u32,
    raw: Seq<u8>,
    now: u32,
)
    requires
        v.wf(),
        books_apart(v),
        names_in(v, path, dir, draw, name),
        find_entry(v, dir, draw, name) == Ok::<u32, Error>(ino),
        checked_inode(v, ino) == Ok::<Seq<u8>, Error>(raw),
        dir_apart(v, draw),
        !is_meta(v, record_block(v, ino)),
        !is_meta(v, record_block(v, dir)),
        rmdir_stage(v, path, now) is Ok,
        room_to_count(v.sb, books(v, v.img), blocks_in(dir_runs(v, raw)->Ok_0), 1, 1),
        books(v, v.img).free_blocks + blocks_in(dir_runs(v, raw)->Ok_0) <= u64::MAX,
        books(v, v.img).free_inodes < u32::MAX,
    ensures
        dir_runs(v, raw) is Ok,
        counts_moved(
            books(v, v.img),
            books(v, committed(v, rmdir_stage(v, path, now)->Ok_0).img),
            blocks_in(dir_runs(v, raw)->Ok_0),
            1,
            -1,
        ),
{
    let start = fresh_stage(v);
    let runs = dir_runs(v, raw)->Ok_0;
    let st = stage_reap(v, start, ino, raw, runs, true, now)->Ok_0;
    lemma_blocks_in(runs);
    lemma_reap_counted(v, start, ino, raw, runs, true, now);
    let mid = stage_remove_from(v, st, dir, draw, name, 0)->Ok_0;
    lemma_removal_booked(v, st, dir, draw, name, 0);
    lemma_record_booked(v, mid, dir, relinked_record(v, dir, draw, -1));
}

/// Blocks that are taken are marked, those and no others, and counted off: by
/// their group, and by the superblock.
pub proof fn law_taken_blocks_are_counted_off(v: Vol, st: Stage, count: u32, hint: u32, reserved: Seq<u64>)
    requires
        v.wf(),
        books_apart(v),
        0 < count <= i32::MAX,
        volume_plan(v, count, hint, reserved) is Ok,
        stage_block_plan(v, st, volume_plan(v, count, hint, reserved)->Ok_0) is Ok,
        ({
            let gi = volume_plan(v, count, hint, reserved)->Ok_0.bgd.group_idx as int;
            let k = books(v, st.img);
            &&& k.counts[gi].flags & BLOCK_UNINIT == 0
            &&& room_to_count(v.sb, k, 0, 0, 0)
            &&& count <= k.counts[gi].blocks
            &&& count <= k.free_blocks
        }),
    ensures
        ({
            let p = volume_plan(v, count, hint, reserved)->Ok_0;
            let gi = p.bgd.group_idx as int;
            let a = books(v, st.img);
            let b = books(v, stage_block_plan(v, st, p)->Ok_0.img);
            let first = p.first_block - group_first_block(v.sb, gi);
            &&& counts_moved(a, b, -count, 0, 0)
            &&& b.counts[gi].blocks == a.counts[gi].blocks - count
            &&& b.inode_bits == a.inode_bits
            &&& a.block_bits[gi] is Ok && b.block_bits[gi] is Ok
            &&& forall|j: int|
                0 <= j < 8 * a.block_bits[gi]->Ok_0.len() ==> (#[trigger] bit_set(b.block_bits[gi]->Ok_0, j) <==> bit_set(
                    a.block_bits[gi]->Ok_0,
                    j,
                ) || first <= j < first + count)
            &&& forall|gj: int|
                0 <= gj < v.groups.len() && gj != gi ==> #[trigger] b.block_bits[gj] == a.block_bits[gj]
        }),
{
    let p = volume_plan(v, count, hint, reserved)->Ok_0;
    law_planned_run_is_free(v.sb, v.groups, count, hint, reserved, bitmaps_of(v));
    crate::allocator::law_planned_run_within(v.sb, v.groups, count, hint, reserved, bitmaps_of(v));
    let gi = p.bgd.group_idx as int;
    let a = books(v, st.img);
    let bpg = v.sb.blocks_per_group as int;
    let bit = p.bitmap.bit_start as int;
    crate::allocator::lemma_group_blocks(v.sb, gi);
    assert(gi * bpg >= 0) by (nonlinear_arith)
        requires
            gi >= 0,
            bpg > 0,
    ;
    assert(p.first_block - v.sb.first_data_block == gi * bpg + bit);
    assert((p.first_block - v.sb.first_data_block) / bpg == gi) by {
        vstd::arithmetic::div_mod::lemma_fundamental_div_mod_converse(p.first_block - v.sb.first_data_block, bpg, gi, bit);
    }
    lemma_groups_counted(v, st.img);
    lemma_mark_blocks_booked(v, st, p.first_block, count as int);
    assert(group_of_block(v, p.first_block) == Some(gi));
    let st1 = stage_mark_blocks(v, st, p.first_block, count as int)->Ok_0;
    let k1 = books(v, st1.img);
    assert(k1.counts == a.counts);
    let c = a.counts[gi];
    assert(0 <= c.blocks);
    lemma_with_bits(a.block_bits[gi]->Ok_0, bit, count as nat, true);
    assert(a.block_bits.len() == v.groups.len()) by {
        reveal(books);
    }
    assert(p.bgd.free_blocks_delta == -count);
    let st2 = stage_counters(v, st1, gi, -count, 0, 0)->Ok_0;
    lemma_counters_booked(v, st1, gi, -count, 0, 0);
    lemma_counts_follow(v.sb, k1, gi, -count, 0, 0);
    lemma_totals_booked(v, st2, -count, 0);
    assert(a.free_blocks <= u64::MAX && 0 <= a.free_inodes <= u32::MAX) by {
        reveal(books);
    }
}

/// An inode that is taken is marked, it and no other, and counted off, and a
/// directory is counted.
pub proof fn law_taken_inode_is_counted_off(v: Vol, st: Stage, is_dir: bool, hint: u32)
    requires
        v.wf(),
        books_apart(v),
        inode_planned(v.sb, v.groups, is_dir, hint, bitmaps_of(v)) is Ok,
        stage_inode_plan(v, st, inode_planned(v.sb, v.groups, is_dir, hint, bitmaps_of(v))->Ok_0) is Ok,
        ({
            let gi = inode_planned(v.sb, v.groups, is_dir, hint, bitmaps_of(v))->Ok_0.bgd.group_idx as int;
            let k = books(v, st.img);
            &&& k.counts[gi].flags & INODE_UNINIT == 0
            &&& room_to_count(v.sb, k, 0, 0, 0)
            &&& 1 <= k.counts[gi].inodes
            &&& k.counts[gi].dirs < 0xFFFF
            &&& 1 <= k.free_inodes
        }),
    ensures
        ({
            let p = inode_planned(v.sb, v.groups, is_dir, hint, bitmaps_of(v))->Ok_0;
            let gi = p.bgd.group_idx as int;
            let a = books(v, st.img);
            let b = books(v, stage_inode_plan(v, st, p)->Ok_0.img);
            let own = (p.inode - 1) % v.sb.inodes_per_group as int;
            &&& counts_moved(a, b, 0, -1, if is_dir { 1 } else { 0 })
            &&& b.counts[gi].inodes == a.counts[gi].inodes - 1
            &&& b.block_bits == a.block_bits
            &&& a.inode_bits[gi] is Ok && b.inode_bits[gi] is Ok
            &&& forall|j: int|
                0 <= j < 8 * a.inode_bits[gi]->Ok_0.len() ==> (#[trigger] bit_set(b.inode_bits[gi]->Ok_0, j) <==> bit_set(
                    a.inode_bits[gi]->Ok_0,
                    j,
                ) || j == own)
            &&& forall|gj: int|
                0 <= gj < v.groups.len() && gj != gi ==> #[trigger] b.inode_bits[gj] == a.inode_bits[gj]
        }),
{
    let p = inode_planned(v.sb, v.groups, is_dir, hint, bitmaps_of(v))->Ok_0;
    law_planned_inode_is_free(v.sb, v.groups, is_dir, hint, bitmaps_of(v));
    let gi = p.bgd.group_idx as int;
    let a = books(v, st.img);
    let ipg = v.sb.inodes_per_group as int;
    let bit = p.bitmap.bit_start as int;
    assert((p.inode - 1) / ipg == gi && (p.inode - 1) % ipg == bit) by {
        vstd::arithmetic::div_mod::lemma_fundamental_div_mod_converse(p.inode - 1, ipg, gi, bit);
    }
    lemma_groups_counted(v, st.img);
    lemma_mark_inode_booked(v, st, p.inode);
    assert(group_of_inode(v, p.inode) == Some(gi));
    let st1 = stage_mark_inode(v, st, p.inode)->Ok_0;
    let k1 = books(v, st1.img);
    assert(k1.counts == a.counts);
    let c = a.counts[gi];
    assert(0 <= c.blocks && 0 <= c.dirs);
    lemma_with_bit(a.inode_bits[gi]->Ok_0, bit, true);
    assert(a.inode_bits.len() == v.groups.len()) by {
        reveal(books);
    }
    let ud: int = if is_dir { 1 } else { 0 };
    let st2 = stage_counters(v, st1, gi, 0, -1, ud)->Ok_0;
    lemma_counters_booked(v, st1, gi, 0, -1, ud);
    lemma_counts_follow(v.sb, k1, gi, 0, -1, ud);
    lemma_totals_booked(v, st2, 0, -1);
    assert(0 <= a.free_blocks <= u64::MAX && a.free_inodes <= u32::MAX) by {
        reveal(books);
    }
}

} // verus!
