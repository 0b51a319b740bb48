//! What making a directory takes, removing it gives back.
use crate::allocator::{
    group_first_block, inode_planned, law_planned_inode_is_free, law_planned_run_is_free, lemma_group_blocks,
};
use crate::attr::inode_at;
use crate::bgd::{BLOCK_UNINIT, INODE_UNINIT};
use crate::bitmap::{bit_free, law_release_undoes_mark, with_bit, with_bits};
use crate::block_io::{block_at, lemma_with_block};
use crate::books::{
    books, books_apart, held, lemma_books_same, lemma_counters_booked, lemma_free_blocks_booked, lemma_free_inode_booked,
    lemma_mark_blocks_booked, lemma_mark_inode_booked, lemma_totals_booked, with_bitmap, with_counts, with_totals, Books,
};
use crate::commit::committed;
use crate::content_laws::record_block;
use crate::create_laws::roomy_records;
use crate::dir::{record_at, remove_from, DirEntryType};
use crate::dirops::{
    dir_blocks, dir_restamped, find_entry, parent_and_base, stage_add_entry, stage_remove_from, tail_of,
};
use crate::error::Error;
use crate::extent::{extents_of, Extent, ExtentHeader, EXT4_EXT_MAGIC};
use crate::extent_mut::{law_node_round_trip, leaf_of};
use crate::file_mut::{runs_total, stage_free_runs};
use crate::frame_laws::is_meta;
use crate::fs::{checked_inode, file_block, keeps_types};
use crate::grow::{
    bitmaps_of, dots_block, home_group, stage_block_plan, stage_fresh, stage_inode_plan, volume_plan,
};
use crate::inode::{block_area_of, flags_of, generation_of, links_of, FL_EXTENTS};
use crate::inode_edit::{dead_inode, first_block_extent, moved_links, new_dir_inode, root_with};
use crate::link_laws::{lemma_checked, lemma_dir_record, lemma_dots_len, lemma_relinked, relinked_record, slots_differ};
use crate::mkdir_laws::{law_new_directory_is_at_its_path, lemma_new_dir_staged, new_dir_block};
use crate::name_laws::{
    dir_holds, lemma_dir_stands, lemma_edited_dir, lemma_entered_in, lemma_moved_beside, lemma_moved_record,
    lemma_path_steps, lemma_way_slots, moved, own_slot, quiet, way_in,
};
use crate::names::{dir_runs, extent_runs, free_name, made_dir, new_dir_stage, rmdir_stage, stage_links, stage_reap};
use crate::reach_laws::{lemma_dir_beside, slot_block};
use crate::stage::{
    bit_of_inode, group_of_block, group_of_inode, stage_counters, stage_free_blocks, stage_free_inode, stage_inode,
    stage_mark_blocks, stage_mark_inode, stage_totals,
};
use crate::superblock::Superblock;
use crate::volume::{fresh_stage, stage_block, Stage, Vol};
use vstd::prelude::*;

verus! {

/// The books with a directory's inode and block taken: the inode is bit `ib`
/// of group `gi`, the block bit `bb` of group `gj`.
#[verifier::opaque]
pub open spec fn taken(sb: Superblock, k: Books, gi: int, ib: int, gj: int, bb: int) -> Books {
    let k1 = with_bitmap(k, gi, true, with_bit(k.inode_bits[gi]->Ok_0, ib, true));
    let k2 = with_totals(with_counts(sb, k1, gi, 0, -1, 1), 0, -1);
    let k3 = with_bitmap(k2, gj, false, with_bits(k2.block_bits[gj]->Ok_0, bb, 1, true));
    with_totals(with_counts(sb, k3, gj, -1, 0, 0), -1, 0)
}

/// The books with such an inode and block given back.
#[verifier::opaque]
pub open spec fn given_back(sb: Superblock, k: Books, gi: int, ib: int, gj: int, bb: int) -> Books {
    let k1 = with_bitmap(k, gj, false, with_bits(k.block_bits[gj]->Ok_0, bb, 1, false));
    let k2 = with_counts(sb, k1, gj, 1, 0, 0);
    let k3 = with_bitmap(k2, gi, true, with_bit(k2.inode_bits[gi]->Ok_0, ib, false));
    let k4 = with_counts(sb, k3, gi, 0, 1, 0);
    with_totals(with_counts(sb, k4, gi, 0, 0, -1), 1, 1)
}

/// The most that a descriptor can count.
pub open spec fn most_counted(sb: Superblock) -> int {
    if sb.desc_size >= 0x40 {
        0xFFFF_FFFF
    } else {
        0xFFFF
    }
}

/// The books count a free inode in group `gi` and a free block in group `gj`,
/// and have room for one directory more.
pub open spec fn room_counted(sb: Superblock, k: Books, gi: int, gj: int) -> bool {
    &&& k.counts[gi].inodes >= 1
    &&& k.counts[gi].dirs < most_counted(sb)
    &&& k.counts[gj].blocks >= 1
    &&& k.free_blocks >= 1
    &&& k.free_inodes >= 1
}

/// The bitmaps of group `gi`'s inodes and of group `gj`'s blocks were written
/// before, on the device and in the snapshot.
pub open spec fn both_written(v: Vol, gi: int, gj: int) -> bool {
    &&& books(v, v.img).counts[gi].flags & INODE_UNINIT == 0
    &&& books(v, v.img).counts[gj].flags & BLOCK_UNINIT == 0
    &&& !v.groups[gi].inodes_uninit()
    &&& !v.groups[gj].blocks_uninit()
}

/// Giving back undoes taking.
proof fn lemma_given_back(sb: Superblock, k: Books, gi: int, ib: int, gj: int, bb: int)
    requires
        0 <= gi < k.counts.len(),
        0 <= gj < k.counts.len(),
        k.inode_bits.len() == k.counts.len(),
        k.block_bits.len() == k.counts.len(),
        k.inode_bits[gi] is Ok,
        k.block_bits[gj] is Ok,
        bit_free(k.inode_bits[gi]->Ok_0, ib),
        bit_free(k.block_bits[gj]->Ok_0, bb),
        room_counted(sb, k, gi, gj),
        forall|g: int|
            0 <= g < k.counts.len() ==> 0 <= (#[trigger] k.counts[g]).blocks <= most_counted(sb) && 0
                <= k.counts[g].inodes <= most_counted(sb) && 0 <= k.counts[g].dirs <= most_counted(sb),
        k.free_blocks <= 0xFFFF_FFFF_FFFF_FFFF,
        k.free_inodes <= 0xFFFF_FFFF,
    ensures
        given_back(sb, taken(sb, k, gi, ib, gj, bb), gi, ib, gj, bb) == k,
{
    reveal(taken);
    reveal(given_back);
    let ibm = k.inode_bits[gi]->Ok_0;
    let bbm = k.block_bits[gj]->Ok_0;
    law_release_undoes_mark(ibm, ib, 1);
    law_release_undoes_mark(bbm, bb, 1);
    reveal_with_fuel(with_bits, 2);
    assert(with_bits(ibm, ib, 1, true) == with_bit(ibm, ib, true));
    assert(with_bits(with_bit(ibm, ib, true), ib, 1, false) == with_bit(with_bit(ibm, ib, true), ib, false));
    let t = taken(sb, k, gi, ib, gj, bb);
    let r = given_back(sb, t, gi, ib, gj, bb);
    assert(r.block_bits =~= k.block_bits);
    assert(r.inode_bits =~= k.inode_bits);
    lemma_counts_back(sb, k, gi, ib, gj, bb);
}

/// The counters come back to what they were.
proof fn lemma_counts_back(sb: Superblock, k: Books, gi: int, ib: int, gj: int, bb: int)
    requires
        0 <= gi < k.counts.len(),
        0 <= gj < k.counts.len(),
        room_counted(sb, k, gi, gj),
        0 <= k.counts[gi].blocks <= most_counted(sb) && 0 <= k.counts[gi].inodes <= most_counted(sb) && 0
            <= k.counts[gi].dirs,
        0 <= k.counts[gj].blocks <= most_counted(sb) && 0 <= k.counts[gj].inodes <= most_counted(sb) && 0
            <= k.counts[gj].dirs <= most_counted(sb),
        k.free_blocks <= 0xFFFF_FFFF_FFFF_FFFF,
        k.free_inodes <= 0xFFFF_FFFF,
    ensures
        ({
            let r = given_back(sb, taken(sb, k, gi, ib, gj, bb), gi, ib, gj, bb);
            r.counts == k.counts && r.free_blocks == k.free_blocks && r.free_inodes == k.free_inodes
        }),
{
    reveal(taken);
    reveal(given_back);
    assert forall|n: int| 0 <= n <= most_counted(sb) implies #[trigger] held(sb, n) == n by {
        reveal(held);
    }
    let r = given_back(sb, taken(sb, k, gi, ib, gj, bb), gi, ib, gj, bb);
    if gi == gj {
        assert(r.counts[gi] == k.counts[gi]);
    } else {
        assert(r.counts[gi] == k.counts[gi]);
        assert(r.counts[gj] == k.counts[gj]);
    }
    assert(r.counts =~= k.counts);
}

/// What the books hold is in range.
proof fn lemma_books_range(v: Vol, img: Seq<u8>)
    ensures
        ({
            let k = books(v, img);
            &&& k.inode_bits.len() == k.counts.len() == k.block_bits.len() == v.groups.len()
            &&& forall|g: int|
                0 <= g < k.counts.len() ==> 0 <= (#[trigger] k.counts[g]).blocks <= most_counted(v.sb) && 0
                    <= k.counts[g].inodes <= most_counted(v.sb) && 0 <= k.counts[g].dirs <= most_counted(v.sb)
            &&& k.free_blocks <= 0xFFFF_FFFF_FFFF_FFFF
            &&& k.free_inodes <= 0xFFFF_FFFF
        }),
{
    reveal(books);
}

/// The books are the same whatever else of a volume differs.
proof fn lemma_books_of(v: Vol, w: Vol, img: Seq<u8>)
    requires
        w.sb == v.sb,
        w.groups == v.groups,
    ensures
        books(w, img) == books(v, img),
        books_apart(w) == books_apart(v),
{
    reveal(books);
    reveal(books_apart);
    assert(books(w, img).counts =~= books(v, img).counts);
    assert(books(w, img).block_bits =~= books(v, img).block_bits);
    assert(books(w, img).inode_bits =~= books(v, img).inode_bits);
}

/// A block that is no bookkeeping, replaced.
proof fn lemma_other_booked(v: Vol, st: Stage, n: int, b: Seq<u8>)
    requires
        v.wf(),
        n >= 0,
        !is_meta(v, n),
        block_at(st.img, v.bs(), n) is Ok,
        b.len() == v.bs(),
    ensures
        books(v, stage_block(v, st, n, b).img) == books(v, st.img),
{
    let after = stage_block(v, st, n, b);
    assert forall|k: int| k >= 0 && is_meta(v, k) implies #[trigger] block_at(after.img, v.bs(), k) == block_at(
        st.img,
        v.bs(),
        k,
    ) by {
        lemma_with_block(st.img, v.bs(), n, b, k);
    }
    lemma_books_same(v, st.img, after.img);
}

/// A record replaced.
pub(crate) proof fn lemma_record_booked(v: Vol, st: Stage, ino: u32, raw: Seq<u8>)
    requires
        v.wf(),
        !is_meta(v, record_block(v, ino)),
        stage_inode(v, st, ino, raw) is Ok,
    ensures
        books(v, stage_inode(v, st, ino, raw)->Ok_0.img) == books(v, st.img),
        stage_inode(v, st, ino, raw)->Ok_0.cleared == st.cleared,
{
    let n = record_block(v, ino);
    let off = crate::bgd::inode_place(v.sb, v.groups, ino)->Ok_0.1 as int;
    let b = block_at(st.img, v.bs(), n)->Ok_0;
    lemma_other_booked(v, st, n, crate::bytes::splice(b, off, raw));
}

/// Where a new directory in `parent` gets its inode and its block: the group
/// and the bit of each.
#[verifier::opaque]
pub open spec fn dir_places(v: Vol, parent: u32) -> (int, int, int, int) {
    let iplan = inode_planned(v.sb, v.groups, true, home_group(v, parent), bitmaps_of(v))->Ok_0;
    let bplan = volume_plan(v, 1, iplan.bgd.group_idx, Seq::empty())->Ok_0;
    (
        iplan.bgd.group_idx as int,
        iplan.bitmap.bit_start as int,
        bplan.bgd.group_idx as int,
        bplan.bitmap.bit_start as int,
    )
}

/// Where a new directory's inode and block are, and that they are free.
proof fn lemma_dir_places(v: Vol, parent: u32, mode: u16, now: u32, generation: u32)
    requires
        v.wf(),
        new_dir_stage(v, parent, mode, now, generation) is Ok,
        both_written(v, dir_places(v, parent).0, dir_places(v, parent).2),
    ensures
        ({
            let ino = new_dir_stage(v, parent, mode, now, generation)->Ok_0.1;
            let phys = new_dir_block(v, parent);
            placed(v, ino, phys, dir_places(v, parent))
        }),
{
    reveal(placed);
    reveal(books);
    reveal(new_dir_stage);
    reveal(new_dir_block);
    reveal(dir_places);
    let hint = home_group(v, parent);
    law_planned_inode_is_free(v.sb, v.groups, true, hint, bitmaps_of(v));
    let iplan = inode_planned(v.sb, v.groups, true, hint, bitmaps_of(v))->Ok_0;
    law_planned_run_is_free(v.sb, v.groups, 1, iplan.bgd.group_idx, Seq::empty(), bitmaps_of(v));
    let (gi, ib, gj, bb) = dir_places(v, parent);
    let ino = iplan.inode;
    let phys = new_dir_block(v, parent);
    let ipg = v.sb.inodes_per_group as int;
    let bpg = v.sb.blocks_per_group as int;
    lemma_group_blocks(v.sb, gj);
    assert(ino - 1 == gi * ipg + ib);
    assert((ino - 1) / ipg == gi && (ino - 1) % ipg == ib) by {
        vstd::arithmetic::div_mod::lemma_fundamental_div_mod_converse(ino - 1, ipg, gi, ib);
    }
    assert(phys - v.sb.first_data_block == gj * bpg + bb);
    assert((phys - v.sb.first_data_block) / bpg == gj) by {
        vstd::arithmetic::div_mod::lemma_fundamental_div_mod_converse(phys - v.sb.first_data_block, bpg, gj, bb);
    }
    assert(gj * bpg >= 0) by (nonlinear_arith)
        requires
            gj >= 0,
            bpg > 0,
    ;
    let k = books(v, v.img);
    assert(k.inode_bits[gi] == v.block(v.groups[gi].inode_bitmap as int));
    assert(k.block_bits[gj] == v.block(v.groups[gj].block_bitmap as int));
}

/// A new directory takes one inode and one block.
#[verifier::rlimit(40)]
proof fn lemma_new_dir_booked(v: Vol, parent: u32, mode: u16, now: u32, generation: u32)
    requires
        v.wf(),
        books_apart(v),
        new_dir_stage(v, parent, mode, now, generation) is Ok,
        both_written(v, dir_places(v, parent).0, dir_places(v, parent).2),
        !is_meta(v, new_dir_block(v, parent) as int),
        !is_meta(v, record_block(v, new_dir_stage(v, parent, mode, now, generation)->Ok_0.1)),
    ensures
        ({
            let st = new_dir_stage(v, parent, mode, now, generation)->Ok_0.0;
            let (gi, ib, gj, bb) = dir_places(v, parent);
            &&& books(v, st.img) == taken(v.sb, books(v, v.img), gi, ib, gj, bb)
            &&& st.cleared == Seq::<(usize, u16)>::empty()
        }),
{
    reveal(placed);
    reveal(taken);
    lemma_dir_places(v, parent, mode, now, generation);
    reveal(new_dir_stage);
    reveal(new_dir_block);
    reveal(dir_places);
    let hint = home_group(v, parent);
    law_planned_inode_is_free(v.sb, v.groups, true, hint, bitmaps_of(v));
    let iplan = inode_planned(v.sb, v.groups, true, hint, bitmaps_of(v))->Ok_0;
    law_planned_run_is_free(v.sb, v.groups, 1, iplan.bgd.group_idx, Seq::empty(), bitmaps_of(v));
    let bplan = volume_plan(v, 1, iplan.bgd.group_idx, Seq::empty())->Ok_0;
    let (gi, ib, gj, bb) = dir_places(v, parent);
    let ino = iplan.inode;
    let phys = bplan.first_block;
    let start = fresh_stage(v);
    let k = books(v, v.img);
    lemma_mark_inode_booked(v, start, ino);
    let a1 = stage_mark_inode(v, start, ino)->Ok_0;
    lemma_counters_booked(v, a1, gi, 0, -1, 1);
    let a2 = stage_counters(v, a1, gi, 0, -1, 1)->Ok_0;
    lemma_totals_booked(v, a2, 0, -1);
    let a3 = stage_totals(v, a2, 0, -1)->Ok_0;
    assert(stage_inode_plan(v, start, iplan) == Ok::<Stage, Error>(a3));
    let k2 = books(v, a3.img);
    lemma_books_range(v, v.img);
    assert(k2.counts[gj].flags == k.counts[gj].flags);
    lemma_mark_blocks_booked(v, a3, phys, 1);
    let b1 = stage_mark_blocks(v, a3, phys, 1)->Ok_0;
    lemma_counters_booked(v, b1, gj, -1, 0, 0);
    let b2 = stage_counters(v, b1, gj, -1, 0, 0)->Ok_0;
    lemma_totals_booked(v, b2, -1, 0);
    let b3 = stage_totals(v, b2, -1, 0)->Ok_0;
    assert(stage_block_plan(v, a3, bplan) == Ok::<Stage, Error>(b3));
    let rec = new_dir_inode(v, ino, mode, phys, now, generation);
    lemma_record_booked(v, b3, ino, rec);
    let c1 = stage_inode(v, b3, ino, rec)->Ok_0;
    let dots = dots_block(v, ino, parent, generation);
    lemma_dots_len(v, ino, parent, generation);
    lemma_fresh_booked(v, c1, phys, dots);
}

/// A block built from scratch, where no bookkeeping is.
proof fn lemma_fresh_booked(v: Vol, st: Stage, n: u64, b: Seq<u8>)
    requires
        v.wf(),
        !is_meta(v, n as int),
        stage_fresh(v, st, n, b) is Ok,
        st.img.len() == v.img.len(),
        b.len() == v.bs(),
    ensures
        books(v, stage_fresh(v, st, n, b)->Ok_0.img) == books(v, st.img),
        stage_fresh(v, st, n, b)->Ok_0.cleared == st.cleared,
{
    lemma_other_booked(v, st, n as int, b);
}

/// A directory of one block gives back its inode and that block.
proof fn lemma_reap_booked(v: Vol, ino: u32, raw: Seq<u8>, phys: u64, now: u32, gi: int, ib: int, gj: int, bb: int)
    requires
        v.wf(),
        books_apart(v),
        !is_meta(v, record_block(v, ino)),
        0 <= gi < v.groups.len(),
        group_of_inode(v, ino) == Some(gi),
        home_group(v, ino) == gi,
        bit_of_inode(v, ino) == ib,
        group_of_block(v, phys) == Some(gj),
        phys - group_first_block(v.sb, gj) == bb,
        stage_reap(v, fresh_stage(v), ino, raw, seq![(phys, 1u32)], true, now) is Ok,
    ensures
        ({
            let st = stage_reap(v, fresh_stage(v), ino, raw, seq![(phys, 1u32)], true, now)->Ok_0;
            &&& books(v, st.img) == given_back(v.sb, books(v, v.img), gi, ib, gj, bb)
            &&& st.cleared == Seq::<(usize, u16)>::empty()
        }),
{
    reveal(given_back);
    let start = fresh_stage(v);
    let runs = seq![(phys, 1u32)];
    assert(runs.drop_last() =~= Seq::<(u64, u32)>::empty());
    reveal_with_fuel(stage_free_runs, 2);
    reveal_with_fuel(runs_total, 2);
    assert(runs_total(runs) == 1);
    assert(stage_free_runs(v, start, runs) == stage_free_blocks(v, start, phys, 1));
    lemma_free_blocks_booked(v, start, phys, 1);
    let st1 = stage_free_blocks(v, start, phys, 1)->Ok_0;
    lemma_free_inode_booked(v, st1, ino);
    let st2 = stage_free_inode(v, st1, ino)->Ok_0;
    lemma_counters_booked(v, st2, gi, 0, 0, -1);
    let st3 = stage_counters(v, st2, gi, 0, 0, -1)->Ok_0;
    lemma_totals_booked(v, st3, 1, 1);
    let st4 = stage_totals(v, st3, 1, 1)->Ok_0;
    lemma_record_booked(v, st4, ino, dead_inode(v, ino, generation_of(raw), now));
}

/// The one run of data that a new directory holds.
proof fn lemma_new_dir_runs(v: Vol, rec: Seq<u8>, phys: u64)
    requires
        phys < 0x1_0000_0000_0000,
        flags_of(rec) == FL_EXTENTS,
        block_area_of(rec) == root_with(seq![first_block_extent(phys)]),
    ensures
        dir_runs(v, rec) == Ok::<Seq<(u64, u32)>, Error>(seq![(phys, 1u32)]),
{
    let e = first_block_extent(phys);
    let h = ExtentHeader { magic: EXT4_EXT_MAGIC, entries: 0, max: 4, depth: 0, generation: 0 };
    law_node_round_trip(h, seq![e], 60);
    let root = root_with(seq![e]);
    assert(leaf_of(root)->Ok_0.1 == seq![e]);
    assert(0x80000u32 & 0x80000u32 != 0) by (bit_vector);
    assert(extents_of(v.img, v.bs(), root) == Ok::<Seq<Extent>, Error>(seq![e]));
    assert(extent_runs(seq![e]) =~= seq![(phys, 1u32)]);
}

/// Taking an entry out of a block leaves the block its size.
proof fn lemma_remove_len(block: Seq<u8>, prev: Option<int>, at: int, end: int, name: Seq<u8>, has_ft: bool)
    requires
        0 <= at,
        end <= block.len(),
        prev matches Some(p) ==> 0 <= p && p + 8 <= block.len(),
        remove_from(block, prev, at, end, name, has_ft) is Ok,
        remove_from(block, prev, at, end, name, has_ft)->Ok_0 is Some,
    ensures
        remove_from(block, prev, at, end, name, has_ft)->Ok_0->Some_0.len() == block.len(),
    decreases end - at,
{
    broadcast use crate::bytes::group_fields;

    let rec = record_at(block, at, end, has_ft)->Ok_0;
    if !(rec.inode != 0 && rec.name == name) {
        lemma_remove_len(block, Some(at), at + rec.rec_len, end, name, has_ft);
    }
}

/// A name taken out of a directory whose blocks hold no bookkeeping.
pub(crate) proof fn lemma_removal_booked(v: Vol, st: Stage, ino: u32, raw: Seq<u8>, name: Seq<u8>, l: int)
    requires
        v.wf(),
        0 <= l,
        forall|m: int|
            0 <= m < dir_blocks(v, raw) ==> ((#[trigger] file_block(v, raw, m)) matches Ok(Some(p)) ==> !is_meta(
                v,
                p as int,
            )),
        stage_remove_from(v, st, ino, raw, name, l) is Ok,
    ensures
        books(v, stage_remove_from(v, st, ino, raw, name, l)->Ok_0.img) == books(v, st.img),
        stage_remove_from(v, st, ino, raw, name, l)->Ok_0.cleared == st.cleared,
    decreases dir_blocks(v, raw) - l,
{
    broadcast use crate::bytes::group_fields;

    match file_block(v, raw, l)->Ok_0 {
        None => {
            lemma_removal_booked(v, st, ino, raw, name, l + 1);
        },
        Some(p) => {
            let b = block_at(st.img, v.bs(), p as int)->Ok_0;
            let end = b.len() - tail_of(v, b);
            match remove_from(b, None, 0, end, name, keeps_types(v))->Ok_0 {
                None => {
                    lemma_removal_booked(v, st, ino, raw, name, l + 1);
                },
                Some(out) => {
                    lemma_remove_len(b, None, 0, end, name, keeps_types(v));
                    lemma_other_booked(v, st, p as int, dir_restamped(v, ino, raw, tail_of(v, b), out));
                },
            }
        },
    }
}

/// The parent of a new directory keeps its blocks where they were, and they
/// hold no bookkeeping.
#[verifier::rlimit(40)]
proof fn lemma_parent_clear(v: Vol, path: Seq<u8>, mode: u16, now: u32, generation: u32)
    requires
        v.wf(),
        roomy_records(v),
        free_name(v, path) is Ok,
        new_dir_stage(v, free_name(v, path)->Ok_0.0, mode, now, generation) is Ok,
        ({
            let (parent, raw, name) = free_name(v, path)->Ok_0;
            let (st, ino) = new_dir_stage(v, parent, mode, now, generation)->Ok_0;
            let phys = new_dir_block(v, parent);
            let slots = seq![own_slot(v, ino), own_slot(v, parent)];
            let st1 = stage_add_entry(v, st, parent, raw, name, ino, DirEntryType::Directory);
            &&& way_in(v, slots, seq![phys], parent_and_base(path)->Ok_0.0, parent, raw)
            &&& st1 is Ok
            &&& stage_links(v, st1->Ok_0, parent, raw, 1) is Ok
        }),
    ensures
        ({
            let (parent, raw, name) = free_name(v, path)->Ok_0;
            let w = made_dir(v, path, mode, now, generation).0;
            let after = relinked_record(v, parent, raw, 1);
            dir_beside(v, w, after)
        }),
{
    reveal(dir_beside);
    let (parent, raw, name) = free_name(v, path)->Ok_0;
    let (st, ino) = new_dir_stage(v, parent, mode, now, generation)->Ok_0;
    let phys = new_dir_block(v, parent);
    let slots = seq![own_slot(v, ino), own_slot(v, parent)];
    let new = seq![phys];
    let start = fresh_stage(v);
    let after = relinked_record(v, parent, raw, 1);
    lemma_way_slots(v, slots, new, parent_and_base(path)->Ok_0.0, parent, raw);
    lemma_new_dir_staged(v, parent, mode, now, generation, slots);
    let p = lemma_entered_in(v, st, slots, new, path, parent, raw, ino, DirEntryType::Directory);
    let mid = stage_add_entry(v, st, parent, raw, name, ino, DirEntryType::Directory)->Ok_0;
    let fin = stage_links(v, mid, parent, raw, 1)->Ok_0;
    let w = committed(v, fin);
    lemma_relinked(v, parent, raw, 1);
    lemma_moved_record(v, mid, parent, after, slots, new, 1);
    let safe = quiet(v, slots, new);
    reveal(way_in);
    assert(committed(v, start) == v);
    lemma_dir_stands(v, start, st, slots, new, parent, raw);
    let m = choose|m: int|
        0 <= m < dir_blocks(v, raw) && (#[trigger] file_block(v, raw, m)) == Ok::<Option<u64>, Error>(
            Some(p as int as u64),
        );
    assert(dir_holds(v, raw, p as int));
    assert(file_block(v, raw, m) == Ok::<Option<u64>, Error>(Some(p)));
    lemma_edited_dir(v, st, mid, slots, new, raw, m, p);
    lemma_moved_beside(v, mid, fin, slots, new);
    lemma_dir_beside(committed(v, mid), w, safe, safe, slots, raw);
    assert forall|l: int| 0 <= l < dir_blocks(w, after) implies ((#[trigger] file_block(w, after, l)) matches Ok(Some(q))
        ==> !is_meta(v, q as int)) by {
        assert(file_block(w, after, l) == file_block(w, raw, l));
        if let Ok(Some(q)) = file_block(w, raw, l) {
            assert(safe(q as int));
        }
    }
}

/// A name entered in a directory whose blocks hold no bookkeeping.
proof fn lemma_entry_booked(
    v: Vol,
    st: Stage,
    slots: Seq<(int, int)>,
    new: Seq<u64>,
    path: Seq<u8>,
    parent: u32,
    raw: Seq<u8>,
    target: u32,
)
    requires
        parent_and_base(path) is Ok,
        way_in(v, slots, new, parent_and_base(path)->Ok_0.0, parent, raw),
        moved(v, fresh_stage(v), st, slots, new),
        parent_and_base(path)->Ok_0.1.len() <= 255,
        target != 0,
        find_entry(v, parent, raw, parent_and_base(path)->Ok_0.1) == Err::<u32, Error>(Error::NotFound),
        stage_add_entry(v, st, parent, raw, parent_and_base(path)->Ok_0.1, target, DirEntryType::Directory) is Ok,
    ensures
        ({
            let name = parent_and_base(path)->Ok_0.1;
            let after = stage_add_entry(v, st, parent, raw, name, target, DirEntryType::Directory)->Ok_0;
            &&& books(v, after.img) == books(v, st.img)
            &&& after.cleared == st.cleared
        }),
{
    let name = parent_and_base(path)->Ok_0.1;
    let p = lemma_entered_in(v, st, slots, new, path, parent, raw, target, DirEntryType::Directory);
    let after = stage_add_entry(v, st, parent, raw, name, target, DirEntryType::Directory)->Ok_0;
    reveal(way_in);
    assert(dir_holds(v, raw, p as int));
    assert(!is_meta(v, p as int)) by {
        let l = choose|l: int|
            0 <= l < dir_blocks(v, raw) && (#[trigger] file_block(v, raw, l)) == Ok::<
                Option<u64>,
                Error,
            >(Some(p as int as u64));
        let safe = quiet(v, slots, new);
        assert(file_block(v, raw, l) == Ok::<Option<u64>, Error>(Some(p)));
        assert(safe(p as int));
    }
    lemma_books_same(v, st.img, after.img);
}

/// The books once a directory was made: its inode and its block are taken.
#[verifier::rlimit(40)]
proof fn lemma_made_booked(v: Vol, path: Seq<u8>, mode: u16, now: u32, generation: u32)
    requires
        v.wf(),
        roomy_records(v),
        books_apart(v),
        free_name(v, path) is Ok,
        new_dir_stage(v, free_name(v, path)->Ok_0.0, mode, now, generation) is Ok,
        ({
            let (parent, raw, name) = free_name(v, path)->Ok_0;
            let (st, ino) = new_dir_stage(v, parent, mode, now, generation)->Ok_0;
            let phys = new_dir_block(v, parent);
            let slots = seq![own_slot(v, ino), own_slot(v, parent)];
            let st1 = stage_add_entry(v, st, parent, raw, name, ino, DirEntryType::Directory);
            &&& way_in(v, slots, seq![phys], parent_and_base(path)->Ok_0.0, parent, raw)
            &&& st1 is Ok
            &&& stage_links(v, st1->Ok_0, parent, raw, 1) is Ok
            &&& !is_meta(v, phys as int)
            &&& both_written(v, dir_places(v, parent).0, dir_places(v, parent).2)
        }),
    ensures
        ({
            let (parent, raw, name) = free_name(v, path)->Ok_0;
            taken_from(v, made_dir(v, path, mode, now, generation).0, dir_places(v, parent))
        }),
{
    reveal(taken_from);
    let (parent, raw, name) = free_name(v, path)->Ok_0;
    let (st, ino) = new_dir_stage(v, parent, mode, now, generation)->Ok_0;
    let phys = new_dir_block(v, parent);
    let slots = seq![own_slot(v, ino), own_slot(v, parent)];
    let new = seq![phys];
    lemma_way_slots(v, slots, new, parent_and_base(path)->Ok_0.0, parent, raw);
    assert(slot_block(slots, slots[0].0));
    assert(slot_block(slots, slots[1].0));
    lemma_new_dir_booked(v, parent, mode, now, generation);
    lemma_new_dir_staged(v, parent, mode, now, generation, slots);
    lemma_entry_booked(v, st, slots, new, path, parent, raw, ino);
    let st1 = stage_add_entry(v, st, parent, raw, name, ino, DirEntryType::Directory)->Ok_0;
    let p = lemma_entered_in(v, st, slots, new, path, parent, raw, ino, DirEntryType::Directory);
    lemma_record_booked(v, st1, parent, relinked_record(v, parent, raw, 1));
}

/// A directory that was made and removed again leaves the books as they were:
/// each group's bitmaps and counters, and the totals; and its parent has the
/// links it had. The parent is in good order and had room for the entry: one
/// that grows for it keeps the block. The bitmaps that were changed had been
/// written before: one that never was is written for the first time, and its
/// group is no longer marked as fresh. The bitmaps lie in blocks of their own,
/// away from the records and the new block: two that share one overwrite each
/// other. The counters had room for the change, as one stops at nothing and at
/// the most that it can hold, and the parent had fewer than 65535 links: one
/// more than those is written as none.
#[verifier::rlimit(40)]
pub proof fn law_removing_a_new_directory_undoes_making_it(
    v: Vol,
    path: Seq<u8>,
    mode: u16,
    now: u32,
    generation: u32,
    later: u32,
)
    requires
        v.wf(),
        roomy_records(v),
        books_apart(v),
        free_name(v, path) is Ok,
        new_dir_stage(v, free_name(v, path)->Ok_0.0, mode, now, generation) is Ok,
        ({
            let (parent, raw, name) = free_name(v, path)->Ok_0;
            let (st, ino) = new_dir_stage(v, parent, mode, now, generation)->Ok_0;
            let phys = new_dir_block(v, parent);
            let slots = seq![own_slot(v, ino), own_slot(v, parent)];
            let st1 = stage_add_entry(v, st, parent, raw, name, ino, DirEntryType::Directory);
            let (gi, ib, gj, bb) = dir_places(v, parent);
            &&& way_in(v, slots, seq![phys], parent_and_base(path)->Ok_0.0, parent, raw)
            &&& slots_differ(own_slot(v, parent), own_slot(v, ino), v.sb.inode_size as int)
            &&& st1 is Ok
            &&& stage_links(v, st1->Ok_0, parent, raw, 1) is Ok
            &&& !is_meta(v, phys as int)
            &&& both_written(v, gi, gj)
            &&& room_counted(v.sb, books(v, v.img), gi, gj)
            &&& links_of(raw) < 0xFFFF
        }),
        rmdir_stage(made_dir(v, path, mode, now, generation).0, path, later) is Ok,
    ensures
        ({
            let (parent, raw, name) = free_name(v, path)->Ok_0;
            let w = made_dir(v, path, mode, now, generation).0;
            let u = committed(w, rmdir_stage(w, path, later)->Ok_0);
            &&& books(v, u.img) == books(v, v.img)
            &&& u.groups == v.groups
            &&& checked_inode(u, parent) is Ok
            &&& links_of(checked_inode(u, parent)->Ok_0) == links_of(raw)
        }),
{
    let (parent, raw, name) = free_name(v, path)->Ok_0;
    let ino = new_dir_stage(v, parent, mode, now, generation)->Ok_0.1;
    let phys = new_dir_block(v, parent);
    let w = made_dir(v, path, mode, now, generation).0;
    let after = relinked_record(v, parent, raw, 1);
    let rec = new_dir_inode(v, ino, mode, phys, now, generation);
    lemma_made_booked(v, path, mode, now, generation);
    lemma_made_found(v, path, mode, now, generation);
    lemma_parent_clear(v, path, mode, now, generation);
    lemma_dir_places(v, parent, mode, now, generation);
    lemma_slots_beside(v, parent_and_base(path)->Ok_0.0, parent, raw, ino, seq![phys]);
    lemma_undone(v, w, path, parent, after, ino, rec, phys, later, dir_places(v, parent));
    lemma_links_back(v, parent, raw);
}

/// A link more and a link less.
proof fn lemma_links_back(v: Vol, parent: u32, raw: Seq<u8>)
    requires
        v.wf(),
        checked_inode(v, parent) == Ok::<Seq<u8>, Error>(raw),
        links_of(raw) < 0xFFFF,
    ensures
        moved_links(links_of(relinked_record(v, parent, raw, 1)), -1) == links_of(raw),
{
    lemma_relinked(v, parent, raw, 1);
}

/// The two records that change hold no bookkeeping.
proof fn lemma_slots_beside(v: Vol, parent_path: Seq<u8>, parent: u32, raw: Seq<u8>, ino: u32, new: Seq<u64>)
    requires
        way_in(v, seq![own_slot(v, ino), own_slot(v, parent)], new, parent_path, parent, raw),
    ensures
        !is_meta(v, record_block(v, ino)),
        !is_meta(v, record_block(v, parent)),
{
    let slots = seq![own_slot(v, ino), own_slot(v, parent)];
    lemma_way_slots(v, slots, new, parent_path, parent, raw);
    assert(slot_block(slots, slots[0].0));
    assert(slot_block(slots, slots[1].0));
}

/// Inode `ino` and block `phys` are at the bits `at`, and free.
#[verifier::opaque]
spec fn placed(v: Vol, ino: u32, phys: u64, at: (int, int, int, int)) -> bool {
    let k = books(v, v.img);
    &&& 0 <= at.0 < v.groups.len()
    &&& 0 <= at.2 < v.groups.len()
    &&& group_of_inode(v, ino) == Some(at.0)
    &&& home_group(v, ino) == at.0
    &&& bit_of_inode(v, ino) == at.1
    &&& group_of_block(v, phys) == Some(at.2)
    &&& phys - group_first_block(v.sb, at.2) == at.3
    &&& k.inode_bits[at.0] is Ok
    &&& k.block_bits[at.2] is Ok
    &&& bit_free(k.inode_bits[at.0]->Ok_0, at.1)
    &&& bit_free(k.block_bits[at.2]->Ok_0, at.3)
}

/// On `w` the directory `ino`, with record `rec` and one block, is at its path.
#[verifier::opaque]
pub(crate) open spec fn one_block_dir(w: Vol, path: Seq<u8>, parent: u32, praw: Seq<u8>, ino: u32, rec: Seq<u8>, phys: u64) -> bool {
    &&& parent_and_base(path) is Ok
    &&& inode_at(w, parent_and_base(path)->Ok_0.0) == Ok::<(u32, Seq<u8>), Error>((parent, praw))
    &&& find_entry(w, parent, praw, parent_and_base(path)->Ok_0.1) == Ok::<u32, Error>(ino)
    &&& checked_inode(w, ino) == Ok::<Seq<u8>, Error>(rec)
    &&& dir_runs(w, rec) == Ok::<Seq<(u64, u32)>, Error>(seq![(phys, 1u32)])
}

/// No block of a directory of `w` holds bookkeeping of `v`.
#[verifier::opaque]
spec fn dir_beside(v: Vol, w: Vol, raw: Seq<u8>) -> bool {
    forall|m: int|
        0 <= m < dir_blocks(w, raw) ==> ((#[trigger] file_block(w, raw, m)) matches Ok(Some(p)) ==> !is_meta(
            v,
            p as int,
        ))
}

/// The volume `w` has the layout of `v`, and its books are those of `v` with an
/// inode and a block taken.
#[verifier::opaque]
spec fn taken_from(v: Vol, w: Vol, at: (int, int, int, int)) -> bool {
    &&& w.wf()
    &&& w.sb == v.sb
    &&& w.groups == v.groups
    &&& books(v, w.img) == taken(v.sb, books(v, v.img), at.0, at.1, at.2, at.3)
}

/// Removing such a directory.
proof fn lemma_undone(
    v: Vol,
    w: Vol,
    path: Seq<u8>,
    parent: u32,
    praw: Seq<u8>,
    ino: u32,
    rec: Seq<u8>,
    phys: u64,
    later: u32,
    at: (int, int, int, int),
)
    requires
        v.wf(),
        books_apart(v),
        placed(v, ino, phys, at),
        taken_from(v, w, at),
        one_block_dir(w, path, parent, praw, ino, rec, phys),
        dir_beside(v, w, praw),
        room_counted(v.sb, books(v, v.img), at.0, at.2),
        !is_meta(v, record_block(v, ino)),
        !is_meta(v, record_block(v, parent)),
        rmdir_stage(w, path, later) is Ok,
    ensures
        ({
            let u = committed(w, rmdir_stage(w, path, later)->Ok_0);
            &&& books(v, u.img) == books(v, v.img)
            &&& u.groups == v.groups
            &&& checked_inode(u, parent) is Ok
            &&& links_of(checked_inode(u, parent)->Ok_0) == moved_links(links_of(praw), -1)
        }),
{
    reveal(placed);
    reveal(taken_from);
    reveal(one_block_dir);
    reveal(dir_beside);
    lemma_removed_booked(v, w, path, parent, praw, ino, rec, phys, later, at.0, at.1, at.2, at.3);
    lemma_books_range(v, v.img);
    lemma_given_back(v.sb, books(v, v.img), at.0, at.1, at.2, at.3);
}

/// What removing a new directory finds.
#[verifier::rlimit(40)]
pub(crate) proof fn lemma_made_found(v: Vol, path: Seq<u8>, mode: u16, now: u32, generation: u32)
    requires
        v.wf(),
        roomy_records(v),
        free_name(v, path) is Ok,
        new_dir_stage(v, free_name(v, path)->Ok_0.0, mode, now, generation) is Ok,
        ({
            let (parent, raw, name) = free_name(v, path)->Ok_0;
            let (st, ino) = new_dir_stage(v, parent, mode, now, generation)->Ok_0;
            let phys = new_dir_block(v, parent);
            let slots = seq![own_slot(v, ino), own_slot(v, parent)];
            let st1 = stage_add_entry(v, st, parent, raw, name, ino, DirEntryType::Directory);
            &&& way_in(v, slots, seq![phys], parent_and_base(path)->Ok_0.0, parent, raw)
            &&& slots_differ(own_slot(v, parent), own_slot(v, ino), v.sb.inode_size as int)
            &&& st1 is Ok
            &&& stage_links(v, st1->Ok_0, parent, raw, 1) is Ok
        }),
    ensures
        ({
            let (parent, raw, name) = free_name(v, path)->Ok_0;
            let ino = new_dir_stage(v, parent, mode, now, generation)->Ok_0.1;
            let phys = new_dir_block(v, parent);
            let w = made_dir(v, path, mode, now, generation).0;
            let after = relinked_record(v, parent, raw, 1);
            let rec = new_dir_inode(v, ino, mode, phys, now, generation);
            one_block_dir(w, path, parent, after, ino, rec, phys)
        }),
{
    reveal(one_block_dir);
    let (parent, raw, name) = free_name(v, path)->Ok_0;
    let parent_path = parent_and_base(path)->Ok_0.0;
    let ino = new_dir_stage(v, parent, mode, now, generation)->Ok_0.1;
    let phys = new_dir_block(v, parent);
    let slots = seq![own_slot(v, ino), own_slot(v, parent)];
    let w = made_dir(v, path, mode, now, generation).0;
    let rec = new_dir_inode(v, ino, mode, phys, now, generation);
    law_new_directory_is_at_its_path(v, path, mode, now, generation);
    lemma_path_steps(w, path);
    lemma_way_slots(v, slots, seq![phys], parent_path, parent, raw);
    lemma_new_dir_staged(v, parent, mode, now, generation, slots);
    lemma_dir_record(v, ino, mode, phys, now, generation);
    lemma_new_dir_runs(w, rec, phys);
}

/// The books once a directory of one block was removed, and its parent's
/// links.
#[verifier::rlimit(40)]
proof fn lemma_removed_booked(
    v: Vol,
    w: Vol,
    path: Seq<u8>,
    parent: u32,
    praw: Seq<u8>,
    ino: u32,
    rec: Seq<u8>,
    phys: u64,
    later: u32,
    gi: int,
    ib: int,
    gj: int,
    bb: int,
)
    requires
        v.wf(),
        w.wf(),
        w.sb == v.sb,
        w.groups == v.groups,
        books_apart(v),
        0 <= gi < v.groups.len(),
        group_of_inode(v, ino) == Some(gi),
        home_group(v, ino) == gi,
        bit_of_inode(v, ino) == ib,
        group_of_block(v, phys) == Some(gj),
        phys - group_first_block(v.sb, gj) == bb,
        !is_meta(v, record_block(v, ino)),
        !is_meta(v, record_block(v, parent)),
        parent_and_base(path) is Ok,
        inode_at(w, parent_and_base(path)->Ok_0.0) == Ok::<(u32, Seq<u8>), Error>((parent, praw)),
        find_entry(w, parent, praw, parent_and_base(path)->Ok_0.1) == Ok::<u32, Error>(ino),
        checked_inode(w, ino) == Ok::<Seq<u8>, Error>(rec),
        dir_runs(w, rec) == Ok::<Seq<(u64, u32)>, Error>(seq![(phys, 1u32)]),
        rmdir_stage(w, path, later) is Ok,
        forall|m: int|
            0 <= m < dir_blocks(w, praw) ==> ((#[trigger] file_block(w, praw, m)) matches Ok(Some(p)) ==> !is_meta(
                v,
                p as int,
            )),
    ensures
        ({
            let fin = rmdir_stage(w, path, later)->Ok_0;
            let u = committed(w, fin);
            &&& books(v, fin.img) == given_back(v.sb, books(v, w.img), gi, ib, gj, bb)
            &&& fin.cleared == Seq::<(usize, u16)>::empty()
            &&& checked_inode(u, parent) is Ok
            &&& links_of(checked_inode(u, parent)->Ok_0) == moved_links(links_of(praw), -1)
        }),
{
    let (parent_path, name) = parent_and_base(path)->Ok_0;
    lemma_books_of(v, w, w.img);
    assert(record_block(w, ino) == record_block(v, ino) && record_block(w, parent) == record_block(v, parent));
    assert forall|k: int| #[trigger] is_meta(w, k) == is_meta(v, k) by {
    }
    let start = fresh_stage(w);
    let runs = seq![(phys, 1u32)];
    let st = stage_reap(w, start, ino, rec, runs, true, later)->Ok_0;
    lemma_reap_booked(w, ino, rec, phys, later, gi, ib, gj, bb);
    lemma_removal_booked(w, st, parent, praw, name, 0);
    let mid = stage_remove_from(w, st, parent, praw, name, 0)->Ok_0;
    let out = relinked_record(w, parent, praw, -1);
    lemma_record_booked(w, mid, parent, out);
    let fin = stage_links(w, mid, parent, praw, -1)->Ok_0;
    assert(rmdir_stage(w, path, later) == Ok::<Stage, Error>(fin));
    lemma_books_of(v, w, fin.img);
    lemma_relinked(w, parent, praw, -1);
    lemma_moved_record(w, mid, parent, out, seq![own_slot(w, parent)], Seq::empty(), 0);
    lemma_checked(w, committed(w, fin), parent, praw, out);
}

} // verus!
