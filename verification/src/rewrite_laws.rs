//! What a file gives back when a hole is punched in it or its contents are
//! replaced.
use crate::allocator::{
    blocks_for, group_first_block, law_planned_run_is_free, law_planned_run_within, lemma_group_blocks,
    searched_bitmap,
};
use crate::bgd::BLOCK_UNINIT;
use crate::bitmap::{bit_free, bit_set, lemma_with_bits, with_bits};
use crate::block_io::block_at;
use crate::books::{
    books, books_apart, lemma_books_same, lemma_counters_booked, lemma_free_blocks_booked,
    lemma_group_of_block, lemma_mark_blocks_booked, lemma_totals_booked,
};
use crate::commit::committed;
use crate::content_laws::{
    in_use, law_block_in_use_is_not_planned, lemma_after_write, lemma_stage_data, record_block,
};
use crate::contents::{
    in_hole, prealloc_stage, punch_stage, punched_runs, replace_stage, stage_data, whole_extent,
};
use crate::error::Error;
use crate::extent::{covering, extent_for, extents_of, Extent};
use crate::extent_laws::{
    holds, in_order, law_insert_adds_the_new_mapping, law_insert_keeps_order, lemma_covering_in_order,
    lemma_inserted_storable,
};
use crate::extent_mut::{inserted, law_node_round_trip, leaf_insert, leaf_of};
use crate::file_mut::{runs_total, stage_free_runs};
use crate::frame_laws::{is_meta, lemma_block_plan_framed, lemma_free_runs_framed, lemma_totals_framed};
use crate::fs::{checked_inode, raw_inode};
use crate::grow::{as_logical, bitmaps_of, home_group, stage_block_plan, volume_plan};
use crate::growth_laws::{lemma_inserted_len, lemma_leaf_fields, lemma_read_storable};
use crate::inode::{block_area_of, generation_of, sectors_of, size_of_file};
use crate::inode_edit::{after_write, root_with, with_block_area};
use crate::names::file_runs;
use crate::order_laws::{tree_in_order, FILE_BLOCKS};
use crate::release_laws::{
    block_is_free, lemma_runs_released, lemma_runs_stay_free, lemma_same_used, lemma_used_on, no_more_used,
};
use crate::size_laws::lemma_recorded;
use crate::stage::{group_of_block, stage_counters, stage_inode, stage_mark_blocks, stage_totals};
use crate::undo_laws::lemma_record_booked;
use crate::volume::{fresh_stage, Stage, Vol};
use vstd::prelude::*;

verus! {

/// What an extent gives up to a hole is among the runs that are released.
proof fn lemma_hole_released(all: Seq<Extent>, first: int, last: int, i: int) -> (j: int)
    requires
        0 <= i < all.len(),
        in_hole(all[i], first, last).len() == 1,
    ensures
        0 <= j < punched_runs(all, first, last).len(),
        punched_runs(all, first, last)[j] == in_hole(all[i], first, last)[0],
    decreases all.len(),
{
    let front = all.drop_last();
    let runs = punched_runs(all, first, last);
    let before = punched_runs(front, first, last);
    if i == all.len() - 1 {
        assert(runs[before.len() as int] == in_hole(all[i], first, last)[0]);
        before.len() as int
    } else {
        assert(front[i] == all[i]);
        let j = lemma_hole_released(front, first, last, i);
        assert(runs[j] == before[j]);
        j
    }
}

/// Every block that a file had in a range is free once a hole is punched there,
/// and nothing comes into use. The extent that had it lies in one group.
pub proof fn law_punched_blocks_are_given_back(
    v: Vol,
    ino: u32,
    raw: Seq<u8>,
    offset: u64,
    len: u64,
    now: u32,
    i: int,
    l: int,
)
    requires
        v.wf(),
        books_apart(v),
        checked_inode(v, ino) == Ok::<Seq<u8>, Error>(raw),
        !is_meta(v, record_block(v, ino)),
        extents_of(v.img, v.bs(), block_area_of(raw)) is Ok,
        0 <= i < extents_of(v.img, v.bs(), block_area_of(raw))->Ok_0.len(),
        ({
            let e = extents_of(v.img, v.bs(), block_area_of(raw))->Ok_0[i];
            let per = v.sb.blocks_per_group as int;
            &&& e.covers(l)
            &&& e.physical_block + e.length <= u64::MAX
            &&& forall|b: int|
                e.physical_block <= b < e.physical_block + e.length ==> #[trigger] ((b - v.sb.first_data_block) / per) == (
                e.physical_block - v.sb.first_data_block) / per
        }),
        offset as int / v.bs() <= l,
        l * v.bs() < offset + len,
        punch_stage(v, ino, offset, len, now) is Ok,
    ensures
        ({
            let e = extents_of(v.img, v.bs(), block_area_of(raw))->Ok_0[i];
            let w = committed(v, punch_stage(v, ino, offset, len, now)->Ok_0);
            &&& block_is_free(v, w.img, e.physical_block + (l - e.logical_block))
            &&& no_more_used(v, v.img, w.img)
        }),
{
    let start = fresh_stage(v);
    let all = extents_of(v.img, v.bs(), block_area_of(raw))->Ok_0;
    let e = all[i];
    let first = offset as int / v.bs();
    let last = blocks_for(offset + len, v.bs());
    let runs = punched_runs(all, first, last);
    let st1 = stage_free_runs(v, start, runs)->Ok_0;
    let fin = punch_stage(v, ino, offset, len, now)->Ok_0;
    let bs = v.bs();
    assert(0 <= first) by (nonlinear_arith)
        requires
            first == offset as int / bs,
            bs > 0,
    ;
    assert(0 <= l);
    assert(offset + len > 0) by (nonlinear_arith)
        requires
            0 <= l,
            bs > 0,
            l * bs < offset + len,
    ;
    crate::content_laws::lemma_blocks_reach(offset + len, bs, l);
    lemma_runs_released(v, start, runs);
    lemma_punch_ends(v, ino, raw, offset, len, now, st1, runs_total(runs));
    lemma_used_on(v, v.img, st1.img, fin.img);
    lemma_runs_stay_free(v, st1.img, fin.img, runs);
    let j = lemma_hole_released(all, first, last, i);
    let p = e.physical_block + (l - e.logical_block);
    let per = v.sb.blocks_per_group as int;
    let a = runs[j].0 as int;
    assert(e.physical_block <= a <= p < a + runs[j].1);
    assert((a - v.sb.first_data_block) / per == (e.physical_block - v.sb.first_data_block) / per);
    assert((p - v.sb.first_data_block) / per == (e.physical_block - v.sb.first_data_block) / per);
    assert(block_is_free(v, fin.img, p));
}

/// What is left of punching a hole brings nothing into use.
proof fn lemma_punch_ends(v: Vol, ino: u32, raw: Seq<u8>, offset: u64, len: u64, now: u32, st1: Stage, freed: int)
    requires
        v.wf(),
        books_apart(v),
        checked_inode(v, ino) == Ok::<Seq<u8>, Error>(raw),
        !is_meta(v, record_block(v, ino)),
        extents_of(v.img, v.bs(), block_area_of(raw)) is Ok,
        punch_stage(v, ino, offset, len, now) is Ok,
        ({
            let all = extents_of(v.img, v.bs(), block_area_of(raw))->Ok_0;
            let runs = punched_runs(all, offset as int / v.bs(), blocks_for(offset + len, v.bs()));
            &&& stage_free_runs(v, fresh_stage(v), runs) == Ok::<Stage, Error>(st1)
            &&& freed == runs_total(runs)
        }),
    ensures
        no_more_used(v, st1.img, punch_stage(v, ino, offset, len, now)->Ok_0.img),
{
    let all = extents_of(v.img, v.bs(), block_area_of(raw))->Ok_0;
    let kept = crate::contents::punched(all, offset as int / v.bs(), blocks_for(offset + len, v.bs()));
    let root = crate::extent_mut::node_bytes(
        crate::extent::ExtentHeader {
            magic: crate::extent::EXT4_EXT_MAGIC,
            entries: 0,
            max: 4,
            depth: 0,
            generation: crate::bytes::le32(block_area_of(raw), 8),
        },
        kept,
        60,
    );
    let sectors = crate::attr::less(crate::inode::sectors_of(raw), freed * (v.bs() / 512));
    let rec = crate::contents::reblocked(v, ino, raw, root, sectors, now);
    let st2 = stage_inode(v, st1, ino, rec)->Ok_0;
    lemma_record_booked(v, st1, ino, rec);
    lemma_same_used(v, st1.img, st2.img);
    let fin = punch_stage(v, ino, offset, len, now)->Ok_0;
    if freed > 0 {
        lemma_totals_booked(v, st2, freed, 0);
    }
    lemma_same_used(v, st2.img, fin.img);
    lemma_used_on(v, st1.img, st2.img, fin.img);
}

/// Releasing runs leaves the flags of the groups.
proof fn lemma_flags_stay(v: Vol, st: Stage, runs: Seq<(u64, u32)>, gi: int)
    requires
        v.wf(),
        books_apart(v),
        stage_free_runs(v, st, runs) is Ok,
        0 <= gi < v.groups.len(),
    ensures
        books(v, stage_free_runs(v, st, runs)->Ok_0.img).counts[gi].flags == books(v, st.img).counts[gi].flags,
    decreases runs.len(),
{
    if runs.len() > 0 {
        let before = stage_free_runs(v, st, runs.drop_last())->Ok_0;
        lemma_flags_stay(v, st, runs.drop_last(), gi);
        lemma_free_blocks_booked(v, before, runs.last().0, runs.last().1 as int);
        lemma_group_of_block(v, runs.last().0);
        assert(books(v, before.img).counts.len() == v.groups.len()) by {
            reveal(books);
        }
    }
}

/// A block that is free stays free when others are marked.
proof fn lemma_free_beside_marked(v: Vol, st: Stage, start: u64, count: int, gi: int, p: int)
    requires
        v.wf(),
        books_apart(v),
        stage_mark_blocks(v, st, start, count) is Ok,
        0 <= count,
        group_of_block(v, start) == Some(gi),
        books(v, st.img).counts[gi].flags & BLOCK_UNINIT == 0,
        block_is_free(v, st.img, p),
        0 <= p - v.sb.first_data_block,
        (p - v.sb.first_data_block) / (v.sb.blocks_per_group as int) < v.groups.len(),
        !(start <= p < start + count),
    ensures
        block_is_free(v, stage_mark_blocks(v, st, start, count)->Ok_0.img, p),
{
    let per = v.sb.blocks_per_group as int;
    let n = p - v.sb.first_data_block;
    let gp = n / per;
    let after = stage_mark_blocks(v, st, start, count)->Ok_0;
    lemma_mark_blocks_booked(v, st, start, count);
    lemma_group_of_block(v, start);
    vstd::arithmetic::div_mod::lemma_fundamental_div_mod(n, per);
    vstd::arithmetic::div_mod::lemma_mod_bound(n, per);
    assert(0 <= gp) by (nonlinear_arith)
        requires
            gp == n / per,
            0 <= n,
            per > 0,
    ;
    reveal(books);
    let a = books(v, st.img);
    let b = books(v, after.img);
    assert(a.block_bits[gp] == block_at(st.img, v.bs(), v.groups[gp].block_bitmap as int));
    assert(b.block_bits[gp] == block_at(after.img, v.bs(), v.groups[gp].block_bitmap as int));
    if gp == gi {
        let bit = start - group_first_block(v.sb, gi);
        let bm = a.block_bits[gi]->Ok_0;
        lemma_with_bits(bm, bit, count as nat, true);
        assert(per * gi == gi * per) by (nonlinear_arith);
        assert(!(bit <= n % per < bit + count));
        assert(!bit_set(bm, n % per));
        let put = with_bits(bm, bit, count as nat, true);
        assert(b.block_bits[gi] == Ok::<Seq<u8>, Error>(put));
        assert(!bit_set(put, n % per)) by {
            if 0 <= n % per < 8 * bm.len() {
            }
        }
    }
}

/// Bookkeeping is in use.
pub open spec fn books_in_use(v: Vol) -> bool {
    forall|k: int| k >= 0 && #[trigger] is_meta(v, k) ==> in_use(v, k)
}

/// Every block that a file had is free once its contents are replaced, as long as
/// it was in use before, and bookkeeping is too. The group that the new contents
/// go to had its bitmap written before.
pub proof fn law_replaced_contents_are_given_back(
    v: Vol,
    ino: u32,
    raw: Seq<u8>,
    data: Seq<u8>,
    now: u32,
    i: int,
    p: int,
)
    requires
        v.wf(),
        books_apart(v),
        books_in_use(v),
        checked_inode(v, ino) == Ok::<Seq<u8>, Error>(raw),
        !is_meta(v, record_block(v, ino)),
        file_runs(v, raw) is Ok,
        0 <= i < file_runs(v, raw)->Ok_0.len(),
        ({
            let run = file_runs(v, raw)->Ok_0[i];
            let per = v.sb.blocks_per_group as int;
            &&& run.0 <= p < run.0 + run.1
            &&& (p - v.sb.first_data_block) / per == (run.0 - v.sb.first_data_block) / per
        }),
        in_use(v, p),
        data.len() <= u64::MAX,
        replace_stage(v, ino, raw, data, now) is Ok,
        data.len() > 0 ==> ({
            let plan = volume_plan(v, blocks_for(data.len() as int, v.bs()) as u32, home_group(v, ino), Seq::empty());
            books(v, v.img).counts[plan->Ok_0.bgd.group_idx as int].flags & BLOCK_UNINIT == 0
        }),
    ensures
        block_is_free(v, committed(v, replace_stage(v, ino, raw, data, now)->Ok_0.0).img, p),
{
    let start = fresh_stage(v);
    let runs = file_runs(v, raw)->Ok_0;
    let st1 = stage_free_runs(v, start, runs)->Ok_0;
    let freed = runs_total(runs);
    let fin = replace_stage(v, ino, raw, data, now)->Ok_0.0;
    lemma_runs_released(v, start, runs);
    assert(group_of_block(v, runs[i].0) is Some);
    lemma_group_of_block(v, runs[i].0);
    assert(block_is_free(v, st1.img, p));
    if data.len() == 0 {
        let st2 = if freed > 0 {
            stage_totals(v, st1, freed, 0)->Ok_0
        } else {
            st1
        };
        if freed > 0 {
            lemma_totals_booked(v, st1, freed, 0);
        }
        lemma_record_booked(
            v,
            st2,
            ino,
            after_write(v, ino, generation_of(raw), with_block_area(raw, root_with(Seq::empty())), 0, 0, now),
        );
        lemma_same_used(v, st1.img, fin.img);
        lemma_runs_stay_free(v, st1.img, fin.img, runs);
        assert(block_is_free(v, fin.img, p));
    } else {
        lemma_replaced_beside(v, ino, raw, data, now, st1, freed, p);
    }
}

/// A block that was released stays free while the new contents go elsewhere.
proof fn lemma_replaced_beside(
    v: Vol,
    ino: u32,
    raw: Seq<u8>,
    data: Seq<u8>,
    now: u32,
    st1: Stage,
    freed: int,
    p: int,
)
    requires
        v.wf(),
        books_apart(v),
        books_in_use(v),
        !is_meta(v, record_block(v, ino)),
        in_use(v, p),
        0 < data.len() <= u64::MAX,
        file_runs(v, raw) is Ok,
        stage_free_runs(v, fresh_stage(v), file_runs(v, raw)->Ok_0) == Ok::<Stage, Error>(st1),
        freed == runs_total(file_runs(v, raw)->Ok_0),
        replace_stage(v, ino, raw, data, now) is Ok,
        block_is_free(v, st1.img, p),
        0 <= p - v.sb.first_data_block,
        (p - v.sb.first_data_block) / (v.sb.blocks_per_group as int) < v.groups.len(),
        ({
            let plan = volume_plan(v, blocks_for(data.len() as int, v.bs()) as u32, home_group(v, ino), Seq::empty());
            books(v, v.img).counts[plan->Ok_0.bgd.group_idx as int].flags & BLOCK_UNINIT == 0
        }),
    ensures
        block_is_free(v, replace_stage(v, ino, raw, data, now)->Ok_0.0.img, p),
{
    let n = blocks_for(data.len() as int, v.bs());
    let hint = home_group(v, ino);
    crate::content_laws::lemma_blocks_reach(data.len() as int, v.bs(), 0);
    let plan = volume_plan(v, n as u32, hint, Seq::empty())->Ok_0;
    law_planned_run_is_free(v.sb, v.groups, n as u32, hint, Seq::empty(), bitmaps_of(v));
    law_planned_run_within(v.sb, v.groups, n as u32, hint, Seq::empty(), bitmaps_of(v));
    law_block_in_use_is_not_planned(v, n as u32, hint, Seq::empty(), p);
    let gi = plan.bgd.group_idx as int;
    let bpg = v.sb.blocks_per_group as int;
    let bit = plan.bitmap.bit_start as int;
    lemma_group_blocks(v.sb, gi);
    assert(gi * bpg >= 0) by (nonlinear_arith)
        requires
            gi >= 0,
            bpg > 0,
    ;
    assert((plan.first_block - v.sb.first_data_block) / bpg == gi) by {
        vstd::arithmetic::div_mod::lemma_fundamental_div_mod_converse(plan.first_block - v.sb.first_data_block, bpg, gi, bit);
    }
    assert(group_of_block(v, plan.first_block) == Some(gi));
    lemma_flags_stay(v, fresh_stage(v), file_runs(v, raw)->Ok_0, gi);
    let m1 = stage_mark_blocks(v, st1, plan.first_block, n)->Ok_0;
    lemma_free_beside_marked(v, st1, plan.first_block, n, gi, p);
    let m2 = stage_counters(v, m1, gi, plan.bgd.free_blocks_delta as int, 0, 0)->Ok_0;
    lemma_counters_booked(v, m1, gi, plan.bgd.free_blocks_delta as int, 0, 0);
    let m3 = stage_totals(v, m2, freed - n, 0)->Ok_0;
    lemma_totals_booked(v, m2, freed - n, 0);
    let m4 = stage_data(v, m3, plan.first_block, data, n as nat)->Ok_0;
    lemma_free_runs_framed(v, fresh_stage(v), file_runs(v, raw)->Ok_0);
    crate::frame_laws::lemma_mark_blocks_framed(v, st1, plan.first_block, n);
    crate::frame_laws::lemma_counters_framed(v, m1, gi, plan.bgd.free_blocks_delta as int, 0, 0);
    lemma_totals_framed(v, m2, freed - n, 0);
    assert(m3.img.len() == v.img.len());
    assert forall|k: int| k >= 0 && is_meta(v, k) implies #[trigger] block_at(m4.img, v.bs(), k) == block_at(
        m3.img,
        v.bs(),
        k,
    ) by {
        assert(in_use(v, k));
        law_block_in_use_is_not_planned(v, n as u32, hint, Seq::empty(), k);
        lemma_stage_data(v, m3, plan.first_block, data, n as nat, k);
    }
    lemma_books_same(v, m3.img, m4.img);
    let rec = after_write(
        v,
        ino,
        generation_of(raw),
        with_block_area(raw, root_with(seq![whole_extent(plan.first_block, n)])),
        data.len() as u64,
        (n * (v.bs() / 512)) as u64,
        now,
    );
    lemma_record_booked(v, m4, ino, rec);
    let fin = replace_stage(v, ino, raw, data, now)->Ok_0.0;
    lemma_bits_alike(v, m1.img, fin.img, p);
}

/// Whether a block is free is a matter of the bitmaps.
proof fn lemma_bits_alike(v: Vol, a: Seq<u8>, b: Seq<u8>, p: int)
    requires
        books(v, a).block_bits == books(v, b).block_bits,
        v.sb.blocks_per_group > 0,
        0 <= p - v.sb.first_data_block,
        (p - v.sb.first_data_block) / (v.sb.blocks_per_group as int) < v.groups.len(),
    ensures
        block_is_free(v, a, p) == block_is_free(v, b, p),
{
    reveal(books);
    let per = v.sb.blocks_per_group as int;
    let n = p - v.sb.first_data_block;
    let gp = n / per;
    assert(0 <= gp) by (nonlinear_arith)
        requires
            gp == n / per,
            0 <= n,
            per > 0,
    ;
    assert(books(v, a).block_bits[gp] == block_at(a, v.bs(), v.groups[gp].block_bitmap as int));
    assert(books(v, b).block_bits[gp] == block_at(b, v.bs(), v.groups[gp].block_bitmap as int));
}

/// Every block of a range has a place of its own once the range is preallocated:
/// one after the other, unwritten, and free before.
pub proof fn law_preallocated_range_has_blocks(
    v: Vol,
    ino: u32,
    raw: Seq<u8>,
    offset: u64,
    len: u64,
    now: u32,
    l: int,
)
    requires
        v.wf(),
        checked_inode(v, ino) == Ok::<Seq<u8>, Error>(raw),
        !is_meta(v, record_block(v, ino)),
        tree_in_order(v.img, v.bs(), block_area_of(raw)),
        len > 0,
        blocks_for(offset + len, v.bs()) <= FILE_BLOCKS,
        prealloc_stage(v, ino, offset, len, now) is Ok,
        offset as int / v.bs() <= l,
        l * v.bs() < offset + len,
    ensures
        ({
            let w = committed(v, prealloc_stage(v, ino, offset, len, now)->Ok_0);
            let found = extent_for(w.img, v.bs(), block_area_of(raw_inode(w, ino)->Ok_0), l, None);
            let e = found->Ok_0->Some_0;
            let from = extent_for(
                w.img,
                v.bs(),
                block_area_of(raw_inode(w, ino)->Ok_0),
                offset as int / v.bs(),
                None,
            )->Ok_0->Some_0;
            &&& raw_inode(w, ino) is Ok
            &&& found is Ok && found->Ok_0 is Some
            &&& e.uninitialized
            &&& e.place(l) == from.place(offset as int / v.bs()) + (l - offset as int / v.bs())
            &&& !in_use(v, e.place(l))
        }),
{
    let area = block_area_of(raw);
    let bs = v.bs();
    let first = offset as int / bs;
    let last = blocks_for(offset + len, bs);
    let n = last - first;
    assert(0 <= first) by (nonlinear_arith)
        requires
            first == offset as int / bs,
            bs > 0,
    ;
    crate::contents::lemma_range_blocks(offset as int, offset + len, bs);
    crate::content_laws::lemma_blocks_reach(offset + len, bs, l);
    let hint = home_group(v, ino);
    let plan = volume_plan(v, n as u32, hint, Seq::empty())->Ok_0;
    law_planned_run_within(v.sb, v.groups, n as u32, hint, Seq::empty(), bitmaps_of(v));
    law_planned_run_is_free(v.sb, v.groups, n as u32, hint, Seq::empty(), bitmaps_of(v));
    let new = Extent {
        logical_block: as_logical(first),
        length: n as u16,
        physical_block: plan.first_block,
        uninitialized: true,
    };
    let (h, es) = leaf_of(area)->Ok_0;
    lemma_read_storable(area, h.entries as nat);
    let root = leaf_insert(area, new)->Ok_0->Some_0;
    let out = inserted(es, new);
    lemma_inserted_storable(es, new);
    lemma_inserted_len(es, new);
    law_insert_keeps_order(es, new);
    lemma_leaf_fields(h, out, 60);
    law_node_round_trip(h, out, 60);
    let st1 = stage_block_plan(v, fresh_stage(v), plan)->Ok_0;
    lemma_block_plan_framed(v, fresh_stage(v), plan);
    let sectors = (sectors_of(raw) + n * (bs / 512)) as u64;
    let rec = crate::contents::reblocked(v, ino, raw, root, sectors, now);
    lemma_after_write(v, ino, raw, root, size_of_file(raw), sectors, now);
    let fin = prealloc_stage(v, ino, offset, len, now)->Ok_0;
    let w = committed(v, fin);
    lemma_recorded(v, st1, ino, rec, fin);
    lemma_new_is_found(w.img, bs, root, es, new, l);
    lemma_new_is_found(w.img, bs, root, es, new, first);
    let p = plan.first_block + (l - first);
    assert(new.place(l) == p);
    let gi = plan.bgd.group_idx as int;
    let bm = searched_bitmap(v.sb, v.groups, gi, bitmaps_of(v));
    assert(bit_free(bm->Ok_0, p - group_first_block(v.sb, gi)));
}

/// What was put in a root is found there.
proof fn lemma_new_is_found(img: Seq<u8>, bs: int, root: Seq<u8>, es: Seq<Extent>, new: Extent, l: int)
    requires
        leaf_of(root) matches Ok(p) && p.1 == inserted(es, new),
        in_order(inserted(es, new)),
        new.covers(l),
    ensures
        extent_for(img, bs, root, l, None) matches Ok(Some(e)) && e.covers(l) && e.place(l) == new.place(l)
            && e.uninitialized == new.uninitialized,
{
    let out = inserted(es, new);
    assert(holds(new, l, new.place(l), new.uninitialized));
    law_insert_adds_the_new_mapping(es, new, l, new.place(l), new.uninitialized);
    lemma_covering_in_order(out, l, new.place(l), new.uninitialized);
    assert(extent_for(img, bs, root, l, None) == Ok::<Option<Extent>, Error>(covering(out, l)));
}

} // verus!
