//! Which blocks the bookkeeping of an operation touches.
use crate::allocator::metadata_runs;
use crate::bitmap::{lemma_with_bits, with_bit, with_bits};
use crate::block_io::{block_at, lemma_with_block};
use crate::bytes::{le16, put16, zeros};
use crate::checksum::raw_crc;
use crate::file_mut::stage_free_runs;
use crate::grow::{stage_block_plan, stage_inode_plan};
use crate::allocator::{BlockAllocationPlan, InodeAllocationPlan};
use crate::pwrite_laws::lemma_totals_other;
use crate::stage::{
    bit_of_inode, bitmap_block_of, bitmap_covered, bitmap_stamped, counted, desc_block, desc_off, group_of_block,
    group_of_inode, itable_lowered, lemma_desc_place, marking_base, padded_inodes, stage_bitmap_csum,
    stage_clear_uninit, stage_counters, stage_free_blocks, stage_free_inode, stage_mark_blocks, stage_mark_inode,
    stage_totals, super_block,
};
use crate::volume::{stage_block, Stage, Vol};
use vstd::prelude::*;

verus! {

broadcast use crate::bytes::group_fields;

/// Block `k` holds the superblock, or a descriptor or a bitmap of a group.
pub open spec fn is_meta(v: Vol, k: int) -> bool {
    ||| k == super_block(v.sb)
    ||| exists|gi: int| 0 <= gi < v.groups.len() && k == #[trigger] desc_block(v.sb, gi)
    ||| exists|gi: int| 0 <= gi < v.groups.len() && k == (#[trigger] v.groups[gi]).block_bitmap
    ||| exists|gi: int| 0 <= gi < v.groups.len() && k == (#[trigger] v.groups[gi]).inode_bitmap
}

/// Nothing but such blocks differs.
pub open spec fn framed(v: Vol, st: Stage, after: Stage) -> bool {
    &&& after.img.len() == st.img.len()
    &&& forall|k: int|
        k >= 0 && !is_meta(v, k) ==> #[trigger] block_at(after.img, v.bs(), k) == block_at(st.img, v.bs(), k)
}

/// One such block edited.
proof fn lemma_edit_framed(v: Vol, st: Stage, n: int, b: Seq<u8>)
    requires
        v.wf(),
        n >= 0,
        is_meta(v, n),
        block_at(st.img, v.bs(), n) is Ok,
        b.len() == v.bs(),
    ensures
        framed(v, st, stage_block(v, st, n, b)),
        block_at(stage_block(v, st, n, b).img, v.bs(), n) == Ok::<Seq<u8>, crate::error::Error>(b),
{
    let after = stage_block(v, st, n, b);
    assert forall|k: int| k >= 0 && !is_meta(v, k) implies #[trigger] block_at(after.img, v.bs(), k) == block_at(
        st.img,
        v.bs(),
        k,
    ) by {
        lemma_with_block(st.img, v.bs(), n, b, k);
    }
    lemma_with_block(st.img, v.bs(), n, b, n);
}

pub(crate) proof fn lemma_counters_framed(v: Vol, st: Stage, gi: int, fb: int, fi: int, ud: int)
    requires
        v.wf(),
        0 <= gi < v.groups.len(),
        stage_counters(v, st, gi, fb, fi, ud) is Ok,
    ensures
        framed(v, st, stage_counters(v, st, gi, fb, fi, ud)->Ok_0),
{
    let n = desc_block(v.sb, gi);
    let b = block_at(st.img, v.bs(), n)->Ok_0;
    lemma_desc_place(v.sb, gi);
    assert(is_meta(v, n));
    lemma_edit_framed(v, st, n, counted(v, b, desc_off(v.sb, gi), gi, fb, fi, ud));
}

pub(crate) proof fn lemma_totals_framed(v: Vol, st: Stage, fb: int, fi: int)
    requires
        v.wf(),
        stage_totals(v, st, fb, fi) is Ok,
    ensures
        framed(v, st, stage_totals(v, st, fb, fi)->Ok_0),
{
    let after = stage_totals(v, st, fb, fi)->Ok_0;
    crate::content_laws::lemma_totals_len(v, st, fb, fi);
    assert forall|k: int| k >= 0 && !is_meta(v, k) implies #[trigger] block_at(after.img, v.bs(), k) == block_at(
        st.img,
        v.bs(),
        k,
    ) by {
        lemma_totals_other(v, st, fb, fi, k);
    }
}

proof fn lemma_bitmap_csum_framed(v: Vol, st: Stage, gi: int, inodes: bool)
    requires
        v.wf(),
        0 <= gi < v.groups.len(),
        stage_bitmap_csum(v, st, gi, inodes) is Ok,
    ensures
        framed(v, st, stage_bitmap_csum(v, st, gi, inodes)->Ok_0),
{
    if v.csum.enabled {
        let n = desc_block(v.sb, gi);
        let bm = block_at(st.img, v.bs(), bitmap_block_of(v, gi, inodes))->Ok_0;
        let b = block_at(st.img, v.bs(), n)->Ok_0;
        lemma_desc_place(v.sb, gi);
        assert(is_meta(v, n));
        let crc = raw_crc(v.csum.seed, bm.subrange(0, bitmap_covered(v, inodes)));
        lemma_edit_framed(v, st, n, bitmap_stamped(v, b, desc_off(v.sb, gi), gi, inodes, crc));
    }
}

proof fn lemma_clear_uninit_framed(v: Vol, st: Stage, gi: int, flag: u16)
    requires
        v.wf(),
        0 <= gi < v.groups.len(),
        stage_clear_uninit(v, st, gi, flag) is Ok,
    ensures
        framed(v, st, stage_clear_uninit(v, st, gi, flag)->Ok_0.0),
{
    let n = desc_block(v.sb, gi);
    let b = block_at(st.img, v.bs(), n)->Ok_0;
    let at = desc_off(v.sb, gi) + 0x12;
    let flags = le16(b, at);
    lemma_desc_place(v.sb, gi);
    assert(is_meta(v, n));
    if flags & flag != 0 {
        lemma_edit_framed(v, st, n, put16(b, at, flags & !flag));
    }
}

pub(crate) proof fn lemma_mark_blocks_framed(v: Vol, st: Stage, start: u64, len: int)
    requires
        v.wf(),
        stage_mark_blocks(v, st, start, len) is Ok,
    ensures
        framed(v, st, stage_mark_blocks(v, st, start, len)->Ok_0),
{
    let gi = group_of_block(v, start)->Some_0;
    assert(gi >= 0) by (nonlinear_arith)
        requires
            start >= v.sb.first_data_block,
            v.sb.blocks_per_group > 0,
            gi == (start - v.sb.first_data_block) / v.sb.blocks_per_group as int,
    ;
    let (st1, was) = stage_clear_uninit(v, st, gi, crate::bgd::BLOCK_UNINIT)->Ok_0;
    lemma_clear_uninit_framed(v, st, gi, crate::bgd::BLOCK_UNINIT);
    let home = v.groups[gi].block_bitmap as int;
    assert(is_meta(v, home));
    let bm = block_at(st1.img, v.bs(), home)->Ok_0;
    let base = marking_base(v, bm, gi, was);
    crate::allocator::lemma_mark_runs_len(
        zeros(bm.len()),
        metadata_runs(v.sb, v.groups, gi),
        v.sb.blocks_per_group as int,
    );
    let bit = start - crate::allocator::group_first_block(v.sb, gi);
    lemma_with_bits(base, bit, len as nat, true);
    let bits = with_bits(base, bit, len as nat, true);
    lemma_edit_framed(v, st1, home, bits);
    let st2 = stage_block(v, st1, home, bits);
    lemma_bitmap_csum_framed(v, st2, gi, false);
}

pub(crate) proof fn lemma_free_blocks_framed(v: Vol, st: Stage, start: u64, len: int)
    requires
        v.wf(),
        stage_free_blocks(v, st, start, len) is Ok,
    ensures
        framed(v, st, stage_free_blocks(v, st, start, len)->Ok_0),
{
    let gi = group_of_block(v, start)->Some_0;
    assert(gi >= 0) by (nonlinear_arith)
        requires
            start >= v.sb.first_data_block,
            v.sb.blocks_per_group > 0,
            gi == (start - v.sb.first_data_block) / v.sb.blocks_per_group as int,
    ;
    let home = v.groups[gi].block_bitmap as int;
    assert(is_meta(v, home));
    let bm = block_at(st.img, v.bs(), home)->Ok_0;
    let bit = start - crate::allocator::group_first_block(v.sb, gi);
    lemma_with_bits(bm, bit, len as nat, false);
    let bits = with_bits(bm, bit, len as nat, false);
    lemma_edit_framed(v, st, home, bits);
    let st1 = stage_block(v, st, home, bits);
    lemma_bitmap_csum_framed(v, st1, gi, false);
    let st2 = stage_bitmap_csum(v, st1, gi, false)->Ok_0;
    lemma_counters_framed(v, st2, gi, len, 0, 0);
}

pub(crate) proof fn lemma_free_runs_framed(v: Vol, st: Stage, runs: Seq<(u64, u32)>)
    requires
        v.wf(),
        stage_free_runs(v, st, runs) is Ok,
    ensures
        framed(v, st, stage_free_runs(v, st, runs)->Ok_0),
    decreases runs.len(),
{
    if runs.len() > 0 {
        lemma_free_runs_framed(v, st, runs.drop_last());
        let before = stage_free_runs(v, st, runs.drop_last())->Ok_0;
        lemma_free_blocks_framed(v, before, runs.last().0, runs.last().1 as int);
    }
}

proof fn lemma_group_of_inode(v: Vol, ino: u32)
    requires
        v.wf(),
        group_of_inode(v, ino) is Some,
    ensures
        0 <= group_of_inode(v, ino)->Some_0 < v.groups.len(),
        0 <= bit_of_inode(v, ino),
{
    let gi = group_of_inode(v, ino)->Some_0;
    assert(gi >= 0 && bit_of_inode(v, ino) >= 0) by (nonlinear_arith)
        requires
            ino > 0,
            v.sb.inodes_per_group > 0,
            gi == (ino - 1) / v.sb.inodes_per_group as int,
            bit_of_inode(v, ino) == (ino - 1) % v.sb.inodes_per_group as int,
    ;
}

pub(crate) proof fn lemma_free_inode_framed(v: Vol, st: Stage, ino: u32)
    requires
        v.wf(),
        stage_free_inode(v, st, ino) is Ok,
    ensures
        framed(v, st, stage_free_inode(v, st, ino)->Ok_0),
{
    let gi = group_of_inode(v, ino)->Some_0;
    lemma_group_of_inode(v, ino);
    let home = v.groups[gi].inode_bitmap as int;
    assert(is_meta(v, home));
    let bm = block_at(st.img, v.bs(), home)->Ok_0;
    let bits = with_bit(bm, bit_of_inode(v, ino), false);
    lemma_edit_framed(v, st, home, bits);
    let st1 = stage_block(v, st, home, bits);
    lemma_bitmap_csum_framed(v, st1, gi, true);
    let st2 = stage_bitmap_csum(v, st1, gi, true)->Ok_0;
    lemma_counters_framed(v, st2, gi, 0, 1, 0);
}

pub(crate) proof fn lemma_mark_inode_framed(v: Vol, st: Stage, ino: u32)
    requires
        v.wf(),
        stage_mark_inode(v, st, ino) is Ok,
    ensures
        framed(v, st, stage_mark_inode(v, st, ino)->Ok_0),
{
    let gi = group_of_inode(v, ino)->Some_0;
    lemma_group_of_inode(v, ino);
    let (st1, was) = stage_clear_uninit(v, st, gi, crate::bgd::INODE_UNINIT)->Ok_0;
    lemma_clear_uninit_framed(v, st, gi, crate::bgd::INODE_UNINIT);
    let home = v.groups[gi].inode_bitmap as int;
    assert(is_meta(v, home));
    let bm = block_at(st1.img, v.bs(), home)->Ok_0;
    let base = if was {
        padded_inodes(v, bm.len())
    } else {
        bm
    };
    let ipg = v.sb.inodes_per_group as int;
    if ipg < 8 * bm.len() {
        lemma_with_bits(zeros(bm.len()), ipg, (8 * bm.len() - ipg) as nat, true);
    }
    let bit = bit_of_inode(v, ino);
    let bits = with_bit(base, bit, true);
    lemma_edit_framed(v, st1, home, bits);
    let st2 = stage_block(v, st1, home, bits);
    lemma_bitmap_csum_framed(v, st2, gi, true);
    let st3 = stage_bitmap_csum(v, st2, gi, true)->Ok_0;
    let n = desc_block(v.sb, gi);
    let b = block_at(st3.img, v.bs(), n)->Ok_0;
    lemma_desc_place(v.sb, gi);
    assert(is_meta(v, n));
    lemma_edit_framed(
        v,
        st3,
        n,
        itable_lowered(v, b, desc_off(v.sb, gi), gi, v.sb.inodes_per_group - bit - 1),
    );
}

pub(crate) proof fn lemma_inode_plan_framed(v: Vol, st: Stage, p: InodeAllocationPlan)
    requires
        v.wf(),
        p.bgd.group_idx < v.groups.len(),
        stage_inode_plan(v, st, p) is Ok,
    ensures
        framed(v, st, stage_inode_plan(v, st, p)->Ok_0),
{
    lemma_mark_inode_framed(v, st, p.inode);
    let st1 = stage_mark_inode(v, st, p.inode)->Ok_0;
    let gi = p.bgd.group_idx as int;
    let fb = p.bgd.free_blocks_delta as int;
    let fi = p.bgd.free_inodes_delta as int;
    let ud = p.bgd.used_dirs_delta as int;
    lemma_counters_framed(v, st1, gi, fb, fi, ud);
    let st2 = stage_counters(v, st1, gi, fb, fi, ud)->Ok_0;
    lemma_totals_framed(v, st2, p.sb.free_blocks_delta as int, p.sb.free_inodes_delta as int);
}

pub(crate) proof fn lemma_block_plan_framed(v: Vol, st: Stage, p: BlockAllocationPlan)
    requires
        v.wf(),
        p.bgd.group_idx < v.groups.len(),
        stage_block_plan(v, st, p) is Ok,
    ensures
        framed(v, st, stage_block_plan(v, st, p)->Ok_0),
{
    lemma_mark_blocks_framed(v, st, p.first_block, p.count as int);
    let st1 = stage_mark_blocks(v, st, p.first_block, p.count as int)->Ok_0;
    let gi = p.bgd.group_idx as int;
    let fb = p.bgd.free_blocks_delta as int;
    let fi = p.bgd.free_inodes_delta as int;
    let ud = p.bgd.used_dirs_delta as int;
    lemma_counters_framed(v, st1, gi, fb, fi, ud);
    let st2 = stage_counters(v, st1, gi, fb, fi, ud)->Ok_0;
    lemma_totals_framed(v, st2, p.sb.free_blocks_delta as int, p.sb.free_inodes_delta as int);
}

} // verus!
