//! What a read gives back of what was written.
use crate::allocator::{
    blocks_for, group_blocks, group_first_block, law_planned_run_is_free, law_planned_run_within, searched_bitmap,
};
use crate::bgd::inode_place;
use crate::bitmap::bit_free;
use crate::block_io::{block_at, lemma_with_block};
use crate::bytes::{le16, le32, splice, zeros};
use crate::checksum::{inode_crc_ok, law_stamped_inode_verifies};
use crate::commit::{committed, lemma_published_keeps};
use crate::contents::{data_block, lemma_block_start, replace_stage, replace_with_data, stage_data, whole_extent};
use crate::error::Error;
use crate::extent::{covering, extent_for, extents_in, Extent, ExtentHeader, ExtentVerifyCtx, EXT4_EXT_MAGIC};
use crate::extent_mut::law_node_round_trip;
use crate::file_io::{block_end, block_part, file_part};
use crate::file_mut::{runs_total, stage_free_runs};
use crate::fs::{checked_inode, raw_inode};
use crate::grow::{bitmaps_of, home_group, volume_plan};
use crate::inode::{
    block_area_of, extra_isize_of, flags_of, generation_of, inode_fault, mode_is_dir, mode_is_file, mode_of,
    size_of_file,
};
use crate::inode_edit::{after_write, root_with, with_block_area};
use crate::names::file_runs;
use crate::stage::{stage_counters, stage_inode, stage_mark_blocks, stage_totals};
use crate::volume::{fresh_stage, Stage, Vol};
use vstd::prelude::*;

verus! {

broadcast use crate::bytes::group_fields;

// -- what is never handed out -----------------------------------------------

/// Block `n` is marked used, so that no plan takes it.
pub open spec fn in_use(v: Vol, n: int) -> bool {
    forall|gi: int|
        0 <= gi < v.groups.len() && group_first_block(v.sb, gi) <= n < group_first_block(v.sb, gi) + group_blocks(
            v.sb,
            gi,
        ) && (#[trigger] searched_bitmap(v.sb, v.groups, gi, bitmaps_of(v))) is Ok ==> !bit_free(
            searched_bitmap(v.sb, v.groups, gi, bitmaps_of(v))->Ok_0,
            n - group_first_block(v.sb, gi),
        )
}

/// A block that is in use is in no run that a plan takes.
pub proof fn law_block_in_use_is_not_planned(v: Vol, count: u32, hint: u32, reserved: Seq<u64>, n: int)
    requires
        v.wf(),
        count <= i32::MAX,
        in_use(v, n),
        volume_plan(v, count, hint, reserved) is Ok,
    ensures
        ({
            let p = volume_plan(v, count, hint, reserved)->Ok_0;
            !(p.first_block <= n < p.first_block + count)
        }),
{
    law_planned_run_is_free(v.sb, v.groups, count, hint, reserved, bitmaps_of(v));
    let p = volume_plan(v, count, hint, reserved)->Ok_0;
    let gi = p.bgd.group_idx as int;
    let bm = searched_bitmap(v.sb, v.groups, gi, bitmaps_of(v))->Ok_0;
    if p.first_block <= n < p.first_block + count {
        assert(bit_free(bm, n - group_first_block(v.sb, gi)));
    }
}

// -- records ----------------------------------------------------------------

/// The block that holds inode `ino`'s record.
pub open spec fn record_block(v: Vol, ino: u32) -> int {
    inode_place(v.sb, v.groups, ino)->Ok_0.0 as int
}

pub(crate) proof fn lemma_same_place(v: Vol, st: Stage, ino: u32)
    requires
        v.wf(),
    ensures
        inode_place(v.sb, committed(v, st).groups, ino) == inode_place(v.sb, v.groups, ino),
{
    let gi = (ino - 1) / v.sb.inodes_per_group as int;
    crate::commit::lemma_published_len(v.groups, st.cleared);
    if ino > 0 {
        assert(gi >= 0) by (nonlinear_arith)
            requires
                ino > 0,
                v.sb.inodes_per_group > 0,
                gi == (ino - 1) / v.sb.inodes_per_group as int,
        ;
        if gi < v.groups.len() {
            lemma_published_keeps(v.groups, st.cleared, gi);
        }
    }
}

/// A record that was staged is the one the committed volume has, and every
/// other block is as it was staged.
pub proof fn law_record_reads_back(v: Vol, st: Stage, ino: u32, raw: Seq<u8>, k: int)
    requires
        v.wf(),
        raw.len() == v.sb.inode_size,
        stage_inode(v, st, ino, raw) is Ok,
        k >= 0,
    ensures
        ({
            let after = stage_inode(v, st, ino, raw)->Ok_0;
            &&& after.img.len() == st.img.len()
            &&& after.cleared == st.cleared
            &&& raw_inode(committed(v, after), ino) == Ok::<Seq<u8>, Error>(raw)
            &&& k != record_block(v, ino) ==> block_at(after.img, v.bs(), k) == block_at(st.img, v.bs(), k)
        }),
{
    let after = stage_inode(v, st, ino, raw)->Ok_0;
    let (block, off) = inode_place(v.sb, v.groups, ino)->Ok_0;
    let b = block_at(st.img, v.bs(), block as int)->Ok_0;
    let new = splice(b, off as int, raw);
    lemma_with_block(st.img, v.bs(), block as int, new, block as int);
    lemma_with_block(st.img, v.bs(), block as int, new, k);
    lemma_same_place(v, after, ino);
    let gi = (ino - 1) / v.sb.inodes_per_group as int;
    let byte = ((ino - 1) % v.sb.inodes_per_group as int) * v.sb.inode_size;
    assert(byte % v.bs() >= 0 && byte % v.bs() < v.bs());
    assert(new.subrange(off as int, off + v.sb.inode_size) =~= raw);
}

/// A record as a write leaves it holds the size and the blocks it was given,
/// and can be trusted.
pub(crate) proof fn lemma_after_write(v: Vol, ino: u32, raw: Seq<u8>, root: Seq<u8>, size: u64, sectors: u64, now: u32)
    requires
        v.wf(),
        raw.len() == v.sb.inode_size,
        inode_fault(raw) is None,
        root.len() == 60,
    ensures
        ({
            let out = after_write(v, ino, generation_of(raw), with_block_area(raw, root), size, sectors, now);
            &&& out.len() == raw.len()
            &&& block_area_of(out) == root
            &&& size_of_file(out) == size
            &&& mode_of(out) == mode_of(raw)
            &&& flags_of(out) == flags_of(raw)
            &&& generation_of(out) == generation_of(raw)
            &&& inode_fault(out) is None
            &&& v.csum.enabled ==> inode_crc_ok(v.csum.seed, ino, generation_of(out), out)
        }),
{
    let a = with_block_area(raw, root);
    let out = after_write(v, ino, generation_of(raw), a, size, sectors, now);
    assert(mode_of(a) == mode_of(raw) && flags_of(a) == flags_of(raw) && generation_of(a) == generation_of(raw)
        && extra_isize_of(a) == extra_isize_of(raw)) by {
        reveal(le16);
        reveal(le32);
    }
    assert(block_area_of(a) =~= root);
    assert(block_area_of(out) =~= block_area_of(a));
    let unstamped = crate::bytes::put32(
        crate::bytes::put32(crate::inode_edit::with_size_and_blocks(a, size, sectors), 0x0C, now),
        0x10,
        now,
    );
    if v.csum.enabled {
        law_stamped_inode_verifies(v.csum, ino, generation_of(raw), unstamped);
    }
}

// -- reading a laid-out file ------------------------------------------------

/// File block `l` is mapped, and its block holds its part of `data`, which
/// starts at byte `offset` of the file.
pub open spec fn holds_part(v: Vol, area: Seq<u8>, ctx: Option<ExtentVerifyCtx>, l: int, offset: int, data: Seq<u8>) -> bool {
    &&& extent_for(v.img, v.bs(), area, l, ctx) matches Ok(Some(e))
    &&& !e.uninitialized
    &&& e.place(l) >= 0
    &&& block_at(v.img, v.bs(), e.place(l)) matches Ok(b)
    &&& forall|j: int|
        0 <= j < v.bs() && offset <= l * v.bs() + j < offset + data.len() ==> #[trigger] b[j] == data[l * v.bs() + j
            - offset]
}

/// Where every block of a range holds its part of the data, a read of any
/// part of the range gives that part of the data.
pub(crate) proof fn lemma_reads_as(
    v: Vol,
    area: Seq<u8>,
    ctx: Option<ExtentVerifyCtx>,
    offset: int,
    data: Seq<u8>,
    from: int,
    to: int,
)
    requires
        v.bs() > 0,
        0 <= offset <= from <= to <= offset + data.len(),
        forall|l: int|
            from / v.bs() <= l && l * v.bs() < to ==> #[trigger] holds_part(v, area, ctx, l, offset, data),
    ensures
        file_part(v, area, ctx, from, to) == Ok::<Seq<u8>, Error>(data.subrange(from - offset, to - offset)),
    decreases to - from,
{
    if from < to {
        let bs = v.bs();
        let l = from / bs;
        let m = from % bs;
        vstd::arithmetic::div_mod::lemma_fundamental_div_mod(from, bs);
        assert(bs * l == l * bs) by (nonlinear_arith);
        let end = block_end(bs, from);
        let stop = if end < to {
            end
        } else {
            to
        };
        assert(end == l * bs + bs);
        assert(holds_part(v, area, ctx, l, offset, data));
        let e = extent_for(v.img, bs, area, l, ctx)->Ok_0->Some_0;
        let b = block_at(v.img, bs, e.place(l))->Ok_0;
        let at = e.place(l) * bs;
        let piece = v.img.subrange(at + m, at + m + (stop - from));
        let want = data.subrange(from - offset, stop - offset);
        assert forall|k: int| 0 <= k < stop - from implies piece[k] == want[k] by {
            let j = m + k;
            assert(b[j] == v.img[at + j]);
            assert(b[j] == data[l * bs + j - offset]);
        }
        assert(piece =~= want);
        assert(block_part(v, area, ctx, from, stop) == Ok::<Seq<u8>, Error>(want));
        assert forall|l2: int| stop / bs <= l2 && l2 * bs < to implies #[trigger] holds_part(
            v,
            area,
            ctx,
            l2,
            offset,
            data,
        ) by {
            assert(stop / bs >= l) by (nonlinear_arith)
                requires
                    bs > 0,
                    stop >= from,
                    l == from / bs,
            ;
        }
        lemma_reads_as(v, area, ctx, offset, data, stop, to);
        assert(want + data.subrange(stop - offset, to - offset) =~= data.subrange(from - offset, to - offset));
    } else {
        assert(data.subrange(from - offset, to - offset) =~= Seq::<u8>::empty());
    }
}

// -- whole contents ---------------------------------------------------------

pub(crate) proof fn lemma_stage_data(v: Vol, st: Stage, first: u64, data: Seq<u8>, n: nat, k: int)
    requires
        v.wf(),
        st.img.len() == v.img.len(),
        first + n <= u64::MAX,
        n <= blocks_for(data.len() as int, v.bs()),
        stage_data(v, st, first, data, n) is Ok,
        k >= 0,
    ensures
        ({
            let after = stage_data(v, st, first, data, n)->Ok_0;
            &&& after.img.len() == st.img.len()
            &&& after.cleared == st.cleared
            &&& block_at(after.img, v.bs(), k) == (if first <= k < first + n {
                Ok(data_block(data, k - first, v.bs()))
            } else {
                block_at(st.img, v.bs(), k)
            })
        }),
    decreases n,
{
    if n > 0 {
        let before = stage_data(v, st, first, data, (n - 1) as nat)->Ok_0;
        lemma_stage_data(v, st, first, data, (n - 1) as nat, k);
        lemma_with_block(
            before.img,
            v.bs(),
            first + n - 1,
            data_block(data, n - 1, v.bs()),
            k,
        );
    }
}

/// The tree of a file that is one run maps each of its blocks into the run.
pub(crate) proof fn lemma_whole_extent_maps(img: Seq<u8>, bs: int, first: u64, n: int, l: int, ctx: Option<ExtentVerifyCtx>)
    requires
        0 < n <= 32768,
        first < 0x1_0000_0000_0000,
        0 <= l < n,
    ensures
        root_with(seq![whole_extent(first, n)]).len() == 60,
        extent_for(img, bs, root_with(seq![whole_extent(first, n)]), l, ctx) == Ok::<Option<Extent>, Error>(
            Some(whole_extent(first, n)),
        ),
{
    let e = whole_extent(first, n);
    let h = ExtentHeader { magic: EXT4_EXT_MAGIC, entries: 0, max: 4, depth: 0, generation: 0 };
    law_node_round_trip(h, seq![e], 60);
    crate::extent_mut::lemma_with_extents_len(
        crate::extent_mut::with_header(zeros(60), 1, 4, 0, 0),
        seq![e],
    );
    let root = root_with(seq![e]);
    let got = extents_in(root, 1);
    assert(got =~= seq![e]);
    assert(got[0] == e);
    assert(e.covers(l));
    assert(covering(got, l) == Some(e));
}

pub(crate) proof fn lemma_totals_len(v: Vol, st: Stage, fb: int, fi: int)
    ensures
        stage_totals(v, st, fb, fi) matches Ok(after) ==> after.img.len() == st.img.len(),
{
}

pub(crate) proof fn lemma_counters_len(v: Vol, st: Stage, gi: int, fb: int, fi: int, ud: int)
    ensures
        stage_counters(v, st, gi, fb, fi, ud) matches Ok(after) ==> after.img.len() == st.img.len(),
{
}

pub(crate) proof fn lemma_mark_len(v: Vol, st: Stage, start: u64, len: int)
    ensures
        stage_mark_blocks(v, st, start, len) matches Ok(after) ==> after.img.len() == st.img.len(),
{
}

pub(crate) proof fn lemma_free_runs_len(v: Vol, st: Stage, runs: Seq<(u64, u32)>)
    ensures
        stage_free_runs(v, st, runs) matches Ok(after) ==> after.img.len() == st.img.len(),
    decreases runs.len(),
{
    if runs.len() > 0 {
        lemma_free_runs_len(v, st, runs.drop_last());
    }
}

/// A record that is a file's and was written as it should be can be read.
pub(crate) proof fn lemma_trusted(v: Vol, ino: u32, raw: Seq<u8>)
    requires
        raw_inode(v, ino) == Ok::<Seq<u8>, Error>(raw),
        inode_fault(raw) is None,
        mode_is_file(mode_of(raw)),
        v.csum.enabled ==> inode_crc_ok(v.csum.seed, ino, generation_of(raw), raw),
    ensures
        checked_inode(v, ino) == Ok::<Seq<u8>, Error>(raw),
{
    assert(!mode_is_dir(mode_of(raw)));
}

/// The record of inode `ino` is a file's, of `size` bytes, and reading any
/// part of the file gives that part of `data`, which lies at byte `offset`.
pub open spec fn reads_back(v: Vol, ino: u32, size: int, offset: int, data: Seq<u8>, ctx: Option<ExtentVerifyCtx>) -> bool {
    &&& checked_inode(v, ino) matches Ok(raw)
    &&& mode_is_file(mode_of(raw))
    &&& size_of_file(raw) == size
    &&& forall|from: int, to: int|
        offset <= from <= to <= offset + data.len() ==> #[trigger] file_part(v, block_area_of(raw), ctx, from, to) == Ok::<
            Seq<u8>,
            Error,
        >(data.subrange(from - offset, to - offset))
}

/// Block `i` of some data holds its part of the data.
proof fn lemma_data_block_holds(data: Seq<u8>, bs: int, i: int, j: int)
    requires
        bs > 0,
        0 <= i < blocks_for(data.len() as int, bs),
        0 <= j < bs,
        i * bs + j < data.len(),
    ensures
        data_block(data, i, bs)[j] == data[i * bs + j],
{
    lemma_block_start(data.len() as int, bs, i);
}

pub(crate) proof fn lemma_blocks_reach(len: int, bs: int, l: int)
    requires
        bs > 0,
        len > 0,
        0 <= l,
        l * bs < len,
    ensures
        l < blocks_for(len, bs),
{
    crate::superblock::lemma_div_ceil(len, bs);
    vstd::arithmetic::div_mod::lemma_fundamental_div_mod(len, bs);
    let q = len / bs;
    let m = len % bs;
    assert(l <= q) by (nonlinear_arith)
        requires
            len == bs * q + m,
            0 <= m < bs,
            l * bs < len,
            bs > 0,
    ;
    if m == 0 {
        assert(l < q) by (nonlinear_arith)
            requires
                len == bs * q,
                l * bs < len,
                bs > 0,
        ;
    }
}

#[verifier::rlimit(60)]
proof fn lemma_replaced(v: Vol, st: Stage, ino: u32, raw: Seq<u8>, data: Seq<u8>, freed: int, now: u32, ctx: Option<
    ExtentVerifyCtx,
>)
    requires
        v.wf(),
        st.img.len() == v.img.len(),
        raw.len() == v.sb.inode_size,
        inode_fault(raw) is None,
        mode_is_file(mode_of(raw)),
        0 < data.len() <= u64::MAX,
        in_use(v, record_block(v, ino)),
        replace_with_data(v, st, ino, raw, data, freed, now) is Ok,
    ensures
        ({
            let (after, n) = replace_with_data(v, st, ino, raw, data, freed, now)->Ok_0;
            n == data.len() && reads_back(committed(v, after), ino, data.len() as int, 0, data, ctx)
        }),
{
    let bs = v.bs();
    let n = blocks_for(data.len() as int, bs);
    lemma_blocks_reach(data.len() as int, bs, 0);
    let plan = volume_plan(v, n as u32, home_group(v, ino), Seq::empty())->Ok_0;
    law_planned_run_within(v.sb, v.groups, n as u32, home_group(v, ino), Seq::empty(), bitmaps_of(v));
    law_block_in_use_is_not_planned(v, n as u32, home_group(v, ino), Seq::empty(), record_block(v, ino));
    let first = plan.first_block;
    let st1 = stage_mark_blocks(v, st, first, n)->Ok_0;
    lemma_mark_len(v, st, first, n);
    let st2 = stage_counters(
        v,
        st1,
        plan.bgd.group_idx as int,
        plan.bgd.free_blocks_delta as int,
        plan.bgd.free_inodes_delta as int,
        plan.bgd.used_dirs_delta as int,
    )->Ok_0;
    lemma_counters_len(
        v,
        st1,
        plan.bgd.group_idx as int,
        plan.bgd.free_blocks_delta as int,
        plan.bgd.free_inodes_delta as int,
        plan.bgd.used_dirs_delta as int,
    );
    let st3 = stage_totals(v, st2, freed - n, 0)->Ok_0;
    lemma_totals_len(v, st2, freed - n, 0);
    let st4 = stage_data(v, st3, first, data, n as nat)->Ok_0;
    let root = root_with(seq![whole_extent(first, n)]);
    let sectors = (n * (bs / 512)) as u64;
    let raw2 = after_write(
        v,
        ino,
        generation_of(raw),
        with_block_area(raw, root),
        data.len() as u64,
        sectors,
        now,
    );
    lemma_whole_extent_maps(v.img, bs, first, n, 0, ctx);
    lemma_after_write(v, ino, raw, root, data.len() as u64, sectors, now);
    let after = stage_inode(v, st4, ino, raw2)->Ok_0;
    let w = committed(v, after);
    law_record_reads_back(v, st4, ino, raw2, 0);
    lemma_trusted(w, ino, raw2);
    assert forall|from: int, to: int| 0 <= from <= to <= data.len() implies #[trigger] file_part(
        w,
        block_area_of(raw2),
        ctx,
        from,
        to,
    ) == Ok::<Seq<u8>, Error>(data.subrange(from - 0, to - 0)) by {
        assert forall|l: int| from / bs <= l && l * bs < to implies #[trigger] holds_part(w, root, ctx, l, 0, data) by {
            assert(from / bs >= 0) by (nonlinear_arith)
                requires
                    from >= 0,
                    bs > 0,
            ;
            lemma_blocks_reach(data.len() as int, bs, l);
            lemma_whole_extent_maps(w.img, bs, first, n, l, ctx);
            let k = first + l;
            lemma_stage_data(v, st3, first, data, n as nat, k);
            law_record_reads_back(v, st4, ino, raw2, k);
            let b = data_block(data, l, bs);
            assert(block_at(w.img, bs, k) == Ok::<Seq<u8>, Error>(b));
            assert forall|j: int| 0 <= j < bs && 0 <= l * bs + j < 0 + data.len() implies #[trigger] b[j] == data[l * bs
                + j - 0] by {
                lemma_data_block_holds(data, bs, l, j);
            }
        }
        lemma_reads_as(w, root, ctx, 0, data, from, to);
    }
}

/// A file whose contents were replaced reads back as the new contents, all of
/// them or any part, whether or not the tree's checksums are verified.
pub proof fn law_replaced_contents_read_back(
    v: Vol,
    ino: u32,
    raw: Seq<u8>,
    data: Seq<u8>,
    now: u32,
    ctx: Option<ExtentVerifyCtx>,
)
    requires
        v.wf(),
        checked_inode(v, ino) == Ok::<Seq<u8>, Error>(raw),
        mode_is_file(mode_of(raw)),
        data.len() <= u64::MAX,
        in_use(v, record_block(v, ino)),
        replace_stage(v, ino, raw, data, now) is Ok,
    ensures
        ({
            let (after, n) = replace_stage(v, ino, raw, data, now)->Ok_0;
            n == data.len() && reads_back(committed(v, after), ino, data.len() as int, 0, data, ctx)
        }),
{
    let runs = file_runs(v, raw)->Ok_0;
    let st1 = stage_free_runs(v, fresh_stage(v), runs)->Ok_0;
    lemma_free_runs_len(v, fresh_stage(v), runs);
    if data.len() == 0 {
        let freed = runs_total(runs);
        let st2 = if freed > 0 {
            stage_totals(v, st1, freed, 0)->Ok_0
        } else {
            st1
        };
        let root = root_with(Seq::empty());
        let raw2 = after_write(v, ino, generation_of(raw), with_block_area(raw, root), 0, 0, now);
        assert(root.len() == 60);
        lemma_after_write(v, ino, raw, root, 0, 0, now);
        law_record_reads_back(v, st2, ino, raw2, 0);
        let w = committed(v, stage_inode(v, st2, ino, raw2)->Ok_0);
        lemma_trusted(w, ino, raw2);
        assert forall|from: int, to: int| 0 <= from <= to <= 0 + data.len() implies #[trigger] file_part(
            w,
            block_area_of(raw2),
            ctx,
            from,
            to,
        ) == Ok::<Seq<u8>, Error>(data.subrange(from - 0, to - 0)) by {
            assert(data.subrange(0, 0) =~= Seq::<u8>::empty());
        }
    } else {
        lemma_replaced(v, st1, ino, raw, data, runs_total(runs), now, ctx);
    }
}

} // verus!
