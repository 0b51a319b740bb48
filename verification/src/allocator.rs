//! Planning of block and inode allocations.
//!
//! A plan names what to allocate and every edit that goes with it: bits in a
//! bitmap, counters in a descriptor and in the superblock. Nothing is written
//! here.
use crate::bgd::{BlockGroupDescriptor, BLOCK_UNINIT, INODE_UNINIT};
use crate::bitmap::{
    bit_free, bit_set, bits_held, find_first_free, find_free_run, first_free, free_run, lemma_first_free,
    lemma_free_run, lemma_with_bit, lemma_with_bits, put_bit, put_bits, with_bit, with_bits,
};
use crate::bytes::{zeroed, zeros};
use crate::error::{Error, Result};
use crate::superblock::{lemma_div_ceil, Superblock};
use vstd::prelude::*;

verus! {

/// A run of bits to set or clear in one bitmap block.
#[derive(Debug, Clone, Copy, PartialEq, Eq)]
pub struct BitmapWrite {
    /// Block that holds the bitmap.
    pub bitmap_block: u64,
    /// First bit of the run.
    pub bit_start: u32,
    /// Number of bits.
    pub count: u32,
    /// Set the bits, or clear them.
    pub set: bool,
}

/// A change to one group descriptor's counters.
#[derive(Debug, Clone, Copy, PartialEq, Eq)]
pub struct BgdCounterUpdate {
    pub group_idx: u32,
    /// Delta to apply to `bg_free_blocks_count`.
    pub free_blocks_delta: i32,
    /// Delta to apply to `bg_free_inodes_count`.
    pub free_inodes_delta: i32,
    /// Delta to apply to `bg_used_dirs_count`.
    pub used_dirs_delta: i32,
}

/// A change to the superblock free-counter totals.
#[derive(Debug, Clone, Copy, PartialEq, Eq)]
pub struct SuperblockCounterUpdate {
    pub free_blocks_delta: i64,
    pub free_inodes_delta: i32,
}

/// Complete plan for one block-allocation request.
#[derive(Debug, Clone, Copy, PartialEq, Eq)]
pub struct BlockAllocationPlan {
    /// First allocated fs block (absolute, not group-relative).
    pub first_block: u64,
    /// Number of contiguous blocks allocated.
    pub count: u32,
    pub bitmap: BitmapWrite,
    pub bgd: BgdCounterUpdate,
    pub sb: SuperblockCounterUpdate,
}

/// Complete plan for one inode-allocation request.
#[derive(Debug, Clone, Copy, PartialEq, Eq)]
pub struct InodeAllocationPlan {
    /// Allocated inode number (1-based).
    pub inode: u32,
    /// True if this was a directory allocation (also bumps used_dirs).
    pub is_dir: bool,
    pub bitmap: BitmapWrite,
    pub bgd: BgdCounterUpdate,
    pub sb: SuperblockCounterUpdate,
}

/// What each bitmap block reads as.
pub type BitmapModel = spec_fn(u64) -> Result<Seq<u8>>;

/// A read's outcome with its bytes taken as a sequence.
pub open spec fn outcome(r: Result<Vec<u8>>) -> Result<Seq<u8>> {
    match r {
        Ok(v) => Ok(v@),
        Err(e) => Err(e),
    }
}

/// `f` reads what `m` says, or fails on the device.
pub open spec fn reads_as<F: Fn(u64) -> Result<Vec<u8>>>(f: F, m: BitmapModel) -> bool {
    forall|b: u64, r: Result<Vec<u8>>|
        call_ensures(f, (b,), r) ==> outcome(r) == m(b) || r == Err::<Vec<u8>, Error>(Error::Io)
}

/// Some block that `m` can read may fail to be read by `f`.
pub open spec fn may_fail<F: Fn(u64) -> Result<Vec<u8>>>(f: F, m: BitmapModel) -> bool {
    exists|b: u64|
        call_ensures(f, (b,), Err::<Vec<u8>, Error>(Error::Io)) && m(b) != Err::<Seq<u8>, Error>(Error::Io)
}

// -- geometry ---------------------------------------------------------------

/// First block of group `gi`.
pub open spec fn group_first_block(sb: Superblock, gi: int) -> int {
    sb.first_data_block + gi * sb.blocks_per_group
}

/// How many blocks group `gi` has: the last group may be short.
pub open spec fn group_blocks(sb: Superblock, gi: int) -> int {
    let rest = (sb.blocks_count - sb.first_data_block) % sb.blocks_per_group as int;
    if gi + 1 < sb.group_count() || rest == 0 {
        sb.blocks_per_group as int
    } else {
        rest
    }
}

pub(crate) proof fn lemma_group_first_block(sb: Superblock, gi: int)
    requires
        0 <= gi <= u32::MAX,
    ensures
        0 <= gi * sb.blocks_per_group,
        group_first_block(sb, gi) + sb.blocks_per_group <= u64::MAX,
{
    assert(0 <= gi * sb.blocks_per_group <= 0xFFFF_FFFF * 0xFFFF_FFFF) by (nonlinear_arith)
        requires
            0 <= gi <= 0xFFFF_FFFF,
            0 <= sb.blocks_per_group <= 0xFFFF_FFFF,
    ;
}

fn first_block_of(sb: &Superblock, gi: u32) -> (r: u64)
    ensures
        r == group_first_block(*sb, gi as int),
        r + sb.blocks_per_group <= u64::MAX,
{
    proof {
        lemma_group_first_block(*sb, gi as int);
    }
    (gi as u64) * (sb.blocks_per_group as u64) + sb.first_data_block as u64
}

/// How many blocks group `gi` has.
pub fn blocks_in_group(sb: &Superblock, gi: u32) -> (r: u32)
    requires
        sb.blocks_per_group > 0,
        sb.first_data_block <= sb.blocks_count,
    ensures
        r == group_blocks(*sb, gi as int),
        0 < r <= sb.blocks_per_group,
{
    let ngroups: u64 = sb.block_group_count();
    if (gi as u64) < ngroups && (gi as u64) + 1 < ngroups {
        return sb.blocks_per_group;
    }
    let remainder: u64 = (sb.blocks_count - sb.first_data_block as u64) % (
    sb.blocks_per_group as u64);
    if remainder == 0 {
        sb.blocks_per_group
    } else {
        remainder as u32
    }
}

/// How many blocks `n` bytes take.
pub open spec fn blocks_for(n: int, bs: int) -> int {
    (n + bs - 1) / bs
}

/// How many blocks `n` bytes take.
pub fn blocks_for_bytes(n: u64, bs: u64) -> (r: u64)
    requires
        bs > 1,
    ensures
        r == blocks_for(n as int, bs as int),
        r <= n,
{
    proof {
        lemma_div_ceil(n as int, bs as int);
        assert(n / bs < n || n == 0) by (nonlinear_arith)
            requires
                bs > 1,
        ;
        assert(0u64 / bs == 0) by (nonlinear_arith)
            requires
                bs > 1,
        ;
        assert(n == 0 ==> n % bs == 0) by (nonlinear_arith)
            requires
                bs > 1,
        ;
    }
    if n % bs == 0 {
        n / bs
    } else {
        n / bs + 1
    }
}

// -- reserved blocks --------------------------------------------------------

/// `bm` with the bit of every reserved block of this group set. A block
/// outside the group's `max_bits` blocks from `first` on is not its business.
pub open spec fn mark_reserved(bm: Seq<u8>, first: int, max_bits: int, reserved: Seq<u64>) -> Seq<u8>
    decreases reserved.len(),
{
    if reserved.len() == 0 {
        bm
    } else {
        let before = mark_reserved(bm, first, max_bits, reserved.drop_last());
        let off = reserved.last() - first;
        if 0 <= off < max_bits {
            with_bit(before, off, true)
        } else {
            before
        }
    }
}

/// A bit of the marked bitmap is set where it was, or where a reservation
/// falls.
pub proof fn lemma_mark_reserved(bm: Seq<u8>, first: int, max_bits: int, reserved: Seq<u64>)
    ensures
        mark_reserved(bm, first, max_bits, reserved).len() == bm.len(),
        forall|j: int|
            0 <= j < 8 * bm.len() ==> #[trigger] bit_set(mark_reserved(bm, first, max_bits, reserved), j)
                == (bit_set(bm, j) || (j < max_bits && exists|k: int|
                0 <= k < reserved.len() && #[trigger] reserved[k] == first + j)),
    decreases reserved.len(),
{
    if reserved.len() > 0 {
        let shorter = reserved.drop_last();
        lemma_mark_reserved(bm, first, max_bits, shorter);
        let before = mark_reserved(bm, first, max_bits, shorter);
        let off = reserved.last() - first;
        lemma_with_bit(before, off, true);
        assert forall|j: int| 0 <= j < 8 * bm.len() implies #[trigger] bit_set(
            mark_reserved(bm, first, max_bits, reserved),
            j,
        ) == (bit_set(bm, j) || (j < max_bits && exists|k: int|
            0 <= k < reserved.len() && #[trigger] reserved[k] == first + j)) by {
            if exists|k: int| 0 <= k < shorter.len() && #[trigger] shorter[k] == first + j {
                let k = choose|k: int| 0 <= k < shorter.len() && #[trigger] shorter[k] == first + j;
                assert(reserved[k] == first + j);
            }
            if exists|k: int| 0 <= k < reserved.len() && #[trigger] reserved[k] == first + j {
                let k = choose|k: int| 0 <= k < reserved.len() && #[trigger] reserved[k] == first + j;
                if k < shorter.len() {
                    assert(shorter[k] == first + j);
                }
            }
            assert(reserved[reserved.len() - 1] == reserved.last());
        }
    }
}

/// Set the bits of `reserved` that fall inside group `gi`.
pub fn mark_reserved_in_group(sb: &Superblock, gi: u32, max_bits: u32, reserved: &[u64], bitmap: &mut Vec<u8>)
    ensures
        final(bitmap)@ == mark_reserved(
            old(bitmap)@,
            group_first_block(*sb, gi as int),
            max_bits as int,
            reserved@,
        ),
{
    let first: u64 = first_block_of(sb, gi);
    let ghost bm0 = bitmap@;
    let mut n: usize = 0;
    assert(reserved@.take(0) =~= Seq::<u64>::empty());
    while n < reserved.len()
        invariant
            n <= reserved@.len(),
            first == group_first_block(*sb, gi as int),
            bitmap@ == mark_reserved(bm0, first as int, max_bits as int, reserved@.take(n as int)),
        decreases reserved@.len() - n,
    {
        let block: u64 = reserved[n];
        if block >= first && block - first < max_bits as u64 {
            put_bit(bitmap, block - first, true);
        }
        n += 1;
        assert(reserved@.take(n as int).drop_last() =~= reserved@.take(n - 1));
    }
    assert(reserved@.take(n as int) =~= reserved@);
}

/// The blocks of one run.
pub open spec fn run_blocks(first: u64, count: u32) -> Seq<u64> {
    Seq::new(count as nat, |i: int| (first + i) as u64)
}

/// The blocks of every plan in turn.
pub open spec fn plans_blocks(plans: Seq<BlockAllocationPlan>) -> Seq<u64>
    decreases plans.len(),
{
    if plans.len() == 0 {
        Seq::empty()
    } else {
        plans_blocks(plans.drop_last()) + run_blocks(plans.last().first_block, plans.last().count)
    }
}

fn push_run(out: &mut Vec<u64>, first: u64, count: u32)
    requires
        first + count <= u64::MAX,
    ensures
        final(out)@ == old(out)@ + run_blocks(first, count),
{
    let ghost start = out@;
    let mut i: u32 = 0;
    assert(start + run_blocks(first, 0) =~= start);
    while i < count
        invariant
            i <= count,
            first + count <= u64::MAX,
            out@ == start + run_blocks(first, i),
        decreases count - i,
    {
        out.push(first + i as u64);
        i += 1;
        assert(out@ =~= start + run_blocks(first, i));
    }
}

/// Every block a commit has already spoken for: the data plan's
/// whole run, plus the whole run of every meta plan handed out so far.
pub fn reserved_blocks(data: &BlockAllocationPlan, handed_out: &[BlockAllocationPlan]) -> (r: Vec<u64>)
    requires
        data.first_block + data.count <= u64::MAX,
        forall|i: int|
            0 <= i < handed_out@.len() ==> (#[trigger] handed_out@[i]).first_block + handed_out@[i].count
                <= u64::MAX,
    ensures
        r@ == run_blocks(data.first_block, data.count) + plans_blocks(handed_out@),
{
    let mut r: Vec<u64> = Vec::new();
    push_run(&mut r, data.first_block, data.count);
    let ghost base = run_blocks(data.first_block, data.count);
    let mut n: usize = 0;
    assert(r@ =~= base + plans_blocks(handed_out@.take(0)));
    while n < handed_out.len()
        invariant
            n <= handed_out@.len(),
            r@ == base + plans_blocks(handed_out@.take(n as int)),
            forall|i: int|
                0 <= i < handed_out@.len() ==> (#[trigger] handed_out@[i]).first_block
                    + handed_out@[i].count <= u64::MAX,
        decreases handed_out@.len() - n,
    {
        push_run(&mut r, handed_out[n].first_block, handed_out[n].count);
        n += 1;
        assert(handed_out@.take(n as int).drop_last() =~= handed_out@.take(n - 1));
        assert(r@ =~= base + plans_blocks(handed_out@.take(n as int)));
    }
    assert(handed_out@.take(n as int) =~= handed_out@);
    r
}

// -- metadata a group owns --------------------------------------------------

/// The run that `block..block + count` makes in group `gi`, if it starts in
/// the group.
pub open spec fn run_in_group(sb: Superblock, gi: int, block: u64, count: int) -> Seq<(u64, u64)> {
    let start = group_first_block(sb, gi);
    if start <= block < start + sb.blocks_per_group {
        seq![((block - start) as u64, count as u64)]
    } else {
        Seq::empty()
    }
}

/// The runs, as (first bit, length), of metadata that group `gi` holds: the
/// superblock copy with the descriptor tables, its own bitmaps and its own
/// inode table.
pub open spec fn metadata_runs(sb: Superblock, groups: Seq<BlockGroupDescriptor>, gi: int) -> Seq<(u64, u64)> {
    let supers = if sb.has_super(gi) {
        seq![
            (
                0u64,
                (1 + blocks_for(groups.len() * sb.desc_size, sb.bs()) + sb.reserved_gdt_blocks) as u64,
            ),
        ]
    } else {
        Seq::empty()
    };
    if gi < groups.len() {
        let g = groups[gi];
        supers + run_in_group(sb, gi, g.block_bitmap, 1) + run_in_group(sb, gi, g.inode_bitmap, 1)
            + run_in_group(
            sb,
            gi,
            g.inode_table,
            blocks_for(sb.inodes_per_group * sb.inode_size, sb.bs()),
        )
    } else {
        supers
    }
}

fn push_in_group(runs: &mut Vec<(u64, u64)>, sb: &Superblock, gi: u32, block: u64, count: u64)
    ensures
        final(runs)@ == old(runs)@ + run_in_group(*sb, gi as int, block, count as int),
{
    let ghost before = runs@;
    let start: u64 = first_block_of(sb, gi);
    if block >= start && block - start < sb.blocks_per_group as u64 {
        runs.push((block - start, count));
    }
    assert(runs@ =~= before + run_in_group(*sb, gi as int, block, count as int));
}

/// The runs of metadata that group `gi` holds, as (first bit, length).
pub fn group_owned_metadata_runs(sb: &Superblock, groups: &[BlockGroupDescriptor], gi: usize) -> (r: Vec<(
    u64,
    u64,
)>)
    requires
        sb.wf(),
        groups@.len() <= u32::MAX,
        gi <= u32::MAX,
    ensures
        r@ == metadata_runs(*sb, groups@, gi as int),
        forall|i: int| 0 <= i < r@.len() ==> (#[trigger] r@[i]).0 + r@[i].1 <= u64::MAX,
{
    let bs: u64 = sb.block_size() as u64;
    let mut runs: Vec<(u64, u64)> = Vec::new();
    if sb.group_has_super(gi as u64) {
        proof {
            assert(groups@.len() * sb.desc_size <= 0xFFFF_FFFF * 0xFFFF) by (nonlinear_arith)
                requires
                    groups@.len() <= 0xFFFF_FFFF,
                    sb.desc_size <= 0xFFFF,
            ;
        }
        let gdt_blocks: u64 = blocks_for_bytes((groups.len() as u64) * (sb.desc_size as u64), bs);
        runs.push((0, 1 + gdt_blocks + sb.reserved_gdt_blocks as u64));
    }
    if gi >= groups.len() {
        return runs;
    }
    proof {
        assert(sb.inodes_per_group * sb.inode_size <= 0xFFFF_FFFF * 0xFFFF) by (nonlinear_arith)
            requires
                sb.inodes_per_group <= 0xFFFF_FFFF,
                sb.inode_size <= 0xFFFF,
        ;
    }
    let itable_blocks: u64 = blocks_for_bytes(
        (sb.inodes_per_group as u64) * (sb.inode_size as u64),
        bs,
    );
    let g: BlockGroupDescriptor = groups[gi];
    push_in_group(&mut runs, sb, gi as u32, g.block_bitmap, 1);
    push_in_group(&mut runs, sb, gi as u32, g.inode_bitmap, 1);
    push_in_group(&mut runs, sb, gi as u32, g.inode_table, itable_blocks);
    runs
}

/// `bm` with the bits of the runs set, as far as the group's `max_bits` go.
pub open spec fn mark_runs(bm: Seq<u8>, runs: Seq<(u64, u64)>, max_bits: int) -> Seq<u8>
    decreases runs.len(),
{
    if runs.len() == 0 {
        bm
    } else {
        let before = mark_runs(bm, runs.drop_last(), max_bits);
        let (first, count) = runs.last();
        let end = if first + count <= max_bits {
            first + count
        } else {
            max_bits
        };
        if first < end {
            with_bits(before, first as int, (end - first) as nat, true)
        } else {
            before
        }
    }
}

/// Set the bits of the runs, as far as the group's `max_bits` go.
pub fn mark_all_runs(bm: &mut Vec<u8>, runs: &[(u64, u64)], max_bits: u32)
    requires
        forall|i: int| 0 <= i < runs@.len() ==> (#[trigger] runs@[i]).0 + runs@[i].1 <= u64::MAX,
    ensures
        final(bm)@ == mark_runs(old(bm)@, runs@, max_bits as int),
        final(bm)@.len() == old(bm)@.len(),
{
    proof {
        lemma_mark_runs_len(bm@, runs@, max_bits as int);
    }
    let ghost bm0 = bm@;
    let mut n: usize = 0;
    assert(runs@.take(0) =~= Seq::<(u64, u64)>::empty());
    while n < runs.len()
        invariant
            n <= runs@.len(),
            forall|i: int| 0 <= i < runs@.len() ==> (#[trigger] runs@[i]).0 + runs@[i].1 <= u64::MAX,
            bm@ == mark_runs(bm0, runs@.take(n as int), max_bits as int),
        decreases runs@.len() - n,
    {
        let (first, count): (u64, u64) = runs[n];
        assert(runs@[n as int].0 + runs@[n as int].1 <= u64::MAX);
        let end: u64 = if first + count <= max_bits as u64 {
            first + count
        } else {
            max_bits as u64
        };
        if first < end {
            put_bits(bm, first, end - first, true);
        }
        n += 1;
        assert(runs@.take(n as int).drop_last() =~= runs@.take(n - 1));
    }
    assert(runs@.take(n as int) =~= runs@);
}

pub(crate) proof fn lemma_mark_runs_len(bm: Seq<u8>, runs: Seq<(u64, u64)>, max_bits: int)
    ensures
        mark_runs(bm, runs, max_bits).len() == bm.len(),
    decreases runs.len(),
{
    if runs.len() > 0 {
        lemma_mark_runs_len(bm, runs.drop_last(), max_bits);
        let before = mark_runs(bm, runs.drop_last(), max_bits);
        let (first, count) = runs.last();
        let end = if first + count <= max_bits {
            first + count
        } else {
            max_bits
        };
        if first < end {
            lemma_with_bits(before, first as int, (end - first) as nat, true);
        }
    }
}

/// The block bitmap of a group whose bitmap was never written: free, but for
/// the metadata the group holds.
pub open spec fn fresh_bitmap(sb: Superblock, groups: Seq<BlockGroupDescriptor>, gi: int) -> Seq<u8> {
    mark_runs(zeros(sb.bs() as nat), metadata_runs(sb, groups, gi), group_blocks(sb, gi))
}

/// The block bitmap of a group whose bitmap was never written.
pub fn fresh_block_bitmap(sb: &Superblock, groups: &[BlockGroupDescriptor], gi: u32) -> (r: Vec<u8>)
    requires
        sb.wf(),
        groups@.len() <= u32::MAX,
    ensures
        r@ == fresh_bitmap(*sb, groups@, gi as int),
{
    let mut bm: Vec<u8> = zeroed(sb.block_size() as usize);
    let runs: Vec<(u64, u64)> = group_owned_metadata_runs(sb, groups, gi as usize);
    proof {
        assert(groups@.len() * sb.desc_size <= 0xFFFF_FFFF * 0xFFFF) by (nonlinear_arith)
            requires
                groups@.len() <= 0xFFFF_FFFF,
                sb.desc_size <= 0xFFFF,
        ;
        assert(sb.inodes_per_group * sb.inode_size <= 0xFFFF_FFFF * 0xFFFF) by (nonlinear_arith)
            requires
                sb.inodes_per_group <= 0xFFFF_FFFF,
                sb.inode_size <= 0xFFFF,
        ;
        lemma_blocks_for_le(groups@.len() * sb.desc_size, sb.bs());
        lemma_blocks_for_le(sb.inodes_per_group * sb.inode_size, sb.bs());
        lemma_group_first_block(*sb, gi as int);
    }
    let max_bits: u32 = blocks_in_group(sb, gi);
    mark_all_runs(&mut bm, &runs, max_bits);
    bm
}

pub(crate) proof fn lemma_blocks_for_le(n: int, bs: int)
    requires
        0 <= n,
        bs > 0,
    ensures
        0 <= blocks_for(n, bs) <= n,
{
    lemma_div_ceil(n, bs);
    assert(0 <= n / bs <= n) by (nonlinear_arith)
        requires
            0 <= n,
            bs > 0,
    ;
    assert(n % bs != 0 ==> n / bs < n) by (nonlinear_arith)
        requires
            0 <= n,
            bs > 0,
    ;
}

// -- block allocation -------------------------------------------------------

/// The group tried at the `step`th try, starting from `hint`.
pub open spec fn group_at(hint: int, step: int, n: int) -> int {
    (hint + step) % n
}

/// The first group to try.
pub open spec fn clamp_hint(hint: int, n: int) -> int {
    if hint < n {
        hint
    } else {
        n - 1
    }
}

/// The bitmap a search of group `gi` goes by.
pub open spec fn searched_bitmap(sb: Superblock, groups: Seq<BlockGroupDescriptor>, gi: int, m: BitmapModel) -> Result<
    Seq<u8>,
> {
    if groups[gi].blocks_uninit() {
        Ok(fresh_bitmap(sb, groups, gi))
    } else {
        m(groups[gi].block_bitmap)
    }
}

/// The plan that takes `count` blocks of group `gi` from bit `bit` on.
pub open spec fn block_plan(sb: Superblock, groups: Seq<BlockGroupDescriptor>, gi: int, bit: u32, count: u32) -> BlockAllocationPlan {
    BlockAllocationPlan {
        first_block: (group_first_block(sb, gi) + bit) as u64,
        count,
        bitmap: BitmapWrite {
            bitmap_block: groups[gi].block_bitmap,
            bit_start: bit,
            count,
            set: true,
        },
        bgd: BgdCounterUpdate {
            group_idx: gi as u32,
            free_blocks_delta: (-count) as i32,
            free_inodes_delta: 0,
            used_dirs_delta: 0,
        },
        sb: SuperblockCounterUpdate { free_blocks_delta: (-count) as i64, free_inodes_delta: 0 },
    }
}

/// Where group `gi` has `count` blocks in a row that are neither used nor
/// reserved.
pub open spec fn room_in_group(
    sb: Superblock,
    bm: Seq<u8>,
    gi: int,
    reserved: Seq<u64>,
    count: int,
) -> Option<u32> {
    let max_bits = group_blocks(sb, gi);
    let marked = mark_reserved(bm, group_first_block(sb, gi), max_bits, reserved);
    free_run(marked, 0, bits_held(marked, max_bits), count)
}

/// The plan found from the `step`th group on.
pub open spec fn blocks_planned_from(
    sb: Superblock,
    groups: Seq<BlockGroupDescriptor>,
    count: u32,
    hint: int,
    reserved: Seq<u64>,
    m: BitmapModel,
    step: int,
) -> Result<BlockAllocationPlan>
    decreases groups.len() - step,
{
    if step >= groups.len() {
        Err(Error::Corrupt("no group has a contiguous free run of this size"))
    } else {
        let gi = group_at(hint, step, groups.len() as int);
        let next = blocks_planned_from(sb, groups, count, hint, reserved, m, step + 1);
        if groups[gi].free_blocks_count < count {
            next
        } else {
            match searched_bitmap(sb, groups, gi, m) {
                Err(e) => Err(e),
                Ok(bm) => match room_in_group(sb, bm, gi, reserved, count as int) {
                    Some(bit) => Ok(block_plan(sb, groups, gi, bit, count)),
                    None => next,
                },
            }
        }
    }
}

/// The plan for `count` contiguous blocks: groups are tried from the hinted
/// one on, wrapping, and the first run that fits is taken.
pub open spec fn blocks_planned(
    sb: Superblock,
    groups: Seq<BlockGroupDescriptor>,
    count: u32,
    hint: u32,
    reserved: Seq<u64>,
    m: BitmapModel,
) -> Result<BlockAllocationPlan> {
    if count == 0 {
        Err(Error::Corrupt("plan_block_allocation: count == 0"))
    } else if groups.len() == 0 {
        Err(Error::Corrupt("no block groups"))
    } else {
        blocks_planned_from(
            sb,
            groups,
            count,
            clamp_hint(hint as int, groups.len() as int),
            reserved,
            m,
            0,
        )
    }
}

/// A plan is the one for what a reader reads, or the reader failed.
pub open spec fn plan_agrees<F: Fn(u64) -> Result<Vec<u8>>>(
    r: Result<BlockAllocationPlan>,
    sb: Superblock,
    groups: Seq<BlockGroupDescriptor>,
    count: u32,
    hint: u32,
    reserved: Seq<u64>,
    reader: F,
) -> bool {
    forall|m: BitmapModel| #[trigger]
        reads_as(reader, m) ==> r == blocks_planned(sb, groups, count, hint, reserved, m) || (r == Err::<
            BlockAllocationPlan,
            Error,
        >(Error::Io) && may_fail(reader, m))
}

/// What a search goes by in group `gi`: what the reader gave for its bitmap, or
/// what the group is known to hold where that was never written.
pub open spec fn bitmap_seen<F: Fn(u64) -> Result<Vec<u8>>>(
    sb: Superblock,
    groups: Seq<BlockGroupDescriptor>,
    gi: int,
    reader: F,
    bm: Seq<u8>,
) -> bool {
    if groups[gi].blocks_uninit() {
        bm == fresh_bitmap(sb, groups, gi)
    } else {
        exists|b: Vec<u8>| #[trigger] call_ensures(reader, (groups[gi].block_bitmap,), Ok(b)) && b@ == bm
    }
}

/// What holds of a plan whatever the reader does, even one that gives other
/// bytes each time: a planned run lies within one group that counts that many
/// free blocks, was free in a bitmap that the reader gave, and holds nothing
/// reserved. A refusal is one of the planner's own, or the reader's.
pub open spec fn plan_stands<F: Fn(u64) -> Result<Vec<u8>>>(
    r: Result<BlockAllocationPlan>,
    sb: Superblock,
    groups: Seq<BlockGroupDescriptor>,
    count: u32,
    reserved: Seq<u64>,
    reader: F,
) -> bool {
    match r {
        Ok(p) => {
            let gi = p.bgd.group_idx as int;
            let bit = p.bitmap.bit_start;
            &&& count > 0
            &&& 0 <= gi < groups.len()
            &&& p == block_plan(sb, groups, gi, bit, count)
            &&& p.first_block == group_first_block(sb, gi) + bit
            &&& bit + count <= group_blocks(sb, gi)
            &&& groups[gi].free_blocks_count >= count
            &&& exists|bm: Seq<u8>| #[trigger]
                bitmap_seen(sb, groups, gi, reader, bm) && forall|j: int| bit <= j < bit + count ==> bit_free(bm, j)
            &&& forall|k: int|
                0 <= k < reserved.len() ==> !(p.first_block <= #[trigger] reserved[k] < p.first_block + count)
        },
        Err(e) => if count == 0 {
            e == Error::Corrupt("plan_block_allocation: count == 0")
        } else if groups.len() == 0 {
            e == Error::Corrupt("no block groups")
        } else {
            ||| e == Error::Corrupt("no group has a contiguous free run of this size")
            ||| exists|gi: int|
                0 <= gi < groups.len() && !groups[gi].blocks_uninit() && call_ensures(
                    reader,
                    ((#[trigger] groups[gi]).block_bitmap,),
                    Err(e),
                )
        },
    }
}

/// Two plans made with a reader that answers alike are the same, Ok or not:
/// planning again before anything is committed gives the same plan, and to
/// exclude nothing is to plan without exclusions.
pub proof fn law_same_reader_same_plan<F: Fn(u64) -> Result<Vec<u8>>>(
    one: Result<BlockAllocationPlan>,
    other: Result<BlockAllocationPlan>,
    sb: Superblock,
    groups: Seq<BlockGroupDescriptor>,
    count: u32,
    hint: u32,
    reserved: Seq<u64>,
    reader: F,
    m: BitmapModel,
)
    requires
        reads_as(reader, m),
        !may_fail(reader, m),
        plan_agrees(one, sb, groups, count, hint, reserved, reader),
        plan_agrees(other, sb, groups, count, hint, reserved, reader),
    ensures
        one == other,
{
}

/// Plan allocation of `count` contiguous blocks.
///
/// `bitmap_reader` is called with a descriptor's `block_bitmap` and must
/// return the full bitmap block. Groups are tried in order: hint_group first,
/// then wrapping forward. For groups flagged `BLOCK_UNINIT`, the bitmap is
/// made up from what the group is known to hold, without reading.
pub fn plan_block_allocation<F: Fn(u64) -> Result<Vec<u8>>>(
    sb: &Superblock,
    groups: &[BlockGroupDescriptor],
    count: u32,
    hint_group: u32,
    bitmap_reader: F,
) -> (r: Result<BlockAllocationPlan>)
    requires
        sb.wf(),
        groups@.len() <= u32::MAX,
        count <= i32::MAX,
        forall|b: u64| call_requires(bitmap_reader, (b,)),
    ensures
        plan_agrees(r, *sb, groups@, count, hint_group, Seq::empty(), bitmap_reader),
        plan_stands(r, *sb, groups@, count, Seq::empty(), bitmap_reader),
{
    let none: Vec<u64> = Vec::new();
    let r = plan_block_allocation_excluding(sb, groups, count, hint_group, &none, bitmap_reader);
    assert(none@ =~= Seq::<u64>::empty());
    r
}

/// [`plan_block_allocation`], with blocks that are spoken for but not yet
/// committed treated as used.
///
/// A caller that plans several allocations before committing any of them
/// shows this function the same unchanged bitmap every time; the blocks
/// already handed out have to be in the bitmap the search reads.
pub fn plan_block_allocation_excluding<F: Fn(u64) -> Result<Vec<u8>>>(
    sb: &Superblock,
    groups: &[BlockGroupDescriptor],
    count: u32,
    hint_group: u32,
    reserved: &[u64],
    bitmap_reader: F,
) -> (r: Result<BlockAllocationPlan>)
    requires
        sb.wf(),
        groups@.len() <= u32::MAX,
        count <= i32::MAX,
        forall|b: u64| call_requires(bitmap_reader, (b,)),
    ensures
        plan_agrees(r, *sb, groups@, count, hint_group, reserved@, bitmap_reader),
        plan_stands(r, *sb, groups@, count, reserved@, bitmap_reader),
{
    if count == 0 {
        return Err(Error::Corrupt("plan_block_allocation: count == 0"));
    }
    let ngroups: u32 = groups.len() as u32;
    if ngroups == 0 {
        return Err(Error::Corrupt("no block groups"));
    }
    let hint: u32 = if hint_group < ngroups {
        hint_group
    } else {
        ngroups - 1
    };
    let mut step: u32 = 0;
    while step < ngroups
        invariant
            sb.wf(),
            groups@.len() == ngroups,
            hint < ngroups,
            step <= ngroups,
            0 < count <= i32::MAX,
            forall|b: u64| call_requires(bitmap_reader, (b,)),
            hint == clamp_hint(hint_group as int, ngroups as int),
            forall|m: BitmapModel| #[trigger]
                reads_as(bitmap_reader, m) ==> blocks_planned(
                    *sb,
                    groups@,
                    count,
                    hint_group,
                    reserved@,
                    m,
                ) == blocks_planned_from(
                    *sb,
                    groups@,
                    count,
                    hint as int,
                    reserved@,
                    m,
                    step as int,
                ),
        decreases ngroups - step,
    {
        let gi: u32 = ((hint as u64 + step as u64) % (ngroups as u64)) as u32;
        let bgd: BlockGroupDescriptor = groups[gi as usize];
        if bgd.free_blocks_count >= count {
            let max_bits: u32 = blocks_in_group(sb, gi);
            let mut bitmap_bytes: Vec<u8> = if bgd.has_flag(BLOCK_UNINIT) {
                fresh_block_bitmap(sb, groups, gi)
            } else {
                match bitmap_reader(bgd.block_bitmap) {
                    Ok(bytes) => bytes,
                    Err(e) => {
                        return Err(e);
                    },
                }
            };
            let ghost seen = bitmap_bytes@;
            assert(bitmap_seen(*sb, groups@, gi as int, bitmap_reader, seen));
            mark_reserved_in_group(sb, gi, max_bits, reserved, &mut bitmap_bytes);
            if let Some(bit_start) = find_free_run(&bitmap_bytes, 0, max_bits, count) {
                proof {
                    lemma_free_run(
                        bitmap_bytes@,
                        0,
                        bits_held(bitmap_bytes@, max_bits as int),
                        count as int,
                    );
                }
                proof {
                    assert(room_in_group(*sb, seen, gi as int, reserved@, count as int) == Some(bit_start));
                    lemma_room(*sb, seen, gi as int, reserved@, count as int);
                }
                let first_block: u64 = first_block_of(sb, gi) + bit_start as u64;
                let plan = BlockAllocationPlan {
                    first_block,
                    count,
                    bitmap: BitmapWrite {
                        bitmap_block: bgd.block_bitmap,
                        bit_start,
                        count,
                        set: true,
                    },
                    bgd: BgdCounterUpdate {
                        group_idx: gi,
                        free_blocks_delta: -(count as i32),
                        free_inodes_delta: 0,
                        used_dirs_delta: 0,
                    },
                    sb: SuperblockCounterUpdate {
                        free_blocks_delta: -(count as i64),
                        free_inodes_delta: 0,
                    },
                };
                assert(plan == block_plan(*sb, groups@, gi as int, bit_start, count));
                assert(plan_stands(Ok(plan), *sb, groups@, count, reserved@, bitmap_reader));
                return Ok(plan);
            }
        }
        step += 1;
    }
    Err(Error::Corrupt("no group has a contiguous free run of this size"))
}

/// A planned run lies in the blocks of its group, was free in the bitmap the
/// search went by, and holds no reserved block.
pub proof fn law_planned_run_is_free(
    sb: Superblock,
    groups: Seq<BlockGroupDescriptor>,
    count: u32,
    hint: u32,
    reserved: Seq<u64>,
    m: BitmapModel,
)
    requires
        sb.wf(),
        groups.len() <= u32::MAX,
        count <= i32::MAX,
        blocks_planned(sb, groups, count, hint, reserved, m) is Ok,
    ensures
        ({
            let p = blocks_planned(sb, groups, count, hint, reserved, m)->Ok_0;
            let gi = p.bgd.group_idx as int;
            let bm = searched_bitmap(sb, groups, gi, m);
            &&& 0 <= gi < groups.len()
            &&& p.first_block == group_first_block(sb, gi) + p.bitmap.bit_start
            &&& p.count == count == p.bitmap.count
            &&& p == block_plan(sb, groups, gi, p.bitmap.bit_start, count)
            &&& p.bitmap.bit_start + count <= group_blocks(sb, gi)
            &&& bm is Ok
            &&& forall|j: int|
                p.bitmap.bit_start <= j < p.bitmap.bit_start + count ==> bit_free(bm->Ok_0, j)
            &&& forall|k: int|
                0 <= k < reserved.len() ==> !(p.first_block <= #[trigger] reserved[k] < p.first_block
                    + count)
        }),
{
    lemma_planned_from(
        sb,
        groups,
        count,
        clamp_hint(hint as int, groups.len() as int),
        reserved,
        m,
        0,
    );
}

proof fn lemma_planned_from(
    sb: Superblock,
    groups: Seq<BlockGroupDescriptor>,
    count: u32,
    hint: int,
    reserved: Seq<u64>,
    m: BitmapModel,
    step: int,
)
    requires
        sb.wf(),
        0 < groups.len() <= u32::MAX,
        0 <= hint < groups.len(),
        0 <= step,
        0 < count <= i32::MAX,
        blocks_planned_from(sb, groups, count, hint, reserved, m, step) is Ok,
    ensures
        ({
            let p = blocks_planned_from(sb, groups, count, hint, reserved, m, step)->Ok_0;
            let gi = p.bgd.group_idx as int;
            let bm = searched_bitmap(sb, groups, gi, m);
            &&& 0 <= gi < groups.len()
            &&& p.first_block == group_first_block(sb, gi) + p.bitmap.bit_start
            &&& p.count == count == p.bitmap.count
            &&& p == block_plan(sb, groups, gi, p.bitmap.bit_start, count)
            &&& p.bitmap.bit_start + count <= group_blocks(sb, gi)
            &&& bm is Ok
            &&& forall|j: int|
                p.bitmap.bit_start <= j < p.bitmap.bit_start + count ==> bit_free(bm->Ok_0, j)
            &&& forall|k: int|
                0 <= k < reserved.len() ==> !(p.first_block <= #[trigger] reserved[k] < p.first_block
                    + count)
        }),
    decreases groups.len() - step,
{
    let n = groups.len() as int;
    let gi = group_at(hint, step, n);
    let here = groups[gi].free_blocks_count >= count && searched_bitmap(sb, groups, gi, m) is Ok
        && room_in_group(
        sb,
        searched_bitmap(sb, groups, gi, m)->Ok_0,
        gi,
        reserved,
        count as int,
    ) is Some;
    if !here {
        lemma_planned_from(sb, groups, count, hint, reserved, m, step + 1);
    } else {
        lemma_room(sb, searched_bitmap(sb, groups, gi, m)->Ok_0, gi, reserved, count as int);
    }
}

/// Room that was found in a group is free, and none of it is reserved.
proof fn lemma_room(sb: Superblock, bm: Seq<u8>, gi: int, reserved: Seq<u64>, count: int)
    requires
        sb.wf(),
        0 <= gi <= u32::MAX,
        0 < count <= i32::MAX,
        room_in_group(sb, bm, gi, reserved, count) is Some,
    ensures
        ({
            let bit = room_in_group(sb, bm, gi, reserved, count)->Some_0;
            let first = group_first_block(sb, gi);
            &&& first + bit <= u64::MAX
            &&& bit + count <= group_blocks(sb, gi)
            &&& forall|j: int| bit <= j < bit + count ==> bit_free(bm, j)
            &&& forall|k: int|
                0 <= k < reserved.len() ==> !(first + bit <= #[trigger] reserved[k] < first + bit + count)
        }),
{
    let max_bits = group_blocks(sb, gi);
    let first = group_first_block(sb, gi);
    let marked = mark_reserved(bm, first, max_bits, reserved);
    lemma_group_first_block(sb, gi);
    lemma_group_blocks(sb, gi);
    lemma_mark_reserved(bm, first, max_bits, reserved);
    lemma_free_run(marked, 0, bits_held(marked, max_bits), count);
    let bit = room_in_group(sb, bm, gi, reserved, count)->Some_0;
    assert forall|j: int| bit <= j < bit + count implies bit_free(bm, j) by {
        assert(bit_free(marked, j));
        assert(!bit_set(marked, j));
    }
    assert forall|k: int| 0 <= k < reserved.len() implies !(first + bit <= #[trigger] reserved[k] < first + bit
        + count) by {
        let j = reserved[k] - first;
        if bit <= j < bit + count {
            assert(bit_free(marked, j));
            assert(!bit_set(marked, j));
            assert(reserved[k] == first + j);
        }
    }
}

pub(crate) proof fn lemma_group_blocks(sb: Superblock, gi: int)
    requires
        sb.wf(),
    ensures
        0 < group_blocks(sb, gi) <= sb.blocks_per_group,
{
}

/// A group's blocks all lie within the volume.
pub proof fn lemma_group_within(sb: Superblock, gi: int)
    requires
        sb.wf(),
        0 <= gi < sb.group_count(),
    ensures
        group_first_block(sb, gi) + group_blocks(sb, gi) <= sb.blocks_count,
{
    let n = sb.blocks_count - sb.first_data_block;
    let d = sb.blocks_per_group as int;
    let g = sb.group_count();
    lemma_div_ceil(n, d);
    vstd::arithmetic::div_mod::lemma_fundamental_div_mod(n, d);
    let q = n / d;
    let m = n % d;
    assert(d * q == q * d) by (nonlinear_arith);
    if gi + 1 < g || m == 0 {
        assert(gi + 1 <= q);
        assert((gi + 1) * d <= q * d) by (nonlinear_arith)
            requires
                gi + 1 <= q,
                d > 0,
        ;
        assert((gi + 1) * d == gi * d + d) by (nonlinear_arith);
    } else {
        assert(gi == q);
    }
}

/// A planned run lies within the volume.
pub proof fn law_planned_run_within(
    sb: Superblock,
    groups: Seq<BlockGroupDescriptor>,
    count: u32,
    hint: u32,
    reserved: Seq<u64>,
    m: BitmapModel,
)
    requires
        sb.wf(),
        groups.len() <= u32::MAX,
        groups.len() <= sb.group_count(),
        count <= i32::MAX,
        blocks_planned(sb, groups, count, hint, reserved, m) is Ok,
    ensures
        ({
            let p = blocks_planned(sb, groups, count, hint, reserved, m)->Ok_0;
            &&& sb.first_data_block <= p.first_block
            &&& p.first_block + p.count <= sb.blocks_count
            &&& p.count == count
        }),
{
    law_planned_run_is_free(sb, groups, count, hint, reserved, m);
    let p = blocks_planned(sb, groups, count, hint, reserved, m)->Ok_0;
    lemma_group_within(sb, p.bgd.group_idx as int);
    lemma_group_first_block(sb, p.bgd.group_idx as int);
}

// -- inode allocation -------------------------------------------------------

/// The free inodes of the first `n` groups.
pub open spec fn sum_free_inodes(groups: Seq<BlockGroupDescriptor>, n: int) -> int
    decreases n,
{
    if n <= 0 {
        0
    } else {
        sum_free_inodes(groups, n - 1) + groups[n - 1].free_inodes_count
    }
}

/// Whether group `gi` is one for a new directory: it has a free inode, and at
/// least the average of free inodes.
pub open spec fn orlov_suits(groups: Seq<BlockGroupDescriptor>, gi: int) -> bool {
    let free = groups[gi].free_inodes_count;
    free > 0 && free * groups.len() >= sum_free_inodes(groups, groups.len() as int)
}

/// The group with the fewest directories among those of the first `steps`
/// tried from `hint` on that suit; the first of equals.
pub open spec fn orlov_best(groups: Seq<BlockGroupDescriptor>, hint: int, steps: int) -> Option<int>
    decreases steps,
{
    if steps <= 0 {
        None
    } else {
        let before = orlov_best(groups, hint, steps - 1);
        let gi = group_at(hint, steps - 1, groups.len() as int);
        if orlov_suits(groups, gi) && (before is None || groups[gi].used_dirs_count < groups[before->0].used_dirs_count) {
            Some(gi)
        } else {
            before
        }
    }
}

/// The group a new directory goes to; the hint where none suits.
pub open spec fn orlov_group(groups: Seq<BlockGroupDescriptor>, hint: u32) -> int {
    let n = groups.len() as int;
    let h = clamp_hint(hint as int, n);
    if n == 0 {
        0
    } else {
        match orlov_best(groups, h, n) {
            Some(gi) => gi,
            None => h,
        }
    }
}

proof fn lemma_sums(groups: Seq<BlockGroupDescriptor>, n: int)
    requires
        0 <= n <= groups.len(),
    ensures
        0 <= sum_free_inodes(groups, n) <= n * u32::MAX,
    decreases n,
{
    if n > 0 {
        lemma_sums(groups, n - 1);
        assert(n * u32::MAX == (n - 1) * u32::MAX + u32::MAX) by (nonlinear_arith);
    }
}

pub(crate) proof fn lemma_orlov_best(groups: Seq<BlockGroupDescriptor>, hint: int, steps: int)
    requires
        0 < groups.len(),
        0 <= hint,
    ensures
        orlov_best(groups, hint, steps) matches Some(gi) ==> 0 <= gi < groups.len() && orlov_suits(groups, gi),
        forall|k: int|
            0 <= k < steps && orlov_suits(groups, #[trigger] group_at(hint, k, groups.len() as int)) ==> {
                &&& orlov_best(groups, hint, steps) is Some
                &&& groups[orlov_best(groups, hint, steps)->0].used_dirs_count <= groups[group_at(
                    hint,
                    k,
                    groups.len() as int,
                )].used_dirs_count
            },
    decreases steps,
{
    if steps > 0 {
        lemma_orlov_best(groups, hint, steps - 1);
    }
}

/// A new directory goes to a group with a free inode and at least the average
/// of them, and of these to one with the fewest directories, wherever there is
/// such a group; otherwise to the hint.
pub proof fn law_new_directory_goes_where_directories_are_few(groups: Seq<BlockGroupDescriptor>, hint: u32, other: int)
    requires
        0 <= other < groups.len(),
    ensures
        orlov_suits(groups, other) ==> {
            &&& orlov_suits(groups, orlov_group(groups, hint))
            &&& groups[orlov_group(groups, hint)].used_dirs_count <= groups[other].used_dirs_count
        },
        !orlov_suits(groups, orlov_group(groups, hint)) ==> orlov_group(groups, hint) == clamp_hint(
            hint as int,
            groups.len() as int,
        ),
{
    let n = groups.len() as int;
    let h = clamp_hint(hint as int, n);
    lemma_orlov_best(groups, h, n);
    let k = if other >= h {
        other - h
    } else {
        other + n - h
    };
    assert(group_at(h, k, n) == other) by (nonlinear_arith)
        requires
            0 <= other < n,
            h + k == other || h + k == other + n,
            group_at(h, k, n) == (h + k) % n,
    ;
}

/// Choose the group for a new directory: of those with at least the average of
/// free inodes the one with the fewest directories, the nearest to the hint
/// among equals.
pub fn orlov_select_group(groups: &[BlockGroupDescriptor], hint: u32) -> (r: u32)
    requires
        groups@.len() <= u32::MAX,
    ensures
        r == orlov_group(groups@, hint),
        groups@.len() > 0 ==> r < groups@.len(),
{
    let ngroups: u32 = groups.len() as u32;
    if ngroups == 0 {
        return 0;
    }
    let h: u32 = if hint < ngroups {
        hint
    } else {
        ngroups - 1
    };
    let mut total_free_inodes: u64 = 0;
    let mut n: u32 = 0;
    while n < ngroups
        invariant
            groups@.len() == ngroups,
            n <= ngroups,
            total_free_inodes == sum_free_inodes(groups@, n as int),
        decreases ngroups - n,
    {
        proof {
            lemma_sums(groups@, n as int);
            assert(n * u32::MAX + u32::MAX <= u64::MAX) by (nonlinear_arith)
                requires
                    n < u32::MAX,
            ;
        }
        total_free_inodes = total_free_inodes + groups[n as usize].free_inodes_count as u64;
        n += 1;
    }
    let mut best: Option<u32> = None;
    let mut fewest: u32 = 0;
    let mut step: u32 = 0;
    while step < ngroups
        invariant
            groups@.len() == ngroups,
            h < ngroups,
            step <= ngroups,
            total_free_inodes == sum_free_inodes(groups@, ngroups as int),
            match (best, orlov_best(groups@, h as int, step as int)) {
                (Some(b), Some(g)) => b == g && fewest == groups@[g].used_dirs_count,
                (None, None) => true,
                _ => false,
            },
        decreases ngroups - step,
    {
        let gi: u32 = ((h as u64 + step as u64) % (ngroups as u64)) as u32;
        let g: BlockGroupDescriptor = groups[gi as usize];
        assert(g.free_inodes_count * ngroups <= u64::MAX) by (nonlinear_arith)
            requires
                0 <= g.free_inodes_count <= u32::MAX,
                0 <= ngroups <= u32::MAX,
        ;
        let suits: bool = g.free_inodes_count > 0 && g.free_inodes_count as u64 * ngroups as u64 >= total_free_inodes;
        if suits && (best.is_none() || g.used_dirs_count < fewest) {
            fewest = g.used_dirs_count;
            best = Some(gi);
        }
        step += 1;
    }
    proof {
        lemma_orlov_best(groups@, h as int, ngroups as int);
    }
    match best {
        Some(gi) => gi,
        None => h,
    }
}

/// The inode bitmap a search of group `gi` goes by.
pub open spec fn searched_inodes(sb: Superblock, groups: Seq<BlockGroupDescriptor>, gi: int, m: BitmapModel) -> Result<
    Seq<u8>,
> {
    if groups[gi].inodes_uninit() {
        Ok(zeros(sb.bs() as nat))
    } else {
        m(groups[gi].inode_bitmap)
    }
}

/// The lowest bit of group `gi` that may be handed out: the reserved inodes
/// are all in group 0.
pub open spec fn inode_floor(sb: Superblock, gi: int) -> int {
    if gi == 0 && sb.first_inode > 0 {
        sb.first_inode - 1
    } else {
        0
    }
}

/// The plan that takes bit `bit` of group `gi`.
pub open spec fn inode_plan(sb: Superblock, groups: Seq<BlockGroupDescriptor>, is_dir: bool, gi: int, bit: u32) -> Result<
    InodeAllocationPlan,
> {
    let inode = gi * sb.inodes_per_group + bit + 1;
    if inode > sb.inodes_count {
        Err(Error::Corrupt("the group's inode range does not fit in the filesystem"))
    } else {
        Ok(
            InodeAllocationPlan {
                inode: inode as u32,
                is_dir,
                bitmap: BitmapWrite {
                    bitmap_block: groups[gi].inode_bitmap,
                    bit_start: bit,
                    count: 1,
                    set: true,
                },
                bgd: BgdCounterUpdate {
                    group_idx: gi as u32,
                    free_blocks_delta: 0,
                    free_inodes_delta: (-1) as i32,
                    used_dirs_delta: if is_dir {
                        1
                    } else {
                        0
                    },
                },
                sb: SuperblockCounterUpdate { free_blocks_delta: 0, free_inodes_delta: (-1) as i32 },
            },
        )
    }
}

/// The plan found from the `step`th group on.
pub open spec fn inode_planned_from(
    sb: Superblock,
    groups: Seq<BlockGroupDescriptor>,
    is_dir: bool,
    start: int,
    m: BitmapModel,
    step: int,
) -> Result<InodeAllocationPlan>
    decreases groups.len() - step,
{
    if step >= groups.len() {
        Err(Error::Corrupt("no group has a free inode"))
    } else {
        let gi = group_at(start, step, groups.len() as int);
        let next = inode_planned_from(sb, groups, is_dir, start, m, step + 1);
        if groups[gi].free_inodes_count == 0 {
            next
        } else {
            match searched_inodes(sb, groups, gi, m) {
                Err(e) => Err(e),
                Ok(bm) => match first_free(
                    bm,
                    inode_floor(sb, gi),
                    bits_held(bm, sb.inodes_per_group as int),
                ) {
                    Some(bit) => inode_plan(sb, groups, is_dir, gi, bit),
                    None => next,
                },
            }
        }
    }
}

/// The plan for one inode. A directory starts from the group that suits one
/// best, a file from the hinted group.
pub open spec fn inode_planned(
    sb: Superblock,
    groups: Seq<BlockGroupDescriptor>,
    is_dir: bool,
    hint: u32,
    m: BitmapModel,
) -> Result<InodeAllocationPlan> {
    if groups.len() == 0 {
        Err(Error::Corrupt("no block groups"))
    } else {
        let start = if is_dir {
            orlov_group(groups, hint)
        } else {
            clamp_hint(hint as int, groups.len() as int)
        };
        inode_planned_from(sb, groups, is_dir, start, m, 0)
    }
}

/// What a search for an inode goes by in group `gi`: what the reader gave for
/// its bitmap, or nothing but free inodes where that was never written.
pub open spec fn inodes_seen<F: Fn(u64) -> Result<Vec<u8>>>(
    sb: Superblock,
    groups: Seq<BlockGroupDescriptor>,
    gi: int,
    reader: F,
    bm: Seq<u8>,
) -> bool {
    if groups[gi].inodes_uninit() {
        bm == zeros(sb.bs() as nat)
    } else {
        exists|b: Vec<u8>| #[trigger] call_ensures(reader, (groups[gi].inode_bitmap,), Ok(b)) && b@ == bm
    }
}

/// What holds of an inode's plan whatever the reader does: the inode is one of
/// a group that counts a free one, was free in a bitmap that the reader gave,
/// and is none of the reserved ones. A refusal is one of the planner's own, or
/// the reader's.
pub open spec fn inode_plan_stands<F: Fn(u64) -> Result<Vec<u8>>>(
    r: Result<InodeAllocationPlan>,
    sb: Superblock,
    groups: Seq<BlockGroupDescriptor>,
    is_dir: bool,
    reader: F,
) -> bool {
    match r {
        Ok(p) => {
            let gi = p.bgd.group_idx as int;
            let bit = p.bitmap.bit_start;
            &&& 0 <= gi < groups.len()
            &&& inode_plan(sb, groups, is_dir, gi, bit) == Ok::<InodeAllocationPlan, Error>(p)
            &&& inode_floor(sb, gi) <= bit < sb.inodes_per_group
            &&& groups[gi].free_inodes_count > 0
            &&& exists|bm: Seq<u8>| #[trigger] inodes_seen(sb, groups, gi, reader, bm) && bit_free(bm, bit as int)
        },
        Err(e) => if groups.len() == 0 {
            e == Error::Corrupt("no block groups")
        } else {
            ||| e == Error::Corrupt("no group has a free inode")
            ||| e == Error::Corrupt("the group's inode range does not fit in the filesystem")
            ||| exists|gi: int|
                0 <= gi < groups.len() && !groups[gi].inodes_uninit() && call_ensures(
                    reader,
                    ((#[trigger] groups[gi]).inode_bitmap,),
                    Err(e),
                )
        },
    }
}

/// Plan allocation of one inode.
///
/// `bitmap_reader` is called with a descriptor's `inode_bitmap`, but for
/// groups flagged `INODE_UNINIT`, all of whose inodes are free.
pub fn plan_inode_allocation<F: Fn(u64) -> Result<Vec<u8>>>(
    sb: &Superblock,
    groups: &[BlockGroupDescriptor],
    is_dir: bool,
    hint_group: u32,
    bitmap_reader: F,
) -> (r: Result<InodeAllocationPlan>)
    requires
        sb.wf(),
        groups@.len() <= u32::MAX,
        forall|b: u64| call_requires(bitmap_reader, (b,)),
    ensures
        forall|m: BitmapModel| #[trigger]
            reads_as(bitmap_reader, m) ==> r == inode_planned(*sb, groups@, is_dir, hint_group, m) || (r
                == Err::<InodeAllocationPlan, Error>(Error::Io) && may_fail(bitmap_reader, m)),
        inode_plan_stands(r, *sb, groups@, is_dir, bitmap_reader),
{
    let ngroups: u32 = groups.len() as u32;
    if ngroups == 0 {
        return Err(Error::Corrupt("no block groups"));
    }
    let start_group: u32 = if is_dir {
        orlov_select_group(groups, hint_group)
    } else if hint_group < ngroups {
        hint_group
    } else {
        ngroups - 1
    };
    let mut step: u32 = 0;
    while step < ngroups
        invariant
            sb.wf(),
            groups@.len() == ngroups,
            start_group < ngroups,
            step <= ngroups,
            forall|b: u64| call_requires(bitmap_reader, (b,)),
            forall|m: BitmapModel| #[trigger]
                reads_as(bitmap_reader, m) ==> inode_planned(*sb, groups@, is_dir, hint_group, m)
                    == inode_planned_from(*sb, groups@, is_dir, start_group as int, m, step as int),
        decreases ngroups - step,
    {
        let gi: u32 = ((start_group as u64 + step as u64) % (ngroups as u64)) as u32;
        let bgd: BlockGroupDescriptor = groups[gi as usize];
        if bgd.free_inodes_count != 0 {
            let max_bits: u32 = sb.inodes_per_group;
            let bitmap_bytes: Vec<u8> = if bgd.has_flag(INODE_UNINIT) {
                zeroed(sb.block_size() as usize)
            } else {
                match bitmap_reader(bgd.inode_bitmap) {
                    Ok(bytes) => bytes,
                    Err(e) => {
                        return Err(e);
                    },
                }
            };
            assert(inodes_seen(*sb, groups@, gi as int, bitmap_reader, bitmap_bytes@));
            let floor: u32 = if gi == 0 && sb.first_inode > 0 {
                sb.first_inode - 1
            } else {
                0
            };
            if let Some(bit_start) = find_first_free(&bitmap_bytes, floor, max_bits) {
                proof {
                    lemma_first_free(
                        bitmap_bytes@,
                        inode_floor(*sb, gi as int),
                        bits_held(bitmap_bytes@, sb.inodes_per_group as int),
                    );
                    assert(gi * sb.inodes_per_group <= 0xFFFF_FFFF * 0xFFFF_FFFF) by (nonlinear_arith)
                        requires
                            gi <= 0xFFFF_FFFF,
                            sb.inodes_per_group <= 0xFFFF_FFFF,
                    ;
                }
                let inode: u64 = (gi as u64) * (sb.inodes_per_group as u64) + bit_start as u64 + 1;
                if inode > sb.inodes_count as u64 {
                    return Err(
                        Error::Corrupt("the group's inode range does not fit in the filesystem"),
                    );
                }
                return Ok(
                    InodeAllocationPlan {
                        inode: inode as u32,
                        is_dir,
                        bitmap: BitmapWrite {
                            bitmap_block: bgd.inode_bitmap,
                            bit_start,
                            count: 1,
                            set: true,
                        },
                        bgd: BgdCounterUpdate {
                            group_idx: gi,
                            free_blocks_delta: 0,
                            free_inodes_delta: -1,
                            used_dirs_delta: if is_dir {
                                1
                            } else {
                                0
                            },
                        },
                        sb: SuperblockCounterUpdate { free_blocks_delta: 0, free_inodes_delta: -1 },
                    },
                );
            }
        }
        step += 1;
    }
    Err(Error::Corrupt("no group has a free inode"))
}

/// A planned inode exists, was free in the bitmap the search went by, and is
/// none of the reserved ones.
pub proof fn law_planned_inode_is_free(
    sb: Superblock,
    groups: Seq<BlockGroupDescriptor>,
    is_dir: bool,
    hint: u32,
    m: BitmapModel,
)
    requires
        sb.wf(),
        groups.len() <= u32::MAX,
        inode_planned(sb, groups, is_dir, hint, m) is Ok,
    ensures
        ({
            let p = inode_planned(sb, groups, is_dir, hint, m)->Ok_0;
            let gi = p.bgd.group_idx as int;
            &&& 0 <= gi < groups.len()
            &&& p.inode == gi * sb.inodes_per_group + p.bitmap.bit_start + 1
            &&& 1 <= p.inode <= sb.inodes_count
            &&& gi == 0 ==> p.inode >= sb.first_inode
            &&& searched_inodes(sb, groups, gi, m) is Ok
            &&& p.bitmap.bit_start < sb.inodes_per_group
            &&& inode_plan(sb, groups, is_dir, gi, p.bitmap.bit_start) == Ok::<InodeAllocationPlan, Error>(p)
            &&& bit_free(searched_inodes(sb, groups, gi, m)->Ok_0, p.bitmap.bit_start as int)
            &&& p.is_dir == is_dir
        }),
{
    let n = groups.len() as int;
    if is_dir {
        lemma_orlov_best(groups, clamp_hint(hint as int, n), n);
    }
    let start = if is_dir {
        orlov_group(groups, hint)
    } else {
        clamp_hint(hint as int, n)
    };
    lemma_inode_planned_from(sb, groups, is_dir, start, m, 0);
}

proof fn lemma_inode_planned_from(
    sb: Superblock,
    groups: Seq<BlockGroupDescriptor>,
    is_dir: bool,
    start: int,
    m: BitmapModel,
    step: int,
)
    requires
        sb.wf(),
        0 < groups.len() <= u32::MAX,
        0 <= start,
        0 <= step,
        inode_planned_from(sb, groups, is_dir, start, m, step) is Ok,
    ensures
        ({
            let p = inode_planned_from(sb, groups, is_dir, start, m, step)->Ok_0;
            let gi = p.bgd.group_idx as int;
            &&& 0 <= gi < groups.len()
            &&& p.inode == gi * sb.inodes_per_group + p.bitmap.bit_start + 1
            &&& 1 <= p.inode <= sb.inodes_count
            &&& gi == 0 ==> p.inode >= sb.first_inode
            &&& searched_inodes(sb, groups, gi, m) is Ok
            &&& p.bitmap.bit_start < sb.inodes_per_group
            &&& inode_plan(sb, groups, is_dir, gi, p.bitmap.bit_start) == Ok::<InodeAllocationPlan, Error>(p)
            &&& bit_free(searched_inodes(sb, groups, gi, m)->Ok_0, p.bitmap.bit_start as int)
            &&& p.is_dir == is_dir
        }),
    decreases groups.len() - step,
{
    let gi = group_at(start, step, groups.len() as int);
    let found = groups[gi].free_inodes_count != 0 && searched_inodes(sb, groups, gi, m) is Ok;
    if found {
        let bm = searched_inodes(sb, groups, gi, m)->Ok_0;
        lemma_first_free(bm, inode_floor(sb, gi), bits_held(bm, sb.inodes_per_group as int));
        assert(gi * sb.inodes_per_group >= 0) by (nonlinear_arith)
            requires
                gi >= 0,
        ;
        if first_free(bm, inode_floor(sb, gi), bits_held(bm, sb.inodes_per_group as int)) is None {
            lemma_inode_planned_from(sb, groups, is_dir, start, m, step + 1);
        }
    } else {
        lemma_inode_planned_from(sb, groups, is_dir, start, m, step + 1);
    }
}

// -- applying a plan --------------------------------------------------------

/// Carry out a bitmap edit on the bitmap's own bytes. Bits past the end of
/// the buffer are left alone.
pub fn apply_bitmap_write(buf: &mut Vec<u8>, w: &BitmapWrite)
    ensures
        final(buf)@ == with_bits(old(buf)@, w.bit_start as int, w.count as nat, w.set),
{
    put_bits(buf, w.bit_start as u64, w.count as u64, w.set);
}

} // verus!
