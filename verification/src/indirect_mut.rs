//! Building and releasing the block pointers of ext2 and ext3 files.
use crate::allocator::{blocks_for, blocks_for_bytes, BlockAllocationPlan};
use crate::block_io::{block_at, BlockDevice, BlockSource};
use crate::bytes::{copy_range, get_u32, le32, put32, set_u32, zeroed, zeros};
use crate::contents::stage_data;
use crate::error::{Error, Result};
use crate::extent_mut::writes_view;
use crate::file_mut::{runs_small, runs_total, stage_free_runs};
use crate::fs::Filesystem;
use crate::grow::{home_group, stage_fresh, staged_plan};
use crate::indirect::{follow, indirect_block_for, lemma_span, pointer, span};
use crate::inode::{block_area_of, generation_of, Inode};
use crate::inode_edit::{after_write, with_block_area};
use crate::stage::{stage_counters, stage_inode, stage_mark_blocks, stage_totals, staged};
use crate::volume::{fresh_stage, BlockBuffer, Stage, Vol};
use vstd::prelude::*;

verus! {

broadcast use crate::bytes::group_fields;

// -- what a file holds ------------------------------------------------------

/// The blocks that hold a file's data, and those that hold its pointers.
#[verifier::ext_equal]
pub struct Held {
    pub data: Seq<u64>,
    pub meta: Seq<u64>,
}

pub open spec fn holds_nothing() -> Held {
    Held { data: Seq::empty(), meta: Seq::empty() }
}

pub open spec fn held_and(a: Held, b: Held) -> Held {
    Held { data: a.data + b.data, meta: a.meta + b.meta }
}

pub open spec fn clamp(n: int, most: int) -> int {
    if n < 0 {
        0
    } else if n > most {
        most
    } else {
        n
    }
}

/// What hangs from a pointer of the given level, over its first `count` file
/// blocks.
pub open spec fn held(img: Seq<u8>, bs: int, p: u32, level: nat, count: int) -> Result<Held>
    decreases level, (bs / 4) as nat + 1,
{
    if p == 0 || count <= 0 {
        Ok(holds_nothing())
    } else if level == 0 {
        Ok(Held { data: seq![p as u64], meta: Seq::empty() })
    } else {
        match block_at(img, bs, p as int) {
            Err(e) => Err(e),
            Ok(b) => match held_in(img, bs, b, (level - 1) as nat, count, (bs / 4) as nat) {
                Err(e) => Err(e),
                Ok(h) => Ok(held_and(Held { data: Seq::empty(), meta: seq![p as u64] }, h)),
            },
        }
    }
}

/// What hangs from the first `k` pointers of a block.
pub open spec fn held_in(img: Seq<u8>, bs: int, b: Seq<u8>, level: nat, count: int, k: nat) -> Result<Held>
    decreases level + 1, k,
{
    if k == 0 {
        Ok(holds_nothing())
    } else {
        match held_in(img, bs, b, level, count, (k - 1) as nat) {
            Err(e) => Err(e),
            Ok(before) => match held(
                img,
                bs,
                le32(b, 4 * (k - 1)),
                level,
                clamp(count - (k - 1) * span(bs / 4, level), span(bs / 4, level)),
            ) {
                Err(e) => Err(e),
                Ok(h) => Ok(held_and(before, h)),
            },
        }
    }
}

/// The blocks that the first `k` direct pointers give.
pub open spec fn held_direct(area: Seq<u8>, k: nat) -> Seq<u64>
    decreases k,
{
    if k == 0 {
        Seq::empty()
    } else {
        let before = held_direct(area, (k - 1) as nat);
        match pointer(le32(area, 4 * (k - 1))) {
            Some(b) => before.push(b),
            None => before,
        }
    }
}

/// What hangs from a pointer area, over the first `count` file blocks.
pub open spec fn held_by(img: Seq<u8>, bs: int, area: Seq<u8>, count: int) -> Result<Held> {
    let per = bs / 4;
    let direct = Held { data: held_direct(area, clamp(count, 12) as nat), meta: Seq::empty() };
    match held(img, bs, le32(area, 48), 1, count - 12) {
        Err(e) => Err(e),
        Ok(one) => match held(img, bs, le32(area, 52), 2, count - 12 - span(per, 1)) {
            Err(e) => Err(e),
            Ok(two) => match held(
                img,
                bs,
                le32(area, 56),
                3,
                count - 12 - span(per, 1) - span(per, 2),
            ) {
                Err(e) => Err(e),
                Ok(three) => Ok(held_and(held_and(held_and(direct, one), two), three)),
            },
        },
    }
}

/// Runs with one more block: a run that it continues is made longer.
pub open spec fn with_next(runs: Seq<(u64, u32)>, b: u64) -> Seq<(u64, u32)> {
    if runs.len() > 0 && runs.last().0 + runs.last().1 == b && runs.last().1 < 32768 {
        runs.update(runs.len() - 1, (runs.last().0, (runs.last().1 + 1) as u32))
    } else {
        runs.push((b, 1u32))
    }
}

/// Blocks gathered into runs, behind the runs that are there.
pub open spec fn gathered(runs: Seq<(u64, u32)>, blocks: Seq<u64>) -> Seq<(u64, u32)>
    decreases blocks.len(),
{
    if blocks.len() == 0 {
        runs
    } else {
        with_next(gathered(runs, blocks.drop_last()), blocks.last())
    }
}

/// The runs to release for a pointer-mapped file, whatever its size: all its
/// data, then its pointer blocks.
pub open spec fn pointer_runs(v: Vol, raw: Seq<u8>) -> Result<Seq<(u64, u32)>> {
    match held_by(v.img, v.bs(), block_area_of(raw), most_blocks(v.bs() / 4)) {
        Err(e) => Err(e),
        Ok(h) => {
            let runs = gathered(gathered(Seq::empty(), h.data), h.meta);
            if runs.len() > 0xFFFF_FFFF {
                Err(Error::Corrupt("indirect_mut: too many runs"))
            } else {
                Ok(runs)
            }
        },
    }
}

proof fn lemma_held_in_error(img: Seq<u8>, bs: int, b: Seq<u8>, level: nat, count: int, i: nat, k: nat, e: Error)
    requires
        i <= k,
        held_in(img, bs, b, level, count, i) == Err::<Held, Error>(e),
    ensures
        held_in(img, bs, b, level, count, k) == Err::<Held, Error>(e),
    decreases k,
{
    if i < k {
        lemma_held_in_error(img, bs, b, level, count, i, (k - 1) as nat, e);
    }
}

/// The data and pointer blocks gathered so far.
pub struct Gathered {
    pub data: Vec<u64>,
    pub meta: Vec<u64>,
}

impl Gathered {
    pub open spec fn view(&self) -> Held {
        Held { data: self.data@, meta: self.meta@ }
    }
}

fn gather<S: BlockSource>(src: &S, bs: u32, p: u32, level: u32, count: u64, out: &mut Gathered) -> (r: Result<()>)
    requires
        1024 <= bs <= 65536,
        src.serves(bs as int),
        bs % 4 == 0,
        level <= 3,
    ensures
        match r {
            Ok(_) => held(src.image(), bs as int, p, level as nat, count as int) matches Ok(h)
                && final(out)@ == held_and(old(out)@, h),
            Err(e) => held(src.image(), bs as int, p, level as nat, count as int) == Err::<Held, Error>(e)
                || (!src.reliable() && e == Error::Io),
        },
    decreases level,
{
    if p == 0 || count == 0 {
        assert(out@ =~= held_and(old(out)@, holds_nothing()));
        return Ok(());
    }
    if level == 0 {
        out.data.push(p as u64);
        assert(out@ =~= held_and(old(out)@, (Held { data: seq![p as u64], meta: Seq::empty() })));
        return Ok(());
    }
    let b: Vec<u8> = match src.fetch(bs, p as u64) {
        Ok(b) => b,
        Err(e) => {
            return Err(e);
        },
    };
    out.meta.push(p as u64);
    let ghost first = Held { data: Seq::<u64>::empty(), meta: seq![p as u64] };
    assert(out@ =~= held_and(old(out)@, first));
    let per: u64 = bs as u64 / 4;
    proof {
        lemma_span(per as int);
        assert(per * per <= 16384 * 16384) by (nonlinear_arith)
            requires
                0 < per <= 16384,
        ;
    }
    let step: u64 = if level == 1 {
        1
    } else if level == 2 {
        per
    } else {
        per * per
    };
    assert(step == span(per as int, (level - 1) as nat));
    let mut k: u64 = 0;
    let mut rest: u64 = count;
    assert(out@ =~= held_and(held_and(old(out)@, first), holds_nothing()));
    while k < per
        invariant
            1024 <= bs <= 65536,
            src.serves(bs as int),
            bs % 4 == 0,
            1 <= level <= 3,
            p != 0,
            count > 0,
            k <= per,
            per == bs / 4,
            b@.len() == bs,
            step == span(per as int, (level - 1) as nat),
            step > 0,
            rest == (if count - k * step < 0 {
                0
            } else {
                count - k * step
            }),
            block_at(src.image(), bs as int, p as int) == Ok::<Seq<u8>, Error>(b@),
            first == (Held { data: Seq::<u64>::empty(), meta: seq![p as u64] }),
            held_in(src.image(), bs as int, b@, (level - 1) as nat, count as int, k as nat) matches Ok(h) && out@
                == held_and(held_and(old(out)@, first), h),
        decreases per - k,
    {
        let ghost before = held_in(src.image(), bs as int, b@, (level - 1) as nat, count as int, k as nat)->Ok_0;
        assert((k + 1) * step == k * step + step) by (nonlinear_arith);
        let here: u64 = if rest < step {
            rest
        } else {
            step
        };
        assert(here == clamp(count - k * step, step as int));
        if let Err(e) = gather(src, bs, get_u32(&b, 4 * k as usize), level - 1, here, out) {
            proof {
                let next = held_in(
                    src.image(),
                    bs as int,
                    b@,
                    (level - 1) as nat,
                    count as int,
                    (k + 1) as nat,
                );
                if next == Err::<Held, Error>(e) {
                    lemma_held_in_error(
                        src.image(),
                        bs as int,
                        b@,
                        (level - 1) as nat,
                        count as int,
                        (k + 1) as nat,
                        per as nat,
                        e,
                    );
                }
            }
            return Err(e);
        }
        proof {
            let h = held(
                src.image(),
                bs as int,
                le32(b@, 4 * k),
                (level - 1) as nat,
                clamp(count - k * step, step as int),
            )->Ok_0;
            assert(held_and(held_and(held_and(old(out)@, first), before), h) =~= held_and(
                held_and(old(out)@, first),
                held_and(before, h),
            ));
        }
        k += 1;
        rest = rest - here;
    }
    proof {
        let h = held_in(src.image(), bs as int, b@, (level - 1) as nat, count as int, per as nat)->Ok_0;
        assert(held_and(held_and(old(out)@, first), h) =~= held_and(old(out)@, held_and(first, h)));
    }
    Ok(())
}

/// Every block behind a pointer area that a file of `count` blocks holds.
pub fn collect_for_free<S: BlockSource>(area: &[u8], src: &S, bs: u32, count: u64) -> (r: Result<Gathered>)
    requires
        1024 <= bs <= 65536,
        src.serves(bs as int),
        bs % 4 == 0,
        area@.len() == 60,
    ensures
        match r {
            Ok(g) => held_by(src.image(), bs as int, area@, count as int) == Ok::<Held, Error>(g@),
            Err(e) => held_by(src.image(), bs as int, area@, count as int) == Err::<Held, Error>(e) || (
            !src.reliable() && e == Error::Io),
        },
{
    let mut out = Gathered { data: Vec::new(), meta: Vec::new() };
    let direct: u64 = if count < 12 {
        count
    } else {
        12
    };
    let mut k: u64 = 0;
    assert(out.data@ =~= Seq::<u64>::empty());
    while k < direct
        invariant
            k <= direct <= 12,
            area@.len() == 60,
            out.data@ == held_direct(area@, k as nat),
            out.meta@ =~= Seq::<u64>::empty(),
        decreases direct - k,
    {
        let p: u32 = get_u32(area, 4 * k as usize);
        if p != 0 {
            out.data.push(p as u64);
        }
        k += 1;
    }
    let ghost d = Held { data: held_direct(area@, direct as nat), meta: Seq::empty() };
    assert(out@ =~= d);
    let per: u64 = bs as u64 / 4;
    proof {
        lemma_span(per as int);
        assert(per * per <= 16384 * 16384) by (nonlinear_arith)
            requires
                0 < per <= 16384,
        ;
    }
    if let Err(e) = gather(src, bs, get_u32(area, 48), 1, less_by(count, 12), &mut out) {
        return Err(e);
    }
    if let Err(e) = gather(src, bs, get_u32(area, 52), 2, less_by(count, 12 + per), &mut out) {
        return Err(e);
    }
    if let Err(e) = gather(
        src,
        bs,
        get_u32(area, 56),
        3,
        less_by(count, 12 + per + per * per),
        &mut out,
    ) {
        return Err(e);
    }
    proof {
        let img = src.image();
        lemma_held_none(img, bs as int, le32(area@, 48), 1, count - 12);
        lemma_held_none(img, bs as int, le32(area@, 52), 2, count - 12 - per);
        lemma_held_none(img, bs as int, le32(area@, 56), 3, count - 12 - per - per * per);
    }
    Ok(out)
}

proof fn lemma_held_none(img: Seq<u8>, bs: int, p: u32, level: nat, count: int)
    ensures
        held(img, bs, p, level, count) == held(
            img,
            bs,
            p,
            level,
            if count < 0 {
                0
            } else {
                count
            },
        ),
{
}

fn less_by(n: u64, k: u64) -> (r: u64)
    ensures
        r == (if n < k {
            0
        } else {
            n - k
        }),
{
    if n < k {
        0
    } else {
        n - k
    }
}

fn gather_runs(runs: &mut Vec<(u64, u32)>, blocks: &[u64])
    requires
        runs_small(old(runs)@),
        forall|i: int| 0 <= i < blocks@.len() ==> #[trigger] blocks@[i] <= u32::MAX,
        forall|i: int| 0 <= i < old(runs)@.len() ==> (#[trigger] old(runs)@[i]).0 <= u32::MAX,
    ensures
        final(runs)@ == gathered(old(runs)@, blocks@),
        runs_small(final(runs)@),
        forall|i: int| 0 <= i < final(runs)@.len() ==> (#[trigger] final(runs)@[i]).0 <= u32::MAX,
{
    let ghost r0 = runs@;
    let mut i: usize = 0;
    assert(blocks@.take(0) =~= Seq::<u64>::empty());
    while i < blocks.len()
        invariant
            i <= blocks@.len(),
            forall|i: int| 0 <= i < blocks@.len() ==> #[trigger] blocks@[i] <= u32::MAX,
            forall|i: int| 0 <= i < runs@.len() ==> (#[trigger] runs@[i]).0 <= u32::MAX,
            runs_small(runs@),
            runs@ == gathered(r0, blocks@.take(i as int)),
        decreases blocks@.len() - i,
    {
        let b: u64 = blocks[i];
        assert(b <= u32::MAX);
        let n: usize = runs.len();
        proof {
            assert(blocks@.take(i + 1).drop_last() =~= blocks@.take(i as int));
        }
        if n > 0 {
            let (start, len): (u64, u32) = runs[n - 1];
            assert(runs@[n - 1].1 <= 32768 && runs@[n - 1].0 <= u32::MAX);
            if start + len as u64 == b && len < 32768 {
                runs.set(n - 1, (start, len + 1));
            } else {
                runs.push((b, 1));
            }
        } else {
            runs.push((b, 1));
        }
        i += 1;
    }
    assert(blocks@.take(i as int) =~= blocks@);
}

proof fn lemma_held_low(img: Seq<u8>, bs: int, p: u32, level: nat, count: int)
    ensures
        held(img, bs, p, level, count) matches Ok(h) ==> held_low(h),
    decreases level, (bs / 4) as nat + 1,
{
    if p != 0 && count > 0 && level > 0 {
        if let Ok(b) = block_at(img, bs, p as int) {
            lemma_held_in_low(img, bs, b, (level - 1) as nat, count, (bs / 4) as nat);
        }
    }
}

proof fn lemma_held_in_low(img: Seq<u8>, bs: int, b: Seq<u8>, level: nat, count: int, k: nat)
    ensures
        held_in(img, bs, b, level, count, k) matches Ok(h) ==> held_low(h),
    decreases level + 1, k,
{
    if k > 0 {
        lemma_held_in_low(img, bs, b, level, count, (k - 1) as nat);
        lemma_held_low(
            img,
            bs,
            le32(b, 4 * (k - 1)),
            level,
            clamp(count - (k - 1) * span(bs / 4, level), span(bs / 4, level)),
        );
    }
}

proof fn lemma_direct_low(area: Seq<u8>, k: nat)
    ensures
        forall|i: int| 0 <= i < held_direct(area, k).len() ==> #[trigger] held_direct(area, k)[i] <= u32::MAX,
    decreases k,
{
    if k > 0 {
        lemma_direct_low(area, (k - 1) as nat);
        let before = held_direct(area, (k - 1) as nat);
        assert forall|i: int| 0 <= i < held_direct(area, k).len() implies #[trigger] held_direct(area, k)[i]
            <= u32::MAX by {
            if i < before.len() {
                assert(before[i] <= u32::MAX);
            }
        }
    }
}

spec fn held_low(h: Held) -> bool {
    (forall|i: int| 0 <= i < h.data.len() ==> #[trigger] h.data[i] <= u32::MAX) && (forall|i: int|
        0 <= i < h.meta.len() ==> #[trigger] h.meta[i] <= u32::MAX)
}

impl<D: BlockDevice> Filesystem<D> {
    /// The runs that a pointer-mapped file holds.
    pub(crate) fn plan_pointer_runs(&self, inode: &Inode, Ghost(raw): Ghost<Seq<u8>>) -> (r: Result<Vec<(u64, u32)>>)
        requires
            self.wf(),
            inode.decodes(raw),
        ensures
            match r {
                Ok(runs) => pointer_runs(self@, raw) == Ok::<Seq<(u64, u32)>, Error>(runs@) && runs_small(
                    runs@,
                ) && runs@.len() <= 0xFFFF_FFFF,
                Err(e) => pointer_runs(self@, raw) == Err::<Seq<(u64, u32)>, Error>(e) || (
                !self.dev.healthy() && e == Error::Io),
            },
    {
        let mut runs: Vec<(u64, u32)> = Vec::new();
        assert(runs@ =~= Seq::<(u64, u32)>::empty());
        let bs: u32 = self.sb.block_size();
        let per: u64 = bs as u64 / 4;
        proof {
            lemma_span(per as int);
            assert(per * (per * per) == per * per * per && per * per <= per * (per * per)) by (nonlinear_arith)
                requires
                    0 < per <= 16384,
            ;
        }
        let count: u64 = 12 + per + per * per + per * (per * per);
        let g: Gathered = match collect_for_free(&inode.block, &self.dev, bs, count) {
            Ok(g) => g,
            Err(e) => {
                return Err(e);
            },
        };
        proof {
            let area = inode.block@;
            let per = bs as int / 4;
            lemma_direct_low(area, clamp(count as int, 12) as nat);
            lemma_held_low(self@.img, bs as int, le32(area, 48), 1, count - 12);
            lemma_held_low(self@.img, bs as int, le32(area, 52), 2, count - 12 - span(per, 1));
            lemma_held_low(
                self@.img,
                bs as int,
                le32(area, 56),
                3,
                count - 12 - span(per, 1) - span(per, 2),
            );
        }
        gather_runs(&mut runs, &g.data);
        gather_runs(&mut runs, &g.meta);
        if runs.len() as u64 > 0xFFFF_FFFF {
            return Err(Error::Corrupt("indirect_mut: too many runs"));
        }
        Ok(runs)
    }
}

// -- building a tree --------------------------------------------------------

/// Pointer blocks in a full tree of the given level.
pub open spec fn tree_size(per: int, level: nat) -> int
    decreases level,
{
    if level == 0 {
        0
    } else {
        1 + per * tree_size(per, (level - 1) as nat)
    }
}

/// Pointers in use in the top block of a tree over `n` file blocks.
pub open spec fn kids(per: int, level: nat, n: int) -> int {
    blocks_for(n, span(per, (level - 1) as nat))
}

/// Pointer blocks in a tree of the given level over `n` file blocks.
pub open spec fn node_count(per: int, level: nat, n: int) -> int
    decreases level,
{
    if n <= 0 || level == 0 {
        0
    } else {
        let full = kids(per, level, n) - 1;
        1 + full * tree_size(per, (level - 1) as nat) + node_count(
            per,
            (level - 1) as nat,
            n - full * span(per, (level - 1) as nat),
        )
    }
}

/// The `j`th pointer of a tree's top block: to the file's own blocks at the
/// last level, else to the next pointer block in line.
pub open spec fn child_pointer(per: int, level: nat, data: int, meta: int, j: int) -> int {
    if level == 1 {
        data + j
    } else {
        meta + 1 + j * tree_size(per, (level - 1) as nat)
    }
}

/// A block with its first `k` pointers set.
pub open spec fn pointer_block(bs: int, level: nat, data: int, meta: int, k: nat) -> Seq<u8>
    decreases k,
{
    if k == 0 {
        zeros(bs as nat)
    } else {
        put32(
            pointer_block(bs, level, data, meta, (k - 1) as nat),
            4 * (k - 1),
            child_pointer(bs / 4, level, data, meta, k - 1) as u32,
        )
    }
}

/// The pointer blocks of a tree whose top is block `meta`, over `n` file
/// blocks that lie from block `data` on.
pub open spec fn tree_writes(bs: int, level: nat, n: int, data: int, meta: int) -> Seq<(u64, Seq<u8>)>
    decreases level, kids(bs / 4, level, n) as nat + 1,
{
    if level == 0 || n <= 0 {
        Seq::empty()
    } else {
        let k = kids(bs / 4, level, n) as nat;
        seq![(meta as u64, pointer_block(bs, level, data, meta, k))] + kid_writes(
            bs,
            level,
            n,
            data,
            meta,
            k,
        )
    }
}

/// The pointer blocks under the first `k` pointers of a tree's top block.
pub open spec fn kid_writes(bs: int, level: nat, n: int, data: int, meta: int, k: nat) -> Seq<(u64, Seq<u8>)>
    decreases level, k,
{
    if level <= 1 || k == 0 {
        Seq::empty()
    } else {
        let part = span(bs / 4, (level - 1) as nat);
        kid_writes(bs, level, n, data, meta, (k - 1) as nat) + tree_writes(
            bs,
            (level - 1) as nat,
            clamp(n - (k - 1) * part, part),
            data + (k - 1) * part,
            child_pointer(bs / 4, level, data, meta, k - 1),
        )
    }
}

/// The file blocks left to the tree of the given level, of a file of `n`.
pub open spec fn tree_share(per: int, level: nat, n: int) -> int {
    if level == 1 {
        clamp(n - 12, span(per, 1))
    } else if level == 2 {
        clamp(n - 12 - span(per, 1), span(per, 2))
    } else {
        clamp(n - 12 - span(per, 1) - span(per, 2), span(per, 3))
    }
}

/// The most blocks that a file can have.
pub open spec fn most_blocks(per: int) -> int {
    12 + span(per, 1) + span(per, 2) + span(per, 3)
}

/// The pointer blocks that a file of `n` blocks takes.
pub open spec fn pointer_blocks(per: int, n: int) -> int {
    node_count(per, 1, tree_share(per, 1, n)) + node_count(per, 2, tree_share(per, 2, n)) + node_count(
        per,
        3,
        tree_share(per, 3, n),
    )
}

/// Where the tree of the given level has its top.
pub open spec fn tree_top(per: int, level: nat, n: int, meta: int) -> int {
    if level == 1 {
        meta
    } else if level == 2 {
        meta + node_count(per, 1, tree_share(per, 1, n))
    } else {
        meta + node_count(per, 1, tree_share(per, 1, n)) + node_count(per, 2, tree_share(per, 2, n))
    }
}

/// Where the blocks under the tree of the given level start.
pub open spec fn tree_data(per: int, level: nat, data: int) -> int {
    if level == 1 {
        data + 12
    } else if level == 2 {
        data + 12 + span(per, 1)
    } else {
        data + 12 + span(per, 1) + span(per, 2)
    }
}

/// All pointer blocks of a file of `n` blocks that lie from block `data` on,
/// with the pointer blocks from block `meta` on.
pub open spec fn file_writes(bs: int, n: int, data: int, meta: int) -> Seq<(u64, Seq<u8>)> {
    let per = bs / 4;
    tree_writes(bs, 1, tree_share(per, 1, n), tree_data(per, 1, data), tree_top(per, 1, n, meta))
        + tree_writes(bs, 2, tree_share(per, 2, n), tree_data(per, 2, data), tree_top(per, 2, n, meta))
        + tree_writes(bs, 3, tree_share(per, 3, n), tree_data(per, 3, data), tree_top(per, 3, n, meta))
}

/// The first `k` direct pointers set.
pub open spec fn direct_pointers(data: int, k: nat) -> Seq<u8>
    decreases k,
{
    if k == 0 {
        zeros(60)
    } else {
        put32(direct_pointers(data, (k - 1) as nat), 4 * (k - 1), (data + k - 1) as u32)
    }
}

/// A pointer to a tree's top, or none for an empty tree.
pub open spec fn top_pointer(area: Seq<u8>, at: int, share: int, top: int) -> Seq<u8> {
    if share > 0 {
        put32(area, at, top as u32)
    } else {
        area
    }
}

/// The pointer area of a file of `n` blocks.
pub open spec fn pointer_area(bs: int, n: int, data: int, meta: int) -> Seq<u8> {
    let per = bs / 4;
    let a0 = direct_pointers(data, clamp(n, 12) as nat);
    let a1 = top_pointer(a0, 48, tree_share(per, 1, n), tree_top(per, 1, n, meta));
    let a2 = top_pointer(a1, 52, tree_share(per, 2, n), tree_top(per, 2, n, meta));
    top_pointer(a2, 56, tree_share(per, 3, n), tree_top(per, 3, n, meta))
}

pub(crate) proof fn lemma_kids(per: int, level: nat, n: int)
    requires
        0 < per <= 16384,
        1 <= level <= 3,
        0 < n <= span(per, level),
    ensures
        0 < span(per, (level - 1) as nat),
        1 <= kids(per, level, n) <= per,
        0 < n - (kids(per, level, n) - 1) * span(per, (level - 1) as nat) <= span(
            per,
            (level - 1) as nat,
        ),
        forall|j: int|
            0 <= j < kids(per, level, n) - 1 ==> #[trigger] ((j + 1) * span(per, (level - 1) as nat)) <= n,
{
    lemma_span(per);
    let part = span(per, (level - 1) as nat);
    assert(span(per, level) == per * part);
    crate::superblock::lemma_div_ceil(n, part);
    let k = kids(per, level, n);
    vstd::arithmetic::div_mod::lemma_fundamental_div_mod(n, part);
    let q = n / part;
    let m = n % part;
    assert(n == part * q + m);
    if m == 0 {
        assert(q >= 1) by (nonlinear_arith)
            requires
                n == part * q,
                n > 0,
                part > 0,
        ;
        assert((q - 1) * part == part * q - part) by (nonlinear_arith);
        assert(q <= per) by (nonlinear_arith)
            requires
                part * q <= per * part,
                part > 0,
        ;
    } else {
        assert(q * part == part * q) by (nonlinear_arith);
        assert(q >= 0) by (nonlinear_arith)
            requires
                n == part * q + m,
                n > 0,
                m < part,
                part > 0,
        ;
        assert(q < per) by (nonlinear_arith)
            requires
                part * q + m <= per * part,
                m > 0,
                part > 0,
        ;
    }
    assert forall|j: int| 0 <= j < k - 1 implies #[trigger] ((j + 1) * part) <= n by {
        assert((j + 1) * part <= (k - 1) * part) by (nonlinear_arith)
            requires
                j + 1 <= k - 1,
                part > 0,
        ;
    }
}

pub(crate) proof fn lemma_node_count(per: int, level: nat, n: int)
    requires
        0 < per <= 16384,
        level <= 3,
        n <= span(per, level),
    ensures
        0 <= node_count(per, level, n) <= tree_size(per, level),
        n > 0 && level > 0 ==> node_count(per, level, n) >= 1,
        tree_size(per, 0) == 0,
        tree_size(per, 1) == 1,
        tree_size(per, 2) == 1 + per,
        tree_size(per, 3) == 1 + per * (1 + per),
        0 <= tree_size(per, level) <= 0x2000_0000,
    decreases level,
{
    reveal_with_fuel(tree_size, 4);
    assert(per * 0 == 0 && per * 1 == per) by (nonlinear_arith);
    assert(per * (1 + per) <= 16384 * 16385) by (nonlinear_arith)
        requires
            0 < per <= 16384,
    ;
    assert(per * (1 + per) >= 0) by (nonlinear_arith)
        requires
            0 < per,
    ;
    if n > 0 && level > 0 {
        lemma_kids(per, level, n);
        let full = kids(per, level, n) - 1;
        let ts = tree_size(per, (level - 1) as nat);
        lemma_node_count(per, (level - 1) as nat, n - full * span(per, (level - 1) as nat));
        assert(0 <= full * ts && full * ts + ts <= per * ts) by (nonlinear_arith)
            requires
                0 <= full < per,
                0 <= ts,
        ;
    }
}

pub(crate) proof fn lemma_pointer_block(bs: int, level: nat, data: int, meta: int, k: nat)
    requires
        bs % 4 == 0,
        0 <= 4 * k <= bs,
    ensures
        pointer_block(bs, level, data, meta, k).len() == bs,
        forall|j: int|
            0 <= j < k ==> #[trigger] le32(pointer_block(bs, level, data, meta, k), 4 * j) == child_pointer(
                bs / 4,
                level,
                data,
                meta,
                j,
            ) as u32,
    decreases k,
{
    if k > 0 {
        lemma_pointer_block(bs, level, data, meta, (k - 1) as nat);
    }
}

/// Every block of a list stands in an image.
pub open spec fn in_place(img: Seq<u8>, bs: int, writes: Seq<(u64, Seq<u8>)>) -> bool {
    forall|x: int|
        0 <= x < writes.len() ==> block_at(img, bs, (#[trigger] writes[x]).0 as int) == Ok::<Seq<u8>, Error>(
            writes[x].1,
        )
}

proof fn lemma_in_place_parts(img: Seq<u8>, bs: int, a: Seq<(u64, Seq<u8>)>, b: Seq<(u64, Seq<u8>)>)
    requires
        in_place(img, bs, a + b),
    ensures
        in_place(img, bs, a),
        in_place(img, bs, b),
{
    let c = a + b;
    assert forall|x: int| 0 <= x < a.len() implies block_at(img, bs, (#[trigger] a[x]).0 as int) == Ok::<
        Seq<u8>,
        Error,
    >(a[x].1) by {
        assert(c[x] == a[x]);
    }
    assert forall|x: int| 0 <= x < b.len() implies block_at(img, bs, (#[trigger] b[x]).0 as int) == Ok::<
        Seq<u8>,
        Error,
    >(b[x].1) by {
        assert(c[a.len() + x] == b[x]);
    }
}

proof fn lemma_kid_in_place(img: Seq<u8>, bs: int, level: nat, n: int, data: int, meta: int, k: nat, j: int)
    requires
        level > 1,
        0 <= j < k,
        in_place(img, bs, kid_writes(bs, level, n, data, meta, k)),
    ensures
        ({
            let part = span(bs / 4, (level - 1) as nat);
            in_place(
                img,
                bs,
                tree_writes(
                    bs,
                    (level - 1) as nat,
                    clamp(n - j * part, part),
                    data + j * part,
                    child_pointer(bs / 4, level, data, meta, j),
                ),
            )
        }),
    decreases k,
{
    let part = span(bs / 4, (level - 1) as nat);
    lemma_in_place_parts(
        img,
        bs,
        kid_writes(bs, level, n, data, meta, (k - 1) as nat),
        tree_writes(
            bs,
            (level - 1) as nat,
            clamp(n - (k - 1) * part, part),
            data + (k - 1) * part,
            child_pointer(bs / 4, level, data, meta, k - 1),
        ),
    );
    if j < k - 1 {
        lemma_kid_in_place(img, bs, level, n, data, meta, (k - 1) as nat, j);
    }
}

/// A tree that stands in an image leads to the file's own blocks, each in its
/// turn.
pub proof fn lemma_tree_maps(img: Seq<u8>, bs: int, level: nat, n: int, data: int, meta: int, i: int)
    requires
        1024 <= bs <= 65536,
        bs % 4 == 0,
        1 <= level <= 3,
        0 <= i < n <= span(bs / 4, level),
        0 < data,
        data + n <= 0x1_0000_0000,
        0 < meta,
        meta + node_count(bs / 4, level, n) <= 0x1_0000_0000,
        in_place(img, bs, tree_writes(bs, level, n, data, meta)),
    ensures
        follow(img, bs, meta as u32, level, i) == Ok::<Option<u64>, Error>(Some((data + i) as u64)),
    decreases level,
{
    let per = bs / 4;
    let part = span(per, (level - 1) as nat);
    let ts = tree_size(per, (level - 1) as nat);
    lemma_kids(per, level, n);
    lemma_node_count(per, level, n);
    let k = kids(per, level, n);
    let node = pointer_block(bs, level, data, meta, k as nat);
    let rest = kid_writes(bs, level, n, data, meta, k as nat);
    lemma_pointer_block(bs, level, data, meta, k as nat);
    lemma_in_place_parts(img, bs, seq![(meta as u64, node)], rest);
    assert(seq![(meta as u64, node)][0] == (meta as u64, node));
    lemma_node_count(per, (level - 1) as nat, n - (k - 1) * part);
    assert(0 <= (k - 1) * ts) by (nonlinear_arith)
        requires
            k >= 1,
            ts >= 0,
    ;
    assert(node_count(per, level, n) == 1 + (k - 1) * ts + node_count(
        per,
        (level - 1) as nat,
        n - (k - 1) * part,
    ));
    assert(0 < meta < 0x1_0000_0000);
    assert(block_at(img, bs, meta as u32 as int) == Ok::<Seq<u8>, Error>(node));
    let j = i / part;
    let x = i % part;
    vstd::arithmetic::div_mod::lemma_fundamental_div_mod(i, part);
    assert(part * j == j * part) by (nonlinear_arith);
    assert(0 <= j) by (nonlinear_arith)
        requires
            i == part * j + x,
            x < part,
            0 <= i,
            part > 0,
    ;
    assert(j < k) by (nonlinear_arith)
        requires
            i == part * j + x,
            0 <= x,
            i < n,
            n <= (k - 1) * part + part,
            part > 0,
    ;
    assert(le32(node, 4 * j) == child_pointer(per, level, data, meta, j) as u32);
    let next = child_pointer(per, level, data, meta, j);
    assert(follow(img, bs, meta as u32, level, i) == follow(
        img,
        bs,
        next as u32,
        (level - 1) as nat,
        x,
    ));
    if level == 1 {
        assert(part == 1);
        assert(j == i);
        assert(next as u32 as int == data + i);
        assert(follow(img, bs, next as u32, 0, x) == Ok::<Option<u64>, Error>(pointer(next as u32)));
    } else {
        let share = clamp(n - j * part, part);
        lemma_kid_in_place(img, bs, level, n, data, meta, k as nat, j);
        if j < k - 1 {
            assert((j + 1) * part <= n);
            assert((j + 1) * part == j * part + part) by (nonlinear_arith);
            assert(j * ts + ts <= (k - 1) * ts) by (nonlinear_arith)
                requires
                    j + 1 <= k - 1,
                    ts >= 0,
            ;
        }
        assert(0 <= j * ts && 0 <= j * part) by (nonlinear_arith)
            requires
                0 <= j,
                ts >= 0,
                part > 0,
        ;
        lemma_node_count(per, (level - 1) as nat, share);
        lemma_tree_maps(
            img,
            bs,
            (level - 1) as nat,
            share,
            data + j * part,
            child_pointer(per, level, data, meta, j),
            x,
        );
    }
}

pub(crate) proof fn lemma_direct_pointers(data: int, k: nat)
    requires
        k <= 12,
    ensures
        direct_pointers(data, k).len() == 60,
        forall|j: int| 0 <= j < k ==> #[trigger] le32(direct_pointers(data, k), 4 * j) == (data + j) as u32,
    decreases k,
{
    if k > 0 {
        lemma_direct_pointers(data, (k - 1) as nat);
    }
}

/// Once its pointer blocks are written, file block `l` of a file laid out in
/// one run is found at the `l`th block of the run.
pub proof fn law_pointers_map(img: Seq<u8>, bs: int, n: int, data: int, meta: int, l: int)
    requires
        1024 <= bs <= 65536,
        bs % 4 == 0,
        0 <= l < n <= most_blocks(bs / 4),
        0 < data,
        data + n <= 0x1_0000_0000,
        0 < meta,
        meta + pointer_blocks(bs / 4, n) <= 0x1_0000_0000,
        in_place(img, bs, file_writes(bs, n, data, meta)),
    ensures
        indirect_block_for(img, bs, pointer_area(bs, n, data, meta), l) == Ok::<Option<u64>, Error>(
            Some((data + l) as u64),
        ),
{
    let per = bs / 4;
    lemma_span(per);
    lemma_direct_pointers(data, clamp(n, 12) as nat);
    let s1 = tree_share(per, 1, n);
    let s2 = tree_share(per, 2, n);
    let s3 = tree_share(per, 3, n);
    lemma_node_count(per, 1, s1);
    lemma_node_count(per, 2, s2);
    lemma_node_count(per, 3, s3);
    let w1 = tree_writes(bs, 1, s1, tree_data(per, 1, data), tree_top(per, 1, n, meta));
    let w2 = tree_writes(bs, 2, s2, tree_data(per, 2, data), tree_top(per, 2, n, meta));
    let w3 = tree_writes(bs, 3, s3, tree_data(per, 3, data), tree_top(per, 3, n, meta));
    lemma_in_place_parts(img, bs, w1 + w2, w3);
    lemma_in_place_parts(img, bs, w1, w2);
    let a0 = direct_pointers(data, clamp(n, 12) as nat);
    if l < 12 {
        assert(le32(a0, 4 * l) == (data + l) as u32);
    } else if l - 12 < span(per, 1) {
        lemma_tree_maps(
            img,
            bs,
            1,
            s1,
            tree_data(per, 1, data),
            tree_top(per, 1, n, meta),
            l - 12,
        );
    } else if l - 12 - span(per, 1) < span(per, 2) {
        lemma_tree_maps(
            img,
            bs,
            2,
            s2,
            tree_data(per, 2, data),
            tree_top(per, 2, n, meta),
            l - 12 - span(per, 1),
        );
    } else {
        lemma_tree_maps(
            img,
            bs,
            3,
            s3,
            tree_data(per, 3, data),
            tree_top(per, 3, n, meta),
            l - 12 - span(per, 1) - span(per, 2),
        );
    }
}

/// How many pointers of a tree's top block are in use, and how many file
/// blocks each stands for.
fn top_shape(per: u64, level: u32, n: u64) -> (r: (u64, u64))
    requires
        0 < per <= 16384,
        1 <= level <= 3,
        0 < n <= span(per as int, level as nat),
    ensures
        r.0 == kids(per as int, level as nat, n as int),
        r.1 == span(per as int, (level - 1) as nat),
{
    proof {
        lemma_span(per as int);
        assert(per * per <= 16384 * 16384) by (nonlinear_arith)
            requires
                0 < per <= 16384,
        ;
    }
    if level == 1 {
        assert((n + 1 - 1) / 1 == n);
        (n, 1)
    } else if per == 1 {
        assert(n == 1);
        assert(per * per == 1) by (nonlinear_arith)
            requires
                per == 1,
        ;
        (1, 1)
    } else {
        let part: u64 = if level == 2 {
            per
        } else {
            per * per
        };
        assert(part > 1) by (nonlinear_arith)
            requires
                per > 1,
                part == per || part == per * per,
        ;
        (blocks_for_bytes(n, part), part)
    }
}

/// Pointer blocks in a tree of the given level over `n` file blocks.
fn nodes_for(per: u64, level: u32, n: u64) -> (r: u64)
    requires
        0 < per <= 16384,
        level <= 3,
        n <= span(per as int, level as nat),
    ensures
        r == node_count(per as int, level as nat, n as int),
        r <= 0x2000_0000,
    decreases level,
{
    proof {
        lemma_node_count(per as int, level as nat, n as int);
        assert(per * (1 + per) <= 16384 * 16385) by (nonlinear_arith)
            requires
                0 < per <= 16384,
        ;
    }
    if n == 0 || level == 0 {
        return 0;
    }
    let (k, part): (u64, u64) = top_shape(per, level, n);
    proof {
        lemma_kids(per as int, level as nat, n as int);
    }
    let size: u64 = child_size(per, level);
    let full: u64 = k - 1;
    assert(full * size <= 16384 * 16385) by (nonlinear_arith)
        requires
            full <= 16384,
            size <= 16385,
    ;
    assert(full * part <= n);
    1 + full * size + nodes_for(per, level - 1, n - full * part)
}

/// Pointer blocks in a full tree under one pointer of a tree's top block.
fn child_size(per: u64, level: u32) -> (r: u64)
    requires
        0 < per <= 16384,
        1 <= level <= 3,
    ensures
        r == tree_size(per as int, (level - 1) as nat),
        r <= 16385,
{
    proof {
        lemma_node_count(per as int, 0, 0);
    }
    if level == 1 {
        0
    } else if level == 2 {
        1
    } else {
        1 + per
    }
}

/// Indirect blocks that a file of `n` blocks takes.
pub fn count_indirect_blocks(n: u64, bs: u32) -> (r: u64)
    requires
        1024 <= bs <= 65536,
        n <= most_blocks(bs as int / 4),
    ensures
        r == pointer_blocks(bs as int / 4, n as int),
        r <= 0x6000_0000,
{
    let (s1, s2, s3): (u64, u64, u64) = shares(n, bs);
    let per: u64 = bs as u64 / 4;
    proof {
        lemma_span(per as int);
    }
    nodes_for(per, 1, s1) + nodes_for(per, 2, s2) + nodes_for(per, 3, s3)
}

/// How many of a file's blocks are under each of its trees.
fn shares(n: u64, bs: u32) -> (r: (u64, u64, u64))
    requires
        1024 <= bs <= 65536,
        n <= most_blocks(bs as int / 4),
    ensures
        r.0 == tree_share(bs as int / 4, 1, n as int),
        r.1 == tree_share(bs as int / 4, 2, n as int),
        r.2 == tree_share(bs as int / 4, 3, n as int),
        r.0 <= span(bs as int / 4, 1),
        r.1 <= span(bs as int / 4, 2),
        r.2 <= span(bs as int / 4, 3),
{
    let per: u64 = bs as u64 / 4;
    proof {
        lemma_span(per as int);
        assert(per * per <= 16384 * 16384) by (nonlinear_arith)
            requires
                0 < per <= 16384,
        ;
    }
    let square: u64 = per * per;
    let past1: u64 = less_by(n, 12);
    let past2: u64 = less_by(past1, per);
    let past3: u64 = less_by(past2, square);
    (
        if past1 < per {
            past1
        } else {
            per
        },
        if past2 < square {
            past2
        } else {
            square
        },
        past3,
    )
}

fn build_tree(bs: u32, level: u32, n: u64, data: u64, meta: u64, out: &mut Vec<(u64, Vec<u8>)>)
    requires
        1024 <= bs <= 65536,
        bs % 4 == 0,
        level <= 3,
        n <= span(bs as int / 4, level as nat),
        data + n <= 0x1_0000_0000,
        meta + node_count(bs as int / 4, level as nat, n as int) <= 0x1_0000_0000,
        forall|i: int| 0 <= i < old(out)@.len() ==> (#[trigger] old(out)@[i]).1@.len() == bs,
    ensures
        writes_view(final(out)@) == writes_view(old(out)@)
            + tree_writes(bs as int, level as nat, n as int, data as int, meta as int),
        forall|i: int| 0 <= i < final(out)@.len() ==> (#[trigger] final(out)@[i]).1@.len() == bs,
    decreases level,
{
    let ghost before = writes_view(out@);
    if n == 0 || level == 0 {
        assert(writes_view(out@) =~= before + Seq::<(u64, Seq<u8>)>::empty());
        return;
    }
    let per: u64 = bs as u64 / 4;
    let (k, part): (u64, u64) = top_shape(per, level, n);
    let size: u64 = child_size(per, level);
    proof {
        lemma_kids(per as int, level as nat, n as int);
        lemma_node_count(per as int, level as nat, n as int);
        lemma_node_count(per as int, (level - 1) as nat, n - (k - 1) * part);
        lemma_pointer_block(bs as int, level as nat, data as int, meta as int, k as nat);
    }
    let ghost ts = size as int;
    let ghost all = node_count(per as int, level as nat, n as int);
    let mut node: Vec<u8> = zeroed(bs as usize);
    let mut j: u64 = 0;
    while j < k
        invariant
            1024 <= bs <= 65536,
            bs % 4 == 0,
            1 <= level <= 3,
            j <= k <= per,
            per == bs / 4,
            part > 0,
            size == tree_size(per as int, (level - 1) as nat),
            part == span(per as int, (level - 1) as nat),
            data + n <= 0x1_0000_0000,
            (k - 1) * part < n,
            level > 1 ==> meta + 1 + (k - 1) * size < 0x1_0000_0000,
            node@.len() == bs,
            node@ == pointer_block(bs as int, level as nat, data as int, meta as int, j as nat),
        decreases k - j,
    {
        assert(j * size <= (k - 1) * size && j <= j * part && j * part <= (k - 1) * part) by (nonlinear_arith)
            requires
                0 <= j <= k - 1,
                0 <= size,
                0 < part,
        ;
        let p: u64 = if level == 1 {
            data + j
        } else {
            meta + 1 + j * size
        };
        set_u32(&mut node, 4 * j as usize, p as u32);
        j += 1;
    }
    out.push((meta, node));
    let ghost top = seq![
        (
            meta,
            pointer_block(bs as int, level as nat, data as int, meta as int, k as nat),
        ),
    ];
    assert(writes_view(out@) =~= before + top);
    if level == 1 {
        assert(tree_writes(bs as int, level as nat, n as int, data as int, meta as int) =~= top);
        return;
    }
    let mut j: u64 = 0;
    assert(writes_view(out@) =~= before + top + Seq::<(u64, Seq<u8>)>::empty());
    while j < k
        invariant
            1024 <= bs <= 65536,
            bs % 4 == 0,
            2 <= level <= 3,
            j <= k <= per,
            per == bs / 4,
            part > 0,
            size == tree_size(per as int, (level - 1) as nat),
            part == span(per as int, (level - 1) as nat),
            data + n <= 0x1_0000_0000,
            (k - 1) * part < n,
            n <= (k - 1) * part + part,
            meta + 1 + (k - 1) * size + node_count(
                per as int,
                (level - 1) as nat,
                n - (k - 1) * part,
            ) <= 0x1_0000_0000,
            meta + 1 + (k - 1) * size <= 0x1_0000_0000,
            forall|i: int| 0 <= i < out@.len() ==> (#[trigger] out@[i]).1@.len() == bs,
            writes_view(out@) == before + top + kid_writes(
                bs as int,
                level as nat,
                n as int,
                data as int,
                meta as int,
                j as nat,
            ),
        decreases k - j,
    {
        let ghost so_far = kid_writes(bs as int, level as nat, n as int, data as int, meta as int, j as nat);
        assert(j * size <= (k - 1) * size && j * part <= (k - 1) * part && 0 <= j * part && 0 <= j * size)
            by (nonlinear_arith)
            requires
                0 <= j <= k - 1,
                0 <= size,
                0 < part,
        ;
        let rest: u64 = n - j * part;
        let here: u64 = if rest < part {
            rest
        } else {
            part
        };
        proof {
            lemma_node_count(per as int, (level - 1) as nat, here as int);
            if j < k - 1 {
                assert(j * size + size <= (k - 1) * size && j * part + part <= (k - 1) * part)
                    by (nonlinear_arith)
                    requires
                        0 <= j,
                        j + 1 <= k - 1,
                        0 <= size,
                        0 < part,
                ;
            }
        }
        build_tree(bs, level - 1, here, data + j * part, meta + 1 + j * size, out);
        j += 1;
        proof {
            let step = tree_writes(
                bs as int,
                (level - 1) as nat,
                here as int,
                data + (j - 1) * part,
                meta + 1 + (j - 1) * size,
            );
            assert(before + top + so_far + step =~= before + top + (so_far + step));
        }
    }
    proof {
        let rest = kid_writes(bs as int, level as nat, n as int, data as int, meta as int, k as nat);
        assert(before + top + rest =~= before + (top + rest));
    }
}

/// A file's pointers: what its record holds, and the blocks behind that.
pub struct PointerPlan {
    pub area: Vec<u8>,
    pub writes: Vec<(u64, Vec<u8>)>,
}

/// Lay out the pointers of a file of `n` blocks that lie from block `data` on,
/// with the indirect blocks from block `meta` on.
pub fn plan_contiguous(n: u64, data: u64, meta: u64, bs: u32) -> (r: PointerPlan)
    requires
        1024 <= bs <= 65536,
        bs % 4 == 0,
        n <= most_blocks(bs as int / 4),
        data + n <= 0x1_0000_0000,
        meta + pointer_blocks(bs as int / 4, n as int) <= 0x1_0000_0000,
    ensures
        r.area@ == pointer_area(bs as int, n as int, data as int, meta as int),
        r.area@.len() == 60,
        writes_view(r.writes@) == file_writes(bs as int, n as int, data as int, meta as int),
        forall|i: int| 0 <= i < r.writes@.len() ==> (#[trigger] r.writes@[i]).1@.len() == bs,
{
    let per: u64 = bs as u64 / 4;
    let (s1, s2, s3): (u64, u64, u64) = shares(n, bs);
    let c1: u64 = nodes_for(per, 1, s1);
    let c2: u64 = nodes_for(per, 2, s2);
    proof {
        lemma_span(per as int);
        lemma_node_count(per as int, 1, s1 as int);
        lemma_node_count(per as int, 2, s2 as int);
        lemma_node_count(per as int, 3, s3 as int);
        lemma_direct_pointers(data as int, clamp(n as int, 12) as nat);
        assert(per * per <= 16384 * 16384) by (nonlinear_arith)
            requires
                0 < per <= 16384,
        ;
    }
    let mut area: Vec<u8> = zeroed(60);
    let direct: u64 = if n < 12 {
        n
    } else {
        12
    };
    let mut i: u64 = 0;
    while i < direct
        invariant
            i <= direct <= 12,
            direct <= n,
            data + n <= 0x1_0000_0000,
            area@.len() == 60,
            area@ == direct_pointers(data as int, i as nat),
        decreases direct - i,
    {
        set_u32(&mut area, 4 * i as usize, (data + i) as u32);
        i += 1;
    }
    let mut writes: Vec<(u64, Vec<u8>)> = Vec::new();
    let ghost none = Seq::<(u64, Seq<u8>)>::empty();
    assert(writes_view(writes@) =~= none);
    if s1 > 0 {
        set_u32(&mut area, 48, meta as u32);
        build_tree(bs, 1, s1, data + 12, meta, &mut writes);
    }
    let ghost w1 = tree_writes(bs as int, 1, s1 as int, data + 12, meta as int);
    assert(writes_view(writes@) =~= w1);
    if s2 > 0 {
        set_u32(&mut area, 52, (meta + c1) as u32);
        build_tree(bs, 2, s2, data + 12 + per, meta + c1, &mut writes);
    }
    let ghost w2 = tree_writes(bs as int, 2, s2 as int, data + 12 + per, meta + c1);
    assert(writes_view(writes@) =~= w1 + w2);
    if s3 > 0 {
        set_u32(&mut area, 56, (meta + c1 + c2) as u32);
        build_tree(bs, 3, s3, data + 12 + per + per * per, meta + c1 + c2, &mut writes);
    }
    let ghost w3 = tree_writes(bs as int, 3, s3 as int, data + 12 + per + per * per, meta + c1 + c2);
    assert(writes_view(writes@) =~= w1 + w2 + w3);
    PointerPlan { area, writes }
}

// -- whole contents ---------------------------------------------------------

/// The stage with blocks written out as they are.
pub open spec fn stage_writes(v: Vol, st: Stage, writes: Seq<(u64, Seq<u8>)>) -> Result<Stage>
    decreases writes.len(),
{
    if writes.len() == 0 {
        Ok(st)
    } else {
        match stage_writes(v, st, writes.drop_last()) {
            Err(e) => Err(e),
            Ok(before) => stage_fresh(v, before, writes.last().0, writes.last().1),
        }
    }
}

/// What replacing the contents of a pointer-mapped file comes to: its blocks
/// are released, and one run is taken for the pointer blocks and the data.
pub open spec fn replace_indirect_stage(v: Vol, ino: u32, raw: Seq<u8>, data: Seq<u8>, now: u32) -> Result<
    (Stage, u64),
> {
    match pointer_runs(v, raw) {
        Err(e) => Err(e),
        Ok(runs) => match stage_free_runs(v, fresh_stage(v), runs) {
            Err(e) => Err(e),
            Ok(st1) => {
                let freed = runs_total(runs);
                if data.len() == 0 {
                    match stage_inode(
                        v,
                        st1,
                        ino,
                        after_write(
                            v,
                            ino,
                            generation_of(raw),
                            with_block_area(raw, zeros(60)),
                            0,
                            0,
                            now,
                        ),
                    ) {
                        Err(e) => Err(e),
                        Ok(st2) => match (if freed > 0 {
                            stage_totals(v, st2, freed, 0)
                        } else {
                            Ok(st2)
                        }) {
                            Err(e) => Err(e),
                            Ok(st3) => Ok((st3, 0u64)),
                        },
                    }
                } else {
                    replace_pointed_data(v, st1, ino, raw, data, freed, now)
                }
            },
        },
    }
}

/// The rest of a replacement that has data.
pub open spec fn replace_pointed_data(
    v: Vol,
    st: Stage,
    ino: u32,
    raw: Seq<u8>,
    data: Seq<u8>,
    freed: int,
    now: u32,
) -> Result<(Stage, u64)> {
    let per = v.bs() / 4;
    let n = blocks_for(data.len() as int, v.bs());
    let meta = pointer_blocks(per, n);
    if n > most_blocks(per) {
        Err(Error::Corrupt("indirect_mut: file too large for the pointer tree"))
    } else if n + meta > i32::MAX {
        Err(Error::Corrupt("indirect_mut: total run count overflow"))
    } else {
        match staged_plan(v, st, (n + meta) as u32, home_group(v, ino)) {
            Err(e) => Err(e),
            Ok(plan) => if plan.first_block + n + meta > 0x1_0000_0000 {
                Err(Error::Corrupt("indirect_mut: block number exceeds 32 bits"))
            } else {
                match stage_mark_blocks(v, st, plan.first_block, n + meta) {
                    Err(e) => Err(e),
                    Ok(st1) => match stage_counters(
                        v,
                        st1,
                        plan.bgd.group_idx as int,
                        plan.bgd.free_blocks_delta as int,
                        plan.bgd.free_inodes_delta as int,
                        plan.bgd.used_dirs_delta as int,
                    ) {
                        Err(e) => Err(e),
                        Ok(st2) => match stage_totals(v, st2, freed - (n + meta), 0) {
                            Err(e) => Err(e),
                            Ok(st3) => match stage_data(
                                v,
                                st3,
                                (plan.first_block + meta) as u64,
                                data,
                                n as nat,
                            ) {
                                Err(e) => Err(e),
                                Ok(st4) => match stage_writes(
                                    v,
                                    st4,
                                    file_writes(
                                        v.bs(),
                                        n,
                                        plan.first_block + meta,
                                        plan.first_block as int,
                                    ),
                                ) {
                                    Err(e) => Err(e),
                                    Ok(st5) => match stage_inode(
                                        v,
                                        st5,
                                        ino,
                                        after_write(
                                            v,
                                            ino,
                                            generation_of(raw),
                                            with_block_area(
                                                raw,
                                                pointer_area(
                                                    v.bs(),
                                                    n,
                                                    plan.first_block + meta,
                                                    plan.first_block as int,
                                                ),
                                            ),
                                            data.len() as u64,
                                            ((n + meta) * (v.bs() / 512)) as u64,
                                            now,
                                        ),
                                    ) {
                                        Err(e) => Err(e),
                                        Ok(st6) => Ok((st6, data.len() as u64)),
                                    },
                                },
                            },
                        },
                    },
                }
            },
        }
    }
}

proof fn lemma_writes_error(v: Vol, st: Stage, writes: Seq<(u64, Seq<u8>)>, i: int, e: Error)
    requires
        0 <= i <= writes.len(),
        stage_writes(v, st, writes.take(i)) == Err::<Stage, Error>(e),
    ensures
        stage_writes(v, st, writes) == Err::<Stage, Error>(e),
    decreases writes.len() - i,
{
    if i < writes.len() {
        assert(writes.take(i + 1).drop_last() =~= writes.take(i));
        lemma_writes_error(v, st, writes, i + 1, e);
    } else {
        assert(writes.take(i) =~= writes);
    }
}

impl<D: BlockDevice> Filesystem<D> {
    fn buffer_put_writes(&self, buf: &mut BlockBuffer, writes: Vec<(u64, Vec<u8>)>) -> (r: Result<()>)
        requires
            self.wf(),
            old(buf).wf(self@),
            forall|i: int| 0 <= i < writes@.len() ==> (#[trigger] writes@[i]).1@.len() == self@.bs(),
        ensures
            final(buf).wf(self@),
            staged(
                stage_writes(self@, old(buf).stage(self@), writes_view(writes@)),
                r,
                final(buf).stage(self@),
                self.dev.healthy(),
            ),
    {
        let ghost all = writes_view(writes@);
        let ghost st0 = buf.stage(self@);
        let mut i: usize = 0;
        assert(all.take(0) =~= Seq::<(u64, Seq<u8>)>::empty());
        while i < writes.len()
            invariant
                i <= writes@.len(),
                self.wf(),
                buf.wf(self@),
                all == writes_view(writes@),
                st0 == old(buf).stage(self@),
                forall|k: int|
                    0 <= k < writes@.len() ==> (#[trigger] writes@[k]).1@.len() == self@.bs(),
                stage_writes(self@, st0, all.take(i as int)) == Ok::<Stage, Error>(buf.stage(self@)),
            decreases writes@.len() - i,
        {
            assert(writes@[i as int].1@.len() == self@.bs());
            let n: u64 = writes[i].0;
            let bytes: Vec<u8> = copy_range(&writes[i].1, 0, writes[i].1.len());
            assert(bytes@ =~= writes@[i as int].1@);
            proof {
                assert(all.take(i + 1).drop_last() =~= all.take(i as int));
                assert(all.take(i + 1).last() == (n, writes@[i as int].1@));
            }
            if let Err(e) = self.buffer_put_fresh(buf, n, bytes) {
                proof {
                    if stage_writes(self@, st0, all.take(i + 1)) == Err::<Stage, Error>(e) {
                        lemma_writes_error(self@, st0, all, i + 1, e);
                    }
                }
                return Err(e);
            }
            i += 1;
        }
        assert(all.take(i as int) =~= all);
        Ok(())
    }

    fn buffer_replace_pointed(
        &self,
        buf: &mut BlockBuffer,
        ino: u32,
        inode: &Inode,
        raw: &[u8],
        data: &[u8],
        freed: u64,
        now: u32,
    ) -> (r: Result<u64>)
        requires
            self.wf(),
            old(buf).wf(self@),
            ino > 0,
            inode.decodes(raw@),
            raw@.len() == self.sb.inode_size,
            freed <= 0x8000_0000_0000,
        ensures
            final(buf).wf(self@),
            match r {
                Ok(n) => replace_pointed_data(
                    self@,
                    old(buf).stage(self@),
                    ino,
                    raw@,
                    data@,
                    freed as int,
                    now,
                ) == Ok::<(Stage, u64), Error>((final(buf).stage(self@), n)),
                Err(e) => replace_pointed_data(
                    self@,
                    old(buf).stage(self@),
                    ino,
                    raw@,
                    data@,
                    freed as int,
                    now,
                ) == Err::<(Stage, u64), Error>(e) || (!self.dev.healthy() && e == Error::Io),
            },
    {
        let block_size: u32 = self.sb.block_size();
        let bs: u64 = block_size as u64;
        let n: u64 = blocks_for_bytes(data.len() as u64, bs);
        let per: u64 = bs / 4;
        proof {
            lemma_span(per as int);
            assert(per * per <= 16384 * 16384) by (nonlinear_arith)
                requires
                    0 < per <= 16384,
            ;
            assert(per * (per * per) <= 16384 * (16384 * 16384)) by (nonlinear_arith)
                requires
                    0 < per <= 16384,
                    0 <= per * per <= 16384 * 16384,
            ;
        }
        if n > 12 + per + per * per + per * (per * per) {
            return Err(Error::Corrupt("indirect_mut: file too large for the pointer tree"));
        }
        let meta: u64 = count_indirect_blocks(n, block_size);
        let total: u64 = n + meta;
        if total > i32::MAX as u64 {
            return Err(Error::Corrupt("indirect_mut: total run count overflow"));
        }
        let group: u32 = (ino - 1) / self.sb.inodes_per_group;
        let plan: BlockAllocationPlan = match self.plan_blocks_staged(buf, total as u32, group) {
            Ok(p) => p,
            Err(e) => {
                return Err(e);
            },
        };
        if plan.first_block + total > 0x1_0000_0000 {
            return Err(Error::Corrupt("indirect_mut: block number exceeds 32 bits"));
        }
        let first_data: u64 = plan.first_block + meta;
        let pointers: PointerPlan = plan_contiguous(n, first_data, plan.first_block, block_size);
        if let Err(e) = self.buffer_mark_block_run_used(buf, plan.first_block, total) {
            return Err(e);
        }
        if let Err(e) = self.buffer_patch_bgd_counters(
            buf,
            plan.bgd.group_idx as usize,
            plan.bgd.free_blocks_delta,
            plan.bgd.free_inodes_delta,
            plan.bgd.used_dirs_delta,
        ) {
            return Err(e);
        }
        if let Err(e) = self.buffer_patch_sb_counters(buf, freed as i64 - total as i64, 0) {
            return Err(e);
        }
        if let Err(e) = self.buffer_put_data(buf, first_data, data, n as u32) {
            return Err(e);
        }
        if let Err(e) = self.buffer_put_writes(buf, pointers.writes) {
            return Err(e);
        }
        let mut out: Vec<u8> = copy_range(raw, 0, raw.len());
        assert(out@ =~= raw@);
        let placed = Self::patch_inode_block_area(&mut out, &pointers.area);
        assert(0 <= total * (bs / 512) <= 0x7FFF_FFFF * 128) by (nonlinear_arith)
            requires
                0 <= total <= 0x7FFF_FFFF,
                0 <= bs <= 65536,
        ;
        self.finalize_inode_raw_after_write(
            ino,
            inode.generation,
            &mut out,
            data.len() as u64,
            total * (bs / 512),
            now,
        );
        if let Err(e) = self.buffer_write_inode(buf, ino, &out) {
            return Err(e);
        }
        Ok(data.len() as u64)
    }

    /// Stage the replacement of a pointer-mapped file's contents.
    pub(crate) fn buffer_replace_indirect(
        &self,
        buf: &mut BlockBuffer,
        ino: u32,
        inode: &Inode,
        raw: &[u8],
        data: &[u8],
        now: u32,
    ) -> (r: Result<u64>)
        requires
            self.wf(),
            old(buf).wf(self@),
            old(buf).stage(self@) == fresh_stage(self@),
            ino > 0,
            inode.decodes(raw@),
            raw@.len() == self.sb.inode_size,
        ensures
            final(buf).wf(self@),
            match r {
                Ok(n) => replace_indirect_stage(self@, ino, raw@, data@, now) == Ok::<(Stage, u64), Error>(
                    (final(buf).stage(self@), n),
                ),
                Err(e) => replace_indirect_stage(self@, ino, raw@, data@, now) == Err::<(Stage, u64), Error>(
                    e,
                ) || (!self.dev.healthy() && e == Error::Io),
            },
    {
        let runs: Vec<(u64, u32)> = match self.plan_pointer_runs(inode, Ghost(raw@)) {
            Ok(x) => x,
            Err(e) => {
                return Err(e);
            },
        };
        let freed: u64 = match self.buffer_free_runs(buf, &runs) {
            Ok(n) => n,
            Err(e) => {
                return Err(e);
            },
        };
        if data.len() > 0 {
            return self.buffer_replace_pointed(buf, ino, inode, raw, data, freed, now);
        }
        let mut out: Vec<u8> = copy_range(raw, 0, raw.len());
        assert(out@ =~= raw@);
        let area: Vec<u8> = zeroed(60);
        let placed = Self::patch_inode_block_area(&mut out, &area);
        self.finalize_inode_raw_after_write(ino, inode.generation, &mut out, 0, 0, now);
        if let Err(e) = self.buffer_write_inode(buf, ino, &out) {
            return Err(e);
        }
        if freed > 0 {
            if let Err(e) = self.buffer_patch_sb_counters(buf, freed as i64, 0) {
                return Err(e);
            }
        }
        Ok(0)
    }
}

} // verus!
