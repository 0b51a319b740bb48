//! Positional writes.
use crate::allocator::{blocks_for, blocks_for_bytes, BlockAllocationPlan};
use crate::attr::{inode_at, path_bytes, unless_refused};
use crate::block_io::{block_at, BlockDevice};
use crate::bytes::{copy_range, overlay, splice, zeroed, zeros};
use crate::commit::{came_out, done, only_in, same_mount, stage_blocks};
use crate::error::{Error, Result};
use crate::extent::{block_for, map_logical, Extent};
use crate::extent_mut::{
    deep_insert, deep_view, plan_insert_extent_deep, writes_view, DeepInsert, DeepInsertView,
};
use crate::fs::{checked_inode, Filesystem};
use crate::grow::{as_logical, home_group, stage_fresh, stage_nodes, staged_plan};
use crate::inode::{
    block_area_of, flags_of, generation_of, mode_is_file, mode_of, sectors_of, size_of_file, Inode, FL_EXTENTS,
};
use crate::inode_edit::{after_write, with_block_area};
use crate::stage::{stage_counters, stage_inode, stage_mark_blocks, stage_totals};
use crate::volume::{fresh_stage, BlockBuffer, Stage, StagedView, Vol};
use vstd::prelude::*;
use vstd::string::*;

verus! {

/// A file as a write in progress has it: what is staged, the tree's root, the
/// blocks taken so far, and which blocks of the range are new.
#[verifier::ext_equal]
pub struct Growing {
    pub st: Stage,
    pub root: Seq<u8>,
    pub total: int,
    pub fresh: Seq<bool>,
}

/// Some blocks marked as new.
pub open spec fn marked_fresh(fresh: Seq<bool>, from: int, n: int) -> Seq<bool> {
    Seq::new(fresh.len(), |j: int| fresh[j] || from <= j < from + n)
}

/// The largest plan to be had of `want` blocks, or of half of them, and so on.
pub open spec fn halved_plan(v: Vol, st: Stage, want: u32, hint: u32) -> Result<BlockAllocationPlan>
    decreases want,
{
    match staged_plan(v, st, want, hint) {
        Ok(p) => Ok(p),
        Err(Error::Corrupt(_)) => if want <= 1 {
            Err(Error::NoSpaceLeftOnDevice)
        } else {
            halved_plan(v, st, want / 2, hint)
        },
        Err(e) => Err(e),
    }
}

/// The extent for a run taken for file block `lb`.
pub open spec fn run_extent(lb: int, plan: BlockAllocationPlan) -> Extent {
    Extent {
        logical_block: as_logical(lb),
        length: plan.count as u16,
        physical_block: plan.first_block,
        uninitialized: false,
    }
}

/// A run entered in the tree: its nodes staged, its root replaced.
pub open spec fn with_tree(
    v: Vol,
    ino: u32,
    generation: u32,
    g: Growing,
    root: Seq<u8>,
    writes: Seq<(u64, Seq<u8>)>,
    taken: int,
    from: int,
    n: int,
) -> Result<Growing> {
    match stage_nodes(v, g.st, ino, generation, writes) {
        Err(e) => Err(e),
        Ok(st) => Ok(
            Growing { st, root, total: g.total + taken, fresh: marked_fresh(g.fresh, from, n) },
        ),
    }
}

/// The file with a planned run at file block `lb`; where the tree is full, one
/// more block is taken for a node.
pub open spec fn with_run(
    v: Vol,
    ino: u32,
    generation: u32,
    g: Growing,
    first: int,
    lb: int,
    plan: BlockAllocationPlan,
) -> Result<Growing> {
    let new = run_extent(lb, plan);
    let n = plan.count as int;
    match stage_mark_blocks(v, g.st, plan.first_block, n) {
        Err(e) => Err(e),
        Ok(st1) => match stage_counters(
            v,
            st1,
            plan.bgd.group_idx as int,
            plan.bgd.free_blocks_delta as int,
            plan.bgd.free_inodes_delta as int,
            plan.bgd.used_dirs_delta as int,
        ) {
            Err(e) => Err(e),
            Ok(st2) => match deep_insert(st2.img, v.bs(), g.root, new, v.csum.enabled, None) {
                Err(e) => Err(e),
                Ok(DeepInsertView::Done { root, writes }) => with_tree(
                    v,
                    ino,
                    generation,
                    Growing { st: st2, ..g },
                    root,
                    writes,
                    n,
                    lb - first,
                    n,
                ),
                Ok(DeepInsertView::NeedsBlock) => match staged_plan(v, st2, 1, home_group(v, ino)) {
                    Err(e) => Err(e),
                    Ok(meta) => match stage_mark_blocks(v, st2, meta.first_block, 1) {
                        Err(e) => Err(e),
                        Ok(st3) => match stage_counters(
                            v,
                            st3,
                            meta.bgd.group_idx as int,
                            meta.bgd.free_blocks_delta as int,
                            0,
                            0,
                        ) {
                            Err(e) => Err(e),
                            Ok(st4) => match deep_insert(
                                st4.img,
                                v.bs(),
                                g.root,
                                new,
                                v.csum.enabled,
                                Some(meta.first_block),
                            ) {
                                Err(e) => Err(e),
                                Ok(DeepInsertView::NeedsBlock) => Err(
                                    Error::Corrupt("extent tree asks for a block it was given"),
                                ),
                                Ok(DeepInsertView::Done { root, writes }) => with_tree(
                                    v,
                                    ino,
                                    generation,
                                    Growing { st: st4, ..g },
                                    root,
                                    writes,
                                    n + 1,
                                    lb - first,
                                    n,
                                ),
                            },
                        },
                    },
                },
            },
        },
    }
}

/// The file with `remaining` blocks taken from file block `lb` on, in as many
/// runs as it takes.
pub open spec fn filled_run(
    v: Vol,
    ino: u32,
    generation: u32,
    g: Growing,
    first: int,
    lb: int,
    remaining: nat,
) -> Result<Growing>
    decreases remaining,
{
    if remaining == 0 {
        Ok(g)
    } else {
        match halved_plan(v, g.st, remaining as u32, home_group(v, ino)) {
            Err(e) => Err(e),
            Ok(plan) => if plan.count == 0 || plan.count > remaining {
                Err(Error::NoSpaceLeftOnDevice)
            } else {
                match with_run(v, ino, generation, g, first, lb, plan) {
                    Err(e) => Err(e),
                    Ok(g2) => filled_run(
                        v,
                        ino,
                        generation,
                        g2,
                        first,
                        lb + plan.count,
                        (remaining - plan.count) as nat,
                    ),
                }
            },
        }
    }
}

/// How many blocks from `lb` on, and before `last`, are not mapped.
pub open spec fn unmapped(v: Vol, g: Growing, lb: int, last: int) -> Result<nat>
    decreases last - lb,
{
    if lb >= last {
        Ok(0)
    } else {
        match block_for(g.st.img, v.bs(), g.root, lb) {
            Err(e) => Err(e),
            Ok(Some(_)) => Ok(0),
            Ok(None) => match unmapped(v, g, lb + 1, last) {
                Err(e) => Err(e),
                Ok(n) => Ok(n + 1),
            },
        }
    }
}

/// The file with every block of a range mapped.
pub open spec fn all_mapped(
    v: Vol,
    ino: u32,
    generation: u32,
    g: Growing,
    first: int,
    lb: int,
    last: int,
) -> Result<Growing>
    decreases
            (if last > lb {
                last - lb
            } else {
                0
            }),
{
    if lb >= last {
        Ok(g)
    } else {
        match unmapped(v, g, lb, last) {
            Err(e) => Err(e),
            Ok(n) => if n == 0 {
                all_mapped(v, ino, generation, g, first, lb + 1, last)
            } else {
                match filled_run(v, ino, generation, g, first, lb, n) {
                    Err(e) => Err(e),
                    Ok(g2) => all_mapped(v, ino, generation, g2, first, lb + n, last),
                }
            },
        }
    }
}

/// Where the data for a file block starts, in the file.
pub open spec fn piece_start(bs: int, offset: int, lb: int) -> int {
    if offset > lb * bs {
        offset
    } else {
        lb * bs
    }
}

/// Where the data for a file block ends, in the file.
pub open spec fn piece_end(bs: int, end: int, lb: int) -> int {
    if end < lb * bs + bs {
        end
    } else {
        lb * bs + bs
    }
}

/// A block with its part of the data in place.
pub open spec fn with_piece(bs: int, base: Seq<u8>, offset: int, data: Seq<u8>, lb: int) -> Seq<u8> {
    let from = piece_start(bs, offset, lb);
    let to = piece_end(bs, offset + data.len(), lb);
    splice(base, from - lb * bs, data.subrange(from - offset, to - offset))
}

/// The stage with the data written to the blocks `lb..last`. A block that is
/// new starts from zeros, another from what it holds.
pub open spec fn spliced(
    v: Vol,
    st: Stage,
    root: Seq<u8>,
    fresh: Seq<bool>,
    offset: int,
    data: Seq<u8>,
    lb: int,
    last: int,
) -> Result<Stage>
    decreases last - lb,
{
    if lb >= last {
        Ok(st)
    } else {
        match block_for(st.img, v.bs(), root, lb) {
            Err(e) => Err(e),
            Ok(None) => Err(
                Error::Corrupt(
                    "pwrite Phase 2: logical block unmapped after Phase 1 (allocator/extent insert mismatch)",
                ),
            ),
            Ok(Some(p)) => match (if fresh[lb - offset / v.bs()] {
                Ok(zeros(v.bs() as nat))
            } else {
                block_at(st.img, v.bs(), p as int)
            }) {
                Err(e) => Err(e),
                Ok(base) => match stage_fresh(v, st, p, with_piece(v.bs(), base, offset, data, lb)) {
                    Err(e) => Err(e),
                    Ok(st2) => spliced(v, st2, root, fresh, offset, data, lb + 1, last),
                },
            },
        }
    }
}

/// What writing some data, small enough for one commit, comes to.
#[verifier::opaque]
pub open spec fn pwrite_stage(v: Vol, ino: u32, raw: Seq<u8>, offset: int, data: Seq<u8>, now: u32) -> Result<
    (Stage, u64),
> {
    let end = offset + data.len();
    let first = offset / v.bs();
    let last = blocks_for(end, v.bs());
    let generation = generation_of(raw);
    let start = Growing {
        st: fresh_stage(v),
        root: block_area_of(raw),
        total: 0,
        fresh: Seq::new((last - first) as nat, |j: int| false),
    };
    let size = if size_of_file(raw) > end {
        size_of_file(raw)
    } else {
        end as u64
    };
    match all_mapped(v, ino, generation, start, first, first, last) {
        Err(e) => Err(e),
        Ok(g) => match spliced(v, g.st, g.root, g.fresh, offset, data, first, last) {
            Err(e) => Err(e),
            Ok(st1) => match stage_inode(
                v,
                st1,
                ino,
                after_write(
                    v,
                    ino,
                    generation,
                    with_block_area(raw, g.root),
                    size,
                    (sectors_of(raw) + g.total * (v.bs() / 512)) as u64,
                    now,
                ),
            ) {
                Err(e) => Err(e),
                Ok(st2) => match (if g.total > 0 {
                    stage_totals(v, st2, -g.total, 0)
                } else {
                    Ok(st2)
                }) {
                    Err(e) => Err(e),
                    Ok(st3) => Ok((st3, size)),
                },
            },
        },
    }
}

/// The file that a positional write is for.
pub open spec fn pwrite_target(v: Vol, path: Seq<u8>) -> Result<(u32, Seq<u8>)> {
    match inode_at(v, path) {
        Err(e) => Err(e),
        Ok((ino, raw)) => if !mode_is_file(mode_of(raw)) {
            Err(Error::InvalidArgument("pwrite target is not a regular file"))
        } else if flags_of(raw) & FL_EXTENTS == 0 {
            Err(Error::InvalidArgument("pwrite: legacy (non-extents) inodes not supported in v1"))
        } else {
            Ok((ino, raw))
        },
    }
}

/// The most bytes that one commit writes: a block for each sixteen bytes that
/// a block has behind its first twelve, less eight, and one block at least.
pub open spec fn chunk_limit(bs: int) -> int {
    (if (bs - 12) / 16 - 8 > 1 {
        (bs - 12) / 16 - 8
    } else {
        1
    }) * bs
}

/// One commit of a write.
pub open spec fn pwrite_one(v: Vol, path: Seq<u8>, offset: int, data: Seq<u8>, now: u32) -> (Vol, Result<u64>) {
    match pwrite_target(v, path) {
        Err(e) => (v, Err(e)),
        Ok((ino, raw)) => done(v, pwrite_stage(v, ino, raw, offset, data, now)),
    }
}

/// The rest of a write, from byte `at` of its data on, in as many commits
/// as it takes.
pub open spec fn pwrite_chunks(v: Vol, path: Seq<u8>, offset: int, data: Seq<u8>, at: int, now: u32) -> (
    Vol,
    Result<()>,
)
    decreases data.len() - at,
{
    if at >= data.len() {
        (v, Ok(()))
    } else if chunk_limit(v.bs()) <= 0 {
        (v, Err(Error::InvalidArgument("pwrite: block size too small")))
    } else {
        let to = if at + chunk_limit(v.bs()) < data.len() {
            at + chunk_limit(v.bs())
        } else {
            data.len() as int
        };
        let (v1, r) = pwrite_one(v, path, offset + at, data.subrange(at, to), now);
        match r {
            Err(e) => (v1, Err(e)),
            Ok(_) => pwrite_chunks(v1, path, offset, data, to, now),
        }
    }
}

/// The blocks that one commit of a write is for.
pub open spec fn pwrite_blocks(v: Vol, path: Seq<u8>, offset: int, data: Seq<u8>, now: u32) -> Set<u64> {
    match pwrite_target(v, path) {
        Err(_) => Set::empty(),
        Ok((ino, raw)) => stage_blocks(pwrite_stage(v, ino, raw, offset, data, now)),
    }
}

/// What a device that fails the rest of a write may leave.
pub open spec fn chunks_cut(v: Vol, path: Seq<u8>, offset: int, data: Seq<u8>, at: int, now: u32, post: Vol) -> bool
    decreases data.len() - at,
{
    if at >= data.len() || chunk_limit(v.bs()) <= 0 {
        post == v
    } else {
        let to = if at + chunk_limit(v.bs()) < data.len() {
            at + chunk_limit(v.bs())
        } else {
            data.len() as int
        };
        let part = data.subrange(at, to);
        let (v1, r) = pwrite_one(v, path, offset + at, part, now);
        ||| only_in(v, post, pwrite_blocks(v, path, offset + at, part, now))
        ||| r is Ok && chunks_cut(v1, path, offset, data, to, now, post)
    }
}

/// What a device that fails a positional write may leave: the commits before
/// the one that it failed, and some blocks of that one.
pub open spec fn pwritten_cut(v: Vol, path: Seq<u8>, offset: u64, data: Seq<u8>, now: u32, post: Vol) -> bool {
    if data.len() <= chunk_limit(v.bs()) {
        only_in(v, post, pwrite_blocks(v, path, offset as int, data, now))
    } else {
        ||| post == v
        ||| chunks_cut(v, path, offset as int, data, 0, now, post)
        ||| post == pwrite_chunks(v, path, offset as int, data, 0, now).0
    }
}

/// What a positional write comes to: the volume it leaves, and the file's size.
pub open spec fn pwritten(v: Vol, path: Seq<u8>, offset: u64, data: Seq<u8>, now: u32) -> (Vol, Result<u64>) {
    match pwrite_target(v, path) {
        Err(e) => (v, Err(e)),
        Ok((ino, raw)) => if data.len() == 0 {
            (v, Ok(size_of_file(raw)))
        } else if offset + data.len() > u64::MAX {
            (v, Err(Error::InvalidArgument("pwrite: offset+len overflow")))
        } else if data.len() <= chunk_limit(v.bs()) {
            done(v, pwrite_stage(v, ino, raw, offset as int, data, now))
        } else {
            let (v1, r) = pwrite_chunks(v, path, offset as int, data, 0, now);
            match r {
                Err(e) => (v1, Err(e)),
                Ok(_) => match checked_inode(v1, ino) {
                    Err(e) => (v1, Err(e)),
                    Ok(after) => (v1, Ok(size_of_file(after))),
                },
            }
        },
    }
}

/// A step came out as wanted, or the device failed.
pub open spec fn came_to<T>(want: Result<T>, r: Result<()>, got: T, healthy: bool) -> bool {
    match r {
        Ok(_) => want == Ok::<T, Error>(got),
        Err(e) => want == Err::<T, Error>(e) || (!healthy && e == Error::Io),
    }
}

/// The part of a write in progress that is not staged.
struct Grown {
    root: Vec<u8>,
    total: u64,
    fresh: Vec<bool>,
}

impl Grown {
    spec fn growing(&self, st: Stage) -> Growing {
        Growing { st, root: self.root@, total: self.total as int, fresh: self.fresh@ }
    }
}

impl<D: BlockDevice> Filesystem<D> {
    /// Plan up to `want` blocks, halving the request while no group has so
    /// long a run free.
    fn plan_halving(&self, buf: &BlockBuffer, want: u32, hint: u32) -> (r: Result<BlockAllocationPlan>)
        requires
            self.wf(),
            buf.wf(self@),
            1 <= want <= i32::MAX,
        ensures
            match r {
                Ok(p) => halved_plan(self@, buf.stage(self@), want, hint) == Ok::<BlockAllocationPlan, Error>(
                    p,
                ) && 1 <= p.count <= want && p.first_block + p.count <= self.sb.blocks_count,
                Err(e) => halved_plan(self@, buf.stage(self@), want, hint) == Err::<
                    BlockAllocationPlan,
                    Error,
                >(e) || (!self.dev.healthy() && e == Error::Io),
            },
        decreases want,
    {
        match self.plan_blocks_staged(buf, want, hint) {
            Ok(p) => Ok(p),
            Err(Error::Corrupt(_)) => if want == 1 {
                Err(Error::NoSpaceLeftOnDevice)
            } else {
                self.plan_halving(buf, want / 2, hint)
            },
            Err(e) => Err(e),
        }
    }

    fn staged_mapping(&self, buf: &BlockBuffer, root: &[u8], lb: u64) -> (r: Result<Option<u64>>)
        requires
            self.wf(),
            buf.wf(self@),
        ensures
            match r {
                Ok(p) => block_for(buf.stage(self@).img, self@.bs(), root@, lb as int) == Ok::<
                    Option<u64>,
                    Error,
                >(p),
                Err(e) => block_for(buf.stage(self@).img, self@.bs(), root@, lb as int) == Err::<
                    Option<u64>,
                    Error,
                >(e) || (!self.dev.healthy() && e == Error::Io),
            },
    {
        let view = StagedView { dev: &self.dev, buf, vol: Ghost(self@) };
        map_logical(root, &view, self.sb.block_size(), lb)
    }

    fn insert_staged(&self, buf: &BlockBuffer, root: &[u8], new: Extent, spare: Option<u64>) -> (r: Result<DeepInsert>)
        requires
            self.wf(),
            buf.wf(self@),
            root@.len() == 60,
            crate::extent_mut::storable(new),
        ensures
            match r {
                Ok(d) => deep_insert(
                    buf.stage(self@).img,
                    self@.bs(),
                    root@,
                    new,
                    self@.csum.enabled,
                    spare,
                ) == Ok::<DeepInsertView, Error>(deep_view(d)) && crate::extent_mut::sizes_ok(
                    d,
                    60,
                    self@.bs(),
                ),
                Err(e) => deep_insert(
                    buf.stage(self@).img,
                    self@.bs(),
                    root@,
                    new,
                    self@.csum.enabled,
                    spare,
                ) == Err::<DeepInsertView, Error>(e) || (!self.dev.healthy() && e == Error::Io),
            },
    {
        let view = StagedView { dev: &self.dev, buf, vol: Ghost(self@) };
        plan_insert_extent_deep(root, new, self.sb.block_size(), &view, self.csum.enabled, spare)
    }

    /// Enter a planned run in the tree, with whatever staging that takes.
    fn buffer_with_run(
        &self,
        buf: &mut BlockBuffer,
        ino: u32,
        generation: u32,
        g: &mut Grown,
        first: u64,
        lb: u64,
        plan: &BlockAllocationPlan,
    ) -> (r: Result<()>)
        requires
            self.wf(),
            old(buf).wf(self@),
            ino > 0,
            old(g).root@.len() == 60,
            old(g).total <= 0x1_0000_0000,
            1 <= plan.count <= 32767,
            plan.first_block + plan.count <= self.sb.blocks_count,
            first <= lb,
            lb + plan.count <= u64::MAX,
            lb - first + plan.count <= old(g).fresh@.len(),
        ensures
            final(buf).wf(self@),
            r is Ok ==> final(g).root@.len() == 60 && final(g).total <= old(g).total + plan.count + 1
                && final(g).fresh@.len() == old(g).fresh@.len(),
            came_to(
                with_run(
                    self@,
                    ino,
                    generation,
                    old(g).growing(old(buf).stage(self@)),
                    first as int,
                    lb as int,
                    *plan,
                ),
                r,
                final(g).growing(final(buf).stage(self@)),
                self.dev.healthy(),
            ),
    {
        if let Err(e) = self.buffer_mark_block_run_used(buf, plan.first_block, plan.count as u64) {
            return Err(e);
        }
        if let Err(e) = self.buffer_patch_bgd_counters(
            buf,
            plan.bgd.group_idx as usize,
            plan.bgd.free_blocks_delta,
            plan.bgd.free_inodes_delta,
            plan.bgd.used_dirs_delta,
        ) {
            return Err(e);
        }
        let new = Extent {
            logical_block: (lb % 0x1_0000_0000) as u32,
            length: plan.count as u16,
            physical_block: plan.first_block,
            uninitialized: false,
        };
        assert(new == run_extent(lb as int, *plan));
        assert(g.fresh.len() == g.fresh@.len());
        let from: usize = (lb - first) as usize;
        match self.insert_staged(buf, &g.root, new, None) {
            Err(e) => Err(e),
            Ok(DeepInsert::Done { root, writes }) => self.buffer_with_tree(
                buf,
                ino,
                generation,
                g,
                root,
                writes,
                plan.count as u64,
                from,
                plan.count as usize,
            ),
            Ok(DeepInsert::NeedsBlock) => {
                let meta: BlockAllocationPlan = match self.plan_blocks_staged(
                    buf,
                    1,
                    (ino - 1) / self.sb.inodes_per_group,
                ) {
                    Ok(p) => p,
                    Err(e) => {
                        return Err(e);
                    },
                };
                if let Err(e) = self.buffer_mark_block_run_used(buf, meta.first_block, 1) {
                    return Err(e);
                }
                if let Err(e) = self.buffer_patch_bgd_counters(
                    buf,
                    meta.bgd.group_idx as usize,
                    meta.bgd.free_blocks_delta,
                    0,
                    0,
                ) {
                    return Err(e);
                }
                match self.insert_staged(buf, &g.root, new, Some(meta.first_block)) {
                    Err(e) => Err(e),
                    Ok(DeepInsert::NeedsBlock) => Err(
                        Error::Corrupt("extent tree asks for a block it was given"),
                    ),
                    Ok(DeepInsert::Done { root, writes }) => self.buffer_with_tree(
                        buf,
                        ino,
                        generation,
                        g,
                        root,
                        writes,
                        plan.count as u64 + 1,
                        from,
                        plan.count as usize,
                    ),
                }
            },
        }
    }

    fn buffer_with_tree(
        &self,
        buf: &mut BlockBuffer,
        ino: u32,
        generation: u32,
        g: &mut Grown,
        root: Vec<u8>,
        writes: Vec<(u64, Vec<u8>)>,
        taken: u64,
        from: usize,
        n: usize,
    ) -> (r: Result<()>)
        requires
            self.wf(),
            old(buf).wf(self@),
            root@.len() == 60,
            forall|i: int| 0 <= i < writes@.len() ==> (#[trigger] writes@[i]).1@.len() == self@.bs(),
            old(g).total + taken <= u64::MAX,
            from + n <= old(g).fresh@.len(),
        ensures
            final(buf).wf(self@),
            r is Ok ==> final(g).root@.len() == 60 && final(g).total == old(g).total + taken && final(g).fresh@.len() == old(g).fresh@.len(),
            came_to(
                with_tree(
                    self@,
                    ino,
                    generation,
                    old(g).growing(old(buf).stage(self@)),
                    root@,
                    writes_view(writes@),
                    taken as int,
                    from as int,
                    n as int,
                ),
                r,
                final(g).growing(final(buf).stage(self@)),
                self.dev.healthy(),
            ),
    {
        if let Err(e) = self.buffer_put_nodes(buf, ino, generation, writes) {
            return Err(e);
        }
        g.root = root;
        g.total = g.total + taken;
        mark_fresh(&mut g.fresh, from, n);
        Ok(())
    }
}

fn mark_fresh(fresh: &mut Vec<bool>, from: usize, n: usize)
    requires
        from + n <= old(fresh)@.len(),
    ensures
        final(fresh)@ == marked_fresh(old(fresh)@, from as int, n as int),
        final(fresh)@.len() == old(fresh)@.len(),
{
    let ghost f0 = fresh@;
    let mut i: usize = 0;
    assert(fresh@ =~= marked_fresh(f0, from as int, 0));
    assert(fresh.len() == fresh@.len());
    while i < n
        invariant
            i <= n,
            f0.len() <= usize::MAX,
            from + n <= f0.len(),
            fresh@.len() == f0.len(),
            fresh@ == marked_fresh(f0, from as int, i as int),
        decreases n - i,
    {
        fresh.set(from + i, true);
        i += 1;
        assert(fresh@ =~= marked_fresh(f0, from as int, i as int));
    }
}

impl<D: BlockDevice> Filesystem<D> {
    /// Take `remaining` blocks from file block `lb` on.
    fn buffer_fill_run(
        &self,
        buf: &mut BlockBuffer,
        ino: u32,
        generation: u32,
        g: &mut Grown,
        first: u64,
        lb: u64,
        remaining: u32,
    ) -> (r: Result<()>)
        requires
            self.wf(),
            old(buf).wf(self@),
            ino > 0,
            old(g).root@.len() == 60,
            remaining <= 32767,
            old(g).total + 2 * remaining <= 0x1_0000_0000,
            first <= lb,
            lb + remaining <= u64::MAX,
            lb - first + remaining <= old(g).fresh@.len(),
        ensures
            final(buf).wf(self@),
            r is Ok ==> final(g).root@.len() == 60 && final(g).total <= old(g).total + 2 * remaining
                && final(g).fresh@.len() == old(g).fresh@.len(),
            came_to(
                filled_run(
                    self@,
                    ino,
                    generation,
                    old(g).growing(old(buf).stage(self@)),
                    first as int,
                    lb as int,
                    remaining as nat,
                ),
                r,
                final(g).growing(final(buf).stage(self@)),
                self.dev.healthy(),
            ),
    {
        let ghost want = filled_run(
            self@,
            ino,
            generation,
            g.growing(buf.stage(self@)),
            first as int,
            lb as int,
            remaining as nat,
        );
        let ghost n0 = g.fresh@.len();
        let ghost t0 = g.total;
        let mut at: u64 = lb;
        let mut left: u32 = remaining;
        while left > 0
            invariant
                self.wf(),
                buf.wf(self@),
                ino > 0,
                g.root@.len() == 60,
                g.fresh@.len() == n0,
                n0 == old(g).fresh@.len(),
                t0 == old(g).total,
                left <= remaining <= 32767,
                first <= at,
                at + left == lb + remaining <= u64::MAX,
                lb - first + remaining <= n0,
                t0 + 2 * remaining <= 0x1_0000_0000,
                g.total <= t0 + 2 * (remaining - left),
                want == filled_run(
                    self@,
                    ino,
                    generation,
                    old(g).growing(old(buf).stage(self@)),
                    first as int,
                    lb as int,
                    remaining as nat,
                ),
                want == filled_run(
                    self@,
                    ino,
                    generation,
                    g.growing(buf.stage(self@)),
                    first as int,
                    at as int,
                    left as nat,
                ),
            decreases left,
        {
            let plan: BlockAllocationPlan = match self.plan_halving(
                buf,
                left,
                (ino - 1) / self.sb.inodes_per_group,
            ) {
                Ok(p) => p,
                Err(e) => {
                    return Err(e);
                },
            };
            if let Err(e) = self.buffer_with_run(buf, ino, generation, g, first, at, &plan) {
                return Err(e);
            }
            at = at + plan.count as u64;
            left = left - plan.count;
        }
        Ok(())
    }

    /// How many blocks from `lb` on, and before `last`, are not mapped.
    fn count_unmapped(&self, buf: &BlockBuffer, g: &Grown, lb: u64, last: u64) -> (r: Result<u64>)
        requires
            self.wf(),
            buf.wf(self@),
        ensures
            match r {
                Ok(n) => unmapped(self@, g.growing(buf.stage(self@)), lb as int, last as int) == Ok::<
                    nat,
                    Error,
                >(n as nat) && (lb <= last ==> lb + n <= last),
                Err(e) => unmapped(self@, g.growing(buf.stage(self@)), lb as int, last as int) == Err::<
                    nat,
                    Error,
                >(e) || (!self.dev.healthy() && e == Error::Io),
            },
        decreases last - lb,
    {
        if lb >= last {
            return Ok(0);
        }
        match self.staged_mapping(buf, &g.root, lb) {
            Err(e) => Err(e),
            Ok(Some(_)) => Ok(0),
            Ok(None) => match self.count_unmapped(buf, g, lb + 1, last) {
                Err(e) => Err(e),
                Ok(n) => Ok(n + 1),
            },
        }
    }

    /// Map every block of a range.
    fn buffer_map_all(
        &self,
        buf: &mut BlockBuffer,
        ino: u32,
        generation: u32,
        g: &mut Grown,
        first: u64,
        last: u64,
    ) -> (r: Result<()>)
        requires
            self.wf(),
            old(buf).wf(self@),
            ino > 0,
            old(g).root@.len() == 60,
            old(g).total == 0,
            first <= last,
            last - first <= 32767,
            last - first <= old(g).fresh@.len(),
        ensures
            final(buf).wf(self@),
            r is Ok ==> final(g).root@.len() == 60 && final(g).total <= 0x1_0000 && final(g).fresh@.len()
                == old(g).fresh@.len(),
            came_to(
                all_mapped(
                    self@,
                    ino,
                    generation,
                    old(g).growing(old(buf).stage(self@)),
                    first as int,
                    first as int,
                    last as int,
                ),
                r,
                final(g).growing(final(buf).stage(self@)),
                self.dev.healthy(),
            ),
    {
        let ghost want = all_mapped(
            self@,
            ino,
            generation,
            g.growing(buf.stage(self@)),
            first as int,
            first as int,
            last as int,
        );
        let ghost n0 = g.fresh@.len();
        let mut lb: u64 = first;
        while lb < last
            invariant
                self.wf(),
                buf.wf(self@),
                ino > 0,
                g.root@.len() == 60,
                g.fresh@.len() == n0,
                n0 == old(g).fresh@.len(),
                first <= lb <= last,
                last - first <= 32767,
                last - first <= n0,
                g.total <= 2 * (lb - first),
                want == all_mapped(
                    self@,
                    ino,
                    generation,
                    old(g).growing(old(buf).stage(self@)),
                    first as int,
                    first as int,
                    last as int,
                ),
                want == all_mapped(
                    self@,
                    ino,
                    generation,
                    g.growing(buf.stage(self@)),
                    first as int,
                    lb as int,
                    last as int,
                ),
            decreases last - lb,
        {
            let n: u64 = match self.count_unmapped(buf, g, lb, last) {
                Ok(n) => n,
                Err(e) => {
                    return Err(e);
                },
            };
            if n == 0 {
                lb = lb + 1;
            } else {
                if let Err(e) = self.buffer_fill_run(buf, ino, generation, g, first, lb, n as u32) {
                    return Err(e);
                }
                lb = lb + n;
            }
        }
        Ok(())
    }

    /// Write some data to the blocks of a range, each by then mapped.
    fn buffer_splice(
        &self,
        buf: &mut BlockBuffer,
        root: &[u8],
        fresh: &[bool],
        offset: u64,
        data: &[u8],
        last: u64,
    ) -> (r: Result<()>)
        requires
            self.wf(),
            old(buf).wf(self@),
            data@.len() > 0,
            offset + data@.len() <= u64::MAX,
            last == blocks_for(offset + data@.len(), self@.bs()),
            fresh@.len() == last - offset as int / self@.bs(),
        ensures
            final(buf).wf(self@),
            came_to(
                spliced(
                    self@,
                    old(buf).stage(self@),
                    root@,
                    fresh@,
                    offset as int,
                    data@,
                    offset as int / self@.bs(),
                    last as int,
                ),
                r,
                final(buf).stage(self@),
                self.dev.healthy(),
            ),
    {
        let bs: u64 = self.sb.block_size() as u64;
        let first: u64 = offset / bs;
        let end: u64 = offset + data.len() as u64;
        let ghost want = spliced(
            self@,
            buf.stage(self@),
            root@,
            fresh@,
            offset as int,
            data@,
            first as int,
            last as int,
        );
        let mut lb: u64 = first;
        assert(fresh.len() == fresh@.len());
        proof {
            crate::contents::lemma_range_blocks(offset as int, end as int, bs as int);
        }
        while lb < last
            invariant
                self.wf(),
                buf.wf(self@),
                bs == self@.bs(),
                first == offset / bs,
                end == offset + data@.len(),
                data@.len() > 0,
                last == blocks_for(end as int, bs as int),
                first <= lb <= last,
                fresh@.len() == last - first,
                fresh@.len() <= usize::MAX,
                want == spliced(
                    self@,
                    old(buf).stage(self@),
                    root@,
                    fresh@,
                    offset as int,
                    data@,
                    first as int,
                    last as int,
                ),
                want == spliced(
                    self@,
                    buf.stage(self@),
                    root@,
                    fresh@,
                    offset as int,
                    data@,
                    lb as int,
                    last as int,
                ),
            decreases last - lb,
        {
            let phys: u64 = match self.staged_mapping(buf, root, lb) {
                Err(e) => {
                    return Err(e);
                },
                Ok(None) => {
                    return Err(
                        Error::Corrupt(
                            "pwrite Phase 2: logical block unmapped after Phase 1 (allocator/extent insert mismatch)",
                        ),
                    );
                },
                Ok(Some(p)) => p,
            };
            let mut block: Vec<u8> = if fresh[(lb - first) as usize] {
                zeroed(bs as usize)
            } else {
                match self.staged_block(buf, phys) {
                    Ok(b) => b,
                    Err(e) => {
                        return Err(e);
                    },
                }
            };
            proof {
                lemma_piece(bs as int, offset as int, end as int, lb as int);
            }
            let start: u64 = lb * bs;
            let from: u64 = if offset > start {
                offset
            } else {
                start
            };
            let to: u64 = if end - start < bs {
                end
            } else {
                start + bs
            };
            assert(data.len() == data@.len());
            let piece: Vec<u8> = copy_range(data, (from - offset) as usize, (to - offset) as usize);
            overlay(&mut block, (from - start) as usize, &piece);
            if let Err(e) = self.buffer_put_fresh(buf, phys, block) {
                return Err(e);
            }
            lb = lb + 1;
        }
        Ok(())
    }
}

/// A block of a range has a part of the range in it.
pub proof fn lemma_piece(bs: int, offset: int, end: int, lb: int)
    requires
        bs > 0,
        0 <= offset < end,
        offset / bs <= lb < blocks_for(end, bs),
    ensures
        0 <= lb * bs < end,
        lb * bs + bs > offset,
        piece_start(bs, offset, lb) < piece_end(bs, end, lb),
        offset <= piece_start(bs, offset, lb),
        piece_end(bs, end, lb) <= end,
        lb * bs <= piece_start(bs, offset, lb),
        piece_end(bs, end, lb) <= lb * bs + bs,
{
    crate::contents::lemma_block_start(end, bs, lb);
    vstd::arithmetic::div_mod::lemma_fundamental_div_mod(offset, bs);
    let q = offset / bs;
    assert(lb * bs >= bs * q) by (nonlinear_arith)
        requires
            lb >= q,
            bs > 0,
    ;
}

impl<D: BlockDevice> Filesystem<D> {
    #[verifier::rlimit(60)]
    fn buffer_pwrite(
        &self,
        buf: &mut BlockBuffer,
        ino: u32,
        inode: &Inode,
        raw: &[u8],
        offset: u64,
        data: &[u8],
        now: u32,
    ) -> (r: Result<u64>)
        requires
            self.wf(),
            old(buf).wf(self@),
            old(buf).stage(self@) == fresh_stage(self@),
            ino > 0,
            inode.decodes(raw@),
            raw@.len() == self.sb.inode_size,
            0 < data@.len() <= chunk_limit(self@.bs()),
            offset + data@.len() <= u64::MAX,
        ensures
            final(buf).wf(self@),
            match r {
                Ok(n) => pwrite_stage(self@, ino, raw@, offset as int, data@, now) == Ok::<(Stage, u64), Error>(
                    (final(buf).stage(self@), n),
                ),
                Err(e) => pwrite_stage(self@, ino, raw@, offset as int, data@, now) == Err::<
                    (Stage, u64),
                    Error,
                >(e) || (!self.dev.healthy() && e == Error::Io),
            },
    {
        let bs: u64 = self.sb.block_size() as u64;
        let end: u64 = offset + data.len() as u64;
        let first: u64 = offset / bs;
        let last: u64 = blocks_for_bytes(end, bs);
        proof {
            reveal(pwrite_stage);
            crate::contents::lemma_range_blocks(offset as int, end as int, bs as int);
            lemma_chunk_blocks(bs as int, offset as int, data@.len() as int);
        }
        let mut fresh: Vec<bool> = Vec::new();
        let mut i: u64 = first;
        while i < last
            invariant
                first <= i <= last,
                fresh@ == Seq::new((i - first) as nat, |j: int| false),
            decreases last - i,
        {
            fresh.push(false);
            i += 1;
            assert(fresh@ =~= Seq::new((i - first) as nat, |j: int| false));
        }
        let root: Vec<u8> = copy_range(&inode.block, 0, 60);
        assert(root@ =~= inode.block@);
        let mut g = Grown { root, total: 0, fresh };
        if let Err(e) = self.buffer_map_all(buf, ino, inode.generation, &mut g, first, last) {
            return Err(e);
        }
        if let Err(e) = self.buffer_splice(buf, &g.root, &g.fresh, offset, data, last) {
            return Err(e);
        }
        let mut out: Vec<u8> = copy_range(raw, 0, raw.len());
        assert(out@ =~= raw@);
        let placed = Self::patch_inode_block_area(&mut out, &g.root);
        let size: u64 = if inode.size > end {
            inode.size
        } else {
            end
        };
        let total: u64 = g.total;
        assert(total * (bs / 512) <= 0x1_0000 * 128) by (nonlinear_arith)
            requires
                total <= 0x1_0000,
                bs <= 65536,
        ;
        self.finalize_inode_raw_after_write(
            ino,
            inode.generation,
            &mut out,
            size,
            inode.blocks + total * (bs / 512),
            now,
        );
        if let Err(e) = self.buffer_write_inode(buf, ino, &out) {
            return Err(e);
        }
        if g.total > 0 {
            if let Err(e) = self.buffer_patch_sb_counters(buf, -(g.total as i64), 0) {
                return Err(e);
            }
        }
        Ok(size)
    }

    fn pwrite_inode(&self, path: &str) -> (r: Result<(u32, Inode, Vec<u8>)>)
        requires
            self.wf(),
        ensures
            match r {
                Ok((ino, inode, raw)) => pwrite_target(self@, path_bytes(path)) == Ok::<(u32, Seq<u8>), Error>(
                    (ino, raw@),
                ) && ino > 0 && inode.decodes(raw@) && raw@.len() == self.sb.inode_size,
                Err(e) => pwrite_target(self@, path_bytes(path)) == Err::<(u32, Seq<u8>), Error>(e) || (
                !self.dev.healthy() && e == Error::Io),
            },
    {
        let (ino, inode, raw): (u32, Inode, Vec<u8>) = match self.inode_at_path(path.as_bytes()) {
            Ok(p) => p,
            Err(e) => {
                return Err(e);
            },
        };
        if !inode.is_file() {
            return Err(Error::InvalidArgument("pwrite target is not a regular file"));
        }
        if !inode.has_extents() {
            return Err(
                Error::InvalidArgument("pwrite: legacy (non-extents) inodes not supported in v1"),
            );
        }
        Ok((ino, inode, raw))
    }

    /// One commit of a write.
    fn pwrite_once(&mut self, path: &str, offset: u64, data: &[u8], now: u32) -> (r: Result<u64>)
        requires
            old(self).wf(),
            old(self).takes_writes(),
            0 < data@.len() <= chunk_limit(old(self)@.bs()),
            offset + data@.len() <= u64::MAX,
        ensures
            final(self).wf(),
            same_mount(*final(self), *old(self)),
            came_out(
                pwrite_one(old(self)@, path_bytes(path), offset as int, data@, now),
                r,
                final(self)@,
                old(self).dev.healthy(),
            ),
            r matches Err(Error::Io) ==> only_in(
                old(self)@,
                final(self)@,
                pwrite_blocks(old(self)@, path_bytes(path), offset as int, data@, now),
            ),
    {
        let (ino, inode, raw): (u32, Inode, Vec<u8>) = match self.pwrite_inode(path) {
            Ok(p) => p,
            Err(e) => {
                return Err(e);
            },
        };
        let mut buf: BlockBuffer = BlockBuffer::new(self.sb.block_size());
        assert(buf.wf(self@));
        match self.buffer_pwrite(&mut buf, ino, &inode, &raw, offset, data, now) {
            Err(e) => Err(e),
            Ok(n) => match self.commit_block_buffer(buf) {
                Ok(_) => Ok(n),
                Err(e) => Err(e),
            },
        }
    }

    fn pwrite_pieces(&mut self, path: &str, offset: u64, data: &[u8], limit: usize, now: u32) -> (r: Result<()>)
        requires
            old(self).wf(),
            old(self).takes_writes(),
            limit > 0,
            limit == chunk_limit(old(self)@.bs()),
            offset + data@.len() <= u64::MAX,
        ensures
            final(self).wf(),
            same_mount(*final(self), *old(self)),
            came_out(
                pwrite_chunks(old(self)@, path_bytes(path), offset as int, data@, 0, now),
                r,
                final(self)@,
                old(self).dev.healthy(),
            ),
            r matches Err(Error::Io) ==> chunks_cut(
                old(self)@,
                path_bytes(path),
                offset as int,
                data@,
                0,
                now,
                final(self)@,
            ),
    {
        let len: usize = data.len();
        let mut at: usize = 0;
        let ghost want = pwrite_chunks(self@, path_bytes(path), offset as int, data@, 0, now);
        while at < len
            invariant
                len == data@.len(),
                at <= len,
                offset + len <= u64::MAX,
                limit > 0,
                limit == chunk_limit(self@.bs()),
                self.wf(),
                self.takes_writes(),
                same_mount(*self, *old(self)),
                want == pwrite_chunks(old(self)@, path_bytes(path), offset as int, data@, 0, now),
                want == pwrite_chunks(self@, path_bytes(path), offset as int, data@, at as int, now),
                forall|post: Vol| #[trigger]
                    chunks_cut(self@, path_bytes(path), offset as int, data@, at as int, now, post) ==> chunks_cut(
                        old(self)@,
                        path_bytes(path),
                        offset as int,
                        data@,
                        0,
                        now,
                        post,
                    ),
            decreases len - at,
        {
            let to: usize = if len - at > limit {
                at + limit
            } else {
                len
            };
            let piece: Vec<u8> = copy_range(data, at, to);
            let ghost before = self@;
            if let Err(e) = self.pwrite_once(path, offset + at as u64, &piece, now) {
                assert(e == Error::Io ==> chunks_cut(
                    before,
                    path_bytes(path),
                    offset as int,
                    data@,
                    at as int,
                    now,
                    self@,
                ));
                return Err(e);
            }
            proof {
                let path = path_bytes(path);
                assert forall|post: Vol| #[trigger]
                    chunks_cut(self@, path, offset as int, data@, to as int, now, post) implies chunks_cut(
                    old(self)@,
                    path,
                    offset as int,
                    data@,
                    0,
                    now,
                    post,
                ) by {
                    assert(chunks_cut(before, path, offset as int, data@, at as int, now, post));
                }
            }
            at = to;
        }
        Ok(())
    }

    /// Positional write: splice `data` into the file at byte `offset`, taking
    /// new blocks for what is not yet mapped. Mapped blocks keep the bytes
    /// around the data; new ones are zero there. Returns the new file size.
    ///
    /// Much data is written in several commits; a loss of power can leave part
    /// of it.
    pub fn apply_pwrite(&mut self, path: &str, offset: u64, data: &[u8], now: u32) -> (r: Result<u64>)
        requires
            old(self).wf(),
        ensures
            final(self).wf(),
            same_mount(*final(self), *old(self)),
            came_out(
                unless_refused(
                    old(self).takes_writes(),
                    old(self)@,
                    pwritten(old(self)@, path_bytes(path), offset, data@, now),
                ),
                r,
                final(self)@,
                old(self).dev.healthy(),
            ),
            r matches Err(Error::Io) ==> pwritten_cut(
                old(self)@,
                path_bytes(path),
                offset,
                data@,
                now,
                final(self)@,
            ),
    {
        if let Err(e) = self.refuse_write() {
            return Err(e);
        }
        let (ino, inode, _raw): (u32, Inode, Vec<u8>) = match self.pwrite_inode(path) {
            Ok(p) => p,
            Err(e) => {
                return Err(e);
            },
        };
        if data.len() == 0 {
            return Ok(inode.size);
        }
        let len: usize = data.len();
        if len as u64 > u64::MAX - offset {
            return Err(Error::InvalidArgument("pwrite: offset+len overflow"));
        }
        let bs: usize = self.sb.block_size() as usize;
        let tags: usize = (bs - 12) / 16;
        let blocks: usize = if tags > 9 {
            tags - 8
        } else {
            1
        };
        assert(0 < blocks * bs <= 5000 * 65536) by (nonlinear_arith)
            requires
                0 < blocks <= 5000,
                0 < bs <= 65536,
        ;
        let limit: usize = blocks * bs;
        assert(limit == chunk_limit(bs as int));
        if len <= limit {
            return self.pwrite_once(path, offset, data, now);
        }
        if let Err(e) = self.pwrite_pieces(path, offset, data, limit, now) {
            return Err(e);
        }
        match self.read_inode_verified(ino) {
            Ok((after, _)) => Ok(after.size),
            Err(e) => Err(e),
        }
    }
}

/// A chunk's blocks are few.
proof fn lemma_chunk_blocks(bs: int, offset: int, len: int)
    requires
        1024 <= bs <= 65536,
        0 <= offset,
        0 < len <= chunk_limit(bs),
    ensures
        blocks_for(offset + len, bs) - offset / bs <= 5001,
{
    let c = if (bs - 12) / 16 - 8 > 1 {
        (bs - 12) / 16 - 8
    } else {
        1
    };
    let first = offset / bs;
    let last = blocks_for(offset + len, bs);
    vstd::arithmetic::div_mod::lemma_fundamental_div_mod(offset, bs);
    vstd::arithmetic::div_mod::lemma_fundamental_div_mod(offset + len + bs - 1, bs);
    assert(last - first <= c + 1) by (nonlinear_arith)
        requires
            bs > 0,
            offset == bs * first + offset % bs,
            offset % bs < bs,
            len <= c * bs,
            offset + len + bs - 1 == bs * last + (offset + len + bs - 1) % bs,
            0 <= (offset + len + bs - 1) % bs,
    ;
}

} // verus!
