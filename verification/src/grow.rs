//! Allocating blocks and inodes on a mounted volume, and growing directories.
use crate::allocator::{
    blocks_for_bytes, blocks_planned, inode_planned, law_planned_run_within, plan_block_allocation_excluding,
    plan_inode_allocation, reads_as, BitmapModel, BlockAllocationPlan, InodeAllocationPlan,
};
use crate::block_io::{block_at, has_block, BlockDevice};
use crate::bytes::{
    copy_range, get_u16, get_u32, le16, le32, put16, put32, set_u16, set_u32, zeroed, zeros,
};
use crate::checksum::{dir_stamped, extent_stamped};
use crate::commit::{came_out, done, only_in, published, same_mount, stage_blocks, unit_stage};
use crate::dir::{add_entry_to_block, add_from, type_byte, DirEntryType};
use crate::dirops::{dir_blocks, NAME_MAX};
use crate::error::{Error, Result};
use crate::extent::Extent;
use crate::extent_mut::{deep_insert, plan_insert_extent_deep, writes_view, DeepInsert, DeepInsertView};
use crate::fs::{checked_inode, file_block, keeps_types, Filesystem};
use crate::inode::{
    block_area_of, flags_of, generation_of, mode_is_dir, mode_of, sectors_of, size_of_file, Inode, FL_INDEX, OFF_FLAGS,
};
use crate::inode_edit::{with_block_area, with_size_and_blocks};
use crate::stage::{
    stage_counters, stage_inode, stage_mark_blocks, stage_mark_inode, stage_totals, staged,
};
use crate::volume::{fresh_stage, stage_block, BlockBuffer, Stage, Vol};
use vstd::prelude::*;

verus! {

broadcast use crate::bytes::group_fields;

// -- planning ---------------------------------------------------------------

/// The bitmaps as they are on the volume.
pub open spec fn bitmaps_of(v: Vol) -> BitmapModel {
    |b: u64| v.block(b as int)
}

/// The bitmaps as they are staged.
pub open spec fn staged_bitmaps(v: Vol, st: Stage) -> BitmapModel {
    |b: u64| block_at(st.img, v.bs(), b as int)
}

/// The plan for `count` blocks on the volume as it stands.
pub open spec fn volume_plan(v: Vol, count: u32, hint: u32, reserved: Seq<u64>) -> Result<BlockAllocationPlan> {
    blocks_planned(v.sb, v.groups, count, hint, reserved, bitmaps_of(v))
}

/// The plan for `count` blocks on the volume as staged.
pub open spec fn staged_plan(v: Vol, st: Stage, count: u32, hint: u32) -> Result<BlockAllocationPlan> {
    blocks_planned(
        v.sb,
        published(v.groups, st.cleared),
        count,
        hint,
        Seq::empty(),
        staged_bitmaps(v, st),
    )
}

/// The group of an inode.
pub open spec fn home_group(v: Vol, ino: u32) -> u32 {
    ((ino - 1) / v.sb.inodes_per_group as int) as u32
}

/// The stage with a planned run marked used and every count moved.
pub open spec fn stage_block_plan(v: Vol, st: Stage, p: BlockAllocationPlan) -> Result<Stage> {
    match stage_mark_blocks(v, st, p.first_block, p.count as int) {
        Err(e) => Err(e),
        Ok(st1) => match stage_counters(
            v,
            st1,
            p.bgd.group_idx as int,
            p.bgd.free_blocks_delta as int,
            p.bgd.free_inodes_delta as int,
            p.bgd.used_dirs_delta as int,
        ) {
            Err(e) => Err(e),
            Ok(st2) => stage_totals(
                v,
                st2,
                p.sb.free_blocks_delta as int,
                p.sb.free_inodes_delta as int,
            ),
        },
    }
}

/// The stage with a planned inode marked used and every count moved.
pub open spec fn stage_inode_plan(v: Vol, st: Stage, p: InodeAllocationPlan) -> Result<Stage> {
    match stage_mark_inode(v, st, p.inode) {
        Err(e) => Err(e),
        Ok(st1) => match stage_counters(
            v,
            st1,
            p.bgd.group_idx as int,
            p.bgd.free_blocks_delta as int,
            p.bgd.free_inodes_delta as int,
            p.bgd.used_dirs_delta as int,
        ) {
            Err(e) => Err(e),
            Ok(st2) => stage_totals(
                v,
                st2,
                p.sb.free_blocks_delta as int,
                p.sb.free_inodes_delta as int,
            ),
        },
    }
}

/// The stage with a block built from scratch in place; a device error where
/// the volume's device ends before it.
pub open spec fn stage_fresh(v: Vol, st: Stage, n: u64, b: Seq<u8>) -> Result<Stage> {
    if has_block(v.img, v.bs(), n as int) {
        Ok(stage_block(v, st, n as int, b))
    } else {
        Err(Error::Io)
    }
}

/// A tree node as it is written out.
pub open spec fn node_stamped(v: Vol, ino: u32, generation: u32, b: Seq<u8>) -> Seq<u8> {
    if v.csum.enabled {
        extent_stamped(v.csum.seed, ino, generation, b)
    } else {
        b
    }
}

/// The stage with tree nodes written out.
pub open spec fn stage_nodes(v: Vol, st: Stage, ino: u32, generation: u32, writes: Seq<(u64, Seq<u8>)>) -> Result<
    Stage,
>
    decreases writes.len(),
{
    if writes.len() == 0 {
        Ok(st)
    } else {
        match stage_nodes(v, st, ino, generation, writes.drop_last()) {
            Err(e) => Err(e),
            Ok(before) => stage_fresh(
                v,
                before,
                writes.last().0,
                node_stamped(v, ino, generation, writes.last().1),
            ),
        }
    }
}

proof fn lemma_nodes_error(
    v: Vol,
    st: Stage,
    ino: u32,
    generation: u32,
    writes: Seq<(u64, Seq<u8>)>,
    i: int,
    e: Error,
)
    requires
        0 <= i <= writes.len(),
        stage_nodes(v, st, ino, generation, writes.take(i)) == Err::<Stage, Error>(e),
    ensures
        stage_nodes(v, st, ino, generation, writes) == Err::<Stage, Error>(e),
    decreases writes.len() - i,
{
    if i < writes.len() {
        assert(writes.take(i + 1).drop_last() =~= writes.take(i));
        lemma_nodes_error(v, st, ino, generation, writes, i + 1, e);
    } else {
        assert(writes.take(i) =~= writes);
    }
}

impl<D: BlockDevice> Filesystem<D> {
    /// Plan `count` blocks near group `hint`, leaving out the reserved ones.
    pub fn plan_blocks(&self, count: u32, hint: u32, reserved: &[u64]) -> (r: Result<BlockAllocationPlan>)
        requires
            self.wf(),
            count <= i32::MAX,
        ensures
            match r {
                Ok(p) => volume_plan(self@, count, hint, reserved@) == Ok::<BlockAllocationPlan, Error>(p)
                    && p.count == count && p.first_block + count <= self.sb.blocks_count,
                Err(e) => volume_plan(self@, count, hint, reserved@) == Err::<BlockAllocationPlan, Error>(
                    e,
                ) || (!self.dev.healthy() && e == Error::Io),
            },
    {
        let reader = |b: u64| -> (o: Result<Vec<u8>>)
            ensures
                match o {
                    Ok(v) => self@.block(b as int) == Ok::<Seq<u8>, Error>(v@),
                    Err(e) => self@.block(b as int) == Err::<Seq<u8>, Error>(e) || (!self.dev.healthy() && e
                        == Error::Io),
                },
            { self.read_block(b) };
        let ghost m = bitmaps_of(self@);
        assert(reads_as(reader, m));
        let r = plan_block_allocation_excluding(
            &self.sb,
            &self.groups,
            count,
            hint,
            reserved,
            reader,
        );
        proof {
            if r is Ok {
                law_planned_run_within(self.sb, self.groups@, count, hint, reserved@, m);
            }
        }
        r
    }

    /// Plan `count` blocks near group `hint`, on the volume as staged.
    pub fn plan_blocks_staged(&self, buf: &BlockBuffer, count: u32, hint: u32) -> (r: Result<
        BlockAllocationPlan,
    >)
        requires
            self.wf(),
            buf.wf(self@),
            count <= i32::MAX,
        ensures
            match r {
                Ok(p) => staged_plan(self@, buf.stage(self@), count, hint) == Ok::<
                    BlockAllocationPlan,
                    Error,
                >(p) && p.count == count && p.first_block + count <= self.sb.blocks_count,
                Err(e) => staged_plan(self@, buf.stage(self@), count, hint) == Err::<
                    BlockAllocationPlan,
                    Error,
                >(e) || (!self.dev.healthy() && e == Error::Io),
            },
    {
        let ghost st = buf.stage(self@);
        let reader = |b: u64| -> (o: Result<Vec<u8>>)
            ensures
                match o {
                    Ok(v) => block_at(buf.stage(self@).img, self@.bs(), b as int) == Ok::<Seq<u8>, Error>(
                        v@,
                    ),
                    Err(e) => block_at(buf.stage(self@).img, self@.bs(), b as int) == Err::<Seq<u8>, Error>(
                        e,
                    ) || (!self.dev.healthy() && e == Error::Io),
                },
            { self.staged_block(buf, b) };
        let ghost m = staged_bitmaps(self@, st);
        assert(reads_as(reader, m));
        let groups = self.groups_with(buf);
        let none: Vec<u64> = Vec::new();
        assert(none@ =~= Seq::<u64>::empty());
        let r = plan_block_allocation_excluding(&self.sb, &groups, count, hint, &none, reader);
        proof {
            if r is Ok {
                law_planned_run_within(self.sb, groups@, count, hint, none@, m);
            }
        }
        r
    }

    /// The group snapshot with what a buffer has brought into use.
    fn groups_with(&self, buf: &BlockBuffer) -> (r: Vec<crate::bgd::BlockGroupDescriptor>)
        ensures
            r@ == published(self.groups@, buf.uninit_cleared@),
            r@.len() == self.groups@.len(),
    {
        let mut groups: Vec<crate::bgd::BlockGroupDescriptor> = Vec::new();
        let mut i: usize = 0;
        while i < self.groups.len()
            invariant
                i <= self.groups@.len(),
                groups@ == self.groups@.take(i as int),
            decreases self.groups@.len() - i,
        {
            groups.push(self.groups[i]);
            i += 1;
            assert(groups@ =~= self.groups@.take(i as int));
        }
        assert(groups@ =~= self.groups@);
        let ghost flags = buf.uninit_cleared@;
        let mut k: usize = 0;
        assert(flags.take(0) =~= Seq::<(usize, u16)>::empty());
        while k < buf.uninit_cleared.len()
            invariant
                k <= flags.len(),
                flags == buf.uninit_cleared@,
                groups@.len() == self.groups@.len(),
                groups@ == published(self.groups@, flags.take(k as int)),
            decreases flags.len() - k,
        {
            let (gi, left): (usize, u16) = buf.uninit_cleared[k];
            if gi < groups.len() {
                let mut g: crate::bgd::BlockGroupDescriptor = groups[gi];
                g.flags = left;
                groups.set(gi, g);
            }
            k += 1;
            assert(flags.take(k as int).drop_last() =~= flags.take(k - 1));
        }
        assert(flags.take(k as int) =~= flags);
        groups
    }

    /// Plan one inode near group `hint`.
    pub fn plan_inode(&self, is_dir: bool, hint: u32) -> (r: Result<InodeAllocationPlan>)
        requires
            self.wf(),
        ensures
            match r {
                Ok(p) => inode_planned(self.sb, self.groups@, is_dir, hint, bitmaps_of(self@)) == Ok::<
                    InodeAllocationPlan,
                    Error,
                >(p),
                Err(e) => inode_planned(self.sb, self.groups@, is_dir, hint, bitmaps_of(self@)) == Err::<
                    InodeAllocationPlan,
                    Error,
                >(e) || (!self.dev.healthy() && e == Error::Io),
            },
    {
        let reader = |b: u64| -> (o: Result<Vec<u8>>)
            ensures
                match o {
                    Ok(v) => self@.block(b as int) == Ok::<Seq<u8>, Error>(v@),
                    Err(e) => self@.block(b as int) == Err::<Seq<u8>, Error>(e) || (!self.dev.healthy() && e
                        == Error::Io),
                },
            { self.read_block(b) };
        let ghost m = bitmaps_of(self@);
        assert(reads_as(reader, m));
        plan_inode_allocation(&self.sb, &self.groups, is_dir, hint, reader)
    }

    /// Stage a block built from scratch.
    pub fn buffer_put_fresh(&self, buf: &mut BlockBuffer, n: u64, bytes: Vec<u8>) -> (r: Result<()>)
        requires
            self.wf(),
            old(buf).wf(self@),
            bytes@.len() == self@.bs(),
        ensures
            final(buf).wf(self@),
            staged(
                stage_fresh(self@, old(buf).stage(self@), n, bytes@),
                r,
                final(buf).stage(self@),
                self.dev.healthy(),
            ),
    {
        let bs: u64 = self.sb.block_size() as u64;
        let size: u64 = self.dev.size_bytes();
        proof {
            let x = n * bs;
            assert(size / bs <= n ==> n * bs + bs > size) by (nonlinear_arith)
                requires
                    bs > 0,
            ;
            assert(n < size / bs ==> n * bs + bs <= size) by (nonlinear_arith)
                requires
                    bs > 0,
            ;
        }
        if n >= size / bs {
            return Err(Error::Io);
        }
        buf.put(n, bytes);
        Ok(())
    }

    /// Stage a planned run as used, with every count that goes with it.
    pub fn buffer_apply_block_plan(&self, buf: &mut BlockBuffer, p: &BlockAllocationPlan) -> (r: Result<()>)
        requires
            self.wf(),
            old(buf).wf(self@),
        ensures
            final(buf).wf(self@),
            staged(
                stage_block_plan(self@, old(buf).stage(self@), *p),
                r,
                final(buf).stage(self@),
                self.dev.healthy(),
            ),
    {
        if let Err(e) = self.buffer_mark_block_run_used(buf, p.first_block, p.count as u64) {
            return Err(e);
        }
        if let Err(e) = self.buffer_patch_bgd_counters(
            buf,
            p.bgd.group_idx as usize,
            p.bgd.free_blocks_delta,
            p.bgd.free_inodes_delta,
            p.bgd.used_dirs_delta,
        ) {
            return Err(e);
        }
        self.buffer_patch_sb_counters(buf, p.sb.free_blocks_delta, p.sb.free_inodes_delta)
    }

    /// Stage a planned inode as used, with every count that goes with it.
    pub fn buffer_apply_inode_plan(&self, buf: &mut BlockBuffer, p: &InodeAllocationPlan) -> (r: Result<()>)
        requires
            self.wf(),
            old(buf).wf(self@),
        ensures
            final(buf).wf(self@),
            staged(
                stage_inode_plan(self@, old(buf).stage(self@), *p),
                r,
                final(buf).stage(self@),
                self.dev.healthy(),
            ),
    {
        if let Err(e) = self.buffer_mark_inode_used(buf, p.inode) {
            return Err(e);
        }
        if let Err(e) = self.buffer_patch_bgd_counters(
            buf,
            p.bgd.group_idx as usize,
            p.bgd.free_blocks_delta,
            p.bgd.free_inodes_delta,
            p.bgd.used_dirs_delta,
        ) {
            return Err(e);
        }
        self.buffer_patch_sb_counters(buf, p.sb.free_blocks_delta, p.sb.free_inodes_delta)
    }

    /// Stage tree nodes, each with its checksum.
    pub(crate) fn buffer_put_nodes(
        &self,
        buf: &mut BlockBuffer,
        ino: u32,
        generation: u32,
        writes: Vec<(u64, Vec<u8>)>,
    ) -> (r: Result<()>)
        requires
            self.wf(),
            old(buf).wf(self@),
            forall|i: int| 0 <= i < writes@.len() ==> (#[trigger] writes@[i]).1@.len() == self@.bs(),
        ensures
            final(buf).wf(self@),
            staged(
                stage_nodes(self@, old(buf).stage(self@), ino, generation, writes_view(writes@)),
                r,
                final(buf).stage(self@),
                self.dev.healthy(),
            ),
    {
        let ghost all = writes_view(writes@);
        let ghost st0 = buf.stage(self@);
        let mut i: usize = 0;
        assert(all.take(0) =~= Seq::<(u64, Seq<u8>)>::empty());
        while i < writes.len()
            invariant
                i <= writes@.len(),
                self.wf(),
                buf.wf(self@),
                all == writes_view(writes@),
                st0 == old(buf).stage(self@),
                forall|k: int|
                    0 <= k < writes@.len() ==> (#[trigger] writes@[k]).1@.len() == self@.bs(),
                stage_nodes(self@, st0, ino, generation, all.take(i as int)) == Ok::<Stage, Error>(
                    buf.stage(self@),
                ),
            decreases writes@.len() - i,
        {
            assert(writes@[i as int].1@.len() == self@.bs());
            let n: u64 = writes[i].0;
            let mut bytes: Vec<u8> = copy_range(&writes[i].1, 0, writes[i].1.len());
            assert(bytes@ =~= writes@[i as int].1@);
            if self.csum.enabled {
                self.csum.patch_extent_tail(ino, generation, &mut bytes);
            }
            proof {
                assert(all.take(i + 1).drop_last() =~= all.take(i as int));
                assert(all.take(i + 1).last() == (n, writes@[i as int].1@));
            }
            if let Err(e) = self.buffer_put_fresh(buf, n, bytes) {
                proof {
                    if stage_nodes(self@, st0, ino, generation, all.take(i + 1)) == Err::<Stage, Error>(e) {
                        lemma_nodes_error(self@, st0, ino, generation, all, i + 1, e);
                    }
                }
                return Err(e);
            }
            i += 1;
        }
        assert(all.take(i as int) =~= all);
        Ok(())
    }
}

// -- directory blocks -------------------------------------------------------

/// How much of a fresh directory block entries may use.
pub open spec fn usable_of(v: Vol) -> int {
    if v.csum.enabled {
        v.bs() - 12
    } else {
        v.bs()
    }
}

/// A fresh directory block, stamped where directories are.
pub open spec fn fresh_dir_stamped(v: Vol, ino: u32, generation: u32, b: Seq<u8>) -> Seq<u8> {
    if v.csum.enabled {
        dir_stamped(v.csum.seed, ino, generation, b)
    } else {
        b
    }
}

/// A directory block that is all free space.
pub open spec fn empty_dir_block(v: Vol) -> Seq<u8> {
    put16(zeros(v.bs() as nat), 4, (usable_of(v) % 0x1_0000) as u16)
}

/// A directory block with one entry.
pub open spec fn one_entry_block(
    v: Vol,
    ino: u32,
    generation: u32,
    name: Seq<u8>,
    target: u32,
    ft: DirEntryType,
) -> Result<Seq<u8>> {
    match add_from(
        empty_dir_block(v),
        0,
        usable_of(v),
        target,
        name,
        type_byte(ft, keeps_types(v)),
        keeps_types(v),
    ) {
        Err(e) => Err(e),
        Ok(b) => Ok(fresh_dir_stamped(v, ino, generation, b)),
    }
}

/// A new directory's first block: `.` and `..`.
pub open spec fn dots_block(v: Vol, ino: u32, parent: u32, generation: u32) -> Seq<u8> {
    let t = type_byte(DirEntryType::Directory, keeps_types(v));
    let dot = put16(put32(zeros(v.bs() as nat), 0, ino), 4, 12).update(6, 1u8).update(7, t).update(
        8,
        0x2Eu8,
    );
    let b = put16(put32(dot, 12, parent), 16, ((usable_of(v) - 12) % 0x1_0000) as u16).update(
        18,
        2u8,
    ).update(19, t).update(20, 0x2Eu8).update(21, 0x2Eu8);
    fresh_dir_stamped(v, ino, generation, b)
}

// -- growing ----------------------------------------------------------------

/// The block number in a file, as an extent keeps it.
pub open spec fn as_logical(l: int) -> u32 {
    (l % 0x1_0000_0000) as u32
}

/// The stage of a directory's growth by one block, once the tree's new shape
/// is known.
pub open spec fn stage_growth(
    v: Vol,
    ino: u32,
    raw: Seq<u8>,
    plan: BlockAllocationPlan,
    meta: Option<BlockAllocationPlan>,
    root: Seq<u8>,
    writes: Seq<(u64, Seq<u8>)>,
    name: Seq<u8>,
    target: u32,
    ft: DirEntryType,
) -> Result<Stage> {
    let generation = generation_of(raw);
    let consumed = if meta is Some {
        2int
    } else {
        1
    };
    if size_of_file(raw) + v.bs() > u64::MAX {
        Err(Error::Corrupt("directory cannot grow any further"))
    } else {
        match stage_nodes(v, fresh_stage(v), ino, generation, writes) {
            Err(e) => Err(e),
            Ok(st1) => match stage_inode(
                v,
                st1,
                ino,
                v.csum.stamp_inode_spec(
                    ino,
                    generation,
                    with_size_and_blocks(
                        with_block_area(raw, root),
                        (size_of_file(raw) + v.bs()) as u64,
                        (sectors_of(raw) + (v.bs() / 512) * consumed) as u64,
                    ),
                ),
            ) {
                Err(e) => Err(e),
                Ok(st2) => match one_entry_block(v, ino, generation, name, target, ft) {
                    Err(e) => Err(e),
                    Ok(b) => match stage_fresh(v, st2, plan.first_block, b) {
                        Err(e) => Err(e),
                        Ok(st3) => match stage_block_plan(v, st3, plan) {
                            Err(e) => Err(e),
                            Ok(st4) => match meta {
                                None => Ok(st4),
                                Some(m) => stage_block_plan(v, st4, m),
                            },
                        },
                    },
                },
            },
        }
    }
}

/// The extent for a directory's next block.
pub open spec fn growth_extent(v: Vol, raw: Seq<u8>, plan: BlockAllocationPlan) -> Extent {
    Extent {
        logical_block: as_logical(dir_blocks(v, raw)),
        length: 1,
        physical_block: plan.first_block,
        uninitialized: false,
    }
}

/// What growing a directory by one block with an entry in it comes to. The
/// block is taken near the directory; where its extent tree is full, one more
/// block is taken for a tree node.
pub open spec fn extend_stage(v: Vol, ino: u32, name: Seq<u8>, target: u32, ft: DirEntryType) -> Result<Stage> {
    match checked_inode(v, ino) {
        Err(e) => Err(e),
        Ok(raw) => if !mode_is_dir(mode_of(raw)) {
            Err(Error::NotADirectory)
        } else {
            match volume_plan(v, 1, home_group(v, ino), Seq::empty()) {
                Err(e) => Err(e),
                Ok(plan) => {
                    let new = growth_extent(v, raw, plan);
                    let root = block_area_of(raw);
                    match deep_insert(v.img, v.bs(), root, new, v.csum.enabled, None) {
                        Err(e) => Err(e),
                        Ok(DeepInsertView::Done { root: r, writes: w }) => stage_growth(
                            v,
                            ino,
                            raw,
                            plan,
                            None,
                            r,
                            w,
                            name,
                            target,
                            ft,
                        ),
                        Ok(DeepInsertView::NeedsBlock) => match volume_plan(
                            v,
                            1,
                            home_group(v, ino),
                            seq![plan.first_block],
                        ) {
                            Err(e) => Err(e),
                            Ok(meta) => match deep_insert(
                                v.img,
                                v.bs(),
                                root,
                                new,
                                v.csum.enabled,
                                Some(meta.first_block),
                            ) {
                                Err(e) => Err(e),
                                Ok(DeepInsertView::NeedsBlock) => Err(
                                    Error::Corrupt("extent tree asks for a block it was given"),
                                ),
                                Ok(DeepInsertView::Done { root: r, writes: w }) => stage_growth(
                                    v,
                                    ino,
                                    raw,
                                    plan,
                                    Some(meta),
                                    r,
                                    w,
                                    name,
                                    target,
                                    ft,
                                ),
                            },
                        },
                    }
                },
            }
        },
    }
}

// -- indexed directories ----------------------------------------------------

/// The blocks that the first `n` entries of an index block route to, its
/// entries starting at byte `at`.
pub open spec fn index_targets(b: Seq<u8>, at: int, n: nat) -> Seq<u32> {
    Seq::new(n, |i: int| le32(b, at + 8 * i + 4))
}

/// Whether a root block holds an index that can be followed.
pub open spec fn index_root_ok(b: Seq<u8>) -> bool {
    b[29] == 8 && b[30] <= 3 && le16(b, 34) <= le16(b, 32) && 32 + 8 * le16(b, 34) <= b.len()
}

/// Whether an interior block holds index entries.
pub open spec fn index_node_ok(b: Seq<u8>) -> bool {
    le16(b, 10) <= le16(b, 8) && 8 + 8 * le16(b, 10) <= b.len()
}

/// Where block `l` of an indexed directory is.
pub open spec fn index_block(v: Vol, raw: Seq<u8>, l: int) -> Result<u64> {
    match file_block(v, raw, l) {
        Err(e) => Err(e),
        Ok(None) => Err(Error::CorruptDirEntry("htree block is not mapped")),
        Ok(Some(p)) => Ok(p),
    }
}

/// The device blocks of one level of an index, and what they route to.
pub open spec fn index_level(v: Vol, raw: Seq<u8>, level: Seq<u32>) -> Result<(Seq<u64>, Seq<u32>)>
    decreases level.len(),
{
    if level.len() == 0 {
        Ok((Seq::empty(), Seq::empty()))
    } else {
        match index_level(v, raw, level.drop_last()) {
            Err(e) => Err(e),
            Ok((nodes, next)) => match index_block(v, raw, level.last() as int) {
                Err(e) => Err(e),
                Ok(p) => match v.block(p as int) {
                    Err(e) => Err(e),
                    Ok(b) => if !index_node_ok(b) {
                        Err(Error::CorruptDirEntry("htree node is not one"))
                    } else {
                        Ok((nodes.push(p), next + index_targets(b, 8, le16(b, 10) as nat)))
                    },
                },
            },
        }
    }
}

/// The device blocks of every interior level of an index, `depth` of them from
/// `level` down.
pub open spec fn index_nodes(v: Vol, raw: Seq<u8>, level: Seq<u32>, depth: nat) -> Result<Seq<u64>>
    decreases depth,
{
    if depth == 0 {
        Ok(Seq::empty())
    } else {
        match index_level(v, raw, level) {
            Err(e) => Err(e),
            Ok((nodes, next)) => match index_nodes(v, raw, next, (depth - 1) as nat) {
                Err(e) => Err(e),
                Ok(rest) => Ok(nodes + rest),
            },
        }
    }
}

/// The interior blocks of a directory's index.
pub open spec fn interior_blocks(v: Vol, raw: Seq<u8>, root: Seq<u8>) -> Result<Seq<u64>> {
    if index_root_ok(root) {
        index_nodes(v, raw, index_targets(root, 32, le16(root, 34) as nat), root[30] as nat)
    } else {
        Ok(Seq::empty())
    }
}

/// An index block made a linear directory block: the record at `at` that spans
/// the block is shortened and a checksum record written behind it.
pub open spec fn relinked(v: Vol, ino: u32, generation: u32, b: Seq<u8>, at: int) -> Seq<u8> {
    dir_stamped(
        v.csum.seed,
        ino,
        generation,
        put16(b, at + 4, ((v.bs() - at - 12) % 0x1_0000) as u16),
    )
}

/// The stage with one index block made linear.
pub open spec fn stage_relink(v: Vol, st: Stage, ino: u32, generation: u32, p: u64, at: int) -> Result<Stage> {
    match block_at(st.img, v.bs(), p as int) {
        Err(e) => Err(e),
        Ok(b) => Ok(stage_block(v, st, p as int, relinked(v, ino, generation, b, at))),
    }
}

/// The stage with each interior block made linear.
pub open spec fn stage_relink_all(v: Vol, st: Stage, ino: u32, generation: u32, nodes: Seq<u64>) -> Result<Stage>
    decreases nodes.len(),
{
    if nodes.len() == 0 {
        Ok(st)
    } else {
        match stage_relink_all(v, st, ino, generation, nodes.drop_last()) {
            Err(e) => Err(e),
            Ok(before) => stage_relink(v, before, ino, generation, nodes.last(), 0),
        }
    }
}

/// What turning an indexed directory into a linear one comes to: the flag
/// goes, and, where directories carry checksums, the blocks of the index get a
/// checksum record each.
pub open spec fn unindex_stage(v: Vol, ino: u32, raw: Seq<u8>) -> Result<Stage> {
    match index_block(v, raw, 0) {
        Err(e) => Err(e),
        Ok(p) => match v.block(p as int) {
            Err(e) => Err(e),
            Ok(root) => match interior_blocks(v, raw, root) {
                Err(e) => Err(e),
                Ok(nodes) => match stage_inode(
                    v,
                    fresh_stage(v),
                    ino,
                    v.csum.stamp_inode_spec(
                        ino,
                        generation_of(raw),
                        put32(raw, 0x20, flags_of(raw) & !FL_INDEX),
                    ),
                ) {
                    Err(e) => Err(e),
                    Ok(st1) => if !v.csum.enabled {
                        Ok(st1)
                    } else {
                        match stage_relink(v, st1, ino, generation_of(raw), p, 12) {
                            Err(e) => Err(e),
                            Ok(st2) => stage_relink_all(v, st2, ino, generation_of(raw), nodes),
                        }
                    },
                },
            },
        },
    }
}

/// What dropping a directory's index, if it has one, comes to.
pub open spec fn drop_index(v: Vol, ino: u32) -> (Vol, Result<()>) {
    match checked_inode(v, ino) {
        Err(e) => (v, Err(e)),
        Ok(raw) => if flags_of(raw) & FL_INDEX == 0 {
            (v, Ok(()))
        } else {
            done(v, unit_stage(unindex_stage(v, ino, raw)))
        },
    }
}

/// What growing a directory comes to, an index on it dropped first.
pub open spec fn extend_dir(v: Vol, ino: u32, name: Seq<u8>, target: u32, ft: DirEntryType) -> (Vol, Result<()>) {
    let (v1, r) = drop_index(v, ino);
    match r {
        Err(e) => (v1, Err(e)),
        Ok(_) => done(v1, unit_stage(extend_stage(v1, ino, name, target, ft))),
    }
}

/// The blocks that dropping a directory's index writes.
pub open spec fn index_blocks(v: Vol, ino: u32) -> Set<u64> {
    match checked_inode(v, ino) {
        Err(_) => Set::empty(),
        Ok(raw) => if flags_of(raw) & FL_INDEX == 0 {
            Set::empty()
        } else {
            stage_blocks(unit_stage(unindex_stage(v, ino, raw)))
        },
    }
}

/// What a device that fails the growth of a directory may leave: the volume
/// with some blocks of the commit that it failed written, and those of the
/// commit before it.
pub open spec fn extend_cut(v: Vol, ino: u32, name: Seq<u8>, target: u32, ft: DirEntryType, post: Vol) -> bool {
    let (v1, r) = drop_index(v, ino);
    ||| only_in(v, post, index_blocks(v, ino))
    ||| r is Ok && only_in(v1, post, stage_blocks(unit_stage(extend_stage(v1, ino, name, target, ft))))
}

proof fn lemma_relink_error(v: Vol, st: Stage, ino: u32, generation: u32, nodes: Seq<u64>, i: int, e: Error)
    requires
        0 <= i <= nodes.len(),
        stage_relink_all(v, st, ino, generation, nodes.take(i)) == Err::<Stage, Error>(e),
    ensures
        stage_relink_all(v, st, ino, generation, nodes) == Err::<Stage, Error>(e),
    decreases nodes.len() - i,
{
    if i < nodes.len() {
        assert(nodes.take(i + 1).drop_last() =~= nodes.take(i));
        lemma_relink_error(v, st, ino, generation, nodes, i + 1, e);
    } else {
        assert(nodes.take(i) =~= nodes);
    }
}

proof fn lemma_level_error(v: Vol, raw: Seq<u8>, level: Seq<u32>, i: int, e: Error)
    requires
        0 <= i <= level.len(),
        index_level(v, raw, level.take(i)) == Err::<(Seq<u64>, Seq<u32>), Error>(e),
    ensures
        index_level(v, raw, level) == Err::<(Seq<u64>, Seq<u32>), Error>(e),
    decreases level.len() - i,
{
    if i < level.len() {
        assert(level.take(i + 1).drop_last() =~= level.take(i));
        lemma_level_error(v, raw, level, i + 1, e);
    } else {
        assert(level.take(i) =~= level);
    }
}

fn push_targets(out: &mut Vec<u32>, b: &[u8], at: usize, n: u16)
    requires
        at <= 32,
        at + 8 * n <= b@.len(),
    ensures
        final(out)@ == old(out)@ + index_targets(b@, at as int, n as nat),
{
    let ghost before = out@;
    let mut i: u16 = 0;
    assert(before + index_targets(b@, at as int, 0) =~= before);
    while i < n
        invariant
            i <= n,
            at <= 32,
            at + 8 * n <= b@.len(),
            out@ == before + index_targets(b@, at as int, i as nat),
        decreases n - i,
    {
        out.push(get_u32(b, at + 8 * (i as usize) + 4));
        i += 1;
        assert(out@ =~= before + index_targets(b@, at as int, i as nat));
    }
}

impl<D: BlockDevice> Filesystem<D> {
    fn dir_index_block(&self, inode: &Inode, Ghost(raw): Ghost<Seq<u8>>, l: u64) -> (r: Result<u64>)
        requires
            self.wf(),
            inode.decodes(raw),
        ensures
            match r {
                Ok(p) => index_block(self@, raw, l as int) == Ok::<u64, Error>(p),
                Err(e) => index_block(self@, raw, l as int) == Err::<u64, Error>(e) || (
                !self.dev.healthy() && e == Error::Io),
            },
    {
        match self.map_inode_logical(inode, l) {
            Err(e) => Err(e),
            Ok(None) => Err(Error::CorruptDirEntry("htree block is not mapped")),
            Ok(Some(p)) => Ok(p),
        }
    }

    fn read_index_level(&self, inode: &Inode, Ghost(raw): Ghost<Seq<u8>>, level: &[u32]) -> (r: Result<
        (Vec<u64>, Vec<u32>),
    >)
        requires
            self.wf(),
            inode.decodes(raw),
        ensures
            match r {
                Ok((nodes, next)) => index_level(self@, raw, level@) == Ok::<
                    (Seq<u64>, Seq<u32>),
                    Error,
                >((nodes@, next@)),
                Err(e) => index_level(self@, raw, level@) == Err::<(Seq<u64>, Seq<u32>), Error>(e) || (
                !self.dev.healthy() && e == Error::Io),
            },
    {
        let mut nodes: Vec<u64> = Vec::new();
        let mut next: Vec<u32> = Vec::new();
        let mut i: usize = 0;
        proof {
            assert(level@.take(0) =~= Seq::<u32>::empty());
            assert(nodes@ =~= Seq::<u64>::empty());
            assert(next@ =~= Seq::<u32>::empty());
        }
        while i < level.len()
            invariant
                i <= level@.len(),
                self.wf(),
                inode.decodes(raw),
                index_level(self@, raw, level@.take(i as int)) == Ok::<(Seq<u64>, Seq<u32>), Error>(
                    (nodes@, next@),
                ),
            decreases level@.len() - i,
        {
            proof {
                assert(level@.take(i + 1).drop_last() =~= level@.take(i as int));
            }
            let p: u64 = match self.dir_index_block(inode, Ghost(raw), level[i] as u64) {
                Ok(p) => p,
                Err(e) => {
                    proof {
                        if index_level(self@, raw, level@.take(i + 1)) == Err::<
                            (Seq<u64>, Seq<u32>),
                            Error,
                        >(e) {
                            lemma_level_error(self@, raw, level@, i + 1, e);
                        }
                    }
                    return Err(e);
                },
            };
            let b: Vec<u8> = match self.read_block(p) {
                Ok(b) => b,
                Err(e) => {
                    proof {
                        if index_level(self@, raw, level@.take(i + 1)) == Err::<
                            (Seq<u64>, Seq<u32>),
                            Error,
                        >(e) {
                            lemma_level_error(self@, raw, level@, i + 1, e);
                        }
                    }
                    return Err(e);
                },
            };
            let limit: u16 = get_u16(&b, 8);
            let count: u16 = get_u16(&b, 10);
            if count > limit || 8 + 8 * (count as usize) > b.len() {
                let e = Error::CorruptDirEntry("htree node is not one");
                proof {
                    lemma_level_error(self@, raw, level@, i + 1, e);
                }
                return Err(e);
            }
            nodes.push(p);
            push_targets(&mut next, &b, 8, count);
            i += 1;
        }
        assert(level@.take(i as int) =~= level@);
        Ok((nodes, next))
    }

    fn read_interior_blocks(&self, inode: &Inode, Ghost(raw): Ghost<Seq<u8>>, root: &[u8]) -> (r: Result<
        Vec<u64>,
    >)
        requires
            self.wf(),
            inode.decodes(raw),
            root@.len() == self@.bs(),
        ensures
            match r {
                Ok(nodes) => interior_blocks(self@, raw, root@) == Ok::<Seq<u64>, Error>(nodes@),
                Err(e) => interior_blocks(self@, raw, root@) == Err::<Seq<u64>, Error>(e) || (
                !self.dev.healthy() && e == Error::Io),
            },
    {
        let mut nodes: Vec<u64> = Vec::new();
        let limit: u16 = get_u16(root, 32);
        let count: u16 = get_u16(root, 34);
        assert(nodes@ =~= Seq::<u64>::empty());
        if root[29] != 8 || root[30] > 3 || count > limit || 32 + 8 * (count as usize) > root.len() {
            return Ok(nodes);
        }
        let mut level: Vec<u32> = Vec::new();
        let ghost none = level@;
        push_targets(&mut level, root, 32, count);
        assert(level@ =~= index_targets(root@, 32, count as nat));
        let depth: u8 = root[30];
        let mut left: u8 = depth;
        let ghost whole = index_nodes(self@, raw, level@, depth as nat);
        proof {
            if let Ok(w) = whole {
                assert(nodes@ + w =~= w);
            }
        }
        while left > 0
            invariant
                left <= depth,
                self.wf(),
                inode.decodes(raw),
                whole == interior_blocks(self@, raw, root@),
                whole == (match index_nodes(self@, raw, level@, left as nat) {
                    Err(e) => Err(e),
                    Ok(rest) => Ok(nodes@ + rest),
                }),
            decreases left,
        {
            let (mut these, next): (Vec<u64>, Vec<u32>) = match self.read_index_level(
                inode,
                Ghost(raw),
                &level,
            ) {
                Ok(p) => p,
                Err(e) => {
                    return Err(e);
                },
            };
            let ghost before = nodes@;
            let ghost now = these@;
            nodes.append(&mut these);
            proof {
                if let Ok(rest) = index_nodes(self@, raw, next@, (left - 1) as nat) {
                    assert(before + (now + rest) =~= nodes@ + rest);
                }
            }
            level = next;
            left = left - 1;
        }
        assert(nodes@ + Seq::<u64>::empty() =~= nodes@);
        Ok(nodes)
    }

    fn buffer_relink(&self, buf: &mut BlockBuffer, ino: u32, generation: u32, p: u64, at: usize) -> (r: Result<()>)
        requires
            self.wf(),
            old(buf).wf(self@),
            at <= 12,
        ensures
            final(buf).wf(self@),
            staged(
                stage_relink(self@, old(buf).stage(self@), ino, generation, p, at as int),
                r,
                final(buf).stage(self@),
                self.dev.healthy(),
            ),
    {
        let mut block: Vec<u8> = match self.staged_block(buf, p) {
            Ok(b) => b,
            Err(e) => {
                return Err(e);
            },
        };
        let span: usize = block.len() - at - 12;
        set_u16(&mut block, at + 4, (span % 0x1_0000) as u16);
        self.csum.patch_dir_entry_tail(ino, generation, &mut block);
        buf.put(p, block);
        Ok(())
    }

    /// Turn an indexed directory back into a linear one. Every leaf is an
    /// ordinary directory block already, and so, read linearly, are the root
    /// and each interior block: one record that spans it. The inode's flag
    /// goes, and where directories carry checksums those blocks get a checksum
    /// record each.
    fn drop_htree_index(&mut self, dir_ino: u32) -> (r: Result<()>)
        requires
            old(self).wf(),
            old(self).takes_writes(),
        ensures
            final(self).wf(),
            same_mount(*final(self), *old(self)),
            came_out(drop_index(old(self)@, dir_ino), r, final(self)@, old(self).dev.healthy()),
            r matches Err(Error::Io) ==> only_in(old(self)@, final(self)@, index_blocks(old(self)@, dir_ino)),
    {
        let (inode, mut raw): (Inode, Vec<u8>) = match self.read_inode_verified(dir_ino) {
            Ok(p) => p,
            Err(e) => {
                return Err(e);
            },
        };
        if inode.flags & FL_INDEX == 0 {
            return Ok(());
        }
        let ghost raw0 = raw@;
        let root_phys: u64 = match self.dir_index_block(&inode, Ghost(raw0), 0) {
            Ok(p) => p,
            Err(e) => {
                return Err(e);
            },
        };
        let root: Vec<u8> = match self.read_block(root_phys) {
            Ok(b) => b,
            Err(e) => {
                return Err(e);
            },
        };
        let nodes: Vec<u64> = match self.read_interior_blocks(&inode, Ghost(raw0), &root) {
            Ok(n) => n,
            Err(e) => {
                return Err(e);
            },
        };
        set_u32(&mut raw, OFF_FLAGS, inode.flags & !FL_INDEX);
        self.finalize_inode_raw(dir_ino, inode.generation, &mut raw);
        let mut buf: BlockBuffer = BlockBuffer::new(self.sb.block_size());
        assert(buf.wf(self@));
        if let Err(e) = self.buffer_write_inode(&mut buf, dir_ino, &raw) {
            return Err(e);
        }
        if self.csum.enabled {
            if let Err(e) = self.buffer_relink(&mut buf, dir_ino, inode.generation, root_phys, 12) {
                return Err(e);
            }
            let ghost st2 = buf.stage(self@);
            let mut i: usize = 0;
            assert(nodes@.take(0) =~= Seq::<u64>::empty());
            while i < nodes.len()
                invariant
                    i <= nodes@.len(),
                    self.wf(),
                    self == old(self),
                    buf.wf(self@),
                    inode.decodes(raw0),
                    checked_inode(self@, dir_ino) == Ok::<Seq<u8>, Error>(raw0),
                    drop_index(self@, dir_ino) == done(
                        self@,
                        unit_stage(
                            stage_relink_all(self@, st2, dir_ino, generation_of(raw0), nodes@),
                        ),
                    ),
                    stage_relink_all(
                        self@,
                        st2,
                        dir_ino,
                        generation_of(raw0),
                        nodes@.take(i as int),
                    ) == Ok::<Stage, Error>(buf.stage(self@)),
                decreases nodes@.len() - i,
            {
                proof {
                    assert(nodes@.take(i + 1).drop_last() =~= nodes@.take(i as int));
                }
                if let Err(e) = self.buffer_relink(&mut buf, dir_ino, inode.generation, nodes[i], 0) {
                    proof {
                        if stage_relink_all(
                            self@,
                            st2,
                            dir_ino,
                            generation_of(raw0),
                            nodes@.take(i + 1),
                        ) == Err::<Stage, Error>(e) {
                            lemma_relink_error(
                                self@,
                                st2,
                                dir_ino,
                                generation_of(raw0),
                                nodes@,
                                i + 1,
                                e,
                            );
                        }
                    }
                    return Err(e);
                }
                i += 1;
            }
            assert(nodes@.take(i as int) =~= nodes@);
        }
        self.commit_block_buffer(buf)
    }

    /// A directory block with one entry.
    fn build_entry_block(
        &self,
        ino: u32,
        generation: u32,
        name: &[u8],
        target_ino: u32,
        file_type: DirEntryType,
    ) -> (r: Result<Vec<u8>>)
        requires
            self.wf(),
            name@.len() <= NAME_MAX,
        ensures
            match r {
                Ok(b) => one_entry_block(self@, ino, generation, name@, target_ino, file_type) == Ok::<
                    Seq<u8>,
                    Error,
                >(b@) && b@.len() == self@.bs(),
                Err(e) => one_entry_block(self@, ino, generation, name@, target_ino, file_type)
                    == Err::<Seq<u8>, Error>(e),
            },
    {
        let bs: usize = self.sb.block_size() as usize;
        let reserved_tail: usize = if self.csum.enabled {
            12
        } else {
            0
        };
        let mut block: Vec<u8> = zeroed(bs);
        set_u16(&mut block, 4, ((bs - reserved_tail) % 0x1_0000) as u16);
        if let Err(e) = add_entry_to_block(
            &mut block,
            target_ino,
            name,
            file_type,
            self.has_file_types(),
            reserved_tail,
        ) {
            return Err(e);
        }
        if self.csum.enabled {
            self.csum.patch_dir_entry_tail(ino, generation, &mut block);
        }
        Ok(block)
    }

    /// Seed a freshly-allocated dir block with the two canonical entries, `.`
    /// and `..`, and a checksum record where directories carry one.
    pub fn seed_directory_block(&self, new_ino: u32, parent_ino: u32, new_generation: u32) -> (r: Vec<u8>)
        requires
            self.wf(),
        ensures
            r@ == dots_block(self@, new_ino, parent_ino, new_generation),
            r@.len() == self@.bs(),
    {
        let bs: usize = self.sb.block_size() as usize;
        let usable: usize = if self.csum.enabled {
            bs - 12
        } else {
            bs
        };
        let t: u8 = if self.has_file_types() {
            DirEntryType::Directory.code()
        } else {
            0
        };
        let mut block: Vec<u8> = zeroed(bs);
        set_u32(&mut block, 0, new_ino);
        set_u16(&mut block, 4, 12);
        block.set(6, 1);
        block.set(7, t);
        block.set(8, 0x2E);
        set_u32(&mut block, 12, parent_ino);
        set_u16(&mut block, 16, ((usable - 12) % 0x1_0000) as u16);
        block.set(18, 2);
        block.set(19, t);
        block.set(20, 0x2E);
        block.set(21, 0x2E);
        if self.csum.enabled {
            self.csum.patch_dir_entry_tail(new_ino, new_generation, &mut block);
        }
        block
    }

    /// Stage a directory's growth by one block, once the tree's new shape is
    /// known.
    fn buffer_growth(
        &self,
        buf: &mut BlockBuffer,
        ino: u32,
        inode: &Inode,
        raw: Vec<u8>,
        plan: &BlockAllocationPlan,
        meta: &Option<BlockAllocationPlan>,
        root: Vec<u8>,
        writes: Vec<(u64, Vec<u8>)>,
        name: &[u8],
        target_ino: u32,
        file_type: DirEntryType,
    ) -> (r: Result<()>)
        requires
            self.wf(),
            old(buf).wf(self@),
            old(buf).stage(self@) == fresh_stage(self@),
            inode.decodes(raw@),
            raw@.len() == self.sb.inode_size,
            root@.len() == 60,
            name@.len() <= NAME_MAX,
            forall|i: int| 0 <= i < writes@.len() ==> (#[trigger] writes@[i]).1@.len() == self@.bs(),
        ensures
            final(buf).wf(self@),
            staged(
                stage_growth(
                    self@,
                    ino,
                    raw@,
                    *plan,
                    *meta,
                    root@,
                    writes_view(writes@),
                    name@,
                    target_ino,
                    file_type,
                ),
                r,
                final(buf).stage(self@),
                self.dev.healthy(),
            ),
    {
        let mut raw = raw;
        let bs: u64 = self.sb.block_size() as u64;
        let new_size: u64 = match inode.size.checked_add(bs) {
            Some(n) => n,
            None => {
                return Err(Error::Corrupt("directory cannot grow any further"));
            },
        };
        if let Err(e) = self.buffer_put_nodes(buf, ino, inode.generation, writes) {
            return Err(e);
        }
        let consumed: u64 = if meta.is_some() {
            2
        } else {
            1
        };
        let placed = Self::patch_inode_block_area(&mut raw, &root);
        let new_blocks: u64 = inode.blocks + (bs / 512) * consumed;
        let patched = Self::patch_inode_size_and_blocks(&mut raw, new_size, new_blocks);
        self.finalize_inode_raw(ino, inode.generation, &mut raw);
        if let Err(e) = self.buffer_write_inode(buf, ino, &raw) {
            return Err(e);
        }
        let block: Vec<u8> = match self.build_entry_block(
            ino,
            inode.generation,
            name,
            target_ino,
            file_type,
        ) {
            Ok(b) => b,
            Err(e) => {
                return Err(e);
            },
        };
        if let Err(e) = self.buffer_put_fresh(buf, plan.first_block, block) {
            return Err(e);
        }
        if let Err(e) = self.buffer_apply_block_plan(buf, plan) {
            return Err(e);
        }
        match meta {
            Some(m) => self.buffer_apply_block_plan(buf, m),
            None => Ok(()),
        }
    }

    /// Grow a directory by one block, seed that block with the entry `(name →
    /// target_ino)`, and update its inode: size, extent tree, sector count. An
    /// index on the directory is dropped first, since it would never route to
    /// the new block. The growth is one commit.
    pub fn extend_dir_and_add_entry(
        &mut self,
        parent_ino: u32,
        name: &[u8],
        target_ino: u32,
        file_type: DirEntryType,
    ) -> (r: Result<()>)
        requires
            old(self).wf(),
            old(self).takes_writes(),
            name@.len() <= NAME_MAX,
        ensures
            final(self).wf(),
            same_mount(*final(self), *old(self)),
            came_out(
                extend_dir(old(self)@, parent_ino, name@, target_ino, file_type),
                r,
                final(self)@,
                old(self).dev.healthy(),
            ),
            r matches Err(Error::Io) ==> extend_cut(
                old(self)@,
                parent_ino,
                name@,
                target_ino,
                file_type,
                final(self)@,
            ),
    {
        if let Err(e) = self.drop_htree_index(parent_ino) {
            return Err(e);
        }
        let (inode, raw): (Inode, Vec<u8>) = match self.read_inode_verified(parent_ino) {
            Ok(p) => p,
            Err(e) => {
                return Err(e);
            },
        };
        if !inode.is_dir() {
            return Err(Error::NotADirectory);
        }
        let bs: u32 = self.sb.block_size();
        let logical: u64 = blocks_for_bytes(inode.size, bs as u64);
        let hint: u32 = (parent_ino - 1) / self.sb.inodes_per_group;
        let none: Vec<u64> = Vec::new();
        assert(none@ =~= Seq::<u64>::empty());
        let plan: BlockAllocationPlan = match self.plan_blocks(1, hint, &none) {
            Ok(p) => p,
            Err(e) => {
                return Err(e);
            },
        };
        let new = Extent {
            logical_block: (logical % 0x1_0000_0000) as u32,
            length: 1,
            physical_block: plan.first_block,
            uninitialized: false,
        };
        let mut meta: Option<BlockAllocationPlan> = None;
        let mut planned: DeepInsert = match plan_insert_extent_deep(
            &inode.block,
            new,
            bs,
            &self.dev,
            self.csum.enabled,
            None,
        ) {
            Ok(d) => d,
            Err(e) => {
                return Err(e);
            },
        };
        if let DeepInsert::NeedsBlock = planned {
            let mut taken: Vec<u64> = Vec::new();
            taken.push(plan.first_block);
            assert(taken@ =~= seq![plan.first_block]);
            let m: BlockAllocationPlan = match self.plan_blocks(1, hint, &taken) {
                Ok(p) => p,
                Err(e) => {
                    return Err(e);
                },
            };
            planned = match plan_insert_extent_deep(
                &inode.block,
                new,
                bs,
                &self.dev,
                self.csum.enabled,
                Some(m.first_block),
            ) {
                Ok(d) => d,
                Err(e) => {
                    return Err(e);
                },
            };
            meta = Some(m);
        }
        match planned {
            DeepInsert::NeedsBlock => Err(
                Error::Corrupt("extent tree asks for a block it was given"),
            ),
            DeepInsert::Done { root, writes } => {
                let mut buf: BlockBuffer = BlockBuffer::new(bs);
                assert(buf.wf(self@));
                if let Err(e) = self.buffer_growth(
                    &mut buf,
                    parent_ino,
                    &inode,
                    raw,
                    &plan,
                    &meta,
                    root,
                    writes,
                    name,
                    target_ino,
                    file_type,
                ) {
                    return Err(e);
                }
                self.commit_block_buffer(buf)
            },
        }
    }
}

} // verus!
