//! Writing file contents: whole, in part, and preallocated.
use crate::allocator::{blocks_for, blocks_for_bytes, BlockAllocationPlan};
use crate::attr::{inode_at, less, path_bytes, unless_refused};
use crate::block_io::BlockDevice;
use crate::bytes::{copy_range, le32, get_u32, overlay, splice, zeroed, zeros};
use crate::commit::{came_out, done, only_in, same_mount, stage_blocks, unit_stage};
use crate::error::{Error, Result};
use crate::extent::{
    block_for, collect_all, extents_of, lemma_extents_short, map_logical, Extent, ExtentHeader, EXT4_EXT_MAGIC,
};
use crate::extent_mut::{build_root, insert_into_leaf, leaf_insert, lengths_fit, node_bytes, LeafInsert};
use crate::file_mut::{runs_small, runs_total, stage_free_runs};
use crate::fs::{checked_inode, Filesystem};
use crate::grow::{as_logical, home_group, stage_block_plan, stage_fresh, volume_plan};
use crate::indirect_mut::replace_indirect_stage;
use crate::inode::{
    block_area_of, flags_of, generation_of, mode_is_file, mode_of, sectors_of, size_of_file, Inode, FL_EXTENTS,
};
use crate::inode_edit::{after_write, root_with, tree_root, with_block_area};
use crate::names::file_runs;
use crate::stage::{stage_counters, stage_inode, stage_mark_blocks, stage_totals, staged};
use crate::volume::{fresh_stage, BlockBuffer, Stage, Vol};
use vstd::prelude::*;
use vstd::string::*;

verus! {

broadcast use crate::bytes::group_fields;

// -- whole contents ---------------------------------------------------------

/// Block `i` of some data, padded with zeros.
pub open spec fn data_block(data: Seq<u8>, i: int, bs: int) -> Seq<u8> {
    splice(
        zeros(bs as nat),
        0,
        data.subrange(
            i * bs,
            if (i + 1) * bs <= data.len() {
                (i + 1) * bs
            } else {
                data.len() as int
            },
        ),
    )
}

/// The stage with the first `n` blocks of some data written from block `first`
/// on.
pub open spec fn stage_data(v: Vol, st: Stage, first: u64, data: Seq<u8>, n: nat) -> Result<Stage>
    decreases n,
{
    if n == 0 {
        Ok(st)
    } else {
        match stage_data(v, st, first, data, (n - 1) as nat) {
            Err(e) => Err(e),
            Ok(before) => stage_fresh(
                v,
                before,
                (first + n - 1) as u64,
                data_block(data, n - 1, v.bs()),
            ),
        }
    }
}

/// The extent of a file that is one run.
pub open spec fn whole_extent(first: u64, n: int) -> Extent {
    Extent { logical_block: 0, length: n as u16, physical_block: first, uninitialized: false }
}

/// What replacing the contents of an extent-mapped file comes to: its blocks
/// are released, one run is taken for the new data and the data written to it.
pub open spec fn replace_stage(v: Vol, ino: u32, raw: Seq<u8>, data: Seq<u8>, now: u32) -> Result<(Stage, u64)> {
    match file_runs(v, raw) {
        Err(e) => Err(e),
        Ok(runs) => match stage_free_runs(v, fresh_stage(v), runs) {
            Err(e) => Err(e),
            Ok(st1) => {
                let freed = runs_total(runs);
                if data.len() == 0 {
                    match (if freed > 0 {
                        stage_totals(v, st1, freed, 0)
                    } else {
                        Ok(st1)
                    }) {
                        Err(e) => Err(e),
                        Ok(st2) => match stage_inode(
                            v,
                            st2,
                            ino,
                            after_write(
                                v,
                                ino,
                                generation_of(raw),
                                with_block_area(raw, root_with(Seq::empty())),
                                0,
                                0,
                                now,
                            ),
                        ) {
                            Err(e) => Err(e),
                            Ok(st3) => Ok((st3, 0u64)),
                        },
                    }
                } else {
                    replace_with_data(v, st1, ino, raw, data, freed, now)
                }
            },
        },
    }
}

/// The rest of a replacement that has data.
pub open spec fn replace_with_data(
    v: Vol,
    st: Stage,
    ino: u32,
    raw: Seq<u8>,
    data: Seq<u8>,
    freed: int,
    now: u32,
) -> Result<(Stage, u64)> {
    let n = blocks_for(data.len() as int, v.bs());
    if n > 32768 {
        Err(Error::Corrupt("no group has a contiguous free run of this size"))
    } else {
        match volume_plan(v, n as u32, home_group(v, ino), Seq::empty()) {
            Err(e) => Err(e),
            Ok(plan) => match stage_mark_blocks(v, st, plan.first_block, n) {
                Err(e) => Err(e),
                Ok(st1) => match stage_counters(
                    v,
                    st1,
                    plan.bgd.group_idx as int,
                    plan.bgd.free_blocks_delta as int,
                    plan.bgd.free_inodes_delta as int,
                    plan.bgd.used_dirs_delta as int,
                ) {
                    Err(e) => Err(e),
                    Ok(st2) => match stage_totals(v, st2, freed - n, 0) {
                        Err(e) => Err(e),
                        Ok(st3) => match stage_data(v, st3, plan.first_block, data, n as nat) {
                            Err(e) => Err(e),
                            Ok(st4) => match stage_inode(
                                v,
                                st4,
                                ino,
                                after_write(
                                    v,
                                    ino,
                                    generation_of(raw),
                                    with_block_area(
                                        raw,
                                        root_with(seq![whole_extent(plan.first_block, n)]),
                                    ),
                                    data.len() as u64,
                                    (n * (v.bs() / 512)) as u64,
                                    now,
                                ),
                            ) {
                                Err(e) => Err(e),
                                Ok(st5) => Ok((st5, data.len() as u64)),
                            },
                        },
                    },
                },
            },
        }
    }
}

/// What replacing a file's contents comes to.
pub open spec fn replaced_content(v: Vol, path: Seq<u8>, data: Seq<u8>, now: u32) -> Result<(Stage, u64)> {
    match inode_at(v, path) {
        Err(e) => Err(e),
        Ok((ino, raw)) => if !mode_is_file(mode_of(raw)) {
            Err(Error::InvalidArgument("write_file target is not a regular file"))
        } else if flags_of(raw) & FL_EXTENTS == 0 {
            replace_indirect_stage(v, ino, raw, data, now)
        } else {
            replace_stage(v, ino, raw, data, now)
        },
    }
}

proof fn lemma_data_error(v: Vol, st: Stage, first: u64, data: Seq<u8>, i: nat, n: nat, e: Error)
    requires
        i <= n,
        stage_data(v, st, first, data, i) == Err::<Stage, Error>(e),
    ensures
        stage_data(v, st, first, data, n) == Err::<Stage, Error>(e),
    decreases n,
{
    if i < n {
        lemma_data_error(v, st, first, data, i, (n - 1) as nat, e);
    }
}

impl<D: BlockDevice> Filesystem<D> {
    /// Stage data block by block from block `first` on.
    pub(crate) fn buffer_put_data(&self, buf: &mut BlockBuffer, first: u64, data: &[u8], n: u32) -> (r: Result<()>)
        requires
            self.wf(),
            old(buf).wf(self@),
            n == blocks_for(data@.len() as int, self@.bs()),
            first + n <= u64::MAX,
        ensures
            final(buf).wf(self@),
            staged(
                stage_data(self@, old(buf).stage(self@), first, data@, n as nat),
                r,
                final(buf).stage(self@),
                self.dev.healthy(),
            ),
    {
        let bs: usize = self.sb.block_size() as usize;
        let ghost st0 = buf.stage(self@);
        let len: usize = data.len();
        let mut i: u32 = 0;
        let mut from: usize = 0;
        while i < n
            invariant
                i <= n,
                self.wf(),
                buf.wf(self@),
                bs == self@.bs(),
                len == data@.len(),
                from == i * bs,
                n == blocks_for(data@.len() as int, self@.bs()),
                first + n <= u64::MAX,
                st0 == old(buf).stage(self@),
                stage_data(self@, st0, first, data@, i as nat) == Ok::<Stage, Error>(buf.stage(self@)),
            decreases n - i,
        {
            proof {
                lemma_block_start(data@.len() as int, bs as int, i as int);
            }
            let to: usize = if len - from > bs {
                from + bs
            } else {
                len
            };
            let mut block: Vec<u8> = zeroed(bs);
            let piece: Vec<u8> = copy_range(data, from, to);
            overlay(&mut block, 0, &piece);
            assert(block@ == data_block(data@, i as int, bs as int));
            if let Err(e) = self.buffer_put_fresh(buf, first + i as u64, block) {
                proof {
                    if stage_data(self@, st0, first, data@, (i + 1) as nat) == Err::<Stage, Error>(e) {
                        lemma_data_error(self@, st0, first, data@, (i + 1) as nat, n as nat, e);
                    }
                }
                return Err(e);
            }
            i += 1;
            if i < n {
                proof {
                    lemma_block_start(data@.len() as int, bs as int, i as int);
                }
                from = from + bs;
            } else {
                from = from;
                return Ok(());
            }
        }
        Ok(())
    }
}

/// Block `i` of `len` bytes starts before their end, and the next at its own.
pub(crate) proof fn lemma_block_start(len: int, bs: int, i: int)
    requires
        len >= 0,
        bs > 0,
        0 <= i < blocks_for(len, bs),
    ensures
        0 <= i * bs < len,
        (i + 1) * bs == i * bs + bs,
{
    crate::superblock::lemma_div_ceil(len, bs);
    vstd::arithmetic::div_mod::lemma_fundamental_div_mod(len, bs);
    let q = len / bs;
    let m = len % bs;
    assert(bs * q == q * bs) by (nonlinear_arith);
    assert((i + 1) * bs == i * bs + bs) by (nonlinear_arith);
    assert(0 <= i * bs) by (nonlinear_arith)
        requires
            0 <= i,
            bs > 0,
    ;
    if m == 0 {
        assert((i + 1) * bs <= q * bs) by (nonlinear_arith)
            requires
                i + 1 <= q,
                bs > 0,
        ;
    } else {
        assert(i * bs <= q * bs) by (nonlinear_arith)
            requires
                i <= q,
                bs > 0,
        ;
    }
}

impl<D: BlockDevice> Filesystem<D> {
    fn buffer_replace_data(
        &self,
        buf: &mut BlockBuffer,
        ino: u32,
        inode: &Inode,
        raw: &[u8],
        data: &[u8],
        freed: u64,
        now: u32,
    ) -> (r: Result<u64>)
        requires
            self.wf(),
            old(buf).wf(self@),
            ino > 0,
            inode.decodes(raw@),
            raw@.len() == self.sb.inode_size,
            freed <= 0x8000_0000_0000,
        ensures
            final(buf).wf(self@),
            match r {
                Ok(n) => replace_with_data(
                    self@,
                    old(buf).stage(self@),
                    ino,
                    raw@,
                    data@,
                    freed as int,
                    now,
                ) == Ok::<(Stage, u64), Error>((final(buf).stage(self@), n)),
                Err(e) => replace_with_data(
                    self@,
                    old(buf).stage(self@),
                    ino,
                    raw@,
                    data@,
                    freed as int,
                    now,
                ) == Err::<(Stage, u64), Error>(e) || (!self.dev.healthy() && e == Error::Io),
            },
    {
        let bs: u64 = self.sb.block_size() as u64;
        let n: u64 = blocks_for_bytes(data.len() as u64, bs);
        if n > 32768 {
            return Err(Error::Corrupt("no group has a contiguous free run of this size"));
        }
        let group: u32 = (ino - 1) / self.sb.inodes_per_group;
        let none: Vec<u64> = Vec::new();
        assert(none@ =~= Seq::<u64>::empty());
        let plan: BlockAllocationPlan = match self.plan_blocks(n as u32, group, &none) {
            Ok(p) => p,
            Err(e) => {
                return Err(e);
            },
        };
        if let Err(e) = self.buffer_mark_block_run_used(buf, plan.first_block, n) {
            return Err(e);
        }
        if let Err(e) = self.buffer_patch_bgd_counters(
            buf,
            plan.bgd.group_idx as usize,
            plan.bgd.free_blocks_delta,
            plan.bgd.free_inodes_delta,
            plan.bgd.used_dirs_delta,
        ) {
            return Err(e);
        }
        if let Err(e) = self.buffer_patch_sb_counters(buf, freed as i64 - n as i64, 0) {
            return Err(e);
        }
        if let Err(e) = self.buffer_put_data(buf, plan.first_block, data, n as u32) {
            return Err(e);
        }
        let mut one: Vec<Extent> = Vec::new();
        one.push(
            Extent {
                logical_block: 0,
                length: n as u16,
                physical_block: plan.first_block,
                uninitialized: false,
            },
        );
        assert(one@ =~= seq![whole_extent(plan.first_block, n as int)]);
        let root: Vec<u8> = tree_root(&one);
        let mut out: Vec<u8> = copy_range(raw, 0, raw.len());
        assert(out@ =~= raw@);
        let placed = Self::patch_inode_block_area(&mut out, &root);
        assert(n * (bs / 512) <= 32768 * 128) by (nonlinear_arith)
            requires
                n <= 32768,
                bs <= 65536,
        ;
        self.finalize_inode_raw_after_write(
            ino,
            inode.generation,
            &mut out,
            data.len() as u64,
            n * (bs / 512),
            now,
        );
        if let Err(e) = self.buffer_write_inode(buf, ino, &out) {
            return Err(e);
        }
        Ok(data.len() as u64)
    }

    fn buffer_replace(
        &self,
        buf: &mut BlockBuffer,
        ino: u32,
        inode: &Inode,
        raw: &[u8],
        data: &[u8],
        now: u32,
    ) -> (r: Result<u64>)
        requires
            self.wf(),
            old(buf).wf(self@),
            old(buf).stage(self@) == fresh_stage(self@),
            ino > 0,
            inode.decodes(raw@),
            raw@.len() == self.sb.inode_size,
        ensures
            final(buf).wf(self@),
            match r {
                Ok(n) => replace_stage(self@, ino, raw@, data@, now) == Ok::<(Stage, u64), Error>(
                    (final(buf).stage(self@), n),
                ),
                Err(e) => replace_stage(self@, ino, raw@, data@, now) == Err::<(Stage, u64), Error>(e) || (
                !self.dev.healthy() && e == Error::Io),
            },
    {
        let runs: Vec<(u64, u32)> = match self.plan_file_runs(inode, Ghost(raw@)) {
            Ok(x) => x,
            Err(e) => {
                return Err(e);
            },
        };
        let freed: u64 = match self.buffer_free_runs(buf, &runs) {
            Ok(n) => n,
            Err(e) => {
                return Err(e);
            },
        };
        if data.len() > 0 {
            return self.buffer_replace_data(buf, ino, inode, raw, data, freed, now);
        }
        if freed > 0 {
            if let Err(e) = self.buffer_patch_sb_counters(buf, freed as i64, 0) {
                return Err(e);
            }
        }
        let none: Vec<Extent> = Vec::new();
        assert(none@ =~= Seq::<Extent>::empty());
        let root: Vec<u8> = tree_root(&none);
        let mut out: Vec<u8> = copy_range(raw, 0, raw.len());
        assert(out@ =~= raw@);
        let placed = Self::patch_inode_block_area(&mut out, &root);
        self.finalize_inode_raw_after_write(ino, inode.generation, &mut out, 0, 0, now);
        if let Err(e) = self.buffer_write_inode(buf, ino, &out) {
            return Err(e);
        }
        Ok(0)
    }

    /// Replace the content of `path` with `data`. The file must already exist.
    /// Frees what it had, takes a single contiguous run of blocks large enough
    /// for `data`, writes the bytes (zero-padding the tail of the last block),
    /// and maps the file to it, all in one commit. Returns the new size.
    pub fn apply_replace_file_content(&mut self, path: &str, data: &[u8], now: u32) -> (r: Result<u64>)
        requires
            old(self).wf(),
        ensures
            final(self).wf(),
            same_mount(*final(self), *old(self)),
            came_out(
                unless_refused(
                    old(self).takes_writes(),
                    old(self)@,
                    done(old(self)@, replaced_content(old(self)@, path_bytes(path), data@, now)),
                ),
                r,
                final(self)@,
                old(self).dev.healthy(),
            ),
            r matches Err(Error::Io) ==> only_in(
                old(self)@,
                final(self)@,
                stage_blocks(replaced_content(old(self)@, path_bytes(path), data@, now)),
            ),
    {
        if let Err(e) = self.refuse_write() {
            return Err(e);
        }
        let (ino, inode, raw): (u32, Inode, Vec<u8>) = match self.inode_at_path(path.as_bytes()) {
            Ok(p) => p,
            Err(e) => {
                return Err(e);
            },
        };
        if !inode.is_file() {
            return Err(Error::InvalidArgument("write_file target is not a regular file"));
        }
        let mut buf: BlockBuffer = BlockBuffer::new(self.sb.block_size());
        assert(buf.wf(self@));
        let written = if inode.has_extents() {
            self.buffer_replace(&mut buf, ino, &inode, &raw, data, now)
        } else {
            self.buffer_replace_indirect(&mut buf, ino, &inode, &raw, data, now)
        };
        match written {
            Err(e) => Err(e),
            Ok(n) => match self.commit_block_buffer(buf) {
                Ok(_) => Ok(n),
                Err(e) => Err(e),
            },
        }
    }
}

// -- preallocation ----------------------------------------------------------

/// Whether any block of a range is mapped.
pub open spec fn any_mapped(v: Vol, root: Seq<u8>, l: int, last: int) -> Result<bool>
    decreases last - l,
{
    if l >= last {
        Ok(false)
    } else {
        match block_for(v.img, v.bs(), root, l) {
            Err(e) => Err(e),
            Ok(Some(_)) => Ok(true),
            Ok(None) => any_mapped(v, root, l + 1, last),
        }
    }
}

/// The file whose blocks are to be allocated or released.
pub open spec fn extent_file(v: Vol, ino: u32, not_file: Error, not_extents: Error) -> Result<Seq<u8>> {
    match checked_inode(v, ino) {
        Err(e) => Err(e),
        Ok(raw) => if !mode_is_file(mode_of(raw)) {
            Err(not_file)
        } else if flags_of(raw) & FL_EXTENTS == 0 {
            Err(not_extents)
        } else {
            Ok(raw)
        },
    }
}

/// A record whose blocks changed and whose size did not.
pub open spec fn reblocked(v: Vol, ino: u32, raw: Seq<u8>, root: Seq<u8>, sectors: u64, now: u32) -> Seq<u8> {
    after_write(
        v,
        ino,
        generation_of(raw),
        with_block_area(raw, root),
        size_of_file(raw),
        sectors,
        now,
    )
}

/// What preallocating a range comes to: one run of unwritten blocks for all of
/// it.
pub open spec fn prealloc_stage(v: Vol, ino: u32, offset: u64, len: u64, now: u32) -> Result<Stage> {
    let first = offset as int / v.bs();
    let last = blocks_for(offset + len, v.bs());
    let n = last - first;
    if offset + len > u64::MAX {
        Err(Error::InvalidArgument("fallocate: offset+len overflow"))
    } else if n > u32::MAX {
        Err(Error::InvalidArgument("fallocate: range exceeds u32 block count"))
    } else {
        match extent_file(
            v,
            ino,
            Error::InvalidArgument("fallocate: target is not a regular file"),
            Error::InvalidArgument("fallocate: legacy (non-extents) inodes not supported"),
        ) {
            Err(e) => Err(e),
            Ok(raw) => match any_mapped(v, block_area_of(raw), first, last) {
                Err(e) => Err(e),
                Ok(true) => Err(
                    Error::InvalidArgument("fallocate: range partially mapped (v1 limitation)"),
                ),
                Ok(false) => if n > i32::MAX {
                    Err(Error::Corrupt("no group has a contiguous free run of this size"))
                } else {
                    match volume_plan(v, n as u32, home_group(v, ino), Seq::empty()) {
                        Err(e) => Err(e),
                        Ok(plan) => if n > 0x7FFF {
                            Err(
                                Error::InvalidArgument(
                                    "fallocate: single-extent length > 32K blocks (split needed)",
                                ),
                            )
                        } else {
                            prealloc_planned(v, ino, raw, first, n, plan, now)
                        },
                    }
                },
            },
        }
    }
}

/// The rest of a preallocation, once its run is known.
pub open spec fn prealloc_planned(
    v: Vol,
    ino: u32,
    raw: Seq<u8>,
    first: int,
    n: int,
    plan: BlockAllocationPlan,
    now: u32,
) -> Result<Stage> {
    let new = Extent {
        logical_block: as_logical(first),
        length: n as u16,
        physical_block: plan.first_block,
        uninitialized: true,
    };
    match leaf_insert(block_area_of(raw), new) {
        Err(e) => Err(e),
        Ok(None) => Err(
            Error::CorruptExtentTree("LEAF_FULL_NEEDS_PROMOTION: root has no slot for new extent"),
        ),
        Ok(Some(root)) => match stage_block_plan(v, fresh_stage(v), plan) {
            Err(e) => Err(e),
            Ok(st) => stage_inode(
                v,
                st,
                ino,
                reblocked(v, ino, raw, root, (sectors_of(raw) + n * (v.bs() / 512)) as u64, now),
            ),
        },
    }
}

/// What is left of an extent before a hole `first..last`, if anything.
pub open spec fn before_hole(e: Extent, first: int, last: int) -> Seq<Extent> {
    let (l, r) = (e.logical_block as int, e.logical_block + e.length);
    if r <= first || l >= last {
        seq![e]
    } else if l < first {
        seq![Extent { length: (first - l) as u16, ..e }]
    } else {
        Seq::empty()
    }
}

/// What is left of an extent behind a hole that reaches into it, if anything.
pub open spec fn after_hole(e: Extent, first: int, last: int) -> Seq<Extent> {
    let (l, r) = (e.logical_block as int, e.logical_block + e.length);
    if !(r <= first || l >= last) && r > last {
        seq![
            Extent {
                logical_block: as_logical(last),
                length: (r - last) as u16,
                physical_block: (e.physical_block + (last - l)) as u64,
                uninitialized: e.uninitialized,
            },
        ]
    } else {
        Seq::empty()
    }
}

/// What an extent gives up to a hole, if anything.
pub open spec fn in_hole(e: Extent, first: int, last: int) -> Seq<(u64, u32)> {
    let (l, r) = (e.logical_block as int, e.logical_block + e.length);
    let lo = if l > first {
        l
    } else {
        first
    };
    let hi = if r < last {
        r
    } else {
        last
    };
    if r <= first || l >= last {
        Seq::empty()
    } else {
        seq![((e.physical_block + (lo - l)) as u64, (hi - lo) as u32)]
    }
}

/// The extents of a file with a hole punched in it.
pub open spec fn punched(extents: Seq<Extent>, first: int, last: int) -> Seq<Extent>
    decreases extents.len(),
{
    if extents.len() == 0 {
        Seq::empty()
    } else {
        punched(extents.drop_last(), first, last) + before_hole(extents.last(), first, last) + after_hole(
            extents.last(),
            first,
            last,
        )
    }
}

/// The runs that punching a hole releases.
pub open spec fn punched_runs(extents: Seq<Extent>, first: int, last: int) -> Seq<(u64, u32)>
    decreases extents.len(),
{
    if extents.len() == 0 {
        Seq::empty()
    } else {
        punched_runs(extents.drop_last(), first, last) + in_hole(extents.last(), first, last)
    }
}

/// What punching a hole comes to: the blocks of the range are released, an
/// extent that straddles an edge keeps the rest.
pub open spec fn punch_stage(v: Vol, ino: u32, offset: u64, len: u64, now: u32) -> Result<Stage> {
    let first = offset as int / v.bs();
    let last = blocks_for(offset + len, v.bs());
    if offset + len > u64::MAX {
        Err(Error::InvalidArgument("punch_hole: offset+len overflow"))
    } else {
        match extent_file(
            v,
            ino,
            Error::InvalidArgument("punch_hole: not a regular file"),
            Error::InvalidArgument("punch_hole: legacy (non-extents) inodes not supported"),
        ) {
            Err(e) => Err(e),
            Ok(raw) => match extents_of(v.img, v.bs(), block_area_of(raw)) {
                Err(e) => Err(e),
                Ok(extents) => if extents.len() > 0x7FFF_FFFF {
                    Err(Error::CorruptExtentTree("extent tree has too many extents"))
                } else {
                    let runs = punched_runs(extents, first, last);
                    let kept = punched(extents, first, last);
                    match stage_free_runs(v, fresh_stage(v), runs) {
                        Err(e) => Err(e),
                        Ok(st1) => if kept.len() > 4 {
                            Err(
                                Error::Corrupt(
                                    "punch_hole: surviving entries exceed inline-root capacity (4); needs depth>=1",
                                ),
                            )
                        } else {
                            let root = node_bytes(
                                ExtentHeader {
                                    magic: EXT4_EXT_MAGIC,
                                    entries: 0,
                                    max: 4,
                                    depth: 0,
                                    generation: le32(block_area_of(raw), 8),
                                },
                                kept,
                                60,
                            );
                            let freed = runs_total(runs);
                            match stage_inode(
                                v,
                                st1,
                                ino,
                                reblocked(
                                    v,
                                    ino,
                                    raw,
                                    root,
                                    less(sectors_of(raw), freed * (v.bs() / 512)),
                                    now,
                                ),
                            ) {
                                Err(e) => Err(e),
                                Ok(st2) => if freed > 0 {
                                    stage_totals(v, st2, freed, 0)
                                } else {
                                    Ok(st2)
                                },
                            }
                        },
                    }
                },
            },
        }
    }
}

/// A commit, or none for an empty range.
pub open spec fn unless_empty(v: Vol, len: u64, r: Result<Stage>) -> (Vol, Result<()>) {
    if len == 0 {
        (v, Ok(()))
    } else {
        done(v, unit_stage(r))
    }
}

impl<D: BlockDevice> Filesystem<D> {
    fn range_mapped(&self, root: &[u8], first: u64, last: u64) -> (r: Result<bool>)
        requires
            self.wf(),
        ensures
            match r {
                Ok(b) => any_mapped(self@, root@, first as int, last as int) == Ok::<bool, Error>(b),
                Err(e) => any_mapped(self@, root@, first as int, last as int) == Err::<bool, Error>(e) || (
                !self.dev.healthy() && e == Error::Io),
            },
    {
        let mut l: u64 = first;
        while l < last
            invariant
                self.wf(),
                any_mapped(self@, root@, first as int, last as int) == any_mapped(
                    self@,
                    root@,
                    l as int,
                    last as int,
                ),
            decreases last - l,
        {
            match map_logical(root, &self.dev, self.sb.block_size(), l) {
                Err(e) => {
                    return Err(e);
                },
                Ok(Some(_)) => {
                    return Ok(true);
                },
                Ok(None) => {},
            }
            l += 1;
        }
        Ok(false)
    }

    fn read_extent_file(&self, ino: u32, not_file: Error, not_extents: Error) -> (r: Result<(Inode, Vec<u8>)>)
        requires
            self.wf(),
        ensures
            match r {
                Ok((inode, raw)) => extent_file(self@, ino, not_file, not_extents) == Ok::<Seq<u8>, Error>(
                    raw@,
                ) && inode.decodes(raw@) && raw@.len() == self.sb.inode_size && ino > 0,
                Err(e) => extent_file(self@, ino, not_file, not_extents) == Err::<Seq<u8>, Error>(e) || (
                !self.dev.healthy() && e == Error::Io),
            },
    {
        let (inode, raw): (Inode, Vec<u8>) = match self.read_inode_verified(ino) {
            Ok(p) => p,
            Err(e) => {
                return Err(e);
            },
        };
        if !inode.is_file() {
            return Err(not_file);
        }
        if !inode.has_extents() {
            return Err(not_extents);
        }
        Ok((inode, raw))
    }

    /// Preallocate blocks for the byte range `[offset, offset+len)` as
    /// unwritten extents: reserved, but read as zeros. `i_size` is unchanged.
    ///
    /// The range must be entirely unmapped, one contiguous run must be free for
    /// it, and the extent must fit in the inode's own root.
    pub fn apply_fallocate_keep_size(&mut self, ino: u32, offset: u64, len: u64, now: u32) -> (r: Result<()>)
        requires
            old(self).wf(),
        ensures
            final(self).wf(),
            same_mount(*final(self), *old(self)),
            came_out(
                unless_refused(
                    old(self).takes_writes(),
                    old(self)@,
                    unless_empty(
                        old(self)@,
                        len,
                        prealloc_stage(old(self)@, ino, offset, len, now),
                    ),
                ),
                r,
                final(self)@,
                old(self).dev.healthy(),
            ),
            r matches Err(Error::Io) ==> only_in(
                old(self)@,
                final(self)@,
                stage_blocks(unit_stage(prealloc_stage(old(self)@, ino, offset, len, now))),
            ),
    {
        if let Err(e) = self.refuse_write() {
            return Err(e);
        }
        if len == 0 {
            return Ok(());
        }
        let bs: u64 = self.sb.block_size() as u64;
        let end: u64 = match offset.checked_add(len) {
            Some(n) => n,
            None => {
                return Err(Error::InvalidArgument("fallocate: offset+len overflow"));
            },
        };
        let first: u64 = offset / bs;
        let last: u64 = blocks_for_bytes(end, bs);
        proof {
            lemma_range_blocks(offset as int, end as int, bs as int);
        }
        let n: u64 = last - first;
        if n > u32::MAX as u64 {
            return Err(Error::InvalidArgument("fallocate: range exceeds u32 block count"));
        }
        let (inode, raw): (Inode, Vec<u8>) = match self.read_extent_file(
            ino,
            Error::InvalidArgument("fallocate: target is not a regular file"),
            Error::InvalidArgument("fallocate: legacy (non-extents) inodes not supported"),
        ) {
            Ok(p) => p,
            Err(e) => {
                return Err(e);
            },
        };
        match self.range_mapped(&inode.block, first, last) {
            Err(e) => {
                return Err(e);
            },
            Ok(true) => {
                return Err(
                    Error::InvalidArgument("fallocate: range partially mapped (v1 limitation)"),
                );
            },
            Ok(false) => {},
        }
        if n > i32::MAX as u64 {
            return Err(Error::Corrupt("no group has a contiguous free run of this size"));
        }
        let none: Vec<u64> = Vec::new();
        assert(none@ =~= Seq::<u64>::empty());
        let plan: BlockAllocationPlan = match self.plan_blocks(
            n as u32,
            (ino - 1) / self.sb.inodes_per_group,
            &none,
        ) {
            Ok(p) => p,
            Err(e) => {
                return Err(e);
            },
        };
        if n > 0x7FFF {
            return Err(
                Error::InvalidArgument("fallocate: single-extent length > 32K blocks (split needed)"),
            );
        }
        let new = Extent {
            logical_block: (first % 0x1_0000_0000) as u32,
            length: n as u16,
            physical_block: plan.first_block,
            uninitialized: true,
        };
        let root: Vec<u8> = match insert_into_leaf(&inode.block, new) {
            Err(e) => {
                return Err(e);
            },
            Ok(LeafInsert::Full) => {
                return Err(
                    Error::CorruptExtentTree(
                        "LEAF_FULL_NEEDS_PROMOTION: root has no slot for new extent",
                    ),
                );
            },
            Ok(LeafInsert::Written(b)) => b,
        };
        let mut buf: BlockBuffer = BlockBuffer::new(self.sb.block_size());
        assert(buf.wf(self@));
        if let Err(e) = self.buffer_apply_block_plan(&mut buf, &plan) {
            return Err(e);
        }
        let mut out: Vec<u8> = raw;
        let placed = Self::patch_inode_block_area(&mut out, &root);
        assert(n * (bs / 512) <= 32768 * 128) by (nonlinear_arith)
            requires
                n <= 32768,
                bs <= 65536,
        ;
        let sectors: u64 = inode.blocks + n * (bs / 512);
        self.finalize_inode_raw_after_write(
            ino,
            inode.generation,
            &mut out,
            inode.size,
            sectors,
            now,
        );
        if let Err(e) = self.buffer_write_inode(&mut buf, ino, &out) {
            return Err(e);
        }
        self.commit_block_buffer(buf)
    }

    /// Free the data blocks under `[offset, offset+len)`, splitting extents
    /// that straddle an edge. Reads of the range return zeros thereafter;
    /// `i_size` is unchanged. What is left must fit in the inode's own root.
    pub fn apply_fallocate_punch_hole(&mut self, ino: u32, offset: u64, len: u64, now: u32) -> (r: Result<()>)
        requires
            old(self).wf(),
        ensures
            final(self).wf(),
            same_mount(*final(self), *old(self)),
            came_out(
                unless_refused(
                    old(self).takes_writes(),
                    old(self)@,
                    unless_empty(old(self)@, len, punch_stage(old(self)@, ino, offset, len, now)),
                ),
                r,
                final(self)@,
                old(self).dev.healthy(),
            ),
            r matches Err(Error::Io) ==> only_in(
                old(self)@,
                final(self)@,
                stage_blocks(unit_stage(punch_stage(old(self)@, ino, offset, len, now))),
            ),
    {
        if let Err(e) = self.refuse_write() {
            return Err(e);
        }
        if len == 0 {
            return Ok(());
        }
        let bs: u64 = self.sb.block_size() as u64;
        let end: u64 = match offset.checked_add(len) {
            Some(n) => n,
            None => {
                return Err(Error::InvalidArgument("punch_hole: offset+len overflow"));
            },
        };
        let first: u64 = offset / bs;
        let last: u64 = blocks_for_bytes(end, bs);
        let (inode, raw): (Inode, Vec<u8>) = match self.read_extent_file(
            ino,
            Error::InvalidArgument("punch_hole: not a regular file"),
            Error::InvalidArgument("punch_hole: legacy (non-extents) inodes not supported"),
        ) {
            Ok(p) => p,
            Err(e) => {
                return Err(e);
            },
        };
        let extents: Vec<Extent> = match collect_all(&inode.block, &self.dev, self.sb.block_size()) {
            Ok(x) => x,
            Err(e) => {
                return Err(e);
            },
        };
        if extents.len() as u64 > 0x7FFF_FFFF {
            return Err(Error::CorruptExtentTree("extent tree has too many extents"));
        }
        proof {
            lemma_extents_short(self@.img, self@.bs(), inode.block@);
            lemma_range_blocks(offset as int, end as int, bs as int);
        }
        let (kept, runs): (Vec<Extent>, Vec<(u64, u32)>) = punch_extents(&extents, first, last);
        let mut buf: BlockBuffer = BlockBuffer::new(self.sb.block_size());
        assert(buf.wf(self@));
        let freed: u64 = match self.buffer_free_runs(&mut buf, &runs) {
            Ok(n) => n,
            Err(e) => {
                return Err(e);
            },
        };
        if kept.len() > 4 {
            return Err(
                Error::Corrupt(
                    "punch_hole: surviving entries exceed inline-root capacity (4); needs depth>=1",
                ),
            );
        }
        let header = ExtentHeader {
            magic: EXT4_EXT_MAGIC,
            entries: 0,
            max: 4,
            depth: 0,
            generation: get_u32(&inode.block, 8),
        };
        let root: Vec<u8> = build_root(&header, &kept, 60);
        let mut out: Vec<u8> = raw;
        let placed = Self::patch_inode_block_area(&mut out, &root);
        assert(0 <= freed * (bs / 512) <= 0x8000_0000_0000 * 128) by (nonlinear_arith)
            requires
                0 <= freed <= 0x8000_0000_0000,
                0 <= bs <= 65536,
        ;
        let freed_sectors: u64 = freed * (bs / 512);
        let sectors: u64 = if inode.blocks < freed_sectors {
            0
        } else {
            inode.blocks - freed_sectors
        };
        self.finalize_inode_raw_after_write(
            ino,
            inode.generation,
            &mut out,
            inode.size,
            sectors,
            now,
        );
        if let Err(e) = self.buffer_write_inode(&mut buf, ino, &out) {
            return Err(e);
        }
        if freed > 0 {
            if let Err(e) = self.buffer_patch_sb_counters(&mut buf, freed as i64, 0) {
                return Err(e);
            }
        }
        self.commit_block_buffer(buf)
    }

    /// Logically zero the byte range `[offset, offset+len)` without writing
    /// data: the range is punched out and preallocated again, in two
    /// commits.
    pub fn apply_fallocate_zero_range(&mut self, ino: u32, offset: u64, len: u64, now: u32) -> (r: Result<()>)
        requires
            old(self).wf(),
        ensures
            final(self).wf(),
            same_mount(*final(self), *old(self)),
            came_out(
                zeroed_range(old(self).takes_writes(), old(self)@, ino, offset, len, now),
                r,
                final(self)@,
                old(self).dev.healthy(),
            ),
            r matches Err(Error::Io) ==> zeroed_cut(
                old(self)@,
                ino,
                offset,
                len,
                now,
                final(self)@,
            ),
    {
        if len == 0 {
            return Ok(());
        }
        if let Err(e) = self.apply_fallocate_punch_hole(ino, offset, len, now) {
            return Err(e);
        }
        self.apply_fallocate_keep_size(ino, offset, len, now)
    }
}

/// What zeroing a range comes to.
pub open spec fn zeroed_range(writable: bool, v: Vol, ino: u32, offset: u64, len: u64, now: u32) -> (
    Vol,
    Result<()>,
) {
    if len == 0 {
        (v, Ok(()))
    } else {
        let (v1, r) = unless_refused(
            writable,
            v,
            unless_empty(v, len, punch_stage(v, ino, offset, len, now)),
        );
        match r {
            Err(e) => (v1, Err(e)),
            Ok(_) => unless_refused(
                writable,
                v1,
                unless_empty(v1, len, prealloc_stage(v1, ino, offset, len, now)),
            ),
        }
    }
}

/// What a device that fails the zeroing of a range may leave.
pub open spec fn zeroed_cut(v: Vol, ino: u32, offset: u64, len: u64, now: u32, post: Vol) -> bool {
    let punched = unit_stage(punch_stage(v, ino, offset, len, now));
    let (v1, r) = done(v, punched);
    ||| only_in(v, post, stage_blocks(punched))
    ||| r is Ok && only_in(v1, post, stage_blocks(unit_stage(prealloc_stage(v1, ino, offset, len, now))))
}

/// A range that is not empty has a block.
pub(crate) proof fn lemma_range_blocks(offset: int, end: int, bs: int)
    requires
        0 <= offset < end,
        bs > 0,
    ensures
        offset / bs < blocks_for(end, bs),
{
    crate::superblock::lemma_div_ceil(end, bs);
    vstd::arithmetic::div_mod::lemma_fundamental_div_mod(end, bs);
    vstd::arithmetic::div_mod::lemma_fundamental_div_mod(offset, bs);
    let q = end / bs;
    let p = offset / bs;
    if end % bs == 0 {
        assert(p < q) by (nonlinear_arith)
            requires
                offset == bs * p + offset % bs,
                0 <= offset % bs,
                end == bs * q,
                offset < end,
                bs > 0,
        ;
    } else {
        assert(p <= q) by (nonlinear_arith)
            requires
                offset == bs * p + offset % bs,
                0 <= offset % bs,
                end == bs * q + end % bs,
                end % bs < bs,
                offset < end,
                bs > 0,
        ;
    }
}

/// The extents left by a hole, and the runs it releases.
fn punch_extents(extents: &[Extent], first: u64, last: u64) -> (r: (Vec<Extent>, Vec<(u64, u32)>))
    requires
        first < last,
        extents@.len() <= 0x7FFF_FFFF,
        forall|i: int| 0 <= i < extents@.len() ==> (#[trigger] extents@[i]).length <= 32768,
        forall|i: int|
            0 <= i < extents@.len() ==> (#[trigger] extents@[i]).physical_block < 0x1_0000_0000_0000 && (
            extents@[i].uninitialized ==> extents@[i].length <= 32767),
    ensures
        r.0@ == punched(extents@, first as int, last as int),
        r.1@ == punched_runs(extents@, first as int, last as int),
        lengths_fit(r.0@),
        runs_small(r.1@),
        r.1@.len() <= extents@.len(),
{
    let mut kept: Vec<Extent> = Vec::new();
    let mut runs: Vec<(u64, u32)> = Vec::new();
    let mut i: usize = 0;
    assert(extents@.take(0) =~= Seq::<Extent>::empty());
    while i < extents.len()
        invariant
            first < last,
            i <= extents@.len() <= 0x7FFF_FFFF,
            forall|k: int| 0 <= k < extents@.len() ==> (#[trigger] extents@[k]).length <= 32768,
            forall|k: int|
                0 <= k < extents@.len() ==> (#[trigger] extents@[k]).physical_block < 0x1_0000_0000_0000
                    && (extents@[k].uninitialized ==> extents@[k].length <= 32767),
            kept@ == punched(extents@.take(i as int), first as int, last as int),
            runs@ == punched_runs(extents@.take(i as int), first as int, last as int),
            lengths_fit(kept@),
            runs_small(runs@),
            runs@.len() <= i,
        decreases extents@.len() - i,
    {
        let e: Extent = extents[i];
        assert(extents@[i as int] == e);
        let ghost kept0 = kept@;
        let ghost runs0 = runs@;
        let el: u64 = e.logical_block as u64;
        let er: u64 = el + e.length as u64;
        if er <= first || el >= last {
            kept.push(e);
        } else {
            let lo: u64 = if el > first {
                el
            } else {
                first
            };
            let hi: u64 = if er < last {
                er
            } else {
                last
            };
            runs.push((e.physical_block + (lo - el), (hi - lo) as u32));
            if el < first {
                kept.push(
                    Extent {
                        logical_block: e.logical_block,
                        length: (first - el) as u16,
                        physical_block: e.physical_block,
                        uninitialized: e.uninitialized,
                    },
                );
            }
            if er > last {
                kept.push(
                    Extent {
                        logical_block: (last % 0x1_0000_0000) as u32,
                        length: (er - last) as u16,
                        physical_block: e.physical_block + (last - el),
                        uninitialized: e.uninitialized,
                    },
                );
            }
        }
        i += 1;
        proof {
            assert(extents@.take(i as int).drop_last() =~= extents@.take(i - 1));
            assert(extents@.take(i as int).last() == e);
            assert(kept@ =~= kept0 + before_hole(e, first as int, last as int) + after_hole(
                e,
                first as int,
                last as int,
            ));
            assert(runs@ =~= runs0 + in_hole(e, first as int, last as int));
        }
    }
    assert(extents@.take(i as int) =~= extents@);
    (kept, runs)
}

/// A hole takes from an extent exactly the blocks in the range: what is left
/// covers the rest, where it was.
pub proof fn law_hole_is_exact(e: Extent, first: int, last: int, l: int)
    requires
        0 <= first < last,
        e.length <= 32768,
        e.physical_block < 0x1_0000_0000_0000,
        last <= u32::MAX,
    ensures
        ({
            let left = before_hole(e, first, last) + after_hole(e, first, last);
            &&& e.covers(l) && !(first <= l < last) ==> exists|i: int|
                0 <= i < left.len() && #[trigger] left[i].covers(l) && left[i].place(l) == e.place(l)
            &&& first <= l < last ==> forall|i: int| 0 <= i < left.len() ==> !#[trigger] left[i].covers(l)
        }),
{
    let b = before_hole(e, first, last);
    let a = after_hole(e, first, last);
    let left = b + a;
    if e.covers(l) && !(first <= l < last) {
        if b.len() > 0 && b[0].covers(l) {
            assert(left[0].covers(l) && left[0].place(l) == e.place(l));
        } else {
            assert(a.len() == 1 && a[0].covers(l));
            assert(left[b.len() as int] == a[0]);
            assert(left[b.len() as int].covers(l) && left[b.len() as int].place(l) == e.place(l));
        }
    }
}

} // verus!
