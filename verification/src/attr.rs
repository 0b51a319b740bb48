//! Operations that change one inode: mode, owner, flags, times, size.
use crate::block_io::{block_at, BlockDevice};
use crate::bytes::{get_u16, le16, le32, put16, put32, set_u16, set_u32};
use crate::checksum::{high16, low16};
use crate::commit::{came_out, done, only_in, same_mount, stage_blocks, unit_stage};
use crate::dirops::resolve;
use crate::error::{Error, Result};
use crate::extent::{block_for, map_logical};
use crate::file_mut::{plan_truncate_shrink, runs_total, shrink_planned, stage_free_runs, ShrinkPlan};
use crate::fs::{checked_inode, write_refusal, Filesystem};
use crate::inode::{
    block_area_of, encode_extra_time, flags_of, generation_of, mode_of, sectors_of, size_of_file, time_fields, time_of,
    Inode, FL_EA_INODE, FL_EXTENTS, FL_INLINE_DATA, MAX_ENCODABLE_TIME, MIN_ENCODABLE_TIME, OFF_CTIME, OFF_FLAGS,
    OFF_MODE, S_IFMT,
};
use crate::inode_edit::{with_block_area, with_size_and_blocks};
use crate::stage::{stage_inode, stage_totals, staged};
use crate::volume::{fresh_stage, stage_block, BlockBuffer, Stage, Vol};
use vstd::prelude::*;
use vstd::string::*;

verus! {

broadcast use crate::bytes::group_fields;

/// In place of a seconds value: leave that timestamp unchanged. No time the
/// format can store is this far back.
pub const TIME_OMIT: i64 = i64::MIN;

/// Flags that say how an inode's contents are laid out: changing one without
/// rewriting the contents would make them unreadable.
pub const FL_MANAGED: u32 = FL_EXTENTS | FL_INLINE_DATA | FL_EA_INODE;

/// A path's bytes.
pub open spec fn path_bytes(path: &str) -> Seq<u8> {
    path.spec_bytes()
}

/// What a write comes to where it may be refused before it starts.
pub open spec fn unless_refused<T>(writable: bool, v: Vol, want: (Vol, Result<T>)) -> (Vol, Result<T>) {
    match write_refusal(writable, v) {
        Some(e) => (v, Err(e)),
        None => want,
    }
}

/// The inode that a path leads to, with its record.
pub open spec fn inode_at(v: Vol, path: Seq<u8>) -> Result<(u32, Seq<u8>)> {
    match resolve(v, path) {
        Err(e) => Err(e),
        Ok(ino) => match checked_inode(v, ino) {
            Err(e) => Err(e),
            Ok(raw) => Ok((ino, raw)),
        },
    }
}

/// The stage with an edited record stamped and in its place.
pub open spec fn stage_edited(v: Vol, ino: u32, generation: u32, edited: Seq<u8>) -> Result<Stage> {
    stage_inode(v, fresh_stage(v), ino, v.csum.stamp_inode_spec(ino, generation, edited))
}

/// A record with its permission bits replaced and its ctime set. The type bits
/// stay.
pub open spec fn chmodded(raw: Seq<u8>, mode: u16, now: u32) -> Seq<u8> {
    put32(put16(raw, 0x00, (mode_of(raw) & S_IFMT) | (mode & 0x0FFF)), 0x0C, now)
}

/// What changing a mode comes to.
pub open spec fn chmod_stage(v: Vol, path: Seq<u8>, mode: u16, now: u32) -> Result<Stage> {
    match inode_at(v, path) {
        Err(e) => Err(e),
        Ok((ino, raw)) => stage_edited(v, ino, generation_of(raw), chmodded(raw, mode, now)),
    }
}

/// A record with its owner replaced, where one is given, and its ctime set.
pub open spec fn chowned(raw: Seq<u8>, uid: u32, gid: u32, now: u32) -> Seq<u8> {
    let r1 = if uid != u32::MAX {
        put16(put16(raw, 0x02, low16(uid)), 0x78, high16(uid))
    } else {
        raw
    };
    let r2 = if gid != u32::MAX {
        put16(put16(r1, 0x18, low16(gid)), 0x7A, high16(gid))
    } else {
        r1
    };
    put32(r2, 0x0C, now)
}

/// What changing an owner comes to.
pub open spec fn chown_stage(v: Vol, path: Seq<u8>, uid: u32, gid: u32, now: u32) -> Result<Stage> {
    match inode_at(v, path) {
        Err(e) => Err(e),
        Ok((ino, raw)) => stage_edited(v, ino, generation_of(raw), chowned(raw, uid, gid, now)),
    }
}

/// What setting flags comes to.
pub open spec fn set_flags_stage(v: Vol, path: Seq<u8>, flags: u32, now: u32) -> Result<Stage> {
    match inode_at(v, path) {
        Err(e) => Err(e),
        Ok((ino, raw)) => if (flags ^ flags_of(raw)) & FL_MANAGED != 0 {
            Err(Error::InvalidArgument("set_flags: cannot modify internally-managed inode flags"))
        } else {
            stage_edited(
                v,
                ino,
                generation_of(raw),
                put32(put32(raw, 0x20, flags), 0x0C, now),
            )
        },
    }
}

/// Whether a seconds value is one that can be stored, or left out.
pub open spec fn time_storable(secs: i64) -> bool {
    secs == TIME_OMIT || MIN_ENCODABLE_TIME <= secs <= MAX_ENCODABLE_TIME
}

/// The extra size a record says it has.
pub open spec fn extra_size(raw: Seq<u8>) -> int {
    if raw.len() >= 0x82 {
        le16(raw, 0x80) as int
    } else {
        0
    }
}

/// An `*_extra` word: nanoseconds above the two epoch bits.
pub open spec fn extra_word(nsec: u32, epoch: u32) -> u32 {
    ((nsec % 0x4000_0000) * 4 + epoch) as u32
}

/// Whether a record has an `*_extra` word for the modification time.
pub open spec fn has_mtime_extra(raw: Seq<u8>) -> bool {
    extra_size(raw) >= 12 && raw.len() >= 0x8C
}

/// Whether a record has an `*_extra` word for the access time.
pub open spec fn has_atime_extra(raw: Seq<u8>) -> bool {
    extra_size(raw) >= 16 && raw.len() >= 0x90
}

/// A record with its times replaced, where they are given, and its ctime set.
pub open spec fn utimed(raw: Seq<u8>, asec: i64, ansec: u32, msec: i64, mnsec: u32, now: u32) -> Seq<u8> {
    let (abase, aepoch) = time_fields(asec as int);
    let (mbase, mepoch) = time_fields(msec as int);
    let r1 = if asec != TIME_OMIT {
        put32(raw, 0x08, abase)
    } else {
        raw
    };
    let r2 = if msec != TIME_OMIT {
        put32(r1, 0x10, mbase)
    } else {
        r1
    };
    let r3 = put32(r2, 0x0C, now);
    let r4 = if extra_size(raw) >= 8 && raw.len() >= 0x88 {
        put32(r3, 0x84, 0)
    } else {
        r3
    };
    let r5 = if msec != TIME_OMIT && has_mtime_extra(raw) {
        put32(r4, 0x88, extra_word(mnsec, mepoch))
    } else {
        r4
    };
    if asec != TIME_OMIT && has_atime_extra(raw) {
        put32(r5, 0x8C, extra_word(ansec, aepoch))
    } else {
        r5
    }
}

/// What setting times comes to.
pub open spec fn utimens_stage(v: Vol, path: Seq<u8>, asec: i64, ansec: u32, msec: i64, mnsec: u32, now: u32) -> Result<
    Stage,
> {
    if !time_storable(asec) || !time_storable(msec) {
        Err(Error::InvalidArgument("timestamp outside the range ext4 can store (1901..2446)"))
    } else {
        match inode_at(v, path) {
            Err(e) => Err(e),
            Ok((ino, raw)) => if (msec != TIME_OMIT && time_fields(msec as int).1 != 0
                && !has_mtime_extra(raw)) || (asec != TIME_OMIT && time_fields(asec as int).1 != 0
                && !has_atime_extra(raw)) {
                Err(
                    Error::InvalidArgument(
                        "timestamp past 2038 needs an *_extra field this inode is too small to hold",
                    ),
                )
            } else {
                stage_edited(
                    v,
                    ino,
                    generation_of(raw),
                    utimed(raw, asec, ansec, msec, mnsec, now),
                )
            },
        }
    }
}

/// What growing a file comes to: the new range is a hole.
pub open spec fn grow_stage(v: Vol, ino: u32, new_size: u64, now: u32) -> Result<Stage> {
    match checked_inode(v, ino) {
        Err(e) => Err(e),
        Ok(raw) => if new_size < size_of_file(raw) {
            Err(
                Error::InvalidArgument(
                    "apply_truncate_grow: new_size < old_size (use apply_truncate_shrink)",
                ),
            )
        } else {
            stage_edited(
                v,
                ino,
                generation_of(raw),
                put32(
                    put32(with_size_and_blocks(raw, new_size, sectors_of(raw)), 0x0C, now),
                    0x10,
                    now,
                ),
            )
        },
    }
}

/// `a - b`, not below zero.
pub open spec fn less(a: u64, b: int) -> u64 {
    if a < b {
        0
    } else {
        (a - b) as u64
    }
}

/// A block with everything from byte `from` on zero.
pub open spec fn zeroed_from(b: Seq<u8>, from: int) -> Seq<u8> {
    Seq::new(
        b.len(),
        |j: int|
            if j < from {
                b[j]
            } else {
                0u8
            },
    )
}

/// The stage with the rest of a file's last block zero, for a file of `size`
/// bytes whose tree has its root in `area`.
pub open spec fn tail_cleared(v: Vol, st: Stage, area: Seq<u8>, size: int) -> Result<Stage> {
    if size % v.bs() == 0 {
        Ok(st)
    } else {
        match block_for(v.img, v.bs(), area, size / v.bs()) {
            Err(e) => Err(e),
            Ok(None) => Ok(st),
            Ok(Some(p)) => match block_at(st.img, v.bs(), p as int) {
                Err(e) => Err(e),
                Ok(b) => Ok(stage_block(v, st, p as int, zeroed_from(b, size % v.bs()))),
            },
        }
    }
}

/// The stage with a file's extents past its new end released, its record
/// rewritten and the counts raised.
pub open spec fn cut_stage(v: Vol, ino: u32, raw: Seq<u8>, new_size: u64) -> Result<Stage> {
    match shrink_planned(block_area_of(raw), new_size as int, v.bs()) {
        Err(e) => Err(e),
        Ok((root, runs)) => match stage_free_runs(v, fresh_stage(v), runs) {
            Err(e) => Err(e),
            Ok(st1) => {
                let freed = runs_total(runs);
                let sectors = less(sectors_of(raw), freed * (v.bs() / 512));
                match stage_inode(
                    v,
                    st1,
                    ino,
                    v.csum.stamp_inode_spec(
                        ino,
                        generation_of(raw),
                        with_size_and_blocks(with_block_area(raw, root), new_size, sectors),
                    ),
                ) {
                    Err(e) => Err(e),
                    Ok(st2) => if freed > 0 {
                        stage_totals(v, st2, freed, 0)
                    } else {
                        Ok(st2)
                    },
                }
            },
        },
    }
}

/// What cutting a file short comes to: its extents past the new end are
/// released and the counts raised, and the rest of its last block is zero, so
/// that nothing of what was cut off comes back when the file grows.
pub open spec fn shrink_stage(v: Vol, ino: u32, new_size: u64) -> Result<Stage> {
    match checked_inode(v, ino) {
        Err(e) => Err(e),
        Ok(raw) => if new_size > size_of_file(raw) {
            Err(Error::InvalidArgument("truncate: new_size > old_size (grow not supported)"))
        } else {
            match cut_stage(v, ino, raw, new_size) {
                Err(e) => Err(e),
                Ok(st) => tail_cleared(v, st, block_area_of(raw), new_size as int),
            }
        },
    }
}

/// Pack nanoseconds above the two epoch bits of an `*_extra` word.
pub fn pack_nsec_lo(nsec: u32) -> (r: u32)
    ensures
        r == extra_word(nsec, 0),
{
    (nsec % 0x4000_0000) * 4
}

impl<D: BlockDevice> Filesystem<D> {
    /// The inode at a path, with its record.
    pub(crate) fn inode_at_path(&self, path: &[u8]) -> (r: Result<(u32, Inode, Vec<u8>)>)
        requires
            self.wf(),
        ensures
            match r {
                Ok((ino, inode, raw)) => inode_at(self@, path@) == Ok::<(u32, Seq<u8>), Error>((ino, raw@))
                    && inode.decodes(raw@) && raw@.len() == self.sb.inode_size,
                Err(e) => inode_at(self@, path@) == Err::<(u32, Seq<u8>), Error>(e) || (
                !self.dev.healthy() && e == Error::Io),
            },
    {
        let ino: u32 = match self.lookup_path(path) {
            Ok(i) => i,
            Err(e) => {
                return Err(e);
            },
        };
        match self.read_inode_verified(ino) {
            Ok((inode, raw)) => Ok((ino, inode, raw)),
            Err(e) => Err(e),
        }
    }

    /// Stamp an edited record and commit it.
    fn commit_edited(&mut self, ino: u32, generation: u32, raw: Vec<u8>) -> (r: Result<()>)
        requires
            old(self).wf(),
            old(self).takes_writes(),
        ensures
            final(self).wf(),
            same_mount(*final(self), *old(self)),
            came_out(
                done(old(self)@, unit_stage(stage_edited(old(self)@, ino, generation, raw@))),
                r,
                final(self)@,
                old(self).dev.healthy(),
            ),
            r matches Err(Error::Io) ==> only_in(
                old(self)@,
                final(self)@,
                stage_blocks(unit_stage(stage_edited(old(self)@, ino, generation, raw@))),
            ),
    {
        let mut raw = raw;
        self.finalize_inode_raw(ino, generation, &mut raw);
        self.commit_inode_write(ino, &raw)
    }

    /// Change the permission bits on `path`. Only the low 12 bits of `mode`
    /// are applied; the file-type bits are preserved from the existing inode.
    /// Sets ctime to `now`.
    pub fn apply_chmod(&mut self, path: &str, mode: u16, now: u32) -> (r: Result<()>)
        requires
            old(self).wf(),
        ensures
            final(self).wf(),
            same_mount(*final(self), *old(self)),
            came_out(
                unless_refused(
                    old(self).takes_writes(),
                    old(self)@,
                    done(old(self)@, unit_stage(chmod_stage(old(self)@, path_bytes(path), mode, now))),
                ),
                r,
                final(self)@,
                old(self).dev.healthy(),
            ),
            r matches Err(Error::Io) ==> only_in(
                old(self)@,
                final(self)@,
                stage_blocks(unit_stage(chmod_stage(old(self)@, path_bytes(path), mode, now))),
            ),
    {
        if let Err(e) = self.refuse_write() {
            return Err(e);
        }
        let (ino, inode, mut raw): (u32, Inode, Vec<u8>) = match self.inode_at_path(path.as_bytes()) {
            Ok(p) => p,
            Err(e) => {
                return Err(e);
            },
        };
        let new_mode: u16 = (inode.mode & S_IFMT) | (mode & 0x0FFF);
        set_u16(&mut raw, OFF_MODE, new_mode);
        set_u32(&mut raw, OFF_CTIME, now);
        self.commit_edited(ino, inode.generation, raw)
    }

    /// Change the owner of `path` to (`uid`, `gid`). Passing `u32::MAX` for
    /// either leaves that value untouched. Sets ctime to `now`.
    pub fn apply_chown(&mut self, path: &str, uid: u32, gid: u32, now: u32) -> (r: Result<()>)
        requires
            old(self).wf(),
        ensures
            final(self).wf(),
            same_mount(*final(self), *old(self)),
            came_out(
                unless_refused(
                    old(self).takes_writes(),
                    old(self)@,
                    done(
                        old(self)@,
                        unit_stage(chown_stage(old(self)@, path_bytes(path), uid, gid, now)),
                    ),
                ),
                r,
                final(self)@,
                old(self).dev.healthy(),
            ),
            r matches Err(Error::Io) ==> only_in(
                old(self)@,
                final(self)@,
                stage_blocks(unit_stage(chown_stage(old(self)@, path_bytes(path), uid, gid, now))),
            ),
    {
        if let Err(e) = self.refuse_write() {
            return Err(e);
        }
        let (ino, inode, mut raw): (u32, Inode, Vec<u8>) = match self.inode_at_path(path.as_bytes()) {
            Ok(p) => p,
            Err(e) => {
                return Err(e);
            },
        };
        if uid != u32::MAX {
            set_u16(&mut raw, 0x02, (uid % 0x1_0000) as u16);
            set_u16(&mut raw, 0x78, (uid / 0x1_0000) as u16);
        }
        if gid != u32::MAX {
            set_u16(&mut raw, 0x18, (gid % 0x1_0000) as u16);
            set_u16(&mut raw, 0x7A, (gid / 0x1_0000) as u16);
        }
        set_u32(&mut raw, OFF_CTIME, now);
        self.commit_edited(ino, inode.generation, raw)
    }

    /// Set the `i_flags` field for the inode at `path`. Flags that say how the
    /// contents are laid out cannot be flipped. Sets ctime to `now`.
    pub fn apply_set_flags(&mut self, path: &str, flags: u32, now: u32) -> (r: Result<()>)
        requires
            old(self).wf(),
        ensures
            final(self).wf(),
            same_mount(*final(self), *old(self)),
            came_out(
                unless_refused(
                    old(self).takes_writes(),
                    old(self)@,
                    done(
                        old(self)@,
                        unit_stage(set_flags_stage(old(self)@, path_bytes(path), flags, now)),
                    ),
                ),
                r,
                final(self)@,
                old(self).dev.healthy(),
            ),
            r matches Err(Error::Io) ==> only_in(
                old(self)@,
                final(self)@,
                stage_blocks(unit_stage(set_flags_stage(old(self)@, path_bytes(path), flags, now))),
            ),
    {
        if let Err(e) = self.refuse_write() {
            return Err(e);
        }
        let (ino, inode, mut raw): (u32, Inode, Vec<u8>) = match self.inode_at_path(path.as_bytes()) {
            Ok(p) => p,
            Err(e) => {
                return Err(e);
            },
        };
        if (flags ^ inode.flags) & FL_MANAGED != 0 {
            return Err(
                Error::InvalidArgument("set_flags: cannot modify internally-managed inode flags"),
            );
        }
        set_u32(&mut raw, OFF_FLAGS, flags);
        set_u32(&mut raw, OFF_CTIME, now);
        self.commit_edited(ino, inode.generation, raw)
    }

    /// Set the access + modification times on `path`, as `utimensat(2)`.
    /// [`TIME_OMIT`] in place of either seconds value leaves that time
    /// unchanged. ctime becomes `now`.
    ///
    /// A time the format cannot hold is refused, and so is one that needs the
    /// epoch bits on an inode too small to have them.
    pub fn apply_utimens(
        &mut self,
        path: &str,
        atime_sec: i64,
        atime_nsec: u32,
        mtime_sec: i64,
        mtime_nsec: u32,
        now: u32,
    ) -> (r: Result<()>)
        requires
            old(self).wf(),
        ensures
            final(self).wf(),
            same_mount(*final(self), *old(self)),
            came_out(
                unless_refused(
                    old(self).takes_writes(),
                    old(self)@,
                    done(
                        old(self)@,
                        unit_stage(
                            utimens_stage(
                                old(self)@,
                                path_bytes(path),
                                atime_sec,
                                atime_nsec,
                                mtime_sec,
                                mtime_nsec,
                                now,
                            ),
                        ),
                    ),
                ),
                r,
                final(self)@,
                old(self).dev.healthy(),
            ),
            r matches Err(Error::Io) ==> only_in(
                old(self)@,
                final(self)@,
                stage_blocks(
                    unit_stage(
                        utimens_stage(
                            old(self)@,
                            path_bytes(path),
                            atime_sec,
                            atime_nsec,
                            mtime_sec,
                            mtime_nsec,
                            now,
                        ),
                    ),
                ),
            ),
    {
        if let Err(e) = self.refuse_write() {
            return Err(e);
        }
        if (atime_sec != TIME_OMIT && (atime_sec < MIN_ENCODABLE_TIME || atime_sec
            > MAX_ENCODABLE_TIME)) || (mtime_sec != TIME_OMIT && (mtime_sec < MIN_ENCODABLE_TIME
            || mtime_sec > MAX_ENCODABLE_TIME)) {
            return Err(
                Error::InvalidArgument("timestamp outside the range ext4 can store (1901..2446)"),
            );
        }
        let (ino, inode, mut raw): (u32, Inode, Vec<u8>) = match self.inode_at_path(path.as_bytes()) {
            Ok(p) => p,
            Err(e) => {
                return Err(e);
            },
        };
        let ghost raw0 = raw@;
        let (atime_base, atime_epoch): (u32, u32) = encode_extra_time(atime_sec);
        let (mtime_base, mtime_epoch): (u32, u32) = encode_extra_time(mtime_sec);
        let extra: u16 = if raw.len() >= 0x82 {
            get_u16(&raw, 0x80)
        } else {
            0
        };
        let with_mtime: bool = extra >= 12 && raw.len() >= 0x8C;
        let with_atime: bool = extra >= 16 && raw.len() >= 0x90;
        if (mtime_sec != TIME_OMIT && mtime_epoch != 0 && !with_mtime) || (atime_sec != TIME_OMIT
            && atime_epoch != 0 && !with_atime) {
            return Err(
                Error::InvalidArgument(
                    "timestamp past 2038 needs an *_extra field this inode is too small to hold",
                ),
            );
        }
        if atime_sec != TIME_OMIT {
            set_u32(&mut raw, 0x08, atime_base);
        }
        if mtime_sec != TIME_OMIT {
            set_u32(&mut raw, 0x10, mtime_base);
        }
        set_u32(&mut raw, OFF_CTIME, now);
        if extra >= 8 && raw.len() >= 0x88 {
            set_u32(&mut raw, 0x84, 0);
        }
        if mtime_sec != TIME_OMIT && with_mtime {
            set_u32(&mut raw, 0x88, pack_nsec_lo(mtime_nsec) + mtime_epoch);
        }
        if atime_sec != TIME_OMIT && with_atime {
            set_u32(&mut raw, 0x8C, pack_nsec_lo(atime_nsec) + atime_epoch);
        }
        assert(raw@ == utimed(raw0, atime_sec, atime_nsec, mtime_sec, mtime_nsec, now));
        self.commit_edited(ino, inode.generation, raw)
    }

    /// Extend a file to `new_size`. The new range is a sparse hole. Sets mtime
    /// and ctime to `now`, also where the size stays the same.
    pub fn apply_truncate_grow(&mut self, ino: u32, new_size: u64, now: u32) -> (r: Result<()>)
        requires
            old(self).wf(),
        ensures
            final(self).wf(),
            same_mount(*final(self), *old(self)),
            came_out(
                unless_refused(
                    old(self).takes_writes(),
                    old(self)@,
                    done(old(self)@, unit_stage(grow_stage(old(self)@, ino, new_size, now))),
                ),
                r,
                final(self)@,
                old(self).dev.healthy(),
            ),
            r matches Err(Error::Io) ==> only_in(
                old(self)@,
                final(self)@,
                stage_blocks(unit_stage(grow_stage(old(self)@, ino, new_size, now))),
            ),
    {
        if let Err(e) = self.refuse_write() {
            return Err(e);
        }
        let (inode, mut raw): (Inode, Vec<u8>) = match self.read_inode_verified(ino) {
            Ok(p) => p,
            Err(e) => {
                return Err(e);
            },
        };
        if new_size < inode.size {
            return Err(
                Error::InvalidArgument(
                    "apply_truncate_grow: new_size < old_size (use apply_truncate_shrink)",
                ),
            );
        }
        let patched = Self::patch_inode_size_and_blocks(&mut raw, new_size, inode.blocks);
        set_u32(&mut raw, OFF_CTIME, now);
        set_u32(&mut raw, 0x10, now);
        self.commit_edited(ino, inode.generation, raw)
    }

    /// Stage the rest of a file's last block as zeros, for a file of `size`
    /// bytes.
    fn buffer_clear_tail(&self, buf: &mut BlockBuffer, area: &[u8], size: u64) -> (r: Result<()>)
        requires
            self.wf(),
            old(buf).wf(self@),
        ensures
            final(buf).wf(self@),
            staged(
                tail_cleared(self@, old(buf).stage(self@), area@, size as int),
                r,
                final(buf).stage(self@),
                self.dev.healthy(),
            ),
    {
        let bs: u64 = self.sb.block_size() as u64;
        let from: usize = (size % bs) as usize;
        if from == 0 {
            return Ok(());
        }
        let p: u64 = match map_logical(area, &self.dev, bs as u32, size / bs) {
            Err(e) => {
                return Err(e);
            },
            Ok(None) => {
                return Ok(());
            },
            Ok(Some(p)) => p,
        };
        let mut block: Vec<u8> = match self.staged_block(buf, p) {
            Ok(b) => b,
            Err(e) => {
                return Err(e);
            },
        };
        let ghost b0 = block@;
        let mut i: usize = from;
        while i < block.len()
            invariant
                from <= i <= block@.len(),
                block@.len() == b0.len(),
                forall|j: int| 0 <= j < from || i <= j < b0.len() ==> #[trigger] block@[j] == b0[j],
                forall|j: int| from <= j < i ==> #[trigger] block@[j] == 0,
            decreases block@.len() - i,
        {
            block.set(i, 0);
            i += 1;
        }
        assert(block@ =~= zeroed_from(b0, from as int));
        buf.put(p, block);
        Ok(())
    }

    /// Shrink a file to `new_size`: rewrites its extent root and its size,
    /// releases the blocks past the new end, raises the free counts, and zeroes
    /// the rest of its last block, in one commit.
    pub fn apply_truncate_shrink(&mut self, ino: u32, new_size: u64) -> (r: Result<()>)
        requires
            old(self).wf(),
        ensures
            final(self).wf(),
            same_mount(*final(self), *old(self)),
            came_out(
                unless_refused(
                    old(self).takes_writes(),
                    old(self)@,
                    done(old(self)@, unit_stage(shrink_stage(old(self)@, ino, new_size))),
                ),
                r,
                final(self)@,
                old(self).dev.healthy(),
            ),
            r matches Err(Error::Io) ==> only_in(
                old(self)@,
                final(self)@,
                stage_blocks(unit_stage(shrink_stage(old(self)@, ino, new_size))),
            ),
    {
        if let Err(e) = self.refuse_write() {
            return Err(e);
        }
        let (inode, mut raw): (Inode, Vec<u8>) = match self.read_inode_verified(ino) {
            Ok(p) => p,
            Err(e) => {
                return Err(e);
            },
        };
        if new_size > inode.size {
            return Err(
                Error::InvalidArgument("truncate: new_size > old_size (grow not supported)"),
            );
        }
        let plan: ShrinkPlan = match plan_truncate_shrink(
            new_size,
            &inode.block,
            self.sb.block_size(),
        ) {
            Ok(p) => p,
            Err(e) => {
                return Err(e);
            },
        };
        let mut buf: BlockBuffer = BlockBuffer::new(self.sb.block_size());
        assert(buf.wf(self@));
        let freed_blocks: u64 = match self.buffer_free_runs(&mut buf, &plan.freed) {
            Ok(n) => n,
            Err(e) => {
                return Err(e);
            },
        };
        let placed = Self::patch_inode_block_area(&mut raw, &plan.root);
        let per_block: u64 = self.sb.block_size() as u64 / 512;
        assert(0 <= freed_blocks * per_block <= 0x8000_0000_0000 * 128) by (nonlinear_arith)
            requires
                0 <= freed_blocks <= 0x8000_0000_0000,
                0 <= per_block <= 128,
        ;
        let freed_sectors: u64 = freed_blocks * per_block;
        let new_blocks: u64 = if inode.blocks < freed_sectors {
            0
        } else {
            inode.blocks - freed_sectors
        };
        let patched = Self::patch_inode_size_and_blocks(&mut raw, new_size, new_blocks);
        self.finalize_inode_raw(ino, inode.generation, &mut raw);
        if let Err(e) = self.buffer_write_inode(&mut buf, ino, &raw) {
            return Err(e);
        }
        if freed_blocks > 0 {
            if let Err(e) = self.buffer_patch_sb_counters(&mut buf, freed_blocks as i64, 0) {
                return Err(e);
            }
        }
        if let Err(e) = self.buffer_clear_tail(&mut buf, &inode.block, new_size) {
            return Err(e);
        }
        self.commit_block_buffer(buf)
    }
}

/// Times that were set are the times that are read back.
pub proof fn law_utimens_read_back(raw: Seq<u8>, asec: i64, ansec: u32, msec: i64, mnsec: u32, now: u32)
    requires
        raw.len() >= 0x98,
        le16(raw, 0x80) >= 16,
        asec != TIME_OMIT,
        msec != TIME_OMIT,
        time_storable(asec),
        time_storable(msec),
    ensures
        ({
            let out = utimed(raw, asec, ansec, msec, mnsec, now);
            &&& time_of(le32(out, 0x08), le32(out, 0x8C)) == asec
            &&& time_of(le32(out, 0x10), le32(out, 0x88)) == msec
            &&& le32(out, 0x8C) / 4 == ansec % 0x4000_0000
            &&& le32(out, 0x88) / 4 == mnsec % 0x4000_0000
        }),
{
}

/// A mode that was set is the mode that is read back, with the type it had.
pub proof fn law_chmod_keeps_type(raw: Seq<u8>, mode: u16, now: u32)
    requires
        raw.len() >= 128,
    ensures
        mode_of(chmodded(raw, mode, now)) & S_IFMT == mode_of(raw) & S_IFMT,
        mode_of(chmodded(raw, mode, now)) & 0x0FFF == mode & 0x0FFF,
{
    let m = mode_of(raw);
    assert(((m & S_IFMT) | (mode & 0x0FFF)) & S_IFMT == m & S_IFMT) by (bit_vector);
    assert(((m & S_IFMT) | (mode & 0x0FFF)) & 0x0FFF == mode & 0x0FFF) by (bit_vector);
}

} // verus!
