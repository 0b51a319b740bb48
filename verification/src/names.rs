//! Operations on names: create, link, rename and remove.
use crate::allocator::{inode_planned, BlockAllocationPlan, InodeAllocationPlan};
use crate::attr::{inode_at, path_bytes, unless_refused};
use crate::block_io::BlockDevice;
use crate::bytes::{copy_range, overlay, put16, splice, zeroed, zeros};
use crate::commit::{came_out, committed, done, only_in, same_mount, stage_blocks, unit_stage};
use crate::dir::DirEntryType;
use crate::dirops::{
    dir_empty_from, find_entry, parent_and_base, split_parent_and_base, stage_add_entry, stage_remove_from, NAME_MAX,
    SLASH,
};
use crate::error::{Error, Result};
use crate::extent::{collect_all, extents_of, lemma_extents_short, Extent};
use crate::file_mut::{plan_truncate_shrink, runs_small, runs_total, shrink_planned, stage_free_runs};
use crate::fs::{checked_inode, Filesystem};
use crate::grow::{
    bitmaps_of, dots_block, extend_cut, extend_dir, home_group, stage_block_plan, stage_fresh, stage_inode_plan, volume_plan,
};
use crate::inode::{
    block_area_of, flags_of, generation_of, links_of, mode_is_dir, mode_is_file, mode_is_symlink, mode_of, size_of_file,
    Inode, FL_EXTENTS, FL_INLINE_DATA, S_IFBLK,
    S_IFCHR, S_IFIFO, S_IFLNK, S_IFMT, S_IFREG, S_IFSOCK,
};
use crate::indirect_mut::pointer_runs;
use crate::inode_edit::{
    dead_inode, moved_links, new_dir_inode, new_fast_symlink_inode, new_file_inode, new_slow_symlink_inode,
    new_special_inode,
};
use crate::stage::{stage_counters, stage_free_inode, stage_inode, stage_totals, staged};
use crate::volume::{fresh_stage, BlockBuffer, Stage, Vol};
use vstd::prelude::*;
use vstd::string::*;

verus! {

broadcast use crate::bytes::group_fields;

// -- shared pieces ----------------------------------------------------------

/// The directory that a new name would go to, with its record, and the name,
/// which must not be taken.
pub open spec fn free_name(v: Vol, path: Seq<u8>) -> Result<(u32, Seq<u8>, Seq<u8>)> {
    match parent_and_base(path) {
        Err(e) => Err(e),
        Ok((parent, name)) => if name.len() > NAME_MAX {
            Err(Error::NameTooLong)
        } else {
            match inode_at(v, parent) {
                Err(e) => Err(e),
                Ok((ino, raw)) => if !mode_is_dir(mode_of(raw)) {
                    Err(Error::NotADirectory)
                } else {
                    match find_entry(v, ino, raw, name) {
                        Ok(_) => Err(Error::AlreadyExists),
                        Err(e) => if e == Error::NotFound {
                            Ok((ino, raw, name))
                        } else {
                            Err(e)
                        },
                    }
                },
            }
        },
    }
}

/// A new inode in a directory: its number, the directory and its record, the
/// name, and the stage with the inode taken.
pub struct Slot {
    pub ino: u32,
    pub parent: u32,
    pub raw: Seq<u8>,
    pub name: Seq<u8>,
    pub stage: Stage,
}

/// The slot for a new file at `path`.
pub open spec fn new_slot(v: Vol, path: Seq<u8>) -> Result<Slot> {
    match free_name(v, path) {
        Err(e) => Err(e),
        Ok((parent, raw, name)) => match inode_planned(
            v.sb,
            v.groups,
            false,
            home_group(v, parent),
            bitmaps_of(v),
        ) {
            Err(e) => Err(e),
            Ok(plan) => match stage_inode_plan(v, fresh_stage(v), plan) {
                Err(e) => Err(e),
                Ok(stage) => Ok(Slot { ino: plan.inode, parent, raw, name, stage }),
            },
        },
    }
}

/// What committing a stage together with a new entry comes to. Where the
/// directory has no room the stage is committed first, and the directory grows
/// in a commit of its own.
pub open spec fn entered(
    v: Vol,
    st: Stage,
    parent: u32,
    raw: Seq<u8>,
    name: Seq<u8>,
    target: u32,
    ft: DirEntryType,
) -> (Vol, Result<()>) {
    match stage_add_entry(v, st, parent, raw, name, target, ft) {
        Ok(st1) => (committed(v, st1), Ok(())),
        Err(e) => if e == Error::OutOfBounds {
            extend_dir(committed(v, st), parent, name, target, ft)
        } else {
            (v, Err(e))
        },
    }
}

/// What a device that fails the commit of a stage with an entry may leave.
pub open spec fn entered_cut(
    v: Vol,
    st: Stage,
    parent: u32,
    raw: Seq<u8>,
    name: Seq<u8>,
    target: u32,
    ft: DirEntryType,
    post: Vol,
) -> bool {
    match stage_add_entry(v, st, parent, raw, name, target, ft) {
        Ok(st1) => only_in(v, post, st1.touched),
        Err(e) => if e == Error::OutOfBounds {
            only_in(v, post, st.touched) || extend_cut(committed(v, st), parent, name, target, ft, post)
        } else {
            post == v
        },
    }
}

/// An outcome with a value in place of nothing.
pub open spec fn with_value<T>(o: (Vol, Result<()>), t: T) -> (Vol, Result<T>) {
    match o.1 {
        Ok(_) => (o.0, Ok(t)),
        Err(e) => (o.0, Err(e)),
    }
}

/// What filling a slot with a record and naming it comes to.
pub open spec fn filled(v: Vol, s: Slot, raw: Seq<u8>, ft: DirEntryType) -> (Vol, Result<u32>) {
    match stage_inode(v, s.stage, s.ino, raw) {
        Err(e) => (v, Err(e)),
        Ok(st) => with_value(entered(v, st, s.parent, s.raw, s.name, s.ino, ft), s.ino),
    }
}

/// What a device that fails the filling of a slot may leave.
pub open spec fn filled_cut(v: Vol, s: Slot, raw: Seq<u8>, ft: DirEntryType, post: Vol) -> bool {
    match stage_inode(v, s.stage, s.ino, raw) {
        Err(_) => post == v,
        Ok(st) => post == v || entered_cut(v, st, s.parent, s.raw, s.name, s.ino, ft, post),
    }
}

// -- create, mknod, symlink -------------------------------------------------

/// What a device that fails the creation of a regular file may leave.
pub open spec fn created_cut(v: Vol, path: Seq<u8>, mode: u16, now: u32, generation: u32, post: Vol) -> bool {
    post == v || match new_slot(v, path) {
        Err(_) => false,
        Ok(s) => filled_cut(v, s, new_file_inode(v, s.ino, mode, now, generation), DirEntryType::RegFile, post),
    }
}

/// What a device that fails the creation of a special file may leave.
pub open spec fn noded_cut(
    v: Vol,
    path: Seq<u8>,
    mode: u16,
    major: u32,
    minor: u32,
    now: u32,
    generation: u32,
    post: Vol,
) -> bool {
    post == v || match (special_type(mode), new_slot(v, path)) {
        (Some(ft), Ok(s)) => filled_cut(
            v,
            s,
            new_special_inode(v, s.ino, mode, major, minor, now, generation),
            ft,
            post,
        ),
        _ => false,
    }
}

/// What a device that fails the creation of a symbolic link may leave.
pub open spec fn symlinked_cut(v: Vol, target: Seq<u8>, path: Seq<u8>, now: u32, generation: u32, post: Vol) -> bool {
    post == v || match new_slot(v, path) {
        Err(_) => false,
        Ok(s) => if target.len() < 60 {
            filled_cut(
                v,
                s,
                new_fast_symlink_inode(v, s.ino, target, now, generation),
                DirEntryType::Symlink,
                post,
            )
        } else {
            let plan = volume_plan(v, 1, home_group(v, s.parent), Seq::empty())->Ok_0;
            let st1 = stage_block_plan(v, s.stage, plan)->Ok_0;
            let st2 = stage_fresh(v, st1, plan.first_block, splice(zeros(v.bs() as nat), 0, target))->Ok_0;
            filled_cut(
                v,
                Slot { stage: st2, ..s },
                new_slow_symlink_inode(v, s.ino, target.len() as int, plan.first_block, now, generation),
                DirEntryType::Symlink,
                post,
            )
        },
    }
}

/// What creating a regular file comes to.
pub open spec fn created(v: Vol, path: Seq<u8>, mode: u16, now: u32, generation: u32) -> (Vol, Result<u32>) {
    match new_slot(v, path) {
        Err(e) => (v, Err(e)),
        Ok(s) => filled(v, s, new_file_inode(v, s.ino, mode, now, generation), DirEntryType::RegFile),
    }
}

/// The entry type of a special file's mode.
pub open spec fn special_type(mode: u16) -> Option<DirEntryType> {
    let kind = mode & S_IFMT;
    if kind == S_IFCHR {
        Some(DirEntryType::CharDev)
    } else if kind == S_IFBLK {
        Some(DirEntryType::BlockDev)
    } else if kind == S_IFIFO {
        Some(DirEntryType::Fifo)
    } else if kind == S_IFSOCK {
        Some(DirEntryType::Socket)
    } else {
        None
    }
}

/// What creating a special file comes to.
pub open spec fn noded(v: Vol, path: Seq<u8>, mode: u16, major: u32, minor: u32, now: u32, generation: u32) -> (
    Vol,
    Result<u32>,
) {
    match special_type(mode) {
        None => (
            v,
            Err(Error::InvalidArgument("mknod: unsupported type; use create/mkdir for reg/dir")),
        ),
        Some(ft) => match new_slot(v, path) {
            Err(e) => (v, Err(e)),
            Ok(s) => filled(
                v,
                s,
                new_special_inode(v, s.ino, mode, major, minor, now, generation),
                ft,
            ),
        },
    }
}

/// The longest target a symbolic link can have.
pub const SYMLINK_MAX: usize = 255;

/// What creating a symbolic link comes to: a short target is kept in the
/// inode, a longer one in a block of its own.
pub open spec fn symlinked(v: Vol, target: Seq<u8>, path: Seq<u8>, now: u32, generation: u32) -> (
    Vol,
    Result<u32>,
) {
    if target.len() == 0 {
        (v, Err(Error::InvalidArgument("symlink target is empty")))
    } else if target.len() > SYMLINK_MAX {
        (v, Err(Error::NameTooLong))
    } else {
        match new_slot(v, path) {
            Err(e) => (v, Err(e)),
            Ok(s) => if target.len() < 60 {
                filled(
                    v,
                    s,
                    new_fast_symlink_inode(v, s.ino, target, now, generation),
                    DirEntryType::Symlink,
                )
            } else {
                match volume_plan(v, 1, home_group(v, s.parent), Seq::empty()) {
                    Err(e) => (v, Err(e)),
                    Ok(plan) => match stage_block_plan(v, s.stage, plan) {
                        Err(e) => (v, Err(e)),
                        Ok(st1) => match stage_fresh(
                            v,
                            st1,
                            plan.first_block,
                            splice(zeros(v.bs() as nat), 0, target),
                        ) {
                            Err(e) => (v, Err(e)),
                            Ok(st2) => filled(
                                v,
                                Slot { stage: st2, ..s },
                                new_slow_symlink_inode(
                                    v,
                                    s.ino,
                                    target.len() as int,
                                    plan.first_block,
                                    now,
                                    generation,
                                ),
                                DirEntryType::Symlink,
                            ),
                        },
                    },
                }
            },
        }
    }
}

/// A slot for a new inode, as the code carries it.
struct NewInodePlan {
    new_ino: u32,
    parent_ino: u32,
    parent_inode: Inode,
    parent_raw: Vec<u8>,
    buf: BlockBuffer,
    base_name: Vec<u8>,
}

impl<D: BlockDevice> Filesystem<D> {
    /// The directory a new name goes to, and the name.
    fn parent_for_new(&self, path: &[u8]) -> (r: Result<(u32, Inode, Vec<u8>, Vec<u8>)>)
        requires
            self.wf(),
        ensures
            match r {
                Ok((ino, inode, raw, name)) => free_name(self@, path@) == Ok::<
                    (u32, Seq<u8>, Seq<u8>),
                    Error,
                >((ino, raw@, name@)) && inode.decodes(raw@) && raw@.len() == self.sb.inode_size
                    && name@.len() <= NAME_MAX && ino > 0 && checked_inode(self@, ino) == Ok::<
                    Seq<u8>,
                    Error,
                >(raw@),
                Err(e) => free_name(self@, path@) == Err::<(u32, Seq<u8>, Seq<u8>), Error>(e) || (
                !self.dev.healthy() && e == Error::Io),
            },
    {
        let (parent_path, base_name): (Vec<u8>, Vec<u8>) = match split_parent_and_base(path) {
            Ok(p) => p,
            Err(e) => {
                return Err(e);
            },
        };
        if base_name.len() > NAME_MAX {
            return Err(Error::NameTooLong);
        }
        let (parent_ino, parent_inode, parent_raw): (u32, Inode, Vec<u8>) =
            match self.inode_at_path(&parent_path) {
            Ok(p) => p,
            Err(e) => {
                return Err(e);
            },
        };
        if !parent_inode.is_dir() {
            return Err(Error::NotADirectory);
        }
        match self.entry_exists(parent_ino, &parent_inode, Ghost(parent_raw@), &base_name) {
            Err(e) => {
                return Err(e);
            },
            Ok(true) => {
                return Err(Error::AlreadyExists);
            },
            Ok(false) => {},
        }
        Ok((parent_ino, parent_inode, parent_raw, base_name))
    }

    /// Common setup for creating a new inode inside a directory: resolves the
    /// parent, checks preconditions, allocates an inode, and stages the bitmap
    /// and counter updates.
    fn plan_new_inode_in_dir(&self, path: &[u8]) -> (r: Result<NewInodePlan>)
        requires
            self.wf(),
        ensures
            match r {
                Ok(p) => new_slot(self@, path@) == Ok::<Slot, Error>(
                    Slot {
                        ino: p.new_ino,
                        parent: p.parent_ino,
                        raw: p.parent_raw@,
                        name: p.base_name@,
                        stage: p.buf.stage(self@),
                    },
                ) && p.buf.wf(self@) && p.parent_inode.decodes(p.parent_raw@) && p.base_name@.len()
                    <= NAME_MAX && p.parent_ino > 0,
                Err(e) => new_slot(self@, path@) == Err::<Slot, Error>(e) || (!self.dev.healthy() && e
                    == Error::Io),
            },
    {
        let (parent_ino, parent_inode, parent_raw, base_name): (u32, Inode, Vec<u8>, Vec<u8>) =
            match self.parent_for_new(path) {
            Ok(p) => p,
            Err(e) => {
                return Err(e);
            },
        };
        let parent_group: u32 = (parent_ino - 1) / self.sb.inodes_per_group;
        let plan: InodeAllocationPlan = match self.plan_inode(false, parent_group) {
            Ok(p) => p,
            Err(e) => {
                return Err(e);
            },
        };
        let mut buf: BlockBuffer = BlockBuffer::new(self.sb.block_size());
        assert(buf.wf(self@));
        if let Err(e) = self.buffer_apply_inode_plan(&mut buf, &plan) {
            return Err(e);
        }
        Ok(
            NewInodePlan {
                new_ino: plan.inode,
                parent_ino,
                parent_inode,
                parent_raw,
                buf,
                base_name,
            },
        )
    }

    /// Commit a buffer together with a new entry; where the directory has no
    /// room, the buffer first and then the directory's growth.
    fn commit_with_entry(
        &mut self,
        buf: BlockBuffer,
        parent_ino: u32,
        parent_inode: &Inode,
        Ghost(raw): Ghost<Seq<u8>>,
        name: &[u8],
        target_ino: u32,
        file_type: DirEntryType,
    ) -> (r: Result<()>)
        requires
            old(self).wf(),
            old(self).takes_writes(),
            buf.wf(old(self)@),
            parent_inode.decodes(raw),
            name@.len() <= NAME_MAX,
        ensures
            final(self).wf(),
            same_mount(*final(self), *old(self)),
            came_out(
                entered(
                    old(self)@,
                    buf.stage(old(self)@),
                    parent_ino,
                    raw,
                    name@,
                    target_ino,
                    file_type,
                ),
                r,
                final(self)@,
                old(self).dev.healthy(),
            ),
            r matches Err(Error::Io) ==> entered_cut(
                old(self)@,
                buf.stage(old(self)@),
                parent_ino,
                raw,
                name@,
                target_ino,
                file_type,
                final(self)@,
            ) || final(self)@ == old(self)@,
    {
        let mut buf = buf;
        match self.buffer_add_dir_entry_inplace(
            &mut buf,
            parent_ino,
            parent_inode,
            Ghost(raw),
            name,
            target_ino,
            file_type,
        ) {
            Ok(_) => self.commit_block_buffer(buf),
            Err(Error::OutOfBounds) => {
                if let Err(e) = self.commit_block_buffer(buf) {
                    return Err(e);
                }
                self.extend_dir_and_add_entry(parent_ino, name, target_ino, file_type)
            },
            Err(e) => Err(e),
        }
    }

    /// Put a record into a slot, name it, and commit.
    fn fill_slot(&mut self, p: NewInodePlan, raw: Vec<u8>, file_type: DirEntryType) -> (r: Result<u32>)
        requires
            old(self).wf(),
            old(self).takes_writes(),
            p.buf.wf(old(self)@),
            p.parent_inode.decodes(p.parent_raw@),
            p.base_name@.len() <= NAME_MAX,
        ensures
            final(self).wf(),
            same_mount(*final(self), *old(self)),
            came_out(
                filled(
                    old(self)@,
                    Slot {
                        ino: p.new_ino,
                        parent: p.parent_ino,
                        raw: p.parent_raw@,
                        name: p.base_name@,
                        stage: p.buf.stage(old(self)@),
                    },
                    raw@,
                    file_type,
                ),
                r,
                final(self)@,
                old(self).dev.healthy(),
            ),
            r matches Err(Error::Io) ==> filled_cut(
                old(self)@,
                (Slot {
                    ino: p.new_ino,
                    parent: p.parent_ino,
                    raw: p.parent_raw@,
                    name: p.base_name@,
                    stage: p.buf.stage(old(self)@),
                }),
                raw@,
                file_type,
                final(self)@,
            ),
    {
        let mut buf: BlockBuffer = p.buf;
        if let Err(e) = self.buffer_write_inode(&mut buf, p.new_ino, &raw) {
            return Err(e);
        }
        match self.commit_with_entry(
            buf,
            p.parent_ino,
            &p.parent_inode,
            Ghost(p.parent_raw@),
            &p.base_name,
            p.new_ino,
            file_type,
        ) {
            Ok(_) => Ok(p.new_ino),
            Err(e) => Err(e),
        }
    }

    /// Create a new regular file at `path` with permission bits `mode`. Returns
    /// the allocated inode number. The parent must be a directory that has no
    /// such name yet. Times are `now`.
    pub fn apply_create(&mut self, path: &str, mode: u16, now: u32, generation: u32) -> (r: Result<u32>)
        requires
            old(self).wf(),
        ensures
            final(self).wf(),
            same_mount(*final(self), *old(self)),
            came_out(
                unless_refused(
                    old(self).takes_writes(),
                    old(self)@,
                    created(old(self)@, path_bytes(path), mode, now, generation),
                ),
                r,
                final(self)@,
                old(self).dev.healthy(),
            ),
            r matches Err(Error::Io) ==> created_cut(
                old(self)@,
                path_bytes(path),
                mode,
                now,
                generation,
                final(self)@,
            ),
    {
        if let Err(e) = self.refuse_write() {
            return Err(e);
        }
        let p: NewInodePlan = match self.plan_new_inode_in_dir(path.as_bytes()) {
            Ok(p) => p,
            Err(e) => {
                return Err(e);
            },
        };
        let raw: Vec<u8> = self.build_regular_file_inode(p.new_ino, mode, now, generation);
        self.fill_slot(p, raw, DirEntryType::RegFile)
    }

    /// Create a special file (FIFO, socket, char device, block device). `mode`
    /// must include the type bits. `major` and `minor` are the device numbers,
    /// kept for devices alone. Mirrors POSIX `mknod`.
    pub fn apply_mknod(
        &mut self,
        path: &str,
        mode: u16,
        major: u32,
        minor: u32,
        now: u32,
        generation: u32,
    ) -> (r: Result<u32>)
        requires
            old(self).wf(),
        ensures
            final(self).wf(),
            same_mount(*final(self), *old(self)),
            came_out(
                unless_refused(
                    old(self).takes_writes(),
                    old(self)@,
                    noded(old(self)@, path_bytes(path), mode, major, minor, now, generation),
                ),
                r,
                final(self)@,
                old(self).dev.healthy(),
            ),
            r matches Err(Error::Io) ==> noded_cut(
                old(self)@,
                path_bytes(path),
                mode,
                major,
                minor,
                now,
                generation,
                final(self)@,
            ),
    {
        if let Err(e) = self.refuse_write() {
            return Err(e);
        }
        let kind: u16 = mode & S_IFMT;
        let file_type: DirEntryType = if kind == S_IFCHR {
            DirEntryType::CharDev
        } else if kind == S_IFBLK {
            DirEntryType::BlockDev
        } else if kind == S_IFIFO {
            DirEntryType::Fifo
        } else if kind == S_IFSOCK {
            DirEntryType::Socket
        } else {
            return Err(
                Error::InvalidArgument("mknod: unsupported type; use create/mkdir for reg/dir"),
            );
        };
        let p: NewInodePlan = match self.plan_new_inode_in_dir(path.as_bytes()) {
            Ok(p) => p,
            Err(e) => {
                return Err(e);
            },
        };
        let raw: Vec<u8> = self.build_special_file_inode(
            p.new_ino,
            mode,
            major,
            minor,
            now,
            generation,
        );
        self.fill_slot(p, raw, file_type)
    }

    /// Create a symbolic link at `linkpath` whose target is `target`. A target
    /// of fewer than 60 bytes is kept in the inode; a longer one, up to 255
    /// bytes, in a block of its own.
    pub fn apply_symlink(&mut self, target: &str, linkpath: &str, now: u32, generation: u32) -> (r: Result<u32>)
        requires
            old(self).wf(),
        ensures
            final(self).wf(),
            same_mount(*final(self), *old(self)),
            came_out(
                unless_refused(
                    old(self).takes_writes(),
                    old(self)@,
                    symlinked(
                        old(self)@,
                        path_bytes(target),
                        path_bytes(linkpath),
                        now,
                        generation,
                    ),
                ),
                r,
                final(self)@,
                old(self).dev.healthy(),
            ),
            r matches Err(Error::Io) ==> symlinked_cut(
                old(self)@,
                path_bytes(target),
                path_bytes(linkpath),
                now,
                generation,
                final(self)@,
            ),
    {
        if let Err(e) = self.refuse_write() {
            return Err(e);
        }
        let bytes: &[u8] = target.as_bytes();
        if bytes.len() == 0 {
            return Err(Error::InvalidArgument("symlink target is empty"));
        }
        let bs: u32 = self.sb.block_size();
        if bytes.len() > SYMLINK_MAX {
            return Err(Error::NameTooLong);
        }
        let mut p: NewInodePlan = match self.plan_new_inode_in_dir(linkpath.as_bytes()) {
            Ok(p) => p,
            Err(e) => {
                return Err(e);
            },
        };
        if bytes.len() < 60 {
            let raw: Vec<u8> = self.build_fast_symlink_inode(p.new_ino, bytes, now, generation);
            return self.fill_slot(p, raw, DirEntryType::Symlink);
        }
        let parent_group: u32 = (p.parent_ino - 1) / self.sb.inodes_per_group;
        let none: Vec<u64> = Vec::new();
        assert(none@ =~= Seq::<u64>::empty());
        let plan: BlockAllocationPlan = match self.plan_blocks(1, parent_group, &none) {
            Ok(b) => b,
            Err(e) => {
                return Err(e);
            },
        };
        if let Err(e) = self.buffer_apply_block_plan(&mut p.buf, &plan) {
            return Err(e);
        }
        let mut block: Vec<u8> = zeroed(bs as usize);
        overlay(&mut block, 0, bytes);
        if let Err(e) = self.buffer_put_fresh(&mut p.buf, plan.first_block, block) {
            return Err(e);
        }
        let raw: Vec<u8> = self.build_slow_symlink_inode(
            p.new_ino,
            bytes.len(),
            plan.first_block,
            now,
            generation,
        );
        self.fill_slot(p, raw, DirEntryType::Symlink)
    }
}

// -- mkdir ------------------------------------------------------------------

/// The stage with a directory's link count moved.
pub open spec fn stage_links(v: Vol, st: Stage, ino: u32, raw: Seq<u8>, delta: int) -> Result<Stage> {
    stage_inode(
        v,
        st,
        ino,
        v.csum.stamp_inode_spec(
            ino,
            generation_of(raw),
            put16(raw, 0x1A, moved_links(links_of(raw), delta)),
        ),
    )
}

/// The stage of a new directory that no entry names yet: inode and block
/// taken, record and first block written.
#[verifier::opaque]
pub open spec fn new_dir_stage(v: Vol, parent: u32, mode: u16, now: u32, generation: u32) -> Result<(Stage, u32)> {
    match inode_planned(v.sb, v.groups, true, home_group(v, parent), bitmaps_of(v)) {
        Err(e) => Err(e),
        Ok(iplan) => match volume_plan(v, 1, iplan.bgd.group_idx, Seq::empty()) {
            Err(e) => Err(e),
            Ok(bplan) => match stage_inode_plan(v, fresh_stage(v), iplan) {
                Err(e) => Err(e),
                Ok(st1) => match stage_block_plan(v, st1, bplan) {
                    Err(e) => Err(e),
                    Ok(st2) => match stage_inode(
                        v,
                        st2,
                        iplan.inode,
                        new_dir_inode(v, iplan.inode, mode, bplan.first_block, now, generation),
                    ) {
                        Err(e) => Err(e),
                        Ok(st3) => match stage_fresh(
                            v,
                            st3,
                            bplan.first_block,
                            dots_block(v, iplan.inode, parent, generation),
                        ) {
                            Err(e) => Err(e),
                            Ok(st4) => Ok((st4, iplan.inode)),
                        },
                    },
                },
            },
        },
    }
}

/// What raising a directory's link count in a commit of its own comes to.
pub open spec fn links_raised(v: Vol, ino: u32) -> (Vol, Result<()>) {
    match checked_inode(v, ino) {
        Err(e) => (v, Err(e)),
        Ok(raw) => done(v, unit_stage(stage_links(v, fresh_stage(v), ino, raw, 1))),
    }
}

/// What creating a directory comes to. The parent gains a link, in the same
/// commit unless the parent has to grow.
pub open spec fn made_dir(v: Vol, path: Seq<u8>, mode: u16, now: u32, generation: u32) -> (Vol, Result<u32>) {
    match free_name(v, path) {
        Err(e) => (v, Err(e)),
        Ok((parent, raw, name)) => match new_dir_stage(v, parent, mode, now, generation) {
            Err(e) => (v, Err(e)),
            Ok((st, ino)) => match stage_add_entry(
                v,
                st,
                parent,
                raw,
                name,
                ino,
                DirEntryType::Directory,
            ) {
                Ok(st1) => match stage_links(v, st1, parent, raw, 1) {
                    Err(e) => (v, Err(e)),
                    Ok(st2) => (committed(v, st2), Ok(ino)),
                },
                Err(e) => if e == Error::OutOfBounds {
                    let (v1, r) = extend_dir(
                        committed(v, st),
                        parent,
                        name,
                        ino,
                        DirEntryType::Directory,
                    );
                    match r {
                        Err(e) => (v1, Err(e)),
                        Ok(_) => with_value(links_raised(v1, parent), ino),
                    }
                } else {
                    (v, Err(e))
                },
            },
        },
    }
}

/// What a device that fails the creation of a directory may leave.
pub open spec fn made_dir_cut(v: Vol, path: Seq<u8>, mode: u16, now: u32, generation: u32, post: Vol) -> bool {
    post == v || match free_name(v, path) {
        Err(_) => false,
        Ok((parent, raw, name)) => match new_dir_stage(v, parent, mode, now, generation) {
            Err(_) => false,
            Ok((st, ino)) => {
                let ft = DirEntryType::Directory;
                match stage_add_entry(v, st, parent, raw, name, ino, ft) {
                    Ok(st1) => only_in(v, post, stage_blocks(unit_stage(stage_links(v, st1, parent, raw, 1)))),
                    Err(e) => e == Error::OutOfBounds && {
                        let (v1, r) = extend_dir(committed(v, st), parent, name, ino, ft);
                        ||| only_in(v, post, st.touched)
                        ||| extend_cut(committed(v, st), parent, name, ino, ft, post)
                        ||| r is Ok && (post == v1 || match checked_inode(v1, parent) {
                            Err(_) => false,
                            Ok(now_raw) => only_in(
                                v1,
                                post,
                                stage_blocks(unit_stage(stage_links(v1, fresh_stage(v1), parent, now_raw, 1))),
                            ),
                        })
                    },
                }
            },
        },
    }
}

impl<D: BlockDevice> Filesystem<D> {
    /// Stage an inode's link count moved by `delta`.
    pub(crate) fn buffer_links(&self, buf: &mut BlockBuffer, ino: u32, inode: &Inode, raw: &[u8], delta: i32) -> (r: Result<()>)
        requires
            self.wf(),
            old(buf).wf(self@),
            inode.decodes(raw@),
            raw@.len() >= 128,
        ensures
            final(buf).wf(self@),
            staged(
                stage_links(self@, old(buf).stage(self@), ino, raw@, delta as int),
                r,
                final(buf).stage(self@),
                self.dev.healthy(),
            ),
    {
        let mut out: Vec<u8> = copy_range(raw, 0, raw.len());
        assert(out@ =~= raw@);
        self.patch_inode_nlink(ino, inode.generation, &mut out, inode.links_count, delta);
        self.buffer_write_inode(buf, ino, &out)
    }

    fn buffer_new_dir(&self, buf: &mut BlockBuffer, parent_ino: u32, mode: u16, now: u32, generation: u32) -> (r: Result<
        u32,
    >)
        requires
            self.wf(),
            old(buf).wf(self@),
            old(buf).stage(self@) == fresh_stage(self@),
            parent_ino > 0,
        ensures
            final(buf).wf(self@),
            match r {
                Ok(ino) => new_dir_stage(self@, parent_ino, mode, now, generation) == Ok::<
                    (Stage, u32),
                    Error,
                >((final(buf).stage(self@), ino)),
                Err(e) => new_dir_stage(self@, parent_ino, mode, now, generation) == Err::<
                    (Stage, u32),
                    Error,
                >(e) || (!self.dev.healthy() && e == Error::Io),
            },
    {
        proof {
            reveal(new_dir_stage);
        }
        let parent_group: u32 = (parent_ino - 1) / self.sb.inodes_per_group;
        let iplan: InodeAllocationPlan = match self.plan_inode(true, parent_group) {
            Ok(p) => p,
            Err(e) => {
                return Err(e);
            },
        };
        let none: Vec<u64> = Vec::new();
        assert(none@ =~= Seq::<u64>::empty());
        let bplan: BlockAllocationPlan = match self.plan_blocks(1, iplan.bgd.group_idx, &none) {
            Ok(p) => p,
            Err(e) => {
                return Err(e);
            },
        };
        if let Err(e) = self.buffer_apply_inode_plan(buf, &iplan) {
            return Err(e);
        }
        if let Err(e) = self.buffer_apply_block_plan(buf, &bplan) {
            return Err(e);
        }
        let raw: Vec<u8> = self.build_directory_inode(
            iplan.inode,
            mode,
            bplan.first_block,
            now,
            generation,
        );
        if let Err(e) = self.buffer_write_inode(buf, iplan.inode, &raw) {
            return Err(e);
        }
        let seed: Vec<u8> = self.seed_directory_block(iplan.inode, parent_ino, generation);
        if let Err(e) = self.buffer_put_fresh(buf, bplan.first_block, seed) {
            return Err(e);
        }
        Ok(iplan.inode)
    }

    /// Create a subdirectory at `path` with POSIX mode bits (low 12 bits of
    /// `mode`). Returns the new directory's inode number. Its inode is taken
    /// where directories are sparse, its block near the inode; the parent gains
    /// a link.
    pub fn apply_mkdir(&mut self, path: &str, mode: u16, now: u32, generation: u32) -> (r: Result<u32>)
        requires
            old(self).wf(),
        ensures
            final(self).wf(),
            same_mount(*final(self), *old(self)),
            came_out(
                unless_refused(
                    old(self).takes_writes(),
                    old(self)@,
                    made_dir(old(self)@, path_bytes(path), mode, now, generation),
                ),
                r,
                final(self)@,
                old(self).dev.healthy(),
            ),
            r matches Err(Error::Io) ==> made_dir_cut(
                old(self)@,
                path_bytes(path),
                mode,
                now,
                generation,
                final(self)@,
            ),
    {
        if let Err(e) = self.refuse_write() {
            return Err(e);
        }
        let (parent_ino, parent_inode, parent_raw, name): (u32, Inode, Vec<u8>, Vec<u8>) =
            match self.parent_for_new(path.as_bytes()) {
            Ok(p) => p,
            Err(e) => {
                return Err(e);
            },
        };
        let mut buf: BlockBuffer = BlockBuffer::new(self.sb.block_size());
        assert(buf.wf(self@));
        let new_ino: u32 = match self.buffer_new_dir(&mut buf, parent_ino, mode, now, generation) {
            Ok(i) => i,
            Err(e) => {
                return Err(e);
            },
        };
        match self.buffer_add_dir_entry_inplace(
            &mut buf,
            parent_ino,
            &parent_inode,
            Ghost(parent_raw@),
            &name,
            new_ino,
            DirEntryType::Directory,
        ) {
            Ok(_) => {
                if let Err(e) = self.buffer_links(&mut buf, parent_ino, &parent_inode, &parent_raw, 1) {
                    return Err(e);
                }
                match self.commit_block_buffer(buf) {
                    Ok(_) => Ok(new_ino),
                    Err(e) => Err(e),
                }
            },
            Err(Error::OutOfBounds) => {
                if let Err(e) = self.commit_block_buffer(buf) {
                    return Err(e);
                }
                if let Err(e) = self.extend_dir_and_add_entry(
                    parent_ino,
                    &name,
                    new_ino,
                    DirEntryType::Directory,
                ) {
                    return Err(e);
                }
                let (inode, raw): (Inode, Vec<u8>) = match self.read_inode_verified(parent_ino) {
                    Ok(p) => p,
                    Err(e) => {
                        return Err(e);
                    },
                };
                let mut more: BlockBuffer = BlockBuffer::new(self.sb.block_size());
                assert(more.wf(self@));
                if let Err(e) = self.buffer_links(&mut more, parent_ino, &inode, &raw, 1) {
                    return Err(e);
                }
                match self.commit_block_buffer(more) {
                    Ok(_) => Ok(new_ino),
                    Err(e) => Err(e),
                }
            },
            Err(e) => Err(e),
        }
    }
}

// -- link -------------------------------------------------------------------

/// The entry type of a file that is not a directory.
pub open spec fn link_type(mode: u16) -> DirEntryType {
    let kind = mode & S_IFMT;
    if kind == S_IFREG {
        DirEntryType::RegFile
    } else if kind == S_IFLNK {
        DirEntryType::Symlink
    } else {
        match special_type(mode) {
            Some(t) => t,
            None => DirEntryType::Unknown,
        }
    }
}

/// What making a hard link comes to.
pub open spec fn linked(v: Vol, src: Seq<u8>, dst: Seq<u8>) -> (Vol, Result<()>) {
    match parent_and_base(dst) {
        Err(e) => (v, Err(e)),
        Ok((parent_path, name)) => if name.len() > NAME_MAX {
            (v, Err(Error::NameTooLong))
        } else {
            match inode_at(v, src) {
                Err(e) => (v, Err(e)),
                Ok((ino, raw)) => if mode_is_dir(mode_of(raw)) {
                    (v, Err(Error::IsADirectory))
                } else {
                    match free_name(v, dst) {
                        Err(e) => (v, Err(e)),
                        Ok((parent, praw, name)) => match stage_links(v, fresh_stage(v), ino, raw, 1) {
                            Err(e) => (v, Err(e)),
                            Ok(st) => entered(v, st, parent, praw, name, ino, link_type(mode_of(raw))),
                        },
                    }
                },
            }
        },
    }
}

/// What a device that fails the making of a hard link may leave.
pub open spec fn linked_cut(v: Vol, src: Seq<u8>, dst: Seq<u8>, post: Vol) -> bool {
    post == v || match (inode_at(v, src), free_name(v, dst)) {
        (Ok((ino, raw)), Ok((parent, praw, name))) => match stage_links(v, fresh_stage(v), ino, raw, 1) {
            Err(_) => false,
            Ok(st) => entered_cut(v, st, parent, praw, name, ino, link_type(mode_of(raw)), post),
        },
        _ => false,
    }
}

impl<D: BlockDevice> Filesystem<D> {
    /// Create a hard link at `dst` to the inode at `src`, which must not be a
    /// directory. The inode gains a link.
    pub fn apply_link(&mut self, src: &str, dst: &str) -> (r: Result<()>)
        requires
            old(self).wf(),
        ensures
            final(self).wf(),
            same_mount(*final(self), *old(self)),
            came_out(
                unless_refused(
                    old(self).takes_writes(),
                    old(self)@,
                    linked(old(self)@, path_bytes(src), path_bytes(dst)),
                ),
                r,
                final(self)@,
                old(self).dev.healthy(),
            ),
            r matches Err(Error::Io) ==> linked_cut(
                old(self)@,
                path_bytes(src),
                path_bytes(dst),
                final(self)@,
            ),
    {
        if let Err(e) = self.refuse_write() {
            return Err(e);
        }
        match split_parent_and_base(dst.as_bytes()) {
            Ok((_, name)) => {
                if name.len() > NAME_MAX {
                    return Err(Error::NameTooLong);
                }
            },
            Err(e) => {
                return Err(e);
            },
        }
        let (src_ino, src_inode, src_raw): (u32, Inode, Vec<u8>) = match self.inode_at_path(
            src.as_bytes(),
        ) {
            Ok(p) => p,
            Err(e) => {
                return Err(e);
            },
        };
        if src_inode.is_dir() {
            return Err(Error::IsADirectory);
        }
        let (parent_ino, parent_inode, parent_raw, name): (u32, Inode, Vec<u8>, Vec<u8>) =
            match self.parent_for_new(dst.as_bytes()) {
            Ok(p) => p,
            Err(e) => {
                return Err(e);
            },
        };
        let kind: u16 = src_inode.file_type();
        let file_type: DirEntryType = if kind == S_IFREG {
            DirEntryType::RegFile
        } else if kind == S_IFLNK {
            DirEntryType::Symlink
        } else if kind == S_IFCHR {
            DirEntryType::CharDev
        } else if kind == S_IFBLK {
            DirEntryType::BlockDev
        } else if kind == S_IFIFO {
            DirEntryType::Fifo
        } else if kind == S_IFSOCK {
            DirEntryType::Socket
        } else {
            DirEntryType::Unknown
        };
        let mut buf: BlockBuffer = BlockBuffer::new(self.sb.block_size());
        assert(buf.wf(self@));
        if let Err(e) = self.buffer_links(&mut buf, src_ino, &src_inode, &src_raw, 1) {
            return Err(e);
        }
        self.commit_with_entry(
            buf,
            parent_ino,
            &parent_inode,
            Ghost(parent_raw@),
            &name,
            src_ino,
            file_type,
        )
    }
}

// -- unlink, rmdir ----------------------------------------------------------

/// Whether a record without an extent tree holds pointers to blocks: that of a
/// file or a directory whose contents are not in the record, or of a symbolic
/// link with a target too long for it.
pub open spec fn has_pointers(raw: Seq<u8>) -> bool {
    &&& flags_of(raw) & FL_EXTENTS == 0
    &&& flags_of(raw) & FL_INLINE_DATA == 0
    &&& mode_is_file(mode_of(raw)) || mode_is_dir(mode_of(raw)) || (mode_is_symlink(mode_of(raw)) && size_of_file(raw)
        >= 60)
}

/// Every run that a file holds, whatever its size: those of the extents in its
/// root, or those behind its pointers. A tree of more than one level is looked
/// into only where the file is empty. An empty file whose tree cannot be made
/// out holds none, unless it is the device that cannot be read.
pub open spec fn file_runs(v: Vol, raw: Seq<u8>) -> Result<Seq<(u64, u32)>> {
    if flags_of(raw) & FL_EXTENTS != 0 && size_of_file(raw) == 0 {
        match tree_runs(v, raw) {
            Err(e) => if e == Error::Io {
                Err(e)
            } else {
                Ok(Seq::empty())
            },
            Ok(runs) => Ok(runs),
        }
    } else if flags_of(raw) & FL_EXTENTS != 0 {
        match shrink_planned(block_area_of(raw), 0, v.bs()) {
            Err(e) => Err(e),
            Ok((_, runs)) => Ok(runs),
        }
    } else if has_pointers(raw) {
        pointer_runs(v, raw)
    } else {
        Ok(Seq::empty())
    }
}

/// Extents as runs of device blocks.
pub open spec fn extent_runs(extents: Seq<Extent>) -> Seq<(u64, u32)> {
    Seq::new(extents.len(), |i: int| (extents[i].physical_block, extents[i].length as u32))
}

/// The runs of a whole extent tree.
pub open spec fn tree_runs(v: Vol, raw: Seq<u8>) -> Result<Seq<(u64, u32)>> {
    match extents_of(v.img, v.bs(), block_area_of(raw)) {
        Err(e) => Err(e),
        Ok(extents) => if extents.len() > 0xFFFF_FFFF {
            Err(Error::CorruptExtentTree("extent tree has too many extents"))
        } else {
            Ok(extent_runs(extents))
        },
    }
}

/// Every run of data that a directory holds.
pub open spec fn dir_runs(v: Vol, raw: Seq<u8>) -> Result<Seq<(u64, u32)>> {
    if flags_of(raw) & FL_EXTENTS != 0 {
        tree_runs(v, raw)
    } else {
        file_runs(v, raw)
    }
}

/// The stage with an inode gone: its blocks and its slot released, the totals
/// raised, and its record left dead.
pub open spec fn stage_reap(v: Vol, st: Stage, ino: u32, raw: Seq<u8>, runs: Seq<(u64, u32)>, dir: bool, now: u32) -> Result<
    Stage,
> {
    match stage_free_runs(v, st, runs) {
        Err(e) => Err(e),
        Ok(st1) => match stage_free_inode(v, st1, ino) {
            Err(e) => Err(e),
            Ok(st2) => match (if dir {
                stage_counters(v, st2, home_group(v, ino) as int, 0, 0, -1)
            } else {
                Ok(st2)
            }) {
                Err(e) => Err(e),
                Ok(st3) => match stage_totals(v, st3, runs_total(runs), 1) {
                    Err(e) => Err(e),
                    Ok(st4) => stage_inode(v, st4, ino, dead_inode(v, ino, generation_of(raw), now)),
                },
            },
        },
    }
}

/// The stage with one link of a file gone, and the file with its last one.
pub open spec fn stage_unlinked(v: Vol, st: Stage, ino: u32, raw: Seq<u8>, now: u32) -> Result<Stage> {
    if links_of(raw) > 1 {
        stage_links(v, st, ino, raw, -1)
    } else {
        match file_runs(v, raw) {
            Err(e) => Err(e),
            Ok(runs) => stage_reap(v, st, ino, raw, runs, false, now),
        }
    }
}

/// Whether a path is more than `/` and ends in a slash.
pub open spec fn slash_ended(path: Seq<u8>) -> bool {
    path.len() > 1 && path[path.len() - 1] == SLASH
}

/// What unlinking a file comes to.
pub open spec fn unlink_stage(v: Vol, path: Seq<u8>, now: u32) -> Result<Stage> {
    match parent_and_base(path) {
        Err(e) => Err(e),
        Ok((parent_path, name)) => match inode_at(v, parent_path) {
            Err(e) => Err(e),
            Ok((parent, praw)) => if !mode_is_dir(mode_of(praw)) {
                Err(Error::NotADirectory)
            } else {
                match find_entry(v, parent, praw, name) {
                    Err(e) => Err(e),
                    Ok(ino) => match checked_inode(v, ino) {
                        Err(e) => Err(e),
                        Ok(raw) => if mode_is_dir(mode_of(raw)) {
                            Err(Error::IsADirectory)
                        } else if slash_ended(path) {
                            Err(Error::NotADirectory)
                        } else {
                            match stage_remove_from(v, fresh_stage(v), parent, praw, name, 0) {
                                Err(e) => Err(e),
                                Ok(st) => stage_unlinked(v, st, ino, raw, now),
                            }
                        },
                    },
                }
            },
        },
    }
}

/// An entry that a search just found and a removal did not.
pub open spec fn vanished(r: Result<Stage>) -> Result<Stage> {
    match r {
        Err(e) => if e == Error::NotFound {
            Err(Error::Corrupt("apply_rmdir: entry disappeared mid-operation"))
        } else {
            Err(e)
        },
        Ok(st) => Ok(st),
    }
}

/// What removing a directory comes to.
pub open spec fn rmdir_stage(v: Vol, path: Seq<u8>, now: u32) -> Result<Stage> {
    match parent_and_base(path) {
        Err(e) => Err(e),
        Ok((parent_path, name)) => match inode_at(v, parent_path) {
            Err(e) => Err(e),
            Ok((parent, praw)) => if !mode_is_dir(mode_of(praw)) {
                Err(Error::NotADirectory)
            } else {
                match find_entry(v, parent, praw, name) {
                    Err(e) => Err(e),
                    Ok(ino) => match checked_inode(v, ino) {
                        Err(e) => Err(e),
                        Ok(raw) => if !mode_is_dir(mode_of(raw)) {
                            Err(Error::NotADirectory)
                        } else {
                            match dir_empty_from(v, ino, raw, 0) {
                                Err(e) => Err(e),
                                Ok(false) => Err(Error::DirectoryNotEmpty),
                                Ok(true) => match dir_runs(v, raw) {
                                    Err(e) => Err(e),
                                    Ok(runs) => match stage_reap(
                                        v,
                                        fresh_stage(v),
                                        ino,
                                        raw,
                                        runs,
                                        true,
                                        now,
                                    ) {
                                        Err(e) => Err(e),
                                        Ok(st1) => match vanished(
                                            stage_remove_from(v, st1, parent, praw, name, 0),
                                        ) {
                                            Err(e) => Err(e),
                                            Ok(st2) => stage_links(v, st2, parent, praw, -1),
                                        },
                                    },
                                },
                            }
                        },
                    },
                }
            },
        },
    }
}

impl<D: BlockDevice> Filesystem<D> {
    /// Every run that a file holds.
    pub(crate) fn plan_file_runs(&self, inode: &Inode, Ghost(raw): Ghost<Seq<u8>>) -> (r: Result<Vec<(u64, u32)>>)
        requires
            self.wf(),
            inode.decodes(raw),
        ensures
            match r {
                Ok(runs) => file_runs(self@, raw) == Ok::<Seq<(u64, u32)>, Error>(runs@) && runs_small(
                    runs@,
                ) && runs@.len() <= 0xFFFF_FFFF,
                Err(e) => file_runs(self@, raw) == Err::<Seq<(u64, u32)>, Error>(e) || (
                !self.dev.healthy() && e == Error::Io),
            },
    {
        if inode.has_extents() && inode.size == 0 {
            match self.plan_tree_runs(inode, Ghost(raw)) {
                Ok(runs) => Ok(runs),
                Err(Error::Io) => Err(Error::Io),
                Err(_) => {
                    let none: Vec<(u64, u32)> = Vec::new();
                    assert(none@ =~= Seq::<(u64, u32)>::empty());
                    Ok(none)
                },
            }
        } else if inode.has_extents() {
            match plan_truncate_shrink(0, &inode.block, self.sb.block_size()) {
                Ok(p) => Ok(p.freed),
                Err(e) => Err(e),
            }
        } else if !inode.has_inline_data() && (inode.is_file() || inode.is_dir() || (inode.is_symlink() && inode.size
            >= 60)) {
            self.plan_pointer_runs(inode, Ghost(raw))
        } else {
            let none: Vec<(u64, u32)> = Vec::new();
            assert(none@ =~= Seq::<(u64, u32)>::empty());
            Ok(none)
        }
    }

    /// The runs of a whole extent tree.
    pub(crate) fn plan_tree_runs(&self, inode: &Inode, Ghost(raw): Ghost<Seq<u8>>) -> (r: Result<Vec<(u64, u32)>>)
        requires
            self.wf(),
            inode.decodes(raw),
        ensures
            match r {
                Ok(runs) => tree_runs(self@, raw) == Ok::<Seq<(u64, u32)>, Error>(runs@) && runs_small(
                    runs@,
                ) && runs@.len() <= 0xFFFF_FFFF,
                Err(e) => tree_runs(self@, raw) == Err::<Seq<(u64, u32)>, Error>(e) || (
                !self.dev.healthy() && e == Error::Io),
            },
    {
        let extents: Vec<Extent> = match collect_all(&inode.block, &self.dev, self.sb.block_size()) {
            Ok(x) => x,
            Err(e) => {
                return Err(e);
            },
        };
        if extents.len() as u64 > 0xFFFF_FFFF {
            return Err(Error::CorruptExtentTree("extent tree has too many extents"));
        }
        proof {
            lemma_extents_short(self@.img, self@.bs(), inode.block@);
        }
        let mut runs: Vec<(u64, u32)> = Vec::new();
        let mut i: usize = 0;
        assert(runs@ =~= extent_runs(extents@.take(0)));
        while i < extents.len()
            invariant
                i <= extents@.len(),
                forall|k: int| 0 <= k < extents@.len() ==> (#[trigger] extents@[k]).length <= 32768,
                runs@ == extent_runs(extents@.take(i as int)),
                runs_small(runs@),
            decreases extents@.len() - i,
        {
            assert(extents@[i as int].length <= 32768);
            runs.push((extents[i].physical_block, extents[i].length as u32));
            i += 1;
            assert(runs@ =~= extent_runs(extents@.take(i as int)));
        }
        assert(extents@.take(i as int) =~= extents@);
        Ok(runs)
    }

    /// Every run of data that a directory holds.
    pub(crate) fn plan_dir_runs(&self, inode: &Inode, Ghost(raw): Ghost<Seq<u8>>) -> (r: Result<Vec<(u64, u32)>>)
        requires
            self.wf(),
            inode.decodes(raw),
        ensures
            match r {
                Ok(runs) => dir_runs(self@, raw) == Ok::<Seq<(u64, u32)>, Error>(runs@) && runs_small(
                    runs@,
                ) && runs@.len() <= 0xFFFF_FFFF,
                Err(e) => dir_runs(self@, raw) == Err::<Seq<(u64, u32)>, Error>(e) || (
                !self.dev.healthy() && e == Error::Io),
            },
    {
        if inode.has_extents() {
            self.plan_tree_runs(inode, Ghost(raw))
        } else {
            self.plan_file_runs(inode, Ghost(raw))
        }
    }

    /// Stage an inode's end: blocks and slot released, totals raised, record
    /// left dead.
    pub(crate) fn buffer_reap(
        &self,
        buf: &mut BlockBuffer,
        ino: u32,
        generation: u32,
        Ghost(raw): Ghost<Seq<u8>>,
        runs: &[(u64, u32)],
        dir: bool,
        now: u32,
    ) -> (r: Result<()>)
        requires
            self.wf(),
            old(buf).wf(self@),
            ino > 0,
            generation == generation_of(raw),
            runs_small(runs@),
            runs@.len() <= 0xFFFF_FFFF,
        ensures
            final(buf).wf(self@),
            staged(
                stage_reap(self@, old(buf).stage(self@), ino, raw, runs@, dir, now),
                r,
                final(buf).stage(self@),
                self.dev.healthy(),
            ),
    {
        let freed: u64 = match self.buffer_free_runs(buf, runs) {
            Ok(n) => n,
            Err(e) => {
                return Err(e);
            },
        };
        if let Err(e) = self.buffer_free_inode_slot(buf, ino) {
            return Err(e);
        }
        if dir {
            let gi: usize = ((ino - 1) / self.sb.inodes_per_group) as usize;
            if let Err(e) = self.buffer_patch_bgd_counters(buf, gi, 0, 0, -1) {
                return Err(e);
            }
        }
        if let Err(e) = self.buffer_patch_sb_counters(buf, freed as i64, 1) {
            return Err(e);
        }
        let dead: Vec<u8> = self.build_dead_inode(ino, generation, now);
        self.buffer_write_inode(buf, ino, &dead)
    }

    /// Stage one link of a file gone, and the file with its last one.
    fn buffer_unlinked(&self, buf: &mut BlockBuffer, ino: u32, inode: &Inode, raw: &[u8], now: u32) -> (r: Result<()>)
        requires
            self.wf(),
            old(buf).wf(self@),
            ino > 0,
            inode.decodes(raw@),
            raw@.len() >= 128,
        ensures
            final(buf).wf(self@),
            staged(
                stage_unlinked(self@, old(buf).stage(self@), ino, raw@, now),
                r,
                final(buf).stage(self@),
                self.dev.healthy(),
            ),
    {
        if inode.links_count > 1 {
            return self.buffer_links(buf, ino, inode, raw, -1);
        }
        let runs: Vec<(u64, u32)> = match self.plan_file_runs(inode, Ghost(raw@)) {
            Ok(x) => x,
            Err(e) => {
                return Err(e);
            },
        };
        self.buffer_reap(buf, ino, inode.generation, Ghost(raw@), &runs, false, now)
    }

    /// Unlink a regular file / symlink / special file at `path`. The inode
    /// loses a link; with its last one its blocks and its slot are released and
    /// its record is left with a deletion time.
    ///
    /// Returns `Error::NotFound` if the path doesn't exist,
    /// `Error::NotADirectory` if the parent isn't a directory or the path ends
    /// in a slash, and `Error::IsADirectory` if the target is a directory.
    pub fn apply_unlink(&mut self, path: &str, now: u32) -> (r: Result<()>)
        requires
            old(self).wf(),
        ensures
            final(self).wf(),
            same_mount(*final(self), *old(self)),
            came_out(
                unless_refused(
                    old(self).takes_writes(),
                    old(self)@,
                    done(old(self)@, unit_stage(unlink_stage(old(self)@, path_bytes(path), now))),
                ),
                r,
                final(self)@,
                old(self).dev.healthy(),
            ),
            r matches Err(Error::Io) ==> only_in(
                old(self)@,
                final(self)@,
                stage_blocks(unit_stage(unlink_stage(old(self)@, path_bytes(path), now))),
            ),
    {
        if let Err(e) = self.refuse_write() {
            return Err(e);
        }
        let bytes: &[u8] = path.as_bytes();
        let trailing_slash: bool = bytes.len() > 1 && bytes[bytes.len() - 1] == SLASH;
        let (parent_path, name): (Vec<u8>, Vec<u8>) = match split_parent_and_base(bytes) {
            Ok(p) => p,
            Err(e) => {
                return Err(e);
            },
        };
        let (parent_ino, parent_inode, parent_raw): (u32, Inode, Vec<u8>) =
            match self.inode_at_path(&parent_path) {
            Ok(p) => p,
            Err(e) => {
                return Err(e);
            },
        };
        if !parent_inode.is_dir() {
            return Err(Error::NotADirectory);
        }
        let target_ino: u32 = match self.find_entry_in_dir(
            parent_ino,
            &parent_inode,
            Ghost(parent_raw@),
            &name,
        ) {
            Ok(i) => i,
            Err(e) => {
                return Err(e);
            },
        };
        let (target_inode, target_raw): (Inode, Vec<u8>) = match self.read_inode_verified(target_ino) {
            Ok(p) => p,
            Err(e) => {
                return Err(e);
            },
        };
        if target_inode.is_dir() {
            return Err(Error::IsADirectory);
        }
        if trailing_slash {
            return Err(Error::NotADirectory);
        }
        let mut buf: BlockBuffer = BlockBuffer::new(self.sb.block_size());
        assert(buf.wf(self@));
        if let Err(e) = self.buffer_remove_dir_entry(
            &mut buf,
            parent_ino,
            &parent_inode,
            Ghost(parent_raw@),
            &name,
        ) {
            return Err(e);
        }
        if let Err(e) = self.buffer_unlinked(&mut buf, target_ino, &target_inode, &target_raw, now) {
            return Err(e);
        }
        self.commit_block_buffer(buf)
    }

    /// Remove an empty directory at `path`: it may name nothing but `.` and
    /// `..`. Its blocks and its inode are released, the entry goes, and the
    /// parent loses a link.
    pub fn apply_rmdir(&mut self, path: &str, now: u32) -> (r: Result<()>)
        requires
            old(self).wf(),
        ensures
            final(self).wf(),
            same_mount(*final(self), *old(self)),
            came_out(
                unless_refused(
                    old(self).takes_writes(),
                    old(self)@,
                    done(old(self)@, unit_stage(rmdir_stage(old(self)@, path_bytes(path), now))),
                ),
                r,
                final(self)@,
                old(self).dev.healthy(),
            ),
            r matches Err(Error::Io) ==> only_in(
                old(self)@,
                final(self)@,
                stage_blocks(unit_stage(rmdir_stage(old(self)@, path_bytes(path), now))),
            ),
    {
        if let Err(e) = self.refuse_write() {
            return Err(e);
        }
        let (parent_path, name): (Vec<u8>, Vec<u8>) = match split_parent_and_base(path.as_bytes()) {
            Ok(p) => p,
            Err(e) => {
                return Err(e);
            },
        };
        let (parent_ino, parent_inode, parent_raw): (u32, Inode, Vec<u8>) =
            match self.inode_at_path(&parent_path) {
            Ok(p) => p,
            Err(e) => {
                return Err(e);
            },
        };
        if !parent_inode.is_dir() {
            return Err(Error::NotADirectory);
        }
        let target_ino: u32 = match self.find_entry_in_dir(
            parent_ino,
            &parent_inode,
            Ghost(parent_raw@),
            &name,
        ) {
            Ok(i) => i,
            Err(e) => {
                return Err(e);
            },
        };
        let (target_inode, target_raw): (Inode, Vec<u8>) = match self.read_inode_verified(target_ino) {
            Ok(p) => p,
            Err(e) => {
                return Err(e);
            },
        };
        if !target_inode.is_dir() {
            return Err(Error::NotADirectory);
        }
        match self.dir_is_empty(target_ino, &target_inode, Ghost(target_raw@)) {
            Err(e) => {
                return Err(e);
            },
            Ok(false) => {
                return Err(Error::DirectoryNotEmpty);
            },
            Ok(true) => {},
        }
        let runs: Vec<(u64, u32)> = match self.plan_dir_runs(&target_inode, Ghost(target_raw@)) {
            Ok(x) => x,
            Err(e) => {
                return Err(e);
            },
        };
        let mut buf: BlockBuffer = BlockBuffer::new(self.sb.block_size());
        assert(buf.wf(self@));
        if let Err(e) = self.buffer_reap(
            &mut buf,
            target_ino,
            target_inode.generation,
            Ghost(target_raw@),
            &runs,
            true,
            now,
        ) {
            return Err(e);
        }
        match self.buffer_remove_dir_entry(
            &mut buf,
            parent_ino,
            &parent_inode,
            Ghost(parent_raw@),
            &name,
        ) {
            Ok(_) => {},
            Err(Error::NotFound) => {
                return Err(Error::Corrupt("apply_rmdir: entry disappeared mid-operation"));
            },
            Err(e) => {
                return Err(e);
            },
        }
        if let Err(e) = self.buffer_links(&mut buf, parent_ino, &parent_inode, &parent_raw, -1) {
            return Err(e);
        }
        self.commit_block_buffer(buf)
    }
}

} // verus!
