//! Directories of a mounted volume: finding, adding and removing names.
use crate::allocator::{blocks_for, blocks_for_bytes};
use crate::block_io::{block_at, BlockDevice};
use crate::bytes::{copy_range, put32, set_u32};
use crate::checksum::{dir_stamped, dir_tail_present, dx_stamped, has_dir_tail};
use crate::dir::{
    add_entry_to_block, add_from, find_from, find_in_block, only_dots_from, only_dots_in_block,
    remove_entry_from_block, remove_from, type_byte, DirEntryType,
};
use crate::error::{Error, Result};
use crate::fs::{checked_inode, file_block, keeps_types, Filesystem};
use crate::inode::{flags_of, generation_of, mode_is_dir, mode_of, size_of_file, Inode, FL_INDEX};
use crate::stage::staged;
use crate::volume::{stage_block, BlockBuffer, Stage, Vol};
use vstd::prelude::*;

verus! {

broadcast use crate::bytes::group_fields;

/// The root directory's inode.
pub const EXT4_ROOT_INODE: u32 = 2;

/// Longest name a directory entry can have.
pub const NAME_MAX: usize = 255;

/// How many blocks a directory of this size has.
pub open spec fn dir_blocks(v: Vol, raw: Seq<u8>) -> int {
    blocks_for(size_of_file(raw) as int, v.bs())
}

// -- finding ----------------------------------------------------------------

/// The inode that `name` names in blocks `l` and after of a directory.
pub open spec fn find_entry_from(v: Vol, ino: u32, raw: Seq<u8>, name: Seq<u8>, l: int) -> Result<u32>
    decreases dir_blocks(v, raw) - l,
{
    if l >= dir_blocks(v, raw) {
        Err(Error::NotFound)
    } else {
        match file_block(v, raw, l) {
            Err(e) => Err(e),
            Ok(None) => find_entry_from(v, ino, raw, name, l + 1),
            Ok(Some(p)) => match v.block(p as int) {
                Err(e) => Err(e),
                Ok(b) => if !v.csum.dir_ok(ino, generation_of(raw), b) {
                    Err(Error::BadChecksum("directory block"))
                } else {
                    match find_from(b, 0, name, keeps_types(v)) {
                        Err(e) => Err(e),
                        Ok(Some(found)) => Ok(found),
                        Ok(None) => find_entry_from(v, ino, raw, name, l + 1),
                    }
                },
            },
        }
    }
}

/// The inode that `name` names in directory `ino`, whose record is `raw`.
pub open spec fn find_entry(v: Vol, ino: u32, raw: Seq<u8>, name: Seq<u8>) -> Result<u32> {
    find_entry_from(v, ino, raw, name, 0)
}

/// Whether blocks `l` and after of a directory name nothing but `.` and `..`.
pub open spec fn dir_empty_from(v: Vol, ino: u32, raw: Seq<u8>, l: int) -> Result<bool>
    decreases dir_blocks(v, raw) - l,
{
    if l >= dir_blocks(v, raw) {
        Ok(true)
    } else {
        match file_block(v, raw, l) {
            Err(e) => Err(e),
            Ok(None) => dir_empty_from(v, ino, raw, l + 1),
            Ok(Some(p)) => match v.block(p as int) {
                Err(e) => Err(e),
                Ok(b) => if !v.csum.dir_ok(ino, generation_of(raw), b) {
                    Err(Error::BadChecksum("directory block"))
                } else {
                    match only_dots_from(b, 0, keeps_types(v)) {
                        Err(e) => Err(e),
                        Ok(false) => Ok(false),
                        Ok(true) => dir_empty_from(v, ino, raw, l + 1),
                    }
                },
            },
        }
    }
}

// -- paths ------------------------------------------------------------------

/// `/`.
pub const SLASH: u8 = 0x2F;

/// Where the path component that starts at `at` ends.
pub open spec fn component_end(path: Seq<u8>, at: int) -> int
    decreases path.len() - at,
{
    if at >= path.len() || path[at] == SLASH {
        at
    } else {
        component_end(path, at + 1)
    }
}

pub(crate) proof fn lemma_component_end(path: Seq<u8>, at: int)
    requires
        0 <= at <= path.len(),
    ensures
        at <= component_end(path, at) <= path.len(),
        at < path.len() && path[at] != SLASH ==> at < component_end(path, at),
    decreases path.len() - at,
{
    if at < path.len() && path[at] != SLASH {
        lemma_component_end(path, at + 1);
    }
}

/// The inode that the rest of a path leads to from inode `ino`. Every
/// component is looked up in a directory; empty ones are skipped.
pub open spec fn walk_from(v: Vol, path: Seq<u8>, at: int, ino: u32) -> Result<u32>
    decreases path.len() - at via walk_from_decreases
{
    if at < 0 || at >= path.len() {
        Ok(ino)
    } else if path[at] == SLASH {
        walk_from(v, path, at + 1, ino)
    } else {
        match checked_inode(v, ino) {
            Err(e) => Err(e),
            Ok(raw) => if !mode_is_dir(mode_of(raw)) {
                Err(Error::NotADirectory)
            } else {
                match find_entry(v, ino, raw, path.subrange(at, component_end(path, at))) {
                    Err(e) => Err(e),
                    Ok(child) => walk_from(v, path, component_end(path, at), child),
                }
            },
        }
    }
}

#[via_fn]
proof fn walk_from_decreases(v: Vol, path: Seq<u8>, at: int, ino: u32) {
    if 0 <= at < path.len() {
        lemma_component_end(path, at);
    }
}

/// The inode that an absolute path leads to.
pub open spec fn resolve(v: Vol, path: Seq<u8>) -> Result<u32> {
    walk_from(v, path, 0, EXT4_ROOT_INODE)
}

/// The length of a path without its trailing slashes.
pub open spec fn trimmed_len(path: Seq<u8>, n: int) -> int
    decreases n,
{
    if n > 0 && path[n - 1] == SLASH {
        trimmed_len(path, n - 1)
    } else {
        n
    }
}

/// The last slash before `n`.
pub open spec fn last_slash(path: Seq<u8>, n: int) -> Option<int>
    decreases n,
{
    if n <= 0 {
        None
    } else if path[n - 1] == SLASH {
        Some(n - 1)
    } else {
        last_slash(path, n - 1)
    }
}

/// A path as the directory it is in and its last name.
pub open spec fn parent_and_base(path: Seq<u8>) -> Result<(Seq<u8>, Seq<u8>)> {
    let n = trimmed_len(path, path.len() as int);
    if n == 0 {
        Err(Error::InvalidArgument("empty path"))
    } else {
        match last_slash(path, n) {
            None => Err(Error::InvalidArgument("relative path")),
            Some(i) => Ok(
                (
                    if i == 0 {
                        seq![SLASH]
                    } else {
                        path.subrange(0, i)
                    },
                    path.subrange(i + 1, n),
                ),
            ),
        }
    }
}

/// Split a `/a/b/c` path into (`/a/b`, `c`). Returns an error for empty or
/// `"/"` paths (no basename to act on).
pub fn split_parent_and_base(path: &[u8]) -> (r: Result<(Vec<u8>, Vec<u8>)>)
    ensures
        match r {
            Ok((p, b)) => parent_and_base(path@) == Ok::<(Seq<u8>, Seq<u8>), Error>((p@, b@)),
            Err(e) => parent_and_base(path@) == Err::<(Seq<u8>, Seq<u8>), Error>(e),
        },
{
    let mut n: usize = path.len();
    while n > 0 && path[n - 1] == SLASH
        invariant
            n <= path@.len(),
            trimmed_len(path@, path@.len() as int) == trimmed_len(path@, n as int),
        decreases n,
    {
        n -= 1;
    }
    if n == 0 {
        return Err(Error::InvalidArgument("empty path"));
    }
    let mut i: usize = n;
    while i > 0 && path[i - 1] != SLASH
        invariant
            i <= n <= path@.len(),
            last_slash(path@, n as int) == last_slash(path@, i as int),
        decreases i,
    {
        i -= 1;
    }
    if i == 0 {
        return Err(Error::InvalidArgument("relative path"));
    }
    let base: Vec<u8> = copy_range(path, i, n);
    let parent: Vec<u8> = if i == 1 {
        let root: Vec<u8> = vec![SLASH];
        assert(root@ =~= seq![SLASH]);
        root
    } else {
        copy_range(path, 0, i - 1)
    };
    Ok((parent, base))
}

// -- adding and removing ----------------------------------------------------

/// How much of a directory block's end is its checksum record.
pub open spec fn tail_of(v: Vol, b: Seq<u8>) -> int {
    if v.csum.enabled && dir_tail_present(b) {
        12
    } else {
        0
    }
}

/// An edited directory block, with its checksum brought up to date if the
/// block had one.
pub open spec fn dir_restamped(v: Vol, ino: u32, raw: Seq<u8>, tail: int, b: Seq<u8>) -> Seq<u8> {
    if tail == 12 {
        dir_stamped(v.csum.seed, ino, generation_of(raw), b)
    } else {
        b
    }
}

/// The stage with `name` taken out of blocks `l` and after of a directory.
pub open spec fn stage_remove_from(v: Vol, st: Stage, ino: u32, raw: Seq<u8>, name: Seq<u8>, l: int) -> Result<
    Stage,
>
    decreases dir_blocks(v, raw) - l,
{
    if l >= dir_blocks(v, raw) {
        Err(Error::NotFound)
    } else {
        match file_block(v, raw, l) {
            Err(e) => Err(e),
            Ok(None) => stage_remove_from(v, st, ino, raw, name, l + 1),
            Ok(Some(p)) => match block_at(st.img, v.bs(), p as int) {
                Err(e) => Err(e),
                Ok(b) => match remove_from(
                    b,
                    None,
                    0,
                    b.len() - tail_of(v, b),
                    name,
                    keeps_types(v),
                ) {
                    Err(e) => Err(e),
                    Ok(None) => stage_remove_from(v, st, ino, raw, name, l + 1),
                    Ok(Some(out)) => Ok(
                        stage_block(v, st, p as int, dir_restamped(v, ino, raw, tail_of(v, b), out)),
                    ),
                },
            },
        }
    }
}

/// The stage with an entry for `name` in the first of blocks `l` and after
/// that has room.
pub open spec fn stage_add_from(
    v: Vol,
    st: Stage,
    ino: u32,
    raw: Seq<u8>,
    name: Seq<u8>,
    target: u32,
    ft: DirEntryType,
    l: int,
) -> Result<Stage>
    decreases dir_blocks(v, raw) - l,
{
    if l >= dir_blocks(v, raw) {
        Err(Error::OutOfBounds)
    } else {
        match file_block(v, raw, l) {
            Err(e) => Err(e),
            Ok(None) => stage_add_from(v, st, ino, raw, name, target, ft, l + 1),
            Ok(Some(p)) => match block_at(st.img, v.bs(), p as int) {
                Err(e) => Err(e),
                Ok(b) => match add_from(
                    b,
                    0,
                    b.len() - tail_of(v, b),
                    target,
                    name,
                    type_byte(ft, keeps_types(v)),
                    keeps_types(v),
                ) {
                    Err(e) => if e == Error::OutOfBounds {
                        stage_add_from(v, st, ino, raw, name, target, ft, l + 1)
                    } else {
                        Err(e)
                    },
                    Ok(out) => Ok(
                        stage_block(v, st, p as int, dir_restamped(v, ino, raw, tail_of(v, b), out)),
                    ),
                },
            },
        }
    }
}

/// The stage with an entry for `name` in a directory that need not grow. An
/// indexed directory has no block that entries may be added to at will.
pub open spec fn stage_add_entry(
    v: Vol,
    st: Stage,
    ino: u32,
    raw: Seq<u8>,
    name: Seq<u8>,
    target: u32,
    ft: DirEntryType,
) -> Result<Stage> {
    if flags_of(raw) & FL_INDEX != 0 {
        Err(Error::OutOfBounds)
    } else {
        stage_add_from(v, st, ino, raw, name, target, ft, 0)
    }
}

/// The stage with a directory's `..` pointing at `parent`.
pub open spec fn stage_dotdot(v: Vol, st: Stage, ino: u32, raw: Seq<u8>, parent: u32) -> Result<Stage> {
    match file_block(v, raw, 0) {
        Err(e) => Err(e),
        Ok(None) => Err(Error::Corrupt("buffer_update_dotdot: dir block 0 missing")),
        Ok(Some(p)) => match block_at(st.img, v.bs(), p as int) {
            Err(e) => Err(e),
            Ok(b) => {
                let out = put32(b, 12, parent);
                Ok(
                    stage_block(
                        v,
                        st,
                        p as int,
                        if flags_of(raw) & FL_INDEX != 0 {
                            if v.csum.enabled {
                                dx_stamped(v.csum.seed, ino, generation_of(raw), out, 32)
                            } else {
                                out
                            }
                        } else {
                            dir_restamped(v, ino, raw, tail_of(v, out), out)
                        },
                    ),
                )
            },
        },
    }
}

impl<D: BlockDevice> Filesystem<D> {
    /// Refuse a directory block whose checksum record does not verify, before
    /// anything reads entries out of it.
    fn refuse_unverified_dir_block(&self, ino: u32, generation: u32, block: &[u8]) -> (r: Result<()>)
        ensures
            r == (if self@.csum.dir_ok(ino, generation, block@) {
                Ok::<(), Error>(())
            } else {
                Err(Error::BadChecksum("directory block"))
            }),
    {
        if !self.csum.verify_dir_entry_tail(ino, generation, block) {
            return Err(Error::BadChecksum("directory block"));
        }
        Ok(())
    }

    /// Find `name` in directory `dir_inode`: scans each data block. Returns
    /// the inode number or `Error::NotFound`.
    pub(crate) fn find_entry_in_dir(&self, dir_ino: u32, dir_inode: &Inode, Ghost(raw): Ghost<Seq<u8>>, name: &[u8]) -> (r: Result<
        u32,
    >)
        requires
            self.wf(),
            dir_inode.decodes(raw),
        ensures
            match r {
                Ok(i) => find_entry(self@, dir_ino, raw, name@) == Ok::<u32, Error>(i),
                Err(e) => find_entry(self@, dir_ino, raw, name@) == Err::<u32, Error>(e) || (
                !self.dev.healthy() && e == Error::Io),
            },
    {
        let has_ft: bool = self.has_file_types();
        let n: u64 = blocks_for_bytes(dir_inode.size, self.sb.block_size() as u64);
        let mut l: u64 = 0;
        while l < n
            invariant
                self.wf(),
                dir_inode.decodes(raw),
                has_ft == keeps_types(self@),
                n == dir_blocks(self@, raw),
                find_entry(self@, dir_ino, raw, name@) == find_entry_from(
                    self@,
                    dir_ino,
                    raw,
                    name@,
                    l as int,
                ),
            decreases n - l,
        {
            match self.map_inode_logical(dir_inode, l) {
                Err(e) => {
                    return Err(e);
                },
                Ok(None) => {},
                Ok(Some(p)) => {
                    let block: Vec<u8> = match self.read_block(p) {
                        Ok(b) => b,
                        Err(e) => {
                            return Err(e);
                        },
                    };
                    if let Err(e) = self.refuse_unverified_dir_block(
                        dir_ino,
                        dir_inode.generation,
                        &block,
                    ) {
                        return Err(e);
                    }
                    match find_in_block(&block, name, has_ft) {
                        Err(e) => {
                            return Err(e);
                        },
                        Ok(Some(found)) => {
                            return Ok(found);
                        },
                        Ok(None) => {},
                    }
                },
            }
            l += 1;
        }
        Err(Error::NotFound)
    }

    /// Does `name` already exist in `dir_inode`? Only `NotFound` means absent;
    /// every other error goes to the caller.
    pub(crate) fn entry_exists(&self, dir_ino: u32, dir_inode: &Inode, Ghost(raw): Ghost<Seq<u8>>, name: &[u8]) -> (r: Result<
        bool,
    >)
        requires
            self.wf(),
            dir_inode.decodes(raw),
        ensures
            match find_entry(self@, dir_ino, raw, name@) {
                Ok(_) => r == Ok::<bool, Error>(true) || (!self.dev.healthy() && r == Err::<bool, Error>(
                    Error::Io,
                )),
                Err(e) => r == (if e == Error::NotFound {
                    Ok::<bool, Error>(false)
                } else {
                    Err(e)
                }) || (!self.dev.healthy() && r == Err::<bool, Error>(Error::Io)),
            },
    {
        match self.find_entry_in_dir(dir_ino, dir_inode, Ghost(raw), name) {
            Ok(_) => Ok(true),
            Err(Error::NotFound) => Ok(false),
            Err(e) => Err(e),
        }
    }

    /// Whether a directory names nothing but `.` and `..`.
    pub(crate) fn dir_is_empty(&self, dir_ino: u32, dir_inode: &Inode, Ghost(raw): Ghost<Seq<u8>>) -> (r: Result<bool>)
        requires
            self.wf(),
            dir_inode.decodes(raw),
        ensures
            match r {
                Ok(b) => dir_empty_from(self@, dir_ino, raw, 0) == Ok::<bool, Error>(b),
                Err(e) => dir_empty_from(self@, dir_ino, raw, 0) == Err::<bool, Error>(e) || (
                !self.dev.healthy() && e == Error::Io),
            },
    {
        let has_ft: bool = self.has_file_types();
        let n: u64 = blocks_for_bytes(dir_inode.size, self.sb.block_size() as u64);
        let mut l: u64 = 0;
        while l < n
            invariant
                self.wf(),
                dir_inode.decodes(raw),
                has_ft == keeps_types(self@),
                n == dir_blocks(self@, raw),
                dir_empty_from(self@, dir_ino, raw, 0) == dir_empty_from(self@, dir_ino, raw, l as int),
            decreases n - l,
        {
            match self.map_inode_logical(dir_inode, l) {
                Err(e) => {
                    return Err(e);
                },
                Ok(None) => {},
                Ok(Some(p)) => {
                    let block: Vec<u8> = match self.read_block(p) {
                        Ok(b) => b,
                        Err(e) => {
                            return Err(e);
                        },
                    };
                    if let Err(e) = self.refuse_unverified_dir_block(
                        dir_ino,
                        dir_inode.generation,
                        &block,
                    ) {
                        return Err(e);
                    }
                    match only_dots_in_block(&block, has_ft) {
                        Err(e) => {
                            return Err(e);
                        },
                        Ok(false) => {
                            return Ok(false);
                        },
                        Ok(true) => {},
                    }
                },
            }
            l += 1;
        }
        Ok(true)
    }

    /// Resolve an absolute path to an inode number, one directory at a time.
    pub fn lookup_path(&self, path: &[u8]) -> (r: Result<u32>)
        requires
            self.wf(),
        ensures
            match r {
                Ok(i) => resolve(self@, path@) == Ok::<u32, Error>(i),
                Err(e) => resolve(self@, path@) == Err::<u32, Error>(e) || (!self.dev.healthy() && e
                    == Error::Io),
            },
    {
        let mut ino: u32 = EXT4_ROOT_INODE;
        let mut at: usize = 0;
        while at < path.len()
            invariant
                self.wf(),
                at <= path@.len(),
                resolve(self@, path@) == walk_from(self@, path@, at as int, ino),
            decreases path@.len() - at,
        {
            if path[at] == SLASH {
                at += 1;
            } else {
                proof {
                    lemma_component_end(path@, at as int);
                }
                let mut end: usize = at;
                while end < path.len() && path[end] != SLASH
                    invariant
                        at <= end <= path@.len(),
                        component_end(path@, at as int) == component_end(path@, end as int),
                    decreases path@.len() - end,
                {
                    end += 1;
                }
                let (inode, raw): (Inode, Vec<u8>) = match self.read_inode_verified(ino) {
                    Ok(p) => p,
                    Err(e) => {
                        return Err(e);
                    },
                };
                if !inode.is_dir() {
                    return Err(Error::NotADirectory);
                }
                let name: Vec<u8> = copy_range(path, at, end);
                ino = match self.find_entry_in_dir(ino, &inode, Ghost(raw@), &name) {
                    Ok(i) => i,
                    Err(e) => {
                        return Err(e);
                    },
                };
                at = end;
            }
        }
        Ok(ino)
    }

    /// Stage the removal of an entry: the directory's blocks are searched, the
    /// block that had it is edited and its checksum recomputed. `NotFound`
    /// when the name isn't present.
    pub(crate) fn buffer_remove_dir_entry(
        &self,
        buf: &mut BlockBuffer,
        parent_ino: u32,
        parent_inode: &Inode,
        Ghost(raw): Ghost<Seq<u8>>,
        name: &[u8],
    ) -> (r: Result<()>)
        requires
            self.wf(),
            old(buf).wf(self@),
            parent_inode.decodes(raw),
        ensures
            final(buf).wf(self@),
            staged(
                stage_remove_from(self@, old(buf).stage(self@), parent_ino, raw, name@, 0),
                r,
                final(buf).stage(self@),
                self.dev.healthy(),
            ),
    {
        let has_ft: bool = self.has_file_types();
        let n: u64 = blocks_for_bytes(parent_inode.size, self.sb.block_size() as u64);
        let mut l: u64 = 0;
        while l < n
            invariant
                self.wf(),
                old(buf).wf(self@),
                buf == old(buf),
                parent_inode.decodes(raw),
                has_ft == keeps_types(self@),
                n == dir_blocks(self@, raw),
                stage_remove_from(self@, old(buf).stage(self@), parent_ino, raw, name@, 0)
                    == stage_remove_from(
                    self@,
                    old(buf).stage(self@),
                    parent_ino,
                    raw,
                    name@,
                    l as int,
                ),
            decreases n - l,
        {
            match self.map_inode_logical(parent_inode, l) {
                Err(e) => {
                    return Err(e);
                },
                Ok(None) => {},
                Ok(Some(p)) => {
                    let mut block: Vec<u8> = match self.staged_block(buf, p) {
                        Ok(b) => b,
                        Err(e) => {
                            return Err(e);
                        },
                    };
                    let reserved_tail: usize = if self.csum.enabled && has_dir_tail(&block) {
                        12
                    } else {
                        0
                    };
                    match remove_entry_from_block(&mut block, name, has_ft, reserved_tail) {
                        Err(e) => {
                            return Err(e);
                        },
                        Ok(false) => {},
                        Ok(true) => {
                            if reserved_tail == 12 {
                                self.csum.patch_dir_entry_tail(
                                    parent_ino,
                                    parent_inode.generation,
                                    &mut block,
                                );
                            }
                            buf.put(p, block);
                            return Ok(());
                        },
                    }
                },
            }
            l += 1;
        }
        Err(Error::NotFound)
    }

    /// Stage an entry in the first block of a directory that has room for it.
    /// `OutOfBounds` when none has, and nothing is staged.
    pub(crate) fn buffer_add_dir_entry_inplace(
        &self,
        buf: &mut BlockBuffer,
        parent_ino: u32,
        parent_inode: &Inode,
        Ghost(raw): Ghost<Seq<u8>>,
        name: &[u8],
        target_ino: u32,
        file_type: DirEntryType,
    ) -> (r: Result<()>)
        requires
            self.wf(),
            old(buf).wf(self@),
            parent_inode.decodes(raw),
            name@.len() <= NAME_MAX,
        ensures
            final(buf).wf(self@),
            staged(
                stage_add_entry(
                    self@,
                    old(buf).stage(self@),
                    parent_ino,
                    raw,
                    name@,
                    target_ino,
                    file_type,
                ),
                r,
                final(buf).stage(self@),
                self.dev.healthy(),
            ),
            r is Err ==> final(buf).stage(self@) == old(buf).stage(self@),
    {
        if parent_inode.flags & FL_INDEX != 0 {
            return Err(Error::OutOfBounds);
        }
        let has_ft: bool = self.has_file_types();
        let n: u64 = blocks_for_bytes(parent_inode.size, self.sb.block_size() as u64);
        let mut l: u64 = 0;
        while l < n
            invariant
                self.wf(),
                old(buf).wf(self@),
                buf == old(buf),
                parent_inode.decodes(raw),
                name@.len() <= NAME_MAX,
                has_ft == keeps_types(self@),
                n == dir_blocks(self@, raw),
                stage_add_entry(
                    self@,
                    old(buf).stage(self@),
                    parent_ino,
                    raw,
                    name@,
                    target_ino,
                    file_type,
                ) == stage_add_from(
                    self@,
                    old(buf).stage(self@),
                    parent_ino,
                    raw,
                    name@,
                    target_ino,
                    file_type,
                    l as int,
                ),
            decreases n - l,
        {
            match self.map_inode_logical(parent_inode, l) {
                Err(e) => {
                    return Err(e);
                },
                Ok(None) => {},
                Ok(Some(p)) => {
                    let mut block: Vec<u8> = match self.staged_block(buf, p) {
                        Ok(b) => b,
                        Err(e) => {
                            return Err(e);
                        },
                    };
                    let reserved_tail: usize = if self.csum.enabled && has_dir_tail(&block) {
                        12
                    } else {
                        0
                    };
                    match add_entry_to_block(
                        &mut block,
                        target_ino,
                        name,
                        file_type,
                        has_ft,
                        reserved_tail,
                    ) {
                        Ok(_) => {
                            if reserved_tail == 12 {
                                self.csum.patch_dir_entry_tail(
                                    parent_ino,
                                    parent_inode.generation,
                                    &mut block,
                                );
                            }
                            buf.put(p, block);
                            return Ok(());
                        },
                        Err(Error::OutOfBounds) => {},
                        Err(e) => {
                            return Err(e);
                        },
                    }
                },
            }
            l += 1;
        }
        Err(Error::OutOfBounds)
    }

    /// Stage a new parent for a directory: the `..` entry in its first block.
    pub(crate) fn buffer_update_dotdot(
        &self,
        buf: &mut BlockBuffer,
        dir_ino: u32,
        dir_inode: &Inode,
        Ghost(raw): Ghost<Seq<u8>>,
        new_parent_ino: u32,
    ) -> (r: Result<()>)
        requires
            self.wf(),
            old(buf).wf(self@),
            dir_inode.decodes(raw),
        ensures
            final(buf).wf(self@),
            staged(
                stage_dotdot(self@, old(buf).stage(self@), dir_ino, raw, new_parent_ino),
                r,
                final(buf).stage(self@),
                self.dev.healthy(),
            ),
    {
        let p: u64 = match self.map_inode_logical(dir_inode, 0) {
            Err(e) => {
                return Err(e);
            },
            Ok(None) => {
                return Err(Error::Corrupt("buffer_update_dotdot: dir block 0 missing"));
            },
            Ok(Some(p)) => p,
        };
        let mut block: Vec<u8> = match self.staged_block(buf, p) {
            Ok(b) => b,
            Err(e) => {
                return Err(e);
            },
        };
        set_u32(&mut block, 12, new_parent_ino);
        if dir_inode.flags & FL_INDEX != 0 {
            if self.csum.enabled {
                self.csum.patch_dx_tail(dir_ino, dir_inode.generation, &mut block, 32);
            }
        } else if self.csum.enabled && has_dir_tail(&block) {
            self.csum.patch_dir_entry_tail(dir_ino, dir_inode.generation, &mut block);
        }
        buf.put(p, block);
        Ok(())
    }
}

} // verus!
