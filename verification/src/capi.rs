//! What a host asks of a mounted filesystem, by path: the answers as plain
//! values, ready to be handed across a C interface.
use crate::allocator::{blocks_for, blocks_for_bytes};
use crate::attr::{grow_stage, path_bytes, shrink_stage, unless_refused};
use crate::block_io::BlockDevice;
use crate::bytes::{copy_range, splice, zeroed, zeros};
use crate::commit::{came_out, done, only_in, same_mount, stage_blocks, unit_stage};
use crate::contents::replaced_content;
use crate::dir::{list_from, parse_block, record_views, Record, RecordView};
use crate::dirops::{resolve, SLASH};
use crate::error::{Error, Result};
use crate::extent::{block_for, map_logical};
use crate::file_io::{any_bytes, read_bytes, read_verified, read_with_raw_verified, tree_of};
use crate::fs::{checked_inode, keeps_types, Filesystem};
use crate::inode::{
    block_area_of, flags_of, mode_is_dir, mode_is_file, mode_is_symlink, mode_of, size_of_file, Inode, FL_EXTENTS,
    FL_INLINE_DATA, S_IFBLK, S_IFCHR, S_IFDIR, S_IFIFO, S_IFLNK, S_IFMT, S_IFREG, S_IFSOCK,
};
use crate::names::slash_ended;
use crate::volume::Vol;
use crate::xattr::XattrEntry;
use crate::xattr_ops::{all_attrs, prefix_of};
use vstd::prelude::*;
use vstd::string::*;

verus! {

/// What kind of file something is.
#[allow(non_camel_case_types)]
#[derive(Debug, Clone, Copy, PartialEq, Eq, Structural)]
pub enum fs_ext4_file_type_t {
    Unknown,
    RegFile,
    Dir,
    ChrDev,
    BlkDev,
    Fifo,
    Sock,
    Symlink,
}

/// The kind that a mode says.
pub open spec fn file_type_of(mode: u16) -> fs_ext4_file_type_t {
    let t = mode & S_IFMT;
    if t == S_IFREG {
        fs_ext4_file_type_t::RegFile
    } else if t == S_IFDIR {
        fs_ext4_file_type_t::Dir
    } else if t == S_IFLNK {
        fs_ext4_file_type_t::Symlink
    } else if t == S_IFCHR {
        fs_ext4_file_type_t::ChrDev
    } else if t == S_IFBLK {
        fs_ext4_file_type_t::BlkDev
    } else if t == S_IFIFO {
        fs_ext4_file_type_t::Fifo
    } else if t == S_IFSOCK {
        fs_ext4_file_type_t::Sock
    } else {
        fs_ext4_file_type_t::Unknown
    }
}

/// The kind that mode bits say.
pub fn mode_to_file_type(mode: u16) -> (r: fs_ext4_file_type_t)
    ensures
        r == file_type_of(mode),
{
    let t: u16 = mode & S_IFMT;
    if t == S_IFREG {
        fs_ext4_file_type_t::RegFile
    } else if t == S_IFDIR {
        fs_ext4_file_type_t::Dir
    } else if t == S_IFLNK {
        fs_ext4_file_type_t::Symlink
    } else if t == S_IFCHR {
        fs_ext4_file_type_t::ChrDev
    } else if t == S_IFBLK {
        fs_ext4_file_type_t::BlkDev
    } else if t == S_IFIFO {
        fs_ext4_file_type_t::Fifo
    } else if t == S_IFSOCK {
        fs_ext4_file_type_t::Sock
    } else {
        fs_ext4_file_type_t::Unknown
    }
}

impl fs_ext4_file_type_t {
    /// The number that hosts know the kind by.
    pub fn code(self) -> (r: u32)
        ensures
            r == (match self {
                fs_ext4_file_type_t::Unknown => 0u32,
                fs_ext4_file_type_t::RegFile => 1u32,
                fs_ext4_file_type_t::Dir => 2u32,
                fs_ext4_file_type_t::ChrDev => 3u32,
                fs_ext4_file_type_t::BlkDev => 4u32,
                fs_ext4_file_type_t::Fifo => 5u32,
                fs_ext4_file_type_t::Sock => 6u32,
                fs_ext4_file_type_t::Symlink => 7u32,
            }),
    {
        match self {
            fs_ext4_file_type_t::Unknown => 0,
            fs_ext4_file_type_t::RegFile => 1,
            fs_ext4_file_type_t::Dir => 2,
            fs_ext4_file_type_t::ChrDev => 3,
            fs_ext4_file_type_t::BlkDev => 4,
            fs_ext4_file_type_t::Fifo => 5,
            fs_ext4_file_type_t::Sock => 6,
            fs_ext4_file_type_t::Symlink => 7,
        }
    }
}

/// What is known of a file.
#[allow(non_camel_case_types)]
#[derive(Debug, Clone, Copy)]
pub struct fs_ext4_attr_t {
    pub inode: u32,
    /// Permission bits alone.
    pub mode: u16,
    pub uid: u32,
    pub gid: u32,
    pub size: u64,
    pub atime: u32,
    pub mtime: u32,
    pub ctime: u32,
    pub crtime: u32,
    pub link_count: u16,
    pub file_type: fs_ext4_file_type_t,
}

/// A time as hosts get it: its low 32 bits.
pub open spec fn host_time(t: i64) -> u32 {
    (t as int % 0x1_0000_0000) as u32
}

/// What is known of a file with this inode.
pub open spec fn attr_of(ino: u32, inode: Inode) -> fs_ext4_attr_t {
    fs_ext4_attr_t {
        inode: ino,
        mode: inode.mode & 0x0FFF,
        uid: inode.uid,
        gid: inode.gid,
        size: inode.size,
        atime: host_time(inode.atime),
        mtime: host_time(inode.mtime),
        ctime: host_time(inode.ctime),
        crtime: host_time(inode.crtime),
        link_count: inode.links_count,
        file_type: file_type_of(inode.mode),
    }
}

/// `a` is what is known of a file with this record.
pub open spec fn is_attr_of(a: fs_ext4_attr_t, ino: u32, raw: Seq<u8>) -> bool {
    exists|inode: Inode| #[trigger] inode.decodes(raw) && a == attr_of(ino, inode)
}

fn low_time(t: i64) -> (r: u32)
    ensures
        r == host_time(t),
{
    if t >= 0 {
        (t as u64 % 0x1_0000_0000) as u32
    } else {
        let up: u64 = (t as i128 + 0x1_0000_0000_0000_0000i128) as u64;
        proof {
            let x = t as int;
            assert((x + 0x1_0000_0000int * 0x1_0000_0000int) % 0x1_0000_0000int == x % 0x1_0000_0000int)
                by (nonlinear_arith);
        }
        (up % 0x1_0000_0000) as u32
    }
}

/// What is known of a file, from its inode.
pub fn fill_attr(ino: u32, inode: &Inode) -> (r: fs_ext4_attr_t)
    ensures
        r == attr_of(ino, *inode),
{
    fs_ext4_attr_t {
        inode: ino,
        mode: inode.mode & 0x0FFF,
        uid: inode.uid,
        gid: inode.gid,
        size: inode.size,
        atime: low_time(inode.atime),
        mtime: low_time(inode.mtime),
        ctime: low_time(inode.ctime),
        crtime: low_time(inode.crtime),
        link_count: inode.links_count,
        file_type: mode_to_file_type(inode.mode),
    }
}

/// What is known of a volume.
#[derive(Debug)]
pub struct VolumeInfo {
    pub volume_name: Vec<u8>,
    pub block_size: u32,
    pub total_blocks: u64,
    pub free_blocks: u64,
    pub total_inodes: u32,
    pub free_inodes: u32,
    /// Whether the volume was in use, or had errors, when it was last left.
    pub mounted_dirty: bool,
}

// -- paths ------------------------------------------------------------------

/// The inode that a host's path leads to, with its record. A path that ends in
/// a slash leads to a directory or nowhere.
pub open spec fn host_inode(v: Vol, path: Seq<u8>) -> Result<(u32, Seq<u8>)> {
    match resolve(v, path) {
        Err(e) => Err(e),
        Ok(ino) => match checked_inode(v, ino) {
            Err(e) => Err(e),
            Ok(raw) => if slash_ended(path) && !mode_is_dir(mode_of(raw)) {
                Err(Error::NotADirectory)
            } else {
                Ok((ino, raw))
            },
        },
    }
}

/// The entries in block `l` of a directory.
pub open spec fn block_listing(v: Vol, area: Seq<u8>, l: int) -> Result<Seq<RecordView>> {
    match block_for(v.img, v.bs(), area, l) {
        Err(e) => Err(e),
        Ok(None) => Ok(Seq::empty()),
        Ok(Some(p)) => match v.block(p as int) {
            Err(e) => Err(e),
            Ok(b) => list_from(b, 0, keeps_types(v)),
        },
    }
}

/// The entries in the first `n` blocks of a directory.
pub open spec fn listed_in(v: Vol, raw: Seq<u8>, n: nat) -> Result<Seq<RecordView>>
    decreases n,
{
    if n == 0 {
        Ok(Seq::empty())
    } else {
        match listed_in(v, raw, (n - 1) as nat) {
            Err(e) => Err(e),
            Ok(before) => match block_listing(v, block_area_of(raw), n - 1) {
                Err(e) => Err(e),
                Ok(here) => Ok(before + here),
            },
        }
    }
}

/// The entries of a directory, in order.
pub open spec fn dir_listing(v: Vol, raw: Seq<u8>) -> Result<Seq<RecordView>> {
    if flags_of(raw) & FL_EXTENTS == 0 {
        Err(Error::Corrupt("legacy (non-extent) dirs not yet supported"))
    } else if flags_of(raw) & FL_INLINE_DATA != 0 {
        list_from(block_area_of(raw), 0, keeps_types(v))
    } else {
        listed_in(v, raw, blocks_for(size_of_file(raw) as int, v.bs()) as nat)
    }
}

/// What listing the directory at a path gives.
pub open spec fn host_listing(v: Vol, path: Seq<u8>) -> Result<Seq<RecordView>> {
    match host_inode(v, path) {
        Err(e) => Err(e),
        Ok((_, raw)) => if !mode_is_dir(mode_of(raw)) {
            Err(Error::NotADirectory)
        } else {
            dir_listing(v, raw)
        },
    }
}

/// What a link with this inode leads to. A short target is kept in the inode.
pub open spec fn link_target(v: Vol, ino: u32, inode: Inode) -> Result<Seq<u8>> {
    if inode.size < 60 {
        Ok(inode.block@.subrange(0, inode.size as int))
    } else if inode.size > u32::MAX {
        Err(Error::Corrupt("symlink target too long"))
    } else {
        match read_bytes(
            v,
            inode,
            tree_of(v, inode, ino),
            0,
            inode.size as int,
            inode.size as int,
        ) {
            Err(e) => Err(e),
            Ok(b) => Ok(splice(zeros(inode.size as nat), 0, b)),
        }
    }
}

/// Text cut to fit a buffer of `room` bytes with the zero that ends it.
pub open spec fn cut_to(text: Seq<u8>, room: int) -> Seq<u8> {
    text.subrange(
        0,
        if text.len() < room {
            text.len() as int
        } else {
            room - 1
        },
    ).push(0u8)
}

/// Names one after the other, each with a zero behind it.
pub open spec fn packed(names: Seq<Seq<u8>>) -> Seq<u8>
    decreases names.len(),
{
    if names.len() == 0 {
        Seq::empty()
    } else {
        packed(names.drop_last()) + names.last().push(0u8)
    }
}

/// How many names, from the first on, fit in `room` bytes.
pub open spec fn fitting(names: Seq<Seq<u8>>, room: int, n: nat) -> nat
    decreases names.len() - n,
{
    if n >= names.len() || packed(names.take(n as int + 1)).len() > room {
        n
    } else {
        fitting(names, room, n + 1)
    }
}

/// The full names of some attributes.
pub open spec fn names_of(attrs: Seq<crate::xattr::Attr>) -> Seq<Seq<u8>> {
    Seq::new(attrs.len(), |i: int| prefix_of(attrs[i].index) + attrs[i].name)
}

/// Lists of bytes as values.
pub open spec fn names_view(s: Seq<Vec<u8>>) -> Seq<Seq<u8>> {
    Seq::new(s.len(), |i: int| s[i]@)
}

/// Cut text to fit a buffer of `room` bytes, with the zero that ends it.
pub fn cut_with_nul(text: &[u8], room: usize) -> (r: Vec<u8>)
    requires
        room > 0,
    ensures
        r@ == cut_to(text@, room as int),
        r@.len() <= room,
{
    let n: usize = if text.len() < room {
        text.len()
    } else {
        room - 1
    };
    let mut out: Vec<u8> = copy_range(text, 0, n);
    out.push(0);
    out
}

/// The names that fit in `room` bytes, each with a zero behind it: all of them
/// up to the first that does not fit.
pub fn pack_names(names: &[Vec<u8>], room: usize) -> (r: Vec<u8>)
    ensures
        r@ == packed(names_view(names@).take(fitting(names_view(names@), room as int, 0) as int)),
        r@.len() <= room,
{
    let ghost all = names_view(names@);
    let mut out: Vec<u8> = Vec::new();
    let mut i: usize = 0;
    assert(all.take(0) =~= Seq::<Seq<u8>>::empty());
    while i < names.len()
        invariant
            i <= names@.len(),
            all == names_view(names@),
            out@ == packed(all.take(i as int)),
            out@.len() <= room,
            fitting(all, room as int, 0) == fitting(all, room as int, i as nat),
        decreases names@.len() - i,
    {
        proof {
            assert(all.take(i + 1).drop_last() =~= all.take(i as int));
            assert(all.take(i + 1).last() == names@[i as int]@);
        }
        if names[i].len() >= room - out.len() {
            return out;
        }
        let mut name: Vec<u8> = copy_range(&names[i], 0, names[i].len());
        assert(name@ =~= names@[i as int]@);
        name.push(0);
        out.append(&mut name);
        i += 1;
    }
    out
}

impl<D: BlockDevice> Filesystem<D> {
    /// What is known of the volume.
    pub fn volume_info(&self) -> (r: VolumeInfo)
        requires
            self.wf(),
        ensures
            r.volume_name@ == self.sb.volume_name@,
            r.block_size == self@.bs(),
            r.total_blocks == self.sb.blocks_count,
            r.free_blocks == self.sb.free_blocks_count,
            r.total_inodes == self.sb.inodes_count,
            r.free_inodes == self.sb.free_inodes_count,
            r.mounted_dirty == !(self.sb.state & crate::superblock::STATE_CLEAN != 0 && self.sb.state
                & crate::superblock::STATE_ERROR == 0),
    {
        let volume_name: Vec<u8> = copy_range(&self.sb.volume_name, 0, self.sb.volume_name.len());
        assert(volume_name@ =~= self.sb.volume_name@);
        VolumeInfo {
            volume_name,
            block_size: self.sb.block_size(),
            total_blocks: self.sb.blocks_count,
            free_blocks: self.sb.free_blocks_count,
            total_inodes: self.sb.inodes_count,
            free_inodes: self.sb.free_inodes_count,
            mounted_dirty: !self.sb.is_clean(),
        }
    }

    /// The inode that a host's path leads to.
    pub fn resolve_path(&self, path: &[u8]) -> (r: Result<(u32, Inode, Vec<u8>)>)
        requires
            self.wf(),
        ensures
            match r {
                Ok((ino, inode, raw)) => host_inode(self@, path@) == Ok::<(u32, Seq<u8>), Error>((ino, raw@))
                    && inode.decodes(raw@) && raw@.len() == self.sb.inode_size && crate::inode::inode_fault(
                    raw@,
                ) is None,
                Err(e) => host_inode(self@, path@) == Err::<(u32, Seq<u8>), Error>(e) || (
                !self.dev.healthy() && e == Error::Io),
            },
    {
        let ino: u32 = match self.lookup_path(path) {
            Ok(n) => n,
            Err(e) => {
                return Err(e);
            },
        };
        let (inode, raw): (Inode, Vec<u8>) = match self.read_inode_verified(ino) {
            Ok(p) => p,
            Err(e) => {
                return Err(e);
            },
        };
        if path.len() > 1 && path[path.len() - 1] == SLASH && !inode.is_dir() {
            return Err(Error::NotADirectory);
        }
        Ok((ino, inode, raw))
    }

    /// What is known of the file at `path`.
    pub fn stat(&self, path: &[u8]) -> (r: Result<fs_ext4_attr_t>)
        requires
            self.wf(),
        ensures
            match r {
                Ok(a) => host_inode(self@, path@) matches Ok(p) && is_attr_of(a, p.0, p.1),
                Err(e) => host_inode(self@, path@) == Err::<(u32, Seq<u8>), Error>(e) || (
                !self.dev.healthy() && e == Error::Io),
            },
    {
        match self.resolve_path(path) {
            Ok((ino, inode, raw)) => {
                let a: fs_ext4_attr_t = fill_attr(ino, &inode);
                assert(inode.decodes(raw@) && a == attr_of(ino, inode));
                assert(is_attr_of(a, ino, raw@));
                Ok(a)
            },
            Err(e) => Err(e),
        }
    }

    /// The entries of the directory at `path`, in order.
    pub fn read_dir(&self, path: &[u8]) -> (r: Result<Vec<Record>>)
        requires
            self.wf(),
        ensures
            match r {
                Ok(es) => host_listing(self@, path@) == Ok::<Seq<RecordView>, Error>(record_views(es@)),
                Err(e) => host_listing(self@, path@) == Err::<Seq<RecordView>, Error>(e) || (
                !self.dev.healthy() && e == Error::Io),
            },
    {
        let (_ino, inode, raw): (u32, Inode, Vec<u8>) = match self.resolve_path(path) {
            Ok(p) => p,
            Err(e) => {
                return Err(e);
            },
        };
        if !inode.is_dir() {
            return Err(Error::NotADirectory);
        }
        self.collect_listing(&inode, Ghost(raw@))
    }

    fn collect_listing(&self, inode: &Inode, Ghost(raw): Ghost<Seq<u8>>) -> (r: Result<Vec<Record>>)
        requires
            self.wf(),
            inode.decodes(raw),
        ensures
            match r {
                Ok(es) => dir_listing(self@, raw) == Ok::<Seq<RecordView>, Error>(record_views(es@)),
                Err(e) => dir_listing(self@, raw) == Err::<Seq<RecordView>, Error>(e) || (
                !self.dev.healthy() && e == Error::Io),
            },
    {
        if !inode.has_extents() {
            return Err(Error::Corrupt("legacy (non-extent) dirs not yet supported"));
        }
        let has_ft: bool = self.has_file_types();
        if inode.has_inline_data() {
            return parse_block(&inode.block, has_ft);
        }
        let bs: u32 = self.sb.block_size();
        let n: u64 = blocks_for_bytes(inode.size, bs as u64);
        let mut out: Vec<Record> = Vec::new();
        let mut l: u64 = 0;
        assert(record_views(out@) =~= Seq::<RecordView>::empty());
        while l < n
            invariant
                l <= n,
                self.wf(),
                inode.decodes(raw),
                bs == self@.bs(),
                has_ft == keeps_types(self@),
                dir_listing(self@, raw) == listed_in(self@, raw, n as nat),
                listed_in(self@, raw, l as nat) == Ok::<Seq<RecordView>, Error>(record_views(out@)),
            decreases n - l,
        {
            let here: Vec<Record> = match self.listing_block(inode, l, bs, has_ft) {
                Ok(es) => es,
                Err(e) => {
                    proof {
                        if listed_in(self@, raw, (l + 1) as nat) == Err::<Seq<RecordView>, Error>(e) {
                            lemma_listed_error(self@, raw, (l + 1) as nat, n as nat, e);
                        }
                    }
                    return Err(e);
                },
            };
            let mut here: Vec<Record> = here;
            let ghost joined = record_views(out@) + record_views(here@);
            out.append(&mut here);
            assert(record_views(out@) =~= joined);
            assert(joined =~= record_views(out@));
            l += 1;
        }
        Ok(out)
    }

    fn listing_block(&self, inode: &Inode, l: u64, bs: u32, has_ft: bool) -> (r: Result<Vec<Record>>)
        requires
            self.wf(),
            bs == self@.bs(),
            has_ft == keeps_types(self@),
        ensures
            match r {
                Ok(es) => block_listing(self@, inode.block@, l as int) == Ok::<Seq<RecordView>, Error>(
                    record_views(es@),
                ),
                Err(e) => block_listing(self@, inode.block@, l as int) == Err::<Seq<RecordView>, Error>(e)
                    || (!self.dev.healthy() && e == Error::Io),
            },
    {
        match map_logical(&inode.block, &self.dev, bs, l) {
            Err(e) => Err(e),
            Ok(None) => {
                let none: Vec<Record> = Vec::new();
                assert(record_views(none@) =~= Seq::<RecordView>::empty());
                Ok(none)
            },
            Ok(Some(p)) => match self.read_block(p) {
                Err(e) => Err(e),
                Ok(b) => parse_block(&b, has_ft),
            },
        }
    }
}

proof fn lemma_listed_error(v: Vol, raw: Seq<u8>, i: nat, n: nat, e: Error)
    requires
        i <= n,
        listed_in(v, raw, i) == Err::<Seq<RecordView>, Error>(e),
    ensures
        listed_in(v, raw, n) == Err::<Seq<RecordView>, Error>(e),
    decreases n,
{
    if i < n {
        lemma_listed_error(v, raw, i, (n - 1) as nat, e);
    }
}

// -- contents ---------------------------------------------------------------

/// What reading the file at a path gives.
pub open spec fn host_read(v: Vol, ino: u32, raw: Seq<u8>, inode: Inode, offset: u64, length: usize) -> Result<Seq<u8>> {
    if !mode_is_file(mode_of(raw)) {
        Err(Error::InvalidArgument("not a regular file"))
    } else {
        any_bytes(
            v,
            inode,
            raw,
            tree_of(v, inode, ino),
            offset as int,
            length as int,
            length as int,
        )
    }
}

/// `r` is what reading the file at a path gives.
pub open spec fn read_file_agrees(v: Vol, path: Seq<u8>, offset: u64, length: usize, r: Result<Seq<u8>>) -> bool {
    match host_inode(v, path) {
        Err(e) => r == Err::<Seq<u8>, Error>(e),
        Ok((ino, raw)) => exists|inode: Inode| #[trigger]
            inode.decodes(raw) && r == host_read(v, ino, raw, inode, offset, length),
    }
}

/// `r` is what the link at a path leads to.
pub open spec fn read_link_agrees(v: Vol, path: Seq<u8>, r: Result<Seq<u8>>) -> bool {
    match host_inode(v, path) {
        Err(e) => r == Err::<Seq<u8>, Error>(e),
        Ok((ino, raw)) => if !mode_is_symlink(mode_of(raw)) {
            r == Err::<Seq<u8>, Error>(Error::InvalidArgument("not a symlink"))
        } else {
            exists|inode: Inode| #[trigger] inode.decodes(raw) && r == link_target(v, ino, inode)
        },
    }
}

/// What cutting or growing the file at a path to a size comes to.
pub open spec fn resized(writable: bool, v: Vol, path: Seq<u8>, size: u64, now: u32) -> (Vol, Result<()>) {
    match host_inode(v, path) {
        Err(e) => (v, Err(e)),
        Ok((ino, raw)) => if mode_is_dir(mode_of(raw)) {
            (v, Err(Error::IsADirectory))
        } else if !mode_is_file(mode_of(raw)) {
            (v, Err(Error::InvalidArgument("not a regular file")))
        } else if size >= size_of_file(raw) {
            unless_refused(writable, v, done(v, unit_stage(grow_stage(v, ino, size, now))))
        } else {
            unless_refused(writable, v, done(v, unit_stage(shrink_stage(v, ino, size))))
        },
    }
}

/// The blocks that cutting or growing the file at a path writes.
pub open spec fn resize_blocks(v: Vol, path: Seq<u8>, size: u64, now: u32) -> Set<u64> {
    match host_inode(v, path) {
        Err(_) => Set::empty(),
        Ok((ino, raw)) => if size >= size_of_file(raw) {
            stage_blocks(unit_stage(grow_stage(v, ino, size, now)))
        } else {
            stage_blocks(unit_stage(shrink_stage(v, ino, size)))
        },
    }
}

/// What replacing the contents of the file at a path comes to.
pub open spec fn written(writable: bool, v: Vol, path: Seq<u8>, data: Seq<u8>, now: u32) -> (Vol, Result<u64>) {
    match host_inode(v, path) {
        Err(e) => (v, Err(e)),
        Ok((_, raw)) => if mode_is_dir(mode_of(raw)) {
            (v, Err(Error::IsADirectory))
        } else if !mode_is_file(mode_of(raw)) {
            (v, Err(Error::InvalidArgument("not a regular file")))
        } else {
            unless_refused(writable, v, done(v, replaced_content(v, path, data, now)))
        },
    }
}

impl<D: BlockDevice> Filesystem<D> {
    /// Up to `length` bytes of the file at `path`, from byte `offset` on.
    pub fn read_file(&self, path: &[u8], offset: u64, length: usize) -> (r: Result<Vec<u8>>)
        requires
            self.wf(),
        ensures
            match r {
                Ok(b) => read_file_agrees(self@, path@, offset, length, Ok(b@)),
                Err(e) => read_file_agrees(self@, path@, offset, length, Err(e)) || (!self.dev.healthy() && e
                    == Error::Io),
            },
    {
        let (ino, inode, raw): (u32, Inode, Vec<u8>) = match self.resolve_path(path) {
            Ok(p) => p,
            Err(e) => {
                return Err(e);
            },
        };
        assert(inode.decodes(raw@));
        let ghost want = host_read(self@, ino, raw@, inode, offset, length);
        if !inode.is_file() {
            return Err(Error::InvalidArgument("not a regular file"));
        }
        let mut out: Vec<u8> = zeroed(length);
        match read_with_raw_verified(self, &inode, &raw, ino, offset, length as u64, &mut out) {
            Err(e) => {
                assert(inode.decodes(raw@) && (want == Err::<Seq<u8>, Error>(e) || (!self.dev.healthy() && e
                    == Error::Io)));
                Err(e)
            },
            Ok(n) => {
                proof {
                    lemma_read_fits(
                        self@,
                        inode,
                        raw@,
                        tree_of(self@, inode, ino),
                        offset as int,
                        length as int,
                        length as int,
                    );
                }
                let got: Vec<u8> = copy_range(&out, 0, n as usize);
                assert(got@ =~= want->Ok_0);
                Ok(got)
            },
        }
    }

    /// What the symbolic link at `path` leads to.
    pub fn read_link(&self, path: &[u8]) -> (r: Result<Vec<u8>>)
        requires
            self.wf(),
        ensures
            match r {
                Ok(b) => read_link_agrees(self@, path@, Ok(b@)),
                Err(e) => read_link_agrees(self@, path@, Err(e)) || (!self.dev.healthy() && e == Error::Io),
            },
    {
        let (ino, inode, raw): (u32, Inode, Vec<u8>) = match self.resolve_path(path) {
            Ok(p) => p,
            Err(e) => {
                return Err(e);
            },
        };
        assert(inode.decodes(raw@));
        let ghost want = link_target(self@, ino, inode);
        if !inode.is_symlink() {
            return Err(Error::InvalidArgument("not a symlink"));
        }
        if inode.size < 60 {
            let target: Vec<u8> = copy_range(&inode.block, 0, inode.size as usize);
            assert(want == Ok::<Seq<u8>, Error>(target@));
            return Ok(target);
        }
        if inode.size > u32::MAX as u64 {
            assert(want == Err::<Seq<u8>, Error>(Error::Corrupt("symlink target too long")));
            return Err(Error::Corrupt("symlink target too long"));
        }
        let mut out: Vec<u8> = zeroed(inode.size as usize);
        match read_verified(self, &inode, ino, 0, inode.size, &mut out) {
            Err(e) => Err(e),
            Ok(_) => {
                assert(want == Ok::<Seq<u8>, Error>(out@));
                Ok(out)
            },
        }
    }

    /// The full names of the attributes of the file at `path`.
    pub fn list_xattr(&self, path: &[u8]) -> (r: Result<Vec<Vec<u8>>>)
        requires
            self.wf(),
        ensures
            match r {
                Ok(names) => host_inode(self@, path@) matches Ok(p) && (all_attrs(self@, p.1) matches Ok(attrs)
                    && names_view(names@) == names_of(attrs)),
                Err(e) => host_inode(self@, path@) == Err::<(u32, Seq<u8>), Error>(e) || (host_inode(
                    self@,
                    path@,
                ) matches Ok(p) && all_attrs(self@, p.1) == Err::<Seq<crate::xattr::Attr>, Error>(e)) || (
                !self.dev.healthy() && e == Error::Io),
            },
    {
        let (_ino, inode, raw): (u32, Inode, Vec<u8>) = match self.resolve_path(path) {
            Ok(p) => p,
            Err(e) => {
                return Err(e);
            },
        };
        let entries: Vec<XattrEntry> = match crate::xattr_ops::read_all(self, &inode, &raw) {
            Ok(x) => x,
            Err(e) => {
                return Err(e);
            },
        };
        let ghost all = names_of(crate::xattr::attrs_view(entries@));
        let mut names: Vec<Vec<u8>> = Vec::new();
        let mut i: usize = 0;
        assert(names_view(names@) =~= all.take(0));
        while i < entries.len()
            invariant
                i <= entries@.len(),
                all == names_of(crate::xattr::attrs_view(entries@)),
                names_view(names@) == all.take(i as int),
            decreases entries@.len() - i,
        {
            let name: Vec<u8> = entries[i].full_name();
            let ghost before = names_view(names@);
            names.push(name);
            i += 1;
            assert(names_view(names@) =~= before.push(name@));
            assert(before.push(name@) =~= all.take(i as int));
        }
        assert(all.take(i as int) =~= all);
        Ok(names)
    }

    /// Cut or grow the file at `path` to `new_size` bytes.
    pub fn truncate(&mut self, path: &[u8], new_size: u64, now: u32) -> (r: Result<()>)
        requires
            old(self).wf(),
        ensures
            final(self).wf(),
            same_mount(*final(self), *old(self)),
            came_out(
                resized(old(self).takes_writes(), old(self)@, path@, new_size, now),
                r,
                final(self)@,
                old(self).dev.healthy(),
            ),
            r matches Err(Error::Io) ==> only_in(
                old(self)@,
                final(self)@,
                resize_blocks(old(self)@, path@, new_size, now),
            ),
    {
        let (ino, inode, _raw): (u32, Inode, Vec<u8>) = match self.resolve_path(path) {
            Ok(p) => p,
            Err(e) => {
                return Err(e);
            },
        };
        if inode.is_dir() {
            return Err(Error::IsADirectory);
        }
        if !inode.is_file() {
            return Err(Error::InvalidArgument("not a regular file"));
        }
        if new_size >= inode.size {
            self.apply_truncate_grow(ino, new_size, now)
        } else {
            self.apply_truncate_shrink(ino, new_size)
        }
    }

    /// Replace the contents of the file at `path`. Returns its new size.
    pub fn write_file(&mut self, path: &str, data: &[u8], now: u32) -> (r: Result<u64>)
        requires
            old(self).wf(),
        ensures
            final(self).wf(),
            same_mount(*final(self), *old(self)),
            came_out(
                written(old(self).takes_writes(), old(self)@, path_bytes(path), data@, now),
                r,
                final(self)@,
                old(self).dev.healthy(),
            ),
            r matches Err(Error::Io) ==> only_in(
                old(self)@,
                final(self)@,
                stage_blocks(replaced_content(old(self)@, path_bytes(path), data@, now)),
            ),
    {
        let (_ino, inode, _raw): (u32, Inode, Vec<u8>) = match self.resolve_path(path.as_bytes()) {
            Ok(p) => p,
            Err(e) => {
                return Err(e);
            },
        };
        if inode.is_dir() {
            return Err(Error::IsADirectory);
        }
        if !inode.is_file() {
            return Err(Error::InvalidArgument("not a regular file"));
        }
        self.apply_replace_file_content(path, data, now)
    }
}

/// A read gives no more than there is room for.
proof fn lemma_read_fits(
    v: Vol,
    inode: Inode,
    raw: Seq<u8>,
    ctx: Option<crate::extent::ExtentVerifyCtx>,
    offset: int,
    length: int,
    room: int,
)
    requires
        v.bs() > 0,
        0 <= offset,
        0 <= length,
        0 <= room,
    ensures
        any_bytes(v, inode, raw, ctx, offset, length, room) matches Ok(b) ==> b.len() <= room,
{
    crate::file_io::lemma_part_len(
        v,
        inode.block@,
        ctx,
        offset,
        offset + crate::file_io::read_len(inode.size as int, offset, length, room),
    );
}

} // verus!
