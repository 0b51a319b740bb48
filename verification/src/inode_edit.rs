//! Writing inode records: single fields, and whole records for new files.
use crate::block_io::BlockDevice;
use crate::bytes::{
    hi32, high_u32, le16, le32, lo32, low_u32, overlay, put16, put32, set_u16, set_u32, splice, zeroed, zeros,
};
use crate::error::{Error, Result};
use crate::extent::{Extent, ExtentHeader, EXT4_EXT_MAGIC};
use crate::extent_mut::{build_root, node_bytes, split_phys_block};
use crate::features::FsFlavor;
use crate::fs::Filesystem;
use crate::inode::{
    block_area_of, file_acl_of, sectors_of, size_of_file, EXTRA_ISIZE_DEFAULT, FL_EXTENTS, INODE_SIZE_WITH_CRTIME,
    INODE_SIZE_WITH_EXTRA, OFF_ATIME, OFF_BLOCK, OFF_BLOCKS_HI, OFF_BLOCKS_LO, OFF_CRTIME, OFF_CTIME, OFF_EXTRA_ISIZE,
    OFF_FLAGS, OFF_GENERATION, OFF_LINKS_COUNT, OFF_MODE, OFF_MTIME, OFF_SIZE_HI, OFF_SIZE_LO, S_IFBLK, S_IFCHR,
    S_IFDIR, S_IFLNK, S_IFMT, S_IFREG,
};
use crate::volume::Vol;
use vstd::prelude::*;

verus! {

broadcast use crate::bytes::group_fields;

// -- fields -----------------------------------------------------------------

/// A record with every timestamp it has set to `now`.
pub open spec fn with_times(raw: Seq<u8>, now: u32) -> Seq<u8> {
    let r = put32(put32(put32(raw, 0x08, now), 0x0C, now), 0x10, now);
    if raw.len() >= INODE_SIZE_WITH_CRTIME {
        put32(r, 0x90, now)
    } else {
        r
    }
}

/// A record with the default `i_extra_isize`, if it has room for the field.
pub open spec fn with_extra_isize(raw: Seq<u8>) -> Seq<u8> {
    if raw.len() >= INODE_SIZE_WITH_EXTRA {
        put16(raw, 0x80, EXTRA_ISIZE_DEFAULT)
    } else {
        raw
    }
}

/// Write atime, ctime, mtime (and crtime when the inode buffer is large
/// enough) from `now` into the raw inode bytes.
pub fn write_inode_timestamps(raw: &mut Vec<u8>, now: u32)
    requires
        old(raw)@.len() >= 128,
    ensures
        final(raw)@ == with_times(old(raw)@, now),
        final(raw)@.len() == old(raw)@.len(),
{
    set_u32(raw, OFF_ATIME, now);
    set_u32(raw, OFF_CTIME, now);
    set_u32(raw, OFF_MTIME, now);
    if raw.len() >= INODE_SIZE_WITH_CRTIME {
        set_u32(raw, OFF_CRTIME, now);
    }
}

/// Write a generation value into the raw inode bytes.
pub fn write_inode_generation(raw: &mut Vec<u8>, generation: u32)
    requires
        old(raw)@.len() >= 128,
    ensures
        final(raw)@ == put32(old(raw)@, 0x64, generation),
        final(raw)@.len() == old(raw)@.len(),
{
    set_u32(raw, OFF_GENERATION, generation);
}

/// Write i_extra_isize when the inode buffer is large enough.
pub fn write_inode_extra_isize(raw: &mut Vec<u8>)
    requires
        old(raw)@.len() >= 128,
    ensures
        final(raw)@ == with_extra_isize(old(raw)@),
        final(raw)@.len() == old(raw)@.len(),
{
    if raw.len() >= INODE_SIZE_WITH_EXTRA {
        set_u16(raw, OFF_EXTRA_ISIZE, EXTRA_ISIZE_DEFAULT);
    }
}

/// A record with its external attribute block set.
pub open spec fn with_file_acl(raw: Seq<u8>, block: u64) -> Result<Seq<u8>> {
    let hi = (hi32(block) % 0x1_0000) as u16;
    if raw.len() < 0x6C {
        Err(Error::Corrupt("write_file_acl: inode buffer too small for i_file_acl_lo"))
    } else if raw.len() < 0x78 && hi != 0 {
        Err(Error::Corrupt("write_file_acl: inode buffer too small for i_file_acl_hi"))
    } else if raw.len() < 0x78 {
        Ok(put32(raw, 0x68, lo32(block)))
    } else {
        Ok(put16(put32(raw, 0x68, lo32(block)), 0x76, hi))
    }
}

/// A record with its size and its sector count set. The count is kept in 48
/// bits.
pub open spec fn with_size_and_blocks(raw: Seq<u8>, size: u64, sectors: u64) -> Seq<u8> {
    put16(
        put32(
            put32(put32(raw, 0x04, lo32(size)), 0x6C, hi32(size)),
            0x1C,
            lo32(sectors),
        ),
        0x74,
        (hi32(sectors) % 0x1_0000) as u16,
    )
}

/// A record with its 60-byte block area replaced.
pub open spec fn with_block_area(raw: Seq<u8>, root: Seq<u8>) -> Seq<u8> {
    splice(raw, 0x28, root)
}

/// A record with size, sectors, ctime and mtime set, and stamped.
pub open spec fn after_write(v: Vol, ino: u32, generation: u32, raw: Seq<u8>, size: u64, sectors: u64, now: u32) -> Seq<
    u8,
> {
    v.csum.stamp_inode_spec(
        ino,
        generation,
        put32(put32(with_size_and_blocks(raw, size, sectors), 0x0C, now), 0x10, now),
    )
}

/// The record an inode leaves behind when it is freed: a deletion time and
/// the generation.
pub open spec fn dead_inode(v: Vol, ino: u32, generation: u32, now: u32) -> Seq<u8> {
    v.csum.stamp_inode_spec(
        ino,
        generation,
        put32(put32(zeros(v.sb.inode_size as nat), 0x14, now), 0x64, generation),
    )
}

/// A link count moved by `delta`, not below zero.
pub open spec fn moved_links(links: u16, delta: int) -> u16 {
    if links + delta < 0 {
        0
    } else {
        ((links + delta) % 0x1_0000) as u16
    }
}

// -- new inodes -------------------------------------------------------------

/// The root of an extent tree with the given extents.
pub open spec fn root_with(extents: Seq<Extent>) -> Seq<u8> {
    node_bytes(
        ExtentHeader { magic: EXT4_EXT_MAGIC, entries: 0, max: 4, depth: 0, generation: 0 },
        extents,
        60,
    )
}

/// One block at `phys`, as an extent.
pub open spec fn first_block_extent(phys: u64) -> Extent {
    Extent { logical_block: 0, length: 1, physical_block: phys, uninitialized: false }
}

/// A record with nothing but a mode and a link count.
pub open spec fn blank_inode(v: Vol, mode: u16, links: u16) -> Seq<u8> {
    put16(put16(zeros(v.sb.inode_size as nat), 0x00, mode), 0x1A, links)
}

/// A new record with its times, generation, extra size and checksum.
pub open spec fn born(v: Vol, ino: u32, raw: Seq<u8>, now: u32, generation: u32) -> Seq<u8> {
    v.csum.stamp_inode_spec(
        ino,
        generation,
        with_extra_isize(put32(with_times(raw, now), 0x64, generation)),
    )
}

/// The dialect of a volume.
pub open spec fn flavor_of(v: Vol) -> FsFlavor {
    FsFlavor::of(v.sb.feature_compat, v.sb.feature_incompat)
}

/// A new regular file: empty, with an empty extent tree where the dialect has
/// them.
pub open spec fn new_file_inode(v: Vol, ino: u32, mode: u16, now: u32, generation: u32) -> Seq<u8> {
    let raw = blank_inode(v, S_IFREG | (mode & 0x0FFF), 1);
    born(
        v,
        ino,
        if flavor_of(v) is Ext4 {
            with_block_area(put32(raw, 0x20, FL_EXTENTS), root_with(Seq::empty()))
        } else {
            raw
        },
        now,
        generation,
    )
}

/// A new directory of one block at `phys`, with two links.
pub open spec fn new_dir_inode(v: Vol, ino: u32, mode: u16, phys: u64, now: u32, generation: u32) -> Seq<u8> {
    let raw = blank_inode(v, S_IFDIR | (mode & 0x0FFF), 2);
    born(
        v,
        ino,
        with_size_and_blocks(
            with_block_area(put32(raw, 0x20, FL_EXTENTS), root_with(seq![first_block_extent(phys)])),
            v.bs() as u64,
            (v.bs() / 512) as u64,
        ),
        now,
        generation,
    )
}

/// A new symbolic link short enough to be kept in the record itself.
pub open spec fn new_fast_symlink_inode(v: Vol, ino: u32, target: Seq<u8>, now: u32, generation: u32) -> Seq<
    u8,
> {
    let raw = put32(blank_inode(v, S_IFLNK | 0x1FF, 1), 0x04, target.len() as u32);
    born(v, ino, splice(raw, 0x28, target), now, generation)
}

/// A new symbolic link whose target is in the block at `phys`.
pub open spec fn new_slow_symlink_inode(
    v: Vol,
    ino: u32,
    len: int,
    phys: u64,
    now: u32,
    generation: u32,
) -> Seq<u8> {
    let raw = put32(blank_inode(v, S_IFLNK | 0x1FF, 1), 0x04, len as u32);
    born(
        v,
        ino,
        with_block_area(
            put32(put32(raw, 0x1C, (v.bs() / 512) as u32), 0x20, FL_EXTENTS),
            root_with(seq![first_block_extent(phys)]),
        ),
        now,
        generation,
    )
}

/// A new special file. Device numbers are kept for devices alone.
pub open spec fn new_special_inode(
    v: Vol,
    ino: u32,
    mode: u16,
    major: u32,
    minor: u32,
    now: u32,
    generation: u32,
) -> Seq<u8> {
    let raw = blank_inode(v, mode, 1);
    let kind = mode & S_IFMT;
    born(
        v,
        ino,
        if kind == S_IFBLK || kind == S_IFCHR {
            put32(
                put32(raw, 0x28, (major << 8u32) | (minor & 0xff)),
                0x2C,
                (minor & 0xff) | (major << 8u32) | ((minor & !0xffu32) << 12u32),
            )
        } else {
            raw
        },
        now,
        generation,
    )
}

impl<D: BlockDevice> Filesystem<D> {
    /// Write `i_file_acl`, the external xattr block pointer, into a raw inode.
    /// `block_nr` of 0 clears it.
    ///
    /// The high half is the word after `i_blocks_hi`, which this leaves alone.
    /// A record too short for a high half that is needed is refused, unchanged.
    pub fn write_file_acl(raw: &mut Vec<u8>, block_nr: u64) -> (r: Result<()>)
        ensures
            match with_file_acl(old(raw)@, block_nr) {
                Ok(out) => r == Ok::<(), Error>(()) && final(raw)@ == out,
                Err(e) => r == Err::<(), Error>(e) && final(raw)@ == old(raw)@,
            },
            final(raw)@.len() == old(raw)@.len(),
    {
        if raw.len() < 0x6C {
            return Err(Error::Corrupt("write_file_acl: inode buffer too small for i_file_acl_lo"));
        }
        let (hi, lo): (u16, u32) = split_phys_block(block_nr);
        if raw.len() < 0x78 && hi != 0 {
            return Err(Error::Corrupt("write_file_acl: inode buffer too small for i_file_acl_hi"));
        }
        set_u32(raw, 0x68, lo);
        if raw.len() >= 0x78 {
            set_u16(raw, 0x76, hi);
        }
        Ok(())
    }

    /// Patch fields in a raw inode image: size, blocks_count. Leaves all
    /// other bytes intact. `new_block_count` is in 512-byte sectors.
    pub fn patch_inode_size_and_blocks(raw: &mut Vec<u8>, new_size: u64, new_block_count: u64) -> (r: Result<()>)
        ensures
            old(raw)@.len() >= 128 ==> r == Ok::<(), Error>(()) && final(raw)@ == with_size_and_blocks(
                old(raw)@,
                new_size,
                new_block_count,
            ),
            old(raw)@.len() < 128 ==> r == Err::<(), Error>(
                Error::Corrupt("patch_inode: buffer too small"),
            ) && final(raw)@ == old(raw)@,
            final(raw)@.len() == old(raw)@.len(),
    {
        if raw.len() < 128 {
            return Err(Error::Corrupt("patch_inode: buffer too small"));
        }
        set_u32(raw, OFF_SIZE_LO, low_u32(new_size));
        set_u32(raw, OFF_SIZE_HI, high_u32(new_size));
        set_u32(raw, OFF_BLOCKS_LO, low_u32(new_block_count));
        set_u16(raw, OFF_BLOCKS_HI, (high_u32(new_block_count) % 0x1_0000) as u16);
        Ok(())
    }

    /// Overwrite the 60-byte `i_block` area of an inode image with `new_root`.
    pub fn patch_inode_block_area(raw: &mut Vec<u8>, new_root: &[u8]) -> (r: Result<()>)
        ensures
            r == (if old(raw)@.len() < 128 {
                Err::<(), Error>(Error::Corrupt("patch_inode_block_area: buffer too small"))
            } else if new_root@.len() != 60 {
                Err(Error::Corrupt("patch_inode_block_area: new_root != 60 bytes"))
            } else {
                Ok(())
            }),
            r is Ok ==> final(raw)@ == with_block_area(old(raw)@, new_root@),
            r is Err ==> final(raw)@ == old(raw)@,
            final(raw)@.len() == old(raw)@.len(),
    {
        if raw.len() < 128 {
            return Err(Error::Corrupt("patch_inode_block_area: buffer too small"));
        }
        if new_root.len() != 60 {
            return Err(Error::Corrupt("patch_inode_block_area: new_root != 60 bytes"));
        }
        overlay(raw, OFF_BLOCK, new_root);
        Ok(())
    }

    /// Recompute the inode checksum (when enabled) and splice both halves
    /// back into the inode image.
    pub fn finalize_inode_raw(&self, ino: u32, generation: u32, raw: &mut Vec<u8>)
        ensures
            final(raw)@ == self@.csum.stamp_inode_spec(ino, generation, old(raw)@),
            final(raw)@.len() == old(raw)@.len(),
    {
        self.csum.stamp_inode(ino, generation, raw);
    }

    /// Patch size, blocks, ctime, mtime and checksum on a record.
    pub fn finalize_inode_raw_after_write(
        &self,
        ino: u32,
        generation: u32,
        raw: &mut Vec<u8>,
        new_size: u64,
        new_sectors: u64,
        now: u32,
    )
        requires
            old(raw)@.len() >= 128,
        ensures
            final(raw)@ == after_write(self@, ino, generation, old(raw)@, new_size, new_sectors, now),
            final(raw)@.len() == old(raw)@.len(),
    {
        let patched = Self::patch_inode_size_and_blocks(raw, new_size, new_sectors);
        set_u32(raw, OFF_CTIME, now);
        set_u32(raw, OFF_MTIME, now);
        self.csum.stamp_inode(ino, generation, raw);
    }

    /// The record a freed inode leaves behind.
    pub(crate) fn build_dead_inode(&self, ino: u32, generation: u32, now: u32) -> (r: Vec<u8>)
        requires
            self.wf(),
        ensures
            r@ == dead_inode(self@, ino, generation, now),
            r@.len() == self.sb.inode_size,
    {
        let mut raw: Vec<u8> = zeroed(self.sb.inode_size as usize);
        set_u32(&mut raw, 0x14, now);
        set_u32(&mut raw, OFF_GENERATION, generation);
        self.csum.stamp_inode(ino, generation, &mut raw);
        raw
    }

    /// Adjust `i_links_count` on a raw inode image and recompute its checksum.
    pub fn patch_inode_nlink(&self, ino: u32, generation: u32, raw: &mut Vec<u8>, links: u16, delta: i32)
        requires
            old(raw)@.len() >= 128,
        ensures
            final(raw)@ == self@.csum.stamp_inode_spec(
                ino,
                generation,
                put16(old(raw)@, 0x1A, moved_links(links, delta as int)),
            ),
            final(raw)@.len() == old(raw)@.len(),
    {
        let sum: i64 = links as i64 + delta as i64;
        let new_count: u16 = if sum < 0 {
            0
        } else {
            (sum as u64 % 0x1_0000) as u16
        };
        set_u16(raw, OFF_LINKS_COUNT, new_count);
        self.csum.stamp_inode(ino, generation, raw);
    }

    fn blank(&self, mode: u16, links: u16) -> (r: Vec<u8>)
        requires
            self.wf(),
        ensures
            r@ == blank_inode(self@, mode, links),
            r@.len() == self.sb.inode_size,
    {
        let mut raw: Vec<u8> = zeroed(self.sb.inode_size as usize);
        set_u16(&mut raw, OFF_MODE, mode);
        set_u16(&mut raw, OFF_LINKS_COUNT, links);
        raw
    }

    fn finish_new_inode(&self, ino: u32, raw: &mut Vec<u8>, now: u32, generation: u32)
        requires
            old(raw)@.len() >= 128,
        ensures
            final(raw)@ == born(self@, ino, old(raw)@, now, generation),
            final(raw)@.len() == old(raw)@.len(),
    {
        write_inode_timestamps(raw, now);
        write_inode_generation(raw, generation);
        write_inode_extra_isize(raw);
        self.csum.stamp_inode(ino, generation, raw);
    }

    /// Compose a fresh regular-file inode image: `S_IFREG | mode`, 1 link, 0
    /// size, 0 blocks, an empty extent tree on ext4.
    pub fn build_regular_file_inode(&self, ino: u32, mode: u16, now: u32, generation: u32) -> (r: Vec<u8>)
        requires
            self.wf(),
        ensures
            r@ == new_file_inode(self@, ino, mode, now, generation),
            r@.len() == self.sb.inode_size,
    {
        let mut raw: Vec<u8> = self.blank(S_IFREG | (mode & 0x0FFF), 1);
        if self.flavor.uses_extents() {
            set_u32(&mut raw, OFF_FLAGS, FL_EXTENTS);
            let none: Vec<Extent> = Vec::new();
            assert(none@ =~= Seq::<Extent>::empty());
            let root: Vec<u8> = tree_root(&none);
            overlay(&mut raw, OFF_BLOCK, &root);
        }
        self.finish_new_inode(ino, &mut raw, now, generation);
        raw
    }

    /// Compose a fresh directory inode image: `S_IFDIR | mode`, two links, one
    /// data block.
    pub fn build_directory_inode(&self, ino: u32, mode: u16, data_phys_block: u64, now: u32, generation: u32) -> (r: Vec<
        u8,
    >)
        requires
            self.wf(),
        ensures
            r@ == new_dir_inode(self@, ino, mode, data_phys_block, now, generation),
            r@.len() == self.sb.inode_size,
    {
        let mut raw: Vec<u8> = self.blank(S_IFDIR | (mode & 0x0FFF), 2);
        set_u32(&mut raw, OFF_FLAGS, FL_EXTENTS);
        let root: Vec<u8> = one_block_root(data_phys_block);
        overlay(&mut raw, OFF_BLOCK, &root);
        let bs: u64 = self.sb.block_size() as u64;
        let patched = Self::patch_inode_size_and_blocks(&mut raw, bs, bs / 512);
        self.finish_new_inode(ino, &mut raw, now, generation);
        raw
    }

    /// Compose a symbolic link whose target is kept in the 60-byte `i_block`.
    pub fn build_fast_symlink_inode(&self, ino: u32, target: &[u8], now: u32, generation: u32) -> (r: Vec<u8>)
        requires
            self.wf(),
            target@.len() < 60,
        ensures
            r@ == new_fast_symlink_inode(self@, ino, target@, now, generation),
            r@.len() == self.sb.inode_size,
    {
        let mut raw: Vec<u8> = self.blank(S_IFLNK | 0x1FF, 1);
        set_u32(&mut raw, OFF_SIZE_LO, target.len() as u32);
        overlay(&mut raw, OFF_BLOCK, target);
        self.finish_new_inode(ino, &mut raw, now, generation);
        raw
    }

    /// Compose a symbolic link whose target is in a block of its own.
    pub fn build_slow_symlink_inode(&self, ino: u32, target_len: usize, data_phys: u64, now: u32, generation: u32) -> (r: Vec<
        u8,
    >)
        requires
            self.wf(),
            target_len <= 4096,
        ensures
            r@ == new_slow_symlink_inode(
                self@,
                ino,
                target_len as int,
                data_phys,
                now,
                generation,
            ),
            r@.len() == self.sb.inode_size,
    {
        let mut raw: Vec<u8> = self.blank(S_IFLNK | 0x1FF, 1);
        set_u32(&mut raw, OFF_SIZE_LO, target_len as u32);
        set_u32(&mut raw, OFF_BLOCKS_LO, self.sb.block_size() / 512);
        set_u32(&mut raw, OFF_FLAGS, FL_EXTENTS);
        let root: Vec<u8> = one_block_root(data_phys);
        overlay(&mut raw, OFF_BLOCK, &root);
        self.finish_new_inode(ino, &mut raw, now, generation);
        raw
    }

    /// Compose a FIFO, socket or device inode image.
    pub fn build_special_file_inode(
        &self,
        ino: u32,
        mode: u16,
        major: u32,
        minor: u32,
        now: u32,
        generation: u32,
    ) -> (r: Vec<u8>)
        requires
            self.wf(),
        ensures
            r@ == new_special_inode(self@, ino, mode, major, minor, now, generation),
            r@.len() == self.sb.inode_size,
    {
        let mut raw: Vec<u8> = self.blank(mode, 1);
        let kind: u16 = mode & S_IFMT;
        if kind == S_IFBLK || kind == S_IFCHR {
            let old_dev: u32 = (major << 8u32) | (minor & 0xff);
            set_u32(&mut raw, OFF_BLOCK, old_dev);
            let new_dev: u32 = (minor & 0xff) | (major << 8u32) | ((minor & !0xffu32) << 12u32);
            set_u32(&mut raw, OFF_BLOCK + 4, new_dev);
        }
        self.finish_new_inode(ino, &mut raw, now, generation);
        raw
    }
}

/// The root of an extent tree with the given extents.
pub fn tree_root(extents: &[Extent]) -> (r: Vec<u8>)
    requires
        extents@.len() <= 4,
        crate::extent_mut::lengths_fit(extents@),
    ensures
        r@ == root_with(extents@),
        r@.len() == 60,
{
    let header = ExtentHeader { magic: EXT4_EXT_MAGIC, entries: 0, max: 4, depth: 0, generation: 0 };
    build_root(&header, extents, 60)
}

fn one_block_root(phys: u64) -> (r: Vec<u8>)
    ensures
        r@ == root_with(seq![first_block_extent(phys)]),
        r@.len() == 60,
{
    let mut one: Vec<Extent> = Vec::new();
    one.push(
        Extent { logical_block: 0, length: 1, physical_block: phys, uninitialized: false },
    );
    assert(one@ =~= seq![first_block_extent(phys)]);
    tree_root(&one)
}

// -- laws -------------------------------------------------------------------

/// The attribute block that was written is the one that is read back, and the
/// sector count beside it stays as it was.
pub proof fn law_file_acl_round_trip(raw: Seq<u8>, block: u64)
    requires
        raw.len() >= 128,
        block < 0x1_0000_0000_0000,
    ensures
        with_file_acl(raw, block) is Ok,
        file_acl_of(with_file_acl(raw, block)->Ok_0) == block,
        sectors_of(with_file_acl(raw, block)->Ok_0) == sectors_of(raw),
{
}

/// The size and sector count that were written are the ones that are read
/// back, and the block area stays as it was.
pub proof fn law_size_and_blocks_round_trip(raw: Seq<u8>, size: u64, sectors: u64)
    requires
        raw.len() >= 128,
        sectors < 0x1_0000_0000_0000,
    ensures
        size_of_file(with_size_and_blocks(raw, size, sectors)) == size,
        sectors_of(with_size_and_blocks(raw, size, sectors)) == sectors,
        block_area_of(with_size_and_blocks(raw, size, sectors)) == block_area_of(raw),
        file_acl_of(with_size_and_blocks(raw, size, sectors)) == file_acl_of(raw),
{
    assert(block_area_of(with_size_and_blocks(raw, size, sectors)) =~= block_area_of(raw));
}

/// The block area that was written is the one that is read back.
pub proof fn law_block_area_round_trip(raw: Seq<u8>, root: Seq<u8>)
    requires
        raw.len() >= 128,
        root.len() == 60,
    ensures
        block_area_of(with_block_area(raw, root)) == root,
        size_of_file(with_block_area(raw, root)) == size_of_file(raw),
        sectors_of(with_block_area(raw, root)) == sectors_of(raw),
{
    reveal(le16);
    reveal(le32);
    assert(block_area_of(with_block_area(raw, root)) =~= root);
}

} // verus!
