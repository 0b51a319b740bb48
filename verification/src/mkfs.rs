//! Making a filesystem: one block group, no journal, everything checksummed.
//!
//! From the first data block on there are the superblock, the group
//! descriptors, the block bitmap, the inode bitmap, the inode table, and the
//! root directory's one block.
use crate::bitmap::{put_bits, with_bits};
use crate::block_io::BlockDevice;
use crate::bytes::{
    copy_range, hi32, high_u32, lo32, low_u32, overlay, put16, put32, set_u16, set_u32, splice, zeroed, zeros,
};
use crate::checksum::{bytes32, dir_stamped, linux_crc32c, low16, raw_crc, Checksummer};
use crate::error::{Error, Result};
use crate::features::{INCOMPAT_BIT64, INCOMPAT_EXTENTS, INCOMPAT_FILETYPE, RO_COMPAT_METADATA_CSUM};
use crate::inode::FL_EXTENTS;
use crate::inode_edit::{first_block_extent, root_with, tree_root, with_block_area};
use crate::extent::Extent;
use vstd::prelude::*;
use vstd::string::*;

verus! {

broadcast use crate::bytes::group_fields;

pub const MIN_BLOCK_SIZE: u32 = 1024;

pub const MAX_BLOCK_SIZE: u32 = 65536;

pub const DEFAULT_BLOCK_SIZE: u32 = 4096;

/// Inodes in the one group.
pub const INODES_PER_GROUP: u32 = 8192;

/// Bytes per inode.
pub const INODE_SIZE: u16 = 256;

/// Bytes per group descriptor.
pub const DESC_SIZE: u16 = 64;

/// The part of an inode beyond its first 128 bytes that is in use.
pub const I_EXTRA_ISIZE: u16 = 32;

/// A directory that all may read and its owner may write.
pub const ROOT_MODE: u16 = 0x41ED;

// -- where things go --------------------------------------------------------

/// `s_log_block_size` for a block size, if there can be such blocks.
pub open spec fn log_of(bs: u32) -> Option<u32> {
    if bs == 1024 {
        Some(0u32)
    } else if bs == 2048 {
        Some(1u32)
    } else if bs == 4096 {
        Some(2u32)
    } else if bs == 8192 {
        Some(3u32)
    } else if bs == 16384 {
        Some(4u32)
    } else if bs == 32768 {
        Some(5u32)
    } else if bs == 65536 {
        Some(6u32)
    } else {
        None
    }
}

fn log_block_size_of(bs: u32) -> (r: Option<u32>)
    ensures
        r == log_of(bs),
{
    if bs == 1024 {
        Some(0)
    } else if bs == 2048 {
        Some(1)
    } else if bs == 4096 {
        Some(2)
    } else if bs == 8192 {
        Some(3)
    } else if bs == 16384 {
        Some(4)
    } else if bs == 32768 {
        Some(5)
    } else if bs == 65536 {
        Some(6)
    } else {
        None
    }
}

/// Whether a filesystem can have blocks of this size: a power of two from
/// 1024 to 65536.
pub fn is_valid_block_size(bs: u32) -> (r: bool)
    ensures
        r == (log_of(bs) is Some),
{
    log_block_size_of(bs).is_some()
}

/// The first data block: block 0 holds more than the boot sector, except where
/// blocks are as small as it.
pub open spec fn first_of(bs: int) -> int {
    if bs == 1024 {
        1
    } else {
        0
    }
}

/// Blocks of the inode table.
pub open spec fn itable_of(bs: int) -> int {
    0x20_0000int / bs
}

/// The root directory's block: the last one in use.
pub open spec fn root_block_of(bs: int) -> int {
    first_of(bs) + 4 + itable_of(bs)
}

/// Why a filesystem of this shape cannot be made, if it cannot.
pub open spec fn mkfs_refusal(writable: bool, size: u64, bs: u32) -> Option<Error> {
    if log_of(bs) is None {
        Some(Error::InvalidArgument("mkfs: block_size out of range"))
    } else if size < bs * 64 {
        Some(Error::InvalidArgument("mkfs: device too small"))
    } else if !writable {
        Some(Error::ReadOnly)
    } else if size / bs as u64 > 8 * bs {
        Some(
            Error::InvalidArgument("mkfs: multi-group volumes not yet supported (v1 single-group only)"),
        )
    } else if root_block_of(bs as int) + 1 >= size / bs as u64 {
        Some(Error::InvalidArgument("mkfs: device too small for layout"))
    } else {
        None
    }
}

// -- the structures ---------------------------------------------------------

/// A volume label as it is stored: up to sixteen bytes of it.
pub open spec fn label_field(label: Seq<u8>) -> Seq<u8> {
    label.subrange(
        0,
        if label.len() < 16 {
            label.len() as int
        } else {
            16
        },
    )
}

/// The superblock's counts and geometry.
pub open spec fn super_head(bs: u32, log: u32, blocks: u64) -> Seq<u8> {
    let free = (blocks - root_block_of(bs as int) - 1) as u64;
    let s0 = put32(zeros(1024), 0x00, INODES_PER_GROUP);
    let s1 = put32(put32(s0, 0x04, lo32(blocks)), 0x0C, lo32(free));
    let s2 = put32(put32(s1, 0x10, (INODES_PER_GROUP - 2) as u32), 0x14, first_of(bs as int) as u32);
    let s3 = put32(put32(s2, 0x18, log), 0x1C, log);
    let s4 = put32(put32(s3, 0x20, (8 * bs) as u32), 0x24, (8 * bs) as u32);
    let s5 = put32(s4, 0x28, INODES_PER_GROUP);
    let s6 = put16(put16(s5, 0x36, 0xFFFF), 0x38, 0xEF53);
    put16(put16(s6, 0x3A, 1), 0x3C, 1)
}

/// The superblock's features behind its counts.
pub open spec fn super_features(head: Seq<u8>, blocks: u64, free: u64) -> Seq<u8> {
    let s0 = put32(put32(head, 0x4C, 1), 0x54, 11);
    let s1 = put16(s0, 0x58, INODE_SIZE);
    let s2 = put32(s1, 0x60, INCOMPAT_FILETYPE | INCOMPAT_EXTENTS | INCOMPAT_BIT64);
    let s3 = put32(s2, 0x64, RO_COMPAT_METADATA_CSUM);
    let s4 = put32(put32(s3, 0xEC, 0xC1A2_B3C4), 0xF0, 0xD5E6_F7A8);
    let s5 = put32(put32(s4, 0xF4, 0xB9CA_DBEC), 0xF8, 0xFD0E_1F2A);
    let s6 = put16(s5.update(0xFC, 1u8), 0xFE, DESC_SIZE);
    let s7 = put32(put32(s6, 0x150, hi32(blocks)), 0x158, hi32(free));
    let s8 = put16(put16(s7, 0x15C, I_EXTRA_ISIZE), 0x15E, I_EXTRA_ISIZE);
    put32(s8, 0x160, 1).update(0x175, 1u8)
}

/// The superblock without its checksum.
pub open spec fn super_bare(bs: u32, log: u32, blocks: u64, uuid: Seq<u8>, label: Seq<u8>) -> Seq<u8> {
    let free = (blocks - root_block_of(bs as int) - 1) as u64;
    splice(
        splice(super_features(super_head(bs, log, blocks), blocks, free), 0x68, uuid),
        0x78,
        label_field(label),
    )
}

/// The superblock.
pub open spec fn super_bytes(bs: u32, log: u32, blocks: u64, uuid: Seq<u8>, label: Seq<u8>) -> Seq<u8> {
    let bare = super_bare(bs, log, blocks, uuid, label);
    put32(bare, 0x3FC, raw_crc(0xFFFF_FFFF, bare.subrange(0, 0x3FC)))
}

/// The checksums of a new filesystem.
pub open spec fn mkfs_csum(uuid: Seq<u8>) -> Checksummer {
    Checksummer { seed: raw_crc(0xFFFF_FFFF, uuid), enabled: true }
}

/// The one group's descriptor without its checksum.
pub open spec fn desc_bare(bs: u32, blocks: u64) -> Seq<u8> {
    let first = first_of(bs as int);
    let free = (blocks - root_block_of(bs as int) - 1) as u32;
    let d0 = put32(zeros(64), 0x00, (first + 2) as u32);
    let d1 = put32(put32(d0, 0x04, (first + 3) as u32), 0x08, (first + 4) as u32);
    let d2 = put16(put16(d1, 0x0C, low16(free)), 0x0E, (INODES_PER_GROUP - 2) as u16);
    put16(put16(d2, 0x10, 1), 0x2C, crate::checksum::high16(free))
}

/// The one group's descriptor.
pub open spec fn desc_bytes(bs: u32, blocks: u64, uuid: Seq<u8>) -> Seq<u8> {
    let bare = desc_bare(bs, blocks);
    put16(
        bare,
        0x1E,
        low16(raw_crc(raw_crc(mkfs_csum(uuid).seed, bytes32(0)), bare)),
    )
}

/// The block bitmap: everything up to the root directory's block is in use,
/// and everything past the end of the volume is.
pub open spec fn block_map(bs: u32, blocks: u64) -> Seq<u8> {
    let first = first_of(bs as int);
    with_bits(
        with_bits(zeros(bs as nat), 0, (root_block_of(bs as int) + 1 - first) as nat, true),
        blocks - first,
        (8 * bs - (blocks - first)) as nat,
        true,
    )
}

/// The inode bitmap: inodes 1 and 2 are in use.
pub open spec fn inode_map(bs: u32) -> Seq<u8> {
    zeros(bs as nat).update(0, 3u8)
}

/// The root directory's record.
pub open spec fn root_record(bs: u32, uuid: Seq<u8>) -> Seq<u8> {
    let r0 = put16(put32(put16(zeros(256), 0x00, ROOT_MODE), 0x04, bs), 0x1A, 2);
    let r1 = put32(put32(r0, 0x1C, (bs / 512) as u32), 0x20, FL_EXTENTS);
    let r2 = with_block_area(
        r1,
        root_with(seq![first_block_extent(root_block_of(bs as int) as u64)]),
    );
    mkfs_csum(uuid).stamp_inode_spec(2, 0, put16(r2, 0x80, I_EXTRA_ISIZE))
}

/// The inode table: only the root has a record.
pub open spec fn inode_table(bs: u32, uuid: Seq<u8>) -> Seq<u8> {
    splice(zeros((itable_of(bs as int) * bs) as nat), 256, root_record(bs, uuid))
}

/// The root directory's block.
pub open spec fn root_dir(bs: u32, uuid: Seq<u8>) -> Seq<u8> {
    let dot = put16(put32(zeros(bs as nat), 0, 2), 4, 12).update(6, 1u8).update(7, 2u8).update(8, 0x2Eu8);
    let both = put16(put32(dot, 12, 2), 16, (bs - 24) as u16).update(18, 2u8).update(19, 2u8).update(
        20,
        0x2Eu8,
    ).update(21, 0x2Eu8);
    dir_stamped(mkfs_csum(uuid).seed, 2, 0, both)
}

/// The boot sector and the superblock behind it, in whole blocks.
pub open spec fn boot_blocks(bs: u32, sb: Seq<u8>) -> Seq<u8> {
    splice(
        zeros(
            if bs < 2048 {
                2048nat
            } else {
                bs as nat
            },
        ),
        1024,
        sb,
    )
}

/// A device with a new filesystem on it.
pub open spec fn formatted(img: Seq<u8>, size: u64, bs: u32, uuid: Seq<u8>, label: Seq<u8>) -> Seq<u8> {
    let blocks = (size / bs as u64) as u64;
    let log = log_of(bs)->0;
    let first = first_of(bs as int);
    let i0 = splice(img, 0, boot_blocks(bs, super_bytes(bs, log, blocks, uuid, label)));
    let i1 = splice(
        i0,
        (first + 1) * bs,
        splice(zeros(bs as nat), 0, desc_bytes(bs, blocks, uuid)),
    );
    let i2 = splice(i1, (first + 2) * bs, block_map(bs, blocks));
    let i3 = splice(i2, (first + 3) * bs, inode_map(bs));
    let i4 = splice(i3, (first + 4) * bs, inode_table(bs, uuid));
    splice(i4, root_block_of(bs as int) * bs, root_dir(bs, uuid))
}

// -- carrying it out --------------------------------------------------------

fn build_superblock(bs: u32, log: u32, blocks: u64, uuid: &[u8; 16], label: &[u8]) -> (r: Vec<u8>)
    requires
        log_of(bs) == Some(log),
        root_block_of(bs as int) + 1 < blocks,
    ensures
        r@ == super_bytes(bs, log, blocks, uuid@, label@),
        r@.len() == 1024,
{
    let first: u32 = first_block(bs);
    let free: u64 = blocks - root_block(bs) - 1;
    let mut sb: Vec<u8> = zeroed(1024);
    set_u32(&mut sb, 0x00, INODES_PER_GROUP);
    set_u32(&mut sb, 0x04, low_u32(blocks));
    set_u32(&mut sb, 0x0C, low_u32(free));
    set_u32(&mut sb, 0x10, INODES_PER_GROUP - 2);
    set_u32(&mut sb, 0x14, first);
    set_u32(&mut sb, 0x18, log);
    set_u32(&mut sb, 0x1C, log);
    set_u32(&mut sb, 0x20, 8 * bs);
    set_u32(&mut sb, 0x24, 8 * bs);
    set_u32(&mut sb, 0x28, INODES_PER_GROUP);
    set_u16(&mut sb, 0x36, 0xFFFF);
    set_u16(&mut sb, 0x38, 0xEF53);
    set_u16(&mut sb, 0x3A, 1);
    set_u16(&mut sb, 0x3C, 1);
    assert(sb@ == super_head(bs, log, blocks));
    set_u32(&mut sb, 0x4C, 1);
    set_u32(&mut sb, 0x54, 11);
    set_u16(&mut sb, 0x58, INODE_SIZE);
    set_u32(&mut sb, 0x60, INCOMPAT_FILETYPE | INCOMPAT_EXTENTS | INCOMPAT_BIT64);
    set_u32(&mut sb, 0x64, RO_COMPAT_METADATA_CSUM);
    set_u32(&mut sb, 0xEC, 0xC1A2_B3C4);
    set_u32(&mut sb, 0xF0, 0xD5E6_F7A8);
    set_u32(&mut sb, 0xF4, 0xB9CA_DBEC);
    set_u32(&mut sb, 0xF8, 0xFD0E_1F2A);
    sb.set(0xFC, 1);
    set_u16(&mut sb, 0xFE, DESC_SIZE);
    set_u32(&mut sb, 0x150, high_u32(blocks));
    set_u32(&mut sb, 0x158, high_u32(free));
    set_u16(&mut sb, 0x15C, I_EXTRA_ISIZE);
    set_u16(&mut sb, 0x15E, I_EXTRA_ISIZE);
    set_u32(&mut sb, 0x160, 1);
    sb.set(0x175, 1);
    overlay(&mut sb, 0x68, uuid.as_slice());
    let n: usize = if label.len() < 16 {
        label.len()
    } else {
        16
    };
    let name: Vec<u8> = copy_range(label, 0, n);
    overlay(&mut sb, 0x78, &name);
    assert(sb@ == super_bare(bs, log, blocks, uuid@, label@));
    let covered: Vec<u8> = copy_range(&sb, 0, 0x3FC);
    let csum: u32 = linux_crc32c(0xFFFF_FFFF, &covered);
    set_u32(&mut sb, 0x3FC, csum);
    sb
}

fn first_block(bs: u32) -> (r: u32)
    ensures
        r == first_of(bs as int),
{
    if bs == 1024 {
        1
    } else {
        0
    }
}

fn root_block(bs: u32) -> (r: u64)
    requires
        log_of(bs) is Some,
    ensures
        r == root_block_of(bs as int),
        r <= 2053,
        itable_of(bs as int) * bs == 0x20_0000,
{
    first_block(bs) as u64 + 4 + 0x20_0000u64 / bs as u64
}

fn write_bgd_group0(bs: u32, blocks: u64, uuid: &[u8; 16]) -> (r: Vec<u8>)
    requires
        log_of(bs) is Some,
        root_block_of(bs as int) + 1 < blocks <= 8 * bs,
    ensures
        r@ == desc_bytes(bs, blocks, uuid@),
        r@.len() == 64,
{
    let first: u32 = first_block(bs);
    let free: u32 = (blocks - root_block(bs) - 1) as u32;
    let mut d: Vec<u8> = zeroed(64);
    set_u32(&mut d, 0x00, first + 2);
    set_u32(&mut d, 0x04, first + 3);
    set_u32(&mut d, 0x08, first + 4);
    set_u16(&mut d, 0x0C, (free % 0x1_0000) as u16);
    set_u16(&mut d, 0x0E, (INODES_PER_GROUP - 2) as u16);
    set_u16(&mut d, 0x10, 1);
    set_u16(&mut d, 0x2C, (free / 0x1_0000) as u16);
    assert(d@ == desc_bare(bs, blocks));
    let number: Vec<u8> = zeroed(4);
    assert(number@ =~= bytes32(0)) by {
        reveal(put32);
    }
    let seed: u32 = linux_crc32c(0xFFFF_FFFF, uuid.as_slice());
    let crc: u32 = linux_crc32c(linux_crc32c(seed, &number), &d);
    set_u16(&mut d, 0x1E, (crc % 0x1_0000) as u16);
    d
}

fn write_root_inode(bs: u32, uuid: &[u8; 16]) -> (r: Vec<u8>)
    requires
        log_of(bs) is Some,
    ensures
        r@ == root_record(bs, uuid@),
        r@.len() == 256,
{
    let mut raw: Vec<u8> = zeroed(256);
    set_u16(&mut raw, 0x00, ROOT_MODE);
    set_u32(&mut raw, 0x04, bs);
    set_u16(&mut raw, 0x1A, 2);
    set_u32(&mut raw, 0x1C, bs / 512);
    set_u32(&mut raw, 0x20, FL_EXTENTS);
    let mut one: Vec<Extent> = Vec::new();
    one.push(
        Extent { logical_block: 0, length: 1, physical_block: root_block(bs), uninitialized: false },
    );
    assert(one@ =~= seq![first_block_extent(root_block_of(bs as int) as u64)]);
    let root: Vec<u8> = tree_root(&one);
    overlay(&mut raw, 0x28, &root);
    set_u16(&mut raw, 0x80, I_EXTRA_ISIZE);
    let csum = Checksummer { seed: linux_crc32c(0xFFFF_FFFF, uuid.as_slice()), enabled: true };
    csum.stamp_inode(2, 0, &mut raw);
    raw
}

fn build_root_dir(bs: u32, uuid: &[u8; 16]) -> (r: Vec<u8>)
    requires
        log_of(bs) is Some,
    ensures
        r@ == root_dir(bs, uuid@),
        r@.len() == bs,
{
    let mut b: Vec<u8> = zeroed(bs as usize);
    set_u32(&mut b, 0, 2);
    set_u16(&mut b, 4, 12);
    b.set(6, 1);
    b.set(7, 2);
    b.set(8, 0x2E);
    set_u32(&mut b, 12, 2);
    set_u16(&mut b, 16, (bs - 24) as u16);
    b.set(18, 2);
    b.set(19, 2);
    b.set(20, 0x2E);
    b.set(21, 0x2E);
    let csum = Checksummer { seed: linux_crc32c(0xFFFF_FFFF, uuid.as_slice()), enabled: true };
    csum.patch_dir_entry_tail(2, 0, &mut b);
    b
}

pub(crate) proof fn lemma_with_bits_len(bm: Seq<u8>, start: int, count: nat, on: bool)
    ensures
        with_bits(bm, start, count, on).len() == bm.len(),
    decreases count,
{
    if count > 0 {
        lemma_with_bits_len(bm, start, (count - 1) as nat, on);
    }
}

/// Format `dev` as an ext4 filesystem of `size_bytes` bytes, which the device
/// must have, in blocks of `block_size` bytes: a power of two from 1024 to
/// 65536. Of the label up to sixteen bytes are stored.
pub fn format_filesystem<D: BlockDevice>(
    dev: &mut D,
    label: Option<&str>,
    uuid: [u8; 16],
    size_bytes: u64,
    block_size: u32,
) -> (r: Result<()>)
    ensures
        final(dev).healthy() == old(dev).healthy(),
        final(dev).writable() == old(dev).writable(),
        final(dev).contents().len() == old(dev).contents().len(),
        match mkfs_refusal(old(dev).writable(), size_bytes, block_size) {
            Some(e) => r == Err::<(), Error>(e) && *final(dev) == *old(dev),
            None => match r {
                Ok(_) => final(dev).durable() == final(dev).contents() && final(dev).contents() == formatted(
                    old(dev).contents(),
                    size_bytes,
                    block_size,
                    uuid@,
                    match label {
                        Some(s) => s.spec_bytes(),
                        None => Seq::empty(),
                    },
                ),
                Err(e) => {
                    let end = (root_block_of(block_size as int) + 1) * block_size;
                    &&& e == Error::Io
                    &&& old(dev).healthy() ==> end > old(dev).contents().len()
                    &&& forall|i: int|
                        end <= i < old(dev).contents().len() ==> #[trigger] final(dev).contents()[i] == old(
                            dev,
                        ).contents()[i]
                },
            },
        },
{
    let log: u32 = match log_block_size_of(block_size) {
        Some(n) => n,
        None => {
            return Err(Error::InvalidArgument("mkfs: block_size out of range"));
        },
    };
    let bs: u64 = block_size as u64;
    if size_bytes < bs * 64 {
        return Err(Error::InvalidArgument("mkfs: device too small"));
    }
    if !dev.is_writable() {
        return Err(Error::ReadOnly);
    }
    let blocks: u64 = size_bytes / bs;
    if blocks > 8 * bs {
        return Err(
            Error::InvalidArgument("mkfs: multi-group volumes not yet supported (v1 single-group only)"),
        );
    }
    let root: u64 = root_block(block_size);
    if root + 1 >= blocks {
        return Err(Error::InvalidArgument("mkfs: device too small for layout"));
    }
    let first: u64 = first_block(block_size) as u64;
    let no_label: Vec<u8> = Vec::new();
    assert(no_label@ =~= Seq::<u8>::empty());
    let name: &[u8] = match label {
        Some(s) => s.as_bytes(),
        None => no_label.as_slice(),
    };
    assert((root + 1) * bs <= size_bytes && root * bs + bs == (root + 1) * bs) by (nonlinear_arith)
        requires
            root + 1 < blocks,
            blocks == size_bytes / bs,
            bs > 0,
    ;
    assert((first + 4) * bs + 0x20_0000 == root * bs) by (nonlinear_arith)
        requires
            root == first + 4 + itable_of(block_size as int),
            itable_of(block_size as int) * bs == 0x20_0000,
    ;
    assert((first + 1) * bs + bs == (first + 2) * bs && (first + 2) * bs + bs == (first + 3) * bs && (first + 3)
        * bs + bs == (first + 4) * bs) by (nonlinear_arith);
    assert((first + 1) * bs >= 2048 || block_size >= 2048) by (nonlinear_arith)
        requires
            block_size >= 2048 || (first == 1 && bs == 1024),
    ;
    let sb: Vec<u8> = build_superblock(block_size, log, blocks, &uuid, name);
    let boot_len: usize = if block_size < 2048 {
        2048
    } else {
        block_size as usize
    };
    let mut boot: Vec<u8> = zeroed(boot_len);
    overlay(&mut boot, 1024, &sb);
    if let Err(e) = dev.write_at(0, &boot) {
        return Err(e);
    }
    if let Err(e) = dev.flush() {
        return Err(e);
    }
    let desc: Vec<u8> = write_bgd_group0(block_size, blocks, &uuid);
    let mut table: Vec<u8> = zeroed(block_size as usize);
    overlay(&mut table, 0, &desc);
    if let Err(e) = dev.write_at((first + 1) * bs, &table) {
        return Err(e);
    }
    let mut block_bits: Vec<u8> = zeroed(block_size as usize);
    put_bits(&mut block_bits, 0, root + 1 - first, true);
    put_bits(&mut block_bits, blocks - first, 8 * bs - (blocks - first), true);
    proof {
        let z = zeros(bs as nat);
        lemma_with_bits_len(z, 0, (root + 1 - first) as nat, true);
        lemma_with_bits_len(
            with_bits(z, 0, (root + 1 - first) as nat, true),
            blocks - first,
            (8 * bs - (blocks - first)) as nat,
            true,
        );
    }
    if let Err(e) = dev.write_at((first + 2) * bs, &block_bits) {
        return Err(e);
    }
    let mut inode_bits: Vec<u8> = zeroed(block_size as usize);
    inode_bits.set(0, 3);
    if let Err(e) = dev.write_at((first + 3) * bs, &inode_bits) {
        return Err(e);
    }
    let record: Vec<u8> = write_root_inode(block_size, &uuid);
    let mut inodes: Vec<u8> = zeroed(0x20_0000);
    overlay(&mut inodes, 256, &record);
    if let Err(e) = dev.write_at((first + 4) * bs, &inodes) {
        return Err(e);
    }
    let dir: Vec<u8> = build_root_dir(block_size, &uuid);
    if let Err(e) = dev.write_at(root * bs, &dir) {
        return Err(e);
    }
    if let Err(e) = dev.flush() {
        return Err(e);
    }
    Ok(())
}

// -- identifiers ------------------------------------------------------------

/// Sixteen bytes marked as a random identifier: version four, and its variant.
pub open spec fn marked_random(b: Seq<u8>) -> Seq<u8> {
    b.update(6, (b[6] & 0x0F) | 0x40).update(8, (b[8] & 0x3F) | 0x80)
}

/// Mark sixteen random bytes as a version-four identifier.
pub fn uuid_v4(random: [u8; 16]) -> (r: [u8; 16])
    ensures
        r@ == marked_random(random@),
{
    let mut out: [u8; 16] = random;
    let b6: u8 = out[6];
    let b8: u8 = out[8];
    out[6] = (b6 & 0x0F) | 0x40;
    out[8] = (b8 & 0x3F) | 0x80;
    out
}

/// An identifier marked as random says so, whatever it was made from.
pub proof fn law_uuid_is_version_four(b: Seq<u8>)
    requires
        b.len() == 16,
    ensures
        marked_random(b)[6] & 0xF0 == 0x40,
        marked_random(b)[8] & 0xC0 == 0x80,
{
    let x = b[6];
    let y = b[8];
    assert(((x & 0x0F) | 0x40) & 0xF0 == 0x40) by (bit_vector);
    assert(((y & 0x3F) | 0x80) & 0xC0 == 0x80) by (bit_vector);
}

/// The state of the fallback generator after a number of steps.
pub open spec fn stepped(state: u64, n: nat) -> u64
    decreases n,
{
    if n == 0 {
        state
    } else {
        ((stepped(state, (n - 1) as nat) * 6364136223846793005 + 1442695040888963407) % 0x1_0000_0000_0000_0000) as u64
    }
}

/// An identifier from a seed, for where no random bytes are to be had.
pub fn uuid_from_seed(seed: u64) -> (r: [u8; 16])
    ensures
        r@ == marked_random(
            Seq::new(16, |i: int| (stepped(seed, (i + 1) as nat) / 0x100_0000_0000_0000) as u8),
        ),
{
    let mut out: [u8; 16] = [0u8; 16];
    let mut state: u64 = seed;
    let mut i: usize = 0;
    while i < 16
        invariant
            i <= 16,
            state == stepped(seed, i as nat),
            forall|k: int|
                0 <= k < i ==> out@[k] == (stepped(seed, (k + 1) as nat) / 0x100_0000_0000_0000) as u8,
        decreases 16 - i,
    {
        proof {
            assert(state as u128 * 6364136223846793005u128 + 1442695040888963407u128 <= u128::MAX) by (nonlinear_arith)
                requires
                    state <= 0xFFFF_FFFF_FFFF_FFFF,
            ;
        }
        let wide: u128 = state as u128 * 6364136223846793005u128 + 1442695040888963407u128;
        state = (wide % 0x1_0000_0000_0000_0000u128) as u64;
        out[i] = (state / 0x100_0000_0000_0000) as u8;
        i += 1;
    }
    assert(out@ =~= Seq::new(16, |i: int| (stepped(seed, (i + 1) as nat) / 0x100_0000_0000_0000) as u8));
    uuid_v4(out)
}

} // verus!
