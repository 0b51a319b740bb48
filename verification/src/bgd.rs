//! Block group descriptors.
use crate::bytes::{get_u16, get_u32, join32_spec, join_u32, le16, le32};
use crate::error::{Error, Result};
use crate::superblock::Superblock;
use vstd::prelude::*;

verus! {

/// `bg_flags`: the inode bitmap and table were never written.
pub const INODE_UNINIT: u16 = 0x0001;

/// `bg_flags`: the block bitmap was never written.
pub const BLOCK_UNINIT: u16 = 0x0002;

/// `bg_flags`: the inode table is zeroed.
pub const INODE_ZEROED: u16 = 0x0004;

/// One block group's descriptor.
#[derive(Debug, Clone, Copy, PartialEq, Eq)]
pub struct BlockGroupDescriptor {
    pub block_bitmap: u64,
    pub inode_bitmap: u64,
    pub inode_table: u64,
    pub free_blocks_count: u32,
    pub free_inodes_count: u32,
    pub used_dirs_count: u32,
    pub flags: u16,
    pub itable_unused: u32,
    pub block_bitmap_csum: u32,
    pub inode_bitmap_csum: u32,
    pub checksum: u16,
}

/// A 32-bit counter stored as two 16-bit halves.
pub open spec fn join16_spec(lo: u16, hi: u16) -> u32 {
    (lo + 0x1_0000 * hi) as u32
}

/// Joins two 16-bit halves.
pub fn join_u16(lo: u16, hi: u16) -> (r: u32)
    ensures
        r == join16_spec(lo, hi),
{
    lo as u32 + 0x1_0000 * (hi as u32)
}

/// The descriptor at byte `at` of `s`, `size` bytes long. The high halves
/// are there only in descriptors of 64 bytes and more.
pub open spec fn descriptor_at(s: Seq<u8>, at: int, size: int) -> BlockGroupDescriptor {
    let wide = size >= 0x40;
    BlockGroupDescriptor {
        block_bitmap: join32_spec(le32(s, at), if wide { le32(s, at + 0x20) } else { 0u32 }),
        inode_bitmap: join32_spec(le32(s, at + 4), if wide { le32(s, at + 0x24) } else { 0u32 }),
        inode_table: join32_spec(le32(s, at + 8), if wide { le32(s, at + 0x28) } else { 0u32 }),
        free_blocks_count: join16_spec(
            le16(s, at + 0x0C),
            if wide { le16(s, at + 0x2C) } else { 0u16 },
        ),
        free_inodes_count: join16_spec(
            le16(s, at + 0x0E),
            if wide { le16(s, at + 0x2E) } else { 0u16 },
        ),
        used_dirs_count: join16_spec(
            le16(s, at + 0x10),
            if wide { le16(s, at + 0x30) } else { 0u16 },
        ),
        flags: le16(s, at + 0x12),
        itable_unused: join16_spec(
            le16(s, at + 0x1C),
            if wide { le16(s, at + 0x32) } else { 0u16 },
        ),
        block_bitmap_csum: join16_spec(
            le16(s, at + 0x18),
            if wide { le16(s, at + 0x38) } else { 0u16 },
        ),
        inode_bitmap_csum: join16_spec(
            le16(s, at + 0x1A),
            if wide { le16(s, at + 0x3A) } else { 0u16 },
        ),
        checksum: le16(s, at + 0x1E),
    }
}

impl BlockGroupDescriptor {
    /// Whether the block bitmap was never written.
    pub open spec fn blocks_uninit(&self) -> bool {
        self.flags & BLOCK_UNINIT != 0
    }

    /// Whether the inode bitmap was never written.
    pub open spec fn inodes_uninit(&self) -> bool {
        self.flags & INODE_UNINIT != 0
    }

    /// Whether every flag of `mask` is set.
    pub fn has_flag(&self, mask: u16) -> (r: bool)
        ensures
            r == (self.flags & mask != 0),
    {
        self.flags & mask != 0
    }

    /// Reads the descriptor at byte `at`.
    pub fn parse(s: &[u8], at: usize, size: usize) -> (r: BlockGroupDescriptor)
        requires
            size >= 32,
            at + size <= s@.len(),
        ensures
            r == descriptor_at(s@, at as int, size as int),
    {
        assert(s.len() == s@.len());
        let wide: bool = size >= 0x40;
        BlockGroupDescriptor {
            block_bitmap: join_u32(
                get_u32(s, at),
                if wide { get_u32(s, at + 0x20) } else { 0 },
            ),
            inode_bitmap: join_u32(
                get_u32(s, at + 4),
                if wide { get_u32(s, at + 0x24) } else { 0 },
            ),
            inode_table: join_u32(
                get_u32(s, at + 8),
                if wide { get_u32(s, at + 0x28) } else { 0 },
            ),
            free_blocks_count: join_u16(
                get_u16(s, at + 0x0C),
                if wide { get_u16(s, at + 0x2C) } else { 0 },
            ),
            free_inodes_count: join_u16(
                get_u16(s, at + 0x0E),
                if wide { get_u16(s, at + 0x2E) } else { 0 },
            ),
            used_dirs_count: join_u16(
                get_u16(s, at + 0x10),
                if wide { get_u16(s, at + 0x30) } else { 0 },
            ),
            flags: get_u16(s, at + 0x12),
            itable_unused: join_u16(
                get_u16(s, at + 0x1C),
                if wide { get_u16(s, at + 0x32) } else { 0 },
            ),
            block_bitmap_csum: join_u16(
                get_u16(s, at + 0x18),
                if wide { get_u16(s, at + 0x38) } else { 0 },
            ),
            inode_bitmap_csum: join_u16(
                get_u16(s, at + 0x1A),
                if wide { get_u16(s, at + 0x3A) } else { 0 },
            ),
            checksum: get_u16(s, at + 0x1E),
        }
    }
}

/// The block that holds inode `ino`, and the byte of that block where its
/// record starts.
pub open spec fn inode_place(sb: Superblock, groups: Seq<BlockGroupDescriptor>, ino: u32) -> Result<(u64, u32)> {
    let gi = (ino - 1) / sb.inodes_per_group as int;
    let byte = ((ino - 1) % sb.inodes_per_group as int) * sb.inode_size;
    if ino == 0 || ino > sb.inodes_count || gi >= groups.len() {
        Err(Error::InvalidInode(ino))
    } else if groups[gi].inode_table + byte / sb.bs() > u64::MAX {
        Err(Error::Corrupt("inode table past the end of the address space"))
    } else {
        Ok(((groups[gi].inode_table + byte / sb.bs()) as u64, (byte % sb.bs()) as u32))
    }
}

/// Finds where inode `ino` lives: its block, and the byte offset in it.
pub fn locate_inode(sb: &Superblock, groups: &[BlockGroupDescriptor], ino: u32) -> (r: Result<(u64, u32)>)
    requires
        sb.wf(),
    ensures
        r == inode_place(*sb, groups@, ino),
{
    if ino == 0 || ino > sb.inodes_count {
        return Err(Error::InvalidInode(ino));
    }
    let ipg: u32 = sb.inodes_per_group;
    let gi: u32 = (ino - 1) / ipg;
    if gi as u64 >= groups.len() as u64 {
        return Err(Error::InvalidInode(ino));
    }
    let index: u64 = ((ino - 1) % ipg) as u64;
    assert(index * sb.inode_size <= 0xFFFF_FFFF * 0xFFFF) by (nonlinear_arith)
        requires
            index <= 0xFFFF_FFFF,
            sb.inode_size <= 0xFFFF,
    ;
    let byte: u64 = index * (sb.inode_size as u64);
    let bs: u64 = sb.block_size() as u64;
    match groups[gi as usize].inode_table.checked_add(byte / bs) {
        Some(block) => Ok((block, (byte % bs) as u32)),
        None => Err(Error::Corrupt("inode table past the end of the address space")),
    }
}

} // verus!
