//! The superblock: the volume's geometry, features and totals.
use crate::bytes::{get_u16, get_u32, join_u32, le16, le32, join32_spec, copy_range};
use crate::error::{Error, Result};
use crate::features::{has, has_any, COMPAT_SPARSE_SUPER2, INCOMPAT_BIT64, RO_COMPAT_SPARSE_SUPER};
use vstd::prelude::*;

verus! {

/// Byte of the device where the superblock starts.
pub const SUPERBLOCK_OFFSET: u64 = 1024;

/// Length of the superblock in bytes.
pub const SUPERBLOCK_SIZE: usize = 1024;

/// `s_magic`.
pub const EXT4_MAGIC: u16 = 0xEF53;

/// First inode a file may have where the superblock does not say.
pub const GOOD_OLD_FIRST_INODE: u32 = 11;

/// Block numbers are kept in 48 bits.
pub const MAX_BLOCKS: u64 = 0x1_0000_0000_0000;

/// `s_state`: cleanly unmounted.
pub const STATE_CLEAN: u16 = 0x0001;

/// `s_state`: errors were seen.
pub const STATE_ERROR: u16 = 0x0002;

/// `s_flags`: directory hashes are of unsigned characters.
pub const FLAG_UNSIGNED_HASH: u32 = 0x0002;

/// The superblock as the driver uses it.
#[derive(Debug, Clone)]
pub struct Superblock {
    pub inodes_count: u32,
    pub blocks_count: u64,
    pub free_blocks_count: u64,
    pub free_inodes_count: u32,
    pub first_data_block: u32,
    pub log_block_size: u32,
    pub blocks_per_group: u32,
    pub inodes_per_group: u32,
    pub state: u16,
    pub first_inode: u32,
    pub inode_size: u16,
    pub feature_compat: u32,
    pub feature_incompat: u32,
    pub feature_ro_compat: u32,
    pub uuid: Vec<u8>,
    pub volume_name: Vec<u8>,
    pub reserved_gdt_blocks: u16,
    pub journal_inode: u32,
    pub last_orphan: u32,
    pub hash_seed: [u32; 4],
    pub desc_size: u16,
    pub flags: u32,
    pub backup_bgs: [u32; 2],
    pub checksum_seed: u32,
    pub raw: Vec<u8>,
}

/// Bytes per block for a stored `s_log_block_size`.
pub open spec fn block_size_of(log: u32) -> int {
    if log == 0 {
        1024
    } else if log == 1 {
        2048
    } else if log == 2 {
        4096
    } else if log == 3 {
        8192
    } else if log == 4 {
        16384
    } else if log == 5 {
        32768
    } else {
        65536
    }
}

/// The inode size a superblock means: revision 0 has one size only.
pub open spec fn inode_size_of(raw: Seq<u8>) -> u16 {
    if le32(raw, 0x4C) == 0 {
        128u16
    } else {
        le16(raw, 0x58)
    }
}

/// The block count a superblock means.
pub open spec fn blocks_count_of(raw: Seq<u8>) -> u64 {
    if has(le32(raw, 0x60), INCOMPAT_BIT64) {
        join32_spec(le32(raw, 0x04), le32(raw, 0x150))
    } else {
        le32(raw, 0x04) as u64
    }
}

/// The free block count a superblock means.
pub open spec fn free_blocks_count_of(raw: Seq<u8>) -> u64 {
    if has(le32(raw, 0x60), INCOMPAT_BIT64) {
        join32_spec(le32(raw, 0x0C), le32(raw, 0x158))
    } else {
        le32(raw, 0x0C) as u64
    }
}

/// The group descriptor size a superblock means: 32 bytes unless the volume
/// is 64-bit and says more.
pub open spec fn desc_size_of(raw: Seq<u8>) -> u16 {
    if has(le32(raw, 0x60), INCOMPAT_BIT64) && le16(raw, 0xFE) > 32 {
        le16(raw, 0xFE)
    } else {
        32u16
    }
}

/// Why a superblock is refused, if it is.
pub open spec fn superblock_fault(raw: Seq<u8>) -> Option<Error> {
    if raw.len() < SUPERBLOCK_SIZE {
        Some(Error::Corrupt("superblock: too short"))
    } else if le16(raw, 0x38) != EXT4_MAGIC {
        Some(Error::Corrupt("superblock: bad magic"))
    } else if le32(raw, 0x18) > 6 {
        Some(Error::Corrupt("superblock: block size out of range"))
    } else if le32(raw, 0x20) == 0 {
        Some(Error::Corrupt("superblock: blocks_per_group is zero"))
    } else if le32(raw, 0x28) == 0 {
        Some(Error::Corrupt("superblock: inodes_per_group is zero"))
    } else if inode_size_of(raw) < 128 || inode_size_of(raw) > block_size_of(le32(raw, 0x18)) {
        Some(Error::Corrupt("superblock: inode size out of range"))
    } else if block_size_of(le32(raw, 0x18)) % desc_size_of(raw) as int != 0 {
        Some(Error::Corrupt("superblock: descriptor size out of range"))
    } else if blocks_count_of(raw) >= MAX_BLOCKS {
        Some(Error::Corrupt("superblock: more blocks than can be addressed"))
    } else if le32(raw, 0x14) >= blocks_count_of(raw) {
        Some(Error::Corrupt("superblock: first_data_block past the end"))
    } else {
        None
    }
}

/// How many groups `blocks` blocks after the first make.
pub open spec fn groups_for(blocks: int, per_group: int) -> int {
    (blocks + per_group - 1) / per_group
}

/// Whether `n` is a power of `b`.
pub open spec fn is_power_of(n: int, b: int) -> bool
    decreases n via is_power_of_decreases
{
    if n <= 1 || b <= 1 {
        n == 1
    } else {
        n % b == 0 && is_power_of(n / b, b)
    }
}

#[via_fn]
proof fn is_power_of_decreases(n: int, b: int) {
    if n > 1 && b > 1 {
        assert(0 <= n / b < n) by (nonlinear_arith)
            requires
                n > 1,
                b > 1,
        ;
    }
}

fn power_of(n: u64, b: u64) -> (r: bool)
    requires
        b > 1,
    ensures
        r == is_power_of(n as int, b as int),
{
    let mut k: u64 = n;
    while k > 1 && k % b == 0
        invariant
            b > 1,
            is_power_of(n as int, b as int) == is_power_of(k as int, b as int),
        decreases k,
    {
        assert(k / b < k) by (nonlinear_arith)
            requires
                b > 1,
                k > 1,
        ;
        k = k / b;
    }
    k == 1
}

impl Superblock {
    /// The geometry limits every parsed superblock keeps to.
    pub open spec fn wf(&self) -> bool {
        &&& self.log_block_size <= 6
        &&& self.blocks_per_group > 0
        &&& self.inodes_per_group > 0
        &&& 128 <= self.inode_size <= self.bs()
        &&& 32 <= self.desc_size <= self.bs()
        &&& self.bs() % self.desc_size as int == 0
        &&& self.first_data_block < self.blocks_count < MAX_BLOCKS
        &&& self.uuid@.len() == 16
    }

    /// Bytes per block.
    pub open spec fn bs(&self) -> int {
        block_size_of(self.log_block_size)
    }

    /// Each field holds what the bytes say.
    pub open spec fn decodes(&self, raw: Seq<u8>) -> bool {
        &&& self.inodes_count == le32(raw, 0x00)
        &&& self.blocks_count == blocks_count_of(raw)
        &&& self.free_blocks_count == free_blocks_count_of(raw)
        &&& self.free_inodes_count == le32(raw, 0x10)
        &&& self.first_data_block == le32(raw, 0x14)
        &&& self.log_block_size == le32(raw, 0x18)
        &&& self.blocks_per_group == le32(raw, 0x20)
        &&& self.inodes_per_group == le32(raw, 0x28)
        &&& self.state == le16(raw, 0x3A)
        &&& self.first_inode == (if le32(raw, 0x4C) == 0 || le32(raw, 0x54) == 0 {
            GOOD_OLD_FIRST_INODE
        } else {
            le32(raw, 0x54)
        })
        &&& self.inode_size == inode_size_of(raw)
        &&& self.feature_compat == le32(raw, 0x5C)
        &&& self.feature_incompat == le32(raw, 0x60)
        &&& self.feature_ro_compat == le32(raw, 0x64)
        &&& self.uuid@ == raw.subrange(0x68, 0x78)
        &&& self.volume_name@ == raw.subrange(0x78, 0x88)
        &&& self.reserved_gdt_blocks == le16(raw, 0xCE)
        &&& self.journal_inode == le32(raw, 0xE0)
        &&& self.last_orphan == le32(raw, 0xE8)
        &&& self.hash_seed@ == seq![
            le32(raw, 0xEC),
            le32(raw, 0xF0),
            le32(raw, 0xF4),
            le32(raw, 0xF8),
        ]
        &&& self.desc_size == desc_size_of(raw)
        &&& self.flags == le32(raw, 0x160)
        &&& self.backup_bgs@ == seq![le32(raw, 0x24C), le32(raw, 0x250)]
        &&& self.checksum_seed == le32(raw, 0x270)
        &&& self.raw@ == raw
    }

    /// Reads a superblock out of its bytes, or says why it cannot be one.
    pub fn parse(raw: Vec<u8>) -> (r: Result<Superblock>)
        ensures
            match superblock_fault(raw@) {
                Some(e) => r == Err::<Superblock, Error>(e),
                None => r is Ok && r->Ok_0.wf() && r->Ok_0.decodes(raw@),
            },
    {
        if raw.len() < SUPERBLOCK_SIZE {
            return Err(Error::Corrupt("superblock: too short"));
        }
        if get_u16(&raw, 0x38) != EXT4_MAGIC {
            return Err(Error::Corrupt("superblock: bad magic"));
        }
        let log_block_size: u32 = get_u32(&raw, 0x18);
        if log_block_size > 6 {
            return Err(Error::Corrupt("superblock: block size out of range"));
        }
        let block_size: u32 = shift_block_size(log_block_size);
        let blocks_per_group: u32 = get_u32(&raw, 0x20);
        if blocks_per_group == 0 {
            return Err(Error::Corrupt("superblock: blocks_per_group is zero"));
        }
        let inodes_per_group: u32 = get_u32(&raw, 0x28);
        if inodes_per_group == 0 {
            return Err(Error::Corrupt("superblock: inodes_per_group is zero"));
        }
        let old_revision: bool = get_u32(&raw, 0x4C) == 0;
        let inode_size: u16 = if old_revision {
            128
        } else {
            get_u16(&raw, 0x58)
        };
        if inode_size < 128 || inode_size as u32 > block_size {
            return Err(Error::Corrupt("superblock: inode size out of range"));
        }
        let feature_incompat: u32 = get_u32(&raw, 0x60);
        let wide: bool = has_any(feature_incompat, INCOMPAT_BIT64);
        let desc_field: u16 = get_u16(&raw, 0xFE);
        let desc_size: u16 = if wide && desc_field > 32 {
            desc_field
        } else {
            32
        };
        if block_size % (desc_size as u32) != 0 {
            return Err(Error::Corrupt("superblock: descriptor size out of range"));
        }
        assert(desc_size <= block_size) by (nonlinear_arith)
            requires
                block_size > 0,
                desc_size > 0,
                block_size % (desc_size as u32) == 0,
        ;
        let blocks_count: u64 = if wide {
            join_u32(get_u32(&raw, 0x04), get_u32(&raw, 0x150))
        } else {
            get_u32(&raw, 0x04) as u64
        };
        if blocks_count >= MAX_BLOCKS {
            return Err(Error::Corrupt("superblock: more blocks than can be addressed"));
        }
        let first_data_block: u32 = get_u32(&raw, 0x14);
        if first_data_block as u64 >= blocks_count {
            return Err(Error::Corrupt("superblock: first_data_block past the end"));
        }
        let free_blocks_count: u64 = if wide {
            join_u32(get_u32(&raw, 0x0C), get_u32(&raw, 0x158))
        } else {
            get_u32(&raw, 0x0C) as u64
        };
        let first_field: u32 = get_u32(&raw, 0x54);
        let first_inode: u32 = if old_revision || first_field == 0 {
            GOOD_OLD_FIRST_INODE
        } else {
            first_field
        };
        let hash_seed: [u32; 4] = [
            get_u32(&raw, 0xEC),
            get_u32(&raw, 0xF0),
            get_u32(&raw, 0xF4),
            get_u32(&raw, 0xF8),
        ];
        let backup_bgs: [u32; 2] = [get_u32(&raw, 0x24C), get_u32(&raw, 0x250)];
        let sb = Superblock {
            inodes_count: get_u32(&raw, 0x00),
            blocks_count,
            free_blocks_count,
            free_inodes_count: get_u32(&raw, 0x10),
            first_data_block,
            log_block_size,
            blocks_per_group,
            inodes_per_group,
            state: get_u16(&raw, 0x3A),
            first_inode,
            inode_size,
            feature_compat: get_u32(&raw, 0x5C),
            feature_incompat,
            feature_ro_compat: get_u32(&raw, 0x64),
            uuid: copy_range(&raw, 0x68, 0x78),
            volume_name: copy_range(&raw, 0x78, 0x88),
            reserved_gdt_blocks: get_u16(&raw, 0xCE),
            journal_inode: get_u32(&raw, 0xE0),
            last_orphan: get_u32(&raw, 0xE8),
            hash_seed,
            desc_size,
            flags: get_u32(&raw, 0x160),
            backup_bgs,
            checksum_seed: get_u32(&raw, 0x270),
            raw,
        };
        assert(sb.hash_seed@ =~= seq![
            le32(raw@, 0xEC),
            le32(raw@, 0xF0),
            le32(raw@, 0xF4),
            le32(raw@, 0xF8),
        ]);
        assert(sb.backup_bgs@ =~= seq![le32(raw@, 0x24C), le32(raw@, 0x250)]);
        Ok(sb)
    }

    /// Bytes per block.
    pub fn block_size(&self) -> (r: u32)
        ensures
            r == self.bs(),
    {
        shift_block_size(self.log_block_size)
    }

    /// How many block groups the volume has.
    pub open spec fn group_count(&self) -> int {
        groups_for(self.blocks_count - self.first_data_block, self.blocks_per_group as int)
    }

    /// How many block groups the volume has.
    pub fn block_group_count(&self) -> (r: u64)
        requires
            self.blocks_per_group > 0,
            self.first_data_block <= self.blocks_count,
        ensures
            r == self.group_count(),
    {
        let blocks: u64 = self.blocks_count - self.first_data_block as u64;
        let per: u64 = self.blocks_per_group as u64;
        let whole: u64 = blocks / per;
        proof {
            lemma_div_ceil(blocks as int, per as int);
            assert(blocks / per <= blocks) by (nonlinear_arith)
                requires
                    per > 0,
            ;
            assert(blocks % per != 0 ==> whole < u64::MAX) by {
                vstd::arithmetic::div_mod::lemma_fundamental_div_mod(blocks as int, per as int);
                if blocks % per != 0 && whole == u64::MAX {
                    assert(per * whole >= whole) by (nonlinear_arith)
                        requires
                            per >= 1,
                            whole >= 0,
                    ;
                }
            }
        }
        if blocks % per == 0 {
            whole
        } else {
            whole + 1
        }
    }

    /// Whether group `gi` starts with a copy of the superblock and of the
    /// descriptor table.
    pub open spec fn has_super(&self, gi: int) -> bool {
        if has(self.feature_compat, COMPAT_SPARSE_SUPER2) {
            gi == 0 || gi == self.backup_bgs@[0] || gi == self.backup_bgs@[1]
        } else if has(self.feature_ro_compat, RO_COMPAT_SPARSE_SUPER) {
            gi == 0 || is_power_of(gi, 3) || is_power_of(gi, 5) || is_power_of(gi, 7)
        } else {
            true
        }
    }

    /// Whether group `gi` starts with a copy of the superblock and of the
    /// descriptor table.
    pub fn group_has_super(&self, gi: u64) -> (r: bool)
        ensures
            r == self.has_super(gi as int),
    {
        if has_any(self.feature_compat, COMPAT_SPARSE_SUPER2) {
            gi == 0 || gi == self.backup_bgs[0] as u64 || gi == self.backup_bgs[1] as u64
        } else if has_any(self.feature_ro_compat, RO_COMPAT_SPARSE_SUPER) {
            gi == 0 || power_of(gi, 3) || power_of(gi, 5) || power_of(gi, 7)
        } else {
            true
        }
    }

    /// Whether directory hashes take characters as unsigned.
    pub fn unsigned_hash(&self) -> (r: bool)
        ensures
            r == has(self.flags, FLAG_UNSIGNED_HASH),
    {
        has_any(self.flags, FLAG_UNSIGNED_HASH)
    }

    /// Whether the volume was cleanly unmounted and no errors were noted.
    pub fn is_clean(&self) -> (r: bool)
        ensures
            r == (self.state & STATE_CLEAN != 0 && self.state & STATE_ERROR == 0),
    {
        self.state & STATE_CLEAN != 0 && self.state & STATE_ERROR == 0
    }
}

/// Rounding up by adding `d - 1` is the quotient, plus one for a remainder.
pub proof fn lemma_div_ceil(n: int, d: int)
    requires
        n >= 0,
        d > 0,
    ensures
        (n + d - 1) / d == n / d + (if n % d == 0 {
            0int
        } else {
            1int
        }),
{
    vstd::arithmetic::div_mod::lemma_fundamental_div_mod(n, d);
    let q = n / d;
    let m = n % d;
    if m == 0 {
        assert((n + d - 1) / d == q) by (nonlinear_arith)
            requires
                n == d * q,
                d > 0,
        ;
    } else {
        assert((n + d - 1) / d == q + 1) by (nonlinear_arith)
            requires
                n == d * q + m,
                0 < m < d,
        ;
    }
}

/// Bytes per block for `s_log_block_size`.
fn shift_block_size(log: u32) -> (r: u32)
    ensures
        r == block_size_of(log),
{
    if log == 0 {
        1024
    } else if log == 1 {
        2048
    } else if log == 2 {
        4096
    } else if log == 3 {
        8192
    } else if log == 4 {
        16384
    } else if log == 5 {
        32768
    } else {
        65536
    }
}

} // verus!
