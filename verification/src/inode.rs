//! Inode records.
//!
//! The base record is 128 bytes; larger inodes carry `i_extra_isize` bytes
//! more, with the high half of the checksum, the nanosecond timestamps and
//! the creation time. High halves of uid, gid, size, file_acl and blocks live
//! at the end of the base part.
use crate::bytes::{get_u16, get_u32, join32_spec, join_u32, le16, le32};
use crate::error::{Error, Result};
use vstd::prelude::*;

verus! {

/// Minimum on-disk inode size.
pub const INODE_BASE_SIZE: usize = 128;

/// The size of the original ext2 inode: everything up to here is the fixed
/// part that every inode has.
pub const GOOD_OLD_INODE_SIZE: usize = 128;

/// Offset of `i_extra_isize`, where the extra section starts.
pub const INODE_EXTRA_OFFSET: usize = 128;

pub const OFF_MODE: usize = 0x00;
pub const OFF_SIZE_LO: usize = 0x04;
pub const OFF_ATIME: usize = 0x08;
pub const OFF_CTIME: usize = 0x0C;
pub const OFF_MTIME: usize = 0x10;
pub const OFF_DTIME: usize = 0x14;
pub const OFF_LINKS_COUNT: usize = 0x1A;
pub const OFF_BLOCKS_LO: usize = 0x1C;
pub const OFF_FLAGS: usize = 0x20;
pub const OFF_BLOCK: usize = 0x28;
pub const OFF_GENERATION: usize = 0x64;
pub const OFF_FILE_ACL_LO: usize = 0x68;
pub const OFF_SIZE_HI: usize = 0x6C;
pub const OFF_BLOCKS_HI: usize = 0x74;
pub const OFF_FILE_ACL_HI: usize = 0x76;
pub const OFF_CHECKSUM_LO: usize = 0x7C;
pub const OFF_EXTRA_ISIZE: usize = 0x80;
pub const OFF_CHECKSUM_HI: usize = 0x82;
pub const OFF_CRTIME: usize = 0x90;

/// Default i_extra_isize value written into new inodes: covers checksum_hi,
/// nsec timestamps, and i_crtime.
pub const EXTRA_ISIZE_DEFAULT: u16 = 32;

/// Minimum inode buffer length for i_crtime to be present.
pub const INODE_SIZE_WITH_CRTIME: usize = 0x94;

/// Minimum inode buffer length for i_extra_isize + i_checksum_hi.
pub const INODE_SIZE_WITH_EXTRA: usize = 0x84;

pub const S_IFMT: u16 = 0xF000;
pub const S_IFREG: u16 = 0x8000;
pub const S_IFDIR: u16 = 0x4000;
pub const S_IFLNK: u16 = 0xA000;
pub const S_IFBLK: u16 = 0x6000;
pub const S_IFCHR: u16 = 0x2000;
pub const S_IFIFO: u16 = 0x1000;
pub const S_IFSOCK: u16 = 0xC000;

// `i_flags`.
/// Secure deletion.
pub const FL_SECRM: u32 = 0x0000_0001;
/// Undelete.
pub const FL_UNRM: u32 = 0x0000_0002;
/// Compressed file.
pub const FL_COMPR: u32 = 0x0000_0004;
/// Synchronous writes.
pub const FL_SYNC: u32 = 0x0000_0008;
/// Immutable.
pub const FL_IMMUTABLE: u32 = 0x0000_0010;
/// Append-only.
pub const FL_APPEND: u32 = 0x0000_0020;
/// Do not dump.
pub const FL_NODUMP: u32 = 0x0000_0040;
/// Do not update access time.
pub const FL_NOATIME: u32 = 0x0000_0080;
/// Extra timestamp fields.
pub const FL_EXTRA_ATIME: u32 = 0x0000_0100;
/// The contents, or a directory's entry names, are ciphertext.
pub const FL_ENCRYPT: u32 = 0x0000_0800;
/// Hash-tree-indexed directory.
pub const FL_INDEX: u32 = 0x0000_1000;
/// i_blocks counts fs blocks, not 512-byte sectors.
pub const FL_HUGE_FILE: u32 = 0x0004_0000;
/// i_block holds an extent tree.
pub const FL_EXTENTS: u32 = 0x0008_0000;
/// The inode holds an extended attribute's value.
pub const FL_EA_INODE: u32 = 0x0020_0000;
/// File contents live inside i_block and the attributes.
pub const FL_INLINE_DATA: u32 = 0x1000_0000;

/// Every flag with a name here.
pub const FL_KNOWN: u32 = FL_SECRM | FL_UNRM | FL_COMPR | FL_SYNC | FL_IMMUTABLE | FL_APPEND | FL_NODUMP
    | FL_NOATIME | FL_EXTRA_ATIME | FL_ENCRYPT | FL_INDEX | FL_HUGE_FILE | FL_EXTENTS | FL_EA_INODE
    | FL_INLINE_DATA;

/// The named flags of an inode.
#[derive(Debug, Clone, Copy, PartialEq, Eq, Structural)]
pub struct InodeFlags {
    pub bits: u32,
}

impl InodeFlags {
    /// Whether every flag of `mask` is set.
    pub fn contains(&self, mask: u32) -> (r: bool)
        ensures
            r == (self.bits & mask == mask),
    {
        self.bits & mask == mask
    }
}

/// Parsed inode.
///
/// High and low halves are combined. Nanosecond timestamps come from the
/// `*_extra` fields when present: the top 30 bits are nanoseconds, the low two
/// extend the seconds.
#[derive(Debug, Clone, Copy)]
pub struct Inode {
    pub mode: u16,
    pub uid: u32,
    pub gid: u32,
    pub size: u64,
    /// Seconds since the Unix epoch, signed: dates before 1970 are negative,
    /// and the epoch bits carry dates past 2038.
    pub atime: i64,
    pub mtime: i64,
    pub ctime: i64,
    pub dtime: i64,
    pub crtime: i64,
    pub atime_nsec: u32,
    pub mtime_nsec: u32,
    pub ctime_nsec: u32,
    pub crtime_nsec: u32,
    pub links_count: u16,
    /// 512-byte sectors.
    pub blocks: u64,
    pub flags: u32,
    /// The 60-byte i_block area: extent header, direct pointers or inline
    /// data.
    pub block: [u8; 60],
    pub generation: u32,
    pub file_acl: u64,
    pub checksum: u32,
}

// -- time -------------------------------------------------------------------

/// A 32-bit word read as two's complement.
pub open spec fn signed32(v: u32) -> int {
    if v < 0x8000_0000 {
        v as int
    } else {
        v - 0x1_0000_0000
    }
}

/// Seconds meant by a base field and its `*_extra` field.
pub open spec fn time_of(base: u32, extra: u32) -> int {
    signed32(base) + 0x1_0000_0000 * (extra % 4) as int
}

/// Reads a 32-bit word as two's complement.
fn as_signed(v: u32) -> (r: i64)
    ensures
        r == signed32(v),
{
    if v < 0x8000_0000 {
        v as i64
    } else {
        v as i64 - 0x1_0000_0000
    }
}

/// Combine a base timestamp with its `*_extra` field.
///
/// The base is a signed 32-bit count of seconds. The low two bits of the extra
/// field extend it by `2^32` each step; the upper thirty are nanoseconds and
/// have no part in the seconds.
pub fn decode_extra_time(base: u32, extra: u32) -> (r: i64)
    ensures
        r == time_of(base, extra),
{
    as_signed(base) + 0x1_0000_0000 * ((extra % 4) as i64)
}

/// The base and epoch bits that a seconds value is stored as.
pub open spec fn time_fields(secs: int) -> (u32, u32) {
    let base = (secs % 0x1_0000_0000) as u32;
    (base, (((secs - signed32(base)) / 0x1_0000_0000) % 4) as u32)
}

/// Split a seconds value into the on-disk base and the two epoch bits that
/// belong in the low end of the matching `*_extra` field.
///
/// The epoch bits account for the signed reading of the base: 2100-01-01 fits
/// in 32 bits but is negative as a signed base, and is stored as that with an
/// epoch of one.
pub fn encode_extra_time(secs: i64) -> (r: (u32, u32))
    ensures
        r == time_fields(secs as int),
{
    let up: u128 = (secs as i128 + 0x8000_0000_0000_0000 + 0x4_0000_0000) as u128;
    proof {
        vstd::arithmetic::div_mod::lemma_mod_multiples_vanish(
            0x8000_0004,
            secs as int,
            0x1_0000_0000,
        );
    }
    let base: u32 = (up % 0x1_0000_0000) as u32;
    let diff: u128 = (up as i128 - as_signed(base) as i128) as u128;
    proof {
        let low = secs - signed32(base);
        vstd::arithmetic::div_mod::lemma_hoist_over_denominator(low, 0x8000_0004, 0x1_0000_0000);
        vstd::arithmetic::div_mod::lemma_mod_multiples_vanish(
            0x2000_0001,
            low / 0x1_0000_0000,
            4,
        );
    }
    let epoch: u32 = ((diff / 0x1_0000_0000) % 4) as u32;
    (base, epoch)
}

/// The earliest time the two fields can hold, 1901-12-13.
pub const MIN_ENCODABLE_TIME: i64 = -0x8000_0000;

/// The latest time the two fields can hold, 2446-05-10.
pub const MAX_ENCODABLE_TIME: i64 = 0x3_7FFF_FFFF;

/// Every time that the format can hold comes back as it was stored.
pub proof fn law_time_round_trip(secs: int)
    requires
        MIN_ENCODABLE_TIME <= secs <= MAX_ENCODABLE_TIME,
    ensures
        time_of(time_fields(secs).0, time_fields(secs).1) == secs,
{
}

// -- fields of a record -----------------------------------------------------

/// `i_extra_isize`, or 0 where the record is too short to have one.
pub open spec fn extra_isize_of(raw: Seq<u8>) -> int {
    if raw.len() >= INODE_EXTRA_OFFSET + 4 {
        le16(raw, OFF_EXTRA_ISIZE as int) as int
    } else {
        0
    }
}

/// The 32-bit word at `off` if the extra section reaches `need` bytes, or 0.
pub open spec fn extra_field(raw: Seq<u8>, need: int, off: int) -> u32 {
    if extra_isize_of(raw) >= need {
        le32(raw, off)
    } else {
        0
    }
}

pub open spec fn mode_of(raw: Seq<u8>) -> u16 {
    le16(raw, 0x00)
}

pub open spec fn size_of_file(raw: Seq<u8>) -> u64 {
    join32_spec(le32(raw, 0x04), le32(raw, 0x6C))
}

pub open spec fn links_of(raw: Seq<u8>) -> u16 {
    le16(raw, 0x1A)
}

/// `i_blocks`: its high half is a 16-bit word.
pub open spec fn sectors_of(raw: Seq<u8>) -> u64 {
    join32_spec(le32(raw, 0x1C), le16(raw, 0x74) as u32)
}

pub open spec fn flags_of(raw: Seq<u8>) -> u32 {
    le32(raw, 0x20)
}

pub open spec fn block_area_of(raw: Seq<u8>) -> Seq<u8> {
    raw.subrange(0x28, 0x64)
}

pub open spec fn generation_of(raw: Seq<u8>) -> u32 {
    le32(raw, 0x64)
}

/// `i_file_acl`: its high half is a 16-bit word.
pub open spec fn file_acl_of(raw: Seq<u8>) -> u64 {
    join32_spec(le32(raw, 0x68), le16(raw, 0x76) as u32)
}

/// Why a record is refused, if it is.
pub open spec fn inode_fault(raw: Seq<u8>) -> Option<Error> {
    if raw.len() < INODE_BASE_SIZE {
        Some(Error::Corrupt("inode buffer too small"))
    } else if INODE_EXTRA_OFFSET + extra_isize_of(raw) > raw.len() {
        Some(Error::Corrupt("i_extra_isize exceeds inode size"))
    } else {
        None
    }
}

/// Whether a mode is a directory's.
pub open spec fn mode_is_dir(mode: u16) -> bool {
    mode & S_IFMT == S_IFDIR
}

/// Whether a mode is a regular file's.
pub open spec fn mode_is_file(mode: u16) -> bool {
    mode & S_IFMT == S_IFREG
}

/// Whether a mode is a symbolic link's.
pub open spec fn mode_is_symlink(mode: u16) -> bool {
    mode & S_IFMT == S_IFLNK
}

/// Combine two 16-bit halves into a 32-bit value.
pub fn join16(hi: u16, lo: u16) -> (r: u32)
    ensures
        r == lo + 0x1_0000 * hi,
{
    lo as u32 + 0x1_0000 * (hi as u32)
}

/// Combine a hi half and a 32-bit lo half into a 64-bit value.
pub fn join32(hi: u32, lo: u32) -> (r: u64)
    ensures
        r == join32_spec(lo, hi),
{
    join_u32(lo, hi)
}

/// The 60 bytes of `i_block`.
fn copy_block_area(raw: &[u8]) -> (r: [u8; 60])
    requires
        raw@.len() >= INODE_BASE_SIZE,
    ensures
        r@ == block_area_of(raw@),
{
    let mut block: [u8; 60] = [0u8; 60];
    let mut i: usize = 0;
    while i < 60
        invariant
            i <= 60,
            raw@.len() >= INODE_BASE_SIZE,
            forall|k: int| 0 <= k < i ==> block@[k] == raw@[0x28 + k],
        decreases 60 - i,
    {
        block[i] = raw[OFF_BLOCK + i];
        i += 1;
    }
    assert(block@ =~= block_area_of(raw@));
    block
}

impl Inode {
    /// Each field holds what the record says.
    pub open spec fn decodes(&self, raw: Seq<u8>) -> bool {
        &&& self.mode == mode_of(raw)
        &&& self.uid == le16(raw, 0x02) + 0x1_0000 * le16(raw, 0x78)
        &&& self.gid == le16(raw, 0x18) + 0x1_0000 * le16(raw, 0x7A)
        &&& self.size == size_of_file(raw)
        &&& self.atime == time_of(le32(raw, 0x08), extra_field(raw, 16, 0x8C))
        &&& self.ctime == time_of(le32(raw, 0x0C), extra_field(raw, 8, 0x84))
        &&& self.mtime == time_of(le32(raw, 0x10), extra_field(raw, 12, 0x88))
        &&& self.dtime == signed32(le32(raw, 0x14))
        &&& self.crtime == time_of(extra_field(raw, 20, 0x90), extra_field(raw, 24, 0x94))
        &&& self.atime_nsec == extra_field(raw, 16, 0x8C) / 4
        &&& self.ctime_nsec == extra_field(raw, 8, 0x84) / 4
        &&& self.mtime_nsec == extra_field(raw, 12, 0x88) / 4
        &&& self.crtime_nsec == extra_field(raw, 24, 0x94) / 4
        &&& self.links_count == links_of(raw)
        &&& self.blocks == sectors_of(raw)
        &&& self.flags == flags_of(raw)
        &&& self.block@ == block_area_of(raw)
        &&& self.generation == generation_of(raw)
        &&& self.file_acl == file_acl_of(raw)
        &&& self.checksum == le16(raw, 0x7C) + 0x1_0000 * (if extra_isize_of(raw) >= 4 {
            le16(raw, 0x82)
        } else {
            0
        })
    }

    /// Parse an inode from its on-disk bytes.
    /// Accepts any length >= 128; what the extra section holds is read as far
    /// as `i_extra_isize` reaches.
    pub fn parse(raw: &[u8]) -> (r: Result<Inode>)
        ensures
            match inode_fault(raw@) {
                Some(e) => r == Err::<Inode, Error>(e),
                None => r is Ok && r->Ok_0.decodes(raw@),
            },
    {
        if raw.len() < INODE_BASE_SIZE {
            return Err(Error::Corrupt("inode buffer too small"));
        }
        let mut checksum_hi: u16 = 0;
        let mut ctime_extra: u32 = 0;
        let mut mtime_extra: u32 = 0;
        let mut atime_extra: u32 = 0;
        let mut crtime_base: u32 = 0;
        let mut crtime_extra: u32 = 0;
        if raw.len() >= INODE_EXTRA_OFFSET + 4 {
            let i_extra_isize: u16 = get_u16(raw, OFF_EXTRA_ISIZE);
            let extra_end: usize = INODE_EXTRA_OFFSET + i_extra_isize as usize;
            if extra_end > raw.len() {
                return Err(Error::Corrupt("i_extra_isize exceeds inode size"));
            }
            if i_extra_isize >= 4 {
                checksum_hi = get_u16(raw, OFF_CHECKSUM_HI);
            }
            if i_extra_isize >= 8 {
                ctime_extra = get_u32(raw, 0x84);
            }
            if i_extra_isize >= 12 {
                mtime_extra = get_u32(raw, 0x88);
            }
            if i_extra_isize >= 16 {
                atime_extra = get_u32(raw, 0x8C);
            }
            if i_extra_isize >= 20 {
                crtime_base = get_u32(raw, OFF_CRTIME);
            }
            if i_extra_isize >= 24 {
                crtime_extra = get_u32(raw, 0x94);
            }
        }
        Ok(
            Inode {
                mode: get_u16(raw, OFF_MODE),
                uid: join16(get_u16(raw, 0x78), get_u16(raw, 0x02)),
                gid: join16(get_u16(raw, 0x7A), get_u16(raw, 0x18)),
                size: join32(get_u32(raw, OFF_SIZE_HI), get_u32(raw, OFF_SIZE_LO)),
                atime: decode_extra_time(get_u32(raw, OFF_ATIME), atime_extra),
                mtime: decode_extra_time(get_u32(raw, OFF_MTIME), mtime_extra),
                ctime: decode_extra_time(get_u32(raw, OFF_CTIME), ctime_extra),
                dtime: as_signed(get_u32(raw, OFF_DTIME)),
                crtime: decode_extra_time(crtime_base, crtime_extra),
                atime_nsec: atime_extra / 4,
                mtime_nsec: mtime_extra / 4,
                ctime_nsec: ctime_extra / 4,
                crtime_nsec: crtime_extra / 4,
                links_count: get_u16(raw, OFF_LINKS_COUNT),
                blocks: join32(get_u16(raw, OFF_BLOCKS_HI) as u32, get_u32(raw, OFF_BLOCKS_LO)),
                flags: get_u32(raw, OFF_FLAGS),
                block: copy_block_area(raw),
                generation: get_u32(raw, OFF_GENERATION),
                file_acl: join32(get_u16(raw, OFF_FILE_ACL_HI) as u32, get_u32(raw, OFF_FILE_ACL_LO)),
                checksum: join16(checksum_hi, get_u16(raw, OFF_CHECKSUM_LO)),
            },
        )
    }

    /// File type from i_mode.
    pub fn file_type(&self) -> (r: u16)
        ensures
            r == self.mode & S_IFMT,
    {
        self.mode & S_IFMT
    }

    pub fn is_dir(&self) -> (r: bool)
        ensures
            r == mode_is_dir(self.mode),
    {
        self.file_type() == S_IFDIR
    }

    pub fn is_file(&self) -> (r: bool)
        ensures
            r == mode_is_file(self.mode),
    {
        self.file_type() == S_IFREG
    }

    pub fn is_symlink(&self) -> (r: bool)
        ensures
            r == mode_is_symlink(self.mode),
    {
        self.file_type() == S_IFLNK
    }

    /// True when i_block holds an extent tree rather than direct and indirect
    /// block pointers.
    pub fn has_extents(&self) -> (r: bool)
        ensures
            r == (self.flags & FL_EXTENTS != 0),
    {
        self.flags & FL_EXTENTS != 0
    }

    /// True when file contents live inside i_block.
    pub fn has_inline_data(&self) -> (r: bool)
        ensures
            r == (self.flags & FL_INLINE_DATA != 0),
    {
        self.flags & FL_INLINE_DATA != 0
    }

    /// The named flags of i_flags; unknown bits are dropped.
    pub fn flag_set(&self) -> (r: InodeFlags)
        ensures
            r.bits == self.flags & FL_KNOWN,
    {
        InodeFlags { bits: self.flags & FL_KNOWN }
    }
}

} // verus!
