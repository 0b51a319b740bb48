//! Metadata checksums.
//!
//! With METADATA_CSUM every structure carries a CRC32C seeded from the volume;
//! with GDT_CSUM alone the group descriptors carry a CRC16.
use crate::bytes::{
    copy_range, get_u16, get_u32, hi32, high_u32, le16, le32, lo32, low_u32, put16, put32, set_u16, set_u32,
};
use crate::features::{has, has_any, INCOMPAT_CSUM_SEED, RO_COMPAT_GDT_CSUM, RO_COMPAT_METADATA_CSUM};
use crate::inode::{extra_isize_of, OFF_CHECKSUM_HI, OFF_CHECKSUM_LO};
use crate::superblock::Superblock;
use vstd::prelude::*;

verus! {

broadcast use crate::bytes::group_fields;

/// A remainder moved on by one bit: divided by the Castagnoli polynomial, the
/// lowest bit first.
pub open spec fn crc_bit(c: u32) -> u32 {
    if c & 1 == 1 {
        (c >> 1) ^ 0x82F6_3B78
    } else {
        c >> 1
    }
}

/// A remainder moved on by `n` bits.
pub open spec fn crc_bits(c: u32, n: nat) -> u32
    decreases n,
{
    if n == 0 {
        c
    } else {
        crc_bit(crc_bits(c, (n - 1) as nat))
    }
}

/// CRC32C over `data` as the on-disk format chains it: neither the seed nor
/// the result is inverted.
#[verifier::opaque]
pub open spec fn raw_crc(seed: u32, data: Seq<u8>) -> u32
    decreases data.len(),
{
    if data.len() == 0 {
        seed
    } else {
        crc_bits(raw_crc(seed, data.drop_last()) ^ data.last() as u32, 8)
    }
}

/// CRC32C over `data` as the on-disk format chains it, starting from `seed`.
pub fn linux_crc32c(seed: u32, data: &[u8]) -> (r: u32)
    ensures
        r == raw_crc(seed, data@),
{
    proof {
        reveal(raw_crc);
        assert(data@.take(0) =~= Seq::<u8>::empty());
    }
    let mut c: u32 = seed;
    let mut i: usize = 0;
    while i < data.len()
        invariant
            i <= data@.len(),
            c == raw_crc(seed, data@.take(i as int)),
        decreases data@.len() - i,
    {
        let ghost before = c;
        c = c ^ data[i] as u32;
        let ghost mixed = c;
        let mut n: u32 = 0;
        while n < 8
            invariant
                n <= 8,
                c == crc_bits(mixed, n as nat),
            decreases 8 - n,
        {
            c = if c & 1 == 1 {
                (c >> 1) ^ 0x82F6_3B78
            } else {
                c >> 1
            };
            n += 1;
        }
        proof {
            reveal(raw_crc);
            assert(data@.take(i + 1).drop_last() =~= data@.take(i as int));
            assert(data@.take(i + 1).last() == data@[i as int]);
        }
        i += 1;
    }
    assert(data@.take(i as int) =~= data@);
    c
}

/// A checksum over two pieces of data is that of the second, started from
/// that of the first.
pub proof fn law_crc_chains(seed: u32, a: Seq<u8>, b: Seq<u8>)
    ensures
        raw_crc(seed, a + b) == raw_crc(raw_crc(seed, a), b),
    decreases b.len(),
{
    reveal(raw_crc);
    if b.len() == 0 {
        assert(a + b =~= a);
    } else {
        assert((a + b).drop_last() =~= a + b.drop_last());
        assert((a + b).last() == b.last());
        law_crc_chains(seed, a, b.drop_last());
    }
}

/// The four little-endian bytes of `v`.
pub open spec fn bytes32(v: u32) -> Seq<u8> {
    put32(seq![0u8, 0u8, 0u8, 0u8], 0, v)
}

fn le_bytes32(v: u32) -> (r: Vec<u8>)
    ensures
        r@ == bytes32(v),
{
    let mut r: Vec<u8> = vec![0u8, 0u8, 0u8, 0u8];
    assert(r@ =~= seq![0u8, 0u8, 0u8, 0u8]);
    set_u32(&mut r, 0, v);
    r
}

/// Low 16 bits.
pub open spec fn low16(v: u32) -> u16 {
    (v % 0x1_0000) as u16
}

/// High 16 bits.
pub open spec fn high16(v: u32) -> u16 {
    (v / 0x1_0000) as u16
}

/// The volume's checksum seed, and whether metadata is checksummed at all.
#[derive(Debug, Clone, Copy, PartialEq, Eq)]
pub struct Checksummer {
    pub seed: u32,
    pub enabled: bool,
}

/// The seed for anything that belongs to inode `ino`.
pub open spec fn inode_seed(seed: u32, ino: u32, generation: u32) -> u32 {
    raw_crc(raw_crc(seed, bytes32(ino)), bytes32(generation))
}

/// An inode record with its checksum fields zeroed.
pub open spec fn inode_unstamped(raw: Seq<u8>) -> Seq<u8> {
    if raw.len() >= 0x84 {
        put16(put16(raw, 0x7C, 0), 0x82, 0)
    } else {
        put16(raw, 0x7C, 0)
    }
}

/// The checksum that inode `ino`'s record should carry.
pub open spec fn inode_crc(seed: u32, ino: u32, generation: u32, raw: Seq<u8>) -> u32 {
    raw_crc(inode_seed(seed, ino, generation), inode_unstamped(raw))
}

/// An inode record with its checksum fields filled in.
pub open spec fn inode_stamped(seed: u32, ino: u32, generation: u32, raw: Seq<u8>) -> Seq<u8> {
    let crc = inode_crc(seed, ino, generation, raw);
    if raw.len() >= 0x84 {
        put16(put16(raw, 0x7C, low16(crc)), 0x82, high16(crc))
    } else {
        put16(raw, 0x7C, low16(crc))
    }
}

/// Whether an inode record carries the checksum it should. The high half
/// counts only where the record says it has one.
pub open spec fn inode_crc_ok(seed: u32, ino: u32, generation: u32, raw: Seq<u8>) -> bool {
    let crc = inode_crc(seed, ino, generation, raw);
    raw.len() >= 128 && le16(raw, 0x7C) == low16(crc) && (extra_isize_of(raw) >= 4 && raw.len() >= 0x84
        ==> le16(raw, 0x82) == high16(crc))
}

/// Whether the last twelve bytes of a directory block are a checksum record.
pub open spec fn dir_tail_present(block: Seq<u8>) -> bool {
    let at = block.len() - 12;
    block.len() >= 12 && le32(block, at) == 0 && le16(block, at + 4) == 12 && block[at + 6] == 0 && block[at
        + 7] == 0xDE
}

/// The checksum that a directory block should carry.
pub open spec fn dir_crc(seed: u32, ino: u32, generation: u32, block: Seq<u8>) -> u32 {
    raw_crc(inode_seed(seed, ino, generation), block.subrange(0, block.len() - 12))
}

/// A directory block with its last twelve bytes made the checksum record.
pub open spec fn dir_stamped(seed: u32, ino: u32, generation: u32, block: Seq<u8>) -> Seq<u8> {
    let at = block.len() - 12;
    put32(
        put16(put32(block, at, 0), at + 4, 12).update(at + 6, 0u8).update(at + 7, 0xDEu8),
        at + 8,
        dir_crc(seed, ino, generation, block),
    )
}

/// Where an extent block's checksum sits: behind all the entries it could
/// hold.
pub open spec fn extent_tail_at(block: Seq<u8>) -> int {
    12 + 12 * le16(block, 4)
}

/// An extent block with its checksum filled in; unchanged where it has no
/// room for one.
pub open spec fn extent_stamped(seed: u32, ino: u32, generation: u32, block: Seq<u8>) -> Seq<u8> {
    let at = extent_tail_at(block);
    if at + 4 <= block.len() {
        put32(block, at, raw_crc(inode_seed(seed, ino, generation), block.subrange(0, at)))
    } else {
        block
    }
}

/// Whether an extent block carries the checksum it should.
pub open spec fn extent_crc_ok(seed: u32, ino: u32, generation: u32, block: Seq<u8>) -> bool {
    let at = extent_tail_at(block);
    at + 4 <= block.len() && le32(block, at) == raw_crc(
        inode_seed(seed, ino, generation),
        block.subrange(0, at),
    )
}

/// Where an index block's checksum sits: behind all the entries that the
/// count-and-limit word at `at` allows for.
pub open spec fn dx_tail_at(block: Seq<u8>, at: int) -> int {
    at + 8 * le16(block, at)
}

/// An index block with its checksum filled in. It covers the entries in use
/// and the tail with its checksum taken as zero. A block whose counts do not
/// leave room for it is left alone.
pub open spec fn dx_stamped(seed: u32, ino: u32, generation: u32, block: Seq<u8>, at: int) -> Seq<u8> {
    let tail = dx_tail_at(block, at);
    let used = at + 8 * le16(block, at + 2);
    if tail + 8 <= block.len() && used <= tail {
        put32(
            block,
            tail + 4,
            raw_crc(
                raw_crc(inode_seed(seed, ino, generation), block.subrange(0, used)),
                put32(block.subrange(tail, tail + 8), 4, 0),
            ),
        )
    } else {
        block
    }
}

/// Whether a directory block may be trusted: it has no checksum record, or
/// the record is right.
pub open spec fn dir_crc_ok(seed: u32, ino: u32, generation: u32, block: Seq<u8>) -> bool {
    dir_tail_present(block) ==> le32(block, block.len() - 4) == dir_crc(seed, ino, generation, block)
}

impl Checksummer {
    /// The seed that a superblock means.
    pub open spec fn of(sb: Superblock) -> Checksummer {
        Checksummer {
            seed: if has(sb.feature_incompat, INCOMPAT_CSUM_SEED) {
                sb.checksum_seed
            } else {
                raw_crc(0xFFFF_FFFF, sb.uuid@)
            },
            enabled: has(sb.feature_ro_compat, RO_COMPAT_METADATA_CSUM),
        }
    }

    /// Takes the seed from the superblock: the stored one, or the CRC of the
    /// volume's UUID.
    pub fn from_superblock(sb: &Superblock) -> (r: Checksummer)
        ensures
            r == Checksummer::of(*sb),
    {
        Checksummer {
            seed: if has_any(sb.feature_incompat, INCOMPAT_CSUM_SEED) {
                sb.checksum_seed
            } else {
                linux_crc32c(0xFFFF_FFFF, &sb.uuid)
            },
            enabled: has_any(sb.feature_ro_compat, RO_COMPAT_METADATA_CSUM),
        }
    }

    /// Whether the superblock's own bytes carry the right checksum.
    pub fn verify_superblock(&self, raw: &[u8]) -> (r: bool)
        ensures
            r == (!self.enabled || superblock_crc_ok(raw@)),
    {
        if !self.enabled {
            return true;
        }
        if raw.len() < 1024 {
            return false;
        }
        let covered: Vec<u8> = copy_range(raw, 0, 0x3FC);
        get_u32(raw, 0x3FC) == linux_crc32c(0xFFFF_FFFF, &covered)
    }

    fn seed_for_inode(&self, ino: u32, generation: u32) -> (r: u32)
        ensures
            r == inode_seed(self.seed, ino, generation),
    {
        let a: Vec<u8> = le_bytes32(ino);
        let b: Vec<u8> = le_bytes32(generation);
        linux_crc32c(linux_crc32c(self.seed, &a), &b)
    }

    fn inode_checksum(&self, ino: u32, generation: u32, raw: &[u8]) -> (r: u32)
        requires
            raw@.len() >= 128,
        ensures
            r == inode_crc(self.seed, ino, generation, raw@),
    {
        let mut plain: Vec<u8> = copy_range(raw, 0, raw.len());
        assert(raw@.subrange(0, raw@.len() as int) =~= raw@);
        set_u16(&mut plain, OFF_CHECKSUM_LO, 0);
        if raw.len() >= 0x84 {
            set_u16(&mut plain, OFF_CHECKSUM_HI, 0);
        }
        linux_crc32c(self.seed_for_inode(ino, generation), &plain)
    }

    /// The two halves of the checksum for an inode record, or `None` where
    /// inodes are not checksummed or the record has no room.
    pub fn compute_inode_checksum(&self, ino: u32, generation: u32, raw: &[u8]) -> (r: Option<(u16, u16)>)
        ensures
            r == (if self.enabled && raw@.len() >= 128 {
                let crc = inode_crc(self.seed, ino, generation, raw@);
                Some((low16(crc), high16(crc)))
            } else {
                None
            }),
    {
        if !self.enabled || raw.len() < 128 {
            return None;
        }
        let crc: u32 = self.inode_checksum(ino, generation, raw);
        Some(((crc % 0x1_0000) as u16, (crc / 0x1_0000) as u16))
    }

    /// Whether an inode record carries the right checksum.
    pub fn verify_inode(&self, ino: u32, generation: u32, raw: &[u8]) -> (r: bool)
        ensures
            r == (!self.enabled || inode_crc_ok(self.seed, ino, generation, raw@)),
    {
        if !self.enabled {
            return true;
        }
        if raw.len() < 128 {
            return false;
        }
        let crc: u32 = self.inode_checksum(ino, generation, raw);
        if get_u16(raw, OFF_CHECKSUM_LO) != (crc % 0x1_0000) as u16 {
            return false;
        }
        if raw.len() >= 0x84 && get_u16(raw, 0x80) >= 4 {
            return get_u16(raw, OFF_CHECKSUM_HI) == (crc / 0x1_0000) as u16;
        }
        true
    }

    /// An inode record as it is written out.
    pub open spec fn stamp_inode_spec(&self, ino: u32, generation: u32, raw: Seq<u8>) -> Seq<u8> {
        if self.enabled && raw.len() >= 128 {
            inode_stamped(self.seed, ino, generation, raw)
        } else {
            raw
        }
    }

    /// Fills in the checksum fields of an inode record.
    pub fn stamp_inode(&self, ino: u32, generation: u32, raw: &mut Vec<u8>)
        ensures
            final(raw)@ == self.stamp_inode_spec(ino, generation, old(raw)@),
            final(raw)@.len() == old(raw)@.len(),
    {
        if let Some((lo, hi)) = self.compute_inode_checksum(ino, generation, raw) {
            set_u16(raw, OFF_CHECKSUM_LO, lo);
            if raw.len() >= 0x84 {
                set_u16(raw, OFF_CHECKSUM_HI, hi);
            }
        }
    }

    /// Makes the last twelve bytes of a directory block its checksum record.
    pub fn patch_dir_entry_tail(&self, ino: u32, generation: u32, block: &mut Vec<u8>)
        requires
            old(block)@.len() >= 12,
        ensures
            final(block)@ == dir_stamped(self.seed, ino, generation, old(block)@),
            final(block)@.len() == old(block)@.len(),
    {
        let at: usize = block.len() - 12;
        let covered: Vec<u8> = copy_range(block, 0, at);
        let crc: u32 = linux_crc32c(self.seed_for_inode(ino, generation), &covered);
        set_u32(block, at, 0);
        set_u16(block, at + 4, 12);
        block.set(at + 6, 0);
        block.set(at + 7, 0xDE);
        set_u32(block, at + 8, crc);
    }

    /// Fills in the checksum of an index block whose count-and-limit word is
    /// at byte `at`.
    pub fn patch_dx_tail(&self, ino: u32, generation: u32, block: &mut Vec<u8>, at: usize)
        requires
            at + 4 <= old(block)@.len(),
        ensures
            final(block)@ == dx_stamped(self.seed, ino, generation, old(block)@, at as int),
            final(block)@.len() == old(block)@.len(),
    {
        assert(block.len() == block@.len());
        let limit: u64 = get_u16(block, at) as u64;
        let count: u64 = get_u16(block, at + 2) as u64;
        if count <= limit && 8 * limit + 8 <= block.len() as u64 - at as u64 {
            let tail: usize = at + 8 * (limit as usize);
            let used: usize = at + 8 * (count as usize);
            let covered: Vec<u8> = copy_range(block, 0, used);
            let mut end: Vec<u8> = copy_range(block, tail, tail + 8);
            set_u32(&mut end, 4, 0);
            let crc: u32 = linux_crc32c(
                linux_crc32c(self.seed_for_inode(ino, generation), &covered),
                &end,
            );
            set_u32(block, tail + 4, crc);
        }
    }

    /// Whether a directory block may be trusted.
    pub open spec fn dir_ok(&self, ino: u32, generation: u32, block: Seq<u8>) -> bool {
        !self.enabled || dir_crc_ok(self.seed, ino, generation, block)
    }

    /// Whether a directory block may be trusted: a block without a checksum
    /// record has nothing to check.
    pub fn verify_dir_entry_tail(&self, ino: u32, generation: u32, block: &[u8]) -> (r: bool)
        ensures
            r == self.dir_ok(ino, generation, block@),
    {
        if !self.enabled || !has_dir_tail(block) {
            return true;
        }
        let at: usize = block.len() - 12;
        let covered: Vec<u8> = copy_range(block, 0, at);
        get_u32(block, at + 8) == linux_crc32c(self.seed_for_inode(ino, generation), &covered)
    }

    /// Fills in an extent block's checksum, if the block has room for one.
    pub fn patch_extent_tail(&self, ino: u32, generation: u32, block: &mut Vec<u8>)
        requires
            old(block)@.len() >= 12,
        ensures
            final(block)@ == extent_stamped(self.seed, ino, generation, old(block)@),
    {
        let at: usize = 12 + 12 * (get_u16(block, 4) as usize);
        if at + 4 <= block.len() {
            let covered: Vec<u8> = copy_range(block, 0, at);
            let crc: u32 = linux_crc32c(self.seed_for_inode(ino, generation), &covered);
            set_u32(block, at, crc);
        }
    }

    /// Whether an extent block carries the right checksum.
    pub fn verify_extent_tail(&self, ino: u32, generation: u32, block: &[u8]) -> (r: bool)
        requires
            block@.len() >= 12,
        ensures
            r == extent_crc_ok(self.seed, ino, generation, block@),
    {
        let at: usize = 12 + 12 * (get_u16(block, 4) as usize);
        if at + 4 > block.len() {
            return false;
        }
        let covered: Vec<u8> = copy_range(block, 0, at);
        get_u32(block, at) == linux_crc32c(self.seed_for_inode(ino, generation), &covered)
    }
}

/// The eight little-endian bytes of `v`.
pub open spec fn bytes64(v: u64) -> Seq<u8> {
    bytes32(lo32(v)) + bytes32(hi32(v))
}

/// An attribute block with its checksum filled in. The checksum covers the
/// block's number too.
pub open spec fn xattr_stamped(seed: u32, block_nr: u64, block: Seq<u8>) -> Seq<u8> {
    let bare = put32(block, 0x10, 0);
    put32(bare, 0x10, raw_crc(raw_crc(seed, bytes64(block_nr)), bare))
}

impl Checksummer {
    /// Fills in an attribute block's checksum.
    pub fn patch_xattr_block(&self, block_nr: u64, block: &mut Vec<u8>)
        requires
            old(block)@.len() >= 32,
        ensures
            final(block)@ == xattr_stamped(self.seed, block_nr, old(block)@),
            final(block)@.len() == old(block)@.len(),
    {
        let mut number: Vec<u8> = le_bytes32(low_u32(block_nr));
        let mut high: Vec<u8> = le_bytes32(high_u32(block_nr));
        number.append(&mut high);
        set_u32(block, 0x10, 0);
        let crc: u32 = linux_crc32c(linux_crc32c(self.seed, &number), block);
        set_u32(block, 0x10, crc);
    }
}

/// Whether the superblock's bytes carry the right checksum.
pub open spec fn superblock_crc_ok(raw: Seq<u8>) -> bool {
    raw.len() >= 1024 && le32(raw, 0x3FC) == raw_crc(0xFFFF_FFFF, raw.subrange(0, 0x3FC))
}

/// Whether a directory block ends in a checksum record.
pub fn has_dir_tail(block: &[u8]) -> (r: bool)
    ensures
        r == dir_tail_present(block@),
{
    if block.len() < 12 {
        return false;
    }
    let at: usize = block.len() - 12;
    get_u32(block, at) == 0 && get_u16(block, at + 4) == 12 && block[at + 6] == 0 && block[at + 7] == 0xDE
}

/// A record stamped with its checksum is one that verifies.
pub proof fn law_stamped_inode_verifies(c: Checksummer, ino: u32, generation: u32, raw: Seq<u8>)
    requires
        raw.len() >= 128,
        c.enabled,
    ensures
        inode_crc_ok(c.seed, ino, generation, c.stamp_inode_spec(ino, generation, raw)),
{
    let out = c.stamp_inode_spec(ino, generation, raw);
    assert(inode_unstamped(out) =~= inode_unstamped(raw)) by {
        reveal(put16);
    }
}

/// A directory block stamped with its checksum is one that verifies.
pub proof fn law_stamped_dir_verifies(c: Checksummer, ino: u32, generation: u32, block: Seq<u8>)
    requires
        block.len() >= 12,
    ensures
        dir_tail_present(dir_stamped(c.seed, ino, generation, block)),
        c.dir_ok(ino, generation, dir_stamped(c.seed, ino, generation, block)),
{
    reveal(le16);
    reveal(le32);
    reveal(put16);
    reveal(put32);
    let out = dir_stamped(c.seed, ino, generation, block);
    assert(out.subrange(0, out.len() - 12) =~= block.subrange(0, block.len() - 12));
}

// -- group descriptors ------------------------------------------------------

/// One step of the reflected CRC16 with the polynomial 0xA001.
pub open spec fn crc16_bit(crc: u16) -> u16 {
    if crc % 2 == 1 {
        (crc / 2) ^ 0xA001
    } else {
        crc / 2
    }
}

/// `n` steps.
pub open spec fn crc16_bits(crc: u16, n: int) -> u16
    decreases n,
{
    if n <= 0 {
        crc
    } else {
        crc16_bit(crc16_bits(crc, n - 1))
    }
}

/// CRC16 over `data`, continuing from `crc`.
pub open spec fn crc16_value(crc: u16, data: Seq<u8>) -> u16
    decreases data.len(),
{
    if data.len() == 0 {
        crc
    } else {
        crc16_bits(crc16_value(crc, data.drop_last()) ^ (data.last() as u16), 8)
    }
}

/// CRC16 over `data`, continuing from `crc`.
pub fn crc16(crc: u16, data: &[u8]) -> (r: u16)
    ensures
        r == crc16_value(crc, data@),
{
    let mut c: u16 = crc;
    let mut i: usize = 0;
    assert(data@.take(0) =~= Seq::<u8>::empty());
    while i < data.len()
        invariant
            i <= data@.len(),
            c == crc16_value(crc, data@.take(i as int)),
        decreases data@.len() - i,
    {
        let start: u16 = c ^ (data[i] as u16);
        c = start;
        let mut n: u32 = 0;
        while n < 8
            invariant
                n <= 8,
                c == crc16_bits(start, n as int),
            decreases 8 - n,
        {
            if c % 2 == 1 {
                c = (c / 2) ^ 0xA001;
            } else {
                c = c / 2;
            }
            n += 1;
        }
        i += 1;
        assert(data@.take(i as int).drop_last() =~= data@.take(i - 1));
    }
    assert(data@.take(i as int) =~= data@);
    c
}

/// The checksum that group `gi`'s descriptor should carry, if the volume
/// checksums its descriptors.
pub open spec fn descriptor_crc(sb: Superblock, csum: Checksummer, gi: u32, desc: Seq<u8>) -> Option<u16> {
    if csum.enabled {
        Some(low16(raw_crc(raw_crc(csum.seed, bytes32(gi)), put16(desc, 0x1E, 0))))
    } else if has(sb.feature_ro_compat, RO_COMPAT_GDT_CSUM) {
        let head = crc16_value(
            crc16_value(crc16_value(0xFFFF, sb.uuid@), bytes32(gi)),
            desc.subrange(0, 0x1E),
        );
        Some(crc16_value(head, desc.subrange(0x20, desc.len() as int)))
    } else {
        None
    }
}

/// The checksum for group `gi`'s descriptor: CRC32C with METADATA_CSUM, CRC16
/// with GDT_CSUM, none otherwise.
pub fn group_desc_csum(sb: &Superblock, csum: &Checksummer, gi: u32, desc: &[u8]) -> (r: Option<u16>)
    requires
        desc@.len() >= 32,
    ensures
        r == descriptor_crc(*sb, *csum, gi, desc@),
{
    let gi_bytes: Vec<u8> = le_bytes32(gi);
    if csum.enabled {
        let mut plain: Vec<u8> = copy_range(desc, 0, desc.len());
        assert(desc@.subrange(0, desc@.len() as int) =~= desc@);
        set_u16(&mut plain, 0x1E, 0);
        let crc: u32 = linux_crc32c(linux_crc32c(csum.seed, &gi_bytes), &plain);
        return Some((crc % 0x1_0000) as u16);
    }
    if has_any(sb.feature_ro_compat, RO_COMPAT_GDT_CSUM) {
        let head: Vec<u8> = copy_range(desc, 0, 0x1E);
        let rest: Vec<u8> = copy_range(desc, 0x20, desc.len());
        let c: u16 = crc16(crc16(crc16(0xFFFF, &sb.uuid), &gi_bytes), &head);
        return Some(crc16(c, &rest));
    }
    None
}

} // verus!
