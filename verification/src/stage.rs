//! Edits of a volume's metadata, staged into a [`BlockBuffer`].
//!
//! Each edit has two halves: what the staged image becomes, as a function of
//! the volume and what is staged already, and the code that makes it so.
use crate::allocator::{group_first_block, group_owned_metadata_runs, mark_all_runs, mark_runs, metadata_runs};
use crate::bgd::{inode_place, join16_spec, join_u16, locate_inode, BLOCK_UNINIT, INODE_UNINIT};
use crate::bitmap::{put_bit, put_bits, with_bit, with_bits, lemma_with_bits};
use crate::block_io::{block_at, has_block, BlockDevice};
use crate::bytes::{
    copy_range, get_u16, get_u32, high_u32, hi32, join32_spec, join_u32, le16, le32, lo32, low_u32, overlay, put16,
    put32, set_u16, set_u32, splice, zeroed, zeros,
};
use crate::checksum::{descriptor_crc, group_desc_csum, high16, linux_crc32c, low16, raw_crc};
use crate::error::{Error, Result};
use crate::fs::Filesystem;
use crate::superblock::Superblock;
use crate::volume::{stage_block, BlockBuffer, Stage, Vol};
use vstd::prelude::*;

verus! {

broadcast use crate::bytes::group_fields;

/// An edit came out as wanted, or the device failed.
pub open spec fn staged(want: Result<Stage>, r: Result<()>, got: Stage, healthy: bool) -> bool {
    ||| !healthy && r == Err::<(), Error>(Error::Io)
    ||| match want {
        Ok(st) => r == Ok::<(), Error>(()) && got == st,
        Err(e) => r == Err::<(), Error>(e),
    }
}

// -- where things are -------------------------------------------------------

/// The block that holds group `gi`'s descriptor.
pub open spec fn desc_block(sb: Superblock, gi: int) -> int {
    sb.first_data_block + 1 + (gi * sb.desc_size) / sb.bs()
}

/// The byte of that block where the descriptor starts.
pub open spec fn desc_off(sb: Superblock, gi: int) -> int {
    (gi * sb.desc_size) % sb.bs()
}

/// The block that holds the superblock.
pub open spec fn super_block(sb: Superblock) -> int {
    1024int / sb.bs()
}

/// The byte of that block where the superblock starts.
pub open spec fn super_off(sb: Superblock) -> int {
    1024int % sb.bs()
}

/// A descriptor lies within its block.
pub proof fn lemma_desc_place(sb: Superblock, gi: int)
    requires
        sb.wf(),
        0 <= gi <= u32::MAX,
    ensures
        0 <= desc_off(sb, gi),
        desc_off(sb, gi) + sb.desc_size <= sb.bs(),
        0 <= desc_block(sb, gi) <= u64::MAX,
        0 <= gi * sb.desc_size <= 0xFFFF_FFFF * 0xFFFF,
{
    let ds = sb.desc_size as int;
    let bs = sb.bs();
    let x = gi * ds;
    assert(0 <= x <= 0xFFFF_FFFF * 0xFFFF) by (nonlinear_arith)
        requires
            0 <= gi <= 0xFFFF_FFFF,
            0 <= ds <= 0xFFFF,
            x == gi * ds,
    ;
    assert(0 <= x / bs <= x) by (nonlinear_arith)
        requires
            0 <= x,
            bs > 0,
    ;
    let k = bs / ds;
    let q = x / bs;
    let off = x % bs;
    vstd::arithmetic::div_mod::lemma_fundamental_div_mod(x, bs);
    vstd::arithmetic::div_mod::lemma_fundamental_div_mod(bs, ds);
    let j = gi - k * q;
    assert(off == ds * j) by (nonlinear_arith)
        requires
            x == gi * ds,
            x == bs * q + off,
            bs == ds * k,
            j == gi - k * q,
    ;
    assert(ds * j < ds * k) by {
        assert(off < bs);
    }
    assert(j + 1 <= k) by (nonlinear_arith)
        requires
            ds * j < ds * k,
            ds > 0,
    ;
    assert(ds * j + ds <= ds * k) by (nonlinear_arith)
        requires
            j + 1 <= k,
            ds > 0,
    ;
}

pub(crate) proof fn lemma_super_place(sb: Superblock)
    ensures
        0 <= super_off(sb),
        super_off(sb) + 1024 <= sb.bs(),
        0 <= super_block(sb) <= 1,
{
}

// -- descriptor fields ------------------------------------------------------

/// A counter kept as a 16-bit low word and perhaps a 16-bit high word.
pub open spec fn counter_at(b: Seq<u8>, lo: int, hi: Option<int>) -> int {
    join16_spec(
        le16(b, lo),
        match hi {
            Some(h) => le16(b, h),
            None => 0u16,
        },
    ) as int
}

/// `n` kept within 32 bits.
pub open spec fn clamp_u32(n: int) -> int {
    if n < 0 {
        0
    } else if n > u32::MAX {
        u32::MAX as int
    } else {
        n
    }
}

/// The block with the counter holding `n`.
pub open spec fn with_counter(b: Seq<u8>, lo: int, hi: Option<int>, n: int) -> Seq<u8> {
    let low = put16(b, lo, (n % 0x1_0000) as u16);
    match hi {
        Some(h) => put16(low, h, (n / 0x1_0000) as u16),
        None => low,
    }
}

/// The block with the counter moved by `delta`.
pub open spec fn moved_counter(b: Seq<u8>, lo: int, hi: Option<int>, delta: int) -> Seq<u8> {
    with_counter(b, lo, hi, clamp_u32(counter_at(b, lo, hi) + delta))
}

/// Where the high word of a descriptor field is, if the descriptor has one.
pub open spec fn high_word(sb: Superblock, at: int) -> Option<int> {
    if sb.desc_size >= 0x40 {
        Some(at)
    } else {
        None
    }
}

fn counter(b: &[u8], lo: usize, hi: Option<usize>) -> (r: u32)
    requires
        lo + 2 <= b@.len(),
        hi matches Some(h) ==> h + 2 <= b@.len(),
    ensures
        r == counter_at(
            b@,
            lo as int,
            match hi {
                Some(h) => Some(h as int),
                None => None,
            },
        ),
{
    let cur_lo: u16 = get_u16(b, lo);
    let cur_hi: u16 = match hi {
        Some(h) => get_u16(b, h),
        None => 0,
    };
    join_u16(cur_lo, cur_hi)
}

fn set_counter(b: &mut Vec<u8>, lo: usize, hi: Option<usize>, n: u32)
    requires
        lo + 2 <= old(b)@.len(),
        hi matches Some(h) ==> h + 2 <= old(b)@.len(),
    ensures
        final(b)@ == with_counter(
            old(b)@,
            lo as int,
            match hi {
                Some(h) => Some(h as int),
                None => None,
            },
            n as int,
        ),
        final(b)@.len() == old(b)@.len(),
{
    set_u16(b, lo, (n % 0x1_0000) as u16);
    if let Some(h) = hi {
        set_u16(b, h, (n / 0x1_0000) as u16);
    }
}

/// Patch a split 32-bit counter (16-bit low word at `lo_off`, 16-bit high word
/// at `hi_off` where there is one) by `delta`, stopping at zero.
pub fn patch_counter_u32(buf: &mut Vec<u8>, lo_off: usize, hi_off: Option<usize>, delta: i32)
    requires
        lo_off + 2 <= old(buf)@.len(),
        hi_off matches Some(h) ==> h + 2 <= old(buf)@.len(),
    ensures
        final(buf)@ == moved_counter(
            old(buf)@,
            lo_off as int,
            match hi_off {
                Some(h) => Some(h as int),
                None => None,
            },
            delta as int,
        ),
        final(buf)@.len() == old(buf)@.len(),
{
    let cur: u32 = counter(buf, lo_off, hi_off);
    let sum: i64 = cur as i64 + delta as i64;
    let new: u32 = if sum < 0 {
        0
    } else if sum > u32::MAX as i64 {
        u32::MAX
    } else {
        sum as u32
    };
    set_counter(buf, lo_off, hi_off, new);
}

/// The block with the descriptor at `off` carrying its checksum.
pub open spec fn restamped(v: Vol, b: Seq<u8>, off: int, gi: int) -> Seq<u8> {
    match descriptor_crc(v.sb, v.csum, gi as u32, b.subrange(off, off + v.sb.desc_size)) {
        Some(c) => put16(b, off + 0x1E, c),
        None => b,
    }
}

/// The block with the counters of the descriptor at `off` moved.
pub open spec fn counted(v: Vol, b: Seq<u8>, off: int, gi: int, fb: int, fi: int, ud: int) -> Seq<u8> {
    let b1 = moved_counter(b, off + 0x0C, high_word(v.sb, off + 0x2C), fb);
    let b2 = moved_counter(b1, off + 0x0E, high_word(v.sb, off + 0x2E), fi);
    let b3 = moved_counter(b2, off + 0x10, high_word(v.sb, off + 0x30), ud);
    restamped(v, b3, off, gi)
}

/// The stage with group `gi`'s counters moved.
pub open spec fn stage_counters(v: Vol, st: Stage, gi: int, fb: int, fi: int, ud: int) -> Result<Stage> {
    match block_at(st.img, v.bs(), desc_block(v.sb, gi)) {
        Err(e) => Err(e),
        Ok(b) => Ok(
            stage_block(
                v,
                st,
                desc_block(v.sb, gi),
                counted(v, b, desc_off(v.sb, gi), gi, fb, fi, ud),
            ),
        ),
    }
}

// -- superblock -------------------------------------------------------------

/// The block with the superblock at `off` carrying its checksum.
pub open spec fn super_stamped(v: Vol, b: Seq<u8>, off: int) -> Seq<u8> {
    if v.csum.enabled {
        put32(b, off + 0x3FC, raw_crc(0xFFFF_FFFF, b.subrange(off, off + 0x3FC)))
    } else {
        b
    }
}

/// The block with the superblock's totals moved. Neither total goes below
/// zero.
pub open spec fn totalled(v: Vol, b: Seq<u8>, off: int, fb: int, fi: int) -> Seq<u8> {
    let inodes = le32(b, off + 0x10) + fi;
    let b1 = put32(
        b,
        off + 0x10,
        if inodes < 0 {
            0u32
        } else {
            (inodes % 0x1_0000_0000) as u32
        },
    );
    let blocks = join32_spec(le32(b, off + 0x0C), le32(b, off + 0x158)) + fb;
    let total = if blocks < 0 {
        0u64
    } else {
        (blocks % 0x1_0000_0000_0000_0000) as u64
    };
    super_stamped(v, put32(put32(b1, off + 0x0C, lo32(total)), off + 0x158, hi32(total)), off)
}

/// The stage with the superblock's totals moved.
pub open spec fn stage_totals(v: Vol, st: Stage, fb: int, fi: int) -> Result<Stage> {
    match block_at(st.img, v.bs(), super_block(v.sb)) {
        Err(e) => Err(e),
        Ok(b) => Ok(
            stage_block(v, st, super_block(v.sb), totalled(v, b, super_off(v.sb), fb, fi)),
        ),
    }
}

/// The stage with the head of the orphan chain replaced.
pub open spec fn stage_last_orphan(v: Vol, st: Stage, value: u32) -> Result<Stage> {
    match block_at(st.img, v.bs(), super_block(v.sb)) {
        Err(e) => Err(e),
        Ok(b) => Ok(
            stage_block(
                v,
                st,
                super_block(v.sb),
                super_stamped(v, put32(b, super_off(v.sb) + 0xE8, value), super_off(v.sb)),
            ),
        ),
    }
}

// -- inodes -----------------------------------------------------------------

/// The stage with inode `ino`'s record replaced.
pub open spec fn stage_inode(v: Vol, st: Stage, ino: u32, raw: Seq<u8>) -> Result<Stage> {
    match inode_place(v.sb, v.groups, ino) {
        Err(e) => Err(e),
        Ok((block, off)) => match block_at(st.img, v.bs(), block as int) {
            Err(e) => Err(e),
            Ok(b) => if off + raw.len() > b.len() {
                Err(Error::Corrupt("inode slice exceeds block data"))
            } else {
                Ok(stage_block(v, st, block as int, splice(b, off as int, raw)))
            },
        },
    }
}

// -- bitmaps ----------------------------------------------------------------

/// The block with the bitmap checksum in the descriptor at `off`.
pub open spec fn bitmap_stamped(v: Vol, b: Seq<u8>, off: int, gi: int, inodes: bool, crc: u32) -> Seq<u8> {
    let lo = if inodes {
        0x1Aint
    } else {
        0x18
    };
    let hi = if inodes {
        0x3Aint
    } else {
        0x38
    };
    let b1 = put16(b, off + lo, low16(crc));
    let b2 = if v.sb.desc_size >= 0x40 {
        put16(b1, off + hi, high16(crc))
    } else {
        b1
    };
    restamped(v, b2, off, gi)
}

/// How many bytes of a bitmap its checksum covers.
pub open spec fn bitmap_covered(v: Vol, inodes: bool) -> int {
    let bytes = ((if inodes {
        v.sb.inodes_per_group
    } else {
        v.sb.blocks_per_group
    }) + 7) / 8;
    if bytes <= v.bs() {
        bytes
    } else {
        v.bs()
    }
}

/// The block that holds a group's bitmap.
pub open spec fn bitmap_block_of(v: Vol, gi: int, inodes: bool) -> int {
    if inodes {
        v.groups[gi].inode_bitmap as int
    } else {
        v.groups[gi].block_bitmap as int
    }
}

/// The stage with the checksum of group `gi`'s bitmap brought up to date.
pub open spec fn stage_bitmap_csum(v: Vol, st: Stage, gi: int, inodes: bool) -> Result<Stage> {
    if !v.csum.enabled {
        Ok(st)
    } else {
        match block_at(st.img, v.bs(), bitmap_block_of(v, gi, inodes)) {
            Err(e) => Err(e),
            Ok(bm) => match block_at(st.img, v.bs(), desc_block(v.sb, gi)) {
                Err(e) => Err(e),
                Ok(b) => Ok(
                    stage_block(
                        v,
                        st,
                        desc_block(v.sb, gi),
                        bitmap_stamped(
                            v,
                            b,
                            desc_off(v.sb, gi),
                            gi,
                            inodes,
                            raw_crc(v.csum.seed, bm.subrange(0, bitmap_covered(v, inodes))),
                        ),
                    ),
                ),
            },
        }
    }
}

/// The stage with an uninit flag of group `gi` taken down, and whether it was
/// up.
pub open spec fn stage_clear_uninit(v: Vol, st: Stage, gi: int, flag: u16) -> Result<(Stage, bool)> {
    match block_at(st.img, v.bs(), desc_block(v.sb, gi)) {
        Err(e) => Err(e),
        Ok(b) => {
            let at = desc_off(v.sb, gi) + 0x12;
            let flags = le16(b, at);
            if flags & flag == 0 {
                Ok((st, false))
            } else {
                let out = stage_block(v, st, desc_block(v.sb, gi), put16(b, at, flags & !flag));
                Ok((Stage { cleared: out.cleared.push((gi as usize, flags & !flag)), ..out }, true))
            }
        },
    }
}

/// The group that block `start` is in, if the volume has it.
pub open spec fn group_of_block(v: Vol, start: u64) -> Option<int> {
    let gi = (start - v.sb.first_data_block) / v.sb.blocks_per_group as int;
    if start >= v.sb.first_data_block && gi < v.groups.len() {
        Some(gi)
    } else {
        None
    }
}

/// The stage with `len` blocks from `start` on released: their bits cleared
/// and the group's count raised.
pub open spec fn stage_free_blocks(v: Vol, st: Stage, start: u64, len: int) -> Result<Stage> {
    match group_of_block(v, start) {
        None => Err(Error::InvalidBlock(start)),
        Some(gi) => match block_at(st.img, v.bs(), v.groups[gi].block_bitmap as int) {
            Err(e) => Err(e),
            Ok(bm) => {
                let bit = start - group_first_block(v.sb, gi);
                let st1 = stage_block(
                    v,
                    st,
                    v.groups[gi].block_bitmap as int,
                    with_bits(bm, bit, len as nat, false),
                );
                match stage_bitmap_csum(v, st1, gi, false) {
                    Err(e) => Err(e),
                    Ok(st2) => stage_counters(v, st2, gi, len, 0, 0),
                }
            },
        },
    }
}

/// The block bitmap that a marking starts from: as staged, or, where it was
/// never written, free but for the group's own metadata.
pub open spec fn marking_base(v: Vol, bm: Seq<u8>, gi: int, was_uninit: bool) -> Seq<u8> {
    if was_uninit {
        mark_runs(zeros(bm.len()), metadata_runs(v.sb, v.groups, gi), v.sb.blocks_per_group as int)
    } else {
        bm
    }
}

/// The stage with `len` blocks from `start` on marked used.
pub open spec fn stage_mark_blocks(v: Vol, st: Stage, start: u64, len: int) -> Result<Stage> {
    match group_of_block(v, start) {
        None => Err(Error::InvalidBlock(start)),
        Some(gi) => match stage_clear_uninit(v, st, gi, BLOCK_UNINIT) {
            Err(e) => Err(e),
            Ok((st1, was_uninit)) => match block_at(
                st1.img,
                v.bs(),
                v.groups[gi].block_bitmap as int,
            ) {
                Err(e) => Err(e),
                Ok(bm) => {
                    let bit = start - group_first_block(v.sb, gi);
                    let st2 = stage_block(
                        v,
                        st1,
                        v.groups[gi].block_bitmap as int,
                        with_bits(marking_base(v, bm, gi, was_uninit), bit, len as nat, true),
                    );
                    stage_bitmap_csum(v, st2, gi, false)
                },
            },
        },
    }
}

/// The group of an inode, if the volume has it.
pub open spec fn group_of_inode(v: Vol, ino: u32) -> Option<int> {
    let gi = (ino - 1) / v.sb.inodes_per_group as int;
    if ino > 0 && gi < v.groups.len() {
        Some(gi)
    } else {
        None
    }
}

/// The bit of an inode in its group's bitmap.
pub open spec fn bit_of_inode(v: Vol, ino: u32) -> int {
    (ino - 1) % v.sb.inodes_per_group as int
}

/// The stage with an inode released: its bit cleared and the group's count
/// raised.
pub open spec fn stage_free_inode(v: Vol, st: Stage, ino: u32) -> Result<Stage> {
    match group_of_inode(v, ino) {
        None => Err(Error::InvalidInode(ino)),
        Some(gi) => match block_at(st.img, v.bs(), v.groups[gi].inode_bitmap as int) {
            Err(e) => Err(e),
            Ok(bm) => {
                let st1 = stage_block(
                    v,
                    st,
                    v.groups[gi].inode_bitmap as int,
                    with_bit(bm, bit_of_inode(v, ino), false),
                );
                match stage_bitmap_csum(v, st1, gi, true) {
                    Err(e) => Err(e),
                    Ok(st2) => stage_counters(v, st2, gi, 0, 1, 0),
                }
            },
        },
    }
}

/// The inode bitmap of a group whose bitmap was never written: every inode
/// free, and the bits past the last one set.
pub open spec fn padded_inodes(v: Vol, len: nat) -> Seq<u8> {
    let ipg = v.sb.inodes_per_group as int;
    if ipg < 8 * len {
        with_bits(zeros(len), ipg, (8 * len - ipg) as nat, true)
    } else {
        zeros(len)
    }
}

/// The block with the unused tail of group `gi`'s inode table no longer than
/// `floor`.
pub open spec fn itable_lowered(v: Vol, b: Seq<u8>, off: int, gi: int, floor: int) -> Seq<u8> {
    let hi = high_word(v.sb, off + 0x32);
    if floor < counter_at(b, off + 0x1C, hi) {
        restamped(v, with_counter(b, off + 0x1C, hi, floor), off, gi)
    } else {
        b
    }
}

/// The stage with an inode marked used. The counters are the caller's.
pub open spec fn stage_mark_inode(v: Vol, st: Stage, ino: u32) -> Result<Stage> {
    match group_of_inode(v, ino) {
        None => Err(Error::InvalidInode(ino)),
        Some(gi) => match stage_clear_uninit(v, st, gi, INODE_UNINIT) {
            Err(e) => Err(e),
            Ok((st1, was_uninit)) => match block_at(
                st1.img,
                v.bs(),
                v.groups[gi].inode_bitmap as int,
            ) {
                Err(e) => Err(e),
                Ok(bm) => {
                    let base = if was_uninit {
                        padded_inodes(v, bm.len())
                    } else {
                        bm
                    };
                    let bit = bit_of_inode(v, ino);
                    let st2 = stage_block(
                        v,
                        st1,
                        v.groups[gi].inode_bitmap as int,
                        with_bit(base, bit, true),
                    );
                    match stage_bitmap_csum(v, st2, gi, true) {
                        Err(e) => Err(e),
                        Ok(st3) => match block_at(st3.img, v.bs(), desc_block(v.sb, gi)) {
                            Err(e) => Err(e),
                            Ok(b) => Ok(
                                stage_block(
                                    v,
                                    st3,
                                    desc_block(v.sb, gi),
                                    itable_lowered(
                                        v,
                                        b,
                                        desc_off(v.sb, gi),
                                        gi,
                                        v.sb.inodes_per_group - bit - 1,
                                    ),
                                ),
                            ),
                        },
                    }
                },
            },
        },
    }
}

// -- the code ---------------------------------------------------------------

impl<D: BlockDevice> Filesystem<D> {
    /// The latest version of a block.
    pub(crate) fn staged_block(&self, buf: &BlockBuffer, n: u64) -> (r: Result<Vec<u8>>)
        requires
            self.wf(),
            buf.wf(self@),
        ensures
            match r {
                Ok(b) => block_at(buf.stage(self@).img, self@.bs(), n as int) == Ok::<Seq<u8>, Error>(b@)
                    && b@.len() == self@.bs() && has_block(self@.img, self@.bs(), n as int),
                Err(e) => block_at(buf.stage(self@).img, self@.bs(), n as int) == Err::<Seq<u8>, Error>(e) || (
                !self.dev.healthy() && e == Error::Io),
            },
    {
        buf.get(&self.dev, Ghost(self@), self.sb.block_size(), n)
    }

    /// Where group `gi`'s descriptor is: its block, and the byte in it.
    fn descriptor_place(&self, gi: usize) -> (r: (u64, usize))
        requires
            self.wf(),
            gi <= u32::MAX,
        ensures
            r.0 == desc_block(self.sb, gi as int),
            r.1 == desc_off(self.sb, gi as int),
            r.1 + self.sb.desc_size <= self.sb.bs(),
    {
        proof {
            lemma_desc_place(self.sb, gi as int);
        }
        let bs: u64 = self.sb.block_size() as u64;
        let byte_in_table: u64 = gi as u64 * self.sb.desc_size as u64;
        (
            self.sb.first_data_block as u64 + 1 + byte_in_table / bs,
            (byte_in_table % bs) as usize,
        )
    }

    /// Rewrite the checksum of the group descriptor at `block[off..]` under
    /// whichever scheme the volume uses, if any.
    fn restamp_group_desc_csum(&self, block: &mut Vec<u8>, off: usize, gi: usize)
        requires
            self.wf(),
            gi <= u32::MAX,
            off + self.sb.desc_size <= old(block)@.len(),
        ensures
            final(block)@ == restamped(self@, old(block)@, off as int, gi as int),
            final(block)@.len() == old(block)@.len(),
    {
        assert(block.len() == block@.len());
        let end: usize = off + self.sb.desc_size as usize;
        let desc: Vec<u8> = copy_range(block, off, end);
        if let Some(c) = group_desc_csum(&self.sb, &self.csum, gi as u32, &desc) {
            set_u16(block, off + 0x1E, c);
        }
    }

    fn high_at(&self, at: usize) -> (r: Option<usize>)
        ensures
            match r {
                Some(h) => high_word(self.sb, at as int) == Some(h as int) && h == at
                    && self.sb.desc_size >= 0x40,
                None => high_word(self.sb, at as int) is None,
            },
    {
        if self.sb.desc_size >= 0x40 {
            Some(at)
        } else {
            None
        }
    }

    /// Stage a change of group `gi`'s free-block, free-inode and directory
    /// counts.
    pub fn buffer_patch_bgd_counters(
        &self,
        buf: &mut BlockBuffer,
        gi: usize,
        free_blocks_delta: i32,
        free_inodes_delta: i32,
        used_dirs_delta: i32,
    ) -> (r: Result<()>)
        requires
            self.wf(),
            old(buf).wf(self@),
            gi <= u32::MAX,
        ensures
            final(buf).wf(self@),
            staged(
                stage_counters(
                    self@,
                    old(buf).stage(self@),
                    gi as int,
                    free_blocks_delta as int,
                    free_inodes_delta as int,
                    used_dirs_delta as int,
                ),
                r,
                final(buf).stage(self@),
                self.dev.healthy(),
            ),
    {
        let (n, off): (u64, usize) = self.descriptor_place(gi);
        let mut block: Vec<u8> = match self.staged_block(buf, n) {
            Ok(b) => b,
            Err(e) => {
                return Err(e);
            },
        };
        let hi: Option<usize> = self.high_at(off + 0x2C);
        patch_counter_u32(&mut block, off + 0x0C, hi, free_blocks_delta);
        let hi: Option<usize> = self.high_at(off + 0x2E);
        patch_counter_u32(&mut block, off + 0x0E, hi, free_inodes_delta);
        let hi: Option<usize> = self.high_at(off + 0x30);
        patch_counter_u32(&mut block, off + 0x10, hi, used_dirs_delta);
        self.restamp_group_desc_csum(&mut block, off, gi);
        buf.put(n, block);
        Ok(())
    }

    fn stamp_superblock(&self, block: &mut Vec<u8>, off: usize)
        requires
            off + 1024 <= old(block)@.len(),
        ensures
            final(block)@ == super_stamped(self@, old(block)@, off as int),
            final(block)@.len() == old(block)@.len(),
    {
        assert(block.len() == block@.len());
        if self.csum.enabled {
            let covered: Vec<u8> = copy_range(block, off, off + 0x3FC);
            let crc: u32 = linux_crc32c(0xFFFF_FFFF, &covered);
            set_u32(block, off + 0x3FC, crc);
        }
    }

    /// Stage a change of the superblock's free-block and free-inode totals.
    pub fn buffer_patch_sb_counters(
        &self,
        buf: &mut BlockBuffer,
        free_blocks_delta: i64,
        free_inodes_delta: i32,
    ) -> (r: Result<()>)
        requires
            self.wf(),
            old(buf).wf(self@),
        ensures
            final(buf).wf(self@),
            staged(
                stage_totals(
                    self@,
                    old(buf).stage(self@),
                    free_blocks_delta as int,
                    free_inodes_delta as int,
                ),
                r,
                final(buf).stage(self@),
                self.dev.healthy(),
            ),
    {
        proof {
            lemma_super_place(self.sb);
        }
        let bs: u64 = self.sb.block_size() as u64;
        let n: u64 = 1024u64 / bs;
        let off: usize = (1024u64 % bs) as usize;
        let mut block: Vec<u8> = match self.staged_block(buf, n) {
            Ok(b) => b,
            Err(e) => {
                return Err(e);
            },
        };
        let lo: u32 = get_u32(&block, off + 0x0C);
        let hi: u32 = get_u32(&block, off + 0x158);
        let inodes: i64 = get_u32(&block, off + 0x10) as i64 + free_inodes_delta as i64;
        let inodes_new: u32 = if inodes < 0 {
            0
        } else {
            (inodes as u64 % 0x1_0000_0000) as u32
        };
        set_u32(&mut block, off + 0x10, inodes_new);
        let blocks: i128 = join_u32(lo, hi) as i128 + free_blocks_delta as i128;
        let blocks_new: u64 = if blocks < 0 {
            0
        } else {
            (blocks as u128 % 0x1_0000_0000_0000_0000) as u64
        };
        set_u32(&mut block, off + 0x0C, low_u32(blocks_new));
        set_u32(&mut block, off + 0x158, high_u32(blocks_new));
        self.stamp_superblock(&mut block, off);
        buf.put(n, block);
        Ok(())
    }

    /// Stage a new head for the orphan chain.
    pub fn buffer_patch_sb_last_orphan(&self, buf: &mut BlockBuffer, value: u32) -> (r: Result<()>)
        requires
            self.wf(),
            old(buf).wf(self@),
        ensures
            final(buf).wf(self@),
            staged(
                stage_last_orphan(self@, old(buf).stage(self@), value),
                r,
                final(buf).stage(self@),
                self.dev.healthy(),
            ),
    {
        proof {
            lemma_super_place(self.sb);
        }
        let bs: u64 = self.sb.block_size() as u64;
        let n: u64 = 1024u64 / bs;
        let off: usize = (1024u64 % bs) as usize;
        let mut block: Vec<u8> = match self.staged_block(buf, n) {
            Ok(b) => b,
            Err(e) => {
                return Err(e);
            },
        };
        set_u32(&mut block, off + 0xE8, value);
        self.stamp_superblock(&mut block, off);
        buf.put(n, block);
        Ok(())
    }

    /// Stage inode `ino`'s record.
    pub fn buffer_write_inode(&self, buf: &mut BlockBuffer, ino: u32, inode_raw: &[u8]) -> (r: Result<()>)
        requires
            self.wf(),
            old(buf).wf(self@),
        ensures
            final(buf).wf(self@),
            staged(
                stage_inode(self@, old(buf).stage(self@), ino, inode_raw@),
                r,
                final(buf).stage(self@),
                self.dev.healthy(),
            ),
    {
        let (n, offset): (u64, u32) = match locate_inode(&self.sb, &self.groups, ino) {
            Ok(p) => p,
            Err(e) => {
                return Err(e);
            },
        };
        let mut block: Vec<u8> = match self.staged_block(buf, n) {
            Ok(b) => b,
            Err(e) => {
                return Err(e);
            },
        };
        let off: usize = offset as usize;
        if inode_raw.len() > block.len() || off > block.len() - inode_raw.len() {
            return Err(Error::Corrupt("inode slice exceeds block data"));
        }
        overlay(&mut block, off, inode_raw);
        buf.put(n, block);
        Ok(())
    }

    /// Recompute a group's bitmap checksum (inode or block) after its bitmap
    /// block changed, then refresh the descriptor's own checksum. Does nothing
    /// where metadata is not checksummed.
    pub fn buffer_refresh_bitmap_csum(&self, buf: &mut BlockBuffer, gi: usize, inode_bitmap: bool) -> (r: Result<
        (),
    >)
        requires
            self.wf(),
            old(buf).wf(self@),
            gi < self.groups@.len(),
        ensures
            final(buf).wf(self@),
            staged(
                stage_bitmap_csum(self@, old(buf).stage(self@), gi as int, inode_bitmap),
                r,
                final(buf).stage(self@),
                self.dev.healthy(),
            ),
    {
        if !self.csum.enabled {
            return Ok(());
        }
        let (bitmap_block, bits): (u64, u32) = if inode_bitmap {
            (self.groups[gi].inode_bitmap, self.sb.inodes_per_group)
        } else {
            (self.groups[gi].block_bitmap, self.sb.blocks_per_group)
        };
        let bm: Vec<u8> = match self.staged_block(buf, bitmap_block) {
            Ok(b) => b,
            Err(e) => {
                return Err(e);
            },
        };
        let bytes: u64 = (bits as u64 + 7) / 8;
        let end: usize = if bytes <= bm.len() as u64 {
            bytes as usize
        } else {
            bm.len()
        };
        let covered: Vec<u8> = copy_range(&bm, 0, end);
        let crc: u32 = linux_crc32c(self.csum.seed, &covered);
        let (n, off): (u64, usize) = self.descriptor_place(gi);
        let mut block: Vec<u8> = match self.staged_block(buf, n) {
            Ok(b) => b,
            Err(e) => {
                return Err(e);
            },
        };
        let (lo_off, hi_off): (usize, usize) = if inode_bitmap {
            (0x1A, 0x3A)
        } else {
            (0x18, 0x38)
        };
        set_u16(&mut block, off + lo_off, (crc % 0x1_0000) as u16);
        if self.sb.desc_size >= 0x40 {
            set_u16(&mut block, off + hi_off, (crc / 0x1_0000) as u16);
        }
        self.restamp_group_desc_csum(&mut block, off, gi);
        buf.put(n, block);
        Ok(())
    }

    /// If group `gi`'s descriptor has the given uninit flag set, clear it and
    /// return `true`: the bitmap block's content was unspecified until now.
    fn clear_bgd_uninit_flag_if_set(&self, buf: &mut BlockBuffer, gi: usize, flag: u16) -> (r: Result<bool>)
        requires
            self.wf(),
            old(buf).wf(self@),
            gi < self.groups@.len(),
        ensures
            final(buf).wf(self@),
            match stage_clear_uninit(self@, old(buf).stage(self@), gi as int, flag) {
                Ok((st, was)) => (r == Ok::<bool, Error>(was) && final(buf).stage(self@) == st) || (
                !self.dev.healthy() && r == Err::<bool, Error>(Error::Io)),
                Err(e) => r == Err::<bool, Error>(e) || (!self.dev.healthy() && r == Err::<bool, Error>(
                    Error::Io,
                )),
            },
    {
        let (n, off): (u64, usize) = self.descriptor_place(gi);
        let mut block: Vec<u8> = match self.staged_block(buf, n) {
            Ok(b) => b,
            Err(e) => {
                return Err(e);
            },
        };
        let flags: u16 = get_u16(&block, off + 0x12);
        if flags & flag == 0 {
            return Ok(false);
        }
        set_u16(&mut block, off + 0x12, flags & !flag);
        buf.put(n, block);
        buf.note_cleared(gi, flags & !flag);
        Ok(true)
    }

    /// The group of a block, and the block's bit in the group.
    fn block_group(&self, start: u64) -> (r: Option<(usize, u64)>)
        requires
            self.wf(),
        ensures
            match r {
                Some((gi, bit)) => group_of_block(self@, start) == Some(gi as int) && bit == start
                    - group_first_block(self.sb, gi as int) && bit < self.sb.blocks_per_group && gi
                    < self.groups@.len(),
                None => group_of_block(self@, start) is None,
            },
    {
        let bpg: u64 = self.sb.blocks_per_group as u64;
        let first_data: u64 = self.sb.first_data_block as u64;
        if start < first_data {
            return None;
        }
        let gi: u64 = (start - first_data) / bpg;
        if gi >= self.groups.len() as u64 {
            return None;
        }
        proof {
            vstd::arithmetic::div_mod::lemma_fundamental_div_mod(start - first_data, bpg as int);
            assert(gi * bpg == bpg * gi) by (nonlinear_arith);
        }
        Some((gi as usize, (start - first_data) % bpg))
    }

    /// Stage the release of `len` blocks from `start` on: clears the bitmap
    /// bits and raises the group's free count. Returns `len`, for the caller's
    /// running total.
    pub fn buffer_free_block_run_and_bgd(&self, buf: &mut BlockBuffer, start: u64, len: u64) -> (r: Result<u64>)
        requires
            self.wf(),
            old(buf).wf(self@),
            len <= i32::MAX,
        ensures
            final(buf).wf(self@),
            r matches Ok(n) ==> n == len,
            staged(
                stage_free_blocks(self@, old(buf).stage(self@), start, len as int),
                match r {
                    Ok(_) => Ok(()),
                    Err(e) => Err(e),
                },
                final(buf).stage(self@),
                self.dev.healthy(),
            ),
    {
        let (gi, bit): (usize, u64) = match self.block_group(start) {
            Some(p) => p,
            None => {
                return Err(Error::InvalidBlock(start));
            },
        };
        let bitmap_block: u64 = self.groups[gi].block_bitmap;
        let mut bm: Vec<u8> = match self.staged_block(buf, bitmap_block) {
            Ok(b) => b,
            Err(e) => {
                return Err(e);
            },
        };
        proof {
            lemma_with_bits(bm@, bit as int, len as nat, false);
        }
        put_bits(&mut bm, bit, len, false);
        buf.put(bitmap_block, bm);
        match self.buffer_refresh_bitmap_csum(buf, gi, false) {
            Ok(_) => {},
            Err(e) => {
                return Err(e);
            },
        }
        match self.buffer_patch_bgd_counters(buf, gi, len as i32, 0, 0) {
            Ok(_) => Ok(len),
            Err(e) => Err(e),
        }
    }

    /// Stage the marking of `len` blocks from `start` on as used. A group
    /// whose bitmap was never written gets one first: free, but for the
    /// metadata the group holds.
    pub fn buffer_mark_block_run_used(&self, buf: &mut BlockBuffer, start: u64, len: u64) -> (r: Result<()>)
        requires
            self.wf(),
            old(buf).wf(self@),
            len <= u32::MAX,
        ensures
            final(buf).wf(self@),
            staged(
                stage_mark_blocks(self@, old(buf).stage(self@), start, len as int),
                r,
                final(buf).stage(self@),
                self.dev.healthy(),
            ),
    {
        let (gi, bit): (usize, u64) = match self.block_group(start) {
            Some(p) => p,
            None => {
                return Err(Error::InvalidBlock(start));
            },
        };
        let was_uninit: bool = match self.clear_bgd_uninit_flag_if_set(buf, gi, BLOCK_UNINIT) {
            Ok(w) => w,
            Err(e) => {
                return Err(e);
            },
        };
        let bitmap_block: u64 = self.groups[gi].block_bitmap;
        let mut bm: Vec<u8> = match self.staged_block(buf, bitmap_block) {
            Ok(b) => b,
            Err(e) => {
                return Err(e);
            },
        };
        if was_uninit {
            let runs: Vec<(u64, u64)> = group_owned_metadata_runs(&self.sb, &self.groups, gi);
            bm = zeroed(bm.len());
            mark_all_runs(&mut bm, &runs, self.sb.blocks_per_group);
        }
        proof {
            lemma_with_bits(bm@, bit as int, len as nat, true);
        }
        put_bits(&mut bm, bit, len, true);
        buf.put(bitmap_block, bm);
        self.buffer_refresh_bitmap_csum(buf, gi, false)
    }

    /// Stage the release of an inode: clears its bit and raises the group's
    /// free count. The superblock's total is the caller's.
    pub fn buffer_free_inode_slot(&self, buf: &mut BlockBuffer, ino: u32) -> (r: Result<()>)
        requires
            self.wf(),
            old(buf).wf(self@),
        ensures
            final(buf).wf(self@),
            staged(
                stage_free_inode(self@, old(buf).stage(self@), ino),
                r,
                final(buf).stage(self@),
                self.dev.healthy(),
            ),
    {
        let ipg: u32 = self.sb.inodes_per_group;
        if ino == 0 || ((ino - 1) / ipg) as u64 >= self.groups.len() as u64 {
            return Err(Error::InvalidInode(ino));
        }
        let gi: usize = ((ino - 1) / ipg) as usize;
        let bit: u32 = (ino - 1) % ipg;
        let bitmap_block: u64 = self.groups[gi].inode_bitmap;
        let mut bm: Vec<u8> = match self.staged_block(buf, bitmap_block) {
            Ok(b) => b,
            Err(e) => {
                return Err(e);
            },
        };
        put_bit(&mut bm, bit as u64, false);
        buf.put(bitmap_block, bm);
        match self.buffer_refresh_bitmap_csum(buf, gi, true) {
            Ok(_) => {},
            Err(e) => {
                return Err(e);
            },
        }
        self.buffer_patch_bgd_counters(buf, gi, 0, 1, 0)
    }

    /// Stage the marking of an inode as used, and the shortening of the
    /// never-used tail of its group's inode table. The counters are the
    /// caller's.
    pub fn buffer_mark_inode_used(&self, buf: &mut BlockBuffer, ino: u32) -> (r: Result<()>)
        requires
            self.wf(),
            old(buf).wf(self@),
        ensures
            final(buf).wf(self@),
            staged(
                stage_mark_inode(self@, old(buf).stage(self@), ino),
                r,
                final(buf).stage(self@),
                self.dev.healthy(),
            ),
    {
        let ipg: u32 = self.sb.inodes_per_group;
        if ino == 0 || ((ino - 1) / ipg) as u64 >= self.groups.len() as u64 {
            return Err(Error::InvalidInode(ino));
        }
        let gi: usize = ((ino - 1) / ipg) as usize;
        let bit: u32 = (ino - 1) % ipg;
        let bitmap_block: u64 = self.groups[gi].inode_bitmap;
        let was_uninit: bool = match self.clear_bgd_uninit_flag_if_set(buf, gi, INODE_UNINIT) {
            Ok(w) => w,
            Err(e) => {
                return Err(e);
            },
        };
        let mut bm: Vec<u8> = match self.staged_block(buf, bitmap_block) {
            Ok(b) => b,
            Err(e) => {
                return Err(e);
            },
        };
        if was_uninit {
            let len: usize = bm.len();
            bm = zeroed(len);
            if (ipg as u64) < 8 * (len as u64) {
                proof {
                    lemma_with_bits(bm@, ipg as int, (8 * len - ipg) as nat, true);
                }
                put_bits(&mut bm, ipg as u64, 8 * (len as u64) - ipg as u64, true);
            }
        }
        put_bit(&mut bm, bit as u64, true);
        buf.put(bitmap_block, bm);
        match self.buffer_refresh_bitmap_csum(buf, gi, true) {
            Ok(_) => {},
            Err(e) => {
                return Err(e);
            },
        }
        let floor: u32 = ipg - bit - 1;
        let (n, off): (u64, usize) = self.descriptor_place(gi);
        let mut block: Vec<u8> = match self.staged_block(buf, n) {
            Ok(b) => b,
            Err(e) => {
                return Err(e);
            },
        };
        let hi: Option<usize> = self.high_at(off + 0x32);
        if floor < counter(&block, off + 0x1C, hi) {
            set_counter(&mut block, off + 0x1C, hi, floor);
            self.restamp_group_desc_csum(&mut block, off, gi);
        }
        buf.put(n, block);
        Ok(())
    }
}

} // verus!
