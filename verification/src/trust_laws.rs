//! What is trusted is what would be written: to fill in a checksum that is right
//! already changes nothing.
use crate::block_io::read_range;
use crate::bytes::{le16, le32, put16, put32};
use crate::checksum::{
    dir_crc, dir_stamped, dir_tail_present, extent_crc_ok, extent_stamped, extent_tail_at, inode_crc, raw_crc,
    Checksummer,
};
use crate::error::Error;
use crate::features::{has, RO_COMPAT_METADATA_CSUM};
use crate::fs::checked_inode;
use crate::inode::{extra_isize_of, generation_of};
use crate::mount::super_refusal;
use crate::volume::Vol;
use vstd::prelude::*;

verus! {

proof fn lemma_same_word(s: Seq<u8>, i: int, x: u32)
    requires
        0 <= i,
        i + 4 <= s.len(),
        le32(s, i) == x,
    ensures
        put32(s, i, x) == s,
{
    reveal(le32);
    reveal(put32);
    assert(put32(s, i, x) =~= s);
}

proof fn lemma_same_half(s: Seq<u8>, i: int, x: u16)
    requires
        0 <= i,
        i + 2 <= s.len(),
        le16(s, i) == x,
    ensures
        put16(s, i, x) == s,
{
    reveal(le16);
    reveal(put16);
    assert(put16(s, i, x) =~= s);
}

/// A record that is trusted is as it would be written. It has room for all of its
/// checksum, or for half of it only.
pub proof fn law_trusted_record_is_as_written(v: Vol, ino: u32, raw: Seq<u8>)
    requires
        checked_inode(v, ino) == Ok::<Seq<u8>, Error>(raw),
        extra_isize_of(raw) >= 4 || raw.len() < 0x84,
    ensures
        v.csum.stamp_inode_spec(ino, generation_of(raw), raw) == raw,
{
    if v.csum.enabled {
        let crc = inode_crc(v.csum.seed, ino, generation_of(raw), raw);
        lemma_same_half(raw, 0x7C, crate::checksum::low16(crc));
        if raw.len() >= 0x84 {
            lemma_same_half(raw, 0x82, crate::checksum::high16(crc));
        }
    }
}

/// A directory block that is trusted and ends in a checksum is as it would be
/// written.
pub proof fn law_trusted_directory_block_is_as_written(c: Checksummer, ino: u32, generation: u32, block: Seq<u8>)
    requires
        c.enabled,
        dir_tail_present(block),
        c.dir_ok(ino, generation, block),
    ensures
        dir_stamped(c.seed, ino, generation, block) == block,
{
    let at = block.len() - 12;
    lemma_same_word(block, at, 0);
    lemma_same_half(block, at + 4, 12);
    assert(block.update(at + 6, 0u8).update(at + 7, 0xDEu8) =~= block);
    lemma_same_word(block, at + 8, dir_crc(c.seed, ino, generation, block));
}

/// A node of a tree that is trusted is as it would be written, and what is written
/// is trusted.
pub proof fn law_trusted_node_is_as_written(seed: u32, ino: u32, generation: u32, block: Seq<u8>)
    requires
        block.len() >= 12,
        extent_tail_at(block) + 4 <= block.len(),
    ensures
        extent_crc_ok(seed, ino, generation, block) <==> extent_stamped(seed, ino, generation, block) == block,
        extent_crc_ok(seed, ino, generation, extent_stamped(seed, ino, generation, block)),
{
    broadcast use crate::bytes::group_fields;

    let at = extent_tail_at(block);
    let out = extent_stamped(seed, ino, generation, block);
    if extent_crc_ok(seed, ino, generation, block) {
        lemma_same_word(block, at, le32(block, at));
    }
    assert(le16(out, 4) == le16(block, 4));
    assert(out.subrange(0, at) =~= block.subrange(0, at)) by {
        reveal(put32);
    }
}

/// A superblock that is mounted is as it would be written, where metadata has
/// checksums.
pub proof fn law_mounted_superblock_is_as_written(img: Seq<u8>, raw: Seq<u8>)
    requires
        super_refusal(img) is None,
        read_range(img, 1024, 1024) == Ok::<Seq<u8>, Error>(raw),
        has(le32(raw, 0x64), RO_COMPAT_METADATA_CSUM),
    ensures
        put32(raw, 0x3FC, raw_crc(0xFFFF_FFFF, raw.subrange(0, 0x3FC))) == raw,
{
    lemma_same_word(raw, 0x3FC, le32(raw, 0x3FC));
}

} // verus!
