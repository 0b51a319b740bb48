//! What the record of a new file says.
use crate::bytes::{le16, le32, put32, zeros};
use crate::inode::{
    generation_of, links_of, mode_of, FL_EXTENTS, S_IFBLK, S_IFCHR, S_IFDIR, S_IFLNK, S_IFMT, S_IFREG,
};
use crate::inode_edit::{
    blank_inode, born, new_dir_inode, new_fast_symlink_inode, new_file_inode, new_slow_symlink_inode,
    new_special_inode,
};
use crate::volume::Vol;
use vstd::prelude::*;

verus! {

broadcast use crate::bytes::group_fields;

/// A record says that its file came to be at `now`, with this generation.
pub open spec fn says_born(rec: Seq<u8>, now: u32, generation: u32) -> bool {
    &&& le32(rec, 0x08) == now
    &&& le32(rec, 0x0C) == now
    &&& le32(rec, 0x10) == now
    &&& rec.len() >= 0x94 ==> le32(rec, 0x90) == now
    &&& generation_of(rec) == generation
}

/// What a new record has from the one it was made of.
proof fn lemma_born(v: Vol, ino: u32, raw: Seq<u8>, now: u32, generation: u32)
    requires
        raw.len() >= 128,
    ensures
        ({
            let rec = born(v, ino, raw, now, generation);
            &&& rec.len() == raw.len()
            &&& says_born(rec, now, generation)
            &&& mode_of(rec) == mode_of(raw)
            &&& links_of(rec) == links_of(raw)
            &&& le32(rec, 0x04) == le32(raw, 0x04)
            &&& le32(rec, 0x14) == le32(raw, 0x14)
            &&& le32(rec, 0x28) == le32(raw, 0x28)
            &&& le32(rec, 0x2C) == le32(raw, 0x2C)
            &&& le16(rec, 0x02) == le16(raw, 0x02)
            &&& le16(rec, 0x18) == le16(raw, 0x18)
        }),
{
}

/// How a device's numbers are read from the second word of a record's block area.
pub open spec fn device_in(word: u32) -> (u32, u32) {
    ((word & 0xF_FF00) >> 8u32, (word & 0xFF) | ((word >> 12u32) & 0xF_FF00))
}

/// A device's numbers can be read back from its record: both from the first word
/// where they are small enough for it, and any from the second. What is no device
/// has none. Its mode is the one that was given.
pub proof fn law_device_numbers_are_read_back(
    v: Vol,
    ino: u32,
    mode: u16,
    major: u32,
    minor: u32,
    now: u32,
    generation: u32,
)
    requires
        v.wf(),
        major < 0x1000,
        minor < 0x10_0000,
    ensures
        ({
            let rec = new_special_inode(v, ino, mode, major, minor, now, generation);
            let device = mode & 0xF000 == 0x2000 || mode & 0xF000 == 0x6000;
            &&& mode_of(rec) == mode
            &&& says_born(rec, now, generation)
            &&& device ==> device_in(le32(rec, 0x2C)) == (major, minor)
            &&& device && minor < 0x100 ==> le32(rec, 0x28) == 0x100 * major + minor
            &&& !device ==> le32(rec, 0x28) == 0 && le32(rec, 0x2C) == 0
        }),
{
    let raw = blank_inode(v, mode, 1);
    let z = zeros(v.sb.inode_size as nat);
    assert(le32(z, 0x28) == 0 && le32(z, 0x2C) == 0) by {
        reveal(le32);
    }
    let one = (major << 8u32) | (minor & 0xff);
    let two = (minor & 0xff) | (major << 8u32) | ((minor & !0xffu32) << 12u32);
    let kind = mode & S_IFMT;
    let held = if kind == S_IFBLK || kind == S_IFCHR {
        put32(put32(raw, 0x28, one), 0x2C, two)
    } else {
        raw
    };
    lemma_born(v, ino, held, now, generation);
    assert(two == ((minor & 0xff) | (major << 8u32) | ((minor & !0xffu32) << 12u32)) && major < 0x1000 && minor
        < 0x10_0000 ==> (two & 0xF_FF00) >> 8u32 == major && (two & 0xFF) | ((two >> 12u32) & 0xF_FF00) == minor)
        by (bit_vector);
    assert(one == ((major << 8u32) | (minor & 0xff)) && major < 0x1000 && minor < 0x100 ==> one == 0x100 * major + minor)
        by (bit_vector);
}

/// A new file, directory or link says when it came to be, is owned by nobody but
/// the superuser, and is marked as not deleted.
pub proof fn law_new_records_say_when_they_were_made(
    v: Vol,
    ino: u32,
    mode: u16,
    phys: u64,
    target: Seq<u8>,
    now: u32,
    generation: u32,
)
    requires
        v.wf(),
        0 < target.len() < 60,
    ensures
        ({
            let file = new_file_inode(v, ino, mode, now, generation);
            let dir = new_dir_inode(v, ino, mode, phys, now, generation);
            let link = new_fast_symlink_inode(v, ino, target, now, generation);
            let long = new_slow_symlink_inode(v, ino, target.len() as int, phys, now, generation);
            &&& says_born(file, now, generation) && says_born(dir, now, generation) && says_born(link, now, generation)
                && says_born(long, now, generation)
            &&& le16(file, 0x02) == 0 && le16(file, 0x18) == 0 && le32(file, 0x14) == 0
            &&& le16(dir, 0x02) == 0 && le16(dir, 0x18) == 0 && le32(dir, 0x14) == 0
            &&& links_of(link) == 1 && links_of(long) == 1
        }),
{
    let z = zeros(v.sb.inode_size as nat);
    assert(le16(z, 0x02) == 0 && le16(z, 0x18) == 0 && le32(z, 0x14) == 0) by {
        reveal(le32);
        reveal(le16);
    }
    lemma_file_born(v, ino, mode, now, generation);
    lemma_dir_born(v, ino, mode, phys, now, generation);
    lemma_links_born(v, ino, phys, target, now, generation);
}

proof fn lemma_area_apart(raw: Seq<u8>, area: Seq<u8>)
    requires
        raw.len() >= 128,
        area.len() == 60,
    ensures
        ({
            let out = crate::inode_edit::with_block_area(raw, area);
            &&& out.len() == raw.len()
            &&& mode_of(out) == mode_of(raw)
            &&& links_of(out) == links_of(raw)
            &&& le32(out, 0x14) == le32(raw, 0x14)
            &&& le16(out, 0x02) == le16(raw, 0x02)
            &&& le16(out, 0x18) == le16(raw, 0x18)
        }),
{
    reveal(le16);
    reveal(le32);
}

proof fn lemma_root_len(es: Seq<crate::extent::Extent>)
    requires
        es.len() <= 1,
    ensures
        crate::inode_edit::root_with(es).len() == 60,
{
    crate::extent_mut::lemma_node_len(
        crate::extent::ExtentHeader {
            magic: crate::extent::EXT4_EXT_MAGIC,
            entries: 0,
            max: 4,
            depth: 0,
            generation: 0,
        },
        es,
        60,
    );
}

proof fn lemma_file_born(v: Vol, ino: u32, mode: u16, now: u32, generation: u32)
    requires
        v.wf(),
    ensures
        ({
            let rec = new_file_inode(v, ino, mode, now, generation);
            let z = zeros(v.sb.inode_size as nat);
            &&& says_born(rec, now, generation)
            &&& le16(rec, 0x02) == le16(z, 0x02)
            &&& le16(rec, 0x18) == le16(z, 0x18)
            &&& le32(rec, 0x14) == le32(z, 0x14)
        }),
{
    let raw = blank_inode(v, S_IFREG | (mode & 0x0FFF), 1);
    lemma_root_len(Seq::empty());
    let flagged = put32(raw, 0x20, FL_EXTENTS);
    lemma_area_apart(flagged, crate::inode_edit::root_with(Seq::empty()));
    let held = if crate::inode_edit::flavor_of(v) is Ext4 {
        crate::inode_edit::with_block_area(flagged, crate::inode_edit::root_with(Seq::empty()))
    } else {
        raw
    };
    lemma_born(v, ino, held, now, generation);
}

proof fn lemma_dir_born(v: Vol, ino: u32, mode: u16, phys: u64, now: u32, generation: u32)
    requires
        v.wf(),
    ensures
        ({
            let rec = new_dir_inode(v, ino, mode, phys, now, generation);
            let z = zeros(v.sb.inode_size as nat);
            &&& says_born(rec, now, generation)
            &&& le16(rec, 0x02) == le16(z, 0x02)
            &&& le16(rec, 0x18) == le16(z, 0x18)
            &&& le32(rec, 0x14) == le32(z, 0x14)
        }),
{
    let raw = blank_inode(v, S_IFDIR | (mode & 0x0FFF), 2);
    let es = seq![crate::inode_edit::first_block_extent(phys)];
    lemma_root_len(es);
    let flagged = put32(raw, 0x20, FL_EXTENTS);
    lemma_area_apart(flagged, crate::inode_edit::root_with(es));
    let held = crate::inode_edit::with_block_area(flagged, crate::inode_edit::root_with(es));
    let sized = crate::inode_edit::with_size_and_blocks(held, v.bs() as u64, (v.bs() / 512) as u64);
    lemma_born(v, ino, sized, now, generation);
}

proof fn lemma_links_born(v: Vol, ino: u32, phys: u64, target: Seq<u8>, now: u32, generation: u32)
    requires
        v.wf(),
        0 < target.len() < 60,
    ensures
        ({
            let link = new_fast_symlink_inode(v, ino, target, now, generation);
            let long = new_slow_symlink_inode(v, ino, target.len() as int, phys, now, generation);
            &&& says_born(link, now, generation)
            &&& says_born(long, now, generation)
            &&& links_of(link) == 1
            &&& links_of(long) == 1
        }),
{
    let raw = put32(blank_inode(v, S_IFLNK | 0x1FF, 1), 0x04, target.len() as u32);
    let short = crate::bytes::splice(raw, 0x28, target);
    assert(links_of(short) == links_of(raw)) by {
        reveal(le16);
    }
    lemma_born(v, ino, short, now, generation);
    let es = seq![crate::inode_edit::first_block_extent(phys)];
    lemma_root_len(es);
    let flagged = put32(put32(raw, 0x1C, (v.bs() / 512) as u32), 0x20, FL_EXTENTS);
    lemma_area_apart(flagged, crate::inode_edit::root_with(es));
    lemma_born(v, ino, crate::inode_edit::with_block_area(flagged, crate::inode_edit::root_with(es)), now, generation);
}

} // verus!
