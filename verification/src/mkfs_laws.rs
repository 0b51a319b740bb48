//! What a new filesystem is worth: it can be mounted, and its root is an empty
//! directory.
use crate::bgd::{descriptor_at, inode_place, BlockGroupDescriptor};
use crate::block_io::{block_at, read_range};
use crate::bytes::{hi32, le16, le32, lo32, put16, put32, splice, zeros};
use crate::checksum::{
    bytes32, descriptor_crc, law_stamped_inode_verifies, low16, raw_crc, superblock_crc_ok, Checksummer,
};
use crate::dir::{list_from, record_at, RecordView};
use crate::error::Error;
use crate::extent::{covering, extents_in};
use crate::features::{
    has, mountable, INCOMPAT_BIT64, INCOMPAT_CSUM_SEED, INCOMPAT_EXTENTS, INCOMPAT_FILETYPE, RO_COMPAT_METADATA_CSUM,
};
use crate::fs::{checked_inode, file_block, keeps_types, raw_inode};
use crate::inode::{block_area_of, links_of, mode_is_dir, mode_of, size_of_file, FL_EXTENTS};
use crate::inode_edit::{first_block_extent, root_with, with_block_area};
use crate::journal_apply::replayed;
use crate::mkfs::{
    block_map, desc_bare, desc_bytes, first_of, formatted, inode_map, inode_table, itable_of, label_field, log_of,
    mkfs_csum, mkfs_refusal, root_block_of, root_dir, root_record, super_bare, super_bytes, super_features,
    super_head,
};
use crate::mount::{all_descriptors, descriptor_place, descriptors, mounted, opened, super_of, super_refusal};
use crate::orphans::{orphan_chain, recovered};
use crate::superblock::{blocks_count_of, block_size_of, desc_size_of, inode_size_of, superblock_fault, Superblock};
use crate::volume::Vol;
use vstd::prelude::*;

verus! {

broadcast use crate::bytes::group_fields;

pub(crate) proof fn lemma_le32_apart(s: Seq<u8>, t: Seq<u8>, i: int)
    requires
        0 <= i,
        i + 4 <= s.len(),
        s.len() == t.len(),
        forall|k: int| i <= k < i + 4 ==> s[k] == t[k],
    ensures
        le32(s, i) == le32(t, i),
{
    reveal(le32);
}

pub(crate) proof fn lemma_le16_apart(s: Seq<u8>, t: Seq<u8>, i: int)
    requires
        0 <= i,
        i + 2 <= s.len(),
        s.len() == t.len(),
        forall|k: int| i <= k < i + 2 ==> s[k] == t[k],
    ensures
        le16(s, i) == le16(t, i),
{
    reveal(le16);
}

pub(crate) proof fn lemma_head_fields(bs: u32, log: u32, blocks: u64)
    requires
        log_of(bs) == Some(log),
    ensures
        ({
            let s = super_head(bs, log, blocks);
            &&& s.len() == 1024
            &&& le32(s, 0x00) == 8192
            &&& le32(s, 0x04) == lo32(blocks)
            &&& le32(s, 0x14) == first_of(bs as int)
            &&& le32(s, 0x18) == log
            &&& le32(s, 0x20) == 8 * bs
            &&& le32(s, 0x28) == 8192
            &&& le16(s, 0x38) == 0xEF53
            &&& le32(s, 0x5C) == 0
            &&& le32(s, 0xE0) == 0
            &&& le32(s, 0xE8) == 0
            &&& le32(s, 0x270) == 0
        }),
{
    let z = zeros(1024);
    assert(le32(z, 0x5C) == 0 && le32(z, 0xE0) == 0 && le32(z, 0xE8) == 0 && le32(z, 0x270) == 0) by {
        reveal(le32);
    }
}

pub(crate) proof fn lemma_feature_fields(head: Seq<u8>, blocks: u64, free: u64)
    requires
        head.len() == 1024,
    ensures
        ({
            let s = super_features(head, blocks, free);
            &&& s.len() == 1024
            &&& le32(s, 0x4C) == 1
            &&& le16(s, 0x58) == 256
            &&& le32(s, 0x60) == INCOMPAT_FILETYPE | INCOMPAT_EXTENTS | INCOMPAT_BIT64
            &&& le32(s, 0x64) == RO_COMPAT_METADATA_CSUM
            &&& le16(s, 0xFE) == 64
            &&& le32(s, 0x150) == hi32(blocks)
            &&& forall|k: int| 0 <= k < 0x4C ==> s[k] == head[k]
            &&& forall|k: int| 0x5C <= k < 0x60 ==> s[k] == head[k]
            &&& forall|k: int| 0xE0 <= k < 0xEC ==> s[k] == head[k]
            &&& forall|k: int| 0x270 <= k < 0x274 ==> s[k] == head[k]
        }),
{
    let s0 = put32(put32(head, 0x4C, 1), 0x54, 11);
    let s1 = put16(s0, 0x58, 256);
    let s2 = put32(s1, 0x60, INCOMPAT_FILETYPE | INCOMPAT_EXTENTS | INCOMPAT_BIT64);
    let s3 = put32(s2, 0x64, RO_COMPAT_METADATA_CSUM);
    let s4 = put32(put32(s3, 0xEC, 0xC1A2_B3C4), 0xF0, 0xD5E6_F7A8);
    let s5 = put32(put32(s4, 0xF4, 0xB9CA_DBEC), 0xF8, 0xFD0E_1F2A);
    let t5 = s5.update(0xFC, 1u8);
    assert(le32(s5, 0x4C) == 1 && le16(s5, 0x58) == 256);
    assert(le32(s5, 0x60) == INCOMPAT_FILETYPE | INCOMPAT_EXTENTS | INCOMPAT_BIT64);
    assert(le32(s5, 0x64) == RO_COMPAT_METADATA_CSUM);
    lemma_le32_apart(s5, t5, 0x4C);
    lemma_le16_apart(s5, t5, 0x58);
    lemma_le32_apart(s5, t5, 0x60);
    lemma_le32_apart(s5, t5, 0x64);
    let s6 = put16(t5, 0xFE, 64);
    let s7 = put32(put32(s6, 0x150, hi32(blocks)), 0x158, hi32(free));
    let s8 = put16(put16(s7, 0x15C, 32), 0x15E, 32);
    let s9 = put32(s8, 0x160, 1);
    let s10 = s9.update(0x175, 1u8);
    assert(le32(s9, 0x150) == hi32(blocks));
    lemma_le32_apart(s9, s10, 0x4C);
    lemma_le16_apart(s9, s10, 0x58);
    lemma_le32_apart(s9, s10, 0x60);
    lemma_le32_apart(s9, s10, 0x64);
    lemma_le16_apart(s9, s10, 0xFE);
    lemma_le32_apart(s9, s10, 0x150);
    assert(s10 == super_features(head, blocks, free));
}

/// What the fields of a new superblock say.
pub(crate) proof fn lemma_super_fields(bs: u32, log: u32, blocks: u64, uuid: Seq<u8>, label: Seq<u8>)
    requires
        log_of(bs) == Some(log),
        uuid.len() == 16,
    ensures
        ({
            let s = super_bytes(bs, log, blocks, uuid, label);
            &&& s.len() == 1024
            &&& le32(s, 0x00) == 8192
            &&& le32(s, 0x04) == lo32(blocks)
            &&& le32(s, 0x14) == first_of(bs as int)
            &&& le32(s, 0x18) == log
            &&& le32(s, 0x20) == 8 * bs
            &&& le32(s, 0x28) == 8192
            &&& le16(s, 0x38) == 0xEF53
            &&& le32(s, 0x4C) == 1
            &&& le16(s, 0x58) == 256
            &&& le32(s, 0x5C) == 0
            &&& le32(s, 0x60) == INCOMPAT_FILETYPE | INCOMPAT_EXTENTS | INCOMPAT_BIT64
            &&& le32(s, 0x64) == RO_COMPAT_METADATA_CSUM
            &&& s.subrange(0x68, 0x78) == uuid
            &&& le32(s, 0xE0) == 0
            &&& le32(s, 0xE8) == 0
            &&& le16(s, 0xFE) == 64
            &&& le32(s, 0x150) == hi32(blocks)
            &&& superblock_crc_ok(s)
        }),
{
    let free = (blocks - root_block_of(bs as int) - 1) as u64;
    let head = super_head(bs, log, blocks);
    let f = super_features(head, blocks, free);
    lemma_head_fields(bs, log, blocks);
    lemma_feature_fields(head, blocks, free);
    let bare = super_bare(bs, log, blocks, uuid, label);
    let s = super_bytes(bs, log, blocks, uuid, label);
    assert(label_field(label).len() <= 16);
    assert(bare.len() == 1024);
    assert(forall|k: int| 0 <= k < 0x68 || 0x88 <= k < 0x3FC ==> s[k] == f[k]);
    lemma_le32_apart(s, head, 0x00);
    lemma_le32_apart(s, head, 0x04);
    lemma_le32_apart(s, head, 0x14);
    lemma_le32_apart(s, head, 0x18);
    lemma_le32_apart(s, head, 0x20);
    lemma_le32_apart(s, head, 0x28);
    lemma_le16_apart(s, head, 0x38);
    lemma_le32_apart(s, f, 0x4C);
    lemma_le16_apart(s, f, 0x58);
    lemma_le32_apart(s, head, 0x5C);
    lemma_le32_apart(s, f, 0x60);
    lemma_le32_apart(s, f, 0x64);
    lemma_le32_apart(s, head, 0xE0);
    lemma_le32_apart(s, head, 0xE8);
    lemma_le16_apart(s, f, 0xFE);
    lemma_le32_apart(s, f, 0x150);
    assert(s.subrange(0x68, 0x78) =~= uuid);
    assert(s.subrange(0, 0x3FC) =~= bare.subrange(0, 0x3FC));
}

/// A new superblock can be mounted.
pub(crate) proof fn lemma_super_mountable(bs: u32, log: u32, blocks: u64, uuid: Seq<u8>, label: Seq<u8>)
    requires
        log_of(bs) == Some(log),
        uuid.len() == 16,
        first_of(bs as int) < blocks,
        blocks <= 8 * bs,
    ensures
        ({
            let s = super_bytes(bs, log, blocks, uuid, label);
            &&& superblock_fault(s) is None
            &&& mountable(le32(s, 0x60), le32(s, 0x64)) == Ok::<(), Error>(())
            &&& block_size_of(le32(s, 0x18)) == bs
            &&& inode_size_of(s) == 256
            &&& desc_size_of(s) == 64
            &&& blocks_count_of(s) == blocks
            &&& has(le32(s, 0x60), INCOMPAT_CSUM_SEED) == false
            &&& has(le32(s, 0x60), INCOMPAT_FILETYPE)
            &&& has(le32(s, 0x64), RO_COMPAT_METADATA_CSUM)
        }),
{
    lemma_super_fields(bs, log, blocks, uuid, label);
    assert((INCOMPAT_FILETYPE | INCOMPAT_EXTENTS | INCOMPAT_BIT64) & !crate::features::SUPPORTED_INCOMPAT == 0
        && RO_COMPAT_METADATA_CSUM & crate::features::READ_BREAKING_RO_COMPAT == 0 && (INCOMPAT_FILETYPE
        | INCOMPAT_EXTENTS | INCOMPAT_BIT64) & INCOMPAT_BIT64 != 0 && (INCOMPAT_FILETYPE | INCOMPAT_EXTENTS
        | INCOMPAT_BIT64) & INCOMPAT_CSUM_SEED == 0 && (INCOMPAT_FILETYPE | INCOMPAT_EXTENTS | INCOMPAT_BIT64)
        & INCOMPAT_FILETYPE != 0 && RO_COMPAT_METADATA_CSUM & RO_COMPAT_METADATA_CSUM != 0) by (bit_vector);
    let s = super_bytes(bs, log, blocks, uuid, label);
    assert(bs as int % 64 == 0);
    let (b, d) = (block_size_of(le32(s, 0x18)), desc_size_of(s) as int);
    assert(b == bs && d == 64);
    assert(b % d == 0) by (nonlinear_arith)
        requires
            d == 64,
            b == bs,
            bs as int % 64 == 0,
    ;
}

pub(crate) proof fn lemma_layout(bs: u32)
    requires
        log_of(bs) is Some,
    ensures
        itable_of(bs as int) * bs == 0x20_0000,
        root_block_of(bs as int) == first_of(bs as int) + 4 + itable_of(bs as int),
        (first_of(bs as int) + 4) * bs + 0x20_0000 == root_block_of(bs as int) * bs,
        (first_of(bs as int) + 1) * bs >= 2048,
        (first_of(bs as int) + 1) * bs >= bs,
        (first_of(bs as int) + 2) * bs == (first_of(bs as int) + 1) * bs + bs,
        (first_of(bs as int) + 3) * bs == (first_of(bs as int) + 2) * bs + bs,
        (first_of(bs as int) + 4) * bs == (first_of(bs as int) + 3) * bs + bs,
        1024 <= bs <= 65536,
{
    let first = first_of(bs as int);
    let it = itable_of(bs as int);
    let b = bs as int;
    assert(it * b == 0x20_0000) by (nonlinear_arith)
        requires
            it == 0x20_0000int / b,
            b == 1024 || b == 2048 || b == 4096 || b == 8192 || b == 16384 || b == 32768 || b == 65536,
    ;
    assert((first + 4 + it) * bs == (first + 4) * bs + it * bs) by (nonlinear_arith);
    assert((first + 2) * bs == (first + 1) * bs + bs && (first + 3) * bs == (first + 2) * bs + bs && (first + 4)
        * bs == (first + 3) * bs + bs) by (nonlinear_arith);
}

pub(crate) proof fn lemma_structure_lens(bs: u32, log: u32, blocks: u64, uuid: Seq<u8>, label: Seq<u8>)
    requires
        log_of(bs) == Some(log),
        uuid.len() == 16,
    ensures
        super_bytes(bs, log, blocks, uuid, label).len() == 1024,
        desc_bytes(bs, blocks, uuid).len() == 64,
        block_map(bs, blocks).len() == bs,
        inode_map(bs).len() == bs,
        root_record(bs, uuid).len() == 256,
        inode_table(bs, uuid).len() == 0x20_0000,
        root_dir(bs, uuid).len() == bs,
{
    lemma_layout(bs);
    lemma_super_fields(bs, log, blocks, uuid, label);
    let first = first_of(bs as int);
    let n = (root_block_of(bs as int) + 1 - first) as nat;
    crate::mkfs::lemma_with_bits_len(zeros(bs as nat), 0, n, true);
    crate::mkfs::lemma_with_bits_len(
        crate::bitmap::with_bits(zeros(bs as nat), 0, n, true),
        blocks - first,
        (8 * bs - (blocks - first)) as nat,
        true,
    );
    lemma_record_fields(bs, uuid);
}

/// What the root's record says.
proof fn lemma_record_fields(bs: u32, uuid: Seq<u8>)
    requires
        log_of(bs) is Some,
    ensures
        ({
            let r = root_record(bs, uuid);
            &&& r.len() == 256
            &&& le16(r, 0x00) == crate::mkfs::ROOT_MODE
            &&& le32(r, 0x04) == bs
            &&& le32(r, 0x6C) == 0
            &&& le16(r, 0x1A) == 2
            &&& le32(r, 0x20) == FL_EXTENTS
            &&& le32(r, 0x64) == 0
            &&& le16(r, 0x80) == 32
            &&& r.subrange(0x28, 0x64) == root_with(
                seq![first_block_extent(root_block_of(bs as int) as u64)],
            )
            &&& crate::checksum::inode_crc_ok(mkfs_csum(uuid).seed, 2, 0, r)
        }),
{
    let z = zeros(256);
    let a = root_with(seq![first_block_extent(root_block_of(bs as int) as u64)]);
    crate::extent_mut::lemma_node_len(
        crate::extent::ExtentHeader {
            magic: crate::extent::EXT4_EXT_MAGIC,
            entries: 0,
            max: 4,
            depth: 0,
            generation: 0,
        },
        seq![first_block_extent(root_block_of(bs as int) as u64)],
        60,
    );
    assert(a.len() == 60);
    let r0 = put16(put32(put16(z, 0x00, crate::mkfs::ROOT_MODE), 0x04, bs), 0x1A, 2);
    let r1 = put32(put32(r0, 0x1C, (bs / 512) as u32), 0x20, FL_EXTENTS);
    assert(le32(z, 0x6C) == 0 && le32(z, 0x64) == 0) by {
        reveal(le32);
    }
    assert(le32(r1, 0x6C) == 0 && le32(r1, 0x64) == 0);
    let r2 = with_block_area(r1, a);
    assert(r2 =~= splice(r1, 0x28, a));
    lemma_le16_apart(r2, r1, 0x00);
    lemma_le32_apart(r2, r1, 0x04);
    lemma_le16_apart(r2, r1, 0x1A);
    lemma_le32_apart(r2, r1, 0x20);
    lemma_le32_apart(r2, r1, 0x6C);
    lemma_le32_apart(r2, r1, 0x64);
    let r3 = put16(r2, 0x80, 32);
    let c = mkfs_csum(uuid);
    let r = c.stamp_inode_spec(2, 0, r3);
    law_stamped_inode_verifies(c, 2, 0, r3);
    assert(r == root_record(bs, uuid));
    assert(forall|k: int| 0 <= k < 0x7C ==> r[k] == r3[k]);
    assert(r.subrange(0x28, 0x64) =~= a);
}

/// Where the structures of a new filesystem are read back.
pub(crate) proof fn lemma_formatted_parts(img: Seq<u8>, size: u64, bs: u32, uuid: Seq<u8>, label: Seq<u8>)
    requires
        mkfs_refusal(true, size, bs) is None,
        size <= img.len(),
        uuid.len() == 16,
    ensures
        ({
            let t = formatted(img, size, bs, uuid, label);
            let blocks = (size / bs as u64) as u64;
            let first = first_of(bs as int);
            &&& t.len() == img.len()
            &&& read_range(t, 1024, 1024) == Ok::<Seq<u8>, Error>(
                super_bytes(bs, log_of(bs)->0, blocks, uuid, label),
            )
            &&& read_range(t, (first + 1) * bs, 64) == Ok::<Seq<u8>, Error>(desc_bytes(bs, blocks, uuid))
            &&& block_at(t, bs as int, first + 4) == Ok::<Seq<u8>, Error>(
                inode_table(bs, uuid).subrange(0, bs as int),
            )
            &&& block_at(t, bs as int, root_block_of(bs as int)) == Ok::<Seq<u8>, Error>(root_dir(bs, uuid))
        }),
{
    let blocks = (size / bs as u64) as u64;
    let log = log_of(bs)->0;
    let first = first_of(bs as int);
    let root = root_block_of(bs as int);
    lemma_layout(bs);
    lemma_structure_lens(bs, log, blocks, uuid, label);
    assert(root * bs + bs <= size) by (nonlinear_arith)
        requires
            root + 1 < blocks,
            blocks == size / bs as u64,
            bs > 0,
    ;
    let sb = super_bytes(bs, log, blocks, uuid, label);
    let d = desc_bytes(bs, blocks, uuid);
    let t = formatted(img, size, bs, uuid, label);
    assert(t.subrange(1024, 2048) =~= sb);
    assert(t.subrange((first + 1) * bs, (first + 1) * bs + 64) =~= d);
    assert(t.subrange((first + 4) * bs, (first + 4) * bs + bs) =~= inode_table(bs, uuid).subrange(
        0,
        bs as int,
    ));
    assert(t.subrange(root * bs, root * bs + bs) =~= root_dir(bs, uuid));
}

/// The one descriptor of a new filesystem verifies, and says where things are.
proof fn lemma_descriptor(bs: u32, blocks: u64, uuid: Seq<u8>)
    requires
        log_of(bs) is Some,
    ensures
        ({
            let d = desc_bytes(bs, blocks, uuid);
            &&& d.len() == 64
            &&& le16(d, 0x1E) == low16(raw_crc(raw_crc(mkfs_csum(uuid).seed, bytes32(0)), put16(d, 0x1E, 0)))
            &&& descriptor_at(d, 0, 64).inode_table == first_of(bs as int) + 4
            &&& descriptor_at(d, 0, 64).block_bitmap == first_of(bs as int) + 2
            &&& descriptor_at(d, 0, 64).inode_bitmap == first_of(bs as int) + 3
            &&& descriptor_at(d, 0, 64).flags == 0
        }),
{
    let z = zeros(64);
    let bare = desc_bare(bs, blocks);
    let d = desc_bytes(bs, blocks, uuid);
    assert(le32(z, 0x20) == 0 && le32(z, 0x24) == 0 && le32(z, 0x28) == 0 && le16(z, 0x12) == 0) by {
        reveal(le32);
        reveal(le16);
    }
    assert(bare.len() == 64);
    assert(bare[0x1E] == 0 && bare[0x1F] == 0);
    assert(put16(d, 0x1E, 0) =~= bare) by {
        reveal(put16);
    }
}

/// The root directory lists itself twice, and nothing else.
proof fn lemma_root_lists(bs: u32, uuid: Seq<u8>)
    requires
        log_of(bs) is Some,
    ensures
        list_from(root_dir(bs, uuid), 0, true) == Ok::<Seq<RecordView>, Error>(
            seq![
                RecordView { inode: 2, rec_len: 12, name: seq![0x2Eu8], file_type: 2 },
                RecordView { inode: 2, rec_len: bs - 24, name: seq![0x2Eu8, 0x2Eu8], file_type: 2 },
            ],
        ),
{
    let b = root_dir(bs, uuid);
    let n = bs as int;
    let dot = put16(put32(zeros(bs as nat), 0, 2), 4, 12).update(6, 1u8).update(7, 2u8).update(8, 0x2Eu8);
    let both = put16(put32(dot, 12, 2), 16, (bs - 24) as u16).update(18, 2u8).update(19, 2u8).update(
        20,
        0x2Eu8,
    ).update(21, 0x2Eu8);
    assert(le32(b, 0) == 2 && le16(b, 4) == 12 && b[6] == 1 && b[7] == 2 && b[8] == 0x2E && le32(b, 12) == 2
        && le16(b, 16) == bs - 24 && b[18] == 2 && b[19] == 2 && b[20] == 0x2E && b[21] == 0x2E && le32(b, n - 12)
        == 0 && le16(b, n - 8) == 12 && b[n - 6] == 0) by {
        reveal(le16);
        reveal(le32);
        reveal(put16);
        reveal(put32);
    }
    assert(b.len() == n);
    let one = RecordView { inode: 2, rec_len: 12, name: seq![0x2Eu8], file_type: 2 };
    let two = RecordView { inode: 2, rec_len: bs - 24, name: seq![0x2Eu8, 0x2Eu8], file_type: 2 };
    assert(b.subrange(8, 9) =~= seq![0x2Eu8]);
    assert(b.subrange(20, 22) =~= seq![0x2Eu8, 0x2Eu8]);
    assert(record_at(b, 0, n, true) == Ok::<RecordView, Error>(one));
    assert(record_at(b, 12, n, true) == Ok::<RecordView, Error>(two));
    assert(record_at(b, n - 12, n, true) is Ok && record_at(b, n - 12, n, true)->Ok_0.inode == 0 && record_at(
        b,
        n - 12,
        n,
        true,
    )->Ok_0.rec_len == 12);
    reveal_with_fuel(list_from, 5);
    assert(list_from(b, n, true) == Ok::<Seq<RecordView>, Error>(Seq::empty()));
    assert(list_from(b, n - 12, true) == Ok::<Seq<RecordView>, Error>(Seq::empty()));
    assert(list_from(b, 12, true) == Ok::<Seq<RecordView>, Error>(seq![two] + Seq::<RecordView>::empty()));
    assert(seq![two] + Seq::<RecordView>::empty() =~= seq![two]);
    assert(seq![one] + seq![two] =~= seq![one, two]);
}

/// A new filesystem can be mounted, read-only or for writing: nothing is
/// replayed or reclaimed, its root is a sound directory with two links, and
/// the root's one block lists `.` and `..` alone.
pub proof fn law_formatted_volume_mounts(
    img: Seq<u8>,
    size: u64,
    bs: u32,
    uuid: Seq<u8>,
    label: Seq<u8>,
    writable: bool,
    put_off: bool,
    now: u32,
    sb: Superblock,
)
    requires
        mkfs_refusal(true, size, bs) is None,
        size <= img.len() <= u64::MAX,
        uuid.len() == 16,
    ensures
        ({
            let t = formatted(img, size, bs, uuid, label);
            &&& super_refusal(t) is None
            &&& super_of(sb, t) ==> ({
                &&& mounted(writable, t, sb, put_off, now) is Ok
                &&& ({
                    let v = mounted(writable, t, sb, put_off, now)->Ok_0;
                    &&& v.img == t
                    &&& v.sb == sb
                    &&& v.bs() == bs
                    &&& sb.blocks_count == size / bs as u64
                    &&& v.groups.len() == 1
                    &&& checked_inode(v, 2) == Ok::<Seq<u8>, Error>(root_record(bs, uuid))
                    &&& mode_is_dir(mode_of(root_record(bs, uuid)))
                    &&& links_of(root_record(bs, uuid)) == 2
                    &&& size_of_file(root_record(bs, uuid)) == bs
                    &&& file_block(v, root_record(bs, uuid), 0) == Ok::<Option<u64>, Error>(
                        Some(root_block_of(bs as int) as u64),
                    )
                    &&& v.block(root_block_of(bs as int)) == Ok::<Seq<u8>, Error>(root_dir(bs, uuid))
                    &&& list_from(root_dir(bs, uuid), 0, keeps_types(v)) == Ok::<Seq<RecordView>, Error>(
                        seq![
                            RecordView { inode: 2, rec_len: 12, name: seq![0x2Eu8], file_type: 2 },
                            RecordView {
                                inode: 2,
                                rec_len: bs - 24,
                                name: seq![0x2Eu8, 0x2Eu8],
                                file_type: 2,
                            },
                        ],
                    )
                })
            })
        }),
{
    let t = formatted(img, size, bs, uuid, label);
    let blocks = (size / bs as u64) as u64;
    let log = log_of(bs)->0;
    let first = first_of(bs as int);
    let raw = super_bytes(bs, log, blocks, uuid, label);
    lemma_layout(bs);
    lemma_formatted_parts(img, size, bs, uuid, label);
    lemma_super_fields(bs, log, blocks, uuid, label);
    lemma_super_mountable(bs, log, blocks, uuid, label);
    assert(super_refusal(t) is None);
    if super_of(sb, t) {
        let csum = Checksummer::of(sb);
        assert(sb.uuid@ == uuid);
        assert(csum == mkfs_csum(uuid));
        assert(sb.bs() == bs);
        lemma_descriptor(bs, blocks, uuid);
        let d = desc_bytes(bs, blocks, uuid);
        let g = descriptor_at(d, 0, 64);
        assert(sb.group_count() == 1) by {
            let n = blocks - first;
            let per = 8 * bs as int;
            assert((n + per - 1) / per == 1) by (nonlinear_arith)
                requires
                    0 < n <= per,
            ;
        }
        assert(descriptor_place(sb, 0) == (first + 1) * bs);
        reveal_with_fuel(descriptors, 2);
        assert(descriptor_crc(sb, csum, 0, d) == Some(le16(d, 0x1E)));
        assert(Seq::<BlockGroupDescriptor>::empty().push(g) =~= seq![g]);
        assert(all_descriptors(t, sb, csum) == Ok::<Seq<BlockGroupDescriptor>, Error>(seq![g]));
        let v = Vol { img: t, sb, groups: seq![g], csum };
        assert(opened(t, sb) == Ok::<Vol, Error>(v));
        lemma_breaks_nothing();
        assert(sb.journal_inode == 0 && sb.last_orphan == 0);
        assert(replayed(writable, v) == (v, Ok::<usize, Error>(0)));
        assert(orphan_chain(v) == Ok::<Seq<u32>, Error>(Seq::empty()));
        assert(recovered(writable, v, now).0 == v);
        assert(mounted(writable, t, sb, put_off, now) == Ok::<Vol, Error>(v));
        lemma_root_sound(v, bs, uuid, g);
        lemma_root_lists(bs, uuid);
    }
}

proof fn lemma_breaks_nothing()
    ensures
        (INCOMPAT_FILETYPE | INCOMPAT_EXTENTS | INCOMPAT_BIT64) & crate::features::WRITE_BREAKING_INCOMPAT == 0,
{
    assert((INCOMPAT_FILETYPE | INCOMPAT_EXTENTS | INCOMPAT_BIT64) & crate::features::WRITE_BREAKING_INCOMPAT == 0)
        by (bit_vector);
}

proof fn lemma_root_sound(v: Vol, bs: u32, uuid: Seq<u8>, g: BlockGroupDescriptor)
    requires
        log_of(bs) is Some,
        v.bs() == bs,
        v.sb.inode_size == 256,
        v.sb.inodes_per_group == 8192,
        v.sb.inodes_count == 8192,
        v.sb.blocks_count > 0,
        v.csum == mkfs_csum(uuid),
        v.groups == seq![g],
        g.inode_table == first_of(bs as int) + 4,
        block_at(v.img, bs as int, first_of(bs as int) + 4) == Ok::<Seq<u8>, Error>(
            inode_table(bs, uuid).subrange(0, bs as int),
        ),
        uuid.len() == 16,
    ensures
        checked_inode(v, 2) == Ok::<Seq<u8>, Error>(root_record(bs, uuid)),
        mode_is_dir(mode_of(root_record(bs, uuid))),
        links_of(root_record(bs, uuid)) == 2,
        size_of_file(root_record(bs, uuid)) == bs,
        file_block(v, root_record(bs, uuid), 0) == Ok::<Option<u64>, Error>(
            Some(root_block_of(bs as int) as u64),
        ),
{
    let r = root_record(bs, uuid);
    let first = first_of(bs as int);
    lemma_layout(bs);
    lemma_record_fields(bs, uuid);
    let gi = (2u32 - 1) / v.sb.inodes_per_group as int;
    assert(gi == 0);
    assert(((2u32 - 1) % v.sb.inodes_per_group as int) * v.sb.inode_size == 256);
    assert(256int / v.bs() == 0 && 256int % v.bs() == 256) by (nonlinear_arith)
        requires
            v.bs() >= 1024,
    ;
    assert(inode_place(v.sb, v.groups, 2) == Ok::<(u64, u32), Error>(((first + 4) as u64, 256u32)));
    assert(inode_table(bs, uuid).subrange(0, bs as int).subrange(256, 512) =~= r);
    assert(raw_inode(v, 2) == Ok::<Seq<u8>, Error>(r));
    assert(crate::mkfs::ROOT_MODE & crate::inode::S_IFMT == crate::inode::S_IFDIR) by (bit_vector);
    assert(v.sb.blocks_count * v.bs() >= v.bs()) by (nonlinear_arith)
        requires
            v.sb.blocks_count >= 1,
            v.bs() >= 0,
    ;
    assert(checked_inode(v, 2) == Ok::<Seq<u8>, Error>(r));
    let e = first_block_extent(root_block_of(bs as int) as u64);
    let h = crate::extent::ExtentHeader {
        magic: crate::extent::EXT4_EXT_MAGIC,
        entries: 0,
        max: 4,
        depth: 0,
        generation: 0,
    };
    crate::extent_mut::law_node_round_trip(h, seq![e], 60);
    let area = block_area_of(r);
    assert(area =~= r.subrange(0x28, 0x64));
    assert(FL_EXTENTS & FL_EXTENTS != 0) by (bit_vector);
    assert(extents_in(area, 1) == seq![e]);
    assert(seq![e][0] == e);
    assert(e.covers(0));
    assert(covering(seq![e], 0) == Some(e));
}

} // verus!
