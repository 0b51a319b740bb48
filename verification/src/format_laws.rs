//! What a new filesystem counts free is free, and what it holds is not.
use crate::bitmap::{bit_set, lemma_with_bits, with_bits};
use crate::block_io::{block_at, read_range};
use crate::bytes::{join32_spec, le16, le32, put32, zeros};
use crate::checksum::{high16, low16, Checksummer};
use crate::error::Error;
use crate::mkfs::{
    block_map, desc_bytes, first_of, formatted, inode_map, label_field, log_of, mkfs_refusal, root_block_of,
    super_bare, super_bytes, super_features, super_head,
};
use crate::mkfs_laws::{
    law_formatted_volume_mounts, lemma_feature_fields, lemma_formatted_parts, lemma_head_fields, lemma_layout,
    lemma_le32_apart, lemma_structure_lens, lemma_super_fields, lemma_super_mountable,
};
use crate::mount::{all_descriptors, mounted, super_of};
use crate::mount_laws::{descriptor_start, law_every_group_is_read, says};
use crate::superblock::Superblock;
use vstd::prelude::*;

verus! {

broadcast use crate::bytes::group_fields;

/// How many of the first `n` bits of a bitmap are clear.
pub open spec fn clear_among(bm: Seq<u8>, n: int) -> int
    decreases n,
{
    if n <= 0 {
        0
    } else {
        clear_among(bm, n - 1) + (if bit_set(bm, n - 1) {
            0int
        } else {
            1
        })
    }
}

proof fn lemma_clear_behind(bm: Seq<u8>, k: int, n: int)
    requires
        0 <= k,
        0 <= n,
        forall|i: int| 0 <= i < n ==> (#[trigger] bit_set(bm, i) <==> i < k),
    ensures
        clear_among(bm, n) == (if n <= k {
            0
        } else {
            n - k
        }),
    decreases n,
{
    if n > 0 {
        lemma_clear_behind(bm, k, n - 1);
        assert(bit_set(bm, n - 1) <==> n - 1 < k);
    }
}

proof fn lemma_zero_bits(n: nat, i: int)
    ensures
        !bit_set(zeros(n), i),
{
    if 0 <= i < 8 * n {
        let k = (i % 8) as u8;
        assert(zeros(n)[i / 8] == 0);
        assert(0u8 & (1u8 << k) == 0) by (bit_vector);
    }
}

/// Which bits of a new block bitmap are set.
proof fn lemma_block_map(bs: u32, blocks: u64, i: int)
    requires
        log_of(bs) is Some,
        root_block_of(bs as int) + 1 < blocks,
        blocks <= 8 * bs,
        0 <= i < 8 * bs,
    ensures
        block_map(bs, blocks).len() == bs,
        bit_set(block_map(bs, blocks), i) <==> i <= root_block_of(bs as int) - first_of(bs as int) || i >= blocks
            - first_of(bs as int),
{
    let first = first_of(bs as int);
    let n = (root_block_of(bs as int) + 1 - first) as nat;
    lemma_layout(bs);
    let z = zeros(bs as nat);
    lemma_with_bits(z, 0, n, true);
    let one = with_bits(z, 0, n, true);
    lemma_with_bits(one, blocks - first, (8 * bs - (blocks - first)) as nat, true);
    lemma_zero_bits(bs as nat, i);
}

/// Which bits of a new inode bitmap are set.
proof fn lemma_inode_map(bs: u32, i: int)
    requires
        bs >= 1,
        0 <= i < 8 * bs,
    ensures
        bit_set(inode_map(bs), i) <==> i < 2,
{
    let k = (i % 8) as u8;
    let bm = inode_map(bs);
    assert(k < 8 ==> (3u8 & (1u8 << k) != 0 <==> k < 2)) by (bit_vector);
    assert(0u8 & (1u8 << k) == 0) by (bit_vector);
    if i < 8 {
        assert(bm[i / 8] == 3);
    } else {
        assert(bm[i / 8] == 0);
    }
}

/// The bitmaps of a new filesystem are read back.
proof fn lemma_bitmaps_read(img: Seq<u8>, size: u64, bs: u32, uuid: Seq<u8>, label: Seq<u8>)
    requires
        mkfs_refusal(true, size, bs) is None,
        size <= img.len(),
        uuid.len() == 16,
    ensures
        ({
            let t = formatted(img, size, bs, uuid, label);
            let blocks = (size / bs as u64) as u64;
            let first = first_of(bs as int);
            &&& block_at(t, bs as int, first + 2) == Ok::<Seq<u8>, Error>(block_map(bs, blocks))
            &&& block_at(t, bs as int, first + 3) == Ok::<Seq<u8>, Error>(inode_map(bs))
        }),
{
    let blocks = (size / bs as u64) as u64;
    let log = log_of(bs)->0;
    let first = first_of(bs as int);
    let root = root_block_of(bs as int);
    lemma_layout(bs);
    lemma_structure_lens(bs, log, blocks, uuid, label);
    assert(root * bs + bs <= size) by (nonlinear_arith)
        requires
            root + 1 < blocks,
            blocks == size / bs as u64,
            bs > 0,
    ;
    let t = formatted(img, size, bs, uuid, label);
    assert(t.subrange((first + 2) * bs, (first + 2) * bs + bs) =~= block_map(bs, blocks));
    assert(t.subrange((first + 3) * bs, (first + 3) * bs + bs) =~= inode_map(bs));
}

/// What a new superblock counts, and the label.
proof fn lemma_super_counts(bs: u32, log: u32, blocks: u64, uuid: Seq<u8>, label: Seq<u8>)
    requires
        log_of(bs) == Some(log),
        uuid.len() == 16,
        root_block_of(bs as int) + 1 < blocks,
    ensures
        ({
            let s = super_bytes(bs, log, blocks, uuid, label);
            &&& join32_spec(le32(s, 0x0C), le32(s, 0x158)) == blocks - root_block_of(bs as int) - 1
            &&& le32(s, 0x10) == 8190
            &&& label.len() <= 16 ==> s.subrange(0x78, 0x88).subrange(0, label.len() as int) == label
            &&& label.len() > 16 ==> s.subrange(0x78, 0x88) == label.subrange(0, 16)
        }),
{
    let free = (blocks - root_block_of(bs as int) - 1) as u64;
    let head = super_head(bs, log, blocks);
    let f = super_features(head, blocks, free);
    let s = super_bytes(bs, log, blocks, uuid, label);
    let bare = super_bare(bs, log, blocks, uuid, label);
    lemma_layout(bs);
    lemma_head_fields(bs, log, blocks);
    lemma_feature_fields(head, blocks, free);
    assert(label_field(label).len() <= 16);
    assert(bare.len() == 1024);
    assert(forall|k: int| 0 <= k < 0x68 || 0x88 <= k < 0x3FC ==> s[k] == f[k]);
    assert(le32(head, 0x0C) == crate::bytes::lo32(free));
    assert(le32(head, 0x10) == 8190);
    lemma_le32_apart(s, head, 0x0C);
    lemma_le32_apart(s, head, 0x10);
    lemma_high_free(head, blocks, free);
    lemma_le32_apart(s, f, 0x158);
    if label.len() <= 16 {
        assert(s.subrange(0x78, 0x88).subrange(0, label.len() as int) =~= label);
    } else {
        assert(s.subrange(0x78, 0x88) =~= label.subrange(0, 16));
    }
}

proof fn lemma_high_free(head: Seq<u8>, blocks: u64, free: u64)
    requires
        head.len() == 1024,
    ensures
        le32(super_features(head, blocks, free), 0x158) == crate::bytes::hi32(free),
{
    let f = super_features(head, blocks, free);
    let before = f.update(0x175, 0u8);
    assert(le32(f, 0x158) == crate::bytes::hi32(free)) by {
        reveal(le32);
        reveal(put32);
        reveal(crate::bytes::put16);
    }
}

/// What the one descriptor of a new filesystem counts.
proof fn lemma_descriptor_counts(bs: u32, blocks: u64, uuid: Seq<u8>)
    requires
        log_of(bs) is Some,
        root_block_of(bs as int) + 1 < blocks <= 8 * bs,
    ensures
        ({
            let d = desc_bytes(bs, blocks, uuid);
            &&& d.len() == 64
            &&& le32(d, 0x00) == first_of(bs as int) + 2
            &&& le32(d, 0x04) == first_of(bs as int) + 3
            &&& le32(d, 0x20) == 0
            &&& le32(d, 0x24) == 0
            &&& le16(d, 0x0C) + 0x1_0000 * le16(d, 0x2C) == blocks - root_block_of(bs as int) - 1
            &&& le16(d, 0x0E) == 8190
            &&& le16(d, 0x2E) == 0
            &&& le16(d, 0x10) == 1
            &&& le16(d, 0x30) == 0
        }),
{
    lemma_layout(bs);
    let z = zeros(64);
    let free = (blocks - root_block_of(bs as int) - 1) as u32;
    assert(le32(z, 0x20) == 0 && le32(z, 0x24) == 0 && le16(z, 0x2E) == 0 && le16(z, 0x30) == 0) by {
        reveal(le32);
        reveal(le16);
    }
    assert(low16(free) + 0x1_0000 * high16(free) == free);
}

/// A new filesystem counts free what its bitmaps have free: in its superblock and
/// in its one group. Every block up to the root directory's is taken, as are the
/// first two inodes, of which the second is the one directory. The identifier and
/// the label are the ones that were given, the label cut to sixteen bytes.
pub proof fn law_formatted_volume_counts_what_is_free(
    img: Seq<u8>,
    size: u64,
    bs: u32,
    uuid: Seq<u8>,
    label: Seq<u8>,
    now: u32,
    sb: Superblock,
)
    requires
        mkfs_refusal(true, size, bs) is None,
        size <= img.len() <= u64::MAX,
        uuid.len() == 16,
        super_of(sb, formatted(img, size, bs, uuid, label)),
    ensures
        ({
            let v = mounted(true, formatted(img, size, bs, uuid, label), sb, false, now)->Ok_0;
            let g = v.groups[0];
            let blocks = v.block(g.block_bitmap as int);
            let inodes = v.block(g.inode_bitmap as int);
            &&& blocks is Ok && inodes is Ok
            &&& clear_among(blocks->Ok_0, sb.blocks_count - sb.first_data_block) == sb.free_blocks_count
            &&& g.free_blocks_count == sb.free_blocks_count
            &&& clear_among(inodes->Ok_0, sb.inodes_count as int) == sb.free_inodes_count
            &&& g.free_inodes_count == sb.free_inodes_count
            &&& g.used_dirs_count == 1
            &&& forall|b: int|
                sb.first_data_block <= b <= root_block_of(bs as int) ==> #[trigger] bit_set(
                    blocks->Ok_0,
                    b - sb.first_data_block,
                )
            &&& bit_set(inodes->Ok_0, 0) && bit_set(inodes->Ok_0, 1)
            &&& sb.uuid@ == uuid
            &&& label.len() <= 16 ==> sb.volume_name@.subrange(0, label.len() as int) == label
            &&& label.len() > 16 ==> sb.volume_name@ == label.subrange(0, 16)
        }),
{
    let t = formatted(img, size, bs, uuid, label);
    let blocks = (size / bs as u64) as u64;
    let log = log_of(bs)->0;
    let first = first_of(bs as int);
    let root = root_block_of(bs as int);
    let raw = super_bytes(bs, log, blocks, uuid, label);
    law_formatted_volume_mounts(img, size, bs, uuid, label, true, false, now, sb);
    let v = mounted(true, t, sb, false, now)->Ok_0;
    lemma_layout(bs);
    lemma_formatted_parts(img, size, bs, uuid, label);
    lemma_bitmaps_read(img, size, bs, uuid, label);
    lemma_super_fields(bs, log, blocks, uuid, label);
    lemma_super_mountable(bs, log, blocks, uuid, label);
    lemma_super_counts(bs, log, blocks, uuid, label);
    lemma_descriptor_counts(bs, blocks, uuid);
    assert(sb.free_blocks_count == blocks - root - 1);
    assert(sb.free_inodes_count == 8190);
    let at = (first + 1) * bs;
    let d = desc_bytes(bs, blocks, uuid);
    lemma_first_group(t, sb, v.groups, at, d);
    let g = v.groups[0];
    let bm = block_map(bs, blocks);
    let im = inode_map(bs);
    assert(v.block(g.block_bitmap as int) == Ok::<Seq<u8>, Error>(bm));
    assert(v.block(g.inode_bitmap as int) == Ok::<Seq<u8>, Error>(im));
    assert forall|i: int| 0 <= i < blocks - first implies (#[trigger] bit_set(bm, i) <==> i < root + 1 - first) by {
        lemma_block_map(bs, blocks, i);
    }
    lemma_clear_behind(bm, root + 1 - first, blocks - first);
    assert forall|i: int| 0 <= i < 8192 implies (#[trigger] bit_set(im, i) <==> i < 2) by {
        lemma_inode_map(bs, i);
    }
    lemma_clear_behind(im, 2, 8192);
}

/// What the first descriptor's bytes say is what its group is.
proof fn lemma_first_group(
    t: Seq<u8>,
    sb: Superblock,
    groups: Seq<crate::bgd::BlockGroupDescriptor>,
    at: int,
    d: Seq<u8>,
)
    requires
        sb.wf(),
        sb.desc_size == 64,
        at == (sb.first_data_block + 1) * sb.bs(),
        read_range(t, at, 64) == Ok::<Seq<u8>, Error>(d),
        groups.len() == 1,
        all_descriptors(t, sb, Checksummer::of(sb)) == Ok::<Seq<crate::bgd::BlockGroupDescriptor>, Error>(groups),
    ensures
        groups[0].block_bitmap == le32(d, 0) + 0x1_0000_0000 * le32(d, 0x20),
        groups[0].inode_bitmap == le32(d, 4) + 0x1_0000_0000 * le32(d, 0x24),
        groups[0].free_blocks_count == le16(d, 0x0C) + 0x1_0000 * le16(d, 0x2C),
        groups[0].free_inodes_count == le16(d, 0x0E) + 0x1_0000 * le16(d, 0x2E),
        groups[0].used_dirs_count == le16(d, 0x10) + 0x1_0000 * le16(d, 0x30),
{
    assert(sb.group_count() <= u32::MAX);
    law_every_group_is_read(t, sb, Checksummer::of(sb));
    assert(descriptor_start(sb, 0) == at);
    assert(says(groups[0], t, at, 64));
    assert(forall|k: int| 0 <= k < 64 ==> d[k] == t[at + k]);
    reveal(le32);
    reveal(le16);
}

} // verus!
