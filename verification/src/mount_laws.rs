//! What a mount makes of a device.
use crate::allocator::{group_blocks, group_first_block};
use crate::bgd::{inode_place, BlockGroupDescriptor};
use crate::books::books_apart;
use crate::bytes::{le16, le32};
use crate::checksum::{descriptor_crc, Checksummer};
use crate::error::Error;
use crate::features::WRITE_BREAKING_INCOMPAT;
use crate::fs::write_refusal;
use crate::journal_apply::replayed;
use crate::journal_laws::{carried_out, journal_stays, law_second_replay_finds_nothing};
use crate::mount::{all_descriptors, descriptors, journal_is_clean, mounted, opened};
use crate::orphan_laws::{dealt_with, law_recovery_deals_with_every_orphan, linked_from, records_apart};
use crate::orphans::{orphan_chain, recovered};
use crate::superblock::{is_power_of, lemma_div_ceil, Superblock};
use vstd::arithmetic::power::pow;
use vstd::prelude::*;

verus! {

/// Where the descriptor of a group starts: the descriptors follow each other
/// from the block behind the superblock's on.
pub open spec fn descriptor_start(sb: Superblock, gi: int) -> int {
    (sb.first_data_block + 1) * sb.bs() + gi * sb.desc_size
}

/// A descriptor says what the bytes from `at` on say. Only a descriptor of 64
/// bytes and more has high halves.
pub open spec fn says(g: BlockGroupDescriptor, img: Seq<u8>, at: int, size: int) -> bool {
    let high32 = |off: int|
        if size >= 64 {
            le32(img, at + off) as int
        } else {
            0
        };
    let high16 = |off: int|
        if size >= 64 {
            le16(img, at + off) as int
        } else {
            0
        };
    &&& g.block_bitmap == le32(img, at) + 0x1_0000_0000 * high32(0x20)
    &&& g.inode_bitmap == le32(img, at + 0x04) + 0x1_0000_0000 * high32(0x24)
    &&& g.inode_table == le32(img, at + 0x08) + 0x1_0000_0000 * high32(0x28)
    &&& g.free_blocks_count == le16(img, at + 0x0C) + 0x1_0000 * high16(0x2C)
    &&& g.free_inodes_count == le16(img, at + 0x0E) + 0x1_0000 * high16(0x2E)
    &&& g.used_dirs_count == le16(img, at + 0x10) + 0x1_0000 * high16(0x30)
    &&& g.flags == le16(img, at + 0x12)
    &&& g.itable_unused == le16(img, at + 0x1C) + 0x1_0000 * high16(0x32)
}

/// The descriptor of a group is on the device, and its checksum is right where
/// there are checksums.
pub open spec fn descriptor_good(img: Seq<u8>, sb: Superblock, csum: Checksummer, gi: int) -> bool {
    let at = descriptor_start(sb, gi);
    &&& at + sb.desc_size <= img.len()
    &&& csum.enabled ==> descriptor_crc(sb, csum, gi as u32, img.subrange(at, at + sb.desc_size)) == Some(
        le16(img, at + 0x1E),
    )
}

proof fn lemma_word_within(s: Seq<u8>, from: int, to: int, i: int)
    requires
        0 <= from,
        0 <= i,
        from + i + 4 <= to <= s.len(),
    ensures
        le32(s.subrange(from, to), i) == le32(s, from + i),
{
    reveal(le32);
}

proof fn lemma_half_within(s: Seq<u8>, from: int, to: int, i: int)
    requires
        0 <= from,
        0 <= i,
        from + i + 2 <= to <= s.len(),
    ensures
        le16(s.subrange(from, to), i) == le16(s, from + i),
{
    reveal(le16);
}

proof fn lemma_descriptor_says(img: Seq<u8>, at: int, size: int)
    requires
        0 <= at,
        32 <= size,
        at + size <= img.len(),
    ensures
        says(crate::bgd::descriptor_at(img.subrange(at, at + size), 0, size), img, at, size),
        le16(img.subrange(at, at + size), 0x1E) == le16(img, at + 0x1E),
{
    let to = at + size;
    lemma_word_within(img, at, to, 0);
    lemma_word_within(img, at, to, 4);
    lemma_word_within(img, at, to, 8);
    lemma_half_within(img, at, to, 0x0C);
    lemma_half_within(img, at, to, 0x0E);
    lemma_half_within(img, at, to, 0x10);
    lemma_half_within(img, at, to, 0x12);
    lemma_half_within(img, at, to, 0x1C);
    lemma_half_within(img, at, to, 0x1E);
    if size >= 64 {
        lemma_word_within(img, at, to, 0x20);
        lemma_word_within(img, at, to, 0x24);
        lemma_word_within(img, at, to, 0x28);
        lemma_half_within(img, at, to, 0x2C);
        lemma_half_within(img, at, to, 0x2E);
        lemma_half_within(img, at, to, 0x30);
        lemma_half_within(img, at, to, 0x32);
    }
}

proof fn lemma_groups_read(img: Seq<u8>, sb: Superblock, csum: Checksummer, n: nat)
    requires
        sb.wf(),
        n <= u32::MAX,
    ensures
        descriptors(img, sb, csum, n) is Ok <==> forall|gi: int|
            0 <= gi < n ==> #[trigger] descriptor_good(img, sb, csum, gi),
        descriptors(img, sb, csum, n) matches Ok(gs) ==> gs.len() == n && forall|gi: int|
            0 <= gi < n ==> says(#[trigger] gs[gi], img, descriptor_start(sb, gi), sb.desc_size as int),
    decreases n,
{
    if n > 0 {
        let m = (n - 1) as nat;
        lemma_groups_read(img, sb, csum, m);
        let at = descriptor_start(sb, m as int);
        assert(0 <= at) by (nonlinear_arith)
            requires
                at == (sb.first_data_block + 1) * sb.bs() + m * sb.desc_size,
                sb.bs() > 0,
        ;
        if at + sb.desc_size <= img.len() {
            lemma_descriptor_says(img, at, sb.desc_size as int);
        }
        assert(m as u32 == (n - 1) as u32);
        if descriptors(img, sb, csum, n) is Ok {
            assert forall|gi: int| 0 <= gi < n implies #[trigger] descriptor_good(img, sb, csum, gi) by {
                if gi < m {
                    assert(descriptor_good(img, sb, csum, gi));
                }
            }
            let gs = descriptors(img, sb, csum, n)->Ok_0;
            let before = descriptors(img, sb, csum, m)->Ok_0;
            assert forall|gi: int| 0 <= gi < n implies says(
                #[trigger] gs[gi],
                img,
                descriptor_start(sb, gi),
                sb.desc_size as int,
            ) by {
                if gi < m {
                    assert(gs[gi] == before[gi]);
                }
            }
        } else if forall|gi: int| 0 <= gi < n ==> #[trigger] descriptor_good(img, sb, csum, gi) {
            assert(descriptor_good(img, sb, csum, m as int));
            assert forall|gi: int| 0 <= gi < m implies #[trigger] descriptor_good(img, sb, csum, gi) by {
                assert(gi < n);
            }
        }
    }
}

/// A volume has as many groups as its blocks make, and each is what its
/// descriptor says. A mount gets past them exactly where every descriptor is on
/// the device and every checksum is right.
pub proof fn law_every_group_is_read(img: Seq<u8>, sb: Superblock, csum: Checksummer)
    requires
        sb.wf(),
        sb.group_count() <= u32::MAX,
    ensures
        all_descriptors(img, sb, csum) is Ok <==> forall|gi: int|
            0 <= gi < sb.group_count() ==> #[trigger] descriptor_good(img, sb, csum, gi),
        all_descriptors(img, sb, csum) matches Ok(gs) ==> gs.len() == sb.group_count() && forall|gi: int|
            0 <= gi < gs.len() ==> says(#[trigger] gs[gi], img, descriptor_start(sb, gi), sb.desc_size as int),
{
    let n = sb.blocks_count - sb.first_data_block;
    let d = sb.blocks_per_group as int;
    lemma_div_ceil(n, d);
    vstd::arithmetic::div_mod::lemma_div_pos_is_pos(n, d);
    lemma_groups_read(img, sb, csum, sb.group_count() as nat);
}

/// A device that takes no writes is as it was once it is mounted, and nothing
/// but its descriptors can stop the mount. One that takes writes is refused
/// where a write would break the volume.
pub proof fn law_read_only_mount_changes_nothing(img: Seq<u8>, sb: Superblock, put_off: bool, now: u32)
    ensures
        mounted(false, img, sb, put_off, now) is Ok <==> all_descriptors(img, sb, Checksummer::of(sb)) is Ok,
        mounted(false, img, sb, put_off, now) matches Ok(v) ==> v.img == img && v.sb == sb,
        sb.feature_incompat & WRITE_BREAKING_INCOMPAT != 0 ==> mounted(true, img, sb, put_off, now) is Err,
        mounted(true, img, sb, true, now) matches Ok(v) ==> v.img == img && v.sb == sb,
{
}

/// Once a device that takes writes is mounted, nothing is left of what the last
/// mount left behind: the journal is clean, and of the inodes that were on the
/// list of orphans those that nothing names are given back. The list is empty.
///
/// The journal is found where it was, and the records on the list are apart from
/// what is edited to give blocks back.
pub proof fn law_mount_deals_with_what_was_left(img: Seq<u8>, sb: Superblock, s: Seq<u32>, now: u32)
    requires
        opened(img, sb) is Ok,
        sb.feature_incompat & WRITE_BREAKING_INCOMPAT == 0,
        ({
            let v = opened(img, sb)->Ok_0;
            let v1 = replayed(true, v).0;
            &&& v.wf()
            &&& v1.wf()
            &&& replayed(true, v).1 is Ok
            &&& journal_stays(carried_out(v), v1)
            &&& books_apart(v1)
            &&& write_refusal(true, v1) is None
            &&& linked_from(v1, v1.sb.last_orphan, s)
            &&& s.len() <= v1.sb.inodes_count + 1
            &&& records_apart(v1, s)
            &&& recovered(true, v1, now).1 is Ok
        }),
    ensures
        ({
            let r = mounted(true, img, sb, false, now);
            let v1 = replayed(true, opened(img, sb)->Ok_0).0;
            let w = r->Ok_0;
            &&& r is Ok
            &&& journal_is_clean(v1)
            &&& dealt_with(v1, w, s, now)
            &&& orphan_chain(w) == Ok::<Seq<u32>, Error>(Seq::empty())
        }),
{
    let v = opened(img, sb)->Ok_0;
    law_second_replay_finds_nothing(true, v);
    law_recovery_deals_with_every_orphan(replayed(true, v).0, s, now);
}

// -- where things are -------------------------------------------------------

/// Where a record is, in bytes from the start of the device.
pub open spec fn record_start(sb: Superblock, at: (u64, u32)) -> int {
    at.0 * sb.bs() + at.1
}

/// The records of a group follow each other from the start of its inode table
/// on: the first inode of a group is at its start, and the next inode of the
/// same group is one record further.
pub proof fn law_records_follow_each_other(sb: Superblock, groups: Seq<BlockGroupDescriptor>, ino: u32, next: u32)
    requires
        sb.wf(),
        inode_place(sb, groups, ino) is Ok,
        inode_place(sb, groups, next) is Ok,
        next == ino + 1,
    ensures
        ({
            let a = inode_place(sb, groups, ino)->Ok_0;
            let b = inode_place(sb, groups, next)->Ok_0;
            let ipg = sb.inodes_per_group as int;
            &&& ino >= 1 && next <= sb.inodes_count
            &&& a.1 < sb.bs()
            &&& (ino as int) % ipg == 0 ==> b == (groups[ino as int / ipg].inode_table, 0u32)
            &&& (ino as int) % ipg != 0 ==> record_start(sb, b) == record_start(sb, a) + sb.inode_size
            &&& ino == 1 ==> a == (groups[0].inode_table, 0u32)
        }),
{
    let ipg = sb.inodes_per_group as int;
    let bs = sb.bs();
    let k = (ino - 1) % ipg;
    let gi = (ino - 1) / ipg;
    vstd::arithmetic::div_mod::lemma_fundamental_div_mod(ino - 1, ipg);
    vstd::arithmetic::div_mod::lemma_mod_bound(ino - 1, ipg);
    if k + 1 < ipg {
        vstd::arithmetic::div_mod::lemma_fundamental_div_mod_converse(ino as int, ipg, gi, k + 1);
    } else {
        assert(ipg * gi + ipg == ipg * (gi + 1)) by (nonlinear_arith);
        vstd::arithmetic::div_mod::lemma_fundamental_div_mod_converse(ino as int, ipg, gi + 1, 0);
    }
    let one = k * sb.inode_size;
    let two = (k + 1) * sb.inode_size;
    assert(two == one + sb.inode_size) by (nonlinear_arith)
        requires
            one == k * sb.inode_size,
            two == (k + 1) * sb.inode_size,
    ;
    assert(0 <= one) by (nonlinear_arith)
        requires
            one == k * sb.inode_size,
            k >= 0,
            sb.inode_size >= 0,
    ;
    lemma_at(groups[gi].inode_table as int, one, bs);
    lemma_at(groups[gi].inode_table as int, two, bs);
    assert(0 * sb.inode_size == 0) by (nonlinear_arith);
    vstd::arithmetic::div_mod::lemma_small_mod(0nat, bs as nat);
    vstd::arithmetic::div_mod::lemma_basic_div(0, bs);
    if ino == 1 {
        vstd::arithmetic::div_mod::lemma_small_mod(0nat, ipg as nat);
        vstd::arithmetic::div_mod::lemma_basic_div(0, ipg);
    }
}

proof fn lemma_at(table: int, byte: int, bs: int)
    requires
        bs > 0,
        0 <= byte,
    ensures
        (table + byte / bs) * bs + byte % bs == table * bs + byte,
        0 <= byte % bs < bs,
        0 <= byte / bs,
{
    vstd::arithmetic::div_mod::lemma_fundamental_div_mod(byte, bs);
    vstd::arithmetic::div_mod::lemma_mod_bound(byte, bs);
    vstd::arithmetic::div_mod::lemma_div_pos_is_pos(byte, bs);
    assert((table + byte / bs) * bs == table * bs + bs * (byte / bs)) by (nonlinear_arith);
}

/// The groups part the blocks of a volume: every block from the first on is in a
/// group, in one only, and no group has others.
pub proof fn law_groups_part_the_volume(sb: Superblock, b: int)
    requires
        sb.wf(),
    ensures
        sb.first_data_block <= b < sb.blocks_count <==> exists|gi: int|
            0 <= gi < sb.group_count() && group_first_block(sb, gi) <= b < #[trigger] group_first_block(sb, gi)
                + group_blocks(sb, gi),
        forall|x: int, y: int|
            0 <= x < y < sb.group_count() ==> #[trigger] group_first_block(sb, x) + group_blocks(sb, x)
                <= #[trigger] group_first_block(sb, y),
{
    let d = sb.blocks_per_group as int;
    let n = sb.blocks_count - sb.first_data_block;
    assert forall|x: int, y: int| 0 <= x < y < sb.group_count() implies #[trigger] group_first_block(sb, x)
        + group_blocks(sb, x) <= #[trigger] group_first_block(sb, y) by {
        crate::allocator::lemma_group_blocks(sb, x);
        assert(x * d + d <= y * d) by (nonlinear_arith)
            requires
                x + 1 <= y,
                d > 0,
        ;
    }
    if exists|gi: int|
        0 <= gi < sb.group_count() && group_first_block(sb, gi) <= b < #[trigger] group_first_block(sb, gi)
            + group_blocks(sb, gi) {
        let gi = choose|gi: int|
            0 <= gi < sb.group_count() && group_first_block(sb, gi) <= b < #[trigger] group_first_block(sb, gi)
                + group_blocks(sb, gi);
        crate::allocator::lemma_group_within(sb, gi);
        assert(0 <= gi * d) by (nonlinear_arith)
            requires
                0 <= gi,
                d > 0,
        ;
    }
    if sb.first_data_block <= b < sb.blocks_count {
        let k = b - sb.first_data_block;
        let gi = k / d;
        let q = n / d;
        let m = n % d;
        vstd::arithmetic::div_mod::lemma_fundamental_div_mod(k, d);
        vstd::arithmetic::div_mod::lemma_mod_bound(k, d);
        vstd::arithmetic::div_mod::lemma_div_pos_is_pos(k, d);
        vstd::arithmetic::div_mod::lemma_fundamental_div_mod(n, d);
        vstd::arithmetic::div_mod::lemma_mod_bound(n, d);
        lemma_div_ceil(n, d);
        assert(d * gi == gi * d) by (nonlinear_arith);
        assert(d * q == q * d) by (nonlinear_arith);
        assert(gi <= q) by (nonlinear_arith)
            requires
                gi * d <= n - 1,
                n < q * d + d,
                d > 0,
        ;
        if m == 0 {
            assert(gi < q) by (nonlinear_arith)
                requires
                    gi * d <= n - 1,
                    n == q * d,
                    d > 0,
            ;
        }
        assert(group_first_block(sb, gi) <= b < group_first_block(sb, gi) + group_blocks(sb, gi));
    }
}

/// What counts as a power of a number is one.
pub proof fn law_powers_are_powers(n: int, b: int)
    requires
        b > 1,
    ensures
        is_power_of(n, b) <==> exists|k: nat| n == #[trigger] pow(b, k),
    decreases n,
{
    if n <= 1 {
        if n == 1 {
            vstd::arithmetic::power::lemma_pow0(b);
            assert(n == pow(b, 0));
        } else {
            assert forall|k: nat| n != #[trigger] pow(b, k) by {
                vstd::arithmetic::power::lemma_pow_positive(b, k);
            }
        }
    } else {
        assert(0 <= n / b < n) by (nonlinear_arith)
            requires
                n > 1,
                b > 1,
        ;
        law_powers_are_powers(n / b, b);
        vstd::arithmetic::div_mod::lemma_fundamental_div_mod(n, b);
        if is_power_of(n, b) {
            let k = choose|k: nat| n / b == #[trigger] pow(b, k);
            reveal(pow);
            assert(n == pow(b, k + 1));
        }
        if exists|k: nat| n == #[trigger] pow(b, k) {
            let k = choose|k: nat| n == #[trigger] pow(b, k);
            if k == 0 {
                vstd::arithmetic::power::lemma_pow0(b);
            }
            reveal(pow);
            let p = pow(b, (k - 1) as nat);
            assert(n == b * p);
            assert(n == p * b + 0) by (nonlinear_arith)
                requires
                    n == b * p,
            ;
            vstd::arithmetic::div_mod::lemma_fundamental_div_mod_converse(n, b, p, 0);
        }
    }
}

} // verus!
