//! What staging an allocation does to which blocks are in use.
use crate::allocator::{group_blocks, group_first_block, mark_runs, metadata_runs, searched_bitmap};
use crate::bgd::{BlockGroupDescriptor, BLOCK_UNINIT};
use crate::bitmap::{bit_free, bit_set, lemma_with_bits, with_bits};
use crate::block_io::{block_at, lemma_with_block};
use crate::bytes::{le16, put16, zeros};
use crate::checksum::raw_crc;
use crate::commit::{committed, lemma_published_keeps, lemma_published_len, published};
use crate::content_laws::in_use;
use crate::error::Error;
use crate::grow::bitmaps_of;
use crate::stage::{
    bitmap_covered, bitmap_stamped, counted, desc_block, desc_off, group_of_block, lemma_desc_place, marking_base,
    stage_bitmap_csum, stage_clear_uninit, stage_counters, stage_mark_blocks,
};
use crate::superblock::Superblock;
use crate::volume::{stage_block, Stage, Vol};
use vstd::prelude::*;

verus! {

broadcast use crate::bytes::group_fields;

/// No block bitmap shares its block with another, or with a descriptor.
pub open spec fn tables_apart(v: Vol) -> bool {
    &&& forall|gi: int, gj: int|
        0 <= gi < v.groups.len() && 0 <= gj < v.groups.len() && gi != gj ==> (#[trigger] v.groups[gi]).block_bitmap != (
        #[trigger] v.groups[gj]).block_bitmap
    &&& forall|gi: int, gj: int|
        0 <= gi < v.groups.len() && 0 <= gj < v.groups.len() ==> (#[trigger] v.groups[gi]).block_bitmap
            != #[trigger] desc_block(v.sb, gj)
}

/// The flags word of group `gi`'s descriptor, as it is on the image.
pub open spec fn disk_flags(v: Vol, img: Seq<u8>, gi: int) -> Option<u16> {
    match block_at(img, v.bs(), desc_block(v.sb, gi)) {
        Ok(b) => Some(le16(b, desc_off(v.sb, gi) + 0x12)),
        Err(_) => None,
    }
}

/// The snapshot of the groups says of each block bitmap whether it was ever
/// written, as the descriptor does.
pub open spec fn flags_agree(v: Vol) -> bool {
    forall|gi: int|
        0 <= gi < v.groups.len() ==> ((#[trigger] disk_flags(v, v.img, gi)) matches Some(f) ==> (f & BLOCK_UNINIT
            != 0) == v.groups[gi].blocks_uninit())
}

/// Two descriptors in one block do not overlap.
pub(crate) proof fn lemma_desc_apart(sb: Superblock, gi: int, gj: int)
    requires
        sb.wf(),
        0 <= gi <= u32::MAX,
        0 <= gj <= u32::MAX,
        gi != gj,
        desc_block(sb, gi) == desc_block(sb, gj),
    ensures
        desc_off(sb, gi) + sb.desc_size <= desc_off(sb, gj) || desc_off(sb, gj) + sb.desc_size <= desc_off(sb, gi),
{
    let ds = sb.desc_size as int;
    let bs = sb.bs();
    vstd::arithmetic::div_mod::lemma_fundamental_div_mod(gi * ds, bs);
    vstd::arithmetic::div_mod::lemma_fundamental_div_mod(gj * ds, bs);
    assert(desc_off(sb, gi) - desc_off(sb, gj) == gi * ds - gj * ds);
    if gi < gj {
        assert(gi * ds + ds <= gj * ds) by (nonlinear_arith)
            requires
                gi + 1 <= gj,
                ds > 0,
        ;
    } else {
        assert(gj * ds + ds <= gi * ds) by (nonlinear_arith)
            requires
                gj + 1 <= gi,
                ds > 0,
        ;
    }
}

/// A descriptor edited in place: the others' flags stay as they were, and so
/// does every other block.
proof fn lemma_desc_edit(v: Vol, st: Stage, gi: int, b2: Seq<u8>)
    requires
        v.wf(),
        0 <= gi < v.groups.len(),
        block_at(st.img, v.bs(), desc_block(v.sb, gi)) is Ok,
        ({
            let b = block_at(st.img, v.bs(), desc_block(v.sb, gi))->Ok_0;
            let off = desc_off(v.sb, gi);
            b2.len() == b.len() && forall|j: int|
                0 <= j < b.len() && !(off <= j < off + v.sb.desc_size) ==> b2[j] == b[j]
        }),
    ensures
        ({
            let after = stage_block(v, st, desc_block(v.sb, gi), b2);
            &&& after.img.len() == st.img.len()
            &&& forall|k: int|
                k >= 0 && k != desc_block(v.sb, gi) ==> #[trigger] block_at(after.img, v.bs(), k) == block_at(
                    st.img,
                    v.bs(),
                    k,
                )
            &&& block_at(after.img, v.bs(), desc_block(v.sb, gi)) == Ok::<Seq<u8>, Error>(b2)
            &&& disk_flags(v, after.img, gi) == Some(le16(b2, desc_off(v.sb, gi) + 0x12))
            &&& forall|gj: int|
                0 <= gj < v.groups.len() && gj != gi ==> #[trigger] disk_flags(v, after.img, gj) == disk_flags(
                    v,
                    st.img,
                    gj,
                )
        }),
{
    let n = desc_block(v.sb, gi);
    let b = block_at(st.img, v.bs(), n)->Ok_0;
    let after = stage_block(v, st, n, b2);
    lemma_desc_place(v.sb, gi);
    assert forall|k: int| k >= 0 implies #[trigger] block_at(after.img, v.bs(), k) == (if k == n {
        Ok(b2)
    } else {
        block_at(st.img, v.bs(), k)
    }) by {
        lemma_with_block(st.img, v.bs(), n, b2, k);
    }
    lemma_with_block(st.img, v.bs(), n, b2, n);
    assert(block_at(after.img, v.bs(), n) == Ok::<Seq<u8>, Error>(b2));
    assert forall|gj: int| 0 <= gj < v.groups.len() && gj != gi implies #[trigger] disk_flags(v, after.img, gj)
        == disk_flags(v, st.img, gj) by {
        lemma_desc_place(v.sb, gj);
        assert(block_at(after.img, v.bs(), desc_block(v.sb, gj)) == (if desc_block(v.sb, gj) == n {
            Ok(b2)
        } else {
            block_at(st.img, v.bs(), desc_block(v.sb, gj))
        }));
        if desc_block(v.sb, gj) == n {
            lemma_desc_apart(v.sb, gi, gj);
            let at = desc_off(v.sb, gj) + 0x12;
            assert(b2[at] == b[at] && b2[at + 1] == b[at + 1]);
            assert(le16(b2, at) == le16(b, at)) by {
                reveal(le16);
            }
        }
    }
}

proof fn lemma_counted(v: Vol, b: Seq<u8>, off: int, gi: int, fb: int, fi: int, ud: int)
    requires
        v.wf(),
        0 <= off,
        off + v.sb.desc_size <= b.len(),
    ensures
        counted(v, b, off, gi, fb, fi, ud).len() == b.len(),
        le16(counted(v, b, off, gi, fb, fi, ud), off + 0x12) == le16(b, off + 0x12),
        forall|j: int|
            0 <= j < b.len() && !(off <= j < off + v.sb.desc_size) ==> counted(v, b, off, gi, fb, fi, ud)[j] == b[j],
{
}

proof fn lemma_stamped(v: Vol, b: Seq<u8>, off: int, gi: int, inodes: bool, crc: u32)
    requires
        v.wf(),
        0 <= off,
        off + v.sb.desc_size <= b.len(),
    ensures
        bitmap_stamped(v, b, off, gi, inodes, crc).len() == b.len(),
        le16(bitmap_stamped(v, b, off, gi, inodes, crc), off + 0x12) == le16(b, off + 0x12),
        forall|j: int|
            0 <= j < b.len() && !(off <= j < off + v.sb.desc_size) ==> bitmap_stamped(v, b, off, gi, inodes, crc)[j]
                == b[j],
{
}

/// The bitmaps that count are those of the volume before, so what is in use
/// stays so.
pub(crate) proof fn lemma_in_use_same(v: Vol, w: Vol, n: int)
    requires
        w.sb == v.sb,
        w.groups == v.groups,
        forall|gi: int|
            0 <= gi < v.groups.len() ==> block_at(w.img, v.bs(), (#[trigger] v.groups[gi]).block_bitmap as int)
                == block_at(v.img, v.bs(), v.groups[gi].block_bitmap as int),
        in_use(v, n),
    ensures
        in_use(w, n),
{
    assert forall|gi: int|
        0 <= gi < w.groups.len() && group_first_block(w.sb, gi) <= n < group_first_block(w.sb, gi) + group_blocks(
            w.sb,
            gi,
        ) && (#[trigger] searched_bitmap(w.sb, w.groups, gi, bitmaps_of(w))) is Ok implies !bit_free(
        searched_bitmap(w.sb, w.groups, gi, bitmaps_of(w))->Ok_0,
        n - group_first_block(w.sb, gi),
    ) by {
        let g = v.groups[gi];
        assert(searched_bitmap(v.sb, v.groups, gi, bitmaps_of(v)) == searched_bitmap(w.sb, w.groups, gi, bitmaps_of(w)));
    }
}

/// Moving a group's counters leaves the flags, and what is in use, as they
/// were.
pub(crate) proof fn lemma_counters_keep(v: Vol, st: Stage, gi: int, fb: int, fi: int, ud: int)
    requires
        v.wf(),
        0 <= gi < v.groups.len(),
        tables_apart(v),
        flags_agree(committed(v, st)),
        stage_counters(v, st, gi, fb, fi, ud) is Ok,
    ensures
        ({
            let after = stage_counters(v, st, gi, fb, fi, ud)->Ok_0;
            &&& after.img.len() == st.img.len()
            &&& flags_agree(committed(v, after))
            &&& forall|n: int| in_use(committed(v, st), n) ==> #[trigger] in_use(committed(v, after), n)
            &&& forall|k: int|
                k >= 0 && k != desc_block(v.sb, gi) ==> #[trigger] block_at(after.img, v.bs(), k) == block_at(
                    st.img,
                    v.bs(),
                    k,
                )
        }),
{
    let after = stage_counters(v, st, gi, fb, fi, ud)->Ok_0;
    let b = block_at(st.img, v.bs(), desc_block(v.sb, gi))->Ok_0;
    let off = desc_off(v.sb, gi);
    lemma_desc_place(v.sb, gi);
    lemma_counted(v, b, off, gi, fb, fi, ud);
    lemma_desc_edit(v, st, gi, counted(v, b, off, gi, fb, fi, ud));
    lemma_published_len(v.groups, st.cleared);
    assert(disk_flags(v, st.img, gi) == Some(le16(b, off + 0x12)));
    let w = committed(v, st);
    let w2 = committed(v, after);
    assert forall|gj: int| 0 <= gj < w2.groups.len() implies ((#[trigger] disk_flags(w2, w2.img, gj)) matches Some(f)
        ==> (f & BLOCK_UNINIT != 0) == w2.groups[gj].blocks_uninit()) by {
        assert(disk_flags(w2, w2.img, gj) == disk_flags(v, after.img, gj));
        assert(disk_flags(w, w.img, gj) == disk_flags(v, st.img, gj));
    }
    assert forall|n: int| in_use(w, n) implies #[trigger] in_use(w2, n) by {
        assert forall|gj: int| 0 <= gj < w.groups.len() implies block_at(
            w2.img,
            v.bs(),
            (#[trigger] w.groups[gj]).block_bitmap as int,
        ) == block_at(w.img, v.bs(), w.groups[gj].block_bitmap as int) by {
            lemma_published_keeps(v.groups, st.cleared, gj);
            let g = v.groups[gj];
            let d = desc_block(v.sb, gi);
        }
        lemma_in_use_same(w, w2, n);
    }
}

/// Marking further sets no fewer bits.
proof fn lemma_mark_further(bm: Seq<u8>, runs: Seq<(u64, u64)>, a: int, b: int, j: int)
    requires
        a <= b,
        bit_free(mark_runs(bm, runs, b), j),
    ensures
        bit_free(mark_runs(bm, runs, a), j),
    decreases runs.len(),
{
    crate::allocator::lemma_mark_runs_len(bm, runs, a);
    crate::allocator::lemma_mark_runs_len(bm, runs, b);
    if runs.len() > 0 {
        let (first, count) = runs.last();
        let ba = mark_runs(bm, runs.drop_last(), a);
        let bb = mark_runs(bm, runs.drop_last(), b);
        crate::allocator::lemma_mark_runs_len(bm, runs.drop_last(), a);
        crate::allocator::lemma_mark_runs_len(bm, runs.drop_last(), b);
        let ea = if first + count <= a {
            first + count
        } else {
            a
        };
        let eb = if first + count <= b {
            first + count
        } else {
            b
        };
        if first < ea {
            lemma_with_bits(ba, first as int, (ea - first) as nat, true);
        }
        if first < eb {
            lemma_with_bits(bb, first as int, (eb - first) as nat, true);
        }
        assert(!bit_set(mark_runs(bm, runs, b), j));
        assert(!bit_set(bb, j));
        assert(bit_free(bb, j));
        lemma_mark_further(bm, runs.drop_last(), a, b, j);
        assert(!bit_set(ba, j));
        assert(!bit_set(mark_runs(bm, runs, a), j));
    }
}

proof fn lemma_published_push(groups: Seq<BlockGroupDescriptor>, cleared: Seq<(usize, u16)>, gi: int, flags: u16)
    requires
        0 <= gi < groups.len(),
        gi <= usize::MAX,
    ensures
        published(groups, cleared.push((gi as usize, flags))) == published(groups, cleared).update(
            gi,
            BlockGroupDescriptor { flags, ..published(groups, cleared)[gi] },
        ),
{
    let more = cleared.push((gi as usize, flags));
    assert(more.drop_last() =~= cleared);
    assert(more.last() == (gi as usize, flags));
    lemma_published_len(groups, cleared);
}

proof fn lemma_flag_cleared(flags: u16, flag: u16)
    by (bit_vector)
    ensures
        (flags & !flag) & flag == 0,
{
}

/// Taking a group's uninit flag down changes that flag alone, on the image and
/// in the snapshot.
proof fn lemma_cleared(v: Vol, st: Stage, gi: int)
    requires
        v.wf(),
        0 <= gi < v.groups.len(),
        gi <= usize::MAX,
        flags_agree(committed(v, st)),
        stage_clear_uninit(v, st, gi, BLOCK_UNINIT) is Ok,
    ensures
        ({
            let (st1, was) = stage_clear_uninit(v, st, gi, BLOCK_UNINIT)->Ok_0;
            let w = committed(v, st);
            let w1 = committed(v, st1);
            &&& st1.img.len() == st.img.len()
            &&& w.groups.len() == v.groups.len()
            &&& w1.groups.len() == v.groups.len()
            &&& was == w.groups[gi].blocks_uninit()
            &&& !w1.groups[gi].blocks_uninit()
            &&& !was ==> st1 == st
            &&& flags_agree(w1)
            &&& forall|gj: int| 0 <= gj < v.groups.len() && gj != gi ==> #[trigger] w1.groups[gj] == w.groups[gj]
            &&& forall|k: int|
                k >= 0 && k != desc_block(v.sb, gi) ==> #[trigger] block_at(st1.img, v.bs(), k) == block_at(
                    st.img,
                    v.bs(),
                    k,
                )
        }),
{
    let (st1, was) = stage_clear_uninit(v, st, gi, BLOCK_UNINIT)->Ok_0;
    let b = block_at(st.img, v.bs(), desc_block(v.sb, gi))->Ok_0;
    let at = desc_off(v.sb, gi) + 0x12;
    let flags = le16(b, at);
    let w = committed(v, st);
    let w1 = committed(v, st1);
    lemma_published_len(v.groups, st.cleared);
    lemma_desc_place(v.sb, gi);
    assert(disk_flags(v, st.img, gi) == Some(flags));
    assert(disk_flags(w, w.img, gi) == Some(flags));
    if was {
        let new = flags & !BLOCK_UNINIT;
        let b2 = put16(b, at, new);
        lemma_desc_edit(v, st, gi, b2);
        lemma_published_push(v.groups, st.cleared, gi, new);
        lemma_flag_cleared(flags, BLOCK_UNINIT);
        assert forall|gj: int| 0 <= gj < w1.groups.len() implies ((#[trigger] disk_flags(w1, w1.img, gj)) matches Some(f)
            ==> (f & BLOCK_UNINIT != 0) == w1.groups[gj].blocks_uninit()) by {
            assert(disk_flags(w1, w1.img, gj) == disk_flags(v, st1.img, gj));
            assert(disk_flags(w, w.img, gj) == disk_flags(v, st.img, gj));
        }
    }
}

/// The bitmap that a marking starts from has every bit that the search took
/// for set.
proof fn lemma_marking_base(v: Vol, st: Stage, st1: Stage, gi: int, was: bool, bm: Seq<u8>, j: int)
    requires
        v.wf(),
        0 <= gi < v.groups.len(),
        gi <= u32::MAX,
        was == committed(v, st).groups[gi].blocks_uninit(),
        !was ==> st1 == st,
        block_at(st1.img, v.bs(), v.groups[gi].block_bitmap as int) == Ok::<Seq<u8>, Error>(bm),
        bit_free(marking_base(v, bm, gi, was), j),
    ensures
        searched_bitmap(v.sb, committed(v, st).groups, gi, bitmaps_of(committed(v, st))) is Ok,
        bit_free(searched_bitmap(v.sb, committed(v, st).groups, gi, bitmaps_of(committed(v, st)))->Ok_0, j),
{
    let w = committed(v, st);
    lemma_published_keeps(v.groups, st.cleared, gi);
    if was {
        crate::allocator::lemma_group_blocks(v.sb, gi);
        assert(metadata_runs(v.sb, w.groups, gi) == metadata_runs(v.sb, v.groups, gi));
        lemma_mark_further(
            zeros(v.bs() as nat),
            metadata_runs(v.sb, v.groups, gi),
            group_blocks(v.sb, gi),
            v.sb.blocks_per_group as int,
            j,
        );
    }
}

/// The steps of marking a run used.
proof fn lemma_mark_steps(v: Vol, st: Stage, start: u64, len: int)
    requires
        v.wf(),
        tables_apart(v),
        flags_agree(committed(v, st)),
        stage_mark_blocks(v, st, start, len) is Ok,
    ensures
        ({
            let gi = group_of_block(v, start)->Some_0;
            let (st1, was) = stage_clear_uninit(v, st, gi, BLOCK_UNINIT)->Ok_0;
            let bm = block_at(st1.img, v.bs(), v.groups[gi].block_bitmap as int)->Ok_0;
            let after = stage_mark_blocks(v, st, start, len)->Ok_0;
            &&& group_of_block(v, start) is Some
            &&& 0 <= gi < v.groups.len()
            &&& stage_clear_uninit(v, st, gi, BLOCK_UNINIT) is Ok
            &&& block_at(st1.img, v.bs(), v.groups[gi].block_bitmap as int) is Ok
            &&& after.cleared == st1.cleared
            &&& after.img.len() == st.img.len()
            &&& block_at(after.img, v.bs(), v.groups[gi].block_bitmap as int) == Ok::<Seq<u8>, Error>(
                with_bits(
                    marking_base(v, bm, gi, was),
                    start - group_first_block(v.sb, gi),
                    len as nat,
                    true,
                ),
            )
            &&& flags_agree(committed(v, after))
            &&& forall|k: int|
                k >= 0 && k != desc_block(v.sb, gi) && k != v.groups[gi].block_bitmap ==> #[trigger] block_at(
                    after.img,
                    v.bs(),
                    k,
                ) == block_at(st.img, v.bs(), k)
        }),
{
    let bs = v.bs();
    let gi = group_of_block(v, start)->Some_0;
    assert(gi >= 0) by (nonlinear_arith)
        requires
            start >= v.sb.first_data_block,
            v.sb.blocks_per_group > 0,
            gi == (start - v.sb.first_data_block) / v.sb.blocks_per_group as int,
    ;
    let (st1, was) = stage_clear_uninit(v, st, gi, BLOCK_UNINIT)->Ok_0;
    lemma_cleared(v, st, gi);
    let home = v.groups[gi].block_bitmap as int;
    let bm = block_at(st1.img, bs, home)->Ok_0;
    let base = marking_base(v, bm, gi, was);
    crate::allocator::lemma_mark_runs_len(
        zeros(bm.len()),
        metadata_runs(v.sb, v.groups, gi),
        v.sb.blocks_per_group as int,
    );
    assert(base.len() == bs);
    let bit = start - group_first_block(v.sb, gi);
    let bits = with_bits(base, bit, len as nat, true);
    lemma_with_bits(base, bit, len as nat, true);
    let st2 = stage_block(v, st1, home, bits);
    assert forall|k: int| k >= 0 implies #[trigger] block_at(st2.img, bs, k) == (if k == home {
        Ok(bits)
    } else {
        block_at(st1.img, bs, k)
    }) by {
        lemma_with_block(st1.img, bs, home, bits, k);
    }
    assert(block_at(st2.img, bs, home) == Ok::<Seq<u8>, Error>(bits));
    let w1 = committed(v, st1);
    let w2 = committed(v, st2);
    assert forall|gj: int| 0 <= gj < w2.groups.len() implies ((#[trigger] disk_flags(w2, w2.img, gj)) matches Some(f)
        ==> (f & BLOCK_UNINIT != 0) == w2.groups[gj].blocks_uninit()) by {
        let g = v.groups[gi];
        let d = desc_block(v.sb, gj);
        lemma_desc_place(v.sb, gj);
        assert(block_at(st2.img, bs, d) == block_at(st1.img, bs, d));
        assert(disk_flags(w1, w1.img, gj) == disk_flags(w2, w2.img, gj));
    }
    let after = stage_mark_blocks(v, st, start, len)->Ok_0;
    assert(stage_bitmap_csum(v, st2, gi, false) == Ok::<Stage, Error>(after));
    if v.csum.enabled {
        let b = block_at(st2.img, bs, desc_block(v.sb, gi))->Ok_0;
        let off = desc_off(v.sb, gi);
        let crc = raw_crc(v.csum.seed, bits.subrange(0, bitmap_covered(v, false)));
        let b2 = bitmap_stamped(v, b, off, gi, false, crc);
        lemma_desc_place(v.sb, gi);
        lemma_stamped(v, b, off, gi, false, crc);
        lemma_desc_edit(v, st2, gi, b2);
        assert(after == stage_block(v, st2, desc_block(v.sb, gi), b2));
        let w3 = committed(v, after);
        assert(disk_flags(v, st2.img, gi) == Some(le16(b, off + 0x12)));
        assert forall|gj: int| 0 <= gj < w3.groups.len() implies ((#[trigger] disk_flags(w3, w3.img, gj)) matches Some(f)
            ==> (f & BLOCK_UNINIT != 0) == w3.groups[gj].blocks_uninit()) by {
            assert(disk_flags(w3, w3.img, gj) == disk_flags(v, after.img, gj));
            assert(disk_flags(w2, w2.img, gj) == disk_flags(v, st2.img, gj));
        }
        let g = v.groups[gi];
        assert(home != desc_block(v.sb, gi));
    }
}

/// A block lies in one group at most.
proof fn lemma_one_group(sb: Superblock, start: int, gi: int, gj: int, n: int)
    requires
        sb.wf(),
        gi == (start - sb.first_data_block) / sb.blocks_per_group as int,
        start >= sb.first_data_block,
        group_first_block(sb, gi) <= n < group_first_block(sb, gi) + sb.blocks_per_group,
        group_first_block(sb, gj) <= n < group_first_block(sb, gj) + sb.blocks_per_group,
    ensures
        gi == gj,
{
    let d = sb.blocks_per_group as int;
    assert(gi == gj) by (nonlinear_arith)
        requires
            gi * d <= n - sb.first_data_block < gi * d + d,
            gj * d <= n - sb.first_data_block < gj * d + d,
            d > 0,
    ;
}

/// Marking a run of a group used puts its blocks in use, keeps in use what
/// was, and touches no block but the group's bitmap and its descriptor's.
pub(crate) proof fn lemma_marked(v: Vol, st: Stage, start: u64, len: int)
    requires
        v.wf(),
        tables_apart(v),
        flags_agree(committed(v, st)),
        stage_mark_blocks(v, st, start, len) is Ok,
        len >= 0,
    ensures
        ({
            let gi = group_of_block(v, start)->Some_0;
            let after = stage_mark_blocks(v, st, start, len)->Ok_0;
            &&& 0 <= gi < v.groups.len()
            &&& after.img.len() == st.img.len()
            &&& flags_agree(committed(v, after))
            &&& forall|n: int| in_use(committed(v, st), n) ==> #[trigger] in_use(committed(v, after), n)
            &&& start + len <= group_first_block(v.sb, gi) + group_blocks(v.sb, gi) ==> forall|n: int|
                start <= n < start + len ==> #[trigger] in_use(committed(v, after), n)
            &&& forall|k: int|
                k >= 0 && k != desc_block(v.sb, gi) && k != v.groups[gi].block_bitmap ==> #[trigger] block_at(
                    after.img,
                    v.bs(),
                    k,
                ) == block_at(st.img, v.bs(), k)
        }),
{
    let gi = group_of_block(v, start)->Some_0;
    lemma_mark_steps(v, st, start, len);
    lemma_cleared(v, st, gi);
    let after = stage_mark_blocks(v, st, start, len)->Ok_0;
    assert forall|n: int| in_use(committed(v, st), n) implies #[trigger] in_use(committed(v, after), n) by {
        lemma_marked_keeps(v, st, start, len, n);
    }
    if start + len <= group_first_block(v.sb, gi) + group_blocks(v.sb, gi) {
        assert forall|n: int| start <= n < start + len implies #[trigger] in_use(committed(v, after), n) by {
            lemma_marked_run(v, st, start, len, n);
        }
    }
}

proof fn lemma_marked_keeps(v: Vol, st: Stage, start: u64, len: int, n: int)
    requires
        v.wf(),
        tables_apart(v),
        flags_agree(committed(v, st)),
        stage_mark_blocks(v, st, start, len) is Ok,
        in_use(committed(v, st), n),
        len >= 0,
    ensures
        in_use(committed(v, stage_mark_blocks(v, st, start, len)->Ok_0), n),
{
    lemma_mark_steps(v, st, start, len);
    let gi = group_of_block(v, start)->Some_0;
    lemma_cleared(v, st, gi);
    let (st1, was) = stage_clear_uninit(v, st, gi, BLOCK_UNINIT)->Ok_0;
    let bm = block_at(st1.img, v.bs(), v.groups[gi].block_bitmap as int)->Ok_0;
    let after = stage_mark_blocks(v, st, start, len)->Ok_0;
    let w = committed(v, st);
    let w3 = committed(v, after);
    assert(w3.groups == committed(v, st1).groups);
    assert forall|gj: int|
        0 <= gj < w3.groups.len() && group_first_block(w3.sb, gj) <= n < group_first_block(w3.sb, gj) + group_blocks(
            w3.sb,
            gj,
        ) && (#[trigger] searched_bitmap(w3.sb, w3.groups, gj, bitmaps_of(w3))) is Ok implies !bit_free(
        searched_bitmap(w3.sb, w3.groups, gj, bitmaps_of(w3))->Ok_0,
        n - group_first_block(w3.sb, gj),
    ) by {
        let j = n - group_first_block(w3.sb, gj);
        lemma_published_keeps(v.groups, st.cleared, gj);
        lemma_published_keeps(v.groups, st1.cleared, gj);
        if gj == gi {
            let base = marking_base(v, bm, gi, was);
            let bit = start - group_first_block(v.sb, gi);
            let bits = with_bits(base, bit, len as nat, true);
            lemma_with_bits(base, bit, len as nat, true);
            assert(searched_bitmap(w3.sb, w3.groups, gi, bitmaps_of(w3)) == Ok::<Seq<u8>, Error>(bits));
            if bit_free(bits, j) {
                assert(!bit_set(bits, j));
                assert(!bit_set(base, j));
                assert(bit_free(base, j));
                lemma_marking_base(v, st, st1, gi, was, bm, j);
                assert(searched_bitmap(w.sb, w.groups, gi, bitmaps_of(w)) is Ok);
            }
        } else {
            assert(w3.groups[gj] == w.groups[gj]);
            let g = v.groups[gj];
            let h = v.groups[gi];
            assert(g.block_bitmap != desc_block(v.sb, gi));
            assert(block_at(w3.img, v.bs(), g.block_bitmap as int) == block_at(w.img, v.bs(), g.block_bitmap as int));
            assert(metadata_runs(w.sb, w.groups, gj) == metadata_runs(w3.sb, w3.groups, gj));
            assert(searched_bitmap(w.sb, w.groups, gj, bitmaps_of(w)) == searched_bitmap(
                w3.sb,
                w3.groups,
                gj,
                bitmaps_of(w3),
            ));
        }
    }
}

proof fn lemma_marked_run(v: Vol, st: Stage, start: u64, len: int, n: int)
    requires
        v.wf(),
        tables_apart(v),
        flags_agree(committed(v, st)),
        stage_mark_blocks(v, st, start, len) is Ok,
        start <= n < start + len,
        start + len <= group_first_block(v.sb, group_of_block(v, start)->Some_0) + group_blocks(
            v.sb,
            group_of_block(v, start)->Some_0,
        ),
    ensures
        in_use(committed(v, stage_mark_blocks(v, st, start, len)->Ok_0), n),
{
    lemma_mark_steps(v, st, start, len);
    let gi = group_of_block(v, start)->Some_0;
    lemma_cleared(v, st, gi);
    let (st1, was) = stage_clear_uninit(v, st, gi, BLOCK_UNINIT)->Ok_0;
    let bm = block_at(st1.img, v.bs(), v.groups[gi].block_bitmap as int)->Ok_0;
    let after = stage_mark_blocks(v, st, start, len)->Ok_0;
    let w3 = committed(v, after);
    let base = marking_base(v, bm, gi, was);
    let bit = start - group_first_block(v.sb, gi);
    let bits = with_bits(base, bit, len as nat, true);
    lemma_with_bits(base, bit, len as nat, true);
    lemma_published_keeps(v.groups, st1.cleared, gi);
    assert(searched_bitmap(w3.sb, w3.groups, gi, bitmaps_of(w3)) == Ok::<Seq<u8>, Error>(bits));
    let d = v.sb.blocks_per_group as int;
    let x = start - v.sb.first_data_block;
    vstd::arithmetic::div_mod::lemma_fundamental_div_mod(x, d);
    assert(d * gi == gi * d) by (nonlinear_arith);
    crate::allocator::lemma_group_blocks(v.sb, gi);
    assert forall|gj: int|
        0 <= gj < w3.groups.len() && group_first_block(w3.sb, gj) <= n < group_first_block(w3.sb, gj) + group_blocks(
            w3.sb,
            gj,
        ) && (#[trigger] searched_bitmap(w3.sb, w3.groups, gj, bitmaps_of(w3))) is Ok implies !bit_free(
        searched_bitmap(w3.sb, w3.groups, gj, bitmaps_of(w3))->Ok_0,
        n - group_first_block(w3.sb, gj),
    ) by {
        crate::allocator::lemma_group_blocks(v.sb, gj);
        lemma_one_group(v.sb, start as int, gi, gj, n);
        let j = n - group_first_block(v.sb, gi);
        if 0 <= j < 8 * bits.len() {
            assert(bit_set(bits, j));
        }
    }
}

} // verus!
