//! What a volume's bookkeeping says, and how each edit of it changes that.
use crate::allocator::group_first_block;
use crate::bgd::{BLOCK_UNINIT, INODE_UNINIT};
use crate::bitmap::{lemma_with_bits, with_bit, with_bits};
use crate::block_io::{block_at, lemma_with_block};
use crate::bytes::{join32_spec, le16, le32};
use crate::checksum::raw_crc;
use crate::error::Result;
use crate::frame_laws::is_meta;
use crate::stage::{
    bit_of_inode, bitmap_block_of, bitmap_covered, bitmap_stamped, clamp_u32, counted, counter_at, desc_block, desc_off,
    group_of_block, group_of_inode, high_word, itable_lowered, lemma_desc_place, lemma_super_place, stage_bitmap_csum,
    stage_counters, stage_free_blocks, stage_free_inode, stage_mark_blocks, stage_mark_inode, stage_totals, super_block,
    super_off, totalled,
};
use crate::superblock::Superblock;
use crate::use_laws::lemma_desc_apart;
use crate::volume::{stage_block, Stage, Vol};
use vstd::prelude::*;

verus! {

broadcast use crate::bytes::group_fields;

/// What a group's descriptor counts, and its flags.
pub struct Counts {
    pub blocks: int,
    pub inodes: int,
    pub dirs: int,
    pub flags: u16,
}

/// What a volume's bookkeeping says: which blocks and which inodes of each
/// group are in use, what each descriptor counts, and the superblock's totals.
#[verifier::ext_equal]
pub struct Books {
    pub block_bits: Seq<Result<Seq<u8>>>,
    pub inode_bits: Seq<Result<Seq<u8>>>,
    pub counts: Seq<Counts>,
    pub free_blocks: int,
    pub free_inodes: int,
}

/// What the descriptor at byte `off` of a block counts.
pub open spec fn counts_in(sb: Superblock, b: Seq<u8>, off: int) -> Counts {
    Counts {
        blocks: counter_at(b, off + 0x0C, high_word(sb, off + 0x2C)),
        inodes: counter_at(b, off + 0x0E, high_word(sb, off + 0x2E)),
        dirs: counter_at(b, off + 0x10, high_word(sb, off + 0x30)),
        flags: le16(b, off + 0x12),
    }
}

/// What group `gi`'s descriptor counts.
pub open spec fn counts_at(v: Vol, img: Seq<u8>, gi: int) -> Counts {
    counts_in(v.sb, block_at(img, v.bs(), desc_block(v.sb, gi))->Ok_0, desc_off(v.sb, gi))
}

/// The bookkeeping of the volume `v` on the image `img`.
#[verifier::opaque]
pub open spec fn books(v: Vol, img: Seq<u8>) -> Books {
    let b = block_at(img, v.bs(), super_block(v.sb))->Ok_0;
    let off = super_off(v.sb);
    Books {
        block_bits: Seq::new(
            v.groups.len(),
            |gi: int| block_at(img, v.bs(), v.groups[gi].block_bitmap as int),
        ),
        inode_bits: Seq::new(
            v.groups.len(),
            |gi: int| block_at(img, v.bs(), v.groups[gi].inode_bitmap as int),
        ),
        counts: Seq::new(v.groups.len(), |gi: int| counts_at(v, img, gi)),
        free_blocks: join32_spec(le32(b, off + 0x0C), le32(b, off + 0x158)) as int,
        free_inodes: le32(b, off + 0x10) as int,
    }
}

/// Each bitmap has its block to itself, and no descriptor is beside the
/// superblock.
#[verifier::opaque]
pub open spec fn books_apart(v: Vol) -> bool {
    &&& forall|gi: int, gj: int|
        0 <= gi < v.groups.len() && 0 <= gj < v.groups.len() ==> {
            let g = #[trigger] v.groups[gi];
            let h = #[trigger] v.groups[gj];
            &&& gi != gj ==> g.block_bitmap != h.block_bitmap && g.inode_bitmap != h.inode_bitmap
            &&& g.block_bitmap != h.inode_bitmap
        }
    &&& forall|gi: int, gj: int|
        0 <= gi < v.groups.len() && 0 <= gj < v.groups.len() ==> {
            let g = #[trigger] v.groups[gi];
            let d = #[trigger] desc_block(v.sb, gj);
            &&& g.block_bitmap != d
            &&& g.inode_bitmap != d
        }
    &&& forall|gi: int|
        0 <= gi < v.groups.len() ==> {
            let g = #[trigger] v.groups[gi];
            &&& g.block_bitmap != super_block(v.sb)
            &&& g.inode_bitmap != super_block(v.sb)
        }
    &&& forall|gi: int| 0 <= gi < v.groups.len() ==> #[trigger] desc_block(v.sb, gi) != super_block(v.sb)
}

/// The books with one group's bitmap replaced.
pub open spec fn with_bitmap(k: Books, gi: int, inodes: bool, bits: Seq<u8>) -> Books {
    if inodes {
        Books { inode_bits: k.inode_bits.update(gi, Ok(bits)), ..k }
    } else {
        Books { block_bits: k.block_bits.update(gi, Ok(bits)), ..k }
    }
}

/// How much of a counter a descriptor can hold.
#[verifier::opaque]
pub open spec fn held(sb: Superblock, n: int) -> int {
    if sb.desc_size >= 0x40 {
        clamp_u32(n)
    } else {
        clamp_u32(n) % 0x1_0000
    }
}

/// The books with one group's counters moved.
pub open spec fn with_counts(sb: Superblock, k: Books, gi: int, fb: int, fi: int, ud: int) -> Books {
    let c = k.counts[gi];
    Books {
        counts: k.counts.update(
            gi,
            Counts {
                blocks: held(sb, c.blocks + fb),
                inodes: held(sb, c.inodes + fi),
                dirs: held(sb, c.dirs + ud),
                flags: c.flags,
            },
        ),
        ..k
    }
}

/// The books with the totals moved.
pub open spec fn with_totals(k: Books, fb: int, fi: int) -> Books {
    Books {
        free_blocks: if k.free_blocks + fb < 0 {
            0
        } else {
            (k.free_blocks + fb) % 0x1_0000_0000_0000_0000
        },
        free_inodes: if k.free_inodes + fi < 0 {
            0
        } else {
            (k.free_inodes + fi) % 0x1_0000_0000
        },
        ..k
    }
}

/// One block edited.
proof fn lemma_edit(v: Vol, st: Stage, n: int, b: Seq<u8>)
    requires
        v.wf(),
        n >= 0,
        block_at(st.img, v.bs(), n) is Ok,
        b.len() == v.bs(),
    ensures
        forall|k: int|
            k >= 0 ==> #[trigger] block_at(stage_block(v, st, n, b).img, v.bs(), k) == (if k == n {
                Ok(b)
            } else {
                block_at(st.img, v.bs(), k)
            }),
{
    let after = stage_block(v, st, n, b);
    assert forall|k: int| k >= 0 implies #[trigger] block_at(after.img, v.bs(), k) == (if k == n {
        Ok(b)
    } else {
        block_at(st.img, v.bs(), k)
    }) by {
        lemma_with_block(st.img, v.bs(), n, b, k);
    }
}

/// The books rest on the bookkeeping's blocks alone.
pub(crate) proof fn lemma_books_same(v: Vol, a: Seq<u8>, b: Seq<u8>)
    requires
        v.wf(),
        forall|k: int| k >= 0 && is_meta(v, k) ==> #[trigger] block_at(b, v.bs(), k) == block_at(a, v.bs(), k),
    ensures
        books(v, b) == books(v, a),
{
    reveal(books);
    lemma_super_place(v.sb);
    assert forall|gi: int| 0 <= gi < v.groups.len() implies #[trigger] books(v, b).counts[gi] == books(v, a).counts[gi]
        && books(v, b).block_bits[gi] == books(v, a).block_bits[gi] && books(v, b).inode_bits[gi] == books(
        v,
        a,
    ).inode_bits[gi] by {
        lemma_desc_place(v.sb, gi);
        let g = v.groups[gi];
        assert(is_meta(v, desc_block(v.sb, gi)));
        assert(is_meta(v, g.block_bitmap as int));
        assert(is_meta(v, g.inode_bitmap as int));
    }
    assert(books(v, b).counts =~= books(v, a).counts);
    assert(books(v, b).block_bits =~= books(v, a).block_bits);
    assert(books(v, b).inode_bits =~= books(v, a).inode_bits);
    assert(is_meta(v, super_block(v.sb)));
}

proof fn lemma_bitmap_edit(v: Vol, st: Stage, gi: int, inodes: bool, bits: Seq<u8>)
    requires
        v.wf(),
        books_apart(v),
        0 <= gi < v.groups.len(),
        block_at(st.img, v.bs(), bitmap_block_of(v, gi, inodes)) is Ok,
        bits.len() == v.bs(),
    ensures
        books(v, stage_block(v, st, bitmap_block_of(v, gi, inodes), bits).img) == with_bitmap(
            books(v, st.img),
            gi,
            inodes,
            bits,
        ),
{
    reveal(books);
    reveal(books_apart);
    let n = bitmap_block_of(v, gi, inodes);
    let img = stage_block(v, st, n, bits).img;
    let want = with_bitmap(books(v, st.img), gi, inodes, bits);
    lemma_edit(v, st, n, bits);
    lemma_super_place(v.sb);
    let g = v.groups[gi];
    assert forall|gj: int| 0 <= gj < v.groups.len() implies #[trigger] books(v, img).counts[gj] == want.counts[gj]
        && books(v, img).block_bits[gj] == want.block_bits[gj] && books(v, img).inode_bits[gj]
        == want.inode_bits[gj] by {
        lemma_desc_place(v.sb, gj);
        let h = v.groups[gj];
        let d = desc_block(v.sb, gj);
    }
    assert(books(v, img).counts =~= want.counts);
    assert(books(v, img).block_bits =~= want.block_bits);
    assert(books(v, img).inode_bits =~= want.inode_bits);
}

/// A descriptor says what its bytes say.
proof fn lemma_counts_same(sb: Superblock, a: Seq<u8>, b: Seq<u8>, off: int)
    requires
        sb.wf(),
        forall|j: int| off <= j < off + sb.desc_size ==> a[j] == b[j],
    ensures
        counts_in(sb, a, off) == counts_in(sb, b, off),
{
    reveal(le16);
    assert(a[off + 0x0C] == b[off + 0x0C] && a[off + 0x0D] == b[off + 0x0D]);
    assert(a[off + 0x0E] == b[off + 0x0E] && a[off + 0x0F] == b[off + 0x0F]);
    assert(a[off + 0x10] == b[off + 0x10] && a[off + 0x11] == b[off + 0x11]);
    assert(a[off + 0x12] == b[off + 0x12] && a[off + 0x13] == b[off + 0x13]);
    if sb.desc_size >= 0x40 {
        assert(a[off + 0x2C] == b[off + 0x2C] && a[off + 0x2D] == b[off + 0x2D]);
        assert(a[off + 0x2E] == b[off + 0x2E] && a[off + 0x2F] == b[off + 0x2F]);
        assert(a[off + 0x30] == b[off + 0x30] && a[off + 0x31] == b[off + 0x31]);
    }
}

proof fn lemma_desc_edit(v: Vol, st: Stage, gi: int, b2: Seq<u8>)
    requires
        v.wf(),
        books_apart(v),
        0 <= gi < v.groups.len(),
        block_at(st.img, v.bs(), desc_block(v.sb, gi)) is Ok,
        ({
            let b = block_at(st.img, v.bs(), desc_block(v.sb, gi))->Ok_0;
            let off = desc_off(v.sb, gi);
            b2.len() == b.len() && forall|j: int|
                0 <= j < b.len() && !(off <= j < off + v.sb.desc_size) ==> b2[j] == b[j]
        }),
    ensures
        ({
            let was = books(v, st.img);
            let after = stage_block(v, st, desc_block(v.sb, gi), b2);
            books(v, after.img) == (Books {
                counts: was.counts.update(gi, counts_in(v.sb, b2, desc_off(v.sb, gi))),
                ..was
            })
        }),
{
    reveal(books);
    reveal(books_apart);
    let n = desc_block(v.sb, gi);
    let b = block_at(st.img, v.bs(), n)->Ok_0;
    let img = stage_block(v, st, n, b2).img;
    let was = books(v, st.img);
    lemma_desc_place(v.sb, gi);
    lemma_super_place(v.sb);
    lemma_edit(v, st, n, b2);
    let want = Books { counts: was.counts.update(gi, counts_in(v.sb, b2, desc_off(v.sb, gi))), ..was };
    assert forall|gj: int| 0 <= gj < v.groups.len() implies #[trigger] books(v, img).counts[gj] == want.counts[gj]
        && books(v, img).block_bits[gj] == want.block_bits[gj] && books(v, img).inode_bits[gj]
        == want.inode_bits[gj] by {
        lemma_desc_place(v.sb, gj);
        let h = v.groups[gj];
        let d = desc_block(v.sb, gj);
        if gj != gi && d == n {
            lemma_desc_apart(v.sb, gi, gj);
            lemma_counts_same(v.sb, b2, b, desc_off(v.sb, gj));
        }
    }
    assert(books(v, img).counts =~= want.counts);
    assert(books(v, img).block_bits =~= want.block_bits);
    assert(books(v, img).inode_bits =~= want.inode_bits);
}

proof fn lemma_counted_counts(v: Vol, b: Seq<u8>, off: int, gi: int, fb: int, fi: int, ud: int)
    requires
        v.wf(),
        0 <= off,
        off + v.sb.desc_size <= b.len(),
    ensures
        counted(v, b, off, gi, fb, fi, ud).len() == b.len(),
        counts_in(v.sb, counted(v, b, off, gi, fb, fi, ud), off) == (Counts {
            blocks: held(v.sb, counts_in(v.sb, b, off).blocks + fb),
            inodes: held(v.sb, counts_in(v.sb, b, off).inodes + fi),
            dirs: held(v.sb, counts_in(v.sb, b, off).dirs + ud),
            flags: counts_in(v.sb, b, off).flags,
        }),
        forall|j: int|
            0 <= j < b.len() && !(off <= j < off + v.sb.desc_size) ==> counted(v, b, off, gi, fb, fi, ud)[j] == b[j],
{
    reveal(held);
}

/// Moving a group's counters.
pub(crate) proof fn lemma_counters_booked(v: Vol, st: Stage, gi: int, fb: int, fi: int, ud: int)
    requires
        v.wf(),
        books_apart(v),
        0 <= gi < v.groups.len(),
        stage_counters(v, st, gi, fb, fi, ud) is Ok,
    ensures
        books(v, stage_counters(v, st, gi, fb, fi, ud)->Ok_0.img) == with_counts(
            v.sb,
            books(v, st.img),
            gi,
            fb,
            fi,
            ud,
        ),
        stage_counters(v, st, gi, fb, fi, ud)->Ok_0.cleared == st.cleared,
{
    reveal(books);
    let b = block_at(st.img, v.bs(), desc_block(v.sb, gi))->Ok_0;
    let off = desc_off(v.sb, gi);
    lemma_desc_place(v.sb, gi);
    lemma_counted_counts(v, b, off, gi, fb, fi, ud);
    lemma_desc_edit(v, st, gi, counted(v, b, off, gi, fb, fi, ud));
    assert(books(v, st.img).counts[gi] == counts_in(v.sb, b, off));
}

/// Moving the totals.
pub(crate) proof fn lemma_totals_booked(v: Vol, st: Stage, fb: int, fi: int)
    requires
        v.wf(),
        books_apart(v),
        stage_totals(v, st, fb, fi) is Ok,
    ensures
        books(v, stage_totals(v, st, fb, fi)->Ok_0.img) == with_totals(books(v, st.img), fb, fi),
        stage_totals(v, st, fb, fi)->Ok_0.cleared == st.cleared,
{
    reveal(books);
    reveal(books_apart);
    let n = super_block(v.sb);
    let off = super_off(v.sb);
    let b = block_at(st.img, v.bs(), n)->Ok_0;
    lemma_super_place(v.sb);
    let b2 = totalled(v, b, off, fb, fi);
    let img = stage_totals(v, st, fb, fi)->Ok_0.img;
    lemma_edit(v, st, n, b2);
    let want = with_totals(books(v, st.img), fb, fi);
    assert forall|gj: int| 0 <= gj < v.groups.len() implies #[trigger] books(v, img).counts[gj] == want.counts[gj]
        && books(v, img).block_bits[gj] == want.block_bits[gj] && books(v, img).inode_bits[gj]
        == want.inode_bits[gj] by {
        lemma_desc_place(v.sb, gj);
        let h = v.groups[gj];
        let d = desc_block(v.sb, gj);
    }
    assert(books(v, img).counts =~= want.counts);
    assert(books(v, img).block_bits =~= want.block_bits);
    assert(books(v, img).inode_bits =~= want.inode_bits);
    lemma_totalled(v, b, off, fb, fi);
}

proof fn lemma_totalled(v: Vol, b: Seq<u8>, off: int, fb: int, fi: int)
    requires
        0 <= off,
        off + 1024 <= b.len(),
    ensures
        ({
            let b2 = totalled(v, b, off, fb, fi);
            let inodes = le32(b, off + 0x10) + fi;
            let blocks = join32_spec(le32(b, off + 0x0C), le32(b, off + 0x158)) + fb;
            &&& b2.len() == b.len()
            &&& le32(b2, off + 0x10) == (if inodes < 0 {
                0int
            } else {
                inodes % 0x1_0000_0000
            })
            &&& join32_spec(le32(b2, off + 0x0C), le32(b2, off + 0x158)) == (if blocks < 0 {
                0int
            } else {
                blocks % 0x1_0000_0000_0000_0000
            })
        }),
{
}

proof fn lemma_stamped_counts(v: Vol, b: Seq<u8>, off: int, gi: int, inodes: bool, crc: u32)
    requires
        v.wf(),
        0 <= off,
        off + v.sb.desc_size <= b.len(),
    ensures
        bitmap_stamped(v, b, off, gi, inodes, crc).len() == b.len(),
        counts_in(v.sb, bitmap_stamped(v, b, off, gi, inodes, crc), off) == counts_in(v.sb, b, off),
        forall|j: int|
            0 <= j < b.len() && !(off <= j < off + v.sb.desc_size) ==> bitmap_stamped(v, b, off, gi, inodes, crc)[j]
                == b[j],
{
}

/// Bringing a bitmap's checksum up to date.
proof fn lemma_csum_booked(v: Vol, st: Stage, gi: int, inodes: bool)
    requires
        v.wf(),
        books_apart(v),
        0 <= gi < v.groups.len(),
        stage_bitmap_csum(v, st, gi, inodes) is Ok,
    ensures
        books(v, stage_bitmap_csum(v, st, gi, inodes)->Ok_0.img) == books(v, st.img),
        stage_bitmap_csum(v, st, gi, inodes)->Ok_0.cleared == st.cleared,
{
    reveal(books);
    if v.csum.enabled {
        let bm = block_at(st.img, v.bs(), bitmap_block_of(v, gi, inodes))->Ok_0;
        let b = block_at(st.img, v.bs(), desc_block(v.sb, gi))->Ok_0;
        let off = desc_off(v.sb, gi);
        let crc = raw_crc(v.csum.seed, bm.subrange(0, bitmap_covered(v, inodes)));
        lemma_desc_place(v.sb, gi);
        lemma_stamped_counts(v, b, off, gi, inodes, crc);
        lemma_desc_edit(v, st, gi, bitmap_stamped(v, b, off, gi, inodes, crc));
        let was = books(v, st.img);
        assert(was.counts[gi] == counts_in(v.sb, b, off));
        assert(was.counts.update(gi, counts_in(v.sb, b, off)) =~= was.counts);
    }
}

proof fn lemma_lowered_counts(v: Vol, b: Seq<u8>, off: int, gi: int, floor: int)
    requires
        v.wf(),
        0 <= off,
        off + v.sb.desc_size <= b.len(),
    ensures
        itable_lowered(v, b, off, gi, floor).len() == b.len(),
        counts_in(v.sb, itable_lowered(v, b, off, gi, floor), off) == counts_in(v.sb, b, off),
        forall|j: int|
            0 <= j < b.len() && !(off <= j < off + v.sb.desc_size) ==> itable_lowered(v, b, off, gi, floor)[j] == b[j],
{
}

/// Marking blocks used in a group whose bitmap was written before.
pub(crate) proof fn lemma_mark_blocks_booked(v: Vol, st: Stage, start: u64, len: int)
    requires
        v.wf(),
        books_apart(v),
        stage_mark_blocks(v, st, start, len) is Ok,
        books(v, st.img).counts[group_of_block(v, start)->Some_0].flags & BLOCK_UNINIT == 0,
    ensures
        ({
            let gi = group_of_block(v, start)->Some_0;
            let bit = start - group_first_block(v.sb, gi);
            let was = books(v, st.img);
            let after = stage_mark_blocks(v, st, start, len)->Ok_0;
            &&& group_of_block(v, start) is Some
            &&& was.block_bits[gi] is Ok
            &&& books(v, after.img) == with_bitmap(
                was,
                gi,
                false,
                with_bits(was.block_bits[gi]->Ok_0, bit, len as nat, true),
            )
            &&& after.cleared == st.cleared
        }),
{
    reveal(books);
    let gi = group_of_block(v, start)->Some_0;
    lemma_group_of_block(v, start);
    let bit = start - group_first_block(v.sb, gi);
    let bm = block_at(st.img, v.bs(), v.groups[gi].block_bitmap as int)->Ok_0;
    assert(books(v, st.img).counts[gi] == counts_at(v, st.img, gi));
    assert(books(v, st.img).block_bits[gi] == block_at(st.img, v.bs(), v.groups[gi].block_bitmap as int));
    lemma_with_bits(bm, bit, len as nat, true);
    let bits = with_bits(bm, bit, len as nat, true);
    lemma_bitmap_edit(v, st, gi, false, bits);
    lemma_csum_booked(v, stage_block(v, st, v.groups[gi].block_bitmap as int, bits), gi, false);
}

pub(crate) proof fn lemma_group_of_block(v: Vol, start: u64)
    requires
        v.wf(),
        group_of_block(v, start) is Some,
    ensures
        0 <= group_of_block(v, start)->Some_0 < v.groups.len(),
{
    let x = start - v.sb.first_data_block;
    let n = v.sb.blocks_per_group as int;
    assert(x / n >= 0) by (nonlinear_arith)
        requires
            x >= 0,
            n > 0,
    ;
}

pub(crate) proof fn lemma_group_of_inode(v: Vol, ino: u32)
    requires
        v.wf(),
        group_of_inode(v, ino) is Some,
    ensures
        0 <= group_of_inode(v, ino)->Some_0 < v.groups.len(),
{
    let x = ino - 1;
    let n = v.sb.inodes_per_group as int;
    assert(x / n >= 0) by (nonlinear_arith)
        requires
            x >= 0,
            n > 0,
    ;
}

/// Releasing blocks.
pub(crate) proof fn lemma_free_blocks_booked(v: Vol, st: Stage, start: u64, len: int)
    requires
        v.wf(),
        books_apart(v),
        stage_free_blocks(v, st, start, len) is Ok,
    ensures
        ({
            let gi = group_of_block(v, start)->Some_0;
            let bit = start - group_first_block(v.sb, gi);
            let was = books(v, st.img);
            let after = stage_free_blocks(v, st, start, len)->Ok_0;
            &&& books(v, after.img) == with_counts(
                v.sb,
                with_bitmap(was, gi, false, with_bits(was.block_bits[gi]->Ok_0, bit, len as nat, false)),
                gi,
                len,
                0,
                0,
            )
            &&& after.cleared == st.cleared
        }),
{
    reveal(books);
    let gi = group_of_block(v, start)->Some_0;
    lemma_group_of_block(v, start);
    let bit = start - group_first_block(v.sb, gi);
    let bm = block_at(st.img, v.bs(), v.groups[gi].block_bitmap as int)->Ok_0;
    assert(books(v, st.img).block_bits[gi] == block_at(st.img, v.bs(), v.groups[gi].block_bitmap as int));
    lemma_with_bits(bm, bit, len as nat, false);
    let bits = with_bits(bm, bit, len as nat, false);
    lemma_bitmap_edit(v, st, gi, false, bits);
    let st1 = stage_block(v, st, v.groups[gi].block_bitmap as int, bits);
    lemma_csum_booked(v, st1, gi, false);
    let st2 = stage_bitmap_csum(v, st1, gi, false)->Ok_0;
    lemma_counters_booked(v, st2, gi, len, 0, 0);
}

/// Releasing an inode.
pub(crate) proof fn lemma_free_inode_booked(v: Vol, st: Stage, ino: u32)
    requires
        v.wf(),
        books_apart(v),
        stage_free_inode(v, st, ino) is Ok,
    ensures
        ({
            let gi = group_of_inode(v, ino)->Some_0;
            let bit = bit_of_inode(v, ino);
            let was = books(v, st.img);
            let after = stage_free_inode(v, st, ino)->Ok_0;
            &&& books(v, after.img) == with_counts(
                v.sb,
                with_bitmap(was, gi, true, with_bit(was.inode_bits[gi]->Ok_0, bit, false)),
                gi,
                0,
                1,
                0,
            )
            &&& after.cleared == st.cleared
        }),
{
    reveal(books);
    let gi = group_of_inode(v, ino)->Some_0;
    lemma_group_of_inode(v, ino);
    let bit = bit_of_inode(v, ino);
    let bm = block_at(st.img, v.bs(), v.groups[gi].inode_bitmap as int)->Ok_0;
    assert(books(v, st.img).inode_bits[gi] == block_at(st.img, v.bs(), v.groups[gi].inode_bitmap as int));
    let bits = with_bit(bm, bit, false);
    lemma_bitmap_edit(v, st, gi, true, bits);
    let st1 = stage_block(v, st, v.groups[gi].inode_bitmap as int, bits);
    lemma_csum_booked(v, st1, gi, true);
    let st2 = stage_bitmap_csum(v, st1, gi, true)->Ok_0;
    lemma_counters_booked(v, st2, gi, 0, 1, 0);
}

/// Marking an inode used in a group whose bitmap was written before.
pub(crate) proof fn lemma_mark_inode_booked(v: Vol, st: Stage, ino: u32)
    requires
        v.wf(),
        books_apart(v),
        stage_mark_inode(v, st, ino) is Ok,
        books(v, st.img).counts[group_of_inode(v, ino)->Some_0].flags & INODE_UNINIT == 0,
    ensures
        ({
            let gi = group_of_inode(v, ino)->Some_0;
            let bit = bit_of_inode(v, ino);
            let was = books(v, st.img);
            let after = stage_mark_inode(v, st, ino)->Ok_0;
            &&& group_of_inode(v, ino) is Some
            &&& was.inode_bits[gi] is Ok
            &&& books(v, after.img) == with_bitmap(was, gi, true, with_bit(was.inode_bits[gi]->Ok_0, bit, true))
            &&& after.cleared == st.cleared
        }),
{
    reveal(books);
    let gi = group_of_inode(v, ino)->Some_0;
    lemma_group_of_inode(v, ino);
    let bit = bit_of_inode(v, ino);
    let bm = block_at(st.img, v.bs(), v.groups[gi].inode_bitmap as int)->Ok_0;
    assert(books(v, st.img).counts[gi] == counts_at(v, st.img, gi));
    assert(books(v, st.img).inode_bits[gi] == block_at(st.img, v.bs(), v.groups[gi].inode_bitmap as int));
    let bits = with_bit(bm, bit, true);
    lemma_bitmap_edit(v, st, gi, true, bits);
    let st1 = stage_block(v, st, v.groups[gi].inode_bitmap as int, bits);
    lemma_csum_booked(v, st1, gi, true);
    let st2 = stage_bitmap_csum(v, st1, gi, true)->Ok_0;
    let b = block_at(st2.img, v.bs(), desc_block(v.sb, gi))->Ok_0;
    let off = desc_off(v.sb, gi);
    let floor = v.sb.inodes_per_group - bit - 1;
    lemma_desc_place(v.sb, gi);
    lemma_lowered_counts(v, b, off, gi, floor);
    lemma_desc_edit(v, st2, gi, itable_lowered(v, b, off, gi, floor));
    let was = books(v, st2.img);
    assert(was.counts[gi] == counts_in(v.sb, b, off));
    assert(was.counts.update(gi, counts_in(v.sb, b, off)) =~= was.counts);
}

} // verus!
