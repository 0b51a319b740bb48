//! What a positional write of any length leaves to be read.
use crate::allocator::blocks_for;
use crate::attr::inode_at;
use crate::bgd::inode_place;
use crate::block_io::block_at;
use crate::bytes::splice;
use crate::commit::committed;
use crate::content_laws::{lemma_blocks_reach, lemma_same_place, reads_back, record_block};
use crate::dirops::{resolve, EXT4_ROOT_INODE};
use crate::error::Error;
use crate::extent::{extent_for, ExtentVerifyCtx};
use crate::file_io::{block_end, block_part, file_part};
use crate::fs::checked_inode;
use crate::inode::{block_area_of, flags_of, size_of_file, FL_EXTENTS};
use crate::name_laws::own_slot;
use crate::order_laws::FILE_BLOCKS;
use crate::pwrite::{chunk_limit, pwrite_chunks, pwrite_one, pwrite_stage, pwrite_target, pwritten};
use crate::pwrite_laws::lemma_steps;
use crate::reach_laws::{beside, in_slot, lemma_walk_beside, path_clear, safe_in, slot_block, slots_apart};
use crate::volume::Vol;
use crate::write_laws::{
    block_contents, in_good_order, law_write_keeps_good_order, law_write_leaves_other_blocks,
    law_write_overlays_the_file, lemma_flags_kept, lemma_record_block, overlaid, overlays, stranger,
};
use vstd::prelude::*;

verus! {

// -- a read is made of blocks -----------------------------------------------

/// Byte `i` of a file.
pub open spec fn file_byte(v: Vol, area: Seq<u8>, ctx: Option<ExtentVerifyCtx>, i: int) -> u8 {
    block_contents(v, area, ctx, i / v.bs())->Ok_0[i % v.bs()]
}

/// Every block of the bytes `from..to` of a file can be read.
pub open spec fn readable(v: Vol, area: Seq<u8>, ctx: Option<ExtentVerifyCtx>, from: int, to: int) -> bool {
    from < to ==> forall|l: int|
        from / v.bs() <= l && l * v.bs() < to ==> (#[trigger] block_contents(v, area, ctx, l)) is Ok
}

/// A read gives the bytes that the blocks of the file hold.
pub proof fn law_read_is_made_of_blocks(v: Vol, area: Seq<u8>, ctx: Option<ExtentVerifyCtx>, from: int, to: int)
    requires
        v.bs() > 0,
        0 <= from <= to,
        readable(v, area, ctx, from, to),
    ensures
        file_part(v, area, ctx, from, to) == Ok::<Seq<u8>, Error>(
            Seq::new((to - from) as nat, |i: int| file_byte(v, area, ctx, from + i)),
        ),
    decreases to - from,
{
    let all = Seq::new((to - from) as nat, |i: int| file_byte(v, area, ctx, from + i));
    if from < to {
        let bs = v.bs();
        let l = from / bs;
        let m = from % bs;
        vstd::arithmetic::div_mod::lemma_fundamental_div_mod(from, bs);
        assert(bs * l == l * bs) by (nonlinear_arith);
        let end = block_end(bs, from);
        let stop = if end < to {
            end
        } else {
            to
        };
        assert(end == l * bs + bs);
        let b = block_contents(v, area, ctx, l)->Ok_0;
        let want = Seq::new((stop - from) as nat, |i: int| file_byte(v, area, ctx, from + i));
        assert forall|i: int| 0 <= i < stop - from implies #[trigger] want[i] == b[m + i] by {
            let at = from + i;
            vstd::arithmetic::div_mod::lemma_fundamental_div_mod_converse(at, bs, l, m + i);
        }
        assert(block_part(v, area, ctx, from, stop) == Ok::<Seq<u8>, Error>(want)) by {
            let piece = block_part(v, area, ctx, from, stop)->Ok_0;
            if let Ok(Some(e)) = extent_for(v.img, bs, area, l, ctx) {
                if !e.uninitialized {
                    let at = e.place(l) * bs;
                    assert forall|i: int| 0 <= i < stop - from implies #[trigger] piece[i] == want[i] by {
                        assert(b[m + i] == v.img[at + m + i]);
                    }
                }
            }
            assert(piece =~= want);
        }
        assert(readable(v, area, ctx, stop, to)) by {
            assert(stop / bs >= l) by (nonlinear_arith)
                requires
                    bs > 0,
                    stop >= from,
                    l == from / bs,
            ;
        }
        law_read_is_made_of_blocks(v, area, ctx, stop, to);
        let rest = Seq::new((to - stop) as nat, |i: int| file_byte(v, area, ctx, stop + i));
        assert(want + rest =~= all);
    } else {
        assert(all =~= Seq::<u8>::empty());
    }
}

// -- writes of any length ---------------------------------------------------

/// The blocks that a write to a file leaves alone.
pub open spec fn strangers(v: Vol, ino: u32, area: Seq<u8>) -> spec_fn(int) -> bool {
    |k: int| stranger(v, ino, area, k)
}

/// A path leads to a file in good order, and following it reads no block that
/// a write to the file may change.
pub open spec fn leads_to(v: Vol, path: Seq<u8>, ino: u32, raw: Seq<u8>, ctx: Option<ExtentVerifyCtx>) -> bool {
    &&& in_good_order(v, ino, raw, ctx)
    &&& flags_of(raw) & FL_EXTENTS != 0
    &&& resolve(v, path) == Ok::<u32, Error>(ino)
    &&& path_clear(v, strangers(v, ino, block_area_of(raw)), seq![own_slot(v, ino)], Seq::empty(), path, 0, EXT4_ROOT_INODE)
}

/// How far a file reaches after a write.
pub open spec fn reached(size: int, end: int) -> int {
    if size > end {
        size
    } else {
        end
    }
}

proof fn lemma_left_beside(
    v: Vol,
    ino: u32,
    raw: Seq<u8>,
    ctx: Option<ExtentVerifyCtx>,
    offset: int,
    data: Seq<u8>,
    now: u32,
)
    requires
        in_good_order(v, ino, raw, ctx),
        0 <= offset,
        0 < data.len() <= chunk_limit(v.bs()),
        offset + data.len() <= u64::MAX,
        blocks_for(offset + data.len(), v.bs()) <= FILE_BLOCKS,
        pwrite_stage(v, ino, raw, offset, data, now) is Ok,
    ensures
        ({
            let w = committed(v, pwrite_stage(v, ino, raw, offset, data, now)->Ok_0.0);
            let area = block_area_of(raw);
            let out = block_area_of(checked_inode(w, ino)->Ok_0);
            &&& beside(v, w, strangers(v, ino, area), seq![own_slot(v, ino)])
            &&& safe_in(strangers(v, ino, area), strangers(w, ino, out))
            &&& own_slot(w, ino) == own_slot(v, ino)
        }),
{
    let after = pwrite_stage(v, ino, raw, offset, data, now)->Ok_0.0;
    let w = committed(v, after);
    let area = block_area_of(raw);
    let out = checked_inode(w, ino)->Ok_0;
    assert forall|d: u32| #[trigger] inode_place(w.sb, w.groups, d) == inode_place(v.sb, v.groups, d) by {
        lemma_same_place(v, after, d);
    }
    let safe = strangers(v, ino, area);
    let next = strangers(w, ino, block_area_of(out));
    assert forall|k: int| #[trigger] safe(k) implies next(k) && block_at(w.img, v.bs(), k) == block_at(v.img, v.bs(), k) by {
        law_write_leaves_other_blocks(v, ino, raw, ctx, offset, data, now, k);
    }
    lemma_record_block(v, ino, raw, ctx, offset, data, now);
    let own = record_block(v, ino);
    let at = inode_place(v.sb, v.groups, ino)->Ok_0.1;
    assert(inode_place(w.sb, w.groups, ino) == inode_place(v.sb, v.groups, ino));
    let slots = seq![own_slot(v, ino)];
    assert forall|b: int| #[trigger] slot_block(slots, b) implies slots_apart(
        v.img,
        w.img,
        v.bs(),
        slots,
        v.sb.inode_size as int,
        b,
    ) by {
        assert(b == own);
        let old = block_at(v.img, v.bs(), own)->Ok_0;
        let new = splice(old, at as int, out);
        assert forall|j: int| 0 <= j < old.len() && !in_slot(slots, v.sb.inode_size as int, b, j) implies #[trigger] new[j]
            == old[j] by {
            assert(slots[0] == own_slot(v, ino));
        }
    }
}

/// One commit of a write.
#[verifier::rlimit(40)]
proof fn lemma_one_chunk(
    v: Vol,
    path: Seq<u8>,
    ino: u32,
    raw: Seq<u8>,
    ctx: Option<ExtentVerifyCtx>,
    offset: int,
    data: Seq<u8>,
    now: u32,
)
    requires
        leads_to(v, path, ino, raw, ctx),
        0 <= offset,
        0 < data.len() <= chunk_limit(v.bs()),
        offset + data.len() <= u64::MAX,
        blocks_for(offset + data.len(), v.bs()) <= FILE_BLOCKS,
        pwrite_one(v, path, offset, data, now).1 is Ok,
    ensures
        pwrite_target(v, path) == Ok::<(u32, Seq<u8>), Error>((ino, raw)),
        ({
            let (w, r) = pwrite_one(v, path, offset, data, now);
            let out = checked_inode(w, ino)->Ok_0;
            &&& r->Ok_0 == reached(size_of_file(raw) as int, offset + data.len())
            &&& w.sb == v.sb
            &&& checked_inode(w, ino) is Ok
            &&& leads_to(w, path, ino, out, ctx)
            &&& size_of_file(out) == reached(size_of_file(raw) as int, offset + data.len())
            &&& overlays(v, block_area_of(raw), w, block_area_of(out), ctx, offset, data)
            &&& readable(v, block_area_of(raw), ctx, offset, offset + data.len())
        }),
{
    let bs = v.bs();
    let area = block_area_of(raw);
    assert(pwrite_target(v, path) == Ok::<(u32, Seq<u8>), Error>((ino, raw)));
    let (after, size) = pwrite_stage(v, ino, raw, offset, data, now)->Ok_0;
    let w = committed(v, after);
    lemma_steps(v, ino, raw, offset, data, now);
    law_write_overlays_the_file(v, ino, raw, ctx, offset, data, now);
    law_write_keeps_good_order(v, ino, raw, ctx, offset, data, now);
    lemma_left_beside(v, ino, raw, ctx, offset, data, now);
    lemma_flags_kept(v, ino, raw, ctx, offset, data, now);
    let out = checked_inode(w, ino)->Ok_0;
    lemma_walk_beside(
        v,
        w,
        strangers(v, ino, area),
        strangers(w, ino, block_area_of(out)),
        seq![own_slot(v, ino)],
        path,
        0,
        EXT4_ROOT_INODE,
    );
    assert forall|l: int| offset / bs <= l && l * bs < offset + data.len() implies (#[trigger] block_contents(
        v,
        area,
        ctx,
        l,
    )) is Ok by {
        assert(offset / bs >= 0) by (nonlinear_arith)
            requires
                offset >= 0,
                bs > 0,
        ;
        lemma_blocks_reach(offset + data.len(), bs, l);
    }
}

/// One write and then another behind it.
proof fn lemma_overlays_on(
    v: Vol,
    a: Seq<u8>,
    w: Vol,
    b: Seq<u8>,
    x: Vol,
    c: Seq<u8>,
    ctx: Option<ExtentVerifyCtx>,
    offset: int,
    one: Seq<u8>,
    two: Seq<u8>,
)
    requires
        w.sb == v.sb,
        v.bs() > 0,
        overlays(v, a, w, b, ctx, offset, one),
        overlays(w, b, x, c, ctx, offset + one.len(), two),
    ensures
        overlays(v, a, x, c, ctx, offset, one + two),
{
    let bs = v.bs();
    assert forall|l: int|
        (#[trigger] block_contents(x, c, ctx, l)) == (match block_contents(v, a, ctx, l) {
            Ok(p) => Ok::<Seq<u8>, Error>(overlaid(bs, p, offset, one + two, l)),
            Err(e) => Err(e),
        }) by {
        let mid = block_contents(w, b, ctx, l);
        if let Ok(p) = block_contents(v, a, ctx, l) {
            let q = overlaid(bs, p, offset, one, l);
            assert(overlaid(bs, q, offset + one.len(), two, l) =~= overlaid(bs, p, offset, one + two, l));
        }
    }
}

/// What a write in several commits comes to, from one of them on.
#[verifier::rlimit(40)]
proof fn lemma_chunks(
    v: Vol,
    path: Seq<u8>,
    ino: u32,
    raw: Seq<u8>,
    ctx: Option<ExtentVerifyCtx>,
    offset: int,
    data: Seq<u8>,
    at: int,
    now: u32,
)
    requires
        leads_to(v, path, ino, raw, ctx),
        0 <= offset,
        0 <= at <= data.len(),
        offset + data.len() <= u64::MAX,
        blocks_for(offset + data.len(), v.bs()) <= FILE_BLOCKS,
        pwrite_chunks(v, path, offset, data, at, now).1 is Ok,
    ensures
        ({
            let w = pwrite_chunks(v, path, offset, data, at, now).0;
            let out = checked_inode(w, ino)->Ok_0;
            &&& checked_inode(w, ino) is Ok
            &&& leads_to(w, path, ino, out, ctx)
            &&& w.sb == v.sb
            &&& size_of_file(out) == (if at < data.len() {
                reached(size_of_file(raw) as int, offset + data.len())
            } else {
                size_of_file(raw) as int
            })
            &&& overlays(v, block_area_of(raw), w, block_area_of(out), ctx, offset + at, data.skip(at))
            &&& readable(v, block_area_of(raw), ctx, offset + at, offset + data.len())
        }),
    decreases data.len() - at,
{
    let bs = v.bs();
    let area = block_area_of(raw);
    if at >= data.len() {
        assert forall|l: int|
            (#[trigger] block_contents(v, area, ctx, l)) == (match block_contents(v, area, ctx, l) {
                Ok(b) => Ok::<Seq<u8>, Error>(overlaid(bs, b, offset + at, data.skip(at), l)),
                Err(e) => Err(e),
            }) by {
            if let Ok(b) = block_contents(v, area, ctx, l) {
                assert(overlaid(bs, b, offset + at, data.skip(at), l) =~= b);
            }
        }
    } else {
        let to = if at + chunk_limit(bs) < data.len() {
            at + chunk_limit(bs)
        } else {
            data.len() as int
        };
        let part = data.subrange(at, to);
        lemma_blocks_within(offset + to, offset + data.len(), bs);
        lemma_one_chunk(v, path, ino, raw, ctx, offset + at, part, now);
        let w = pwrite_one(v, path, offset + at, part, now).0;
        let mid = checked_inode(w, ino)->Ok_0;
        lemma_chunks(w, path, ino, mid, ctx, offset, data, to, now);
        let x = pwrite_chunks(v, path, offset, data, at, now).0;
        let out = checked_inode(x, ino)->Ok_0;
        lemma_chunk_on(
            v,
            area,
            w,
            block_area_of(mid),
            x,
            block_area_of(out),
            ctx,
            offset,
            data,
            at,
            to,
        );
    }
}

/// A commit, and what the ones behind it come to.
proof fn lemma_chunk_on(
    v: Vol,
    a: Seq<u8>,
    w: Vol,
    b: Seq<u8>,
    x: Vol,
    c: Seq<u8>,
    ctx: Option<ExtentVerifyCtx>,
    offset: int,
    data: Seq<u8>,
    at: int,
    to: int,
)
    requires
        w.sb == v.sb,
        v.bs() > 0,
        0 <= offset,
        0 <= at < to <= data.len(),
        overlays(v, a, w, b, ctx, offset + at, data.subrange(at, to)),
        readable(v, a, ctx, offset + at, offset + to),
        overlays(w, b, x, c, ctx, offset + to, data.skip(to)),
        readable(w, b, ctx, offset + to, offset + data.len()),
    ensures
        overlays(v, a, x, c, ctx, offset + at, data.skip(at)),
        readable(v, a, ctx, offset + at, offset + data.len()),
{
    let bs = v.bs();
    lemma_overlays_on(v, a, w, b, x, c, ctx, offset + at, data.subrange(at, to), data.skip(to));
    assert(data.subrange(at, to) + data.skip(to) =~= data.skip(at));
    assert forall|l: int| (offset + at) / bs <= l && l * bs < offset + data.len() implies (#[trigger] block_contents(
        v,
        a,
        ctx,
        l,
    )) is Ok by {
        if l * bs >= offset + to {
            assert((offset + to) / bs <= l) by (nonlinear_arith)
                requires
                    l * bs >= offset + to,
                    bs > 0,
            ;
            assert(block_contents(w, b, ctx, l) is Ok);
        }
    }
}

proof fn lemma_blocks_within(a: int, b: int, bs: int)
    requires
        0 < a <= b,
        bs > 0,
    ensures
        blocks_for(a, bs) <= blocks_for(b, bs),
{
    vstd::arithmetic::div_mod::lemma_div_is_ordered(a + bs - 1, b + bs - 1, bs);
}

/// The bytes `from..to` of a file, with some data written over them that
/// starts at byte `offset` of the file.
pub open spec fn written_over(
    v: Vol,
    area: Seq<u8>,
    ctx: Option<ExtentVerifyCtx>,
    offset: int,
    data: Seq<u8>,
    from: int,
    to: int,
) -> Seq<u8> {
    Seq::new(
        (to - from) as nat,
        |i: int|
            if offset <= from + i < offset + data.len() {
                data[from + i - offset]
            } else {
                file_byte(v, area, ctx, from + i)
            },
    )
}

/// Where every block has its part of the data over what it held, so has every
/// range of bytes.
proof fn lemma_reads_over(
    v: Vol,
    a: Seq<u8>,
    w: Vol,
    b: Seq<u8>,
    ctx: Option<ExtentVerifyCtx>,
    offset: int,
    data: Seq<u8>,
    from: int,
    to: int,
)
    requires
        w.sb == v.sb,
        v.bs() > 0,
        overlays(v, a, w, b, ctx, offset, data),
        0 <= from <= to,
        readable(v, a, ctx, from, to),
    ensures
        file_part(w, b, ctx, from, to) == Ok::<Seq<u8>, Error>(written_over(v, a, ctx, offset, data, from, to)),
{
    let bs = v.bs();
    assert(readable(w, b, ctx, from, to)) by {
        if from < to {
            assert forall|l: int| from / bs <= l && l * bs < to implies (#[trigger] block_contents(w, b, ctx, l)) is Ok by {
                assert(block_contents(v, a, ctx, l) is Ok);
            }
        }
    }
    law_read_is_made_of_blocks(w, b, ctx, from, to);
    let got = file_part(w, b, ctx, from, to)->Ok_0;
    let want = written_over(v, a, ctx, offset, data, from, to);
    assert forall|i: int| 0 <= i < to - from implies #[trigger] got[i] == want[i] by {
        let at = from + i;
        let l = at / bs;
        let j = at % bs;
        vstd::arithmetic::div_mod::lemma_fundamental_div_mod(at, bs);
        assert(bs * l == l * bs) by (nonlinear_arith);
        assert(from / bs <= l) by (nonlinear_arith)
            requires
                from <= at,
                bs > 0,
                l == at / bs,
        ;
        assert(block_contents(v, a, ctx, l) is Ok);
        let old = block_contents(v, a, ctx, l)->Ok_0;
        assert(block_contents(w, b, ctx, l) == Ok::<Seq<u8>, Error>(overlaid(bs, old, offset, data, l)));
        assert(file_byte(w, b, ctx, at) == overlaid(bs, old, offset, data, l)[j]);
    }
    assert(got =~= want);
}

/// A positional write of any length writes its data over the file, and leaves
/// the rest as it was: the path leads to the same file, the file reaches as far
/// as it did or as the write did, whichever is further, and a read of any range
/// gives the data where the range meets it, and elsewhere what was there. A
/// hole counts as zeros. What was in good order still is.
#[verifier::rlimit(40)]
pub proof fn law_pwrite_overlays_the_file(
    v: Vol,
    path: Seq<u8>,
    ino: u32,
    raw: Seq<u8>,
    ctx: Option<ExtentVerifyCtx>,
    offset: u64,
    data: Seq<u8>,
    now: u32,
)
    requires
        leads_to(v, path, ino, raw, ctx),
        blocks_for(offset + data.len(), v.bs()) <= FILE_BLOCKS,
        pwritten(v, path, offset, data, now).1 is Ok,
    ensures
        ({
            let (w, r) = pwritten(v, path, offset, data, now);
            let out = checked_inode(w, ino)->Ok_0;
            let size = if data.len() == 0 {
                size_of_file(raw) as int
            } else {
                reached(size_of_file(raw) as int, offset + data.len())
            };
            &&& r->Ok_0 == size
            &&& inode_at(w, path) == Ok::<(u32, Seq<u8>), Error>((ino, out))
            &&& leads_to(w, path, ino, out, ctx)
            &&& size_of_file(out) == size
            &&& forall|from: int, to: int|
                0 <= from <= to && readable(v, block_area_of(raw), ctx, from, to) ==> #[trigger] file_part(
                    w,
                    block_area_of(out),
                    ctx,
                    from,
                    to,
                ) == Ok::<Seq<u8>, Error>(
                    written_over(v, block_area_of(raw), ctx, offset as int, data, from, to),
                )
            &&& reads_back(w, ino, size, offset as int, data, ctx)
        }),
{
    let bs = v.bs();
    let area = block_area_of(raw);
    let at = offset as int;
    assert(pwrite_target(v, path) == Ok::<(u32, Seq<u8>), Error>((ino, raw)));
    let (w, r) = pwritten(v, path, offset, data, now);
    if data.len() == 0 {
        assert(data.skip(0) =~= data);
        lemma_chunks(v, path, ino, raw, ctx, at, data, 0, now);
    } else if data.len() <= chunk_limit(bs) {
        lemma_one_chunk(v, path, ino, raw, ctx, at, data, now);
    } else {
        assert(data.skip(0) =~= data);
        lemma_chunks(v, path, ino, raw, ctx, at, data, 0, now);
    }
    let out = checked_inode(w, ino)->Ok_0;
    assert forall|from: int, to: int| 0 <= from <= to && readable(v, area, ctx, from, to) implies #[trigger] file_part(
        w,
        block_area_of(out),
        ctx,
        from,
        to,
    ) == Ok::<Seq<u8>, Error>(written_over(v, area, ctx, at, data, from, to)) by {
        lemma_reads_over(v, area, w, block_area_of(out), ctx, at, data, from, to);
    }
    assert forall|from: int, to: int| at <= from <= to <= at + data.len() implies #[trigger] file_part(
        w,
        block_area_of(out),
        ctx,
        from,
        to,
    ) == Ok::<Seq<u8>, Error>(data.subrange(from - at, to - at)) by {
        assert(readable(v, area, ctx, from, to)) by {
            if from < to {
                assert(at / bs <= from / bs) by (nonlinear_arith)
                    requires
                        at <= from,
                        bs > 0,
                ;
            }
        }
        assert(written_over(v, area, ctx, at, data, from, to) =~= data.subrange(from - at, to - at));
    }
}

} // verus!
