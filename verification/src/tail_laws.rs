//! What lies behind the end of a file, and what it reads as once the file grows.
use crate::allocator::blocks_for;
use crate::attr::{cut_stage, grow_stage, shrink_stage, zeroed_from};
use crate::block_io::{block_at, lemma_with_block};
use crate::bytes::zeros;
use crate::commit::committed;
use crate::content_laws::{lemma_same_place, record_block};
use crate::error::Error;
use crate::extent::{block_for, extent_for, ExtentVerifyCtx};
use crate::file_io::file_part;
use crate::frame_laws::is_meta;
use crate::fs::checked_inode;
use crate::inode::{block_area_of, mode_is_file, mode_of, size_of_file};
use crate::order_laws::{where_is, FILE_BLOCKS};
use crate::pwrite::pwritten;
use crate::pwrite_laws::{lemma_block_for_found, levels};
use crate::range_laws::{
    file_byte, law_pwrite_overlays_the_file, law_read_is_made_of_blocks, leads_to, readable, written_over,
};
use crate::size_laws::{file_stands, law_grown_file_keeps_its_contents, lemma_cut};
use crate::tree_laws::{lemma_found_in_tree, tree_maps};
use crate::volume::{Stage, Vol};
use crate::write_laws::block_contents;
use vstd::prelude::*;

verus! {

/// Everything at or behind byte `size` of a file can be read, and is zero.
pub open spec fn clear_end(v: Vol, area: Seq<u8>, ctx: Option<ExtentVerifyCtx>, size: int) -> bool {
    forall|at: int|
        at >= size && at >= 0 ==> #[trigger] file_byte(v, area, ctx, at) == 0 && block_contents(v, area, ctx, at / v.bs())
            is Ok
}

/// No two blocks of a file are the same block of the device.
pub open spec fn mapped_once(v: Vol, area: Seq<u8>) -> bool {
    forall|l: int, m: int, p: int| #[trigger]
        tree_maps(v.img, v.bs(), area, levels(area), l, p) && #[trigger] tree_maps(
            v.img,
            v.bs(),
            area,
            levels(area),
            m,
            p,
        ) ==> l == m
}

/// File block `l` of a file that was cut to `size` bytes.
pub open spec fn cut_block(bs: int, size: int, l: int, was: crate::error::Result<Seq<u8>>) -> crate::error::Result<Seq<u8>> {
    if l * bs + bs <= size {
        was
    } else if l * bs < size {
        match was {
            Ok(b) => Ok(zeroed_from(b, size - l * bs)),
            Err(e) => Err(e),
        }
    } else {
        Ok(zeros(bs as nat))
    }
}

/// Where block `l` lies next to the end of a file.
proof fn lemma_end_block(bs: int, size: int, l: int)
    requires
        bs > 0,
        size >= 0,
    ensures
        (l < blocks_for(size, bs)) == (l * bs < size),
        (l * bs < size && size < l * bs + bs) == (l == size / bs && size % bs != 0),
        l == size / bs ==> size - l * bs == size % bs,
{
    let q = size / bs;
    vstd::arithmetic::div_mod::lemma_fundamental_div_mod(size, bs);
    vstd::arithmetic::div_mod::lemma_fundamental_div_mod(size + bs - 1, bs);
    let n = blocks_for(size, bs);
    assert(n == (size + bs - 1) / bs);
    assert(bs * q == q * bs && bs * n == n * bs) by (nonlinear_arith);
    if l < n {
        assert(l * bs + bs <= n * bs) by (nonlinear_arith)
            requires
                l + 1 <= n,
                bs > 0,
        ;
    } else {
        assert(n * bs <= l * bs) by (nonlinear_arith)
            requires
                n <= l,
                bs > 0,
        ;
    }
    if l < q {
        assert(l * bs + bs <= q * bs) by (nonlinear_arith)
            requires
                l + 1 <= q,
                bs > 0,
        ;
    }
    if l > q {
        assert(q * bs + bs <= l * bs) by (nonlinear_arith)
            requires
                q + 1 <= l,
                bs > 0,
        ;
    }
}

/// A file that was cut is as long as it was asked to be, holds what it held up
/// to there, and nothing but zeros from there on.
#[verifier::rlimit(40)]
pub proof fn law_cut_file_keeps_its_start(v: Vol, ino: u32, raw: Seq<u8>, new_size: u64, ctx: Option<ExtentVerifyCtx>)
    requires
        v.wf(),
        checked_inode(v, ino) == Ok::<Seq<u8>, Error>(raw),
        mode_is_file(mode_of(raw)),
        file_stands(v, ino, block_area_of(raw)),
        mapped_once(v, block_area_of(raw)),
        shrink_stage(v, ino, new_size) is Ok,
    ensures
        ({
            let w = committed(v, shrink_stage(v, ino, new_size)->Ok_0);
            let out = checked_inode(w, ino)->Ok_0;
            &&& checked_inode(w, ino) is Ok
            &&& size_of_file(out) == new_size
            &&& mode_of(out) == mode_of(raw)
            &&& forall|l: int| #[trigger]
                block_contents(w, block_area_of(out), ctx, l) == cut_block(
                    v.bs(),
                    new_size as int,
                    l,
                    block_contents(v, block_area_of(raw), ctx, l),
                )
            &&& clear_end(w, block_area_of(out), ctx, new_size as int)
            &&& w.wf()
            &&& file_stands(w, ino, block_area_of(out))
        }),
{
    let area = block_area_of(raw);
    let bs = v.bs();
    let size = new_size as int;
    let st = cut_stage(v, ino, raw, new_size)->Ok_0;
    let w0 = committed(v, st);
    let fin = shrink_stage(v, ino, new_size)->Ok_0;
    let w = committed(v, fin);
    lemma_cut(v, ino, raw, new_size, ctx);
    let out = checked_inode(w0, ino)->Ok_0;
    let root = block_area_of(out);
    let t = size / bs;
    lemma_tail_edit(v, ino, raw, st, fin, new_size);
    assert forall|l: int| #[trigger] block_contents(w, root, ctx, l) == cut_block(
        bs,
        size,
        l,
        block_contents(v, area, ctx, l),
    ) by {
        lemma_end_block(bs, size, l);
        assert(extent_for(w.img, bs, root, l, ctx) == extent_for(w0.img, bs, root, l, ctx));
        assert(block_contents(w0, root, ctx, l) == (if l < blocks_for(size, bs) {
            block_contents(v, area, ctx, l)
        } else {
            Ok(zeros(bs as nat))
        }));
        if l < blocks_for(size, bs) {
            lemma_tail_block(v, w0, w, ino, area, root, ctx, new_size, l);
        }
    }
    if size % bs != 0 {
        assert(extent_for(v.img, bs, area, t, ctx) == extent_for(v.img, bs, area, t, None));
        lemma_block_for_found(v.img, bs, area, t);
    }
    lemma_cut_is_clear(v, w, area, root, ctx, size);
    assert forall|l: int, p: int| #[trigger] tree_maps(w.img, bs, root, levels(root), l, p) implies !is_meta(w, p) && p
        != record_block(w, ino) by {
        assert(tree_maps(w0.img, bs, root, 0, l, p));
        assert(tree_maps(v.img, bs, area, levels(area), l, p));
        lemma_meta_same(v, fin, p);
        lemma_same_place(v, fin, ino);
    }
    lemma_meta_same(v, fin, record_block(v, ino));
    lemma_same_place(v, fin, ino);
    crate::commit::lemma_published_len(v.groups, fin.cleared);
}

/// Committing a stage moves no bookkeeping.
proof fn lemma_meta_same(v: Vol, st: Stage, k: int)
    ensures
        is_meta(committed(v, st), k) == is_meta(v, k),
{
    let w = committed(v, st);
    crate::commit::lemma_published_len(v.groups, st.cleared);
    assert forall|gi: int| 0 <= gi < v.groups.len() implies (#[trigger] w.groups[gi]).block_bitmap
        == v.groups[gi].block_bitmap && w.groups[gi].inode_bitmap == v.groups[gi].inode_bitmap by {
        crate::commit::lemma_published_keeps(v.groups, st.cleared, gi);
    }
    if is_meta(v, k) {
        if exists|gi: int| 0 <= gi < v.groups.len() && k == (#[trigger] v.groups[gi]).block_bitmap {
            let gi = choose|gi: int| 0 <= gi < v.groups.len() && k == (#[trigger] v.groups[gi]).block_bitmap;
            assert(w.groups[gi].block_bitmap == k);
        } else if exists|gi: int| 0 <= gi < v.groups.len() && k == (#[trigger] v.groups[gi]).inode_bitmap {
            let gi = choose|gi: int| 0 <= gi < v.groups.len() && k == (#[trigger] v.groups[gi]).inode_bitmap;
            assert(w.groups[gi].inode_bitmap == k);
        }
    }
}

/// What was cut off a file does not come back when the file grows: it reads as
/// zeros.
pub proof fn law_cut_off_bytes_do_not_come_back(
    v: Vol,
    ino: u32,
    raw: Seq<u8>,
    less: u64,
    more: u64,
    now: u32,
    ctx: Option<ExtentVerifyCtx>,
)
    requires
        v.wf(),
        checked_inode(v, ino) == Ok::<Seq<u8>, Error>(raw),
        mode_is_file(mode_of(raw)),
        file_stands(v, ino, block_area_of(raw)),
        mapped_once(v, block_area_of(raw)),
        shrink_stage(v, ino, less) is Ok,
        grow_stage(committed(v, shrink_stage(v, ino, less)->Ok_0), ino, more, now) is Ok,
    ensures
        ({
            let mid = committed(v, shrink_stage(v, ino, less)->Ok_0);
            let w = committed(mid, grow_stage(mid, ino, more, now)->Ok_0);
            let out = checked_inode(w, ino)->Ok_0;
            &&& checked_inode(w, ino) is Ok
            &&& size_of_file(out) == more
            &&& file_part(w, block_area_of(out), ctx, less as int, more as int) == Ok::<Seq<u8>, Error>(
                zeros((more - less) as nat),
            )
        }),
{
    law_cut_file_keeps_its_start(v, ino, raw, less, ctx);
    let mid = committed(v, shrink_stage(v, ino, less)->Ok_0);
    law_grown_range_reads_as_zeros(mid, ino, checked_inode(mid, ino)->Ok_0, more, now, ctx);
}

/// Of two volumes, one is the other with the rest of a file's last block zero.
pub open spec fn tail_edited(v: Vol, w0: Vol, w: Vol, area: Seq<u8>, size: int) -> bool {
    let bs = v.bs();
    if size % bs == 0 {
        w == w0
    } else {
        match block_for(v.img, bs, area, size / bs) {
            Err(_) => false,
            Ok(None) => w == w0,
            Ok(Some(p)) => {
                &&& block_at(v.img, bs, p as int) is Ok
                &&& block_at(w.img, bs, p as int) == Ok::<Seq<u8>, Error>(
                    zeroed_from(block_at(v.img, bs, p as int)->Ok_0, size % bs),
                )
                &&& forall|k: int| k >= 0 && k != p ==> #[trigger] block_at(w.img, bs, k) == block_at(w0.img, bs, k)
            },
        }
    }
}

/// What clearing the end of a cut file does to the volume.
proof fn lemma_tail_edit(v: Vol, ino: u32, raw: Seq<u8>, st: Stage, fin: Stage, new_size: u64)
    requires
        v.wf(),
        file_stands(v, ino, block_area_of(raw)),
        crate::attr::tail_cleared(v, st, block_area_of(raw), new_size as int) == Ok::<Stage, Error>(fin),
        crate::size_laws::only_record(v, committed(v, st), ino),
    ensures
        ({
            let w0 = committed(v, st);
            let w = committed(v, fin);
            &&& checked_inode(w, ino) == checked_inode(w0, ino)
            &&& w.sb == v.sb
            &&& w.img.len() == w0.img.len()
            &&& tail_edited(v, w0, w, block_area_of(raw), new_size as int)
        }),
{
    let bs = v.bs();
    let area = block_area_of(raw);
    let t = new_size as int / bs;
    let w0 = committed(v, st);
    let w = committed(v, fin);
    if new_size as int % bs != 0 {
        if let Ok(Some(p)) = block_for(v.img, bs, area, t) {
            lemma_block_for_found(v.img, bs, area, t);
            assert(tree_maps(v.img, bs, area, levels(area), t, p as int));
            assert(block_at(w0.img, bs, p as int) == block_at(v.img, bs, p as int));
            let b = block_at(v.img, bs, p as int)->Ok_0;
            let put = zeroed_from(b, new_size as int % bs);
            lemma_with_block(st.img, bs, p as int, put, p as int);
            assert forall|k: int| k >= 0 && k != p implies #[trigger] block_at(w.img, bs, k) == block_at(w0.img, bs, k) by {
                lemma_with_block(st.img, bs, p as int, put, k);
            }
            lemma_same_place(v, st, ino);
            lemma_same_place(v, fin, ino);
            assert(block_at(w.img, bs, record_block(v, ino)) == block_at(w0.img, bs, record_block(v, ino)));
        }
    }
}

/// One block of a cut file, before and after its end was cleared.
proof fn lemma_tail_block(
    v: Vol,
    w0: Vol,
    w: Vol,
    ino: u32,
    area: Seq<u8>,
    root: Seq<u8>,
    ctx: Option<ExtentVerifyCtx>,
    new_size: u64,
    l: int,
)
    requires
        v.wf(),
        w.sb == v.sb,
        w0.sb == v.sb,
        mapped_once(v, area),
        levels(area) == 0,
        levels(root) == 0,
        l * v.bs() < new_size,
        where_is(extent_for(w0.img, v.bs(), root, l, ctx), l) == where_is(extent_for(v.img, v.bs(), area, l, ctx), l),
        block_contents(w0, root, ctx, l) == block_contents(v, area, ctx, l),
        tail_edited(v, w0, w, area, new_size as int),
    ensures
        block_contents(w, root, ctx, l) == cut_block(v.bs(), new_size as int, l, block_contents(v, area, ctx, l)),
{
    let bs = v.bs();
    let size = new_size as int;
    let t = size / bs;
    lemma_end_block(bs, size, l);
    assert(extent_for(w.img, bs, root, l, ctx) == extent_for(w0.img, bs, root, l, ctx));
    assert(extent_for(v.img, bs, area, l, ctx) == extent_for(v.img, bs, area, l, None));
    lemma_block_for_found(v.img, bs, area, t);
    lemma_found_in_tree(v.img, bs, area, 0, l, ctx);
    if size % bs == 0 {
    } else if let Ok(Some(p)) = block_for(v.img, bs, area, t) {
        if let Ok(Some(e)) = extent_for(v.img, bs, area, l, ctx) {
            assert(tree_maps(v.img, bs, area, levels(area), l, e.place(l)));
            if l != t {
                assert(e.place(l) != p);
            }
        }
        if l == t {
            assert(block_contents(v, area, ctx, l) == block_at(v.img, bs, p as int));
        }
    } else if l == t {
        assert(block_contents(v, area, ctx, l) == Ok::<Seq<u8>, Error>(zeros(bs as nat)));
        assert(zeroed_from(zeros(bs as nat), size % bs) =~= zeros(bs as nat));
    }
}

/// Behind the end of a cut file everything is zero.
proof fn lemma_cut_is_clear(v: Vol, w: Vol, area: Seq<u8>, root: Seq<u8>, ctx: Option<ExtentVerifyCtx>, size: int)
    requires
        v.wf(),
        w.sb == v.sb,
        size >= 0,
        forall|l: int| #[trigger]
            block_contents(w, root, ctx, l) == cut_block(v.bs(), size, l, block_contents(v, area, ctx, l)),
        size % v.bs() != 0 ==> block_contents(v, area, ctx, size / v.bs()) is Ok,
    ensures
        clear_end(w, root, ctx, size),
{
    let bs = v.bs();
    assert forall|at: int| at >= size && at >= 0 implies #[trigger] file_byte(w, root, ctx, at) == 0 && block_contents(
        w,
        root,
        ctx,
        at / bs,
    ) is Ok by {
        let l = at / bs;
        vstd::arithmetic::div_mod::lemma_fundamental_div_mod(at, bs);
        assert(bs * l == l * bs) by (nonlinear_arith);
        lemma_end_block(bs, size, l);
        assert(block_contents(w, root, ctx, l) == cut_block(bs, size, l, block_contents(v, area, ctx, l)));
        if l * bs < size {
            let b = block_contents(v, area, ctx, l)->Ok_0;
            assert(b.len() == bs);
        }
    }
}

/// A file that was grown is as long as it was asked to be and holds what it
/// held. Where there was nothing but zeros behind its end, the bytes that it
/// gained read as zeros.
pub proof fn law_grown_range_reads_as_zeros(v: Vol, ino: u32, raw: Seq<u8>, new_size: u64, now: u32, ctx: Option<
    ExtentVerifyCtx,
>)
    requires
        v.wf(),
        checked_inode(v, ino) == Ok::<Seq<u8>, Error>(raw),
        mode_is_file(mode_of(raw)),
        file_stands(v, ino, block_area_of(raw)),
        clear_end(v, block_area_of(raw), ctx, size_of_file(raw) as int),
        grow_stage(v, ino, new_size, now) is Ok,
    ensures
        ({
            let w = committed(v, grow_stage(v, ino, new_size, now)->Ok_0);
            let out = checked_inode(w, ino)->Ok_0;
            let size = size_of_file(raw) as int;
            &&& checked_inode(w, ino) is Ok
            &&& size_of_file(out) == new_size
            &&& file_part(w, block_area_of(out), ctx, size, new_size as int) == Ok::<Seq<u8>, Error>(
                zeros((new_size - size) as nat),
            )
            &&& forall|to: int|
                0 <= to <= size && readable(v, block_area_of(raw), ctx, 0, to) ==> #[trigger] file_part(w, block_area_of(out), ctx, 0, to) == file_part(
                    v,
                    block_area_of(raw),
                    ctx,
                    0,
                    to,
                )
            &&& clear_end(w, block_area_of(out), ctx, new_size as int)
        }),
{
    let bs = v.bs();
    let area = block_area_of(raw);
    let size = size_of_file(raw) as int;
    let w = committed(v, grow_stage(v, ino, new_size, now)->Ok_0);
    law_grown_file_keeps_its_contents(v, ino, raw, new_size, now, ctx);
    let out = checked_inode(w, ino)->Ok_0;
    let root = block_area_of(out);
    assert forall|at: int| at >= size && at >= 0 implies #[trigger] file_byte(w, root, ctx, at) == 0 && block_contents(
        w,
        root,
        ctx,
        at / bs,
    ) is Ok by {
        assert(block_contents(w, root, ctx, at / bs) == block_contents(v, area, ctx, at / bs));
        assert(file_byte(v, area, ctx, at) == 0);
    }
    lemma_clear_reads(w, root, ctx, size, new_size as int);
    assert forall|to: int| 0 <= to <= size && readable(v, area, ctx, 0, to) implies #[trigger] file_part(
        w,
        root,
        ctx,
        0,
        to,
    ) == file_part(v, area, ctx, 0, to) by {
        lemma_parts_same(v, w, area, root, ctx, to);
    }
}

/// A part behind the end of a file with a clear end can be read.
proof fn lemma_clear_readable(w: Vol, root: Seq<u8>, ctx: Option<ExtentVerifyCtx>, size: int, to: int)
    requires
        w.wf(),
        0 <= size <= to,
        clear_end(w, root, ctx, size),
    ensures
        readable(w, root, ctx, size, to),
{
    let bs = w.bs();
    if size < to {
        assert forall|l: int| size / bs <= l && l * bs < to implies (#[trigger] block_contents(w, root, ctx, l)) is Ok by {
            let at = if l * bs < size {
                size
            } else {
                l * bs
            };
            lemma_end_block(bs, size, l);
            vstd::arithmetic::div_mod::lemma_fundamental_div_mod(size, bs);
            if l * bs >= size {
                vstd::arithmetic::div_mod::lemma_fundamental_div_mod_converse(at, bs, l, 0);
            } else {
                assert(l <= size / bs) by (nonlinear_arith)
                    requires
                        l * bs < size,
                        bs > 0,
                        size == bs * (size / bs) + size % bs,
                        0 <= size % bs < bs,
                ;
            }
            assert(at / bs == l);
            assert(file_byte(w, root, ctx, at) == 0);
        }
    }
}

/// A read of a part that is zero.
proof fn lemma_clear_reads(w: Vol, root: Seq<u8>, ctx: Option<ExtentVerifyCtx>, size: int, to: int)
    requires
        w.wf(),
        0 <= size <= to,
        clear_end(w, root, ctx, size),
    ensures
        file_part(w, root, ctx, size, to) == Ok::<Seq<u8>, Error>(zeros((to - size) as nat)),
{
    lemma_clear_readable(w, root, ctx, size, to);
    law_read_is_made_of_blocks(w, root, ctx, size, to);
    let got = Seq::new((to - size) as nat, |i: int| file_byte(w, root, ctx, size + i));
    assert forall|i: int| 0 <= i < to - size implies #[trigger] got[i] == 0 by {
        assert(file_byte(w, root, ctx, size + i) == 0);
    }
    assert(got =~= zeros((to - size) as nat));
}

/// A read of blocks that hold the same.
proof fn lemma_parts_same(v: Vol, w: Vol, area: Seq<u8>, root: Seq<u8>, ctx: Option<ExtentVerifyCtx>, to: int)
    requires
        v.wf(),
        w.sb == v.sb,
        0 <= to,
        readable(v, area, ctx, 0, to),
        forall|l: int| #[trigger] block_contents(w, root, ctx, l) == block_contents(v, area, ctx, l),
    ensures
        file_part(w, root, ctx, 0, to) == file_part(v, area, ctx, 0, to),
{
    law_read_is_made_of_blocks(v, area, ctx, 0, to);
    law_read_is_made_of_blocks(w, root, ctx, 0, to);
    let a = Seq::new(to as nat, |i: int| file_byte(v, area, ctx, 0 + i));
    let b = Seq::new(to as nat, |i: int| file_byte(w, root, ctx, 0 + i));
    assert forall|i: int| 0 <= i < to implies #[trigger] a[i] == b[i] by {
        assert(block_contents(w, root, ctx, i / v.bs()) == block_contents(v, area, ctx, i / v.bs()));
    }
    assert(a =~= b);
}

/// A positional write leaves nothing but zeros behind the end of a file that
/// had nothing else there. What it skips, where it starts behind the end, reads
/// as zeros.
pub proof fn law_write_keeps_the_end_clear(
    v: Vol,
    path: Seq<u8>,
    ino: u32,
    raw: Seq<u8>,
    ctx: Option<ExtentVerifyCtx>,
    offset: u64,
    data: Seq<u8>,
    now: u32,
)
    requires
        leads_to(v, path, ino, raw, ctx),
        clear_end(v, block_area_of(raw), ctx, size_of_file(raw) as int),
        blocks_for(offset + data.len(), v.bs()) <= FILE_BLOCKS,
        pwritten(v, path, offset, data, now).1 is Ok,
    ensures
        ({
            let w = pwritten(v, path, offset, data, now).0;
            let out = checked_inode(w, ino)->Ok_0;
            let size = size_of_file(raw) as int;
            &&& size < offset ==> file_part(w, block_area_of(out), ctx, size, offset as int) == Ok::<Seq<u8>, Error>(
                zeros((offset - size) as nat),
            )
            &&& forall|at: int, to: int|
                size_of_file(out) <= at <= to && at >= offset + data.len() ==> #[trigger] file_part(
                    w,
                    block_area_of(out),
                    ctx,
                    at,
                    to,
                ) == Ok::<Seq<u8>, Error>(zeros((to - at) as nat))
        }),
{
    let area = block_area_of(raw);
    let size = size_of_file(raw) as int;
    law_pwrite_overlays_the_file(v, path, ino, raw, ctx, offset, data, now);
    let w = pwritten(v, path, offset, data, now).0;
    let out = checked_inode(w, ino)->Ok_0;
    let root = block_area_of(out);
    if size < offset {
        lemma_over_clear(v, w, area, root, ctx, size, offset as int, data, size, offset as int);
    }
    assert forall|at: int, to: int|
        size_of_file(out) <= at <= to && at >= offset + data.len() implies #[trigger] file_part(w, root, ctx, at, to)
        == Ok::<Seq<u8>, Error>(zeros((to - at) as nat)) by {
        lemma_over_clear(v, w, area, root, ctx, size, offset as int, data, at, to);
    }
}

/// A part that a write did not touch, and that was clear.
proof fn lemma_over_clear(
    v: Vol,
    w: Vol,
    area: Seq<u8>,
    root: Seq<u8>,
    ctx: Option<ExtentVerifyCtx>,
    size: int,
    offset: int,
    data: Seq<u8>,
    from: int,
    to: int,
)
    requires
        v.wf(),
        0 <= size <= from <= to,
        to <= offset || from >= offset + data.len(),
        clear_end(v, area, ctx, size),
        readable(v, area, ctx, from, to) ==> file_part(w, root, ctx, from, to) == Ok::<Seq<u8>, Error>(
            written_over(v, area, ctx, offset, data, from, to),
        ),
    ensures
        file_part(w, root, ctx, from, to) == Ok::<Seq<u8>, Error>(zeros((to - from) as nat)),
{
    assert(clear_end(v, area, ctx, from)) by {
        assert forall|at: int| at >= from && at >= 0 implies #[trigger] file_byte(v, area, ctx, at) == 0
            && block_contents(v, area, ctx, at / v.bs()) is Ok by {
            assert(file_byte(v, area, ctx, at) == 0);
        }
    }
    lemma_clear_readable(v, area, ctx, from, to);
    let got = written_over(v, area, ctx, offset, data, from, to);
    assert forall|i: int| 0 <= i < to - from implies #[trigger] got[i] == 0 by {
        assert(file_byte(v, area, ctx, from + i) == 0);
    }
    assert(got =~= zeros((to - from) as nat));
}

} // verus!
