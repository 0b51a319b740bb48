//! What cutting or growing the file at a path comes to.
use crate::allocator::blocks_for;
use crate::attr::{cut_stage, grow_stage, shrink_stage, tail_cleared, zeroed_from};
use crate::block_io::{block_at, lemma_with_block};
use crate::books::{books_apart, lemma_books_same, lemma_totals_booked};
use crate::capi::{host_inode, resized};
use crate::commit::committed;
use crate::content_laws::record_block;
use crate::dirops::{resolve, EXT4_ROOT_INODE};
use crate::error::Error;
use crate::extent::{block_for, extents_in, header_at, Extent, ExtentVerifyCtx};
use crate::file_io::file_part;
use crate::file_mut::{freed_above, runs_total, shrink_planned, stage_free_runs};
use crate::frame_laws::{is_meta, lemma_free_runs_framed, lemma_totals_framed};
use crate::fs::{checked_inode, write_refusal};
use crate::inode::{block_area_of, mode_is_file, mode_of, size_of_file};
use crate::name_laws::{
    lemma_moved_beside, lemma_moved_framed, lemma_moved_on, lemma_moved_record, moved, own_slot, quiet,
};
use crate::pwrite_laws::{lemma_block_for_found, levels};
use crate::range_laws::{file_byte, law_read_is_made_of_blocks, readable};
use crate::reach_laws::{beside, lemma_walk_beside, path_clear, slot_block};
use crate::release_laws::{
    block_is_free, lemma_record_uses, lemma_runs_released, lemma_runs_stay_free, lemma_same_used,
    lemma_used_on, no_more_used,
};
use crate::size_laws::{file_stands, law_grown_file_keeps_its_contents};
use crate::stage::stage_inode;
use crate::tail_laws::{clear_end, law_cut_file_keeps_its_start, mapped_once};
use crate::tree_laws::{leaf_maps, tree_maps};
use crate::volume::{fresh_stage, Stage, Vol};
use crate::write_laws::block_contents;
use vstd::prelude::*;

verus! {

broadcast use crate::bytes::group_fields;

/// Block `k` is one of a file's.
pub open spec fn file_holds(v: Vol, area: Seq<u8>, k: int) -> bool {
    exists|l: int| #[trigger] tree_maps(v.img, v.bs(), area, levels(area), l, k)
}

/// The blocks that are neither bookkeeping, nor a file's, nor hold its record.
pub open spec fn off_file(v: Vol, ino: u32, area: Seq<u8>) -> spec_fn(int) -> bool {
    |k: int| k >= 0 && !is_meta(v, k) && k != record_block(v, ino) && !file_holds(v, area, k)
}

/// A path leads to a regular file in good order, and following it reads neither
/// bookkeeping nor a block of the file.
pub open spec fn file_at(v: Vol, path: Seq<u8>, ino: u32, raw: Seq<u8>) -> bool {
    &&& v.wf()
    &&& host_inode(v, path) == Ok::<(u32, Seq<u8>), Error>((ino, raw))
    &&& mode_is_file(mode_of(raw))
    &&& file_stands(v, ino, block_area_of(raw))
    &&& mapped_once(v, block_area_of(raw))
    &&& path_clear(v, off_file(v, ino, block_area_of(raw)), seq![own_slot(v, ino)], Seq::empty(), path, 0, EXT4_ROOT_INODE)
}

/// A file that was cut or grown is at its path, and as long as it was asked to
/// be. As far as it reaches in both cases it holds what it held. What it has
/// lost is gone: from its end on there are only zeros; and what it has gained is
/// zeros, where there were only zeros behind its end.
pub proof fn law_resized_file_has_its_size(
    writable: bool,
    v: Vol,
    path: Seq<u8>,
    ino: u32,
    raw: Seq<u8>,
    size: u64,
    now: u32,
    ctx: Option<ExtentVerifyCtx>,
)
    requires
        file_at(v, path, ino, raw),
        resized(writable, v, path, size, now).1 is Ok,
    ensures
        ({
            let w = resized(writable, v, path, size, now).0;
            let out = checked_inode(w, ino)->Ok_0;
            let was = size_of_file(raw);
            &&& resolve(w, path) == Ok::<u32, Error>(ino)
            &&& checked_inode(w, ino) is Ok
            &&& size_of_file(out) == size
            &&& mode_of(out) == mode_of(raw)
            &&& forall|to: int|
                0 <= to <= was && to <= size && readable(v, block_area_of(raw), ctx, 0, to) ==> #[trigger] file_part(
                    w,
                    block_area_of(out),
                    ctx,
                    0,
                    to,
                ) == file_part(v, block_area_of(raw), ctx, 0, to)
            &&& size < was ==> clear_end(w, block_area_of(out), ctx, size as int)
            &&& clear_end(v, block_area_of(raw), ctx, was as int) ==> clear_end(
                w,
                block_area_of(out),
                ctx,
                (if size < was {
                    size as int
                } else {
                    was as int
                }),
            )
        }),
{
    let w = resized(writable, v, path, size, now).0;
    let area = block_area_of(raw);
    let was = size_of_file(raw);
    if size >= was {
        law_grown_file_keeps_its_contents(v, ino, raw, size, now, ctx);
        lemma_grown_beside(v, ino, raw, size, now);
    } else {
        law_cut_file_keeps_its_start(v, ino, raw, size, ctx);
        lemma_cut_beside(v, ino, raw, size);
    }
    let out = checked_inode(w, ino)->Ok_0;
    let root = block_area_of(out);
    let safe = off_file(v, ino, area);
    lemma_walk_beside(v, w, safe, safe, seq![own_slot(v, ino)], path, 0, EXT4_ROOT_INODE);
    assert forall|to: int| 0 <= to <= was && to <= size && readable(v, area, ctx, 0, to) implies #[trigger] file_part(
        w,
        root,
        ctx,
        0,
        to,
    ) == file_part(v, area, ctx, 0, to) by {
        lemma_start_same(v, w, area, root, ctx, size as int, to);
    }
    if size >= was && clear_end(v, area, ctx, was as int) {
        assert forall|at: int| at >= was && at >= 0 implies #[trigger] file_byte(w, root, ctx, at) == 0 && block_contents(
            w,
            root,
            ctx,
            at / w.bs(),
        ) is Ok by {
            assert(file_byte(v, area, ctx, at) == 0);
            assert(block_contents(w, root, ctx, at / v.bs()) == block_contents(v, area, ctx, at / v.bs()));
        }
    }
}

/// A read below the end of blocks that are the same up to there.
proof fn lemma_start_same(v: Vol, w: Vol, area: Seq<u8>, root: Seq<u8>, ctx: Option<ExtentVerifyCtx>, size: int, to: int)
    requires
        v.wf(),
        w.sb == v.sb,
        0 <= to <= size,
        readable(v, area, ctx, 0, to),
        forall|l: int|
            l * v.bs() < size ==> ((#[trigger] block_contents(w, root, ctx, l)) == block_contents(v, area, ctx, l) || (
            block_contents(v, area, ctx, l) is Ok && block_contents(w, root, ctx, l) == Ok::<Seq<u8>, Error>(
                zeroed_from(block_contents(v, area, ctx, l)->Ok_0, size - l * v.bs()),
            )) || block_contents(v, area, ctx, l) is Err),
    ensures
        file_part(w, root, ctx, 0, to) == file_part(v, area, ctx, 0, to),
{
    let bs = v.bs();
    assert forall|l: int| 0 <= l && l * bs < to implies (#[trigger] block_contents(w, root, ctx, l)) is Ok by {
        assert(0int / bs == 0) by {
            vstd::arithmetic::div_mod::lemma_div_basics(bs);
        }
        assert(block_contents(v, area, ctx, l) is Ok);
    }
    assert(0int / bs == 0) by {
        vstd::arithmetic::div_mod::lemma_div_basics(bs);
    }
    assert(readable(w, root, ctx, 0, to));
    law_read_is_made_of_blocks(v, area, ctx, 0, to);
    law_read_is_made_of_blocks(w, root, ctx, 0, to);
    let a = Seq::new(to as nat, |i: int| file_byte(v, area, ctx, 0 + i));
    let b = Seq::new(to as nat, |i: int| file_byte(w, root, ctx, 0 + i));
    assert forall|i: int| 0 <= i < to implies #[trigger] a[i] == b[i] by {
        let l = i / bs;
        vstd::arithmetic::div_mod::lemma_fundamental_div_mod(i, bs);
        vstd::arithmetic::mul::lemma_mul_is_commutative(l, bs);
        vstd::arithmetic::div_mod::lemma_div_pos_is_pos(i, bs);
        assert(l * bs <= i);
        assert(block_contents(v, area, ctx, l) is Ok);
        assert(block_contents(w, root, ctx, l) is Ok);
    }
    assert(a =~= b);
}

/// A file that is grown leaves the rest of the volume as it was.
proof fn lemma_grown_beside(v: Vol, ino: u32, raw: Seq<u8>, size: u64, now: u32)
    requires
        v.wf(),
        checked_inode(v, ino) == Ok::<Seq<u8>, Error>(raw),
        file_stands(v, ino, block_area_of(raw)),
        grow_stage(v, ino, size, now) is Ok,
    ensures
        beside(
            v,
            committed(v, grow_stage(v, ino, size, now)->Ok_0),
            off_file(v, ino, block_area_of(raw)),
            seq![own_slot(v, ino)],
        ),
{
    let start = fresh_stage(v);
    let fin = grow_stage(v, ino, size, now)->Ok_0;
    let slots = seq![own_slot(v, ino)];
    let new = Seq::<u64>::empty();
    let bare = crate::bytes::put32(
        crate::bytes::put32(
            crate::inode_edit::with_size_and_blocks(raw, size, crate::inode::sectors_of(raw)),
            0x0C,
            now,
        ),
        0x10,
        now,
    );
    let rec = v.csum.stamp_inode_spec(ino, crate::inode::generation_of(raw), bare);
    assert(rec.len() == raw.len());
    lemma_moved_record(v, start, ino, rec, slots, new, 0);
    lemma_off_file(v, start, fin, ino, raw, new);
}

/// A file that is cut leaves the rest of the volume as it was.
proof fn lemma_cut_beside(v: Vol, ino: u32, raw: Seq<u8>, size: u64)
    requires
        v.wf(),
        checked_inode(v, ino) == Ok::<Seq<u8>, Error>(raw),
        file_stands(v, ino, block_area_of(raw)),
        shrink_stage(v, ino, size) is Ok,
    ensures
        beside(
            v,
            committed(v, shrink_stage(v, ino, size)->Ok_0),
            off_file(v, ino, block_area_of(raw)),
            seq![own_slot(v, ino)],
        ),
{
    let start = fresh_stage(v);
    let area = block_area_of(raw);
    let slots = seq![own_slot(v, ino)];
    let fin = shrink_stage(v, ino, size)->Ok_0;
    let st = cut_stage(v, ino, raw, size)->Ok_0;
    let t = size as int / v.bs();
    let tail = block_for(v.img, v.bs(), area, t);
    let new = if size as int % v.bs() != 0 && tail is Ok && tail->Ok_0 is Some {
        seq![tail->Ok_0->Some_0]
    } else {
        Seq::<u64>::empty()
    };
    lemma_block_for_found(v.img, v.bs(), area, t);
    assert forall|k: int| #[trigger] slot_block(slots, k) implies k >= 0 && !is_meta(v, k)
        && !crate::name_laws::is_new(new, k) by {
        assert(k == record_block(v, ino));
    }
    let (root, runs) = shrink_planned(area, size as int, v.bs())->Ok_0;
    let st1 = stage_free_runs(v, start, runs)->Ok_0;
    lemma_free_runs_framed(v, start, runs);
    lemma_moved_framed(v, start, st1, slots, new);
    let freed = runs_total(runs);
    let sectors = crate::attr::less(crate::inode::sectors_of(raw), freed * (v.bs() / 512));
    let bare = crate::inode_edit::with_size_and_blocks(crate::inode_edit::with_block_area(raw, root), size, sectors);
    let rec = v.csum.stamp_inode_spec(ino, crate::inode::generation_of(raw), bare);
    assert(rec.len() == raw.len());
    lemma_moved_record(v, st1, ino, rec, slots, new, 0);
    let st2 = stage_inode(v, st1, ino, rec)->Ok_0;
    lemma_moved_on(v, start, st1, st2, slots, new);
    if freed > 0 {
        lemma_totals_framed(v, st2, freed, 0);
        lemma_moved_framed(v, st2, st, slots, new);
        lemma_moved_on(v, start, st2, st, slots, new);
    }
    if new.len() > 0 {
        let p = new[0] as int;
        let b = block_at(st.img, v.bs(), p)->Ok_0;
        assert(crate::name_laws::is_new(new, p));
        lemma_with_block(st.img, v.bs(), p, zeroed_from(b, size as int % v.bs()), p);
        assert forall|k: int| k >= 0 && k != p implies #[trigger] block_at(fin.img, v.bs(), k) == block_at(
            st.img,
            v.bs(),
            k,
        ) by {
            lemma_with_block(st.img, v.bs(), p, zeroed_from(b, size as int % v.bs()), k);
        }
        assert(moved(v, st, fin, slots, new));
    }
    lemma_moved_on(v, start, st, fin, slots, new);
    lemma_off_file(v, start, fin, ino, raw, new);
}

/// What such a stage leaves of the volume.
proof fn lemma_off_file(v: Vol, start: Stage, fin: Stage, ino: u32, raw: Seq<u8>, new: Seq<u64>)
    requires
        v.wf(),
        start == fresh_stage(v),
        moved(v, start, fin, seq![own_slot(v, ino)], new),
        forall|i: int| 0 <= i < new.len() ==> file_holds(v, block_area_of(raw), #[trigger] new[i] as int),
    ensures
        beside(v, committed(v, fin), off_file(v, ino, block_area_of(raw)), seq![own_slot(v, ino)]),
{
    let slots = seq![own_slot(v, ino)];
    let w = committed(v, fin);
    lemma_moved_beside(v, start, fin, slots, new);
    assert(committed(v, start) == v);
    let safe = off_file(v, ino, block_area_of(raw));
    let more = quiet(v, slots, new);
    assert forall|k: int| #[trigger] safe(k) implies block_at(w.img, v.bs(), k) == block_at(v.img, v.bs(), k) by {
        if slot_block(slots, k) {
            assert(k == record_block(v, ino));
        }
        assert(more(k));
    }
}

/// Growing a file goes through, whatever the size, unless the volume takes no
/// writes.
pub proof fn law_file_can_grow(writable: bool, v: Vol, path: Seq<u8>, ino: u32, raw: Seq<u8>, size: u64, now: u32)
    requires
        v.wf(),
        host_inode(v, path) == Ok::<(u32, Seq<u8>), Error>((ino, raw)),
        mode_is_file(mode_of(raw)),
        size >= size_of_file(raw),
        write_refusal(writable, v) is None,
    ensures
        resized(writable, v, path, size, now).1 == Ok::<(), Error>(()),
{
    let bare = crate::bytes::put32(
        crate::bytes::put32(
            crate::inode_edit::with_size_and_blocks(raw, size, crate::inode::sectors_of(raw)),
            0x0C,
            now,
        ),
        0x10,
        now,
    );
    let rec = v.csum.stamp_inode_spec(ino, crate::inode::generation_of(raw), bare);
    assert(rec.len() == raw.len());
}

/// What is no regular file is neither cut nor grown: the answer is an error, and
/// nothing changes. Nor does anything change where the answer is any other
/// error.
pub proof fn law_only_files_are_resized(writable: bool, v: Vol, path: Seq<u8>, size: u64, now: u32)
    ensures
        resized(writable, v, path, size, now).1 is Err ==> resized(writable, v, path, size, now).0 == v,
        host_inode(v, path) is Err ==> resized(writable, v, path, size, now).1 is Err,
        host_inode(v, path) matches Ok((ino, raw)) ==> !mode_is_file(mode_of(raw)) ==> resized(
            writable,
            v,
            path,
            size,
            now,
        ).1 is Err,
        !writable ==> resized(writable, v, path, size, now).1 is Err,
{
}

/// The blocks of each extent of a leaf lie in one group.
pub open spec fn extents_grouped(v: Vol, node: Seq<u8>) -> bool {
    let all = extents_in(node, header_at(node).entries as nat);
    let per = v.sb.blocks_per_group as int;
    forall|i: int, a: int, b: int|
        0 <= i < all.len() && (#[trigger] all[i]).physical_block <= a < all[i].physical_block + all[i].length
            && all[i].physical_block <= b < all[i].physical_block + all[i].length ==> #[trigger] ((a
            - v.sb.first_data_block) / per) == #[trigger] ((b - v.sb.first_data_block) / per)
}

/// What a cut takes from an extent is among the runs that it releases.
pub(crate) proof fn lemma_cut_released(all: Seq<Extent>, nb: int, i: int, l: int) -> (j: int)
    requires
        0 <= i < all.len(),
        all[i].covers(l),
        l >= nb >= 0,
        all[i].physical_block + all[i].length <= u64::MAX,
    ensures
        0 <= j < freed_above(all, nb).len(),
        all[i].physical_block <= freed_above(all, nb)[j].0 <= all[i].place(l) < freed_above(all, nb)[j].0 + freed_above(
            all,
            nb,
        )[j].1,
    decreases all.len(),
{
    let front = all.drop_last();
    let before = freed_above(front, nb);
    let runs = freed_above(all, nb);
    if i < front.len() {
        assert(front[i] == all[i]);
        let j = lemma_cut_released(front, nb, i, l);
        assert(runs[j] == before[j]);
        j
    } else {
        before.len() as int
    }
}

/// The blocks that a file loses when it is cut are given back: each that was
/// mapped at or behind the new end is free. The blocks of an extent lie in one
/// group.
#[verifier::rlimit(40)]
pub proof fn law_cut_off_blocks_are_given_back(
    writable: bool,
    v: Vol,
    path: Seq<u8>,
    ino: u32,
    raw: Seq<u8>,
    size: u64,
    now: u32,
    l: int,
    p: int,
)
    requires
        file_at(v, path, ino, raw),
        books_apart(v),
        size < size_of_file(raw),
        extents_grouped(v, block_area_of(raw)),
        l >= 0,
        l * v.bs() >= size,
        0 <= p <= u64::MAX,
        tree_maps(v.img, v.bs(), block_area_of(raw), levels(block_area_of(raw)), l, p),
        resized(writable, v, path, size, now).1 is Ok,
    ensures
        block_is_free(v, resized(writable, v, path, size, now).0.img, p),
        no_more_used(v, v.img, resized(writable, v, path, size, now).0.img),
{
    let start = fresh_stage(v);
    let area = block_area_of(raw);
    let bs = v.bs();
    let fin = shrink_stage(v, ino, size)->Ok_0;
    let st = cut_stage(v, ino, raw, size)->Ok_0;
    let (root, runs) = shrink_planned(area, size as int, bs)->Ok_0;
    let st1 = stage_free_runs(v, start, runs)->Ok_0;
    let freed = runs_total(runs);
    let sectors = crate::attr::less(crate::inode::sectors_of(raw), freed * (bs / 512));
    let bare = crate::inode_edit::with_size_and_blocks(crate::inode_edit::with_block_area(raw, root), size, sectors);
    let rec = v.csum.stamp_inode_spec(ino, crate::inode::generation_of(raw), bare);
    assert(rec.len() == raw.len());
    let st2 = stage_inode(v, st1, ino, rec)->Ok_0;
    lemma_runs_released(v, start, runs);
    lemma_record_uses(v, st1, ino, rec);
    lemma_used_on(v, v.img, st1.img, st2.img);
    if freed > 0 {
        lemma_totals_booked(v, st2, freed, 0);
        lemma_same_used(v, st2.img, st.img);
    } else {
        lemma_same_used(v, st2.img, st.img);
    }
    lemma_used_on(v, v.img, st2.img, st.img);
    lemma_tail_uses(v, ino, raw, st, fin, size);
    lemma_used_on(v, v.img, st.img, fin.img);
    lemma_used_on(v, st1.img, st2.img, st.img);
    lemma_used_on(v, st1.img, st.img, fin.img);
    lemma_runs_stay_free(v, st1.img, fin.img, runs);
    let n = header_at(area).entries as nat;
    let all = extents_in(area, n);
    assert(leaf_maps(area, l, p));
    let i = choose|i: int| 0 <= i < n && (#[trigger] extents_in(area, n)[i]).covers(l) && extents_in(area, n)[i].place(l) == p;
    let nb = blocks_for(size as int, bs);
    lemma_at_or_behind(bs, size as int, l);
    crate::extent::lemma_extents_short(v.img, bs, area);
    assert(crate::extent::extents_of(v.img, bs, area)->Ok_0 == all);
    let j = lemma_cut_released(all, nb, i, l);
    let a = runs[j].0 as int;
    assert(all[i].physical_block <= a < all[i].physical_block + all[i].length);
    assert((a - v.sb.first_data_block) / (v.sb.blocks_per_group as int) == (p - v.sb.first_data_block) / (
    v.sb.blocks_per_group as int));
    assert(block_is_free(v, fin.img, p));
}

pub(crate) proof fn lemma_at_or_behind(bs: int, size: int, l: int)
    requires
        bs > 0,
        size >= 0,
        l >= 0,
        l * bs >= size,
    ensures
        0 <= blocks_for(size, bs) <= l,
{
    let n = blocks_for(size, bs);
    assert(n == (size + bs - 1) / bs);
    vstd::arithmetic::div_mod::lemma_fundamental_div_mod(size + bs - 1, bs);
    vstd::arithmetic::div_mod::lemma_div_pos_is_pos(size + bs - 1, bs);
    assert(bs * n == n * bs) by (nonlinear_arith);
    assert(n <= l) by (nonlinear_arith)
        requires
            n * bs <= size + bs - 1,
            l * bs >= size,
            bs > 0,
    ;
}

/// Clearing the end of a file's last block changes nothing of what is in use.
proof fn lemma_tail_uses(v: Vol, ino: u32, raw: Seq<u8>, st: Stage, fin: Stage, size: u64)
    requires
        v.wf(),
        file_stands(v, ino, block_area_of(raw)),
        tail_cleared(v, st, block_area_of(raw), size as int) == Ok::<Stage, Error>(fin),
    ensures
        no_more_used(v, st.img, fin.img),
{
    let area = block_area_of(raw);
    let t = size as int / v.bs();
    lemma_block_for_found(v.img, v.bs(), area, t);
    if size as int % v.bs() != 0 && block_for(v.img, v.bs(), area, t)->Ok_0 is Some {
        let p = block_for(v.img, v.bs(), area, t)->Ok_0->Some_0 as int;
        let b = block_at(st.img, v.bs(), p)->Ok_0;
        let put = zeroed_from(b, size as int % v.bs());
        assert forall|k: int| k >= 0 && is_meta(v, k) implies #[trigger] block_at(fin.img, v.bs(), k) == block_at(
            st.img,
            v.bs(),
            k,
        ) by {
            lemma_with_block(st.img, v.bs(), p, put, k);
        }
        lemma_books_same(v, st.img, fin.img);
    }
    lemma_same_used(v, st.img, fin.img);
}

} // verus!
