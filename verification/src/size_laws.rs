//! What a file holds after it was cut, grown, or had a hole punched in it.
use crate::allocator::{blocks_for, law_planned_run_is_free, law_planned_run_within};
use crate::attr::{cut_stage, grow_stage, less};
use crate::block_io::block_at;
use crate::bytes::{le16, le32, put32, zeros};
use crate::checksum::{inode_crc_ok, law_stamped_inode_verifies};
use crate::commit::committed;
use crate::content_laws::{law_record_reads_back, lemma_after_write, record_block};
use crate::contents::{
    after_hole, any_mapped, before_hole, lemma_range_blocks, prealloc_stage, punch_stage, punched, punched_runs, reblocked,
    zeroed_range,
};
use crate::error::Error;
use crate::extent::{
    block_for, covering, extent_for, extents_in, extents_of, header_at, header_of, Extent, ExtentHeader, ExtentVerifyCtx, EXT4_EXT_MAGIC,
};
use crate::extent_laws::{law_insert_maps, lemma_inserted_storable};
use crate::extent_mut::{
    all_storable, inserted, leaf_insert, leaf_of, node_bytes, storable,
};
use crate::file_mut::{keep_one, kept_below, runs_total, shrink_planned, stage_free_runs};
use crate::frame_laws::{framed, is_meta, lemma_block_plan_framed, lemma_free_runs_framed, lemma_totals_framed};
use crate::fs::{checked_inode, raw_inode, write_refusal};
use crate::grow::{as_logical, bitmaps_of, home_group, stage_block_plan, volume_plan};
use crate::growth_laws::{lemma_inserted_len, lemma_leaf_fields, lemma_read_storable};
use crate::inode::{
    block_area_of, extra_isize_of, generation_of, inode_fault, mode_is_dir, mode_is_file, mode_of, sectors_of,
    size_of_file,
};
use crate::inode_edit::{with_block_area, with_size_and_blocks};
use crate::order_laws::{tree_in_order, where_is, FILE_BLOCKS};
use crate::pwrite_laws::levels;
use crate::stage::stage_inode;
use crate::tree_laws::{lemma_found_in_tree, lemma_lookup_same, lemma_node_number, tree_maps, tree_node};
use crate::volume::{fresh_stage, Stage, Vol};
use crate::write_laws::block_contents;
use vstd::prelude::*;

verus! {

broadcast use crate::bytes::group_fields;

/// The blocks of a file and of its tree hold neither bookkeeping nor the
/// file's record, and the record is not among the bookkeeping either.
pub open spec fn file_stands(v: Vol, ino: u32, area: Seq<u8>) -> bool {
    &&& !is_meta(v, record_block(v, ino))
    &&& forall|l: int, p: int| #[trigger]
        tree_maps(v.img, v.bs(), area, levels(area), l, p) ==> !is_meta(v, p) && p != record_block(v, ino)
    &&& forall|k: int| #[trigger]
        tree_node(v.img, v.bs(), area, levels(area), k) ==> !is_meta(v, k) && k != record_block(v, ino)
}

/// Nothing but bookkeeping and the file's record changed.
pub open spec fn only_record(v: Vol, w: Vol, ino: u32) -> bool {
    &&& w.sb == v.sb
    &&& forall|k: int|
        k >= 0 && !is_meta(v, k) && k != record_block(v, ino) ==> #[trigger] block_at(w.img, v.bs(), k) == block_at(
            v.img,
            v.bs(),
            k,
        )
}

/// A file's blocks hold what they did.
pub(crate) proof fn lemma_contents_kept(v: Vol, w: Vol, ino: u32, area: Seq<u8>, ctx: Option<ExtentVerifyCtx>, l: int)
    requires
        file_stands(v, ino, area),
        only_record(v, w, ino),
    ensures
        block_contents(w, area, ctx, l) == block_contents(v, area, ctx, l),
{
    let d = levels(area);
    if header_of(area) is Ok {
        assert forall|k: int| #[trigger] tree_node(v.img, v.bs(), area, d, k) implies block_at(w.img, v.bs(), k)
            == block_at(v.img, v.bs(), k) by {
            lemma_node_number(v.img, v.bs(), area, d, k);
        }
        lemma_lookup_same(v.img, w.img, v.bs(), area, d, l, ctx);
        lemma_found_in_tree(v.img, v.bs(), area, d, l, ctx);
    }
}

/// A record staged over bookkeeping, with more bookkeeping behind it.
pub(crate) proof fn lemma_recorded(v: Vol, st: Stage, ino: u32, rec: Seq<u8>, fin: Stage)
    requires
        v.wf(),
        framed(v, fresh_stage(v), st),
        !is_meta(v, record_block(v, ino)),
        rec.len() == v.sb.inode_size,
        stage_inode(v, st, ino, rec) is Ok,
        framed(v, stage_inode(v, st, ino, rec)->Ok_0, fin),
    ensures
        only_record(v, committed(v, fin), ino),
        raw_inode(committed(v, fin), ino) == Ok::<Seq<u8>, Error>(rec),
        fin.img.len() == v.img.len(),
{
    let mid = stage_inode(v, st, ino, rec)->Ok_0;
    law_record_reads_back(v, st, ino, rec, 0);
    assert forall|k: int| k >= 0 && !is_meta(v, k) && k != record_block(v, ino) implies #[trigger] block_at(
        fin.img,
        v.bs(),
        k,
    ) == block_at(v.img, v.bs(), k) by {
        law_record_reads_back(v, st, ino, rec, k);
        assert(block_at(fin.img, v.bs(), k) == block_at(mid.img, v.bs(), k));
        assert(block_at(st.img, v.bs(), k) == block_at(fresh_stage(v).img, v.bs(), k));
    }
    crate::content_laws::lemma_same_place(v, mid, ino);
    crate::content_laws::lemma_same_place(v, fin, ino);
    assert(block_at(fin.img, v.bs(), record_block(v, ino)) == block_at(mid.img, v.bs(), record_block(v, ino)));
}

/// A file that was grown is as long as it was asked to be, and its blocks hold
/// what they held.
pub proof fn law_grown_file_keeps_its_contents(v: Vol, ino: u32, raw: Seq<u8>, new_size: u64, now: u32, ctx: Option<
    ExtentVerifyCtx,
>)
    requires
        v.wf(),
        checked_inode(v, ino) == Ok::<Seq<u8>, Error>(raw),
        mode_is_file(mode_of(raw)),
        file_stands(v, ino, block_area_of(raw)),
        grow_stage(v, ino, new_size, now) is Ok,
    ensures
        ({
            let w = committed(v, grow_stage(v, ino, new_size, now)->Ok_0);
            let out = checked_inode(w, ino)->Ok_0;
            &&& checked_inode(w, ino) is Ok
            &&& size_of_file(out) == new_size
            &&& mode_of(out) == mode_of(raw)
            &&& block_area_of(out) == block_area_of(raw)
            &&& forall|l: int| #[trigger]
                block_contents(w, block_area_of(out), ctx, l) == block_contents(v, block_area_of(raw), ctx, l)
        }),
{
    let bare = put32(put32(with_size_and_blocks(raw, new_size, sectors_of(raw)), 0x0C, now), 0x10, now);
    let rec = v.csum.stamp_inode_spec(ino, generation_of(raw), bare);
    lemma_sized(v, ino, raw, block_area_of(raw), new_size, sectors_of(raw));
    assert(with_block_area(raw, block_area_of(raw)) =~= raw);
    let sized = with_size_and_blocks(raw, new_size, sectors_of(raw));
    assert(rec.len() == raw.len() && inode_fault(rec) is None && mode_of(rec) == mode_of(raw) && size_of_file(rec)
        == new_size && generation_of(rec) == generation_of(raw));
    assert(block_area_of(rec) =~= block_area_of(sized));
    if v.csum.enabled {
        law_stamped_inode_verifies(v.csum, ino, generation_of(raw), bare);
    }
    let fin = grow_stage(v, ino, new_size, now)->Ok_0;
    let w = committed(v, fin);
    lemma_recorded(v, fresh_stage(v), ino, rec, fin);
    assert(!mode_is_dir(mode_of(rec)));
    assert forall|l: int| #[trigger] block_contents(w, block_area_of(rec), ctx, l) == block_contents(
        v,
        block_area_of(raw),
        ctx,
        l,
    ) by {
        lemma_contents_kept(v, w, ino, block_area_of(raw), ctx, l);
    }
}

/// A record with another tree, size and block count.
proof fn lemma_sized(v: Vol, ino: u32, raw: Seq<u8>, root: Seq<u8>, size: u64, sectors: u64)
    requires
        v.wf(),
        raw.len() == v.sb.inode_size,
        inode_fault(raw) is None,
        root.len() == 60,
    ensures
        ({
            let bare = with_size_and_blocks(with_block_area(raw, root), size, sectors);
            let rec = v.csum.stamp_inode_spec(ino, generation_of(raw), bare);
            &&& bare.len() == raw.len()
            &&& inode_fault(bare) is None
            &&& rec.len() == raw.len()
            &&& inode_fault(rec) is None
            &&& mode_of(rec) == mode_of(raw)
            &&& mode_of(bare) == mode_of(raw)
            &&& size_of_file(rec) == size
            &&& size_of_file(bare) == size
            &&& generation_of(rec) == generation_of(raw)
            &&& generation_of(bare) == generation_of(raw)
            &&& block_area_of(rec) == root
            &&& block_area_of(bare) == root
            &&& v.csum.enabled ==> inode_crc_ok(v.csum.seed, ino, generation_of(rec), rec)
        }),
{
    let a = with_block_area(raw, root);
    assert(mode_of(a) == mode_of(raw) && generation_of(a) == generation_of(raw) && extra_isize_of(a) == extra_isize_of(
        raw,
    )) by {
        reveal(le16);
        reveal(le32);
    }
    assert(block_area_of(a) =~= root);
    let bare = with_size_and_blocks(a, size, sectors);
    assert(block_area_of(bare) =~= root);
    let rec = v.csum.stamp_inode_spec(ino, generation_of(raw), bare);
    assert(block_area_of(rec) =~= root);
    if v.csum.enabled {
        law_stamped_inode_verifies(v.csum, ino, generation_of(raw), bare);
    }
}

// -- extents that stay ------------------------------------------------------

proof fn lemma_covering_join(a: Seq<Extent>, b: Seq<Extent>, l: int)
    ensures
        covering(a + b, l) == (if covering(a, l) is Some {
            covering(a, l)
        } else {
            covering(b, l)
        }),
    decreases a.len(),
{
    if a.len() == 0 {
        assert(a + b =~= b);
    } else {
        assert((a + b)[0] == a[0]);
        assert((a + b).drop_first() =~= a.drop_first() + b);
        lemma_covering_join(a.drop_first(), b, l);
    }
}

proof fn lemma_covering_one(e: Extent, l: int)
    ensures
        covering(seq![e], l) == (if e.covers(l) {
            Some(e)
        } else {
            None
        }),
{
    assert(seq![e].drop_first() =~= Seq::<Extent>::empty());
    reveal_with_fuel(covering, 2);
}

/// Below the cut a block is where it was; from the cut on it is nowhere.
proof fn lemma_kept_covers(es: Seq<Extent>, nb: int, l: int)
    requires
        all_storable(es),
        nb >= 0,
    ensures
        all_storable(kept_below(es, nb)),
        kept_below(es, nb).len() <= es.len(),
        l < nb ==> where_is(Ok(covering(kept_below(es, nb), l)), l) == where_is(Ok(covering(es, l)), l),
        l >= nb ==> covering(kept_below(es, nb), l) is None,
    decreases es.len(),
{
    if es.len() > 0 {
        let front = es.drop_last();
        let e = es.last();
        assert(all_storable(front)) by {
            assert forall|i: int| 0 <= i < front.len() implies storable(#[trigger] front[i]) by {
                assert(front[i] == es[i]);
            }
        }
        assert(storable(e)) by {
            assert(es[es.len() - 1] == e);
        }
        lemma_kept_covers(front, nb, l);
        let before = kept_below(front, nb);
        assert(front + seq![e] =~= es);
        lemma_covering_join(front, seq![e], l);
        lemma_covering_one(e, l);
        if let Some(k) = keep_one(e, nb) {
            assert(before + seq![k] =~= before.push(k));
            lemma_covering_join(before, seq![k], l);
            lemma_covering_one(k, l);
            assert(storable(k));
        }
    }
}

/// Every extent that stays is one that was there, or the start of it.
proof fn lemma_kept_entry(es: Seq<Extent>, nb: int, i: int) -> (j: int)
    requires
        nb >= 0,
        0 <= i < kept_below(es, nb).len(),
    ensures
        0 <= j < es.len(),
        kept_below(es, nb)[i].logical_block == es[j].logical_block,
        kept_below(es, nb)[i].physical_block == es[j].physical_block,
        kept_below(es, nb)[i].length <= es[j].length,
    decreases es.len(),
{
    let before = kept_below(es.drop_last(), nb);
    if i < before.len() {
        let j = lemma_kept_entry(es.drop_last(), nb, i);
        assert(es.drop_last()[j] == es[j]);
        j
    } else {
        es.len() - 1
    }
}

/// A file whose extents past a new end were released: its blocks up to there
/// hold what they held, and behind them it is a hole.
pub(crate) proof fn lemma_cut(v: Vol, ino: u32, raw: Seq<u8>, new_size: u64, ctx: Option<ExtentVerifyCtx>)
    requires
        v.wf(),
        checked_inode(v, ino) == Ok::<Seq<u8>, Error>(raw),
        mode_is_file(mode_of(raw)),
        file_stands(v, ino, block_area_of(raw)),
        cut_stage(v, ino, raw, new_size) is Ok,
    ensures
        ({
            let w = committed(v, cut_stage(v, ino, raw, new_size)->Ok_0);
            let out = checked_inode(w, ino)->Ok_0;
            &&& checked_inode(w, ino) is Ok
            &&& size_of_file(out) == new_size
            &&& mode_of(out) == mode_of(raw)
            &&& only_record(v, w, ino)
            &&& w.img.len() == v.img.len()
            &&& levels(block_area_of(raw)) == 0
            &&& levels(block_area_of(out)) == 0
            &&& forall|l: int, p: int| #[trigger]
                tree_maps(w.img, v.bs(), block_area_of(out), 0, l, p) ==> tree_maps(
                    v.img,
                    v.bs(),
                    block_area_of(raw),
                    0,
                    l,
                    p,
                )
            &&& forall|l: int|
                l < blocks_for(new_size as int, v.bs()) ==> where_is(
                    #[trigger] extent_for(w.img, v.bs(), block_area_of(out), l, ctx),
                    l,
                ) == where_is(extent_for(v.img, v.bs(), block_area_of(raw), l, ctx), l)
            &&& forall|l: int|
                l >= blocks_for(new_size as int, v.bs()) ==> (#[trigger] extent_for(
                    w.img,
                    v.bs(),
                    block_area_of(out),
                    l,
                    ctx,
                )) == Ok::<Option<Extent>, Error>(None)
            &&& forall|l: int| #[trigger]
                block_contents(w, block_area_of(out), ctx, l) == (if l < blocks_for(new_size as int, v.bs()) {
                    block_contents(v, block_area_of(raw), ctx, l)
                } else {
                    Ok(zeros(v.bs() as nat))
                })
        }),
{
    let area = block_area_of(raw);
    let bs = v.bs();
    let nb = blocks_for(new_size as int, bs);
    assert(nb >= 0) by (nonlinear_arith)
        requires
            nb == (new_size + bs - 1) / bs,
            bs > 0,
    ;
    let (root, runs) = shrink_planned(area, new_size as int, bs)->Ok_0;
    let (h, es) = leaf_of(area)->Ok_0;
    lemma_read_storable(area, h.entries as nat);
    lemma_kept_covers(es, nb, 0);
    let kept = kept_below(es, nb);
    lemma_leaf_fields(h, kept, 60);
    let freed = runs_total(runs);
    let sectors = less(sectors_of(raw), freed * (bs / 512));
    lemma_free_runs_framed(v, fresh_stage(v), runs);
    let st1 = stage_free_runs(v, fresh_stage(v), runs)->Ok_0;
    lemma_sized(v, ino, raw, root, new_size, sectors);
    let rec = v.csum.stamp_inode_spec(
        ino,
        generation_of(raw),
        with_size_and_blocks(with_block_area(raw, root), new_size, sectors),
    );
    let st2 = stage_inode(v, st1, ino, rec)->Ok_0;
    let fin = cut_stage(v, ino, raw, new_size)->Ok_0;
    if freed > 0 {
        lemma_totals_framed(v, st2, freed, 0);
    }
    let w = committed(v, fin);
    lemma_recorded(v, st1, ino, rec, fin);
    assert(!mode_is_dir(mode_of(rec)));
    assert forall|l: int| #[trigger] block_contents(w, root, ctx, l) == (if l < nb {
        block_contents(v, area, ctx, l)
    } else {
        Ok(zeros(bs as nat))
    }) by {
        lemma_kept_covers(es, nb, l);
        lemma_contents_kept(v, w, ino, area, ctx, l);
    }
    assert forall|l: int| l < nb implies where_is(#[trigger] extent_for(w.img, bs, root, l, ctx), l) == where_is(
        extent_for(v.img, bs, area, l, ctx),
        l,
    ) by {
        lemma_kept_covers(es, nb, l);
    }
    assert forall|l: int, p: int| #[trigger] tree_maps(w.img, bs, root, 0, l, p) implies tree_maps(
        v.img,
        bs,
        area,
        0,
        l,
        p,
    ) by {
        let n = header_at(root).entries as nat;
        let i = choose|i: int|
            0 <= i < n && (#[trigger] extents_in(root, n)[i]).covers(l) && extents_in(root, n)[i].place(l) == p;
        assert(extents_in(root, n)[i] == kept[i]);
        let j = lemma_kept_entry(es, nb, i);
        assert(extents_in(area, header_at(area).entries as nat)[j] == es[j]);
    }
    assert forall|l: int| l >= nb implies (#[trigger] extent_for(w.img, bs, root, l, ctx)) == Ok::<
        Option<Extent>,
        Error,
    >(None) by {
        lemma_kept_covers(es, nb, l);
    }
}

// -- a hole -----------------------------------------------------------------

/// What a lookup finds in a file's tree is what the list of its extents says.
pub open spec fn listed(v: Vol, area: Seq<u8>, ctx: Option<ExtentVerifyCtx>) -> bool {
    &&& extents_of(v.img, v.bs(), area) is Ok
    &&& forall|l: int|
        where_is(#[trigger] extent_for(v.img, v.bs(), area, l, ctx), l) == where_is(
            Ok(covering(extents_of(v.img, v.bs(), area)->Ok_0, l)),
            l,
        )
}

/// No extent reaches further than a block number can say.
pub open spec fn within_reach(es: Seq<Extent>) -> bool {
    all_storable(es) && forall|i: int|
        0 <= i < es.len() ==> (#[trigger] es[i]).physical_block + es[i].length <= 0x1_0000_0000_0000
}

/// What one extent has left on both sides of a hole.
proof fn lemma_hole_sides(e: Extent, first: int, last: int, l: int)
    requires
        0 <= first < last <= u32::MAX,
        storable(e),
        e.physical_block + e.length <= 0x1_0000_0000_0000,
    ensures
        ({
            let left = before_hole(e, first, last) + after_hole(e, first, last);
            &&& all_storable(left)
            &&& first <= l < last ==> covering(left, l) is None
            &&& !(first <= l < last) ==> where_is(Ok(covering(left, l)), l) == where_is(
                Ok(covering(seq![e], l)),
                l,
            )
        }),
{
    let b = before_hole(e, first, last);
    let a = after_hole(e, first, last);
    let left = b + a;
    lemma_covering_one(e, l);
    lemma_covering_join(b, a, l);
    if b.len() > 0 {
        assert(b =~= seq![b[0]]);
        lemma_covering_one(b[0], l);
    }
    if a.len() > 0 {
        assert(a =~= seq![a[0]]);
        lemma_covering_one(a[0], l);
    }
    assert forall|i: int| 0 <= i < left.len() implies storable(#[trigger] left[i]) by {
        if i < b.len() {
            assert(left[i] == b[0]);
        } else {
            assert(left[i] == a[0]);
        }
    }
}

proof fn lemma_punched_covers(es: Seq<Extent>, first: int, last: int, l: int)
    requires
        0 <= first < last <= u32::MAX,
        within_reach(es),
    ensures
        all_storable(punched(es, first, last)),
        first <= l < last ==> covering(punched(es, first, last), l) is None,
        !(first <= l < last) ==> where_is(Ok(covering(punched(es, first, last), l)), l) == where_is(
            Ok(covering(es, l)),
            l,
        ),
    decreases es.len(),
{
    if es.len() > 0 {
        let front = es.drop_last();
        let e = es.last();
        assert(within_reach(front)) by {
            assert forall|i: int| 0 <= i < front.len() implies storable(#[trigger] front[i]) by {
                assert(front[i] == es[i]);
            }
            assert forall|i: int| 0 <= i < front.len() implies (#[trigger] front[i]).physical_block + front[i].length
                <= 0x1_0000_0000_0000 by {
                assert(front[i] == es[i]);
            }
        }
        assert(es[es.len() - 1] == e);
        lemma_punched_covers(front, first, last, l);
        lemma_hole_sides(e, first, last, l);
        let before = punched(front, first, last);
        let b = before_hole(e, first, last);
        let a = after_hole(e, first, last);
        let left = b + a;
        let all = punched(es, first, last);
        assert(all =~= before + left);
        lemma_covering_join(before, left, l);
        assert(front + seq![e] =~= es);
        lemma_covering_join(front, seq![e], l);
        assert forall|i: int| 0 <= i < all.len() implies storable(#[trigger] all[i]) by {
            if i < before.len() {
                assert(all[i] == before[i]);
            } else {
                assert(all[i] == left[i - before.len()]);
            }
        }
    }
}

/// A hole that was punched reads as zeros, block by block; outside the blocks
/// of its range the file holds what it held, and its size stays.
pub proof fn law_hole_reads_as_zeros(
    v: Vol,
    ino: u32,
    raw: Seq<u8>,
    offset: u64,
    len: u64,
    now: u32,
    ctx: Option<ExtentVerifyCtx>,
)
    requires
        v.wf(),
        checked_inode(v, ino) == Ok::<Seq<u8>, Error>(raw),
        file_stands(v, ino, block_area_of(raw)),
        listed(v, block_area_of(raw), ctx),
        within_reach(extents_of(v.img, v.bs(), block_area_of(raw))->Ok_0),
        len > 0,
        blocks_for(offset + len, v.bs()) <= u32::MAX,
        punch_stage(v, ino, offset, len, now) is Ok,
    ensures
        ({
            let w = committed(v, punch_stage(v, ino, offset, len, now)->Ok_0);
            let out = checked_inode(w, ino)->Ok_0;
            &&& checked_inode(w, ino) is Ok
            &&& size_of_file(out) == size_of_file(raw)
            &&& forall|l: int| #[trigger]
                block_contents(w, block_area_of(out), ctx, l) == (if offset as int / v.bs() <= l < blocks_for(
                    offset + len,
                    v.bs(),
                ) {
                    Ok(zeros(v.bs() as nat))
                } else {
                    block_contents(v, block_area_of(raw), ctx, l)
                })
        }),
{
    let area = block_area_of(raw);
    let bs = v.bs();
    let first = offset as int / bs;
    let last = blocks_for(offset + len, bs);
    assert(0 <= first) by (nonlinear_arith)
        requires
            first == offset as int / bs,
            bs > 0,
    ;
    lemma_range_blocks(offset as int, offset + len, bs);
    let es = extents_of(v.img, bs, area)->Ok_0;
    let runs = punched_runs(es, first, last);
    let kept = punched(es, first, last);
    lemma_punched_covers(es, first, last, 0);
    let h = ExtentHeader { magic: EXT4_EXT_MAGIC, entries: 0, max: 4, depth: 0, generation: le32(area, 8) };
    lemma_leaf_fields(h, kept, 60);
    let root = node_bytes(h, kept, 60);
    let freed = runs_total(runs);
    let sectors = less(sectors_of(raw), freed * (bs / 512));
    lemma_free_runs_framed(v, fresh_stage(v), runs);
    let st1 = stage_free_runs(v, fresh_stage(v), runs)->Ok_0;
    let rec = reblocked(v, ino, raw, root, sectors, now);
    lemma_after_write(v, ino, raw, root, size_of_file(raw), sectors, now);
    let st2 = stage_inode(v, st1, ino, rec)->Ok_0;
    let fin = punch_stage(v, ino, offset, len, now)->Ok_0;
    if freed > 0 {
        lemma_totals_framed(v, st2, freed, 0);
    }
    let w = committed(v, fin);
    lemma_recorded(v, st1, ino, rec, fin);
    assert(!mode_is_dir(mode_of(rec)));
    assert forall|l: int| #[trigger] block_contents(w, root, ctx, l) == (if first <= l < last {
        Ok(zeros(bs as nat))
    } else {
        block_contents(v, area, ctx, l)
    }) by {
        lemma_punched_covers(es, first, last, l);
        lemma_contents_kept(v, w, ino, area, ctx, l);
        let x = extent_for(v.img, bs, area, l, ctx);
        lemma_blocks_kept(v, w, ino, area, ctx, l);
    }
}

/// The block that a file block is at holds what it did.
proof fn lemma_blocks_kept(v: Vol, w: Vol, ino: u32, area: Seq<u8>, ctx: Option<ExtentVerifyCtx>, l: int)
    requires
        file_stands(v, ino, area),
        only_record(v, w, ino),
    ensures
        extent_for(v.img, v.bs(), area, l, ctx) matches Ok(Some(e)) ==> block_at(w.img, v.bs(), e.place(l)) == block_at(
            v.img,
            v.bs(),
            e.place(l),
        ),
{
    if header_of(area) is Ok {
        lemma_found_in_tree(v.img, v.bs(), area, levels(area), l, ctx);
    }
}

// -- preallocation ----------------------------------------------------------

proof fn lemma_none_mapped(v: Vol, root: Seq<u8>, at: int, last: int, l: int)
    requires
        any_mapped(v, root, at, last) == Ok::<bool, Error>(false),
        at <= l < last,
    ensures
        block_for(v.img, v.bs(), root, l) == Ok::<Option<u64>, Error>(None),
    decreases last - at,
{
    if at < l {
        lemma_none_mapped(v, root, at + 1, last, l);
    }
}

/// What a file block holds goes by where it is, in a tree that is all root.
proof fn lemma_root_contents(v: Vol, root: Seq<u8>, ctx: Option<ExtentVerifyCtx>, l: int)
    requires
        leaf_of(root) is Ok,
    ensures
        block_contents(v, root, ctx, l) == (match block_for(v.img, v.bs(), root, l)->Ok_0 {
            None => Ok(zeros(v.bs() as nat)),
            Some(p) => block_at(v.img, v.bs(), p as int),
        }),
        block_for(v.img, v.bs(), root, l) is Ok,
        block_for(v.img, v.bs(), root, l)->Ok_0 matches Some(p) ==> tree_maps(
            v.img,
            v.bs(),
            root,
            levels(root),
            l,
            p as int,
        ),
{
    lemma_found_in_tree(v.img, v.bs(), root, 0, l, None);
}

/// Preallocation changes nothing that is read: every block of the file holds
/// what it held, and the size stays.
#[verifier::rlimit(60)]
pub proof fn law_preallocation_is_not_seen(
    v: Vol,
    ino: u32,
    raw: Seq<u8>,
    offset: u64,
    len: u64,
    now: u32,
    ctx: Option<ExtentVerifyCtx>,
)
    requires
        v.wf(),
        checked_inode(v, ino) == Ok::<Seq<u8>, Error>(raw),
        file_stands(v, ino, block_area_of(raw)),
        tree_in_order(v.img, v.bs(), block_area_of(raw)),
        len > 0,
        blocks_for(offset + len, v.bs()) <= FILE_BLOCKS,
        prealloc_stage(v, ino, offset, len, now) is Ok,
    ensures
        ({
            let w = committed(v, prealloc_stage(v, ino, offset, len, now)->Ok_0);
            let out = checked_inode(w, ino)->Ok_0;
            &&& checked_inode(w, ino) is Ok
            &&& size_of_file(out) == size_of_file(raw)
            &&& forall|l: int| #[trigger]
                block_contents(w, block_area_of(out), ctx, l) == block_contents(v, block_area_of(raw), ctx, l)
        }),
{
    let area = block_area_of(raw);
    let bs = v.bs();
    let first = offset as int / bs;
    let last = blocks_for(offset + len, bs);
    let n = last - first;
    assert(0 <= first) by (nonlinear_arith)
        requires
            first == offset as int / bs,
            bs > 0,
    ;
    lemma_range_blocks(offset as int, offset + len, bs);
    let hint = home_group(v, ino);
    let plan = volume_plan(v, n as u32, hint, Seq::empty())->Ok_0;
    law_planned_run_within(v.sb, v.groups, n as u32, hint, Seq::empty(), bitmaps_of(v));
    law_planned_run_is_free(v.sb, v.groups, n as u32, hint, Seq::empty(), bitmaps_of(v));
    let new = Extent {
        logical_block: as_logical(first),
        length: n as u16,
        physical_block: plan.first_block,
        uninitialized: true,
    };
    let (h, es) = leaf_of(area)->Ok_0;
    lemma_read_storable(area, h.entries as nat);
    let root = leaf_insert(area, new)->Ok_0->Some_0;
    lemma_inserted_storable(es, new);
    lemma_inserted_len(es, new);
    lemma_leaf_fields(h, inserted(es, new), 60);
    lemma_block_plan_framed(v, fresh_stage(v), plan);
    let st1 = stage_block_plan(v, fresh_stage(v), plan)->Ok_0;
    let sectors = (sectors_of(raw) + n * (bs / 512)) as u64;
    let rec = reblocked(v, ino, raw, root, sectors, now);
    lemma_after_write(v, ino, raw, root, size_of_file(raw), sectors, now);
    let fin = prealloc_stage(v, ino, offset, len, now)->Ok_0;
    let w = committed(v, fin);
    lemma_recorded(v, st1, ino, rec, fin);
    assert(!mode_is_dir(mode_of(rec)));
    assert forall|l: int| #[trigger] block_contents(w, root, ctx, l) == block_contents(v, area, ctx, l) by {
        law_insert_maps(w.img, bs, area, new, l);
        lemma_root_contents(w, root, ctx, l);
        lemma_root_contents(v, area, ctx, l);
        assert(block_for(w.img, bs, area, l) == block_for(v.img, bs, area, l));
        if new.covers(l) {
            lemma_none_mapped(v, area, first, last, l);
        }
    }
}

/// Zeroing a range punches a hole and allocates its blocks anew.
proof fn lemma_zeroed(v: Vol, ino: u32, offset: u64, len: u64, now: u32, hole: Stage, fin: Stage)
    requires
        write_refusal(true, v) is None,
        len > 0,
        punch_stage(v, ino, offset, len, now) == Ok::<Stage, Error>(hole),
        prealloc_stage(committed(v, hole), ino, offset, len, now) == Ok::<Stage, Error>(fin),
    ensures
        zeroed_range(true, v, ino, offset, len, now) == (
            committed(committed(v, hole), fin),
            Ok::<(), Error>(()),
        ),
{
}

/// The blocks of a file over two steps, the second of which is not seen.
proof fn lemma_blocks_over(
    v: Vol,
    mid: Vol,
    w: Vol,
    area: Seq<u8>,
    held: Seq<u8>,
    out: Seq<u8>,
    ctx: Option<ExtentVerifyCtx>,
    first: int,
    last: int,
)
    requires
        forall|l: int| #[trigger]
            block_contents(mid, held, ctx, l) == (if first <= l < last {
                Ok(zeros(v.bs() as nat))
            } else {
                block_contents(v, area, ctx, l)
            }),
        forall|l: int| #[trigger] block_contents(w, out, ctx, l) == block_contents(mid, held, ctx, l),
    ensures
        forall|l: int| #[trigger]
            block_contents(w, out, ctx, l) == (if first <= l < last {
                Ok(zeros(v.bs() as nat))
            } else {
                block_contents(v, area, ctx, l)
            }),
{
    assert forall|l: int| #[trigger]
        block_contents(w, out, ctx, l) == (if first <= l < last {
            Ok(zeros(v.bs() as nat))
        } else {
            block_contents(v, area, ctx, l)
        }) by {
        assert(block_contents(w, out, ctx, l) == block_contents(mid, held, ctx, l));
    }
}

/// A range that was zeroed reads as zeros, block by block; outside its blocks
/// the file holds what it held, and its size stays. `mid` is the volume with
/// the hole punched, before its blocks are allocated anew.
#[verifier::rlimit(60)]
pub proof fn law_zeroed_range_reads_as_zeros(
    v: Vol,
    ino: u32,
    raw: Seq<u8>,
    offset: u64,
    len: u64,
    now: u32,
    ctx: Option<ExtentVerifyCtx>,
)
    requires
        v.wf(),
        checked_inode(v, ino) == Ok::<Seq<u8>, Error>(raw),
        file_stands(v, ino, block_area_of(raw)),
        listed(v, block_area_of(raw), ctx),
        within_reach(extents_of(v.img, v.bs(), block_area_of(raw))->Ok_0),
        len > 0,
        blocks_for(offset + len, v.bs()) <= u32::MAX,
        punch_stage(v, ino, offset, len, now) is Ok,
        write_refusal(true, v) is None,
        ({
            let mid = committed(v, punch_stage(v, ino, offset, len, now)->Ok_0);
            let area = block_area_of(checked_inode(mid, ino)->Ok_0);
            &&& mid.wf()
            &&& file_stands(mid, ino, area)
            &&& tree_in_order(mid.img, mid.bs(), area)
            &&& prealloc_stage(mid, ino, offset, len, now) is Ok
        }),
    ensures
        ({
            let (w, r) = zeroed_range(true, v, ino, offset, len, now);
            let out = checked_inode(w, ino)->Ok_0;
            &&& r is Ok
            &&& checked_inode(w, ino) is Ok
            &&& size_of_file(out) == size_of_file(raw)
            &&& forall|l: int| #[trigger]
                block_contents(w, block_area_of(out), ctx, l) == (if offset as int / v.bs() <= l < blocks_for(
                    offset + len,
                    v.bs(),
                ) {
                    Ok(zeros(v.bs() as nat))
                } else {
                    block_contents(v, block_area_of(raw), ctx, l)
                })
        }),
{
    let hole = punch_stage(v, ino, offset, len, now)->Ok_0;
    let mid = committed(v, hole);
    let fin = prealloc_stage(mid, ino, offset, len, now)->Ok_0;
    let w = committed(mid, fin);
    law_hole_reads_as_zeros(v, ino, raw, offset, len, now, ctx);
    let held = checked_inode(mid, ino)->Ok_0;
    law_preallocation_is_not_seen(mid, ino, held, offset, len, now, ctx);
    let out = checked_inode(w, ino)->Ok_0;
    lemma_zeroed(v, ino, offset, len, now, hole, fin);
    lemma_blocks_over(
        v,
        mid,
        w,
        block_area_of(raw),
        block_area_of(held),
        block_area_of(out),
        ctx,
        offset as int / v.bs(),
        blocks_for(offset + len, v.bs()),
    );
}

} // verus!
