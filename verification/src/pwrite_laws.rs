//! What a read gives back of a positional write.
use crate::allocator::{
    blocks_for, group_blocks, group_first_block, law_planned_run_is_free, law_planned_run_within,
};
use crate::block_io::{block_at, lemma_with_block};
use crate::bytes::zeros;
use crate::commit::committed;
use crate::content_laws::{
    holds_part, in_use, law_block_in_use_is_not_planned, law_record_reads_back, lemma_after_write, lemma_blocks_reach, lemma_reads_as, lemma_trusted, reads_back,
    record_block,
};
use crate::error::{Error, Result};
use crate::extent::{block_for, extent_for, header_at, header_of, node_ok, Extent, ExtentVerifyCtx};
use crate::bgd::BLOCK_UNINIT;
use crate::extent_mut::{deep_insert, storable, DeepInsertView};
use crate::file_io::file_part;
use crate::fs::{checked_inode, raw_inode};
use crate::grow::{bitmaps_of, home_group, stage_fresh, stage_nodes, staged_bitmaps, staged_plan, volume_plan};
use crate::growth_laws::{lemma_insertion, lemma_lookup_trusted, lemma_tree_same, own_ctx, puts, tree_extended, trusted};
use crate::inode::{block_area_of, generation_of, mode_is_file, mode_of, sectors_of, size_of_file};
use crate::inode_edit::{after_write, with_block_area};
use crate::pwrite::{
    all_mapped, chunk_limit, filled_run, halved_plan, pwrite_stage, run_extent, spliced, unmapped, with_piece,
    with_run, Growing,
};
use crate::stage::{
    desc_block, group_of_block, stage_counters, stage_inode, stage_mark_blocks, stage_totals, super_block,
};
use crate::tree_laws::{lemma_found_in_tree, lemma_lookup_same, lemma_lookup_unverified, tree_maps, tree_node};
use crate::use_laws::{disk_flags, flags_agree, lemma_counters_keep, lemma_in_use_same, lemma_marked, tables_apart};
use crate::volume::{fresh_stage, Stage, Vol};
use vstd::prelude::*;

verus! {

/// The levels of a tree above its leaves.
pub open spec fn levels(root: Seq<u8>) -> nat {
    header_at(root).depth as nat
}

/// The blocks of a file and of its tree are all different, and none of them
/// holds the file's record or the superblock.
pub open spec fn apart(v: Vol, ino: u32, img: Seq<u8>, root: Seq<u8>) -> bool {
    &&& record_block(v, ino) != super_block(v.sb)
    &&& forall|l: int, p: int| #[trigger]
        tree_maps(img, v.bs(), root, levels(root), l, p) ==> !tree_node(img, v.bs(), root, levels(root), p) && p
            != record_block(v, ino) && p != super_block(v.sb)
    &&& forall|l: int, m: int, p: int| #[trigger]
        tree_maps(img, v.bs(), root, levels(root), l, p) && #[trigger] tree_maps(
            img,
            v.bs(),
            root,
            levels(root),
            m,
            p,
        ) ==> l == m
    &&& forall|k: int| #[trigger]
        tree_node(img, v.bs(), root, levels(root), k) ==> k != record_block(v, ino) && k != super_block(v.sb)
}

/// A file block is at a block that holds its part of `data`.
pub open spec fn block_holds(img: Seq<u8>, bs: int, at: Result<Option<u64>>, l: int, offset: int, data: Seq<u8>) -> bool {
    &&& at matches Ok(Some(p))
    &&& block_at(img, bs, p as int) matches Ok(b)
    &&& forall|j: int|
        0 <= j < bs && offset <= l * bs + j < offset + data.len() ==> #[trigger] b[j] == data[l * bs + j - offset]
}

/// Where a lookup finds a file block is where the tree puts it.
pub(crate) proof fn lemma_block_for_found(img: Seq<u8>, bs: int, root: Seq<u8>, l: int)
    ensures
        block_for(img, bs, root, l) matches Ok(Some(p)) ==> {
            &&& tree_maps(img, bs, root, levels(root), l, p as int)
            &&& extent_for(img, bs, root, l, None) is Ok
            &&& extent_for(img, bs, root, l, None)->Ok_0 is Some
            &&& extent_for(img, bs, root, l, None)->Ok_0->Some_0.place(l) == p
            &&& !extent_for(img, bs, root, l, None)->Ok_0->Some_0.uninitialized
        },
{
    if header_of(root) is Ok {
        lemma_found_in_tree(img, bs, root, levels(root), l, None);
    }
}

/// A piece of the data put into a block stands there.
proof fn lemma_piece(bs: int, base: Seq<u8>, offset: int, data: Seq<u8>, l: int, j: int)
    requires
        bs > 0,
        base.len() == bs,
        0 <= j < bs,
        offset <= l * bs + j < offset + data.len(),
    ensures
        with_piece(bs, base, offset, data, l).len() == bs,
        with_piece(bs, base, offset, data, l)[j] == data[l * bs + j - offset],
{
}

/// Writing the data to its blocks leaves each with its part, and every other
/// block as it was.
pub(crate) proof fn lemma_spliced(
    v: Vol,
    img: Seq<u8>,
    st: Stage,
    root: Seq<u8>,
    fresh: Seq<bool>,
    offset: int,
    data: Seq<u8>,
    lb: int,
    last: int,
)
    requires
        v.wf(),
        st.img.len() == v.img.len(),
        forall|k: int| #[trigger]
            tree_node(img, v.bs(), root, levels(root), k) ==> block_at(st.img, v.bs(), k) == block_at(img, v.bs(), k),
        forall|l: int, p: int| #[trigger]
            tree_maps(img, v.bs(), root, levels(root), l, p) ==> !tree_node(img, v.bs(), root, levels(root), p),
        forall|l: int, m: int, p: int| #[trigger]
            tree_maps(img, v.bs(), root, levels(root), l, p) && #[trigger] tree_maps(
                img,
                v.bs(),
                root,
                levels(root),
                m,
                p,
            ) ==> l == m,
        spliced(v, st, root, fresh, offset, data, lb, last) is Ok,
    ensures
        ({
            let after = spliced(v, st, root, fresh, offset, data, lb, last)->Ok_0;
            &&& after.img.len() == st.img.len()
            &&& after.cleared == st.cleared
            &&& forall|k: int|
                k >= 0 && (forall|l: int|
                    lb <= l < last ==> #[trigger] block_for(img, v.bs(), root, l) != Ok::<Option<u64>, Error>(
                        Some(k as u64),
                    ) || k > u64::MAX) ==> #[trigger] block_at(after.img, v.bs(), k) == block_at(st.img, v.bs(), k)
            &&& forall|l: int|
                lb <= l < last ==> block_holds(
                    after.img,
                    v.bs(),
                    #[trigger] block_for(img, v.bs(), root, l),
                    l,
                    offset,
                    data,
                )
        }),
    decreases last - lb,
{
    if lb < last {
        let bs = v.bs();
        if header_of(root) is Ok {
            lemma_lookup_same(img, st.img, bs, root, levels(root), lb, None);
        }
        assert(block_for(st.img, bs, root, lb) == block_for(img, bs, root, lb));
        let p = block_for(img, bs, root, lb)->Ok_0->Some_0;
        lemma_block_for_found(img, bs, root, lb);
        let base = if fresh[lb - offset / bs] {
            zeros(bs as nat)
        } else {
            block_at(st.img, bs, p as int)->Ok_0
        };
        let new = with_piece(bs, base, offset, data, lb);
        let st2 = stage_fresh(v, st, p, new)->Ok_0;
        assert(base.len() == bs);
        assert forall|k: int| k >= 0 implies #[trigger] block_at(st2.img, bs, k) == (if k == p {
            Ok(new)
        } else {
            block_at(st.img, bs, k)
        }) by {
            lemma_with_block(st.img, bs, p as int, new, k);
        }
        lemma_with_block(st.img, bs, p as int, new, p as int);
        assert forall|k: int| #[trigger] tree_node(img, bs, root, levels(root), k) implies block_at(st2.img, bs, k)
            == block_at(img, bs, k) by {
            crate::tree_laws::lemma_node_number(img, bs, root, levels(root), k);
        }
        lemma_spliced(v, img, st2, root, fresh, offset, data, lb + 1, last);
        let after = spliced(v, st, root, fresh, offset, data, lb, last)->Ok_0;
        assert(after == spliced(v, st2, root, fresh, offset, data, lb + 1, last)->Ok_0);
        assert forall|l: int| lb + 1 <= l < last implies #[trigger] block_for(img, bs, root, l) != Ok::<
            Option<u64>,
            Error,
        >(Some(p)) by {
            lemma_block_for_found(img, bs, root, l);
        }
        assert(block_at(after.img, bs, p as int) == block_at(st2.img, bs, p as int));
        assert forall|j: int| 0 <= j < bs && offset <= lb * bs + j < offset + data.len() implies #[trigger] new[j]
            == data[lb * bs + j - offset] by {
            lemma_piece(bs, base, offset, data, lb, j);
        }
        assert forall|k: int|
            k >= 0 && (forall|l: int|
                lb <= l < last ==> #[trigger] block_for(img, bs, root, l) != Ok::<Option<u64>, Error>(Some(k as u64))
                    || k > u64::MAX) implies #[trigger] block_at(after.img, bs, k) == block_at(st.img, bs, k) by {
            assert(block_for(img, bs, root, lb) != Ok::<Option<u64>, Error>(Some(k as u64)) || k > u64::MAX);
            assert(k != p);
            assert(block_at(st2.img, bs, k) == block_at(st.img, bs, k));
        }
    }
}

/// The file with every block of the range mapped, before any data is written.
pub open spec fn grown(v: Vol, ino: u32, raw: Seq<u8>, offset: int, len: int) -> Result<Growing> {
    let first = offset / v.bs();
    let last = blocks_for(offset + len, v.bs());
    all_mapped(
        v,
        ino,
        generation_of(raw),
        Growing {
            st: fresh_stage(v),
            root: block_area_of(raw),
            total: 0,
            fresh: Seq::new((last - first) as nat, |j: int| false),
        },
        first,
        first,
        last,
    )
}

/// Every block of a range can be looked up with the tree verified.
pub open spec fn verifies(v: Vol, img: Seq<u8>, root: Seq<u8>, ctx: Option<ExtentVerifyCtx>, offset: int, len: int) -> bool {
    forall|l: int|
        offset / v.bs() <= l < blocks_for(offset + len, v.bs()) ==> (#[trigger] extent_for(
            img,
            v.bs(),
            root,
            l,
            ctx,
        )) is Ok
}

pub(crate) proof fn lemma_totals_other(v: Vol, st: Stage, fb: int, fi: int, k: int)
    requires
        v.wf(),
        k >= 0,
        k != super_block(v.sb),
        stage_totals(v, st, fb, fi) is Ok,
    ensures
        block_at(stage_totals(v, st, fb, fi)->Ok_0.img, v.bs(), k) == block_at(st.img, v.bs(), k),
        stage_totals(v, st, fb, fi)->Ok_0.cleared == st.cleared,
{
    broadcast use crate::bytes::group_fields;
    let b = block_at(st.img, v.bs(), super_block(v.sb))->Ok_0;
    let off = crate::stage::super_off(v.sb);
    crate::stage::lemma_super_place(v.sb);
    let new = crate::stage::totalled(v, b, off, fb, fi);
    assert(new.len() == v.bs());
    lemma_with_block(st.img, v.bs(), super_block(v.sb), new, k);
}

/// What was written reads back, once every block of the range is mapped to a
/// block of its own.
pub proof fn lemma_grown_reads_back(
    v: Vol,
    ino: u32,
    raw: Seq<u8>,
    offset: int,
    data: Seq<u8>,
    now: u32,
    ctx: Option<ExtentVerifyCtx>,
)
    requires
        v.wf(),
        checked_inode(v, ino) == Ok::<Seq<u8>, Error>(raw),
        mode_is_file(mode_of(raw)),
        0 <= offset,
        0 < data.len(),
        offset + data.len() <= u64::MAX,
        grown(v, ino, raw, offset, data.len() as int) matches Ok(g) ==> {
            &&& g.st.img.len() == v.img.len()
            &&& g.root.len() == 60
            &&& apart(v, ino, g.st.img, g.root)
            &&& verifies(v, g.st.img, g.root, ctx, offset, data.len() as int)
        },
        pwrite_stage(v, ino, raw, offset, data, now) is Ok,
    ensures
        ({
            let (after, size) = pwrite_stage(v, ino, raw, offset, data, now)->Ok_0;
            &&& size == (if size_of_file(raw) > offset + data.len() {
                size_of_file(raw) as int
            } else {
                offset + data.len()
            })
            &&& reads_back(committed(v, after), ino, size as int, offset, data, ctx)
        }),
{
    let bs = v.bs();
    let len = data.len() as int;
    let end = offset + len;
    let first = offset / bs;
    let last = blocks_for(end, bs);
    let g = grown(v, ino, raw, offset, len)->Ok_0;
    let (after, size) = pwrite_stage(v, ino, raw, offset, data, now)->Ok_0;
    lemma_steps(v, ino, raw, offset, data, now);
    let st1 = spliced(v, g.st, g.root, g.fresh, offset, data, first, last)->Ok_0;
    let sectors = (sectors_of(raw) + g.total * (bs / 512)) as u64;
    let raw2 = after_write(v, ino, generation_of(raw), with_block_area(raw, g.root), size, sectors, now);
    lemma_after_write(v, ino, raw, g.root, size, sectors, now);
    let st2 = stage_inode(v, st1, ino, raw2)->Ok_0;
    let w = committed(v, after);
    lemma_record_kept(v, ino, g, st1, raw2, after);
    lemma_trusted(w, ino, raw2);
    lemma_spliced(v, g.st.img, g.st, g.root, g.fresh, offset, data, first, last);
    lemma_tree_kept(v, ino, g, st1, offset, data, first, last);
    assert forall|from: int, to: int| offset <= from <= to <= offset + data.len() implies #[trigger] file_part(
        w,
        block_area_of(raw2),
        ctx,
        from,
        to,
    ) == Ok::<Seq<u8>, Error>(data.subrange(from - offset, to - offset)) by {
        assert forall|l: int| from / bs <= l && l * bs < to implies #[trigger] holds_part(
            w,
            g.root,
            ctx,
            l,
            offset,
            data,
        ) by {
            assert(from / bs >= first && first >= 0) by (nonlinear_arith)
                requires
                    from >= offset >= 0,
                    bs > 0,
                    first == offset / bs,
            ;
            lemma_blocks_reach(end, bs, l);
            lemma_held(v, ino, g, st1, w, ctx, offset, data, l, raw2, after, st2);
        }
        lemma_reads_as(w, g.root, ctx, offset, data, from, to);
    }
}

/// A positional write, step by step.
pub(crate) proof fn lemma_steps(v: Vol, ino: u32, raw: Seq<u8>, offset: int, data: Seq<u8>, now: u32)
    requires
        pwrite_stage(v, ino, raw, offset, data, now) is Ok,
        offset + data.len() <= u64::MAX,
    ensures
        ({
            let (after, size) = pwrite_stage(v, ino, raw, offset, data, now)->Ok_0;
            let g = grown(v, ino, raw, offset, data.len() as int)->Ok_0;
            let first = offset / v.bs();
            let last = blocks_for(offset + data.len(), v.bs());
            let st1 = spliced(v, g.st, g.root, g.fresh, offset, data, first, last)->Ok_0;
            let sectors = (sectors_of(raw) + g.total * (v.bs() / 512)) as u64;
            let raw2 = after_write(v, ino, generation_of(raw), with_block_area(raw, g.root), size, sectors, now);
            let st2 = stage_inode(v, st1, ino, raw2)->Ok_0;
            &&& grown(v, ino, raw, offset, data.len() as int) is Ok
            &&& spliced(v, g.st, g.root, g.fresh, offset, data, first, last) is Ok
            &&& stage_inode(v, st1, ino, raw2) is Ok
            &&& (if g.total > 0 {
                stage_totals(v, st2, -g.total, 0)
            } else {
                Ok(st2)
            }) == Ok::<Stage, Error>(after)
            &&& size == (if size_of_file(raw) > offset + data.len() {
                size_of_file(raw) as int
            } else {
                offset + data.len()
            })
        }),
{
    reveal(pwrite_stage);
}

/// The record that was staged survives the totals, and so does every block
/// but the superblock's.
pub(crate) proof fn lemma_record_kept(v: Vol, ino: u32, g: Growing, st1: Stage, raw2: Seq<u8>, after: Stage)
    requires
        v.wf(),
        raw2.len() == v.sb.inode_size,
        record_block(v, ino) != super_block(v.sb),
        stage_inode(v, st1, ino, raw2) is Ok,
        (if g.total > 0 {
            stage_totals(v, stage_inode(v, st1, ino, raw2)->Ok_0, -g.total, 0)
        } else {
            Ok(stage_inode(v, st1, ino, raw2)->Ok_0)
        }) == Ok::<Stage, Error>(after),
    ensures
        raw_inode(committed(v, after), ino) == Ok::<Seq<u8>, Error>(raw2),
        forall|k: int|
            k >= 0 && k != super_block(v.sb) ==> #[trigger] block_at(after.img, v.bs(), k) == block_at(
                stage_inode(v, st1, ino, raw2)->Ok_0.img,
                v.bs(),
                k,
            ),
{
    let st2 = stage_inode(v, st1, ino, raw2)->Ok_0;
    law_record_reads_back(v, st1, ino, raw2, 0);
    assert forall|k: int| k >= 0 && k != super_block(v.sb) implies #[trigger] block_at(after.img, v.bs(), k) == block_at(
        st2.img,
        v.bs(),
        k,
    ) by {
        if g.total > 0 {
            lemma_totals_other(v, st2, -g.total, 0, k);
        }
    }
    let n = record_block(v, ino);
    if g.total > 0 {
        lemma_totals_other(v, st2, -g.total, 0, n);
    }
    crate::content_laws::lemma_same_place(v, st2, ino);
    assert(block_at(after.img, v.bs(), n) == block_at(st2.img, v.bs(), n));
}

/// The tree's blocks are as they were once the data is in place.
pub(crate) proof fn lemma_tree_kept(
    v: Vol,
    ino: u32,
    g: Growing,
    st1: Stage,
    offset: int,
    data: Seq<u8>,
    first: int,
    last: int,
)
    requires
        v.wf(),
        apart(v, ino, g.st.img, g.root),
        forall|k: int|
            k >= 0 && (forall|l: int|
                first <= l < last ==> #[trigger] block_for(g.st.img, v.bs(), g.root, l) != Ok::<Option<u64>, Error>(
                    Some(k as u64),
                ) || k > u64::MAX) ==> #[trigger] block_at(st1.img, v.bs(), k) == block_at(g.st.img, v.bs(), k),
    ensures
        forall|k: int| #[trigger]
            tree_node(g.st.img, v.bs(), g.root, levels(g.root), k) ==> block_at(st1.img, v.bs(), k) == block_at(
                g.st.img,
                v.bs(),
                k,
            ),
{
    assert forall|k: int| #[trigger] tree_node(g.st.img, v.bs(), g.root, levels(g.root), k) implies block_at(
        st1.img,
        v.bs(),
        k,
    ) == block_at(g.st.img, v.bs(), k) by {
        crate::tree_laws::lemma_node_number(g.st.img, v.bs(), g.root, levels(g.root), k);
        assert forall|l: int| first <= l < last implies #[trigger] block_for(g.st.img, v.bs(), g.root, l) != Ok::<
            Option<u64>,
            Error,
        >(Some(k as u64)) by {
            lemma_block_for_found(g.st.img, v.bs(), g.root, l);
        }
    }
}

proof fn lemma_held(
    v: Vol,
    ino: u32,
    g: Growing,
    st1: Stage,
    w: Vol,
    ctx: Option<ExtentVerifyCtx>,
    offset: int,
    data: Seq<u8>,
    l: int,
    raw2: Seq<u8>,
    after: Stage,
    st2: Stage,
)
    requires
        v.wf(),
        w.sb == v.sb,
        apart(v, ino, g.st.img, g.root),
        verifies(v, g.st.img, g.root, ctx, offset, data.len() as int),
        offset / v.bs() <= l < blocks_for(offset + data.len(), v.bs()),
        raw2.len() == v.sb.inode_size,
        stage_inode(v, st1, ino, raw2) == Ok::<Stage, Error>(st2),
        forall|k: int|
            k >= 0 && k != super_block(v.sb) ==> #[trigger] block_at(w.img, v.bs(), k) == block_at(st2.img, v.bs(), k),
        forall|k: int| #[trigger]
            tree_node(g.st.img, v.bs(), g.root, levels(g.root), k) ==> block_at(st1.img, v.bs(), k) == block_at(
                g.st.img,
                v.bs(),
                k,
            ),
        block_holds(st1.img, v.bs(), block_for(g.st.img, v.bs(), g.root, l), l, offset, data),
    ensures
        holds_part(w, g.root, ctx, l, offset, data),
{
    let bs = v.bs();
    let d = levels(g.root);
    let p = block_for(g.st.img, bs, g.root, l)->Ok_0->Some_0 as int;
    lemma_block_for_found(g.st.img, bs, g.root, l);
    assert(extent_for(g.st.img, bs, g.root, l, ctx) is Ok);
    lemma_lookup_unverified(g.st.img, bs, g.root, d, l, ctx);
    assert forall|k: int| #[trigger] tree_node(g.st.img, bs, g.root, d, k) implies block_at(w.img, bs, k) == block_at(
        g.st.img,
        bs,
        k,
    ) by {
        crate::tree_laws::lemma_node_number(g.st.img, bs, g.root, d, k);
        law_record_reads_back(v, st1, ino, raw2, k);
    }
    lemma_lookup_same(g.st.img, w.img, bs, g.root, d, l, ctx);
    law_record_reads_back(v, st1, ino, raw2, p);
    assert(block_at(w.img, bs, p) == block_at(st1.img, bs, p));
}

// -- a file that grows stays apart ------------------------------------------

/// Block `k` holds a group's descriptor or block bitmap.
pub open spec fn is_table(v: Vol, k: int) -> bool {
    ||| exists|gi: int| 0 <= gi < v.groups.len() && k == #[trigger] desc_block(v.sb, gi)
    ||| exists|gi: int| 0 <= gi < v.groups.len() && k == (#[trigger] v.groups[gi]).block_bitmap
}

/// Block `k` holds what an allocation edits, or the file's record.
pub open spec fn is_kept(v: Vol, ino: u32, k: int) -> bool {
    k == record_block(v, ino) || k == super_block(v.sb) || is_table(v, k)
}

/// A file on a volume in good order: the blocks of the file and of its tree
/// are all different, all marked used, and none of them holds metadata that
/// growing the file edits. What holds such metadata is marked used too. The
/// tree's nodes may be trusted.
pub open spec fn sound(v: Vol, ino: u32, st: Stage, root: Seq<u8>, ctx: Option<ExtentVerifyCtx>) -> bool {
    let w = committed(v, st);
    &&& st.img.len() == v.img.len()
    &&& root.len() == 60
    &&& flags_agree(w)
    &&& forall|k: int| #[trigger] is_kept(v, ino, k) ==> in_use(w, k)
    &&& forall|l: int, p: int| #[trigger]
        tree_maps(st.img, v.bs(), root, levels(root), l, p) ==> in_use(w, p) && !is_kept(v, ino, p) && !tree_node(
            st.img,
            v.bs(),
            root,
            levels(root),
            p,
        )
    &&& forall|l: int, m: int, p: int| #[trigger]
        tree_maps(st.img, v.bs(), root, levels(root), l, p) && #[trigger] tree_maps(
            st.img,
            v.bs(),
            root,
            levels(root),
            m,
            p,
        ) ==> l == m
    &&& forall|k: int| #[trigger]
        tree_node(st.img, v.bs(), root, levels(root), k) ==> in_use(w, k) && !is_kept(v, ino, k)
    &&& trusted(st.img, v.bs(), root, ctx)
}

pub(crate) proof fn lemma_committed_wf(v: Vol, st: Stage)
    requires
        v.wf(),
        st.img.len() == v.img.len(),
    ensures
        committed(v, st).wf(),
        committed(v, st).groups.len() == v.groups.len(),
{
    crate::commit::lemma_published_len(v.groups, st.cleared);
}

/// Planning on what is staged is planning on the volume as committed.
pub(crate) proof fn lemma_staged_plan(v: Vol, st: Stage, count: u32, hint: u32)
    ensures
        staged_plan(v, st, count, hint) == volume_plan(committed(v, st), count, hint, Seq::empty()),
{
    let w = committed(v, st);
    assert(staged_bitmaps(v, st) =~= bitmaps_of(w));
}

/// A planned run lies in one group, and holds nothing that is in use.
pub(crate) proof fn lemma_run_planned(v: Vol, st: Stage, count: u32, hint: u32)
    requires
        v.wf(),
        st.img.len() == v.img.len(),
        count <= i32::MAX,
        staged_plan(v, st, count, hint) is Ok,
    ensures
        ({
            let p = staged_plan(v, st, count, hint)->Ok_0;
            let gi = p.bgd.group_idx as int;
            &&& p.count == count
            &&& 0 <= gi < v.groups.len()
            &&& p.first_block + count <= group_first_block(v.sb, gi) + group_blocks(v.sb, gi)
            &&& count > 0 ==> group_of_block(v, p.first_block) == Some(gi)
            &&& p.first_block + count <= v.sb.blocks_count
            &&& forall|n: int| #[trigger]
                in_use(committed(v, st), n) ==> !(p.first_block <= n < p.first_block + count)
        }),
{
    let w = committed(v, st);
    lemma_committed_wf(v, st);
    lemma_staged_plan(v, st, count, hint);
    law_planned_run_is_free(w.sb, w.groups, count, hint, Seq::empty(), bitmaps_of(w));
    law_planned_run_within(w.sb, w.groups, count, hint, Seq::empty(), bitmaps_of(w));
    let p = staged_plan(v, st, count, hint)->Ok_0;
    let gi = p.bgd.group_idx as int;
    crate::allocator::lemma_group_blocks(v.sb, gi);
    if count > 0 {
        let d = v.sb.blocks_per_group as int;
        let x = p.first_block - v.sb.first_data_block;
        assert(x / d == gi) by (nonlinear_arith)
            requires
                gi * d <= x < gi * d + d,
                d > 0,
        ;
        assert(0 <= gi * d) by (nonlinear_arith)
            requires
                gi >= 0,
                d > 0,
        ;
    }
    assert forall|n: int| #[trigger] in_use(committed(v, st), n) implies !(p.first_block <= n < p.first_block + count) by {
        law_block_in_use_is_not_planned(w, count, hint, Seq::empty(), n);
    }
}

/// A run taken from a volume: it was not in use before, it is now, and nothing
/// else about the file has changed.
pub(crate) proof fn lemma_run_taken(
    v: Vol,
    ino: u32,
    st: Stage,
    root: Seq<u8>,
    ctx: Option<ExtentVerifyCtx>,
    count: u32,
    hint: u32,
    after: Stage,
    fi: int,
    ud: int,
)
    requires
        v.wf(),
        tables_apart(v),
        sound(v, ino, st, root, ctx),
        0 < count <= i32::MAX,
        staged_plan(v, st, count, hint) is Ok,
        ({
            let p = staged_plan(v, st, count, hint)->Ok_0;
            let marked = stage_mark_blocks(v, st, p.first_block, count as int);
            &&& marked is Ok
            &&& stage_counters(
                v,
                marked->Ok_0,
                p.bgd.group_idx as int,
                p.bgd.free_blocks_delta as int,
                fi,
                ud,
            ) == Ok::<Stage, Error>(after)
        }),
    ensures
        sound(v, ino, after, root, ctx),
        ({
            let p = staged_plan(v, st, count, hint)->Ok_0;
            &&& p.count == count
            &&& p.first_block + count <= v.sb.blocks_count
            &&& forall|n: int| #[trigger] in_use(committed(v, st), n) ==> !(p.first_block <= n < p.first_block + count)
            &&& forall|n: int| p.first_block <= n < p.first_block + count ==> #[trigger] in_use(committed(v, after), n)
        }),
        forall|n: int| in_use(committed(v, st), n) ==> #[trigger] in_use(committed(v, after), n),
        forall|l: int, p: int| #[trigger]
            tree_maps(after.img, v.bs(), root, levels(root), l, p) ==> tree_maps(
                st.img,
                v.bs(),
                root,
                levels(root),
                l,
                p,
            ),
        forall|k: int| #[trigger]
            tree_node(after.img, v.bs(), root, levels(root), k) ==> tree_node(st.img, v.bs(), root, levels(root), k),
        forall|k: int|
            k >= 0 && !is_table(v, k) ==> #[trigger] block_at(after.img, v.bs(), k) == block_at(st.img, v.bs(), k),
{
    lemma_run_planned(v, st, count, hint);
    let p = staged_plan(v, st, count, hint)->Ok_0;
    let gi = p.bgd.group_idx as int;
    let marked = stage_mark_blocks(v, st, p.first_block, count as int)->Ok_0;
    lemma_marked(v, st, p.first_block, count as int);
    lemma_counters_keep(v, marked, gi, p.bgd.free_blocks_delta as int, fi, ud);
    let d = levels(root);
    let w = committed(v, st);
    let w2 = committed(v, after);
    assert forall|n: int| p.first_block <= n < p.first_block + count implies #[trigger] in_use(w2, n) by {
        assert(in_use(committed(v, marked), n));
    }
    assert forall|n: int| in_use(w, n) implies #[trigger] in_use(w2, n) by {
        assert(in_use(committed(v, marked), n));
    }
    assert forall|k: int| k >= 0 && !is_table(v, k) implies #[trigger] block_at(after.img, v.bs(), k) == block_at(
        st.img,
        v.bs(),
        k,
    ) by {
        let g = v.groups[gi];
        assert(k != desc_block(v.sb, gi) && k != g.block_bitmap);
    }
    assert forall|k: int| #[trigger] tree_node(st.img, v.bs(), root, d, k) implies block_at(after.img, v.bs(), k)
        == block_at(st.img, v.bs(), k) by {
        crate::tree_laws::lemma_node_number(st.img, v.bs(), root, d, k);
        assert(!is_kept(v, ino, k));
    }
    lemma_tree_same(st.img, after.img, v.bs(), root, d);
    assert(trusted(after.img, v.bs(), root, ctx)) by {
        assert forall|k: int| #[trigger] tree_node(after.img, v.bs(), root, d, k) implies (block_at(
            after.img,
            v.bs(),
            k,
        ) matches Ok(b) ==> node_ok(ctx, b)) by {
            assert(tree_node(st.img, v.bs(), root, d, k));
        }
    }
    assert forall|k: int| #[trigger] is_kept(v, ino, k) implies in_use(w2, k) by {
        assert(in_use(w, k));
    }
    assert forall|l: int, q: int| #[trigger] tree_maps(after.img, v.bs(), root, d, l, q) implies in_use(w2, q) && !is_kept(
        v,
        ino,
        q,
    ) && !tree_node(after.img, v.bs(), root, d, q) by {
        assert(tree_maps(st.img, v.bs(), root, d, l, q));
        assert(in_use(w, q));
    }
    assert forall|k: int| #[trigger] tree_node(after.img, v.bs(), root, d, k) implies in_use(w2, k) && !is_kept(
        v,
        ino,
        k,
    ) by {
        assert(tree_node(st.img, v.bs(), root, d, k));
        assert(in_use(w, k));
    }
}

/// What a new extent and a new node may be, beside a file's own blocks.
pub open spec fn newcomers(
    v: Vol,
    ino: u32,
    st: Stage,
    root: Seq<u8>,
    new: Extent,
    spare: Option<u64>,
) -> bool {
    let w = committed(v, st);
    let d = levels(root);
    &&& forall|l: int, p: int| #[trigger]
        puts(new, l, p) ==> in_use(w, p) && !is_kept(v, ino, p) && !tree_node(st.img, v.bs(), root, d, p) && !(
        spare matches Some(s) && s == p)
    &&& forall|l: int, m: int, p: int| #[trigger]
        puts(new, l, p) ==> !(#[trigger] tree_maps(st.img, v.bs(), root, d, m, p))
    &&& spare matches Some(s) ==> {
        &&& in_use(w, s as int)
        &&& !is_kept(v, ino, s as int)
        &&& forall|m: int| !(#[trigger] tree_maps(st.img, v.bs(), root, d, m, s as int))
    }
}

/// The tables of the groups are as they were, so the flags and what is in use
/// are too.
pub(crate) proof fn lemma_tables_same(v: Vol, st: Stage, after: Stage)
    requires
        v.wf(),
        flags_agree(committed(v, st)),
        after.cleared == st.cleared,
        forall|gi: int|
            0 <= gi < v.groups.len() ==> block_at(after.img, v.bs(), #[trigger] desc_block(v.sb, gi)) == block_at(
                st.img,
                v.bs(),
                desc_block(v.sb, gi),
            ),
        forall|gi: int|
            0 <= gi < v.groups.len() ==> block_at(after.img, v.bs(), (#[trigger] v.groups[gi]).block_bitmap as int)
                == block_at(st.img, v.bs(), v.groups[gi].block_bitmap as int),
    ensures
        flags_agree(committed(v, after)),
        forall|n: int| in_use(committed(v, st), n) ==> #[trigger] in_use(committed(v, after), n),
{
    let w = committed(v, st);
    let w2 = committed(v, after);
    crate::commit::lemma_published_len(v.groups, st.cleared);
    assert forall|gj: int| 0 <= gj < w2.groups.len() implies ((#[trigger] disk_flags(w2, w2.img, gj)) matches Some(f)
        ==> (f & BLOCK_UNINIT != 0) == w2.groups[gj].blocks_uninit()) by {
        let d = desc_block(v.sb, gj);
        assert(disk_flags(w2, w2.img, gj) == disk_flags(w, w.img, gj));
    }
    assert forall|n: int| in_use(w, n) implies #[trigger] in_use(w2, n) by {
        assert forall|gj: int| 0 <= gj < w.groups.len() implies block_at(
            w2.img,
            v.bs(),
            (#[trigger] w.groups[gj]).block_bitmap as int,
        ) == block_at(w.img, v.bs(), w.groups[gj].block_bitmap as int) by {
            crate::commit::lemma_published_keeps(v.groups, st.cleared, gj);
            let g = v.groups[gj];
        }
        lemma_in_use_same(w, w2, n);
    }
}

/// Blocks that hold metadata are as they were, so the flags and what is in use
/// are too.
pub(crate) proof fn lemma_kept_same(v: Vol, ino: u32, st: Stage, after: Stage)
    requires
        v.wf(),
        flags_agree(committed(v, st)),
        after.cleared == st.cleared,
        forall|k: int| #[trigger]
            is_kept(v, ino, k) && k >= 0 ==> block_at(after.img, v.bs(), k) == block_at(st.img, v.bs(), k),
    ensures
        flags_agree(committed(v, after)),
        forall|n: int| in_use(committed(v, st), n) ==> #[trigger] in_use(committed(v, after), n),
{
    assert forall|gi: int| 0 <= gi < v.groups.len() implies block_at(after.img, v.bs(), #[trigger] desc_block(v.sb, gi))
        == block_at(st.img, v.bs(), desc_block(v.sb, gi)) by {
        let g = v.groups[gi];
        crate::stage::lemma_desc_place(v.sb, gi);
        assert(is_kept(v, ino, desc_block(v.sb, gi)));
    }
    assert forall|gi: int| 0 <= gi < v.groups.len() implies block_at(
        after.img,
        v.bs(),
        (#[trigger] v.groups[gi]).block_bitmap as int,
    ) == block_at(st.img, v.bs(), v.groups[gi].block_bitmap as int) by {
        assert(is_kept(v, ino, v.groups[gi].block_bitmap as int));
    }
    lemma_tables_same(v, st, after);
}

/// A file in good order, its tree extended, is still in good order.
proof fn lemma_extended_sound(
    v: Vol,
    ino: u32,
    st: Stage,
    root: Seq<u8>,
    ctx: Option<ExtentVerifyCtx>,
    new: Extent,
    spare: Option<u64>,
    after: Stage,
    grown: Seq<u8>,
)
    requires
        v.wf(),
        sound(v, ino, st, root, ctx),
        newcomers(v, ino, st, root, new, spare),
        tree_extended(v, st.img, root, after.img, grown, new, spare),
        trusted(after.img, v.bs(), grown, ctx),
        after.img.len() == st.img.len(),
        after.cleared == st.cleared,
        grown.len() == 60,
    ensures
        sound(v, ino, after, grown, ctx),
{
    let bs = v.bs();
    let d = levels(root);
    let e = levels(grown);
    let w = committed(v, st);
    let w2 = committed(v, after);
    assert forall|k: int| #[trigger] is_kept(v, ino, k) && k >= 0 implies block_at(after.img, bs, k) == block_at(
        st.img,
        bs,
        k,
    ) by {
        if tree_node(st.img, bs, root, d, k) {
            assert(!is_kept(v, ino, k));
        }
    }
    lemma_kept_same(v, ino, st, after);
    assert forall|k: int| #[trigger] is_kept(v, ino, k) implies in_use(w2, k) by {
        assert(in_use(w, k));
    }
    assert forall|k: int| #[trigger] tree_node(after.img, bs, grown, e, k) implies in_use(w2, k) && !is_kept(v, ino, k) by {
        if tree_node(st.img, bs, root, d, k) {
            assert(in_use(w, k));
        }
    }
    assert forall|l: int, p: int| #[trigger] tree_maps(after.img, bs, grown, e, l, p) implies in_use(w2, p) && !is_kept(
        v,
        ino,
        p,
    ) && !tree_node(after.img, bs, grown, e, p) by {
        if puts(new, l, p) {
            assert(in_use(w, p));
        } else {
            assert(tree_maps(st.img, bs, root, d, l, p));
            assert(in_use(w, p));
        }
        if tree_node(after.img, bs, grown, e, p) {
            assert(tree_node(st.img, bs, root, d, p) || spare == Some(p as u64));
        }
    }
    assert forall|l: int, m: int, p: int| #[trigger]
        tree_maps(after.img, bs, grown, e, l, p) && #[trigger] tree_maps(after.img, bs, grown, e, m, p) implies l == m by {
        if puts(new, l, p) {
            if !puts(new, m, p) {
                assert(tree_maps(st.img, bs, root, d, m, p));
            }
        } else {
            assert(tree_maps(st.img, bs, root, d, l, p));
            if !puts(new, m, p) {
                assert(tree_maps(st.img, bs, root, d, m, p));
            }
        }
    }
}

/// A run entered in the tree of a file in good order leaves it in good order.
pub(crate) proof fn lemma_run_sound(
    v: Vol,
    ino: u32,
    generation: u32,
    g: Growing,
    first: int,
    lb: int,
    count: u32,
    hint: u32,
    ctx: Option<ExtentVerifyCtx>,
)
    requires
        v.wf(),
        tables_apart(v),
        own_ctx(v, ino, generation, ctx),
        sound(v, ino, g.st, g.root, ctx),
        0 < count <= 32768,
        staged_plan(v, g.st, count, hint) is Ok,
        with_run(v, ino, generation, g, first, lb, staged_plan(v, g.st, count, hint)->Ok_0) is Ok,
    ensures
        ({
            let after = with_run(v, ino, generation, g, first, lb, staged_plan(v, g.st, count, hint)->Ok_0)->Ok_0;
            sound(v, ino, after.st, after.root, ctx)
        }),
{
    let bs = v.bs();
    let plan = staged_plan(v, g.st, count, hint)->Ok_0;
    let new = run_extent(lb, plan);
    let d = levels(g.root);
    lemma_run_planned(v, g.st, count, hint);
    let st1 = stage_mark_blocks(v, g.st, plan.first_block, count as int)->Ok_0;
    let st2 = stage_counters(
        v,
        st1,
        plan.bgd.group_idx as int,
        plan.bgd.free_blocks_delta as int,
        plan.bgd.free_inodes_delta as int,
        plan.bgd.used_dirs_delta as int,
    )->Ok_0;
    lemma_run_taken(
        v,
        ino,
        g.st,
        g.root,
        ctx,
        count,
        hint,
        st2,
        plan.bgd.free_inodes_delta as int,
        plan.bgd.used_dirs_delta as int,
    );
    let w = committed(v, g.st);
    let w2 = committed(v, st2);
    assert forall|l: int, p: int| #[trigger] puts(new, l, p) implies plan.first_block <= p < plan.first_block + count by {
    }
    assert forall|l: int, p: int| #[trigger] puts(new, l, p) implies in_use(w2, p) && !in_use(w, p) by {
        assert(plan.first_block <= p < plan.first_block + count);
    }
    assert forall|l: int, m: int, p: int| #[trigger] puts(new, l, p) implies !(#[trigger] tree_maps(
        st2.img,
        bs,
        g.root,
        d,
        m,
        p,
    )) by {
        if tree_maps(st2.img, bs, g.root, d, m, p) {
            assert(tree_maps(g.st.img, bs, g.root, d, m, p));
            assert(in_use(w, p));
        }
    }
    assert forall|l: int, p: int| #[trigger] puts(new, l, p) implies !is_kept(v, ino, p) && !tree_node(
        st2.img,
        bs,
        g.root,
        d,
        p,
    ) by {
        if is_kept(v, ino, p) {
            assert(in_use(w, p));
        }
        if tree_node(st2.img, bs, g.root, d, p) {
            assert(tree_node(g.st.img, bs, g.root, d, p));
            assert(in_use(w, p));
        }
    }
    match deep_insert(st2.img, bs, g.root, new, v.csum.enabled, None)->Ok_0 {
        DeepInsertView::Done { root, writes } => {
            lemma_insertion(v, st2, ino, generation, g.root, new, None, ctx, root, writes);
            let after = stage_nodes(v, st2, ino, generation, writes)->Ok_0;
            assert(newcomers(v, ino, st2, g.root, new, None));
            lemma_extended_sound(v, ino, st2, g.root, ctx, new, None, after, root);
        },
        DeepInsertView::NeedsBlock => {
            lemma_run_with_node(v, ino, generation, g.root, new, st2, ctx, home_group(v, ino));
        },
    }
}

/// The same, where the tree needs one more node.
proof fn lemma_run_with_node(
    v: Vol,
    ino: u32,
    generation: u32,
    root: Seq<u8>,
    new: Extent,
    st2: Stage,
    ctx: Option<ExtentVerifyCtx>,
    hint: u32,
)
    requires
        v.wf(),
        tables_apart(v),
        own_ctx(v, ino, generation, ctx),
        storable(new),
        sound(v, ino, st2, root, ctx),
        newcomers(v, ino, st2, root, new, None),
        staged_plan(v, st2, 1, hint) is Ok,
        ({
            let meta = staged_plan(v, st2, 1, hint)->Ok_0;
            let st3 = stage_mark_blocks(v, st2, meta.first_block, 1);
            let st4 = stage_counters(
                v,
                st3->Ok_0,
                meta.bgd.group_idx as int,
                meta.bgd.free_blocks_delta as int,
                0,
                0,
            );
            let out = deep_insert(st4->Ok_0.img, v.bs(), root, new, v.csum.enabled, Some(meta.first_block));
            &&& st3 is Ok
            &&& st4 is Ok
            &&& out is Ok
            &&& out->Ok_0 is Done
            &&& stage_nodes(v, st4->Ok_0, ino, generation, out->Ok_0->writes) is Ok
        }),
    ensures
        ({
            let meta = staged_plan(v, st2, 1, hint)->Ok_0;
            let st3 = stage_mark_blocks(v, st2, meta.first_block, 1)->Ok_0;
            let st4 = stage_counters(
                v,
                st3,
                meta.bgd.group_idx as int,
                meta.bgd.free_blocks_delta as int,
                0,
                0,
            )->Ok_0;
            let out = deep_insert(st4.img, v.bs(), root, new, v.csum.enabled, Some(meta.first_block))->Ok_0;
            let after = stage_nodes(v, st4, ino, generation, out->writes)->Ok_0;
            sound(v, ino, after, out->Done_root, ctx)
        }),
{
    let bs = v.bs();
    let d = levels(root);
    lemma_run_planned(v, st2, 1, hint);
    let meta = staged_plan(v, st2, 1, hint)->Ok_0;
    let s = meta.first_block;
    let st3 = stage_mark_blocks(v, st2, s, 1)->Ok_0;
    let st4 = stage_counters(v, st3, meta.bgd.group_idx as int, meta.bgd.free_blocks_delta as int, 0, 0)->Ok_0;
    lemma_run_taken(v, ino, st2, root, ctx, 1, hint, st4, 0, 0);
    let w2 = committed(v, st2);
    let w4 = committed(v, st4);
    assert(!in_use(w2, s as int)) by {
        if in_use(w2, s as int) {
            assert(!(s <= s < s + 1));
        }
    }
    assert(in_use(w4, s as int));
    assert(!is_kept(v, ino, s as int));
    assert(!tree_node(st4.img, bs, root, d, s as int)) by {
        if tree_node(st4.img, bs, root, d, s as int) {
            assert(tree_node(st2.img, bs, root, d, s as int));
        }
    }
    assert forall|m: int| !(#[trigger] tree_maps(st4.img, bs, root, d, m, s as int)) by {
        if tree_maps(st4.img, bs, root, d, m, s as int) {
            assert(tree_maps(st2.img, bs, root, d, m, s as int));
        }
    }
    assert forall|l: int, p: int| #[trigger] puts(new, l, p) implies in_use(w4, p) && !is_kept(v, ino, p) && !tree_node(
        st4.img,
        bs,
        root,
        d,
        p,
    ) && s != p by {
        assert(in_use(w2, p));
    }
    let out = deep_insert(st4.img, bs, root, new, v.csum.enabled, Some(s))->Ok_0;
    lemma_insertion(v, st4, ino, generation, root, new, Some(s), ctx, out->Done_root, out->writes);
    let after = stage_nodes(v, st4, ino, generation, out->writes)->Ok_0;
    assert(newcomers(v, ino, st4, root, new, Some(s)));
    lemma_extended_sound(v, ino, st4, root, ctx, new, Some(s), after, out->Done_root);
}

/// The plan that halving ends with is the plan for some count.
pub(crate) proof fn lemma_halved(v: Vol, st: Stage, want: u32, hint: u32) -> (count: u32)
    requires
        halved_plan(v, st, want, hint) is Ok,
    ensures
        count <= want,
        staged_plan(v, st, count, hint) == halved_plan(v, st, want, hint),
    decreases want,
{
    match staged_plan(v, st, want, hint) {
        Ok(_) => want,
        Err(_) => lemma_halved(v, st, want / 2, hint),
    }
}

pub(crate) proof fn lemma_filled_sound(
    v: Vol,
    ino: u32,
    generation: u32,
    g: Growing,
    first: int,
    lb: int,
    remaining: nat,
    ctx: Option<ExtentVerifyCtx>,
)
    requires
        v.wf(),
        tables_apart(v),
        own_ctx(v, ino, generation, ctx),
        sound(v, ino, g.st, g.root, ctx),
        remaining <= 32768,
        filled_run(v, ino, generation, g, first, lb, remaining) is Ok,
    ensures
        ({
            let after = filled_run(v, ino, generation, g, first, lb, remaining)->Ok_0;
            sound(v, ino, after.st, after.root, ctx)
        }),
    decreases remaining,
{
    if remaining > 0 {
        let hint = home_group(v, ino);
        let plan = halved_plan(v, g.st, remaining as u32, hint)->Ok_0;
        let count = lemma_halved(v, g.st, remaining as u32, hint);
        lemma_run_planned(v, g.st, count, hint);
        lemma_run_sound(v, ino, generation, g, first, lb, count, hint, ctx);
        let g2 = with_run(v, ino, generation, g, first, lb, plan)->Ok_0;
        lemma_filled_sound(
            v,
            ino,
            generation,
            g2,
            first,
            lb + plan.count,
            (remaining - plan.count) as nat,
            ctx,
        );
    }
}

pub(crate) proof fn lemma_unmapped_count(v: Vol, g: Growing, lb: int, last: int)
    ensures
        unmapped(v, g, lb, last) matches Ok(n) ==> n <= (if last > lb {
            last - lb
        } else {
            0
        }),
    decreases last - lb,
{
    if lb < last {
        lemma_unmapped_count(v, g, lb + 1, last);
    }
}

/// Mapping every block of a range leaves a file in good order.
pub(crate) proof fn lemma_mapped_sound(
    v: Vol,
    ino: u32,
    generation: u32,
    g: Growing,
    first: int,
    lb: int,
    last: int,
    ctx: Option<ExtentVerifyCtx>,
)
    requires
        v.wf(),
        tables_apart(v),
        own_ctx(v, ino, generation, ctx),
        sound(v, ino, g.st, g.root, ctx),
        last - lb <= 32768,
        all_mapped(v, ino, generation, g, first, lb, last) is Ok,
    ensures
        ({
            let after = all_mapped(v, ino, generation, g, first, lb, last)->Ok_0;
            sound(v, ino, after.st, after.root, ctx)
        }),
    decreases
            (if last > lb {
                last - lb
            } else {
                0
            }),
{
    if lb < last {
        let n = unmapped(v, g, lb, last)->Ok_0;
        lemma_unmapped_count(v, g, lb, last);
        if n == 0 {
            lemma_mapped_sound(v, ino, generation, g, first, lb + 1, last, ctx);
        } else {
            lemma_filled_sound(v, ino, generation, g, first, lb, n, ctx);
            let g2 = filled_run(v, ino, generation, g, first, lb, n)->Ok_0;
            lemma_mapped_sound(v, ino, generation, g2, first, lb + n, last, ctx);
        }
    }
}

/// A write that fits one commit covers few enough blocks for one extent.
pub(crate) proof fn lemma_chunk_blocks(bs: int, offset: int, len: int)
    requires
        1024 <= bs <= 65536,
        0 <= offset,
        0 < len <= chunk_limit(bs),
    ensures
        blocks_for(offset + len, bs) - offset / bs <= 32768,
{
    let m = (bs - 12) / 16 - 8;
    assert(m <= 4096);
    let end = offset + len;
    crate::superblock::lemma_div_ceil(end, bs);
    vstd::arithmetic::div_mod::lemma_fundamental_div_mod(offset, bs);
    vstd::arithmetic::div_mod::lemma_fundamental_div_mod(end, bs);
    let q = offset / bs;
    let r = end / bs;
    assert(len <= 4096 * bs) by (nonlinear_arith)
        requires
            len <= (if m > 1 {
                m
            } else {
                1
            }) * bs,
            m <= 4096,
            bs > 0,
    ;
    assert(r - q <= 4097) by (nonlinear_arith)
        requires
            offset == bs * q + offset % bs,
            end == bs * r + end % bs,
            0 <= offset % bs < bs,
            0 <= end % bs < bs,
            end == offset + len,
            len <= 4096 * bs,
            bs > 0,
    ;
}

/// What a positional write wrote is what a read of the same bytes gives, and
/// the file reaches at least as far as the write did. The write is one that
/// fits a commit, to a file in good order on a volume in good order;
/// whether blocks are there already, or have to be found for it, and whether or
/// not the reader verifies the tree's checksums, makes no difference.
pub proof fn law_written_bytes_read_back(
    v: Vol,
    ino: u32,
    raw: Seq<u8>,
    offset: int,
    data: Seq<u8>,
    now: u32,
    ctx: Option<ExtentVerifyCtx>,
)
    requires
        v.wf(),
        checked_inode(v, ino) == Ok::<Seq<u8>, Error>(raw),
        mode_is_file(mode_of(raw)),
        0 <= offset,
        0 < data.len() <= chunk_limit(v.bs()),
        offset + data.len() <= u64::MAX,
        tables_apart(v),
        record_block(v, ino) != super_block(v.sb),
        own_ctx(v, ino, generation_of(raw), ctx),
        sound(v, ino, fresh_stage(v), block_area_of(raw), ctx),
        pwrite_stage(v, ino, raw, offset, data, now) is Ok,
    ensures
        ({
            let (after, size) = pwrite_stage(v, ino, raw, offset, data, now)->Ok_0;
            &&& size == (if size_of_file(raw) > offset + data.len() {
                size_of_file(raw) as int
            } else {
                offset + data.len()
            })
            &&& reads_back(committed(v, after), ino, size as int, offset, data, ctx)
        }),
{
    let bs = v.bs();
    let len = data.len() as int;
    let first = offset / bs;
    let last = blocks_for(offset + len, bs);
    lemma_chunk_blocks(bs, offset, len);
    lemma_steps(v, ino, raw, offset, data, now);
    let g = grown(v, ino, raw, offset, len)->Ok_0;
    let start = Growing {
        st: fresh_stage(v),
        root: block_area_of(raw),
        total: 0,
        fresh: Seq::new((last - first) as nat, |j: int| false),
    };
    lemma_mapped_sound(v, ino, generation_of(raw), start, first, first, last, ctx);
    assert(is_kept(v, ino, record_block(v, ino)) && is_kept(v, ino, super_block(v.sb)));
    assert(apart(v, ino, g.st.img, g.root));
    lemma_spliced(v, g.st.img, g.st, g.root, g.fresh, offset, data, first, last);
    assert(verifies(v, g.st.img, g.root, ctx, offset, len)) by {
        assert forall|l: int| first <= l < last implies (#[trigger] extent_for(g.st.img, bs, g.root, l, ctx)) is Ok by {
            assert(block_for(g.st.img, bs, g.root, l) is Ok);
            lemma_lookup_trusted(g.st.img, bs, g.root, levels(g.root), l, ctx);
        }
    }
    lemma_grown_reads_back(v, ino, raw, offset, data, now, ctx);
}

} // verus!
