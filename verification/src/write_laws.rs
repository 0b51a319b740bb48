//! What a positional write leaves as it was.
use crate::allocator::blocks_for;
use crate::bgd::inode_place;
use crate::block_io::{block_at, lemma_with_block};
use crate::bytes::{splice, zeros};
use crate::commit::{committed, lemma_published_keeps, lemma_published_len};
use crate::content_laws::{
    in_use, law_record_reads_back, lemma_after_write, lemma_blocks_reach, lemma_same_place, lemma_totals_len, lemma_trusted, record_block,
};
use crate::error::{Error, Result};
use crate::extent::{block_for, extent_for, header_of, node_ok, Extent, ExtentVerifyCtx};
use crate::extent_mut::{deep_insert, storable, DeepInsertView};
use crate::fs::checked_inode;
use crate::grow::{home_group, stage_fresh, stage_nodes, staged_plan};
use crate::growth_laws::{lemma_insertion, lemma_lookup_trusted, lemma_tree_same, own_ctx, puts, tree_extended, trusted};
use crate::inode::{
    block_area_of, flags_of, generation_of, mode_is_file, mode_of, sectors_of, size_of_file,
};
use crate::inode_edit::{after_write, with_block_area};
use crate::order_laws::{
    lemma_insertion_kept, lemma_order_same, same_elsewhere, tree_in_order, where_is, FILE_BLOCKS,
};
use crate::pwrite::{all_mapped, chunk_limit, filled_run, halved_plan, marked_fresh, pwrite_stage, run_extent, spliced, unmapped, with_piece, with_run, Growing};
use crate::pwrite_laws::{
    apart, grown, is_kept, is_table, lemma_block_for_found, lemma_chunk_blocks, lemma_committed_wf, lemma_record_kept, lemma_tables_same, lemma_steps, lemma_totals_other, lemma_tree_kept, lemma_halved, lemma_kept_same, lemma_run_planned, lemma_run_sound, lemma_run_taken, lemma_spliced, lemma_unmapped_count, levels, sound,
};
use crate::stage::{desc_block, lemma_desc_place, stage_counters, stage_inode, stage_mark_blocks, super_block};
use crate::tree_laws::{lemma_found_in_tree, lemma_lookup_same, lemma_node_number, tree_maps, tree_node};
use crate::use_laws::{flags_agree, tables_apart};
use crate::volume::{fresh_stage, Stage, Vol};
use vstd::prelude::*;

verus! {

/// Block `k` is in use, and is neither a node of the file's tree nor a table
/// of a group.
pub open spec fn bystander(v: Vol, st: Stage, root: Seq<u8>, k: int) -> bool {
    &&& k >= 0
    &&& in_use(committed(v, st), k)
    &&& !is_table(v, k)
    &&& !tree_node(st.img, v.bs(), root, levels(root), k)
}

/// Every such block is as it was, and still is one.
pub open spec fn left_alone(v: Vol, a: Stage, ra: Seq<u8>, b: Stage, rb: Seq<u8>) -> bool {
    forall|k: int| #[trigger]
        bystander(v, a, ra, k) ==> bystander(v, b, rb, k) && block_at(b.img, v.bs(), k) == block_at(
            a.img,
            v.bs(),
            k,
        )
}

/// Where a write in progress has a file block.
pub open spec fn found(v: Vol, g: Growing, l: int) -> Result<Option<(int, bool)>> {
    where_is(extent_for(g.st.img, v.bs(), g.root, l, None), l)
}

/// A file block became new between `a` and `b`.
pub open spec fn newly(a: Growing, b: Growing, first: int, l: int) -> bool {
    0 <= l - first < b.fresh.len() && b.fresh[l - first] && !a.fresh[l - first]
}

/// A block that the tree leads to now, and did not before, was not in use.
pub open spec fn only_new(v: Vol, a: Stage, ra: Seq<u8>, b: Stage, rb: Seq<u8>) -> bool {
    forall|l: int, p: int| #[trigger]
        tree_maps(b.img, v.bs(), rb, levels(rb), l, p) ==> tree_maps(a.img, v.bs(), ra, levels(ra), l, p) || !in_use(
            committed(v, a),
            p,
        )
}

/// What mapping more blocks leaves of a file: its tree in order, every block
/// where it was but for those that are new and were nowhere, and no block
/// touched that it has no business with.
pub open spec fn followed(v: Vol, ino: u32, a: Growing, b: Growing, first: int) -> bool {
    &&& tree_in_order(b.st.img, v.bs(), b.root)
    &&& left_alone(v, a.st, a.root, b.st, b.root)
    &&& forall|k: int| in_use(committed(v, a.st), k) ==> #[trigger] in_use(committed(v, b.st), k)
    &&& only_new(v, a.st, a.root, b.st, b.root)
    &&& b.fresh.len() == a.fresh.len()
    &&& forall|j: int| 0 <= j < a.fresh.len() && a.fresh[j] ==> #[trigger] b.fresh[j]
    &&& forall|l: int|
        if newly(a, b, first, l) {
            block_for(a.st.img, v.bs(), a.root, l) == Ok::<Option<u64>, Error>(None)
        } else {
            #[trigger] found(v, b, l) == found(v, a, l)
        }
}

proof fn lemma_followed_on(v: Vol, ino: u32, a: Growing, b: Growing, c: Growing, first: int)
    requires
        followed(v, ino, a, b, first),
        followed(v, ino, b, c, first),
    ensures
        followed(v, ino, a, c, first),
{
    assert forall|l: int, p: int| #[trigger]
        tree_maps(c.st.img, v.bs(), c.root, levels(c.root), l, p) implies tree_maps(
        a.st.img,
        v.bs(),
        a.root,
        levels(a.root),
        l,
        p,
    ) || !in_use(committed(v, a.st), p) by {
        if !tree_maps(b.st.img, v.bs(), b.root, levels(b.root), l, p) {
            assert(!in_use(committed(v, b.st), p));
        }
    }
    assert forall|k: int| in_use(committed(v, a.st), k) implies #[trigger] in_use(committed(v, c.st), k) by {
        assert(in_use(committed(v, b.st), k));
    }
    assert forall|l: int|
        if newly(a, c, first, l) {
            block_for(a.st.img, v.bs(), a.root, l) == Ok::<Option<u64>, Error>(None)
        } else {
            #[trigger] found(v, c, l) == found(v, a, l)
        } by {
        let x = found(v, b, l);
        let y = found(v, c, l);
        if 0 <= l - first < a.fresh.len() {
            let fb = b.fresh[l - first];
            let fc = c.fresh[l - first];
        }
    }
}

/// An insertion leaves alone what it has no business with.
proof fn lemma_inserted_alone(
    v: Vol,
    ino: u32,
    st: Stage,
    root: Seq<u8>,
    ctx: Option<ExtentVerifyCtx>,
    new: Extent,
    spare: Option<u64>,
    after: Stage,
    grown: Seq<u8>,
)
    requires
        v.wf(),
        sound(v, ino, st, root, ctx),
        tree_extended(v, st.img, root, after.img, grown, new, spare),
        after.cleared == st.cleared,
        spare matches Some(s) ==> !is_kept(v, ino, s as int),
    ensures
        forall|k: int| #[trigger]
            bystander(v, st, root, k) && !(spare matches Some(s) && s == k) ==> bystander(v, after, grown, k) && block_at(
                after.img,
                v.bs(),
                k,
            ) == block_at(st.img, v.bs(), k),
        forall|k: int| in_use(committed(v, st), k) ==> #[trigger] in_use(committed(v, after), k),
{
    let bs = v.bs();
    assert forall|k: int| #[trigger] is_kept(v, ino, k) && k >= 0 implies block_at(after.img, bs, k) == block_at(
        st.img,
        bs,
        k,
    ) by {
        if tree_node(st.img, bs, root, levels(root), k) {
            assert(!is_kept(v, ino, k));
        }
    }
    lemma_kept_same(v, ino, st, after);
    assert forall|k: int| #[trigger] bystander(v, st, root, k) && !(spare matches Some(s) && s == k) implies bystander(
        v,
        after,
        grown,
        k,
    ) && block_at(after.img, bs, k) == block_at(st.img, bs, k) by {
        if tree_node(after.img, bs, grown, levels(grown), k) {
            assert(!tree_node(st.img, bs, root, levels(root), k));
        }
        assert(in_use(committed(v, after), k));
    }
}

/// Taking a run changes nothing about the tree.
proof fn lemma_taken_same(v: Vol, ino: u32, st: Stage, after: Stage, root: Seq<u8>, ctx: Option<ExtentVerifyCtx>)
    requires
        sound(v, ino, st, root, ctx),
        tree_in_order(st.img, v.bs(), root),
        forall|n: int| in_use(committed(v, st), n) ==> #[trigger] in_use(committed(v, after), n),
        forall|k: int| #[trigger]
            tree_node(after.img, v.bs(), root, levels(root), k) ==> tree_node(st.img, v.bs(), root, levels(root), k),
        forall|k: int|
            k >= 0 && !is_table(v, k) ==> #[trigger] block_at(after.img, v.bs(), k) == block_at(st.img, v.bs(), k),
    ensures
        tree_in_order(after.img, v.bs(), root),
        left_alone(v, st, root, after, root),
        forall|l: int| #[trigger]
            extent_for(after.img, v.bs(), root, l, None) == extent_for(st.img, v.bs(), root, l, None),
{
    let bs = v.bs();
    let d = levels(root);
    assert forall|k: int| #[trigger] tree_node(st.img, bs, root, d, k) implies block_at(after.img, bs, k) == block_at(
        st.img,
        bs,
        k,
    ) by {
        lemma_node_number(st.img, bs, root, d, k);
        assert(!is_kept(v, ino, k));
    }
    lemma_order_same(st.img, after.img, bs, root, d, 0, FILE_BLOCKS as int);
    assert forall|l: int| #[trigger] extent_for(after.img, bs, root, l, None) == extent_for(st.img, bs, root, l, None) by {
        lemma_lookup_same(st.img, after.img, bs, root, d, l, None);
    }
    assert forall|k: int| #[trigger] bystander(v, st, root, k) implies bystander(v, after, root, k) && block_at(
        after.img,
        bs,
        k,
    ) == block_at(st.img, bs, k) by {
        assert(in_use(committed(v, after), k));
    }
}

/// A run entered in the tree, with the tree as it was otherwise.
#[verifier::rlimit(40)]
proof fn lemma_entered(
    v: Vol,
    ino: u32,
    generation: u32,
    g: Growing,
    st: Stage,
    first: int,
    lb: int,
    n: int,
    new: Extent,
    spare: Option<u64>,
    ctx: Option<ExtentVerifyCtx>,
    root: Seq<u8>,
    writes: Seq<(u64, Seq<u8>)>,
    b: Growing,
)
    requires
        v.wf(),
        own_ctx(v, ino, generation, ctx),
        sound(v, ino, st, g.root, ctx),
        tree_in_order(st.img, v.bs(), g.root),
        left_alone(v, g.st, g.root, st, g.root),
        forall|k: int| in_use(committed(v, g.st), k) ==> #[trigger] in_use(committed(v, st), k),
        forall|l: int, p: int| #[trigger]
            tree_maps(st.img, v.bs(), g.root, levels(g.root), l, p) ==> tree_maps(
                g.st.img,
                v.bs(),
                g.root,
                levels(g.root),
                l,
                p,
            ),
        forall|l: int, p: int| #[trigger] puts(new, l, p) ==> !in_use(committed(v, g.st), p),
        forall|l: int| #[trigger]
            extent_for(st.img, v.bs(), g.root, l, None) == extent_for(g.st.img, v.bs(), g.root, l, None),
        spare matches Some(s) ==> s < 0x1_0000_0000_0000 && !is_kept(v, ino, s as int) && !tree_node(
            st.img,
            v.bs(),
            g.root,
            levels(g.root),
            s as int,
        ) && !in_use(committed(v, g.st), s as int),
        storable(new),
        n == new.length > 0,
        lb == new.logical_block,
        0 <= first <= lb,
        lb + n <= first + g.fresh.len(),
        forall|j: int| lb - first <= j < g.fresh.len() ==> !(#[trigger] g.fresh[j]),
        forall|l: int|
            lb <= l < lb + n ==> #[trigger] block_for(g.st.img, v.bs(), g.root, l) == Ok::<Option<u64>, Error>(None),
        deep_insert(st.img, v.bs(), g.root, new, v.csum.enabled, spare) == Ok::<DeepInsertView, Error>(
            DeepInsertView::Done { root, writes },
        ),
        stage_nodes(v, st, ino, generation, writes) == Ok::<Stage, Error>(b.st),
        b.root == root,
        b.fresh == marked_fresh(g.fresh, lb - first, n),
    ensures
        followed(v, ino, g, b, first),
{
    lemma_insertion(v, st, ino, generation, g.root, new, spare, ctx, root, writes);
    lemma_insertion_kept(v, st, ino, generation, g.root, new, spare, root, writes);
    lemma_inserted_alone(v, ino, st, g.root, ctx, new, spare, b.st, root);
    assert(left_alone(v, g.st, g.root, b.st, b.root)) by {
        assert forall|k: int| #[trigger] bystander(v, g.st, g.root, k) implies bystander(v, b.st, b.root, k)
            && block_at(b.st.img, v.bs(), k) == block_at(g.st.img, v.bs(), k) by {
            assert(bystander(v, st, g.root, k));
        }
    }
    assert forall|k: int| in_use(committed(v, g.st), k) implies #[trigger] in_use(committed(v, b.st), k) by {
        assert(in_use(committed(v, st), k));
    }
    lemma_places_kept(v, g, b, st.img, first, lb, n, new);
}

proof fn lemma_places_kept(v: Vol, g: Growing, b: Growing, img: Seq<u8>, first: int, lb: int, n: int, new: Extent)
    requires
        forall|l: int| #[trigger]
            extent_for(img, v.bs(), g.root, l, None) == extent_for(g.st.img, v.bs(), g.root, l, None),
        n == new.length > 0,
        lb == new.logical_block,
        0 <= first <= lb,
        lb + n <= first + g.fresh.len(),
        forall|j: int| lb - first <= j < g.fresh.len() ==> !(#[trigger] g.fresh[j]),
        forall|l: int|
            lb <= l < lb + n ==> #[trigger] block_for(g.st.img, v.bs(), g.root, l) == Ok::<Option<u64>, Error>(None),
        same_elsewhere(img, g.root, b.st.img, b.root, v.bs(), new),
        b.fresh == marked_fresh(g.fresh, lb - first, n),
    ensures
        b.fresh.len() == g.fresh.len(),
        forall|j: int| 0 <= j < g.fresh.len() && g.fresh[j] ==> #[trigger] b.fresh[j],
        forall|l: int|
            if newly(g, b, first, l) {
                block_for(g.st.img, v.bs(), g.root, l) == Ok::<Option<u64>, Error>(None)
            } else {
                #[trigger] found(v, b, l) == found(v, g, l)
            },
{
    assert forall|l: int|
        if newly(g, b, first, l) {
            block_for(g.st.img, v.bs(), g.root, l) == Ok::<Option<u64>, Error>(None)
        } else {
            #[trigger] found(v, b, l) == found(v, g, l)
        } by {
        if lb <= l < lb + n {
            assert(!g.fresh[l - first]);
        } else {
            assert(!new.covers(l));
            let y = extent_for(img, v.bs(), g.root, l, None);
            assert(where_is(extent_for(b.st.img, v.bs(), b.root, l, None), l) == where_is(y, l));
            if 0 <= l - first < g.fresh.len() {
                assert(b.fresh[l - first] == g.fresh[l - first]);
            }
        }
    }
}

/// A run entered in the tree of a file in good order.
#[verifier::rlimit(40)]
proof fn lemma_run_followed(
    v: Vol,
    ino: u32,
    generation: u32,
    g: Growing,
    first: int,
    lb: int,
    count: u32,
    hint: u32,
    ctx: Option<ExtentVerifyCtx>,
)
    requires
        v.wf(),
        tables_apart(v),
        own_ctx(v, ino, generation, ctx),
        sound(v, ino, g.st, g.root, ctx),
        tree_in_order(g.st.img, v.bs(), g.root),
        0 < count <= 32768,
        0 <= first <= lb,
        lb + count <= first + g.fresh.len(),
        lb < FILE_BLOCKS,
        forall|j: int| lb - first <= j < g.fresh.len() ==> !(#[trigger] g.fresh[j]),
        forall|l: int|
            lb <= l < lb + count ==> #[trigger] block_for(g.st.img, v.bs(), g.root, l) == Ok::<Option<u64>, Error>(
                None,
            ),
        staged_plan(v, g.st, count, hint) is Ok,
        with_run(v, ino, generation, g, first, lb, staged_plan(v, g.st, count, hint)->Ok_0) is Ok,
    ensures
        ({
            let b = with_run(v, ino, generation, g, first, lb, staged_plan(v, g.st, count, hint)->Ok_0)->Ok_0;
            &&& followed(v, ino, g, b, first)
            &&& b.fresh == marked_fresh(g.fresh, lb - first, count as int)
        }),
{
    let bs = v.bs();
    let d = levels(g.root);
    let plan = staged_plan(v, g.st, count, hint)->Ok_0;
    let new = run_extent(lb, plan);
    lemma_run_planned(v, g.st, count, hint);
    let st1 = stage_mark_blocks(v, g.st, plan.first_block, count as int)->Ok_0;
    let fi = plan.bgd.free_inodes_delta as int;
    let ud = plan.bgd.used_dirs_delta as int;
    let st2 = stage_counters(v, st1, plan.bgd.group_idx as int, plan.bgd.free_blocks_delta as int, fi, ud)->Ok_0;
    lemma_run_taken(v, ino, g.st, g.root, ctx, count, hint, st2, fi, ud);
    lemma_taken_same(v, ino, g.st, st2, g.root, ctx);
    let b = with_run(v, ino, generation, g, first, lb, plan)->Ok_0;
    assert forall|l: int, p: int| #[trigger] puts(new, l, p) implies !in_use(committed(v, g.st), p) by {
        assert(plan.first_block <= p < plan.first_block + count);
    }
    match deep_insert(st2.img, bs, g.root, new, v.csum.enabled, None)->Ok_0 {
        DeepInsertView::Done { root, writes } => {
            lemma_entered(v, ino, generation, g, st2, first, lb, count as int, new, None, ctx, root, writes, b);
        },
        DeepInsertView::NeedsBlock => {
            let hint2 = home_group(v, ino);
            let meta = staged_plan(v, st2, 1, hint2)->Ok_0;
            let s = meta.first_block;
            lemma_run_planned(v, st2, 1, hint2);
            let st3 = stage_mark_blocks(v, st2, s, 1)->Ok_0;
            let st4 = stage_counters(v, st3, meta.bgd.group_idx as int, meta.bgd.free_blocks_delta as int, 0, 0)->Ok_0;
            lemma_run_taken(v, ino, st2, g.root, ctx, 1, hint2, st4, 0, 0);
            lemma_taken_same(v, ino, st2, st4, g.root, ctx);
            assert(!in_use(committed(v, st2), s as int)) by {
                if in_use(committed(v, st2), s as int) {
                    assert(!(s <= s < s + 1));
                }
            }
            assert(!in_use(committed(v, g.st), s as int));
            assert(!is_kept(v, ino, s as int));
            assert(!tree_node(st4.img, bs, g.root, d, s as int)) by {
                if tree_node(st4.img, bs, g.root, d, s as int) {
                    assert(tree_node(st2.img, bs, g.root, d, s as int));
                }
            }
            assert(left_alone(v, g.st, g.root, st4, g.root)) by {
                assert forall|k: int| #[trigger] bystander(v, g.st, g.root, k) implies bystander(
                    v,
                    st4,
                    g.root,
                    k,
                ) && block_at(st4.img, bs, k) == block_at(g.st.img, bs, k) by {
                    assert(bystander(v, st2, g.root, k));
                }
            }
            assert forall|l: int| #[trigger] extent_for(st4.img, bs, g.root, l, None) == extent_for(
                g.st.img,
                bs,
                g.root,
                l,
                None,
            ) by {
                let x = extent_for(st2.img, bs, g.root, l, None);
            }
            assert forall|k: int| in_use(committed(v, g.st), k) implies #[trigger] in_use(committed(v, st4), k) by {
                assert(in_use(committed(v, st2), k));
            }
            let out = deep_insert(st4.img, bs, g.root, new, v.csum.enabled, Some(s))->Ok_0;
            lemma_entered(
                v,
                ino,
                generation,
                g,
                st4,
                first,
                lb,
                count as int,
                new,
                Some(s),
                ctx,
                out->Done_root,
                out->writes,
                b,
            );
        },
    }
}

/// The blocks of a stretch that is not mapped.
proof fn lemma_unmapped_none(v: Vol, g: Growing, lb: int, last: int)
    requires
        unmapped(v, g, lb, last) is Ok,
    ensures
        forall|l: int|
            lb <= l < lb + unmapped(v, g, lb, last)->Ok_0 ==> #[trigger] block_for(g.st.img, v.bs(), g.root, l) == Ok::<
                Option<u64>,
                Error,
            >(None),
    decreases last - lb,
{
    if lb < last && block_for(g.st.img, v.bs(), g.root, lb) == Ok::<Option<u64>, Error>(None) {
        lemma_unmapped_none(v, g, lb + 1, last);
    }
}

/// A stretch filled in.
proof fn lemma_filled_followed(
    v: Vol,
    ino: u32,
    generation: u32,
    g: Growing,
    first: int,
    lb: int,
    remaining: nat,
    ctx: Option<ExtentVerifyCtx>,
)
    requires
        v.wf(),
        tables_apart(v),
        own_ctx(v, ino, generation, ctx),
        sound(v, ino, g.st, g.root, ctx),
        tree_in_order(g.st.img, v.bs(), g.root),
        remaining <= 32768,
        0 <= first <= lb,
        lb + remaining <= first + g.fresh.len(),
        lb + remaining <= FILE_BLOCKS,
        forall|j: int| lb - first <= j < g.fresh.len() ==> !(#[trigger] g.fresh[j]),
        forall|l: int|
            lb <= l < lb + remaining ==> #[trigger] block_for(g.st.img, v.bs(), g.root, l) == Ok::<Option<u64>, Error>(
                None,
            ),
        filled_run(v, ino, generation, g, first, lb, remaining) is Ok,
    ensures
        ({
            let b = filled_run(v, ino, generation, g, first, lb, remaining)->Ok_0;
            &&& sound(v, ino, b.st, b.root, ctx)
            &&& followed(v, ino, g, b, first)
            &&& forall|j: int| lb + remaining - first <= j < g.fresh.len() ==> !(#[trigger] b.fresh[j])
        }),
    decreases remaining,
{
    if remaining > 0 {
        let hint = home_group(v, ino);
        let plan = halved_plan(v, g.st, remaining as u32, hint)->Ok_0;
        let count = lemma_halved(v, g.st, remaining as u32, hint);
        lemma_run_planned(v, g.st, count, hint);
        lemma_run_sound(v, ino, generation, g, first, lb, count, hint, ctx);
        lemma_run_followed(v, ino, generation, g, first, lb, count, hint, ctx);
        let g2 = with_run(v, ino, generation, g, first, lb, plan)->Ok_0;
        assert forall|l: int| lb + count <= l < lb + remaining implies #[trigger] block_for(
            g2.st.img,
            v.bs(),
            g2.root,
            l,
        ) == Ok::<Option<u64>, Error>(None) by {
            assert(!newly(g, g2, first, l));
            assert(found(v, g2, l) == found(v, g, l));
            assert(block_for(g.st.img, v.bs(), g.root, l) == Ok::<Option<u64>, Error>(None));
        }
        assert forall|j: int| lb + count - first <= j < g2.fresh.len() implies !(#[trigger] g2.fresh[j]) by {
            assert(!g.fresh[j]);
        }
        lemma_filled_followed(v, ino, generation, g2, first, lb + count, (remaining - count) as nat, ctx);
        let b = filled_run(v, ino, generation, g, first, lb, remaining)->Ok_0;
        lemma_followed_on(v, ino, g, g2, b, first);
    }
}

/// A range mapped.
proof fn lemma_mapped_followed(
    v: Vol,
    ino: u32,
    generation: u32,
    g: Growing,
    first: int,
    lb: int,
    last: int,
    ctx: Option<ExtentVerifyCtx>,
)
    requires
        v.wf(),
        tables_apart(v),
        own_ctx(v, ino, generation, ctx),
        sound(v, ino, g.st, g.root, ctx),
        tree_in_order(g.st.img, v.bs(), g.root),
        last - lb <= 32768,
        0 <= first <= lb,
        last <= FILE_BLOCKS,
        lb < last ==> g.fresh.len() == last - first,
        forall|j: int| lb - first <= j < g.fresh.len() ==> !(#[trigger] g.fresh[j]),
        all_mapped(v, ino, generation, g, first, lb, last) is Ok,
    ensures
        ({
            let b = all_mapped(v, ino, generation, g, first, lb, last)->Ok_0;
            &&& sound(v, ino, b.st, b.root, ctx)
            &&& followed(v, ino, g, b, first)
        }),
    decreases
            (if last > lb {
                last - lb
            } else {
                0
            }),
{
    if lb < last {
        let n = unmapped(v, g, lb, last)->Ok_0;
        lemma_unmapped_count(v, g, lb, last);
        if n == 0 {
            lemma_mapped_followed(v, ino, generation, g, first, lb + 1, last, ctx);
        } else {
            lemma_unmapped_none(v, g, lb, last);
            lemma_filled_followed(v, ino, generation, g, first, lb, n, ctx);
            let g2 = filled_run(v, ino, generation, g, first, lb, n)->Ok_0;
            lemma_mapped_followed(v, ino, generation, g2, first, lb + n, last, ctx);
            let b = all_mapped(v, ino, generation, g, first, lb, last)->Ok_0;
            lemma_followed_on(v, ino, g, g2, b, first);
        }
    }
}

// -- the contents of the file -----------------------------------------------

/// What file block `l` holds.
pub open spec fn block_contents(v: Vol, area: Seq<u8>, ctx: Option<ExtentVerifyCtx>, l: int) -> Result<Seq<u8>> {
    match extent_for(v.img, v.bs(), area, l, ctx) {
        Err(e) => Err(e),
        Ok(None) => Ok(zeros(v.bs() as nat)),
        Ok(Some(e)) => if e.uninitialized {
            Ok(zeros(v.bs() as nat))
        } else {
            block_at(v.img, v.bs(), e.place(l))
        },
    }
}

/// File block `l` with its part of the data in place.
pub open spec fn overlaid(bs: int, b: Seq<u8>, offset: int, data: Seq<u8>, l: int) -> Seq<u8> {
    Seq::new(
        bs as nat,
        |j: int|
            if offset <= l * bs + j < offset + data.len() {
                data[l * bs + j - offset]
            } else {
                b[j]
            },
    )
}

proof fn lemma_piece_overlays(bs: int, base: Seq<u8>, offset: int, data: Seq<u8>, l: int)
    requires
        bs > 0,
        base.len() == bs,
        offset < l * bs + bs,
        l * bs < offset + data.len(),
        data.len() > 0,
    ensures
        with_piece(bs, base, offset, data, l) == overlaid(bs, base, offset, data, l),
{
    assert(with_piece(bs, base, offset, data, l) =~= overlaid(bs, base, offset, data, l));
}

/// What writing the data leaves in the block of file block `l`.
proof fn lemma_spliced_whole(
    v: Vol,
    img: Seq<u8>,
    st: Stage,
    root: Seq<u8>,
    fresh: Seq<bool>,
    offset: int,
    data: Seq<u8>,
    lb: int,
    last: int,
    l: int,
)
    requires
        v.wf(),
        st.img.len() == v.img.len(),
        lb <= l < last,
        forall|k: int| #[trigger]
            tree_node(img, v.bs(), root, levels(root), k) ==> block_at(st.img, v.bs(), k) == block_at(img, v.bs(), k),
        forall|l: int, p: int| #[trigger]
            tree_maps(img, v.bs(), root, levels(root), l, p) ==> !tree_node(img, v.bs(), root, levels(root), p),
        forall|l: int, m: int, p: int| #[trigger]
            tree_maps(img, v.bs(), root, levels(root), l, p) && #[trigger] tree_maps(
                img,
                v.bs(),
                root,
                levels(root),
                m,
                p,
            ) ==> l == m,
        spliced(v, st, root, fresh, offset, data, lb, last) is Ok,
    ensures
        ({
            let after = spliced(v, st, root, fresh, offset, data, lb, last)->Ok_0;
            let at = block_for(img, v.bs(), root, l);
            let p = at->Ok_0->Some_0;
            let old = block_at(st.img, v.bs(), p as int);
            let base = if fresh[l - offset / v.bs()] {
                zeros(v.bs() as nat)
            } else {
                old->Ok_0
            };
            &&& at is Ok
            &&& at->Ok_0 is Some
            &&& !fresh[l - offset / v.bs()] ==> old is Ok
            &&& base.len() == v.bs()
            &&& block_at(after.img, v.bs(), p as int) == Ok::<Seq<u8>, Error>(
                with_piece(v.bs(), base, offset, data, l),
            )
        }),
    decreases last - lb,
{
    let bs = v.bs();
    if header_of(root) is Ok {
        lemma_lookup_same(img, st.img, bs, root, levels(root), lb, None);
    }
    assert(block_for(st.img, bs, root, lb) == block_for(img, bs, root, lb));
    let p = block_for(img, bs, root, lb)->Ok_0->Some_0;
    lemma_block_for_found(img, bs, root, lb);
    let base = if fresh[lb - offset / bs] {
        zeros(bs as nat)
    } else {
        block_at(st.img, bs, p as int)->Ok_0
    };
    let new = with_piece(bs, base, offset, data, lb);
    let st2 = stage_fresh(v, st, p, new)->Ok_0;
    assert(base.len() == bs);
    assert forall|k: int| k >= 0 implies #[trigger] block_at(st2.img, bs, k) == (if k == p {
        Ok(new)
    } else {
        block_at(st.img, bs, k)
    }) by {
        lemma_with_block(st.img, bs, p as int, new, k);
    }
    assert forall|k: int| #[trigger] tree_node(img, bs, root, levels(root), k) implies block_at(st2.img, bs, k)
        == block_at(img, bs, k) by {
        lemma_node_number(img, bs, root, levels(root), k);
    }
    assert(spliced(v, st, root, fresh, offset, data, lb, last) == spliced(
        v,
        st2,
        root,
        fresh,
        offset,
        data,
        lb + 1,
        last,
    ));
    if l == lb {
        lemma_spliced(v, img, st2, root, fresh, offset, data, lb + 1, last);
        assert forall|m: int| lb + 1 <= m < last implies #[trigger] block_for(img, bs, root, m) != Ok::<
            Option<u64>,
            Error,
        >(Some(p)) by {
            lemma_block_for_found(img, bs, root, m);
        }
        let after = spliced(v, st, root, fresh, offset, data, lb, last)->Ok_0;
        assert(block_at(after.img, bs, p as int) == block_at(st2.img, bs, p as int));
    } else {
        lemma_spliced_whole(v, img, st2, root, fresh, offset, data, lb + 1, last, l);
        lemma_block_for_found(img, bs, root, l);
    }
}

/// A block of the file that the data does not reach.
proof fn lemma_overlaid_beyond(bs: int, b: Seq<u8>, offset: int, data: Seq<u8>, l: int)
    requires
        bs > 0,
        b.len() == bs,
        0 <= offset,
        data.len() > 0,
        !(offset / bs <= l < blocks_for(offset + data.len(), bs)),
    ensures
        overlaid(bs, b, offset, data, l) == b,
{
    let end = offset + data.len();
    assert forall|j: int| 0 <= j < bs implies (#[trigger] overlaid(bs, b, offset, data, l)[j]) == b[j] by {
        if offset <= l * bs + j < end {
            assert(offset / bs <= l) by (nonlinear_arith)
                requires
                    offset <= l * bs + j,
                    0 <= j < bs,
                    bs > 0,
            ;
            assert(offset / bs >= 0) by (nonlinear_arith)
                requires
                    offset >= 0,
                    bs > 0,
            ;
            lemma_blocks_reach(end, bs, l);
        }
    }
    assert(overlaid(bs, b, offset, data, l) =~= b);
}

/// Neither the file's record nor the superblock shares a block with what an
/// allocation edits, or with the other.
pub open spec fn record_apart(v: Vol, ino: u32) -> bool {
    &&& record_block(v, ino) != super_block(v.sb)
    &&& forall|gi: int|
        0 <= gi < v.groups.len() ==> {
            &&& #[trigger] desc_block(v.sb, gi) != record_block(v, ino)
            &&& desc_block(v.sb, gi) != super_block(v.sb)
        }
    &&& forall|gi: int|
        0 <= gi < v.groups.len() ==> {
            &&& (#[trigger] v.groups[gi]).block_bitmap != record_block(v, ino)
            &&& v.groups[gi].block_bitmap != super_block(v.sb)
        }
}

/// A regular file in good order, on a volume in good order, that a write may
/// change and a reader may verify.
pub open spec fn in_good_order(v: Vol, ino: u32, raw: Seq<u8>, ctx: Option<ExtentVerifyCtx>) -> bool {
    &&& v.wf()
    &&& checked_inode(v, ino) == Ok::<Seq<u8>, Error>(raw)
    &&& mode_is_file(mode_of(raw))
    &&& tables_apart(v)
    &&& record_apart(v, ino)
    &&& own_ctx(v, ino, generation_of(raw), ctx)
    &&& sound(v, ino, fresh_stage(v), block_area_of(raw), ctx)
    &&& tree_in_order(v.img, v.bs(), block_area_of(raw))
}

/// Every block of the file holds what it held, with its part of the data in
/// place.
pub open spec fn overlays(
    v: Vol,
    area: Seq<u8>,
    w: Vol,
    after: Seq<u8>,
    ctx: Option<ExtentVerifyCtx>,
    offset: int,
    data: Seq<u8>,
) -> bool {
    forall|l: int|
        (#[trigger] block_contents(w, after, ctx, l)) == (match block_contents(v, area, ctx, l) {
            Ok(b) => Ok::<Seq<u8>, Error>(overlaid(v.bs(), b, offset, data, l)),
            Err(e) => Err(e),
        })
}

/// The start of a write: nothing staged, nothing new.
pub open spec fn start_of_write(v: Vol, raw: Seq<u8>, offset: int, len: int) -> Growing {
    Growing {
        st: fresh_stage(v),
        root: block_area_of(raw),
        total: 0,
        fresh: Seq::new((blocks_for(offset + len, v.bs()) - offset / v.bs()) as nat, |j: int| false),
    }
}

/// What is staged once every block of the range is mapped.
proof fn lemma_grown_followed(v: Vol, ino: u32, raw: Seq<u8>, ctx: Option<ExtentVerifyCtx>, offset: int, len: int)
    requires
        in_good_order(v, ino, raw, ctx),
        0 <= offset,
        0 < len <= chunk_limit(v.bs()),
        blocks_for(offset + len, v.bs()) <= FILE_BLOCKS,
        grown(v, ino, raw, offset, len) is Ok,
    ensures
        ({
            let a = start_of_write(v, raw, offset, len);
            let g = grown(v, ino, raw, offset, len)->Ok_0;
            &&& sound(v, ino, g.st, g.root, ctx)
            &&& followed(v, ino, a, g, offset / v.bs())
        }),
{
    let bs = v.bs();
    let first = offset / bs;
    let last = blocks_for(offset + len, bs);
    lemma_chunk_blocks(bs, offset, len);
    let a = start_of_write(v, raw, offset, len);
    assert(first >= 0) by (nonlinear_arith)
        requires
            offset >= 0,
            bs > 0,
            first == offset / bs,
    ;
    assert(first < last) by {
        vstd::arithmetic::div_mod::lemma_fundamental_div_mod(offset, bs);
        assert(first * bs < offset + len) by (nonlinear_arith)
            requires
                offset == bs * first + offset % bs,
                offset % bs >= 0,
                len > 0,
        ;
        lemma_blocks_reach(offset + len, bs, first);
    }
    lemma_mapped_followed(v, ino, generation_of(raw), a, first, first, last, ctx);
}

/// The tree looks the same in the volume that a write leaves as it did once
/// it was grown, and so do all blocks but those that the write is for.
#[verifier::rlimit(40)]
proof fn lemma_written_same(
    v: Vol,
    ino: u32,
    raw: Seq<u8>,
    ctx: Option<ExtentVerifyCtx>,
    offset: int,
    data: Seq<u8>,
    now: u32,
)
    requires
        in_good_order(v, ino, raw, ctx),
        0 <= offset,
        0 < data.len() <= chunk_limit(v.bs()),
        offset + data.len() <= u64::MAX,
        blocks_for(offset + data.len(), v.bs()) <= FILE_BLOCKS,
        pwrite_stage(v, ino, raw, offset, data, now) is Ok,
    ensures
        ({
            let bs = v.bs();
            let first = offset / bs;
            let last = blocks_for(offset + data.len(), bs);
            let (after, size) = pwrite_stage(v, ino, raw, offset, data, now)->Ok_0;
            let g = grown(v, ino, raw, offset, data.len() as int)->Ok_0;
            let st1 = spliced(v, g.st, g.root, g.fresh, offset, data, first, last);
            let w = committed(v, after);
            &&& grown(v, ino, raw, offset, data.len() as int) is Ok
            &&& st1 is Ok
            &&& after.img.len() == v.img.len()
            &&& after.cleared == g.st.cleared
            &&& sound(v, ino, g.st, g.root, ctx)
            &&& followed(v, ino, start_of_write(v, raw, offset, data.len() as int), g, first)
            &&& checked_inode(w, ino) is Ok
            &&& size_of_file(checked_inode(w, ino)->Ok_0) == size
            &&& generation_of(checked_inode(w, ino)->Ok_0) == generation_of(raw)
            &&& flags_of(checked_inode(w, ino)->Ok_0) == flags_of(raw)
            &&& mode_of(checked_inode(w, ino)->Ok_0) == mode_of(raw)
            &&& block_area_of(checked_inode(w, ino)->Ok_0) == g.root
            &&& forall|k: int|
                k >= 0 && k != record_block(v, ino) && k != super_block(v.sb) ==> #[trigger] block_at(after.img, bs, k)
                    == block_at(st1->Ok_0.img, bs, k)
            &&& forall|k: int| #[trigger]
                tree_node(g.st.img, bs, g.root, levels(g.root), k) ==> block_at(after.img, bs, k) == block_at(
                    g.st.img,
                    bs,
                    k,
                )
        }),
{
    let bs = v.bs();
    let len = data.len() as int;
    let first = offset / bs;
    let last = blocks_for(offset + len, bs);
    let (after, size) = pwrite_stage(v, ino, raw, offset, data, now)->Ok_0;
    lemma_steps(v, ino, raw, offset, data, now);
    let g = grown(v, ino, raw, offset, len)->Ok_0;
    lemma_grown_followed(v, ino, raw, ctx, offset, len);
    let st1 = spliced(v, g.st, g.root, g.fresh, offset, data, first, last)->Ok_0;
    let sectors = (sectors_of(raw) + g.total * (bs / 512)) as u64;
    let raw2 = after_write(v, ino, generation_of(raw), with_block_area(raw, g.root), size, sectors, now);
    lemma_after_write(v, ino, raw, g.root, size, sectors, now);
    lemma_record_kept(v, ino, g, st1, raw2, after);
    let w = committed(v, after);
    lemma_trusted(w, ino, raw2);
    assert(is_kept(v, ino, record_block(v, ino)) && is_kept(v, ino, super_block(v.sb)));
    assert(apart(v, ino, g.st.img, g.root));
    lemma_spliced(v, g.st.img, g.st, g.root, g.fresh, offset, data, first, last);
    lemma_tree_kept(v, ino, g, st1, offset, data, first, last);
    assert forall|k: int|
        k >= 0 && k != record_block(v, ino) && k != super_block(v.sb) implies #[trigger] block_at(after.img, bs, k)
        == block_at(st1.img, bs, k) by {
        law_record_reads_back(v, st1, ino, raw2, k);
    }
    assert forall|k: int| #[trigger] tree_node(g.st.img, bs, g.root, levels(g.root), k) implies block_at(
        after.img,
        bs,
        k,
    ) == block_at(g.st.img, bs, k) by {
        lemma_node_number(g.st.img, bs, g.root, levels(g.root), k);
    }
    law_record_reads_back(v, st1, ino, raw2, 0);
    let st2 = stage_inode(v, st1, ino, raw2)->Ok_0;
    if g.total > 0 {
        lemma_totals_len(v, st2, -g.total, 0);
        lemma_totals_other(v, st2, -g.total, 0, record_block(v, ino));
    }
}

/// One block of the file, after the write.
#[verifier::rlimit(40)]
proof fn lemma_block_overlaid(
    v: Vol,
    ino: u32,
    raw: Seq<u8>,
    ctx: Option<ExtentVerifyCtx>,
    offset: int,
    data: Seq<u8>,
    now: u32,
    l: int,
)
    requires
        in_good_order(v, ino, raw, ctx),
        0 <= offset,
        0 < data.len() <= chunk_limit(v.bs()),
        offset + data.len() <= u64::MAX,
        blocks_for(offset + data.len(), v.bs()) <= FILE_BLOCKS,
        pwrite_stage(v, ino, raw, offset, data, now) is Ok,
    ensures
        ({
            let w = committed(v, pwrite_stage(v, ino, raw, offset, data, now)->Ok_0.0);
            block_contents(w, block_area_of(checked_inode(w, ino)->Ok_0), ctx, l) == (match block_contents(
                v,
                block_area_of(raw),
                ctx,
                l,
            ) {
                Ok(b) => Ok::<Seq<u8>, Error>(overlaid(v.bs(), b, offset, data, l)),
                Err(e) => Err(e),
            })
        }),
        offset / v.bs() <= l < blocks_for(offset + data.len(), v.bs()) ==> block_contents(
            v,
            block_area_of(raw),
            ctx,
            l,
        ) is Ok,
{
    let bs = v.bs();
    let len = data.len() as int;
    let first = offset / bs;
    let last = blocks_for(offset + len, bs);
    let area = block_area_of(raw);
    let (after, size) = pwrite_stage(v, ino, raw, offset, data, now)->Ok_0;
    let w = committed(v, after);
    lemma_written_same(v, ino, raw, ctx, offset, data, now);
    let a = start_of_write(v, raw, offset, len);
    let g = grown(v, ino, raw, offset, len)->Ok_0;
    let st1 = spliced(v, g.st, g.root, g.fresh, offset, data, first, last)->Ok_0;
    let d = levels(g.root);
    lemma_lookup_same(g.st.img, after.img, bs, g.root, d, l, ctx);
    lemma_lookup_trusted(g.st.img, bs, g.root, d, l, ctx);
    lemma_lookup_trusted(v.img, bs, area, levels(area), l, ctx);
    assert(extent_for(w.img, bs, g.root, l, ctx) == extent_for(g.st.img, bs, g.root, l, None));
    assert(extent_for(v.img, bs, area, l, ctx) == extent_for(a.st.img, bs, area, l, None));
    let ended = found(v, g, l);
    let began = found(v, a, l);
    lemma_found_in_tree(g.st.img, bs, g.root, d, l, None);
    lemma_found_in_tree(v.img, bs, area, levels(area), l, None);
    assert(is_kept(v, ino, record_block(v, ino)) && is_kept(v, ino, super_block(v.sb)));
    lemma_spliced(v, g.st.img, g.st, g.root, g.fresh, offset, data, first, last);
    if first <= l < last {
        lemma_spliced_whole(v, g.st.img, g.st, g.root, g.fresh, offset, data, first, last, l);
        lemma_block_for_found(g.st.img, bs, g.root, l);
        let p = block_for(g.st.img, bs, g.root, l)->Ok_0->Some_0 as int;
        lemma_in_range(bs, offset, len, l);
        if g.fresh[l - first] {
            assert(newly(a, g, first, l));
            lemma_piece_overlays(bs, zeros(bs as nat), offset, data, l);
        } else {
            assert(!newly(a, g, first, l));
            assert(tree_maps(v.img, bs, area, levels(area), l, p));
            assert(bystander(v, a.st, area, p));
            let base = block_at(g.st.img, bs, p)->Ok_0;
            lemma_piece_overlays(bs, base, offset, data, l);
        }
    } else {
        assert(!newly(a, g, first, l));
        match extent_for(g.st.img, bs, g.root, l, None) {
            Err(_) => {},
            Ok(None) => {
                lemma_overlaid_beyond(bs, zeros(bs as nat), offset, data, l);
            },
            Ok(Some(e)) => {
                if e.uninitialized {
                    lemma_overlaid_beyond(bs, zeros(bs as nat), offset, data, l);
                } else {
                    let p = e.place(l);
                    assert(tree_maps(g.st.img, bs, g.root, d, l, p));
                    assert(tree_maps(v.img, bs, area, levels(area), l, p));
                    assert(bystander(v, a.st, area, p));
                    assert forall|m: int| first <= m < last implies #[trigger] block_for(g.st.img, bs, g.root, m) != Ok::<
                        Option<u64>,
                        Error,
                    >(Some(p as u64)) by {
                        lemma_block_for_found(g.st.img, bs, g.root, m);
                    }
                    assert(block_at(st1.img, bs, p) == block_at(g.st.img, bs, p));
                    if block_at(v.img, bs, p) is Ok {
                        lemma_overlaid_beyond(bs, block_at(v.img, bs, p)->Ok_0, offset, data, l);
                    }
                }
            },
        }
    }
}

/// A block of the range has a part of the data.
proof fn lemma_in_range(bs: int, offset: int, len: int, l: int)
    requires
        bs > 0,
        0 <= offset,
        0 < len,
        offset / bs <= l < blocks_for(offset + len, bs),
    ensures
        offset < l * bs + bs,
        l * bs < offset + len,
{
    let end = offset + len;
    vstd::arithmetic::div_mod::lemma_fundamental_div_mod(offset, bs);
    vstd::arithmetic::div_mod::lemma_fundamental_div_mod(end, bs);
    crate::superblock::lemma_div_ceil(end, bs);
    let q = offset / bs;
    assert(offset < l * bs + bs) by (nonlinear_arith)
        requires
            offset == bs * q + offset % bs,
            offset % bs < bs,
            q <= l,
            bs > 0,
    ;
    let r = end / bs;
    let m = end % bs;
    if m == 0 {
        assert(l * bs < end) by (nonlinear_arith)
            requires
                end == bs * r,
                l < r,
                bs > 0,
        ;
    } else {
        assert(l * bs < end) by (nonlinear_arith)
            requires
                end == bs * r + m,
                m > 0,
                l <= r,
                bs > 0,
        ;
    }
}

/// A positional write changes the bytes that it is for and no others: every
/// block of the file holds afterwards what it held before, with its part of
/// the data in place. A block that was a hole counts as zeros. The write is one
/// that fits a commit, to a file in good order on a volume in good order.
pub proof fn law_write_overlays_the_file(
    v: Vol,
    ino: u32,
    raw: Seq<u8>,
    ctx: Option<ExtentVerifyCtx>,
    offset: int,
    data: Seq<u8>,
    now: u32,
)
    requires
        in_good_order(v, ino, raw, ctx),
        0 <= offset,
        0 < data.len() <= chunk_limit(v.bs()),
        offset + data.len() <= u64::MAX,
        blocks_for(offset + data.len(), v.bs()) <= FILE_BLOCKS,
        pwrite_stage(v, ino, raw, offset, data, now) is Ok,
    ensures
        ({
            let (after, size) = pwrite_stage(v, ino, raw, offset, data, now)->Ok_0;
            let w = committed(v, after);
            &&& checked_inode(w, ino) is Ok
            &&& size_of_file(checked_inode(w, ino)->Ok_0) == size
            &&& overlays(v, block_area_of(raw), w, block_area_of(checked_inode(w, ino)->Ok_0), ctx, offset, data)
            &&& forall|l: int|
                offset / v.bs() <= l < blocks_for(offset + data.len(), v.bs()) ==> (#[trigger] block_contents(
                    v,
                    block_area_of(raw),
                    ctx,
                    l,
                )) is Ok
        }),
{
    lemma_written_same(v, ino, raw, ctx, offset, data, now);
    let w = committed(v, pwrite_stage(v, ino, raw, offset, data, now)->Ok_0.0);
    let root = block_area_of(checked_inode(w, ino)->Ok_0);
    assert forall|l: int|
        (#[trigger] block_contents(w, root, ctx, l)) == (match block_contents(v, block_area_of(raw), ctx, l) {
            Ok(b) => Ok::<Seq<u8>, Error>(overlaid(v.bs(), b, offset, data, l)),
            Err(e) => Err(e),
        }) by {
        lemma_block_overlaid(v, ino, raw, ctx, offset, data, now, l);
    }
    assert forall|l: int| offset / v.bs() <= l < blocks_for(offset + data.len(), v.bs()) implies (
    #[trigger] block_contents(v, block_area_of(raw), ctx, l)) is Ok by {
        lemma_block_overlaid(v, ino, raw, ctx, offset, data, now, l);
    }
}

/// Block `k` is in use, and by neither the file nor the metadata that growing
/// the file edits.
pub open spec fn stranger(v: Vol, ino: u32, area: Seq<u8>, k: int) -> bool {
    &&& !is_kept(v, ino, k)
    &&& bystander(v, fresh_stage(v), area, k)
    &&& forall|l: int| !(#[trigger] tree_maps(v.img, v.bs(), area, levels(area), l, k))
}

/// A positional write touches no block that is in use by anything else: one
/// that is neither a block of the file, nor a node of its tree, nor metadata
/// that growing the file edits, is as it was, and still is no such block.
#[verifier::rlimit(40)]
pub proof fn law_write_leaves_other_blocks(
    v: Vol,
    ino: u32,
    raw: Seq<u8>,
    ctx: Option<ExtentVerifyCtx>,
    offset: int,
    data: Seq<u8>,
    now: u32,
    k: int,
)
    requires
        in_good_order(v, ino, raw, ctx),
        0 <= offset,
        0 < data.len() <= chunk_limit(v.bs()),
        offset + data.len() <= u64::MAX,
        blocks_for(offset + data.len(), v.bs()) <= FILE_BLOCKS,
        pwrite_stage(v, ino, raw, offset, data, now) is Ok,
        stranger(v, ino, block_area_of(raw), k),
    ensures
        ({
            let w = committed(v, pwrite_stage(v, ino, raw, offset, data, now)->Ok_0.0);
            &&& block_at(w.img, v.bs(), k) == block_at(v.img, v.bs(), k)
            &&& stranger(w, ino, block_area_of(checked_inode(w, ino)->Ok_0), k)
        }),
{
    let bs = v.bs();
    let len = data.len() as int;
    let first = offset / bs;
    let last = blocks_for(offset + len, bs);
    let after = pwrite_stage(v, ino, raw, offset, data, now)->Ok_0.0;
    let w = committed(v, after);
    let area = block_area_of(raw);
    let a = start_of_write(v, raw, offset, len);
    lemma_written_same(v, ino, raw, ctx, offset, data, now);
    lemma_written_tables(v, ino, raw, ctx, offset, data, now);
    let g = grown(v, ino, raw, offset, len)->Ok_0;
    let d = levels(g.root);
    let st1 = spliced(v, g.st, g.root, g.fresh, offset, data, first, last)->Ok_0;
    assert(is_kept(v, ino, record_block(v, ino)) && is_kept(v, ino, super_block(v.sb)));
    lemma_spliced(v, g.st.img, g.st, g.root, g.fresh, offset, data, first, last);
    assert(bystander(v, a.st, area, k));
    assert forall|l: int| !(#[trigger] tree_maps(g.st.img, bs, g.root, d, l, k)) by {
        assert(!tree_maps(v.img, bs, area, levels(area), l, k));
    }
    assert forall|m: int| first <= m < last implies #[trigger] block_for(g.st.img, bs, g.root, m) != Ok::<
        Option<u64>,
        Error,
    >(Some(k as u64)) || k > u64::MAX by {
        lemma_block_for_found(g.st.img, bs, g.root, m);
    }
    assert(block_at(st1.img, bs, k) == block_at(g.st.img, bs, k));
    lemma_tree_same(g.st.img, after.img, bs, g.root, d);
    lemma_committed_same(v, ino, after);
    assert(in_use(committed(v, g.st), k));
    assert(bystander(w, fresh_stage(w), g.root, k));
    assert forall|l: int| !(#[trigger] tree_maps(w.img, bs, g.root, d, l, k)) by {
        assert(!tree_maps(g.st.img, bs, g.root, d, l, k));
    }
}

/// What the volume's tables say is the same after a commit.
proof fn lemma_committed_same(v: Vol, ino: u32, st: Stage)
    requires
        v.wf(),
        tables_apart(v),
        record_apart(v, ino),
    ensures
        tables_apart(committed(v, st)),
        record_apart(committed(v, st), ino),
        record_block(committed(v, st), ino) == record_block(v, ino),
        forall|k: int| #[trigger] is_table(committed(v, st), k) == is_table(v, k),
        forall|k: int| #[trigger] is_kept(committed(v, st), ino, k) == is_kept(v, ino, k),
        committed(committed(v, st), fresh_stage(committed(v, st))) == committed(v, st),
{
    let w = committed(v, st);
    lemma_published_len(v.groups, st.cleared);
    lemma_same_place(v, st, ino);
    assert forall|gi: int| 0 <= gi < v.groups.len() implies (#[trigger] w.groups[gi]).block_bitmap
        == v.groups[gi].block_bitmap by {
        lemma_published_keeps(v.groups, st.cleared, gi);
    }
    assert forall|k: int| #[trigger] is_table(w, k) == is_table(v, k) by {
        if is_table(v, k) {
            lemma_table_alike(v, w, k);
        }
        if is_table(w, k) {
            lemma_table_alike(w, v, k);
        }
    }
    assert forall|k: int| #[trigger] is_kept(w, ino, k) == is_kept(v, ino, k) by {
        assert(is_table(w, k) == is_table(v, k));
    }
}

proof fn lemma_table_alike(v: Vol, w: Vol, k: int)
    requires
        is_table(v, k),
        w.sb == v.sb,
        w.groups.len() == v.groups.len(),
        forall|gi: int|
            0 <= gi < v.groups.len() ==> (#[trigger] w.groups[gi]).block_bitmap == v.groups[gi].block_bitmap,
    ensures
        is_table(w, k),
{
    if exists|gi: int| 0 <= gi < v.groups.len() && k == (#[trigger] v.groups[gi]).block_bitmap {
        let gi = choose|gi: int| 0 <= gi < v.groups.len() && k == (#[trigger] v.groups[gi]).block_bitmap;
        assert(k == w.groups[gi].block_bitmap);
    }
}

/// Which blocks are in use, and the flags of the groups, are the same when the
/// write is done as they were when the file was grown.
proof fn lemma_written_tables(
    v: Vol,
    ino: u32,
    raw: Seq<u8>,
    ctx: Option<ExtentVerifyCtx>,
    offset: int,
    data: Seq<u8>,
    now: u32,
)
    requires
        in_good_order(v, ino, raw, ctx),
        0 <= offset,
        0 < data.len() <= chunk_limit(v.bs()),
        offset + data.len() <= u64::MAX,
        blocks_for(offset + data.len(), v.bs()) <= FILE_BLOCKS,
        pwrite_stage(v, ino, raw, offset, data, now) is Ok,
    ensures
        ({
            let w = committed(v, pwrite_stage(v, ino, raw, offset, data, now)->Ok_0.0);
            let g = grown(v, ino, raw, offset, data.len() as int)->Ok_0;
            &&& flags_agree(w)
            &&& forall|n: int| in_use(committed(v, g.st), n) ==> #[trigger] in_use(w, n)
        }),
{
    let bs = v.bs();
    let len = data.len() as int;
    let first = offset / bs;
    let last = blocks_for(offset + len, bs);
    let after = pwrite_stage(v, ino, raw, offset, data, now)->Ok_0.0;
    lemma_written_same(v, ino, raw, ctx, offset, data, now);
    let g = grown(v, ino, raw, offset, len)->Ok_0;
    let st1 = spliced(v, g.st, g.root, g.fresh, offset, data, first, last)->Ok_0;
    lemma_spliced(v, g.st.img, g.st, g.root, g.fresh, offset, data, first, last);
    assert forall|k: int|
        k >= 0 && is_kept(v, ino, k) && k != record_block(v, ino) && k != super_block(v.sb) implies #[trigger] block_at(
        after.img,
        bs,
        k,
    ) == block_at(g.st.img, bs, k) by {
        assert forall|m: int| first <= m < last implies #[trigger] block_for(g.st.img, bs, g.root, m) != Ok::<
            Option<u64>,
            Error,
        >(Some(k as u64)) || k > u64::MAX by {
            lemma_block_for_found(g.st.img, bs, g.root, m);
        }
        assert(block_at(st1.img, bs, k) == block_at(g.st.img, bs, k));
    }
    assert forall|gi: int| 0 <= gi < v.groups.len() implies block_at(after.img, bs, #[trigger] desc_block(v.sb, gi))
        == block_at(g.st.img, bs, desc_block(v.sb, gi)) by {
        let x = v.groups[gi];
        lemma_desc_place(v.sb, gi);
        assert(is_kept(v, ino, desc_block(v.sb, gi)));
    }
    assert forall|gi: int| 0 <= gi < v.groups.len() implies block_at(
        after.img,
        bs,
        (#[trigger] v.groups[gi]).block_bitmap as int,
    ) == block_at(g.st.img, bs, v.groups[gi].block_bitmap as int) by {
        assert(is_kept(v, ino, v.groups[gi].block_bitmap as int));
    }
    lemma_tables_same(v, g.st, after);
}

/// A positional write leaves the file, and the volume, in good order.
#[verifier::rlimit(40)]
pub proof fn law_write_keeps_good_order(
    v: Vol,
    ino: u32,
    raw: Seq<u8>,
    ctx: Option<ExtentVerifyCtx>,
    offset: int,
    data: Seq<u8>,
    now: u32,
)
    requires
        in_good_order(v, ino, raw, ctx),
        0 <= offset,
        0 < data.len() <= chunk_limit(v.bs()),
        offset + data.len() <= u64::MAX,
        blocks_for(offset + data.len(), v.bs()) <= FILE_BLOCKS,
        pwrite_stage(v, ino, raw, offset, data, now) is Ok,
    ensures
        ({
            let w = committed(v, pwrite_stage(v, ino, raw, offset, data, now)->Ok_0.0);
            &&& checked_inode(w, ino) is Ok
            &&& in_good_order(w, ino, checked_inode(w, ino)->Ok_0, ctx)
        }),
{
    let bs = v.bs();
    let len = data.len() as int;
    let after = pwrite_stage(v, ino, raw, offset, data, now)->Ok_0.0;
    let w = committed(v, after);
    lemma_written_same(v, ino, raw, ctx, offset, data, now);
    let g = grown(v, ino, raw, offset, len)->Ok_0;
    let d = levels(g.root);
    let c = committed(v, g.st);
    lemma_committed_wf(v, after);
    lemma_committed_same(v, ino, after);
    lemma_tree_same(g.st.img, after.img, bs, g.root, d);
    lemma_order_same(g.st.img, after.img, bs, g.root, d, 0, FILE_BLOCKS as int);
    lemma_written_tables(v, ino, raw, ctx, offset, data, now);
    assert(sound(w, ino, fresh_stage(w), g.root, ctx)) by {
        assert forall|k: int| #[trigger] is_kept(w, ino, k) implies in_use(w, k) by {
            assert(is_kept(v, ino, k));
            assert(in_use(c, k));
        }
        assert forall|l: int, p: int| #[trigger] tree_maps(w.img, bs, g.root, d, l, p) implies in_use(w, p)
            && !is_kept(w, ino, p) && !tree_node(w.img, bs, g.root, d, p) by {
            assert(tree_maps(g.st.img, bs, g.root, d, l, p));
            assert(in_use(c, p));
        }
        assert forall|k: int| #[trigger] tree_node(w.img, bs, g.root, d, k) implies in_use(w, k) && !is_kept(w, ino, k) by {
            assert(tree_node(g.st.img, bs, g.root, d, k));
            assert(in_use(c, k));
        }
        assert(trusted(w.img, bs, g.root, ctx)) by {
            assert forall|k: int| #[trigger] tree_node(w.img, bs, g.root, d, k) implies (block_at(w.img, bs, k) matches Ok(
                b,
            ) ==> node_ok(ctx, b)) by {
                assert(tree_node(g.st.img, bs, g.root, d, k));
            }
        }
    }
}

/// The block of the file's record, after the write: as it was, but for the
/// record.
pub(crate) proof fn lemma_record_block(
    v: Vol,
    ino: u32,
    raw: Seq<u8>,
    ctx: Option<ExtentVerifyCtx>,
    offset: int,
    data: Seq<u8>,
    now: u32,
)
    requires
        in_good_order(v, ino, raw, ctx),
        0 <= offset,
        0 < data.len() <= chunk_limit(v.bs()),
        offset + data.len() <= u64::MAX,
        blocks_for(offset + data.len(), v.bs()) <= FILE_BLOCKS,
        pwrite_stage(v, ino, raw, offset, data, now) is Ok,
    ensures
        ({
            let w = committed(v, pwrite_stage(v, ino, raw, offset, data, now)->Ok_0.0);
            let b = block_at(v.img, v.bs(), record_block(v, ino));
            let off = inode_place(v.sb, v.groups, ino)->Ok_0.1 as int;
            let out = checked_inode(w, ino)->Ok_0;
            &&& b is Ok
            &&& out.len() == v.sb.inode_size
            &&& off + out.len() <= b->Ok_0.len()
            &&& block_at(w.img, v.bs(), record_block(v, ino)) == Ok::<Seq<u8>, Error>(splice(b->Ok_0, off, out))
        }),
{
    let bs = v.bs();
    let len = data.len() as int;
    let first = offset / bs;
    let last = blocks_for(offset + len, bs);
    let (after, size) = pwrite_stage(v, ino, raw, offset, data, now)->Ok_0;
    let w = committed(v, after);
    let a = start_of_write(v, raw, offset, len);
    lemma_steps(v, ino, raw, offset, data, now);
    lemma_written_same(v, ino, raw, ctx, offset, data, now);
    let g = grown(v, ino, raw, offset, len)->Ok_0;
    let st1 = spliced(v, g.st, g.root, g.fresh, offset, data, first, last)->Ok_0;
    let sectors = (sectors_of(raw) + g.total * (bs / 512)) as u64;
    let raw2 = after_write(v, ino, generation_of(raw), with_block_area(raw, g.root), size, sectors, now);
    lemma_after_write(v, ino, raw, g.root, size, sectors, now);
    lemma_record_kept(v, ino, g, st1, raw2, after);
    let k = record_block(v, ino);
    assert(is_kept(v, ino, k));
    assert(!is_table(v, k));
    assert(!tree_node(v.img, bs, a.root, levels(a.root), k));
    assert(bystander(v, a.st, a.root, k));
    lemma_spliced(v, g.st.img, g.st, g.root, g.fresh, offset, data, first, last);
    assert forall|m: int| first <= m < last implies #[trigger] block_for(g.st.img, bs, g.root, m) != Ok::<
        Option<u64>,
        Error,
    >(Some(k as u64)) || k > u64::MAX by {
        lemma_block_for_found(g.st.img, bs, g.root, m);
    }
    assert(block_at(st1.img, bs, k) == block_at(v.img, bs, k));
    let off = inode_place(v.sb, v.groups, ino)->Ok_0.1 as int;
    let b = block_at(v.img, bs, k)->Ok_0;
    lemma_with_block(st1.img, bs, k, splice(b, off, raw2), k);
}

/// A write leaves the flags of the file's record as they were.
pub(crate) proof fn lemma_flags_kept(
    v: Vol,
    ino: u32,
    raw: Seq<u8>,
    ctx: Option<ExtentVerifyCtx>,
    offset: int,
    data: Seq<u8>,
    now: u32,
)
    requires
        in_good_order(v, ino, raw, ctx),
        0 <= offset,
        0 < data.len() <= chunk_limit(v.bs()),
        offset + data.len() <= u64::MAX,
        blocks_for(offset + data.len(), v.bs()) <= FILE_BLOCKS,
        pwrite_stage(v, ino, raw, offset, data, now) is Ok,
    ensures
        flags_of(checked_inode(committed(v, pwrite_stage(v, ino, raw, offset, data, now)->Ok_0.0), ino)->Ok_0)
            == flags_of(raw),
{
    lemma_written_same(v, ino, raw, ctx, offset, data, now);
}

} // verus!
