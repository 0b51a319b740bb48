//! What a pointer-mapped file holds once its contents are replaced.
use crate::allocator::{blocks_for, law_planned_run_within};
use crate::block_io::{block_at, lemma_with_block};
use crate::commit::committed;
use crate::content_laws::{
    in_use, law_block_in_use_is_not_planned, law_record_reads_back, lemma_after_write, lemma_counters_len, lemma_free_runs_len,
    lemma_mark_len, lemma_stage_data, lemma_totals_len, lemma_trusted, record_block,
};
use crate::contents::{data_block, stage_data};
use crate::error::Error;
use crate::file_mut::{runs_total, stage_free_runs};
use crate::fs::{checked_inode, file_block};
use crate::grow::{bitmaps_of, home_group, staged_plan};
use crate::indirect::{lemma_span, span};
use crate::indirect_mut::{
    child_pointer, clamp, file_writes, in_place, kid_writes, kids, law_pointers_map, lemma_kids, lemma_node_count,
    lemma_pointer_block, node_count, pointer_area, pointer_block, pointer_blocks, pointer_runs,
    replace_indirect_stage, replace_pointed_data, stage_writes, tree_data, tree_share, tree_size, tree_top,
    tree_writes,
};
use crate::inode::{flags_of, generation_of, inode_fault, mode_is_file, mode_of, size_of_file, FL_EXTENTS};
use crate::inode_edit::{after_write, with_block_area};
use crate::pwrite_laws::lemma_staged_plan;
use crate::stage::{stage_counters, stage_inode, stage_mark_blocks, stage_totals};
use crate::volume::{fresh_stage, Stage, Vol};
use vstd::prelude::*;

verus! {

broadcast use crate::bytes::group_fields;

/// A full tree has as many nodes as a tree of its level can.
proof fn lemma_full_tree(per: int, level: nat)
    requires
        0 < per <= 16384,
        level <= 3,
    ensures
        node_count(per, level, span(per, level)) == tree_size(per, level),
    decreases level,
{
    lemma_span(per);
    if level > 0 {
        let below = (level - 1) as nat;
        let part = span(per, below);
        let ts = tree_size(per, below);
        lemma_full_tree(per, below);
        lemma_kids(per, level, span(per, level));
        assert(span(per, level) == per * part);
        let k = kids(per, level, per * part);
        assert(k == per) by (nonlinear_arith)
            requires
                0 < per * part - (k - 1) * part <= part,
                part > 0,
        ;
        assert(per * part - (per - 1) * part == part) by (nonlinear_arith);
        assert(1 + (per - 1) * ts + ts == 1 + per * ts) by (nonlinear_arith);
    }
}

/// The nodes of a list follow each other from block `first` on.
spec fn numbered(writes: Seq<(u64, Seq<u8>)>, first: int, bs: int) -> bool {
    forall|x: int| 0 <= x < writes.len() ==> (#[trigger] writes[x]).0 == first + x && writes[x].1.len() == bs
}

proof fn lemma_numbered_join(a: Seq<(u64, Seq<u8>)>, b: Seq<(u64, Seq<u8>)>, first: int, bs: int)
    requires
        numbered(a, first, bs),
        numbered(b, first + a.len(), bs),
    ensures
        numbered(a + b, first, bs),
{
    let c = a + b;
    assert forall|x: int| 0 <= x < c.len() implies (#[trigger] c[x]).0 == first + x && c[x].1.len() == bs by {
        if x < a.len() {
            assert(c[x] == a[x]);
        } else {
            assert(c[x] == b[x - a.len()]);
        }
    }
}

/// The pointer blocks of a tree follow each other from its top on.
proof fn lemma_tree_numbered(bs: int, level: nat, n: int, data: int, meta: int)
    requires
        1024 <= bs <= 65536,
        bs % 4 == 0,
        1 <= level <= 3,
        n <= span(bs / 4, level),
        0 <= meta,
        meta + node_count(bs / 4, level, n) <= u64::MAX,
    ensures
        tree_writes(bs, level, n, data, meta).len() == node_count(bs / 4, level, n),
        numbered(tree_writes(bs, level, n, data, meta), meta, bs),
    decreases level, 1int, 0nat,
{
    let per = bs / 4;
    lemma_node_count(per, level, n);
    if n > 0 {
        lemma_kids(per, level, n);
        let k = kids(per, level, n) as nat;
        lemma_kids_numbered(bs, level, n, data, meta, k);
        lemma_pointer_block(bs, level, data, meta, k);
        let top = seq![(meta as u64, pointer_block(bs, level, data, meta, k))];
        assert(numbered(top, meta, bs)) by {
            assert(top[0].0 == meta);
        }
        lemma_numbered_join(top, kid_writes(bs, level, n, data, meta, k), meta, bs);
    }
}

/// How many pointer blocks are under the first `k` pointers of a top block.
spec fn under(per: int, level: nat, n: int, k: int) -> int {
    if level <= 1 || k <= 0 {
        0
    } else if k < kids(per, level, n) {
        k * tree_size(per, (level - 1) as nat)
    } else {
        node_count(per, level, n) - 1
    }
}

proof fn lemma_kids_numbered(bs: int, level: nat, n: int, data: int, meta: int, k: nat)
    requires
        1024 <= bs <= 65536,
        bs % 4 == 0,
        1 <= level <= 3,
        0 < n <= span(bs / 4, level),
        0 <= meta,
        meta + node_count(bs / 4, level, n) <= u64::MAX,
        k <= kids(bs / 4, level, n),
    ensures
        kid_writes(bs, level, n, data, meta, k).len() == under(bs / 4, level, n, k as int),
        numbered(kid_writes(bs, level, n, data, meta, k), meta + 1, bs),
        level == 1 ==> node_count(bs / 4, level, n) == 1,
    decreases level, 0int, k,
{
    let per = bs / 4;
    lemma_kids(per, level, n);
    lemma_node_count(per, level, n);
    let below = (level - 1) as nat;
    let all = kids(per, level, n);
    let part = span(per, below);
    let ts = tree_size(per, below);
    lemma_span(per);
    assert(node_count(per, level, n) == 1 + (all - 1) * ts + node_count(per, below, n - (all - 1) * part));
    if level == 1 {
        assert((all - 1) * ts == 0) by (nonlinear_arith)
            requires
                ts == 0,
        ;
    } else if k > 0 {
        let before = (k - 1) as nat;
        lemma_kids_numbered(bs, level, n, data, meta, before);
        let share = clamp(n - (k - 1) * part, part);
        let top = child_pointer(per, level, data, meta, k - 1);
        lemma_node_count(per, below, n - (all - 1) * part);
        assert((k - 1) * ts + ts == k * ts) by (nonlinear_arith);
        assert(0 <= (k - 1) * ts) by (nonlinear_arith)
            requires
                k >= 1,
                ts >= 0,
        ;
        if k < all {
            assert((k - 1 + 1) * part <= n);
            assert((k - 1) * part + part == k * part) by (nonlinear_arith);
            assert(share == part);
            lemma_full_tree(per, below);
            assert(k * ts <= (all - 1) * ts) by (nonlinear_arith)
                requires
                    k <= all - 1,
                    ts >= 0,
            ;
        } else {
            assert(share == n - (all - 1) * part);
        }
        assert(under(per, level, n, k - 1) == (k - 1) * ts) by {
            assert(0 * ts == 0) by (nonlinear_arith);
        }
        lemma_tree_numbered(bs, below, share, data + (k - 1) * part, top);
        lemma_numbered_join(
            kid_writes(bs, level, n, data, meta, before),
            tree_writes(bs, below, share, data + (k - 1) * part, top),
            meta + 1,
            bs,
        );
    }
}

/// The pointer blocks of a file follow each other.
proof fn lemma_file_numbered(bs: int, n: int, data: int, meta: int)
    requires
        1024 <= bs <= 65536,
        bs % 4 == 0,
        0 <= n,
        0 <= meta,
        meta + pointer_blocks(bs / 4, n) <= u64::MAX,
    ensures
        file_writes(bs, n, data, meta).len() == pointer_blocks(bs / 4, n),
        numbered(file_writes(bs, n, data, meta), meta, bs),
        pointer_blocks(bs / 4, n) >= 0,
{
    let per = bs / 4;
    lemma_span(per);
    lemma_node_count(per, 1, tree_share(per, 1, n));
    lemma_node_count(per, 2, tree_share(per, 2, n));
    lemma_node_count(per, 3, tree_share(per, 3, n));
    lemma_tree_numbered(bs, 1, tree_share(per, 1, n), tree_data(per, 1, data), tree_top(per, 1, n, meta));
    lemma_tree_numbered(bs, 2, tree_share(per, 2, n), tree_data(per, 2, data), tree_top(per, 2, n, meta));
    lemma_tree_numbered(bs, 3, tree_share(per, 3, n), tree_data(per, 3, data), tree_top(per, 3, n, meta));
    let w1 = tree_writes(bs, 1, tree_share(per, 1, n), tree_data(per, 1, data), tree_top(per, 1, n, meta));
    let w2 = tree_writes(bs, 2, tree_share(per, 2, n), tree_data(per, 2, data), tree_top(per, 2, n, meta));
    let w3 = tree_writes(bs, 3, tree_share(per, 3, n), tree_data(per, 3, data), tree_top(per, 3, n, meta));
    lemma_numbered_join(w1, w2, meta, bs);
    lemma_numbered_join(w1 + w2, w3, meta, bs);
}

/// Blocks written in a row stand in the image, and no other block changed.
proof fn lemma_writes_stand(v: Vol, st: Stage, writes: Seq<(u64, Seq<u8>)>, first: int)
    requires
        v.wf(),
        st.img.len() == v.img.len(),
        0 <= first,
        numbered(writes, first, v.bs()),
        stage_writes(v, st, writes) is Ok,
    ensures
        ({
            let after = stage_writes(v, st, writes)->Ok_0;
            &&& after.img.len() == st.img.len()
            &&& after.cleared == st.cleared
            &&& in_place(after.img, v.bs(), writes)
            &&& forall|k: int|
                k >= 0 && !(first <= k < first + writes.len()) ==> #[trigger] block_at(after.img, v.bs(), k)
                    == block_at(st.img, v.bs(), k)
        }),
    decreases writes.len(),
{
    if writes.len() > 0 {
        let shorter = writes.drop_last();
        assert forall|x: int| 0 <= x < shorter.len() implies (#[trigger] shorter[x]).0 == first + x && shorter[x].1.len()
            == v.bs() by {
            assert(shorter[x] == writes[x]);
        }
        lemma_writes_stand(v, st, shorter, first);
        let before = stage_writes(v, st, shorter)->Ok_0;
        let after = stage_writes(v, st, writes)->Ok_0;
        let (n, b) = writes.last();
        assert(writes[writes.len() - 1] == (n, b));
        assert forall|k: int| k >= 0 implies #[trigger] block_at(after.img, v.bs(), k) == (if k == n {
            Ok(b)
        } else {
            block_at(before.img, v.bs(), k)
        }) by {
            lemma_with_block(before.img, v.bs(), n as int, b, k);
        }
        assert forall|x: int| 0 <= x < writes.len() implies block_at(
            after.img,
            v.bs(),
            (#[trigger] writes[x]).0 as int,
        ) == Ok::<Seq<u8>, Error>(writes[x].1) by {
            if x < shorter.len() {
                assert(shorter[x] == writes[x]);
            }
        }
    }
}

/// Inode `ino` is a file of as many bytes as `data`, and each of its blocks is
/// found and holds its part of `data`, padded with zeros.
pub open spec fn holds_blocks(v: Vol, ino: u32, data: Seq<u8>) -> bool {
    &&& checked_inode(v, ino) matches Ok(raw)
    &&& mode_is_file(mode_of(raw))
    &&& size_of_file(raw) == data.len()
    &&& forall|l: int|
        0 <= l < blocks_for(data.len() as int, v.bs()) ==> holds_block(v, #[trigger] file_block(v, raw, l), l, data)
}

/// A file block is at a block that holds block `l` of `data`.
pub open spec fn holds_block(v: Vol, at: crate::error::Result<Option<u64>>, l: int, data: Seq<u8>) -> bool {
    &&& at matches Ok(Some(p))
    &&& v.block(p as int) == Ok::<Seq<u8>, Error>(data_block(data, l, v.bs()))
}

proof fn lemma_pointed(v: Vol, st: Stage, ino: u32, raw: Seq<u8>, data: Seq<u8>, freed: int, now: u32)
    requires
        v.wf(),
        st.img.len() == v.img.len(),
        raw.len() == v.sb.inode_size,
        inode_fault(raw) is None,
        mode_is_file(mode_of(raw)),
        flags_of(raw) & FL_EXTENTS == 0,
        0 < data.len() <= u64::MAX,
        in_use(committed(v, st), record_block(v, ino)),
        in_use(committed(v, st), 0),
        replace_pointed_data(v, st, ino, raw, data, freed, now) is Ok,
    ensures
        ({
            let (after, n) = replace_pointed_data(v, st, ino, raw, data, freed, now)->Ok_0;
            n == data.len() && holds_blocks(committed(v, after), ino, data)
        }),
{
    let bs = v.bs();
    let per = bs / 4;
    let n = blocks_for(data.len() as int, bs);
    crate::content_laws::lemma_blocks_reach(data.len() as int, bs, 0);
    let meta = pointer_blocks(per, n);
    let hint = home_group(v, ino);
    let plan = staged_plan(v, st, (n + meta) as u32, hint)->Ok_0;
    let first = plan.first_block as int;
    lemma_file_numbered(bs, n, first + meta, first);
    let w0 = committed(v, st);
    crate::commit::lemma_published_len(v.groups, st.cleared);
    lemma_staged_plan(v, st, (n + meta) as u32, hint);
    law_planned_run_within(w0.sb, w0.groups, (n + meta) as u32, hint, Seq::empty(), bitmaps_of(w0));
    law_block_in_use_is_not_planned(w0, (n + meta) as u32, hint, Seq::empty(), record_block(v, ino));
    law_block_in_use_is_not_planned(w0, (n + meta) as u32, hint, Seq::empty(), 0);
    lemma_mark_len(v, st, plan.first_block, n + meta);
    let st1 = stage_mark_blocks(v, st, plan.first_block, n + meta)->Ok_0;
    lemma_counters_len(
        v,
        st1,
        plan.bgd.group_idx as int,
        plan.bgd.free_blocks_delta as int,
        plan.bgd.free_inodes_delta as int,
        plan.bgd.used_dirs_delta as int,
    );
    let st2 = stage_counters(
        v,
        st1,
        plan.bgd.group_idx as int,
        plan.bgd.free_blocks_delta as int,
        plan.bgd.free_inodes_delta as int,
        plan.bgd.used_dirs_delta as int,
    )->Ok_0;
    lemma_totals_len(v, st2, freed - (n + meta), 0);
    let st3 = stage_totals(v, st2, freed - (n + meta), 0)->Ok_0;
    let st4 = stage_data(v, st3, (first + meta) as u64, data, n as nat)->Ok_0;
    let writes = file_writes(bs, n, first + meta, first);
    let st5 = stage_writes(v, st4, writes)->Ok_0;
    lemma_stage_data(v, st3, (first + meta) as u64, data, n as nat, 0);
    lemma_writes_stand(v, st4, writes, first);
    let area = pointer_area(bs, n, first + meta, first);
    let sectors = ((n + meta) * (bs / 512)) as u64;
    let raw2 = after_write(
        v,
        ino,
        generation_of(raw),
        with_block_area(raw, area),
        data.len() as u64,
        sectors,
        now,
    );
    crate::indirect_mut::lemma_direct_pointers(first + meta, clamp(n, 12) as nat);
    lemma_after_write(v, ino, raw, area, data.len() as u64, sectors, now);
    let after = stage_inode(v, st5, ino, raw2)->Ok_0;
    let w = committed(v, after);
    law_record_reads_back(v, st5, ino, raw2, 0);
    lemma_trusted(w, ino, raw2);
    assert(in_place(w.img, bs, writes)) by {
        assert forall|x: int| 0 <= x < writes.len() implies block_at(w.img, bs, (#[trigger] writes[x]).0 as int) == Ok::<
            Seq<u8>,
            Error,
        >(writes[x].1) by {
            law_record_reads_back(v, st5, ino, raw2, writes[x].0 as int);
        }
    }
    assert forall|l: int| 0 <= l < n implies holds_block(w, #[trigger] file_block(w, raw2, l), l, data) by {
        assert(first > 0);
        law_pointers_map(w.img, bs, n, first + meta, first, l);
        lemma_stage_data(v, st3, (first + meta) as u64, data, n as nat, first + meta + l);
        law_record_reads_back(v, st5, ino, raw2, first + meta + l);
    }
}

/// A pointer-mapped file whose contents were replaced holds the new contents:
/// each block is found, and has its part of them. The file's record and block 0
/// are in use, and stay so when the file's own blocks are released.
pub proof fn law_replaced_pointer_contents_stand(v: Vol, ino: u32, raw: Seq<u8>, data: Seq<u8>, now: u32)
    requires
        v.wf(),
        checked_inode(v, ino) == Ok::<Seq<u8>, Error>(raw),
        mode_is_file(mode_of(raw)),
        flags_of(raw) & FL_EXTENTS == 0,
        0 < data.len() <= u64::MAX,
        replace_indirect_stage(v, ino, raw, data, now) is Ok,
        in_use(
            committed(v, stage_free_runs(v, fresh_stage(v), pointer_runs(v, raw)->Ok_0)->Ok_0),
            record_block(v, ino),
        ),
        in_use(committed(v, stage_free_runs(v, fresh_stage(v), pointer_runs(v, raw)->Ok_0)->Ok_0), 0),
    ensures
        ({
            let (after, n) = replace_indirect_stage(v, ino, raw, data, now)->Ok_0;
            n == data.len() && holds_blocks(committed(v, after), ino, data)
        }),
{
    let runs = pointer_runs(v, raw)->Ok_0;
    let st1 = stage_free_runs(v, fresh_stage(v), runs)->Ok_0;
    lemma_free_runs_len(v, fresh_stage(v), runs);
    lemma_pointed(v, st1, ino, raw, data, runs_total(runs), now);
}

} // verus!
