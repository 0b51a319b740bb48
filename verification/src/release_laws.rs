//! What is given back when inodes and runs of blocks are released.
use crate::allocator::group_first_block;
use crate::bitmap::{bit_set, lemma_with_bit, lemma_with_bits, with_bit, with_bits};
use crate::block_io::block_at;
use crate::books::{
    books, books_apart, lemma_books_same, lemma_counters_booked, lemma_free_blocks_booked,
    lemma_free_inode_booked, lemma_totals_booked,
};
use crate::bytes::le32;
use crate::commit::committed;
use crate::content_laws::{law_record_reads_back, lemma_same_place, record_block};
use crate::dirops::{dir_blocks, find_entry, stage_remove_from};
use crate::error::Error;
use crate::extent::{all_extents, children_extents, extents_in, extents_of, header_at, Extent};
use crate::file_mut::{freed_above, runs_total, stage_free_runs};
use crate::frame_laws::{framed, is_meta};
use crate::fs::{checked_inode, file_block, raw_inode};
use crate::grow::home_group;
use crate::indirect::{follow, indirect_block_for, pointer, span};
use crate::indirect_mut::{clamp, gathered, held, held_by, held_direct, held_in, most_blocks, with_next};
use crate::inode::{
    block_area_of, flags_of, generation_of, links_of, mode_is_file, mode_of, size_of_file, FL_EXTENTS,
    FL_INLINE_DATA,
};
use crate::inode_edit::dead_inode;
use crate::link_laws::relinked_record;
use crate::names::{dir_runs, file_runs, rmdir_stage, stage_reap, tree_runs, unlink_stage};
use crate::pwrite_laws::levels;
use crate::remove_laws::lemma_dead_len;
use crate::rename::names_in;
use crate::stage::{
    bit_of_inode, group_of_block, group_of_inode, stage_counters, stage_free_blocks, stage_free_inode,
    stage_inode, stage_totals,
};
use crate::tree_laws::{child_at, leaf_maps, tree_maps};
use crate::undo_laws::lemma_removal_booked;
use crate::volume::{fresh_stage, Stage, Vol};
use vstd::prelude::*;

verus! {

broadcast use crate::bytes::group_fields;

// -- what is free -----------------------------------------------------------

/// On the image `img`, the bitmap of block `b`'s group has block `b` free.
pub open spec fn block_is_free(v: Vol, img: Seq<u8>, b: int) -> bool {
    let n = b - v.sb.first_data_block;
    let per = v.sb.blocks_per_group as int;
    match block_at(img, v.bs(), v.groups[n / per].block_bitmap as int) {
        Err(_) => false,
        Ok(bits) => !bit_set(bits, n % per),
    }
}

/// On the image `img`, the bitmap of inode `ino`'s group has inode `ino` free.
pub open spec fn inode_is_free(v: Vol, img: Seq<u8>, ino: u32) -> bool {
    let per = v.sb.inodes_per_group as int;
    match block_at(img, v.bs(), v.groups[(ino - 1) / per].inode_bitmap as int) {
        Err(_) => false,
        Ok(bits) => !bit_set(bits, (ino - 1) % per),
    }
}

/// Every block of some runs is free, as far as a run lies in the group that it
/// starts in.
pub open spec fn runs_are_free(v: Vol, img: Seq<u8>, runs: Seq<(u64, u32)>) -> bool {
    forall|i: int, b: int|
        0 <= i < runs.len() && (#[trigger] runs[i]).0 <= b < runs[i].0 + runs[i].1 && (b - v.sb.first_data_block)
            / v.sb.blocks_per_group as int == (runs[i].0 - v.sb.first_data_block) / v.sb.blocks_per_group as int
            ==> #[trigger] block_is_free(v, img, b)
}

/// No bit is set in one bitmap that is not set in the other.
pub open spec fn no_more_set(a: crate::error::Result<Seq<u8>>, b: crate::error::Result<Seq<u8>>) -> bool {
    a is Ok ==> b is Ok && b->Ok_0.len() == a->Ok_0.len() && forall|j: int| #[trigger]
        bit_set(b->Ok_0, j) ==> bit_set(a->Ok_0, j)
}

/// Nothing is in use on the image `b` that is not in use on `a`.
pub open spec fn no_more_used(v: Vol, a: Seq<u8>, b: Seq<u8>) -> bool {
    forall|gi: int|
        0 <= gi < v.groups.len() ==> no_more_set(
            block_at(a, v.bs(), (#[trigger] v.groups[gi]).block_bitmap as int),
            block_at(b, v.bs(), v.groups[gi].block_bitmap as int),
        ) && no_more_set(
            block_at(a, v.bs(), v.groups[gi].inode_bitmap as int),
            block_at(b, v.bs(), v.groups[gi].inode_bitmap as int),
        )
}

pub(crate) proof fn lemma_used_on(v: Vol, a: Seq<u8>, b: Seq<u8>, c: Seq<u8>)
    requires
        no_more_used(v, a, b),
        no_more_used(v, b, c),
    ensures
        no_more_used(v, a, c),
{
    assert forall|gi: int| 0 <= gi < v.groups.len() implies no_more_set(
        block_at(a, v.bs(), (#[trigger] v.groups[gi]).block_bitmap as int),
        block_at(c, v.bs(), v.groups[gi].block_bitmap as int),
    ) && no_more_set(
        block_at(a, v.bs(), v.groups[gi].inode_bitmap as int),
        block_at(c, v.bs(), v.groups[gi].inode_bitmap as int),
    ) by {
        lemma_set_on(
            block_at(a, v.bs(), v.groups[gi].block_bitmap as int),
            block_at(b, v.bs(), v.groups[gi].block_bitmap as int),
            block_at(c, v.bs(), v.groups[gi].block_bitmap as int),
        );
        lemma_set_on(
            block_at(a, v.bs(), v.groups[gi].inode_bitmap as int),
            block_at(b, v.bs(), v.groups[gi].inode_bitmap as int),
            block_at(c, v.bs(), v.groups[gi].inode_bitmap as int),
        );
    }
}

proof fn lemma_set_on(
    a: crate::error::Result<Seq<u8>>,
    b: crate::error::Result<Seq<u8>>,
    c: crate::error::Result<Seq<u8>>,
)
    requires
        no_more_set(a, b),
        no_more_set(b, c),
    ensures
        no_more_set(a, c),
{
    if a is Ok {
        assert forall|j: int| #[trigger] bit_set(c->Ok_0, j) implies bit_set(a->Ok_0, j) by {
            assert(bit_set(b->Ok_0, j));
        }
    }
}

/// What is free stays free while nothing more is in use.
pub(crate) proof fn lemma_stays_free(v: Vol, a: Seq<u8>, b: Seq<u8>)
    requires
        v.wf(),
        no_more_used(v, a, b),
    ensures
        forall|x: int|
            0 <= x - v.sb.first_data_block && (x - v.sb.first_data_block) / (v.sb.blocks_per_group as int) < v.groups.len() && block_is_free(v, a, x) ==> #[trigger] block_is_free(v, b, x),
        forall|ino: u32|
            group_of_inode(v, ino) is Some && inode_is_free(v, a, ino) ==> #[trigger] inode_is_free(v, b, ino),
{
    assert forall|x: int|
        0 <= x - v.sb.first_data_block && (x - v.sb.first_data_block) / (v.sb.blocks_per_group as int) < v.groups.len()
            && block_is_free(v, a, x) implies #[trigger] block_is_free(v, b, x) by {
        let per = v.sb.blocks_per_group as int;
        let gi = (x - v.sb.first_data_block) / per;
        vstd::arithmetic::div_mod::lemma_div_pos_is_pos(x - v.sb.first_data_block, per);
        assert(no_more_set(
            block_at(a, v.bs(), v.groups[gi].block_bitmap as int),
            block_at(b, v.bs(), v.groups[gi].block_bitmap as int),
        ));
    }
    assert forall|ino: u32| group_of_inode(v, ino) is Some && inode_is_free(v, a, ino) implies #[trigger] inode_is_free(
        v,
        b,
        ino,
    ) by {
        let per = v.sb.inodes_per_group as int;
        vstd::arithmetic::div_mod::lemma_div_pos_is_pos(ino - 1, per);
        let g = v.groups[(ino - 1) / per];
    }
}

/// The runs of an image whose starts lie in groups of the volume.
pub open spec fn runs_grouped(v: Vol, runs: Seq<(u64, u32)>) -> bool {
    forall|i: int| 0 <= i < runs.len() ==> group_of_block(v, (#[trigger] runs[i]).0) is Some
}

pub(crate) proof fn lemma_runs_stay_free(v: Vol, a: Seq<u8>, b: Seq<u8>, runs: Seq<(u64, u32)>)
    requires
        v.wf(),
        no_more_used(v, a, b),
        runs_grouped(v, runs),
        runs_are_free(v, a, runs),
    ensures
        runs_are_free(v, b, runs),
{
    lemma_stays_free(v, a, b);
    assert forall|i: int, x: int|
        0 <= i < runs.len() && (#[trigger] runs[i]).0 <= x < runs[i].0 + runs[i].1 && (x - v.sb.first_data_block)
            / v.sb.blocks_per_group as int == (runs[i].0 - v.sb.first_data_block)
            / v.sb.blocks_per_group as int implies #[trigger] block_is_free(v, b, x) by {
        assert(group_of_block(v, runs[i].0) is Some);
        assert(block_is_free(v, a, x));
    }
}

// -- releasing --------------------------------------------------------------

/// A run that is released is free, and nothing more is in use.
proof fn lemma_run_released(v: Vol, st: Stage, start: u64, len: u32)
    requires
        v.wf(),
        books_apart(v),
        stage_free_blocks(v, st, start, len as int) is Ok,
    ensures
        group_of_block(v, start) is Some,
        no_more_used(v, st.img, stage_free_blocks(v, st, start, len as int)->Ok_0.img),
        runs_are_free(v, stage_free_blocks(v, st, start, len as int)->Ok_0.img, seq![(start, len)]),
{
    let after = stage_free_blocks(v, st, start, len as int)->Ok_0;
    let gi = group_of_block(v, start)->Some_0;
    let per = v.sb.blocks_per_group as int;
    let n = start - v.sb.first_data_block;
    let bit = start - group_first_block(v.sb, gi);
    lemma_free_blocks_booked(v, st, start, len as int);
    reveal(books);
    let was = books(v, st.img);
    let is = books(v, after.img);
    vstd::arithmetic::div_mod::lemma_div_pos_is_pos(n, per);
    vstd::arithmetic::div_mod::lemma_fundamental_div_mod(n, per);
    vstd::arithmetic::mul::lemma_mul_is_commutative(gi, per);
    let old = was.block_bits[gi]->Ok_0;
    let new = with_bits(old, bit, len as nat, false);
    lemma_with_bits(old, bit, len as nat, false);
    assert(is.block_bits[gi] == Ok::<Seq<u8>, Error>(new));
    assert forall|gj: int| 0 <= gj < v.groups.len() implies no_more_set(
        block_at(st.img, v.bs(), (#[trigger] v.groups[gj]).block_bitmap as int),
        block_at(after.img, v.bs(), v.groups[gj].block_bitmap as int),
    ) && no_more_set(
        block_at(st.img, v.bs(), v.groups[gj].inode_bitmap as int),
        block_at(after.img, v.bs(), v.groups[gj].inode_bitmap as int),
    ) by {
        assert(is.block_bits[gj] == block_at(after.img, v.bs(), v.groups[gj].block_bitmap as int));
        assert(is.inode_bits[gj] == block_at(after.img, v.bs(), v.groups[gj].inode_bitmap as int));
        assert(was.block_bits[gj] == block_at(st.img, v.bs(), v.groups[gj].block_bitmap as int));
        assert(was.inode_bits[gj] == block_at(st.img, v.bs(), v.groups[gj].inode_bitmap as int));
        if gj == gi {
            assert forall|j: int| #[trigger] bit_set(new, j) implies bit_set(old, j) by {
            }
        }
    }
    let runs = seq![(start, len)];
    assert forall|i: int, b: int|
        0 <= i < runs.len() && (#[trigger] runs[i]).0 <= b < runs[i].0 + runs[i].1 && (b - v.sb.first_data_block) / per
            == (runs[i].0 - v.sb.first_data_block) / per implies #[trigger] block_is_free(v, after.img, b) by {
        assert(runs[0] == (start, len));
        vstd::arithmetic::div_mod::lemma_fundamental_div_mod(b - v.sb.first_data_block, per);
        let j = (b - v.sb.first_data_block) % per;
        assert(j == b - group_first_block(v.sb, gi));
        assert(is.block_bits[gi] == block_at(after.img, v.bs(), v.groups[gi].block_bitmap as int));
        assert(bit <= j < bit + len);
        if bit_set(new, j) {
            assert(0 <= j < 8 * old.len());
        }
    }
}

/// Runs that are released are free, and nothing more is in use.
pub(crate) proof fn lemma_runs_released(v: Vol, st: Stage, runs: Seq<(u64, u32)>)
    requires
        v.wf(),
        books_apart(v),
        stage_free_runs(v, st, runs) is Ok,
    ensures
        runs_grouped(v, runs),
        no_more_used(v, st.img, stage_free_runs(v, st, runs)->Ok_0.img),
        runs_are_free(v, stage_free_runs(v, st, runs)->Ok_0.img, runs),
    decreases runs.len(),
{
    let after = stage_free_runs(v, st, runs)->Ok_0;
    if runs.len() > 0 {
        let front = runs.drop_last();
        let mid = stage_free_runs(v, st, front)->Ok_0;
        let (start, len) = runs.last();
        lemma_runs_released(v, st, front);
        lemma_run_released(v, mid, start, len);
        lemma_used_on(v, st.img, mid.img, after.img);
        lemma_runs_stay_free(v, mid.img, after.img, front);
        assert forall|i: int| 0 <= i < runs.len() implies group_of_block(v, (#[trigger] runs[i]).0) is Some by {
            if i < front.len() {
                assert(front[i] == runs[i]);
            }
        }
        assert forall|i: int, b: int|
            0 <= i < runs.len() && (#[trigger] runs[i]).0 <= b < runs[i].0 + runs[i].1 && (b - v.sb.first_data_block)
                / v.sb.blocks_per_group as int == (runs[i].0 - v.sb.first_data_block)
                / v.sb.blocks_per_group as int implies #[trigger] block_is_free(v, after.img, b) by {
            if i < front.len() {
                assert(front[i] == runs[i]);
            } else {
                assert(seq![(start, len)][0] == runs[i]);
            }
        }
    }
}

/// An inode that is released is free, and nothing more is in use.
pub(crate) proof fn lemma_inode_released(v: Vol, st: Stage, ino: u32)
    requires
        v.wf(),
        books_apart(v),
        stage_free_inode(v, st, ino) is Ok,
    ensures
        group_of_inode(v, ino) is Some,
        no_more_used(v, st.img, stage_free_inode(v, st, ino)->Ok_0.img),
        inode_is_free(v, stage_free_inode(v, st, ino)->Ok_0.img, ino),
{
    let after = stage_free_inode(v, st, ino)->Ok_0;
    let gi = group_of_inode(v, ino)->Some_0;
    let bit = bit_of_inode(v, ino);
    lemma_free_inode_booked(v, st, ino);
    reveal(books);
    let was = books(v, st.img);
    let is = books(v, after.img);
    vstd::arithmetic::div_mod::lemma_div_pos_is_pos(ino - 1, v.sb.inodes_per_group as int);
    let old = was.inode_bits[gi]->Ok_0;
    let new = with_bit(old, bit, false);
    lemma_with_bit(old, bit, false);
    assert(is.inode_bits[gi] == Ok::<Seq<u8>, Error>(new));
    assert forall|gj: int| 0 <= gj < v.groups.len() implies no_more_set(
        block_at(st.img, v.bs(), (#[trigger] v.groups[gj]).block_bitmap as int),
        block_at(after.img, v.bs(), v.groups[gj].block_bitmap as int),
    ) && no_more_set(
        block_at(st.img, v.bs(), v.groups[gj].inode_bitmap as int),
        block_at(after.img, v.bs(), v.groups[gj].inode_bitmap as int),
    ) by {
        assert(is.block_bits[gj] == block_at(after.img, v.bs(), v.groups[gj].block_bitmap as int));
        assert(is.inode_bits[gj] == block_at(after.img, v.bs(), v.groups[gj].inode_bitmap as int));
        assert(was.block_bits[gj] == block_at(st.img, v.bs(), v.groups[gj].block_bitmap as int));
        assert(was.inode_bits[gj] == block_at(st.img, v.bs(), v.groups[gj].inode_bitmap as int));
    }
    if bit_set(new, bit) {
        assert(0 <= bit < 8 * old.len());
    }
}

/// Where the bookkeeping stays, so does what is in use.
pub(crate) proof fn lemma_same_used(v: Vol, a: Seq<u8>, b: Seq<u8>)
    requires
        books(v, b).block_bits == books(v, a).block_bits,
        books(v, b).inode_bits == books(v, a).inode_bits,
    ensures
        no_more_used(v, a, b),
{
    reveal(books);
    assert forall|gj: int| 0 <= gj < v.groups.len() implies no_more_set(
        block_at(a, v.bs(), (#[trigger] v.groups[gj]).block_bitmap as int),
        block_at(b, v.bs(), v.groups[gj].block_bitmap as int),
    ) && no_more_set(
        block_at(a, v.bs(), v.groups[gj].inode_bitmap as int),
        block_at(b, v.bs(), v.groups[gj].inode_bitmap as int),
    ) by {
        assert(books(v, b).block_bits[gj] == block_at(b, v.bs(), v.groups[gj].block_bitmap as int));
        assert(books(v, b).inode_bits[gj] == block_at(b, v.bs(), v.groups[gj].inode_bitmap as int));
        assert(books(v, a).block_bits[gj] == block_at(a, v.bs(), v.groups[gj].block_bitmap as int));
        assert(books(v, a).inode_bits[gj] == block_at(a, v.bs(), v.groups[gj].inode_bitmap as int));
    }
}

/// A record outside the bookkeeping changes nothing of what is in use.
pub(crate) proof fn lemma_record_uses(v: Vol, st: Stage, ino: u32, rec: Seq<u8>)
    requires
        v.wf(),
        rec.len() == v.sb.inode_size,
        !is_meta(v, record_block(v, ino)),
        stage_inode(v, st, ino, rec) is Ok,
    ensures
        no_more_used(v, st.img, stage_inode(v, st, ino, rec)->Ok_0.img),
{
    let after = stage_inode(v, st, ino, rec)->Ok_0;
    assert forall|k: int| k >= 0 && is_meta(v, k) implies #[trigger] block_at(after.img, v.bs(), k) == block_at(
        st.img,
        v.bs(),
        k,
    ) by {
        law_record_reads_back(v, st, ino, rec, k);
    }
    lemma_books_same(v, st.img, after.img);
    lemma_same_used(v, st.img, after.img);
}

/// A record outside the bookkeeping stays while that is edited.
pub(crate) proof fn lemma_record_framed(v: Vol, a: Stage, b: Stage, d: u32)
    requires
        v.wf(),
        framed(v, a, b),
        inode_place_known(v, d),
        !is_meta(v, record_block(v, d)),
    ensures
        raw_inode(committed(v, b), d) == raw_inode(committed(v, a), d),
{
    lemma_same_place(v, a, d);
    lemma_same_place(v, b, d);
}

/// Inode `d` has a place on the volume.
pub open spec fn inode_place_known(v: Vol, d: u32) -> bool {
    crate::bgd::inode_place(v.sb, v.groups, d) is Ok
}

// -- what the runs of a file hold -------------------------------------------

/// Device block `p` is in one of some runs.
pub open spec fn in_runs(runs: Seq<(u64, u32)>, p: int) -> bool {
    exists|i: int| 0 <= i < runs.len() && (#[trigger] runs[i]).0 <= p < runs[i].0 + runs[i].1
}

/// The runs of a file hold every block of it: each that its tree leads to,
/// written or only preallocated, or each that its pointers lead to. The tree is
/// one that can be made out.
pub proof fn law_file_runs_hold_its_blocks(v: Vol, raw: Seq<u8>, l: int, p: int)
    requires
        v.wf(),
        file_runs(v, raw) is Ok,
        if flags_of(raw) & FL_EXTENTS != 0 {
            &&& extents_of(v.img, v.bs(), block_area_of(raw)) is Ok
            &&& extents_of(v.img, v.bs(), block_area_of(raw))->Ok_0.len() <= 0xFFFF_FFFF
            &&& tree_maps(v.img, v.bs(), block_area_of(raw), levels(block_area_of(raw)), l, p)
        } else {
            &&& flags_of(raw) & FL_INLINE_DATA == 0
            &&& mode_is_file(mode_of(raw))
            &&& l >= 0
            &&& file_block(v, raw, l) == Ok::<Option<u64>, Error>(Some(p as u64))
            &&& 0 <= p <= u64::MAX
        },
    ensures
        in_runs(file_runs(v, raw)->Ok_0, p),
{
    let area = block_area_of(raw);
    let runs = file_runs(v, raw)->Ok_0;
    if flags_of(raw) & FL_EXTENTS != 0 {
        if size_of_file(raw) == 0 {
            law_tree_runs_hold_its_blocks(v, raw, l, p);
        } else {
            let n = header_at(area).entries as nat;
            let all = extents_in(area, n);
            assert(leaf_maps(area, l, p));
            let i = choose|i: int| 0 <= i < n && (#[trigger] extents_in(area, n)[i]).covers(l) && extents_in(area, n)[i].place(l) == p;
            assert(crate::allocator::blocks_for(0, v.bs()) == 0) by {
                vstd::arithmetic::div_mod::lemma_basic_div(v.bs() - 1, v.bs());
            }
            lemma_all_freed(all, i, p);
        }
    } else {
        let per = v.bs() / 4;
        let most = most_blocks(per);
        let h = held_by(v.img, v.bs(), area, most)->Ok_0;
        crate::indirect::lemma_span(per);
        lemma_pointed(v.img, v.bs(), area, l, p as u64);
        let data = gathered(Seq::empty(), h.data);
        let k = choose|k: int| 0 <= k < h.data.len() && h.data[k] == p as u64;
        lemma_gathered(Seq::empty(), h.data, p, k);
        lemma_gathered(data, h.meta, p, -1);
    }
}

/// The runs of a tree hold every block that it leads to.
pub proof fn law_tree_runs_hold_its_blocks(v: Vol, raw: Seq<u8>, l: int, p: int)
    requires
        tree_runs(v, raw) is Ok,
        tree_maps(v.img, v.bs(), block_area_of(raw), levels(block_area_of(raw)), l, p),
    ensures
        in_runs(tree_runs(v, raw)->Ok_0, p),
{
    let area = block_area_of(raw);
    let all = extents_of(v.img, v.bs(), area)->Ok_0;
    lemma_tree_collected(v.img, v.bs(), area, levels(area), l, p);
    let i = choose|i: int| 0 <= i < all.len() && (#[trigger] all[i]).covers(l) && all[i].place(l) == p;
    let runs = tree_runs(v, raw)->Ok_0;
    assert(runs[i] == (all[i].physical_block, all[i].length as u32));
}

/// What a tree leads to is among the extents collected from it.
proof fn lemma_tree_collected(img: Seq<u8>, bs: int, node: Seq<u8>, depth: nat, l: int, p: int)
    requires
        all_extents(img, bs, node, depth) is Ok,
        tree_maps(img, bs, node, depth, l, p),
    ensures
        exists|i: int|
            0 <= i < all_extents(img, bs, node, depth)->Ok_0.len() && (#[trigger] all_extents(img, bs, node, depth)->Ok_0[i]).covers(
                l,
            ) && all_extents(img, bs, node, depth)->Ok_0[i].place(l) == p,
    decreases depth, 0x1_0000int,
{
    if depth > 0 {
        let i = choose|i: int|
            0 <= i < header_at(node).entries && (#[trigger] child_at(img, bs, node, depth, i)) is Ok && tree_maps(
                img,
                bs,
                child_at(img, bs, node, depth, i)->Ok_0,
                (depth - 1) as nat,
                l,
                p,
            );
        lemma_children_collected(img, bs, node, depth, header_at(node).entries as nat, i, l, p);
    } else {
        let n = header_at(node).entries;
        let i = choose|i: int|
            0 <= i < n && (#[trigger] extents_in(node, n as nat)[i]).covers(l) && extents_in(node, n as nat)[i].place(l) == p;
        assert(all_extents(img, bs, node, depth)->Ok_0[i].covers(l));
    }
}

proof fn lemma_children_collected(img: Seq<u8>, bs: int, node: Seq<u8>, depth: nat, n: nat, i: int, l: int, p: int)
    requires
        depth > 0,
        0 <= i < n,
        children_extents(img, bs, node, depth, n) is Ok,
        child_at(img, bs, node, depth, i) is Ok,
        tree_maps(img, bs, child_at(img, bs, node, depth, i)->Ok_0, (depth - 1) as nat, l, p),
    ensures
        exists|j: int|
            0 <= j < children_extents(img, bs, node, depth, n)->Ok_0.len() && (#[trigger] children_extents(
                img,
                bs,
                node,
                depth,
                n,
            )->Ok_0[j]).covers(l) && children_extents(img, bs, node, depth, n)->Ok_0[j].place(l) == p,
    decreases depth, n,
{
    let all = children_extents(img, bs, node, depth, n)->Ok_0;
    let before = children_extents(img, bs, node, depth, (n - 1) as nat)->Ok_0;
    let child = child_at(img, bs, node, depth, n - 1)->Ok_0;
    let these = all_extents(img, bs, child, (depth - 1) as nat)->Ok_0;
    if i < n - 1 {
        lemma_children_collected(img, bs, node, depth, (n - 1) as nat, i, l, p);
        let j = choose|j: int| 0 <= j < before.len() && (#[trigger] before[j]).covers(l) && before[j].place(l) == p;
        assert(all[j] == before[j]);
    } else {
        lemma_tree_collected(img, bs, child, (depth - 1) as nat, l, p);
        let j = choose|j: int| 0 <= j < these.len() && (#[trigger] these[j]).covers(l) && these[j].place(l) == p;
        assert(all[before.len() + j] == these[j]);
    }
}

/// Of a file that is cut to nothing every extent is released.
proof fn lemma_all_freed(all: Seq<Extent>, i: int, p: int)
    requires
        0 <= i < all.len(),
        all[i].physical_block <= p < all[i].physical_block + all[i].length,
    ensures
        in_runs(freed_above(all, 0), p),
    decreases all.len(),
{
    let front = all.drop_last();
    let before = freed_above(front, 0);
    let runs = freed_above(all, 0);
    if i < front.len() {
        lemma_all_freed(front, i, p);
        let j = choose|j: int| 0 <= j < before.len() && (#[trigger] before[j]).0 <= p < before[j].0 + before[j].1;
        assert(runs[j] == before[j]);
    } else {
        assert(runs[before.len() as int] == (all[i].physical_block, all[i].length as u32));
    }
}

/// Blocks that are gathered are in the runs, and so is what was there.
proof fn lemma_gathered(runs: Seq<(u64, u32)>, blocks: Seq<u64>, p: int, k: int)
    requires
        in_runs(runs, p) || (0 <= k < blocks.len() && blocks[k] == p),
    ensures
        in_runs(gathered(runs, blocks), p),
    decreases blocks.len(),
{
    if blocks.len() > 0 {
        let front = blocks.drop_last();
        let before = gathered(runs, front);
        let b = blocks.last();
        let after = with_next(before, b);
        if in_runs(runs, p) || k < front.len() {
            if 0 <= k < front.len() {
                assert(front[k] == blocks[k]);
            }
            lemma_gathered(runs, front, p, k);
            let j = choose|j: int| 0 <= j < before.len() && (#[trigger] before[j]).0 <= p < before[j].0 + before[j].1;
            assert(after[j].0 == before[j].0 && after[j].1 >= before[j].1);
        } else {
            assert(after[after.len() - 1].0 <= p < after[after.len() - 1].0 + after[after.len() - 1].1);
        }
    }
}

/// What a pointer leads to hangs from it.
proof fn lemma_hangs(img: Seq<u8>, bs: int, p: u32, level: nat, count: int, i: int, x: u64)
    requires
        bs >= 1024,
        0 <= i < count <= span(bs / 4, level),
        held(img, bs, p, level, count) is Ok,
        follow(img, bs, p, level, i) == Ok::<Option<u64>, Error>(Some(x)),
    ensures
        held(img, bs, p, level, count)->Ok_0.data.contains(x),
    decreases level, (bs / 4) as nat + 1,
{
    let h = held(img, bs, p, level, count)->Ok_0;
    if p == 0 {
    } else if level == 0 {
        assert(h.data[0] == x);
    } else {
        let b = block_at(img, bs, p as int)->Ok_0;
        let per = bs / 4;
        let s = span(per, (level - 1) as nat);
        lemma_span_pos(per, (level - 1) as nat);
        assert(span(per, level) == per * s);
        let j = i / s;
        vstd::arithmetic::div_mod::lemma_fundamental_div_mod(i, s);
        vstd::arithmetic::div_mod::lemma_div_pos_is_pos(i, s);
        assert(0 <= j < per) by (nonlinear_arith)
            requires
                0 <= i < per * s,
                s > 0,
                i == s * j + i % s,
                0 <= i % s,
                j >= 0,
        ;
        lemma_hangs_in(img, bs, b, (level - 1) as nat, count, per as nat, j, i, x);
        let inner = held_in(img, bs, b, (level - 1) as nat, count, per as nat)->Ok_0;
        let k = choose|k: int| 0 <= k < inner.data.len() && inner.data[k] == x;
        assert(h.data[k] == x);
    }
}

proof fn lemma_hangs_in(img: Seq<u8>, bs: int, b: Seq<u8>, level: nat, count: int, k: nat, j: int, i: int, x: u64)
    requires
        bs >= 1024,
        0 <= j < k,
        0 <= i < count,
        span(bs / 4, level) > 0,
        i == span(bs / 4, level) * j + i % span(bs / 4, level),
        held_in(img, bs, b, level, count, k) is Ok,
        follow(img, bs, le32(b, 4 * j), level, i % span(bs / 4, level)) == Ok::<Option<u64>, Error>(Some(x)),
    ensures
        held_in(img, bs, b, level, count, k)->Ok_0.data.contains(x),
    decreases level + 1, k,
{
    let s = span(bs / 4, level);
    let all = held_in(img, bs, b, level, count, k)->Ok_0;
    let before = held_in(img, bs, b, level, count, (k - 1) as nat)->Ok_0;
    let these = held(img, bs, le32(b, 4 * (k - 1)), level, clamp(count - (k - 1) * s, s))->Ok_0;
    if j < k - 1 {
        lemma_hangs_in(img, bs, b, level, count, (k - 1) as nat, j, i, x);
        let q = choose|q: int| 0 <= q < before.data.len() && before.data[q] == x;
        assert(all.data[q] == x);
    } else {
        vstd::arithmetic::mul::lemma_mul_is_commutative(s, j);
        lemma_hangs(img, bs, le32(b, 4 * j), level, clamp(count - j * s, s), i % s, x);
        let q = choose|q: int| 0 <= q < these.data.len() && these.data[q] == x;
        assert(all.data[before.data.len() + q] == x);
    }
}

proof fn lemma_span_pos(per: int, level: nat)
    requires
        per > 0,
    ensures
        span(per, level) > 0,
    decreases level,
{
    if level > 0 {
        lemma_span_pos(per, (level - 1) as nat);
        assert(per * span(per, (level - 1) as nat) > 0) by (nonlinear_arith)
            requires
                per > 0,
                span(per, (level - 1) as nat) > 0,
        ;
    }
}

proof fn lemma_direct(area: Seq<u8>, k: nat, l: int, x: u64)
    requires
        0 <= l < k,
        pointer(le32(area, 4 * l)) == Some(x),
    ensures
        held_direct(area, k).contains(x),
    decreases k,
{
    let before = held_direct(area, (k - 1) as nat);
    let all = held_direct(area, k);
    if l < k - 1 {
        lemma_direct(area, (k - 1) as nat, l, x);
        let q = choose|q: int| 0 <= q < before.len() && before[q] == x;
        assert(all[q] == x);
    } else {
        assert(all[before.len() as int] == x);
    }
}

/// What the pointers of a file lead to hangs from them.
proof fn lemma_pointed(img: Seq<u8>, bs: int, area: Seq<u8>, l: int, x: u64)
    requires
        1024 <= bs <= 65536,
        l >= 0,
        indirect_block_for(img, bs, area, l) == Ok::<Option<u64>, Error>(Some(x)),
        held_by(img, bs, area, most_blocks(bs / 4)) is Ok,
    ensures
        held_by(img, bs, area, most_blocks(bs / 4))->Ok_0.data.contains(x),
{
    let per = bs / 4;
    let count = most_blocks(per);
    crate::indirect::lemma_span(per);
    let h = held_by(img, bs, area, count)->Ok_0;
    let direct = held_direct(area, 12);
    let one = held(img, bs, le32(area, 48), 1, count - 12)->Ok_0.data;
    let two = held(img, bs, le32(area, 52), 2, count - 12 - span(per, 1))->Ok_0.data;
    let three = held(img, bs, le32(area, 56), 3, count - 12 - span(per, 1) - span(per, 2))->Ok_0.data;
    assert(h.data =~= direct + one + two + three);
    if l < 12 {
        lemma_direct(area, 12, l, x);
        let q = choose|q: int| 0 <= q < direct.len() && direct[q] == x;
        assert(h.data[q] == x);
    } else if l - 12 < span(per, 1) {
        lemma_hangs_more(img, bs, le32(area, 48), 1, count - 12, l - 12, x);
        let q = choose|q: int| 0 <= q < one.len() && one[q] == x;
        assert(h.data[direct.len() + q] == x);
    } else if l - 12 - span(per, 1) < span(per, 2) {
        lemma_hangs_more(img, bs, le32(area, 52), 2, count - 12 - span(per, 1), l - 12 - span(per, 1), x);
        let q = choose|q: int| 0 <= q < two.len() && two[q] == x;
        assert(h.data[direct.len() + one.len() + q] == x);
    } else {
        let i = l - 12 - span(per, 1) - span(per, 2);
        lemma_hangs_more(img, bs, le32(area, 56), 3, count - 12 - span(per, 1) - span(per, 2), i, x);
        let q = choose|q: int| 0 <= q < three.len() && three[q] == x;
        assert(h.data[direct.len() + one.len() + two.len() + q] == x);
    }
}

/// The same with room for more than hangs from the pointer.
proof fn lemma_hangs_more(img: Seq<u8>, bs: int, p: u32, level: nat, count: int, i: int, x: u64)
    requires
        bs >= 1024,
        level > 0,
        0 <= i < span(bs / 4, level),
        i < count,
        held(img, bs, p, level, count) is Ok,
        follow(img, bs, p, level, i) == Ok::<Option<u64>, Error>(Some(x)),
    ensures
        held(img, bs, p, level, count)->Ok_0.data.contains(x),
{
    let per = bs / 4;
    let h = held(img, bs, p, level, count)->Ok_0;
    if p != 0 {
        let b = block_at(img, bs, p as int)->Ok_0;
        let s = span(per, (level - 1) as nat);
        lemma_span_pos(per, (level - 1) as nat);
        assert(span(per, level) == per * s);
        let j = i / s;
        vstd::arithmetic::div_mod::lemma_fundamental_div_mod(i, s);
        vstd::arithmetic::div_mod::lemma_div_pos_is_pos(i, s);
        assert(0 <= j < per) by (nonlinear_arith)
            requires
                0 <= i < per * s,
                s > 0,
                i == s * j + i % s,
                0 <= i % s,
                j >= 0,
        ;
        lemma_hangs_in(img, bs, b, (level - 1) as nat, count, per as nat, j, i, x);
        let inner = held_in(img, bs, b, (level - 1) as nat, count, per as nat)->Ok_0;
        let k = choose|k: int| 0 <= k < inner.data.len() && inner.data[k] == x;
        assert(h.data[k] == x);
    }
}

// -- files and directories that go ------------------------------------------

/// What an inode is reaped with is free, and so is the inode; nothing more is in
/// use.
pub(crate) proof fn lemma_reaped_is_free(
    v: Vol,
    st: Stage,
    ino: u32,
    raw: Seq<u8>,
    runs: Seq<(u64, u32)>,
    dir: bool,
    now: u32,
)
    requires
        v.wf(),
        books_apart(v),
        !is_meta(v, record_block(v, ino)),
        stage_reap(v, st, ino, raw, runs, dir, now) is Ok,
    ensures
        runs_grouped(v, runs),
        group_of_inode(v, ino) is Some,
        no_more_used(v, st.img, stage_reap(v, st, ino, raw, runs, dir, now)->Ok_0.img),
        runs_are_free(v, stage_reap(v, st, ino, raw, runs, dir, now)->Ok_0.img, runs),
        inode_is_free(v, stage_reap(v, st, ino, raw, runs, dir, now)->Ok_0.img, ino),
{
    let st1 = stage_free_runs(v, st, runs)->Ok_0;
    let st2 = stage_free_inode(v, st1, ino)->Ok_0;
    let st3 = if dir {
        stage_counters(v, st2, home_group(v, ino) as int, 0, 0, -1)->Ok_0
    } else {
        st2
    };
    let st4 = stage_totals(v, st3, runs_total(runs), 1)->Ok_0;
    let rec = dead_inode(v, ino, generation_of(raw), now);
    let fin = stage_inode(v, st4, ino, rec)->Ok_0;
    lemma_runs_released(v, st, runs);
    lemma_inode_released(v, st1, ino);
    if dir {
        crate::remove_laws::lemma_home_group(v, ino);
        lemma_counters_booked(v, st2, home_group(v, ino) as int, 0, 0, -1);
        lemma_same_used(v, st2.img, st3.img);
    } else {
        lemma_same_used(v, st2.img, st3.img);
    }
    lemma_totals_booked(v, st3, runs_total(runs), 1);
    lemma_same_used(v, st3.img, st4.img);
    lemma_dead_len(v, ino, generation_of(raw), now);
    lemma_record_uses(v, st4, ino, rec);
    lemma_used_on(v, st2.img, st3.img, st4.img);
    lemma_used_on(v, st2.img, st4.img, fin.img);
    lemma_used_on(v, st1.img, st2.img, fin.img);
    lemma_used_on(v, st.img, st1.img, fin.img);
    lemma_runs_stay_free(v, st1.img, fin.img, runs);
    lemma_stays_free(v, st2.img, fin.img);
}

/// A directory whose blocks hold no bookkeeping.
pub open spec fn dir_apart(v: Vol, raw: Seq<u8>) -> bool {
    forall|l: int|
        0 <= l < dir_blocks(v, raw) ==> ((#[trigger] file_block(v, raw, l)) matches Ok(Some(p)) ==> !is_meta(v, p as int))
}

/// A file that is unlinked by its last name is given back: its inode is free, and
/// so is every run of blocks that it had. Nothing else comes into use, and a file
/// that has more names keeps what it has.
pub proof fn law_unlinked_file_is_given_back(
    v: Vol,
    path: Seq<u8>,
    dir: u32,
    draw: Seq<u8>,
    name: Seq<u8>,
    ino: u32,
    raw: Seq<u8>,
    now: u32,
)
    requires
        v.wf(),
        books_apart(v),
        names_in(v, path, dir, draw, name),
        find_entry(v, dir, draw, name) == Ok::<u32, Error>(ino),
        checked_inode(v, ino) == Ok::<Seq<u8>, Error>(raw),
        dir_apart(v, draw),
        !is_meta(v, record_block(v, ino)),
        unlink_stage(v, path, now) is Ok,
    ensures
        ({
            let w = committed(v, unlink_stage(v, path, now)->Ok_0);
            &&& no_more_used(v, v.img, w.img)
            &&& links_of(raw) <= 1 ==> inode_is_free(v, w.img, ino) && file_runs(v, raw) is Ok && runs_are_free(
                v,
                w.img,
                file_runs(v, raw)->Ok_0,
            )
            &&& links_of(raw) > 1 ==> no_more_used(v, w.img, v.img)
        }),
{
    let start = fresh_stage(v);
    let st = stage_remove_from(v, start, dir, draw, name, 0)->Ok_0;
    lemma_removal_booked(v, start, dir, draw, name, 0);
    lemma_same_used(v, start.img, st.img);
    lemma_same_used(v, st.img, start.img);
    let fin = unlink_stage(v, path, now)->Ok_0;
    if links_of(raw) > 1 {
        let rec = relinked_record(v, ino, raw, -1);
        assert(rec.len() == v.sb.inode_size);
        lemma_record_uses(v, st, ino, rec);
        lemma_record_back(v, st, ino, rec);
        lemma_used_on(v, v.img, st.img, fin.img);
        lemma_used_on(v, fin.img, st.img, v.img);
    } else {
        let runs = file_runs(v, raw)->Ok_0;
        lemma_reaped_is_free(v, st, ino, raw, runs, false, now);
        lemma_used_on(v, v.img, st.img, fin.img);
    }
}

/// The same the other way round: nothing goes out of use.
proof fn lemma_record_back(v: Vol, st: Stage, ino: u32, rec: Seq<u8>)
    requires
        v.wf(),
        rec.len() == v.sb.inode_size,
        !is_meta(v, record_block(v, ino)),
        stage_inode(v, st, ino, rec) is Ok,
    ensures
        no_more_used(v, stage_inode(v, st, ino, rec)->Ok_0.img, st.img),
{
    let after = stage_inode(v, st, ino, rec)->Ok_0;
    assert forall|k: int| k >= 0 && is_meta(v, k) implies #[trigger] block_at(after.img, v.bs(), k) == block_at(
        st.img,
        v.bs(),
        k,
    ) by {
        law_record_reads_back(v, st, ino, rec, k);
    }
    lemma_books_same(v, st.img, after.img);
    lemma_same_used(v, after.img, st.img);
}

/// A directory that is removed is given back: its inode is free, and so is every
/// run of blocks that it had. Nothing else comes into use.
pub proof fn law_removed_directory_is_given_back(
    v: Vol,
    path: Seq<u8>,
    dir: u32,
    draw: Seq<u8>,
    name: Seq<u8>,
    ino: u32,
    raw: Seq<u8>,
    now: u32,
)
    requires
        v.wf(),
        books_apart(v),
        names_in(v, path, dir, draw, name),
        find_entry(v, dir, draw, name) == Ok::<u32, Error>(ino),
        checked_inode(v, ino) == Ok::<Seq<u8>, Error>(raw),
        dir_apart(v, draw),
        !is_meta(v, record_block(v, ino)),
        !is_meta(v, record_block(v, dir)),
        rmdir_stage(v, path, now) is Ok,
    ensures
        ({
            let w = committed(v, rmdir_stage(v, path, now)->Ok_0);
            &&& no_more_used(v, v.img, w.img)
            &&& inode_is_free(v, w.img, ino)
            &&& dir_runs(v, raw) is Ok
            &&& runs_are_free(v, w.img, dir_runs(v, raw)->Ok_0)
        }),
{
    let start = fresh_stage(v);
    let runs = dir_runs(v, raw)->Ok_0;
    let st = stage_reap(v, start, ino, raw, runs, true, now)->Ok_0;
    lemma_reaped_is_free(v, start, ino, raw, runs, true, now);
    let mid = stage_remove_from(v, st, dir, draw, name, 0)->Ok_0;
    lemma_removal_booked(v, st, dir, draw, name, 0);
    lemma_same_used(v, st.img, mid.img);
    let rec = relinked_record(v, dir, draw, -1);
    let fin = rmdir_stage(v, path, now)->Ok_0;
    assert(rec.len() == v.sb.inode_size);
    lemma_record_uses(v, mid, dir, rec);
    lemma_used_on(v, st.img, mid.img, fin.img);
    lemma_used_on(v, start.img, st.img, fin.img);
    lemma_runs_stay_free(v, st.img, fin.img, runs);
    lemma_stays_free(v, st.img, fin.img);
}

} // verus!
