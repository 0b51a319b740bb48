//! What is free is found, and what a group holds of its own is not free.
use crate::allocator::{
    blocks_for, blocks_planned, blocks_planned_from, clamp_hint, fresh_bitmap, group_at, group_blocks,
    group_first_block, inode_floor, inode_planned, inode_planned_from, lemma_group_blocks,
    lemma_group_first_block, lemma_mark_reserved, lemma_mark_runs_len, lemma_orlov_best, mark_reserved,
    mark_runs, metadata_runs, orlov_group, room_in_group, searched_bitmap, searched_inodes, BitmapModel,
};
use crate::bgd::BlockGroupDescriptor;
use crate::bitmap::{
    bit_free, bit_set, bits_held, first_free, lemma_first_free, lemma_free_run, lemma_with_bits, run_free,
};
use crate::bytes::zeros;
use crate::superblock::Superblock;
use vstd::prelude::*;

verus! {

/// How many groups a search from `start` on passes before it comes to `gi`,
/// going back to the first group behind the last.
pub open spec fn groups_passed(start: int, gi: int, n: int) -> int {
    if gi >= start {
        gi - start
    } else {
        gi + n - start
    }
}

/// The blocks of a group from bit `s` on are free, and none of them is reserved.
pub open spec fn stretch_is_free(
    sb: Superblock,
    bm: Seq<u8>,
    gi: int,
    reserved: Seq<u64>,
    s: int,
    count: int,
) -> bool {
    &&& 0 <= s
    &&& s + count <= group_blocks(sb, gi)
    &&& forall|j: int| s <= j < s + count ==> bit_free(bm, j)
    &&& forall|k: int|
        0 <= k < reserved.len() ==> !(group_first_block(sb, gi) + s <= #[trigger] reserved[k]
            < group_first_block(sb, gi) + s + count)
}

proof fn lemma_passed(start: int, gi: int, n: int)
    requires
        0 <= start < n,
        0 <= gi < n,
    ensures
        0 <= groups_passed(start, gi, n) < n,
        group_at(start, groups_passed(start, gi, n), n) == gi,
{
    let k = groups_passed(start, gi, n);
    if gi >= start {
        vstd::arithmetic::div_mod::lemma_small_mod(gi as nat, n as nat);
    } else {
        vstd::arithmetic::div_mod::lemma_small_mod(gi as nat, n as nat);
        vstd::arithmetic::div_mod::lemma_mod_add_multiples_vanish(gi, n);
        assert(start + k == n + gi);
    }
}

/// The group of a step that is not yet over is as many steps away.
proof fn lemma_passed_at(start: int, step: int, n: int)
    requires
        0 <= start < n,
        0 <= step < n,
    ensures
        0 <= group_at(start, step, n) < n,
        groups_passed(start, group_at(start, step, n), n) == step,
{
    if start + step < n {
        vstd::arithmetic::div_mod::lemma_small_mod((start + step) as nat, n as nat);
    } else {
        vstd::arithmetic::div_mod::lemma_small_mod((start + step - n) as nat, n as nat);
        vstd::arithmetic::div_mod::lemma_mod_add_multiples_vanish(start + step - n, n);
    }
}

/// A free stretch of a group is room in it, and the room taken starts no later.
proof fn lemma_stretch_is_room(sb: Superblock, bm: Seq<u8>, gi: int, reserved: Seq<u64>, s: int, count: int)
    requires
        sb.wf(),
        0 <= gi <= u32::MAX,
        0 < count,
        stretch_is_free(sb, bm, gi, reserved, s, count),
    ensures
        room_in_group(sb, bm, gi, reserved, count) is Some,
        room_in_group(sb, bm, gi, reserved, count)->Some_0 <= s,
{
    let max_bits = group_blocks(sb, gi);
    let first = group_first_block(sb, gi);
    let marked = mark_reserved(bm, first, max_bits, reserved);
    lemma_group_blocks(sb, gi);
    lemma_mark_reserved(bm, first, max_bits, reserved);
    assert forall|j: int| s <= j < s + count implies bit_free(marked, j) by {
        assert(bit_free(bm, j));
        assert(!bit_set(bm, j));
        assert(!bit_set(marked, j));
    }
    assert(run_free(marked, s, count));
    assert(bit_free(bm, s + count - 1));
    lemma_free_run(marked, 0, bits_held(marked, max_bits), count);
}

proof fn lemma_found_from(
    sb: Superblock,
    groups: Seq<BlockGroupDescriptor>,
    count: u32,
    hint: int,
    reserved: Seq<u64>,
    m: BitmapModel,
    step: int,
    gi: int,
    s: int,
)
    requires
        sb.wf(),
        groups.len() <= u32::MAX,
        0 < count <= i32::MAX,
        0 <= hint < groups.len(),
        0 <= gi < groups.len(),
        0 <= step <= groups_passed(hint, gi, groups.len() as int),
        groups[gi].free_blocks_count >= count,
        forall|g: int| 0 <= g < groups.len() ==> #[trigger] searched_bitmap(sb, groups, g, m) is Ok,
        stretch_is_free(sb, searched_bitmap(sb, groups, gi, m)->Ok_0, gi, reserved, s, count as int),
    ensures
        ({
            let r = blocks_planned_from(sb, groups, count, hint, reserved, m, step);
            let g = r->Ok_0.bgd.group_idx as int;
            &&& r is Ok
            &&& 0 <= g < groups.len()
            &&& groups_passed(hint, g, groups.len() as int) <= groups_passed(hint, gi, groups.len() as int)
            &&& g == gi ==> r->Ok_0.bitmap.bit_start <= s
        }),
    decreases groups.len() - step,
{
    let n = groups.len() as int;
    lemma_passed(hint, gi, n);
    lemma_passed_at(hint, step, n);
    let g = group_at(hint, step, n);
    assert(searched_bitmap(sb, groups, g, m) is Ok);
    let bm = searched_bitmap(sb, groups, g, m)->Ok_0;
    if step == groups_passed(hint, gi, n) {
        lemma_stretch_is_room(sb, bm, gi, reserved, s, count as int);
    } else if groups[g].free_blocks_count < count || room_in_group(sb, bm, g, reserved, count as int) is None {
        lemma_found_from(sb, groups, count, hint, reserved, m, step + 1, gi, s);
    }
}

/// Blocks are found wherever they are: as long as some group counts enough free
/// blocks and has them in one stretch, none of it reserved, an allocation comes
/// out, whatever group it starts from. It takes no group behind that one, and
/// in that one no later stretch.
pub proof fn law_free_blocks_are_found(
    sb: Superblock,
    groups: Seq<BlockGroupDescriptor>,
    count: u32,
    hint: u32,
    reserved: Seq<u64>,
    m: BitmapModel,
    gi: int,
    s: int,
)
    requires
        sb.wf(),
        groups.len() <= u32::MAX,
        0 < count <= i32::MAX,
        0 <= gi < groups.len(),
        groups[gi].free_blocks_count >= count,
        forall|g: int| 0 <= g < groups.len() ==> #[trigger] searched_bitmap(sb, groups, g, m) is Ok,
        stretch_is_free(sb, searched_bitmap(sb, groups, gi, m)->Ok_0, gi, reserved, s, count as int),
    ensures
        ({
            let r = blocks_planned(sb, groups, count, hint, reserved, m);
            let n = groups.len() as int;
            let start = if (hint as int) < n {
                hint as int
            } else {
                n - 1
            };
            let g = r->Ok_0.bgd.group_idx as int;
            &&& r is Ok
            &&& groups_passed(start, g, n) <= groups_passed(start, gi, n)
            &&& g == gi ==> r->Ok_0.bitmap.bit_start <= s
        }),
{
    lemma_passed(clamp_hint(hint as int, groups.len() as int), gi, groups.len() as int);
    lemma_found_from(
        sb,
        groups,
        count,
        clamp_hint(hint as int, groups.len() as int),
        reserved,
        m,
        0,
        gi,
        s,
    );
}

proof fn lemma_inode_found_from(
    sb: Superblock,
    groups: Seq<BlockGroupDescriptor>,
    is_dir: bool,
    start: int,
    m: BitmapModel,
    step: int,
    gi: int,
    bit: int,
)
    requires
        sb.wf(),
        groups.len() <= u32::MAX,
        groups.len() * sb.inodes_per_group <= sb.inodes_count,
        0 <= start < groups.len(),
        0 <= gi < groups.len(),
        0 <= step <= groups_passed(start, gi, groups.len() as int),
        groups[gi].free_inodes_count > 0,
        forall|g: int| 0 <= g < groups.len() ==> #[trigger] searched_inodes(sb, groups, g, m) is Ok,
        0 <= bit < sb.inodes_per_group,
        gi == 0 ==> bit + 1 >= sb.first_inode,
        bit_free(searched_inodes(sb, groups, gi, m)->Ok_0, bit),
    ensures
        ({
            let r = inode_planned_from(sb, groups, is_dir, start, m, step);
            let g = r->Ok_0.bgd.group_idx as int;
            &&& r is Ok
            &&& 0 <= g < groups.len()
            &&& groups_passed(start, g, groups.len() as int) <= groups_passed(start, gi, groups.len() as int)
            &&& g == gi ==> r->Ok_0.bitmap.bit_start <= bit
        }),
    decreases groups.len() - step,
{
    let n = groups.len() as int;
    lemma_passed(start, gi, n);
    lemma_passed_at(start, step, n);
    let g = group_at(start, step, n);
    assert(searched_inodes(sb, groups, g, m) is Ok);
    let bm = searched_inodes(sb, groups, g, m)->Ok_0;
    let found = first_free(bm, inode_floor(sb, g), bits_held(bm, sb.inodes_per_group as int));
    lemma_first_free(bm, inode_floor(sb, g), bits_held(bm, sb.inodes_per_group as int));
    assert(g * sb.inodes_per_group + sb.inodes_per_group <= groups.len() * sb.inodes_per_group) by (nonlinear_arith)
        requires
            g + 1 <= groups.len(),
            sb.inodes_per_group >= 0,
    ;
    if groups[g].free_inodes_count == 0 || found is None {
        assert(step != groups_passed(start, gi, n));
        lemma_inode_found_from(sb, groups, is_dir, start, m, step + 1, gi, bit);
    }
}

/// An inode is found wherever one is free and is none of the reserved ones, on a
/// volume on which every group has all its inodes.
pub proof fn law_free_inode_is_found(
    sb: Superblock,
    groups: Seq<BlockGroupDescriptor>,
    is_dir: bool,
    hint: u32,
    m: BitmapModel,
    gi: int,
    bit: int,
)
    requires
        sb.wf(),
        groups.len() <= u32::MAX,
        groups.len() * sb.inodes_per_group <= sb.inodes_count,
        0 <= gi < groups.len(),
        groups[gi].free_inodes_count > 0,
        forall|g: int| 0 <= g < groups.len() ==> #[trigger] searched_inodes(sb, groups, g, m) is Ok,
        0 <= bit < sb.inodes_per_group,
        gi == 0 ==> bit + 1 >= sb.first_inode,
        bit_free(searched_inodes(sb, groups, gi, m)->Ok_0, bit),
    ensures
        ({
            let r = inode_planned(sb, groups, is_dir, hint, m);
            let n = groups.len() as int;
            let start = if (hint as int) < n {
                hint as int
            } else {
                n - 1
            };
            let g = r->Ok_0.bgd.group_idx as int;
            &&& r is Ok
            &&& g == gi ==> r->Ok_0.bitmap.bit_start <= bit
            &&& !is_dir ==> groups_passed(start, g, n) <= groups_passed(start, gi, n)
        }),
{
    let n = groups.len() as int;
    if is_dir {
        lemma_orlov_best(groups, clamp_hint(hint as int, n), n);
    }
    let start = if is_dir {
        orlov_group(groups, hint)
    } else {
        clamp_hint(hint as int, n)
    };
    lemma_passed(start, gi, n);
    lemma_inode_found_from(sb, groups, is_dir, start, m, 0, gi, bit);
}

// -- what a group holds of its own ------------------------------------------

/// A bit is in one of some runs.
pub open spec fn in_some_run(runs: Seq<(u64, u64)>, j: int) -> bool {
    exists|k: int| 0 <= k < runs.len() && (#[trigger] runs[k]).0 <= j < runs[k].0 + runs[k].1
}

proof fn lemma_marked_runs(bm: Seq<u8>, runs: Seq<(u64, u64)>, max_bits: int, j: int)
    requires
        0 <= j < max_bits,
        j < 8 * bm.len(),
    ensures
        bit_set(mark_runs(bm, runs, max_bits), j) <==> bit_set(bm, j) || in_some_run(runs, j),
    decreases runs.len(),
{
    if runs.len() > 0 {
        let front = runs.drop_last();
        let before = mark_runs(bm, front, max_bits);
        lemma_marked_runs(bm, front, max_bits, j);
        lemma_mark_runs_len(bm, front, max_bits);
        let (first, count) = runs.last();
        let end = if first + count <= max_bits {
            first + count
        } else {
            max_bits
        };
        if first < end {
            lemma_with_bits(before, first as int, (end - first) as nat, true);
        }
        assert(runs[runs.len() - 1] == (first, count));
        if in_some_run(front, j) {
            let k = choose|k: int| 0 <= k < front.len() && (#[trigger] front[k]).0 <= j < front[k].0 + front[k].1;
            assert(runs[k] == front[k]);
        }
        if in_some_run(runs, j) {
            let k = choose|k: int| 0 <= k < runs.len() && (#[trigger] runs[k]).0 <= j < runs[k].0 + runs[k].1;
            if k < front.len() {
                assert(front[k] == runs[k]);
            }
        }
    }
}

/// In a group whose bitmap was never written, a block is taken exactly where the
/// group's copy of the superblock and of the descriptors is, where its own
/// bitmaps are, and where its own inode table is, as far as these start in the
/// group.
pub proof fn law_untouched_group_holds_its_own(
    sb: Superblock,
    groups: Seq<BlockGroupDescriptor>,
    gi: int,
    j: int,
)
    requires
        sb.wf(),
        groups.len() <= u32::MAX,
        0 <= gi < groups.len(),
        0 <= j < group_blocks(sb, gi),
        j < 8 * sb.bs(),
    ensures
        ({
            let b = group_first_block(sb, gi) + j;
            let starts_here = |x: u64|
                group_first_block(sb, gi) <= x < group_first_block(sb, gi) + sb.blocks_per_group;
            bit_set(fresh_bitmap(sb, groups, gi), j) <==> {
                ||| sb.has_super(gi) && j < 1 + blocks_for(groups.len() * sb.desc_size, sb.bs())
                    + sb.reserved_gdt_blocks
                ||| b == groups[gi].block_bitmap
                ||| b == groups[gi].inode_bitmap
                ||| starts_here(groups[gi].inode_table) && groups[gi].inode_table <= b < groups[gi].inode_table
                    + blocks_for(sb.inodes_per_group * sb.inode_size, sb.bs())
            }
        }),
{
    let runs = metadata_runs(sb, groups, gi);
    let bm = zeros(sb.bs() as nat);
    lemma_group_blocks(sb, gi);
    lemma_group_first_block(sb, gi);
    lemma_marked_runs(bm, runs, group_blocks(sb, gi), j);
    assert(!bit_set(bm, j)) by {
        let k = (j % 8) as u8;
        assert(bm[j / 8] == 0);
        assert(0u8 & (1u8 << k) == 0) by (bit_vector);
    }
    lemma_sizes(sb, groups);
    let supers = if sb.has_super(gi) {
        seq![
            (
                0u64,
                (1 + blocks_for(groups.len() * sb.desc_size, sb.bs()) + sb.reserved_gdt_blocks) as u64,
            ),
        ]
    } else {
        Seq::<(u64, u64)>::empty()
    };
    let g = groups[gi];
    let one = crate::allocator::run_in_group(sb, gi, g.block_bitmap, 1);
    let two = crate::allocator::run_in_group(sb, gi, g.inode_bitmap, 1);
    let three = crate::allocator::run_in_group(
        sb,
        gi,
        g.inode_table,
        blocks_for(sb.inodes_per_group * sb.inode_size, sb.bs()),
    );
    lemma_either_run(supers, one, j);
    lemma_either_run(supers + one, two, j);
    lemma_either_run(supers + one + two, three, j);
    lemma_one_run(supers, j);
    lemma_one_run(one, j);
    lemma_one_run(two, j);
    lemma_one_run(three, j);
}

proof fn lemma_one_run(runs: Seq<(u64, u64)>, j: int)
    requires
        runs.len() <= 1,
    ensures
        in_some_run(runs, j) <==> runs.len() == 1 && runs[0].0 <= j < runs[0].0 + runs[0].1,
{
}

proof fn lemma_either_run(a: Seq<(u64, u64)>, b: Seq<(u64, u64)>, j: int)
    ensures
        in_some_run(a + b, j) <==> in_some_run(a, j) || in_some_run(b, j),
{
    let all = a + b;
    if in_some_run(a, j) {
        let k = choose|k: int| 0 <= k < a.len() && (#[trigger] a[k]).0 <= j < a[k].0 + a[k].1;
        assert(all[k] == a[k]);
    }
    if in_some_run(b, j) {
        let k = choose|k: int| 0 <= k < b.len() && (#[trigger] b[k]).0 <= j < b[k].0 + b[k].1;
        assert(all[a.len() + k] == b[k]);
    }
    if in_some_run(all, j) {
        let k = choose|k: int| 0 <= k < all.len() && (#[trigger] all[k]).0 <= j < all[k].0 + all[k].1;
        if k < a.len() {
            assert(a[k] == all[k]);
        } else {
            assert(b[k - a.len()] == all[k]);
        }
    }
}

proof fn lemma_sizes(sb: Superblock, groups: Seq<BlockGroupDescriptor>)
    requires
        sb.wf(),
        groups.len() <= u32::MAX,
    ensures
        0 <= blocks_for(groups.len() * sb.desc_size, sb.bs()) <= 0xFFFF_FFFF * 0xFFFF,
        0 <= blocks_for(sb.inodes_per_group * sb.inode_size, sb.bs()) <= 0xFFFF_FFFF * 0xFFFF,
{
    assert(0 <= groups.len() * sb.desc_size <= 0xFFFF_FFFF * 0xFFFF) by (nonlinear_arith)
        requires
            groups.len() <= 0xFFFF_FFFF,
            0 <= sb.desc_size <= 0xFFFF,
    ;
    assert(0 <= sb.inodes_per_group * sb.inode_size <= 0xFFFF_FFFF * 0xFFFF) by (nonlinear_arith)
        requires
            0 <= sb.inodes_per_group <= 0xFFFF_FFFF,
            0 <= sb.inode_size <= 0xFFFF,
    ;
    crate::allocator::lemma_blocks_for_le(groups.len() * sb.desc_size, sb.bs());
    crate::allocator::lemma_blocks_for_le(sb.inodes_per_group * sb.inode_size, sb.bs());
}

} // verus!
