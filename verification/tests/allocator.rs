use fs_ext4::allocator::{
    apply_bitmap_write, blocks_in_group, group_owned_metadata_runs, orlov_select_group, plan_block_allocation,
    plan_block_allocation_excluding, plan_inode_allocation, reserved_blocks, BgdCounterUpdate, BitmapWrite,
    BlockAllocationPlan, SuperblockCounterUpdate,
};
use fs_ext4::bgd::{BlockGroupDescriptor, BLOCK_UNINIT, INODE_UNINIT};
use fs_ext4::bitmap::{bit_is_set, find_first_free, find_free_run};
use fs_ext4::superblock::{Superblock, EXT4_MAGIC, GOOD_OLD_FIRST_INODE, SUPERBLOCK_SIZE};
use fs_ext4::Result;
use std::cell::Cell;


fn mk_plan(first_block: u64, count: u32) -> BlockAllocationPlan {
    BlockAllocationPlan {
        first_block,
        count,
        bitmap: BitmapWrite {
            bitmap_block: 0,
            bit_start: 0,
            count,
            set: true,
        },
        bgd: BgdCounterUpdate {
            group_idx: 0,
            free_blocks_delta: -(count as i32),
            free_inodes_delta: 0,
            used_dirs_delta: 0,
        },
        sb: SuperblockCounterUpdate {
            free_blocks_delta: -(count as i64),
            free_inodes_delta: 0,
        },
    }
}

#[test]
fn the_data_plan_is_reserved() {
    assert_eq!(reserved_blocks(&mk_plan(517, 1), &[]), vec![517]);
}

#[test]
fn a_multi_block_plan_reserves_its_whole_run() {
    assert_eq!(
        reserved_blocks(&mk_plan(100, 3), &[]),
        vec![100, 101, 102],
        "reserving only first_block leaves 101 and 102 free to be handed out again"
    );
    assert_eq!(
        reserved_blocks(&mk_plan(100, 1), &[mk_plan(200, 4)]),
        vec![100, 200, 201, 202, 203],
        "a handed-out meta plan contributes its whole run too"
    );
}

#[test]
fn every_meta_plan_handed_out_so_far_is_reserved() {
    let data = mk_plan(517, 1);
    let first = reserved_blocks(&data, &[]);
    assert_eq!(first, vec![517]);

    let handed_out = vec![mk_plan(518, 1)];
    let second = reserved_blocks(&data, &handed_out);
    assert!(
        second.contains(&518),
        "the block the first call was given must not be offered again: {second:?}"
    );
    assert!(
        second.contains(&517),
        "and the data block stays reserved across calls: {second:?}"
    );

    let handed_out = vec![mk_plan(518, 1), mk_plan(519, 1)];
    assert_eq!(reserved_blocks(&data, &handed_out), vec![517, 518, 519]);
}

fn mk_sb(
    block_size: u32,
    blocks_per_group: u32,
    inodes_per_group: u32,
    total_blocks: u64,
) -> Superblock {
    let mut raw = vec![0u8; SUPERBLOCK_SIZE];
    raw[0x38..0x3A].copy_from_slice(&(EXT4_MAGIC).to_le_bytes());
    raw[0x00..0x04].copy_from_slice(&(inodes_per_group * 4).to_le_bytes());
    raw[0x04..0x08].copy_from_slice(&(total_blocks as u32).to_le_bytes());
    raw[0x14..0x18].copy_from_slice(&1u32.to_le_bytes());
    raw[0x18..0x1C]
        .copy_from_slice(&(block_size.trailing_zeros().saturating_sub(10)).to_le_bytes());
    raw[0x20..0x24].copy_from_slice(&blocks_per_group.to_le_bytes());
    raw[0x28..0x2C].copy_from_slice(&inodes_per_group.to_le_bytes());
    raw[0x4C..0x50].copy_from_slice(&1u32.to_le_bytes());
    raw[0x58..0x5A].copy_from_slice(&256u16.to_le_bytes());
    raw[0xFE..0x100].copy_from_slice(&64u16.to_le_bytes());
    Superblock::parse(raw).unwrap()
}

fn mk_bgd(
    free_blocks: u32,
    free_inodes: u32,
    used_dirs: u32,
    flags: u16,
) -> BlockGroupDescriptor {
    BlockGroupDescriptor {
        block_bitmap: 100,
        inode_bitmap: 200,
        inode_table: 300,
        free_blocks_count: free_blocks,
        free_inodes_count: free_inodes,
        used_dirs_count: used_dirs,
        flags,
        itable_unused: 0,
        block_bitmap_csum: 0,
        inode_bitmap_csum: 0,
        checksum: 0,
    }
}

#[test]
fn a_bit_outside_the_bitmap_is_not_a_free_bit() {
    let full = vec![0xFFu8];
    assert_eq!(find_first_free(&full, 0, 1 << 31), None);
    let partly = vec![0x0Fu8];
    assert_eq!(find_first_free(&partly, 0, 1 << 31), Some(4));
    assert_eq!(find_first_free(&partly, 8, 1 << 31), None);
    assert_eq!(find_first_free(&[], 0, 1 << 31), None);
}

#[test]
fn a_reserved_inode_is_never_allocated() {
    let sb = mk_sb(1024, 8192, 128, 1024);
    let groups = vec![mk_bgd(100, 128, 0, INODE_UNINIT)];
    assert_eq!(
        sb.first_inode,
        GOOD_OLD_FIRST_INODE,
        "the fixture superblock leaves s_first_ino zero; the floor comes from the parser"
    );
    let plan = plan_inode_allocation(&sb, &groups, false, 0, |_| {
        panic!("an uninitialised group is not read")
    })
    .expect("a group with free inodes");
    assert!(
        plan.inode >= sb.first_inode,
        "allocated inode {} , where the first non-reserved one is {} -- \
         writing it puts the new file's inode over the root directory's",
        plan.inode,
        sb.first_inode
    );

    let groups = vec![
        mk_bgd(100, 0, 0, 0),
        mk_bgd(100, 128, 0, INODE_UNINIT),
    ];
    let plan = plan_inode_allocation(&sb, &groups, false, 1, |_| unreachable!()).unwrap();
    assert_eq!(plan.inode, 128 + 1);
}

#[test]
fn a_reader_that_changes_its_mind_gets_no_block_outside_the_volume_or_reserved() {
    let sb = mk_sb(1024, 8192, 128, 16000);
    let groups = vec![mk_bgd(100, 128, 0, 0), mk_bgd(100, 128, 0, 0)];
    let reads = Cell::new(0u32);
    let fickle = |_: u64| -> Result<Vec<u8>> {
        reads.set(reads.get() + 1);
        Ok(vec![if reads.get() % 2 == 1 { 0xFF } else { 0 }; 1024])
    };
    for hint in [0u32, 1] {
        let reserved = vec![1u64, 3, 8193, 8194, 8200];
        let plan = plan_block_allocation_excluding(&sb, &groups, 2, hint, &reserved, fickle).expect("room");
        assert_eq!(plan.count, 2);
        assert!(plan.first_block >= 1 && plan.first_block + 2 <= 16000);
        assert!((plan.first_block..plan.first_block + 2).all(|b| !reserved.contains(&b)));
    }
}

#[test]
fn find_first_free_walks_bits() {
    let buf = vec![0xFF, 0x0F, 0x00];
    assert_eq!(find_first_free(&buf, 0, 24), Some(12));
    assert_eq!(find_first_free(&buf, 20, 24), Some(20));
}

#[test]
fn find_first_free_word_aligned_fast_path() {
    let mut buf = vec![0xFFu8; 8];
    buf.extend_from_slice(&[0xFFu8; 2]);
    buf.push(0x00);
    buf.extend_from_slice(&[0xFFu8; 5]);
    assert_eq!(find_first_free(&buf, 0, 128), Some(80));
}

#[test]
fn find_first_free_all_ones_in_range() {
    let buf = vec![0xFFu8; 32];
    assert_eq!(find_first_free(&buf, 0, 256), None);
    assert_eq!(find_first_free(&buf, 63, 256), None);
    assert_eq!(find_first_free(&buf, 64, 256), None);
}

#[test]
fn find_first_free_respects_max_bits_mid_word() {
    let mut buf = vec![0xFFu8; 8];
    buf.push(0x00);
    buf.extend_from_slice(&[0xFFu8; 7]);
    assert_eq!(find_first_free(&buf, 0, 65), Some(64));
    assert_eq!(find_first_free(&buf, 0, 64), None);
}

#[test]
fn find_first_free_unaligned_start_matches_per_bit() {
    let buf: Vec<u8> = (0..128u8).collect();
    let max = (buf.len() as u32) * 8;
    for start in [0u32, 1, 7, 8, 63, 64, 65, 127, 200, 511] {
        let fast = find_first_free(&buf, start, max);
        let slow = {
            let mut i = start;
            loop {
                if i >= max {
                    break None;
                }
                if !bit_is_set(&buf, i) {
                    break Some(i);
                }
                i += 1;
            }
        };
        assert_eq!(fast, slow, "start={start}");
    }
}

#[test]
fn find_free_run_handles_gaps() {
    let buf = vec![0b0000_0011, 0xFF, 0x00];
    assert_eq!(find_free_run(&buf, 0, 24, 5), Some(2));
    assert_eq!(find_free_run(&buf, 0, 24, 7), Some(16));
}

#[test]
fn find_free_run_exact_fit() {
    let buf = vec![0x00];
    assert_eq!(find_free_run(&buf, 0, 8, 8), Some(0));
}

#[test]
fn find_free_run_rejects_too_short() {
    let buf = vec![0xFE];
    assert_eq!(find_free_run(&buf, 0, 8, 2), None);
}

#[test]
fn block_allocation_uses_first_group_with_room() {
    let sb = mk_sb(4096, 32768, 8192, 65536);
    let g0 = mk_bgd(100, 8000, 0, 0);
    let g1 = mk_bgd(20000, 8000, 0, 0);
    let groups = vec![g0, g1];
    let read = |_block: u64| -> Result<Vec<u8>> { Ok(vec![0u8; 4096]) };
    let plan = plan_block_allocation(&sb, &groups, 10, 0, read).unwrap();
    assert_eq!(plan.first_block, 1);
    assert_eq!(plan.count, 10);
    assert_eq!(plan.bgd.group_idx, 0);
    assert_eq!(plan.bgd.free_blocks_delta, -10);
    assert_eq!(plan.sb.free_blocks_delta, -10);
}

#[test]
fn block_allocation_skips_full_group() {
    let sb = mk_sb(4096, 32768, 8192, 65536);
    let g0 = mk_bgd(5, 8000, 0, 0);
    let g1 = mk_bgd(20000, 8000, 0, 0);
    let groups = vec![g0, g1];
    let read = |_b| Ok(vec![0u8; 4096]);
    let plan = plan_block_allocation(&sb, &groups, 10, 0, read).unwrap();
    assert_eq!(plan.bgd.group_idx, 1);
    assert_eq!(plan.first_block, 1 + 32768);
}

#[test]
fn consecutive_plans_repeat_without_reservations_and_advance_with_them() {
    let sb = mk_sb(4096, 32768, 8192, 65536);
    let groups = vec![mk_bgd(32768, 8000, 0, 0)];
    let read = |_b| Ok(vec![0u8; 4096]);

    let unreserved: Vec<u64> = (0..3)
        .map(|_| {
            plan_block_allocation(&sb, &groups, 1, 0, read)
                .unwrap()
                .first_block
        })
        .collect();
    assert_eq!(
        unreserved,
        vec![1, 1, 1],
        "nothing was committed, so the scan sees the same bytes each time"
    );

    let mut reserved: Vec<u64> = Vec::new();
    let mut handed_out: Vec<u64> = Vec::new();
    for _ in 0..3 {
        let plan =
            plan_block_allocation_excluding(&sb, &groups, 1, 0, &reserved, read).unwrap();
        reserved.push(plan.first_block);
        handed_out.push(plan.first_block);
    }
    assert_eq!(
        handed_out,
        vec![1, 2, 3],
        "each plan must avoid the blocks the ones before it took"
    );
}

#[test]
fn a_reserved_run_is_skipped_entirely() {
    let sb = mk_sb(4096, 32768, 8192, 65536);
    let groups = vec![mk_bgd(32768, 8000, 0, 0)];
    let read = |_b| Ok(vec![0u8; 4096]);
    let reserved: Vec<u64> = (1..=4).collect();
    let plan = plan_block_allocation_excluding(&sb, &groups, 1, 0, &reserved, read).unwrap();
    assert_eq!(plan.first_block, 5, "blocks 1..=4 are spoken for");
}

#[test]
fn a_reservation_is_honoured_in_an_uninit_group() {
    let sb = mk_sb(4096, 32768, 8192, 65536);
    let groups = vec![mk_bgd(32768, 8000, 0, BLOCK_UNINIT)];
    let call_count = Cell::new(0);
    let read = |_b| {
        call_count.set(call_count.get() + 1);
        Ok(vec![0u8; 4096])
    };
    let plan = plan_block_allocation_excluding(&sb, &groups, 1, 0, &[3], read).unwrap();
    assert_eq!(plan.first_block, 4, "block 3 is reserved");
    assert_eq!(call_count.get(), 0, "an UNINIT group still reads no bitmap");
}

#[test]
fn an_uninit_group_keeps_its_own_metadata() {
    let mut sb = mk_sb(4096, 32768, 8192, 65536);
    sb.reserved_gdt_blocks = 3;
    let g0 = mk_bgd(0, 8000, 0, 0);
    let mut g1 = mk_bgd(32768, 8000, 0, BLOCK_UNINIT);
    g1.block_bitmap = 32774;
    g1.inode_bitmap = 32775;
    g1.inode_table = 32776;
    let groups = vec![g0, g1];
    let read = |_b| Ok(vec![0u8; 4096]);
    let plan = plan_block_allocation(&sb, &groups, 1, 1, read).unwrap();
    assert_eq!(
        plan.first_block,
        32776 + 512,
        "first block past the group's metadata"
    );

    let runs = group_owned_metadata_runs(&sb, &groups, 1);
    assert_eq!(runs, vec![(0, 5), (5, 1), (6, 1), (7, 512)]);
}

#[test]
fn a_reservation_outside_this_group_does_not_narrow_it() {
    let sb = mk_sb(4096, 32768, 8192, 65536);
    let groups = vec![mk_bgd(32768, 8000, 0, 0), mk_bgd(32768, 8000, 0, 0)];
    let read = |_b| Ok(vec![0u8; 4096]);
    let reserved = [1 + 32768, 999_999];
    let plan = plan_block_allocation_excluding(&sb, &groups, 1, 0, &reserved, read).unwrap();
    assert_eq!(
        plan.first_block, 1,
        "neither reservation is in group 0, so group 0 is untouched"
    );
    let full_g0 = vec![mk_bgd(0, 8000, 0, 0), mk_bgd(32768, 8000, 0, 0)];
    let plan = plan_block_allocation_excluding(&sb, &full_g0, 1, 0, &reserved, read).unwrap();
    assert_eq!(
        plan.first_block,
        2 + 32768,
        "group 0 has no room, and group 1's first block is reserved"
    );
}

#[test]
fn the_unreserved_wrapper_agrees_with_the_general_form() {
    let sb = mk_sb(4096, 32768, 8192, 65536);
    let groups = vec![mk_bgd(5, 8000, 0, 0), mk_bgd(20000, 8000, 0, 0)];
    let read = |_b| Ok(vec![0u8; 4096]);
    let a = plan_block_allocation(&sb, &groups, 10, 0, read).unwrap();
    let b = plan_block_allocation_excluding(&sb, &groups, 10, 0, &[], read).unwrap();
    assert_eq!(a, b);
}

#[test]
fn block_allocation_honours_block_uninit_flag() {
    let sb = mk_sb(4096, 32768, 8192, 65536);
    let g0 = mk_bgd(32768, 8000, 0, BLOCK_UNINIT);
    let groups = vec![g0];
    let call_count = Cell::new(0);
    let read = |_b| {
        call_count.set(call_count.get() + 1);
        Ok(vec![0xFFu8; 4096])
    };
    let plan = plan_block_allocation(&sb, &groups, 4, 0, read).unwrap();
    assert_eq!(plan.count, 4);
    assert_eq!(call_count.get(), 0, "UNINIT group should not read bitmap");
}

#[test]
fn inode_allocation_returns_one_based_number() {
    let sb = mk_sb(4096, 32768, 8192, 65536);
    let g0 = mk_bgd(1000, 8000, 0, 0);
    let groups = vec![g0];
    let read = |_b| Ok(vec![0u8; 4096]);
    let plan = plan_inode_allocation(&sb, &groups, false, 0, read).unwrap();
    assert_eq!(
        plan.inode, sb.first_inode,
        "group 0's first available inode is s_first_ino, not inode 1"
    );
    assert_eq!(plan.bitmap.bit_start, sb.first_inode - 1, "one-based");
    assert!(!plan.is_dir);
    assert_eq!(plan.bgd.used_dirs_delta, 0);
}

#[test]
fn inode_allocation_dir_bumps_used_dirs() {
    let sb = mk_sb(4096, 32768, 8192, 65536);
    let g0 = mk_bgd(1000, 8000, 0, 0);
    let groups = vec![g0];
    let read = |_b| Ok(vec![0u8; 4096]);
    let plan = plan_inode_allocation(&sb, &groups, true, 0, read).unwrap();
    assert!(plan.is_dir);
    assert_eq!(plan.bgd.used_dirs_delta, 1);
    assert_eq!(plan.bgd.free_inodes_delta, -1);
}

#[test]
fn orlov_prefers_group_with_fewer_dirs() {
    let groups = vec![
        mk_bgd(100, 500, 30, 0),
        mk_bgd(100, 1000, 2, 0),
        mk_bgd(100, 800, 10, 0),
    ];
    assert_eq!(orlov_select_group(&groups, 0), 1);
}

#[test]
fn orlov_takes_the_fewest_directories_among_groups_with_enough_inodes() {
    let groups = vec![mk_bgd(100, 5000, 100, 0), mk_bgd(100, 4000, 0, 0), mk_bgd(100, 0, 0, 0)];
    assert_eq!(orlov_select_group(&groups, 0), 1);
    let level = vec![mk_bgd(100, 10, 3, 0), mk_bgd(100, 10, 3, 0), mk_bgd(100, 10, 4, 0)];
    assert_eq!(orlov_select_group(&level, 1), 1, "the first from the hint on");
    assert_eq!(orlov_select_group(&level, 2), 0);
    let full = vec![mk_bgd(100, 0, 3, 0), mk_bgd(100, 0, 0, 0)];
    assert_eq!(orlov_select_group(&full, 1), 1, "none suits: the hint");
}

#[test]
fn apply_bitmap_write_sets_and_clears_bits() {
    let mut buf = vec![0u8; 2];
    apply_bitmap_write(
        &mut buf,
        &BitmapWrite {
            bitmap_block: 0,
            bit_start: 0,
            count: 10,
            set: true,
        },
    );
    assert_eq!(buf, vec![0xFF, 0x03]);
    apply_bitmap_write(
        &mut buf,
        &BitmapWrite {
            bitmap_block: 0,
            bit_start: 5,
            count: 3,
            set: false,
        },
    );
    assert_eq!(buf, vec![0b0001_1111, 0x03]);
}


#[test]
fn blocks_in_group_full_groups_return_blocks_per_group() {
    let sb = mk_sb(4096, 32768, 8192, 3 * 32768 + 1);
    assert_eq!(blocks_in_group(&sb, 0), 32768);
    assert_eq!(blocks_in_group(&sb, 1), 32768);
}

#[test]
fn blocks_in_group_last_group_exact_multiple_returns_full() {
    let sb = mk_sb(4096, 32768, 8192, 2 * 32768 + 1);
    assert_eq!(blocks_in_group(&sb, 1), 32768);
}

#[test]
fn blocks_in_group_short_last_group() {
    let sb = mk_sb(4096, 32768, 8192, 32769 + 100);
    assert_eq!(blocks_in_group(&sb, 0), 32768);
    assert_eq!(blocks_in_group(&sb, 1), 100);
}
