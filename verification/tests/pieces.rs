use fs_ext4::bitmap::{bit_is_set, find_first_free, find_free_run, put_bits};
use fs_ext4::block_io::{BlockDevice, Bytes};
use fs_ext4::bytes::{get_be16, get_be32, get_u16, get_u32, overlay, set_be32, set_u16, set_u32};
use fs_ext4::capi::{cut_with_nul, mode_to_file_type, pack_names};
use fs_ext4::casefold::{fold_name, siphash_2_4};
use fs_ext4::checksum::{crc16, linux_crc32c, Checksummer};
use fs_ext4::dir::{
    add_entry_to_block, find_in_block, only_dots_in_block, parse_block, remove_entry_from_block, DirEntryType,
};
use fs_ext4::extent::{collect_all, lookup, map_logical, Extent, ExtentHeader};
use fs_ext4::extent_mut::{build_root, insert_into_leaf, plan_split_extent, ExtentMutation, LeafInsert};
use fs_ext4::file_mut::plan_truncate_shrink;
use fs_ext4::indirect::lookup_indirect;
use fs_ext4::indirect_mut::{collect_for_free, count_indirect_blocks, plan_contiguous};
use fs_ext4::inode::{decode_extra_time, encode_extra_time, Inode};
use fs_ext4::inode_edit::tree_root;
use fs_ext4::jbd2::JournalSuperblock;
use fs_ext4::journal::{ReplayEntry, ReplayPlan, Revoke};
use fs_ext4::journal_apply::{byte_offset_in, set_needs_recovery_in};
use fs_ext4::mkfs::{format_filesystem, is_valid_block_size, uuid_from_seed, uuid_v4};
use fs_ext4::stage::patch_counter_u32;
use fs_ext4::xattr::{find_attr, make_attr, read_block_attrs, read_region, set_attr, write_block_attrs, write_region};
use fs_ext4::xattr_ops::{plan_remove_in_inode_region, plan_set_in_inode_region, split_name, RemoveOutcome};
use fs_ext4::Error;

fn memory(n: usize) -> Bytes {
    Bytes { data: vec![0u8; n], read_only: false }
}

fn extent(logical_block: u32, length: u16, physical_block: u64) -> Extent {
    Extent { logical_block, length, physical_block, uninitialized: false }
}

// -- fields and checksums ---------------------------------------------------

#[test]
fn fields_are_stored_low_byte_first_unless_they_are_the_journals() {
    let mut b = vec![0u8; 8];
    set_u16(&mut b, 0, 0x1234);
    set_u32(&mut b, 2, 0x89AB_CDEF);
    assert_eq!(b, vec![0x34, 0x12, 0xEF, 0xCD, 0xAB, 0x89, 0, 0]);
    assert_eq!((get_u16(&b, 0), get_u32(&b, 2)), (0x1234, 0x89AB_CDEF));
    set_be32(&mut b, 4, 0x0102_0304);
    assert_eq!(&b[4..], &[1, 2, 3, 4]);
    assert_eq!((get_be16(&b, 4), get_be32(&b, 4)), (0x0102, 0x0102_0304));
    overlay(&mut b, 1, &[7, 7]);
    assert_eq!(&b[..4], &[0x34, 7, 7, 0xCD]);
}

#[test]
fn crc32c_of_the_check_string_is_the_published_one() {
    assert_eq!(!linux_crc32c(!0, b"123456789"), 0xE306_9283);
    assert_eq!(linux_crc32c(7, b""), 7);
    assert_eq!(linux_crc32c(linux_crc32c(!0, b"1234"), b"56789"), linux_crc32c(!0, b"123456789"));
}

#[test]
fn crc16_of_the_check_string_is_the_published_one() {
    assert_eq!(crc16(0, b"123456789"), 0xBB3D);
}

#[test]
fn siphash_of_the_published_vector() {
    let key: [u8; 16] = core::array::from_fn(|i| i as u8);
    let message: Vec<u8> = (0..15).collect();
    assert_eq!(siphash_2_4(&message, &key), 0xA129_CA61_49BE_45E5);
}

#[test]
fn folding_makes_case_irrelevant_and_is_done_once() {
    assert_eq!(fold_name(b"ReadMe.TXT"), fold_name(b"readme.txt"));
    assert_eq!(fold_name(&fold_name(b"ABC")), fold_name(b"ABC"));
    assert_ne!(fold_name(b"a"), fold_name(b"b"));
}

#[test]
fn a_stamped_record_verifies_and_a_changed_one_does_not() {
    let csum = Checksummer { seed: 0x1357_9BDF, enabled: true };
    let mut raw: Vec<u8> = (0..=255u8).collect();
    raw[0x80..0x82].copy_from_slice(&32u16.to_le_bytes());
    csum.stamp_inode(12, 5, &mut raw);
    assert!(csum.verify_inode(12, 5, &raw));
    assert!(!csum.verify_inode(13, 5, &raw));
    raw[9] ^= 1;
    assert!(!csum.verify_inode(12, 5, &raw));
    let off = Checksummer { seed: 0, enabled: false };
    assert!(off.verify_inode(12, 5, &raw));
}

#[test]
fn a_stamped_node_verifies() {
    let csum = Checksummer { seed: 99, enabled: true };
    let h = ExtentHeader { magic: 0xF30A, entries: 0, max: 84, depth: 0, generation: 0 };
    let mut block = build_root(&h, &[extent(0, 3, 50)], 1024);
    csum.patch_extent_tail(11, 2, &mut block);
    assert!(csum.verify_extent_tail(11, 2, &block));
    block[20] ^= 0x80;
    assert!(!csum.verify_extent_tail(11, 2, &block));
}

#[test]
fn a_counter_stops_at_zero_and_keeps_its_high_half() {
    let mut b = vec![0u8; 8];
    patch_counter_u32(&mut b, 0, Some(4), 0x1_0005);
    assert_eq!((get_u16(&b, 0), get_u16(&b, 4)), (5, 1));
    patch_counter_u32(&mut b, 0, Some(4), -0x2_0000);
    assert_eq!((get_u16(&b, 0), get_u16(&b, 4)), (0, 0));
}

#[test]
fn times_reach_past_2038_and_before_1970() {
    for secs in [-0x8000_0000i64, -1, 0, 0x7FFF_FFFF, 0x8000_0000, 0x1_8000_0000, 0x3_7FFF_FFFF] {
        let (base, extra) = encode_extra_time(secs);
        assert_eq!(decode_extra_time(base, extra), secs);
    }
}

#[test]
fn a_short_record_is_refused() {
    assert!(matches!(Inode::parse(&[0u8; 127]), Err(Error::Corrupt("inode buffer too small"))));
    let mut raw = vec![0u8; 256];
    raw[0x80..0x82].copy_from_slice(&129u16.to_le_bytes());
    assert!(matches!(Inode::parse(&raw), Err(Error::Corrupt("i_extra_isize exceeds inode size"))));
}

// -- bitmaps ----------------------------------------------------------------

#[test]
fn runs_of_bits_are_marked_found_and_released() {
    let mut bm = vec![0u8; 4];
    put_bits(&mut bm, 3, 10, true);
    assert_eq!(bm, vec![0xF8, 0x1F, 0, 0]);
    assert!(bit_is_set(&bm, 3) && bit_is_set(&bm, 12) && !bit_is_set(&bm, 13));
    assert_eq!(find_first_free(&bm, 3, 32), Some(13));
    assert_eq!(find_free_run(&bm, 0, 32, 4), Some(13));
    assert_eq!(find_free_run(&bm, 0, 32, 3), Some(0));
    assert_eq!(find_free_run(&bm, 0, 32, 20), None);
    put_bits(&mut bm, 3, 10, false);
    assert_eq!(bm, vec![0u8; 4]);
}

// -- directory blocks -------------------------------------------------------

/// One free record, and behind it the one that holds the checksum.
fn empty_dir_block(n: usize) -> Vec<u8> {
    let mut b = vec![0u8; n];
    set_u16(&mut b, 4, n as u16 - 12);
    set_u16(&mut b, n - 8, 12);
    b[n - 5] = 0xDE;
    b
}

#[test]
fn entries_come_and_go_and_leave_the_others_alone() {
    let mut b = empty_dir_block(1024);
    for (ino, name) in [(11u32, "alpha"), (12, "beta"), (13, "gamma")] {
        add_entry_to_block(&mut b, ino, name.as_bytes(), DirEntryType::RegFile, true, 12).expect("add");
    }
    assert_eq!(find_in_block(&b, b"beta", true), Ok(Some(12)));
    assert_eq!(find_in_block(&b, b"delta", true), Ok(None));
    assert_eq!(remove_entry_from_block(&mut b, b"beta", true, 12), Ok(true));
    assert_eq!(remove_entry_from_block(&mut b, b"beta", true, 12), Ok(false));
    let left: Vec<(u32, Vec<u8>)> =
        parse_block(&b, true).expect("parse").into_iter().map(|r| (r.inode, r.name)).collect();
    assert_eq!(left, vec![(11, b"alpha".to_vec()), (13, b"gamma".to_vec())]);
    assert_eq!(remove_entry_from_block(&mut b, b"alpha", true, 12), Ok(true), "the first has none before it");
    assert_eq!(find_in_block(&b, b"gamma", true), Ok(Some(13)));
}

#[test]
fn a_block_without_types_keeps_none() {
    let mut b = vec![0u8; 1024];
    set_u16(&mut b, 4, 1024);
    add_entry_to_block(&mut b, 5, b"plain", DirEntryType::Directory, false, 0).expect("add");
    let r = &parse_block(&b, false).expect("parse")[0];
    assert_eq!((r.inode, r.name.clone(), r.file_type), (5, b"plain".to_vec(), 0));
}

#[test]
fn a_full_block_takes_no_more() {
    let mut b = empty_dir_block(1024);
    let mut n = 0u32;
    while add_entry_to_block(&mut b, 20 + n, format!("{n:0>100}").as_bytes(), DirEntryType::RegFile, true, 12).is_ok() {
        n += 1;
    }
    assert_eq!(n, 9, "records of 108 bytes in 1012");
    assert_eq!(
        add_entry_to_block(&mut b, 99, &[b'x'; 100], DirEntryType::RegFile, true, 12),
        Err(Error::OutOfBounds)
    );
    add_entry_to_block(&mut b, 99, b"tiny", DirEntryType::RegFile, true, 12).expect("the slack still has room");
}

#[test]
fn records_that_do_not_chain_are_refused() {
    let mut b = empty_dir_block(1024);
    set_u16(&mut b, 4, 10);
    assert!(matches!(parse_block(&b, true), Err(Error::CorruptDirEntry("directory record length invalid"))));
    set_u16(&mut b, 4, 2048);
    assert!(matches!(find_in_block(&b, b"x", true), Err(Error::CorruptDirEntry("directory record overruns the block"))));
    set_u16(&mut b, 4, 12);
    b[6] = 200;
    assert!(matches!(
        only_dots_in_block(&b, true),
        Err(Error::CorruptDirEntry("directory name overruns its record"))
    ));
}

// -- extents ----------------------------------------------------------------

#[test]
fn an_inserted_extent_maps_and_the_others_stay() {
    let dev = memory(4096);
    let root = tree_root(&[extent(0, 4, 100), extent(10, 2, 200)]);
    let after = match insert_into_leaf(&root, extent(4, 3, 104)).expect("insert") {
        LeafInsert::Written(v) => v,
        LeafInsert::Full => panic!("there was room"),
    };
    let all = collect_all(&after, &dev, 1024).expect("collect");
    assert_eq!(all, vec![extent(0, 7, 104 - 4), extent(10, 2, 200)], "neighbours were merged");
    assert_eq!(map_logical(&after, &dev, 1024, 6), Ok(Some(106)));
    assert_eq!(map_logical(&after, &dev, 1024, 7), Ok(None));
    assert_eq!(lookup(&after, &dev, 1024, 11).expect("lookup"), Some(extent(10, 2, 200)));
    assert!(matches!(
        insert_into_leaf(&after, extent(6, 1, 300)),
        Err(Error::CorruptExtentTree("extent overlaps existing"))
    ));
}

#[test]
fn an_unwritten_extent_is_nowhere() {
    let dev = memory(4096);
    let root = tree_root(&[Extent { uninitialized: true, ..extent(0, 4, 100) }]);
    assert_eq!(map_logical(&root, &dev, 1024, 2), Ok(None));
    assert!(lookup(&root, &dev, 1024, 2).expect("lookup").expect("found").uninitialized);
}

#[test]
fn a_split_extent_maps_as_before() {
    let dev = memory(4096);
    let root = tree_root(&[extent(0, 8, 100)]);
    let muts = plan_split_extent(&root, 0, 3).expect("split");
    let bytes = match &muts[0] {
        ExtentMutation::WriteRoot { bytes } => bytes.clone(),
        other => panic!("expected the root, got {other:?}"),
    };
    assert_eq!(collect_all(&bytes, &dev, 1024).expect("collect"), vec![extent(0, 3, 100), extent(3, 5, 103)]);
}

#[test]
fn shrinking_keeps_the_front_and_frees_the_rest() {
    let dev = memory(4096);
    let root = tree_root(&[extent(0, 8, 100), extent(20, 4, 300)]);
    let plan = plan_truncate_shrink(5 * 1024 + 1, &root, 1024).expect("plan");
    assert_eq!(collect_all(&plan.root, &dev, 1024).expect("collect"), vec![extent(0, 6, 100)]);
    let mut freed = plan.freed.clone();
    freed.sort();
    assert_eq!(freed, vec![(106, 2), (300, 4)]);
}

#[test]
fn a_root_that_is_no_node_is_refused() {
    assert!(matches!(ExtentHeader::parse(&[0u8; 60]), Err(Error::CorruptExtentTree("bad extent magic"))));
    assert!(matches!(ExtentHeader::parse(&[0u8; 8]), Err(Error::CorruptExtentTree("extent node too short"))));
}

// -- block pointers ---------------------------------------------------------

#[test]
fn pointers_lead_to_every_block_of_the_run() {
    let mut dev = memory(1024 * 1024);
    let n = 12 + 256 + 3;
    assert_eq!(count_indirect_blocks(n, 1024), 1 + 2);
    let plan = plan_contiguous(n, 300, 20, 1024);
    for (block, bytes) in &plan.writes {
        dev.write_at(block * 1024, bytes).expect("write");
    }
    assert_eq!(plan.writes.len(), 3);
    for l in [0, 11, 12, 100, 267, 268, 270u64] {
        assert_eq!(lookup_indirect(&plan.area, &dev, 1024, l), Ok(Some(300 + l)));
    }
    let held = collect_for_free(&plan.area, &dev, 1024, n).expect("collect");
    assert_eq!(held.data, (300..300 + n).collect::<Vec<u64>>());
    let mut meta = held.meta.clone();
    meta.sort();
    assert_eq!(meta, vec![20, 21, 22]);
}

// -- the journal ------------------------------------------------------------

#[test]
fn a_revoked_write_is_dropped_and_a_later_one_is_not() {
    let entry = |transaction: u32, fs_block: u64| ReplayEntry { transaction, fs_block, journal_block: 1, flags: 0 };
    let mut plan = ReplayPlan {
        writes: vec![entry(1, 50), entry(2, 50), entry(3, 50), entry(1, 60)],
        revoked: vec![Revoke { block: 50, sequence: 2 }],
        last_commit: 3,
    };
    plan.filter_revoked();
    assert_eq!(plan.writes, vec![entry(3, 50), entry(1, 60)]);
}

#[test]
fn the_recovery_flag_goes_up_and_down() {
    let mut sb = vec![0u8; 1024];
    set_u32(&mut sb, 0x60, 0x42);
    set_needs_recovery_in(&mut sb, true);
    assert_eq!(get_u32(&sb, 0x60), 0x46);
    set_needs_recovery_in(&mut sb, false);
    assert_eq!(get_u32(&sb, 0x60), 0x42);
}

#[test]
fn a_block_outside_the_volume_has_no_place() {
    assert_eq!(byte_offset_in(3, 10, 1024, 10 * 1024), Ok(3072));
    assert!(byte_offset_in(10, 10, 1024, 1 << 20).is_err());
    assert!(byte_offset_in(9, 10, 1024, 9 * 1024).is_err());
}

#[test]
fn a_journal_superblock_is_read_high_byte_first() {
    let mut b = vec![0u8; 1024];
    for (i, w) in [0xC03B_3998u32, 4, 1, 4096, 1024, 1, 77, 0].iter().enumerate() {
        b[4 * i..4 * i + 4].copy_from_slice(&w.to_be_bytes());
    }
    let jsb = JournalSuperblock::parse(&b).expect("parse");
    assert!(jsb.is_clean(), "a log that starts nowhere is empty");
    b[28..32].copy_from_slice(&1u32.to_be_bytes());
    assert!(!JournalSuperblock::parse(&b).expect("parse").is_clean());
    b[0] = 0;
    assert!(JournalSuperblock::parse(&b).is_err());
}

// -- extended attributes ----------------------------------------------------

#[test]
fn attributes_laid_out_in_a_region_or_a_block_read_back() {
    let mut attrs = Vec::new();
    set_attr(&mut attrs, 1, b"a", b"first", false);
    set_attr(&mut attrs, 1, b"b", b"", false);
    set_attr(&mut attrs, 1, b"a", b"second", false);
    assert_eq!(attrs.len(), 2);
    let region = write_region(&attrs, 100).expect("it fits");
    let back = read_region(&region).expect("read");
    let i = find_attr(&back, 1, b"a").expect("found");
    assert_eq!(back[i].value, b"second".to_vec());
    assert_eq!(find_attr(&back, 2, b"a"), None);
    let block = write_block_attrs(&attrs, 1024).expect("it fits");
    assert_eq!(read_block_attrs(&block).expect("read").len(), 2);
    assert!(write_region(&[make_attr(1, b"n", &[0u8; 100])], 100).is_none());
}

#[test]
fn a_region_edited_in_place_reads_back() {
    let mut region = vec![0u8; 96];
    plan_set_in_inode_region(&mut region, "user.k", b"v1").expect("set");
    plan_set_in_inode_region(&mut region, "user.k", b"v2").expect("set again");
    let all = read_region(&region).expect("read");
    assert_eq!((all.len(), all[0].value.clone()), (1, b"v2".to_vec()));
    assert!(matches!(plan_remove_in_inode_region(&mut region, "user.k"), Ok(RemoveOutcome::Removed)));
    assert!(matches!(plan_remove_in_inode_region(&mut region, "user.k"), Ok(RemoveOutcome::NotFound)));
}

#[test]
fn names_are_told_apart_by_their_prefix() {
    assert_eq!(split_name(b"user.x"), Ok((1, b"x".to_vec())));
    assert_eq!(split_name(b"trusted.y"), Ok((4, b"y".to_vec())));
    assert_eq!(split_name(b"security.z"), Ok((6, b"z".to_vec())));
    assert!(split_name(b"other.z").is_err());
}

// -- formatting -------------------------------------------------------------

#[test]
fn identifiers_are_of_the_random_kind() {
    let id = uuid_v4([0xFF; 16]);
    assert_eq!((id[6] >> 4, id[8] >> 6), (4, 2));
    let a = uuid_from_seed(1);
    assert_eq!((a[6] >> 4, a[8] >> 6), (4, 2));
    assert_ne!(a, uuid_from_seed(2));
}

#[test]
fn block_sizes_are_powers_of_two_from_1024_to_65536() {
    for bs in [1024, 2048, 4096, 8192, 16384, 32768, 65536] {
        assert!(is_valid_block_size(bs));
    }
    for bs in [0, 1, 512, 1023, 3000, 131072] {
        assert!(!is_valid_block_size(bs));
    }
}

#[test]
fn a_volume_too_small_or_odd_is_not_made() {
    let mut dev = memory(1 << 20);
    assert!(format_filesystem(&mut dev, None, [0; 16], 1 << 20, 3000).is_err());
    assert!(format_filesystem(&mut dev, None, [0; 16], 8 * 1024, 1024).is_err());
    assert!(format_filesystem(&mut dev, None, [0; 16], 1 << 21, 1024).is_err(), "the device is shorter");
}

#[test]
fn a_long_label_is_cut() {
    let mut dev = memory(16 << 20);
    format_filesystem(&mut dev, Some("a label much too long"), [0; 16], 16 << 20, 4096).expect("format");
    assert_eq!(&dev.data[1024 + 0x78..1024 + 0x88], b"a label much too");
}

// -- what hosts are given ---------------------------------------------------

#[test]
fn mode_bits_tell_the_kind() {
    let kinds: Vec<u32> = [0o100000u16, 0o040000, 0o120000, 0o020000, 0o060000, 0o010000, 0o140000, 0]
        .iter()
        .map(|&m| mode_to_file_type(m).code())
        .collect();
    assert_eq!(kinds, vec![1, 2, 7, 3, 4, 5, 6, 0]);
}

#[test]
fn text_is_cut_to_fit_with_its_end() {
    assert_eq!(cut_with_nul(b"hello", 10), b"hello\0".to_vec());
    assert_eq!(cut_with_nul(b"hello", 3), b"he\0".to_vec());
    assert_eq!(cut_with_nul(b"hello", 1), b"\0".to_vec());
    let names = vec![b"user.a".to_vec(), b"user.b".to_vec()];
    assert_eq!(pack_names(&names, 100), b"user.a\0user.b\0".to_vec());
    assert_eq!(pack_names(&names, 10), b"user.a\0".to_vec());
}
