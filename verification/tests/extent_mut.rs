use fs_ext4::extent::{Extent, ExtentHeader, EXT4_EXT_MAGIC};
use fs_ext4::extent_mut::{
    build_root, plan_free_extent, plan_insert_extent, plan_merge_adjacent, plan_split_extent, read_leaf_entries,
    ExtentMutation,
};
use fs_ext4::Error;

fn mk_root(extents: &[Extent]) -> Vec<u8> {
    let header = ExtentHeader {
        magic: EXT4_EXT_MAGIC,
        entries: extents.len() as u16,
        max: 4,
        depth: 0,
        generation: 0,
    };
    build_root(&header, extents, 60)
}

fn ext(log: u32, len: u16, phys: u64, uninit: bool) -> Extent {
    Extent {
        logical_block: log,
        length: len,
        physical_block: phys,
        uninitialized: uninit,
    }
}

fn read_back(bytes: &[u8]) -> Vec<Extent> {
    read_leaf_entries(bytes).unwrap().1
}

#[test]
fn insert_into_empty_root() {
    let root = mk_root(&[]);
    let muts = plan_insert_extent(&root, ext(0, 10, 1000, false)).unwrap();
    assert_eq!(muts.len(), 1);
    let ExtentMutation::WriteRoot { bytes } = &muts[0] else {
        panic!("expected WriteRoot");
    };
    let back = read_back(bytes);
    assert_eq!(back.len(), 1);
    assert_eq!(back[0].logical_block, 0);
    assert_eq!(back[0].length, 10);
}

#[test]
fn insert_sorted_ordering() {
    let root = mk_root(&[ext(100, 5, 2000, false)]);
    let muts = plan_insert_extent(&root, ext(0, 10, 1000, false)).unwrap();
    let ExtentMutation::WriteRoot { bytes } = &muts[0] else {
        panic!()
    };
    let back = read_back(bytes);
    assert_eq!(back[0].logical_block, 0);
    assert_eq!(back[1].logical_block, 100);
}

#[test]
fn insert_merges_left_contiguous() {
    let root = mk_root(&[ext(0, 10, 1000, false)]);
    let muts = plan_insert_extent(&root, ext(10, 5, 1010, false)).unwrap();
    let ExtentMutation::WriteRoot { bytes } = &muts[0] else {
        panic!()
    };
    let back = read_back(bytes);
    assert_eq!(back.len(), 1, "should merge into single extent");
    assert_eq!(back[0].length, 15);
}

#[test]
fn insert_does_not_merge_across_uninit_boundary() {
    let root = mk_root(&[ext(0, 10, 1000, false)]);
    let muts = plan_insert_extent(&root, ext(10, 5, 1010, true)).unwrap();
    let ExtentMutation::WriteRoot { bytes } = &muts[0] else {
        panic!()
    };
    let back = read_back(bytes);
    assert_eq!(back.len(), 2);
    assert!(!back[0].uninitialized);
    assert!(back[1].uninitialized);
}

#[test]
fn insert_rejects_overlap() {
    let root = mk_root(&[ext(0, 10, 1000, false)]);
    let err = plan_insert_extent(&root, ext(5, 5, 2000, false)).unwrap_err();
    match err {
        Error::CorruptExtentTree(msg) => assert!(msg.contains("overlaps")),
        _ => panic!("wrong error kind"),
    }
}

#[test]
fn insert_fails_when_root_full_and_no_merge() {
    let root = mk_root(&[
        ext(0, 5, 1000, false),
        ext(100, 5, 2000, false),
        ext(200, 5, 3000, false),
        ext(300, 5, 4000, false),
    ]);
    let err = plan_insert_extent(&root, ext(500, 5, 5000, false)).unwrap_err();
    match err {
        Error::CorruptExtentTree(msg) => assert!(msg.contains("LEAF_FULL_NEEDS_PROMOTION")),
        _ => panic!("wrong error kind"),
    }
}

#[test]
fn split_extent_at_midpoint() {
    let root = mk_root(&[ext(0, 10, 1000, false)]);
    let muts = plan_split_extent(&root, 0, 4).unwrap();
    let ExtentMutation::WriteRoot { bytes } = &muts[0] else {
        panic!()
    };
    let back = read_back(bytes);
    assert_eq!(back.len(), 2);
    assert_eq!(back[0].logical_block, 0);
    assert_eq!(back[0].length, 4);
    assert_eq!(back[0].physical_block, 1000);
    assert_eq!(back[1].logical_block, 4);
    assert_eq!(back[1].length, 6);
    assert_eq!(back[1].physical_block, 1004);
}

#[test]
fn split_rejects_boundary_point() {
    let root = mk_root(&[ext(0, 10, 1000, false)]);
    assert!(plan_split_extent(&root, 0, 0).is_err());
    assert!(plan_split_extent(&root, 0, 10).is_err());
}

#[test]
fn merge_adjacent_contiguous_pair() {
    let root = mk_root(&[
        ext(0, 5, 1000, false),
        ext(5, 5, 1005, false),
    ]);
    let muts = plan_merge_adjacent(&root, 0).unwrap();
    let ExtentMutation::WriteRoot { bytes } = &muts[0] else {
        panic!()
    };
    let back = read_back(bytes);
    assert_eq!(back.len(), 1);
    assert_eq!(back[0].length, 10);
}

#[test]
fn merge_noop_when_not_contiguous() {
    let root = mk_root(&[
        ext(0, 5, 1000, false),
        ext(5, 5, 5000, false),
    ]);
    let muts = plan_merge_adjacent(&root, 0).unwrap();
    assert!(muts.is_empty(), "no-op when not contiguous");
}

#[test]
fn free_extent_emits_physical_run() {
    let root = mk_root(&[ext(0, 5, 1000, false), ext(10, 3, 2000, false)]);
    let muts = plan_free_extent(&root, 0).unwrap();
    assert_eq!(muts.len(), 2);
    match &muts[1] {
        ExtentMutation::FreePhysicalRun { start, len } => {
            assert_eq!(*start, 1000);
            assert_eq!(*len, 5);
        }
        _ => panic!("expected FreePhysicalRun"),
    }
    let ExtentMutation::WriteRoot { bytes } = &muts[0] else {
        panic!()
    };
    let back = read_back(bytes);
    assert_eq!(back.len(), 1);
    assert_eq!(back[0].logical_block, 10);
}

#[test]
fn multi_level_tree_refused_cleanly() {
    let mut buf = vec![0u8; 60];
    buf[0..2].copy_from_slice(&EXT4_EXT_MAGIC.to_le_bytes());
    buf[2..4].copy_from_slice(&0u16.to_le_bytes());
    buf[4..6].copy_from_slice(&4u16.to_le_bytes());
    buf[6..8].copy_from_slice(&1u16.to_le_bytes());
    let err = plan_insert_extent(&buf, ext(0, 1, 1000, false)).unwrap_err();
    match err {
        Error::CorruptExtentTree(msg) => assert!(msg.contains("multi-level")),
        _ => panic!("wrong error kind"),
    }
}
