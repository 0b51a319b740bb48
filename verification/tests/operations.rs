use fs_ext4::block_io::Bytes;
use fs_ext4::capi::fs_ext4_file_type_t;
use fs_ext4::error::{EEXIST, EINVAL, EIO, EISDIR, ENAMETOOLONG, ENOENT, ENOSPC, ENOTDIR, ENOTEMPTY, ENOTSUP, EROFS};
use fs_ext4::file_io::read_with_raw;
use fs_ext4::fsck::{audit_with_callbacks, Anomaly, FsckPhase};
use fs_ext4::inode::{FL_EXTENTS, FL_INDEX};
use fs_ext4::journal_apply::replay_if_dirty;
use fs_ext4::mkfs::format_filesystem;
use fs_ext4::volume::BlockBuffer;
use fs_ext4::xattr_ops::{get_resolved, read_all_resolved};
use fs_ext4::{Error, Filesystem};

const BS: usize = 4096;
const VOL: u64 = 16 * 1024 * 1024;
const NOW: u32 = 1_700_000_000;

fn device(size: u64, bs: u32) -> Bytes {
    let mut dev = Bytes { data: vec![0u8; size as usize], read_only: false };
    format_filesystem(&mut dev, Some("scratch"), [0x11; 16], size, bs).expect("format");
    dev
}

fn volume() -> Filesystem<Bytes> {
    Filesystem::mount(device(VOL, BS as u32), NOW).expect("mount")
}

/// What is on the device now, mounted afresh.
fn again(fs: Filesystem<Bytes>) -> Filesystem<Bytes> {
    Filesystem::mount(fs.dev, NOW).expect("mount again")
}

fn pattern(n: usize, salt: u8) -> Vec<u8> {
    (0..n).map(|i| (i as u8).wrapping_mul(31).wrapping_add((i >> 8) as u8).wrapping_add(salt)).collect()
}

fn names(fs: &Filesystem<Bytes>, path: &str) -> Vec<String> {
    let mut v: Vec<String> = fs
        .read_dir(path.as_bytes())
        .expect("read_dir")
        .iter()
        .map(|r| String::from_utf8(r.name.clone()).expect("utf8"))
        .collect();
    v.sort();
    v
}

fn read(fs: &Filesystem<Bytes>, path: &str, offset: u64, length: usize) -> Vec<u8> {
    fs.read_file(path.as_bytes(), offset, length).expect("read_file")
}

fn audit_is_clean(fs: &Filesystem<Bytes>) {
    let report = fs.audit(1000, 1000).expect("audit");
    assert!(report.is_clean(), "{:?}", report.anomalies);
}

// -- contents ---------------------------------------------------------------

#[test]
fn replaced_contents_read_back() {
    let mut fs = volume();
    fs.apply_create("/f", 0o644, NOW, 1).expect("create");
    for n in [0usize, 1, BS - 1, BS, BS + 1, 5 * BS + 7] {
        let data = pattern(n, n as u8);
        assert_eq!(fs.write_file("/f", &data, NOW), Ok(n as u64));
        assert_eq!(read(&fs, "/f", 0, n + 100), data);
        assert_eq!(fs.stat(b"/f").expect("stat").size, n as u64);
    }
    let fs = again(fs);
    assert_eq!(read(&fs, "/f", 0, 6 * BS), pattern(5 * BS + 7, (5 * BS + 7) as u8));
    audit_is_clean(&fs);
}

#[test]
fn a_part_of_the_contents_reads_back_from_any_byte() {
    let mut fs = volume();
    let data = pattern(3 * BS + 50, 9);
    fs.apply_create("/f", 0o644, NOW, 1).expect("create");
    fs.write_file("/f", &data, NOW).expect("write");
    assert_eq!(read(&fs, "/f", 4000, 300), data[4000..4300].to_vec());
    assert_eq!(read(&fs, "/f", 3 * BS as u64, 1000), data[3 * BS..].to_vec());
    assert_eq!(read(&fs, "/f", data.len() as u64, 10), Vec::<u8>::new());
    assert_eq!(read(&fs, "/f", 7, 0), Vec::<u8>::new());
}

#[test]
fn positional_writes_read_back_and_leave_the_rest() {
    let mut fs = volume();
    let mut want = pattern(3 * BS, 1);
    fs.apply_create("/f", 0o644, NOW, 1).expect("create");
    fs.write_file("/f", &want, NOW).expect("write");
    let patch = pattern(BS + 10, 200);
    assert_eq!(fs.apply_pwrite("/f", 100, &patch, NOW), Ok(3 * BS as u64));
    want[100..100 + patch.len()].copy_from_slice(&patch);
    assert_eq!(read(&fs, "/f", 0, 4 * BS), want);

    assert_eq!(fs.apply_pwrite("/f", 5 * BS as u64 + 3, b"tail", NOW), Ok(5 * BS as u64 + 7));
    want.resize(5 * BS + 3, 0);
    want.extend_from_slice(b"tail");
    let fs = again(fs);
    assert_eq!(read(&fs, "/f", 0, 6 * BS), want);
    audit_is_clean(&fs);
}

#[test]
fn a_positional_write_longer_than_a_transaction_reads_back() {
    let mut fs = Filesystem::mount(device(8 * 1024 * 1024, 1024), NOW).expect("mount");
    let data = pattern(300 * 1024 + 5, 77);
    fs.apply_create("/big", 0o644, NOW, 1).expect("create");
    assert_eq!(fs.apply_pwrite("/big", 11, &data, NOW), Ok(data.len() as u64 + 11));
    assert_eq!(read(&fs, "/big", 11, data.len()), data);
    assert_eq!(read(&fs, "/big", 0, 11), vec![0u8; 11]);
}

#[test]
fn scattered_writes_grow_the_tree_and_all_read_back() {
    let mut fs = volume();
    fs.apply_create("/f", 0o644, NOW, 1).expect("create");
    for i in 0..40u64 {
        fs.apply_pwrite("/f", i * 3 * BS as u64, &pattern(100, i as u8), NOW).expect("pwrite");
        fs.apply_create(&format!("/spacer{i}"), 0o644, NOW, 2).expect("create");
        fs.write_file(&format!("/spacer{i}"), b"x", NOW).expect("write");
    }
    let fs = again(fs);
    for i in 0..40u64 {
        assert_eq!(read(&fs, "/f", i * 3 * BS as u64, 100), pattern(100, i as u8));
        if i < 39 {
            assert_eq!(read(&fs, "/f", (i * 3 + 1) * BS as u64, 8), vec![0u8; 8], "a hole reads as zeros");
        }
    }
    audit_is_clean(&fs);
}

#[test]
fn writes_from_the_end_of_a_file_to_its_front_all_read_back() {
    let mut fs = volume();
    fs.apply_create("/f", 0o644, NOW, 1).expect("create");
    for i in (0..30u64).rev() {
        fs.apply_pwrite("/f", i * 2 * BS as u64, &pattern(50, i as u8), NOW).expect("pwrite");
    }
    let fs = again(fs);
    for i in 0..30u64 {
        assert_eq!(read(&fs, "/f", i * 2 * BS as u64, 50), pattern(50, i as u8));
    }
    audit_is_clean(&fs);
}

#[test]
fn an_empty_write_changes_nothing() {
    let mut fs = volume();
    fs.apply_create("/f", 0o644, NOW, 1).expect("create");
    fs.write_file("/f", b"abc", NOW).expect("write");
    let before = fs.dev.data.clone();
    assert_eq!(fs.apply_pwrite("/f", 10, b"", NOW), Ok(3));
    assert_eq!(fs.dev.data, before);
}

#[test]
fn writes_are_refused_where_they_cannot_be_made() {
    let mut fs = volume();
    fs.apply_create("/f", 0o644, NOW, 1).expect("create");
    fs.apply_mkdir("/d", 0o755, NOW, 2).expect("mkdir");
    assert_eq!(fs.apply_pwrite("/nowhere", 0, b"x", NOW), Err(Error::NotFound));
    assert_eq!(
        fs.apply_pwrite("/d", 0, b"x", NOW),
        Err(Error::InvalidArgument("pwrite target is not a regular file"))
    );
    assert_eq!(
        fs.apply_pwrite("/f", u64::MAX, b"xy", NOW),
        Err(Error::InvalidArgument("pwrite: offset+len overflow"))
    );
    assert_eq!(fs.write_file("/d", b"x", NOW), Err(Error::IsADirectory));
    fs.dev.read_only = true;
    let before = fs.dev.data.clone();
    assert_eq!(fs.apply_pwrite("/f", 0, b"x", NOW), Err(Error::ReadOnly));
    assert_eq!(fs.write_file("/f", b"x", NOW), Err(Error::ReadOnly));
    assert_eq!(fs.apply_create("/g", 0o644, NOW, 3), Err(Error::ReadOnly));
    assert_eq!(fs.dev.data, before, "a refused write leaves the volume as it was");
}

#[test]
fn a_full_volume_says_so_and_stays_whole() {
    let mut fs = Filesystem::mount(device(8 * 1024 * 1024, 1024), NOW).expect("mount");
    fs.apply_create("/f", 0o644, NOW, 1).expect("create");
    let huge = vec![7u8; 16 * 1024 * 1024];
    let r = fs.write_file("/f", &huge, NOW);
    assert!(matches!(r, Err(Error::Corrupt(_)) | Err(Error::NoSpaceLeftOnDevice)), "{r:?}");
    let fs = again(fs);
    assert_eq!(fs.stat(b"/f").expect("stat").size, 0);
    audit_is_clean(&fs);
}

#[test]
fn truncation_keeps_the_front_and_growth_reads_as_zeros() {
    let mut fs = volume();
    let data = pattern(4 * BS, 5);
    fs.apply_create("/f", 0o644, NOW, 1).expect("create");
    fs.write_file("/f", &data, NOW).expect("write");
    fs.truncate(b"/f", BS as u64, NOW).expect("shrink");
    assert_eq!(read(&fs, "/f", 0, 4 * BS), data[..BS].to_vec());
    fs.truncate(b"/f", 2 * BS as u64, NOW).expect("grow");
    let mut want = data[..BS].to_vec();
    want.resize(2 * BS, 0);
    assert_eq!(read(&fs, "/f", 0, 4 * BS), want);
    assert_eq!(fs.truncate(b"/", 0, NOW), Err(Error::IsADirectory));
    assert_eq!(fs.truncate(b"/none", 0, NOW), Err(Error::NotFound));
    let ino = fs.lookup_path(b"/f").expect("lookup");
    assert!(matches!(fs.apply_truncate_shrink(ino, 3 * BS as u64), Err(Error::InvalidArgument(_))));
    assert!(matches!(fs.apply_truncate_grow(ino, 1, NOW), Err(Error::InvalidArgument(_))));
}

#[test]
fn preallocated_space_is_taken_and_reads_as_zeros() {
    let mut fs = volume();
    fs.apply_create("/f", 0o644, NOW, 1).expect("create");
    let ino = fs.lookup_path(b"/f").expect("lookup");
    fs.apply_fallocate_keep_size(ino, 0, 4 * BS as u64, NOW).expect("fallocate");
    let (inode, _) = fs.read_inode_verified(ino).expect("inode");
    assert_eq!(inode.size, 0, "the size stays");
    assert_eq!(inode.blocks, 4 * (BS as u64 / 512));
    fs.apply_truncate_grow(ino, 2 * BS as u64, NOW).expect("grow");
    assert_eq!(read(&fs, "/f", 0, 3 * BS), vec![0u8; 2 * BS]);
}

#[test]
fn a_punched_hole_reads_as_zeros_and_gives_its_blocks_back() {
    let mut fs = volume();
    let mut want = pattern(6 * BS, 3);
    fs.apply_create("/f", 0o644, NOW, 1).expect("create");
    fs.write_file("/f", &want, NOW).expect("write");
    let ino = fs.lookup_path(b"/f").expect("lookup");
    fs.apply_fallocate_punch_hole(ino, 2 * BS as u64, 2 * BS as u64, NOW).expect("punch");
    for b in &mut want[2 * BS..4 * BS] {
        *b = 0;
    }
    assert_eq!(read(&fs, "/f", 0, 6 * BS), want);
    let (inode, _) = fs.read_inode_verified(ino).expect("inode");
    assert_eq!(inode.blocks, 4 * (BS as u64 / 512));
    assert_eq!(inode.size, 6 * BS as u64);
}

#[test]
fn a_zeroed_range_reads_as_zeros() {
    let mut fs = volume();
    let mut want = pattern(4 * BS, 8);
    fs.apply_create("/f", 0o644, NOW, 1).expect("create");
    fs.write_file("/f", &want, NOW).expect("write");
    let ino = fs.lookup_path(b"/f").expect("lookup");
    fs.apply_fallocate_zero_range(ino, BS as u64, 2 * BS as u64, NOW).expect("zero");
    for b in &mut want[BS..3 * BS] {
        *b = 0;
    }
    assert_eq!(read(&fs, "/f", 0, 4 * BS), want);
}

#[test]
fn a_pointer_mapped_file_is_written_block_by_block() {
    let mut fs = volume();
    let ino = fs.apply_create("/old", 0o644, NOW, 1).expect("create");
    let (inode, mut raw) = fs.read_inode_verified(ino).expect("inode");
    raw[0x20..0x24].copy_from_slice(&0u32.to_le_bytes());
    for b in &mut raw[0x28..0x64] {
        *b = 0;
    }
    fs.finalize_inode_raw(ino, inode.generation, &mut raw);
    fs.write_inode_raw(ino, &raw).expect("write record");
    let data = pattern(20 * BS + 17, 44);
    assert_eq!(fs.write_file("/old", &data, NOW), Ok(data.len() as u64));
    let (inode, _) = fs.read_inode_verified(ino).expect("inode");
    assert_eq!(inode.size, data.len() as u64);
    assert_eq!(inode.blocks, 22 * (BS as u64 / 512), "twenty-one data blocks and one pointer block");
    let mut got = Vec::new();
    for l in 0..21u64 {
        let at = fs.map_inode_logical(&inode, l).expect("map").expect("mapped");
        got.extend_from_slice(&fs.read_block(at).expect("block"));
    }
    assert_eq!(&got[..data.len()], &data[..]);
    assert!(got[data.len()..].iter().all(|&b| b == 0));
    assert_eq!(
        fs.apply_pwrite("/old", 0, b"x", NOW),
        Err(Error::InvalidArgument("pwrite: legacy (non-extents) inodes not supported in v1"))
    );
}

#[test]
fn removing_a_file_gives_back_what_writing_it_took() {
    let mut fs = volume();
    fs.apply_create("/keep", 0o644, NOW, 1).expect("create");
    let fs = again(fs);
    let before = fs.volume_info();
    let mut fs = again(fs);
    fs.apply_create("/f", 0o644, NOW, 2).expect("create");
    fs.apply_pwrite("/f", 0, &pattern(10 * BS, 1), NOW).expect("pwrite");
    let mut fs = again(fs);
    let used = fs.volume_info();
    assert_eq!(used.free_blocks, before.free_blocks - 10);
    assert_eq!(used.free_inodes, before.free_inodes - 1);
    fs.apply_unlink("/f", NOW).expect("unlink");
    let fs = again(fs);
    let after = fs.volume_info();
    assert_eq!(after.free_blocks, before.free_blocks);
    assert_eq!(after.free_inodes, before.free_inodes);
    assert_eq!(after.total_blocks, before.total_blocks);
}

#[test]
fn a_write_to_one_file_leaves_the_others() {
    let mut fs = volume();
    let (a, b) = (pattern(3 * BS, 3), pattern(2 * BS + 9, 4));
    fs.apply_create("/a", 0o644, NOW, 1).expect("create");
    fs.apply_create("/b", 0o644, NOW, 2).expect("create");
    fs.write_file("/a", &a, NOW).expect("write");
    fs.write_file("/b", &b, NOW).expect("write");
    for i in 0..40u64 {
        fs.apply_pwrite("/a", i * 3 * BS as u64 + 5, &pattern(BS, i as u8), NOW).expect("pwrite");
    }
    let fs = again(fs);
    assert_eq!(read(&fs, "/b", 0, b.len()), b);
    assert_eq!(read(&fs, "/a", 0, 5), a[..5].to_vec());
    for i in 0..40u64 {
        assert_eq!(read(&fs, "/a", i * 3 * BS as u64 + 5, BS), pattern(BS, i as u8));
    }
    audit_is_clean(&fs);
}

#[test]
fn what_was_cut_off_does_not_come_back() {
    let mut fs = volume();
    let ino = fs.apply_create("/a", 0o644, NOW, 1).expect("create");
    fs.apply_pwrite("/a", 0, b"hello", NOW).expect("pwrite");
    fs.apply_truncate_shrink(ino, 2).expect("shrink");
    fs.apply_truncate_grow(ino, 5, NOW).expect("grow");
    assert_eq!(read(&fs, "/a", 0, 10), vec![b'h', b'e', 0, 0, 0]);
    fs.apply_truncate_shrink(ino, 1).expect("shrink");
    fs.apply_pwrite("/a", 4, b"o", NOW).expect("pwrite");
    assert_eq!(read(&fs, "/a", 0, 10), vec![b'h', 0, 0, 0, b'o']);
    let data = pattern(2 * BS, 7);
    fs.write_file("/a", &data, NOW).expect("write");
    fs.apply_truncate_shrink(ino, BS as u64 + 10).expect("shrink");
    fs.apply_truncate_grow(ino, 3 * BS as u64, NOW).expect("grow");
    let fs = again(fs);
    let mut want = data[..BS + 10].to_vec();
    want.resize(3 * BS, 0);
    assert_eq!(read(&fs, "/a", 0, 3 * BS), want);
    audit_is_clean(&fs);
}

#[test]
fn blocks_past_the_end_are_given_back_with_the_file() {
    let mut fs = volume();
    let ino = fs.apply_create("/f", 0o644, NOW, 1).expect("create");
    let free = |fs: Filesystem<Bytes>| {
        let fs = again(fs);
        (fs.volume_info().free_blocks, fs)
    };
    let (before, mut fs) = free(fs);
    fs.apply_fallocate_keep_size(ino, 0, 8 * BS as u64, NOW).expect("preallocate");
    assert_eq!(fs.stat(b"/f").expect("stat").size, 0);
    let (taken, mut fs) = free(fs);
    assert_eq!(taken, before - 8);
    fs.write_file("/f", b"short", NOW).expect("write");
    let (one, mut fs) = free(fs);
    assert_eq!(one, before - 1);
    fs.write_file("/f", b"", NOW).expect("write");
    fs.apply_fallocate_keep_size(ino, 0, 8 * BS as u64, NOW).expect("preallocate");
    fs.apply_unlink("/f", NOW).expect("unlink");
    let (after, _) = free(fs);
    assert_eq!(after, before);
}

#[test]
fn a_file_with_pointers_gives_back_all_its_blocks() {
    let mut fs = volume();
    let ino = fs.apply_create("/f", 0o644, NOW, 1).expect("create");
    let (inode, mut raw) = fs.read_inode_verified(ino).expect("inode");
    raw[0x20..0x24].copy_from_slice(&(inode.flags & !FL_EXTENTS).to_le_bytes());
    raw[0x28..0x64].copy_from_slice(&[0u8; 60]);
    fs.finalize_inode_raw(ino, inode.generation, &mut raw);
    fs.write_inode_raw(ino, &raw).expect("write record");
    let mut fs = again(fs);
    let before = fs.volume_info().free_blocks;
    let data = pattern(20 * BS, 2);
    fs.write_file("/f", &data, NOW).expect("write");
    let mut fs = again(fs);
    assert_eq!(fs.volume_info().free_blocks, before - 21);
    fs.apply_unlink("/f", NOW).expect("unlink");
    let fs = again(fs);
    assert_eq!(fs.volume_info().free_blocks, before);
}

// -- names ------------------------------------------------------------------

#[test]
fn no_directory_moves_below_itself() {
    let mut fs = volume();
    let a = fs.apply_mkdir("/a", 0o755, NOW, 1).expect("mkdir");
    let b = fs.apply_mkdir("/a/b", 0o755, NOW, 2).expect("mkdir");
    fs.apply_mkdir("/c", 0o755, NOW, 3).expect("mkdir");
    for to in ["/a/x", "//a/x", "/c/../a/b/x", "/./a/b/x", "/a/b/../x"] {
        assert!(matches!(fs.apply_rename("/a", to, false, NOW), Err(Error::InvalidArgument(_))), "{to}");
    }
    assert_eq!((fs.lookup_path(b"/a"), fs.lookup_path(b"/a/b")), (Ok(a), Ok(b)));
    fs.apply_rename("/a", "/c/a", false, NOW).expect("rename");
    assert_eq!(fs.lookup_path(b"/c/a/b"), Ok(b));
    audit_is_clean(&again(fs));
}

#[test]
fn an_audit_finds_a_directory_with_the_wrong_parent() {
    let mut fs = volume();
    fs.apply_mkdir("/d", 0o755, NOW, 1).expect("mkdir");
    let e = fs.apply_mkdir("/d/e", 0o755, NOW, 2).expect("mkdir");
    let d = fs.lookup_path(b"/d").expect("lookup");
    let (inode, _) = fs.read_inode_verified(e).expect("inode");
    let p = fs.map_inode_logical(&inode, 0).expect("map").expect("a block");
    let at = p as usize * BS + 12;
    assert_eq!(fs.dev.data[at..at + 4], d.to_le_bytes());
    fs.dev.data[at..at + 4].copy_from_slice(&2u32.to_le_bytes());
    let report = fs.audit(100, 100).expect("audit");
    assert!(report.anomalies.contains(&Anomaly::WrongDotDot { dir_ino: e, claims: 2, actual_parent: d }));
    assert_eq!(report.anomalies_count as usize, report.anomalies.len());
}

#[test]
fn removing_a_new_directory_gives_back_what_it_took() {
    let books = |fs: &Filesystem<Bytes>| {
        let block = |n: u64| fs.dev.data[n as usize * BS..(n as usize + 1) * BS].to_vec();
        let groups = fs.groups.iter().map(|g| (block(g.block_bitmap), block(g.inode_bitmap))).collect::<Vec<_>>();
        let total = fs.volume_info();
        (groups, block(fs.sb.first_data_block as u64 + 1), total.free_blocks, total.free_inodes)
    };
    let links = |fs: &Filesystem<Bytes>| fs.read_inode_verified(2).expect("root").0.links_count;
    let mut fs = volume();
    fs.apply_mkdir("/d", 0o755, NOW, 1).expect("mkdir");
    fs.apply_rmdir("/d", NOW).expect("rmdir");
    let mut fs = again(fs);
    let (before, linked) = (books(&fs), links(&fs));
    fs.apply_mkdir("/e", 0o700, NOW, 2).expect("mkdir");
    let mut fs = again(fs);
    let made = books(&fs);
    assert!(made.0 != before.0 && made.1 != before.1);
    assert_eq!((made.2, made.3, links(&fs)), (before.2 - 1, before.3 - 1, linked + 1));
    fs.apply_rmdir("/e", NOW).expect("rmdir");
    let fs = again(fs);
    assert!(books(&fs) == before);
    assert_eq!(links(&fs), linked);
}

#[test]
fn a_new_directory_names_itself_and_its_parent() {
    let mut fs = volume();
    let d = fs.apply_mkdir("/d", 0o755, NOW, 1).expect("mkdir");
    let e = fs.apply_mkdir("/d/e", 0o755, NOW, 2).expect("mkdir");
    assert_eq!(fs.lookup_path(b"/d/e/."), Ok(e));
    assert_eq!(fs.lookup_path(b"/d/e/.."), Ok(d));
    assert_eq!(fs.lookup_path(b"/d/./e/../e"), Ok(e));
    assert_eq!(fs.lookup_path(b"/d/e/f"), Err(Error::NotFound));
    assert_eq!(names(&fs, "/d/e"), vec![".", ".."]);
}

#[test]
fn names_beside_the_one_that_changes_stay() {
    let mut fs = volume();
    fs.apply_mkdir("/d", 0o755, NOW, 1).expect("mkdir");
    let kept: Vec<u32> =
        (0..5u32).map(|i| fs.apply_create(&format!("/d/kept{i}"), 0o644, NOW, i).expect("create")).collect();
    let still = |fs: &Filesystem<Bytes>| {
        for i in 0..5usize {
            assert_eq!(fs.lookup_path(format!("/d/kept{i}").as_bytes()), Ok(kept[i]));
        }
    };
    let x = fs.apply_create("/d/x", 0o644, NOW, 9).expect("create");
    still(&fs);
    fs.apply_rename("/d/x", "/d/y", false, NOW).expect("rename");
    assert_eq!((fs.lookup_path(b"/d/x"), fs.lookup_path(b"/d/y")), (Err(Error::NotFound), Ok(x)));
    still(&fs);
    fs.apply_rename("/d/y", "/z", false, NOW).expect("rename");
    assert_eq!((fs.lookup_path(b"/d/y"), fs.lookup_path(b"/z")), (Err(Error::NotFound), Ok(x)));
    still(&fs);
    fs.apply_link("/z", "/d/w").expect("link");
    fs.apply_unlink("/z", NOW).expect("unlink");
    assert_eq!((fs.lookup_path(b"/z"), fs.lookup_path(b"/d/w")), (Err(Error::NotFound), Ok(x)));
    still(&fs);
    audit_is_clean(&fs);
}

#[test]
fn a_name_moved_over_another_takes_its_place() {
    let mut fs = volume();
    fs.apply_mkdir("/d", 0o755, NOW, 1).expect("mkdir");
    fs.apply_mkdir("/e", 0o755, NOW, 2).expect("mkdir");
    let a = fs.apply_create("/d/a", 0o644, NOW, 3).expect("create");
    let b = fs.apply_create("/e/b", 0o644, NOW, 4).expect("create");
    let c = fs.apply_create("/e/c", 0o644, NOW, 5).expect("create");
    fs.apply_link("/e/b", "/e/other").expect("link");
    fs.apply_rename("/d/a", "/e/b", true, NOW).expect("rename");
    assert_eq!((fs.lookup_path(b"/d/a"), fs.lookup_path(b"/e/b")), (Err(Error::NotFound), Ok(a)));
    assert_eq!((fs.lookup_path(b"/e/other"), fs.lookup_path(b"/e/c")), (Ok(b), Ok(c)));
    assert_eq!(fs.stat(b"/e/other").expect("stat").link_count, 1);
    let sub = fs.apply_mkdir("/d/sub", 0o755, NOW, 6).expect("mkdir");
    fs.apply_mkdir("/e/sub", 0o755, NOW, 7).expect("mkdir");
    let links = fs.stat(b"/e").expect("stat").link_count;
    fs.apply_rename("/d/sub", "/e/sub", true, NOW).expect("rename");
    assert_eq!((fs.lookup_path(b"/d/sub"), fs.lookup_path(b"/e/sub")), (Err(Error::NotFound), Ok(sub)));
    assert_eq!(fs.lookup_path(b"/e/sub/.."), fs.lookup_path(b"/e"));
    assert_eq!(fs.stat(b"/e").expect("stat").link_count, links);
    assert_eq!(fs.stat(b"/d").expect("stat").link_count, 2);
    audit_is_clean(&again(fs));
}

#[test]
fn a_name_that_is_entered_is_found_and_one_that_is_removed_is_not() {
    let mut fs = volume();
    let ino = fs.apply_create("/a", 0o640, NOW, 7).expect("create");
    assert_eq!(fs.lookup_path(b"/a"), Ok(ino));
    assert_eq!(fs.apply_create("/a", 0o640, NOW, 8), Err(Error::AlreadyExists));
    fs.apply_unlink("/a", NOW).expect("unlink");
    assert_eq!(fs.lookup_path(b"/a"), Err(Error::NotFound));
    assert_eq!(fs.apply_unlink("/a", NOW), Err(Error::NotFound));
    assert_eq!(names(&fs, "/"), vec![".", ".."]);
}

#[test]
fn a_directory_grows_to_hold_many_names() {
    let mut fs = volume();
    fs.apply_mkdir("/d", 0o755, NOW, 1).expect("mkdir");
    for i in 0..300u32 {
        fs.apply_create(&format!("/d/a-rather-long-name-number-{i:04}"), 0o644, NOW, i).expect("create");
    }
    let mut fs = again(fs);
    assert_eq!(names(&fs, "/d").len(), 302);
    for i in (0..300u32).step_by(2) {
        fs.apply_unlink(&format!("/d/a-rather-long-name-number-{i:04}"), NOW).expect("unlink");
    }
    let fs = again(fs);
    assert_eq!(names(&fs, "/d").len(), 152);
    assert!(fs.lookup_path(b"/d/a-rather-long-name-number-0001").is_ok());
    assert_eq!(fs.lookup_path(b"/d/a-rather-long-name-number-0002"), Err(Error::NotFound));
    audit_is_clean(&fs);
}

#[test]
fn a_directory_grows_for_names_of_every_kind() {
    let mut fs = volume();
    fs.apply_mkdir("/d", 0o755, NOW, 1).expect("mkdir");
    let first = fs.apply_create("/first", 0o644, NOW, 2).expect("create");
    for i in 0..60u32 {
        fs.apply_link("/first", &format!("/d/a-rather-long-name-for-a-link-number-{i:04}")).expect("link");
        fs.apply_mkdir(&format!("/d/a-rather-long-name-for-a-directory-{i:04}"), 0o755, NOW, i).expect("mkdir");
        let ino = fs.apply_create("/x", 0o644, NOW, i).expect("create");
        let to = format!("/d/a-rather-long-name-for-something-moved-{i:04}");
        fs.apply_rename("/x", &to, false, NOW).expect("rename");
        assert_eq!((fs.lookup_path(b"/x"), fs.lookup_path(to.as_bytes())), (Err(Error::NotFound), Ok(ino)));
        let next = format!("/d/a-rather-longer-name-for-something-moved-{i:04}");
        fs.apply_rename(&to, &next, false, NOW).expect("rename");
        assert_eq!((fs.lookup_path(to.as_bytes()), fs.lookup_path(next.as_bytes())), (Err(Error::NotFound), Ok(ino)));
    }
    let fs = again(fs);
    assert!(fs.stat(b"/d").expect("stat").size > BS as u64);
    assert_eq!(names(&fs, "/d").len(), 182);
    assert_eq!(fs.stat(b"/d").expect("stat").link_count, 62);
    assert_eq!(fs.stat(b"/first").expect("stat").link_count, 61);
    for i in 0..60u32 {
        assert_eq!(fs.lookup_path(format!("/d/a-rather-long-name-for-a-link-number-{i:04}").as_bytes()), Ok(first));
    }
    audit_is_clean(&fs);
}

#[test]
fn directories_count_their_links() {
    let mut fs = volume();
    let root_links = fs.stat(b"/").expect("stat").link_count;
    fs.apply_mkdir("/d", 0o755, NOW, 1).expect("mkdir");
    fs.apply_mkdir("/d/e", 0o700, NOW, 2).expect("mkdir");
    assert_eq!(fs.stat(b"/").expect("stat").link_count, root_links + 1);
    assert_eq!(fs.stat(b"/d").expect("stat").link_count, 3);
    assert_eq!(fs.stat(b"/d/e").expect("stat").link_count, 2);
    assert_eq!(fs.stat(b"/d/e").expect("stat").mode, 0o700);
    assert_eq!(fs.apply_rmdir("/d", NOW), Err(Error::DirectoryNotEmpty));
    fs.apply_rmdir("/d/e", NOW).expect("rmdir");
    assert_eq!(fs.stat(b"/d").expect("stat").link_count, 2);
    fs.apply_rmdir("/d", NOW).expect("rmdir");
    assert_eq!(fs.stat(b"/").expect("stat").link_count, root_links);
    let fs = again(fs);
    audit_is_clean(&fs);
}

#[test]
fn the_wrong_kind_of_file_is_refused() {
    let mut fs = volume();
    fs.apply_create("/f", 0o644, NOW, 1).expect("create");
    fs.apply_mkdir("/d", 0o755, NOW, 2).expect("mkdir");
    assert_eq!(fs.apply_rmdir("/f", NOW), Err(Error::NotADirectory));
    assert_eq!(fs.apply_unlink("/d", NOW), Err(Error::IsADirectory));
    assert_eq!(fs.apply_create("/f/x", 0o644, NOW, 3), Err(Error::NotADirectory));
    assert_eq!(fs.apply_create("/none/x", 0o644, NOW, 3), Err(Error::NotFound));
    assert_eq!(fs.apply_link("/d", "/e"), Err(Error::IsADirectory));
    let long = format!("/{}", "n".repeat(256));
    assert_eq!(fs.apply_create(&long, 0o644, NOW, 3), Err(Error::NameTooLong));
    let fits = format!("/{}", "n".repeat(255));
    assert!(fs.apply_create(&fits, 0o644, NOW, 3).is_ok());
    assert!(fs.read_dir(b"/f").is_err());
    assert!(matches!(fs.read_link(b"/f"), Err(Error::InvalidArgument("not a symlink"))));
    assert!(matches!(fs.read_file(b"/d", 0, 1), Err(Error::InvalidArgument("not a regular file"))));
}

#[test]
fn links_share_an_inode_until_the_last_is_gone() {
    let mut fs = volume();
    let ino = fs.apply_create("/a", 0o644, NOW, 1).expect("create");
    fs.write_file("/a", b"shared", NOW).expect("write");
    fs.apply_link("/a", "/b").expect("link");
    assert_eq!(fs.lookup_path(b"/b"), Ok(ino));
    assert_eq!(fs.stat(b"/a").expect("stat").link_count, 2);
    fs.apply_unlink("/a", NOW).expect("unlink");
    assert_eq!(read(&fs, "/b", 0, 10), b"shared".to_vec());
    assert_eq!(fs.stat(b"/b").expect("stat").link_count, 1);
    fs.apply_unlink("/b", NOW).expect("unlink");
    let (inode, _) = fs.read_inode_verified(ino).expect("inode");
    assert_eq!(inode.links_count, 0);
    assert_eq!(inode.dtime, NOW as i64 as _);
}

#[test]
fn links_lead_where_they_were_pointed() {
    let mut fs = volume();
    fs.apply_symlink("short", "/s", NOW, 1).expect("symlink");
    let far = "x/".repeat(100);
    fs.apply_symlink(&far, "/l", NOW, 2).expect("symlink");
    assert_eq!(fs.read_link(b"/s"), Ok(b"short".to_vec()));
    assert_eq!(fs.read_link(b"/l"), Ok(far.as_bytes().to_vec()));
    assert_eq!(fs.stat(b"/s").expect("stat").file_type, fs_ext4_file_type_t::Symlink);
    assert_eq!(fs.stat(b"/l").expect("stat").size, 200);
    assert_eq!(fs.apply_symlink(&"x".repeat(256), "/too-long", NOW, 3), Err(Error::NameTooLong));
    assert_eq!(fs.lookup_path(b"/too-long"), Err(Error::NotFound));
    fs.apply_symlink(&"x".repeat(255), "/longest", NOW, 3).expect("symlink");
    assert_eq!(fs.read_link(b"/longest"), Ok(vec![b'x'; 255]));
}

#[test]
fn special_files_keep_their_numbers() {
    let mut fs = volume();
    fs.apply_mknod("/c", 0o020644, 5, 1, NOW, 1).expect("mknod");
    fs.apply_mknod("/p", 0o010600, 0, 0, NOW, 2).expect("mknod");
    assert_eq!(fs.stat(b"/c").expect("stat").file_type, fs_ext4_file_type_t::ChrDev);
    assert_eq!(fs.stat(b"/p").expect("stat").file_type, fs_ext4_file_type_t::Fifo);
    assert_eq!(fs.stat(b"/p").expect("stat").mode, 0o600);
    let (inode, _) = fs.read_inode_verified(fs.lookup_path(b"/c").expect("lookup")).expect("inode");
    assert_eq!(u32::from_le_bytes([inode.block[0], inode.block[1], inode.block[2], inode.block[3]]), 5 << 8 | 1);
}

#[test]
fn renaming_moves_a_name_and_replaces_only_when_asked() {
    let mut fs = volume();
    let a = fs.apply_create("/a", 0o644, NOW, 1).expect("create");
    let b = fs.apply_create("/b", 0o644, NOW, 2).expect("create");
    fs.apply_rename("/a", "/a", false, NOW).expect("to itself");
    assert_eq!(fs.lookup_path(b"/a"), Ok(a));
    assert_eq!(fs.apply_rename("/a", "/b", false, NOW), Err(Error::AlreadyExists));
    assert_eq!((fs.lookup_path(b"/a"), fs.lookup_path(b"/b")), (Ok(a), Ok(b)));
    fs.apply_rename("/a", "/b", true, NOW).expect("replace");
    assert_eq!((fs.lookup_path(b"/a"), fs.lookup_path(b"/b")), (Err(Error::NotFound), Ok(a)));
    assert_eq!(fs.apply_rename("/none", "/c", false, NOW), Err(Error::NotFound));
    fs.apply_mkdir("/d", 0o755, NOW, 3).expect("mkdir");
    fs.apply_mkdir("/d/e", 0o755, NOW, 4).expect("mkdir");
    assert!(matches!(fs.apply_rename("/d", "/d/e/f", false, NOW), Err(Error::InvalidArgument(_))));
    fs.apply_rename("/d/e", "/e", false, NOW).expect("move a directory");
    assert_eq!(fs.stat(b"/d").expect("stat").link_count, 2);
    let e = fs.lookup_path(b"/e").expect("lookup");
    assert_eq!(fs.lookup_path(b"/e/.."), Ok(2));
    assert_ne!(e, 2);
    let fs = again(fs);
    audit_is_clean(&fs);
}

// -- attributes -------------------------------------------------------------

#[test]
fn attributes_that_were_set_are_the_ones_read() {
    let mut fs = volume();
    fs.apply_create("/f", 0o644, NOW, 1).expect("create");
    fs.apply_chmod("/f", 0o4711, NOW + 1).expect("chmod");
    fs.apply_chown("/f", 70_000, 80_000, NOW + 2).expect("chown");
    fs.apply_utimens("/f", 1_000, 5, 5_000_000_000, 6, NOW + 3).expect("utimens");
    let (inode, _) = fs.read_inode_verified(fs.lookup_path(b"/f").expect("lookup")).expect("inode");
    assert!(matches!(fs.apply_set_flags("/f", 0x40, NOW + 4), Err(Error::InvalidArgument(_))));
    fs.apply_set_flags("/f", inode.flags | 0x40, NOW + 4).expect("flags");
    let st = fs.stat(b"/f").expect("stat");
    assert_eq!((st.mode, st.uid, st.gid), (0o4711, 70_000, 80_000));
    assert_eq!(st.file_type, fs_ext4_file_type_t::RegFile);
    assert_eq!(st.atime, 1_000);
    assert_eq!(st.ctime, NOW + 4);
    let (inode, _) = fs.read_inode_verified(fs.lookup_path(b"/f").expect("lookup")).expect("inode");
    assert_eq!(inode.mtime, 5_000_000_000);
    assert_eq!((inode.atime_nsec, inode.mtime_nsec), (5, 6));
    assert_eq!(inode.flags & 0x40, 0x40);
    assert_eq!(fs.apply_chmod("/none", 0, NOW), Err(Error::NotFound));
}

#[test]
fn a_time_that_does_not_fit_is_refused() {
    let mut fs = volume();
    fs.apply_create("/f", 0o644, NOW, 1).expect("create");
    let r = fs.apply_utimens("/f", i64::MAX, 0, 0, 0, NOW);
    assert!(matches!(r, Err(Error::InvalidArgument(_))), "{r:?}");
}

#[test]
fn extended_attributes_are_set_read_listed_and_removed() {
    let mut fs = volume();
    let ino = fs.apply_create("/f", 0o644, NOW, 1).expect("create");
    fs.apply_setxattr("/f", "user.one", b"1", NOW).expect("set");
    fs.apply_setxattr("/f", "user.two", b"two", NOW).expect("set");
    let big = pattern(1500, 3);
    fs.apply_setxattr("/f", "user.big", &big, NOW).expect("set beyond the inode");
    fs.apply_setxattr("/f", "user.one", b"uno", NOW).expect("replace");
    let mut fs = again(fs);
    let (inode, raw) = fs.read_inode_verified(ino).expect("inode");
    assert_ne!(inode.file_acl, 0, "the long value needed a block");
    assert_eq!(get_resolved(&fs, &inode, &raw, "user.one"), Ok(Some(b"uno".to_vec())));
    assert_eq!(get_resolved(&fs, &inode, &raw, "user.two"), Ok(Some(b"two".to_vec())));
    assert_eq!(get_resolved(&fs, &inode, &raw, "user.big"), Ok(Some(big)));
    assert_eq!(get_resolved(&fs, &inode, &raw, "user.none"), Ok(None));
    let mut listed = fs.list_xattr(b"/f").expect("list");
    listed.sort();
    assert_eq!(listed, vec![b"user.big".to_vec(), b"user.one".to_vec(), b"user.two".to_vec()]);

    fs.apply_removexattr("/f", "user.big", NOW).expect("remove");
    fs.apply_removexattr("/f", "user.two", NOW).expect("remove");
    let (inode, raw) = fs.read_inode_verified(ino).expect("inode");
    assert_eq!(inode.file_acl, 0, "the emptied block was given back");
    assert_eq!(get_resolved(&fs, &inode, &raw, "user.one"), Ok(Some(b"uno".to_vec())));
    assert_eq!(read_all_resolved(&fs, &inode, &raw).expect("all").len(), 1);
    assert_eq!(fs.apply_removexattr("/f", "user.two", NOW), Err(Error::NotFound));
}

#[test]
fn an_attribute_that_cannot_be_kept_is_refused() {
    let mut fs = volume();
    fs.apply_create("/f", 0o644, NOW, 1).expect("create");
    assert!(matches!(fs.apply_setxattr("/f", "nonsense", b"1", NOW), Err(Error::InvalidArgument(_))));
    assert!(fs.apply_setxattr("/f", "user.huge", &vec![0u8; 2 * BS], NOW).is_err());
    assert_eq!(fs.list_xattr(b"/f").expect("list").len(), 0);
}

// -- the volume -------------------------------------------------------------

#[test]
fn a_volume_says_what_it_is() {
    let fs = volume();
    let info = fs.volume_info();
    assert_eq!(info.volume_name, b"scratch\0\0\0\0\0\0\0\0\0".to_vec());
    assert_eq!(info.block_size, BS as u32);
    assert_eq!(info.total_blocks, VOL / BS as u64);
    assert!(!info.mounted_dirty);
    assert!(info.free_blocks < info.total_blocks);
}

#[test]
fn an_audit_finds_a_wrong_link_count() {
    let mut fs = volume();
    let ino = fs.apply_create("/f", 0o644, NOW, 1).expect("create");
    let (inode, mut raw) = fs.read_inode_verified(ino).expect("inode");
    raw[0x1A..0x1C].copy_from_slice(&5u16.to_le_bytes());
    fs.finalize_inode_raw(ino, inode.generation, &mut raw);
    fs.write_inode_raw(ino, &raw).expect("write record");
    let report = fs.audit(100, 100).expect("audit");
    assert!(!report.is_clean());
    assert_eq!(report.anomalies_count, 1);
    assert_eq!(
        report.anomalies,
        vec![Anomaly::LinkCountTooHigh { ino, stored: 5, observed: 1 }]
    );
}

#[test]
fn an_audit_passes_on_what_it_finds() {
    let mut fs = volume();
    let ino = fs.apply_create("/f", 0o644, NOW, 1).expect("create");
    let (inode, mut raw) = fs.read_inode_verified(ino).expect("inode");
    raw[0x1A..0x1C].copy_from_slice(&5u16.to_le_bytes());
    fs.finalize_inode_raw(ino, inode.generation, &mut raw);
    fs.write_inode_raw(ino, &raw).expect("write record");
    let steps = std::cell::RefCell::new(Vec::new());
    let found = std::cell::RefCell::new(Vec::new());
    let report = audit_with_callbacks(
        &fs,
        100,
        100,
        |phase, at, of| steps.borrow_mut().push((phase, at, of)),
        |a: &Anomaly| found.borrow_mut().push(*a),
    )
    .expect("audit");
    assert!(report.anomalies.is_empty());
    assert_eq!(report.anomalies_count, 1);
    assert_eq!(*found.borrow(), vec![Anomaly::LinkCountTooHigh { ino, stored: 5, observed: 1 }]);
    assert_eq!(steps.borrow()[..2], [(FsckPhase::Superblock, 0, 1), (FsckPhase::Superblock, 1, 1)]);
    assert_eq!(report.inodes_visited, fs.audit(100, 100).expect("audit").inodes_visited);
}

#[test]
fn an_audit_counts_the_same_with_and_without_callbacks() {
    let mut fs = volume();
    fs.apply_mkdir("/d", 0o755, NOW, 1).expect("mkdir");
    fs.apply_mkdir("/d/e", 0o755, NOW, 2).expect("mkdir");
    fs.apply_create("/d/f", 0o644, NOW, 3).expect("create");
    for max_dirs in [0u32, 1, 2, 100] {
        let steps = std::cell::RefCell::new(Vec::new());
        let found = std::cell::RefCell::new(Vec::new());
        let told = audit_with_callbacks(
            &fs,
            max_dirs,
            100,
            |phase, at, of| steps.borrow_mut().push((phase, at, of)),
            |a: &Anomaly| found.borrow_mut().push(*a),
        )
        .expect("audit");
        let plain = fs.audit(max_dirs, 100).expect("audit");
        assert_eq!(told.inodes_visited, plain.inodes_visited);
        assert_eq!(told.entries_scanned, plain.entries_scanned);
        assert_eq!(told.directories_scanned, plain.directories_scanned);
        assert_eq!(told.anomalies_count, plain.anomalies_count);
        assert_eq!(*found.borrow(), plain.anomalies);
        assert!(plain.directories_scanned <= max_dirs);
        let steps = steps.borrow();
        assert_eq!(steps[0], (FsckPhase::Superblock, 0, 1));
        assert_eq!(steps.last().expect("a last step").0, FsckPhase::Finalize);
        assert!(steps.iter().all(|s| s.0 != FsckPhase::Journal));
    }
}

#[test]
fn a_directory_that_names_something_is_not_removed() {
    let mut fs = volume();
    fs.apply_mkdir("/d", 0o755, NOW, 1).expect("mkdir");
    fs.apply_create("/d/f", 0o644, NOW, 2).expect("create");
    let before = fs.dev.data.clone();
    assert_eq!(fs.apply_rmdir("/d", NOW), Err(Error::DirectoryNotEmpty));
    assert!(fs.dev.data == before);
    fs.apply_unlink("/d/f", NOW).expect("unlink");
    assert_eq!(fs.apply_rmdir("/d", NOW), Ok(()));
    assert_eq!(fs.lookup_path(b"/d"), Err(Error::NotFound));
    audit_is_clean(&fs);
}

#[test]
fn a_record_in_hand_is_enough_to_read_a_file() {
    let mut fs = volume();
    let data = pattern(2 * BS + 77, 5);
    fs.apply_create("/f", 0o644, NOW, 1).expect("create");
    fs.write_file("/f", &data, NOW).expect("write");
    let (inode, raw) = fs.read_inode_verified(fs.lookup_path(b"/f").expect("lookup")).expect("inode");
    let mut out = vec![0u8; 5000];
    assert_eq!(read_with_raw(&fs, &inode, &raw, 100, 5000, &mut out), Ok(5000));
    assert_eq!(out, data[100..5100].to_vec());
    assert_eq!(read_with_raw(&fs, &inode, &raw, 2 * BS as u64, 5000, &mut out), Ok(77));
    assert_eq!(out[..77], data[2 * BS..]);
    assert_eq!(out[77..], data[177..5100]);
    assert!(inode.flag_set().contains(FL_EXTENTS));
    assert!(!inode.flag_set().contains(FL_INDEX));
    assert_eq!(inode.flag_set().bits, inode.flags);
}

#[test]
fn a_clean_journal_has_nothing_to_replay() {
    let mut fs = volume();
    let before = fs.dev.data.clone();
    assert_eq!(replay_if_dirty(&mut fs), Ok(0));
    assert_eq!(fs.dev.data, before);
}

#[test]
fn a_block_is_staged_when_it_is_first_asked_for() {
    let fs = volume();
    let mut buf = BlockBuffer::new(fs.sb.block_size());
    let on_disk = fs.dev.data[BS..2 * BS].to_vec();
    let block = buf.get_mut(&fs.dev, BS as u32, 1).expect("block");
    assert_eq!(*block, on_disk);
    block[7] = block[7].wrapping_add(1);
    let again = buf.get_mut(&fs.dev, BS as u32, 1).expect("block");
    assert_eq!(again[7], on_disk[7].wrapping_add(1));
    assert_eq!(fs.dev.data[BS + 7], on_disk[7]);
    assert_eq!(buf.get_mut(&fs.dev, BS as u32, VOL / BS as u64), Err(Error::Io));
}

#[test]
fn what_is_staged_reaches_the_device_only_when_it_is_committed() {
    let mut fs = volume();
    let before = fs.dev.data.clone();
    let mut buf = BlockBuffer::new(fs.sb.block_size());
    fs.buffer_patch_sb_counters(&mut buf, -3, -1).expect("stage");
    assert_eq!(fs.dev.data, before);
    fs.commit_block_buffer(buf).expect("commit");
    let was = u32::from_le_bytes(before[1024 + 0x0C..1024 + 0x10].try_into().expect("four bytes"));
    let is = u32::from_le_bytes(fs.dev.data[1024 + 0x0C..1024 + 0x10].try_into().expect("four bytes"));
    assert_eq!(is, was - 3);
}

#[test]
fn a_device_that_holds_no_volume_is_refused() {
    let dev = Bytes { data: vec![0u8; 1 << 20], read_only: false };
    assert!(Filesystem::mount(dev, NOW).is_err());
    let tiny = Bytes { data: vec![0u8; 512], read_only: false };
    let refused = match Filesystem::mount(tiny, NOW) {
        Ok(_) => panic!("half a kibibyte holds no volume"),
        Err(refused) => refused,
    };
    assert_eq!(refused.error, Error::Io);
    assert_eq!(refused.dev.data, vec![0u8; 512]);
}

#[test]
fn every_error_has_its_number() {
    assert_eq!(Error::Io.to_errno(), EIO);
    assert_eq!(Error::Corrupt("x").to_errno(), EIO);
    assert_eq!(Error::CorruptExtentTree("x").to_errno(), EIO);
    assert_eq!(Error::CorruptDirEntry("x").to_errno(), EIO);
    assert_eq!(Error::InvalidInode(3).to_errno(), EIO);
    assert_eq!(Error::InvalidBlock(3).to_errno(), EIO);
    assert_eq!(Error::BadChecksum("x").to_errno(), EIO);
    assert_eq!(Error::InvalidArgument("x").to_errno(), EINVAL);
    assert_eq!(Error::OutOfBounds.to_errno(), EINVAL);
    assert_eq!(Error::UnsupportedIncompat(1).to_errno(), ENOTSUP);
    assert_eq!(Error::UnsupportedRoCompat(1).to_errno(), ENOTSUP);
    assert_eq!(Error::Unsupported("x").to_errno(), ENOTSUP);
    assert_eq!(Error::ReadOnly.to_errno(), EROFS);
    assert_eq!(Error::NotFound.to_errno(), ENOENT);
    assert_eq!(Error::NotADirectory.to_errno(), ENOTDIR);
    assert_eq!(Error::IsADirectory.to_errno(), EISDIR);
    assert_eq!(Error::DirectoryNotEmpty.to_errno(), ENOTEMPTY);
    assert_eq!(Error::AlreadyExists.to_errno(), EEXIST);
    assert_eq!(Error::NameTooLong.to_errno(), ENAMETOOLONG);
    assert_eq!(Error::NoSpaceLeftOnDevice.to_errno(), ENOSPC);
    assert_eq!((EIO, EROFS, ENOTSUP, ENAMETOOLONG, ENOTEMPTY), (5, 30, 45, 63, 66));
}
