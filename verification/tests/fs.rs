use fs_ext4::block_io::BlockDevice;
use fs_ext4::checksum::linux_crc32c;
use fs_ext4::features::{INCOMPAT_CASEFOLD, INCOMPAT_MMP};
use fs_ext4::file_io;
use fs_ext4::inode::{
    Inode, EXTRA_ISIZE_DEFAULT, FL_EA_INODE, FL_EXTENTS, INODE_SIZE_WITH_CRTIME, INODE_SIZE_WITH_EXTRA, OFF_ATIME,
    OFF_CRTIME, OFF_CTIME, OFF_EXTRA_ISIZE, OFF_GENERATION, OFF_MTIME,
};
use fs_ext4::inode_edit::{write_inode_extra_isize, write_inode_generation, write_inode_timestamps};
use fs_ext4::jbd2::JBD2_MAGIC_NUMBER;
use fs_ext4::mkfs::format_filesystem;
use fs_ext4::superblock::SUPERBLOCK_OFFSET;
use fs_ext4::volume::BlockBuffer;
use fs_ext4::xattr_ops::{
    get_resolved, plan_remove_in_inode_region, plan_set_in_inode_region, read_all, read_all_resolved,
};
use fs_ext4::{Error, Filesystem, Result};
use std::cell::RefCell;
use std::rc::Rc;

fn read_le32(buf: &[u8], off: usize) -> u32 {
    u32::from_le_bytes(buf[off..off + 4].try_into().unwrap())
}

fn read_le16(buf: &[u8], off: usize) -> u16 {
    u16::from_le_bytes(buf[off..off + 2].try_into().unwrap())
}

#[test]
fn write_inode_timestamps_sets_atime_ctime_mtime() {
    let mut raw = vec![0u8; 256];
    write_inode_timestamps(&mut raw, 0xDEAD_BEEF);
    assert_eq!(read_le32(&raw, OFF_ATIME), 0xDEAD_BEEF);
    assert_eq!(read_le32(&raw, OFF_CTIME), 0xDEAD_BEEF);
    assert_eq!(read_le32(&raw, OFF_MTIME), 0xDEAD_BEEF);
}

#[test]
fn write_inode_timestamps_sets_crtime_when_large_enough() {
    let mut raw = vec![0u8; INODE_SIZE_WITH_CRTIME + 4];
    write_inode_timestamps(&mut raw, 0x1234_5678);
    assert_eq!(read_le32(&raw, OFF_CRTIME), 0x1234_5678);
}

#[test]
fn write_inode_timestamps_skips_crtime_when_too_small() {
    let mut raw = vec![0xAAu8; INODE_SIZE_WITH_CRTIME - 1];
    write_inode_timestamps(&mut raw, 0x1234_5678);
    assert_eq!(read_le32(&raw, OFF_ATIME), 0x1234_5678);
}

#[test]
fn write_inode_timestamps_zero_now() {
    let mut raw = vec![0xFFu8; 256];
    write_inode_timestamps(&mut raw, 0);
    assert_eq!(read_le32(&raw, OFF_ATIME), 0);
    assert_eq!(read_le32(&raw, OFF_CTIME), 0);
    assert_eq!(read_le32(&raw, OFF_MTIME), 0);
    assert_eq!(read_le32(&raw, OFF_CRTIME), 0);
}

#[test]
fn write_inode_generation_writes_at_correct_offset() {
    let mut raw = vec![0u8; 256];
    write_inode_generation(&mut raw, 0xCAFE_BABE);
    assert_eq!(read_le32(&raw, OFF_GENERATION), 0xCAFE_BABE);
}

#[test]
fn write_inode_generation_overwrites_existing() {
    let mut raw = vec![0xFFu8; 256];
    write_inode_generation(&mut raw, 0);
    assert_eq!(read_le32(&raw, OFF_GENERATION), 0);
}

#[test]
fn write_inode_extra_isize_sets_default_when_large_enough() {
    let mut raw = vec![0u8; INODE_SIZE_WITH_EXTRA + 4];
    write_inode_extra_isize(&mut raw);
    assert_eq!(read_le16(&raw, OFF_EXTRA_ISIZE), EXTRA_ISIZE_DEFAULT);
}

#[test]
fn write_inode_extra_isize_skips_when_too_small() {
    let mut raw = vec![0u8; INODE_SIZE_WITH_EXTRA - 1];
    write_inode_extra_isize(&mut raw);
    assert_eq!(raw, vec![0u8; INODE_SIZE_WITH_EXTRA - 1]);
}

/// A device whose bytes outlive a mount.
#[derive(Clone, Debug)]
struct MemDev {
    bytes: Rc<RefCell<Vec<u8>>>,
    writable: bool,
}

impl MemDev {
    fn new(size: u64) -> MemDev {
        MemDev {
            bytes: Rc::new(RefCell::new(vec![0u8; size as usize])),
            writable: true,
        }
    }

    fn read_only(&self) -> MemDev {
        MemDev {
            bytes: self.bytes.clone(),
            writable: false,
        }
    }
}

impl BlockDevice for MemDev {
    fn read_at(&self, offset: u64, len: usize) -> Result<Vec<u8>> {
        let b = self.bytes.borrow();
        let start = offset as usize;
        if start > b.len() || len > b.len() - start {
            return Err(Error::Io);
        }
        Ok(b[start..start + len].to_vec())
    }

    fn size_bytes(&self) -> u64 {
        self.bytes.borrow().len() as u64
    }

    fn write_at(&mut self, offset: u64, data: &[u8]) -> Result<()> {
        let mut b = self.bytes.borrow_mut();
        let start = offset as usize;
        if !self.writable || start + data.len() > b.len() {
            return Err(Error::Io);
        }
        b[start..start + data.len()].copy_from_slice(data);
        Ok(())
    }

    fn flush(&mut self) -> Result<()> {
        Ok(())
    }

    fn is_writable(&self) -> bool {
        self.writable
    }
}

const BS: u32 = 4096;
const VOL: u64 = 32 * 1024 * 1024;
const NOW: u32 = 1_700_000_000;

fn formatted() -> MemDev {
    let mut dev = MemDev::new(VOL);
    format_filesystem(&mut dev, Some("orphan"), [0x5A; 16], VOL, BS).expect("format");
    dev
}

fn mount(dev: &MemDev) -> Filesystem<MemDev> {
    Filesystem::mount(dev.clone(), NOW).expect("mount")
}

fn resolve(fs: &Filesystem<MemDev>, path: &str) -> Result<u32> {
    fs.lookup_path(path.as_bytes())
}

/// Put `ino` on the orphan chain with the given link count and size.
fn plant_orphan(fs: &mut Filesystem<MemDev>, ino: u32, links: u16, new_size: Option<u64>) {
    let mut buf = BlockBuffer::new(fs.sb.block_size());
    let (inode, mut raw) = fs.read_inode_verified(ino).expect("read inode");
    if let Some(size) = new_size {
        Filesystem::<MemDev>::patch_inode_size_and_blocks(&mut raw, size, inode.blocks).expect("patch size");
    }
    raw[0x1A..0x1C].copy_from_slice(&links.to_le_bytes());
    raw[0x14..0x18].copy_from_slice(&0u32.to_le_bytes());
    fs.finalize_inode_raw(ino, inode.generation, &mut raw);
    fs.buffer_write_inode(&mut buf, ino, &raw).expect("write inode");
    fs.buffer_patch_sb_last_orphan(&mut buf, ino).expect("patch s_last_orphan");
    fs.commit_block_buffer(buf).expect("commit");
}

#[test]
fn an_orphan_with_no_links_is_still_reclaimed() {
    let dev = formatted();
    let ino = {
        let mut fs = mount(&dev);
        let ino = fs.apply_create("/gone.txt", 0o644, NOW, 1).expect("create");
        fs.apply_pwrite("/gone.txt", 0, &[0xAB; 4 * BS as usize], NOW).expect("write");
        ino
    };
    {
        let mut fs = mount(&dev);
        plant_orphan(&mut fs, ino, 0, None);
    }
    drop(mount(&dev));

    let fs = mount(&dev);
    assert!(
        fs.orphan_list().expect("orphan_list").is_empty(),
        "recovery must empty the chain"
    );
    let (inode, _) = fs.read_inode_verified(ino).expect("read inode");
    assert_eq!(inode.links_count, 0, "an unlinked orphan stays unlinked");
    assert_ne!(inode.dtime, 0, "and is stamped as deleted");
    assert_eq!(inode.size, 0, "its body is gone");
}

/// Set an INCOMPAT bit on a formatted volume, with the checksum redone.
fn set_incompat_bit(dev: &mut MemDev, bit: u32) {
    let mut sb = dev.read_at(SUPERBLOCK_OFFSET, 1024).expect("read sb");
    let cur = read_le32(&sb, 0x60);
    sb[0x60..0x64].copy_from_slice(&(cur | bit).to_le_bytes());
    let csum = linux_crc32c(!0, &sb[..0x3FC]);
    sb[0x3FC..0x400].copy_from_slice(&csum.to_le_bytes());
    dev.write_at(SUPERBLOCK_OFFSET, &sb).expect("write sb");
}

#[test]
fn a_casefold_volume_is_not_mounted_writable() {
    let mut dev = formatted();
    set_incompat_bit(&mut dev, INCOMPAT_CASEFOLD);

    let err = match Filesystem::mount(dev.clone(), NOW) {
        Ok(_) => panic!("a writable mount of a CASEFOLD volume must be refused"),
        Err(refused) => refused.error,
    };
    match err {
        Error::UnsupportedIncompat(bits) => {
            assert_eq!(bits, INCOMPAT_CASEFOLD, "the refusal must name the bit responsible")
        }
        other => panic!("expected UnsupportedIncompat, got {other:?}"),
    }
}

#[test]
fn a_casefold_volume_still_mounts_read_only() {
    let mut dev = formatted();
    {
        let mut fs = mount(&dev);
        fs.apply_create("/before.txt", 0o644, NOW, 1).expect("create");
    }
    set_incompat_bit(&mut dev, INCOMPAT_CASEFOLD);

    let fs = Filesystem::mount(dev.read_only(), NOW).expect("a read-only mount must still work");
    assert_eq!(
        resolve(&fs, "/before.txt").expect("the directory is still readable"),
        resolve(&fs, "/before.txt").expect("stable"),
    );
}

#[test]
fn an_mmp_volume_is_still_not_mounted_writable() {
    let mut dev = formatted();
    set_incompat_bit(&mut dev, INCOMPAT_MMP);
    let err = match Filesystem::mount(dev.clone(), NOW) {
        Ok(_) => panic!("a writable mount of an MMP volume must be refused"),
        Err(refused) => refused.error,
    };
    assert!(matches!(err, Error::UnsupportedIncompat(b) if b == INCOMPAT_MMP));
}

#[test]
fn an_ordinary_volume_still_mounts_writable() {
    let dev = formatted();
    let mut fs = Filesystem::mount(dev.clone(), NOW).expect("mount");
    fs.apply_create("/after.txt", 0o644, NOW, 1).expect("create");
}

const REPLAY_TARGET_BLOCK: u64 = 4000;
const JOURNAL_BLOCK: u64 = 2000;
const JOURNAL_LEN: u32 = 1024;

fn be(words: &[u32], len: usize) -> Vec<u8> {
    let mut out = Vec::new();
    for w in words {
        out.extend_from_slice(&w.to_be_bytes());
    }
    out.resize(len, 0);
    out
}

/// Give a volume a journal of its own, with one committed transaction in it
/// that has not been replayed. Returns the device and what the transaction
/// writes to `REPLAY_TARGET_BLOCK`.
fn with_a_dirty_journal() -> (MemDev, Vec<u8>) {
    let mut dev = formatted();
    let payload: Vec<u8> = (0..BS as usize)
        .map(|i| 0xA5u8.wrapping_add((i & 0xFF) as u8))
        .collect();
    {
        let mut fs = mount(&dev);
        let mut raw = fs.read_inode_raw(8).expect("the journal's inode");
        raw[0x00..0x02].copy_from_slice(&0x8180u16.to_le_bytes());
        raw[0x04..0x08].copy_from_slice(&(JOURNAL_LEN * BS).to_le_bytes());
        raw[0x1A..0x1C].copy_from_slice(&1u16.to_le_bytes());
        raw[0x20..0x24].copy_from_slice(&FL_EXTENTS.to_le_bytes());
        raw[0x28..0x2A].copy_from_slice(&0xF30Au16.to_le_bytes());
        raw[0x2A..0x2C].copy_from_slice(&1u16.to_le_bytes());
        raw[0x2C..0x2E].copy_from_slice(&4u16.to_le_bytes());
        raw[0x38..0x3A].copy_from_slice(&(JOURNAL_LEN as u16).to_le_bytes());
        raw[0x3C..0x40].copy_from_slice(&(JOURNAL_BLOCK as u32).to_le_bytes());
        fs.finalize_inode_raw(8, 0, &mut raw);
        fs.write_inode_raw(8, &raw).expect("write the journal's inode");
    }
    let bs = BS as u64;
    let size = BS as usize;
    dev.write_at(
        JOURNAL_BLOCK * bs,
        &be(&[JBD2_MAGIC_NUMBER, 4, 1, BS, JOURNAL_LEN, 1, 1, 1], size),
    )
    .expect("journal superblock");
    dev.write_at(
        (JOURNAL_BLOCK + 1) * bs,
        &be(&[JBD2_MAGIC_NUMBER, 1, 1, REPLAY_TARGET_BLOCK as u32, 0xA], size),
    )
    .expect("descriptor");
    dev.write_at((JOURNAL_BLOCK + 2) * bs, &payload).expect("data");
    dev.write_at((JOURNAL_BLOCK + 3) * bs, &be(&[JBD2_MAGIC_NUMBER, 2, 1], size)).expect("commit");

    let mut sb = dev.read_at(SUPERBLOCK_OFFSET, 1024).expect("read sb");
    sb[0x5C..0x60].copy_from_slice(&4u32.to_le_bytes());
    sb[0xE0..0xE4].copy_from_slice(&8u32.to_le_bytes());
    let csum = linux_crc32c(!0, &sb[..0x3FC]);
    sb[0x3FC..0x400].copy_from_slice(&csum.to_le_bytes());
    dev.write_at(SUPERBLOCK_OFFSET, &sb).expect("write sb");

    assert!(
        !destination_holds_the_payload(&dev, &payload),
        "the destination already holds the payload, so replaying could not be observed"
    );
    (dev, payload)
}

fn destination_holds_the_payload(dev: &MemDev, payload: &[u8]) -> bool {
    let buf = dev
        .read_at(REPLAY_TARGET_BLOCK * BS as u64, BS as usize)
        .expect("read the destination block");
    buf == payload
}

#[test]
fn a_dirty_journal_is_replayed_at_mount() {
    let (dev, payload) = with_a_dirty_journal();
    let fs = Filesystem::mount(dev.clone(), NOW).expect("mount");
    drop(fs);
    assert!(
        destination_holds_the_payload(&dev, &payload),
        "mount did not replay a dirty journal"
    );
}

#[test]
fn an_unsupported_bit_is_refused_before_the_journal_is_replayed() {
    let (mut dev, payload) = with_a_dirty_journal();
    set_incompat_bit(&mut dev, INCOMPAT_CASEFOLD);

    let before = dev.bytes.borrow().clone();
    match Filesystem::mount(dev.clone(), NOW).map_err(|refused| refused.error) {
        Ok(_) => panic!("a writable mount of a CASEFOLD volume must be refused"),
        Err(Error::UnsupportedIncompat(bits)) => {
            assert_eq!(bits, INCOMPAT_CASEFOLD, "the refusal must name the bit responsible")
        }
        Err(other) => panic!("expected UnsupportedIncompat, got {other:?}"),
    }

    assert!(
        !destination_holds_the_payload(&dev, &payload),
        "the journal was replayed into a volume the driver had already declined to mount"
    );
    assert!(before == *dev.bytes.borrow(), "a refused mount wrote to the device");
}

#[test]
fn an_unsupported_bit_and_a_dirty_journal_are_no_bar_to_reading() {
    let (mut dev, payload) = with_a_dirty_journal();
    set_incompat_bit(&mut dev, INCOMPAT_CASEFOLD);
    let before = dev.bytes.borrow().clone();
    let mut fs = Filesystem::mount(dev.read_only(), NOW).expect("nothing is written, so nothing can break");
    assert_eq!(resolve(&fs, "/"), Ok(2));
    assert_eq!(fs.replay_journal_if_dirty(), Ok(0));
    assert_eq!(fs.replay_journal_if_dirty(), Ok(0));
    assert!(!destination_holds_the_payload(&dev, &payload));
    assert!(before == *dev.bytes.borrow());
}

#[test]
fn a_journal_that_cannot_be_read_stops_a_writable_mount_only() {
    let (mut dev, _) = with_a_dirty_journal();
    dev.write_at(JOURNAL_BLOCK * BS as u64, &[0u8; 1024]).expect("no journal superblock");
    let before = dev.bytes.borrow().clone();
    assert!(Filesystem::mount(dev.clone(), NOW).is_err());
    assert!(Filesystem::mount(dev.read_only(), NOW).is_ok());
    assert!(before == *dev.bytes.borrow());
}

#[test]
fn a_block_number_that_has_no_byte_offset_is_corrupt() {
    let fs = mount(&formatted());
    assert_eq!(fs.read_block(u64::MAX), Err(Error::Corrupt("block byte offset overflow")));
    assert_eq!(fs.read_block(u64::MAX / BS as u64), Err(Error::Io));
    assert_eq!(fs.read_block(VOL / BS as u64), Err(Error::Io));
    assert!(fs.read_block(VOL / BS as u64 - 1).is_ok());
}

#[test]
fn an_empty_file_whose_tree_is_broken_can_still_be_removed() {
    let dev = formatted();
    let mut fs = mount(&dev);
    let ino = fs.apply_create("/broken", 0o644, NOW, 1).expect("create");
    let (inode, mut raw) = fs.read_inode_verified(ino).expect("inode");
    raw[0x28..0x2A].copy_from_slice(&0u16.to_le_bytes());
    fs.finalize_inode_raw(ino, inode.generation, &mut raw);
    fs.write_inode_raw(ino, &raw).expect("write record");
    fs.apply_unlink("/broken", NOW).expect("there is nothing to free");
    assert_eq!(resolve(&fs, "/broken"), Err(Error::NotFound));
}

/// A device that fails once it has been read or written often enough.
#[derive(Clone, Debug)]
struct Frail {
    inner: MemDev,
    reads_left: Rc<std::cell::Cell<u64>>,
    writes_left: Rc<std::cell::Cell<u64>>,
}

impl Frail {
    fn new(bytes: &[u8]) -> Frail {
        Frail {
            inner: MemDev { bytes: Rc::new(RefCell::new(bytes.to_vec())), writable: true },
            reads_left: Rc::new(std::cell::Cell::new(u64::MAX)),
            writes_left: Rc::new(std::cell::Cell::new(u64::MAX)),
        }
    }
}

fn spend(left: &std::cell::Cell<u64>) -> Result<()> {
    if left.get() == 0 {
        return Err(Error::Io);
    }
    left.set(left.get() - 1);
    Ok(())
}

impl BlockDevice for Frail {
    fn read_at(&self, offset: u64, len: usize) -> Result<Vec<u8>> {
        spend(&self.reads_left)?;
        self.inner.read_at(offset, len)
    }

    fn size_bytes(&self) -> u64 {
        self.inner.size_bytes()
    }

    fn write_at(&mut self, offset: u64, data: &[u8]) -> Result<()> {
        spend(&self.writes_left)?;
        self.inner.write_at(offset, data)
    }

    fn flush(&mut self) -> Result<()> {
        self.inner.flush()
    }

    fn is_writable(&self) -> bool {
        self.inner.is_writable()
    }
}

#[test]
fn a_read_that_fails_leaves_the_volume_as_it_was() {
    let bytes = formatted().bytes.borrow().clone();
    let mut reads = 0;
    loop {
        let dev = Frail::new(&bytes);
        let mut fs = Filesystem::mount(dev.clone(), NOW).expect("mount");
        dev.reads_left.set(reads);
        match fs.apply_mkdir("/d", 0o755, NOW, 1) {
            Ok(_) => break,
            Err(e) => assert_eq!(e, Error::Io),
        }
        assert!(*dev.inner.bytes.borrow() == bytes, "after {reads} reads");
        reads += 1;
    }
    assert!(reads > 3, "the operation reads more than that");
}

#[test]
fn a_commit_that_fails_changes_only_blocks_that_it_was_to_write() {
    let bytes = formatted().bytes.borrow().clone();
    let done = {
        let dev = Frail::new(&bytes);
        let mut fs = Filesystem::mount(dev.clone(), NOW).expect("mount");
        fs.apply_mkdir("/d", 0o755, NOW, 1).expect("mkdir");
        let done = dev.inner.bytes.borrow().clone();
        done
    };
    let mut writes = 0;
    loop {
        let dev = Frail::new(&bytes);
        let mut fs = Filesystem::mount(dev.clone(), NOW).expect("mount");
        dev.writes_left.set(writes);
        match fs.apply_mkdir("/d", 0o755, NOW, 1) {
            Ok(_) => break,
            Err(e) => assert_eq!(e, Error::Io),
        }
        let left = dev.inner.bytes.borrow().clone();
        for at in (0..bytes.len()).step_by(BS as usize) {
            let range = at..at + BS as usize;
            assert!(left[range.clone()] == bytes[range.clone()] || left[range.clone()] == done[range]);
        }
        writes += 1;
    }
    assert!(writes > 3, "the operation writes more than that");
}

#[test]
fn a_replayed_journal_is_clean_and_is_not_replayed_again() {
    let (dev, payload) = with_a_dirty_journal();
    let mut fs = Filesystem::mount_lazy(dev.clone()).expect("mount");
    assert!(!destination_holds_the_payload(&dev, &payload), "a lazy mount replays nothing");
    assert_eq!(fs.replay_journal_if_dirty(), Ok(1));
    assert!(destination_holds_the_payload(&dev, &payload));
    let jsb = fs.read_journal_superblock().expect("read").expect("there is one");
    assert!(jsb.is_clean());
    assert_eq!(jsb.sequence, 2, "the one after the last that was committed");
    assert_eq!(fs.replay_journal_if_dirty(), Ok(0));
}

#[test]
fn a_lazy_mount_takes_no_writes_until_its_journal_is_replayed() {
    let (dev, _) = with_a_dirty_journal();
    let mut fs = Filesystem::mount_lazy(dev.clone()).expect("mount");
    let before = dev.bytes.borrow().clone();
    assert_eq!(fs.apply_create("/early", 0o644, NOW, 1), Err(Error::ReadOnly));
    assert!(before == *dev.bytes.borrow());
    assert_eq!(fs.replay_journal_if_dirty(), Ok(1));
    fs.apply_create("/late", 0o644, NOW, 1).expect("create");
    let mut fs = Filesystem::mount_lazy(formatted()).expect("mount");
    fs.apply_create("/clean", 0o644, NOW, 1).expect("nothing was to be replayed");
}

#[test]
fn an_uncommitted_transaction_is_not_replayed() {
    let (mut dev, payload) = with_a_dirty_journal();
    dev.write_at((JOURNAL_BLOCK + 3) * BS as u64, &vec![0u8; BS as usize]).expect("no commit");
    let mut fs = Filesystem::mount_lazy(dev.clone()).expect("mount");
    assert_eq!(fs.replay_journal_if_dirty(), Ok(0));
    assert!(!destination_holds_the_payload(&dev, &payload));
}

#[test]
fn a_revoked_block_is_not_replayed() {
    let (mut dev, payload) = with_a_dirty_journal();
    let bs = BS as u64;
    let size = BS as usize;
    dev.write_at(
        (JOURNAL_BLOCK + 4) * bs,
        &be(&[JBD2_MAGIC_NUMBER, 5, 2, 20, REPLAY_TARGET_BLOCK as u32], size),
    )
    .expect("revoke");
    dev.write_at((JOURNAL_BLOCK + 5) * bs, &be(&[JBD2_MAGIC_NUMBER, 2, 2], size)).expect("commit");
    let mut fs = Filesystem::mount_lazy(dev.clone()).expect("mount");
    assert_eq!(fs.replay_journal_if_dirty(), Ok(0));
    assert!(!destination_holds_the_payload(&dev, &payload));
}

#[test]
fn a_journal_that_names_a_block_past_the_end_changes_nothing() {
    let (mut dev, _) = with_a_dirty_journal();
    dev.write_at(
        (JOURNAL_BLOCK + 1) * BS as u64,
        &be(&[JBD2_MAGIC_NUMBER, 1, 1, 0xDEAD_BEEF, 0xA], BS as usize),
    )
    .expect("descriptor");
    let before = dev.bytes.borrow().clone();
    assert!(matches!(
        Filesystem::mount(dev.clone(), NOW).map_err(|refused| refused.error),
        Err(Error::Corrupt("journal: names a block past the end of the filesystem"))
    ));
    assert!(before == *dev.bytes.borrow());
}

/// Give `ino` an attribute in its own region whose entry names `value_inum`,
/// with `decoy` where a value would be.
fn plant_ea_inode_xattr(fs: &mut Filesystem<MemDev>, ino: u32, name: &str, value_inum: u32, decoy: &[u8]) {
    let (inode, mut raw) = fs.read_inode_verified(ino).expect("read inode");
    let inode_size = fs.sb.inode_size as usize;
    let extra_isize = read_le16(&raw, 128) as usize;
    let start = 128 + extra_isize;
    let mut region = raw[start..inode_size].to_vec();
    plan_set_in_inode_region(&mut region, name, decoy).expect("set xattr");
    let e = 4;
    region[e + 4..e + 8].copy_from_slice(&value_inum.to_le_bytes());
    raw[start..inode_size].copy_from_slice(&region);
    let mut buf = BlockBuffer::new(fs.sb.block_size());
    fs.finalize_inode_raw(ino, inode.generation, &mut raw);
    fs.buffer_write_inode(&mut buf, ino, &raw).expect("write");
    fs.commit_block_buffer(buf).expect("commit");
}

/// Turn an ordinary file into an EA inode.
fn mark_as_ea_inode(fs: &mut Filesystem<MemDev>, ino: u32) {
    let (inode, mut raw) = fs.read_inode_verified(ino).expect("read inode");
    let flags = read_le32(&raw, 0x20) | FL_EA_INODE;
    raw[0x20..0x24].copy_from_slice(&flags.to_le_bytes());
    let mut buf = BlockBuffer::new(fs.sb.block_size());
    fs.finalize_inode_raw(ino, inode.generation, &mut raw);
    fs.buffer_write_inode(&mut buf, ino, &raw).expect("write");
    fs.commit_block_buffer(buf).expect("commit");
}

const DECOY: [u8; 64] = [0xEE; 64];

fn ea_inode_volume() -> (MemDev, Vec<u8>) {
    let dev = formatted();
    let real: Vec<u8> = (0..64u8).map(|i| i.wrapping_mul(7).wrapping_add(3)).collect();
    {
        let mut fs = mount(&dev);
        fs.apply_create("/subject.txt", 0o644, NOW, 1).expect("create");
        let ea = fs.apply_create("/value.bin", 0o644, NOW, 2).expect("create ea");
        fs.apply_pwrite("/value.bin", 0, &real, NOW).expect("write value");
        mark_as_ea_inode(&mut fs, ea);
        let subject = resolve(&fs, "/subject.txt").expect("resolve");
        plant_ea_inode_xattr(&mut fs, subject, "user.big", ea, &DECOY);
    }
    (dev, real)
}

#[test]
fn an_ea_inode_backed_value_is_read_from_the_inode_it_names() {
    let (dev, real) = ea_inode_volume();
    let fs = mount(&dev);
    let ino = resolve(&fs, "/subject.txt").expect("resolve");
    let (inode, raw) = fs.read_inode_verified(ino).expect("read inode");

    let got = get_resolved(&fs, &inode, &raw, "user.big")
        .expect("get")
        .expect("the attribute is present");

    assert_ne!(
        got, DECOY,
        "the value was read from e_value_offs instead of from the EA inode"
    );
    assert_eq!(got, real, "the value must be the EA inode's file body");
}

#[test]
fn a_value_that_cannot_be_had_fails_the_list_as_it_fails_alone() {
    let dev = formatted();
    let mut fs = mount(&dev);
    let ino = fs.apply_create("/subject.txt", 0o644, NOW, 1).expect("create");
    let other = fs.apply_create("/ordinary.txt", 0o644, NOW, 2).expect("create");
    plant_ea_inode_xattr(&mut fs, ino, "user.big", other, &DECOY);
    let (inode, raw) = fs.read_inode_verified(ino).expect("read inode");
    let alone = match get_resolved(&fs, &inode, &raw, "user.big") {
        Err(e) => e,
        Ok(_) => panic!("an ordinary file holds no attribute's value"),
    };
    match read_all_resolved(&fs, &inode, &raw) {
        Err(e) => assert_eq!(e, alone),
        Ok(_) => panic!("the list has a value that cannot be had"),
    }
}

#[test]
fn the_list_all_path_resolves_an_ea_inode_value_too() {
    let (dev, real) = ea_inode_volume();
    let fs = mount(&dev);
    let ino = resolve(&fs, "/subject.txt").expect("resolve");
    let (inode, raw) = fs.read_inode_verified(ino).expect("read inode");

    let entries = read_all_resolved(&fs, &inode, &raw).expect("read_all_resolved");
    let e = entries
        .iter()
        .find(|e| e.full_name() == b"user.big")
        .expect("the attribute is present");

    assert!(
        !e.value.is_empty(),
        "the list-all path returned an empty value with a success return"
    );
    assert_ne!(
        e.value, DECOY,
        "the value was read from e_value_offs instead of from the EA inode"
    );
    assert_eq!(e.value, real, "the value must be the EA inode's file body");
}

#[test]
fn the_buffer_level_parser_reports_the_pointer_and_no_value() {
    let (dev, _real) = ea_inode_volume();
    let fs = mount(&dev);
    let ino = resolve(&fs, "/subject.txt").expect("resolve");
    let (inode, raw) = fs.read_inode_verified(ino).expect("read inode");

    let entries = read_all(&fs, &inode, &raw).expect("read_all");
    let e = entries
        .iter()
        .find(|e| e.full_name() == b"user.big")
        .expect("the attribute is present");

    assert_ne!(e.inum, 0, "the pointer must be reported");
    assert!(
        e.value.is_empty(),
        "the value must not be taken from e_value_offs; got {:?}",
        e.value
    );
}

#[test]
fn rewriting_an_attribute_area_holding_an_ea_inode_entry_is_refused() {
    let (dev, _real) = ea_inode_volume();
    let fs = mount(&dev);
    let ino = resolve(&fs, "/subject.txt").expect("resolve");
    let (_inode, raw) = fs.read_inode_verified(ino).expect("read inode");
    let inode_size = fs.sb.inode_size as usize;
    let extra_isize = read_le16(&raw, 128) as usize;
    let mut region = raw[128 + extra_isize..inode_size].to_vec();

    let removed = plan_remove_in_inode_region(&mut region, "user.big");
    assert!(
        matches!(removed, Err(Error::Unsupported(_))),
        "removing it must be refused, not silently orphan the EA inode; got {removed:?}"
    );

    let set = plan_set_in_inode_region(&mut region, "user.other", b"x");
    assert!(
        matches!(set, Err(Error::Unsupported(_))),
        "setting a DIFFERENT attribute must also be refused, because the rewrite \
         re-emits the EA-inode entry too; got {set:?}"
    );
}

#[test]
fn an_ordinary_inline_attribute_is_unaffected() {
    let dev = formatted();
    let mut fs = mount(&dev);
    let ino = fs.apply_create("/plain.txt", 0o644, NOW, 1).expect("create");
    let (inode, mut raw) = fs.read_inode_verified(ino).expect("read inode");
    let inode_size = fs.sb.inode_size as usize;
    let extra_isize = read_le16(&raw, 128) as usize;
    let start = 128 + extra_isize;
    let mut region = raw[start..inode_size].to_vec();
    plan_set_in_inode_region(&mut region, "user.small", b"hello").expect("an ordinary set must still work");
    raw[start..inode_size].copy_from_slice(&region);
    let mut buf = BlockBuffer::new(fs.sb.block_size());
    fs.finalize_inode_raw(ino, inode.generation, &mut raw);
    fs.buffer_write_inode(&mut buf, ino, &raw).expect("write");
    fs.commit_block_buffer(buf).expect("commit");

    let (inode, raw) = fs.read_inode_verified(ino).expect("re-read");
    let got = get_resolved(&fs, &inode, &raw, "user.small")
        .expect("get")
        .expect("present");
    assert_eq!(got, b"hello");
}

#[test]
fn an_orphan_that_still_has_links_is_truncated_not_deleted() {
    let dev = formatted();
    let payload: Vec<u8> = (0..4 * BS as usize).map(|i| (i % 251) as u8).collect();

    let ino = {
        let mut fs = mount(&dev);
        let ino = fs.apply_create("/keep.txt", 0o644, NOW, 1).expect("create");
        fs.apply_pwrite("/keep.txt", 0, &payload, NOW).expect("write");
        fs.apply_link("/keep.txt", "/also-keep.txt").expect("link");
        ino
    };

    let before_free = {
        let mut fs = mount(&dev);
        plant_orphan(&mut fs, ino, 2, Some(BS as u64));
        fs.sb.free_blocks_count
    };

    drop(mount(&dev));

    let fs = mount(&dev);
    assert!(
        fs.orphan_list().expect("orphan_list").is_empty(),
        "recovery must empty the chain"
    );

    let (inode, _) = fs.read_inode_verified(ino).expect("read inode");
    assert_eq!(
        inode.links_count, 2,
        "the file is named twice and was never unlinked; recovery deleted it"
    );
    assert_eq!(inode.dtime, 0, "a live file must not be stamped as deleted");
    assert_eq!(
        inode.size, BS as u64,
        "the interrupted truncate should be finished, not undone"
    );

    assert_eq!(resolve(&fs, "/keep.txt").expect("keep.txt"), ino);
    assert_eq!(resolve(&fs, "/also-keep.txt").expect("also-keep.txt"), ino);

    let data = file_io::read_all(&fs, &inode).expect("read back");
    assert_eq!(
        data.len(),
        BS as usize,
        "the surviving file is its first i_size bytes"
    );
    assert_eq!(
        &data[..],
        &payload[..BS as usize],
        "and those bytes are the ones that were written"
    );

    assert_eq!(
        fs.sb.free_blocks_count,
        before_free + 3,
        "only the three blocks past the new EOF should have been freed"
    );
}

/// A 256-byte inode with a plausible extra_isize.
fn synthetic_inode() -> Vec<u8> {
    let mut raw = vec![0u8; 256];
    raw[0x00..0x02].copy_from_slice(&0x81A4u16.to_le_bytes());
    raw[OFF_EXTRA_ISIZE..OFF_EXTRA_ISIZE + 2].copy_from_slice(&EXTRA_ISIZE_DEFAULT.to_le_bytes());
    raw
}

fn write_file_acl(raw: &mut Vec<u8>, block: u64) -> Result<()> {
    Filesystem::<MemDev>::write_file_acl(raw, block)
}

fn patch_inode_size_and_blocks(raw: &mut Vec<u8>, size: u64, blocks: u64) -> Result<()> {
    Filesystem::<MemDev>::patch_inode_size_and_blocks(raw, size, blocks)
}

#[test]
fn a_file_acl_block_above_2_32_survives_patch_inode_size_and_blocks() {
    let block: u64 = 0x0003_1234_5678;
    let mut raw = synthetic_inode();

    write_file_acl(&mut raw, block).expect("write_file_acl");
    patch_inode_size_and_blocks(&mut raw, 4096, 0x0000_0002_0000_0008).expect("patch_inode_size_and_blocks");

    let inode = Inode::parse(&raw).expect("parse");
    assert_eq!(
        inode.file_acl, block,
        "i_file_acl read back as {:#x}, written as {:#x} - the high half is at \
         0x76..0x78 and the low at 0x68..0x6C",
        inode.file_acl, block
    );
}

#[test]
fn the_splice_leaves_i_blocks_hi_to_the_function_that_owns_it() {
    let mut raw = synthetic_inode();
    patch_inode_size_and_blocks(&mut raw, 4096, 0x0000_0002_0000_0008).expect("patch");
    let blocks_hi_before = read_le16(&raw, 0x74);
    assert_eq!(blocks_hi_before, 2, "the fixture must set a nonzero blocks_hi");

    write_file_acl(&mut raw, 0x0003_1234_5678).expect("write_file_acl");
    assert_eq!(
        read_le16(&raw, 0x74),
        blocks_hi_before,
        "the file_acl splice wrote i_blocks_hi (0x74..0x76), which belongs to \
         patch_inode_size_and_blocks"
    );
    assert_eq!(
        Inode::parse(&raw).expect("parse").blocks,
        0x0000_0002_0000_0008,
        "and i_blocks reads back unchanged"
    );
}

#[test]
fn clearing_file_acl_clears_the_high_half_too() {
    let mut raw = synthetic_inode();
    raw[0x68..0x6C].copy_from_slice(&0x1234_5678u32.to_le_bytes());
    raw[0x76..0x78].copy_from_slice(&3u16.to_le_bytes());
    assert_eq!(
        Inode::parse(&raw).expect("parse").file_acl,
        0x0003_1234_5678,
        "the fixture must present an inode whose file_acl needs both halves"
    );

    write_file_acl(&mut raw, 0).expect("clear");
    patch_inode_size_and_blocks(&mut raw, 4096, 0x0000_0002_0000_0008).expect("patch");
    assert_eq!(
        Inode::parse(&raw).expect("parse").file_acl,
        0,
        "a freed external xattr block must leave no pointer behind"
    );
}

#[test]
fn a_small_file_acl_block_round_trips_as_it_always_did() {
    let mut raw = synthetic_inode();
    write_file_acl(&mut raw, 0x1234_5678).expect("write_file_acl");
    patch_inode_size_and_blocks(&mut raw, 4096, 8).expect("patch");
    assert_eq!(Inode::parse(&raw).expect("parse").file_acl, 0x1234_5678);
}

#[test]
fn an_inode_too_short_for_the_high_half_refuses_a_block_that_needs_one() {
    let mut short = vec![0u8; 0x76];
    assert!(
        write_file_acl(&mut short, 0x0003_1234_5678).is_err(),
        "a 0x76-byte inode has no room for 0x76..0x78 and must not truncate"
    );
    assert_eq!(
        read_le32(&short, 0x68),
        0,
        "a refused write must not leave the truncated low half behind"
    );

    let mut short = vec![0u8; 0x76];
    write_file_acl(&mut short, 0x1234_5678).expect("the low half fits");
    assert_eq!(read_le32(&short, 0x68), 0x1234_5678);

    let mut tiny = vec![0u8; 0x6B];
    assert!(
        write_file_acl(&mut tiny, 0).is_err(),
        "a buffer too short for even the low half must be refused"
    );
}
