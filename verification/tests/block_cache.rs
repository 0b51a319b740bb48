use fs_ext4::block_cache::CachedDevice;
use fs_ext4::block_io::BlockDevice;
use fs_ext4::{Error, Result};
use std::cell::Cell;
use std::rc::Rc;

/// Counts every read and write, so that it shows which ones the cache saves.
struct CountingDevice {
    bytes: Vec<u8>,
    reads: Rc<Cell<u64>>,
    writes: Rc<Cell<u64>>,
    writable: bool,
}

impl CountingDevice {
    fn new(size: usize, writable: bool) -> (CountingDevice, Rc<Cell<u64>>) {
        let reads = Rc::new(Cell::new(0));
        let dev = CountingDevice {
            bytes: vec![0u8; size],
            reads: reads.clone(),
            writes: Rc::new(Cell::new(0)),
            writable,
        };
        (dev, reads)
    }
}

impl BlockDevice for CountingDevice {
    fn read_at(&self, offset: u64, len: usize) -> Result<Vec<u8>> {
        self.reads.set(self.reads.get() + 1);
        let off = offset as usize;
        if off + len > self.bytes.len() {
            return Err(Error::Io);
        }
        Ok(self.bytes[off..off + len].to_vec())
    }

    fn size_bytes(&self) -> u64 {
        self.bytes.len() as u64
    }

    fn write_at(&mut self, offset: u64, data: &[u8]) -> Result<()> {
        self.writes.set(self.writes.get() + 1);
        let off = offset as usize;
        self.bytes[off..off + data.len()].copy_from_slice(data);
        Ok(())
    }

    fn flush(&mut self) -> Result<()> {
        Ok(())
    }

    fn is_writable(&self) -> bool {
        self.writable
    }
}

#[test]
fn second_read_of_same_block_is_a_cache_hit() {
    let (inner, reads) = CountingDevice::new(4096 * 16, false);
    let mut cached = CachedDevice::new(inner, 4096, 8);
    cached.read_at(0, 100).unwrap();
    cached.read_at(0, 100).unwrap();
    cached.read_at(50, 100).unwrap();
    assert_eq!(reads.get(), 1, "cache should serve all 3 from one read");
    let (hits, misses) = cached.stats();
    assert_eq!(hits, 2);
    assert_eq!(misses, 1);
}

#[test]
fn write_invalidates_cache_entry() {
    let (inner, reads) = CountingDevice::new(4096 * 16, true);
    let mut cached = CachedDevice::new(inner, 4096, 8);
    cached.read_at(0, 100).unwrap();
    cached.write_at(0, &[42u8; 100]).unwrap();
    let buf = cached.read_at(0, 100).unwrap();
    assert_eq!(reads.get(), 2);
    assert_eq!(buf[0], 42, "post-write read should see the new bytes");
}

#[test]
fn multi_block_read_bypasses_cache() {
    let (inner, reads) = CountingDevice::new(4096 * 16, false);
    let mut cached = CachedDevice::new(inner, 4096, 8);
    cached.read_at(0, 8000).unwrap();
    cached.read_at(0, 8000).unwrap();
    assert_eq!(reads.get(), 2);
    let (hits, misses) = cached.stats();
    assert_eq!(hits, 0);
    assert_eq!(misses, 0, "multi-block reads bypass entirely");
}

#[test]
fn lru_evicts_oldest_when_capacity_exceeded() {
    let (inner, _) = CountingDevice::new(4096 * 16, false);
    let mut cached = CachedDevice::new(inner, 4096, 2);
    for blk in 0..3u64 {
        cached.read_at(blk * 4096, 8).unwrap();
    }
    cached.read_at(0, 8).unwrap();
    cached.read_at(2 * 4096, 8).unwrap();
    let (hits, misses) = cached.stats();
    assert_eq!(misses, 4, "blocks 0,1,2 + re-read of 0 (evicted)");
    assert_eq!(hits, 1, "re-read of 2 still cached");
}

#[test]
fn lru_keeps_recently_touched_block_alive() {
    let (inner, _) = CountingDevice::new(4096 * 16, false);
    let mut cached = CachedDevice::new(inner, 4096, 2);
    cached.read_at(0, 8).unwrap();
    cached.read_at(4096, 8).unwrap();
    cached.read_at(0, 8).unwrap();
    cached.read_at(2 * 4096, 8).unwrap();
    cached.read_at(0, 8).unwrap();
    let (hits, misses) = cached.stats();
    assert_eq!(hits, 2);
    assert_eq!(misses, 3);
    cached.read_at(4096, 8).unwrap();
    let (_, m_after) = cached.stats();
    assert_eq!(m_after, 4, "block 1 was evicted, re-read is a miss");
}

#[test]
fn a_cache_without_capacity_still_holds_one_block() {
    let (inner, reads) = CountingDevice::new(4096 * 4, false);
    let mut cached = CachedDevice::new(inner, 4096, 0);
    cached.read_at(0, 8).unwrap();
    cached.read_at(8, 8).unwrap();
    assert_eq!(reads.get(), 1);
    assert_eq!(cached.stats(), (1, 1));
}

#[test]
fn a_write_drops_every_block_it_touches_and_no_other() {
    let (inner, reads) = CountingDevice::new(4096 * 16, true);
    let mut cached = CachedDevice::new(inner, 4096, 8);
    for blk in 0..4u64 {
        cached.read_at(blk * 4096, 8).unwrap();
    }
    assert_eq!(reads.get(), 4);
    cached.write_at(4096 + 4000, &[7u8; 200]).unwrap();
    cached.read_at(0, 8).unwrap();
    cached.read_at(3 * 4096, 8).unwrap();
    assert_eq!(reads.get(), 4, "blocks 0 and 3 are still cached");
    assert_eq!(cached.read_at(4096 + 4000, 96).unwrap(), vec![7u8; 96]);
    assert_eq!(cached.read_at(2 * 4096, 104).unwrap(), vec![7u8; 104]);
    assert_eq!(reads.get(), 6);
}

#[test]
fn a_read_past_the_end_fails_and_caches_nothing() {
    let (inner, _) = CountingDevice::new(4096 * 2, false);
    let mut cached = CachedDevice::new(inner, 4096, 8);
    assert_eq!(cached.read_at(2 * 4096, 8), Err(Error::Io));
    assert_eq!(cached.stats(), (0, 1));
    assert_eq!(cached.size_bytes(), 8192);
    assert!(!cached.is_writable());
    assert_eq!(cached.flush(), Ok(()));
}

#[test]
fn a_read_through_the_cache_gives_what_the_device_gives() {
    let (mut inner, _) = CountingDevice::new(4096 * 4, false);
    for (i, b) in inner.bytes.iter_mut().enumerate() {
        *b = (i % 251) as u8;
    }
    let bytes = inner.bytes.clone();
    let mut cached = CachedDevice::new(inner, 4096, 2);
    for (at, len) in [(0usize, 4096usize), (4095, 1), (4095, 2), (10, 3 * 4096), (3 * 4096, 4096), (3 * 4096 + 9, 7)] {
        assert_eq!(cached.read_at(at as u64, len).unwrap(), bytes[at..at + len].to_vec());
    }
    assert_eq!(cached.read_at(4 * 4096, 1), Err(Error::Io));
    assert_eq!(cached.read_at(4 * 4096, 0), Err(Error::Io), "there is no block to cache there");
}
