//! A cache of the blocks read last.
//!
//! Reads that lie within one block go through the cache; longer ones bypass
//! it. A write drops every cached block that it touches before it goes to the
//! device, so that what is cached is always what the device holds.
use crate::block_io::{block_at, read_range, BlockDevice};
use crate::bytes::{copy_range, splice};
use crate::error::{Error, Result};
use vstd::prelude::*;

verus! {

/// One cached block.
struct CacheEntry {
    block: u64,
    bytes: Vec<u8>,
}

/// The cached blocks, the one used longest ago first.
struct CacheState {
    capacity: usize,
    entries: Vec<CacheEntry>,
    hits: u64,
    misses: u64,
}

/// The place of a block among others, if it is there.
pub open spec fn place_of_block(blocks: Seq<u64>, b: u64) -> Option<int>
    decreases blocks.len(),
{
    if blocks.len() == 0 {
        None
    } else if blocks[0] == b {
        Some(0)
    } else {
        match place_of_block(blocks.drop_first(), b) {
            Some(i) => Some(i + 1),
            None => None,
        }
    }
}

/// Blocks in order of use, with one of them used.
pub open spec fn used(blocks: Seq<u64>, i: int) -> Seq<u64> {
    blocks.remove(i).push(blocks[i])
}

/// Blocks in order of use, with a new one: at most `capacity` of them, the one
/// used longest ago going first.
pub open spec fn with_new(blocks: Seq<u64>, capacity: int, b: u64) -> Seq<u64> {
    if blocks.len() >= capacity {
        blocks.drop_first().push(b)
    } else {
        blocks.push(b)
    }
}

/// Blocks in order of use, without those from `first` to `last`.
pub open spec fn without_range(blocks: Seq<u64>, first: int, last: int) -> Seq<u64>
    decreases blocks.len(),
{
    if blocks.len() == 0 {
        Seq::empty()
    } else {
        let before = without_range(blocks.drop_last(), first, last);
        if first <= blocks.last() <= last {
            before
        } else {
            before.push(blocks.last())
        }
    }
}

impl CacheState {
    spec fn blocks(&self) -> Seq<u64> {
        Seq::new(self.entries@.len(), |i: int| self.entries@[i].block)
    }

    /// Every cached block is what the device holds, and there is room for all.
    spec fn coherent(&self, img: Seq<u8>, bs: int) -> bool {
        &&& self.capacity >= 1
        &&& self.entries@.len() <= self.capacity
        &&& forall|i: int|
            0 <= i < self.entries@.len() ==> block_at(
                img,
                bs,
                (#[trigger] self.entries@[i]).block as int,
            ) == Ok::<Seq<u8>, Error>(self.entries@[i].bytes@)
    }

    fn position(&self, block: u64) -> (r: Option<usize>)
        ensures
            match r {
                Some(i) => place_of_block(self.blocks(), block) == Some(i as int) && i < self.entries@.len()
                    && self.entries@[i as int].block == block,
                None => place_of_block(self.blocks(), block) is None,
            },
    {
        let ghost all = self.blocks();
        let mut i: usize = 0;
        assert(all.skip(0) =~= all);
        while i < self.entries.len()
            invariant
                i <= self.entries@.len(),
                all == self.blocks(),
                place_of_block(all, block) == (match place_of_block(all.skip(i as int), block) {
                    Some(k) => Some(k + i),
                    None => None,
                }),
            decreases self.entries@.len() - i,
        {
            assert(all.skip(i as int)[0] == self.entries@[i as int].block);
            if self.entries[i].block == block {
                return Some(i);
            }
            assert(all.skip(i as int).drop_first() =~= all.skip(i + 1));
            i += 1;
        }
        None
    }

    /// Look up `block`. A hit is counted, and makes the block the one used
    /// last; so is a miss.
    fn get(&mut self, block: u64, Ghost(img): Ghost<Seq<u8>>, Ghost(bs): Ghost<int>) -> (r: Option<Vec<u8>>)
        requires
            old(self).coherent(img, bs),
        ensures
            final(self).coherent(img, bs),
            final(self).capacity == old(self).capacity,
            match place_of_block(old(self).blocks(), block) {
                Some(i) => r is Some && block_at(img, bs, block as int) == Ok::<Seq<u8>, Error>(r->0@)
                    && final(self).blocks() == used(old(self).blocks(), i) && final(self).hits == counted(
                    old(self).hits,
                ) && final(self).misses == old(self).misses,
                None => r is None && final(self).blocks() == old(self).blocks() && final(self).hits
                    == old(self).hits && final(self).misses == counted(old(self).misses),
            },
    {
        let ghost e0 = self.entries@;
        let ghost b0 = self.blocks();
        match self.position(block) {
            None => {
                self.misses = self.misses.wrapping_add(1);
                assert(self.blocks() =~= b0);
                None
            },
            Some(i) => {
                self.hits = self.hits.wrapping_add(1);
                let entry: CacheEntry = self.entries.remove(i);
                assert(entry == e0[i as int]);
                let bytes: Vec<u8> = copy_range(&entry.bytes, 0, entry.bytes.len());
                assert(bytes@ =~= entry.bytes@);
                self.entries.push(entry);
                proof {
                    assert(self.blocks() =~= used(b0, i as int));
                    assert forall|k: int| 0 <= k < self.entries@.len() implies block_at(
                        img,
                        bs,
                        (#[trigger] self.entries@[k]).block as int,
                    ) == Ok::<Seq<u8>, Error>(self.entries@[k].bytes@) by {
                        if k < i {
                            assert(self.entries@[k] == e0[k]);
                        } else if k < self.entries@.len() - 1 {
                            assert(self.entries@[k] == e0[k + 1]);
                        } else {
                            assert(self.entries@[k] == e0[i as int]);
                        }
                    }
                }
                Some(bytes)
            },
        }
    }

    /// Add `block`, which is not cached; at capacity the block used longest
    /// ago goes.
    fn put(&mut self, block: u64, bytes: Vec<u8>, Ghost(img): Ghost<Seq<u8>>, Ghost(bs): Ghost<int>)
        requires
            old(self).coherent(img, bs),
            block_at(img, bs, block as int) == Ok::<Seq<u8>, Error>(bytes@),
        ensures
            final(self).coherent(img, bs),
            final(self).capacity == old(self).capacity,
            final(self).blocks() == with_new(old(self).blocks(), old(self).capacity as int, block),
            final(self).hits == old(self).hits,
            final(self).misses == old(self).misses,
    {
        let ghost e0 = self.entries@;
        let ghost b0 = self.blocks();
        if self.entries.len() >= self.capacity {
            let _oldest: CacheEntry = self.entries.remove(0);
            assert forall|k: int| 0 <= k < self.entries@.len() implies block_at(
                img,
                bs,
                (#[trigger] self.entries@[k]).block as int,
            ) == Ok::<Seq<u8>, Error>(self.entries@[k].bytes@) by {
                assert(self.entries@[k] == e0[k + 1]);
            }
            assert(self.blocks() =~= b0.drop_first());
        }
        self.entries.push(CacheEntry { block, bytes });
        assert(self.blocks() =~= with_new(b0, old(self).capacity as int, block));
    }

    /// Drop the blocks from `first` to `last`.
    fn invalidate(&mut self, first: u64, last: u64, Ghost(img): Ghost<Seq<u8>>, Ghost(bs): Ghost<int>)
        requires
            old(self).coherent(img, bs),
        ensures
            final(self).coherent(img, bs),
            final(self).capacity == old(self).capacity,
            final(self).blocks() == without_range(old(self).blocks(), first as int, last as int),
            final(self).hits == old(self).hits,
            final(self).misses == old(self).misses,
            forall|i: int|
                0 <= i < final(self).entries@.len() ==> !(first <= (#[trigger] final(self).entries@[i]).block
                    <= last),
    {
        let ghost b0 = self.blocks();
        let ghost mut k: int = 0;
        let mut i: usize = 0;
        proof {
            assert(b0.take(0) =~= Seq::<u64>::empty());
            assert(self.blocks() =~= without_range(b0.take(0), first as int, last as int) + b0.skip(0));
        }
        while i < self.entries.len()
            invariant
                0 <= k <= b0.len(),
                b0 == old(self).blocks(),
                self.coherent(img, bs),
                self.capacity == old(self).capacity,
                self.hits == old(self).hits,
                self.misses == old(self).misses,
                i <= self.entries@.len(),
                i == without_range(b0.take(k), first as int, last as int).len(),
                self.blocks() == without_range(b0.take(k), first as int, last as int) + b0.skip(k),
                forall|j: int|
                    0 <= j < i ==> !(first <= (#[trigger] self.entries@[j]).block <= last),
            decreases self.entries@.len() - i,
        {
            let ghost kept = without_range(b0.take(k), first as int, last as int);
            let ghost now = self.blocks();
            let ghost e0 = self.entries@;
            proof {
                assert(now.len() == kept.len() + b0.skip(k).len());
                assert(now[i as int] == b0.skip(k)[0]);
                assert(self.entries@[i as int].block == b0[k]);
                assert(b0.take(k + 1).drop_last() =~= b0.take(k));
                assert(b0.take(k + 1).last() == b0[k]);
            }
            let block: u64 = self.entries[i].block;
            if first <= block && block <= last {
                let _gone: CacheEntry = self.entries.remove(i);
                proof {
                    assert(self.blocks() =~= now.remove(i as int));
                    assert(now.remove(i as int) =~= kept + b0.skip(k + 1));
                    assert forall|j: int| 0 <= j < self.entries@.len() implies block_at(
                        img,
                        bs,
                        (#[trigger] self.entries@[j]).block as int,
                    ) == Ok::<Seq<u8>, Error>(self.entries@[j].bytes@) by {
                        if j < i {
                            assert(self.entries@[j] == e0[j]);
                        } else {
                            assert(self.entries@[j] == e0[j + 1]);
                        }
                    }
                    assert forall|j: int| 0 <= j < i implies !(first <= (
                    #[trigger] self.entries@[j]).block <= last) by {
                        assert(self.entries@[j] == e0[j]);
                    }
                }
            } else {
                i += 1;
                assert(self.blocks() =~= kept.push(b0[k]) + b0.skip(k + 1));
            }
            proof {
                k = k + 1;
            }
        }
        proof {
            assert(k == b0.len()) by {
                assert(self.blocks().len() == i + b0.skip(k).len());
            }
            assert(b0.take(k) =~= b0);
            assert(self.blocks() =~= without_range(b0, first as int, last as int));
        }
    }
}

/// A count one higher.
pub open spec fn counted(n: u64) -> u64 {
    if n == u64::MAX {
        0
    } else {
        (n + 1) as u64
    }
}

/// What a read through the cache gives. One within a block needs the whole
/// block to be on the device.
pub open spec fn cached_read(img: Seq<u8>, bs: int, offset: int, len: int) -> Result<Seq<u8>> {
    if offset % bs + len <= bs {
        match block_at(img, bs, offset / bs) {
            Err(e) => Err(e),
            Ok(b) => Ok(b.subrange(offset % bs, offset % bs + len)),
        }
    } else {
        read_range(img, offset, len)
    }
}

/// What a read through the cache gives is what the device gives, on a device of
/// whole blocks and where something is read. A read of nothing at the very end
/// of a device is one that the two answer differently: the cache asks for the
/// block that would come there.
pub proof fn law_cache_reads_as_the_device(img: Seq<u8>, bs: int, offset: u64, len: int)
    requires
        bs > 0,
        img.len() % (bs as nat) == 0,
        len > 0,
    ensures
        cached_read(img, bs, offset as int, len) == read_range(img, offset as int, len),
{
    let n = offset as int / bs;
    let within = offset as int % bs;
    let count = img.len() as int / bs;
    vstd::arithmetic::div_mod::lemma_fundamental_div_mod(offset as int, bs);
    vstd::arithmetic::div_mod::lemma_fundamental_div_mod(img.len() as int, bs);
    vstd::arithmetic::mul::lemma_mul_is_commutative(n, bs);
    vstd::arithmetic::mul::lemma_mul_is_commutative(count, bs);
    if within + len <= bs {
        assert(n < count ==> n * bs + bs <= count * bs) by (nonlinear_arith)
            requires
                bs > 0,
        ;
        assert(n >= count ==> n * bs >= count * bs) by (nonlinear_arith)
            requires
                bs > 0,
        ;
        if n < count {
            assert(img.subrange(n * bs, n * bs + bs).subrange(within, within + len) =~= img.subrange(
                offset as int,
                offset + len,
            ));
        }
    }
}

/// A device behind a cache of its blocks.
pub struct CachedDevice<D: BlockDevice> {
    inner: D,
    block_size: u32,
    state: CacheState,
    /// How often the device was asked to read.
    asked: Ghost<nat>,
}

impl<D: BlockDevice> CachedDevice<D> {
    /// What is cached is what the device holds.
    pub closed spec fn wf(&self) -> bool {
        self.block_size > 0 && self.state.coherent(self.inner.contents(), self.block_size as int)
    }

    /// The device behind the cache.
    pub closed spec fn device(&self) -> D {
        self.inner
    }

    /// Bytes per block.
    pub closed spec fn bs(&self) -> int {
        self.block_size as int
    }

    /// The most blocks cached at a time.
    pub closed spec fn capacity(&self) -> int {
        self.state.capacity as int
    }

    /// The blocks cached, the one used longest ago first.
    pub closed spec fn cached(&self) -> Seq<u64> {
        self.state.blocks()
    }

    /// How often the device behind the cache was asked to read.
    pub closed spec fn device_reads(&self) -> nat {
        self.asked@
    }

    pub closed spec fn hits(&self) -> u64 {
        self.state.hits
    }

    pub closed spec fn misses(&self) -> u64 {
        self.state.misses
    }

    /// Wrap `inner` with a cache of `capacity` blocks, at least one.
    pub fn new(inner: D, block_size: u32, capacity: usize) -> (r: Self)
        requires
            block_size > 0,
        ensures
            r.wf(),
            r.device() == inner,
            r.bs() == block_size,
            r.capacity() == (if capacity == 0 {
                1
            } else {
                capacity as int
            }),
            r.cached() == Seq::<u64>::empty(),
            r.hits() == 0,
            r.misses() == 0,
            r.device_reads() == 0,
    {
        let state = CacheState {
            capacity: if capacity == 0 {
                1
            } else {
                capacity
            },
            entries: Vec::new(),
            hits: 0,
            misses: 0,
        };
        assert(state.blocks() =~= Seq::<u64>::empty());
        CachedDevice { inner, block_size, state, asked: Ghost(0) }
    }

    /// Snapshot (hits, misses).
    pub fn stats(&self) -> (r: (u64, u64))
        ensures
            r == (self.hits(), self.misses()),
    {
        (self.state.hits, self.state.misses)
    }

    /// Never more than its capacity is cached.
    pub proof fn law_capacity_is_kept(&self)
        requires
            self.wf(),
        ensures
            self.cached().len() <= self.capacity(),
    {
    }

    /// Read `len` bytes from `offset` on. A block that is cached is not read
    /// from the device again.
    pub fn read_at(&mut self, offset: u64, len: usize) -> (r: Result<Vec<u8>>)
        requires
            old(self).wf(),
        ensures
            final(self).wf(),
            final(self).device() == old(self).device(),
            final(self).bs() == old(self).bs(),
            final(self).capacity() == old(self).capacity(),
            match r {
                Ok(b) => cached_read(
                    old(self).device().contents(),
                    old(self).bs(),
                    offset as int,
                    len as int,
                ) == Ok::<Seq<u8>, Error>(b@),
                Err(e) => e == Error::Io && (old(self).device().healthy() ==> cached_read(
                    old(self).device().contents(),
                    old(self).bs(),
                    offset as int,
                    len as int,
                ) == Err::<Seq<u8>, Error>(e)),
            },
            ({
                let block = (offset as int / old(self).bs()) as u64;
                if offset as int % old(self).bs() + len > old(self).bs() {
                    final(self).cached() == old(self).cached() && final(self).hits() == old(self).hits()
                        && final(self).misses() == old(self).misses() && final(self).device_reads() == old(
                        self,
                    ).device_reads() + 1
                } else {
                    match place_of_block(old(self).cached(), block) {
                        Some(i) => r is Ok && final(self).device_reads() == old(self).device_reads()
                            && final(self).cached() == used(old(self).cached(), i) && final(self).hits()
                            == counted(old(self).hits()) && final(self).misses() == old(self).misses(),
                        None => final(self).device_reads() == old(self).device_reads() + 1 && final(self).hits()
                            == old(self).hits() && final(self).misses() == counted(
                            old(self).misses(),
                        ) && final(self).cached() == (if r is Ok {
                            with_new(old(self).cached(), old(self).capacity(), block)
                        } else {
                            old(self).cached()
                        }),
                    }
                }
            }),
    {
        let bs: u64 = self.block_size as u64;
        let block: u64 = offset / bs;
        let within: u64 = offset % bs;
        let ghost img = self.inner.contents();
        if len as u64 > bs - within {
            self.asked = Ghost(self.asked@ + 1);
            return self.inner.read_at(offset, len);
        }
        let from: usize = within as usize;
        if let Some(b) = self.state.get(block, Ghost(img), Ghost(bs as int)) {
            return Ok(copy_range(&b, from, from + len));
        }
        assert(block * bs <= offset) by (nonlinear_arith)
            requires
                block == offset / bs,
                bs > 0,
        ;
        self.asked = Ghost(self.asked@ + 1);
        let b: Vec<u8> = match self.inner.read_at(block * bs, bs as usize) {
            Ok(b) => b,
            Err(e) => {
                return Err(e);
            },
        };
        let part: Vec<u8> = copy_range(&b, from, from + len);
        self.state.put(block, b, Ghost(img), Ghost(bs as int));
        Ok(part)
    }

    /// Total length in bytes.
    pub fn size_bytes(&self) -> (r: u64)
        ensures
            r == self.device().contents().len(),
    {
        self.inner.size_bytes()
    }

    /// Write `data` at `offset`, dropping every cached block it touches.
    pub fn write_at(&mut self, offset: u64, data: &[u8]) -> (r: Result<()>)
        requires
            old(self).wf(),
            offset + data@.len() <= u64::MAX,
        ensures
            final(self).wf(),
            final(self).bs() == old(self).bs(),
            final(self).capacity() == old(self).capacity(),
            final(self).hits() == old(self).hits(),
            final(self).misses() == old(self).misses(),
            final(self).device_reads() == old(self).device_reads(),
            final(self).cached() == without_range(
                old(self).cached(),
                offset as int / old(self).bs(),
                (if offset + data@.len() == 0 {
                    0
                } else {
                    offset + data@.len() - 1
                }) / old(self).bs(),
            ),
            final(self).device().healthy() == old(self).device().healthy(),
            final(self).device().writable() == old(self).device().writable(),
            final(self).device().contents().len() == old(self).device().contents().len(),
            match r {
                Ok(_) => old(self).device().writable() && final(self).device().contents() == splice(
                    old(self).device().contents(),
                    offset as int,
                    data@,
                ),
                Err(e) => e == Error::Io && (old(self).device().healthy() && old(self).device().writable()
                    ==> offset + data@.len() > old(self).device().contents().len()),
            },
    {
        let bs: u64 = self.block_size as u64;
        let ghost img0 = self.inner.contents();
        let first: u64 = offset / bs;
        let end: u64 = offset + data.len() as u64;
        let last: u64 = (if end == 0 {
            0
        } else {
            end - 1
        }) / bs;
        self.state.invalidate(first, last, Ghost(img0), Ghost(bs as int));
        let r = self.inner.write_at(offset, data);
        proof {
            let img = self.inner.contents();
            assert forall|i: int| 0 <= i < self.state.entries@.len() implies block_at(
                img,
                bs as int,
                (#[trigger] self.state.entries@[i]).block as int,
            ) == Ok::<Seq<u8>, Error>(self.state.entries@[i].bytes@) by {
                let b = self.state.entries@[i].block;
                lemma_apart(b as int, bs as int, offset as int, end as int, first as int, last as int);
                assert(img.subrange(b * bs, b * bs + bs) =~= img0.subrange(b * bs, b * bs + bs));
            }
        }
        r
    }

    /// Make what was written durable.
    pub fn flush(&mut self) -> (r: Result<()>)
        requires
            old(self).wf(),
        ensures
            final(self).wf(),
            final(self).device().contents() == old(self).device().contents(),
            final(self).device().healthy() == old(self).device().healthy(),
            final(self).device().writable() == old(self).device().writable(),
            final(self).bs() == old(self).bs(),
            final(self).capacity() == old(self).capacity(),
            final(self).cached() == old(self).cached(),
            final(self).hits() == old(self).hits(),
            final(self).misses() == old(self).misses(),
            final(self).device_reads() == old(self).device_reads(),
            match r {
                Ok(_) => final(self).device().durable() == final(self).device().contents(),
                Err(e) => e == Error::Io && !old(self).device().healthy(),
            },
    {
        self.inner.flush()
    }

    /// Whether the device takes writes.
    pub fn is_writable(&self) -> (r: bool)
        ensures
            r == self.device().writable(),
    {
        self.inner.is_writable()
    }
}

/// A block outside the ones a range touches has no byte of the range.
proof fn lemma_apart(b: int, bs: int, from: int, to: int, first: int, last: int)
    requires
        bs > 0,
        0 <= from <= to,
        first == from / bs,
        last == (if to == 0 {
            0
        } else {
            to - 1
        }) / bs,
        b >= 0,
        !(first <= b <= last),
    ensures
        b * bs + bs <= from || to <= b * bs || from == to,
{
    vstd::arithmetic::div_mod::lemma_fundamental_div_mod(from, bs);
    if to > from {
        vstd::arithmetic::div_mod::lemma_fundamental_div_mod(to - 1, bs);
        if b < first {
            assert(b * bs + bs <= bs * first) by (nonlinear_arith)
                requires
                    b + 1 <= first,
                    bs > 0,
            ;
        } else {
            assert(bs * last + bs <= b * bs) by (nonlinear_arith)
                requires
                    last + 1 <= b,
                    bs > 0,
            ;
        }
    }
}

} // verus!
