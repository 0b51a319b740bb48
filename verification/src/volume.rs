//! A mounted volume as a value, and edits staged against it.
//!
//! Every operation reads the volume as it stands, stages whole blocks into a
//! [`BlockBuffer`], and commits them together. A stage is worth the image it
//! would leave behind.
use crate::bgd::BlockGroupDescriptor;
use crate::block_io::{block_at, has_block, read_device_block, with_block, BlockDevice, BlockSource};
use crate::bytes::copy_range;
use crate::checksum::Checksummer;
use crate::error::{Error, Result};
use crate::superblock::Superblock;
use vstd::prelude::*;

verus! {

/// What a mounted volume is: the bytes of the device and what the mount read
/// out of them.
pub struct Vol {
    pub img: Seq<u8>,
    pub sb: Superblock,
    pub groups: Seq<BlockGroupDescriptor>,
    pub csum: Checksummer,
}

impl Vol {
    /// Bytes per block.
    pub open spec fn bs(&self) -> int {
        self.sb.bs()
    }

    /// Block `n`.
    pub open spec fn block(&self, n: int) -> Result<Seq<u8>> {
        block_at(self.img, self.bs(), n)
    }

    /// The limits every mounted volume keeps to.
    pub open spec fn wf(&self) -> bool {
        &&& self.sb.wf()
        &&& self.groups.len() <= u32::MAX
        &&& self.groups.len() <= self.sb.group_count()
        &&& self.img.len() <= u64::MAX
    }
}

/// A volume with edits staged: the image they would leave, the groups whose
/// bitmaps they bring into use, with the descriptor flags that remain, and the
/// blocks that a commit writes.
#[verifier::ext_equal]
pub struct Stage {
    pub img: Seq<u8>,
    pub cleared: Seq<(usize, u16)>,
    pub touched: Set<u64>,
}

/// Nothing staged.
pub open spec fn fresh_stage(v: Vol) -> Stage {
    Stage { img: v.img, cleared: Seq::empty(), touched: Set::empty() }
}

/// The stage with block `n` replaced.
pub open spec fn stage_block(v: Vol, st: Stage, n: int, b: Seq<u8>) -> Stage {
    Stage { img: with_block(st.img, v.bs(), n, b), touched: st.touched.insert(n as u64), ..st }
}

/// The image with each block of `m` in its place.
pub open spec fn overlay_blocks(img: Seq<u8>, bs: int, m: Map<u64, Seq<u8>>) -> Seq<u8> {
    Seq::new(
        img.len(),
        |p: int|
            if 0 <= p / bs <= u64::MAX && m.contains_key((p / bs) as u64) {
                m[(p / bs) as u64][p % bs]
            } else {
                img[p]
            },
    )
}

/// The blocks of a list, the later of two with one number counting.
pub open spec fn blocks_map(s: Seq<(u64, Vec<u8>)>) -> Map<u64, Seq<u8>>
    decreases s.len(),
{
    if s.len() == 0 {
        Map::empty()
    } else {
        blocks_map(s.drop_last()).insert(s.last().0, s.last().1@)
    }
}

/// No block number occurs twice.
pub open spec fn distinct_keys(s: Seq<(u64, Vec<u8>)>) -> bool {
    forall|i: int, j: int| 0 <= i < j < s.len() ==> s[i].0 != s[j].0
}

/// The map of a list without repeats holds each of its entries and no more.
pub proof fn lemma_blocks_map(s: Seq<(u64, Vec<u8>)>)
    requires
        distinct_keys(s),
    ensures
        forall|i: int|
            0 <= i < s.len() ==> blocks_map(s).contains_key(#[trigger] s[i].0) && blocks_map(s)[s[i].0]
                == s[i].1@,
        forall|k: u64|
            blocks_map(s).contains_key(k) ==> exists|i: int| 0 <= i < s.len() && #[trigger] s[i].0 == k,
    decreases s.len(),
{
    if s.len() > 0 {
        let t = s.drop_last();
        lemma_blocks_map(t);
        assert forall|i: int| 0 <= i < s.len() implies blocks_map(s).contains_key(#[trigger] s[i].0)
            && blocks_map(s)[s[i].0] == s[i].1@ by {
            if i < t.len() {
                assert(t[i].0 == s[i].0);
                assert(s[i].0 != s[s.len() - 1].0);
            }
        }
        assert forall|k: u64| blocks_map(s).contains_key(k) implies exists|i: int|
            0 <= i < s.len() && #[trigger] s[i].0 == k by {
            if k == s.last().0 {
                assert(s[s.len() - 1].0 == k);
            } else {
                assert(blocks_map(t).contains_key(k));
                assert(exists|i: int| 0 <= i < t.len() && #[trigger] t[i].0 == k);
                let i = choose|i: int| 0 <= i < t.len() && #[trigger] t[i].0 == k;
                assert(t[i] == s[i]);
                assert(s[i].0 == k);
            }
        }
    }
}

/// A byte lies in block `n` exactly when its offset is in the block's range.
proof fn lemma_byte_block(p: int, bs: int, n: int)
    requires
        bs > 0,
        p >= 0,
    ensures
        (p / bs == n) == (n * bs <= p < n * bs + bs),
        p / bs == n ==> p % bs == p - n * bs,
        0 <= p % bs < bs,
        p / bs >= 0,
{
    vstd::arithmetic::div_mod::lemma_fundamental_div_mod(p, bs);
    let q = p / bs;
    let m = p % bs;
    assert(bs * q == q * bs) by (nonlinear_arith);
    assert(0 <= m < bs);
    assert(q >= 0) by (nonlinear_arith)
        requires
            p == q * bs + m,
            0 <= m < bs,
            p >= 0,
            bs > 0,
    ;
    if n * bs <= p < n * bs + bs {
        assert(q == n) by (nonlinear_arith)
            requires
                p == q * bs + m,
                0 <= m < bs,
                n * bs <= p < n * bs + bs,
        ;
    }
}

/// Staging one more block replaces it in the image.
pub proof fn lemma_overlay_insert(img: Seq<u8>, bs: int, m: Map<u64, Seq<u8>>, n: u64, b: Seq<u8>)
    requires
        bs > 0,
        b.len() == bs,
    ensures
        overlay_blocks(img, bs, m.insert(n, b)) == with_block(overlay_blocks(img, bs, m), bs, n as int, b),
{
    let left = overlay_blocks(img, bs, m.insert(n, b));
    let right = with_block(overlay_blocks(img, bs, m), bs, n as int, b);
    assert forall|p: int| 0 <= p < img.len() implies left[p] == right[p] by {
        lemma_byte_block(p, bs, n as int);
    }
    assert(left =~= right);
}

/// A staged block reads as staged; any other as on the device.
pub proof fn lemma_overlay_block(img: Seq<u8>, bs: int, m: Map<u64, Seq<u8>>, n: u64)
    requires
        bs > 0,
        m.contains_key(n) ==> m[n].len() == bs,
    ensures
        block_at(overlay_blocks(img, bs, m), bs, n as int) == (if m.contains_key(n) && has_block(
            img,
            bs,
            n as int,
        ) {
            Ok(m[n])
        } else {
            block_at(img, bs, n as int)
        }),
{
    let out = overlay_blocks(img, bs, m);
    assert(n * bs >= 0) by (nonlinear_arith)
        requires
            bs > 0,
            n >= 0,
    ;
    if has_block(img, bs, n as int) {
        let got = out.subrange(n * bs, n * bs + bs);
        let want = if m.contains_key(n) {
            m[n]
        } else {
            img.subrange(n * bs, n * bs + bs)
        };
        assert forall|i: int| 0 <= i < bs implies got[i] == want[i] by {
            lemma_byte_block(n * bs + i, bs, n as int);
        }
        assert(got =~= want);
    }
}

/// With nothing staged the image is the device's.
pub proof fn lemma_overlay_empty(img: Seq<u8>, bs: int)
    ensures
        overlay_blocks(img, bs, Map::empty()) == img,
{
    assert(overlay_blocks(img, bs, Map::empty()) =~= img);
}

/// Accumulator for the blocks of one commit. Each edit reads the latest
/// version of a block, from here if already touched, and puts the new one
/// back.
pub struct BlockBuffer {
    pub dirty: Vec<(u64, Vec<u8>)>,
    /// Groups whose uninit flag this buffer clears, with the descriptor flags
    /// left behind, held until the buffer is committed: a commit that fails
    /// must not make a bitmap look real.
    pub uninit_cleared: Vec<(usize, u16)>,
}

impl View for BlockBuffer {
    type V = Map<u64, Seq<u8>>;

    open spec fn view(&self) -> Map<u64, Seq<u8>> {
        blocks_map(self.dirty@)
    }
}

impl BlockBuffer {
    /// Every staged block is a whole block of the volume.
    pub open spec fn wf(&self, v: Vol) -> bool {
        &&& distinct_keys(self.dirty@)
        &&& forall|k: u64| #[trigger]
            self@.contains_key(k) ==> self@[k].len() == v.bs() && has_block(v.img, v.bs(), k as int)
    }

    /// What the buffer is worth on volume `v`.
    pub open spec fn stage(&self, v: Vol) -> Stage {
        Stage { img: overlay_blocks(v.img, v.bs(), self@), cleared: self.uninit_cleared@, touched: self@.dom() }
    }

    /// An empty buffer for blocks of `block_size` bytes.
    pub fn new(block_size: u32) -> (r: BlockBuffer)
        ensures
            r@ == Map::<u64, Seq<u8>>::empty(),
            r.uninit_cleared@ == Seq::<(usize, u16)>::empty(),
            forall|v: Vol| #[trigger] r.wf(v) && r.stage(v) == fresh_stage(v),
    {
        let r = BlockBuffer { dirty: Vec::new(), uninit_cleared: Vec::new() };
        proof {
            assert forall|v: Vol| #[trigger] r.wf(v) && r.stage(v) == fresh_stage(v) by {
                lemma_overlay_empty(v.img, v.bs());
            }
        }
        r
    }

    fn position(&self, n: u64) -> (r: Option<usize>)
        requires
            distinct_keys(self.dirty@),
        ensures
            match r {
                Some(i) => i < self.dirty@.len() && self.dirty@[i as int].0 == n && self@.contains_key(n)
                    && self@[n] == self.dirty@[i as int].1@,
                None => !self@.contains_key(n),
            },
    {
        proof {
            lemma_blocks_map(self.dirty@);
        }
        let mut i: usize = 0;
        while i < self.dirty.len()
            invariant
                i <= self.dirty@.len(),
                forall|k: int| 0 <= k < i ==> self.dirty@[k].0 != n,
                forall|k: int|
                    0 <= k < self.dirty@.len() ==> self@.contains_key(#[trigger] self.dirty@[k].0)
                        && self@[self.dirty@[k].0] == self.dirty@[k].1@,
                forall|k: u64|
                    self@.contains_key(k) ==> exists|j: int|
                        0 <= j < self.dirty@.len() && #[trigger] self.dirty@[j].0 == k,
            decreases self.dirty@.len() - i,
        {
            if self.dirty[i].0 == n {
                assert(self.dirty@[i as int].0 == n);
                return Some(i);
            }
            i += 1;
        }
        None
    }

    /// The latest version of block `n`: the staged one, or the device's.
    pub(crate) fn get<D: BlockDevice>(&self, dev: &D, Ghost(v): Ghost<Vol>, block_size: u32, n: u64) -> (r: Result<
        Vec<u8>,
    >)
        requires
            v.img == dev.contents(),
            block_size == v.bs() > 0,
            self.wf(v),
        ensures
            match r {
                Ok(b) => block_at(self.stage(v).img, v.bs(), n as int) == Ok::<Seq<u8>, Error>(b@)
                    && b@.len() == v.bs() && has_block(v.img, v.bs(), n as int),
                Err(e) => block_at(self.stage(v).img, v.bs(), n as int) == Err::<Seq<u8>, Error>(e) || (
                !dev.healthy() && e == Error::Io),
            },
    {
        proof {
            lemma_overlay_block(v.img, v.bs(), self@, n);
        }
        match self.position(n) {
            Some(i) => {
                let b: Vec<u8> = copy_range(&self.dirty[i].1, 0, self.dirty[i].1.len());
                assert(self.dirty@[i as int].1@.subrange(0, self.dirty@[i as int].1@.len() as int)
                    =~= self.dirty@[i as int].1@);
                Ok(b)
            },
            None => read_device_block(dev, block_size, n),
        }
    }

    /// Stage an already-built block image directly (no read-modify cycle).
    pub fn put(&mut self, block: u64, bytes: Vec<u8>)
        requires
            distinct_keys(old(self).dirty@),
        ensures
            distinct_keys(final(self).dirty@),
            final(self)@ == old(self)@.insert(block, bytes@),
            final(self).uninit_cleared@ == old(self).uninit_cleared@,
            forall|v: Vol|
                #![trigger final(self).wf(v)]
                #![trigger final(self).stage(v)]
                old(self).wf(v) && v.bs() > 0 && bytes@.len() == v.bs() && has_block(
                    v.img,
                    v.bs(),
                    block as int,
                ) ==> final(self).wf(v) && final(self).stage(v) == stage_block(
                    v,
                    old(self).stage(v),
                    block as int,
                    bytes@,
                ),
    {
        let ghost m0 = self@;
        let ghost d0 = self.dirty@;
        let ghost b = bytes@;
        match self.position(block) {
            Some(i) => {
                let ghost entry = (block, bytes);
                self.dirty.set(i, (block, bytes));
                proof {
                    lemma_update_entry(d0, i as int, entry);
                    assert(self.dirty@ =~= d0.update(i as int, entry));
                }
            },
            None => {
                let ghost entry = (block, bytes);
                proof {
                    lemma_blocks_map(d0);
                }
                self.dirty.push((block, bytes));
                proof {
                    assert(self.dirty@ =~= d0.push(entry));
                    assert(d0.push(entry).drop_last() =~= d0);
                    assert forall|i: int, j: int| 0 <= i < j < self.dirty@.len() implies self.dirty@[i].0
                        != self.dirty@[j].0 by {
                        if j == d0.len() {
                            assert(m0.contains_key(d0[i].0));
                        }
                    }
                }
            },
        }
        proof {
            assert forall|v: Vol|
                #![trigger self.wf(v)]
                #![trigger self.stage(v)]
                old(self).wf(v) && v.bs() > 0 && b.len() == v.bs() && has_block(
                    v.img,
                    v.bs(),
                    block as int,
                ) implies self.wf(v) && self.stage(v) == stage_block(
                v,
                old(self).stage(v),
                block as int,
                b,
            ) by {
                lemma_overlay_insert(v.img, v.bs(), m0, block, b);
            }
        }
    }

    /// Fetch a mutable handle to `block`, loading from the device on first
    /// touch. Subsequent calls for the same block return the staged copy.
    pub fn get_mut<D: BlockDevice>(&mut self, dev: &D, block_size: u32, block: u64) -> (r: Result<&mut Vec<u8>>)
        requires
            distinct_keys(old(self).dirty@),
            block_size > 0,
        ensures
            match r {
                Ok(b) => b@ == (if old(self)@.contains_key(block) {
                    old(self)@[block]
                } else {
                    block_at(dev.contents(), block_size as int, block as int)->Ok_0
                }) && (old(self)@.contains_key(block) || block_at(
                    dev.contents(),
                    block_size as int,
                    block as int,
                ) is Ok) && final(self)@ == old(self)@.insert(block, final(b)@),
                Err(e) => final(self)@ == old(self)@ && !old(self)@.contains_key(block) && (block_at(
                    dev.contents(),
                    block_size as int,
                    block as int,
                ) == Err::<Seq<u8>, Error>(e) || (!dev.healthy() && e == Error::Io)),
            },
            distinct_keys(final(self).dirty@),
            final(self).uninit_cleared@ == old(self).uninit_cleared@,
    {
        let ghost d0 = self.dirty@;
        let i: usize = match self.position(block) {
            Some(i) => i,
            None => {
                let bytes: Vec<u8> = match read_device_block(dev, block_size, block) {
                    Ok(b) => b,
                    Err(e) => {
                        return Err(e);
                    },
                };
                self.put(block, bytes);
                match self.position(block) {
                    Some(i) => i,
                    None => {
                        return Err(Error::Io);
                    },
                }
            },
        };
        let ghost d1 = self.dirty@;
        proof {
            assert forall|b: Vec<u8>| #[trigger]
                blocks_map(d1.update(i as int, (block, b))) == blocks_map(d1).insert(block, b@)
                    && distinct_keys(d1.update(i as int, (block, b))) by {
                lemma_update_entry(d1, i as int, (block, b));
            }
            assert(blocks_map(d1) == blocks_map(d0) || blocks_map(d1) == blocks_map(d0).insert(
                block,
                blocks_map(d1)[block],
            ));
            assert forall|b: Vec<u8>| #[trigger]
                blocks_map(d1).insert(block, b@) =~= blocks_map(d0).insert(block, b@) by {}
        }
        let slot: &mut (u64, Vec<u8>) = &mut self.dirty[i];
        Ok(&mut slot.1)
    }

    /// Note that group `gi`'s descriptor flags are now `flags`.
    pub fn note_cleared(&mut self, gi: usize, flags: u16)
        ensures
            final(self).dirty@ == old(self).dirty@,
            final(self)@ == old(self)@,
            final(self).uninit_cleared@ == old(self).uninit_cleared@.push((gi, flags)),
            forall|v: Vol|
                #![trigger final(self).wf(v)]
                #![trigger final(self).stage(v)]
                (old(self).wf(v) ==> final(self).wf(v)) && final(self).stage(v) == (Stage {
                    cleared: old(self).stage(v).cleared.push((gi, flags)),
                    ..old(self).stage(v)
                }),
    {
        self.uninit_cleared.push((gi, flags));
        proof {
            assert forall|v: Vol|
                #![trigger self.wf(v)]
                #![trigger self.stage(v)]
                (old(self).wf(v) ==> self.wf(v)) && self.stage(v) == (Stage {
                    cleared: old(self).stage(v).cleared.push((gi, flags)),
                    ..old(self).stage(v)
                }) by {
                assert(self.stage(v) =~= (Stage {
                    cleared: old(self).stage(v).cleared.push((gi, flags)),
                    ..old(self).stage(v)
                }));
            }
        }
    }
}

/// A device seen through the edits staged over it.
pub struct StagedView<'a, D: BlockDevice> {
    pub dev: &'a D,
    pub buf: &'a BlockBuffer,
    pub vol: Ghost<Vol>,
}

impl<'a, D: BlockDevice> BlockSource for StagedView<'a, D> {
    open spec fn image(&self) -> Seq<u8> {
        self.buf.stage(self.vol@).img
    }

    open spec fn reliable(&self) -> bool {
        self.dev.healthy()
    }

    open spec fn serves(&self, bs: int) -> bool {
        &&& bs == self.vol@.bs()
        &&& bs > 0
        &&& self.vol@.img == self.dev.contents()
        &&& self.buf.wf(self.vol@)
    }

    fn fetch(&self, bs: u32, n: u64) -> (r: Result<Vec<u8>>) {
        self.buf.get(self.dev, self.vol, bs, n)
    }
}

proof fn lemma_update_entry(s: Seq<(u64, Vec<u8>)>, i: int, e: (u64, Vec<u8>))
    requires
        distinct_keys(s),
        0 <= i < s.len(),
        s[i].0 == e.0,
    ensures
        distinct_keys(s.update(i, e)),
        blocks_map(s.update(i, e)) == blocks_map(s).insert(e.0, e.1@),
    decreases s.len(),
{
    let t = s.update(i, e);
    if i == s.len() - 1 {
        assert(t.drop_last() =~= s.drop_last());
        assert(blocks_map(t) =~= blocks_map(s).insert(e.0, e.1@));
    } else {
        lemma_update_entry(s.drop_last(), i, e);
        assert(t.drop_last() =~= s.drop_last().update(i, e));
        assert(s[i].0 != s[s.len() - 1].0);
        assert(blocks_map(t) =~= blocks_map(s).insert(e.0, e.1@));
    }
}

} // verus!
