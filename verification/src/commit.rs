//! Committing what was staged.
use crate::bgd::{inode_place, locate_inode, BlockGroupDescriptor};
use crate::block_io::{has_block, BlockDevice};
use crate::bytes::splice;
use crate::error::{Error, Result};
use crate::fs::Filesystem;
use crate::stage::stage_inode;
use crate::volume::{
    blocks_map, distinct_keys, fresh_stage, lemma_blocks_map, lemma_overlay_empty, lemma_overlay_insert, overlay_blocks,
    BlockBuffer, Stage, Vol,
};
use vstd::prelude::*;

verus! {

/// The group snapshot with the flags that a commit left on disk.
pub open spec fn published(groups: Seq<BlockGroupDescriptor>, cleared: Seq<(usize, u16)>) -> Seq<
    BlockGroupDescriptor,
>
    decreases cleared.len(),
{
    if cleared.len() == 0 {
        groups
    } else {
        let before = published(groups, cleared.drop_last());
        let (gi, flags) = cleared.last();
        if gi < before.len() {
            before.update(gi as int, BlockGroupDescriptor { flags, ..before[gi as int] })
        } else {
            before
        }
    }
}

/// The volume after a stage is committed.
pub open spec fn committed(v: Vol, st: Stage) -> Vol {
    Vol { img: st.img, groups: published(v.groups, st.cleared), ..v }
}

/// What an operation that commits once comes to: the volume it leaves, and
/// what it returns. One that fails leaves the volume as it was.
pub open spec fn done<T>(v: Vol, want: Result<(Stage, T)>) -> (Vol, Result<T>) {
    match want {
        Ok((st, t)) => (committed(v, st), Ok(t)),
        Err(e) => (v, Err(e)),
    }
}

/// An operation came out as wanted, or the device failed. What a device that
/// fails it may leave, the operation's contract says beside this: a read that
/// fails leaves the volume as it was, and a commit that fails leaves changes in
/// the blocks that it writes, at most.
pub open spec fn came_out<T>(want: (Vol, Result<T>), r: Result<T>, post: Vol, healthy: bool) -> bool {
    (r == want.1 && post == want.0) || (!healthy && r == Err::<T, Error>(Error::Io))
}

/// The volume `post` differs from `v` in some blocks of the image at most.
pub open spec fn only_in(v: Vol, post: Vol, blocks: Set<u64>) -> bool {
    &&& post == (Vol { img: post.img, ..v })
    &&& post.img.len() == v.img.len()
    &&& forall|i: int|
        0 <= i < v.img.len() && !blocks.contains((i / v.bs()) as u64) ==> #[trigger] post.img[i] == v.img[i]
}

/// The blocks that an operation that commits once writes: none where it fails.
pub open spec fn stage_blocks<T>(want: Result<(Stage, T)>) -> Set<u64> {
    match want {
        Ok((st, _)) => st.touched,
        Err(_) => Set::empty(),
    }
}

/// A volume differs from itself nowhere.
/// The volume `post` differs from `v` between two places of the image at most.
pub open spec fn only_within(v: Vol, post: Vol, from: int, to: int) -> bool {
    &&& post == (Vol { img: post.img, ..v })
    &&& post.img.len() == v.img.len()
    &&& forall|i: int| 0 <= i < v.img.len() && !(from <= i < to) ==> #[trigger] post.img[i] == v.img[i]
}

/// A stage with nothing to return.
pub open spec fn unit_stage(r: Result<Stage>) -> Result<(Stage, ())> {
    match r {
        Ok(st) => Ok((st, ())),
        Err(e) => Err(e),
    }
}

/// The same mount, whatever is on the device now.
pub open spec fn same_mount<D: BlockDevice>(a: Filesystem<D>, b: Filesystem<D>) -> bool {
    &&& a.sb == b.sb
    &&& a.csum == b.csum
    &&& a.flavor == b.flavor
    &&& a.groups@.len() == b.groups@.len()
    &&& a.dev.healthy() == b.dev.healthy()
    &&& a.dev.writable() == b.dev.writable()
    &&& a.replay_due == b.replay_due
    &&& a.dev.contents().len() == b.dev.contents().len()
}

pub proof fn lemma_published_len(groups: Seq<BlockGroupDescriptor>, cleared: Seq<(usize, u16)>)
    ensures
        published(groups, cleared).len() == groups.len(),
    decreases cleared.len(),
{
    if cleared.len() > 0 {
        lemma_published_len(groups, cleared.drop_last());
    }
}

/// Publishing keeps everything about a group but its flags.
pub proof fn lemma_published_keeps(groups: Seq<BlockGroupDescriptor>, cleared: Seq<(usize, u16)>, gi: int)
    requires
        0 <= gi < groups.len(),
    ensures
        published(groups, cleared).len() == groups.len(),
        (BlockGroupDescriptor { flags: 0, ..published(groups, cleared)[gi] }) == (BlockGroupDescriptor {
            flags: 0,
            ..groups[gi]
        }),
    decreases cleared.len(),
{
    if cleared.len() > 0 {
        lemma_published_keeps(groups, cleared.drop_last(), gi);
    }
}

/// A byte of no staged block is as it was however much was written.
proof fn lemma_spared(v: Vol, all: Seq<(u64, Vec<u8>)>, n: int, p: int)
    requires
        distinct_keys(all),
        0 <= n <= all.len(),
        v.bs() > 0,
        0 <= p < v.img.len() <= u64::MAX,
        !blocks_map(all).contains_key((p / v.bs()) as u64),
    ensures
        overlay_blocks(v.img, v.bs(), blocks_map(all.take(n)))[p] == v.img[p],
        forall|k: int| 0 <= k < all.len() ==> (#[trigger] all[k]).0 != (p / v.bs()) as u64,
{
    lemma_blocks_map(all);
    assert forall|i: int, j: int| 0 <= i < j < all.take(n).len() implies all.take(n)[i].0 != all.take(n)[j].0 by {
    }
    lemma_blocks_map(all.take(n));
    assert forall|k: int| 0 <= k < all.len() implies (#[trigger] all[k]).0 != (p / v.bs()) as u64 by {
        assert(blocks_map(all).contains_key(all[k].0));
    }
    if blocks_map(all.take(n)).contains_key((p / v.bs()) as u64) {
        let j = choose|j: int| 0 <= j < all.take(n).len() && #[trigger] all.take(n)[j].0 == (p / v.bs()) as u64;
        assert(all[j].0 == (p / v.bs()) as u64);
    }
}

/// A byte within a block.
pub(crate) proof fn lemma_in_block(p: int, bs: int, n: int)
    requires
        bs > 0,
    ensures
        n * bs <= p < n * bs + bs ==> p / bs == n,
{
    if n * bs <= p < n * bs + bs {
        vstd::arithmetic::div_mod::lemma_fundamental_div_mod_converse(p, bs, n, p - n * bs);
    }
}

impl<D: BlockDevice> Filesystem<D> {
    /// Write out a buffer: every staged block, each in its place, then a flush.
    /// Only when that has succeeded are the groups it brought into use taken as
    /// such. A loss of power on the way can leave part of it.
    pub fn commit_block_buffer(&mut self, buf: BlockBuffer) -> (r: Result<()>)
        requires
            old(self).wf(),
            buf.wf(old(self)@),
            old(self).takes_writes(),
        ensures
            final(self).wf(),
            same_mount(*final(self), *old(self)),
            came_out(
                (committed(old(self)@, buf.stage(old(self)@)), Ok(())),
                r,
                final(self)@,
                old(self).dev.healthy(),
            ),
            r is Ok && buf.dirty@.len() > 0 ==> final(self).dev.durable() == final(self).dev.contents(),
            r is Err ==> only_in(old(self)@, final(self)@, buf@.dom()),
    {
        let ghost v0 = self@;
        let bs: u64 = self.sb.block_size() as u64;
        let ghost all = buf.dirty@;
        let mut i: usize = 0;
        proof {
            lemma_overlay_empty(v0.img, v0.bs());
            assert(all.take(0) =~= Seq::<(u64, Vec<u8>)>::empty());
            lemma_blocks_map(all);
            assert forall|k: int| 0 <= k < all.len() implies (#[trigger] all[k]).1@.len() == v0.bs()
                && has_block(v0.img, v0.bs(), all[k].0 as int) by {
                assert(buf@.contains_key(all[k].0) && buf@[all[k].0] == all[k].1@);
            }
        }
        while i < buf.dirty.len()
            invariant
                i <= all.len(),
                all == buf.dirty@,
                distinct_keys(all),
                bs == v0.bs() > 0,
                v0 == old(self)@,
                old(self).wf(),
                same_mount(*self, *old(self)),
                self.groups@ == v0.groups,
                self.takes_writes(),
                v0.img.len() <= u64::MAX,
                self.dev.contents() == overlay_blocks(v0.img, v0.bs(), blocks_map(all.take(i as int))),
                forall|k: int|
                    0 <= k < all.len() ==> (#[trigger] all[k]).1@.len() == v0.bs() && has_block(
                        v0.img,
                        v0.bs(),
                        all[k].0 as int,
                    ),
            decreases all.len() - i,
        {
            let n: u64 = buf.dirty[i].0;
            assert(all[i as int].1@.len() == v0.bs() && has_block(v0.img, v0.bs(), all[i as int].0 as int));
            assert(0 <= n * bs <= v0.img.len()) by {
                assert(0 <= n * bs) by (nonlinear_arith)
                    requires
                        0 <= n,
                        0 < bs,
                ;
            }
            match self.dev.write_at(n * bs, &buf.dirty[i].1) {
                Ok(_) => {},
                Err(e) => {
                    proof {
                        assert forall|p: int|
                            0 <= p < v0.img.len() && !buf@.dom().contains(
                                (p / v0.bs()) as u64,
                            ) implies #[trigger] self@.img[p]
                            == v0.img[p] by {
                            lemma_spared(v0, all, i as int, p);
                            lemma_in_block(p, v0.bs(), n as int);
                        }
                    }
                    return Err(e);
                },
            }
            proof {
                let part = all.take(i as int);
                assert(all.take(i + 1).drop_last() =~= part);
                lemma_overlay_insert(v0.img, v0.bs(), blocks_map(part), n, all[i as int].1@);
            }
            i += 1;
        }
        assert(all.take(i as int) =~= all);
        if buf.dirty.len() > 0 {
            match self.dev.flush() {
                Ok(_) => {},
                Err(e) => {
                    proof {
                        assert forall|p: int|
                            0 <= p < v0.img.len() && !buf@.dom().contains(
                                (p / v0.bs()) as u64,
                            ) implies #[trigger] self@.img[p]
                            == v0.img[p] by {
                            lemma_spared(v0, all, i as int, p);
                        }
                    }
                    return Err(e);
                },
            }
        }
        let ghost flags = buf.uninit_cleared@;
        let mut k: usize = 0;
        assert(flags.take(0) =~= Seq::<(usize, u16)>::empty());
        while k < buf.uninit_cleared.len()
            invariant
                k <= flags.len(),
                flags == buf.uninit_cleared@,
                v0 == old(self)@,
                old(self).wf(),
                same_mount(*self, *old(self)),
                self.dev.contents() == overlay_blocks(v0.img, v0.bs(), blocks_map(all)),
                all.len() > 0 ==> self.dev.durable() == self.dev.contents(),
                self.groups@ == published(v0.groups, flags.take(k as int)),
            decreases flags.len() - k,
        {
            let (gi, left): (usize, u16) = buf.uninit_cleared[k];
            if gi < self.groups.len() {
                let mut g: BlockGroupDescriptor = self.groups[gi];
                g.flags = left;
                self.groups.set(gi, g);
            }
            k += 1;
            assert(flags.take(k as int).drop_last() =~= flags.take(k - 1));
        }
        assert(flags.take(k as int) =~= flags);
        Ok(())
    }

    /// Write a single inode record back, staged and committed on its own.
    pub fn commit_inode_write(&mut self, ino: u32, new_inode_raw: &[u8]) -> (r: Result<()>)
        requires
            old(self).wf(),
            old(self).takes_writes(),
        ensures
            final(self).wf(),
            same_mount(*final(self), *old(self)),
            came_out(
                done(
                    old(self)@,
                    unit_stage(
                        stage_inode(old(self)@, fresh_stage(old(self)@), ino, new_inode_raw@),
                    ),
                ),
                r,
                final(self)@,
                old(self).dev.healthy(),
            ),
            r matches Err(Error::Io) ==> only_in(
                old(self)@,
                final(self)@,
                stage_blocks(unit_stage( stage_inode(old(self)@, fresh_stage(old(self)@), ino, new_inode_raw@), )),
            ),
    {
        let mut buf: BlockBuffer = BlockBuffer::new(self.sb.block_size());
        assert(buf.wf(self@));
        match self.buffer_write_inode(&mut buf, ino, new_inode_raw) {
            Ok(_) => {},
            Err(e) => {
                return Err(e);
            },
        }
        self.commit_block_buffer(buf)
    }
}

/// What writing an inode record straight to its place comes to.
pub open spec fn record_written(writable: bool, v: Vol, ino: u32, raw: Seq<u8>) -> (Vol, Result<()>) {
    if raw.len() != v.sb.inode_size {
        (v, Err(Error::Corrupt("write_inode_raw: length != inode_size")))
    } else {
        match inode_place(v.sb, v.groups, ino) {
            Err(e) => (v, Err(e)),
            Ok((block, off)) => {
                let at = block * v.bs() + off;
                if !writable || at + raw.len() > v.img.len() {
                    (v, Err(Error::Io))
                } else {
                    (Vol { img: splice(v.img, at, raw), ..v }, Ok(()))
                }
            },
        }
    }
}

impl<D: BlockDevice> Filesystem<D> {
    /// Write a record straight back to its place, without a commit. The
    /// record's checksum is the caller's to fill in.
    pub fn write_inode_raw(&mut self, ino: u32, raw: &[u8]) -> (r: Result<()>)
        requires
            old(self).wf(),
        ensures
            final(self).wf(),
            same_mount(*final(self), *old(self)),
            came_out(
                record_written(old(self).takes_writes(), old(self)@, ino, raw@),
                r,
                final(self)@,
                old(self).dev.healthy(),
            ),
            r matches Err(Error::Io) ==> match inode_place(old(self)@.sb, old(self)@.groups, ino) {
                Err(_) => false,
                Ok((block, off)) => {
                    let start = block * old(self)@.bs() + off;
                    only_within(old(self)@, final(self)@, start, start + raw@.len())
                },
            },
    {
        if raw.len() != self.sb.inode_size as usize {
            return Err(Error::Corrupt("write_inode_raw: length != inode_size"));
        }
        let (block, off): (u64, u32) = match locate_inode(&self.sb, &self.groups, ino) {
            Ok(p) => p,
            Err(e) => {
                return Err(e);
            },
        };
        let bs: u64 = self.sb.block_size() as u64;
        let size: u64 = self.dev.size_bytes();
        proof {
            assert(block > size / bs ==> block * bs > size) by (nonlinear_arith)
                requires
                    bs > 0,
            ;
            assert(block <= size / bs ==> block * bs <= size) by (nonlinear_arith)
                requires
                    bs > 0,
            ;
        }
        if !self.dev.is_writable() || self.replay_due || block > size / bs {
            return Err(Error::Io);
        }
        let start: u64 = block * bs;
        if off as u64 > size - start || raw.len() as u64 > size - start - off as u64 {
            return Err(Error::Io);
        }
        assert(start == block * self@.bs());
        let ghost v0 = self@;
        match self.dev.write_at(start + off as u64, raw) {
            Ok(_) => {
                assert(self@ == (Vol { img: splice(v0.img, start + off, raw@), ..v0 }));
                assert(record_written(true, v0, ino, raw@) == (self@, Ok::<(), Error>(())));
                Ok(())
            },
            Err(e) => Err(e),
        }
    }
}

} // verus!
