//! The orphan list: inodes that were still in use, or being cut short, when
//! the volume was last written.
use crate::attr::less;
use crate::block_io::BlockDevice;
use crate::bytes::{get_u32, le32, put32, set_u32};
use crate::commit::{came_out, committed, only_in, stage_blocks};
use crate::error::{Error, Result};
use crate::file_mut::{lemma_runs_total, plan_truncate_shrink, runs_total, shrink_planned, stage_free_runs};
use crate::fs::{raw_inode, write_refusal, Filesystem};
use crate::inode::{
    block_area_of, flags_of, generation_of, inode_fault, links_of, sectors_of, size_of_file, Inode, FL_EXTENTS,
};
use crate::inode_edit::{dead_inode, with_block_area, with_size_and_blocks};
use crate::names::file_runs;
use crate::stage::{stage_free_inode, stage_inode, stage_last_orphan, stage_totals};
use crate::superblock::Superblock;
use crate::volume::{fresh_stage, BlockBuffer, Stage, Vol};
use vstd::prelude::*;

verus! {

broadcast use crate::bytes::group_fields;

/// The chain from inode `cur` on, each inode naming the next where a deleted
/// one keeps its time of deletion.
pub open spec fn chain_from(v: Vol, cur: u32, steps: int) -> Result<Seq<u32>>
    decreases v.sb.inodes_count + 1 - steps,
{
    if cur == 0 {
        Ok(Seq::empty())
    } else if steps > v.sb.inodes_count {
        Err(Error::Corrupt("orphan_list: chain longer than inodes_count (cycle?)"))
    } else {
        match raw_inode(v, cur) {
            Err(e) => Err(e),
            Ok(raw) => match chain_from(v, le32(raw, 0x14), steps + 1) {
                Err(e) => Err(e),
                Ok(rest) => Ok(seq![cur] + rest),
            },
        }
    }
}

/// The inodes on the orphan list, in order.
pub open spec fn orphan_chain(v: Vol) -> Result<Seq<u32>> {
    chain_from(v, v.sb.last_orphan, 0)
}

/// A recovery in progress: what is staged, the blocks released and the inodes
/// reclaimed.
#[verifier::ext_equal]
pub struct Recovery {
    pub st: Stage,
    pub freed: int,
    pub reclaimed: int,
}

/// The record and the blocks of a file that was being cut short: what lies
/// past its end is released where that can be planned, and nothing else about
/// the file changes but that it leaves the list.
pub open spec fn finished_truncate(v: Vol, raw: Seq<u8>) -> (Seq<u8>, Seq<(u64, u32)>) {
    let (cut, runs) = if flags_of(raw) & FL_EXTENTS != 0 {
        match shrink_planned(block_area_of(raw), size_of_file(raw) as int, v.bs()) {
            Ok((root, runs)) => (
                with_size_and_blocks(
                    with_block_area(raw, root),
                    size_of_file(raw),
                    less(sectors_of(raw), runs_total(runs) * (v.bs() / 512)),
                ),
                runs,
            ),
            Err(_) => (raw, Seq::empty()),
        }
    } else {
        (raw, Seq::empty())
    };
    (put32(cut, 0x14, 0), runs)
}

/// The stage with a file that was being cut short as it should be.
pub open spec fn stage_finish_truncate(v: Vol, r: Recovery, ino: u32, raw: Seq<u8>) -> Result<Recovery> {
    let (left, runs) = finished_truncate(v, raw);
    match stage_free_runs(v, r.st, runs) {
        Err(e) => Err(e),
        Ok(st1) => match stage_inode(v, st1, ino, v.csum.stamp_inode_spec(ino, generation_of(raw), left)) {
            Err(e) => Err(e),
            Ok(st2) => Ok(Recovery { st: st2, freed: r.freed + runs_total(runs), ..r }),
        },
    }
}

/// One orphan dealt with. An inode that is still named keeps everything up to
/// its size; one that is not is reclaimed, blocks and all. One that cannot be
/// made out is left alone, unless it is the device that cannot be read.
#[verifier::opaque]
pub open spec fn recover_one(v: Vol, r: Recovery, ino: u32, now: u32) -> Result<Recovery> {
    match raw_inode(v, ino) {
        Err(e) => Err(e),
        Ok(raw) => if inode_fault(raw) is Some {
            Ok(r)
        } else if links_of(raw) != 0 {
            stage_finish_truncate(v, r, ino, raw)
        } else {
            match file_runs(v, raw) {
                Err(e) => if e == Error::Io {
                    Err(e)
                } else {
                    Ok(r)
                },
                Ok(runs) => match stage_free_runs(v, r.st, runs) {
                    Err(e) => Err(e),
                    Ok(st1) => match stage_free_inode(v, st1, ino) {
                        Err(e) => Err(e),
                        Ok(st2) => match stage_inode(
                            v,
                            st2,
                            ino,
                            dead_inode(v, ino, generation_of(raw), now),
                        ) {
                            Err(e) => Err(e),
                            Ok(st3) => Ok(
                                Recovery {
                                    st: st3,
                                    freed: r.freed + runs_total(runs),
                                    reclaimed: r.reclaimed + 1,
                                },
                            ),
                        },
                    },
                },
            }
        },
    }
}

/// The most blocks that one recovery releases.
pub const FREED_MAX: u64 = 0x4000_0000_0000_0000;

/// Every orphan of a chain dealt with, in order.
pub open spec fn recover_each(v: Vol, chain: Seq<u32>, now: u32) -> Result<Recovery>
    decreases chain.len(),
{
    if chain.len() == 0 {
        Ok(Recovery { st: fresh_stage(v), freed: 0, reclaimed: 0 })
    } else {
        match recover_each(v, chain.drop_last(), now) {
            Err(e) => Err(e),
            Ok(r) => match recover_one(v, r, chain.last(), now) {
                Err(e) => Err(e),
                Ok(next) => if next.freed > FREED_MAX {
                    Err(Error::Corrupt("orphan_list: more blocks released than a volume can hold"))
                } else {
                    Ok(next)
                },
            },
        }
    }
}

/// The stage of a whole recovery, and the inodes it reclaims.
pub open spec fn recover_stage(v: Vol, chain: Seq<u32>, now: u32) -> Result<(Stage, usize)> {
    match recover_each(v, chain, now) {
        Err(e) => Err(e),
        Ok(r) => match stage_totals(v, r.st, r.freed, r.reclaimed) {
            Err(e) => Err(e),
            Ok(st1) => match stage_last_orphan(v, st1, 0) {
                Err(e) => Err(e),
                Ok(st2) => Ok((st2, r.reclaimed as usize)),
            },
        },
    }
}

/// The superblock without an orphan list.
pub open spec fn without_orphans(sb: Superblock) -> Superblock {
    Superblock { last_orphan: 0, ..sb }
}

/// What recovering the orphans comes to: the volume it leaves, and how many
/// inodes were reclaimed. A volume that must not be written keeps its orphans.
pub open spec fn recovered(writable: bool, v: Vol, now: u32) -> (Vol, Result<usize>) {
    if write_refusal(writable, v) is Some {
        (v, Ok(0))
    } else {
        match orphan_chain(v) {
            Err(e) => (v, Err(e)),
            Ok(chain) => if chain.len() == 0 {
                (v, Ok(0))
            } else if chain.len() > 0x7FFF_FFFF {
                (v, Err(Error::Corrupt("orphan_list: chain longer than inodes_count (cycle?)")))
            } else {
                match recover_stage(v, chain, now) {
                    Err(e) => (v, Err(e)),
                    Ok((st, n)) => (
                        Vol { sb: without_orphans(v.sb), ..committed(v, st) },
                        Ok(n),
                    ),
                }
            },
        }
    }
}

/// The blocks that a recovery writes.
pub open spec fn recovery_blocks(v: Vol, now: u32) -> Set<u64> {
    match orphan_chain(v) {
        Err(_) => Set::empty(),
        Ok(chain) => stage_blocks(recover_stage(v, chain, now)),
    }
}

proof fn lemma_recover_error(v: Vol, chain: Seq<u32>, i: int, now: u32, e: Error)
    requires
        0 <= i <= chain.len(),
        recover_each(v, chain.take(i), now) == Err::<Recovery, Error>(e),
    ensures
        recover_each(v, chain, now) == Err::<Recovery, Error>(e),
    decreases chain.len() - i,
{
    if i < chain.len() {
        assert(chain.take(i + 1).drop_last() =~= chain.take(i));
        lemma_recover_error(v, chain, i + 1, now, e);
    } else {
        assert(chain.take(i) =~= chain);
    }
}

impl<D: BlockDevice> Filesystem<D> {
    /// Walk the orphan inode chain rooted at `s_last_orphan` and return its
    /// members in chain order: both those with no links left and those whose
    /// truncation was interrupted.
    pub fn orphan_list(&self) -> (r: Result<Vec<u32>>)
        requires
            self.wf(),
        ensures
            match r {
                Ok(s) => orphan_chain(self@) == Ok::<Seq<u32>, Error>(s@),
                Err(e) => orphan_chain(self@) == Err::<Seq<u32>, Error>(e) || (!self.dev.healthy() && e
                    == Error::Io),
            },
    {
        let mut out: Vec<u32> = Vec::new();
        let mut cur: u32 = self.sb.last_orphan;
        let most: u64 = self.sb.inodes_count as u64;
        let mut steps: u64 = 0;
        proof {
            if let Ok(rest) = chain_from(self@, cur, 0) {
                assert(out@ + rest =~= rest);
            }
        }
        while cur != 0
            invariant
                self.wf(),
                most == self.sb.inodes_count,
                steps <= most + 1,
                orphan_chain(self@) == (match chain_from(self@, cur, steps as int) {
                    Ok(rest) => Ok::<Seq<u32>, Error>(out@ + rest),
                    Err(e) => Err(e),
                }),
            decreases most + 1 - steps,
        {
            if steps > most {
                return Err(
                    Error::Corrupt("orphan_list: chain longer than inodes_count (cycle?)"),
                );
            }
            let raw: Vec<u8> = match self.read_inode_raw(cur) {
                Ok(raw) => raw,
                Err(e) => {
                    return Err(e);
                },
            };
            let ghost before = out@;
            out.push(cur);
            let next: u32 = get_u32(&raw, 0x14);
            proof {
                if let Ok(rest) = chain_from(self@, next, steps + 1) {
                    assert(before + (seq![cur] + rest) =~= out@ + rest);
                }
            }
            cur = next;
            steps = steps + 1;
        }
        assert(out@ + Seq::<u32>::empty() =~= out@);
        Ok(out)
    }

    /// Finish a truncation that was interrupted, for an orphan that is still
    /// named: free what lies past `i_size`, rewrite the extent root and
    /// `i_blocks` to match, and clear `i_dtime`. Where the truncation cannot
    /// be planned only `i_dtime` is cleared. Returns the blocks freed.
    fn buffer_finish_interrupted_truncate(
        &self,
        buf: &mut BlockBuffer,
        ino: u32,
        inode: &Inode,
        raw: Vec<u8>,
        Ghost(r0): Ghost<Recovery>,
    ) -> (r: Result<u64>)
        requires
            self.wf(),
            old(buf).wf(self@),
            r0.st == old(buf).stage(self@),
            inode.decodes(raw@),
            raw@.len() == self.sb.inode_size,
        ensures
            final(buf).wf(self@),
            match r {
                Ok(n) => n <= 0x8000_0000 && stage_finish_truncate(self@, r0, ino, raw@) == Ok::<
                    Recovery,
                    Error,
                >((Recovery { st: final(buf).stage(self@), freed: r0.freed + n, ..r0 })),
                Err(e) => stage_finish_truncate(self@, r0, ino, raw@) == Err::<Recovery, Error>(e) || (
                !self.dev.healthy() && e == Error::Io),
            },
    {
        let ghost raw0 = raw@;
        let bs: u32 = self.sb.block_size();
        let mut out: Vec<u8> = raw;
        let mut freed: u64 = 0;
        let mut runs: Vec<(u64, u32)> = Vec::new();
        assert(runs@ =~= Seq::<(u64, u32)>::empty());
        if inode.has_extents() {
            if let Ok(plan) = plan_truncate_shrink(inode.size, &inode.block, bs) {
                proof {
                    lemma_runs_total(plan.freed@);
                }
                let placed = Self::patch_inode_block_area(&mut out, &plan.root);
                runs = plan.freed;
                let total: u64 = count_blocks(&runs);
                assert(total * (bs as u64 / 512) <= 0x8000_0000 * 128) by (nonlinear_arith)
                    requires
                        total <= 0x8000_0000,
                        bs <= 65536,
                ;
                let sectors: u64 = total * (bs as u64 / 512);
                let left: u64 = if inode.blocks < sectors {
                    0
                } else {
                    inode.blocks - sectors
                };
                let patched = Self::patch_inode_size_and_blocks(&mut out, inode.size, left);
            }
        }
        set_u32(&mut out, 0x14, 0);
        assert((out@, runs@) == finished_truncate(self@, raw0));
        match self.buffer_free_runs(buf, &runs) {
            Ok(n) => {
                freed = n;
            },
            Err(e) => {
                return Err(e);
            },
        }
        self.finalize_inode_raw(ino, inode.generation, &mut out);
        if let Err(e) = self.buffer_write_inode(buf, ino, &out) {
            return Err(e);
        }
        proof {
            lemma_runs_total(runs@);
        }
        Ok(freed)
    }

    fn buffer_recover_one(&self, buf: &mut BlockBuffer, ino: u32, now: u32, Ghost(r0): Ghost<Recovery>) -> (r: Result<
        (u64, u32),
    >)
        requires
            self.wf(),
            old(buf).wf(self@),
            r0.st == old(buf).stage(self@),
        ensures
            final(buf).wf(self@),
            match r {
                Ok((n, one)) => n <= 0x8000_0000_0000 && one <= 1 && recover_one(self@, r0, ino, now) == Ok::<
                    Recovery,
                    Error,
                >(
                    (Recovery {
                        st: final(buf).stage(self@),
                        freed: r0.freed + n,
                        reclaimed: r0.reclaimed + one,
                    }),
                ),
                Err(e) => recover_one(self@, r0, ino, now) == Err::<Recovery, Error>(e) || (
                !self.dev.healthy() && e == Error::Io),
            },
    {
        proof {
            reveal(recover_one);
        }
        let raw: Vec<u8> = match self.read_inode_raw(ino) {
            Ok(raw) => raw,
            Err(e) => {
                return Err(e);
            },
        };
        let inode: Inode = match Inode::parse(&raw) {
            Ok(i) => i,
            Err(_) => {
                return Ok((0, 0));
            },
        };
        if inode.links_count != 0 {
            return match self.buffer_finish_interrupted_truncate(buf, ino, &inode, raw, Ghost(r0)) {
                Ok(n) => Ok((n, 0)),
                Err(e) => Err(e),
            };
        }
        let runs: Vec<(u64, u32)> = match self.plan_file_runs(&inode, Ghost(raw@)) {
            Ok(x) => x,
            Err(Error::Io) => {
                return Err(Error::Io);
            },
            Err(_) => {
                return Ok((0, 0));
            },
        };
        proof {
            lemma_runs_total(runs@);
        }
        let freed: u64 = match self.buffer_free_runs(buf, &runs) {
            Ok(n) => n,
            Err(e) => {
                return Err(e);
            },
        };
        if let Err(e) = self.buffer_free_inode_slot(buf, ino) {
            return Err(e);
        }
        let dead: Vec<u8> = self.build_dead_inode(ino, inode.generation, now);
        if let Err(e) = self.buffer_write_inode(buf, ino, &dead) {
            return Err(e);
        }
        Ok((freed, 1))
    }

    fn buffer_recover(&self, buf: &mut BlockBuffer, chain: &[u32], now: u32) -> (r: Result<usize>)
        requires
            self.wf(),
            old(buf).wf(self@),
            old(buf).stage(self@) == fresh_stage(self@),
            chain@.len() <= 0x7FFF_FFFF,
        ensures
            final(buf).wf(self@),
            match r {
                Ok(n) => recover_stage(self@, chain@, now) == Ok::<(Stage, usize), Error>(
                    (final(buf).stage(self@), n),
                ),
                Err(e) => recover_stage(self@, chain@, now) == Err::<(Stage, usize), Error>(e) || (
                !self.dev.healthy() && e == Error::Io),
            },
    {
        let mut freed: u64 = 0;
        let mut reclaimed: u32 = 0;
        let mut i: usize = 0;
        assert(chain@.take(0) =~= Seq::<u32>::empty());
        while i < chain.len()
            invariant
                i <= chain@.len() <= 0x7FFF_FFFF,
                self.wf(),
                buf.wf(self@),
                freed <= FREED_MAX,
                reclaimed <= i,
                recover_each(self@, chain@.take(i as int), now) == Ok::<Recovery, Error>(
                    (Recovery {
                        st: buf.stage(self@),
                        freed: freed as int,
                        reclaimed: reclaimed as int,
                    }),
                ),
            decreases chain@.len() - i,
        {
            proof {
                assert(chain@.take(i + 1).drop_last() =~= chain@.take(i as int));
            }
            let ghost r0 = Recovery {
                st: buf.stage(self@),
                freed: freed as int,
                reclaimed: reclaimed as int,
            };
            let (n, one): (u64, u32) = match self.buffer_recover_one(buf, chain[i], now, Ghost(r0)) {
                Ok(p) => p,
                Err(e) => {
                    proof {
                        if recover_each(self@, chain@.take(i + 1), now) == Err::<Recovery, Error>(e) {
                            lemma_recover_error(self@, chain@, i + 1, now, e);
                        }
                    }
                    return Err(e);
                },
            };
            freed = freed + n;
            reclaimed = reclaimed + one;
            if freed > FREED_MAX {
                proof {
                    lemma_recover_error(
                        self@,
                        chain@,
                        i + 1,
                        now,
                        Error::Corrupt("orphan_list: more blocks released than a volume can hold"),
                    );
                }
                return Err(Error::Corrupt("orphan_list: more blocks released than a volume can hold"));
            }
            i += 1;
        }
        assert(chain@.take(i as int) =~= chain@);
        if let Err(e) = self.buffer_patch_sb_counters(buf, freed as i64, reclaimed as i32) {
            return Err(e);
        }
        if let Err(e) = self.buffer_patch_sb_last_orphan(buf, 0) {
            return Err(e);
        }
        Ok(reclaimed as usize)
    }

    /// Deal with every inode on the orphan list, in one commit.
    ///
    /// An inode without links is reclaimed, its blocks and its slot freed. One
    /// that still has links had its truncation interrupted: the truncation is
    /// finished, and the file stays. Returns how many were reclaimed; none
    /// where the list is empty or the volume must not be written.
    pub fn recover_orphans(&mut self, now: u32) -> (r: Result<usize>)
        requires
            old(self).wf(),
        ensures
            final(self).wf(),
            final(self).dev.healthy() == old(self).dev.healthy(),
            final(self).dev.writable() == old(self).dev.writable(),
            final(self).replay_due == old(self).replay_due,
            final(self).dev.contents().len() == old(self).dev.contents().len(),
            came_out(
                recovered(old(self).takes_writes(), old(self)@, now),
                r,
                final(self)@,
                old(self).dev.healthy(),
            ),
            r matches Err(Error::Io) ==> only_in(
                old(self)@,
                final(self)@,
                recovery_blocks(old(self)@, now),
            ),
    {
        if let Err(_) = self.refuse_write() {
            return Ok(0);
        }
        let chain: Vec<u32> = match self.orphan_list() {
            Ok(c) => c,
            Err(e) => {
                return Err(e);
            },
        };
        if chain.len() == 0 {
            return Ok(0);
        }
        if chain.len() > 0x7FFF_FFFF {
            return Err(Error::Corrupt("orphan_list: chain longer than inodes_count (cycle?)"));
        }
        let mut buf: BlockBuffer = BlockBuffer::new(self.sb.block_size());
        assert(buf.wf(self@));
        let n: usize = match self.buffer_recover(&mut buf, &chain, now) {
            Ok(n) => n,
            Err(e) => {
                return Err(e);
            },
        };
        match self.commit_block_buffer(buf) {
            Err(e) => Err(e),
            Ok(_) => {
                let ghost before = self@;
                self.sb.last_orphan = 0;
                assert(self@ == (Vol { sb: without_orphans(before.sb), ..before }));
                Ok(n)
            },
        }
    }
}

fn count_blocks(runs: &[(u64, u32)]) -> (r: u64)
    requires
        crate::file_mut::runs_small(runs@),
        runs@.len() <= 65535,
    ensures
        r == runs_total(runs@),
        r <= 0x8000_0000,
{
    let mut total: u64 = 0;
    let mut i: usize = 0;
    assert(runs@.take(0) =~= Seq::<(u64, u32)>::empty());
    while i < runs.len()
        invariant
            i <= runs@.len() <= 65535,
            crate::file_mut::runs_small(runs@),
            total == runs_total(runs@.take(i as int)),
            total <= 32768 * i,
        decreases runs@.len() - i,
    {
        assert(runs@[i as int].1 <= 32768);
        assert(runs@.take(i + 1).drop_last() =~= runs@.take(i as int));
        total = total + runs[i].1 as u64;
        i += 1;
    }
    assert(runs@.take(i as int) =~= runs@);
    total
}

/// An orphan that is still named is never reclaimed: finishing its truncation
/// keeps its size and its links, and takes it off the list.
pub proof fn law_named_orphan_is_kept(v: Vol, r: Recovery, ino: u32, raw: Seq<u8>, now: u32)
    requires
        raw_inode(v, ino) == Ok::<Seq<u8>, Error>(raw),
        inode_fault(raw) is None,
        links_of(raw) != 0,
        raw.len() >= 128,
    ensures
        recover_one(v, r, ino, now) matches Ok(after) ==> after.reclaimed == r.reclaimed,
        size_of_file(finished_truncate(v, raw).0) == size_of_file(raw),
        links_of(finished_truncate(v, raw).0) == links_of(raw),
        le32(finished_truncate(v, raw).0, 0x14) == 0,
{
    reveal(recover_one);
    reveal(crate::bytes::le16);
    reveal(le32);
    reveal(put32);
    reveal(crate::bytes::put16);
}

} // verus!
