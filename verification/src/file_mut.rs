//! Cutting a file short: which extents stay, and which blocks are released.
use crate::allocator::{blocks_for, blocks_for_bytes};
use crate::block_io::BlockDevice;
use crate::error::{Error, Result};
use crate::extent::{Extent, ExtentHeader};
use crate::extent_mut::{
    build_root, leaf_fits, leaf_of, lengths_fit, node_bytes, read_leaf_entries, storable,
};
use crate::fs::Filesystem;
use crate::stage::{stage_free_blocks, staged};
use crate::volume::{BlockBuffer, Stage, Vol};
use vstd::prelude::*;

verus! {

/// What is left of an extent when only file blocks below `nb` stay.
pub open spec fn keep_one(e: Extent, nb: int) -> Option<Extent> {
    if e.logical_block + e.length <= nb {
        Some(e)
    } else if e.logical_block >= nb {
        None
    } else {
        Some(Extent { length: (nb - e.logical_block) as u16, ..e })
    }
}

/// What an extent gives up when only file blocks below `nb` stay: the first
/// device block, and how many.
pub open spec fn free_one(e: Extent, nb: int) -> Option<(u64, u32)> {
    if e.logical_block + e.length <= nb {
        None
    } else if e.logical_block >= nb {
        Some((e.physical_block, e.length as u32))
    } else {
        Some(
            (
                (e.physical_block + (nb - e.logical_block)) as u64,
                (e.logical_block + e.length - nb) as u32,
            ),
        )
    }
}

/// The extents that stay.
pub open spec fn kept_below(entries: Seq<Extent>, nb: int) -> Seq<Extent>
    decreases entries.len(),
{
    if entries.len() == 0 {
        Seq::empty()
    } else {
        let before = kept_below(entries.drop_last(), nb);
        match keep_one(entries.last(), nb) {
            Some(e) => before.push(e),
            None => before,
        }
    }
}

/// The runs that are released.
pub open spec fn freed_above(entries: Seq<Extent>, nb: int) -> Seq<(u64, u32)>
    decreases entries.len(),
{
    if entries.len() == 0 {
        Seq::empty()
    } else {
        let before = freed_above(entries.drop_last(), nb);
        match free_one(entries.last(), nb) {
            Some(run) => before.push(run),
            None => before,
        }
    }
}

/// How many blocks the runs have together.
pub open spec fn runs_total(runs: Seq<(u64, u32)>) -> int
    decreases runs.len(),
{
    if runs.len() == 0 {
        0
    } else {
        runs_total(runs.drop_last()) + runs.last().1
    }
}

/// A truncation of a file whose extents are all in its root: the new root and
/// the runs released.
pub open spec fn shrink_planned(root: Seq<u8>, new_size: int, bs: int) -> Result<(Seq<u8>, Seq<(u64, u32)>)> {
    match leaf_of(root) {
        Err(e) => Err(e),
        Ok((h, entries)) => {
            let nb = blocks_for(new_size, bs);
            Ok((node_bytes(h, kept_below(entries, nb), root.len()), freed_above(entries, nb)))
        },
    }
}

/// A truncation: the root's new bytes and the runs to release.
pub struct ShrinkPlan {
    pub root: Vec<u8>,
    pub freed: Vec<(u64, u32)>,
}

/// Every run is short enough to be counted.
pub open spec fn runs_small(runs: Seq<(u64, u32)>) -> bool {
    forall|i: int| 0 <= i < runs.len() ==> (#[trigger] runs[i]).1 <= 32768
}

pub proof fn lemma_runs_total(runs: Seq<(u64, u32)>)
    requires
        runs_small(runs),
    ensures
        0 <= runs_total(runs) <= 32768 * runs.len(),
    decreases runs.len(),
{
    if runs.len() > 0 {
        let shorter = runs.drop_last();
        assert forall|i: int| 0 <= i < shorter.len() implies (#[trigger] shorter[i]).1 <= 32768 by {
            assert(shorter[i] == runs[i]);
        }
        lemma_runs_total(shorter);
        assert(runs[runs.len() - 1].1 <= 32768);
    }
}

/// Plan the truncation of a file to `new_size` bytes. Only a tree that is all
/// in its root can be planned.
pub fn plan_truncate_shrink(new_size: u64, root: &[u8], bs: u32) -> (r: Result<ShrinkPlan>)
    requires
        bs > 1,
    ensures
        match r {
            Ok(p) => shrink_planned(root@, new_size as int, bs as int) == Ok::<
                (Seq<u8>, Seq<(u64, u32)>),
                Error,
            >((p.root@, p.freed@)) && p.root@.len() == root@.len() && runs_small(p.freed@)
                && p.freed@.len() <= 65535,
            Err(e) => shrink_planned(root@, new_size as int, bs as int) == Err::<
                (Seq<u8>, Seq<(u64, u32)>),
                Error,
            >(e),
        },
{
    let (header, entries): (ExtentHeader, Vec<Extent>) = match read_leaf_entries(root) {
        Ok(p) => p,
        Err(e) => {
            return Err(e);
        },
    };
    let nb: u64 = blocks_for_bytes(new_size, bs as u64);
    let mut kept: Vec<Extent> = Vec::new();
    let mut freed: Vec<(u64, u32)> = Vec::new();
    let mut i: usize = 0;
    assert(entries@.take(0) =~= Seq::<Extent>::empty());
    while i < entries.len()
        invariant
            i <= entries@.len(),
            leaf_fits(header, entries@, root@.len()),
            kept@ == kept_below(entries@.take(i as int), nb as int),
            freed@ == freed_above(entries@.take(i as int), nb as int),
            kept@.len() <= i,
            freed@.len() <= i,
            lengths_fit(kept@),
            runs_small(freed@),
        decreases entries@.len() - i,
    {
        let e: Extent = entries[i];
        assert(storable(entries@[i as int]));
        let start: u64 = e.logical_block as u64;
        let end: u64 = start + e.length as u64;
        if end <= nb {
            kept.push(e);
        } else if start >= nb {
            freed.push((e.physical_block, e.length as u32));
        } else {
            let stay: u64 = nb - start;
            kept.push(
                Extent {
                    logical_block: e.logical_block,
                    length: stay as u16,
                    physical_block: e.physical_block,
                    uninitialized: e.uninitialized,
                },
            );
            freed.push((e.physical_block + stay, (end - nb) as u32));
        }
        i += 1;
        assert(entries@.take(i as int).drop_last() =~= entries@.take(i - 1));
    }
    assert(entries@.take(i as int) =~= entries@);
    let new_root: Vec<u8> = build_root(&header, &kept, root.len());
    Ok(ShrinkPlan { root: new_root, freed })
}

/// The stage with every run released in turn.
pub open spec fn stage_free_runs(v: Vol, st: Stage, runs: Seq<(u64, u32)>) -> Result<Stage>
    decreases runs.len(),
{
    if runs.len() == 0 {
        Ok(st)
    } else {
        match stage_free_runs(v, st, runs.drop_last()) {
            Err(e) => Err(e),
            Ok(before) => stage_free_blocks(v, before, runs.last().0, runs.last().1 as int),
        }
    }
}

proof fn lemma_free_runs_error(v: Vol, st: Stage, runs: Seq<(u64, u32)>, i: int, e: Error)
    requires
        0 <= i <= runs.len(),
        stage_free_runs(v, st, runs.take(i)) == Err::<Stage, Error>(e),
    ensures
        stage_free_runs(v, st, runs) == Err::<Stage, Error>(e),
    decreases runs.len() - i,
{
    if i < runs.len() {
        assert(runs.take(i + 1).drop_last() =~= runs.take(i));
        lemma_free_runs_error(v, st, runs, i + 1, e);
    } else {
        assert(runs.take(i) =~= runs);
    }
}

impl<D: BlockDevice> Filesystem<D> {
    /// Stage the release of every run. Returns how many blocks that is.
    pub fn buffer_free_runs(&self, buf: &mut BlockBuffer, runs: &[(u64, u32)]) -> (r: Result<u64>)
        requires
            self.wf(),
            old(buf).wf(self@),
            runs_small(runs@),
            runs@.len() <= 0x1_0000_0000,
        ensures
            final(buf).wf(self@),
            r matches Ok(n) ==> n == runs_total(runs@),
            0 <= runs_total(runs@) <= 0x8000_0000_0000,
            staged(
                stage_free_runs(self@, old(buf).stage(self@), runs@),
                match r {
                    Ok(_) => Ok(()),
                    Err(e) => Err(e),
                },
                final(buf).stage(self@),
                self.dev.healthy(),
            ),
    {
        let mut total: u64 = 0;
        let mut i: usize = 0;
        proof {
            lemma_runs_total(runs@);
            assert(runs@.take(0) =~= Seq::<(u64, u32)>::empty());
        }
        while i < runs.len()
            invariant
                i <= runs@.len() <= 0x1_0000_0000,
                self.wf(),
                buf.wf(self@),
                runs_small(runs@),
                0 <= runs_total(runs@) <= 0x8000_0000_0000,
                total == runs_total(runs@.take(i as int)),
                0 <= total <= 32768 * i,
                stage_free_runs(self@, old(buf).stage(self@), runs@.take(i as int)) == Ok::<Stage, Error>(
                    buf.stage(self@),
                ),
            decreases runs@.len() - i,
        {
            let (start, len): (u64, u32) = runs[i];
            assert(runs@[i as int].1 <= 32768);
            proof {
                assert(runs@.take(i + 1).drop_last() =~= runs@.take(i as int));
            }
            match self.buffer_free_block_run_and_bgd(buf, start, len as u64) {
                Ok(n) => {
                    total = total + n;
                },
                Err(e) => {
                    proof {
                        if stage_free_runs(self@, old(buf).stage(self@), runs@.take(i + 1)) == Err::<
                            Stage,
                            Error,
                        >(e) {
                            lemma_free_runs_error(self@, old(buf).stage(self@), runs@, i + 1, e);
                        }
                    }
                    return Err(e);
                },
            }
            i += 1;
        }
        assert(runs@.take(i as int) =~= runs@);
        Ok(total)
    }
}

/// A file block is mapped after a truncation exactly if it was before and is
/// below the new end, and to the same device block.
pub proof fn law_shrink_keeps_prefix(e: Extent, nb: int, l: int)
    requires
        storable(e),
        nb >= 0,
    ensures
        (keep_one(e, nb) is Some && keep_one(e, nb)->0.covers(l)) == (e.covers(l) && l < nb),
        keep_one(e, nb) matches Some(k) ==> (k.covers(l) ==> k.place(l) == e.place(l)),
{
}

/// The blocks that stay and the blocks released are together those the extent
/// had, and none is both.
pub proof fn law_shrink_releases_the_rest(e: Extent, nb: int)
    requires
        storable(e),
        nb >= 0,
    ensures
        ({
            let kept = match keep_one(e, nb) {
                Some(k) => k.length as int,
                None => 0,
            };
            let freed = match free_one(e, nb) {
                Some((_, n)) => n as int,
                None => 0,
            };
            kept + freed == e.length
        }),
        free_one(e, nb) matches Some((start, n)) ==> (n > 0 ==> e.physical_block <= start && start + n
            == e.physical_block + e.length && (keep_one(e, nb) matches Some(k) ==> k.physical_block
            + k.length == start)),
{
}

} // verus!
