//! Replaying the journal: carrying the blocks of its committed transactions to
//! their places on the volume.
use crate::block_io::{read_range, BlockDevice};
use crate::bytes::{be32, copy_range, get_be32, get_u32, le32, put32, put_be32, set_be32, set_u32, splice};
use crate::checksum::{linux_crc32c, raw_crc};
use crate::commit::{came_out, lemma_in_block, only_in, only_within, same_mount};
use crate::error::{Error, Result};
use crate::features::{
    has, has_any, write_breaking_incompat, INCOMPAT_RECOVER, RO_COMPAT_METADATA_CSUM, WRITE_BREAKING_INCOMPAT,
};
use crate::fs::{file_block, Filesystem};
use crate::inode::Inode;
use crate::jbd2::{journal_record, journal_super, JournalSuperblock, JBD2_MAGIC_NUMBER};
use crate::journal::{walked, ReplayEntry, ReplayPlan, TAG_ESCAPED};
use crate::superblock::{SUPERBLOCK_OFFSET, SUPERBLOCK_SIZE};
use crate::volume::Vol;
use vstd::prelude::*;

verus! {

broadcast use crate::bytes::group_fields;

// -- the recovery flag ------------------------------------------------------

/// A superblock image with `needs_recovery` set or cleared, and its checksum
/// redone where it has one.
pub open spec fn recovery_flagged(sb: Seq<u8>, on: bool) -> Seq<u8> {
    let flagged = put32(
        sb,
        0x60,
        if on {
            le32(sb, 0x60) | INCOMPAT_RECOVER
        } else {
            le32(sb, 0x60) & !INCOMPAT_RECOVER
        },
    );
    if has(le32(sb, 0x64), RO_COMPAT_METADATA_CSUM) {
        put32(flagged, 0x3FC, raw_crc(0xFFFF_FFFF, flagged.subrange(0, 0x3FC)))
    } else {
        flagged
    }
}

/// Set or clear `INCOMPAT_RECOVER` (`needs_recovery`) in a 1024-byte
/// superblock image, redoing its checksum under `metadata_csum`.
pub fn set_needs_recovery_in(sb: &mut Vec<u8>, on: bool)
    requires
        old(sb)@.len() == 1024,
    ensures
        final(sb)@ == recovery_flagged(old(sb)@, on),
        final(sb)@.len() == 1024,
{
    let incompat: u32 = get_u32(sb, 0x60);
    let incompat: u32 = if on {
        incompat | INCOMPAT_RECOVER
    } else {
        incompat & !INCOMPAT_RECOVER
    };
    set_u32(sb, 0x60, incompat);
    if has_any(get_u32(sb, 0x64), RO_COMPAT_METADATA_CSUM) {
        let covered: Vec<u8> = copy_range(sb, 0, 0x3FC);
        let csum: u32 = linux_crc32c(0xFFFF_FFFF, &covered);
        set_u32(sb, 0x3FC, csum);
    }
}

/// A flag that was set is set, one that was cleared is not, and either way no
/// other feature bit changes; the image carries the checksum it should.
pub proof fn law_recovery_flag(sb: Seq<u8>, on: bool)
    requires
        sb.len() == 1024,
    ensures
        has(le32(recovery_flagged(sb, on), 0x60), INCOMPAT_RECOVER) == on,
        le32(recovery_flagged(sb, on), 0x60) | INCOMPAT_RECOVER == le32(sb, 0x60) | INCOMPAT_RECOVER,
        le32(recovery_flagged(sb, on), 0x64) == le32(sb, 0x64),
        has(le32(sb, 0x64), RO_COMPAT_METADATA_CSUM) ==> crate::checksum::superblock_crc_ok(
            recovery_flagged(sb, on),
        ),
{
    let w = le32(sb, 0x60);
    assert((w | 4u32) & 4u32 != 0) by (bit_vector);
    assert((w & !4u32) & 4u32 == 0) by (bit_vector);
    assert((w | 4u32) | 4u32 == w | 4u32) by (bit_vector);
    assert((w & !4u32) | 4u32 == w | 4u32) by (bit_vector);
    let flagged = put32(
        sb,
        0x60,
        if on {
            w | INCOMPAT_RECOVER
        } else {
            w & !INCOMPAT_RECOVER
        },
    );
    let crc = raw_crc(0xFFFF_FFFF, flagged.subrange(0, 0x3FC));
    assert(put32(flagged, 0x3FC, crc).subrange(0, 0x3FC) =~= flagged.subrange(0, 0x3FC));
}

/// The volume with `needs_recovery` set or cleared in its superblock.
pub open spec fn with_recovery(v: Vol, on: bool) -> Result<Vol> {
    match read_range(v.img, 1024, 1024) {
        Err(e) => Err(e),
        Ok(sb) => Ok(Vol { img: splice(v.img, 1024, recovery_flagged(sb, on)), ..v }),
    }
}

// -- where a block lands ----------------------------------------------------

/// Where a block number lands on the device, or a refusal: only a block that
/// is on the volume and on the device has a place.
pub open spec fn place_in(block: u64, blocks_count: u64, block_size: u32, device_bytes: u64) -> Result<u64> {
    if block >= blocks_count {
        Err(Error::Corrupt("journal: names a block past the end of the filesystem"))
    } else if block * block_size + block_size > u64::MAX {
        Err(Error::Corrupt("journal: block offset overflows"))
    } else if block * block_size + block_size > device_bytes {
        Err(Error::Corrupt("journal: names a block past the end of the device"))
    } else {
        Ok((block * block_size) as u64)
    }
}

/// Where block `block` lands on a device of `device_bytes` bytes that holds a
/// volume of `blocks_count` blocks, or a refusal.
pub fn byte_offset_in(block: u64, blocks_count: u64, block_size: u32, device_bytes: u64) -> (r: Result<u64>)
    ensures
        r == place_in(block, blocks_count, block_size, device_bytes),
{
    if block >= blocks_count {
        return Err(Error::Corrupt("journal: names a block past the end of the filesystem"));
    }
    let size: u64 = block_size as u64;
    let offset: u64 = match block.checked_mul(size) {
        Some(n) => n,
        None => {
            return Err(Error::Corrupt("journal: block offset overflows"));
        },
    };
    let end: u64 = match offset.checked_add(size) {
        Some(n) => n,
        None => {
            return Err(Error::Corrupt("journal: block offset overflows"));
        },
    };
    if end > device_bytes {
        return Err(Error::Corrupt("journal: names a block past the end of the device"));
    }
    Ok(offset)
}

/// Where a block of a volume lands.
pub open spec fn place_of(v: Vol, block: u64) -> Result<u64> {
    place_in(block, v.sb.blocks_count, v.bs() as u32, v.img.len() as u64)
}

// -- applying a plan --------------------------------------------------------

/// Where one write comes from and where it goes, in bytes on the device.
pub open spec fn resolved_one(v: Vol, raw: Seq<u8>, w: ReplayEntry) -> Result<(u64, u64)> {
    match file_block(v, raw, w.journal_block as int) {
        Err(e) => Err(e),
        Ok(None) => Err(Error::Corrupt("journal_apply: journal block unmapped")),
        Ok(Some(p)) => match place_of(v, p) {
            Err(e) => Err(e),
            Ok(source) => match place_of(v, w.fs_block) {
                Err(e) => Err(e),
                Ok(target) => Ok((source, target)),
            },
        },
    }
}

/// Where every write comes from and goes.
pub open spec fn resolved(v: Vol, raw: Seq<u8>, writes: Seq<ReplayEntry>) -> Result<Seq<(u64, u64)>>
    decreases writes.len(),
{
    if writes.len() == 0 {
        Ok(Seq::empty())
    } else {
        match resolved(v, raw, writes.drop_last()) {
            Err(e) => Err(e),
            Ok(before) => match resolved_one(v, raw, writes.last()) {
                Err(e) => Err(e),
                Ok(p) => Ok(before.push(p)),
            },
        }
    }
}

/// A journaled block as it belongs on the volume: one that was escaped gets
/// its first four bytes back.
pub open spec fn unescaped(b: Seq<u8>, flags: u32) -> Seq<u8> {
    if has(flags, TAG_ESCAPED) {
        put_be32(b, 0, JBD2_MAGIC_NUMBER)
    } else {
        b
    }
}

/// The image with the first `n` writes made, in order.
pub open spec fn carried(img: Seq<u8>, bs: int, writes: Seq<ReplayEntry>, places: Seq<(u64, u64)>, n: nat) -> Seq<u8>
    decreases n,
{
    if n == 0 {
        img
    } else {
        let before = carried(img, bs, writes, places, (n - 1) as nat);
        let (source, target) = places[n - 1];
        splice(
            before,
            target as int,
            unescaped(before.subrange(source as int, source + bs), writes[n - 1].flags),
        )
    }
}

/// What applying a plan comes to. Every write is resolved before any is made,
/// so one that cannot be leaves the volume as it was.
pub open spec fn applied(writable: bool, v: Vol, writes: Seq<ReplayEntry>) -> (Vol, Result<usize>) {
    if writes.len() == 0 {
        (v, Ok(0))
    } else if !writable {
        (v, Err(Error::Corrupt("journal_apply: device is not writable; cannot replay")))
    } else {
        match journal_record(v) {
            Err(e) => (v, Err(e)),
            Ok(raw) => match resolved(v, raw, writes) {
                Err(e) => (v, Err(e)),
                Ok(places) => (
                    Vol { img: carried(v.img, v.bs(), writes, places, writes.len()), ..v },
                    Ok(writes.len() as usize),
                ),
            },
        }
    }
}

/// The blocks that a plan writes.
pub open spec fn plan_blocks(writes: Seq<ReplayEntry>) -> Set<u64> {
    Set::new(|b: u64| exists|i: int| 0 <= i < writes.len() && (#[trigger] writes[i]).fs_block == b)
}

/// A journal superblock with its log empty and `sequence` the next
/// transaction, and its checksum redone where it has one.
pub open spec fn log_emptied(b: Seq<u8>, sequence: u32, summed: bool) -> Seq<u8> {
    let empty = put_be32(put_be32(b, 0x18, sequence), 0x1C, 0);
    if summed {
        let bare = put_be32(empty, 0xFC, 0);
        put_be32(bare, 0xFC, raw_crc(0xFFFF_FFFF, bare))
    } else {
        empty
    }
}

/// The transaction that comes after a replay.
pub open spec fn next_sequence(jsb: JournalSuperblock, last_commit: u32) -> u32 {
    if last_commit == 0 {
        jsb.sequence
    } else {
        ((last_commit + 1) % 0x1_0000_0000) as u32
    }
}

/// The volume with its journal recorded as replayed.
pub open spec fn journal_cleaned(v: Vol, jsb: JournalSuperblock, last_commit: u32) -> Result<Vol> {
    match journal_record(v) {
        Err(e) => Err(e),
        Ok(raw) => match file_block(v, raw, 0) {
            Err(e) => Err(e),
            Ok(None) => Err(Error::Corrupt("journal_apply: journal superblock unmapped")),
            Ok(Some(p)) => match place_of(v, p) {
                Err(e) => Err(e),
                Ok(at) => {
                    let b = v.img.subrange(at as int, at + 1024);
                    if be32(b, 0) != JBD2_MAGIC_NUMBER {
                        Err(
                            Error::Corrupt(
                                "journal_apply: journal superblock lost its magic during replay",
                            ),
                        )
                    } else {
                        Ok(
                            Vol {
                                img: splice(
                                    v.img,
                                    at as int,
                                    log_emptied(
                                        b,
                                        next_sequence(jsb, last_commit),
                                        jsb.csum_v2() || jsb.csum_v3(),
                                    ),
                                ),
                                ..v
                            },
                        )
                    }
                },
            },
        },
    }
}

/// A replay's last steps: the journal marked clean, then the flag cleared. A
/// step that fails leaves what the steps before it did.
pub open spec fn wound_up(v: Vol, jsb: JournalSuperblock, last_commit: u32, n: usize) -> (Vol, Result<usize>) {
    match journal_cleaned(v, jsb, last_commit) {
        Err(e) => (v, Err(e)),
        Ok(v1) => match with_recovery(v1, false) {
            Err(e) => (v1, Err(e)),
            Ok(v2) => (v2, Ok(n)),
        },
    }
}

/// What a device that fails to mark a journal clean may leave: a change in the
/// journal superblock at most.
pub open spec fn cleaned_cut(v: Vol, post: Vol) -> bool {
    post == v || match journal_record(v) {
        Err(_) => false,
        Ok(raw) => match file_block(v, raw, 0) {
            Ok(Some(p)) => match place_of(v, p) {
                Err(_) => false,
                Ok(at) => only_within(v, post, at as int, at + 1024),
            },
            _ => false,
        },
    }
}

/// What a device that fails a replay's last steps may leave.
pub open spec fn wound_cut(v: Vol, jsb: JournalSuperblock, last_commit: u32, post: Vol) -> bool {
    ||| cleaned_cut(v, post)
    ||| match journal_cleaned(v, jsb, last_commit) {
        Err(_) => false,
        Ok(v1) => only_within(v1, post, 1024, 2048),
    }
}

/// What a device that fails a replay may leave, for the journal superblock
/// `jsb`.
pub open spec fn log_cut(v: Vol, jsb: JournalSuperblock, post: Vol) -> bool {
    post == v || match journal_record(v) {
        Err(_) => false,
        Ok(raw) => match walked(v, raw, jsb) {
            Err(_) => false,
            Ok(plan) => {
                let (v1, r) = applied(true, v, plan.writes);
                ||| only_in(v, post, plan_blocks(plan.writes))
                ||| r is Ok && wound_cut(v1, jsb, plan.last_commit, post)
            },
        },
    }
}

/// What a device that fails a replay may leave. A read that fails leaves the
/// volume as it was; a write that fails changes what it was aimed at, and
/// nothing is written behind it.
pub open spec fn replay_cut(v: Vol, post: Vol) -> bool {
    post == v || match journal_super(v) {
        Ok(Some(b)) => if be32(b, 0x1C) == 0 {
            only_within(v, post, 1024, 2048)
        } else {
            log_cut(v, journal_super_in(b), post)
        },
        _ => false,
    }
}

/// What a replay comes to, for the journal superblock `jsb`.
pub open spec fn replayed_log(writable: bool, v: Vol, jsb: JournalSuperblock) -> (Vol, Result<usize>) {
    if v.sb.feature_incompat & WRITE_BREAKING_INCOMPAT != 0 {
        (v, Err(Error::UnsupportedIncompat(v.sb.feature_incompat & WRITE_BREAKING_INCOMPAT)))
    } else {
        match journal_record(v) {
            Err(e) => (v, Err(e)),
            Ok(raw) => match walked(v, raw, jsb) {
                Err(e) => (v, Err(e)),
                Ok(plan) => {
                    let (v1, r) = applied(writable, v, plan.writes);
                    match r {
                        Err(e) => (v1, Err(e)),
                        Ok(n) => wound_up(v1, jsb, plan.last_commit, n),
                    }
                },
            },
        }
    }
}

/// The journal superblock in some bytes.
pub open spec fn journal_super_in(b: Seq<u8>) -> JournalSuperblock {
    choose|jsb: JournalSuperblock| jsb.decodes(b)
}

/// What a replay comes to: nothing on a device that takes no writes, on a
/// volume without a journal or with a clean one, but that a leftover
/// `needs_recovery` beside a clean journal is cleared.
pub open spec fn replayed(writable: bool, v: Vol) -> (Vol, Result<usize>) {
    if !writable {
        (v, Ok(0))
    } else {
        match journal_super(v) {
            Err(e) => (v, Err(e)),
            Ok(None) => (v, Ok(0)),
            Ok(Some(b)) => if be32(b, 0x1C) == 0 {
                if has(v.sb.feature_incompat, INCOMPAT_RECOVER) {
                    match with_recovery(v, false) {
                        Err(e) => (v, Err(e)),
                        Ok(v1) => (v1, Ok(0)),
                    }
                } else {
                    (v, Ok(0))
                }
            } else {
                replayed_log(writable, v, journal_super_in(b))
            },
        }
    }
}

pub(crate) proof fn lemma_journal_super_in(b: Seq<u8>, jsb: JournalSuperblock)
    requires
        jsb.decodes(b),
    ensures
        journal_super_in(b) == jsb,
{
    let other = journal_super_in(b);
    assert(other.decodes(b));
    assert(other.uuid@ == jsb.uuid@);
    assert(other.uuid =~= jsb.uuid);
}

proof fn lemma_resolved_error(v: Vol, raw: Seq<u8>, writes: Seq<ReplayEntry>, i: int, e: Error)
    requires
        0 <= i <= writes.len(),
        resolved(v, raw, writes.take(i)) == Err::<Seq<(u64, u64)>, Error>(e),
    ensures
        resolved(v, raw, writes) == Err::<Seq<(u64, u64)>, Error>(e),
    decreases writes.len() - i,
{
    if i < writes.len() {
        assert(writes.take(i + 1).drop_last() =~= writes.take(i));
        lemma_resolved_error(v, raw, writes, i + 1, e);
    } else {
        assert(writes.take(i) =~= writes);
    }
}

/// Every place that was resolved is a whole block on the device.
proof fn lemma_resolved_places(v: Vol, raw: Seq<u8>, writes: Seq<ReplayEntry>)
    requires
        v.wf(),
    ensures
        resolved(v, raw, writes) matches Ok(places) ==> places.len() == writes.len() && forall|i: int|
            0 <= i < places.len() ==> (#[trigger] places[i]).0 + v.bs() <= v.img.len() && places[i].1
                + v.bs() <= v.img.len() && places[i].1 == writes[i].fs_block * v.bs(),
    decreases writes.len(),
{
    if writes.len() > 0 {
        lemma_resolved_places(v, raw, writes.drop_last());
    }
}

pub(crate) proof fn lemma_carried_len(img: Seq<u8>, bs: int, writes: Seq<ReplayEntry>, places: Seq<(u64, u64)>, n: nat)
    ensures
        carried(img, bs, writes, places, n).len() == img.len(),
    decreases n,
{
    if n > 0 {
        lemma_carried_len(img, bs, writes, places, (n - 1) as nat);
    }
}

impl<D: BlockDevice> Filesystem<D> {
    /// Where a block number lands on the device, or a refusal.
    fn byte_offset_of(&self, block: u64) -> (r: Result<u64>)
        requires
            self.wf(),
        ensures
            r == place_of(self@, block),
    {
        byte_offset_in(block, self.sb.blocks_count, self.sb.block_size(), self.dev.size_bytes())
    }

    /// Set or clear `needs_recovery` in the primary superblock.
    fn write_needs_recovery(&mut self, on: bool) -> (r: Result<()>)
        requires
            old(self).wf(),
            old(self).dev.writable(),
        ensures
            final(self).wf(),
            same_mount(*final(self), *old(self)),
            match r {
                Ok(_) => with_recovery(old(self)@, on) == Ok::<Vol, Error>(final(self)@),
                Err(e) => e == Error::Io && (old(self).dev.healthy() ==> with_recovery(old(self)@, on)
                    == Err::<Vol, Error>(e) && final(self)@ == old(self)@) && only_within(
                    old(self)@,
                    final(self)@,
                    1024,
                    2048,
                ),
            },
    {
        let mut sb: Vec<u8> = match self.dev.read_at(SUPERBLOCK_OFFSET, SUPERBLOCK_SIZE) {
            Ok(b) => b,
            Err(e) => {
                return Err(e);
            },
        };
        set_needs_recovery_in(&mut sb, on);
        self.dev.write_at(SUPERBLOCK_OFFSET, &sb)
    }

    fn resolve(&self, jinode: &Inode, writes: &[ReplayEntry], Ghost(raw): Ghost<Seq<u8>>) -> (r: Result<
        Vec<(u64, u64)>,
    >)
        requires
            self.wf(),
            jinode.decodes(raw),
        ensures
            match r {
                Ok(places) => resolved(self@, raw, writes@) == Ok::<Seq<(u64, u64)>, Error>(places@),
                Err(e) => resolved(self@, raw, writes@) == Err::<Seq<(u64, u64)>, Error>(e) || (
                !self.dev.healthy() && e == Error::Io),
            },
    {
        let mut out: Vec<(u64, u64)> = Vec::new();
        let mut i: usize = 0;
        assert(writes@.take(0) =~= Seq::<ReplayEntry>::empty());
        assert(out@ =~= Seq::<(u64, u64)>::empty());
        while i < writes.len()
            invariant
                i <= writes@.len(),
                self.wf(),
                jinode.decodes(raw),
                resolved(self@, raw, writes@.take(i as int)) == Ok::<Seq<(u64, u64)>, Error>(out@),
            decreases writes@.len() - i,
        {
            let w: ReplayEntry = writes[i];
            proof {
                assert(writes@.take(i + 1).drop_last() =~= writes@.take(i as int));
                assert(writes@.take(i + 1).last() == w);
            }
            match self.resolve_one(jinode, &w, Ghost(raw)) {
                Ok(p) => {
                    out.push(p);
                },
                Err(e) => {
                    proof {
                        if resolved_one(self@, raw, w) == Err::<(u64, u64), Error>(e) {
                            lemma_resolved_error(self@, raw, writes@, i + 1, e);
                        }
                    }
                    return Err(e);
                },
            }
            i += 1;
        }
        assert(writes@.take(i as int) =~= writes@);
        Ok(out)
    }

    fn resolve_one(&self, jinode: &Inode, w: &ReplayEntry, Ghost(raw): Ghost<Seq<u8>>) -> (r: Result<(u64, u64)>)
        requires
            self.wf(),
            jinode.decodes(raw),
        ensures
            match r {
                Ok(p) => resolved_one(self@, raw, *w) == Ok::<(u64, u64), Error>(p),
                Err(e) => resolved_one(self@, raw, *w) == Err::<(u64, u64), Error>(e) || (
                !self.dev.healthy() && e == Error::Io),
            },
    {
        let phys: u64 = match self.map_inode_logical(jinode, w.journal_block) {
            Err(e) => {
                return Err(e);
            },
            Ok(None) => {
                return Err(Error::Corrupt("journal_apply: journal block unmapped"));
            },
            Ok(Some(p)) => p,
        };
        let source: u64 = match self.byte_offset_of(phys) {
            Ok(n) => n,
            Err(e) => {
                return Err(e);
            },
        };
        match self.byte_offset_of(w.fs_block) {
            Ok(target) => Ok((source, target)),
            Err(e) => Err(e),
        }
    }

    /// Apply every write of a plan: each block is read from the journal and
    /// written to its place. Returns the number of blocks written.
    pub(crate) fn apply_replay(&mut self, plan: &ReplayPlan) -> (r: Result<usize>)
        requires
            old(self).wf(),
        ensures
            final(self).wf(),
            same_mount(*final(self), *old(self)),
            came_out(
                applied(old(self).dev.writable(), old(self)@, plan.writes@),
                r,
                final(self)@,
                old(self).dev.healthy(),
            ),
            r matches Err(Error::Io) ==> only_in(old(self)@, final(self)@, plan_blocks(plan.writes@)),
            r is Ok && plan.writes@.len() > 0 ==> final(self).dev.durable() == final(self).dev.contents(),
            r is Err && (old(self).dev.healthy() || r->Err_0 != Error::Io) ==> *final(self) == *old(self),
    {
        let n: usize = plan.writes.len();
        if n == 0 {
            return Ok(0);
        }
        if !self.dev.is_writable() {
            return Err(Error::Corrupt("journal_apply: device is not writable; cannot replay"));
        }
        let (jinode, raw): (Inode, Vec<u8>) = match self.journal_file() {
            Ok(p) => p,
            Err(e) => {
                return Err(e);
            },
        };
        let places: Vec<(u64, u64)> = match self.resolve(&jinode, &plan.writes, Ghost(raw@)) {
            Ok(p) => p,
            Err(e) => {
                return Err(e);
            },
        };
        let bs: usize = self.sb.block_size() as usize;
        let ghost v0 = self@;
        proof {
            lemma_resolved_places(self@, raw@, plan.writes@);
        }
        let mut i: usize = 0;
        while i < n
            invariant
                i <= n,
                n == plan.writes@.len(),
                places@.len() == n,
                v0 == old(self)@,
                v0.wf(),
                bs == v0.bs(),
                self.dev.writable(),
                old(self).wf(),
                self.sb == old(self).sb,
                self.groups == old(self).groups,
                self.csum == old(self).csum,
                self.flavor == old(self).flavor,
                self.replay_due == old(self).replay_due,
                self.dev.healthy() == old(self).dev.healthy(),
                self.dev.writable() == old(self).dev.writable(),
                self.dev.contents().len() == v0.img.len(),
                forall|k: int|
                    0 <= k < places@.len() ==> (#[trigger] places@[k]).0 + bs <= v0.img.len()
                        && places@[k].1 + bs <= v0.img.len() && places@[k].1 == plan.writes@[k].fs_block * bs,
                forall|p: int|
                    0 <= p < v0.img.len() && !plan_blocks(plan.writes@).contains((p / v0.bs()) as u64)
                        ==> #[trigger] self.dev.contents()[p] == v0.img[p],
                self.dev.contents() == carried(v0.img, bs as int, plan.writes@, places@, i as nat),
            decreases n - i,
        {
            let (source, target): (u64, u64) = places[i];
            assert(places@[i as int].0 + bs <= v0.img.len());
            let mut b: Vec<u8> = match self.dev.read_at(source, bs) {
                Ok(b) => b,
                Err(e) => {
                    return Err(e);
                },
            };
            if has_any(plan.writes[i].flags, TAG_ESCAPED) {
                set_be32(&mut b, 0, JBD2_MAGIC_NUMBER);
            }
            let ghost block = plan.writes@[i as int].fs_block;
            let ghost before = self.dev.contents();
            let wrote: Result<()> = self.dev.write_at(target, &b);
            proof {
                assert(plan_blocks(plan.writes@).contains(block));
                assert forall|p: int|
                    0 <= p < v0.img.len() && !plan_blocks(plan.writes@).contains(
                        (p / v0.bs()) as u64,
                    ) implies #[trigger] self.dev.contents()[p] == v0.img[p] by {
                    lemma_in_block(p, v0.bs(), block as int);
                    assert(before[p] == v0.img[p]);
                }
            }
            if let Err(e) = wrote {
                return Err(e);
            }
            i += 1;
        }
        if let Err(e) = self.dev.flush() {
            return Err(e);
        }
        Ok(n)
    }

    /// Record a replayed journal as done: an empty log, and the sequence after
    /// the last committed transaction.
    fn mark_journal_clean(&mut self, jsb: &JournalSuperblock, last_commit: u32) -> (r: Result<()>)
        requires
            old(self).wf(),
            old(self).dev.writable(),
        ensures
            final(self).wf(),
            same_mount(*final(self), *old(self)),
            match r {
                Ok(_) => journal_cleaned(old(self)@, *jsb, last_commit) == Ok::<Vol, Error>(final(self)@),
                Err(e) => (journal_cleaned(old(self)@, *jsb, last_commit) == Err::<Vol, Error>(e)
                    && final(self)@ == old(self)@) || (!old(self).dev.healthy() && e == Error::Io && cleaned_cut(
                    old(self)@,
                    final(self)@,
                )),
            },
    {
        let (jinode, raw): (Inode, Vec<u8>) = match self.journal_file() {
            Ok(p) => p,
            Err(e) => {
                return Err(e);
            },
        };
        let phys: u64 = match self.map_inode_logical(&jinode, 0) {
            Err(e) => {
                return Err(e);
            },
            Ok(None) => {
                return Err(Error::Corrupt("journal_apply: journal superblock unmapped"));
            },
            Ok(Some(p)) => p,
        };
        let at: u64 = match self.byte_offset_of(phys) {
            Ok(n) => n,
            Err(e) => {
                return Err(e);
            },
        };
        let mut b: Vec<u8> = match self.dev.read_at(at, 1024) {
            Ok(b) => b,
            Err(e) => {
                return Err(e);
            },
        };
        if get_be32(&b, 0) != JBD2_MAGIC_NUMBER {
            return Err(
                Error::Corrupt("journal_apply: journal superblock lost its magic during replay"),
            );
        }
        let sequence: u32 = if last_commit == 0 {
            jsb.sequence
        } else {
            ((last_commit as u64 + 1) % 0x1_0000_0000) as u32
        };
        set_be32(&mut b, 0x18, sequence);
        set_be32(&mut b, 0x1C, 0);
        if jsb.uses_csum_v2_or_v3() {
            set_be32(&mut b, 0xFC, 0);
            let csum: u32 = linux_crc32c(0xFFFF_FFFF, &b);
            set_be32(&mut b, 0xFC, csum);
        }
        if let Err(e) = self.dev.write_at(at, &b) {
            return Err(e);
        }
        self.dev.flush()
    }

    fn replay_log(&mut self, jsb: &JournalSuperblock) -> (r: Result<usize>)
        requires
            old(self).wf(),
            old(self).dev.writable(),
        ensures
            final(self).wf(),
            same_mount(*final(self), *old(self)),
            came_out(
                replayed_log(old(self).dev.writable(), old(self)@, *jsb),
                r,
                final(self)@,
                old(self).dev.healthy(),
            ),
            r matches Err(Error::Io) ==> log_cut(old(self)@, *jsb, final(self)@),
            r is Ok ==> final(self).dev.durable() == final(self).dev.contents(),
    {
        let breaking: u32 = write_breaking_incompat(self.sb.feature_incompat);
        if breaking != 0 {
            return Err(Error::UnsupportedIncompat(breaking));
        }
        let (jinode, raw): (Inode, Vec<u8>) = match self.journal_file() {
            Ok(p) => p,
            Err(e) => {
                return Err(e);
            },
        };
        let plan: ReplayPlan = match self.walk_journal(&jinode, jsb, Ghost(raw@)) {
            Ok(p) => p,
            Err(e) => {
                return Err(e);
            },
        };
        let n: usize = match self.apply_replay(&plan) {
            Ok(n) => n,
            Err(e) => {
                return Err(e);
            },
        };
        if let Err(e) = self.mark_journal_clean(jsb, plan.last_commit) {
            return Err(e);
        }
        if let Err(e) = self.write_needs_recovery(false) {
            return Err(e);
        }
        if let Err(e) = self.dev.flush() {
            return Err(e);
        }
        Ok(n)
    }

    /// Replay the journal if it is dirty and the device takes writes, after
    /// which writes go through. Returns the number of blocks replayed.
    pub fn replay_journal_if_dirty(&mut self) -> (r: Result<usize>)
        requires
            old(self).wf(),
        ensures
            final(self).wf(),
            same_mount(*final(self), (Filesystem { replay_due: final(self).replay_due, ..*old(self) })),
            final(self).replay_due == (old(self).replay_due && r is Err),
            came_out(
                replayed(old(self).dev.writable(), old(self)@),
                r,
                final(self)@,
                old(self).dev.healthy(),
            ),
            r matches Err(Error::Io) ==> replay_cut(old(self)@, final(self)@),
            r matches Ok(n) && n > 0 ==> final(self).dev.durable() == final(self).dev.contents(),
    {
        if !self.dev.is_writable() {
            self.replay_due = false;
            return Ok(0);
        }
        let jsb: JournalSuperblock = match self.read_journal_superblock() {
            Err(e) => {
                return Err(e);
            },
            Ok(None) => {
                self.replay_due = false;
                return Ok(0);
            },
            Ok(Some(jsb)) => jsb,
        };
        proof {
            lemma_journal_super_in(journal_super(self@)->Ok_0->0, jsb);
        }
        if jsb.is_clean() {
            if has_any(self.sb.feature_incompat, INCOMPAT_RECOVER) {
                if let Err(e) = self.write_needs_recovery(false) {
                    return Err(e);
                }
                if let Err(e) = self.dev.flush() {
                    return Err(e);
                }
            }
            self.replay_due = false;
            return Ok(0);
        }
        match self.replay_log(&jsb) {
            Ok(n) => {
                self.replay_due = false;
                Ok(n)
            },
            Err(e) => Err(e),
        }
    }
}

/// Apply all writes in `plan`. Every write is resolved before any is made.
/// Returns the number of blocks written.
pub fn apply<D: BlockDevice>(fs: &mut Filesystem<D>, plan: &ReplayPlan) -> (r: Result<usize>)
    requires
        old(fs).wf(),
    ensures
        final(fs).wf(),
        same_mount(*final(fs), *old(fs)),
        came_out(
            applied(old(fs).dev.writable(), old(fs)@, plan.writes@),
            r,
            final(fs)@,
            old(fs).dev.healthy(),
        ),
        r matches Err(Error::Io) ==> only_in(old(fs)@, final(fs)@, plan_blocks(plan.writes@)),
        r is Ok && plan.writes@.len() > 0 ==> final(fs).dev.durable() == final(fs).dev.contents(),
        r is Err && (old(fs).dev.healthy() || r->Err_0 != Error::Io) ==> *final(fs) == *old(fs),
{
    fs.apply_replay(plan)
}

/// Walk and apply the journal in one go if it is dirty and the device takes
/// writes. Returns the number of blocks replayed.
pub fn replay_if_dirty<D: BlockDevice>(fs: &mut Filesystem<D>) -> (r: Result<usize>)
    requires
        old(fs).wf(),
    ensures
        final(fs).wf(),
        same_mount(*final(fs), (Filesystem { replay_due: final(fs).replay_due, ..*old(fs) })),
        final(fs).replay_due == (old(fs).replay_due && r is Err),
        came_out(
            replayed(old(fs).dev.writable(), old(fs)@),
            r,
            final(fs)@,
            old(fs).dev.healthy(),
        ),
        r matches Err(Error::Io) ==> replay_cut(old(fs)@, final(fs)@),
        r matches Ok(n) && n > 0 ==> final(fs).dev.durable() == final(fs).dev.contents(),
{
    fs.replay_journal_if_dirty()
}

/// The journal superblock fields most relevant to replay decisions.
#[derive(Debug, Clone, Copy)]
pub struct ReplaySummary {
    pub clean: bool,
    pub sequence: u32,
    pub start: u32,
    pub max_len: u32,
    pub has_revoke: bool,
    pub uses_64bit: bool,
    pub uses_csum_v2_or_v3: bool,
}

/// A journal superblock in brief.
pub open spec fn summary_of(jsb: JournalSuperblock) -> ReplaySummary {
    ReplaySummary {
        clean: jsb.start == 0,
        sequence: jsb.sequence,
        start: jsb.start,
        max_len: jsb.max_len,
        has_revoke: jsb.revokes(),
        uses_64bit: jsb.wide(),
        uses_csum_v2_or_v3: jsb.csum_v2() || jsb.csum_v3(),
    }
}

impl From<&JournalSuperblock> for ReplaySummary {
    fn from(jsb: &JournalSuperblock) -> (r: Self) {
        ReplaySummary {
            clean: jsb.is_clean(),
            sequence: jsb.sequence,
            start: jsb.start,
            max_len: jsb.max_len,
            has_revoke: jsb.has_revoke(),
            uses_64bit: jsb.uses_64bit(),
            uses_csum_v2_or_v3: jsb.uses_csum_v2_or_v3(),
        }
    }
}

impl vstd::std_specs::convert::FromSpecImpl<&JournalSuperblock> for ReplaySummary {
    open spec fn obeys_from_spec() -> bool {
        true
    }

    open spec fn from_spec(jsb: &JournalSuperblock) -> ReplaySummary {
        summary_of(*jsb)
    }
}

} // verus!
