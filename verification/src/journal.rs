//! Reading the journal's log: which blocks its committed transactions wrote.
use crate::block_io::BlockDevice;
use crate::bytes::{be16, be32, get_be16, get_be32, join32_spec, join_u32};
use crate::error::{Error, Result};
use crate::features::{has, has_any};
use crate::fs::{file_block, Filesystem};
use crate::inode::Inode;
use crate::jbd2::{JournalSuperblock, JBD2_COMMIT, JBD2_DESCRIPTOR, JBD2_MAGIC_NUMBER, JBD2_REVOKE};
use crate::volume::Vol;
use vstd::prelude::*;

verus! {

/// Tag flag: the block began with the journal's magic, which was blanked out.
pub const TAG_ESCAPED: u32 = 0x1;

/// Tag flag: no identifier follows the tag.
pub const TAG_SAME_UUID: u32 = 0x2;

/// Tag flag: the last tag of its descriptor.
pub const TAG_LAST: u32 = 0x8;

/// One block of a committed transaction.
#[derive(Debug, Clone, Copy, PartialEq, Eq)]
pub struct ReplayEntry {
    pub transaction: u32,
    /// Where the block belongs on the volume.
    pub fs_block: u64,
    /// Where its contents are in the journal.
    pub journal_block: u64,
    pub flags: u32,
}

/// A block whose journaled contents up to a transaction are void.
#[derive(Debug, Clone, Copy, PartialEq, Eq)]
pub struct Revoke {
    pub block: u64,
    pub sequence: u32,
}

/// What a replay has to do.
#[derive(Debug)]
pub struct ReplayPlan {
    pub writes: Vec<ReplayEntry>,
    pub revoked: Vec<Revoke>,
    /// The last transaction that was committed; zero for none.
    pub last_commit: u32,
}

/// A plan as a value.
#[verifier::ext_equal]
pub struct PlanView {
    pub writes: Seq<ReplayEntry>,
    pub revoked: Seq<Revoke>,
    pub last_commit: u32,
}

impl View for ReplayPlan {
    type V = PlanView;

    open spec fn view(&self) -> PlanView {
        PlanView { writes: self.writes@, revoked: self.revoked@, last_commit: self.last_commit }
    }
}

impl Default for ReplayPlan {
    fn default() -> (r: Self)
        ensures
            r@ == no_plan(),
    {
        let r = ReplayPlan { writes: Vec::new(), revoked: Vec::new(), last_commit: 0 };
        assert(r@ =~= no_plan());
        r
    }
}

/// Nothing to replay.
pub open spec fn no_plan() -> PlanView {
    PlanView { writes: Seq::empty(), revoked: Seq::empty(), last_commit: 0 }
}

/// Whether a revocation voids a write: it is of the same block, and not older.
/// Transaction numbers wrap around.
pub open spec fn voids(r: Revoke, w: ReplayEntry) -> bool {
    r.block == w.fs_block && (r.sequence - w.transaction) % 0x1_0000_0000 < 0x8000_0000
}

/// Whether any revocation voids a write.
pub open spec fn voided(revoked: Seq<Revoke>, w: ReplayEntry) -> bool {
    exists|i: int| 0 <= i < revoked.len() && voids(#[trigger] revoked[i], w)
}

/// The writes that no revocation voids.
pub open spec fn unvoided(writes: Seq<ReplayEntry>, revoked: Seq<Revoke>) -> Seq<ReplayEntry>
    decreases writes.len(),
{
    if writes.len() == 0 {
        Seq::empty()
    } else {
        let before = unvoided(writes.drop_last(), revoked);
        if voided(revoked, writes.last()) {
            before
        } else {
            before.push(writes.last())
        }
    }
}

// -- descriptor blocks ------------------------------------------------------

/// A descriptor's entry for one block.
#[derive(Debug, Clone, Copy)]
pub struct Tag {
    pub block: u64,
    pub flags: u32,
}

/// Bytes that one tag takes.
pub open spec fn tag_bytes(jsb: JournalSuperblock) -> int {
    if jsb.csum_v3() {
        16
    } else {
        8 + (if jsb.wide() {
            4int
        } else {
            0
        }) + (if jsb.csum_v2() {
            2int
        } else {
            0
        })
    }
}

/// Bytes at the end of a block that hold its checksum.
pub open spec fn tail_bytes(jsb: JournalSuperblock) -> int {
    if jsb.csum_v2() || jsb.csum_v3() {
        4
    } else {
        0
    }
}

/// The tag at byte `at`.
pub open spec fn tag_at(jsb: JournalSuperblock, b: Seq<u8>, at: int) -> Tag {
    Tag {
        block: join32_spec(
            be32(b, at),
            if jsb.wide() {
                be32(b, at + 8)
            } else {
                0
            },
        ),
        flags: if jsb.csum_v3() {
            be32(b, at + 4)
        } else {
            be16(b, at + 6) as u32
        },
    }
}

/// Bytes from one tag to the next.
pub open spec fn tag_step(jsb: JournalSuperblock, t: Tag) -> int {
    tag_bytes(jsb) + (if has(t.flags, TAG_SAME_UUID) {
        0int
    } else {
        16
    })
}

/// The tags of a descriptor from byte `at` on.
pub open spec fn tags_from(jsb: JournalSuperblock, b: Seq<u8>, at: int) -> Seq<Tag>
    decreases
            (if b.len() > at {
                b.len() - at
            } else {
                0
            }),
{
    if at + tag_bytes(jsb) > b.len() - tail_bytes(jsb) {
        Seq::empty()
    } else {
        let t = tag_at(jsb, b, at);
        if has(t.flags, TAG_LAST) {
            seq![t]
        } else {
            seq![t] + tags_from(jsb, b, at + tag_step(jsb, t))
        }
    }
}

// -- revoke blocks ----------------------------------------------------------

/// Bytes that one revocation takes.
pub open spec fn revoke_bytes(jsb: JournalSuperblock) -> int {
    if jsb.wide() {
        8
    } else {
        4
    }
}

/// The revocations in a revoke block.
pub open spec fn revokes_in(jsb: JournalSuperblock, b: Seq<u8>, sequence: u32) -> Result<Seq<Revoke>> {
    let used = be32(b, 12);
    if used < 16 || used > b.len() - tail_bytes(jsb) {
        Err(Error::Corrupt("journal: revoke block count out of range"))
    } else {
        Ok(
            Seq::new(
                ((used - 16) / revoke_bytes(jsb)) as nat,
                |i: int|
                    Revoke {
                        block: if jsb.wide() {
                            join32_spec(be32(b, 16 + 8 * i + 4), be32(b, 16 + 8 * i))
                        } else {
                            be32(b, 16 + 4 * i) as u64
                        },
                        sequence,
                    },
            ),
        )
    }
}

// -- the log ----------------------------------------------------------------

/// The block of the log `k` blocks behind block `at`; the log is a ring.
pub open spec fn log_next(jsb: JournalSuperblock, at: int, k: int) -> int {
    jsb.first + (at - jsb.first + k) % (jsb.max_len - jsb.first)
}

/// Where the reading of a log has got to.
#[verifier::ext_equal]
pub struct Log {
    pub at: int,
    pub sequence: u32,
    pub pending: Seq<ReplayEntry>,
    pub revokes: Seq<Revoke>,
    pub plan: PlanView,
}

/// Block `l` of the journal.
pub open spec fn log_block(v: Vol, raw: Seq<u8>, l: int) -> Result<Seq<u8>> {
    match file_block(v, raw, l) {
        Err(e) => Err(e),
        Ok(None) => Err(Error::Corrupt("journal: block unmapped")),
        Ok(Some(p)) => v.block(p as int),
    }
}

/// The writes that a descriptor's tags stand for.
pub open spec fn tagged(jsb: JournalSuperblock, l: Log, tags: Seq<Tag>) -> Seq<ReplayEntry> {
    Seq::new(
        tags.len(),
        |i: int|
            ReplayEntry {
                transaction: l.sequence,
                fs_block: tags[i].block,
                journal_block: log_next(jsb, l.at, 1 + i) as u64,
                flags: tags[i].flags,
            },
    )
}

/// The plan with the transaction that was being read committed.
pub open spec fn with_commit(l: Log) -> PlanView {
    PlanView {
        writes: l.plan.writes + l.pending,
        revoked: l.plan.revoked + l.revokes,
        last_commit: l.sequence,
    }
}

/// The log read one block further, descriptors with the blocks they describe;
/// `None` at its end. The log ends where a block is not the next of its
/// transactions.
pub open spec fn log_step(v: Vol, raw: Seq<u8>, jsb: JournalSuperblock, l: Log) -> Result<Option<Log>> {
    match log_block(v, raw, l.at) {
        Err(e) => Err(e),
        Ok(b) => if be32(b, 0) != JBD2_MAGIC_NUMBER || be32(b, 8) != l.sequence {
            Ok(None)
        } else if be32(b, 4) == JBD2_DESCRIPTOR {
            let tags = tags_from(jsb, b, 12);
            Ok(
                Some(
                    Log {
                        at: log_next(jsb, l.at, 1int + tags.len()),
                        pending: l.pending + tagged(jsb, l, tags),
                        ..l
                    },
                ),
            )
        } else if be32(b, 4) == JBD2_COMMIT {
            Ok(
                Some(
                    Log {
                        at: log_next(jsb, l.at, 1),
                        sequence: ((l.sequence + 1) % 0x1_0000_0000) as u32,
                        pending: Seq::empty(),
                        revokes: Seq::empty(),
                        plan: with_commit(l),
                    },
                ),
            )
        } else if be32(b, 4) == JBD2_REVOKE {
            match revokes_in(jsb, b, l.sequence) {
                Err(e) => Err(e),
                Ok(rs) => Ok(
                    Some(Log { at: log_next(jsb, l.at, 1), revokes: l.revokes + rs, ..l }),
                ),
            }
        } else {
            Ok(None)
        },
    }
}

/// The plan once the log has been read to its end.
pub open spec fn log_plan(v: Vol, raw: Seq<u8>, jsb: JournalSuperblock, l: Log, fuel: nat) -> Result<PlanView>
    decreases fuel,
{
    if fuel == 0 {
        Ok(l.plan)
    } else {
        match log_step(v, raw, jsb, l) {
            Err(e) => Err(e),
            Ok(None) => Ok(l.plan),
            Ok(Some(next)) => log_plan(v, raw, jsb, next, (fuel - 1) as nat),
        }
    }
}

/// The log before any of it is read.
pub open spec fn log_start(jsb: JournalSuperblock) -> Log {
    Log {
        at: jsb.start as int,
        sequence: jsb.sequence,
        pending: Seq::empty(),
        revokes: Seq::empty(),
        plan: no_plan(),
    }
}

/// What replaying a journal has to do: the blocks of its committed
/// transactions, without those that were revoked.
pub open spec fn walked(v: Vol, raw: Seq<u8>, jsb: JournalSuperblock) -> Result<PlanView> {
    if jsb.block_size != v.bs() {
        Err(Error::Corrupt("journal: block size is not the volume's"))
    } else if !(jsb.first <= jsb.start && jsb.start < jsb.max_len) {
        Err(Error::Corrupt("journal: log bounds out of range"))
    } else {
        match log_plan(v, raw, jsb, log_start(jsb), (jsb.max_len - jsb.first) as nat) {
            Err(e) => Err(e),
            Ok(p) => Ok(PlanView { writes: unvoided(p.writes, p.revoked), ..p }),
        }
    }
}

impl ReplayPlan {
    /// Drop the writes that a revocation voids.
    pub fn filter_revoked(&mut self)
        ensures
            final(self)@ == (PlanView {
                writes: unvoided(old(self)@.writes, old(self)@.revoked),
                ..old(self)@
            }),
    {
        let mut kept: Vec<ReplayEntry> = Vec::new();
        let mut i: usize = 0;
        assert(self.writes@.take(0) =~= Seq::<ReplayEntry>::empty());
        while i < self.writes.len()
            invariant
                i <= self.writes@.len(),
                self@ == old(self)@,
                kept@ == unvoided(self.writes@.take(i as int), self.revoked@),
            decreases self.writes@.len() - i,
        {
            let w: ReplayEntry = self.writes[i];
            let mut j: usize = 0;
            let mut void: bool = false;
            while j < self.revoked.len() && !void
                invariant
                    j <= self.revoked@.len(),
                    void == exists|k: int| 0 <= k < j && voids(#[trigger] self.revoked@[k], w),
                decreases self.revoked@.len() - j,
            {
                let r: Revoke = self.revoked[j];
                let apart: u64 = (r.sequence as u64 + 0x1_0000_0000 - w.transaction as u64) % 0x1_0000_0000;
                void = r.block == w.fs_block && apart < 0x8000_0000;
                assert(void == voids(self.revoked@[j as int], w));
                j += 1;
            }
            if !void {
                kept.push(w);
            }
            proof {
                assert(void == voided(self.revoked@, w));
                assert(self.writes@.take(i + 1).drop_last() =~= self.writes@.take(i as int));
            }
            i += 1;
        }
        assert(self.writes@.take(i as int) =~= self.writes@);
        self.writes = kept;
    }
}

fn read_tags(jsb: &JournalSuperblock, b: &[u8]) -> (r: Vec<Tag>)
    requires
        b@.len() >= 1024,
        b@.len() <= 65536,
    ensures
        r@ == tags_from(*jsb, b@, 12),
        r@.len() <= 0x2_0000,
{
    let wide: bool = jsb.uses_64bit();
    let v3: bool = jsb.uses_csum_v3();
    let any: bool = jsb.uses_csum_v2_or_v3();
    let size: usize = if v3 {
        16
    } else {
        let w: usize = if wide {
            4
        } else {
            0
        };
        let c: usize = if any {
            2
        } else {
            0
        };
        8 + w + c
    };
    let tail: usize = if any {
        4
    } else {
        0
    };
    let end: usize = b.len() - tail;
    let mut out: Vec<Tag> = Vec::new();
    let mut at: usize = 12;
    let mut more: bool = true;
    assert(out@ + tags_from(*jsb, b@, 12) =~= tags_from(*jsb, b@, 12));
    while more && at + size <= end
        invariant
            wide == jsb.wide(),
            v3 == jsb.csum_v3(),
            any == (jsb.csum_v2() || jsb.csum_v3()),
            size == tag_bytes(*jsb),
            tail == tail_bytes(*jsb),
            end == b@.len() - tail,
            1024 <= b@.len() <= 65536,
            12 <= at <= b@.len() + 64,
            8 <= size <= 16,
            out@.len() <= at,
            more ==> out@.len() < at,
            v3 || wide ==> size >= 12,
            more ==> out@ + tags_from(*jsb, b@, at as int) == tags_from(*jsb, b@, 12),
            !more ==> out@ == tags_from(*jsb, b@, 12),
        decreases
                (if more {
                    1int
                } else {
                    0
                }),
                b@.len() + 64 - at,
    {
        let hi: u32 = if wide {
            get_be32(b, at + 8)
        } else {
            0
        };
        let flags: u32 = if v3 {
            get_be32(b, at + 4)
        } else {
            get_be16(b, at + 6) as u32
        };
        let t = Tag { block: join_u32(get_be32(b, at), hi), flags };
        let ghost before = out@;
        assert(t == tag_at(*jsb, b@, at as int));
        out.push(t);
        proof {
            let rest = tags_from(*jsb, b@, at + tag_step(*jsb, t));
            assert(before + (seq![t] + rest) =~= out@ + rest);
            assert(before + seq![t] =~= out@);
        }
        if has_any(flags, TAG_LAST) {
            more = false;
        } else if has_any(flags, TAG_SAME_UUID) {
            at = at + size;
        } else {
            at = at + size + 16;
        }
    }
    proof {
        if more {
            assert(out@ + Seq::<Tag>::empty() =~= out@);
        }
    }
    out
}

fn read_revokes(jsb: &JournalSuperblock, b: &[u8], sequence: u32) -> (r: Result<Vec<Revoke>>)
    requires
        1024 <= b@.len() <= 65536,
    ensures
        match r {
            Ok(rs) => revokes_in(*jsb, b@, sequence) == Ok::<Seq<Revoke>, Error>(rs@),
            Err(e) => revokes_in(*jsb, b@, sequence) == Err::<Seq<Revoke>, Error>(e),
        },
{
    let used: usize = get_be32(b, 12) as usize;
    let tail: usize = if jsb.uses_csum_v2_or_v3() {
        4
    } else {
        0
    };
    if used < 16 || used > b.len() - tail {
        return Err(Error::Corrupt("journal: revoke block count out of range"));
    }
    let wide: bool = jsb.uses_64bit();
    let size: usize = if wide {
        8
    } else {
        4
    };
    let n: usize = (used - 16) / size;
    let mut out: Vec<Revoke> = Vec::new();
    let ghost all = revokes_in(*jsb, b@, sequence)->Ok_0;
    assert(all.len() == n);
    let mut i: usize = 0;
    assert(all.take(0) =~= out@);
    while i < n
        invariant
            i <= n,
            all == revokes_in(*jsb, b@, sequence)->Ok_0,
            revokes_in(*jsb, b@, sequence) is Ok,
            all.len() == n,
            16 + n * size <= b@.len() <= 65536,
            size == revoke_bytes(*jsb),
            size == 8 || size == 4,
            wide == jsb.wide(),
            out@ == all.take(i as int),
        decreases n - i,
    {
        let block: u64 = if wide {
            join_u32(get_be32(b, 16 + 8 * i + 4), get_be32(b, 16 + 8 * i))
        } else {
            get_be32(b, 16 + 4 * i) as u64
        };
        out.push(Revoke { block, sequence });
        i += 1;
        assert(out@ =~= all.take(i as int));
    }
    assert(all.take(n as int) =~= all);
    Ok(out)
}

impl<D: BlockDevice> Filesystem<D> {
    fn read_log_block(&self, jinode: &Inode, l: u64, Ghost(raw): Ghost<Seq<u8>>) -> (r: Result<Vec<u8>>)
        requires
            self.wf(),
            jinode.decodes(raw),
        ensures
            match r {
                Ok(b) => log_block(self@, raw, l as int) == Ok::<Seq<u8>, Error>(b@) && b@.len() == self@.bs(),
                Err(e) => log_block(self@, raw, l as int) == Err::<Seq<u8>, Error>(e) || (
                !self.dev.healthy() && e == Error::Io),
            },
    {
        match self.map_inode_logical(jinode, l) {
            Err(e) => Err(e),
            Ok(None) => Err(Error::Corrupt("journal: block unmapped")),
            Ok(Some(p)) => self.read_block(p),
        }
    }

    /// Read the log one block further; whether there was one.
    fn step_log(&self, jinode: &Inode, jsb: &JournalSuperblock, c: &mut Cursor, Ghost(raw): Ghost<Seq<u8>>) -> (r: Result<
        bool,
    >)
        requires
            self.wf(),
            jinode.decodes(raw),
            jsb.first < jsb.max_len,
            jsb.first <= old(c).at < jsb.max_len,
        ensures
            jsb.first <= final(c).at < jsb.max_len,
            match r {
                Ok(true) => log_step(self@, raw, *jsb, old(c)@) == Ok::<Option<Log>, Error>(
                    Some(final(c)@),
                ),
                Ok(false) => log_step(self@, raw, *jsb, old(c)@) == Ok::<Option<Log>, Error>(None)
                    && final(c)@ == old(c)@,
                Err(e) => log_step(self@, raw, *jsb, old(c)@) == Err::<Option<Log>, Error>(e) || (
                !self.dev.healthy() && e == Error::Io),
            },
    {
        let ghost l = c@;
        let first: u64 = jsb.first as u64;
        let ring: u64 = (jsb.max_len - jsb.first) as u64;
        let b: Vec<u8> = match self.read_log_block(jinode, c.at, Ghost(raw)) {
            Ok(b) => b,
            Err(e) => {
                return Err(e);
            },
        };
        if get_be32(&b, 0) != JBD2_MAGIC_NUMBER || get_be32(&b, 8) != c.sequence {
            return Ok(false);
        }
        let kind: u32 = get_be32(&b, 4);
        if kind == JBD2_DESCRIPTOR {
            let tags: Vec<Tag> = read_tags(jsb, &b);
            c.enter(jsb, &tags);
            c.at = first + (c.at - first + 1 + tags.len() as u64) % ring;
            Ok(true)
        } else if kind == JBD2_COMMIT {
            c.plan.writes.append(&mut c.pending);
            c.plan.revoked.append(&mut c.revokes);
            c.plan.last_commit = c.sequence;
            c.sequence = ((c.sequence as u64 + 1) % 0x1_0000_0000) as u32;
            c.at = first + (c.at - first + 1) % ring;
            assert(c.plan@ =~= with_commit(l));
            assert(c.pending@ =~= Seq::<ReplayEntry>::empty());
            assert(c.revokes@ =~= Seq::<Revoke>::empty());
            Ok(true)
        } else if kind == JBD2_REVOKE {
            match read_revokes(jsb, &b, c.sequence) {
                Err(e) => Err(e),
                Ok(rs) => {
                    let mut rs: Vec<Revoke> = rs;
                    c.revokes.append(&mut rs);
                    c.at = first + (c.at - first + 1) % ring;
                    Ok(true)
                },
            }
        } else {
            Ok(false)
        }
    }

    /// Walk the journal's log and plan its replay: every block of every
    /// committed transaction, in order, without those revoked later.
    pub(crate) fn walk_journal(&self, jinode: &Inode, jsb: &JournalSuperblock, Ghost(raw): Ghost<Seq<u8>>) -> (r: Result<
        ReplayPlan,
    >)
        requires
            self.wf(),
            jinode.decodes(raw),
        ensures
            match r {
                Ok(p) => walked(self@, raw, *jsb) == Ok::<PlanView, Error>(p@),
                Err(e) => walked(self@, raw, *jsb) == Err::<PlanView, Error>(e) || (!self.dev.healthy() && e
                    == Error::Io),
            },
    {
        if jsb.block_size != self.sb.block_size() {
            return Err(Error::Corrupt("journal: block size is not the volume's"));
        }
        if !(jsb.first <= jsb.start && jsb.start < jsb.max_len) {
            return Err(Error::Corrupt("journal: log bounds out of range"));
        }
        let mut c = Cursor {
            at: jsb.start as u64,
            sequence: jsb.sequence,
            pending: Vec::new(),
            revokes: Vec::new(),
            plan: ReplayPlan::default(),
        };
        let ghost start = log_start(*jsb);
        assert(c@ =~= start);
        let ring: u32 = jsb.max_len - jsb.first;
        let mut fuel: u32 = ring;
        let mut more: bool = true;
        while more && fuel > 0
            invariant
                self.wf(),
                jinode.decodes(raw),
                jsb.first < jsb.max_len,
                jsb.first <= c.at < jsb.max_len,
                more ==> log_plan(self@, raw, *jsb, start, ring as nat) == log_plan(
                    self@,
                    raw,
                    *jsb,
                    c@,
                    fuel as nat,
                ),
                !more ==> log_plan(self@, raw, *jsb, start, ring as nat) == Ok::<PlanView, Error>(c.plan@),
                walked(self@, raw, *jsb) == (match log_plan(self@, raw, *jsb, start, ring as nat) {
                    Err(e) => Err::<PlanView, Error>(e),
                    Ok(p) => Ok(PlanView { writes: unvoided(p.writes, p.revoked), ..p }),
                }),
            decreases fuel,
        {
            more = match self.step_log(jinode, jsb, &mut c, Ghost(raw)) {
                Ok(more) => more,
                Err(e) => {
                    return Err(e);
                },
            };
            fuel = fuel - 1;
        }
        let mut plan: ReplayPlan = c.plan;
        plan.filter_revoked();
        Ok(plan)
    }
}

/// Where the reading of a log has got to.
struct Cursor {
    at: u64,
    sequence: u32,
    pending: Vec<ReplayEntry>,
    revokes: Vec<Revoke>,
    plan: ReplayPlan,
}

impl View for Cursor {
    type V = Log;

    closed spec fn view(&self) -> Log {
        Log {
            at: self.at as int,
            sequence: self.sequence,
            pending: self.pending@,
            revokes: self.revokes@,
            plan: self.plan@,
        }
    }
}

impl Cursor {
    /// Enter the writes that a descriptor's tags stand for.
    fn enter(&mut self, jsb: &JournalSuperblock, tags: &[Tag])
        requires
            jsb.first < jsb.max_len,
            jsb.first <= old(self).at < jsb.max_len,
            tags@.len() <= 0x2_0000,
        ensures
            final(self)@ == (Log {
                pending: old(self)@.pending + tagged(*jsb, old(self)@, tags@),
                ..old(self)@
            }),
    {
        let ghost l = self@;
        let ghost news = tagged(*jsb, l, tags@);
        let first: u64 = jsb.first as u64;
        let ring: u64 = (jsb.max_len - jsb.first) as u64;
        let mut i: usize = 0;
        assert(l.pending + news.take(0) =~= l.pending);
        while i < tags.len()
            invariant
                i <= tags@.len() <= 0x2_0000,
                l == old(self)@,
                news == tagged(*jsb, l, tags@),
                first == jsb.first,
                jsb.first < jsb.max_len,
                ring == jsb.max_len - jsb.first,
                first <= self.at < jsb.max_len,
                self@ == (Log { pending: l.pending + news.take(i as int), ..l }),
            decreases tags@.len() - i,
        {
            let place: u64 = first + (self.at - first + 1 + i as u64) % ring;
            self.pending.push(
                ReplayEntry {
                    transaction: self.sequence,
                    fs_block: tags[i].block,
                    journal_block: place,
                    flags: tags[i].flags,
                },
            );
            i += 1;
            assert(self.pending@ =~= l.pending + news.take(i as int));
        }
        assert(news.take(i as int) =~= news);
    }
}

/// A write that is left in a plan is not voided by any of its revocations, and
/// every write that is not voided is left.
pub proof fn law_revoked_writes_are_dropped(writes: Seq<ReplayEntry>, revoked: Seq<Revoke>, w: ReplayEntry)
    ensures
        unvoided(writes, revoked).contains(w) == (writes.contains(w) && !voided(revoked, w)),
    decreases writes.len(),
{
    if writes.len() > 0 {
        let front = writes.drop_last();
        let last = writes.last();
        law_revoked_writes_are_dropped(front, revoked, w);
        let before = unvoided(front, revoked);
        assert(writes.contains(w) == (front.contains(w) || w == last)) by {
            if writes.contains(w) {
                let i = choose|i: int| 0 <= i < writes.len() && writes[i] == w;
                if i < writes.len() - 1 {
                    assert(front[i] == w);
                }
            }
            if front.contains(w) {
                let i = choose|i: int| 0 <= i < front.len() && front[i] == w;
                assert(writes[i] == w);
            }
            assert(writes[writes.len() - 1] == last);
        }
        let after = before.push(last);
        assert(after.contains(w) == (before.contains(w) || w == last)) by {
            if after.contains(w) {
                let i = choose|i: int| 0 <= i < after.len() && after[i] == w;
                if i < before.len() {
                    assert(before[i] == w);
                }
            }
            if before.contains(w) {
                let i = choose|i: int| 0 <= i < before.len() && before[i] == w;
                assert(after[i] == w);
            }
            assert(after[before.len() as int] == last);
        }
    }
}

} // verus!
