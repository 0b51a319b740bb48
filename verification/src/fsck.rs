//! A read-only audit: are inodes linked as often as they say?
//!
//! The walk starts at the root and counts how many directory entries name each
//! inode. The counts are then held against the links that the inodes record, and
//! what each directory's `..` names against the directory it was reached from.
use crate::allocator::{blocks_for, blocks_for_bytes};
use crate::block_io::BlockDevice;
use crate::dir::{read_record, record_at, record_view, record_views, Record, RecordView};
use crate::dirops::EXT4_ROOT_INODE;
use crate::error::Result;
use crate::extent::{block_for, map_logical};
use crate::fs::{checked_inode, keeps_types, Filesystem};
use crate::inode::{
    block_area_of, flags_of, links_of, mode_is_dir, mode_of, size_of_file, Inode, FL_EXTENTS, FL_INLINE_DATA,
};
use crate::volume::Vol;
use std::collections::{HashMap, HashSet};
use vstd::prelude::*;

verus! {

broadcast use vstd::std_specs::hash::group_hash_axioms;

/// One problem found by an audit.
#[derive(Debug, Clone, Copy, PartialEq, Eq)]
pub enum Anomaly {
    /// More entries name the inode than its `i_links_count` says.
    LinkCountTooLow { ino: u32, stored: u16, observed: u32 },
    /// Fewer entries name the inode than its `i_links_count` says.
    LinkCountTooHigh { ino: u32, stored: u16, observed: u32 },
    /// An entry names an inode without links, or one that cannot be read.
    DanglingEntry { parent_ino: u32, child_ino: u32 },
    /// A directory's `..` entry does not name its parent.
    WrongDotDot { dir_ino: u32, claims: u32, actual_parent: u32 },
    /// An entry calls an inode a directory that is none.
    BogusEntry { parent_ino: u32 },
}

/// What an audit found. No anomalies means that everything checked held.
#[derive(Debug)]
pub struct AuditReport {
    /// Every problem found, where the audit collects them.
    pub anomalies: Vec<Anomaly>,
    /// Distinct inodes that directory entries name.
    pub inodes_visited: u32,
    /// Directory entries scanned.
    pub entries_scanned: u64,
    /// Directories scanned.
    pub directories_scanned: u32,
    /// Problems found, collected or not.
    pub anomalies_count: u64,
}

impl AuditReport {
    pub fn is_clean(&self) -> (r: bool)
        ensures
            r == (self.anomalies_count == 0),
    {
        self.anomalies_count == 0
    }
}

/// What an audit is at.
#[derive(Debug, Clone, Copy, PartialEq, Eq, Structural)]
pub enum FsckPhase {
    Superblock,
    Journal,
    Directory,
    Inodes,
    Finalize,
}

impl FsckPhase {
    /// The phase's label.
    pub open spec fn label(self) -> &'static str {
        match self {
            FsckPhase::Superblock => "superblock",
            FsckPhase::Journal => "journal",
            FsckPhase::Directory => "directory",
            FsckPhase::Inodes => "inodes",
            FsckPhase::Finalize => "finalize",
        }
    }

    /// Short ASCII label.
    pub fn name(self) -> (r: &'static str)
        ensures
            r == self.label(),
    {
        match self {
            FsckPhase::Superblock => "superblock",
            FsckPhase::Journal => "journal",
            FsckPhase::Directory => "directory",
            FsckPhase::Inodes => "inodes",
            FsckPhase::Finalize => "finalize",
        }
    }

    /// The phase's number, which callers elsewhere rely on.
    pub fn code(self) -> (r: u32)
        ensures
            r == (match self {
                FsckPhase::Superblock => 0u32,
                FsckPhase::Journal => 1u32,
                FsckPhase::Directory => 2u32,
                FsckPhase::Inodes => 3u32,
                FsckPhase::Finalize => 4u32,
            }),
    {
        match self {
            FsckPhase::Superblock => 0,
            FsckPhase::Journal => 1,
            FsckPhase::Directory => 2,
            FsckPhase::Inodes => 3,
            FsckPhase::Finalize => 4,
        }
    }
}

// -- what an audit tells ----------------------------------------------------

/// Something that an audit tells while it goes.
pub enum AuditEvent {
    Progress { phase: FsckPhase, done: u64, total: u64 },
    Finding(Anomaly),
}

/// Where an audit tells what it does and finds.
pub trait AuditSink {
    /// What it tells things to.
    type Ear;

    /// What it tells things to; always the same.
    spec fn ear(&self) -> Self::Ear;

    /// Everything told so far.
    spec fn log(&self) -> Seq<AuditEvent>;

    /// Whether it can be told more.
    spec fn open(&self) -> bool;

    fn progress(&mut self, phase: FsckPhase, done: u64, total: u64)
        requires
            old(self).open(),
        ensures
            final(self).open(),
            final(self).ear() == old(self).ear(),
            final(self).log() == old(self).log().push(AuditEvent::Progress { phase, done, total }),
    ;

    fn finding(&mut self, a: &Anomaly)
        requires
            old(self).open(),
        ensures
            final(self).open(),
            final(self).ear() == old(self).ear(),
            final(self).log() == old(self).log().push(AuditEvent::Finding(*a)),
    ;
}

/// The findings among some events.
pub open spec fn findings_in(log: Seq<AuditEvent>) -> Seq<Anomaly>
    decreases log.len(),
{
    if log.len() == 0 {
        Seq::empty()
    } else {
        let before = findings_in(log.drop_last());
        match log.last() {
            AuditEvent::Finding(a) => before.push(a),
            _ => before,
        }
    }
}

/// Keeps the findings.
struct Collector {
    found: Vec<Anomaly>,
    told: Ghost<Seq<AuditEvent>>,
}

impl AuditSink for Collector {
    type Ear = ();

    closed spec fn ear(&self) -> () {
        ()
    }

    closed spec fn log(&self) -> Seq<AuditEvent> {
        self.told@
    }

    closed spec fn open(&self) -> bool {
        self.found@ == findings_in(self.told@)
    }

    fn progress(&mut self, phase: FsckPhase, done: u64, total: u64) {
        let ghost e = AuditEvent::Progress { phase, done, total };
        assert(self.told@.push(e).drop_last() =~= self.told@);
        self.told = Ghost(self.told@.push(e));
    }

    fn finding(&mut self, a: &Anomaly) {
        let ghost e = AuditEvent::Finding(*a);
        self.found.push(*a);
        assert(self.told@.push(e).drop_last() =~= self.told@);
        self.told = Ghost(self.told@.push(e));
    }
}

/// Passes everything on to two functions.
struct Relay<P: Fn(FsckPhase, u64, u64), F: Fn(&Anomaly)> {
    on_progress: P,
    on_finding: F,
    told: Ghost<Seq<AuditEvent>>,
}

impl<P: Fn(FsckPhase, u64, u64), F: Fn(&Anomaly)> AuditSink for Relay<P, F> {
    type Ear = (P, F);

    closed spec fn ear(&self) -> (P, F) {
        (self.on_progress, self.on_finding)
    }

    closed spec fn log(&self) -> Seq<AuditEvent> {
        self.told@
    }

    closed spec fn open(&self) -> bool {
        takes_all(self.on_progress, self.on_finding) && passed_on(self.told@, self.on_progress, self.on_finding)
    }

    fn progress(&mut self, phase: FsckPhase, done: u64, total: u64) {
        (self.on_progress)(phase, done, total);
        self.told = Ghost(self.told@.push(AuditEvent::Progress { phase, done, total }));
    }

    fn finding(&mut self, a: &Anomaly) {
        (self.on_finding)(a);
        self.told = Ghost(self.told@.push(AuditEvent::Finding(*a)));
    }
}

/// The two functions were called with everything in a log.
pub open spec fn passed_on<P: Fn(FsckPhase, u64, u64), F: Fn(&Anomaly)>(
    log: Seq<AuditEvent>,
    on_progress: P,
    on_finding: F,
) -> bool {
    forall|i: int|
        0 <= i < log.len() ==> match #[trigger] log[i] {
            AuditEvent::Progress { phase, done, total } => on_progress.ensures((phase, done, total), ()),
            AuditEvent::Finding(a) => on_finding.ensures((&a,), ()),
        }
}

/// The two functions can be called with anything.
pub open spec fn takes_all<P: Fn(FsckPhase, u64, u64), F: Fn(&Anomaly)>(on_progress: P, on_finding: F) -> bool {
    (forall|p: FsckPhase, d: u64, t: u64| #[trigger] on_progress.requires((p, d, t))) && (forall|a: &Anomaly|
        #[trigger]
        on_finding.requires((a,)))
}

// -- the entries of a directory ---------------------------------------------

/// The live records of a block before the first that cannot be read, and
/// whether there is such a one.
pub open spec fn readable_from(block: Seq<u8>, at: int, has_ft: bool) -> (Seq<RecordView>, bool)
    decreases block.len() - at,
{
    if at >= block.len() {
        (Seq::empty(), false)
    } else {
        match record_at(block, at, block.len() as int, has_ft) {
            Err(_) => (Seq::empty(), true),
            Ok(rec) => {
                let (rest, bad) = readable_from(block, at + rec.rec_len, has_ft);
                if rec.inode != 0 {
                    (seq![rec] + rest, bad)
                } else {
                    (rest, bad)
                }
            },
        }
    }
}

/// The entries in the first `n` blocks of a directory; `None` where they
/// cannot all be made out. The first block may be an index, and what it lists
/// then ends where the index starts.
pub open spec fn entries_in(v: Vol, raw: Seq<u8>, n: nat) -> Option<Seq<RecordView>>
    decreases n,
{
    if n == 0 {
        Some(Seq::empty())
    } else {
        match entries_in(v, raw, (n - 1) as nat) {
            None => None,
            Some(before) => match block_for(v.img, v.bs(), block_area_of(raw), n - 1) {
                Err(_) => None,
                Ok(None) => Some(before),
                Ok(Some(p)) => match v.block(p as int) {
                    Err(_) => None,
                    Ok(b) => {
                        let (here, bad) = readable_from(b, 0, keeps_types(v));
                        if bad && n > 1 {
                            None
                        } else {
                            Some(before + here)
                        }
                    },
                },
            },
        }
    }
}

/// The entries of a directory; `None` where they cannot all be made out.
pub open spec fn dir_entries(v: Vol, raw: Seq<u8>) -> Option<Seq<RecordView>> {
    if flags_of(raw) & FL_INLINE_DATA != 0 || flags_of(raw) & FL_EXTENTS == 0 {
        None
    } else {
        entries_in(v, raw, blocks_for(size_of_file(raw) as int, v.bs()) as nat)
    }
}

// -- the walk ---------------------------------------------------------------

/// A walk in progress.
#[verifier::ext_equal]
pub struct Walk {
    /// Directories to look at, the last first, each with the one it is in.
    pub work: Seq<(u32, u32)>,
    pub visited: Set<u32>,
    pub dirs: int,
    pub entries: int,
    /// The inodes named, in the order in which they were first named.
    pub order: Seq<u32>,
    /// How often each was named.
    pub counts: Map<u32, u32>,
    /// What the `..` of the directory that is being looked at names.
    pub claim: Option<u32>,
    /// The directories whose `..` does not name the one they were reached from.
    pub wrong: Seq<Anomaly>,
    /// Whether some directory was not looked at in full.
    pub incomplete: bool,
    pub findings: int,
    pub log: Seq<AuditEvent>,
}

/// One more entry that names an inode.
pub open spec fn named_once_more(w: Walk, ino: u32) -> Walk {
    if w.counts.contains_key(ino) {
        Walk {
            counts: w.counts.insert(
                ino,
                if w.counts[ino] == u32::MAX {
                    u32::MAX
                } else {
                    (w.counts[ino] + 1) as u32
                },
            ),
            ..w
        }
    } else {
        Walk { order: w.order.push(ino), counts: w.counts.insert(ino, 1), ..w }
    }
}

pub open spec fn is_dot(name: Seq<u8>) -> bool {
    name == seq![0x2Eu8]
}

pub open spec fn is_dotdot(name: Seq<u8>) -> bool {
    name == seq![0x2Eu8, 0x2Eu8]
}

/// The walk past one entry of directory `dir`.
pub open spec fn past_entry(w: Walk, dir: u32, e: RecordView) -> Walk {
    let w1 = Walk { entries: w.entries + 1, ..w };
    if is_dot(e.name) {
        named_once_more(w1, dir)
    } else if is_dotdot(e.name) {
        named_once_more(Walk { claim: Some(e.inode), ..w1 }, e.inode)
    } else {
        let w2 = named_once_more(w1, e.inode);
        if e.file_type == 2 {
            Walk { work: w2.work.push((e.inode, dir)), ..w2 }
        } else {
            w2
        }
    }
}

/// The walk past the first `n` entries of directory `dir`.
pub open spec fn past_entries(w: Walk, dir: u32, entries: Seq<RecordView>, n: nat) -> Walk
    decreases n,
{
    if n == 0 {
        w
    } else {
        past_entry(past_entries(w, dir, entries, (n - 1) as nat), dir, entries[n - 1])
    }
}

/// The walk with one more thing told.
pub open spec fn told(w: Walk, e: AuditEvent) -> Walk {
    Walk {
        log: w.log.push(e),
        findings: match e {
            AuditEvent::Finding(_) => w.findings + 1,
            _ => w.findings,
        },
        ..w
    }
}

/// The walk with its progress told.
pub open spec fn dir_told(w: Walk) -> Walk {
    told(
        w,
        AuditEvent::Progress {
            phase: FsckPhase::Directory,
            done: w.dirs as u64,
            total: (w.dirs + w.work.len()) as u64,
        },
    )
}

/// What is wrong with the `..` of directory `dir`, reached from `parent`, if
/// anything.
pub open spec fn parent_fault(claim: Option<u32>, dir: u32, parent: u32) -> Option<Anomaly> {
    match claim {
        Some(c) => if c != parent {
            Some(Anomaly::WrongDotDot { dir_ino: dir, claims: c, actual_parent: parent })
        } else {
            None
        },
        None => None,
    }
}

/// The walk with what a directory's `..` names held against where the
/// directory was reached from.
pub open spec fn parent_checked(w: Walk, dir: u32, parent: u32) -> Walk {
    match parent_fault(w.claim, dir, parent) {
        Some(a) => Walk { wrong: w.wrong.push(a), ..w },
        None => w,
    }
}

/// The walk past a directory that it has not been to.
pub open spec fn past_dir(v: Vol, max_entries: int, w: Walk, dir: u32, parent: u32) -> Walk {
    let w1 = Walk { visited: w.visited.insert(dir), dirs: w.dirs + 1, claim: None, ..w };
    let unseen = Walk { incomplete: true, ..w1 };
    match checked_inode(v, dir) {
        Err(_) => dir_told(unseen),
        Ok(raw) => if !mode_is_dir(mode_of(raw)) {
            dir_told(told(w1, AuditEvent::Finding(Anomaly::BogusEntry { parent_ino: parent })))
        } else {
            match dir_entries(v, raw) {
                None => dir_told(unseen),
                Some(entries) => if entries.len() > max_entries {
                    dir_told(
                        parent_checked(
                            Walk {
                                incomplete: true,
                                ..past_entries(w1, dir, entries, max_entries as nat)
                            },
                            dir,
                            parent,
                        ),
                    )
                } else {
                    dir_told(parent_checked(past_entries(w1, dir, entries, entries.len()), dir, parent))
                },
            }
        },
    }
}

/// The walk to its end, with `left` more directories to look at.
pub open spec fn walked_out(v: Vol, max_entries: int, left: nat, w: Walk) -> Walk
    decreases left, w.work.len(),
{
    if w.work.len() == 0 {
        w
    } else {
        let (dir, parent) = w.work.last();
        let rest = Walk { work: w.work.drop_last(), ..w };
        if left == 0 {
            Walk { incomplete: true, ..rest }
        } else if w.visited.contains(dir) {
            walked_out(v, max_entries, left, rest)
        } else {
            walked_out(v, max_entries, (left - 1) as nat, past_dir(v, max_entries, rest, dir, parent))
        }
    }
}

// -- the comparison ---------------------------------------------------------

/// What is wrong with an inode that was named `count` times, if anything. One
/// named too seldom is not wrong where some directory was not looked at.
pub open spec fn link_fault(v: Vol, ino: u32, count: u32, incomplete: bool) -> Option<Anomaly> {
    match checked_inode(v, ino) {
        Err(_) => Some(Anomaly::DanglingEntry { parent_ino: 0, child_ino: ino }),
        Ok(raw) => {
            let stored = links_of(raw);
            if stored == 0 {
                Some(Anomaly::DanglingEntry { parent_ino: 0, child_ino: ino })
            } else if stored < count {
                Some(Anomaly::LinkCountTooLow { ino, stored, observed: count })
            } else if stored > count && !incomplete {
                Some(Anomaly::LinkCountTooHigh { ino, stored, observed: count })
            } else {
                None
            }
        },
    }
}

/// The walk with a fault told, if there is one.
pub open spec fn fault_told(w: Walk, fault: Option<Anomaly>) -> Walk {
    match fault {
        Some(a) => told(w, AuditEvent::Finding(a)),
        None => w,
    }
}

/// The walk with the first `n` inodes held against their links.
pub open spec fn compared(v: Vol, w: Walk, n: nat) -> Walk
    decreases n,
{
    if n == 0 {
        w
    } else {
        let before = compared(v, w, (n - 1) as nat);
        let ino = w.order[n - 1];
        fault_told(before, link_fault(v, ino, w.counts[ino], w.incomplete))
    }
}

/// The walk with the first `n` of its wrong parents told.
pub open spec fn parents_told(w: Walk, wrong: Seq<Anomaly>, n: nat) -> Walk
    decreases n,
{
    if n == 0 {
        w
    } else {
        told(parents_told(w, wrong, (n - 1) as nat), AuditEvent::Finding(wrong[n - 1]))
    }
}

pub open spec fn phase_event(phase: FsckPhase, done: u64) -> AuditEvent {
    AuditEvent::Progress { phase, done, total: 1 }
}

/// A walk before its first step.
pub open spec fn walk_start(log: Seq<AuditEvent>) -> Walk {
    Walk {
        work: seq![(EXT4_ROOT_INODE, EXT4_ROOT_INODE)],
        visited: Set::empty(),
        dirs: 0,
        entries: 0,
        order: Seq::empty(),
        counts: Map::empty(),
        claim: None,
        wrong: Seq::empty(),
        incomplete: false,
        findings: 0,
        log: log.push(
            AuditEvent::Progress { phase: FsckPhase::Directory, done: 0, total: 1 },
        ),
    }
}

/// The end of an audit, behind the walk.
pub open spec fn concluded(v: Vol, w: Walk) -> Walk {
    let w1 = told(w, phase_event(FsckPhase::Inodes, 0));
    let w2 = parents_told(compared(v, w1, w1.order.len()), w1.wrong, w1.wrong.len());
    told(
        told(told(w2, phase_event(FsckPhase::Inodes, 1)), phase_event(FsckPhase::Finalize, 0)),
        phase_event(FsckPhase::Finalize, 1),
    )
}

/// A whole audit, told behind what has been told before.
pub open spec fn audited(v: Vol, max_dirs: u32, max_entries: u32, log: Seq<AuditEvent>) -> Walk {
    concluded(v, walked_out(v, max_entries as int, max_dirs as nat, walk_start(log)))
}

/// Telling adds to what was told.
proof fn lemma_parents_told(w: Walk, wrong: Seq<Anomaly>, n: nat)
    requires
        n <= wrong.len(),
    ensures
        forall|i: int|
            0 <= i < n ==> parents_told(w, wrong, n).log.contains(AuditEvent::Finding(#[trigger] wrong[i])),
    decreases n,
{
    if n > 0 {
        lemma_parents_told(w, wrong, (n - 1) as nat);
        let before = parents_told(w, wrong, (n - 1) as nat).log;
        let e = AuditEvent::Finding(wrong[n - 1]);
        assert(parents_told(w, wrong, n).log == before.push(e));
        assert forall|i: int| 0 <= i < n implies parents_told(w, wrong, n).log.contains(
            AuditEvent::Finding(#[trigger] wrong[i]),
        ) by {
            lemma_told_still(before, e, AuditEvent::Finding(wrong[i]));
        }
    }
}

/// What was told stays told, and what is told last is told.
proof fn lemma_told_still(log: Seq<AuditEvent>, e: AuditEvent, f: AuditEvent)
    ensures
        log.push(e).contains(e),
        log.contains(f) ==> log.push(e).contains(f),
{
    assert(log.push(e)[log.len() as int] == e);
    if log.contains(f) {
        let j = choose|j: int| 0 <= j < log.len() && log[j] == f;
        assert(log.push(e)[j] == f);
    }
}

/// An audit tells of every directory that the walk reached and whose `..`
/// names another than the directory it was reached from.
pub proof fn law_every_wrong_parent_is_told(v: Vol, max_dirs: u32, max_entries: u32, log: Seq<AuditEvent>, i: int)
    requires
        0 <= i < walked_out(v, max_entries as int, max_dirs as nat, walk_start(log)).wrong.len(),
    ensures
        audited(v, max_dirs, max_entries, log).log.contains(
            AuditEvent::Finding(walked_out(v, max_entries as int, max_dirs as nat, walk_start(log)).wrong[i]),
        ),
{
    let w = walked_out(v, max_entries as int, max_dirs as nat, walk_start(log));
    let f = AuditEvent::Finding(w.wrong[i]);
    let w1 = told(w, phase_event(FsckPhase::Inodes, 0));
    let w2 = parents_told(compared(v, w1, w1.order.len()), w1.wrong, w1.wrong.len());
    lemma_parents_told(compared(v, w1, w1.order.len()), w1.wrong, w1.wrong.len());
    assert(w1.wrong[i] == w.wrong[i]);
    assert(w2.log.contains(f));
    let w3 = told(w2, phase_event(FsckPhase::Inodes, 1));
    lemma_told_still(w2.log, phase_event(FsckPhase::Inodes, 1), f);
    let w4 = told(w3, phase_event(FsckPhase::Finalize, 0));
    lemma_told_still(w3.log, phase_event(FsckPhase::Finalize, 0), f);
    lemma_told_still(w4.log, phase_event(FsckPhase::Finalize, 1), f);
}

/// A report holds the counts of an audit.
pub open spec fn counts_agree(r: AuditReport, w: Walk) -> bool {
    &&& r.directories_scanned == w.dirs
    &&& r.entries_scanned == w.entries
    &&& r.inodes_visited == w.order.len() % 0x1_0000_0000
    &&& r.anomalies_count == w.findings
}

// -- carrying it out --------------------------------------------------------

fn read_entries(block: &[u8], has_ft: bool) -> (r: (Vec<Record>, bool))
    ensures
        (record_views(r.0@), r.1) == readable_from(block@, 0, has_ft),
{
    let mut out: Vec<Record> = Vec::new();
    let mut at: usize = 0;
    proof {
        let (rest, bad) = readable_from(block@, 0, has_ft);
        assert(record_views(out@) + rest =~= rest);
    }
    while at < block.len()
        invariant
            at <= block@.len(),
            readable_from(block@, 0, has_ft) == (
                record_views(out@) + readable_from(block@, at as int, has_ft).0,
                readable_from(block@, at as int, has_ft).1,
            ),
        decreases block@.len() - at,
    {
        match read_record(block, at, block.len(), has_ft) {
            Err(_) => {
                assert(record_views(out@) + Seq::<RecordView>::empty() =~= record_views(out@));
                return (out, true);
            },
            Ok(rec) => {
                let ghost before = record_views(out@);
                let ghost view = record_view(rec);
                let next: usize = at + rec.rec_len;
                let ghost rest = readable_from(block@, next as int, has_ft).0;
                if rec.inode != 0 {
                    out.push(rec);
                    proof {
                        assert(record_views(out@) =~= before.push(view));
                        assert(before + (seq![view] + rest) =~= before.push(view) + rest);
                    }
                }
                at = next;
            },
        }
    }
    assert(record_views(out@) + Seq::<RecordView>::empty() =~= record_views(out@));
    (out, false)
}

proof fn lemma_entries_none(v: Vol, raw: Seq<u8>, i: nat, n: nat)
    requires
        i <= n,
        entries_in(v, raw, i) is None,
    ensures
        entries_in(v, raw, n) is None,
    decreases n,
{
    if i < n {
        lemma_entries_none(v, raw, i, (n - 1) as nat);
    }
}

fn collect_dir_entries<D: BlockDevice>(fs: &Filesystem<D>, inode: &Inode, Ghost(raw): Ghost<Seq<u8>>) -> (r: Option<
    Vec<Record>,
>)
    requires
        fs.wf(),
        inode.decodes(raw),
    ensures
        fs.dev.healthy() ==> (match r {
            Some(es) => dir_entries(fs@, raw) == Some(record_views(es@)),
            None => dir_entries(fs@, raw) is None,
        }),
{
    if inode.has_inline_data() || !inode.has_extents() {
        return None;
    }
    let bs: u32 = fs.sb.block_size();
    let n: u64 = blocks_for_bytes(inode.size, bs as u64);
    let has_ft: bool = fs.has_file_types();
    let mut out: Vec<Record> = Vec::new();
    let mut l: u64 = 0;
    assert(record_views(out@) =~= Seq::<RecordView>::empty());
    while l < n
        invariant
            l <= n,
            n == blocks_for(size_of_file(raw) as int, fs@.bs()),
            fs.wf(),
            inode.decodes(raw),
            bs == fs@.bs(),
            has_ft == keeps_types(fs@),
            flags_of(raw) & FL_INLINE_DATA == 0,
            flags_of(raw) & FL_EXTENTS != 0,
            fs.dev.healthy() ==> entries_in(fs@, raw, l as nat) == Some(record_views(out@)),
        decreases n - l,
    {
        let mapped = match map_logical(&inode.block, &fs.dev, bs, l) {
            Ok(p) => p,
            Err(_) => {
                proof {
                    if fs.dev.healthy() {
                        lemma_entries_none(fs@, raw, (l + 1) as nat, n as nat);
                    }
                }
                return None;
            },
        };
        if let Some(p) = mapped {
            let b: Vec<u8> = match fs.read_block(p) {
                Ok(b) => b,
                Err(_) => {
                    proof {
                        if fs.dev.healthy() {
                            lemma_entries_none(fs@, raw, (l + 1) as nat, n as nat);
                        }
                    }
                    return None;
                },
            };
            let (here, bad): (Vec<Record>, bool) = read_entries(&b, has_ft);
            if bad && l > 0 {
                proof {
                    if fs.dev.healthy() {
                        lemma_entries_none(fs@, raw, (l + 1) as nat, n as nat);
                    }
                }
                return None;
            }
            let mut here: Vec<Record> = here;
            let ghost joined = record_views(out@) + record_views(here@);
            out.append(&mut here);
            assert(record_views(out@) =~= joined);
        }
        l += 1;
    }
    Some(out)
}

/// A walk in progress.
struct WalkState {
    work: Vec<(u32, u32)>,
    visited: HashSet<u32>,
    dirs: u32,
    entries: u64,
    order: Vec<u32>,
    counts: HashMap<u32, u32>,
    claim: Option<u32>,
    wrong: Vec<Anomaly>,
    incomplete: bool,
    findings: u64,
}

impl WalkState {
    spec fn walk(&self, log: Seq<AuditEvent>) -> Walk {
        Walk {
            work: self.work@,
            visited: self.visited@,
            dirs: self.dirs as int,
            entries: self.entries as int,
            order: self.order@,
            counts: self.counts@,
            claim: self.claim,
            wrong: self.wrong@,
            incomplete: self.incomplete,
            findings: self.findings as int,
            log,
        }
    }

    /// No count can overflow, and every inode in order has one.
    spec fn inv(&self) -> bool {
        &&& self.order@.len() <= self.entries
        &&& self.work@.len() <= self.entries + 1
        &&& self.entries <= self.dirs * 0xFFFF_FFFF
        &&& self.findings <= self.dirs
        &&& self.wrong@.len() <= self.dirs
        &&& forall|i: int| 0 <= i < self.order@.len() ==> self.counts@.contains_key(#[trigger] self.order@[i])
    }

    fn name_once_more(&mut self, ino: u32, Ghost(log): Ghost<Seq<AuditEvent>>)
        requires
            forall|i: int|
                0 <= i < old(self).order@.len() ==> old(self).counts@.contains_key(
                    #[trigger] old(self).order@[i],
                ),
        ensures
            final(self).walk(log) == named_once_more(old(self).walk(log), ino),
            final(self).order@.len() <= old(self).order@.len() + 1,
            final(self).work@ == old(self).work@,
            final(self).wrong@ == old(self).wrong@,
            forall|i: int|
                0 <= i < final(self).order@.len() ==> final(self).counts@.contains_key(
                    #[trigger] final(self).order@[i],
                ),
    {
        let had: Option<u32> = match self.counts.get(&ino) {
            Some(n) => Some(*n),
            None => None,
        };
        match had {
            Some(n) => {
                let more: u32 = if n == u32::MAX {
                    n
                } else {
                    n + 1
                };
                let _was = self.counts.insert(ino, more);
            },
            None => {
                self.order.push(ino);
                let _was = self.counts.insert(ino, 1);
            },
        }
        assert(self.walk(log) =~= named_once_more(old(self).walk(log), ino));
    }

    fn pass_entry(&mut self, dir: u32, e: &Record, Ghost(log): Ghost<Seq<AuditEvent>>)
        requires
            old(self).entries < u64::MAX,
            old(self).order@.len() <= old(self).entries,
            old(self).work@.len() <= old(self).entries + 1,
            forall|i: int|
                0 <= i < old(self).order@.len() ==> old(self).counts@.contains_key(
                    #[trigger] old(self).order@[i],
                ),
        ensures
            final(self).walk(log) == past_entry(old(self).walk(log), dir, record_view(*e)),
            final(self).entries == old(self).entries + 1,
            final(self).order@.len() <= final(self).entries,
            final(self).work@.len() <= final(self).entries + 1,
            final(self).dirs == old(self).dirs,
            final(self).findings == old(self).findings,
            final(self).wrong@ == old(self).wrong@,
            forall|i: int|
                0 <= i < final(self).order@.len() ==> final(self).counts@.contains_key(
                    #[trigger] final(self).order@[i],
                ),
    {
        self.entries = self.entries + 1;
        let ghost w1 = self.walk(log);
        assert(w1 =~= (Walk { entries: old(self).entries + 1, ..old(self).walk(log) }));
        let one: Vec<u8> = vec![0x2Eu8];
        assert(one@ =~= seq![0x2Eu8]);
        let two: Vec<u8> = vec![0x2Eu8, 0x2Eu8];
        assert(two@ =~= seq![0x2Eu8, 0x2Eu8]);
        if crate::bytes::same_bytes(&e.name, &one) {
            self.name_once_more(dir, Ghost(log));
        } else if crate::bytes::same_bytes(&e.name, &two) {
            self.claim = Some(e.inode);
            self.name_once_more(e.inode, Ghost(log));
        } else {
            self.name_once_more(e.inode, Ghost(log));
            if e.file_type == 2 {
                self.work.push((e.inode, dir));
            }
        }
        assert(self.walk(log) =~= past_entry(old(self).walk(log), dir, record_view(*e)));
    }

    fn pass_entries(&mut self, dir: u32, entries: &[Record], n: usize, Ghost(log): Ghost<Seq<AuditEvent>>)
        requires
            n <= entries@.len(),
            n <= 0xFFFF_FFFF,
            old(self).entries + n <= u64::MAX,
            old(self).order@.len() <= old(self).entries,
            old(self).work@.len() <= old(self).entries + 1,
            forall|i: int|
                0 <= i < old(self).order@.len() ==> old(self).counts@.contains_key(
                    #[trigger] old(self).order@[i],
                ),
        ensures
            final(self).walk(log) == past_entries(
                old(self).walk(log),
                dir,
                record_views(entries@),
                n as nat,
            ),
            final(self).entries == old(self).entries + n,
            final(self).order@.len() <= final(self).entries,
            final(self).work@.len() <= final(self).entries + 1,
            final(self).dirs == old(self).dirs,
            final(self).findings == old(self).findings,
            final(self).wrong@ == old(self).wrong@,
            forall|i: int|
                0 <= i < final(self).order@.len() ==> final(self).counts@.contains_key(
                    #[trigger] final(self).order@[i],
                ),
    {
        let mut i: usize = 0;
        while i < n
            invariant
                i <= n <= entries@.len(),
                n <= 0xFFFF_FFFF,
                old(self).entries + n <= u64::MAX,
                self.entries == old(self).entries + i,
                self.order@.len() <= self.entries,
                self.work@.len() <= self.entries + 1,
                self.dirs == old(self).dirs,
                self.findings == old(self).findings,
                self.wrong@ == old(self).wrong@,
                forall|i: int|
                    0 <= i < self.order@.len() ==> self.counts@.contains_key(#[trigger] self.order@[i]),
                self.walk(log) == past_entries(old(self).walk(log), dir, record_views(entries@), i as nat),
            decreases n - i,
        {
            self.pass_entry(dir, &entries[i], Ghost(log));
            i += 1;
        }
    }

    fn tell_dir<S: AuditSink>(&self, sink: &mut S)
        requires
            self.inv(),
            old(sink).open(),
        ensures
            final(sink).open(),
            final(sink).ear() == old(sink).ear(),
            self.walk(final(sink).log()) == dir_told(self.walk(old(sink).log())),
    {
        let done: u64 = self.dirs as u64;
        let queued: u64 = self.work.len() as u64;
        assert(self.dirs * 0xFFFF_FFFF <= 0xFFFF_FFFF * 0xFFFF_FFFF);
        let total: u64 = done + queued;
        sink.progress(FsckPhase::Directory, done, total);
        assert(self.walk(sink.log()) =~= dir_told(self.walk(old(sink).log())));
    }

    /// Hold what a directory's `..` names against where it was reached from.
    fn check_parent(&mut self, dir: u32, parent: u32, Ghost(log): Ghost<Seq<AuditEvent>>)
        requires
            old(self).wrong@.len() < old(self).dirs,
        ensures
            final(self).walk(log) == parent_checked(old(self).walk(log), dir, parent),
            final(self).wrong@.len() <= final(self).dirs,
            final(self).order@ == old(self).order@,
            final(self).work@ == old(self).work@,
            final(self).counts@ == old(self).counts@,
            final(self).entries == old(self).entries,
            final(self).dirs == old(self).dirs,
            final(self).findings == old(self).findings,
    {
        if let Some(c) = self.claim {
            if c != parent {
                self.wrong.push(Anomaly::WrongDotDot { dir_ino: dir, claims: c, actual_parent: parent });
            }
        }
        assert(self.walk(log) =~= parent_checked(old(self).walk(log), dir, parent));
    }

    /// Look at a directory that was not looked at before.
    fn pass_dir<D: BlockDevice, S: AuditSink>(
        &mut self,
        fs: &Filesystem<D>,
        max_entries: u32,
        dir: u32,
        parent: u32,
        sink: &mut S,
    )
        requires
            fs.wf(),
            old(self).inv(),
            old(self).dirs < u32::MAX,
            old(sink).open(),
        ensures
            final(self).inv(),
            final(self).dirs == old(self).dirs + 1,
            final(sink).open(),
            final(sink).ear() == old(sink).ear(),
            fs.dev.healthy() ==> final(self).walk(final(sink).log()) == past_dir(
                fs@,
                max_entries as int,
                old(self).walk(old(sink).log()),
                dir,
                parent,
            ),
    {
        let ghost log0 = sink.log();
        let ghost w0 = self.walk(log0);
        let _new = self.visited.insert(dir);
        self.dirs = self.dirs + 1;
        self.claim = None;
        let ghost w1 = Walk { visited: w0.visited.insert(dir), dirs: w0.dirs + 1, claim: None, ..w0 };
        assert(self.walk(log0) =~= w1);
        match fs.read_inode_verified(dir) {
            Err(_) => {
                self.incomplete = true;
                assert(self.walk(log0) =~= (Walk { incomplete: true, ..w1 }));
            },
            Ok((inode, raw)) => {
                if !inode.is_dir() {
                    let a = Anomaly::BogusEntry { parent_ino: parent };
                    sink.finding(&a);
                    self.findings = self.findings + 1;
                    assert(self.walk(sink.log()) =~= told(w1, AuditEvent::Finding(a)));
                } else {
                    match collect_dir_entries(fs, &inode, Ghost(raw@)) {
                        None => {
                            self.incomplete = true;
                            assert(self.walk(log0) =~= (Walk { incomplete: true, ..w1 }));
                        },
                        Some(es) => {
                            assert(record_views(es@).len() == es@.len());
                            if es.len() as u64 > max_entries as u64 {
                                self.pass_entries(dir, &es, max_entries as usize, Ghost(log0));
                                let ghost w2 = self.walk(log0);
                                self.incomplete = true;
                                assert(self.walk(log0) =~= (Walk { incomplete: true, ..w2 }));
                            } else {
                                self.pass_entries(dir, &es, es.len(), Ghost(log0));
                            }
                            self.check_parent(dir, parent, Ghost(log0));
                        },
                    }
                }
            },
        }
        self.tell_dir(sink);
    }
}

/// Hold one inode against the links it records.
fn check_links<D: BlockDevice>(fs: &Filesystem<D>, ino: u32, count: u32, incomplete: bool) -> (r: Option<Anomaly>)
    requires
        fs.wf(),
    ensures
        fs.dev.healthy() ==> r == link_fault(fs@, ino, count, incomplete),
{
    match fs.read_inode_verified(ino) {
        Err(_) => Some(Anomaly::DanglingEntry { parent_ino: 0, child_ino: ino }),
        Ok((inode, _raw)) => {
            let stored: u16 = inode.links_count;
            if stored == 0 {
                Some(Anomaly::DanglingEntry { parent_ino: 0, child_ino: ino })
            } else if (stored as u32) < count {
                Some(Anomaly::LinkCountTooLow { ino, stored, observed: count })
            } else if (stored as u32) > count && !incomplete {
                Some(Anomaly::LinkCountTooHigh { ino, stored, observed: count })
            } else {
                None
            }
        },
    }
}

/// An audit, told to `sink` as it goes. The report's own list of findings stays
/// empty.
pub fn audit_inner<D: BlockDevice, S: AuditSink>(
    fs: &Filesystem<D>,
    max_dirs_visited: u32,
    max_entries_per_dir: u32,
    sink: &mut S,
) -> (r: AuditReport)
    requires
        fs.wf(),
        old(sink).open(),
    ensures
        final(sink).open(),
        final(sink).ear() == old(sink).ear(),
        r.anomalies@.len() == 0,
        fs.dev.healthy() ==> ({
            let w = audited(fs@, max_dirs_visited, max_entries_per_dir, old(sink).log());
            counts_agree(r, w) && final(sink).log() == w.log
        }),
{
    let ghost log0 = sink.log();
    let mut s = WalkState {
        work: Vec::new(),
        visited: HashSet::new(),
        dirs: 0,
        entries: 0,
        order: Vec::new(),
        counts: HashMap::new(),
        claim: None,
        wrong: Vec::new(),
        incomplete: false,
        findings: 0,
    };
    s.work.push((EXT4_ROOT_INODE, EXT4_ROOT_INODE));
    sink.progress(FsckPhase::Directory, 0, 1);
    assert(s.walk(sink.log()) =~= walk_start(log0));
    let mut stopped: bool = false;
    while s.work.len() > 0 && !stopped
        invariant
            fs.wf(),
            s.inv(),
            sink.open(),
            sink.ear() == old(sink).ear(),
            s.dirs <= max_dirs_visited,
            fs.dev.healthy() ==> walked_out(
                fs@,
                max_entries_per_dir as int,
                max_dirs_visited as nat,
                walk_start(log0),
            ) == (if stopped {
                s.walk(sink.log())
            } else {
                walked_out(
                    fs@,
                    max_entries_per_dir as int,
                    (max_dirs_visited - s.dirs) as nat,
                    s.walk(sink.log()),
                )
            }),
        decreases
                (if stopped {
                    0int
                } else {
                    1
                }),
                max_dirs_visited - s.dirs,
                s.work@.len(),
    {
        let ghost before = s.walk(sink.log());
        match s.work.pop() {
            None => {},
            Some((dir, parent)) => {
                assert(s.walk(sink.log()) =~= (Walk { work: before.work.drop_last(), ..before }));
                if s.dirs >= max_dirs_visited {
                    let ghost rest = s.walk(sink.log());
                    s.incomplete = true;
                    stopped = true;
                    assert(s.walk(sink.log()) =~= (Walk { incomplete: true, ..rest }));
                } else if !s.visited.contains(&dir) {
                    s.pass_dir(fs, max_entries_per_dir, dir, parent, sink);
                }
            },
        }
    }
    let ghost w0 = s.walk(sink.log());
    sink.progress(FsckPhase::Inodes, 0, 1);
    let ghost w1 = s.walk(sink.log());
    assert(w1 =~= told(w0, phase_event(FsckPhase::Inodes, 0)));
    let mut i: usize = 0;
    let n: usize = s.order.len();
    while i < n
        invariant
            fs.wf(),
            sink.open(),
            sink.ear() == old(sink).ear(),
            i <= n,
            n == s.order@.len(),
            n <= s.entries,
            s.entries <= s.dirs * 0xFFFF_FFFF,
            s.findings <= s.dirs + i,
            forall|k: int| 0 <= k < s.order@.len() ==> s.counts@.contains_key(#[trigger] s.order@[k]),
            s.order@ == w1.order,
            s.counts@ == w1.counts,
            s.incomplete == w1.incomplete,
            s.wrong@ == w1.wrong,
            s.wrong@.len() <= s.dirs,
            fs.dev.healthy() ==> s.walk(sink.log()) == compared(fs@, w1, i as nat),
        decreases n - i,
    {
        let ino: u32 = s.order[i];
        assert(s.counts@.contains_key(s.order@[i as int]));
        assert(s.dirs * 0xFFFF_FFFF <= 0xFFFF_FFFF * 0xFFFF_FFFF);
        let count: u32 = match s.counts.get(&ino) {
            Some(c) => *c,
            None => 0,
        };
        let fault: Option<Anomaly> = check_links(fs, ino, count, s.incomplete);
        let ghost before = s.walk(sink.log());
        if let Some(a) = &fault {
            sink.finding(a);
            s.findings = s.findings + 1;
        }
        assert(s.walk(sink.log()) =~= fault_told(before, fault));
        i += 1;
    }
    let ghost w2 = s.walk(sink.log());
    let mut j: usize = 0;
    let wrongs: usize = s.wrong.len();
    assert(s.dirs * 0xFFFF_FFFF <= 0xFFFF_FFFF * 0xFFFF_FFFF);
    while j < wrongs
        invariant
            sink.open(),
            sink.ear() == old(sink).ear(),
            j <= wrongs,
            wrongs == s.wrong@.len(),
            n == s.order@.len(),
            s.wrong@ == w1.wrong,
            wrongs <= s.dirs,
            s.findings <= s.dirs + n + j,
            s.dirs + n + wrongs <= u64::MAX,
            s.walk(sink.log()) == parents_told(w2, w1.wrong, j as nat),
        decreases wrongs - j,
    {
        let ghost before = s.walk(sink.log());
        sink.finding(&s.wrong[j]);
        s.findings = s.findings + 1;
        assert(s.walk(sink.log()) =~= told(before, AuditEvent::Finding(w1.wrong[j as int])));
        j += 1;
    }
    let ghost w3 = s.walk(sink.log());
    sink.progress(FsckPhase::Inodes, 1, 1);
    assert(s.walk(sink.log()) =~= told(w3, phase_event(FsckPhase::Inodes, 1)));
    let ghost w4 = s.walk(sink.log());
    sink.progress(FsckPhase::Finalize, 0, 1);
    assert(s.walk(sink.log()) =~= told(w4, phase_event(FsckPhase::Finalize, 0)));
    let ghost w5 = s.walk(sink.log());
    sink.progress(FsckPhase::Finalize, 1, 1);
    assert(s.walk(sink.log()) =~= told(w5, phase_event(FsckPhase::Finalize, 1)));
    AuditReport {
        anomalies: Vec::new(),
        inodes_visited: (n as u64 % 0x1_0000_0000) as u32,
        entries_scanned: s.entries,
        directories_scanned: s.dirs,
        anomalies_count: s.findings,
    }
}

/// Walk the filesystem from `/`, counting the directory entries that name each
/// inode and comparing with each inode's `i_links_count`. Never looks at more
/// than `max_dirs_visited` directories, nor at more than `max_entries_per_dir`
/// entries of one.
pub fn audit<D: BlockDevice>(fs: &Filesystem<D>, max_dirs_visited: u32, max_entries_per_dir: u32) -> (r: Result<
    AuditReport,
>)
    requires
        fs.wf(),
    ensures
        r is Ok,
        fs.dev.healthy() ==> ({
            let w = audited(fs@, max_dirs_visited, max_entries_per_dir, Seq::empty());
            counts_agree(r->Ok_0, w) && r->Ok_0.anomalies@ == findings_in(w.log)
        }),
{
    let mut sink = Collector { found: Vec::new(), told: Ghost(Seq::empty()) };
    assert(sink.found@ =~= findings_in(sink.told@));
    let mut report: AuditReport = audit_inner(fs, max_dirs_visited, max_entries_per_dir, &mut sink);
    report.anomalies = sink.found;
    Ok(report)
}

/// What an audit tells two functions: all that [`audit_inner`] tells, behind
/// the superblock's own phase.
pub open spec fn told_to_callbacks(v: Vol, max_dirs: u32, max_entries: u32) -> Walk {
    audited(
        v,
        max_dirs,
        max_entries,
        seq![phase_event(FsckPhase::Superblock, 0), phase_event(FsckPhase::Superblock, 1)],
    )
}

/// Same walk as [`audit`], but every step of progress and every finding is
/// passed on as it comes. The report's own list of findings stays empty.
pub fn audit_with_callbacks<D: BlockDevice, P: Fn(FsckPhase, u64, u64), F: Fn(&Anomaly)>(
    fs: &Filesystem<D>,
    max_dirs_visited: u32,
    max_entries_per_dir: u32,
    on_progress: P,
    on_finding: F,
) -> (r: Result<AuditReport>)
    requires
        fs.wf(),
        takes_all(on_progress, on_finding),
    ensures
        r is Ok,
        r->Ok_0.anomalies@.len() == 0,
        fs.dev.healthy() ==> ({
            let w = told_to_callbacks(fs@, max_dirs_visited, max_entries_per_dir);
            counts_agree(r->Ok_0, w) && passed_on(w.log, on_progress, on_finding)
        }),
{
    let mut sink = Relay { on_progress, on_finding, told: Ghost(Seq::empty()) };
    sink.progress(FsckPhase::Superblock, 0, 1);
    sink.progress(FsckPhase::Superblock, 1, 1);
    assert(sink.log() =~= seq![
        phase_event(FsckPhase::Superblock, 0),
        phase_event(FsckPhase::Superblock, 1),
    ]);
    let report = audit_inner(fs, max_dirs_visited, max_entries_per_dir, &mut sink);
    Ok(report)
}

impl<D: BlockDevice> Filesystem<D> {
    /// Run a read-only audit: see [`audit`].
    pub fn audit(&self, max_dirs_visited: u32, max_entries_per_dir: u32) -> (r: Result<AuditReport>)
        requires
            self.wf(),
        ensures
            r is Ok,
            self.dev.healthy() ==> ({
                let w = audited(self@, max_dirs_visited, max_entries_per_dir, Seq::empty());
                counts_agree(r->Ok_0, w) && r->Ok_0.anomalies@ == findings_in(w.log)
            }),
    {
        audit(self, max_dirs_visited, max_entries_per_dir)
    }
}

} // verus!
