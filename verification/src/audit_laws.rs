//! What an audit tells as it goes, against what it reports at its end.
use crate::fsck::{
    audited, compared, concluded, counts_agree, dir_entries, dir_told, findings_in, link_fault, parent_checked,
    parents_told, past_dir, past_entries, phase_event, told, told_to_callbacks, walk_start, walked_out, Anomaly,
    AuditEvent, AuditReport, FsckPhase, Walk,
};
use crate::dir::RecordView;
use crate::fs::checked_inode;
use crate::inode::{mode_is_dir, mode_of};
use crate::volume::Vol;
use vstd::prelude::*;

verus! {

/// The walk with `pre` told before everything that it told.
pub open spec fn told_behind(pre: Seq<AuditEvent>, w: Walk) -> Walk {
    Walk { log: pre + w.log, ..w }
}

proof fn lemma_told_behind(pre: Seq<AuditEvent>, w: Walk, e: AuditEvent)
    ensures
        told(told_behind(pre, w), e) == told_behind(pre, told(w, e)),
{
    assert((pre + w.log).push(e) =~= pre + w.log.push(e));
}

proof fn lemma_entries_behind(pre: Seq<AuditEvent>, w: Walk, dir: u32, entries: Seq<RecordView>, n: nat)
    ensures
        past_entries(told_behind(pre, w), dir, entries, n) == told_behind(pre, past_entries(w, dir, entries, n)),
        past_entries(w, dir, entries, n).log == w.log,
        past_entries(w, dir, entries, n).dirs == w.dirs,
        past_entries(w, dir, entries, n).findings == w.findings,
    decreases n,
{
    if n > 0 {
        lemma_entries_behind(pre, w, dir, entries, (n - 1) as nat);
    }
}

/// What a walk tells past one directory does not rest on what was told before.
proof fn lemma_dir_behind(pre: Seq<AuditEvent>, v: Vol, max_entries: int, w: Walk, dir: u32, parent: u32)
    ensures
        past_dir(v, max_entries, told_behind(pre, w), dir, parent) == told_behind(
            pre,
            past_dir(v, max_entries, w, dir, parent),
        ),
{
    let w1 = Walk { visited: w.visited.insert(dir), dirs: w.dirs + 1, claim: None, ..w };
    let unseen = Walk { incomplete: true, ..w1 };
    lemma_dir_told_behind(pre, unseen);
    if let Ok(raw) = checked_inode(v, dir) {
        if !mode_is_dir(mode_of(raw)) {
            let e = AuditEvent::Finding(Anomaly::BogusEntry { parent_ino: parent });
            lemma_told_behind(pre, w1, e);
            lemma_dir_told_behind(pre, told(w1, e));
        } else if let Some(entries) = dir_entries(v, raw) {
            let n = if entries.len() > max_entries {
                max_entries as nat
            } else {
                entries.len()
            };
            lemma_entries_behind(pre, w1, dir, entries, n);
            let seen = past_entries(w1, dir, entries, n);
            lemma_dir_told_behind(pre, parent_checked(seen, dir, parent));
            lemma_dir_told_behind(pre, parent_checked(Walk { incomplete: true, ..seen }, dir, parent));
        }
    }
}

proof fn lemma_dir_told_behind(pre: Seq<AuditEvent>, w: Walk)
    ensures
        dir_told(told_behind(pre, w)) == told_behind(pre, dir_told(w)),
{
    lemma_told_behind(
        pre,
        w,
        AuditEvent::Progress {
            phase: FsckPhase::Directory,
            done: w.dirs as u64,
            total: (w.dirs + w.work.len()) as u64,
        },
    );
}

proof fn lemma_walk_behind(pre: Seq<AuditEvent>, v: Vol, max_entries: int, left: nat, w: Walk)
    ensures
        walked_out(v, max_entries, left, told_behind(pre, w)) == told_behind(pre, walked_out(v, max_entries, left, w)),
    decreases left, w.work.len(),
{
    if w.work.len() > 0 {
        let (dir, parent) = w.work.last();
        let rest = Walk { work: w.work.drop_last(), ..w };
        if left > 0 {
            if w.visited.contains(dir) {
                lemma_walk_behind(pre, v, max_entries, left, rest);
            } else {
                lemma_dir_behind(pre, v, max_entries, rest, dir, parent);
                lemma_walk_behind(
                    pre,
                    v,
                    max_entries,
                    (left - 1) as nat,
                    past_dir(v, max_entries, rest, dir, parent),
                );
            }
        }
    }
}

proof fn lemma_compared_behind(pre: Seq<AuditEvent>, v: Vol, w: Walk, n: nat)
    ensures
        compared(v, told_behind(pre, w), n) == told_behind(pre, compared(v, w, n)),
        compared(v, w, n).dirs == w.dirs,
        compared(v, w, n).wrong == w.wrong,
    decreases n,
{
    if n > 0 {
        lemma_compared_behind(pre, v, w, (n - 1) as nat);
        let before = compared(v, w, (n - 1) as nat);
        let ino = w.order[n - 1];
        if let Some(a) = link_fault(v, ino, w.counts[ino], w.incomplete) {
            lemma_told_behind(pre, before, AuditEvent::Finding(a));
        }
    }
}

proof fn lemma_parents_behind(pre: Seq<AuditEvent>, w: Walk, wrong: Seq<Anomaly>, n: nat)
    ensures
        parents_told(told_behind(pre, w), wrong, n) == told_behind(pre, parents_told(w, wrong, n)),
        parents_told(w, wrong, n).dirs == w.dirs,
    decreases n,
{
    if n > 0 {
        lemma_parents_behind(pre, w, wrong, (n - 1) as nat);
        lemma_told_behind(pre, parents_told(w, wrong, (n - 1) as nat), AuditEvent::Finding(wrong[n - 1]));
    }
}

proof fn lemma_concluded_behind(pre: Seq<AuditEvent>, v: Vol, w: Walk)
    ensures
        concluded(v, told_behind(pre, w)) == told_behind(pre, concluded(v, w)),
        concluded(v, w).dirs == w.dirs,
{
    let w1 = told(w, phase_event(FsckPhase::Inodes, 0));
    lemma_told_behind(pre, w, phase_event(FsckPhase::Inodes, 0));
    let w2 = compared(v, w1, w1.order.len());
    lemma_compared_behind(pre, v, w1, w1.order.len());
    let w3 = parents_told(w2, w1.wrong, w1.wrong.len());
    lemma_parents_behind(pre, w2, w1.wrong, w1.wrong.len());
    lemma_told_behind(pre, w3, phase_event(FsckPhase::Inodes, 1));
    let w4 = told(w3, phase_event(FsckPhase::Inodes, 1));
    lemma_told_behind(pre, w4, phase_event(FsckPhase::Finalize, 0));
    lemma_told_behind(pre, told(w4, phase_event(FsckPhase::Finalize, 0)), phase_event(FsckPhase::Finalize, 1));
}

/// An audit does and tells the same whatever was told before it.
proof fn lemma_audited_behind(pre: Seq<AuditEvent>, v: Vol, max_dirs: u32, max_entries: u32)
    ensures
        audited(v, max_dirs, max_entries, pre) == told_behind(pre, audited(v, max_dirs, max_entries, Seq::empty())),
{
    let start = walk_start(Seq::empty());
    let e = AuditEvent::Progress { phase: FsckPhase::Directory, done: 0, total: 1 };
    assert(pre.push(e) =~= pre + Seq::<AuditEvent>::empty().push(e));
    assert(walk_start(pre) == told_behind(pre, start));
    lemma_walk_behind(pre, v, max_entries as int, max_dirs as nat, start);
    lemma_concluded_behind(pre, v, walked_out(v, max_entries as int, max_dirs as nat, start));
}

/// The findings of a log are those of its parts.
proof fn lemma_findings_joined(a: Seq<AuditEvent>, b: Seq<AuditEvent>)
    ensures
        findings_in(a + b) == findings_in(a) + findings_in(b),
    decreases b.len(),
{
    if b.len() == 0 {
        assert(a + b =~= a);
        assert(findings_in(a) + findings_in(b) =~= findings_in(a));
    } else {
        lemma_findings_joined(a, b.drop_last());
        assert((a + b).drop_last() =~= a + b.drop_last());
        assert((a + b).last() == b.last());
        assert(findings_in(a + b) =~= findings_in(a) + findings_in(b));
    }
}

// -- what holds all along a walk --------------------------------------------

/// A walk has counted every finding that it told, has named no journal, and
/// began with its first step.
pub open spec fn in_step(w: Walk) -> bool {
    &&& w.findings == findings_in(w.log).len()
    &&& w.log.len() > 0
    &&& w.log[0] == (AuditEvent::Progress { phase: FsckPhase::Directory, done: 0, total: 1 })
    &&& forall|i: int|
        0 <= i < w.log.len() ==> ((#[trigger] w.log[i]) matches AuditEvent::Progress { phase, .. } ==> phase
            == FsckPhase::Directory || phase == FsckPhase::Inodes || phase == FsckPhase::Finalize)
}

proof fn lemma_told_in_step(w: Walk, e: AuditEvent)
    requires
        in_step(w),
        e matches AuditEvent::Progress { phase, .. } ==> phase == FsckPhase::Directory || phase == FsckPhase::Inodes
            || phase == FsckPhase::Finalize,
    ensures
        in_step(told(w, e)),
{
    assert(w.log.push(e).drop_last() =~= w.log);
}

proof fn lemma_dir_in_step(v: Vol, max_entries: int, w: Walk, dir: u32, parent: u32)
    requires
        in_step(w),
    ensures
        in_step(past_dir(v, max_entries, w, dir, parent)),
        past_dir(v, max_entries, w, dir, parent).dirs == w.dirs + 1,
{
    let w1 = Walk { visited: w.visited.insert(dir), dirs: w.dirs + 1, claim: None, ..w };
    lemma_dir_told_in_step(Walk { incomplete: true, ..w1 });
    if let Ok(raw) = checked_inode(v, dir) {
        if !mode_is_dir(mode_of(raw)) {
            let e = AuditEvent::Finding(Anomaly::BogusEntry { parent_ino: parent });
            lemma_told_in_step(w1, e);
            lemma_dir_told_in_step(told(w1, e));
        } else if let Some(entries) = dir_entries(v, raw) {
            let n = if entries.len() > max_entries {
                max_entries as nat
            } else {
                entries.len()
            };
            lemma_entries_behind(Seq::empty(), w1, dir, entries, n);
            let seen = past_entries(w1, dir, entries, n);
            lemma_dir_told_in_step(parent_checked(seen, dir, parent));
            lemma_dir_told_in_step(parent_checked(Walk { incomplete: true, ..seen }, dir, parent));
        }
    }
}

proof fn lemma_dir_told_in_step(w: Walk)
    requires
        in_step(w),
    ensures
        in_step(dir_told(w)),
        dir_told(w).dirs == w.dirs,
{
    lemma_told_in_step(
        w,
        AuditEvent::Progress {
            phase: FsckPhase::Directory,
            done: w.dirs as u64,
            total: (w.dirs + w.work.len()) as u64,
        },
    );
}

proof fn lemma_walk_in_step(v: Vol, max_entries: int, left: nat, w: Walk)
    requires
        in_step(w),
    ensures
        in_step(walked_out(v, max_entries, left, w)),
        walked_out(v, max_entries, left, w).dirs <= w.dirs + left,
    decreases left, w.work.len(),
{
    if w.work.len() > 0 {
        let (dir, parent) = w.work.last();
        let rest = Walk { work: w.work.drop_last(), ..w };
        if left > 0 {
            if w.visited.contains(dir) {
                lemma_walk_in_step(v, max_entries, left, rest);
            } else {
                lemma_dir_in_step(v, max_entries, rest, dir, parent);
                lemma_walk_in_step(v, max_entries, (left - 1) as nat, past_dir(v, max_entries, rest, dir, parent));
            }
        }
    }
}

proof fn lemma_compared_in_step(v: Vol, w: Walk, n: nat)
    requires
        in_step(w),
    ensures
        in_step(compared(v, w, n)),
    decreases n,
{
    if n > 0 {
        lemma_compared_in_step(v, w, (n - 1) as nat);
        let ino = w.order[n - 1];
        if let Some(a) = link_fault(v, ino, w.counts[ino], w.incomplete) {
            lemma_told_in_step(compared(v, w, (n - 1) as nat), AuditEvent::Finding(a));
        }
    }
}

proof fn lemma_parents_in_step(w: Walk, wrong: Seq<Anomaly>, n: nat)
    requires
        in_step(w),
    ensures
        in_step(parents_told(w, wrong, n)),
    decreases n,
{
    if n > 0 {
        lemma_parents_in_step(w, wrong, (n - 1) as nat);
        lemma_told_in_step(parents_told(w, wrong, (n - 1) as nat), AuditEvent::Finding(wrong[n - 1]));
    }
}

/// The last three things that an audit tells.
pub open spec fn last_steps() -> Seq<AuditEvent> {
    seq![
        phase_event(FsckPhase::Inodes, 1),
        phase_event(FsckPhase::Finalize, 0),
        phase_event(FsckPhase::Finalize, 1),
    ]
}

/// An audit counts what it tells, looks at no more directories than it may, and
/// ends as it should.
proof fn lemma_audited_in_step(v: Vol, max_dirs: u32, max_entries: u32)
    ensures
        ({
            let w = audited(v, max_dirs, max_entries, Seq::empty());
            &&& in_step(w)
            &&& w.dirs <= max_dirs
            &&& w.log.len() >= 4
            &&& w.log.subrange(w.log.len() - 3, w.log.len() as int) == last_steps()
        }),
{
    let start = walk_start(Seq::empty());
    reveal_with_fuel(findings_in, 2);
    assert(start.log.drop_last() =~= Seq::<AuditEvent>::empty());
    assert(in_step(start));
    lemma_walk_in_step(v, max_entries as int, max_dirs as nat, start);
    let w = walked_out(v, max_entries as int, max_dirs as nat, start);
    lemma_concluded_behind(Seq::empty(), v, w);
    let w1 = told(w, phase_event(FsckPhase::Inodes, 0));
    lemma_told_in_step(w, phase_event(FsckPhase::Inodes, 0));
    let w2 = compared(v, w1, w1.order.len());
    lemma_compared_in_step(v, w1, w1.order.len());
    let w3 = parents_told(w2, w1.wrong, w1.wrong.len());
    lemma_parents_in_step(w2, w1.wrong, w1.wrong.len());
    let w4 = told(w3, phase_event(FsckPhase::Inodes, 1));
    lemma_told_in_step(w3, phase_event(FsckPhase::Inodes, 1));
    let w5 = told(w4, phase_event(FsckPhase::Finalize, 0));
    lemma_told_in_step(w4, phase_event(FsckPhase::Finalize, 0));
    let w6 = told(w5, phase_event(FsckPhase::Finalize, 1));
    lemma_told_in_step(w5, phase_event(FsckPhase::Finalize, 1));
    assert(w6.log.subrange(w6.log.len() - 3, w6.log.len() as int) =~= last_steps());
}

/// An audit with callbacks against a plain one of the same volume. Both report
/// the same counts, and no more directories than they were allowed. What is
/// told to the callbacks holds just the findings that the plain report lists, in
/// its order, and as many as either counts. Progress begins with the
/// superblock's two steps and the first of the directories, ends with the last
/// of the inodes and the two of the end, and never names the journal.
pub proof fn law_callbacks_hear_what_is_reported(
    v: Vol,
    max_dirs: u32,
    max_entries: u32,
    plain: AuditReport,
    heard: AuditReport,
)
    requires
        counts_agree(plain, audited(v, max_dirs, max_entries, Seq::empty())),
        plain.anomalies@ == findings_in(audited(v, max_dirs, max_entries, Seq::empty()).log),
        counts_agree(heard, told_to_callbacks(v, max_dirs, max_entries)),
    ensures
        ({
            let log = told_to_callbacks(v, max_dirs, max_entries).log;
            &&& heard.directories_scanned == plain.directories_scanned <= max_dirs
            &&& heard.entries_scanned == plain.entries_scanned
            &&& heard.inodes_visited == plain.inodes_visited
            &&& heard.anomalies_count == plain.anomalies_count == plain.anomalies@.len()
            &&& findings_in(log) == plain.anomalies@
            &&& log.len() >= 6
            &&& log[0] == phase_event(FsckPhase::Superblock, 0)
            &&& log[1] == phase_event(FsckPhase::Superblock, 1)
            &&& log[2] == (AuditEvent::Progress { phase: FsckPhase::Directory, done: 0, total: 1 })
            &&& log.subrange(log.len() - 3, log.len() as int) == last_steps()
            &&& forall|i: int|
                0 <= i < log.len() ==> ((#[trigger] log[i]) matches AuditEvent::Progress { phase, .. } ==> phase
                    != FsckPhase::Journal)
        }),
{
    let pre = seq![phase_event(FsckPhase::Superblock, 0), phase_event(FsckPhase::Superblock, 1)];
    let w = audited(v, max_dirs, max_entries, Seq::empty());
    lemma_audited_behind(pre, v, max_dirs, max_entries);
    lemma_audited_in_step(v, max_dirs, max_entries);
    lemma_findings_joined(pre, w.log);
    reveal_with_fuel(findings_in, 3);
    assert(pre.drop_last().drop_last() =~= Seq::<AuditEvent>::empty());
    assert(findings_in(pre) =~= Seq::<Anomaly>::empty());
    assert(findings_in(pre) + findings_in(w.log) =~= findings_in(w.log));
    let log = pre + w.log;
    assert(log.subrange(log.len() - 3, log.len() as int) =~= w.log.subrange(w.log.len() - 3, w.log.len() as int));
    assert(log[2] == w.log[0]);
    assert forall|i: int| 0 <= i < log.len() implies ((#[trigger] log[i]) matches AuditEvent::Progress { phase, .. }
        ==> phase != FsckPhase::Journal) by {
        if i >= 2 {
            assert(log[i] == w.log[i - 2]);
        }
    }
}

} // verus!
