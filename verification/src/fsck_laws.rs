//! What an audit finds, against what the directories of a volume hold.
use crate::dir::RecordView;
use crate::dirops::EXT4_ROOT_INODE;
use crate::fs::checked_inode;
use crate::fsck::{
    audited, compared, concluded, dir_entries, dir_told, findings_in, link_fault, named_once_more,
    parent_checked, parent_fault, parents_told, past_dir, past_entries, phase_event, told, walk_start,
    walked_out, Anomaly, AuditEvent, FsckPhase, Walk,
};
use crate::inode::{links_of, mode_is_dir, mode_of};
use crate::volume::Vol;
use vstd::prelude::*;

verus! {

// -- what a directory holds -------------------------------------------------

/// The inode that an entry of directory `dir` names. An entry for `.` counts for
/// the directory, whatever number is in it.
pub open spec fn entry_names(dir: u32, e: RecordView) -> u32 {
    if e.name == seq![0x2Eu8] {
        dir
    } else {
        e.inode
    }
}

/// Whether an entry leads to a directory below the one that it is in.
pub open spec fn leads_down(e: RecordView) -> bool {
    e.name != seq![0x2Eu8] && e.name != seq![0x2Eu8, 0x2Eu8] && e.file_type == 2
}

/// How many of the first `n` entries of directory `dir` name inode `ino`.
pub open spec fn named_by(dir: u32, es: Seq<RecordView>, n: nat, ino: u32) -> int
    decreases n,
{
    if n == 0 {
        0
    } else {
        named_by(dir, es, (n - 1) as nat, ino) + (if entry_names(dir, es[n - 1]) == ino {
            1int
        } else {
            0
        })
    }
}

/// What the last of the first `n` entries for `..` names.
pub open spec fn parent_claimed(es: Seq<RecordView>, n: nat) -> Option<u32>
    decreases n,
{
    if n == 0 {
        None
    } else if es[n - 1].name == seq![0x2Eu8, 0x2Eu8] {
        Some(es[n - 1].inode)
    } else {
        parent_claimed(es, (n - 1) as nat)
    }
}

/// The entries of a directory that an audit looks at, `most` of them at the
/// most: none of what is no directory or cannot be made out.
pub open spec fn entries_seen(v: Vol, most: int, dir: u32) -> Seq<RecordView> {
    match checked_inode(v, dir) {
        Err(_) => Seq::empty(),
        Ok(raw) => if !mode_is_dir(mode_of(raw)) {
            Seq::empty()
        } else {
            match dir_entries(v, raw) {
                None => Seq::empty(),
                Some(es) => if es.len() > most {
                    es.take(most)
                } else {
                    es
                },
            }
        },
    }
}

/// Whether there is nothing in a directory that an audit does not look at.
pub open spec fn all_seen(v: Vol, most: int, dir: u32) -> bool {
    match checked_inode(v, dir) {
        Err(_) => false,
        Ok(raw) => !mode_is_dir(mode_of(raw)) || match dir_entries(v, raw) {
            None => false,
            Some(es) => es.len() <= most,
        },
    }
}

/// Whether what is named as a directory is something else.
pub open spec fn no_directory(v: Vol, dir: u32) -> bool {
    match checked_inode(v, dir) {
        Err(_) => false,
        Ok(raw) => !mode_is_dir(mode_of(raw)),
    }
}

// -- what some directories hold together ------------------------------------

/// How many entries of some directories name inode `ino`. Each directory comes
/// with the one that it was reached from.
pub open spec fn times_named(v: Vol, most: int, ds: Seq<(u32, u32)>, ino: u32) -> int
    decreases ds.len(),
{
    if ds.len() == 0 {
        0
    } else {
        let es = entries_seen(v, most, ds.last().0);
        times_named(v, most, ds.drop_last(), ino) + named_by(ds.last().0, es, es.len(), ino)
    }
}

/// How many entries some directories have.
pub open spec fn entries_among(v: Vol, most: int, ds: Seq<(u32, u32)>) -> int
    decreases ds.len(),
{
    if ds.len() == 0 {
        0
    } else {
        entries_among(v, most, ds.drop_last()) + entries_seen(v, most, ds.last().0).len()
    }
}

/// Whether a directory is among some.
pub open spec fn among(ds: Seq<(u32, u32)>, dir: u32) -> bool {
    exists|i: int| 0 <= i < ds.len() && (#[trigger] ds[i]).0 == dir
}

/// Entry `k` of directory `i` of some leads down to `dir`.
pub open spec fn entry_to(v: Vol, most: int, ds: Seq<(u32, u32)>, i: int, k: int, dir: u32) -> bool {
    &&& 0 <= i < ds.len()
    &&& 0 <= k < entries_seen(v, most, ds[i].0).len()
    &&& leads_down(entries_seen(v, most, ds[i].0)[k])
    &&& entries_seen(v, most, ds[i].0)[k].inode == dir
}

/// Some entry of directory `i` of some leads down to `dir`.
pub open spec fn found_below(v: Vol, most: int, ds: Seq<(u32, u32)>, i: int, dir: u32) -> bool {
    exists|k: int| #[trigger] entry_to(v, most, ds, i, k, dir)
}

/// The directories of some are all different, and each is the root or was
/// reached from one before it.
pub open spec fn walked_down(v: Vol, most: int, ds: Seq<(u32, u32)>) -> bool {
    &&& forall|i: int, j: int| 0 <= i < j < ds.len() ==> (#[trigger] ds[i]).0 != (#[trigger] ds[j]).0
    &&& forall|i: int|
        0 <= i < ds.len() ==> (#[trigger] ds[i]) == (EXT4_ROOT_INODE, EXT4_ROOT_INODE) || exists|j: int|
            0 <= j < i && ds[i].1 == (#[trigger] ds[j]).0 && found_below(v, most, ds, j, ds[i].0)
}

/// Every directory that one of some leads down to is among them.
pub open spec fn closed_below(v: Vol, most: int, ds: Seq<(u32, u32)>) -> bool {
    forall|i: int, dir: u32| #[trigger] found_below(v, most, ds, i, dir) ==> among(ds, dir)
}

/// Nothing of some directories is left out.
pub open spec fn seen_in_full(v: Vol, most: int, ds: Seq<(u32, u32)>) -> bool {
    forall|i: int| 0 <= i < ds.len() ==> all_seen(v, most, (#[trigger] ds[i]).0)
}

/// A count as far as it is kept.
pub open spec fn kept_count(n: int) -> u32 {
    if n > 0xFFFF_FFFF {
        0xFFFF_FFFF
    } else {
        n as u32
    }
}

/// What is wrong with an inode that is named `n` times: it cannot be made out or
/// has no links, it has fewer links than names, or more.
pub open spec fn links_wrong(v: Vol, ino: u32, n: int, a: Anomaly) -> bool {
    match checked_inode(v, ino) {
        Err(_) => a == (Anomaly::DanglingEntry { parent_ino: 0, child_ino: ino }),
        Ok(raw) => if links_of(raw) == 0 {
            a == (Anomaly::DanglingEntry { parent_ino: 0, child_ino: ino })
        } else if links_of(raw) < kept_count(n) {
            a == (Anomaly::LinkCountTooLow { ino, stored: links_of(raw), observed: kept_count(n) })
        } else {
            links_of(raw) > kept_count(n) && a == (Anomaly::LinkCountTooHigh {
                ino,
                stored: links_of(raw),
                observed: kept_count(n),
            })
        },
    }
}

/// What is wrong with directory `i` of some: it is no directory, or its `..`
/// names another than the one that it was reached from.
pub open spec fn place_wrong(v: Vol, most: int, ds: Seq<(u32, u32)>, i: int, a: Anomaly) -> bool {
    let (dir, parent) = ds[i];
    let es = entries_seen(v, most, dir);
    let claim = parent_claimed(es, es.len());
    ||| no_directory(v, dir) && a == (Anomaly::BogusEntry { parent_ino: parent })
    ||| claim is Some && claim->0 != parent && a == (Anomaly::WrongDotDot {
        dir_ino: dir,
        claims: claim->0,
        actual_parent: parent,
    })
}

// -- one directory ----------------------------------------------------------

/// How often a walk has counted an inode.
pub open spec fn tally(w: Walk, ino: u32) -> int {
    if w.counts.contains_key(ino) {
        w.counts[ino] as int
    } else {
        0
    }
}

/// What was counted is what was met, and was met at least once.
pub open spec fn books_kept(w: Walk) -> bool {
    &&& forall|ino: u32| #[trigger] w.counts.contains_key(ino) ==> w.counts[ino] > 0
    &&& forall|ino: u32| #[trigger] w.order.contains(ino) <==> w.counts.contains_key(ino)
}

proof fn lemma_named(w: Walk, ino: u32)
    requires
        books_kept(w),
    ensures
        ({
            let after = named_once_more(w, ino);
            &&& books_kept(after)
            &&& forall|x: u32| #[trigger]
                tally(after, x) == (if x == ino {
                    kept_count(tally(w, x) + 1) as int
                } else {
                    tally(w, x)
                })
            &&& after == (Walk { order: after.order, counts: after.counts, ..w })
        }),
{
    let after = named_once_more(w, ino);
    assert forall|x: u32| #[trigger] after.order.contains(x) <==> after.counts.contains_key(x) by {
        if w.counts.contains_key(ino) {
            assert(w.order.contains(ino));
            assert(after.order.contains(x) == w.order.contains(x));
        } else {
            assert(after.order == w.order.push(ino));
            if after.order.contains(x) {
                let j = choose|j: int| 0 <= j < after.order.len() && after.order[j] == x;
                if j < w.order.len() {
                    assert(w.order[j] == x);
                    assert(w.order.contains(x));
                }
            }
            if w.order.contains(x) {
                let j = choose|j: int| 0 <= j < w.order.len() && w.order[j] == x;
                assert(after.order[j] == x);
            }
            assert(after.order[w.order.len() as int] == ino);
        }
    }
}

/// The entries of a directory, one after the other.
proof fn lemma_entries(w: Walk, dir: u32, es: Seq<RecordView>, n: nat)
    requires
        books_kept(w),
        n <= es.len(),
    ensures
        ({
            let after = past_entries(w, dir, es, n);
            &&& books_kept(after)
            &&& forall|x: u32| #[trigger] tally(after, x) == kept_count(tally(w, x) + named_by(dir, es, n, x))
            &&& after.entries == w.entries + n
            &&& after.claim == (match parent_claimed(es, n) {
                Some(c) => Some(c),
                None => w.claim,
            })
            &&& forall|x: (u32, u32)| #[trigger]
                after.work.contains(x) <==> w.work.contains(x) || exists|k: int|
                    0 <= k < n && leads_down(#[trigger] es[k]) && x == (es[k].inode, dir)
            &&& after == (Walk {
                order: after.order,
                counts: after.counts,
                entries: after.entries,
                claim: after.claim,
                work: after.work,
                ..w
            })
        }),
    decreases n,
{
    if n == 0 {
        assert forall|x: u32| #[trigger] tally(w, x) == kept_count(tally(w, x) + named_by(dir, es, 0, x)) by {
        }
    } else {
        let m = (n - 1) as nat;
        lemma_entries(w, dir, es, m);
        let mid = past_entries(w, dir, es, m);
        let e = es[n - 1];
        let after = past_entries(w, dir, es, n);
        let w1 = if e.name == seq![0x2Eu8] {
            Walk { entries: mid.entries + 1, ..mid }
        } else if e.name == seq![0x2Eu8, 0x2Eu8] {
            Walk { entries: mid.entries + 1, claim: Some(e.inode), ..mid }
        } else {
            Walk { entries: mid.entries + 1, ..mid }
        };
        assert(books_kept(w1));
        assert(seq![0x2Eu8].len() == 1 && seq![0x2Eu8, 0x2Eu8].len() == 2);
        lemma_named(w1, entry_names(dir, e));
        let w2 = named_once_more(w1, entry_names(dir, e));
        assert(after.counts == w2.counts && after.order == w2.order);
        assert forall|x: u32| #[trigger] tally(after, x) == kept_count(tally(w, x) + named_by(dir, es, n, x)) by {
            assert(tally(after, x) == tally(w2, x));
            assert(tally(w1, x) == tally(mid, x));
            lemma_named_by(dir, es, m, x);
        }
        assert forall|x: u32| #[trigger] after.order.contains(x) <==> after.counts.contains_key(x) by {
            assert(w2.order.contains(x) <==> w2.counts.contains_key(x));
        }
        assert forall|x: (u32, u32)| #[trigger]
            after.work.contains(x) <==> w.work.contains(x) || exists|k: int|
                0 <= k < n && leads_down(#[trigger] es[k]) && x == (es[k].inode, dir) by {
            if leads_down(e) {
                assert(after.work == mid.work.push((e.inode, dir)));
                assert(after.work[mid.work.len() as int] == (e.inode, dir));
                if mid.work.contains(x) {
                    let j = choose|j: int| 0 <= j < mid.work.len() && mid.work[j] == x;
                    assert(after.work[j] == x);
                }
                if after.work.contains(x) {
                    let j = choose|j: int| 0 <= j < after.work.len() && after.work[j] == x;
                    if j < mid.work.len() {
                        assert(mid.work[j] == x);
                        assert(mid.work.contains(x));
                    } else {
                        assert(leads_down(es[n - 1]));
                    }
                }
            } else {
                assert(after.work == mid.work);
            }
            assert(mid.work.contains(x) <==> w.work.contains(x) || exists|k: int|
                0 <= k < m && leads_down(#[trigger] es[k]) && x == (es[k].inode, dir));
        }
    }
}

proof fn lemma_named_by(dir: u32, es: Seq<RecordView>, n: nat, x: u32)
    ensures
        0 <= named_by(dir, es, n, x) <= n,
    decreases n,
{
    if n > 0 {
        lemma_named_by(dir, es, (n - 1) as nat, x);
    }
}

/// A part of some entries counts as the entries do.
proof fn lemma_part(dir: u32, es: Seq<RecordView>, most: int, n: nat)
    requires
        n <= most <= es.len(),
    ensures
        forall|x: u32| #[trigger] named_by(dir, es.take(most), n, x) == named_by(dir, es, n, x),
        parent_claimed(es.take(most), n) == parent_claimed(es, n),
    decreases n,
{
    if n > 0 {
        lemma_part(dir, es, most, (n - 1) as nat);
        assert(es.take(most)[n - 1] == es[n - 1]);
        assert forall|x: u32| #[trigger] named_by(dir, es.take(most), n, x) == named_by(dir, es, n, x) by {
            assert(named_by(dir, es.take(most), (n - 1) as nat, x) == named_by(dir, es, (n - 1) as nat, x));
        }
    }
}

// -- the walk ---------------------------------------------------------------

/// What has been told or noted as wrong.
pub open spec fn noted(w: Walk, a: Anomaly) -> bool {
    w.wrong.contains(a) || w.log.contains(AuditEvent::Finding(a))
}

/// What a walk that has been to the directories `ds` has counted and noted.
#[verifier::opaque]
pub open spec fn has_counted(v: Vol, most: int, w: Walk, ds: Seq<(u32, u32)>) -> bool {
    &&& books_kept(w)
    &&& forall|x: u32| #[trigger] tally(w, x) == kept_count(times_named(v, most, ds, x))
    &&& w.entries == entries_among(v, most, ds)
    &&& w.dirs == ds.len()
    &&& walked_down(v, most, ds)
    &&& forall|a: Anomaly| #[trigger]
        noted(w, a) <==> exists|i: int| 0 <= i < ds.len() && #[trigger] place_wrong(v, most, ds, i, a)
}

/// The directories that a walk has before it are named in those it has been to,
/// and all that are named there are before it or behind it.
#[verifier::opaque]
spec fn work_left(v: Vol, most: int, w: Walk, ds: Seq<(u32, u32)>) -> bool {
    &&& forall|d: u32| #[trigger] w.visited.contains(d) <==> among(ds, d)
    &&& forall|x: (u32, u32)| #[trigger]
        w.work.contains(x) ==> x == (EXT4_ROOT_INODE, EXT4_ROOT_INODE) || exists|j: int|
            0 <= j < ds.len() && x.1 == (#[trigger] ds[j]).0 && found_below(v, most, ds, j, x.0)
    &&& forall|i: int, dir: u32| #[trigger]
        found_below(v, most, ds, i, dir) ==> among(ds, dir) || w.work.contains((dir, ds[i].0))
}

/// A walk that has been to the directories `ds`, and has the rest before it.
spec fn been_to(v: Vol, most: int, w: Walk, ds: Seq<(u32, u32)>) -> bool {
    &&& has_counted(v, most, w, ds)
    &&& work_left(v, most, w, ds)
    &&& w.incomplete <==> !seen_in_full(v, most, ds)
}

proof fn lemma_times_named(v: Vol, most: int, ds: Seq<(u32, u32)>, x: u32)
    ensures
        times_named(v, most, ds, x) >= 0,
    decreases ds.len(),
{
    if ds.len() > 0 {
        lemma_times_named(v, most, ds.drop_last(), x);
        let es = entries_seen(v, most, ds.last().0);
        lemma_named_by(ds.last().0, es, es.len(), x);
    }
}

/// What leads down from some directories does so when there is one more.
proof fn lemma_below_more(v: Vol, most: int, ds: Seq<(u32, u32)>, d: (u32, u32))
    ensures
        forall|i: int, dir: u32|
            0 <= i < ds.len() ==> #[trigger] found_below(v, most, ds.push(d), i, dir) == found_below(v, most, ds, i, dir),
        forall|i: int, dir: u32| #[trigger] found_below(v, most, ds, i, dir) ==> 0 <= i < ds.len(),
        forall|i: int, dir: u32| #[trigger] found_below(v, most, ds.push(d), i, dir) ==> 0 <= i <= ds.len(),
        forall|dir: u32|
            #![trigger found_below(v, most, ds.push(d), ds.len() as int, dir)]
            found_below(v, most, ds.push(d), ds.len() as int, dir) <==> exists|k: int|
                0 <= k < entries_seen(v, most, d.0).len() && leads_down(#[trigger] entries_seen(v, most, d.0)[k])
                    && entries_seen(v, most, d.0)[k].inode == dir,
        forall|x: u32| #[trigger] among(ds.push(d), x) <==> among(ds, x) || x == d.0,
        forall|i: int, a: Anomaly|
            0 <= i < ds.len() ==> #[trigger] place_wrong(v, most, ds.push(d), i, a) == place_wrong(v, most, ds, i, a),
{
    let more = ds.push(d);
    let n = ds.len() as int;
    assert forall|i: int, dir: u32| 0 <= i < ds.len() implies #[trigger] found_below(v, most, more, i, dir) == found_below(
        v,
        most,
        ds,
        i,
        dir,
    ) by {
        assert(more[i] == ds[i]);
        if found_below(v, most, more, i, dir) {
            let k = choose|k: int| #[trigger] entry_to(v, most, more, i, k, dir);
            assert(entry_to(v, most, ds, i, k, dir));
        }
        if found_below(v, most, ds, i, dir) {
            let k = choose|k: int| #[trigger] entry_to(v, most, ds, i, k, dir);
            assert(entry_to(v, most, more, i, k, dir));
        }
    }
    assert forall|dir: u32|
        #![trigger found_below(v, most, more, n, dir)]
        found_below(v, most, more, n, dir) <==> exists|k: int|
            0 <= k < entries_seen(v, most, d.0).len() && leads_down(#[trigger] entries_seen(v, most, d.0)[k])
                && entries_seen(v, most, d.0)[k].inode == dir by {
        assert(more[n] == d);
        if found_below(v, most, more, n, dir) {
            let k = choose|k: int| #[trigger] entry_to(v, most, more, n, k, dir);
            assert(leads_down(entries_seen(v, most, d.0)[k]));
        }
        if exists|k: int|
            0 <= k < entries_seen(v, most, d.0).len() && leads_down(#[trigger] entries_seen(v, most, d.0)[k])
                && entries_seen(v, most, d.0)[k].inode == dir {
            let k = choose|k: int|
                0 <= k < entries_seen(v, most, d.0).len() && leads_down(#[trigger] entries_seen(v, most, d.0)[k])
                    && entries_seen(v, most, d.0)[k].inode == dir;
            assert(entry_to(v, most, more, n, k, dir));
        }
    }
    assert forall|x: u32| #[trigger] among(more, x) <==> among(ds, x) || x == d.0 by {
        if among(ds, x) {
            let i = choose|i: int| 0 <= i < ds.len() && (#[trigger] ds[i]).0 == x;
            assert(more[i].0 == x);
        }
        if x == d.0 {
            assert(more[n].0 == x);
        }
        if among(more, x) {
            let i = choose|i: int| 0 <= i < more.len() && (#[trigger] more[i]).0 == x;
            if i < n {
                assert(ds[i].0 == x);
            }
        }
    }
    assert forall|i: int, a: Anomaly| 0 <= i < ds.len() implies #[trigger] place_wrong(v, most, more, i, a)
        == place_wrong(v, most, ds, i, a) by {
        assert(more[i] == ds[i]);
    }
}

/// Telling of progress notes nothing.
proof fn lemma_progress_notes(w: Walk, phase: FsckPhase, done: u64, total: u64)
    ensures
        forall|a: Anomaly| #[trigger] noted(told(w, AuditEvent::Progress { phase, done, total }), a) == noted(w, a),
{
    let e = AuditEvent::Progress { phase, done, total };
    let after = told(w, e);
    assert forall|a: Anomaly| #[trigger] noted(after, a) == noted(w, a) by {
        lemma_told_more(w.log, e, AuditEvent::Finding(a));
    }
}

proof fn lemma_told_more(log: Seq<AuditEvent>, e: AuditEvent, f: AuditEvent)
    ensures
        log.push(e).contains(f) <==> log.contains(f) || e == f,
{
    let more = log.push(e);
    assert(more[log.len() as int] == e);
    if log.contains(f) {
        let j = choose|j: int| 0 <= j < log.len() && log[j] == f;
        assert(more[j] == f);
    }
    if more.contains(f) {
        let j = choose|j: int| 0 <= j < more.len() && more[j] == f;
        if j < log.len() {
            assert(log[j] == f);
        }
    }
}

/// What a walk past a directory adds.
#[verifier::opaque]
spec fn added(v: Vol, most: int, w: Walk, after: Walk, dir: u32, parent: u32) -> bool {
    let es = entries_seen(v, most, dir);
    &&& books_kept(after)
    &&& forall|x: u32| #[trigger] tally(after, x) == kept_count(tally(w, x) + named_by(dir, es, es.len(), x))
    &&& after.entries == w.entries + es.len()
    &&& after.dirs == w.dirs + 1
    &&& after.visited == w.visited.insert(dir)
    &&& forall|x: (u32, u32)| #[trigger]
        after.work.contains(x) <==> w.work.contains(x) || exists|k: int|
            0 <= k < es.len() && leads_down(#[trigger] es[k]) && x == (es[k].inode, dir)
    &&& after.incomplete <==> w.incomplete || !all_seen(v, most, dir)
    &&& forall|a: Anomaly| #[trigger]
        noted(after, a) <==> noted(w, a) || place_wrong(v, most, seq![(dir, parent)], 0, a)
}

/// A walk past one directory.
#[verifier::rlimit(40)]
proof fn lemma_past_dir(v: Vol, most: int, w: Walk, dir: u32, parent: u32)
    requires
        books_kept(w),
        most >= 0,
    ensures
        added(v, most, w, past_dir(v, most, w, dir, parent), dir, parent),
{
    reveal(added);
    let after = past_dir(v, most, w, dir, parent);
    let w1 = Walk { visited: w.visited.insert(dir), dirs: w.dirs + 1, claim: None, ..w };
    let es = entries_seen(v, most, dir);
    assert(books_kept(w1));
    assert forall|x: u32| #[trigger] tally(w1, x) == tally(w, x) by {
    }
    assert(seq![(dir, parent)][0] == (dir, parent));
    if checked_inode(v, dir) is Err || no_directory(v, dir) || dir_entries(v, checked_inode(v, dir)->Ok_0) is None {
        assert(es =~= Seq::empty());
        let mid = if no_directory(v, dir) {
            told(w1, AuditEvent::Finding(Anomaly::BogusEntry { parent_ino: parent }))
        } else {
            Walk { incomplete: true, ..w1 }
        };
        assert(after == dir_told(mid));
        lemma_progress_notes(mid, FsckPhase::Directory, mid.dirs as u64, (mid.dirs + mid.work.len()) as u64);
        assert forall|a: Anomaly| #[trigger] noted(after, a) <==> noted(w, a) || place_wrong(
            v,
            most,
            seq![(dir, parent)],
            0,
            a,
        ) by {
            lemma_told_more(
                w1.log,
                AuditEvent::Finding(Anomaly::BogusEntry { parent_ino: parent }),
                AuditEvent::Finding(a),
            );
            assert(noted(after, a) == noted(mid, a));
        }
        assert forall|x: u32| #[trigger] tally(after, x) == kept_count(tally(w, x) + named_by(dir, es, es.len(), x)) by {
        }
        assert(after.order == w.order && after.counts == w.counts);
        assert(books_kept(after));
    } else {
        let all = dir_entries(v, checked_inode(v, dir)->Ok_0)->Some_0;
        let n = if all.len() > most {
            most as nat
        } else {
            all.len()
        };
        assert(es =~= all.take(n as int));
        assert(all.take(n as int).len() == n);
        lemma_entries(w1, dir, all, n);
        lemma_part(dir, all, n as int, n);
        let w2 = past_entries(w1, dir, all, n);
        let w3 = if all.len() > most {
            Walk { incomplete: true, ..w2 }
        } else {
            w2
        };
        let w4 = parent_checked(w3, dir, parent);
        assert(after == dir_told(w4));
        lemma_progress_notes(w4, FsckPhase::Directory, w4.dirs as u64, (w4.dirs + w4.work.len()) as u64);
        let claim = parent_claimed(es, es.len());
        assert(w3.claim == claim);
        assert forall|a: Anomaly| #[trigger] noted(after, a) <==> noted(w, a) || place_wrong(
            v,
            most,
            seq![(dir, parent)],
            0,
            a,
        ) by {
            assert(noted(after, a) == noted(w4, a));
            if let Some(f) = parent_fault(claim, dir, parent) {
                lemma_wrong_more(w3.wrong, f, a);
            }
        }
        assert forall|x: u32| #[trigger] tally(after, x) == kept_count(tally(w, x) + named_by(dir, es, es.len(), x)) by {
            assert(tally(after, x) == tally(w2, x));
            assert(tally(w1, x) == tally(w, x));
        }
        assert(after.order == w2.order && after.counts == w2.counts);
        assert(books_kept(after));
        assert forall|x: (u32, u32)| #[trigger]
            after.work.contains(x) <==> w.work.contains(x) || exists|k: int|
                0 <= k < es.len() && leads_down(#[trigger] es[k]) && x == (es[k].inode, dir) by {
            assert(after.work == w2.work);
            if exists|k: int| 0 <= k < n && leads_down(#[trigger] all[k]) && x == (all[k].inode, dir) {
                let k = choose|k: int| 0 <= k < n && leads_down(#[trigger] all[k]) && x == (all[k].inode, dir);
                assert(leads_down(es[k]));
            }
            if exists|k: int| 0 <= k < es.len() && leads_down(#[trigger] es[k]) && x == (es[k].inode, dir) {
                let k = choose|k: int| 0 <= k < es.len() && leads_down(#[trigger] es[k]) && x == (es[k].inode, dir);
                assert(leads_down(all[k]));
            }
        }
    }
}

proof fn lemma_wrong_more(s: Seq<Anomaly>, e: Anomaly, f: Anomaly)
    ensures
        s.push(e).contains(f) <==> s.contains(f) || e == f,
{
    let more = s.push(e);
    assert(more[s.len() as int] == e);
    if s.contains(f) {
        let j = choose|j: int| 0 <= j < s.len() && s[j] == f;
        assert(more[j] == f);
    }
    if more.contains(f) {
        let j = choose|j: int| 0 <= j < more.len() && more[j] == f;
        if j < s.len() {
            assert(s[j] == f);
        }
    }
}

/// The walk one directory further: the directories.
proof fn lemma_further_down(v: Vol, most: int, w: Walk, ds: Seq<(u32, u32)>)
    requires
        been_to(v, most, w, ds),
        w.work.len() > 0,
        !w.visited.contains(w.work.last().0),
    ensures
        walked_down(v, most, ds.push(w.work.last())),
{
    reveal(has_counted);
    reveal(work_left);
    let d = w.work.last();
    let (dir, parent) = d;
    let rest = Walk { work: w.work.drop_last(), ..w };
    let more = ds.push(d);
    let n = ds.len() as int;
    let es = entries_seen(v, most, dir);
    lemma_below_more(v, most, ds, d);
    assert(w.work.contains(d)) by {
        assert(w.work[w.work.len() - 1] == d);
    }
    assert forall|i: int, j: int| 0 <= i < j < more.len() implies (#[trigger] more[i]).0 != (#[trigger] more[j]).0 by {
        if j == n {
            assert(!among(ds, dir));
            assert(ds[i].0 == more[i].0);
        } else {
            assert(ds[i].0 != ds[j].0);
        }
    }
    assert forall|i: int| 0 <= i < more.len() implies (#[trigger] more[i]) == (EXT4_ROOT_INODE, EXT4_ROOT_INODE)
        || exists|j: int| 0 <= j < i && more[i].1 == (#[trigger] more[j]).0 && found_below(v, most, more, j, more[i].0) by {
        if i < n {
            assert(more[i] == ds[i]);
            if ds[i] != (EXT4_ROOT_INODE, EXT4_ROOT_INODE) {
                let j = choose|j: int|
                    0 <= j < i && ds[i].1 == (#[trigger] ds[j]).0 && found_below(v, most, ds, j, ds[i].0);
                assert(more[j] == ds[j]);
                assert(found_below(v, most, more, j, more[i].0));
            }
        } else if d != (EXT4_ROOT_INODE, EXT4_ROOT_INODE) {
            let j = choose|j: int| 0 <= j < ds.len() && d.1 == (#[trigger] ds[j]).0 && found_below(v, most, ds, j, d.0);
            assert(more[j] == ds[j]);
            assert(found_below(v, most, more, j, more[i].0));
        }
    }
}

/// The walk one directory further: what it has counted.
proof fn lemma_further_counted(v: Vol, most: int, w: Walk, ds: Seq<(u32, u32)>, after: Walk)
    requires
        been_to(v, most, w, ds),
        w.work.len() > 0,
        !w.visited.contains(w.work.last().0),
        added(v, most, (Walk { work: w.work.drop_last(), ..w }), after, w.work.last().0, w.work.last().1),
        walked_down(v, most, ds.push(w.work.last())),
    ensures
        has_counted(v, most, after, ds.push(w.work.last())),
{
    reveal(has_counted);
    reveal(added);
    let d = w.work.last();
    let (dir, parent) = d;
    let rest = Walk { work: w.work.drop_last(), ..w };
    let more = ds.push(d);
    let n = ds.len() as int;
    let es = entries_seen(v, most, dir);
    lemma_below_more(v, most, ds, d);
    assert(w.work.contains(d)) by {
        assert(w.work[w.work.len() - 1] == d);
    }
    assert(more.drop_last() =~= ds);
    assert forall|x: u32| #[trigger] tally(after, x) == kept_count(times_named(v, most, more, x)) by {
        assert(tally(rest, x) == tally(w, x));
        lemma_times_named(v, most, ds, x);
        lemma_named_by(dir, es, es.len(), x);
    }
    assert forall|a: Anomaly| #[trigger]
        noted(after, a) <==> exists|i: int| 0 <= i < more.len() && #[trigger] place_wrong(v, most, more, i, a) by {
        assert(noted(rest, a) == noted(w, a));
        assert(place_wrong(v, most, seq![d], 0, a) == place_wrong(v, most, more, n, a)) by {
            assert(seq![d][0] == more[n]);
        }
        if noted(w, a) {
            let i = choose|i: int| 0 <= i < ds.len() && #[trigger] place_wrong(v, most, ds, i, a);
            assert(place_wrong(v, most, more, i, a));
        }
        if exists|i: int| 0 <= i < more.len() && #[trigger] place_wrong(v, most, more, i, a) {
            let i = choose|i: int| 0 <= i < more.len() && #[trigger] place_wrong(v, most, more, i, a);
            if i < n {
                assert(place_wrong(v, most, ds, i, a));
            }
        }
    }
}

/// The walk one directory further: what is before it.
proof fn lemma_further_left(v: Vol, most: int, w: Walk, ds: Seq<(u32, u32)>, after: Walk)
    requires
        been_to(v, most, w, ds),
        w.work.len() > 0,
        !w.visited.contains(w.work.last().0),
        added(v, most, (Walk { work: w.work.drop_last(), ..w }), after, w.work.last().0, w.work.last().1),
    ensures
        work_left(v, most, after, ds.push(w.work.last())),
        after.incomplete <==> !seen_in_full(v, most, ds.push(w.work.last())),
{
    reveal(work_left);
    reveal(added);
    let d = w.work.last();
    let (dir, parent) = d;
    let rest = Walk { work: w.work.drop_last(), ..w };
    let more = ds.push(d);
    let n = ds.len() as int;
    let es = entries_seen(v, most, dir);
    lemma_below_more(v, most, ds, d);
    assert(w.work.contains(d)) by {
        assert(w.work[w.work.len() - 1] == d);
    }
    assert forall|x: (u32, u32)| #[trigger] after.work.contains(x) implies x == (EXT4_ROOT_INODE, EXT4_ROOT_INODE)
        || exists|j: int| 0 <= j < more.len() && x.1 == (#[trigger] more[j]).0 && found_below(v, most, more, j, x.0) by {
        if rest.work.contains(x) {
            let q = choose|q: int| 0 <= q < rest.work.len() && rest.work[q] == x;
            assert(w.work[q] == x);
            assert(w.work.contains(x));
            if x != (EXT4_ROOT_INODE, EXT4_ROOT_INODE) {
                let j = choose|j: int|
                    0 <= j < ds.len() && x.1 == (#[trigger] ds[j]).0 && found_below(v, most, ds, j, x.0);
                assert(more[j] == ds[j]);
                assert(found_below(v, most, more, j, x.0));
            }
        } else {
            assert(more[n].0 == dir);
            assert(found_below(v, most, more, n, x.0));
        }
    }
    assert forall|i: int, below: u32| #[trigger] found_below(v, most, more, i, below) implies among(more, below)
        || after.work.contains((below, more[i].0)) by {
        if i < n {
            assert(more[i] == ds[i]);
            assert(found_below(v, most, ds, i, below));
            if !among(ds, below) {
                let x = (below, ds[i].0);
                let q = choose|q: int| 0 <= q < w.work.len() && w.work[q] == x;
                if q < rest.work.len() {
                    assert(rest.work[q] == x);
                    assert(rest.work.contains(x));
                    assert(after.work.contains(x));
                } else {
                    assert(below == dir);
                }
            }
        } else {
            let k = choose|k: int| 0 <= k < es.len() && leads_down(#[trigger] es[k]) && es[k].inode == below;
            assert(more[n] == d);
            let x = (es[k].inode, dir);
            assert(after.work.contains(x));
        }
    }
    assert(after.incomplete <==> !seen_in_full(v, most, more)) by {
        if seen_in_full(v, most, more) {
            assert forall|i: int| 0 <= i < ds.len() implies all_seen(v, most, (#[trigger] ds[i]).0) by {
                assert(more[i] == ds[i]);
            }
            assert(all_seen(v, most, more[n].0));
        }
        if seen_in_full(v, most, ds) && all_seen(v, most, dir) {
            assert forall|i: int| 0 <= i < more.len() implies all_seen(v, most, (#[trigger] more[i]).0) by {
                if i < n {
                    assert(more[i] == ds[i]);
                }
            }
        }
    }
    assert forall|x: u32| #[trigger] after.visited.contains(x) <==> among(more, x) by {
        assert(rest.visited == w.visited);
    }
}

/// The walk one directory further.
proof fn lemma_further(v: Vol, most: int, w: Walk, ds: Seq<(u32, u32)>)
    requires
        been_to(v, most, w, ds),
        most >= 0,
        w.work.len() > 0,
        !w.visited.contains(w.work.last().0),
    ensures
        been_to(
            v,
            most,
            past_dir(v, most, (Walk { work: w.work.drop_last(), ..w }), w.work.last().0, w.work.last().1),
            ds.push(w.work.last()),
        ),
{
    let d = w.work.last();
    let rest = Walk { work: w.work.drop_last(), ..w };
    let after = past_dir(v, most, rest, d.0, d.1);
    assert(books_kept(rest)) by {
        reveal(has_counted);
        assert(rest.counts == w.counts && rest.order == w.order);
    }
    lemma_past_dir(v, most, rest, d.0, d.1);
    lemma_further_down(v, most, w, ds);
    lemma_further_counted(v, most, w, ds, after);
    lemma_further_left(v, most, w, ds, after);
}

/// What a walk has counted does not depend on what is before it.
proof fn lemma_counted_same(v: Vol, most: int, w: Walk, u: Walk, ds: Seq<(u32, u32)>)
    requires
        has_counted(v, most, w, ds),
        u == (Walk { work: u.work, incomplete: u.incomplete, ..w }),
    ensures
        has_counted(v, most, u, ds),
{
    reveal(has_counted);
    assert(books_kept(u)) by {
        assert(u.counts == w.counts && u.order == w.order);
    }
    assert forall|x: u32| #[trigger] tally(u, x) == tally(w, x) by {
    }
    assert forall|a: Anomaly| #[trigger] noted(u, a) == noted(w, a) by {
    }
}

/// What is left of a walk when a directory turns up a second time.
proof fn lemma_again(v: Vol, most: int, w: Walk, ds: Seq<(u32, u32)>)
    requires
        been_to(v, most, w, ds),
        w.work.len() > 0,
        w.visited.contains(w.work.last().0),
    ensures
        been_to(v, most, (Walk { work: w.work.drop_last(), ..w }), ds),
{
    let rest = Walk { work: w.work.drop_last(), ..w };
    lemma_counted_same(v, most, w, rest, ds);
    reveal(work_left);
    assert forall|x: (u32, u32)| #[trigger] rest.work.contains(x) implies w.work.contains(x) by {
        let q = choose|q: int| 0 <= q < rest.work.len() && rest.work[q] == x;
        assert(w.work[q] == x);
    }
    assert(among(ds, w.work.last().0));
    assert forall|i: int, dir: u32| #[trigger] found_below(v, most, ds, i, dir) implies among(ds, dir)
        || rest.work.contains((dir, ds[i].0)) by {
        let x = (dir, ds[i].0);
        if !among(ds, dir) {
            let q = choose|q: int| 0 <= q < w.work.len() && w.work[q] == x;
            if q < rest.work.len() {
                assert(rest.work[q] == x);
            }
        }
    }
}

/// A walk to its end.
proof fn lemma_walk(v: Vol, most: int, left: nat, w: Walk, ds: Seq<(u32, u32)>) -> (all: Seq<(u32, u32)>)
    requires
        been_to(v, most, w, ds),
        most >= 0,
    ensures
        ({
            let end = walked_out(v, most, left, w);
            &&& ds.len() <= all.len() <= ds.len() + left
            &&& all.take(ds.len() as int) == ds
            &&& ds.len() == 0 && left > 0 && w.work.len() > 0 ==> all.len() > 0 && all[0] == w.work.last()
            &&& has_counted(v, most, end, all)
            &&& end.incomplete ==> !seen_in_full(v, most, all) || all.len() == ds.len() + left
            &&& !end.incomplete ==> seen_in_full(v, most, all) && closed_below(v, most, all)
            &&& all.len() < ds.len() + left ==> closed_below(v, most, all)
        }),
    decreases left, w.work.len(),
{
    let end = walked_out(v, most, left, w);
    if w.work.len() == 0 {
        assert(ds.take(ds.len() as int) =~= ds);
        assert(closed_below(v, most, ds)) by {
            reveal(has_counted);
            reveal(work_left);
        }
        assert(w.incomplete == !seen_in_full(v, most, ds)) by {
            reveal(has_counted);
            reveal(work_left);
        }
        assert(has_counted(v, most, w, ds)) by {
            reveal(has_counted);
            reveal(work_left);
        }
        ds
    } else if left == 0 {
        assert(ds.take(ds.len() as int) =~= ds);
        lemma_counted_same(v, most, w, end, ds);
        ds
    } else if w.visited.contains(w.work.last().0) {
        let rest = Walk { work: w.work.drop_last(), ..w };
        lemma_again(v, most, w, ds);
        assert(ds.len() > 0) by {
            reveal(has_counted);
            reveal(work_left);
            assert(among(ds, w.work.last().0));
        }
        lemma_walk(v, most, left, rest, ds)
    } else {
        let rest = Walk { work: w.work.drop_last(), ..w };
        let d = w.work.last();
        lemma_further(v, most, w, ds);
        let all = lemma_walk(v, most, (left - 1) as nat, past_dir(v, most, rest, d.0, d.1), ds.push(d));
        assert(all.take(ds.len() as int) =~= ds) by {
            assert(all.take(ds.len() as int + 1) =~= ds.push(d));
            assert forall|i: int| 0 <= i < ds.len() implies all[i] == ds[i] by {
                assert(all.take(ds.len() as int + 1)[i] == ds.push(d)[i]);
            }
        }
        assert(all[ds.len() as int] == d) by {
            assert(all.take(ds.len() as int + 1)[ds.len() as int] == d);
        }
        all
    }
}

// -- the findings -----------------------------------------------------------

/// A finding is in the log that it is found in.
proof fn lemma_found_in_log(log: Seq<AuditEvent>, a: Anomaly)
    ensures
        findings_in(log).contains(a) <==> log.contains(AuditEvent::Finding(a)),
    decreases log.len(),
{
    if log.len() > 0 {
        let front = log.drop_last();
        lemma_found_in_log(front, a);
        lemma_told_more(front, log.last(), AuditEvent::Finding(a));
        assert(front.push(log.last()) =~= log);
        if let AuditEvent::Finding(b) = log.last() {
            lemma_wrong_more(findings_in(front), b, a);
        }
    }
}

/// What holding the links of some inodes against their names tells.
proof fn lemma_compared(v: Vol, w: Walk, n: nat, a: Anomaly)
    requires
        n <= w.order.len(),
    ensures
        compared(v, w, n).log.contains(AuditEvent::Finding(a)) <==> w.log.contains(AuditEvent::Finding(a)) || exists|i: int|
            0 <= i < n && #[trigger] link_fault(v, w.order[i], w.counts[w.order[i]], w.incomplete) == Some(a),
    decreases n,
{
    if n > 0 {
        let m = (n - 1) as nat;
        lemma_compared(v, w, m, a);
        let before = compared(v, w, m);
        let fault = link_fault(v, w.order[n - 1], w.counts[w.order[n - 1]], w.incomplete);
        if let Some(b) = fault {
            lemma_told_more(before.log, AuditEvent::Finding(b), AuditEvent::Finding(a));
        }
        if exists|i: int|
            0 <= i < n && #[trigger] link_fault(v, w.order[i], w.counts[w.order[i]], w.incomplete) == Some(a) {
            let i = choose|i: int|
                0 <= i < n && #[trigger] link_fault(v, w.order[i], w.counts[w.order[i]], w.incomplete) == Some(a);
            if i < m {
                assert(link_fault(v, w.order[i], w.counts[w.order[i]], w.incomplete) == Some(a));
            }
        }
    }
}

/// What telling of wrong parents tells.
proof fn lemma_parents(w: Walk, wrong: Seq<Anomaly>, n: nat, a: Anomaly)
    requires
        n <= wrong.len(),
    ensures
        parents_told(w, wrong, n).log.contains(AuditEvent::Finding(a)) <==> w.log.contains(AuditEvent::Finding(a))
            || wrong.take(n as int).contains(a),
    decreases n,
{
    if n > 0 {
        let m = (n - 1) as nat;
        lemma_parents(w, wrong, m, a);
        let before = parents_told(w, wrong, m);
        lemma_told_more(before.log, AuditEvent::Finding(wrong[n - 1]), AuditEvent::Finding(a));
        lemma_wrong_more(wrong.take(m as int), wrong[n - 1], a);
        assert(wrong.take(m as int).push(wrong[n - 1]) =~= wrong.take(n as int));
    } else {
        assert(wrong.take(0).len() == 0);
    }
}

/// What an audit finds, and no more.
pub open spec fn finds(v: Vol, most: int, ds: Seq<(u32, u32)>, complete: bool, a: Anomaly) -> bool {
    ||| exists|i: int| 0 <= i < ds.len() && #[trigger] place_wrong(v, most, ds, i, a)
    ||| exists|ino: u32|
        #![trigger times_named(v, most, ds, ino)]
        times_named(v, most, ds, ino) > 0 && links_wrong(v, ino, times_named(v, most, ds, ino), a) && (complete
            || !(a is LinkCountTooHigh))
}

/// An audit goes down from the root, to `max_dirs` directories at the most, and
/// finds everything that is wrong with what they name, and nothing else: each
/// inode with fewer links than it has names, or that cannot be made out or has
/// none; each directory whose `..` is not where it was reached from, and each
/// that is none. That an inode has more links than names it finds where nothing
/// was left out. The directories that it goes to are all different. Every one
/// below them is among them, unless there are as many as it may look at.
pub proof fn law_audit_finds_what_is_wrong(v: Vol, max_dirs: u32, max_entries: u32) -> (ds: Seq<(u32, u32)>)
    ensures
        ({
            let most = max_entries as int;
            let w = audited(v, max_dirs, max_entries, Seq::empty());
            &&& walked_down(v, most, ds)
            &&& ds.len() <= max_dirs
            &&& max_dirs > 0 ==> ds.len() > 0 && ds[0] == (2u32, 2u32)
            &&& ds.len() < max_dirs ==> closed_below(v, most, ds)
            &&& w.dirs == ds.len()
            &&& w.entries == entries_among(v, most, ds)
            &&& forall|ino: u32| #[trigger] w.order.contains(ino) <==> times_named(v, most, ds, ino) > 0
            &&& forall|a: Anomaly|
                ds.len() < max_dirs ==> ((#[trigger] findings_in(w.log).contains(a)) <==> finds(
                    v,
                    most,
                    ds,
                    seen_in_full(v, most, ds),
                    a,
                ))
            &&& forall|a: Anomaly| #[trigger] findings_in(w.log).contains(a) ==> finds(v, most, ds, true, a)
            &&& forall|a: Anomaly| finds(v, most, ds, false, a) ==> #[trigger] findings_in(w.log).contains(a)
        }),
{
    let most = max_entries as int;
    let start = walk_start(Seq::empty());
    assert(been_to(v, most, start, Seq::empty())) by {
        lemma_start(v, most);
    }
    let ds = lemma_walk(v, most, max_dirs as nat, start, Seq::empty());
    let end = walked_out(v, most, max_dirs as nat, start);
    let w = audited(v, max_dirs, max_entries, Seq::empty());
    assert(start.work.last() == (2u32, 2u32));
    lemma_findings(v, most, end, ds);
    reveal(has_counted);
    ds
}

/// A walk before its first step has been nowhere.
proof fn lemma_start(v: Vol, most: int)
    ensures
        been_to(v, most, walk_start(Seq::empty()), Seq::empty()),
{
    reveal(has_counted);
    reveal(work_left);
    let w = walk_start(Seq::empty());
    let none = Seq::<(u32, u32)>::empty();
    assert forall|a: Anomaly| !(#[trigger] noted(w, a)) by {
        assert(w.log.len() == 1);
    }
    assert forall|x: (u32, u32)| #[trigger] w.work.contains(x) implies x == (EXT4_ROOT_INODE, EXT4_ROOT_INODE) by {
        assert(w.work.len() == 1);
    }
    assert forall|i: int, dir: u32| !(#[trigger] found_below(v, most, none, i, dir)) by {
    }
}

/// The findings of an audit that went to the directories `ds`.
#[verifier::rlimit(40)]
proof fn lemma_findings(v: Vol, most: int, end: Walk, ds: Seq<(u32, u32)>)
    requires
        has_counted(v, most, end, ds),
    ensures
        ({
            let w = concluded(v, end);
            &&& w.dirs == end.dirs
            &&& w.entries == end.entries
            &&& forall|ino: u32| #[trigger] w.order.contains(ino) <==> times_named(v, most, ds, ino) > 0
            &&& forall|a: Anomaly| #[trigger]
                findings_in(w.log).contains(a) <==> finds(v, most, ds, !end.incomplete, a)
        }),
{
    reveal(has_counted);
    let w1 = told(end, phase_event(FsckPhase::Inodes, 0));
    let w2 = compared(v, w1, w1.order.len());
    let w3 = parents_told(w2, w1.wrong, w1.wrong.len());
    let w4 = told(w3, phase_event(FsckPhase::Inodes, 1));
    let w5 = told(w4, phase_event(FsckPhase::Finalize, 0));
    let w = concluded(v, end);
    lemma_compared_keeps(v, w1, w1.order.len());
    lemma_parents_keep(w2, w1.wrong, w1.wrong.len());
    assert forall|ino: u32| #[trigger] w.order.contains(ino) <==> times_named(v, most, ds, ino) > 0 by {
        assert(end.order.contains(ino) <==> end.counts.contains_key(ino));
        assert(tally(end, ino) == kept_count(times_named(v, most, ds, ino)));
        lemma_times_named(v, most, ds, ino);
    }
    assert forall|a: Anomaly| #[trigger] findings_in(w.log).contains(a) <==> finds(v, most, ds, !end.incomplete, a) by {
        let f = AuditEvent::Finding(a);
        lemma_found_in_log(w.log, a);
        lemma_told_more(end.log, phase_event(FsckPhase::Inodes, 0), f);
        lemma_told_more(w3.log, phase_event(FsckPhase::Inodes, 1), f);
        lemma_told_more(w4.log, phase_event(FsckPhase::Finalize, 0), f);
        lemma_told_more(w5.log, phase_event(FsckPhase::Finalize, 1), f);
        lemma_compared(v, w1, w1.order.len(), a);
        lemma_parents(w2, w1.wrong, w1.wrong.len(), a);
        assert(w1.wrong.take(w1.wrong.len() as int) =~= w1.wrong);
        assert(noted(end, a) == (w1.wrong.contains(a) || end.log.contains(f)));
        let faulty = exists|i: int|
            0 <= i < w1.order.len() && #[trigger] link_fault(v, w1.order[i], w1.counts[w1.order[i]], w1.incomplete)
                == Some(a);
        let wrong = exists|ino: u32|
            #![trigger times_named(v, most, ds, ino)]
            times_named(v, most, ds, ino) > 0 && links_wrong(v, ino, times_named(v, most, ds, ino), a) && (
            !end.incomplete || !(a is LinkCountTooHigh));
        if faulty {
            let i = choose|i: int|
                0 <= i < w1.order.len() && #[trigger] link_fault(v, w1.order[i], w1.counts[w1.order[i]], w1.incomplete)
                    == Some(a);
            let ino = end.order[i];
            assert(end.order.contains(ino));
            assert(tally(end, ino) == kept_count(times_named(v, most, ds, ino)));
            lemma_times_named(v, most, ds, ino);
            assert(times_named(v, most, ds, ino) > 0);
        }
        if wrong {
            let ino = choose|ino: u32|
                #![trigger times_named(v, most, ds, ino)]
                times_named(v, most, ds, ino) > 0 && links_wrong(v, ino, times_named(v, most, ds, ino), a) && (
                !end.incomplete || !(a is LinkCountTooHigh));
            assert(tally(end, ino) == kept_count(times_named(v, most, ds, ino)));
            assert(end.counts.contains_key(ino));
            assert(end.order.contains(ino));
            let i = choose|i: int| 0 <= i < end.order.len() && end.order[i] == ino;
            assert(link_fault(v, w1.order[i], w1.counts[w1.order[i]], w1.incomplete) == Some(a));
        }
        assert(faulty == wrong);
    }
}

proof fn lemma_compared_keeps(v: Vol, w: Walk, n: nat)
    ensures
        ({
            let after = compared(v, w, n);
            after == (Walk { log: after.log, findings: after.findings, ..w })
        }),
    decreases n,
{
    if n > 0 {
        lemma_compared_keeps(v, w, (n - 1) as nat);
    }
}

proof fn lemma_parents_keep(w: Walk, wrong: Seq<Anomaly>, n: nat)
    ensures
        ({
            let after = parents_told(w, wrong, n);
            after == (Walk { log: after.log, findings: after.findings, ..w })
        }),
    decreases n,
{
    if n > 0 {
        lemma_parents_keep(w, wrong, (n - 1) as nat);
    }
}

} // verus!
