//! What is in a journal's log, and what a replay makes of it.
use crate::block_io::block_at;
use crate::bytes::{be16, be32, put_be32};
use crate::error::Error;
use crate::fs::file_block;
use crate::jbd2::{journal_record, journal_super, JournalSuperblock};
use crate::journal::{
    log_block, log_next, log_plan, log_start, log_step, revokes_in, tag_at, tag_bytes, tag_step, tagged,
    tags_from, unvoided, voided, voids, walked, Log, ReplayEntry, Revoke, Tag,
};
use crate::journal_apply::{
    applied, journal_cleaned, lemma_journal_super_in, log_emptied, next_sequence, recovery_flagged, replayed,
    replayed_log, resolved, resolved_one, unescaped, wound_up,
};
use crate::journal_laws::{
    block_after, law_journaled_blocks_are_carried, lemma_flagged_len, lemma_places, lemma_within_block,
    source_of, sources_stand,
};
use crate::stage::super_block;
use crate::volume::Vol;
use vstd::prelude::*;

verus! {

// -- a log, as it was written -----------------------------------------------

/// One piece of a log: a descriptor and the blocks behind it, a block of
/// revocations, or a commit.
pub enum Piece {
    Blocks(Seq<Tag>),
    Revokes(Seq<u64>),
    Commit,
}

/// How many blocks of the log a piece takes.
pub open spec fn piece_len(p: Piece) -> int {
    match p {
        Piece::Blocks(tags) => 1int + tags.len(),
        _ => 1,
    }
}

/// How many blocks the first `n` pieces take.
pub open spec fn taken(ps: Seq<Piece>, n: nat) -> int
    decreases n,
{
    if n == 0 {
        0
    } else {
        taken(ps, (n - 1) as nat) + piece_len(ps[n - 1])
    }
}

/// How many of the first `n` pieces are commits.
pub open spec fn commits(ps: Seq<Piece>, n: nat) -> int
    decreases n,
{
    if n == 0 {
        0
    } else {
        commits(ps, (n - 1) as nat) + (if ps[n - 1] is Commit {
            1int
        } else {
            0
        })
    }
}

/// The block of the journal that is `k` blocks behind the start of the log,
/// which goes round from the journal's last block to its first.
pub open spec fn ring_block(jsb: JournalSuperblock, k: int) -> int {
    jsb.first + (jsb.start - jsb.first + k) % (jsb.max_len - jsb.first)
}

/// The transaction that piece `n` belongs to. Their numbers go up by one from
/// that in the journal superblock.
pub open spec fn transaction_of(jsb: JournalSuperblock, ps: Seq<Piece>, n: nat) -> int {
    (jsb.sequence + commits(ps, n)) % 0x1_0000_0000
}

/// Bytes that a tag takes: twelve and more where it has room for wide block
/// numbers or for a checksum.
pub open spec fn tag_size(jsb: JournalSuperblock) -> int {
    if jsb.feature_incompat & 0x10 != 0 {
        16
    } else {
        8 + (if jsb.feature_incompat & 0x2 != 0 {
            4int
        } else {
            0
        }) + (if jsb.feature_incompat & 0x8 != 0 {
            2int
        } else {
            0
        })
    }
}

/// Where the part of a block ends that is not its checksum.
pub open spec fn part_used(jsb: JournalSuperblock, b: Seq<u8>) -> int {
    if jsb.feature_incompat & 0x8 != 0 || jsb.feature_incompat & 0x10 != 0 {
        b.len() - 4
    } else {
        b.len() as int
    }
}

/// A descriptor block holds some tags from byte `at` on, and no more: the last is
/// marked as such, or there is no room behind it. An identifier of sixteen bytes
/// follows each that is not marked to have none.
pub open spec fn tags_stored(jsb: JournalSuperblock, b: Seq<u8>, at: int, tags: Seq<Tag>) -> bool
    decreases tags.len(),
{
    if tags.len() == 0 {
        at + tag_size(jsb) > part_used(jsb, b)
    } else {
        let t = tags[0];
        &&& at + tag_size(jsb) <= part_used(jsb, b)
        &&& t.block == be32(b, at) + (if jsb.feature_incompat & 0x2 != 0 {
            0x1_0000_0000 * be32(b, at + 8)
        } else {
            0
        })
        &&& t.flags == (if jsb.feature_incompat & 0x10 != 0 {
            be32(b, at + 4)
        } else {
            be16(b, at + 6) as u32
        })
        &&& if t.flags & 0x8 != 0 {
            tags.len() == 1
        } else {
            tags_stored(
                jsb,
                b,
                at + tag_size(jsb) + (if t.flags & 0x2 != 0 {
                    0int
                } else {
                    16
                }),
                tags.drop_first(),
            )
        }
    }
}

/// A block of revocations holds those of some blocks, and no more.
pub open spec fn revokes_stored(jsb: JournalSuperblock, b: Seq<u8>, bs: Seq<u64>) -> bool {
    let size = if jsb.feature_incompat & 0x2 != 0 {
        8int
    } else {
        4
    };
    &&& 16 <= be32(b, 12) <= part_used(jsb, b)
    &&& bs.len() == (be32(b, 12) - 16) / size
    &&& forall|i: int|
        0 <= i < bs.len() ==> #[trigger] bs[i] == (if size == 8 {
            be32(b, 16 + 8 * i + 4) + 0x1_0000_0000 * be32(b, 16 + 8 * i)
        } else {
            be32(b, 16 + 4 * i) as int
        })
}

/// Piece `i` of a log is where it belongs.
pub open spec fn piece_stored(v: Vol, raw: Seq<u8>, jsb: JournalSuperblock, ps: Seq<Piece>, i: int) -> bool {
    match log_block(v, raw, ring_block(jsb, taken(ps, i as nat))) {
        Err(_) => false,
        Ok(b) => {
            &&& be32(b, 0) == 0xC03B_3998
            &&& be32(b, 8) == transaction_of(jsb, ps, i as nat)
            &&& match ps[i] {
                Piece::Blocks(tags) => be32(b, 4) == 1 && tags_stored(jsb, b, 12, tags),
                Piece::Revokes(bs) => be32(b, 4) == 5 && revokes_stored(jsb, b, bs),
                Piece::Commit => be32(b, 4) == 2,
            }
        },
    }
}

/// A journal holds a log, and nothing behind it that would go on with it.
pub open spec fn log_stored(v: Vol, raw: Seq<u8>, jsb: JournalSuperblock, ps: Seq<Piece>) -> bool {
    &&& jsb.block_size == v.bs()
    &&& jsb.first <= jsb.start < jsb.max_len
    &&& ps.len() <= jsb.max_len - jsb.first
    &&& forall|i: int| 0 <= i < ps.len() ==> #[trigger] piece_stored(v, raw, jsb, ps, i)
    &&& ps.len() < jsb.max_len - jsb.first ==> match log_block(v, raw, ring_block(jsb, taken(ps, ps.len()))) {
        Err(_) => false,
        Ok(b) => be32(b, 0) != 0xC03B_3998 || be32(b, 8) != transaction_of(jsb, ps, ps.len()) || (be32(b, 4) != 1
            && be32(b, 4) != 2 && be32(b, 4) != 5),
    }
}

// -- what the log says ------------------------------------------------------

/// The writes that a piece stands for.
pub open spec fn writes_in(jsb: JournalSuperblock, ps: Seq<Piece>, i: int) -> Seq<ReplayEntry> {
    match ps[i] {
        Piece::Blocks(tags) => Seq::new(
            tags.len(),
            |j: int|
                ReplayEntry {
                    transaction: transaction_of(jsb, ps, i as nat) as u32,
                    fs_block: tags[j].block,
                    journal_block: ring_block(jsb, taken(ps, i as nat) + 1 + j) as u64,
                    flags: tags[j].flags,
                },
        ),
        _ => Seq::empty(),
    }
}

/// The writes that the first `n` pieces stand for, in order.
pub open spec fn writes_upto(jsb: JournalSuperblock, ps: Seq<Piece>, n: nat) -> Seq<ReplayEntry>
    decreases n,
{
    if n == 0 {
        Seq::empty()
    } else {
        writes_upto(jsb, ps, (n - 1) as nat) + writes_in(jsb, ps, n - 1)
    }
}

/// The revocations of a piece.
pub open spec fn revokes_of(jsb: JournalSuperblock, ps: Seq<Piece>, i: int) -> Seq<Revoke> {
    match ps[i] {
        Piece::Revokes(bs) => Seq::new(
            bs.len(),
            |j: int| Revoke { block: bs[j], sequence: transaction_of(jsb, ps, i as nat) as u32 },
        ),
        _ => Seq::empty(),
    }
}

/// The revocations of the first `n` pieces.
pub open spec fn revokes_upto(jsb: JournalSuperblock, ps: Seq<Piece>, n: nat) -> Seq<Revoke>
    decreases n,
{
    if n == 0 {
        Seq::empty()
    } else {
        revokes_upto(jsb, ps, (n - 1) as nat) + revokes_of(jsb, ps, n - 1)
    }
}

/// How many of the first `n` pieces belong to transactions that were committed.
pub open spec fn whole(ps: Seq<Piece>, n: nat) -> nat
    decreases n,
{
    if n == 0 {
        0
    } else if ps[n - 1] is Commit {
        n
    } else {
        whole(ps, (n - 1) as nat)
    }
}

/// A revocation holds for a write: it is of the same block, and was made in the
/// same transaction or a later one, as far as numbers that go round can tell.
pub open spec fn revoked_by(r: Revoke, w: ReplayEntry) -> bool {
    r.block == w.fs_block && (r.sequence - w.transaction) % 0x1_0000_0000 < 0x8000_0000
}

/// The writes that a replay of a log has to make: those of every transaction that
/// was committed, in order, without those that were revoked in one.
pub open spec fn due_writes(jsb: JournalSuperblock, ps: Seq<Piece>) -> Seq<ReplayEntry> {
    let c = whole(ps, ps.len());
    let rs = revokes_upto(jsb, ps, c);
    writes_upto(jsb, ps, c).filter(
        |w: ReplayEntry| !(exists|i: int| 0 <= i < rs.len() && revoked_by(#[trigger] rs[i], w)),
    )
}

// -- reading it -------------------------------------------------------------

/// The tags that are read from a descriptor are those that it holds.
proof fn lemma_tags(jsb: JournalSuperblock, b: Seq<u8>, at: int, tags: Seq<Tag>)
    requires
        tags_stored(jsb, b, at, tags),
    ensures
        tags_from(jsb, b, at) == tags,
    decreases tags.len(),
{
    assert(tag_size(jsb) == tag_bytes(jsb));
    if tags.len() == 0 {
        assert(tags =~= Seq::empty());
    } else {
        let t = tags[0];
        let read = tag_at(jsb, b, at);
        assert(read.block == t.block);
        assert(read.flags == t.flags);
        if t.flags & 0x8 != 0 {
            assert(seq![read] =~= tags);
        } else {
            let next = at + tag_step(jsb, t);
            lemma_tags(jsb, b, next, tags.drop_first());
            assert(seq![read] + tags.drop_first() =~= tags);
        }
    }
}

proof fn lemma_ring(jsb: JournalSuperblock, k: int, m: int)
    requires
        jsb.first < jsb.max_len,
    ensures
        log_next(jsb, ring_block(jsb, k), m) == ring_block(jsb, k + m),
        0 <= ring_block(jsb, k) <= u32::MAX,
{
    let ring = jsb.max_len - jsb.first;
    vstd::arithmetic::div_mod::lemma_add_mod_noop(jsb.start - jsb.first + k, m, ring);
    vstd::arithmetic::div_mod::lemma_mod_twice(jsb.start - jsb.first + k, ring);
    vstd::arithmetic::div_mod::lemma_add_mod_noop((jsb.start - jsb.first + k) % ring, m, ring);
}

proof fn lemma_commits(ps: Seq<Piece>, n: nat)
    ensures
        0 <= commits(ps, n) <= n,
        0 <= taken(ps, n),
        whole(ps, n) <= n,
    decreases n,
{
    if n > 0 {
        lemma_commits(ps, (n - 1) as nat);
    }
}

/// Where the reading of a log is before piece `n`.
spec fn read_upto(jsb: JournalSuperblock, ps: Seq<Piece>, n: nat, l: Log) -> bool {
    let c = whole(ps, n);
    &&& l.at == ring_block(jsb, taken(ps, n))
    &&& l.sequence == transaction_of(jsb, ps, n)
    &&& l.plan.writes == writes_upto(jsb, ps, c)
    &&& l.plan.revoked == revokes_upto(jsb, ps, c)
    &&& writes_upto(jsb, ps, n) == l.plan.writes + l.pending
    &&& revokes_upto(jsb, ps, n) == l.plan.revoked + l.revokes
    &&& l.plan.last_commit == (if c == 0 {
        0int
    } else {
        transaction_of(jsb, ps, (c - 1) as nat)
    })
}

/// A log read one piece further.
proof fn lemma_piece(v: Vol, raw: Seq<u8>, jsb: JournalSuperblock, ps: Seq<Piece>, n: nat, l: Log)
    requires
        n < ps.len(),
        jsb.first < jsb.max_len,
        piece_stored(v, raw, jsb, ps, n as int),
        read_upto(jsb, ps, n, l),
    ensures
        log_step(v, raw, jsb, l) is Ok,
        log_step(v, raw, jsb, l)->Ok_0 is Some,
        read_upto(jsb, ps, (n + 1) as nat, log_step(v, raw, jsb, l)->Ok_0->Some_0),
{
    let b = log_block(v, raw, l.at)->Ok_0;
    let k = taken(ps, n);
    lemma_commits(ps, n);
    lemma_ring(jsb, k, piece_len(ps[n as int]));
    let next = log_step(v, raw, jsb, l)->Ok_0->Some_0;
    match ps[n as int] {
        Piece::Blocks(tags) => {
            lemma_tags(jsb, b, 12, tags);
            let here = writes_in(jsb, ps, n as int);
            let read = tagged(jsb, l, tags);
            assert forall|j: int| 0 <= j < tags.len() implies #[trigger] read[j] == here[j] by {
                lemma_ring(jsb, k, 1 + j);
            }
            assert(read =~= here);
            assert(l.plan.writes + (l.pending + here) =~= (l.plan.writes + l.pending) + here);
            assert(revokes_upto(jsb, ps, n) + Seq::<Revoke>::empty() =~= revokes_upto(jsb, ps, n));
        },
        Piece::Revokes(bs) => {
            let rs = revokes_in(jsb, b, l.sequence)->Ok_0;
            let here = revokes_of(jsb, ps, n as int);
            assert(rs.len() == bs.len());
            assert forall|j: int| 0 <= j < bs.len() implies #[trigger] rs[j] == here[j] by {
                assert(bs[j] == bs[j]);
            }
            assert(rs =~= here);
            assert(l.plan.revoked + (l.revokes + here) =~= (l.plan.revoked + l.revokes) + here);
            assert(writes_upto(jsb, ps, n) + Seq::<ReplayEntry>::empty() =~= writes_upto(jsb, ps, n));
        },
        Piece::Commit => {
            assert(writes_upto(jsb, ps, n) + Seq::<ReplayEntry>::empty() =~= writes_upto(jsb, ps, n));
            assert(revokes_upto(jsb, ps, n) + Seq::<Revoke>::empty() =~= revokes_upto(jsb, ps, n));
            assert(next.plan.writes + Seq::<ReplayEntry>::empty() =~= next.plan.writes);
            assert(next.plan.revoked + Seq::<Revoke>::empty() =~= next.plan.revoked);
            let s = jsb.sequence + commits(ps, n);
            vstd::arithmetic::div_mod::lemma_add_mod_noop(s, 1, 0x1_0000_0000);
        },
    }
}

/// A log read to its end.
proof fn lemma_read(v: Vol, raw: Seq<u8>, jsb: JournalSuperblock, ps: Seq<Piece>, n: nat, l: Log, fuel: nat)
    requires
        log_stored(v, raw, jsb, ps),
        n <= ps.len(),
        fuel == jsb.max_len - jsb.first - n,
        read_upto(jsb, ps, n, l),
    ensures
        log_plan(v, raw, jsb, l, fuel) is Ok,
        ({
            let p = log_plan(v, raw, jsb, l, fuel)->Ok_0;
            let c = whole(ps, ps.len());
            &&& p.writes == writes_upto(jsb, ps, c)
            &&& p.revoked == revokes_upto(jsb, ps, c)
            &&& p.last_commit == (if c == 0 {
                0int
            } else {
                transaction_of(jsb, ps, (c - 1) as nat)
            })
        }),
    decreases fuel,
{
    if n < ps.len() {
        assert(piece_stored(v, raw, jsb, ps, n as int));
        lemma_piece(v, raw, jsb, ps, n, l);
        let next = log_step(v, raw, jsb, l)->Ok_0->Some_0;
        lemma_read(v, raw, jsb, ps, (n + 1) as nat, next, (fuel - 1) as nat);
    }
}

/// Dropping what is revoked.
proof fn lemma_unvoided(ws: Seq<ReplayEntry>, rs: Seq<Revoke>)
    ensures
        unvoided(ws, rs) == ws.filter(
            |w: ReplayEntry| !(exists|i: int| 0 <= i < rs.len() && revoked_by(#[trigger] rs[i], w)),
        ),
    decreases ws.len(),
{
    let left = |w: ReplayEntry| !(exists|i: int| 0 <= i < rs.len() && revoked_by(#[trigger] rs[i], w));
    reveal(Seq::filter);
    if ws.len() == 0 {
        assert(ws.filter(left) =~= Seq::empty());
    } else {
        lemma_unvoided(ws.drop_last(), rs);
        let w = ws.last();
        if voided(rs, w) {
            let i = choose|i: int| 0 <= i < rs.len() && voids(#[trigger] rs[i], w);
            assert(revoked_by(rs[i], w));
        }
        if exists|i: int| 0 <= i < rs.len() && revoked_by(#[trigger] rs[i], w) {
            let i = choose|i: int| 0 <= i < rs.len() && revoked_by(#[trigger] rs[i], w);
            assert(voids(rs[i], w));
        }
        assert(left(w) == !voided(rs, w));
    }
}

/// Reading a journal's log gives the writes of all its committed transactions,
/// in order, but for those that were revoked, and the number of the last of
/// them. What follows the last commit counts for nothing.
pub proof fn law_log_is_read_in_full(v: Vol, raw: Seq<u8>, jsb: JournalSuperblock, ps: Seq<Piece>)
    requires
        log_stored(v, raw, jsb, ps),
    ensures
        ({
            let c = whole(ps, ps.len());
            &&& walked(v, raw, jsb) is Ok
            &&& walked(v, raw, jsb)->Ok_0.writes == due_writes(jsb, ps)
            &&& walked(v, raw, jsb)->Ok_0.revoked == revokes_upto(jsb, ps, c)
            &&& walked(v, raw, jsb)->Ok_0.last_commit == (if c == 0 {
                0int
            } else {
                transaction_of(jsb, ps, (c - 1) as nat)
            })
        }),
{
    let start = log_start(jsb);
    let ring = jsb.max_len - jsb.first;
    assert(ring_block(jsb, 0) == jsb.start) by {
        vstd::arithmetic::div_mod::lemma_small_mod((jsb.start - jsb.first) as nat, ring as nat);
    }
    assert(transaction_of(jsb, ps, 0) == jsb.sequence) by {
        vstd::arithmetic::div_mod::lemma_small_mod(jsb.sequence as nat, 0x1_0000_0000);
    }
    assert(start.plan.writes + start.pending =~= Seq::<ReplayEntry>::empty());
    assert(start.plan.revoked + start.revokes =~= Seq::<Revoke>::empty());
    assert(start.plan.writes =~= Seq::<ReplayEntry>::empty());
    assert(start.plan.revoked =~= Seq::<Revoke>::empty());
    assert(read_upto(jsb, ps, 0, start));
    lemma_read(v, raw, jsb, ps, 0, start, ring as nat);
    let c = whole(ps, ps.len());
    lemma_unvoided(writes_upto(jsb, ps, c), revokes_upto(jsb, ps, c));
}

// -- carrying it out --------------------------------------------------------

/// A journaled block as it belongs on the volume: one that began with the
/// journal's own mark was stored without it, and gets it back.
pub open spec fn with_its_mark(b: Seq<u8>, flags: u32) -> Seq<u8> {
    if flags & 0x1 != 0 {
        put_be32(b, 0, 0xC03B_3998)
    } else {
        b
    }
}

/// Write `k` of some is the last of them that is for its block.
pub open spec fn last_for_block(ws: Seq<ReplayEntry>, k: int) -> bool {
    &&& 0 <= k < ws.len()
    &&& forall|j: int| k < j < ws.len() ==> (#[trigger] ws[j]).fs_block != ws[k].fs_block
}

/// What the last write for a block leaves there.
proof fn lemma_last_stays(v: Vol, raw: Seq<u8>, ws: Seq<ReplayEntry>, k: int, n: nat)
    requires
        last_for_block(ws, k),
        k < n <= ws.len(),
    ensures
        block_after(v, raw, ws, n, ws[k].fs_block as int) == Ok::<Seq<u8>, Error>(
            unescaped(block_at(v.img, v.bs(), source_of(v, raw, ws[k]))->Ok_0, ws[k].flags),
        ),
    decreases n,
{
    if n > k + 1 {
        assert(ws[n - 1].fs_block != ws[k].fs_block);
        lemma_last_stays(v, raw, ws, k, (n - 1) as nat);
    }
}

/// A block that no write is for stays.
proof fn lemma_none_stays(v: Vol, raw: Seq<u8>, ws: Seq<ReplayEntry>, b: int, n: nat)
    requires
        n <= ws.len(),
        forall|j: int| 0 <= j < ws.len() ==> (#[trigger] ws[j]).fs_block != b,
    ensures
        block_after(v, raw, ws, n, b) == block_at(v.img, v.bs(), b),
    decreases n,
{
    if n > 0 {
        assert(ws[n - 1].fs_block != b);
        lemma_none_stays(v, raw, ws, b, (n - 1) as nat);
    }
}

/// A volume whose journal holds a log that is to be replayed.
pub open spec fn log_due(v: Vol, jsb: JournalSuperblock, raw: Seq<u8>, ps: Seq<Piece>) -> bool {
    &&& v.wf()
    &&& journal_super(v) is Ok
    &&& journal_super(v)->Ok_0 is Some
    &&& jsb.decodes(journal_super(v)->Ok_0->Some_0)
    &&& jsb.start != 0
    &&& journal_record(v) == Ok::<Seq<u8>, Error>(raw)
    &&& log_stored(v, raw, jsb, ps)
    &&& due_writes(jsb, ps).len() <= usize::MAX
    &&& due_writes(jsb, ps).len() > 0 ==> sources_stand(v, raw, due_writes(jsb, ps))
}

/// The block that holds the journal superblock, once the writes of a log have
/// been made.
pub open spec fn journal_front(v: Vol, ws: Seq<ReplayEntry>) -> int {
    let v1 = applied(true, v, ws).0;
    file_block(v1, journal_record(v1)->Ok_0, 0)->Ok_0->Some_0 as int
}

/// The last steps of a replay leave every block but the journal's first and the
/// superblock's.
proof fn lemma_wound_up_beside(v: Vol, jsb: JournalSuperblock, last: u32, n: usize, k: int)
    requires
        v.wf(),
        wound_up(v, jsb, last, n).1 is Ok,
        k >= 0,
        k != super_block(v.sb),
        k != file_block(v, journal_record(v)->Ok_0, 0)->Ok_0->Some_0,
    ensures
        block_at(wound_up(v, jsb, last, n).0.img, v.bs(), k) == block_at(v.img, v.bs(), k),
        wound_up(v, jsb, last, n).1 == Ok::<usize, Error>(n),
{
    let bs = v.bs();
    let p = file_block(v, journal_record(v)->Ok_0, 0)->Ok_0->Some_0;
    let at = p * bs;
    let v1 = journal_cleaned(v, jsb, last)->Ok_0;
    let b = v.img.subrange(at, at + 1024);
    let put = log_emptied(b, next_sequence(jsb, last), jsb.csum_v2() || jsb.csum_v3());
    assert(put.len() == 1024);
    lemma_within_block(v.img, bs, p as int, at, put, k);
    let sb = v1.img.subrange(1024, 2048);
    lemma_flagged_len(sb, false);
    crate::stage::lemma_super_place(v.sb);
    let n0 = super_block(v.sb);
    vstd::arithmetic::div_mod::lemma_fundamental_div_mod(1024, bs);
    vstd::arithmetic::mul::lemma_mul_is_commutative(n0, bs);
    lemma_within_block(v1.img, bs, n0, 1024, recovery_flagged(sb, false), k);
}

/// A replay carries out every committed transaction: each block that one of them
/// wrote, and that was not revoked, holds what the last of them wrote to it, and
/// the answer is how many writes that took. Every other block is as it was, but
/// for those with the journal's superblock and the volume's.
pub proof fn law_replay_carries_out_the_log(v: Vol, jsb: JournalSuperblock, raw: Seq<u8>, ps: Seq<Piece>, b: int)
    requires
        log_due(v, jsb, raw, ps),
        replayed(true, v).1 is Ok,
        b >= 0,
        b != super_block(v.sb),
        b != journal_front(v, due_writes(jsb, ps)),
    ensures
        ({
            let ws = due_writes(jsb, ps);
            let (w, r) = replayed(true, v);
            &&& r->Ok_0 == ws.len()
            &&& forall|k: int|
                #[trigger] last_for_block(ws, k) && ws[k].fs_block == b ==> log_block(v, raw, ws[k].journal_block as int) is Ok
                    && block_at(w.img, v.bs(), b) == Ok::<Seq<u8>, Error>(
                    with_its_mark(log_block(v, raw, ws[k].journal_block as int)->Ok_0, ws[k].flags),
                )
            &&& (forall|j: int| 0 <= j < ws.len() ==> (#[trigger] ws[j]).fs_block != b) ==> block_at(w.img, v.bs(), b)
                == block_at(v.img, v.bs(), b)
        }),
{
    law_log_is_read_in_full(v, raw, jsb, ps);
    lemma_carried_out(v, jsb, raw, due_writes(jsb, ps), b);
}

/// The same for the writes that are read from the log.
proof fn lemma_carried_out(v: Vol, jsb: JournalSuperblock, raw: Seq<u8>, ws: Seq<ReplayEntry>, b: int)
    requires
        v.wf(),
        journal_super(v) is Ok,
        journal_super(v)->Ok_0 is Some,
        jsb.decodes(journal_super(v)->Ok_0->Some_0),
        jsb.start != 0,
        journal_record(v) == Ok::<Seq<u8>, Error>(raw),
        walked(v, raw, jsb) is Ok,
        walked(v, raw, jsb)->Ok_0.writes == ws,
        ws.len() <= usize::MAX,
        ws.len() > 0 ==> sources_stand(v, raw, ws),
        replayed(true, v).1 is Ok,
        b >= 0,
        b != super_block(v.sb),
        b != journal_front(v, ws),
    ensures
        ({
            let (w, r) = replayed(true, v);
            &&& r->Ok_0 == ws.len()
            &&& forall|k: int|
                #[trigger] last_for_block(ws, k) && ws[k].fs_block == b ==> log_block(v, raw, ws[k].journal_block as int) is Ok
                    && block_at(w.img, v.bs(), b) == Ok::<Seq<u8>, Error>(
                    with_its_mark(log_block(v, raw, ws[k].journal_block as int)->Ok_0, ws[k].flags),
                )
            &&& (forall|j: int| 0 <= j < ws.len() ==> (#[trigger] ws[j]).fs_block != b) ==> block_at(w.img, v.bs(), b)
                == block_at(v.img, v.bs(), b)
        }),
{
    let last = walked(v, raw, jsb)->Ok_0.last_commit;
    lemma_replay_steps(v, jsb, raw, ws);
    let (v1, r1) = applied(true, v, ws);
    let w = replayed(true, v).0;
    law_journaled_blocks_are_carried(v, ws, b);
    lemma_applied_sb(v, ws);
    lemma_wound_up_beside(v1, jsb, last, r1->Ok_0, b);
    assert(block_at(w.img, v.bs(), b) == block_after(v, raw, ws, ws.len(), b));
    assert forall|k: int| #[trigger] last_for_block(ws, k) && ws[k].fs_block == b implies log_block(
        v,
        raw,
        ws[k].journal_block as int,
    ) is Ok && block_at(w.img, v.bs(), b) == Ok::<Seq<u8>, Error>(
        with_its_mark(log_block(v, raw, ws[k].journal_block as int)->Ok_0, ws[k].flags),
    ) by {
        lemma_last_written(v, raw, ws, k);
    }
    if forall|j: int| 0 <= j < ws.len() ==> (#[trigger] ws[j]).fs_block != b {
        lemma_none_stays(v, raw, ws, b, ws.len());
    }
}

/// The steps of a replay.
proof fn lemma_replay_steps(v: Vol, jsb: JournalSuperblock, raw: Seq<u8>, ws: Seq<ReplayEntry>)
    requires
        journal_super(v) is Ok,
        journal_super(v)->Ok_0 is Some,
        jsb.decodes(journal_super(v)->Ok_0->Some_0),
        jsb.start != 0,
        journal_record(v) == Ok::<Seq<u8>, Error>(raw),
        walked(v, raw, jsb) is Ok,
        walked(v, raw, jsb)->Ok_0.writes == ws,
        replayed(true, v).1 is Ok,
    ensures
        applied(true, v, ws).1 is Ok,
        replayed(true, v) == wound_up(
            applied(true, v, ws).0,
            jsb,
            walked(v, raw, jsb)->Ok_0.last_commit,
            applied(true, v, ws).1->Ok_0,
        ),
{
    lemma_journal_super_in(journal_super(v)->Ok_0->Some_0, jsb);
    assert(replayed(true, v) == replayed_log(true, v, jsb));
}

/// Making the writes of a plan changes the image alone.
proof fn lemma_applied_sb(v: Vol, ws: Seq<ReplayEntry>)
    requires
        v.wf(),
        applied(true, v, ws).1 is Ok,
    ensures
        applied(true, v, ws).0.sb == v.sb,
        applied(true, v, ws).0.wf(),
{
    if ws.len() > 0 {
        let places = resolved(v, journal_record(v)->Ok_0, ws)->Ok_0;
        crate::journal_apply::lemma_carried_len(v.img, v.bs(), ws, places, ws.len());
    }
}

/// The block of the journal that the last write for a block is in.
proof fn lemma_last_written(v: Vol, raw: Seq<u8>, ws: Seq<ReplayEntry>, k: int)
    requires
        v.wf(),
        last_for_block(ws, k),
        journal_record(v) == Ok::<Seq<u8>, Error>(raw),
        applied(true, v, ws).1 is Ok,
    ensures
        log_block(v, raw, ws[k].journal_block as int) is Ok,
        block_after(v, raw, ws, ws.len(), ws[k].fs_block as int) == Ok::<Seq<u8>, Error>(
            with_its_mark(log_block(v, raw, ws[k].journal_block as int)->Ok_0, ws[k].flags),
        ),
{
    lemma_places(v, raw, ws, k);
    lemma_each_resolved(v, raw, ws, k);
    lemma_last_stays(v, raw, ws, k, ws.len());
}

/// Where all writes have their places, each has.
proof fn lemma_each_resolved(v: Vol, raw: Seq<u8>, ws: Seq<ReplayEntry>, i: int)
    requires
        resolved(v, raw, ws) is Ok,
        0 <= i < ws.len(),
    ensures
        resolved_one(v, raw, ws[i]) is Ok,
    decreases ws.len(),
{
    if i < ws.len() - 1 {
        assert(ws.drop_last()[i] == ws[i]);
        lemma_each_resolved(v, raw, ws.drop_last(), i);
    }
}

} // verus!
