//! What a replay leaves on the volume.
use crate::block_io::{block_at, lemma_with_block, read_range};
use crate::bytes::{be32, le32, put32, splice};
use crate::checksum::raw_crc;
use crate::content_laws::lemma_blocks_reach;
use crate::dirops::dir_blocks;
use crate::error::Error;
use crate::features::{has, INCOMPAT_RECOVER, RO_COMPAT_METADATA_CSUM};
use crate::fs::file_block;
use crate::inode::size_of_file;
use crate::jbd2::{journal_record, journal_super, JournalSuperblock};
use crate::journal::{walked, ReplayEntry};
use crate::mount::journal_is_clean;
use crate::journal_apply::{
    applied, carried, journal_cleaned, law_recovery_flag, journal_super_in, log_emptied, next_sequence, place_of, recovery_flagged, replayed,
    resolved, resolved_one, unescaped, with_recovery, wound_up,
};
use crate::reach_laws::{beside, lemma_map_beside, lemma_record_beside, map_clear, record_clear};
use crate::stage::{lemma_super_place, super_block, super_off};
use crate::volume::Vol;
use vstd::prelude::*;

verus! {

broadcast use crate::bytes::group_fields;

/// The device block that a journaled block is in.
pub open spec fn source_of(v: Vol, raw: Seq<u8>, w: ReplayEntry) -> int {
    file_block(v, raw, w.journal_block as int)->Ok_0->Some_0 as int
}

/// What block `k` holds once the first `n` writes are made: what the last of
/// them that is for it has in the journal, or what it held.
pub open spec fn block_after(v: Vol, raw: Seq<u8>, writes: Seq<ReplayEntry>, n: nat, k: int) -> crate::error::Result<
    Seq<u8>,
>
    decreases n,
{
    if n == 0 {
        block_at(v.img, v.bs(), k)
    } else if writes[n - 1].fs_block == k {
        Ok(
            unescaped(
                block_at(v.img, v.bs(), source_of(v, raw, writes[n - 1]))->Ok_0,
                writes[n - 1].flags,
            ),
        )
    } else {
        block_after(v, raw, writes, (n - 1) as nat, k)
    }
}

/// No write is for a block that the journal has another write in.
pub open spec fn sources_stand(v: Vol, raw: Seq<u8>, writes: Seq<ReplayEntry>) -> bool {
    forall|i: int, j: int|
        0 <= i < writes.len() && 0 <= j < writes.len() ==> (#[trigger] writes[i]).fs_block != source_of(
            v,
            raw,
            #[trigger] writes[j],
        )
}

/// Every write has its place, at either end.
pub(crate) proof fn lemma_places(v: Vol, raw: Seq<u8>, writes: Seq<ReplayEntry>, i: int)
    requires
        v.wf(),
        resolved(v, raw, writes) is Ok,
        0 <= i < writes.len(),
    ensures
        resolved(v, raw, writes)->Ok_0.len() == writes.len(),
        ({
            let (source, target) = resolved(v, raw, writes)->Ok_0[i];
            &&& source == source_of(v, raw, writes[i]) * v.bs()
            &&& target == writes[i].fs_block * v.bs()
            &&& block_at(v.img, v.bs(), source_of(v, raw, writes[i])) is Ok
            &&& block_at(v.img, v.bs(), writes[i].fs_block as int) is Ok
        }),
    decreases writes.len(),
{
    let front = writes.drop_last();
    if front.len() > 0 {
        lemma_places(v, raw, front, if i < front.len() {
            i
        } else {
            0
        });
    }
    if i == writes.len() - 1 {
        assert(resolved_one(v, raw, writes.last()) is Ok);
        assert(resolved(v, raw, front)->Ok_0.len() == front.len()) by {
            if front.len() == 0 {
                assert(resolved(v, raw, front)->Ok_0 =~= Seq::empty());
            }
        }
    } else {
        assert(front[i] == writes[i]);
    }
}

proof fn lemma_carried(v: Vol, raw: Seq<u8>, writes: Seq<ReplayEntry>, n: nat, k: int)
    requires
        v.wf(),
        resolved(v, raw, writes) is Ok,
        sources_stand(v, raw, writes),
        n <= writes.len(),
        k >= 0,
    ensures
        ({
            let img = carried(v.img, v.bs(), writes, resolved(v, raw, writes)->Ok_0, n);
            &&& img.len() == v.img.len()
            &&& block_at(img, v.bs(), k) == block_after(v, raw, writes, n, k)
        }),
    decreases n,
{
    if n > 0 {
        let bs = v.bs();
        let places = resolved(v, raw, writes)->Ok_0;
        let w = writes[n - 1];
        let from = source_of(v, raw, w);
        let to = w.fs_block as int;
        lemma_places(v, raw, writes, n - 1);
        lemma_carried(v, raw, writes, (n - 1) as nat, k);
        lemma_carried(v, raw, writes, (n - 1) as nat, from);
        lemma_untouched(v, raw, writes, (n - 1) as nat, n - 1);
        let before = carried(v.img, bs, writes, places, (n - 1) as nat);
        let b = block_at(before, bs, from)->Ok_0;
        let (source, target) = places[n - 1];
        assert(before.subrange(source as int, source + bs) =~= b);
        let put = unescaped(b, w.flags);
        assert(put.len() == bs);
        lemma_with_block(before, bs, to, put, k);
        assert(splice(before, target as int, put) == crate::block_io::with_block(before, bs, to, put));
    }
}

/// A journaled block is as it was until it is carried.
proof fn lemma_untouched(v: Vol, raw: Seq<u8>, writes: Seq<ReplayEntry>, n: nat, j: int)
    requires
        sources_stand(v, raw, writes),
        n <= writes.len(),
        0 <= j < writes.len(),
    ensures
        block_after(v, raw, writes, n, source_of(v, raw, writes[j])) == block_at(
            v.img,
            v.bs(),
            source_of(v, raw, writes[j]),
        ),
    decreases n,
{
    if n > 0 {
        assert(writes[n - 1].fs_block != source_of(v, raw, writes[j]));
        lemma_untouched(v, raw, writes, (n - 1) as nat, j);
    }
}

/// A replay carries every journaled block to its place, the last one where
/// several are for the same block, and touches no other block.
pub proof fn law_journaled_blocks_are_carried(v: Vol, writes: Seq<ReplayEntry>, k: int)
    requires
        v.wf(),
        applied(true, v, writes).1 is Ok,
        writes.len() > 0 ==> sources_stand(v, journal_record(v)->Ok_0, writes),
        writes.len() <= usize::MAX,
        k >= 0,
    ensures
        ({
            let (w, r) = applied(true, v, writes);
            &&& r == Ok::<usize, Error>(writes.len() as usize)
            &&& w.img.len() == v.img.len()
            &&& block_at(w.img, v.bs(), k) == block_after(v, journal_record(v)->Ok_0, writes, writes.len(), k)
        }),
{
    if writes.len() > 0 {
        lemma_carried(v, journal_record(v)->Ok_0, writes, writes.len(), k);
    }
}

// -- a journal that is done with --------------------------------------------

/// Bytes put within one block change no other.
pub(crate) proof fn lemma_within_block(img: Seq<u8>, bs: int, n: int, at: int, b: Seq<u8>, k: int)
    requires
        bs > 0,
        0 <= n,
        0 <= k,
        n * bs <= at,
        at + b.len() <= n * bs + bs,
        at + b.len() <= img.len(),
    ensures
        splice(img, at, b).len() == img.len(),
        k != n ==> block_at(splice(img, at, b), bs, k) == block_at(img, bs, k),
        block_at(img, bs, n) is Ok ==> block_at(splice(img, at, b), bs, n) == Ok::<Seq<u8>, Error>(
            splice(block_at(img, bs, n)->Ok_0, at - n * bs, b),
        ),
{
    let out = splice(img, at, b);
    assert(n * bs >= 0 && k * bs >= 0) by (nonlinear_arith)
        requires
            n >= 0,
            k >= 0,
            bs > 0,
    ;
    if k != n && k * bs + bs <= img.len() {
        assert(k * bs + bs <= n * bs || n * bs + bs <= k * bs) by (nonlinear_arith)
            requires
                k != n,
                bs > 0,
        ;
        assert(out.subrange(k * bs, k * bs + bs) =~= img.subrange(k * bs, k * bs + bs));
    }
    if block_at(img, bs, n) is Ok {
        assert(out.subrange(n * bs, n * bs + bs) =~= splice(block_at(img, bs, n)->Ok_0, at - n * bs, b));
    }
}

/// A journal superblock with its log emptied has no log to replay, and is
/// otherwise what it was.
proof fn lemma_emptied(b: Seq<u8>, sequence: u32, summed: bool)
    requires
        b.len() == 1024,
    ensures
        ({
            let out = log_emptied(b, sequence, summed);
            &&& out.len() == 1024
            &&& be32(out, 0x1C) == 0
            &&& be32(out, 0x18) == sequence
            &&& be32(out, 0) == be32(b, 0)
            &&& be32(out, 4) == be32(b, 4)
        }),
{
}

/// The blocks that the end of a replay leaves alone.
pub open spec fn settled(v: Vol, p: u64) -> spec_fn(int) -> bool {
    |k: int| k >= 0 && k != p && k != super_block(v.sb)
}

/// The journal is found where it was: its record, and where its first block
/// is, are the same on `w` as on `v`, and on `v` that block is a journal's.
///
/// This is what a replay rests on to be over once it is wound up. It is not so
/// on an image whose journal record lies in the first 1024 bytes of the
/// journal's own first block: to empty the log is to write the next sequence
/// number and a zero into that record, which may then name no block, or
/// another. Nor is it so where a journaled block is for the block that holds
/// the record, the map or the journal's superblock.
pub open spec fn journal_stays(v: Vol, w: Vol) -> bool {
    v.sb.journal_inode != 0 ==> {
        let raw = journal_record(v);
        &&& journal_super(v) is Ok
        &&& journal_record(w) == raw
        &&& file_block(w, raw->Ok_0, 0) == file_block(v, raw->Ok_0, 0)
    }
}

/// What a replay puts at the front of the journal stays there when the flag is
/// cleared.
proof fn lemma_front_put(v: Vol, w: Vol, p: u64, put: Seq<u8>)
    requires
        v.wf(),
        put.len() == 1024,
        block_at(v.img, v.bs(), p as int) is Ok,
        with_recovery(Vol { img: splice(v.img, p * v.bs(), put), ..v }, false) == Ok::<Vol, Error>(w),
    ensures
        w.block(p as int) is Ok,
        w.block(p as int)->Ok_0.len() == v.bs(),
        forall|i: int| 0 <= i < 0x60 ==> #[trigger] w.block(p as int)->Ok_0[i] == put[i],
{
    let bs = v.bs();
    let at = p * bs;
    let inner = splice(v.img, at, put);
    let sb = inner.subrange(1024, 2048);
    let flagged = recovery_flagged(sb, false);
    lemma_flagged_len(sb, false);
    assert(at == 0 || at == 1024 || at >= 2048) by (nonlinear_arith)
        requires
            at == p * bs,
            p >= 0,
            bs == 1024 || bs >= 2048,
    ;
    assert forall|i: int| 0 <= i < 0x60 implies #[trigger] w.block(p as int)->Ok_0[i] == put[i] by {
        assert(w.block(p as int)->Ok_0[i] == w.img[at + i]);
        assert(inner[at + i] == put[i]);
        if at == 1024 {
            assert(w.img[at + i] == flagged[i]);
            assert(flagged[i] == sb[i]);
        }
    }
}

/// Clearing a flag that is clear changes nothing.
proof fn lemma_cleared_twice(sb: Seq<u8>)
    requires
        sb.len() == 1024,
    ensures
        recovery_flagged(recovery_flagged(sb, false), false) == recovery_flagged(sb, false),
{
    let once = recovery_flagged(sb, false);
    let bits = le32(sb, 0x60);
    assert((bits & !4u32) & !4u32 == bits & !4u32) by (bit_vector);
    lemma_flagged_len(sb, false);
    assert(le32(once, 0x60) == bits & !4u32);
    lemma_put_same(once, 0x60);
    if has(le32(sb, 0x64), RO_COMPAT_METADATA_CSUM) {
        let flagged = put32(sb, 0x60, bits & !4u32);
        let crc = raw_crc(0xFFFF_FFFF, flagged.subrange(0, 0x3FC));
        assert(once.subrange(0, 0x3FC) =~= flagged.subrange(0, 0x3FC));
        assert(le32(once, 0x3FC) == crc);
        lemma_put_same(once, 0x3FC);
    }
}

/// A field stored over itself.
proof fn lemma_put_same(s: Seq<u8>, i: int)
    requires
        0 <= i,
        i + 4 <= s.len(),
    ensures
        put32(s, i, le32(s, i)) == s,
{
    reveal(put32);
    reveal(le32);
    assert(put32(s, i, le32(s, i)) =~= s);
}

/// Clearing the flag again leaves the volume as it is.
proof fn lemma_recovery_cleared(v: Vol, w: Vol)
    requires
        with_recovery(v, false) == Ok::<Vol, Error>(w),
    ensures
        with_recovery(w, false) == Ok::<Vol, Error>(w),
        has(le32(w.img.subrange(1024, 2048), 0x60), INCOMPAT_RECOVER) == false,
{
    let sb = v.img.subrange(1024, 2048);
    let once = recovery_flagged(sb, false);
    lemma_flagged_len(sb, false);
    lemma_cleared_twice(sb);
    law_recovery_flag(sb, false);
    assert(w.img.subrange(1024, 2048) =~= once);
    assert(splice(w.img, 1024, once) =~= w.img);
}

/// Once a replay is wound up its journal is clean: the log is empty, the next
/// transaction is the one after the last that was replayed, and the flag is
/// clear. The journal is found where it was.
#[verifier::rlimit(40)]
pub proof fn law_wound_up_journal_is_clean(v: Vol, jsb: JournalSuperblock, last_commit: u32, n: usize)
    requires
        v.wf(),
        wound_up(v, jsb, last_commit, n).1 is Ok,
        v.sb.journal_inode != 0,
        journal_stays(v, wound_up(v, jsb, last_commit, n).0),
    ensures
        ({
            let w = wound_up(v, jsb, last_commit, n).0;
            &&& journal_super(w) is Ok
            &&& journal_super(w)->Ok_0 is Some
            &&& be32(journal_super(w)->Ok_0->Some_0, 0x1C) == 0
            &&& be32(journal_super(w)->Ok_0->Some_0, 0x18) == next_sequence(jsb, last_commit)
            &&& has(le32(w.img.subrange(1024, 2048), 0x60), INCOMPAT_RECOVER) == false
            &&& with_recovery(w, false) == Ok::<Vol, Error>(w)
        }),
{
    let raw = journal_record(v)->Ok_0;
    let p = file_block(v, raw, 0)->Ok_0->Some_0;
    let at = place_of(v, p)->Ok_0;
    let b = v.img.subrange(at as int, at + 1024);
    let summed = jsb.csum_v2() || jsb.csum_v3();
    let put = log_emptied(b, next_sequence(jsb, last_commit), summed);
    lemma_emptied(b, next_sequence(jsb, last_commit), summed);
    let v1 = journal_cleaned(v, jsb, last_commit)->Ok_0;
    let w = wound_up(v, jsb, last_commit, n).0;
    lemma_front_put(v, w, p, put);
    lemma_recovery_cleared(v1, w);
    let old = block_at(v.img, v.bs(), p as int)->Ok_0;
    let new = w.block(p as int)->Ok_0;
    assert(be32(b, 0) == be32(old, 0) && be32(b, 4) == be32(old, 4));
    lemma_front_words(new, put);
}

/// The front of a block decides what its first words are.
proof fn lemma_front_words(new: Seq<u8>, put: Seq<u8>)
    requires
        new.len() >= 1024,
        put.len() == 1024,
        forall|i: int| 0 <= i < 0x60 ==> #[trigger] new[i] == put[i],
    ensures
        be32(new, 0) == be32(put, 0),
        be32(new, 4) == be32(put, 4),
        be32(new, 0x18) == be32(put, 0x18),
        be32(new, 0x1C) == be32(put, 0x1C),
{
}

/// A replay does nothing where there is nothing to replay: on a device that
/// takes no writes, on a volume without a journal, and on one whose log is
/// empty, but that a flag left over beside an empty log is cleared.
pub proof fn law_nothing_to_replay_is_left_alone(writable: bool, v: Vol)
    requires
        !writable || journal_is_clean(v),
        read_range(v.img, 1024, 1024) is Ok,
    ensures
        replayed(writable, v).1 == Ok::<usize, Error>(0),
        !writable || v.sb.journal_inode == 0 || has(v.sb.feature_incompat, INCOMPAT_RECOVER) == false ==> replayed(writable, v).0
            == v,
        replayed(writable, v).0 == v || with_recovery(v, false) == Ok::<Vol, Error>(replayed(writable, v).0),
{
}

/// The volume once the journaled blocks are carried, where there are any.
pub open spec fn carried_out(v: Vol) -> Vol {
    if journal_is_clean(v) {
        v
    } else {
        let jsb = journal_super_in(journal_super(v)->Ok_0->Some_0);
        let plan = walked(v, journal_record(v)->Ok_0, jsb)->Ok_0;
        applied(true, v, plan.writes).0
    }
}

/// A replay that succeeded is over: to replay again finds nothing to do, returns
/// zero and changes nothing. On a device that takes writes the journal is then
/// clean, and the flag is clear if there was a replay or the mount saw it set; on
/// one that takes none, nothing was changed in the first place.
///
/// The journal is found where it was, which is asked only where writes go
/// through.
pub proof fn law_second_replay_finds_nothing(writable: bool, v: Vol)
    requires
        v.wf(),
        replayed(writable, v).1 is Ok,
        writable ==> journal_stays(carried_out(v), replayed(writable, v).0),
    ensures
        ({
            let w = replayed(writable, v).0;
            &&& replayed(writable, w) == (w, Ok::<usize, Error>(0))
            &&& !writable ==> w == v && replayed(writable, v).1 == Ok::<usize, Error>(0)
            &&& writable ==> journal_is_clean(w)
            &&& writable && v.sb.journal_inode != 0 && (!journal_is_clean(v) || has(
                v.sb.feature_incompat,
                INCOMPAT_RECOVER,
            )) ==> has(le32(w.img.subrange(1024, 2048), 0x60), INCOMPAT_RECOVER) == false
        }),
{
    let w = replayed(writable, v).0;
    if writable && v.sb.journal_inode != 0 {
        if journal_is_clean(v) {
            if has(v.sb.feature_incompat, INCOMPAT_RECOVER) {
                lemma_recovery_cleared(v, w);
                lemma_flag_beside_journal(v, w);
            }
        } else {
            let jsb = journal_super_in(journal_super(v)->Ok_0->Some_0);
            let plan = walked(v, journal_record(v)->Ok_0, jsb)->Ok_0;
            let (mid, r) = applied(true, v, plan.writes);
            if plan.writes.len() > 0 {
                crate::journal_apply::lemma_carried_len(
                    v.img,
                    v.bs(),
                    plan.writes,
                    resolved(v, journal_record(v)->Ok_0, plan.writes)->Ok_0,
                    plan.writes.len(),
                );
            }
            law_wound_up_journal_is_clean(mid, jsb, plan.last_commit, r->Ok_0);
        }
    }
}

/// A clean journal is clean once the flag is cleared.
proof fn lemma_flag_beside_journal(v: Vol, w: Vol)
    requires
        v.wf(),
        v.sb.journal_inode != 0,
        journal_is_clean(v),
        journal_stays(v, w),
        with_recovery(v, false) == Ok::<Vol, Error>(w),
    ensures
        journal_is_clean(w),
{
    let raw = journal_record(v)->Ok_0;
    let p = file_block(v, raw, 0)->Ok_0->Some_0;
    let old = v.block(p as int)->Ok_0;
    let front = old.subrange(0, 1024);
    assert(p * v.bs() >= 0) by (nonlinear_arith)
        requires
            p >= 0,
            v.bs() > 0,
    ;
    assert(splice(v.img, p * v.bs(), front) =~= v.img);
    lemma_front_put(v, w, p, front);
    lemma_front_words(w.block(p as int)->Ok_0, front);
}

/// A journal stays where it is when a replay of it is wound up, where neither
/// its record nor what leads to its first block is in that block or beside the
/// superblock.
pub proof fn law_journal_apart_stays(v: Vol, jsb: JournalSuperblock, last_commit: u32, n: usize)
    requires
        v.wf(),
        wound_up(v, jsb, last_commit, n).1 is Ok,
        journal_super(v) is Ok,
        v.sb.journal_inode != 0,
        journal_apart(v),
    ensures
        journal_stays(v, wound_up(v, jsb, last_commit, n).0),
{
    let raw = journal_record(v)->Ok_0;
    let p = file_block(v, raw, 0)->Ok_0->Some_0;
    let at = place_of(v, p)->Ok_0;
    let b = v.img.subrange(at as int, at + 1024);
    let summed = jsb.csum_v2() || jsb.csum_v3();
    let put = log_emptied(b, next_sequence(jsb, last_commit), summed);
    lemma_emptied(b, next_sequence(jsb, last_commit), summed);
    let v1 = journal_cleaned(v, jsb, last_commit)->Ok_0;
    let w = wound_up(v, jsb, last_commit, n).0;
    let sb = read_range(v1.img, 1024, 1024)->Ok_0;
    lemma_flagged_len(sb, false);
    lemma_two_edits(v, w, p, put, recovery_flagged(sb, false));
    let safe = settled(v, p);
    lemma_record_beside(v, w, safe, safe, Seq::empty(), v.sb.journal_inode);
    lemma_map_beside(v, w, safe, safe, Seq::empty(), raw);
    lemma_blocks_reach(size_of_file(raw) as int, v.bs(), 0);
    assert(dir_blocks(v, raw) > 0);
    assert(file_block(w, raw, 0) == file_block(v, raw, 0));
}

/// Neither the record of a journal nor what leads to its first block is in that
/// block or beside the superblock.
pub open spec fn journal_apart(v: Vol) -> bool {
    let raw = journal_record(v)->Ok_0;
    let p = file_block(v, raw, 0)->Ok_0->Some_0;
    &&& size_of_file(raw) > 0
    &&& p != super_block(v.sb)
    &&& record_clear(v, settled(v, p), Seq::empty(), v.sb.journal_inode)
    &&& map_clear(v, settled(v, p), raw)
}

pub(crate) proof fn lemma_flagged_len(sb: Seq<u8>, on: bool)
    requires
        sb.len() == 1024,
    ensures
        recovery_flagged(sb, on).len() == 1024,
{
}

/// One edit at the front of block `p`, one of the superblock.
proof fn lemma_two_edits(v: Vol, w: Vol, p: u64, put: Seq<u8>, flagged: Seq<u8>)
    requires
        v.wf(),
        put.len() == 1024,
        flagged.len() == 1024,
        p != super_block(v.sb),
        block_at(v.img, v.bs(), p as int) is Ok,
        v.img.len() >= 2048,
        w == (Vol { img: splice(splice(v.img, p * v.bs(), put), 1024, flagged), ..v }),
    ensures
        w.img.len() == v.img.len(),
        beside(v, w, settled(v, p), Seq::empty()),
        w.block(p as int) == Ok::<Seq<u8>, Error>(splice(block_at(v.img, v.bs(), p as int)->Ok_0, 0, put)),
{
    let bs = v.bs();
    let mid = splice(v.img, p * bs, put);
    let safe = settled(v, p);
    let home = super_block(v.sb);
    lemma_super_place(v.sb);
    vstd::arithmetic::div_mod::lemma_fundamental_div_mod(1024, bs);
    assert(home * bs + super_off(v.sb) == 1024) by (nonlinear_arith)
        requires
            1024 == bs * (1024int / bs) + 1024int % bs,
            home == 1024int / bs,
            super_off(v.sb) == 1024int % bs,
    ;
    assert forall|k: int| #[trigger] safe(k) implies block_at(w.img, bs, k) == block_at(v.img, bs, k) by {
        lemma_within_block(v.img, bs, p as int, p * bs, put, k);
        lemma_within_block(mid, bs, home, 1024, flagged, k);
    }
    lemma_within_block(v.img, bs, p as int, p * bs, put, p as int);
    lemma_within_block(mid, bs, home, 1024, flagged, p as int);
}

} // verus!
