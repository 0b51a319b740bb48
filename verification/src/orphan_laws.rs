//! What is on the orphan list, and what becomes of it.
use crate::allocator::blocks_for;
use crate::block_io::{block_at, lemma_with_block};
use crate::books::{books, books_apart, lemma_totals_booked};
use crate::bytes::{le32, put32};
use crate::commit::committed;
use crate::content_laws::{law_record_reads_back, lemma_same_place, record_block};
use crate::error::Error;
use crate::extent::{extents_in, header_at};
use crate::file_mut::{shrink_planned, stage_free_runs};
use crate::frame_laws::{
    framed, is_meta, lemma_free_inode_framed, lemma_free_runs_framed, lemma_totals_framed,
};
use crate::fs::{raw_inode, write_refusal};
use crate::inode::{
    block_area_of, flags_of, generation_of, inode_fault, links_of, mode_of, size_of_file, FL_EXTENTS,
};
use crate::inode_edit::{dead_inode, with_block_area};
use crate::link_laws::{lemma_record_survives, slots_differ};
use crate::name_laws::own_slot;
use crate::names::file_runs;
use crate::orphans::{
    chain_from, finished_truncate, law_named_orphan_is_kept, orphan_chain, recover_each, recover_one,
    recover_stage, recovered, Recovery,
};
use crate::release_laws::{
    in_runs, inode_is_free, inode_place_known, lemma_inode_released, lemma_record_framed, lemma_record_uses,
    lemma_runs_released, lemma_runs_stay_free, lemma_same_used, lemma_stays_free, lemma_used_on, no_more_used,
    runs_are_free, runs_grouped,
};
use crate::remove_laws::lemma_dead_len;
use crate::resize_laws::{lemma_at_or_behind, lemma_cut_released};
use crate::stage::{
    group_of_inode, lemma_super_place, stage_free_inode, stage_inode, stage_last_orphan, stage_totals,
    super_block, super_off, super_stamped,
};
use crate::tree_laws::leaf_maps;
use crate::volume::{fresh_stage, Stage, Vol};
use vstd::prelude::*;

verus! {

broadcast use crate::bytes::group_fields;

// -- the list ---------------------------------------------------------------

/// The word in an inode's record where a deleted one keeps its time of
/// deletion, and one on the orphan list the number of the next.
pub open spec fn next_word(v: Vol, ino: u32) -> u32 {
    le32(raw_inode(v, ino)->Ok_0, 0x14)
}

/// The inodes `s`, the first of them `cur`: each names the next, and the last
/// names none.
pub open spec fn linked_from(v: Vol, cur: u32, s: Seq<u32>) -> bool {
    &&& cur == (if s.len() == 0 {
        0u32
    } else {
        s[0]
    })
    &&& forall|i: int|
        0 <= i < s.len() ==> #[trigger] s[i] != 0 && raw_inode(v, s[i]) is Ok && next_word(v, s[i]) == (if i + 1
            < s.len() {
            s[i + 1]
        } else {
            0
        })
}

/// The orphan list holds the inode that the superblock names, the one that its
/// record names, and so on to one that names none, in that order: all of them
/// and no other. A list that has more members than there are inodes, and one
/// besides, is none.
pub proof fn law_orphan_list_follows_its_links(v: Vol, s: Seq<u32>)
    ensures
        orphan_chain(v) == Ok::<Seq<u32>, Error>(s) <==> linked_from(v, v.sb.last_orphan, s) && s.len()
            <= v.sb.inodes_count + 1,
{
    if orphan_chain(v) == Ok::<Seq<u32>, Error>(s) {
        lemma_chain_linked(v, v.sb.last_orphan, 0);
    }
    if linked_from(v, v.sb.last_orphan, s) && s.len() <= v.sb.inodes_count + 1 {
        lemma_linked_chain(v, v.sb.last_orphan, 0, s);
    }
}

proof fn lemma_chain_linked(v: Vol, cur: u32, steps: int)
    requires
        steps >= 0,
    ensures
        chain_from(v, cur, steps) matches Ok(s) ==> linked_from(v, cur, s) && (s.len() > 0 ==> s.len() + steps
            <= v.sb.inodes_count + 1),
    decreases v.sb.inodes_count + 1 - steps,
{
    if cur != 0 && steps <= v.sb.inodes_count && chain_from(v, cur, steps) is Ok {
        let next = next_word(v, cur);
        lemma_chain_linked(v, next, steps + 1);
        let rest = chain_from(v, next, steps + 1)->Ok_0;
        let s = seq![cur] + rest;
        assert forall|i: int| 0 <= i < s.len() implies #[trigger] s[i] != 0 && raw_inode(v, s[i]) is Ok && next_word(
            v,
            s[i],
        ) == (if i + 1 < s.len() {
            s[i + 1]
        } else {
            0
        }) by {
            if i > 0 {
                assert(s[i] == rest[i - 1]);
            }
        }
    }
}

proof fn lemma_linked_chain(v: Vol, cur: u32, steps: int, s: Seq<u32>)
    requires
        steps >= 0,
        linked_from(v, cur, s),
        s.len() + steps <= v.sb.inodes_count + 1,
    ensures
        chain_from(v, cur, steps) == Ok::<Seq<u32>, Error>(s),
    decreases s.len(),
{
    if s.len() == 0 {
        assert(s =~= Seq::empty());
    } else {
        let rest = s.drop_first();
        assert(s[0] == cur);
        assert forall|i: int| 0 <= i < rest.len() implies #[trigger] rest[i] != 0 && raw_inode(v, rest[i]) is Ok
            && next_word(v, rest[i]) == (if i + 1 < rest.len() {
            rest[i + 1]
        } else {
            0
        }) by {
            assert(rest[i] == s[i + 1]);
        }
        lemma_linked_chain(v, next_word(v, cur), steps + 1, rest);
        assert(seq![cur] + rest =~= s);
    }
}

// -- recovery ---------------------------------------------------------------

/// Whether an orphan is one that nothing names, and that can be made out.
pub open spec fn unnamed(v: Vol, ino: u32) -> bool {
    match raw_inode(v, ino) {
        Err(_) => false,
        Ok(raw) => inode_fault(raw) is None && links_of(raw) == 0 && file_runs(v, raw) is Ok,
    }
}

/// Whether an orphan is one that is still named.
pub open spec fn still_named(v: Vol, ino: u32) -> bool {
    match raw_inode(v, ino) {
        Err(_) => false,
        Ok(raw) => inode_fault(raw) is None && links_of(raw) != 0,
    }
}

/// An inode of `v` is gone from `w`: it is free, so is every run of blocks that
/// it had, and its record has no links, no size, and its time of deletion.
pub open spec fn gone(v: Vol, w: Vol, ino: u32, now: u32) -> bool {
    &&& inode_is_free(v, w.img, ino)
    &&& runs_are_free(v, w.img, file_runs(v, raw_inode(v, ino)->Ok_0)->Ok_0)
    &&& raw_inode(w, ino) is Ok
    &&& links_of(raw_inode(w, ino)->Ok_0) == 0
    &&& size_of_file(raw_inode(w, ino)->Ok_0) == 0
    &&& next_word(w, ino) == now
}

/// The runs that a file has behind its end, as far as they can be made out.
pub open spec fn behind_end(v: Vol, ino: u32) -> Seq<(u64, u32)> {
    finished_truncate(v, raw_inode(v, ino)->Ok_0).1
}

/// A file of `v` is the same file in `w`, names no next one, and has given back
/// what was behind its end.
pub open spec fn kept(v: Vol, w: Vol, ino: u32) -> bool {
    &&& runs_are_free(v, w.img, behind_end(v, ino))
    &&& raw_inode(w, ino) is Ok
    &&& links_of(raw_inode(w, ino)->Ok_0) == links_of(raw_inode(v, ino)->Ok_0)
    &&& size_of_file(raw_inode(w, ino)->Ok_0) == size_of_file(raw_inode(v, ino)->Ok_0)
    &&& mode_of(raw_inode(w, ino)->Ok_0) == mode_of(raw_inode(v, ino)->Ok_0)
    &&& next_word(w, ino) == 0
}

/// Each inode of `s` has been dealt with.
pub open spec fn dealt_with(v: Vol, w: Vol, s: Seq<u32>, now: u32) -> bool {
    forall|i: int|
        0 <= i < s.len() ==> (unnamed(v, #[trigger] s[i]) ==> gone(v, w, s[i], now)) && (still_named(v, s[i]) ==> kept(
            v,
            w,
            s[i],
        ))
}

/// How many of some orphans nothing names.
pub open spec fn unnamed_among(v: Vol, s: Seq<u32>) -> int
    decreases s.len(),
{
    if s.len() == 0 {
        0
    } else {
        unnamed_among(v, s.drop_last()) + (if unnamed(v, s.last()) {
            1int
        } else {
            0
        })
    }
}

/// The records of some inodes lie apart from each other and from the
/// bookkeeping.
pub open spec fn records_apart(v: Vol, s: Seq<u32>) -> bool {
    &&& forall|i: int| 0 <= i < s.len() ==> !is_meta(v, record_block(v, #[trigger] s[i]))
    &&& forall|i: int, j: int|
        0 <= i < j < s.len() ==> slots_differ(own_slot(v, #[trigger] s[i]), own_slot(v, #[trigger] s[j]), v.sb.inode_size as int)
}

/// A recovery that succeeds has dealt with every member of the orphan list. One
/// that nothing names is gone: its inode is free, and so are its blocks. One
/// that is still named is as long as it was, has the links it had, and is on no
/// list. The answer is how many are gone, and the list is empty, on the device
/// and in the mount. The members' records lie apart from each other.
pub proof fn law_recovery_deals_with_every_orphan(v: Vol, s: Seq<u32>, now: u32)
    requires
        v.wf(),
        books_apart(v),
        write_refusal(true, v) is None,
        linked_from(v, v.sb.last_orphan, s),
        s.len() <= v.sb.inodes_count + 1,
        records_apart(v, s),
        recovered(true, v, now).1 is Ok,
    ensures
        ({
            let (w, r) = recovered(true, v, now);
            &&& dealt_with(v, w, s, now)
            &&& r->Ok_0 == unnamed_among(v, s)
            &&& no_more_used(v, v.img, w.img)
            &&& w.sb.last_orphan == 0
            &&& s.len() > 0 ==> le32(block_at(w.img, v.bs(), super_block(v.sb))->Ok_0, super_off(v.sb) + 0xE8) == 0
            &&& orphan_chain(w) == Ok::<Seq<u32>, Error>(Seq::empty())
        }),
{
    law_orphan_list_follows_its_links(v, s);
    let w = recovered(true, v, now).0;
    law_orphan_list_follows_its_links(w, Seq::empty());
    if s.len() > 0 {
        let (fin, n) = recover_stage(v, s, now)->Ok_0;
        lemma_each(v, s, now);
        let r = recover_each(v, s, now)->Ok_0;
        let mid = stage_totals(v, r.st, r.freed, r.reclaimed)->Ok_0;
        lemma_totals_booked(v, r.st, r.freed, r.reclaimed);
        lemma_totals_framed(v, r.st, r.freed, r.reclaimed);
        lemma_same_used(v, r.st.img, mid.img);
        lemma_list_cleared(v, mid);
        lemma_used_on(v, r.st.img, mid.img, fin.img);
        lemma_used_on(v, v.img, r.st.img, fin.img);
        assert(framed(v, r.st, fin));
        lemma_unnamed_bound(v, s);
        let c = committed(v, fin);
        assert forall|i: int| 0 <= i < s.len() implies (unnamed(v, #[trigger] s[i]) ==> gone(v, w, s[i], now)) && (
        still_named(v, s[i]) ==> kept(v, w, s[i])) by {
            lemma_stays(v, r.st, fin, s[i], now);
            assert(raw_inode(w, s[i]) == raw_inode(c, s[i]));
        }
    } else {
        lemma_same_used(v, v.img, v.img);
    }
}

proof fn lemma_unnamed_bound(v: Vol, s: Seq<u32>)
    ensures
        0 <= unnamed_among(v, s) <= s.len(),
    decreases s.len(),
{
    if s.len() > 0 {
        lemma_unnamed_bound(v, s.drop_last());
    }
}

/// Taking the list off the superblock changes nothing else.
proof fn lemma_list_cleared(v: Vol, st: Stage)
    requires
        v.wf(),
        books_apart(v),
        stage_last_orphan(v, st, 0) is Ok,
    ensures
        framed(v, st, stage_last_orphan(v, st, 0)->Ok_0),
        no_more_used(v, st.img, stage_last_orphan(v, st, 0)->Ok_0.img),
        le32(
            block_at(stage_last_orphan(v, st, 0)->Ok_0.img, v.bs(), super_block(v.sb))->Ok_0,
            super_off(v.sb) + 0xE8,
        ) == 0,
{
    let after = stage_last_orphan(v, st, 0)->Ok_0;
    let n = super_block(v.sb);
    let b = block_at(st.img, v.bs(), n)->Ok_0;
    let off = super_off(v.sb);
    lemma_super_place(v.sb);
    let b2 = super_stamped(v, put32(b, off + 0xE8, 0), off);
    assert(b2.len() == b.len());
    assert forall|k: int| k >= 0 implies #[trigger] block_at(after.img, v.bs(), k) == (if k == n {
        Ok(b2)
    } else {
        block_at(st.img, v.bs(), k)
    }) by {
        lemma_with_block(st.img, v.bs(), n, b2, k);
    }
    lemma_with_block(st.img, v.bs(), n, b2, n);
    assert(le32(b2, off + 0xE8) == 0);
    reveal(books_apart);
    reveal(books);
    assert(books(v, after.img).block_bits =~= books(v, st.img).block_bits);
    assert(books(v, after.img).inode_bits =~= books(v, st.img).inode_bits);
    lemma_same_used(v, st.img, after.img);
}

/// What was dealt with stays so while bookkeeping is edited that brings nothing
/// into use.
proof fn lemma_stays(v: Vol, a: Stage, b: Stage, ino: u32, now: u32)
    requires
        v.wf(),
        framed(v, a, b),
        no_more_used(v, a.img, b.img),
        inode_place_known(v, ino),
        !is_meta(v, record_block(v, ino)),
        unnamed(v, ino) ==> group_of_inode(v, ino) is Some && runs_grouped(
            v,
            file_runs(v, raw_inode(v, ino)->Ok_0)->Ok_0,
        ),
        still_named(v, ino) ==> runs_grouped(v, behind_end(v, ino)),
    ensures
        unnamed(v, ino) && gone(v, committed(v, a), ino, now) ==> gone(v, committed(v, b), ino, now),
        still_named(v, ino) && kept(v, committed(v, a), ino) ==> kept(v, committed(v, b), ino),
{
    lemma_record_framed(v, a, b, ino);
    if unnamed(v, ino) && gone(v, committed(v, a), ino, now) {
        lemma_stays_free(v, a.img, b.img);
        lemma_runs_stay_free(v, a.img, b.img, file_runs(v, raw_inode(v, ino)->Ok_0)->Ok_0);
    }
    if still_named(v, ino) && kept(v, committed(v, a), ino) {
        lemma_runs_stay_free(v, a.img, b.img, behind_end(v, ino));
    }
}

/// Every member of a list dealt with.
#[verifier::rlimit(40)]
proof fn lemma_each(v: Vol, s: Seq<u32>, now: u32)
    requires
        v.wf(),
        books_apart(v),
        records_apart(v, s),
        forall|i: int| 0 <= i < s.len() ==> raw_inode(v, #[trigger] s[i]) is Ok,
        recover_each(v, s, now) is Ok,
    ensures
        ({
            let r = recover_each(v, s, now)->Ok_0;
            &&& r.st.img.len() == v.img.len()
            &&& dealt_with(v, committed(v, r.st), s, now)
            &&& no_more_used(v, v.img, r.st.img)
            &&& r.reclaimed == unnamed_among(v, s)
            &&& forall|i: int|
                0 <= i < s.len() && unnamed(v, #[trigger] s[i]) ==> group_of_inode(v, s[i]) is Some && runs_grouped(
                    v,
                    file_runs(v, raw_inode(v, s[i])->Ok_0)->Ok_0,
                )
            &&& forall|i: int| 0 <= i < s.len() && still_named(v, #[trigger] s[i]) ==> runs_grouped(v, behind_end(v, s[i]))
            &&& forall|d: u32|
                raw_inode(v, d) is Ok && !is_meta(v, record_block(v, d)) && (forall|i: int|
                    0 <= i < s.len() ==> slots_differ(own_slot(v, #[trigger] s[i]), own_slot(v, d), v.sb.inode_size as int))
                    ==> #[trigger] raw_inode(committed(v, r.st), d) == raw_inode(v, d)
        }),
    decreases s.len(),
{
    let size = v.sb.inode_size as int;
    if s.len() == 0 {
        assert(committed(v, fresh_stage(v)) == v);
        lemma_same_used(v, v.img, v.img);
    } else {
        let front = s.drop_last();
        let ino = s.last();
        assert forall|i: int| 0 <= i < front.len() implies !is_meta(v, record_block(v, #[trigger] front[i]))
            && raw_inode(v, front[i]) is Ok by {
            assert(front[i] == s[i]);
        }
        assert forall|i: int, j: int| 0 <= i < j < front.len() implies slots_differ(
            own_slot(v, #[trigger] front[i]),
            own_slot(v, #[trigger] front[j]),
            size,
        ) by {
            assert(front[i] == s[i] && front[j] == s[j]);
        }
        lemma_each(v, front, now);
        let a = recover_each(v, front, now)->Ok_0;
        let b = recover_each(v, s, now)->Ok_0;
        let last = s.len() - 1;
        assert(s[last] == ino);
        lemma_one(v, a, ino, now);
        lemma_used_on(v, v.img, a.st.img, b.st.img);
        let w = committed(v, b.st);
        assert forall|i: int| 0 <= i < s.len() implies (unnamed(v, #[trigger] s[i]) ==> gone(v, w, s[i], now)) && (
        still_named(v, s[i]) ==> kept(v, w, s[i])) by {
            if i < last {
                assert(front[i] == s[i]);
                assert(slots_differ(own_slot(v, s[i]), own_slot(v, s[last]), size));
                lemma_same_place(v, a.st, s[i]);
                assert(raw_inode(w, s[i]) == raw_inode(committed(v, a.st), s[i]));
                if unnamed(v, s[i]) {
                    lemma_stays_free(v, a.st.img, b.st.img);
                    lemma_runs_stay_free(v, a.st.img, b.st.img, file_runs(v, raw_inode(v, s[i])->Ok_0)->Ok_0);
                }
                if still_named(v, s[i]) {
                    lemma_runs_stay_free(v, a.st.img, b.st.img, behind_end(v, s[i]));
                }
            }
        }
        assert forall|i: int| 0 <= i < s.len() && unnamed(v, #[trigger] s[i]) implies group_of_inode(v, s[i]) is Some
            && runs_grouped(v, file_runs(v, raw_inode(v, s[i])->Ok_0)->Ok_0) by {
            if i < last {
                assert(front[i] == s[i]);
            }
        }
        assert forall|i: int| 0 <= i < s.len() && still_named(v, #[trigger] s[i]) implies runs_grouped(
            v,
            behind_end(v, s[i]),
        ) by {
            if i < last {
                assert(front[i] == s[i]);
            }
        }
        assert forall|d: u32|
            raw_inode(v, d) is Ok && !is_meta(v, record_block(v, d)) && (forall|i: int|
                0 <= i < s.len() ==> slots_differ(
                    own_slot(v, #[trigger] s[i]),
                    own_slot(v, d),
                    size,
                )) implies #[trigger] raw_inode(w, d) == raw_inode(v, d) by {
            assert forall|i: int| 0 <= i < front.len() implies slots_differ(
                own_slot(v, #[trigger] front[i]),
                own_slot(v, d),
                size,
            ) by {
                assert(front[i] == s[i]);
            }
            assert(raw_inode(committed(v, a.st), d) == raw_inode(v, d));
            assert(slots_differ(own_slot(v, s[last]), own_slot(v, d), size));
        }
    }
}

/// One orphan dealt with.
#[verifier::rlimit(40)]
proof fn lemma_one(v: Vol, a: Recovery, ino: u32, now: u32)
    requires
        v.wf(),
        books_apart(v),
        a.st.img.len() == v.img.len(),
        !is_meta(v, record_block(v, ino)),
        raw_inode(v, ino) is Ok,
        recover_one(v, a, ino, now) is Ok,
    ensures
        ({
            let b = recover_one(v, a, ino, now)->Ok_0;
            let w = committed(v, b.st);
            &&& b.st.img.len() == v.img.len()
            &&& unnamed(v, ino) ==> gone(v, w, ino, now)
            &&& still_named(v, ino) ==> kept(v, w, ino)
            &&& no_more_used(v, a.st.img, b.st.img)
            &&& b.reclaimed == a.reclaimed + (if unnamed(v, ino) {
                1int
            } else {
                0
            })
            &&& unnamed(v, ino) ==> group_of_inode(v, ino) is Some && runs_grouped(
                v,
                file_runs(v, raw_inode(v, ino)->Ok_0)->Ok_0,
            )
            &&& still_named(v, ino) ==> runs_grouped(v, behind_end(v, ino))
            &&& forall|d: u32|
                inode_place_known(v, d) && raw_inode(committed(v, a.st), d) is Ok && !is_meta(v, record_block(v, d))
                    && slots_differ(own_slot(v, ino), own_slot(v, d), v.sb.inode_size as int) ==> #[trigger] raw_inode(
                    w,
                    d,
                ) == raw_inode(committed(v, a.st), d)
        }),
{
    reveal(recover_one);
    let raw = raw_inode(v, ino)->Ok_0;
    let b = recover_one(v, a, ino, now)->Ok_0;
    if unnamed(v, ino) {
        let runs = file_runs(v, raw)->Ok_0;
        let st1 = stage_free_runs(v, a.st, runs)->Ok_0;
        let st2 = stage_free_inode(v, st1, ino)->Ok_0;
        let rec = dead_inode(v, ino, generation_of(raw), now);
        lemma_runs_released(v, a.st, runs);
        lemma_free_runs_framed(v, a.st, runs);
        lemma_inode_released(v, st1, ino);
        lemma_free_inode_framed(v, st1, ino);
        lemma_used_on(v, a.st.img, st1.img, st2.img);
        lemma_runs_stay_free(v, st1.img, st2.img, runs);
        lemma_dead_len(v, ino, generation_of(raw), now);
        lemma_put(v, st2, ino, rec);
        lemma_used_on(v, a.st.img, st2.img, b.st.img);
        lemma_runs_stay_free(v, st2.img, b.st.img, runs);
        lemma_stays_free(v, st2.img, b.st.img);
        lemma_dead_record(v, ino, generation_of(raw), now);
        assert(framed(v, a.st, st2));
        lemma_others(v, a.st, st2, b.st, ino, rec);
    } else if still_named(v, ino) {
        let (left, runs) = finished_truncate(v, raw);
        let st1 = stage_free_runs(v, a.st, runs)->Ok_0;
        let rec = v.csum.stamp_inode_spec(ino, generation_of(raw), left);
        lemma_runs_released(v, a.st, runs);
        lemma_free_runs_framed(v, a.st, runs);
        law_named_orphan_is_kept(v, a, ino, raw, now);
        lemma_left_record(v, ino, raw);
        lemma_put(v, st1, ino, rec);
        lemma_used_on(v, a.st.img, st1.img, b.st.img);
        lemma_runs_stay_free(v, st1.img, b.st.img, runs);
        lemma_others(v, a.st, st1, b.st, ino, rec);
    } else {
        lemma_same_used(v, a.st.img, a.st.img);
    }
}

/// The record of an inode that is gone.
proof fn lemma_dead_record(v: Vol, ino: u32, generation: u32, now: u32)
    requires
        v.wf(),
    ensures
        links_of(dead_inode(v, ino, generation, now)) == 0,
        size_of_file(dead_inode(v, ino, generation, now)) == 0,
        le32(dead_inode(v, ino, generation, now), 0x14) == now,
{
    let z = crate::bytes::zeros(v.sb.inode_size as nat);
    assert(crate::bytes::le16(z, 0x1A) == 0) by {
        reveal(crate::bytes::le16);
    }
    assert(le32(z, 0x04) == 0 && le32(z, 0x6C) == 0) by {
        reveal(le32);
        reveal(crate::bytes::le16);
    }
}

/// The record of a file whose truncation was finished.
proof fn lemma_left_record(v: Vol, ino: u32, raw: Seq<u8>)
    requires
        v.wf(),
        raw.len() == v.sb.inode_size,
        inode_fault(raw) is None,
    ensures
        ({
            let left = finished_truncate(v, raw).0;
            let rec = v.csum.stamp_inode_spec(ino, generation_of(raw), left);
            &&& rec.len() == v.sb.inode_size
            &&& links_of(rec) == links_of(left)
            &&& size_of_file(rec) == size_of_file(left)
            &&& le32(rec, 0x14) == le32(left, 0x14)
            &&& mode_of(rec) == mode_of(raw)
        }),
{
    let left = finished_truncate(v, raw).0;
    if flags_of(raw) & FL_EXTENTS != 0 {
        if let Ok((root, runs)) = shrink_planned(block_area_of(raw), size_of_file(raw) as int, v.bs()) {
            let a = with_block_area(raw, root);
            assert(mode_of(a) == mode_of(raw)) by {
                reveal(crate::bytes::le16);
            }
        }
    }
    assert(left.len() == raw.len());
}

/// A record that is put in its place.
proof fn lemma_put(v: Vol, st: Stage, ino: u32, rec: Seq<u8>)
    requires
        v.wf(),
        rec.len() == v.sb.inode_size,
        !is_meta(v, record_block(v, ino)),
        stage_inode(v, st, ino, rec) is Ok,
    ensures
        stage_inode(v, st, ino, rec)->Ok_0.img.len() == st.img.len(),
        raw_inode(committed(v, stage_inode(v, st, ino, rec)->Ok_0), ino) == Ok::<Seq<u8>, Error>(rec),
        no_more_used(v, st.img, stage_inode(v, st, ino, rec)->Ok_0.img),
{
    law_record_reads_back(v, st, ino, rec, 0);
    lemma_record_uses(v, st, ino, rec);
}

/// Other records stay.
proof fn lemma_others(v: Vol, a: Stage, mid: Stage, b: Stage, ino: u32, rec: Seq<u8>)
    requires
        v.wf(),
        framed(v, a, mid),
        rec.len() == v.sb.inode_size,
        stage_inode(v, mid, ino, rec) == Ok::<Stage, Error>(b),
    ensures
        forall|d: u32|
            inode_place_known(v, d) && raw_inode(committed(v, a), d) is Ok && !is_meta(v, record_block(v, d))
                && slots_differ(own_slot(v, ino), own_slot(v, d), v.sb.inode_size as int) ==> #[trigger] raw_inode(
                committed(v, b),
                d,
            ) == raw_inode(committed(v, a), d),
{
    assert forall|d: u32|
        inode_place_known(v, d) && raw_inode(committed(v, a), d) is Ok && !is_meta(v, record_block(v, d))
            && slots_differ(own_slot(v, ino), own_slot(v, d), v.sb.inode_size as int) implies #[trigger] raw_inode(
        committed(v, b),
        d,
    ) == raw_inode(committed(v, a), d) by {
        lemma_record_framed(v, a, mid, d);
        lemma_record_survives(v, mid, ino, rec, d, raw_inode(committed(v, a), d)->Ok_0);
    }
}

/// What a file has behind its end is all of its blocks that start at its size or
/// behind it. The file is mapped by extents, all in its record, and they can be
/// cut there.
pub proof fn law_blocks_behind_the_end_are_made_out(v: Vol, ino: u32, raw: Seq<u8>, l: int, p: int)
    requires
        v.wf(),
        raw_inode(v, ino) == Ok::<Seq<u8>, Error>(raw),
        flags_of(raw) & FL_EXTENTS != 0,
        shrink_planned(block_area_of(raw), size_of_file(raw) as int, v.bs()) is Ok,
        l >= 0,
        l * v.bs() >= size_of_file(raw),
        leaf_maps(block_area_of(raw), l, p),
    ensures
        in_runs(behind_end(v, ino), p),
{
    let area = block_area_of(raw);
    let bs = v.bs();
    let size = size_of_file(raw) as int;
    let n = header_at(area).entries as nat;
    let all = extents_in(area, n);
    let i = choose|i: int| 0 <= i < n && (#[trigger] extents_in(area, n)[i]).covers(l) && extents_in(area, n)[i].place(l) == p;
    let nb = blocks_for(size, bs);
    lemma_at_or_behind(bs, size, l);
    crate::extent::lemma_extents_short(v.img, bs, area);
    let j = lemma_cut_released(all, nb, i, l);
    let runs = behind_end(v, ino);
    assert(runs[j].0 <= p < runs[j].0 + runs[j].1);
}

} // verus!
