//! What follows a name that is moved: a directory's parent, the counts of links,
//! and what the new name stood for.
use crate::block_io::{block_at, lemma_with_block};
use crate::books::books_apart;
use crate::bytes::{le32, put32};
use crate::checksum::dx_stamped;
use crate::content_laws::record_block;
use crate::dirops::{dir_restamped, stage_add_entry, stage_dotdot, stage_remove_from, tail_of};
use crate::error::Error;
use crate::frame_laws::is_meta;
use crate::fs::{checked_inode, file_block};
use crate::inode::{flags_of, generation_of, links_of, mode_is_dir, mode_of, FL_INDEX};
use crate::link_laws::{lemma_relinked, relinked_record};
use crate::name_laws::{is_new, lemma_moved_on, lemma_moved_record, lemma_still, moved, own_slot, slots_stand};
use crate::names::{dir_runs, file_runs};
use crate::reach_laws::slot_block;
use crate::release_laws::{
    inode_is_free, lemma_reaped_is_free, lemma_record_uses, lemma_runs_stay_free, lemma_same_used,
    lemma_stays_free, lemma_used_on, no_more_used, runs_are_free,
};
use crate::remove_laws::lemma_reaped;
use crate::rename::{
    changes_parent, dst_links, moved_type, rename_intent, renamed, replaced_runs, src_links, stage_link_delta,
    stage_link_deltas, stage_make_way, stage_move_rest, stage_replaced, Intent, Move,
};
use crate::rename_laws::{lemma_intent, parent_slots, parents_after};
use crate::volume::{Stage, Vol};
use vstd::prelude::*;

verus! {

broadcast use crate::bytes::group_fields;

/// The records of both directories of a move, and of what it replaces, lie
/// outside the bookkeeping.
pub open spec fn move_records_apart(v: Vol, m: Move) -> bool {
    &&& !is_meta(v, record_block(v, m.src.dir))
    &&& !is_meta(v, record_block(v, m.dst.dir))
    &&& m.replaced matches Some((old, _)) ==> !is_meta(v, record_block(v, old))
}

/// The records that a move changes.
proof fn lemma_move_slots(v: Vol, m: Move)
    requires
        move_records_apart(v, m),
    ensures
        slots_stand(v, parent_slots(v, m), Seq::empty()),
        parent_slots(v, m).len() >= 2,
        parent_slots(v, m)[0] == own_slot(v, m.src.dir),
        parent_slots(v, m)[1] == own_slot(v, m.dst.dir),
        m.replaced matches Some((old, _)) ==> parent_slots(v, m).len() == 3 && parent_slots(v, m)[2] == own_slot(v, old),
        forall|k: int| #[trigger]
            slot_block(parent_slots(v, m), k) ==> k == record_block(v, m.src.dir) || k == record_block(v, m.dst.dir) || (
            m.replaced is Some && k == record_block(v, m.replaced->Some_0.0)),
{
    let slots = parent_slots(v, m);
    assert forall|k: int| #[trigger] slot_block(slots, k) implies k >= 0 && !is_meta(v, k) && !is_new(
        Seq::<u64>::empty(),
        k,
    ) by {
        let i = choose|i: int| 0 <= i < slots.len() && (#[trigger] slots[i]).0 == k;
        assert(slots[i].0 == k);
    }
}

/// A link count that follows changes a record and nothing else.
proof fn lemma_delta_moved(v: Vol, st: Stage, d: u32, delta: int, slots: Seq<(int, int)>, i: int)
    requires
        v.wf(),
        0 <= i < slots.len(),
        slots[i] == own_slot(v, d),
        stage_link_delta(v, st, d, delta) is Ok,
    ensures
        moved(v, st, stage_link_delta(v, st, d, delta)->Ok_0, slots, Seq::empty()),
        !is_meta(v, record_block(v, d)) ==> no_more_used(v, st.img, stage_link_delta(v, st, d, delta)->Ok_0.img),
{
    if delta == 0 {
        lemma_still(v, st, slots, Seq::empty());
        lemma_same_used(v, st.img, st.img);
    } else {
        let raw = checked_inode(v, d)->Ok_0;
        lemma_relinked(v, d, raw, delta);
        lemma_moved_record(v, st, d, relinked_record(v, d, raw, delta), slots, Seq::empty(), i);
        if !is_meta(v, record_block(v, d)) {
            lemma_record_uses(v, st, d, relinked_record(v, d, raw, delta));
        }
    }
}

/// The end of a move changes the two directories' records and nothing else.
proof fn lemma_counts_follow(v: Vol, st: Stage, m: Move)
    requires
        v.wf(),
        move_records_apart(v, m),
        stage_link_deltas(v, st, m.src.dir, src_links(m), m.dst.dir, dst_links(m)) is Ok,
    ensures
        ({
            let fin = stage_link_deltas(v, st, m.src.dir, src_links(m), m.dst.dir, dst_links(m))->Ok_0;
            moved(v, st, fin, parent_slots(v, m), Seq::empty()) && no_more_used(v, st.img, fin.img)
        }),
{
    let slots = parent_slots(v, m);
    let (a, b) = (m.src.dir, m.dst.dir);
    let (da, db) = (src_links(m), dst_links(m));
    let fin = stage_link_deltas(v, st, a, da, b, db)->Ok_0;
    lemma_move_slots(v, m);
    if a == b {
        lemma_delta_moved(v, st, a, da + db, slots, 0);
    } else if a < b {
        let mid = stage_link_delta(v, st, a, da)->Ok_0;
        lemma_delta_moved(v, st, a, da, slots, 0);
        lemma_delta_moved(v, mid, b, db, slots, 1);
        lemma_moved_on(v, st, mid, fin, slots, Seq::empty());
        lemma_used_on(v, st.img, mid.img, fin.img);
    } else {
        let mid = stage_link_delta(v, st, b, db)->Ok_0;
        lemma_delta_moved(v, st, b, db, slots, 1);
        lemma_delta_moved(v, mid, a, da, slots, 0);
        lemma_moved_on(v, st, mid, fin, slots, Seq::empty());
        lemma_used_on(v, st.img, mid.img, fin.img);
    }
}

/// What was replaced changes the bookkeeping and its own record, and nothing
/// else.
proof fn lemma_replaced_follows(v: Vol, st: Stage, m: Move, now: u32)
    requires
        v.wf(),
        move_records_apart(v, m),
        m.replaced is Some,
        checked_inode(v, m.replaced->Some_0.0) == Ok::<Seq<u8>, Error>(m.replaced->Some_0.1),
        stage_replaced(v, st, m.replaced->Some_0.0, m.replaced->Some_0.1, now) is Ok,
    ensures
        moved(
            v,
            st,
            stage_replaced(v, st, m.replaced->Some_0.0, m.replaced->Some_0.1, now)->Ok_0,
            parent_slots(v, m),
            Seq::empty(),
        ),
{
    let (old, oraw) = m.replaced->Some_0;
    let slots = parent_slots(v, m);
    let dir = mode_is_dir(mode_of(oraw));
    lemma_move_slots(v, m);
    if links_of(oraw) > 1 && !dir {
        lemma_relinked(v, old, oraw, -1);
        lemma_moved_record(v, st, old, relinked_record(v, old, oraw, -1), slots, Seq::empty(), 2);
    } else {
        lemma_reaped(v, st, old, oraw, replaced_runs(v, oraw)->Ok_0, dir, now, slots, Seq::empty(), 2);
    }
}

/// The block in which a directory names its parent, once that is another.
proof fn lemma_parent_named(v: Vol, st: Stage, ino: u32, raw: Seq<u8>, parent: u32)
    requires
        v.wf(),
        stage_dotdot(v, st, ino, raw, parent) is Ok,
    ensures
        ({
            let p = file_block(v, raw, 0)->Ok_0->Some_0 as int;
            let b = block_at(stage_dotdot(v, st, ino, raw, parent)->Ok_0.img, v.bs(), p);
            &&& b is Ok
            &&& le32(b->Ok_0, 12) == parent
        }),
{
    let p = file_block(v, raw, 0)->Ok_0->Some_0;
    let b = block_at(st.img, v.bs(), p as int)->Ok_0;
    let out = put32(b, 12, parent);
    let put = if flags_of(raw) & FL_INDEX != 0 {
        if v.csum.enabled {
            dx_stamped(v.csum.seed, ino, generation_of(raw), out, 32)
        } else {
            out
        }
    } else {
        dir_restamped(v, ino, raw, tail_of(v, out), out)
    };
    assert(b.len() == v.bs());
    assert(v.bs() >= 1024);
    assert(le32(out, 12) == parent);
    assert(le32(put, 12) == parent) by {
        reveal(le32);
        reveal(put32);
        reveal(crate::bytes::put16);
    }
    lemma_with_block(st.img, v.bs(), p as int, put, p as int);
}

/// A directory that is moved below another names that one as its parent: the
/// number in the entry for the parent, which is behind the twelve bytes of the
/// entry for itself, is the new parent's.
pub proof fn law_moved_directory_names_its_new_parent(
    v: Vol,
    src: Seq<u8>,
    dst: Seq<u8>,
    replace: bool,
    now: u32,
    m: Move,
    p: u64,
)
    requires
        v.wf(),
        rename_intent(v, src, dst, replace) == Ok::<Intent, Error>(Intent::Move(m)),
        mode_is_dir(mode_of(m.raw)),
        m.src.dir != m.dst.dir,
        file_block(v, m.raw, 0) == Ok::<Option<u64>, Error>(Some(p)),
        move_records_apart(v, m),
        !is_meta(v, p as int),
        p != record_block(v, m.src.dir),
        p != record_block(v, m.dst.dir),
        m.replaced matches Some((old, oraw)) ==> p != record_block(v, old),
        stage_make_way(v, m) is Ok,
        stage_add_entry(
            v,
            stage_make_way(v, m)->Ok_0,
            m.dst.dir,
            m.dst.raw,
            m.dst.name,
            m.ino,
            moved_type(mode_of(m.raw)),
        ) is Ok,
        renamed(v, src, dst, replace, now).1 is Ok,
    ensures
        ({
            let b = renamed(v, src, dst, replace, now).0.block(p as int);
            &&& b is Ok
            &&& le32(b->Ok_0, 12) == m.dst.dir
        }),
{
    let ft = moved_type(mode_of(m.raw));
    let way = stage_make_way(v, m)->Ok_0;
    let st1 = stage_add_entry(v, way, m.dst.dir, m.dst.raw, m.dst.name, m.ino, ft)->Ok_0;
    let fin = stage_move_rest(v, st1, m, now)->Ok_0;
    let st = stage_remove_from(v, st1, m.src.dir, m.src.raw, m.src.name, 0)->Ok_0;
    let st2 = stage_dotdot(v, st, m.ino, m.raw, m.dst.dir)->Ok_0;
    let st3 = match m.replaced {
        Some((old, oraw)) => stage_replaced(v, st2, old, oraw, now)->Ok_0,
        None => st2,
    };
    assert(changes_parent(m));
    lemma_parent_named(v, st, m.ino, m.raw, m.dst.dir);
    lemma_move_slots(v, m);
    lemma_intent(v, src, dst, replace, m);
    if m.replaced is Some {
        lemma_replaced_follows(v, st2, m, now);
    }
    lemma_counts_follow(v, st3, m);
    assert(!slot_block(parent_slots(v, m), p as int));
    assert(!is_new(Seq::<u64>::empty(), p as int));
    assert(block_at(fin.img, v.bs(), p as int) == block_at(st3.img, v.bs(), p as int));
    assert(block_at(st3.img, v.bs(), p as int) == block_at(st2.img, v.bs(), p as int));
}

/// What a name stood for is given back when another takes its place: a directory,
/// or a file that had no other name.
pub proof fn law_replaced_inode_is_given_back(
    v: Vol,
    src: Seq<u8>,
    dst: Seq<u8>,
    replace: bool,
    now: u32,
    m: Move,
    old: u32,
    oraw: Seq<u8>,
)
    requires
        v.wf(),
        books_apart(v),
        rename_intent(v, src, dst, replace) == Ok::<Intent, Error>(Intent::Move(m)),
        m.replaced == Some((old, oraw)),
        links_of(oraw) <= 1 || mode_is_dir(mode_of(oraw)),
        move_records_apart(v, m),
        stage_make_way(v, m) is Ok,
        stage_add_entry(
            v,
            stage_make_way(v, m)->Ok_0,
            m.dst.dir,
            m.dst.raw,
            m.dst.name,
            m.ino,
            moved_type(mode_of(m.raw)),
        ) is Ok,
        renamed(v, src, dst, replace, now).1 is Ok,
    ensures
        ({
            let w = renamed(v, src, dst, replace, now).0;
            let runs = if mode_is_dir(mode_of(oraw)) {
                dir_runs(v, oraw)
            } else {
                file_runs(v, oraw)
            };
            &&& inode_is_free(v, w.img, old)
            &&& runs is Ok
            &&& runs_are_free(v, w.img, runs->Ok_0)
        }),
{
    let ft = moved_type(mode_of(m.raw));
    let way = stage_make_way(v, m)->Ok_0;
    let st1 = stage_add_entry(v, way, m.dst.dir, m.dst.raw, m.dst.name, m.ino, ft)->Ok_0;
    let fin = stage_move_rest(v, st1, m, now)->Ok_0;
    let st = stage_remove_from(v, st1, m.src.dir, m.src.raw, m.src.name, 0)->Ok_0;
    let st2 = if changes_parent(m) {
        stage_dotdot(v, st, m.ino, m.raw, m.dst.dir)->Ok_0
    } else {
        st
    };
    let st3 = stage_replaced(v, st2, old, oraw, now)->Ok_0;
    let runs = replaced_runs(v, oraw)->Ok_0;
    lemma_reaped_is_free(v, st2, old, oraw, runs, mode_is_dir(mode_of(oraw)), now);
    lemma_counts_follow(v, st3, m);
    lemma_runs_stay_free(v, st3.img, fin.img, runs);
    lemma_stays_free(v, st3.img, fin.img);
}

/// The links to the two directories of a move follow the directories that come
/// and go: one that leaves takes a link from the one and brings one to the other,
/// and one that is replaced takes a link along. The count stops at zero.
pub proof fn law_links_follow_moved_directories(v: Vol, m: Move)
    requires
        v.wf(),
        checked_inode(v, m.src.dir) == Ok::<Seq<u8>, Error>(m.src.raw),
        checked_inode(v, m.dst.dir) == Ok::<Seq<u8>, Error>(m.dst.raw),
        m.src.dir == m.dst.dir ==> m.src.raw == m.dst.raw,
        2 <= links_of(m.src.raw),
        2 <= links_of(m.dst.raw) < 0xFFFF,
    ensures
        ({
            let (from, to) = parents_after(v, m);
            let goes: int = if mode_is_dir(mode_of(m.raw)) {
                1
            } else {
                0
            };
            let replaced: int = if m.replaced is Some && mode_is_dir(mode_of(m.replaced->Some_0.1)) {
                1
            } else {
                0
            };
            &&& m.src.dir != m.dst.dir ==> links_of(from) == links_of(m.src.raw) - goes
            &&& m.src.dir != m.dst.dir ==> links_of(to) == links_of(m.dst.raw) + goes - replaced
            &&& m.src.dir == m.dst.dir ==> links_of(from) == links_of(m.src.raw) - replaced && to == from
        }),
{
    lemma_relinked(v, m.src.dir, m.src.raw, src_links(m));
    lemma_relinked(v, m.dst.dir, m.dst.raw, dst_links(m));
    lemma_relinked(v, m.src.dir, m.src.raw, src_links(m) + dst_links(m));
}

/// A count of links is one higher for a name that comes and one lower for a name
/// that goes.
pub proof fn law_links_are_counted(v: Vol, ino: u32, raw: Seq<u8>)
    requires
        v.wf(),
        checked_inode(v, ino) == Ok::<Seq<u8>, Error>(raw),
    ensures
        links_of(raw) < 0xFFFF ==> links_of(relinked_record(v, ino, raw, 1)) == links_of(raw) + 1,
        links_of(raw) > 0 ==> links_of(relinked_record(v, ino, raw, -1)) == links_of(raw) - 1,
        links_of(raw) == 0 ==> links_of(relinked_record(v, ino, raw, -1)) == 0,
{
    lemma_relinked(v, ino, raw, 1);
    lemma_relinked(v, ino, raw, -1);
}

} // verus!
