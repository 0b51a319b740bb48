//! Where paths lead once a name has been moved into a full directory.
use crate::block_io::block_at;
use crate::commit::committed;
use crate::dir_growth_laws::{elsewhere, law_grown_directory_has_the_name, lemma_in_place};
use crate::dirops::{
    find_entry, parent_and_base, resolve, stage_add_entry, stage_remove_from, EXT4_ROOT_INODE,
};
use crate::entry_laws::{law_removed_name_is_not_found, lemma_removed_elsewhere};
use crate::error::Error;
use crate::fs::{checked_inode, file_block};
use crate::full_dir_laws::{can_grow, grown};
use crate::inode::mode_of;
use crate::name_laws::{
    dir_holds, lemma_dir_stands, lemma_path_steps, lemma_walk_but, own_slot, quiet,
};
use crate::reach_laws::{dir_clear, lemma_dir_beside, lemma_find_beside, lemma_record_beside, path_clear, record_clear};
use crate::rename::{
    moved_type, rename_intent, renamed, stage_move_rest, End, Intent, Move,
};
use crate::rename_laws::{
    avoids, dir_kept, ends_apart, lemma_dirs_moved, lemma_edit_moved, lemma_intent, lemma_paths_moved, lemma_quiet_beside,
    lemma_records_alone, lemma_rest_moved, parent_block, parent_slots, parents_after, swapped, way_across,
};
use crate::volume::{fresh_stage, Stage, Vol};
use vstd::prelude::*;

verus! {

/// A move as it stands in the volume that its new directory has grown in.
pub open spec fn move_in(g: Vol, m: Move) -> Move {
    let raw = checked_inode(g, m.dst.dir)->Ok_0;
    Move {
        src: End {
            raw: if m.src.dir == m.dst.dir {
                raw
            } else {
                m.src.raw
            },
            ..m.src
        },
        dst: End { raw, ..m.dst },
        ..m
    }
}

/// The old name taken out of the directory that holds the new one.
proof fn lemma_out_within(g: Vol, n: Move, st: Stage)
    requires
        ends_apart(g, n, parent_block(g, n)),
        n.src.dir == n.dst.dir,
        n.src.raw == n.dst.raw,
        n.src.name != n.dst.name,
        find_entry(g, n.dst.dir, n.dst.raw, n.dst.name) == Ok::<u32, Error>(n.ino),
        find_entry(g, n.src.dir, n.src.raw, n.src.name) is Ok,
        stage_remove_from(g, fresh_stage(g), n.src.dir, n.src.raw, n.src.name, 0) == Ok::<Stage, Error>(st),
    ensures
        swapped(g, st, n.dst.dir, n.dst.raw, n.dst.name, n.ino, n.src.dir, n.src.raw, n.src.name),
{
    reveal(ends_apart);
    let start = fresh_stage(g);
    let w = committed(g, st);
    let (dir, raw) = (n.src.dir, n.src.raw);
    assert(committed(g, start) == g);
    let i = lemma_removed_elsewhere(g, start, dir, raw, n.src.name);
    let q = file_block(g, raw, i)->Ok_0->Some_0;
    assert(file_block(g, raw, i) == Ok::<Option<u64>, Error>(Some(q as int as u64)));
    assert(dir_holds(g, raw, q as int));
    law_removed_name_is_not_found(g, start, dir, raw, n.src.name, n.dst.name);
    law_removed_name_is_not_found(g, start, dir, raw, n.src.name, n.src.name);
    assert forall|part: Seq<u8>| part != n.src.name && find_entry(g, dir, raw, part) is Ok implies #[trigger] find_entry(
        w,
        dir,
        raw,
        part,
    ) == find_entry(g, dir, raw, part) by {
        law_removed_name_is_not_found(g, start, dir, raw, n.src.name, part);
    }
    assert forall|k: int| k >= 0 && !dir_holds(g, raw, k) && !dir_holds(g, raw, k) implies #[trigger] block_at(
        w.img,
        g.bs(),
        k,
    ) == block_at(g.img, g.bs(), k) by {
        assert(block_at(st.img, g.bs(), k) == block_at(start.img, g.bs(), k));
    }
}

/// The old name taken out of another directory than holds the new one.
proof fn lemma_out_across(g: Vol, n: Move, st: Stage)
    requires
        ends_apart(g, n, parent_block(g, n)),
        n.src.dir != n.dst.dir,
        find_entry(g, n.dst.dir, n.dst.raw, n.dst.name) == Ok::<u32, Error>(n.ino),
        find_entry(g, n.src.dir, n.src.raw, n.src.name) is Ok,
        stage_remove_from(g, fresh_stage(g), n.src.dir, n.src.raw, n.src.name, 0) == Ok::<Stage, Error>(st),
    ensures
        swapped(g, st, n.dst.dir, n.dst.raw, n.dst.name, n.ino, n.src.dir, n.src.raw, n.src.name),
{
    reveal(ends_apart);
    let start = fresh_stage(g);
    let w = committed(g, st);
    let none = Seq::<(int, int)>::empty();
    let (from, fraw) = (n.src.dir, n.src.raw);
    let (to, traw) = (n.dst.dir, n.dst.raw);
    assert(committed(g, start) == g);
    let i = lemma_removed_elsewhere(g, start, from, fraw, n.src.name);
    let q = file_block(g, fraw, i)->Ok_0->Some_0;
    assert(file_block(g, fraw, i) == Ok::<Option<u64>, Error>(Some(q as int as u64)));
    assert(dir_holds(g, fraw, q as int));
    lemma_edit_moved(g, start, st, fraw, q);
    lemma_quiet_beside(g, quiet(g, parent_slots(g, n), parent_block(g, n)), traw, fraw, q);
    lemma_dir_stands(g, start, st, none, seq![q], to, traw);
    law_removed_name_is_not_found(g, start, from, fraw, n.src.name, n.src.name);
    assert forall|part: Seq<u8>| part != n.src.name && find_entry(g, from, fraw, part) is Ok implies #[trigger] find_entry(
        w,
        from,
        fraw,
        part,
    ) == find_entry(g, from, fraw, part) by {
        law_removed_name_is_not_found(g, start, from, fraw, n.src.name, part);
    }
    assert(find_entry(w, to, traw, n.dst.name) == find_entry(g, to, traw, n.dst.name));
    assert forall|k: int| k >= 0 && !dir_holds(g, traw, k) && !dir_holds(g, fraw, k) implies #[trigger] block_at(
        w.img,
        g.bs(),
        k,
    ) == block_at(g.img, g.bs(), k) by {
        assert(block_at(st.img, g.bs(), k) == block_at(start.img, g.bs(), k));
    }
}

/// The source of a move, while its target grows.
pub open spec fn source_clear(v: Vol, m: Move, from: Seq<u8>) -> bool {
    let safe = elsewhere(v, m.dst.dir, m.dst.raw);
    let slots = seq![own_slot(v, m.dst.dir)];
    &&& path_clear(v, safe, slots, seq![m.dst.dir], from, 0, EXT4_ROOT_INODE)
    &&& m.src.dir != m.dst.dir ==> record_clear(v, safe, slots, m.src.dir) && dir_clear(v, safe, m.src.raw)
}

/// What is known of both ends once the target has grown.
proof fn lemma_target_grown(v: Vol, src: Seq<u8>, dst: Seq<u8>, m: Move, part: Seq<u8>)
    requires
        parent_and_base(src) is Ok,
        parent_and_base(dst) is Ok,
        m.src.name == parent_and_base(src)->Ok_0.1,
        m.dst.name == parent_and_base(dst)->Ok_0.1,
        resolve(v, parent_and_base(src)->Ok_0.0) == Ok::<u32, Error>(m.src.dir),
        resolve(v, parent_and_base(dst)->Ok_0.0) == Ok::<u32, Error>(m.dst.dir),
        checked_inode(v, m.src.dir) == Ok::<Seq<u8>, Error>(m.src.raw),
        checked_inode(v, m.dst.dir) == Ok::<Seq<u8>, Error>(m.dst.raw),
        m.src.dir == m.dst.dir ==> m.src.raw == m.dst.raw,
        can_grow(v, dst, m.dst.dir, m.dst.raw, m.ino, moved_type(mode_of(m.raw))),
        source_clear(v, m, parent_and_base(src)->Ok_0.0),
    ensures
        ({
            let g = grown(v, dst, m.dst.dir, m.ino, moved_type(mode_of(m.raw)));
            let n = move_in(g, m);
            &&& resolve(g, parent_and_base(src)->Ok_0.0) == Ok::<u32, Error>(m.src.dir)
            &&& resolve(g, parent_and_base(dst)->Ok_0.0) == Ok::<u32, Error>(m.dst.dir)
            &&& checked_inode(g, m.src.dir) == Ok::<Seq<u8>, Error>(n.src.raw)
            &&& checked_inode(g, m.dst.dir) == Ok::<Seq<u8>, Error>(n.dst.raw)
            &&& checked_inode(g, m.ino) == checked_inode(v, m.ino)
            &&& mode_of(n.dst.raw) == mode_of(m.dst.raw)
            &&& mode_of(n.src.raw) == mode_of(m.src.raw)
            &&& find_entry(g, m.dst.dir, n.dst.raw, m.dst.name) == Ok::<u32, Error>(m.ino)
            &&& part != m.dst.name ==> find_entry(g, m.dst.dir, n.dst.raw, part) == find_entry(
                v,
                m.dst.dir,
                m.dst.raw,
                part,
            )
            &&& m.src.dir != m.dst.dir || part != m.dst.name ==> find_entry(g, m.src.dir, n.src.raw, part) == find_entry(
                v,
                m.src.dir,
                m.src.raw,
                part,
            )
        }),
{
    let ft = moved_type(mode_of(m.raw));
    let (sp, sname) = parent_and_base(src)->Ok_0;
    let (dp, dname) = parent_and_base(dst)->Ok_0;
    let g = grown(v, dst, m.dst.dir, m.ino, ft);
    let safe = elsewhere(v, m.dst.dir, m.dst.raw);
    let slots = seq![own_slot(v, m.dst.dir)];
    let (dir, raw) = (m.dst.dir, m.dst.raw);
    lemma_in_place(v, dir, raw);
    law_grown_directory_has_the_name(v, dir, raw, dname, m.ino, ft, part);
    let rec = checked_inode(g, dir)->Ok_0;
    assert forall|other: Seq<u8>| other != dname && find_entry(v, dir, raw, other) is Ok implies #[trigger] find_entry(
        g,
        dir,
        rec,
        other,
    ) == find_entry(v, dir, raw, other) by {
        law_grown_directory_has_the_name(v, dir, raw, dname, m.ino, ft, other);
    }
    lemma_walk_but(v, g, safe, slots, dir, raw, rec, dname, sp, 0, EXT4_ROOT_INODE, m.src.dir);
    lemma_walk_but(v, g, safe, slots, dir, raw, rec, dname, dp, 0, EXT4_ROOT_INODE, dir);
    lemma_record_beside(v, g, safe, safe, slots, m.ino);
    if m.src.dir != dir {
        lemma_record_beside(v, g, safe, safe, slots, m.src.dir);
        lemma_dir_beside(v, g, safe, safe, slots, m.src.raw);
        lemma_find_beside(v, g, safe, slots, m.src.dir, m.src.raw, part, 0);
    }
}

/// A directory's names over the growth and the rest of the move.
proof fn lemma_kept_through(v: Vol, w: Vol, src: Seq<u8>, dst: Seq<u8>, m: Move, d: u32, raw: Seq<u8>)
    requires
        parent_and_base(src) is Ok,
        parent_and_base(dst) is Ok,
        m.src.name == parent_and_base(src)->Ok_0.1,
        m.dst.name == parent_and_base(dst)->Ok_0.1,
        resolve(v, parent_and_base(src)->Ok_0.0) == Ok::<u32, Error>(m.src.dir),
        resolve(v, parent_and_base(dst)->Ok_0.0) == Ok::<u32, Error>(m.dst.dir),
        checked_inode(v, m.src.dir) == Ok::<Seq<u8>, Error>(m.src.raw),
        checked_inode(v, m.dst.dir) == Ok::<Seq<u8>, Error>(m.dst.raw),
        m.src.dir == m.dst.dir ==> m.src.raw == m.dst.raw,
        can_grow(v, dst, m.dst.dir, m.dst.raw, m.ino, moved_type(mode_of(m.raw))),
        source_clear(v, m, parent_and_base(src)->Ok_0.0),
        d == m.src.dir || d == m.dst.dir,
        checked_inode(v, d) == Ok::<Seq<u8>, Error>(raw),
        dir_kept(grown(v, dst, m.dst.dir, m.ino, moved_type(mode_of(m.raw))), w, d, m.src.dir, m.src.name),
    ensures
        dir_kept(v, w, d, m.src.dir, m.src.name),
{
    let g = grown(v, dst, m.dst.dir, m.ino, moved_type(mode_of(m.raw)));
    lemma_target_grown(v, src, dst, m, m.src.name);
    let held = checked_inode(g, d)->Ok_0;
    assert forall|part: Seq<u8>| find_entry(v, d, raw, part) is Ok && !(d == m.src.dir && part == m.src.name) implies
        #[trigger] find_entry(w, d, checked_inode(w, d)->Ok_0, part) == find_entry(v, d, raw, part) by {
        lemma_target_grown(v, src, dst, m, part);
        assert(find_entry(g, d, held, part) == find_entry(v, d, raw, part));
    }
}

/// The rest of a move into a directory that has grown.
#[verifier::rlimit(40)]
proof fn lemma_moved_after(g: Vol, src: Seq<u8>, dst: Seq<u8>, n: Move, fin: Stage, now: u32)
    requires
        parent_and_base(src) is Ok,
        parent_and_base(dst) is Ok,
        n.src.name == parent_and_base(src)->Ok_0.1,
        n.dst.name == parent_and_base(dst)->Ok_0.1,
        n.replaced is None,
        way_across(g, n, parent_and_base(src)->Ok_0.0, parent_and_base(dst)->Ok_0.0),
        crate::inode::mode_is_dir(mode_of(n.raw)) ==> avoids(
            g,
            parent_and_base(dst)->Ok_0.0,
            0,
            EXT4_ROOT_INODE,
            n.src.dir,
            n.src.name,
        ),
        resolve(g, parent_and_base(src)->Ok_0.0) == Ok::<u32, Error>(n.src.dir),
        resolve(g, parent_and_base(dst)->Ok_0.0) == Ok::<u32, Error>(n.dst.dir),
        checked_inode(g, n.src.dir) == Ok::<Seq<u8>, Error>(n.src.raw),
        checked_inode(g, n.dst.dir) == Ok::<Seq<u8>, Error>(n.dst.raw),
        checked_inode(g, n.ino) == Ok::<Seq<u8>, Error>(n.raw),
        crate::inode::mode_is_dir(mode_of(n.dst.raw)),
        n.src.dir == n.dst.dir ==> n.src.raw == n.dst.raw && n.src.name != n.dst.name,
        find_entry(g, n.dst.dir, n.dst.raw, n.dst.name) == Ok::<u32, Error>(n.ino),
        find_entry(g, n.src.dir, n.src.raw, n.src.name) == Ok::<u32, Error>(n.ino),
        stage_move_rest(g, fresh_stage(g), n, now) == Ok::<Stage, Error>(fin),
    ensures
        ({
            let w = committed(g, fin);
            &&& resolve(w, dst) == Ok::<u32, Error>(n.ino)
            &&& resolve(w, src) is Err
            &&& dir_kept(g, w, n.src.dir, n.src.dir, n.src.name)
            &&& dir_kept(g, w, n.dst.dir, n.src.dir, n.src.name)
            &&& checked_inode(w, n.src.dir) == Ok::<Seq<u8>, Error>(parents_after(g, n).0)
            &&& checked_inode(w, n.dst.dir) == Ok::<Seq<u8>, Error>(parents_after(g, n).1)
        }),
{
    let new = parent_block(g, n);
    let start = fresh_stage(g);
    let st = stage_remove_from(g, start, n.src.dir, n.src.raw, n.src.name, 0)->Ok_0;
    let (sa, da) = parents_after(g, n);
    if n.src.dir == n.dst.dir {
        lemma_out_within(g, n, st);
    } else {
        lemma_out_across(g, n, st);
    }
    lemma_records_alone(g, st, n, new);
    lemma_rest_moved(g, n, start, st, fin, now);
    lemma_dirs_moved(g, n, new, st, fin, sa, da);
    lemma_paths_moved(g, committed(g, fin), n, src, dst, sa, da);
}

/// A name that was moved into a directory that had no room for it is at its new
/// path and no longer at its old one; every other name of the two directories
/// that led somewhere leads there still. The directory can grow, and both are in
/// good order once it has. A name that stays in its directory is taken out by
/// the record from before the growth, which has to name the same block.
#[verifier::rlimit(40)]
pub proof fn law_name_moved_into_a_full_directory(v: Vol, src: Seq<u8>, dst: Seq<u8>, replace: bool, now: u32, m: Move)
    requires
        rename_intent(v, src, dst, replace) == Ok::<Intent, Error>(Intent::Move(m)),
        m.replaced is None,
        ({
            let ft = moved_type(mode_of(m.raw));
            let g = grown(v, dst, m.dst.dir, m.ino, ft);
            let n = move_in(g, m);
            &&& stage_add_entry(v, fresh_stage(v), m.dst.dir, m.dst.raw, m.dst.name, m.ino, ft) == Err::<Stage, Error>(
                Error::OutOfBounds,
            )
            &&& can_grow(v, dst, m.dst.dir, m.dst.raw, m.ino, ft)
            &&& source_clear(v, m, parent_and_base(src)->Ok_0.0)
            &&& way_across(g, n, parent_and_base(src)->Ok_0.0, parent_and_base(dst)->Ok_0.0)
            &&& crate::inode::mode_is_dir(mode_of(m.raw)) ==> avoids(
                g,
                parent_and_base(dst)->Ok_0.0,
                0,
                EXT4_ROOT_INODE,
                m.src.dir,
                m.src.name,
            )
            &&& stage_remove_from(g, fresh_stage(g), m.src.dir, m.src.raw, m.src.name, 0) == stage_remove_from(
                g,
                fresh_stage(g),
                m.src.dir,
                n.src.raw,
                m.src.name,
                0,
            )
            &&& stage_move_rest(g, fresh_stage(g), m, now) is Ok
        }),
    ensures
        ({
            let (w, r) = renamed(v, src, dst, replace, now);
            &&& r is Ok
            &&& resolve(v, src) == Ok::<u32, Error>(m.ino)
            &&& resolve(w, dst) == Ok::<u32, Error>(m.ino)
            &&& resolve(w, src) is Err
            &&& dir_kept(v, w, m.src.dir, m.src.dir, m.src.name)
            &&& dir_kept(v, w, m.dst.dir, m.src.dir, m.src.name)
        }),
{
    let ft = moved_type(mode_of(m.raw));
    let g = grown(v, dst, m.dst.dir, m.ino, ft);
    let n = move_in(g, m);
    let fin = stage_move_rest(g, fresh_stage(g), m, now)->Ok_0;
    let w = committed(g, fin);
    lemma_intent(v, src, dst, replace, m);
    lemma_target_grown(v, src, dst, m, m.src.name);
    assert(stage_move_rest(g, fresh_stage(g), n, now) == stage_move_rest(g, fresh_stage(g), m, now));
    lemma_moved_after(g, src, dst, n, fin, now);
    lemma_kept_through(v, w, src, dst, m, m.src.dir, m.src.raw);
    lemma_kept_through(v, w, src, dst, m, m.dst.dir, m.dst.raw);
    lemma_grown_first(v, m, dst, now);
    lemma_path_steps(v, src);
}

/// What the move comes to.
proof fn lemma_grown_first(v: Vol, m: Move, dst: Seq<u8>, now: u32)
    requires
        m.replaced is None,
        m.dst.name == parent_and_base(dst)->Ok_0.1,
        can_grow(v, dst, m.dst.dir, m.dst.raw, m.ino, moved_type(mode_of(m.raw))),
        stage_add_entry(
            v,
            fresh_stage(v),
            m.dst.dir,
            m.dst.raw,
            m.dst.name,
            m.ino,
            moved_type(mode_of(m.raw)),
        ) == Err::<Stage, Error>(Error::OutOfBounds),
        ({
            let g = grown(v, dst, m.dst.dir, m.ino, moved_type(mode_of(m.raw)));
            stage_move_rest(g, fresh_stage(g), m, now) is Ok
        }),
    ensures
        ({
            let g = grown(v, dst, m.dst.dir, m.ino, moved_type(mode_of(m.raw)));
            crate::rename::moved(v, m, now) == (
                committed(g, stage_move_rest(g, fresh_stage(g), m, now)->Ok_0),
                Ok::<(), Error>(()),
            )
        }),
{
    lemma_in_place(v, m.dst.dir, m.dst.raw);
    assert(committed(v, fresh_stage(v)) == v);
}

} // verus!
