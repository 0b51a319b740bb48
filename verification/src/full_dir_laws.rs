//! What a name entered in a full directory leads to.
use crate::attr::inode_at;
use crate::bgd::inode_place;
use crate::block_io::block_at;
use crate::checksum::inode_crc_ok;
use crate::commit::committed;
use crate::content_laws::{law_record_reads_back, lemma_same_place, record_block};
use crate::create_laws::{lemma_new_file, lemma_slot, roomy_records};
use crate::dir::DirEntryType;
use crate::dir_growth_laws::{
    dir_in_place, elsewhere, law_grown_directory_has_the_name, law_path_into_a_grown_directory, lemma_in_place,
};
use crate::dirops::{dir_blocks, find_entry, parent_and_base, resolve, stage_add_entry, EXT4_ROOT_INODE};
use crate::error::Error;
use crate::fs::checked_inode;
use crate::grow::extend_stage;
use crate::inode::{
    flags_of, generation_of, inode_fault, links_of, mode_is_dir, mode_is_file, mode_of, size_of_file, FL_INDEX,
};
use crate::inode_edit::{moved_links, new_dir_inode, new_file_inode};
use crate::link_laws::{lemma_checked, lemma_relinked, relinked_record};
use crate::mkdir_laws::{lemma_new_dir_staged, new_dir_block};
use crate::name_laws::{
    lemma_alike_finds, lemma_dir_stands_on, lemma_moved_record, lemma_path_steps, lemma_walk_but, own_slot, quiet, slots_stand,
};
use crate::names::{
    created, entered, filled, free_name, link_type, linked, made_dir, new_dir_stage, new_slot, stage_links, Slot,
};
use crate::order_laws::FILE_BLOCKS;
use crate::reach_laws::{
    beside, dir_clear, in_slot, lemma_record_beside, path_clear, record_clear, slot_block, slots_apart,
};
use crate::stage::stage_inode;
use crate::volume::{fresh_stage, Stage, Vol};
use vstd::prelude::*;

verus! {

/// A directory without an index, at the end of a clear path, that can grow by
/// the block that a name needs; and the inode that the name is for, with its
/// record in nothing that the growth changes.
pub open spec fn can_grow(v: Vol, path: Seq<u8>, parent: u32, raw: Seq<u8>, target: u32, ft: DirEntryType) -> bool {
    let (parent_path, name) = parent_and_base(path)->Ok_0;
    let slots = seq![own_slot(v, parent)];
    let safe = elsewhere(v, parent, raw);
    &&& parent_and_base(path) is Ok
    &&& name.len() <= 255
    &&& target != 0
    &&& dir_in_place(v, parent, raw)
    &&& mode_is_dir(mode_of(raw))
    &&& flags_of(raw) & FL_INDEX == 0
    &&& dir_blocks(v, raw) < FILE_BLOCKS
    &&& size_of_file(raw) + v.bs() <= v.sb.blocks_count * v.bs()
    &&& resolve(v, parent_path) == Ok::<u32, Error>(parent)
    &&& path_clear(v, safe, slots, seq![parent], parent_path, 0, EXT4_ROOT_INODE)
    &&& record_clear(v, safe, slots, target)
    &&& find_entry(v, parent, raw, name) == Err::<u32, Error>(Error::NotFound)
    &&& extend_stage(v, parent, name, target, ft) is Ok
}

/// A name for which its directory had no room leads to the inode that it was
/// entered for, over whatever was staged before; the directory is one block
/// longer, and every other name of it leads where it did.
pub proof fn law_name_enters_a_full_directory(
    v: Vol,
    st: Stage,
    path: Seq<u8>,
    parent: u32,
    raw: Seq<u8>,
    target: u32,
    ft: DirEntryType,
)
    requires
        can_grow(committed(v, st), path, parent, raw, target, ft),
        stage_add_entry(v, st, parent, raw, parent_and_base(path)->Ok_0.1, target, ft) == Err::<Stage, Error>(
            Error::OutOfBounds,
        ),
    ensures
        ({
            let name = parent_and_base(path)->Ok_0.1;
            let u = committed(v, st);
            let (w, r) = entered(v, st, parent, raw, name, target, ft);
            let rec = checked_inode(w, parent)->Ok_0;
            &&& r is Ok
            &&& resolve(w, path) == Ok::<u32, Error>(target)
            &&& checked_inode(w, target) == checked_inode(u, target)
            &&& checked_inode(w, parent) is Ok
            &&& size_of_file(rec) == size_of_file(raw) + v.bs()
            &&& forall|other: Seq<u8>|
                other != name ==> #[trigger] find_entry(w, parent, rec, other) == find_entry(u, parent, raw, other)
        }),
{
    let (parent_path, name) = parent_and_base(path)->Ok_0;
    let u = committed(v, st);
    let safe = elsewhere(u, parent, raw);
    let w = committed(u, extend_stage(u, parent, name, target, ft)->Ok_0);
    let rec = checked_inode(w, parent)->Ok_0;
    lemma_in_place(u, parent, raw);
    law_path_into_a_grown_directory(u, path, parent, raw, target, ft);
    law_grown_directory_has_the_name(u, parent, raw, name, target, ft, name);
    lemma_record_beside(u, w, safe, safe, seq![own_slot(u, parent)], target);
    assert forall|other: Seq<u8>| other != name implies #[trigger] find_entry(w, parent, rec, other) == find_entry(
        u,
        parent,
        raw,
        other,
    ) by {
        law_grown_directory_has_the_name(u, parent, raw, name, target, ft, other);
    }
}

/// A new inode whose directory had no room for its name is at its path.
pub proof fn law_new_inode_in_a_full_directory(v: Vol, path: Seq<u8>, s: Slot, rec: Seq<u8>, ft: DirEntryType)
    requires
        v.wf(),
        rec.len() == v.sb.inode_size,
        inode_fault(rec) is None,
        !mode_is_dir(mode_of(rec)),
        v.csum.enabled ==> inode_crc_ok(v.csum.seed, s.ino, generation_of(rec), rec),
        parent_and_base(path) is Ok,
        s.name == parent_and_base(path)->Ok_0.1,
        stage_inode(v, s.stage, s.ino, rec) is Ok,
        can_grow(committed(v, stage_inode(v, s.stage, s.ino, rec)->Ok_0), path, s.parent, s.raw, s.ino, ft),
        stage_add_entry(v, stage_inode(v, s.stage, s.ino, rec)->Ok_0, s.parent, s.raw, s.name, s.ino, ft) == Err::<
            Stage,
            Error,
        >(Error::OutOfBounds),
    ensures
        ({
            let (w, r) = filled(v, s, rec, ft);
            &&& r == Ok::<u32, Error>(s.ino)
            &&& inode_at(w, path) == Ok::<(u32, Seq<u8>), Error>((s.ino, rec))
        }),
{
    let st = stage_inode(v, s.stage, s.ino, rec)->Ok_0;
    lemma_moved_record(v, s.stage, s.ino, rec, seq![own_slot(v, s.ino)], Seq::empty(), 0);
    assert(checked_inode(committed(v, st), s.ino) == Ok::<Seq<u8>, Error>(rec));
    law_name_enters_a_full_directory(v, st, path, s.parent, s.raw, s.ino, ft);
}

/// A file created in a directory that had no room for its name is at its path:
/// empty, with the permissions it was given and one link.
pub proof fn law_file_created_in_a_full_directory(v: Vol, path: Seq<u8>, mode: u16, now: u32, generation: u32)
    requires
        v.wf(),
        roomy_records(v),
        new_slot(v, path) is Ok,
        ({
            let s = new_slot(v, path)->Ok_0;
            let st = stage_inode(v, s.stage, s.ino, new_file_inode(v, s.ino, mode, now, generation));
            let ft = DirEntryType::RegFile;
            &&& st is Ok
            &&& can_grow(committed(v, st->Ok_0), path, s.parent, s.raw, s.ino, ft)
            &&& stage_add_entry(v, st->Ok_0, s.parent, s.raw, s.name, s.ino, ft) == Err::<Stage, Error>(
                Error::OutOfBounds,
            )
        }),
    ensures
        ({
            let s = new_slot(v, path)->Ok_0;
            let (w, r) = created(v, path, mode, now, generation);
            let rec = new_file_inode(v, s.ino, mode, now, generation);
            &&& r == Ok::<u32, Error>(s.ino)
            &&& inode_at(w, path) == Ok::<(u32, Seq<u8>), Error>((s.ino, rec))
            &&& mode_is_file(mode_of(rec))
            &&& mode_of(rec) & 0x0FFF == mode & 0x0FFF
            &&& size_of_file(rec) == 0
            &&& links_of(rec) == 1
        }),
{
    let s = new_slot(v, path)->Ok_0;
    let rec = new_file_inode(v, s.ino, mode, now, generation);
    lemma_new_file(v, s.ino, mode, now, generation);
    lemma_slot(v, path);
    law_new_inode_in_a_full_directory(v, path, s, rec, DirEntryType::RegFile);
}

/// A hard link made in a directory that had no room for its name leads to the
/// file, which has one link more.
pub proof fn law_link_made_in_a_full_directory(v: Vol, src: Seq<u8>, dst: Seq<u8>)
    requires
        v.wf(),
        inode_at(v, src) is Ok,
        !mode_is_dir(mode_of(inode_at(v, src)->Ok_0.1)),
        free_name(v, dst) is Ok,
        ({
            let (ino, raw) = inode_at(v, src)->Ok_0;
            let (parent, praw, name) = free_name(v, dst)->Ok_0;
            let ft = link_type(mode_of(raw));
            let st = stage_links(v, fresh_stage(v), ino, raw, 1);
            &&& st is Ok
            &&& can_grow(committed(v, st->Ok_0), dst, parent, praw, ino, ft)
            &&& stage_add_entry(v, st->Ok_0, parent, praw, name, ino, ft) == Err::<Stage, Error>(Error::OutOfBounds)
        }),
    ensures
        ({
            let (ino, raw) = inode_at(v, src)->Ok_0;
            let (w, r) = linked(v, src, dst);
            let rec = relinked_record(v, ino, raw, 1);
            &&& r is Ok
            &&& inode_at(w, dst) == Ok::<(u32, Seq<u8>), Error>((ino, rec))
            &&& links_of(rec) == moved_links(links_of(raw), 1)
        }),
{
    let (ino, raw) = inode_at(v, src)->Ok_0;
    let (parent, praw, name) = free_name(v, dst)->Ok_0;
    let rec = relinked_record(v, ino, raw, 1);
    let st = stage_links(v, fresh_stage(v), ino, raw, 1)->Ok_0;
    lemma_relinked(v, ino, raw, 1);
    lemma_moved_record(v, fresh_stage(v), ino, rec, seq![own_slot(v, ino)], Seq::empty(), 0);
    lemma_checked(v, committed(v, st), ino, raw, rec);
    law_name_enters_a_full_directory(v, st, dst, parent, praw, ino, link_type(mode_of(raw)));
}

/// The volume that a directory has grown in.
pub open spec fn grown(v: Vol, path: Seq<u8>, parent: u32, target: u32, ft: DirEntryType) -> Vol {
    committed(v, extend_stage(v, parent, parent_and_base(path)->Ok_0.1, target, ft)->Ok_0)
}

/// A directory's link count moved once it has grown: paths lead where they did.
proof fn lemma_recounted(u: Vol, path: Seq<u8>, parent: u32, raw: Seq<u8>, target: u32, ft: DirEntryType, fin: Stage)
    requires
        can_grow(u, path, parent, raw, target, ft),
        checked_inode(u, target) is Ok,
        ({
            let g = grown(u, path, parent, target, ft);
            let rec = checked_inode(g, parent)->Ok_0;
            &&& g.wf()
            &&& dir_clear(g, quiet(g, seq![own_slot(g, parent)], Seq::empty()), rec)
            &&& stage_links(g, fresh_stage(g), parent, rec, 1) == Ok::<Stage, Error>(fin)
        }),
    ensures
        ({
            let g = grown(u, path, parent, target, ft);
            let rec = checked_inode(g, parent)->Ok_0;
            let w = committed(g, fin);
            &&& checked_inode(g, parent) is Ok
            &&& checked_inode(w, parent) == Ok::<Seq<u8>, Error>(relinked_record(g, parent, rec, 1))
            &&& inode_at(w, path) == Ok::<(u32, Seq<u8>), Error>((target, checked_inode(u, target)->Ok_0))
        }),
{
    let (parent_path, name) = parent_and_base(path)->Ok_0;
    let g = grown(u, path, parent, target, ft);
    let w = committed(g, fin);
    let safe = elsewhere(u, parent, raw);
    let slots = seq![own_slot(u, parent)];
    let none = Seq::<u64>::empty();
    let start = fresh_stage(g);
    lemma_in_place(u, parent, raw);
    law_grown_directory_has_the_name(u, parent, raw, name, target, ft, name);
    let rec = checked_inode(g, parent)->Ok_0;
    let after = relinked_record(g, parent, rec, 1);
    assert(inode_place(g.sb, g.groups, parent) == inode_place(u.sb, u.groups, parent));
    assert(own_slot(g, parent) == own_slot(u, parent));
    assert(committed(g, start) == g);
    lemma_relinked(g, parent, rec, 1);
    lemma_moved_record(g, start, parent, after, slots, none, 0);
    lemma_checked(g, w, parent, rec, after);
    lemma_dir_stands_on(g, start, fin, slots, none, parent, rec);
    lemma_recount_beside(u, g, w, safe, parent, after, fin);
    assert forall|other: Seq<u8>| other != name && find_entry(u, parent, raw, other) is Ok implies #[trigger] find_entry(
        w,
        parent,
        after,
        other,
    ) == find_entry(u, parent, raw, other) by {
        law_grown_directory_has_the_name(u, parent, raw, name, target, ft, other);
        assert(find_entry(w, parent, rec, other) == find_entry(g, parent, rec, other));
        lemma_alike_finds(w, parent, rec, after, other, 0);
    }
    assert(find_entry(w, parent, rec, name) == find_entry(g, parent, rec, name));
    lemma_alike_finds(w, parent, rec, after, name, 0);
    lemma_walk_but(u, w, safe, slots, parent, raw, after, name, parent_path, 0, EXT4_ROOT_INODE, parent);
    lemma_path_steps(w, path);
    lemma_record_beside(u, w, safe, safe, slots, target);
}

/// What a growth and an edit of the directory's record leave alone.
proof fn lemma_recount_beside(u: Vol, g: Vol, w: Vol, safe: spec_fn(int) -> bool, parent: u32, after: Seq<u8>, fin: Stage)
    requires
        g.wf(),
        g.sb == u.sb,
        inode_place(g.sb, g.groups, parent) == inode_place(u.sb, u.groups, parent),
        beside(u, g, safe, seq![own_slot(u, parent)]),
        forall|k: int| #[trigger] safe(k) ==> k >= 0 && k != record_block(u, parent),
        after.len() == g.sb.inode_size,
        stage_inode(g, fresh_stage(g), parent, after) == Ok::<Stage, Error>(fin),
        w == committed(g, fin),
    ensures
        beside(u, w, safe, seq![own_slot(u, parent)]),
{
    let slots = seq![own_slot(u, parent)];
    let size = u.sb.inode_size as int;
    let bs = u.bs();
    assert(own_slot(g, parent) == own_slot(u, parent));
    lemma_moved_record(g, fresh_stage(g), parent, after, slots, Seq::empty(), 0);
    assert forall|d: u32| #[trigger] inode_place(w.sb, w.groups, d) == inode_place(u.sb, u.groups, d) by {
        lemma_same_place(g, fin, d);
        assert(inode_place(g.sb, g.groups, d) == inode_place(u.sb, u.groups, d));
    }
    assert forall|k: int| #[trigger] safe(k) implies block_at(w.img, bs, k) == block_at(u.img, bs, k) by {
        law_record_reads_back(g, fresh_stage(g), parent, after, k);
        assert(block_at(g.img, bs, k) == block_at(u.img, bs, k));
    }
    assert forall|k: int| #[trigger] slot_block(slots, k) implies slots_apart(u.img, w.img, bs, slots, size, k) by {
        assert(slots_apart(u.img, g.img, bs, slots, size, k));
        assert(slots_apart(g.img, w.img, bs, slots, size, k));
        if block_at(u.img, bs, k) is Ok {
            let x = block_at(u.img, bs, k)->Ok_0;
            let y = block_at(g.img, bs, k)->Ok_0;
            let z = block_at(w.img, bs, k)->Ok_0;
            assert forall|j: int| 0 <= j < x.len() && !in_slot(slots, size, k, j) implies #[trigger] z[j] == x[j] by {
                assert(y[j] == x[j]);
            }
        }
    }
}

/// A directory made in a directory that had no room for its name is at its
/// path, with the permissions it was given and two links; the directory that it
/// is in has one link more.
#[verifier::rlimit(40)]
pub proof fn law_directory_made_in_a_full_one(v: Vol, path: Seq<u8>, mode: u16, now: u32, generation: u32)
    requires
        v.wf(),
        roomy_records(v),
        free_name(v, path) is Ok,
        new_dir_stage(v, free_name(v, path)->Ok_0.0, mode, now, generation) is Ok,
        ({
            let (parent, raw, name) = free_name(v, path)->Ok_0;
            let (st, ino) = new_dir_stage(v, parent, mode, now, generation)->Ok_0;
            let ft = DirEntryType::Directory;
            let u = committed(v, st);
            let g = grown(u, path, parent, ino, ft);
            let rec = checked_inode(g, parent)->Ok_0;
            &&& slots_stand(v, seq![own_slot(v, ino)], seq![new_dir_block(v, parent)])
            &&& stage_add_entry(v, st, parent, raw, name, ino, ft) == Err::<Stage, Error>(Error::OutOfBounds)
            &&& can_grow(u, path, parent, raw, ino, ft)
            &&& g.wf()
            &&& dir_clear(g, quiet(g, seq![own_slot(g, parent)], Seq::empty()), rec)
            &&& stage_links(g, fresh_stage(g), parent, rec, 1) is Ok
        }),
    ensures
        ({
            let (parent, raw, name) = free_name(v, path)->Ok_0;
            let (st, ino) = new_dir_stage(v, parent, mode, now, generation)->Ok_0;
            let g = grown(committed(v, st), path, parent, ino, DirEntryType::Directory);
            let (w, r) = made_dir(v, path, mode, now, generation);
            let rec = new_dir_inode(v, ino, mode, new_dir_block(v, parent), now, generation);
            &&& r == Ok::<u32, Error>(ino)
            &&& inode_at(w, path) == Ok::<(u32, Seq<u8>), Error>((ino, rec))
            &&& mode_is_dir(mode_of(rec))
            &&& mode_of(rec) & 0x0FFF == mode & 0x0FFF
            &&& links_of(rec) == 2
            &&& checked_inode(w, parent) == Ok::<Seq<u8>, Error>(
                relinked_record(g, parent, checked_inode(g, parent)->Ok_0, 1),
            )
        }),
{
    let (parent, raw, name) = free_name(v, path)->Ok_0;
    let (st, ino) = new_dir_stage(v, parent, mode, now, generation)->Ok_0;
    let ft = DirEntryType::Directory;
    let u = committed(v, st);
    let g = grown(u, path, parent, ino, ft);
    let rec = new_dir_inode(v, ino, mode, new_dir_block(v, parent), now, generation);
    let held = checked_inode(g, parent)->Ok_0;
    let fin = stage_links(g, fresh_stage(g), parent, held, 1)->Ok_0;
    lemma_new_dir_staged(v, parent, mode, now, generation, seq![own_slot(v, ino)]);
    assert(checked_inode(u, ino) == Ok::<Seq<u8>, Error>(rec));
    lemma_in_place(u, parent, raw);
    lemma_recounted(u, path, parent, raw, ino, ft, fin);
}

} // verus!
