//! Where the path of a new directory leads, and what it holds.
use crate::allocator::{inode_planned, law_planned_inode_is_free, law_planned_run_is_free, law_planned_run_within};
use crate::attr::inode_at;
use crate::block_io::block_at;
use crate::checksum::inode_crc_ok;
use crate::commit::committed;
use crate::content_laws::{law_record_reads_back, lemma_same_place, lemma_whole_extent_maps, record_block};
use crate::contents::whole_extent;
use crate::create_laws::roomy_records;
use crate::dir::DirEntryType;
use crate::dirops::{dir_blocks, find_entry, find_entry_from, parent_and_base, stage_add_entry};
use crate::error::Error;
use crate::frame_laws::{lemma_block_plan_framed, lemma_inode_plan_framed};
use crate::fs::{checked_inode, file_block, keeps_types, raw_inode};
use crate::grow::{
    bitmaps_of, dots_block, home_group, stage_block_plan, stage_fresh, stage_inode_plan, volume_plan,
};
use crate::inode::{
    block_area_of, flags_of, generation_of, inode_fault, links_of, mode_is_dir, mode_of, size_of_file, FL_EXTENTS,
};
use crate::inode_edit::{first_block_extent, moved_links, new_dir_inode, root_with};
use crate::link_laws::{
    dot, dot_dot, lemma_checked, lemma_dir_record, lemma_dots_found, lemma_dots_len, lemma_record_survives, lemma_relinked,
    relinked_record, slots_differ,
};
use crate::name_laws::{
    is_new, lemma_entered_at, lemma_entered_in, lemma_moved_framed, lemma_moved_fresh, lemma_moved_on,
    lemma_moved_record, lemma_way_slots, moved, own_slot, slots_stand, way_in,
};
use crate::names::{free_name, made_dir, new_dir_stage, stage_links};
use crate::reach_laws::slot_block;
use crate::stage::stage_inode;
use crate::volume::{fresh_stage, Stage, Vol};
use vstd::prelude::*;

verus! {

/// The block that a new directory in `parent` gets: near the inode it gets.
#[verifier::opaque]
pub open spec fn new_dir_block(v: Vol, parent: u32) -> u64 {
    let gi = inode_planned(v.sb, v.groups, true, home_group(v, parent), bitmaps_of(v))->Ok_0.bgd.group_idx;
    volume_plan(v, 1, gi, Seq::empty())->Ok_0.first_block
}

/// A directory that was made is at its path, with the permissions it was given
/// and two links; its parent has one link more, and every other name of the
/// parent leads where it did. The parent is in good order and had room for the
/// entry.
#[verifier::rlimit(40)]
pub proof fn law_new_directory_is_at_its_path(v: Vol, path: Seq<u8>, mode: u16, now: u32, generation: u32)
    requires
        v.wf(),
        roomy_records(v),
        free_name(v, path) is Ok,
        new_dir_stage(v, free_name(v, path)->Ok_0.0, mode, now, generation) is Ok,
        ({
            let (parent, raw, name) = free_name(v, path)->Ok_0;
            let (st, ino) = new_dir_stage(v, parent, mode, now, generation)->Ok_0;
            let phys = new_dir_block(v, parent);
            let slots = seq![own_slot(v, ino), own_slot(v, parent)];
            let st1 = stage_add_entry(v, st, parent, raw, name, ino, DirEntryType::Directory);
            &&& way_in(v, slots, seq![phys], parent_and_base(path)->Ok_0.0, parent, raw)
            &&& slots_differ(own_slot(v, parent), own_slot(v, ino), v.sb.inode_size as int)
            &&& st1 is Ok
            &&& stage_links(v, st1->Ok_0, parent, raw, 1) is Ok
        }),
    ensures
        ({
            let (parent, raw, name) = free_name(v, path)->Ok_0;
            let ino = new_dir_stage(v, parent, mode, now, generation)->Ok_0.1;
            let phys = new_dir_block(v, parent);
            let (w, r) = made_dir(v, path, mode, now, generation);
            let rec = new_dir_inode(v, ino, mode, phys, now, generation);
            let after = relinked_record(v, parent, raw, 1);
            &&& r == Ok::<u32, Error>(ino)
            &&& inode_at(w, path) == Ok::<(u32, Seq<u8>), Error>((ino, rec))
            &&& mode_is_dir(mode_of(rec))
            &&& mode_of(rec) & 0x0FFF == mode & 0x0FFF
            &&& links_of(rec) == 2
            &&& inode_at(w, parent_and_base(path)->Ok_0.0) == Ok::<(u32, Seq<u8>), Error>((parent, after))
            &&& links_of(after) == moved_links(links_of(raw), 1)
            &&& forall|other: Seq<u8>|
                other != name ==> #[trigger] find_entry(w, parent, after, other) == find_entry(v, parent, raw, other)
        }),
{
    let (parent, raw, name) = free_name(v, path)->Ok_0;
    let (st, ino) = new_dir_stage(v, parent, mode, now, generation)->Ok_0;
    let phys = new_dir_block(v, parent);
    let rec = new_dir_inode(v, ino, mode, phys, now, generation);
    let slots = seq![own_slot(v, ino), own_slot(v, parent)];
    lemma_way_slots(v, slots, seq![phys], parent_and_base(path)->Ok_0.0, parent, raw);
    lemma_new_dir_staged(v, parent, mode, now, generation, slots);
    lemma_dir_entered(v, path, parent, raw, st, ino, phys, rec);
}

/// A new directory's entry, and its parent's link.
#[verifier::rlimit(40)]
proof fn lemma_dir_entered(
    v: Vol,
    path: Seq<u8>,
    parent: u32,
    raw: Seq<u8>,
    st: Stage,
    ino: u32,
    phys: u64,
    rec: Seq<u8>,
)
    requires
        v.wf(),
        parent_and_base(path) is Ok,
        parent_and_base(path)->Ok_0.1.len() <= 255,
        checked_inode(v, parent) == Ok::<Seq<u8>, Error>(raw),
        find_entry(v, parent, raw, parent_and_base(path)->Ok_0.1) == Err::<u32, Error>(Error::NotFound),
        ino != 0,
        moved(v, fresh_stage(v), st, seq![own_slot(v, ino), own_slot(v, parent)], seq![phys]),
        raw_inode(committed(v, st), ino) == Ok::<Seq<u8>, Error>(rec),
        inode_fault(rec) is None,
        size_of_file(rec) <= v.sb.blocks_count * v.bs(),
        v.csum.enabled ==> inode_crc_ok(v.csum.seed, ino, generation_of(rec), rec),
        way_in(
            v,
            seq![own_slot(v, ino), own_slot(v, parent)],
            seq![phys],
            parent_and_base(path)->Ok_0.0,
            parent,
            raw,
        ),
        slots_differ(own_slot(v, parent), own_slot(v, ino), v.sb.inode_size as int),
        ({
            let name = parent_and_base(path)->Ok_0.1;
            let mid = stage_add_entry(v, st, parent, raw, name, ino, DirEntryType::Directory);
            &&& mid is Ok
            &&& stage_links(v, mid->Ok_0, parent, raw, 1) is Ok
        }),
    ensures
        ({
            let (parent_path, name) = parent_and_base(path)->Ok_0;
            let mid = stage_add_entry(v, st, parent, raw, name, ino, DirEntryType::Directory)->Ok_0;
            let w = committed(v, stage_links(v, mid, parent, raw, 1)->Ok_0);
            let after = relinked_record(v, parent, raw, 1);
            &&& inode_at(w, path) == Ok::<(u32, Seq<u8>), Error>((ino, rec))
            &&& inode_at(w, parent_path) == Ok::<(u32, Seq<u8>), Error>((parent, after))
            &&& links_of(after) == moved_links(links_of(raw), 1)
            &&& forall|other: Seq<u8>|
                other != name ==> #[trigger] find_entry(w, parent, after, other) == find_entry(v, parent, raw, other)
        }),
{
    let name = parent_and_base(path)->Ok_0.1;
    let slots = seq![own_slot(v, ino), own_slot(v, parent)];
    let new = seq![phys];
    let ft = DirEntryType::Directory;
    lemma_way_slots(v, slots, new, parent_and_base(path)->Ok_0.0, parent, raw);
    let mid = stage_add_entry(v, st, parent, raw, name, ino, ft)->Ok_0;
    let after = relinked_record(v, parent, raw, 1);
    lemma_relinked(v, parent, raw, 1);
    lemma_moved_record(v, mid, parent, after, slots, new, 1);
    let fin = stage_links(v, mid, parent, raw, 1)->Ok_0;
    let w = committed(v, fin);
    lemma_checked(v, w, parent, raw, after);
    lemma_entered_at(v, st, fin, slots, new, path, parent, raw, after, ino, ft);
    let p = lemma_entered_in(v, st, slots, new, path, parent, raw, ino, ft);
    assert(raw_inode(committed(v, mid), ino) == Ok::<Seq<u8>, Error>(rec)) by {
        lemma_same_place(v, st, ino);
        lemma_same_place(v, mid, ino);
        assert(slot_block(slots, slots[0].0));
    }
    lemma_record_survives(v, mid, parent, after, ino, rec);
}

/// A new directory that no entry names yet.
pub(crate) proof fn lemma_new_dir_staged(
    v: Vol,
    parent: u32,
    mode: u16,
    now: u32,
    generation: u32,
    slots: Seq<(int, int)>,
)
    requires
        v.wf(),
        roomy_records(v),
        new_dir_stage(v, parent, mode, now, generation) is Ok,
        ({
            let ino = new_dir_stage(v, parent, mode, now, generation)->Ok_0.1;
            let phys = new_dir_block(v, parent);
            &&& slots.len() > 0
            &&& slots[0] == own_slot(v, ino)
            &&& slots_stand(v, slots, seq![phys])
        }),
    ensures
        ({
            let (st, ino) = new_dir_stage(v, parent, mode, now, generation)->Ok_0;
            let phys = new_dir_block(v, parent);
            let rec = new_dir_inode(v, ino, mode, phys, now, generation);
            &&& ino != 0
            &&& phys < 0x1_0000_0000_0000
            &&& moved(v, fresh_stage(v), st, slots, seq![phys])
            &&& raw_inode(committed(v, st), ino) == Ok::<Seq<u8>, Error>(rec)
            &&& block_at(st.img, v.bs(), phys as int) == Ok::<Seq<u8>, Error>(dots_block(v, ino, parent, generation))
            &&& inode_fault(rec) is None
            &&& mode_is_dir(mode_of(rec))
            &&& mode_of(rec) & 0x0FFF == mode & 0x0FFF
            &&& links_of(rec) == 2
            &&& size_of_file(rec) == v.bs()
            &&& size_of_file(rec) <= v.sb.blocks_count * v.bs()
            &&& generation_of(rec) == generation
            &&& v.csum.enabled ==> inode_crc_ok(v.csum.seed, ino, generation, rec)
        }),
{
    reveal(new_dir_stage);
    reveal(new_dir_block);
    let start = fresh_stage(v);
    let hint = home_group(v, parent);
    law_planned_inode_is_free(v.sb, v.groups, true, hint, bitmaps_of(v));
    let iplan = inode_planned(v.sb, v.groups, true, hint, bitmaps_of(v))->Ok_0;
    let ino = iplan.inode;
    let gi = iplan.bgd.group_idx;
    let bplan = volume_plan(v, 1, gi, Seq::empty())->Ok_0;
    let phys = bplan.first_block;
    law_planned_run_within(v.sb, v.groups, 1, gi, Seq::empty(), bitmaps_of(v));
    law_planned_run_is_free(v.sb, v.groups, 1, gi, Seq::empty(), bitmaps_of(v));
    let new = seq![phys];
    let rec = new_dir_inode(v, ino, mode, phys, now, generation);
    lemma_dir_record(v, ino, mode, phys, now, generation);
    let b = dots_block(v, ino, parent, generation);
    lemma_inode_plan_framed(v, start, iplan);
    let st1 = stage_inode_plan(v, start, iplan)->Ok_0;
    lemma_block_plan_framed(v, st1, bplan);
    let st2 = stage_block_plan(v, st1, bplan)->Ok_0;
    lemma_moved_framed(v, start, st1, slots, new);
    lemma_moved_framed(v, st1, st2, slots, new);
    lemma_moved_on(v, start, st1, st2, slots, new);
    lemma_moved_record(v, st2, ino, rec, slots, new, 0);
    let st3 = stage_inode(v, st2, ino, rec)->Ok_0;
    lemma_moved_on(v, start, st2, st3, slots, new);
    lemma_dots_len(v, ino, parent, generation);
    lemma_moved_fresh(v, st3, phys, b, slots, new, 0);
    let st = stage_fresh(v, st3, phys, b)->Ok_0;
    lemma_moved_on(v, start, st3, st, slots, new);
    assert(raw_inode(committed(v, st), ino) == Ok::<Seq<u8>, Error>(rec)) by {
        lemma_same_place(v, st3, ino);
        lemma_same_place(v, st, ino);
        assert(slot_block(slots, slots[0].0));
        assert(new[0] == phys);
        crate::block_io::lemma_with_block(st3.img, v.bs(), phys as int, b, record_block(v, ino));
    }
    assert(v.bs() <= v.sb.blocks_count * v.bs()) by (nonlinear_arith)
        requires
            v.sb.blocks_count >= 1,
            v.bs() > 0,
    ;
}

/// A directory that was made names itself and its parent, and nothing else.
#[verifier::rlimit(40)]
pub proof fn law_new_directory_is_empty(v: Vol, path: Seq<u8>, mode: u16, now: u32, generation: u32, name: Seq<u8>)
    requires
        v.wf(),
        roomy_records(v),
        v.csum.enabled ==> keeps_types(v),
        free_name(v, path) is Ok,
        free_name(v, path)->Ok_0.0 != 0,
        new_dir_stage(v, free_name(v, path)->Ok_0.0, mode, now, generation) is Ok,
        ({
            let (parent, raw, given) = free_name(v, path)->Ok_0;
            let (st, ino) = new_dir_stage(v, parent, mode, now, generation)->Ok_0;
            let phys = new_dir_block(v, parent);
            let slots = seq![own_slot(v, ino), own_slot(v, parent)];
            let st1 = stage_add_entry(v, st, parent, raw, given, ino, DirEntryType::Directory);
            &&& way_in(v, slots, seq![phys], parent_and_base(path)->Ok_0.0, parent, raw)
            &&& st1 is Ok
            &&& stage_links(v, st1->Ok_0, parent, raw, 1) is Ok
        }),
    ensures
        ({
            let parent = free_name(v, path)->Ok_0.0;
            let ino = new_dir_stage(v, parent, mode, now, generation)->Ok_0.1;
            let phys = new_dir_block(v, parent);
            let w = made_dir(v, path, mode, now, generation).0;
            find_entry(w, ino, new_dir_inode(v, ino, mode, phys, now, generation), name) == (if name == dot() {
                Ok::<u32, Error>(ino)
            } else if name == dot_dot() {
                Ok(parent)
            } else {
                Err(Error::NotFound)
            })
        }),
{
    let (parent, raw, given) = free_name(v, path)->Ok_0;
    let (st, ino) = new_dir_stage(v, parent, mode, now, generation)->Ok_0;
    let phys = new_dir_block(v, parent);
    let slots = seq![own_slot(v, ino), own_slot(v, parent)];
    lemma_way_slots(v, slots, seq![phys], parent_and_base(path)->Ok_0.0, parent, raw);
    lemma_new_dir_staged(v, parent, mode, now, generation, slots);
    lemma_dots_kept(v, path, parent, raw, st, ino, phys, dots_block(v, ino, parent, generation));
    lemma_dir_record(v, ino, mode, phys, now, generation);
    let w = made_dir(v, path, mode, now, generation).0;
    lemma_dots_only(v, w, ino, parent, generation, phys, new_dir_inode(v, ino, mode, phys, now, generation), name);
}

/// A new directory's block is what it was staged as.
pub(crate) proof fn lemma_dots_kept(
    v: Vol,
    path: Seq<u8>,
    parent: u32,
    raw: Seq<u8>,
    st: Stage,
    ino: u32,
    phys: u64,
    b: Seq<u8>,
)
    requires
        v.wf(),
        parent_and_base(path) is Ok,
        parent_and_base(path)->Ok_0.1.len() <= 255,
        checked_inode(v, parent) == Ok::<Seq<u8>, Error>(raw),
        find_entry(v, parent, raw, parent_and_base(path)->Ok_0.1) == Err::<u32, Error>(Error::NotFound),
        ino != 0,
        moved(v, fresh_stage(v), st, seq![own_slot(v, ino), own_slot(v, parent)], seq![phys]),
        block_at(st.img, v.bs(), phys as int) == Ok::<Seq<u8>, Error>(b),
        way_in(
            v,
            seq![own_slot(v, ino), own_slot(v, parent)],
            seq![phys],
            parent_and_base(path)->Ok_0.0,
            parent,
            raw,
        ),
        ({
            let name = parent_and_base(path)->Ok_0.1;
            let mid = stage_add_entry(v, st, parent, raw, name, ino, DirEntryType::Directory);
            &&& mid is Ok
            &&& stage_links(v, mid->Ok_0, parent, raw, 1) is Ok
        }),
    ensures
        ({
            let name = parent_and_base(path)->Ok_0.1;
            let mid = stage_add_entry(v, st, parent, raw, name, ino, DirEntryType::Directory)->Ok_0;
            let fin = stage_links(v, mid, parent, raw, 1)->Ok_0;
            block_at(fin.img, v.bs(), phys as int) == Ok::<Seq<u8>, Error>(b)
        }),
{
    let name = parent_and_base(path)->Ok_0.1;
    let slots = seq![own_slot(v, ino), own_slot(v, parent)];
    let new = seq![phys];
    let ft = DirEntryType::Directory;
    lemma_way_slots(v, slots, new, parent_and_base(path)->Ok_0.0, parent, raw);
    let mid = stage_add_entry(v, st, parent, raw, name, ino, ft)->Ok_0;
    let p = lemma_entered_in(v, st, slots, new, path, parent, raw, ino, ft);
    lemma_relinked(v, parent, raw, 1);
    assert(new[0] == phys);
    assert(is_new(new, phys as int));
    assert(slots[1] == own_slot(v, parent));
    assert(slot_block(slots, slots[1].0));
    law_record_reads_back(v, mid, parent, relinked_record(v, parent, raw, 1), phys as int);
}

/// A directory of one block that names itself and its parent.
proof fn lemma_dots_only(
    v: Vol,
    w: Vol,
    ino: u32,
    parent: u32,
    generation: u32,
    phys: u64,
    rec: Seq<u8>,
    name: Seq<u8>,
)
    requires
        v.wf(),
        w.sb == v.sb,
        w.csum == v.csum,
        v.csum.enabled ==> keeps_types(v),
        ino != 0,
        parent != 0,
        phys < 0x1_0000_0000_0000,
        size_of_file(rec) == v.bs(),
        flags_of(rec) == FL_EXTENTS,
        generation_of(rec) == generation,
        block_area_of(rec) == root_with(seq![first_block_extent(phys)]),
        w.block(phys as int) == Ok::<Seq<u8>, Error>(dots_block(v, ino, parent, generation)),
    ensures
        find_entry(w, ino, rec, name) == (if name == dot() {
            Ok::<u32, Error>(ino)
        } else if name == dot_dot() {
            Ok(parent)
        } else {
            Err(Error::NotFound)
        }),
{
    lemma_whole_extent_maps(w.img, v.bs(), phys, 1, 0, None);
    assert(whole_extent(phys, 1) == first_block_extent(phys));
    assert(0x80000u32 & 0x80000u32 != 0) by (bit_vector);
    assert(file_block(w, rec, 0) == Ok::<Option<u64>, Error>(Some(phys)));
    lemma_dots_found(v, ino, parent, generation, name);
    assert(dir_blocks(w, rec) == 1) by (nonlinear_arith)
        requires
            dir_blocks(w, rec) == (v.bs() + v.bs() - 1) / v.bs(),
            v.bs() > 0,
    ;
    reveal_with_fuel(find_entry_from, 2);
}

} // verus!
