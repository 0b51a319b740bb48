//! Where the path of a new file leads.
use crate::allocator::{
    inode_planned, law_planned_inode_is_free, law_planned_run_is_free, law_planned_run_within, BlockAllocationPlan,
};
use crate::attr::inode_at;
use crate::bgd::inode_place;
use crate::block_io::block_at;
use crate::bytes::{le16, le32, put16, put32, splice, zeros};
use crate::capi::link_target;
use crate::checksum::{inode_crc_ok, law_stamped_inode_verifies};
use crate::commit::committed;
use crate::content_laws::{
    holds_part, law_record_reads_back, lemma_reads_as, lemma_same_place, lemma_whole_extent_maps, record_block,
};
use crate::contents::whole_extent;
use crate::dir::DirEntryType;
use crate::dirops::{find_entry, parent_and_base, stage_add_entry};
use crate::error::{Error, Result};
use crate::file_io::tree_of;
use crate::frame_laws::{framed, lemma_block_plan_framed, lemma_inode_plan_framed};
use crate::fs::raw_inode;
use crate::grow::{bitmaps_of, home_group, stage_block_plan, stage_fresh, volume_plan};
use crate::inode::{
    block_area_of, extra_isize_of, flags_of, generation_of, inode_fault, links_of, mode_is_dir, mode_is_file,
    mode_is_symlink, mode_of, size_of_file, Inode, EXTRA_ISIZE_DEFAULT, FL_EXTENTS, INODE_EXTRA_OFFSET, INODE_SIZE_WITH_EXTRA, S_IFBLK,
    S_IFCHR, S_IFLNK, S_IFMT, S_IFREG,
};
use crate::inode_edit::{
    blank_inode, born, first_block_extent, flavor_of, new_fast_symlink_inode, new_file_inode, new_slow_symlink_inode, new_special_inode, root_with, with_block_area, with_extra_isize, with_times,
};
use crate::name_laws::{
    dir_holds, is_new, lemma_edited_beside, lemma_entered_at, lemma_entered_in, lemma_moved_framed, lemma_moved_fresh, lemma_moved_on,
    lemma_moved_record, lemma_still, lemma_way_slots, moved, own_slot, untouched, way_in,
};
use crate::names::{created, filled, free_name, new_slot, noded, special_type, symlinked, Slot, SYMLINK_MAX};
use crate::reach_laws::{beside, lemma_record_beside, record_clear, slot_block};
use crate::stage::stage_inode;
use crate::volume::{fresh_stage, Stage, Vol};
use vstd::prelude::*;

verus! {

broadcast use crate::bytes::group_fields;

// -- new files --------------------------------------------------------------

/// Records of this size have room for the extra section that a new one is
/// given, or for none.
pub open spec fn roomy_records(v: Vol) -> bool {
    v.sb.inode_size < INODE_SIZE_WITH_EXTRA || v.sb.inode_size >= INODE_EXTRA_OFFSET + EXTRA_ISIZE_DEFAULT
}

/// A new record keeps what it was made of, and can be trusted.
pub(crate) proof fn lemma_born(v: Vol, ino: u32, raw: Seq<u8>, now: u32, generation: u32)
    requires
        v.wf(),
        roomy_records(v),
        raw.len() == v.sb.inode_size,
        extra_isize_of(raw) == 0,
    ensures
        ({
            let out = born(v, ino, raw, now, generation);
            &&& out.len() == v.sb.inode_size
            &&& inode_fault(out) is None
            &&& generation_of(out) == generation
            &&& mode_of(out) == mode_of(raw)
            &&& size_of_file(out) == size_of_file(raw)
            &&& flags_of(out) == flags_of(raw)
            &&& links_of(out) == links_of(raw)
            &&& block_area_of(out) == block_area_of(raw)
            &&& v.csum.enabled ==> inode_crc_ok(v.csum.seed, ino, generation, out)
        }),
{
    let bare = with_extra_isize(put32(with_times(raw, now), 0x64, generation));
    let out = born(v, ino, raw, now, generation);
    if v.csum.enabled {
        law_stamped_inode_verifies(v.csum, ino, generation, bare);
    }
    assert(block_area_of(out) =~= block_area_of(raw)) by {
        reveal(put16);
        reveal(put32);
    }
}

/// The entry for a new inode, and its record, fit where they go.
pub open spec fn has_room(v: Vol, s: Slot, rec: Seq<u8>, ft: DirEntryType) -> bool {
    &&& stage_inode(v, s.stage, s.ino, rec) is Ok
    &&& stage_add_entry(v, stage_inode(v, s.stage, s.ino, rec)->Ok_0, s.parent, s.raw, s.name, s.ino, ft) is Ok
}

/// What a new name leads to: a record at the end of its path. Every other name
/// of its directory leads where it did.
pub open spec fn new_name(v: Vol, w: Vol, s: Slot, path: Seq<u8>, rec: Seq<u8>) -> bool {
    &&& inode_at(w, path) == Ok::<(u32, Seq<u8>), Error>((s.ino, rec))
    &&& forall|other: Seq<u8>|
        other != s.name ==> #[trigger] find_entry(w, s.parent, s.raw, other) == find_entry(v, s.parent, s.raw, other)
}

pub(crate) proof fn lemma_slot(v: Vol, path: Seq<u8>)
    requires
        v.wf(),
        new_slot(v, path) is Ok,
    ensures
        ({
            let s = new_slot(v, path)->Ok_0;
            &&& parent_and_base(path) is Ok
            &&& s.name == parent_and_base(path)->Ok_0.1
            &&& s.name.len() <= 255
            &&& s.ino != 0
            &&& inode_at(v, parent_and_base(path)->Ok_0.0) == Ok::<(u32, Seq<u8>), Error>((s.parent, s.raw))
            &&& find_entry(v, s.parent, s.raw, s.name) == Err::<u32, Error>(Error::NotFound)
            &&& framed(v, fresh_stage(v), s.stage)
        }),
{
    let (parent, raw, name) = free_name(v, path)->Ok_0;
    law_planned_inode_is_free(v.sb, v.groups, false, home_group(v, parent), bitmaps_of(v));
    let plan = inode_planned(v.sb, v.groups, false, home_group(v, parent), bitmaps_of(v))->Ok_0;
    lemma_inode_plan_framed(v, fresh_stage(v), plan);
}

/// A slot for a new inode, with the way to it clear, and with a directory
/// whose own record is in nothing that changes.
pub open spec fn slot_ready(v: Vol, path: Seq<u8>, s: Slot, new: Seq<u64>) -> bool {
    let slots = seq![own_slot(v, s.ino)];
    &&& way_in(v, slots, new, parent_and_base(path)->Ok_0.0, s.parent, s.raw)
    &&& record_clear(v, untouched(v, slots, new, s.raw), slots, s.parent)
}

/// Filling a slot and naming it, over what else is staged.
#[verifier::rlimit(40)]
proof fn lemma_filled_at(v: Vol, path: Seq<u8>, st: Stage, new: Seq<u64>, rec: Seq<u8>, ft: DirEntryType)
    requires
        v.wf(),
        new_slot(v, path) is Ok,
        ({
            let s = Slot { stage: st, ..new_slot(v, path)->Ok_0 };
            &&& slot_ready(v, path, s, new)
            &&& moved(v, fresh_stage(v), st, seq![own_slot(v, s.ino)], new)
            &&& rec.len() == v.sb.inode_size
            &&& inode_fault(rec) is None
            &&& !mode_is_dir(mode_of(rec))
            &&& v.csum.enabled ==> inode_crc_ok(v.csum.seed, s.ino, generation_of(rec), rec)
            &&& has_room(v, s, rec, ft)
        }),
    ensures
        ({
            let s = Slot { stage: st, ..new_slot(v, path)->Ok_0 };
            let (w, r) = filled(v, s, rec, ft);
            let st1 = stage_inode(v, st, s.ino, rec)->Ok_0;
            &&& r == Ok::<u32, Error>(s.ino)
            &&& new_name(v, w, s, path, rec)
            &&& beside(committed(v, st1), w, untouched_but(v, s.raw), Seq::empty())
        }),
{
    let s = Slot { stage: st, ..new_slot(v, path)->Ok_0 };
    let slots = seq![own_slot(v, s.ino)];
    lemma_slot(v, path);
    lemma_way_slots(v, slots, new, parent_and_base(path)->Ok_0.0, s.parent, s.raw);
    lemma_moved_record(v, st, s.ino, rec, slots, new, 0);
    let st1 = stage_inode(v, st, s.ino, rec)->Ok_0;
    lemma_moved_on(v, fresh_stage(v), st, st1, slots, new);
    let mid = stage_add_entry(v, st1, s.parent, s.raw, s.name, s.ino, ft)->Ok_0;
    let w = committed(v, mid);
    let p = lemma_entered_in(v, st1, slots, new, path, s.parent, s.raw, s.ino, ft);
    lemma_still(v, mid, slots, new);
    lemma_edited_beside(v, st1, mid, mid, slots, new, s.raw, p);
    let safe = untouched(v, slots, new, s.raw);
    lemma_record_beside(v, w, safe, safe, slots, s.parent);
    lemma_entered_at(v, st1, mid, slots, new, path, s.parent, s.raw, s.raw, s.ino, ft);
    lemma_same_place(v, st1, s.ino);
    lemma_same_place(v, mid, s.ino);
    assert(slot_block(slots, slots[0].0));
    assert(p != record_block(v, s.ino));
    assert(raw_inode(w, s.ino) == Ok::<Seq<u8>, Error>(rec));
    assert forall|d: u32| #[trigger] inode_place(w.sb, w.groups, d) == inode_place(
        committed(v, st1).sb,
        committed(v, st1).groups,
        d,
    ) by {
        lemma_same_place(v, st1, d);
        lemma_same_place(v, mid, d);
    }
}

/// The blocks that are not a directory's.
pub open spec fn untouched_but(v: Vol, raw: Seq<u8>) -> spec_fn(int) -> bool {
    |k: int| k >= 0 && !dir_holds(v, raw, k)
}

/// The record of a new file.
pub(crate) proof fn lemma_new_file(v: Vol, ino: u32, mode: u16, now: u32, generation: u32)
    requires
        v.wf(),
        roomy_records(v),
    ensures
        ({
            let rec = new_file_inode(v, ino, mode, now, generation);
            &&& rec.len() == v.sb.inode_size
            &&& inode_fault(rec) is None
            &&& mode_is_file(mode_of(rec))
            &&& !mode_is_dir(mode_of(rec))
            &&& mode_of(rec) & 0x0FFF == mode & 0x0FFF
            &&& size_of_file(rec) == 0
            &&& links_of(rec) == 1
            &&& v.csum.enabled ==> inode_crc_ok(v.csum.seed, ino, generation_of(rec), rec)
        }),
{
    let m = S_IFREG | (mode & 0x0FFF);
    let blank = blank_inode(v, m, 1);
    let raw = if flavor_of(v) is Ext4 {
        with_block_area(put32(blank, 0x20, FL_EXTENTS), root_with(Seq::empty()))
    } else {
        blank
    };
    lemma_blank(v, m, 1);
    assert(root_with(Seq::empty()).len() == 60);
    assert(raw.len() == v.sb.inode_size && mode_of(raw) == m && size_of_file(raw) == 0 && links_of(raw) == 1
        && extra_isize_of(raw) == 0) by {
        reveal(le16);
        reveal(le32);
    }
    lemma_born(v, ino, raw, now, generation);
    assert((0x8000u16 | (mode & 0x0FFF)) & 0xF000 == 0x8000 && (0x8000u16 | (mode & 0x0FFF)) & 0x0FFF == mode & 0x0FFF)
        by (bit_vector);
    assert(0x8000u16 != 0x4000u16);
}

/// A file that was created is at its path: empty, with the permissions it was
/// given and one link. Every other name of the directory leads where it did.
/// The directory is one in good order that had room for the entry.
pub proof fn law_created_file_is_at_its_path(v: Vol, path: Seq<u8>, mode: u16, now: u32, generation: u32)
    requires
        v.wf(),
        roomy_records(v),
        new_slot(v, path) is Ok,
        ({
            let s = new_slot(v, path)->Ok_0;
            &&& slot_ready(v, path, s, Seq::empty())
            &&& has_room(v, s, new_file_inode(v, s.ino, mode, now, generation), DirEntryType::RegFile)
        }),
    ensures
        ({
            let s = new_slot(v, path)->Ok_0;
            let (w, r) = created(v, path, mode, now, generation);
            let rec = new_file_inode(v, s.ino, mode, now, generation);
            &&& r == Ok::<u32, Error>(s.ino)
            &&& new_name(v, w, s, path, rec)
            &&& mode_is_file(mode_of(rec))
            &&& mode_of(rec) & 0x0FFF == mode & 0x0FFF
            &&& size_of_file(rec) == 0
            &&& links_of(rec) == 1
        }),
{
    let s = new_slot(v, path)->Ok_0;
    let rec = new_file_inode(v, s.ino, mode, now, generation);
    lemma_new_file(v, s.ino, mode, now, generation);
    lemma_slot(v, path);
    lemma_way_slots(
        v,
        seq![own_slot(v, s.ino)],
        Seq::empty(),
        parent_and_base(path)->Ok_0.0,
        s.parent,
        s.raw,
    );
    lemma_moved_framed(v, fresh_stage(v), s.stage, seq![own_slot(v, s.ino)], Seq::empty());
    lemma_filled_at(v, path, s.stage, Seq::empty(), rec, DirEntryType::RegFile);
}

/// A record with nothing but a mode and a link count.
pub(crate) proof fn lemma_blank(v: Vol, mode: u16, links: u16)
    requires
        v.wf(),
    ensures
        ({
            let raw = blank_inode(v, mode, links);
            &&& raw.len() == v.sb.inode_size
            &&& mode_of(raw) == mode
            &&& links_of(raw) == links
            &&& size_of_file(raw) == 0
            &&& extra_isize_of(raw) == 0
        }),
{
    let z = zeros(v.sb.inode_size as nat);
    let raw = blank_inode(v, mode, links);
    assert(le32(z, 0x04) == 0 && le32(z, 0x6C) == 0) by {
        reveal(le32);
    }
    assert(z.len() >= 0x84 ==> le16(z, 0x80) == 0) by {
        reveal(le16);
    }
}

/// A special file that was made is at its path, with the mode it was given.
pub proof fn law_special_file_is_at_its_path(
    v: Vol,
    path: Seq<u8>,
    mode: u16,
    major: u32,
    minor: u32,
    now: u32,
    generation: u32,
)
    requires
        v.wf(),
        roomy_records(v),
        special_type(mode) is Some,
        new_slot(v, path) is Ok,
        ({
            let s = new_slot(v, path)->Ok_0;
            &&& slot_ready(v, path, s, Seq::empty())
            &&& has_room(
                v,
                s,
                new_special_inode(v, s.ino, mode, major, minor, now, generation),
                special_type(mode)->Some_0,
            )
        }),
    ensures
        ({
            let s = new_slot(v, path)->Ok_0;
            let (w, r) = noded(v, path, mode, major, minor, now, generation);
            let rec = new_special_inode(v, s.ino, mode, major, minor, now, generation);
            &&& r == Ok::<u32, Error>(s.ino)
            &&& new_name(v, w, s, path, rec)
            &&& mode_of(rec) == mode
            &&& size_of_file(rec) == 0
            &&& links_of(rec) == 1
        }),
{
    let s = new_slot(v, path)->Ok_0;
    let rec = new_special_inode(v, s.ino, mode, major, minor, now, generation);
    let blank = blank_inode(v, mode, 1);
    let kind = mode & S_IFMT;
    let raw = if kind == S_IFBLK || kind == S_IFCHR {
        put32(
            put32(blank, 0x28, (major << 8u32) | (minor & 0xff)),
            0x2C,
            (minor & 0xff) | (major << 8u32) | ((minor & !0xffu32) << 12u32),
        )
    } else {
        blank
    };
    lemma_blank(v, mode, 1);
    lemma_born(v, s.ino, raw, now, generation);
    lemma_slot(v, path);
    lemma_way_slots(
        v,
        seq![own_slot(v, s.ino)],
        Seq::empty(),
        parent_and_base(path)->Ok_0.0,
        s.parent,
        s.raw,
    );
    lemma_moved_framed(v, fresh_stage(v), s.stage, seq![own_slot(v, s.ino)], Seq::empty());
    lemma_filled_at(v, path, s.stage, Seq::empty(), rec, special_type(mode)->Some_0);
}

/// A record of a symbolic link, before it is finished.
proof fn lemma_link_blank(v: Vol, len: int)
    requires
        v.wf(),
        0 <= len <= u32::MAX,
    ensures
        ({
            let raw = put32(blank_inode(v, S_IFLNK | 0x1FF, 1), 0x04, len as u32);
            &&& raw.len() == v.sb.inode_size
            &&& mode_of(raw) == 0xA1FF
            &&& links_of(raw) == 1
            &&& size_of_file(raw) == len
            &&& extra_isize_of(raw) == 0
        }),
{
    let z = zeros(v.sb.inode_size as nat);
    assert(0xA000u16 | 0x1FF == 0xA1FF) by (bit_vector);
    lemma_blank(v, 0xA1FF, 1);
    let blank = blank_inode(v, 0xA1FF, 1);
    assert(le32(z, 0x6C) == 0) by {
        reveal(le32);
    }
    assert(le32(blank, 0x6C) == 0);
}

/// A symbolic link with a short target is at its path, and leads to the target
/// it was given.
pub proof fn law_short_link_leads_to_its_target(v: Vol, target: Seq<u8>, path: Seq<u8>, now: u32, generation: u32)
    requires
        v.wf(),
        roomy_records(v),
        0 < target.len() < 60,
        new_slot(v, path) is Ok,
        ({
            let s = new_slot(v, path)->Ok_0;
            &&& slot_ready(v, path, s, Seq::empty())
            &&& has_room(
                v,
                s,
                new_fast_symlink_inode(v, s.ino, target, now, generation),
                DirEntryType::Symlink,
            )
        }),
    ensures
        ({
            let s = new_slot(v, path)->Ok_0;
            let (w, r) = symlinked(v, target, path, now, generation);
            let rec = new_fast_symlink_inode(v, s.ino, target, now, generation);
            &&& r == Ok::<u32, Error>(s.ino)
            &&& new_name(v, w, s, path, rec)
            &&& mode_is_symlink(mode_of(rec))
            &&& forall|inode: Inode| #[trigger]
                inode.decodes(rec) ==> link_target(w, s.ino, inode) == Ok::<Seq<u8>, Error>(target)
        }),
{
    let s = new_slot(v, path)->Ok_0;
    let rec = new_fast_symlink_inode(v, s.ino, target, now, generation);
    let bare = put32(blank_inode(v, S_IFLNK | 0x1FF, 1), 0x04, target.len() as u32);
    lemma_link_blank(v, target.len() as int);
    let raw = splice(bare, 0x28, target);
    assert(raw.len() == bare.len());
    assert(mode_of(raw) == mode_of(bare) && links_of(raw) == links_of(bare) && size_of_file(raw) == size_of_file(bare)
        && extra_isize_of(raw) == extra_isize_of(bare)) by {
        reveal(le16);
        reveal(le32);
    }
    lemma_born(v, s.ino, raw, now, generation);
    assert(0xA1FFu16 & 0xF000 == 0xA000) by (bit_vector);
    lemma_slot(v, path);
    lemma_way_slots(
        v,
        seq![own_slot(v, s.ino)],
        Seq::empty(),
        parent_and_base(path)->Ok_0.0,
        s.parent,
        s.raw,
    );
    lemma_moved_framed(v, fresh_stage(v), s.stage, seq![own_slot(v, s.ino)], Seq::empty());
    lemma_filled_at(v, path, s.stage, Seq::empty(), rec, DirEntryType::Symlink);
    let w = symlinked(v, target, path, now, generation).0;
    assert forall|inode: Inode| #[trigger] inode.decodes(rec) implies link_target(w, s.ino, inode) == Ok::<
        Seq<u8>,
        Error,
    >(target) by {
        assert(block_area_of(raw).subrange(0, target.len() as int) =~= target);
    }
}

/// What a symbolic link with a longer target puts in its own block.
pub open spec fn target_block(v: Vol, target: Seq<u8>) -> Seq<u8> {
    splice(zeros(v.bs() as nat), 0, target)
}

/// The slot of a symbolic link with a longer target, its block taken and
/// written.
pub open spec fn long_link_slot(v: Vol, target: Seq<u8>, s: Slot, plan: BlockAllocationPlan) -> Result<Slot> {
    match stage_block_plan(v, s.stage, plan) {
        Err(e) => Err(e),
        Ok(st) => match stage_fresh(v, st, plan.first_block, target_block(v, target)) {
            Err(e) => Err(e),
            Ok(st2) => Ok(Slot { stage: st2, ..s }),
        },
    }
}

/// A record whose file is one block.
proof fn lemma_link_area(v: Vol, len: int, phys: u64)
    requires
        v.wf(),
        0 <= len <= u32::MAX,
        phys < 0x1_0000_0000_0000,
    ensures
        ({
            let raw = with_block_area(
                put32(
                    put32(put32(blank_inode(v, S_IFLNK | 0x1FF, 1), 0x04, len as u32), 0x1C, (v.bs() / 512) as u32),
                    0x20,
                    FL_EXTENTS,
                ),
                root_with(seq![first_block_extent(phys)]),
            );
            &&& raw.len() == v.sb.inode_size
            &&& mode_of(raw) == 0xA1FF
            &&& size_of_file(raw) == len
            &&& flags_of(raw) == FL_EXTENTS
            &&& extra_isize_of(raw) == 0
            &&& block_area_of(raw) == root_with(seq![first_block_extent(phys)])
        }),
{
    lemma_link_blank(v, len);
    lemma_whole_extent_maps(v.img, v.bs(), phys, 1, 0, None);
    assert(whole_extent(phys, 1) == first_block_extent(phys));
    let root = root_with(seq![first_block_extent(phys)]);
    let bare = put32(
        put32(put32(blank_inode(v, S_IFLNK | 0x1FF, 1), 0x04, len as u32), 0x1C, (v.bs() / 512) as u32),
        0x20,
        FL_EXTENTS,
    );
    let raw = with_block_area(bare, root);
    assert(mode_of(raw) == mode_of(bare) && size_of_file(raw) == size_of_file(bare) && flags_of(raw) == flags_of(bare)
        && extra_isize_of(raw) == extra_isize_of(bare)) by {
        reveal(le16);
        reveal(le32);
    }
    assert(block_area_of(raw) =~= root);
}

/// A symbolic link with a longer target is at its path, and leads to the
/// target it was given.
#[verifier::rlimit(40)]
pub proof fn law_long_link_leads_to_its_target(v: Vol, target: Seq<u8>, path: Seq<u8>, now: u32, generation: u32)
    requires
        v.wf(),
        roomy_records(v),
        60 <= target.len() <= SYMLINK_MAX,
        new_slot(v, path) is Ok,
        volume_plan(v, 1, home_group(v, new_slot(v, path)->Ok_0.parent), Seq::empty()) is Ok,
        ({
            let s = new_slot(v, path)->Ok_0;
            let plan = volume_plan(v, 1, home_group(v, s.parent), Seq::empty())->Ok_0;
            let taken = long_link_slot(v, target, s, plan);
            let rec = new_slow_symlink_inode(v, s.ino, target.len() as int, plan.first_block, now, generation);
            &&& slot_ready(v, path, s, seq![plan.first_block])
            &&& !dir_holds(v, s.raw, plan.first_block as int)
            &&& taken is Ok
            &&& has_room(v, taken->Ok_0, rec, DirEntryType::Symlink)
        }),
    ensures
        ({
            let s = new_slot(v, path)->Ok_0;
            let plan = volume_plan(v, 1, home_group(v, s.parent), Seq::empty())->Ok_0;
            let (w, r) = symlinked(v, target, path, now, generation);
            let rec = new_slow_symlink_inode(v, s.ino, target.len() as int, plan.first_block, now, generation);
            &&& r == Ok::<u32, Error>(s.ino)
            &&& new_name(v, w, s, path, rec)
            &&& mode_is_symlink(mode_of(rec))
            &&& forall|inode: Inode| #[trigger]
                inode.decodes(rec) ==> link_target(w, s.ino, inode) == Ok::<Seq<u8>, Error>(target)
        }),
{
    let s = new_slot(v, path)->Ok_0;
    let hint = home_group(v, s.parent);
    let plan = volume_plan(v, 1, hint, Seq::empty())->Ok_0;
    let phys = plan.first_block;
    let n = target.len() as int;
    let rec = new_slow_symlink_inode(v, s.ino, n, phys, now, generation);
    let slots = seq![own_slot(v, s.ino)];
    let new = seq![phys];
    law_planned_run_within(v.sb, v.groups, 1, hint, Seq::empty(), bitmaps_of(v));
    law_planned_run_is_free(v.sb, v.groups, 1, hint, Seq::empty(), bitmaps_of(v));
    lemma_link_area(v, n, phys);
    let raw = with_block_area(
        put32(
            put32(put32(blank_inode(v, S_IFLNK | 0x1FF, 1), 0x04, n as u32), 0x1C, (v.bs() / 512) as u32),
            0x20,
            FL_EXTENTS,
        ),
        root_with(seq![first_block_extent(phys)]),
    );
    lemma_born(v, s.ino, raw, now, generation);
    assert(0xA1FFu16 & 0xF000 == 0xA000) by (bit_vector);
    lemma_slot(v, path);
    lemma_way_slots(v, slots, new, parent_and_base(path)->Ok_0.0, s.parent, s.raw);
    lemma_moved_framed(v, fresh_stage(v), s.stage, slots, new);
    lemma_block_plan_framed(v, s.stage, plan);
    let st1 = stage_block_plan(v, s.stage, plan)->Ok_0;
    lemma_moved_framed(v, s.stage, st1, slots, new);
    lemma_moved_on(v, fresh_stage(v), s.stage, st1, slots, new);
    let b = target_block(v, target);
    lemma_moved_fresh(v, st1, phys, b, slots, new, 0);
    let st2 = stage_fresh(v, st1, phys, b)->Ok_0;
    lemma_moved_on(v, fresh_stage(v), st1, st2, slots, new);
    lemma_filled_at(v, path, st2, new, rec, DirEntryType::Symlink);
    let w = symlinked(v, target, path, now, generation).0;
    let st3 = stage_inode(v, st2, s.ino, rec)->Ok_0;
    assert(block_at(w.img, v.bs(), phys as int) == Ok::<Seq<u8>, Error>(b)) by {
        let safe = untouched_but(v, s.raw);
        assert(safe(phys as int));
        law_record_reads_back(v, st2, s.ino, rec, phys as int);
        assert(slot_block(slots, slots[0].0));
        assert(new[0] == phys);
        assert(is_new(new, phys as int));
    }
    assert forall|inode: Inode| #[trigger] inode.decodes(rec) implies link_target(w, s.ino, inode) == Ok::<
        Seq<u8>,
        Error,
    >(target) by {
        let ctx = tree_of(w, inode, s.ino);
        let area = root_with(seq![first_block_extent(phys)]);
        assert forall|l: int| 0int / v.bs() <= l && l * v.bs() < n implies #[trigger] holds_part(
            w,
            area,
            ctx,
            l,
            0,
            target,
        ) by {
            assert(l == 0) by (nonlinear_arith)
                requires
                    l >= 0,
                    l * v.bs() < n,
                    n <= v.bs(),
            ;
            lemma_whole_extent_maps(w.img, v.bs(), phys, 1, 0, ctx);
            assert(whole_extent(phys, 1) == first_block_extent(phys));
        }
        lemma_reads_as(w, area, ctx, 0, target, 0, n);
        assert(target.subrange(0, n) =~= target);
        assert(splice(zeros(n as nat), 0, target) =~= target);
        assert(0x80000u32 & 0x1000_0000u32 == 0 && 0x80000u32 & 0x80000u32 != 0) by (bit_vector);
    }
}

} // verus!
