//! Where the path of a hard link leads, and what a new directory is made of.
use crate::attr::inode_at;
use crate::block_io::block_at;
use crate::bytes::{le16, le32, put16, put32, zeros};
use crate::checksum::{dir_tail_present, inode_crc_ok, law_stamped_dir_verifies, law_stamped_inode_verifies};
use crate::commit::committed;
use crate::content_laws::{law_record_reads_back, lemma_same_place, lemma_whole_extent_maps, record_block};
use crate::contents::whole_extent;
use crate::create_laws::{lemma_blank, lemma_born, roomy_records};
use crate::dir::{find_from, record_at, type_byte, DirEntryType};
use crate::dirops::{find_entry, parent_and_base, stage_add_entry, EXT4_ROOT_INODE};
use crate::error::Error;
use crate::fs::{checked_inode, keeps_types, raw_inode};
use crate::grow::{dots_block, usable_of};
use crate::inode::{
    block_area_of, extra_isize_of, flags_of, generation_of, inode_fault, links_of, mode_is_dir, mode_of, size_of_file,
    FL_EXTENTS, S_IFDIR,
};
use crate::inode_edit::{
    blank_inode, first_block_extent, moved_links, new_dir_inode, root_with, with_block_area, with_size_and_blocks,
};
use crate::name_laws::{
    alike, lemma_edited_beside, lemma_entered_at, lemma_entered_in, lemma_moved_record, lemma_still, lemma_walk_but,
    lemma_way_slots, own_slot, untouched, way_in,
};
use crate::names::{free_name, link_type, linked, stage_links};
use crate::reach_laws::{lemma_record_beside, path_clear, record_clear, slot_block};
use crate::stage::stage_inode;
use crate::volume::{fresh_stage, Stage, Vol};
use vstd::prelude::*;

verus! {

broadcast use crate::bytes::group_fields;

/// A record with its link count moved.
pub open spec fn relinked_record(v: Vol, ino: u32, raw: Seq<u8>, delta: int) -> Seq<u8> {
    v.csum.stamp_inode_spec(ino, generation_of(raw), put16(raw, 0x1A, moved_links(links_of(raw), delta)))
}

/// Moving a link count changes nothing else of a record but its checksum.
pub(crate) proof fn lemma_relinked(v: Vol, ino: u32, raw: Seq<u8>, delta: int)
    requires
        v.wf(),
        checked_inode(v, ino) == Ok::<Seq<u8>, Error>(raw),
    ensures
        ({
            let out = relinked_record(v, ino, raw, delta);
            &&& out.len() == v.sb.inode_size
            &&& raw.len() == v.sb.inode_size
            &&& inode_fault(out) is None
            &&& alike(raw, out)
            &&& links_of(out) == moved_links(links_of(raw), delta)
            &&& v.csum.enabled ==> inode_crc_ok(v.csum.seed, ino, generation_of(out), out)
        }),
{
    let bare = put16(raw, 0x1A, moved_links(links_of(raw), delta));
    let out = relinked_record(v, ino, raw, delta);
    if v.csum.enabled {
        law_stamped_inode_verifies(v.csum, ino, generation_of(raw), bare);
    }
    assert(block_area_of(out) =~= block_area_of(raw)) by {
        reveal(put16);
    }
}

/// A record that reads back, and can be trusted.
pub(crate) proof fn lemma_checked(v: Vol, w: Vol, ino: u32, raw: Seq<u8>, out: Seq<u8>)
    requires
        checked_inode(v, ino) == Ok::<Seq<u8>, Error>(raw),
        w.sb == v.sb,
        w.csum == v.csum,
        raw_inode(w, ino) == Ok::<Seq<u8>, Error>(out),
        inode_fault(out) is None,
        v.csum.enabled ==> inode_crc_ok(v.csum.seed, ino, generation_of(out), out),
        mode_of(out) == mode_of(raw),
        size_of_file(out) == size_of_file(raw),
    ensures
        checked_inode(w, ino) == Ok::<Seq<u8>, Error>(out),
{
}

/// A hard link leads to the file it was made for, which has one link more; so
/// does the path it was made from. Every other name of the directory leads
/// where it did. The directory is one in good order that had room for the entry.
#[verifier::rlimit(40)]
pub proof fn law_hard_link_leads_to_the_file(v: Vol, src: Seq<u8>, dst: Seq<u8>)
    requires
        v.wf(),
        inode_at(v, src) is Ok,
        !mode_is_dir(mode_of(inode_at(v, src)->Ok_0.1)),
        inode_at(v, src)->Ok_0.0 != 0,
        free_name(v, dst) is Ok,
        ({
            let (ino, raw) = inode_at(v, src)->Ok_0;
            let (parent, praw, name) = free_name(v, dst)->Ok_0;
            let slots = seq![own_slot(v, ino)];
            let safe = untouched(v, slots, Seq::empty(), praw);
            let st = stage_links(v, fresh_stage(v), ino, raw, 1);
            &&& way_in(v, slots, Seq::empty(), parent_and_base(dst)->Ok_0.0, parent, praw)
            &&& record_clear(v, safe, slots, parent)
            &&& path_clear(v, safe, slots, seq![parent], src, 0, EXT4_ROOT_INODE)
            &&& st is Ok
            &&& stage_add_entry(v, st->Ok_0, parent, praw, name, ino, link_type(mode_of(raw))) is Ok
        }),
    ensures
        ({
            let (ino, raw) = inode_at(v, src)->Ok_0;
            let (parent, praw, name) = free_name(v, dst)->Ok_0;
            let (w, r) = linked(v, src, dst);
            let rec = relinked_record(v, ino, raw, 1);
            &&& r is Ok
            &&& inode_at(w, dst) == Ok::<(u32, Seq<u8>), Error>((ino, rec))
            &&& inode_at(w, src) == Ok::<(u32, Seq<u8>), Error>((ino, rec))
            &&& links_of(rec) == moved_links(links_of(raw), 1)
            &&& alike(raw, rec)
            &&& forall|other: Seq<u8>|
                other != name ==> #[trigger] find_entry(w, parent, praw, other) == find_entry(v, parent, praw, other)
        }),
{
    let (ino, raw) = inode_at(v, src)->Ok_0;
    let (parent, praw, name) = free_name(v, dst)->Ok_0;
    let slots = seq![own_slot(v, ino)];
    let new = Seq::<u64>::empty();
    let safe = untouched(v, slots, new, praw);
    let rec = relinked_record(v, ino, raw, 1);
    let ft = link_type(mode_of(raw));
    lemma_relinked(v, ino, raw, 1);
    lemma_way_slots(v, slots, new, parent_and_base(dst)->Ok_0.0, parent, praw);
    let st = stage_links(v, fresh_stage(v), ino, raw, 1)->Ok_0;
    lemma_moved_record(v, fresh_stage(v), ino, rec, slots, new, 0);
    let mid = stage_add_entry(v, st, parent, praw, name, ino, ft)->Ok_0;
    let w = committed(v, mid);
    let p = lemma_entered_in(v, st, slots, new, dst, parent, praw, ino, ft);
    lemma_still(v, mid, slots, new);
    lemma_edited_beside(v, st, mid, mid, slots, new, praw, p);
    lemma_record_beside(v, w, safe, safe, slots, parent);
    lemma_entered_at(v, st, mid, slots, new, dst, parent, praw, praw, ino, ft);
    lemma_same_place(v, st, ino);
    lemma_same_place(v, mid, ino);
    assert(slot_block(slots, slots[0].0));
    assert(p != record_block(v, ino));
    assert(raw_inode(w, ino) == Ok::<Seq<u8>, Error>(rec));
    lemma_checked(v, w, ino, raw, rec);
    lemma_walk_but(v, w, safe, slots, parent, praw, praw, name, src, 0, EXT4_ROOT_INODE, ino);
}

/// Two records lie apart.
pub open spec fn slots_differ(a: (int, int), b: (int, int), size: int) -> bool {
    a.0 != b.0 || a.1 + size <= b.1 || b.1 + size <= a.1
}

/// A record survives another one's edit.
pub(crate) proof fn lemma_record_survives(v: Vol, st: Stage, ino: u32, rec: Seq<u8>, d: u32, out: Seq<u8>)
    requires
        v.wf(),
        raw_inode(committed(v, st), d) == Ok::<Seq<u8>, Error>(out),
        rec.len() == v.sb.inode_size,
        slots_differ(own_slot(v, ino), own_slot(v, d), v.sb.inode_size as int),
        stage_inode(v, st, ino, rec) is Ok,
    ensures
        raw_inode(committed(v, stage_inode(v, st, ino, rec)->Ok_0), d) == Ok::<Seq<u8>, Error>(out),
{
    let after = stage_inode(v, st, ino, rec)->Ok_0;
    let own = own_slot(v, ino);
    let slots = seq![own];
    lemma_moved_record(v, st, ino, rec, slots, Seq::empty(), 0);
    lemma_same_place(v, st, d);
    lemma_same_place(v, after, d);
    let at = own_slot(v, d);
    law_record_reads_back(v, st, ino, rec, at.0);
    if at.0 == own.0 {
        assert(slots[0] == own);
        assert(slot_block(slots, at.0));
        let old = block_at(st.img, v.bs(), at.0)->Ok_0;
        let new = block_at(after.img, v.bs(), at.0)->Ok_0;
        let size = v.sb.inode_size as int;
        assert(crate::reach_laws::slots_apart(st.img, after.img, v.bs(), slots, size, at.0));
        let x = new.subrange(at.1, at.1 + size);
        let y = old.subrange(at.1, at.1 + size);
        assert forall|j: int| 0 <= j < size implies #[trigger] x[j] == y[j] by {
            assert(!crate::reach_laws::in_slot(slots, size, at.0, at.1 + j));
            assert(new[at.1 + j] == old[at.1 + j]);
        }
        assert(x =~= y);
    }
}

/// The record of a new directory.
pub(crate) proof fn lemma_dir_record(v: Vol, ino: u32, mode: u16, phys: u64, now: u32, generation: u32)
    requires
        v.wf(),
        roomy_records(v),
        phys < 0x1_0000_0000_0000,
    ensures
        ({
            let rec = new_dir_inode(v, ino, mode, phys, now, generation);
            &&& rec.len() == v.sb.inode_size
            &&& inode_fault(rec) is None
            &&& mode_is_dir(mode_of(rec))
            &&& mode_of(rec) & 0x0FFF == mode & 0x0FFF
            &&& size_of_file(rec) == v.bs()
            &&& links_of(rec) == 2
            &&& generation_of(rec) == generation
            &&& flags_of(rec) == FL_EXTENTS
            &&& block_area_of(rec) == root_with(seq![first_block_extent(phys)])
            &&& v.csum.enabled ==> inode_crc_ok(v.csum.seed, ino, generation, rec)
        }),
{
    let m = S_IFDIR | (mode & 0x0FFF);
    lemma_blank(v, m, 2);
    lemma_whole_extent_maps(v.img, v.bs(), phys, 1, 0, None);
    assert(whole_extent(phys, 1) == first_block_extent(phys));
    let root = root_with(seq![first_block_extent(phys)]);
    let bare = put32(blank_inode(v, m, 2), 0x20, FL_EXTENTS);
    let sized = with_block_area(bare, root);
    assert(mode_of(sized) == m && links_of(sized) == 2 && flags_of(sized) == FL_EXTENTS && extra_isize_of(sized) == 0)
        by {
        reveal(le16);
        reveal(le32);
    }
    assert(block_area_of(sized) =~= root);
    let raw = with_size_and_blocks(sized, v.bs() as u64, (v.bs() / 512) as u64);
    crate::inode_edit::law_size_and_blocks_round_trip(sized, v.bs() as u64, (v.bs() / 512) as u64);
    assert(block_area_of(raw) =~= root);
    lemma_born(v, ino, raw, now, generation);
    assert((0x4000u16 | (mode & 0x0FFF)) & 0xF000 == 0x4000 && (0x4000u16 | (mode & 0x0FFF)) & 0x0FFF == mode & 0x0FFF)
        by (bit_vector);
}

pub(crate) proof fn lemma_dots_len(v: Vol, ino: u32, parent: u32, generation: u32)
    requires
        v.wf(),
    ensures
        dots_block(v, ino, parent, generation).len() == v.bs(),
{
}

/// `.`.
pub open spec fn dot() -> Seq<u8> {
    seq![0x2Eu8]
}

/// `..`.
pub open spec fn dot_dot() -> Seq<u8> {
    seq![0x2Eu8, 0x2Eu8]
}

/// The first two records of a new directory's block.
pub(crate) proof fn lemma_dots_records(v: Vol, ino: u32, parent: u32, generation: u32)
    requires
        v.wf(),
    ensures
        ({
            let b = dots_block(v, ino, parent, generation);
            let has_ft = keeps_types(v);
            let end = b.len() as int;
            let one = record_at(b, 0, end, has_ft);
            let two = record_at(b, 12, end, has_ft);
            &&& one is Ok
            &&& one->Ok_0.inode == ino
            &&& one->Ok_0.rec_len == 12
            &&& one->Ok_0.name == dot()
            &&& two is Ok
            &&& two->Ok_0.inode == parent
            &&& two->Ok_0.rec_len == usable_of(v) - 12
            &&& two->Ok_0.name == dot_dot()
        }),
{
    let b = dots_block(v, ino, parent, generation);
    let has_ft = keeps_types(v);
    assert(b.len() == v.bs());
    assert(le32(b, 0) == ino && le16(b, 4) == 12 && le32(b, 12) == parent && le16(b, 16) == usable_of(v) - 12 && b[6]
        == 1 && b[8] == 0x2E && b[18] == 2 && b[20] == 0x2E && b[21] == 0x2E && (!has_ft ==> b[7] == 0 && b[19] == 0))
        by {
        reveal(le16);
        reveal(le32);
        reveal(put16);
        reveal(put32);
    }
    assert(!has_ft ==> le16(b, 6) == 1 && le16(b, 18) == 2) by {
        reveal(le16);
    }
    assert(b.subrange(8, 9) =~= dot());
    assert(b.subrange(20, 22) =~= dot_dot());
}

/// A new directory's block names itself and its parent, and nothing else.
pub(crate) proof fn lemma_dots_found(v: Vol, ino: u32, parent: u32, generation: u32, name: Seq<u8>)
    requires
        v.wf(),
        ino != 0,
        parent != 0,
        v.csum.enabled ==> keeps_types(v),
    ensures
        v.csum.dir_ok(ino, generation, dots_block(v, ino, parent, generation)),
        find_from(dots_block(v, ino, parent, generation), 0, name, keeps_types(v)) == Ok::<Option<u32>, Error>(
            if name == dot() {
                Some(ino)
            } else if name == dot_dot() {
                Some(parent)
            } else {
                None
            },
        ),
{
    let b = dots_block(v, ino, parent, generation);
    let has_ft = keeps_types(v);
    let at = usable_of(v);
    reveal_with_fuel(find_from, 4);
    lemma_dots_records(v, ino, parent, generation);
    assert(dot().len() != dot_dot().len());
    if v.csum.enabled {
        let t = type_byte(DirEntryType::Directory, has_ft);
        let plain = put16(
            put32(
                put16(put32(zeros(v.bs() as nat), 0, ino), 4, 12).update(6, 1u8).update(7, t).update(8, 0x2Eu8),
                12,
                parent,
            ),
            16,
            ((at - 12) % 0x1_0000) as u16,
        ).update(18, 2u8).update(19, t).update(20, 0x2Eu8).update(21, 0x2Eu8);
        law_stamped_dir_verifies(v.csum, ino, generation, plain);
        assert(dir_tail_present(b));
        let rec = record_at(b, at, b.len() as int, has_ft);
        assert(le32(b, at) == 0 && le16(b, at + 4) == 12 && b[at + 6] == 0);
    }
}

} // verus!
