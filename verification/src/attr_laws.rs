//! What a path's attributes are once they were set.
use crate::attr::{
    chmod_stage, chmodded, chown_stage, chowned, inode_at, law_chmod_keeps_type, set_flags_stage, stage_edited,
    utimed, utimens_stage,
};
use crate::bgd::inode_place;
use crate::block_io::block_at;
use crate::bytes::{le16, le32, put32};
use crate::checksum::{high16, law_stamped_inode_verifies, low16};
use crate::commit::committed;
use crate::content_laws::{law_record_reads_back, lemma_same_place, record_block};
use crate::dirops::EXT4_ROOT_INODE;
use crate::error::Error;
use crate::fs::checked_inode;
use crate::inode::{block_area_of, extra_isize_of, flags_of, generation_of, inode_fault, mode_of, size_of_file, S_IFMT};
use crate::name_laws::{lemma_moved_record, own_slot};
use crate::reach_laws::{beside, lemma_walk_beside, path_clear};
use crate::volume::{fresh_stage, Vol};
use vstd::prelude::*;

verus! {

broadcast use crate::bytes::group_fields;

/// The blocks other than the one that holds an inode's record.
pub open spec fn other_blocks(v: Vol, ino: u32) -> spec_fn(int) -> bool {
    |k: int| k >= 0 && k != record_block(v, ino)
}

/// A path leads to an inode, and the inode's record is no directory's on the
/// way, nor its block a directory's.
pub open spec fn at_path(v: Vol, path: Seq<u8>, ino: u32, raw: Seq<u8>) -> bool {
    &&& v.wf()
    &&& inode_at(v, path) == Ok::<(u32, Seq<u8>), Error>((ino, raw))
    &&& path_clear(v, other_blocks(v, ino), seq![own_slot(v, ino)], Seq::empty(), path, 0, EXT4_ROOT_INODE)
}

/// Two records of the same file.
pub open spec fn same_file(raw: Seq<u8>, after: Seq<u8>) -> bool {
    &&& after.len() == raw.len()
    &&& generation_of(after) == generation_of(raw)
    &&& size_of_file(after) == size_of_file(raw)
    &&& block_area_of(after) == block_area_of(raw)
    &&& extra_isize_of(after) == extra_isize_of(raw)
    &&& mode_of(after) & S_IFMT == mode_of(raw) & S_IFMT
}

/// An edited record is the one that its path leads to.
proof fn lemma_edited_read(v: Vol, path: Seq<u8>, ino: u32, raw: Seq<u8>, edited: Seq<u8>)
    requires
        at_path(v, path, ino, raw),
        same_file(raw, edited),
        stage_edited(v, ino, generation_of(raw), edited) is Ok,
    ensures
        ({
            let w = committed(v, stage_edited(v, ino, generation_of(raw), edited)->Ok_0);
            let rec = v.csum.stamp_inode_spec(ino, generation_of(raw), edited);
            &&& inode_at(w, path) == Ok::<(u32, Seq<u8>), Error>((ino, rec))
            &&& forall|k: int|
                k >= 0 && k != record_block(v, ino) ==> #[trigger] block_at(w.img, v.bs(), k) == block_at(
                    v.img,
                    v.bs(),
                    k,
                )
        }),
{
    let rec = v.csum.stamp_inode_spec(ino, generation_of(raw), edited);
    let start = fresh_stage(v);
    let fin = stage_edited(v, ino, generation_of(raw), edited)->Ok_0;
    let w = committed(v, fin);
    let slots = seq![own_slot(v, ino)];
    let safe = other_blocks(v, ino);
    assert(rec.len() == v.sb.inode_size);
    if v.csum.enabled {
        law_stamped_inode_verifies(v.csum, ino, generation_of(raw), edited);
    }
    lemma_moved_record(v, start, ino, rec, slots, Seq::empty(), 0);
    assert forall|k: int| k >= 0 && k != record_block(v, ino) implies #[trigger] block_at(w.img, v.bs(), k) == block_at(
        v.img,
        v.bs(),
        k,
    ) by {
        law_record_reads_back(v, start, ino, rec, k);
    }
    assert forall|d: u32| #[trigger] inode_place(w.sb, w.groups, d) == inode_place(v.sb, v.groups, d) by {
        lemma_same_place(v, fin, d);
    }
    assert(beside(v, w, safe, slots));
    lemma_walk_beside(v, w, safe, safe, slots, path, 0, EXT4_ROOT_INODE);
    assert(inode_fault(rec) is None && mode_of(rec) == mode_of(edited) && generation_of(rec) == generation_of(raw)
        && size_of_file(rec) == size_of_file(raw));
    assert(checked_inode(w, ino) == Ok::<Seq<u8>, Error>(rec));
}

/// A mode that was set is the mode of what the path leads to; the type stays,
/// and so do the size and where the contents are. No other block changes.
pub proof fn law_changed_mode_is_read(v: Vol, path: Seq<u8>, ino: u32, raw: Seq<u8>, mode: u16, now: u32)
    requires
        at_path(v, path, ino, raw),
        chmod_stage(v, path, mode, now) is Ok,
    ensures
        ({
            let w = committed(v, chmod_stage(v, path, mode, now)->Ok_0);
            let rec = inode_at(w, path)->Ok_0.1;
            &&& inode_at(w, path) is Ok
            &&& inode_at(w, path)->Ok_0.0 == ino
            &&& mode_of(rec) & 0x0FFF == mode & 0x0FFF
            &&& le32(rec, 0x0C) == now
            &&& same_file(raw, rec)
            &&& forall|k: int|
                k >= 0 && k != record_block(v, ino) ==> #[trigger] block_at(w.img, v.bs(), k) == block_at(
                    v.img,
                    v.bs(),
                    k,
                )
        }),
{
    let edited = chmodded(raw, mode, now);
    law_chmod_keeps_type(raw, mode, now);
    assert(block_area_of(edited) =~= block_area_of(raw));
    lemma_edited_read(v, path, ino, raw, edited);
    let rec = v.csum.stamp_inode_spec(ino, generation_of(raw), edited);
    assert(block_area_of(rec) =~= block_area_of(edited));
}

/// An owner that was set is the owner of what the path leads to, as far as one
/// was given; all else stays.
pub proof fn law_changed_owner_is_read(v: Vol, path: Seq<u8>, ino: u32, raw: Seq<u8>, uid: u32, gid: u32, now: u32)
    requires
        at_path(v, path, ino, raw),
        chown_stage(v, path, uid, gid, now) is Ok,
    ensures
        ({
            let w = committed(v, chown_stage(v, path, uid, gid, now)->Ok_0);
            let rec = inode_at(w, path)->Ok_0.1;
            &&& inode_at(w, path) is Ok
            &&& inode_at(w, path)->Ok_0.0 == ino
            &&& le16(rec, 0x02) + 0x1_0000 * le16(rec, 0x78) == (if uid != u32::MAX {
                uid as int
            } else {
                le16(raw, 0x02) + 0x1_0000 * le16(raw, 0x78)
            })
            &&& le16(rec, 0x18) + 0x1_0000 * le16(rec, 0x7A) == (if gid != u32::MAX {
                gid as int
            } else {
                le16(raw, 0x18) + 0x1_0000 * le16(raw, 0x7A)
            })
            &&& mode_of(rec) == mode_of(raw)
            &&& le32(rec, 0x0C) == now
            &&& same_file(raw, rec)
        }),
{
    let edited = chowned(raw, uid, gid, now);
    assert(block_area_of(edited) =~= block_area_of(raw));
    lemma_edited_read(v, path, ino, raw, edited);
    let rec = v.csum.stamp_inode_spec(ino, generation_of(raw), edited);
    assert(block_area_of(rec) =~= block_area_of(edited));
    assert(low16(uid) + 0x1_0000 * high16(uid) == uid && low16(gid) + 0x1_0000 * high16(gid) == gid);
}

/// Flags that were set are the flags of what the path leads to; all else
/// stays.
pub proof fn law_changed_flags_are_read(v: Vol, path: Seq<u8>, ino: u32, raw: Seq<u8>, flags: u32, now: u32)
    requires
        at_path(v, path, ino, raw),
        set_flags_stage(v, path, flags, now) is Ok,
    ensures
        ({
            let w = committed(v, set_flags_stage(v, path, flags, now)->Ok_0);
            let rec = inode_at(w, path)->Ok_0.1;
            &&& inode_at(w, path) is Ok
            &&& inode_at(w, path)->Ok_0.0 == ino
            &&& flags_of(rec) == flags
            &&& mode_of(rec) == mode_of(raw)
            &&& le32(rec, 0x0C) == now
            &&& same_file(raw, rec)
        }),
{
    let edited = put32(put32(raw, 0x20, flags), 0x0C, now);
    assert(block_area_of(edited) =~= block_area_of(raw));
    lemma_edited_read(v, path, ino, raw, edited);
    let rec = v.csum.stamp_inode_spec(ino, generation_of(raw), edited);
    assert(block_area_of(rec) =~= block_area_of(edited));
}

/// Times that were set are in the record of what the path leads to; all else
/// stays.
pub proof fn law_changed_times_are_read(
    v: Vol,
    path: Seq<u8>,
    ino: u32,
    raw: Seq<u8>,
    asec: i64,
    ansec: u32,
    msec: i64,
    mnsec: u32,
    now: u32,
)
    requires
        at_path(v, path, ino, raw),
        utimens_stage(v, path, asec, ansec, msec, mnsec, now) is Ok,
    ensures
        ({
            let w = committed(v, utimens_stage(v, path, asec, ansec, msec, mnsec, now)->Ok_0);
            let edited = utimed(raw, asec, ansec, msec, mnsec, now);
            let rec = inode_at(w, path)->Ok_0.1;
            &&& inode_at(w, path) is Ok
            &&& inode_at(w, path)->Ok_0.0 == ino
            &&& rec == v.csum.stamp_inode_spec(ino, generation_of(raw), edited)
            &&& mode_of(rec) == mode_of(raw)
            &&& same_file(raw, rec)
        }),
{
    let edited = utimed(raw, asec, ansec, msec, mnsec, now);
    assert(block_area_of(edited) =~= block_area_of(raw));
    lemma_edited_read(v, path, ino, raw, edited);
    let rec = v.csum.stamp_inode_spec(ino, generation_of(raw), edited);
    assert(block_area_of(rec) =~= block_area_of(edited));
}

} // verus!
