//! Which requests are refused, and which go through.
use crate::attr::{
    chmod_stage, chmodded, chown_stage, chowned, inode_at, set_flags_stage, stage_edited, time_storable,
    unless_refused, utimed, utimens_stage, TIME_OMIT,
};
use crate::contents::{unless_empty, zeroed_range};
use crate::dirops::{find_entry, parent_and_base};
use crate::error::{Error, Result};
use crate::features::MAINTAINED_RO_COMPAT;
use crate::fs::checked_inode;
use crate::inode::{flags_of, generation_of, mode_is_dir, mode_of};
use crate::names::{created, linked, made_dir, noded, rmdir_stage, symlinked, unlink_stage};
use crate::rename::{leads_to, names_in};
use crate::volume::{Stage, Vol};
use vstd::prelude::*;

verus! {

broadcast use crate::bytes::group_fields;

/// Nothing is written where nothing may be: on a device that takes no writes, or
/// to a volume with a feature that this library would not keep up, the answer
/// says so, whatever was asked for, and the volume is as it was. Otherwise it is
/// what was asked for.
pub proof fn law_refused_write_changes_nothing<T>(writable: bool, v: Vol, want: (Vol, Result<T>))
    ensures
        !writable ==> unless_refused(writable, v, want) == (v, Err::<T, Error>(Error::ReadOnly)),
        writable && v.sb.feature_ro_compat & !MAINTAINED_RO_COMPAT != 0 ==> unless_refused(writable, v, want) == (
            v,
            Err::<T, Error>(Error::UnsupportedRoCompat(v.sb.feature_ro_compat & !MAINTAINED_RO_COMPAT)),
        ),
        writable && v.sb.feature_ro_compat & !MAINTAINED_RO_COMPAT == 0 ==> unless_refused(writable, v, want) == want,
{
}

/// A range of no bytes is neither preallocated nor punched nor zeroed: nothing
/// changes, and nothing is wrong. For any other range the answer is that of the
/// request, and where that is an error nothing changes.
pub proof fn law_empty_range_is_left_alone(writable: bool, v: Vol, ino: u32, offset: u64, len: u64, now: u32, r: Result<Stage>)
    ensures
        unless_empty(v, 0, r) == (v, Ok::<(), Error>(())),
        len != 0 && r is Ok ==> unless_empty(v, len, r) == (crate::commit::committed(v, r->Ok_0), Ok::<(), Error>(())),
        len != 0 && r is Err ==> unless_empty(v, len, r) == (v, Err::<(), Error>(r->Err_0)),
        zeroed_range(writable, v, ino, offset, 0, now) == (v, Ok::<(), Error>(())),
{
}

// -- new names --------------------------------------------------------------

/// A name that is taken stays as it is: nothing is created there, no link is made
/// there, and nothing changes. The answer says that the name is taken.
pub proof fn law_taken_name_is_left_alone(
    v: Vol,
    path: Seq<u8>,
    dir: u32,
    raw: Seq<u8>,
    name: Seq<u8>,
    mode: u16,
    major: u32,
    minor: u32,
    other: Seq<u8>,
    now: u32,
    generation: u32,
)
    requires
        names_in(v, path, dir, raw, name),
        find_entry(v, dir, raw, name) is Ok,
    ensures
        created(v, path, mode, now, generation).0 == v,
        made_dir(v, path, mode, now, generation).0 == v,
        noded(v, path, mode, major, minor, now, generation).0 == v,
        symlinked(v, other, path, now, generation).0 == v,
        linked(v, other, path).0 == v,
        created(v, path, mode, now, generation).1 is Err,
        made_dir(v, path, mode, now, generation).1 is Err,
        noded(v, path, mode, major, minor, now, generation).1 is Err,
        symlinked(v, other, path, now, generation).1 is Err,
        linked(v, other, path).1 is Err,
        name.len() <= 255 ==> created(v, path, mode, now, generation).1 == Err::<u32, Error>(Error::AlreadyExists),
        name.len() <= 255 ==> made_dir(v, path, mode, now, generation).1 == Err::<u32, Error>(Error::AlreadyExists),
        name.len() <= 255 && 1 <= other.len() <= 255 ==> symlinked(v, other, path, now, generation).1 == Err::<u32, Error>(
            Error::AlreadyExists,
        ),
        name.len() <= 255 && inode_at(v, other) is Ok && !mode_is_dir(mode_of(inode_at(v, other)->Ok_0.1)) ==> linked(
            v,
            other,
            path,
        ).1 == Err::<(), Error>(Error::AlreadyExists),
{
}

/// A new name needs a directory to be in, and is 255 bytes long at the most.
/// Otherwise nothing is created, no link is made, and nothing changes.
pub proof fn law_new_name_needs_a_place(
    v: Vol,
    path: Seq<u8>,
    mode: u16,
    major: u32,
    minor: u32,
    other: Seq<u8>,
    now: u32,
    generation: u32,
)
    requires
        (forall|dir: u32, raw: Seq<u8>, name: Seq<u8>| !names_in(v, path, dir, raw, name)) || (parent_and_base(path) is Ok
            && parent_and_base(path)->Ok_0.1.len() > 255),
    ensures
        created(v, path, mode, now, generation).0 == v,
        made_dir(v, path, mode, now, generation).0 == v,
        noded(v, path, mode, major, minor, now, generation).0 == v,
        symlinked(v, other, path, now, generation).0 == v,
        linked(v, other, path).0 == v,
        created(v, path, mode, now, generation).1 is Err,
        made_dir(v, path, mode, now, generation).1 is Err,
        noded(v, path, mode, major, minor, now, generation).1 is Err,
        symlinked(v, other, path, now, generation).1 is Err,
        linked(v, other, path).1 is Err,
        parent_and_base(path) is Ok && parent_and_base(path)->Ok_0.1.len() > 255 ==> created(v, path, mode, now, generation).1
            == Err::<u32, Error>(Error::NameTooLong) && made_dir(v, path, mode, now, generation).1 == Err::<u32, Error>(
            Error::NameTooLong,
        ) && linked(v, other, path).1 == Err::<(), Error>(Error::NameTooLong),
{
    if parent_and_base(path) is Ok {
        let (parent, name) = parent_and_base(path)->Ok_0;
        if let Ok((dir, raw)) = inode_at(v, parent) {
            if mode_is_dir(mode_of(raw)) {
                assert(names_in(v, path, dir, raw, name));
            }
        }
    }
}

/// No hard link leads to a directory, nor to what is not there: the answer is an
/// error, and nothing changes.
pub proof fn law_no_link_to_a_directory(v: Vol, src: Seq<u8>, dst: Seq<u8>)
    requires
        inode_at(v, src) is Err || mode_is_dir(mode_of(inode_at(v, src)->Ok_0.1)),
    ensures
        linked(v, src, dst).0 == v,
        linked(v, src, dst).1 is Err,
        inode_at(v, src) is Ok && parent_and_base(dst) is Ok && parent_and_base(dst)->Ok_0.1.len() <= 255 ==> linked(
            v,
            src,
            dst,
        ).1 == Err::<(), Error>(Error::IsADirectory),
{
}

/// A symbolic link leads somewhere, by a target of 255 bytes at the most.
pub proof fn law_link_needs_a_target(v: Vol, target: Seq<u8>, path: Seq<u8>, now: u32, generation: u32)
    requires
        target.len() == 0 || target.len() > 255,
    ensures
        symlinked(v, target, path, now, generation).0 == v,
        symlinked(v, target, path, now, generation).1 is Err,
        target.len() > 255 ==> symlinked(v, target, path, now, generation).1 == Err::<u32, Error>(Error::NameTooLong),
{
}

/// Only devices, pipes and sockets are made as special files.
pub proof fn law_special_files_are_special(
    v: Vol,
    path: Seq<u8>,
    mode: u16,
    major: u32,
    minor: u32,
    now: u32,
    generation: u32,
)
    requires
        mode & 0xF000 != 0x2000,
        mode & 0xF000 != 0x6000,
        mode & 0xF000 != 0x1000,
        mode & 0xF000 != 0xC000,
    ensures
        noded(v, path, mode, major, minor, now, generation).0 == v,
        noded(v, path, mode, major, minor, now, generation).1 is Err,
{
}

// -- names that go ----------------------------------------------------------

/// Unlinking is for what is no directory, and removing a directory for what is
/// one. What is not there can neither be unlinked nor removed.
pub proof fn law_each_kind_has_its_removal(v: Vol, path: Seq<u8>, now: u32)
    ensures
        forall|ino: u32, raw: Seq<u8>| #[trigger]
            leads_to(v, path, ino, raw) && mode_is_dir(mode_of(raw)) ==> unlink_stage(v, path, now) is Err && unlink_stage(
                v,
                path,
                now,
            )->Err_0 == Error::IsADirectory,
        forall|ino: u32, raw: Seq<u8>| #[trigger]
            leads_to(v, path, ino, raw) && !mode_is_dir(mode_of(raw)) ==> rmdir_stage(v, path, now) is Err && rmdir_stage(
                v,
                path,
                now,
            )->Err_0 == Error::NotADirectory,
        (forall|ino: u32, raw: Seq<u8>| !(#[trigger] leads_to(v, path, ino, raw))) ==> unlink_stage(v, path, now) is Err
            && rmdir_stage(v, path, now) is Err,
{
    if parent_and_base(path) is Ok {
        let (parent, name) = parent_and_base(path)->Ok_0;
        if let Ok((dir, draw)) = inode_at(v, parent) {
            if mode_is_dir(mode_of(draw)) {
                assert(names_in(v, path, dir, draw, name));
                if let Ok(ino) = find_entry(v, dir, draw, name) {
                    if let Ok(raw) = checked_inode(v, ino) {
                        assert(leads_to(v, path, ino, raw));
                    }
                }
            }
        }
    }
}

// -- attributes -------------------------------------------------------------

/// An edit of a record that keeps its length can be staged where the record can
/// be read.
proof fn lemma_edit_goes(v: Vol, ino: u32, raw: Seq<u8>, edited: Seq<u8>)
    requires
        v.wf(),
        checked_inode(v, ino) == Ok::<Seq<u8>, Error>(raw),
        edited.len() == raw.len(),
    ensures
        stage_edited(v, ino, generation_of(raw), edited) is Ok,
{
    let rec = v.csum.stamp_inode_spec(ino, generation_of(raw), edited);
    assert(rec.len() == raw.len());
}

/// What a path leads to can be given any permissions, any owner and any times
/// that can be stored, and any flags but those that say how the file is kept;
/// and nothing else can be.
pub proof fn law_attributes_can_be_set(
    v: Vol,
    path: Seq<u8>,
    mode: u16,
    uid: u32,
    gid: u32,
    flags: u32,
    asec: i64,
    ansec: u32,
    msec: i64,
    mnsec: u32,
    now: u32,
)
    requires
        v.wf(),
    ensures
        chmod_stage(v, path, mode, now) is Ok <==> inode_at(v, path) is Ok,
        chown_stage(v, path, uid, gid, now) is Ok <==> inode_at(v, path) is Ok,
        set_flags_stage(v, path, flags, now) is Ok <==> inode_at(v, path) is Ok && (flags ^ flags_of(
            inode_at(v, path)->Ok_0.1,
        )) & 0x1028_0000 == 0,
        inode_at(v, path) is Err ==> chmod_stage(v, path, mode, now) is Err && chmod_stage(v, path, mode, now)->Err_0
            == inode_at(v, path)->Err_0,
        inode_at(v, path) is Ok && time_kept(asec) && time_kept(msec) ==> utimens_stage(
            v,
            path,
            asec,
            ansec,
            msec,
            mnsec,
            now,
        ) is Ok,
        !time_storable(asec) || !time_storable(msec) ==> utimens_stage(v, path, asec, ansec, msec, mnsec, now) is Err,
{
    assert(0x8_0000u32 | 0x1000_0000u32 | 0x20_0000u32 == 0x1028_0000u32) by (bit_vector);
    if let Ok((ino, raw)) = inode_at(v, path) {
        lemma_edit_goes(v, ino, raw, chmodded(raw, mode, now));
        lemma_edit_goes(v, ino, raw, chowned(raw, uid, gid, now));
        lemma_edit_goes(v, ino, raw, crate::bytes::put32(crate::bytes::put32(raw, 0x20, flags), 0x0C, now));
        lemma_edit_goes(v, ino, raw, utimed(raw, asec, ansec, msec, mnsec, now));
    }
}

/// A time that any inode can hold: one before 2038, or none.
pub open spec fn time_kept(secs: i64) -> bool {
    secs == TIME_OMIT || -0x8000_0000 <= secs <= 0x7FFF_FFFF
}

} // verus!
