//! Directory blocks: a chain of records that fills the block.
//!
//! A record is an inode number, its own length, the name's length, a type and
//! the name. A record with inode 0 is free space. Where a volume keeps no
//! types the name's length takes both bytes.
use crate::bytes::{copy_range, get_u16, get_u32, le16, le32, overlay, put16, put32, same_bytes, set_u16, set_u32, splice};
use crate::error::{Error, Result};
use vstd::prelude::*;

verus! {

broadcast use crate::bytes::group_fields;

/// What kind of file an entry names.
#[derive(Debug, Clone, Copy, PartialEq, Eq, Structural)]
pub enum DirEntryType {
    Unknown,
    RegFile,
    Directory,
    CharDev,
    BlockDev,
    Fifo,
    Socket,
    Symlink,
}

impl DirEntryType {
    /// The byte a type is stored as.
    pub open spec fn code_spec(self) -> u8 {
        match self {
            DirEntryType::Unknown => 0,
            DirEntryType::RegFile => 1,
            DirEntryType::Directory => 2,
            DirEntryType::CharDev => 3,
            DirEntryType::BlockDev => 4,
            DirEntryType::Fifo => 5,
            DirEntryType::Socket => 6,
            DirEntryType::Symlink => 7,
        }
    }

    /// The byte a type is stored as.
    pub fn code(self) -> (r: u8)
        ensures
            r == self.code_spec(),
    {
        match self {
            DirEntryType::Unknown => 0,
            DirEntryType::RegFile => 1,
            DirEntryType::Directory => 2,
            DirEntryType::CharDev => 3,
            DirEntryType::BlockDev => 4,
            DirEntryType::Fifo => 5,
            DirEntryType::Socket => 6,
            DirEntryType::Symlink => 7,
        }
    }
}

/// One record, read.
pub struct Record {
    pub inode: u32,
    pub rec_len: usize,
    pub name: Vec<u8>,
    pub file_type: u8,
}

/// One record, as it means.
pub struct RecordView {
    pub inode: u32,
    pub rec_len: int,
    pub name: Seq<u8>,
    pub file_type: u8,
}

/// A stored record length: 65536 does not fit the field and is kept as 0 or
/// as all ones.
pub open spec fn rec_len_of(stored: u16) -> int {
    if stored == 0 || stored == 0xFFFF {
        65536
    } else {
        stored as int
    }
}

/// The length of the name of the record at `at`.
pub open spec fn name_len_at(block: Seq<u8>, at: int, has_ft: bool) -> int {
    if has_ft {
        block[at + 6] as int
    } else {
        le16(block, at + 6) as int
    }
}

/// The record at byte `at`, which must end by `end`.
pub open spec fn record_at(block: Seq<u8>, at: int, end: int, has_ft: bool) -> Result<RecordView> {
    if at + 8 > end {
        Err(Error::CorruptDirEntry("directory record header past the end"))
    } else {
        let rec_len = rec_len_of(le16(block, at + 4));
        let name_len = name_len_at(block, at, has_ft);
        if rec_len < 8 || rec_len % 4 != 0 {
            Err(Error::CorruptDirEntry("directory record length invalid"))
        } else if at + rec_len > end {
            Err(Error::CorruptDirEntry("directory record overruns the block"))
        } else if 8 + name_len > rec_len {
            Err(Error::CorruptDirEntry("directory name overruns its record"))
        } else {
            Ok(
                RecordView {
                    inode: le32(block, at),
                    rec_len,
                    name: block.subrange(at + 8, at + 8 + name_len),
                    file_type: if has_ft {
                        block[at + 7]
                    } else {
                        0
                    },
                },
            )
        }
    }
}

/// Reads the record at byte `at`.
pub fn read_record(block: &[u8], at: usize, end: usize, has_ft: bool) -> (r: Result<Record>)
    requires
        at <= end <= block@.len(),
    ensures
        match r {
            Ok(rec) => record_at(block@, at as int, end as int, has_ft) == Ok::<RecordView, Error>(
                RecordView {
                    inode: rec.inode,
                    rec_len: rec.rec_len as int,
                    name: rec.name@,
                    file_type: rec.file_type,
                },
            ) && 8 + rec.name@.len() <= rec.rec_len && at + rec.rec_len <= end,
            Err(e) => record_at(block@, at as int, end as int, has_ft) == Err::<RecordView, Error>(e),
        },
{
    assert(block.len() == block@.len());
    if end - at < 8 {
        return Err(Error::CorruptDirEntry("directory record header past the end"));
    }
    let stored: u16 = get_u16(block, at + 4);
    let rec_len: usize = if stored == 0 || stored == 0xFFFF {
        65536
    } else {
        stored as usize
    };
    let name_len: usize = if has_ft {
        block[at + 6] as usize
    } else {
        get_u16(block, at + 6) as usize
    };
    if rec_len < 8 || rec_len % 4 != 0 {
        return Err(Error::CorruptDirEntry("directory record length invalid"));
    }
    if rec_len > end - at {
        return Err(Error::CorruptDirEntry("directory record overruns the block"));
    }
    if 8 + name_len > rec_len {
        return Err(Error::CorruptDirEntry("directory name overruns its record"));
    }
    Ok(
        Record {
            inode: get_u32(block, at),
            rec_len,
            name: copy_range(block, at + 8, at + 8 + name_len),
            file_type: if has_ft {
                block[at + 7]
            } else {
                0
            },
        },
    )
}

// -- looking ----------------------------------------------------------------

/// The inode that `name` names in the records from `at` on.
pub open spec fn find_from(block: Seq<u8>, at: int, name: Seq<u8>, has_ft: bool) -> Result<Option<u32>>
    decreases block.len() - at,
{
    if at >= block.len() {
        Ok(None)
    } else {
        match record_at(block, at, block.len() as int, has_ft) {
            Err(e) => Err(e),
            Ok(rec) => if rec.inode != 0 && rec.name == name {
                Ok(Some(rec.inode))
            } else {
                find_from(block, at + rec.rec_len, name, has_ft)
            },
        }
    }
}

/// The inode that `name` names in a directory block.
pub fn find_in_block(block: &[u8], name: &[u8], has_ft: bool) -> (r: Result<Option<u32>>)
    ensures
        r == find_from(block@, 0, name@, has_ft),
{
    let mut at: usize = 0;
    while at < block.len()
        invariant
            at <= block@.len(),
            find_from(block@, 0, name@, has_ft) == find_from(block@, at as int, name@, has_ft),
        decreases block@.len() - at,
    {
        match read_record(block, at, block.len(), has_ft) {
            Err(e) => {
                return Err(e);
            },
            Ok(rec) => {
                if rec.inode != 0 && same_bytes(&rec.name, name) {
                    return Ok(Some(rec.inode));
                }
                at = at + rec.rec_len;
            },
        }
    }
    Ok(None)
}

/// `.` or `..`.
pub open spec fn is_dots(name: Seq<u8>) -> bool {
    name == seq![0x2Eu8] || name == seq![0x2Eu8, 0x2Eu8]
}

/// Whether the records from `at` on name nothing but `.` and `..`.
pub open spec fn only_dots_from(block: Seq<u8>, at: int, has_ft: bool) -> Result<bool>
    decreases block.len() - at,
{
    if at >= block.len() {
        Ok(true)
    } else {
        match record_at(block, at, block.len() as int, has_ft) {
            Err(e) => Err(e),
            Ok(rec) => if rec.inode != 0 && !is_dots(rec.name) {
                Ok(false)
            } else {
                only_dots_from(block, at + rec.rec_len, has_ft)
            },
        }
    }
}

/// Whether a directory block names nothing but `.` and `..`.
pub fn only_dots_in_block(block: &[u8], has_ft: bool) -> (r: Result<bool>)
    ensures
        r == only_dots_from(block@, 0, has_ft),
{
    let mut at: usize = 0;
    while at < block.len()
        invariant
            at <= block@.len(),
            only_dots_from(block@, 0, has_ft) == only_dots_from(block@, at as int, has_ft),
        decreases block@.len() - at,
    {
        match read_record(block, at, block.len(), has_ft) {
            Err(e) => {
                return Err(e);
            },
            Ok(rec) => {
                let dots: bool = (rec.name.len() == 1 && rec.name[0] == 0x2E) || (rec.name.len() == 2
                    && rec.name[0] == 0x2E && rec.name[1] == 0x2E);
                proof {
                    assert(rec.name@.len() == 1 && rec.name@[0] == 0x2E ==> rec.name@ =~= seq![0x2Eu8]);
                    assert(rec.name@.len() == 2 && rec.name@[0] == 0x2E && rec.name@[1] == 0x2E
                        ==> rec.name@ =~= seq![0x2Eu8, 0x2Eu8]);
                    assert(seq![0x2Eu8].len() == 1 && seq![0x2Eu8][0] == 0x2E);
                    assert(seq![0x2Eu8, 0x2Eu8].len() == 2 && seq![0x2Eu8, 0x2Eu8][0] == 0x2E && seq![
                        0x2Eu8,
                        0x2Eu8,
                    ][1] == 0x2E);
                    assert(dots == is_dots(rec.name@));
                }
                if rec.inode != 0 && !dots {
                    return Ok(false);
                }
                at = at + rec.rec_len;
            },
        }
    }
    Ok(true)
}

/// The live records from `at` on, in order.
pub open spec fn list_from(block: Seq<u8>, at: int, has_ft: bool) -> Result<Seq<RecordView>>
    decreases block.len() - at,
{
    if at >= block.len() {
        Ok(Seq::empty())
    } else {
        match record_at(block, at, block.len() as int, has_ft) {
            Err(e) => Err(e),
            Ok(rec) => match list_from(block, at + rec.rec_len, has_ft) {
                Err(e) => Err(e),
                Ok(rest) => if rec.inode != 0 {
                    Ok(seq![rec] + rest)
                } else {
                    Ok(rest)
                },
            },
        }
    }
}

/// A record as it means.
pub open spec fn record_view(rec: Record) -> RecordView {
    RecordView {
        inode: rec.inode,
        rec_len: rec.rec_len as int,
        name: rec.name@,
        file_type: rec.file_type,
    }
}

/// A list of records as they mean.
pub open spec fn record_views(recs: Seq<Record>) -> Seq<RecordView> {
    Seq::new(recs.len(), |i: int| record_view(recs[i]))
}

/// The live records of a directory block, in order.
pub fn parse_block(block: &[u8], has_ft: bool) -> (r: Result<Vec<Record>>)
    ensures
        match r {
            Ok(v) => list_from(block@, 0, has_ft) == Ok::<Seq<RecordView>, Error>(record_views(v@)),
            Err(e) => list_from(block@, 0, has_ft) == Err::<Seq<RecordView>, Error>(e),
        },
{
    let mut out: Vec<Record> = Vec::new();
    let mut at: usize = 0;
    proof {
        lemma_join_nothing(list_from(block@, 0, has_ft));
        assert(record_views(out@) =~= Seq::<RecordView>::empty());
    }
    while at < block.len()
        invariant
            at <= block@.len(),
            list_from(block@, 0, has_ft) == join_lists(
                record_views(out@),
                list_from(block@, at as int, has_ft),
            ),
        decreases block@.len() - at,
    {
        match read_record(block, at, block.len(), has_ft) {
            Err(e) => {
                return Err(e);
            },
            Ok(rec) => {
                let ghost before = record_views(out@);
                let ghost view = record_view(rec);
                let next: usize = at + rec.rec_len;
                if rec.inode != 0 {
                    out.push(rec);
                    proof {
                        assert(record_views(out@) =~= before.push(view));
                        if let Ok(rest) = list_from(block@, next as int, has_ft) {
                            assert(before + (seq![view] + rest) =~= before.push(view) + rest);
                        }
                    }
                }
                at = next;
            },
        }
    }
    proof {
        assert(record_views(out@) + Seq::<RecordView>::empty() =~= record_views(out@));
    }
    Ok(out)
}

/// The records before, then the rest, if the rest can be read.
pub open spec fn join_lists(before: Seq<RecordView>, rest: Result<Seq<RecordView>>) -> Result<Seq<RecordView>> {
    match rest {
        Err(e) => Err(e),
        Ok(r) => Ok(before + r),
    }
}

proof fn lemma_join_nothing(rest: Result<Seq<RecordView>>)
    ensures
        join_lists(Seq::empty(), rest) == rest,
{
    if let Ok(r) = rest {
        assert(Seq::<RecordView>::empty() + r =~= r);
    }
}

// -- adding -----------------------------------------------------------------

/// Bytes a record with a name of `n` bytes takes.
pub open spec fn record_size(n: int) -> int {
    (8 + n + 3) / 4 * 4
}

/// The block with a record at `at`.
pub open spec fn with_record(
    block: Seq<u8>,
    at: int,
    ino: u32,
    rec_len: int,
    name: Seq<u8>,
    ft: u8,
) -> Seq<u8> {
    splice(
        put16(put32(block, at, ino), at + 4, (rec_len % 0x1_0000) as u16).update(
            at + 6,
            name.len() as u8,
        ).update(at + 7, ft),
        at + 8,
        name,
    )
}

/// The block with the entry in the first record from `at` on that has room:
/// a free record, or the slack behind a used one.
pub open spec fn add_from(
    block: Seq<u8>,
    at: int,
    end: int,
    ino: u32,
    name: Seq<u8>,
    ft: u8,
    has_ft: bool,
) -> Result<Seq<u8>>
    decreases end - at,
{
    if at >= end {
        Err(Error::OutOfBounds)
    } else {
        match record_at(block, at, end, has_ft) {
            Err(e) => Err(e),
            Ok(rec) => {
                let need = record_size(name.len() as int);
                let used = record_size(rec.name.len() as int);
                if rec.inode == 0 && rec.rec_len >= need {
                    Ok(with_record(block, at, ino, rec.rec_len, name, ft))
                } else if rec.inode != 0 && rec.rec_len - used >= need {
                    Ok(
                        with_record(
                            put16(block, at + 4, used as u16),
                            at + used,
                            ino,
                            rec.rec_len - used,
                            name,
                            ft,
                        ),
                    )
                } else {
                    add_from(block, at + rec.rec_len, end, ino, name, ft, has_ft)
                }
            },
        }
    }
}

/// The type byte stored for an entry.
pub open spec fn type_byte(t: DirEntryType, has_ft: bool) -> u8 {
    if has_ft {
        t.code_spec()
    } else {
        0
    }
}

fn put_record(block: &mut Vec<u8>, at: usize, ino: u32, rec_len: usize, name: &[u8], ft: u8)
    requires
        at + 8 + name@.len() <= old(block)@.len(),
        name@.len() <= 255,
        rec_len <= 65536,
    ensures
        final(block)@ == with_record(old(block)@, at as int, ino, rec_len as int, name@, ft),
{
    assert(block.len() == block@.len());
    set_u32(block, at, ino);
    set_u16(block, at + 4, (rec_len % 0x1_0000) as u16);
    block.set(at + 6, name.len() as u8);
    block.set(at + 7, ft);
    overlay(block, at + 8, name);
}

/// Adds an entry to a directory block, or says `OutOfBounds` where no record
/// has room. The last `reserved_tail` bytes are left alone.
pub fn add_entry_to_block(
    block: &mut Vec<u8>,
    ino: u32,
    name: &[u8],
    file_type: DirEntryType,
    has_ft: bool,
    reserved_tail: usize,
) -> (r: Result<()>)
    requires
        reserved_tail <= old(block)@.len(),
        name@.len() <= 255,
    ensures
        match add_from(
            old(block)@,
            0,
            old(block)@.len() - reserved_tail,
            ino,
            name@,
            type_byte(file_type, has_ft),
            has_ft,
        ) {
            Ok(b) => r is Ok && final(block)@ == b,
            Err(e) => r == Err::<(), Error>(e) && final(block)@ == old(block)@,
        },
        final(block)@.len() == old(block)@.len(),
{
    let end: usize = block.len() - reserved_tail;
    let ft: u8 = if has_ft {
        file_type.code()
    } else {
        0
    };
    let need: usize = (8 + name.len() + 3) / 4 * 4;
    let ghost b0 = block@;
    let ghost whole = add_from(b0, 0, end as int, ino, name@, ft, has_ft);
    let mut at: usize = 0;
    while at < end
        invariant
            at <= end <= b0.len() == block@.len(),
            block@ == b0,
            b0 == old(block)@,
            end == old(block)@.len() - reserved_tail,
            ft == type_byte(file_type, has_ft),
            name@.len() <= 255,
            need == record_size(name@.len() as int),
            whole == add_from(b0, 0, end as int, ino, name@, ft, has_ft),
            whole == add_from(b0, at as int, end as int, ino, name@, ft, has_ft),
        decreases end - at,
    {
        match read_record(block, at, end, has_ft) {
            Err(e) => {
                return Err(e);
            },
            Ok(rec) => {
                if rec.inode == 0 {
                    if rec.rec_len >= need {
                        put_record(block, at, ino, rec.rec_len, name, ft);
                        return Ok(());
                    }
                } else {
                    let used: usize = (8 + rec.name.len() + 3) / 4 * 4;
                    if rec.rec_len >= used && rec.rec_len - used >= need {
                        set_u16(block, at + 4, used as u16);
                        put_record(block, at + used, ino, rec.rec_len - used, name, ft);
                        return Ok(());
                    }
                }
                at = at + rec.rec_len;
            },
        }
    }
    Err(Error::OutOfBounds)
}

// -- removing ---------------------------------------------------------------

/// The block without the entry, looking from `at` on; `prev` is the record
/// before, if there is one. `None` where no record has the name.
pub open spec fn remove_from(
    block: Seq<u8>,
    prev: Option<int>,
    at: int,
    end: int,
    name: Seq<u8>,
    has_ft: bool,
) -> Result<Option<Seq<u8>>>
    decreases end - at,
{
    if at >= end {
        Ok(None)
    } else {
        match record_at(block, at, end, has_ft) {
            Err(e) => Err(e),
            Ok(rec) => if rec.inode != 0 && rec.name == name {
                match prev {
                    Some(p) => Ok(
                        Some(put16(block, p + 4, ((at - p + rec.rec_len) % 0x1_0000) as u16)),
                    ),
                    None => Ok(Some(put32(block, at, 0))),
                }
            } else {
                remove_from(block, Some(at), at + rec.rec_len, end, name, has_ft)
            },
        }
    }
}

/// Removes the entry for `name` from a directory block: the record before
/// swallows it, or it becomes free space. `false` where there is none.
pub fn remove_entry_from_block(block: &mut Vec<u8>, name: &[u8], has_ft: bool, reserved_tail: usize) -> (r: Result<bool>)
    requires
        reserved_tail <= old(block)@.len() <= 65536,
    ensures
        match remove_from(old(block)@, None, 0, old(block)@.len() - reserved_tail, name@, has_ft) {
            Ok(Some(b)) => r == Ok::<bool, Error>(true) && final(block)@ == b,
            Ok(None) => r == Ok::<bool, Error>(false) && final(block)@ == old(block)@,
            Err(e) => r == Err::<bool, Error>(e) && final(block)@ == old(block)@,
        },
        final(block)@.len() == old(block)@.len(),
{
    let end: usize = block.len() - reserved_tail;
    let ghost b0 = block@;
    let ghost whole = remove_from(b0, None, 0, end as int, name@, has_ft);
    let mut prev: Option<usize> = None;
    let mut at: usize = 0;
    while at < end
        invariant
            at <= end <= b0.len() == block@.len() <= 65536,
            block@ == b0,
            b0 == old(block)@,
            end == old(block)@.len() - reserved_tail,
            prev matches Some(p) ==> p + 8 <= at,
            whole == remove_from(b0, None, 0, end as int, name@, has_ft),
            whole == remove_from(
                b0,
                (match prev {
                    Some(p) => Some(p as int),
                    None => None,
                }),
                at as int,
                end as int,
                name@,
                has_ft,
            ),
        decreases end - at,
    {
        match read_record(block, at, end, has_ft) {
            Err(e) => {
                return Err(e);
            },
            Ok(rec) => {
                if rec.inode != 0 && same_bytes(&rec.name, name) {
                    match prev {
                        Some(p) => {
                            set_u16(block, p + 4, ((at - p + rec.rec_len) % 0x1_0000) as u16);
                        },
                        None => {
                            set_u32(block, at, 0);
                        },
                    }
                    return Ok(true);
                }
                prev = Some(at);
                at = at + rec.rec_len;
            },
        }
    }
    Ok(false)
}

} // verus!
