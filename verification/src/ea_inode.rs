//! Attribute values too large for an attribute block: each is the contents of
//! an inode of its own.
use crate::block_io::BlockDevice;
use crate::error::{Error, Result};
use crate::file_io::{read_all, read_inline, whole_bytes};
use crate::fs::{raw_inode, Filesystem};
use crate::inline_data::inline_contents;
use crate::inode::{flags_of, inode_fault, size_of_file, Inode, FL_EA_INODE, FL_INLINE_DATA};
use crate::volume::Vol;
use vstd::prelude::*;

verus! {

/// The contents of a file, inside its inode or not.
pub open spec fn contents_of(v: Vol, inode: Inode, raw: Seq<u8>) -> Result<Seq<u8>> {
    if inode.flags & FL_INLINE_DATA != 0 {
        inline_contents(raw)
    } else {
        whole_bytes(v, inode)
    }
}

/// Why an inode cannot be the value of an entry that declares `declared`
/// bytes, if it cannot.
pub open spec fn value_refusal(v: Vol, inum: u32, declared: u32) -> Option<Error> {
    if inum == 0 {
        Some(Error::InvalidInode(inum))
    } else {
        match raw_inode(v, inum) {
            Err(e) => Some(e),
            Ok(raw) => match inode_fault(raw) {
                Some(e) => Some(e),
                None => if flags_of(raw) & FL_EA_INODE == 0 {
                    Some(Error::Corrupt("e_value_inum target missing EA_INODE flag (0x200000)"))
                } else if size_of_file(raw) != declared {
                    Some(
                        Error::Corrupt(
                            "an EA inode's length disagrees with the xattr entry's e_value_size",
                        ),
                    )
                } else {
                    None
                },
            },
        }
    }
}

/// `r` is the value that inode `inum` holds for an entry that declares
/// `declared` bytes, or why there is none.
pub open spec fn value_agrees(v: Vol, inum: u32, declared: u32, r: Result<Seq<u8>>, healthy: bool) -> bool {
    (!healthy && r == Err::<Seq<u8>, Error>(Error::Io)) || (match value_refusal(v, inum, declared) {
        Some(e) => r == Err::<Seq<u8>, Error>(e),
        None => exists|inode: Inode| #[trigger]
            inode.decodes(raw_inode(v, inum)->Ok_0) && r == contents_of(
                v,
                inode,
                raw_inode(v, inum)->Ok_0,
            ),
    })
}

/// Bytes as a value.
pub open spec fn bytes_result(r: Result<Vec<u8>>) -> Result<Seq<u8>> {
    match r {
        Ok(b) => Ok(b@),
        Err(e) => Err(e),
    }
}

/// Follow an `e_value_inum` pointer and return the value's bytes. `declared`
/// is the entry's own `e_value_size`: an inode of another length is refused
/// before its contents are read.
pub fn read_value_inode<D: BlockDevice>(fs: &Filesystem<D>, value_inum: u32, declared: u32) -> (r: Result<Vec<u8>>)
    requires
        fs.wf(),
    ensures
        value_agrees(fs@, value_inum, declared, bytes_result(r), fs.dev.healthy()),
{
    if value_inum == 0 {
        return Err(Error::InvalidInode(value_inum));
    }
    let raw: Vec<u8> = match fs.read_inode_raw(value_inum) {
        Ok(raw) => raw,
        Err(e) => {
            return Err(e);
        },
    };
    let inode: Inode = match Inode::parse(&raw) {
        Ok(i) => i,
        Err(e) => {
            return Err(e);
        },
    };
    if inode.flags & FL_EA_INODE == 0 {
        return Err(Error::Corrupt("e_value_inum target missing EA_INODE flag (0x200000)"));
    }
    if inode.size != declared as u64 {
        return Err(
            Error::Corrupt("an EA inode's length disagrees with the xattr entry's e_value_size"),
        );
    }
    assert(inode.decodes(raw_inode(fs@, value_inum)->Ok_0));
    if inode.flags & FL_INLINE_DATA != 0 {
        return read_inline(fs, &inode, &raw);
    }
    read_all(fs, &inode)
}

} // verus!
