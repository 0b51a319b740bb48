//! Contents kept inside the inode itself: the first sixty bytes in the block
//! area, the rest in an attribute of the inode's own region.
use crate::bytes::{copy_range, get_u16};
use crate::error::{Error, Result};
use crate::inode::{block_area_of, extra_isize_of, size_of_file, Inode, INODE_EXTRA_OFFSET, OFF_EXTRA_ISIZE};
use crate::xattr::{attr_index, find_attr, read_region, region_attrs, XattrEntry};
use vstd::prelude::*;

verus! {

/// The bytes of a record behind its fixed part: its own attribute region.
pub open spec fn attr_region(raw: Seq<u8>) -> Seq<u8> {
    raw.subrange(128 + extra_isize_of(raw), raw.len() as int)
}

/// The name, in its namespace, of the attribute that holds contents.
pub open spec fn data_name() -> Seq<u8> {
    seq![0x64u8, 0x61u8, 0x74u8, 0x61u8]
}

/// The namespace of the attribute that holds contents.
pub const SYSTEM_INDEX: u8 = 7;

/// The contents that a record holds itself.
pub open spec fn inline_contents(raw: Seq<u8>) -> Result<Seq<u8>> {
    let size = size_of_file(raw) as int;
    let head = block_area_of(raw);
    if size <= 60 {
        Ok(head.subrange(0, size))
    } else {
        match region_attrs(attr_region(raw)) {
            Err(e) => Err(e),
            Ok(attrs) => match attr_index(attrs, SYSTEM_INDEX, data_name()) {
                None => Err(Error::Corrupt("inline data: no system.data attribute")),
                Some(i) => if attrs[i].value.len() < size - 60 {
                    Err(Error::Corrupt("inline data: shorter than the file"))
                } else {
                    Ok(head + attrs[i].value.subrange(0, size - 60))
                },
            },
        }
    }
}

/// Where a record's own attribute region starts.
pub fn region_start(raw: &[u8]) -> (r: usize)
    ensures
        r == 128 + extra_isize_of(raw@),
{
    if raw.len() >= INODE_EXTRA_OFFSET + 4 {
        128 + get_u16(raw, OFF_EXTRA_ISIZE) as usize
    } else {
        128
    }
}

/// All of the contents that a record holds itself.
pub fn read_all(inode: &Inode, raw: &[u8]) -> (r: Result<Vec<u8>>)
    requires
        inode.decodes(raw@),
        128 <= raw@.len() <= 0x1_0000,
        128 + extra_isize_of(raw@) <= raw@.len(),
    ensures
        match r {
            Ok(b) => inline_contents(raw@) == Ok::<Seq<u8>, Error>(b@) && b@.len() == inode.size,
            Err(e) => inline_contents(raw@) == Err::<Seq<u8>, Error>(e),
        },
{
    if inode.size <= 60 {
        return Ok(copy_range(&inode.block, 0, inode.size as usize));
    }
    let start: usize = region_start(raw);
    let region: Vec<u8> = copy_range(raw, start, raw.len());
    let attrs: Vec<XattrEntry> = match read_region(&region) {
        Ok(a) => a,
        Err(e) => {
            return Err(e);
        },
    };
    let name: Vec<u8> = vec![0x64u8, 0x61u8, 0x74u8, 0x61u8];
    assert(name@ =~= data_name());
    match find_attr(&attrs, SYSTEM_INDEX, &name) {
        None => Err(Error::Corrupt("inline data: no system.data attribute")),
        Some(i) => {
            let value: &Vec<u8> = &attrs[i].value;
            if (value.len() as u64) < inode.size - 60 {
                return Err(Error::Corrupt("inline data: shorter than the file"));
            }
            let mut out: Vec<u8> = copy_range(&inode.block, 0, 60);
            assert(out@ =~= inode.block@);
            let mut rest: Vec<u8> = copy_range(value, 0, (inode.size - 60) as usize);
            out.append(&mut rest);
            Ok(out)
        },
    }
}

} // verus!
