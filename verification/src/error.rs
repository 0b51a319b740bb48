//! The one error type every operation returns.
use vstd::prelude::*;

verus! {

/// Why an operation was refused or could not be carried out.
#[derive(Debug, Clone, Copy, PartialEq, Eq)]
pub enum Error {
    /// The device could not serve the request.
    Io,
    /// Metadata that cannot be what it claims to be.
    Corrupt(&'static str),
    /// An extent tree node that cannot be read or changed as asked.
    CorruptExtentTree(&'static str),
    /// A directory block whose records do not chain.
    CorruptDirEntry(&'static str),
    /// An inode number outside the volume.
    InvalidInode(u32),
    /// A block number outside the volume.
    InvalidBlock(u64),
    /// An argument that no volume could honour.
    InvalidArgument(&'static str),
    /// INCOMPAT bits this driver cannot read.
    UnsupportedIncompat(u32),
    /// RO_COMPAT bits this driver cannot maintain.
    UnsupportedRoCompat(u32),
    /// A request this driver does not implement.
    Unsupported(&'static str),
    /// A stored checksum that does not match the bytes it covers.
    BadChecksum(&'static str),
    /// The volume, or the device under it, takes no writes.
    ReadOnly,
    NotFound,
    NotADirectory,
    IsADirectory,
    DirectoryNotEmpty,
    AlreadyExists,
    NameTooLong,
    /// No room left in the structure being edited.
    OutOfBounds,
    NoSpaceLeftOnDevice,
}

pub type Result<T> = core::result::Result<T, Error>;

/// Error numbers as the hosts of this driver know them.
pub const ENOENT: i32 = 2;

pub const EIO: i32 = 5;

pub const EEXIST: i32 = 17;

pub const ENOTDIR: i32 = 20;

pub const EISDIR: i32 = 21;

pub const EINVAL: i32 = 22;

pub const ENOSPC: i32 = 28;

pub const EROFS: i32 = 30;

pub const ENOTSUP: i32 = 45;

pub const ENAMETOOLONG: i32 = 63;

pub const ENOTEMPTY: i32 = 66;

impl Error {
    /// The number that an error goes by.
    pub open spec fn number(self) -> i32 {
        match self {
            Error::Io | Error::Corrupt(_) | Error::CorruptExtentTree(_) | Error::CorruptDirEntry(_)
            | Error::InvalidInode(_) | Error::InvalidBlock(_) | Error::BadChecksum(_) => EIO,
            Error::InvalidArgument(_) | Error::OutOfBounds => EINVAL,
            Error::UnsupportedIncompat(_) | Error::UnsupportedRoCompat(_) | Error::Unsupported(_) => ENOTSUP,
            Error::ReadOnly => EROFS,
            Error::NotFound => ENOENT,
            Error::NotADirectory => ENOTDIR,
            Error::IsADirectory => EISDIR,
            Error::DirectoryNotEmpty => ENOTEMPTY,
            Error::AlreadyExists => EEXIST,
            Error::NameTooLong => ENAMETOOLONG,
            Error::NoSpaceLeftOnDevice => ENOSPC,
        }
    }

    /// The number that the error goes by.
    pub fn to_errno(&self) -> (r: i32)
        ensures
            r == self.number(),
    {
        match self {
            Error::Io | Error::Corrupt(_) | Error::CorruptExtentTree(_) | Error::CorruptDirEntry(_)
            | Error::InvalidInode(_) | Error::InvalidBlock(_) | Error::BadChecksum(_) => EIO,
            Error::InvalidArgument(_) | Error::OutOfBounds => EINVAL,
            Error::UnsupportedIncompat(_) | Error::UnsupportedRoCompat(_) | Error::Unsupported(_) => ENOTSUP,
            Error::ReadOnly => EROFS,
            Error::NotFound => ENOENT,
            Error::NotADirectory => ENOTDIR,
            Error::IsADirectory => EISDIR,
            Error::DirectoryNotEmpty => ENOTEMPTY,
            Error::AlreadyExists => EEXIST,
            Error::NameTooLong => ENAMETOOLONG,
            Error::NoSpaceLeftOnDevice => ENOSPC,
        }
    }
}

} // verus!
