//! The mounted filesystem: its state, and reading blocks and inodes.
use crate::bgd::{inode_place, locate_inode, BlockGroupDescriptor};
use crate::block_io::{read_device_block, BlockDevice};
use crate::bytes::copy_range;
use crate::checksum::{inode_crc_ok, Checksummer};
use crate::error::{Error, Result};
use crate::extent::{block_for, map_logical};
use crate::features::{has, has_any, unmaintained_ro_compat, FsFlavor, INCOMPAT_FILETYPE, MAINTAINED_RO_COMPAT};
use crate::indirect::{indirect_block_for, lookup_indirect};
use crate::inode::{
    block_area_of, flags_of, generation_of, inode_fault, mode_is_dir, mode_of, size_of_file, Inode, FL_EXTENTS,
};
use crate::superblock::Superblock;
use crate::volume::Vol;
use vstd::prelude::*;

verus! {

/// A mounted filesystem on a device.
pub struct Filesystem<D: BlockDevice> {
    pub dev: D,
    pub sb: Superblock,
    /// The group descriptors as read at mount. Their counters stay as they
    /// were; a group's uninit flags are taken down when its bitmap is first
    /// written, so that the allocators read it from then on.
    pub groups: Vec<BlockGroupDescriptor>,
    pub csum: Checksummer,
    /// Dialect detected at mount time from the superblock's feature flags.
    pub flavor: FsFlavor,
    /// Whether a dirty journal is still to be replayed: until it is, no write
    /// goes through.
    pub replay_due: bool,
}

impl<D: BlockDevice> View for Filesystem<D> {
    type V = Vol;

    open spec fn view(&self) -> Vol {
        Vol {
            img: self.dev.contents(),
            sb: self.sb,
            groups: self.groups@,
            csum: self.csum,
        }
    }
}

/// Whether a volume keeps file types in its directory entries.
pub open spec fn keeps_types(v: Vol) -> bool {
    has(v.sb.feature_incompat, INCOMPAT_FILETYPE)
}

/// Why a write is refused before anything is looked at, if it is.
pub open spec fn write_refusal(writable: bool, v: Vol) -> Option<Error> {
    if !writable {
        Some(Error::ReadOnly)
    } else if v.sb.feature_ro_compat & !MAINTAINED_RO_COMPAT != 0 {
        Some(Error::UnsupportedRoCompat(v.sb.feature_ro_compat & !MAINTAINED_RO_COMPAT))
    } else {
        None
    }
}

/// The record of inode `ino`.
pub open spec fn raw_inode(v: Vol, ino: u32) -> Result<Seq<u8>> {
    match inode_place(v.sb, v.groups, ino) {
        Err(e) => Err(e),
        Ok((block, off)) => match v.block(block as int) {
            Err(e) => Err(e),
            Ok(b) => if off + v.sb.inode_size > b.len() {
                Err(Error::Corrupt("inode slice exceeds block data"))
            } else {
                Ok(b.subrange(off as int, off + v.sb.inode_size))
            },
        },
    }
}

/// The record of inode `ino`, if it can be trusted.
pub open spec fn checked_inode(v: Vol, ino: u32) -> Result<Seq<u8>> {
    match raw_inode(v, ino) {
        Err(e) => Err(e),
        Ok(raw) => match inode_fault(raw) {
            Some(e) => Err(e),
            None => if v.csum.enabled && !inode_crc_ok(v.csum.seed, ino, generation_of(raw), raw) {
                Err(Error::BadChecksum("inode"))
            } else if mode_is_dir(mode_of(raw)) && size_of_file(raw) > v.sb.blocks_count * v.bs() {
                Err(Error::Corrupt("directory inode declares more bytes than the filesystem holds"))
            } else {
                Ok(raw)
            },
        },
    }
}

/// Where block `l` of the file with this record is.
pub open spec fn file_block(v: Vol, raw: Seq<u8>, l: int) -> Result<Option<u64>> {
    if flags_of(raw) & FL_EXTENTS != 0 {
        block_for(v.img, v.bs(), block_area_of(raw), l)
    } else {
        indirect_block_for(v.img, v.bs(), block_area_of(raw), l)
    }
}

impl<D: BlockDevice> Filesystem<D> {
    /// The limits every mounted filesystem keeps to.
    pub open spec fn wf(&self) -> bool {
        &&& self@.wf()
        &&& self.flavor == FsFlavor::of(self.sb.feature_compat, self.sb.feature_incompat)
    }

    /// Whether writes can go through: the device takes them, and no dirty
    /// journal is still to be replayed.
    pub open spec fn takes_writes(&self) -> bool {
        self.dev.writable() && !self.replay_due
    }

    /// Refuse a write this driver cannot make consistently: the device cannot
    /// be written at all, its journal has yet to be replayed, or the volume
    /// carries a feature whose structures a write here would leave behind.
    pub fn refuse_write(&self) -> (r: Result<()>)
        ensures
            r == (match write_refusal(self.takes_writes(), self@) {
                Some(e) => Err::<(), Error>(e),
                None => Ok(()),
            }),
            r is Ok ==> self.takes_writes(),
    {
        if !self.dev.is_writable() || self.replay_due {
            return Err(Error::ReadOnly);
        }
        let unmaintained: u32 = unmaintained_ro_compat(self.sb.feature_ro_compat);
        if unmaintained != 0 {
            return Err(Error::UnsupportedRoCompat(unmaintained));
        }
        Ok(())
    }

    /// Whether directory entries carry types.
    pub fn has_file_types(&self) -> (r: bool)
        ensures
            r == keeps_types(self@),
    {
        has_any(self.sb.feature_incompat, INCOMPAT_FILETYPE)
    }

    /// Read a whole block by its block number.
    pub fn read_block(&self, block_num: u64) -> (r: Result<Vec<u8>>)
        ensures
            match r {
                Ok(b) => self@.block(block_num as int) == Ok::<Seq<u8>, Error>(b@) && b@.len()
                    == self.sb.bs(),
                Err(e) => self@.block(block_num as int) == Err::<Seq<u8>, Error>(e) || (!self.dev.healthy()
                    && e == Error::Io),
            },
    {
        read_device_block(&self.dev, self.sb.block_size(), block_num)
    }

    /// Read raw inode bytes for a given inode number (does not parse).
    pub fn read_inode_raw(&self, ino: u32) -> (r: Result<Vec<u8>>)
        requires
            self.wf(),
        ensures
            match r {
                Ok(raw) => raw_inode(self@, ino) == Ok::<Seq<u8>, Error>(raw@) && raw@.len()
                    == self.sb.inode_size,
                Err(e) => raw_inode(self@, ino) == Err::<Seq<u8>, Error>(e) || (!self.dev.healthy() && e
                    == Error::Io),
            },
    {
        let (block, offset): (u64, u32) = match locate_inode(&self.sb, &self.groups, ino) {
            Ok(p) => p,
            Err(e) => {
                return Err(e);
            },
        };
        let block_data: Vec<u8> = match self.read_block(block) {
            Ok(b) => b,
            Err(e) => {
                return Err(e);
            },
        };
        let off: usize = offset as usize;
        let inode_size: usize = self.sb.inode_size as usize;
        if inode_size > block_data.len() || off > block_data.len() - inode_size {
            return Err(Error::Corrupt("inode slice exceeds block data"));
        }
        Ok(copy_range(&block_data, off, off + inode_size))
    }

    /// Read + parse + checksum-verify an inode in one shot.
    ///
    /// With metadata checksums the record's own is checked; a mismatch returns
    /// `Error::BadChecksum`. A directory that claims more bytes than the
    /// volume has is refused.
    pub fn read_inode_verified(&self, ino: u32) -> (r: Result<(Inode, Vec<u8>)>)
        requires
            self.wf(),
        ensures
            match r {
                Ok((inode, raw)) => checked_inode(self@, ino) == Ok::<Seq<u8>, Error>(raw@)
                    && inode.decodes(raw@) && raw@.len() == self.sb.inode_size && inode_fault(raw@) is None,
                Err(e) => checked_inode(self@, ino) == Err::<Seq<u8>, Error>(e) || (!self.dev.healthy() && e
                    == Error::Io),
            },
    {
        let raw: Vec<u8> = match self.read_inode_raw(ino) {
            Ok(raw) => raw,
            Err(e) => {
                return Err(e);
            },
        };
        let inode: Inode = match Inode::parse(&raw) {
            Ok(i) => i,
            Err(e) => {
                return Err(e);
            },
        };
        if self.csum.enabled && !self.csum.verify_inode(ino, inode.generation, &raw) {
            return Err(Error::BadChecksum("inode"));
        }
        if inode.is_dir() {
            assert(self.sb.blocks_count * self.sb.bs() <= u64::MAX * 65536) by (nonlinear_arith)
                requires
                    0 <= self.sb.blocks_count <= u64::MAX,
                    0 <= self.sb.bs() <= 65536,
            ;
            let filesystem_bytes: u128 = self.sb.blocks_count as u128 * self.sb.block_size() as u128;
            if inode.size as u128 > filesystem_bytes {
                return Err(
                    Error::Corrupt("directory inode declares more bytes than the filesystem holds"),
                );
            }
        }
        Ok((inode, raw))
    }

    /// Map a logical block within `inode` to its physical block, by the extent
    /// tree or by block pointers as the inode's flags say. `None` is a hole.
    pub fn map_inode_logical(&self, inode: &Inode, logical_block: u64) -> (r: Result<Option<u64>>)
        requires
            self.wf(),
        ensures
            forall|raw: Seq<u8>| #[trigger]
                inode.decodes(raw) ==> match r {
                    Ok(b) => file_block(self@, raw, logical_block as int) == Ok::<Option<u64>, Error>(b),
                    Err(e) => file_block(self@, raw, logical_block as int) == Err::<Option<u64>, Error>(
                        e,
                    ) || (!self.dev.healthy() && e == Error::Io),
                },
    {
        let bs: u32 = self.sb.block_size();
        if inode.flags & FL_EXTENTS != 0 {
            map_logical(&inode.block, &self.dev, bs, logical_block)
        } else {
            lookup_indirect(&inode.block, &self.dev, bs, logical_block)
        }
    }
}

} // verus!
