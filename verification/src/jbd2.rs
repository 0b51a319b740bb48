//! The journal's own format: its superblock and the headers of its blocks.
//! Every field is big-endian.
use crate::block_io::BlockDevice;
use crate::bytes::{be32, get_be32};
use crate::error::{Error, Result};
use crate::features::{has, has_any};
use crate::fs::{file_block, raw_inode, Filesystem};
use crate::inode::{inode_fault, Inode};
use crate::volume::Vol;
use vstd::prelude::*;

verus! {

pub const JBD2_MAGIC_NUMBER: u32 = 0xC03B_3998;

pub const JBD2_DESCRIPTOR: u32 = 1;

pub const JBD2_COMMIT: u32 = 2;

pub const JBD2_SUPERBLOCK_V1: u32 = 3;

pub const JBD2_SUPERBLOCK_V2: u32 = 4;

pub const JBD2_REVOKE: u32 = 5;

/// Revoke records are in use.
pub const JBD_INCOMPAT_REVOKE: u32 = 0x01;

/// Block numbers have a high half.
pub const JBD_INCOMPAT_BIT64: u32 = 0x02;

pub const JBD_INCOMPAT_ASYNC_COMMIT: u32 = 0x04;

pub const JBD_INCOMPAT_CSUM_V2: u32 = 0x08;

pub const JBD_INCOMPAT_CSUM_V3: u32 = 0x10;

pub const JBD_INCOMPAT_FAST_COMMIT: u32 = 0x20;

/// The journal superblock.
#[derive(Debug, Clone, Copy)]
pub struct JournalSuperblock {
    pub block_type: u32,
    pub header_sequence: u32,
    pub block_size: u32,
    /// Blocks in the journal.
    pub max_len: u32,
    /// The first block of the log.
    pub first: u32,
    /// The first transaction that the log may hold.
    pub sequence: u32,
    /// Where the log starts; zero for an empty log.
    pub start: u32,
    pub errno: u32,
    pub feature_compat: u32,
    pub feature_incompat: u32,
    pub feature_ro_compat: u32,
    pub uuid: [u8; 16],
    pub nr_users: u32,
    pub checksum_type: u8,
    pub num_fc_blocks: u32,
    pub checksum: u32,
}

/// Why a journal superblock is refused, if it is.
pub open spec fn journal_fault(raw: Seq<u8>) -> Option<Error> {
    if raw.len() < 1024 {
        Some(Error::Corrupt("jbd2: superblock too short"))
    } else if be32(raw, 0) != JBD2_MAGIC_NUMBER {
        Some(Error::Corrupt("jbd2: bad magic"))
    } else if be32(raw, 4) != JBD2_SUPERBLOCK_V1 && be32(raw, 4) != JBD2_SUPERBLOCK_V2 {
        Some(Error::Corrupt("jbd2: not a superblock"))
    } else {
        None
    }
}

impl JournalSuperblock {
    /// Each field holds what the bytes say.
    pub open spec fn decodes(&self, raw: Seq<u8>) -> bool {
        &&& self.block_type == be32(raw, 4)
        &&& self.header_sequence == be32(raw, 8)
        &&& self.block_size == be32(raw, 0x0C)
        &&& self.max_len == be32(raw, 0x10)
        &&& self.first == be32(raw, 0x14)
        &&& self.sequence == be32(raw, 0x18)
        &&& self.start == be32(raw, 0x1C)
        &&& self.errno == be32(raw, 0x20)
        &&& self.feature_compat == be32(raw, 0x24)
        &&& self.feature_incompat == be32(raw, 0x28)
        &&& self.feature_ro_compat == be32(raw, 0x2C)
        &&& self.uuid@ == raw.subrange(0x30, 0x40)
        &&& self.nr_users == be32(raw, 0x40)
        &&& self.checksum_type == raw[0x50]
        &&& self.num_fc_blocks == be32(raw, 0x54)
        &&& self.checksum == be32(raw, 0xFC)
    }

    pub fn parse(raw: &[u8]) -> (r: Result<JournalSuperblock>)
        ensures
            match journal_fault(raw@) {
                Some(e) => r == Err::<JournalSuperblock, Error>(e),
                None => r is Ok && r->Ok_0.decodes(raw@),
            },
    {
        if raw.len() < 1024 {
            return Err(Error::Corrupt("jbd2: superblock too short"));
        }
        if get_be32(raw, 0) != JBD2_MAGIC_NUMBER {
            return Err(Error::Corrupt("jbd2: bad magic"));
        }
        let block_type: u32 = get_be32(raw, 4);
        if block_type != JBD2_SUPERBLOCK_V1 && block_type != JBD2_SUPERBLOCK_V2 {
            return Err(Error::Corrupt("jbd2: not a superblock"));
        }
        let uuid: [u8; 16] = [
            raw[0x30],
            raw[0x31],
            raw[0x32],
            raw[0x33],
            raw[0x34],
            raw[0x35],
            raw[0x36],
            raw[0x37],
            raw[0x38],
            raw[0x39],
            raw[0x3A],
            raw[0x3B],
            raw[0x3C],
            raw[0x3D],
            raw[0x3E],
            raw[0x3F],
        ];
        assert(uuid@ =~= raw@.subrange(0x30, 0x40));
        Ok(
            JournalSuperblock {
                block_type,
                header_sequence: get_be32(raw, 8),
                block_size: get_be32(raw, 0x0C),
                max_len: get_be32(raw, 0x10),
                first: get_be32(raw, 0x14),
                sequence: get_be32(raw, 0x18),
                start: get_be32(raw, 0x1C),
                errno: get_be32(raw, 0x20),
                feature_compat: get_be32(raw, 0x24),
                feature_incompat: get_be32(raw, 0x28),
                feature_ro_compat: get_be32(raw, 0x2C),
                uuid,
                nr_users: get_be32(raw, 0x40),
                checksum_type: raw[0x50],
                num_fc_blocks: get_be32(raw, 0x54),
                checksum: get_be32(raw, 0xFC),
            },
        )
    }

    /// Whether the log is empty.
    pub fn is_clean(&self) -> (r: bool)
        ensures
            r == (self.start == 0),
    {
        self.start == 0
    }

    pub open spec fn revokes(&self) -> bool {
        has(self.feature_incompat, JBD_INCOMPAT_REVOKE)
    }

    pub open spec fn wide(&self) -> bool {
        has(self.feature_incompat, JBD_INCOMPAT_BIT64)
    }

    pub open spec fn csum_v2(&self) -> bool {
        has(self.feature_incompat, JBD_INCOMPAT_CSUM_V2)
    }

    pub open spec fn csum_v3(&self) -> bool {
        has(self.feature_incompat, JBD_INCOMPAT_CSUM_V3)
    }

    pub fn has_revoke(&self) -> (r: bool)
        ensures
            r == self.revokes(),
    {
        has_any(self.feature_incompat, JBD_INCOMPAT_REVOKE)
    }

    pub fn uses_64bit(&self) -> (r: bool)
        ensures
            r == self.wide(),
    {
        has_any(self.feature_incompat, JBD_INCOMPAT_BIT64)
    }

    pub fn uses_csum_v3(&self) -> (r: bool)
        ensures
            r == self.csum_v3(),
    {
        has_any(self.feature_incompat, JBD_INCOMPAT_CSUM_V3)
    }

    pub fn uses_csum_v2_or_v3(&self) -> (r: bool)
        ensures
            r == (self.csum_v2() || self.csum_v3()),
    {
        has_any(self.feature_incompat, JBD_INCOMPAT_CSUM_V2) || has_any(
            self.feature_incompat,
            JBD_INCOMPAT_CSUM_V3,
        )
    }
}

/// The journal's record, if the volume has a journal.
pub open spec fn journal_record(v: Vol) -> Result<Seq<u8>> {
    match raw_inode(v, v.sb.journal_inode) {
        Err(e) => Err(e),
        Ok(raw) => match inode_fault(raw) {
            Some(e) => Err(e),
            None => Ok(raw),
        },
    }
}

/// The bytes that hold the journal superblock.
pub open spec fn journal_super_bytes(v: Vol, raw: Seq<u8>) -> Result<Seq<u8>> {
    match file_block(v, raw, 0) {
        Err(e) => Err(e),
        Ok(None) => Err(Error::Corrupt("jbd2: journal superblock unmapped")),
        Ok(Some(p)) => match v.block(p as int) {
            Err(e) => Err(e),
            Ok(b) => match journal_fault(b) {
                Some(e) => Err(e),
                None => Ok(b),
            },
        },
    }
}

/// The bytes that hold the journal superblock; none on a volume without a
/// journal.
pub open spec fn journal_super(v: Vol) -> Result<Option<Seq<u8>>> {
    if v.sb.journal_inode == 0 {
        Ok(None)
    } else {
        match journal_record(v) {
            Err(e) => Err(e),
            Ok(raw) => match journal_super_bytes(v, raw) {
                Err(e) => Err(e),
                Ok(b) => Ok(Some(b)),
            },
        }
    }
}

impl<D: BlockDevice> Filesystem<D> {
    /// The journal's own inode.
    pub(crate) fn journal_file(&self) -> (r: Result<(Inode, Vec<u8>)>)
        requires
            self.wf(),
        ensures
            match r {
                Ok((inode, raw)) => journal_record(self@) == Ok::<Seq<u8>, Error>(raw@) && inode.decodes(raw@),
                Err(e) => journal_record(self@) == Err::<Seq<u8>, Error>(e) || (!self.dev.healthy() && e
                    == Error::Io),
            },
    {
        let raw: Vec<u8> = match self.read_inode_raw(self.sb.journal_inode) {
            Ok(raw) => raw,
            Err(e) => {
                return Err(e);
            },
        };
        match Inode::parse(&raw) {
            Ok(inode) => Ok((inode, raw)),
            Err(e) => Err(e),
        }
    }

    /// The journal superblock; `None` on a volume without a journal.
    pub fn read_journal_superblock(&self) -> (r: Result<Option<JournalSuperblock>>)
        requires
            self.wf(),
        ensures
            match r {
                Ok(None) => journal_super(self@) == Ok::<Option<Seq<u8>>, Error>(None),
                Ok(Some(jsb)) => journal_super(self@) matches Ok(Some(b)) && jsb.decodes(b),
                Err(e) => journal_super(self@) == Err::<Option<Seq<u8>>, Error>(e) || (
                !self.dev.healthy() && e == Error::Io),
            },
    {
        if self.sb.journal_inode == 0 {
            return Ok(None);
        }
        let (jinode, _raw): (Inode, Vec<u8>) = match self.journal_file() {
            Ok(p) => p,
            Err(e) => {
                return Err(e);
            },
        };
        let phys: u64 = match self.map_inode_logical(&jinode, 0) {
            Err(e) => {
                return Err(e);
            },
            Ok(None) => {
                return Err(Error::Corrupt("jbd2: journal superblock unmapped"));
            },
            Ok(Some(p)) => p,
        };
        let block: Vec<u8> = match self.read_block(phys) {
            Ok(b) => b,
            Err(e) => {
                return Err(e);
            },
        };
        match JournalSuperblock::parse(&block) {
            Ok(jsb) => Ok(Some(jsb)),
            Err(e) => Err(e),
        }
    }
}

} // verus!
