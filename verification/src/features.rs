//! Feature flags (COMPAT, INCOMPAT, RO_COMPAT) and what a mount makes of them.
use crate::error::{Error, Result};
use vstd::prelude::*;

verus! {

// COMPAT features: safe to ignore if unknown.
pub const COMPAT_DIR_PREALLOC: u32 = 0x0001;
pub const COMPAT_IMAGIC_INODES: u32 = 0x0002;
pub const COMPAT_HAS_JOURNAL: u32 = 0x0004;
pub const COMPAT_EXT_ATTR: u32 = 0x0008;
pub const COMPAT_RESIZE_INODE: u32 = 0x0010;
pub const COMPAT_DIR_INDEX: u32 = 0x0020;
pub const COMPAT_LAZY_BG: u32 = 0x0040;
pub const COMPAT_SPARSE_SUPER2: u32 = 0x0200;
pub const COMPAT_FAST_COMMIT: u32 = 0x0400;
pub const COMPAT_ORPHAN_FILE: u32 = 0x1000;

// INCOMPAT features: understood, or the mount is refused.
pub const INCOMPAT_COMPRESSION: u32 = 0x0_0001;
pub const INCOMPAT_FILETYPE: u32 = 0x0_0002;
pub const INCOMPAT_RECOVER: u32 = 0x0_0004;
pub const INCOMPAT_JOURNAL_DEV: u32 = 0x0_0008;
pub const INCOMPAT_META_BG: u32 = 0x0_0010;
pub const INCOMPAT_EXTENTS: u32 = 0x0_0040;
pub const INCOMPAT_BIT64: u32 = 0x0_0080;
pub const INCOMPAT_MMP: u32 = 0x0_0100;
pub const INCOMPAT_FLEX_BG: u32 = 0x0_0200;
pub const INCOMPAT_EA_INODE: u32 = 0x0_0400;
pub const INCOMPAT_DIRDATA: u32 = 0x0_1000;
pub const INCOMPAT_CSUM_SEED: u32 = 0x0_2000;
pub const INCOMPAT_LARGEDIR: u32 = 0x0_4000;
pub const INCOMPAT_INLINE_DATA: u32 = 0x0_8000;
pub const INCOMPAT_ENCRYPT: u32 = 0x1_0000;
pub const INCOMPAT_CASEFOLD: u32 = 0x2_0000;

// RO_COMPAT features: a reader that does not know the bit must not write.
pub const RO_COMPAT_SPARSE_SUPER: u32 = 0x0_0001;
pub const RO_COMPAT_LARGE_FILE: u32 = 0x0_0002;
pub const RO_COMPAT_BTREE_DIR: u32 = 0x0_0004;
pub const RO_COMPAT_HUGE_FILE: u32 = 0x0_0008;
pub const RO_COMPAT_GDT_CSUM: u32 = 0x0_0010;
pub const RO_COMPAT_DIR_NLINK: u32 = 0x0_0020;
pub const RO_COMPAT_EXTRA_ISIZE: u32 = 0x0_0040;
pub const RO_COMPAT_HAS_SNAPSHOT: u32 = 0x0_0080;
pub const RO_COMPAT_QUOTA: u32 = 0x0_0100;
pub const RO_COMPAT_BIGALLOC: u32 = 0x0_0200;
pub const RO_COMPAT_METADATA_CSUM: u32 = 0x0_0400;
pub const RO_COMPAT_REPLICA: u32 = 0x0_0800;
pub const RO_COMPAT_READONLY: u32 = 0x0_1000;
pub const RO_COMPAT_PROJECT: u32 = 0x0_2000;
pub const RO_COMPAT_VERITY: u32 = 0x0_8000;
pub const RO_COMPAT_ORPHAN_PRESENT: u32 = 0x1_0000;

/// INCOMPAT bits this driver mounts. Some of these can be read and not
/// written: see [`WRITE_BREAKING_INCOMPAT`].
pub const SUPPORTED_INCOMPAT: u32 = INCOMPAT_FILETYPE | INCOMPAT_EXTENTS | INCOMPAT_BIT64
    | INCOMPAT_FLEX_BG | INCOMPAT_CSUM_SEED | INCOMPAT_RECOVER | INCOMPAT_MMP
    | INCOMPAT_INLINE_DATA | INCOMPAT_LARGEDIR | INCOMPAT_EA_INODE | INCOMPAT_CASEFOLD;

/// INCOMPAT bits that are safe to read and not safe to write.
///
/// Multi-mount protection is not honoured here, and a case-folded directory
/// files its entries under a hash of the folded name: a reader loses nothing
/// by that, a writer would.
pub const WRITE_BREAKING_INCOMPAT: u32 = INCOMPAT_MMP | INCOMPAT_CASEFOLD;

/// RO_COMPAT bits a mount accepts. Accepting one is not the same as keeping
/// it correct through a write: see [`MAINTAINED_RO_COMPAT`].
pub const SUPPORTED_RO_COMPAT: u32 = RO_COMPAT_SPARSE_SUPER | RO_COMPAT_LARGE_FILE
    | RO_COMPAT_HUGE_FILE | RO_COMPAT_GDT_CSUM | RO_COMPAT_DIR_NLINK | RO_COMPAT_EXTRA_ISIZE
    | RO_COMPAT_QUOTA | RO_COMPAT_METADATA_CSUM | RO_COMPAT_PROJECT | RO_COMPAT_ORPHAN_PRESENT;

/// RO_COMPAT bits that change how the filesystem is read, and so cannot be
/// ignored even by a read-only mount: BIGALLOC makes the cluster, not the
/// block, the unit of every group offset.
pub const READ_BREAKING_RO_COMPAT: u32 = RO_COMPAT_BIGALLOC;

/// RO_COMPAT bits this driver maintains, as opposed to tolerates. Quota and
/// project accounting and the orphan file are read past, not kept up.
pub const MAINTAINED_RO_COMPAT: u32 = RO_COMPAT_SPARSE_SUPER | RO_COMPAT_LARGE_FILE
    | RO_COMPAT_HUGE_FILE | RO_COMPAT_DIR_NLINK | RO_COMPAT_EXTRA_ISIZE | RO_COMPAT_GDT_CSUM
    | RO_COMPAT_METADATA_CSUM;

/// Whether any bit of `mask` is set in `word`.
pub open spec fn has(word: u32, mask: u32) -> bool {
    word & mask != 0
}

/// Whether any bit of `mask` is set in `word`.
pub fn has_any(word: u32, mask: u32) -> (r: bool)
    ensures
        r == has(word, mask),
{
    word & mask != 0
}

/// The INCOMPAT bits on this volume that a write here would not keep
/// consistent. Zero means the volume may be mounted read-write.
pub fn write_breaking_incompat(feature_incompat: u32) -> (r: u32)
    ensures
        r == feature_incompat & WRITE_BREAKING_INCOMPAT,
{
    feature_incompat & WRITE_BREAKING_INCOMPAT
}

/// The RO_COMPAT bits on this volume that a write here would not keep
/// consistent: anything outside [`MAINTAINED_RO_COMPAT`]. Zero means the
/// volume may be written.
pub fn unmaintained_ro_compat(feature_ro_compat: u32) -> (r: u32)
    ensures
        r == feature_ro_compat & !MAINTAINED_RO_COMPAT,
{
    feature_ro_compat & !MAINTAINED_RO_COMPAT
}

/// What [`check_mountable`] answers.
pub open spec fn mountable(feature_incompat: u32, feature_ro_compat: u32) -> Result<()> {
    if has(feature_incompat, !SUPPORTED_INCOMPAT) {
        Err(Error::UnsupportedIncompat(feature_incompat & !SUPPORTED_INCOMPAT))
    } else if has(feature_ro_compat, READ_BREAKING_RO_COMPAT) {
        Err(Error::UnsupportedRoCompat(feature_ro_compat & READ_BREAKING_RO_COMPAT))
    } else {
        Ok(())
    }
}

/// Check whether the filesystem can be mounted read-only.
/// Returns Err with the unsupported bits if not.
pub fn check_mountable(feature_incompat: u32, feature_ro_compat: u32) -> (r: Result<()>)
    ensures
        r == mountable(feature_incompat, feature_ro_compat),
{
    let unsupported_incompat: u32 = feature_incompat & !SUPPORTED_INCOMPAT;
    if unsupported_incompat != 0 {
        return Err(Error::UnsupportedIncompat(unsupported_incompat));
    }
    let breaking: u32 = feature_ro_compat & READ_BREAKING_RO_COMPAT;
    if breaking != 0 {
        return Err(Error::UnsupportedRoCompat(breaking));
    }
    Ok(())
}

/// No bit is both tolerated and refused, every maintained bit is tolerated,
/// and every bit that breaks writing is one a read-only mount accepts.
pub proof fn law_masks_agree()
    ensures
        SUPPORTED_RO_COMPAT & READ_BREAKING_RO_COMPAT == 0,
        MAINTAINED_RO_COMPAT & !SUPPORTED_RO_COMPAT == 0,
        WRITE_BREAKING_INCOMPAT & !SUPPORTED_INCOMPAT == 0,
{
    assert(SUPPORTED_RO_COMPAT & READ_BREAKING_RO_COMPAT == 0 && MAINTAINED_RO_COMPAT
        & !SUPPORTED_RO_COMPAT == 0 && WRITE_BREAKING_INCOMPAT & !SUPPORTED_INCOMPAT == 0)
        by (bit_vector);
}

/// Every RO_COMPAT word without a read-breaking bit mounts, known or not.
pub proof fn law_unknown_ro_compat_mounts(ro: u32)
    requires
        ro & READ_BREAKING_RO_COMPAT == 0,
    ensures
        mountable(0, ro) == Ok::<(), Error>(()),
{
    assert(0u32 & !SUPPORTED_INCOMPAT == 0) by (bit_vector);
}

/// Filesystem dialect, derived from the on-disk feature flags at mount time.
#[derive(Debug, Clone, Copy, PartialEq, Eq, Structural)]
pub enum FsFlavor {
    /// No EXTENTS, no HAS_JOURNAL.
    Ext2,
    /// No EXTENTS, HAS_JOURNAL set.
    Ext3,
    /// EXTENTS set, with or without a journal.
    Ext4,
}

impl FsFlavor {
    /// The dialect a pair of feature words means.
    pub open spec fn of(feature_compat: u32, feature_incompat: u32) -> FsFlavor {
        if has(feature_incompat, INCOMPAT_EXTENTS) {
            FsFlavor::Ext4
        } else if has(feature_compat, COMPAT_HAS_JOURNAL) {
            FsFlavor::Ext3
        } else {
            FsFlavor::Ext2
        }
    }

    /// Derive flavor from the parsed superblock's COMPAT/INCOMPAT bits.
    pub fn detect(feature_compat: u32, feature_incompat: u32) -> (r: Self)
        ensures
            r == FsFlavor::of(feature_compat, feature_incompat),
    {
        let has_extents = has_any(feature_incompat, INCOMPAT_EXTENTS);
        let has_journal = has_any(feature_compat, COMPAT_HAS_JOURNAL);
        match (has_extents, has_journal) {
            (true, _) => FsFlavor::Ext4,
            (false, true) => FsFlavor::Ext3,
            (false, false) => FsFlavor::Ext2,
        }
    }

    /// True when new inodes map their contents by an extent tree. False for
    /// ext2/3, which use direct and indirect block pointers.
    pub fn uses_extents(&self) -> (r: bool)
        ensures
            r == (*self is Ext4),
    {
        matches!(self, FsFlavor::Ext4)
    }

    /// True when this volume has a journal that must be replayed (or honoured
    /// on writes). Ext2 has none.
    pub fn has_journal(&self) -> (r: bool)
        ensures
            r == !(*self is Ext2),
    {
        matches!(self, FsFlavor::Ext3 | FsFlavor::Ext4)
    }

    /// The dialect's usual name.
    pub fn name(&self) -> (r: &'static str)
        ensures
            r == (match *self {
                FsFlavor::Ext2 => "ext2",
                FsFlavor::Ext3 => "ext3",
                FsFlavor::Ext4 => "ext4",
            }),
    {
        match self {
            FsFlavor::Ext2 => "ext2",
            FsFlavor::Ext3 => "ext3",
            FsFlavor::Ext4 => "ext4",
        }
    }

    /// Returns the `(inode_size, desc_size, csum_enabled, dir_csum_tail)` a
    /// fresh volume of this dialect has.
    pub fn geometry(&self) -> (r: (u16, u16, bool, usize))
        ensures
            *self is Ext4 ==> r == (256u16, 64u16, true, 12usize),
            !(*self is Ext4) ==> r == (128u16, 32u16, false, 0usize),
    {
        if matches!(self, FsFlavor::Ext4) {
            (256, 64, true, 12)
        } else {
            (128, 32, false, 0)
        }
    }
}

} // verus!
