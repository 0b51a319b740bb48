//! Mounting a volume.
use crate::bgd::{descriptor_at, BlockGroupDescriptor};
use crate::block_io::{read_range, BlockDevice};
use crate::bytes::{be32, get_u16, le16, le32};
use crate::checksum::{descriptor_crc, group_desc_csum, superblock_crc_ok, Checksummer};
use crate::commit::only_in;
use crate::error::{Error, Result};
use crate::features::{
    check_mountable, has, mountable, write_breaking_incompat, FsFlavor, RO_COMPAT_METADATA_CSUM,
    WRITE_BREAKING_INCOMPAT,
};
use crate::fs::Filesystem;
use crate::jbd2::journal_super;
use crate::journal_apply::{replay_cut, replayed};
use crate::orphans::{recovered, recovery_blocks};
use crate::superblock::{superblock_fault, Superblock, SUPERBLOCK_OFFSET, SUPERBLOCK_SIZE};
use crate::volume::Vol;
use vstd::prelude::*;

verus! {

impl Superblock {
    /// Read the primary superblock of a device.
    pub fn read<D: BlockDevice>(dev: &D) -> (r: Result<Superblock>)
        ensures
            match read_range(dev.contents(), 1024, 1024) {
                Err(e) => r == Err::<Superblock, Error>(e),
                Ok(raw) => match superblock_fault(raw) {
                    Some(e) => r == Err::<Superblock, Error>(e) || (!dev.healthy() && r == Err::<
                        Superblock,
                        Error,
                    >(Error::Io)),
                    None => (r is Ok && r->Ok_0.wf() && r->Ok_0.decodes(raw)) || (!dev.healthy() && r
                        == Err::<Superblock, Error>(Error::Io)),
                },
            },
    {
        match dev.read_at(SUPERBLOCK_OFFSET, SUPERBLOCK_SIZE) {
            Ok(raw) => Superblock::parse(raw),
            Err(e) => Err(e),
        }
    }
}

/// Where the descriptor of group `gi` is, in bytes on the device.
pub open spec fn descriptor_place(sb: Superblock, gi: int) -> int {
    (sb.first_data_block + 1) * sb.bs() + gi * sb.desc_size
}

/// The descriptors of the first `n` groups.
pub open spec fn descriptors(img: Seq<u8>, sb: Superblock, csum: Checksummer, n: nat) -> Result<
    Seq<BlockGroupDescriptor>,
>
    decreases n,
{
    if n == 0 {
        Ok(Seq::empty())
    } else {
        match descriptors(img, sb, csum, (n - 1) as nat) {
            Err(e) => Err(e),
            Ok(before) => match read_range(img, descriptor_place(sb, n - 1), sb.desc_size as int) {
                Err(e) => Err(e),
                Ok(d) => if csum.enabled && descriptor_crc(sb, csum, (n - 1) as u32, d) != Some(
                    le16(d, 0x1E),
                ) {
                    Err(Error::BadChecksum("group descriptor"))
                } else {
                    Ok(before.push(descriptor_at(d, 0, sb.desc_size as int)))
                },
            },
        }
    }
}

/// The descriptors of every group of a volume.
pub open spec fn all_descriptors(img: Seq<u8>, sb: Superblock, csum: Checksummer) -> Result<
    Seq<BlockGroupDescriptor>,
> {
    if sb.group_count() > u32::MAX {
        Err(Error::Corrupt("superblock: more groups than can be addressed"))
    } else {
        descriptors(img, sb, csum, sb.group_count() as nat)
    }
}

proof fn lemma_descriptors_error(img: Seq<u8>, sb: Superblock, csum: Checksummer, i: nat, n: nat, e: Error)
    requires
        i <= n,
        descriptors(img, sb, csum, i) == Err::<Seq<BlockGroupDescriptor>, Error>(e),
    ensures
        descriptors(img, sb, csum, n) == Err::<Seq<BlockGroupDescriptor>, Error>(e),
    decreases n,
{
    if i < n {
        lemma_descriptors_error(img, sb, csum, i, (n - 1) as nat, e);
    }
}

/// Read the descriptor of every group.
pub fn read_all<D: BlockDevice>(dev: &D, sb: &Superblock, csum: &Checksummer) -> (r: Result<
    Vec<BlockGroupDescriptor>,
>)
    requires
        sb.wf(),
    ensures
        match r {
            Ok(g) => all_descriptors(dev.contents(), *sb, *csum) == Ok::<Seq<BlockGroupDescriptor>, Error>(
                g@,
            ) && g@.len() == sb.group_count() && g@.len() <= u32::MAX,
            Err(e) => all_descriptors(dev.contents(), *sb, *csum) == Err::<Seq<BlockGroupDescriptor>, Error>(
                e,
            ) || (!dev.healthy() && e == Error::Io),
        },
{
    let n: u64 = sb.block_group_count();
    if n > u32::MAX as u64 {
        return Err(Error::Corrupt("superblock: more groups than can be addressed"));
    }
    let bs: u64 = sb.block_size() as u64;
    let size: u64 = sb.desc_size as u64;
    assert((sb.first_data_block + 1) * bs <= 0x1_0000_0000 * 65536) by (nonlinear_arith)
        requires
            sb.first_data_block + 1 <= 0x1_0000_0000,
            0 <= bs <= 65536,
    ;
    let table: u64 = (sb.first_data_block as u64 + 1) * bs;
    let mut out: Vec<BlockGroupDescriptor> = Vec::new();
    let mut i: u64 = 0;
    assert(out@ =~= Seq::<BlockGroupDescriptor>::empty());
    while i < n
        invariant
            i <= n <= u32::MAX,
            sb.wf(),
            n == sb.group_count(),
            size == sb.desc_size,
            table == (sb.first_data_block + 1) * sb.bs(),
            table <= 0x1_0000_0000 * 65536,
            out@.len() == i,
            descriptors(dev.contents(), *sb, *csum, i as nat) == Ok::<Seq<BlockGroupDescriptor>, Error>(
                out@,
            ),
        decreases n - i,
    {
        assert(i * size <= 0x1_0000_0000 * 65536) by (nonlinear_arith)
            requires
                i <= 0x1_0000_0000,
                size <= 65536,
        ;
        let d: Vec<u8> = match dev.read_at(table + i * size, size as usize) {
            Ok(d) => d,
            Err(e) => {
                proof {
                    if dev.healthy() {
                        lemma_descriptors_error(dev.contents(), *sb, *csum, (i + 1) as nat, n as nat, e);
                    }
                }
                return Err(e);
            },
        };
        if csum.enabled {
            let want: Option<u16> = group_desc_csum(sb, csum, i as u32, &d);
            let good: bool = match want {
                Some(c) => c == get_u16(&d, 0x1E),
                None => false,
            };
            if !good {
                proof {
                    lemma_descriptors_error(
                        dev.contents(),
                        *sb,
                        *csum,
                        (i + 1) as nat,
                        n as nat,
                        Error::BadChecksum("group descriptor"),
                    );
                }
                return Err(Error::BadChecksum("group descriptor"));
            }
        }
        out.push(BlockGroupDescriptor::parse(&d, 0, size as usize));
        i += 1;
    }
    Ok(out)
}

/// Why a device's superblock cannot be mounted, if it cannot.
pub open spec fn super_refusal(img: Seq<u8>) -> Option<Error> {
    match read_range(img, 1024, 1024) {
        Err(e) => Some(e),
        Ok(raw) => match superblock_fault(raw) {
            Some(e) => Some(e),
            None => match mountable(le32(raw, 0x60), le32(raw, 0x64)) {
                Err(e) => Some(e),
                Ok(_) => if has(le32(raw, 0x64), RO_COMPAT_METADATA_CSUM) && !superblock_crc_ok(raw) {
                    Some(Error::BadChecksum("superblock"))
                } else {
                    None
                },
            },
        },
    }
}

/// `sb` is the superblock on a device that can be mounted.
pub open spec fn super_of(sb: Superblock, img: Seq<u8>) -> bool {
    super_refusal(img) is None && sb.wf() && (read_range(img, 1024, 1024) matches Ok(raw) && sb.decodes(raw))
}

/// The volume as a mount first has it.
pub open spec fn opened(img: Seq<u8>, sb: Superblock) -> Result<Vol> {
    match all_descriptors(img, sb, Checksummer::of(sb)) {
        Err(e) => Err(e),
        Ok(groups) => Ok(Vol { img, sb, groups, csum: Checksummer::of(sb) }),
    }
}

/// What a mount comes to. On a device that takes writes, a volume whose
/// features a write would break is refused; a dirty journal is replayed, and
/// then the orphans are dealt with, unless the replay is put off. That the
/// orphans cannot be dealt with stops no mount.
pub open spec fn mounted(writable: bool, img: Seq<u8>, sb: Superblock, put_off: bool, now: u32) -> Result<Vol> {
    match opened(img, sb) {
        Err(e) => Err(e),
        Ok(v) => if writable && sb.feature_incompat & WRITE_BREAKING_INCOMPAT != 0 {
            Err(Error::UnsupportedIncompat(sb.feature_incompat & WRITE_BREAKING_INCOMPAT))
        } else if put_off {
            Ok(v)
        } else {
            let (v1, r) = replayed(writable, v);
            match r {
                Err(e) => Err(e),
                Ok(_) => Ok(recovered(writable, v1, now).0),
            }
        },
    }
}

/// What a device that fails the recovery at the end of a mount may leave.
pub open spec fn mounted_cut(writable: bool, img: Seq<u8>, sb: Superblock, now: u32, post: Vol) -> bool {
    match opened(img, sb) {
        Err(_) => false,
        Ok(v) => {
            let (v1, r) = replayed(writable, v);
            r is Ok && only_in(v1, post, recovery_blocks(v1, now))
        },
    }
}

/// Why a mount is refused before anything is written, if it is.
pub open spec fn early_refusal(writable: bool, img: Seq<u8>, sb: Superblock) -> Option<Error> {
    match opened(img, sb) {
        Err(e) => Some(e),
        Ok(_) => if writable && sb.feature_incompat & WRITE_BREAKING_INCOMPAT != 0 {
            Some(Error::UnsupportedIncompat(sb.feature_incompat & WRITE_BREAKING_INCOMPAT))
        } else {
            None
        },
    }
}

/// A refused mount: why, and the device.
#[derive(Debug)]
pub struct Refused<D: BlockDevice> {
    pub error: Error,
    pub dev: D,
}

/// Whether the journal of a volume has nothing in it to replay.
pub open spec fn journal_is_clean(v: Vol) -> bool {
    match journal_super(v) {
        Err(_) => false,
        Ok(None) => true,
        Ok(Some(b)) => be32(b, 0x1C) == 0,
    }
}

/// A mount came out as it should: `r` is what the superblock on the device
/// gives, or its refusal. A device that is not healthy may have failed it, or
/// have failed the recovery at its end.
///
/// A refused device comes back as it was, unless it was the replay of the
/// journal that failed: then it holds what the replay left.
pub open spec fn mount_agrees<D: BlockDevice>(
    r: core::result::Result<Filesystem<D>, Refused<D>>,
    dev: D,
    put_off: bool,
    now: u32,
) -> bool {
    match r {
        Ok(fs) => {
            &&& fs.wf()
            &&& fs.dev.writable() == dev.writable()
            &&& fs.dev.healthy() == dev.healthy()
            &&& super_refusal(dev.contents()) is None
            &&& put_off ==> fs.dev == dev
            &&& !put_off ==> !fs.replay_due
            &&& put_off && dev.writable() && !journal_is_clean(fs@) ==> fs.replay_due
            &&& put_off && dev.healthy() && journal_is_clean(fs@) ==> !fs.replay_due
            &&& exists|sb: Superblock| #[trigger]
                super_of(sb, dev.contents()) && (mounted(dev.writable(), dev.contents(), sb, put_off, now) == Ok::<
                    Vol,
                    Error,
                >(fs@) || (!dev.healthy() && !put_off && mounted_cut(
                    dev.writable(),
                    dev.contents(),
                    sb,
                    now,
                    fs@,
                )))
        },
        Err(f) => {
            ||| f.dev == dev && (super_refusal(dev.contents()) == Some(f.error) || (!dev.healthy() && f.error
                == Error::Io))
            ||| exists|sb: Superblock| #[trigger]
                super_of(sb, dev.contents()) && early_refusal(dev.writable(), dev.contents(), sb) == Some(f.error)
                    && f.dev == dev
            ||| !put_off && exists|sb: Superblock| #[trigger]
                super_of(sb, dev.contents()) && early_refusal(dev.writable(), dev.contents(), sb) is None
                    && replay_refused(dev.writable(), opened(dev.contents(), sb)->Ok_0, f, dev.healthy())
        },
    }
}

/// The replay failed a mount, or the device failed the replay. On a device that
/// takes no writes there is no replay to fail.
pub open spec fn replay_refused<D: BlockDevice>(writable: bool, v: Vol, f: Refused<D>, healthy: bool) -> bool {
    let (v1, r) = replayed(writable, v);
    (r == Err::<usize, Error>(f.error) && v1.img == f.dev.contents()) || (!healthy && f.error == Error::Io
        && replay_cut(v, (Vol { img: f.dev.contents(), ..v })))
}

impl<D: BlockDevice> Filesystem<D> {
    /// Mount the filesystem on `dev`. Read-only unless the device takes
    /// writes, in which case a dirty journal is replayed and the orphans are
    /// dealt with before returning. `now` is the time at which reclaimed
    /// inodes are marked deleted. A refusal hands the device back.
    pub fn mount(dev: D, now: u32) -> (r: core::result::Result<Self, Refused<D>>)
        ensures
            mount_agrees(r, dev, false, now),
    {
        Self::mount_inner(dev, false, now)
    }

    /// Like `mount`, but leaves a dirty journal and the orphans as they are:
    /// the caller replays once writes can be served. Until then reads see what
    /// is on the device, and writes are refused.
    pub fn mount_lazy(dev: D) -> (r: core::result::Result<Self, Refused<D>>)
        ensures
            mount_agrees(r, dev, true, 0),
    {
        Self::mount_inner(dev, true, 0)
    }

    fn mount_inner(dev: D, put_off: bool, now: u32) -> (r: core::result::Result<Self, Refused<D>>)
        ensures
            mount_agrees(r, dev, put_off, now),
    {
        let ghost dev0 = dev;
        let _size: u64 = dev.size_bytes();
        let sb: Superblock = match Superblock::read(&dev) {
            Ok(sb) => sb,
            Err(error) => {
                return Err(Refused { error, dev });
            },
        };
        if let Err(error) = check_mountable(sb.feature_incompat, sb.feature_ro_compat) {
            return Err(Refused { error, dev });
        }
        let flavor: FsFlavor = FsFlavor::detect(sb.feature_compat, sb.feature_incompat);
        let csum: Checksummer = Checksummer::from_superblock(&sb);
        if csum.enabled && !csum.verify_superblock(&sb.raw) {
            return Err(Refused { error: Error::BadChecksum("superblock"), dev });
        }
        assert(super_of(sb, dev.contents()));
        let groups: Vec<BlockGroupDescriptor> = match read_all(&dev, &sb, &csum) {
            Ok(g) => g,
            Err(error) => {
                return Err(Refused { error, dev });
            },
        };
        let ghost img = dev.contents();
        let ghost sb0 = sb;
        let mut fs = Filesystem { dev, sb, groups, csum, flavor, replay_due: false };
        assert(opened(img, sb0) == Ok::<Vol, Error>(fs@));
        let breaking: u32 = write_breaking_incompat(fs.sb.feature_incompat);
        if fs.dev.is_writable() && breaking != 0 {
            return Err(Refused { error: Error::UnsupportedIncompat(breaking), dev: fs.dev });
        }
        assert(early_refusal(dev0.writable(), img, sb0) is None);
        if put_off {
            if fs.dev.is_writable() {
                fs.replay_due = match fs.read_journal_superblock() {
                    Err(_) => true,
                    Ok(None) => false,
                    Ok(Some(jsb)) => !jsb.is_clean(),
                };
            }
        } else {
            let ghost v = fs@;
            if let Err(error) = fs.replay_journal_if_dirty() {
                assert(fs@ == (Vol { img: fs.dev.contents(), ..v }));
                assert(super_of(sb0, img) && early_refusal(dev0.writable(), img, sb0) is None);
                return Err(Refused { error, dev: fs.dev });
            }
            let ghost v1 = fs@;
            let _reclaimed = fs.recover_orphans(now);
            assert(super_of(sb0, img));
            assert(fs@ == recovered(dev0.writable(), v1, now).0 || only_in(v1, fs@, recovery_blocks(v1, now)));
        }
        Ok(fs)
    }
}

} // verus!
