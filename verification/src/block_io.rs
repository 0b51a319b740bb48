//! The device a filesystem lives on.
use crate::bytes::{copy_range, overlay, splice};
use crate::error::{Error, Result};
use vstd::prelude::*;

verus! {

/// The bytes `off..off + len` of the image, or a device error where the
/// image is too short.
pub open spec fn read_range(img: Seq<u8>, off: int, len: int) -> Result<Seq<u8>> {
    if 0 <= off && 0 <= len && off + len <= img.len() {
        Ok(img.subrange(off, off + len))
    } else {
        Err(Error::Io)
    }
}

/// Block `n` of the image, or a device error where the image ends before it. A
/// block that no byte offset reaches is no device's.
pub open spec fn block_at(img: Seq<u8>, bs: int, n: int) -> Result<Seq<u8>> {
    match read_range(img, n * bs, bs) {
        Ok(b) => Ok(b),
        Err(e) => if n * bs > u64::MAX {
            Err(Error::Corrupt("block byte offset overflow"))
        } else {
            Err(e)
        },
    }
}

/// A fixed-size array of bytes that can be read, and perhaps written, at any
/// offset.
///
/// What a device holds is `contents()`. A healthy device serves every request
/// that lies within it; one that is not may answer any request with an error,
/// but never with wrong bytes. What was written may be lost with the power until
/// a flush has made it `durable()`.
pub trait BlockDevice {
    /// Every byte on the device.
    open spec fn contents(&self) -> Seq<u8> {
        Seq::empty()
    }

    /// The bytes that a loss of power would leave.
    open spec fn durable(&self) -> Seq<u8> {
        Seq::empty()
    }

    /// Whether requests within the device can be relied on to succeed.
    open spec fn healthy(&self) -> bool {
        false
    }

    /// Whether the device takes writes.
    open spec fn writable(&self) -> bool {
        false
    }

    /// Reads `len` bytes from `offset` on.
    fn read_at(&self, offset: u64, len: usize) -> (r: Result<Vec<u8>>)
        ensures
            match r {
                Ok(v) => Ok::<Seq<u8>, Error>(v@) == read_range(
                    self.contents(),
                    offset as int,
                    len as int,
                ),
                Err(e) => e == Error::Io && (self.healthy() ==> read_range(
                    self.contents(),
                    offset as int,
                    len as int,
                ) is Err),
            },
    ;

    /// Total length in bytes.
    fn size_bytes(&self) -> (r: u64)
        ensures
            r == self.contents().len(),
    ;

    /// Writes `data` at `offset`. A write that fails may have changed part of
    /// the range it was aimed at, and nothing else.
    fn write_at(&mut self, offset: u64, data: &[u8]) -> (r: Result<()>)
        ensures
            final(self).healthy() == old(self).healthy(),
            final(self).writable() == old(self).writable(),
            final(self).contents().len() == old(self).contents().len(),
            match r {
                Ok(_) => old(self).writable() && offset + data@.len() <= old(self).contents().len()
                    && final(self).contents() == splice(old(self).contents(), offset as int, data@),
                Err(e) => e == Error::Io && (old(self).healthy() && old(self).writable() ==> offset
                    + data@.len() > old(self).contents().len()) && forall|i: int|
                    0 <= i < old(self).contents().len() && !(offset <= i < offset + data@.len())
                        ==> final(self).contents()[i] == old(self).contents()[i],
            },
    ;

    /// Makes what was written durable.
    fn flush(&mut self) -> (r: Result<()>)
        ensures
            final(self).healthy() == old(self).healthy(),
            final(self).writable() == old(self).writable(),
            final(self).contents() == old(self).contents(),
            match r {
                Ok(_) => final(self).durable() == final(self).contents(),
                Err(e) => e == Error::Io && !old(self).healthy(),
            },
    ;

    /// Whether the device takes writes.
    fn is_writable(&self) -> (r: bool)
        ensures
            r == self.writable(),
    ;
}

/// A device held in memory.
#[derive(Debug, Clone)]
pub struct Bytes {
    pub data: Vec<u8>,
    pub read_only: bool,
}

impl BlockDevice for Bytes {
    open spec fn contents(&self) -> Seq<u8> {
        self.data@
    }

    open spec fn durable(&self) -> Seq<u8> {
        self.data@
    }

    open spec fn healthy(&self) -> bool {
        true
    }

    open spec fn writable(&self) -> bool {
        !self.read_only
    }

    fn read_at(&self, offset: u64, len: usize) -> (r: Result<Vec<u8>>) {
        let size: usize = self.data.len();
        if offset > size as u64 || len as u64 > size as u64 - offset {
            return Err(Error::Io);
        }
        let start: usize = offset as usize;
        Ok(copy_range(&self.data, start, start + len))
    }

    fn size_bytes(&self) -> (r: u64) {
        self.data.len() as u64
    }

    fn write_at(&mut self, offset: u64, data: &[u8]) -> (r: Result<()>) {
        let size: usize = self.data.len();
        if self.read_only || offset > size as u64 || data.len() as u64 > size as u64 - offset {
            return Err(Error::Io);
        }
        overlay(&mut self.data, offset as usize, data);
        Ok(())
    }

    fn flush(&mut self) -> (r: Result<()>) {
        Ok(())
    }

    fn is_writable(&self) -> (r: bool) {
        !self.read_only
    }
}

/// Reads block `n` of `dev`, whose blocks are `bs` bytes.
pub fn read_device_block<D: BlockDevice>(dev: &D, bs: u32, n: u64) -> (r: Result<Vec<u8>>)
    requires
        bs > 0,
    ensures
        match r {
            Ok(v) => Ok::<Seq<u8>, Error>(v@) == block_at(dev.contents(), bs as int, n as int) && v@.len()
                == bs,
            Err(e) => block_at(dev.contents(), bs as int, n as int) == Err::<Seq<u8>, Error>(e) || (
            !dev.healthy() && e == Error::Io),
        },
{
    let size: u64 = dev.size_bytes();
    match n.checked_mul(bs as u64) {
        None => Err(Error::Corrupt("block byte offset overflow")),
        Some(off) => dev.read_at(off, bs as usize),
    }
}

/// Anything that whole blocks can be read from: a device, or a device with
/// edits staged over it.
pub trait BlockSource {
    /// The image the blocks come from.
    spec fn image(&self) -> Seq<u8>;

    /// Whether every block of the image can be relied on to be readable.
    spec fn reliable(&self) -> bool;

    /// Whether the source serves blocks of `bs` bytes.
    spec fn serves(&self, bs: int) -> bool;

    /// Reads block `n`.
    fn fetch(&self, bs: u32, n: u64) -> (r: Result<Vec<u8>>)
        requires
            self.serves(bs as int),
        ensures
            match r {
                Ok(v) => Ok::<Seq<u8>, Error>(v@) == block_at(self.image(), bs as int, n as int) && v@.len()
                    == bs,
                Err(e) => block_at(self.image(), bs as int, n as int) == Err::<Seq<u8>, Error>(e) || (
                !self.reliable() && e == Error::Io),
            },
    ;
}

impl<D: BlockDevice> BlockSource for D {
    open spec fn image(&self) -> Seq<u8> {
        self.contents()
    }

    open spec fn reliable(&self) -> bool {
        self.healthy()
    }

    open spec fn serves(&self, bs: int) -> bool {
        bs > 0
    }

    fn fetch(&self, bs: u32, n: u64) -> (r: Result<Vec<u8>>) {
        read_device_block(self, bs, n)
    }
}

/// `img` with block `n` replaced.
pub open spec fn with_block(img: Seq<u8>, bs: int, n: int, b: Seq<u8>) -> Seq<u8> {
    splice(img, n * bs, b)
}

/// Whether block `n` lies on the image.
pub open spec fn has_block(img: Seq<u8>, bs: int, n: int) -> bool {
    n * bs + bs <= img.len()
}

/// A replaced block reads back as what it was replaced with; any other block
/// reads as before.
pub proof fn lemma_with_block(img: Seq<u8>, bs: int, n: int, b: Seq<u8>, k: int)
    requires
        bs > 0,
        n >= 0,
        k >= 0,
        b.len() == bs,
        has_block(img, bs, n),
    ensures
        with_block(img, bs, n, b).len() == img.len(),
        block_at(with_block(img, bs, n, b), bs, k) == (if k == n {
            Ok(b)
        } else {
            block_at(img, bs, k)
        }),
{
    let out = with_block(img, bs, n, b);
    assert(0 <= n * bs && 0 <= k * bs) by (nonlinear_arith)
        requires
            bs > 0,
            n >= 0,
            k >= 0,
    ;
    if has_block(img, bs, k) {
        if k == n {
            assert(out.subrange(n * bs, n * bs + bs) =~= b);
        } else {
            assert(k * bs + bs <= n * bs || n * bs + bs <= k * bs) by (nonlinear_arith)
                requires
                    bs > 0,
                    k != n,
            ;
            assert(out.subrange(k * bs, k * bs + bs) =~= img.subrange(k * bs, k * bs + bs));
        }
    }
}

} // verus!
