//! Reading file contents.
use crate::block_io::{read_range, BlockDevice};
use crate::bytes::{copy_range, overlay, splice, zeroed, zeros};
use crate::error::{Error, Result};
use crate::extent::{extent_for, lookup_verified, ExtentVerifyCtx};
use crate::fs::Filesystem;
use crate::inline_data;
use crate::inode::{extra_isize_of, Inode, FL_EXTENTS, FL_INLINE_DATA};
use crate::volume::Vol;
use vstd::prelude::*;

verus! {

/// The bytes `from..to` of a file, all within one block. A hole, and a block
/// that was never written, reads as zeros.
pub open spec fn block_part(v: Vol, area: Seq<u8>, ctx: Option<ExtentVerifyCtx>, from: int, to: int) -> Result<
    Seq<u8>,
> {
    let l = from / v.bs();
    match extent_for(v.img, v.bs(), area, l, ctx) {
        Err(e) => Err(e),
        Ok(None) => Ok(zeros((to - from) as nat)),
        Ok(Some(e)) => if e.uninitialized {
            Ok(zeros((to - from) as nat))
        } else {
            read_range(v.img, e.place(l) * v.bs() + from % v.bs(), to - from)
        },
    }
}

/// Where the block of byte `at` ends.
pub open spec fn block_end(bs: int, at: int) -> int {
    at - at % bs + bs
}

/// The bytes `from..to` of a file.
pub open spec fn file_part(v: Vol, area: Seq<u8>, ctx: Option<ExtentVerifyCtx>, from: int, to: int) -> Result<
    Seq<u8>,
>
    decreases to - from,
{
    if from >= to || v.bs() <= 0 {
        Ok(Seq::empty())
    } else {
        let end = block_end(v.bs(), from);
        let stop = if end < to {
            end
        } else {
            to
        };
        match block_part(v, area, ctx, from, stop) {
            Err(e) => Err(e),
            Ok(piece) => if stop <= from {
                Ok(piece)
            } else {
                match file_part(v, area, ctx, stop, to) {
                    Err(e) => Err(e),
                    Ok(rest) => Ok(piece + rest),
                }
            },
        }
    }
}

/// How many bytes a read of `length` bytes at `offset` gives, with room for
/// `room`.
pub open spec fn read_len(size: int, offset: int, length: int, room: int) -> int {
    let most = if length < room {
        length
    } else {
        room
    };
    if offset >= size {
        0
    } else if size - offset < most {
        size - offset
    } else {
        most
    }
}

/// What a read of an extent-mapped file gives.
pub open spec fn read_bytes(
    v: Vol,
    inode: Inode,
    ctx: Option<ExtentVerifyCtx>,
    offset: int,
    length: int,
    room: int,
) -> Result<Seq<u8>> {
    if length == 0 || room == 0 {
        Ok(Seq::empty())
    } else if inode.flags & FL_INLINE_DATA != 0 {
        Err(
            Error::Corrupt("inline-data file: caller must use file_io::read_inline with raw inode bytes"),
        )
    } else if inode.flags & FL_EXTENTS == 0 {
        Err(Error::Corrupt("legacy indirect blocks not supported (use extents)"))
    } else {
        file_part(
            v,
            inode.block@,
            ctx,
            offset,
            offset + read_len(inode.size as int, offset, length, room),
        )
    }
}

/// What a read of any file gives. Contents inside the inode are read as far as
/// there is room.
pub open spec fn any_bytes(
    v: Vol,
    inode: Inode,
    raw: Seq<u8>,
    ctx: Option<ExtentVerifyCtx>,
    offset: int,
    length: int,
    room: int,
) -> Result<Seq<u8>> {
    if inode.flags & FL_INLINE_DATA != 0 {
        match inline_data::inline_contents(raw) {
            Err(e) => Err(e),
            Ok(all) => {
                let n = read_len(all.len() as int, offset, room, room);
                if n == 0 {
                    Ok(Seq::empty())
                } else {
                    Ok(all.subrange(offset, offset + n))
                }
            },
        }
    } else {
        read_bytes(v, inode, ctx, offset, length, room)
    }
}

/// A read came out as wanted, its bytes at the front of the buffer and the
/// rest of the buffer untouched.
pub open spec fn read_agrees(want: Result<Seq<u8>>, r: Result<u64>, was: Seq<u8>, is: Seq<u8>, healthy: bool) -> bool {
    match r {
        Ok(n) => want matches Ok(b) && n == b.len() && is == splice(was, 0, b),
        Err(e) => (want == Err::<Seq<u8>, Error>(e) || (!healthy && e == Error::Io)) && is.len() == was.len(),
    }
}

pub(crate) proof fn lemma_part_len(v: Vol, area: Seq<u8>, ctx: Option<ExtentVerifyCtx>, from: int, to: int)
    requires
        v.bs() > 0,
        0 <= from,
    ensures
        file_part(v, area, ctx, from, to) matches Ok(b) ==> b.len() == (if from < to {
            to - from
        } else {
            0
        }),
    decreases to - from,
{
    if from < to {
        assert(0 <= from % v.bs() < v.bs());
        let end = block_end(v.bs(), from);
        let stop = if end < to {
            end
        } else {
            to
        };
        lemma_part_len(v, area, ctx, stop, to);
    }
}

fn read_part<D: BlockDevice>(
    fs: &Filesystem<D>,
    inode: &Inode,
    ctx: Option<ExtentVerifyCtx>,
    from: u64,
    len: usize,
) -> (r: Result<Vec<u8>>)
    requires
        fs.wf(),
        from as int % fs@.bs() + len <= fs@.bs(),
    ensures
        match r {
            Ok(b) => block_part(fs@, inode.block@, ctx, from as int, from + len) == Ok::<Seq<u8>, Error>(b@)
                && b@.len() == len,
            Err(e) => block_part(fs@, inode.block@, ctx, from as int, from + len) == Err::<Seq<u8>, Error>(e)
                || (!fs.dev.healthy() && e == Error::Io),
        },
{
    let block_size: u32 = fs.sb.block_size();
    let bs: u64 = block_size as u64;
    let l: u64 = from / bs;
    match lookup_verified(&inode.block, &fs.dev, block_size, l, ctx) {
        Err(e) => Err(e),
        Ok(None) => Ok(zeroed(len)),
        Ok(Some(e)) => {
            if e.uninitialized {
                return Ok(zeroed(len));
            }
            let place: u64 = e.map(l);
            let size: u64 = fs.dev.size_bytes();
            proof {
                assert(place > size / bs ==> place * bs > size) by (nonlinear_arith)
                    requires
                        bs > 0,
                ;
                assert(place <= size / bs ==> place * bs <= size) by (nonlinear_arith)
                    requires
                        bs > 0,
                ;
            }
            if place > size / bs {
                return Err(Error::Io);
            }
            if from % bs > size - place * bs {
                return Err(Error::Io);
            }
            fs.dev.read_at(place * bs + from % bs, len)
        },
    }
}

fn read_extents<D: BlockDevice>(
    fs: &Filesystem<D>,
    inode: &Inode,
    ctx: Option<ExtentVerifyCtx>,
    offset: u64,
    length: u64,
    out: &mut Vec<u8>,
) -> (r: Result<u64>)
    requires
        fs.wf(),
    ensures
        read_agrees(
            read_bytes(fs@, *inode, ctx, offset as int, length as int, old(out)@.len() as int),
            r,
            old(out)@,
            final(out)@,
            fs.dev.healthy(),
        ),
{
    let room: usize = out.len();
    if length == 0 || room == 0 {
        assert(out@ =~= splice(out@, 0, Seq::empty()));
        return Ok(0);
    }
    if inode.flags & FL_INLINE_DATA != 0 {
        return Err(
            Error::Corrupt(
                "inline-data file: caller must use file_io::read_inline with raw inode bytes",
            ),
        );
    }
    if inode.flags & FL_EXTENTS == 0 {
        return Err(Error::Corrupt("legacy indirect blocks not supported (use extents)"));
    }
    if offset >= inode.size {
        assert(out@ =~= splice(out@, 0, Seq::empty()));
        return Ok(0);
    }
    let mut most: u64 = inode.size - offset;
    if length < most {
        most = length;
    }
    if (room as u64) < most {
        most = room as u64;
    }
    let bs: u64 = fs.sb.block_size() as u64;
    let end: u64 = offset + most;
    let ghost out0 = out@;
    let ghost want = file_part(fs@, inode.block@, ctx, offset as int, end as int);
    proof {
        lemma_part_len(fs@, inode.block@, ctx, offset as int, end as int);
    }
    let mut cur: u64 = offset;
    let mut written: usize = 0;
    let ghost mut so_far = Seq::<u8>::empty();
    proof {
        assert(out@ =~= splice(out0, 0, so_far));
        if let Ok(b) = want {
            assert(so_far + b =~= b);
        }
    }
    while cur < end
        invariant
            fs.wf(),
            bs == fs@.bs(),
            offset <= cur <= end,
            written == cur - offset,
            end - offset <= out0.len(),
            out0.len() == room,
            out0 == old(out)@,
            out@.len() == out0.len(),
            so_far.len() == written,
            out@ == splice(out0, 0, so_far),
            read_bytes(fs@, *inode, ctx, offset as int, length as int, room as int) == want,
            want == (match file_part(fs@, inode.block@, ctx, cur as int, end as int) {
                Ok(rest) => Ok::<Seq<u8>, Error>(so_far + rest),
                Err(e) => Err(e),
            }),
        decreases end - cur,
    {
        let left: u64 = bs - cur % bs;
        let len: u64 = if end - cur < left {
            end - cur
        } else {
            left
        };
        let piece: Vec<u8> = match read_part(fs, inode, ctx, cur, len as usize) {
            Ok(p) => p,
            Err(e) => {
                return Err(e);
            },
        };
        overlay(out, written, &piece);
        proof {
            let ghost before = so_far;
            so_far = before + piece@;
            assert(out@ =~= splice(out0, 0, so_far));
            if let Ok(rest) = file_part(fs@, inode.block@, ctx, cur + len, end as int) {
                assert(before + (piece@ + rest) =~= so_far + rest);
            }
        }
        written = written + len as usize;
        cur = cur + len;
    }
    proof {
        assert(so_far + Seq::<u8>::empty() =~= so_far);
    }
    Ok(most)
}

/// Read up to `length` bytes from `inode` starting at byte `offset`, into the
/// front of `out`. Returns how many were read: fewer than asked for at the end
/// of the file. Holes and blocks never written read as zeros.
///
/// A file whose contents are inside its inode is for [`read_with_raw`].
pub fn read<D: BlockDevice>(
    fs: &Filesystem<D>,
    inode: &Inode,
    offset: u64,
    length: u64,
    out: &mut Vec<u8>,
) -> (r: Result<u64>)
    requires
        fs.wf(),
    ensures
        read_agrees(
            read_bytes(fs@, *inode, None, offset as int, length as int, old(out)@.len() as int),
            r,
            old(out)@,
            final(out)@,
            fs.dev.healthy(),
        ),
{
    read_extents(fs, inode, None, offset, length, out)
}

/// Whose extent tree it is, for verification.
pub open spec fn tree_of(v: Vol, inode: Inode, ino: u32) -> Option<ExtentVerifyCtx> {
    Some(ExtentVerifyCtx { ino, generation: inode.generation, csum: v.csum })
}

/// Like [`read`], with the checksum of every extent block on the way verified.
pub fn read_verified<D: BlockDevice>(
    fs: &Filesystem<D>,
    inode: &Inode,
    ino: u32,
    offset: u64,
    length: u64,
    out: &mut Vec<u8>,
) -> (r: Result<u64>)
    requires
        fs.wf(),
    ensures
        read_agrees(
            read_bytes(
                fs@,
                *inode,
                tree_of(fs@, *inode, ino),
                offset as int,
                length as int,
                old(out)@.len() as int,
            ),
            r,
            old(out)@,
            final(out)@,
            fs.dev.healthy(),
        ),
{
    let ctx = ExtentVerifyCtx { ino, generation: inode.generation, csum: fs.csum };
    read_extents(fs, inode, Some(ctx), offset, length, out)
}

/// The whole of an extent-mapped file.
pub open spec fn whole_bytes(v: Vol, inode: Inode) -> Result<Seq<u8>> {
    read_bytes(v, inode, None, 0, inode.size as int, inode.size as int)
}

/// Read an entire file.
pub fn read_all<D: BlockDevice>(fs: &Filesystem<D>, inode: &Inode) -> (r: Result<Vec<u8>>)
    requires
        fs.wf(),
        inode.size <= usize::MAX,
    ensures
        match r {
            Ok(b) => whole_bytes(fs@, *inode) == Ok::<Seq<u8>, Error>(b@),
            Err(e) => whole_bytes(fs@, *inode) == Err::<Seq<u8>, Error>(e) || (!fs.dev.healthy() && e
                == Error::Io),
        },
{
    let size: usize = inode.size as usize;
    let mut buf: Vec<u8> = zeroed(size);
    match read(fs, inode, 0, size as u64, &mut buf) {
        Err(e) => Err(e),
        Ok(n) => {
            proof {
                let b = whole_bytes(fs@, *inode)->Ok_0;
                lemma_part_len(fs@, inode.block@, None, 0, inode.size as int);
                assert(b.len() == size);
                assert(buf@ =~= b);
            }
            Ok(buf)
        },
    }
}

/// Read a file whose contents are inside its inode.
pub fn read_inline<D: BlockDevice>(fs: &Filesystem<D>, inode: &Inode, inode_raw: &[u8]) -> (r: Result<Vec<u8>>)
    requires
        inode.decodes(inode_raw@),
        128 <= inode_raw@.len() <= 0x1_0000,
        128 + extra_isize_of(inode_raw@) <= inode_raw@.len(),
    ensures
        match r {
            Ok(b) => inline_data::inline_contents(inode_raw@) == Ok::<Seq<u8>, Error>(b@),
            Err(e) => inline_data::inline_contents(inode_raw@) == Err::<Seq<u8>, Error>(e),
        },
{
    inline_data::read_all(inode, inode_raw)
}

fn read_any<D: BlockDevice>(
    fs: &Filesystem<D>,
    inode: &Inode,
    inode_raw: &[u8],
    ctx: Option<ExtentVerifyCtx>,
    offset: u64,
    length: u64,
    out: &mut Vec<u8>,
) -> (r: Result<u64>)
    requires
        fs.wf(),
        inode.decodes(inode_raw@),
        128 <= inode_raw@.len() <= 0x1_0000,
        128 + extra_isize_of(inode_raw@) <= inode_raw@.len(),
    ensures
        read_agrees(
            any_bytes(
                fs@,
                *inode,
                inode_raw@,
                ctx,
                offset as int,
                length as int,
                old(out)@.len() as int,
            ),
            r,
            old(out)@,
            final(out)@,
            fs.dev.healthy(),
        ),
{
    if inode.flags & FL_INLINE_DATA == 0 {
        return read_extents(fs, inode, ctx, offset, length, out);
    }
    let all: Vec<u8> = match inline_data::read_all(inode, inode_raw) {
        Ok(b) => b,
        Err(e) => {
            return Err(e);
        },
    };
    let room: usize = out.len();
    if offset >= all.len() as u64 || room == 0 {
        assert(out@ =~= splice(out@, 0, Seq::empty()));
        return Ok(0);
    }
    let from: usize = offset as usize;
    let n: usize = if all.len() - from < room {
        all.len() - from
    } else {
        room
    };
    let piece: Vec<u8> = copy_range(&all, from, from + n);
    overlay(out, 0, &piece);
    Ok(n as u64)
}

/// Read a range from any file, its contents inside its inode or not.
pub fn read_with_raw<D: BlockDevice>(
    fs: &Filesystem<D>,
    inode: &Inode,
    inode_raw: &[u8],
    offset: u64,
    length: u64,
    out: &mut Vec<u8>,
) -> (r: Result<u64>)
    requires
        fs.wf(),
        inode.decodes(inode_raw@),
        128 <= inode_raw@.len() <= 0x1_0000,
        128 + extra_isize_of(inode_raw@) <= inode_raw@.len(),
    ensures
        read_agrees(
            any_bytes(
                fs@,
                *inode,
                inode_raw@,
                None,
                offset as int,
                length as int,
                old(out)@.len() as int,
            ),
            r,
            old(out)@,
            final(out)@,
            fs.dev.healthy(),
        ),
{
    read_any(fs, inode, inode_raw, None, offset, length, out)
}

/// Like [`read_with_raw`], with the checksum of every extent block on the way
/// verified.
pub fn read_with_raw_verified<D: BlockDevice>(
    fs: &Filesystem<D>,
    inode: &Inode,
    inode_raw: &[u8],
    ino: u32,
    offset: u64,
    length: u64,
    out: &mut Vec<u8>,
) -> (r: Result<u64>)
    requires
        fs.wf(),
        inode.decodes(inode_raw@),
        128 <= inode_raw@.len() <= 0x1_0000,
        128 + extra_isize_of(inode_raw@) <= inode_raw@.len(),
    ensures
        read_agrees(
            any_bytes(
                fs@,
                *inode,
                inode_raw@,
                tree_of(fs@, *inode, ino),
                offset as int,
                length as int,
                old(out)@.len() as int,
            ),
            r,
            old(out)@,
            final(out)@,
            fs.dev.healthy(),
        ),
{
    let ctx = ExtentVerifyCtx { ino, generation: inode.generation, csum: fs.csum };
    read_any(fs, inode, inode_raw, Some(ctx), offset, length, out)
}

} // verus!
