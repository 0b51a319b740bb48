//! Block pointers as ext2 and ext3 keep them: twelve direct ones, then one
//! each of single, double and triple indirection.
use crate::block_io::{block_at, BlockSource};
use crate::bytes::{get_u32, le32};
use crate::error::{Error, Result};
use vstd::prelude::*;

verus! {

/// Direct pointers in `i_block`.
pub const DIRECT_BLOCKS: u64 = 12;

/// A pointer, or a hole where it is zero.
pub open spec fn pointer(p: u32) -> Option<u64> {
    if p == 0 {
        None
    } else {
        Some(p as u64)
    }
}

/// How many file blocks one pointer of the given level stands for, `per`
/// pointers to a block.
pub open spec fn span(per: int, level: nat) -> int
    decreases level,
{
    if level == 0 {
        1
    } else {
        per * span(per, (level - 1) as nat)
    }
}

/// Follows a pointer down `level` levels to the `i`th block under it.
pub open spec fn follow(img: Seq<u8>, bs: int, p: u32, level: nat, i: int) -> Result<Option<u64>>
    decreases level,
{
    if p == 0 || level == 0 {
        Ok(pointer(p))
    } else {
        match block_at(img, bs, p as int) {
            Err(e) => Err(e),
            Ok(b) => follow(
                img,
                bs,
                le32(b, 4 * (i / span(bs / 4, (level - 1) as nat))),
                (level - 1) as nat,
                i % span(bs / 4, (level - 1) as nat),
            ),
        }
    }
}

/// Where file block `l` is, by the pointers in `area`.
pub open spec fn indirect_block_for(img: Seq<u8>, bs: int, area: Seq<u8>, l: int) -> Result<Option<u64>> {
    let per = bs / 4;
    if l < 12 {
        Ok(pointer(le32(area, 4 * l)))
    } else if l - 12 < span(per, 1) {
        follow(img, bs, le32(area, 48), 1, l - 12)
    } else if l - 12 - span(per, 1) < span(per, 2) {
        follow(img, bs, le32(area, 52), 2, l - 12 - span(per, 1))
    } else if l - 12 - span(per, 1) - span(per, 2) < span(per, 3) {
        follow(img, bs, le32(area, 56), 3, l - 12 - span(per, 1) - span(per, 2))
    } else {
        Err(Error::InvalidBlock(l as u64))
    }
}

pub(crate) proof fn lemma_span(per: int)
    requires
        0 < per <= 16384,
    ensures
        span(per, 0) == 1,
        span(per, 1) == per,
        span(per, 2) == per * per,
        span(per, 3) == per * (per * per),
        0 < span(per, 1) <= span(per, 2) <= span(per, 3) <= 16384 * 16384 * 16384,
{
    reveal_with_fuel(span, 4);
    assert(per <= per * per <= 16384 * 16384) by (nonlinear_arith)
        requires
            0 < per <= 16384,
    ;
    assert(per * per <= per * (per * per) <= 16384 * (16384 * 16384)) by (nonlinear_arith)
        requires
            0 < per <= 16384,
            0 < per * per <= 16384 * 16384,
    ;
}

fn walk<S: BlockSource>(src: &S, bs: u32, p: u32, level: u32, i: u64) -> (r: Result<Option<u64>>)
    requires
        1024 <= bs <= 65536,
        src.serves(bs as int),
        bs % 4 == 0,
        level <= 3,
        i < span(bs as int / 4, level as nat),
    ensures
        match r {
            Ok(v) => follow(src.image(), bs as int, p, level as nat, i as int) == Ok::<Option<u64>, Error>(
                v,
            ),
            Err(e) => follow(src.image(), bs as int, p, level as nat, i as int) == Err::<
                Option<u64>,
                Error,
            >(e) || (!src.reliable() && e == Error::Io),
        },
    decreases level,
{
    if p == 0 {
        return Ok(None);
    }
    if level == 0 {
        return Ok(Some(p as u64));
    }
    let b: Vec<u8> = match src.fetch(bs, p as u64) {
        Ok(b) => b,
        Err(e) => {
            return Err(e);
        },
    };
    let per: u64 = bs as u64 / 4;
    proof {
        lemma_span(per as int);
        assert(per * per <= 16384 * 16384) by (nonlinear_arith)
            requires
                0 < per <= 16384,
        ;
    }
    let step: u64 = if level == 1 {
        1
    } else if level == 2 {
        per
    } else {
        per * per
    };
    assert(step == span(per as int, (level - 1) as nat));
    assert(span(per as int, level as nat) == per * step);
    assert(i / step < per) by (nonlinear_arith)
        requires
            i < per * step,
            step > 0,
    ;
    assert(i % step < step);
    let next: u32 = get_u32(&b, 4 * (i / step) as usize);
    walk(src, bs, next, level - 1, i % step)
}

/// Where file block `l` is, by the pointers in `area`; `None` for a hole.
pub fn lookup_indirect<S: BlockSource>(area: &[u8], src: &S, bs: u32, l: u64) -> (r: Result<Option<u64>>)
    requires
        1024 <= bs <= 65536,
        src.serves(bs as int),
        bs % 4 == 0,
        area@.len() == 60,
    ensures
        match r {
            Ok(v) => indirect_block_for(src.image(), bs as int, area@, l as int) == Ok::<
                Option<u64>,
                Error,
            >(v),
            Err(e) => indirect_block_for(src.image(), bs as int, area@, l as int) == Err::<
                Option<u64>,
                Error,
            >(e) || (!src.reliable() && e == Error::Io),
        },
{
    if l < DIRECT_BLOCKS {
        let p: u32 = get_u32(area, 4 * l as usize);
        return if p == 0 {
            Ok(None)
        } else {
            Ok(Some(p as u64))
        };
    }
    let per: u64 = bs as u64 / 4;
    proof {
        lemma_span(per as int);
        assert(per * per <= 16384 * 16384) by (nonlinear_arith)
            requires
                0 < per <= 16384,
        ;
        assert(per * (per * per) <= 16384 * (16384 * 16384)) by (nonlinear_arith)
            requires
                0 < per <= 16384,
                0 <= per * per <= 16384 * 16384,
        ;
    }
    let i: u64 = l - DIRECT_BLOCKS;
    if i < per {
        return walk(src, bs, get_u32(area, 48), 1, i);
    }
    let i: u64 = i - per;
    if i < per * per {
        return walk(src, bs, get_u32(area, 52), 2, i);
    }
    let i: u64 = i - per * per;
    if i < per * (per * per) {
        return walk(src, bs, get_u32(area, 56), 3, i);
    }
    Err(Error::InvalidBlock(l))
}

} // verus!
