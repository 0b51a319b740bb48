//! Allocation bitmaps: bit `n` is bit `n % 8` of byte `n / 8`.
use vstd::prelude::*;

verus! {

/// Bit `k` of the byte `b`.
pub open spec fn byte_bit(b: u8, k: int) -> bool {
    b & (1u8 << (k as u8)) != 0
}

/// Bit `i` of the bitmap. A bit past the end is not set.
pub open spec fn bit_set(bm: Seq<u8>, i: int) -> bool {
    0 <= i < 8 * bm.len() && byte_bit(bm[i / 8], i % 8)
}

/// A bit that is in the bitmap and clear.
pub open spec fn bit_free(bm: Seq<u8>, i: int) -> bool {
    0 <= i < 8 * bm.len() && !byte_bit(bm[i / 8], i % 8)
}

/// The bitmap with bit `i` set or cleared; unchanged when it has no such bit.
pub open spec fn with_bit(bm: Seq<u8>, i: int, on: bool) -> Seq<u8> {
    if 0 <= i < 8 * bm.len() {
        let mask = 1u8 << ((i % 8) as u8);
        bm.update(i / 8, if on { bm[i / 8] | mask } else { bm[i / 8] & !mask })
    } else {
        bm
    }
}

/// The bitmap with bits `start..start + count` set or cleared.
pub open spec fn with_bits(bm: Seq<u8>, start: int, count: nat, on: bool) -> Seq<u8>
    decreases count,
{
    if count == 0 {
        bm
    } else {
        with_bit(with_bits(bm, start, (count - 1) as nat, on), start + count - 1, on)
    }
}

proof fn lemma_byte_set(b: u8, k: u8, j: u8)
    by (bit_vector)
    requires
        k < 8,
        j < 8,
    ensures
        ((b | (1u8 << k)) & (1u8 << j) != 0) == (j == k || b & (1u8 << j) != 0),
        ((b & !(1u8 << k)) & (1u8 << j) != 0) == (j != k && b & (1u8 << j) != 0),
{
}

proof fn lemma_byte_full(k: u8)
    by (bit_vector)
    requires
        k < 8,
    ensures
        0xFFu8 & (1u8 << k) != 0,
        0u8 & (1u8 << k) == 0,
{
}

/// Bytes with the same eight bits are the same byte.
proof fn lemma_byte_ext(a: u8, b: u8)
    requires
        forall|k: int| 0 <= k < 8 ==> byte_bit(a, k) == byte_bit(b, k),
    ensures
        a == b,
{
    assert(byte_bit(a, 0) == byte_bit(b, 0));
    assert(byte_bit(a, 1) == byte_bit(b, 1));
    assert(byte_bit(a, 2) == byte_bit(b, 2));
    assert(byte_bit(a, 3) == byte_bit(b, 3));
    assert(byte_bit(a, 4) == byte_bit(b, 4));
    assert(byte_bit(a, 5) == byte_bit(b, 5));
    assert(byte_bit(a, 6) == byte_bit(b, 6));
    assert(byte_bit(a, 7) == byte_bit(b, 7));
    assert(a == b) by (bit_vector)
        requires
            (a & (1u8 << 0u8) != 0) == (b & (1u8 << 0u8) != 0),
            (a & (1u8 << 1u8) != 0) == (b & (1u8 << 1u8) != 0),
            (a & (1u8 << 2u8) != 0) == (b & (1u8 << 2u8) != 0),
            (a & (1u8 << 3u8) != 0) == (b & (1u8 << 3u8) != 0),
            (a & (1u8 << 4u8) != 0) == (b & (1u8 << 4u8) != 0),
            (a & (1u8 << 5u8) != 0) == (b & (1u8 << 5u8) != 0),
            (a & (1u8 << 6u8) != 0) == (b & (1u8 << 6u8) != 0),
            (a & (1u8 << 7u8) != 0) == (b & (1u8 << 7u8) != 0),
    ;
}

/// Setting or clearing a bit changes that bit alone.
pub proof fn lemma_with_bit(bm: Seq<u8>, i: int, on: bool)
    ensures
        with_bit(bm, i, on).len() == bm.len(),
        forall|j: int|
            0 <= j < 8 * bm.len() ==> #[trigger] bit_set(with_bit(bm, i, on), j) == (if j == i {
                on
            } else {
                bit_set(bm, j)
            }),
{
    assert forall|j: int| 0 <= j < 8 * bm.len() implies #[trigger] bit_set(with_bit(bm, i, on), j) == (if j
        == i {
        on
    } else {
        bit_set(bm, j)
    }) by {
        if 0 <= i < 8 * bm.len() && j / 8 == i / 8 {
            lemma_byte_set(bm[i / 8], (i % 8) as u8, (j % 8) as u8);
        }
    }
}

/// A run of bits set or cleared changes the bits of the run alone.
pub proof fn lemma_with_bits(bm: Seq<u8>, start: int, count: nat, on: bool)
    ensures
        with_bits(bm, start, count, on).len() == bm.len(),
        forall|j: int|
            0 <= j < 8 * bm.len() ==> #[trigger] bit_set(with_bits(bm, start, count, on), j) == (if start
                <= j < start + count {
                on
            } else {
                bit_set(bm, j)
            }),
    decreases count,
{
    if count > 0 {
        lemma_with_bits(bm, start, (count - 1) as nat, on);
        lemma_with_bit(with_bits(bm, start, (count - 1) as nat, on), start + count - 1, on);
    }
}

/// Bitmaps of one length with the same bits are the same bitmap.
pub proof fn lemma_bitmap_ext(a: Seq<u8>, b: Seq<u8>)
    requires
        a.len() == b.len(),
        forall|j: int| 0 <= j < 8 * a.len() ==> bit_set(a, j) == bit_set(b, j),
    ensures
        a == b,
{
    assert forall|i: int| 0 <= i < a.len() implies a[i] == b[i] by {
        assert forall|k: int| 0 <= k < 8 implies byte_bit(a[i], k) == byte_bit(b[i], k) by {
            assert(bit_set(a, 8 * i + k) == bit_set(b, 8 * i + k));
        }
        lemma_byte_ext(a[i], b[i]);
    }
    assert(a =~= b);
}

/// Marking a run of free bits used and then releasing it gives the bitmap
/// back as it was.
pub proof fn law_release_undoes_mark(bm: Seq<u8>, start: int, count: nat)
    requires
        forall|j: int| start <= j < start + count && 0 <= j < 8 * bm.len() ==> !bit_set(bm, j),
    ensures
        with_bits(with_bits(bm, start, count, true), start, count, false) == bm,
{
    lemma_with_bits(bm, start, count, true);
    let marked = with_bits(bm, start, count, true);
    lemma_with_bits(marked, start, count, false);
    lemma_bitmap_ext(with_bits(marked, start, count, false), bm);
}

/// Bits past the end of the bitmap make no difference to an edit.
pub proof fn lemma_with_bits_past_end(bm: Seq<u8>, start: int, count: nat, more: nat, on: bool)
    requires
        start + count >= 8 * bm.len(),
        count <= more,
    ensures
        with_bits(bm, start, more, on) == with_bits(bm, start, count, on),
    decreases more,
{
    if count < more {
        lemma_with_bits_past_end(bm, start, count, (more - 1) as nat, on);
        lemma_with_bits(bm, start, (more - 1) as nat, on);
    }
}

/// Sets or clears one bit; a bit the bitmap does not have is left alone.
pub fn put_bit(bm: &mut Vec<u8>, i: u64, on: bool)
    ensures
        final(bm)@ == with_bit(old(bm)@, i as int, on),
{
    let byte: u64 = i / 8;
    if byte < bm.len() as u64 {
        let k: u8 = (i % 8) as u8;
        let mask: u8 = 1u8 << k;
        let at: usize = byte as usize;
        let b: u8 = bm[at];
        if on {
            bm.set(at, b | mask);
        } else {
            bm.set(at, b & !mask);
        }
    }
}

/// Sets or clears the bits `start..start + count`.
pub fn put_bits(bm: &mut Vec<u8>, start: u64, count: u64, on: bool)
    requires
        start + count <= u64::MAX,
    ensures
        final(bm)@ == with_bits(old(bm)@, start as int, count as nat, on),
{
    let ghost bm0 = bm@;
    let mut n: u64 = 0;
    while n < count
        invariant
            n <= count,
            start + count <= u64::MAX,
            bm0 == old(bm)@,
            bm@ == with_bits(bm0, start as int, n as nat, on),
            bm@.len() == bm0.len(),
        decreases count - n,
    {
        if (start + n) / 8 >= bm.len() as u64 {
            proof {
                lemma_with_bits_past_end(bm0, start as int, n as nat, count as nat, on);
            }
            return ;
        }
        put_bit(bm, start + n, on);
        proof {
            lemma_with_bits(bm0, start as int, (n + 1) as nat, on);
        }
        n += 1;
    }
}

/// Test bit `idx` in a bitmap (LSB-first within each byte).
pub fn bit_is_set(bitmap: &[u8], idx: u32) -> (r: bool)
    ensures
        r == bit_set(bitmap@, idx as int),
{
    let byte: usize = (idx / 8) as usize;
    let k: u8 = (idx % 8) as u8;
    byte < bitmap.len() && bitmap[byte] & (1u8 << k) != 0
}

/// How many of `max_bits` bits the bitmap really has.
pub open spec fn bits_held(bm: Seq<u8>, max_bits: int) -> int {
    if max_bits <= 8 * bm.len() {
        max_bits
    } else {
        8 * bm.len() as int
    }
}

/// The first free bit at or after `start`, among the first `lim`.
pub open spec fn first_free(bm: Seq<u8>, start: int, lim: int) -> Option<u32>
    decreases lim - start,
{
    if start >= lim {
        None
    } else if bit_free(bm, start) {
        Some(start as u32)
    } else {
        first_free(bm, start + 1, lim)
    }
}

/// Every one of the `count` bits from `s` on is free.
pub open spec fn run_free(bm: Seq<u8>, s: int, count: int) -> bool {
    forall|j: int| s <= j < s + count ==> bit_free(bm, j)
}

/// The first start, at or after `start`, of `count` free bits in a row that
/// end within the first `lim`.
pub open spec fn free_run(bm: Seq<u8>, start: int, lim: int, count: int) -> Option<u32>
    decreases lim - start,
{
    if start + count > lim || start >= lim {
        None
    } else if run_free(bm, start, count) {
        Some(start as u32)
    } else {
        free_run(bm, start + 1, lim, count)
    }
}

proof fn lemma_first_free_skip(bm: Seq<u8>, i: int, j: int, lim: int)
    requires
        0 <= i <= j <= lim,
        forall|k: int| i <= k < j ==> !bit_free(bm, k),
    ensures
        first_free(bm, i, lim) == first_free(bm, j, lim),
    decreases j - i,
{
    if i < j {
        lemma_first_free_skip(bm, i + 1, j, lim);
    }
}

/// `first_free` names a free bit, and no free bit comes before it.
pub proof fn lemma_first_free(bm: Seq<u8>, start: int, lim: int)
    requires
        0 <= start,
        lim <= u32::MAX,
    ensures
        match first_free(bm, start, lim) {
            Some(i) => start <= i < lim && bit_free(bm, i as int) && forall|k: int|
                start <= k < i ==> !bit_free(bm, k),
            None => forall|k: int| start <= k < lim ==> !bit_free(bm, k),
        },
    decreases lim - start,
{
    if start < lim && !bit_free(bm, start) {
        lemma_first_free(bm, start + 1, lim);
    }
}

proof fn lemma_free_run_skip(bm: Seq<u8>, i: int, j: int, lim: int, count: int)
    requires
        0 <= i <= j,
        0 < count,
        forall|k: int| i <= k < j ==> !run_free(bm, k, count),
    ensures
        free_run(bm, i, lim, count) == free_run(bm, j, lim, count),
    decreases j - i,
{
    if i < j {
        lemma_free_run_skip(bm, i + 1, j, lim, count);
        assert(!run_free(bm, i, count));
    }
}

/// `free_run` names a run of free bits inside the bound, and no earlier one
/// exists.
pub proof fn lemma_free_run(bm: Seq<u8>, start: int, lim: int, count: int)
    requires
        0 <= start,
        0 < count,
        lim <= u32::MAX,
    ensures
        match free_run(bm, start, lim, count) {
            Some(s) => start <= s && s + count <= lim && run_free(bm, s as int, count) && forall|k: int|
                start <= k < s ==> !run_free(bm, k, count),
            None => forall|k: int| start <= k && k + count <= lim ==> !run_free(bm, k, count),
        },
    decreases lim - start,
{
    if start + count <= lim && start < lim && !run_free(bm, start, count) {
        lemma_free_run(bm, start + 1, lim, count);
    }
}

proof fn lemma_full_word(bm: Seq<u8>, i: int)
    requires
        0 <= i,
        i % 64 == 0,
        i / 8 + 8 <= bm.len(),
        forall|b: int| i / 8 <= b < i / 8 + 8 ==> bm[b] == 0xFF,
    ensures
        forall|k: int| i <= k < i + 64 ==> !bit_free(bm, k),
{
    assert forall|k: int| i <= k < i + 64 implies !bit_free(bm, k) by {
        lemma_byte_full((k % 8) as u8);
        assert(i / 8 <= k / 8 < i / 8 + 8);
    }
}

/// Whether the eight bytes from `byte` on are all ones.
fn word_is_full(bitmap: &[u8], byte: usize) -> (r: bool)
    requires
        byte + 8 <= bitmap@.len(),
    ensures
        r == (forall|b: int| byte <= b < byte + 8 ==> bitmap@[b] == 0xFF),
{
    let mut n: usize = 0;
    assert(bitmap.len() == bitmap@.len());
    while n < 8
        invariant
            n <= 8,
            byte + 8 <= bitmap@.len() <= usize::MAX,
            forall|b: int| byte <= b < byte + n ==> bitmap@[b] == 0xFF,
        decreases 8 - n,
    {
        if bitmap[byte + n] != 0xFF {
            assert(bitmap@[byte + n] != 0xFF);
            return false;
        }
        n += 1;
    }
    true
}

/// Find the first free (0-valued) bit at or after `start`, searching up to
/// `max_bits` total. A bit that is not in the bitmap is not a free bit.
///
/// Words of sixty-four used bits are skipped in one step.
pub fn find_first_free(bitmap: &[u8], start: u32, max_bits: u32) -> (r: Option<u32>)
    ensures
        r == first_free(bitmap@, start as int, bits_held(bitmap@, max_bits as int)),
{
    let held: u32 = if (max_bits as u64 + 7) / 8 <= bitmap.len() as u64 {
        max_bits
    } else {
        (8 * bitmap.len()) as u32
    };
    if start >= held {
        return None;
    }
    let mut i: u32 = start;
    while i < held
        invariant
            start <= i <= held,
            held == bits_held(bitmap@, max_bits as int),
            first_free(bitmap@, start as int, held as int) == first_free(
                bitmap@,
                i as int,
                held as int,
            ),
        decreases held - i,
    {
        let byte: usize = (i / 8) as usize;
        if i % 64 == 0 && held - i >= 64 && word_is_full(bitmap, byte) {
            proof {
                lemma_full_word(bitmap@, i as int);
                lemma_first_free_skip(bitmap@, i as int, i + 64, held as int);
            }
            i += 64;
        } else {
            if !bit_is_set(bitmap, i) {
                return Some(i);
            }
            i += 1;
        }
    }
    None
}

/// Find the first run of `count` consecutive free bits at or after `start`,
/// within the first `max_bits` bits of the bitmap. Returns the starting bit
/// index of the run, or `None` if no such run exists.
pub fn find_free_run(bitmap: &[u8], start: u32, max_bits: u32, count: u32) -> (r: Option<u32>)
    ensures
        count == 0 ==> r is None,
        count > 0 ==> r == free_run(
            bitmap@,
            start as int,
            bits_held(bitmap@, max_bits as int),
            count as int,
        ),
{
    if count == 0 {
        return None;
    }
    let held: u32 = if (max_bits as u64 + 7) / 8 <= bitmap.len() as u64 {
        max_bits
    } else {
        (8 * bitmap.len()) as u32
    };
    let mut i: u32 = start;
    while i < held && count <= held - i
        invariant
            0 < count,
            start <= i,
            held == bits_held(bitmap@, max_bits as int),
            free_run(bitmap@, start as int, held as int, count as int) == free_run(
                bitmap@,
                i as int,
                held as int,
                count as int,
            ),
        decreases held - i,
    {
        proof {
            lemma_first_free(bitmap@, i as int, held as int);
        }
        let run_start: u32 = match find_first_free(bitmap, i, held) {
            Some(s) => s,
            None => {
                proof {
                    assert forall|k: int| i <= k < held implies !run_free(bitmap@, k, count as int) by {
                        assert(!bit_free(bitmap@, k));
                    }
                    lemma_free_run_skip(bitmap@, i as int, held as int, held as int, count as int);
                }
                return None;
            },
        };
        proof {
            assert forall|k: int| i <= k < run_start implies !run_free(bitmap@, k, count as int) by {
                assert(!bit_free(bitmap@, k));
            }
            lemma_free_run_skip(bitmap@, i as int, run_start as int, held as int, count as int);
        }
        if count > held - run_start {
            return None;
        }
        let mut j: u32 = run_start + 1;
        while j - run_start < count && !bit_is_set(bitmap, j)
            invariant
                run_start < j <= run_start + count <= held <= 8 * bitmap@.len(),
                forall|k: int| run_start <= k < j ==> bit_free(bitmap@, k),
            decreases run_start + count - j,
        {
            j += 1;
        }
        if j - run_start >= count {
            assert(run_free(bitmap@, run_start as int, count as int));
            return Some(run_start);
        }
        proof {
            assert(!bit_free(bitmap@, j as int));
            assert forall|k: int| run_start <= k < j + 1 implies !run_free(bitmap@, k, count as int) by {
                assert(k <= j < k + count);
            }
            lemma_free_run_skip(bitmap@, run_start as int, j + 1, held as int, count as int);
        }
        i = j + 1;
    }
    None
}

} // verus!
