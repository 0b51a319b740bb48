//! Fields inside byte buffers.
use vstd::prelude::*;

verus! {

/// The 16-bit field at byte `i` of `s`.
#[verifier::opaque]
pub open spec fn le16(s: Seq<u8>, i: int) -> u16 {
    (s[i] + 0x100 * s[i + 1]) as u16
}

/// The 32-bit field at byte `i` of `s`.
#[verifier::opaque]
pub open spec fn le32(s: Seq<u8>, i: int) -> u32 {
    (s[i] + 0x100 * s[i + 1] + 0x1_0000 * s[i + 2] + 0x100_0000 * s[i + 3]) as u32
}

/// A 64-bit value stored as two separate 32-bit halves.
pub open spec fn join32_spec(lo: u32, hi: u32) -> u64 {
    (lo + 0x1_0000_0000 * hi) as u64
}

/// `s` with the 16-bit field at byte `i` holding `v`.
#[verifier::opaque]
pub open spec fn put16(s: Seq<u8>, i: int, v: u16) -> Seq<u8> {
    s.update(i, (v % 0x100) as u8).update(i + 1, (v / 0x100) as u8)
}

/// `s` with the 32-bit field at byte `i` holding `v`.
#[verifier::opaque]
pub open spec fn put32(s: Seq<u8>, i: int, v: u32) -> Seq<u8> {
    s.update(i, (v % 0x100) as u8)
        .update(i + 1, ((v / 0x100) % 0x100) as u8)
        .update(i + 2, ((v / 0x1_0000) % 0x100) as u8)
        .update(i + 3, (v / 0x100_0000) as u8)
}

/// `s` with the bytes of `d` laid over it from byte `at` on.
pub open spec fn splice(s: Seq<u8>, at: int, d: Seq<u8>) -> Seq<u8> {
    Seq::new(s.len(), |i: int| if at <= i < at + d.len() { d[i - at] } else { s[i] })
}

/// `n` zero bytes.
pub open spec fn zeros(n: nat) -> Seq<u8> {
    Seq::new(n, |i: int| 0u8)
}

/// Low 32 bits of a 64-bit value.
pub open spec fn lo32(v: u64) -> u32 {
    (v % 0x1_0000_0000) as u32
}

/// High 32 bits of a 64-bit value.
pub open spec fn hi32(v: u64) -> u32 {
    (v / 0x1_0000_0000) as u32
}

/// What was stored in a 16-bit field is what a read of it gives.
pub broadcast proof fn lemma_put16(s: Seq<u8>, i: int, v: u16)
    requires
        0 <= i,
        i + 2 <= s.len(),
    ensures
        (#[trigger] put16(s, i, v)).len() == s.len(),
        le16(put16(s, i, v), i) == v,
{
    reveal(le16);
    reveal(put16);
}

/// What was stored in a 32-bit field is what a read of it gives.
pub broadcast proof fn lemma_put32(s: Seq<u8>, i: int, v: u32)
    requires
        0 <= i,
        i + 4 <= s.len(),
    ensures
        (#[trigger] put32(s, i, v)).len() == s.len(),
        le32(put32(s, i, v), i) == v,
{
    reveal(le32);
    reveal(put32);
}

/// Storing a 16-bit field leaves every other byte as it was.
pub broadcast proof fn lemma_put16_byte(s: Seq<u8>, i: int, v: u16, j: int)
    requires
        0 <= i,
        i + 2 <= s.len(),
        0 <= j < s.len(),
        j < i || i + 2 <= j,
    ensures
        #[trigger] put16(s, i, v)[j] == s[j],
{
    reveal(put16);
}

/// Storing a 32-bit field leaves every other byte as it was.
pub broadcast proof fn lemma_put32_byte(s: Seq<u8>, i: int, v: u32, j: int)
    requires
        0 <= i,
        i + 4 <= s.len(),
        0 <= j < s.len(),
        j < i || i + 4 <= j,
    ensures
        #[trigger] put32(s, i, v)[j] == s[j],
{
    reveal(put32);
}

/// Storing a 16-bit field leaves the 16-bit fields beside it as they were.
pub broadcast proof fn lemma_le16_put16(s: Seq<u8>, i: int, v: u16, j: int)
    requires
        0 <= i,
        i + 2 <= s.len(),
        0 <= j,
        j + 2 <= s.len(),
        j + 2 <= i || i + 2 <= j,
    ensures
        #[trigger] le16(put16(s, i, v), j) == le16(s, j),
{
    reveal(le16);
    reveal(put16);
}

/// Storing a 16-bit field leaves the 32-bit fields beside it as they were.
pub broadcast proof fn lemma_le32_put16(s: Seq<u8>, i: int, v: u16, j: int)
    requires
        0 <= i,
        i + 2 <= s.len(),
        0 <= j,
        j + 4 <= s.len(),
        j + 4 <= i || i + 2 <= j,
    ensures
        #[trigger] le32(put16(s, i, v), j) == le32(s, j),
{
    reveal(le32);
    reveal(put16);
}

/// Storing a 32-bit field leaves the 16-bit fields beside it as they were.
pub broadcast proof fn lemma_le16_put32(s: Seq<u8>, i: int, v: u32, j: int)
    requires
        0 <= i,
        i + 4 <= s.len(),
        0 <= j,
        j + 2 <= s.len(),
        j + 2 <= i || i + 4 <= j,
    ensures
        #[trigger] le16(put32(s, i, v), j) == le16(s, j),
{
    reveal(le16);
    reveal(put32);
}

/// Storing a 32-bit field leaves the 32-bit fields beside it as they were.
pub broadcast proof fn lemma_le32_put32(s: Seq<u8>, i: int, v: u32, j: int)
    requires
        0 <= i,
        i + 4 <= s.len(),
        0 <= j,
        j + 4 <= s.len(),
        j + 4 <= i || i + 4 <= j,
    ensures
        #[trigger] le32(put32(s, i, v), j) == le32(s, j),
{
    reveal(le32);
    reveal(put32);
}

pub broadcast group group_fields {
    lemma_put16,
    lemma_put32,
    lemma_put16_byte,
    lemma_put32_byte,
    lemma_le16_put16,
    lemma_le32_put16,
    lemma_le16_put32,
    lemma_le32_put32,
}

/// Reads the 16-bit field at byte `i`.
pub fn get_u16(s: &[u8], i: usize) -> (r: u16)
    requires
        i + 2 <= s@.len(),
    ensures
        r == le16(s@, i as int),
{
    proof {
        reveal(le16);
    }
    s[i] as u16 + 0x100 * (s[i + 1] as u16)
}

/// Reads the 32-bit field at byte `i`.
pub fn get_u32(s: &[u8], i: usize) -> (r: u32)
    requires
        i + 4 <= s@.len(),
    ensures
        r == le32(s@, i as int),
{
    proof {
        reveal(le32);
    }
    s[i] as u32 + 0x100 * (s[i + 1] as u32) + 0x1_0000 * (s[i + 2] as u32) + 0x100_0000 * (s[i + 3] as u32)
}

/// Stores a 16-bit field at byte `i`.
pub fn set_u16(s: &mut Vec<u8>, i: usize, v: u16)
    requires
        i + 2 <= old(s)@.len(),
    ensures
        final(s)@ == put16(old(s)@, i as int, v),
{
    assert(s.len() == s@.len());
    proof {
        reveal(put16);
    }
    s.set(i, (v % 0x100) as u8);
    s.set(i + 1, (v / 0x100) as u8);
}

/// Stores a 32-bit field at byte `i`.
pub fn set_u32(s: &mut Vec<u8>, i: usize, v: u32)
    requires
        i + 4 <= old(s)@.len(),
    ensures
        final(s)@ == put32(old(s)@, i as int, v),
{
    assert(s.len() == s@.len());
    proof {
        reveal(put32);
    }
    s.set(i, (v % 0x100) as u8);
    s.set(i + 1, ((v / 0x100) % 0x100) as u8);
    s.set(i + 2, ((v / 0x1_0000) % 0x100) as u8);
    s.set(i + 3, (v / 0x100_0000) as u8);
}

/// Joins two 32-bit halves.
pub fn join_u32(lo: u32, hi: u32) -> (r: u64)
    ensures
        r == join32_spec(lo, hi),
{
    lo as u64 + 0x1_0000_0000 * (hi as u64)
}

/// Low half of a 64-bit value.
pub fn low_u32(v: u64) -> (r: u32)
    ensures
        r == lo32(v),
{
    (v % 0x1_0000_0000) as u32
}

/// High half of a 64-bit value.
pub fn high_u32(v: u64) -> (r: u32)
    ensures
        r == hi32(v),
{
    (v / 0x1_0000_0000) as u32
}

/// A fresh buffer of `n` zero bytes.
pub fn zeroed(n: usize) -> (r: Vec<u8>)
    ensures
        r@ == zeros(n as nat),
{
    let r: Vec<u8> = vec![0u8; n];
    assert(r@ =~= zeros(n as nat));
    r
}

/// A copy of the bytes `from..to` of `s`.
pub fn copy_range(s: &[u8], from: usize, to: usize) -> (r: Vec<u8>)
    requires
        from <= to <= s@.len(),
    ensures
        r@ == s@.subrange(from as int, to as int),
{
    let mut r: Vec<u8> = Vec::new();
    let mut i: usize = from;
    while i < to
        invariant
            from <= i <= to <= s@.len(),
            r@ == s@.subrange(from as int, i as int),
        decreases to - i,
    {
        r.push(s[i]);
        i += 1;
        assert(r@ =~= s@.subrange(from as int, i as int));
    }
    r
}

/// Lays `d` over `s` from byte `at` on.
pub fn overlay(s: &mut Vec<u8>, at: usize, d: &[u8])
    requires
        at + d@.len() <= old(s)@.len(),
    ensures
        final(s)@ == splice(old(s)@, at as int, d@),
{
    let ghost s0 = s@;
    let mut i: usize = 0;
    assert(s.len() == s@.len());
    assert(s@ =~= splice(s0, at as int, d@.subrange(0, 0)));
    while i < d.len()
        invariant
            i <= d@.len(),
            at + d@.len() <= s0.len() <= usize::MAX,
            s@ == splice(s0, at as int, d@.subrange(0, i as int)),
        decreases d@.len() - i,
    {
        s.set(at + i, d[i]);
        i += 1;
        assert(s@ =~= splice(s0, at as int, d@.subrange(0, i as int)));
    }
    assert(d@.subrange(0, i as int) =~= d@);
}

/// Whether two byte strings are the same.
pub fn same_bytes(a: &[u8], b: &[u8]) -> (r: bool)
    ensures
        r == (a@ == b@),
{
    if a.len() != b.len() {
        return false;
    }
    let mut i: usize = 0;
    while i < a.len()
        invariant
            a@.len() == b@.len(),
            i <= a@.len(),
            forall|k: int| 0 <= k < i ==> a@[k] == b@[k],
        decreases a@.len() - i,
    {
        if a[i] != b[i] {
            return false;
        }
        i += 1;
    }
    assert(a@ =~= b@);
    true
}

// -- big-endian fields ------------------------------------------------------

/// The big-endian 16-bit field at byte `i` of `s`.
pub open spec fn be16(s: Seq<u8>, i: int) -> u16 {
    (0x100 * s[i] + s[i + 1]) as u16
}

/// The big-endian 32-bit field at byte `i` of `s`.
pub open spec fn be32(s: Seq<u8>, i: int) -> u32 {
    (0x100_0000 * s[i] + 0x1_0000 * s[i + 1] + 0x100 * s[i + 2] + s[i + 3]) as u32
}

/// `s` with the big-endian 32-bit field at byte `i` holding `v`.
pub open spec fn put_be32(s: Seq<u8>, i: int, v: u32) -> Seq<u8> {
    s.update(i, (v / 0x100_0000) as u8)
        .update(i + 1, ((v / 0x1_0000) % 0x100) as u8)
        .update(i + 2, ((v / 0x100) % 0x100) as u8)
        .update(i + 3, (v % 0x100) as u8)
}

pub fn get_be16(s: &[u8], i: usize) -> (r: u16)
    requires
        i + 2 <= s@.len(),
    ensures
        r == be16(s@, i as int),
{
    assert(s.len() == s@.len());
    0x100 * s[i] as u16 + s[i + 1] as u16
}

pub fn get_be32(s: &[u8], i: usize) -> (r: u32)
    requires
        i + 4 <= s@.len(),
    ensures
        r == be32(s@, i as int),
{
    assert(s.len() == s@.len());
    0x100_0000 * s[i] as u32 + 0x1_0000 * s[i + 1] as u32 + 0x100 * s[i + 2] as u32 + s[i + 3] as u32
}

pub fn set_be32(s: &mut Vec<u8>, i: usize, v: u32)
    requires
        i + 4 <= old(s)@.len(),
    ensures
        final(s)@ == put_be32(old(s)@, i as int, v),
        final(s)@.len() == old(s)@.len(),
{
    assert(s.len() == s@.len());
    s.set(i, (v / 0x100_0000) as u8);
    s.set(i + 1, ((v / 0x1_0000) % 0x100) as u8);
    s.set(i + 2, ((v / 0x100) % 0x100) as u8);
    s.set(i + 3, (v % 0x100) as u8);
}

} // verus!
