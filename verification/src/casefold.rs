//! Case-folded directory lookup: names that differ only in the case of their
//! ASCII letters hash alike.
use crate::bytes::{join32_spec, join_u32, le32, get_u32};
use vstd::prelude::*;

verus! {

/// A directory hash of a name.
#[derive(Debug, Clone, Copy, PartialEq, Eq)]
pub struct NameHash {
    /// What directories are ordered by; the lowest bit is always clear.
    pub major: u32,
    pub minor: u32,
}

/// A byte folded: ASCII capitals become small letters.
pub open spec fn folded_byte(b: u8) -> u8 {
    if 0x41 <= b <= 0x5A {
        (b + 0x20) as u8
    } else {
        b
    }
}

/// A name folded.
pub open spec fn folded(name: Seq<u8>) -> Seq<u8> {
    Seq::new(name.len(), |i: int| folded_byte(name[i]))
}

fn fold_byte(b: u8) -> (r: u8)
    ensures
        r == folded_byte(b),
{
    if 0x41 <= b && b <= 0x5A {
        b + 0x20
    } else {
        b
    }
}

/// The case-folded form of `name`.
pub fn fold_name(name: &[u8]) -> (r: Vec<u8>)
    ensures
        r@ == folded(name@),
{
    let mut out: Vec<u8> = Vec::new();
    let mut i: usize = 0;
    while i < name.len()
        invariant
            i <= name@.len(),
            out@ == folded(name@).take(i as int),
        decreases name@.len() - i,
    {
        out.push(fold_byte(name[i]));
        i += 1;
        assert(out@ =~= folded(name@).take(i as int));
    }
    assert(folded(name@).take(i as int) =~= folded(name@));
    out
}

// -- SipHash ----------------------------------------------------------------

/// The four words of a hash in progress.
#[derive(Clone, Copy)]
pub struct SipState {
    pub v0: u64,
    pub v1: u64,
    pub v2: u64,
    pub v3: u64,
}

/// A sum without its carry.
pub open spec fn wrap_sum(a: u64, b: u64) -> u64 {
    if a + b > u64::MAX {
        (a + b - 0x1_0000_0000_0000_0000) as u64
    } else {
        (a + b) as u64
    }
}

/// `x` turned left by `b` bits.
pub open spec fn turned(x: u64, b: u64) -> u64 {
    (x << b) | (x >> ((64 - b) as u64))
}

/// The first half of a round.
pub open spec fn half_round(s: SipState) -> SipState {
    let v0 = wrap_sum(s.v0, s.v1);
    let v1 = turned(s.v1, 13) ^ v0;
    let v2 = wrap_sum(s.v2, s.v3);
    let v3 = turned(s.v3, 16) ^ v2;
    SipState { v0: turned(v0, 32), v1, v2, v3 }
}

/// One round.
pub open spec fn sip_round(s: SipState) -> SipState {
    let h = half_round(s);
    let v0 = wrap_sum(h.v0, h.v3);
    let v3 = turned(h.v3, 21) ^ v0;
    let v2 = wrap_sum(h.v2, h.v1);
    let v1 = turned(h.v1, 17) ^ v2;
    SipState { v0, v1, v2: turned(v2, 32), v3 }
}

/// `n` rounds.
pub open spec fn sip_rounds(s: SipState, n: nat) -> SipState
    decreases n,
{
    if n == 0 {
        s
    } else {
        sip_round(sip_rounds(s, (n - 1) as nat))
    }
}

/// A word taken in: two rounds with it.
pub open spec fn sip_word(s: SipState, m: u64) -> SipState {
    let t = sip_rounds(SipState { v3: s.v3 ^ m, ..s }, 2);
    SipState { v0: t.v0 ^ m, ..t }
}

/// The 64-bit little-endian word at byte `i`.
pub open spec fn le64(s: Seq<u8>, i: int) -> u64 {
    join32_spec(le32(s, i), le32(s, i + 4))
}

/// The first `n` whole words of some data taken in.
pub open spec fn sip_words(s: SipState, data: Seq<u8>, n: nat) -> SipState
    decreases n,
{
    if n == 0 {
        s
    } else {
        sip_word(sip_words(s, data, (n - 1) as nat), le64(data, 8 * (n - 1)))
    }
}

/// The last word: what is left of the data behind its whole words, and its
/// length in the highest byte.
pub open spec fn last_word(data: Seq<u8>, upto: int) -> u64
    decreases upto,
{
    let whole = data.len() as int / 8 * 8;
    if upto <= whole {
        ((data.len() % 256) as u64) << 56u64
    } else {
        last_word(data, upto - 1) | ((data[upto - 1] as u64) << ((8 * (upto - 1 - whole)) as u64))
    }
}

/// The state that a key starts a hash in.
pub open spec fn sip_start(key: Seq<u8>) -> SipState {
    SipState {
        v0: le64(key, 0) ^ 0x736f_6d65_7073_6575,
        v1: le64(key, 8) ^ 0x646f_7261_6e64_6f6d,
        v2: le64(key, 0) ^ 0x6c79_6765_6e65_7261,
        v3: le64(key, 8) ^ 0x7465_6462_7974_6573,
    }
}

/// The hash that a state comes to.
pub open spec fn sip_end(s: SipState) -> u64 {
    let t = sip_rounds(SipState { v2: s.v2 ^ 0xff, ..s }, 4);
    t.v0 ^ t.v1 ^ t.v2 ^ t.v3
}

/// SipHash-2-4 of some data under a key.
pub open spec fn sip_hash(data: Seq<u8>, key: Seq<u8>) -> u64 {
    sip_end(
        sip_word(
            sip_words(sip_start(key), data, (data.len() / 8) as nat),
            last_word(data, data.len() as int),
        ),
    )
}

fn rotl(x: u64, b: u64) -> (r: u64)
    requires
        0 < b < 64,
    ensures
        r == turned(x, b),
{
    (x << b) | (x >> (64 - b))
}

fn sipround(s: SipState) -> (r: SipState)
    ensures
        r == sip_round(s),
{
    let v0: u64 = s.v0.wrapping_add(s.v1);
    let v1: u64 = rotl(s.v1, 13) ^ v0;
    let v2: u64 = s.v2.wrapping_add(s.v3);
    let v3: u64 = rotl(s.v3, 16) ^ v2;
    let v0: u64 = rotl(v0, 32);
    let v0: u64 = v0.wrapping_add(v3);
    let v3: u64 = rotl(v3, 21) ^ v0;
    let v2: u64 = v2.wrapping_add(v1);
    let v1: u64 = rotl(v1, 17) ^ v2;
    SipState { v0, v1, v2: rotl(v2, 32), v3 }
}

fn take_word(s: SipState, m: u64) -> (r: SipState)
    ensures
        r == sip_word(s, m),
{
    proof {
        reveal_with_fuel(sip_rounds, 3);
    }
    let t: SipState = sipround(sipround(SipState { v0: s.v0, v1: s.v1, v2: s.v2, v3: s.v3 ^ m }));
    SipState { v0: t.v0 ^ m, v1: t.v1, v2: t.v2, v3: t.v3 }
}

/// SipHash-2-4 of `data` keyed with the 16-byte `key` (two 64-bit
/// little-endian halves).
pub fn siphash_2_4(data: &[u8], key: &[u8; 16]) -> (r: u64)
    ensures
        r == sip_hash(data@, key@),
{
    let k: &[u8] = key.as_slice();
    let k0: u64 = join_u32(get_u32(k, 0), get_u32(k, 4));
    let k1: u64 = join_u32(get_u32(k, 8), get_u32(k, 12));
    let mut s = SipState {
        v0: k0 ^ 0x736f_6d65_7073_6575,
        v1: k1 ^ 0x646f_7261_6e64_6f6d,
        v2: k0 ^ 0x6c79_6765_6e65_7261,
        v3: k1 ^ 0x7465_6462_7974_6573,
    };
    let ghost start = s;
    let len: usize = data.len();
    let words: usize = len / 8;
    let mut n: usize = 0;
    while n < words
        invariant
            n <= words,
            words == data@.len() / 8,
            len == data@.len(),
            s == sip_words(start, data@, n as nat),
        decreases words - n,
    {
        let at: usize = 8 * n;
        let m: u64 = join_u32(get_u32(data, at), get_u32(data, at + 4));
        s = take_word(s, m);
        n += 1;
    }
    let whole: usize = words * 8;
    let mut b: u64 = (len as u64 % 256) << 56u64;
    let mut i: usize = whole;
    while i < len
        invariant
            whole == data@.len() / 8 * 8,
            whole <= i <= len,
            len == data@.len(),
            len - whole < 8,
            b == last_word(data@, i as int),
        decreases len - i,
    {
        let shift: u64 = 8 * (i - whole) as u64;
        b = b | ((data[i] as u64) << shift);
        i += 1;
    }
    s = take_word(s, b);
    proof {
        reveal_with_fuel(sip_rounds, 5);
    }
    let t: SipState = SipState { v0: s.v0, v1: s.v1, v2: s.v2 ^ 0xff, v3: s.v3 };
    let t: SipState = sipround(sipround(sipround(sipround(t))));
    t.v0 ^ t.v1 ^ t.v2 ^ t.v3
}

/// The key that a superblock's hash seed makes.
pub open spec fn seed_key(seed: Seq<u32>) -> Seq<u8> {
    crate::checksum::bytes32(seed[0]) + crate::checksum::bytes32(seed[1]) + crate::checksum::bytes32(seed[2])
        + crate::checksum::bytes32(seed[3])
}

/// The case-folded hash of a name.
pub open spec fn folded_hash(name: Seq<u8>, seed: Seq<u32>) -> NameHash {
    let h = sip_hash(folded(name), seed_key(seed));
    NameHash {
        major: crate::bytes::lo32(h) & !1u32,
        minor: crate::bytes::hi32(h),
    }
}

/// The case-folded directory hash of `name` under a superblock's hash seed.
/// The lowest bit of `major` is cleared.
pub fn casefold_name_hash(name: &[u8], seed: &[u32; 4]) -> (r: NameHash)
    ensures
        r == folded_hash(name@, seed@),
{
    let folded_name: Vec<u8> = fold_name(name);
    let mut key: [u8; 16] = [0u8; 16];
    let mut i: usize = 0;
    let ghost want = seed_key(seed@);
    proof {
        lemma_bytes32_len(seed@[0]);
        lemma_bytes32_len(seed@[1]);
        lemma_bytes32_len(seed@[2]);
        lemma_bytes32_len(seed@[3]);
    }
    while i < 16
        invariant
            i <= 16,
            want == seed_key(seed@),
            want.len() == 16,
            crate::checksum::bytes32(seed@[0]).len() == 4,
            crate::checksum::bytes32(seed@[1]).len() == 4,
            crate::checksum::bytes32(seed@[2]).len() == 4,
            crate::checksum::bytes32(seed@[3]).len() == 4,
            forall|k: int| 0 <= k < i ==> key@[k] == want[k],
        decreases 16 - i,
    {
        let word: u32 = seed[i / 4];
        let byte: u8 = byte_of(word, i % 4);
        proof {
            let j = i as int / 4;
            assert(want[i as int] == crate::checksum::bytes32(seed@[j])[i as int % 4]);
        }
        key[i] = byte;
        i += 1;
    }
    assert(key@ =~= want);
    let h: u64 = siphash_2_4(&folded_name, &key);
    NameHash { major: crate::bytes::low_u32(h) & !1u32, minor: crate::bytes::high_u32(h) }
}

proof fn lemma_bytes32_len(v: u32)
    ensures
        crate::checksum::bytes32(v).len() == 4,
{
    reveal(crate::bytes::put32);
}

fn byte_of(w: u32, i: usize) -> (r: u8)
    requires
        i < 4,
    ensures
        r == crate::checksum::bytes32(w)[i as int],
{
    proof {
        reveal(crate::bytes::put32);
    }
    if i == 0 {
        (w % 0x100) as u8
    } else if i == 1 {
        ((w / 0x100) % 0x100) as u8
    } else if i == 2 {
        ((w / 0x1_0000) % 0x100) as u8
    } else {
        (w / 0x100_0000) as u8
    }
}

// -- laws -------------------------------------------------------------------

/// Two names that differ only in the case of their ASCII letters hash alike,
/// under any seed.
pub proof fn law_case_does_not_matter(a: Seq<u8>, b: Seq<u8>, seed: Seq<u32>)
    requires
        a.len() == b.len(),
        forall|i: int| 0 <= i < a.len() ==> folded_byte(#[trigger] a[i]) == folded_byte(b[i]),
    ensures
        folded_hash(a, seed) == folded_hash(b, seed),
{
    assert(folded(a) =~= folded(b));
}

/// Folding a folded name changes nothing.
pub proof fn law_fold_is_idempotent(name: Seq<u8>)
    ensures
        folded(folded(name)) == folded(name),
{
    assert(folded(folded(name)) =~= folded(name));
}

/// The lowest bit of a directory hash is clear.
pub proof fn law_low_bit_is_clear(name: Seq<u8>, seed: Seq<u32>)
    ensures
        folded_hash(name, seed).major & 1 == 0,
{
    let x = crate::bytes::lo32(sip_hash(folded(name), seed_key(seed)));
    assert((x & !1u32) & 1 == 0) by (bit_vector);
}

} // verus!
