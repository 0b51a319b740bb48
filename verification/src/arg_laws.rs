//! Numbers, sizes and identifiers are read as they are written.
use crate::mkfs_args::{
    bad_pair, bare_size, digits_value, hex_value, is_blank, is_digit, number_in, size_in, trimmed, undashed,
    unit_of, unsigned_text, uuid_in, ArgError,
};
use vstd::prelude::*;

verus! {

/// A number in decimal digits.
pub open spec fn decimal(n: nat) -> Seq<u8>
    decreases n,
{
    if n < 10 {
        seq![(0x30 + n) as u8]
    } else {
        decimal(n / 10).push((0x30 + n % 10) as u8)
    }
}

proof fn lemma_decimal(n: nat)
    ensures
        decimal(n).len() > 0,
        forall|i: int| 0 <= i < decimal(n).len() ==> is_digit(#[trigger] decimal(n)[i]),
        digits_value(decimal(n)) == n,
    decreases n,
{
    if n < 10 {
        let s = decimal(n);
        assert(s.drop_last().len() == 0);
        assert(digits_value(s.drop_last()) == 0);
        assert(digits_value(s) == n);
    } else {
        lemma_decimal(n / 10);
        assert(decimal(n).drop_last() =~= decimal(n / 10));
        assert(decimal(n).last() == (0x30 + n % 10) as u8);
    }
}

/// A number in decimal digits is read as that number, with a plus sign before it
/// or without, unless it is above what is asked for.
pub proof fn law_number_is_read_as_written(n: nat, most: int)
    ensures
        n <= most ==> number_in(decimal(n), most) == Some(n as int),
        n <= most ==> number_in(seq![0x2Bu8] + decimal(n), most) == Some(n as int),
        n > most ==> number_in(decimal(n), most) is None,
{
    lemma_decimal(n);
    let s = decimal(n);
    assert(is_digit(s[0]));
    assert(unsigned_text(s) == s);
    let signed = seq![0x2Bu8] + s;
    assert(signed.drop_first() =~= s);
    assert(unsigned_text(signed) == s);
}

/// Text with anything but digits in it is no number.
pub proof fn law_only_digits_are_a_number(s: Seq<u8>, most: int, i: int)
    requires
        0 < i < s.len(),
        !is_digit(s[i]),
    ensures
        number_in(s, most) is None,
{
    let t = unsigned_text(s);
    if s[0] == 0x2B {
        assert(t[i - 1] == s[i]);
    } else {
        assert(t[i] == s[i]);
    }
}

proof fn lemma_untrimmed(s: Seq<u8>)
    requires
        s.len() > 0,
        !is_blank(s[0]),
        !is_blank(s.last()),
    ensures
        trimmed(s) == s,
{
}

proof fn lemma_size_of(s: Seq<u8>, num: Seq<u8>, n: nat, unit: int)
    requires
        num == decimal(n),
        trimmed(s) == s,
        s.len() > 0,
        bare_size(s).len() > 0,
        unit == 1 ==> bare_size(s) == num && unit_of(num.last()) == 0,
        unit != 1 ==> unit_of(bare_size(s).last()) == unit && bare_size(s).drop_last() == num && unit > 1,
    ensures
        n * unit <= u64::MAX ==> size_in(s) == Ok::<u64, ArgError>((n * unit) as u64),
        n * unit > u64::MAX ==> size_in(s) is Err,
{
    lemma_decimal(n);
    law_number_is_read_as_written(n, u64::MAX as int);
    assert(is_digit(num[num.len() - 1]));
    assert(n <= n * unit) by (nonlinear_arith)
        requires
            unit >= 1,
    ;
}

/// How many bytes the letter of a unit stands for: a thousand and twenty-four to
/// the power of its place among K, M, G and T, small or capital.
pub open spec fn letter_stands_for(c: u8, bytes: int) -> bool {
    ||| (c == 0x4B || c == 0x6B) && bytes == 1024
    ||| (c == 0x4D || c == 0x6D) && bytes == 1024 * 1024
    ||| (c == 0x47 || c == 0x67) && bytes == 1024 * 1024 * 1024
    ||| (c == 0x54 || c == 0x74) && bytes == 1024 * 1024 * 1024 * 1024
}

/// A size is the number written, times its unit, with a `B` behind it or
/// without; one that is too large for any device is refused.
pub proof fn law_size_is_read_as_written(n: nat, c: u8, bytes: int)
    requires
        letter_stands_for(c, bytes),
    ensures
        n <= u64::MAX ==> size_in(decimal(n)) == Ok::<u64, ArgError>(n as u64),
        n <= u64::MAX ==> size_in(decimal(n).push(0x42)) == Ok::<u64, ArgError>(n as u64),
        n * bytes <= u64::MAX ==> size_in(decimal(n).push(c)) == Ok::<u64, ArgError>((n * bytes) as u64),
        n * bytes <= u64::MAX ==> size_in(decimal(n).push(c).push(0x42)) == Ok::<u64, ArgError>((n * bytes) as u64),
        n * bytes > u64::MAX ==> size_in(decimal(n).push(c)) is Err,
{
    let num = decimal(n);
    lemma_decimal(n);
    assert(is_digit(num[0]) && is_digit(num[num.len() - 1]));
    lemma_untrimmed(num);
    lemma_size_of(num, num, n, 1);
    let b = num.push(0x42u8);
    lemma_untrimmed(b);
    assert(b.drop_last() =~= num);
    lemma_size_of(b, num, n, 1);
    let s = num.push(c);
    lemma_untrimmed(s);
    assert(s.drop_last() =~= num);
    assert(unit_of(c) == bytes);
    lemma_size_of(s, num, n, bytes);
    let t = s.push(0x42u8);
    lemma_untrimmed(t);
    assert(t.drop_last() =~= s);
    lemma_size_of(t, num, n, bytes);
    assert(n * 1 == n);
}

proof fn lemma_blank_before(s: Seq<u8>, b: u8)
    requires
        is_blank(b),
    ensures
        trimmed(seq![b] + s) == trimmed(s),
{
    let t = seq![b] + s;
    assert(t.drop_first() =~= s);
}

proof fn lemma_blank_behind(s: Seq<u8>, b: u8)
    requires
        is_blank(b),
    ensures
        trimmed(s.push(b)) == trimmed(s),
    decreases s.len(),
{
    let t = s.push(b);
    if s.len() == 0 {
        assert(t.drop_first() =~= s);
    } else if is_blank(t[0]) {
        assert(t.drop_first() =~= s.drop_first().push(b));
        lemma_blank_behind(s.drop_first(), b);
    } else {
        assert(t.drop_last() =~= s);
    }
}

/// Blanks around a size make no difference.
pub proof fn law_blanks_around_a_size_do_not_matter(s: Seq<u8>, b: u8)
    requires
        is_blank(b),
    ensures
        size_in(seq![b] + s) == size_in(s),
        size_in(s.push(b)) == size_in(s),
{
    lemma_blank_before(s, b);
    lemma_blank_behind(s, b);
}

/// Half a byte as a digit.
pub open spec fn hex_digit_of(n: int) -> u8 {
    if n < 10 {
        (0x30 + n) as u8
    } else {
        (0x61 + n - 10) as u8
    }
}

/// An identifier in digits, two for each byte, the higher half first.
pub open spec fn hex_of(u: Seq<u8>) -> Seq<u8> {
    Seq::new(
        2 * u.len(),
        |i: int|
            if i % 2 == 0 {
                hex_digit_of(u[i / 2] as int / 16)
            } else {
                hex_digit_of(u[i / 2] as int % 16)
            },
    )
}

proof fn lemma_no_dashes(s: Seq<u8>)
    requires
        forall|i: int| 0 <= i < s.len() ==> #[trigger] s[i] != 0x2D,
    ensures
        undashed(s) == s,
    decreases s.len(),
{
    if s.len() > 0 {
        assert(s[s.len() - 1] != 0x2D);
        assert forall|i: int| 0 <= i < s.drop_last().len() implies #[trigger] s.drop_last()[i] != 0x2D by {
            assert(s[i] != 0x2D);
        }
        lemma_no_dashes(s.drop_last());
        assert(s.drop_last().push(s.last()) =~= s);
    }
}

proof fn lemma_all_pairs(t: Seq<u8>, i: int)
    requires
        0 <= i,
        forall|k: int| 0 <= k < 32 ==> hex_value(#[trigger] t[k]) is Some,
    ensures
        bad_pair(t, i) is None,
    decreases 16 - i,
{
    if i < 16 {
        assert(hex_value(t[2 * i]) is Some && hex_value(t[2 * i + 1]) is Some);
        lemma_all_pairs(t, i + 1);
    }
}

/// An identifier in digits is read as that identifier.
pub proof fn law_identifier_is_read_as_written(u: Seq<u8>)
    requires
        u.len() == 16,
    ensures
        uuid_in(hex_of(u)) == Ok::<Seq<u8>, ArgError>(u),
{
    let t = hex_of(u);
    assert forall|k: int| 0 <= k < 32 implies #[trigger] t[k] != 0x2D && hex_value(t[k]) is Some && hex_value(t[k])->0
        == (if k % 2 == 0 {
        u[k / 2] as int / 16
    } else {
        u[k / 2] as int % 16
    }) by {
    }
    lemma_no_dashes(t);
    lemma_all_pairs(t, 0);
    let r = uuid_in(t)->Ok_0;
    assert forall|i: int| 0 <= i < 16 implies #[trigger] r[i] == u[i] by {
        assert(t[2 * i] != 0x2D && t[2 * i + 1] != 0x2D);
        assert((2 * i) / 2 == i && (2 * i + 1) / 2 == i);
    }
    assert(r =~= u);
}

/// A dash makes no difference, wherever it is.
pub proof fn law_dashes_do_not_matter(a: Seq<u8>, b: Seq<u8>)
    ensures
        uuid_in(a.push(0x2D) + b) == uuid_in(a + b),
{
    lemma_dash_gone(a, b);
}

proof fn lemma_dash_gone(a: Seq<u8>, b: Seq<u8>)
    ensures
        undashed(a.push(0x2D) + b) == undashed(a + b),
    decreases b.len(),
{
    let with = a.push(0x2Du8) + b;
    let without = a + b;
    if b.len() == 0 {
        assert(with =~= a.push(0x2Du8));
        assert(with.drop_last() =~= a);
        assert(without =~= a);
    } else {
        assert(with.drop_last() =~= a.push(0x2Du8) + b.drop_last());
        assert(without.drop_last() =~= a + b.drop_last());
        assert(with.last() == b.last() && without.last() == b.last());
        lemma_dash_gone(a, b.drop_last());
    }
}

} // verus!
