//! Numbers as text: decimal and hexadecimal.

use vstd::arithmetic::div_mod::lemma_div_denominator;
use vstd::arithmetic::power::{lemma_pow_positive, pow};
use vstd::prelude::*;

use crate::text::{chars_of, code_point};

verus! {

/// The decimal digit of `d`.
pub open spec fn digit(d: int) -> char {
    (d + 48) as char
}

/// A natural number in decimal, without leading zeros.
pub open spec fn decimal(n: nat) -> Seq<char>
    decreases n,
{
    if n < 10 {
        seq![digit(n as int)]
    } else {
        decimal(n / 10).push(digit((n % 10) as int))
    }
}

/// An integer in decimal.
pub open spec fn signed_decimal(n: int) -> Seq<char> {
    if n < 0 {
        seq!['-'] + decimal((-n) as nat)
    } else {
        decimal(n as nat)
    }
}

/// `n` in decimal.
pub fn decimal_u64(n: u64) -> (r: String)
    ensures
        r@ == decimal(n as nat),
    decreases n,
{
    if n < 10 {
        let mut r = String::new();
        r.push((48 + n as u8) as char);
        assert(r@ =~= seq![digit(n as int)]);
        r
    } else {
        let mut r = decimal_u64(n / 10);
        r.push((48 + (n % 10) as u8) as char);
        r
    }
}

/// `n` in decimal, with a minus sign where it is negative.
pub fn decimal_i64(n: i64) -> (r: String)
    ensures
        r@ == signed_decimal(n as int),
{
    if n >= 0 {
        decimal_u64(n as u64)
    } else {
        let magnitude: u64 = if n == i64::MIN {
            0x8000_0000_0000_0000
        } else {
            (-n) as u64
        };
        let digits = decimal_u64(magnitude);
        let mut r = String::new();
        r.push('-');
        crate::text::concat2(r.as_str(), digits.as_str())
    }
}

/// Whether `c` is a decimal digit.
pub open spec fn is_digit(c: char) -> bool {
    48 <= c as int <= 57
}

/// The number that a row of decimal digits stands for.
pub open spec fn digits_value(s: Seq<char>) -> nat
    decreases s.len(),
{
    if s.len() == 0 {
        0
    } else {
        digits_value(s.drop_last()) * 10 + (s.last() as int - 48) as nat
    }
}

/// Whether every character of `s` is a decimal digit.
pub open spec fn all_digits(s: Seq<char>) -> bool {
    forall|i: int| 0 <= i < s.len() ==> is_digit(#[trigger] s[i])
}

/// `s` without a plus sign at its front.
pub open spec fn without_plus(s: Seq<char>) -> Seq<char> {
    if s.len() > 0 && s[0] == '+' {
        s.skip(1)
    } else {
        s
    }
}

/// The number that a text reads as: decimal digits, at least one, after at most one plus sign,
/// and no larger than a `u32` holds.
pub open spec fn parsed_u32(s: Seq<char>) -> Option<u32> {
    let body = without_plus(s);
    if body.len() > 0 && all_digits(body) && digits_value(body) <= u32::MAX {
        Some(digits_value(body) as u32)
    } else {
        None
    }
}

/// A longer row of digits does not stand for less.
proof fn lemma_digits_value_grows(s: Seq<char>, k: int)
    requires
        0 <= k <= s.len(),
        all_digits(s),
    ensures
        digits_value(s.take(k)) <= digits_value(s),
    decreases s.len() - k,
{
    if k == s.len() {
        assert(s.take(k) =~= s);
    } else {
        lemma_digits_value_grows(s, k + 1);
        assert(s.take(k + 1).drop_last() =~= s.take(k));
        assert(is_digit(s[k]));
        assert(s.take(k + 1).last() == s[k]);
    }
}

/// Reads a text as a `u32`.
pub fn parse_u32(s: &str) -> (r: Option<u32>)
    ensures
        r == parsed_u32(s@),
{
    let v = chars_of(s);
    let from: usize = if v.len() > 0 && v[0] == '+' {
        1
    } else {
        0
    };
    let ghost body = v@.skip(from as int);
    assert(body =~= without_plus(s@));
    if from == v.len() {
        return None;
    }
    let mut value: u64 = 0;
    let mut i: usize = from;
    assert(body.take(0) =~= Seq::<char>::empty());
    while i < v.len()
        invariant
            from <= i <= v@.len(),
            v@ == s@,
            body == v@.skip(from as int),
            body == without_plus(s@),
            value == digits_value(body.take(i - from)),
            value <= u32::MAX,
            forall|k: int| 0 <= k < i - from ==> is_digit(#[trigger] body[k]),
        decreases v@.len() - i,
    {
        let c: char = v[i];
        let n: u32 = code_point(c);
        assert(body[i - from] == c);
        if n < 48 || n > 57 {
            assert(!is_digit(body[i - from]));
            return None;
        }
        assert(body.take(i + 1 - from).drop_last() =~= body.take(i - from));
        value = value * 10 + (n - 48) as u64;
        assert(value == digits_value(body.take(i + 1 - from)));
        if value > 0xffff_ffff {
            proof {
                if parsed_u32(s@) is Some {
                    lemma_digits_value_grows(body, i + 1 - from);
                }
            }
            return None;
        }
        i = i + 1;
    }
    assert(body.take(v@.len() - from) =~= body);
    Some(value as u32)
}

/// The lower-case hexadecimal digit of `d`.
pub open spec fn hex_digit(d: int) -> char {
    if d < 10 {
        (d + 48) as char
    } else {
        (d + 87) as char
    }
}

/// Bytes in lower-case hexadecimal, two digits for each.
pub open spec fn hex(bytes: Seq<u8>) -> Seq<char>
    decreases bytes.len(),
{
    if bytes.len() == 0 {
        Seq::<char>::empty()
    } else {
        hex(bytes.drop_last()).push(hex_digit((bytes.last() / 16) as int)).push(
            hex_digit((bytes.last() % 16) as int),
        )
    }
}

fn push_hex_digit(s: &mut String, d: u8)
    requires
        d < 16,
    ensures
        final(s)@ == old(s)@.push(hex_digit(d as int)),
{
    if d < 10 {
        s.push((48 + d) as char);
    } else {
        s.push((87 + d) as char);
    }
}

/// `bytes` in lower-case hexadecimal.
pub fn to_hex(bytes: &Vec<u8>) -> (r: String)
    ensures
        r@ == hex(bytes@),
{
    let mut r = String::new();
    let mut i: usize = 0;
    while i < bytes.len()
        invariant
            i <= bytes@.len(),
            r@ == hex(bytes@.take(i as int)),
        decreases bytes@.len() - i,
    {
        assert(bytes@.take(i + 1).drop_last() =~= bytes@.take(i as int));
        push_hex_digit(&mut r, bytes[i] / 16);
        push_hex_digit(&mut r, bytes[i] % 16);
        i = i + 1;
    }
    assert(bytes@.take(bytes@.len() as int) =~= bytes@);
    r
}

/// A number in decimal consists of digits, and reads as that number.
pub proof fn law_decimals_read_back(n: nat)
    ensures
        decimal(n).len() > 0,
        all_digits(decimal(n)),
        digits_value(decimal(n)) == n,
    decreases n,
{
    if n < 10 {
        assert(decimal(n).drop_last() =~= Seq::<char>::empty());
        assert(digits_value(decimal(n).drop_last()) == 0);
        assert(decimal(n).last() as int == n + 48);
    } else {
        law_decimals_read_back(n / 10);
        assert(decimal(n).drop_last() =~= decimal(n / 10));
        assert(decimal(n).last() == digit((n % 10) as int));
    }
}

/// An integer in decimal consists of digits and a minus sign, and different integers differ in
/// decimal.
pub proof fn law_signed_decimals_differ(a: int, b: int)
    ensures
        forall|i: int|
            0 <= i < signed_decimal(a).len() ==> is_digit(#[trigger] signed_decimal(a)[i])
                || signed_decimal(a)[i] == '-',
        forall|i: int|
            0 <= i < signed_decimal(b).len() ==> is_digit(#[trigger] signed_decimal(b)[i])
                || signed_decimal(b)[i] == '-',
        signed_decimal(a) == signed_decimal(b) ==> a == b,
{
    let x = if a < 0 {
        (-a) as nat
    } else {
        a as nat
    };
    let y = if b < 0 {
        (-b) as nat
    } else {
        b as nat
    };
    law_decimals_read_back(x);
    law_decimals_read_back(y);
    let s = signed_decimal(a);
    let t = signed_decimal(b);
    assert(a < 0 ==> s.skip(1) =~= decimal(x));
    assert(b < 0 ==> t.skip(1) =~= decimal(y));
    assert forall|i: int| 0 <= i < s.len() implies is_digit(#[trigger] s[i]) || s[i] == '-' by {
        if a >= 0 {
            assert(is_digit(decimal(x)[i]));
        } else if i > 0 {
            assert(s[i] == decimal(x)[i - 1]);
        }
    }
    assert forall|i: int| 0 <= i < t.len() implies is_digit(#[trigger] t[i]) || t[i] == '-' by {
        if b >= 0 {
            assert(is_digit(decimal(y)[i]));
        } else if i > 0 {
            assert(t[i] == decimal(y)[i - 1]);
        }
    }
    if a >= 0 {
        assert(is_digit(s[0]));
    }
    if b >= 0 {
        assert(is_digit(t[0]));
    }
}

/// Different bytes differ in hexadecimal.
pub proof fn law_hex_tells_bytes_apart(a: Seq<u8>, b: Seq<u8>)
    requires
        hex(a) == hex(b),
    ensures
        a == b,
    decreases a.len(),
{
    lemma_hex_length(a);
    lemma_hex_length(b);
    if a.len() > 0 {
        let x = a.drop_last();
        let y = b.drop_last();
        let s = hex(a);
        assert(s.drop_last().drop_last() =~= hex(x));
        assert(s.drop_last().drop_last() =~= hex(y));
        law_hex_tells_bytes_apart(x, y);
        assert(s[s.len() - 1] == hex_digit((a.last() % 16) as int));
        assert(s[s.len() - 1] == hex_digit((b.last() % 16) as int));
        assert(s[s.len() - 2] == hex_digit((a.last() / 16) as int));
        assert(s[s.len() - 2] == hex_digit((b.last() / 16) as int));
        assert(a.last() == b.last());
        assert(a =~= x.push(a.last()));
        assert(b =~= y.push(b.last()));
    } else {
        assert(a =~= b);
    }
}

proof fn lemma_hex_length(bytes: Seq<u8>)
    ensures
        hex(bytes).len() == 2 * bytes.len(),
    decreases bytes.len(),
{
    if bytes.len() > 0 {
        lemma_hex_length(bytes.drop_last());
    }
}

/// In decimal every place holds its digit: the one for 10 to the power of `k` is that many places
/// ahead of the last, and there is no zero in front.
pub proof fn law_every_place_holds_its_digit(n: nat, k: nat)
    ensures
        k < decimal(n).len() ==> decimal(n)[decimal(n).len() - 1 - k] as int == 48 + n as int / pow(
            10,
            k,
        ) % 10,
        k >= decimal(n).len() ==> n as int / pow(10, k) == 0,
        n > 0 ==> decimal(n)[0] != '0',
        pow(10, k) > 0,
    decreases n,
{
    lemma_pow_positive(10, k);
    reveal(pow);
    let last = digit((n % 10) as int);
    if n < 10 {
        assert(decimal(n) =~= seq![digit(n as int)]);
        if k == 0 {
            assert(pow(10, 0) == 1);
        } else {
            lemma_pow_positive(10, (k - 1) as nat);
            assert(pow(10, k) == 10 * pow(10, (k - 1) as nat));
            assert(n as int / pow(10, k) == 0) by (nonlinear_arith)
                requires
                    0 <= n < 10,
                    pow(10, k) == 10 * pow(10, (k - 1) as nat),
                    pow(10, (k - 1) as nat) > 0,
            ;
        }
    } else {
        let m = n / 10;
        if k == 0 {
            assert(pow(10, 0) == 1);
            law_every_place_holds_its_digit(m, 0);
        } else {
            law_every_place_holds_its_digit(m, (k - 1) as nat);
            assert(pow(10, k) == 10 * pow(10, (k - 1) as nat));
            lemma_div_denominator(n as int, 10, pow(10, (k - 1) as nat));
            assert(decimal(n)[decimal(n).len() - 1 - k] == decimal(m)[decimal(m).len() - 1 - (k
                - 1)] || k >= decimal(n).len());
        }
    }
}

/// A number is read back from its decimal digits, also behind a plus sign or zeros; and a text is
/// no number where it is empty, holds anything but digits behind at most one plus sign, or stands
/// for more than fits.
pub proof fn law_numbers_are_read_back(n: u32, s: Seq<char>, i: int)
    ensures
        parsed_u32(decimal(n as nat)) == Some(n),
        parsed_u32(seq!['+'] + decimal(n as nat)) == Some(n),
        parsed_u32(seq!['0'] + decimal(n as nat)) == Some(n),
        parsed_u32(Seq::<char>::empty()) is None,
        parsed_u32(seq!['+']) is None,
        0 < i < s.len() && !('0' <= s[i] <= '9') ==> parsed_u32(s) is None,
        s.len() > 0 && !('0' <= s[0] <= '9') && s[0] != '+' ==> parsed_u32(s) is None,
        forall|m: nat| m > u32::MAX ==> parsed_u32(#[trigger] decimal(m)) is None,
{
    let d = decimal(n as nat);
    law_decimals_read_back(n as nat);
    assert(is_digit(d[0]));
    assert(without_plus(d) == d);
    assert((seq!['+'] + d).skip(1) =~= d);
    assert(seq!['+'].skip(1).len() == 0);
    let z = seq!['0'] + d;
    assert(without_plus(z) == z);
    assert(all_digits(z)) by {
        assert forall|k: int| 0 <= k < z.len() implies is_digit(#[trigger] z[k]) by {
            if k > 0 {
                assert(z[k] == d[k - 1]);
            }
        }
    }
    lemma_leading_zero(d);
    if 0 < i < s.len() && !('0' <= s[i] <= '9') {
        let body = without_plus(s);
        if all_digits(body) {
            if s[0] == '+' {
                assert(body[i - 1] == s[i]);
            } else {
                assert(is_digit(body[i]));
            }
        }
    }
    if s.len() > 0 && !('0' <= s[0] <= '9') && s[0] != '+' {
        if all_digits(s) {
            assert(is_digit(s[0]));
        }
    }
    assert forall|m: nat| m > u32::MAX implies parsed_u32(#[trigger] decimal(m)) is None by {
        law_decimals_read_back(m);
        assert(is_digit(decimal(m)[0]));
    }
}

proof fn lemma_leading_zero(d: Seq<char>)
    ensures
        digits_value(seq!['0'] + d) == digits_value(d),
    decreases d.len(),
{
    let z = seq!['0'] + d;
    if d.len() == 0 {
        assert(z.drop_last() =~= Seq::<char>::empty());
        assert(digits_value(z.drop_last()) == 0);
    } else {
        assert(z.drop_last() =~= seq!['0'] + d.drop_last());
        lemma_leading_zero(d.drop_last());
    }
}

/// In hexadecimal each byte is two digits, the upper half first, and the letters are small.
pub proof fn law_a_byte_is_two_hexadecimal_digits(bytes: Seq<u8>, i: int)
    requires
        0 <= i < bytes.len(),
    ensures
        hex(bytes).len() == 2 * bytes.len(),
        hex(bytes)[2 * i] == "0123456789abcdef"@[bytes[i] as int / 16],
        hex(bytes)[2 * i + 1] == "0123456789abcdef"@[bytes[i] as int % 16],
    decreases bytes.len(),
{
    reveal_strlit("0123456789abcdef");
    lemma_hex_length(bytes);
    let front = bytes.drop_last();
    lemma_hex_length(front);
    if i < front.len() {
        law_a_byte_is_two_hexadecimal_digits(front, i);
    } else {
        assert(bytes.last() == bytes[i]);
    }
}

/// A number that is not negative is written by its digits alone, and a negative one by a minus
/// sign and the digits of its amount.
pub proof fn law_only_a_negative_number_has_a_sign(n: nat)
    ensures
        signed_decimal(n as int) == decimal(n),
        n > 0 ==> signed_decimal(-n) == seq!['-'] + decimal(n),
{
}

} // verus!
