//! Decimal numbers as text.
use vstd::prelude::*;

use crate::text::{chars_of, digit_char, is_digit};

verus! {

/// The value of one digit.
pub open spec fn digit_value(c: char) -> nat {
    (c as u32 - '0' as u32) as nat
}

/// The digit of a value below ten.
pub open spec fn digit_of(d: nat) -> char {
    ((48 + d) as u8) as char
}

/// All characters are digits.
pub open spec fn all_digits(s: Seq<char>) -> bool {
    forall|i: int| 0 <= i < s.len() ==> is_digit(#[trigger] s[i])
}

/// The number that a run of digits denotes.
pub open spec fn digits_value(s: Seq<char>) -> nat
    decreases s.len(),
{
    if s.len() == 0 {
        0
    } else {
        digits_value(s.drop_last()) * 10 + digit_value(s.last())
    }
}

/// A text without one leading plus sign.
pub open spec fn without_plus(s: Seq<char>) -> Seq<char> {
    if s.len() > 0 && s[0] == '+' {
        s.skip(1)
    } else {
        s
    }
}

/// The number that a text denotes: digits, at least one, behind an optional plus sign.
pub open spec fn number_of(s: Seq<char>) -> Option<nat> {
    let d = without_plus(s);
    if d.len() > 0 && all_digits(d) {
        Some(digits_value(d))
    } else {
        None
    }
}

/// The decimal digits of a number, without leading zeros.
pub open spec fn decimal(n: nat) -> Seq<char>
    decreases n,
{
    if n < 10 {
        seq![digit_of(n)]
    } else {
        decimal(n / 10).push(digit_of(n % 10))
    }
}

/// A longer run of digits denotes no smaller number than its beginning.
proof fn lemma_digits_value_grows(s: Seq<char>, i: int)
    requires
        0 <= i <= s.len(),
    ensures
        digits_value(s.take(i)) <= digits_value(s),
    decreases s.len() - i,
{
    if i < s.len() {
        let t = s.take(i + 1);
        assert(t.drop_last() =~= s.take(i));
        lemma_digits_value_grows(s, i + 1);
    } else {
        assert(s.take(i) =~= s);
    }
}

/// The number that a text denotes, where it is at most `max`.
pub fn parse_at_most(s: &str, max: u64) -> (r: Option<u64>)
    ensures
        r is Some <==> number_of(s@) is Some && number_of(s@)->0 <= max,
        r matches Some(n) ==> n == number_of(s@)->0,
{
    let a: Vec<char> = chars_of(s);
    let start: usize = if a.len() > 0 && a[0] == '+' {
        1
    } else {
        0
    };
    let ghost d = without_plus(s@);
    assert(d =~= a@.skip(start as int));
    if start == a.len() {
        return None;
    }
    let mut n: u64 = 0;
    let mut i: usize = start;
    assert(d.take(0) =~= Seq::<char>::empty());
    while i < a.len()
        invariant
            a@ == s@,
            start <= i <= a@.len(),
            d == without_plus(s@),
            d =~= a@.skip(start as int),
            n <= max,
            n == digits_value(d.take(i - start)),
            forall|k: int| 0 <= k < i - start ==> is_digit(#[trigger] d[k]),
        decreases a@.len() - i,
    {
        let c: char = a[i];
        let ghost k = i - start;
        assert(d[k] == c);
        if !digit_char(c) {
            assert(!all_digits(d));
            return None;
        }
        let v: u64 = (c as u32 - '0' as u32) as u64;
        assert(d.take(k + 1).drop_last() =~= d.take(k));
        assert(d.take(k + 1).last() == c);
        proof {
            lemma_digits_value_grows(d, k + 1);
        }
        if v > max || n > (max - v) / 10 {
            assert(digits_value(d.take(k + 1)) == n * 10 + v);
            assert(n * 10 + v > max);
            return None;
        }
        n = n * 10 + v;
        i += 1;
    }
    assert(d.take(d.len() as int) =~= d);
    Some(n)
}

/// The number that a text denotes, as a `u64`.
pub fn parse_u64(s: &str) -> (r: Option<u64>)
    ensures
        r is Some <==> number_of(s@) is Some && number_of(s@)->0 <= u64::MAX,
        r matches Some(n) ==> n == number_of(s@)->0,
{
    parse_at_most(s, u64::MAX)
}

/// The number that a text denotes, as a `u32`.
pub fn parse_u32(s: &str) -> (r: Option<u32>)
    ensures
        r is Some <==> number_of(s@) is Some && number_of(s@)->0 <= u32::MAX,
        r matches Some(n) ==> n == number_of(s@)->0,
{
    match parse_at_most(s, u32::MAX as u64) {
        Some(n) => Some(n as u32),
        None => None,
    }
}

/// The decimal text of a number.
pub fn u64_text(n: u64) -> (r: String)
    ensures
        r@ == decimal(n as nat),
    decreases n,
{
    let d: u8 = (n % 10) as u8;
    let c: char = (48 + d) as char;
    let mut out: String = if n < 10 {
        String::new()
    } else {
        u64_text(n / 10)
    };
    out.push(c);
    assert(out@ =~= decimal(n as nat));
    out
}

/// The decimal text of a count.
pub fn usize_text(n: usize) -> (r: String)
    ensures
        r@ == decimal(n as nat),
{
    u64_text(n as u64)
}

/// The decimal text of a signed number: a minus sign before the digits of a negative one.
pub open spec fn signed_decimal(n: int) -> Seq<char> {
    if n < 0 {
        seq!['-'] + decimal((-n) as nat)
    } else {
        decimal(n as nat)
    }
}

/// The decimal text of a signed number.
pub fn i64_text(n: i64) -> (r: String)
    ensures
        r@ == signed_decimal(n as int),
{
    if n < 0 {
        let m: u64 = (-(n as i128)) as u64;
        let mut out: String = String::new();
        out.push('-');
        out.append(u64_text(m).as_str());
        assert(out@ =~= signed_decimal(n as int));
        out
    } else {
        u64_text(n as u64)
    }
}

/// The decimal text of a number is a run of digits that denotes it.
pub proof fn law_decimal_reads_back(n: nat)
    ensures
        all_digits(decimal(n)),
        decimal(n).len() > 0,
        number_of(decimal(n)) == Some(n),
    decreases n,
{
    if n < 10 {
        let s = decimal(n);
        assert(s.drop_last() =~= Seq::<char>::empty());
        assert(digits_value(s.drop_last()) == 0);
    } else {
        law_decimal_reads_back(n / 10);
        let p = decimal(n / 10);
        let s = decimal(n);
        assert(s.drop_last() =~= p);
        assert(is_digit(p[0]));
        assert(s[0] == p[0]);
        assert(without_plus(p) == p);
        assert(digits_value(p) == n / 10);
        assert forall|i: int| 0 <= i < s.len() implies is_digit(#[trigger] s[i]) by {
            if i < p.len() {
                assert(s[i] == p[i]);
            }
        }
    }
}

/// A decimal text is written digit by digit: a number below ten is its one digit, and
/// ten times a number and a digit is the text of the number with the digit behind it.
pub proof fn law_decimal_is_written_by_tens(n: nat, d: nat)
    requires
        d < 10,
    ensures
        decimal(d).len() == 1,
        decimal(d)[0] as int == 48 + d,
        n > 0 ==> decimal(10 * n + d) == decimal(n) + decimal(d),
        n > 0 ==> decimal(n)[0] != '0',
    decreases n,
{
    if n > 0 {
        assert((10 * n + d) / 10 == n);
        assert((10 * n + d) % 10 == d);
        assert(decimal(10 * n + d) =~= decimal(n) + decimal(d));
        if n >= 10 {
            law_decimal_is_written_by_tens(n / 10, d);
            assert(decimal(n)[0] == decimal(n / 10)[0]);
            assert(decimal(n / 10).len() > 0) by {
                law_decimal_reads_back(n / 10);
            }
        }
    }
}

/// A number may have a plus sign before it and zeros; a text with anything else than
/// digits is none, nor is an empty one.
pub proof fn law_what_a_number_may_look_like(n: nat, s: Seq<char>, i: int)
    ensures
        number_of(seq!['+'] + decimal(n)) == Some(n),
        number_of(seq!['0'] + decimal(n)) == Some(n),
        number_of(Seq::empty()) is None,
        number_of(seq!['+']) is None,
        0 <= i < s.len() && !is_digit(s[i]) && !(i == 0 && s[i] == '+') ==> number_of(s) is None,
        signed_decimal(n as int) == decimal(n),
        n > 0 ==> signed_decimal(-(n as int)) == seq!['-'] + decimal(n),
{
    let d = decimal(n);
    law_decimal_reads_back(n);
    assert(is_digit(d[0]));
    assert(without_plus(d) == d);
    assert((seq!['+'] + d).skip(1) =~= d);
    let z = seq!['0'] + d;
    assert(z[0] == '0');
    assert(all_digits(z)) by {
        assert forall|k: int| 0 <= k < z.len() implies is_digit(#[trigger] z[k]) by {
            if k > 0 {
                assert(z[k] == d[k - 1]);
            }
        }
    }
    lemma_leading_zero(d);
    assert(seq!['+'].skip(1) =~= Seq::<char>::empty());
    if 0 <= i < s.len() && !is_digit(s[i]) && !(i == 0 && s[i] == '+') {
        let w = without_plus(s);
        if s[0] == '+' {
            assert(w[i - 1] == s[i]);
        } else {
            assert(w[i] == s[i]);
        }
    }
}

proof fn lemma_leading_zero(d: Seq<char>)
    ensures
        digits_value(seq!['0'] + d) == digits_value(d),
    decreases d.len(),
{
    let z = seq!['0'] + d;
    if d.len() == 0 {
        assert(z.drop_last() =~= Seq::<char>::empty());
        assert(digits_value(z.drop_last()) == 0);
    } else {
        assert(z.drop_last() =~= seq!['0'] + d.drop_last());
        assert(z.last() == d.last());
        lemma_leading_zero(d.drop_last());
    }
}

} // verus!
