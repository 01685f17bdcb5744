//! Lengths as whole numbers of thousandths of a pixel, and the decimal
//! notation that style values use for them.

use vstd::prelude::*;
use crate::text::{chars_of, find_char, first_index, lemma_first_index};

verus! {

/// The number of units in one pixel.
pub const UNITS_PER_PIXEL: u64 = 1000;

/// The greatest whole part that a decimal number may have to be read.
pub const MAX_WHOLE: u64 = 1000000;

/// The value of a decimal digit.
pub open spec fn digit_value(c: char) -> Option<nat> {
    if '0' <= c <= '9' {
        Some((c as u32 - '0' as u32) as nat)
    } else {
        None
    }
}

/// Whether `s` is made of decimal digits only.
pub open spec fn all_digits(s: Seq<char>) -> bool {
    forall|i: int| 0 <= i < s.len() ==> digit_value(#[trigger] s[i]) is Some
}

/// The number that the digits `s` stand for; an empty string stands for 0.
pub open spec fn digits_value(s: Seq<char>) -> nat
    decreases s.len(),
{
    if s.len() == 0 {
        0
    } else {
        digits_value(s.drop_last()) * 10 + digit_value(s.last()).unwrap_or(0)
    }
}

/// The thousandths that the digits `s` behind a decimal point stand for;
/// digits after the third are cut off.
pub open spec fn fraction_value(s: Seq<char>) -> nat {
    let d = |i: int| if i < s.len() { digit_value(s[i]).unwrap_or(0) } else { 0 };
    d(0) * 100 + d(1) * 10 + d(2)
}

/// The number of units that the decimal number `s` stands for: digits,
/// then possibly a point and more digits, with one digit at least. No
/// sign and no exponent is read, and no whole part above [`MAX_WHOLE`].
pub open spec fn decimal(s: Seq<char>) -> Option<nat> {
    let point = first_index(s, '.');
    let whole = s.take(point);
    let fraction = if point < s.len() { s.skip(point + 1) } else { Seq::empty() };
    if all_digits(whole) && all_digits(fraction) && whole.len() + fraction.len() > 0
        && digits_value(whole) <= MAX_WHOLE {
        Some(digits_value(whole) * 1000 + fraction_value(fraction))
    } else {
        None
    }
}

/// The value of a decimal digit.
pub fn digit_of(c: char) -> (r: Option<u64>)
    ensures
        match r {
            Some(d) => digit_value(c) == Some(d as nat) && d <= 9,
            None => digit_value(c) is None,
        },
{
    if '0' <= c && c <= '9' {
        Some((c as u32 - '0' as u32) as u64)
    } else {
        None
    }
}

/// The value of digits grows with every digit added.
pub proof fn lemma_digits_value_grows(s: Seq<char>, n: int)
    requires
        0 <= n <= s.len(),
    ensures
        digits_value(s.take(n)) <= digits_value(s),
    decreases s.len(),
{
    if n == s.len() {
        assert(s.take(n) == s);
    } else {
        lemma_digits_value_grows(s.drop_last(), n);
        assert(s.drop_last().take(n) == s.take(n));
    }
}

/// Reads the decimal number `v[from..to]`.
#[verifier::loop_isolation(false)]
pub fn parse_decimal(v: &Vec<char>, from: usize, to: usize) -> (r: Option<u64>)
    requires
        from <= to <= v.len(),
    ensures
        match r {
            Some(n) => decimal(v@.subrange(from as int, to as int)) == Some(n as nat),
            None => decimal(v@.subrange(from as int, to as int)) is None,
        },
{
    let ghost s = v@.subrange(from as int, to as int);
    let mut chars: Vec<char> = Vec::new();
    let mut k: usize = from;
    while k < to
        invariant
            from <= k <= to <= v.len(),
            chars@ == v@.subrange(from as int, k as int),
        decreases to - k,
    {
        chars.push(v[k]);
        k += 1;
    }
    let point = find_char(&chars, '.');
    let ghost whole = s.take(point as int);
    let ghost fraction = if point < s.len() { s.skip(point + 1) } else { Seq::empty() };
    let mut acc: u64 = 0;
    let mut i: usize = 0;
    while i < point
        invariant
            i <= point <= chars.len(),
            chars@ == s,
            whole == s.take(point as int),
            all_digits(whole.take(i as int)),
            acc == digits_value(whole.take(i as int)),
            acc <= MAX_WHOLE,
        decreases point - i,
    {
        proof {
            assert(whole.take(i + 1).drop_last() == whole.take(i as int));
            assert(whole.take(i + 1).last() == chars@[i as int]);
        }
        match digit_of(chars[i]) {
            None => {
                return None;
            },
            Some(d) => {
                assert(all_digits(whole.take(i + 1)));
                acc = acc * 10 + d;
                if acc > MAX_WHOLE {
                    proof {
                        lemma_digits_value_grows(whole, i + 1);
                    }
                    return None;
                }
            },
        }
        i += 1;
    }
    assert(whole.take(point as int) == whole);
    let mut frac: u64 = 0;
    let mut count: usize = 0;
    let mut j: usize = if point < chars.len() { point + 1 } else { chars.len() };
    let start = j;
    while j < chars.len()
        invariant
            start <= j <= chars.len(),
            chars@ == s,
            fraction == s.skip(start as int),
            count == j - start,
            forall|m: int| 0 <= m < j - start ==> digit_value(#[trigger] fraction[m]) is Some,
            frac == (if count >= 1 { digit_value(fraction[0]).unwrap_or(0) * 100 } else { 0 }) + (if count >= 2 { digit_value(fraction[1]).unwrap_or(0) * 10 } else { 0 }) + (if count >= 3 { digit_value(fraction[2]).unwrap_or(0) } else { 0 }),
        decreases chars.len() - j,
    {
        assert(fraction[j - start] == chars@[j as int]);
        match digit_of(chars[j]) {
            None => {
                return None;
            },
            Some(d) => {
                if count == 0 {
                    frac = frac + d * 100;
                } else if count == 1 {
                    frac = frac + d * 10;
                } else if count == 2 {
                    frac = frac + d;
                }
            },
        }
        count += 1;
        j += 1;
    }
    if point + count == 0 {
        return None;
    }
    Some(acc * 1000 + frac)
}

/// The character of the digit `d`.
pub open spec fn digit_char(d: nat) -> char {
    if d == 0 {
        '0'
    } else if d == 1 {
        '1'
    } else if d == 2 {
        '2'
    } else if d == 3 {
        '3'
    } else if d == 4 {
        '4'
    } else if d == 5 {
        '5'
    } else if d == 6 {
        '6'
    } else if d == 7 {
        '7'
    } else if d == 8 {
        '8'
    } else {
        '9'
    }
}

/// The decimal digits of `n`, without leading zeros.
pub open spec fn digits(n: nat) -> Seq<char>
    decreases n,
{
    if n < 10 {
        seq![digit_char(n)]
    } else {
        digits(n / 10).push(digit_char(n % 10))
    }
}

/// The digits behind the decimal point for `f` thousandths, without
/// zeros at the end.
pub open spec fn fraction_digits(f: nat) -> Seq<char> {
    let a = digit_char(f / 100);
    let b = digit_char((f / 10) % 10);
    let c = digit_char(f % 10);
    if f % 10 != 0 {
        seq![a, b, c]
    } else if (f / 10) % 10 != 0 {
        seq![a, b]
    } else {
        seq![a]
    }
}

/// The decimal notation of `v` units in pixels: the whole pixels, then,
/// where the rest is not zero, a point and up to three digits.
pub open spec fn decimal_text(v: nat) -> Seq<char> {
    if v % 1000 != 0 {
        digits(v / 1000).push('.') + fraction_digits(v % 1000)
    } else {
        digits(v / 1000)
    }
}

/// The style value for a length of `v` units: its decimal notation and
/// `px`.
pub open spec fn px_text(v: nat) -> Seq<char> {
    decimal_text(v).push('p').push('x')
}

fn digit_to_char(d: u64) -> (c: char)
    requires
        d <= 9,
    ensures
        c == digit_char(d as nat),
{
    if d == 0 {
        '0'
    } else if d == 1 {
        '1'
    } else if d == 2 {
        '2'
    } else if d == 3 {
        '3'
    } else if d == 4 {
        '4'
    } else if d == 5 {
        '5'
    } else if d == 6 {
        '6'
    } else if d == 7 {
        '7'
    } else if d == 8 {
        '8'
    } else {
        '9'
    }
}

fn push_digits(s: &mut String, n: u64)
    ensures
        final(s)@ == old(s)@ + digits(n as nat),
    decreases n,
{
    if n >= 10 {
        push_digits(s, n / 10);
    }
    s.push(digit_to_char(n % 10));
}

/// The style value for a length of `v` units.
pub fn format_px(v: u64) -> (s: String)
    ensures
        s@ == px_text(v as nat),
{
    let mut s = String::new();
    push_digits(&mut s, v / 1000);
    let f = v % 1000;
    if f != 0 {
        s.push('.');
        s.push(digit_to_char(f / 100));
        if f % 10 != 0 {
            s.push(digit_to_char((f / 10) % 10));
            s.push(digit_to_char(f % 10));
        } else if (f / 10) % 10 != 0 {
            s.push(digit_to_char((f / 10) % 10));
        }
    }
    s.push('p');
    s.push('x');
    s
}

/// The length in units that the style value `s` gives in pixels: a decimal
/// number and `px`.
pub open spec fn pixels(s: Seq<char>) -> Option<nat> {
    if s.len() >= 2 && s[s.len() - 2] == 'p' && s[s.len() - 1] == 'x' {
        decimal(s.take(s.len() - 2))
    } else {
        None
    }
}

/// The thousandths of a percent that the style value `s` gives: a decimal
/// number and `%`.
pub open spec fn percent(s: Seq<char>) -> Option<nat> {
    if s.len() >= 1 && s[s.len() - 1] == '%' {
        decimal(s.take(s.len() - 1))
    } else {
        None
    }
}

/// The length `pct` thousandths of a percent of `base`, rounded down.
pub open spec fn scaled(base: nat, pct: nat) -> nat {
    base * pct / 100000
}

/// Whether the style value `s` is written as a percentage.
pub open spec fn is_percentage(s: Seq<char>) -> bool {
    s.len() >= 1 && s[s.len() - 1] == '%'
}

/// Whether the style value `s` is written as a percentage.
pub fn written_as_percentage(s: &String) -> (b: bool)
    ensures
        b == is_percentage(s@),
{
    let chars = chars_of(s.as_str());
    let n = chars.len();
    n >= 1 && chars[n - 1] == '%'
}

/// Reads a style value in pixels.
pub fn read_pixels(s: &String) -> (r: Option<u64>)
    ensures
        match r {
            Some(n) => pixels(s@) == Some(n as nat) && n <= MAX_WHOLE * 1000 + 999,
            None => pixels(s@) is None,
        },
{
    let chars = chars_of(s.as_str());
    let n = chars.len();
    if n >= 2 && chars[n - 2] == 'p' && chars[n - 1] == 'x' {
        let r = parse_decimal(&chars, 0, n - 2);
        proof {
            lemma_decimal_bound(chars@.take(n - 2));
        }
        r
    } else {
        None
    }
}

/// Reads a style value in percent.
pub fn read_percent(s: &String) -> (r: Option<u64>)
    ensures
        match r {
            Some(n) => percent(s@) == Some(n as nat) && n <= MAX_WHOLE * 1000 + 999,
            None => percent(s@) is None,
        },
{
    let chars = chars_of(s.as_str());
    let n = chars.len();
    if n >= 1 && chars[n - 1] == '%' {
        let r = parse_decimal(&chars, 0, n - 1);
        proof {
            lemma_decimal_bound(chars@.take(n - 1));
        }
        r
    } else {
        None
    }
}

/// A decimal number that can be read has a whole part of [`MAX_WHOLE`] at
/// most.
pub proof fn lemma_decimal_bound(s: Seq<char>)
    ensures
        decimal(s) matches Some(n) ==> n <= MAX_WHOLE * 1000 + 999,
{
}

/// The length `pct` thousandths of a percent of `base`.
pub fn scale(base: u64, pct: u64) -> (r: u64)
    requires
        base <= MAX_WHOLE * 1000 + 999,
        pct <= MAX_WHOLE * 1000 + 999,
    ensures
        r == scaled(base as nat, pct as nat),
{
    assert(base * pct <= 1000000999 * 1000000999) by (nonlinear_arith)
        requires
            base <= 1000000999,
            pct <= 1000000999,
    ;
    base * pct / 100000
}

/// The character of a digit stands for that digit, and is no point.
pub proof fn lemma_digit_char(d: nat)
    requires
        d <= 9,
    ensures
        digit_value(digit_char(d)) == Some(d),
        digit_char(d) != '.',
{
}

/// The digits of a number are digits, hold no point, and stand for the
/// number.
pub proof fn lemma_digits(n: nat)
    ensures
        digits(n).len() >= 1,
        all_digits(digits(n)),
        digits_value(digits(n)) == n,
        forall|i: int| 0 <= i < digits(n).len() ==> digits(n)[i] != '.',
    decreases n,
{
    if n < 10 {
        lemma_digit_char(n);
        let s = digits(n);
        assert(digits_value(s.drop_last()) == 0);
    } else {
        lemma_digits(n / 10);
        lemma_digit_char(n % 10);
        let s = digits(n);
        assert(s.drop_last() == digits(n / 10));
    }
}

/// The digits written behind the point are digits, hold no point, and
/// stand for the thousandths they were written for.
pub proof fn lemma_fraction_digits(f: nat)
    requires
        1 <= f <= 999,
    ensures
        1 <= fraction_digits(f).len() <= 3,
        all_digits(fraction_digits(f)),
        fraction_value(fraction_digits(f)) == f,
        forall|i: int| 0 <= i < fraction_digits(f).len() ==> fraction_digits(f)[i] != '.',
{
    lemma_digit_char(f / 100);
    lemma_digit_char((f / 10) % 10);
    lemma_digit_char(f % 10);
}

/// What is written for a length reads back as that length.
pub proof fn lemma_decimal_text(v: nat)
    requires
        v / 1000 <= MAX_WHOLE,
    ensures
        decimal(decimal_text(v)) == Some(v),
        pixels(px_text(v)) == Some(v),
{
    let w = v / 1000;
    let f = v % 1000;
    let text = decimal_text(v);
    lemma_digits(w);
    if f != 0 {
        lemma_fraction_digits(f);
        let n = digits(w).len() as int;
        lemma_first_index(text, '.', n);
        assert(text.take(n) == digits(w));
    } else {
        lemma_first_index(text, '.', text.len() as int);
        assert(text.take(text.len() as int) == text);
    }
    let px = px_text(v);
    assert(px.take(px.len() - 2) == text);
}

} // verus!
