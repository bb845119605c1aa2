//! Decimal numerals in ASCII digits: writing a `u32` as text (what `format!`
//! does with `{}`) and reading a run of digits (what `str::parse::<u32>` does).
use vstd::prelude::*;
use crate::text::{is_ascii_digit};

verus! {

pub open spec fn digit_value(c: char) -> nat {
    (c as int - '0' as int) as nat
}

/// The ASCII digit for `d < 10`.
pub open spec fn digit_char(d: nat) -> char {
    (d + '0' as int) as char
}

/// The number that a run of ASCII digits denotes (leading zeros allowed).
pub open spec fn digits_value(s: Seq<char>) -> nat
    decreases s.len(),
{
    if s.len() == 0 {
        0
    } else {
        digits_value(s.drop_last()) * 10 + digit_value(s.last())
    }
}

/// `str::parse::<u32>` on a run of ASCII digits: the value, unless the run is
/// empty or the value does not fit.
pub open spec fn parse_u32_digits(s: Seq<char>) -> Option<u32> {
    if s.len() > 0 && digits_value(s) <= u32::MAX {
        Some(digits_value(s) as u32)
    } else {
        None
    }
}

/// The decimal numeral of `n`, without leading zeros.
pub open spec fn decimal(n: nat) -> Seq<char>
    decreases n,
{
    if n < 10 {
        seq![digit_char(n)]
    } else {
        decimal(n / 10).push(digit_char(n % 10))
    }
}

/// Appends the decimal numeral of `n` to `out`.
pub fn push_decimal(out: &mut String, n: u32)
    ensures
        final(out)@ == old(out)@ + decimal(n as nat),
    decreases n,
{
    if n >= 10 {
        push_decimal(out, n / 10);
    }
    let d = (n % 10) as u8;
    let c = (48u8 + d) as char;
    assert(c == digit_char((n % 10) as nat));
    out.push(c);
    assert(out@ =~= old(out)@ + decimal(n as nat));
}

/// The decimal numeral of `n` as a new string.
pub fn decimal_string(n: u32) -> (s: String)
    ensures
        s@ == decimal(n as nat),
{
    let mut s = String::new();
    push_decimal(&mut s, n);
    assert(s@ =~= decimal(n as nat));
    s
}

/// Reads the run of ASCII digits `s[lo..hi]` as a `u32`.
pub fn parse_u32_in(s: &Vec<char>, lo: usize, hi: usize) -> (r: Option<u32>)
    requires
        lo <= hi <= s@.len(),
        forall|j: int| lo <= j < hi ==> is_ascii_digit(#[trigger] s@[j]),
    ensures
        r == parse_u32_digits(s@.subrange(lo as int, hi as int)),
{
    let ghost sub = s@.subrange(lo as int, hi as int);
    let mut value: u32 = 0;
    let mut too_big = false;
    let mut i = lo;
    assert(sub.take(0) =~= Seq::<char>::empty());
    while i < hi
        invariant
            lo <= i <= hi <= s@.len(),
            sub == s@.subrange(lo as int, hi as int),
            forall|j: int| lo <= j < hi ==> is_ascii_digit(#[trigger] s@[j]),
            too_big ==> digits_value(sub.take(i - lo)) > u32::MAX,
            !too_big ==> value == digits_value(sub.take(i - lo)),
        decreases hi - i,
    {
        let c = s[i];
        assert(is_ascii_digit(s@[i as int]));
        let d = ((c as u32) - ('0' as u32)) as u64;
        assert(sub.take(i - lo + 1).drop_last() =~= sub.take(i - lo));
        assert(sub.take(i - lo + 1).last() == c);
        if !too_big {
            let next = (value as u64) * 10 + d;
            if next > u32::MAX as u64 {
                too_big = true;
            } else {
                value = next as u32;
            }
        }
        i = i + 1;
    }
    assert(sub.take(hi - lo) =~= sub);
    if too_big || lo == hi {
        None
    } else {
        Some(value)
    }
}

/// Every character of a decimal numeral is an ASCII digit.
pub proof fn lemma_decimal_digits(n: nat)
    ensures
        decimal(n).len() >= 1,
        forall|j: int| 0 <= j < decimal(n).len() ==> is_ascii_digit(#[trigger] decimal(n)[j]),
    decreases n,
{
    if n >= 10 {
        lemma_decimal_digits(n / 10);
    }
}

/// Reading back the decimal numeral of a number gives the number.
pub proof fn lemma_decimal_roundtrip(n: nat)
    ensures
        digits_value(decimal(n)) == n,
    decreases n,
{
    if n >= 10 {
        lemma_decimal_roundtrip(n / 10);
        assert(decimal(n).drop_last() =~= decimal(n / 10));
        assert(digit_value(digit_char(n % 10)) == n % 10);
        assert(n == (n / 10) * 10 + n % 10);
        assert(decimal(n).last() == digit_char(n % 10));
        assert(digits_value(decimal(n)) == digits_value(decimal(n).drop_last()) * 10
            + digit_value(decimal(n).last()));
    } else {
        assert(digit_value(digit_char(n)) == n);
        assert(digits_value(decimal(n)) == digits_value(decimal(n).drop_last()) * 10
            + digit_value(decimal(n).last()));
        assert(decimal(n).drop_last() =~= Seq::<char>::empty());
    }
}

/// Law: writing a `u32` in decimal and reading it back with `str::parse::<u32>`
/// gives the same number.
pub proof fn law_decimal_parse_roundtrip(n: u32)
    ensures
        parse_u32_digits(decimal(n as nat)) == Some(n),
        forall|j: int| 0 <= j < decimal(n as nat).len() ==> is_ascii_digit(#[trigger] decimal(n as nat)[j]),
{
    lemma_decimal_roundtrip(n as nat);
    lemma_decimal_digits(n as nat);
}

} // verus!
