//! Unsigned decimal numbers, read as `str::parse` reads them.
use vstd::prelude::*;
use crate::text::chars_of;

verus! {

/// A decimal digit.
pub open spec fn is_digit(c: char) -> bool {
    '0' as u32 <= c as u32 <= '9' as u32
}

/// The value of a run of decimal digits, most significant first.
pub open spec fn digits_value(s: Seq<char>) -> int
    decreases s.len(),
{
    if s.len() == 0 {
        0
    } else {
        digits_value(s.drop_last()) * 10 + (s.last() as u32 - '0' as u32)
    }
}

/// What `str::parse::<u64>` gives: an optional `+`, then one or more decimal
/// digits whose value fits in 64 bits.
pub open spec fn parse_u64(s: Seq<char>) -> Option<u64> {
    let d = unsigned_part(s);
    if all_digits(d) && digits_value(d) <= u64::MAX {
        Some(digits_value(d) as u64)
    } else {
        None
    }
}

/// `s` without one leading `+`.
pub open spec fn unsigned_part(s: Seq<char>) -> Seq<char> {
    if s.len() > 0 && s[0] == '+' {
        s.drop_first()
    } else {
        s
    }
}

/// `d` is one or more decimal digits.
pub open spec fn all_digits(d: Seq<char>) -> bool {
    d.len() > 0 && forall|i: int| 0 <= i < d.len() ==> is_digit(#[trigger] d[i])
}

proof fn lemma_digits_grow(s: Seq<char>, i: int)
    requires
        0 <= i <= s.len(),
        forall|j: int| 0 <= j < s.len() ==> is_digit(#[trigger] s[j]),
    ensures
        0 <= digits_value(s.subrange(0, i)) <= digits_value(s),
    decreases s.len(),
{
    if i == s.len() {
        assert(s.subrange(0, i) == s);
        if s.len() > 0 {
            let p = s.drop_last();
            lemma_digits_grow(p, p.len() as int);
            assert(p.subrange(0, p.len() as int) == p);
            assert(is_digit(s[s.len() - 1]));
        }
    } else {
        let p = s.drop_last();
        assert(s.subrange(0, i) == p.subrange(0, i));
        lemma_digits_grow(p, i);
        lemma_digits_grow(p, p.len() as int);
        assert(p.subrange(0, p.len() as int) == p);
        assert(is_digit(s[s.len() - 1]));
        let v = digits_value(p);
        assert(v * 10 >= v) by (nonlinear_arith)
            requires
                v >= 0,
        ;
    }
}

/// Parses an unsigned decimal number as `str::parse::<u64>` does.
pub fn parse_u64_chars(s: &Vec<char>) -> (r: Option<u64>)
    ensures
        r == parse_u64(s@),
{
    let start: usize = if s.len() > 0 && s[0] == '+' { 1 } else { 0 };
    let ghost d = unsigned_part(s@);
    assert(d == s@.subrange(start as int, s@.len() as int));
    if start >= s.len() {
        return None;
    }
    let mut value: u64 = 0;
    let mut i: usize = start;
    while i < s.len()
        invariant
            start <= i <= s.len(),
            d == unsigned_part(s@),
            d == s@.subrange(start as int, s@.len() as int),
            forall|j: int| 0 <= j < i - start ==> is_digit(#[trigger] d[j]),
            value == digits_value(d.subrange(0, i - start)),
        decreases s.len() - i,
    {
        let c = s[i];
        assert(d.subrange(0, i + 1 - start).drop_last() == d.subrange(0, i - start));
        assert(d[i - start] == c);
        if !('0' as u32 <= c as u32 && c as u32 <= '9' as u32) {
            assert(!is_digit(d[i - start]));
            assert(!all_digits(d));
            return None;
        }
        let digit = (c as u32 - '0' as u32) as u64;
        if value > (u64::MAX - digit) / 10 {
            proof {
                assert(forall|j: int| 0 <= j < i + 1 - start ==> is_digit(#[trigger] d[j]));
                assert(digits_value(d.subrange(0, i + 1 - start)) == value * 10 + digit);
                if all_digits(d) {
                    lemma_digits_grow(d, i + 1 - start);
                    assert(digits_value(d.subrange(0, i + 1 - start)) > u64::MAX) by (nonlinear_arith)
                        requires
                            value > (u64::MAX - digit) / 10,
                            digits_value(d.subrange(0, i + 1 - start)) == value * 10 + digit,
                            digit <= 9,
                    ;
                }
            }
            return None;
        }
        value = value * 10 + digit;
        i = i + 1;
    }
    assert(d.subrange(0, s.len() - start) == d);
    assert(all_digits(d));
    Some(value)
}

/// What `str::parse::<u32>` gives: a number as `parse_u64` reads it, if it
/// fits in 32 bits.
pub open spec fn parse_u32(s: Seq<char>) -> Option<u32> {
    match parse_u64(s) {
        Some(v) => if v <= u32::MAX {
            Some(v as u32)
        } else {
            None
        },
        None => None,
    }
}

/// Parses an unsigned decimal number as `str::parse::<u32>` does.
pub fn parse_u32_str(s: &str) -> (r: Option<u32>)
    ensures
        r == parse_u32(s@),
{
    match parse_u64_chars(&chars_of(s)) {
        Some(v) => if v <= 4294967295 {
            Some(v as u32)
        } else {
            None
        },
        None => None,
    }
}

} // verus!
