//! Decimal integers as `str::parse` reads them.

use crate::text::chars_of;
use vstd::prelude::*;

verus! {

/// An ASCII decimal digit.
pub open spec fn is_digit(c: char) -> bool {
    '0' <= c && c <= '9'
}

/// The value of a string of decimal digits.
pub open spec fn digits_value(s: Seq<char>) -> nat
    decreases s.len(),
{
    if s.len() == 0 {
        0
    } else {
        digits_value(s.drop_last()) * 10 + ((s.last() as u32) - ('0' as u32)) as nat
    }
}

/// Every character of `s` is a digit.
pub open spec fn all_digits(s: Seq<char>) -> bool {
    forall|i: int| 0 <= i < s.len() ==> is_digit(#[trigger] s[i])
}

/// `s` begins with a sign that the integer type accepts.
pub open spec fn has_sign(s: Seq<char>, signed: bool) -> bool {
    s.len() > 0 && (s[0] == '+' || (signed && s[0] == '-'))
}

/// `s` without its sign.
pub open spec fn unsigned_part(s: Seq<char>, signed: bool) -> Seq<char> {
    if has_sign(s, signed) {
        s.drop_first()
    } else {
        s
    }
}

/// The integer that `s` spells: an optional `+` (or, when `signed`, `-`)
/// followed by at least one ASCII digit; `None` for anything else.
pub open spec fn decimal_value(s: Seq<char>, signed: bool) -> Option<int> {
    let digits = unsigned_part(s, signed);
    if digits.len() == 0 || !all_digits(digits) {
        None
    } else if has_sign(s, signed) && s[0] == '-' {
        Some(-(digits_value(digits) as int))
    } else {
        Some(digits_value(digits) as int)
    }
}

/// What `str::parse` gives for an integer type whose values are `min..=max`
/// (signed when `min < 0`): the value `s` spells when it is in range.
pub open spec fn parse_integer(s: Seq<char>, min: int, max: int) -> Option<int> {
    match decimal_value(s, min < 0) {
        Some(v) => if min <= v <= max {
            Some(v)
        } else {
            None
        },
        None => None,
    }
}

proof fn lemma_digits_value_grows(s: Seq<char>, k: int)
    requires
        0 <= k <= s.len(),
        all_digits(s),
    ensures
        digits_value(s) >= digits_value(s.take(k)),
    decreases s.len() - k,
{
    if k < s.len() {
        lemma_digits_value_grows(s, k + 1);
        assert(s.take(k + 1).drop_last() =~= s.take(k));
    } else {
        assert(s.take(k) =~= s);
    }
}

/// The integer in `min..=max` that `s` spells, as `str::parse` reads it.
fn parse_in_range(s: &[char], min: i64, max: i64) -> (r: Option<i64>)
    requires
        min <= max,
    ensures
        match r {
            Some(v) => parse_integer(s@, min as int, max as int) == Some(v as int),
            None => parse_integer(s@, min as int, max as int) is None,
        },
{
    let n = s.len();
    let signed = min < 0;
    let signed_prefix = n > 0 && (s[0] == '+' || (signed && s[0] == '-'));
    let start: usize = if signed_prefix { 1 } else { 0 };
    let ghost digits = if signed_prefix { s@.drop_first() } else { s@ };
    assert(digits =~= s@.subrange(start as int, n as int));
    if start == n {
        return None;
    }
    let mut m: u64 = 0;
    let mut i: usize = start;
    while i < n
        invariant
            n == s@.len(),
            min <= max,
            signed == (min < 0),
            signed_prefix == has_sign(s@, signed),
            start == (if signed_prefix { 1usize } else { 0usize }),
            digits == unsigned_part(s@, signed),
            start <= i <= n,
            digits =~= s@.subrange(start as int, n as int),
            forall|k: int| 0 <= k < i - start ==> is_digit(#[trigger] digits[k]),
            m as nat == digits_value(digits.take(i - start)),
        decreases n - i,
    {
        let c = s[i];
        if !('0' <= c && c <= '9') {
            assert(!is_digit(digits[i - start]));
            return None;
        }
        let d = (c as u32 - '0' as u32) as u64;
        assert(digits.take(i - start + 1).drop_last() =~= digits.take(i - start));
        assert(digits.take(i - start + 1).last() == c);
        match m.checked_mul(10) {
            Some(m10) => match m10.checked_add(d) {
                Some(next) => {
                    m = next;
                },
                None => {
                    proof {
                        if all_digits(digits) {
                            lemma_digits_value_grows(digits, i - start + 1);
                        }
                    }
                    return None;
                },
            },
            None => {
                proof {
                    if all_digits(digits) {
                        lemma_digits_value_grows(digits, i - start + 1);
                    }
                }
                return None;
            },
        }
        i = i + 1;
    }
    assert(digits.take(n - start) =~= digits);
    let v: i128 = if signed_prefix && s[0] == '-' {
        -(m as i128)
    } else {
        m as i128
    };
    if (min as i128) <= v && v <= (max as i128) {
        Some(v as i64)
    } else {
        None
    }
}

/// What `s.parse::<i64>()` gives.
pub fn parse_i64(s: &str) -> (r: Option<i64>)
    ensures
        match r {
            Some(v) => parse_integer(s@, i64::MIN as int, i64::MAX as int) == Some(v as int),
            None => parse_integer(s@, i64::MIN as int, i64::MAX as int) is None,
        },
{
    let cs = chars_of(s);
    parse_in_range(cs.as_slice(), i64::MIN, i64::MAX)
}

/// What `s.parse::<u16>()` gives.
pub fn parse_u16(s: &str) -> (r: Option<u16>)
    ensures
        match r {
            Some(v) => parse_integer(s@, 0, u16::MAX as int) == Some(v as int),
            None => parse_integer(s@, 0, u16::MAX as int) is None,
        },
{
    let cs = chars_of(s);
    match parse_in_range(cs.as_slice(), 0, 65535) {
        Some(v) => Some(v as u16),
        None => None,
    }
}

} // verus!
