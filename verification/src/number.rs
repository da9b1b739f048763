//! Decimal numbers in directive values.
use vstd::prelude::*;

verus! {

/// Why a text is not a `u32`.
#[derive(Debug, Clone, Copy, PartialEq, Eq)]
pub enum IntErrorKind {
    /// The text is empty.
    Empty,
    /// The text holds a character that is not a decimal digit.
    InvalidDigit,
    /// The number is larger than `u32::MAX`.
    PosOverflow,
}

pub open spec fn is_digit(c: char) -> bool {
    '0' <= c && c <= '9'
}

pub open spec fn digit_value(c: char) -> int {
    (c as int) - ('0' as int)
}

/// Reads the digits of `d` after the value `acc`, left to right.
pub open spec fn accumulate_digits(d: Seq<char>, acc: int) -> Result<u32, IntErrorKind>
    decreases d.len(),
{
    if d.len() == 0 {
        Ok(acc as u32)
    } else if !is_digit(d[0]) {
        Err(IntErrorKind::InvalidDigit)
    } else {
        let n: int = acc * 10 + digit_value(d[0]);
        if n > u32::MAX {
            Err(IntErrorKind::PosOverflow)
        } else {
            accumulate_digits(d.skip(1), n)
        }
    }
}

/// An unsigned decimal number: an optional `+`, then digits.
pub open spec fn parse_u32(s: Seq<char>) -> Result<u32, IntErrorKind> {
    if s.len() == 0 {
        Err(IntErrorKind::Empty)
    } else if s[0] == '+' {
        if s.len() == 1 {
            Err(IntErrorKind::InvalidDigit)
        } else {
            accumulate_digits(s.skip(1), 0)
        }
    } else {
        accumulate_digits(s, 0)
    }
}

/// Parses `s` as an unsigned decimal `u32`.
pub fn parse_u32_chars(s: &Vec<char>) -> (r: Result<u32, IntErrorKind>)
    ensures
        r == parse_u32(s@),
{
    if s.len() == 0 {
        return Err(IntErrorKind::Empty);
    }
    let mut i: usize = 0;
    if s[0] == '+' {
        if s.len() == 1 {
            return Err(IntErrorKind::InvalidDigit);
        }
        i = 1;
    }
    let ghost digits = s@.skip(i as int);
    let mut acc: u32 = 0;
    while i < s.len()
        invariant
            1 <= s.len(),
            i <= s.len(),
            digits == (if s@[0] == '+' { s@.skip(1) } else { s@ }),
            accumulate_digits(s@.skip(i as int), acc as int) == accumulate_digits(digits, 0),
        decreases s.len() - i,
    {
        let c = s[i];
        assert(s@.skip(i as int)[0] == c);
        if !('0' <= c && c <= '9') {
            return Err(IntErrorKind::InvalidDigit);
        }
        let d: u32 = (c as u32) - ('0' as u32);
        assert(d == digit_value(c));
        if acc > 429496729 || (acc == 429496729 && d > 5) {
            return Err(IntErrorKind::PosOverflow);
        }
        assert(s@.skip(i as int).skip(1) =~= s@.skip(i + 1));
        acc = acc * 10 + d;
        i += 1;
    }
    assert(s@.skip(i as int).len() == 0);
    Ok(acc)
}

} // verus!
