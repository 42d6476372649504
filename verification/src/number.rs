//! Decimal integer text to integer, with the acceptance rules and error
//! kinds of the standard library's integer parsing (`str::parse`).

use vstd::prelude::*;

verus! {

/// Why integer text was rejected.
#[derive(Debug, Clone, Copy, PartialEq, Eq)]
pub enum IntErrorKind {
    /// The text is empty.
    Empty,
    /// The text holds a byte that is not a digit where a digit must be.
    InvalidDigit,
    /// The value is above the target type's maximum.
    PosOverflow,
    /// The value is below the target type's minimum.
    NegOverflow,
}

/// The standard library's message for each kind of integer parse error.
pub open spec fn int_error_text(k: IntErrorKind) -> Seq<char> {
    match k {
        IntErrorKind::Empty => "cannot parse integer from empty string"@,
        IntErrorKind::InvalidDigit => "invalid digit found in string"@,
        IntErrorKind::PosOverflow => "number too large to fit in target type"@,
        IntErrorKind::NegOverflow => "number too small to fit in target type"@,
    }
}

/// An ASCII decimal digit.
pub open spec fn is_digit(b: u8) -> bool {
    0x30 <= b <= 0x39
}

/// Reads the digits `s[i..]` into `acc` from left to right, adding each
/// digit (or subtracting it, for a negative value) after multiplying by 10,
/// and failing at the first non-digit or the first step out of `[lo, hi]`.
pub open spec fn accumulate(s: Seq<u8>, i: int, acc: int, neg: bool, lo: int, hi: int) -> Result<int, IntErrorKind>
    decreases s.len() - i,
{
    if i >= s.len() {
        Ok(acc)
    } else if !is_digit(s[i]) {
        Err(IntErrorKind::InvalidDigit)
    } else {
        let d = s[i] - 0x30;
        let next = if neg {
            acc * 10 - d
        } else {
            acc * 10 + d
        };
        if next < lo {
            Err(IntErrorKind::NegOverflow)
        } else if next > hi {
            Err(IntErrorKind::PosOverflow)
        } else {
            accumulate(s, i + 1, next, neg, lo, hi)
        }
    }
}

/// Integer text to a value in `[lo, hi]`: an optional `+` (or `-` when
/// `signed`) and then decimal digits.
pub open spec fn parse_int_spec(s: Seq<u8>, signed: bool, lo: int, hi: int) -> Result<int, IntErrorKind> {
    if s.len() == 0 {
        Err(IntErrorKind::Empty)
    } else if s.len() == 1 && (s[0] == 0x2B || s[0] == 0x2D) {
        Err(IntErrorKind::InvalidDigit)
    } else if s[0] == 0x2B {
        accumulate(s, 1, 0, false, lo, hi)
    } else if s[0] == 0x2D && signed {
        accumulate(s, 1, 0, true, lo, hi)
    } else {
        accumulate(s, 0, 0, false, lo, hi)
    }
}

/// Parses integer text into a value in `[lo, hi]` (see [`parse_int_spec`]).
pub fn parse_int(s: &[u8], signed: bool, lo: i128, hi: i128) -> (r: Result<i128, IntErrorKind>)
    requires
        -0x1_0000_0000_0000_0000 <= lo <= 0 <= hi <= 0x1_0000_0000_0000_0000,
    ensures
        match r {
            Ok(v) => parse_int_spec(s@, signed, lo as int, hi as int) == Ok::<int, IntErrorKind>(
                v as int,
            ) && lo <= v <= hi,
            Err(k) => parse_int_spec(s@, signed, lo as int, hi as int) == Err::<int, IntErrorKind>(k),
        },
{
    let len = s.len();
    if len == 0 {
        return Err(IntErrorKind::Empty);
    }
    if len == 1 && (s[0] == 0x2B || s[0] == 0x2D) {
        return Err(IntErrorKind::InvalidDigit);
    }
    let (start, neg): (usize, bool) = if s[0] == 0x2B {
        (1, false)
    } else if s[0] == 0x2D && signed {
        (1, true)
    } else {
        (0, false)
    };
    let mut acc: i128 = 0;
    let mut i: usize = start;
    while i < len
        invariant
            start <= i <= len,
            len == s@.len(),
            lo <= acc <= hi,
            -0x1_0000_0000_0000_0000 <= lo <= 0 <= hi <= 0x1_0000_0000_0000_0000,
            parse_int_spec(s@, signed, lo as int, hi as int) == accumulate(
                s@,
                i as int,
                acc as int,
                neg,
                lo as int,
                hi as int,
            ),
        decreases len - i,
    {
        let b = s[i];
        if b < 0x30 || b > 0x39 {
            return Err(IntErrorKind::InvalidDigit);
        }
        let d = (b - 0x30) as i128;
        let next = if neg {
            acc * 10 - d
        } else {
            acc * 10 + d
        };
        if next < lo {
            return Err(IntErrorKind::NegOverflow);
        }
        if next > hi {
            return Err(IntErrorKind::PosOverflow);
        }
        acc = next;
        i = i + 1;
    }
    Ok(acc)
}

} // verus!
