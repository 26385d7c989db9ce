//! Fixed-point value decoding.
//!
//! A value is text of the form `'-'? digit{1,2} '.' digit`: an optional
//! minus sign, one or two integer digits, a decimal point, and exactly one
//! fractional digit. It is decoded, without floating point, into a signed
//! integer of tenths of a unit ("23.4" becomes 234, "-5.0" becomes -50).

use vstd::prelude::*;

verus! {

/// ASCII codes for the bytes the grammar mentions.
pub const B0: u8 = 48;

pub const B9: u8 = 57;

pub const BDOT: u8 = 46;

pub const BMINUS: u8 = 45;

/// The byte is an ASCII decimal digit.
pub open spec fn is_ascii_digit(b: u8) -> bool {
    B0 <= b <= B9
}

/// Numeric value of an ASCII digit byte.
pub open spec fn digit_val(b: u8) -> int {
    b - B0
}

/// The slice matches the value grammar `'-'? digit{1,2} '.' digit`.
pub open spec fn is_valid_value(s: Seq<u8>) -> bool {
    ||| (s.len() == 3 && is_ascii_digit(s[0]) && s[1] == BDOT && is_ascii_digit(s[2]))
    ||| (s.len() == 4 && is_ascii_digit(s[0]) && is_ascii_digit(s[1]) && s[2] == BDOT
        && is_ascii_digit(s[3]))
    ||| (s.len() == 4 && s[0] == BMINUS && is_ascii_digit(s[1]) && s[2] == BDOT
        && is_ascii_digit(s[3]))
    ||| (s.len() == 5 && s[0] == BMINUS && is_ascii_digit(s[1]) && is_ascii_digit(s[2])
        && s[3] == BDOT && is_ascii_digit(s[4]))
}

/// The value in tenths denoted by a slice matching the grammar.
pub open spec fn decoded_value(s: Seq<u8>) -> int {
    if s.len() == 3 {
        digit_val(s[0]) * 10 + digit_val(s[2])
    } else if s.len() == 4 && s[0] == BMINUS {
        -(digit_val(s[1]) * 10 + digit_val(s[3]))
    } else if s.len() == 4 {
        digit_val(s[0]) * 100 + digit_val(s[1]) * 10 + digit_val(s[3])
    } else {
        -(digit_val(s[1]) * 100 + digit_val(s[2]) * 10 + digit_val(s[4]))
    }
}

/// A valid value's magnitude is below 100.0, so below 1000 tenths.
pub proof fn lemma_decoded_value_bounds(s: Seq<u8>)
    requires
        is_valid_value(s),
    ensures
        -999 <= decoded_value(s) <= 999,
{
}

/// The slice did not match the value grammar.
#[derive(Clone, Copy, PartialEq, Eq, Structural, Debug)]
pub struct FormatViolation;

/// Decodes a value slice into tenths of a unit, or reports a violation of
/// the value grammar.
pub fn decode_value(s: &[u8]) -> (r: Result<i16, FormatViolation>)
    ensures
        match r {
            Ok(v) => is_valid_value(s@) && v as int == decoded_value(s@),
            Err(_) => !is_valid_value(s@),
        },
{
    let n = s.len();
    if n == 3 {
        let d0 = s[0];
        let d1 = s[1];
        let d2 = s[2];
        if B0 <= d0 && d0 <= B9 && d1 == BDOT && B0 <= d2 && d2 <= B9 {
            Ok(((d0 - B0) as i16) * 10 + ((d2 - B0) as i16))
        } else {
            Err(FormatViolation)
        }
    } else if n == 4 {
        let d0 = s[0];
        let d1 = s[1];
        let d2 = s[2];
        let d3 = s[3];
        if d0 == BMINUS {
            if B0 <= d1 && d1 <= B9 && d2 == BDOT && B0 <= d3 && d3 <= B9 {
                Ok(-(((d1 - B0) as i16) * 10 + ((d3 - B0) as i16)))
            } else {
                Err(FormatViolation)
            }
        } else {
            if B0 <= d0 && d0 <= B9 && B0 <= d1 && d1 <= B9 && d2 == BDOT
                && B0 <= d3 && d3 <= B9 {
                Ok(((d0 - B0) as i16) * 100 + ((d1 - B0) as i16) * 10 + ((d3 - B0) as i16))
            } else {
                Err(FormatViolation)
            }
        }
    } else if n == 5 {
        let d0 = s[0];
        let d1 = s[1];
        let d2 = s[2];
        let d3 = s[3];
        let d4 = s[4];
        if d0 == BMINUS && B0 <= d1 && d1 <= B9 && B0 <= d2 && d2 <= B9 && d3 == BDOT
            && B0 <= d4 && d4 <= B9 {
            Ok(-(((d1 - B0) as i16) * 100 + ((d2 - B0) as i16) * 10 + ((d4 - B0) as i16)))
        } else {
            Err(FormatViolation)
        }
    } else {
        Err(FormatViolation)
    }
}

} // verus!
