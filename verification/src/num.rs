//! Decimal conversion of array length literals to unsigned 64-bit values.

use vstd::prelude::*;
use vstd::slice::slice_index_get;

use crate::NumParseErrorKind;
use crate::tokenize::{DIGIT_ZERO, DIGIT_NINE, is_digit_byte};

verus! {

/// Outcome of converting the bytes of `s` from position `i` on, with the
/// value `acc` already accumulated: digits are taken left to right, the
/// first non-digit byte fails at once, and so does a step that would carry
/// the value past `u64::MAX`.
pub open spec fn spec_parse_u64_from(s: Seq<u8>, i: int, acc: u64) -> Result<
    u64,
    NumParseErrorKind,
>
    decreases s.len() - i,
{
    if i < 0 || i >= s.len() {
        Ok(acc)
    } else if !is_digit_byte(s[i]) {
        Err(NumParseErrorKind::InvalidDigit)
    } else if acc * 10 + (s[i] - DIGIT_ZERO) > u64::MAX {
        Err(NumParseErrorKind::PosOverflow)
    } else {
        spec_parse_u64_from(s, i + 1, (acc * 10 + (s[i] - DIGIT_ZERO)) as u64)
    }
}

/// Outcome of converting all bytes of `s` as a decimal literal.
pub open spec fn spec_parse_u64(s: Seq<u8>) -> Result<u64, NumParseErrorKind> {
    spec_parse_u64_from(s, 0, 0)
}

/// Convert the text of a numeric literal to an unsigned 64-bit value,
/// failing on the first byte that is not a decimal digit and on values
/// that do not fit.
pub fn parse_u64(s: &[u8]) -> (r: Result<u64, NumParseErrorKind>)
    ensures
        r == spec_parse_u64(s@),
{
    let n = s.len();
    let mut acc: u64 = 0;
    let mut i: usize = 0;
    while i < n
        invariant
            i <= n,
            n == s@.len(),
            spec_parse_u64_from(s@, i as int, acc) == spec_parse_u64(s@),
        decreases n - i,
    {
        let b = *slice_index_get(s, i);
        if b < DIGIT_ZERO || b > DIGIT_NINE {
            return Err(NumParseErrorKind::InvalidDigit);
        }
        let d = (b - DIGIT_ZERO) as u64;
        match acc.checked_mul(10) {
            Some(shifted) => match shifted.checked_add(d) {
                Some(next) => {
                    acc = next;
                    i = i + 1;
                },
                None => {
                    return Err(NumParseErrorKind::PosOverflow);
                },
            },
            None => {
                return Err(NumParseErrorKind::PosOverflow);
            },
        }
    }
    Ok(acc)
}

} // verus!
