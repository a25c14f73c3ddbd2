//! Readings written as `[-]d.d` or `[-]dd.d`, held as whole tenths.

use vstd::prelude::*;

verus! {

/// The largest magnitude a reading can have, in tenths.
pub const MAX_TENTHS: i32 = 999;

pub const ZERO: u8 = 48;

pub const NINE: u8 = 57;

pub const DOT: u8 = 46;

pub const MINUS: u8 = 45;

pub open spec fn is_digit(b: u8) -> bool {
    ZERO <= b && b <= NINE
}

pub open spec fn digit_value(b: u8) -> int {
    b - ZERO
}

/// The magnitude, in tenths, of `d.d` or `dd.d`.
pub open spec fn magnitude_spec(s: Seq<u8>) -> Option<int> {
    if s.len() == 3 && is_digit(s[0]) && s[1] == DOT && is_digit(s[2]) {
        Some(10 * digit_value(s[0]) + digit_value(s[2]))
    } else if s.len() == 4 && is_digit(s[0]) && is_digit(s[1]) && s[2] == DOT && is_digit(
        s[3],
    ) {
        Some(100 * digit_value(s[0]) + 10 * digit_value(s[1]) + digit_value(s[3]))
    } else {
        None
    }
}

/// The reading, in tenths, that `s` writes, if it has the accepted shape.
pub open spec fn value_spec(s: Seq<u8>) -> Option<int> {
    if s.len() > 0 && s[0] == MINUS {
        match magnitude_spec(s.drop_first()) {
            Some(m) => Some(-m),
            None => None,
        }
    } else {
        magnitude_spec(s)
    }
}

pub proof fn lemma_value_bounded(s: Seq<u8>)
    ensures
        value_spec(s) matches Some(v) ==> -MAX_TENTHS <= v <= MAX_TENTHS,
{
}

/// The value of one decimal digit.
pub fn to_digit(c: u8) -> (r: Option<i32>)
    ensures
        r == (if is_digit(c) { Some(digit_value(c) as i32) } else { None::<i32> }),
{
    if ZERO <= c && c <= NINE {
        Some((c - ZERO) as i32)
    } else {
        None
    }
}

/// Parses a reading of the shape `[-]d.d` or `[-]dd.d` into tenths.
pub fn parse_tenths(s: &[u8]) -> (r: Option<i32>)
    ensures
        r matches Some(v) ==> value_spec(s@) == Some(v as int),
        r is None ==> value_spec(s@) is None,
{
    let negative = s.len() > 0 && s[0] == MINUS;
    let body = if negative {
        vstd::slice::slice_subrange(s, 1, s.len())
    } else {
        s
    };
    proof {
        if negative {
            assert(body@ =~= s@.drop_first());
        }
    }
    let magnitude: i32 = if body.len() == 3 {
        if body[1] != DOT {
            return None;
        }
        let x = match to_digit(body[0]) {
            Some(d) => d,
            None => return None,
        };
        let y = match to_digit(body[2]) {
            Some(d) => d,
            None => return None,
        };
        10 * x + y
    } else if body.len() == 4 {
        if body[2] != DOT {
            return None;
        }
        let a = match to_digit(body[0]) {
            Some(d) => d,
            None => return None,
        };
        let b = match to_digit(body[1]) {
            Some(d) => d,
            None => return None,
        };
        let c = match to_digit(body[3]) {
            Some(d) => d,
            None => return None,
        };
        100 * a + 10 * b + c
    } else {
        return None;
    };
    if negative {
        Some(-magnitude)
    } else {
        Some(magnitude)
    }
}

} // verus!
