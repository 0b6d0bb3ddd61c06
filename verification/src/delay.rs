use vstd::prelude::*;

use crate::errors::SplitError;
use crate::scan::{digit_run_end, digits_end, digits_val, lemma_digits_end, parse_digits_u64};

verus! {

/// A delay note at `i` in the audio file name: `DELAY `, an optionally
/// negative number, then `ms`.  Yields the sign and the magnitude.
pub open spec fn delay_match_at(t: Seq<u8>, i: nat) -> Option<(bool, nat)> {
    if i + 6 <= t.len() && t[i as int] == 68 && t[i as int + 1] == 69 && t[i as int + 2] == 76 && t[
        i as int + 3
    ] == 65 && t[i as int + 4] == 89 && t[i as int + 5] == 32 {
        let p = (i + 6) as nat;
        let neg = p < t.len() && t[p as int] == 45;
        let q = if neg {
            p + 1
        } else {
            p
        };
        let d = digits_end(t, q);
        if d > q && d + 2 <= t.len() && t[d as int] == 109 && t[d as int + 1] == 115 {
            Some((neg, digits_val(t, q, d)))
        } else {
            None
        }
    } else {
        None
    }
}

/// The first delay note in `t` at or after `i`.
pub open spec fn first_delay(t: Seq<u8>, i: nat) -> Option<(bool, nat)>
    decreases t.len() - i,
{
    if i >= t.len() {
        None
    } else {
        match delay_match_at(t, i) {
            Some(m) => Some(m),
            None => first_delay(t, i + 1),
        }
    }
}

/// The delay in milliseconds the audio file name asks for: the first delay
/// note's signed value, or zero when the name carries none.
pub open spec fn delay_value(t: Seq<u8>) -> int {
    match first_delay(t, 0) {
        Some(m) => if m.0 {
            -(m.1 as int)
        } else {
            m.1 as int
        },
        None => 0,
    }
}

/// How one attempt to read a delay note at a fixed position came out.
enum DelayHit {
    Miss,
    Found(i64),
    Oversized,
}

fn try_delay_match(t: &Vec<u8>, i: usize) -> (r: DelayHit)
    requires
        i < t.len(),
    ensures
        match delay_match_at(t@, i as nat) {
            Some(m) => {
                let v: int = if m.0 {
                    -(m.1 as int)
                } else {
                    m.1 as int
                };
                if i64::MIN <= v <= i64::MAX {
                    r == DelayHit::Found(v as i64)
                } else {
                    r == DelayHit::Oversized
                }
            },
            None => r == DelayHit::Miss,
        },
{
    if t.len() - i < 6 {
        return DelayHit::Miss;
    }
    if !(t[i] == 68 && t[i + 1] == 69 && t[i + 2] == 76 && t[i + 3] == 65 && t[i + 4] == 89 && t[i
        + 5] == 32) {
        return DelayHit::Miss;
    }
    let p = i + 6;
    let neg = p < t.len() && t[p] == 45;
    let q = if neg {
        p + 1
    } else {
        p
    };
    proof {
        lemma_digits_end(t@, q as nat);
    }
    let d = digit_run_end(t, q);
    if !(d > q && t.len() - d >= 2 && t[d] == 109 && t[d + 1] == 115) {
        return DelayHit::Miss;
    }
    match parse_digits_u64(t, q, d) {
        None => DelayHit::Oversized,
        Some(mag) => {
            if neg {
                if mag <= 9223372036854775807u64 {
                    DelayHit::Found(-(mag as i64))
                } else if mag == 9223372036854775808u64 {
                    DelayHit::Found(i64::MIN)
                } else {
                    DelayHit::Oversized
                }
            } else {
                if mag <= 9223372036854775807u64 {
                    DelayHit::Found(mag as i64)
                } else {
                    DelayHit::Oversized
                }
            }
        },
    }
}

/// Reads the delay from the audio file name: the value of its first delay
/// note, or zero when there is none; fails exactly when that value does not
/// fit a signed 64-bit millisecond count.
pub fn parse_delay(name: &Vec<u8>) -> (r: Result<i64, SplitError>)
    ensures
        match r {
            Ok(d) => i64::MIN <= delay_value(name@) <= i64::MAX && d as int == delay_value(name@),
            Err(e) => e == SplitError::DelayTooLarge && !(i64::MIN <= delay_value(name@)
                <= i64::MAX),
        },
{
    let mut i: usize = 0;
    while i < name.len()
        invariant
            i <= name.len(),
            first_delay(name@, 0) == first_delay(name@, i as nat),
        decreases name.len() - i,
    {
        match try_delay_match(name, i) {
            DelayHit::Miss => {
                i = i + 1;
            },
            DelayHit::Found(v) => {
                return Ok(v);
            },
            DelayHit::Oversized => {
                return Err(SplitError::DelayTooLarge);
            },
        }
    }
    Ok(0)
}

} // verus!
