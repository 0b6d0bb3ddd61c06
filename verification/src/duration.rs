use vstd::prelude::*;

use crate::scan::{digit_run_end, digits_end, digits_val, is_digit, parse_digits_u64};
use crate::timecode::Fps;

verus! {

/// Ten to the `k`.
pub open spec fn pow10(k: nat) -> nat
    decreases k,
{
    if k == 0 {
        1
    } else {
        10 * pow10((k - 1) as nat)
    }
}

/// A run of `j - i` digit bytes writes a number below ten to that power.
pub proof fn lemma_digits_val_upper(t: Seq<u8>, i: nat, j: nat)
    requires
        i <= j,
        forall|k: int| i <= k < j ==> is_digit(#[trigger] t[k]),
    ensures
        digits_val(t, i, j) < pow10((j - i) as nat),
    decreases j - i,
{
    if i < j {
        lemma_digits_val_upper(t, i, (j - 1) as nat);
        assert(digits_val(t, i, (j - 1) as nat) * 10 + 9 < pow10((j - i) as nat)) by (nonlinear_arith)
            requires
                digits_val(t, i, (j - 1) as nat) < pow10((j - i - 1) as nat),
                pow10((j - i) as nat) == 10 * pow10((j - i - 1) as nat),
        ;
    }
}

/// A probed duration as the decimal the probe printed: digits, optionally a
/// point and more digits, nothing else.  Yields the whole-number part, the
/// fractional digits' value, and how many fractional digits there are.
pub open spec fn duration_parse(t: Seq<u8>) -> Option<(nat, nat, nat)> {
    let d1 = digits_end(t, 0);
    if d1 == t.len() {
        if d1 > 0 {
            Some((digits_val(t, 0, d1), 0, 0))
        } else {
            None
        }
    } else if t[d1 as int] == 46 {
        let d2 = digits_end(t, d1 + 1);
        if d2 == t.len() && (d1 > 0 || d2 > d1 + 1) {
            Some((digits_val(t, 0, d1), digits_val(t, d1 + 1, d2), (d2 - (d1 + 1)) as nat))
        } else {
            None
        }
    } else {
        None
    }
}

/// The frame count a duration of `iv + fv / 10^k` seconds spans under `fps`,
/// truncated: the duration times `num / den` whole frames.
pub open spec fn frames_of_duration(iv: nat, fv: nat, k: nat, fps: Fps) -> nat
    recommends
        fps.wf(),
{
    ((iv * pow10(k) + fv) * (fps.num as nat)) / (pow10(k) * (fps.den as nat))
}

fn pow10_u64(k: usize) -> (p: u64)
    requires
        k <= 18,
    ensures
        p as nat == pow10(k as nat),
        p >= 1,
{
    let mut p: u64 = 1;
    let mut j: usize = 0;
    while j < k
        invariant
            j <= k <= 18,
            p as nat == pow10(j as nat),
            p >= 1,
        decreases k - j,
    {
        proof {
            lemma_pow10_increases(j as nat, 18);
            lemma_pow10_values();
        }
        p = p * 10;
        j = j + 1;
    }
    p
}

proof fn lemma_pow10_increases(a: nat, b: nat)
    requires
        a < b,
    ensures
        pow10(a) < pow10(b),
    decreases b,
{
    lemma_pow10_at_least_one(a);
    if a + 1 < b {
        lemma_pow10_increases(a, (b - 1) as nat);
    }
}

/// Turns the probe's decimal duration into a total frame count: the number
/// of whole frames the duration spans under `fps`.  Refused are text that is
/// not a plain decimal, more than 18 fractional digits, a combined decimal
/// value beyond the frame word, and a frame count beyond the frame word.
pub fn total_frames_from_duration(dur: &Vec<u8>, fps: Fps) -> (r: Option<u64>)
    requires
        fps.wf(),
    ensures
        match r {
            Some(total) => match duration_parse(dur@) {
                Some(m) => m.2 <= 18 && m.0 * pow10(m.2) + m.1 <= u64::MAX && total as nat
                    == frames_of_duration(m.0, m.1, m.2, fps) && frames_of_duration(
                    m.0,
                    m.1,
                    m.2,
                    fps,
                ) <= u64::MAX,
                None => false,
            },
            None => match duration_parse(dur@) {
                Some(m) => m.2 > 18 || m.0 * pow10(m.2) + m.1 > u64::MAX || frames_of_duration(
                    m.0,
                    m.1,
                    m.2,
                    fps,
                ) > u64::MAX,
                None => true,
            },
        },
{
    proof {
        crate::scan::lemma_digits_end(dur@, 0);
    }
    let d1 = digit_run_end(dur, 0);
    let (iv, fv, k): (u64, u64, usize) = if d1 == dur.len() {
        if d1 == 0 {
            return None;
        }
        match parse_digits_u64(dur, 0, d1) {
            Some(v) => (v, 0, 0),
            None => {
                proof {
                    lemma_value_dominates(digits_val(dur@, 0, d1 as nat), 0, 0);
                }
                return None;
            },
        }
    } else if dur[d1] == 46 {
        proof {
            crate::scan::lemma_digits_end(dur@, d1 as nat + 1);
        }
        let d2 = digit_run_end(dur, d1 + 1);
        if !(d2 == dur.len() && (d1 > 0 || d2 > d1 + 1)) {
            return None;
        }
        let k = d2 - (d1 + 1);
        if k > 18 {
            return None;
        }
        proof {
            lemma_digits_val_upper(dur@, d1 as nat + 1, d2 as nat);
            if (k as nat) < 19 {
                lemma_pow10_increases(k as nat, 19);
            }
            lemma_pow10_values();
        }
        let fv = match parse_digits_u64(dur, d1 + 1, d2) {
            Some(v) => v,
            None => {
                proof {
                    assert(false);
                }
                return None;
            },
        };
        match parse_digits_u64(dur, 0, d1) {
            Some(v) => (v, fv, k),
            None => {
                proof {
                    lemma_value_dominates(
                        digits_val(dur@, 0, d1 as nat),
                        digits_val(dur@, d1 as nat + 1, d2 as nat),
                        k as nat,
                    );
                }
                return None;
            },
        }
    } else {
        return None;
    };
    let p: u64 = pow10_u64(k);
    proof {
        lemma_pow10_values();
        if (k as nat) < 19 {
            lemma_pow10_increases(k as nat, 19);
        }
        assert((iv as nat) * (p as nat) <= (u64::MAX as nat) * 10000000000000000000)
            by (nonlinear_arith)
            requires
                iv <= u64::MAX,
                (p as nat) <= 10000000000000000000,
        ;
    }
    let v: u128 = (iv as u128) * (p as u128) + (fv as u128);
    if v > u64::MAX as u128 {
        return None;
    }
    proof {
        assert((v as nat) * (fps.num as nat) <= (u64::MAX as nat) * (u32::MAX as nat))
            by (nonlinear_arith)
            requires
                (v as nat) <= u64::MAX as nat,
                fps.num <= u32::MAX,
        ;
        assert((p as nat) * (fps.den as nat) <= (u64::MAX as nat) * (u32::MAX as nat))
            by (nonlinear_arith)
            requires
                p <= u64::MAX,
                fps.den <= u32::MAX,
        ;
        assert((p as nat) * (fps.den as nat) >= 1) by (nonlinear_arith)
            requires
                p >= 1,
                fps.den >= 1,
        ;
    }
    let total: u128 = (v * (fps.num as u128)) / ((p as u128) * (fps.den as u128));
    if total > u64::MAX as u128 {
        return None;
    }
    Some(total as u64)
}

/// The combined decimal value is at least the whole-number part.
proof fn lemma_value_dominates(iv: nat, fv: nat, k: nat)
    ensures
        iv * pow10(k) + fv >= iv,
{
    lemma_pow10_at_least_one(k);
    assert(iv * pow10(k) + fv >= iv) by (nonlinear_arith)
        requires
            pow10(k) >= 1,
    ;
}

/// The concrete powers of ten the bounds above lean on.
proof fn lemma_pow10_values()
    ensures
        pow10(18) == 1000000000000000000,
        pow10(19) == 10000000000000000000,
{
    reveal_with_fuel(pow10, 21);
}

proof fn lemma_pow10_at_least_one(k: nat)
    ensures
        pow10(k) >= 1,
    decreases k,
{
    if k > 0 {
        lemma_pow10_at_least_one((k - 1) as nat);
    }
}

} // verus!
