use vstd::prelude::*;

use crate::errors::SplitError;
use crate::scan::{
    digit_run_end, digits_end, digits_val, lemma_digits_end, lemma_word_end, parse_digits_u64,
    word_end, word_run_end,
};

verus! {

/// The position after one optional space byte at `i`, as the patterns' `" ?"`.
pub open spec fn skip_space(t: Seq<u8>, i: nat) -> nat {
    if i < t.len() && t[i as int] == 32 {
        i + 1
    } else {
        i
    }
}

/// Two comma-separated frame numbers and a closing parenthesis starting at
/// `p`: digits, a comma, an optional space, digits, then `)`.  Yields the
/// position past the parenthesis and the two numbers.
pub open spec fn two_nums_at(t: Seq<u8>, p: nat) -> Option<(nat, nat, nat)> {
    let d1 = digits_end(t, p);
    if d1 > p && d1 < t.len() && t[d1 as int] == 44 {
        let q = skip_space(t, d1 + 1);
        let d2 = digits_end(t, q);
        if d2 > q && d2 < t.len() && t[d2 as int] == 41 {
            Some(((d2 + 1) as nat, digits_val(t, p, d1), digits_val(t, q, d2)))
        } else {
            None
        }
    } else {
        None
    }
}

/// A whole trim call at `i`: `trim(` or `Trim(`, an optional identifier
/// argument, then the start and end frame numbers.  The identifier reading is
/// preferred: a word run followed by a comma and an optional space, and both
/// numbers after it; only when that reading fails is the text after the
/// parenthesis read as the two numbers alone.
pub open spec fn trim_match_at(t: Seq<u8>, i: nat) -> Option<(nat, nat, nat)> {
    if i + 5 <= t.len() && (t[i as int] == 116 || t[i as int] == 84) && t[i as int + 1] == 114 && t[
        i as int + 2
    ] == 105 && t[i as int + 3] == 109 && t[i as int + 4] == 40 {
        let p = (i + 5) as nat;
        let w = word_end(t, p);
        let with_id = if w > p && w < t.len() && t[w as int] == 44 {
            two_nums_at(t, skip_space(t, w + 1))
        } else {
            None
        };
        if with_id is Some {
            with_id
        } else {
            two_nums_at(t, p)
        }
    } else {
        None
    }
}

/// The frame numbers contributed by every trim call in `t` from `i` on, in
/// text order, the start and end of each call both included.  Matches do not
/// overlap: the scan resumes past each one.
pub open spec fn trim_frames(t: Seq<u8>, i: nat) -> Seq<nat>
    decreases t.len() - i,
{
    if i >= t.len() {
        Seq::empty()
    } else {
        match trim_match_at(t, i) {
            Some(m) => seq![m.1, m.2] + trim_frames(
                t,
                if i < m.0 <= t.len() {
                    m.0
                } else {
                    i + 1
                },
            ),
            None => trim_frames(t, i + 1),
        }
    }
}

/// Every frame number a trim scan of `t` yields fits the frame word.
pub open spec fn trim_scan_fits(t: Seq<u8>) -> bool {
    forall|k: int| 0 <= k < trim_frames(t, 0).len() ==> #[trigger] trim_frames(t, 0)[k] <= u64::MAX
}

pub proof fn lemma_two_nums_bounds(t: Seq<u8>, p: nat, end: nat, a: nat, b: nat)
    requires
        two_nums_at(t, p) == Some((end, a, b)),
    ensures
        p + 3 < end <= t.len(),
{
    lemma_digits_end(t, p);
    let d1 = digits_end(t, p);
    lemma_digits_end(t, skip_space(t, d1 + 1));
}

pub proof fn lemma_trim_match_bounds(t: Seq<u8>, i: nat, end: nat, a: nat, b: nat)
    requires
        trim_match_at(t, i) == Some((end, a, b)),
    ensures
        i + 8 < end <= t.len(),
{
    let p = (i + 5) as nat;
    let w = word_end(t, p);
    lemma_word_end(t, p);
    if w > p && w < t.len() && t[w as int] == 44 && two_nums_at(t, skip_space(t, w + 1)) is Some {
        lemma_two_nums_bounds(t, skip_space(t, w + 1), end, a, b);
    } else {
        lemma_two_nums_bounds(t, p, end, a, b);
    }
}

/// How one attempt to read a pattern at a fixed position came out.
enum Hit {
    Miss,
    Pair(usize, u64, u64),
    Oversized,
}

fn try_two_nums(t: &Vec<u8>, p: usize) -> (r: Hit)
    requires
        p <= t.len(),
    ensures
        match two_nums_at(t@, p as nat) {
            Some(m) => if m.1 <= u64::MAX && m.2 <= u64::MAX {
                r == Hit::Pair(m.0 as usize, m.1 as u64, m.2 as u64)
            } else {
                r == Hit::Oversized
            },
            None => r == Hit::Miss,
        },
{
    proof {
        lemma_digits_end(t@, p as nat);
    }
    let d1 = digit_run_end(t, p);
    if !(d1 > p && d1 < t.len() && t[d1] == 44) {
        return Hit::Miss;
    }
    let q = if d1 + 1 < t.len() && t[d1 + 1] == 32 {
        d1 + 2
    } else {
        d1 + 1
    };
    proof {
        lemma_digits_end(t@, q as nat);
    }
    let d2 = digit_run_end(t, q);
    if !(d2 > q && d2 < t.len() && t[d2] == 41) {
        return Hit::Miss;
    }
    let a = parse_digits_u64(t, p, d1);
    let b = parse_digits_u64(t, q, d2);
    match (a, b) {
        (Some(av), Some(bv)) => Hit::Pair(d2 + 1, av, bv),
        _ => Hit::Oversized,
    }
}

fn try_trim_match(t: &Vec<u8>, i: usize) -> (r: Hit)
    requires
        i < t.len(),
    ensures
        match trim_match_at(t@, i as nat) {
            Some(m) => if m.1 <= u64::MAX && m.2 <= u64::MAX {
                r == Hit::Pair(m.0 as usize, m.1 as u64, m.2 as u64)
            } else {
                r == Hit::Oversized
            },
            None => r == Hit::Miss,
        },
{
    if t.len() - i < 5 {
        return Hit::Miss;
    }
    if !((t[i] == 116 || t[i] == 84) && t[i + 1] == 114 && t[i + 2] == 105 && t[i + 3] == 109 && t[i
        + 4] == 40) {
        return Hit::Miss;
    }
    let p = i + 5;
    let w = word_run_end(t, p);
    if w > p && w < t.len() && t[w] == 44 {
        let q = if w + 1 < t.len() && t[w + 1] == 32 {
            w + 2
        } else {
            w + 1
        };
        let with_id = try_two_nums(t, q);
        match with_id {
            Hit::Miss => {},
            _ => {
                return with_id;
            },
        }
    }
    try_two_nums(t, p)
}

/// Scans the script for function-call trim expressions and yields every
/// matched frame number in text order; fails exactly when a matched number
/// does not fit the frame word.
pub fn scan_trim_frames(t: &Vec<u8>) -> (r: Result<Vec<u64>, SplitError>)
    ensures
        match r {
            Ok(v) => trim_scan_fits(t@) && v@.map_values(|x: u64| x as nat) == trim_frames(t@, 0),
            Err(e) => match e {
                SplitError::FrameTooLarge { at } => {
                    &&& !trim_scan_fits(t@)
                    &&& trim_match_at(t@, at as nat) is Some
                    &&& {
                        let m = trim_match_at(t@, at as nat)->Some_0;
                        m.1 > u64::MAX || m.2 > u64::MAX
                    }
                },
                _ => false,
            },
        },
{
    let ghost whole = trim_frames(t@, 0);
    let mut out: Vec<u64> = Vec::new();
    let mut i: usize = 0;
    while i < t.len()
        invariant
            i <= t.len(),
            whole == trim_frames(t@, 0),
            whole =~= out@.map_values(|x: u64| x as nat) + trim_frames(t@, i as nat),
        decreases t.len() - i,
    {
        let step = try_trim_match(t, i);
        match step {
            Hit::Miss => {
                i = i + 1;
            },
            Hit::Pair(end, av, bv) => {
                proof {
                    let m = trim_match_at(t@, i as nat)->Some_0;
                    lemma_trim_match_bounds(t@, i as nat, m.0, m.1, m.2);
                }
                out.push(av);
                out.push(bv);
                proof {
                    assert(whole =~= out@.map_values(|x: u64| x as nat) + trim_frames(
                        t@,
                        end as nat,
                    ));
                }
                i = end;
            },
            Hit::Oversized => {
                proof {
                    let m = trim_match_at(t@, i as nat)->Some_0;
                    lemma_trim_match_bounds(t@, i as nat, m.0, m.1, m.2);
                    let here = trim_frames(t@, i as nat);
                    let pre = out@.map_values(|x: u64| x as nat);
                    if m.1 > u64::MAX {
                        assert(whole[pre.len() as int] == here[0]);
                    } else {
                        assert(whole[pre.len() as int + 1] == here[1]);
                    }
                }
                return Err(SplitError::FrameTooLarge { at: i });
            },
        }
    }
    proof {
        assert(out@.map_values(|x: u64| x as nat) =~= whole);
    }
    Ok(out)
}

/// One slice expression read from the script: `clip[start: end]`, the end
/// kept raw as a sign and a magnitude, since a negative end counts back from
/// the total frame count, which is not known at scan time.
#[derive(Debug, Clone, Copy, PartialEq, Eq, Structural)]
pub struct SlicePair {
    pub start: u64,
    pub neg: bool,
    pub mag: u64,
}

impl View for SlicePair {
    type V = (nat, bool, nat);

    open spec fn view(&self) -> (nat, bool, nat) {
        (self.start as nat, self.neg, self.mag as nat)
    }
}

/// A slice expression at `i`: `clip[`, digits, `:`, an optional space, an
/// optionally negative number, then `]`.  Yields the position past the
/// bracket, the start, and the raw end as a sign and a magnitude.
pub open spec fn slice_match_at(t: Seq<u8>, i: nat) -> Option<(nat, (nat, bool, nat))> {
    if i + 5 <= t.len() && t[i as int] == 99 && t[i as int + 1] == 108 && t[i as int + 2] == 105
        && t[i as int + 3] == 112 && t[i as int + 4] == 91 {
        let p = (i + 5) as nat;
        let d1 = digits_end(t, p);
        if d1 > p && d1 < t.len() && t[d1 as int] == 58 {
            let q0 = skip_space(t, d1 + 1);
            let neg = q0 < t.len() && t[q0 as int] == 45;
            let q = if neg {
                q0 + 1
            } else {
                q0
            };
            let d2 = digits_end(t, q);
            if d2 > q && d2 < t.len() && t[d2 as int] == 93 {
                Some(((d2 + 1) as nat, (digits_val(t, p, d1), neg, digits_val(t, q, d2))))
            } else {
                None
            }
        } else {
            None
        }
    } else {
        None
    }
}

/// The raw slice pairs read from `t` from `i` on, in text order, the scan
/// resuming past each match.
pub open spec fn slice_pairs(t: Seq<u8>, i: nat) -> Seq<(nat, bool, nat)>
    decreases t.len() - i,
{
    if i >= t.len() {
        Seq::empty()
    } else {
        match slice_match_at(t, i) {
            Some(m) => seq![m.1] + slice_pairs(
                t,
                if i < m.0 <= t.len() {
                    m.0
                } else {
                    i + 1
                },
            ),
            None => slice_pairs(t, i + 1),
        }
    }
}

/// Every number a slice scan of `t` yields fits the frame word.
pub open spec fn slice_scan_fits(t: Seq<u8>) -> bool {
    forall|k: int|
        0 <= k < slice_pairs(t, 0).len() ==> (#[trigger] slice_pairs(t, 0)[k]).0 <= u64::MAX
            && slice_pairs(t, 0)[k].2 <= u64::MAX
}

pub proof fn lemma_slice_match_bounds(t: Seq<u8>, i: nat, end: nat, m: (nat, bool, nat))
    requires
        slice_match_at(t, i) == Some((end, m)),
    ensures
        i + 8 < end <= t.len(),
{
    let p = (i + 5) as nat;
    lemma_digits_end(t, p);
    let d1 = digits_end(t, p);
    let q0 = skip_space(t, d1 + 1);
    let q = if q0 < t.len() && t[q0 as int] == 45 {
        q0 + 1
    } else {
        q0
    };
    lemma_digits_end(t, q);
}

/// How one attempt to read a slice expression at a fixed position came out.
enum SliceHit {
    Miss,
    Found(usize, SlicePair),
    Oversized,
}

fn try_slice_match(t: &Vec<u8>, i: usize) -> (r: SliceHit)
    requires
        i < t.len(),
    ensures
        match slice_match_at(t@, i as nat) {
            Some(m) => if m.1.0 <= u64::MAX && m.1.2 <= u64::MAX {
                r == SliceHit::Found(
                    m.0 as usize,
                    SlicePair { start: m.1.0 as u64, neg: m.1.1, mag: m.1.2 as u64 },
                )
            } else {
                r == SliceHit::Oversized
            },
            None => r == SliceHit::Miss,
        },
{
    if t.len() - i < 5 {
        return SliceHit::Miss;
    }
    if !(t[i] == 99 && t[i + 1] == 108 && t[i + 2] == 105 && t[i + 3] == 112 && t[i + 4] == 91) {
        return SliceHit::Miss;
    }
    let p = i + 5;
    proof {
        lemma_digits_end(t@, p as nat);
    }
    let d1 = digit_run_end(t, p);
    if !(d1 > p && d1 < t.len() && t[d1] == 58) {
        return SliceHit::Miss;
    }
    let q0 = if d1 + 1 < t.len() && t[d1 + 1] == 32 {
        d1 + 2
    } else {
        d1 + 1
    };
    let neg = q0 < t.len() && t[q0] == 45;
    let q = if neg {
        q0 + 1
    } else {
        q0
    };
    proof {
        lemma_digits_end(t@, q as nat);
    }
    let d2 = digit_run_end(t, q);
    if !(d2 > q && d2 < t.len() && t[d2] == 93) {
        return SliceHit::Miss;
    }
    let a = parse_digits_u64(t, p, d1);
    let b = parse_digits_u64(t, q, d2);
    match (a, b) {
        (Some(av), Some(bv)) => SliceHit::Found(d2 + 1, SlicePair { start: av, neg, mag: bv }),
        _ => SliceHit::Oversized,
    }
}

/// Scans the script for slice expressions and yields every raw pair in text
/// order; fails exactly when a matched number does not fit the frame word.
pub fn scan_slice_pairs(t: &Vec<u8>) -> (r: Result<Vec<SlicePair>, SplitError>)
    ensures
        match r {
            Ok(v) => slice_scan_fits(t@) && v@.map_values(|p: SlicePair| p@) == slice_pairs(t@, 0),
            Err(e) => match e {
                SplitError::FrameTooLarge { at } => {
                    &&& !slice_scan_fits(t@)
                    &&& slice_match_at(t@, at as nat) is Some
                    &&& {
                        let m = slice_match_at(t@, at as nat)->Some_0;
                        m.1.0 > u64::MAX || m.1.2 > u64::MAX
                    }
                },
                _ => false,
            },
        },
{
    let ghost whole = slice_pairs(t@, 0);
    let mut out: Vec<SlicePair> = Vec::new();
    let mut i: usize = 0;
    while i < t.len()
        invariant
            i <= t.len(),
            whole == slice_pairs(t@, 0),
            whole =~= out@.map_values(|p: SlicePair| p@) + slice_pairs(t@, i as nat),
        decreases t.len() - i,
    {
        let step = try_slice_match(t, i);
        match step {
            SliceHit::Miss => {
                i = i + 1;
            },
            SliceHit::Found(end, pair) => {
                proof {
                    let m = slice_match_at(t@, i as nat)->Some_0;
                    lemma_slice_match_bounds(t@, i as nat, m.0, m.1);
                }
                out.push(pair);
                proof {
                    assert(whole =~= out@.map_values(|p: SlicePair| p@) + slice_pairs(
                        t@,
                        end as nat,
                    ));
                }
                i = end;
            },
            SliceHit::Oversized => {
                proof {
                    let m = slice_match_at(t@, i as nat)->Some_0;
                    lemma_slice_match_bounds(t@, i as nat, m.0, m.1);
                    let here = slice_pairs(t@, i as nat);
                    let pre = out@.map_values(|p: SlicePair| p@);
                    assert(whole[pre.len() as int] == here[0]);
                }
                return Err(SplitError::FrameTooLarge { at: i });
            },
        }
    }
    proof {
        assert(out@.map_values(|p: SlicePair| p@) =~= whole);
    }
    Ok(out)
}

/// The frame a raw slice end names once the total frame count is known: a
/// non-negative end is exclusive, so one is taken off it; a negative end
/// counts back from the total; either way the result is clamped at zero.
pub open spec fn adjusted_end(neg: bool, mag: nat, total: nat) -> nat {
    if neg {
        if total >= mag {
            (total - mag) as nat
        } else {
            0
        }
    } else {
        if mag >= 1 {
            (mag - 1) as nat
        } else {
            0
        }
    }
}

/// The frame numbers the raw slice pairs stand for under a given total frame
/// count: each pair contributes its start and its adjusted end, in order.
pub open spec fn resolved_frames(ps: Seq<(nat, bool, nat)>, total: nat) -> Seq<nat>
    decreases ps.len(),
{
    if ps.len() == 0 {
        Seq::empty()
    } else {
        seq![ps[0].0, adjusted_end(ps[0].1, ps[0].2, total)] + resolved_frames(
            ps.drop_first(),
            total,
        )
    }
}

/// The total frame count can only matter to a pair with a negative end.
pub proof fn lemma_resolved_total_irrelevant(ps: Seq<(nat, bool, nat)>, t1: nat, t2: nat)
    requires
        forall|k: int| 0 <= k < ps.len() ==> !(#[trigger] ps[k]).1,
    ensures
        resolved_frames(ps, t1) == resolved_frames(ps, t2),
    decreases ps.len(),
{
    if ps.len() > 0 {
        lemma_resolved_total_irrelevant(ps.drop_first(), t1, t2);
        assert(resolved_frames(ps, t1) =~= resolved_frames(ps, t2));
    }
}

/// Does any scanned slice end count back from the end of the stream?  Only
/// then does resolution need the total frame count at all.
pub fn slices_need_total(pairs: &Vec<SlicePair>) -> (b: bool)
    ensures
        b == exists|k: int| 0 <= k < pairs@.len() && (#[trigger] pairs@[k]).neg,
{
    let mut i: usize = 0;
    while i < pairs.len()
        invariant
            i <= pairs.len(),
            forall|k: int| 0 <= k < i ==> !(#[trigger] pairs@[k]).neg,
        decreases pairs.len() - i,
    {
        if pairs[i].neg {
            return true;
        }
        i = i + 1;
    }
    false
}

/// Turns the raw slice pairs into frame numbers under `total`, per
/// `resolved_frames`.
pub fn resolve_slices(pairs: &Vec<SlicePair>, total: u64) -> (r: Vec<u64>)
    ensures
        r@.map_values(|x: u64| x as nat) == resolved_frames(
            pairs@.map_values(|p: SlicePair| p@),
            total as nat,
        ),
{
    let ghost whole = resolved_frames(pairs@.map_values(|p: SlicePair| p@), total as nat);
    let mut out: Vec<u64> = Vec::new();
    let mut i: usize = 0;
    proof {
        assert(pairs@.map_values(|p: SlicePair| p@).skip(0) =~= pairs@.map_values(
            |p: SlicePair| p@,
        ));
        assert(out@.map_values(|x: u64| x as nat) =~= Seq::empty());
    }
    while i < pairs.len()
        invariant
            i <= pairs.len(),
            whole == resolved_frames(pairs@.map_values(|p: SlicePair| p@), total as nat),
            whole =~= out@.map_values(|x: u64| x as nat) + resolved_frames(
                pairs@.map_values(|p: SlicePair| p@).skip(i as int),
                total as nat,
            ),
        decreases pairs.len() - i,
    {
        let p = pairs[i];
        let end: u64 = if p.neg {
            if total >= p.mag {
                total - p.mag
            } else {
                0
            }
        } else {
            if p.mag >= 1 {
                p.mag - 1
            } else {
                0
            }
        };
        out.push(p.start);
        out.push(end);
        proof {
            let ghost ps = pairs@.map_values(|p: SlicePair| p@);
            assert(ps.skip(i as int).drop_first() =~= ps.skip(i as int + 1));
            assert(whole =~= out@.map_values(|x: u64| x as nat) + resolved_frames(
                ps.skip(i as int + 1),
                total as nat,
            ));
        }
        i = i + 1;
    }
    proof {
        assert(pairs@.map_values(|p: SlicePair| p@).skip(pairs@.len() as int) =~= Seq::empty());
        assert(out@.map_values(|x: u64| x as nat) =~= whole);
    }
    out
}

/// A scan never yields more frame numbers than the text has bytes: every
/// trim call spans at least nine bytes and contributes two numbers.
pub proof fn lemma_trim_frames_len(t: Seq<u8>, i: nat)
    requires
        i <= t.len(),
    ensures
        trim_frames(t, i).len() + i <= t.len(),
    decreases t.len() - i,
{
    if i < t.len() {
        match trim_match_at(t, i) {
            Some(m) => {
                lemma_trim_match_bounds(t, i, m.0, m.1, m.2);
                lemma_trim_frames_len(t, m.0);
            },
            None => {
                lemma_trim_frames_len(t, i + 1);
            },
        }
    }
}

/// A scan never yields more slice pairs than half the text's bytes: every
/// slice expression spans at least nine bytes.
pub proof fn lemma_slice_pairs_len(t: Seq<u8>, i: nat)
    requires
        i <= t.len(),
    ensures
        2 * slice_pairs(t, i).len() + i <= t.len(),
    decreases t.len() - i,
{
    if i < t.len() {
        match slice_match_at(t, i) {
            Some(m) => {
                lemma_slice_match_bounds(t, i, m.0, m.1);
                lemma_slice_pairs_len(t, m.0);
            },
            None => {
                lemma_slice_pairs_len(t, i + 1);
            },
        }
    }
}

/// Resolution yields exactly two frames per slice pair.
pub proof fn lemma_resolved_frames_len(ps: Seq<(nat, bool, nat)>, total: nat)
    ensures
        resolved_frames(ps, total).len() == 2 * ps.len(),
    decreases ps.len(),
{
    if ps.len() > 0 {
        lemma_resolved_frames_len(ps.drop_first(), total);
    }
}

/// The frame numbers a script yields under a given total frame count: the
/// function-call trim syntax wins; only when it matches nowhere does the
/// slice syntax speak.
pub open spec fn extracted_frames(t: Seq<u8>, total: nat) -> Seq<nat> {
    if trim_frames(t, 0).len() > 0 {
        trim_frames(t, 0)
    } else {
        resolved_frames(slice_pairs(t, 0), total)
    }
}

/// At `at` the governing syntax matched a number too large for the frame
/// word: a trim call when the trim scan found anything, else a slice.
pub open spec fn oversized_match_at(t: Seq<u8>, at: nat) -> bool {
    if trim_frames(t, 0).len() > 0 {
        &&& !trim_scan_fits(t)
        &&& trim_match_at(t, at) is Some
        &&& {
            let m = trim_match_at(t, at)->Some_0;
            m.1 > u64::MAX || m.2 > u64::MAX
        }
    } else {
        &&& !slice_scan_fits(t)
        &&& slice_match_at(t, at) is Some
        &&& {
            let m = slice_match_at(t, at)->Some_0;
            m.1.0 > u64::MAX || m.1.2 > u64::MAX
        }
    }
}

/// What one extraction pass found before any total frame count is known.
pub enum Extraction {
    /// The cut frames are settled: either the trim syntax matched, or the
    /// slice syntax matched with no negative end.
    Frames(Vec<u64>),
    /// Only the slice syntax matched, and a negative end counts back from
    /// the stream's end: resolution still needs the total frame count.
    NeedTotal(Vec<SlicePair>),
}

/// One extraction pass over the script.  It decides everything that does not
/// need the total frame count, and asks for that count only when a negative
/// slice end makes it unavoidable, so that a script without trims is refused
/// before any probe of the audio could run.
pub fn extract_step(t: &Vec<u8>) -> (r: Result<Extraction, SplitError>)
    ensures
        match r {
            Ok(Extraction::Frames(v)) => {
                &&& extracted_frames(t@, 0).len() > 0
                &&& trim_frames(t@, 0).len() > 0 ==> trim_scan_fits(t@)
                &&& trim_frames(t@, 0).len() == 0 ==> slice_scan_fits(t@)
                &&& forall|total: nat|
                    v@.map_values(|x: u64| x as nat) == #[trigger] extracted_frames(t@, total)
            },
            Ok(Extraction::NeedTotal(ps)) => {
                &&& trim_frames(t@, 0).len() == 0
                &&& slice_scan_fits(t@)
                &&& ps@.map_values(|p: SlicePair| p@) == slice_pairs(t@, 0)
                &&& exists|k: int| 0 <= k < ps@.len() && (#[trigger] ps@[k]).neg
            },
            Err(SplitError::NoTrims) => trim_frames(t@, 0).len() == 0 && slice_pairs(t@, 0).len()
                == 0,
            Err(SplitError::FrameTooLarge { at }) => oversized_match_at(t@, at as nat),
            Err(_) => false,
        },
{
    let a = scan_trim_frames(t)?;
    if a.len() > 0 {
        proof {
            assert(forall|total: nat| #[trigger]
                extracted_frames(t@, total) == trim_frames(t@, 0));
        }
        return Ok(Extraction::Frames(a));
    }
    let b = scan_slice_pairs(t)?;
    if b.len() == 0 {
        return Err(SplitError::NoTrims);
    }
    if slices_need_total(&b) {
        Ok(Extraction::NeedTotal(b))
    } else {
        let v = resolve_slices(&b, 0);
        proof {
            assert forall|total: nat| #[trigger]
                extracted_frames(t@, total) == v@.map_values(|x: u64| x as nat) by {
                lemma_resolved_total_irrelevant(slice_pairs(t@, 0), total, 0);
            }
        }
        Ok(Extraction::Frames(v))
    }
}

/// Extracts the cut frames of a script under an already-known total frame
/// count: the two syntaxes tried in priority order, a script that matches
/// neither refused, and every matched number required to fit the frame word.
pub fn extract_frames(t: &Vec<u8>, total: u64) -> (r: Result<Vec<u64>, SplitError>)
    ensures
        match r {
            Ok(v) => {
                &&& extracted_frames(t@, total as nat).len() > 0
                &&& v@.map_values(|x: u64| x as nat) == extracted_frames(t@, total as nat)
            },
            Err(SplitError::NoTrims) => trim_frames(t@, 0).len() == 0 && slice_pairs(t@, 0).len()
                == 0,
            Err(SplitError::FrameTooLarge { at }) => oversized_match_at(t@, at as nat),
            Err(_) => false,
        },
{
    match extract_step(t)? {
        Extraction::Frames(v) => Ok(v),
        Extraction::NeedTotal(ps) => {
            let v = resolve_slices(&ps, total);
            proof {
                assert(slice_pairs(t@, 0).len() > 0);
                assert(resolved_frames(slice_pairs(t@, 0), total as nat).len() >= 2);
            }
            Ok(v)
        },
    }
}

} // verus!


