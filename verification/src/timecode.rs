use vstd::arithmetic::div_mod::{
    lemma_div_denominator, lemma_div_is_ordered, lemma_div_of0, lemma_fundamental_div_mod,
    lemma_mod_bound,
};
use vstd::prelude::*;

use crate::errors::SplitError;

verus! {

/// Milliseconds in one day; timecodes carry a wall-clock time below this bound.
pub const DAY_MILLIS: u64 = 86400000;

/// A framerate as an exact positive rational: `num / den` frames per second.
#[derive(Debug, Clone, Copy, PartialEq, Eq, Structural)]
pub struct Fps {
    pub num: u32,
    pub den: u32,
}

impl Fps {
    pub open spec fn wf(self) -> bool {
        self.num > 0 && self.den > 0
    }
}

/// The decimal digit character for `d`.
pub open spec fn digit_char(d: nat) -> char {
    if d == 0 {
        '0'
    } else if d == 1 {
        '1'
    } else if d == 2 {
        '2'
    } else if d == 3 {
        '3'
    } else if d == 4 {
        '4'
    } else if d == 5 {
        '5'
    } else if d == 6 {
        '6'
    } else if d == 7 {
        '7'
    } else if d == 8 {
        '8'
    } else {
        '9'
    }
}

/// `n` written as exactly two decimal digits, zero padded.
pub open spec fn two_digit_chars(n: nat) -> Seq<char> {
    seq![digit_char(n / 10), digit_char(n % 10)]
}

/// `n` written as exactly three decimal digits, zero padded.
pub open spec fn three_digit_chars(n: nat) -> Seq<char> {
    seq![digit_char(n / 100), digit_char((n / 10) % 10), digit_char(n % 10)]
}

/// The wall-clock form `HH:MM:SS.mmm` of a time of `ms` milliseconds past midnight.
pub open spec fn timecode_chars(ms: nat) -> Seq<char> {
    two_digit_chars(ms / 3600000) + seq![':'] + two_digit_chars((ms / 60000) % 60) + seq![':']
        + two_digit_chars((ms / 1000) % 60) + seq!['.'] + three_digit_chars(ms % 1000)
}

/// The millisecond offset of `frame` under `fps`, truncated: each frame lasts
/// `den / num` seconds, so `frame` frames span `frame * 1000 * den / num`
/// whole milliseconds.
pub open spec fn frame_millis(frame: nat, fps: Fps) -> nat
    recommends
        fps.wf(),
{
    (frame * 1000 * (fps.den as nat)) / (fps.num as nat)
}

/// Relies on `chrono::NaiveTime::from_num_seconds_from_midnight_opt`, which
/// accepts any second below 86400 paired with any nanosecond below one
/// billion, and on `NaiveTime::format` with `"%H:%M:%S%.3f"`, which prints
/// the zero-padded two-digit hour, minute and second and exactly three
/// fractional digits, the nanosecond field truncated to milliseconds.
#[verifier::external_body]
fn chrono_wall_clock(secs: u32, nanos: u32) -> (r: String)
    requires
        secs < 86400,
        nanos < 1000000000,
    ensures
        r@ == timecode_chars((secs * 1000 + nanos / 1000000) as nat),
{
    let t = chrono::NaiveTime::from_num_seconds_from_midnight_opt(secs, nanos).unwrap();
    t.format("%H:%M:%S%.3f").to_string()
}

/// A cut point as both the millisecond count it stands for and the fixed
/// `HH:MM:SS.mmm` text the external splitter consumes.
#[derive(Debug)]
pub struct Timecode {
    text: String,
    millis: u64,
}

impl View for Timecode {
    type V = nat;

    closed spec fn view(&self) -> nat {
        self.millis as nat
    }
}

impl Timecode {
    /// The characters of the timecode's text.
    pub closed spec fn spec_text(self) -> Seq<char> {
        self.text@
    }

    /// The text is exactly the wall-clock form of the millisecond count,
    /// which lies below one day.
    pub closed spec fn wf(self) -> bool {
        self.millis < DAY_MILLIS && self.text@ == timecode_chars(self.millis as nat)
    }

    pub fn from_millis(ms: u64) -> (t: Timecode)
        requires
            ms < DAY_MILLIS,
        ensures
            t.wf(),
            t@ == ms as nat,
    {
        let secs: u32 = (ms / 1000) as u32;
        let nanos: u32 = ((ms % 1000) as u32) * 1000000;
        let text = chrono_wall_clock(secs, nanos);
        proof {
            assert(secs * 1000 + nanos / 1000000 == ms);
        }
        Timecode { text, millis: ms }
    }

    pub fn text(&self) -> (s: &String)
        ensures
            s@ == self.spec_text(),
            self.wf() ==> s@ == timecode_chars(self@),
    {
        &self.text
    }

    pub fn millis(&self) -> (m: u64)
        ensures
            m as nat == self@,
    {
        self.millis
    }
}

/// Converts a frame index to its timecode under `fps`, refusing a cut point
/// at or past the 24-hour mark, which the `HH:MM:SS.mmm` form cannot carry.
pub fn to_timecode(frame: u64, fps: Fps) -> (r: Result<Timecode, SplitError>)
    requires
        fps.wf(),
    ensures
        match r {
            Ok(t) => frame_millis(frame as nat, fps) < DAY_MILLIS && t.wf() && t@ == frame_millis(
                frame as nat,
                fps,
            ),
            Err(e) => e == SplitError::TimeTooLarge && frame_millis(frame as nat, fps)
                >= DAY_MILLIS,
        },
{
    proof {
        assert((frame as u128) * 1000 * (fps.den as u128) <= (u64::MAX as u128) * 1000 * (
        u32::MAX as u128)) by (nonlinear_arith)
            requires
                frame <= u64::MAX,
                fps.den <= u32::MAX,
        ;
    }
    let wide: u128 = (frame as u128) * 1000 * (fps.den as u128) / (fps.num as u128);
    proof {
        assert(wide == frame_millis(frame as nat, fps));
    }
    if wide >= DAY_MILLIS as u128 {
        Err(SplitError::TimeTooLarge)
    } else {
        Ok(Timecode::from_millis(wide as u64))
    }
}

/// Converts every extracted cut frame to its timecode, in order; fails
/// exactly when some cut would lie at or past the 24-hour mark.
pub fn to_timecodes(frames: &Vec<u64>, fps: Fps) -> (r: Result<Vec<Timecode>, SplitError>)
    requires
        fps.wf(),
    ensures
        match r {
            Ok(v) => v@.len() == frames@.len() && forall|k: int|
                0 <= k < v@.len() ==> (#[trigger] v@[k]).wf() && v@[k]@ == frame_millis(
                    frames@[k] as nat,
                    fps,
                ) && frame_millis(frames@[k] as nat, fps) < DAY_MILLIS,
            Err(e) => e == SplitError::TimeTooLarge && exists|k: int|
                0 <= k < frames@.len() && frame_millis(#[trigger] frames@[k] as nat, fps)
                    >= DAY_MILLIS,
        },
{
    let mut out: Vec<Timecode> = Vec::new();
    let mut i: usize = 0;
    while i < frames.len()
        invariant
            fps.wf(),
            i <= frames.len(),
            out@.len() == i,
            forall|k: int|
                0 <= k < i ==> (#[trigger] out@[k]).wf() && out@[k]@ == frame_millis(
                    frames@[k] as nat,
                    fps,
                ) && frame_millis(frames@[k] as nat, fps) < DAY_MILLIS,
        decreases frames.len() - i,
    {
        let t = to_timecode(frames[i], fps)?;
        let ghost prev = out@;
        out.push(t);
        proof {
            assert(out@ =~= prev.push(t));
            assert forall|k: int|
                0 <= k < i + 1 implies (#[trigger] out@[k]).wf() && out@[k]@ == frame_millis(
                frames@[k] as nat,
                fps,
            ) && frame_millis(frames@[k] as nat, fps) < DAY_MILLIS by {
                if k < i {
                    assert(out@[k] == prev[k]);
                } else {
                    assert(out@[k] == t);
                }
            }
        }
        i = i + 1;
    }
    Ok(out)
}

/// Lexicographic order on character sequences, by code point; on the ASCII
/// text of timecodes this is the order their bytes compare in.
pub open spec fn lex_le(a: Seq<char>, b: Seq<char>) -> bool
    decreases a.len(),
{
    if a.len() == 0 {
        true
    } else if b.len() == 0 {
        false
    } else if (a[0] as u32) < (b[0] as u32) {
        true
    } else if a[0] == b[0] {
        lex_le(a.drop_first(), b.drop_first())
    } else {
        false
    }
}

pub proof fn lemma_lex_le_refl(a: Seq<char>)
    ensures
        lex_le(a, a),
    decreases a.len(),
{
    if a.len() > 0 {
        lemma_lex_le_refl(a.drop_first());
    }
}

/// Sequences that agree before `k` and differ upward at `k` are ordered.
pub proof fn lemma_lex_le_diff(a: Seq<char>, b: Seq<char>, k: int)
    requires
        0 <= k < a.len(),
        k < b.len(),
        forall|j: int| 0 <= j < k ==> a[j] == b[j],
        (a[k] as u32) < (b[k] as u32),
    ensures
        lex_le(a, b),
    decreases k,
{
    if k > 0 {
        lemma_lex_le_diff(a.drop_first(), b.drop_first(), k - 1);
        assert(a[0] == b[0]);
    }
}

/// A smaller digit has a smaller digit character.
proof fn lemma_digit_lt(d1: nat, d2: nat)
    requires
        d1 < d2 <= 9,
    ensures
        (digit_char(d1) as u32) < (digit_char(d2) as u32),
{
}

/// The wall-clock fields of a millisecond count below one day: their bounds,
/// the mixed-radix carries between them, and that they rebuild the count.
pub proof fn lemma_timecode_fields(ms: nat)
    requires
        ms < DAY_MILLIS,
    ensures
        ms / 3600000 < 24,
        (ms / 60000) % 60 < 60,
        (ms / 1000) % 60 < 60,
        ms % 1000 < 1000,
        ms / 60000 == 60 * (ms / 3600000) + (ms / 60000) % 60,
        ms / 1000 == 60 * (ms / 60000) + (ms / 1000) % 60,
        ms == (ms / 3600000) * 3600000 + ((ms / 60000) % 60) * 60000 + ((ms / 1000) % 60) * 1000
            + ms % 1000,
{
    let mi = ms as int;
    lemma_fundamental_div_mod(mi, 1000);
    lemma_fundamental_div_mod(mi / 1000, 60);
    lemma_fundamental_div_mod(mi / 60000, 60);
    lemma_div_denominator(mi, 1000, 60);
    lemma_div_denominator(mi, 60000, 60);
    lemma_mod_bound(mi, 1000);
    lemma_mod_bound(mi / 1000, 60);
    lemma_mod_bound(mi / 60000, 60);
    lemma_div_is_ordered(mi, 86399999, 3600000);
}

/// More frames never mean fewer milliseconds.
pub proof fn lemma_frame_millis_ordered(f1: nat, f2: nat, fps: Fps)
    requires
        fps.wf(),
        f1 <= f2,
    ensures
        frame_millis(f1, fps) <= frame_millis(f2, fps),
{
    let d = fps.den as nat;
    assert(f1 * 1000 * d <= f2 * 1000 * d) by (nonlinear_arith)
        requires
            f1 <= f2,
            d >= 0,
    ;
    lemma_div_is_ordered((f1 * 1000 * d) as int, (f2 * 1000 * d) as int, fps.num as int);
}

/// Frame zero is the timecode `00:00:00.000` under every framerate.
pub proof fn lemma_zero_frame_timecode(fps: Fps)
    requires
        fps.wf(),
    ensures
        frame_millis(0, fps) == 0,
        timecode_chars(0) == "00:00:00.000"@,
{
    reveal_strlit("00:00:00.000");
    assert(0 * 1000 * (fps.den as nat) == 0) by (nonlinear_arith);
    lemma_div_of0(fps.num as int);
    assert(timecode_chars(0) =~= "00:00:00.000"@);
}

/// The timecode text determines, and is determined by, its millisecond count:
/// in particular only the count zero is written `00:00:00.000`.
pub proof fn lemma_timecode_zero_text(ms: nat)
    requires
        ms < DAY_MILLIS,
    ensures
        (timecode_chars(ms) == timecode_chars(0)) <==> ms == 0,
{
    lemma_timecode_fields(ms);
    let h = ms / 3600000;
    let m = (ms / 60000) % 60;
    let s = (ms / 1000) % 60;
    let r = ms % 1000;
    if timecode_chars(ms) == timecode_chars(0) {
        lemma_fundamental_div_mod(h as int, 10);
        lemma_fundamental_div_mod(m as int, 10);
        lemma_fundamental_div_mod(s as int, 10);
        lemma_fundamental_div_mod(r as int, 10);
        lemma_div_denominator(r as int, 10, 10);
        lemma_fundamental_div_mod(r as int / 10, 10);
        lemma_mod_bound(r as int / 10, 10);
        assert(timecode_chars(ms)[0] == timecode_chars(0)[0]);
        assert(timecode_chars(ms)[1] == timecode_chars(0)[1]);
        assert(timecode_chars(ms)[3] == timecode_chars(0)[3]);
        assert(timecode_chars(ms)[4] == timecode_chars(0)[4]);
        assert(timecode_chars(ms)[6] == timecode_chars(0)[6]);
        assert(timecode_chars(ms)[7] == timecode_chars(0)[7]);
        assert(timecode_chars(ms)[9] == timecode_chars(0)[9]);
        assert(timecode_chars(ms)[10] == timecode_chars(0)[10]);
        assert(timecode_chars(ms)[11] == timecode_chars(0)[11]);
    }
}

/// A well-formed timecode reads `00:00:00.000` exactly when it counts zero
/// milliseconds.
pub proof fn lemma_wf_zero_text(t: Timecode)
    requires
        t.wf(),
    ensures
        (t.spec_text() == timecode_chars(0)) <==> t@ == 0,
{
    lemma_timecode_zero_text(t@);
}

/// A later millisecond count never gets a lexicographically earlier timecode.
pub proof fn lemma_timecode_lex_ordered(ms1: nat, ms2: nat)
    requires
        ms1 <= ms2,
        ms2 < DAY_MILLIS,
    ensures
        lex_le(timecode_chars(ms1), timecode_chars(ms2)),
{
    lemma_timecode_fields(ms1);
    lemma_timecode_fields(ms2);
    let h1 = ms1 / 3600000;
    let m1 = (ms1 / 60000) % 60;
    let s1 = (ms1 / 1000) % 60;
    let r1 = ms1 % 1000;
    let h2 = ms2 / 3600000;
    let m2 = (ms2 / 60000) % 60;
    let s2 = (ms2 / 1000) % 60;
    let r2 = ms2 % 1000;
    let a = timecode_chars(ms1);
    let b = timecode_chars(ms2);
    if ms1 == ms2 {
        lemma_lex_le_refl(a);
    } else {
        lemma_div_is_ordered(ms1 as int, ms2 as int, 3600000);
        lemma_div_is_ordered(ms1 as int, ms2 as int, 60000);
        lemma_div_is_ordered(ms1 as int, ms2 as int, 1000);
        if h1 < h2 {
            lemma_two_digit_step(a, b, 0, h1, h2);
        } else {
            assert(h1 == h2);
            assert(m1 <= m2);
            if m1 < m2 {
                lemma_two_digit_step(a, b, 3, m1, m2);
            } else {
                assert(s1 <= s2);
                if s1 < s2 {
                    lemma_two_digit_step(a, b, 6, s1, s2);
                } else {
                    assert(r1 < r2);
                    lemma_three_digit_step(a, b, r1, r2);
                }
            }
        }
    }
}

/// Lexicographic step inside a two-digit field at `base`, the text before it
/// already equal.
proof fn lemma_two_digit_step(a: Seq<char>, b: Seq<char>, base: int, x1: nat, x2: nat)
    requires
        x1 < x2 < 100,
        0 <= base,
        base + 1 < a.len(),
        base + 1 < b.len(),
        forall|j: int| 0 <= j < base ==> a[j] == b[j],
        a[base] == digit_char(x1 / 10),
        a[base + 1] == digit_char(x1 % 10),
        b[base] == digit_char(x2 / 10),
        b[base + 1] == digit_char(x2 % 10),
    ensures
        lex_le(a, b),
{
    lemma_fundamental_div_mod(x1 as int, 10);
    lemma_fundamental_div_mod(x2 as int, 10);
    lemma_mod_bound(x1 as int, 10);
    lemma_mod_bound(x2 as int, 10);
    lemma_div_is_ordered(x1 as int, x2 as int, 10);
    lemma_div_is_ordered(x1 as int, 99, 10);
    lemma_div_is_ordered(x2 as int, 99, 10);
    if x1 / 10 < x2 / 10 {
        lemma_digit_lt(x1 / 10, x2 / 10);
        lemma_lex_le_diff(a, b, base);
    } else {
        lemma_digit_lt(x1 % 10, x2 % 10);
        lemma_lex_le_diff(a, b, base + 1);
    }
}

/// Lexicographic step inside the three-digit millisecond field, the text
/// before it already equal.
proof fn lemma_three_digit_step(a: Seq<char>, b: Seq<char>, x1: nat, x2: nat)
    requires
        x1 < x2 < 1000,
        a.len() == 12,
        b.len() == 12,
        forall|j: int| 0 <= j < 9 ==> a[j] == b[j],
        a[9] == digit_char(x1 / 100),
        a[10] == digit_char((x1 / 10) % 10),
        a[11] == digit_char(x1 % 10),
        b[9] == digit_char(x2 / 100),
        b[10] == digit_char((x2 / 10) % 10),
        b[11] == digit_char(x2 % 10),
    ensures
        lex_le(a, b),
{
    lemma_fundamental_div_mod(x1 as int, 10);
    lemma_fundamental_div_mod(x2 as int, 10);
    lemma_mod_bound(x1 as int, 10);
    lemma_mod_bound(x2 as int, 10);
    lemma_fundamental_div_mod(x1 as int / 10, 10);
    lemma_fundamental_div_mod(x2 as int / 10, 10);
    lemma_mod_bound(x1 as int / 10, 10);
    lemma_mod_bound(x2 as int / 10, 10);
    lemma_div_denominator(x1 as int, 10, 10);
    lemma_div_denominator(x2 as int, 10, 10);
    lemma_div_is_ordered(x1 as int, x2 as int, 100);
    lemma_div_is_ordered(x1 as int, x2 as int, 10);
    lemma_div_is_ordered(x1 as int, 999, 100);
    lemma_div_is_ordered(x2 as int, 999, 100);
    if x1 / 100 < x2 / 100 {
        lemma_digit_lt(x1 / 100, x2 / 100);
        lemma_lex_le_diff(a, b, 9);
    } else if (x1 / 10) % 10 < (x2 / 10) % 10 {
        lemma_digit_lt((x1 / 10) % 10, (x2 / 10) % 10);
        lemma_lex_le_diff(a, b, 10);
    } else {
        lemma_digit_lt(x1 % 10, x2 % 10);
        lemma_lex_le_diff(a, b, 11);
    }
}

/// Under a fixed framerate an earlier frame never gets a lexicographically
/// later timecode.
pub proof fn lemma_timecode_monotone(f1: nat, f2: nat, fps: Fps)
    requires
        fps.wf(),
        f1 <= f2,
        frame_millis(f2, fps) < DAY_MILLIS,
    ensures
        lex_le(timecode_chars(frame_millis(f1, fps)), timecode_chars(frame_millis(f2, fps))),
{
    lemma_frame_millis_ordered(f1, f2, fps);
    lemma_timecode_lex_ordered(frame_millis(f1, fps), frame_millis(f2, fps));
}

} // verus!

