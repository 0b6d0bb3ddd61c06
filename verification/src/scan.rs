use vstd::prelude::*;

verus! {

/// Is `b` an ASCII decimal digit?
pub open spec fn is_digit(b: u8) -> bool {
    48 <= b <= 57
}

/// Is `b` a word byte: an ASCII letter, digit or underscore?
pub open spec fn is_word(b: u8) -> bool {
    is_digit(b) || (65 <= b <= 90) || (97 <= b <= 122) || b == 95
}

/// The position just past the run of digit bytes that starts at `i`.
pub open spec fn digits_end(t: Seq<u8>, i: nat) -> nat
    decreases t.len() - i,
{
    if i < t.len() && is_digit(t[i as int]) {
        digits_end(t, i + 1)
    } else {
        i
    }
}

/// The position just past the run of word bytes that starts at `i`.
pub open spec fn word_end(t: Seq<u8>, i: nat) -> nat
    decreases t.len() - i,
{
    if i < t.len() && is_word(t[i as int]) {
        word_end(t, i + 1)
    } else {
        i
    }
}

/// The value of a digit byte.
pub open spec fn digit_of(b: u8) -> nat
    recommends
        is_digit(b),
{
    (b - 48) as nat
}

/// The number written by the digit bytes `t[i..j]`, most significant first.
pub open spec fn digits_val(t: Seq<u8>, i: nat, j: nat) -> nat
    decreases j - i,
{
    if i >= j {
        0
    } else {
        digits_val(t, i, (j - 1) as nat) * 10 + digit_of(t[j - 1])
    }
}

pub proof fn lemma_digits_end(t: Seq<u8>, i: nat)
    requires
        i <= t.len(),
    ensures
        i <= digits_end(t, i) <= t.len(),
        forall|k: int| i <= k < digits_end(t, i) ==> is_digit(#[trigger] t[k]),
        digits_end(t, i) < t.len() ==> !is_digit(t[digits_end(t, i) as int]),
    decreases t.len() - i,
{
    if i < t.len() && is_digit(t[i as int]) {
        lemma_digits_end(t, i + 1);
    }
}

pub proof fn lemma_word_end(t: Seq<u8>, i: nat)
    requires
        i <= t.len(),
    ensures
        i <= word_end(t, i) <= t.len(),
        word_end(t, i) < t.len() ==> !is_word(t[word_end(t, i) as int]),
    decreases t.len() - i,
{
    if i < t.len() && is_word(t[i as int]) {
        lemma_word_end(t, i + 1);
    }
}

/// A longer digit run never writes a smaller number.
pub proof fn lemma_digits_val_grows(t: Seq<u8>, i: nat, k: nat, j: nat)
    requires
        i <= k <= j,
    ensures
        digits_val(t, i, k) <= digits_val(t, i, j),
    decreases j - k,
{
    if k < j {
        lemma_digits_val_grows(t, i, k, (j - 1) as nat);
    }
}

pub fn digit_run_end(t: &Vec<u8>, i: usize) -> (j: usize)
    requires
        i <= t.len(),
    ensures
        j == digits_end(t@, i as nat),
        i <= j <= t.len(),
{
    proof {
        lemma_digits_end(t@, i as nat);
    }
    let mut j = i;
    while j < t.len() && 48 <= t[j] && t[j] <= 57
        invariant
            i <= j <= t.len(),
            digits_end(t@, i as nat) == digits_end(t@, j as nat),
        decreases t.len() - j,
    {
        j = j + 1;
    }
    j
}

pub fn word_run_end(t: &Vec<u8>, i: usize) -> (j: usize)
    requires
        i <= t.len(),
    ensures
        j == word_end(t@, i as nat),
        i <= j <= t.len(),
{
    proof {
        lemma_word_end(t@, i as nat);
    }
    let mut j = i;
    while j < t.len() && (48 <= t[j] && t[j] <= 57 || 65 <= t[j] && t[j] <= 90 || 97 <= t[j]
        && t[j] <= 122 || t[j] == 95)
        invariant
            i <= j <= t.len(),
            word_end(t@, i as nat) == word_end(t@, j as nat),
        decreases t.len() - j,
    {
        j = j + 1;
    }
    j
}

/// Reads the digit run `t[i..j]` as a `u64`; reports `None` exactly when the
/// written number does not fit.
pub fn parse_digits_u64(t: &Vec<u8>, i: usize, j: usize) -> (r: Option<u64>)
    requires
        i <= j <= t.len(),
        forall|k: int| i <= k < j ==> is_digit(#[trigger] t@[k]),
    ensures
        match r {
            Some(v) => v as nat == digits_val(t@, i as nat, j as nat),
            None => digits_val(t@, i as nat, j as nat) > u64::MAX,
        },
{
    let mut acc: u64 = 0;
    let mut k = i;
    while k < j
        invariant
            i <= k <= j <= t.len(),
            forall|m: int| i <= m < j ==> is_digit(#[trigger] t@[m]),
            acc as nat == digits_val(t@, i as nat, k as nat),
        decreases j - k,
    {
        let d: u8 = t[k];
        let dv: u64 = (d - 48) as u64;
        proof {
            assert(digits_val(t@, i as nat, (k + 1) as nat) == digits_val(t@, i as nat, k as nat)
                * 10 + digit_of(t@[k as int]));
        }
        if acc > u64::MAX / 10 {
            proof {
                lemma_digits_val_grows(t@, i as nat, (k + 1) as nat, j as nat);
            }
            return None;
        }
        let acc10: u64 = acc * 10;
        if dv > u64::MAX - acc10 {
            proof {
                lemma_digits_val_grows(t@, i as nat, (k + 1) as nat, j as nat);
            }
            return None;
        }
        acc = acc10 + dv;
        k = k + 1;
    }
    Some(acc)
}

} // verus!
