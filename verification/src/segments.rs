use vstd::prelude::*;

use crate::timecode::{
    digit_char, lemma_wf_zero_text, three_digit_chars, timecode_chars, Timecode,
};

verus! {

/// Is 0-based segment `s` of `total` segments kept?  When the first cut sits
/// at the very start, the even segments are kept but never the last one;
/// otherwise the odd segments are.
pub open spec fn segment_kept(s: nat, total: nat, use_first: bool) -> bool {
    if use_first {
        s % 2 == 0 && s + 1 < total
    } else {
        s % 2 == 1
    }
}

/// The 1-based numbers of the kept segments from 0-based index `s` on, in
/// ascending order.
pub open spec fn kept_from(s: nat, total: nat, use_first: bool) -> Seq<nat>
    decreases total - s,
{
    if s >= total {
        Seq::empty()
    } else if segment_kept(s, total, use_first) {
        seq![(s + 1) as nat] + kept_from(s + 1, total, use_first)
    } else {
        kept_from(s + 1, total, use_first)
    }
}

/// Every kept number lies between `s + 1` and `total`, stays below `total`
/// when the first cut sits at the start, and the list ascends strictly.
pub proof fn lemma_kept_from_props(s: nat, total: nat, use_first: bool)
    ensures
        forall|k: int|
            0 <= k < kept_from(s, total, use_first).len() ==> s < #[trigger] kept_from(
                s,
                total,
                use_first,
            )[k] <= total,
        use_first ==> forall|k: int|
            0 <= k < kept_from(s, total, use_first).len() ==> #[trigger] kept_from(
                s,
                total,
                use_first,
            )[k] < total,
        forall|k1: int, k2: int|
            0 <= k1 < k2 < kept_from(s, total, use_first).len() ==> kept_from(s, total, use_first)[
                k1
            ] < kept_from(s, total, use_first)[k2],
    decreases total - s,
{
    if s < total {
        lemma_kept_from_props(s + 1, total, use_first);
        let rest = kept_from(s + 1, total, use_first);
        let cur = kept_from(s, total, use_first);
        if segment_kept(s, total, use_first) {
            assert(cur == seq![(s + 1) as nat] + rest);
            assert forall|k: int| 0 <= k < cur.len() implies s < #[trigger] cur[k] <= total by {
                if k > 0 {
                    assert(cur[k] == rest[k - 1]);
                }
            }
            if use_first {
                assert forall|k: int| 0 <= k < cur.len() implies #[trigger] cur[k] < total by {
                    if k > 0 {
                        assert(cur[k] == rest[k - 1]);
                    }
                }
            }
            assert forall|k1: int, k2: int| 0 <= k1 < k2 < cur.len() implies cur[k1] < cur[k2] by {
                assert(cur[k2] == rest[k2 - 1]);
                if k1 > 0 {
                    assert(cur[k1] == rest[k1 - 1]);
                } else {
                    assert(cur[0] == s + 1);
                    assert(s + 1 < rest[k2 - 1]);
                }
            }
        }
    }
}

/// The plan the merge step consumes: the kept segments' 1-based numbers in
/// ascending order, and whether the first cut sat at the very start.
pub struct MergePlan {
    pub kept: Vec<usize>,
    pub use_first: bool,
}

/// Decides which of the `N + 1` segments that splitting at `N` cut points
/// produces are to be merged back.  The first segment counts as kept exactly
/// when the first cut timecode is the absolute start, and then the last
/// segment is never selected.
pub fn select_segments(cuts: &Vec<Timecode>) -> (p: MergePlan)
    requires
        cuts.len() >= 1,
        cuts.len() < usize::MAX,
    ensures
        p.use_first == (cuts@[0]@ == 0),
        cuts@[0].wf() ==> p.use_first == (cuts@[0].spec_text() == timecode_chars(0)),
        p.kept@.map_values(|x: usize| x as nat) == kept_from(
            0,
            cuts@.len() + 1,
            p.use_first,
        ),
        forall|k: int|
            0 <= k < p.kept@.len() ==> 1 <= #[trigger] p.kept@[k] <= cuts@.len() + 1,
        p.use_first ==> forall|k: int|
            0 <= k < p.kept@.len() ==> #[trigger] p.kept@[k] <= cuts@.len(),
        forall|k1: int, k2: int|
            0 <= k1 < k2 < p.kept@.len() ==> p.kept@[k1] < p.kept@[k2],
{
    let use_first = cuts[0].millis() == 0;
    proof {
        if cuts@[0].wf() {
            lemma_wf_zero_text(cuts@[0]);
        }
    }
    let total = cuts.len() + 1;
    let ghost gtotal = (cuts@.len() + 1) as nat;
    let mut kept: Vec<usize> = Vec::new();
    let mut s: usize = 0;
    proof {
        assert(kept@.map_values(|x: usize| x as nat) =~= Seq::empty());
    }
    while s < total
        invariant
            s <= total,
            total == gtotal,
            kept_from(0, gtotal, use_first) =~= kept@.map_values(|x: usize| x as nat) + kept_from(
                s as nat,
                gtotal,
                use_first,
            ),
        decreases total - s,
    {
        let keep = if use_first {
            s % 2 == 0 && s + 1 < total
        } else {
            s % 2 == 1
        };
        if keep {
            kept.push(s + 1);
            proof {
                assert(kept_from(0, gtotal, use_first) =~= kept@.map_values(|x: usize| x as nat)
                    + kept_from(s as nat + 1, gtotal, use_first));
            }
        }
        s = s + 1;
    }
    proof {
        assert(kept@.map_values(|x: usize| x as nat) =~= kept_from(0, gtotal, use_first));
        lemma_kept_from_props(0, gtotal, use_first);
        assert forall|k: int| 0 <= k < kept@.len() implies 1 <= #[trigger] kept@[k] <= cuts@.len()
            + 1 by {
            assert(kept@.map_values(|x: usize| x as nat)[k] == kept@[k] as nat);
        }
        if use_first {
            assert forall|k: int| 0 <= k < kept@.len() implies #[trigger] kept@[k] <= cuts@.len()
                by {
                assert(kept@.map_values(|x: usize| x as nat)[k] == kept@[k] as nat);
            }
        }
        assert forall|k1: int, k2: int| 0 <= k1 < k2 < kept@.len() implies kept@[k1] < kept@[k2] by {
            assert(kept@.map_values(|x: usize| x as nat)[k1] == kept@[k1] as nat);
            assert(kept@.map_values(|x: usize| x as nat)[k2] == kept@[k2] as nat);
        }
    }
    MergePlan { kept, use_first }
}

fn digit_str(d: usize) -> (r: &'static str)
    requires
        d < 10,
    ensures
        r@ == seq![digit_char(d as nat)],
{
    proof {
        reveal_strlit("0");
        reveal_strlit("1");
        reveal_strlit("2");
        reveal_strlit("3");
        reveal_strlit("4");
        reveal_strlit("5");
        reveal_strlit("6");
        reveal_strlit("7");
        reveal_strlit("8");
        reveal_strlit("9");
    }
    let r = if d == 0 {
        "0"
    } else if d == 1 {
        "1"
    } else if d == 2 {
        "2"
    } else if d == 3 {
        "3"
    } else if d == 4 {
        "4"
    } else if d == 5 {
        "5"
    } else if d == 6 {
        "6"
    } else if d == 7 {
        "7"
    } else if d == 8 {
        "8"
    } else {
        "9"
    };
    proof {
        assert(r@ =~= seq![digit_char(d as nat)]);
    }
    r
}

/// The three-digit zero-padded label under which the external splitter
/// numbers segment `n`.
pub fn segment_label(n: usize) -> (s: String)
    requires
        1 <= n <= 999,
    ensures
        s@ == three_digit_chars(n as nat),
{
    let mut s = String::new();
    s.append(digit_str(n / 100));
    s.append(digit_str((n / 10) % 10));
    s.append(digit_str(n % 10));
    proof {
        assert(s@ =~= three_digit_chars(n as nat));
    }
    s
}

} // verus!
