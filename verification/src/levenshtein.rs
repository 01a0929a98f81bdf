//! The Levenshtein distance, what it has to do with deleting characters, and
//! the bounded computation of it.

use vstd::prelude::*;
use rapidfuzz::distance::levenshtein::{distance_with_args, Args};
use crate::utils::MaxDistance;

verus! {

/// The distance that stands for "above the threshold".
pub const ABOVE_THRESHOLD: u8 = 255;

/// The least of three numbers.
pub open spec fn min3(x: nat, y: nat, z: nat) -> nat {
    if x <= y && x <= z {
        x
    } else if y <= z {
        y
    } else {
        z
    }
}

/// The least number of single-byte insertions, deletions and substitutions
/// that turn `a` into `b`.
pub open spec fn levenshtein(a: Seq<u8>, b: Seq<u8>) -> nat
    decreases a.len() + b.len(),
{
    if a.len() == 0 {
        b.len()
    } else if b.len() == 0 {
        a.len()
    } else {
        let substitute = levenshtein(a.drop_last(), b.drop_last()) + if a.last() == b.last() {
            0nat
        } else {
            1nat
        };
        let delete = levenshtein(a.drop_last(), b) + 1;
        let insert = levenshtein(a, b.drop_last()) + 1;
        min3(substitute, delete, insert)
    }
}

/// `v` is what is left of `s` after some of its bytes are taken out.
pub open spec fn is_subsequence(v: Seq<u8>, s: Seq<u8>) -> bool
    decreases s.len(),
{
    if v.len() == 0 {
        true
    } else if s.len() == 0 {
        false
    } else {
        (v.last() == s.last() && is_subsequence(v.drop_last(), s.drop_last())) || is_subsequence(
            v,
            s.drop_last(),
        )
    }
}

/// `v` is a deletion variant of `s` for the threshold `k`: `s` with at most
/// `k` of its bytes taken out.
pub open spec fn is_variant(v: Seq<u8>, s: Seq<u8>, k: nat) -> bool {
    is_subsequence(v, s) && s.len() <= v.len() + k
}

/// What the distance check reports for a pair: the distance where it is within
/// the threshold, and 255 where it is not.
pub open spec fn capped_distance(a: Seq<u8>, b: Seq<u8>, k: nat) -> u8 {
    if levenshtein(a, b) <= k && k <= 254 {
        levenshtein(a, b) as u8
    } else {
        ABOVE_THRESHOLD
    }
}

/// A subsequence is no longer than the string it is taken from.
pub proof fn lemma_subsequence_len(v: Seq<u8>, s: Seq<u8>)
    requires
        is_subsequence(v, s),
    ensures
        v.len() <= s.len(),
    decreases s.len(),
{
    if v.len() > 0 && s.len() > 0 {
        if v.last() == s.last() && is_subsequence(v.drop_last(), s.drop_last()) {
            lemma_subsequence_len(v.drop_last(), s.drop_last());
        } else {
            lemma_subsequence_len(v, s.drop_last());
        }
    }
}

/// A longest string that both `a` and `b` contain as a subsequence is short
/// of either by no more than their distance.
proof fn lemma_common_subsequence(a: Seq<u8>, b: Seq<u8>) -> (v: Seq<u8>)
    ensures
        is_subsequence(v, a),
        is_subsequence(v, b),
        a.len() <= v.len() + levenshtein(a, b),
        b.len() <= v.len() + levenshtein(a, b),
    decreases a.len() + b.len(),
{
    if a.len() == 0 || b.len() == 0 {
        Seq::empty()
    } else {
        let a0 = a.drop_last();
        let b0 = b.drop_last();
        let cost: nat = if a.last() == b.last() {
            0
        } else {
            1
        };
        let substitute = levenshtein(a0, b0) + cost;
        let delete = levenshtein(a0, b) + 1;
        let d = levenshtein(a, b);
        if d == substitute {
            let w = lemma_common_subsequence(a0, b0);
            if a.last() == b.last() {
                let v = w.push(a.last());
                assert(v.drop_last() == w);
                v
            } else {
                w
            }
        } else if d == delete {
            lemma_common_subsequence(a0, b)
        } else {
            lemma_common_subsequence(a, b0)
        }
    }
}

/// Two strings within distance `k` of each other share a deletion variant for
/// the threshold `k`. This is what makes the deletion index complete.
pub proof fn lemma_neighbors_share_variant(a: Seq<u8>, b: Seq<u8>, k: nat)
    requires
        levenshtein(a, b) <= k,
    ensures
        exists|v: Seq<u8>| is_variant(v, a, k) && is_variant(v, b, k),
{
    let v = lemma_common_subsequence(a, b);
    assert(is_variant(v, a, k) && is_variant(v, b, k));
}

/// The distance of a string to itself is zero.
pub proof fn lemma_levenshtein_self(a: Seq<u8>)
    ensures
        levenshtein(a, a) == 0,
    decreases a.len(),
{
    if a.len() > 0 {
        lemma_levenshtein_self(a.drop_last());
    }
}

/// Two strings are at least as far apart as their lengths differ, and no
/// further than the longer of them is long.
pub proof fn lemma_levenshtein_bounds(a: Seq<u8>, b: Seq<u8>)
    ensures
        a.len() <= b.len() + levenshtein(a, b),
        b.len() <= a.len() + levenshtein(a, b),
        levenshtein(a, b) <= a.len() || levenshtein(a, b) <= b.len(),
    decreases a.len() + b.len(),
{
    if a.len() > 0 && b.len() > 0 {
        lemma_levenshtein_bounds(a.drop_last(), b.drop_last());
        lemma_levenshtein_bounds(a.drop_last(), b);
        lemma_levenshtein_bounds(a, b.drop_last());
    }
}

/// The strings are short enough for the outside routine, which multiplies
/// their lengths in a machine word.
pub open spec fn lengths_multiply(a: Seq<u8>, b: Seq<u8>) -> bool {
    a.len() * b.len() <= usize::MAX
}

/// Calls `rapidfuzz::distance::levenshtein::distance_with_args` on the two
/// byte strings with uniform weights and `score_cutoff(cutoff)`. The crate
/// computes the Levenshtein distance and hands it out when it is at most the
/// cutoff, and `None` when it is more.
#[verifier::external_body]
fn bounded_levenshtein(a: &[u8], b: &[u8], cutoff: usize) -> (r: Option<usize>)
    requires
        lengths_multiply(a@, b@),
    ensures
        levenshtein(a@, b@) <= cutoff ==> r == Some(levenshtein(a@, b@) as usize),
        levenshtein(a@, b@) > cutoff ==> r.is_none(),
{
    distance_with_args(a.iter().copied(), b.iter().copied(), &Args::default().score_cutoff(cutoff))
}

/// One more, or the largest number there is.
fn one_more(x: usize) -> (y: usize)
    ensures
        x < usize::MAX ==> y == x + 1,
        x == usize::MAX ==> y == usize::MAX,
{
    if x < usize::MAX {
        x + 1
    } else {
        usize::MAX
    }
}

/// The Levenshtein distance by the table of the distances between prefixes,
/// of which one row is kept. It is what `distance_within` falls back on for
/// strings too long for the outside routine.
pub fn levenshtein_by_table(a: &[u8], b: &[u8]) -> (d: usize)
    ensures
        d == levenshtein(a@, b@),
{
    let la = a.len();
    let lb = b.len();
    if lb == 0 {
        return la;
    }
    // row[j - 1] is the distance between the prefix of `a` in hand and the
    // first `j` bytes of `b`
    let mut row: Vec<usize> = Vec::with_capacity(lb);
    let mut j: usize = 0;
    while j < lb
        invariant
            lb == b.len(),
            0 <= j <= lb,
            row.len() == j,
            forall|t: int| 0 <= t < j ==> #[trigger] row[t] == t + 1,
        decreases lb - j,
    {
        row.push(j + 1);
        j = j + 1;
    }
    assert forall|t: int| 0 <= t < lb implies #[trigger] row[t] == levenshtein(
        a@.take(0),
        b@.take(t + 1),
    ) by {
        assert(a@.take(0).len() == 0);
    }
    let mut i: usize = 0;
    while i < la
        invariant
            la == a.len(),
            lb == b.len(),
            lb > 0,
            0 <= i <= la,
            row.len() == lb,
            forall|t: int|
                0 <= t < lb ==> #[trigger] row[t] == levenshtein(a@.take(i as int), b@.take(t + 1)),
        decreases la - i,
    {
        let ghost short = a@.take(i as int);
        let ghost long = a@.take(i + 1);
        assert(long.drop_last() == short);
        let mut diagonal: usize = i;
        let mut left: usize = i + 1;
        assert(levenshtein(short, b@.take(0)) == i) by {
            assert(b@.take(0).len() == 0);
            lemma_levenshtein_bounds(short, b@.take(0));
        }
        assert(levenshtein(long, b@.take(0)) == i + 1) by {
            assert(b@.take(0).len() == 0);
            lemma_levenshtein_bounds(long, b@.take(0));
        }
        let mut j: usize = 0;
        while j < lb
            invariant
                la == a.len(),
                lb == b.len(),
                i < la,
                short == a@.take(i as int),
                long == a@.take(i + 1),
                long.drop_last() == short,
                0 <= j <= lb,
                row.len() == lb,
                diagonal == levenshtein(short, b@.take(j as int)),
                left == levenshtein(long, b@.take(j as int)),
                forall|t: int| 0 <= t < j ==> #[trigger] row[t] == levenshtein(long, b@.take(t + 1)),
                forall|t: int|
                    j <= t < lb ==> #[trigger] row[t] == levenshtein(short, b@.take(t + 1)),
            decreases lb - j,
        {
            let up = row[j];
            let ghost before = b@.take(j as int);
            let ghost upto = b@.take(j + 1);
            proof {
                assert(upto.drop_last() == before);
                assert(long.last() == a[i as int]);
                assert(upto.last() == b[j as int]);
                lemma_levenshtein_bounds(long, upto);
                lemma_levenshtein_bounds(short, before);
            }
            let substitute = if a[i] == b[j] {
                diagonal
            } else {
                one_more(diagonal)
            };
            let delete = one_more(up);
            let insert = one_more(left);
            let best = if substitute <= delete && substitute <= insert {
                substitute
            } else if delete <= insert {
                delete
            } else {
                insert
            };
            assert(best == levenshtein(long, upto));
            row.set(j, best);
            diagonal = up;
            left = best;
            j = j + 1;
        }
        i = i + 1;
    }
    assert(a@.take(la as int) == a@);
    assert(b@.take(lb as int) == b@);
    row[lb - 1]
}

/// The distance of one candidate pair, cut off at the threshold. Strings whose
/// lengths differ by more than the threshold are not compared at all.
pub fn distance_within(a: &[u8], b: &[u8], max_distance: MaxDistance) -> (d: u8)
    ensures
        d == capped_distance(a@, b@, max_distance@),
{
    let k = max_distance.as_usize();
    let la = a.len();
    let lb = b.len();
    proof {
        lemma_levenshtein_bounds(a@, b@);
    }
    if (la > lb && la - lb > k) || (lb > la && lb - la > k) {
        return ABOVE_THRESHOLD;
    }
    let found = match la.checked_mul(lb) {
        Some(_) => bounded_levenshtein(a, b, k),
        None => {
            let dist = levenshtein_by_table(a, b);
            if dist <= k {
                Some(dist)
            } else {
                None
            }
        },
    };
    match found {
        None => ABOVE_THRESHOLD,
        Some(dist) => dist as u8,
    }
}

} // verus!
