//! Choices of positions to delete, and what a string is without them.

use vstd::prelude::*;
use itertools::Itertools;
use crate::levenshtein::is_subsequence;

verus! {

/// `c` lists positions of `lo..n` in strictly ascending order.
pub open spec fn is_combination(c: Seq<int>, lo: int, n: int) -> bool {
    &&& forall|i: int| 0 <= i < c.len() ==> lo <= #[trigger] c[i] < n
    &&& forall|i: int, j: int| 0 <= i < j < c.len() ==> c[i] < c[j]
}

/// Every choice of `k` positions out of `lo..n`, each in ascending order, the
/// choices themselves in lexicographic order.
pub open spec fn index_combinations(lo: int, n: int, k: nat) -> Seq<Seq<int>>
    decreases k, n - lo,
{
    if k == 0 {
        seq![Seq::<int>::empty()]
    } else if n - lo < k {
        Seq::empty()
    } else {
        index_combinations(lo + 1, n, (k - 1) as nat).map_values(|c: Seq<int>| seq![lo] + c)
            + index_combinations(lo + 1, n, k)
    }
}

/// The number of ways to choose `k` out of `n`.
pub open spec fn binomial(n: nat, k: nat) -> nat
    decreases n,
{
    if k == 0 {
        1
    } else if n == 0 {
        0
    } else {
        binomial((n - 1) as nat, (k - 1) as nat) + binomial((n - 1) as nat, k)
    }
}

/// The positions of a choice as mathematical integers.
pub open spec fn positions_of(choice: Seq<usize>) -> Seq<int> {
    choice.map_values(|p: usize| p as int)
}

/// `s` without the bytes at the positions in `c`.
pub open spec fn without(s: Seq<u8>, c: Seq<int>) -> Seq<u8>
    decreases s.len(),
{
    if s.len() == 0 {
        s
    } else if c.contains(s.len() - 1) {
        without(s.drop_last(), c)
    } else {
        without(s.drop_last(), c).push(s.last())
    }
}

/// Nothing is chosen more often than it can be.
pub proof fn lemma_binomial_zero(n: nat, k: nat)
    requires
        n < k,
    ensures
        binomial(n, k) == 0,
    decreases n,
{
    if n > 0 {
        lemma_binomial_zero((n - 1) as nat, (k - 1) as nat);
        lemma_binomial_zero((n - 1) as nat, k);
    }
}

/// There are `binomial(n - lo, k)` choices of `k` positions out of `lo..n`.
pub proof fn lemma_combinations_len(lo: int, n: int, k: nat)
    requires
        lo <= n,
    ensures
        index_combinations(lo, n, k).len() == binomial((n - lo) as nat, k),
    decreases k, n - lo,
{
    if k == 0 {
    } else if n - lo < k {
        lemma_binomial_zero((n - lo) as nat, k);
    } else {
        lemma_combinations_len(lo + 1, n, (k - 1) as nat);
        lemma_combinations_len(lo + 1, n, k);
    }
}

/// Each listed choice holds `k` positions of `lo..n` in ascending order.
pub proof fn lemma_combinations_sound(lo: int, n: int, k: nat, t: int)
    requires
        0 <= t < index_combinations(lo, n, k).len(),
    ensures
        is_combination(index_combinations(lo, n, k)[t], lo, n),
        index_combinations(lo, n, k)[t].len() == k,
    decreases k, n - lo,
{
    if k == 0 {
    } else if n - lo < k {
    } else {
        let with_lo = index_combinations(lo + 1, n, (k - 1) as nat);
        let mapped = with_lo.map_values(|c: Seq<int>| seq![lo] + c);
        if t < mapped.len() {
            lemma_combinations_sound(lo + 1, n, (k - 1) as nat, t);
            let c = with_lo[t];
            let full = seq![lo] + c;
            assert(mapped[t] == full);
            assert(index_combinations(lo, n, k)[t] == full);
            assert forall|i: int| 0 <= i < full.len() implies lo <= #[trigger] full[i] < n by {
                if i > 0 {
                    assert(full[i] == c[i - 1]);
                }
            }
            assert forall|i: int, j: int| 0 <= i < j < full.len() implies full[i] < full[j] by {
                assert(full[j] == c[j - 1]);
                if i > 0 {
                    assert(full[i] == c[i - 1]);
                }
            }
        } else {
            lemma_combinations_sound(lo + 1, n, k, t - mapped.len());
            let c = index_combinations(lo + 1, n, k)[t - mapped.len()];
            assert(index_combinations(lo, n, k)[t] == c);
        }
    }
}

/// Every choice of `k` positions of `lo..n` in ascending order is listed.
pub proof fn lemma_combinations_complete(lo: int, n: int, c: Seq<int>) -> (t: int)
    requires
        is_combination(c, lo, n),
    ensures
        0 <= t < index_combinations(lo, n, c.len()).len(),
        index_combinations(lo, n, c.len())[t] == c,
    decreases c.len(), n - lo,
{
    let k = c.len();
    if k == 0 {
        assert(c =~= Seq::<int>::empty());
        0
    } else {
        assert(n - lo >= k) by {
            lemma_combination_room(c, lo, n);
        }
        let with_lo = index_combinations(lo + 1, n, (k - 1) as nat);
        let mapped = with_lo.map_values(|c: Seq<int>| seq![lo] + c);
        if c[0] == lo {
            let rest = c.drop_first();
            assert(is_combination(rest, lo + 1, n)) by {
                assert forall|i: int| 0 <= i < rest.len() implies lo + 1 <= #[trigger] rest[i]
                    < n by {
                    assert(rest[i] == c[i + 1]);
                    assert(c[0] < c[i + 1]);
                }
                assert forall|i: int, j: int| 0 <= i < j < rest.len() implies rest[i]
                    < rest[j] by {
                    assert(rest[i] == c[i + 1]);
                    assert(rest[j] == c[j + 1]);
                }
            }
            let t = lemma_combinations_complete(lo + 1, n, rest);
            assert(mapped[t] == seq![lo] + rest);
            assert(seq![lo] + rest =~= c);
            assert(index_combinations(lo, n, k)[t] == c);
            t
        } else {
            assert(is_combination(c, lo + 1, n)) by {
                assert forall|i: int| 0 <= i < c.len() implies lo + 1 <= #[trigger] c[i] < n by {
                    if i > 0 {
                        assert(c[0] < c[i]);
                    }
                }
            }
            let t = lemma_combinations_complete(lo + 1, n, c);
            assert(index_combinations(lo, n, k)[mapped.len() + t] == c);
            mapped.len() + t
        }
    }
}

/// No choice is listed twice.
pub proof fn lemma_combinations_distinct(lo: int, n: int, k: nat, t: int, u: int)
    requires
        0 <= t < u < index_combinations(lo, n, k).len(),
    ensures
        index_combinations(lo, n, k)[t] != index_combinations(lo, n, k)[u],
    decreases k, n - lo,
{
    if k == 0 {
    } else if n - lo < k {
    } else {
        let with_lo = index_combinations(lo + 1, n, (k - 1) as nat);
        let mapped = with_lo.map_values(|c: Seq<int>| seq![lo] + c);
        let others = index_combinations(lo + 1, n, k);
        let all = index_combinations(lo, n, k);
        if u < mapped.len() {
            lemma_combinations_distinct(lo + 1, n, (k - 1) as nat, t, u);
            assert(all[t] == seq![lo] + with_lo[t]);
            assert(all[u] == seq![lo] + with_lo[u]);
            if all[t] == all[u] {
                assert(with_lo[t] =~= all[t].drop_first());
                assert(with_lo[u] =~= all[u].drop_first());
            }
        } else if t >= mapped.len() {
            lemma_combinations_distinct(lo + 1, n, k, t - mapped.len(), u - mapped.len());
            assert(all[t] == others[t - mapped.len()]);
            assert(all[u] == others[u - mapped.len()]);
        } else {
            lemma_combinations_sound(lo + 1, n, k, u - mapped.len());
            assert(all[t] == seq![lo] + with_lo[t]);
            assert(all[t][0] == lo);
            assert(all[u] == others[u - mapped.len()]);
            assert(all[u][0] >= lo + 1);
        }
    }
}

/// Ascending positions of `lo..n` are at most `n - lo` many.
pub proof fn lemma_combination_room(c: Seq<int>, lo: int, n: int)
    requires
        is_combination(c, lo, n),
    ensures
        c.len() <= n - lo || c.len() == 0,
    decreases c.len(),
{
    if c.len() > 0 {
        let head = c.drop_last();
        assert(is_combination(head, lo, c.last())) by {
            assert forall|i: int| 0 <= i < head.len() implies lo <= #[trigger] head[i]
                < c.last() by {
                assert(head[i] == c[i]);
            }
        }
        lemma_combination_room(head, lo, c.last());
    }
}

/// Positions beyond the end of the string make no difference.
pub proof fn lemma_without_agree(s: Seq<u8>, c1: Seq<int>, c2: Seq<int>)
    requires
        forall|p: int| 0 <= p < s.len() ==> c1.contains(p) == c2.contains(p),
    ensures
        without(s, c1) == without(s, c2),
    decreases s.len(),
{
    if s.len() > 0 {
        lemma_without_agree(s.drop_last(), c1, c2);
    }
}

/// With nothing taken out the string is whole.
pub proof fn lemma_without_nothing(s: Seq<u8>)
    ensures
        without(s, Seq::<int>::empty()) == s,
    decreases s.len(),
{
    if s.len() > 0 {
        lemma_without_nothing(s.drop_last());
        assert(s.drop_last().push(s.last()) =~= s);
    }
}

/// Taking out `c.len()` positions leaves a subsequence that is as much shorter.
pub proof fn lemma_without_is_subsequence(s: Seq<u8>, c: Seq<int>)
    requires
        is_combination(c, 0, s.len() as int),
    ensures
        is_subsequence(without(s, c), s),
        without(s, c).len() + c.len() == s.len(),
    decreases s.len(),
{
    if s.len() > 0 {
        let s0 = s.drop_last();
        let last = s.len() - 1;
        if c.contains(last) {
            let i = choose|i: int| 0 <= i < c.len() && c[i] == last;
            assert(i == c.len() - 1) by {
                if i < c.len() - 1 {
                    assert(c[i] < c[c.len() - 1]);
                }
            }
            let c0 = c.drop_last();
            assert(is_combination(c0, 0, s0.len() as int)) by {
                assert forall|j: int| 0 <= j < c0.len() implies 0 <= #[trigger] c0[j]
                    < s0.len() by {
                    assert(c0[j] == c[j]);
                    assert(c[j] < c[c.len() - 1]);
                }
            }
            assert forall|p: int| 0 <= p < s0.len() implies c.contains(p) == c0.contains(p) by {
                if c.contains(p) {
                    let j = choose|j: int| 0 <= j < c.len() && c[j] == p;
                    assert(c0[j] == p);
                }
                if c0.contains(p) {
                    let j = choose|j: int| 0 <= j < c0.len() && c0[j] == p;
                    assert(c[j] == p);
                }
            }
            lemma_without_agree(s0, c, c0);
            lemma_without_is_subsequence(s0, c0);
        } else {
            assert(is_combination(c, 0, s0.len() as int)) by {
                assert forall|j: int| 0 <= j < c.len() implies 0 <= #[trigger] c[j]
                    < s0.len() by {
                    assert(c.contains(c[j]));
                }
            }
            lemma_without_is_subsequence(s0, c);
            let v = without(s, c);
            assert(v.drop_last() == without(s0, c));
        }
    } else if c.len() > 0 {
        let first = c[0];
        assert(0 <= first && first < 0);
    }
}

/// Every subsequence is the string without some choice of positions.
pub proof fn lemma_subsequence_is_without(v: Seq<u8>, s: Seq<u8>) -> (c: Seq<int>)
    requires
        is_subsequence(v, s),
    ensures
        is_combination(c, 0, s.len() as int),
        c.len() + v.len() == s.len(),
        without(s, c) == v,
    decreases s.len(),
{
    if s.len() == 0 {
        assert(v =~= s);
        Seq::empty()
    } else {
        let s0 = s.drop_last();
        let last = s.len() - 1;
        if v.len() > 0 && v.last() == s.last() && is_subsequence(v.drop_last(), s0) {
            let c = lemma_subsequence_is_without(v.drop_last(), s0);
            assert(!c.contains(last));
            assert(v.drop_last().push(v.last()) =~= v);
            c
        } else {
            let c0 = lemma_subsequence_is_without(v, s0);
            let c = c0.push(last);
            assert(c.contains(last)) by {
                assert(c[c.len() - 1] == last);
            }
            assert forall|p: int| 0 <= p < s0.len() implies c.contains(p) == c0.contains(p) by {
                if c.contains(p) {
                    let j = choose|j: int| 0 <= j < c.len() && c[j] == p;
                    assert(c0[j] == p);
                }
                if c0.contains(p) {
                    let j = choose|j: int| 0 <= j < c0.len() && c0[j] == p;
                    assert(c[j] == p);
                }
            }
            lemma_without_agree(s0, c, c0);
            c
        }
    }
}

/// Calls `Itertools::combinations` on the range `0..n`. The crate yields each
/// choice of `k` positions once, ascending inside a choice, and the choices in
/// lexicographic order: one empty choice for `k == 0`, none for `k > n`.
#[verifier::external_body]
pub(crate) fn combinations(n: usize, k: usize) -> (choices: Vec<Vec<usize>>)
    ensures
        choices.len() == index_combinations(0, n as int, k as nat).len(),
        forall|t: int|
            0 <= t < choices.len() ==> positions_of(#[trigger] choices[t]@) == index_combinations(
                0,
                n as int,
                k as nat,
            )[t],
{
    (0..n).combinations(k).collect()
}

} // verus!
