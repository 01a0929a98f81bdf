//! Counting: how many choices there are, and how many records and candidate
//! pairs they make.

use vstd::prelude::*;
use vstd::arithmetic::div_mod::lemma_div_by_multiple;
use crate::candidates::{pairs_of, product_of};
use crate::combinations::{binomial, lemma_binomial_zero};
use crate::span::Span;
use crate::utils::MaxDistance;
use crate::variants::{choices_up_to, num_deletion_variants};

verus! {

/// Choosing `k` out of `n` and then marking one of the chosen is choosing the
/// marked one first and then `k - 1` out of the rest.
pub proof fn lemma_binomial_absorb(n: nat, k: nat)
    requires
        n >= 1,
        k >= 1,
    ensures
        k * binomial(n, k) == n * binomial((n - 1) as nat, (k - 1) as nat),
    decreases n,
{
    let m = (n - 1) as nat;
    let j = (k - 1) as nat;
    if n == 1 {
        if k > 1 {
            lemma_binomial_zero(0, j);
            assert(binomial(1, k) == 0);
            assert(k * binomial(n, k) == 0) by (nonlinear_arith)
                requires
                    binomial(n, k) == 0,
            ;
            assert(n * binomial(m, j) == 0) by (nonlinear_arith)
                requires
                    binomial(m, j) == 0,
            ;
        } else {
            assert(binomial(1, 1) == 1);
            assert(binomial(0, 0) == 1);
        }
    } else {
        // binomial(n, k) == binomial(m, j) + binomial(m, k)
        lemma_binomial_absorb(m, k);
        let a = binomial(m, j);
        let b = binomial(m, k);
        let c = binomial((m - 1) as nat, j);
        assert(binomial(n, k) == a + b);
        assert(k * b == m * c);
        if k == 1 {
            assert(a == 1);
            assert(c == 1);
            assert(k * (a + b) == n * a) by (nonlinear_arith)
                requires
                    k == 1,
                    a == 1,
                    c == 1,
                    k * b == m * c,
                    n == m + 1,
            ;
        } else {
            lemma_binomial_absorb(m, j);
            let d = binomial((m - 1) as nat, (j - 1) as nat);
            assert(j * a == m * d);
            assert(a == d + c);
            assert(k * (a + b) == n * a) by (nonlinear_arith)
                requires
                    k == j + 1,
                    n == m + 1,
                    j * a == m * d,
                    k * b == m * c,
                    a == d + c,
            ;
        }
    }
}

/// With more to choose from and as many more to choose there are no fewer
/// choices.
pub proof fn lemma_binomial_grows(m: nat, i: nat, k: nat)
    requires
        i <= k,
    ensures
        binomial(m + i, i) <= binomial(m + k, k),
    decreases k - i,
{
    if i < k {
        lemma_binomial_grows(m, i, (k - 1) as nat);
        assert(binomial(m + k, k) == binomial((m + k - 1) as nat, (k - 1) as nat) + binomial(
            (m + k - 1) as nat,
            k,
        ));
    }
}

/// The number of ways to choose `k` out of `n`, computed as the product
/// `n (n - 1) .. (n - k + 1)` over `k!` in steps that stay whole.
pub fn get_num_k_combs(n: usize, k: u8) -> (count: usize)
    requires
        n >= k,
        binomial(n as nat, k as nat) <= usize::MAX,
    ensures
        count == binomial(n as nat, k as nat),
{
    if k == 0 {
        return 1;
    }
    let m: usize = n - k as usize;
    let mut count: usize = 1;
    let mut i: usize = 0;
    while i < k as usize
        invariant
            m + k == n,
            0 <= i <= k,
            count == binomial((m + i) as nat, i as nat),
            binomial(n as nat, k as nat) <= usize::MAX,
        decreases k - i,
    {
        let next = i + 1;
        proof {
            lemma_binomial_absorb((m + next) as nat, next as nat);
            lemma_binomial_grows(m as nat, next as nat, k as nat);
        }
        let ghost target = binomial((m + next) as nat, next as nat);
        assert(count * (m + next) <= 0xffff_ffff_ffff_ffff * 0xffff_ffff_ffff_ffff)
            by (nonlinear_arith)
            requires
                0 <= count <= 0xffff_ffff_ffff_ffff,
                0 <= m + next <= 0xffff_ffff_ffff_ffff,
        ;
        let product: u128 = (count as u128) * ((m + next) as u128);
        assert(product == next * target) by (nonlinear_arith)
            requires
                product == count * (m + next),
                next * target == (m + next) * count,
        ;
        assert((next * target) / (next as int) == target) by {
            assert(next * target == target * next) by (nonlinear_arith);
            lemma_div_by_multiple(target as int, next as int);
        }
        let quotient: u128 = product / (next as u128);
        count = quotient as usize;
        i = next;
    }
    count
}

/// For each string, the number of its variant-index records: the number of
/// choices of at most `max_distance` of its positions.
pub fn get_num_del_vars_per_string(strings: &Vec<Vec<u8>>, max_distance: MaxDistance) -> (counts:
    Vec<usize>)
    requires
        forall|i: int|
            0 <= i < strings.len() ==> num_deletion_variants(
                (#[trigger] strings[i]).len() as nat,
                max_distance@,
            ) <= usize::MAX,
    ensures
        counts.len() == strings.len(),
        forall|i: int|
            0 <= i < strings.len() ==> #[trigger] counts[i] == num_deletion_variants(
                strings[i].len() as nat,
                max_distance@,
            ),
{
    let limit = max_distance.as_u8();
    let mut counts: Vec<usize> = Vec::with_capacity(strings.len());
    let mut i: usize = 0;
    while i < strings.len()
        invariant
            limit == max_distance@,
            limit <= 254,
            0 <= i <= strings.len(),
            counts.len() == i,
            forall|t: int|
                0 <= t < strings.len() ==> num_deletion_variants(
                    (#[trigger] strings[t]).len() as nat,
                    max_distance@,
                ) <= usize::MAX,
            forall|t: int|
                0 <= t < i ==> #[trigger] counts[t] == num_deletion_variants(
                    strings[t].len() as nat,
                    max_distance@,
                ),
        decreases strings.len() - i,
    {
        let len = strings[i].len();
        let ghost most: nat = if limit as nat <= len as nat {
            limit as nat
        } else {
            len as nat
        };
        assert(num_deletion_variants(strings[i as int].len() as nat, max_distance@)
            == choices_up_to(len as nat, most));
        let mut num_vars: usize = 1;
        let mut k: u8 = 1;
        while k <= limit && k as usize <= len
            invariant
                limit <= 254,
                1 <= k <= limit + 1,
                k - 1 <= len,
                most == if limit as nat <= len as nat {
                    limit as nat
                } else {
                    len as nat
                },
                num_vars == choices_up_to(len as nat, (k - 1) as nat),
                choices_up_to(len as nat, most) <= usize::MAX,
            decreases limit + 1 - k,
        {
            proof {
                lemma_choices_grow(len as nat, k as nat, most);
            }
            num_vars = num_vars + get_num_k_combs(len, k);
            k = k + 1;
        }
        counts.push(num_vars);
        i = i + 1;
    }
    counts
}

/// Allowing more positions to be chosen gives no fewer choices.
pub proof fn lemma_choices_grow(n: nat, j: nat, most: nat)
    requires
        j <= most,
    ensures
        choices_up_to(n, j) <= choices_up_to(n, most),
    decreases most - j,
{
    if j < most {
        lemma_choices_grow(n, j, (most - 1) as nat);
    }
}

/// The number of pairs that groups of the given sizes give.
pub open spec fn num_pairs(groups: Seq<Span>) -> nat
    decreases groups.len(),
{
    if groups.len() == 0 {
        0
    } else {
        num_pairs(groups.drop_last()) + binomial(groups.last().len as nat, 2)
    }
}

/// A group of `n` items gives `binomial(n, 2)` pairs.
pub proof fn lemma_pairs_of_len(items: Seq<u32>)
    ensures
        pairs_of(items).len() == binomial(items.len(), 2),
    decreases items.len(),
{
    let n = items.len();
    lemma_binomial_one(n);
    if n == 0 {
    } else if n == 1 {
        lemma_binomial_zero(0, 1);
        lemma_binomial_zero(0, 2);
        assert(binomial(1, 2) == binomial(0, 1) + binomial(0, 2));
    } else {
        lemma_pairs_of_len(items.drop_first());
        lemma_binomial_one((n - 1) as nat);
    }
}

/// There are `n` ways to choose one out of `n`.
pub proof fn lemma_binomial_one(n: nat)
    ensures
        binomial(n, 1) == n,
    decreases n,
{
    if n > 0 {
        lemma_binomial_one((n - 1) as nat);
        assert(binomial((n - 1) as nat, 0) == 1);
    }
}

/// A group with `q` items on one side and `r` on the other gives `q * r`
/// pairs.
pub proof fn lemma_product_of_len(q: Seq<u32>, r: Seq<u32>)
    ensures
        product_of(q, r).len() == q.len() * r.len(),
    decreases q.len(),
{
    if q.len() > 0 {
        lemma_product_of_len(q.drop_first(), r);
        assert(q.len() * r.len() == r.len() + (q.len() - 1) * r.len()) by (nonlinear_arith);
    } else {
        assert(q.len() * r.len() == 0) by (nonlinear_arith)
            requires
                q.len() == 0,
        ;
    }
}

/// The number of candidate pairs that the groups give before repeats are
/// dropped: the sum, over the groups, of the number of ways to choose two of
/// a group's items.
pub fn get_num_hit_candidates(groups: &Vec<Span>) -> (count: usize)
    requires
        num_pairs(groups@) <= usize::MAX,
    ensures
        count == num_pairs(groups@),
{
    let mut count: usize = 0;
    let mut g: usize = 0;
    while g < groups.len()
        invariant
            0 <= g <= groups.len(),
            count == num_pairs(groups@.take(g as int)),
            num_pairs(groups@) <= usize::MAX,
        decreases groups.len() - g,
    {
        let len = groups[g].len();
        proof {
            assert(groups@.take(g + 1).drop_last() == groups@.take(g as int));
            lemma_num_pairs_take(groups@, g + 1);
            lemma_binomial_zero(0, 2);
            lemma_binomial_zero(1, 2);
        }
        if len >= 2 {
            count = count + get_num_k_combs(len, 2);
        }
        g = g + 1;
    }
    assert(groups@.take(g as int) == groups@);
    count
}

/// Fewer groups give no more pairs.
pub proof fn lemma_num_pairs_take(groups: Seq<Span>, g: int)
    requires
        0 <= g <= groups.len(),
    ensures
        num_pairs(groups.take(g)) <= num_pairs(groups),
    decreases groups.len(),
{
    if g < groups.len() {
        assert(groups.drop_last().take(g) == groups.take(g));
        lemma_num_pairs_take(groups.drop_last(), g);
    } else {
        assert(groups.take(g) == groups);
    }
}

/// The number of variant-index records of a whole collection: the sum, over
/// its strings, of the number of records of each.
pub open spec fn num_vi_pairs(strings: Seq<Vec<u8>>, k: nat) -> nat
    decreases strings.len(),
{
    if strings.len() == 0 {
        0
    } else {
        num_vi_pairs(strings.drop_last(), k) + num_deletion_variants(
            strings.last().len() as nat,
            k,
        )
    }
}

/// Fewer strings have no more records, and no string has more than all.
pub proof fn lemma_num_vi_pairs_take(strings: Seq<Vec<u8>>, k: nat, i: int)
    requires
        0 <= i <= strings.len(),
    ensures
        num_vi_pairs(strings.take(i), k) <= num_vi_pairs(strings, k),
        i < strings.len() ==> num_vi_pairs(strings.take(i), k) + num_deletion_variants(
            strings[i].len() as nat,
            k,
        ) == num_vi_pairs(strings.take(i + 1), k),
    decreases strings.len(),
{
    if i < strings.len() {
        assert(strings.take(i + 1).drop_last() == strings.take(i));
        assert(strings.drop_last().take(i) == strings.take(i));
        lemma_num_vi_pairs_take(strings.drop_last(), k, i);
    } else {
        assert(strings.take(i) == strings);
    }
}

/// The number of variant-index records that a collection gives: what the
/// index holds before it is sorted and its repeats are dropped.
pub fn get_num_vi_pairs(strings: &Vec<Vec<u8>>, max_distance: MaxDistance) -> (count: usize)
    requires
        num_vi_pairs(strings@, max_distance@) <= usize::MAX,
    ensures
        count == num_vi_pairs(strings@, max_distance@),
{
    proof {
        assert forall|i: int| 0 <= i < strings.len() implies num_deletion_variants(
            (#[trigger] strings[i]).len() as nat,
            max_distance@,
        ) <= usize::MAX by {
            lemma_num_vi_pairs_take(strings@, max_distance@, i);
            lemma_num_vi_pairs_take(strings@, max_distance@, i + 1);
        }
    }
    let counts = get_num_del_vars_per_string(strings, max_distance);
    let mut count: usize = 0;
    let mut i: usize = 0;
    while i < strings.len()
        invariant
            0 <= i <= strings.len(),
            counts.len() == strings.len(),
            forall|t: int|
                0 <= t < strings.len() ==> #[trigger] counts[t] == num_deletion_variants(
                    strings[t].len() as nat,
                    max_distance@,
                ),
            count == num_vi_pairs(strings@.take(i as int), max_distance@),
            num_vi_pairs(strings@, max_distance@) <= usize::MAX,
        decreases strings.len() - i,
    {
        proof {
            lemma_num_vi_pairs_take(strings@, max_distance@, i as int);
            lemma_num_vi_pairs_take(strings@, max_distance@, i + 1);
        }
        count = count + counts[i];
        i = i + 1;
    }
    assert(strings@.take(i as int) == strings@);
    count
}

} // verus!
