//! What holds of every answer: the laws of the neighbor search, each proved
//! from what the entry points promise.

use vstd::prelude::*;
use crate::cached::CachedRef;
use crate::hits::{
    is_neighbor, is_neighbor_list, lemma_neighbor_list_unique, SparseDistMatrix,
};
use crate::levenshtein::{lemma_levenshtein_self, levenshtein};
use crate::order::{lemma_contains_push, lemma_sorted_pairs_unique, pair_lt, pairs_strictly_sorted};

verus! {

/// Strings at distance zero are the same string.
pub proof fn lemma_zero_distance_is_equality(a: Seq<u8>, b: Seq<u8>)
    requires
        levenshtein(a, b) == 0,
    ensures
        a == b,
    decreases a.len() + b.len(),
{
    if a.len() == 0 || b.len() == 0 {
        assert(a =~= b);
    } else {
        lemma_zero_distance_is_equality(a.drop_last(), b.drop_last());
        assert(a =~= a.drop_last().push(a.last()));
        assert(b =~= b.drop_last().push(b.last()));
    }
}

/// Completeness: every pair of strings of one collection that are within `k`
/// of each other is listed, once, with the lower position as the row.
pub proof fn law_within_complete(
    m: SparseDistMatrix,
    strings: Seq<Seq<u8>>,
    k: nat,
    i: u32,
    j: u32,
) -> (t: int)
    requires
        is_neighbor_list(m, strings, strings, k, true),
        i < j,
        j < strings.len(),
        levenshtein(strings[i as int], strings[j as int]) <= k,
    ensures
        0 <= t < m.row.len(),
        m.row[t] == i,
        m.col[t] == j,
        forall|u: int| 0 <= u < m.row.len() && m.row[u] == i && m.col[u] == j ==> u == t,
{
    assert(is_neighbor(strings, strings, k, true, i, j));
    assert(m.pairs().contains((i, j)));
    let t = choose|t: int| 0 <= t < m.pairs().len() && m.pairs()[t] == (i, j);
    assert forall|u: int| 0 <= u < m.row.len() && m.row[u] == i && m.col[u] == j implies u
        == t by {
        if u < t {
            assert(pair_lt(m.pairs()[u], m.pairs()[t]));
        }
        if t < u {
            assert(pair_lt(m.pairs()[t], m.pairs()[u]));
        }
    }
    t
}

/// Completeness across two collections: every string of the query and string
/// of the reference that are within `k` of each other are listed, once.
pub proof fn law_cross_complete(
    m: SparseDistMatrix,
    query: Seq<Seq<u8>>,
    reference: Seq<Seq<u8>>,
    k: nat,
    i: u32,
    j: u32,
) -> (t: int)
    requires
        is_neighbor_list(m, query, reference, k, false),
        i < query.len(),
        j < reference.len(),
        levenshtein(query[i as int], reference[j as int]) <= k,
    ensures
        0 <= t < m.row.len(),
        m.row[t] == i,
        m.col[t] == j,
        forall|u: int| 0 <= u < m.row.len() && m.row[u] == i && m.col[u] == j ==> u == t,
{
    assert(is_neighbor(query, reference, k, false, i, j));
    assert(m.pairs().contains((i, j)));
    let t = choose|t: int| 0 <= t < m.pairs().len() && m.pairs()[t] == (i, j);
    assert forall|u: int| 0 <= u < m.row.len() && m.row[u] == i && m.col[u] == j implies u
        == t by {
        if u < t {
            assert(pair_lt(m.pairs()[u], m.pairs()[t]));
        }
        if t < u {
            assert(pair_lt(m.pairs()[t], m.pairs()[u]));
        }
    }
    t
}

/// Soundness: every listed entry names two strings that exist, gives their
/// Levenshtein distance, and that distance is within the threshold.
pub proof fn law_sound(
    m: SparseDistMatrix,
    query: Seq<Seq<u8>>,
    reference: Seq<Seq<u8>>,
    k: nat,
    within: bool,
    t: int,
)
    requires
        is_neighbor_list(m, query, reference, k, within),
        0 <= t < m.row.len(),
    ensures
        t < m.col.len(),
        t < m.dists.len(),
        m.row[t] < query.len(),
        m.col[t] < reference.len(),
        m.dists[t] == levenshtein(query[m.row[t] as int], reference[m.col[t] as int]),
        m.dists[t] <= k,
{
    assert(is_neighbor(query, reference, k, within, m.row[t], m.col[t]));
}

/// Ordering: the entries ascend by row and then by column, and inside one
/// collection every row is less than its column.
pub proof fn law_ordered(
    m: SparseDistMatrix,
    query: Seq<Seq<u8>>,
    reference: Seq<Seq<u8>>,
    k: nat,
    within: bool,
    t: int,
    u: int,
)
    requires
        is_neighbor_list(m, query, reference, k, within),
        0 <= t < u < m.row.len(),
    ensures
        m.row[t] < m.row[u] || (m.row[t] == m.row[u] && m.col[t] < m.col[u]),
        within ==> m.row[t] < m.col[t] && m.row[u] < m.col[u],
{
    assert(pair_lt(m.pairs()[t], m.pairs()[u]));
    assert(is_neighbor(query, reference, k, within, m.row[t], m.col[t]));
    assert(is_neighbor(query, reference, k, within, m.row[u], m.col[u]));
}

/// Cache equivalence: a cached reference answers a query inside itself, and a
/// query against it, as the ad-hoc search answers on the strings it was built
/// from, for every threshold up to the one it was built for.
pub proof fn law_cache_equivalence(
    cached: CachedRef,
    reference: Seq<Seq<u8>>,
    query: Seq<Seq<u8>>,
    k: nat,
    within_cached: SparseDistMatrix,
    within_fresh: SparseDistMatrix,
    cross_cached: SparseDistMatrix,
    cross_fresh: SparseDistMatrix,
)
    requires
        cached.strings() == reference,
        k <= cached.threshold(),
        is_neighbor_list(within_cached, cached.strings(), cached.strings(), k, true),
        is_neighbor_list(within_fresh, reference, reference, k, true),
        is_neighbor_list(cross_cached, query, cached.strings(), k, false),
        is_neighbor_list(cross_fresh, query, reference, k, false),
    ensures
        within_cached.row@ == within_fresh.row@,
        within_cached.col@ == within_fresh.col@,
        within_cached.dists@ == within_fresh.dists@,
        cross_cached.row@ == cross_fresh.row@,
        cross_cached.col@ == cross_fresh.col@,
        cross_cached.dists@ == cross_fresh.dists@,
{
    lemma_neighbor_list_unique(within_cached, within_fresh, reference, reference, k, true);
    lemma_neighbor_list_unique(cross_cached, cross_fresh, query, reference, k, false);
}

/// Cache equivalence with a cached query: two cached references answer a
/// query of one against the other as the ad-hoc search answers on the strings
/// they were built from, for every threshold up to the lower of the two they
/// were built for.
pub proof fn law_cached_query_equivalence(
    reference: CachedRef,
    query: CachedRef,
    k: nat,
    cached: SparseDistMatrix,
    fresh: SparseDistMatrix,
)
    requires
        k <= reference.threshold(),
        k <= query.threshold(),
        is_neighbor_list(cached, query.strings(), reference.strings(), k, false),
        is_neighbor_list(fresh, query.strings(), reference.strings(), k, false),
    ensures
        cached.row@ == fresh.row@,
        cached.col@ == fresh.col@,
        cached.dists@ == fresh.dists@,
{
    lemma_neighbor_list_unique(cached, fresh, query.strings(), reference.strings(), k, false);
}

/// Idempotence: two cached references built from the same strings for the
/// same threshold give the same answers.
pub proof fn law_idempotent(
    first: CachedRef,
    second: CachedRef,
    query: Seq<Seq<u8>>,
    k: nat,
    within_first: SparseDistMatrix,
    within_second: SparseDistMatrix,
    cross_first: SparseDistMatrix,
    cross_second: SparseDistMatrix,
)
    requires
        first.strings() == second.strings(),
        first.threshold() == second.threshold(),
        k <= first.threshold(),
        is_neighbor_list(within_first, first.strings(), first.strings(), k, true),
        is_neighbor_list(within_second, second.strings(), second.strings(), k, true),
        is_neighbor_list(cross_first, query, first.strings(), k, false),
        is_neighbor_list(cross_second, query, second.strings(), k, false),
    ensures
        within_first.row@ == within_second.row@,
        within_first.col@ == within_second.col@,
        within_first.dists@ == within_second.dists@,
        cross_first.row@ == cross_second.row@,
        cross_first.col@ == cross_second.col@,
        cross_first.dists@ == cross_second.dists@,
{
    let strings = first.strings();
    lemma_neighbor_list_unique(within_first, within_second, strings, strings, k, true);
    lemma_neighbor_list_unique(cross_first, cross_second, query, strings, k, false);
}

/// The entries above the diagonal, in their order.
pub open spec fn above_diagonal(entries: Seq<(u32, u32, u8)>) -> Seq<(u32, u32, u8)>
    decreases entries.len(),
{
    if entries.len() == 0 {
        Seq::empty()
    } else if entries.last().0 < entries.last().1 {
        above_diagonal(entries.drop_last()).push(entries.last())
    } else {
        above_diagonal(entries.drop_last())
    }
}

/// The `(row, col)` part of each entry.
pub open spec fn pairs_of_entries(entries: Seq<(u32, u32, u8)>) -> Seq<(u32, u32)> {
    entries.map_values(|e: (u32, u32, u8)| (e.0, e.1))
}

/// What is above the diagonal of a sorted list is a sorted list of the
/// entries whose row is less than their column.
proof fn lemma_above_diagonal(entries: Seq<(u32, u32, u8)>)
    requires
        pairs_strictly_sorted(pairs_of_entries(entries)),
    ensures
        pairs_strictly_sorted(pairs_of_entries(above_diagonal(entries))),
        forall|e: (u32, u32, u8)| #[trigger]
            above_diagonal(entries).contains(e) <==> entries.contains(e) && e.0 < e.1,
    decreases entries.len(),
{
    if entries.len() > 0 {
        let head = entries.drop_last();
        let last = entries.last();
        let all = pairs_of_entries(entries);
        assert(pairs_strictly_sorted(pairs_of_entries(head))) by {
            assert forall|x: int, y: int| 0 <= x < y < head.len() implies pair_lt(
                pairs_of_entries(head)[x],
                pairs_of_entries(head)[y],
            ) by {
                assert(pair_lt(all[x], all[y]));
            }
        }
        lemma_above_diagonal(head);
        let above_head = above_diagonal(head);
        let above = above_diagonal(entries);
        assert forall|e: (u32, u32, u8)| #[trigger]
            above.contains(e) <==> entries.contains(e) && e.0 < e.1 by {
            assert(entries =~= head.push(last));
            lemma_contains_push(head, last, e);
            lemma_contains_push(above_head, last, e);
        }
        assert forall|x: int, y: int| 0 <= x < y < above.len() implies pair_lt(
            pairs_of_entries(above)[x],
            pairs_of_entries(above)[y],
        ) by {
            if y < above_head.len() {
                assert(pair_lt(pairs_of_entries(above_head)[x], pairs_of_entries(above_head)[y]));
            } else {
                assert(above[y] == last);
                assert(above_head.contains(above_head[x]));
                assert(head.contains(above_head[x]));
                let t = choose|t: int| 0 <= t < head.len() && head[t] == above_head[x];
                assert(pair_lt(all[t], all[entries.len() - 1]));
            }
        }
    }
}

/// Symmetry: the answer inside one collection is the part above the diagonal
/// of the answer across the collection and itself.
pub proof fn law_within_is_upper_cross(
    within: SparseDistMatrix,
    cross: SparseDistMatrix,
    strings: Seq<Seq<u8>>,
    k: nat,
)
    requires
        is_neighbor_list(within, strings, strings, k, true),
        is_neighbor_list(cross, strings, strings, k, false),
    ensures
        within.entries() == above_diagonal(cross.entries()),
{
    let w = within.entries();
    let c = cross.entries();
    let u = above_diagonal(c);
    assert(pairs_of_entries(c) =~= cross.pairs());
    assert(pairs_of_entries(w) =~= within.pairs());
    lemma_above_diagonal(c);
    let wp = pairs_of_entries(w);
    let up = pairs_of_entries(u);
    assert forall|p: (u32, u32)| wp.contains(p) <==> up.contains(p) by {
        if wp.contains(p) {
            let t = choose|t: int| 0 <= t < wp.len() && wp[t] == p;
            assert(is_neighbor(strings, strings, k, true, within.row[t], within.col[t]));
            assert(is_neighbor(strings, strings, k, false, p.0, p.1));
            assert(cross.pairs().contains(p));
            let x = choose|x: int| 0 <= x < cross.pairs().len() && cross.pairs()[x] == p;
            assert(c[x].0 == p.0 && c[x].1 == p.1);
            assert(c.contains(c[x]));
            assert(u.contains(c[x]));
            let y = choose|y: int| 0 <= y < u.len() && u[y] == c[x];
            assert(up[y] == p);
        }
        if up.contains(p) {
            let y = choose|y: int| 0 <= y < up.len() && up[y] == p;
            assert(u.contains(u[y]));
            assert(c.contains(u[y]));
            let x = choose|x: int| 0 <= x < c.len() && c[x] == u[y];
            assert(is_neighbor(strings, strings, k, false, cross.row[x], cross.col[x]));
            assert(is_neighbor(strings, strings, k, true, p.0, p.1));
            assert(within.pairs().contains(p));
        }
    }
    lemma_sorted_pairs_unique(wp, up);
    assert forall|t: int| 0 <= t < w.len() implies w[t] == u[t] by {
        assert(wp[t] == up[t]);
        assert(is_neighbor(strings, strings, k, true, within.row[t], within.col[t]));
        assert(u.contains(u[t]));
        assert(c.contains(u[t]));
        let x = choose|x: int| 0 <= x < c.len() && c[x] == u[t];
        assert(is_neighbor(strings, strings, k, false, cross.row[x], cross.col[x]));
    }
    assert(wp.len() == up.len());
    assert(w =~= u);
}

/// With the threshold zero only exact duplicates are listed, and every pair
/// of duplicates is.
pub proof fn law_zero_threshold(
    m: SparseDistMatrix,
    query: Seq<Seq<u8>>,
    reference: Seq<Seq<u8>>,
    within: bool,
)
    requires
        is_neighbor_list(m, query, reference, 0, within),
    ensures
        forall|t: int|
            0 <= t < m.row.len() ==> query[(#[trigger] m.row[t]) as int]
                == reference[m.col[t] as int] && m.dists[t] == 0,
        forall|i: u32, j: u32|
            i < query.len() && j < reference.len() && (within ==> i < j) && query[i as int]
                == reference[j as int] ==> #[trigger] m.pairs().contains((i, j)),
{
    assert forall|t: int| 0 <= t < m.row.len() implies query[(#[trigger] m.row[t]) as int]
        == reference[m.col[t] as int] && m.dists[t] == 0 by {
        assert(is_neighbor(query, reference, 0, within, m.row[t], m.col[t]));
        lemma_zero_distance_is_equality(query[m.row[t] as int], reference[m.col[t] as int]);
    }
    assert forall|i: u32, j: u32|
        i < query.len() && j < reference.len() && (within ==> i < j) && query[i as int]
            == reference[j as int] implies #[trigger] m.pairs().contains((i, j)) by {
        lemma_levenshtein_self(query[i as int]);
        assert(is_neighbor(query, reference, 0, within, i, j));
    }
}

/// An empty collection on either side, or a single string searched inside
/// itself, has no neighbor pairs: the three arrays are empty.
pub proof fn law_nothing_to_pair(
    m: SparseDistMatrix,
    query: Seq<Seq<u8>>,
    reference: Seq<Seq<u8>>,
    k: nat,
    within: bool,
)
    requires
        is_neighbor_list(m, query, reference, k, within),
        query.len() == 0 || reference.len() == 0 || (within && reference.len() == 1),
    ensures
        m.row.len() == 0,
        m.col.len() == 0,
        m.dists.len() == 0,
{
    if m.row.len() > 0 {
        assert(is_neighbor(query, reference, k, within, m.row[0], m.col[0]));
    }
}

} // verus!
