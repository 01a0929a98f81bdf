//! The distance check of the candidate pairs, and the sparse matrix of those
//! that pass it.

use vstd::prelude::*;
use crate::levenshtein::{capped_distance, distance_within, levenshtein};
use crate::order::{lemma_contains_push, lemma_sorted_pairs_unique, pair_lt, pairs_strictly_sorted};
use crate::parallel::{par_map_indexed, views_of, MIN_ITEMS_PER_TASK};
use crate::utils::MaxDistance;

verus! {

/// The neighbor pairs of a request as three parallel arrays: entry `t` says
/// that string `row[t]` of the query and string `col[t]` of the reference are
/// `dists[t]` apart.
#[derive(Debug, Clone, PartialEq, Eq)]
pub struct SparseDistMatrix {
    pub row: Vec<u32>,
    pub col: Vec<u32>,
    pub dists: Vec<u8>,
}

impl SparseDistMatrix {
    /// The three arrays are equally long.
    pub open spec fn is_aligned(self) -> bool {
        self.row.len() == self.col.len() && self.col.len() == self.dists.len()
    }

    /// The `(row, col)` pairs in the order they are stored.
    pub open spec fn pairs(self) -> Seq<(u32, u32)> {
        Seq::new(self.row.len() as nat, |t: int| (self.row[t], self.col[t]))
    }

    /// The `(row, col, dist)` entries in the order they are stored.
    pub open spec fn entries(self) -> Seq<(u32, u32, u8)> {
        Seq::new(self.row.len() as nat, |t: int| (self.row[t], self.col[t], self.dists[t]))
    }

    /// The number of entries.
    pub fn len(&self) -> (n: usize)
        ensures
            n == self.row.len(),
    {
        self.row.len()
    }
}

/// String `i` of the query and string `j` of the reference are within `k` of
/// each other. Inside one collection only pairs with `i < j` count.
pub open spec fn is_neighbor(
    query: Seq<Seq<u8>>,
    reference: Seq<Seq<u8>>,
    k: nat,
    within: bool,
    i: u32,
    j: u32,
) -> bool {
    &&& i < query.len()
    &&& j < reference.len()
    &&& within ==> i < j
    &&& levenshtein(query[i as int], reference[j as int]) <= k
}

/// `m` is the answer to a request: it lists exactly the neighbor pairs, each
/// once and with its true distance, ascending by row and then by column.
pub open spec fn is_neighbor_list(
    m: SparseDistMatrix,
    query: Seq<Seq<u8>>,
    reference: Seq<Seq<u8>>,
    k: nat,
    within: bool,
) -> bool {
    &&& m.is_aligned()
    &&& pairs_strictly_sorted(m.pairs())
    &&& forall|t: int|
        0 <= t < m.row.len() ==> is_neighbor(
            query,
            reference,
            k,
            within,
            #[trigger] m.row[t],
            m.col[t],
        ) && m.dists[t] == levenshtein(query[m.row[t] as int], reference[m.col[t] as int])
    &&& forall|i: u32, j: u32|
        is_neighbor(query, reference, k, within, i, j) ==> m.pairs().contains((i, j))
}

/// The candidates of the first `n` positions whose distance passed, each with
/// its distance, in the order of the candidates.
pub open spec fn true_hits(cands: Seq<(u32, u32)>, dists: Seq<u8>, k: nat, n: nat) -> Seq<
    (u32, u32, u8),
>
    decreases n,
{
    if n == 0 {
        Seq::empty()
    } else {
        let before = true_hits(cands, dists, k, (n - 1) as nat);
        if dists[n - 1] > k {
            before
        } else {
            before.push((cands[n - 1].0, cands[n - 1].1, dists[n - 1]))
        }
    }
}

/// The shorter of the two lengths.
pub open spec fn shorter(a: nat, b: nat) -> nat {
    if a <= b {
        a
    } else {
        b
    }
}

/// The distance of every candidate pair, 255 where it is above the threshold.
pub fn compute_dists(
    hit_candidates: &Vec<(u32, u32)>,
    query: &Vec<Vec<u8>>,
    reference: &Vec<Vec<u8>>,
    max_distance: MaxDistance,
) -> (dists: Vec<u8>)
    requires
        forall|t: int|
            0 <= t < hit_candidates.len() ==> (#[trigger] hit_candidates[t]).0 < query.len()
                && hit_candidates[t].1 < reference.len(),
    ensures
        dists.len() == hit_candidates.len(),
        forall|t: int|
            0 <= t < dists.len() ==> #[trigger] dists[t] == capped_distance(
                query[hit_candidates[t].0 as int]@,
                reference[hit_candidates[t].1 as int]@,
                max_distance@,
            ),
{
    let measure = |t: usize, pair: &(u32, u32)| -> (d: u8)
        requires
            pair.0 < query.len(),
            pair.1 < reference.len(),
        ensures
            d == capped_distance(
                query[pair.0 as int]@,
                reference[pair.1 as int]@,
                max_distance@,
            ),
        {
            distance_within(
                query[pair.0 as usize].as_slice(),
                reference[pair.1 as usize].as_slice(),
                max_distance,
            )
        };
    par_map_indexed(hit_candidates, MIN_ITEMS_PER_TASK, measure)
}

/// Calls `Vec::shrink_to_fit`, which gives back the capacity that the vector
/// does not need and leaves what it holds as it is.
#[verifier::external_body]
fn shrink_to_fit<T>(v: &mut Vec<T>)
    ensures
        final(v)@ == old(v)@,
{
    v.shrink_to_fit();
}

/// Keeps the candidates whose distance is within the threshold, in their
/// order, as three parallel arrays that hold no more memory than they need.
pub fn collect_true_hits(
    hit_candidates: &Vec<(u32, u32)>,
    dists: &Vec<u8>,
    max_distance: MaxDistance,
) -> (m: SparseDistMatrix)
    ensures
        m.is_aligned(),
        m.entries() == true_hits(
            hit_candidates@,
            dists@,
            max_distance@,
            shorter(hit_candidates@.len(), dists@.len()),
        ),
{
    let k = max_distance.as_u8();
    let n = if hit_candidates.len() <= dists.len() {
        hit_candidates.len()
    } else {
        dists.len()
    };
    let mut m = SparseDistMatrix {
        row: Vec::with_capacity(n),
        col: Vec::with_capacity(n),
        dists: Vec::with_capacity(n),
    };
    let mut t: usize = 0;
    assert(m.entries() =~= true_hits(hit_candidates@, dists@, k as nat, 0));
    while t < n
        invariant
            k == max_distance@,
            n <= hit_candidates.len(),
            n <= dists.len(),
            0 <= t <= n,
            m.is_aligned(),
            m.entries() == true_hits(hit_candidates@, dists@, k as nat, t as nat),
        decreases n - t,
    {
        let (qi, ri) = hit_candidates[t];
        let d = dists[t];
        let ghost before = m.entries();
        if d <= k {
            m.row.push(qi);
            m.col.push(ri);
            m.dists.push(d);
            assert(m.entries() =~= before.push((qi, ri, d)));
        }
        t = t + 1;
    }
    shrink_to_fit(&mut m.row);
    shrink_to_fit(&mut m.col);
    shrink_to_fit(&mut m.dists);
    m
}

/// What `true_hits` keeps of a sorted candidate list: a sorted list of the
/// candidates that passed.
proof fn lemma_true_hits(cands: Seq<(u32, u32)>, dists: Seq<u8>, k: nat, n: nat)
    requires
        pairs_strictly_sorted(cands),
        n <= cands.len(),
        n <= dists.len(),
    ensures
        forall|e: (u32, u32, u8)| #[trigger]
            true_hits(cands, dists, k, n).contains(e) <==> exists|t: int|
                0 <= t < n && dists[t] <= k && e == (cands[t].0, cands[t].1, dists[t]),
        forall|x: int, y: int|
            0 <= x < y < true_hits(cands, dists, k, n).len() ==> pair_lt(
                (true_hits(cands, dists, k, n)[x].0, true_hits(cands, dists, k, n)[x].1),
                (true_hits(cands, dists, k, n)[y].0, true_hits(cands, dists, k, n)[y].1),
            ),
    decreases n,
{
    let hits = true_hits(cands, dists, k, n);
    if n == 0 {
    } else {
        let before = true_hits(cands, dists, k, (n - 1) as nat);
        lemma_true_hits(cands, dists, k, (n - 1) as nat);
        let last = (cands[n - 1].0, cands[n - 1].1, dists[n - 1]);
        assert forall|e: (u32, u32, u8)| #[trigger]
            hits.contains(e) <==> exists|t: int|
                0 <= t < n && dists[t] <= k && e == (cands[t].0, cands[t].1, dists[t]) by {
            if dists[n - 1] <= k {
                lemma_contains_push(before, last, e);
            }
            if before.contains(e) {
                let t = choose|t: int|
                    0 <= t < n - 1 && dists[t] <= k && e == (cands[t].0, cands[t].1, dists[t]);
                assert(0 <= t < n);
            }
            if exists|t: int|
                0 <= t < n && dists[t] <= k && e == (cands[t].0, cands[t].1, dists[t]) {
                let t = choose|t: int|
                    0 <= t < n && dists[t] <= k && e == (cands[t].0, cands[t].1, dists[t]);
                if t < n - 1 {
                    assert(before.contains(e));
                }
            }
        }
        assert forall|x: int, y: int| 0 <= x < y < hits.len() implies pair_lt(
            (hits[x].0, hits[x].1),
            (hits[y].0, hits[y].1),
        ) by {
            if y < before.len() {
                assert(pair_lt((before[x].0, before[x].1), (before[y].0, before[y].1)));
            } else {
                assert(hits[y] == last);
                assert(before.contains(before[x]));
                let t = choose|t: int|
                    0 <= t < n - 1 && dists[t] <= k && before[x] == (
                        cands[t].0,
                        cands[t].1,
                        dists[t],
                    );
                assert(pair_lt(cands[t], cands[n - 1]));
            }
        }
    }
}

/// Checked candidates make the answer: where the candidate list is sorted
/// without repeats, stays inside the collections, holds every neighbor pair,
/// and each candidate's distance was computed, the kept entries are exactly
/// the neighbor pairs.
pub proof fn lemma_hits_are_neighbors(
    m: SparseDistMatrix,
    cands: Seq<(u32, u32)>,
    dists: Seq<u8>,
    query: Seq<Seq<u8>>,
    reference: Seq<Seq<u8>>,
    k: nat,
    within: bool,
)
    requires
        k <= 254,
        m.is_aligned(),
        m.entries() == true_hits(cands, dists, k, cands.len()),
        pairs_strictly_sorted(cands),
        dists.len() == cands.len(),
        forall|t: int|
            0 <= t < cands.len() ==> (#[trigger] cands[t]).0 < query.len() && cands[t].1
                < reference.len() && (within ==> cands[t].0 < cands[t].1),
        forall|t: int|
            0 <= t < cands.len() ==> #[trigger] dists[t] == capped_distance(
                query[cands[t].0 as int],
                reference[cands[t].1 as int],
                k,
            ),
        forall|i: u32, j: u32|
            is_neighbor(query, reference, k, within, i, j) ==> cands.contains((i, j)),
    ensures
        is_neighbor_list(m, query, reference, k, within),
{
    let hits = true_hits(cands, dists, k, cands.len());
    lemma_true_hits(cands, dists, k, cands.len());
    assert forall|x: int, y: int| 0 <= x < y < m.pairs().len() implies pair_lt(
        m.pairs()[x],
        m.pairs()[y],
    ) by {
        assert(m.entries()[x] == hits[x]);
        assert(m.entries()[y] == hits[y]);
        assert(pair_lt((hits[x].0, hits[x].1), (hits[y].0, hits[y].1)));
    }
    assert forall|t: int| 0 <= t < m.row.len() implies is_neighbor(
        query,
        reference,
        k,
        within,
        #[trigger] m.row[t],
        m.col[t],
    ) && m.dists[t] == levenshtein(query[m.row[t] as int], reference[m.col[t] as int]) by {
        let e = m.entries()[t];
        assert(hits.contains(e));
        let c = choose|c: int|
            0 <= c < cands.len() && dists[c] <= k && e == (cands[c].0, cands[c].1, dists[c]);
        assert(cands[c].0 < query.len());
    }
    assert forall|i: u32, j: u32| is_neighbor(query, reference, k, within, i, j) implies m.pairs().contains(
        (i, j),
    ) by {
        assert(cands.contains((i, j)));
        let c = choose|c: int| 0 <= c < cands.len() && cands[c] == (i, j);
        let e = (i, j, dists[c]);
        assert(dists[c] <= k);
        assert(hits.contains(e));
        let t = choose|t: int| 0 <= t < hits.len() && hits[t] == e;
        assert(m.entries()[t] == e);
        assert(m.pairs()[t] == (i, j));
    }
}

/// There is one answer to a request: two matrices that both list exactly the
/// neighbor pairs are equal, array by array.
pub proof fn lemma_neighbor_list_unique(
    m1: SparseDistMatrix,
    m2: SparseDistMatrix,
    query: Seq<Seq<u8>>,
    reference: Seq<Seq<u8>>,
    k: nat,
    within: bool,
)
    requires
        is_neighbor_list(m1, query, reference, k, within),
        is_neighbor_list(m2, query, reference, k, within),
    ensures
        m1.row@ == m2.row@,
        m1.col@ == m2.col@,
        m1.dists@ == m2.dists@,
{
    let first_pairs = m1.pairs();
    let second_pairs = m2.pairs();
    assert forall|p: (u32, u32)| first_pairs.contains(p) <==> second_pairs.contains(p) by {
        if first_pairs.contains(p) {
            let t = choose|t: int| 0 <= t < first_pairs.len() && first_pairs[t] == p;
            assert(is_neighbor(query, reference, k, within, m1.row[t], m1.col[t]));
        }
        if second_pairs.contains(p) {
            let t = choose|t: int| 0 <= t < second_pairs.len() && second_pairs[t] == p;
            assert(is_neighbor(query, reference, k, within, m2.row[t], m2.col[t]));
        }
    }
    lemma_sorted_pairs_unique(first_pairs, second_pairs);
    assert forall|t: int| 0 <= t < m1.row.len() implies m1.row[t] == m2.row[t] && m1.col[t]
        == m2.col[t] && m1.dists[t] == m2.dists[t] by {
        assert(first_pairs[t] == second_pairs[t]);
        assert(is_neighbor(query, reference, k, within, m1.row[t], m1.col[t]));
        assert(is_neighbor(query, reference, k, within, m2.row[t], m2.col[t]));
    }
    assert(m1.row@ =~= m2.row@);
    assert(m1.col@ =~= m2.col@);
    assert(m1.dists@ =~= m2.dists@);
}

/// What `compute_dists` reports for a candidate list.
pub open spec fn capped_distances(
    cands: Seq<(u32, u32)>,
    query: Seq<Seq<u8>>,
    reference: Seq<Seq<u8>>,
    k: nat,
) -> Seq<u8> {
    Seq::new(
        cands.len(),
        |t: int| capped_distance(query[cands[t].0 as int], reference[cands[t].1 as int], k),
    )
}

/// Checks the candidates and lists those within the threshold as line
/// numbers: positions as they are where `zero_index` is set, and counted from
/// one where it is not.
pub fn get_true_hits(
    hit_candidates: &Vec<(u32, u32)>,
    query: &Vec<Vec<u8>>,
    reference: &Vec<Vec<u8>>,
    max_distance: MaxDistance,
    zero_index: bool,
) -> (out: (Vec<usize>, Vec<usize>, Vec<u8>))
    requires
        forall|t: int|
            0 <= t < hit_candidates.len() ==> (#[trigger] hit_candidates[t]).0 < query.len()
                && hit_candidates[t].1 < reference.len(),
    ensures
        ({
            let hits = true_hits(
                hit_candidates@,
                capped_distances(
                    hit_candidates@,
                    views_of(query@),
                    views_of(reference@),
                    max_distance@,
                ),
                max_distance@,
                hit_candidates@.len(),
            );
            let first: int = if zero_index {
                0
            } else {
                1
            };
            &&& out.0.len() == hits.len()
            &&& out.1.len() == hits.len()
            &&& out.2.len() == hits.len()
            &&& forall|t: int|
                0 <= t < hits.len() ==> out.0[t] == (#[trigger] hits[t]).0 + first && out.1[t]
                    == hits[t].1 + first && out.2[t] == hits[t].2
        }),
{
    let dists = compute_dists(hit_candidates, query, reference, max_distance);
    let ghost expected = capped_distances(
        hit_candidates@,
        views_of(query@),
        views_of(reference@),
        max_distance@,
    );
    assert(dists@ =~= expected) by {
        assert forall|t: int| 0 <= t < dists.len() implies dists[t] == expected[t] by {
            assert(views_of(query@)[hit_candidates[t].0 as int]
                == query[hit_candidates[t].0 as int]@);
            assert(views_of(reference@)[hit_candidates[t].1 as int]
                == reference[hit_candidates[t].1 as int]@);
        }
    }
    let m = collect_true_hits(hit_candidates, &dists, max_distance);
    let ghost hits = m.entries();
    proof {
        lemma_true_hits_come_from(
            hit_candidates@,
            dists@,
            max_distance@,
            hit_candidates@.len(),
        );
    }
    let n = m.row.len();
    let mut rows: Vec<usize> = Vec::with_capacity(n);
    let mut cols: Vec<usize> = Vec::with_capacity(n);
    let mut t: usize = 0;
    while t < n
        invariant
            n == m.row.len(),
            m.is_aligned(),
            hits == m.entries(),
            forall|e: (u32, u32, u8)| #[trigger]
                hits.contains(e) ==> e.0 < query.len() && e.1 < reference.len(),
            0 <= t <= n,
            rows.len() == t,
            cols.len() == t,
            forall|i: int|
                0 <= i < t ==> #[trigger] rows[i] == m.row[i] + if zero_index {
                    0int
                } else {
                    1int
                },
            forall|i: int|
                0 <= i < t ==> #[trigger] cols[i] == m.col[i] + if zero_index {
                    0int
                } else {
                    1int
                },
        decreases n - t,
    {
        assert(hits.contains(hits[t as int]));
        let qi = m.row[t] as usize;
        let ri = m.col[t] as usize;
        if zero_index {
            rows.push(qi);
            cols.push(ri);
        } else {
            rows.push(qi + 1);
            cols.push(ri + 1);
        }
        t = t + 1;
    }
    (rows, cols, m.dists)
}

/// Every kept entry is one of the candidates.
proof fn lemma_true_hits_come_from(cands: Seq<(u32, u32)>, dists: Seq<u8>, k: nat, n: nat)
    requires
        n <= cands.len(),
    ensures
        forall|e: (u32, u32, u8)| #[trigger]
            true_hits(cands, dists, k, n).contains(e) ==> cands.contains((e.0, e.1)),
    decreases n,
{
    if n > 0 {
        let before = true_hits(cands, dists, k, (n - 1) as nat);
        lemma_true_hits_come_from(cands, dists, k, (n - 1) as nat);
        let last = (cands[n - 1].0, cands[n - 1].1, dists[n - 1]);
        assert forall|e: (u32, u32, u8)| #[trigger]
            true_hits(cands, dists, k, n).contains(e) implies cands.contains((e.0, e.1)) by {
            lemma_contains_push(before, last, e);
            if !before.contains(e) {
                assert(cands[n - 1] == (e.0, e.1));
            }
        }
    }
}

} // verus!
