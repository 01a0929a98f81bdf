//! The two ad-hoc entry points: neighbor search inside one collection and
//! across two.

use vstd::prelude::*;
use crate::candidates::{
    get_hit_candidates_from_cis_cross, get_hit_candidates_within, lemma_pairs_of_contains,
    lemma_product_of_contains, paired_across, paired_within, pairs_of, product_of, region,
};
use crate::error::{Error, InputType};
use crate::hits::{
    collect_true_hits, compute_dists, is_neighbor, is_neighbor_list, lemma_hits_are_neighbors,
    SparseDistMatrix,
};
use crate::index::{
    build_cross_index, build_variant_index, group_runs, is_cross_index, is_run_partition,
    is_uniform, is_variant_index, lemma_position_of, lemma_run_of, lemma_same_digest_same_run,
    project_origins, project_values, word_is_ref, word_value,
};
use crate::levenshtein::{is_variant, lemma_neighbors_share_variant, levenshtein};
use crate::order::{pairs_strictly_sorted, record_lt, records_strictly_sorted};
use crate::parallel::views_of;
use crate::span::Span;
use crate::utils::{tag_word, CrossIndex, MaxDistance};
use crate::variants::{has_variant_hash, variant_hash};

verus! {

/// Two strings have deletion variants of the same digest, the first for the
/// threshold `ka` and the second for `kb`.
pub open spec fn shares_variant(a: Seq<u8>, ka: nat, b: Seq<u8>, kb: nat) -> bool {
    exists|h: u64| has_variant_hash(a, ka, h) && has_variant_hash(b, kb, h)
}

/// String `i` of the query and string `j` of the reference converge on a
/// variant, so that the pair has to be checked. The query is indexed for the
/// threshold `kq` and the reference for `kr`. Inside one collection only
/// pairs with `i < j` count.
pub open spec fn is_candidate(
    query: Seq<Seq<u8>>,
    reference: Seq<Seq<u8>>,
    kq: nat,
    kr: nat,
    within: bool,
    i: u32,
    j: u32,
) -> bool {
    &&& i < query.len()
    &&& j < reference.len()
    &&& within ==> i < j
    &&& shares_variant(query[i as int], kq, reference[j as int], kr)
}

/// `cands` is the candidate list of a request: the converging pairs, each
/// once, ascending by row and then by column.
pub open spec fn is_candidate_list(
    cands: Seq<(u32, u32)>,
    query: Seq<Seq<u8>>,
    reference: Seq<Seq<u8>>,
    kq: nat,
    kr: nat,
    within: bool,
) -> bool {
    &&& pairs_strictly_sorted(cands)
    &&& forall|i: u32, j: u32|
        cands.contains((i, j)) <==> is_candidate(query, reference, kq, kr, within, i, j)
}

/// Every neighbor pair is a candidate pair: an index for thresholds that are
/// no lower than the one asked for misses none.
pub proof fn lemma_neighbors_are_candidates(
    query: Seq<Seq<u8>>,
    reference: Seq<Seq<u8>>,
    k: nat,
    kq: nat,
    kr: nat,
    within: bool,
    i: u32,
    j: u32,
)
    requires
        is_neighbor(query, reference, k, within, i, j),
        k <= kq,
        k <= kr,
    ensures
        is_candidate(query, reference, kq, kr, within, i, j),
{
    let a = query[i as int];
    let b = reference[j as int];
    lemma_neighbors_share_variant(a, b, k);
    let v = choose|v: Seq<u8>| is_variant(v, a, k) && is_variant(v, b, k);
    let h = variant_hash(v);
    assert(is_variant(v, a, kq));
    assert(is_variant(v, b, kr));
    assert(has_variant_hash(a, kq, h) && has_variant_hash(b, kr, h));
}

/// Strings no longer than the threshold all converge on the empty variant,
/// whatever they hold: each is a candidate for every other.
pub proof fn lemma_short_strings_converge(a: Seq<u8>, b: Seq<u8>, k: nat)
    requires
        a.len() <= k,
        b.len() <= k,
    ensures
        shares_variant(a, k, b, k),
{
    let nothing = Seq::<u8>::empty();
    assert(is_variant(nothing, a, k));
    assert(is_variant(nothing, b, k));
    let h = variant_hash(nothing);
    assert(has_variant_hash(a, k, h) && has_variant_hash(b, k, h));
}

/// Keeps of a measured candidate list the true neighbors: the answer to the
/// request.
pub(crate) fn keep_neighbors(
    cands: &Vec<(u32, u32)>,
    dists: &Vec<u8>,
    max_distance: MaxDistance,
    Ghost(query): Ghost<Seq<Seq<u8>>>,
    Ghost(reference): Ghost<Seq<Seq<u8>>>,
    Ghost(kq): Ghost<nat>,
    Ghost(kr): Ghost<nat>,
    Ghost(within): Ghost<bool>,
) -> (m: SparseDistMatrix)
    requires
        is_candidate_list(cands@, query, reference, kq, kr, within),
        max_distance@ <= kq,
        max_distance@ <= kr,
        dists.len() == cands.len(),
        forall|t: int|
            0 <= t < cands.len() ==> #[trigger] dists[t] == crate::levenshtein::capped_distance(
                query[cands[t].0 as int],
                reference[cands[t].1 as int],
                max_distance@,
            ),
    ensures
        is_neighbor_list(m, query, reference, max_distance@, within),
{
    let ghost k = max_distance@;
    let m = collect_true_hits(cands, dists, max_distance);
    proof {
        max_distance.lemma_bounded();
    }
    proof {
        assert forall|t: int| 0 <= t < cands.len() implies (#[trigger] cands[t]).0 < query.len()
            && cands[t].1 < reference.len() && (within ==> cands[t].0 < cands[t].1) by {
            assert(cands@.contains(cands[t]));
            assert(is_candidate(query, reference, kq, kr, within, cands[t].0, cands[t].1));
        }
        assert forall|i: u32, j: u32|
            is_neighbor(query, reference, k, within, i, j) implies cands@.contains((i, j)) by {
            lemma_neighbors_are_candidates(query, reference, k, kq, kr, within, i, j);
        }
        lemma_hits_are_neighbors(m, cands@, dists@, query, reference, k, within);
    }
    m
}

/// The runs that hold two records or more: a run of one cannot give a pair.
fn runs_of_several(runs: &Vec<Span>) -> (groups: Vec<Span>)
    ensures
        forall|g: int|
            0 <= g < groups.len() ==> (#[trigger] groups[g]).len >= 2 && runs@.contains(groups[g]),
        forall|r: int|
            0 <= r < runs.len() && (#[trigger] runs[r]).len >= 2 ==> groups@.contains(runs[r]),
{
    let mut groups: Vec<Span> = Vec::new();
    let mut r: usize = 0;
    while r < runs.len()
        invariant
            0 <= r <= runs.len(),
            forall|g: int|
                0 <= g < groups.len() ==> (#[trigger] groups[g]).len >= 2 && runs@.contains(
                    groups[g],
                ),
            forall|i: int|
                0 <= i < r && (#[trigger] runs[i]).len >= 2 ==> groups@.contains(runs[i]),
        decreases runs.len() - r,
    {
        let run = runs[r];
        if run.len() > 1 {
            let ghost before = groups@;
            groups.push(run);
            assert(groups@[before.len() as int] == run);
            assert forall|i: int| 0 <= i < r + 1 && (#[trigger] runs[i]).len >= 2 implies groups@.contains(
                runs[i],
            ) by {
                if i < r {
                    let g = choose|g: int| 0 <= g < before.len() && before[g] == runs[i];
                    assert(groups@[g] == runs[i]);
                }
            }
        }
        r = r + 1;
    }
    groups
}

/// In a variant index, the pairs that the runs of two or more give are the
/// candidate pairs of the collection.
proof fn lemma_within_pairs(
    recs: Seq<(u64, u32)>,
    runs: Seq<Span>,
    store: Seq<u32>,
    groups: Seq<Span>,
    q: Seq<Seq<u8>>,
    k: nat,
    i: u32,
    j: u32,
)
    requires
        is_variant_index(recs, q, k),
        is_run_partition(recs, runs),
        store.len() == recs.len(),
        forall|p: int| 0 <= p < recs.len() ==> #[trigger] store[p] == recs[p].1,
        forall|g: int|
            0 <= g < groups.len() ==> (#[trigger] groups[g]).len >= 2 && runs.contains(groups[g]),
        forall|r: int|
            0 <= r < runs.len() && (#[trigger] runs[r]).len >= 2 ==> groups.contains(runs[r]),
    ensures
        paired_within(store, groups, i, j) <==> is_candidate(q, q, k, k, true, i, j),
{
    if paired_within(store, groups, i, j) {
        let g = choose|g: int|
            0 <= g < groups.len() && pairs_of(region(store, #[trigger] groups[g])).contains((i, j));
        let items = region(store, groups[g]);
        lemma_pairs_of_contains(items, i, j);
        let (a, b) = choose|a: int, b: int|
            0 <= a < b < items.len() && items[a] == i && items[b] == j;
        assert(runs.contains(groups[g]));
        let r = choose|r: int| 0 <= r < runs.len() && runs[r] == groups[g];
        let p = runs[r].start + a;
        let p_next = runs[r].start + b;
        assert(runs[r].end() <= recs.len());
        assert(items[a] == store[p]);
        assert(items[b] == store[p_next]);
        assert(recs[p].0 == recs[runs[r].start as int].0);
        assert(recs[p_next].0 == recs[runs[r].start as int].0);
        assert(record_lt(recs[p], recs[p_next]));
        assert(recs.contains(recs[p]));
        assert(recs.contains(recs[p_next]));
        assert(has_variant_hash(q[i as int], k, recs[p].0));
        assert(has_variant_hash(q[j as int], k, recs[p].0));
    }
    if is_candidate(q, q, k, k, true, i, j) {
        let h = choose|h: u64|
            has_variant_hash(q[i as int], k, h) && has_variant_hash(q[j as int], k, h);
        assert(recs.contains((h, i)));
        assert(recs.contains((h, j)));
        let p = lemma_position_of(recs, (h, i));
        let p_next = lemma_position_of(recs, (h, j));
        if p_next < p {
            assert(record_lt(recs[p_next], recs[p]));
        }
        let r = lemma_run_of(recs, runs, p);
        lemma_same_digest_same_run(recs, runs, r, p, p_next);
        assert(runs[r].len >= 2);
        assert(groups.contains(runs[r]));
        let g = choose|g: int| 0 <= g < groups.len() && groups[g] == runs[r];
        let items = region(store, groups[g]);
        let a = p - runs[r].start;
        let b = p_next - runs[r].start;
        assert(runs[r].end() <= recs.len());
        assert(items[a] == store[p]);
        assert(items[b] == store[p_next]);
        lemma_pairs_of_contains(items, i, j);
        assert(pairs_of(region(store, groups[g])).contains((i, j)));
    }
}

/// The candidate pairs inside one collection: every two strings that have a
/// deletion variant of the same digest.
pub fn get_candidates_within(query: &Vec<Vec<u8>>, max_distance: MaxDistance) -> (cands: Vec<
    (u32, u32),
>)
    requires
        query.len() <= u32::MAX,
    ensures
        is_candidate_list(
            cands@,
            views_of(query@),
            views_of(query@),
            max_distance@,
            max_distance@,
            true,
        ),
{
    let recs = build_variant_index(query, max_distance);
    let runs = group_runs(&recs);
    let store = project_origins(&recs);
    let groups = runs_of_several(&runs);
    proof {
        assert forall|g: int| 0 <= g < groups.len() implies (#[trigger] groups[g]).fits(
            store.len() as int,
        ) by {
            let r = choose|r: int| 0 <= r < runs.len() && runs[r] == groups[g];
        }
    }
    let cands = get_hit_candidates_within(&store, &groups);
    proof {
        let q = views_of(query@);
        let k = max_distance@;
        assert forall|i: u32, j: u32| cands@.contains((i, j)) <==> is_candidate(
            q,
            q,
            k,
            k,
            true,
            i,
            j,
        ) by {
            lemma_within_pairs(recs@, runs@, store@, groups@, q, k, i, j);
        }
    }
    cands
}

/// `(qs, rs)` cuts the run in two: its records of the query side, then those
/// of the reference side.
pub open spec fn is_split(recs: Seq<(u64, u32)>, run: Span, qs: Span, rs: Span) -> bool {
    &&& qs.start == run.start
    &&& rs.start == qs.end()
    &&& rs.end() == run.end()
    &&& forall|p: int| qs.start <= p < qs.end() ==> !word_is_ref((#[trigger] recs[p]).1)
    &&& forall|p: int| rs.start <= p < rs.end() ==> word_is_ref((#[trigger] recs[p]).1)
}

/// Cuts every run at the place where its two sides meet.
fn split_runs(recs: &Vec<(u64, u32)>, runs: &Vec<Span>) -> (splits: Vec<(Span, Span)>)
    requires
        is_run_partition(recs@, runs@),
        records_strictly_sorted(recs@),
    ensures
        splits.len() == runs.len(),
        forall|r: int|
            0 <= r < runs.len() ==> is_split(recs@, runs[r], (#[trigger] splits[r]).0, splits[r].1),
{
    let mut splits: Vec<(Span, Span)> = Vec::with_capacity(runs.len());
    let mut r: usize = 0;
    while r < runs.len()
        invariant
            is_run_partition(recs@, runs@),
            records_strictly_sorted(recs@),
            0 <= r <= runs.len(),
            splits.len() == r,
            forall|i: int|
                0 <= i < r ==> is_split(recs@, runs[i], (#[trigger] splits[i]).0, splits[i].1),
        decreases runs.len() - r,
    {
        let run = runs[r];
        assert(runs[r as int].end() <= recs.len());
        let start = run.start;
        let end = run.start + run.len;
        let mut meet: usize = start;
        while meet < end && !CrossIndex::from_word(recs[meet].1).is_ref()
            invariant
                start <= meet <= end,
                end <= recs.len(),
                forall|p: int| start <= p < meet ==> !word_is_ref((#[trigger] recs[p]).1),
            decreases end - meet,
        {
            meet = meet + 1;
        }
        proof {
            assert forall|p: int| meet <= p < end implies word_is_ref((#[trigger] recs[p]).1) by {
                assert(recs[meet as int].0 == recs[start as int].0);
                assert(recs[p].0 == recs[start as int].0);
                if meet < p {
                    assert(record_lt(recs[meet as int], recs[p]));
                }
            }
        }
        let qs = Span::new(start, meet - start);
        let rs = Span::new(meet, end - meet);
        splits.push((qs, rs));
        assert(is_split(recs@, runs[r as int], qs, rs));
        r = r + 1;
    }
    splits
}

/// The splits with records on both sides: a run of one side alone cannot give
/// a pair.
fn splits_of_both_sides(splits: &Vec<(Span, Span)>) -> (groups: Vec<(Span, Span)>)
    ensures
        forall|g: int|
            0 <= g < groups.len() ==> (#[trigger] groups[g]).0.len >= 1 && groups[g].1.len >= 1
                && splits@.contains(groups[g]),
        forall|r: int|
            0 <= r < splits.len() && (#[trigger] splits[r]).0.len >= 1 && splits[r].1.len >= 1
                ==> groups@.contains(splits[r]),
{
    let mut groups: Vec<(Span, Span)> = Vec::new();
    let mut r: usize = 0;
    while r < splits.len()
        invariant
            0 <= r <= splits.len(),
            forall|g: int|
                0 <= g < groups.len() ==> (#[trigger] groups[g]).0.len >= 1 && groups[g].1.len >= 1
                    && splits@.contains(groups[g]),
            forall|i: int|
                0 <= i < r && (#[trigger] splits[i]).0.len >= 1 && splits[i].1.len >= 1
                    ==> groups@.contains(splits[i]),
        decreases splits.len() - r,
    {
        let split = splits[r];
        if split.0.len() > 0 && split.1.len() > 0 {
            let ghost before = groups@;
            groups.push(split);
            assert(groups@[before.len() as int] == split);
            assert forall|i: int|
                0 <= i < r + 1 && (#[trigger] splits[i]).0.len >= 1 && splits[i].1.len
                    >= 1 implies groups@.contains(splits[i]) by {
                if i < r {
                    let g = choose|g: int| 0 <= g < before.len() && before[g] == splits[i];
                    assert(groups@[g] == splits[i]);
                }
            }
        }
        r = r + 1;
    }
    groups
}

/// What a record of a joint variant index says of its origin.
proof fn lemma_cross_record(
    recs: Seq<(u64, u32)>,
    q: Seq<Seq<u8>>,
    rf: Seq<Seq<u8>>,
    k: nat,
    p: int,
)
    requires
        is_cross_index(recs, q, rf, k),
        0 <= p < recs.len(),
    ensures
        word_is_ref(recs[p].1) ==> word_value(recs[p].1) < rf.len() && has_variant_hash(
            rf[word_value(recs[p].1)],
            k,
            recs[p].0,
        ),
        !word_is_ref(recs[p].1) ==> word_value(recs[p].1) < q.len() && has_variant_hash(
            q[word_value(recs[p].1)],
            k,
            recs[p].0,
        ),
{
    assert(recs.contains(recs[p]));
}

/// A pair that a two-sided run gives is a candidate pair.
proof fn lemma_cross_pairs_sound(
    recs: Seq<(u64, u32)>,
    run: Span,
    store: Seq<u32>,
    qs: Span,
    rs: Span,
    q: Seq<Seq<u8>>,
    rf: Seq<Seq<u8>>,
    k: nat,
    i: u32,
    j: u32,
)
    requires
        is_cross_index(recs, q, rf, k),
        run.end() <= recs.len(),
        is_uniform(recs, run),
        is_split(recs, run, qs, rs),
        store.len() == recs.len(),
        forall|p: int| 0 <= p < recs.len() ==> #[trigger] store[p] == word_value(recs[p].1),
        product_of(region(store, qs), region(store, rs)).contains((i, j)),
    ensures
        is_candidate(q, rf, k, k, false, i, j),
{
    lemma_product_of_contains(region(store, qs), region(store, rs), i, j);
    let (a, b) = choose|a: int, b: int|
        0 <= a < region(store, qs).len() && 0 <= b < region(store, rs).len() && region(
            store,
            qs,
        )[a] == i && region(store, rs)[b] == j;
    let p = qs.start + a;
    let p_next = rs.start + b;
    assert(region(store, qs)[a] == store[p]);
    assert(region(store, rs)[b] == store[p_next]);
    assert(!word_is_ref(recs[p].1));
    assert(word_is_ref(recs[p_next].1));
    assert(recs[p].0 == recs[run.start as int].0);
    assert(recs[p_next].0 == recs[run.start as int].0);
    lemma_cross_record(recs, q, rf, k, p);
    lemma_cross_record(recs, q, rf, k, p_next);
    assert(has_variant_hash(q[i as int], k, recs[p].0));
    assert(has_variant_hash(rf[j as int], k, recs[p].0));
}

/// The places of a candidate pair in a joint variant index: two records of
/// one digest, the first of the query side and the second of the reference
/// side.
proof fn lemma_cross_places(
    recs: Seq<(u64, u32)>,
    q: Seq<Seq<u8>>,
    rf: Seq<Seq<u8>>,
    k: nat,
    i: u32,
    j: u32,
) -> (places: (int, int))
    requires
        q.len() <= CrossIndex::MAX,
        rf.len() <= CrossIndex::MAX,
        is_cross_index(recs, q, rf, k),
        is_candidate(q, rf, k, k, false, i, j),
    ensures
        0 <= places.0 < recs.len(),
        0 <= places.1 < recs.len(),
        recs[places.0].0 == recs[places.1].0,
        !word_is_ref(recs[places.0].1),
        word_is_ref(recs[places.1].1),
        word_value(recs[places.0].1) == i,
        word_value(recs[places.1].1) == j,
{
    let h = choose|h: u64|
        has_variant_hash(q[i as int], k, h) && has_variant_hash(rf[j as int], k, h);
    let wi = tag_word(i, false);
    let wj = tag_word(j, true);
    assert(word_value(wi) == i && !word_is_ref(wi));
    assert(word_value(wj) == j && word_is_ref(wj));
    assert(recs.contains((h, wi)));
    assert(recs.contains((h, wj)));
    let p = lemma_position_of(recs, (h, wi));
    let p_next = lemma_position_of(recs, (h, wj));
    (p, p_next)
}

/// A candidate pair is a pair that some two-sided run gives.
proof fn lemma_cross_pairs_complete(
    recs: Seq<(u64, u32)>,
    runs: Seq<Span>,
    store: Seq<u32>,
    splits: Seq<(Span, Span)>,
    q: Seq<Seq<u8>>,
    rf: Seq<Seq<u8>>,
    k: nat,
    i: u32,
    j: u32,
) -> (r: int)
    requires
        q.len() <= CrossIndex::MAX,
        rf.len() <= CrossIndex::MAX,
        is_cross_index(recs, q, rf, k),
        is_run_partition(recs, runs),
        store.len() == recs.len(),
        forall|p: int| 0 <= p < recs.len() ==> #[trigger] store[p] == word_value(recs[p].1),
        splits.len() == runs.len(),
        forall|r: int|
            0 <= r < runs.len() ==> is_split(recs, runs[r], (#[trigger] splits[r]).0, splits[r].1),
        is_candidate(q, rf, k, k, false, i, j),
    ensures
        0 <= r < splits.len(),
        splits[r].0.len >= 1,
        splits[r].1.len >= 1,
        product_of(region(store, splits[r].0), region(store, splits[r].1)).contains((i, j)),
{
    let (p, p_next) = lemma_cross_places(recs, q, rf, k, i, j);
    let r = lemma_run_of(recs, runs, p);
    lemma_same_digest_same_run(recs, runs, r, p, p_next);
    let qs = splits[r].0;
    let rs = splits[r].1;
    assert(is_split(recs, runs[r], qs, rs));
    assert(runs[r].end() <= recs.len());
    assert(qs.start <= p < qs.end()) by {
        if p >= qs.end() {
            assert(word_is_ref(recs[p].1));
        }
    }
    assert(rs.start <= p_next < rs.end()) by {
        if p_next < rs.start {
            assert(!word_is_ref(recs[p_next].1));
        }
    }
    let a = p - qs.start;
    let b = p_next - rs.start;
    assert(region(store, qs)[a] == store[p]);
    assert(region(store, rs)[b] == store[p_next]);
    lemma_product_of_contains(region(store, qs), region(store, rs), i, j);
    r
}

/// In a joint variant index, the pairs that the two-sided runs give are the
/// candidate pairs of the two collections.
proof fn lemma_cross_pairs(
    recs: Seq<(u64, u32)>,
    runs: Seq<Span>,
    store: Seq<u32>,
    splits: Seq<(Span, Span)>,
    groups: Seq<(Span, Span)>,
    q: Seq<Seq<u8>>,
    rf: Seq<Seq<u8>>,
    k: nat,
    i: u32,
    j: u32,
)
    requires
        q.len() <= CrossIndex::MAX,
        rf.len() <= CrossIndex::MAX,
        is_cross_index(recs, q, rf, k),
        is_run_partition(recs, runs),
        store.len() == recs.len(),
        forall|p: int| 0 <= p < recs.len() ==> #[trigger] store[p] == word_value(recs[p].1),
        splits.len() == runs.len(),
        forall|r: int|
            0 <= r < runs.len() ==> is_split(recs, runs[r], (#[trigger] splits[r]).0, splits[r].1),
        forall|g: int|
            0 <= g < groups.len() ==> (#[trigger] groups[g]).0.len >= 1 && groups[g].1.len >= 1
                && splits.contains(groups[g]),
        forall|r: int|
            0 <= r < splits.len() && (#[trigger] splits[r]).0.len >= 1 && splits[r].1.len >= 1
                ==> groups.contains(splits[r]),
    ensures
        paired_across(store, store, groups, i, j) <==> is_candidate(q, rf, k, k, false, i, j),
{
    if paired_across(store, store, groups, i, j) {
        let g = choose|g: int|
            0 <= g < groups.len() && product_of(
                region(store, (#[trigger] groups[g]).0),
                region(store, groups[g].1),
            ).contains((i, j));
        assert(splits.contains(groups[g]));
        let r = choose|r: int| 0 <= r < splits.len() && splits[r] == groups[g];
        assert(is_split(recs, runs[r], splits[r].0, splits[r].1));
        assert(runs[r].end() <= recs.len() && is_uniform(recs, runs[r]));
        lemma_cross_pairs_sound(recs, runs[r], store, groups[g].0, groups[g].1, q, rf, k, i, j);
    }
    if is_candidate(q, rf, k, k, false, i, j) {
        let r = lemma_cross_pairs_complete(recs, runs, store, splits, q, rf, k, i, j);
        assert(groups.contains(splits[r]));
        let g = choose|g: int| 0 <= g < groups.len() && groups[g] == splits[r];
        assert(product_of(region(store, groups[g].0), region(store, groups[g].1)).contains((i, j)));
    }
}

/// The candidate pairs across two collections: every string of the query with
/// every string of the reference that has a deletion variant of the same
/// digest.
pub fn get_candidates_cross(
    query: &Vec<Vec<u8>>,
    reference: &Vec<Vec<u8>>,
    max_distance: MaxDistance,
) -> (cands: Vec<(u32, u32)>)
    requires
        query.len() <= CrossIndex::MAX,
        reference.len() <= CrossIndex::MAX,
    ensures
        is_candidate_list(
            cands@,
            views_of(query@),
            views_of(reference@),
            max_distance@,
            max_distance@,
            false,
        ),
{
    let recs = build_cross_index(query, reference, max_distance);
    let runs = group_runs(&recs);
    let store = project_values(&recs);
    let splits = split_runs(&recs, &runs);
    let groups = splits_of_both_sides(&splits);
    proof {
        assert forall|g: int| 0 <= g < groups.len() implies (#[trigger] groups[g]).0.fits(
            store.len() as int,
        ) && groups[g].1.fits(store.len() as int) by {
            let r = choose|r: int| 0 <= r < splits.len() && splits[r] == groups[g];
            assert(is_split(recs@, runs[r], splits[r].0, splits[r].1));
            assert(runs[r].end() <= recs.len());
        }
    }
    let cands = get_hit_candidates_from_cis_cross(&store, &store, &groups);
    proof {
        let q = views_of(query@);
        let rf = views_of(reference@);
        let k = max_distance@;
        assert forall|i: u32, j: u32| cands@.contains((i, j)) <==> is_candidate(
            q,
            rf,
            k,
            k,
            false,
            i,
            j,
        ) by {
            lemma_cross_pairs(recs@, runs@, store@, splits@, groups@, q, rf, k, i, j);
        }
    }
    cands
}

/// Checks a candidate list against the strings and keeps the true neighbors.
fn verify_candidates(
    cands: &Vec<(u32, u32)>,
    query: &Vec<Vec<u8>>,
    reference: &Vec<Vec<u8>>,
    max_distance: MaxDistance,
    Ghost(within): Ghost<bool>,
) -> (m: SparseDistMatrix)
    requires
        is_candidate_list(
            cands@,
            views_of(query@),
            views_of(reference@),
            max_distance@,
            max_distance@,
            within,
        ),
    ensures
        is_neighbor_list(m, views_of(query@), views_of(reference@), max_distance@, within),
{
    let ghost q = views_of(query@);
    let ghost rf = views_of(reference@);
    let ghost k = max_distance@;
    proof {
        assert forall|t: int| 0 <= t < cands.len() implies (#[trigger] cands[t]).0 < query.len()
            && cands[t].1 < reference.len() by {
            assert(cands@.contains(cands[t]));
            assert(is_candidate(q, rf, k, k, within, cands[t].0, cands[t].1));
        }
    }
    let dists = compute_dists(cands, query, reference, max_distance);
    proof {
        assert forall|t: int| 0 <= t < cands.len() implies #[trigger] dists[t]
            == crate::levenshtein::capped_distance(
            q[cands[t].0 as int],
            rf[cands[t].1 as int],
            k,
        ) by {
            assert(q[cands[t].0 as int] == query[cands[t].0 as int]@);
            assert(rf[cands[t].1 as int] == reference[cands[t].1 as int]@);
        }
    }
    keep_neighbors(cands, &dists, max_distance, Ghost(q), Ghost(rf), Ghost(k), Ghost(k), Ghost(within))
}

/// Finds every pair of strings of one collection whose Levenshtein distance
/// is at most `max_distance`. Each pair is listed once, the lower position as
/// the row, with its distance; the list ascends by row and then by column.
pub fn symdel_within(query: &Vec<Vec<u8>>, max_distance: u8) -> (r: Result<SparseDistMatrix, Error>)
    ensures
        query.len() > u32::MAX ==> r == Err::<SparseDistMatrix, Error>(
            Error::TooManyStrings {
                input_type: InputType::Query,
                count: query.len(),
                limit: u32::MAX as usize,
            },
        ),
        query.len() <= u32::MAX && max_distance == 255 ==> r == Err::<SparseDistMatrix, Error>(
            Error::MaxDistCapped,
        ),
        query.len() <= u32::MAX && max_distance != 255 ==> r.is_ok() && is_neighbor_list(
            r.unwrap(),
            views_of(query@),
            views_of(query@),
            max_distance as nat,
            true,
        ),
{
    if query.len() > u32::MAX as usize {
        return Err(
            Error::TooManyStrings {
                input_type: InputType::Query,
                count: query.len(),
                limit: u32::MAX as usize,
            },
        );
    }
    let max_distance = match MaxDistance::try_from(max_distance) {
        Ok(d) => d,
        Err(e) => {
            return Err(e);
        },
    };
    let cands = get_candidates_within(query, max_distance);
    Ok(verify_candidates(&cands, query, query, max_distance, Ghost(true)))
}

/// Finds every string of the query and string of the reference whose
/// Levenshtein distance is at most `max_distance`. Each pair is listed once,
/// the query position as the row and the reference position as the column,
/// with its distance; the list ascends by row and then by column.
pub fn symdel_cross(query: &Vec<Vec<u8>>, reference: &Vec<Vec<u8>>, max_distance: u8) -> (r: Result<
    SparseDistMatrix,
    Error,
>)
    ensures
        query.len() > CrossIndex::MAX ==> r == Err::<SparseDistMatrix, Error>(
            Error::TooManyStrings {
                input_type: InputType::Query,
                count: query.len(),
                limit: CrossIndex::MAX,
            },
        ),
        query.len() <= CrossIndex::MAX && reference.len() > CrossIndex::MAX ==> r == Err::<
            SparseDistMatrix,
            Error,
        >(
            Error::TooManyStrings {
                input_type: InputType::Reference,
                count: reference.len(),
                limit: CrossIndex::MAX,
            },
        ),
        query.len() <= CrossIndex::MAX && reference.len() <= CrossIndex::MAX && max_distance == 255
            ==> r == Err::<SparseDistMatrix, Error>(Error::MaxDistCapped),
        query.len() <= CrossIndex::MAX && reference.len() <= CrossIndex::MAX && max_distance != 255
            ==> r.is_ok() && is_neighbor_list(
            r.unwrap(),
            views_of(query@),
            views_of(reference@),
            max_distance as nat,
            false,
        ),
{
    if query.len() > CrossIndex::MAX {
        return Err(
            Error::TooManyStrings {
                input_type: InputType::Query,
                count: query.len(),
                limit: CrossIndex::MAX,
            },
        );
    }
    if reference.len() > CrossIndex::MAX {
        return Err(
            Error::TooManyStrings {
                input_type: InputType::Reference,
                count: reference.len(),
                limit: CrossIndex::MAX,
            },
        );
    }
    let max_distance = match MaxDistance::try_from(max_distance) {
        Ok(d) => d,
        Err(e) => {
            return Err(e);
        },
    };
    let cands = get_candidates_cross(query, reference, max_distance);
    Ok(verify_candidates(&cands, query, reference, max_distance, Ghost(false)))
}

} // verus!
