//! The variant index of a collection: its deletion variants as sorted records
//! without repeats, and the runs of records that share a digest.

use vstd::prelude::*;
use crate::order::{dedup_records, lemma_contains_add, record_lt, records_strictly_sorted};
use crate::parallel::{
    flatten, lemma_joined_contains, lemma_reordered_same_items, par_map_indexed, sort_records,
    views_of, MIN_ITEMS_PER_TASK,
};
use crate::span::Span;
use crate::utils::{tag_word, CrossIndex, MaxDistance};
use crate::variants::{
    has_variant_hash, lemma_variant_records_contain, variant_records, write_vi_pairs_ci,
    write_vi_pairs_rawidx,
};

verus! {

/// `recs` is the variant index of `strings` for the threshold `k`: a record
/// for each digest of a deletion variant of each string, under the string's
/// position, ascending with no record twice.
pub open spec fn is_variant_index(recs: Seq<(u64, u32)>, strings: Seq<Seq<u8>>, k: nat) -> bool {
    &&& records_strictly_sorted(recs)
    &&& forall|r: (u64, u32)|
        recs.contains(r) <==> r.1 < strings.len() && has_variant_hash(strings[r.1 as int], k, r.0)
}

/// The index a tagged word stands for.
pub open spec fn word_value(w: u32) -> int {
    (w % 0x8000_0000) as int
}

/// Whether a tagged word stands on the reference side.
pub open spec fn word_is_ref(w: u32) -> bool {
    w >= 0x8000_0000
}

/// `recs` is the joint variant index of a query and a reference collection:
/// as `is_variant_index`, with each record under its origin's tagged word.
pub open spec fn is_cross_index(
    recs: Seq<(u64, u32)>,
    query: Seq<Seq<u8>>,
    reference: Seq<Seq<u8>>,
    k: nat,
) -> bool {
    &&& records_strictly_sorted(recs)
    &&& forall|r: (u64, u32)|
        recs.contains(r) <==> if word_is_ref(r.1) {
            word_value(r.1) < reference.len() && has_variant_hash(
                reference[word_value(r.1)],
                k,
                r.0,
            )
        } else {
            word_value(r.1) < query.len() && has_variant_hash(query[word_value(r.1)], k, r.0)
        }
}

/// The records of every string of one side, each under its position's word.
fn collect_records(strings: &Vec<Vec<u8>>, max_distance: MaxDistance, tagged: bool, is_ref: bool) -> (out:
    Vec<(u64, u32)>)
    requires
        strings.len() <= u32::MAX,
        tagged ==> strings.len() <= CrossIndex::MAX,
        !tagged ==> !is_ref,
    ensures
        forall|r: (u64, u32)|
            out@.contains(r) <==> exists|i: int|
                0 <= i < strings.len() && r.1 == tag_word(i as u32, is_ref) && has_variant_hash(
                    #[trigger] strings[i]@,
                    max_distance@,
                    r.0,
                ),
{
    let ghost k = max_distance@;
    let write = |i: usize, s: &Vec<u8>| -> (recs: Vec<(u64, u32)>)
        requires
            i <= u32::MAX,
            tagged ==> i <= CrossIndex::MAX,
        ensures
            recs@ == variant_records(s@, tag_word(i as u32, is_ref), k),
        {
            let mut recs: Vec<(u64, u32)> = Vec::new();
            if tagged {
                write_vi_pairs_ci(s, i as u32, max_distance, is_ref, &mut recs);
            } else {
                write_vi_pairs_rawidx(s, i as u32, max_distance, &mut recs);
            }
            recs
        };
    let parts = par_map_indexed(strings, MIN_ITEMS_PER_TASK, write);
    let out = flatten(&parts);
    proof {
        let all = views_of(parts@);
        assert forall|r: (u64, u32)|
            out@.contains(r) <==> exists|i: int|
                0 <= i < strings.len() && r.1 == tag_word(i as u32, is_ref) && has_variant_hash(
                    #[trigger] strings[i]@,
                    k,
                    r.0,
                ) by {
            lemma_joined_contains(all, r);
            if out@.contains(r) {
                let i = choose|i: int| 0 <= i < all.len() && (#[trigger] all[i]).contains(r);
                assert(all[i] == parts[i]@);
                lemma_variant_records_contain(strings[i]@, tag_word(i as u32, is_ref), k, r);
            }
            if exists|i: int|
                0 <= i < strings.len() && r.1 == tag_word(i as u32, is_ref) && has_variant_hash(
                    #[trigger] strings[i]@,
                    k,
                    r.0,
                ) {
                let i = choose|i: int|
                    0 <= i < strings.len() && r.1 == tag_word(i as u32, is_ref)
                        && has_variant_hash(#[trigger] strings[i]@, k, r.0);
                lemma_variant_records_contain(strings[i]@, tag_word(i as u32, is_ref), k, r);
                assert(all[i] == parts[i]@);
                assert(all[i].contains(r));
            }
        }
    }
    out
}

/// Builds the variant index of one collection: writes the records of every
/// string, sorts them, and drops the repeats.
pub fn build_variant_index(strings: &Vec<Vec<u8>>, max_distance: MaxDistance) -> (recs: Vec<
    (u64, u32),
>)
    requires
        strings.len() <= u32::MAX,
    ensures
        is_variant_index(recs@, views_of(strings@), max_distance@),
{
    let mut recs = collect_records(strings, max_distance, false, false);
    let ghost written = recs@;
    sort_records(&mut recs);
    proof {
        lemma_reordered_same_items(recs@, written);
    }
    dedup_records(&mut recs);
    proof {
        let all = views_of(strings@);
        let k = max_distance@;
        assert forall|r: (u64, u32)|
            recs@.contains(r) <==> r.1 < all.len() && has_variant_hash(all[r.1 as int], k, r.0) by {
            if written.contains(r) {
                let i = choose|i: int|
                    0 <= i < strings.len() && r.1 == tag_word(i as u32, false) && has_variant_hash(
                        #[trigger] strings[i]@,
                        k,
                        r.0,
                    );
                assert(all[i] == strings[i]@);
            }
            if r.1 < all.len() && has_variant_hash(all[r.1 as int], k, r.0) {
                let i = r.1 as int;
                assert(all[i] == strings[i]@);
                assert(r.1 == tag_word(i as u32, false));
            }
        }
    }
    recs
}

/// Builds the joint variant index of a query and a reference collection.
pub fn build_cross_index(
    query: &Vec<Vec<u8>>,
    reference: &Vec<Vec<u8>>,
    max_distance: MaxDistance,
) -> (recs: Vec<(u64, u32)>)
    requires
        query.len() <= CrossIndex::MAX,
        reference.len() <= CrossIndex::MAX,
    ensures
        is_cross_index(recs@, views_of(query@), views_of(reference@), max_distance@),
{
    let mut recs = collect_records(query, max_distance, true, false);
    let mut recs_r = collect_records(reference, max_distance, true, true);
    let ghost written_q = recs@;
    let ghost written_r = recs_r@;
    recs.append(&mut recs_r);
    let ghost written = recs@;
    sort_records(&mut recs);
    proof {
        lemma_reordered_same_items(recs@, written);
    }
    dedup_records(&mut recs);
    proof {
        let q = views_of(query@);
        let rf = views_of(reference@);
        let k = max_distance@;
        assert forall|r: (u64, u32)|
            recs@.contains(r) <==> if word_is_ref(r.1) {
                word_value(r.1) < rf.len() && has_variant_hash(rf[word_value(r.1)], k, r.0)
            } else {
                word_value(r.1) < q.len() && has_variant_hash(q[word_value(r.1)], k, r.0)
            } by {
            lemma_contains_add(written_q, written_r, r);
            if written_q.contains(r) {
                let i = choose|i: int|
                    0 <= i < query.len() && r.1 == tag_word(i as u32, false) && has_variant_hash(
                        #[trigger] query[i]@,
                        k,
                        r.0,
                    );
                assert(q[i] == query[i]@);
            }
            if written_r.contains(r) {
                let i = choose|i: int|
                    0 <= i < reference.len() && r.1 == tag_word(i as u32, true)
                        && has_variant_hash(#[trigger] reference[i]@, k, r.0);
                assert(rf[i] == reference[i]@);
            }
            if word_is_ref(r.1) {
                if word_value(r.1) < rf.len() && has_variant_hash(rf[word_value(r.1)], k, r.0) {
                    let i = word_value(r.1);
                    assert(rf[i] == reference[i]@);
                    assert(r.1 == tag_word(i as u32, true));
                }
            } else {
                if word_value(r.1) < q.len() && has_variant_hash(q[word_value(r.1)], k, r.0) {
                    let i = word_value(r.1);
                    assert(q[i] == query[i]@);
                    assert(r.1 == tag_word(i as u32, false));
                }
            }
        }
    }
    recs
}

/// The records that the span names share one digest.
pub open spec fn is_uniform(recs: Seq<(u64, u32)>, span: Span) -> bool {
    forall|p: int|
        span.start <= p < span.end() ==> (#[trigger] recs[p]).0 == recs[span.start as int].0
}

/// The spans cut `recs` into its runs of records with one digest, each run as
/// long as it can be, in the order of the records.
pub open spec fn is_run_partition(recs: Seq<(u64, u32)>, runs: Seq<Span>) -> bool {
    &&& recs.len() == 0 <==> runs.len() == 0
    &&& runs.len() > 0 ==> runs[0].start == 0 && runs.last().end() == recs.len()
    &&& forall|g: int|
        0 <= g < runs.len() ==> (#[trigger] runs[g]).len >= 1 && runs[g].end() <= recs.len()
            && is_uniform(recs, runs[g])
    &&& forall|g: int, next: int|
        0 <= g && next == g + 1 && next < runs.len() ==> (#[trigger] runs[g]).end()
            == (#[trigger] runs[next]).start && recs[runs[g].start as int].0
            != recs[runs[next].start as int].0
}

/// A run that begins where the runs so far end, of a digest other than the
/// last one's, adds to the partition.
proof fn lemma_partition_grows(recs: Seq<(u64, u32)>, before: Seq<Span>, run: Span)
    requires
        run.len >= 1,
        run.end() <= recs.len(),
        is_run_partition(recs.take(run.start as int), before),
        is_uniform(recs, run),
        before.len() > 0 ==> recs[before.last().start as int].0 != recs[run.start as int].0,
    ensures
        is_run_partition(recs.take(run.end()), before.push(run)),
{
    let seen = recs.take(run.start as int);
    let grown = recs.take(run.end());
    let runs = before.push(run);
    assert forall|g: int| 0 <= g < runs.len() implies (#[trigger] runs[g]).len >= 1
        && runs[g].end() <= grown.len() && is_uniform(grown, runs[g]) by {
        if g < before.len() {
            assert(before[g] == runs[g]);
            assert(is_uniform(seen, before[g]));
            assert forall|p: int| runs[g].start <= p < runs[g].end() implies (#[trigger] grown[p]).0
                == grown[runs[g].start as int].0 by {
                assert(seen[p].0 == seen[before[g].start as int].0);
            }
        } else {
            assert forall|p: int| runs[g].start <= p < runs[g].end() implies (#[trigger] grown[p]).0
                == grown[runs[g].start as int].0 by {
                assert(recs[p].0 == recs[run.start as int].0);
            }
        }
    }
    assert forall|g: int, next: int| 0 <= g && next == g + 1 && next < runs.len() implies (#[trigger] runs[g]).end()
        == (#[trigger] runs[next]).start && grown[runs[g].start as int].0
        != grown[runs[next].start as int].0 by {
        assert(before[g] == runs[g]);
        assert(before[g].len >= 1 && before[g].end() <= seen.len());
        if next < before.len() {
            assert(before[next] == runs[next]);
            assert(before[next].len >= 1 && before[next].end() <= seen.len());
            assert(seen[before[g].start as int].0 != seen[before[next].start as int].0);
        }
    }
    if before.len() > 0 {
        assert(before[0] == runs[0]);
    }
}

/// Walks the records and cuts them into runs of equal digest.
pub fn group_runs(recs: &Vec<(u64, u32)>) -> (runs: Vec<Span>)
    ensures
        is_run_partition(recs@, runs@),
{
    let n = recs.len();
    let mut runs: Vec<Span> = Vec::new();
    let mut start: usize = 0;
    while start < n
        invariant
            n == recs.len(),
            0 <= start <= n,
            is_run_partition(recs@.take(start as int), runs@),
            start < n && runs.len() > 0 ==> recs[runs@.last().start as int].0 != recs[start as int].0,
        decreases n - start,
    {
        let digest = recs[start].0;
        let mut end: usize = start + 1;
        while end < n && recs[end].0 == digest
            invariant
                n == recs.len(),
                start < end <= n,
                digest == recs[start as int].0,
                forall|p: int| start <= p < end ==> (#[trigger] recs[p]).0 == digest,
            decreases n - end,
        {
            end = end + 1;
        }
        let run = Span::new(start, end - start);
        proof {
            lemma_partition_grows(recs@, runs@, run);
        }
        runs.push(run);
        start = end;
    }
    assert(recs@.take(n as int) == recs@);
    runs
}

/// The run that holds a position.
pub proof fn lemma_run_of(recs: Seq<(u64, u32)>, runs: Seq<Span>, p: int) -> (g: int)
    requires
        is_run_partition(recs, runs),
        0 <= p < recs.len(),
    ensures
        0 <= g < runs.len(),
        runs[g].start <= p < runs[g].end(),
{
    lemma_run_from(recs, runs, p, 0)
}

/// The run that holds a position, looked for from run `from` on.
proof fn lemma_run_from(recs: Seq<(u64, u32)>, runs: Seq<Span>, p: int, from: int) -> (g: int)
    requires
        is_run_partition(recs, runs),
        0 <= p < recs.len(),
        0 <= from < runs.len(),
        runs[from].start <= p,
    ensures
        0 <= g < runs.len(),
        runs[g].start <= p < runs[g].end(),
    decreases runs.len() - from,
{
    if p < runs[from].end() {
        from
    } else {
        lemma_run_from(recs, runs, p, from + 1)
    }
}

/// In a sorted index the records of one digest stand in one run.
pub proof fn lemma_same_digest_same_run(
    recs: Seq<(u64, u32)>,
    runs: Seq<Span>,
    g: int,
    p: int,
    q: int,
)
    requires
        is_run_partition(recs, runs),
        records_strictly_sorted(recs),
        0 <= g < runs.len(),
        runs[g].start <= p < runs[g].end(),
        0 <= q < recs.len(),
        recs[q].0 == recs[p].0,
    ensures
        runs[g].start <= q < runs[g].end(),
{
    let first = runs[g].start as int;
    let end = runs[g].end();
    if q >= end {
        assert(runs[g + 1].start == end);
        if p < end {
            assert(record_lt(recs[p], recs[end]));
        }
        if end < q {
            assert(record_lt(recs[end], recs[q]));
        }
        assert(recs[end].0 == recs[first].0);
    } else if q < first {
        assert(runs[g - 1].end() == first);
        let prev = first - 1;
        assert(runs[g - 1].start <= prev < runs[g - 1].end());
        assert(recs[prev].0 == recs[runs[g - 1].start as int].0);
        if q < prev {
            assert(record_lt(recs[q], recs[prev]));
        }
        assert(record_lt(recs[prev], recs[first]));
        if first < p {
            assert(record_lt(recs[first], recs[p]));
        }
        assert(recs[first].0 == recs[p].0);
    }
}

/// The position at which a record stands in the index.
pub proof fn lemma_position_of(recs: Seq<(u64, u32)>, r: (u64, u32)) -> (p: int)
    requires
        recs.contains(r),
    ensures
        0 <= p < recs.len(),
        recs[p] == r,
{
    choose|p: int| 0 <= p < recs.len() && recs[p] == r
}

/// The origin of every record, in the order of the records.
pub fn project_origins(recs: &Vec<(u64, u32)>) -> (store: Vec<u32>)
    ensures
        store.len() == recs.len(),
        forall|p: int| 0 <= p < recs.len() ==> #[trigger] store[p] == recs[p].1,
{
    let mut store: Vec<u32> = Vec::with_capacity(recs.len());
    let mut p: usize = 0;
    while p < recs.len()
        invariant
            0 <= p <= recs.len(),
            store.len() == p,
            forall|i: int| 0 <= i < p ==> #[trigger] store[i] == recs[i].1,
        decreases recs.len() - p,
    {
        store.push(recs[p].1);
        p = p + 1;
    }
    store
}

/// The index that every record's tagged word stands for, in the order of the
/// records.
pub fn project_values(recs: &Vec<(u64, u32)>) -> (store: Vec<u32>)
    ensures
        store.len() == recs.len(),
        forall|p: int| 0 <= p < recs.len() ==> #[trigger] store[p] == word_value(recs[p].1),
{
    let mut store: Vec<u32> = Vec::with_capacity(recs.len());
    let mut p: usize = 0;
    while p < recs.len()
        invariant
            0 <= p <= recs.len(),
            store.len() == p,
            forall|i: int| 0 <= i < p ==> #[trigger] store[i] == word_value(recs[i].1),
        decreases recs.len() - p,
    {
        store.push(CrossIndex::from_word(recs[p].1).get_value());
        p = p + 1;
    }
    store
}

/// The digest that the records of run `g` share.
pub open spec fn run_digest(recs: Seq<(u64, u32)>, runs: Seq<Span>, g: int) -> u64 {
    recs[runs[g].start as int].0
}

/// A later run begins where an earlier one has ended, or after.
pub proof fn lemma_runs_ascend(recs: Seq<(u64, u32)>, runs: Seq<Span>, g: int, g2: int)
    requires
        is_run_partition(recs, runs),
        0 <= g < g2 < runs.len(),
    ensures
        runs[g].end() <= runs[g2].start,
    decreases g2 - g,
{
    assert(runs[g2 - 1].end() == runs[g2].start);
    if g < g2 - 1 {
        lemma_runs_ascend(recs, runs, g, g2 - 1);
        assert(runs[g2 - 1].len >= 1);
    }
}

/// In a sorted index no two runs share a digest.
pub proof fn lemma_run_digests_differ(recs: Seq<(u64, u32)>, runs: Seq<Span>, g: int, g2: int)
    requires
        is_run_partition(recs, runs),
        records_strictly_sorted(recs),
        0 <= g < g2 < runs.len(),
    ensures
        run_digest(recs, runs, g) != run_digest(recs, runs, g2),
{
    lemma_runs_ascend(recs, runs, g, g2);
    assert(runs[g].len >= 1 && runs[g].end() <= recs.len());
    assert(runs[g2].len >= 1 && runs[g2].end() <= recs.len());
    if run_digest(recs, runs, g) == run_digest(recs, runs, g2) {
        lemma_same_digest_same_run(recs, runs, g, runs[g].start as int, runs[g2].start as int);
    }
}

/// The digests of the deletion variants of one string, ascending, each once.
pub fn get_del_var_hashes(input: &Vec<u8>, max_deletions: MaxDistance) -> (digests: Vec<u64>)
    ensures
        forall|a: int, b: int| 0 <= a < b < digests.len() ==> digests[a] < digests[b],
        forall|h: u64| digests@.contains(h) <==> has_variant_hash(input@, max_deletions@, h),
{
    let mut recs: Vec<(u64, u32)> = Vec::new();
    write_vi_pairs_rawidx(input, 0, max_deletions, &mut recs);
    let ghost written = recs@;
    sort_records(&mut recs);
    proof {
        lemma_reordered_same_items(recs@, written);
    }
    dedup_records(&mut recs);
    let mut digests: Vec<u64> = Vec::with_capacity(recs.len());
    let mut p: usize = 0;
    while p < recs.len()
        invariant
            0 <= p <= recs.len(),
            digests.len() == p,
            forall|i: int| 0 <= i < p ==> #[trigger] digests[i] == recs[i].0,
        decreases recs.len() - p,
    {
        digests.push(recs[p].0);
        p = p + 1;
    }
    proof {
        assert forall|i: int| 0 <= i < recs.len() implies (#[trigger] recs[i]).1 == 0 by {
            assert(recs@.contains(recs[i]));
            assert(written.contains(recs[i]));
            lemma_variant_records_contain(input@, 0, max_deletions@, recs[i]);
        }
        assert forall|a: int, b: int| 0 <= a < b < digests.len() implies digests[a]
            < digests[b] by {
            assert(record_lt(recs[a], recs[b]));
        }
        assert forall|h: u64| digests@.contains(h) <==> has_variant_hash(
            input@,
            max_deletions@,
            h,
        ) by {
            lemma_variant_records_contain(input@, 0, max_deletions@, (h, 0u32));
            if digests@.contains(h) {
                let i = choose|i: int| 0 <= i < digests.len() && digests[i] == h;
                assert(recs[i] == (h, 0u32));
                assert(recs@.contains((h, 0u32)));
            }
            if has_variant_hash(input@, max_deletions@, h) {
                assert(recs@.contains((h, 0u32)));
                let i = choose|i: int| 0 <= i < recs.len() && recs[i] == (h, 0u32);
                assert(digests[i] == h);
            }
        }
    }
    digests
}

} // verus!
