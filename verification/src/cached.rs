//! A reference collection indexed once and queried many times.

use vstd::prelude::*;
use vstd::slice::slice_subrange;
use crate::candidates::{
    get_hit_candidates_from_cis_cross, get_hit_candidates_within, lemma_pairs_of_contains,
    lemma_product_of_contains, paired_across, paired_within, pairs_of, product_of, region,
};
use crate::error::{Error, InputType};
use crate::hits::{is_neighbor_list, SparseDistMatrix};
use crate::index::{
    build_variant_index, group_runs, is_run_partition, is_uniform, is_variant_index,
    lemma_position_of, lemma_run_digests_differ, lemma_run_of, project_origins, run_digest,
};
use crate::levenshtein::{capped_distance, distance_within};
use crate::order::{record_lt, records_strictly_sorted};
use crate::parallel::{joined, par_map_indexed, views_of, MIN_ITEMS_PER_TASK};
use crate::span::{bytes_at, get_disjoint_spans, lemma_joined_region, lemma_joined_take, total, Span};
use crate::symdel::{is_candidate, keep_neighbors};
use crate::table::{
    table_entries, table_get, table_insert, table_items, table_len, table_new, VariantTable,
};
use crate::utils::MaxDistance;
use crate::variants::has_variant_hash;

verus! {

/// Each item is less than the next.
pub open spec fn is_ascending(items: Seq<u32>) -> bool {
    forall|a: int, b: int| 0 <= a < b < items.len() ==> items[a] < items[b]
}

/// The table and the arena index the strings for the threshold `k`: under
/// each digest stands the region of the arena that lists, in ascending order,
/// the positions of exactly the strings with a deletion variant of that
/// digest.
pub open spec fn table_indexes(
    entries: Map<u64, Span>,
    index_store: Seq<u32>,
    strings: Seq<Seq<u8>>,
    k: nat,
) -> bool {
    &&& forall|h: u64| #[trigger]
        entries.contains_key(h) ==> entries[h].fits(index_store.len() as int) && is_ascending(
            region(index_store, entries[h]),
        )
    &&& forall|h: u64, i: u32|
        (entries.contains_key(h) && #[trigger] region(index_store, entries[h]).contains(i)) ==> i
            < strings.len() && has_variant_hash(strings[i as int], k, h)
    &&& forall|h: u64, i: u32|
        i < strings.len() && #[trigger] has_variant_hash(strings[i as int], k, h)
            ==> entries.contains_key(h) && region(index_store, entries[h]).contains(i)
}

/// The spans lay the strings end to end in the arena.
pub open spec fn spans_hold(str_store: Seq<u8>, str_spans: Seq<Span>, strings: Seq<Seq<u8>>) -> bool {
    &&& str_spans.len() == strings.len()
    &&& forall|i: int|
        0 <= i < str_spans.len() ==> (#[trigger] str_spans[i]).fits(str_store.len() as int)
            && bytes_at(str_store, str_spans[i]) == strings[i]
}

/// A memoized symmetric-deletion index of one collection. It is built once
/// for a threshold and then answers any number of queries whose threshold is
/// no greater.
pub struct CachedRef {
    str_store: Vec<u8>,
    str_spans: Vec<Span>,
    index_store: Vec<u32>,
    variant_map: VariantTable,
    max_distance: MaxDistance,
}

impl CachedRef {
    /// The strings of the reference, in the order they were given.
    pub closed spec fn strings(&self) -> Seq<Seq<u8>> {
        Seq::new(self.str_spans.len() as nat, |i: int| bytes_at(self.str_store@, self.str_spans[i]))
    }

    /// The threshold the reference was built for, the ceiling of every query.
    pub closed spec fn threshold(&self) -> nat {
        self.max_distance@
    }

    /// What holds of every cached reference: the spans lie inside the string
    /// arena, and the table and the index arena index the strings for the
    /// threshold.
    #[verifier::type_invariant]
    closed spec fn wf(&self) -> bool {
        &&& self.str_spans.len() <= u32::MAX
        &&& self.max_distance@ <= 254
        &&& spans_hold(self.str_store@, self.str_spans@, self.strings())
        &&& table_indexes(
            table_entries(self.variant_map),
            self.index_store@,
            self.strings(),
            self.max_distance@,
        )
    }

    /// Indexes `reference` for queries with a threshold of at most
    /// `max_distance`.
    pub fn new(reference: &Vec<Vec<u8>>, max_distance: u8) -> (r: Result<CachedRef, Error>)
        ensures
            reference.len() > u32::MAX ==> r == Err::<CachedRef, Error>(
                Error::TooManyStrings {
                    input_type: InputType::Reference,
                    count: reference.len(),
                    limit: u32::MAX as usize,
                },
            ),
            reference.len() <= u32::MAX && max_distance == 255 ==> r == Err::<CachedRef, Error>(
                Error::MaxDistCapped,
            ),
            reference.len() <= u32::MAX && max_distance != 255 ==> r.is_ok()
                && r.unwrap().strings() == views_of(reference@) && r.unwrap().threshold()
                == max_distance,
    {
        if reference.len() > u32::MAX as usize {
            return Err(
                Error::TooManyStrings {
                    input_type: InputType::Reference,
                    count: reference.len(),
                    limit: u32::MAX as usize,
                },
            );
        }
        let max_distance = match MaxDistance::try_from(max_distance) {
            Ok(d) => d,
            Err(e) => {
                return Err(e);
            },
        };
        let ghost limit = max_distance@;
        proof {
            max_distance.lemma_bounded();
        }
        let ghost all = views_of(reference@);
        let (str_store, str_spans) = store_strings(reference);
        let recs = build_variant_index(reference, max_distance);
        let runs = group_runs(&recs);
        let index_store = project_origins(&recs);
        let mut variant_map = table_new();
        let mut g: usize = 0;
        while g < runs.len()
            invariant
                is_run_partition(recs@, runs@),
                records_strictly_sorted(recs@),
                0 <= g <= runs.len(),
                forall|i: int|
                    0 <= i < g ==> table_entries(variant_map).contains_key(
                        #[trigger] run_digest(recs@, runs@, i),
                    ) && table_entries(variant_map)[run_digest(recs@, runs@, i)] == runs[i],
                forall|h: u64| #[trigger]
                    table_entries(variant_map).contains_key(h) ==> exists|i: int|
                        0 <= i < g && h == #[trigger] run_digest(recs@, runs@, i),
            decreases runs.len() - g,
        {
            let run = runs[g];
            assert(runs[g as int].len >= 1 && runs[g as int].end() <= recs.len());
            let ghost before = table_entries(variant_map);
            let digest = recs[run.start].0;
            table_insert(&mut variant_map, digest, run);
            proof {
                assert(digest == run_digest(recs@, runs@, g as int));
                assert forall|i: int| 0 <= i < g + 1 implies table_entries(variant_map).contains_key(
                    #[trigger] run_digest(recs@, runs@, i),
                ) && table_entries(variant_map)[run_digest(recs@, runs@, i)] == runs[i] by {
                    if i < g {
                        lemma_run_digests_differ(recs@, runs@, i, g as int);
                    }
                }
                assert forall|h: u64| #[trigger]
                    table_entries(variant_map).contains_key(h) implies exists|i: int|
                    0 <= i < g + 1 && h == #[trigger] run_digest(recs@, runs@, i) by {
                    if h != digest {
                        assert(before.contains_key(h));
                        let i = choose|i: int|
                            0 <= i < g && h == #[trigger] run_digest(recs@, runs@, i);
                        assert(0 <= i < g + 1 && h == run_digest(recs@, runs@, i));
                    }
                }
            }
            g = g + 1;
        }
        proof {
            lemma_table_holds_index(
                recs@,
                runs@,
                index_store@,
                table_entries(variant_map),
                all,
                limit,
            );
        }
        let cached = CachedRef { str_store, str_spans, index_store, variant_map, max_distance };
        assert(cached.strings() =~= all);
        Ok(cached)
    }

    /// Finds every pair of strings of the reference whose Levenshtein distance
    /// is at most `max_distance`: the answer of `symdel_within` on the
    /// strings the reference was built from.
    pub fn symdel_within(&self, max_distance: u8) -> (r: Result<SparseDistMatrix, Error>)
        ensures
            max_distance == 255 ==> r == Err::<SparseDistMatrix, Error>(Error::MaxDistCapped),
            max_distance != 255 && max_distance > self.threshold() ==> r == Err::<
                SparseDistMatrix,
                Error,
            >(Error::MaxDistTooLargeForCache { got: max_distance, limit: self.threshold() as u8 }),
            max_distance != 255 && max_distance <= self.threshold() ==> r.is_ok()
                && is_neighbor_list(
                r.unwrap(),
                self.strings(),
                self.strings(),
                max_distance as nat,
                true,
            ),
    {
        let max_distance = match MaxDistance::try_from(max_distance) {
            Ok(d) => d,
            Err(e) => {
                return Err(e);
            },
        };
        proof {
            use_type_invariant(self);
        }
        if max_distance.as_u8() > self.max_distance.as_u8() {
            return Err(
                Error::MaxDistTooLargeForCache {
                    got: max_distance.as_u8(),
                    limit: self.max_distance.as_u8(),
                },
            );
        }
        let ghost entries = table_entries(self.variant_map);
        let items = table_items(&self.variant_map);
        let mut groups: Vec<Span> = Vec::with_capacity(table_len(&self.variant_map));
        let mut t: usize = 0;
        while t < items.len()
            invariant
                entries == table_entries(self.variant_map),
                0 <= t <= items.len(),
                forall|i: int|
                    0 <= i < items.len() ==> entries.contains_pair(
                        (#[trigger] items[i]).0,
                        items[i].1,
                    ),
                forall|g: int| 0 <= g < groups.len() ==> entries.contains_value(#[trigger] groups[g]),
                forall|i: int|
                    0 <= i < t && (#[trigger] items[i]).1.len != 1 ==> groups@.contains(items[i].1),
            decreases items.len() - t,
        {
            let span = items[t].1;
            if span.len() != 1 {
                let ghost before = groups@;
                groups.push(span);
                proof {
                    assert(groups@[before.len() as int] == span);
                    assert(entries.contains_pair(items[t as int].0, items[t as int].1));
                    assert forall|i: int|
                        0 <= i < t + 1 && (#[trigger] items[i]).1.len != 1 implies groups@.contains(
                        items[i].1,
                    ) by {
                        if i < t {
                            let g = choose|g: int| 0 <= g < before.len() && before[g] == items[i].1;
                            assert(groups@[g] == items[i].1);
                        }
                    }
                    assert forall|g: int| 0 <= g < groups.len() implies entries.contains_value(
                        #[trigger] groups[g],
                    ) by {
                        if g < before.len() {
                            assert(groups[g] == before[g]);
                        }
                    }
                }
            }
            t = t + 1;
        }
        proof {
            assert forall|g: int| 0 <= g < groups.len() implies (#[trigger] groups[g]).fits(
                self.index_store.len() as int,
            ) by {
                let h = choose|h: u64| entries.contains_key(h) && entries[h] == groups[g];
            }
        }
        let cands = get_hit_candidates_within(&self.index_store, &groups);
        proof {
            assert forall|h: u64| #[trigger] entries.contains_key(h) && entries[h].len
                != 1 implies groups@.contains(entries[h]) by {
                assert(items@.contains((h, entries[h])));
                let i = choose|i: int| 0 <= i < items.len() && items[i] == (h, entries[h]);
                assert(items[i].1.len != 1);
            }
            assert forall|i: u32, j: u32| cands@.contains((i, j)) <==> is_candidate(
                self.strings(),
                self.strings(),
                self.threshold(),
                self.threshold(),
                true,
                i,
                j,
            ) by {
                lemma_cached_within_pairs(
                    entries,
                    self.index_store@,
                    groups@,
                    self.strings(),
                    self.threshold(),
                    i,
                    j,
                );
            }
            assert forall|t: int| 0 <= t < cands.len() implies (#[trigger] cands[t]).0
                < self.strings().len() && cands[t].1 < self.strings().len() by {
                assert(cands@.contains(cands[t]));
                assert(is_candidate(
                    self.strings(),
                    self.strings(),
                    self.threshold(),
                    self.threshold(),
                    true,
                    cands[t].0,
                    cands[t].1,
                ));
            }
        }
        let dists = self.compute_dists_fully_cached(&cands, self, max_distance);
        Ok(
            keep_neighbors(
                &cands,
                &dists,
                max_distance,
                Ghost(self.strings()),
                Ghost(self.strings()),
                Ghost(self.threshold()),
                Ghost(self.threshold()),
                Ghost(true),
            ),
        )
    }

    /// Finds every string of `query` and string of the reference whose
    /// Levenshtein distance is at most `max_distance`: the answer of
    /// `symdel_cross` on `query` and the strings the reference was built
    /// from.
    pub fn symdel_cross(&self, query: &Vec<Vec<u8>>, max_distance: u8) -> (r: Result<
        SparseDistMatrix,
        Error,
    >)
        ensures
            max_distance == 255 ==> r == Err::<SparseDistMatrix, Error>(Error::MaxDistCapped),
            max_distance != 255 && max_distance > self.threshold() ==> r == Err::<
                SparseDistMatrix,
                Error,
            >(Error::MaxDistTooLargeForCache { got: max_distance, limit: self.threshold() as u8 }),
            max_distance != 255 && max_distance <= self.threshold() && query.len() > u32::MAX
                ==> r == Err::<SparseDistMatrix, Error>(
                Error::TooManyStrings {
                    input_type: InputType::Query,
                    count: query.len(),
                    limit: u32::MAX as usize,
                },
            ),
            max_distance != 255 && max_distance <= self.threshold() && query.len() <= u32::MAX
                ==> r.is_ok() && is_neighbor_list(
                r.unwrap(),
                views_of(query@),
                self.strings(),
                max_distance as nat,
                false,
            ),
    {
        let max_distance = match MaxDistance::try_from(max_distance) {
            Ok(d) => d,
            Err(e) => {
                return Err(e);
            },
        };
        proof {
            use_type_invariant(self);
        }
        if max_distance.as_u8() > self.max_distance.as_u8() {
            return Err(
                Error::MaxDistTooLargeForCache {
                    got: max_distance.as_u8(),
                    limit: self.max_distance.as_u8(),
                },
            );
        }
        if query.len() > u32::MAX as usize {
            return Err(
                Error::TooManyStrings {
                    input_type: InputType::Query,
                    count: query.len(),
                    limit: u32::MAX as usize,
                },
            );
        }
        let ghost entries = table_entries(self.variant_map);
        let ghost q = views_of(query@);
        let recs = build_variant_index(query, max_distance);
        let runs = group_runs(&recs);
        let q_idx_store = project_origins(&recs);
        let mut groups: Vec<(Span, Span)> = Vec::new();
        let mut g: usize = 0;
        while g < runs.len()
            invariant
                entries == table_entries(self.variant_map),
                is_run_partition(recs@, runs@),
                0 <= g <= runs.len(),
                forall|t: int|
                    0 <= t < groups.len() ==> probes_table(recs@, runs@, entries, #[trigger] groups[t]),
                forall|i: int|
                    0 <= i < g && entries.contains_key(#[trigger] run_digest(recs@, runs@, i))
                        ==> groups@.contains((runs[i], entries[run_digest(recs@, runs@, i)])),
            decreases runs.len() - g,
        {
            let run = runs[g];
            assert(runs[g as int].len >= 1 && runs[g as int].end() <= recs.len());
            let digest = recs[run.start].0;
            assert(digest == run_digest(recs@, runs@, g as int));
            match table_get(&self.variant_map, digest) {
                None => {},
                Some(span) => {
                    let ghost before = groups@;
                    groups.push((run, span));
                    proof {
                        assert(groups@[before.len() as int] == (run, span));
                        assert forall|t: int| 0 <= t < groups.len() implies probes_table(
                            recs@,
                            runs@,
                            entries,
                            #[trigger] groups[t],
                        ) by {
                            if t < before.len() {
                                assert(groups[t] == before[t]);
                            } else {
                                assert(groups[t] == (runs[g as int], entries[run_digest(recs@, runs@, g as int)]));
                            }
                        }
                        assert forall|i: int|
                            0 <= i < g + 1 && entries.contains_key(
                                #[trigger] run_digest(recs@, runs@, i),
                            ) implies groups@.contains(
                            (runs[i], entries[run_digest(recs@, runs@, i)]),
                        ) by {
                            if i < g {
                                let pair = (runs[i], entries[run_digest(recs@, runs@, i)]);
                                let t = choose|t: int| 0 <= t < before.len() && before[t] == pair;
                                assert(groups@[t] == pair);
                            }
                        }
                    }
                },
            }
            g = g + 1;
        }
        proof {
            assert forall|t: int| 0 <= t < groups.len() implies (#[trigger] groups[t]).0.fits(
                q_idx_store.len() as int,
            ) && groups[t].1.fits(self.index_store.len() as int) by {
                assert(probes_table(recs@, runs@, entries, groups[t]));
                let i = choose|i: int|
                    0 <= i < runs.len() && entries.contains_key(run_digest(recs@, runs@, i))
                        && groups[t] == (#[trigger] runs[i], entries[run_digest(recs@, runs@, i)]);
                assert(runs[i].end() <= recs.len());
            }
        }
        let cands = get_hit_candidates_from_cis_cross(&q_idx_store, &self.index_store, &groups);
        proof {
            assert forall|i: u32, j: u32| cands@.contains((i, j)) <==> is_candidate(
                q,
                self.strings(),
                max_distance@,
                self.threshold(),
                false,
                i,
                j,
            ) by {
                lemma_partly_cached_pairs(
                    recs@,
                    runs@,
                    q_idx_store@,
                    entries,
                    self.index_store@,
                    groups@,
                    q,
                    self.strings(),
                    max_distance@,
                    self.threshold(),
                    i,
                    j,
                );
            }
            assert forall|t: int| 0 <= t < cands.len() implies (#[trigger] cands[t]).0 < query.len()
                && cands[t].1 < self.strings().len() by {
                assert(cands@.contains(cands[t]));
                assert(is_candidate(
                    q,
                    self.strings(),
                    max_distance@,
                    self.threshold(),
                    false,
                    cands[t].0,
                    cands[t].1,
                ));
            }
        }
        let dists = self.compute_dists_partially_cached(&cands, query, max_distance);
        proof {
            assert forall|t: int| 0 <= t < cands.len() implies #[trigger] dists[t]
                == capped_distance(
                q[cands[t].0 as int],
                self.strings()[cands[t].1 as int],
                max_distance@,
            ) by {
                assert(q[cands[t].0 as int] == query[cands[t].0 as int]@);
            }
        }
        Ok(
            keep_neighbors(
                &cands,
                &dists,
                max_distance,
                Ghost(q),
                Ghost(self.strings()),
                Ghost(max_distance@),
                Ghost(self.threshold()),
                Ghost(false),
            ),
        )
    }

    /// Finds every string of the cached `query` and string of this reference
    /// whose Levenshtein distance is at most `max_distance`: the answer of
    /// `symdel_cross` on the strings the two were built from. No variant is
    /// generated; the two tables are intersected.
    pub fn symdel_cross_against_cached(&self, query: &CachedRef, max_distance: u8) -> (r: Result<
        SparseDistMatrix,
        Error,
    >)
        ensures
            max_distance == 255 ==> r == Err::<SparseDistMatrix, Error>(Error::MaxDistCapped),
            max_distance != 255 && max_distance > self.threshold() ==> r == Err::<
                SparseDistMatrix,
                Error,
            >(Error::MaxDistTooLargeForCache { got: max_distance, limit: self.threshold() as u8 }),
            max_distance != 255 && max_distance <= self.threshold() && max_distance
                > query.threshold() ==> r == Err::<SparseDistMatrix, Error>(
                Error::MaxDistTooLargeForCache {
                    got: max_distance,
                    limit: query.threshold() as u8,
                },
            ),
            max_distance != 255 && max_distance <= self.threshold() && max_distance
                <= query.threshold() ==> r.is_ok() && is_neighbor_list(
                r.unwrap(),
                query.strings(),
                self.strings(),
                max_distance as nat,
                false,
            ),
    {
        let max_distance = match MaxDistance::try_from(max_distance) {
            Ok(d) => d,
            Err(e) => {
                return Err(e);
            },
        };
        proof {
            use_type_invariant(self);
            use_type_invariant(query);
        }
        if max_distance.as_u8() > self.max_distance.as_u8() {
            return Err(
                Error::MaxDistTooLargeForCache {
                    got: max_distance.as_u8(),
                    limit: self.max_distance.as_u8(),
                },
            );
        }
        if max_distance.as_u8() > query.max_distance.as_u8() {
            return Err(
                Error::MaxDistTooLargeForCache {
                    got: max_distance.as_u8(),
                    limit: query.max_distance.as_u8(),
                },
            );
        }
        let ghost qe = table_entries(query.variant_map);
        let ghost se = table_entries(self.variant_map);
        let groups = if table_len(&query.variant_map) < table_len(&self.variant_map) {
            common_groups(&query.variant_map, &self.variant_map, true)
        } else {
            common_groups(&self.variant_map, &query.variant_map, false)
        };
        proof {
            assert forall|t: int| 0 <= t < groups.len() implies (#[trigger] groups[t]).0.fits(
                query.index_store.len() as int,
            ) && groups[t].1.fits(self.index_store.len() as int) by {
                assert(joins_tables(qe, se, groups[t]));
                let h = choose|h: u64|
                    qe.contains_key(h) && se.contains_key(h) && groups[t] == (qe[h], se[h]);
            }
        }
        let cands = get_hit_candidates_from_cis_cross(
            &query.index_store,
            &self.index_store,
            &groups,
        );
        proof {
            assert forall|i: u32, j: u32| cands@.contains((i, j)) <==> is_candidate(
                query.strings(),
                self.strings(),
                query.threshold(),
                self.threshold(),
                false,
                i,
                j,
            ) by {
                lemma_fully_cached_pairs(
                    qe,
                    query.index_store@,
                    se,
                    self.index_store@,
                    groups@,
                    query.strings(),
                    self.strings(),
                    query.threshold(),
                    self.threshold(),
                    i,
                    j,
                );
            }
            assert forall|t: int| 0 <= t < cands.len() implies (#[trigger] cands[t]).0
                < query.strings().len() && cands[t].1 < self.strings().len() by {
                assert(cands@.contains(cands[t]));
                assert(is_candidate(
                    query.strings(),
                    self.strings(),
                    query.threshold(),
                    self.threshold(),
                    false,
                    cands[t].0,
                    cands[t].1,
                ));
            }
        }
        let dists = self.compute_dists_fully_cached(&cands, query, max_distance);
        Ok(
            keep_neighbors(
                &cands,
                &dists,
                max_distance,
                Ghost(query.strings()),
                Ghost(self.strings()),
                Ghost(query.threshold()),
                Ghost(self.threshold()),
                Ghost(false),
            ),
        )
    }

    /// The bytes of string `i`, read from the arena.
    fn get_str_at_index(&self, i: usize) -> (s: &[u8])
        requires
            i < self.strings().len(),
        ensures
            s@ == self.strings()[i as int],
    {
        proof {
            use_type_invariant(self);
        }
        let span = self.str_spans[i];
        assert(self.str_spans@[i as int].fits(self.str_store.len() as int));
        slice_subrange(self.str_store.as_slice(), span.start, span.start + span.len)
    }

    /// The distance of every candidate pair of a raw query and this
    /// reference, 255 where it is above the threshold.
    fn compute_dists_partially_cached(
        &self,
        hit_candidates: &Vec<(u32, u32)>,
        query: &Vec<Vec<u8>>,
        max_distance: MaxDistance,
    ) -> (dists: Vec<u8>)
        requires
            forall|t: int|
                0 <= t < hit_candidates.len() ==> (#[trigger] hit_candidates[t]).0 < query.len()
                    && hit_candidates[t].1 < self.strings().len(),
        ensures
            dists.len() == hit_candidates.len(),
            forall|t: int|
                0 <= t < dists.len() ==> #[trigger] dists[t] == capped_distance(
                    query[hit_candidates[t].0 as int]@,
                    self.strings()[hit_candidates[t].1 as int],
                    max_distance@,
                ),
    {
        let measure = |t: usize, pair: &(u32, u32)| -> (d: u8)
            requires
                pair.0 < query.len(),
                pair.1 < self.strings().len(),
            ensures
                d == capped_distance(
                    query[pair.0 as int]@,
                    self.strings()[pair.1 as int],
                    max_distance@,
                ),
            {
                distance_within(
                    query[pair.0 as usize].as_slice(),
                    self.get_str_at_index(pair.1 as usize),
                    max_distance,
                )
            };
        par_map_indexed(hit_candidates, MIN_ITEMS_PER_TASK, measure)
    }

    /// The distance of every candidate pair of a cached query and this
    /// reference, 255 where it is above the threshold.
    fn compute_dists_fully_cached(
        &self,
        hit_candidates: &Vec<(u32, u32)>,
        query: &CachedRef,
        max_distance: MaxDistance,
    ) -> (dists: Vec<u8>)
        requires
            forall|t: int|
                0 <= t < hit_candidates.len() ==> (#[trigger] hit_candidates[t]).0
                    < query.strings().len() && hit_candidates[t].1 < self.strings().len(),
        ensures
            dists.len() == hit_candidates.len(),
            forall|t: int|
                0 <= t < dists.len() ==> #[trigger] dists[t] == capped_distance(
                    query.strings()[hit_candidates[t].0 as int],
                    self.strings()[hit_candidates[t].1 as int],
                    max_distance@,
                ),
    {
        let measure = |t: usize, pair: &(u32, u32)| -> (d: u8)
            requires
                pair.0 < query.strings().len(),
                pair.1 < self.strings().len(),
            ensures
                d == capped_distance(
                    query.strings()[pair.0 as int],
                    self.strings()[pair.1 as int],
                    max_distance@,
                ),
            {
                distance_within(
                    query.get_str_at_index(pair.0 as usize),
                    self.get_str_at_index(pair.1 as usize),
                    max_distance,
                )
            };
        par_map_indexed(hit_candidates, MIN_ITEMS_PER_TASK, measure)
    }
}

/// The pair names a run of the query's index and the region that the table
/// holds under the run's digest.
pub open spec fn probes_table(
    recs: Seq<(u64, u32)>,
    runs: Seq<Span>,
    entries: Map<u64, Span>,
    pair: (Span, Span),
) -> bool {
    exists|i: int|
        0 <= i < runs.len() && entries.contains_key(run_digest(recs, runs, i)) && pair == (
            #[trigger] runs[i],
            entries[run_digest(recs, runs, i)],
        )
}

/// The pair names the regions that the two tables hold under one digest.
pub open spec fn joins_tables(qe: Map<u64, Span>, se: Map<u64, Span>, pair: (Span, Span)) -> bool {
    exists|h: u64| #[trigger] qe.contains_key(h) && se.contains_key(h) && pair == (qe[h], se[h])
}

/// The regions under the digests that both tables hold, found by walking the
/// first table and probing the second. The query's region comes first in a
/// pair whichever table is walked.
fn common_groups(walked: &VariantTable, probed: &VariantTable, walked_is_query: bool) -> (groups:
    Vec<(Span, Span)>)
    ensures
        forall|t: int|
            0 <= t < groups.len() ==> joins_tables(
                if walked_is_query {
                    table_entries(*walked)
                } else {
                    table_entries(*probed)
                },
                if walked_is_query {
                    table_entries(*probed)
                } else {
                    table_entries(*walked)
                },
                #[trigger] groups[t],
            ),
        forall|h: u64| #[trigger]
            table_entries(*walked).contains_key(h) && table_entries(*probed).contains_key(h)
                ==> groups@.contains(
                if walked_is_query {
                    (table_entries(*walked)[h], table_entries(*probed)[h])
                } else {
                    (table_entries(*probed)[h], table_entries(*walked)[h])
                },
            ),
{
    let ghost we = table_entries(*walked);
    let ghost pe = table_entries(*probed);
    let ghost qe = if walked_is_query {
        we
    } else {
        pe
    };
    let ghost se = if walked_is_query {
        pe
    } else {
        we
    };
    let items = table_items(walked);
    let mut groups: Vec<(Span, Span)> = Vec::new();
    let mut t: usize = 0;
    while t < items.len()
        invariant
            we == table_entries(*walked),
            pe == table_entries(*probed),
            qe == if walked_is_query {
                we
            } else {
                pe
            },
            se == if walked_is_query {
                pe
            } else {
                we
            },
            0 <= t <= items.len(),
            forall|i: int|
                0 <= i < items.len() ==> we.contains_pair((#[trigger] items[i]).0, items[i].1),
            forall|g: int| 0 <= g < groups.len() ==> joins_tables(qe, se, #[trigger] groups[g]),
            forall|i: int|
                0 <= i < t && pe.contains_key((#[trigger] items[i]).0) ==> groups@.contains(
                    (qe[items[i].0], se[items[i].0]),
                ),
        decreases items.len() - t,
    {
        let (digest, span) = items[t];
        assert(we.contains_pair(items[t as int].0, items[t as int].1));
        match table_get(probed, digest) {
            None => {},
            Some(other) => {
                let ghost before = groups@;
                let pair = if walked_is_query {
                    (span, other)
                } else {
                    (other, span)
                };
                groups.push(pair);
                proof {
                    assert(groups@[before.len() as int] == pair);
                    assert(pair == (qe[digest], se[digest]));
                    assert(qe.contains_key(digest) && se.contains_key(digest));
                    assert forall|g: int| 0 <= g < groups.len() implies joins_tables(
                        qe,
                        se,
                        #[trigger] groups[g],
                    ) by {
                        if g < before.len() {
                            assert(groups[g] == before[g]);
                        }
                    }
                    assert forall|i: int|
                        0 <= i < t + 1 && pe.contains_key(
                            (#[trigger] items[i]).0,
                        ) implies groups@.contains((qe[items[i].0], se[items[i].0])) by {
                        if i < t {
                            let wanted = (qe[items[i].0], se[items[i].0]);
                            let g = choose|g: int| 0 <= g < before.len() && before[g] == wanted;
                            assert(groups@[g] == wanted);
                        }
                    }
                }
            },
        }
        t = t + 1;
    }
    proof {
        assert forall|h: u64| #[trigger] we.contains_key(h) && pe.contains_key(
            h,
        ) implies groups@.contains(
            if walked_is_query {
                (we[h], pe[h])
            } else {
                (pe[h], we[h])
            },
        ) by {
            assert(items@.contains((h, we[h])));
            let i = choose|i: int| 0 <= i < items.len() && items[i] == (h, we[h]);
            assert(pe.contains_key(items[i].0));
        }
    }
    groups
}

/// Where an item stands in a region.
proof fn lemma_place_in(items: Seq<u32>, x: u32) -> (a: int)
    requires
        items.contains(x),
    ensures
        0 <= a < items.len(),
        items[a] == x,
{
    choose|a: int| 0 <= a < items.len() && items[a] == x
}

/// With a table that indexes the strings, the pairs that its regions of other
/// than one item give are the candidate pairs of the collection.
proof fn lemma_cached_within_pairs(
    entries: Map<u64, Span>,
    index_store: Seq<u32>,
    groups: Seq<Span>,
    strings: Seq<Seq<u8>>,
    k: nat,
    i: u32,
    j: u32,
)
    requires
        table_indexes(entries, index_store, strings, k),
        forall|g: int| 0 <= g < groups.len() ==> entries.contains_value(#[trigger] groups[g]),
        forall|h: u64| #[trigger]
            entries.contains_key(h) && entries[h].len != 1 ==> groups.contains(entries[h]),
    ensures
        paired_within(index_store, groups, i, j) <==> is_candidate(
            strings,
            strings,
            k,
            k,
            true,
            i,
            j,
        ),
{
    if paired_within(index_store, groups, i, j) {
        let g = choose|g: int|
            0 <= g < groups.len() && pairs_of(region(index_store, #[trigger] groups[g])).contains(
                (i, j),
            );
        let h = choose|h: u64| entries.contains_key(h) && entries[h] == groups[g];
        let items = region(index_store, entries[h]);
        lemma_pairs_of_contains(items, i, j);
        let (a, b) = choose|a: int, b: int|
            0 <= a < b < items.len() && items[a] == i && items[b] == j;
        assert(items.contains(i));
        assert(items.contains(j));
        assert(is_ascending(items));
        assert(has_variant_hash(strings[i as int], k, h));
        assert(has_variant_hash(strings[j as int], k, h));
    }
    if is_candidate(strings, strings, k, k, true, i, j) {
        let h = choose|h: u64|
            has_variant_hash(strings[i as int], k, h) && has_variant_hash(strings[j as int], k, h);
        assert(entries.contains_key(h));
        let items = region(index_store, entries[h]);
        let a = lemma_place_in(items, i);
        let b = lemma_place_in(items, j);
        assert(is_ascending(items));
        assert(a < b) by {
            if b < a {
                assert(items[b] < items[a]);
            }
        }
        assert(groups.contains(entries[h]));
        let g = choose|g: int| 0 <= g < groups.len() && groups[g] == entries[h];
        lemma_pairs_of_contains(items, i, j);
        assert(pairs_of(region(index_store, groups[g])).contains((i, j)));
    }
}

/// With a variant index of the query and a table that indexes the reference,
/// the pairs that the probed runs give are the candidate pairs of the two.
proof fn lemma_partly_cached_pairs(
    recs: Seq<(u64, u32)>,
    runs: Seq<Span>,
    q_store: Seq<u32>,
    entries: Map<u64, Span>,
    index_store: Seq<u32>,
    groups: Seq<(Span, Span)>,
    q: Seq<Seq<u8>>,
    strings: Seq<Seq<u8>>,
    kq: nat,
    kr: nat,
    i: u32,
    j: u32,
)
    requires
        is_variant_index(recs, q, kq),
        is_run_partition(recs, runs),
        q_store.len() == recs.len(),
        forall|p: int| 0 <= p < recs.len() ==> #[trigger] q_store[p] == recs[p].1,
        table_indexes(entries, index_store, strings, kr),
        forall|t: int|
            0 <= t < groups.len() ==> probes_table(recs, runs, entries, #[trigger] groups[t]),
        forall|r: int|
            0 <= r < runs.len() && entries.contains_key(#[trigger] run_digest(recs, runs, r))
                ==> groups.contains((runs[r], entries[run_digest(recs, runs, r)])),
    ensures
        paired_across(q_store, index_store, groups, i, j) <==> is_candidate(
            q,
            strings,
            kq,
            kr,
            false,
            i,
            j,
        ),
{
    if paired_across(q_store, index_store, groups, i, j) {
        let g = choose|g: int|
            0 <= g < groups.len() && product_of(
                region(q_store, (#[trigger] groups[g]).0),
                region(index_store, groups[g].1),
            ).contains((i, j));
        assert(probes_table(recs, runs, entries, groups[g]));
        let r = choose|r: int|
            0 <= r < runs.len() && entries.contains_key(run_digest(recs, runs, r)) && groups[g]
                == (#[trigger] runs[r], entries[run_digest(recs, runs, r)]);
        let h = run_digest(recs, runs, r);
        let run = runs[r];
        assert(run.len >= 1 && run.end() <= recs.len() && is_uniform(recs, run));
        let left = region(q_store, run);
        let right = region(index_store, entries[h]);
        lemma_product_of_contains(left, right, i, j);
        let (a, b) = choose|a: int, b: int|
            0 <= a < left.len() && 0 <= b < right.len() && left[a] == i && right[b] == j;
        let p = run.start + a;
        assert(left[a] == q_store[p]);
        assert(recs[p].0 == recs[run.start as int].0);
        assert(recs[p] == (h, i));
        assert(recs.contains(recs[p]));
        assert(right.contains(j));
        assert(has_variant_hash(q[i as int], kq, h));
        assert(has_variant_hash(strings[j as int], kr, h));
    }
    if is_candidate(q, strings, kq, kr, false, i, j) {
        let h = choose|h: u64|
            has_variant_hash(q[i as int], kq, h) && has_variant_hash(strings[j as int], kr, h);
        assert(recs.contains((h, i)));
        let p = lemma_position_of(recs, (h, i));
        let r = lemma_run_of(recs, runs, p);
        let run = runs[r];
        assert(run.len >= 1 && run.end() <= recs.len() && is_uniform(recs, run));
        assert(recs[p].0 == recs[run.start as int].0);
        assert(h == run_digest(recs, runs, r));
        assert(entries.contains_key(h));
        let left = region(q_store, run);
        let right = region(index_store, entries[h]);
        assert(left[p - run.start] == q_store[p]);
        let b = lemma_place_in(right, j);
        lemma_product_of_contains(left, right, i, j);
        let pair = (runs[r], entries[run_digest(recs, runs, r)]);
        assert(groups.contains(pair));
        let g = choose|g: int| 0 <= g < groups.len() && groups[g] == pair;
        assert(product_of(region(q_store, groups[g].0), region(index_store, groups[g].1)).contains(
            (i, j),
        ));
    }
}

/// With two tables that each index a collection, the pairs that the regions
/// under their common digests give are the candidate pairs of the two.
proof fn lemma_fully_cached_pairs(
    qe: Map<u64, Span>,
    q_store: Seq<u32>,
    se: Map<u64, Span>,
    index_store: Seq<u32>,
    groups: Seq<(Span, Span)>,
    q: Seq<Seq<u8>>,
    strings: Seq<Seq<u8>>,
    kq: nat,
    kr: nat,
    i: u32,
    j: u32,
)
    requires
        table_indexes(qe, q_store, q, kq),
        table_indexes(se, index_store, strings, kr),
        forall|t: int| 0 <= t < groups.len() ==> joins_tables(qe, se, #[trigger] groups[t]),
        forall|h: u64| #[trigger]
            qe.contains_key(h) && se.contains_key(h) ==> groups.contains((qe[h], se[h])),
    ensures
        paired_across(q_store, index_store, groups, i, j) <==> is_candidate(
            q,
            strings,
            kq,
            kr,
            false,
            i,
            j,
        ),
{
    if paired_across(q_store, index_store, groups, i, j) {
        let g = choose|g: int|
            0 <= g < groups.len() && product_of(
                region(q_store, (#[trigger] groups[g]).0),
                region(index_store, groups[g].1),
            ).contains((i, j));
        assert(joins_tables(qe, se, groups[g]));
        let h = choose|h: u64|
            #[trigger] qe.contains_key(h) && se.contains_key(h) && groups[g] == (qe[h], se[h]);
        let left = region(q_store, qe[h]);
        let right = region(index_store, se[h]);
        lemma_product_of_contains(left, right, i, j);
        let (a, b) = choose|a: int, b: int|
            0 <= a < left.len() && 0 <= b < right.len() && left[a] == i && right[b] == j;
        assert(left.contains(i));
        assert(right.contains(j));
        assert(has_variant_hash(q[i as int], kq, h));
        assert(has_variant_hash(strings[j as int], kr, h));
    }
    if is_candidate(q, strings, kq, kr, false, i, j) {
        let h = choose|h: u64|
            has_variant_hash(q[i as int], kq, h) && has_variant_hash(strings[j as int], kr, h);
        assert(qe.contains_key(h));
        assert(se.contains_key(h));
        let left = region(q_store, qe[h]);
        let right = region(index_store, se[h]);
        let a = lemma_place_in(left, i);
        let b = lemma_place_in(right, j);
        lemma_product_of_contains(left, right, i, j);
        let pair = (qe[h], se[h]);
        assert(groups.contains(pair));
        let g = choose|g: int| 0 <= g < groups.len() && groups[g] == pair;
        assert(product_of(region(q_store, groups[g].0), region(index_store, groups[g].1)).contains(
            (i, j),
        ));
    }
}

/// Copies the strings end to end into one arena and says where each lies.
fn store_strings(strings: &Vec<Vec<u8>>) -> (out: (Vec<u8>, Vec<Span>))
    ensures
        spans_hold(out.0@, out.1@, views_of(strings@)),
{
    let n = strings.len();
    let ghost all = views_of(strings@);
    let mut lens: Vec<usize> = Vec::with_capacity(n);
    let mut store: Vec<u8> = Vec::new();
    let mut i: usize = 0;
    while i < n
        invariant
            n == strings.len(),
            all == views_of(strings@),
            0 <= i <= n,
            lens.len() == i,
            forall|j: int| 0 <= j < i ==> #[trigger] lens[j] == all[j].len(),
            store@ == joined(all.take(i as int)),
            total(lens@) == store.len(),
        decreases n - i,
    {
        let s = &strings[i];
        let ghost done = store@;
        let ghost lens_before = lens@;
        lens.push(s.len());
        let mut j: usize = 0;
        while j < s.len()
            invariant
                0 <= j <= s.len(),
                store@ == done + s@.take(j as int),
            decreases s.len() - j,
        {
            store.push(s[j]);
            assert(s@.take(j + 1) == s@.take(j as int).push(s@[j as int]));
            j = j + 1;
        }
        proof {
            assert(s@.take(j as int) == s@);
            assert(all[i as int] == s@);
            lemma_joined_take(all, i as int);
            assert(lens@.drop_last() == lens_before);
        }
        i = i + 1;
    }
    assert(all.take(n as int) == all);
    let spans = get_disjoint_spans(&lens);
    proof {
        assert forall|i: int| 0 <= i < spans.len() implies (#[trigger] spans[i]).fits(
            store.len() as int,
        ) && bytes_at(store@, spans[i]) == all[i] by {
            lemma_total_of_lens(lens@.take(i), all.take(i));
            lemma_joined_region(all, i);
        }
    }
    (store, spans)
}

/// The lengths of the parts sum to the length of the parts joined.
proof fn lemma_total_of_lens(lens: Seq<usize>, parts: Seq<Seq<u8>>)
    requires
        lens.len() == parts.len(),
        forall|j: int| 0 <= j < lens.len() ==> #[trigger] lens[j] == parts[j].len(),
    ensures
        total(lens) == joined(parts).len(),
    decreases lens.len(),
{
    if lens.len() > 0 {
        lemma_total_of_lens(lens.drop_last(), parts.drop_last());
    }
}

/// A table that holds every run of a variant index under the run's digest,
/// with the origins of the records as its arena, indexes the strings.
proof fn lemma_table_holds_index(
    recs: Seq<(u64, u32)>,
    runs: Seq<Span>,
    index_store: Seq<u32>,
    entries: Map<u64, Span>,
    strings: Seq<Seq<u8>>,
    k: nat,
)
    requires
        is_variant_index(recs, strings, k),
        is_run_partition(recs, runs),
        index_store.len() == recs.len(),
        forall|p: int| 0 <= p < recs.len() ==> #[trigger] index_store[p] == recs[p].1,
        forall|g: int|
            0 <= g < runs.len() ==> entries.contains_key(#[trigger] run_digest(recs, runs, g))
                && entries[run_digest(recs, runs, g)] == runs[g],
        forall|h: u64| #[trigger]
            entries.contains_key(h) ==> exists|g: int|
                0 <= g < runs.len() && h == #[trigger] run_digest(recs, runs, g),
    ensures
        table_indexes(entries, index_store, strings, k),
{
    assert forall|h: u64| #[trigger] entries.contains_key(h) implies entries[h].fits(
        index_store.len() as int,
    ) && is_ascending(region(index_store, entries[h])) by {
        let g = choose|g: int| 0 <= g < runs.len() && h == #[trigger] run_digest(recs, runs, g);
        let run = runs[g];
        assert(run.len >= 1 && run.end() <= recs.len() && is_uniform(recs, run));
        let items = region(index_store, run);
        assert forall|a: int, b: int| 0 <= a < b < items.len() implies items[a] < items[b] by {
            let p = run.start + a;
            let p_next = run.start + b;
            assert(items[a] == index_store[p]);
            assert(items[b] == index_store[p_next]);
            assert(recs[p].0 == recs[run.start as int].0);
            assert(recs[p_next].0 == recs[run.start as int].0);
            assert(record_lt(recs[p], recs[p_next]));
        }
    }
    assert forall|h: u64, i: u32|
        (entries.contains_key(h) && #[trigger] region(index_store, entries[h]).contains(
            i,
        )) implies i < strings.len() && has_variant_hash(strings[i as int], k, h) by {
        let g = choose|g: int| 0 <= g < runs.len() && h == #[trigger] run_digest(recs, runs, g);
        let run = runs[g];
        assert(run.len >= 1 && run.end() <= recs.len() && is_uniform(recs, run));
        let items = region(index_store, run);
        let a = choose|a: int| 0 <= a < items.len() && items[a] == i;
        let p = run.start + a;
        assert(items[a] == index_store[p]);
        assert(recs[p].0 == recs[run.start as int].0);
        assert(recs[p] == (h, i));
        assert(recs.contains(recs[p]));
    }
    assert forall|h: u64, i: u32|
        i < strings.len() && #[trigger] has_variant_hash(
            strings[i as int],
            k,
            h,
        ) implies entries.contains_key(h) && region(index_store, entries[h]).contains(i) by {
        assert(recs.contains((h, i)));
        let p = lemma_position_of(recs, (h, i));
        let g = lemma_run_of(recs, runs, p);
        let run = runs[g];
        assert(run.len >= 1 && run.end() <= recs.len() && is_uniform(recs, run));
        assert(recs[p].0 == recs[run.start as int].0);
        assert(h == run_digest(recs, runs, g));
        let items = region(index_store, run);
        assert(items[p - run.start] == index_store[p]);
    }
}

} // verus!
