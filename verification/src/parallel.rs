//! What the work-stealing pool does for the search: mapping over a list in
//! parallel, and sorting in parallel.

use vstd::prelude::*;
use rayon::prelude::{
    IndexedParallelIterator, IntoParallelRefIterator, ParallelIterator, ParallelSliceMut,
};
use crate::order::{pairs_sorted, records_sorted};

verus! {

/// No task of a parallel map is handed fewer items than this.
pub const MIN_ITEMS_PER_TASK: usize = 100000;

/// Runs `par_iter().enumerate().with_min_len(min_len).map(..).collect()` of
/// rayon over the items. The pool calls `f` once for each position with the
/// item there, and `collect` on an indexed parallel iterator keeps the order
/// of the positions.
#[verifier::external_body]
pub(crate) fn par_map_indexed<T: Sync, U: Send, F: Fn(usize, &T) -> U + Sync + Send>(
    items: &Vec<T>,
    min_len: usize,
    f: F,
) -> (out: Vec<U>)
    requires
        forall|i: int| 0 <= i < items.len() ==> call_requires(f, (i as usize, &#[trigger] items[i])),
    ensures
        out.len() == items.len(),
        forall|i: int|
            0 <= i < items.len() ==> call_ensures(f, (i as usize, &items[i]), #[trigger] out[i]),
{
    items.par_iter().enumerate().with_min_len(min_len).map(|(i, item)| f(i, item)).collect()
}

/// Runs `par_sort_unstable` of rayon on the records. It reorders the slice in
/// place into ascending order, tuples comparing by their first field and then
/// by their second.
#[verifier::external_body]
pub(crate) fn sort_records(v: &mut Vec<(u64, u32)>)
    ensures
        records_sorted(final(v)@),
        final(v)@.to_multiset() == old(v)@.to_multiset(),
{
    v.par_sort_unstable();
}

/// Runs `par_sort_unstable` of rayon on the pairs. It reorders the slice in
/// place into ascending order, tuples comparing by their first field and then
/// by their second.
#[verifier::external_body]
pub(crate) fn sort_pairs(v: &mut Vec<(u32, u32)>)
    ensures
        pairs_sorted(final(v)@),
        final(v)@.to_multiset() == old(v)@.to_multiset(),
{
    v.par_sort_unstable();
}

/// The parts one after the other.
pub open spec fn joined<T>(parts: Seq<Seq<T>>) -> Seq<T>
    decreases parts.len(),
{
    if parts.len() == 0 {
        Seq::empty()
    } else {
        joined(parts.drop_last()) + parts.last()
    }
}

/// What each of the vectors holds.
pub open spec fn views_of<T>(parts: Seq<Vec<T>>) -> Seq<Seq<T>> {
    parts.map_values(|p: Vec<T>| p@)
}

/// The parts joined hold what some part holds.
pub proof fn lemma_joined_contains<T>(parts: Seq<Seq<T>>, x: T)
    ensures
        joined(parts).contains(x) <==> exists|i: int|
            0 <= i < parts.len() && (#[trigger] parts[i]).contains(x),
    decreases parts.len(),
{
    if parts.len() > 0 {
        let head = parts.drop_last();
        lemma_joined_contains(head, x);
        crate::order::lemma_contains_add(joined(head), parts.last(), x);
        if joined(head).contains(x) {
            let i = choose|i: int| 0 <= i < head.len() && (#[trigger] head[i]).contains(x);
            assert(parts[i].contains(x));
        }
        if exists|i: int| 0 <= i < parts.len() && (#[trigger] parts[i]).contains(x) {
            let i = choose|i: int| 0 <= i < parts.len() && (#[trigger] parts[i]).contains(x);
            if i < head.len() {
                assert(head[i].contains(x));
            }
        }
    }
}

/// Lists that are reorderings of each other hold the same items.
pub proof fn lemma_reordered_same_items<T>(a: Seq<T>, b: Seq<T>)
    requires
        a.to_multiset() == b.to_multiset(),
    ensures
        forall|x: T| a.contains(x) <==> b.contains(x),
{
    a.to_multiset_ensures();
    b.to_multiset_ensures();
    assert forall|x: T| a.contains(x) <==> b.contains(x) by {
        assert(a.contains(x) <==> a.to_multiset().count(x) > 0);
        assert(b.contains(x) <==> b.to_multiset().count(x) > 0);
    }
}

/// Copies the parts into one vector, one after the other.
pub fn flatten<T: Copy>(parts: &Vec<Vec<T>>) -> (out: Vec<T>)
    ensures
        out@ == joined(views_of(parts@)),
{
    let ghost all = views_of(parts@);
    let mut out: Vec<T> = Vec::new();
    let mut i: usize = 0;
    while i < parts.len()
        invariant
            all == views_of(parts@),
            0 <= i <= parts.len(),
            out@ == joined(all.take(i as int)),
        decreases parts.len() - i,
    {
        let part = &parts[i];
        let ghost done = out@;
        let mut j: usize = 0;
        while j < part.len()
            invariant
                0 <= j <= part.len(),
                out@ == done + part@.take(j as int),
            decreases part.len() - j,
        {
            out.push(part[j]);
            assert(part@.take(j + 1) == part@.take(j as int).push(part@[j as int]));
            j = j + 1;
        }
        assert(part@.take(j as int) == part@);
        assert(all.take(i + 1).drop_last() == all.take(i as int));
        i = i + 1;
    }
    assert(all.take(i as int) == all);
    out
}

} // verus!
