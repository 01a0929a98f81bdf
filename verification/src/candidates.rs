//! From convergence groups to candidate pairs.

use vstd::prelude::*;
use crate::order::{dedup_pairs, lemma_contains_add, pairs_strictly_sorted};
use crate::parallel::{
    flatten, lemma_joined_contains, lemma_reordered_same_items, par_map_indexed, sort_pairs,
    views_of, MIN_ITEMS_PER_TASK,
};
use crate::span::Span;

verus! {

/// The first item paired with each of the others, in their order.
pub open spec fn pairs_with_first(items: Seq<u32>) -> Seq<(u32, u32)> {
    Seq::new((items.len() - 1) as nat, |t: int| (items[0], items[t + 1]))
}

/// Every two items of a group as a pair, the earlier item first: the pairs of
/// the first item, then those of the second, and so on.
pub open spec fn pairs_of(items: Seq<u32>) -> Seq<(u32, u32)>
    decreases items.len(),
{
    if items.len() < 2 {
        Seq::empty()
    } else {
        pairs_with_first(items) + pairs_of(items.drop_first())
    }
}

/// One query-side item paired with each reference-side item, in their order.
pub open spec fn pairs_across(q: u32, r: Seq<u32>) -> Seq<(u32, u32)> {
    Seq::new(r.len(), |t: int| (q, r[t]))
}

/// Every query-side item of a group paired with every reference-side item:
/// the pairs of the first query-side item, then those of the second, and so
/// on.
pub open spec fn product_of(q: Seq<u32>, r: Seq<u32>) -> Seq<(u32, u32)>
    decreases q.len(),
{
    if q.len() == 0 {
        Seq::empty()
    } else {
        pairs_across(q[0], r) + product_of(q.drop_first(), r)
    }
}

/// The region of the arena that a span names.
pub open spec fn region(store: Seq<u32>, span: Span) -> Seq<u32> {
    store.subrange(span.start as int, span.end())
}

/// `(x, y)` is a pair of two items of one of the groups.
pub open spec fn paired_within(store: Seq<u32>, groups: Seq<Span>, x: u32, y: u32) -> bool {
    exists|g: int|
        0 <= g < groups.len() && pairs_of(region(store, #[trigger] groups[g])).contains((x, y))
}

/// `(x, y)` pairs a query-side item and a reference-side item of one of the
/// groups.
pub open spec fn paired_across(
    store_q: Seq<u32>,
    store_r: Seq<u32>,
    groups: Seq<(Span, Span)>,
    x: u32,
    y: u32,
) -> bool {
    exists|g: int|
        0 <= g < groups.len() && product_of(
            region(store_q, (#[trigger] groups[g]).0),
            region(store_r, groups[g].1),
        ).contains((x, y))
}

/// The pairs of a group are its items at two positions, the earlier first.
pub proof fn lemma_pairs_of_contains(items: Seq<u32>, x: u32, y: u32)
    ensures
        pairs_of(items).contains((x, y)) <==> exists|a: int, b: int|
            0 <= a < b < items.len() && items[a] == x && items[b] == y,
    decreases items.len(),
{
    if items.len() >= 2 {
        let rest = items.drop_first();
        let first = pairs_with_first(items);
        lemma_pairs_of_contains(rest, x, y);
        lemma_contains_add(first, pairs_of(rest), (x, y));
        if first.contains((x, y)) {
            let t = choose|t: int| 0 <= t < first.len() && first[t] == (x, y);
            assert(items[0] == x && items[t + 1] == y);
        }
        if pairs_of(rest).contains((x, y)) {
            let (a, b) = choose|a: int, b: int|
                0 <= a < b < rest.len() && rest[a] == x && rest[b] == y;
            assert(items[a + 1] == x && items[b + 1] == y);
        }
        if exists|a: int, b: int| 0 <= a < b < items.len() && items[a] == x && items[b] == y {
            let (a, b) = choose|a: int, b: int|
                0 <= a < b < items.len() && items[a] == x && items[b] == y;
            if a == 0 {
                assert(first[b - 1] == (x, y));
            } else {
                assert(rest[a - 1] == x && rest[b - 1] == y);
            }
        }
    }
}

/// The product of a group is an item of its query side with one of its
/// reference side.
pub proof fn lemma_product_of_contains(q: Seq<u32>, r: Seq<u32>, x: u32, y: u32)
    ensures
        product_of(q, r).contains((x, y)) <==> exists|a: int, b: int|
            0 <= a < q.len() && 0 <= b < r.len() && q[a] == x && r[b] == y,
    decreases q.len(),
{
    if q.len() > 0 {
        let rest = q.drop_first();
        let first = pairs_across(q[0], r);
        lemma_product_of_contains(rest, r, x, y);
        lemma_contains_add(first, product_of(rest, r), (x, y));
        if first.contains((x, y)) {
            let t = choose|t: int| 0 <= t < first.len() && first[t] == (x, y);
            assert(q[0] == x && r[t] == y);
        }
        if product_of(rest, r).contains((x, y)) {
            let (a, b) = choose|a: int, b: int|
                0 <= a < rest.len() && 0 <= b < r.len() && rest[a] == x && r[b] == y;
            assert(q[a + 1] == x && r[b] == y);
        }
        if exists|a: int, b: int| 0 <= a < q.len() && 0 <= b < r.len() && q[a] == x && r[b] == y {
            let (a, b) = choose|a: int, b: int|
                0 <= a < q.len() && 0 <= b < r.len() && q[a] == x && r[b] == y;
            if a == 0 {
                assert(first[b] == (x, y));
            } else {
                assert(rest[a - 1] == x && r[b] == y);
            }
        }
    }
}

/// The pairs of one group.
pub fn pairs_of_group(store: &Vec<u32>, span: Span) -> (out: Vec<(u32, u32)>)
    requires
        span.fits(store.len() as int),
    ensures
        out@ == pairs_of(region(store@, span)),
{
    let ghost items = region(store@, span);
    let mut out: Vec<(u32, u32)> = Vec::new();
    let start = span.start;
    let len = span.len;
    let mut a: usize = 0;
    assert(items.skip(0) =~= items);
    assert(out@ + pairs_of(items) =~= pairs_of(items));
    while a < len
        invariant
            items == region(store@, span),
            start == span.start,
            len == span.len,
            span.fits(store.len() as int),
            0 <= a <= len,
            out@ + pairs_of(items.skip(a as int)) == pairs_of(items),
        decreases len - a,
    {
        let ghost done = out@;
        let ghost tail = items.skip(a as int);
        let ghost row = pairs_with_first(tail);
        let first = store[start + a];
        let mut b: usize = a + 1;
        while b < len
            invariant
                items == region(store@, span),
                tail == items.skip(a as int),
                row == pairs_with_first(tail),
                start == span.start,
                len == span.len,
                span.fits(store.len() as int),
                first == store[start + a],
                a < b <= len,
                out@ == done + row.take(b - a - 1),
            decreases len - b,
        {
            out.push((first, store[start + b]));
            assert(row.take(b - a) =~= row.take(b - a - 1).push(row[b - a - 1]));
            b = b + 1;
        }
        assert(tail.drop_first() =~= items.skip(a + 1));
        if len - a >= 2 {
            assert(row.take(len - a - 1) == row);
            assert(done + (row + pairs_of(tail.drop_first())) =~= (done + row) + pairs_of(
                tail.drop_first(),
            ));
        } else {
            assert(row =~= Seq::<(u32, u32)>::empty());
            assert(out@ =~= done);
            assert(pairs_of(items.skip(a + 1)) =~= Seq::<(u32, u32)>::empty());
        }
        a = a + 1;
    }
    assert(out@ + Seq::<(u32, u32)>::empty() =~= out@);
    out
}

/// The product of one group.
pub fn product_of_group(store_q: &Vec<u32>, span_q: Span, store_r: &Vec<u32>, span_r: Span) -> (out:
    Vec<(u32, u32)>)
    requires
        span_q.fits(store_q.len() as int),
        span_r.fits(store_r.len() as int),
    ensures
        out@ == product_of(region(store_q@, span_q), region(store_r@, span_r)),
{
    let ghost q = region(store_q@, span_q);
    let ghost r = region(store_r@, span_r);
    let mut out: Vec<(u32, u32)> = Vec::new();
    let mut a: usize = 0;
    assert(q.skip(0) =~= q);
    assert(out@ + product_of(q, r) =~= product_of(q, r));
    while a < span_q.len
        invariant
            q == region(store_q@, span_q),
            r == region(store_r@, span_r),
            span_q.fits(store_q.len() as int),
            span_r.fits(store_r.len() as int),
            0 <= a <= span_q.len,
            out@ + product_of(q.skip(a as int), r) == product_of(q, r),
        decreases span_q.len - a,
    {
        let ghost done = out@;
        let ghost tail = q.skip(a as int);
        let ghost row = pairs_across(tail[0], r);
        let first = store_q[span_q.start + a];
        let mut b: usize = 0;
        while b < span_r.len
            invariant
                r == region(store_r@, span_r),
                row == pairs_across(first, r),
                span_r.fits(store_r.len() as int),
                0 <= b <= span_r.len,
                out@ == done + row.take(b as int),
            decreases span_r.len - b,
        {
            out.push((first, store_r[span_r.start + b]));
            assert(row.take(b + 1) =~= row.take(b as int).push(row[b as int]));
            b = b + 1;
        }
        assert(row.take(b as int) == row);
        assert(tail.drop_first() =~= q.skip(a + 1));
        assert(done + (row + product_of(tail.drop_first(), r)) =~= (done + row) + product_of(
            tail.drop_first(),
            r,
        ));
        a = a + 1;
    }
    assert(out@ + Seq::<(u32, u32)>::empty() =~= out@);
    out
}

/// Expands groups of origins that share a variant into candidate pairs: every
/// two items of each group, the earlier first, sorted, with no pair twice.
pub fn get_hit_candidates_within(store: &Vec<u32>, groups: &Vec<Span>) -> (out: Vec<(u32, u32)>)
    requires
        forall|g: int| 0 <= g < groups.len() ==> (#[trigger] groups[g]).fits(store.len() as int),
    ensures
        pairs_strictly_sorted(out@),
        forall|x: u32, y: u32| out@.contains((x, y)) <==> paired_within(store@, groups@, x, y),
{
    let expand = |g: usize, span: &Span| -> (pairs: Vec<(u32, u32)>)
        requires
            span.fits(store.len() as int),
        ensures
            pairs@ == pairs_of(region(store@, *span)),
        { pairs_of_group(store, *span) };
    let parts = par_map_indexed(groups, MIN_ITEMS_PER_TASK, expand);
    let mut out = flatten(&parts);
    let ghost written = out@;
    sort_pairs(&mut out);
    proof {
        lemma_reordered_same_items(out@, written);
    }
    dedup_pairs(&mut out);
    proof {
        let all = views_of(parts@);
        assert forall|x: u32, y: u32| out@.contains((x, y)) <==> paired_within(
            store@,
            groups@,
            x,
            y,
        ) by {
            lemma_joined_contains(all, (x, y));
            if written.contains((x, y)) {
                let g = choose|g: int| 0 <= g < all.len() && (#[trigger] all[g]).contains((x, y));
                assert(all[g] == parts[g]@);
                assert(pairs_of(region(store@, groups[g])).contains((x, y)));
            }
            if paired_within(store@, groups@, x, y) {
                let g = choose|g: int|
                    0 <= g < groups.len() && pairs_of(
                        region(store@, #[trigger] groups[g]),
                    ).contains((x, y));
                assert(all[g] == parts[g]@);
                assert(all[g].contains((x, y)));
            }
        }
    }
    out
}

/// Expands groups that hold origins of both sides into candidate pairs: every
/// query-side item of each group with every reference-side item, sorted, with
/// no pair twice.
pub fn get_hit_candidates_from_cis_cross(
    store_q: &Vec<u32>,
    store_r: &Vec<u32>,
    groups: &Vec<(Span, Span)>,
) -> (out: Vec<(u32, u32)>)
    requires
        forall|g: int|
            0 <= g < groups.len() ==> (#[trigger] groups[g]).0.fits(store_q.len() as int)
                && groups[g].1.fits(store_r.len() as int),
    ensures
        pairs_strictly_sorted(out@),
        forall|x: u32, y: u32|
            out@.contains((x, y)) <==> paired_across(store_q@, store_r@, groups@, x, y),
{
    let expand = |g: usize, spans: &(Span, Span)| -> (pairs: Vec<(u32, u32)>)
        requires
            spans.0.fits(store_q.len() as int),
            spans.1.fits(store_r.len() as int),
        ensures
            pairs@ == product_of(region(store_q@, spans.0), region(store_r@, spans.1)),
        { product_of_group(store_q, spans.0, store_r, spans.1) };
    let parts = par_map_indexed(groups, MIN_ITEMS_PER_TASK, expand);
    let mut out = flatten(&parts);
    let ghost written = out@;
    sort_pairs(&mut out);
    proof {
        lemma_reordered_same_items(out@, written);
    }
    dedup_pairs(&mut out);
    proof {
        let all = views_of(parts@);
        assert forall|x: u32, y: u32| out@.contains((x, y)) <==> paired_across(
            store_q@,
            store_r@,
            groups@,
            x,
            y,
        ) by {
            lemma_joined_contains(all, (x, y));
            if written.contains((x, y)) {
                let g = choose|g: int| 0 <= g < all.len() && (#[trigger] all[g]).contains((x, y));
                assert(all[g] == parts[g]@);
                assert(product_of(
                    region(store_q@, groups[g].0),
                    region(store_r@, groups[g].1),
                ).contains((x, y)));
            }
            if paired_across(store_q@, store_r@, groups@, x, y) {
                let g = choose|g: int|
                    0 <= g < groups.len() && product_of(
                        region(store_q@, (#[trigger] groups[g]).0),
                        region(store_r@, groups[g].1),
                    ).contains((x, y));
                assert(all[g] == parts[g]@);
                assert(all[g].contains((x, y)));
            }
        }
    }
    out
}

} // verus!
