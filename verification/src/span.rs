//! Contiguous regions of a flat arena.

use vstd::prelude::*;
use crate::parallel::joined;

verus! {

/// A region `start .. start + len` of a flat arena.
#[derive(Debug, Clone, Copy, PartialEq, Eq, Structural)]
pub struct Span {
    pub start: usize,
    pub len: usize,
}

impl Span {
    /// The region lies inside an arena of `n` slots.
    pub open spec fn fits(self, n: int) -> bool {
        self.start + self.len <= n
    }

    /// One past the last position of the region.
    pub open spec fn end(self) -> int {
        self.start + self.len
    }

    /// The region of `len` slots from `start`.
    pub fn new(start: usize, len: usize) -> (s: Span)
        ensures
            s == (Span { start, len }),
    {
        Span { start, len }
    }

    /// The number of slots in the region.
    pub fn len(&self) -> (n: usize)
        ensures
            n == self.len,
    {
        self.len
    }
}

/// The sum of the lengths.
pub open spec fn total(lens: Seq<usize>) -> nat
    decreases lens.len(),
{
    if lens.len() == 0 {
        0
    } else {
        total(lens.drop_last()) + lens.last() as nat
    }
}

/// A shorter list of lengths sums to no more.
pub proof fn lemma_total_take(lens: Seq<usize>, i: int)
    requires
        0 <= i <= lens.len(),
    ensures
        total(lens.take(i)) <= total(lens),
        i < lens.len() ==> total(lens.take(i)) + lens[i] == total(lens.take(i + 1)),
    decreases lens.len(),
{
    if i < lens.len() {
        assert(lens.take(i + 1).drop_last() == lens.take(i));
        assert(lens.drop_last().take(i) == lens.take(i));
        lemma_total_take(lens.drop_last(), i);
    } else {
        assert(lens.take(i) == lens);
    }
}

/// Lays regions of the given lengths end to end from the start of an arena:
/// region `i` begins where the regions before it end.
pub fn get_disjoint_spans(span_lens: &Vec<usize>) -> (spans: Vec<Span>)
    requires
        total(span_lens@) <= usize::MAX,
    ensures
        spans.len() == span_lens.len(),
        forall|i: int|
            0 <= i < spans.len() ==> (#[trigger] spans[i]).len == span_lens[i] && spans[i].start
                == total(span_lens@.take(i)),
{
    let mut spans: Vec<Span> = Vec::with_capacity(span_lens.len());
    let mut cursor: usize = 0;
    let mut i: usize = 0;
    while i < span_lens.len()
        invariant
            total(span_lens@) <= usize::MAX,
            0 <= i <= span_lens.len(),
            spans.len() == i,
            cursor == total(span_lens@.take(i as int)),
            forall|j: int|
                0 <= j < i ==> (#[trigger] spans[j]).len == span_lens[j] && spans[j].start
                    == total(span_lens@.take(j)),
        decreases span_lens.len() - i,
    {
        let n = span_lens[i];
        proof {
            lemma_total_take(span_lens@, i as int);
            lemma_total_take(span_lens@, i + 1);
        }
        spans.push(Span::new(cursor, n));
        cursor = cursor + n;
        i = i + 1;
    }
    spans
}

/// The bytes of the arena that a span names.
pub open spec fn bytes_at(store: Seq<u8>, span: Span) -> Seq<u8> {
    store.subrange(span.start as int, span.end())
}

/// Joining more parts gives a longer list that begins with the shorter one.
pub proof fn lemma_joined_take<T>(parts: Seq<Seq<T>>, i: int)
    requires
        0 <= i <= parts.len(),
    ensures
        joined(parts.take(i)).len() <= joined(parts).len(),
        joined(parts.take(i)) == joined(parts).take(joined(parts.take(i)).len() as int),
        i < parts.len() ==> joined(parts.take(i + 1)) == joined(parts.take(i)) + parts[i],
    decreases parts.len(),
{
    if i < parts.len() {
        let head = parts.drop_last();
        assert(head.take(i) == parts.take(i));
        lemma_joined_take(head, i);
        assert(joined(parts.take(i)) =~= joined(parts).take(joined(parts.take(i)).len() as int));
        assert(parts.take(i + 1).drop_last() == parts.take(i));
    } else {
        assert(parts.take(i) == parts);
        assert(joined(parts) =~= joined(parts).take(joined(parts).len() as int));
    }
}

/// In an arena that joins the parts, part `i` lies between the end of the
/// parts before it and its own end.
pub proof fn lemma_joined_region<T>(parts: Seq<Seq<T>>, i: int)
    requires
        0 <= i < parts.len(),
    ensures
        joined(parts.take(i)).len() + parts[i].len() <= joined(parts).len(),
        joined(parts).subrange(
            joined(parts.take(i)).len() as int,
            (joined(parts.take(i)).len() + parts[i].len()) as int,
        ) == parts[i],
{
    lemma_joined_take(parts, i);
    lemma_joined_take(parts, i + 1);
    let upto = joined(parts.take(i + 1));
    let before = joined(parts.take(i));
    assert(upto.subrange(before.len() as int, upto.len() as int) =~= parts[i]);
    assert(joined(parts).subrange(before.len() as int, (before.len() + parts[i].len()) as int) =~= upto.subrange(
        before.len() as int,
        upto.len() as int,
    ));
}

} // verus!
