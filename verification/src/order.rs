//! The order of variant-index records and of candidate pairs, and what sorted
//! lists have from it.

use vstd::prelude::*;
use crate::parallel::views_of;

verus! {

/// `a` comes before `b`: by digest, then by origin.
pub open spec fn record_lt(a: (u64, u32), b: (u64, u32)) -> bool {
    a.0 < b.0 || (a.0 == b.0 && a.1 < b.1)
}

/// Ascending, equal neighbours allowed.
pub open spec fn records_sorted(v: Seq<(u64, u32)>) -> bool {
    forall|i: int, j: int| 0 <= i < j < v.len() ==> record_lt(v[i], v[j]) || v[i] == v[j]
}

/// Ascending with no record twice.
pub open spec fn records_strictly_sorted(v: Seq<(u64, u32)>) -> bool {
    forall|i: int, j: int| 0 <= i < j < v.len() ==> record_lt(v[i], v[j])
}

/// `a` comes before `b`: by row, then by column.
pub open spec fn pair_lt(a: (u32, u32), b: (u32, u32)) -> bool {
    a.0 < b.0 || (a.0 == b.0 && a.1 < b.1)
}

/// Ascending, equal neighbours allowed.
pub open spec fn pairs_sorted(v: Seq<(u32, u32)>) -> bool {
    forall|i: int, j: int| 0 <= i < j < v.len() ==> pair_lt(v[i], v[j]) || v[i] == v[j]
}

/// Ascending with no pair twice.
pub open spec fn pairs_strictly_sorted(v: Seq<(u32, u32)>) -> bool {
    forall|i: int, j: int| 0 <= i < j < v.len() ==> pair_lt(v[i], v[j])
}

/// Two lists of pairs, each ascending with no pair twice, that hold the same
/// pairs are the same list.
pub proof fn lemma_sorted_pairs_unique(v: Seq<(u32, u32)>, w: Seq<(u32, u32)>)
    requires
        pairs_strictly_sorted(v),
        pairs_strictly_sorted(w),
        forall|p: (u32, u32)| v.contains(p) <==> w.contains(p),
    ensures
        v == w,
    decreases v.len(),
{
    if v.len() == 0 {
        if w.len() > 0 {
            assert(w.contains(w[0]));
        }
        assert(v =~= w);
    } else if w.len() == 0 {
        assert(v.contains(v[0]));
    } else {
        let a = v.last();
        let b = w.last();
        assert(v.contains(a));
        assert(w.contains(b));
        let i = choose|i: int| 0 <= i < w.len() && w[i] == a;
        let j = choose|j: int| 0 <= j < v.len() && v[j] == b;
        assert(a == b) by {
            if i < w.len() - 1 {
                assert(pair_lt(w[i], b));
            }
            if j < v.len() - 1 {
                assert(pair_lt(v[j], a));
            }
        }
        let v0 = v.drop_last();
        let w0 = w.drop_last();
        assert forall|p: (u32, u32)| v0.contains(p) <==> w0.contains(p) by {
            if v0.contains(p) {
                let x = choose|x: int| 0 <= x < v0.len() && v0[x] == p;
                assert(v[x] == p);
                assert(pair_lt(v[x], a));
                assert(v.contains(p));
                let y = choose|y: int| 0 <= y < w.len() && w[y] == p;
                assert(w0[y] == p);
            }
            if w0.contains(p) {
                let x = choose|x: int| 0 <= x < w0.len() && w0[x] == p;
                assert(w[x] == p);
                assert(pair_lt(w[x], b));
                assert(w.contains(p));
                let y = choose|y: int| 0 <= y < v.len() && v[y] == p;
                assert(v0[y] == p);
            }
        }
        assert(pairs_strictly_sorted(v0)) by {
            assert forall|x: int, y: int| 0 <= x < y < v0.len() implies pair_lt(v0[x], v0[y]) by {
                assert(pair_lt(v[x], v[y]));
            }
        }
        assert(pairs_strictly_sorted(w0)) by {
            assert forall|x: int, y: int| 0 <= x < y < w0.len() implies pair_lt(w0[x], w0[y]) by {
                assert(pair_lt(w[x], w[y]));
            }
        }
        lemma_sorted_pairs_unique(v0, w0);
        assert(v =~= v0.push(a));
        assert(w =~= w0.push(b));
    }
}

/// Drops every record that repeats the one before it.
pub fn dedup_records(v: &mut Vec<(u64, u32)>)
    requires
        records_sorted(old(v)@),
    ensures
        records_strictly_sorted(final(v)@),
        forall|r: (u64, u32)| final(v)@.contains(r) <==> old(v)@.contains(r),
{
    let ghost given = v@;
    let n = v.len();
    if n == 0 {
        return ;
    }
    let mut kept: usize = 1;
    let mut next: usize = 1;
    while next < n
        invariant
            given == old(v)@,
            records_sorted(given),
            v.len() == n,
            n == given.len(),
            1 <= kept <= next <= n,
            forall|i: int| next <= i < n ==> v[i] == given[i],
            v[kept - 1] == given[next - 1],
            records_strictly_sorted(v@.take(kept as int)),
            forall|r: (u64, u32)|
                v@.take(kept as int).contains(r) <==> given.take(next as int).contains(r),
        decreases n - next,
    {
        let current = v[next];
        let last = v[kept - 1];
        let ghost before = v@.take(kept as int);
        let ghost seen = given.take(next as int);
        assert(record_lt(given[next - 1], given[next as int]) || given[next - 1] == given[next as int]);
        if current.0 != last.0 || current.1 != last.1 {
            v.set(kept, current);
            kept = kept + 1;
            let ghost after = v@.take(kept as int);
            assert(after =~= before.push(current));
            assert(records_strictly_sorted(after)) by {
                assert forall|i: int, j: int| 0 <= i < j < after.len() implies record_lt(
                    after[i],
                    after[j],
                ) by {
                    if j == after.len() - 1 && i < j - 1 {
                        assert(record_lt(before[i], before[j - 1]));
                    } else if j < after.len() - 1 {
                        assert(record_lt(before[i], before[j]));
                    }
                }
            }
            assert forall|r: (u64, u32)| after.contains(r) <==> given.take(next + 1).contains(
                r,
            ) by {
                lemma_contains_push(before, current, r);
                assert(given.take(next + 1) =~= seen.push(current));
                lemma_contains_push(seen, current, r);
            }
        } else {
            assert(current == last);
            assert forall|r: (u64, u32)| before.contains(r) <==> given.take(next + 1).contains(
                r,
            ) by {
                assert(given.take(next + 1) =~= seen.push(current));
                lemma_contains_push(seen, current, r);
                assert(seen[next - 1] == current);
            }
        }
        next = next + 1;
    }
    assert(given.take(n as int) == given);
    v.truncate(kept);
}

/// Drops every pair that repeats the one before it.
pub fn dedup_pairs(v: &mut Vec<(u32, u32)>)
    requires
        pairs_sorted(old(v)@),
    ensures
        pairs_strictly_sorted(final(v)@),
        forall|p: (u32, u32)| final(v)@.contains(p) <==> old(v)@.contains(p),
{
    let ghost given = v@;
    let n = v.len();
    if n == 0 {
        return ;
    }
    let mut kept: usize = 1;
    let mut next: usize = 1;
    while next < n
        invariant
            given == old(v)@,
            pairs_sorted(given),
            v.len() == n,
            n == given.len(),
            1 <= kept <= next <= n,
            forall|i: int| next <= i < n ==> v[i] == given[i],
            v[kept - 1] == given[next - 1],
            pairs_strictly_sorted(v@.take(kept as int)),
            forall|p: (u32, u32)|
                v@.take(kept as int).contains(p) <==> given.take(next as int).contains(p),
        decreases n - next,
    {
        let current = v[next];
        let last = v[kept - 1];
        let ghost before = v@.take(kept as int);
        let ghost seen = given.take(next as int);
        assert(pair_lt(given[next - 1], given[next as int]) || given[next - 1] == given[next as int]);
        if current.0 != last.0 || current.1 != last.1 {
            v.set(kept, current);
            kept = kept + 1;
            let ghost after = v@.take(kept as int);
            assert(after =~= before.push(current));
            assert(pairs_strictly_sorted(after)) by {
                assert forall|i: int, j: int| 0 <= i < j < after.len() implies pair_lt(
                    after[i],
                    after[j],
                ) by {
                    if j == after.len() - 1 && i < j - 1 {
                        assert(pair_lt(before[i], before[j - 1]));
                    } else if j < after.len() - 1 {
                        assert(pair_lt(before[i], before[j]));
                    }
                }
            }
            assert forall|p: (u32, u32)| after.contains(p) <==> given.take(next + 1).contains(
                p,
            ) by {
                lemma_contains_push(before, current, p);
                assert(given.take(next + 1) =~= seen.push(current));
                lemma_contains_push(seen, current, p);
            }
        } else {
            assert(current == last);
            assert forall|p: (u32, u32)| before.contains(p) <==> given.take(next + 1).contains(
                p,
            ) by {
                assert(given.take(next + 1) =~= seen.push(current));
                lemma_contains_push(seen, current, p);
                assert(seen[next - 1] == current);
            }
        }
        next = next + 1;
    }
    assert(given.take(n as int) == given);
    v.truncate(kept);
}

/// What a list holds after a push: what it held, and the new item.
pub proof fn lemma_contains_push<T>(s: Seq<T>, x: T, y: T)
    ensures
        s.push(x).contains(y) <==> s.contains(y) || y == x,
{
    let t = s.push(x);
    if s.contains(y) {
        let i = choose|i: int| 0 <= i < s.len() && s[i] == y;
        assert(t[i] == y);
    }
    if y == x {
        assert(t[s.len() as int] == y);
    }
    if t.contains(y) {
        let i = choose|i: int| 0 <= i < t.len() && t[i] == y;
        if i < s.len() {
            assert(s[i] == y);
        }
    }
}

/// What a concatenation holds: what either part holds.
pub proof fn lemma_contains_add<T>(s: Seq<T>, t: Seq<T>, y: T)
    ensures
        (s + t).contains(y) <==> s.contains(y) || t.contains(y),
{
    let u = s + t;
    if s.contains(y) {
        let i = choose|i: int| 0 <= i < s.len() && s[i] == y;
        assert(u[i] == y);
    }
    if t.contains(y) {
        let i = choose|i: int| 0 <= i < t.len() && t[i] == y;
        assert(u[s.len() + i] == y);
    }
    if u.contains(y) {
        let i = choose|i: int| 0 <= i < u.len() && u[i] == y;
        if i < s.len() {
            assert(s[i] == y);
        } else {
            assert(t[i - s.len()] == y);
        }
    }
}

/// `a` comes before `b` in the order of byte strings: at the first place
/// where they differ `a` has the lesser byte, or `a` ends there and `b` goes
/// on.
pub open spec fn bytes_lt(a: Seq<u8>, b: Seq<u8>) -> bool
    decreases a.len(),
{
    if b.len() == 0 {
        false
    } else if a.len() == 0 {
        true
    } else if a[0] != b[0] {
        a[0] < b[0]
    } else {
        bytes_lt(a.drop_first(), b.drop_first())
    }
}

/// Ascending, equal neighbours allowed.
pub open spec fn strings_sorted(v: Seq<Seq<u8>>) -> bool {
    forall|i: int, j: int| 0 <= i < j < v.len() ==> bytes_lt(v[i], v[j]) || v[i] == v[j]
}

/// Ascending with no string twice.
pub open spec fn strings_strictly_sorted(v: Seq<Seq<u8>>) -> bool {
    forall|i: int, j: int| 0 <= i < j < v.len() ==> bytes_lt(v[i], v[j])
}

/// What comes before something that comes before a third comes before the
/// third.
pub proof fn lemma_bytes_lt_transitive(a: Seq<u8>, b: Seq<u8>, c: Seq<u8>)
    requires
        bytes_lt(a, b),
        bytes_lt(b, c),
    ensures
        bytes_lt(a, c),
    decreases a.len(),
{
    if a.len() > 0 && a[0] == b[0] && b[0] == c[0] {
        lemma_bytes_lt_transitive(a.drop_first(), b.drop_first(), c.drop_first());
    }
}

/// Calls `sort_unstable` of the standard slice on the strings. It reorders
/// the slice in place into ascending order, vectors of bytes comparing
/// lexicographically.
#[verifier::external_body]
pub(crate) fn sort_strings(v: &mut Vec<Vec<u8>>)
    ensures
        strings_sorted(views_of(final(v)@)),
        final(v)@.to_multiset() == old(v)@.to_multiset(),
{
    v.sort_unstable();
}

/// Whether two strings hold the same bytes.
pub fn bytes_equal(a: &Vec<u8>, b: &Vec<u8>) -> (same: bool)
    ensures
        same == (a@ == b@),
{
    if a.len() != b.len() {
        return false;
    }
    let mut i: usize = 0;
    while i < a.len()
        invariant
            a.len() == b.len(),
            0 <= i <= a.len(),
            forall|j: int| 0 <= j < i ==> a[j] == b[j],
        decreases a.len() - i,
    {
        if a[i] != b[i] {
            return false;
        }
        i = i + 1;
    }
    assert(a@ =~= b@);
    true
}

/// Drops every string that repeats the one before it.
pub fn dedup_strings(v: Vec<Vec<u8>>) -> (out: Vec<Vec<u8>>)
    requires
        strings_sorted(views_of(v@)),
    ensures
        strings_strictly_sorted(views_of(out@)),
        forall|s: Seq<u8>|
            views_of(out@).contains(s) <==> views_of(v@).contains(s),
{
    let ghost given = views_of(v@);
    let mut out: Vec<Vec<u8>> = Vec::new();
    let mut v = v;
    let n = v.len();
    let mut next: usize = 0;
    while next < n
        invariant
            n == v.len(),
            v@.len() == given.len(),
            forall|i: int| next <= i < n ==> (#[trigger] v[i])@ == given[i],
            strings_sorted(given),
            0 <= next <= n,
            next > 0 ==> out.len() > 0 && out[out.len() - 1]@ == given[next - 1],
            next == 0 ==> out.len() == 0,
            strings_strictly_sorted(views_of(out@)),
            forall|s: Seq<u8>|
                views_of(out@).contains(s) <==> given.take(next as int).contains(
                    s,
                ),
        decreases n - next,
    {
        let ghost kept = views_of(out@);
        let ghost seen = given.take(next as int);
        let ghost current = given[next as int];
        assert(given.take(next + 1) =~= seen.push(current));
        let repeats = next > 0 && bytes_equal(&v[next], &out[out.len() - 1]);
        if !repeats {
            let mut taken: Vec<u8> = Vec::new();
            std::mem::swap(&mut taken, &mut v[next]);
            out.push(taken);
            let ghost grown = views_of(out@);
            assert(grown =~= kept.push(current));
            assert(strings_strictly_sorted(grown)) by {
                assert forall|i: int, j: int| 0 <= i < j < grown.len() implies bytes_lt(
                    grown[i],
                    grown[j],
                ) by {
                    if j == grown.len() - 1 {
                        let last = kept[kept.len() - 1];
                        assert(bytes_lt(given[next - 1], given[next as int]) || given[next - 1]
                            == given[next as int]);
                        if i < j - 1 {
                            assert(bytes_lt(kept[i], last));
                            lemma_bytes_lt_transitive(kept[i], last, current);
                        }
                    } else {
                        assert(bytes_lt(kept[i], kept[j]));
                    }
                }
            }
            assert forall|s: Seq<u8>| grown.contains(s) <==> given.take(next + 1).contains(s) by {
                lemma_contains_push(kept, current, s);
                lemma_contains_push(seen, current, s);
            }
        } else {
            assert forall|s: Seq<u8>| kept.contains(s) <==> given.take(next + 1).contains(s) by {
                lemma_contains_push(seen, current, s);
                assert(seen[next - 1] == current);
            }
        }
        next = next + 1;
    }
    assert(given.take(n as int) == given);
    out
}

} // verus!
