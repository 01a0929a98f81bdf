//! Deletion variants of one string, as hashes tagged with their origin.

use vstd::prelude::*;
use std::hash::{BuildHasher, Hasher};
use foldhash::fast::FixedState;
use crate::combinations::{
    binomial, combinations, index_combinations, is_combination, lemma_combinations_complete,
    lemma_combinations_len, lemma_combinations_sound, lemma_subsequence_is_without,
    lemma_without_is_subsequence, lemma_without_nothing, positions_of, without,
};
use crate::levenshtein::{is_variant, lemma_subsequence_len};
use crate::order::{dedup_strings, lemma_contains_add, sort_strings, strings_strictly_sorted};
use crate::parallel::{lemma_reordered_same_items, views_of};
use crate::utils::{tag_word, CrossIndex, MaxDistance};

verus! {

/// The 64-bit digest under which a variant is indexed: what the fixed-seed
/// hasher of the hashing crate makes of the bytes. Which number that is no
/// contract says; equal bytes have equal digests.
pub uninterp spec fn variant_hash(bytes: Seq<u8>) -> u64;

/// Feeds the bytes to a `foldhash::fast::FixedState::default()` hasher in one
/// `write` and takes its `finish`. The state has a fixed seed, so within one
/// build of the program the digest depends on the bytes alone.
#[verifier::external_body]
pub(crate) fn hash_string(bytes: &[u8]) -> (h: u64)
    ensures
        h == variant_hash(bytes@),
{
    let mut hasher = FixedState::default().build_hasher();
    hasher.write(bytes);
    hasher.finish()
}

/// `h` is the digest of a deletion variant of `s` for the threshold `k`.
pub open spec fn has_variant_hash(s: Seq<u8>, k: nat, h: u64) -> bool {
    exists|v: Seq<u8>| is_variant(v, s, k) && variant_hash(v) == h
}

/// The records of the variants of `s` with exactly `j` bytes taken out.
pub open spec fn variant_layer(s: Seq<u8>, tag: u32, j: nat) -> Seq<(u64, u32)> {
    index_combinations(0, s.len() as int, j).map_values(
        |c: Seq<int>| (variant_hash(without(s, c)), tag),
    )
}

/// The records of the variants of `s` with at most `j` bytes taken out, by
/// ascending number of deletions.
pub open spec fn variant_layers(s: Seq<u8>, tag: u32, j: nat) -> Seq<(u64, u32)>
    decreases j,
{
    if j == 0 {
        variant_layer(s, tag, 0)
    } else {
        variant_layers(s, tag, (j - 1) as nat) + variant_layer(s, tag, j)
    }
}

/// The variant-index records of one string for the threshold `k`: one record
/// for every choice of at most `k` positions to delete, the whole string
/// first.
pub open spec fn variant_records(s: Seq<u8>, tag: u32, k: nat) -> Seq<(u64, u32)> {
    variant_layers(
        s,
        tag,
        if k <= s.len() {
            k
        } else {
            s.len()
        },
    )
}

/// The number of choices of at most `j` out of `n` positions.
pub open spec fn choices_up_to(n: nat, j: nat) -> nat
    decreases j,
{
    if j == 0 {
        1
    } else {
        choices_up_to(n, (j - 1) as nat) + binomial(n, j)
    }
}

/// The number of variant-index records of a string of `n` bytes for the
/// threshold `k`.
pub open spec fn num_deletion_variants(n: nat, k: nat) -> nat {
    choices_up_to(
        n,
        if k <= n {
            k
        } else {
            n
        },
    )
}

/// The layers hold one record for each choice of positions.
proof fn lemma_variant_layers_len(s: Seq<u8>, tag: u32, j: nat)
    ensures
        variant_layers(s, tag, j).len() == choices_up_to(s.len(), j),
    decreases j,
{
    lemma_combinations_len(0, s.len() as int, j);
    if j > 0 {
        lemma_variant_layers_len(s, tag, (j - 1) as nat);
    }
}

/// A string has exactly as many records as the counting formula says, and its
/// first record is that of the string itself.
pub proof fn lemma_variant_records_len(s: Seq<u8>, tag: u32, k: nat)
    ensures
        variant_records(s, tag, k).len() == num_deletion_variants(s.len(), k),
        variant_records(s, tag, k).len() > 0,
        variant_records(s, tag, k)[0] == (variant_hash(s), tag),
{
    let m = if k <= s.len() {
        k
    } else {
        s.len()
    };
    lemma_variant_layers_len(s, tag, m);
    lemma_variant_layers_first(s, tag, m);
}

/// The first record is that of the string itself.
proof fn lemma_variant_layers_first(s: Seq<u8>, tag: u32, j: nat)
    ensures
        variant_layers(s, tag, j).len() > 0,
        variant_layers(s, tag, j)[0] == (variant_hash(s), tag),
    decreases j,
{
    if j == 0 {
        lemma_without_nothing(s);
        assert(index_combinations(0, s.len() as int, 0)[0] == Seq::<int>::empty());
    } else {
        lemma_variant_layers_first(s, tag, (j - 1) as nat);
    }
}

/// Every record of the layers is the digest of a variant, under the tag.
proof fn lemma_layers_sound(s: Seq<u8>, tag: u32, j: nat, r: (u64, u32))
    requires
        variant_layers(s, tag, j).contains(r),
    ensures
        r.1 == tag,
        has_variant_hash(s, j, r.0),
    decreases j,
{
    let layer = variant_layer(s, tag, j);
    if j > 0 && variant_layers(s, tag, (j - 1) as nat).contains(r) {
        lemma_layers_sound(s, tag, (j - 1) as nat, r);
        let v = choose|v: Seq<u8>| is_variant(v, s, (j - 1) as nat) && variant_hash(v) == r.0;
        assert(is_variant(v, s, j));
    } else {
        if j > 0 {
            let whole = variant_layers(s, tag, j);
            let before = variant_layers(s, tag, (j - 1) as nat);
            let i = choose|i: int| 0 <= i < whole.len() && whole[i] == r;
            if i < before.len() {
                assert(before[i] == r);
            }
            assert(layer[i - before.len()] == r);
        }
        let t = choose|t: int| 0 <= t < layer.len() && layer[t] == r;
        lemma_combinations_sound(0, s.len() as int, j, t);
        let c = index_combinations(0, s.len() as int, j)[t];
        lemma_without_is_subsequence(s, c);
        assert(is_variant(without(s, c), s, j));
    }
}

/// The digest of every variant is in the layers.
proof fn lemma_layers_complete(s: Seq<u8>, tag: u32, j: nat, v: Seq<u8>)
    requires
        is_variant(v, s, j),
        j <= s.len(),
    ensures
        variant_layers(s, tag, j).contains((variant_hash(v), tag)),
    decreases j,
{
    lemma_subsequence_len(v, s);
    if v.len() + j == s.len() {
        let c = lemma_subsequence_is_without(v, s);
        let t = lemma_combinations_complete(0, s.len() as int, c);
        let layer = variant_layer(s, tag, j);
        assert(layer[t] == (variant_hash(v), tag));
        if j > 0 {
            let before = variant_layers(s, tag, (j - 1) as nat);
            assert(variant_layers(s, tag, j)[before.len() + t] == layer[t]);
        }
    } else {
        lemma_layers_complete(s, tag, (j - 1) as nat, v);
        let before = variant_layers(s, tag, (j - 1) as nat);
        let i = choose|i: int| 0 <= i < before.len() && before[i] == (variant_hash(v), tag);
        assert(variant_layers(s, tag, j)[i] == before[i]);
    }
}

/// The records of a string are the digests of its deletion variants, each
/// under the string's own tag.
pub proof fn lemma_variant_records_contain(s: Seq<u8>, tag: u32, k: nat, r: (u64, u32))
    ensures
        variant_records(s, tag, k).contains(r) <==> r.1 == tag && has_variant_hash(s, k, r.0),
{
    let m = if k <= s.len() {
        k
    } else {
        s.len()
    };
    if variant_records(s, tag, k).contains(r) {
        lemma_layers_sound(s, tag, m, r);
        let v = choose|v: Seq<u8>| is_variant(v, s, m) && variant_hash(v) == r.0;
        assert(is_variant(v, s, k));
    }
    if r.1 == tag && has_variant_hash(s, k, r.0) {
        let v = choose|v: Seq<u8>| is_variant(v, s, k) && variant_hash(v) == r.0;
        lemma_subsequence_len(v, s);
        assert(is_variant(v, s, m));
        lemma_layers_complete(s, tag, m, v);
    }
}

/// Writes into `buffer` what is left of `input` without the chosen positions.
fn delete_positions(input: &Vec<u8>, choice: &Vec<usize>, buffer: &mut Vec<u8>)
    requires
        is_combination(positions_of(choice@), 0, input.len() as int),
    ensures
        final(buffer)@ == without(input@, positions_of(choice@)),
{
    let ghost c = positions_of(choice@);
    let n = input.len();
    buffer.clear();
    let mut next: usize = 0;
    let mut p: usize = 0;
    while p < n
        invariant
            n == input.len(),
            c == positions_of(choice@),
            is_combination(c, 0, n as int),
            0 <= p <= n,
            0 <= next <= choice.len(),
            forall|i: int| 0 <= i < next ==> c[i] < p,
            forall|i: int| next <= i < c.len() ==> c[i] >= p,
            buffer@ == without(input@.take(p as int), c),
        decreases n - p,
    {
        let ghost before = input@.take(p as int);
        let ghost after = input@.take(p + 1);
        assert(after.drop_last() == before);
        if next < choice.len() && choice[next] == p {
            assert(c[next as int] == p);
            assert(c.contains(p as int));
            assert forall|i: int| next + 1 <= i < c.len() implies c[i] >= p + 1 by {
                assert(c[next as int] < c[i]);
            }
            next = next + 1;
        } else {
            assert(!c.contains(p as int)) by {
                if c.contains(p as int) {
                    let i = choose|i: int| 0 <= i < c.len() && c[i] == p;
                    if i > next {
                        assert(c[next as int] < c[i]);
                    }
                }
            }
            buffer.push(input[p]);
        }
        p = p + 1;
    }
    assert(input@.take(n as int) == input@);
}

/// Appends to `out` the variant-index records of `input`: for every choice of
/// at most `max_deletions` positions, the digest of the string without them,
/// tagged with `input_idx`. The record of the whole string comes first.
pub fn write_vi_pairs_rawidx(
    input: &Vec<u8>,
    input_idx: u32,
    max_deletions: MaxDistance,
    out: &mut Vec<(u64, u32)>,
)
    ensures
        final(out)@ == old(out)@ + variant_records(input@, input_idx, max_deletions@),
{
    let ghost prior = out@;
    let ghost s = input@;
    let n = input.len();
    let k = max_deletions.as_u8();
    out.push((hash_string(input.as_slice()), input_idx));
    proof {
        lemma_variant_layers_first(s, input_idx, 0);
        lemma_combinations_len(0, n as int, 0);
        assert(out@ =~= prior + variant_layers(s, input_idx, 0));
    }
    let mut buffer: Vec<u8> = Vec::with_capacity(n);
    let mut num_deletions: u8 = 1;
    while num_deletions <= k && num_deletions as usize <= n
        invariant
            s == input@,
            n == input.len(),
            k <= 254,
            1 <= num_deletions <= k + 1,
            num_deletions - 1 <= n,
            out@ == prior + variant_layers(s, input_idx, (num_deletions - 1) as nat),
        decreases k + 1 - num_deletions,
    {
        let choices = combinations(n, num_deletions as usize);
        let ghost done = out@;
        let ghost layer = variant_layer(s, input_idx, num_deletions as nat);
        let ghost listed = index_combinations(0, n as int, num_deletions as nat);
        let mut t: usize = 0;
        while t < choices.len()
            invariant
                s == input@,
                n == input.len(),
                listed == index_combinations(0, n as int, num_deletions as nat),
                layer == variant_layer(s, input_idx, num_deletions as nat),
                choices.len() == listed.len(),
                forall|i: int|
                    0 <= i < choices.len() ==> positions_of(#[trigger] choices[i]@) == listed[i],
                0 <= t <= choices.len(),
                out@ == done + layer.take(t as int),
            decreases choices.len() - t,
        {
            proof {
                lemma_combinations_sound(0, n as int, num_deletions as nat, t as int);
            }
            delete_positions(input, &choices[t], &mut buffer);
            out.push((hash_string(buffer.as_slice()), input_idx));
            assert(layer.take(t + 1) =~= layer.take(t as int).push(layer[t as int]));
            t = t + 1;
        }
        assert(layer.take(t as int) == layer);
        assert(out@ =~= prior + variant_layers(s, input_idx, num_deletions as nat));
        num_deletions = num_deletions + 1;
    }
}

/// As `write_vi_pairs_rawidx`, with the origin tagged by its side.
pub fn write_vi_pairs_ci(
    input: &Vec<u8>,
    input_idx: u32,
    max_deletions: MaxDistance,
    is_ref: bool,
    out: &mut Vec<(u64, u32)>,
)
    requires
        input_idx <= CrossIndex::MAX,
    ensures
        final(out)@ == old(out)@ + variant_records(
            input@,
            tag_word(input_idx, is_ref),
            max_deletions@,
        ),
{
    let ci = CrossIndex::from(input_idx, is_ref);
    write_vi_pairs_rawidx(input, ci.to_word(), max_deletions, out);
}

/// The variants of `s` with exactly `j` bytes taken out, one for each choice
/// of positions.
pub open spec fn string_layer(s: Seq<u8>, j: nat) -> Seq<Seq<u8>> {
    index_combinations(0, s.len() as int, j).map_values(|c: Seq<int>| without(s, c))
}

/// The variants of `s` with at most `j` bytes taken out, by ascending number
/// of deletions.
pub open spec fn string_layers(s: Seq<u8>, j: nat) -> Seq<Seq<u8>>
    decreases j,
{
    if j == 0 {
        string_layer(s, 0)
    } else {
        string_layers(s, (j - 1) as nat) + string_layer(s, j)
    }
}

/// Every string of the layers is a variant.
proof fn lemma_string_layers_sound(s: Seq<u8>, j: nat, v: Seq<u8>)
    requires
        string_layers(s, j).contains(v),
    ensures
        is_variant(v, s, j),
    decreases j,
{
    let layer = string_layer(s, j);
    if j > 0 {
        lemma_contains_add(string_layers(s, (j - 1) as nat), layer, v);
    }
    if j > 0 && string_layers(s, (j - 1) as nat).contains(v) {
        lemma_string_layers_sound(s, (j - 1) as nat, v);
    } else {
        let t = choose|t: int| 0 <= t < layer.len() && layer[t] == v;
        lemma_combinations_sound(0, s.len() as int, j, t);
        lemma_without_is_subsequence(s, index_combinations(0, s.len() as int, j)[t]);
    }
}

/// Every variant is in the layers.
proof fn lemma_string_layers_complete(s: Seq<u8>, j: nat, v: Seq<u8>)
    requires
        is_variant(v, s, j),
        j <= s.len(),
    ensures
        string_layers(s, j).contains(v),
    decreases j,
{
    lemma_subsequence_len(v, s);
    let layer = string_layer(s, j);
    if j > 0 {
        lemma_contains_add(string_layers(s, (j - 1) as nat), layer, v);
    }
    if v.len() + j == s.len() {
        let c = lemma_subsequence_is_without(v, s);
        let t = lemma_combinations_complete(0, s.len() as int, c);
        assert(layer[t] == v);
    } else {
        lemma_string_layers_complete(s, (j - 1) as nat, v);
    }
}

/// The deletion variants of `input` for the threshold `max_deletions` as
/// strings: every string left after at most that many bytes are taken out,
/// in ascending order, each once.
pub fn get_deletion_variants(input: &Vec<u8>, max_deletions: MaxDistance) -> (variants: Vec<
    Vec<u8>,
>)
    ensures
        strings_strictly_sorted(views_of(variants@)),
        forall|v: Seq<u8>|
            views_of(variants@).contains(v) <==> is_variant(v, input@, max_deletions@),
{
    let ghost s = input@;
    let n = input.len();
    let k = max_deletions.as_u8();
    let mut found: Vec<Vec<u8>> = Vec::new();
    let mut num_deletions: u8 = 0;
    assert(views_of(found@) =~= Seq::<Seq<u8>>::empty());
    while num_deletions <= k && num_deletions as usize <= n
        invariant
            s == input@,
            n == input.len(),
            k <= 254,
            0 <= num_deletions <= k + 1,
            num_deletions <= n + 1,
            num_deletions == 0 ==> views_of(found@) == Seq::<Seq<u8>>::empty(),
            num_deletions > 0 ==> views_of(found@) == string_layers(s, (num_deletions - 1) as nat),
        decreases k + 1 - num_deletions,
    {
        let choices = combinations(n, num_deletions as usize);
        let ghost done = views_of(found@);
        let ghost layer = string_layer(s, num_deletions as nat);
        let ghost listed = index_combinations(0, n as int, num_deletions as nat);
        let mut t: usize = 0;
        assert(done + layer.take(0) =~= done);
        while t < choices.len()
            invariant
                s == input@,
                n == input.len(),
                listed == index_combinations(0, n as int, num_deletions as nat),
                layer == string_layer(s, num_deletions as nat),
                choices.len() == listed.len(),
                forall|i: int|
                    0 <= i < choices.len() ==> positions_of(#[trigger] choices[i]@) == listed[i],
                0 <= t <= choices.len(),
                views_of(found@) == done + layer.take(t as int),
            decreases choices.len() - t,
        {
            proof {
                lemma_combinations_sound(0, n as int, num_deletions as nat, t as int);
            }
            let ghost before = views_of(found@);
            let mut variant: Vec<u8> = Vec::new();
            delete_positions(input, &choices[t], &mut variant);
            found.push(variant);
            assert(views_of(found@) =~= before.push(layer[t as int]));
            assert(layer.take(t + 1) =~= layer.take(t as int).push(layer[t as int]));
            t = t + 1;
        }
        assert(layer.take(t as int) == layer);
        assert(views_of(found@) =~= string_layers(s, num_deletions as nat)) by {
            if num_deletions == 0 {
                assert(done + layer =~= layer);
            }
        }
        num_deletions = num_deletions + 1;
    }
    let ghost most: nat = (num_deletions - 1) as nat;
    let ghost written = found@;
    sort_strings(&mut found);
    proof {
        lemma_reordered_same_items(found@, written);
    }
    let ghost sorted = found@;
    let variants = dedup_strings(found);
    proof {
        assert forall|v: Seq<u8>| views_of(variants@).contains(v) <==> is_variant(
            v,
            s,
            max_deletions@,
        ) by {
            if views_of(sorted).contains(v) {
                let i = choose|i: int| 0 <= i < sorted.len() && views_of(sorted)[i] == v;
                assert(sorted.contains(sorted[i]));
                assert(written.contains(sorted[i]));
                let j = choose|j: int| 0 <= j < written.len() && written[j] == sorted[i];
                assert(views_of(written)[j] == v);
                lemma_string_layers_sound(s, most, v);
            }
            if is_variant(v, s, max_deletions@) {
                lemma_subsequence_len(v, s);
                assert(is_variant(v, s, most));
                lemma_string_layers_complete(s, most, v);
                let j = choose|j: int| 0 <= j < written.len() && views_of(written)[j] == v;
                assert(written.contains(written[j]));
                assert(sorted.contains(written[j]));
                let i = choose|i: int| 0 <= i < sorted.len() && sorted[i] == written[j];
                assert(views_of(sorted)[i] == v);
            }
        }
    }
    variants
}

} // verus!
