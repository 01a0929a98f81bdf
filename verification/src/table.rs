//! The table from variant digest to convergence group that a cached reference
//! keeps.

use vstd::prelude::*;
use std::hash::{BuildHasher, Hasher};
use crate::span::Span;

verus! {

/// A hasher for keys that are digests already: the hash of a `u64` is the
/// `u64` itself.
struct IdentityHasher(u64);

impl IdentityHasher {
    /// The key that the hasher has taken last, zero before the first.
    pub closed spec fn taken(self) -> u64 {
        self.0
    }
}

impl Hasher for IdentityHasher {
    /// Only whole `u64` keys are hashed with this hasher; other bytes leave
    /// its state as it is.
    fn write(&mut self, _bytes: &[u8]) {
    }

    /// Takes the key as the hash.
    fn write_u64(&mut self, i: u64)
        ensures
            final(self).taken() == i,
    {
        self.0 = i;
    }

    /// The key that was taken.
    fn finish(&self) -> (hash: u64)
        ensures
            hash == self.taken(),
    {
        self.0
    }
}

/// Builds `IdentityHasher`s.
struct IdentityHasherBuilder;

impl BuildHasher for IdentityHasherBuilder {
    type Hasher = IdentityHasher;

    /// A hasher that has taken no key yet.
    fn build_hasher(&self) -> (hasher: IdentityHasher)
        ensures
            hasher.taken() == 0,
    {
        IdentityHasher(0)
    }
}

/// A `hashbrown::HashMap` from variant digest to the span of its convergence
/// group, hashed by identity.
#[verifier::external_body]
pub struct VariantTable {
    map: hashbrown::HashMap<u64, Span, IdentityHasherBuilder>,
}

/// What a table holds: the span stored under each digest.
pub uninterp spec fn table_entries(table: VariantTable) -> Map<u64, Span>;

/// Calls `HashMap::with_hasher`: a map with nothing in it.
#[verifier::external_body]
pub(crate) fn table_new() -> (table: VariantTable)
    ensures
        table_entries(table) =~= Map::empty(),
{
    VariantTable { map: hashbrown::HashMap::with_hasher(IdentityHasherBuilder) }
}

/// Calls `HashMap::entry` and `Entry::insert`, which sets the value under
/// the key whether or not the key was there, and leaves the other keys alone.
#[verifier::external_body]
pub(crate) fn table_insert(table: &mut VariantTable, digest: u64, span: Span)
    ensures
        table_entries(*final(table)) == table_entries(*old(table)).insert(digest, span),
{
    table.map.entry(digest).insert(span);
}

/// Calls `HashMap::get`: the value under the key, if the key is there.
#[verifier::external_body]
pub(crate) fn table_get(table: &VariantTable, digest: u64) -> (found: Option<Span>)
    ensures
        table_entries(*table).contains_key(digest) ==> found == Some(table_entries(*table)[digest]),
        !table_entries(*table).contains_key(digest) ==> found.is_none(),
{
    table.map.get(&digest).copied()
}

/// Calls `HashMap::len`: the number of keys.
#[verifier::external_body]
pub(crate) fn table_len(table: &VariantTable) -> (n: usize)
    ensures
        n == table_entries(*table).dom().len(),
{
    table.map.len()
}

/// Calls `HashMap::iter` and collects what it yields: every key once with its
/// value, in an order that the map does not promise.
#[verifier::external_body]
pub(crate) fn table_items(table: &VariantTable) -> (items: Vec<(u64, Span)>)
    ensures
        forall|i: int, j: int| 0 <= i < j < items.len() ==> items[i].0 != items[j].0,
        forall|i: int|
            0 <= i < items.len() ==> table_entries(*table).contains_pair(
                (#[trigger] items[i]).0,
                items[i].1,
            ),
        forall|digest: u64|
            table_entries(*table).contains_key(digest) ==> items@.contains(
                (digest, table_entries(*table)[digest]),
            ),
{
    table.map.iter().map(|(digest, span)| (*digest, *span)).collect()
}

} // verus!
