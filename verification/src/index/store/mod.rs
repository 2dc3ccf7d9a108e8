//! Storage for the index: chunk hash → sketch, and per tier an inverted
//! index super-feature → posting list of chunk hashes.

use std::collections::HashMap;

use vstd::prelude::*;

use crate::index::IndexError;
use crate::sketch::Sketch;

pub mod index_storage;
pub mod mock_store;

verus! {

/// Super-feature tiers. A sketch of 3, 4 or 6 elements goes to tier
/// `One`, `Two` or `Three` respectively.
#[derive(Debug, Clone, Copy, PartialEq, Eq, Hash, Structural)]
pub enum Tier {
    One,
    Two,
    Three,
}

/// The posting list of `sf` in `m`: the hashes recorded under it, oldest
/// first; empty when `sf` was never recorded.
pub open spec fn posting(m: Map<u32, Seq<u64>>, sf: u32) -> Seq<u64> {
    if m.contains_key(sf) {
        m[sf]
    } else {
        Seq::empty()
    }
}

/// `m` after appending `hash` to the posting list of `sf`.
pub open spec fn appended(m: Map<u32, Seq<u64>>, sf: u32, hash: u64) -> Map<u32, Seq<u64>> {
    m.insert(sf, posting(m, sf).push(hash))
}

/// Whether a hash differs from `hash`.
pub open spec fn other_than(hash: u64) -> spec_fn(u64) -> bool {
    |h: u64| h != hash
}

/// `m` after removing every occurrence of `hash` from the posting list of
/// `sf`; a super-feature without a list keeps none.
pub open spec fn removed(m: Map<u32, Seq<u64>>, sf: u32, hash: u64) -> Map<u32, Seq<u64>> {
    if m.contains_key(sf) {
        m.insert(sf, m[sf].filter(other_than(hash)))
    } else {
        m
    }
}

/// The value stored under `key`, if any.
pub open spec fn lookup<V>(m: Map<u64, V>, key: u64) -> Option<V> {
    if m.contains_key(key) {
        Some(m[key])
    } else {
        None
    }
}

/// The posting lists of an inverted index, as sequences.
pub open spec fn postings_view(m: HashMap<u32, Vec<u64>>) -> Map<u32, Seq<u64>> {
    m@.map_values(|v: Vec<u64>| v@)
}

/// A map of posting lists holds finitely many lists.
pub broadcast proof fn lemma_postings_finite(m: HashMap<u32, Vec<u64>>)
    ensures
        #[trigger] postings_view(m).dom().finite(),
{
    assert(postings_view(m).dom() =~= m@.dom());
}

/// Storage of sketches and of the per-tier inverted index.
///
/// The abstract state is the map chunk hash → sketch (`sketch_map`) and,
/// for each tier, the map super-feature → posting list (`inverted_map`).
pub trait Store<S: Sketch> {
    /// The sketches, by chunk hash.
    spec fn sketch_map(&self) -> Map<u64, S>;

    /// The inverted index of `tier`.
    spec fn inverted_map(&self, tier: Tier) -> Map<u32, Seq<u64>>;

    /// Returns the sketch stored under `hash`, if any.
    fn get_sketch(&self, hash: &u64) -> (r: Result<Option<S>, IndexError>)
        ensures
            self.sketch_map().dom().finite(),
            forall|t: Tier| #[trigger] self.inverted_map(t).dom().finite(),
            r matches Ok(found) && found == lookup(self.sketch_map(), *hash),
    ;

    /// Stores `sketch` under `hash`, replacing any earlier one.
    fn put_sketch(&mut self, hash: &u64, sketch: &S) -> (r: Result<(), IndexError>)
        ensures
            old(self).sketch_map().dom().finite(),
            forall|t: Tier| #[trigger] old(self).inverted_map(t).dom().finite(),
            final(self).sketch_map().dom().finite(),
            forall|t: Tier| #[trigger] final(self).inverted_map(t).dom().finite(),
            r is Ok,
            final(self).sketch_map() == old(self).sketch_map().insert(*hash, *sketch),
            forall|t: Tier| #[trigger] final(self).inverted_map(t) == old(self).inverted_map(t),
    ;

    /// Returns the posting list of `sf` in `tier`.
    fn get_inverted(&self, tier: Tier, sf: u32) -> (r: Result<Vec<u64>, IndexError>)
        ensures
            self.sketch_map().dom().finite(),
            forall|t: Tier| #[trigger] self.inverted_map(t).dom().finite(),
            r matches Ok(v) && v@ == posting(self.inverted_map(tier), sf),
    ;

    /// Appends `hash` to the posting list of `sf` in `tier`.
    fn put_inverted(&mut self, tier: Tier, sf: u32, hash: &u64) -> (r: Result<(), IndexError>)
        ensures
            old(self).sketch_map().dom().finite(),
            forall|t: Tier| #[trigger] old(self).inverted_map(t).dom().finite(),
            final(self).sketch_map().dom().finite(),
            forall|t: Tier| #[trigger] final(self).inverted_map(t).dom().finite(),
            r is Ok,
            final(self).sketch_map() == old(self).sketch_map(),
            final(self).inverted_map(tier) == appended(old(self).inverted_map(tier), sf, *hash),
            forall|t: Tier|
                t != tier ==> #[trigger] final(self).inverted_map(t) == old(self).inverted_map(t),
    ;

    /// Removes every occurrence of `hash` from the posting list of `sf` in
    /// `tier`.
    fn remove_inverted(&mut self, tier: Tier, sf: u32, hash: &u64) -> (r: Result<(), IndexError>)
        ensures
            old(self).sketch_map().dom().finite(),
            forall|t: Tier| #[trigger] old(self).inverted_map(t).dom().finite(),
            final(self).sketch_map().dom().finite(),
            forall|t: Tier| #[trigger] final(self).inverted_map(t).dom().finite(),
            r is Ok,
            final(self).sketch_map() == old(self).sketch_map(),
            final(self).inverted_map(tier) == removed(old(self).inverted_map(tier), sf, *hash),
            forall|t: Tier|
                t != tier ==> #[trigger] final(self).inverted_map(t) == old(self).inverted_map(t),
    ;

    /// Number of sketches stored.
    fn len_sketches(&self) -> (r: Result<usize, IndexError>)
        ensures
            self.sketch_map().dom().finite(),
            forall|t: Tier| #[trigger] self.inverted_map(t).dom().finite(),
            r matches Ok(n) && n == self.sketch_map().len(),
    ;

    /// Number of distinct super-features in the inverted index of `tier`.
    fn len_inverted(&self, tier: Tier) -> (r: Result<usize, IndexError>)
        ensures
            self.sketch_map().dom().finite(),
            forall|t: Tier| #[trigger] self.inverted_map(t).dom().finite(),
            r matches Ok(n) && n == self.inverted_map(tier).len(),
    ;
}

/// Reading back a sketch gives the one last stored under that hash, and
/// other hashes keep theirs.
pub proof fn lemma_sketch_read_after_write<S>(m: Map<u64, S>, hash: u64, sketch: S, other: u64)
    ensures
        lookup(m.insert(hash, sketch), hash) == Some(sketch),
        other != hash ==> lookup(m.insert(hash, sketch), other) == lookup(m, other),
{
}

/// Storing a sketch under a new hash adds one to the count; storing it
/// under a known hash leaves the count unchanged.
pub proof fn lemma_sketch_count_after_write<S>(m: Map<u64, S>, hash: u64, sketch: S)
    requires
        m.dom().finite(),
    ensures
        m.contains_key(hash) ==> m.insert(hash, sketch).len() == m.len(),
        !m.contains_key(hash) ==> m.insert(hash, sketch).len() == m.len() + 1,
{
}

/// Appending to a posting list puts the hash at its end and leaves the
/// other posting lists alone.
pub proof fn lemma_posting_after_append(m: Map<u32, Seq<u64>>, sf: u32, hash: u64, other: u32)
    ensures
        posting(appended(m, sf, hash), sf) == posting(m, sf).push(hash),
        other != sf ==> posting(appended(m, sf, hash), other) == posting(m, other),
{
}

/// Removing a hash from a posting list keeps the other hashes in order,
/// and leaves the other posting lists alone.
pub proof fn lemma_posting_after_remove(m: Map<u32, Seq<u64>>, sf: u32, hash: u64, other: u32)
    ensures
        posting(removed(m, sf, hash), sf) == posting(m, sf).filter(other_than(hash)),
        !posting(removed(m, sf, hash), sf).contains(hash),
        other != sf ==> posting(removed(m, sf, hash), other) == posting(m, other),
{
    let p = posting(m, sf).filter(other_than(hash));
    if !m.contains_key(sf) {
        assert(posting(m, sf).filter(other_than(hash)) == Seq::<u64>::empty());
    }
    if p.contains(hash) {
        let i = choose|i: int| 0 <= i < p.len() && p[i] == hash;
        posting(m, sf).lemma_filter_pred(other_than(hash), i);
    }
}

/// Appending a posting list counts its super-feature once more, unless it
/// already had one.
pub proof fn lemma_inverted_count_after_append(m: Map<u32, Seq<u64>>, sf: u32, hash: u64)
    requires
        m.dom().finite(),
    ensures
        m.contains_key(sf) ==> appended(m, sf, hash).len() == m.len(),
        !m.contains_key(sf) ==> appended(m, sf, hash).len() == m.len() + 1,
{
}

} // verus!
