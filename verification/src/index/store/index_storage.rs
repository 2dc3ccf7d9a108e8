use std::collections::HashMap;

use vstd::prelude::*;

use crate::index::store::{
    appended, lemma_postings_finite, lookup, other_than, posting, postings_view, removed, Store, Tier,
};
use crate::index::IndexError;
use crate::sketch::Sketch;

verus! {

broadcast use lemma_postings_finite;

/// A copy of the posting list of `sf`, empty when there is none.
pub(crate) fn inverted_get(m: &HashMap<u32, Vec<u64>>, sf: u32) -> (r: Vec<u64>)
    ensures
        r@ == posting(postings_view(*m), sf),
{
    match m.get(&sf) {
        Some(list) => copy_postings(list),
        None => Vec::new(),
    }
}

/// A copy of a posting list.
pub(crate) fn copy_postings(list: &Vec<u64>) -> (r: Vec<u64>)
    ensures
        r@ == list@,
{
    let mut out: Vec<u64> = Vec::new();
    let mut i: usize = 0;
    while i < list.len()
        invariant
            0 <= i <= list.len(),
            out@ == list@.take(i as int),
        decreases list.len() - i,
    {
        out.push(list[i]);
        i = i + 1;
        assert(out@ == list@.take(i as int));
    }
    assert(list@.take(list.len() as int) == list@);
    out
}

/// Appends `hash` to the posting list of `sf`.
pub(crate) fn inverted_push(m: &mut HashMap<u32, Vec<u64>>, sf: u32, hash: u64)
    ensures
        postings_view(*final(m)) == appended(postings_view(*old(m)), sf, hash),
{
    let ghost before = postings_view(*m);
    let mut list = match m.remove(&sf) {
        Some(list) => list,
        None => Vec::new(),
    };
    assert(list@ == posting(before, sf));
    list.push(hash);
    m.insert(sf, list);
    assert(postings_view(*m) =~= appended(before, sf, hash));
}

/// Removes every occurrence of `hash` from the posting list of `sf`, if
/// `sf` has one.
pub(crate) fn inverted_remove(m: &mut HashMap<u32, Vec<u64>>, sf: u32, hash: u64)
    ensures
        postings_view(*final(m)) == removed(postings_view(*old(m)), sf, hash),
{
    let ghost before = postings_view(*m);
    match m.remove(&sf) {
        Some(list) => {
            let kept = without_hash(&list, hash);
            m.insert(sf, kept);
            assert(postings_view(*m) =~= removed(before, sf, hash));
        },
        None => {
            assert(postings_view(*m) =~= removed(before, sf, hash));
        },
    }
}

/// The hashes of `list` other than `hash`, in their order.
pub(crate) fn without_hash(list: &Vec<u64>, hash: u64) -> (r: Vec<u64>)
    ensures
        r@ == list@.filter(other_than(hash)),
{
    let ghost keep = other_than(hash);
    let mut out: Vec<u64> = Vec::new();
    let mut i: usize = 0;
    while i < list.len()
        invariant
            0 <= i <= list.len(),
            keep == other_than(hash),
            out@ == list@.take(i as int).filter(keep),
        decreases list.len() - i,
    {
        let h = list[i];
        proof {
            assert(list@.take(i + 1) == list@.take(i as int).push(h));
            list@.take(i as int).lemma_filter_push(h, keep);
        }
        if h != hash {
            out.push(h);
        }
        i = i + 1;
    }
    assert(list@.take(list.len() as int) == list@);
    out
}

/// The number of super-features that have a posting list.
pub(crate) fn inverted_len(m: &HashMap<u32, Vec<u64>>) -> (r: usize)
    ensures
        r == postings_view(*m).len(),
{
    assert(postings_view(*m).dom() =~= m@.dom());
    m.len()
}

/// An in-memory [`Store`]: a hash map of sketches and one hash map of
/// posting lists per tier.
pub struct IndexStorage<S: Sketch> {
    sketches: HashMap<u64, S>,
    inverted_t1: HashMap<u32, Vec<u64>>,
    inverted_t2: HashMap<u32, Vec<u64>>,
    inverted_t3: HashMap<u32, Vec<u64>>,
}

impl<S: Sketch> IndexStorage<S> {
    /// An empty storage.
    pub fn new() -> (r: Self)
        ensures
            r.sketch_map() == Map::<u64, S>::empty(),
            forall|t: Tier| #[trigger] r.inverted_map(t) == Map::<u32, Seq<u64>>::empty(),
    {
        let r = IndexStorage {
            sketches: HashMap::new(),
            inverted_t1: HashMap::new(),
            inverted_t2: HashMap::new(),
            inverted_t3: HashMap::new(),
        };
        assert(postings_view(r.inverted_t1) =~= Map::<u32, Seq<u64>>::empty());
        assert(postings_view(r.inverted_t2) =~= Map::<u32, Seq<u64>>::empty());
        assert(postings_view(r.inverted_t3) =~= Map::<u32, Seq<u64>>::empty());
        r
    }
}

impl<S: Sketch> Store<S> for IndexStorage<S> {
    closed spec fn sketch_map(&self) -> Map<u64, S> {
        self.sketches@
    }

    closed spec fn inverted_map(&self, tier: Tier) -> Map<u32, Seq<u64>> {
        match tier {
            Tier::One => postings_view(self.inverted_t1),
            Tier::Two => postings_view(self.inverted_t2),
            Tier::Three => postings_view(self.inverted_t3),
        }
    }

    fn get_sketch(&self, hash: &u64) -> (r: Result<Option<S>, IndexError>) {
        match self.sketches.get(hash) {
            Some(s) => Ok(Some(*s)),
            None => Ok(None),
        }
    }

    fn put_sketch(&mut self, hash: &u64, sketch: &S) -> (r: Result<(), IndexError>) {
        self.sketches.insert(*hash, *sketch);
        Ok(())
    }

    fn get_inverted(&self, tier: Tier, sf: u32) -> (r: Result<Vec<u64>, IndexError>) {
        let list = match tier {
            Tier::One => inverted_get(&self.inverted_t1, sf),
            Tier::Two => inverted_get(&self.inverted_t2, sf),
            Tier::Three => inverted_get(&self.inverted_t3, sf),
        };
        Ok(list)
    }

    fn put_inverted(&mut self, tier: Tier, sf: u32, hash: &u64) -> (r: Result<(), IndexError>) {
        match tier {
            Tier::One => inverted_push(&mut self.inverted_t1, sf, *hash),
            Tier::Two => inverted_push(&mut self.inverted_t2, sf, *hash),
            Tier::Three => inverted_push(&mut self.inverted_t3, sf, *hash),
        }
        Ok(())
    }

    fn remove_inverted(&mut self, tier: Tier, sf: u32, hash: &u64) -> (r: Result<(), IndexError>) {
        match tier {
            Tier::One => inverted_remove(&mut self.inverted_t1, sf, *hash),
            Tier::Two => inverted_remove(&mut self.inverted_t2, sf, *hash),
            Tier::Three => inverted_remove(&mut self.inverted_t3, sf, *hash),
        }
        Ok(())
    }

    fn len_sketches(&self) -> (r: Result<usize, IndexError>) {
        Ok(self.sketches.len())
    }

    fn len_inverted(&self, tier: Tier) -> (r: Result<usize, IndexError>) {
        let n = match tier {
            Tier::One => inverted_len(&self.inverted_t1),
            Tier::Two => inverted_len(&self.inverted_t2),
            Tier::Three => inverted_len(&self.inverted_t3),
        };
        Ok(n)
    }
}

} // verus!
