use std::collections::HashMap;

use vstd::prelude::*;

use crate::index::store::index_storage::{inverted_get, inverted_len, inverted_push, inverted_remove};
use crate::index::store::{lemma_postings_finite, lookup, postings_view, Store, Tier};
use crate::index::IndexError;
use crate::sketch::Sketch;

verus! {

broadcast use lemma_postings_finite;

/// A second in-memory [`Store`], laid out like `IndexStorage`, for tests
/// that want a store of their own.
pub struct MockStore<S: Sketch> {
    sketches: HashMap<u64, S>,
    inverted_t1: HashMap<u32, Vec<u64>>,
    inverted_t2: HashMap<u32, Vec<u64>>,
    inverted_t3: HashMap<u32, Vec<u64>>,
}

impl<S: Sketch> MockStore<S> {
    /// An empty storage.
    pub fn new() -> (r: Self)
        ensures
            r.sketch_map() == Map::<u64, S>::empty(),
            forall|t: Tier| #[trigger] r.inverted_map(t) == Map::<u32, Seq<u64>>::empty(),
    {
        let r = MockStore {
            sketches: HashMap::new(),
            inverted_t1: HashMap::new(),
            inverted_t2: HashMap::new(),
            inverted_t3: HashMap::new(),
        };
        assert(postings_view(r.inverted_t1) =~= Map::<u32, Seq<u64>>::empty());
        assert(postings_view(r.inverted_t2) =~= Map::<u32, Seq<u64>>::empty());
        assert(postings_view(r.inverted_t3) =~= Map::<u32, Seq<u64>>::empty());
        r
    }
}

impl<S: Sketch> Store<S> for MockStore<S> {
    closed spec fn sketch_map(&self) -> Map<u64, S> {
        self.sketches@
    }

    closed spec fn inverted_map(&self, tier: Tier) -> Map<u32, Seq<u64>> {
        match tier {
            Tier::One => postings_view(self.inverted_t1),
            Tier::Two => postings_view(self.inverted_t2),
            Tier::Three => postings_view(self.inverted_t3),
        }
    }

    fn get_sketch(&self, hash: &u64) -> (r: Result<Option<S>, IndexError>) {
        match self.sketches.get(hash) {
            Some(s) => Ok(Some(*s)),
            None => Ok(None),
        }
    }

    fn put_sketch(&mut self, hash: &u64, sketch: &S) -> (r: Result<(), IndexError>) {
        self.sketches.insert(*hash, *sketch);
        Ok(())
    }

    fn get_inverted(&self, tier: Tier, sf: u32) -> (r: Result<Vec<u64>, IndexError>) {
        let list = match tier {
            Tier::One => inverted_get(&self.inverted_t1, sf),
            Tier::Two => inverted_get(&self.inverted_t2, sf),
            Tier::Three => inverted_get(&self.inverted_t3, sf),
        };
        Ok(list)
    }

    fn put_inverted(&mut self, tier: Tier, sf: u32, hash: &u64) -> (r: Result<(), IndexError>) {
        match tier {
            Tier::One => inverted_push(&mut self.inverted_t1, sf, *hash),
            Tier::Two => inverted_push(&mut self.inverted_t2, sf, *hash),
            Tier::Three => inverted_push(&mut self.inverted_t3, sf, *hash),
        }
        Ok(())
    }

    fn remove_inverted(&mut self, tier: Tier, sf: u32, hash: &u64) -> (r: Result<(), IndexError>) {
        match tier {
            Tier::One => inverted_remove(&mut self.inverted_t1, sf, *hash),
            Tier::Two => inverted_remove(&mut self.inverted_t2, sf, *hash),
            Tier::Three => inverted_remove(&mut self.inverted_t3, sf, *hash),
        }
        Ok(())
    }

    fn len_sketches(&self) -> (r: Result<usize, IndexError>) {
        Ok(self.sketches.len())
    }

    fn len_inverted(&self, tier: Tier) -> (r: Result<usize, IndexError>) {
        let n = match tier {
            Tier::One => inverted_len(&self.inverted_t1),
            Tier::Two => inverted_len(&self.inverted_t2),
            Tier::Three => inverted_len(&self.inverted_t3),
        };
        Ok(n)
    }
}

} // verus!
