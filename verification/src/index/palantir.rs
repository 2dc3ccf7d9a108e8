use std::marker::PhantomData;

use vstd::prelude::*;

use crate::index::store::{appended, posting, Store, Tier};
use crate::index::IndexError;
use crate::sketch::feature::strictly_sorted;
use crate::sketch::Sketch;

verus! {

/// The tier that takes sketches of `len` elements, if any.
pub open spec fn sketch_tier(len: int) -> Option<Tier> {
    if len == 3 {
        Some(Tier::One)
    } else if len == 4 {
        Some(Tier::Two)
    } else if len == 6 {
        Some(Tier::Three)
    } else {
        None
    }
}

/// The tier that takes sketches of `len` elements: 3, 4 and 6 go to tiers
/// `One`, `Two` and `Three`; any other size is refused.
pub fn tier_for_sketch_size(len: usize) -> (r: Result<Tier, IndexError>)
    ensures
        match sketch_tier(len as int) {
            Some(t) => r == Ok::<Tier, IndexError>(t),
            None => r matches Err(IndexError::InvalidSearchOptions),
        },
{
    match len {
        3 => Ok(Tier::One),
        4 => Ok(Tier::Two),
        6 => Ok(Tier::Three),
        _ => Err(IndexError::InvalidSearchOptions),
    }
}

/// Number of times `h` occurs in `s`.
pub open spec fn occurrences(s: Seq<u64>, h: u64) -> nat
    decreases s.len(),
{
    if s.len() == 0 {
        0
    } else {
        occurrences(s.drop_last(), h) + if s.last() == h {
            1nat
        } else {
            0nat
        }
    }
}

/// How often `h` is recorded under the super-features of `q`: the sum over
/// the elements of `q` of the occurrences of `h` in their posting lists.
pub open spec fn hits(m: Map<u32, Seq<u64>>, q: Seq<u32>, h: u64) -> nat
    decreases q.len(),
{
    if q.len() == 0 {
        0
    } else {
        hits(m, q.drop_last(), h) + occurrences(posting(m, q.last()), h)
    }
}

/// Some hash is recorded under a super-feature of `q`.
pub open spec fn has_candidates(m: Map<u32, Seq<u64>>, q: Seq<u32>) -> bool {
    exists|h: u64| #[trigger] hits(m, q, h) > 0
}

/// `h` is recorded under `q` at least as often as any other hash, and at
/// least once.
pub open spec fn is_best_match(m: Map<u32, Seq<u64>>, q: Seq<u32>, h: u64) -> bool {
    &&& hits(m, q, h) > 0
    &&& forall|g: u64| #[trigger] hits(m, q, g) <= hits(m, q, h)
}

/// The hashes of a ranking, in its order.
pub open spec fn ranked_hashes(res: Seq<(u64, usize)>) -> Seq<u64> {
    res.map_values(|p: (u64, usize)| p.0)
}

/// `res` lists the `k` hashes (or all of them, when fewer) recorded most
/// often under `q`, each once and with its count, by decreasing count.
pub open spec fn is_ranking(m: Map<u32, Seq<u64>>, q: Seq<u32>, k: int, res: Seq<(u64, usize)>) -> bool {
    &&& res.len() <= k
    &&& forall|i: int| 0 <= i < res.len() ==> #[trigger] res[i].1 == hits(m, q, res[i].0)
    &&& forall|i: int| 0 <= i < res.len() ==> #[trigger] res[i].1 > 0
    &&& forall|i: int, j: int| 0 <= i < j < res.len() ==> #[trigger] res[i].0 != #[trigger] res[j].0
    &&& forall|i: int, j: int| 0 <= i < j < res.len() ==> #[trigger] res[i].1 >= #[trigger] res[j].1
    &&& forall|h: u64|
        #[trigger] hits(m, q, h) > 0 ==> ranked_hashes(res).contains(h) || (res.len() == k
            && forall|i: int| 0 <= i < res.len() ==> #[trigger] res[i].1 >= hits(m, q, h))
}

/// No hash is recorded under `q` as often as `usize::MAX` times.
pub open spec fn counts_fit(m: Map<u32, Seq<u64>>, q: Seq<u32>) -> bool {
    forall|h: u64| #[trigger] hits(m, q, h) < usize::MAX
}

/// `m` after appending `h` to the posting list of every element of `q`.
pub open spec fn with_posted(m: Map<u32, Seq<u64>>, q: Seq<u32>, h: u64) -> Map<u32, Seq<u64>> {
    Map::new(
        |sf: u32| m.contains_key(sf) || q.contains(sf),
        |sf: u32|
            if q.contains(sf) {
                posting(m, sf).push(h)
            } else {
                m[sf]
            },
    )
}

/// A sketch index over a [`Store`]: `put` records a chunk hash under each
/// super-feature of its sketch, and a query ranks the recorded hashes by
/// how many of the query's super-features they share.
pub struct PalantirIndex<S: Sketch, ST: Store<S>> {
    store: ST,
    _phantom: PhantomData<S>,
}

impl<S: Sketch, ST: Store<S>> PalantirIndex<S, ST> {
    /// The inverted index of `tier`.
    pub closed spec fn inverted(&self, tier: Tier) -> Map<u32, Seq<u64>> {
        self.store.inverted_map(tier)
    }

    /// The sketches, by chunk hash.
    pub closed spec fn sketches(&self) -> Map<u64, S> {
        self.store.sketch_map()
    }

    /// An index over `store`.
    pub fn new(store: ST) -> (r: Self)
        ensures
            r.sketches() == store.sketch_map(),
            forall|t: Tier| #[trigger] r.inverted(t) == store.inverted_map(t),
    {
        PalantirIndex { store, _phantom: PhantomData }
    }

    /// Number of sketches in the store.
    pub fn len(&self) -> (r: Result<usize, IndexError>)
        ensures
            self.sketches().dom().finite(),
            r matches Ok(n) && n == self.sketches().len(),
    {
        self.store.len_sketches()
    }

    /// Stores `key` under `value` and records `value` under every
    /// super-feature of `key`, in the tier that takes sketches of its size;
    /// a sketch size that no tier takes is refused and nothing changes.
    pub fn put(&mut self, key: &S, value: u64) -> (r: Result<(), IndexError>)
        ensures
            match sketch_tier(key.elements().len() as int) {
                None => {
                    &&& r matches Err(IndexError::InvalidSearchOptions)
                    &&& final(self).sketches() == old(self).sketches()
                    &&& forall|t: Tier| #[trigger] final(self).inverted(t) == old(self).inverted(t)
                },
                Some(tier) => {
                    &&& r is Ok
                    &&& final(self).sketches() == old(self).sketches().insert(value, *key)
                    &&& final(self).inverted(tier) == with_posted(
                        old(self).inverted(tier),
                        key.elements(),
                        value,
                    )
                    &&& forall|t: Tier|
                        t != tier ==> #[trigger] final(self).inverted(t) == old(self).inverted(t)
                },
            },
    {
        let tier = match tier_for_sketch_size(key.len()) {
            Ok(t) => t,
            Err(e) => return Err(e),
        };
        let sfs = key.iter();
        let ghost q = sfs@;
        let ghost m0 = self.store.inverted_map(tier);
        let ghost old_store = self.store;
        let mut i: usize = 0;
        while i < sfs.len()
            invariant
                0 <= i <= sfs.len(),
                q == sfs@,
                strictly_sorted(q),
                self.store.sketch_map() == old_store.sketch_map(),
                self.store.inverted_map(tier) == with_posted(m0, q.take(i as int), value),
                forall|t: Tier|
                    t != tier ==> #[trigger] self.store.inverted_map(t) == old_store.inverted_map(t),
            decreases sfs.len() - i,
        {
            let sf = sfs[i];
            match self.store.put_inverted(tier, sf, &value) {
                Ok(()) => {},
                Err(e) => return Err(e),
            }
            proof {
                lemma_with_posted_step(m0, q, i as int, value);
            }
            i = i + 1;
        }
        proof {
            assert(q.take(q.len() as int) == q);
        }
        match self.store.put_sketch(&value, key) {
            Ok(()) => {},
            Err(e) => return Err(e),
        }
        Ok(())
    }

    /// The `k` hashes recorded most often under the super-features of `key`
    /// (all of them when fewer), each with its count, by decreasing count.
    /// Hashes with equal counts come in no promised order.
    pub fn top_k(&self, key: &S, k: usize) -> (r: Result<Vec<(u64, usize)>, IndexError>)
        requires
            sketch_tier(key.elements().len() as int) matches Some(t) ==> counts_fit(
                self.inverted(t),
                key.elements(),
            ),
        ensures
            match sketch_tier(key.elements().len() as int) {
                None => r matches Err(IndexError::InvalidSearchOptions),
                Some(tier) => r matches Ok(res) && is_ranking(
                    self.inverted(tier),
                    key.elements(),
                    k as int,
                    res@,
                ),
            },
    {
        let tier = match tier_for_sketch_size(key.len()) {
            Ok(t) => t,
            Err(e) => return Err(e),
        };
        let sfs = key.iter();
        let ghost q = sfs@;
        let ghost m = self.store.inverted_map(tier);
        assert(self.inverted(tier) == m);
        assert(sketch_tier(key.elements().len() as int) == Some(tier));
        assert(counts_fit(m, q));
        let mut counts: Vec<(u64, usize)> = Vec::new();
        let mut i: usize = 0;
        while i < sfs.len()
            invariant
                0 <= i <= sfs.len(),
                q == sfs@,
                m == self.store.inverted_map(tier),
                counts_fit(m, q),
                tally_matches(counts@, |h: u64| hits(m, q.take(i as int), h)),
            decreases sfs.len() - i,
        {
            let list = match self.store.get_inverted(tier, sfs[i]) {
                Ok(list) => list,
                Err(e) => return Err(e),
            };
            let ghost before = |h: u64| hits(m, q.take(i as int), h);
            let mut j: usize = 0;
            while j < list.len()
                invariant
                    0 <= i < sfs.len(),
                    0 <= j <= list.len(),
                    q == sfs@,
                    list@ == posting(m, q[i as int]),
                    counts_fit(m, q),
                    before == (|h: u64| hits(m, q.take(i as int), h)),
                    tally_matches(
                        counts@,
                        |h: u64| before(h) + occurrences(list@.take(j as int), h),
                    ),
                decreases list.len() - j,
            {
                let h = list[j];
                proof {
                    lemma_take_occurrences(list@, j as int, h);
                    lemma_hits_prefix_bound(m, q, i as int, h);
                    lemma_occurrences_prefix_bound(list@, j + 1, h);
                }
                add_hit(
                    &mut counts,
                    h,
                    Ghost(|g: u64| before(g) + occurrences(list@.take(j as int), g)),
                    Ghost(|g: u64| before(g) + occurrences(list@.take(j + 1), g)),
                );
                j = j + 1;
            }
            proof {
                assert(list@.take(list.len() as int) == list@);
                lemma_hits_take_step(m, q, i as int);
                assert forall|h: u64|
                    #[trigger] hits(m, q.take(i + 1), h) == before(h) + occurrences(list@, h) by {
                    lemma_hits_take_step_at(m, q, i as int, h);
                }
                lemma_tally_matches_ext(
                    counts@,
                    |h: u64| before(h) + occurrences(list@.take(list.len() as int), h),
                    |h: u64| hits(m, q.take(i + 1), h),
                );
            }
            i = i + 1;
        }
        proof {
            assert(q.take(q.len() as int) == q);
        }
        let sorted = sort_by_count(&counts);
        let mut res = sorted;
        res.truncate(k);
        proof {
            lemma_truncated_ranking(m, q, counts@, sorted@, res@, k as int);
        }
        Ok(res)
    }

    /// The hash recorded most often under the super-features of `key`, or
    /// `None` when no hash is recorded under any of them.
    pub fn get(&self, key: &S) -> (r: Result<Option<u64>, IndexError>)
        requires
            sketch_tier(key.elements().len() as int) matches Some(t) ==> counts_fit(
                self.inverted(t),
                key.elements(),
            ),
        ensures
            match sketch_tier(key.elements().len() as int) {
                None => r matches Err(IndexError::InvalidSearchOptions),
                Some(tier) => match r {
                    Ok(None) => !has_candidates(self.inverted(tier), key.elements()),
                    Ok(Some(h)) => is_best_match(self.inverted(tier), key.elements(), h),
                    Err(_) => false,
                },
            },
    {
        let results = match self.top_k(key, 1) {
            Ok(v) => v,
            Err(e) => return Err(e),
        };
        let ghost tier = sketch_tier(key.elements().len() as int).unwrap();
        let ghost m = self.inverted(tier);
        let ghost q = key.elements();
        if results.len() > 0 {
            let h = results[0].0;
            proof {
                assert forall|g: u64| #[trigger] hits(m, q, g) <= hits(m, q, h) by {
                    if hits(m, q, g) > 0 && !ranked_hashes(results@).contains(g) {
                        assert(results@[0].1 >= hits(m, q, g));
                    }
                    if ranked_hashes(results@).contains(g) {
                        let t = choose|t: int| 0 <= t < results@.len() && ranked_hashes(results@)[t] == g;
                        assert(t == 0);
                    }
                }
            }
            Ok(Some(h))
        } else {
            proof {
                assert forall|g: u64| !(#[trigger] hits(m, q, g) > 0) by {
                    if hits(m, q, g) > 0 {
                        assert(!ranked_hashes(results@).contains(g));
                    }
                }
            }
            Ok(None)
        }
    }
}

/// `counts` holds each hash with a positive expected count exactly once,
/// with that count, and no other hash.
pub open spec fn tally_matches(counts: Seq<(u64, usize)>, expected: spec_fn(u64) -> nat) -> bool {
    &&& forall|i: int| 0 <= i < counts.len() ==> #[trigger] counts[i].1 == expected(counts[i].0)
    &&& forall|i: int| 0 <= i < counts.len() ==> #[trigger] counts[i].1 > 0
    &&& forall|i: int, j: int|
        0 <= i < j < counts.len() ==> #[trigger] counts[i].0 != #[trigger] counts[j].0
    &&& forall|h: u64| #[trigger] expected(h) > 0 ==> ranked_hashes(counts).contains(h)
}

proof fn lemma_tally_matches_ext(
    counts: Seq<(u64, usize)>,
    e1: spec_fn(u64) -> nat,
    e2: spec_fn(u64) -> nat,
)
    requires
        tally_matches(counts, e1),
        forall|h: u64| #[trigger] e1(h) == e2(h),
    ensures
        tally_matches(counts, e2),
{
    assert forall|h: u64| #[trigger] e2(h) > 0 implies ranked_hashes(counts).contains(h) by {
        assert(e1(h) > 0);
    }
}

/// Counts one more occurrence of `h`.
fn add_hit(
    counts: &mut Vec<(u64, usize)>,
    h: u64,
    Ghost(before): Ghost<spec_fn(u64) -> nat>,
    Ghost(after): Ghost<spec_fn(u64) -> nat>,
)
    requires
        tally_matches(old(counts)@, before),
        forall|g: u64| g != h ==> #[trigger] after(g) == before(g),
        after(h) == before(h) + 1,
        after(h) < usize::MAX,
    ensures
        tally_matches(final(counts)@, after),
{
    let mut idx: usize = 0;
    while idx < counts.len()
        invariant
            0 <= idx <= counts.len(),
            counts@ == old(counts)@,
            tally_matches(old(counts)@, before),
            forall|g: u64| g != h ==> #[trigger] after(g) == before(g),
            after(h) == before(h) + 1,
            after(h) < usize::MAX,
            forall|t: int| 0 <= t < idx ==> #[trigger] counts@[t].0 != h,
        decreases counts.len() - idx,
    {
        if counts[idx].0 == h {
            let c = counts[idx].1;
            counts.set(idx, (h, c + 1));
            proof {
                let o = old(counts)@;
                let n = counts@;
                assert forall|g: u64| #[trigger] after(g) > 0 implies ranked_hashes(n).contains(g) by {
                    if g == h {
                        assert(ranked_hashes(n)[idx as int] == h);
                    } else {
                        assert(before(g) > 0);
                        assert(ranked_hashes(o).contains(g));
                        let t = choose|t: int| 0 <= t < o.len() && ranked_hashes(o)[t] == g;
                        assert(ranked_hashes(n)[t] == g);
                    }
                }
                assert forall|i: int, j: int| 0 <= i < j < n.len() implies #[trigger] n[i].0
                    != #[trigger] n[j].0 by {
                    assert(o[i].0 != o[j].0);
                }
            }
            return;
        }
        idx = idx + 1;
    }
    proof {
        let o = old(counts)@;
        if before(h) > 0 {
            assert(ranked_hashes(o).contains(h));
            let t = choose|t: int| 0 <= t < o.len() && ranked_hashes(o)[t] == h;
            assert(o[t].0 == h);
        }
    }
    counts.push((h, 1));
    proof {
        let o = old(counts)@;
        let n = counts@;
        assert forall|g: u64| #[trigger] after(g) > 0 implies ranked_hashes(n).contains(g) by {
            if g == h {
                assert(ranked_hashes(n)[o.len() as int] == h);
            } else {
                assert(before(g) > 0);
                assert(ranked_hashes(o).contains(g));
                let t = choose|t: int| 0 <= t < o.len() && ranked_hashes(o)[t] == g;
                assert(ranked_hashes(n)[t] == g);
            }
        }
    }
}

/// The pairs of `counts`, by decreasing count; pairs with equal counts
/// keep their order.
fn sort_by_count(counts: &Vec<(u64, usize)>) -> (r: Vec<(u64, usize)>)
    ensures
        r.len() == counts.len(),
        forall|i: int, j: int| 0 <= i < j < r.len() ==> #[trigger] r@[i].1 >= #[trigger] r@[j].1,
        forall|x: (u64, usize)| #[trigger] r@.contains(x) <==> counts@.contains(x),
{
    let mut out: Vec<(u64, usize)> = Vec::new();
    let mut i: usize = 0;
    while i < counts.len()
        invariant
            0 <= i <= counts.len(),
            out.len() == i,
            forall|a: int, b: int| 0 <= a < b < out.len() ==> #[trigger] out@[a].1 >= #[trigger] out@[b].1,
            forall|x: (u64, usize)| #[trigger] out@.contains(x) <==> counts@.take(i as int).contains(x),
        decreases counts.len() - i,
    {
        let x = counts[i];
        let mut pos: usize = 0;
        while pos < out.len() && out[pos].1 >= x.1
            invariant
                0 <= pos <= out.len(),
                forall|t: int| 0 <= t < pos ==> #[trigger] out@[t].1 >= x.1,
            decreases out.len() - pos,
        {
            pos = pos + 1;
        }
        let ghost prev = out@;
        out.insert(pos, x);
        proof {
            let n = out@;
            assert(n == prev.insert(pos as int, x));
            assert forall|a: int, b: int| 0 <= a < b < n.len() implies #[trigger] n[a].1 >= #[trigger] n[b].1 by {
                if b < pos {
                    assert(n[a] == prev[a] && n[b] == prev[b]);
                } else if b == pos {
                    assert(n[a] == prev[a]);
                } else if a < pos {
                    assert(n[a] == prev[a] && n[b] == prev[b - 1]);
                    if pos < prev.len() {
                        assert(prev[pos as int].1 < x.1);
                        assert(prev[a].1 >= prev[b - 1].1);
                    }
                } else if a == pos {
                    assert(n[b] == prev[b - 1]);
                    assert(prev[pos as int].1 < x.1);
                    if b - 1 > pos {
                        assert(prev[pos as int].1 >= prev[b - 1].1);
                    }
                } else {
                    assert(n[a] == prev[a - 1] && n[b] == prev[b - 1]);
                }
            }
            assert(counts@.take(i + 1) == counts@.take(i as int).push(x));
            assert forall|y: (u64, usize)| #[trigger] n.contains(y) <==> counts@.take(i + 1).contains(y) by {
                let c1 = counts@.take(i + 1);
                let c0 = counts@.take(i as int);
                if n.contains(y) {
                    let t = choose|t: int| 0 <= t < n.len() && n[t] == y;
                    if t == pos {
                        assert(c1[i as int] == x);
                    } else {
                        if t < pos {
                            assert(prev[t] == y);
                        } else {
                            assert(prev[t - 1] == y);
                        }
                        assert(prev.contains(y));
                        assert(c0.contains(y));
                        let u = choose|u: int| 0 <= u < c0.len() && c0[u] == y;
                        assert(c1[u] == y);
                    }
                }
                if counts@.take(i + 1).contains(y) {
                    if y == x {
                        assert(n[pos as int] == x);
                    } else {
                        let c1 = counts@.take(i + 1);
                        let t = choose|t: int| 0 <= t < c1.len() && c1[t] == y;
                        assert(counts@.take(i as int)[t] == y);
                        assert(prev.contains(y));
                        let u = choose|u: int| 0 <= u < prev.len() && prev[u] == y;
                        if u < pos {
                            assert(n[u] == y);
                        } else {
                            assert(n[u + 1] == y);
                        }
                    }
                }
            }
        }
        i = i + 1;
    }
    assert(counts@.take(counts.len() as int) == counts@);
    out
}

/// The first `k` pairs of a count-sorted tally form a ranking.
proof fn lemma_truncated_ranking(
    m: Map<u32, Seq<u64>>,
    q: Seq<u32>,
    counts: Seq<(u64, usize)>,
    sorted: Seq<(u64, usize)>,
    res: Seq<(u64, usize)>,
    k: int,
)
    requires
        tally_matches(counts, |h: u64| hits(m, q, h)),
        sorted.len() == counts.len(),
        forall|i: int, j: int| 0 <= i < j < sorted.len() ==> #[trigger] sorted[i].1 >= #[trigger] sorted[j].1,
        forall|x: (u64, usize)| #[trigger] sorted.contains(x) <==> counts.contains(x),
        k >= 0,
        k <= sorted.len() ==> res == sorted.subrange(0, k),
        k > sorted.len() ==> res == sorted,
    ensures
        is_ranking(m, q, k, res),
{
    let e = |h: u64| hits(m, q, h);
    // Every pair of `sorted` is a pair of `counts`.
    assert forall|i: int| 0 <= i < sorted.len() implies #[trigger] sorted[i].1 == hits(m, q, sorted[i].0)
        && sorted[i].1 > 0 by {
        assert(sorted.contains(sorted[i]));
        let t = choose|t: int| 0 <= t < counts.len() && counts[t] == sorted[i];
        assert(counts[t].1 == e(counts[t].0));
    }
    // `sorted` repeats no hash: two equal hashes would be one pair of `counts`
    // seen twice, and `counts` has as many pairs as `sorted`.
    assert forall|i: int, j: int| 0 <= i < j < sorted.len() implies #[trigger] sorted[i].0
        != #[trigger] sorted[j].0 by {
        if sorted[i].0 == sorted[j].0 {
            assert(sorted[i].1 == hits(m, q, sorted[i].0));
            assert(sorted[j].1 == hits(m, q, sorted[j].0));
            assert(sorted[i] == sorted[j]);
            lemma_distinct_pairs_injective(counts, sorted, i, j);
        }
    }
    assert forall|h: u64| #[trigger] hits(m, q, h) > 0 implies ranked_hashes(res).contains(h) || (
    res.len() == k && forall|i: int| 0 <= i < res.len() ==> #[trigger] res[i].1 >= hits(m, q, h)) by {
        assert(e(h) > 0);
        assert(ranked_hashes(counts).contains(h));
        let t = choose|t: int| 0 <= t < counts.len() && ranked_hashes(counts)[t] == h;
        assert(counts.contains(counts[t]));
        assert(sorted.contains(counts[t]));
        let p = choose|p: int| 0 <= p < sorted.len() && sorted[p] == counts[t];
        assert(counts[t].1 == e(h));
        if p < res.len() {
            assert(res[p] == sorted[p]);
            assert(ranked_hashes(res)[p] == h);
        } else {
            assert(res.len() == k);
            assert forall|i: int| 0 <= i < res.len() implies #[trigger] res[i].1 >= hits(m, q, h) by {
                assert(res[i] == sorted[i]);
                assert(sorted[i].1 >= sorted[p].1);
            }
        }
    }
    assert forall|i: int| 0 <= i < res.len() implies #[trigger] res[i].1 == hits(m, q, res[i].0) by {
        assert(res[i] == sorted[i]);
    }
    assert forall|i: int| 0 <= i < res.len() implies #[trigger] res[i].1 > 0 by {
        assert(res[i] == sorted[i]);
    }
    assert forall|i: int, j: int| 0 <= i < j < res.len() implies #[trigger] res[i].0 != #[trigger] res[j].0 by {
        assert(res[i] == sorted[i] && res[j] == sorted[j]);
    }
    assert forall|i: int, j: int| 0 <= i < j < res.len() implies #[trigger] res[i].1 >= #[trigger] res[j].1 by {
        assert(res[i] == sorted[i] && res[j] == sorted[j]);
    }
}

/// A sequence of distinct pairs with as many elements as `counts`, all of
/// them in `counts`, holds no pair twice.
proof fn lemma_distinct_pairs_injective(
    counts: Seq<(u64, usize)>,
    sorted: Seq<(u64, usize)>,
    i: int,
    j: int,
)
    requires
        forall|a: int, b: int| 0 <= a < b < counts.len() ==> #[trigger] counts[a].0 != #[trigger] counts[b].0,
        sorted.len() == counts.len(),
        forall|x: (u64, usize)| #[trigger] sorted.contains(x) <==> counts.contains(x),
        0 <= i < j < sorted.len(),
    ensures
        sorted[i] != sorted[j],
{
    if sorted[i] == sorted[j] {
    // `counts` has no duplicates, so as a set it has `counts.len()`
    // elements; `sorted` has a duplicate, so as a set it has fewer; yet the
    // two sets are equal.
    assert(counts.no_duplicates()) by {
        assert forall|a: int, b: int| 0 <= a < counts.len() && 0 <= b < counts.len() && a != b implies counts[a]
            != counts[b] by {
            if a < b {
                assert(counts[a].0 != counts[b].0);
            } else {
                assert(counts[b].0 != counts[a].0);
            }
        }
    }
    counts.unique_seq_to_set();
    assert(sorted.to_set() =~= counts.to_set());
    sorted.lemma_cardinality_of_set();
    let smaller = sorted.remove(j);
    assert(smaller.to_set() =~= sorted.to_set()) by {
        assert forall|x: (u64, usize)| sorted.to_set().contains(x) implies smaller.to_set().contains(x) by {
            let t = choose|t: int| 0 <= t < sorted.len() && sorted[t] == x;
            if t < j {
                assert(smaller[t] == x);
            } else if t == j {
                assert(smaller[i] == x);
            } else {
                assert(smaller[t - 1] == x);
            }
        }
        assert forall|x: (u64, usize)| smaller.to_set().contains(x) implies sorted.to_set().contains(x) by {
            let t = choose|t: int| 0 <= t < smaller.len() && smaller[t] == x;
            if t < j {
                assert(sorted[t] == x);
            } else {
                assert(sorted[t + 1] == x);
            }
        }
    }
    smaller.lemma_cardinality_of_set();
    }
}

/// Adding one more element of a posting list adds its occurrence.
proof fn lemma_take_occurrences(s: Seq<u64>, j: int, h: u64)
    requires
        0 <= j < s.len(),
    ensures
        forall|g: u64| #[trigger] occurrences(s.take(j + 1), g) == occurrences(s.take(j), g) + if s[j] == g {
            1nat
        } else {
            0nat
        },
{
    assert forall|g: u64| #[trigger] occurrences(s.take(j + 1), g) == occurrences(s.take(j), g) + if s[j] == g {
        1nat
    } else {
        0nat
    } by {
        assert(s.take(j + 1).drop_last() == s.take(j));
    }
}

/// A prefix holds no more occurrences than the whole sequence.
proof fn lemma_occurrences_prefix_bound(s: Seq<u64>, j: int, h: u64)
    requires
        0 <= j <= s.len(),
    ensures
        occurrences(s.take(j), h) <= occurrences(s, h),
    decreases s.len() - j,
{
    if j < s.len() {
        lemma_occurrences_prefix_bound(s, j + 1, h);
        assert(s.take(j + 1).drop_last() == s.take(j));
    } else {
        assert(s.take(j) == s);
    }
}

/// The hits of the first `i` super-features, plus those of the next one,
/// are the hits of the first `i + 1`.
proof fn lemma_hits_take_step_at(m: Map<u32, Seq<u64>>, q: Seq<u32>, i: int, h: u64)
    requires
        0 <= i < q.len(),
    ensures
        hits(m, q.take(i + 1), h) == hits(m, q.take(i), h) + occurrences(posting(m, q[i]), h),
{
    assert(q.take(i + 1).drop_last() == q.take(i));
}

proof fn lemma_hits_take_step(m: Map<u32, Seq<u64>>, q: Seq<u32>, i: int)
    requires
        0 <= i < q.len(),
    ensures
        forall|h: u64| #[trigger] hits(m, q.take(i + 1), h) == hits(m, q.take(i), h) + occurrences(
            posting(m, q[i]),
            h,
        ),
{
    assert forall|h: u64| #[trigger] hits(m, q.take(i + 1), h) == hits(m, q.take(i), h) + occurrences(
        posting(m, q[i]),
        h,
    ) by {
        lemma_hits_take_step_at(m, q, i, h);
    }
}

/// The hits of a prefix plus the occurrences in the next posting list are
/// at most the hits of the whole query.
proof fn lemma_hits_prefix_bound(m: Map<u32, Seq<u64>>, q: Seq<u32>, i: int, h: u64)
    requires
        0 <= i < q.len(),
    ensures
        hits(m, q.take(i), h) + occurrences(posting(m, q[i]), h) <= hits(m, q, h),
    decreases q.len() - i,
{
    lemma_hits_take_step_at(m, q, i, h);
    lemma_hits_prefix_monotone(m, q, i + 1, h);
}

proof fn lemma_hits_prefix_monotone(m: Map<u32, Seq<u64>>, q: Seq<u32>, i: int, h: u64)
    requires
        0 <= i <= q.len(),
    ensures
        hits(m, q.take(i), h) <= hits(m, q, h),
    decreases q.len() - i,
{
    if i < q.len() {
        lemma_hits_take_step_at(m, q, i, h);
        lemma_hits_prefix_monotone(m, q, i + 1, h);
    } else {
        assert(q.take(i) == q);
    }
}

/// Posting to one more element of a duplicate-free query extends
/// `with_posted` by one append.
proof fn lemma_with_posted_step(m: Map<u32, Seq<u64>>, q: Seq<u32>, i: int, h: u64)
    requires
        0 <= i < q.len(),
        strictly_sorted(q),
    ensures
        appended(with_posted(m, q.take(i), h), q[i], h) == with_posted(m, q.take(i + 1), h),
{
    let a = appended(with_posted(m, q.take(i), h), q[i], h);
    let b = with_posted(m, q.take(i + 1), h);
    assert(!q.take(i).contains(q[i])) by {
        if q.take(i).contains(q[i]) {
            let t = choose|t: int| 0 <= t < i && q.take(i)[t] == q[i];
            assert(q[t] < q[i]);
        }
    }
    let t1 = q.take(i + 1);
    let t0 = q.take(i);
    assert forall|sf: u32| #[trigger] t1.contains(sf) <==> (t0.contains(sf) || sf == q[i]) by {
        if t1.contains(sf) {
            let t = choose|t: int| 0 <= t < t1.len() && t1[t] == sf;
            if t < i {
                assert(t0[t] == sf);
            }
        }
        if t0.contains(sf) {
            let t = choose|t: int| 0 <= t < t0.len() && t0[t] == sf;
            assert(t1[t] == sf);
        }
        if sf == q[i] {
            assert(t1[i] == sf);
        }
    }
    assert(a =~= b);
}

/// Hits under `q` depend only on the posting lists of the elements of `q`.
proof fn lemma_hits_local(m1: Map<u32, Seq<u64>>, m2: Map<u32, Seq<u64>>, q: Seq<u32>, g: u64)
    requires
        forall|sf: u32| q.contains(sf) ==> posting(m1, sf) == posting(m2, sf),
    ensures
        hits(m1, q, g) == hits(m2, q, g),
    decreases q.len(),
{
    if q.len() > 0 {
        let q1 = q.drop_last();
        assert forall|sf: u32| q1.contains(sf) implies posting(m1, sf) == posting(m2, sf) by {
            let t = choose|t: int| 0 <= t < q1.len() && q1[t] == sf;
            assert(q[t] == sf);
        }
        lemma_hits_local(m1, m2, q1, g);
        assert(q.contains(q.last())) by {
            assert(q[q.len() - 1] == q.last());
        }
    }
}

/// Appending `x` to a sequence adds one occurrence of `x`.
pub proof fn lemma_occurrences_push(s: Seq<u64>, x: u64, g: u64)
    ensures
        occurrences(s.push(x), g) == occurrences(s, g) + if x == g {
            1nat
        } else {
            0nat
        },
{
    assert(s.push(x).drop_last() == s);
}

/// Recording `h` under every element of a query that holds no value twice
/// makes `h` hit that query once more per element, and leaves the hits of
/// every other hash unchanged.
pub proof fn lemma_hits_after_post(m: Map<u32, Seq<u64>>, q: Seq<u32>, h: u64, g: u64)
    requires
        q.no_duplicates(),
    ensures
        hits(with_posted(m, q, h), q, g) == hits(m, q, g) + if g == h {
            q.len()
        } else {
            0
        },
    decreases q.len(),
{
    if q.len() > 0 {
        let q1 = q.drop_last();
        let x = q.last();
        assert(q1.no_duplicates());
        lemma_hits_after_post(m, q1, h, g);
        let big = with_posted(m, q, h);
        let small = with_posted(m, q1, h);
        assert forall|sf: u32| q1.contains(sf) implies posting(big, sf) == posting(small, sf) by {
            let t = choose|t: int| 0 <= t < q1.len() && q1[t] == sf;
            assert(q[t] == sf);
            assert(q.contains(sf));
        }
        lemma_hits_local(big, small, q1, g);
        assert(q.contains(x)) by {
            assert(q[q.len() - 1] == x);
        }
        assert(posting(big, x) == posting(m, x).push(h));
        lemma_occurrences_push(posting(m, x), h, g);
    }
}

/// After recording `h` under a query, some hash hits the query: what is
/// put can be found again.
pub proof fn lemma_put_then_candidates(m: Map<u32, Seq<u64>>, q: Seq<u32>, h: u64)
    requires
        q.no_duplicates(),
        q.len() > 0,
    ensures
        hits(with_posted(m, q, h), q, h) >= q.len(),
        has_candidates(with_posted(m, q, h), q),
{
    lemma_hits_after_post(m, q, h, h);
}

/// In an empty index, after recording `h` under a query, `h` is the one
/// best match of that query.
pub proof fn lemma_put_then_get_fresh(q: Seq<u32>, h: u64, g: u64)
    requires
        q.no_duplicates(),
        q.len() > 0,
    ensures
        is_best_match(with_posted(Map::empty(), q, h), q, h),
        is_best_match(with_posted(Map::empty(), q, h), q, g) ==> g == h,
{
    let m = Map::<u32, Seq<u64>>::empty();
    lemma_hits_empty(m, q, h);
    lemma_hits_after_post(m, q, h, h);
    assert forall|x: u64| #[trigger] hits(with_posted(m, q, h), q, x) <= hits(with_posted(m, q, h), q, h) by {
        lemma_hits_empty(m, q, x);
        lemma_hits_after_post(m, q, h, x);
    }
    if g != h {
        lemma_hits_empty(m, q, g);
        lemma_hits_after_post(m, q, h, g);
    }
}

proof fn lemma_hits_empty(m: Map<u32, Seq<u64>>, q: Seq<u32>, g: u64)
    requires
        m == Map::<u32, Seq<u64>>::empty(),
    ensures
        hits(m, q, g) == 0,
    decreases q.len(),
{
    if q.len() > 0 {
        lemma_hits_empty(m, q.drop_last(), g);
        assert(posting(m, q.last()) == Seq::<u64>::empty());
    }
}

} // verus!
