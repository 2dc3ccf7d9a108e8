//! The three-tier similarity index of the Palantir scrubber.

use std::collections::HashMap;

use vstd::prelude::*;

use crate::index::palantir::{
    counts_fit, has_candidates, hits, is_best_match, occurrences, sketch_tier, with_posted, PalantirIndex,
};
use crate::index::store::posting;
use crate::index::store::index_storage::IndexStorage;
use crate::index::store::Tier;
use crate::palantir::encoder::PalantirEncoder;
use crate::palantir::types::{Chunk, SuperFeature, SuperFeatureGenerator};
use crate::sketch::feature::{has_duplicate, same_elements, strictly_sorted};
use crate::sketch::{FixedSketch, Sketch};

verus! {

/// Whether a super-feature belongs to tier `tier`.
pub open spec fn in_tier(tier: u8) -> spec_fn(SuperFeature) -> bool {
    |sf: SuperFeature| sf@.0 == tier
}

/// The value of a super-feature.
pub open spec fn feature_value() -> spec_fn(SuperFeature) -> u32 {
    |sf: SuperFeature| sf@.1
}

/// The values of the super-features of tier `tier`, in their order.
pub open spec fn tier_values(sfs: Seq<SuperFeature>, tier: u8) -> Seq<u32> {
    sfs.filter(in_tier(tier)).map_values(feature_value())
}

/// The sketch size of level `level` (0, 1 or 2) of the index.
pub open spec fn level_size(level: int) -> int {
    if level == 0 {
        3
    } else if level == 1 {
        4
    } else {
        6
    }
}

/// The store tier of level `level` of the index.
pub open spec fn level_tier(level: int) -> Tier {
    if level == 0 {
        Tier::One
    } else if level == 1 {
        Tier::Two
    } else {
        Tier::Three
    }
}

/// `sfs` holds exactly 3, 4 and 6 distinct values in tiers 0, 1 and 2.
pub open spec fn splittable(sfs: Seq<SuperFeature>) -> bool {
    forall|level: int|
        0 <= level < 3 ==> {
            &&& #[trigger] tier_values(sfs, level as u8).len() == level_size(level)
            &&& !has_duplicate(tier_values(sfs, level as u8))
        }
}

/// `q` is the ascending arrangement of the distinct values `vals`.
pub open spec fn arranged(q: Seq<u32>, vals: Seq<u32>) -> bool {
    strictly_sorted(q) && same_elements(q, vals)
}

/// What a search of the levels with the queries `q0`, `q1`, `q2` answers:
/// the best match of the first level that has a candidate, or `None` when
/// none has.
pub open spec fn search_outcome(
    m0: Map<u32, Seq<u64>>,
    m1: Map<u32, Seq<u64>>,
    m2: Map<u32, Seq<u64>>,
    q0: Seq<u32>,
    q1: Seq<u32>,
    q2: Seq<u32>,
    r: Option<u64>,
) -> bool {
    match r {
        None => !has_candidates(m0, q0) && !has_candidates(m1, q1) && !has_candidates(m2, q2),
        Some(h) => if has_candidates(m0, q0) {
            is_best_match(m0, q0, h)
        } else if has_candidates(m1, q1) {
            is_best_match(m1, q1, h)
        } else {
            has_candidates(m2, q2) && is_best_match(m2, q2, h)
        },
    }
}

/// A three-level similarity index: level 0 takes sketches of 3 tier-0
/// super-features, level 1 of 4 tier-1 ones and level 2 of 6 tier-2 ones.
/// Lookups probe the coarsest level first.
pub struct Index {
    tier1: PalantirIndex<FixedSketch<3>, IndexStorage<FixedSketch<3>>>,
    tier2: PalantirIndex<FixedSketch<4>, IndexStorage<FixedSketch<4>>>,
    tier3: PalantirIndex<FixedSketch<6>, IndexStorage<FixedSketch<6>>>,
    inserted: usize,
}

/// The most insertions an [`Index`] takes: the most for which a search,
/// which counts a chunk hash at most six times per insertion, cannot count
/// one `usize::MAX` times.
pub const MAX_INDEXED: usize = (usize::MAX - 1) / 6;

/// No posting list of `m` is longer than `n`.
pub open spec fn postings_bounded(m: Map<u32, Seq<u64>>, n: int) -> bool {
    forall|sf: u32| #[trigger] posting(m, sf).len() <= n
}

impl Index {
    /// The inverted index of store tier `t` at level `level`.
    pub closed spec fn inverted(&self, level: int, t: Tier) -> Map<u32, Seq<u64>> {
        if level == 0 {
            self.tier1.inverted(t)
        } else if level == 1 {
            self.tier2.inverted(t)
        } else {
            self.tier3.inverted(t)
        }
    }

    /// The posting lists that level `level` searches.
    pub open spec fn level_map(&self, level: int) -> Map<u32, Seq<u64>> {
        self.inverted(level, level_tier(level))
    }

    /// `r` is what a search with `sfs` answers: `None` when `sfs` does not
    /// split into the three sketches, else the outcome of probing the levels
    /// with the ascending arrangements of the tier values.
    pub open spec fn search_answers(&self, sfs: Seq<SuperFeature>, r: Option<u64>) -> bool {
        &&& !splittable(sfs) ==> r is None
        &&& forall|q0: Seq<u32>, q1: Seq<u32>, q2: Seq<u32>|
            splittable(sfs) && #[trigger] arranged(q0, tier_values(sfs, 0)) && #[trigger] arranged(
                q1,
                tier_values(sfs, 1),
            ) && #[trigger] arranged(q2, tier_values(sfs, 2)) ==> search_outcome(
                self.level_map(0),
                self.level_map(1),
                self.level_map(2),
                q0,
                q1,
                q2,
                r,
            )
    }

    /// The number of insertions made.
    pub closed spec fn count(&self) -> usize {
        self.inserted
    }

    /// The index's internal invariant: it has taken at most
    /// [`MAX_INDEXED`] insertions, and no posting list that a search reads
    /// is longer than that number.
    pub closed spec fn wf(&self) -> bool {
        &&& self.inserted <= MAX_INDEXED
        &&& forall|level: int| 0 <= level < 3 ==> postings_bounded(#[trigger] self.level_map(level), self.inserted as int)
    }

    /// The number of insertions made.
    pub fn insert_count(&self) -> (r: usize)
        ensures
            r == self.count(),
    {
        self.inserted
    }

    /// An empty index.
    pub fn new() -> (r: Self)
        ensures
            r.wf(),
            r.count() == 0,
            forall|level: int, t: Tier| #[trigger] r.inverted(level, t) == Map::<u32, Seq<u64>>::empty(),
    {
        let tier1_storage = IndexStorage::new();
        let tier1 = PalantirIndex::new(tier1_storage);
        let tier2_storage = IndexStorage::new();
        let tier2 = PalantirIndex::new(tier2_storage);
        let tier3_storage = IndexStorage::new();
        let tier3 = PalantirIndex::new(tier3_storage);
        let r = Index { tier1, tier2, tier3, inserted: 0 };
        proof {
            assert forall|level: int| 0 <= level < 3 implies postings_bounded(#[trigger] r.level_map(level), 0) by {
                assert forall|sf: u32| #[trigger] posting(r.level_map(level), sf).len() <= 0 by {
                    assert(r.level_map(level) == Map::<u32, Seq<u64>>::empty());
                }
            }
        }
        r
    }

    /// The values of the super-features of `sfs` in tier `tier`.
    fn collect_tier(sfs: &[SuperFeature], tier: u8) -> (r: Vec<u32>)
        ensures
            r@ == tier_values(sfs@, tier),
    {
        let mut out: Vec<u32> = Vec::new();
        let mut i: usize = 0;
        while i < sfs.len()
            invariant
                0 <= i <= sfs.len(),
                out@ == sfs@.take(i as int).filter(in_tier(tier)).map_values(feature_value()),
            decreases sfs.len() - i,
        {
            let sf = sfs[i];
            proof {
                assert(sfs@.take(i + 1) == sfs@.take(i as int).push(sf));
                sfs@.take(i as int).lemma_filter_push(sf, in_tier(tier));
                sfs@.take(i as int).filter(in_tier(tier)).lemma_push_map_commute(feature_value(), sf);
            }
            if sf.tier_id() == tier {
                out.push(sf.value());
            }
            i = i + 1;
        }
        assert(sfs@.take(sfs.len() as int) == sfs@);
        out
    }

    /// Splits super-features into the three sketches of the index levels;
    /// `None` unless tiers 0, 1 and 2 hold exactly 3, 4 and 6 distinct
    /// values.
    fn split_into_sketches(sfs: &[SuperFeature]) -> (r: Option<
        (FixedSketch<3>, FixedSketch<4>, FixedSketch<6>),
    >)
        ensures
            r is Some <==> splittable(sfs@),
            r matches Some((a, b, c)) ==> {
                &&& arranged(a@, tier_values(sfs@, 0))
                &&& arranged(b@, tier_values(sfs@, 1))
                &&& arranged(c@, tier_values(sfs@, 2))
                &&& a@.len() == 3
                &&& b@.len() == 4
                &&& c@.len() == 6
            },
    {
        let t1 = Self::collect_tier(sfs, 0);
        let t2 = Self::collect_tier(sfs, 1);
        let t3 = Self::collect_tier(sfs, 2);
        proof {
            assert(tier_values(sfs@, 0) == t1@);
            assert(tier_values(sfs@, 1) == t2@);
            assert(tier_values(sfs@, 2) == t3@);
            assert(tier_values(sfs@, 0u8) == tier_values(sfs@, (0int) as u8));
            assert(tier_values(sfs@, 1u8) == tier_values(sfs@, (1int) as u8));
            assert(tier_values(sfs@, 2u8) == tier_values(sfs@, (2int) as u8));
        }
        if t1.len() != 3 {
            return None;
        }
        let a1 = [t1[0], t1[1], t1[2]];
        assert(a1@ =~= t1@);
        let s3 = match FixedSketch::<3>::new(a1) {
            Ok(s) => s,
            Err(_) => return None,
        };
        if t2.len() != 4 {
            return None;
        }
        let a2 = [t2[0], t2[1], t2[2], t2[3]];
        assert(a2@ =~= t2@);
        let s4 = match FixedSketch::<4>::new(a2) {
            Ok(s) => s,
            Err(_) => return None,
        };
        if t3.len() != 6 {
            return None;
        }
        let a3 = [t3[0], t3[1], t3[2], t3[3], t3[4], t3[5]];
        assert(a3@ =~= t3@);
        let s6 = match FixedSketch::<6>::new(a3) {
            Ok(s) => s,
            Err(_) => return None,
        };
        proof {
            assert forall|level: int| 0 <= level < 3 implies {
                &&& #[trigger] tier_values(sfs@, level as u8).len() == level_size(level)
                &&& !has_duplicate(tier_values(sfs@, level as u8))
            } by {
                if level == 0 {
                    assert(tier_values(sfs@, level as u8) == t1@);
                } else if level == 1 {
                    assert(tier_values(sfs@, level as u8) == t2@);
                } else {
                    assert(tier_values(sfs@, level as u8) == t3@);
                }
            }
        }
        Some((s3, s4, s6))
    }

    /// Searches for a stored chunk hash similar to `sfs`: the best match of
    /// level 0 if it has any candidate, else of level 1, else of level 2;
    /// `None` when `sfs` cannot be split into the three sketches or no level
    /// has a candidate.
    pub fn search(&self, sfs: &[SuperFeature]) -> (r: Option<u64>)
        requires
            self.wf(),
        ensures
            self.search_answers(sfs@, r),
    {
        let (s3, s4, s6) = match Self::split_into_sketches(sfs) {
            Some(t) => t,
            None => return None,
        };
        let ghost q0 = s3@;
        let ghost q1 = s4@;
        let ghost q2 = s6@;
        proof {
            assert(self.level_map(0) == self.tier1.inverted(Tier::One));
            assert(self.level_map(1) == self.tier2.inverted(Tier::Two));
            assert(self.level_map(2) == self.tier3.inverted(Tier::Three));
            assert(tier_values(sfs@, 0u8) == tier_values(sfs@, (0int) as u8));
            assert(tier_values(sfs@, 1u8) == tier_values(sfs@, (1int) as u8));
            assert(tier_values(sfs@, 2u8) == tier_values(sfs@, (2int) as u8));
            assert(postings_bounded(self.level_map(0), self.inserted as int));
            assert(postings_bounded(self.level_map(1), self.inserted as int));
            assert(postings_bounded(self.level_map(2), self.inserted as int));
            lemma_counts_fit(self.level_map(0), q0, self.inserted as int);
            lemma_counts_fit(self.level_map(1), q1, self.inserted as int);
            lemma_counts_fit(self.level_map(2), q2, self.inserted as int);
            assert(sketch_tier(3) == Some(Tier::One));
            assert(sketch_tier(4) == Some(Tier::Two));
            assert(sketch_tier(6) == Some(Tier::Three));
        }
        let r = match self.tier1.get(&s3) {
            Ok(r1) => match r1 {
                Some(h) => Some(h),
                None => {
                    let r2 = match self.tier2.get(&s4) {
                        Ok(r2) => r2,
                        Err(_) => None,
                    };
                    match r2 {
                        Some(h) => Some(h),
                        None => match self.tier3.get(&s6) {
                            Ok(r3) => r3,
                            Err(_) => None,
                        },
                    }
                },
            },
            Err(_) => None,
        };
        proof {
            assert(search_outcome(
                self.level_map(0),
                self.level_map(1),
                self.level_map(2),
                q0,
                q1,
                q2,
                r,
            ));
            assert forall|p0: Seq<u32>, p1: Seq<u32>, p2: Seq<u32>|
                splittable(sfs@) && #[trigger] arranged(p0, tier_values(sfs@, 0)) && #[trigger] arranged(
                    p1,
                    tier_values(sfs@, 1),
                ) && #[trigger] arranged(p2, tier_values(sfs@, 2)) implies search_outcome(
                self.level_map(0),
                self.level_map(1),
                self.level_map(2),
                p0,
                p1,
                p2,
                r,
            ) by {
                lemma_arranged_unique(p0, q0, tier_values(sfs@, 0));
                lemma_arranged_unique(p1, q1, tier_values(sfs@, 1));
                lemma_arranged_unique(p2, q2, tier_values(sfs@, 2));
            }
        }
        r
    }

    /// Records `hash` in all three levels under the sketches of `sfs`; does
    /// nothing when `sfs` cannot be split into the three sketches.
    pub fn insert(&mut self, sfs: &[SuperFeature], hash: u64)
        requires
            old(self).wf(),
            old(self).count() < MAX_INDEXED,
        ensures
            final(self).wf(),
            final(self).count() == old(self).count() + 1,
            splittable(sfs@) ==> forall|level: int|
                0 <= level < 3 ==> #[trigger] final(self).level_map(level) == with_posted(
                    old(self).level_map(level),
                    tier_values(sfs@, level as u8),
                    hash,
                ),
            !splittable(sfs@) ==> forall|level: int|
                0 <= level < 3 ==> #[trigger] final(self).level_map(level) == old(self).level_map(level),
            forall|level: int, t: Tier|
                0 <= level < 3 && t != level_tier(level) ==> #[trigger] final(self).inverted(level, t)
                    == old(self).inverted(level, t),
    {
        let ghost before = *self;
        if let Some((s3, s4, s6)) = Self::split_into_sketches(sfs) {
            proof {
                assert(sketch_tier(3) == Some(Tier::One));
                assert(sketch_tier(4) == Some(Tier::Two));
                assert(sketch_tier(6) == Some(Tier::Three));
                assert(tier_values(sfs@, 0u8) == tier_values(sfs@, (0int) as u8));
                assert(tier_values(sfs@, 1u8) == tier_values(sfs@, (1int) as u8));
                assert(tier_values(sfs@, 2u8) == tier_values(sfs@, (2int) as u8));
                lemma_with_posted_same_elements(old(self).level_map(0), s3@, tier_values(sfs@, 0), hash);
                lemma_with_posted_same_elements(old(self).level_map(1), s4@, tier_values(sfs@, 1), hash);
                lemma_with_posted_same_elements(old(self).level_map(2), s6@, tier_values(sfs@, 2), hash);
            }
            let _ = self.tier1.put(&s3, hash);
            let _ = self.tier2.put(&s4, hash);
            let _ = self.tier3.put(&s6, hash);
        }
        self.inserted = self.inserted + 1;
        proof {
            assert forall|level: int| 0 <= level < 3 implies postings_bounded(
                #[trigger] self.level_map(level),
                self.inserted as int,
            ) by {
                assert(postings_bounded(before.level_map(level), before.inserted as int));
                if splittable(sfs@) {
                    lemma_post_bounded(
                        before.level_map(level),
                        tier_values(sfs@, level as u8),
                        hash,
                        before.inserted as int,
                    );
                }
            }
        }
    }
}

/// The stored bytes of each chunk, by chunk id.
pub open spec fn stored_view(m: HashMap<u64, Vec<u8>>) -> Map<u64, Seq<u8>> {
    m@.map_values(|v: Vec<u8>| v@)
}

/// What the scrubber keeps between chunks: the super-feature generator,
/// the similarity index, the delta encoder and the number of chunks
/// processed.
pub struct PalantirScrubber<S: SuperFeatureGenerator, E: PalantirEncoder> {
    sf_gen: S,
    index: Index,
    encoder: E,
    chunks_processed: u64,
}

impl<S: SuperFeatureGenerator, E: PalantirEncoder> PalantirScrubber<S, E> {
    /// The similarity index.
    pub closed spec fn similarity_index(&self) -> Index {
        self.index
    }

    /// The super-feature generator.
    pub closed spec fn generator(&self) -> S {
        self.sf_gen
    }

    /// The delta encoder.
    pub closed spec fn delta_encoder(&self) -> E {
        self.encoder
    }

    /// The number of chunks processed.
    pub closed spec fn processed(&self) -> u64 {
        self.chunks_processed
    }

    /// A scrubber with no chunk processed yet.
    pub fn new(sf_gen: S, index: Index, encoder: E) -> (r: Self)
        ensures
            r.generator() == sf_gen,
            r.delta_encoder() == encoder,
            r.similarity_index() == index,
            r.processed() == 0,
    {
        PalantirScrubber { sf_gen, index, encoder, chunks_processed: 0 }
    }

    /// The number of chunks processed.
    pub fn chunks_processed(&self) -> (r: u64)
        ensures
            r == self.processed(),
    {
        self.chunks_processed
    }

    /// The number of chunks the index has taken.
    pub fn indexed(&self) -> (r: usize)
        ensures
            r == self.similarity_index().count(),
    {
        self.index.insert_count()
    }

    /// The super-features of `chunk`, from the generator.
    pub fn super_features(&self, chunk: &Chunk) -> (r: Vec<SuperFeature>)
        ensures
            call_ensures(S::generate, (&self.generator(), chunk), r),
    {
        self.sf_gen.generate(chunk)
    }

    /// The chunk similar to one with super-features `sfs`, with its stored
    /// bytes: the index's answer, when the answer is stored in
    /// `target_map`; `None` when the index finds nothing or its answer has
    /// no stored bytes.
    pub fn find_base(&self, sfs: &[SuperFeature], target_map: &HashMap<u64, Vec<u8>>) -> (r: Option<(u64, Vec<u8>)>)
        requires
            self.similarity_index().wf(),
        ensures
            r matches Some((b, data)) ==> {
                &&& self.similarity_index().search_answers(sfs@, Some(b))
                &&& stored_view(*target_map).contains_key(b)
                &&& data@ == stored_view(*target_map)[b]
            },
            r is None ==> self.similarity_index().search_answers(sfs@, None) || exists|b: u64|
                self.similarity_index().search_answers(sfs@, Some(b)) && !stored_view(
                    *target_map,
                ).contains_key(b),
    {
        match self.index.search(sfs) {
            Some(b) => match target_map.get(&b) {
                Some(data) => {
                    let copy = copy_bytes(data);
                    Some((b, copy))
                },
                None => {
                    assert(!stored_view(*target_map).contains_key(b));
                    assert(self.similarity_index().search_answers(sfs@, Some(b)));
                    None
                },
            },
            None => None,
        }
    }

    /// The delta of `chunk` against `base` from the scrubber's encoder.
    pub fn encode(&self, chunk: &[u8], base: &[u8]) -> (r: Vec<u8>)
        requires
            E::accepts(chunk@, base@),
        ensures
            call_ensures(E::encode, (&self.delta_encoder(), chunk, base), r),
    {
        self.encoder.encode(chunk, base)
    }

    /// Records a processed chunk: stores `stored` under `id`, indexes `id`
    /// under `sfs`, and counts the chunk.
    pub fn commit(&mut self, id: u64, sfs: &[SuperFeature], stored: Vec<u8>, target_map: &mut HashMap<u64, Vec<u8>>)
        requires
            old(self).similarity_index().wf(),
            old(self).similarity_index().count() < MAX_INDEXED,
            old(self).processed() < u64::MAX,
        ensures
            final(self).generator() == old(self).generator(),
            final(self).delta_encoder() == old(self).delta_encoder(),
            stored_view(*final(target_map)) == stored_view(*old(target_map)).insert(id, stored@),
            final(self).processed() == old(self).processed() + 1,
            final(self).similarity_index().wf(),
            final(self).similarity_index().count() == old(self).similarity_index().count() + 1,
            splittable(sfs@) ==> forall|level: int|
                0 <= level < 3 ==> #[trigger] final(self).similarity_index().level_map(level) == with_posted(
                    old(self).similarity_index().level_map(level),
                    tier_values(sfs@, level as u8),
                    id,
                ),
            !splittable(sfs@) ==> forall|level: int|
                0 <= level < 3 ==> #[trigger] final(self).similarity_index().level_map(level) == old(
                    self,
                ).similarity_index().level_map(level),
    {
        let ghost before = stored_view(*target_map);
        let ghost s = stored@;
        target_map.insert(id, stored);
        assert(stored_view(*target_map) =~= before.insert(id, s));
        self.index.insert(sfs, id);
        self.chunks_processed = self.chunks_processed + 1;
    }
}

/// The zstd frame of `data` at zstd's default level.
pub uninterp spec fn zstd_frame(data: Seq<u8>) -> Seq<u8>;

/// Calls `zstd::encode_all(data, 0)`, which compresses `data` into a zstd
/// frame at the default level. Claimed: it succeeds, and the bytes are
/// `zstd_frame(data)`, a function of `data` alone. Reading from a slice
/// and writing to a `Vec` cannot fail, and level 0 is a valid level; what
/// is left is a failed allocation, which aborts rather than returns.
#[verifier::external_body]
fn zstd_encode(data: &[u8]) -> (r: Option<Vec<u8>>)
    ensures
        r is Some,
        r matches Some(v) ==> v@ == zstd_frame(data@),
{
    zstd::encode_all(data, 0).ok()
}

/// The zstd-compressed sizes of a delta and of the chunk it stands for,
/// which the scrubber compares to decide whether to keep the delta.
pub fn compressed_lengths(delta: &[u8], chunk: &[u8]) -> (r: (usize, usize))
    ensures
        r.0 == zstd_frame(delta@).len(),
        r.1 == zstd_frame(chunk@).len(),
{
    let delta_len = match zstd_encode(delta) {
        Some(v) => v.len(),
        None => 0,
    };
    let chunk_len = match zstd_encode(chunk) {
        Some(v) => v.len(),
        None => 0,
    };
    (delta_len, chunk_len)
}

/// A copy of `src`.
fn copy_bytes(src: &Vec<u8>) -> (r: Vec<u8>)
    ensures
        r@ == src@,
{
    let mut out: Vec<u8> = Vec::new();
    let mut i: usize = 0;
    while i < src.len()
        invariant
            0 <= i <= src.len(),
            out@ == src@.take(i as int),
        decreases src.len() - i,
    {
        out.push(src[i]);
        i = i + 1;
        assert(out@ == src@.take(i as int));
    }
    assert(src@.take(src.len() as int) == src@);
    out
}

/// A sequence holds a value at most as many times as it is long.
proof fn lemma_occurrences_le_len(s: Seq<u64>, h: u64)
    ensures
        occurrences(s, h) <= s.len(),
    decreases s.len(),
{
    if s.len() > 0 {
        lemma_occurrences_le_len(s.drop_last(), h);
    }
}

/// When no posting list is longer than `n`, no hash hits a query more than
/// `n` times per element.
proof fn lemma_hits_bounded(m: Map<u32, Seq<u64>>, q: Seq<u32>, h: u64, n: int)
    requires
        postings_bounded(m, n),
    ensures
        hits(m, q, h) <= q.len() * n,
    decreases q.len(),
{
    if q.len() > 0 {
        lemma_hits_bounded(m, q.drop_last(), h, n);
        lemma_occurrences_le_len(posting(m, q.last()), h);
        assert(posting(m, q.last()).len() <= n);
        let k = q.len() as int;
        assert((k - 1) * n + n == k * n) by (nonlinear_arith);
    }
}

/// Posting one hash under a query makes each posting list at most one
/// longer.
proof fn lemma_post_bounded(m: Map<u32, Seq<u64>>, q: Seq<u32>, h: u64, n: int)
    requires
        postings_bounded(m, n),
    ensures
        postings_bounded(with_posted(m, q, h), n + 1),
{
    assert forall|sf: u32| #[trigger] posting(with_posted(m, q, h), sf).len() <= n + 1 by {
        assert(posting(m, sf).len() <= n);
    }
}

/// In an index within its insertion limit, no hash is counted
/// `usize::MAX` times for a query of at most six values.
proof fn lemma_counts_fit(m: Map<u32, Seq<u64>>, q: Seq<u32>, n: int)
    requires
        postings_bounded(m, n),
        0 <= n <= MAX_INDEXED,
        q.len() <= 6,
    ensures
        counts_fit(m, q),
{
    assert forall|h: u64| #[trigger] hits(m, q, h) < usize::MAX by {
        lemma_hits_bounded(m, q, h, n);
        let m = usize::MAX - 1;
        assert(q.len() * n <= m) by (nonlinear_arith)
            requires
                q.len() <= 6,
                0 <= n <= m / 6,
                m >= 0,
        ;
    }
}

/// After `insert` records `h` under super-features that split into the
/// three sketches, a search with the same super-features answers with a
/// best match of level 0; when level 0 was empty before, that match is `h`.
pub proof fn lemma_insert_then_search(
    m0: Map<u32, Seq<u64>>,
    m1: Map<u32, Seq<u64>>,
    m2: Map<u32, Seq<u64>>,
    sfs: Seq<SuperFeature>,
    h: u64,
    q0: Seq<u32>,
    q1: Seq<u32>,
    q2: Seq<u32>,
    r: Option<u64>,
)
    requires
        splittable(sfs),
        arranged(q0, tier_values(sfs, 0)),
        arranged(q1, tier_values(sfs, 1)),
        arranged(q2, tier_values(sfs, 2)),
        search_outcome(
            with_posted(m0, tier_values(sfs, 0), h),
            with_posted(m1, tier_values(sfs, 1), h),
            with_posted(m2, tier_values(sfs, 2), h),
            q0,
            q1,
            q2,
            r,
        ),
    ensures
        r is Some,
        is_best_match(with_posted(m0, tier_values(sfs, 0), h), q0, r->0),
        m0 == Map::<u32, Seq<u64>>::empty() ==> r == Some(h),
{
    let vals = tier_values(sfs, 0);
    assert(tier_values(sfs, (0int) as u8).len() == level_size(0));
    assert(vals.len() == 3);
    assert(q0.contains(vals[0]));
    crate::sketch::feature::lemma_strictly_sorted_no_duplicates(q0);
    lemma_with_posted_same_elements(m0, q0, vals, h);
    crate::index::palantir::lemma_put_then_candidates(m0, q0, h);
    if m0 == Map::<u32, Seq<u64>>::empty() {
        crate::index::palantir::lemma_put_then_get_fresh(q0, h, r->0);
    }
}

/// The ascending arrangement of `vals`.
pub open spec fn ascending_arrangement(vals: Seq<u32>) -> Seq<u32> {
    vals.sort_by(|a: u32, b: u32| a <= b)
}

/// Values that hold no value twice have an ascending arrangement.
pub proof fn lemma_arrangement_exists(vals: Seq<u32>)
    requires
        !has_duplicate(vals),
    ensures
        arranged(ascending_arrangement(vals), vals),
{
    broadcast use vstd::multiset::group_multiset_axioms;

    let leq = |a: u32, b: u32| a <= b;
    assert(vstd::relations::total_ordering(leq));
    vals.lemma_sort_by_ensures(leq);
    let q = vals.sort_by(leq);
    assert(vals.no_duplicates()) by {
        assert forall|i: int, j: int| 0 <= i < vals.len() && 0 <= j < vals.len() && i != j implies vals[i]
            != vals[j] by {
            if vals[i] == vals[j] {
                assert(has_duplicate(vals));
            }
        }
    }
    vals.lemma_multiset_has_no_duplicates();
    q.lemma_multiset_has_no_duplicates_conv();
    assert forall|i: int, j: int| 0 <= i < j < q.len() implies q[i] < q[j] by {
        assert(leq(q[i], q[j]));
    }
    assert forall|x: u32| q.contains(x) <==> vals.contains(x) by {
        vstd::seq_lib::to_multiset_contains(q, x);
        vstd::seq_lib::to_multiset_contains(vals, x);
    }
}

/// In an index that was empty, after `insert` records `h` under
/// super-features that split into the three sketches, a search with the
/// same super-features answers `h`.
pub proof fn lemma_fresh_insert_then_search(
    fresh: Index,
    after: Index,
    sfs: Seq<SuperFeature>,
    h: u64,
    r: Option<u64>,
)
    requires
        forall|level: int| 0 <= level < 3 ==> #[trigger] fresh.level_map(level) == Map::<u32, Seq<u64>>::empty(),
        splittable(sfs),
        forall|level: int|
            0 <= level < 3 ==> #[trigger] after.level_map(level) == with_posted(
                fresh.level_map(level),
                tier_values(sfs, level as u8),
                h,
            ),
        after.search_answers(sfs, r),
    ensures
        r == Some(h),
{
    assert(tier_values(sfs, 0u8) == tier_values(sfs, (0int) as u8));
    assert(tier_values(sfs, 1u8) == tier_values(sfs, (1int) as u8));
    assert(tier_values(sfs, 2u8) == tier_values(sfs, (2int) as u8));
    assert(tier_values(sfs, (0int) as u8).len() == level_size(0));
    assert(tier_values(sfs, (1int) as u8).len() == level_size(1));
    assert(tier_values(sfs, (2int) as u8).len() == level_size(2));
    let v0 = tier_values(sfs, 0);
    let v1 = tier_values(sfs, 1);
    let v2 = tier_values(sfs, 2);
    lemma_arrangement_exists(v0);
    lemma_arrangement_exists(v1);
    lemma_arrangement_exists(v2);
    let q0 = ascending_arrangement(v0);
    let q1 = ascending_arrangement(v1);
    let q2 = ascending_arrangement(v2);
    assert(search_outcome(after.level_map(0), after.level_map(1), after.level_map(2), q0, q1, q2, r));
    assert(after.level_map(0) == with_posted(fresh.level_map(0), v0, h));
    assert(after.level_map(1) == with_posted(fresh.level_map(1), v1, h));
    assert(after.level_map(2) == with_posted(fresh.level_map(2), v2, h));
    lemma_insert_then_search(
        fresh.level_map(0),
        fresh.level_map(1),
        fresh.level_map(2),
        sfs,
        h,
        q0,
        q1,
        q2,
        r,
    );
}

/// Two ascending arrangements of the same values are the same sequence.
pub proof fn lemma_arranged_unique(p: Seq<u32>, q: Seq<u32>, vals: Seq<u32>)
    requires
        arranged(p, vals),
        arranged(q, vals),
    ensures
        p == q,
{
    crate::sketch::feature::lemma_sorted_unique(p, q);
}

/// Posting to a query touches the posting lists of its values only, so any
/// two queries with the same values post alike.
pub proof fn lemma_with_posted_same_elements(m: Map<u32, Seq<u64>>, q: Seq<u32>, vals: Seq<u32>, h: u64)
    requires
        same_elements(q, vals),
    ensures
        with_posted(m, q, h) == with_posted(m, vals, h),
{
    assert(with_posted(m, q, h) =~= with_posted(m, vals, h));
}

} // verus!
