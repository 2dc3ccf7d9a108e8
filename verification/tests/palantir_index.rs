use marline::index::{tier_for_sketch_size, IndexError, IndexStorage, MockStore, PalantirIndex, Tier};
use marline::palantir::palantir_scrubber::Index;
use marline::palantir::types::SuperFeature;
use marline::sketch::FixedSketch;

fn sketch3(v: [u32; 3]) -> FixedSketch<3> {
    FixedSketch::new(v).unwrap()
}

#[test]
fn tier_for_sketch_size_maps_sizes() {
    assert_eq!(tier_for_sketch_size(3).unwrap(), Tier::One);
    assert_eq!(tier_for_sketch_size(4).unwrap(), Tier::Two);
    assert_eq!(tier_for_sketch_size(6).unwrap(), Tier::Three);
    assert!(matches!(tier_for_sketch_size(5), Err(IndexError::InvalidSearchOptions)));
    assert!(matches!(tier_for_sketch_size(0), Err(IndexError::InvalidSearchOptions)));
}

#[test]
fn get_returns_most_shared_hash() {
    let mut idx = PalantirIndex::new(IndexStorage::<FixedSketch<3>>::new());
    idx.put(&sketch3([1, 2, 3]), 10).unwrap();
    idx.put(&sketch3([1, 2, 9]), 20).unwrap();
    idx.put(&sketch3([7, 8, 9]), 30).unwrap();
    assert_eq!(idx.get(&sketch3([1, 2, 3])).unwrap(), Some(10));
    assert_eq!(idx.get(&sketch3([7, 8, 9])).unwrap(), Some(30));
    assert_eq!(idx.get(&sketch3([100, 200, 300])).unwrap(), None);
}

#[test]
fn put_then_get_in_empty_index_finds_the_hash() {
    let mut idx = PalantirIndex::new(MockStore::<FixedSketch<3>>::new());
    idx.put(&sketch3([4, 5, 6]), 77).unwrap();
    assert_eq!(idx.get(&sketch3([4, 5, 6])).unwrap(), Some(77));
}

#[test]
fn top_k_ranks_by_count() {
    let mut idx = PalantirIndex::new(IndexStorage::<FixedSketch<3>>::new());
    idx.put(&sketch3([1, 2, 3]), 10).unwrap();
    idx.put(&sketch3([1, 2, 9]), 20).unwrap();
    idx.put(&sketch3([1, 8, 9]), 30).unwrap();
    let ranking = idx.top_k(&sketch3([1, 2, 3]), 3).unwrap();
    assert_eq!(ranking, vec![(10, 3), (20, 2), (30, 1)]);
    let top1 = idx.top_k(&sketch3([1, 2, 3]), 1).unwrap();
    assert_eq!(top1, vec![(10, 3)]);
    let none = idx.top_k(&sketch3([50, 60, 70]), 2).unwrap();
    assert!(none.is_empty());
}

#[test]
fn put_with_unsupported_size_is_refused() {
    let mut idx = PalantirIndex::new(IndexStorage::<FixedSketch<5>>::new());
    let s = FixedSketch::<5>::new([1, 2, 3, 4, 5]).unwrap();
    assert!(matches!(idx.put(&s, 1), Err(IndexError::InvalidSearchOptions)));
    assert!(matches!(idx.get(&s), Err(IndexError::InvalidSearchOptions)));
    assert_eq!(idx.len().unwrap(), 0);
}

fn features(base: u32) -> Vec<SuperFeature> {
    let mut sfs = Vec::new();
    for v in 0..3 {
        sfs.push(SuperFeature::new(0, base + v, 1));
    }
    for v in 0..4 {
        sfs.push(SuperFeature::new(1, base + 10 + v, 1));
    }
    for v in 0..6 {
        sfs.push(SuperFeature::new(2, base + 20 + v, 1));
    }
    sfs
}

#[test]
fn index_insert_then_search_finds_hash() {
    let mut index = Index::new();
    let sfs = features(1000);
    assert_eq!(index.search(&sfs), None);
    index.insert(&sfs, 42);
    assert_eq!(index.search(&sfs), Some(42));
}

#[test]
fn index_search_falls_back_to_finer_levels() {
    let mut index = Index::new();
    index.insert(&features(1000), 42);
    let mut other = features(5000);
    // Same tier-2 values as the stored chunk, different coarser tiers.
    for (i, sf) in other.iter_mut().enumerate() {
        if sf.tier_id() == 2 {
            *sf = SuperFeature::new(2, 1020 + (i as u32 - 7), 1);
        }
    }
    assert_eq!(index.search(&other), Some(42));
}

#[test]
fn index_ignores_super_features_that_do_not_split() {
    let mut index = Index::new();
    let mut sfs = features(1000);
    sfs.pop();
    index.insert(&sfs, 42);
    assert_eq!(index.search(&features(1000)), None);
    assert_eq!(index.search(&sfs), None);
}

use std::collections::HashMap;

use marline::palantir::encoder::GdeltaEncoder;
use marline::palantir::palantir_scrubber::{compressed_lengths, PalantirScrubber};
use marline::palantir::types::{Chunk, SuperFeatureGenerator};

/// Super-features taken from the first byte of a chunk, so that chunks
/// with the same first byte look alike.
struct FirstByteFeatures;

impl SuperFeatureGenerator for FirstByteFeatures {
    fn generate(&self, chunk: &Chunk) -> Vec<SuperFeature> {
        features(chunk.as_bytes()[0] as u32 * 100)
    }
}

#[test]
fn scrubber_finds_stored_similar_chunk() {
    let mut scrubber = PalantirScrubber::new(FirstByteFeatures, Index::new(), GdeltaEncoder::new());
    let mut stored: HashMap<u64, Vec<u8>> = HashMap::new();

    let a: Vec<u8> = (0..64u8).collect();
    let sfs_a = scrubber.super_features(&Chunk::new(a.clone()));
    assert!(scrubber.find_base(&sfs_a, &stored).is_none());
    scrubber.commit(1, &sfs_a, a.clone(), &mut stored);
    assert_eq!(scrubber.chunks_processed(), 1);
    assert_eq!(scrubber.indexed(), 1);
    assert_eq!(stored[&1], a);

    let mut b = a.clone();
    b[40] = 200;
    let sfs_b = scrubber.super_features(&Chunk::new(b.clone()));
    let (base_id, base_data) = scrubber.find_base(&sfs_b, &stored).unwrap();
    assert_eq!(base_id, 1);
    assert_eq!(base_data, a);
    let delta = scrubber.encode(&b, &base_data);
    assert!(!delta.is_empty());

    let c: Vec<u8> = (100..164u8).collect();
    let sfs_c = scrubber.super_features(&Chunk::new(c));
    assert!(scrubber.find_base(&sfs_c, &stored).is_none());
}

#[test]
fn scrubber_ignores_index_answer_without_stored_bytes() {
    let mut scrubber = PalantirScrubber::new(FirstByteFeatures, Index::new(), GdeltaEncoder::new());
    let mut stored: HashMap<u64, Vec<u8>> = HashMap::new();
    let a: Vec<u8> = vec![5; 32];
    let sfs = scrubber.super_features(&Chunk::new(a.clone()));
    scrubber.commit(9, &sfs, a, &mut stored);
    stored.clear();
    assert!(scrubber.find_base(&sfs, &stored).is_none());
}

#[test]
fn put_stores_the_sketch_and_len_counts_entries() {
    let mut idx = PalantirIndex::new(IndexStorage::<FixedSketch<3>>::new());
    idx.put(&sketch3([1, 2, 3]), 7).unwrap();
    assert_eq!(idx.len().unwrap(), 1);
    idx.put(&sketch3([1, 2, 3]), 7).unwrap();
    assert_eq!(idx.len().unwrap(), 1);
    idx.put(&sketch3([4, 5, 6]), 8).unwrap();
    assert_eq!(idx.len().unwrap(), 2);
}

#[test]
fn compressed_lengths_shrink_repetitive_data() {
    let zeros = vec![0u8; 10000];
    let varied: Vec<u8> = (0..10000u32).map(|i| (i.wrapping_mul(2654435761) >> 13) as u8).collect();
    let (z, v) = compressed_lengths(&zeros, &varied);
    assert!(z < 100);
    assert!(v > z);
    assert_eq!(compressed_lengths(&zeros, &zeros), (z, z));
}
