use marline::hasher::odess_hasher::{
    sort_words, super_feature_columns, IndexType, OdessHash, OdessHasher, SuperFeatureConfig,
    SUPER_FEATURES_NUM,
};

#[test]
fn next_hash_increments_the_first_word() {
    let h = OdessHash::from_words(vec![5, 0, 0, 9]);
    assert_eq!(h.next_hash().as_slice(), &[6, 0, 0, 9]);
}

#[test]
fn next_hash_carries_into_later_words() {
    let h = OdessHash::from_words(vec![u64::MAX, 3, 0]);
    assert_eq!(h.next_hash().as_slice(), &[0, 4, 0]);
    let h = OdessHash::from_words(vec![u64::MAX, u64::MAX, 7]);
    assert_eq!(h.next_hash().as_slice(), &[0, 0, 8]);
}

#[test]
fn next_hash_saturates() {
    let h = OdessHash::from_words(vec![u64::MAX, u64::MAX, u64::MAX]);
    assert_eq!(h.next_hash().as_slice(), &[u64::MAX; SUPER_FEATURES_NUM]);
}

#[test]
fn last_hash_borrows_and_saturates() {
    let h = OdessHash::from_words(vec![5, 1, 1]);
    assert_eq!(h.last_hash().as_slice(), &[4, 1, 1]);
    let h = OdessHash::from_words(vec![0, 1, 1]);
    assert_eq!(h.last_hash().as_slice(), &[u64::MAX, 0, 1]);
    let h = OdessHash::from_words(vec![0, 0, 2]);
    assert_eq!(h.last_hash().as_slice(), &[u64::MAX, u64::MAX, 1]);
    let h = OdessHash::from_words(vec![0, 0, 0]);
    assert_eq!(h.last_hash().as_slice(), &[0u64; SUPER_FEATURES_NUM]);
}

#[test]
fn next_then_last_gives_the_hash_back() {
    for words in [vec![1u64, 2, 3], vec![u64::MAX, 0, 4], vec![u64::MAX, u64::MAX, 0]] {
        let h = OdessHash::from_words(words);
        assert_eq!(h.next_hash().last_hash(), h);
        assert_eq!(h.last_hash().next_hash(), h);
    }
}

#[test]
fn sort_words_sorts() {
    let mut v = vec![9, 1, 7, 1, 0];
    sort_words(&mut v);
    assert_eq!(v, vec![0, 1, 1, 7, 9]);
}

#[test]
fn columns_of_sorted_groups() {
    let features = vec![30, 10, 20, 6, 4, 5];
    let cols = super_feature_columns(&features, 2, 3);
    assert_eq!(cols, vec![vec![10, 4], vec![20, 5], vec![30, 6]]);
}

#[test]
fn empty_chunk_has_no_sampled_feature() {
    let hasher = OdessHasher::new(3, IndexType::RawFeatured(5));
    let h = hasher.calculate_hash(&[]);
    assert_eq!(h.as_slice(), &[u64::MAX; 5]);
}

#[test]
fn raw_features_are_reduced_modulo_2_pow_32() {
    let hasher = OdessHasher::new(0, IndexType::RawFeatured(4));
    let chunk: Vec<u8> = (0..200u8).collect();
    let h = hasher.calculate_hash(&chunk);
    assert_eq!(h.as_slice().len(), 4);
    assert!(h.as_slice().iter().all(|&f| f < (1u64 << 32)));
    assert_eq!(hasher.calculate_hash(&chunk), h);
    assert_eq!(hasher.compute_features(&chunk), h.as_slice().to_vec());
}

#[test]
fn super_featured_hash_has_one_word_per_super_feature() {
    let hasher = OdessHasher::default();
    let chunk: Vec<u8> = (0..4096u32).map(|i| (i * 31 % 251) as u8).collect();
    let h = hasher.calculate_hash(&chunk);
    assert_eq!(h.as_slice().len(), 6);
    assert_eq!(hasher.calculate_hash(&chunk), h);

    let cfg = SuperFeatureConfig::new(3, 4);
    assert_eq!(cfg.groups(), 3);
    assert_eq!(cfg.sf_num(), 4);
    let hasher = OdessHasher::new(5, IndexType::SuperFeatured(cfg));
    assert_eq!(hasher.calculate_hash(&chunk).as_slice().len(), 4);
}
