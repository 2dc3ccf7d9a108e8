use std::collections::HashMap;

use marline::palantir::bench::{concat_files, configs, total_bytes};
use marline::palantir::error::PalantirError;
use marline::palantir::mock_rocksdb::{Entry, MockRocksDBMap};
use marline::palantir::types::{
    Chunk, ChunkHash, Fingerprint, FingerprintGenerator, Sha256FingerprintGenerator, SuperFeature,
    TierConfig,
};

#[test]
fn sha256_fingerprint_of_abc() {
    let fp = Sha256FingerprintGenerator.generate(&Chunk::new(b"abc".to_vec()));
    let expected: [u8; 32] = [
        0xba, 0x78, 0x16, 0xbf, 0x8f, 0x01, 0xcf, 0xea, 0x41, 0x41, 0x40, 0xde, 0x5d, 0xae, 0x22,
        0x23, 0xb0, 0x03, 0x61, 0xa3, 0x96, 0x17, 0x7a, 0x9c, 0xb4, 0x10, 0xff, 0x61, 0xf2, 0x00,
        0x15, 0xad,
    ];
    assert_eq!(fp.as_bytes(), &expected);
}

#[test]
fn sha256_fingerprint_of_empty_chunk() {
    let fp = Sha256FingerprintGenerator.generate(&Chunk::new(Vec::new()));
    assert_eq!(fp.as_bytes()[0], 0xe3);
    assert_eq!(fp.as_bytes()[31], 0x55);
}

#[test]
fn super_feature_getters() {
    let sf = SuperFeature::new(2, 77, 9);
    assert_eq!(sf.tier_id(), 2);
    assert_eq!(sf.value(), 77);
    assert_eq!(sf.version_id(), 9);
}

#[test]
fn chunk_hash_and_tier_config_hold_their_parts() {
    let fp = Fingerprint::new([7u8; 32]);
    let ch = ChunkHash::new(fp.clone(), vec![SuperFeature::new(0, 1, 1)]);
    assert_eq!(ch.fingerprint.as_bytes(), &[7u8; 32]);
    assert_eq!(ch.super_features.len(), 1);
    let tc = TierConfig::new(vec![3, 4, 6]);
    assert_eq!(tc.tier_list, vec![3, 4, 6]);
    let c = Chunk::new(vec![1, 2, 3]);
    assert_eq!(c.as_bytes(), &[1, 2, 3]);
}

#[test]
fn palantir_error_messages() {
    assert_eq!(PalantirError::Chunking("x".to_string()).message(), "chunking failed: x");
    assert_eq!(PalantirError::Hashing("y".to_string()).message(), "hashing failed: y");
    assert_eq!(PalantirError::Metadata("z".to_string()).message(), "metadata error: z");
}

#[test]
fn mock_rocksdb_insert_get_and_counters() {
    let mut db = MockRocksDBMap::new();
    assert!(db.is_empty());
    let k1 = [1u8; 32];
    let k2 = [2u8; 32];
    let mut manifest = HashMap::new();
    manifest.insert(1u32, 2u32);
    db.insert(k1, Entry::new(Some(manifest), vec![1, 2, 3]));
    db.insert(k2, Entry::from(vec![9; 10]));
    assert_eq!(db.len(), 2);
    assert_eq!(db.total_bytes(), 13);
    assert!(db.contains(&k1));
    assert!(!db.contains(&[3u8; 32]));

    let e = db.get(&k1).unwrap();
    assert_eq!(e.get_data(), &vec![1, 2, 3]);
    assert_eq!(e.get_manifest().as_ref().unwrap()[&1], 2);
    assert!(db.get(&[3u8; 32]).is_none());
    assert_eq!(db.get_count, 2);
    assert_eq!(db.insert_count, 2);

    db.insert(k1, Entry::from(vec![5]));
    assert_eq!(db.len(), 2);
    assert_eq!(db.total_bytes(), 11);
    assert_eq!(db.get_2(&k1).unwrap().get_data(), &vec![5]);
    assert!(db.get_2(&k1).unwrap().get_manifest().is_none());

    db.clear();
    assert!(db.is_empty());
    assert_eq!(db.total_bytes(), 0);
    assert_eq!(db.clear_count, 1);
    assert!(db.entries().is_empty());
}

#[test]
fn concat_and_count_dataset_bytes() {
    let files = vec![vec![1u8, 2], vec![], vec![3u8]];
    assert_eq!(concat_files(&files), vec![1, 2, 3]);
    let sets = vec![files.clone(), vec![vec![4u8; 5]]];
    assert_eq!(total_bytes(&sets), Some(8));
    assert_eq!(total_bytes(&Vec::new()), Some(0));
}

#[test]
fn benchmark_configurations() {
    let cfgs = configs();
    assert_eq!(cfgs.len(), 6);
    assert_eq!(cfgs[0].name, "ODESS");
    assert_eq!(cfgs[0].tier_list, vec![4]);
    assert_eq!(cfgs[0].features_num_override, Some(12));
    assert_eq!(cfgs[5].tier_list, vec![12, 6, 4, 3, 2]);
    assert!(cfgs[1..].iter().all(|c| c.features_num_override.is_none()));
}
