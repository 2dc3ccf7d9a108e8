use marline::index::{IndexError, IndexStorage, Store, Tier};
use marline::sketch::FixedSketch;

type Mock = IndexStorage<FixedSketch<6>>;

fn make_sketch(vals: [u32; 6]) -> FixedSketch<6> {
    FixedSketch::new(vals).unwrap()
}

#[test]
fn put_and_get_sketch_roundtrip() {
    let mut store = Mock::new();
    let sk = make_sketch([1, 2, 3, 4, 5, 6]);

    store.put_sketch(&42, &sk).unwrap();
    let got = store.get_sketch(&42).unwrap();

    assert_eq!(got, Some(sk));
}

#[test]
fn get_sketch_nonexistent_returns_none() {
    let store = Mock::new();
    let got = store.get_sketch(&99).unwrap();
    assert_eq!(got, None);
}

#[test]
fn put_sketch_overwrites_existing() {
    let mut store = Mock::new();
    let sk1 = make_sketch([1, 2, 3, 4, 5, 6]);
    let sk2 = make_sketch([10, 20, 30, 40, 50, 60]);

    store.put_sketch(&1, &sk1).unwrap();
    store.put_sketch(&1, &sk2).unwrap();

    let got = store.get_sketch(&1).unwrap();
    assert_eq!(got, Some(sk2));
}

#[test]
fn put_and_get_inverted_single_hash() {
    let mut store = Mock::new();

    store.put_inverted(Tier::One, 100, &42).unwrap();
    let hashes = store.get_inverted(Tier::One, 100).unwrap();

    assert_eq!(hashes, vec![42]);
}

#[test]
fn put_inverted_multiple_hashes_same_sf_appends() {
    let mut store = Mock::new();

    store.put_inverted(Tier::One, 100, &1).unwrap();
    store.put_inverted(Tier::One, 100, &2).unwrap();
    store.put_inverted(Tier::One, 100, &3).unwrap();

    let hashes = store.get_inverted(Tier::One, 100).unwrap();
    assert_eq!(hashes, vec![1, 2, 3]);
}

#[test]
fn get_inverted_empty_sf_returns_empty_vec() {
    let store = Mock::new();
    let hashes = store.get_inverted(Tier::One, 999).unwrap();
    assert!(hashes.is_empty());
}

#[test]
fn inverted_tiers_are_independent() {
    let mut store = Mock::new();

    store.put_inverted(Tier::One, 100, &1).unwrap();
    store.put_inverted(Tier::Two, 100, &2).unwrap();
    store.put_inverted(Tier::Three, 100, &3).unwrap();

    assert_eq!(store.get_inverted(Tier::One, 100).unwrap(), vec![1]);
    assert_eq!(store.get_inverted(Tier::Two, 100).unwrap(), vec![2]);
    assert_eq!(store.get_inverted(Tier::Three, 100).unwrap(), vec![3]);
}

#[test]
fn remove_inverted_removes_hash_from_list() {
    let mut store = Mock::new();

    store.put_inverted(Tier::One, 100, &1).unwrap();
    store.put_inverted(Tier::One, 100, &2).unwrap();
    store.put_inverted(Tier::One, 100, &3).unwrap();

    store.remove_inverted(Tier::One, 100, &2).unwrap();

    let hashes = store.get_inverted(Tier::One, 100).unwrap();
    assert_eq!(hashes, vec![1, 3]);
}

#[test]
fn remove_inverted_last_hash_leaves_empty() {
    let mut store = Mock::new();

    store.put_inverted(Tier::One, 100, &7).unwrap();
    store.remove_inverted(Tier::One, 100, &7).unwrap();

    let hashes = store.get_inverted(Tier::One, 100).unwrap();
    assert!(hashes.is_empty());
}

#[test]
fn remove_inverted_nonexistent_sf_does_not_panic() {
    let mut store = Mock::new();

    let result = store.remove_inverted(Tier::One, 999, &1);
    assert!(result.is_ok());
}

#[test]
fn remove_inverted_nonexistent_hash_does_not_alter_others() {
    let mut store = Mock::new();

    store.put_inverted(Tier::One, 100, &1).unwrap();
    store.put_inverted(Tier::One, 100, &2).unwrap();

    store.remove_inverted(Tier::One, 100, &99).unwrap();

    let hashes = store.get_inverted(Tier::One, 100).unwrap();
    assert_eq!(hashes, vec![1, 2]);
}

#[test]
fn remove_inverted_on_one_tier_does_not_affect_another() {
    let mut store = Mock::new();

    store.put_inverted(Tier::One, 100, &1).unwrap();
    store.put_inverted(Tier::Two, 100, &1).unwrap();

    store.remove_inverted(Tier::One, 100, &1).unwrap();

    assert!(store.get_inverted(Tier::One, 100).unwrap().is_empty());
    assert_eq!(store.get_inverted(Tier::Two, 100).unwrap(), vec![1]);
}

#[test]
fn len_sketches_starts_at_zero() {
    let store = Mock::new();
    assert_eq!(store.len_sketches().unwrap(), 0);
}

#[test]
fn len_sketches_increases_after_put() {
    let mut store = Mock::new();
    store.put_sketch(&1, &make_sketch([1, 2, 3, 4, 5, 6])).unwrap();
    store.put_sketch(&2, &make_sketch([2, 3, 4, 5, 6, 7])).unwrap();
    assert_eq!(store.len_sketches().unwrap(), 2);
}

#[test]
fn len_sketches_does_not_increase_on_overwrite() {
    let mut store = Mock::new();
    store.put_sketch(&1, &make_sketch([1, 2, 3, 4, 5, 6])).unwrap();
    store.put_sketch(&1, &make_sketch([10, 20, 30, 40, 50, 60])).unwrap();
    assert_eq!(store.len_sketches().unwrap(), 1);
}

#[test]
fn len_inverted_starts_at_zero_per_tier() {
    let store = Mock::new();
    assert_eq!(store.len_inverted(Tier::One).unwrap(), 0);
    assert_eq!(store.len_inverted(Tier::Two).unwrap(), 0);
    assert_eq!(store.len_inverted(Tier::Three).unwrap(), 0);
}

#[test]
fn len_inverted_counts_unique_sfs() {
    let mut store = Mock::new();

    store.put_inverted(Tier::One, 100, &1).unwrap();
    store.put_inverted(Tier::One, 200, &2).unwrap();
    store.put_inverted(Tier::One, 200, &3).unwrap();

    assert_eq!(store.len_inverted(Tier::One).unwrap(), 2);
}

#[test]
fn len_inverted_per_tier_independent() {
    let mut store = Mock::new();

    store.put_inverted(Tier::One, 100, &1).unwrap();
    store.put_inverted(Tier::Two, 200, &2).unwrap();
    store.put_inverted(Tier::Two, 300, &3).unwrap();

    assert_eq!(store.len_inverted(Tier::One).unwrap(), 1);
    assert_eq!(store.len_inverted(Tier::Two).unwrap(), 2);
    assert_eq!(store.len_inverted(Tier::Three).unwrap(), 0);
}

#[test]
fn remove_keeps_other_hashes_in_order_and_drops_every_copy() {
    let mut store = Mock::new();
    for h in [5u64, 7, 5, 9, 5] {
        store.put_inverted(Tier::Three, 1, &h).unwrap();
    }
    store.remove_inverted(Tier::Three, 1, &5).unwrap();
    assert_eq!(store.get_inverted(Tier::Three, 1).unwrap(), vec![7, 9]);
}

#[test]
fn index_error_messages() {
    assert_eq!(IndexError::InvalidSearchOptions.message(), "invalid search options provided");
    assert_eq!(IndexError::KeyNotFound.message(), "key not found");
    assert_eq!(IndexError::InvalidKey.message(), "invalid key");
    assert_eq!(
        IndexError::StorageError("disk".to_string()).message(),
        "storage error: disk"
    );
    assert_eq!(
        IndexError::SerializationError("bad".to_string()).message(),
        "serialization error: bad"
    );
    assert_eq!(
        IndexError::InternalInvariantViolation("x".to_string()).message(),
        "internal invariant violation: x"
    );
}
