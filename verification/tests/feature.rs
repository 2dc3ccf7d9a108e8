use marline::sketch::{FixedSketch, Sketch, Sketch2, Sketch3, Sketch6, SketchError};

#[test]
fn new_sorts_unsorted_input() {
    let s = FixedSketch::<3>::new([30, 10, 20]).unwrap();
    assert_eq!(s.as_array(), &[10, 20, 30]);
}

#[test]
fn new_preserves_already_sorted() {
    let s = FixedSketch::<3>::new([10, 20, 30]).unwrap();
    assert_eq!(s.as_array(), &[10, 20, 30]);
}

#[test]
fn new_rejects_duplicates() {
    let err = FixedSketch::<3>::new([1, 2, 2]).unwrap_err();
    assert_eq!(err, SketchError::DuplicateElement(2));
}

#[test]
fn new_different_permutations_equal() {
    let a = FixedSketch::<6>::new([60, 10, 30, 20, 50, 40]).unwrap();
    let b = FixedSketch::<6>::new([40, 50, 60, 10, 20, 30]).unwrap();
    assert_eq!(a, b);
}

#[test]
fn new_rejects_empty() {
    let err = FixedSketch::<0>::new([]).unwrap_err();
    assert_eq!(err, SketchError::EmptySketch);
}

#[test]
fn as_array_returns_sorted() {
    let s = FixedSketch::<3>::new([30, 10, 20]).unwrap();
    assert_eq!(s.as_array(), &[10, 20, 30]);
}

#[test]
fn as_slice_matches_as_array() {
    let s = FixedSketch::<3>::new([30, 10, 20]).unwrap();
    assert_eq!(s.as_slice(), s.as_array() as &[u32]);
}

#[test]
fn len_returns_n() {
    assert_eq!(Sketch6::new([1, 2, 3, 4, 5, 6]).unwrap().len(), 6);
    assert_eq!(Sketch3::new([1, 2, 3]).unwrap().len(), 3);
    assert_eq!(Sketch2::new([1, 2]).unwrap().len(), 2);
}

#[test]
fn is_empty_for_non_empty() {
    assert!(!Sketch6::new([1, 2, 3, 4, 5, 6]).unwrap().is_empty());
}

#[test]
fn iter_returns_all_elements() {
    let s = FixedSketch::<3>::new([30, 10, 20]).unwrap();
    let collected: Vec<u32> = s.iter();
    assert_eq!(collected, vec![10, 20, 30]);
}

#[test]
fn contains_present_value() {
    let s = FixedSketch::<6>::new([10, 20, 30, 40, 50, 60]).unwrap();
    assert!(s.contains(30));
}

#[test]
fn contains_absent_value() {
    let s = FixedSketch::<6>::new([10, 20, 30, 40, 50, 60]).unwrap();
    assert!(!s.contains(99));
}

#[test]
fn full_intersection() {
    let a = FixedSketch::<6>::new([10, 20, 30, 40, 50, 60]).unwrap();
    let b = FixedSketch::<6>::new([10, 20, 30, 40, 50, 60]).unwrap();
    assert_eq!(a.intersection_size(&b), 6);
}

#[test]
fn partial_intersection() {
    let a = FixedSketch::<6>::new([10, 20, 30, 40, 50, 60]).unwrap();
    let b = FixedSketch::<6>::new([10, 20, 30, 70, 80, 90]).unwrap();
    assert_eq!(a.intersection_size(&b), 3);
}

#[test]
fn zero_intersection() {
    let a = FixedSketch::<3>::new([10, 20, 30]).unwrap();
    let b = FixedSketch::<3>::new([40, 50, 60]).unwrap();
    assert_eq!(a.intersection_size(&b), 0);
}

#[test]
fn self_intersection() {
    let a = FixedSketch::<6>::new([10, 20, 30, 40, 50, 60]).unwrap();
    assert_eq!(a.intersection_size(&a), 6);
}

#[test]
fn intersection_is_commutative() {
    let a = FixedSketch::<6>::new([10, 20, 30, 40, 50, 60]).unwrap();
    let b = FixedSketch::<6>::new([10, 20, 30, 70, 80, 90]).unwrap();
    assert_eq!(a.intersection_size(&b), b.intersection_size(&a));
}

#[test]
fn new_reports_smallest_duplicate() {
    let err = FixedSketch::<6>::new([9, 4, 9, 7, 4, 1]).unwrap_err();
    assert_eq!(err, SketchError::DuplicateElement(4));
}

#[test]
fn intersection_of_interleaved_sketches() {
    let a = FixedSketch::<4>::new([1, 3, 5, 7]).unwrap();
    let b = FixedSketch::<4>::new([2, 3, 4, 7]).unwrap();
    assert_eq!(a.intersection_size(&b), 2);
    assert_eq!(b.intersection_size(&a), 2);
}

#[test]
fn extreme_values_sort() {
    let s = FixedSketch::<3>::new([u32::MAX, 0, 7]).unwrap();
    assert_eq!(s.as_array(), &[0, 7, u32::MAX]);
    assert!(s.contains(u32::MAX));
    assert!(s.contains(0));
}
