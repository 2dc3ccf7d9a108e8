use marline::sketch::SimilarityScore;

#[test]
fn new_computes_union() {
    let score = SimilarityScore::new(78, 52);
    assert_eq!(score.union, 26);
}

#[test]
fn new_full_overlap() {
    let score = SimilarityScore::new(100, 100);
    assert_eq!(score.intersection, 100);
    assert_eq!(score.union, 100);
}

#[test]
fn new_zero_intersection() {
    let score = SimilarityScore::new(0, 50);
    assert_eq!(score.intersection, 0);
    assert_eq!(score.union, 100);
}

#[test]
fn new_partial_overlap_of_six() {
    let score = SimilarityScore::new(3, 6);
    assert_eq!(score.intersection, 3);
    assert_eq!(score.union, 9);
}
