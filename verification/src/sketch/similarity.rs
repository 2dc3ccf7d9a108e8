use vstd::prelude::*;

verus! {

/// The similarity between two sketches of equal size, kept as the sizes of
/// their intersection and of their union.
#[derive(Clone, Copy, Debug, PartialEq, Eq, Structural)]
pub struct SimilarityScore {
    /// Number of elements present in both sketches.
    pub intersection: usize,
    /// Number of elements present in either sketch.
    pub union: usize,
}

impl SimilarityScore {
    /// Creates the score of two sketches of `size` elements each that share
    /// `intersection` elements: the union is `2 * size - intersection`.
    pub fn new(intersection: usize, size: usize) -> (r: Self)
        requires
            2 * size <= usize::MAX,
            intersection <= 2 * size,
        ensures
            r.intersection == intersection,
            r.union == 2 * size - intersection,
    {
        SimilarityScore { intersection, union: size * 2 - intersection }
    }
}

/// For two sketches of `size` elements sharing at most `size` of them, the
/// union is never smaller than the intersection nor than `size`.
pub proof fn lemma_union_bounds(intersection: usize, size: usize)
    requires
        2 * size <= usize::MAX,
        intersection <= size,
    ensures
        2 * size - intersection >= intersection,
        2 * size - intersection >= size,
{
}

} // verus!
