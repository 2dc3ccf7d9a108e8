//! Fixed-size sketches of `u32` super-features and their similarity score.

use vstd::prelude::*;

pub mod feature;
pub mod similarity;

pub use feature::{FixedSketch, Sketch, Sketch2, Sketch3, Sketch6};
pub use similarity::SimilarityScore;

verus! {

/// Why a sketch could not be built.
#[derive(Debug, Clone, PartialEq, Eq, Structural)]
pub enum SketchError {
    /// The sketch would hold no element.
    EmptySketch,
    /// The input holds this value more than once.
    DuplicateElement(u32),
}

} // verus!
