//! Similarity-based chunk deduplication: sketches, a tiered inverted
//! index, super-feature types, a gdelta encoder, clusterers and the Odess
//! hasher.

pub mod sketch;
pub mod index;
pub mod palantir;
pub mod hasher;
pub mod clusterer;
