//! The Palantir method: tiered super-features, a three-tier similarity
//! index, and gdelta encoding of a chunk against a similar base chunk.

pub mod delta;
pub mod gear;
pub mod encoder;
pub mod bench;
pub mod types;
pub mod palantir_scrubber;
pub mod error;
pub mod mock_rocksdb;
