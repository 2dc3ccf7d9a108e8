//! Hashers that compute similarity hashes of chunks.

pub mod odess_hasher;
