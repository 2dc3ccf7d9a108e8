//! Core data types of the Palantir pipeline.

use sha2::{Digest, Sha256};
use vstd::prelude::*;

verus! {

/// A chunk of data.
pub struct Chunk {
    data: Vec<u8>,
}

impl View for Chunk {
    type V = Seq<u8>;

    closed spec fn view(&self) -> Seq<u8> {
        self.data@
    }
}

impl Chunk {
    /// A chunk holding `data`.
    pub fn new(data: Vec<u8>) -> (r: Self)
        ensures
            r@ == data@,
    {
        Chunk { data }
    }

    /// The bytes of the chunk.
    pub fn as_bytes(&self) -> (r: &[u8])
        ensures
            r@ == self@,
    {
        self.data.as_slice()
    }
}

/// The SHA-256 digest of a chunk.
#[derive(Debug, Clone, Copy, PartialEq, Eq, Hash)]
pub struct Fingerprint {
    hash: [u8; 32],
}

impl View for Fingerprint {
    type V = Seq<u8>;

    closed spec fn view(&self) -> Seq<u8> {
        self.hash@
    }
}

impl Fingerprint {
    /// A fingerprint with the digest `hash`.
    pub fn new(hash: [u8; 32]) -> (r: Self)
        ensures
            r@ == hash@,
    {
        Fingerprint { hash }
    }

    /// The digest.
    pub fn as_bytes(&self) -> (r: &[u8; 32])
        ensures
            r@ == self@,
    {
        &self.hash
    }
}

/// Computes the fingerprint of a chunk.
pub trait FingerprintGenerator {
    /// The fingerprint of `chunk`.
    fn generate(&self, chunk: &Chunk) -> Fingerprint;
}

/// The SHA-256 digest of `data`, as computed by the `sha2` crate.
pub uninterp spec fn sha256_digest(data: Seq<u8>) -> Seq<u8>;

/// Calls `sha2::Sha256` (new, update, finalize) on `data`. The contract
/// claims only that the 32 bytes returned are a function of `data` alone,
/// named `sha256_digest`.
#[verifier::external_body]
fn sha256(data: &[u8]) -> (r: [u8; 32])
    ensures
        r@ == sha256_digest(data@),
{
    let mut hasher = Sha256::new();
    hasher.update(data);
    let result = hasher.finalize();
    result.into()
}

/// Fingerprints chunks by their SHA-256 digest.
#[derive(Debug, Clone, Copy, Default)]
pub struct Sha256FingerprintGenerator;

impl FingerprintGenerator for Sha256FingerprintGenerator {
    fn generate(&self, chunk: &Chunk) -> (r: Fingerprint)
        ensures
            r@ == sha256_digest(chunk@),
    {
        let hash = sha256(chunk.as_bytes());
        Fingerprint::new(hash)
    }
}

/// A single tiered similarity fingerprint: the tier it belongs to, its
/// hashed value, and the version of the algorithm that produced it.
#[derive(Debug, Clone, Copy, PartialEq, Eq, Hash, Structural)]
pub struct SuperFeature {
    tier_id: u8,
    value: u32,
    version_id: u32,
}

impl View for SuperFeature {
    /// (tier, value, version)
    type V = (u8, u32, u32);

    closed spec fn view(&self) -> (u8, u32, u32) {
        (self.tier_id, self.value, self.version_id)
    }
}

impl SuperFeature {
    /// A super-feature of tier `tier_id` with `value`, made by algorithm
    /// version `version_id`.
    pub fn new(tier_id: u8, value: u32, version_id: u32) -> (r: Self)
        ensures
            r@ == (tier_id, value, version_id),
    {
        SuperFeature { tier_id, value, version_id }
    }

    /// The tier of this super-feature.
    pub fn tier_id(&self) -> (r: u8)
        ensures
            r == self@.0,
    {
        self.tier_id
    }

    /// The hashed value of this super-feature.
    pub fn value(&self) -> (r: u32)
        ensures
            r == self@.1,
    {
        self.value
    }

    /// The version of the algorithm that produced this super-feature.
    pub fn version_id(&self) -> (r: u32)
        ensures
            r == self@.2,
    {
        self.version_id
    }
}

/// Group sizes of the super-feature tiers, coarsest first.
#[derive(Debug, Clone, PartialEq, Eq)]
pub struct TierConfig {
    /// The group size of each tier.
    pub tier_list: Vec<u32>,
}

impl TierConfig {
    /// A configuration with the group sizes `tier_list`.
    pub fn new(tier_list: Vec<u32>) -> (r: Self)
        ensures
            r.tier_list@ == tier_list@,
    {
        TierConfig { tier_list }
    }
}

/// The identity of a chunk: its fingerprint and its super-features.
#[derive(Debug, Clone)]
pub struct ChunkHash {
    /// The content fingerprint.
    pub fingerprint: Fingerprint,
    /// The similarity super-features.
    pub super_features: Vec<SuperFeature>,
}

impl ChunkHash {
    /// A chunk identity from its fingerprint and super-features.
    pub fn new(fingerprint: Fingerprint, super_features: Vec<SuperFeature>) -> (r: Self)
        ensures
            r.fingerprint == fingerprint,
            r.super_features@ == super_features@,
    {
        ChunkHash { fingerprint, super_features }
    }
}

/// Computes the super-features of a chunk.
pub trait SuperFeatureGenerator {
    /// The super-features of `chunk`.
    fn generate(&self, chunk: &Chunk) -> Vec<SuperFeature>;
}

/// Splits data into chunks.
pub trait Chunker {
    /// The chunks of `data`.
    fn chunk(&self, data: &[u8]) -> Vec<Chunk>;
}

/// Computes the identity of a chunk.
pub trait Hasher {
    /// The identity of `chunk`.
    fn hash(&self, chunk: &Chunk) -> ChunkHash;
}

} // verus!
