use vstd::prelude::*;

verus! {

/// Errors of the Palantir pipeline.
#[derive(Debug)]
pub enum PalantirError {
    /// Chunking failed.
    Chunking(String),
    /// Hashing failed.
    Hashing(String),
    /// A metadata operation failed.
    Metadata(String),
}

/// The message that describes an error.
pub open spec fn palantir_error_message(e: PalantirError) -> Seq<char> {
    match e {
        PalantirError::Chunking(s) => "chunking failed: "@ + s@,
        PalantirError::Hashing(s) => "hashing failed: "@ + s@,
        PalantirError::Metadata(s) => "metadata error: "@ + s@,
    }
}

impl PalantirError {
    /// A human-readable description of the error.
    pub fn message(&self) -> (r: String)
        ensures
            r@ == palantir_error_message(*self),
    {
        let (prefix, detail) = match self {
            PalantirError::Chunking(s) => ("chunking failed: ", s),
            PalantirError::Hashing(s) => ("hashing failed: ", s),
            PalantirError::Metadata(s) => ("metadata error: ", s),
        };
        let mut m = String::from_str(prefix);
        m.append(detail.as_str());
        m
    }
}

} // verus!
