//! The failure taxonomy shared by collections, the index and the registry.

use vstd::prelude::*;

verus! {

/// Every way a collection, index or registry operation can fail.
/// Each error is reported synchronously to the caller; no operation is
/// retried internally and no batch is partially applied.
#[derive(Clone, Copy, Debug, PartialEq, Eq, Structural)]
pub enum VectorDbError {
    /// The named collection does not exist.
    NotFound,
    /// A collection with the requested name already exists.
    AlreadyExists,
    /// A vector's length differs from the collection's dimension.
    DimensionMismatch,
    /// The batches of ids, vectors and payloads have unequal lengths.
    ArityMismatch,
    /// The index already holds its configured maximum number of elements.
    CapacityExceeded,
    /// A configuration parameter is zero or names no known distance metric.
    InvalidConfig,
}

impl VectorDbError {
    /// A short description, for callers that report errors as text.
    pub fn message(&self) -> (r: &'static str)
        ensures
            r@ =~= self.message_spec(),
    {
        match self {
            VectorDbError::NotFound => "collection not found",
            VectorDbError::AlreadyExists => "collection already exists",
            VectorDbError::DimensionMismatch => "vector dimension mismatch",
            VectorDbError::ArityMismatch => "batch arity mismatch",
            VectorDbError::CapacityExceeded => "index capacity exceeded",
            VectorDbError::InvalidConfig => "invalid collection config",
        }
    }

    /// The text that `message` returns for each variant.
    pub open spec fn message_spec(self) -> Seq<char> {
        match self {
            VectorDbError::NotFound => "collection not found"@,
            VectorDbError::AlreadyExists => "collection already exists"@,
            VectorDbError::DimensionMismatch => "vector dimension mismatch"@,
            VectorDbError::ArityMismatch => "batch arity mismatch"@,
            VectorDbError::CapacityExceeded => "index capacity exceeded"@,
            VectorDbError::InvalidConfig => "invalid collection config"@,
        }
    }
}

} // verus!
