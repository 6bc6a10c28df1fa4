//! Error taxonomy shared by the whole pipeline.

use vstd::prelude::*;

verus! {

/// Errors surfaced by the search core.
///
/// `InvalidConfig` is unrecoverable at startup; `NotFound` covers missing
/// tables, keys and the absent active vector index; `Operation` covers
/// runtime failures such as a provider error for a batch.
#[derive(Debug, Clone, PartialEq, Eq)]
pub enum Error {
    InvalidConfig(String),
    NotFound(String),
    Operation(String),
}

impl Error {
    /// A short human-readable rendering of the error.
    pub fn message(&self) -> (r: String)
        ensures
            r@ == self.message_spec(),
    {
        match self {
            Error::InvalidConfig(s) => String::from_str("Invalid configuration: ").concat(
                s.as_str(),
            ),
            Error::NotFound(s) => String::from_str("Not found: ").concat(s.as_str()),
            Error::Operation(s) => String::from_str("Operation failed: ").concat(s.as_str()),
        }
    }

    pub open spec fn message_spec(&self) -> Seq<char> {
        match self {
            Error::InvalidConfig(s) => "Invalid configuration: "@ + s@,
            Error::NotFound(s) => "Not found: "@ + s@,
            Error::Operation(s) => "Operation failed: "@ + s@,
        }
    }
}

} // verus!
