//! Errors of the storage and network backends.
use vstd::prelude::*;
use crate::text::concat2;

verus! {

/// Why a backend operation failed.
#[derive(Debug)]
pub enum BackendError {
    /// A CRDT operation failed.
    Crdt(String),
    /// A network operation failed.
    Network(String),
    /// No document has the requested id.
    DocNotFound(String),
    /// Encoding or decoding failed.
    Serialization(String),
}

impl BackendError {
    /// The human-readable description of this error.
    pub open spec fn spec_message(&self) -> Seq<char> {
        match self {
            BackendError::Crdt(m) => "CRDT error: "@ + m@,
            BackendError::Network(m) => "network error: "@ + m@,
            BackendError::DocNotFound(m) => "document not found: "@ + m@,
            BackendError::Serialization(m) => "serialization error: "@ + m@,
        }
    }

    /// The human-readable description of this error.
    pub fn message(&self) -> (s: String)
        ensures
            s@ == self.spec_message(),
    {
        match self {
            BackendError::Crdt(m) => concat2("CRDT error: ", m),
            BackendError::Network(m) => concat2("network error: ", m),
            BackendError::DocNotFound(m) => concat2("document not found: ", m),
            BackendError::Serialization(m) => concat2("serialization error: ", m),
        }
    }
}

} // verus!
