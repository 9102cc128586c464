//! Errors of extension loading, manifest parsing and registration.
use vstd::prelude::*;
use crate::text::{concat2, decimal, u64_to_decimal};

verus! {

/// Errors of extension loading and registration.
#[derive(Debug)]
pub enum ExtError {
    /// The manifest could not be parsed or lacks a required field.
    ManifestParse(String),
    /// The extension failed to register with the engine.
    RegistrationFailed(String),
    /// The extension was built for another engine API version.
    IncompatibleApiVersion { extension: u32, engine: u32 },
}

impl ExtError {
    /// The human-readable description of this error.
    pub open spec fn spec_message(&self) -> Seq<char> {
        match self {
            ExtError::ManifestParse(m) => "manifest parse error: "@ + m@,
            ExtError::RegistrationFailed(m) => "registration failed: "@ + m@,
            ExtError::IncompatibleApiVersion { extension, engine } =>
                "incompatible API version: extension requires "@ + decimal(*extension as nat)
                    + ", engine provides "@ + decimal(*engine as nat),
        }
    }

    /// The human-readable description of this error.
    pub fn message(&self) -> (m: String)
        ensures
            m@ == self.spec_message(),
    {
        match self {
            ExtError::ManifestParse(m) => concat2("manifest parse error: ", m),
            ExtError::RegistrationFailed(m) => concat2("registration failed: ", m),
            ExtError::IncompatibleApiVersion { extension, engine } => {
                let mut s = concat2("incompatible API version: extension requires ", &u64_to_decimal(*extension as u64));
                s.append(", engine provides ");
                s.append(&u64_to_decimal(*engine as u64));
                s
            },
        }
    }
}

} // verus!
