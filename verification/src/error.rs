//! Engine-level error type.
use vstd::prelude::*;

verus! {

/// Errors originating from the Engine layer.
#[derive(Debug, Clone)]
pub enum EngineError {
    /// The datatype or extension dependency graph has a cycle.
    CircularDependency { cycle: String },
    /// A datatype was enabled without one of its dependencies.
    DependencyNotMet { ext: String, requires: String },
    /// A datatype with this id is already registered.
    DuplicateDatatype(String),
    /// No datatype with this id is registered.
    DatatypeNotFound(String),
    /// Only built-in datatypes may register hooks on every datatype (`"*"`).
    ExtensionCannotRegisterGlobalHook,
    /// A pre-send hook rejected the write.
    HookRejected(String),
    /// The signer is not a member of the room.
    NotAMember { entity_id: String, room_id: String },
    /// The operation is not permitted.
    PermissionDenied(String),
    /// The extension is not enabled in the room.
    ExtensionDisabled { extension: String, room_id: String },
    /// An annotation key does not have the form `{semantic}:@{entity}`.
    InvalidAnnotationKey(String),
    /// An annotation namespace does not have the form `ext.{id}`.
    InvalidNamespace(String),
    /// Two extensions claim URI patterns that match the same paths.
    UriPathConflict { pattern: String, ext_a: String, ext_b: String },
    /// The operation is declared but has no implementation yet.
    NotImplemented,
    /// A signature did not verify.
    SignatureVerificationFailed(String),
    /// An extension could not be loaded.
    ExtensionLoadFailed { name: String, reason: String },
    /// A protocol-level failure (encoding, envelopes, timestamps).
    Protocol(String),
    /// A storage or network backend failure.
    Backend(String),
}

impl EngineError {
    /// The human-readable description of this error.
    pub open spec fn spec_message(&self) -> Seq<char> {
        match self {
            EngineError::CircularDependency { cycle } => "circular dependency detected: "@ + cycle@,
            EngineError::DependencyNotMet { ext, requires: dep } => "dependency not met: "@ + ext@
                + " requires "@ + dep@,
            EngineError::DuplicateDatatype(id) => "duplicate datatype: "@ + id@,
            EngineError::DatatypeNotFound(id) => "datatype not found: "@ + id@,
            EngineError::ExtensionCannotRegisterGlobalHook => "extensions cannot register global hooks"@,
            EngineError::HookRejected(r) => "hook rejected: "@ + r@,
            EngineError::NotAMember { entity_id, room_id } => "not a member: "@ + entity_id@
                + " is not in room "@ + room_id@,
            EngineError::PermissionDenied(r) => "permission denied: "@ + r@,
            EngineError::ExtensionDisabled { extension, room_id } => "extension disabled: "@
                + extension@ + " in room "@ + room_id@,
            EngineError::InvalidAnnotationKey(r) => "invalid annotation key: "@ + r@,
            EngineError::InvalidNamespace(r) => "invalid namespace: "@ + r@,
            EngineError::UriPathConflict { pattern, ext_a, ext_b } => "URI path conflict: "@
                + pattern@ + " claimed by "@ + ext_a@ + " and "@ + ext_b@,
            EngineError::NotImplemented => "not implemented"@,
            EngineError::SignatureVerificationFailed(r) => "signature verification failed: "@ + r@,
            EngineError::ExtensionLoadFailed { name, reason } => "extension load failed: "@ + name@
                + ": "@ + reason@,
            EngineError::Protocol(r) => "protocol error: "@ + r@,
            EngineError::Backend(r) => "backend error: "@ + r@,
        }
    }

    /// The human-readable description of this error (what `Display` shows).
    pub fn message(&self) -> (m: String)
        ensures
            m@ == self.spec_message(),
    {
        match self {
            EngineError::CircularDependency { cycle } => {
                let mut m = "circular dependency detected: ".to_owned();
                m.append(cycle.as_str());
                m
            },
            EngineError::DependencyNotMet { ext, requires: dep } => {
                let mut m = "dependency not met: ".to_owned();
                m.append(ext.as_str());
                m.append(" requires ");
                m.append(dep.as_str());
                m
            },
            EngineError::DuplicateDatatype(id) => {
                let mut m = "duplicate datatype: ".to_owned();
                m.append(id.as_str());
                m
            },
            EngineError::DatatypeNotFound(id) => {
                let mut m = "datatype not found: ".to_owned();
                m.append(id.as_str());
                m
            },
            EngineError::ExtensionCannotRegisterGlobalHook => {
                "extensions cannot register global hooks".to_owned()
            },
            EngineError::HookRejected(r) => {
                let mut m = "hook rejected: ".to_owned();
                m.append(r.as_str());
                m
            },
            EngineError::NotAMember { entity_id, room_id } => {
                let mut m = "not a member: ".to_owned();
                m.append(entity_id.as_str());
                m.append(" is not in room ");
                m.append(room_id.as_str());
                m
            },
            EngineError::PermissionDenied(r) => {
                let mut m = "permission denied: ".to_owned();
                m.append(r.as_str());
                m
            },
            EngineError::ExtensionDisabled { extension, room_id } => {
                let mut m = "extension disabled: ".to_owned();
                m.append(extension.as_str());
                m.append(" in room ");
                m.append(room_id.as_str());
                m
            },
            EngineError::InvalidAnnotationKey(r) => {
                let mut m = "invalid annotation key: ".to_owned();
                m.append(r.as_str());
                m
            },
            EngineError::InvalidNamespace(r) => {
                let mut m = "invalid namespace: ".to_owned();
                m.append(r.as_str());
                m
            },
            EngineError::UriPathConflict { pattern, ext_a, ext_b } => {
                let mut m = "URI path conflict: ".to_owned();
                m.append(pattern.as_str());
                m.append(" claimed by ");
                m.append(ext_a.as_str());
                m.append(" and ");
                m.append(ext_b.as_str());
                m
            },
            EngineError::NotImplemented => "not implemented".to_owned(),
            EngineError::SignatureVerificationFailed(r) => {
                let mut m = "signature verification failed: ".to_owned();
                m.append(r.as_str());
                m
            },
            EngineError::ExtensionLoadFailed { name, reason } => {
                let mut m = "extension load failed: ".to_owned();
                m.append(name.as_str());
                m.append(": ");
                m.append(reason.as_str());
                m
            },
            EngineError::Protocol(r) => {
                let mut m = "protocol error: ".to_owned();
                m.append(r.as_str());
                m
            },
            EngineError::Backend(r) => {
                let mut m = "backend error: ".to_owned();
                m.append(r.as_str());
                m
            },
        }
    }
}

} // verus!
