//! Process exit codes and the mapping of engine errors to them.
use vstd::prelude::*;
use crate::error::EngineError;

verus! {

/// Success.
pub const EXIT_SUCCESS: i32 = 0;
/// A runtime failure (any other engine error).
pub const EXIT_RUNTIME_ERROR: i32 = 1;
/// Invalid arguments.
pub const EXIT_ARG_ERROR: i32 = 2;
/// The relay or peer could not be reached.
pub const EXIT_CONNECTION_FAILED: i32 = 3;
/// Authentication failed, such as a bad signature.
pub const EXIT_AUTH_FAILED: i32 = 4;
/// The operation is not permitted.
pub const EXIT_PERMISSION_DENIED: i32 = 5;

/// The exit code for an engine error: permission errors (including not
/// being a member) give 5, signature failures 4, everything else 1.
pub fn error_to_exit_code(err: &EngineError) -> (code: i32)
    ensures
        code == match err {
            EngineError::PermissionDenied(_) => EXIT_PERMISSION_DENIED,
            EngineError::NotAMember { .. } => EXIT_PERMISSION_DENIED,
            EngineError::SignatureVerificationFailed(_) => EXIT_AUTH_FAILED,
            _ => EXIT_RUNTIME_ERROR,
        },
{
    match err {
        EngineError::PermissionDenied(_) => EXIT_PERMISSION_DENIED,
        EngineError::NotAMember { .. } => EXIT_PERMISSION_DENIED,
        EngineError::SignatureVerificationFailed(_) => EXIT_AUTH_FAILED,
        _ => EXIT_RUNTIME_ERROR,
    }
}

} // verus!
