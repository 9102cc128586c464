//! The extension plugin interface: manifests, the registration context,
//! errors and the trait that extensions implement.
pub mod error;
pub mod context;
pub mod manifest;
pub mod prelude;

use vstd::prelude::*;
use crate::ext_api::context::RegistrationContext;
use crate::ext_api::error::ExtError;
use crate::ext_api::manifest::ExtensionManifest;

verus! {

/// What an extension provides: its manifest, and the registration of its
/// datatypes and hooks into a context.
pub trait ExtensionPlugin {
    /// The extension's parsed manifest.
    fn manifest(&self) -> &ExtensionManifest;

    /// Registers the extension's datatypes and hooks; called once while the
    /// extension is loaded.
    fn register(&self, ctx: &mut RegistrationContext) -> Result<(), ExtError>;
}

} // verus!
