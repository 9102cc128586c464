//! What extension authors need, in one import.
pub use crate::ext_api::context::RegistrationContext;
pub use crate::ext_api::error::ExtError;
pub use crate::ext_api::manifest::{ExtensionManifest, UriPath};
pub use crate::ext_api::ExtensionPlugin;
