//! The context through which an extension registers its datatypes and hooks.
use vstd::prelude::*;
use crate::ext_api::error::ExtError;
use crate::text::copy_str;

verus! {

/// The engine API version; extensions must declare the same one.
pub const ENGINE_API_VERSION: u32 = 1;

/// The symbol the engine looks up in an extension library.
pub const ENTRY_SYMBOL: &'static str = "ezagent_ext_register";

/// Collects the datatype and hook declarations (as JSON text) that an
/// extension registers, and the last registration error.
pub struct RegistrationContext {
    datatype_jsons: Vec<String>,
    hook_jsons: Vec<String>,
    last_error: Option<ExtError>,
}

impl RegistrationContext {
    /// The registered datatype declarations, in order.
    pub closed spec fn datatypes_view(&self) -> Seq<Seq<char>> {
        self.datatype_jsons.deep_view()
    }

    /// The registered hook declarations, in order.
    pub closed spec fn hooks_view(&self) -> Seq<Seq<char>> {
        self.hook_jsons.deep_view()
    }

    /// The last recorded error.
    pub closed spec fn error_view(&self) -> Option<ExtError> {
        self.last_error
    }

    /// An empty context.
    pub fn new() -> (c: RegistrationContext)
        ensures
            c.datatypes_view().len() == 0,
            c.hooks_view().len() == 0,
            c.error_view() is None,
    {
        RegistrationContext { datatype_jsons: Vec::new(), hook_jsons: Vec::new(), last_error: None }
    }

    /// Registers a datatype declaration; empty text is refused.
    pub fn register_datatype_json(&mut self, json: &str) -> (r: Result<(), ExtError>)
        ensures
            json@.len() == 0 ==> {
                &&& r matches Err(ExtError::RegistrationFailed(m)) && m@ == "datatype JSON must not be empty"@
                &&& final(self).datatypes_view() == old(self).datatypes_view()
            },
            json@.len() > 0 ==> {
                &&& r is Ok
                &&& final(self).datatypes_view() == old(self).datatypes_view().push(json@)
            },
            final(self).hooks_view() == old(self).hooks_view(),
            final(self).error_view() == old(self).error_view(),
    {
        if json.unicode_len() == 0 {
            return Err(ExtError::RegistrationFailed(copy_str("datatype JSON must not be empty")));
        }
        self.datatype_jsons.push(copy_str(json));
        assert(self.datatype_jsons.deep_view() =~= old(self).datatype_jsons.deep_view().push(json@));
        Ok(())
    }

    /// Registers a hook declaration; empty text is refused.
    pub fn register_hook_json(&mut self, json: &str) -> (r: Result<(), ExtError>)
        ensures
            json@.len() == 0 ==> {
                &&& r matches Err(ExtError::RegistrationFailed(m)) && m@ == "hook JSON must not be empty"@
                &&& final(self).hooks_view() == old(self).hooks_view()
            },
            json@.len() > 0 ==> {
                &&& r is Ok
                &&& final(self).hooks_view() == old(self).hooks_view().push(json@)
            },
            final(self).datatypes_view() == old(self).datatypes_view(),
            final(self).error_view() == old(self).error_view(),
    {
        if json.unicode_len() == 0 {
            return Err(ExtError::RegistrationFailed(copy_str("hook JSON must not be empty")));
        }
        self.hook_jsons.push(copy_str(json));
        assert(self.hook_jsons.deep_view() =~= old(self).hook_jsons.deep_view().push(json@));
        Ok(())
    }

    /// The registered datatype declarations.
    pub fn datatype_jsons(&self) -> (r: &[String])
        ensures
            r.deep_view() == self.datatypes_view(),
    {
        self.datatype_jsons.as_slice()
    }

    /// The registered hook declarations.
    pub fn hook_jsons(&self) -> (r: &[String])
        ensures
            r.deep_view() == self.hooks_view(),
    {
        self.hook_jsons.as_slice()
    }

    /// The last recorded registration error, if any.
    pub fn last_error(&self) -> (r: Option<&ExtError>)
        ensures
            match r {
                Some(e) => self.error_view() == Some(*e),
                None => self.error_view() is None,
            },
    {
        match &self.last_error {
            Some(e) => Some(e),
            None => None,
        }
    }

    /// Records a registration error.
    pub fn set_error(&mut self, error: ExtError)
        ensures
            final(self).error_view() == Some(error),
            final(self).datatypes_view() == old(self).datatypes_view(),
            final(self).hooks_view() == old(self).hooks_view(),
    {
        self.last_error = Some(error);
    }
}

impl Default for RegistrationContext {
    /// An empty context.
    fn default() -> (c: RegistrationContext)
        ensures
            c.datatypes_view().len() == 0,
            c.hooks_view().len() == 0,
            c.error_view() is None,
    {
        RegistrationContext::new()
    }
}

} // verus!
