//! Annotation pattern validation.
//!
//! An annotation key has the form `{semantic}:{entity_id}`: it is split at its
//! first `:`, the semantic part must be non-empty and the entity id (which may
//! itself hold colons, as in `@bob:relay-a.example.com`) must start with `@`.
//! A writer may only touch keys that carry its own entity id, and annotation
//! namespaces have the form `ext.{ext_id}`.
use vstd::prelude::*;
use crate::error::EngineError;
use crate::text::{chars_of, chars_start_with, concat3, find_char, first_index_of, is_prefix, str_eq, string_from_range};

verus! {

/// The `(semantic, entity_id)` parts of a well-formed annotation key, or
/// `None` when the key has no `:`, an empty semantic part, or an entity id
/// that does not start with `@`.
pub open spec fn annotation_key_parts(key: Seq<char>) -> Option<(Seq<char>, Seq<char>)> {
    match first_index_of(key, ':') {
        None => None,
        Some(i) => {
            let semantic = key.subrange(0, i);
            let entity = key.subrange(i + 1, key.len() as int);
            if semantic.len() == 0 || entity.len() == 0 || entity[0] != '@' {
                None
            } else {
                Some((semantic, entity))
            }
        },
    }
}

/// Validate that an annotation key follows the format `{semantic}:{entity_id}`
/// and return its `(semantic, entity_id)` parts.
pub fn validate_annotation_key(key: &str) -> (r: Result<(String, String), EngineError>)
    ensures
        r is Ok <==> annotation_key_parts(key@) is Some,
        r matches Ok((s, e)) ==> annotation_key_parts(key@) == Some((s@, e@)),
        r matches Err(err) ==> err is InvalidAnnotationKey,
        first_index_of(key@, ':') is None ==> (r matches Err(EngineError::InvalidAnnotationKey(m))
            && m@ == "key must contain ':' separator, got '"@ + key@ + "'"@),
{
    let k = chars_of(key);
    let pos = match find_char(k.as_slice(), ':') {
        Some(p) => p,
        None => {
            return Err(EngineError::InvalidAnnotationKey(
                concat3("key must contain ':' separator, got '", key, "'"),
            ));
        },
    };
    assert(pos < k.len());
    let semantic = string_from_range(k.as_slice(), 0, pos);
    let entity = string_from_range(k.as_slice(), pos + 1, k.len());
    if pos == 0 {
        return Err(EngineError::InvalidAnnotationKey(
            "semantic part must not be empty".to_owned(),
        ));
    }
    if pos + 1 == k.len() || k[pos + 1] != '@' {
        proof {
            if pos + 1 < k@.len() {
                assert(entity@[0] == k@[pos + 1]);
            }
        }
        return Err(EngineError::InvalidAnnotationKey(
            concat3("entity_id must start with '@', got '", entity.as_str(), "'"),
        ));
    }
    assert(entity@[0] == k@[pos + 1]);
    Ok((semantic, entity))
}

/// Whether `signer` may write the annotation `key`: the key is well formed
/// and its entity id is exactly the signer.
pub open spec fn annotation_writer_allowed(key: Seq<char>, signer: Seq<char>) -> bool {
    annotation_key_parts(key) matches Some((_, e)) && e == signer
}

/// Check that `signer_entity_id` may write the annotation `key`.
///
/// Fails with `InvalidAnnotationKey` when the key is malformed and with
/// `PermissionDenied` when the key names another entity.
pub fn check_annotation_writer(key: &str, signer_entity_id: &str) -> (r: Result<(), EngineError>)
    ensures
        r is Ok <==> annotation_writer_allowed(key@, signer_entity_id@),
        r matches Err(e) ==> (e is InvalidAnnotationKey <==> annotation_key_parts(key@) is None),
        r matches Err(e) ==> (e is InvalidAnnotationKey || e is PermissionDenied),
{
    let (_semantic, entity_id) = validate_annotation_key(key)?;
    if !str_eq(entity_id.as_str(), signer_entity_id) {
        let mut m = "signer '".to_owned();
        m.append(signer_entity_id);
        m.append("' cannot write annotation key for entity '");
        m.append(entity_id.as_str());
        m.append("'");
        return Err(EngineError::PermissionDenied(m));
    }
    Ok(())
}

/// The extension id of an annotation namespace `ext.{ext_id}`, or `None`
/// when the namespace lacks the `ext.` prefix or the id after it is empty.
pub open spec fn namespace_ext_id(ns: Seq<char>) -> Option<Seq<char>> {
    if is_prefix("ext."@, ns) && ns.len() > "ext."@.len() {
        Some(ns.subrange("ext."@.len() as int, ns.len() as int))
    } else {
        None
    }
}

/// Validate an annotation namespace prefix such as `"ext.reactions"` and
/// return the extension id after `"ext."`.
pub fn validate_namespace(namespace: &str) -> (r: Result<String, EngineError>)
    ensures
        r is Ok <==> namespace_ext_id(namespace@) is Some,
        r matches Ok(id) ==> namespace_ext_id(namespace@) == Some(id@),
        r matches Err(e) ==> e is InvalidNamespace,
{
    let ns = chars_of(namespace);
    let prefix = chars_of("ext.");
    if !chars_start_with(ns.as_slice(), prefix.as_slice()) {
        return Err(EngineError::InvalidNamespace(
            concat3("namespace must start with 'ext.', got '", namespace, "'"),
        ));
    }
    if ns.len() == prefix.len() {
        return Err(EngineError::InvalidNamespace(
            "extension id after 'ext.' must not be empty".to_owned(),
        ));
    }
    Ok(string_from_range(ns.as_slice(), prefix.len(), ns.len()))
}

} // verus!
