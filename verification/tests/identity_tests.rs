use ezagent::builtins::identity::{
    check_timestamp, envelope_input, mark_signature_verified, signer_key, verification_key, PublicKeyCache,
    TIMESTAMP_TOLERANCE_MS,
};
use ezagent::error::EngineError;
use ezagent::hooks::phase::{HookContext, TriggerEvent};
use ezagent::json::JsonValue;

fn ctx_with_signer(signer: Option<&str>) -> HookContext {
    let mut ctx = HookContext::new("message".to_string(), TriggerEvent::Insert);
    ctx.signer_id = signer.map(|s| s.to_string());
    ctx
}

fn data_get<'a>(ctx: &'a HookContext, key: &str) -> Option<&'a JsonValue> {
    ctx.data.iter().find(|(k, _)| k == key).map(|(_, v)| v)
}

#[test]
fn pubkey_cache_insert_get() {
    let mut cache = PublicKeyCache::new();
    let pk_alice = [1u8; 32];
    let pk_bob = [2u8; 32];

    assert!(cache.get("@alice:relay.com").is_none());
    assert!(cache.get("@bob:relay.com").is_none());

    cache.insert("@alice:relay.com", pk_alice);
    assert_eq!(cache.get("@alice:relay.com"), Some(pk_alice));
    assert!(cache.get("@bob:relay.com").is_none());

    cache.insert("@bob:relay.com", pk_bob);
    assert_eq!(cache.get("@alice:relay.com"), Some(pk_alice));
    assert_eq!(cache.get("@bob:relay.com"), Some(pk_bob));

    let pk_bob2 = [3u8; 32];
    cache.insert("@bob:relay.com", pk_bob2);
    assert_eq!(cache.get("@bob:relay.com"), Some(pk_bob2));
    assert_ne!(cache.get("@bob:relay.com"), Some(pk_bob));
}

#[test]
fn envelope_input_takes_signer_doc_and_string_payload() {
    let mut ctx = ctx_with_signer(Some("@alice:relay.com"));
    ctx.data.push(("payload".to_string(), JsonValue::Str("hello world".to_string())));
    ctx.data.push(("doc_id".to_string(), JsonValue::Str("rooms/abc/messages".to_string())));
    let input = envelope_input(&ctx).unwrap();
    assert_eq!(input.signer_id, "@alice:relay.com");
    assert_eq!(input.doc_id, "rooms/abc/messages");
    assert_eq!(input.payload, b"hello world".to_vec());
}

#[test]
fn envelope_input_payload_encodes_utf8() {
    let mut ctx = ctx_with_signer(Some("@alice:relay.com"));
    ctx.data.push(("payload".to_string(), JsonValue::Str("é".to_string())));
    let input = envelope_input(&ctx).unwrap();
    assert_eq!(input.payload, vec![0xC3, 0xA9]);
    assert_eq!(input.doc_id, "");
}

#[test]
fn envelope_input_number_array_payload() {
    let mut ctx = ctx_with_signer(Some("@alice:relay.com"));
    let items = vec![
        JsonValue::Number(1),
        JsonValue::Number(300),
        JsonValue::Number(-1),
        JsonValue::Str("x".to_string()),
        JsonValue::Number(255),
    ];
    ctx.data.push(("payload".to_string(), JsonValue::Array(items)));
    let input = envelope_input(&ctx).unwrap();
    assert_eq!(input.payload, vec![1u8, 44, 255]);
}

#[test]
fn envelope_input_other_payload_is_empty() {
    let mut ctx = ctx_with_signer(Some("@alice:relay.com"));
    ctx.data.push(("payload".to_string(), JsonValue::Bool(true)));
    assert!(envelope_input(&ctx).unwrap().payload.is_empty());
    let ctx = ctx_with_signer(Some("@alice:relay.com"));
    assert!(envelope_input(&ctx).unwrap().payload.is_empty());
}

#[test]
fn envelope_input_requires_signer() {
    let ctx = ctx_with_signer(None);
    match envelope_input(&ctx) {
        Err(EngineError::PermissionDenied(m)) => assert_eq!(m, "no signer_id in context"),
        _ => panic!("expected PermissionDenied"),
    }
}

#[test]
fn verification_key_found_for_known_signer() {
    let mut cache = PublicKeyCache::new();
    cache.insert("@alice:relay.com", [9u8; 32]);
    let ctx = ctx_with_signer(Some("@alice:relay.com"));
    assert_eq!(verification_key(&ctx, &cache).unwrap(), [9u8; 32]);
}

#[test]
fn verification_key_missing_pubkey() {
    let cache = PublicKeyCache::new();
    let ctx = ctx_with_signer(Some("@alice:relay.com"));
    let err = verification_key(&ctx, &cache).unwrap_err();
    let msg = err.message();
    assert!(msg.contains("no public key"), "got: {msg}");
    match err {
        EngineError::PermissionDenied(m) => assert_eq!(m, "no public key for @alice:relay.com"),
        _ => panic!("expected PermissionDenied"),
    }
}

#[test]
fn verification_key_requires_signer() {
    let cache = PublicKeyCache::new();
    let ctx = ctx_with_signer(None);
    match verification_key(&ctx, &cache) {
        Err(EngineError::PermissionDenied(m)) => assert_eq!(m, "no signer_id for verification"),
        _ => panic!("expected PermissionDenied"),
    }
}

#[test]
fn timestamp_tolerance_is_five_minutes() {
    assert_eq!(TIMESTAMP_TOLERANCE_MS, 5 * 60 * 1000);
    let now: i64 = 1_700_000_000_000;
    assert!(check_timestamp(now, now).is_ok());
    assert!(check_timestamp(now, now - 300_000).is_ok());
    assert!(check_timestamp(now, now + 300_000).is_ok());
    assert_eq!(check_timestamp(now, now - 300_001), Err(300_001));
    assert_eq!(check_timestamp(now, now - 6 * 60 * 1000), Err(360_000));
    assert_eq!(check_timestamp(now, now + 400_000), Err(400_000));
}

#[test]
fn timestamp_extremes_do_not_overflow() {
    assert_eq!(check_timestamp(i64::MAX, i64::MIN), Err(u64::MAX));
    assert_eq!(check_timestamp(i64::MIN, i64::MAX), Err(u64::MAX));
}

#[test]
fn mark_signature_verified_sets_flag() {
    let mut ctx = ctx_with_signer(Some("@alice:relay.com"));
    ctx.data.push(("doc_id".to_string(), JsonValue::Str("doc/1".to_string())));
    mark_signature_verified(&mut ctx);
    assert!(matches!(data_get(&ctx, "signature_verified"), Some(JsonValue::Bool(true))));
    assert!(matches!(data_get(&ctx, "doc_id"), Some(JsonValue::Str(s)) if s == "doc/1"));
}

#[test]
fn sign_envelope_no_signer_id_fails() {
    let ctx = HookContext::new("message".to_string(), TriggerEvent::Insert);
    let result = envelope_input(&ctx);
    assert!(result.is_err());
    let err_msg = match result {
        Err(e) => e.message(),
        Ok(_) => unreachable!(),
    };
    assert!(err_msg.contains("no signer_id"));
}

#[test]
fn verify_signature_no_signer_id_fails() {
    let cache = PublicKeyCache::new();
    let ctx = HookContext::new("message".to_string(), TriggerEvent::Insert);
    let result = verification_key(&ctx, &cache);
    assert!(result.is_err());
    let err_msg = result.unwrap_err().message();
    assert!(err_msg.contains("no signer_id"));
}

#[test]
fn sign_envelope_empty_payload() {
    let mut ctx = HookContext::new("identity".to_string(), TriggerEvent::Insert);
    ctx.signer_id = Some("@bob:relay.io".to_string());
    let input = envelope_input(&ctx).unwrap();
    assert_eq!(input.signer_id, "@bob:relay.io");
    assert_eq!(input.doc_id, "");
    assert!(input.payload.is_empty());
}

#[test]
fn signer_key_looks_up_the_envelope_signer() {
    let mut cache = PublicKeyCache::new();
    cache.insert("@alice:relay.com", [4u8; 32]);
    assert_eq!(signer_key(&cache, "@alice:relay.com").unwrap(), [4u8; 32]);
    match signer_key(&cache, "@mallory:relay.com") {
        Err(EngineError::PermissionDenied(m)) => assert_eq!(m, "no public key for @mallory:relay.com"),
        _ => panic!("expected PermissionDenied"),
    }
}
