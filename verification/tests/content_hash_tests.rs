use ezagent::builtins::message::{canonical_json, compute_content_hash_hook, content_hash, resolve_content_hook, MessageContent};
use ezagent::hooks::executor::HookHandler;
use ezagent::hooks::phase::{HookContext, HookPhase, TriggerEvent};
use ezagent::json::JsonValue;

fn sample_content(author: &str, body: &str) -> MessageContent {
    MessageContent {
        content_id: String::new(),
        content_type: "immutable".to_string(),
        author: author.to_string(),
        body: JsonValue::Str(body.to_string()),
        format: "text/plain".to_string(),
        media_refs: vec![],
        created_at: "2026-03-01T12:00:00Z".to_string(),
        signature: None,
    }
}

fn to_serde(v: &JsonValue) -> serde_json::Value {
    match v {
        JsonValue::Null => serde_json::Value::Null,
        JsonValue::Bool(b) => serde_json::Value::Bool(*b),
        JsonValue::Number(n) => serde_json::Value::from(*n),
        JsonValue::Str(s) => serde_json::Value::String(s.clone()),
        JsonValue::Array(items) => serde_json::Value::Array(items.iter().map(to_serde).collect()),
        JsonValue::Object(fields) => {
            let mut map = serde_json::Map::new();
            for (k, v) in fields {
                map.insert(k.clone(), to_serde(v));
            }
            serde_json::Value::Object(map)
        }
    }
}

fn serde_canonical(c: &MessageContent, body: serde_json::Value) -> Vec<u8> {
    let mut map = serde_json::Map::new();
    map.insert("author".to_string(), serde_json::Value::String(c.author.clone()));
    map.insert("body".to_string(), body);
    map.insert("content_type".to_string(), serde_json::Value::String(c.content_type.clone()));
    map.insert("created_at".to_string(), serde_json::Value::String(c.created_at.clone()));
    map.insert("format".to_string(), serde_json::Value::String(c.format.clone()));
    map.insert(
        "media_refs".to_string(),
        serde_json::Value::Array(c.media_refs.iter().map(|s| serde_json::Value::String(s.clone())).collect()),
    );
    serde_json::to_vec(&serde_json::Value::Object(map)).unwrap()
}

#[test]
fn tc_1_msg_001_content_hash_determinism() {
    let msg_a = sample_content("@alice:relay.com", "Hello, world!");
    let msg_b = sample_content("@alice:relay.com", "Hello, world!");
    let hash_a = msg_a.compute_hash();
    let hash_b = msg_b.compute_hash();
    assert_eq!(hash_a, hash_b, "identical content must produce the same hash");
    assert_eq!(hash_a.len(), 64, "SHA-256 hex digest must be 64 characters");
    assert!(hash_a.chars().all(|c| c.is_ascii_hexdigit()), "hash must contain only hex digits");

    let msg_c = sample_content("@alice:relay.com", "Goodbye, world!");
    assert_ne!(hash_a, msg_c.compute_hash(), "different body must produce a different hash");

    let msg_d = sample_content("@bob:relay.com", "Hello, world!");
    assert_ne!(hash_a, msg_d.compute_hash(), "different author must produce a different hash");

    let mut msg_e = sample_content("@alice:relay.com", "Hello, world!");
    msg_e.created_at = "2026-03-02T00:00:00Z".to_string();
    assert_ne!(hash_a, msg_e.compute_hash(), "different created_at must produce a different hash");
}

#[test]
fn tc_1_msg_002_compute_hash_hook() {
    let (decl, handler) = compute_content_hash_hook();
    assert_eq!(decl.id, "message.compute_content_hash");
    assert_eq!(decl.phase, HookPhase::PreSend);
    assert_eq!(decl.trigger_datatype, "immutable_content");
    assert_eq!(decl.trigger_event, TriggerEvent::Insert);
    assert_eq!(decl.priority, 20);
    assert_eq!(decl.source, "message");

    let mut ctx = HookContext::new("immutable_content".to_string(), TriggerEvent::Insert);
    ctx.signer_id = Some("@alice:relay.com".to_string());
    ctx.room_id = Some("R-alpha".to_string());
    let s = |v: &str| JsonValue::Str(v.to_string());
    ctx.data.push(("author".to_string(), s("@alice:relay.com")));
    ctx.data.push(("body".to_string(), s("Hello from Alice")));
    ctx.data.push(("content_type".to_string(), s("immutable")));
    ctx.data.push(("format".to_string(), s("text/plain")));
    ctx.data.push(("media_refs".to_string(), JsonValue::Array(Vec::new())));
    ctx.data.push(("created_at".to_string(), s("2026-03-01T12:00:00Z")));

    let result = handler.call(&mut ctx);
    assert!(result.is_ok(), "compute_content_hash hook should succeed");
    let hash_str = match ctx.data.iter().find(|(k, _)| k == "content_id").map(|(_, v)| v) {
        Some(JsonValue::Str(h)) => h.clone(),
        _ => panic!("content_id must be set by hook"),
    };
    assert_eq!(hash_str.len(), 64, "SHA-256 hex digest must be 64 characters");

    let expected_content = sample_content("@alice:relay.com", "Hello from Alice");
    assert_eq!(hash_str, expected_content.compute_hash(), "hook-computed hash must match compute_hash()");
}

#[test]
fn compute_hash_hook_uses_defaults() {
    let (_decl, handler) = compute_content_hash_hook();
    let mut ctx = HookContext::new("immutable_content".to_string(), TriggerEvent::Insert);
    handler.call(&mut ctx).unwrap();
    let c = MessageContent {
        content_id: String::new(),
        content_type: "immutable".to_string(),
        author: String::new(),
        body: JsonValue::Null,
        format: "text/plain".to_string(),
        media_refs: vec![],
        created_at: String::new(),
        signature: None,
    };
    assert!(matches!(
        ctx.data.iter().find(|(k, _)| k == "content_id").map(|(_, v)| v),
        Some(JsonValue::Str(h)) if *h == c.compute_hash()
    ));
}

#[test]
fn canonical_form_matches_serde_json() {
    let mut c = sample_content("@alice:relay.com", "quote \" backslash \\ tab \t nl \n ctrl \u{1} é ✓");
    c.media_refs = vec!["blob:a".to_string(), "b\"c".to_string()];
    let body = JsonValue::Object(vec![
        ("z".to_string(), JsonValue::Number(-42)),
        ("a".to_string(), JsonValue::Array(vec![JsonValue::Null, JsonValue::Bool(true), JsonValue::Number(7)])),
        ("m".to_string(), JsonValue::Object(vec![("y".to_string(), JsonValue::Bool(false)), ("b".to_string(), JsonValue::Str("x".to_string()))])),
    ]);
    let serde_body = to_serde(&body);
    let text = canonical_json(&c.author, &body, &c.content_type, &c.created_at, &c.format, &c.media_refs);
    c.body = body;
    assert_eq!(text.as_bytes(), serde_canonical(&c, serde_body).as_slice());
    assert_eq!(c.compute_hash(), content_hash(text.as_bytes()));
}

#[test]
fn canonical_form_of_string_body() {
    let c = sample_content("@alice:relay.com", "Hello, world!");
    let text = canonical_json(&c.author, &c.body, &c.content_type, &c.created_at, &c.format, &c.media_refs);
    assert_eq!(
        text,
        "{\"author\":\"@alice:relay.com\",\"body\":\"Hello, world!\",\"content_type\":\"immutable\",\"created_at\":\"2026-03-01T12:00:00Z\",\"format\":\"text/plain\",\"media_refs\":[]}"
    );
    assert_eq!(text.as_bytes(), serde_canonical(&c, serde_json::Value::String("Hello, world!".to_string())).as_slice());
}

fn content_json(c: &MessageContent) -> JsonValue {
    let s = |v: &str| JsonValue::Str(v.to_string());
    JsonValue::Object(vec![
        ("content_id".to_string(), s(&c.content_id)),
        ("content_type".to_string(), s(&c.content_type)),
        ("author".to_string(), s(&c.author)),
        ("body".to_string(), match &c.body {
            JsonValue::Str(b) => s(b),
            _ => JsonValue::Null,
        }),
        ("format".to_string(), s(&c.format)),
        ("media_refs".to_string(), JsonValue::Array(Vec::new())),
        ("created_at".to_string(), s(&c.created_at)),
        ("signature".to_string(), JsonValue::Null),
    ])
}

#[test]
fn resolve_content_resolves_valid_id() {
    let (decl, handler) = resolve_content_hook();
    assert_eq!(decl.id, "message.resolve_content");
    assert_eq!(decl.phase, HookPhase::AfterRead);
    assert_eq!(decl.trigger_datatype, "timeline_index");
    assert_eq!(decl.trigger_event, TriggerEvent::Any);
    assert_eq!(decl.priority, 40);
    assert_eq!(decl.source, "message");

    let content = sample_content("@alice:relay.com", "Resolve me!");
    let hash = content.compute_hash();
    let cj = content_json(&content);
    let content_store = JsonValue::Object(vec![(hash.clone(), content_json(&content))]);

    let mut ctx = HookContext::new("timeline_index".to_string(), TriggerEvent::Any);
    ctx.data.push(("content_id".to_string(), JsonValue::Str(hash.clone())));
    ctx.data.push(("content_store".to_string(), content_store));
    let result = handler.call(&mut ctx);
    assert!(result.is_ok(), "resolve_content should succeed");
    let resolved = ctx
        .data
        .iter()
        .find(|(k, _)| k == "resolved_content")
        .map(|(_, v)| v)
        .expect("resolved_content must be set");
    assert_eq!(to_serde(resolved), to_serde(&cj), "resolved content must match the original");
}

#[test]
fn resolve_content_missing_content_is_ok() {
    let (_decl, handler) = resolve_content_hook();
    let mut ctx = HookContext::new("timeline_index".to_string(), TriggerEvent::Any);
    ctx.data.push(("content_id".to_string(), JsonValue::Str("nonexistent_hash".to_string())));
    ctx.data.push(("content_store".to_string(), JsonValue::Object(Vec::new())));
    let result = handler.call(&mut ctx);
    assert!(result.is_ok(), "resolve_content should succeed even when content is missing");
    assert!(
        !ctx.data.iter().any(|(k, _)| k == "resolved_content"),
        "resolved_content should not be set when content is missing"
    );
}
