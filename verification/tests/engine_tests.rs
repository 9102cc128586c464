use ezagent::backend::BackendError;
use ezagent::builtins::identity::identity_datatype;
use ezagent::builtins::message::{message_datatype, validate_content_ref_hook, ValidateContentRef};
use ezagent::builtins::room::{
    check_config_permission_hook, check_room_write_hook, extension_loader_hook, member_change_notify_hook,
    room_datatype, CheckConfigPermission, CheckRoomWrite, ExtensionLoader, MemberChangeNotify, MembershipPolicy, Role,
};
use ezagent::builtins::timeline::{
    format_iso8601, generate_ref_hook, record_new_ref, timeline_datatype, GenerateRef, RefStatus, ShardManager,
    TimelineRef,
};
use ezagent::config::{default_listen_port, keypair_from_bytes, resolve_port, AppConfig, IdentityConfig, NetworkConfig, StorageConfig};
use ezagent::engine::{new_room_config, Engine};
use ezagent::error::EngineError;
use ezagent::ext_api::manifest::ExtensionManifest;
use ezagent::hooks::executor::HookHandler;
use ezagent::hooks::phase::{HookContext, HookDeclaration, HookPhase, TriggerEvent};
use ezagent::json::JsonValue;
use ezagent::registry::datatype::{StorageType, SyncMode, WriterRule};

/// The built-in hooks, as one handler type.
enum Builtin {
    RoomWrite(CheckRoomWrite),
    ConfigPermission(CheckConfigPermission),
    ExtLoader(ExtensionLoader),
    Members(MemberChangeNotify),
    GenRef(GenerateRef),
    Validate(ValidateContentRef),
}

impl HookHandler for Builtin {
    fn call(&self, ctx: &mut HookContext) -> Result<(), EngineError> {
        match self {
            Builtin::RoomWrite(h) => h.call(ctx),
            Builtin::ConfigPermission(h) => h.call(ctx),
            Builtin::ExtLoader(h) => h.call(ctx),
            Builtin::Members(h) => h.call(ctx),
            Builtin::GenRef(h) => h.call(ctx),
            Builtin::Validate(h) => h.call(ctx),
        }
    }
}

fn builtin_hooks() -> Vec<(HookDeclaration, Builtin)> {
    let mut v = Vec::new();
    let (d, h) = check_room_write_hook();
    v.push((d, Builtin::RoomWrite(h)));
    let (d, h) = check_config_permission_hook();
    v.push((d, Builtin::ConfigPermission(h)));
    let (d, h) = extension_loader_hook();
    v.push((d, Builtin::ExtLoader(h)));
    let (d, h) = member_change_notify_hook();
    v.push((d, Builtin::Members(h)));
    let (d, h) = generate_ref_hook();
    v.push((d, Builtin::GenRef(h)));
    let (d, h) = validate_content_ref_hook();
    v.push((d, Builtin::Validate(h)));
    v
}

fn new_engine() -> Engine<Builtin> {
    match Engine::new(builtin_hooks()) {
        Ok(e) => e,
        Err(e) => panic!("Engine::new() should succeed: {}", e.message()),
    }
}

fn get<'a>(data: &'a [(String, JsonValue)], key: &str) -> Option<&'a JsonValue> {
    data.iter().find(|(k, _)| k == key).map(|(_, v)| v)
}

fn get_str<'a>(data: &'a [(String, JsonValue)], key: &str) -> Option<&'a str> {
    match get(data, key) {
        Some(JsonValue::Str(s)) => Some(s.as_str()),
        _ => None,
    }
}

fn strings(v: &JsonValue) -> Vec<String> {
    match v {
        JsonValue::Array(items) => items
            .iter()
            .map(|i| match i {
                JsonValue::Str(s) => s.clone(),
                _ => panic!("expected a string"),
            })
            .collect(),
        _ => panic!("expected an array"),
    }
}

fn str_array(items: &[&str]) -> JsonValue {
    JsonValue::Array(items.iter().map(|s| JsonValue::Str(s.to_string())).collect())
}

fn members_json(members: &[(&str, &str)]) -> JsonValue {
    JsonValue::Object(members.iter().map(|(k, v)| (k.to_string(), JsonValue::Str(v.to_string()))).collect())
}

fn make_ref(ref_id: &str, author: &str) -> TimelineRef {
    TimelineRef {
        ref_id: ref_id.to_string(),
        author: author.to_string(),
        content_type: "immutable".to_string(),
        content_id: "abc123".to_string(),
        created_at: "2026-03-01T00:00:00Z".to_string(),
        status: RefStatus::Active,
        signature: None,
        ext: Vec::new(),
    }
}

fn make_ulid_ref(author: &str) -> TimelineRef {
    TimelineRef {
        ref_id: ulid::Ulid::generate().to_string(),
        author: author.to_string(),
        content_type: "immutable".to_string(),
        content_id: "content-hash-123".to_string(),
        created_at: "2026-03-01T00:00:00Z".to_string(),
        status: RefStatus::Active,
        signature: None,
        ext: Vec::new(),
    }
}

fn test_config(entity_id: &str) -> AppConfig {
    AppConfig {
        identity: IdentityConfig { keyfile: "/tmp/identity.key".to_string(), entity_id: entity_id.to_string() },
        network: NetworkConfig::default(),
        relay: None,
        storage: StorageConfig { data_dir: "/tmp/data".to_string() },
    }
}

// ── datatype declarations ──────────────────────────────────────────────

#[test]
fn tc_1_room_008_room_datatype_declaration() {
    let dt = room_datatype();
    assert_eq!(dt.id, "room");
    assert_eq!(dt.version, "0.1.0");
    assert_eq!(dt.dependencies, vec!["identity"]);
    assert!(dt.is_builtin, "room must be a built-in datatype");
    assert!(dt.indexes.is_empty(), "room declares no indexes");
    assert_eq!(dt.data_entries.len(), 1);
    let entry = &dt.data_entries[0];
    assert_eq!(entry.id, "room_config");
    assert_eq!(entry.storage_type, StorageType::CrdtMap);
    assert_eq!(entry.key_pattern.template(), "ezagent/{room_id}/config/{state|updates}");
    assert!(entry.persistent);
    assert_eq!(entry.writer_rule, WriterRule::SignerPowerLevel { min_level: 50 });
    assert_eq!(entry.sync_strategy, SyncMode::Eager);
}

#[test]
fn tc_1_tl_008_timeline_datatype_declaration() {
    let dt = timeline_datatype();
    assert_eq!(dt.id, "timeline");
    assert_eq!(dt.version, "0.1.0");
    assert_eq!(dt.dependencies, vec!["identity", "room"], "timeline depends on identity and room");
    assert!(dt.is_builtin, "timeline must be a built-in datatype");
    assert!(dt.indexes.is_empty(), "timeline declares no indexes");
    assert_eq!(dt.data_entries.len(), 1);
    let entry = &dt.data_entries[0];
    assert_eq!(entry.id, "timeline_index");
    assert_eq!(entry.storage_type, StorageType::CrdtArray);
    assert_eq!(entry.key_pattern.template(), "ezagent/{room_id}/index/{shard_id}/{state|updates}");
    assert!(entry.persistent);
    assert_eq!(entry.writer_rule, WriterRule::SignerInMembers);
    assert_eq!(entry.sync_strategy, SyncMode::Eager);
}

#[test]
fn tc_1_msg_005_message_datatype_declaration() {
    let dt = message_datatype();
    assert_eq!(dt.id, "message");
    assert_eq!(dt.version, "0.1.0");
    assert_eq!(
        dt.dependencies,
        vec!["identity", "room", "timeline"],
        "message must depend on identity, room, and timeline"
    );
    assert!(dt.is_builtin, "message must be a built-in datatype");
    assert!(dt.indexes.is_empty(), "message declares no indexes");
    assert_eq!(dt.data_entries.len(), 1);
    let entry = &dt.data_entries[0];
    assert_eq!(entry.id, "immutable_content");
    assert_eq!(entry.storage_type, StorageType::Blob);
    assert_eq!(entry.key_pattern.template(), "ezagent/{room_id}/content/{sha256_hash}");
    assert!(entry.persistent);
    assert_eq!(entry.writer_rule, WriterRule::OneTimeWrite);
    assert_eq!(entry.sync_strategy, SyncMode::Eager);
}

#[test]
fn tc_1_ident_004_identity_datatype_declaration() {
    let dt = identity_datatype();
    assert_eq!(dt.id, "identity");
    assert_eq!(dt.version, "0.1.0");
    assert!(dt.dependencies.is_empty(), "identity has no dependencies");
    assert!(dt.is_builtin, "identity must be built-in");
    assert!(dt.indexes.is_empty(), "identity declares no indexes");
    assert_eq!(dt.data_entries.len(), 1);
    let entry = &dt.data_entries[0];
    assert_eq!(entry.id, "entity_keypair");
    assert_eq!(entry.storage_type, StorageType::Blob);
    assert_eq!(entry.key_pattern.template(), "ezagent/@{entity_id}/identity/pubkey");
    assert!(entry.persistent);
    assert_eq!(entry.writer_rule, WriterRule::SignerIsEntity);
    assert_eq!(entry.sync_strategy, SyncMode::Eager);
}

// ── room hooks ─────────────────────────────────────────────────────────

#[test]
fn check_config_permission_hook_declaration() {
    let (decl, _handler) = check_config_permission_hook();
    assert_eq!(decl.id, "room.check_config_permission");
    assert_eq!(decl.phase, HookPhase::PreSend);
    assert_eq!(decl.trigger_datatype, "room_config");
    assert_eq!(decl.trigger_event, TriggerEvent::Any);
    assert!(decl.trigger_filter.is_none());
    assert_eq!(decl.priority, 20);
    assert_eq!(decl.source, "room");
}

#[test]
fn extension_loader_hook_declaration() {
    let (decl, _handler) = extension_loader_hook();
    assert_eq!(decl.id, "room.extension_loader");
    assert_eq!(decl.phase, HookPhase::AfterWrite);
    assert_eq!(decl.trigger_datatype, "room_config");
    assert_eq!(decl.trigger_event, TriggerEvent::Any);
    assert!(decl.trigger_filter.is_none());
    assert_eq!(decl.priority, 10);
    assert_eq!(decl.source, "room");
}

#[test]
fn member_change_notify_hook_declaration() {
    let (decl, _handler) = member_change_notify_hook();
    assert_eq!(decl.id, "room.member_change_notify");
    assert_eq!(decl.phase, HookPhase::AfterWrite);
    assert_eq!(decl.trigger_datatype, "room_config");
    assert_eq!(decl.trigger_event, TriggerEvent::Any);
    assert!(decl.trigger_filter.is_none());
    assert_eq!(decl.priority, 50);
    assert_eq!(decl.source, "room");
}

#[test]
fn extension_loader_detects_changes() {
    let (_decl, handler) = extension_loader_hook();
    let mut ctx = HookContext::new("room_config".to_string(), TriggerEvent::Update);
    ctx.room_id = Some("R-alpha".to_string());
    ctx.data.push(("old_enabled_extensions".to_string(), str_array(&["EXT-01", "EXT-03"])));
    ctx.data.push(("enabled_extensions".to_string(), str_array(&["EXT-01", "EXT-04", "EXT-05"])));

    let result = handler.call(&mut ctx);
    assert!(result.is_ok());

    let added = strings(get(&ctx.data, "extensions_added").expect("should have extensions_added"));
    assert!(added.contains(&"EXT-04".to_string()));
    assert!(added.contains(&"EXT-05".to_string()));
    assert_eq!(added.len(), 2);

    let removed = strings(get(&ctx.data, "extensions_removed").expect("should have extensions_removed"));
    assert_eq!(removed, vec!["EXT-03"]);
}

#[test]
fn extension_loader_records_nothing_when_unchanged() {
    let (_decl, handler) = extension_loader_hook();
    let mut ctx = HookContext::new("room_config".to_string(), TriggerEvent::Update);
    ctx.data.push(("old_enabled_extensions".to_string(), str_array(&["EXT-01", "EXT-02"])));
    ctx.data.push(("enabled_extensions".to_string(), str_array(&["EXT-02", "EXT-01"])));
    assert!(handler.call(&mut ctx).is_ok());
    assert!(get(&ctx.data, "extensions_added").is_none());
    assert!(get(&ctx.data, "extensions_removed").is_none());
    assert_eq!(ctx.data.len(), 2);
}

#[test]
fn extension_loader_ignores_non_strings_and_missing_lists() {
    let (_decl, handler) = extension_loader_hook();
    let mut ctx = HookContext::new("room_config".to_string(), TriggerEvent::Update);
    ctx.data.push((
        "enabled_extensions".to_string(),
        JsonValue::Array(vec![JsonValue::Str("EXT-09".to_string()), JsonValue::Number(7), JsonValue::Null]),
    ));
    assert!(handler.call(&mut ctx).is_ok());
    assert_eq!(strings(get(&ctx.data, "extensions_added").unwrap()), vec!["EXT-09"]);
    assert!(strings(get(&ctx.data, "extensions_removed").unwrap()).is_empty());
}

#[test]
fn member_change_notify_detects_changes() {
    let (_decl, handler) = member_change_notify_hook();
    let mut ctx = HookContext::new("room_config".to_string(), TriggerEvent::Update);
    ctx.room_id = Some("R-alpha".to_string());
    ctx.data.push((
        "old_members".to_string(),
        members_json(&[("@alice:relay.example.com", "Owner"), ("@bob:relay.example.com", "Member")]),
    ));
    ctx.data.push((
        "members".to_string(),
        members_json(&[("@alice:relay.example.com", "Owner"), ("@carol:relay.example.com", "Member")]),
    ));

    let result = handler.call(&mut ctx);
    assert!(result.is_ok());

    let added = strings(get(&ctx.data, "members_added").expect("should have members_added"));
    assert_eq!(added, vec!["@carol:relay.example.com"]);
    let removed = strings(get(&ctx.data, "members_removed").expect("should have members_removed"));
    assert_eq!(removed, vec!["@bob:relay.example.com"]);
}

#[test]
fn check_room_write_rejects_without_members_fail_closed() {
    let (_decl, handler) = check_room_write_hook();
    let mut ctx = HookContext::new("message".to_string(), TriggerEvent::Insert);
    ctx.signer_id = Some("@anyone:relay.com".to_string());
    ctx.room_id = Some("R-alpha".to_string());

    let result = handler.call(&mut ctx);
    assert!(result.is_err(), "should reject when no members data (fail-closed)");
    assert!(ctx.rejected, "context should be rejected");
    assert_eq!(ctx.rejection_reason.as_deref(), Some("NOT_A_MEMBER"), "rejection reason must be NOT_A_MEMBER");
}

#[test]
fn check_room_write_skips_without_room_id() {
    let (_decl, handler) = check_room_write_hook();
    let mut ctx = HookContext::new("message".to_string(), TriggerEvent::Insert);
    ctx.signer_id = Some("@anyone:relay.com".to_string());

    let result = handler.call(&mut ctx);
    assert!(result.is_ok(), "should skip check when not room-scoped");
    assert!(!ctx.rejected);
}

#[test]
fn check_room_write_no_signer_fails() {
    let (_decl, handler) = check_room_write_hook();
    let mut ctx = HookContext::new("message".to_string(), TriggerEvent::Insert);
    ctx.data.push(("members".to_string(), members_json(&[("@alice:relay.example.com", "Owner")])));

    let result = handler.call(&mut ctx);
    assert!(result.is_err());
    let err_msg = result.unwrap_err().message();
    assert!(err_msg.contains("no signer_id"));
}

#[test]
fn check_config_permission_no_signer_fails() {
    let (_decl, handler) = check_config_permission_hook();
    let mut ctx = HookContext::new("room_config".to_string(), TriggerEvent::Update);

    let result = handler.call(&mut ctx);
    assert!(result.is_err());
    let err_msg = result.unwrap_err().message();
    assert!(err_msg.contains("no signer_id"));
}

// ── message hooks ──────────────────────────────────────────────────────

fn content_store(id: &str, author: &str) -> JsonValue {
    let entry = JsonValue::Object(vec![
        ("author".to_string(), JsonValue::Str(author.to_string())),
        ("body".to_string(), JsonValue::Str("Test message".to_string())),
        ("content_id".to_string(), JsonValue::Str(id.to_string())),
    ]);
    JsonValue::Object(vec![(id.to_string(), entry)])
}

#[test]
fn tc_1_msg_003_validate_content_ref_success() {
    let (decl, handler) = validate_content_ref_hook();
    assert_eq!(decl.id, "message.validate_content_ref");
    assert_eq!(decl.phase, HookPhase::PreSend);
    assert_eq!(decl.trigger_datatype, "timeline_index");
    assert_eq!(decl.trigger_event, TriggerEvent::Insert);
    assert_eq!(decl.priority, 25);
    assert_eq!(decl.source, "message");

    let hash = "3f9a".repeat(16);
    let mut ctx = HookContext::new("timeline_index".to_string(), TriggerEvent::Insert);
    ctx.signer_id = Some("@alice:relay.com".to_string());
    ctx.room_id = Some("R-alpha".to_string());
    ctx.data.push(("content_id".to_string(), JsonValue::Str(hash.clone())));
    ctx.data.push(("content_store".to_string(), content_store(&hash, "@alice:relay.com")));

    let result = handler.call(&mut ctx);
    assert!(result.is_ok(), "validate_content_ref should succeed for valid ref");
    assert!(!ctx.rejected, "context should not be rejected for valid ref");
}

#[test]
fn tc_1_msg_004_validate_content_ref_author_mismatch() {
    let (_decl, handler) = validate_content_ref_hook();
    let hash = "77ab".repeat(16);
    let mut ctx = HookContext::new("timeline_index".to_string(), TriggerEvent::Insert);
    ctx.signer_id = Some("@bob:relay.com".to_string());
    ctx.room_id = Some("R-alpha".to_string());
    ctx.data.push(("content_id".to_string(), JsonValue::Str(hash.clone())));
    ctx.data.push(("content_store".to_string(), content_store(&hash, "@alice:relay.com")));

    let result = handler.call(&mut ctx);
    assert!(result.is_err(), "validate_content_ref should fail on author mismatch");
    assert!(ctx.rejected, "context should be rejected");
    assert_eq!(ctx.rejection_reason.as_deref(), Some("AUTHOR_MISMATCH"), "rejection reason must be AUTHOR_MISMATCH");
    let err_msg = result.unwrap_err().message();
    assert!(err_msg.contains("does not match signer"), "error should mention author/signer mismatch, got: {err_msg}");
    assert_eq!(err_msg, "hook rejected: content author @alice:relay.com does not match signer @bob:relay.com");
}

#[test]
fn validate_content_ref_content_not_found() {
    let (_decl, handler) = validate_content_ref_hook();
    let mut ctx = HookContext::new("timeline_index".to_string(), TriggerEvent::Insert);
    ctx.signer_id = Some("@alice:relay.com".to_string());
    ctx.data.push(("content_id".to_string(), JsonValue::Str("nonexistent_hash_abc123".to_string())));
    ctx.data.push(("content_store".to_string(), JsonValue::Object(Vec::new())));

    let result = handler.call(&mut ctx);
    assert!(result.is_err(), "should fail when content_id not found");
    assert!(ctx.rejected, "context should be rejected");
    assert_eq!(ctx.rejection_reason.as_deref(), Some("CONTENT_NOT_FOUND"), "rejection reason must be CONTENT_NOT_FOUND");
    assert_eq!(
        result.unwrap_err().message(),
        "hook rejected: content_id nonexistent_hash_abc123 not found in content store"
    );
}

#[test]
fn validate_content_ref_skips_without_content_id() {
    let (_decl, handler) = validate_content_ref_hook();
    let mut ctx = HookContext::new("timeline_index".to_string(), TriggerEvent::Insert);
    ctx.signer_id = Some("@alice:relay.com".to_string());

    let result = handler.call(&mut ctx);
    assert!(result.is_ok(), "should skip when no content_id");
    assert!(!ctx.rejected);
}

#[test]
fn validate_content_ref_without_signer_compares_with_empty_author() {
    let (_decl, handler) = validate_content_ref_hook();
    let mut ctx = HookContext::new("timeline_index".to_string(), TriggerEvent::Insert);
    ctx.data.push(("content_id".to_string(), JsonValue::Str("c1".to_string())));
    ctx.data.push((
        "content_store".to_string(),
        JsonValue::Object(vec![("c1".to_string(), JsonValue::Object(Vec::new()))]),
    ));
    assert!(handler.call(&mut ctx).is_ok());
    assert!(!ctx.rejected);
}

// ── timeline ───────────────────────────────────────────────────────────

#[test]
fn tc_1_tl_001_ref_creation() {
    let tref = make_ulid_ref("@alice:relay.example.com");
    assert_eq!(tref.ref_id.len(), 26, "ULID string should be 26 characters, got {}", tref.ref_id.len());
    let parsed = ulid::Ulid::from_string(&tref.ref_id);
    assert!(parsed.is_ok(), "ref_id should be a valid ULID: {}", tref.ref_id);
    assert_eq!(tref.author, "@alice:relay.example.com");
    assert_eq!(tref.content_type, "immutable");
    assert_eq!(tref.status, RefStatus::Active);
    assert!(tref.signature.is_none());
    let tref2 = make_ulid_ref("@alice:relay.example.com");
    assert_ne!(tref.ref_id, tref2.ref_id, "two ULIDs should be different");
    let ulid1 = ulid::Ulid::from_string(&tref.ref_id).unwrap();
    let ulid2 = ulid::Ulid::from_string(&tref2.ref_id).unwrap();
    assert!(ulid1.timestamp_ms() > 0, "ULID should have a timestamp");
    assert!(ulid2.timestamp_ms() > 0, "ULID should have a timestamp");
}

#[test]
fn tc_1_tl_004_soft_delete() {
    let mut sm = ShardManager::new(100);
    sm.add_ref(make_ref("ref-to-delete", "@alice:relay.com"));
    sm.add_ref(make_ref("ref-to-keep", "@bob:relay.com"));
    assert_eq!(sm.total_refs(), 2);

    let tref = sm.find_ref_mut("ref-to-delete").expect("ref should exist");
    assert_eq!(tref.status, RefStatus::Active);
    assert_eq!(tref.author, "@alice:relay.com");
    tref.status = RefStatus::DeletedByAuthor;

    let deleted = sm.find_ref("ref-to-delete").expect("ref should still exist");
    assert_eq!(deleted.status, RefStatus::DeletedByAuthor);
    assert_eq!(sm.total_refs(), 2);
    let kept = sm.find_ref("ref-to-keep").expect("kept ref should exist");
    assert_eq!(kept.status, RefStatus::Active);
}

#[test]
fn find_ref_mut_missing_and_active_shard_mut() {
    let mut sm = ShardManager::new(1);
    assert!(sm.find_ref_mut("nope").is_none());
    sm.add_ref(make_ref("r1", "@a:x"));
    sm.add_ref(make_ref("r2", "@a:x"));
    let shard = sm.active_shard_mut().expect("there is an active shard");
    assert_eq!(shard.refs.len(), 1);
    shard.refs.push(make_ref("r3", "@a:x"));
    assert_eq!(sm.total_refs(), 3);
    assert_eq!(sm.active_shard().unwrap().refs[1].ref_id, "r3");
}

#[test]
fn tc_1_tl_006_generate_ref_hook() {
    let (decl, handler) = generate_ref_hook();
    assert_eq!(decl.id, "timeline.generate_ref");
    assert_eq!(decl.phase, HookPhase::PreSend);
    assert_eq!(decl.trigger_datatype, "timeline_index");
    assert_eq!(decl.trigger_event, TriggerEvent::Insert);
    assert_eq!(decl.priority, 20);
    assert_eq!(decl.source, "timeline");

    let mut ctx = HookContext::new("timeline_index".to_string(), TriggerEvent::Insert);
    ctx.signer_id = Some("@alice:relay.example.com".to_string());
    ctx.data.push(("author".to_string(), JsonValue::Str("@alice:relay.example.com".to_string())));
    ctx.data.push(("content_type".to_string(), JsonValue::Str("immutable".to_string())));
    ctx.data.push(("content_id".to_string(), JsonValue::Str("sha256:abcdef".to_string())));

    let result = handler.call(&mut ctx);
    assert!(result.is_ok(), "generate_ref hook should succeed");

    let ref_id = get_str(&ctx.data, "ref_id").expect("ref_id should be in context");
    assert_eq!(ref_id.len(), 26, "ULID should be 26 chars");
    assert!(ulid::Ulid::from_string(ref_id).is_ok(), "ref_id should be a valid ULID");
    let status = get_str(&ctx.data, "status").expect("status should be in context");
    assert_eq!(status, "Active");
    let created_at = get_str(&ctx.data, "created_at").expect("created_at should be in context");
    assert!(created_at.ends_with('Z'), "created_at should end with Z: {created_at}");
    assert!(created_at.contains('T'), "created_at should contain T: {created_at}");
    assert!(get(&ctx.data, "timeline_ref").is_some(), "timeline_ref should be in context");
}

#[test]
fn record_new_ref_writes_the_ref_json() {
    let mut ctx = HookContext::new("timeline_index".to_string(), TriggerEvent::Insert);
    ctx.data.push(("content_id".to_string(), JsonValue::Str("c-9".to_string())));
    ctx.data.push(("status".to_string(), JsonValue::Str("Old".to_string())));
    record_new_ref(&mut ctx, "01ARZ3NDEKTSV4RRFFQ69G5FAV", 951782400 + 3661);
    assert_eq!(get_str(&ctx.data, "ref_id"), Some("01ARZ3NDEKTSV4RRFFQ69G5FAV"));
    assert_eq!(get_str(&ctx.data, "status"), Some("Active"));
    assert_eq!(get_str(&ctx.data, "created_at"), Some("2000-02-29T01:01:01Z"));
    assert_eq!(ctx.data.iter().filter(|(k, _)| k == "status").count(), 1);
    match get(&ctx.data, "timeline_ref") {
        Some(JsonValue::Object(fields)) => {
            let keys: Vec<&str> = fields.iter().map(|(k, _)| k.as_str()).collect();
            assert_eq!(keys, vec!["author", "content_id", "content_type", "created_at", "ref_id", "signature", "status"]);
            assert_eq!(get_str(fields, "author"), Some(""));
            assert_eq!(get_str(fields, "content_type"), Some("immutable"));
            assert_eq!(get_str(fields, "content_id"), Some("c-9"));
            assert!(matches!(get(fields, "signature"), Some(JsonValue::Null)));
        },
        _ => panic!("timeline_ref should be an object"),
    }
    assert_eq!(format_iso8601(951782400 + 3661), "2000-02-29T01:01:01Z");
}

// ── engine ─────────────────────────────────────────────────────────────

#[test]
fn engine_initializes_with_all_builtins() {
    let engine = new_engine();
    assert!(engine.has_datatype("identity"), "identity must be registered");
    assert!(engine.has_datatype("room"), "room must be registered");
    assert!(engine.has_datatype("timeline"), "timeline must be registered");
    assert!(engine.has_datatype("message"), "message must be registered");
    assert!(!engine.has_datatype("nonexistent"));
}

#[test]
fn engine_load_order_is_correct() {
    let engine = new_engine();
    let order = engine.registry.load_order().ok().expect("load_order should succeed");
    assert_eq!(
        order,
        vec!["identity", "room", "timeline", "message"],
        "built-in load order must be identity < room < timeline < message"
    );
}

#[test]
fn engine_pre_send_sets_signer() {
    let mut engine = new_engine();
    engine.init_identity("@bob:relay.io".to_string()).ok().expect("init_identity should succeed");
    let mut ctx = HookContext::new("message".to_string(), TriggerEvent::Insert);
    assert!(ctx.signer_id.is_none(), "signer_id should start as None");
    ctx.data.push(("payload".to_string(), JsonValue::Str("auto-sign test".to_string())));
    let result = engine.run_pre_send(&mut ctx);
    assert!(result.is_ok(), "pre_send should succeed");
    assert_eq!(ctx.signer_id.as_deref(), Some("@bob:relay.io"), "signer_id should be auto-set from engine entity_id");
}

#[test]
fn engine_pre_send_runs_the_membership_check() {
    let mut engine = new_engine();
    engine.init_identity("@bob:relay.io".to_string()).ok().unwrap();
    let mut ctx = HookContext::new("message".to_string(), TriggerEvent::Insert);
    ctx.room_id = Some("R-alpha".to_string());
    ctx.data.push(("members".to_string(), members_json(&[("@alice:relay.example.com", "Owner")])));
    let result = engine.run_pre_send(&mut ctx);
    assert!(result.is_err());
    assert!(ctx.rejected);
    assert_eq!(ctx.rejection_reason.as_deref(), Some("NOT_A_MEMBER"));
}

#[test]
fn engine_after_write_sets_read_only() {
    let engine = new_engine();
    let mut ctx = HookContext::new("message".to_string(), TriggerEvent::Insert);
    assert!(!ctx.read_only, "context should start read-write");
    let result = engine.run_after_write(&mut ctx);
    assert!(result.is_ok(), "after_write should succeed");
    assert!(ctx.read_only, "context should be read_only after run_after_write");
}

#[test]
fn engine_after_read_sets_read_only() {
    let engine = new_engine();
    let mut ctx = HookContext::new("timeline_index".to_string(), TriggerEvent::Any);
    assert!(!ctx.read_only, "context should start read-write");
    let result = engine.run_after_read(&mut ctx);
    assert!(result.is_ok(), "after_read should succeed");
    assert!(ctx.read_only, "context should be read_only after run_after_read");
}

#[test]
fn engine_default_impl() {
    let engine = new_engine();
    assert!(engine.has_datatype("identity"));
    assert!(engine.has_datatype("room"));
    assert!(engine.has_datatype("timeline"));
    assert!(engine.has_datatype("message"));
    assert!(engine.entity_id().is_none());
}

#[test]
fn engine_no_extensions_loaded_by_default() {
    let engine = new_engine();
    assert!(engine.loaded_extensions().is_empty(), "no extensions should be loaded by default");
    assert!(!engine.is_extension_loaded("reactions"), "random extension should not be loaded");
}

#[test]
fn engine_load_order_for_room_builtins_only() {
    let engine = new_engine();
    let order = engine.load_order_for_room(&[]).ok().expect("load_order_for_room should succeed");
    assert_eq!(order, vec!["identity", "room", "timeline", "message"], "empty extensions should yield builtins only");
}

#[test]
fn engine_refuses_a_global_hook_from_an_extension() {
    let mut hooks = builtin_hooks();
    let (mut decl, h) = check_room_write_hook();
    decl.source = "reactions".to_string();
    hooks.push((decl, Builtin::RoomWrite(h)));
    match Engine::new(hooks) {
        Err(EngineError::ExtensionCannotRegisterGlobalHook) => {},
        _ => panic!("a global hook from an extension must be refused"),
    }
}

fn manifest(name: &str, version: &str) -> ExtensionManifest {
    ExtensionManifest {
        name: name.to_string(),
        version: version.to_string(),
        api_version: 1,
        datatype_declarations: Vec::new(),
        hook_declarations: Vec::new(),
        ext_dependencies: Vec::new(),
        uri_paths: Vec::new(),
    }
}

#[test]
fn engine_records_loaded_extensions() {
    let mut engine = new_engine();
    let err = engine.finish_extension_load("broken", manifest("broken", "0.1.0"), Some("bad hook"));
    let err = err.expect("a registration error fails the load");
    assert_eq!(err.name, "broken");
    assert_eq!(err.reason, "registration error: bad hook");
    assert!(!engine.is_extension_loaded("broken"));

    assert!(engine.finish_extension_load("reactions", manifest("reactions", "0.1.0"), None).is_none());
    assert!(engine.finish_extension_load("channels", manifest("channels", "0.2.0"), None).is_none());
    assert!(engine.finish_extension_load("reactions", manifest("reactions", "0.3.0"), None).is_none());
    assert!(engine.is_extension_loaded("reactions"));
    assert_eq!(engine.loaded_extensions(), vec!["reactions", "channels"]);
}

#[test]
fn tc_1_api_001_identity_init_and_whoami() {
    let mut engine = new_engine();
    let err = engine.identity_whoami();
    assert!(err.is_err(), "whoami should fail before init");
    engine.init_identity("@alice:relay.example.com".to_string()).ok().expect("identity_init should succeed");
    let whoami = engine.identity_whoami().ok().expect("whoami should succeed after init");
    assert_eq!(whoami, "@alice:relay.example.com", "whoami must return the initialized entity ID");
}

#[test]
fn tc_1_api_002_room_create() {
    let mut engine = new_engine();
    let err = engine.room_create("test-room");
    assert!(err.is_err(), "room_create should fail before identity init");
    assert_eq!(err.err().unwrap().message(), "permission denied: identity not initialized");
    engine.init_identity("@alice:relay.example.com".to_string()).ok().expect("identity_init should succeed");
    let room = engine.room_create("Alpha Room").ok().expect("room_create should succeed");
    assert!(!room.room_id.is_empty(), "room_id should be set");
    assert_eq!(room.room_id.len(), 36);
    assert_eq!(room.name, "Alpha Room");
    assert_eq!(room.created_by, "@alice:relay.example.com");
    assert!(!room.created_at.is_empty(), "created_at should be set");
    assert!(room.created_at.ends_with('Z'));
    assert_eq!(room.membership.members.len(), 1);
    assert_eq!(room.membership.members[0].0, "@alice:relay.example.com");
    assert_eq!(room.membership.members[0].1, Role::Owner, "creator must be Owner");
    assert_eq!(room.membership.policy, MembershipPolicy::Invite);
    assert_eq!(room.power_levels.default, 0);
    assert_eq!(room.power_levels.events_default, 0);
    assert_eq!(room.power_levels.admin, 50);
    assert!(room.power_levels.users.is_empty());
    assert!(room.relays.is_empty());
    assert!(room.enabled_extensions.is_empty());
    assert_eq!(room.timeline.shard_max_refs, 10000);
}

#[test]
fn new_room_config_fields() {
    let room = new_room_config("R-1".to_string(), "Lobby", "@carol:relay.io", "1709337600Z".to_string());
    assert_eq!(room.room_id, "R-1");
    assert_eq!(room.name, "Lobby");
    assert_eq!(room.created_by, "@carol:relay.io");
    assert_eq!(room.created_at, "1709337600Z");
    assert!(room.extra.is_empty());
}

#[test]
fn engine_status_reports() {
    let mut engine = new_engine();
    let status = engine.status();
    assert!(!status.identity_initialized);
    assert!(status.registered_datatypes.contains(&"identity".to_string()));
    assert!(status.registered_datatypes.contains(&"room".to_string()));
    assert!(status.registered_datatypes.contains(&"timeline".to_string()));
    assert!(status.registered_datatypes.contains(&"message".to_string()));
    engine.init_identity("@bob:relay.io".to_string()).ok().expect("init");
    let status = engine.status();
    assert!(status.identity_initialized);
}

#[test]
fn engine_stub_operations_are_not_implemented() {
    let mut engine = new_engine();
    assert!(matches!(engine.room_list(), Err(EngineError::NotImplemented)));
    assert!(matches!(engine.room_join("R"), Err(EngineError::NotImplemented)));
    assert!(matches!(engine.annotation_add("R", "r", "k", "v"), Err(EngineError::NotImplemented)));
    assert!(matches!(engine.timeline_get_ref("R", "r"), Err(EngineError::NotImplemented)));
}

// ── configuration ──────────────────────────────────────────────────────

#[test]
fn test_resolve_port_cli_arg() {
    let port = resolve_port(None, Some(1234), &None);
    assert!(port >= 1);
    assert_eq!(port, 1234);
}

#[test]
fn test_resolve_port_default() {
    let port = resolve_port(None, None, &None);
    assert!(port > 0);
    assert_eq!(port, 8847);
}

#[test]
fn test_resolve_port_from_config() {
    let mut cfg = test_config("@alice:local");
    cfg.network.listen_port = 5555;
    let port = resolve_port(None, None, &Some(cfg));
    assert!(port > 0);
    assert_eq!(port, 5555);
}

#[test]
fn resolve_port_environment_wins_when_it_parses() {
    assert_eq!(resolve_port(Some("9000"), Some(1234), &None), 9000);
    assert_eq!(resolve_port(Some("+9001"), None, &None), 9001);
    assert_eq!(resolve_port(Some("70000"), Some(1234), &None), 1234);
    assert_eq!(resolve_port(Some("abc"), None, &Some(test_config("@a:b"))), 7447);
    assert_eq!(resolve_port(Some(""), None, &None), 8847);
}

#[test]
fn network_config_defaults() {
    let n = NetworkConfig::default();
    assert_eq!(n.listen_port, 7447);
    assert!(n.scouting);
    assert_eq!(default_listen_port(), 7447);
}

#[test]
fn backend_error_messages() {
    assert_eq!(BackendError::Crdt("x".to_string()).message(), "CRDT error: x");
    assert_eq!(BackendError::Network("down".to_string()).message(), "network error: down");
    assert_eq!(BackendError::DocNotFound("d1".to_string()).message(), "document not found: d1");
    assert_eq!(BackendError::Serialization("eof".to_string()).message(), "serialization error: eof");
}

#[test]
fn keypair_bytes_must_be_32_long() {
    let good: Vec<u8> = (0u8..32).collect();
    let key = keypair_from_bytes(&good).unwrap();
    assert_eq!(key.to_vec(), good);
    assert_eq!(key[31], 31);

    let short = vec![7u8; 31];
    assert_eq!(keypair_from_bytes(&short).unwrap_err(), "identity.key must be exactly 32 bytes");
    let long = vec![7u8; 33];
    assert!(keypair_from_bytes(&long).is_err());
    assert!(keypair_from_bytes(&[]).is_err());
}

#[test]
fn room_create_id_is_a_hyphenated_uuid() {
    let mut engine = new_engine();
    engine.init_identity("@alice:relay.example.com".to_string()).ok().unwrap();
    let room = engine.room_create("Shape").ok().unwrap();
    let id: Vec<char> = room.room_id.chars().collect();
    assert_eq!(id.len(), 36);
    for (i, c) in id.iter().enumerate() {
        if i == 8 || i == 13 || i == 18 || i == 23 {
            assert_eq!(*c, '-');
        } else {
            assert!(c.is_ascii_hexdigit() && !c.is_ascii_uppercase(), "char {i} is {c}");
        }
    }
    let other = engine.room_create("Shape").ok().unwrap();
    assert_ne!(room.room_id, other.room_id);
}

#[test]
fn tc_1_api_003_message_send() {
    let mut engine = new_engine();
    engine.init_identity("@alice:relay.example.com".to_string()).ok().expect("identity_init should succeed");
    let content = engine
        .message_send("R-alpha", JsonValue::Str("Hello, world!".to_string()), "text/plain")
        .ok()
        .expect("message_send should succeed");
    assert_eq!(content.content_id.len(), 64, "content_id must be a 64-char SHA-256 hex digest");
    assert!(content.content_id.chars().all(|c| c.is_ascii_hexdigit()), "content_id must contain only hex digits");
    let recomputed = content.compute_hash();
    assert_eq!(content.content_id, recomputed, "content_id must match recomputed hash");
    assert_eq!(content.author, "@alice:relay.example.com");
    assert!(matches!(&content.body, JsonValue::Str(s) if s == "Hello, world!"));
    assert_eq!(content.format, "text/plain");
    assert_eq!(content.content_type, "immutable");
    assert!(content.media_refs.is_empty());
    assert!(!content.created_at.is_empty());
}

#[test]
fn message_send_needs_identity() {
    let engine = new_engine();
    let err = engine.message_send("R-alpha", JsonValue::Str("hi".to_string()), "text/plain");
    assert_eq!(err.err().unwrap().message(), "permission denied: identity not initialized");
}

#[test]
fn message_send_at_stamps_the_given_time() {
    let mut engine = new_engine();
    engine.init_identity("@alice:relay.example.com".to_string()).ok().unwrap();
    let content = engine
        .message_send_at("R-alpha", JsonValue::Str("Hello".to_string()), "text/markdown", 1709337600)
        .ok()
        .expect("message_send_at should succeed");
    assert_eq!(content.created_at, "1709337600Z");
    assert_eq!(content.format, "text/markdown");
    assert!(content.signature.is_none());
    assert_eq!(content.content_id, content.compute_hash());
    let again = engine
        .message_send_at("R-beta", JsonValue::Str("Hello".to_string()), "text/markdown", 1709337600)
        .ok()
        .unwrap();
    assert_eq!(again.content_id, content.content_id, "the room is not part of the content id");
}

#[test]
fn engine_new_ranks_builtins_in_dependency_order() {
    let engine = new_engine();
    let order = engine.registry.load_order().ok().expect("load order");
    assert_eq!(order, vec!["identity", "room", "timeline", "message"]);
}
