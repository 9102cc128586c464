use ezagent::builtins::message::{content_hash, hex_encode};
use ezagent::builtins::room::{check_config_permission_hook, check_room_write_hook, Role};
use ezagent::builtins::timeline::{
    days_to_date, format_iso8601, is_leap_year, page_limit, paginate, record_ref_changes, ref_change_detect_decl,
    timeline_pagination_decl, PaginationCursor, RefStatus, ShardManager, TimelineRef, TimelineShard,
};
use ezagent::hooks::executor::HookHandler;
use ezagent::hooks::phase::{HookContext, HookPhase, TriggerEvent};
use ezagent::index::{refresh_due, IndexBuilder};
use ezagent::json::JsonValue;
use ezagent::registry::datatype::{IndexDeclaration, RefreshStrategy};

fn make_ref(ref_id: &str, author: &str) -> TimelineRef {
    TimelineRef {
        ref_id: ref_id.to_string(),
        author: author.to_string(),
        content_type: "immutable".to_string(),
        content_id: "abc123".to_string(),
        created_at: "2026-03-01T00:00:00Z".to_string(),
        status: RefStatus::Active,
        signature: None,
        ext: Vec::new(),
    }
}

fn members_json(members: &[(&str, &str)]) -> JsonValue {
    JsonValue::Object(members.iter().map(|(k, v)| (k.to_string(), JsonValue::Str(v.to_string()))).collect())
}

#[test]
fn format_iso8601_known_epoch() {
    assert_eq!(format_iso8601(0), "1970-01-01T00:00:00Z");
    assert_eq!(format_iso8601(946684800), "2000-01-01T00:00:00Z");
}

#[test]
fn format_iso8601_time_of_day_and_leap_day() {
    assert_eq!(format_iso8601(951782400 + 3661), "2000-02-29T01:01:01Z");
    assert_eq!(format_iso8601(1772323200), "2026-03-01T00:00:00Z");
    assert_eq!(format_iso8601(86399), "1970-01-01T23:59:59Z");
}

#[test]
fn days_to_date_boundaries() {
    assert_eq!(days_to_date(0), (1970, 1, 1));
    assert_eq!(days_to_date(364), (1970, 12, 31));
    assert_eq!(days_to_date(365), (1971, 1, 1));
    assert_eq!(days_to_date(10957), (2000, 1, 1));
    assert_eq!(days_to_date(10956), (1999, 12, 31));
    assert_eq!(days_to_date(11017), (2000, 3, 1));
}

#[test]
fn leap_year_rule() {
    assert!(is_leap_year(2000));
    assert!(!is_leap_year(1900));
    assert!(is_leap_year(2024));
    assert!(!is_leap_year(2023));
}

#[test]
fn tc_1_tl_002_shard_creation() {
    let mut sm = ShardManager::new(3);
    assert_eq!(sm.shards.len(), 1);
    assert_eq!(sm.total_refs(), 0);
    let shard_id_1 = sm.add_ref(make_ref("ref-1", "@alice:relay.com"));
    let shard_id_2 = sm.add_ref(make_ref("ref-2", "@bob:relay.com"));
    let shard_id_3 = sm.add_ref(make_ref("ref-3", "@alice:relay.com"));
    assert_eq!(sm.shards.len(), 1);
    assert_eq!(sm.total_refs(), 3);
    assert_eq!(shard_id_1, shard_id_2);
    assert_eq!(shard_id_2, shard_id_3);
    let shard_id_4 = sm.add_ref(make_ref("ref-4", "@bob:relay.com"));
    assert_eq!(sm.shards.len(), 2);
    assert_eq!(sm.total_refs(), 4);
    assert_ne!(shard_id_3, shard_id_4);
    assert_eq!(sm.shards[0].refs.len(), 3);
    assert_eq!(sm.shards[1].refs.len(), 1);
}

#[test]
fn tc_1_tl_003_ref_ordering() {
    let mut sm = ShardManager::new(100);
    sm.add_ref(make_ref("first", "@alice:relay.com"));
    sm.add_ref(make_ref("second", "@bob:relay.com"));
    sm.add_ref(make_ref("third", "@carol:relay.com"));
    let shard = sm.active_shard().expect("should have an active shard");
    assert_eq!(shard.refs.len(), 3);
    assert_eq!(shard.refs[0].ref_id, "first");
    assert_eq!(shard.refs[1].ref_id, "second");
    assert_eq!(shard.refs[2].ref_id, "third");
    assert_eq!(shard.refs[0].author, "@alice:relay.com");
    assert_eq!(shard.refs[1].author, "@bob:relay.com");
    assert_eq!(shard.refs[2].author, "@carol:relay.com");
}

#[test]
fn tc_1_tl_005_cursor_pagination() {
    let shards = vec![
        TimelineShard { shard_id: "shard-1".to_string(), refs: vec![make_ref("ref-1", "@alice:relay.com"), make_ref("ref-2", "@bob:relay.com")] },
        TimelineShard { shard_id: "shard-2".to_string(), refs: vec![make_ref("ref-3", "@carol:relay.com"), make_ref("ref-4", "@alice:relay.com")] },
        TimelineShard { shard_id: "shard-3".to_string(), refs: vec![make_ref("ref-5", "@bob:relay.com"), make_ref("ref-6", "@carol:relay.com")] },
    ];
    let page1 = paginate(&shards, None, 2);
    assert_eq!(page1.refs.len(), 2);
    assert_eq!(page1.refs[0].ref_id, "ref-1");
    assert_eq!(page1.refs[1].ref_id, "ref-2");
    assert!(page1.has_more);
    assert!(page1.next_cursor.is_some());
    let page2 = paginate(&shards, page1.next_cursor.as_ref(), 2);
    assert_eq!(page2.refs.len(), 2);
    assert_eq!(page2.refs[0].ref_id, "ref-3");
    assert_eq!(page2.refs[1].ref_id, "ref-4");
    assert!(page2.has_more);
    assert!(page2.next_cursor.is_some());
    let page3 = paginate(&shards, page2.next_cursor.as_ref(), 2);
    assert_eq!(page3.refs.len(), 2);
    assert_eq!(page3.refs[0].ref_id, "ref-5");
    assert_eq!(page3.refs[1].ref_id, "ref-6");
    assert!(!page3.has_more);
    assert!(page3.next_cursor.is_none());
    let all = paginate(&shards, None, 100);
    assert_eq!(all.refs.len(), 6);
    assert!(!all.has_more);
    assert!(all.next_cursor.is_none());
    let empty = paginate(&[], None, 10);
    assert!(empty.refs.is_empty());
    assert!(!empty.has_more);
}

#[test]
fn pagination_cursor_moves_to_next_shard_after_full_page() {
    let shards = vec![
        TimelineShard { shard_id: "s1".to_string(), refs: vec![make_ref("r1", "@a:r.com"), make_ref("r2", "@b:r.com")] },
        TimelineShard { shard_id: "s2".to_string(), refs: vec![make_ref("r3", "@c:r.com")] },
    ];
    let page = paginate(&shards, None, 2);
    let c = page.next_cursor.expect("cursor");
    assert_eq!(c.shard_id, "s2");
    assert_eq!(c.offset, 0);
}

#[test]
fn shard_manager_find_ref_missing() {
    let sm = ShardManager::new(10);
    assert!(sm.find_ref("nonexistent").is_none());
}

#[test]
fn shard_manager_find_ref_across_shards() {
    let mut sm = ShardManager::new(2);
    sm.add_ref(make_ref("ref-a", "@alice:relay.com"));
    sm.add_ref(make_ref("ref-b", "@bob:relay.com"));
    sm.add_ref(make_ref("ref-c", "@carol:relay.com"));
    assert_eq!(sm.shards.len(), 2);
    let found_a = sm.find_ref("ref-a");
    assert!(found_a.is_some());
    assert_eq!(found_a.unwrap().author, "@alice:relay.com");
    let found_c = sm.find_ref("ref-c");
    assert!(found_c.is_some());
    assert_eq!(found_c.unwrap().author, "@carol:relay.com");
}

#[test]
fn shard_ids_are_uuid_text() {
    let sm = ShardManager::new(1);
    assert_eq!(sm.shards[0].shard_id.len(), 36);
}

#[test]
fn pagination_limit_zero() {
    let shards = vec![TimelineShard { shard_id: "s1".to_string(), refs: vec![make_ref("r1", "@a:r.com")] }];
    let result = paginate(&shards, None, 0);
    assert!(result.refs.is_empty());
    assert!(!result.has_more);
}

#[test]
fn pagination_mid_shard_cursor() {
    let shards = vec![TimelineShard {
        shard_id: "s1".to_string(),
        refs: vec![make_ref("r1", "@a:r.com"), make_ref("r2", "@b:r.com"), make_ref("r3", "@c:r.com")],
    }];
    let cursor = PaginationCursor { shard_id: "s1".to_string(), offset: 1 };
    let result = paginate(&shards, Some(&cursor), 10);
    assert_eq!(result.refs.len(), 2);
    assert_eq!(result.refs[0].ref_id, "r2");
    assert_eq!(result.refs[1].ref_id, "r3");
    assert!(!result.has_more);
}

#[test]
fn hex_encode_correctness() {
    assert_eq!(hex_encode(&[]), "");
    assert_eq!(hex_encode(&[0x00]), "00");
    assert_eq!(hex_encode(&[0xff]), "ff");
    assert_eq!(hex_encode(&[0xde, 0xad, 0xbe, 0xef]), "deadbeef");
    assert_eq!(hex_encode(&[0x01, 0x23, 0x45, 0x67, 0x89, 0xab, 0xcd, 0xef]), "0123456789abcdef");
}

#[test]
fn content_hash_of_empty_input() {
    assert_eq!(content_hash(b""), "e3b0c44298fc1c149afbf4c8996fb92427ae41e4649b934ca495991b7852b855");
    assert_eq!(content_hash(b"abc"), "ba7816bf8f01cfea414140de5dae2223b00361a396177a9cb410ff61f20015ad");
}

#[test]
fn tc_1_room_003_power_level_values() {
    assert_eq!(Role::Owner.power_level(), 100);
    assert_eq!(Role::Admin.power_level(), 50);
    assert_eq!(Role::Member.power_level(), 0);
    assert!(Role::Owner.power_level() > Role::Admin.power_level());
    assert!(Role::Admin.power_level() > Role::Member.power_level());
}

#[test]
fn tc_1_room_004_check_room_write_allows_member() {
    let (_decl, handler) = check_room_write_hook();
    let mut ctx = HookContext::new("message".to_string(), TriggerEvent::Insert);
    ctx.signer_id = Some("@alice:relay.example.com".to_string());
    ctx.room_id = Some("R-alpha".to_string());
    ctx.data.push(("members".to_string(), members_json(&[("@alice:relay.example.com", "Owner"), ("@bob:relay.example.com", "Member")])));
    assert!(handler.call(&mut ctx).is_ok());
    assert!(!ctx.rejected);
}

#[test]
fn tc_1_room_005_check_room_write_rejects_nonmember() {
    let (_decl, handler) = check_room_write_hook();
    let mut ctx = HookContext::new("message".to_string(), TriggerEvent::Insert);
    ctx.signer_id = Some("@mallory:evil.com".to_string());
    ctx.room_id = Some("R-alpha".to_string());
    ctx.data.push(("members".to_string(), members_json(&[("@alice:relay.example.com", "Owner"), ("@bob:relay.example.com", "Member")])));
    assert!(handler.call(&mut ctx).is_err());
    assert!(ctx.rejected);
    assert_eq!(ctx.rejection_reason.as_deref(), Some("NOT_A_MEMBER"));
}

#[test]
fn check_room_write_fails_closed_without_members() {
    let (_decl, handler) = check_room_write_hook();
    let mut ctx = HookContext::new("message".to_string(), TriggerEvent::Insert);
    ctx.signer_id = Some("@alice:relay.example.com".to_string());
    ctx.room_id = Some("R-alpha".to_string());
    let err = handler.call(&mut ctx).unwrap_err();
    assert!(err.message().contains("fail-closed"));
    assert!(ctx.rejected);
    let mut ctx2 = HookContext::new("message".to_string(), TriggerEvent::Insert);
    ctx2.signer_id = Some("@alice:relay.example.com".to_string());
    assert!(handler.call(&mut ctx2).is_ok());
    let mut ctx3 = HookContext::new("message".to_string(), TriggerEvent::Insert);
    assert!(handler.call(&mut ctx3).unwrap_err().message().contains("no signer_id in context"));
}

#[test]
fn tc_1_room_006_config_permission_allows_admin() {
    let (_decl, handler) = check_config_permission_hook();
    let mut ctx = HookContext::new("room_config".to_string(), TriggerEvent::Update);
    ctx.signer_id = Some("@bob:relay.example.com".to_string());
    ctx.data.push(("members".to_string(), members_json(&[("@alice:relay.example.com", "Owner"), ("@bob:relay.example.com", "Admin")])));
    assert!(handler.call(&mut ctx).is_ok());
    assert!(!ctx.rejected);
}

#[test]
fn tc_1_room_007_config_permission_rejects_member() {
    let (_decl, handler) = check_config_permission_hook();
    let mut ctx = HookContext::new("room_config".to_string(), TriggerEvent::Update);
    ctx.signer_id = Some("@bob:relay.example.com".to_string());
    ctx.data.push(("members".to_string(), members_json(&[("@alice:relay.example.com", "Owner"), ("@bob:relay.example.com", "Member")])));
    let err = handler.call(&mut ctx).unwrap_err();
    assert_eq!(err.message(), "permission denied: power_level 0 < 50 for @bob:relay.example.com");
    assert!(ctx.rejected);
    assert_eq!(ctx.rejection_reason.as_deref(), Some("INSUFFICIENT_POWER_LEVEL"));
}

#[test]
fn tc_1_room_009_owner_can_modify_config() {
    let (_decl, handler) = check_config_permission_hook();
    let mut ctx = HookContext::new("room_config".to_string(), TriggerEvent::Update);
    ctx.signer_id = Some("@alice:relay.example.com".to_string());
    ctx.data.push(("members".to_string(), members_json(&[("@alice:relay.example.com", "Owner"), ("@bob:relay.example.com", "Member")])));
    assert!(handler.call(&mut ctx).is_ok());
    assert!(!ctx.rejected);
}

#[test]
fn check_room_write_hook_declaration() {
    let (decl, _handler) = check_room_write_hook();
    assert_eq!(decl.id, "room.check_room_write");
    assert_eq!(decl.phase, HookPhase::PreSend);
    assert_eq!(decl.trigger_datatype, "*");
    assert_eq!(decl.trigger_event, TriggerEvent::Any);
    assert!(decl.trigger_filter.is_none());
    assert_eq!(decl.priority, 10);
    assert_eq!(decl.source, "room");
}

fn make_index(id: &str, refresh: RefreshStrategy) -> IndexDeclaration {
    IndexDeclaration { id: id.to_string(), input: "messages".to_string(), transform: "identity".to_string(), refresh, operation_id: None }
}

#[test]
fn tc_1_index_001_register_index() {
    let mut builder = IndexBuilder::new();
    builder.register(make_index("idx-1", RefreshStrategy::OnChange));
    let entry = builder.get("idx-1");
    assert!(entry.is_some());
    let entry = entry.unwrap();
    assert_eq!(entry.declaration.id, "idx-1");
    assert_eq!(entry.declaration.input, "messages");
    assert!(entry.last_refresh.is_none());
    assert!(builder.get("nonexistent").is_none());
}

#[test]
fn tc_1_index_002_on_change_always_needs_refresh() {
    let mut builder = IndexBuilder::new();
    builder.register(make_index("on-change-idx", RefreshStrategy::OnChange));
    let needing = builder.indexes_needing_refresh();
    assert_eq!(needing.len(), 1);
    assert_eq!(needing[0].declaration.id, "on-change-idx");
    builder.mark_refreshed("on-change-idx");
    let needing = builder.indexes_needing_refresh();
    assert_eq!(needing.len(), 1);
    assert_eq!(needing[0].declaration.id, "on-change-idx");
}

#[test]
fn tc_1_index_003_on_demand_never_auto_refreshes() {
    let mut builder = IndexBuilder::new();
    builder.register(make_index("on-demand-idx", RefreshStrategy::OnDemand));
    assert!(builder.indexes_needing_refresh().is_empty());
    builder.mark_refreshed("on-demand-idx");
    assert!(builder.indexes_needing_refresh().is_empty());
}

#[test]
fn periodic_index_due_rules() {
    assert!(refresh_due(RefreshStrategy::Periodic { interval_secs: 60 }, None));
    assert!(!refresh_due(RefreshStrategy::Periodic { interval_secs: 60 }, Some(59)));
    assert!(refresh_due(RefreshStrategy::Periodic { interval_secs: 60 }, Some(60)));
    assert!(refresh_due(RefreshStrategy::OnChange, Some(0)));
    assert!(!refresh_due(RefreshStrategy::OnDemand, None));
    let mut builder = IndexBuilder::new();
    builder.register(make_index("p", RefreshStrategy::Periodic { interval_secs: 3600 }));
    assert_eq!(builder.indexes_needing_refresh().len(), 1);
    builder.mark_refreshed("p");
    assert!(builder.indexes_needing_refresh().is_empty());
}

fn string_list(ctx: &HookContext, key: &str) -> Vec<String> {
    match ctx.data.iter().find(|(k, _)| k == key).map(|(_, v)| v) {
        Some(JsonValue::Array(items)) => items
            .iter()
            .map(|v| match v {
                JsonValue::Str(s) => s.clone(),
                _ => panic!("not a string"),
            })
            .collect(),
        _ => panic!("{key} is not a list"),
    }
}

#[test]
fn tc_1_tl_007_ref_change_detect_hook() {
    let decl = ref_change_detect_decl();

    assert_eq!(decl.id, "timeline.ref_change_detect");
    assert_eq!(decl.phase, HookPhase::AfterWrite);
    assert_eq!(decl.trigger_datatype, "timeline_index");
    assert_eq!(decl.trigger_event, TriggerEvent::Any);
    assert_eq!(decl.priority, 30);
    assert_eq!(decl.source, "timeline");

    let tref = make_ref("ref-new-001", "@alice:relay.com");
    let mut ctx = HookContext::new("timeline_index".to_string(), TriggerEvent::Insert);
    record_ref_changes(&mut ctx, Some(&tref));
    assert_eq!(string_list(&ctx, "new_refs"), vec!["ref-new-001"]);
    assert!(string_list(&ctx, "deleted_refs").is_empty());

    let mut ctx2 = HookContext::new("timeline_index".to_string(), TriggerEvent::Update);
    ctx2.data.push(("deleted_ref_id".to_string(), JsonValue::Str("ref-deleted-001".to_string())));
    record_ref_changes(&mut ctx2, None);
    assert!(string_list(&ctx2, "new_refs").is_empty());
    assert_eq!(string_list(&ctx2, "deleted_refs"), vec!["ref-deleted-001"]);
}

#[test]
fn ref_change_detect_ignores_deleted_written_ref() {
    let mut tref = make_ref("ref-gone", "@alice:relay.com");
    tref.status = RefStatus::DeletedByAuthor;
    let mut ctx = HookContext::new("timeline_index".to_string(), TriggerEvent::Update);
    ctx.data.push(("deleted_ref_id".to_string(), JsonValue::Number(7)));
    record_ref_changes(&mut ctx, Some(&tref));
    assert!(string_list(&ctx, "new_refs").is_empty());
    assert!(string_list(&ctx, "deleted_refs").is_empty());
}

#[test]
fn timeline_pagination_declaration_and_limit() {
    let decl = timeline_pagination_decl();
    assert_eq!(decl.id, "timeline.timeline_pagination");
    assert_eq!(decl.phase, HookPhase::AfterRead);
    assert_eq!(decl.trigger_datatype, "timeline_index");
    assert_eq!(decl.trigger_event, TriggerEvent::Any);
    assert_eq!(decl.priority, 30);
    assert_eq!(decl.source, "timeline");

    let mut data: Vec<(String, JsonValue)> = Vec::new();
    assert_eq!(page_limit(&data), 50);
    data.push(("limit".to_string(), JsonValue::Number(-3)));
    assert_eq!(page_limit(&data), 50);
    let data = vec![("limit".to_string(), JsonValue::Number(7))];
    assert_eq!(page_limit(&data), 7);
    let data = vec![("limit".to_string(), JsonValue::Str("7".to_string()))];
    assert_eq!(page_limit(&data), 50);
}

#[test]
fn paginate_no_more_when_only_empty_shards_follow() {
    let shards = vec![
        TimelineShard { shard_id: "s1".to_string(), refs: vec![make_ref("r1", "@alice:relay.com")] },
        TimelineShard { shard_id: "s2".to_string(), refs: Vec::new() },
        TimelineShard { shard_id: "s3".to_string(), refs: Vec::new() },
    ];
    let page = paginate(&shards, None, 1);
    assert_eq!(page.refs.len(), 1);
    assert_eq!(page.refs[0].ref_id, "r1");
    assert!(!page.has_more);
    assert!(page.next_cursor.is_none());
}

#[test]
fn paginate_skips_empty_shards_to_later_refs() {
    let shards = vec![
        TimelineShard { shard_id: "s1".to_string(), refs: vec![make_ref("r1", "@alice:relay.com")] },
        TimelineShard { shard_id: "s2".to_string(), refs: Vec::new() },
        TimelineShard { shard_id: "s3".to_string(), refs: vec![make_ref("r3", "@alice:relay.com")] },
    ];
    let page = paginate(&shards, None, 1);
    assert!(page.has_more);
    let cursor = page.next_cursor.clone().unwrap();
    let next = paginate(&shards, Some(&cursor), 5);
    assert_eq!(next.refs.len(), 1);
    assert_eq!(next.refs[0].ref_id, "r3");
    assert!(!next.has_more);
}
