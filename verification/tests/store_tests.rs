use ezagent::builtins::message::MessageContent;
use ezagent::builtins::room::{MembershipConfig, MembershipPolicy, PowerLevelConfig, RoomConfig, TimelineConfig};
use ezagent::builtins::timeline::{RefStatus, TimelineRef};
use ezagent::json::JsonValue;
use ezagent::store::EngineStore;

fn test_room(room_id: &str, name: &str) -> RoomConfig {
    RoomConfig {
        room_id: room_id.to_owned(),
        name: name.to_owned(),
        created_by: "@alice:relay.example.com".to_owned(),
        created_at: "2025-01-01T00:00:00Z".to_owned(),
        membership: MembershipConfig { policy: MembershipPolicy::Invite, members: Vec::new() },
        power_levels: PowerLevelConfig { default: 0, events_default: 0, admin: 50, users: Vec::new() },
        relays: vec!["relay.example.com".to_owned()],
        timeline: TimelineConfig { shard_max_refs: 10000 },
        enabled_extensions: Vec::new(),
        extra: Vec::new(),
    }
}

fn test_message(content_id: &str, body: &str) -> MessageContent {
    MessageContent {
        content_id: content_id.to_owned(),
        content_type: "immutable".to_owned(),
        author: "@alice:relay.example.com".to_owned(),
        body: JsonValue::Str(body.to_owned()),
        format: "text/plain".to_owned(),
        media_refs: Vec::new(),
        created_at: "2025-01-01T00:00:00Z".to_owned(),
        signature: None,
    }
}

fn test_timeline_ref(ref_id: &str, content_id: &str) -> TimelineRef {
    TimelineRef {
        ref_id: ref_id.to_owned(),
        author: "@alice:relay.example.com".to_owned(),
        content_type: "immutable".to_owned(),
        content_id: content_id.to_owned(),
        created_at: "2025-01-01T00:00:00Z".to_owned(),
        status: RefStatus::Active,
        signature: None,
        ext: Vec::new(),
    }
}

fn pair(k: &str, v: &str) -> (String, String) {
    (k.to_owned(), v.to_owned())
}

#[test]
fn insert_and_get_room() {
    let mut store = EngineStore::new();
    let room = test_room("R-alpha", "Alpha Room");

    store.insert_room(room);

    let retrieved = store.get_room("R-alpha");
    assert!(retrieved.is_some(), "room should be retrievable after insert");
    assert_eq!(retrieved.unwrap().name, "Alpha Room");
}

#[test]
fn get_nonexistent_room_returns_none() {
    let store = EngineStore::new();
    assert!(store.get_room("nonexistent").is_none());
}

#[test]
fn list_rooms_returns_all() {
    let mut store = EngineStore::new();
    store.insert_room(test_room("R-alpha", "Alpha"));
    store.insert_room(test_room("R-beta", "Beta"));

    let rooms = store.list_rooms();
    assert_eq!(rooms.len(), 2);

    let ids: Vec<&str> = rooms.iter().map(|r| r.room_id.as_str()).collect();
    assert!(ids.contains(&"R-alpha"));
    assert!(ids.contains(&"R-beta"));
}

#[test]
fn list_rooms_empty() {
    let store = EngineStore::new();
    assert!(store.list_rooms().is_empty());
}

#[test]
fn update_room_in_place() {
    let mut store = EngineStore::new();
    store.insert_room(test_room("R-alpha", "Alpha"));

    let updated = store.update_room("R-alpha", |mut config| {
        config.name = "Updated Alpha".to_owned();
        config
    });
    assert!(updated, "update_room should return true for existing room");

    let room = store.get_room("R-alpha").unwrap();
    assert_eq!(room.name, "Updated Alpha");
}

#[test]
fn update_nonexistent_room_returns_false() {
    let mut store = EngineStore::new();
    let updated = store.update_room("nonexistent", |config| config);
    assert!(!updated, "update_room should return false for missing room");
}

#[test]
fn update_room_keeps_the_key_it_was_stored_under() {
    let mut store = EngineStore::new();
    store.insert_room(test_room("R-alpha", "Alpha"));
    let updated = store.update_room("R-alpha", |mut config| {
        config.room_id = "R-renamed".to_owned();
        config
    });
    assert!(updated);
    assert_eq!(store.get_room("R-alpha").unwrap().room_id, "R-renamed");
    assert!(store.get_room("R-renamed").is_none());
}

#[test]
fn insert_room_overwrites_existing() {
    let mut store = EngineStore::new();
    store.insert_room(test_room("R-alpha", "Original"));
    store.insert_room(test_room("R-alpha", "Replaced"));

    let room = store.get_room("R-alpha").unwrap();
    assert_eq!(room.name, "Replaced");
    assert_eq!(store.list_rooms().len(), 1);
}

#[test]
fn insert_and_list_messages() {
    let mut store = EngineStore::new();
    store.insert_message("R-alpha", test_message("msg-001", "Hello"));
    store.insert_message("R-alpha", test_message("msg-002", "World"));

    let msgs = store.list_messages("R-alpha", 10, None);
    assert_eq!(msgs.len(), 2);
    assert_eq!(msgs[0].content_id, "msg-001");
    assert_eq!(msgs[1].content_id, "msg-002");
}

#[test]
fn list_messages_empty_room() {
    let store = EngineStore::new();
    assert!(store.list_messages("nonexistent", 10, None).is_empty());
}

#[test]
fn list_messages_with_limit() {
    let mut store = EngineStore::new();
    for i in 0..5 {
        store.insert_message("R-alpha", test_message(&format!("msg-{i:03}"), "text"));
    }

    let msgs = store.list_messages("R-alpha", 3, None);
    assert_eq!(msgs.len(), 3);
    assert_eq!(msgs[0].content_id, "msg-002");
    assert_eq!(msgs[1].content_id, "msg-003");
    assert_eq!(msgs[2].content_id, "msg-004");
}

#[test]
fn list_messages_with_before() {
    let mut store = EngineStore::new();
    for i in 0..5 {
        store.insert_message("R-alpha", test_message(&format!("msg-{i:03}"), "text"));
    }

    let msgs = store.list_messages("R-alpha", 2, Some("msg-003"));
    assert_eq!(msgs.len(), 2);
    assert_eq!(msgs[0].content_id, "msg-001");
    assert_eq!(msgs[1].content_id, "msg-002");
}

#[test]
fn list_messages_before_nonexistent_returns_all() {
    let mut store = EngineStore::new();
    store.insert_message("R-alpha", test_message("msg-001", "Hello"));

    let msgs = store.list_messages("R-alpha", 10, Some("nonexistent"));
    assert_eq!(msgs.len(), 1);
}

#[test]
fn list_messages_limit_exceeds_count() {
    let mut store = EngineStore::new();
    store.insert_message("R-alpha", test_message("msg-001", "Hello"));

    let msgs = store.list_messages("R-alpha", 100, None);
    assert_eq!(msgs.len(), 1);
}

#[test]
fn list_messages_before_first_is_empty_and_zero_limit_is_empty() {
    let mut store = EngineStore::new();
    for i in 0..3 {
        store.insert_message("R-alpha", test_message(&format!("msg-{i:03}"), "text"));
    }
    assert!(store.list_messages("R-alpha", 5, Some("msg-000")).is_empty());
    assert!(store.list_messages("R-alpha", 0, None).is_empty());
}

#[test]
fn insert_and_get_timeline_ref() {
    let mut store = EngineStore::new();
    let tref = test_timeline_ref("ref-001", "content-abc");

    store.insert_timeline_ref("R-alpha", tref);

    let retrieved = store.get_timeline_ref("R-alpha", "ref-001");
    assert!(retrieved.is_some());
    assert_eq!(retrieved.unwrap().content_id, "content-abc");
}

#[test]
fn get_timeline_ref_nonexistent_room() {
    let store = EngineStore::new();
    assert!(store.get_timeline_ref("nonexistent", "ref-001").is_none());
}

#[test]
fn get_timeline_ref_nonexistent_ref() {
    let mut store = EngineStore::new();
    store.insert_timeline_ref("R-alpha", test_timeline_ref("ref-001", "c1"));
    assert!(store.get_timeline_ref("R-alpha", "nonexistent").is_none());
}

#[test]
fn list_timeline_refs() {
    let mut store = EngineStore::new();
    store.insert_timeline_ref("R-alpha", test_timeline_ref("ref-001", "c1"));
    store.insert_timeline_ref("R-alpha", test_timeline_ref("ref-002", "c2"));

    let refs = store.list_timeline_refs("R-alpha");
    assert_eq!(refs.len(), 2);
    assert_eq!(refs[0].ref_id, "ref-001");
    assert_eq!(refs[1].ref_id, "ref-002");
}

#[test]
fn list_timeline_refs_empty_room() {
    let store = EngineStore::new();
    assert!(store.list_timeline_refs("nonexistent").is_empty());
}

#[test]
fn timeline_refs_scoped_by_room() {
    let mut store = EngineStore::new();
    store.insert_timeline_ref("R-alpha", test_timeline_ref("ref-001", "c1"));
    store.insert_timeline_ref("R-beta", test_timeline_ref("ref-002", "c2"));

    assert_eq!(store.list_timeline_refs("R-alpha").len(), 1);
    assert_eq!(store.list_timeline_refs("R-beta").len(), 1);
    assert!(store.get_timeline_ref("R-alpha", "ref-002").is_none());
}

#[test]
fn add_and_list_annotations() {
    let mut store = EngineStore::new();
    store.add_annotation("R-alpha", "ref-001", "reaction:thumbsup", "@alice");
    store.add_annotation("R-alpha", "ref-001", "reaction:heart", "@bob");

    let annotations = store.list_annotations("R-alpha", "ref-001");
    assert_eq!(annotations.len(), 2);
    assert!(annotations.contains(&pair("reaction:thumbsup", "@alice")));
    assert!(annotations.contains(&pair("reaction:heart", "@bob")));
}

#[test]
fn list_annotations_empty() {
    let store = EngineStore::new();
    assert!(store.list_annotations("R-alpha", "ref-001").is_empty());
}

#[test]
fn add_annotation_replaces_existing_key() {
    let mut store = EngineStore::new();
    store.add_annotation("R-alpha", "ref-001", "status", "draft");
    store.add_annotation("R-alpha", "ref-001", "status", "published");

    let annotations = store.list_annotations("R-alpha", "ref-001");
    assert_eq!(annotations.len(), 1);
    assert_eq!(annotations[0], pair("status", "published"));
}

#[test]
fn remove_annotation() {
    let mut store = EngineStore::new();
    store.add_annotation("R-alpha", "ref-001", "key1", "val1");
    store.add_annotation("R-alpha", "ref-001", "key2", "val2");

    let removed = store.remove_annotation("R-alpha", "ref-001", "key1");
    assert!(removed, "should return true for existing annotation");

    let annotations = store.list_annotations("R-alpha", "ref-001");
    assert_eq!(annotations.len(), 1);
    assert_eq!(annotations[0].0, "key2");
}

#[test]
fn remove_nonexistent_annotation() {
    let mut store = EngineStore::new();
    let removed = store.remove_annotation("R-alpha", "ref-001", "nope");
    assert!(!removed, "should return false for missing annotation");
}

#[test]
fn annotations_scoped_by_room_and_ref() {
    let mut store = EngineStore::new();
    store.add_annotation("R-alpha", "ref-001", "key", "val-a");
    store.add_annotation("R-alpha", "ref-002", "key", "val-b");
    store.add_annotation("R-beta", "ref-001", "key", "val-c");

    assert_eq!(store.list_annotations("R-alpha", "ref-001"), vec![pair("key", "val-a")]);
    assert_eq!(store.list_annotations("R-alpha", "ref-002"), vec![pair("key", "val-b")]);
    assert_eq!(store.list_annotations("R-beta", "ref-001"), vec![pair("key", "val-c")]);
}

#[test]
fn set_then_remove_leaves_other_keys_in_order() {
    let mut store = EngineStore::new();
    store.add_annotation("R-alpha", "ref-001", "a", "1");
    store.add_annotation("R-alpha", "ref-001", "b", "2");
    store.add_annotation("R-alpha", "ref-001", "c", "3");
    store.add_annotation("R-alpha", "ref-001", "b", "4");
    assert_eq!(
        store.list_annotations("R-alpha", "ref-001"),
        vec![pair("a", "1"), pair("b", "4"), pair("c", "3")]
    );
    assert!(store.remove_annotation("R-alpha", "ref-001", "b"));
    assert!(!store.remove_annotation("R-alpha", "ref-001", "b"));
    assert_eq!(store.list_annotations("R-alpha", "ref-001"), vec![pair("a", "1"), pair("c", "3")]);
}

#[test]
fn default_creates_empty_store() {
    let store = EngineStore::default();
    assert!(store.list_rooms().is_empty());
    assert!(store.list_messages("any", 10, None).is_empty());
    assert!(store.list_timeline_refs("any").is_empty());
    assert!(store.list_annotations("any", "any").is_empty());
}

#[test]
fn debug_format_shows_counts() {
    let mut store = EngineStore::new();
    store.insert_room(test_room("R-alpha", "Alpha"));
    store.insert_message("R-alpha", test_message("m1", "hi"));

    let debug = store.debug_string();
    assert!(debug.contains("EngineStore"));
    assert!(debug.contains("rooms_count"));
}

#[test]
fn debug_string_counts_each_kind() {
    let mut store = EngineStore::new();
    assert_eq!(
        store.debug_string(),
        "EngineStore { rooms_count: 0, messages_rooms: 0, timeline_rooms: 0, annotation_entries: 0 }"
    );
    store.insert_room(test_room("R-alpha", "Alpha"));
    store.insert_room(test_room("R-beta", "Beta"));
    store.insert_message("R-alpha", test_message("m1", "hi"));
    store.insert_message("R-alpha", test_message("m2", "again"));
    store.add_annotation("R-alpha", "ref-1", "k", "v");
    assert_eq!(
        store.debug_string(),
        "EngineStore { rooms_count: 2, messages_rooms: 1, timeline_rooms: 0, annotation_entries: 1 }"
    );
}
