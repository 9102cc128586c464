use ezagent::error::EngineError;
use ezagent::sync::{compare_state_vectors, select_best_source, PendingQueue, SyncDecision};
use ezagent::uri_registry::{path_matches_pattern, patterns_conflict, segments, UriPathRegistry};

#[test]
fn tc_2_uri_001_conflict_detection() {
    let mut reg = UriPathRegistry::new();
    reg.register("/r/{room_id}/c/{channel_name}", "ext-a").expect("first registration should succeed");
    let err = reg.register("/r/{room_id}/c/{channel_name}", "ext-b").expect_err("should fail");
    match err {
        EngineError::UriPathConflict { pattern, ext_a, ext_b } => {
            assert_eq!(pattern, "/r/{room_id}/c/{channel_name}");
            assert_eq!(ext_a, "ext-a");
            assert_eq!(ext_b, "ext-b");
        }
        other => panic!("expected UriPathConflict, got: {other:?}"),
    }
}

#[test]
fn tc_2_uri_002_non_conflicting_patterns() {
    let mut reg = UriPathRegistry::new();
    reg.register("/r/{room_id}/m/{ref_id}/reactions", "reactions").unwrap();
    reg.register("/r/{room_id}/m/{ref_id}/thread", "threads").unwrap();
    reg.register("/r/{room_id}/c/{channel_name}", "channels").unwrap();
    reg.register("/@{entity_id}/profile", "profile").unwrap();
    assert_eq!(reg.entries().len(), 4);
}

#[test]
fn tc_2_uri_003_no_uri_section() {
    let reg = UriPathRegistry::new();
    assert!(reg.entries().is_empty());
    assert!(reg.resolve("/any/path").is_none());
}

#[test]
fn resolve_concrete_path() {
    let mut reg = UriPathRegistry::new();
    reg.register("/r/{room_id}/m/{ref_id}/reactions", "reactions").unwrap();
    reg.register("/r/{room_id}/m/{ref_id}/thread", "threads").unwrap();
    reg.register("/r/{room_id}/c/{channel_name}", "channels").unwrap();
    reg.register("/@{entity_id}/profile", "profile").unwrap();
    assert_eq!(reg.resolve("/r/abc123/m/ref001/reactions"), Some("reactions"));
    assert_eq!(reg.resolve("/r/abc123/c/general"), Some("channels"));
    assert_eq!(reg.resolve("/@alice/profile"), Some("profile"));
    assert_eq!(reg.resolve("/unknown/path"), None);
    assert_eq!(reg.resolve("/r/abc123/m/ref001"), None);
}

#[test]
fn different_length_patterns_dont_conflict() {
    let mut reg = UriPathRegistry::new();
    reg.register("/r/{room_id}/m/{ref_id}/reactions", "reactions").unwrap();
    reg.register("/r/{room_id}/m/{ref_id}", "messages").unwrap();
    assert_eq!(reg.entries().len(), 2);
}

#[test]
fn placeholder_vs_literal_conflicts() {
    let mut reg = UriPathRegistry::new();
    reg.register("/r/{room_id}/c/{name}", "ext-a").unwrap();
    let err = reg.register("/r/{room_id}/c/{channel_name}", "ext-b").unwrap_err();
    match err {
        EngineError::UriPathConflict { ext_a, ext_b, .. } => {
            assert_eq!(ext_a, "ext-a");
            assert_eq!(ext_b, "ext-b");
        }
        other => panic!("expected UriPathConflict, got: {other:?}"),
    }
}

#[test]
fn literal_vs_placeholder_conflicts() {
    let mut reg = UriPathRegistry::new();
    reg.register("/r/{room_id}/c/general", "ext-a").unwrap();
    let err = reg.register("/r/{room_id}/c/{channel_name}", "ext-b").unwrap_err();
    assert!(matches!(err, EngineError::UriPathConflict { .. }));
}

#[test]
fn same_extension_re_register_is_idempotent() {
    let mut reg = UriPathRegistry::new();
    reg.register("/r/{room_id}/c/{channel_name}", "channels").unwrap();
    reg.register("/r/{room_id}/c/{channel_name}", "channels").unwrap();
    assert_eq!(reg.entries().len(), 2);
}

#[test]
fn default_is_empty() {
    let reg = UriPathRegistry::new();
    assert!(reg.entries().is_empty());
}

#[test]
fn patterns_conflict_unit() {
    assert!(patterns_conflict("/a/b/c", "/a/b/c"));
    assert!(!patterns_conflict("/a/b/c", "/a/b/d"));
    assert!(!patterns_conflict("/a/b", "/a/b/c"));
    assert!(patterns_conflict("/{x}/{y}", "/{a}/{b}"));
    assert!(patterns_conflict("/{x}/b", "/a/b"));
}

#[test]
fn path_matches_pattern_unit() {
    assert!(path_matches_pattern("/r/abc/m/ref1/reactions", "/r/{room_id}/m/{ref_id}/reactions"));
    assert!(!path_matches_pattern("/r/abc/m/ref1", "/r/{room_id}/m/{ref_id}/reactions"));
    assert!(!path_matches_pattern("/r/abc/m/ref1/thread", "/r/{room_id}/m/{ref_id}/reactions"));
    assert!(path_matches_pattern("/a/b", "/{x}/{y}"));
    assert!(path_matches_pattern("/a/b", "/a/b"));
    assert!(!path_matches_pattern("/a/b", "/a/c"));
}

#[test]
fn prefixed_placeholder_requires_prefix() {
    assert!(path_matches_pattern("/@alice/profile", "/@{entity_id}/profile"));
    assert!(!path_matches_pattern("/alice/profile", "/@{entity_id}/profile"));
}

#[test]
fn segments_split_after_leading_slash() {
    assert_eq!(segments("/a//b"), vec!["a", "", "b"]);
    assert!(segments("/").is_empty());
    assert!(segments("").is_empty());
}

#[test]
fn tc_2_interact_001_uri_conflict_detection() {
    let mut registry = UriPathRegistry::new();
    registry.register("/r/{room_id}/m/{ref_id}/reactions", "reactions").expect("first");
    registry.register("/r/{room_id}/m/{ref_id}/thread", "threads").expect("different literal");
    let err = registry.register("/r/{room_id}/m/{ref_id}/reactions", "other").expect_err("conflict");
    let err_str = err.message();
    assert!(err_str.contains("reactions") || err_str.contains("conflict"), "got: {err_str}");
}

#[test]
fn tc_1_sync_004_state_vector_comparison() {
    assert_eq!(compare_state_vectors(b"abc", b"abc"), SyncDecision::UpToDate);
    assert_eq!(compare_state_vectors(b"", b""), SyncDecision::UpToDate);
    assert_eq!(compare_state_vectors(b"", b"remote-sv"), SyncDecision::NeedRemoteState);
    assert_eq!(compare_state_vectors(b"local-sv", b""), SyncDecision::SendLocalState);
    assert_eq!(compare_state_vectors(b"local-sv", b"remote-sv"), SyncDecision::BidirectionalSync);
}

#[test]
fn tc_1_sync_006_multi_source_selection() {
    assert_eq!(select_best_source(&[]), None);
    let responses = vec![("peer-a".to_string(), vec![1, 2, 3])];
    assert_eq!(select_best_source(&responses), Some("peer-a".to_string()));
    let responses = vec![
        ("peer-a".to_string(), vec![1, 2]),
        ("peer-b".to_string(), vec![1, 2, 3, 4, 5]),
        ("peer-c".to_string(), vec![1, 2, 3]),
    ];
    assert_eq!(select_best_source(&responses), Some("peer-b".to_string()));
}

#[test]
fn best_source_ties_go_to_the_last() {
    let responses = vec![("peer-a".to_string(), vec![1, 2]), ("peer-b".to_string(), vec![3, 4])];
    assert_eq!(select_best_source(&responses), Some("peer-b".to_string()));
}

#[test]
fn tc_1_sync_005_pending_queue_operations() {
    let mut queue: PendingQueue<Vec<u8>> = PendingQueue::new();
    assert!(queue.is_empty());
    assert_eq!(queue.len(), 0);
    queue.enqueue("doc/1".to_string(), b"update-1".to_vec());
    queue.enqueue("doc/2".to_string(), b"update-2".to_vec());
    assert!(!queue.is_empty());
    assert_eq!(queue.len(), 2);
    let drained = queue.drain();
    assert_eq!(drained.len(), 2);
    assert!(queue.is_empty());
    assert_eq!(queue.len(), 0);
    assert_eq!(drained[0].doc_id, "doc/1");
    assert_eq!(drained[0].envelope, b"update-1");
    assert_eq!(drained[1].doc_id, "doc/2");
    assert_eq!(drained[1].envelope, b"update-2");
}

#[test]
fn tc_1_sync_007_pending_queue_order() {
    let mut queue: PendingQueue<Vec<u8>> = PendingQueue::new();
    for i in 0..5 {
        queue.enqueue(format!("doc/{}", i), format!("update-{}", i).into_bytes());
    }
    assert_eq!(queue.len(), 5);
    let drained = queue.drain();
    assert_eq!(drained.len(), 5);
    for (i, update) in drained.iter().enumerate() {
        assert_eq!(update.doc_id, format!("doc/{}", i));
        assert_eq!(update.envelope, format!("update-{}", i).as_bytes());
    }
}

#[test]
fn pending_queue_default() {
    let queue: PendingQueue<Vec<u8>> = PendingQueue::default();
    assert!(queue.is_empty());
}

#[test]
fn enqueue_at_keeps_timestamp() {
    let mut queue: PendingQueue<u8> = PendingQueue::new();
    queue.enqueue_at("doc".to_string(), 7, 1234);
    let d = queue.drain();
    assert_eq!(d[0].queued_at, 1234);
    assert_eq!(d[0].envelope, 7);
}

#[test]
fn prefixed_placeholders_conflict_with_plain_ones() {
    assert!(patterns_conflict("/{x}", "/@{y}"));
    assert!(patterns_conflict("/r/a{x}", "/r/ab{y}"));
    assert!(!patterns_conflict("/r/a{x}", "/r/b{y}"));
    let mut r = UriPathRegistry::new();
    assert!(r.register("/{x}", "ext-a").is_ok());
    assert!(matches!(r.register("/@{y}", "ext-b"), Err(EngineError::UriPathConflict { .. })));
    assert!(path_matches_pattern("/@alice", "/{x}"));
    assert!(path_matches_pattern("/@alice", "/@{y}"));
}
