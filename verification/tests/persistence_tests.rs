use ezagent::persistence::{needs_snapshot, recovered_counts, UpdateCounts, SNAPSHOT_THRESHOLD};

#[test]
fn counts_start_at_zero() {
    let counts = UpdateCounts::new();
    assert_eq!(counts.pending_update_count("room-a"), 0);
    assert!(!counts.has_count("room-a"));
    assert!(!counts.snapshot_due_for("room-a"));
}

#[test]
fn record_update_counts_each_document() {
    let mut counts = UpdateCounts::new();
    assert_eq!(counts.record_update("room-a"), 1);
    assert_eq!(counts.record_update("room-a"), 2);
    assert_eq!(counts.record_update("room-b"), 1);
    assert_eq!(counts.pending_update_count("room-a"), 2);
    assert_eq!(counts.pending_update_count("room-b"), 1);
    assert_eq!(counts.pending_update_count("room-c"), 0);
}

#[test]
fn snapshot_due_at_threshold_then_reset() {
    assert_eq!(SNAPSHOT_THRESHOLD, 100);
    assert!(!needs_snapshot(99));
    assert!(needs_snapshot(100));
    assert!(needs_snapshot(250));

    let mut counts = UpdateCounts::new();
    for i in 0..SNAPSHOT_THRESHOLD {
        assert!(!counts.snapshot_due_for("snapshot-test-room"), "due too early at {i}");
        counts.record_update("snapshot-test-room");
    }
    assert!(counts.snapshot_due_for("snapshot-test-room"));
    counts.reset("snapshot-test-room");
    assert_eq!(counts.pending_update_count("snapshot-test-room"), 0);
    assert!(counts.has_count("snapshot-test-room"));
    assert!(!counts.snapshot_due_for("snapshot-test-room"));
}

#[test]
fn set_if_absent_keeps_an_existing_count() {
    let mut counts = UpdateCounts::new();
    counts.set_count("room-a", 7);
    counts.set_if_absent("room-a", 3);
    counts.set_if_absent("room-b", 3);
    assert_eq!(counts.pending_update_count("room-a"), 7);
    assert_eq!(counts.pending_update_count("room-b"), 3);
}

#[test]
fn recovered_counts_prefer_pending_queues() {
    let pending = vec![("pending-test-room".to_owned(), 2u64), ("other".to_owned(), 1u64)];
    let meta = vec![
        ("pending-test-room".to_owned(), 40u64),
        ("meta-only".to_owned(), 5u64),
        ("meta-only".to_owned(), 9u64),
    ];
    let counts = recovered_counts(&pending, &meta);
    assert_eq!(counts.pending_update_count("pending-test-room"), 2);
    assert_eq!(counts.pending_update_count("other"), 1);
    assert_eq!(counts.pending_update_count("meta-only"), 5);
    assert_eq!(counts.pending_update_count("absent"), 0);
}

#[test]
fn recovered_counts_later_queue_replaces_earlier() {
    let pending = vec![("doc".to_owned(), 2u64), ("doc".to_owned(), 6u64)];
    let counts = recovered_counts(&pending, &Vec::new());
    assert_eq!(counts.pending_update_count("doc"), 6);
}
