use ezagent::cli::messages::select_refs;
use ezagent::cli::status::relay_host;
use ezagent::cli::events::{event_room_id, format_event, passes_room_filter};
use ezagent::cli::exit_codes::{error_to_exit_code, EXIT_AUTH_FAILED, EXIT_PERMISSION_DENIED, EXIT_RUNTIME_ERROR};
use ezagent::cli::open::{parse_ezagent_uri, resolve_path, Resource};
use ezagent::cli::output::{
    message_table_header, message_table_row, pad_right, room_table_header, room_table_row, OutputFormat, ROOM_ID_WIDTH,
};
use ezagent::error::EngineError;
use ezagent::events::EngineEvent;

fn make_message_new() -> EngineEvent {
    EngineEvent::MessageNew {
        room_id: "R-alpha".to_string(),
        ref_id: "ref-001".to_string(),
        author: "@alice:relay.com".to_string(),
        content_id: "hash123".to_string(),
    }
}

fn make_message_deleted() -> EngineEvent {
    EngineEvent::MessageDeleted { room_id: "R-alpha".to_string(), ref_id: "ref-002".to_string(), author: "@bob:relay.com".to_string() }
}

fn make_room_joined() -> EngineEvent {
    EngineEvent::RoomMemberJoined { room_id: "R-beta".to_string(), entity_id: "@carol:relay.com".to_string() }
}

fn make_room_left() -> EngineEvent {
    EngineEvent::RoomMemberLeft { room_id: "R-beta".to_string(), entity_id: "@dave:relay.com".to_string() }
}

#[test]
fn event_room_id_message_new() {
    assert_eq!(event_room_id(&make_message_new()), "R-alpha");
}

#[test]
fn event_room_id_message_deleted() {
    assert_eq!(event_room_id(&make_message_deleted()), "R-alpha");
}

#[test]
fn event_room_id_room_joined() {
    assert_eq!(event_room_id(&make_room_joined()), "R-beta");
}

#[test]
fn event_room_id_room_left() {
    assert_eq!(event_room_id(&make_room_left()), "R-beta");
}

#[test]
fn format_event_message_new() {
    let formatted = format_event(&make_message_new());
    assert!(formatted.contains("message.new"), "{formatted}");
    assert!(formatted.contains("R-alpha"), "{formatted}");
    assert!(formatted.contains("@alice:relay.com"), "{formatted}");
    assert!(formatted.contains("ref=ref-001"), "{formatted}");
}

#[test]
fn format_event_message_deleted() {
    let formatted = format_event(&make_message_deleted());
    assert!(formatted.contains("message.delete"), "{formatted}");
    assert!(formatted.contains("R-alpha"), "{formatted}");
    assert!(formatted.contains("@bob:relay.com"), "{formatted}");
    assert!(formatted.contains("ref=ref-002"), "{formatted}");
}

#[test]
fn format_event_room_joined() {
    let formatted = format_event(&make_room_joined());
    assert!(formatted.contains("room.joined"), "{formatted}");
    assert!(formatted.contains("R-beta"), "{formatted}");
    assert!(formatted.contains("@carol:relay.com"), "{formatted}");
}

#[test]
fn format_event_room_left() {
    let formatted = format_event(&make_room_left());
    assert!(formatted.contains("room.left"), "{formatted}");
    assert!(formatted.contains("R-beta"), "{formatted}");
    assert!(formatted.contains("@dave:relay.com"), "{formatted}");
}

#[test]
fn format_event_exact_lines() {
    assert_eq!(format_event(&make_message_new()), "message.new    R-alpha  @alice:relay.com  ref=ref-001");
    assert_eq!(format_event(&make_room_left()), "room.left      R-beta  @dave:relay.com");
}

#[test]
fn room_filter_matches() {
    let event_alpha = EngineEvent::MessageNew {
        room_id: "R-alpha".to_string(),
        ref_id: "ref-001".to_string(),
        author: "@alice:relay.com".to_string(),
        content_id: "hash".to_string(),
    };
    let event_beta = EngineEvent::RoomMemberJoined { room_id: "R-beta".to_string(), entity_id: "@bob:relay.com".to_string() };
    let filter = "R-alpha";
    assert_eq!(event_room_id(&event_alpha), filter);
    assert_ne!(event_room_id(&event_beta), filter);
    assert!(passes_room_filter(&event_alpha, Some(filter)));
    assert!(!passes_room_filter(&event_beta, Some(filter)));
    assert!(passes_room_filter(&event_beta, None));
}

#[test]
fn parse_valid_room_uri() {
    let parsed = parse_ezagent_uri("ezagent://relay.test/r/room-123").unwrap();
    assert_eq!(parsed.authority, "relay.test");
    assert_eq!(parsed.path, "/r/room-123");
}

#[test]
fn parse_valid_message_uri() {
    let parsed = parse_ezagent_uri("ezagent://relay.test/r/room-1/m/ref-1").unwrap();
    assert_eq!(parsed.authority, "relay.test");
    assert_eq!(parsed.path, "/r/room-1/m/ref-1");
}

#[test]
fn parse_normalizes_authority_lowercase() {
    let parsed = parse_ezagent_uri("ezagent://Relay.Test/r/room-1").unwrap();
    assert_eq!(parsed.authority, "relay.test");
}

#[test]
fn parse_strips_trailing_slash() {
    let parsed = parse_ezagent_uri("ezagent://relay.test/r/room-1/").unwrap();
    assert_eq!(parsed.authority, "relay.test");
    assert_eq!(parsed.path, "/r/room-1");
}

#[test]
fn parse_rejects_wrong_scheme() {
    assert!(parse_ezagent_uri("http://example.com").is_err());
}

#[test]
fn parse_rejects_missing_authority() {
    assert!(parse_ezagent_uri("ezagent://").is_err());
}

#[test]
fn parse_rejects_not_a_uri() {
    assert!(parse_ezagent_uri("not-a-uri").is_err());
}

#[test]
fn parse_uri_edge_cases() {
    let parsed = parse_ezagent_uri("  ezagent://relay.test  ").unwrap();
    assert_eq!(parsed.authority, "relay.test");
    assert_eq!(parsed.path, "/");
    assert_eq!(parse_ezagent_uri("ezagent:///r/x").unwrap_err(), "missing authority");
    assert_eq!(parse_ezagent_uri("http://x").unwrap_err(), "scheme must be 'ezagent://'");
}

#[test]
fn resolve_room_path() {
    match resolve_path("/r/room-123").unwrap() {
        Resource::Room { room_id } => assert_eq!(room_id, "room-123"),
        _ => panic!("expected Room"),
    }
}

#[test]
fn resolve_message_path() {
    match resolve_path("/r/room-1/m/ref-1").unwrap() {
        Resource::Message { room_id, ref_id } => {
            assert_eq!(room_id, "room-1");
            assert_eq!(ref_id, "ref-1");
        }
        _ => panic!("expected Message"),
    }
}

#[test]
fn resolve_rejects_unknown_path() {
    assert!(resolve_path("/unknown/path").is_err());
    assert!(resolve_path("/").is_err());
    assert_eq!(resolve_path("/x/y/").unwrap_err(), "unrecognized path: /x/y");
}

#[test]
fn from_flags_json_takes_precedence() {
    match OutputFormat::from_flags(true, true) {
        OutputFormat::Json => {}
        _ => panic!("json flag should take precedence"),
    }
}

#[test]
fn from_flags_quiet() {
    match OutputFormat::from_flags(false, true) {
        OutputFormat::Quiet => {}
        _ => panic!("should be quiet"),
    }
}

#[test]
fn from_flags_default_is_table() {
    match OutputFormat::from_flags(false, false) {
        OutputFormat::Table => {}
        _ => panic!("default should be table"),
    }
}

#[test]
fn test_permission_denied_exit_code() {
    assert_eq!(error_to_exit_code(&EngineError::PermissionDenied("test".into())), EXIT_PERMISSION_DENIED);
}

#[test]
fn test_not_a_member_exit_code() {
    let err = EngineError::NotAMember { entity_id: "@alice:relay.com".into(), room_id: "R-alpha".into() };
    assert_eq!(error_to_exit_code(&err), EXIT_PERMISSION_DENIED);
}

#[test]
fn test_signature_failed_exit_code() {
    assert_eq!(error_to_exit_code(&EngineError::SignatureVerificationFailed("bad sig".into())), EXIT_AUTH_FAILED);
}

#[test]
fn test_hook_rejected_exit_code() {
    assert_eq!(error_to_exit_code(&EngineError::HookRejected("denied".into())), EXIT_RUNTIME_ERROR);
}

#[test]
fn test_not_found_exit_code() {
    assert_eq!(error_to_exit_code(&EngineError::DatatypeNotFound("room xyz".into())), EXIT_RUNTIME_ERROR);
}

#[test]
fn test_circular_dependency_exit_code() {
    assert_eq!(error_to_exit_code(&EngineError::CircularDependency { cycle: "A -> B -> A".into() }), EXIT_RUNTIME_ERROR);
}

#[test]
fn test_extension_load_failed_exit_code() {
    let err = EngineError::ExtensionLoadFailed { name: "ext-test".into(), reason: "missing lib".into() };
    assert_eq!(error_to_exit_code(&err), EXIT_RUNTIME_ERROR);
}

#[test]
fn relay_host_strips_scheme_and_port() {
    assert_eq!(relay_host("tls/relay.example.com:7448"), "relay.example.com");
    assert_eq!(relay_host("relay.example.com"), "relay.example.com");
    assert_eq!(relay_host("tcp/[::1]:7447"), "tcp/[::1]");
    assert_eq!(relay_host("tls/"), "");
}

#[test]
fn message_list_selects_refs_before_and_limit() {
    let refs: Vec<String> = (0..5).map(|i| format!("ref-{i}")).collect();
    let ids = |v: Vec<&String>| v.into_iter().cloned().collect::<Vec<String>>();
    assert_eq!(ids(select_refs(&refs, None, None)), refs);
    assert_eq!(ids(select_refs(&refs, Some(2), None)), vec!["ref-3", "ref-4"]);
    assert_eq!(ids(select_refs(&refs, Some(2), Some("ref-3"))), vec!["ref-1", "ref-2"]);
    assert_eq!(ids(select_refs(&refs, None, Some("ref-0"))).len(), 0);
    assert_eq!(ids(select_refs(&refs, Some(10), Some("missing"))).len(), 5);
}

#[test]
fn room_table_lines_match_column_format() {
    assert_eq!(ROOM_ID_WIDTH, 40);
    assert_eq!(room_table_header(), format!("{:<40} NAME", "ROOM ID"));
    let id = "019f0c1e-9b2a-7c3d-8e4f-5a6b7c8d9e0f";
    assert_eq!(room_table_row(id, "Alpha Room"), format!("{:<40} {}", id, "Alpha Room"));
    assert_eq!(room_table_row(id, ""), format!("{:<40} ", id));
}

#[test]
fn pad_right_pads_by_characters() {
    assert_eq!(pad_right("ab", 5), "ab   ");
    assert_eq!(pad_right("abcdef", 3), "abcdef");
    assert_eq!(pad_right("é", 3), "é  ");
    assert_eq!(pad_right("", 0), "");
}

#[test]
fn message_table_lines_match_column_format() {
    assert_eq!(
        message_table_header(),
        format!("{:<28} {:<20} {:<30} CONTENT ID", "REF ID", "AUTHOR", "CREATED AT")
    );
    let row = message_table_row("01HZXYZ", "@alice:relay.com", "2026-03-01T00:00:00Z", "abc123");
    assert_eq!(
        row,
        format!("{:<28} {:<20} {:<30} {}", "01HZXYZ", "@alice:relay.com", "2026-03-01T00:00:00Z", "abc123")
    );
}
