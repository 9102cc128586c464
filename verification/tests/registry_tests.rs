use ezagent::annotation::{check_annotation_writer, validate_annotation_key, validate_namespace};
use ezagent::error::EngineError;
use ezagent::registry::datatype::{
    DataEntry, DatatypeDeclaration, IndexDeclaration, KeyPattern, RefreshStrategy, StorageType, SyncMode,
    WriterRule,
};
use ezagent::registry::dependency::{describe_cycle, resolve_load_order};
use ezagent::registry::DatatypeRegistry;

fn deps_table(pairs: Vec<(&str, Vec<&str>)>) -> Vec<(String, Vec<String>)> {
    pairs
        .into_iter()
        .map(|(k, v)| (k.to_string(), v.into_iter().map(String::from).collect()))
        .collect()
}

fn builtin_decl(id: &str, deps: Vec<&str>) -> DatatypeDeclaration {
    DatatypeDeclaration {
        id: id.to_string(),
        version: "1.0.0".to_string(),
        dependencies: deps.into_iter().map(String::from).collect(),
        data_entries: vec![DataEntry {
            id: format!("{id}_entry"),
            storage_type: StorageType::CrdtMap,
            key_pattern: KeyPattern::new(format!("entity/@{{entity_id}}/{id}")),
            persistent: true,
            writer_rule: WriterRule::SignerIsEntity,
            sync_strategy: SyncMode::default(),
        }],
        indexes: vec![],
        hooks: vec![],
        is_builtin: true,
    }
}

fn extension_decl(id: &str, deps: Vec<&str>) -> DatatypeDeclaration {
    DatatypeDeclaration {
        id: id.to_string(),
        version: "1.0.0".to_string(),
        dependencies: deps.into_iter().map(String::from).collect(),
        data_entries: vec![DataEntry {
            id: format!("{id}_entry"),
            storage_type: StorageType::CrdtMap,
            key_pattern: KeyPattern::new(format!("room/{{room_id}}/ext/{id}")),
            persistent: true,
            writer_rule: WriterRule::SignerInMembers,
            sync_strategy: SyncMode::default(),
        }],
        indexes: vec![],
        hooks: vec![],
        is_builtin: false,
    }
}

fn register_builtins(reg: &mut DatatypeRegistry) {
    reg.register(builtin_decl("identity", vec![])).unwrap();
    reg.register(builtin_decl("room", vec!["identity"])).unwrap();
    reg.register(builtin_decl("timeline", vec!["identity", "room"])).unwrap();
    reg.register(builtin_decl("message", vec!["identity", "room", "timeline"])).unwrap();
}

#[test]
fn tc_1_annot_001_valid_annotation_key() {
    let result = validate_annotation_key("note:@bob:relay.example.com");
    assert!(result.is_ok(), "expected Ok, got {result:?}");
    let (semantic, entity_id) = result.unwrap();
    assert_eq!(semantic, "note");
    assert_eq!(entity_id, "@bob:relay.example.com");
}

#[test]
fn tc_1_annot_002_invalid_key_no_colon() {
    let result = validate_annotation_key("invalid");
    assert!(result.is_err());
    let err = result.unwrap_err();
    assert!(matches!(err, EngineError::InvalidAnnotationKey(_)), "got {err:?}");
}

#[test]
fn tc_1_annot_003_writer_restriction_ok() {
    let result = check_annotation_writer("note:@bob:relay.example.com", "@bob:relay.example.com");
    assert!(result.is_ok(), "expected Ok for matching signer, got {result:?}");
}

#[test]
fn tc_1_annot_004_writer_restriction_denied() {
    let result = check_annotation_writer("note:@bob:relay.example.com", "@alice:relay.example.com");
    assert!(result.is_err());
    let err = result.unwrap_err();
    assert!(matches!(err, EngineError::PermissionDenied(_)), "got {err:?}");
}

#[test]
fn tc_1_annot_005_namespace_validation() {
    let result = validate_namespace("ext.reactions");
    assert!(result.is_ok(), "got {result:?}");
    assert_eq!(result.unwrap(), "reactions");
    let result = validate_namespace("invalid");
    assert!(result.is_err());
    assert!(matches!(result.unwrap_err(), EngineError::InvalidNamespace(_)));
    let result = validate_namespace("ext.");
    assert!(result.is_err());
    assert!(matches!(result.unwrap_err(), EngineError::InvalidNamespace(_)));
}

#[test]
fn no_deps_returns_alphabetical() {
    let ids: Vec<String> = vec!["c".into(), "a".into(), "b".into()];
    let order = resolve_load_order(&ids, &[]).unwrap();
    assert_eq!(order, vec!["a", "b", "c"]);
}

#[test]
fn linear_chain() {
    let ids: Vec<String> = vec!["a".into(), "b".into(), "c".into()];
    let deps = deps_table(vec![("b", vec!["a"]), ("c", vec!["b"])]);
    assert_eq!(resolve_load_order(&ids, &deps).unwrap(), vec!["a", "b", "c"]);
}

#[test]
fn diamond_dependency() {
    let ids: Vec<String> = vec!["a".into(), "b".into(), "c".into(), "d".into()];
    let deps = deps_table(vec![("b", vec!["a"]), ("c", vec!["a"]), ("d", vec!["b", "c"])]);
    assert_eq!(resolve_load_order(&ids, &deps).unwrap(), vec!["a", "b", "c", "d"]);
}

#[test]
fn cycle_detected() {
    let ids: Vec<String> = vec!["a".into(), "b".into()];
    let deps = deps_table(vec![("a", vec!["b"]), ("b", vec!["a"])]);
    let err = resolve_load_order(&ids, &deps).unwrap_err();
    let msg = err.message();
    assert!(msg.contains("circular dependency"), "got: {msg}");
    assert!(msg.contains('a'), "cycle should mention 'a': {msg}");
    assert!(msg.contains('b'), "cycle should mention 'b': {msg}");
}

#[test]
fn three_node_cycle() {
    let ids: Vec<String> = vec!["a".into(), "b".into(), "c".into()];
    let deps = deps_table(vec![("a", vec!["c"]), ("b", vec!["a"]), ("c", vec!["b"])]);
    let err = resolve_load_order(&ids, &deps).unwrap_err();
    assert!(err.message().contains("circular dependency"));
}

#[test]
fn builtin_order() {
    let ids: Vec<String> = vec!["identity".into(), "room".into(), "timeline".into(), "message".into()];
    let deps = deps_table(vec![
        ("room", vec!["identity"]),
        ("timeline", vec!["identity", "room"]),
        ("message", vec!["identity", "room", "timeline"]),
    ]);
    assert_eq!(resolve_load_order(&ids, &deps).unwrap(), vec!["identity", "room", "timeline", "message"]);
}

#[test]
fn single_node_no_deps() {
    let ids: Vec<String> = vec!["x".into()];
    assert_eq!(resolve_load_order(&ids, &[]).unwrap(), vec!["x"]);
}

#[test]
fn empty_input() {
    let ids: Vec<String> = vec![];
    assert!(resolve_load_order(&ids, &[]).unwrap().is_empty());
}

#[test]
fn cycle_text_names_the_cycle() {
    let ids: Vec<String> = vec!["a".into(), "b".into()];
    let deps = deps_table(vec![("a", vec!["b"]), ("b", vec!["a"])]);
    let err = resolve_load_order(&ids, &deps).unwrap_err();
    assert_eq!(err.message(), "circular dependency detected: a \u{2192} b \u{2192} a");
}

#[test]
fn dependency_outside_ids_blocks_order() {
    let ids: Vec<String> = vec!["a".into()];
    let deps = deps_table(vec![("a", vec!["zzz"])]);
    let err = resolve_load_order(&ids, &deps).unwrap_err();
    assert!(matches!(err, EngineError::CircularDependency { .. }));
}

#[test]
fn tc_1_engine_001_register_builtin_datatype() {
    let mut reg = DatatypeRegistry::new();
    let identity = DatatypeDeclaration {
        id: "identity".to_string(),
        version: "1.0.0".to_string(),
        dependencies: vec![],
        data_entries: vec![DataEntry {
            id: "pubkey".to_string(),
            storage_type: StorageType::Blob,
            key_pattern: KeyPattern::new("entity/@{entity_id}/identity/pubkey".to_string()),
            persistent: true,
            writer_rule: WriterRule::SignerIsEntity,
            sync_strategy: SyncMode::Eager,
        }],
        indexes: vec![],
        hooks: vec![],
        is_builtin: true,
    };
    reg.register(identity).unwrap();
    let fetched = reg.get("identity").expect("identity should be registered");
    assert_eq!(fetched.id, "identity");
    assert_eq!(fetched.version, "1.0.0");
    assert!(fetched.dependencies.is_empty());
    assert!(fetched.is_builtin);
    assert_eq!(fetched.data_entries.len(), 1);
    let entry = &fetched.data_entries[0];
    assert_eq!(entry.id, "pubkey");
    assert_eq!(entry.storage_type, StorageType::Blob);
    assert_eq!(entry.key_pattern.template(), "entity/@{entity_id}/identity/pubkey");
    assert!(entry.persistent);
    assert_eq!(entry.writer_rule, WriterRule::SignerIsEntity);
    assert_eq!(entry.sync_strategy, SyncMode::Eager);
}

#[test]
fn tc_1_engine_002_dependency_resolution_order() {
    let mut reg = DatatypeRegistry::new();
    register_builtins(&mut reg);
    assert_eq!(reg.load_order().unwrap(), vec!["identity", "room", "timeline", "message"]);
}

#[test]
fn tc_1_engine_003_circular_dependency_rejected() {
    let mut reg = DatatypeRegistry::new();
    let mut a = extension_decl("a", vec!["b"]);
    a.data_entries = vec![];
    let mut b = extension_decl("b", vec!["a"]);
    b.data_entries = vec![];
    reg.register(a).unwrap();
    reg.register(b).unwrap();
    let msg = reg.load_order().unwrap_err().message();
    assert!(msg.contains("circular dependency"), "got: {msg}");
    assert!(msg.contains('a') && msg.contains('b'), "{msg}");
}

#[test]
fn tc_1_engine_004_extension_by_enabled() {
    let mut reg = DatatypeRegistry::new();
    register_builtins(&mut reg);
    reg.register(extension_decl("mutable", vec!["message"])).unwrap();
    reg.register(extension_decl("collaborative", vec!["mutable"])).unwrap();
    let order_none = reg.load_order_for_room(&[]).unwrap();
    assert_eq!(order_none, vec!["identity", "room", "timeline", "message"]);
    let order_mut = reg.load_order_for_room(&["mutable".to_string()]).unwrap();
    assert!(order_mut.contains(&"mutable".to_string()));
    assert!(!order_mut.contains(&"collaborative".to_string()));
    let msg_pos = order_mut.iter().position(|x| x == "message").unwrap();
    let mut_pos = order_mut.iter().position(|x| x == "mutable").unwrap();
    assert!(mut_pos > msg_pos);
    let order_both = reg.load_order_for_room(&["mutable".to_string(), "collaborative".to_string()]).unwrap();
    let mut_pos2 = order_both.iter().position(|x| x == "mutable").unwrap();
    let col_pos = order_both.iter().position(|x| x == "collaborative").unwrap();
    assert!(col_pos > mut_pos2);
}

#[test]
fn tc_1_engine_005_extension_dependency_not_met() {
    let mut reg = DatatypeRegistry::new();
    register_builtins(&mut reg);
    reg.register(extension_decl("mutable", vec!["message"])).unwrap();
    reg.register(extension_decl("collaborative", vec!["mutable"])).unwrap();
    let msg = reg.load_order_for_room(&["collaborative".to_string()]).unwrap_err().message();
    assert!(msg.contains("dependency not met"), "got: {msg}");
    assert!(msg.contains("collaborative") && msg.contains("mutable"), "{msg}");
}

#[test]
fn duplicate_registration_rejected() {
    let mut reg = DatatypeRegistry::new();
    reg.register(builtin_decl("identity", vec![])).unwrap();
    let err = reg.register(builtin_decl("identity", vec![])).unwrap_err();
    assert!(err.message().contains("duplicate datatype"));
}

#[test]
fn get_nonexistent_returns_none() {
    let reg = DatatypeRegistry::new();
    assert!(reg.get("nonexistent").is_none());
}

#[test]
fn ids_returns_all_registered() {
    let mut reg = DatatypeRegistry::new();
    register_builtins(&mut reg);
    let mut ids = reg.ids();
    ids.sort();
    assert_eq!(ids, vec!["identity", "message", "room", "timeline"]);
}

#[test]
fn empty_registry_load_order() {
    let reg = DatatypeRegistry::new();
    assert!(reg.load_order().unwrap().is_empty());
}

#[test]
fn load_order_for_room_with_all_extensions_enabled() {
    let mut reg = DatatypeRegistry::new();
    register_builtins(&mut reg);
    reg.register(extension_decl("mutable", vec!["message"])).unwrap();
    reg.register(extension_decl("collaborative", vec!["mutable"])).unwrap();
    reg.register(extension_decl("reactions", vec!["message"])).unwrap();
    let order = reg
        .load_order_for_room(&["mutable".to_string(), "collaborative".to_string(), "reactions".to_string()])
        .unwrap();
    assert_eq!(order.len(), 7);
    assert_eq!(&order[..4], &["identity", "room", "timeline", "message"]);
    let mut_pos = order.iter().position(|x| x == "mutable").unwrap();
    let col_pos = order.iter().position(|x| x == "collaborative").unwrap();
    assert!(col_pos > mut_pos);
}

#[test]
fn mod_default_impl() {
    let reg = DatatypeRegistry::default();
    assert!(reg.ids().is_empty());
}

#[test]
fn index_declaration_in_datatype() {
    let decl = DatatypeDeclaration {
        id: "timeline".to_string(),
        version: "1.0.0".to_string(),
        dependencies: vec!["identity".to_string(), "room".to_string()],
        data_entries: vec![DataEntry {
            id: "shard".to_string(),
            storage_type: StorageType::CrdtArray,
            key_pattern: KeyPattern::new("room/{room_id}/index/{shard_id}".to_string()),
            persistent: true,
            writer_rule: WriterRule::SignerInMembers,
            sync_strategy: SyncMode::Eager,
        }],
        indexes: vec![IndexDeclaration {
            id: "by_author".to_string(),
            input: "shard".to_string(),
            transform: "group_by(author)".to_string(),
            refresh: RefreshStrategy::OnChange,
            operation_id: None,
        }],
        hooks: vec![],
        is_builtin: true,
    };
    assert_eq!(decl.indexes.len(), 1);
    assert_eq!(decl.indexes[0].id, "by_author");
    assert_eq!(decl.indexes[0].refresh, RefreshStrategy::OnChange);
}

#[test]
fn tc_1_engine_006_five_storage_types() {
    let types = [StorageType::CrdtMap, StorageType::CrdtArray, StorageType::CrdtText, StorageType::Blob, StorageType::Ephemeral];
    for (i, a) in types.iter().enumerate() {
        for (j, b) in types.iter().enumerate() {
            if i == j {
                assert_eq!(a, b);
            } else {
                assert_ne!(a, b);
            }
        }
    }
    assert_eq!(types.len(), 5);
}

#[test]
fn sync_mode_default_is_eager() {
    assert_eq!(SyncMode::default(), SyncMode::Eager);
}

#[test]
fn writer_rule_composition() {
    let rule = WriterRule::And(
        Box::new(WriterRule::SignerInMembers),
        Box::new(WriterRule::Or(Box::new(WriterRule::SignerIsAuthor), Box::new(WriterRule::SignerPowerLevel { min_level: 50 }))),
    );
    let debug = format!("{rule:?}");
    assert!(debug.contains("And"));
    assert!(debug.contains("Or"));
}

#[test]
fn registry_error_messages() {
    assert_eq!(EngineError::DuplicateDatatype("x".to_string()).message(), "duplicate datatype: x");
    assert_eq!(
        EngineError::DependencyNotMet { ext: "a".to_string(), requires: "b".to_string() }.message(),
        "dependency not met: a requires b"
    );
}

fn cycle_text(ids: &[&str], deps: Vec<(&str, Vec<&str>)>) -> String {
    let ids: Vec<String> = ids.iter().map(|s| s.to_string()).collect();
    match resolve_load_order(&ids, &deps_table(deps)) {
        Err(EngineError::CircularDependency { cycle }) => cycle,
        _ => panic!("expected CircularDependency"),
    }
}

#[test]
fn cycle_text_names_a_cycle_past_dead_ends() {
    assert_eq!(cycle_text(&["a", "b"], vec![("a", vec!["b"]), ("b", vec!["a"])]), "a \u{2192} b \u{2192} a");
    // `a` leads to a dead end first, then into the cycle b → c → b.
    assert_eq!(
        cycle_text(&["a", "b", "c", "d"], vec![("a", vec!["d", "b"]), ("b", vec!["c"]), ("c", vec!["b"]), ("d", vec!["z"])]),
        "b \u{2192} c \u{2192} b"
    );
    assert_eq!(cycle_text(&["x"], vec![("x", vec!["x"])]), "x \u{2192} x");
}

#[test]
fn missing_dependency_without_cycle_is_unknown_cycle() {
    assert_eq!(cycle_text(&["a", "b"], vec![("a", vec!["b"]), ("b", vec!["zzz"])]), "unknown cycle");
}

#[test]
fn describe_cycle_skips_placed_ids() {
    let ids: Vec<String> = vec!["a".into(), "b".into(), "c".into()];
    let deps = deps_table(vec![("a", vec!["b"]), ("b", vec!["a"]), ("c", vec!["c"])]);
    let placed: Vec<String> = Vec::new();
    assert_eq!(describe_cycle(&ids, &deps, &placed), "a \u{2192} b \u{2192} a");
    let placed: Vec<String> = vec!["a".into()];
    assert_eq!(describe_cycle(&ids, &deps, &placed), "c \u{2192} c");
}

#[test]
fn cycle_text_names_the_loop_reached_from_the_start() {
    let deps = vec![("a", vec!["b"]), ("b", vec!["c"]), ("c", vec!["b"]), ("d", vec![])];
    assert_eq!(cycle_text(&["a", "b", "c", "d"], deps), "b \u{2192} c \u{2192} b");
}

#[test]
fn cycle_text_skips_ids_that_lead_to_no_cycle() {
    let deps = vec![("a", vec!["z"]), ("b", vec!["a", "c"]), ("c", vec!["b"])];
    assert_eq!(cycle_text(&["a", "b", "c"], deps), "b \u{2192} c \u{2192} b");
}
