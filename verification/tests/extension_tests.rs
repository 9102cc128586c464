use ezagent::channels::{validate_channel_tag, validate_channel_tags, ChannelHookError, ChannelsExtension, MAX_TAGS, MAX_TAG_LENGTH};
use ezagent::ext_api::context::{RegistrationContext, ENGINE_API_VERSION, ENTRY_SYMBOL};
use ezagent::ext_api::error::ExtError;
use ezagent::ext_api::manifest::{parse_u32_decimal, ExtensionManifest, IntParseError, UriPath};
use ezagent::ext_api::ExtensionPlugin;
use ezagent::ext_api::prelude::{ExtError as E, ExtensionManifest as M, RegistrationContext as C};
use ezagent::loader::{filter_api_version, lib_filename, plan_extension_load, resolve_extension_order, ExtensionLoadError, TargetOs};

fn manifest(name: &str, deps: &[&str], api_version: u32) -> ExtensionManifest {
    ExtensionManifest {
        name: name.to_string(),
        version: "0.1.0".to_string(),
        api_version,
        datatype_declarations: vec![],
        hook_declarations: vec![],
        ext_dependencies: deps.iter().map(|d| d.to_string()).collect(),
        uri_paths: vec![],
    }
}

fn entry(name: &str, deps: &[&str]) -> (String, ExtensionManifest) {
    (format!("/ext/{name}"), manifest(name, deps, 1))
}

#[test]
fn register_datatype_json_stores_entry() {
    let mut ctx = RegistrationContext::new();
    let json = r#"{"id":"reactions","version":"0.1.0"}"#;
    ctx.register_datatype_json(json).unwrap();
    assert_eq!(ctx.datatype_jsons().len(), 1);
    assert_eq!(ctx.datatype_jsons()[0], json);
}

#[test]
fn register_hook_json_stores_entry() {
    let mut ctx = RegistrationContext::new();
    let json = r#"{"id":"reactions.add","phase":"PreSend"}"#;
    ctx.register_hook_json(json).unwrap();
    assert_eq!(ctx.hook_jsons().len(), 1);
    assert_eq!(ctx.hook_jsons()[0], json);
}

#[test]
fn register_empty_datatype_json_fails() {
    let mut ctx = RegistrationContext::new();
    let err = ctx.register_datatype_json("").unwrap_err();
    match &err {
        ExtError::RegistrationFailed(msg) => assert!(msg.contains("empty"), "{msg}"),
        other => panic!("expected RegistrationFailed, got: {}", other.message()),
    }
}

#[test]
fn register_empty_hook_json_fails() {
    let mut ctx = RegistrationContext::new();
    let err = ctx.register_hook_json("").unwrap_err();
    match &err {
        ExtError::RegistrationFailed(msg) => assert!(msg.contains("empty"), "{msg}"),
        other => panic!("expected RegistrationFailed, got: {}", other.message()),
    }
}

#[test]
fn multiple_registrations() {
    let mut ctx = RegistrationContext::new();
    ctx.register_datatype_json(r#"{"id":"a"}"#).unwrap();
    ctx.register_datatype_json(r#"{"id":"b"}"#).unwrap();
    ctx.register_hook_json(r#"{"id":"h1"}"#).unwrap();
    ctx.register_hook_json(r#"{"id":"h2"}"#).unwrap();
    ctx.register_hook_json(r#"{"id":"h3"}"#).unwrap();
    assert_eq!(ctx.datatype_jsons().len(), 2);
    assert_eq!(ctx.hook_jsons().len(), 3);
}

#[test]
fn last_error_initially_none() {
    let ctx = RegistrationContext::new();
    assert!(ctx.last_error().is_none());
}

#[test]
fn set_error_records_error() {
    let mut ctx = RegistrationContext::new();
    ctx.set_error(ExtError::RegistrationFailed("test".into()));
    assert!(ctx.last_error().is_some());
}

#[test]
fn context_default_impl() {
    let ctx = RegistrationContext::default();
    assert!(ctx.datatype_jsons().is_empty());
    assert!(ctx.hook_jsons().is_empty());
    assert!(ctx.last_error().is_none());
}

#[test]
fn engine_api_version_is_1() {
    assert_eq!(ENGINE_API_VERSION, 1);
}

#[test]
fn entry_symbol_is_correct() {
    assert_eq!(ENTRY_SYMBOL, "ezagent_ext_register");
}

#[test]
fn display_manifest_parse() {
    let e = ExtError::ManifestParse("missing [extension] section".into());
    assert_eq!(e.message(), "manifest parse error: missing [extension] section");
}

#[test]
fn display_registration_failed() {
    let e = ExtError::RegistrationFailed("duplicate datatype: reactions".into());
    assert_eq!(e.message(), "registration failed: duplicate datatype: reactions");
}

#[test]
fn display_incompatible_api_version() {
    let e = ExtError::IncompatibleApiVersion { extension: 2, engine: 1 };
    assert_eq!(e.message(), "incompatible API version: extension requires 2, engine provides 1");
}

struct TestExtension {
    manifest: ExtensionManifest,
}

impl ExtensionPlugin for TestExtension {
    fn manifest(&self) -> &ExtensionManifest {
        &self.manifest
    }
    fn register(&self, ctx: &mut RegistrationContext) -> Result<(), ExtError> {
        ctx.register_hook_json(r#"{"id":"test.hook","phase":"PreSend"}"#)?;
        Ok(())
    }
}

#[test]
fn extension_plugin_trait_works() {
    let mut m = manifest("test", &[], 1);
    m.hook_declarations = vec!["test.hook".to_string()];
    let ext = TestExtension { manifest: m };
    assert_eq!(ext.manifest().name, "test");
    let mut ctx = RegistrationContext::new();
    ext.register(&mut ctx).unwrap();
    assert_eq!(ctx.hook_jsons().len(), 1);
}

#[test]
fn re_exports_are_accessible() {
    let _: u32 = ENGINE_API_VERSION;
    let _: &str = ENTRY_SYMBOL;
    let _ctx = RegistrationContext::new();
    let _err = ExtError::ManifestParse("test".into());
    let _manifest = ExtensionManifest {
        name: String::new(),
        version: String::new(),
        api_version: 1,
        datatype_declarations: vec![],
        hook_declarations: vec![],
        ext_dependencies: vec![],
        uri_paths: vec![],
    };
}

#[test]
fn prelude_re_exports() {
    let _ctx = C::new();
    let _err = E::ManifestParse("test".into());
    let _manifest = M {
        name: String::new(),
        version: String::new(),
        api_version: 1,
        datatype_declarations: vec![],
        hook_declarations: vec![],
        ext_dependencies: vec![],
        uri_paths: vec![],
    };
}

#[test]
fn parse_minimal_manifest() {
    let m = ExtensionManifest::from_parts("minimal".to_string(), "0.0.1".to_string(), "1", None, None, None, None).unwrap();
    assert_eq!(m.name, "minimal");
    assert_eq!(m.version, "0.0.1");
    assert_eq!(m.api_version, 1);
    assert!(m.datatype_declarations.is_empty());
    assert!(m.hook_declarations.is_empty());
    assert!(m.ext_dependencies.is_empty());
    assert!(m.uri_paths.is_empty());
}

#[test]
fn invalid_api_version_returns_error() {
    let err = ExtensionManifest::from_parts("bad".to_string(), "0.1.0".to_string(), "not_a_number", None, None, None, None).unwrap_err();
    let msg = err.message();
    assert!(msg.contains("invalid api_version"), "{msg}");
    assert_eq!(msg, "manifest parse error: invalid api_version: invalid digit found in string");
}

#[test]
fn api_version_parsing_follows_std() {
    assert_eq!(parse_u32_decimal("1"), Ok(1));
    assert_eq!(parse_u32_decimal("+42"), Ok(42));
    assert_eq!(parse_u32_decimal(""), Err(IntParseError::Empty));
    assert_eq!(parse_u32_decimal("+"), Err(IntParseError::InvalidDigit));
    assert_eq!(parse_u32_decimal("-1"), Err(IntParseError::InvalidDigit));
    assert_eq!(parse_u32_decimal("4294967295"), Ok(4294967295));
    assert_eq!(parse_u32_decimal("4294967296"), Err(IntParseError::PosOverflow));
    assert_eq!(parse_u32_decimal("99999999999x"), Err(IntParseError::PosOverflow));
    for s in ["1", "+42", "", "+", "-1", "4294967296", "12a", "007"] {
        let ours = parse_u32_decimal(s).ok();
        assert_eq!(ours, s.parse::<u32>().ok(), "input {s:?}");
    }
}

#[test]
fn multiple_uri_paths() {
    let paths = vec![
        UriPath { pattern: "/r/{room_id}/c/{channel_name}".to_string(), description: "Channel view".to_string() },
        UriPath { pattern: "/r/{room_id}/c".to_string(), description: "Channel list".to_string() },
    ];
    let m = ExtensionManifest::from_parts("channels".to_string(), "0.1.0".to_string(), "1", None, None, None, Some(paths)).unwrap();
    assert_eq!(m.uri_paths.len(), 2);
    assert_eq!(m.uri_paths[0].pattern, "/r/{room_id}/c/{channel_name}");
    assert_eq!(m.uri_paths[1].pattern, "/r/{room_id}/c");
}

#[test]
fn valid_simple_tags() {
    assert!(validate_channel_tag("general").is_ok());
    assert!(validate_channel_tag("dev").is_ok());
    assert!(validate_channel_tag("a").is_ok());
    assert!(validate_channel_tag("0").is_ok());
    assert!(validate_channel_tag("abc-123").is_ok());
}

#[test]
fn valid_max_length_tag() {
    let tag = "a".repeat(MAX_TAG_LENGTH);
    assert!(validate_channel_tag(&tag).is_ok());
}

#[test]
fn invalid_empty_tag() {
    assert!(matches!(validate_channel_tag(""), Err(ChannelHookError::InvalidTag { .. })));
}

#[test]
fn invalid_too_long_tag() {
    let tag = "a".repeat(MAX_TAG_LENGTH + 1);
    assert!(matches!(validate_channel_tag(&tag), Err(ChannelHookError::InvalidTag { .. })));
}

#[test]
fn invalid_uppercase() {
    assert!(matches!(validate_channel_tag("General"), Err(ChannelHookError::InvalidTag { .. })));
}

#[test]
fn invalid_underscore() {
    assert!(matches!(validate_channel_tag("my_channel"), Err(ChannelHookError::InvalidTag { .. })));
}

#[test]
fn invalid_space() {
    assert!(matches!(validate_channel_tag("my channel"), Err(ChannelHookError::InvalidTag { .. })));
}

#[test]
fn invalid_special_chars() {
    assert!(validate_channel_tag("chan!").is_err());
    assert!(validate_channel_tag("chan.nel").is_err());
    assert!(validate_channel_tag("chan@nel").is_err());
}

#[test]
fn valid_tag_set() {
    assert!(validate_channel_tags(&["general", "dev", "ops"]).is_ok());
}

#[test]
fn valid_empty_tag_set() {
    assert!(validate_channel_tags(&[]).is_ok());
}

#[test]
fn valid_max_tag_set() {
    assert!(validate_channel_tags(&["a", "b", "c", "d", "e"]).is_ok());
}

#[test]
fn too_many_tags() {
    assert!(matches!(validate_channel_tags(&["a", "b", "c", "d", "e", "f"]), Err(ChannelHookError::TooManyTags { count: 6 })));
}

#[test]
fn duplicate_tags() {
    assert!(matches!(validate_channel_tags(&["general", "dev", "general"]), Err(ChannelHookError::DuplicateTag { .. })));
}

#[test]
fn invalid_tag_in_set() {
    assert!(matches!(validate_channel_tags(&["general", "INVALID", "dev"]), Err(ChannelHookError::InvalidTag { .. })));
}

#[test]
fn tc_2_ext06_001_channel_tag_format() {
    assert!(validate_channel_tag("general").is_ok());
    assert!(validate_channel_tag("dev-ops").is_ok());
    assert!(validate_channel_tag("team-42").is_ok());
    assert!(validate_channel_tag("a").is_ok());
    assert!(validate_channel_tag("0").is_ok());
    let max_tag = "a".repeat(64);
    assert!(validate_channel_tag(&max_tag).is_ok());
    assert!(validate_channel_tag("General").is_err());
    assert!(validate_channel_tag("my channel").is_err());
    assert!(validate_channel_tag("my_channel").is_err());
    assert!(validate_channel_tag("").is_err());
    let too_long = "a".repeat(65);
    assert!(validate_channel_tag(&too_long).is_err());
}

#[test]
fn tc_2_ext06_002_duplicate_tags() {
    let err = validate_channel_tags(&["general", "dev", "general"]).unwrap_err();
    assert!(matches!(err, ChannelHookError::DuplicateTag { .. }), "got: {}", err.message());
}

#[test]
fn tc_2_ext06_003_max_tag_count() {
    assert!(validate_channel_tags(&["a", "b", "c", "d", "e"]).is_ok());
    let err = validate_channel_tags(&["a", "b", "c", "d", "e", "f"]).unwrap_err();
    assert!(matches!(err, ChannelHookError::TooManyTags { .. }), "got: {}", err.message());
    assert_eq!(MAX_TAGS, 5);
}

#[test]
fn channel_error_messages() {
    assert_eq!(ChannelHookError::TooManyTags { count: 6 }.message(), "too many channel tags: 6 exceeds maximum of 5");
    assert_eq!(ChannelHookError::DuplicateTag { tag: "x".to_string() }.message(), "duplicate channel tag: 'x'");
    assert_eq!(ChannelHookError::InvalidTag { tag: "X".to_string() }.message(), "invalid channel tag 'X': must be [a-z0-9-]{1,64}");
}

#[test]
fn tc_2_ext06_004_manifest_and_registration() {
    let ext = ChannelsExtension::default();
    let m = ext.manifest();
    assert_eq!(m.name, "channels");
    assert_eq!(m.version, "0.1.0");
    assert_eq!(m.api_version, 1);
    assert!(m.datatype_declarations.is_empty());
    assert_eq!(m.hook_declarations.len(), 3);
    assert_eq!(m.hook_declarations[0], "channels.inject_tags");
    assert_eq!(m.hook_declarations[1], "channels.update_activity");
    assert_eq!(m.hook_declarations[2], "channels.aggregate");
    assert!(m.ext_dependencies.is_empty());
    assert_eq!(m.uri_paths.len(), 1);
    assert_eq!(m.uri_paths[0].pattern, "/r/{room_id}/c/{channel_name}");
    let mut ctx = RegistrationContext::new();
    ext.register(&mut ctx).expect("register should succeed");
    assert_eq!(ctx.hook_jsons().len(), 3);
    assert!(ctx.datatype_jsons().is_empty());
    assert!(ctx.last_error().is_none());
}

#[test]
fn hook_json_contains_phase_and_priority() {
    let ext = ChannelsExtension::default();
    let mut ctx = RegistrationContext::new();
    ext.register(&mut ctx).unwrap();
    let hooks = ctx.hook_jsons();
    let inject: serde_json::Value = serde_json::from_str(&hooks[0]).unwrap();
    assert_eq!(inject["id"], "channels.inject_tags");
    assert_eq!(inject["phase"], "PreSend");
    assert_eq!(inject["priority"], 30);
    let update: serde_json::Value = serde_json::from_str(&hooks[1]).unwrap();
    assert_eq!(update["id"], "channels.update_activity");
    assert_eq!(update["phase"], "AfterWrite");
    assert_eq!(update["priority"], 50);
    let aggregate: serde_json::Value = serde_json::from_str(&hooks[2]).unwrap();
    assert_eq!(aggregate["id"], "channels.aggregate");
    assert_eq!(aggregate["phase"], "AfterRead");
    assert_eq!(aggregate["priority"], 50);
}

#[test]
fn filter_api_version_skips_incompatible() {
    let all = vec![("/ext/good".to_string(), manifest("good", &[], 1)), ("/ext/future".to_string(), manifest("future", &[], 999))];
    let (compatible, version_errors) = filter_api_version(all);
    assert_eq!(compatible.len(), 1);
    assert_eq!(compatible[0].1.name, "good");
    assert_eq!(version_errors.len(), 1);
    assert_eq!(version_errors[0].name, "future");
    assert!(version_errors[0].reason.contains("incompatible API version"));
    assert_eq!(version_errors[0].reason, "incompatible API version: extension declares 999, engine requires 1");
}

#[test]
fn resolve_order_topological() {
    let manifests = vec![entry("mutable", &["message"]), entry("collab", &["mutable"])];
    let order = resolve_extension_order(&manifests).expect("resolution should succeed");
    let mut_pos = order.iter().position(|n| n == "mutable").unwrap();
    let col_pos = order.iter().position(|n| n == "collab").unwrap();
    assert!(mut_pos < col_pos);
}

#[test]
fn resolve_order_circular_dependency() {
    let manifests = vec![entry("alpha", &["beta"]), entry("beta", &["alpha"])];
    let errors: Vec<ExtensionLoadError> = resolve_extension_order(&manifests).unwrap_err();
    assert_eq!(errors.len(), 2);
    let names: Vec<String> = errors.iter().map(|e| e.name.clone()).collect();
    assert!(names.contains(&"alpha".to_string()));
    assert!(names.contains(&"beta".to_string()));
    for err in &errors {
        assert!(err.reason.contains("circular dependency"), "{}", err.reason);
    }
}

#[test]
fn resolve_order_empty() {
    let manifests: Vec<(String, ExtensionManifest)> = vec![];
    assert!(resolve_extension_order(&manifests).expect("empty should succeed").is_empty());
}

#[test]
fn resolve_order_alphabetical_tiebreak() {
    let manifests = vec![entry("zeta", &[]), entry("alpha", &[]), entry("mu", &[])];
    assert_eq!(resolve_extension_order(&manifests).unwrap(), vec!["alpha", "mu", "zeta"]);
}

#[test]
fn resolve_order_missing_dependency() {
    let manifests = vec![entry("a", &["ghost", "room"])];
    let errors = resolve_extension_order(&manifests).unwrap_err();
    assert_eq!(errors.len(), 1);
    assert_eq!(errors[0].name, "a");
    assert_eq!(errors[0].reason, "missing dependency: 'ghost' is not loaded");
}

#[test]
fn resolve_order_follows_readiness() {
    let manifests = vec![entry("a", &[]), entry("b", &[]), entry("d", &["a"]), entry("c", &["b"])];
    assert_eq!(resolve_extension_order(&manifests).unwrap(), vec!["a", "b", "d", "c"]);
}

#[test]
fn resolve_order_blocked_behind_cycle() {
    let manifests = vec![entry("x", &["y"]), entry("y", &["x"]), entry("z", &["x"]), entry("ok", &[])];
    let errors = resolve_extension_order(&manifests).unwrap_err();
    let names: Vec<&str> = errors.iter().map(|e| e.name.as_str()).collect();
    assert_eq!(names, vec!["x", "y", "z"]);
    assert_eq!(errors[0].reason, "circular dependency involving: x, y, z");
}

#[test]
fn tc_2_interact_002_dependency_ordering() {
    let manifests = vec![
        entry("reply-to", &[]),
        entry("threads", &["reply-to"]),
        entry("runtime", &["channels", "reply-to", "command"]),
        entry("channels", &[]),
        entry("command", &[]),
    ];
    let order = resolve_extension_order(&manifests).unwrap();
    let pos = |n: &str| order.iter().position(|x| x == n).unwrap();
    assert!(pos("reply-to") < pos("threads"));
    assert!(pos("channels") < pos("runtime"));
    assert!(pos("reply-to") < pos("runtime"));
    assert!(pos("command") < pos("runtime"));
}

#[test]
fn lib_filename_platform() {
    assert_eq!(lib_filename("my-extension", TargetOs::MacOs), "libmy_extension.dylib");
    assert_eq!(lib_filename("my-extension", TargetOs::Windows), "my_extension.dll");
    assert_eq!(lib_filename("my-extension", TargetOs::Other), "libmy_extension.so");
}

#[test]
fn lib_filename_replaces_dashes() {
    let name = lib_filename("my-cool-ext", TargetOs::Other);
    assert!(name.contains("my_cool_ext"), "{name}");
}

#[test]
fn load_error_message() {
    let e = ExtensionLoadError { name: "x".to_string(), reason: "boom".to_string() };
    assert_eq!(e.message(), "extension 'x' failed: boom");
}

#[test]
fn extension_order_ignores_manifest_listing() {
    let specs: Vec<(&str, Vec<&str>)> = vec![
        ("reactions", vec!["room"]),
        ("threads", vec!["reactions"]),
        ("channels", vec!["timeline"]),
        ("search", vec!["threads", "channels"]),
    ];
    let build = |order: &[usize]| -> Vec<(String, ExtensionManifest)> {
        order.iter().map(|&i| entry(specs[i].0, &specs[i].1)).collect()
    };
    let oa = resolve_extension_order(&build(&[0, 1, 2, 3])).ok().unwrap();
    assert_eq!(oa, vec!["channels", "reactions", "threads", "search"]);
    assert_eq!(resolve_extension_order(&build(&[3, 2, 1, 0])).ok().unwrap(), oa);
    assert_eq!(resolve_extension_order(&build(&[2, 0, 3, 1])).ok().unwrap(), oa);
}

#[test]
fn plan_orders_compatible_extensions_after_their_dependencies() {
    let scanned = vec![
        entry("b", &["a", "room"]),
        ("/ext/old".to_string(), manifest("old", &[], 2)),
        entry("a", &["identity"]),
    ];
    let (steps, errors) = plan_extension_load(scanned);
    let names: Vec<&str> = steps.iter().map(|(_, m)| m.name.as_str()).collect();
    assert_eq!(names, vec!["a", "b"]);
    assert_eq!(steps[0].0, "/ext/a");
    assert_eq!(errors.len(), 1);
    assert_eq!(errors[0].name, "old");
    assert!(errors[0].reason.contains("incompatible API version"));
}

#[test]
fn plan_loads_nothing_when_a_dependency_is_missing() {
    let scanned = vec![entry("a", &[]), entry("b", &["ghost"])];
    let (steps, errors) = plan_extension_load(scanned);
    assert!(steps.is_empty());
    assert_eq!(errors.len(), 1);
    assert_eq!(errors[0].name, "b");
}

#[test]
fn plan_takes_the_last_manifest_of_a_repeated_name() {
    let scanned = vec![
        ("/ext/first".to_string(), manifest("dup", &[], ENGINE_API_VERSION)),
        ("/ext/second".to_string(), manifest("dup", &[], ENGINE_API_VERSION)),
    ];
    let (steps, errors) = plan_extension_load(scanned);
    assert!(errors.is_empty());
    assert_eq!(steps.len(), 1);
    assert_eq!(steps[0].0, "/ext/second");
}
