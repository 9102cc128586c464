//! The engine: the datatype registry, the hook pipeline and the local
//! identity, and the operations built on them.
use vstd::prelude::*;
use crate::builtins::identity::identity_datatype;
use crate::builtins::message::{message_datatype, MessageContent};
use crate::builtins::room::{room_datatype, MembershipConfig, MembershipPolicy, PowerLevelConfig, Role, RoomConfig, TimelineConfig};
use crate::builtins::timeline::{is_hyphenated_uuid, timeline_datatype, uuid_v7_at};
use crate::error::EngineError;
use crate::ext_api::manifest::ExtensionManifest;
use crate::hooks::executor::{hook_fires, runs_hooks, str_seq, HookExecutor, HookHandler};
use crate::hooks::phase::{HookContext, HookDeclaration, HookPhase, TriggerEvent};
use crate::index::IndexBuilder;
use crate::json::{copy_json, fields_model, json_model, lemma_fields_model_push, JsonModel, JsonValue};
use crate::loader::{ExtensionLoadError, LoadedExtension};
use crate::registry::datatype::{is_builtin_declaration, DatatypeDeclaration, StorageType, WriterRule};
use crate::registry::{decl_ids, dep_table, room_decls, unmet_dependency, DatatypeRegistry};
use crate::registry::dependency::{dep_entry_index, deps_of, has_load_order, is_greedy_order, is_topological_order};
use crate::sync::unix_time;
use crate::text::{concat2, copy_str, decimal, lemma_decimal_injective, str_eq, u64_to_decimal};
use crate::uri_registry::UriPathRegistry;

verus! {

/// The ids of the built-in datatypes, in registration order.
pub open spec fn builtin_ids() -> Seq<Seq<char>> {
    seq!["identity"@, "room"@, "timeline"@, "message"@]
}

/// Whether registering hook `d` is refused: a hook on every datatype
/// (`"*"`) from a source that is not a built-in datatype.
pub open spec fn hook_refused(d: HookDeclaration) -> bool {
    d.trigger_datatype@ == "*"@ && !builtin_ids().contains(d.source@)
}

/// A summary of the engine's state.
pub struct EngineStatus {
    pub identity_initialized: bool,
    /// The ids of all registered datatypes.
    pub registered_datatypes: Vec<String>,
}

/// The engine: the datatype registry with the built-in datatypes, the hook
/// pipeline, the index builder, the URI path registry, the local identity
/// and the loaded extensions.
pub struct Engine<H: HookHandler> {
    pub registry: DatatypeRegistry,
    pub hook_executor: HookExecutor<H>,
    pub index_builder: IndexBuilder,
    pub uri_registry: UriPathRegistry,
    entity_id: Option<String>,
    loaded: Vec<LoadedExtension>,
}

/// Registers `hooks` in order; the first refused hook stops with its error.
fn register_all<H: HookHandler>(executor: &mut HookExecutor<H>, hooks: Vec<(HookDeclaration, H)>) -> (r: Result<(), EngineError>)
    requires
        old(executor).builtins() == builtin_ids(),
    ensures
        final(executor).builtins() == old(executor).builtins(),
        final(executor).dep_order() == old(executor).dep_order(),
        r is Ok <==> forall|i: int| 0 <= i < hooks@.len() ==> !hook_refused(#[trigger] hooks@[i].0),
        r is Ok ==> final(executor).decls() == old(executor).decls() + hooks@.map_values(|h: (HookDeclaration, H)| h.0),
        r is Ok ==> final(executor).handlers() == old(executor).handlers() + hooks@.map_values(|h: (HookDeclaration, H)| h.1),
        r matches Err(e) ==> e == EngineError::ExtensionCannotRegisterGlobalHook,
{
    let ghost all = hooks@;
    let ghost start = executor.decls();
    let ghost hstart = executor.handlers();
    let n: usize = hooks.len();
    let mut pending = hooks;
    let mut k: usize = 0;
    assert(all.skip(0) =~= all);
    while pending.len() > 0
        invariant
            k + pending@.len() == all.len(),
            pending@ == all.skip(k as int),
            all == hooks@,
            all.len() == n,
            executor.builtins() == builtin_ids(),
            old(executor).builtins() == builtin_ids(),
            executor.dep_order() == old(executor).dep_order(),
            forall|i: int| 0 <= i < k ==> !hook_refused(#[trigger] all[i].0),
            executor.decls() == start + all.take(k as int).map_values(|h: (HookDeclaration, H)| h.0),
            executor.handlers() == hstart + all.take(k as int).map_values(|h: (HookDeclaration, H)| h.1),
            start == old(executor).decls(),
            hstart == old(executor).handlers(),
        decreases pending@.len(),
    {
        let (decl, handler) = pending.remove(0);
        assert(all[k as int] == all.skip(k as int)[0]);
        assert(pending@ =~= all.skip(k + 1));
        let ghost d = decl;
        let ghost hd = handler;
        match executor.register(decl, handler) {
            Ok(()) => {},
            Err(e) => {
                assert(hook_refused(all[k as int].0));
                return Err(e);
            },
        }
        assert(all.take(k + 1).map_values(|h: (HookDeclaration, H)| h.0)
            =~= all.take(k as int).map_values(|h: (HookDeclaration, H)| h.0).push(d));
        assert(all.take(k + 1).map_values(|h: (HookDeclaration, H)| h.1)
            =~= all.take(k as int).map_values(|h: (HookDeclaration, H)| h.1).push(hd));
        k = k + 1;
    }
    assert(all.take(all.len() as int) =~= all);
    Ok(())
}

/// The dependencies that the declarations of the built-in datatypes
/// declare: identity none, room identity, timeline identity and room,
/// message all three.
pub open spec fn builtin_dependencies(decls: Seq<DatatypeDeclaration>) -> bool {
    &&& decls.len() == 4
    &&& decl_ids(decls) == builtin_ids()
    &&& decls[0].dependencies.deep_view() == Seq::<Seq<char>>::empty()
    &&& decls[1].dependencies.deep_view() == seq!["identity"@]
    &&& decls[2].dependencies.deep_view() == seq!["identity"@, "room"@]
    &&& decls[3].dependencies.deep_view() == seq!["identity"@, "room"@, "timeline"@]
}

/// Whether `ds` are the declarations of the built-in datatypes in
/// registration order, as `identity_datatype`, `room_datatype`,
/// `timeline_datatype` and `message_datatype` give them.
pub open spec fn builtin_datatypes(ds: Seq<DatatypeDeclaration>) -> bool {
    &&& ds.len() == 4
    &&& is_builtin_declaration(ds[0], "identity"@, Seq::empty(), "entity_keypair"@, StorageType::Blob,
        "ezagent/@{entity_id}/identity/pubkey"@, WriterRule::SignerIsEntity)
    &&& is_builtin_declaration(ds[1], "room"@, seq!["identity"@], "room_config"@, StorageType::CrdtMap,
        "ezagent/{room_id}/config/{state|updates}"@, WriterRule::SignerPowerLevel { min_level: 50 })
    &&& is_builtin_declaration(ds[2], "timeline"@, seq!["identity"@, "room"@], "timeline_index"@, StorageType::CrdtArray,
        "ezagent/{room_id}/index/{shard_id}/{state|updates}"@, WriterRule::SignerInMembers)
    &&& is_builtin_declaration(ds[3], "message"@, seq!["identity"@, "room"@, "timeline"@], "immutable_content"@,
        StorageType::Blob, "ezagent/{room_id}/content/{sha256_hash}"@, WriterRule::OneTimeWrite)
}

/// The four built-in ids are distinct, and the dependency table of their
/// declarations gives each the dependencies it declares.
proof fn lemma_builtin_deps(decls: Seq<DatatypeDeclaration>)
    requires
        builtin_dependencies(decls),
    ensures
        builtin_ids().no_duplicates(),
        forall|i: int| 0 <= i < 4 ==> deps_of(dep_table(decls), #[trigger] builtin_ids()[i]) == decls[i].dependencies.deep_view(),
{
    reveal_strlit("identity");
    reveal_strlit("room");
    reveal_strlit("timeline");
    reveal_strlit("message");
    let deps = dep_table(decls);
    let o = builtin_ids();
    assert(o[0].len() == 8 && o[1].len() == 4 && o[2].len() == 8 && o[3].len() == 7);
    assert(o[0][0] != o[2][0]);
    assert forall|a: int, b: int| 0 <= a < b < 4 implies o[a] != o[b] by {
        if a == 0 && b == 2 {
            assert(o[0][0] != o[2][0]);
        }
    }
    assert forall|j: int| 0 <= j < 4 implies #[trigger] deps[j].0 == o[j] && deps[j].1 == decls[j].dependencies.deep_view() by {}
    assert forall|i: int| 0 <= i < 4 implies deps_of(deps, #[trigger] o[i]) == decls[i].dependencies.deep_view() by {
        assert(deps[i].0 == o[i]);
        assert(exists|j: int| 0 <= j < deps.len() && deps[j].0 == o[i]);
        let c = choose|j: int| 0 <= j < deps.len() && deps[j].0 == o[i] && forall|k: int| 0 <= k < j ==> deps[k].0 != o[i];
        assert(exists|j: int| 0 <= j < deps.len() && deps[j].0 == o[i] && forall|k: int| 0 <= k < j ==> deps[k].0 != o[i]) by {
            assert forall|k: int| 0 <= k < i implies deps[k].0 != o[i] by {
                assert(deps[k].0 == o[k]);
            }
        }
        assert(0 <= c < 4 && deps[c].0 == o[i]);
        if c < i {
            assert(deps[c].0 == o[c]);
        } else if c > i {
            assert(deps[i].0 != o[i]);
        }
        reveal(dep_entry_index);
        assert(dep_entry_index(deps, o[i]) == Some(c));
    }
    assert(o.no_duplicates());
}

/// The built-in datatypes (identity; room on identity; timeline on both;
/// message on all three) can be loaded in their registration order.
proof fn lemma_builtins_load_order(decls: Seq<DatatypeDeclaration>)
    requires
        builtin_dependencies(decls),
    ensures
        has_load_order(decl_ids(decls), dep_table(decls)),
        is_topological_order(decl_ids(decls), dep_table(decls), builtin_ids()),
{
    lemma_builtin_deps(decls);
    let ids = decl_ids(decls);
    let deps = dep_table(decls);
    let o = builtin_ids();
    assert forall|x: Seq<char>| o.contains(x) <==> ids.contains(x) by {}
    assert forall|i: int, k: int| 0 <= i < o.len() && 0 <= k < deps_of(deps, o[i]).len()
        implies o.take(i).contains(#[trigger] deps_of(deps, o[i])[k]) by {
        assert(deps_of(deps, o[i]) == decls[i].dependencies.deep_view());
        assert(deps_of(deps, o[i])[k] == o[k]);
        assert(o.take(i)[k] == o[k]);
    }
    assert(is_topological_order(ids, deps, o));
}

/// The registration order is the only load order of the built-in
/// datatypes: at each step exactly one of them has all its dependencies
/// placed.
proof fn lemma_builtins_order_unique(decls: Seq<DatatypeDeclaration>, t: Seq<Seq<char>>)
    requires
        builtin_dependencies(decls),
        is_topological_order(decl_ids(decls), dep_table(decls), t),
    ensures
        t == builtin_ids(),
{
    lemma_builtin_deps(decls);
    let deps = dep_table(decls);
    let o = builtin_ids();
    let ids = decl_ids(decls);
    assert(t.len() == 4);
    assert forall|i: int| 0 <= i < 4 implies o.contains(#[trigger] t[i]) by {
        assert(t.contains(t[i]));
        assert(ids.contains(t[i]));
    }
    assert(deps_of(deps, o[1]) == seq!["identity"@]);
    assert(deps_of(deps, o[2]) == seq!["identity"@, "room"@]);
    assert(deps_of(deps, o[3]) == seq!["identity"@, "room"@, "timeline"@]);
    // Position 0: only identity needs nothing.
    assert(t[0] == o[0]) by {
        if t[0] != o[0] {
            assert(deps_of(deps, t[0]).len() > 0);
            assert(t.take(0).contains(deps_of(deps, t[0])[0]));
        }
    }
    // Position 1: all but room need room, or are identity itself.
    assert(t[1] == o[1]) by {
        assert(t[1] != t[0]);
        if t[1] == o[2] || t[1] == o[3] {
            assert(t.take(1).contains(deps_of(deps, t[1])[1]));
            let j = choose|j: int| 0 <= j < 1 && t.take(1)[j] == deps_of(deps, t[1])[1];
            assert(t[0] == o[1]);
        }
    }
    // Position 2: message needs timeline.
    assert(t[2] == o[2]) by {
        assert(t[2] != t[0] && t[2] != t[1]);
        if t[2] == o[3] {
            assert(t.take(2).contains(deps_of(deps, t[2])[2]));
            let j = choose|j: int| 0 <= j < 2 && t.take(2)[j] == deps_of(deps, t[2])[2];
            assert(t[j] == o[2]);
        }
    }
    assert(t[3] == o[3]) by {
        assert(t[3] != t[0] && t[3] != t[1] && t[3] != t[2]);
    }
    assert(t =~= o);
}

/// The position of the first loaded extension named `name`.
pub open spec fn loaded_index(list: Seq<LoadedExtension>, name: Seq<char>) -> Option<int> {
    if exists|i: int| 0 <= i < list.len() && list[i].name@ == name {
        Some(choose|i: int| 0 <= i < list.len() && list[i].name@ == name
            && forall|j: int| 0 <= j < i ==> list[j].name@ != name)
    } else {
        None
    }
}

/// Whether `e` records extension `name` loaded from `manifest`.
pub open spec fn records(e: LoadedExtension, name: Seq<char>, manifest: ExtensionManifest) -> bool {
    &&& e.name@ == name
    &&& e.version@ == manifest.version@
    &&& e.manifest == manifest
}

impl<H: HookHandler> Engine<H> {
    /// The local entity id, once the identity is initialized.
    pub closed spec fn identity(&self) -> Option<Seq<char>> {
        match self.entity_id {
            Some(e) => Some(e@),
            None => None,
        }
    }

    /// The loaded extensions, in loading order.
    pub closed spec fn loaded_list(&self) -> Seq<LoadedExtension> {
        self.loaded@
    }

    /// The registered datatype declarations, in registration order.
    pub closed spec fn datatypes(&self) -> Seq<DatatypeDeclaration> {
        self.registry.decls()
    }

    /// The registered hook declarations, in registration order.
    pub closed spec fn hook_decls(&self) -> Seq<HookDeclaration> {
        self.hook_executor.decls()
    }

    /// The handlers of the registered hooks, in registration order.
    pub closed spec fn hook_handlers(&self) -> Seq<H> {
        self.hook_executor.handlers()
    }

    /// The dependency order of datatype ids that ranks hook sources.
    pub closed spec fn hook_dep_order(&self) -> Seq<Seq<char>> {
        self.hook_executor.dep_order()
    }

    /// Running the registered hooks of `phase` on `before` may leave `after`
    /// and return `r`.
    pub open spec fn runs(&self, phase: HookPhase, before: HookContext, after: HookContext, r: Result<(), EngineError>) -> bool {
        runs_hooks(self.hook_handlers(), self.hook_decls(), self.hook_dep_order(), phase, before, after, r)
    }

    /// The datatype ids allowed to register global hooks.
    pub closed spec fn global_hook_sources(&self) -> Seq<Seq<char>> {
        self.hook_executor.builtins()
    }

    /// An engine with the four built-in datatypes (identity, room, timeline,
    /// message) registered, the hook pipeline ranked by their dependency
    /// order with global hooks reserved to them, and `hooks` registered in
    /// order; no identity and no extensions. The first refused hook (a
    /// global hook from another source) is the error.
    pub fn new(hooks: Vec<(HookDeclaration, H)>) -> (r: Result<Engine<H>, EngineError>)
        ensures
            match r {
                Ok(e) => {
                    &&& decl_ids(e.datatypes()) == builtin_ids()
                    &&& builtin_datatypes(e.datatypes())
                    &&& e.hook_dep_order() == builtin_ids()
                    &&& e.global_hook_sources() == builtin_ids()
                    &&& e.hook_decls() == hooks@.map_values(|h: (HookDeclaration, H)| h.0)
                    &&& e.hook_handlers() == hooks@.map_values(|h: (HookDeclaration, H)| h.1)
                    &&& forall|i: int| 0 <= i < hooks@.len() ==> !hook_refused(#[trigger] hooks@[i].0)
                    &&& e.identity() is None
                    &&& e.loaded_list().len() == 0
                },
                Err(err) => err == EngineError::ExtensionCannotRegisterGlobalHook
                    && exists|i: int| 0 <= i < hooks@.len() && hook_refused(#[trigger] hooks@[i].0),
            },
    {
        let mut registry = DatatypeRegistry::new();
        let d1 = identity_datatype();
        let d2 = room_datatype();
        let d3 = timeline_datatype();
        let d4 = message_datatype();
        let ghost g1 = d1;
        let ghost g2 = d2;
        let ghost g3 = d3;
        let ghost g4 = d4;
        proof {
            reveal_strlit("identity");
            reveal_strlit("room");
            reveal_strlit("timeline");
            reveal_strlit("message");
            assert(g1.id@.len() == 8 && g2.id@.len() == 4 && g3.id@.len() == 8 && g4.id@.len() == 7);
            assert(g1.id@[0] != g3.id@[0]);
        }
        let _ = registry.register(d1);
        assert(decl_ids(registry.decls()) =~= seq![g1.id@]);
        let _ = registry.register(d2);
        assert(decl_ids(registry.decls()) =~= seq![g1.id@, g2.id@]);
        let _ = registry.register(d3);
        assert(decl_ids(registry.decls()) =~= seq![g1.id@, g2.id@, g3.id@]);
        let _ = registry.register(d4);
        assert(decl_ids(registry.decls()) =~= builtin_ids());
        proof {
            assert(registry.decls() =~= seq![g1, g2, g3, g4]);
            assert(g1.dependencies.deep_view() =~= g1.dependencies@.map_values(|s: String| s@));
            assert(g2.dependencies.deep_view() =~= g2.dependencies@.map_values(|s: String| s@));
            assert(g3.dependencies.deep_view() =~= g3.dependencies@.map_values(|s: String| s@));
            assert(g4.dependencies.deep_view() =~= g4.dependencies@.map_values(|s: String| s@));
            assert(builtin_dependencies(registry.decls()));
            assert(builtin_datatypes(registry.decls()));
            lemma_builtins_load_order(registry.decls());
        }
        let load_order = match registry.load_order() {
            Ok(o) => o,
            Err(e) => {
                assert(false);
                return Err(e);
            },
        };
        proof {
            lemma_builtins_order_unique(registry.decls(), load_order.deep_view());
        }
        let mut hook_executor: HookExecutor<H> = HookExecutor::new();
        let mut ids: Vec<String> = Vec::new();
        ids.push(copy_str("identity"));
        ids.push(copy_str("room"));
        ids.push(copy_str("timeline"));
        ids.push(copy_str("message"));
        assert(str_seq(ids@) =~= builtin_ids());
        hook_executor.set_builtin_ids(ids);
        hook_executor.set_dependency_order(load_order.as_slice());
        assert(hook_executor.dep_order() =~= builtin_ids());
        register_all(&mut hook_executor, hooks)?;
        assert(hook_executor.decls() =~= hooks@.map_values(|h: (HookDeclaration, H)| h.0));
        assert(hook_executor.handlers() =~= hooks@.map_values(|h: (HookDeclaration, H)| h.1));
        Ok(Engine {
            registry,
            hook_executor,
            index_builder: IndexBuilder::new(),
            uri_registry: UriPathRegistry::new(),
            entity_id: None,
            loaded: Vec::new(),
        })
    }
}

/// The text of the current time: whole seconds since the Unix epoch
/// followed by `Z`.
pub open spec fn seconds_stamp(secs: nat) -> Seq<char> {
    decimal(secs) + "Z"@
}

/// Whether `c` is the configuration of a new room `room_id` named `name`,
/// created by `owner` at `created_at`: invite-only with `owner` as its only
/// member (an owner), default power levels (0, 0, admin 50, no per-user
/// levels), no relays, 10000 refs per timeline shard, no extensions and no
/// extension fields.
pub open spec fn is_new_room(c: RoomConfig, room_id: Seq<char>, name: Seq<char>, owner: Seq<char>, created_at: Seq<char>) -> bool {
    &&& c.room_id@ == room_id
    &&& c.name@ == name
    &&& c.created_by@ == owner
    &&& c.created_at@ == created_at
    &&& c.membership.policy == MembershipPolicy::Invite
    &&& c.membership.members@.len() == 1
    &&& c.membership.members@[0].0@ == owner
    &&& c.membership.members@[0].1 == Role::Owner
    &&& c.power_levels.default == 0
    &&& c.power_levels.events_default == 0
    &&& c.power_levels.admin == 50
    &&& c.power_levels.users@.len() == 0
    &&& c.relays@.len() == 0
    &&& c.timeline.shard_max_refs == 10000
    &&& c.enabled_extensions@.len() == 0
    &&& c.extra@.len() == 0
}

/// Whether `c` is a new room named `name` owned by `owner`, with a UUID
/// for id, created at a time stamp.
pub open spec fn is_created_room(c: RoomConfig, name: Seq<char>, owner: Seq<char>) -> bool {
    exists|id: Seq<char>, at: Seq<char>| #![trigger is_new_room(c, id, name, owner, at)]
        is_hyphenated_uuid(id) && (exists|secs: nat| at == seconds_stamp(secs)) && is_new_room(c, id, name, owner, at)
}

/// Whether `c` is a new room named `name`, owned by `owner`, with a UUID v7
/// as its id, created `secs` seconds after the Unix epoch.
pub open spec fn is_room_created_at(c: RoomConfig, name: Seq<char>, owner: Seq<char>, secs: nat) -> bool {
    exists|id: Seq<char>| is_hyphenated_uuid(id) && #[trigger] is_new_room(c, id, name, owner, seconds_stamp(secs))
}

/// The configuration of a new room; see `is_new_room`.
pub fn new_room_config(room_id: String, name: &str, owner: &str, created_at: String) -> (c: RoomConfig)
    ensures
        is_new_room(c, room_id@, name@, owner@, created_at@),
{
    let mut members: Vec<(String, Role)> = Vec::new();
    members.push((copy_str(owner), Role::Owner));
    RoomConfig {
        room_id,
        name: copy_str(name),
        created_by: copy_str(owner),
        created_at,
        membership: MembershipConfig { policy: MembershipPolicy::Invite, members },
        power_levels: PowerLevelConfig { default: 0, events_default: 0, admin: 50, users: Vec::new() },
        relays: Vec::new(),
        timeline: TimelineConfig { shard_max_refs: 10000 },
        enabled_extensions: Vec::new(),
        extra: Vec::new(),
    }
}

/// Different times have different stamps: `seconds_stamp` loses nothing.
pub proof fn lemma_seconds_stamp_injective(a: nat, b: nat)
    ensures
        seconds_stamp(a) == seconds_stamp(b) <==> a == b,
{
    reveal_strlit("Z");
    if seconds_stamp(a) == seconds_stamp(b) {
        assert(seconds_stamp(a).drop_last() =~= decimal(a));
        assert(seconds_stamp(b).drop_last() =~= decimal(b));
        lemma_decimal_injective(a, b);
    }
}

/// `secs` followed by `Z`.
fn seconds_text(secs: u64) -> (s: String)
    ensures
        s@ == seconds_stamp(secs as nat),
{
    concat2(&u64_to_decimal(secs), "Z")
}

/// The current time as whole seconds since the Unix epoch followed by `Z`
/// (`0Z` for a clock before the epoch).
fn now_stamp() -> (s: String)
    ensures
        exists|secs: nat| s@ == seconds_stamp(secs),
{
    let (secs, _) = unix_time();
    seconds_text(secs)
}

/// Appends the field `key` with `value`.
fn push_field(fields: &mut Vec<(String, JsonValue)>, key: String, value: JsonValue)
    ensures
        final(fields)@ == old(fields)@.push((key, value)),
        fields_model(final(fields)@) == fields_model(old(fields)@).push((key@, json_model(value))),
{
    proof {
        lemma_fields_model_push(fields@, (key, value));
    }
    fields.push((key, value));
}

/// The data that sending a message hands the pre-send hooks, in order:
/// the body, the author, the content type `immutable`, the format, the
/// creation time, no media refs, and the author as a room member.
pub open spec fn send_data(author: Seq<char>, body: JsonValue, format: Seq<char>, created_at: Seq<char>) -> Seq<(Seq<char>, JsonModel)> {
    seq![
        ("body"@, json_model(body)),
        ("author"@, JsonModel::Str(author)),
        ("content_type"@, JsonModel::Str("immutable"@)),
        ("format"@, JsonModel::Str(format)),
        ("created_at"@, JsonModel::Str(created_at)),
        ("media_refs"@, JsonModel::Array(Seq::empty())),
        ("members"@, JsonModel::Object(seq![(author, JsonModel::Str("Member"@))])),
    ]
}

/// Whether `ctx` is the context that sending a message composes: an
/// insert of immutable content in `room_id` signed by `author`, writable,
/// not rejected, no hook run yet, holding `send_data`.
pub open spec fn is_send_context(ctx: HookContext, room_id: Seq<char>, author: Seq<char>, body: JsonValue,
    format: Seq<char>, created_at: Seq<char>) -> bool {
    &&& ctx.datatype_id@ == "immutable_content"@
    &&& ctx.event == TriggerEvent::Insert
    &&& (match ctx.room_id { Some(r) => r@ == room_id, None => false })
    &&& (match ctx.signer_id { Some(s) => s@ == author, None => false })
    &&& fields_model(ctx.data@) == send_data(author, body, format, created_at)
    &&& !ctx.read_only
    &&& !ctx.rejected
    &&& ctx.rejection_reason is None
    &&& ctx.executed_hooks@.len() == 0
}

/// Whether `c` is the message that `author` sends: immutable content with
/// `body` and `format`, created at `created_at`, no media refs, no
/// signature, and its content id.
pub open spec fn is_sent_content(c: MessageContent, author: Seq<char>, body: JsonValue, format: Seq<char>,
    created_at: Seq<char>) -> bool {
    &&& c.content_type@ == "immutable"@
    &&& c.author@ == author
    &&& c.body == body
    &&& c.format@ == format
    &&& c.media_refs@.len() == 0
    &&& c.created_at@ == created_at
    &&& c.signature is None
    &&& c.content_id@ == c.expected_id()
}

/// The error for operations that need the local identity.
pub open spec fn no_identity(e: EngineError) -> bool {
    e matches EngineError::PermissionDenied(m) && m@ == "identity not initialized"@
}

/// `signed` is `before` with the signer `identity` filled in when `before`
/// names none.
pub open spec fn signed_by_default(before: HookContext, signed: HookContext, identity: Option<Seq<char>>) -> bool {
    &&& signed == (HookContext { signer_id: signed.signer_id, ..before })
    &&& match before.signer_id {
        Some(s) => signed.signer_id == Some(s),
        None => (match signed.signer_id { Some(s) => Some(s@), None => None }) == identity,
    }
}

/// Whether `after` is `before` marked read-only.
pub open spec fn made_read_only(before: HookContext, after: HookContext) -> bool {
    after == (HookContext { read_only: true, ..before })
}

impl<H: HookHandler> Engine<H> {
    /// Sets the local identity.
    pub fn init_identity(&mut self, entity_id: String) -> (r: Result<(), EngineError>)
        ensures
            r is Ok,
            final(self).identity() == Some(entity_id@),
            final(self).datatypes() == old(self).datatypes(),
            final(self).hook_decls() == old(self).hook_decls(),
            final(self).global_hook_sources() == old(self).global_hook_sources(),
            final(self).loaded_list() == old(self).loaded_list(),
    {
        self.entity_id = Some(entity_id);
        Ok(())
    }

    /// The local entity id, once the identity is initialized.
    pub fn entity_id(&self) -> (r: Option<&String>)
        ensures
            match r {
                Some(e) => self.identity() == Some(e@),
                None => self.identity() is None,
            },
    {
        match &self.entity_id {
            Some(e) => Some(e),
            None => None,
        }
    }

    /// The local entity id; refused before the identity is initialized.
    pub fn identity_whoami(&self) -> (r: Result<String, EngineError>)
        ensures
            match self.identity() {
                Some(e) => r matches Ok(s) && s@ == e,
                None => r matches Err(err) && no_identity(err),
            },
    {
        match &self.entity_id {
            Some(e) => Ok(copy_str(e)),
            None => Err(EngineError::PermissionDenied(copy_str("identity not initialized"))),
        }
    }

    /// Runs the pre-send hooks on a write, signed by the local identity when
    /// the context names no signer.
    pub fn run_pre_send(&self, ctx: &mut HookContext) -> (r: Result<(), EngineError>)
        ensures
            exists|signed: HookContext| #[trigger] self.runs(HookPhase::PreSend, signed, *final(ctx), r)
                && signed_by_default(*old(ctx), signed, self.identity()),
            ({
                let signer = match old(ctx).signer_id {
                    Some(s) => Some(s@),
                    None => self.identity(),
                };
                (forall|k: int| 0 <= k < self.hook_decls().len() ==> !crate::hooks::executor::hook_fires(
                    #[trigger] self.hook_decls()[k], HookPhase::PreSend, old(ctx).datatype_id@, old(ctx).event)) ==> {
                    &&& r is Ok
                    &&& (match final(ctx).signer_id { Some(s) => Some(s@), None => None }) == signer
                    &&& *final(ctx) == (HookContext { signer_id: final(ctx).signer_id, ..*old(ctx) })
                }
            }),
    {
        assert(self.hook_decls() == self.hook_executor.decls());
        if ctx.signer_id.is_none() {
            if let Some(e) = &self.entity_id {
                ctx.signer_id = Some(copy_str(e));
            }
        }
        let ghost signed = *ctx;
        let r = self.hook_executor.execute(HookPhase::PreSend, ctx);
        assert(self.runs(HookPhase::PreSend, signed, *ctx, r));
        r
    }

    /// Runs the after-write hooks on a read-only context; they never fail
    /// the write.
    pub fn run_after_write(&self, ctx: &mut HookContext) -> (r: Result<(), EngineError>)
        ensures
            r is Ok,
            self.runs(HookPhase::AfterWrite, HookContext { read_only: true, ..*old(ctx) }, *final(ctx), r),
            (forall|k: int| 0 <= k < self.hook_decls().len() ==> !crate::hooks::executor::hook_fires(
                #[trigger] self.hook_decls()[k], HookPhase::AfterWrite, old(ctx).datatype_id@, old(ctx).event))
                ==> made_read_only(*old(ctx), *final(ctx)),
    {
        assert(self.hook_decls() == self.hook_executor.decls());
        ctx.read_only = true;
        self.hook_executor.execute(HookPhase::AfterWrite, ctx)
    }

    /// Runs the after-read hooks on a read-only context; they never fail
    /// the read.
    pub fn run_after_read(&self, ctx: &mut HookContext) -> (r: Result<(), EngineError>)
        ensures
            r is Ok,
            self.runs(HookPhase::AfterRead, HookContext { read_only: true, ..*old(ctx) }, *final(ctx), r),
            (forall|k: int| 0 <= k < self.hook_decls().len() ==> !crate::hooks::executor::hook_fires(
                #[trigger] self.hook_decls()[k], HookPhase::AfterRead, old(ctx).datatype_id@, old(ctx).event))
                ==> made_read_only(*old(ctx), *final(ctx)),
    {
        assert(self.hook_decls() == self.hook_executor.decls());
        ctx.read_only = true;
        self.hook_executor.execute(HookPhase::AfterRead, ctx)
    }

    /// Whether a datatype with id `id` is registered.
    pub fn has_datatype(&self, id: &str) -> (r: bool)
        ensures
            r == decl_ids(self.datatypes()).contains(id@),
    {
        let found = self.registry.get(id);
        proof {
            let ds = self.datatypes();
            if let Some(d) = found {
                let i = choose|i: int| 0 <= i < ds.len() && ds[i] == *d;
                assert(decl_ids(ds)[i] == id@);
            }
        }
        found.is_some()
    }

    /// The dependency order of the datatypes taking part in a room with the
    /// given enabled extensions; see `DatatypeRegistry::load_order_for_room`.
    pub fn load_order_for_room(&self, enabled_extensions: &[String]) -> (r: Result<Vec<String>, EngineError>)
        ensures
            ({
                let room = room_decls(self.datatypes(), enabled_extensions.deep_view());
                &&& (exists|e: Seq<char>, d: Seq<char>| unmet_dependency(room, e, d)) <==> (r matches Err(EngineError::DependencyNotMet { .. }))
                &&& r matches Err(EngineError::DependencyNotMet { ext, requires: d }) ==> unmet_dependency(room, ext@, d@)
                &&& r is Ok <==> (!(exists|e: Seq<char>, d: Seq<char>| unmet_dependency(room, e, d))
                    && has_load_order(decl_ids(room), dep_table(room)))
                &&& r matches Ok(o) ==> is_topological_order(decl_ids(room), dep_table(room), o.deep_view())
                &&& r matches Ok(o) ==> is_greedy_order(decl_ids(room), dep_table(room), o.deep_view())
                &&& r matches Err(e) ==> (e is DependencyNotMet || e is CircularDependency)
            }),
    {
        assert(self.datatypes() == self.registry.decls());
        self.registry.load_order_for_room(enabled_extensions)
    }

    /// Whether an extension named `name` is loaded.
    pub fn is_extension_loaded(&self, name: &str) -> (r: bool)
        ensures
            r == exists|i: int| 0 <= i < self.loaded_list().len() && (#[trigger] self.loaded_list()[i]).name@ == name@,
    {
        let mut i: usize = 0;
        while i < self.loaded.len()
            invariant
                i <= self.loaded@.len(),
                forall|k: int| 0 <= k < i ==> self.loaded@[k].name@ != name@,
            decreases self.loaded@.len() - i,
        {
            if str_eq(&self.loaded[i].name, name) {
                assert(self.loaded_list()[i as int].name@ == name@);
                return true;
            }
            i = i + 1;
        }
        false
    }

    /// The names of the loaded extensions, in loading order.
    pub fn loaded_extensions(&self) -> (r: Vec<String>)
        ensures
            r@.len() == self.loaded_list().len(),
            forall|i: int| 0 <= i < r@.len() ==> r@[i]@ == (#[trigger] self.loaded_list()[i]).name@,
    {
        let mut out: Vec<String> = Vec::new();
        let mut i: usize = 0;
        while i < self.loaded.len()
            invariant
                i <= self.loaded@.len(),
                out@.len() == i,
                forall|k: int| 0 <= k < i ==> out@[k]@ == self.loaded@[k].name@,
            decreases self.loaded@.len() - i,
        {
            out.push(copy_str(&self.loaded[i].name));
            i = i + 1;
        }
        out
    }

    /// Finishes loading extension `name` after its entry function ran: a
    /// registration error reported by the extension fails the load with
    /// reason `registration error: ...`; otherwise the extension is
    /// recorded as loaded, in place of the first record of the same name or
    /// else after all others.
    pub fn finish_extension_load(&mut self, name: &str, manifest: ExtensionManifest, registration_error: Option<&str>)
        -> (r: Option<ExtensionLoadError>)
        ensures
            match registration_error {
                Some(e) => {
                    &&& r matches Some(err) && err.name@ == name@ && err.reason@ == "registration error: "@ + e@
                    &&& final(self).loaded_list() == old(self).loaded_list()
                },
                None => {
                    let before = old(self).loaded_list();
                    let after = final(self).loaded_list();
                    &&& r is None
                    &&& match loaded_index(before, name@) {
                        Some(i) => {
                            &&& after.len() == before.len()
                            &&& records(after[i], name@, manifest)
                            &&& forall|j: int| 0 <= j < before.len() && j != i ==> #[trigger] after[j] == before[j]
                        },
                        None => {
                            &&& after.len() == before.len() + 1
                            &&& after.drop_last() == before
                            &&& records(after.last(), name@, manifest)
                        },
                    }
                },
            },
            final(self).identity() == old(self).identity(),
            final(self).datatypes() == old(self).datatypes(),
            final(self).hook_decls() == old(self).hook_decls(),
    {
        if let Some(e) = registration_error {
            return Some(ExtensionLoadError { name: copy_str(name), reason: concat2("registration error: ", e) });
        }
        let ghost before = self.loaded@;
        let version = copy_str(&manifest.version);
        let ext = LoadedExtension { name: copy_str(name), version, manifest };
        let ghost ge = ext;
        let mut i: usize = 0;
        while i < self.loaded.len()
            invariant
                i <= self.loaded@.len(),
                self.loaded@ == before,
                before == old(self).loaded@,
                forall|k: int| 0 <= k < i ==> self.loaded@[k].name@ != name@,
                registration_error is None,
                ext == ge,
                records(ge, name@, manifest),
                self.entity_id == old(self).entity_id,
                self.registry == old(self).registry,
                self.hook_executor == old(self).hook_executor,
            decreases self.loaded@.len() - i,
        {
            if str_eq(&self.loaded[i].name, name) {
                self.loaded.set(i, ext);
                proof {
                    let ii = i as int;
                    assert(exists|j: int| 0 <= j < before.len() && before[j].name@ == name@) by {
                        assert(before[ii].name@ == name@);
                    }
                    let c = choose|j: int| 0 <= j < before.len() && before[j].name@ == name@
                        && forall|k: int| 0 <= k < j ==> before[k].name@ != name@;
                    assert(exists|j: int| 0 <= j < before.len() && before[j].name@ == name@
                        && forall|k: int| 0 <= k < j ==> before[k].name@ != name@) by {
                        assert(before[ii].name@ == name@);
                    }
                    if c < ii {
                        assert(before[c].name@ != name@);
                    } else if c > ii {
                        assert(before[ii].name@ != name@);
                    }
                    assert(loaded_index(before, name@) == Some(ii));
                    assert(self.loaded@[ii] == ge);
                }
                return None;
            }
            i = i + 1;
        }
        proof {
            assert(!exists|j: int| 0 <= j < before.len() && before[j].name@ == name@);
        }
        self.loaded.push(ext);
        proof {
            assert(self.loaded@.drop_last() =~= before);
        }
        None
    }

    /// Whether the identity is initialized, and the registered datatypes.
    pub fn status(&self) -> (s: EngineStatus)
        ensures
            s.identity_initialized == self.identity() is Some,
            s.registered_datatypes.deep_view() == decl_ids(self.datatypes()),
    {
        EngineStatus { identity_initialized: self.entity_id.is_some(), registered_datatypes: self.registry.ids() }
    }

    /// A new room named `name`, owned by the local identity, with a fresh
    /// UUID v7 id and the current time; refused before the identity is
    /// initialized.
    pub fn room_create(&self, name: &str) -> (r: Result<RoomConfig, EngineError>)
        ensures
            match self.identity() {
                None => r matches Err(e) && no_identity(e),
                Some(owner) => r matches Ok(c) && is_created_room(c, name@, owner),
            },
    {
        let (secs, nanos) = unix_time();
        let r = self.room_create_at(name, secs, nanos);
        proof {
            if let Ok(c) = &r {
                let c = *c;
                let owner = self.identity().unwrap();
                assert(is_room_created_at(c, name@, owner, secs as nat));
                let id = choose|id: Seq<char>| is_hyphenated_uuid(id)
                    && #[trigger] is_new_room(c, id, name@, owner, seconds_stamp(secs as nat));
                assert(is_new_room(c, id, name@, owner, seconds_stamp(secs as nat)));
                assert(exists|s: nat| seconds_stamp(secs as nat) == seconds_stamp(s));
            }
        }
        r
    }

    /// `room.create` at `secs` seconds and `nanos` nanoseconds after the
    /// Unix epoch: a new room named `name`, owned by the local identity,
    /// with a UUID v7 for that moment as its id and `secs` followed by `Z`
    /// as its creation time; refused before the identity is initialized.
    pub fn room_create_at(&self, name: &str, secs: u64, nanos: u32) -> (r: Result<RoomConfig, EngineError>)
        ensures
            match self.identity() {
                None => r matches Err(e) && no_identity(e),
                Some(owner) => r matches Ok(c) && is_room_created_at(c, name@, owner, secs as nat),
            },
    {
        let owner = match &self.entity_id {
            Some(e) => e,
            None => return Err(EngineError::PermissionDenied(copy_str("identity not initialized"))),
        };
        let room_id = uuid_v7_at(secs, nanos);
        let now = seconds_text(secs);
        let ghost id = room_id@;
        let c = new_room_config(room_id, name, owner, now);
        assert(is_new_room(c, id, name@, owner@, seconds_stamp(secs as nat)));
        assert(is_hyphenated_uuid(id));
        assert(self.identity() == Some(owner@));
        assert(is_room_created_at(c, name@, owner@, secs as nat));
        Ok(c)
    }

    /// Sending a message in `room_id` may return `r`, for content created at
    /// `created_at`: refused before the identity is initialized; otherwise
    /// the pre-send hooks run on the composed context (`is_send_context`),
    /// and the message (`is_sent_content`) is returned when they accept it,
    /// their error when they refuse it.
    pub open spec fn sends(&self, room_id: Seq<char>, body: JsonValue, format: Seq<char>, created_at: Seq<char>,
        r: Result<MessageContent, EngineError>) -> bool {
        match self.identity() {
            None => r matches Err(e) && no_identity(e),
            Some(author) => exists|before: HookContext, after: HookContext, res: Result<(), EngineError>|
                #[trigger] self.runs(HookPhase::PreSend, before, after, res)
                && is_send_context(before, room_id, author, body, format, created_at)
                && match r {
                    Ok(c) => res is Ok && is_sent_content(c, author, body, format, created_at),
                    Err(e) => res == Err::<(), EngineError>(e),
                },
        }
    }

    /// Whether no registered hook runs before immutable content is inserted.
    pub open spec fn no_pre_send_hook(&self) -> bool {
        forall|k: int| 0 <= k < self.hook_decls().len()
            ==> !hook_fires(#[trigger] self.hook_decls()[k], HookPhase::PreSend, "immutable_content"@, TriggerEvent::Insert)
    }

    /// `message.send` at `now_secs` seconds after the Unix epoch: the local
    /// identity's immutable message with `body` and `format`, created at
    /// `now_secs` followed by `Z`, with its content id, once the pre-send
    /// hooks accept it. With no pre-send hook registered the message is
    /// always sent once the identity is initialized.
    pub fn message_send_at(&self, room_id: &str, body: JsonValue, format: &str, now_secs: u64)
        -> (r: Result<MessageContent, EngineError>)
        ensures
            self.sends(room_id@, body, format@, seconds_stamp(now_secs as nat), r),
            self.identity() is Some && self.no_pre_send_hook() ==> r is Ok,
    {
        let author = match &self.entity_id {
            Some(e) => e,
            None => return Err(EngineError::PermissionDenied(copy_str("identity not initialized"))),
        };
        let ghost a = author@;
        let ghost b = body;
        let created_at = seconds_text(now_secs);
        let ctx_body = copy_json(&body);
        let mut content = MessageContent {
            content_id: String::new(),
            content_type: copy_str("immutable"),
            author: copy_str(author),
            body,
            format: copy_str(format),
            media_refs: Vec::new(),
            created_at: copy_str(&created_at),
            signature: None,
        };
        content.content_id = content.compute_hash();
        let ghost want = send_data(a, b, format@, seconds_stamp(now_secs as nat));
        proof {
            reveal_strlit("immutable");
            reveal_strlit("Member");
        }
        let mut data: Vec<(String, JsonValue)> = Vec::new();
        push_field(&mut data, copy_str("body"), ctx_body);
        push_field(&mut data, copy_str("author"), JsonValue::Str(copy_str(author)));
        push_field(&mut data, copy_str("content_type"), JsonValue::Str(copy_str("immutable")));
        push_field(&mut data, copy_str("format"), JsonValue::Str(copy_str(format)));
        push_field(&mut data, copy_str("created_at"), JsonValue::Str(created_at));
        push_field(&mut data, copy_str("media_refs"), JsonValue::Array(Vec::new()));
        let mut members: Vec<(String, JsonValue)> = Vec::new();
        push_field(&mut members, copy_str(author), JsonValue::Str(copy_str("Member")));
        assert(fields_model(members@) =~= seq![(a, JsonModel::Str("Member"@))]);
        push_field(&mut data, copy_str("members"), JsonValue::Object(members));
        assert(fields_model(data@) =~= want);
        let mut ctx = HookContext::new(copy_str("immutable_content"), TriggerEvent::Insert);
        ctx.room_id = Some(copy_str(room_id));
        ctx.signer_id = Some(copy_str(author));
        ctx.data = data;
        let ghost before = ctx;
        assert(is_send_context(before, room_id@, a, b, format@, seconds_stamp(now_secs as nat)));
        let res = self.run_pre_send(&mut ctx);
        proof {
            let signed = choose|signed: HookContext| #[trigger] self.runs(HookPhase::PreSend, signed, ctx, res)
                && signed_by_default(before, signed, self.identity());
            assert(signed == before);
            assert(self.runs(HookPhase::PreSend, before, ctx, res));
        }
        match res {
            Ok(()) => Ok(content),
            Err(e) => Err(e),
        }
    }

    /// `message.send`: `message_send_at` at the current time in whole
    /// seconds since the Unix epoch (0 for a clock before the epoch).
    pub fn message_send(&self, room_id: &str, body: JsonValue, format: &str) -> (r: Result<MessageContent, EngineError>)
        ensures
            exists|secs: nat| self.sends(room_id@, body, format@, #[trigger] seconds_stamp(secs), r),
            self.identity() is Some && self.no_pre_send_hook() ==> r is Ok,
    {
        let (secs, _) = unix_time();
        let r = self.message_send_at(room_id, body, format, secs);
        assert(self.sends(room_id@, body, format@, seconds_stamp(secs as nat), r));
        r
    }

    /// Not implemented yet.
    pub fn identity_get_pubkey(&self, _entity_id: &str) -> (r: Result<String, EngineError>)
        ensures
            r matches Err(EngineError::NotImplemented),
    {
        Err(EngineError::NotImplemented)
    }

    /// Not implemented yet.
    pub fn room_list(&self) -> (r: Result<Vec<String>, EngineError>)
        ensures
            r matches Err(EngineError::NotImplemented),
    {
        Err(EngineError::NotImplemented)
    }

    /// Not implemented yet.
    pub fn room_get(&self, _room_id: &str) -> (r: Result<JsonValue, EngineError>)
        ensures
            r matches Err(EngineError::NotImplemented),
    {
        Err(EngineError::NotImplemented)
    }

    /// Not implemented yet.
    pub fn room_update_config(&mut self, _room_id: &str, _updates: JsonValue) -> (r: Result<(), EngineError>)
        ensures
            r matches Err(EngineError::NotImplemented),
            *final(self) == *old(self),
    {
        Err(EngineError::NotImplemented)
    }

    /// Not implemented yet.
    pub fn room_join(&mut self, _room_id: &str) -> (r: Result<(), EngineError>)
        ensures
            r matches Err(EngineError::NotImplemented),
            *final(self) == *old(self),
    {
        Err(EngineError::NotImplemented)
    }

    /// Not implemented yet.
    pub fn room_leave(&mut self, _room_id: &str) -> (r: Result<(), EngineError>)
        ensures
            r matches Err(EngineError::NotImplemented),
            *final(self) == *old(self),
    {
        Err(EngineError::NotImplemented)
    }

    /// Not implemented yet.
    pub fn room_invite(&mut self, _room_id: &str, _entity_id: &str) -> (r: Result<(), EngineError>)
        ensures
            r matches Err(EngineError::NotImplemented),
            *final(self) == *old(self),
    {
        Err(EngineError::NotImplemented)
    }

    /// Not implemented yet.
    pub fn room_members(&self, _room_id: &str) -> (r: Result<Vec<String>, EngineError>)
        ensures
            r matches Err(EngineError::NotImplemented),
    {
        Err(EngineError::NotImplemented)
    }

    /// Not implemented yet.
    pub fn timeline_list(&self, _room_id: &str) -> (r: Result<Vec<String>, EngineError>)
        ensures
            r matches Err(EngineError::NotImplemented),
    {
        Err(EngineError::NotImplemented)
    }

    /// Not implemented yet.
    pub fn timeline_get_ref(&self, _room_id: &str, _ref_id: &str) -> (r: Result<JsonValue, EngineError>)
        ensures
            r matches Err(EngineError::NotImplemented),
    {
        Err(EngineError::NotImplemented)
    }

    /// Not implemented yet.
    pub fn message_delete(&mut self, _room_id: &str, _ref_id: &str) -> (r: Result<(), EngineError>)
        ensures
            r matches Err(EngineError::NotImplemented),
            *final(self) == *old(self),
    {
        Err(EngineError::NotImplemented)
    }

    /// Not implemented yet.
    pub fn annotation_list(&self, _room_id: &str, _ref_id: &str) -> (r: Result<Vec<String>, EngineError>)
        ensures
            r matches Err(EngineError::NotImplemented),
    {
        Err(EngineError::NotImplemented)
    }

    /// Not implemented yet.
    pub fn annotation_add(&mut self, _room_id: &str, _ref_id: &str, _key: &str, _value: &str) -> (r: Result<(), EngineError>)
        ensures
            r matches Err(EngineError::NotImplemented),
            *final(self) == *old(self),
    {
        Err(EngineError::NotImplemented)
    }

    /// Not implemented yet.
    pub fn annotation_remove(&mut self, _room_id: &str, _ref_id: &str, _key: &str) -> (r: Result<(), EngineError>)
        ensures
            r matches Err(EngineError::NotImplemented),
            *final(self) == *old(self),
    {
        Err(EngineError::NotImplemented)
    }
}


/// A message's creation stamp tells the time it was sent at: two messages
/// sent (by any engine, in any room) at `a` and `b` seconds after the
/// epoch have the same `created_at` exactly when `a == b`, and each is
/// `a` (or `b`) followed by `Z`.
pub proof fn lemma_send_stamp_tracks_time<H: HookHandler>(
    e1: &Engine<H>, room1: Seq<char>, body1: JsonValue, format1: Seq<char>, a: nat, c1: MessageContent,
    e2: &Engine<H>, room2: Seq<char>, body2: JsonValue, format2: Seq<char>, b: nat, c2: MessageContent,
)
    requires
        e1.sends(room1, body1, format1, seconds_stamp(a), Ok(c1)),
        e2.sends(room2, body2, format2, seconds_stamp(b), Ok(c2)),
    ensures
        c1.created_at@ == seconds_stamp(a),
        c2.created_at@ == seconds_stamp(b),
        c1.created_at@ == c2.created_at@ <==> a == b,
{
    lemma_seconds_stamp_injective(a, b);
}

/// A room's creation stamp tells the time it was created at: rooms created
/// at `a` and `b` seconds after the epoch have the same `created_at`
/// exactly when `a == b`.
pub proof fn lemma_room_stamp_tracks_time(
    c1: RoomConfig, id1: Seq<char>, name1: Seq<char>, owner1: Seq<char>, a: nat,
    c2: RoomConfig, id2: Seq<char>, name2: Seq<char>, owner2: Seq<char>, b: nat,
)
    requires
        is_new_room(c1, id1, name1, owner1, seconds_stamp(a)),
        is_new_room(c2, id2, name2, owner2, seconds_stamp(b)),
    ensures
        c1.created_at@ == seconds_stamp(a),
        c1.created_at@ == c2.created_at@ <==> a == b,
{
    lemma_seconds_stamp_injective(a, b);
}

} // verus!
