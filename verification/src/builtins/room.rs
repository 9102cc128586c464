//! The room datatype: membership, roles and power levels, and the
//! permission checks that guard writes.
use vstd::prelude::*;
use crate::error::EngineError;
use crate::hooks::executor::HookHandler;
use crate::hooks::phase::{HookContext, HookDeclaration, HookPhase, TriggerEvent};
use crate::json::{field, get_field, is_string_array, json_strings, keys_in, object_keys, set_field, string_array, strings_in, views, JsonValue};
use crate::registry::datatype::{builtin_declaration, is_builtin_declaration, DatatypeDeclaration, StorageType, WriterRule};
use crate::text::{concat2, copy_str, decimal, str_eq, u64_to_decimal};

verus! {

/// How new members may join a room.
#[derive(Debug, Clone, Copy, PartialEq, Eq, Structural)]
pub enum MembershipPolicy {
    Open,
    Knock,
    Invite,
}

/// A member's role in a room.
#[derive(Debug, Clone, Copy, PartialEq, Eq, Structural)]
pub enum Role {
    Owner,
    Admin,
    Member,
}

/// The power level of a role.
pub open spec fn role_level(r: Role) -> u32 {
    match r {
        Role::Owner => 100,
        Role::Admin => 50,
        Role::Member => 0,
    }
}

impl Role {
    /// Owner 100, Admin 50, Member 0.
    pub fn power_level(&self) -> (l: u32)
        ensures
            l == role_level(*self),
    {
        match self {
            Role::Owner => 100,
            Role::Admin => 50,
            Role::Member => 0,
        }
    }
}

/// The membership section of a room's configuration.
#[derive(Debug, Clone)]
pub struct MembershipConfig {
    pub policy: MembershipPolicy,
    /// Each member's entity id with its role.
    pub members: Vec<(String, Role)>,
}

/// The power-level thresholds of a room.
#[derive(Debug, Clone)]
pub struct PowerLevelConfig {
    /// Power level of new members.
    pub default: u32,
    /// Power level needed to send events.
    pub events_default: u32,
    /// Power level needed for administration.
    pub admin: u32,
    /// Per-user power levels.
    pub users: Vec<(String, u32)>,
}

/// The timeline section of a room's configuration.
#[derive(Debug, Clone, Copy)]
pub struct TimelineConfig {
    /// The most refs per shard.
    pub shard_max_refs: u64,
}

/// A room's complete configuration.
#[derive(Debug)]
pub struct RoomConfig {
    pub room_id: String,
    pub name: String,
    pub created_by: String,
    /// ISO 8601 creation time.
    pub created_at: String,
    pub membership: MembershipConfig,
    pub power_levels: PowerLevelConfig,
    /// The relay domains the room replicates to.
    pub relays: Vec<String>,
    pub timeline: TimelineConfig,
    /// The extensions enabled in the room.
    pub enabled_extensions: Vec<String>,
    /// Extension fields (`ext.*`).
    pub extra: Vec<(String, JsonValue)>,
}

/// The room datatype: one CRDT map `room_config` per room, written by
/// signers of power level 50 or more; it depends on the identity datatype.
pub fn room_datatype() -> (d: DatatypeDeclaration)
    ensures
        is_builtin_declaration(d, "room"@, seq!["identity"@], "room_config"@, StorageType::CrdtMap,
            "ezagent/{room_id}/config/{state|updates}"@, WriterRule::SignerPowerLevel { min_level: 50 }),
{
    let mut deps: Vec<String> = Vec::new();
    deps.push(copy_str("identity"));
    let ghost dv = deps@.map_values(|s: String| s@);
    assert(dv =~= seq!["identity"@]);
    builtin_declaration("room", deps, "room_config", StorageType::CrdtMap,
        "ezagent/{room_id}/config/{state|updates}", WriterRule::SignerPowerLevel { min_level: 50 })
}

/// The role a role name (`Owner`, `Admin`, `Member`) stands for.
pub open spec fn role_named(s: Seq<char>) -> Option<Role> {
    if s == "Owner"@ {
        Some(Role::Owner)
    } else if s == "Admin"@ {
        Some(Role::Admin)
    } else if s == "Member"@ {
        Some(Role::Member)
    } else {
        None
    }
}

/// The role a JSON value names.
pub open spec fn value_role(v: JsonValue) -> Option<Role> {
    match v {
        JsonValue::Str(s) => role_named(s@),
        _ => None,
    }
}

/// The role the member object gives `id`: the last entry for `id` whose
/// value names a role.
pub open spec fn member_role(members: Seq<(String, JsonValue)>, id: Seq<char>) -> Option<Role>
    decreases members.len(),
{
    if members.len() == 0 {
        None
    } else {
        let e = members.last();
        let named = value_role(e.1);
        if e.0@ == id && named is Some {
            named
        } else {
            member_role(members.drop_last(), id)
        }
    }
}

/// The members listed in the context's `members` object (no members when
/// it is missing or not an object).
pub open spec fn context_members(data: Seq<(String, JsonValue)>) -> Seq<(String, JsonValue)> {
    match field(data, "members"@) {
        Some(JsonValue::Object(fields)) => fields@,
        _ => Seq::empty(),
    }
}

/// Some entry names a role.
pub open spec fn has_members(members: Seq<(String, JsonValue)>) -> bool {
    exists|id: Seq<char>| member_role(members, id) is Some
}

/// The role a JSON value names, if it is one of the role names.
fn role_of_value(v: &JsonValue) -> (r: Option<Role>)
    ensures
        r == value_role(*v),
{
    match v {
        JsonValue::Str(s) => {
            if str_eq(s, "Owner") {
                Some(Role::Owner)
            } else if str_eq(s, "Admin") {
                Some(Role::Admin)
            } else if str_eq(s, "Member") {
                Some(Role::Member)
            } else {
                None
            }
        },
        _ => None,
    }
}

/// The members listed in a context.
fn members_of(ctx: &HookContext) -> (r: Option<&Vec<(String, JsonValue)>>)
    ensures
        match r {
            Some(f) => f@ == context_members(ctx.data@),
            None => context_members(ctx.data@).len() == 0,
        },
{
    match get_field(&ctx.data, "members") {
        Some(JsonValue::Object(fields)) => Some(fields),
        _ => None,
    }
}

/// The role of `id` among the members.
fn role_in(members: &Vec<(String, JsonValue)>, id: &str) -> (r: Option<Role>)
    ensures
        r == member_role(members@, id@),
{
    let mut i: usize = members.len();
    assert(members@.take(members@.len() as int) == members@);
    while i > 0
        invariant
            i <= members@.len(),
            member_role(members@, id@) == member_role(members@.take(i as int), id@),
        decreases i,
    {
        let ghost t = members@.take(i as int);
        assert(t.drop_last() == members@.take(i - 1));
        assert(t.last() == members@[i - 1]);
        let named = role_of_value(&members[i - 1].1);
        if named.is_some() && str_eq(&members[i - 1].0, id) {
            return named;
        }
        i = i - 1;
    }
    assert(members@.take(0) =~= Seq::<(String, JsonValue)>::empty());
    None
}

/// Whether any entry names a role.
fn any_member(members: &Vec<(String, JsonValue)>) -> (r: bool)
    ensures
        r == has_members(members@),
{
    let mut i: usize = 0;
    while i < members.len()
        invariant
            i <= members@.len(),
            forall|k: int| 0 <= k < i ==> value_role(#[trigger] members@[k].1) is None,
        decreases members@.len() - i,
    {
        if role_of_value(&members[i].1).is_some() {
            proof { lemma_named_member(members@, i as int); }
            return true;
        }
        i = i + 1;
    }
    proof {
        assert forall|id: Seq<char>| member_role(members@, id) is None by {
            lemma_no_named_member(members@, id);
        }
    }
    false
}

/// An entry that names a role makes its key a member.
proof fn lemma_named_member(members: Seq<(String, JsonValue)>, k: int)
    requires
        0 <= k < members.len(),
        value_role(#[trigger] members[k].1) is Some,
    ensures
        has_members(members),
    decreases members.len(),
{
    let id = members[k].0@;
    if k == members.len() - 1 {
        assert(member_role(members, id) is Some);
    } else {
        assert(members.drop_last()[k] == members[k]);
        lemma_named_member(members.drop_last(), k);
        let w = choose|w: Seq<char>| member_role(members.drop_last(), w) is Some;
        assert(member_role(members, w) is Some);
    }
}

/// With no entry naming a role, nobody is a member.
proof fn lemma_no_named_member(members: Seq<(String, JsonValue)>, id: Seq<char>)
    requires
        forall|k: int| 0 <= k < members.len() ==> value_role(#[trigger] members[k].1) is None,
    ensures
        member_role(members, id) is None,
    decreases members.len(),
{
    if members.len() > 0 {
        assert(members.last() == members[members.len() - 1]);
        assert forall|k: int| 0 <= k < members.drop_last().len() implies value_role(#[trigger] members.drop_last()[k].1) is None by {
            assert(members.drop_last()[k] == members[k]);
        }
        lemma_no_named_member(members.drop_last(), id);
    }
}

/// The check that a write's signer is a member of the room.
pub struct CheckRoomWrite;

/// The declaration of a room hook.
fn room_hook(id: &str, phase: HookPhase, trigger_datatype: &str, priority: u32) -> (d: HookDeclaration)
    ensures
        d.id@ == id@,
        d.phase == phase,
        d.trigger_datatype@ == trigger_datatype@,
        d.trigger_event == TriggerEvent::Any,
        d.trigger_filter is None,
        d.priority == priority,
        d.source@ == "room"@,
{
    HookDeclaration {
        id: copy_str(id),
        phase,
        trigger_datatype: copy_str(trigger_datatype),
        trigger_event: TriggerEvent::Any,
        trigger_filter: None,
        priority,
        source: copy_str("room"),
    }
}

/// The `room.check_room_write` hook: before any write to any datatype
/// (priority 10), the signer must be a room member.
pub fn check_room_write_hook() -> (h: (HookDeclaration, CheckRoomWrite))
    ensures
        h.0.id@ == "room.check_room_write"@,
        h.0.phase == HookPhase::PreSend,
        h.0.trigger_datatype@ == "*"@,
        h.0.trigger_event == TriggerEvent::Any,
        h.0.trigger_filter is None,
        h.0.priority == 10,
        h.0.source@ == "room"@,
{
    (room_hook("room.check_room_write", HookPhase::PreSend, "*", 10), CheckRoomWrite)
}

/// The `room.check_config_permission` hook: before a write to the room
/// configuration (priority 20), the signer must be at least an admin.
pub fn check_config_permission_hook() -> (h: (HookDeclaration, CheckConfigPermission))
    ensures
        h.0.id@ == "room.check_config_permission"@,
        h.0.phase == HookPhase::PreSend,
        h.0.trigger_datatype@ == "room_config"@,
        h.0.trigger_event == TriggerEvent::Any,
        h.0.trigger_filter is None,
        h.0.priority == 20,
        h.0.source@ == "room"@,
{
    (room_hook("room.check_config_permission", HookPhase::PreSend, "room_config", 20), CheckConfigPermission)
}

impl HookHandler for CheckRoomWrite {
    /// Without a signer the write is refused. Without membership data the
    /// write passes when no room is named and is rejected (fail-closed)
    /// when one is; a signer that is not a member is rejected.
    open spec fn handles(&self, before: HookContext, after: HookContext, r: Result<(), EngineError>) -> bool {
        ({
            let members = context_members(before.data@);
            match before.signer_id {
                None => r matches Err(EngineError::PermissionDenied(m)) && m@ == "no signer_id in context"@
                    && after == before,
                Some(signer) => if !has_members(members) && before.room_id is None {
                    r is Ok && after == before
                } else if !has_members(members) {
                    &&& r matches Err(EngineError::NotAMember { entity_id, room_id })
                        && entity_id@ == signer@
                        && room_id@ == before.room_id.unwrap()@ + " \u{2014} no membership data available \u{2014} write denied (fail-closed)"@
                    &&& after.rejected
                    &&& after.rejection_reason matches Some(x) && x@ == "NOT_A_MEMBER"@
                } else if member_role(members, signer@) is None {
                    &&& r matches Err(EngineError::NotAMember { entity_id, room_id })
                        && entity_id@ == signer@
                        && room_id@ == (match before.room_id { Some(x) => x@, None => Seq::empty() })
                    &&& after.rejected
                    &&& after.rejection_reason matches Some(x) && x@ == "NOT_A_MEMBER"@
                } else {
                    r is Ok && after == before
                },
            }
        })
    }

    fn call(&self, ctx: &mut HookContext) -> (r: Result<(), EngineError>) {
        let signer = match &ctx.signer_id {
            Some(s) => copy_str(s),
            None => return Err(EngineError::PermissionDenied(copy_str("no signer_id in context"))),
        };
        let (present, is_member) = match members_of(ctx) {
            Some(m) => (any_member(m), role_in(m, &signer).is_some()),
            None => {
                proof {
                    assert forall|id: Seq<char>| member_role(context_members(ctx.data@), id) is None by {
                        lemma_no_named_member(context_members(ctx.data@), id);
                    }
                }
                (false, false)
            },
        };
        if !present {
            match &ctx.room_id {
                None => return Ok(()),
                Some(room) => {
                    let room_text = concat2(room, " \u{2014} no membership data available \u{2014} write denied (fail-closed)");
                    ctx.reject("NOT_A_MEMBER");
                    return Err(EngineError::NotAMember { entity_id: signer, room_id: room_text });
                },
            }
        }
        if !is_member {
            let room_text = match &ctx.room_id {
                Some(room) => copy_str(room),
                None => String::new(),
            };
            ctx.reject("NOT_A_MEMBER");
            return Err(EngineError::NotAMember { entity_id: signer, room_id: room_text });
        }
        Ok(())
    }
}

/// The check that a configuration write's signer is at least an admin.
pub struct CheckConfigPermission;

impl HookHandler for CheckConfigPermission {
    /// Without a signer the write is refused; a signer whose role (none
    /// counts as level 0) is below level 50 is rejected.
    open spec fn handles(&self, before: HookContext, after: HookContext, r: Result<(), EngineError>) -> bool {
        ({
            let members = context_members(before.data@);
            match before.signer_id {
                None => r matches Err(EngineError::PermissionDenied(m)) && m@ == "no signer_id in context"@
                    && after == before,
                Some(signer) => {
                    let level: u32 = match member_role(members, signer@) {
                        Some(role) => role_level(role),
                        None => 0,
                    };
                    if level < 50 {
                        &&& r matches Err(EngineError::PermissionDenied(m))
                            && m@ == "power_level "@ + decimal(level as nat) + " < 50 for "@ + signer@
                        &&& after.rejected
                        &&& after.rejection_reason matches Some(x) && x@ == "INSUFFICIENT_POWER_LEVEL"@
                    } else {
                        r is Ok && after == before
                    }
                },
            }
        })
    }

    fn call(&self, ctx: &mut HookContext) -> (r: Result<(), EngineError>) {
        let signer = match &ctx.signer_id {
            Some(s) => copy_str(s),
            None => return Err(EngineError::PermissionDenied(copy_str("no signer_id in context"))),
        };
        let level: u32 = match members_of(ctx) {
            Some(m) => match role_in(m, &signer) {
                Some(role) => role.power_level(),
                None => 0,
            },
            None => {
                proof { lemma_no_named_member(context_members(ctx.data@), signer@); }
                0
            },
        };
        if level < 50 {
            let mut m = concat2("power_level ", &u64_to_decimal(level as u64));
            m.append(" < 50 for ");
            m.append(&signer);
            ctx.reject("INSUFFICIENT_POWER_LEVEL");
            return Err(EngineError::PermissionDenied(m));
        }
        Ok(())
    }
}

/// Whether an item is not in `b`.
pub open spec fn absent_from(b: Seq<Seq<char>>) -> spec_fn(Seq<char>) -> bool {
    |x: Seq<char>| !b.contains(x)
}

/// The items of `a` that are not in `b`, in order.
pub open spec fn missing_from(a: Seq<Seq<char>>, b: Seq<Seq<char>>) -> Seq<Seq<char>> {
    a.filter(absent_from(b))
}

/// Whether `after` is `before` with the lists `added` and `removed`
/// recorded under `added_key` and `removed_key` as string arrays, or
/// `before` itself when both lists are empty.
pub open spec fn diff_recorded(before: HookContext, after: HookContext, added: Seq<Seq<char>>, removed: Seq<Seq<char>>,
    added_key: Seq<char>, removed_key: Seq<char>) -> bool {
    if added.len() == 0 && removed.len() == 0 {
        after == before
    } else {
        &&& field(after.data@, added_key) matches Some(v) && is_string_array(v, added)
        &&& field(after.data@, removed_key) matches Some(w) && is_string_array(w, removed)
        &&& forall|k: Seq<char>| k != added_key && k != removed_key
            ==> #[trigger] field(after.data@, k) == field(before.data@, k)
        &&& after == (HookContext { data: after.data, ..before })
    }
}

/// Whether `x` is among `v`.
fn has_str(v: &Vec<String>, x: &String) -> (r: bool)
    ensures
        r == views(v@).contains(x@),
{
    let mut i: usize = 0;
    while i < v.len()
        invariant
            i <= v@.len(),
            forall|k: int| 0 <= k < i ==> v@[k]@ != x@,
        decreases v@.len() - i,
    {
        if str_eq(&v[i], x) {
            assert(views(v@)[i as int] == x@);
            return true;
        }
        i = i + 1;
    }
    assert forall|k: int| 0 <= k < views(v@).len() implies views(v@)[k] != x@ by {
        assert(views(v@)[k] == v@[k]@);
    }
    false
}

/// The items of `a` that are not in `b`, in order.
fn missing(a: &Vec<String>, b: &Vec<String>) -> (r: Vec<String>)
    ensures
        views(r@) == missing_from(views(a@), views(b@)),
{
    let ghost bv = views(b@);
    let mut out: Vec<String> = Vec::new();
    let mut i: usize = 0;
    while i < a.len()
        invariant
            i <= a@.len(),
            bv == views(b@),
            views(out@) == missing_from(views(a@).take(i as int), bv),
        decreases a@.len() - i,
    {
        let ghost t = views(a@).take(i + 1);
        let ghost before = out@;
        assert(t.drop_last() =~= views(a@).take(i as int));
        assert(t.last() == a@[i as int]@);
        let present = has_str(b, &a[i]);
        proof { reveal(Seq::filter); }
        assert(t.filter(absent_from(bv)) == if absent_from(bv)(t.last()) {
            t.drop_last().filter(absent_from(bv)).push(t.last())
        } else {
            t.drop_last().filter(absent_from(bv))
        });
        if !present {
            out.push(copy_str(&a[i]));
            assert(views(out@) =~= views(before).push(a@[i as int]@));
        }
        i = i + 1;
    }
    assert(views(a@).take(a@.len() as int) =~= views(a@));
    out
}

/// Records the lists `added` and `removed` under the two keys when either
/// is non-empty.
fn record_diff(ctx: &mut HookContext, added: &Vec<String>, removed: &Vec<String>, added_key: &str, removed_key: &str)
    requires
        added_key@ != removed_key@,
    ensures
        diff_recorded(*old(ctx), *final(ctx), views(added@), views(removed@), added_key@, removed_key@),
{
    if added.len() > 0 || removed.len() > 0 {
        set_field(&mut ctx.data, added_key, string_array(added));
        set_field(&mut ctx.data, removed_key, string_array(removed));
    }
}

/// The `room.extension_loader` hook: after a write to the room
/// configuration, the extensions that were enabled or disabled are recorded.
pub struct ExtensionLoader;

/// The `room.member_change_notify` hook: after a write to the room
/// configuration, the members who joined or left are recorded.
pub struct MemberChangeNotify;

/// The `room.extension_loader` hook (after a room configuration write,
/// priority 10).
pub fn extension_loader_hook() -> (h: (HookDeclaration, ExtensionLoader))
    ensures
        h.0.id@ == "room.extension_loader"@,
        h.0.phase == HookPhase::AfterWrite,
        h.0.trigger_datatype@ == "room_config"@,
        h.0.trigger_event == TriggerEvent::Any,
        h.0.trigger_filter is None,
        h.0.priority == 10,
        h.0.source@ == "room"@,
{
    (room_hook("room.extension_loader", HookPhase::AfterWrite, "room_config", 10), ExtensionLoader)
}

/// The `room.member_change_notify` hook (after a room configuration write,
/// priority 50).
pub fn member_change_notify_hook() -> (h: (HookDeclaration, MemberChangeNotify))
    ensures
        h.0.id@ == "room.member_change_notify"@,
        h.0.phase == HookPhase::AfterWrite,
        h.0.trigger_datatype@ == "room_config"@,
        h.0.trigger_event == TriggerEvent::Any,
        h.0.trigger_filter is None,
        h.0.priority == 50,
        h.0.source@ == "room"@,
{
    (room_hook("room.member_change_notify", HookPhase::AfterWrite, "room_config", 50), MemberChangeNotify)
}

impl HookHandler for ExtensionLoader {
    /// Compares the string lists `old_enabled_extensions` and
    /// `enabled_extensions` (a missing or non-array field counts as empty)
    /// and records what was added and removed under `extensions_added` and
    /// `extensions_removed`; nothing changes when the lists agree.
    open spec fn handles(&self, before: HookContext, after: HookContext, r: Result<(), EngineError>) -> bool {
        &&& r is Ok
        &&& ({
            let was = json_strings(field(before.data@, "old_enabled_extensions"@));
            let now = json_strings(field(before.data@, "enabled_extensions"@));
            diff_recorded(before, after, missing_from(now, was), missing_from(was, now),
                "extensions_added"@, "extensions_removed"@)
        })
    }

    fn call(&self, ctx: &mut HookContext) -> (r: Result<(), EngineError>) {
        let old_exts = strings_in(get_field(&ctx.data, "old_enabled_extensions"));
        let new_exts = strings_in(get_field(&ctx.data, "enabled_extensions"));
        let added = missing(&new_exts, &old_exts);
        let removed = missing(&old_exts, &new_exts);
        proof {
            reveal_strlit("extensions_added");
            reveal_strlit("extensions_removed");
            assert("extensions_added"@.len() != "extensions_removed"@.len());
        }
        record_diff(ctx, &added, &removed, "extensions_added", "extensions_removed");
        Ok(())
    }
}

impl HookHandler for MemberChangeNotify {
    /// Compares the keys of the objects `old_members` and `members` (a
    /// missing or non-object field counts as empty) and records who joined
    /// and who left under `members_added` and `members_removed`; nothing
    /// changes when the member sets agree.
    open spec fn handles(&self, before: HookContext, after: HookContext, r: Result<(), EngineError>) -> bool {
        &&& r is Ok
        &&& ({
            let was = object_keys(field(before.data@, "old_members"@));
            let now = object_keys(field(before.data@, "members"@));
            diff_recorded(before, after, missing_from(now, was), missing_from(was, now),
                "members_added"@, "members_removed"@)
        })
    }

    fn call(&self, ctx: &mut HookContext) -> (r: Result<(), EngineError>) {
        let old_members = keys_in(get_field(&ctx.data, "old_members"));
        let new_members = keys_in(get_field(&ctx.data, "members"));
        let added = missing(&new_members, &old_members);
        let removed = missing(&old_members, &new_members);
        proof {
            reveal_strlit("members_added");
            reveal_strlit("members_removed");
            assert("members_added"@.len() != "members_removed"@.len());
        }
        record_diff(ctx, &added, &removed, "members_added", "members_removed");
        Ok(())
    }
}

/// What a recorded difference lists: exactly the items of `a` that `b`
/// lacks, each taken from `a`.
pub proof fn lemma_missing_from(a: Seq<Seq<char>>, b: Seq<Seq<char>>)
    ensures
        forall|x: Seq<char>| #[trigger] missing_from(a, b).contains(x) <==> a.contains(x) && !b.contains(x),
        missing_from(a, b).len() <= a.len(),
        (forall|x: Seq<char>| a.contains(x) ==> b.contains(x)) ==> missing_from(a, b).len() == 0,
{
    assert forall|x: Seq<char>| #[trigger] missing_from(a, b).contains(x) <==> a.contains(x) && !b.contains(x) by {
        if missing_from(a, b).contains(x) {
            let i = choose|i: int| 0 <= i < missing_from(a, b).len() && missing_from(a, b)[i] == x;
            a.lemma_filter_pred(absent_from(b), i);
            a.lemma_filter_contains_rev(absent_from(b), x);
        }
        if a.contains(x) && !b.contains(x) {
            let i = choose|i: int| 0 <= i < a.len() && a[i] == x;
            assert(absent_from(b)(a[i]));
            a.lemma_filter_contains(absent_from(b), i);
        }
    }
    a.lemma_filter_len(absent_from(b));
    if forall|x: Seq<char>| a.contains(x) ==> b.contains(x) {
        if missing_from(a, b).len() > 0 {
            let x = missing_from(a, b)[0];
            assert(missing_from(a, b).contains(x));
        }
    }
}

} // verus!
