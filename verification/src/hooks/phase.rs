//! Hook phases, trigger events, declarations and the mutable hook context.
use vstd::prelude::*;
use crate::json::JsonValue;

verus! {

/// The three lifecycle phases of the hook pipeline.
#[derive(Debug, Clone, Copy, PartialEq, Eq, Structural, Hash)]
pub enum HookPhase {
    /// Before the write; may modify data or reject the write.
    PreSend,
    /// After the write was applied; failures are reported and skipped.
    AfterWrite,
    /// After a read; failures are ignored.
    AfterRead,
}

/// The kind of event that fires a hook.
#[derive(Debug, Clone, Copy, PartialEq, Eq, Structural, Hash)]
pub enum TriggerEvent {
    Insert,
    Update,
    Delete,
    /// Any of the three.
    Any,
}

/// Whether trigger `a` fires on event `b`.
pub open spec fn trigger_matches(a: TriggerEvent, b: TriggerEvent) -> bool {
    a == TriggerEvent::Any || b == TriggerEvent::Any || a == b
}

impl TriggerEvent {
    /// `Any` matches every event, on either side; a concrete event matches itself.
    pub fn matches(&self, other: &TriggerEvent) -> (r: bool)
        ensures
            r == trigger_matches(*self, *other),
    {
        match (self, other) {
            (TriggerEvent::Any, _) => true,
            (_, TriggerEvent::Any) => true,
            (TriggerEvent::Insert, TriggerEvent::Insert) => true,
            (TriggerEvent::Update, TriggerEvent::Update) => true,
            (TriggerEvent::Delete, TriggerEvent::Delete) => true,
            _ => false,
        }
    }
}

/// When and how a hook fires.
#[derive(Debug, Clone)]
pub struct HookDeclaration {
    /// Globally unique hook id (such as `identity.sign_envelope`).
    pub id: String,
    pub phase: HookPhase,
    /// The datatype the hook fires on; `"*"` means every datatype.
    pub trigger_datatype: String,
    pub trigger_event: TriggerEvent,
    /// An optional extra trigger condition.
    pub trigger_filter: Option<String>,
    /// 0 runs first; ascending.
    pub priority: u32,
    /// The datatype that registered the hook.
    pub source: String,
}

/// The mutable context handed to each hook.
#[derive(Debug)]
pub struct HookContext {
    pub datatype_id: String,
    pub event: TriggerEvent,
    /// Key-value data of the event; hooks may read and change it.
    pub data: Vec<(String, JsonValue)>,
    pub signer_id: Option<String>,
    pub room_id: Option<String>,
    pub read_only: bool,
    pub rejected: bool,
    pub rejection_reason: Option<String>,
    /// The hooks that ran, in order, as recorded by the hooks themselves.
    pub executed_hooks: Vec<String>,
}

impl HookContext {
    /// A fresh context: no data, no signer, no room, writable, not rejected.
    pub fn new(datatype_id: String, event: TriggerEvent) -> (c: HookContext)
        ensures
            c.datatype_id == datatype_id,
            c.event == event,
            c.data@.len() == 0,
            c.signer_id is None,
            c.room_id is None,
            !c.read_only,
            !c.rejected,
            c.rejection_reason is None,
            c.executed_hooks@.len() == 0,
    {
        HookContext {
            datatype_id,
            event,
            data: Vec::new(),
            signer_id: None,
            room_id: None,
            read_only: false,
            rejected: false,
            rejection_reason: None,
            executed_hooks: Vec::new(),
        }
    }

    /// Marks the operation as rejected, with `reason`.
    pub fn reject(&mut self, reason: &str)
        ensures
            final(self).rejected,
            final(self).rejection_reason matches Some(r) && r@ == reason@,
            final(self).datatype_id == old(self).datatype_id,
            final(self).event == old(self).event,
            final(self).data == old(self).data,
            final(self).signer_id == old(self).signer_id,
            final(self).room_id == old(self).room_id,
            final(self).read_only == old(self).read_only,
            final(self).executed_hooks == old(self).executed_hooks,
    {
        self.rejected = true;
        self.rejection_reason = Some(reason.to_owned());
    }
}

/// Whether `after` is `before` marked rejected with `reason`.
pub open spec fn rejected_as(before: HookContext, after: HookContext, reason: Seq<char>) -> bool {
    &&& after.rejected
    &&& after.rejection_reason matches Some(r) && r@ == reason
    &&& after == (HookContext { rejected: after.rejected, rejection_reason: after.rejection_reason, ..before })
}

} // verus!
