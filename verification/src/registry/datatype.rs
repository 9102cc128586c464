//! The declarations that make up a datatype: storage types, sync modes,
//! writer rules, data entries, indexes and the datatype itself.
use vstd::prelude::*;
use crate::hooks::phase::HookDeclaration;
use crate::text::copy_str;

verus! {

/// How a data entry is stored.
#[derive(Debug, Clone, Copy, PartialEq, Eq, Structural)]
pub enum StorageType {
    /// Last-writer-wins map.
    CrdtMap,
    /// Ordered array.
    CrdtArray,
    /// Collaborative text.
    CrdtText,
    /// Immutable hash-addressed binary.
    Blob,
    /// Memory only.
    Ephemeral,
}

/// How updates are propagated to peers.
#[derive(Debug, Clone, Copy, PartialEq, Eq, Structural)]
pub enum SyncMode {
    /// Publish every update at once.
    Eager,
    /// Publish updates in batches after `batch_ms` milliseconds.
    Batched { batch_ms: u64 },
    /// Sync only on an explicit pull.
    Lazy,
}

impl Default for SyncMode {
    /// Updates are published at once.
    fn default() -> (m: SyncMode)
        ensures
            m == SyncMode::Eager,
    {
        SyncMode::Eager
    }
}

/// Who may write an entry; rules compose with `And` and `Or`.
#[derive(Debug, PartialEq, Eq)]
pub enum WriterRule {
    SignerIsEntity,
    SignerInMembers,
    SignerPowerLevel { min_level: u32 },
    SignerIsAuthor,
    SignerInAclEditors,
    AnnotationKeyContainsSigner,
    OneTimeWrite,
    And(Box<WriterRule>, Box<WriterRule>),
    Or(Box<WriterRule>, Box<WriterRule>),
}

/// A document key template such as `rooms/{room_id}/config`.
#[derive(Debug, Clone)]
pub struct KeyPattern {
    pub template: String,
}

impl KeyPattern {
    /// A pattern with the given template.
    pub fn new(template: String) -> (k: KeyPattern)
        ensures
            k.template == template,
    {
        KeyPattern { template }
    }

    /// The template text.
    pub fn template(&self) -> (t: &str)
        ensures
            t@ == self.template@,
    {
        self.template.as_str()
    }
}

/// One data entry of a datatype.
#[derive(Debug)]
pub struct DataEntry {
    pub id: String,
    pub storage_type: StorageType,
    pub key_pattern: KeyPattern,
    pub persistent: bool,
    pub writer_rule: WriterRule,
    pub sync_strategy: SyncMode,
}

/// When an index is recomputed.
#[derive(Debug, Clone, Copy, PartialEq, Eq, Structural)]
pub enum RefreshStrategy {
    OnChange,
    OnDemand,
    Periodic { interval_secs: u64 },
}

/// A derived, queryable view over a data entry.
#[derive(Debug, Clone)]
pub struct IndexDeclaration {
    pub id: String,
    /// The data entry that feeds the index.
    pub input: String,
    pub transform: String,
    pub refresh: RefreshStrategy,
    /// The operation that triggers a refresh, if any.
    pub operation_id: Option<String>,
}

/// A complete datatype declaration.
#[derive(Debug)]
pub struct DatatypeDeclaration {
    pub id: String,
    pub version: String,
    /// Ids of the datatypes this one depends on.
    pub dependencies: Vec<String>,
    pub data_entries: Vec<DataEntry>,
    pub indexes: Vec<IndexDeclaration>,
    pub hooks: Vec<HookDeclaration>,
    pub is_builtin: bool,
}

/// Whether `d` is a built-in datatype `id`, version 0.1.0, depending on
/// `deps`, with one persistent, eagerly synced data entry (`entry_id`,
/// `storage`, `pattern`, `rule`) and no indexes or hooks.
pub open spec fn is_builtin_declaration(d: DatatypeDeclaration, id: Seq<char>, deps: Seq<Seq<char>>,
    entry_id: Seq<char>, storage: StorageType, pattern: Seq<char>, rule: WriterRule) -> bool {
    &&& d.id@ == id
    &&& d.version@ == "0.1.0"@
    &&& d.dependencies@.map_values(|s: String| s@) == deps
    &&& d.data_entries@.len() == 1
    &&& d.data_entries@[0].id@ == entry_id
    &&& d.data_entries@[0].storage_type == storage
    &&& d.data_entries@[0].key_pattern.template@ == pattern
    &&& d.data_entries@[0].persistent
    &&& d.data_entries@[0].writer_rule == rule
    &&& d.data_entries@[0].sync_strategy == SyncMode::Eager
    &&& d.indexes@.len() == 0
    &&& d.hooks@.len() == 0
    &&& d.is_builtin
}

/// The declaration of a built-in datatype with one persistent, eagerly
/// synced data entry and no indexes or hooks.
pub fn builtin_declaration(id: &str, dependencies: Vec<String>, entry_id: &str, storage: StorageType,
    pattern: &str, rule: WriterRule) -> (d: DatatypeDeclaration)
    ensures
        is_builtin_declaration(d, id@, dependencies@.map_values(|s: String| s@), entry_id@, storage, pattern@, rule),
{
    let entry = DataEntry {
        id: copy_str(entry_id),
        storage_type: storage,
        key_pattern: KeyPattern::new(copy_str(pattern)),
        persistent: true,
        writer_rule: rule,
        sync_strategy: SyncMode::Eager,
    };
    let mut data_entries: Vec<DataEntry> = Vec::new();
    data_entries.push(entry);
    DatatypeDeclaration {
        id: copy_str(id),
        version: copy_str("0.1.0"),
        dependencies,
        data_entries,
        indexes: Vec::new(),
        hooks: Vec::new(),
        is_builtin: true,
    }
}

} // verus!
