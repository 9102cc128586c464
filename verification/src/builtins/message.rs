//! The message datatype: immutable, content-addressed message content.
use vstd::prelude::*;
use sha2::Digest;
use crate::error::EngineError;
use crate::hooks::executor::HookHandler;
use crate::hooks::phase::{rejected_as, HookContext, HookDeclaration, HookPhase, TriggerEvent};
use crate::json::{copy_json, field, get_field, json_model, json_strings, set_field, string_field, string_field_or, strings_in, str_or, views, JsonValue};
use crate::json_text::{json_text, push_json, push_quoted, quoted};
use crate::text::{concat2, concat3, copy_str, push_char, str_eq};
use crate::registry::datatype::{builtin_declaration, is_builtin_declaration, DatatypeDeclaration, StorageType, WriterRule};

verus! {

/// The message datatype: immutable content blobs addressed by their hash,
/// written once; it depends on the identity, room and timeline datatypes.
pub fn message_datatype() -> (d: DatatypeDeclaration)
    ensures
        is_builtin_declaration(d, "message"@, seq!["identity"@, "room"@, "timeline"@], "immutable_content"@,
            StorageType::Blob, "ezagent/{room_id}/content/{sha256_hash}"@, WriterRule::OneTimeWrite),
{
    let mut deps: Vec<String> = Vec::new();
    deps.push(copy_str("identity"));
    deps.push(copy_str("room"));
    deps.push(copy_str("timeline"));
    let ghost dv = deps@.map_values(|s: String| s@);
    assert(dv =~= seq!["identity"@, "room"@, "timeline"@]);
    builtin_declaration("message", deps, "immutable_content", StorageType::Blob,
        "ezagent/{room_id}/content/{sha256_hash}", WriterRule::OneTimeWrite)
}

/// Immutable message content; `content_id` is the SHA-256 of its
/// canonical JSON form.
#[derive(Debug)]
pub struct MessageContent {
    /// Lowercase hex SHA-256 of the canonical content.
    pub content_id: String,
    /// `immutable`.
    pub content_type: String,
    pub author: String,
    pub body: JsonValue,
    /// `text/plain`, `text/markdown` or `application/json`.
    pub format: String,
    pub media_refs: Vec<String>,
    /// ISO 8601 creation time.
    pub created_at: String,
    pub signature: Option<String>,
}

/// The lowercase hex digit for `d` (0 to 15).
pub open spec fn hex_digit(d: nat) -> char {
    if d < 10 { crate::text::digit_char(d) } else if d == 10 { 'a' } else if d == 11 { 'b' } else if d == 12 { 'c' }
    else if d == 13 { 'd' } else if d == 14 { 'e' } else { 'f' }
}

/// Two lowercase hex digits per byte, in order.
pub open spec fn hex_of(bytes: Seq<u8>) -> Seq<char>
    decreases bytes.len(),
{
    if bytes.len() == 0 {
        Seq::empty()
    } else {
        hex_of(bytes.drop_last()) + seq![hex_digit(bytes.last() as nat / 16), hex_digit(bytes.last() as nat % 16)]
    }
}

/// The hex digit character for `d`.
pub(crate) fn hex_digit_char(d: u8) -> (c: char)
    requires
        d < 16,
    ensures
        c == hex_digit(d as nat),
{
    if d < 10 {
        crate::text::digit_to_char(d as u64)
    } else if d == 10 { 'a' } else if d == 11 { 'b' } else if d == 12 { 'c' }
    else if d == 13 { 'd' } else if d == 14 { 'e' } else { 'f' }
}

/// Lowercase hex encoding: two digits per byte.
pub fn hex_encode(bytes: &[u8]) -> (s: String)
    ensures
        s@ == hex_of(bytes@),
{
    let mut s = String::new();
    let mut i: usize = 0;
    while i < bytes.len()
        invariant
            i <= bytes@.len(),
            s@ == hex_of(bytes@.take(i as int)),
        decreases bytes@.len() - i,
    {
        let b = bytes[i];
        assert(bytes@.take(i + 1).drop_last() == bytes@.take(i as int));
        assert(bytes@.take(i + 1).last() == b);
        push_char(&mut s, hex_digit_char(b / 16));
        push_char(&mut s, hex_digit_char(b % 16));
        i = i + 1;
    }
    assert(bytes@.take(bytes@.len() as int) == bytes@);
    s
}

/// The SHA-256 digest of `data`.
pub uninterp spec fn sha256_digest(data: Seq<u8>) -> Seq<u8>;

/// `sha2::Sha256::digest`: the 32-byte SHA-256 digest of `data`.
#[verifier::external_body]
fn sha256(data: &[u8]) -> (d: Vec<u8>)
    ensures
        d@ == sha256_digest(data@),
        d@.len() == 32,
{
    sha2::Sha256::digest(data).to_vec()
}

/// The content id of content whose canonical JSON form is `canonical`:
/// the lowercase hex of its SHA-256 digest (64 characters).
pub fn content_hash(canonical: &[u8]) -> (id: String)
    ensures
        id@ == hex_of(sha256_digest(canonical@)),
        id@.len() == 64,
{
    let d = sha256(canonical);
    let s = hex_encode(d.as_slice());
    proof { lemma_hex_len(d@); }
    s
}

/// Hex doubles the length.
proof fn lemma_hex_len(bytes: Seq<u8>)
    ensures
        hex_of(bytes).len() == 2 * bytes.len(),
    decreases bytes.len(),
{
    if bytes.len() > 0 {
        lemma_hex_len(bytes.drop_last());
    }
}

/// The strings `ss` as a JSON array.
pub open spec fn strings_text(ss: Seq<Seq<char>>) -> Seq<char> {
    seq!['['] + quoted_list(ss) + seq![']']
}

/// The strings `ss` as JSON strings, separated by commas.
pub open spec fn quoted_list(ss: Seq<Seq<char>>) -> Seq<char>
    decreases ss.len(),
{
    if ss.len() == 0 {
        Seq::empty()
    } else if ss.len() == 1 {
        quoted(ss[0])
    } else {
        quoted_list(ss.drop_last()) + seq![','] + quoted(ss.last())
    }
}

/// The canonical JSON form of message content: the object of its fields
/// `author`, `body`, `content_type`, `created_at`, `format` and
/// `media_refs`, keys in that (sorted) order, without whitespace.
pub open spec fn canonical_text(
    author: Seq<char>,
    body: JsonValue,
    content_type: Seq<char>,
    created_at: Seq<char>,
    format: Seq<char>,
    media_refs: Seq<Seq<char>>,
) -> Seq<char> {
    "{\"author\":"@ + quoted(author) + ",\"body\":"@ + json_text(body) + ",\"content_type\":"@
        + quoted(content_type) + ",\"created_at\":"@ + quoted(created_at) + ",\"format\":"@ + quoted(format)
        + ",\"media_refs\":"@ + strings_text(media_refs) + "}"@
}

/// The content id of content with these fields: the lowercase hex SHA-256
/// of the UTF-8 bytes of its canonical form.
pub open spec fn content_id_for(
    author: Seq<char>,
    body: JsonValue,
    content_type: Seq<char>,
    created_at: Seq<char>,
    format: Seq<char>,
    media_refs: Seq<Seq<char>>,
) -> Seq<char> {
    hex_of(sha256_digest(vstd::utf8::encode_utf8(canonical_text(author, body, content_type, created_at, format, media_refs))))
}

/// The canonical JSON form of content with these fields.
pub fn canonical_json(
    author: &str,
    body: &JsonValue,
    content_type: &str,
    created_at: &str,
    format: &str,
    media_refs: &Vec<String>,
) -> (s: String)
    ensures
        s@ == canonical_text(author@, *body, content_type@, created_at@, format@, views(media_refs@)),
{
    let mut s = String::new();
    s.append("{\"author\":");
    push_quoted(&mut s, author);
    s.append(",\"body\":");
    push_json(&mut s, body);
    s.append(",\"content_type\":");
    push_quoted(&mut s, content_type);
    s.append(",\"created_at\":");
    push_quoted(&mut s, created_at);
    s.append(",\"format\":");
    push_quoted(&mut s, format);
    s.append(",\"media_refs\":");
    let ghost before_refs = s@;
    let ghost ss = views(media_refs@);
    push_char(&mut s, '[');
    let mut i: usize = 0;
    while i < media_refs.len()
        invariant
            ss == views(media_refs@),
            i <= media_refs@.len(),
            s@ == before_refs + seq!['['] + quoted_list(ss.take(i as int)),
        decreases media_refs@.len() - i,
    {
        let ghost mid = s@;
        if i > 0 {
            push_char(&mut s, ',');
        }
        push_quoted(&mut s, media_refs[i].as_str());
        proof {
            let t = ss.take(i as int + 1);
            assert(t.drop_last() =~= ss.take(i as int));
            assert(t.last() == media_refs@[i as int]@);
            if i == 0 {
                assert(t.len() == 1);
                assert(ss.take(0) =~= Seq::<Seq<char>>::empty());
            }
            assert(s@ =~= before_refs + seq!['['] + quoted_list(t));
        }
        i = i + 1;
    }
    proof { assert(ss.take(ss.len() as int) =~= ss); }
    push_char(&mut s, ']');
    s.append("}");
    s
}

/// The content id of content with these fields (see `content_id_for`).
pub fn content_id_of(
    author: &str,
    body: &JsonValue,
    content_type: &str,
    created_at: &str,
    format: &str,
    media_refs: &Vec<String>,
) -> (id: String)
    ensures
        id@ == content_id_for(author@, *body, content_type@, created_at@, format@, views(media_refs@)),
        id@.len() == 64,
{
    let text = canonical_json(author, body, content_type, created_at, format, media_refs);
    let bytes = text.as_str().as_bytes();
    content_hash(bytes)
}

impl MessageContent {
    /// The content id this content should have: the SHA-256 of its
    /// canonical form (its id and signature are not part of it).
    pub open spec fn expected_id(&self) -> Seq<char> {
        content_id_for(self.author@, self.body, self.content_type@, self.created_at@, self.format@, views(self.media_refs@))
    }

    /// Computes the content id: the lowercase hex SHA-256 of the canonical
    /// form of the content fields.
    pub fn compute_hash(&self) -> (id: String)
        ensures
            id@ == self.expected_id(),
            id@.len() == 64,
    {
        content_id_of(&self.author, &self.body, &self.content_type, &self.created_at, &self.format, &self.media_refs)
    }
}

/// A content id is determined by the content fields alone: contents that
/// agree on author, body, type, creation time, format and media refs have
/// the same id, whatever their ids and signatures.
pub proof fn lemma_content_id_determined(a: MessageContent, b: MessageContent)
    requires
        a.author@ == b.author@,
        a.body == b.body,
        a.content_type@ == b.content_type@,
        a.created_at@ == b.created_at@,
        a.format@ == b.format@,
        views(a.media_refs@) == views(b.media_refs@),
    ensures
        a.expected_id() == b.expected_id(),
{
}

/// The body of a context's data: its `body` field, `null` without one.
pub open spec fn body_or_null(data: Seq<(String, JsonValue)>) -> JsonValue {
    match field(data, "body"@) {
        Some(b) => b,
        None => JsonValue::Null,
    }
}

/// The content id of the content described by a context's data: the
/// `author`, `created_at` (empty when missing), `content_type`
/// (`immutable`), `format` (`text/plain`) strings, the `body` (`null`) and
/// the strings of the `media_refs` array.
pub open spec fn context_content_id(data: Seq<(String, JsonValue)>) -> Seq<char> {
    content_id_for(
        str_or(field(data, "author"@), ""@),
        body_or_null(data),
        str_or(field(data, "content_type"@), "immutable"@),
        str_or(field(data, "created_at"@), ""@),
        str_or(field(data, "format"@), "text/plain"@),
        json_strings(field(data, "media_refs"@)),
    )
}

/// The step that computes new content's id from the context.
pub struct ComputeContentHash;

/// The `message.compute_content_hash` hook: before immutable content is
/// inserted (priority 20), its content id is computed and stored in the
/// context's `content_id`.
pub fn compute_content_hash_hook() -> (h: (HookDeclaration, ComputeContentHash))
    ensures
        h.0.id@ == "message.compute_content_hash"@,
        h.0.phase == HookPhase::PreSend,
        h.0.trigger_datatype@ == "immutable_content"@,
        h.0.trigger_event == TriggerEvent::Insert,
        h.0.trigger_filter is None,
        h.0.priority == 20,
        h.0.source@ == "message"@,
{
    let decl = HookDeclaration {
        id: copy_str("message.compute_content_hash"),
        phase: HookPhase::PreSend,
        trigger_datatype: copy_str("immutable_content"),
        trigger_event: TriggerEvent::Insert,
        trigger_filter: None,
        priority: 20,
        source: copy_str("message"),
    };
    (decl, ComputeContentHash)
}

impl HookHandler for ComputeContentHash {
    /// Stores the content id of the content the context describes (see
    /// `context_content_id`) under `content_id`; nothing else changes.
    open spec fn handles(&self, before: HookContext, after: HookContext, r: Result<(), EngineError>) -> bool {
        &&& r is Ok
        &&& after == (HookContext { data: after.data, ..before })
        &&& field(after.data@, "content_id"@) matches Some(JsonValue::Str(id)) && id@ == context_content_id(before.data@)
        &&& forall|k: Seq<char>| k != "content_id"@ ==> #[trigger] field(after.data@, k) == field(before.data@, k)
    }

    fn call(&self, ctx: &mut HookContext) -> (r: Result<(), EngineError>) {
        let author = string_field_or(&ctx.data, "author", "");
        let content_type = string_field_or(&ctx.data, "content_type", "immutable");
        let created_at = string_field_or(&ctx.data, "created_at", "");
        let format = string_field_or(&ctx.data, "format", "text/plain");
        let media_refs = strings_in(get_field(&ctx.data, "media_refs"));
        let null = JsonValue::Null;
        let id = match get_field(&ctx.data, "body") {
            Some(b) => content_id_of(&author, b, &content_type, &created_at, &format, &media_refs),
            None => content_id_of(&author, &null, &content_type, &created_at, &format, &media_refs),
        };
        let ghost old_ctx = *ctx;
        set_field(&mut ctx.data, "content_id", JsonValue::Str(id));
        assert(*ctx == (HookContext { data: ctx.data, ..old_ctx }));
        Ok(())
    }
}

/// The entry for content id `id` in the context's `content_store` object.
pub open spec fn stored_content(data: Seq<(String, JsonValue)>, id: Seq<char>) -> Option<JsonValue> {
    match field(data, "content_store"@) {
        Some(JsonValue::Object(fs)) => field(fs@, id),
        _ => None,
    }
}

/// The step that attaches the stored content a timeline ref names.
pub struct ResolveContent;

/// The `message.resolve_content` hook: after any read of the timeline index
/// (priority 40), the content the ref names is copied from the context's
/// `content_store` into `resolved_content`.
pub fn resolve_content_hook() -> (h: (HookDeclaration, ResolveContent))
    ensures
        h.0.id@ == "message.resolve_content"@,
        h.0.phase == HookPhase::AfterRead,
        h.0.trigger_datatype@ == "timeline_index"@,
        h.0.trigger_event == TriggerEvent::Any,
        h.0.trigger_filter is None,
        h.0.priority == 40,
        h.0.source@ == "message"@,
{
    let decl = HookDeclaration {
        id: copy_str("message.resolve_content"),
        phase: HookPhase::AfterRead,
        trigger_datatype: copy_str("timeline_index"),
        trigger_event: TriggerEvent::Any,
        trigger_filter: None,
        priority: 40,
        source: copy_str("message"),
    };
    (decl, ResolveContent)
}

impl HookHandler for ResolveContent {
    /// With a non-empty `content_id` whose entry the `content_store` holds,
    /// a copy of that entry is stored under `resolved_content`; otherwise
    /// nothing changes. It never fails.
    open spec fn handles(&self, before: HookContext, after: HookContext, r: Result<(), EngineError>) -> bool {
        let id = str_or(field(before.data@, "content_id"@), ""@);
        &&& r is Ok
        &&& match stored_content(before.data@, id) {
            Some(c) if id.len() > 0 => {
                &&& after == (HookContext { data: after.data, ..before })
                &&& field(after.data@, "resolved_content"@) matches Some(v) && json_model(v) == json_model(c)
                &&& forall|k: Seq<char>| k != "resolved_content"@ ==> #[trigger] field(after.data@, k) == field(before.data@, k)
            },
            _ => after == before,
        }
    }

    fn call(&self, ctx: &mut HookContext) -> (r: Result<(), EngineError>) {
        let content_id = string_field_or(&ctx.data, "content_id", "");
        if content_id.as_str().is_empty() {
            return Ok(());
        }
        let resolved = match get_field(&ctx.data, "content_store") {
            Some(JsonValue::Object(fs)) => match get_field(fs, content_id.as_str()) {
                Some(v) => Some(copy_json(v)),
                None => None,
            },
            _ => None,
        };
        if let Some(c) = resolved {
            let ghost old_ctx = *ctx;
            set_field(&mut ctx.data, "resolved_content", c);
            assert(*ctx == (HookContext { data: ctx.data, ..old_ctx }));
        }
        Ok(())
    }
}

/// The text of a string value, or the empty text for anything else.
pub open spec fn str_or_empty(v: Option<JsonValue>) -> Seq<char> {
    match v {
        Some(JsonValue::Str(s)) => s@,
        _ => Seq::empty(),
    }
}

/// The entry for `id` in the context's `content_store` object.
pub open spec fn store_entry(data: Seq<(String, JsonValue)>, id: Seq<char>) -> Option<JsonValue> {
    match field(data, "content_store"@) {
        Some(JsonValue::Object(fs)) => field(fs@, id),
        _ => None,
    }
}

/// The author recorded in a content store entry (empty when none).
pub open spec fn entry_author(e: JsonValue) -> Seq<char> {
    match e {
        JsonValue::Object(fs) => str_or_empty(field(fs@, "author"@)),
        _ => Seq::empty(),
    }
}

/// The check that a timeline ref names stored content by its own signer.
pub struct ValidateContentRef;

/// The `message.validate_content_ref` hook: before a ref is inserted into
/// the timeline index (priority 25), its content must be stored and be
/// authored by the ref's signer.
pub fn validate_content_ref_hook() -> (h: (HookDeclaration, ValidateContentRef))
    ensures
        h.0.id@ == "message.validate_content_ref"@,
        h.0.phase == HookPhase::PreSend,
        h.0.trigger_datatype@ == "timeline_index"@,
        h.0.trigger_event == TriggerEvent::Insert,
        h.0.trigger_filter is None,
        h.0.priority == 25,
        h.0.source@ == "message"@,
{
    let decl = HookDeclaration {
        id: copy_str("message.validate_content_ref"),
        phase: HookPhase::PreSend,
        trigger_datatype: copy_str("timeline_index"),
        trigger_event: TriggerEvent::Insert,
        trigger_filter: None,
        priority: 25,
        source: copy_str("message"),
    };
    (decl, ValidateContentRef)
}

/// The content store entry for `id`.
fn find_entry<'a>(data: &'a Vec<(String, JsonValue)>, id: &str) -> (r: Option<&'a JsonValue>)
    ensures
        match store_entry(data@, id@) {
            Some(e) => r == Some(&e),
            None => r is None,
        },
{
    match get_field(data, "content_store") {
        Some(JsonValue::Object(fs)) => get_field(fs, id),
        _ => None,
    }
}

/// The author of a content store entry.
fn author_of(e: &JsonValue) -> (r: String)
    ensures
        r@ == entry_author(*e),
{
    match e {
        JsonValue::Object(fs) => match string_field(fs, "author") {
            Some(a) => copy_str(a),
            None => String::new(),
        },
        _ => String::new(),
    }
}

impl HookHandler for ValidateContentRef {
    /// A ref without a `content_id` (or with an empty one) passes. Content
    /// missing from `content_store` is rejected as `CONTENT_NOT_FOUND`;
    /// content whose author is not the signer (no signer counts as the
    /// empty id) is rejected as `AUTHOR_MISMATCH`.
    open spec fn handles(&self, before: HookContext, after: HookContext, r: Result<(), EngineError>) -> bool {
        ({
            let id = str_or_empty(field(before.data@, "content_id"@));
            let signer = match before.signer_id { Some(s) => s@, None => Seq::empty() };
            if id.len() == 0 {
                r is Ok && after == before
            } else {
                match store_entry(before.data@, id) {
                    None => r matches Err(EngineError::HookRejected(m))
                        && m@ == "content_id "@ + id + " not found in content store"@
                        && rejected_as(before, after, "CONTENT_NOT_FOUND"@),
                    Some(e) => if entry_author(e) != signer {
                        r matches Err(EngineError::HookRejected(m))
                            && m@ == "content author "@ + entry_author(e) + " does not match signer "@ + signer
                            && rejected_as(before, after, "AUTHOR_MISMATCH"@)
                    } else {
                        r is Ok && after == before
                    },
                }
            }
        })
    }

    fn call(&self, ctx: &mut HookContext) -> (r: Result<(), EngineError>) {
        let id: String = match string_field(&ctx.data, "content_id") {
            Some(s) => copy_str(s),
            None => String::new(),
        };
        if id.as_str().is_empty() {
            return Ok(());
        }
        let author = match find_entry(&ctx.data, &id) {
            Some(e) => author_of(e),
            None => {
                let msg = concat3("content_id ", &id, " not found in content store");
                ctx.reject("CONTENT_NOT_FOUND");
                return Err(EngineError::HookRejected(msg));
            },
        };
        let signer: String = match &ctx.signer_id {
            Some(s) => copy_str(s),
            None => String::new(),
        };
        if !str_eq(&author, &signer) {
            let head = concat3("content author ", &author, " does not match signer ");
            let msg = concat2(&head, &signer);
            ctx.reject("AUTHOR_MISMATCH");
            return Err(EngineError::HookRejected(msg));
        }
        Ok(())
    }
}

} // verus!
