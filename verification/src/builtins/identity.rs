//! The identity datatype: each entity's public key, the cache of known
//! public keys, and what the signing and verifying hooks decide around the
//! cryptographic work: what gets signed, which key verifies a write, and
//! whether a signature's timestamp is recent enough.
use vstd::prelude::*;
use crate::error::EngineError;
use crate::hooks::phase::HookContext;
use crate::json::{field, get_field, set_field, str_or, string_field_or, JsonValue};
use crate::registry::datatype::{builtin_declaration, is_builtin_declaration, DatatypeDeclaration, StorageType, WriterRule};
use crate::store::{entries_map, entry_lookup, find_key, keys_distinct, put_entry};
use crate::text::{concat2, copy_str};

verus! {

/// The identity datatype: one public-key blob per entity, written only by
/// that entity; it depends on nothing.
pub fn identity_datatype() -> (d: DatatypeDeclaration)
    ensures
        is_builtin_declaration(d, "identity"@, Seq::empty(), "entity_keypair"@, StorageType::Blob,
            "ezagent/@{entity_id}/identity/pubkey"@, WriterRule::SignerIsEntity),
{
    let deps: Vec<String> = Vec::new();
    let ghost dv = deps@.map_values(|s: String| s@);
    assert(dv =~= Seq::<Seq<char>>::empty());
    builtin_declaration("identity", deps, "entity_keypair", StorageType::Blob,
        "ezagent/@{entity_id}/identity/pubkey", WriterRule::SignerIsEntity)
}

/// How far a signature's timestamp may lie from the verifier's clock, in
/// milliseconds (5 minutes).
pub const TIMESTAMP_TOLERANCE_MS: i64 = 300000;

/// The byte of each non-negative number among `items`, taken modulo 256;
/// other items give no byte.
pub open spec fn number_bytes(items: Seq<JsonValue>) -> Seq<u8>
    decreases items.len(),
{
    if items.len() == 0 {
        Seq::empty()
    } else {
        let rest = number_bytes(items.drop_last());
        match items.last() {
            JsonValue::Number(n) if n >= 0 => rest.push((n % 256) as u8),
            _ => rest,
        }
    }
}

/// The bytes that the envelope hook signs: the UTF-8 encoding of a string
/// `payload`, the bytes of a `payload` array of numbers, and nothing for
/// any other or a missing `payload`.
pub open spec fn payload_bytes(data: Seq<(String, JsonValue)>) -> Seq<u8> {
    match field(data, "payload"@) {
        Some(JsonValue::Str(s)) => vstd::utf8::encode_utf8(s@),
        Some(JsonValue::Array(items)) => number_bytes(items@),
        _ => Seq::empty(),
    }
}

/// What a signed envelope is made of: the signer, the document and the
/// payload bytes.
pub struct EnvelopeInput {
    pub signer_id: String,
    pub doc_id: String,
    pub payload: Vec<u8>,
}

/// The bytes of the numbers among `items`.
fn bytes_of_numbers(items: &Vec<JsonValue>) -> (r: Vec<u8>)
    ensures
        r@ == number_bytes(items@),
{
    let mut r: Vec<u8> = Vec::new();
    let mut i: usize = 0;
    while i < items.len()
        invariant
            i <= items@.len(),
            r@ == number_bytes(items@.take(i as int)),
        decreases items@.len() - i,
    {
        proof { assert(items@.take(i as int + 1).drop_last() =~= items@.take(i as int)); }
        match &items[i] {
            JsonValue::Number(n) => {
                if *n >= 0 {
                    let b: u8 = (*n % 256) as u8;
                    r.push(b);
                }
            },
            _ => {},
        }
        i = i + 1;
    }
    proof { assert(items@.take(items@.len() as int) =~= items@); }
    r
}

/// What the envelope hook signs for a write: its signer, the `doc_id` string
/// of its data (empty when there is none) and its payload bytes. A write
/// without a signer is refused.
pub fn envelope_input(ctx: &HookContext) -> (r: Result<EnvelopeInput, EngineError>)
    ensures
        match r {
            Ok(e) => {
                &&& ctx.signer_id matches Some(s) && e.signer_id@ == s@
                &&& e.doc_id@ == str_or(field(ctx.data@, "doc_id"@), ""@)
                &&& e.payload@ == payload_bytes(ctx.data@)
            },
            Err(err) => ctx.signer_id is None
                && (err matches EngineError::PermissionDenied(m) && m@ == "no signer_id in context"@),
        },
{
    let signer_id = match &ctx.signer_id {
        Some(s) => copy_str(s),
        None => return Err(EngineError::PermissionDenied(copy_str("no signer_id in context"))),
    };
    let payload: Vec<u8> = match get_field(&ctx.data, "payload") {
        Some(JsonValue::Str(s)) => s.as_str().as_bytes_vec(),
        Some(JsonValue::Array(items)) => bytes_of_numbers(items),
        _ => Vec::new(),
    };
    let doc_id = string_field_or(&ctx.data, "doc_id", "");
    Ok(EnvelopeInput { signer_id, doc_id, payload })
}

/// The public keys of known entities, by entity id.
pub struct PublicKeyCache {
    keys: Vec<(String, [u8; 32])>,
}

impl View for PublicKeyCache {
    type V = Map<Seq<char>, Seq<u8>>;

    /// The known entities with the bytes of their public keys.
    closed spec fn view(&self) -> Map<Seq<char>, Seq<u8>> {
        entries_map(self.keys@).map_values(|k: [u8; 32]| k@)
    }
}

impl PublicKeyCache {
    /// Each entity has one key.
    #[verifier::type_invariant]
    spec fn keyed_once(self) -> bool {
        keys_distinct(self.keys@)
    }

    /// A cache that knows no key.
    pub fn new() -> (c: PublicKeyCache)
        ensures
            c@ == Map::<Seq<char>, Seq<u8>>::empty(),
    {
        let c = PublicKeyCache { keys: Vec::new() };
        proof {
            reveal(entry_lookup);
            reveal(crate::store::first_index);
            assert(c@ =~= Map::<Seq<char>, Seq<u8>>::empty());
        }
        c
    }

    /// Records `pubkey` as the key of `entity_id`, replacing any earlier one.
    pub fn insert(&mut self, entity_id: &str, pubkey: [u8; 32])
        ensures
            final(self)@ == old(self)@.insert(entity_id@, pubkey@),
    {
        proof { use_type_invariant(&*self); }
        let mut keys: Vec<(String, [u8; 32])> = Vec::new();
        std::mem::swap(&mut keys, &mut self.keys);
        let ghost before = keys@;
        put_entry(&mut keys, copy_str(entity_id), pubkey);
        proof {
            assert(entries_map(keys@) =~= entries_map(before).insert(entity_id@, pubkey));
            assert(entries_map(keys@).map_values(|k: [u8; 32]| k@)
                =~= entries_map(before).map_values(|k: [u8; 32]| k@).insert(entity_id@, pubkey@));
        }
        self.keys = keys;
    }

    /// The key of `entity_id`, if known.
    pub fn get(&self, entity_id: &str) -> (r: Option<[u8; 32]>)
        ensures
            match r {
                Some(k) => self@.contains_key(entity_id@) && self@[entity_id@] == k@,
                None => !self@.contains_key(entity_id@),
            },
    {
        proof { reveal(entry_lookup); }
        match find_key(&self.keys, entity_id) {
            Some(p) => Some(self.keys[p].1),
            None => None,
        }
    }
}

/// The public key of `signer_id`, or the refusal that none is known.
pub fn signer_key(cache: &PublicKeyCache, signer_id: &str) -> (r: Result<[u8; 32], EngineError>)
    ensures
        match r {
            Ok(k) => cache@.contains_key(signer_id@) && cache@[signer_id@] == k@,
            Err(err) => !cache@.contains_key(signer_id@)
                && (err matches EngineError::PermissionDenied(m) && m@ == "no public key for "@ + signer_id@),
        },
{
    match cache.get(signer_id) {
        Some(k) => Ok(k),
        None => Err(EngineError::PermissionDenied(concat2("no public key for ", signer_id))),
    }
}

/// The key that verifies a write's signature: that of its signer. A write
/// without a signer, or whose signer's key is unknown, is refused.
pub fn verification_key(ctx: &HookContext, cache: &PublicKeyCache) -> (r: Result<[u8; 32], EngineError>)
    ensures
        match r {
            Ok(k) => ctx.signer_id matches Some(s) && cache@.contains_key(s@) && cache@[s@] == k@,
            Err(err) => match ctx.signer_id {
                None => err matches EngineError::PermissionDenied(m) && m@ == "no signer_id for verification"@,
                Some(s) => !cache@.contains_key(s@)
                    && (err matches EngineError::PermissionDenied(m) && m@ == "no public key for "@ + s@),
            },
        },
{
    match &ctx.signer_id {
        None => Err(EngineError::PermissionDenied(copy_str("no signer_id for verification"))),
        Some(s) => signer_key(cache, s),
    }
}

/// The distance between a signature's timestamp and the verifier's clock.
pub open spec fn time_distance(now_ms: i64, timestamp_ms: i64) -> int {
    if now_ms >= timestamp_ms { now_ms - timestamp_ms } else { timestamp_ms - now_ms }
}

/// Accepts a signature made at `timestamp_ms` when the clock reads `now_ms`
/// if the two lie at most the tolerance apart; otherwise gives the distance.
pub fn check_timestamp(now_ms: i64, timestamp_ms: i64) -> (r: Result<(), u64>)
    ensures
        match r {
            Ok(()) => time_distance(now_ms, timestamp_ms) <= TIMESTAMP_TOLERANCE_MS,
            Err(d) => d == time_distance(now_ms, timestamp_ms) && d > TIMESTAMP_TOLERANCE_MS,
        },
{
    let now = now_ms as i128;
    let ts = timestamp_ms as i128;
    let d: i128 = if now >= ts { now - ts } else { ts - now };
    if d > TIMESTAMP_TOLERANCE_MS as i128 {
        Err(d as u64)
    } else {
        Ok(())
    }
}

/// Records in the write's data that its signature was verified.
pub fn mark_signature_verified(ctx: &mut HookContext)
    ensures
        field(final(ctx).data@, "signature_verified"@) == Some(JsonValue::Bool(true)),
        forall|k: Seq<char>| k != "signature_verified"@
            ==> #[trigger] field(final(ctx).data@, k) == field(old(ctx).data@, k),
        final(ctx).signer_id == old(ctx).signer_id,
        final(ctx).room_id == old(ctx).room_id,
        final(ctx).rejected == old(ctx).rejected,
{
    set_field(&mut ctx.data, "signature_verified", JsonValue::Bool(true));
}

} // verus!
