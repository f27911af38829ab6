//! The event model: the canonical record published by an author, its raw
//! wire-side form, validation (id recomputation and signature check), and
//! re-serialization. Validation is deterministic and side-effect free.
use vstd::prelude::*;

verus! {

use crate::canonical::canonical_form;
use crate::canonical::canonical_chars;
use crate::crypto::sha256_of;
use crate::crypto::schnorr_valid;
use crate::crypto::sha256_chars;
use crate::crypto::verify_schnorr_sig;
use crate::crypto::string_from_chars;
use crate::hexcode::hex_of;
use crate::hexcode::hex_bytes;
use crate::hexcode::is_hex_seq;
use crate::hexcode::encode_hex;
use crate::hexcode::decode_hex;
use crate::hexcode::lemma_hex_roundtrip;
use crate::text::chars_of;
use crate::text::clone_tags;
use crate::text::clone_bytes;
use crate::text::eq_bytes;

/// A validated, immutable event. `id`, `pubkey` and `sig` are raw bytes;
/// tags are ordered lists of strings whose first element is the tag name.
pub struct Event {
    pub id: Vec<u8>,
    pub pubkey: Vec<u8>,
    pub created_at: i64,
    pub kind: u64,
    pub tags: Vec<Vec<String>>,
    pub content: String,
    pub sig: Vec<u8>,
}

/// The mathematical shape of an event.
pub struct EventView {
    pub id: Seq<u8>,
    pub pubkey: Seq<u8>,
    pub created_at: i64,
    pub kind: u64,
    pub tags: Seq<Seq<Seq<char>>>,
    pub content: Seq<char>,
    pub sig: Seq<u8>,
}

impl View for Event {
    type V = EventView;

    open spec fn view(&self) -> EventView {
        EventView {
            id: self.id@,
            pubkey: self.pubkey@,
            created_at: self.created_at,
            kind: self.kind,
            tags: self.tags.deep_view(),
            content: self.content@,
            sig: self.sig@,
        }
    }
}

/// An event as it arrives from the wire: id, pubkey and sig as hex strings.
pub struct RawEvent {
    pub id: String,
    pub pubkey: String,
    pub created_at: i64,
    pub kind: u64,
    pub tags: Vec<Vec<String>>,
    pub content: String,
    pub sig: String,
}

pub struct RawEventView {
    pub id: Seq<char>,
    pub pubkey: Seq<char>,
    pub created_at: i64,
    pub kind: u64,
    pub tags: Seq<Seq<Seq<char>>>,
    pub content: Seq<char>,
    pub sig: Seq<char>,
}

impl View for RawEvent {
    type V = RawEventView;

    open spec fn view(&self) -> RawEventView {
        RawEventView {
            id: self.id@,
            pubkey: self.pubkey@,
            created_at: self.created_at,
            kind: self.kind,
            tags: self.tags.deep_view(),
            content: self.content@,
            sig: self.sig@,
        }
    }
}

/// Why a raw event was rejected. Malformed fields, an id that does not match
/// the recomputed digest, and a bad signature always reject; a creation time
/// past the caller-supplied bound is an advisory policy rejection.
#[derive(Clone, Copy, Debug, PartialEq, Eq, Structural)]
pub enum ValidationError {
    MalformedId,
    MalformedPubkey,
    MalformedSig,
    IdMismatch,
    BadSignature,
    CreatedAtAhead,
}

impl ValidationError {
    /// A short human-readable reason string.
    pub fn reason(&self) -> String {
        match self {
            ValidationError::MalformedId => "invalid: malformed id".to_owned(),
            ValidationError::MalformedPubkey => "invalid: malformed pubkey".to_owned(),
            ValidationError::MalformedSig => "invalid: malformed signature".to_owned(),
            ValidationError::IdMismatch => "invalid: id does not match content".to_owned(),
            ValidationError::BadSignature => "invalid: signature verification failed".to_owned(),
            ValidationError::CreatedAtAhead => "invalid: created_at too far in the future".to_owned(),
        }
    }
}

/// The content-derived id of an event: the digest of its canonical form.
pub open spec fn computed_id(
    pubkey: Seq<u8>,
    created_at: i64,
    kind: u64,
    tags: Seq<Seq<Seq<char>>>,
    content: Seq<char>,
) -> Seq<u8> {
    sha256_of(canonical_form(pubkey, created_at, kind, tags, content))
}

pub open spec fn hex_field_ok(s: Seq<char>, n: int) -> bool {
    s.len() == n && is_hex_seq(s)
}

/// Structural well-formedness: fixed-length id, key and signature.
pub open spec fn event_wf(e: EventView) -> bool {
    e.id.len() == 32 && e.pubkey.len() == 32 && e.sig.len() == 64
}

/// Full validity: well-formed, id equal to the recomputed digest, and a
/// verifying signature over the id.
pub open spec fn event_valid(e: EventView) -> bool {
    &&& event_wf(e)
    &&& e.id == computed_id(e.pubkey, e.created_at, e.kind, e.tags, e.content)
    &&& schnorr_valid(e.sig, e.pubkey, e.id)
}

/// The event a raw event stands for, fields decoded.
pub open spec fn decoded_event(r: RawEventView) -> EventView {
    EventView {
        id: hex_bytes(r.id),
        pubkey: hex_bytes(r.pubkey),
        created_at: r.created_at,
        kind: r.kind,
        tags: r.tags,
        content: r.content,
        sig: hex_bytes(r.sig),
    }
}

/// What validation returns, step by step: malformed hex fields first, then
/// the advisory creation-time bound, then the id digest, then the signature.
pub open spec fn validate_spec(r: RawEventView, latest: Option<i64>) -> Result<
    EventView,
    ValidationError,
> {
    if !hex_field_ok(r.id, 64) {
        Err(ValidationError::MalformedId)
    } else if !hex_field_ok(r.pubkey, 64) {
        Err(ValidationError::MalformedPubkey)
    } else if !hex_field_ok(r.sig, 128) {
        Err(ValidationError::MalformedSig)
    } else if latest is Some && r.created_at > latest->0 {
        Err(ValidationError::CreatedAtAhead)
    } else {
        let e = decoded_event(r);
        if e.id != computed_id(e.pubkey, e.created_at, e.kind, e.tags, e.content) {
            Err(ValidationError::IdMismatch)
        } else if !schnorr_valid(e.sig, e.pubkey, e.id) {
            Err(ValidationError::BadSignature)
        } else {
            Ok(e)
        }
    }
}

pub open spec fn result_view(r: Result<Event, ValidationError>) -> Result<
    EventView,
    ValidationError,
> {
    match r {
        Ok(e) => Ok(e@),
        Err(x) => Err(x),
    }
}

/// Validate a raw event: parse the hex fields, recompute the id over the
/// canonical serialization and compare byte for byte, verify the signature,
/// and reject a creation time past `latest` (the policy bound supplied by
/// the caller; `None` disables the check). Deterministic, no side effects.
pub fn validate(raw: &RawEvent, latest: Option<i64>) -> (r: Result<Event, ValidationError>)
    ensures
        result_view(r) == validate_spec(raw@, latest),
        r matches Ok(e) ==> event_valid(e@) && e@ == decoded_event(raw@),
{
    let id_chars = chars_of(raw.id.as_str());
    if id_chars.len() != 64 {
        return Err(ValidationError::MalformedId);
    }
    let id_bytes = match decode_hex(&id_chars) {
        Some(b) => b,
        None => {
            return Err(ValidationError::MalformedId);
        },
    };
    let pk_chars = chars_of(raw.pubkey.as_str());
    if pk_chars.len() != 64 {
        return Err(ValidationError::MalformedPubkey);
    }
    let pk_bytes = match decode_hex(&pk_chars) {
        Some(b) => b,
        None => {
            return Err(ValidationError::MalformedPubkey);
        },
    };
    let sig_chars = chars_of(raw.sig.as_str());
    if sig_chars.len() != 128 {
        return Err(ValidationError::MalformedSig);
    }
    let sig_bytes = match decode_hex(&sig_chars) {
        Some(b) => b,
        None => {
            return Err(ValidationError::MalformedSig);
        },
    };
    match latest {
        Some(l) => {
            if raw.created_at > l {
                return Err(ValidationError::CreatedAtAhead);
            }
        },
        None => {},
    }
    let canon = canonical_chars(&pk_bytes, raw.created_at, raw.kind, &raw.tags, &raw.content);
    let digest = sha256_chars(&canon);
    if !eq_bytes(&digest, &id_bytes) {
        return Err(ValidationError::IdMismatch);
    }
    if !verify_schnorr_sig(&sig_bytes, &pk_bytes, &id_bytes) {
        return Err(ValidationError::BadSignature);
    }
    Ok(
        Event {
            id: id_bytes,
            pubkey: pk_bytes,
            created_at: raw.created_at,
            kind: raw.kind,
            tags: clone_tags(&raw.tags),
            content: raw.content.clone(),
            sig: sig_bytes,
        },
    )
}

/// Derive the content-addressed id of an event from its signable fields.
pub fn compute_id(
    pubkey: &Vec<u8>,
    created_at: i64,
    kind: u64,
    tags: &Vec<Vec<String>>,
    content: &String,
) -> (r: Vec<u8>)
    ensures
        r@ == computed_id(pubkey@, created_at, kind, tags.deep_view(), content@),
        r@.len() == 32,
{
    let canon = canonical_chars(pubkey, created_at, kind, tags, content);
    sha256_chars(&canon)
}

/// The raw form an event re-serializes to: fields hex-encoded, lower case.
pub open spec fn raw_of(e: EventView) -> RawEventView {
    RawEventView {
        id: hex_of(e.id),
        pubkey: hex_of(e.pubkey),
        created_at: e.created_at,
        kind: e.kind,
        tags: e.tags,
        content: e.content,
        sig: hex_of(e.sig),
    }
}

/// Re-serialize an event to its raw wire-side form.
pub fn to_raw(e: &Event) -> (r: RawEvent)
    ensures
        r@ == raw_of(e@),
{
    RawEvent {
        id: string_from_chars(&encode_hex(&e.id)),
        pubkey: string_from_chars(&encode_hex(&e.pubkey)),
        created_at: e.created_at,
        kind: e.kind,
        tags: clone_tags(&e.tags),
        content: e.content.clone(),
        sig: string_from_chars(&encode_hex(&e.sig)),
    }
}

/// An owned copy of an event, equal in view.
pub fn clone_event(e: &Event) -> (r: Event)
    ensures
        r@ == e@,
{
    Event {
        id: clone_bytes(&e.id),
        pubkey: clone_bytes(&e.pubkey),
        created_at: e.created_at,
        kind: e.kind,
        tags: clone_tags(&e.tags),
        content: e.content.clone(),
        sig: clone_bytes(&e.sig),
    }
}

/// Round trip: a raw event that validates re-serializes to a raw event that
/// validates again to the very same event, and in particular to the
/// identical id.
pub proof fn lemma_validate_roundtrip(r: RawEventView, latest: Option<i64>, e: EventView)
    requires
        validate_spec(r, latest) == Ok::<EventView, ValidationError>(e),
    ensures
        validate_spec(raw_of(e), latest) == Ok::<EventView, ValidationError>(e),
        decoded_event(raw_of(e)).id == e.id,
{
    lemma_hex_roundtrip(e.id);
    lemma_hex_roundtrip(e.pubkey);
    lemma_hex_roundtrip(e.sig);
    assert(e == decoded_event(r));
    assert(hex_field_ok(r.id, 64));
    assert(e.id.len() == 32);
    assert(decoded_event(raw_of(e)) == e);
}

/// A kind whose events keep a single canonical instance per author.
pub open spec fn is_replaceable_kind(k: u64) -> bool {
    k == 0 || k == 3 || (10000 <= k && k < 20000)
}

/// A kind whose events keep a single instance per author and distinguishing
/// `d`-tag value.
pub open spec fn is_param_replaceable_kind(k: u64) -> bool {
    30000 <= k && k < 40000
}

/// The kind of deletion events, which tombstone the targets they reference.
pub open spec fn is_deletion_kind(k: u64) -> bool {
    k == 5
}

pub fn replaceable_kind(k: u64) -> (r: bool)
    ensures
        r == is_replaceable_kind(k),
{
    k == 0 || k == 3 || (10000 <= k && k < 20000)
}

pub fn param_replaceable_kind(k: u64) -> (r: bool)
    ensures
        r == is_param_replaceable_kind(k),
{
    30000 <= k && k < 40000
}

pub fn deletion_kind(k: u64) -> (r: bool)
    ensures
        r == is_deletion_kind(k),
{
    k == 5
}

} // verus!
