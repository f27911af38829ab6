use nostr_relay::crypto::string_from_chars;
use nostr_relay::encode_hex;
use nostr_relay::event::compute_id;
use nostr_relay::event::to_raw;
use nostr_relay::event::validate;
use nostr_relay::event::RawEvent;
use nostr_relay::event::ValidationError;
use nostr_relay::relay::PublishOutcome;
use nostr_relay::relay::Relay;

fn hex_string(bytes: &Vec<u8>) -> String {
    string_from_chars(&encode_hex(bytes))
}

fn signed_event(
    seckey_byte: u8,
    created_at: i64,
    kind: u64,
    tags: Vec<Vec<String>>,
    content: &str,
) -> RawEvent {
    let secp = secp256k1::Secp256k1::new();
    let kp = secp256k1::Keypair::from_seckey_byte_array(&secp, [seckey_byte; 32])
        .expect("test secret key");
    let (xonly, _parity) = kp.x_only_public_key();
    let pubkey: Vec<u8> = xonly.serialize().to_vec();
    let content = content.to_string();
    let id = compute_id(&pubkey, created_at, kind, &tags, &content);
    let sig = secp.sign_schnorr_no_aux_rand(&id, &kp);
    RawEvent {
        id: hex_string(&id),
        pubkey: hex_string(&pubkey),
        created_at,
        kind,
        tags,
        content,
        sig: hex_string(&sig.to_byte_array().to_vec()),
    }
}

#[test]
fn validate_accepts_well_signed_event() {
    let raw = signed_event(1, 1000, 1, vec![vec!["t".to_string(), "x".to_string()]], "hello");
    let e = validate(&raw, None).expect("a well-signed event validates");
    assert_eq!(hex_string(&e.id), raw.id);
    assert_eq!(e.created_at, 1000);
    assert_eq!(e.kind, 1);
}

#[test]
fn validate_roundtrip_keeps_id() {
    let raw = signed_event(2, 77, 1, vec![], "round trip");
    let e = validate(&raw, None).expect("validates");
    let re = to_raw(&e);
    assert_eq!(re.id, raw.id);
    let e2 = validate(&re, None).expect("re-serialized event validates");
    assert_eq!(e2.id, e.id);
}

#[test]
fn validate_rejects_wrong_id() {
    let mut raw = signed_event(3, 10, 1, vec![], "x");
    raw.id = raw.id.replace(|c: char| c.is_ascii_hexdigit(), "0");
    assert!(matches!(validate(&raw, None), Err(ValidationError::IdMismatch)));
}

#[test]
fn validate_rejects_bad_signature() {
    let mut raw = signed_event(4, 10, 1, vec![], "x");
    raw.sig = std::iter::repeat("00").take(64).collect();
    assert!(matches!(validate(&raw, None), Err(ValidationError::BadSignature)));
}

#[test]
fn validate_rejects_malformed_fields() {
    let good = signed_event(5, 10, 1, vec![], "x");

    let mut raw = clone_raw(&good);
    raw.id = "zz".to_string();
    assert!(matches!(validate(&raw, None), Err(ValidationError::MalformedId)));

    let mut raw = clone_raw(&good);
    raw.pubkey = "abcd".to_string();
    assert!(matches!(validate(&raw, None), Err(ValidationError::MalformedPubkey)));

    let mut raw = clone_raw(&good);
    raw.sig = "not hex".to_string();
    assert!(matches!(validate(&raw, None), Err(ValidationError::MalformedSig)));
}

fn clone_raw(r: &RawEvent) -> RawEvent {
    RawEvent {
        id: r.id.clone(),
        pubkey: r.pubkey.clone(),
        created_at: r.created_at,
        kind: r.kind,
        tags: r.tags.clone(),
        content: r.content.clone(),
        sig: r.sig.clone(),
    }
}

#[test]
fn validate_rejects_created_at_past_bound() {
    let raw = signed_event(6, 1000, 1, vec![], "x");
    assert!(matches!(validate(&raw, Some(999)), Err(ValidationError::CreatedAtAhead)));
    assert!(validate(&raw, Some(1000)).is_ok());
}

#[test]
fn publish_accepts_then_reports_duplicate() {
    let mut relay = Relay::new(100, 10);
    let raw = signed_event(7, 10, 1, vec![], "once");
    assert_eq!(relay.publish(&raw, None), PublishOutcome::Accepted);
    assert_eq!(relay.publish(&raw, None), PublishOutcome::Duplicate);
}

#[test]
fn publish_rejects_invalid() {
    let mut relay = Relay::new(100, 10);
    let mut raw = signed_event(8, 10, 1, vec![], "bad");
    raw.sig = std::iter::repeat("11").take(64).collect();
    assert_eq!(
        relay.publish(&raw, None),
        PublishOutcome::Rejected(ValidationError::BadSignature)
    );
}
