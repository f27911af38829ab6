use nostr_relay::canonical::canonical_chars;
use nostr_relay::chars_of;
use nostr_relay::decode_hex;
use nostr_relay::encode_hex;

fn chars_to_string(v: &Vec<char>) -> String {
    v.iter().collect()
}

#[test]
fn hex_encode_exact() {
    let bytes: Vec<u8> = vec![0x00, 0xab, 0xff, 0x10];
    let hex = encode_hex(&bytes);
    assert_eq!(chars_to_string(&hex), "00abff10");
}

#[test]
fn hex_roundtrip() {
    let bytes: Vec<u8> = (0u8..=255).collect();
    let hex = encode_hex(&bytes);
    let back = decode_hex(&hex).expect("valid hex must decode");
    assert_eq!(back, bytes);
}

#[test]
fn hex_decode_upper_and_lower() {
    let up = chars_of("AB0F");
    let lo = chars_of("ab0f");
    assert_eq!(decode_hex(&up), Some(vec![0xab, 0x0f]));
    assert_eq!(decode_hex(&lo), Some(vec![0xab, 0x0f]));
}

#[test]
fn hex_decode_rejects_odd_length_and_bad_digit() {
    assert_eq!(decode_hex(&chars_of("abc")), None);
    assert_eq!(decode_hex(&chars_of("zz")), None);
    assert_eq!(decode_hex(&chars_of("")), Some(vec![]));
}

#[test]
fn canonical_form_exact() {
    let pubkey: Vec<u8> = vec![0x01; 32];
    let tags: Vec<Vec<String>> = vec![vec!["t".to_string(), "x".to_string()]];
    let content = "hi\n\"q\"".to_string();
    let canon = canonical_chars(&pubkey, 12345, 1, &tags, &content);
    let pk_hex: String = std::iter::repeat("01").take(32).collect();
    let expected = format!("[0,\"{}\",12345,1,[[\"t\",\"x\"]],\"hi\\n\\\"q\\\"\"]", pk_hex);
    assert_eq!(chars_to_string(&canon), expected);
}

#[test]
fn canonical_form_negative_time_and_empty_tags() {
    let pubkey: Vec<u8> = vec![0xff; 32];
    let tags: Vec<Vec<String>> = vec![];
    let content = String::new();
    let canon = canonical_chars(&pubkey, -5, 30000, &tags, &content);
    let pk_hex: String = std::iter::repeat("ff").take(32).collect();
    let expected = format!("[0,\"{}\",-5,30000,[],\"\"]", pk_hex);
    assert_eq!(chars_to_string(&canon), expected);
}

#[test]
fn canonical_form_most_negative_time() {
    let pubkey: Vec<u8> = vec![0x00; 32];
    let canon = canonical_chars(&pubkey, i64::MIN, 1, &vec![], &String::new());
    let pk_hex: String = std::iter::repeat("00").take(32).collect();
    let expected = format!("[0,\"{}\",-9223372036854775808,1,[],\"\"]", pk_hex);
    assert_eq!(chars_to_string(&canon), expected);
}

#[test]
fn computed_id_is_sha256_of_canonical() {
    let pubkey: Vec<u8> = vec![0x2a; 32];
    let tags: Vec<Vec<String>> = vec![vec!["e".to_string(), "00ff".to_string()]];
    let content = "check".to_string();
    let id = nostr_relay::event::compute_id(&pubkey, 42, 1, &tags, &content);
    let canon = chars_to_string(&canonical_chars(&pubkey, 42, 1, &tags, &content));
    let expected = <secp256k1::hashes::sha256::Hash as secp256k1::hashes::Hash>::hash(
        canon.as_bytes(),
    );
    assert_eq!(
        id,
        <secp256k1::hashes::sha256::Hash as secp256k1::hashes::Hash>::to_byte_array(expected)
            .to_vec()
    );
}

#[test]
fn canonical_escapes_control_characters() {
    let pubkey: Vec<u8> = vec![0x00; 32];
    let tags: Vec<Vec<String>> = vec![];
    let content = "\u{08}\u{0c}\t\r\u{01}".to_string();
    let canon = canonical_chars(&pubkey, 0, 0, &tags, &content);
    let pk_hex: String = std::iter::repeat("00").take(32).collect();
    let expected = format!("[0,\"{}\",0,0,[],\"\\b\\f\\t\\r\\u0001\"]", pk_hex);
    assert_eq!(chars_to_string(&canon), expected);
}
