//! Trusted boundary to the cryptographic primitives: the SHA-256 digest that
//! derives event ids and BIP-340 Schnorr signature verification. Both results
//! are functions of their arguments alone, so each is given a name that the
//! rest of the library's contracts build on.
use vstd::prelude::*;

verus! {

/// The SHA-256 digest (32 bytes) of the UTF-8 encoding of a character
/// sequence.
pub uninterp spec fn sha256_of(s: Seq<char>) -> Seq<u8>;

/// Whether a 64-byte BIP-340 Schnorr signature is valid for a message under
/// a 32-byte x-only public key. False whenever the signature or key bytes do
/// not parse.
pub uninterp spec fn schnorr_valid(sig: Seq<u8>, pubkey: Seq<u8>, msg: Seq<u8>) -> bool;

/// Relies on bitcoin_hashes' sha256 (re-exported by secp256k1): the digest is
/// 32 bytes and depends on the input characters alone.
#[verifier::external_body]
pub fn sha256_chars(s: &Vec<char>) -> (r: Vec<u8>)
    ensures
        r@ == sha256_of(s@),
        r@.len() == 32,
{
    let text: String = s.iter().collect();
    let digest = <secp256k1::hashes::sha256::Hash as secp256k1::hashes::Hash>::hash(
        text.as_bytes(),
    );
    <secp256k1::hashes::sha256::Hash as secp256k1::hashes::Hash>::to_byte_array(digest).to_vec()
}

/// Relies on secp256k1's verify_schnorr: the outcome depends only on the
/// signature, key and message bytes; bytes that do not parse as a signature
/// or key never verify.
#[verifier::external_body]
pub fn verify_schnorr_sig(sig: &Vec<u8>, pubkey: &Vec<u8>, msg: &Vec<u8>) -> (r: bool)
    ensures
        r == schnorr_valid(sig@, pubkey@, msg@),
{
    let pk_bytes: [u8; 32] = match pubkey.as_slice().try_into() { Ok(a) => a, Err(_) => return false };
    let sig_bytes: [u8; 64] = match sig.as_slice().try_into() { Ok(a) => a, Err(_) => return false };
    let pk = match secp256k1::XOnlyPublicKey::from_byte_array(pk_bytes) {
        Ok(k) => k,
        Err(_) => return false,
    };
    let sg = secp256k1::schnorr::Signature::from_byte_array(sig_bytes);
    let ctx = secp256k1::Secp256k1::verification_only();
    ctx.verify_schnorr(&sg, msg.as_slice(), &pk).is_ok()
}

/// Relies on std's FromIterator for String: collecting characters in order.
#[verifier::external_body]
pub fn string_from_chars(v: &Vec<char>) -> (r: String)
    ensures
        r@ == v@,
{
    v.iter().collect()
}

} // verus!
