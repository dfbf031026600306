//! The calls into `base64` and `ed25519-dalek`, each behind a small function
//! whose contract states what the crate documents of it.

use vstd::prelude::*;

verus! {

/// The URL-safe base64 alphabet: letters, digits, `-` and `_`.
pub open spec fn is_url_safe_char(c: char) -> bool {
    ('A' <= c && c <= 'Z') || ('a' <= c && c <= 'z') || ('0' <= c && c <= '9') || c == '-'
        || c == '_'
}

/// What `URL_SAFE_NO_PAD.encode` gives for the bytes `b`.
pub uninterp spec fn b64url_encoding(b: Seq<u8>) -> Seq<char>;

/// What `URL_SAFE_NO_PAD.decode` gives for the characters `s`; `None` for
/// text that is not canonical unpadded URL-safe base64.
pub uninterp spec fn b64url_decoding(s: Seq<char>) -> Option<Seq<u8>>;

/// The Ed25519 signature that `SigningKey::sign` makes with the secret key
/// `secret` over `msg`.
pub uninterp spec fn ed25519_signature(secret: Seq<u8>, msg: Seq<u8>) -> Seq<u8>;

/// Whether `VerifyingKey::from_bytes` accepts the 32 bytes `key`.
pub uninterp spec fn is_public_key(key: Seq<u8>) -> bool;

/// Whether `VerifyingKey::verify_strict` accepts `sig` over `msg` for `key`.
pub uninterp spec fn ed25519_verifies(key: Seq<u8>, msg: Seq<u8>, sig: Seq<u8>) -> bool;

/// An Ed25519 signing key, carried opaque.
#[verifier::external_type_specification]
#[verifier::external_body]
pub struct ExSigningKey(ed25519_dalek::SigningKey);

/// Relies on `SigningKey::to_bytes` of ed25519-dalek, which hands out the
/// 32 secret bytes the key was made from.
pub assume_specification[ ed25519_dalek::SigningKey::to_bytes ](
    k: &ed25519_dalek::SigningKey,
) -> ed25519_dalek::SecretKey;

/// Relies on base64's `URL_SAFE_NO_PAD.encode`: four characters of the URL-safe
/// alphabet for every three bytes, no padding, and the text decodes back to
/// the same bytes.
#[verifier::external_body]
pub(crate) fn encode_b64url(b: &[u8]) -> (r: String)
    ensures
        r@ == b64url_encoding(b@),
        r@.len() == (4 * b@.len() + 2) / 3,
        forall|i: int| 0 <= i < r@.len() ==> is_url_safe_char(#[trigger] r@[i]),
        b64url_decoding(r@) == Some(b@),
{
    base64::Engine::encode(&base64::engine::general_purpose::URL_SAFE_NO_PAD, b)
}

/// Relies on base64's `URL_SAFE_NO_PAD.decode`.
#[verifier::external_body]
pub(crate) fn decode_b64url(s: &str) -> (r: Option<Vec<u8>>)
    ensures
        match b64url_decoding(s@) {
            Some(b) => r matches Some(v) && v@ == b,
            None => r is None,
        },
{
    base64::Engine::decode(&base64::engine::general_purpose::URL_SAFE_NO_PAD, s).ok()
}

/// Relies on `ed25519::Signature::from_slice`, which takes exactly 64 bytes,
/// and `Signature::to_bytes`, which gives them back.
#[verifier::external_body]
pub(crate) fn signature_from_slice(b: &[u8]) -> (r: Option<[u8; 64]>)
    ensures
        r is Some <==> b@.len() == 64,
        r matches Some(a) ==> a@ == b@,
{
    ed25519_dalek::Signature::from_slice(b).ok().map(|s| s.to_bytes())
}

/// Relies on `SigningKey::from_bytes` and `Signer::sign` of ed25519-dalek:
/// signing is deterministic in the secret key and the message.
#[verifier::external_body]
pub(crate) fn sign_message(secret: &[u8; 32], msg: &[u8]) -> (r: [u8; 64])
    ensures
        r@ == ed25519_signature(secret@, msg@),
{
    ed25519_dalek::Signer::sign(&ed25519_dalek::SigningKey::from_bytes(secret), msg).to_bytes()
}

/// Relies on `VerifyingKey::from_bytes` of ed25519-dalek: whether the bytes
/// decompress to a curve point.
#[verifier::external_body]
pub(crate) fn check_public_key(key: &[u8; 32]) -> (r: bool)
    ensures
        r == is_public_key(key@),
{
    ed25519_dalek::VerifyingKey::from_bytes(key).is_ok()
}

/// Relies on `VerifyingKey::verify_strict` of ed25519-dalek, on a key that
/// `VerifyingKey::from_bytes` accepts.
#[verifier::external_body]
pub(crate) fn verify_strict(key: &[u8; 32], msg: &[u8], sig: &[u8; 64]) -> (r: bool)
    requires
        is_public_key(key@),
    ensures
        r == ed25519_verifies(key@, msg@, sig@),
{
    match ed25519_dalek::VerifyingKey::from_bytes(key) {
        Ok(k) => k.verify_strict(msg, &ed25519_dalek::Signature::from_bytes(sig)).is_ok(),
        Err(_) => false,
    }
}

} // verus!
