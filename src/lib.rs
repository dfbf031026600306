//! Signing and verification of HTTP requests with a compact `authorization`
//! header carrying a time-bounded Ed25519 signature.
//!
//! The header reads
//! `alpico time=<start>+<window>, key=<id>[, add=<field>+<field>...], sig=<base64url>`.
//! The signed message is the header text without its `sig` parameter, a
//! newline, each field's value followed by a newline, and the body. Fields
//! default to `-method` and `-path`; any other name is a request header. A
//! signer that leaves the body out says so with the pseudo-field `-nobody`,
//! which stands for an empty value; a verifier that finds it in the field
//! list leaves the body out too.

pub mod text;
pub mod header;
pub mod crypto;
pub mod canonical;
pub mod verify;
pub mod sign;
pub mod laws;
pub mod roundtrip;
