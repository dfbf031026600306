//! Verification of an incoming request's `authorization` header.

use vstd::prelude::*;
use crate::canonical::{canonical, canonical_message, push_bytes, values_view};
use crate::crypto::{
    b64url_decoding, check_public_key, decode_b64url, ed25519_verifies, is_public_key,
    signature_from_slice, verify_strict,
};
use crate::header::{method_field, nobody_field, parse_header, path_field, AuthHeader, HeaderView};
use crate::text::same_text;
use vstd::utf8::encode_utf8;

verus! {

/// Why a signature value was refused.
#[derive(Debug, Clone, Copy, PartialEq, Eq, Structural)]
pub enum SignatureFault {
    /// Not unpadded URL-safe base64.
    Encoding,
    /// Decodes to something other than 64 bytes.
    Length,
}

/// Why a request was not authenticated.
#[derive(Debug)]
pub enum Error<E> {
    /// The signature does not verify over the canonical message.
    Check,
    /// The header is malformed; the text names how.
    Header(&'static str),
    /// The key lookup failed.
    Key(E),
    /// The key bytes are not a public key.
    KeyValue,
    Signature(SignatureFault),
    /// The current time lies outside the signature's window.
    Time,
}

/// `now` lies in `[start, start + duration]`.
pub open spec fn in_window(now: u64, start: u64, duration: u64) -> bool {
    now >= start && now - start <= duration
}

/// What the verifier decides once the key lookup gave `key` and the fields
/// resolved to `values`.
pub open spec fn check_outcome<E>(
    h: HeaderView,
    key: Result<[u8; 32], E>,
    values: Seq<Seq<u8>>,
    body: Seq<u8>,
) -> Result<u32, Error<E>> {
    match key {
        Err(e) => Err(Error::Key(e)),
        Ok(k) => if !is_public_key(k@) {
            Err(Error::KeyValue)
        } else {
            match b64url_decoding(h.sig) {
                None => Err(Error::Signature(SignatureFault::Encoding)),
                Some(s) => if s.len() != 64 {
                    Err(Error::Signature(SignatureFault::Length))
                } else if ed25519_verifies(
                    k@,
                    canonical(h.header, values, if h.omit_body { None } else { Some(body) }),
                    s,
                ) {
                    Ok(h.key)
                } else {
                    Err(Error::Check)
                },
            }
        },
    }
}

/// Checks a parsed header against the key that the lookup gave and the
/// values of its fields, in the header's order.
pub fn check_signature<E>(h: &AuthHeader, key: Result<[u8; 32], E>, values: &Vec<Vec<u8>>, body: &[u8]) -> (r: Result<u32, Error<E>>)
    ensures
        r == check_outcome(h@, key, values_view(values@), body@),
{
    let pubkey = match key {
        Ok(k) => k,
        Err(e) => {
            return Err(Error::Key(e));
        },
    };
    if !check_public_key(&pubkey) {
        return Err(Error::KeyValue);
    }
    let raw = match decode_b64url(h.sig.as_str()) {
        Some(v) => v,
        None => {
            return Err(Error::Signature(SignatureFault::Encoding));
        },
    };
    let sig = match signature_from_slice(raw.as_slice()) {
        Some(s) => s,
        None => {
            return Err(Error::Signature(SignatureFault::Length));
        },
    };
    let message = if h.omit_body {
        canonical_message(h.header.as_str(), values, None)
    } else {
        canonical_message(h.header.as_str(), values, Some(body))
    };
    if verify_strict(&pubkey, message.as_slice(), &sig) {
        Ok(h.key)
    } else {
        Err(Error::Check)
    }
}

/// The bytes of a looked-up header value; an absent one counts as empty.
pub open spec fn lookup_bytes(o: Option<&str>) -> Seq<u8> {
    match o {
        Some(s) => encode_utf8(s@),
        None => Seq::empty(),
    }
}

/// The text of a looked-up header value; an absent one counts as empty.
pub open spec fn lookup_text(o: Option<&str>) -> Seq<char> {
    match o {
        Some(s) => s@,
        None => Seq::empty(),
    }
}

/// Whether `name` is one of the pseudo-fields.
pub open spec fn is_pseudo_field(name: Seq<char>) -> bool {
    name == method_field() || name == path_field() || name == nobody_field()
}

/// The value of a pseudo-field.
pub open spec fn pseudo_value(name: Seq<char>, method: Seq<u8>, path: Seq<u8>) -> Seq<u8> {
    if name == method_field() {
        method
    } else if name == path_field() {
        path
    } else {
        Seq::empty()
    }
}

/// `values` are what the fields `names` resolve to: pseudo-fields from the
/// request, other names through the header lookup `f`.
pub open spec fn resolved_by<'a, F: Fn(&str) -> Option<&'a str>>(
    f: F,
    names: Seq<Seq<char>>,
    method: Seq<u8>,
    path: Seq<u8>,
    values: Seq<Seq<u8>>,
) -> bool {
    values.len() == names.len() && forall|i: int|
        0 <= i < names.len() ==> if is_pseudo_field(#[trigger] names[i]) {
            values[i] == pseudo_value(names[i], method, path)
        } else {
            exists|n: &str, o: Option<&'a str>|
                n@ == names[i] && #[trigger] f.ensures((n,), o) && values[i] == lookup_bytes(o)
        }
}

/// Verifies a request: reads its `authorization` header through
/// `get_header`, checks the time window, resolves the key through `get_key`,
/// rebuilds the canonical message and checks the signature. Gives the key
/// number on success.
pub fn verify<'a, F, G, E>(
    method: &str,
    path: &'a str,
    body: &[u8],
    now: u64,
    get_header: F,
    get_key: G,
) -> (r: Result<u32, Error<E>>)
    where
        F: Fn(&str) -> Option<&'a str>,
        G: FnOnce(u32) -> Result<[u8; 32], E>,
    requires
        forall|n: &str| #[trigger] get_header.requires((n,)),
        forall|k: u32| #[trigger] get_key.requires((k,)),
    ensures
        exists|raw: Option<&'a str>|
            #[trigger] get_header.ensures(("authorization",), raw) && match parse_header(
                lookup_text(raw),
            ) {
                Err(e) => r matches Err(Error::Header(m)) && m@ == e,
                Ok(h) => if !in_window(now, h.start, h.duration) {
                    r matches Err(Error::Time)
                } else {
                    exists|key: Result<[u8; 32], E>, values: Seq<Seq<u8>>|
                        #[trigger] get_key.ensures((h.key,), key) && resolved_by(
                            get_header,
                            h.add,
                            encode_utf8(method@),
                            encode_utf8(path@),
                            values,
                        ) && r == #[trigger] check_outcome(h, key, values, body@)
                },
            },
{
    let raw = get_header("authorization");
    let text = match raw {
        Some(t) => t,
        None => "",
    };
    proof {
        reveal_strlit("");
    }
    assert(text@ == lookup_text(raw));
    let h = match AuthHeader::new(text) {
        Ok(h) => h,
        Err(m) => {
            assert(get_header.ensures(("authorization",), raw));
            return Err(Error::Header(m));
        },
    };
    assert(get_header.ensures(("authorization",), raw));
    assert(parse_header(lookup_text(raw)) == Ok::<HeaderView, Seq<char>>(h@));
    if now < h.start || now - h.start > h.duration {
        return Err(Error::Time);
    }
    let key = get_key(h.key);
    assert(get_key.ensures((h.key,), key));
    let mut values: Vec<Vec<u8>> = Vec::new();
    let mut i: usize = 0;
    while i < h.add.len()
        invariant
            i <= h.add@.len(),
            values@.len() == i,
            forall|n: &str| #[trigger] get_header.requires((n,)),
            resolved_by(
                get_header,
                h@.add.subrange(0, i as int),
                encode_utf8(method@),
                encode_utf8(path@),
                values_view(values@),
            ),
        decreases h.add@.len() - i,
    {
        let name = h.add[i].as_str();
        let mut v: Vec<u8> = Vec::new();
        let ghost old_values = values_view(values@);
        let ghost names = h@.add.subrange(0, i + 1);
        assert(names[i as int] == name@);
        if same_text(name, "-method") {
            push_bytes(&mut v, method.as_bytes());
        } else if same_text(name, "-path") {
            push_bytes(&mut v, path.as_bytes());
        } else if same_text(name, "-nobody") {
        } else {
            let o = get_header(name);
            match o {
                Some(t) => push_bytes(&mut v, t.as_bytes()),
                None => {},
            }
            assert(v@ == lookup_bytes(o));
        }
        values.push(v);
        i = i + 1;
        assert forall|k: int| 0 <= k < names.len() implies if is_pseudo_field(#[trigger] names[k]) {
            values_view(values@)[k] == pseudo_value(names[k], encode_utf8(method@), encode_utf8(path@))
        } else {
            exists|n: &str, o: Option<&'a str>|
                n@ == names[k] && #[trigger] get_header.ensures((n,), o) && values_view(values@)[k] == lookup_bytes(o)
        } by {
            if k == i - 1 {
                if !is_pseudo_field(names[k]) {
                    assert(values_view(values@)[k] == v@);
                }
            } else {
                assert(names[k] == h@.add.subrange(0, i - 1)[k]);
                assert(values_view(values@)[k] == old_values[k]);
            }
        }
    }
    assert(h@.add.subrange(0, h@.add.len() as int) =~= h@.add);
    let r = check_signature(&h, key, &values, body);
    assert(resolved_by(get_header, h@.add, encode_utf8(method@), encode_utf8(path@), values_view(values@)));
    assert(r == check_outcome(h@, key, values_view(values@), body@));
    assert(in_window(now, h@.start, h@.duration));
    assert(exists|k2: Result<[u8; 32], E>, vs: Seq<Seq<u8>>|
        #[trigger] get_key.ensures((h@.key,), k2) && resolved_by(
            get_header,
            h@.add,
            encode_utf8(method@),
            encode_utf8(path@),
            vs,
        ) && r == #[trigger] check_outcome(h@, k2, vs, body@));
    r
}

} // verus!
