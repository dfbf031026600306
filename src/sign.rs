//! Building the `authorization` header for an outgoing request.

use vstd::prelude::*;
use crate::canonical::{canonical, canonical_message, push_bytes, values_view};
use crate::crypto::{b64url_encoding, ed25519_signature, encode_b64url, sign_message};
use vstd::utf8::encode_utf8;

verus! {

/// Communicates errors which arise while signing a message.
#[derive(Debug, Clone, Copy, PartialEq, Eq, Structural)]
pub enum Error {
    /// The clock is too early for the tolerance, or the window overflows.
    Time,
}

pub open spec fn digit_char(d: nat) -> char {
    if d == 0 { '0' } else if d == 1 { '1' } else if d == 2 { '2' } else if d == 3 { '3' }
    else if d == 4 { '4' } else if d == 5 { '5' } else if d == 6 { '6' } else if d == 7 { '7' }
    else if d == 8 { '8' } else { '9' }
}

/// `n` in decimal, without leading zeros.
pub open spec fn dec_text(n: nat) -> Seq<char>
    decreases n,
{
    if n < 10 {
        seq![digit_char(n)]
    } else {
        dec_text(n / 10) + seq![digit_char(n % 10)]
    }
}

fn digit_str(d: u64) -> (r: &'static str)
    requires
        d < 10,
    ensures
        r@ == seq![digit_char(d as nat)],
{
    proof {
        reveal_strlit("0");
        reveal_strlit("1");
        reveal_strlit("2");
        reveal_strlit("3");
        reveal_strlit("4");
        reveal_strlit("5");
        reveal_strlit("6");
        reveal_strlit("7");
        reveal_strlit("8");
        reveal_strlit("9");
    }
    let r = if d == 0 { "0" } else if d == 1 { "1" } else if d == 2 { "2" } else if d == 3 { "3" }
    else if d == 4 { "4" } else if d == 5 { "5" } else if d == 6 { "6" } else if d == 7 { "7" }
    else if d == 8 { "8" } else { "9" };
    assert(r@ =~= seq![digit_char(d as nat)]);
    r
}

/// Appends `n` in decimal to `s`.
fn push_dec(s: &mut String, n: u64)
    ensures
        final(s)@ == old(s)@ + dec_text(n as nat),
    decreases n,
{
    if n >= 10 {
        push_dec(s, n / 10);
    }
    s.append(digit_str(n % 10));
    assert(final(s)@ =~= old(s)@ + dec_text(n as nat));
}

/// `+name` for each name, in order.
pub open spec fn joined(names: Seq<Seq<char>>) -> Seq<char>
    decreases names.len(),
{
    if names.len() == 0 {
        Seq::empty()
    } else {
        joined(names.drop_last()) + "+"@ + names.last()
    }
}

/// The parameter text that is signed: window, key, and the field list where
/// it differs from the default.
pub open spec fn param_text(
    start: u64,
    window: u64,
    key: u32,
    names: Seq<Seq<char>>,
    omit_body: bool,
) -> Seq<char> {
    "alpico time="@ + dec_text(start as nat) + "+"@ + dec_text(window as nat) + ", key="@
        + dec_text(key as nat) + if names.len() > 0 || omit_body {
        ", add=-method+-path"@ + joined(names) + if omit_body {
            "+-nobody"@
        } else {
            Seq::empty()
        }
    } else {
        Seq::empty()
    }
}

/// The values of the signed fields: method, path, each header, and an empty
/// line for the body-omission field.
pub open spec fn signed_values(
    method: Seq<u8>,
    path: Seq<u8>,
    values: Seq<Seq<u8>>,
    omit_body: bool,
) -> Seq<Seq<u8>> {
    seq![method, path] + values + if omit_body {
        seq![Seq::<u8>::empty()]
    } else {
        Seq::empty()
    }
}

pub open spec fn header_names(headers: Seq<(&str, &[u8])>) -> Seq<Seq<char>> {
    headers.map_values(|p: (&str, &[u8])| p.0@)
}

pub open spec fn header_values(headers: Seq<(&str, &[u8])>) -> Seq<Seq<u8>> {
    headers.map_values(|p: (&str, &[u8])| p.1@)
}

pub open spec fn body_view(body: Option<&[u8]>) -> Option<Seq<u8>> {
    match body {
        Some(b) => Some(b@),
        None => None,
    }
}

/// Whether signing at `now` has a window: the tolerance does not reach
/// before the epoch and the window's length fits in 64 bits.
pub open spec fn window_fits(now: u64, duration: u64, time_tolerance: u64) -> bool {
    now >= time_tolerance && duration + time_tolerance <= u64::MAX
}

/// The header value that `sign` produces when `window_fits` holds.
pub open spec fn signed_header(
    headers: Seq<(&str, &[u8])>,
    method: Seq<char>,
    path: Seq<char>,
    body: Option<Seq<u8>>,
    duration: u64,
    time_tolerance: u64,
    key: u32,
    secret: Seq<u8>,
    now: u64,
) -> Seq<char> {
    let start = (now - time_tolerance) as u64;
    let window = (duration + time_tolerance) as u64;
    let text = param_text(start, window, key, header_names(headers), body is None);
    let msg = canonical(
        text,
        signed_values(encode_utf8(method), encode_utf8(path), header_values(headers), body is None),
        body,
    );
    text + ", sig="@ + b64url_encoding(ed25519_signature(secret, msg))
}

/// Generates the `authorization` header for an HTTP request at the time
/// `now` (seconds since the epoch): the window starts `time_tolerance`
/// seconds before `now` and lasts `duration + time_tolerance` seconds. The
/// `headers` are signed in the order given; a `body` of `None` is left out of
/// the signature, and the header says so.
pub fn sign(
    headers: &[(&str, &[u8])],
    method: &str,
    path: &str,
    body: Option<&[u8]>,
    duration: u64,
    time_tolerance: u64,
    key: u32,
    privkey: &ed25519_dalek::SecretKey,
    now: u64,
) -> (r: Result<String, Error>)
    ensures
        !window_fits(now, duration, time_tolerance) ==> r == Err::<String, Error>(Error::Time),
        window_fits(now, duration, time_tolerance) ==> (r matches Ok(s) && s@ == signed_header(
            headers@,
            method@,
            path@,
            body_view(body),
            duration,
            time_tolerance,
            key,
            privkey@,
            now,
        )),
{
    if now < time_tolerance || duration > u64::MAX - time_tolerance {
        return Err(Error::Time);
    }
    let start = now - time_tolerance;
    let window = duration + time_tolerance;
    let omit_body = body.is_none();
    let ghost names = header_names(headers@);
    let ghost hvals = header_values(headers@);

    let mut auth = String::new();
    auth.append("alpico time=");
    push_dec(&mut auth, start);
    auth.append("+");
    push_dec(&mut auth, window);
    auth.append(", key=");
    push_dec(&mut auth, key as u64);
    let mut values: Vec<Vec<u8>> = Vec::new();
    let mut mv: Vec<u8> = Vec::new();
    push_bytes(&mut mv, method.as_bytes());
    values.push(mv);
    let mut pv: Vec<u8> = Vec::new();
    push_bytes(&mut pv, path.as_bytes());
    values.push(pv);
    let ghost base = auth@;
    let mut fields = String::new();
    let mut i: usize = 0;
    assert(names.subrange(0, 0) =~= Seq::<Seq<char>>::empty());
    assert(values_view(values@) =~= seq![encode_utf8(method@), encode_utf8(path@)]);
    while i < headers.len()
        invariant
            i <= headers@.len(),
            names == header_names(headers@),
            hvals == header_values(headers@),
            fields@ == joined(names.subrange(0, i as int)),
            values_view(values@) == seq![encode_utf8(method@), encode_utf8(path@)]
                + hvals.subrange(0, i as int),
        decreases headers@.len() - i,
    {
        let (name, value) = headers[i];
        fields.append("+");
        fields.append(name);
        let mut v: Vec<u8> = Vec::new();
        push_bytes(&mut v, value);
        let ghost vs0 = values_view(values@);
        let ghost vv = v@;
        values.push(v);
        assert(hvals[i as int] == value@);
        let ghost ns = names.subrange(0, i + 1);
        assert(ns.drop_last() =~= names.subrange(0, i as int));
        assert(ns.last() == name@);
        assert(values_view(values@) =~= vs0.push(vv));
        i = i + 1;
        assert(values_view(values@) =~= seq![encode_utf8(method@), encode_utf8(path@)]
            + hvals.subrange(0, i as int));
    }
    assert(names.subrange(0, headers@.len() as int) =~= names);
    assert(hvals.subrange(0, headers@.len() as int) =~= hvals);
    if headers.len() > 0 || omit_body {
        auth.append(", add=-method+-path");
        auth.append(fields.as_str());
        if omit_body {
            auth.append("+-nobody");
            values.push(Vec::new());
        }
    }
    assert(auth@ =~= param_text(start, window, key, names, omit_body));
    assert(values_view(values@) =~= signed_values(
        encode_utf8(method@),
        encode_utf8(path@),
        hvals,
        omit_body,
    ));
    let message = canonical_message(auth.as_str(), &values, body);
    let signature = sign_message(privkey, message.as_slice());
    let encoded = encode_b64url(&signature);
    auth.append(", sig=");
    auth.append(encoded.as_str());
    Ok(auth)
}

/// `ceil(duration / 10)`, the default clock tolerance.
pub open spec fn default_tolerance(duration: u64) -> u64 {
    (duration / 10 + if duration % 10 == 0 { 0u64 } else { 1u64 }) as u64
}

/// Simple struture for saving configuration options on how to sign the messages.
pub struct Signer {
    /// The secret key with which each message is signed.
    privkey: ed25519_dalek::SecretKey,
    /// The key number that the verifier looks the public key up by.
    key: u32,
    /// The duration in seconds for how long each message should be valid for.
    duration: u64,
    /// A tolerance in seconds which accounts for mismatches between client and sever time.
    time_tolerance: u64,
    /// Whether to sign over the body as well. This should be turned off for file uploads.
    body: bool,
}

/// What a `Signer` holds.
pub struct SignerView {
    pub secret: Seq<u8>,
    pub key: u32,
    pub duration: u64,
    pub time_tolerance: u64,
    pub body: bool,
}

impl View for Signer {
    type V = SignerView;

    closed spec fn view(&self) -> SignerView {
        SignerView {
            secret: self.privkey@,
            key: self.key,
            duration: self.duration,
            time_tolerance: self.time_tolerance,
            body: self.body,
        }
    }
}

impl Signer {
    /// Construct a new signer, with a time tolerance of `duration / 10`
    /// rounded up.
    pub fn new(privkey: ed25519_dalek::SigningKey, key: u32, duration: u64, body: bool) -> (r: Self)
        ensures
            r@.key == key,
            r@.duration == duration,
            r@.time_tolerance == default_tolerance(duration),
            r@.body == body,
    {
        let tolerance = duration / 10 + if duration % 10 == 0 { 0 } else { 1 };
        Signer { privkey: privkey.to_bytes(), key, duration, time_tolerance: tolerance, body }
    }

    /// Construct a new signer.
    pub fn new_with_tolerance(
        privkey: ed25519_dalek::SigningKey,
        key: u32,
        duration: u64,
        time_tolerance: u64,
        body: bool,
    ) -> (r: Self)
        ensures
            r@.key == key,
            r@.duration == duration,
            r@.time_tolerance == time_tolerance,
            r@.body == body,
    {
        Signer { privkey: privkey.to_bytes(), key, duration, time_tolerance, body }
    }

    pub fn key(&self) -> (r: u32)
        ensures
            r == self@.key,
    {
        self.key
    }

    pub fn duration(&self) -> (r: u64)
        ensures
            r == self@.duration,
    {
        self.duration
    }

    pub fn time_tolerance(&self) -> (r: u64)
        ensures
            r == self@.time_tolerance,
    {
        self.time_tolerance
    }

    pub fn includes_body(&self) -> (r: bool)
        ensures
            r == self@.body,
    {
        self.body
    }

    /// The `authorization` header value for a request at time `now`; the
    /// body is signed only where this signer includes bodies.
    pub fn authorization(
        &self,
        headers: &[(&str, &[u8])],
        method: &str,
        path: &str,
        body: Option<&[u8]>,
        now: u64,
    ) -> (r: Result<String, Error>)
        ensures
            !window_fits(now, self@.duration, self@.time_tolerance) ==> r == Err::<String, Error>(
                Error::Time,
            ),
            window_fits(now, self@.duration, self@.time_tolerance) ==> (r matches Ok(s) && s@
                == signed_header(
                headers@,
                method@,
                path@,
                if self@.body {
                    body_view(body)
                } else {
                    None
                },
                self@.duration,
                self@.time_tolerance,
                self@.key,
                self@.secret,
                now,
            )),
    {
        let b = if self.body {
            body
        } else {
            None
        };
        sign(headers, method, path, b, self.duration, self.time_tolerance, self.key, &self.privkey, now)
    }
}

} // verus!
