use ap_auth::header::AuthHeader;
use ap_auth::sign::{sign, Error as SignError, Signer};
use ap_auth::verify::{check_signature, verify, Error, SignatureFault};

fn secret() -> [u8; 32] {
    [7u8; 32]
}

fn public() -> [u8; 32] {
    ed25519_dalek::SigningKey::from_bytes(&secret()).verifying_key().to_bytes()
}

fn run(auth: &str, method: &str, path: &str, body: &[u8], now: u64, extra: &[(&str, &str)]) -> Result<u32, Error<()>> {
    let pk = public();
    verify(
        method,
        path,
        body,
        now,
        |n: &str| {
            if n == "authorization" {
                Some(auth)
            } else {
                extra.iter().find(|(k, _)| *k == n).map(|(_, v)| *v)
            }
        },
        |k: u32| if k == 1 { Ok(pk) } else { Err(()) },
    )
}

#[test]
fn concrete_scenario() {
    let auth = sign(&[], "GET", "/x", Some(b""), 60, 6, 1, &secret(), 1000).unwrap();
    assert!(auth.starts_with("alpico time=994+66, key=1, sig="));
    assert_eq!(Ok(1), run(&auth, "GET", "/x", b"", 1005, &[]).map_err(|_| ()));
    assert!(matches!(run(&auth, "GET", "/x", b"", 1061, &[]), Err(Error::Time)));
}

#[test]
fn window_boundary() {
    let auth = sign(&[], "GET", "/x", Some(b""), 60, 6, 1, &secret(), 1000).unwrap();
    assert!(run(&auth, "GET", "/x", b"", 994, &[]).is_ok());
    assert!(run(&auth, "GET", "/x", b"", 1060, &[]).is_ok());
    assert!(matches!(run(&auth, "GET", "/x", b"", 993, &[]), Err(Error::Time)));
    assert!(matches!(run(&auth, "GET", "/x", b"", 1061, &[]), Err(Error::Time)));
}

#[test]
fn round_trip_with_headers_and_body() {
    let headers: [(&str, &[u8]); 2] = [("host", b"example.org"), ("x-id", b"42")];
    let auth = sign(&headers, "POST", "/a/b", Some(b"payload"), 30, 3, 1, &secret(), 5000).unwrap();
    let extra = [("host", "example.org"), ("x-id", "42")];
    assert_eq!(1, run(&auth, "POST", "/a/b", b"payload", 5010, &extra).unwrap());
    let h = AuthHeader::new(&auth).unwrap();
    assert_eq!(h.add, vec!["-method", "-path", "host", "x-id"]);
    assert_eq!(h.header, "alpico time=4997+33, key=1, add=-method+-path+host+x-id");
}

#[test]
fn omitted_body_is_not_checked() {
    let auth = sign(&[], "PUT", "/up", None, 30, 3, 1, &secret(), 5000).unwrap();
    assert!(auth.contains("add=-method+-path+-nobody"));
    assert_eq!(1, run(&auth, "PUT", "/up", b"any bytes", 5001, &[]).unwrap());
}

#[test]
fn tamper_sensitivity() {
    let headers: [(&str, &[u8]); 1] = [("x-id", b"42")];
    let auth = sign(&headers, "POST", "/p", Some(b"body"), 30, 3, 1, &secret(), 5000).unwrap();
    let extra = [("x-id", "42")];
    assert!(run(&auth, "POST", "/p", b"body", 5001, &extra).is_ok());
    assert!(matches!(run(&auth, "POST", "/p", b"bodz", 5001, &extra), Err(Error::Check)));
    assert!(matches!(run(&auth, "POSU", "/p", b"body", 5001, &extra), Err(Error::Check)));
    assert!(matches!(run(&auth, "POST", "/q", b"body", 5001, &extra), Err(Error::Check)));
    assert!(matches!(run(&auth, "POST", "/p", b"body", 5001, &[("x-id", "43")]), Err(Error::Check)));
    let sig_at = auth.find("sig=").unwrap() + 4;
    let mut bytes = auth.clone().into_bytes();
    bytes[sig_at] = if bytes[sig_at] == b'A' { b'B' } else { b'A' };
    let forged = String::from_utf8(bytes).unwrap();
    assert!(matches!(run(&forged, "POST", "/p", b"body", 5001, &extra), Err(Error::Check)));
}

#[test]
fn field_order_matters() {
    let ab: [(&str, &[u8]); 2] = [("a", b"1"), ("b", b"2")];
    let ba: [(&str, &[u8]); 2] = [("b", b"2"), ("a", b"1")];
    let s1 = sign(&ab, "GET", "/", Some(b""), 30, 3, 1, &secret(), 5000).unwrap();
    let s2 = sign(&ba, "GET", "/", Some(b""), 30, 3, 1, &secret(), 5000).unwrap();
    let sig1 = AuthHeader::new(&s1).unwrap().sig;
    let sig2 = AuthHeader::new(&s2).unwrap().sig;
    assert_ne!(sig1, sig2);
    let crossed = s1.replace(&sig1, &sig2);
    let extra = [("a", "1"), ("b", "2")];
    assert!(matches!(run(&crossed, "GET", "/", b"", 5001, &extra), Err(Error::Check)));
}

#[test]
fn key_rotation() {
    let auth = sign(&[], "GET", "/x", Some(b""), 60, 6, 1, &secret(), 1000).unwrap();
    let r: Result<u32, Error<&str>> = verify("GET", "/x", b"", 1001, |_: &str| Some(auth.as_str()), |_| Err("revoked"));
    assert!(matches!(r, Err(Error::Key("revoked"))));
    let pk = public();
    let r: Result<u32, Error<&str>> = verify("GET", "/x", b"", 1001, |_: &str| Some(auth.as_str()), |_| Ok(pk));
    assert!(matches!(r, Ok(1)));
}

#[test]
fn missing_header_is_a_header_error() {
    let r: Result<u32, Error<()>> = verify("GET", "/", b"", 0, |_: &str| None, |_| Err(()));
    assert!(matches!(r, Err(Error::Header("scheme unsupported"))));
}

#[test]
fn signature_faults() {
    let h = AuthHeader::new("alpico time=0+10, sig=@@").unwrap();
    let r: Result<u32, Error<()>> = check_signature(&h, Ok(public()), &vec![], b"");
    assert!(matches!(r, Err(Error::Signature(SignatureFault::Encoding))));
    let h = AuthHeader::new("alpico time=0+10, sig=AAAA").unwrap();
    let r: Result<u32, Error<()>> = check_signature(&h, Ok(public()), &vec![], b"");
    assert!(matches!(r, Err(Error::Signature(SignatureFault::Length))));
}

#[test]
fn invalid_public_key() {
    let h = AuthHeader::new("alpico time=0+10, sig=AAAA").unwrap();
    let mut bad = [0u8; 32];
    let mut b: u8 = 2;
    loop {
        bad[0] = b;
        if ed25519_dalek::VerifyingKey::from_bytes(&bad).is_err() {
            break;
        }
        b += 1;
    }
    let r: Result<u32, Error<()>> = check_signature(&h, Ok(bad), &vec![], b"");
    assert!(matches!(r, Err(Error::KeyValue)));
}

#[test]
fn sign_time_errors() {
    assert_eq!(Err(SignError::Time), sign(&[], "GET", "/", None, 10, 5, 0, &secret(), 4));
    assert_eq!(Err(SignError::Time), sign(&[], "GET", "/", None, u64::MAX, 1, 0, &secret(), 4));
    assert!(sign(&[], "GET", "/", None, 10, 5, 0, &secret(), 5).unwrap().starts_with("alpico time=0+15, key=0, add=-method+-path+-nobody, sig="));
}

#[test]
fn signature_is_base64url_of_64_bytes() {
    let auth = sign(&[], "GET", "/", Some(b""), 10, 0, 0, &secret(), 100).unwrap();
    let sig = AuthHeader::new(&auth).unwrap().sig;
    assert_eq!(sig.len(), 86);
    assert!(sig.chars().all(|c| c.is_ascii_alphanumeric() || c == '-' || c == '_'));
}

#[test]
fn signer_default_tolerance() {
    let k = ed25519_dalek::SigningKey::from_bytes(&secret());
    let s = Signer::new(k.clone(), 3, 61, true);
    assert_eq!(s.time_tolerance(), 7);
    assert_eq!(Signer::new(k.clone(), 3, 60, true).time_tolerance(), 6);
    assert_eq!(Signer::new(k.clone(), 3, 0, true).time_tolerance(), 0);
    let s = Signer::new_with_tolerance(k, 4, 60, 2, false);
    assert_eq!((s.key(), s.duration(), s.time_tolerance(), s.includes_body()), (4, 60, 2, false));
}

#[test]
fn signer_authorization_matches_sign() {
    let k = ed25519_dalek::SigningKey::from_bytes(&secret());
    let s = Signer::new(k, 1, 60, false);
    let a = s.authorization(&[], "GET", "/x", Some(b"zz"), 1000).unwrap();
    let b = sign(&[], "GET", "/x", None, 60, 6, 1, &secret(), 1000).unwrap();
    assert_eq!(a, b);
}
