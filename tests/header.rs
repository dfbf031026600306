use ap_auth::header::AuthHeader;

#[test]
fn test_scheme() {
    assert_eq!(Err("scheme unsupported"), AuthHeader::new(""));
    assert_eq!(Err("scheme unsupported"), AuthHeader::new("Bearer"));
    assert_eq!(Err("scheme unsupported"), AuthHeader::new("alpico"));
    assert_ne!(Err("scheme unsupported"), AuthHeader::new("alpico "));
    assert_ne!(Err("scheme unsupported"), AuthHeader::new("  alpico "));
}

#[test]
fn test_separator() {
    assert_eq!(Err("separator"), AuthHeader::new("alpico a"));
    assert_eq!(Err("separator"), AuthHeader::new("alpico ,"));
    assert_ne!(Err("separator"), AuthHeader::new("alpico add="));
    assert_eq!(Err("separator"), AuthHeader::new("alpico add=, bar"));
}

#[test]
fn test_params() {
    assert_eq!(Err("unknown param"), AuthHeader::new("alpico ="));
    assert_eq!(Err("unknown param"), AuthHeader::new("alpico dummy=1"));
    assert_eq!("foo", AuthHeader::new("alpico sig=foo").unwrap().sig);
    assert_eq!("foo", AuthHeader::new("alpico add=foo").unwrap().add[0]);
    assert_eq!(
        3,
        AuthHeader::new("alpico add=foo+bar+baz").unwrap().add.len()
    );
    assert_eq!(
        "bar",
        AuthHeader::new("alpico add=foo+bar+baz").unwrap().add[1]
    );
    assert_eq!(Err("time"), AuthHeader::new("alpico time=1"));
    assert_eq!(Err("start"), AuthHeader::new("alpico time=-4+1"));
    assert_eq!(Err("start"), AuthHeader::new("alpico time=b+1"));
    assert_eq!(Err("duration"), AuthHeader::new("alpico time=42+-1"));
    assert_eq!(Err("duration"), AuthHeader::new("alpico time=42+0b1"));
    assert_eq!(42, AuthHeader::new("alpico time=42+1").unwrap().start);
    assert_eq!(0, AuthHeader::new("alpico time=42+0").unwrap().duration);
    assert_eq!(12, AuthHeader::new("alpico time=42+12").unwrap().duration);
    assert_eq!(42, AuthHeader::new("alpico key=42, sig=").unwrap().key);
}

#[test]
fn test_signature_split() {
    assert_eq!(
        "alpico time=41+1",
        AuthHeader::new("alpico time=41+1,sig=foo").unwrap().header
    );
    assert_eq!(
        "alpico time=41+1 ,add=",
        AuthHeader::new("alpico time=41+1,sig=foo ,add=")
            .unwrap()
            .header
    );
    assert_eq!(
        "alpico sig=,add=",
        AuthHeader::new("alpico sig=foo,add=").unwrap().header
    );
}

#[test]
fn test_derived() {
    let mut x = AuthHeader::new("alpico add=-method+-path, sig=, time=0+0, key=0").unwrap();
    x.header = "alpico sig=".to_string();
    assert_eq!(x, AuthHeader::new("alpico sig=").unwrap());
    println!("{x:?}");
}

#[test]
fn default_fields_without_add() {
    let h = AuthHeader::new("alpico time=1+2").unwrap();
    assert_eq!(h.add, vec!["-method".to_string(), "-path".to_string()]);
    assert!(!h.omit_body);
    assert_eq!(h.key, 0);
}

#[test]
fn add_replaces_default_and_marks_omission() {
    let h = AuthHeader::new("alpico add=-method+-path+-nobody").unwrap();
    assert_eq!(h.add.len(), 3);
    assert!(h.omit_body);
}

#[test]
fn key_bounds() {
    assert_eq!(4294967295, AuthHeader::new("alpico key=4294967295").unwrap().key);
    assert_eq!(Err("key"), AuthHeader::new("alpico key=4294967296"));
    assert_eq!(Err("key"), AuthHeader::new("alpico key="));
    assert_eq!(7, AuthHeader::new("alpico key=+7").unwrap().key);
}

#[test]
fn time_bounds() {
    let h = AuthHeader::new("alpico time=18446744073709551615+0").unwrap();
    assert_eq!(h.start, u64::MAX);
    assert_eq!(Err("start"), AuthHeader::new("alpico time=18446744073709551616+0"));
    assert_eq!(Err("duration"), AuthHeader::new("alpico time=1+"));
    assert_eq!(3, AuthHeader::new("alpico time=1++3").unwrap().duration);
}

#[test]
fn whitespace_is_trimmed() {
    let h = AuthHeader::new("\t alpico  time = 5+6 ,  key =  9 ").unwrap();
    assert_eq!((h.start, h.duration, h.key), (5, 6, 9));
}

#[test]
fn residual_keeps_text_after_signature() {
    let h = AuthHeader::new("alpico time=1+2, sig=abc, key=3").unwrap();
    assert_eq!(h.header, "alpico time=1+2, key=3");
    assert_eq!(h.sig, "abc");
}
