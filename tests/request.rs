use query_decode::{decode_request, DecodeError};

#[test]
fn request_fully_decoded() {
    let m = decode_request(b"name=Wing+Gundam&pilot=Heero%20Yuy").unwrap();
    assert_eq!(m.len(), 2);
    assert_eq!(m.get("name").map(|v| v.as_str()), Some("Wing Gundam"));
    assert_eq!(m.get("pilot").map(|v| v.as_str()), Some("Heero Yuy"));
}

#[test]
fn request_keys_decoded() {
    let m = decode_request(b"caf%c3%a9=%e4%bd%a0").unwrap();
    assert_eq!(m.get("caf\u{e9}").map(|v| v.as_str()), Some("\u{4F60}"));
}

#[test]
fn request_one_bad_value_fails_all() {
    assert_eq!(decode_request(b"a=1&b=%zz&c=3").err(), Some(DecodeError::MalformedEscape));
}

#[test]
fn request_bad_key_fails_all() {
    assert_eq!(decode_request(b"%c3%28=1").err(), Some(DecodeError::InvalidContinuation));
}

#[test]
fn request_empty() {
    let m = decode_request(b"").unwrap();
    assert_eq!(m.len(), 0);
}
