use query_decode::{decode_urlencoded, DecodeError};

fn dec(s: &str) -> Result<String, DecodeError> {
    decode_urlencoded(s.to_string())
}

#[test]
fn plus_becomes_space() {
    assert_eq!(dec("Wing+Gundam"), Ok("Wing Gundam".to_string()));
}

#[test]
fn escaped_space() {
    assert_eq!(dec("Heero%20Yuy"), Ok("Heero Yuy".to_string()));
}

#[test]
fn three_byte_sequence() {
    assert_eq!(dec("%e4%bd%a0"), Ok("\u{4F60}".to_string()));
}

#[test]
fn two_byte_sequence_either_case() {
    assert_eq!(dec("caf%c3%a9"), Ok("caf\u{e9}".to_string()));
    assert_eq!(dec("caf%C3%A9"), Ok("caf\u{e9}".to_string()));
}

#[test]
fn four_byte_sequence() {
    assert_eq!(dec("%f0%9f%98%80!"), Ok("\u{1F600}!".to_string()));
}

#[test]
fn ascii_escape() {
    assert_eq!(dec("%41%2b%25"), Ok("A+%".to_string()));
}

#[test]
fn lone_percent() {
    assert_eq!(dec("%"), Err(DecodeError::MalformedEscape));
    assert_eq!(dec("ab%4"), Err(DecodeError::MalformedEscape));
}

#[test]
fn non_hex_digits() {
    assert_eq!(dec("%zz"), Err(DecodeError::MalformedEscape));
}

#[test]
fn bad_continuation() {
    assert_eq!(dec("%c3%28"), Err(DecodeError::InvalidContinuation));
}

#[test]
fn illegal_lead_byte() {
    assert_eq!(dec("%ff"), Err(DecodeError::InvalidLeadByte));
    assert_eq!(dec("%80"), Err(DecodeError::InvalidLeadByte));
}

#[test]
fn missing_continuation() {
    assert_eq!(dec("%c3"), Err(DecodeError::TruncatedSequence));
    assert_eq!(dec("%e4%bd"), Err(DecodeError::TruncatedSequence));
    assert_eq!(dec("%c3x"), Err(DecodeError::TruncatedSequence));
    assert_eq!(dec("%c3%a"), Err(DecodeError::TruncatedSequence));
}

#[test]
fn malformed_continuation_escape() {
    assert_eq!(dec("%c3%zz"), Err(DecodeError::MalformedEscape));
}

#[test]
fn surrogate_rejected() {
    assert_eq!(dec("%ed%a0%80"), Err(DecodeError::InvalidCodepoint));
}

#[test]
fn beyond_unicode_rejected() {
    assert_eq!(dec("%f4%90%80%80"), Err(DecodeError::InvalidCodepoint));
}

#[test]
fn plain_text_unchanged() {
    assert_eq!(dec("hello world \u{fc}"), Ok("hello world \u{fc}".to_string()));
    assert_eq!(dec(""), Ok(String::new()));
}
