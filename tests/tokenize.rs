use query_decode::{decode_query_string, QueryMap};

fn value_of<'a>(m: &'a QueryMap, key: &str) -> Option<&'a str> {
    m.get(key).map(|v| v.as_str())
}

#[test]
fn two_pairs() {
    let m = decode_query_string(b"a=1&b=2");
    assert_eq!(m.len(), 2);
    assert_eq!(value_of(&m, "a"), Some("1"));
    assert_eq!(value_of(&m, "b"), Some("2"));
}

#[test]
fn flag_with_empty_value() {
    let m = decode_query_string(b"flag=");
    assert_eq!(m.len(), 1);
    assert_eq!(value_of(&m, "flag"), Some(""));
}

#[test]
fn segment_without_equals_dropped() {
    let m = decode_query_string(b"novalue");
    assert_eq!(m.len(), 0);
    assert_eq!(value_of(&m, "novalue"), None);
}

#[test]
fn third_fragment_truncated() {
    let m = decode_query_string(b"a=1=2");
    assert_eq!(m.len(), 1);
    assert_eq!(value_of(&m, "a"), Some("1"));
}

#[test]
fn later_key_wins() {
    let m = decode_query_string(b"x=1&x=2");
    assert_eq!(m.len(), 1);
    assert_eq!(value_of(&m, "x"), Some("2"));
}

#[test]
fn empty_buffer_gives_empty_map() {
    let m = decode_query_string(b"");
    assert_eq!(m.len(), 0);
}

#[test]
fn unparsable_buffer_gives_empty_map() {
    let m = decode_query_string(b"&&abc&def&");
    assert_eq!(m.len(), 0);
}

#[test]
fn keys_and_values_trimmed() {
    let m = decode_query_string(b" a \t= 1\r\n&b=  two words ");
    assert_eq!(m.len(), 2);
    assert_eq!(value_of(&m, "a"), Some("1"));
    assert_eq!(value_of(&m, "b"), Some("two words"));
}

#[test]
fn invalid_utf8_replaced() {
    let m = decode_query_string(b"k=\xff");
    assert_eq!(value_of(&m, "k"), Some("\u{FFFD}"));
}

#[test]
fn valid_utf8_kept() {
    let m = decode_query_string("n=caf\u{e9}".as_bytes());
    assert_eq!(value_of(&m, "n"), Some("caf\u{e9}"));
}

#[test]
fn empty_key_and_trailing_separator() {
    let m = decode_query_string(b"=v&k=w&");
    assert_eq!(m.len(), 2);
    assert_eq!(value_of(&m, ""), Some("v"));
    assert_eq!(value_of(&m, "k"), Some("w"));
}

#[test]
fn escapes_left_raw() {
    let m = decode_query_string(b"name=Wing+Gundam&pilot=Heero%20Yuy");
    assert_eq!(value_of(&m, "name"), Some("Wing+Gundam"));
    assert_eq!(value_of(&m, "pilot"), Some("Heero%20Yuy"));
}

#[test]
fn entries_in_first_insertion_order() {
    let m = decode_query_string(b"b=1&a=2&b=3");
    assert_eq!(m.len(), 2);
    assert_eq!(m.key_at(0).as_str(), "b");
    assert_eq!(m.value_at(0).as_str(), "3");
    assert_eq!(m.key_at(1).as_str(), "a");
    assert_eq!(m.value_at(1).as_str(), "2");
}

#[test]
fn map_insert_overwrites() {
    let mut m = QueryMap::new();
    m.insert("k".to_string(), "1".to_string());
    m.insert("j".to_string(), "2".to_string());
    m.insert("k".to_string(), "3".to_string());
    assert_eq!(m.len(), 2);
    assert_eq!(value_of(&m, "k"), Some("3"));
    assert_eq!(value_of(&m, "j"), Some("2"));
    assert_eq!(value_of(&m, "x"), None);
}

#[test]
fn token_pairs_in_order() {
    let buffer: &[u8] = b"a=1=2&skip&c=&=d&a=3";
    let pairs = query_decode::token_pairs(buffer);
    let expected: Vec<(&[u8], &[u8])> =
        vec![(b"a", b"1"), (b"c", b""), (b"", b"d"), (b"a", b"3")];
    assert_eq!(pairs, expected);
}

#[test]
fn token_pairs_keep_raw_bytes() {
    let pairs = query_decode::token_pairs(b" k = %20v ");
    let expected: Vec<(&[u8], &[u8])> = vec![(b" k ", b" %20v ")];
    assert_eq!(pairs, expected);
}

#[test]
fn trimmed_ascii_whitespace_only() {
    assert_eq!(query_decode::text::trimmed(" \t\r\n\x0cab c\n "), "ab c");
    assert_eq!(query_decode::text::trimmed("\u{a0}x\u{a0}"), "\u{a0}x\u{a0}");
    assert_eq!(query_decode::text::trimmed("   "), "");
}
