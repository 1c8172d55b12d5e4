use kernel_fs::luks2::base64::base64_decode;
use kernel_fs::luks2::json::{json_find_object, json_find_string, parse_decimal};

#[test]
fn base64_decode_roundtrip() {
    let input = b"SGVsbG8gV29ybGQ=";
    let decoded = base64_decode(input).unwrap();
    assert_eq!(decoded, b"Hello World");
}

#[test]
fn base64_decode_empty() {
    assert_eq!(base64_decode(b"").unwrap(), b"");
}

#[test]
fn base64_decode_no_padding() {
    let input = b"SGVsbG8gV29ybGQ"; // without padding
    let decoded = base64_decode(input).unwrap();
    assert_eq!(decoded, b"Hello World");
}

#[test]
fn base64_decode_binary() {
    let input = b"////"; // 0xFF 0xFF 0xFF
    let decoded = base64_decode(input).unwrap();
    assert_eq!(decoded, &[0xFF, 0xFF, 0xFF]);
}

#[test]
fn json_find_string_works() {
    let json = br#"{"foo":"bar","baz":42}"#;
    assert_eq!(json_find_string(json, "foo"), Some(&b"bar"[..]));
}

#[test]
fn json_find_string_number() {
    let json = br#"{"count": 1234}"#;
    assert_eq!(json_find_string(json, "count"), Some(&b"1234"[..]));
}

#[test]
fn json_find_object_works() {
    let json = br#"{"outer":{"inner":"value"}}"#;
    let obj = json_find_object(json, "outer").unwrap();
    assert_eq!(obj, br#"{"inner":"value"}"#);
}

#[test]
fn parse_decimal_works() {
    assert_eq!(parse_decimal(b"12345"), Some(12345));
    assert_eq!(parse_decimal(b"0"), Some(0));
    assert_eq!(parse_decimal(b"9999999999999999"), Some(9999999999999999));
}
