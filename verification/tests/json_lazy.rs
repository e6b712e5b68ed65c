use mik_sdk::json::decimal::{read_decimal, IntReading};
use mik_sdk::json::lazy;
use mik_sdk::json::try_parse;

#[test]
fn test_lazy_empty_path_on_object() {
    let json = br#"{"key": "value"}"#;
    assert!(lazy::path_exists(json, &[]));
}

#[test]
fn test_lazy_empty_path_on_string() {
    let json = br#""hello""#;
    assert!(lazy::path_exists(json, &[]));
}

#[test]
fn test_lazy_empty_path_on_number() {
    let json = br"42";
    assert!(lazy::path_exists(json, &[]));
}

#[test]
fn test_lazy_path_on_array_root() {
    let json = br"[1, 2, 3]";
    assert_eq!(lazy::path_str(json, &["key"]), None);
    assert_eq!(lazy::path_int(json, &["0"]), IntReading::NotInteger);
}

#[test]
fn test_lazy_path_on_string_root() {
    let json = br#""hello""#;
    assert_eq!(lazy::path_str(json, &["key"]), None);
}

#[test]
fn test_lazy_path_on_number_root() {
    let json = br"42";
    assert_eq!(lazy::path_int(json, &["key"]), IntReading::NotInteger);
}

#[test]
fn test_lazy_unterminated_string_value() {
    let json = br#"{"key": "hello"#;
    assert_eq!(lazy::path_str(json, &["key"]), None);
}

#[test]
fn test_lazy_unterminated_string_key() {
    let json = br#"{"key: "value"}"#;
    assert_eq!(lazy::path_str(json, &["key"]), None);
}

#[test]
fn test_lazy_missing_colon() {
    let json = br#"{"key" "value"}"#;
    assert_eq!(lazy::path_str(json, &["key"]), None);
}

#[test]
fn test_lazy_wrong_separator() {
    let json = br#"{"key"; "value"}"#;
    assert_eq!(lazy::path_str(json, &["key"]), None);
}

#[test]
fn test_lazy_invalid_true_literal() {
    let json = br#"{"flag": tru}"#;
    assert_eq!(lazy::path_bool(json, &["flag"]), None);
}

#[test]
fn test_lazy_invalid_false_literal() {
    let json = br#"{"flag": fals}"#;
    assert_eq!(lazy::path_bool(json, &["flag"]), None);
}

#[test]
fn test_lazy_invalid_null_literal() {
    let json = br#"{"val": nul}"#;
    assert!(!lazy::path_is_null(json, &["val"]));
}

#[test]
fn test_lazy_unbalanced_object() {
    let json = br#"{"key": {"nested": 1}"#;
    assert_eq!(lazy::path_int(json, &["key", "nested"]), IntReading::Int(1));
}

#[test]
fn test_lazy_unbalanced_array() {
    let json = br#"{"arr": [1, 2, 3}"#;
    assert_eq!(lazy::path_str(json, &["other"]), None);
}

#[test]
fn test_lazy_int_from_float_with_fraction() {
    let json = br#"{"num": 42.5}"#;
    assert_eq!(lazy::path_int(json, &["num"]), IntReading::NotInteger);
}

#[test]
fn test_lazy_int_from_float_whole_number() {
    let json = br#"{"num": 42.0}"#;
    assert_eq!(lazy::path_int(json, &["num"]), IntReading::Int(42));
}

#[test]
fn test_decimal_reading() {
    assert_eq!(read_decimal(b"42.0"), IntReading::Int(42));
    assert_eq!(read_decimal(b"4.2e1"), IntReading::Int(42));
    assert_eq!(read_decimal(b"12.5E+1"), IntReading::Int(125));
    assert_eq!(read_decimal(b"100e-2"), IntReading::Int(1));
    assert_eq!(read_decimal(b"-0.0"), IntReading::Int(0));
    assert_eq!(read_decimal(b"+3.000"), IntReading::Int(3));
    assert_eq!(read_decimal(b"1."), IntReading::Int(1));
    assert_eq!(read_decimal(b"-7e0"), IntReading::Int(-7));
    assert_eq!(read_decimal(b"9007199254740992.0"), IntReading::Int(9007199254740992));
    assert_eq!(read_decimal(b"-9.007199254740992e15"), IntReading::Int(-9007199254740992));
    assert_eq!(read_decimal(b"9007199254740994.0"), IntReading::NotInteger);
    assert_eq!(read_decimal(b"1e16"), IntReading::NotInteger);
    assert_eq!(read_decimal(b"1.5"), IntReading::NotInteger);
    assert_eq!(read_decimal(b"15e-1"), IntReading::NotInteger);
    assert_eq!(read_decimal(b"0e99999999999999999999999999"), IntReading::Int(0));
    assert_eq!(read_decimal(b"1e99999999999999999999999999"), IntReading::NotInteger);
    assert_eq!(read_decimal(b"5e"), IntReading::NotInteger);
    assert_eq!(read_decimal(b"."), IntReading::NotInteger);
    assert_eq!(read_decimal(b"1.2.3"), IntReading::NotInteger);
    assert_eq!(read_decimal(b"inf"), IntReading::NotInteger);
    // Only the rounding of an f64 decides these.
    assert_eq!(read_decimal(b"1e-400"), IntReading::NeedsFloat);
    assert_eq!(read_decimal(b"1e-99999999999999999999999999"), IntReading::NeedsFloat);
    assert_eq!(read_decimal(b"1.00000000000000001"), IntReading::NeedsFloat);
    assert_eq!(read_decimal(b"9007199254740993.0"), IntReading::NeedsFloat);
    assert_eq!(read_decimal(b"0.5000000000000000000000"), IntReading::NeedsFloat);
}

#[test]
fn test_json_value_path_int_reads_whole_floats() {
    let v = try_parse(br#"{"a": {"n": 42.0, "m": 42.5, "e": 2e3}}"#).unwrap();
    assert_eq!(v.path_int(&["a", "n"]), IntReading::Int(42));
    assert_eq!(v.path_int(&["a", "m"]), IntReading::NotInteger);
    assert_eq!(v.path_int(&["a", "e"]), IntReading::Int(2000));
    assert_eq!(v.path_int_or(&["a", "m"], -1), Some(-1));
}

#[test]
fn test_unescape_backspace() {
    let json = br#"{"msg": "hello\bworld"}"#;
    let result = lazy::path_str(json, &["msg"]);
    assert_eq!(result, Some("hello\x08world".to_string()));
}

#[test]
fn test_unescape_formfeed() {
    let json = br#"{"msg": "hello\fworld"}"#;
    let result = lazy::path_str(json, &["msg"]);
    assert_eq!(result, Some("hello\x0Cworld".to_string()));
}

#[test]
fn test_unescape_unicode_valid() {
    let json = br#"{"msg": "\u0041\u0042\u0043"}"#;
    let result = lazy::path_str(json, &["msg"]);
    assert_eq!(result, Some("ABC".to_string()));
}

#[test]
fn test_unescape_unicode_invalid_hex() {
    let json = br#"{"msg": "\uXXXX"}"#;
    let result = lazy::path_str(json, &["msg"]);
    assert!(result.is_none());
}

#[test]
fn test_unescape_keeps_utf8_text() {
    let json = "{\"msg\": \"caf\u{e9}\\n\u{65e5}\\u0041\"}";
    let result = lazy::path_str(json.as_bytes(), &["msg"]);
    assert_eq!(result, Some("caf\u{e9}\n\u{65e5}A".to_string()));
    assert_eq!(lazy::unescape_string("\u{e9}\\n".as_bytes()), Some("\u{e9}\n".to_string()));
    assert_eq!(lazy::unescape_string(b"a\\q"), Some("a\\q".to_string()));
    assert_eq!(lazy::unescape_string(&[0x5c, 0x6e, 0xff]), None);
    assert_eq!(lazy::unescape_string("h\u{e9} \u{1F600}".as_bytes()), Some("h\u{e9} \u{1F600}".to_string()));
    assert_eq!(lazy::unescape_string(&[0x68, 0xc3]), None);
}

#[test]
fn test_unescape_unicode_incomplete() {
    let json = br#"{"msg": "\u00"}"#;
    let result = lazy::path_str(json, &["msg"]);
    let _ = result;
}

#[test]
fn test_path_str_simple() {
    let json = br#"{"name": "Alice", "age": 30}"#;
    assert_eq!(lazy::path_str(json, &["name"]), Some("Alice".to_string()));
}

#[test]
fn test_path_str_nested() {
    let json = br#"{"user": {"name": "Bob", "id": 7}}"#;
    assert_eq!(lazy::path_str(json, &["user", "name"]), Some("Bob".to_string()));
    assert_eq!(lazy::path_int(json, &["user", "id"]), IntReading::Int(7));
}

#[test]
fn test_path_skips_arrays_and_objects() {
    let json = br#"{"a": [1, {"x": "]"}, "}"], "b": {"c": {"d": 1}}, "target": true}"#;
    assert_eq!(lazy::path_bool(json, &["target"]), Some(true));
    assert_eq!(lazy::path_int(json, &["b", "c", "d"]), IntReading::Int(1));
}

#[test]
fn test_path_negative_and_overflow_int() {
    let json = br#"{"n": -17, "big": 9223372036854775808, "min": -9223372036854775808}"#;
    assert_eq!(lazy::path_int(json, &["n"]), IntReading::Int(-17));
    assert_eq!(lazy::path_int(json, &["big"]), IntReading::NotInteger);
    assert_eq!(lazy::path_int(json, &["min"]), IntReading::Int(i64::MIN));
}

#[test]
fn test_path_null_and_exists() {
    let json = br#"{"v": null, "w": 0}"#;
    assert!(lazy::path_is_null(json, &["v"]));
    assert!(lazy::path_exists(json, &["v"]));
    assert!(!lazy::path_is_null(json, &["w"]));
    assert!(!lazy::path_exists(json, &["missing"]));
}

#[test]
fn test_escaped_key_matches() {
    let json = br#"{"a\"b": 5, "tab\tkey": "x"}"#;
    assert_eq!(lazy::path_int(json, &["a\"b"]), IntReading::Int(5));
    assert_eq!(lazy::path_str(json, &["tab\tkey"]), Some("x".to_string()));
}

#[test]
fn test_number_text_for_floats() {
    let json = br#"{"f": 3.25 }"#;
    assert_eq!(lazy::path_number_text(json, &["f"]), Some("3.25".to_string()));
}

#[test]
fn test_json_value_path_accessors() {
    let v = try_parse(b"{\"user\":{\"name\":\"Alice\",\"age\":30,\"active\":true}}").unwrap();
    assert_eq!(v.path_str(&["user", "name"]), Some("Alice".to_string()));
    assert_eq!(v.path_str(&["user", "missing"]), None);
    assert_eq!(v.path_int(&["user", "age"]), IntReading::Int(30));
    assert_eq!(v.path_bool(&["user", "active"]), Some(true));
    assert!(v.path_exists(&["user"]));
    assert!(!v.path_is_null(&["user"]));
}
