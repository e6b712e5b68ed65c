use mik_sdk::json::{json_depth_exceeds_limit, try_parse, try_parse_full};

#[test]
fn test_depth_check_with_escape_in_string() {
    let json = br#"{"key": "value\\\"more"}"#;
    assert!(!json_depth_exceeds_limit(json));
}

#[test]
fn test_depth_check_empty_input() {
    assert!(!json_depth_exceeds_limit(&[]));
}

#[test]
fn test_depth_check_no_nesting() {
    let json = br#""just a string""#;
    assert!(!json_depth_exceeds_limit(json));
}

#[test]
fn test_depth_check_closing_without_opening() {
    let json = b"}}}";
    assert!(!json_depth_exceeds_limit(json));
}

#[test]
fn test_depth_exactly_at_limit_and_over() {
    let at_limit = format!("{}{}", "[".repeat(20), "]".repeat(20));
    assert!(!json_depth_exceeds_limit(at_limit.as_bytes()));
    let over = format!("{}{}", "[".repeat(21), "]".repeat(21));
    assert!(json_depth_exceeds_limit(over.as_bytes()));
}

#[test]
fn test_brackets_in_strings_do_not_count() {
    let json = format!("{{\"k\": \"{}\"}}", "[".repeat(50));
    assert!(!json_depth_exceeds_limit(json.as_bytes()));
}

#[test]
fn test_try_parse_limits() {
    assert!(try_parse(b"{\"a\": 1}").is_some());
    let deep = format!("{}{}", "{\"a\":".repeat(21), "}".repeat(21));
    assert!(try_parse(deep.as_bytes()).is_none());
    assert!(try_parse(&[0xff, 0xfe]).is_none());
    let big = vec![b' '; 1_000_001];
    assert!(try_parse(&big).is_none());
    let mut ok = vec![b' '; 1_000_000];
    ok[0] = b'1';
    assert!(try_parse(&ok).is_some());
    assert!(try_parse(b"").is_some());
    assert!(try_parse(b"   ").is_some());
    assert!(try_parse(b"{\"a\":1").is_some());
    assert!(try_parse(b"garbage").is_some());
}

#[test]
fn test_try_parse_keeps_bytes() {
    let v = try_parse(b"{\"a\": [1, 2]}").unwrap();
    assert_eq!(v.bytes(), Some(&b"{\"a\": [1, 2]}"[..]));
}

#[test]
fn test_try_parse_rejects_trailing_garbage_object() {
    let json = br#"{"key": "value"}garbage"#;
    assert!(try_parse(json).is_none());
}

#[test]
fn test_try_parse_rejects_trailing_garbage_array() {
    let json = br"[1, 2, 3]extra";
    assert!(try_parse(json).is_none());
}

#[test]
fn test_try_parse_rejects_trailing_garbage_string() {
    let json = br#""hello"world"#;
    assert!(try_parse(json).is_none());
}

#[test]
fn test_try_parse_rejects_trailing_garbage_number() {
    let json = br"42garbage";
    assert!(try_parse(json).is_none());
}

#[test]
fn test_try_parse_rejects_trailing_garbage_boolean() {
    let json = br"truefoo";
    assert!(try_parse(json).is_none());
    let json = br"falsebar";
    assert!(try_parse(json).is_none());
}

#[test]
fn test_try_parse_rejects_trailing_garbage_null() {
    let json = br"nullextra";
    assert!(try_parse(json).is_none());
}

#[test]
fn test_try_parse_accepts_trailing_whitespace_object() {
    let json = br#"{"key": "value"}   "#;
    assert!(try_parse(json).is_some());
}

#[test]
fn test_try_parse_accepts_trailing_whitespace_various() {
    let json = b"{\"key\": \"value\"}\n\t\r ";
    assert!(try_parse(json).is_some());
}

#[test]
fn test_try_parse_accepts_no_trailing_content() {
    let json = br#"{"key": "value"}"#;
    assert!(try_parse(json).is_some());
}

#[test]
fn test_try_parse_full_rejects_trailing_garbage_object() {
    let json = br#"{"key": "value"}garbage"#;
    assert!(try_parse_full(json).is_none());
}

#[test]
fn test_try_parse_full_rejects_trailing_garbage_array() {
    let json = br"[1, 2, 3]extra";
    assert!(try_parse_full(json).is_none());
}

#[test]
fn test_try_parse_full_accepts_trailing_whitespace() {
    let json = br#"{"key": "value"}   "#;
    assert!(try_parse_full(json).is_some());
}

#[test]
fn test_try_parse_rejects_multiple_json_values() {
    let json = br#"{"a":1}{"b":2}"#;
    assert!(try_parse(json).is_none());
}

#[test]
fn test_try_parse_rejects_json_followed_by_json() {
    let json = br#"{"key": "value"}
{"key2": "value2"}"#;
    assert!(try_parse(json).is_none());
}

#[test]
fn test_try_parse_accepts_leading_whitespace() {
    let json = br#"   {"key": "value"}"#;
    assert!(try_parse(json).is_some());
}

#[test]
fn test_try_parse_accepts_leading_and_trailing_whitespace() {
    let json = br#"   {"key": "value"}   "#;
    assert!(try_parse(json).is_some());
}

#[test]
fn test_try_parse_rejects_comment_after_json() {
    let json = br#"{"key": "value"} // comment"#;
    assert!(try_parse(json).is_none());
}

#[test]
fn test_try_parse_nested_object_trailing_garbage() {
    let json = br#"{"outer": {"inner": "value"}}garbage"#;
    assert!(try_parse(json).is_none());
}

#[test]
fn test_try_parse_nested_array_trailing_garbage() {
    let json = br"[[1, 2], [3, 4]]extra";
    assert!(try_parse(json).is_none());
}

#[test]
fn test_try_parse_string_with_quotes_trailing_garbage() {
    let json = br#"{"msg": "hello \"world\""}extra"#;
    assert!(try_parse(json).is_none());
}

#[test]
fn test_try_parse_scientific_notation_trailing_garbage() {
    let json = br#"{"n": 1.23e+10}garbage"#;
    assert!(try_parse(json).is_none());
}

#[test]
fn test_try_parse_negative_number_trailing_garbage() {
    let json = br"-42garbage";
    assert!(try_parse(json).is_none());
}
