use mik_sdk::json::decimal::IntReading;
use mik_sdk::json::tree::{RawNumber, RawValue};
use mik_sdk::json::{
    arr, bool, integer, null, obj, raw_bool, raw_int, raw_is_null, raw_str, str, try_parse, try_parse_full,
    JsonValue, ToJson,
};

#[test]
fn test_builders_and_readers() {
    let v = obj()
        .set("name", str("Alice"))
        .set("age", integer(30))
        .set("admin", bool(true))
        .set("nothing", null());
    assert_eq!(v.get("name").str(), Some("Alice".to_string()));
    assert_eq!(v.get("age").integer(), Some(30));
    assert_eq!(v.get("admin").bool(), Some(true));
    assert!(v.get("nothing").is_null());
    assert!(v.get("missing").is_null());
    assert_eq!(v.keys(), vec!["admin", "age", "name", "nothing"]);
    assert_eq!(v.len(), Some(4));
    assert!(!v.is_empty());
    assert!(obj().is_empty());
    assert!(arr().is_empty());
    assert_eq!(str("x").len(), None);
}

#[test]
fn test_set_replaces_and_orders() {
    let v = obj().set("b", integer(1)).set("a", integer(2)).set("b", integer(3));
    assert_eq!(v.keys(), vec!["a", "b"]);
    assert_eq!(v.get("b").integer(), Some(3));
    let w = integer(5).set("k", str("v"));
    assert_eq!(w.keys(), vec!["k"]);
}

#[test]
fn test_push_and_at() {
    let a = arr().push(integer(1)).push(str("two")).push(arr());
    assert_eq!(a.len(), Some(3));
    assert_eq!(a.at(0).integer(), Some(1));
    assert_eq!(a.at(1).str(), Some("two".to_string()));
    assert_eq!(a.at(2).len(), Some(0));
    assert!(a.at(3).is_null());
    let b = str("x").push(bool(false));
    assert_eq!(b.len(), Some(1));
    assert_eq!(b.at(0).bool(), Some(false));
}

#[test]
fn test_defaults() {
    let v = obj().set("s", str("x"));
    assert_eq!(v.get("s").str_or("d"), "x");
    assert_eq!(v.get("t").str_or("d"), "d");
    assert_eq!(v.get("t").int_or(7), 7);
    assert!(v.get("t").bool_or(true));
}

#[test]
fn test_lazy_value_set_is_parsed() {
    let lazy = try_parse(b"{\"a\": 1}").unwrap();
    let v = obj().set("x", lazy);
    assert_eq!(v.get("x").get("a").integer(), Some(1));
    let n = try_parse(b"42").unwrap();
    let w = obj().set("x", n);
    assert_eq!(w.get("x").integer(), Some(42));
    let a = arr().push(try_parse(b"[true]").unwrap());
    assert_eq!(a.at(0).at(0).bool(), Some(true));
}

#[test]
fn test_tree_ops_on_lazy_value_parse() {
    let v = try_parse(b"{\"b\": [1, 2, 3], \"a\": {\"c\": \"d\"}}").unwrap();
    assert_eq!(v.get("b").len(), Some(3));
    assert_eq!(v.get("b").at(1).integer(), Some(2));
    assert_eq!(v.get("a").get("c").str(), Some("d".to_string()));
    assert_eq!(v.keys(), vec!["a", "b"]);
    let bad = try_parse(b"{\"b\": }").unwrap();
    assert!(bad.get("b").is_null());
    assert!(bad.is_null());
    let added = v.set("z", integer(1));
    assert_eq!(added.keys(), vec!["a", "b", "z"]);
}

#[test]
fn test_try_parse_full() {
    let v = try_parse_full(b"{\"user\": {\"name\": \"Al\", \"n\": -3, \"big\": 18446744073709551615}}").unwrap();
    assert_eq!(v.path_str(&["user", "name"]), Some("Al".to_string()));
    assert_eq!(v.path_int(&["user", "n"]), IntReading::Int(-3));
    assert_eq!(v.path_int(&["user", "big"]), IntReading::NotInteger);
    assert!(v.path_exists(&["user", "big"]));
    assert!(!v.path_exists(&["user", "x"]));
    assert!(v.bytes().is_none());
    assert!(try_parse_full(b"{\"a\":").is_none());
    assert!(try_parse_full(&[0xff]).is_none());
}

#[test]
fn test_float_numbers_read_as_integers_when_whole() {
    let v = try_parse_full(b"[42.0, 42.9, -2.5, 1e300, 9007199254740992.0, 9007199254740994.0, 0.5]").unwrap();
    assert_eq!(v.at(0).integer(), Some(42));
    assert_eq!(v.at(1).integer(), Some(42));
    assert_eq!(v.at(2).integer(), Some(-2));
    assert_eq!(v.at(3).integer(), None);
    assert_eq!(v.at(4).integer(), Some(9007199254740992));
    assert_eq!(v.at(5).integer(), None);
    assert_eq!(v.at(6).integer(), Some(0));
}

#[test]
fn test_path_accessors_on_tree() {
    let v = obj().set("u", obj().set("n", null()).set("ok", bool(true)).set("k", integer(4)));
    assert!(v.path_is_null(&["u", "n"]));
    assert_eq!(v.path_bool(&["u", "ok"]), Some(true));
    assert_eq!(v.path_bool_or(&["u", "k"], false), false);
    assert_eq!(v.path_int_or(&["u", "k"], 0), Some(4));
    assert_eq!(v.path_str_or(&["u", "k"], "none"), "none");
    assert!(v.path_exists(&[]));
}

#[test]
fn test_map_array() {
    let v = try_parse(b"[\"a\", \"b\"]").unwrap();
    assert_eq!(v.map_array(raw_str), Some(vec!["a".to_string(), "b".to_string()]));
    let mixed = try_parse(b"[\"a\", 1]").unwrap();
    assert_eq!(mixed.map_array(raw_str), None);
    assert_eq!(obj().map_array(raw_str), None);
    let nums = try_parse(b"[1, 2, 3]").unwrap();
    let r: Option<Result<Vec<i64>, String>> = nums.try_map_array(|x: &RawValue| raw_int(x).ok_or("no".to_string()));
    assert_eq!(r, Some(Ok(vec![1, 2, 3])));
    let r: Option<Result<Vec<i64>, String>> = mixed.try_map_array(|x: &RawValue| raw_int(x).ok_or("no".to_string()));
    assert_eq!(r, Some(Err("no".to_string())));
}

#[test]
fn test_raw_helpers() {
    assert_eq!(raw_str(&RawValue::String("s".to_string())), Some("s".to_string()));
    assert_eq!(raw_int(&RawValue::Number(RawNumber::U64(u64::MAX))), None);
    assert_eq!(raw_int(&RawValue::Number(RawNumber::U64(5))), Some(5));
    assert_eq!(raw_int(&RawValue::Number(RawNumber::F64Bits((-3.75f64).to_bits()))), Some(-3));
    assert_eq!(raw_bool(&RawValue::Bool(true)), Some(true));
    assert!(raw_is_null(&RawValue::Null));
    assert!(!raw_is_null(&RawValue::Bool(false)));
    let j = JsonValue::from_raw(&RawValue::Array(vec![RawValue::Null]));
    assert_eq!(j.len(), Some(1));
}

#[test]
fn test_to_json() {
    assert_eq!("x".to_json().str(), Some("x".to_string()));
    assert_eq!(String::from("y").to_json().str(), Some("y".to_string()));
    assert_eq!(7u8.to_json().integer(), Some(7));
    assert_eq!((-7i32).to_json().integer(), Some(-7));
    assert_eq!(u64::MAX.to_json().integer(), Some(-1));
    assert_eq!(true.to_json().bool(), Some(true));
    assert!(None::<i64>.to_json().is_null());
    assert_eq!(Some(3i64).to_json().integer(), Some(3));
    let v = vec![1i64, 2, 3].to_json();
    assert_eq!(v.len(), Some(3));
    assert_eq!(v.at(2).integer(), Some(3));
    let s: &[bool] = &[true, false];
    assert_eq!(s.to_json().at(1).bool(), Some(false));
    assert_eq!([1u16, 2].to_json().len(), Some(2));
    assert_eq!(Box::new(5i64).to_json().integer(), Some(5));
    let j = obj().set("a", integer(1));
    assert_eq!(j.to_json().get("a").integer(), Some(1));
}

#[test]
fn test_clone_keeps_mode() {
    let lazy = try_parse(b"{\"a\": 1}").unwrap();
    let c = lazy.clone();
    assert_eq!(c.bytes(), Some(&b"{\"a\": 1}"[..]));
    let t = obj().set("a", integer(1));
    assert_eq!(t.clone().get("a").integer(), Some(1));
}

#[test]
fn test_reference_and_cow_to_json() {
    let n = 9i64;
    let r = &n;
    assert_eq!(r.to_json().integer(), Some(9));
    let mut m = String::from("z");
    let mr = &mut m;
    assert_eq!(mr.to_json().str(), Some("z".to_string()));
    let c: std::borrow::Cow<'_, str> = std::borrow::Cow::Borrowed("c");
    assert_eq!(c.to_json().str(), Some("c".to_string()));
    let o: std::borrow::Cow<'_, str> = std::borrow::Cow::Owned("o".to_string());
    assert_eq!(o.to_json().str(), Some("o".to_string()));
    assert_eq!(std::rc::Rc::new(true).to_json().bool(), Some(true));
    assert_eq!(std::sync::Arc::new(1u32).to_json().integer(), Some(1));
}

#[test]
fn test_get_path_copies() {
    let v = obj().set("a", obj().set("b", integer(2)));
    let x = v.get_path(&["a", "b"]).unwrap();
    assert_eq!(raw_int(&x), Some(2));
    assert!(v.get_path(&["a", "c"]).is_none());
    let lazy = try_parse(b"{\"a\": 1}").unwrap();
    assert!(!raw_is_null(&lazy.get_path(&[]).unwrap()));
    assert_eq!(raw_int(&lazy.get_path(&["a"]).unwrap()), Some(1));
    assert!(lazy.get_path(&["b"]).is_none());
}

#[test]
fn test_keys_stay_ascending() {
    let mut v = obj();
    for k in ["m", "b", "z", "a", "ab", "", "b"] {
        v = v.set(k, null());
    }
    assert_eq!(v.keys(), vec!["", "a", "ab", "b", "m", "z"]);
}

#[test]
fn test_set_then_get_for_non_objects() {
    let v = arr().push(integer(1)).set("k", bool(true));
    assert_eq!(v.keys(), vec!["k"]);
    assert_eq!(v.get("k").bool(), Some(true));
    assert!(v.get("other").is_null());
}
