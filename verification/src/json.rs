//! JSON values: a lazy byte scanner that reads fields by path, the input
//! checks made before a body is accepted, and the value type built on them.

pub mod decimal;
pub mod lazy;
pub mod parsed;
pub mod tree;

pub use tree::RawValue;

use vstd::prelude::*;
use vstd::utf8::valid_utf8;
use crate::constants::{MAX_JSON_DEPTH, MAX_JSON_SIZE};
use crate::json::lazy::{
    has_no_trailing_content, null_bytes, path_keys, spec_bool_value, spec_int_value, spec_no_trailing_content,
    spec_string_value, spec_trim_json, spec_value_at,
};
use vstd::utf8::decode_utf8;
use crate::json::decimal::IntReading;
use crate::json::parsed::{parse_text, parsed_text};
use crate::json::tree::{
    copy_value, insert_entry, json_entries, json_of, json_seq, lemma_json_entries, lemma_json_entries_push,
    lemma_json_seq, lemma_json_seq_push,
    member, member_index, insert_member, lemma_member_insert_other, lemma_member_insert_same, lemma_insert_ascending, keys_ascending, key_lt, number_int, number_to_int, opt_i64, Json, RawNumber,
};
use crate::text::{bytes_to_vec, str_from_utf8, to_owned_string};

verus! {

// ===========================================================================
// Nesting depth
// ===========================================================================

/// Where the depth scan stands after some bytes: the open brackets counted,
/// whether it is inside a string, whether the previous byte escaped this one,
/// and whether the limit was passed.
pub ghost struct DepthScan {
    pub depth: int,
    pub in_string: bool,
    pub escape: bool,
    pub exceeded: bool,
}

/// One byte of the depth scan. Brackets inside strings do not count; a
/// closing bracket never takes the depth below zero.
pub open spec fn depth_step(st: DepthScan, b: u8) -> DepthScan {
    if st.exceeded {
        st
    } else if st.escape {
        DepthScan { escape: false, ..st }
    } else if b == 0x5c && st.in_string {
        DepthScan { escape: true, ..st }
    } else if b == 0x22 {
        DepthScan { in_string: !st.in_string, ..st }
    } else if (b == 0x5b || b == 0x7b) && !st.in_string {
        DepthScan { depth: st.depth + 1, exceeded: st.depth + 1 > MAX_JSON_DEPTH, ..st }
    } else if (b == 0x5d || b == 0x7d) && !st.in_string {
        DepthScan { depth: if st.depth > 0 { st.depth - 1 } else { 0 }, ..st }
    } else {
        st
    }
}

/// The depth scan after all of `s`.
pub open spec fn depth_scan(s: Seq<u8>) -> DepthScan
    decreases s.len(),
{
    if s.len() == 0 {
        DepthScan { depth: 0, in_string: false, escape: false, exceeded: false }
    } else {
        depth_step(depth_scan(s.drop_last()), s.last())
    }
}

/// Does the bracket nesting of the data go deeper than `MAX_JSON_DEPTH`?
/// Brackets inside strings are not counted.
pub fn json_depth_exceeds_limit(data: &[u8]) -> (r: bool)
    ensures
        r == depth_scan(data@).exceeded,
{
    let mut depth: usize = 0;
    let mut in_string = false;
    let mut escape = false;
    let mut i: usize = 0;
    while i < data.len()
        invariant
            i <= data@.len(),
            depth <= MAX_JSON_DEPTH,
            depth_scan(data@.subrange(0, i as int)) == (DepthScan {
                depth: depth as int,
                in_string,
                escape,
                exceeded: false,
            }),
        decreases data.len() - i,
    {
        let byte = data[i];
        proof {
            let t = data@.subrange(0, i + 1);
            assert(t.drop_last() == data@.subrange(0, i as int));
            assert(t.last() == byte);
        }
        if escape {
            escape = false;
        } else if byte == 0x5c && in_string {
            escape = true;
        } else if byte == 0x22 {
            in_string = !in_string;
        } else if (byte == 0x5b || byte == 0x7b) && !in_string {
            depth = depth + 1;
            if depth > MAX_JSON_DEPTH {
                proof { lemma_depth_scan_sticky(data@, i + 1); }
                return true;
            }
        } else if (byte == 0x5d || byte == 0x7d) && !in_string {
            depth = if depth > 0 { depth - 1 } else { 0 };
        }
        i = i + 1;
    }
    proof { assert(data@.subrange(0, data@.len() as int) == data@); }
    false
}

/// Once the limit is passed, the scan stays past it.
pub proof fn lemma_depth_scan_sticky(s: Seq<u8>, n: int)
    requires
        0 <= n <= s.len(),
        depth_scan(s.subrange(0, n)).exceeded,
    ensures
        depth_scan(s).exceeded,
    decreases s.len() - n,
{
    if n < s.len() {
        let t = s.subrange(0, n + 1);
        assert(t.drop_last() == s.subrange(0, n));
        lemma_depth_scan_sticky(s, n + 1);
    } else {
        assert(s.subrange(0, n) == s);
    }
}

// ===========================================================================
// The value type
// ===========================================================================

/// Where a value's content is held: the raw bytes of a lazily read body, or a
/// parsed tree.
enum JsonInner {
    Lazy(Vec<u8>),
    Parsed(RawValue),
}

/// A JSON value with a fluent builder API and lazy parsing.
///
/// A value from [`try_parse`] holds its bytes: the `path_*` methods scan
/// them without building a tree. Operations on the whole tree (`get`, `at`,
/// `keys`, ...) parse the bytes when they run. Values from the builders hold
/// a tree.
pub struct JsonValue {
    inner: JsonInner,
}

impl Clone for JsonValue {
    /// A copy of the value, in the same mode.
    fn clone(&self) -> (r: Self)
        ensures
            r@ == self@,
    {
        match &self.inner {
            JsonInner::Lazy(b) => JsonValue { inner: JsonInner::Lazy(bytes_to_vec(b.as_slice())) },
            JsonInner::Parsed(v) => JsonValue { inner: JsonInner::Parsed(copy_value(v)) },
        }
    }
}

/// What a value holds: raw bytes, or a tree.
pub ghost enum JsonView {
    Lazy(Seq<u8>),
    Tree(Json),
}

impl View for JsonValue {
    type V = JsonView;

    closed spec fn view(&self) -> JsonView {
        match self.inner {
            JsonInner::Lazy(b) => JsonView::Lazy(b@),
            JsonInner::Parsed(v) => JsonView::Tree(json_of(v)),
        }
    }
}

/// The tree that raw bytes parse to: `null` when they are not UTF-8 or not
/// JSON.
pub open spec fn lazy_tree(b: Seq<u8>) -> Json {
    if valid_utf8(b) {
        match parsed_text(decode_utf8(b)) {
            Some(t) => t,
            None => Json::Null,
        }
    } else {
        Json::Null
    }
}

/// The tree of a value, parsing raw bytes.
pub open spec fn tree_of(v: JsonView) -> Json {
    match v {
        JsonView::Lazy(b) => lazy_tree(b),
        JsonView::Tree(t) => t,
    }
}

/// A member of an object, or null.
pub open spec fn field_of(t: Json, key: Seq<char>) -> Json {
    match t {
        Json::Obj(e) => match member(e, key) {
            Some(x) => x,
            None => Json::Null,
        },
        _ => Json::Null,
    }
}

/// An item of an array, or null.
pub open spec fn item_of(t: Json, i: int) -> Json {
    match t {
        Json::Arr(s) => if 0 <= i < s.len() { s[i] } else { Json::Null },
        _ => Json::Null,
    }
}

/// The value reached from `t` by following object keys.
pub open spec fn tree_path(t: Json, keys: Seq<Seq<char>>) -> Option<Json>
    decreases keys.len(),
{
    if keys.len() == 0 {
        Some(t)
    } else {
        match t {
            Json::Obj(e) => match member(e, keys[0]) {
                Some(x) => tree_path(x, keys.drop_first()),
                None => None,
            },
            _ => None,
        }
    }
}

/// `t` with the member `k` set to `v`; a value that is not an object is
/// replaced by an object with that one member.
pub open spec fn set_tree(t: Json, k: Seq<char>, v: Json) -> Json {
    match t {
        Json::Obj(e) => Json::Obj(insert_member(e, k, v)),
        _ => Json::Obj(seq![(k, v)]),
    }
}

/// `t` with `v` appended; a value that is not an array is replaced by an
/// array holding only `v`.
pub open spec fn push_tree(t: Json, v: Json) -> Json {
    match t {
        Json::Arr(s) => Json::Arr(s.push(v)),
        _ => Json::Arr(seq![v]),
    }
}

pub open spec fn json_str(t: Json) -> Option<Seq<char>> {
    match t {
        Json::Str(s) => Some(s),
        _ => None,
    }
}

pub open spec fn json_int(t: Json) -> Option<int> {
    match t {
        Json::Num(n) => number_int(n),
        _ => None,
    }
}

/// The integer reading at `path`: from the bytes of a lazy value, the text
/// there read as `spec_int_value` reads it; in a tree, a number that reads as
/// an `i64` (see `number_int`). `NotInteger` when nothing is there.
pub open spec fn path_int_reading(v: JsonView, keys: Seq<Seq<char>>) -> IntReading {
    match v {
        JsonView::Lazy(b) => match spec_value_at(b, keys) {
            Some(x) => spec_int_value(spec_trim_json(x)),
            None => IntReading::NotInteger,
        },
        JsonView::Tree(t) => match tree_path(t, keys) {
            Some(x) => match json_int(x) {
                Some(i) => IntReading::Int(i as i64),
                None => IntReading::NotInteger,
            },
            None => IntReading::NotInteger,
        },
    }
}

/// A settled reading, with the default in place of no integer.
pub open spec fn reading_or(r: IntReading, default: i64) -> Option<i64> {
    match r {
        IntReading::Int(i) => Some(i),
        IntReading::NotInteger => Some(default),
        IntReading::NeedsFloat => None,
    }
}

pub open spec fn json_bool(t: Json) -> Option<bool> {
    match t {
        Json::Bool(b) => Some(b),
        _ => None,
    }
}

pub open spec fn json_keys(t: Json) -> Seq<Seq<char>> {
    match t {
        Json::Obj(e) => e.map_values(|m: (Seq<char>, Json)| m.0),
        _ => Seq::empty(),
    }
}

pub open spec fn json_len(t: Json) -> Option<int> {
    match t {
        Json::Arr(s) => Some(s.len() as int),
        Json::Obj(e) => Some(e.len() as int),
        _ => None,
    }
}

pub open spec fn opt_text(o: Option<String>) -> Option<Seq<char>> {
    match o {
        Some(s) => Some(s@),
        None => None,
    }
}

pub open spec fn text_or(o: Option<Seq<char>>, default: Seq<char>) -> Seq<char> {
    match o {
        Some(s) => s,
        None => default,
    }
}

/// `f` can give `y` for some raw value whose tree is `t`.
pub open spec fn item_maps_to<T, F: Fn(&RawValue) -> Option<T>>(f: F, t: Json, y: Option<T>) -> bool {
    exists|x: RawValue| json_of(x) == t && #[trigger] f.ensures((&x,), y)
}

/// `f` can give `y` for some raw value whose tree is `t`.
pub open spec fn item_tries_to<T, E, F: Fn(&RawValue) -> Result<T, E>>(f: F, t: Json, y: Result<T, E>) -> bool {
    exists|x: RawValue| json_of(x) == t && #[trigger] f.ensures((&x,), y)
}

/// `f` may map an item whose tree is `t` to `Ok`.
pub open spec fn item_succeeds<T, E, F: Fn(&RawValue) -> Result<T, E>>(f: F, t: Json) -> bool {
    exists|y: T| #[trigger] item_tries_to(f, t, Ok::<T, E>(y))
}

/// The tree that raw bytes parse to (`null` when they cannot be parsed).
fn parse_lazy(bytes: &[u8]) -> (r: RawValue)
    ensures
        json_of(r) == lazy_tree(bytes@),
        json_of(r) matches Json::Obj(e) ==> keys_ascending(e),
{
    match str_from_utf8(bytes) {
        Some(text) => match parse_text(text) {
            Some(v) => v,
            None => RawValue::Null,
        },
        None => RawValue::Null,
    }
}

/// Follows object keys from `v`.
fn path_node<'a>(v: &'a RawValue, path: &[&str]) -> (r: Option<&'a RawValue>)
    ensures
        match tree_path(json_of(*v), lazy::path_keys(path@)) {
            Some(t) => r matches Some(x) && json_of(*x) == t,
            None => r is None,
        },
{
    let ghost keys = lazy::path_keys(path@);
    let mut cur: &RawValue = v;
    let mut i: usize = 0;
    proof { assert(keys.subrange(0, keys.len() as int) == keys); }
    while i < path.len()
        invariant
            i <= path@.len(),
            keys == lazy::path_keys(path@),
            keys.len() == path@.len(),
            tree_path(json_of(*v), keys) == tree_path(json_of(*cur), keys.subrange(i as int, keys.len() as int)),
        decreases path.len() - i,
    {
        let ghost rest = keys.subrange(i as int, keys.len() as int);
        proof {
            assert(rest[0] == path@[i as int]@);
            assert(rest.drop_first() == keys.subrange(i + 1, keys.len() as int));
        }
        match cur {
            RawValue::Object(entries) => match member_index(entries, path[i]) {
                Some(j) => {
                    cur = &entries[j].1;
                },
                None => return None,
            },
            _ => return None,
        }
        i = i + 1;
    }
    Some(cur)
}

/// The string of a raw value, if it is a string.
pub fn raw_str(v: &RawValue) -> (r: Option<String>)
    ensures
        opt_text(r) == json_str(json_of(*v)),
{
    match v {
        RawValue::String(s) => Some(s.clone()),
        _ => None,
    }
}

/// The integer of a raw value, if it is a number that reads as an `i64`
/// (see `number_int`).
pub fn raw_int(v: &RawValue) -> (r: Option<i64>)
    ensures
        opt_i64(r) == json_int(json_of(*v)),
{
    match v {
        RawValue::Number(n) => number_to_int(*n),
        _ => None,
    }
}

/// The boolean of a raw value, if it is a boolean.
pub fn raw_bool(v: &RawValue) -> (r: Option<bool>)
    ensures
        r == json_bool(json_of(*v)),
{
    match v {
        RawValue::Bool(b) => Some(*b),
        _ => None,
    }
}

/// Is the raw value null?
pub fn raw_is_null(v: &RawValue) -> (r: bool)
    ensures
        r == (json_of(*v) is Null),
{
    match v {
        RawValue::Null => true,
        _ => false,
    }
}

impl JsonValue {
    fn from_tree(v: RawValue) -> (r: JsonValue)
        ensures
            r@ == JsonView::Tree(json_of(v)),
    {
        JsonValue { inner: JsonInner::Parsed(v) }
    }

    /// The raw bytes, when the value is held lazily.
    pub fn bytes(&self) -> (r: Option<&[u8]>)
        ensures
            match self@ {
                JsonView::Lazy(b) => r matches Some(x) && x@ == b,
                JsonView::Tree(_) => r is None,
            },
    {
        match &self.inner {
            JsonInner::Lazy(b) => Some(b.as_slice()),
            JsonInner::Parsed(_) => None,
        }
    }

    /// The value's tree, parsing raw bytes (which give null when they are not
    /// valid JSON).
    pub fn get_value_for_tree(&self) -> (r: RawValue)
        ensures
            json_of(r) == tree_of(self@),
            self@ is Lazy ==> (json_of(r) matches Json::Obj(e) ==> keys_ascending(e)),
    {
        match &self.inner {
            JsonInner::Parsed(v) => copy_value(v),
            JsonInner::Lazy(b) => parse_lazy(b.as_slice()),
        }
    }

    fn into_tree(self) -> (r: RawValue)
        ensures
            json_of(r) == tree_of(self@),
    {
        match self.inner {
            JsonInner::Parsed(v) => v,
            JsonInner::Lazy(b) => parse_lazy(b.as_slice()),
        }
    }

    /// Wraps a copy of a raw value.
    pub fn from_raw(value: &RawValue) -> (r: JsonValue)
        ensures
            r@ == JsonView::Tree(json_of(*value)),
    {
        JsonValue::from_tree(copy_value(value))
    }

    /// The member `key` of an object; null when it is missing or the value is
    /// not an object.
    pub fn get(&self, key: &str) -> (r: JsonValue)
        ensures
            r@ == JsonView::Tree(field_of(tree_of(self@), key@)),
    {
        let t = self.get_value_for_tree();
        match t {
            RawValue::Object(entries) => {
                proof { lemma_json_entries(entries@); }
                match member_index(&entries, key) {
                    Some(j) => JsonValue::from_tree(copy_value(&entries[j].1)),
                    None => JsonValue::from_tree(RawValue::Null),
                }
            },
            _ => JsonValue::from_tree(RawValue::Null),
        }
    }

    /// The item at `index` of an array; null when it is out of bounds or the
    /// value is not an array.
    pub fn at(&self, index: usize) -> (r: JsonValue)
        ensures
            r@ == JsonView::Tree(item_of(tree_of(self@), index as int)),
    {
        let t = self.get_value_for_tree();
        match t {
            RawValue::Array(items) => {
                proof { lemma_json_seq(items@); }
                if index < items.len() {
                    JsonValue::from_tree(copy_value(&items[index]))
                } else {
                    JsonValue::from_tree(RawValue::Null)
                }
            },
            _ => JsonValue::from_tree(RawValue::Null),
        }
    }

    /// Applies `f` to each item of an array, without copying the items;
    /// `None` when the value is not an array or `f` gives `None` for an item.
    pub fn map_array<T, F>(&self, f: F) -> (r: Option<Vec<T>>)
        where
            F: Fn(&RawValue) -> Option<T>,
        requires
            forall|x: &RawValue| #[trigger] f.requires((x,)),
        ensures
            match tree_of(self@) {
                Json::Arr(s) => match r {
                    Some(out) => out@.len() == s.len()
                        && forall|i: int| 0 <= i < s.len() ==> #[trigger] item_maps_to(f, s[i], Some(out@[i])),
                    None => exists|i: int| 0 <= i < s.len() && #[trigger] item_maps_to(f, s[i], None::<T>),
                },
                _ => r is None,
            },
    {
        let t = self.get_value_for_tree();
        match t {
            RawValue::Array(items) => {
                proof { lemma_json_seq(items@); }
                let ghost s = json_seq(items@);
                let mut out: Vec<T> = Vec::new();
                let mut i: usize = 0;
                while i < items.len()
                    invariant
                        i <= items@.len(),
                        s == json_seq(items@),
                        tree_of(self@) == Json::Arr(s),
                        s.len() == items@.len(),
                        forall|j: int| 0 <= j < items@.len() ==> #[trigger] s[j] == json_of(items@[j]),
                        forall|x: &RawValue| #[trigger] f.requires((x,)),
                        out@.len() == i,
                        forall|j: int| 0 <= j < i ==> #[trigger] item_maps_to(f, s[j], Some(out@[j])),
                    decreases items.len() - i,
                {
                    let y = f(&items[i]);
                    proof {
                        let x = items@[i as int];
                        assert(json_of(x) == s[i as int]);
                        assert(f.ensures((&x,), y));
                        assert(item_maps_to(f, s[i as int], y));
                    }
                    match y {
                        Some(v) => {
                            out.push(v);
                        },
                        None => {
                            proof {
                                let s3 = tree_of(self@)->Arr_0;
                                assert(item_maps_to(f, s3[i as int], None::<T>));
                                assert(match tree_of(self@) {
                                    Json::Arr(s2) => exists|k: int| 0 <= k < s2.len() && #[trigger] item_maps_to(f, s2[k], None::<T>),
                                    _ => false,
                                });
                            }
                            return None;
                        },
                    }
                    i = i + 1;
                }
                Some(out)
            },
            _ => None,
        }
    }

    /// Applies `f` to each item of an array, stopping at the first error;
    /// `None` when the value is not an array.
    pub fn try_map_array<T, E, F>(&self, f: F) -> (r: Option<Result<Vec<T>, E>>)
        where
            F: Fn(&RawValue) -> Result<T, E>,
        requires
            forall|x: &RawValue| #[trigger] f.requires((x,)),
        ensures
            match tree_of(self@) {
                Json::Arr(s) => match r {
                    Some(Ok(out)) => out@.len() == s.len()
                        && forall|i: int| 0 <= i < s.len() ==> #[trigger] item_tries_to(f, s[i], Ok::<T, E>(out@[i])),
                    Some(Err(e)) => exists|k: int| 0 <= k < s.len() && #[trigger] item_tries_to(f, s[k], Err::<T, E>(e))
                        && forall|j: int| 0 <= j < k ==> #[trigger] item_succeeds::<T, E, F>(f, s[j]),
                    None => false,
                },
                _ => r is None,
            },
    {
        let t = self.get_value_for_tree();
        match t {
            RawValue::Array(items) => {
                proof { lemma_json_seq(items@); }
                let ghost s = json_seq(items@);
                let mut out: Vec<T> = Vec::new();
                let mut i: usize = 0;
                while i < items.len()
                    invariant
                        i <= items@.len(),
                        s == json_seq(items@),
                        tree_of(self@) == Json::Arr(s),
                        s.len() == items@.len(),
                        forall|j: int| 0 <= j < items@.len() ==> #[trigger] s[j] == json_of(items@[j]),
                        forall|x: &RawValue| #[trigger] f.requires((x,)),
                        out@.len() == i,
                        forall|j: int| 0 <= j < i ==> #[trigger] item_tries_to(f, s[j], Ok::<T, E>(out@[j])),
                    decreases items.len() - i,
                {
                    let y = f(&items[i]);
                    proof {
                        let x = items@[i as int];
                        assert(json_of(x) == s[i as int]);
                        assert(f.ensures((&x,), y));
                        assert(item_tries_to(f, s[i as int], y));
                    }
                    match y {
                        Ok(v) => {
                            out.push(v);
                        },
                        Err(e) => {
                            proof {
                                let s3 = tree_of(self@)->Arr_0;
                                assert(item_tries_to(f, s3[i as int], Err::<T, E>(e)));
                                assert forall|j: int| 0 <= j < i implies #[trigger] item_succeeds::<T, E, F>(f, s3[j]) by {
                                    assert(item_tries_to(f, s3[j], Ok::<T, E>(out@[j])));
                                }
                                assert(exists|k: int| 0 <= k < s3.len() && #[trigger] item_tries_to(f, s3[k], Err::<T, E>(e))
                                    && forall|j: int| 0 <= j < k ==> #[trigger] item_succeeds::<T, E, F>(f, s3[j]));
                            }
                            let res: Option<Result<Vec<T>, E>> = Some(Err(e));
                            proof {
                                assert(res matches Some(Err(e2)) && e2 == e);
                            }
                            return res;
                        },
                    }
                    i = i + 1;
                }
                Some(Ok(out))
            },
            _ => None,
        }
    }

    /// The string, if the value is a string.
    pub fn str(&self) -> (r: Option<String>)
        ensures
            opt_text(r) == json_str(tree_of(self@)),
    {
        let t = self.get_value_for_tree();
        match t {
            RawValue::String(s) => Some(s),
            _ => None,
        }
    }

    /// The string, or the default when the value is not a string.
    pub fn str_or(&self, default: &str) -> (r: String)
        ensures
            r@ == text_or(json_str(tree_of(self@)), default@),
    {
        match self.str() {
            Some(s) => s,
            None => to_owned_string(default),
        }
    }

    /// The integer, if the value is a number that reads as an `i64`: an
    /// integer in range, or a float whose integer part is within 2^53.
    pub fn integer(&self) -> (r: Option<i64>)
        ensures
            opt_i64(r) == json_int(tree_of(self@)),
    {
        let t = self.get_value_for_tree();
        raw_int(&t)
    }

    /// The integer, or the default.
    pub fn int_or(&self, default: i64) -> (r: i64)
        ensures
            r as int == match json_int(tree_of(self@)) { Some(i) => i, None => default as int },
    {
        match self.integer() {
            Some(i) => i,
            None => default,
        }
    }

    /// The boolean, if the value is a boolean.
    pub fn bool(&self) -> (r: Option<bool>)
        ensures
            r == json_bool(tree_of(self@)),
    {
        let t = self.get_value_for_tree();
        raw_bool(&t)
    }

    /// The boolean, or the default.
    pub fn bool_or(&self, default: bool) -> (r: bool)
        ensures
            r == match json_bool(tree_of(self@)) { Some(b) => b, None => default },
    {
        match self.bool() {
            Some(b) => b,
            None => default,
        }
    }

    /// Is the value null?
    pub fn is_null(&self) -> (r: bool)
        ensures
            r == (tree_of(self@) is Null),
    {
        let t = self.get_value_for_tree();
        raw_is_null(&t)
    }

    /// The keys of an object, in order; empty for other values. The keys of
    /// an object parsed from bytes come in ascending order.
    pub fn keys(&self) -> (r: Vec<String>)
        ensures
            r@.map_values(|k: String| k@) == json_keys(tree_of(self@)),
            self@ is Lazy ==> forall|i: int, j: int| 0 <= i < j < r@.len() ==> key_lt(#[trigger] r@[i]@, #[trigger] r@[j]@),
    {
        let t = self.get_value_for_tree();
        let mut out: Vec<String> = Vec::new();
        match t {
            RawValue::Object(entries) => {
                proof { lemma_json_entries(entries@); }
                let ghost e = json_entries(entries@);
                let mut i: usize = 0;
                while i < entries.len()
                    invariant
                        i <= entries@.len(),
                        e == json_entries(entries@),
                        e.len() == entries@.len(),
                        forall|j: int| 0 <= j < entries@.len() ==> #[trigger] e[j] == (entries@[j].0@, json_of(entries@[j].1)),
                        out@.len() == i,
                        forall|j: int| 0 <= j < i ==> #[trigger] out@[j]@ == e[j].0,
                    decreases entries.len() - i,
                {
                    let k = entries[i].0.clone();
                    proof { assert(e[i as int].0 == k@); }
                    out.push(k);
                    i = i + 1;
                }
                proof {
                    assert(out@.map_values(|k: String| k@) =~= e.map_values(|m: (Seq<char>, Json)| m.0));
                }
                out
            },
            _ => {
                proof { assert(out@.map_values(|k: String| k@) =~= Seq::<Seq<char>>::empty()); }
                out
            },
        }
    }

    /// The number of items of an array or members of an object.
    pub fn len(&self) -> (r: Option<usize>)
        ensures
            match r {
                Some(n) => json_len(tree_of(self@)) == Some(n as int),
                None => json_len(tree_of(self@)) is None,
            },
    {
        let t = self.get_value_for_tree();
        match t {
            RawValue::Array(items) => {
                proof { lemma_json_seq(items@); }
                Some(items.len())
            },
            RawValue::Object(entries) => {
                proof { lemma_json_entries(entries@); }
                Some(entries.len())
            },
            _ => None,
        }
    }

    /// Is this an empty array or object?
    pub fn is_empty(&self) -> (r: bool)
        ensures
            r == (json_len(tree_of(self@)) == Some(0int)),
    {
        match self.len() {
            Some(n) => n == 0,
            None => false,
        }
    }

    /// A copy of the value reached by following object keys in the tree
    /// (a lazily held value is parsed first).
    pub fn get_path(&self, path: &[&str]) -> (r: Option<RawValue>)
        ensures
            match tree_path(tree_of(self@), path_keys(path@)) {
                Some(t) => r matches Some(x) && json_of(x) == t,
                None => r is None,
            },
    {
        match &self.inner {
            JsonInner::Parsed(v) => match path_node(v, path) {
                Some(x) => Some(copy_value(x)),
                None => None,
            },
            JsonInner::Lazy(b) => {
                let t = parse_lazy(b.as_slice());
                match path_node(&t, path) {
                    Some(x) => Some(copy_value(x)),
                    None => None,
                }
            },
        }
    }

    /// The string at `path`: scanned from the bytes of a lazy value, found
    /// by following object keys in a tree.
    pub fn path_str(&self, path: &[&str]) -> (r: Option<String>)
        ensures
            match self@ {
                JsonView::Lazy(b) => match spec_value_at(b, path_keys(path@)) {
                    Some(v) => opt_text(r) == spec_string_value(v),
                    None => r is None,
                },
                JsonView::Tree(t) => match tree_path(t, path_keys(path@)) {
                    Some(x) => opt_text(r) == json_str(x),
                    None => r is None,
                },
            },
    {
        match &self.inner {
            JsonInner::Lazy(b) => lazy::path_str(b.as_slice(), path),
            JsonInner::Parsed(v) => match path_node(v, path) {
                Some(x) => raw_str(x),
                None => None,
            },
        }
    }

    /// The string at `path`, or the default.
    pub fn path_str_or(&self, path: &[&str], default: &str) -> (r: String)
        ensures
            match self@ {
                JsonView::Lazy(b) => r@ == match spec_value_at(b, path_keys(path@)) {
                    Some(v) => text_or(spec_string_value(v), default@),
                    None => default@,
                },
                JsonView::Tree(t) => r@ == match tree_path(t, path_keys(path@)) {
                    Some(x) => text_or(json_str(x), default@),
                    None => default@,
                },
            },
    {
        match self.path_str(path) {
            Some(s) => s,
            None => to_owned_string(default),
        }
    }

    /// The integer reading at `path` (see `path_int_reading`).
    pub fn path_int(&self, path: &[&str]) -> (r: IntReading)
        ensures
            r == path_int_reading(self@, path_keys(path@)),
    {
        match &self.inner {
            JsonInner::Lazy(b) => lazy::path_int(b.as_slice(), path),
            JsonInner::Parsed(v) => match path_node(v, path) {
                Some(x) => match raw_int(x) {
                    Some(i) => IntReading::Int(i),
                    None => IntReading::NotInteger,
                },
                None => IntReading::NotInteger,
            },
        }
    }

    /// The integer at `path`, or the default when there is none; `None` when
    /// only an `f64` reading of the text can decide.
    pub fn path_int_or(&self, path: &[&str], default: i64) -> (r: Option<i64>)
        ensures
            r == reading_or(path_int_reading(self@, path_keys(path@)), default),
    {
        match self.path_int(path) {
            IntReading::Int(i) => Some(i),
            IntReading::NotInteger => Some(default),
            IntReading::NeedsFloat => None,
        }
    }

    /// The boolean at `path`.
    pub fn path_bool(&self, path: &[&str]) -> (r: Option<bool>)
        ensures
            match self@ {
                JsonView::Lazy(b) => match spec_value_at(b, path_keys(path@)) {
                    Some(v) => r == spec_bool_value(v),
                    None => r is None,
                },
                JsonView::Tree(t) => match tree_path(t, path_keys(path@)) {
                    Some(x) => r == json_bool(x),
                    None => r is None,
                },
            },
    {
        match &self.inner {
            JsonInner::Lazy(b) => lazy::path_bool(b.as_slice(), path),
            JsonInner::Parsed(v) => match path_node(v, path) {
                Some(x) => raw_bool(x),
                None => None,
            },
        }
    }

    /// The boolean at `path`, or the default.
    pub fn path_bool_or(&self, path: &[&str], default: bool) -> (r: bool)
        ensures
            match self@ {
                JsonView::Lazy(b) => r == match spec_value_at(b, path_keys(path@)) {
                    Some(v) => match spec_bool_value(v) { Some(x) => x, None => default },
                    None => default,
                },
                JsonView::Tree(t) => r == match tree_path(t, path_keys(path@)) {
                    Some(x) => match json_bool(x) { Some(y) => y, None => default },
                    None => default,
                },
            },
    {
        match self.path_bool(path) {
            Some(b) => b,
            None => default,
        }
    }

    /// Is the value at `path` null?
    pub fn path_is_null(&self, path: &[&str]) -> (r: bool)
        ensures
            match self@ {
                JsonView::Lazy(b) => r == (spec_value_at(b, path_keys(path@)) matches Some(v) && spec_trim_json(v) == null_bytes()),
                JsonView::Tree(t) => r == (tree_path(t, path_keys(path@)) matches Some(x) && x is Null),
            },
    {
        match &self.inner {
            JsonInner::Lazy(b) => lazy::path_is_null(b.as_slice(), path),
            JsonInner::Parsed(v) => match path_node(v, path) {
                Some(x) => raw_is_null(x),
                None => false,
            },
        }
    }

    /// Is there a value at `path` (even null)?
    pub fn path_exists(&self, path: &[&str]) -> (r: bool)
        ensures
            match self@ {
                JsonView::Lazy(b) => r == spec_value_at(b, path_keys(path@)) is Some,
                JsonView::Tree(t) => r == tree_path(t, path_keys(path@)) is Some,
            },
    {
        match &self.inner {
            JsonInner::Lazy(b) => lazy::path_exists(b.as_slice(), path),
            JsonInner::Parsed(v) => path_node(v, path).is_some(),
        }
    }

    /// Sets the member `key` (the value is made an object if it is not one).
    /// A lazily held `value` is parsed first.
    pub fn set(self, key: &str, value: JsonValue) -> (r: JsonValue)
        ensures
            r@ == JsonView::Tree(set_tree(tree_of(self@), key@, tree_of(value@))),
    {
        let v = value.into_tree();
        let t = self.into_tree();
        match t {
            RawValue::Object(entries) => {
                let mut entries = entries;
                insert_entry(&mut entries, to_owned_string(key), v);
                JsonValue::from_tree(RawValue::Object(entries))
            },
            _ => {
                let mut entries: Vec<(String, RawValue)> = Vec::new();
                let k = to_owned_string(key);
                proof {
                    lemma_json_entries_push(entries@, (k, v));
                    assert(json_entries(entries@) =~= Seq::<(Seq<char>, Json)>::empty());
                }
                entries.push((k, v));
                proof {
                    assert(json_entries(entries@) =~= seq![(key@, json_of(v))]);
                }
                JsonValue::from_tree(RawValue::Object(entries))
            },
        }
    }

    /// Appends to an array (the value is made an array if it is not one).
    /// A lazily held `value` is parsed first.
    pub fn push(self, value: JsonValue) -> (r: JsonValue)
        ensures
            r@ == JsonView::Tree(push_tree(tree_of(self@), tree_of(value@))),
    {
        let v = value.into_tree();
        let t = self.into_tree();
        match t {
            RawValue::Array(items) => {
                let mut items = items;
                proof { lemma_json_seq_push(items@, v); }
                items.push(v);
                JsonValue::from_tree(RawValue::Array(items))
            },
            _ => {
                let mut items: Vec<RawValue> = Vec::new();
                proof {
                    lemma_json_seq_push(items@, v);
                    assert(json_seq(items@) =~= Seq::<Json>::empty());
                }
                items.push(v);
                proof { assert(json_seq(items@) =~= seq![json_of(v)]); }
                JsonValue::from_tree(RawValue::Array(items))
            },
        }
    }
}

/// An empty object `{}`.
pub fn obj() -> (r: JsonValue)
    ensures
        r@ == JsonView::Tree(Json::Obj(Seq::empty())),
{
    JsonValue::from_tree(RawValue::Object(Vec::new()))
}

/// An empty array `[]`.
pub fn arr() -> (r: JsonValue)
    ensures
        r@ == JsonView::Tree(Json::Arr(Seq::empty())),
{
    JsonValue::from_tree(RawValue::Array(Vec::new()))
}

/// A string value.
pub fn str(value: &str) -> (r: JsonValue)
    ensures
        r@ == JsonView::Tree(Json::Str(value@)),
{
    JsonValue::from_tree(RawValue::String(to_owned_string(value)))
}

/// An integer value.
pub fn integer(value: i64) -> (r: JsonValue)
    ensures
        r@ == JsonView::Tree(Json::Num(RawNumber::I64(value))),
{
    JsonValue::from_tree(RawValue::Number(RawNumber::I64(value)))
}

/// A boolean value.
pub fn bool(value: bool) -> (r: JsonValue)
    ensures
        r@ == JsonView::Tree(Json::Bool(value)),
{
    JsonValue::from_tree(RawValue::Bool(value))
}

/// The null value.
pub fn null() -> (r: JsonValue)
    ensures
        r@ == JsonView::Tree(Json::Null),
{
    JsonValue::from_tree(RawValue::Null)
}

/// Accepts JSON bytes for lazy reading. `None` when the input is larger than
/// `MAX_JSON_SIZE`, nests deeper than `MAX_JSON_DEPTH`, is not UTF-8, or has
/// anything but whitespace after a complete first value. Other syntax is
/// only checked as values are read: input in which no complete first value
/// is found (empty, unterminated, a bare word) is accepted.
pub fn try_parse(data: &[u8]) -> (r: Option<JsonValue>)
    ensures
        match r {
            Some(v) => json_input_ok(data@) && v@ == JsonView::Lazy(data@),
            None => !json_input_ok(data@),
        },
{
    if data.len() > MAX_JSON_SIZE {
        return None;
    }
    if json_depth_exceeds_limit(data) {
        return None;
    }
    if str_from_utf8(data).is_none() {
        return None;
    }
    if !has_no_trailing_content(data) {
        return None;
    }
    Some(JsonValue { inner: JsonInner::Lazy(bytes_to_vec(data)) })
}

/// Parses JSON bytes into a tree at once. `None` when the input fails the
/// checks of [`try_parse`] or is not JSON.
pub fn try_parse_full(data: &[u8]) -> (r: Option<JsonValue>)
    ensures
        match r {
            Some(v) => json_input_ok(data@) && parsed_text(decode_utf8(data@)) == Some(tree_of(v@))
                && v@ is Tree,
            None => !json_input_ok(data@) || parsed_text(decode_utf8(data@)) is None,
        },
{
    if data.len() > MAX_JSON_SIZE {
        return None;
    }
    if json_depth_exceeds_limit(data) {
        return None;
    }
    if !has_no_trailing_content(data) {
        return None;
    }
    match str_from_utf8(data) {
        Some(text) => match parse_text(text) {
            Some(v) => Some(JsonValue::from_tree(v)),
            None => None,
        },
        None => None,
    }
}

/// Is the input acceptable to `try_parse`: at most `MAX_JSON_SIZE` bytes,
/// nesting no deeper than `MAX_JSON_DEPTH`, UTF-8, and nothing but
/// whitespace after a complete first value? Input in which no complete first
/// value is found passes this last check.
pub open spec fn json_input_ok(data: Seq<u8>) -> bool {
    &&& data.len() <= MAX_JSON_SIZE
    &&& !depth_scan(data).exceeded
    &&& valid_utf8(data)
    &&& spec_no_trailing_content(data)
}

// ===========================================================================
// Laws
// ===========================================================================

/// Reading back a member that was just set gives the value that was set
/// (`x.set(k, v).get(k)` is `v`).
pub proof fn law_set_then_get(t: Json, k: Seq<char>, v: Json)
    ensures
        field_of(set_tree(t, k, v), k) == v,
{
    if let Json::Obj(e) = t {
        lemma_member_insert_same(e, k, v);
    }
}

/// Setting one member leaves every other member as it was
/// (`x.set(k, v).get(k2)` is `x.get(k2)` for another key `k2`).
pub proof fn law_set_keeps_other_members(t: Json, k: Seq<char>, v: Json, k2: Seq<char>)
    requires
        k2 != k,
    ensures
        field_of(set_tree(t, k, v), k2) == field_of(t, k2),
{
    reveal_with_fuel(member, 2);
    match t {
        Json::Obj(e) => lemma_member_insert_other(e, k, v, k2),
        _ => {
            let e: Seq<(Seq<char>, Json)> = seq![(k, v)];
            assert(e[0] == (k, v));
            assert(e.drop_first().len() == 0);
        },
    }
}

/// Setting members keeps an object's keys in strictly ascending order, the
/// order in which the parser's ordered map gives them; a value that is not an
/// object becomes a one-member object, whose keys are in order too.
pub proof fn law_set_keeps_keys_ascending(t: Json, k: Seq<char>, v: Json)
    requires
        t is Obj ==> keys_ascending(t->Obj_0),
    ensures
        set_tree(t, k, v) is Obj,
        keys_ascending(set_tree(t, k, v)->Obj_0),
{
    match t {
        Json::Obj(e) => lemma_insert_ascending(e, k, v),
        _ => {},
    }
}

/// Pushing onto an array appends: the new item is read at the old length,
/// the earlier items are unchanged, and the length grows by one. A value
/// that is not an array becomes the one-item array of the pushed value.
pub proof fn law_push_then_at(t: Json, v: Json)
    ensures
        t is Arr ==> item_of(push_tree(t, v), t->Arr_0.len() as int) == v,
        t is Arr ==> forall|i: int| 0 <= i < t->Arr_0.len() ==> #[trigger] item_of(push_tree(t, v), i) == item_of(t, i),
        t is Arr ==> json_len(push_tree(t, v)) == Some(t->Arr_0.len() + 1int),
        !(t is Arr) ==> item_of(push_tree(t, v), 0) == v && json_len(push_tree(t, v)) == Some(1int),
{
}

/// The value at the empty path is the whole value, in both modes: a lazy
/// value's root is found when it is a well-formed value.
pub proof fn law_empty_path_is_root(t: Json)
    ensures
        tree_path(t, Seq::empty()) == Some(t),
{
}

/// A path that holds null exists.
pub proof fn law_null_path_exists(v: JsonView, keys: Seq<Seq<char>>)
    ensures
        match v {
            JsonView::Lazy(b) => (spec_value_at(b, keys) matches Some(x) && spec_trim_json(x) == null_bytes())
                ==> spec_value_at(b, keys) is Some,
            JsonView::Tree(t) => (tree_path(t, keys) matches Some(x) && x is Null) ==> tree_path(t, keys) is Some,
        },
{
}

/// Once the depth scan has passed the limit, no further bytes bring it back:
/// a body with a too-deep prefix is too deep.
pub proof fn law_depth_limit_is_sticky(s: Seq<u8>, n: int)
    requires
        0 <= n <= s.len(),
        depth_scan(s.subrange(0, n)).exceeded,
    ensures
        depth_scan(s).exceeded,
{
    lemma_depth_scan_sticky(s, n);
}

// ===========================================================================
// Conversion into JSON
// ===========================================================================

/// Types that can be turned into a JSON value.
pub trait ToJson {
    /// The value that `to_json` gives.
    spec fn json_view(&self) -> JsonView;

    /// Converts this value into JSON.
    fn to_json(&self) -> (r: JsonValue)
        ensures
            r@ == self.json_view();
}

impl ToJson for String {
    open spec fn json_view(&self) -> JsonView {
        JsonView::Tree(Json::Str(self@))
    }

    fn to_json(&self) -> (r: JsonValue) {
        str(self.as_str())
    }
}

impl ToJson for &str {
    open spec fn json_view(&self) -> JsonView {
        JsonView::Tree(Json::Str((*self)@))
    }

    fn to_json(&self) -> (r: JsonValue) {
        str(*self)
    }
}

impl ToJson for i8 {
    open spec fn json_view(&self) -> JsonView {
        JsonView::Tree(Json::Num(RawNumber::I64(*self as i64)))
    }

    fn to_json(&self) -> (r: JsonValue) {
        integer(*self as i64)
    }
}

impl ToJson for i16 {
    open spec fn json_view(&self) -> JsonView {
        JsonView::Tree(Json::Num(RawNumber::I64(*self as i64)))
    }

    fn to_json(&self) -> (r: JsonValue) {
        integer(*self as i64)
    }
}

impl ToJson for i32 {
    open spec fn json_view(&self) -> JsonView {
        JsonView::Tree(Json::Num(RawNumber::I64(*self as i64)))
    }

    fn to_json(&self) -> (r: JsonValue) {
        integer(*self as i64)
    }
}

impl ToJson for i64 {
    open spec fn json_view(&self) -> JsonView {
        JsonView::Tree(Json::Num(RawNumber::I64(*self)))
    }

    fn to_json(&self) -> (r: JsonValue) {
        integer(*self)
    }
}

impl ToJson for isize {
    open spec fn json_view(&self) -> JsonView {
        JsonView::Tree(Json::Num(RawNumber::I64(*self as i64)))
    }

    fn to_json(&self) -> (r: JsonValue) {
        integer(*self as i64)
    }
}

impl ToJson for u8 {
    open spec fn json_view(&self) -> JsonView {
        JsonView::Tree(Json::Num(RawNumber::I64(*self as i64)))
    }

    fn to_json(&self) -> (r: JsonValue) {
        integer(*self as i64)
    }
}

impl ToJson for u16 {
    open spec fn json_view(&self) -> JsonView {
        JsonView::Tree(Json::Num(RawNumber::I64(*self as i64)))
    }

    fn to_json(&self) -> (r: JsonValue) {
        integer(*self as i64)
    }
}

impl ToJson for u32 {
    open spec fn json_view(&self) -> JsonView {
        JsonView::Tree(Json::Num(RawNumber::I64(*self as i64)))
    }

    fn to_json(&self) -> (r: JsonValue) {
        integer(*self as i64)
    }
}

/// Values above `i64::MAX` wrap around, as an `as i64` cast does.
impl ToJson for u64 {
    open spec fn json_view(&self) -> JsonView {
        JsonView::Tree(Json::Num(RawNumber::I64(*self as i64)))
    }

    fn to_json(&self) -> (r: JsonValue) {
        integer(*self as i64)
    }
}

/// Values above `i64::MAX` wrap around, as an `as i64` cast does.
impl ToJson for usize {
    open spec fn json_view(&self) -> JsonView {
        JsonView::Tree(Json::Num(RawNumber::I64(*self as i64)))
    }

    fn to_json(&self) -> (r: JsonValue) {
        integer(*self as i64)
    }
}

impl ToJson for bool {
    open spec fn json_view(&self) -> JsonView {
        JsonView::Tree(Json::Bool(*self))
    }

    fn to_json(&self) -> (r: JsonValue) {
        bool(*self)
    }
}

/// `None` becomes null.
impl<T: ToJson> ToJson for Option<T> {
    open spec fn json_view(&self) -> JsonView {
        match self {
            Some(v) => v.json_view(),
            None => JsonView::Tree(Json::Null),
        }
    }

    fn to_json(&self) -> (r: JsonValue) {
        match self {
            Some(v) => v.to_json(),
            None => null(),
        }
    }
}

/// The array of the items' values, each taken as `push` takes it.
pub open spec fn items_json<T: ToJson>(items: Seq<T>) -> Json {
    Json::Arr(items.map_values(|x: T| tree_of(x.json_view())))
}

/// Pushes the JSON of each item onto an array.
fn array_of<T: ToJson>(items: &[T]) -> (r: JsonValue)
    ensures
        r@ == JsonView::Tree(items_json(items@)),
{
    let mut result = arr();
    let mut i: usize = 0;
    proof { assert(items_json(items@.subrange(0, 0))->Arr_0 =~= Seq::<Json>::empty()); }
    while i < items.len()
        invariant
            i <= items@.len(),
            result@ == JsonView::Tree(items_json(items@.subrange(0, i as int))),
        decreases items.len() - i,
    {
        let x = items[i].to_json();
        result = result.push(x);
        proof {
            assert(items_json(items@.subrange(0, i + 1))->Arr_0 =~= items_json(items@.subrange(0, i as int))->Arr_0.push(tree_of(items@[i as int].json_view())));
        }
        i = i + 1;
    }
    proof { assert(items@.subrange(0, items@.len() as int) == items@); }
    result
}

impl<T: ToJson> ToJson for Vec<T> {
    open spec fn json_view(&self) -> JsonView {
        JsonView::Tree(items_json(self@))
    }

    fn to_json(&self) -> (r: JsonValue) {
        array_of(self.as_slice())
    }
}

impl<T: ToJson> ToJson for &[T] {
    open spec fn json_view(&self) -> JsonView {
        JsonView::Tree(items_json((*self)@))
    }

    fn to_json(&self) -> (r: JsonValue) {
        array_of(*self)
    }
}

impl<T: ToJson, const N: usize> ToJson for [T; N] {
    open spec fn json_view(&self) -> JsonView {
        JsonView::Tree(items_json(self@))
    }

    fn to_json(&self) -> (r: JsonValue) {
        array_of(self.as_slice())
    }
}

/// A value stands for itself.
impl ToJson for JsonValue {
    open spec fn json_view(&self) -> JsonView {
        self@
    }

    fn to_json(&self) -> (r: JsonValue) {
        self.clone()
    }
}

impl<T: ToJson> ToJson for &T {
    open spec fn json_view(&self) -> JsonView {
        (**self).json_view()
    }

    fn to_json(&self) -> (r: JsonValue) {
        (**self).to_json()
    }
}

impl<T: ToJson> ToJson for &mut T {
    open spec fn json_view(&self) -> JsonView {
        (**self).json_view()
    }

    fn to_json(&self) -> (r: JsonValue) {
        (**self).to_json()
    }
}

impl ToJson for std::borrow::Cow<'_, str> {
    open spec fn json_view(&self) -> JsonView {
        JsonView::Tree(Json::Str((*self)@))
    }

    fn to_json(&self) -> (r: JsonValue) {
        match self {
            std::borrow::Cow::Borrowed(b) => str(b),
            std::borrow::Cow::Owned(o) => str(o.as_str()),
        }
    }
}

impl<T: ToJson> ToJson for Box<T> {
    open spec fn json_view(&self) -> JsonView {
        (**self).json_view()
    }

    fn to_json(&self) -> (r: JsonValue) {
        (**self).to_json()
    }
}

impl<T: ToJson> ToJson for std::rc::Rc<T> {
    open spec fn json_view(&self) -> JsonView {
        (**self).json_view()
    }

    fn to_json(&self) -> (r: JsonValue) {
        (**self).to_json()
    }
}

impl<T: ToJson> ToJson for std::sync::Arc<T> {
    open spec fn json_view(&self) -> JsonView {
        (**self).json_view()
    }

    fn to_json(&self) -> (r: JsonValue) {
        (**self).to_json()
    }
}

} // verus!
