//! The parsed form of JSON values.

use vstd::prelude::*;
use vstd::string::StringSliceAdditionalSpecFns;
use vstd::utf8::encode_utf8;
use vstd::arithmetic::power2::{pow2, lemma2_to64, lemma2_to64_rest, lemma_pow2_strictly_increases};
use crate::text::str_eq;

verus! {

/// A JSON number as the parser reads it; a float is held by its IEEE-754 bits.
#[derive(Debug, Clone, Copy, PartialEq, Eq, Structural)]
pub enum RawNumber {
    U64(u64),
    I64(i64),
    F64Bits(u64),
}

/// A parsed JSON value. The parser gives object members in ascending key
/// order, each key once, and setting a member keeps that order.
#[derive(Debug)]
pub enum RawValue {
    Null,
    Bool(bool),
    Number(RawNumber),
    String(String),
    Array(Vec<RawValue>),
    Object(Vec<(String, RawValue)>),
}

/// A JSON value as mathematics sees it.
pub ghost enum Json {
    Null,
    Bool(bool),
    Num(RawNumber),
    Str(Seq<char>),
    Arr(Seq<Json>),
    Obj(Seq<(Seq<char>, Json)>),
}

pub open spec fn json_of(v: RawValue) -> Json
    decreases v, 1int,
{
    match v {
        RawValue::Null => Json::Null,
        RawValue::Bool(b) => Json::Bool(b),
        RawValue::Number(n) => Json::Num(n),
        RawValue::String(s) => Json::Str(s@),
        RawValue::Array(items) => Json::Arr(json_seq(items@)),
        RawValue::Object(entries) => Json::Obj(json_entries(entries@)),
    }
}

pub open spec fn json_seq(s: Seq<RawValue>) -> Seq<Json>
    decreases s, 0int,
{
    if s.len() == 0 {
        Seq::empty()
    } else {
        json_seq(s.subrange(0, s.len() - 1)).push(json_of(s[s.len() - 1]))
    }
}

pub open spec fn json_entries(s: Seq<(String, RawValue)>) -> Seq<(Seq<char>, Json)>
    decreases s, 0int,
{
    if s.len() == 0 {
        Seq::empty()
    } else {
        json_entries(s.subrange(0, s.len() - 1)).push((s[s.len() - 1].0@, json_of(s[s.len() - 1].1)))
    }
}

pub proof fn lemma_json_seq(s: Seq<RawValue>)
    ensures
        json_seq(s).len() == s.len(),
        forall|i: int| 0 <= i < s.len() ==> #[trigger] json_seq(s)[i] == json_of(s[i]),
    decreases s.len(),
{
    if s.len() > 0 {
        lemma_json_seq(s.subrange(0, s.len() - 1));
    }
}

pub proof fn lemma_json_entries(s: Seq<(String, RawValue)>)
    ensures
        json_entries(s).len() == s.len(),
        forall|i: int| 0 <= i < s.len() ==> #[trigger] json_entries(s)[i] == (s[i].0@, json_of(s[i].1)),
    decreases s.len(),
{
    if s.len() > 0 {
        lemma_json_entries(s.subrange(0, s.len() - 1));
    }
}

pub proof fn lemma_json_seq_push(s: Seq<RawValue>, x: RawValue)
    ensures
        json_seq(s.push(x)) == json_seq(s).push(json_of(x)),
{
    assert(s.push(x).subrange(0, s.len() as int) == s);
}

pub proof fn lemma_json_entries_push(s: Seq<(String, RawValue)>, x: (String, RawValue))
    ensures
        json_entries(s.push(x)) == json_entries(s).push((x.0@, json_of(x.1))),
{
    assert(s.push(x).subrange(0, s.len() as int) == s);
}

impl Clone for RawValue {
    /// A copy of the value.
    fn clone(&self) -> (r: Self)
        ensures
            json_of(r) == json_of(*self),
    {
        copy_value(self)
    }
}

/// A copy of a value.
pub fn copy_value(v: &RawValue) -> (r: RawValue)
    ensures
        json_of(r) == json_of(*v),
    decreases v,
{
    match v {
        RawValue::Null => RawValue::Null,
        RawValue::Bool(b) => RawValue::Bool(*b),
        RawValue::Number(n) => RawValue::Number(*n),
        RawValue::String(s) => RawValue::String(s.clone()),
        RawValue::Array(items) => {
            let mut out: Vec<RawValue> = Vec::new();
            let mut i: usize = 0;
            while i < items.len()
                invariant
                    i <= items@.len(),
                    *v == RawValue::Array(*items),
                    json_seq(out@) == json_seq(items@.subrange(0, i as int)),
                decreases items.len() - i,
            {
                assert(decreases_to!(*v => items@[i as int])) by {
                    assert(decreases_to!(*v => (*v)->Array_0));
                    assert(decreases_to!(*items => items@));
                    assert(decreases_to!(items@ => items@[i as int]));
                }
                let x = copy_value(&items[i]);
                proof {
                    lemma_json_seq_push(out@, x);
                    lemma_json_seq_push(items@.subrange(0, i as int), items@[i as int]);
                    assert(items@.subrange(0, i + 1) == items@.subrange(0, i as int).push(items@[i as int]));
                }
                out.push(x);
                i = i + 1;
            }
            proof { assert(items@.subrange(0, items@.len() as int) == items@); }
            RawValue::Array(out)
        },
        RawValue::Object(entries) => {
            let mut out: Vec<(String, RawValue)> = Vec::new();
            let mut i: usize = 0;
            while i < entries.len()
                invariant
                    i <= entries@.len(),
                    *v == RawValue::Object(*entries),
                    json_entries(out@) == json_entries(entries@.subrange(0, i as int)),
                decreases entries.len() - i,
            {
                assert(decreases_to!(*v => entries@[i as int].1)) by {
                    assert(decreases_to!(*v => (*v)->Object_0));
                    assert(decreases_to!(*entries => entries@));
                    assert(decreases_to!(entries@ => entries@[i as int]));
                    assert(decreases_to!(entries@[i as int] => entries@[i as int].1));
                }
                let x = copy_value(&entries[i].1);
                let k = entries[i].0.clone();
                proof {
                    lemma_json_entries_push(out@, (k, x));
                    lemma_json_entries_push(entries@.subrange(0, i as int), entries@[i as int]);
                    assert(entries@.subrange(0, i + 1) == entries@.subrange(0, i as int).push(entries@[i as int]));
                }
                out.push((k, x));
                i = i + 1;
            }
            proof { assert(entries@.subrange(0, entries@.len() as int) == entries@); }
            RawValue::Object(out)
        },
    }
}

// ===========================================================================
// Object members
// ===========================================================================

/// Byte-wise lexicographic order, the order in which `String`s compare.
pub open spec fn bytes_lt(a: Seq<u8>, b: Seq<u8>) -> bool
    decreases a.len(),
{
    if a.len() == 0 {
        b.len() > 0
    } else if b.len() == 0 {
        false
    } else if a[0] != b[0] {
        a[0] < b[0]
    } else {
        bytes_lt(a.drop_first(), b.drop_first())
    }
}

/// Key order: the byte order of the keys' UTF-8 encodings.
pub open spec fn key_lt(a: Seq<char>, b: Seq<char>) -> bool {
    bytes_lt(encode_utf8(a), encode_utf8(b))
}

/// Keys in strictly ascending order, as an ordered map holds them.
pub open spec fn keys_ascending(e: Seq<(Seq<char>, Json)>) -> bool {
    forall|i: int, j: int| 0 <= i < j < e.len() ==> key_lt(#[trigger] e[i].0, #[trigger] e[j].0)
}

proof fn lemma_bytes_lt_irreflexive(a: Seq<u8>)
    ensures
        !bytes_lt(a, a),
    decreases a.len(),
{
    if a.len() > 0 {
        lemma_bytes_lt_irreflexive(a.drop_first());
    }
}

proof fn lemma_bytes_lt_transitive(a: Seq<u8>, b: Seq<u8>, c: Seq<u8>)
    requires
        bytes_lt(a, b),
        bytes_lt(b, c),
    ensures
        bytes_lt(a, c),
    decreases a.len(),
{
    if a.len() > 0 && b.len() > 0 && c.len() > 0 && a[0] == b[0] && b[0] == c[0] {
        lemma_bytes_lt_transitive(a.drop_first(), b.drop_first(), c.drop_first());
    }
}

proof fn lemma_bytes_lt_total(a: Seq<u8>, b: Seq<u8>)
    requires
        a != b,
    ensures
        bytes_lt(a, b) || bytes_lt(b, a),
    decreases a.len(),
{
    if a.len() == 0 && b.len() == 0 {
        assert(a =~= b);
    }
    if a.len() > 0 && b.len() > 0 && a[0] == b[0] {
        if a.drop_first() == b.drop_first() {
            assert(a =~= seq![a[0]] + a.drop_first());
            assert(b =~= seq![b[0]] + b.drop_first());
        }
        lemma_bytes_lt_total(a.drop_first(), b.drop_first());
    }
}

/// Key order is a strict total order on keys.
pub proof fn lemma_key_order(a: Seq<char>, b: Seq<char>, c: Seq<char>)
    ensures
        !key_lt(a, a),
        key_lt(a, b) && key_lt(b, c) ==> key_lt(a, c),
        a != b ==> key_lt(a, b) || key_lt(b, a),
{
    lemma_bytes_lt_irreflexive(encode_utf8(a));
    if key_lt(a, b) && key_lt(b, c) {
        lemma_bytes_lt_transitive(encode_utf8(a), encode_utf8(b), encode_utf8(c));
    }
    if a != b {
        vstd::utf8::encode_utf8_decode_utf8(a);
        vstd::utf8::encode_utf8_decode_utf8(b);
        lemma_bytes_lt_total(encode_utf8(a), encode_utf8(b));
    }
}

/// The value of the first member named `k`.
pub open spec fn member(e: Seq<(Seq<char>, Json)>, k: Seq<char>) -> Option<Json>
    decreases e.len(),
{
    if e.len() == 0 {
        None
    } else if e[0].0 == k {
        Some(e[0].1)
    } else {
        member(e.drop_first(), k)
    }
}

/// The members after setting `k` to `v`, as an ordered map does it: the
/// members are walked in order; the first one named `k` is replaced, or the
/// new member goes before the first key that is greater than `k`.
pub open spec fn insert_member(e: Seq<(Seq<char>, Json)>, k: Seq<char>, v: Json) -> Seq<(Seq<char>, Json)>
    decreases e.len(),
{
    if e.len() == 0 {
        seq![(k, v)]
    } else if e[0].0 == k {
        seq![(k, v)] + e.drop_first()
    } else if key_lt(k, e[0].0) {
        seq![(k, v)] + e
    } else {
        seq![e[0]] + insert_member(e.drop_first(), k, v)
    }
}

/// After setting `k`, its value reads back as the value set.
pub proof fn lemma_member_insert_same(e: Seq<(Seq<char>, Json)>, k: Seq<char>, v: Json)
    ensures
        member(insert_member(e, k, v), k) == Some(v),
    decreases e.len(),
{
    if e.len() > 0 && e[0].0 != k && !key_lt(k, e[0].0) {
        lemma_member_insert_same(e.drop_first(), k, v);
        let r = seq![e[0]] + insert_member(e.drop_first(), k, v);
        assert(r[0] == e[0]);
        assert(r.drop_first() == insert_member(e.drop_first(), k, v));
    } else if e.len() > 0 {
        let r = insert_member(e, k, v);
        assert(r[0] == (k, v));
    }
}

/// Setting `k` leaves the value of every other key as it was.
pub proof fn lemma_member_insert_other(e: Seq<(Seq<char>, Json)>, k: Seq<char>, v: Json, k2: Seq<char>)
    requires
        k2 != k,
    ensures
        member(insert_member(e, k, v), k2) == member(e, k2),
    decreases e.len(),
{
    reveal_with_fuel(member, 2);
    if e.len() == 0 {
        let r = insert_member(e, k, v);
        assert(r[0] == (k, v));
        assert(r.drop_first().len() == 0);
    } else if e[0].0 == k {
        let r = insert_member(e, k, v);
        assert(r[0] == (k, v));
        assert(r.drop_first() == e.drop_first());
    } else if key_lt(k, e[0].0) {
        let r = insert_member(e, k, v);
        assert(r[0] == (k, v));
        assert(r.drop_first() == e);
    } else {
        lemma_member_insert_other(e.drop_first(), k, v, k2);
        let r = seq![e[0]] + insert_member(e.drop_first(), k, v);
        assert(r[0] == e[0]);
        assert(r.drop_first() == insert_member(e.drop_first(), k, v));
    }
}

/// Every key after setting `k` is above a key that was below `k` and below
/// every key before.
proof fn lemma_insert_lower_bound(e: Seq<(Seq<char>, Json)>, k: Seq<char>, v: Json, x: Seq<char>)
    requires
        key_lt(x, k),
        forall|j: int| 0 <= j < e.len() ==> key_lt(x, #[trigger] e[j].0),
    ensures
        forall|i: int| 0 <= i < insert_member(e, k, v).len() ==> key_lt(x, #[trigger] insert_member(e, k, v)[i].0),
    decreases e.len(),
{
    let r = insert_member(e, k, v);
    if e.len() == 0 {
    } else if e[0].0 == k {
        assert forall|i: int| 0 <= i < r.len() implies key_lt(x, #[trigger] r[i].0) by {
            if i > 0 {
                assert(r[i] == e[i]);
            }
        }
    } else if key_lt(k, e[0].0) {
        assert forall|i: int| 0 <= i < r.len() implies key_lt(x, #[trigger] r[i].0) by {
            if i > 0 {
                assert(r[i] == e[i - 1]);
            }
        }
    } else {
        let d = e.drop_first();
        assert forall|j: int| 0 <= j < d.len() implies key_lt(x, #[trigger] d[j].0) by {
            assert(d[j] == e[j + 1]);
        }
        lemma_insert_lower_bound(d, k, v, x);
        let rd = insert_member(d, k, v);
        assert forall|i: int| 0 <= i < r.len() implies key_lt(x, #[trigger] r[i].0) by {
            if i > 0 {
                assert(r[i] == rd[i - 1]);
            }
        }
    }
}

/// Setting a member keeps the keys in strictly ascending order.
pub proof fn lemma_insert_ascending(e: Seq<(Seq<char>, Json)>, k: Seq<char>, v: Json)
    requires
        keys_ascending(e),
    ensures
        keys_ascending(insert_member(e, k, v)),
    decreases e.len(),
{
    let r = insert_member(e, k, v);
    if e.len() == 0 {
    } else if e[0].0 == k {
        assert forall|i: int, j: int| 0 <= i < j < r.len() implies key_lt(#[trigger] r[i].0, #[trigger] r[j].0) by {
            assert(r[j] == e[j]);
            if i > 0 {
                assert(r[i] == e[i]);
            } else {
                assert(key_lt(e[0].0, e[j].0));
            }
        }
    } else if key_lt(k, e[0].0) {
        assert forall|i: int, j: int| 0 <= i < j < r.len() implies key_lt(#[trigger] r[i].0, #[trigger] r[j].0) by {
            assert(r[j] == e[j - 1]);
            if i > 0 {
                assert(r[i] == e[i - 1]);
            } else if j - 1 > 0 {
                assert(key_lt(e[0].0, e[j - 1].0));
                lemma_key_order(k, e[0].0, e[j - 1].0);
            }
        }
    } else {
        lemma_key_order(e[0].0, k, e[0].0);
        lemma_key_order(k, e[0].0, k);
        assert(key_lt(e[0].0, k));
        let d = e.drop_first();
        assert forall|i: int, j: int| 0 <= i < j < d.len() implies key_lt(#[trigger] d[i].0, #[trigger] d[j].0) by {
            assert(d[i] == e[i + 1] && d[j] == e[j + 1]);
        }
        lemma_insert_ascending(d, k, v);
        assert forall|j: int| 0 <= j < d.len() implies key_lt(e[0].0, #[trigger] d[j].0) by {
            assert(d[j] == e[j + 1]);
        }
        lemma_insert_lower_bound(d, k, v, e[0].0);
        let rd = insert_member(d, k, v);
        assert forall|i: int, j: int| 0 <= i < j < r.len() implies key_lt(#[trigger] r[i].0, #[trigger] r[j].0) by {
            assert(r[j] == rd[j - 1]);
            if i > 0 {
                assert(r[i] == rd[i - 1]);
            }
        }
    }
}

/// Is `a` before `b` in byte order?
pub fn bytes_less(a: &[u8], b: &[u8]) -> (r: bool)
    ensures
        r == bytes_lt(a@, b@),
{
    let mut i: usize = 0;
    proof {
        assert(a@.subrange(0, a@.len() as int) == a@);
        assert(b@.subrange(0, b@.len() as int) == b@);
    }
    while i < a.len() && i < b.len()
        invariant
            i <= a@.len(),
            i <= b@.len(),
            bytes_lt(a@, b@) == bytes_lt(a@.subrange(i as int, a@.len() as int), b@.subrange(i as int, b@.len() as int)),
        decreases a.len() - i,
    {
        let ghost sa = a@.subrange(i as int, a@.len() as int);
        let ghost sb = b@.subrange(i as int, b@.len() as int);
        proof {
            assert(sa[0] == a@[i as int]);
            assert(sb[0] == b@[i as int]);
            assert(sa.drop_first() == a@.subrange(i + 1, a@.len() as int));
            assert(sb.drop_first() == b@.subrange(i + 1, b@.len() as int));
        }
        if a[i] != b[i] {
            return a[i] < b[i];
        }
        i = i + 1;
    }
    i == a.len() && i < b.len()
}

/// Is key `a` before key `b`?
pub fn key_less(a: &str, b: &str) -> (r: bool)
    ensures
        r == key_lt(a@, b@),
{
    bytes_less(a.as_bytes(), b.as_bytes())
}

/// The index of the first member named `key`.
pub fn member_index(entries: &Vec<(String, RawValue)>, key: &str) -> (r: Option<usize>)
    ensures
        match r {
            Some(i) => i < entries@.len() && member(json_entries(entries@), key@) == Some(json_of(entries@[i as int].1))
                && entries@[i as int].0@ == key@,
            None => member(json_entries(entries@), key@) is None,
        },
{
    let ghost e = json_entries(entries@);
    proof { lemma_json_entries(entries@); }
    let mut i: usize = 0;
    proof { assert(e.subrange(0, e.len() as int) == e); }
    while i < entries.len()
        invariant
            i <= entries@.len(),
            e == json_entries(entries@),
            e.len() == entries@.len(),
            forall|j: int| 0 <= j < entries@.len() ==> #[trigger] e[j] == (entries@[j].0@, json_of(entries@[j].1)),
            member(e, key@) == member(e.subrange(i as int, e.len() as int), key@),
        decreases entries.len() - i,
    {
        let ghost rest = e.subrange(i as int, e.len() as int);
        proof {
            assert(rest[0] == e[i as int]);
            assert(rest.drop_first() == e.subrange(i + 1, e.len() as int));
        }
        if str_eq(entries[i].0.as_str(), key) {
            return Some(i);
        }
        i = i + 1;
    }
    None
}

proof fn lemma_insert_member_prefix(e: Seq<(Seq<char>, Json)>, k: Seq<char>, v: Json, i: int)
    requires
        0 <= i <= e.len(),
        forall|j: int| 0 <= j < i ==> #[trigger] e[j].0 != k && !key_lt(k, e[j].0),
    ensures
        insert_member(e, k, v) == e.subrange(0, i) + insert_member(e.subrange(i, e.len() as int), k, v),
    decreases i,
{
    if i == 0 {
        assert(e.subrange(0, e.len() as int) == e);
        assert(e.subrange(0, 0) + insert_member(e, k, v) == insert_member(e, k, v));
    } else {
        let d = e.drop_first();
        assert forall|j: int| 0 <= j < i - 1 implies #[trigger] d[j].0 != k && !key_lt(k, d[j].0) by {
            assert(d[j] == e[j + 1]);
        }
        lemma_insert_member_prefix(d, k, v, i - 1);
        assert(d.subrange(i - 1, d.len() as int) == e.subrange(i, e.len() as int));
        assert(seq![e[0]] + d.subrange(0, i - 1) == e.subrange(0, i));
        assert(seq![e[0]] + (d.subrange(0, i - 1) + insert_member(e.subrange(i, e.len() as int), k, v))
            == e.subrange(0, i) + insert_member(e.subrange(i, e.len() as int), k, v));
    }
}

/// Sets the member `key` to `val`, keeping the members in key order.
pub fn insert_entry(entries: &mut Vec<(String, RawValue)>, key: String, val: RawValue)
    ensures
        json_entries(final(entries)@) == insert_member(json_entries(old(entries)@), key@, json_of(val)),
{
    let ghost e = json_entries(entries@);
    proof { lemma_json_entries(entries@); }
    let mut i: usize = 0;
    while i < entries.len() && !str_eq(entries[i].0.as_str(), key.as_str()) && !key_less(key.as_str(), entries[i].0.as_str())
        invariant
            i <= entries@.len(),
            e == json_entries(entries@),
            e.len() == entries@.len(),
            forall|j: int| 0 <= j < entries@.len() ==> #[trigger] e[j] == (entries@[j].0@, json_of(entries@[j].1)),
            forall|j: int| 0 <= j < i ==> #[trigger] e[j].0 != key@ && !key_lt(key@, e[j].0),
        decreases entries.len() - i,
    {
        proof { assert(e[i as int].0 == entries@[i as int].0@); }
        i = i + 1;
    }
    proof { lemma_insert_member_prefix(e, key@, json_of(val), i as int); }
    let ghost kv = (key@, json_of(val));
    let ghost tail = e.subrange(i as int, e.len() as int);
    if i < entries.len() && str_eq(entries[i].0.as_str(), key.as_str()) {
        proof {
            assert(tail[0] == e[i as int]);
            assert(tail.drop_first() == e.subrange(i + 1, e.len() as int));
        }
        entries.set(i, (key, val));
        proof {
            lemma_json_entries(entries@);
            assert(json_entries(entries@) =~= e.subrange(0, i as int) + (seq![kv] + e.subrange(i + 1, e.len() as int)));
        }
    } else {
        proof {
            if i < e.len() {
                assert(tail[0] == e[i as int]);
                assert(e[i as int].0 != key@);
            } else {
                assert(tail.len() == 0);
            }
        }
        entries.insert(i, (key, val));
        proof {
            lemma_json_entries(entries@);
            assert(json_entries(entries@) =~= e.subrange(0, i as int) + (seq![kv] + tail));
        }
    }
}

// ===========================================================================
// Numbers
// ===========================================================================

/// The integer part of the IEEE-754 double with bits `bits`, when the double
/// is finite and its magnitude is at most 2^53; `None` otherwise. The
/// exponent field `e` is bits 52..63, the fraction `m` bits 0..52, the sign
/// bit 63. A normal double is (2^52 + m) * 2^(e - 1075): its integer part is
/// that product for e of 1075 or 1076 (larger exponents pass 2^53) and the
/// quotient by 2^(1075 - e) below; subnormals (e = 0) are below one.
pub open spec fn f64_safe_int(bits: u64) -> Option<int> {
    let e = (bits / 0x10000000000000) % 2048;
    let m = bits % 0x10000000000000;
    let neg = bits >= 0x8000000000000000;
    if e == 2047 {
        None
    } else if e > 1076 || (e == 1076 && m > 0) {
        None
    } else {
        let mag = if e == 0 {
            0
        } else if e == 1075 {
            0x10000000000000 + m
        } else if e == 1076 {
            2 * (0x10000000000000 + m)
        } else {
            (0x10000000000000 + m) / (pow2((1075 - e) as nat) as int)
        };
        Some(if neg { -mag } else { mag })
    }
}

/// A number as an `i64`: integers that fit, and floats whose integer part is
/// safe (see `f64_safe_int`), truncated toward zero.
pub open spec fn number_int(n: RawNumber) -> Option<int> {
    match n {
        RawNumber::I64(i) => Some(i as int),
        RawNumber::U64(u) => if u <= i64::MAX { Some(u as int) } else { None },
        RawNumber::F64Bits(b) => f64_safe_int(b),
    }
}

pub open spec fn opt_i64(o: Option<i64>) -> Option<int> {
    match o {
        Some(i) => Some(i as int),
        None => None,
    }
}

/// The integer part of a double given by its bits, when it is safe.
pub fn f64_bits_to_int(bits: u64) -> (r: Option<i64>)
    ensures
        opt_i64(r) == f64_safe_int(bits),
{
    let e = (bits >> 52u64) & 0x7ff;
    let m = bits & 0xfffffffffffff;
    let neg = bits >= 0x8000000000000000;
    proof {
        assert((bits >> 52u64) & 0x7ff == (bits / 0x10000000000000) % 2048) by (bit_vector);
        assert(bits & 0xfffffffffffff == bits % 0x10000000000000) by (bit_vector);
        assert(bits & 0xfffffffffffff < 0x10000000000000) by (bit_vector);
        assert((bits >> 52u64) & 0x7ff < 2048) by (bit_vector);
    }
    if e == 0x7ff {
        return None;
    }
    if e > 1076 || (e == 1076 && m > 0) {
        return None;
    }
    let full: u64 = m + 0x10000000000000;
    let ghost spec_mag: int = if e == 0 {
        0
    } else if e == 1075 {
        0x10000000000000 + m
    } else if e == 1076 {
        2 * (0x10000000000000 + m)
    } else {
        (0x10000000000000 + m) / (pow2((1075 - e) as nat) as int)
    };
    let mag: u64 = if e == 0 {
        0
    } else if e >= 1075 {
        proof {
            lemma2_to64();
        }
        if e == 1075 {
            full
        } else {
            full * 2
        }
    } else {
        let k = 1075 - e;
        if k >= 64 {
            proof {
                lemma2_to64();
                lemma2_to64_rest();
                lemma_pow2_strictly_increases(53, k as nat);
                assert(full < pow2(53));
                vstd::arithmetic::div_mod::lemma_basic_div(full as int, pow2(k as nat) as int);
            }
            assert(spec_mag == 0);
            0
        } else {
            proof {
                vstd::bits::lemma_u64_shr_is_div(full, k);
                lemma2_to64();
                lemma_pow2_strictly_increases(0, k as nat);
                vstd::arithmetic::div_mod::lemma_div_is_ordered_by_denominator(full as int, 1, pow2(k as nat) as int);
            }
            assert(spec_mag == full as int / pow2(k as nat) as int);
            full >> k
        }
    };
    assert(mag == spec_mag);
    assert(mag <= 0x20000000000000);
    if neg {
        Some(-(mag as i64))
    } else {
        Some(mag as i64)
    }
}

/// A number as an `i64`, when it is one (see `number_int`).
pub fn number_to_int(n: RawNumber) -> (r: Option<i64>)
    ensures
        opt_i64(r) == number_int(n),
{
    match n {
        RawNumber::I64(i) => Some(i),
        RawNumber::U64(u) => if u <= 0x7fffffffffffffff { Some(u as i64) } else { None },
        RawNumber::F64Bits(b) => f64_bits_to_int(b),
    }
}

} // verus!
