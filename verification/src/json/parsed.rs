//! Reading a JSON text into the library's tree with the `miniserde` parser.
//!
//! The parser's own value type is opaque here: small accessors read its
//! nodes, and the walk that copies them into a [`RawValue`] is verified.

use vstd::prelude::*;
use miniserde::json::{Number, Value};
use crate::json::tree::{json_of, json_entries, json_seq, keys_ascending, Json, RawNumber, RawValue};

verus! {

/// `miniserde::json::Value`, declared so that it can stand in signatures;
/// nothing inside it is visible here.
#[verifier::external_type_specification]
#[verifier::external_body]
pub struct ExParserValue(Value);

/// The tree that a value of the parser holds: what its accessors below read.
pub uninterp spec fn parser_tree(v: Value) -> Json;

/// The tree the parser reads from a text, `None` when the text is not JSON.
pub uninterp spec fn parsed_text(text: Seq<char>) -> Option<Json>;

/// Calls `miniserde::json::from_str` for a `Value`. The result is named:
/// `parsed_text` of the text, the tree of the value on success and `None`
/// on a syntax error. What the parser accepts is not restated here.
#[verifier::external_body]
fn parser_from_str(text: &str) -> (r: Option<Value>)
    ensures
        match r {
            Some(v) => parsed_text(text@) == Some(parser_tree(v)),
            None => parsed_text(text@) is None,
        },
{
    miniserde::json::from_str::<Value>(text).ok()
}

/// The top of a parser value: its kind, its scalar content, or its number of
/// items or members.
pub enum ParserNode {
    Null,
    Bool(bool),
    Number(RawNumber),
    Str(String),
    Array(usize),
    Object(usize),
}

pub open spec fn node_matches(n: ParserNode, t: Json) -> bool {
    match (n, t) {
        (ParserNode::Null, Json::Null) => true,
        (ParserNode::Bool(a), Json::Bool(b)) => a == b,
        (ParserNode::Number(a), Json::Num(b)) => a == b,
        (ParserNode::Str(a), Json::Str(b)) => a@ == b,
        (ParserNode::Array(n), Json::Arr(s)) => n == s.len(),
        (ParserNode::Object(n), Json::Obj(e)) => n == e.len(),
        _ => false,
    }
}

/// Reads the top of a `miniserde::json::Value`: the variant, with the boolean,
/// the number (a float by `f64::to_bits`), a copy of the string, or the
/// length of the array (`Vec::len`) or of the object (`BTreeMap::len`). The
/// contract claims that this agrees with the value's tree, and that an
/// object's members stand in the strictly ascending key order in which its
/// `BTreeMap<String, Value>` holds and iterates them.
#[verifier::external_body]
fn parser_node(v: &Value) -> (r: ParserNode)
    ensures
        node_matches(r, parser_tree(*v)),
        r is Object ==> keys_ascending(parser_tree(*v)->Obj_0),
{
    match v {
        Value::Null => ParserNode::Null,
        Value::Bool(b) => ParserNode::Bool(*b),
        Value::Number(Number::U64(u)) => ParserNode::Number(RawNumber::U64(*u)),
        Value::Number(Number::I64(i)) => ParserNode::Number(RawNumber::I64(*i)),
        Value::Number(Number::F64(f)) => ParserNode::Number(RawNumber::F64Bits(f.to_bits())),
        Value::String(s) => ParserNode::Str(s.clone()),
        Value::Array(a) => ParserNode::Array(a.len()),
        Value::Object(o) => ParserNode::Object(o.len()),
    }
}

/// The item at `i` of a `miniserde` array (`Vec` indexing); the contract
/// claims it holds the `i`-th item of the array's tree.
#[verifier::external_body]
fn parser_item(v: &Value, i: usize) -> (r: &Value)
    requires
        parser_tree(*v) is Arr,
        i < parser_tree(*v)->Arr_0.len(),
    ensures
        parser_tree(*r) == parser_tree(*v)->Arr_0[i as int],
{
    match v {
        Value::Array(a) => &a[i],
        other => other,
    }
}

/// The member at `i` of a `miniserde` object, in the order its `BTreeMap`
/// iterates (`Iterator::nth` on `BTreeMap::iter`); the contract claims it is
/// present, for `i` below the member count, and is the `i`-th member of the
/// object's tree.
#[verifier::external_body]
fn parser_member(v: &Value, i: usize) -> (r: Option<(&String, &Value)>)
    requires
        parser_tree(*v) is Obj,
        i < parser_tree(*v)->Obj_0.len(),
    ensures
        r is Some,
        r->Some_0.0@ == parser_tree(*v)->Obj_0[i as int].0,
        parser_tree(*r->Some_0.1) == parser_tree(*v)->Obj_0[i as int].1,
{
    match v {
        Value::Object(o) => o.iter().nth(i),
        _ => None,
    }
}

/// Copies a parser value into the library's tree.
pub fn tree_from_parser(v: &Value) -> (r: RawValue)
    ensures
        json_of(r) == parser_tree(*v),
        json_of(r) matches Json::Obj(e) ==> keys_ascending(e),
    decreases parser_tree(*v),
{
    let ghost t = parser_tree(*v);
    match parser_node(v) {
        ParserNode::Null => RawValue::Null,
        ParserNode::Bool(b) => RawValue::Bool(b),
        ParserNode::Number(n) => RawValue::Number(n),
        ParserNode::Str(s) => RawValue::String(s),
        ParserNode::Array(n) => {
            let mut out: Vec<RawValue> = Vec::new();
            let mut i: usize = 0;
            while i < n
                invariant
                    t == parser_tree(*v),
                    t is Arr,
                    n == t->Arr_0.len(),
                    i <= n,
                    json_seq(out@) == t->Arr_0.subrange(0, i as int),
                decreases n - i,
            {
                let item = parser_item(v, i);
                assert(decreases_to!(t => parser_tree(*item))) by {
                    assert(decreases_to!(t => t->Arr_0));
                    assert(decreases_to!(t->Arr_0 => t->Arr_0[i as int]));
                }
                let x = tree_from_parser(item);
                proof {
                    assert(out@.push(x).subrange(0, out@.len() as int) == out@);
                    assert(t->Arr_0.subrange(0, i + 1) == t->Arr_0.subrange(0, i as int).push(t->Arr_0[i as int]));
                }
                out.push(x);
                i = i + 1;
            }
            proof { assert(t->Arr_0.subrange(0, n as int) == t->Arr_0); }
            RawValue::Array(out)
        },
        ParserNode::Object(n) => {
            let mut out: Vec<(String, RawValue)> = Vec::new();
            let mut i: usize = 0;
            while i < n
                invariant
                    t == parser_tree(*v),
                    t is Obj,
                    n == t->Obj_0.len(),
                    i <= n,
                    json_entries(out@) == t->Obj_0.subrange(0, i as int),
                decreases n - i,
            {
                match parser_member(v, i) {
                    Some((k, item)) => {
                        assert(decreases_to!(t => parser_tree(*item))) by {
                            assert(decreases_to!(t => t->Obj_0));
                            assert(decreases_to!(t->Obj_0 => t->Obj_0[i as int]));
                            assert(decreases_to!(t->Obj_0[i as int] => t->Obj_0[i as int].1));
                        }
                        let x = tree_from_parser(item);
                        let key = k.clone();
                        proof {
                            assert(out@.push((key, x)).subrange(0, out@.len() as int) == out@);
                            assert(t->Obj_0.subrange(0, i + 1) == t->Obj_0.subrange(0, i as int).push(t->Obj_0[i as int]));
                        }
                        out.push((key, x));
                    },
                    None => {},
                }
                i = i + 1;
            }
            proof { assert(t->Obj_0.subrange(0, n as int) == t->Obj_0); }
            RawValue::Object(out)
        },
    }
}

/// Parses a JSON text into a tree, `None` when it is not JSON.
pub fn parse_text(text: &str) -> (r: Option<RawValue>)
    ensures
        match parsed_text(text@) {
            Some(t) => r matches Some(v) && json_of(v) == t,
            None => r is None,
        },
        r matches Some(v) ==> (json_of(v) matches Json::Obj(e) ==> keys_ascending(e)),
{
    match parser_from_str(text) {
        Some(v) => Some(tree_from_parser(&v)),
        None => None,
    }
}

} // verus!
