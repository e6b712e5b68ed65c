//! Lazy JSON scanner: finds the value at a key path in raw JSON bytes without
//! building a tree, then reads it as a string, integer, boolean or null.
//!
//! The scanner is lenient: it only looks at the bytes it has to walk over, so
//! it can find a value in a document that is malformed further on.

use vstd::prelude::*;
use vstd::utf8::*;
use vstd::string::*;
use crate::json::decimal::{decimal_reading, read_decimal, IntReading};
use crate::text::{is_digit, occurs_at_exec, contains_byte, bytes_eq, str_from_utf8, push_char, push_text, char_from_u32, to_owned_string};

verus! {

broadcast use {vstd::seq::group_seq_axioms, vstd::seq_lib::group_seq_properties};

pub const QUOTE: u8 = 0x22;
pub const BACKSLASH: u8 = 0x5c;
pub const OPEN_BRACE: u8 = 0x7b;
pub const CLOSE_BRACE: u8 = 0x7d;
pub const OPEN_BRACKET: u8 = 0x5b;
pub const CLOSE_BRACKET: u8 = 0x5d;
pub const COLON: u8 = 0x3a;
pub const COMMA: u8 = 0x2c;

// ===========================================================================
// Specification of the scanner
// ===========================================================================

/// The JSON whitespace bytes: space, tab, line feed, carriage return.
pub open spec fn is_json_ws(b: u8) -> bool {
    b == 0x20 || b == 0x09 || b == 0x0a || b == 0x0d
}

/// First offset at or after `pos` that does not hold JSON whitespace.
pub open spec fn spec_skip_ws(s: Seq<u8>, pos: int) -> int
    decreases s.len() - pos,
{
    if 0 <= pos < s.len() && is_json_ws(s[pos]) {
        spec_skip_ws(s, pos + 1)
    } else {
        pos
    }
}

/// Offset of the quote that closes a string whose contents start at `pos`;
/// a backslash always hides the byte after it.
pub open spec fn spec_string_end(s: Seq<u8>, pos: int) -> Option<int>
    decreases s.len() - pos,
{
    if pos < 0 || pos >= s.len() {
        None
    } else if s[pos] == QUOTE {
        Some(pos)
    } else if s[pos] == BACKSLASH {
        if pos + 2 < s.len() {
            spec_string_end(s, pos + 2)
        } else {
            None
        }
    } else {
        spec_string_end(s, pos + 1)
    }
}

/// State of the bracket matcher at offset `i`: nesting `depth`, whether it is
/// inside a string, and whether the previous byte was an escaping backslash.
/// The result is the offset just after the bracket that brings the depth back
/// to zero.
pub open spec fn balanced_from(
    s: Seq<u8>,
    i: int,
    open: u8,
    close: u8,
    depth: int,
    in_str: bool,
    esc: bool,
) -> Option<int>
    decreases s.len() - i,
{
    if i < 0 || i >= s.len() {
        None
    } else if esc {
        balanced_from(s, i + 1, open, close, depth, in_str, false)
    } else if s[i] == BACKSLASH && in_str {
        balanced_from(s, i + 1, open, close, depth, in_str, true)
    } else if s[i] == QUOTE {
        balanced_from(s, i + 1, open, close, depth, !in_str, false)
    } else if in_str {
        balanced_from(s, i + 1, open, close, depth, in_str, false)
    } else if s[i] == open {
        balanced_from(s, i + 1, open, close, depth + 1, in_str, false)
    } else if s[i] == close {
        if depth - 1 == 0 {
            Some(i + 1)
        } else {
            balanced_from(s, i + 1, open, close, depth - 1, in_str, false)
        }
    } else {
        balanced_from(s, i + 1, open, close, depth, in_str, false)
    }
}

/// A byte that may appear in a number: digits, signs, point, exponent marks.
pub open spec fn is_number_byte(b: u8) -> bool {
    is_digit(b) || b == 0x2d || b == 0x2b || b == 0x2e || b == 0x65 || b == 0x45
}

/// First offset at or after `pos` that does not hold a number byte.
pub open spec fn spec_number_end(s: Seq<u8>, pos: int) -> int
    decreases s.len() - pos,
{
    if 0 <= pos < s.len() && is_number_byte(s[pos]) {
        spec_number_end(s, pos + 1)
    } else {
        pos
    }
}

pub open spec fn true_bytes() -> Seq<u8> {
    seq![0x74u8, 0x72u8, 0x75u8, 0x65u8]
}

pub open spec fn false_bytes() -> Seq<u8> {
    seq![0x66u8, 0x61u8, 0x6cu8, 0x73u8, 0x65u8]
}

pub open spec fn null_bytes() -> Seq<u8> {
    seq![0x6eu8, 0x75u8, 0x6cu8, 0x6cu8]
}

/// The literal `lit` is written at offset `pos` of `s`.
pub open spec fn literal_at(s: Seq<u8>, pos: int, lit: Seq<u8>) -> bool {
    0 <= pos && pos + lit.len() <= s.len() && s.subrange(pos, pos + lit.len()) == lit
}

/// Offset just after the JSON value that starts at `pos`, judged by its first
/// byte: a string, a bracketed object or array, a literal, or a number.
pub open spec fn spec_value_end(s: Seq<u8>, pos: int) -> Option<int> {
    if pos < 0 || pos >= s.len() {
        None
    } else if s[pos] == QUOTE {
        match spec_string_end(s, pos + 1) {
            Some(e) => Some(e + 1),
            None => None,
        }
    } else if s[pos] == OPEN_BRACE {
        balanced_from(s, pos, OPEN_BRACE, CLOSE_BRACE, 0, false, false)
    } else if s[pos] == OPEN_BRACKET {
        balanced_from(s, pos, OPEN_BRACKET, CLOSE_BRACKET, 0, false, false)
    } else if s[pos] == 0x74 {
        if literal_at(s, pos, true_bytes()) { Some(pos + 4) } else { None }
    } else if s[pos] == 0x66 {
        if literal_at(s, pos, false_bytes()) { Some(pos + 5) } else { None }
    } else if s[pos] == 0x6e {
        if literal_at(s, pos, null_bytes()) { Some(pos + 4) } else { None }
    } else if s[pos] == 0x2d || is_digit(s[pos]) {
        Some(spec_number_end(s, pos))
    } else {
        None
    }
}

/// Nothing but whitespace follows the first value, when a complete first
/// value is found (judged by its first byte as `spec_value_end` judges it).
/// Input where no complete first value is found passes: its syntax is left
/// to the readers.
pub open spec fn spec_no_trailing_content(s: Seq<u8>) -> bool {
    match spec_value_end(s, spec_skip_ws(s, 0)) {
        Some(e) => spec_skip_ws(s, e) == s.len(),
        None => true,
    }
}

/// The escapes `\"`, `\\`, `\/`, `\b`, `\f`, `\n`, `\r` and `\t`.
pub open spec fn is_known_escape(e: u8) -> bool {
    e == QUOTE || e == BACKSLASH || e == 0x2f || e == 0x62 || e == 0x66 || e == 0x6e
        || e == 0x72 || e == 0x74
}

/// The character that a known JSON escape `\e` stands for.
pub open spec fn escape_chars(e: u8) -> Seq<char> {
    if e == QUOTE {
        seq!['"']
    } else if e == BACKSLASH {
        seq!['\\']
    } else if e == 0x2f {
        seq!['/']
    } else if e == 0x62 {
        seq!['\u{0008}']
    } else if e == 0x66 {
        seq!['\u{000C}']
    } else if e == 0x6e {
        seq!['\n']
    } else if e == 0x72 {
        seq!['\r']
    } else {
        seq!['\t']
    }
}

/// The value of one hexadecimal digit.
pub open spec fn hex_val(b: u8) -> Option<int> {
    if 0x30 <= b <= 0x39 {
        Some(b - 0x30)
    } else if 0x61 <= b <= 0x66 {
        Some(b - 0x61 + 10)
    } else if 0x41 <= b <= 0x46 {
        Some(b - 0x41 + 10)
    } else {
        None
    }
}

/// The four bytes after `\u` read as `u16::from_str_radix(.., 16)` reads them:
/// four hexadecimal digits, or a `+` followed by three.
pub open spec fn spec_hex4(a: u8, b: u8, c: u8, d: u8) -> Option<int> {
    if a == 0x2b {
        match (hex_val(b), hex_val(c), hex_val(d)) {
            (Some(x), Some(y), Some(z)) => Some(x * 256 + y * 16 + z),
            _ => None,
        }
    } else {
        match (hex_val(a), hex_val(b), hex_val(c), hex_val(d)) {
            (Some(w), Some(x), Some(y), Some(z)) => Some(w * 4096 + x * 256 + y * 16 + z),
            _ => None,
        }
    }
}

/// A value that `char::from_u32` accepts.
pub open spec fn is_scalar_value(v: int) -> bool {
    (0 <= v < 0xD800) || (0xE000 <= v <= 0x10FFFF)
}

pub open spec fn opt_prepend(pre: Seq<char>, r: Option<Seq<char>>) -> Option<Seq<char>> {
    match r {
        Some(x) => Some(pre + x),
        None => None,
    }
}

/// Does an escape start at `i`: a backslash with a byte after it?
pub open spec fn escape_at(b: Seq<u8>, i: int) -> bool {
    0 <= i && i + 1 < b.len() && b[i] == BACKSLASH
}

/// End of the run of plain bytes from `i`: the first escape at or after `i`,
/// or the end of the contents.
pub open spec fn run_end(b: Seq<u8>, i: int) -> int
    decreases b.len() - i,
{
    if i < 0 || i >= b.len() || escape_at(b, i) {
        i
    } else {
        run_end(b, i + 1)
    }
}

/// Unescaping of the string contents `b` from offset `i` on. A run of bytes
/// between escapes is decoded as UTF-8 (`None` when it is not UTF-8).
/// `\uXXXX` with bad hex makes the whole result `None`; one that names a
/// surrogate adds nothing; one with fewer than four bytes left after it is
/// dropped. An unknown escape keeps its backslash, and the byte after it
/// starts the next run.
pub open spec fn unescape_from(b: Seq<u8>, i: int) -> Option<Seq<char>>
    decreases b.len() - i,
{
    if i < 0 || i >= b.len() {
        Some(Seq::empty())
    } else if escape_at(b, i) {
        if b[i + 1] == 0x75 {
            if i + 5 < b.len() {
                match spec_hex4(b[i + 2], b[i + 3], b[i + 4], b[i + 5]) {
                    None => None,
                    Some(code) => if is_scalar_value(code) {
                        opt_prepend(seq![code as char], unescape_from(b, i + 6))
                    } else {
                        unescape_from(b, i + 6)
                    },
                }
            } else {
                unescape_from(b, i + 2)
            }
        } else if is_known_escape(b[i + 1]) {
            opt_prepend(escape_chars(b[i + 1]), unescape_from(b, i + 2))
        } else {
            opt_prepend(seq!['\\'], unescape_from(b, i + 1))
        }
    } else {
        let j = run_end(b, i + 1);
        if i < j <= b.len() {
            let run = b.subrange(i, j);
            if valid_utf8(run) {
                opt_prepend(decode_utf8(run), unescape_from(b, j))
            } else {
                None
            }
        } else {
            None
        }
    }
}

pub open spec fn spec_unescape(b: Seq<u8>) -> Option<Seq<char>> {
    unescape_from(b, 0)
}

/// Raw key bytes match the wanted key: byte for byte when they hold no
/// backslash, otherwise after unescaping.
pub open spec fn spec_key_matches(kb: Seq<u8>, key: Seq<char>) -> bool {
    if !kb.contains(BACKSLASH) {
        kb == encode_utf8(key)
    } else {
        match spec_unescape(kb) {
            Some(u) => u == key,
            None => false,
        }
    }
}

/// Scanning an object's members from `pos` for `key`: the result is the offset
/// just after the closing quote of the first member name that matches.
pub open spec fn object_key_from(s: Seq<u8>, pos: int, key: Seq<char>) -> Option<int>
    decreases s.len() - pos,
{
    let p = spec_skip_ws(s, pos);
    if pos < 0 || p >= s.len() {
        None
    } else if s[p] == CLOSE_BRACE {
        None
    } else if s[p] == QUOTE {
        match spec_string_end(s, p + 1) {
            None => None,
            Some(ke) => if spec_key_matches(s.subrange(p + 1, ke), key) {
                Some(ke + 1)
            } else {
                let q = spec_skip_ws(s, ke + 1);
                if q >= s.len() || s[q] != COLON {
                    None
                } else {
                    match spec_value_end(s, spec_skip_ws(s, q + 1)) {
                        None => None,
                        Some(ve) => {
                            let t = spec_skip_ws(s, ve);
                            let next = if t < s.len() && s[t] == COMMA { t + 1 } else { t };
                            if pos < next <= s.len() {
                                object_key_from(s, next, key)
                            } else {
                                None
                            }
                        },
                    }
                }
            },
        }
    } else if s[p] == COMMA {
        if pos < p + 1 <= s.len() {
            object_key_from(s, p + 1, key)
        } else {
            None
        }
    } else {
        None
    }
}

/// Following `keys` from `d` on, starting inside an object at `pos`: the byte
/// range of the value of the last key.
pub open spec fn path_from(s: Seq<u8>, pos: int, keys: Seq<Seq<char>>, d: int) -> Option<(int, int)>
    decreases keys.len() - d,
{
    if d < 0 || d >= keys.len() {
        None
    } else {
        match object_key_from(s, spec_skip_ws(s, pos), keys[d]) {
            None => None,
            Some(k) => {
                let q = spec_skip_ws(s, k);
                if q >= s.len() || s[q] != COLON {
                    None
                } else {
                    let r = spec_skip_ws(s, q + 1);
                    if d == keys.len() - 1 {
                        match spec_value_end(s, r) {
                            Some(e) => Some((r, e)),
                            None => None,
                        }
                    } else if r >= s.len() || s[r] != OPEN_BRACE {
                        None
                    } else {
                        path_from(s, r + 1, keys, d + 1)
                    }
                }
            },
        }
    }
}

/// The byte range of the value at `keys`; with no keys, the root value.
pub open spec fn spec_find_path(s: Seq<u8>, keys: Seq<Seq<char>>) -> Option<(int, int)> {
    let p = spec_skip_ws(s, 0);
    if keys.len() == 0 {
        match spec_value_end(s, p) {
            Some(e) => Some((p, e)),
            None => None,
        }
    } else if p >= s.len() || s[p] != OPEN_BRACE {
        None
    } else {
        path_from(s, p + 1, keys, 0)
    }
}

/// The characters of the keys of a path.
pub open spec fn path_keys(path: Seq<&str>) -> Seq<Seq<char>> {
    path.map_values(|k: &str| k@)
}

/// The bytes of the value at `keys`.
pub open spec fn spec_value_at(s: Seq<u8>, keys: Seq<Seq<char>>) -> Option<Seq<u8>> {
    match spec_find_path(s, keys) {
        Some((a, b)) => Some(s.subrange(a, b)),
        None => None,
    }
}

/// Offset of the last non-whitespace byte plus one, scanning down from `j`.
pub open spec fn trim_end_json(s: Seq<u8>, j: int) -> int
    decreases j,
{
    if 0 < j <= s.len() && is_json_ws(s[j - 1]) {
        trim_end_json(s, j - 1)
    } else {
        j
    }
}

/// `s` without leading and trailing JSON whitespace.
pub open spec fn spec_trim_json(s: Seq<u8>) -> Seq<u8> {
    let a = spec_skip_ws(s, 0);
    let b = trim_end_json(s, s.len() as int);
    if a < b { s.subrange(a, b) } else { Seq::empty() }
}

/// A JSON string value: quotes around the contents, then the contents decoded
/// as UTF-8 when they hold no backslash and unescaped otherwise.
pub open spec fn spec_string_value(v: Seq<u8>) -> Option<Seq<char>> {
    let t = spec_trim_json(v);
    if t.len() < 2 || t[0] != QUOTE || t[t.len() - 1] != QUOTE {
        None
    } else {
        let inner = t.subrange(1, t.len() - 1);
        if !inner.contains(BACKSLASH) {
            if valid_utf8(inner) { Some(decode_utf8(inner)) } else { None }
        } else {
            spec_unescape(inner)
        }
    }
}

/// The value of a sequence of decimal digits.
pub open spec fn digits_value(d: Seq<u8>) -> int
    decreases d.len(),
{
    if d.len() == 0 {
        0
    } else {
        digits_value(d.drop_last()) * 10 + (d.last() - 0x30)
    }
}

pub open spec fn all_digits(d: Seq<u8>) -> bool {
    forall|i: int| 0 <= i < d.len() ==> is_digit(#[trigger] d[i])
}

/// The text read as `i64::from_str` reads it: an optional sign, then at least
/// one decimal digit, and a value that fits in `i64`.
pub open spec fn spec_parse_i64(t: Seq<u8>) -> Option<i64> {
    if t.len() == 0 {
        None
    } else {
        let neg = t[0] == 0x2d;
        let digits = if t[0] == 0x2d || t[0] == 0x2b { t.drop_first() } else { t };
        if digits.len() == 0 || !all_digits(digits) {
            None
        } else {
            let v = if neg { -digits_value(digits) } else { digits_value(digits) };
            if i64::MIN <= v <= i64::MAX { Some(v as i64) } else { None }
        }
    }
}

/// A JSON boolean literal, after trimming.
pub open spec fn spec_bool_value(v: Seq<u8>) -> Option<bool> {
    let t = spec_trim_json(v);
    if t == true_bytes() {
        Some(true)
    } else if t == false_bytes() {
        Some(false)
    } else {
        None
    }
}

pub open spec fn opt_usize(o: Option<usize>) -> Option<int> {
    match o {
        Some(v) => Some(v as int),
        None => None,
    }
}

// ===========================================================================
// Bounds of the scanner's positions
// ===========================================================================

pub proof fn lemma_skip_ws_bounds(s: Seq<u8>, pos: int)
    ensures
        pos <= spec_skip_ws(s, pos),
        0 <= pos <= s.len() ==> spec_skip_ws(s, pos) <= s.len(),
        pos > s.len() ==> spec_skip_ws(s, pos) == pos,
        0 <= spec_skip_ws(s, pos) < s.len() ==> !is_json_ws(s[spec_skip_ws(s, pos)]),
    decreases s.len() - pos,
{
    if 0 <= pos < s.len() && is_json_ws(s[pos]) {
        lemma_skip_ws_bounds(s, pos + 1);
    }
}

pub proof fn lemma_string_end_bounds(s: Seq<u8>, pos: int)
    ensures
        spec_string_end(s, pos) matches Some(e) ==> pos <= e < s.len() && s[e] == QUOTE,
    decreases s.len() - pos,
{
    if pos < 0 || pos >= s.len() {
    } else if s[pos] == QUOTE {
    } else if s[pos] == BACKSLASH {
        if pos + 2 < s.len() {
            lemma_string_end_bounds(s, pos + 2);
        }
    } else {
        lemma_string_end_bounds(s, pos + 1);
    }
}

pub proof fn lemma_balanced_bounds(
    s: Seq<u8>,
    i: int,
    open: u8,
    close: u8,
    depth: int,
    in_str: bool,
    esc: bool,
)
    ensures
        balanced_from(s, i, open, close, depth, in_str, esc) matches Some(e) ==> i < e <= s.len(),
    decreases s.len() - i,
{
    if i < 0 || i >= s.len() {
    } else if esc {
        lemma_balanced_bounds(s, i + 1, open, close, depth, in_str, false);
    } else if s[i] == BACKSLASH && in_str {
        lemma_balanced_bounds(s, i + 1, open, close, depth, in_str, true);
    } else if s[i] == QUOTE {
        lemma_balanced_bounds(s, i + 1, open, close, depth, !in_str, false);
    } else if in_str {
        lemma_balanced_bounds(s, i + 1, open, close, depth, in_str, false);
    } else if s[i] == open {
        lemma_balanced_bounds(s, i + 1, open, close, depth + 1, in_str, false);
    } else if s[i] == close {
        if depth - 1 != 0 {
            lemma_balanced_bounds(s, i + 1, open, close, depth - 1, in_str, false);
        }
    } else {
        lemma_balanced_bounds(s, i + 1, open, close, depth, in_str, false);
    }
}

pub proof fn lemma_number_end_bounds(s: Seq<u8>, pos: int)
    ensures
        0 <= pos <= s.len() ==> pos <= spec_number_end(s, pos) <= s.len(),
    decreases s.len() - pos,
{
    if 0 <= pos < s.len() && is_number_byte(s[pos]) {
        lemma_number_end_bounds(s, pos + 1);
    }
}

pub proof fn lemma_value_end_bounds(s: Seq<u8>, pos: int)
    ensures
        spec_value_end(s, pos) matches Some(e) ==> 0 <= pos < e <= s.len(),
{
    if 0 <= pos < s.len() {
        lemma_string_end_bounds(s, pos + 1);
        lemma_balanced_bounds(s, pos, OPEN_BRACE, CLOSE_BRACE, 0, false, false);
        lemma_balanced_bounds(s, pos, OPEN_BRACKET, CLOSE_BRACKET, 0, false, false);
        lemma_number_end_bounds(s, pos);
        if s[pos] == 0x2d || is_digit(s[pos]) {
            assert(is_number_byte(s[pos]));
            lemma_number_end_bounds(s, pos + 1);
        }
    }
}

pub proof fn lemma_object_key_bounds(s: Seq<u8>, pos: int, key: Seq<char>)
    ensures
        object_key_from(s, pos, key) matches Some(k) ==> 0 <= pos < k <= s.len(),
    decreases s.len() - pos,
{
    let p = spec_skip_ws(s, pos);
    lemma_skip_ws_bounds(s, pos);
    if pos < 0 || p >= s.len() {
    } else if s[p] == CLOSE_BRACE {
    } else if s[p] == QUOTE {
        lemma_string_end_bounds(s, p + 1);
        match spec_string_end(s, p + 1) {
            None => {},
            Some(ke) => if !spec_key_matches(s.subrange(p + 1, ke), key) {
                let q = spec_skip_ws(s, ke + 1);
                if q < s.len() && s[q] == COLON {
                    match spec_value_end(s, spec_skip_ws(s, q + 1)) {
                        None => {},
                        Some(ve) => {
                            let t = spec_skip_ws(s, ve);
                            let next = if t < s.len() && s[t] == COMMA { t + 1 } else { t };
                            if pos < next <= s.len() {
                                lemma_object_key_bounds(s, next, key);
                            }
                        },
                    }
                }
            },
        }
    } else if s[p] == COMMA {
        if pos < p + 1 <= s.len() {
            lemma_object_key_bounds(s, p + 1, key);
        }
    }
}

pub proof fn lemma_path_from_bounds(s: Seq<u8>, pos: int, keys: Seq<Seq<char>>, d: int)
    ensures
        path_from(s, pos, keys, d) matches Some((a, b)) ==> 0 <= a < b <= s.len(),
    decreases keys.len() - d,
{
    if 0 <= d < keys.len() {
        match object_key_from(s, spec_skip_ws(s, pos), keys[d]) {
            None => {},
            Some(k) => {
                let q = spec_skip_ws(s, k);
                if q < s.len() && s[q] == COLON {
                    let r = spec_skip_ws(s, q + 1);
                    lemma_value_end_bounds(s, r);
                    if d != keys.len() - 1 && r < s.len() && s[r] == OPEN_BRACE {
                        lemma_path_from_bounds(s, r + 1, keys, d + 1);
                    }
                }
            },
        }
    }
}

// ===========================================================================
// The scanner
// ===========================================================================

/// First offset at or after `pos` that does not hold JSON whitespace.
pub fn skip_whitespace(bytes: &[u8], pos: usize) -> (r: usize)
    ensures
        r == spec_skip_ws(bytes@, pos as int),
{
    let mut p = pos;
    while p < bytes.len() && (bytes[p] == 0x20 || bytes[p] == 0x09 || bytes[p] == 0x0a || bytes[p] == 0x0d)
        invariant
            pos <= p,
            spec_skip_ws(bytes@, p as int) == spec_skip_ws(bytes@, pos as int),
        decreases bytes.len() - p,
    {
        p = p + 1;
    }
    p
}

/// Offset of the quote that closes the string whose contents start at `pos`.
pub fn find_string_end(bytes: &[u8], pos: usize) -> (r: Option<usize>)
    ensures
        opt_usize(r) == spec_string_end(bytes@, pos as int),
{
    let mut p = pos;
    while p < bytes.len()
        invariant
            spec_string_end(bytes@, p as int) == spec_string_end(bytes@, pos as int),
        decreases bytes.len() - p,
    {
        if bytes[p] == QUOTE {
            return Some(p);
        } else if bytes[p] == BACKSLASH {
            if bytes.len() - p <= 2 {
                return None;
            }
            p = p + 2;
        } else {
            p = p + 1;
        }
    }
    None
}

/// Offset just after the bracket that closes the object or array opened at `pos`.
pub fn find_balanced_end(bytes: &[u8], pos: usize, open: u8, close: u8) -> (r: Option<usize>)
    requires
        pos < bytes.len(),
        bytes@[pos as int] == open,
        open != close,
        open != QUOTE && open != BACKSLASH,
    ensures
        opt_usize(r) == balanced_from(bytes@, pos as int, open, close, 0, false, false),
{
    let mut p = pos;
    let mut depth: usize = 0;
    let mut in_string = false;
    let mut escape = false;
    while p < bytes.len()
        invariant
            pos <= p <= bytes.len(),
            p == pos ==> depth == 0 && !in_string && !escape,
            p > pos ==> 1 <= depth <= p - pos,
            bytes@[pos as int] == open,
            open != close,
            open != QUOTE && open != BACKSLASH,
            balanced_from(bytes@, p as int, open, close, depth as int, in_string, escape)
                == balanced_from(bytes@, pos as int, open, close, 0, false, false),
        decreases bytes.len() - p,
    {
        let b = bytes[p];
        if escape {
            escape = false;
        } else if b == BACKSLASH && in_string {
            escape = true;
        } else if b == QUOTE {
            in_string = !in_string;
        } else if in_string {
        } else if b == open {
            depth = depth + 1;
        } else if b == close {
            if depth - 1 == 0 {
                return Some(p + 1);
            }
            depth = depth - 1;
        }
        p = p + 1;
    }
    None
}

/// Do the four bytes at `at` spell the literal `lit`?
fn literal_at_exec(bytes: &[u8], pos: usize, lit: &[u8]) -> (r: bool)
    ensures
        r == literal_at(bytes@, pos as int, lit@),
{
    let r = occurs_at_exec(bytes, lit, pos);
    proof {
        if r {
            assert(literal_at(bytes@, pos as int, lit@));
        }
    }
    r
}

/// Offset just after the JSON value that starts at `pos`.
pub fn find_value_end(bytes: &[u8], pos: usize) -> (r: Option<usize>)
    ensures
        opt_usize(r) == spec_value_end(bytes@, pos as int),
{
    if pos >= bytes.len() {
        return None;
    }
    let b = bytes[pos];
    if b == QUOTE {
        match find_string_end(bytes, pos + 1) {
            Some(e) => {
                proof { lemma_string_end_bounds(bytes@, pos + 1); }
                Some(e + 1)
            },
            None => None,
        }
    } else if b == OPEN_BRACE {
        find_balanced_end(bytes, pos, OPEN_BRACE, CLOSE_BRACE)
    } else if b == OPEN_BRACKET {
        find_balanced_end(bytes, pos, OPEN_BRACKET, CLOSE_BRACKET)
    } else if b == 0x74 {
        let lit: [u8; 4] = [0x74, 0x72, 0x75, 0x65];
        proof { assert(lit@ =~= true_bytes()); }
        if literal_at_exec(bytes, pos, lit.as_slice()) { Some(pos + 4) } else { None }
    } else if b == 0x66 {
        let lit: [u8; 5] = [0x66, 0x61, 0x6c, 0x73, 0x65];
        proof { assert(lit@ =~= false_bytes()); }
        if literal_at_exec(bytes, pos, lit.as_slice()) { Some(pos + 5) } else { None }
    } else if b == 0x6e {
        let lit: [u8; 4] = [0x6e, 0x75, 0x6c, 0x6c];
        proof { assert(lit@ =~= null_bytes()); }
        if literal_at_exec(bytes, pos, lit.as_slice()) { Some(pos + 4) } else { None }
    } else if b == 0x2d || (0x30 <= b && b <= 0x39) {
        let mut end = pos;
        while end < bytes.len() && ((0x30 <= bytes[end] && bytes[end] <= 0x39) || bytes[end] == 0x2d
            || bytes[end] == 0x2b || bytes[end] == 0x2e || bytes[end] == 0x65 || bytes[end] == 0x45)
            invariant
                pos <= end,
                spec_number_end(bytes@, end as int) == spec_number_end(bytes@, pos as int),
            decreases bytes.len() - end,
        {
            end = end + 1;
        }
        Some(end)
    } else {
        None
    }
}

/// Is the first value, if a complete one is found, followed by whitespace
/// alone?
pub fn has_no_trailing_content(bytes: &[u8]) -> (r: bool)
    ensures
        r == spec_no_trailing_content(bytes@),
{
    let p = skip_whitespace(bytes, 0);
    match find_value_end(bytes, p) {
        Some(e) => {
            proof { lemma_value_end_bounds(bytes@, p as int); }
            skip_whitespace(bytes, e) == bytes.len()
        },
        None => true,
    }
}

pub proof fn lemma_run_end_bounds(b: Seq<u8>, i: int)
    requires
        0 <= i <= b.len(),
    ensures
        i <= run_end(b, i) <= b.len(),
    decreases b.len() - i,
{
    if !(i >= b.len() || escape_at(b, i)) {
        lemma_run_end_bounds(b, i + 1);
    }
}

proof fn lemma_run_end_plain(b: Seq<u8>, i: int)
    requires
        0 <= i <= b.len(),
        !b.contains(BACKSLASH),
    ensures
        run_end(b, i) == b.len(),
    decreases b.len() - i,
{
    if i < b.len() {
        assert(b[i] != BACKSLASH);
        lemma_run_end_plain(b, i + 1);
    }
}

proof fn lemma_run_end_shift(p: Seq<u8>, b: Seq<u8>, i: int)
    requires
        0 <= i,
    ensures
        run_end(p + b, i + p.len()) == run_end(b, i) + p.len(),
    decreases b.len() - i,
{
    let x = p + b;
    if i < b.len() {
        assert(x[i + p.len()] == b[i]);
        if i + 1 < b.len() {
            assert(x[i + 1 + p.len()] == b[i + 1]);
        }
        if !escape_at(b, i) {
            lemma_run_end_shift(p, b, i + 1);
        }
    }
}

/// Unescaping reads only what follows its offset: contents behind a prefix
/// unescape as they do alone.
proof fn lemma_unescape_shift(p: Seq<u8>, b: Seq<u8>, i: int)
    requires
        0 <= i,
    ensures
        unescape_from(p + b, i + p.len()) == unescape_from(b, i),
    decreases b.len() - i,
{
    let x = p + b;
    let n = p.len() as int;
    if i < b.len() {
        assert forall|k: int| i <= k < b.len() implies #[trigger] x[k + n] == b[k] by {}
        assert(x[i + n] == b[i]);
        if escape_at(b, i) {
            assert(x[i + 1 + n] == b[i + 1]);
            if i + 5 < b.len() {
                assert(x[i + 2 + n] == b[i + 2]);
                assert(x[i + 3 + n] == b[i + 3]);
                assert(x[i + 4 + n] == b[i + 4]);
                assert(x[i + 5 + n] == b[i + 5]);
            }
            lemma_unescape_shift(p, b, i + 1);
            lemma_unescape_shift(p, b, i + 2);
            if i + 6 <= b.len() {
                lemma_unescape_shift(p, b, i + 6);
            }
        } else {
            if i + 1 < b.len() {
                assert(x[i + 1 + n] == b[i + 1]);
            }
            assert(!escape_at(x, i + n));
            lemma_run_end_shift(p, b, i + 1);
            lemma_run_end_bounds(b, i + 1);
            let j = run_end(b, i + 1);
            assert(x.subrange(i + n, j + n) =~= b.subrange(i, j));
            lemma_unescape_shift(p, b, j);
        }
    }
}

proof fn lemma_escape_pair(e: u8, b: Seq<u8>)
    requires
        is_known_escape(e),
    ensures
        spec_unescape(seq![0x5cu8, e] + b) == opt_prepend(escape_chars(e), spec_unescape(b)),
{
    let p = seq![0x5cu8, e];
    lemma_unescape_shift(p, b, 0);
    assert((p + b)[0] == 0x5c);
    assert((p + b)[1] == e);
    assert(escape_at(p + b, 0));
}

/// Each two-byte JSON escape stands for its character (RFC 8259): `\"` for a
/// quotation mark, `\\` for a backslash, `\/` for a solidus, and `\b`,
/// `\f`, `\n`, `\r`, `\t` for backspace, form feed, line feed, carriage
/// return and tab; what follows unescapes as it would alone.
pub proof fn law_unescape_two_byte_escapes(b: Seq<u8>)
    ensures
        spec_unescape(seq![0x5cu8, 0x22u8] + b) == opt_prepend(seq!['"'], spec_unescape(b)),
        spec_unescape(seq![0x5cu8, 0x5cu8] + b) == opt_prepend(seq!['\\'], spec_unescape(b)),
        spec_unescape(seq![0x5cu8, 0x2fu8] + b) == opt_prepend(seq!['/'], spec_unescape(b)),
        spec_unescape(seq![0x5cu8, 0x62u8] + b) == opt_prepend(seq!['\u{0008}'], spec_unescape(b)),
        spec_unescape(seq![0x5cu8, 0x66u8] + b) == opt_prepend(seq!['\u{000C}'], spec_unescape(b)),
        spec_unescape(seq![0x5cu8, 0x6eu8] + b) == opt_prepend(seq!['\n'], spec_unescape(b)),
        spec_unescape(seq![0x5cu8, 0x72u8] + b) == opt_prepend(seq!['\r'], spec_unescape(b)),
        spec_unescape(seq![0x5cu8, 0x74u8] + b) == opt_prepend(seq!['\t'], spec_unescape(b)),
{
    lemma_escape_pair(0x22, b);
    lemma_escape_pair(0x5c, b);
    lemma_escape_pair(0x2f, b);
    lemma_escape_pair(0x62, b);
    lemma_escape_pair(0x66, b);
    lemma_escape_pair(0x6e, b);
    lemma_escape_pair(0x72, b);
    lemma_escape_pair(0x74, b);
}

/// An ASCII hexadecimal digit: `0`-`9`, `a`-`f` or `A`-`F`.
pub open spec fn is_ascii_hex(x: u8) -> bool {
    (0x30 <= x <= 0x39) || (0x61 <= x <= 0x66) || (0x41 <= x <= 0x46)
}

/// The value of an ASCII hexadecimal digit.
pub open spec fn ascii_hex_value(x: u8) -> int {
    if x <= 0x39 { x - 0x30 } else if x >= 0x61 { x - 0x61 + 10 } else { x - 0x41 + 10 }
}

/// `\uXXXX` with four hexadecimal digits stands for the character with that
/// code, or for nothing when the code is a surrogate; what follows unescapes
/// as it would alone.
pub proof fn law_unescape_unicode_escape(a: u8, b: u8, c: u8, d: u8, rest: Seq<u8>)
    requires
        is_ascii_hex(a),
        is_ascii_hex(b),
        is_ascii_hex(c),
        is_ascii_hex(d),
    ensures
        ({
            let v = ascii_hex_value(a) * 4096 + ascii_hex_value(b) * 256 + ascii_hex_value(c) * 16
                + ascii_hex_value(d);
            &&& (v < 0xD800 || v >= 0xE000) ==> spec_unescape(seq![0x5cu8, 0x75u8, a, b, c, d] + rest)
                == opt_prepend(seq![v as char], spec_unescape(rest))
            &&& (0xD800 <= v < 0xE000) ==> spec_unescape(seq![0x5cu8, 0x75u8, a, b, c, d] + rest)
                == spec_unescape(rest)
        }),
{
    let p = seq![0x5cu8, 0x75u8, a, b, c, d];
    let x = p + rest;
    lemma_unescape_shift(p, rest, 0);
    assert(x[0] == 0x5c);
    assert(x[1] == 0x75);
    assert(x[2] == a);
    assert(x[3] == b);
    assert(x[4] == c);
    assert(x[5] == d);
    assert(escape_at(x, 0));
}

/// A value whose text, without the whitespace around it, is the literal
/// `true` reads as `Some(true)`, one that is `false` as `Some(false)`, and
/// any other value as `None`.
pub proof fn law_bool_reads_literals(v: Seq<u8>)
    ensures
        spec_trim_json(v) == seq![0x74u8, 0x72u8, 0x75u8, 0x65u8] ==> spec_bool_value(v) == Some(true),
        spec_trim_json(v) == seq![0x66u8, 0x61u8, 0x6cu8, 0x73u8, 0x65u8] ==> spec_bool_value(v) == Some(false),
        spec_trim_json(v) != seq![0x74u8, 0x72u8, 0x75u8, 0x65u8]
            && spec_trim_json(v) != seq![0x66u8, 0x61u8, 0x6cu8, 0x73u8, 0x65u8] ==> spec_bool_value(v) is None,
{
    assert(true_bytes() =~= seq![0x74u8, 0x72u8, 0x75u8, 0x65u8]);
    assert(false_bytes() =~= seq![0x66u8, 0x61u8, 0x6cu8, 0x73u8, 0x65u8]);
}

/// Contents without a backslash unescape to the text their bytes encode, as
/// the string reader decodes them without unescaping (and to `None` when the
/// bytes are not UTF-8).
pub proof fn law_unescape_plain_is_decoding(b: Seq<u8>)
    requires
        !b.contains(BACKSLASH),
    ensures
        spec_unescape(b) == (if valid_utf8(b) { Some(decode_utf8(b)) } else { None::<Seq<char>> }),
{
    if b.len() > 0 {
        assert(b[0] != BACKSLASH);
        assert(!escape_at(b, 0));
        lemma_run_end_plain(b, 1);
        assert(b.subrange(0, b.len() as int) =~= b);
        assert(unescape_from(b, b.len() as int) == Some(Seq::<char>::empty()));
        if valid_utf8(b) {
            assert(decode_utf8(b) + Seq::<char>::empty() =~= decode_utf8(b));
        }
    } else {
        let c = Seq::<char>::empty();
        vstd::utf8::encode_utf8_valid_utf8(c);
        vstd::utf8::encode_utf8_decode_utf8(c);
        assert(encode_utf8(c) =~= b);
    }
}

/// End of the run of plain bytes from `i`.
fn find_run_end(bytes: &[u8], i: usize) -> (r: usize)
    requires
        i <= bytes.len(),
    ensures
        r == run_end(bytes@, i as int),
        i <= r <= bytes.len(),
{
    proof { lemma_run_end_bounds(bytes@, i as int); }
    let mut j = i;
    while j < bytes.len() && !(bytes[j] == BACKSLASH && j + 1 < bytes.len())
        invariant
            i <= j <= bytes.len(),
            run_end(bytes@, j as int) == run_end(bytes@, i as int),
        decreases bytes.len() - j,
    {
        j = j + 1;
    }
    j
}

/// Unescapes JSON string contents (without the surrounding quotes); the
/// plain bytes between escapes are decoded as UTF-8.
pub fn unescape_string(bytes: &[u8]) -> (r: Option<String>)
    ensures
        match r {
            Some(t) => spec_unescape(bytes@) == Some(t@),
            None => spec_unescape(bytes@) is None,
        },
{
    let mut result = String::new();
    let mut i: usize = 0;
    while i < bytes.len()
        invariant
            i <= bytes.len(),
            unescape_from(bytes@, 0) == opt_prepend(result@, unescape_from(bytes@, i as int)),
        decreases bytes.len() - i,
    {
        let ghost prev = result@;
        if bytes[i] == BACKSLASH && i + 1 < bytes.len() {
            let e = bytes[i + 1];
            if e == 0x75 {
                if bytes.len() - i > 5 {
                    match hex4(bytes[i + 2], bytes[i + 3], bytes[i + 4], bytes[i + 5]) {
                        None => {
                            return None;
                        },
                        Some(code) => {
                            match char_from_u32(code as u32) {
                                Some(c) => {
                                    proof { vstd::utf8::char_u32_cast(c, code as u32); }
                                    push_char(&mut result, c);
                                    proof {
                                        assert(result@ == prev + seq![code as char]);
                                        assert(opt_prepend(prev, opt_prepend(seq![code as char], unescape_from(bytes@, i + 6)))
                                            == opt_prepend(result@, unescape_from(bytes@, i + 6)));
                                    }
                                },
                                None => {},
                            }
                            i = i + 4;
                        },
                    }
                }
                i = i + 2;
            } else if e == QUOTE || e == BACKSLASH || e == 0x2f || e == 0x62 || e == 0x66
                || e == 0x6e || e == 0x72 || e == 0x74 {
                if e == QUOTE {
                    push_char(&mut result, '"');
                } else if e == BACKSLASH {
                    push_char(&mut result, '\\');
                } else if e == 0x2f {
                    push_char(&mut result, '/');
                } else if e == 0x62 {
                    push_char(&mut result, '\u{0008}');
                } else if e == 0x66 {
                    push_char(&mut result, '\u{000C}');
                } else if e == 0x6e {
                    push_char(&mut result, '\n');
                } else if e == 0x72 {
                    push_char(&mut result, '\r');
                } else {
                    push_char(&mut result, '\t');
                }
                proof {
                    assert(result@ =~= prev + escape_chars(e));
                    assert(opt_prepend(prev, opt_prepend(escape_chars(e), unescape_from(bytes@, i + 2)))
                        == opt_prepend(result@, unescape_from(bytes@, i + 2)));
                }
                i = i + 2;
            } else {
                push_char(&mut result, '\\');
                proof {
                    assert(opt_prepend(prev, opt_prepend(seq!['\\'], unescape_from(bytes@, i + 1)))
                        == opt_prepend(result@, unescape_from(bytes@, i + 1)));
                }
                i = i + 1;
            }
        } else {
            let j = find_run_end(bytes, i + 1);
            let run = &bytes[i..j];
            match str_from_utf8(run) {
                Some(t) => {
                    push_text(&mut result, t);
                    proof {
                        assert(run@ == bytes@.subrange(i as int, j as int));
                        assert(opt_prepend(prev, opt_prepend(decode_utf8(run@), unescape_from(bytes@, j as int)))
                            == opt_prepend(result@, unescape_from(bytes@, j as int)));
                    }
                },
                None => {
                    proof { assert(run@ == bytes@.subrange(i as int, j as int)); }
                    return None;
                },
            }
            i = j;
        }
    }
    proof {
        assert(result@ + Seq::<char>::empty() =~= result@);
    }
    Some(result)
}

/// Value of one hexadecimal digit.
fn hex_digit(b: u8) -> (r: Option<u32>)
    ensures
        opt_u32(r) == hex_val(b),
        r matches Some(v) ==> v < 16,
{
    if 0x30 <= b && b <= 0x39 {
        Some((b - 0x30) as u32)
    } else if 0x61 <= b && b <= 0x66 {
        Some((b - 0x61 + 10) as u32)
    } else if 0x41 <= b && b <= 0x46 {
        Some((b - 0x41 + 10) as u32)
    } else {
        None
    }
}

pub open spec fn opt_u32(o: Option<u32>) -> Option<int> {
    match o {
        Some(v) => Some(v as int),
        None => None,
    }
}

/// The four bytes after `\u` as a hexadecimal number.
fn hex4(a: u8, b: u8, c: u8, d: u8) -> (r: Option<u32>)
    ensures
        opt_u32(r) == spec_hex4(a, b, c, d),
        r matches Some(v) ==> v <= 0xFFFF,
{
    if a == 0x2b {
        match (hex_digit(b), hex_digit(c), hex_digit(d)) {
            (Some(x), Some(y), Some(z)) => Some(x * 256 + y * 16 + z),
            _ => None,
        }
    } else {
        match (hex_digit(a), hex_digit(b), hex_digit(c), hex_digit(d)) {
            (Some(w), Some(x), Some(y), Some(z)) => Some(w * 4096 + x * 256 + y * 16 + z),
            _ => None,
        }
    }
}

/// Do the raw key bytes match the wanted key?
pub fn key_matches(key_bytes: &[u8], target: &str) -> (r: bool)
    ensures
        r == spec_key_matches(key_bytes@, target@),
{
    if !contains_byte(key_bytes, BACKSLASH) {
        return bytes_eq(key_bytes, target.as_bytes());
    }
    match unescape_string(key_bytes) {
        Some(u) => {
            let us = u.as_str();
            let eq = bytes_eq(us.as_bytes(), target.as_bytes());
            proof {
                vstd::utf8::encode_utf8_decode_utf8(us@);
                vstd::utf8::encode_utf8_decode_utf8(target@);
            }
            eq
        },
        None => false,
    }
}

/// Offset just after the closing quote of the member name `target`, scanning
/// the members of an object from `pos`.
pub fn find_object_key(bytes: &[u8], pos: usize, target: &str) -> (r: Option<usize>)
    ensures
        opt_usize(r) == object_key_from(bytes@, pos as int, target@),
{
    let ghost s = bytes@;
    let ghost key = target@;
    if pos > bytes.len() {
        proof { lemma_skip_ws_bounds(s, pos as int); }
        return None;
    }
    let mut p = pos;
    loop
        invariant
            p <= bytes.len(),
            s == bytes@,
            key == target@,
            object_key_from(s, p as int, key) == object_key_from(s, pos as int, key),
        decreases bytes.len() - p,
    {
        let start = p;
        proof { lemma_skip_ws_bounds(s, p as int); }
        p = skip_whitespace(bytes, p);
        if p >= bytes.len() {
            return None;
        }
        let b = bytes[p];
        if b == CLOSE_BRACE {
            return None;
        } else if b == QUOTE {
            let key_start = p + 1;
            let key_end = match find_string_end(bytes, key_start) {
                Some(e) => e,
                None => {
                    return None;
                },
            };
            proof { lemma_string_end_bounds(s, key_start as int); }
            let key_bytes = &bytes[key_start..key_end];
            p = key_end + 1;
            if key_matches(key_bytes, target) {
                return Some(p);
            }
            proof { lemma_skip_ws_bounds(s, p as int); }
            p = skip_whitespace(bytes, p);
            if p >= bytes.len() || bytes[p] != COLON {
                return None;
            }
            p = p + 1;
            proof { lemma_skip_ws_bounds(s, p as int); }
            p = skip_whitespace(bytes, p);
            let ghost r0 = p;
            p = match find_value_end(bytes, p) {
                Some(e) => e,
                None => {
                    return None;
                },
            };
            proof {
                lemma_value_end_bounds(s, r0 as int);
                lemma_skip_ws_bounds(s, p as int);
            }
            p = skip_whitespace(bytes, p);
            if p < bytes.len() && bytes[p] == COMMA {
                p = p + 1;
            }
        } else if b == COMMA {
            p = p + 1;
        } else {
            return None;
        }
        assert(start < p);
    }
}

/// Byte range `(start, end)` of the value found by following `path` from the
/// root object; an empty path gives the root value itself.
pub fn find_path_value(bytes: &[u8], path: &[&str]) -> (r: Option<(usize, usize)>)
    ensures
        match r {
            Some((a, b)) => spec_find_path(bytes@, path_keys(path@)) == Some((a as int, b as int))
                && a < b <= bytes.len(),
            None => spec_find_path(bytes@, path_keys(path@)) is None,
        },
{
    let ghost s = bytes@;
    let ghost keys = path_keys(path@);
    proof { lemma_skip_ws_bounds(s, 0); }
    if path.len() == 0 {
        let start = skip_whitespace(bytes, 0);
        let end = match find_value_end(bytes, start) {
            Some(e) => e,
            None => {
                return None;
            },
        };
        proof { lemma_value_end_bounds(s, start as int); }
        return Some((start, end));
    }
    let mut pos = skip_whitespace(bytes, 0);
    if pos >= bytes.len() || bytes[pos] != OPEN_BRACE {
        return None;
    }
    pos = pos + 1;
    let mut d: usize = 0;
    while d < path.len()
        invariant
            pos <= bytes.len(),
            d <= path.len(),
            s == bytes@,
            keys == path_keys(path@),
            keys.len() == path.len(),
            spec_find_path(s, keys) == path_from(s, pos as int, keys, d as int),
        decreases path.len() - d,
    {
        proof { lemma_skip_ws_bounds(s, pos as int); }
        let p0 = skip_whitespace(bytes, pos);
        let key = path[d];
        assert(keys[d as int] == key@);
        let k = match find_object_key(bytes, p0, key) {
            Some(k) => k,
            None => {
                return None;
            },
        };
        proof {
            lemma_object_key_bounds(s, p0 as int, key@);
            lemma_skip_ws_bounds(s, k as int);
        }
        let q = skip_whitespace(bytes, k);
        if q >= bytes.len() || bytes[q] != COLON {
            return None;
        }
        proof { lemma_skip_ws_bounds(s, q + 1); }
        let r = skip_whitespace(bytes, q + 1);
        if d == path.len() - 1 {
            let e = match find_value_end(bytes, r) {
                Some(e) => e,
                None => {
                    return None;
                },
            };
            proof { lemma_value_end_bounds(s, r as int); }
            return Some((r, e));
        }
        if r >= bytes.len() || bytes[r] != OPEN_BRACE {
            return None;
        }
        pos = r + 1;
        d = d + 1;
    }
    None
}

/// Bounds of `bytes` without leading and trailing JSON whitespace.
pub fn trim_whitespace_bounds(bytes: &[u8]) -> (r: (usize, usize))
    ensures
        r.0 <= r.1 <= bytes.len(),
        bytes@.subrange(r.0 as int, r.1 as int) == spec_trim_json(bytes@),
{
    proof { lemma_skip_ws_bounds(bytes@, 0); }
    let a = skip_whitespace(bytes, 0);
    let mut b = bytes.len();
    while b > 0 && (bytes[b - 1] == 0x20 || bytes[b - 1] == 0x09 || bytes[b - 1] == 0x0a || bytes[b - 1] == 0x0d)
        invariant
            b <= bytes.len(),
            trim_end_json(bytes@, b as int) == trim_end_json(bytes@, bytes.len() as int),
        decreases b,
    {
        b = b - 1;
    }
    if a < b {
        (a, b)
    } else {
        assert(bytes@.subrange(a as int, a as int) =~= Seq::<u8>::empty());
        (a, a)
    }
}

/// `bytes` without leading and trailing JSON whitespace.
pub fn trim_whitespace(bytes: &[u8]) -> (r: &[u8])
    ensures
        r@ == spec_trim_json(bytes@),
{
    let (a, b) = trim_whitespace_bounds(bytes);
    &bytes[a..b]
}

/// Reads a JSON string value (with its quotes) as text.
pub fn parse_string_value(bytes: &[u8]) -> (r: Option<String>)
    ensures
        match r {
            Some(t) => spec_string_value(bytes@) == Some(t@),
            None => spec_string_value(bytes@) is None,
        },
{
    let trimmed = trim_whitespace(bytes);
    let n = trimmed.len();
    if n < 2 || trimmed[0] != QUOTE || trimmed[n - 1] != QUOTE {
        return None;
    }
    let inner = &trimmed[1..n - 1];
    if !contains_byte(inner, BACKSLASH) {
        return match str_from_utf8(inner) {
            Some(t) => Some(to_owned_string(t)),
            None => None,
        };
    }
    unescape_string(inner)
}

/// Reads text as `i64::from_str` does: optional sign, decimal digits, in range.
pub fn parse_i64(t: &[u8]) -> (r: Option<i64>)
    ensures
        r == spec_parse_i64(t@),
{
    if t.len() == 0 {
        return None;
    }
    let neg = t[0] == 0x2d;
    let start: usize = if t[0] == 0x2d || t[0] == 0x2b { 1 } else { 0 };
    let ghost digits = if t@[0] == 0x2d || t@[0] == 0x2b { t@.drop_first() } else { t@ };
    assert(digits =~= t@.subrange(start as int, t@.len() as int));
    if start == t.len() {
        return None;
    }
    let mut mag: u64 = 0;
    let mut i: usize = start;
    let mut overflow = false;
    while i < t.len()
        invariant
            start <= i <= t.len(),
            start < t.len(),
            digits == (if t@[0] == 0x2d || t@[0] == 0x2b { t@.drop_first() } else { t@ }),
            digits == t@.subrange(start as int, t@.len() as int),
            all_digits(t@.subrange(start as int, i as int)),
            !overflow ==> mag == digits_value(t@.subrange(start as int, i as int)),
            overflow ==> digits_value(t@.subrange(start as int, i as int)) > u64::MAX,
        decreases t.len() - i,
    {
        let c = t[i];
        if !(0x30 <= c && c <= 0x39) {
            proof {
                assert(digits[i - start] == c);
                assert(!all_digits(digits));
                assert(spec_parse_i64(t@) is None);
            }
            return None;
        }
        let ghost prefix = t@.subrange(start as int, i as int);
        let ghost next = t@.subrange(start as int, i + 1);
        assert(next.drop_last() =~= prefix);
        assert(next.last() == c);
        if !overflow {
            match mag.checked_mul(10) {
                Some(m) => match m.checked_add((c - 0x30) as u64) {
                    Some(v) => {
                        mag = v;
                    },
                    None => {
                        overflow = true;
                    },
                },
                None => {
                    overflow = true;
                },
            }
        } else {
            proof { lemma_digits_value_nonneg(prefix); }
        }
        proof {
            assert forall|k: int| 0 <= k < next.len() implies is_digit(#[trigger] next[k]) by {
                if k < prefix.len() {
                    assert(next[k] == prefix[k]);
                }
            }
        }
        i = i + 1;
    }
    assert(t@.subrange(start as int, t.len() as int) =~= digits);
    if overflow {
        return None;
    }
    if neg {
        if mag <= 9223372036854775807 {
            Some(0 - (mag as i64))
        } else if mag == 9223372036854775808 {
            Some(-9223372036854775808i64)
        } else {
            None
        }
    } else {
        if mag <= 9223372036854775807 {
            Some(mag as i64)
        } else {
            None
        }
    }
}

pub proof fn lemma_digits_value_nonneg(d: Seq<u8>)
    requires
        all_digits(d),
    ensures
        digits_value(d) >= 0,
    decreases d.len(),
{
    if d.len() > 0 {
        assert(all_digits(d.drop_last())) by {
            assert forall|i: int| 0 <= i < d.drop_last().len() implies is_digit(#[trigger] d.drop_last()[i]) by {
                assert(d.drop_last()[i] == d[i]);
            }
        }
        lemma_digits_value_nonneg(d.drop_last());
        assert(is_digit(d[d.len() - 1]));
    }
}

/// A JSON number read as an integer: the text as `i64::from_str` reads it,
/// or else read through its exact decimal value (see `parts_reading`), which
/// settles all but a few texts whose `f64` rounding decides.
pub open spec fn spec_int_value(t: Seq<u8>) -> IntReading {
    match spec_parse_i64(t) {
        Some(i) => IntReading::Int(i),
        None => decimal_reading(t),
    }
}

/// Reads a JSON integer value from the trimmed text (see `spec_int_value`).
pub fn parse_int_value(bytes: &[u8]) -> (r: IntReading)
    ensures
        r == spec_int_value(spec_trim_json(bytes@)),
{
    let t = trim_whitespace(bytes);
    match parse_i64(t) {
        Some(i) => IntReading::Int(i),
        None => read_decimal(t),
    }
}

/// Reads a JSON boolean literal.
pub fn parse_bool_value(bytes: &[u8]) -> (r: Option<bool>)
    ensures
        r == spec_bool_value(bytes@),
{
    let t = trim_whitespace(bytes);
    let lit_true: [u8; 4] = [0x74, 0x72, 0x75, 0x65];
    let lit_false: [u8; 5] = [0x66, 0x61, 0x6c, 0x73, 0x65];
    proof {
        assert(lit_true@ =~= true_bytes());
        assert(lit_false@ =~= false_bytes());
    }
    if bytes_eq(t, lit_true.as_slice()) {
        Some(true)
    } else if bytes_eq(t, lit_false.as_slice()) {
        Some(false)
    } else {
        None
    }
}

// ===========================================================================
// Path accessors
// ===========================================================================

/// The string at `path`, if the value there is a JSON string.
pub fn path_str(bytes: &[u8], path: &[&str]) -> (r: Option<String>)
    ensures
        match spec_value_at(bytes@, path_keys(path@)) {
            Some(v) => match r {
                Some(t) => spec_string_value(v) == Some(t@),
                None => spec_string_value(v) is None,
            },
            None => r is None,
        },
{
    match find_path_value(bytes, path) {
        Some((start, end)) => parse_string_value(&bytes[start..end]),
        None => None,
    }
}

/// The integer reading of the value at `path` (see `spec_int_value`);
/// `NotInteger` when nothing is there.
pub fn path_int(bytes: &[u8], path: &[&str]) -> (r: IntReading)
    ensures
        match spec_value_at(bytes@, path_keys(path@)) {
            Some(v) => r == spec_int_value(spec_trim_json(v)),
            None => r == IntReading::NotInteger,
        },
{
    match find_path_value(bytes, path) {
        Some((start, end)) => parse_int_value(&bytes[start..end]),
        None => IntReading::NotInteger,
    }
}

/// The trimmed text of the value at `path`, when it is UTF-8; used to read
/// numbers that are not written as integers.
pub fn path_number_text(bytes: &[u8], path: &[&str]) -> (r: Option<String>)
    ensures
        match spec_value_at(bytes@, path_keys(path@)) {
            Some(v) => match r {
                Some(t) => valid_utf8(spec_trim_json(v)) && t@ == decode_utf8(spec_trim_json(v)),
                None => !valid_utf8(spec_trim_json(v)),
            },
            None => r is None,
        },
{
    match find_path_value(bytes, path) {
        Some((start, end)) => match str_from_utf8(trim_whitespace(&bytes[start..end])) {
            Some(t) => Some(to_owned_string(t)),
            None => None,
        },
        None => None,
    }
}

/// The boolean at `path`, if the value there is `true` or `false`.
pub fn path_bool(bytes: &[u8], path: &[&str]) -> (r: Option<bool>)
    ensures
        match spec_value_at(bytes@, path_keys(path@)) {
            Some(v) => r == spec_bool_value(v),
            None => r is None,
        },
{
    match find_path_value(bytes, path) {
        Some((start, end)) => parse_bool_value(&bytes[start..end]),
        None => None,
    }
}

/// Is there a value at `path`?
pub fn path_exists(bytes: &[u8], path: &[&str]) -> (r: bool)
    ensures
        r == spec_value_at(bytes@, path_keys(path@)) is Some,
{
    find_path_value(bytes, path).is_some()
}

/// Is the value at `path` the literal `null`?
pub fn path_is_null(bytes: &[u8], path: &[&str]) -> (r: bool)
    ensures
        r == (spec_value_at(bytes@, path_keys(path@)) matches Some(v) && spec_trim_json(v) == null_bytes()),
{
    match find_path_value(bytes, path) {
        Some((start, end)) => {
            let t = trim_whitespace(&bytes[start..end]);
            let lit: [u8; 4] = [0x6e, 0x75, 0x6c, 0x6c];
            proof { assert(lit@ =~= null_bytes()); }
            bytes_eq(t, lit.as_slice())
        },
        None => false,
    }
}

} // verus!
