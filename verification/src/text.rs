//! Byte-level text helpers shared by the parsers: whitespace classes, substring
//! search, ASCII case folding, UTF-8 validation and `&str` slicing.

use vstd::prelude::*;
use vstd::utf8::*;
use vstd::string::*;

verus! {

broadcast use {vstd::seq::group_seq_axioms, vstd::seq_lib::group_seq_properties};

// ---------------------------------------------------------------------------
// Byte classes
// ---------------------------------------------------------------------------

/// Space, tab, line feed or carriage return.
pub open spec fn is_ascii_ws(b: u8) -> bool {
    b == 0x20 || b == 0x09 || b == 0x0a || b == 0x0d
}

/// An ASCII decimal digit.
pub open spec fn is_digit(b: u8) -> bool {
    0x30 <= b <= 0x39
}

/// ASCII lower-casing of one byte; other bytes are unchanged.
pub open spec fn ascii_lower(b: u8) -> u8 {
    if 0x41 <= b <= 0x5a { (b + 32) as u8 } else { b }
}

/// The byte sequence `s` with every ASCII upper-case letter lowered.
pub open spec fn lower_seq(s: Seq<u8>) -> Seq<u8> {
    s.map_values(|b: u8| ascii_lower(b))
}

/// `s` begins with `p` when both are compared after ASCII lower-casing.
pub open spec fn starts_with_ci(s: Seq<u8>, p: Seq<u8>) -> bool {
    p.len() <= s.len() && lower_seq(s.subrange(0, p.len() as int)) == lower_seq(p)
}

/// `s` begins with `p`.
pub open spec fn starts_with(s: Seq<u8>, p: Seq<u8>) -> bool {
    p.len() <= s.len() && s.subrange(0, p.len() as int) == p
}

/// `p` occurs in `s` at offset `i`.
pub open spec fn occurs_at(s: Seq<u8>, p: Seq<u8>, i: int) -> bool {
    0 <= i && i + p.len() <= s.len() && s.subrange(i, i + p.len()) == p
}

/// The offset of the first occurrence of `p` in `s`, if any.
pub open spec fn spec_find(s: Seq<u8>, p: Seq<u8>) -> Option<int> {
    if exists|i: int| occurs_at(s, p, i) {
        Some(choose|i: int| occurs_at(s, p, i) && forall|j: int| 0 <= j < i ==> !occurs_at(s, p, j))
    } else {
        None
    }
}

/// `Some(i)` is the first occurrence of `p` in `s`, `None` means there is none.
pub open spec fn is_first_occurrence(s: Seq<u8>, p: Seq<u8>, r: Option<int>) -> bool {
    match r {
        Some(i) => occurs_at(s, p, i) && forall|j: int| 0 <= j < i ==> !occurs_at(s, p, j),
        None => forall|j: int| !occurs_at(s, p, j),
    }
}

pub proof fn lemma_first_occurrence_unique(s: Seq<u8>, p: Seq<u8>, r: Option<int>)
    requires
        is_first_occurrence(s, p, r),
    ensures
        r == spec_find(s, p),
{
    match r {
        Some(i) => {
            assert(occurs_at(s, p, i));
            let k = choose|k: int| occurs_at(s, p, k) && forall|j: int| 0 <= j < k ==> !occurs_at(s, p, j);
            assert(occurs_at(s, p, k) && forall|j: int| 0 <= j < k ==> !occurs_at(s, p, j));
            if k < i {
                assert(!occurs_at(s, p, k));
            }
            if i < k {
                assert(!occurs_at(s, p, i));
            }
        },
        None => {},
    }
}

// ---------------------------------------------------------------------------
// Unicode whitespace, as `str::trim` removes it
// ---------------------------------------------------------------------------

/// The length of the UTF-8 encoding of a Unicode `White_Space` character that
/// starts at `i` in `s`, or 0 when none does.
pub open spec fn ws_len_at(s: Seq<u8>, i: int) -> int {
    if 0 <= i < s.len() && (is_ascii_ws(s[i]) || s[i] == 0x0b || s[i] == 0x0c) {
        1
    } else if 0 <= i && i + 2 <= s.len() && s[i] == 0xc2 && (s[i + 1] == 0x85 || s[i + 1] == 0xa0) {
        2
    } else if 0 <= i && i + 3 <= s.len() && (
        (s[i] == 0xe1 && s[i + 1] == 0x9a && s[i + 2] == 0x80)
        || (s[i] == 0xe2 && s[i + 1] == 0x80 && (0x80 <= s[i + 2] <= 0x8a || s[i + 2] == 0xa8 || s[i + 2] == 0xa9 || s[i + 2] == 0xaf))
        || (s[i] == 0xe2 && s[i + 1] == 0x81 && s[i + 2] == 0x9f)
        || (s[i] == 0xe3 && s[i + 1] == 0x80 && s[i + 2] == 0x80)) {
        3
    } else {
        0
    }
}

/// The length of the UTF-8 encoding of a Unicode `White_Space` character that
/// ends just before `j` in `s`, or 0 when none does.
pub open spec fn ws_len_before(s: Seq<u8>, j: int) -> int {
    if 1 <= j <= s.len() && ws_len_at(s, j - 1) == 1 {
        1
    } else if 2 <= j <= s.len() && ws_len_at(s, j - 2) == 2 {
        2
    } else if 3 <= j <= s.len() && ws_len_at(s, j - 3) == 3 {
        3
    } else {
        0
    }
}

/// First offset at or after `i` where no whitespace character starts.
pub open spec fn trim_start_from(s: Seq<u8>, i: int) -> int
    decreases s.len() - i,
{
    if 0 <= i < s.len() && ws_len_at(s, i) > 0 {
        trim_start_from(s, i + ws_len_at(s, i))
    } else {
        i
    }
}

/// Last offset at or before `j`, and not before `lo`, where no whitespace
/// character ends.
pub open spec fn trim_end_from(s: Seq<u8>, lo: int, j: int) -> int
    decreases j,
{
    if lo < j && j <= s.len() && ws_len_before(s, j) > 0 && j - ws_len_before(s, j) >= lo {
        trim_end_from(s, lo, j - ws_len_before(s, j))
    } else {
        j
    }
}

/// The byte range `(start, end)` that `str::trim` keeps of `s`.
pub open spec fn trim_range(s: Seq<u8>) -> (int, int) {
    let a = trim_start_from(s, 0);
    (a, trim_end_from(s, a, s.len() as int))
}

pub proof fn lemma_trim_start_bounds(s: Seq<u8>, i: int)
    requires
        0 <= i <= s.len(),
    ensures
        i <= trim_start_from(s, i) <= s.len(),
    decreases s.len() - i,
{
    if 0 <= i < s.len() && ws_len_at(s, i) > 0 {
        lemma_trim_start_bounds(s, i + ws_len_at(s, i));
    }
}

pub proof fn lemma_trim_end_bounds(s: Seq<u8>, lo: int, j: int)
    requires
        0 <= lo <= j <= s.len(),
    ensures
        lo <= trim_end_from(s, lo, j) <= j,
    decreases j,
{
    if lo < j && j <= s.len() && ws_len_before(s, j) > 0 && j - ws_len_before(s, j) >= lo {
        lemma_trim_end_bounds(s, lo, j - ws_len_before(s, j));
    }
}

pub proof fn lemma_trim_range_bounds(s: Seq<u8>)
    ensures
        0 <= trim_range(s).0 <= trim_range(s).1 <= s.len(),
{
    lemma_trim_start_bounds(s, 0);
    lemma_trim_end_bounds(s, trim_start_from(s, 0), s.len() as int);
}

/// A stretch that `trim` keeps whole starts and ends with no whitespace.
pub proof fn lemma_trimmed_edges(s: Seq<u8>)
    requires
        trim_range(s) == (0int, s.len() as int),
        s.len() > 0,
    ensures
        ws_len_at(s, 0) == 0,
        ws_len_before(s, s.len() as int) == 0,
{
    if ws_len_at(s, 0) > 0 {
        lemma_trim_start_bounds(s, ws_len_at(s, 0));
    }
    assert(trim_start_from(s, 0) == 0);
    let n = s.len() as int;
    if ws_len_before(s, n) > 0 {
        lemma_trim_end_bounds(s, 0, n - ws_len_before(s, n));
    }
}

/// The UTF-8 encoding of a concatenation is the concatenation of encodings.
pub proof fn lemma_encode_concat(a: Seq<char>, b: Seq<char>)
    ensures
        encode_utf8(a + b) == encode_utf8(a) + encode_utf8(b),
    decreases a.len(),
{
    if a.len() > 0 {
        assert((a + b)[0] == a[0]);
        assert((a + b).drop_first() == a.drop_first() + b);
        lemma_encode_concat(a.drop_first(), b);
        assert(encode_scalar(a[0] as u32) + (encode_utf8(a.drop_first()) + encode_utf8(b))
            == (encode_scalar(a[0] as u32) + encode_utf8(a.drop_first())) + encode_utf8(b));
    } else {
        assert(a + b == b);
    }
}

/// `byte_pos_from` from the start finds the first occurrence.
pub proof fn lemma_byte_pos_first(s: Seq<u8>, k: int, b: u8)
    requires
        0 <= k <= s.len(),
        forall|i: int| 0 <= i < k ==> s[i] != b,
        k < s.len() ==> s[k] == b,
    ensures
        byte_pos_from(s, 0, b) == k,
{
    assert forall|m: int| 0 <= m <= k implies byte_pos_from(s, m, b) == k by {
        lemma_byte_pos_down(s, m, k, b);
    }
}

pub proof fn lemma_byte_pos_down(s: Seq<u8>, m: int, k: int, b: u8)
    requires
        0 <= m <= k <= s.len(),
        forall|i: int| m <= i < k ==> s[i] != b,
        k < s.len() ==> s[k] == b,
    ensures
        byte_pos_from(s, m, b) == k,
    decreases k - m,
{
    if m < k {
        lemma_byte_pos_down(s, m + 1, k, b);
    }
}

/// Exec form of `ws_len_at`.
pub fn ws_len_at_exec(s: &[u8], i: usize) -> (n: usize)
    ensures
        n == ws_len_at(s@, i as int),
{
    let len = s.len();
    if i < len && (s[i] == 0x20 || s[i] == 0x09 || s[i] == 0x0a || s[i] == 0x0d || s[i] == 0x0b || s[i] == 0x0c) {
        1
    } else if i < len && len - i >= 2 && s[i] == 0xc2 && (s[i + 1] == 0x85 || s[i + 1] == 0xa0) {
        2
    } else if i < len && len - i >= 3 && (
        (s[i] == 0xe1 && s[i + 1] == 0x9a && s[i + 2] == 0x80)
        || (s[i] == 0xe2 && s[i + 1] == 0x80 && ((0x80 <= s[i + 2] && s[i + 2] <= 0x8a) || s[i + 2] == 0xa8 || s[i + 2] == 0xa9 || s[i + 2] == 0xaf))
        || (s[i] == 0xe2 && s[i + 1] == 0x81 && s[i + 2] == 0x9f)
        || (s[i] == 0xe3 && s[i + 1] == 0x80 && s[i + 2] == 0x80)) {
        3
    } else {
        0
    }
}

/// Exec form of `ws_len_before`.
pub fn ws_len_before_exec(s: &[u8], j: usize) -> (n: usize)
    ensures
        n == ws_len_before(s@, j as int),
{
    if 1 <= j && j <= s.len() && ws_len_at_exec(s, j - 1) == 1 {
        1
    } else if 2 <= j && j <= s.len() && ws_len_at_exec(s, j - 2) == 2 {
        2
    } else if 3 <= j && j <= s.len() && ws_len_at_exec(s, j - 3) == 3 {
        3
    } else {
        0
    }
}

/// The byte range that `str::trim` keeps of `s`.
pub fn trim_bounds(s: &[u8]) -> (r: (usize, usize))
    ensures
        r.0 == trim_range(s@).0,
        r.1 == trim_range(s@).1,
        r.0 <= r.1 <= s.len(),
{
    let mut a: usize = 0;
    while a < s.len() && ws_len_at_exec(s, a) > 0
        invariant
            a <= s.len(),
            trim_start_from(s@, a as int) == trim_start_from(s@, 0),
        decreases s.len() - a,
    {
        a = a + ws_len_at_exec(s, a);
    }
    let mut b: usize = s.len();
    while a < b && ws_len_before_exec(s, b) > 0 && b - ws_len_before_exec(s, b) >= a
        invariant
            a <= b <= s.len(),
            a == trim_start_from(s@, 0),
            trim_end_from(s@, a as int, b as int) == trim_end_from(s@, a as int, s.len() as int),
        decreases b,
    {
        b = b - ws_len_before_exec(s, b);
    }
    proof { lemma_trim_range_bounds(s@); }
    (a, b)
}

/// The trimmed bounds of the stretch `lo..hi` of `s`, as offsets into `s`.
pub open spec fn trim_in(s: Seq<u8>, lo: int, hi: int) -> (int, int) {
    let r = trim_range(s.subrange(lo, hi));
    (lo + r.0, lo + r.1)
}

/// The trimmed bounds of the stretch `lo..hi` of `s`, as offsets into `s`.
pub fn trim_bounds_in(s: &[u8], lo: usize, hi: usize) -> (r: (usize, usize))
    requires
        lo <= hi <= s.len(),
    ensures
        r.0 == trim_in(s@, lo as int, hi as int).0,
        r.1 == trim_in(s@, lo as int, hi as int).1,
        lo <= r.0 <= r.1 <= hi,
{
    let (a, b) = trim_bounds(&s[lo..hi]);
    (lo + a, lo + b)
}

/// First offset at or after `from` that holds the byte `b`, or the length.
pub open spec fn byte_pos_from(s: Seq<u8>, from: int, b: u8) -> int
    decreases s.len() - from,
{
    if from < 0 {
        0
    } else if from >= s.len() {
        s.len() as int
    } else if s[from] == b {
        from
    } else {
        byte_pos_from(s, from + 1, b)
    }
}

pub proof fn lemma_byte_pos_from(s: Seq<u8>, from: int, b: u8)
    requires
        0 <= from,
    ensures
        from <= s.len() ==> from <= byte_pos_from(s, from, b) <= s.len(),
        from > s.len() ==> byte_pos_from(s, from, b) == s.len(),
        byte_pos_from(s, from, b) < s.len() ==> s[byte_pos_from(s, from, b)] == b,
    decreases s.len() - from,
{
    if from < s.len() && s[from] != b {
        lemma_byte_pos_from(s, from + 1, b);
    }
}

/// First offset at or after `from` that holds the byte `b`, or the length.
pub fn find_byte_from(s: &[u8], from: usize, b: u8) -> (r: usize)
    requires
        from <= s.len(),
    ensures
        r == byte_pos_from(s@, from as int, b),
        from <= r <= s.len(),
        r < s.len() ==> s@[r as int] == b,
{
    proof { lemma_byte_pos_from(s@, from as int, b); }
    let mut i = from;
    while i < s.len() && s[i] != b
        invariant
            from <= i <= s.len(),
            byte_pos_from(s@, i as int, b) == byte_pos_from(s@, from as int, b),
        decreases s.len() - i,
    {
        i = i + 1;
    }
    i
}

// ---------------------------------------------------------------------------
// Search and comparison
// ---------------------------------------------------------------------------

/// Does `p` occur in `s` at offset `i`?
pub fn occurs_at_exec(s: &[u8], p: &[u8], i: usize) -> (r: bool)
    ensures
        r == occurs_at(s@, p@, i as int),
{
    if i > s.len() || s.len() - i < p.len() {
        return false;
    }
    let mut k: usize = 0;
    while k < p.len()
        invariant
            i + p.len() <= s.len(),
            k <= p.len(),
            forall|t: int| 0 <= t < k ==> s@[i + t] == p@[t],
        decreases p.len() - k,
    {
        if s[i + k] != p[k] {
            assert(s@.subrange(i as int, i + p.len())[k as int] != p@[k as int]);
            return false;
        }
        k = k + 1;
    }
    assert(s@.subrange(i as int, i + p.len()) =~= p@);
    true
}

/// The first offset at or after `from` where `p` occurs in `s`.
pub fn find_from(s: &[u8], p: &[u8], from: usize) -> (r: Option<usize>)
    ensures
        match r {
            Some(i) => from <= i && occurs_at(s@, p@, i as int)
                && forall|j: int| from <= j < i ==> !occurs_at(s@, p@, j),
            None => forall|j: int| from <= j ==> !occurs_at(s@, p@, j),
        },
{
    if from > s.len() || s.len() - from < p.len() {
        return None;
    }
    if p.len() == 0 {
        assert(s@.subrange(from as int, from as int) =~= p@);
        return Some(from);
    }
    let mut i: usize = from;
    let last = s.len() - p.len();
    while i <= last
        invariant
            from <= i <= last + 1,
            last == s.len() - p.len(),
            p.len() >= 1,
            p.len() <= s.len(),
            forall|j: int| from <= j < i ==> !occurs_at(s@, p@, j),
        decreases last + 1 - i,
    {
        if occurs_at_exec(s, p, i) {
            return Some(i);
        }
        i = i + 1;
    }
    proof {
        assert forall|j: int| from <= j implies !occurs_at(s@, p@, j) by {
            if j > last {
                assert(j + p@.len() > s@.len());
            }
        }
    }
    None
}

/// The first offset where `p` occurs in `s`, as `str::find` gives it.
pub fn find_bytes(s: &[u8], p: &[u8]) -> (r: Option<usize>)
    ensures
        is_first_occurrence(s@, p@, match r { Some(i) => Some(i as int), None => None }),
        match r { Some(i) => Some(i as int) == spec_find(s@, p@), None => spec_find(s@, p@) is None },
{
    let r = find_from(s, p, 0);
    let ghost gr = match r { Some(i) => Some(i as int), None => None::<int> };
    proof { lemma_first_occurrence_unique(s@, p@, gr); }
    r
}

/// Does `s` begin with `p`?
pub fn starts_with_exec(s: &[u8], p: &[u8]) -> (r: bool)
    ensures
        r == starts_with(s@, p@),
{
    let r = occurs_at_exec(s, p, 0);
    proof {
        if r {
            assert(s@.subrange(0, p@.len() as int) == p@);
        } else if p@.len() <= s@.len() {
            assert(!occurs_at(s@, p@, 0));
        }
    }
    r
}

/// Does `s` begin with `p` when compared after ASCII lower-casing?
pub fn starts_with_ci_exec(s: &[u8], p: &[u8]) -> (r: bool)
    ensures
        r == starts_with_ci(s@, p@),
{
    if s.len() < p.len() {
        return false;
    }
    let mut k: usize = 0;
    while k < p.len()
        invariant
            p.len() <= s.len(),
            k <= p.len(),
            forall|t: int| 0 <= t < k ==> ascii_lower(s@[t]) == ascii_lower(p@[t]),
        decreases p.len() - k,
    {
        let a = if 0x41 <= s[k] && s[k] <= 0x5a { s[k] + 32 } else { s[k] };
        let b = if 0x41 <= p[k] && p[k] <= 0x5a { p[k] + 32 } else { p[k] };
        if a != b {
            assert(lower_seq(s@.subrange(0, p@.len() as int))[k as int] != lower_seq(p@)[k as int]);
            return false;
        }
        k = k + 1;
    }
    assert(lower_seq(s@.subrange(0, p@.len() as int)) =~= lower_seq(p@));
    true
}

/// Does the byte `b` occur anywhere in `s`?
pub fn contains_byte(s: &[u8], b: u8) -> (r: bool)
    ensures
        r == s@.contains(b),
{
    let mut i: usize = 0;
    while i < s.len()
        invariant
            i <= s.len(),
            forall|t: int| 0 <= t < i ==> s@[t] != b,
        decreases s.len() - i,
    {
        if s[i] == b {
            assert(s@[i as int] == b);
            return true;
        }
        i = i + 1;
    }
    false
}

/// Are the two byte slices equal?
pub fn bytes_eq(a: &[u8], b: &[u8]) -> (r: bool)
    ensures
        r == (a@ == b@),
{
    if a.len() != b.len() {
        return false;
    }
    let mut i: usize = 0;
    while i < a.len()
        invariant
            a.len() == b.len(),
            i <= a.len(),
            forall|t: int| 0 <= t < i ==> a@[t] == b@[t],
        decreases a.len() - i,
    {
        if a[i] != b[i] {
            return false;
        }
        i = i + 1;
    }
    assert(a@ =~= b@);
    true
}

/// An owned copy of a byte slice.
pub fn bytes_to_vec(b: &[u8]) -> (r: Vec<u8>)
    ensures
        r@ == b@,
{
    let mut out: Vec<u8> = Vec::new();
    let mut i: usize = 0;
    while i < b.len()
        invariant
            i <= b.len(),
            out@ == b@.subrange(0, i as int),
        decreases b.len() - i,
    {
        out.push(b[i]);
        proof { assert(b@.subrange(0, i + 1) == b@.subrange(0, i as int).push(b@[i as int])); }
        i = i + 1;
    }
    proof { assert(b@.subrange(0, b@.len() as int) == b@); }
    out
}

/// Are the two byte slices equal when compared after ASCII lower-casing?
pub fn eq_ci_exec(s: &[u8], p: &[u8]) -> (r: bool)
    ensures
        r == (s@.len() == p@.len() && lower_seq(s@) == lower_seq(p@)),
{
    if s.len() != p.len() {
        return false;
    }
    let r = starts_with_ci_exec(s, p);
    assert(s@.subrange(0, p@.len() as int) == s@);
    r
}

/// Are the two texts equal?
pub fn str_eq(a: &str, b: &str) -> (r: bool)
    ensures
        r == (a@ == b@),
{
    proof {
        lemma_str_bytes(a);
        lemma_str_bytes(b);
    }
    bytes_eq(a.as_bytes(), b.as_bytes())
}

// ---------------------------------------------------------------------------
// UTF-8 and `&str` slicing
// ---------------------------------------------------------------------------

/// Checks that `v` is UTF-8 and views it as text.
///
/// Calls `std::str::from_utf8`, which returns the text exactly when the bytes
/// are well-formed UTF-8; the text's characters are then those the bytes encode.
#[verifier::external_body]
pub(crate) fn str_from_utf8(v: &[u8]) -> (r: Option<&str>)
    ensures
        r is Some <==> valid_utf8(v@),
        r matches Some(s) ==> s@ == decode_utf8(v@),
{
    std::str::from_utf8(v).ok()
}

/// Appends one character to a string with `String::push`; the contract
/// claims that the string's characters gain `c` at the end.
#[verifier::external_body]
pub(crate) fn push_char(s: &mut String, c: char)
    ensures
        final(s)@ == old(s)@.push(c),
{
    s.push(c)
}

/// Appends text to a string with `String::push_str`; the contract claims
/// that the string's characters gain those of `t` at the end.
#[verifier::external_body]
pub(crate) fn push_text(s: &mut String, t: &str)
    ensures
        final(s)@ == old(s)@ + t@,
{
    s.push_str(t)
}

/// The character with the given scalar value, from `char::from_u32`; the
/// contract claims `None` exactly for surrogates and values above 0x10FFFF,
/// and otherwise the character whose value is `v`.
#[verifier::external_body]
pub(crate) fn char_from_u32(v: u32) -> (r: Option<char>)
    ensures
        r is Some <==> (v < 0xD800 || (0xE000 <= v && v <= 0x10FFFF)),
        r matches Some(c) ==> c as u32 == v,
{
    char::from_u32(v)
}

/// The bytes of `s` decode back to its characters.
pub proof fn lemma_str_bytes(s: &str)
    ensures
        valid_utf8(s.spec_bytes()),
        decode_utf8(s.spec_bytes()) == s@,
{
    encode_utf8_valid_utf8(s@);
    encode_utf8_decode_utf8(s@);
}

/// A boundary test that needs no recursion: the end, or a byte that is not a
/// UTF-8 continuation byte.
pub open spec fn char_start(b: Seq<u8>, i: int) -> bool {
    i == b.len() || (0 <= i < b.len() && !is_continuation_byte(b[i]))
}

pub proof fn lemma_char_start_boundary(b: Seq<u8>, i: int)
    requires
        valid_utf8(b),
        char_start(b, i),
    ensures
        is_char_boundary(b, i),
{
    if i == b.len() {
        is_char_boundary_start_end_of_seq(b);
    } else {
        is_char_boundary_iff_not_is_continuation_byte(b, i);
    }
}

/// Width of the UTF-8 encoding that starts with the leading byte `b`.
pub open spec fn lead_width(b: u8) -> int {
    if b <= 0x7f { 1 } else if 0xc0 <= b <= 0xdf { 2 } else if 0xe0 <= b <= 0xef { 3 } else { 4 }
}

/// In valid UTF-8, the character that starts at `i` ends where the next begins.
pub proof fn lemma_next_char_start(b: Seq<u8>, i: int)
    requires
        valid_utf8(b),
        0 <= i < b.len(),
        char_start(b, i),
    ensures
        i + lead_width(b[i]) <= b.len(),
        char_start(b, i + lead_width(b[i])),
{
    lemma_char_start_boundary(b, i);
    valid_utf8_split(b, i);
    let t = b.subrange(i, b.len() as int);
    assert(t[0] == b[i]);
    reveal_with_fuel(valid_utf8, 2);
    assert(valid_first_scalar(t));
    let w = length_of_first_scalar(t);
    assert(w == lead_width(b[i]));
    let rest = pop_first_scalar(t);
    assert(valid_utf8(rest));
    if i + w < b.len() {
        assert(rest.len() > 0);
        assert(valid_first_scalar(rest));
        assert(rest[0] == b[i + w]);
    }
}

/// An ASCII byte is a whole character: it and the byte after it start characters.
pub proof fn lemma_ascii_char_starts(b: Seq<u8>, k: int)
    requires
        valid_utf8(b),
        0 <= k < b.len(),
        b[k] <= 0x7f,
    ensures
        char_start(b, k),
        char_start(b, k + 1),
{
    lemma_next_char_start(b, k);
}

/// Skipping a whitespace character keeps the offset on a character start.
pub proof fn lemma_ws_char_start(b: Seq<u8>, i: int)
    requires
        valid_utf8(b),
        0 <= i < b.len(),
        char_start(b, i),
        ws_len_at(b, i) > 0,
    ensures
        char_start(b, i + ws_len_at(b, i)),
{
    lemma_next_char_start(b, i);
}

pub proof fn lemma_trim_start_char_start(b: Seq<u8>, i: int)
    requires
        valid_utf8(b),
        0 <= i <= b.len(),
        char_start(b, i),
    ensures
        char_start(b, trim_start_from(b, i)),
    decreases b.len() - i,
{
    if 0 <= i < b.len() && ws_len_at(b, i) > 0 {
        lemma_ws_char_start(b, i);
        lemma_trim_start_char_start(b, i + ws_len_at(b, i));
    }
}

pub proof fn lemma_trim_end_char_start(b: Seq<u8>, lo: int, j: int)
    requires
        valid_utf8(b),
        0 <= lo <= j <= b.len(),
        char_start(b, j),
    ensures
        char_start(b, trim_end_from(b, lo, j)),
    decreases j,
{
    if lo < j && j <= b.len() && ws_len_before(b, j) > 0 && j - ws_len_before(b, j) >= lo {
        let n = ws_len_before(b, j);
        assert(ws_len_at(b, j - n) == n);
        assert(!is_continuation_byte(b[j - n]));
        lemma_trim_end_char_start(b, lo, j - n);
    }
}

/// The sub-sequence between two character starts of valid UTF-8 is valid UTF-8,
/// and its character starts are those of the whole.
pub proof fn lemma_sub_utf8(b: Seq<u8>, lo: int, hi: int)
    requires
        valid_utf8(b),
        0 <= lo <= hi <= b.len(),
        char_start(b, lo),
        char_start(b, hi),
    ensures
        valid_utf8(b.subrange(lo, hi)),
        forall|k: int| 0 <= k <= hi - lo ==> (char_start(b.subrange(lo, hi), k) <==> char_start(b, lo + k)),
{
    lemma_char_start_boundary(b, lo);
    valid_utf8_split(b, lo);
    let t = b.subrange(lo, b.len() as int);
    assert(char_start(t, hi - lo)) by {
        if hi < b.len() {
            assert(t[hi - lo] == b[hi]);
        }
    }
    lemma_char_start_boundary(t, hi - lo);
    valid_utf8_split(t, hi - lo);
    assert(t.subrange(0, hi - lo) =~= b.subrange(lo, hi));
    assert forall|k: int| 0 <= k <= hi - lo implies (char_start(b.subrange(lo, hi), k) <==> char_start(b, lo + k)) by {
        if k < hi - lo {
            assert(b.subrange(lo, hi)[k] == b[lo + k]);
        }
    }
}

/// The bounds that `trim` keeps of a stretch of valid UTF-8 between two
/// character starts are character starts too.
pub proof fn lemma_trim_in_char_starts(b: Seq<u8>, lo: int, hi: int)
    requires
        valid_utf8(b),
        0 <= lo <= hi <= b.len(),
        char_start(b, lo),
        char_start(b, hi),
    ensures
        char_start(b, lo + trim_range(b.subrange(lo, hi)).0),
        char_start(b, lo + trim_range(b.subrange(lo, hi)).1),
{
    let t = b.subrange(lo, hi);
    lemma_sub_utf8(b, lo, hi);
    lemma_trim_range_bounds(t);
    lemma_trim_start_bounds(t, 0);
    assert(char_start(t, 0)) by {
        if t.len() > 0 {
            assert(t[0] == b[lo]);
        }
    }
    lemma_trim_start_char_start(t, 0);
    assert(char_start(t, t.len() as int));
    lemma_trim_end_char_start(t, trim_start_from(t, 0), t.len() as int);
}

pub proof fn lemma_walk_chars(b: Seq<u8>, p: int, t: Seq<u8>, k: int)
    requires
        valid_utf8(b),
        valid_utf8(t),
        0 <= p,
        p + t.len() <= b.len(),
        b.subrange(p, p + t.len()) == t,
        0 <= k <= t.len(),
        char_start(t, k),
        char_start(b, p + k),
    ensures
        char_start(b, p + t.len()),
    decreases t.len() - k,
{
    if k < t.len() {
        assert(t[k] == b[p + k]);
        lemma_next_char_start(t, k);
        lemma_next_char_start(b, p + k);
        lemma_walk_chars(b, p, t, k + lead_width(t[k]));
    }
}

/// A copy of valid UTF-8 found at a character start of valid UTF-8 ends at a
/// character start.
pub proof fn lemma_match_ends_on_char(b: Seq<u8>, p: int, t: Seq<u8>)
    requires
        valid_utf8(b),
        valid_utf8(t),
        0 <= p,
        p + t.len() <= b.len(),
        b.subrange(p, p + t.len()) == t,
        char_start(b, p),
    ensures
        char_start(b, p + t.len()),
{
    assert(char_start(t, 0)) by {
        if t.len() > 0 {
            assert(t[0] == b[p]);
        }
    }
    lemma_walk_chars(b, p, t, 0);
}

/// A byte that lowers to a non-letter ASCII byte is that byte.
pub proof fn lemma_lower_non_letter(b: u8, c: u8)
    requires
        ascii_lower(b) == c,
        !(0x41 <= c <= 0x5a),
        !(0x61 <= c <= 0x7a),
    ensures
        b == c,
{
}

/// The sub-text of `s` between two byte offsets that both start a character.
pub fn str_slice(s: &str, a: usize, b: usize) -> (r: &str)
    requires
        a <= b <= s.spec_bytes().len(),
        char_start(s.spec_bytes(), a as int),
        char_start(s.spec_bytes(), b as int),
    ensures
        r.spec_bytes() == s.spec_bytes().subrange(a as int, b as int),
        r@ == decode_utf8(s.spec_bytes().subrange(a as int, b as int)),
{
    let ghost bs = s.spec_bytes();
    proof {
        lemma_str_bytes(s);
        lemma_char_start_boundary(bs, a as int);
    }
    let (_, rest) = s.split_at(a);
    let ghost rb = bs.subrange(a as int, bs.len() as int);
    proof {
        valid_utf8_split(bs, a as int);
        assert(rest.spec_bytes() == rb);
        assert(char_start(rb, b - a)) by {
            if b < bs.len() {
                assert(rb[b - a] == bs[b as int]);
            }
        }
        lemma_char_start_boundary(rb, b - a);
    }
    let (mid, _) = rest.split_at(b - a);
    proof {
        assert(mid.spec_bytes() =~= bs.subrange(a as int, b as int));
        lemma_str_bytes(mid);
    }
    mid
}

/// The decimal digits of `n`, most significant first, without leading zeros.
pub open spec fn decimal(n: nat) -> Seq<char>
    decreases n,
{
    if n < 10 {
        seq![((0x30 + n) as u8) as char]
    } else {
        decimal(n / 10).push(((0x30 + n % 10) as u8) as char)
    }
}

/// Appends the decimal digits of `n` to `out`.
pub fn push_decimal(out: &mut String, n: u64)
    ensures
        final(out)@ == old(out)@ + decimal(n as nat),
    decreases n,
{
    if n >= 10 {
        push_decimal(out, n / 10);
    }
    let d: u8 = (n % 10) as u8;
    push_char(out, (0x30u8 + d) as char);
    proof {
        if n < 10 {
            assert(decimal(n as nat) == seq![((0x30 + n) as u8) as char]);
        }
    }
}

/// An owned copy of a text.
pub fn to_owned_string(s: &str) -> (r: String)
    ensures
        r@ == s@,
{
    s.to_owned()
}

} // verus!
