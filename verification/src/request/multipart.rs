//! Parsing of `multipart/form-data` bodies (RFC 7578), as used for file
//! uploads: the boundary from the Content-Type header, then the parts.

use vstd::prelude::*;
use vstd::utf8::{valid_utf8, decode_utf8, decode_utf8_encode_utf8};
use vstd::string::StringSliceAdditionalSpecFns;
use crate::constants::MAX_MULTIPART_PARTS;
use crate::text::{
    ascii_lower, byte_pos_from, char_start, find_byte_from, find_bytes, is_first_occurrence,
    lemma_ascii_char_starts, lemma_lower_non_letter, lemma_match_ends_on_char,
    lemma_str_bytes, lemma_next_char_start, lead_width, lemma_trim_in_char_starts, lower_seq, occurs_at, spec_find,
    starts_with, starts_with_ci, starts_with_ci_exec, starts_with_exec, str_from_utf8, str_slice,
    to_owned_string, push_text, push_decimal, decimal, trim_bounds_in, trim_in, trim_range, ws_len_at, ws_len_before, lemma_trimmed_edges,
};

verus! {



/// A single part of a multipart form submission: the field name, optional file
/// name and content type, and the raw data, all borrowed from the body.
#[derive(Debug, PartialEq, Eq)]
pub struct Part<'a> {
    name: &'a str,
    filename: Option<&'a str>,
    content_type: Option<&'a str>,
    data: &'a [u8],
}

/// The bytes of an optional text.
pub open spec fn opt_bytes(o: Option<&str>) -> Option<Seq<u8>> {
    match o {
        Some(t) => Some(t.spec_bytes()),
        None => None,
    }
}

/// What a part holds, as bytes: the field name, the optional file name and
/// content type, and the data.
pub ghost struct PartView {
    pub name: Seq<u8>,
    pub filename: Option<Seq<u8>>,
    pub content_type: Option<Seq<u8>>,
    pub data: Seq<u8>,
}

impl<'a> View for Part<'a> {
    type V = PartView;

    closed spec fn view(&self) -> PartView {
        PartView {
            name: self.name.spec_bytes(),
            filename: opt_bytes(self.filename),
            content_type: opt_bytes(self.content_type),
            data: self.data@,
        }
    }
}

impl<'a> Part<'a> {
    /// The field name from Content-Disposition.
    pub fn name(&self) -> (r: &'a str)
        ensures
            r.spec_bytes() == self@.name,
    {
        self.name
    }

    /// The filename from Content-Disposition, if present (file upload).
    pub fn filename(&self) -> (r: Option<&'a str>)
        ensures
            opt_bytes(r) == self@.filename,
    {
        self.filename
    }

    /// The Content-Type of this part, if specified.
    pub fn content_type(&self) -> (r: Option<&'a str>)
        ensures
            opt_bytes(r) == self@.content_type,
    {
        self.content_type
    }

    /// The raw data of this part.
    pub fn data(&self) -> (r: &'a [u8])
        ensures
            r@ == self@.data,
    {
        self.data
    }

    /// The data as UTF-8 text, if it is valid UTF-8.
    pub fn text(&self) -> (r: Option<&'a str>)
        ensures
            r is Some <==> valid_utf8(self@.data),
            r matches Some(t) ==> t@ == decode_utf8(self@.data),
    {
        str_from_utf8(self.data)
    }
}

/// Error type for multipart parsing.
#[derive(Debug, Clone, PartialEq, Eq, Structural)]
#[non_exhaustive]
pub enum MultipartError {
    /// Content-Type is not multipart/form-data.
    NotMultipart,
    /// No boundary parameter in Content-Type.
    NoBoundary,
    /// Invalid multipart format (malformed structure).
    InvalidFormat,
    /// No body in request.
    NoBody,
    /// Too many parts (exceeds `MAX_MULTIPART_PARTS`).
    TooManyParts,
}

impl MultipartError {
    /// The message that describes the error.
    pub fn to_string(&self) -> (r: String)
        ensures
            r@ == match self {
                MultipartError::NotMultipart => "Content-Type is not multipart/form-data"@,
                MultipartError::NoBoundary => "No boundary parameter in Content-Type"@,
                MultipartError::InvalidFormat => "Invalid multipart format"@,
                MultipartError::NoBody => "No body in request"@,
                MultipartError::TooManyParts => "Too many parts (max: "@ + decimal(MAX_MULTIPART_PARTS as nat) + ")"@,
            },
    {
        match self {
            MultipartError::NotMultipart => to_owned_string("Content-Type is not multipart/form-data"),
            MultipartError::NoBoundary => to_owned_string("No boundary parameter in Content-Type"),
            MultipartError::InvalidFormat => to_owned_string("Invalid multipart format"),
            MultipartError::NoBody => to_owned_string("No body in request"),
            MultipartError::TooManyParts => {
                let mut m = to_owned_string("Too many parts (max: ");
                push_decimal(&mut m, MAX_MULTIPART_PARTS as u64);
                push_text(&mut m, ")");
                m
            },
        }
    }
}

// ===========================================================================
// Specification
// ===========================================================================

pub open spec fn multipart_form_data() -> Seq<u8> {
    seq![0x6du8, 0x75u8, 0x6cu8, 0x74u8, 0x69u8, 0x70u8, 0x61u8, 0x72u8, 0x74u8, 0x2fu8, 0x66u8, 0x6fu8, 0x72u8, 0x6du8, 0x2du8, 0x64u8, 0x61u8, 0x74u8, 0x61u8]
}

pub open spec fn boundary_eq() -> Seq<u8> {
    seq![0x62u8, 0x6fu8, 0x75u8, 0x6eu8, 0x64u8, 0x61u8, 0x72u8, 0x79u8, 0x3du8]
}

pub open spec fn content_disposition() -> Seq<u8> {
    seq![0x63u8, 0x6fu8, 0x6eu8, 0x74u8, 0x65u8, 0x6eu8, 0x74u8, 0x2du8, 0x64u8, 0x69u8, 0x73u8, 0x70u8, 0x6fu8, 0x73u8, 0x69u8, 0x74u8, 0x69u8, 0x6fu8, 0x6eu8, 0x3au8]
}

pub open spec fn content_type_colon() -> Seq<u8> {
    seq![0x63u8, 0x6fu8, 0x6eu8, 0x74u8, 0x65u8, 0x6eu8, 0x74u8, 0x2du8, 0x74u8, 0x79u8, 0x70u8, 0x65u8, 0x3au8]
}

pub open spec fn name_eq() -> Seq<u8> {
    seq![0x6eu8, 0x61u8, 0x6du8, 0x65u8, 0x3du8]
}

pub open spec fn filename_eq() -> Seq<u8> {
    seq![0x66u8, 0x69u8, 0x6cu8, 0x65u8, 0x6eu8, 0x61u8, 0x6du8, 0x65u8, 0x3du8]
}

pub open spec fn crlfcrlf() -> Seq<u8> {
    seq![0x0du8, 0x0au8, 0x0du8, 0x0au8]
}

pub open spec fn lflf() -> Seq<u8> {
    seq![0x0au8, 0x0au8]
}

pub open spec fn dash_dash() -> Seq<u8> {
    seq![0x2du8, 0x2du8]
}

/// The range `lo..hi` without one pair of surrounding double quotes, if it has them.
pub open spec fn unquote(s: Seq<u8>, lo: int, hi: int) -> (int, int) {
    if hi - lo >= 2 && s[lo] == 0x22 && s[hi - 1] == 0x22 {
        (lo + 1, hi - 1)
    } else {
        (lo, hi)
    }
}

/// The end of the stretch of `s` that starts at `a` and runs to the next `b`
/// byte before `hi`, or to `hi`.
pub open spec fn piece_end(s: Seq<u8>, a: int, hi: int, b: u8) -> int {
    if byte_pos_from(s, a, b) < hi { byte_pos_from(s, a, b) } else { hi }
}

/// The boundary value in the `;`-separated segments of a Content-Type value
/// from offset `a` on: the first trimmed segment that holds `boundary=` (in any
/// ASCII case) gives the trimmed text after it, without surrounding quotes.
pub open spec fn boundary_from(s: Seq<u8>, a: int) -> Option<(int, int)>
    decreases s.len() + 1 - a,
{
    if a < 0 || a > s.len() {
        None
    } else {
        let e = byte_pos_from(s, a, 0x3b);
        let (ta, tb) = trim_in(s, a, e);
        match spec_find(lower_seq(s.subrange(ta, tb)), boundary_eq()) {
            Some(p) => {
                let (va, vb) = trim_in(s, ta + p + 9, tb);
                Some(unquote(s, va, vb))
            },
            None => if a <= e < s.len() { boundary_from(s, e + 1) } else { None },
        }
    }
}

/// The boundary parameter of a `multipart/form-data` Content-Type value, as a
/// byte range of it; `None` when the type is something else or the parameter
/// is missing.
pub open spec fn boundary_range(s: Seq<u8>) -> Option<(int, int)> {
    if !starts_with_ci(s, multipart_form_data()) {
        None
    } else {
        boundary_from(s, 0)
    }
}

/// What the header lines of a part have set so far.
pub ghost struct HeaderFields {
    pub name: Option<(int, int)>,
    pub filename: Option<(int, int)>,
    pub content_type: Option<(int, int)>,
}

/// The value of a parameter `lo..hi` that starts with `prefix` (in any ASCII
/// case), without surrounding quotes.
pub open spec fn quoted_param(s: Seq<u8>, lo: int, hi: int, prefix: Seq<u8>) -> Option<(int, int)> {
    if !starts_with_ci(s.subrange(lo, hi), prefix) {
        None
    } else {
        Some(unquote(s, lo + prefix.len(), hi))
    }
}

/// Reading the `;`-separated parameters of a Content-Disposition value from
/// offset `a` up to `hi`: each trimmed parameter sets the name or the filename;
/// later ones win.
pub open spec fn params_from(s: Seq<u8>, a: int, hi: int, st: HeaderFields) -> HeaderFields
    decreases hi + 1 - a,
{
    if a < 0 || a > hi {
        st
    } else {
        let e = piece_end(s, a, hi, 0x3b);
        let (pa, pb) = trim_in(s, a, e);
        let st2 = match quoted_param(s, pa, pb, name_eq()) {
            Some(r) => HeaderFields { name: Some(r), ..st },
            None => match quoted_param(s, pa, pb, filename_eq()) {
                Some(r) => HeaderFields { filename: Some(r), ..st },
                None => st,
            },
        };
        if a <= e < hi { params_from(s, e + 1, hi, st2) } else { st2 }
    }
}

/// Reading the header lines of a part from offset `a` up to `hp`: lines are
/// separated by line feeds and trimmed; Content-Disposition and Content-Type
/// lines (in any ASCII case) set the fields.
pub open spec fn header_lines_from(s: Seq<u8>, a: int, hp: int, st: HeaderFields) -> HeaderFields
    decreases hp + 1 - a,
{
    if a < 0 || a > hp {
        st
    } else {
        let e = piece_end(s, a, hp, 0x0a);
        let (la, lb) = trim_in(s, a, e);
        let line = s.subrange(la, lb);
        let st2 = if la >= lb {
            st
        } else if starts_with_ci(line, content_disposition()) {
            let (va, vb) = trim_in(s, la + 20, lb);
            params_from(s, va, vb, st)
        } else if starts_with_ci(line, content_type_colon()) {
            HeaderFields { content_type: Some(trim_in(s, la + 13, lb)), ..st }
        } else {
            st
        };
        if a <= e < hp { header_lines_from(s, e + 1, hp, st2) } else { st2 }
    }
}

/// `j` moved down past every `\r\n` pair that ends at it, not below `lo`.
pub open spec fn strip_crlf_end(s: Seq<u8>, lo: int, j: int) -> int
    decreases j - lo,
{
    if lo <= j - 2 && 0 <= lo && j <= s.len() && s[j - 2] == 0x0d && s[j - 1] == 0x0a {
        strip_crlf_end(s, lo, j - 2)
    } else {
        j
    }
}

/// `j` moved down past every line feed that ends at it, not below `lo`.
pub open spec fn strip_lf_end(s: Seq<u8>, lo: int, j: int) -> int
    decreases j - lo,
{
    if lo <= j - 1 && 0 <= lo && j <= s.len() && s[j - 1] == 0x0a {
        strip_lf_end(s, lo, j - 1)
    } else {
        j
    }
}

/// The end of a part's data once trailing `\r\n` pairs, then line feeds, then
/// `\r\n` pairs again are removed.
pub open spec fn data_end(s: Seq<u8>, lo: int, hi: int) -> int {
    strip_crlf_end(s, lo, strip_lf_end(s, lo, strip_crlf_end(s, lo, hi)))
}

/// The header/body split of a part: the first blank line written as
/// `\r\n\r\n`, or failing that as `\n\n`. Gives the end of the headers and
/// the start of the data.
pub open spec fn part_split(t: Seq<u8>) -> Option<(int, int)> {
    match spec_find(t, crlfcrlf()) {
        Some(p) => Some((p, p + 4)),
        None => match spec_find(t, lflf()) {
            Some(p) => Some((p, p + 2)),
            None => None,
        },
    }
}

pub open spec fn no_fields() -> HeaderFields {
    HeaderFields { name: None, filename: None, content_type: None }
}

pub open spec fn opt_range_bytes(s: Seq<u8>, r: Option<(int, int)>) -> Option<Seq<u8>> {
    match r {
        Some((a, b)) => Some(s.subrange(a, b)),
        None => None,
    }
}

/// The part whose text (headers, blank line, data) is `t`: `None` when there
/// is no blank line after the headers or no name.
#[verifier::opaque]
pub open spec fn single_part(t: Seq<u8>) -> Option<PartView> {
    match part_split(t) {
        None => None,
        Some((hp, ds)) => {
            let st = header_lines_from(t, 0, hp, no_fields());
            match st.name {
                None => None,
                Some((na, nb)) => Some(PartView {
                    name: t.subrange(na, nb),
                    filename: opt_range_bytes(t, st.filename),
                    content_type: opt_range_bytes(t, st.content_type),
                    data: t.subrange(ds, data_end(t, ds, t.len() as int)),
                }),
            }
        },
    }
}

/// `r` moved past every `\r\n` pair that starts at it.
pub open spec fn skip_crlf(s: Seq<u8>, r: int) -> int
    decreases s.len() - r,
{
    if 0 <= r && r + 2 <= s.len() && s[r] == 0x0d && s[r + 1] == 0x0a {
        skip_crlf(s, r + 2)
    } else {
        r
    }
}

/// `r` moved past every line feed that starts at it.
pub open spec fn skip_lf(s: Seq<u8>, r: int) -> int
    decreases s.len() - r,
{
    if 0 <= r && r < s.len() && s[r] == 0x0a {
        skip_lf(s, r + 1)
    } else {
        r
    }
}

pub open spec fn prepend_ok(xs: Seq<PartView>, r: Result<Seq<PartView>, MultipartError>) -> Result<Seq<PartView>, MultipartError> {
    match r {
        Ok(ps) => Ok(xs + ps),
        Err(e) => Err(e),
    }
}

/// The parts after a boundary marker `m` that ends at `r`, when `count` parts
/// are already taken: stops at `--`, or at the end; each part runs to the next
/// marker; a part beyond the maximum number is an error.
#[verifier::opaque]
pub open spec fn parts_from(s: Seq<u8>, m: Seq<u8>, r: int, count: int) -> Result<Seq<PartView>, MultipartError>
    decreases s.len() - r,
{
    if r < 0 || r > s.len() || starts_with(s.subrange(r, s.len() as int), dash_dash()) {
        Ok(Seq::empty())
    } else {
        let r2 = skip_lf(s, skip_crlf(s, r));
        if r2 >= s.len() {
            Ok(Seq::empty())
        } else if count >= MAX_MULTIPART_PARTS {
            Err(MultipartError::TooManyParts)
        } else {
            let found = spec_find(s.subrange(r2, s.len() as int), m);
            let pe = match found { Some(i) => r2 + i, None => s.len() as int };
            let part = single_part(s.subrange(r2, pe));
            let count2 = if part is Some { count + 1 } else { count };
            let here = match part { Some(p) => seq![p], None => Seq::empty() };
            match found {
                Some(i) => if r < r2 + i + m.len() <= s.len() {
                    prepend_ok(here, parts_from(s, m, r2 + i + m.len(), count2))
                } else {
                    Ok(here)
                },
                None => Ok(here),
            }
        }
    }
}

/// The marker that starts each part: `--` and the boundary.
pub open spec fn marker_of(boundary: Seq<u8>) -> Seq<u8> {
    dash_dash() + boundary
}

/// The parts of a multipart body. The body must be UTF-8 and hold the marker;
/// what comes before the first marker is skipped.
#[verifier::opaque]
pub open spec fn multipart_parts(s: Seq<u8>, boundary: Seq<u8>) -> Result<Seq<PartView>, MultipartError> {
    if !valid_utf8(s) {
        Err(MultipartError::InvalidFormat)
    } else {
        match spec_find(s, marker_of(boundary)) {
            None => Err(MultipartError::InvalidFormat),
            Some(p) => parts_from(s, marker_of(boundary), p + marker_of(boundary).len(), 0),
        }
    }
}

/// Each part has the view that stands at its index.
pub open spec fn views_match(ps: Seq<Part>, vs: Seq<PartView>) -> bool {
    &&& ps.len() == vs.len()
    &&& forall|i: int| 0 <= i < ps.len() ==> #[trigger] ps[i]@ == vs[i]
}

// ===========================================================================
// Boundary
// ===========================================================================

fn multipart_form_data_bytes() -> (r: [u8; 19])
    ensures
        r@ == multipart_form_data(),
{
    let r: [u8; 19] = [0x6d, 0x75, 0x6c, 0x74, 0x69, 0x70, 0x61, 0x72, 0x74, 0x2f, 0x66, 0x6f, 0x72, 0x6d, 0x2d, 0x64, 0x61, 0x74, 0x61];
    assert(r@ =~= multipart_form_data());
    r
}

fn boundary_eq_bytes() -> (r: [u8; 9])
    ensures
        r@ == boundary_eq(),
{
    let r: [u8; 9] = [0x62, 0x6f, 0x75, 0x6e, 0x64, 0x61, 0x72, 0x79, 0x3d];
    assert(r@ =~= boundary_eq());
    r
}

/// First occurrence of the lower-case pattern `p` in `s` compared after ASCII
/// lower-casing `s`.
fn find_ci(s: &[u8], p: &[u8]) -> (r: Option<usize>)
    requires
        lower_seq(p@) == p@,
    ensures
        is_first_occurrence(lower_seq(s@), p@, match r { Some(i) => Some(i as int), None => None }),
{
    let ghost ls = lower_seq(s@);
    if s.len() < p.len() {
        assert forall|j: int| !occurs_at(ls, p@, j) by {}
        return None;
    }
    let mut i: usize = 0;
    let last = s.len() - p.len();
    while i <= last
        invariant
            last == s.len() - p.len(),
            p.len() <= s.len(),
            i <= last + 1,
            ls == lower_seq(s@),
            lower_seq(p@) == p@,
            forall|j: int| 0 <= j < i ==> !occurs_at(ls, p@, j),
        decreases last + 1 - i,
    {
        let sub = &s[i..i + p.len()];
        if starts_with_ci_exec(sub, p) {
            proof {
                assert(sub@.subrange(0, p@.len() as int) == sub@);
                assert(lower_seq(sub@) =~= ls.subrange(i as int, i + p@.len()));
            }
            return Some(i);
        }
        proof {
            assert(sub@.subrange(0, p@.len() as int) == sub@);
            assert(lower_seq(sub@) =~= ls.subrange(i as int, i + p@.len()));
        }
        if i == last {
            proof {
                assert forall|j: int| 0 <= j implies !occurs_at(ls, p@, j) by {
                    if j > last {
                        assert(j + p@.len() > ls.len());
                    }
                }
            }
            return None;
        }
        i = i + 1;
    }
    None
}

/// Extracts the boundary from a `multipart/form-data` Content-Type value, e.g.
/// `multipart/form-data; boundary=----WebKitFormBoundary7MA4YWxk`.
///
/// The type and the `boundary=` name are matched in any ASCII case.
#[verifier::spinoff_prover]
pub fn extract_boundary(content_type: &str) -> (r: Option<&str>)
    ensures
        match boundary_range(content_type.spec_bytes()) {
            Some((a, b)) => r matches Some(t) && t.spec_bytes() == content_type.spec_bytes().subrange(a, b),
            None => r is None,
        },
{
    let bytes = content_type.as_bytes();
    let ghost s = bytes@;
    proof { lemma_str_bytes(content_type); }
    let mfd = multipart_form_data_bytes();
    if !starts_with_ci_exec(bytes, mfd.as_slice()) {
        return None;
    }
    let pat = boundary_eq_bytes();
    proof { assert(lower_seq(pat@) =~= pat@); }
    let mut a: usize = 0;
    loop
        invariant
            s == bytes@,
            s == content_type.spec_bytes(),
            valid_utf8(s),
            a <= s.len(),
            char_start(s, a as int),
            boundary_range(s) == boundary_from(s, a as int),
            pat@ == boundary_eq(),
            lower_seq(pat@) == pat@,
        decreases s.len() + 1 - a,
    {
        let e = find_byte_from(bytes, a, 0x3b);
        proof {
            if e < s.len() {
                lemma_ascii_char_starts(s, e as int);
            }
            lemma_trim_in_char_starts(s, a as int, e as int);
        }
        let (ta, tb) = trim_bounds_in(bytes, a, e);
        match find_ci(&bytes[ta..tb], pat.as_slice()) {
            Some(p) => {
                let ghost t = s.subrange(ta as int, tb as int);
                proof {
                    assert(bytes@.subrange(ta as int, tb as int) == t);
                    lemma_first_occurrence_find(lower_seq(t), pat@, p as int);
                    assert(lower_seq(t).subrange(p as int, p + 9) == boundary_eq());
                    assert(ascii_lower(s[ta + p + 8]) == lower_seq(t)[p + 8]);
                    lemma_lower_non_letter(s[ta + p + 8], 0x3d);
                    lemma_ascii_char_starts(s, ta + p + 8);
                    lemma_trim_in_char_starts(s, ta + p + 9, tb as int);
                }
                let (va, vb) = trim_bounds_in(bytes, ta + p + 9, tb);
                if vb - va >= 2 && bytes[va] == 0x22 && bytes[vb - 1] == 0x22 {
                    proof {
                        lemma_ascii_char_starts(s, va as int);
                        lemma_ascii_char_starts(s, vb - 1);
                    }
                    return Some(str_slice(content_type, va + 1, vb - 1));
                }
                return Some(str_slice(content_type, va, vb));
            },
            None => {
                proof {
                    let t = s.subrange(ta as int, tb as int);
                    assert(bytes@.subrange(ta as int, tb as int) == t);
                    lemma_first_occurrence_none(lower_seq(t), pat@);
                }
                if e >= bytes.len() {
                    return None;
                }
                a = e + 1;
            },
        }
    }
}

/// `multipart/form-data; boundary=`.
pub open spec fn boundary_prefix() -> Seq<u8> {
    multipart_form_data() + seq![0x3bu8, 0x20u8] + boundary_eq()
}

/// A stretch with no whitespace at either end, with a non-space byte before
/// it, still has none at its end once that byte is put in front.
proof fn lemma_tail_trimmed(t: Seq<u8>, k: int)
    requires
        0 <= k < t.len(),
        t[k] != 0x20 && t[k] != 0x09 && t[k] != 0x0a && t[k] != 0x0d && t[k] != 0x0b && t[k] != 0x0c,
        t[k] < 0x80,
        trim_range(t.subrange(k + 1, t.len() as int)) == (0int, t.len() - k - 1),
    ensures
        ws_len_before(t, t.len() as int) == 0,
{
    let b = t.subrange(k + 1, t.len() as int);
    let lt = t.len() as int;
    let lb = b.len() as int;
    assert forall|i: int| 0 <= i < lb implies #[trigger] t[k + 1 + i] == b[i] by {}
    if lb > 0 {
        lemma_trimmed_edges(b);
        assert(t[lt - 1] == b[lb - 1]);
        if lb >= 3 {
            assert(t[lt - 2] == b[lb - 2] && t[lt - 3] == b[lb - 3]);
        } else if lb == 2 {
            assert(t[lt - 2] == b[lb - 2] && t[lt - 3] == t[k]);
        } else {
            assert(t[lt - 2] == t[k]);
        }
    } else {
        assert(t[lt - 1] == t[k]);
    }
}

/// No `b` stands between `a` and the first `b` at or after it.
proof fn lemma_byte_pos_clear(s: Seq<u8>, a: int, b: u8)
    requires
        0 <= a,
    ensures
        forall|i: int| a <= i < byte_pos_from(s, a, b) ==> s[i] != b,
    decreases s.len() - a,
{
    if a < s.len() && s[a] != b {
        lemma_byte_pos_clear(s, a + 1, b);
    }
}

/// The trimmed bounds of `lo..hi` lie within it.
proof fn lemma_trim_in_bounds(s: Seq<u8>, lo: int, hi: int)
    requires
        0 <= lo <= hi <= s.len(),
    ensures
        lo <= trim_in(s, lo, hi).0 <= trim_in(s, lo, hi).1 <= hi,
{
    crate::text::lemma_trim_range_bounds(s.subrange(lo, hi));
}

proof fn lemma_least_occurrence(low: Seq<u8>, pat: Seq<u8>, w: int)
    requires
        occurs_at(low, pat, w),
    ensures
        exists|i: int| occurs_at(low, pat, i) && forall|j: int| 0 <= j < i ==> !occurs_at(low, pat, j),
    decreases w,
{
    if exists|j: int| 0 <= j < w && occurs_at(low, pat, j) {
        let j = choose|j: int| 0 <= j < w && occurs_at(low, pat, j);
        lemma_least_occurrence(low, pat, j);
    } else {
        assert(occurs_at(low, pat, w) && forall|j: int| 0 <= j < w ==> !occurs_at(low, pat, j));
    }
}

proof fn lemma_find_bound(low: Seq<u8>, pat: Seq<u8>)
    ensures
        spec_find(low, pat) matches Some(p) ==> 0 <= p && p + pat.len() <= low.len(),
{
    if exists|i: int| occurs_at(low, pat, i) {
        let w = choose|i: int| occurs_at(low, pat, i);
        lemma_least_occurrence(low, pat, w);
    }
}

/// The unquoted, trimmed value that follows `boundary=` at `v` in the
/// segment `ta..tb` lies within `v..tb`.
proof fn lemma_value_range(s: Seq<u8>, v: int, tb: int)
    requires
        0 <= v <= tb <= s.len(),
    ensures
        v <= unquote(s, trim_in(s, v, tb).0, trim_in(s, v, tb).1).0,
        unquote(s, trim_in(s, v, tb).0, trim_in(s, v, tb).1).0 <= unquote(s, trim_in(s, v, tb).0, trim_in(s, v, tb).1).1,
        unquote(s, trim_in(s, v, tb).0, trim_in(s, v, tb).1).1 <= tb,
{
    lemma_trim_in_bounds(s, v, tb);
}

/// What `boundary_from` finds lies inside one `;`-separated segment, at or
/// after `a`.
#[verifier::spinoff_prover]
#[verifier::rlimit(30)]
proof fn lemma_boundary_from_in_segment(s: Seq<u8>, a: int)
    requires
        0 <= a <= s.len(),
    ensures
        boundary_from(s, a) matches Some((x, y)) ==> a <= x <= y <= s.len()
            && forall|i: int| x <= i < y ==> s[i] != 0x3bu8,
    decreases s.len() + 1 - a,
{
    let e = byte_pos_from(s, a, 0x3b);
    crate::text::lemma_byte_pos_from(s, a, 0x3b);
    lemma_byte_pos_clear(s, a, 0x3b);
    lemma_trim_in_bounds(s, a, e);
    let ta = trim_in(s, a, e).0;
    let tb = trim_in(s, a, e).1;
    let low = lower_seq(s.subrange(ta, tb));
    assert(low.len() == tb - ta);
    lemma_find_bound(low, boundary_eq());
    assert(boundary_eq().len() == 9);
    match spec_find(low, boundary_eq()) {
        Some(p) => {
            lemma_value_range(s, ta + p + 9, tb);
            assert(boundary_from(s, a) == Some(unquote(s, trim_in(s, ta + p + 9, tb).0, trim_in(s, ta + p + 9, tb).1)));
        },
        None => {
            if a <= e < s.len() {
                lemma_boundary_from_in_segment(s, e + 1);
            }
        },
    }
}

/// The boundary is one parameter's value: its range never holds a `;`, so
/// parameters after it are never read into it.
pub proof fn law_boundary_stays_in_its_parameter(s: Seq<u8>)
    ensures
        boundary_range(s) matches Some((x, y)) ==> 0 <= x <= y <= s.len()
            && forall|i: int| x <= i < y ==> s[i] != 0x3bu8,
{
    lemma_boundary_from_in_segment(s, 0);
}

/// A Content-Type of the documented form `multipart/form-data; boundary=B`
/// gives `B` as its boundary, and `multipart/form-data; boundary="B"` gives
/// `B` too; `B` must hold no `;`, and, unquoted, must neither start nor end
/// with whitespace nor be wrapped in quotes.
#[verifier::spinoff_prover]
pub proof fn law_boundary_of_content_type(b: Seq<u8>)
    requires
        !b.contains(0x3bu8),
    ensures
        trim_range(b) == (0int, b.len() as int) && !(b.len() >= 2 && b[0] == 0x22 && b.last() == 0x22)
            ==> boundary_range(boundary_prefix() + b) == Some((30int, (30 + b.len()) as int)),
        boundary_range(boundary_prefix() + (seq![0x22u8] + b + seq![0x22u8])) == Some((31int, (31 + b.len()) as int)),
{
    lemma_boundary_for(b);
    let q = seq![0x22u8] + b + seq![0x22u8];
    lemma_quoted(b);
    lemma_boundary_for(q);
}

/// The boundary that the trimmed segment `ta..tb` names, if it names one.
pub open spec fn segment_boundary(s: Seq<u8>, ta: int, tb: int) -> Option<(int, int)> {
    match spec_find(lower_seq(s.subrange(ta, tb)), boundary_eq()) {
        Some(p) => {
            let (va, vb) = trim_in(s, ta + p + 9, tb);
            Some(unquote(s, va, vb))
        },
        None => None,
    }
}

proof fn lemma_boundary_from_segment(s: Seq<u8>, a: int)
    requires
        0 <= a <= s.len(),
    ensures
        segment_boundary(s, trim_in(s, a, byte_pos_from(s, a, 0x3b)).0, trim_in(s, a, byte_pos_from(s, a, 0x3b)).1)
            matches Some(r) ==> boundary_from(s, a) == Some(r),
        byte_pos_from(s, a, 0x3b) == s.len() ==> boundary_from(s, a)
            == segment_boundary(s, trim_in(s, a, byte_pos_from(s, a, 0x3b)).0, trim_in(s, a, byte_pos_from(s, a, 0x3b)).1),
{
}

/// Two texts that agree up to `k` give the same unquoted, trimmed value in a
/// stretch that ends by `k`.
proof fn lemma_value_same(s: Seq<u8>, t: Seq<u8>, v: int, tb: int, k: int)
    requires
        0 <= v <= tb <= k <= s.len(),
        t == s.subrange(0, k),
    ensures
        unquote(t, trim_in(t, v, tb).0, trim_in(t, v, tb).1) == unquote(s, trim_in(s, v, tb).0, trim_in(s, v, tb).1),
{
    assert(s.subrange(v, tb) =~= t.subrange(v, tb));
    lemma_trim_in_bounds(s, v, tb);
    let va = trim_in(s, v, tb).0;
    let vb = trim_in(s, v, tb).1;
    assert(trim_in(t, v, tb) == trim_in(s, v, tb));
    if vb - va >= 2 {
        assert(t[va] == s[va]);
        assert(t[vb - 1] == s[vb - 1]);
    }
}

/// Two texts that agree up to `k` name the same boundary in a segment that
/// ends by `k`.
#[verifier::spinoff_prover]
proof fn lemma_segment_boundary_same(s: Seq<u8>, t: Seq<u8>, ta: int, tb: int, k: int)
    requires
        0 <= ta <= tb <= k <= s.len(),
        t == s.subrange(0, k),
    ensures
        segment_boundary(s, ta, tb) == segment_boundary(t, ta, tb),
{
    let ss = s.subrange(ta, tb);
    assert(ss =~= t.subrange(ta, tb));
    let low = lower_seq(ss);
    assert(low.len() == tb - ta);
    lemma_find_bound(low, boundary_eq());
    assert(boundary_eq().len() == 9);
    if let Some(p) = spec_find(low, boundary_eq()) {
        lemma_value_same(s, t, ta + p + 9, tb, k);
    }
}

/// `boundary_from` at `a` reads only up to the end of its segment, when it
/// finds the boundary there.
proof fn lemma_boundary_local(s: Seq<u8>, t: Seq<u8>, a: int, k: int)
    requires
        0 <= a <= k <= s.len(),
        t == s.subrange(0, k),
        forall|i: int| a <= i < k ==> s[i] != 0x3bu8,
        k < s.len() ==> s[k] == 0x3bu8,
        boundary_from(t, a) is Some,
    ensures
        boundary_from(s, a) == boundary_from(t, a),
{
    crate::text::lemma_byte_pos_down(s, a, k, 0x3b);
    assert forall|i: int| a <= i < k implies t[i] != 0x3bu8 by {
        assert(t[i] == s[i]);
    }
    crate::text::lemma_byte_pos_down(t, a, k, 0x3b);
    assert(s.subrange(a, k) =~= t.subrange(a, k));
    lemma_trim_in_bounds(s, a, k);
    let ta = trim_in(s, a, k).0;
    let tb = trim_in(s, a, k).1;
    assert(trim_in(t, a, k) == trim_in(s, a, k));
    lemma_segment_boundary_same(s, t, ta, tb, k);
    lemma_boundary_from_segment(s, a);
    lemma_boundary_from_segment(t, a);
}

/// Parameters after the boundary are not read into it: in
/// `multipart/form-data; boundary=B; P`, with `B` as in
/// `law_boundary_of_content_type` and any further parameters `P`, the
/// boundary is `B` (and `B` again when it is quoted).
pub proof fn law_boundary_ignores_later_parameters(b: Seq<u8>, rest: Seq<u8>)
    requires
        !b.contains(0x3bu8),
    ensures
        trim_range(b) == (0int, b.len() as int) && !(b.len() >= 2 && b[0] == 0x22 && b.last() == 0x22)
            ==> boundary_range(boundary_prefix() + b + (seq![0x3bu8] + rest))
                == Some((30int, (30 + b.len()) as int)),
        boundary_range(boundary_prefix() + (seq![0x22u8] + b + seq![0x22u8]) + (seq![0x3bu8] + rest))
            == Some((31int, (31 + b.len()) as int)),
{
    law_boundary_of_content_type(b);
    lemma_quoted(b);
    let q = seq![0x22u8] + b + seq![0x22u8];
    if trim_range(b) == (0int, b.len() as int) && !(b.len() >= 2 && b[0] == 0x22 && b.last() == 0x22) {
        lemma_later_parameters(b, rest);
    }
    lemma_later_parameters(q, rest);
}

/// `boundary_range` of `multipart/form-data; boundary=B; P` is that of
/// `multipart/form-data; boundary=B`, when the latter finds one.
#[verifier::spinoff_prover]
#[verifier::rlimit(40)]
proof fn lemma_later_parameters(b: Seq<u8>, rest: Seq<u8>)
    requires
        !b.contains(0x3bu8),
        boundary_range(boundary_prefix() + b) is Some,
    ensures
        boundary_range(boundary_prefix() + b + (seq![0x3bu8] + rest)) == boundary_range(boundary_prefix() + b),
{
    let t = boundary_prefix() + b;
    let x = seq![0x3bu8] + rest;
    let s = t + x;
    let k = t.len() as int;
    assert(boundary_prefix().len() == 30);
    lemma_type_segment(b);
    lemma_type_segment(b + x);
    assert(boundary_prefix() + (b + x) =~= s);
    assert(s.subrange(0, k) =~= t);
    assert forall|i: int| 20 <= i < k implies s[i] != 0x3bu8 by {
        assert(s[i] == t[i]);
        if i >= 30 {
            assert(t[i] == b[i - 30]);
        }
    }
    assert(s[k] == 0x3bu8);
    lemma_boundary_local(s, t, 20, k);
}

/// `"B"` holds no `;` when `B` holds none, and survives `trim` whole.
proof fn lemma_quoted(b: Seq<u8>)
    requires
        !b.contains(0x3bu8),
    ensures
        !(seq![0x22u8] + b + seq![0x22u8]).contains(0x3bu8),
        trim_range(seq![0x22u8] + b + seq![0x22u8]) == (0int, (b.len() + 2) as int),
{
    let q = seq![0x22u8] + b + seq![0x22u8];
    assert forall|i: int| 0 <= i < q.len() implies #[trigger] q[i] != 0x3b by {
        if 0 < i < q.len() - 1 {
            assert(q[i] == b[i - 1]);
        }
    }
    assert(q[0] == 0x22);
    assert(q[q.len() - 1] == 0x22);
    assert(ws_len_at(q, 0) == 0);
    assert(ws_len_before(q, q.len() as int) == 0);
}

proof fn lemma_boundary_for(b: Seq<u8>)
    requires
        !b.contains(0x3bu8),
    ensures
        trim_range(b) == (0int, b.len() as int) ==> boundary_range(boundary_prefix() + b)
            == Some(unquote(boundary_prefix() + b, 30, (30 + b.len()) as int)),
{
    if trim_range(b) == (0int, b.len() as int) {
        let s = boundary_prefix() + b;
        lemma_type_segment(b);
        lemma_boundary_segment(b);
        assert(boundary_range(s) == boundary_from(s, 0));
    }
}

/// The first segment of `multipart/form-data; boundary=B` is the type, which
/// holds no `boundary=`: reading goes on after the first `;`.
#[verifier::spinoff_prover]
proof fn lemma_type_segment(b: Seq<u8>)
    ensures
        starts_with_ci(boundary_prefix() + b, multipart_form_data()),
        boundary_from(boundary_prefix() + b, 0) == boundary_from(boundary_prefix() + b, 20),
{
    let m = multipart_form_data();
    let s = boundary_prefix() + b;
    assert(boundary_prefix().len() == 30);
    assert forall|i: int| 0 <= i < 19 implies #[trigger] s[i] == m[i] by {}
    assert(s[19] == 0x3b);
    assert(lower_seq(m) =~= m);
    assert(s.subrange(0, 19) =~= m);
    assert forall|i: int| 0 <= i < 19 implies #[trigger] s[i] != 0x3b by {}
    crate::text::lemma_byte_pos_first(s, 19, 0x3b);
    assert(trim_range(m) == (0int, 19int)) by {
        assert(ws_len_at(m, 0) == 0);
        assert(ws_len_before(m, 19) == 0);
    }
    assert forall|j: int| !occurs_at(lower_seq(m), boundary_eq(), j) by {
        if occurs_at(lower_seq(m), boundary_eq(), j) {
            assert(lower_seq(m).subrange(j, j + 9)[8] == boundary_eq()[8]);
            assert(m[j + 8] == 0x3d);
        }
    }
    lemma_first_occurrence_none(lower_seq(m), boundary_eq());
}

/// The second segment, ` boundary=B`, gives `B` (unquoted if quoted).
proof fn lemma_boundary_segment(b: Seq<u8>)
    requires
        !b.contains(0x3bu8),
        trim_range(b) == (0int, b.len() as int),
    ensures
        boundary_from(boundary_prefix() + b, 20) == Some(unquote(boundary_prefix() + b, 30, (30 + b.len()) as int)),
{
    lemma_segment_runs_to_end(b);
    lemma_segment_trim(b);
    lemma_segment_names_boundary(b);
    lemma_value_trim(b);
    lemma_boundary_from_parts(boundary_prefix() + b);
}

/// `boundary_from` at offset 20, from the facts it reads.
proof fn lemma_boundary_from_parts(s: Seq<u8>)
    requires
        s.len() >= 30,
        byte_pos_from(s, 20, 0x3b) == s.len(),
        trim_in(s, 20, s.len() as int) == (21int, s.len() as int),
        spec_find(lower_seq(s.subrange(21, s.len() as int)), boundary_eq()) == Some(0int),
        trim_in(s, 30, s.len() as int) == (30int, s.len() as int),
    ensures
        boundary_from(s, 20) == Some(unquote(s, 30, s.len() as int)),
{
}

proof fn lemma_value_trim(b: Seq<u8>)
    requires
        trim_range(b) == (0int, b.len() as int),
    ensures
        trim_in(boundary_prefix() + b, 30, (boundary_prefix() + b).len() as int) == (30int, (boundary_prefix() + b).len() as int),
{
    let s = boundary_prefix() + b;
    assert(boundary_prefix().len() == 30);
    assert(s.subrange(30, s.len() as int) =~= b);
}

proof fn lemma_segment_runs_to_end(b: Seq<u8>)
    requires
        !b.contains(0x3bu8),
    ensures
        byte_pos_from(boundary_prefix() + b, 20, 0x3b) == (boundary_prefix() + b).len(),
{
    let s = boundary_prefix() + b;
    let ls = s.len() as int;
    assert(boundary_prefix().len() == 30);
    assert forall|i: int| 20 <= i < ls implies #[trigger] s[i] != 0x3b by {
        if i >= 30 {
            assert(s[i] == b[i - 30]);
        }
    }
    crate::text::lemma_byte_pos_down(s, 20, ls, 0x3b);
}

proof fn lemma_segment_trim(b: Seq<u8>)
    requires
        trim_range(b) == (0int, b.len() as int),
    ensures
        trim_range((boundary_prefix() + b).subrange(20, (boundary_prefix() + b).len() as int))
            == (1int, (b.len() + 10) as int),
        trim_in(boundary_prefix() + b, 20, (boundary_prefix() + b).len() as int) == (21int, (boundary_prefix() + b).len() as int),
{
    let s = boundary_prefix() + b;
    let ls = s.len() as int;
    assert(boundary_prefix().len() == 30);
    let t = s.subrange(20, ls);
    assert(t =~= seq![0x20u8] + boundary_eq() + b);
    assert(t.subrange(10, t.len() as int) =~= b);
    assert(t[9] == 0x3d);
    lemma_tail_trimmed(t, 9);
    assert(ws_len_at(t, 0) == 1);
    assert(ws_len_at(t, 1) == 0);
    reveal_with_fuel(crate::text::trim_start_from, 2);
}

proof fn lemma_segment_names_boundary(b: Seq<u8>)
    ensures
        spec_find(lower_seq((boundary_prefix() + b).subrange(21, (boundary_prefix() + b).len() as int)), boundary_eq())
            == Some(0int),
{
    let s = boundary_prefix() + b;
    let ls = s.len() as int;
    assert(boundary_prefix().len() == 30);
    let u = s.subrange(21, ls);
    assert(u =~= boundary_eq() + b);
    assert(u.subrange(0, 9) =~= boundary_eq());
    assert(lower_seq(u).subrange(0, 9) =~= boundary_eq());
    assert(is_first_occurrence(lower_seq(u), boundary_eq(), Some(0int)));
    lemma_first_occurrence_find(lower_seq(u), boundary_eq(), 0);
}

pub proof fn lemma_first_occurrence_find(s: Seq<u8>, p: Seq<u8>, i: int)
    requires
        is_first_occurrence(s, p, Some(i)),
    ensures
        spec_find(s, p) == Some(i),
        occurs_at(s, p, i),
{
    crate::text::lemma_first_occurrence_unique(s, p, Some(i));
}

pub proof fn lemma_first_occurrence_none(s: Seq<u8>, p: Seq<u8>)
    requires
        is_first_occurrence(s, p, None),
    ensures
        spec_find(s, p) is None,
{
}

// ===========================================================================
// Parameters
// ===========================================================================

proof fn lemma_lower_same_width(x: u8, y: u8)
    requires
        ascii_lower(x) == ascii_lower(y),
    ensures
        lead_width(x) == lead_width(y),
        x <= 0x7f <==> y <= 0x7f,
{
    if 0x41 <= x <= 0x5a {
        assert(ascii_lower(x) == x + 32);
    }
    if 0x41 <= y <= 0x5a {
        assert(ascii_lower(y) == y + 32);
    }
}

/// Walking two texts whose bytes agree up to ASCII case keeps both on
/// character starts at the same offsets.
proof fn lemma_walk_chars_ci(b: Seq<u8>, lo: int, p: Seq<u8>, k: int)
    requires
        valid_utf8(b),
        valid_utf8(p),
        0 <= lo,
        lo + p.len() <= b.len(),
        lower_seq(b.subrange(lo, lo + p.len())) == lower_seq(p),
        0 <= k <= p.len(),
        char_start(p, k),
        char_start(b, lo + k),
    ensures
        char_start(b, lo + p.len()),
    decreases p.len() - k,
{
    if k < p.len() {
        assert(lower_seq(b.subrange(lo, lo + p.len()))[k] == lower_seq(p)[k]);
        assert(b.subrange(lo, lo + p.len())[k] == b[lo + k]);
        assert(lower_seq(p)[k] == ascii_lower(p[k]));
        assert(lower_seq(b.subrange(lo, lo + p.len()))[k] == ascii_lower(b[lo + k]));
        lemma_lower_same_width(b[lo + k], p[k]);
        lemma_next_char_start(p, k);
        lemma_next_char_start(b, lo + k);
        lemma_walk_chars_ci(b, lo, p, k + lead_width(p[k]));
    }
}

/// A prefix that matches a UTF-8 prefix up to ASCII case ends on a character
/// start.
proof fn lemma_ci_prefix_char_start(b: Seq<u8>, lo: int, p: Seq<u8>)
    requires
        valid_utf8(b),
        valid_utf8(p),
        0 <= lo,
        lo + p.len() <= b.len(),
        lower_seq(b.subrange(lo, lo + p.len())) == lower_seq(p),
        char_start(b, lo),
    ensures
        char_start(b, lo + p.len()),
{
    lemma_walk_chars_ci(b, lo, p, 0);
}

/// A byte range that starts and ends on characters.
pub open spec fn range_ok(s: Seq<u8>, r: Option<(int, int)>) -> bool {
    match r {
        Some((a, b)) => 0 <= a <= b <= s.len() && char_start(s, a) && char_start(s, b),
        None => true,
    }
}

pub open spec fn ghost_range(r: Option<(usize, usize)>) -> Option<(int, int)> {
    match r {
        Some((a, b)) => Some((a as int, b as int)),
        None => None,
    }
}

/// The value range of the parameter `lo..hi` of `s` when it starts with
/// `prefix` in any ASCII case, without surrounding quotes.
fn quoted_param_at(s: &[u8], lo: usize, hi: usize, prefix: &[u8]) -> (r: Option<(usize, usize)>)
    requires
        lo <= hi <= s.len(),
        valid_utf8(s@),
        valid_utf8(prefix@),
        char_start(s@, lo as int),
        char_start(s@, hi as int),
    ensures
        ghost_range(r) == quoted_param(s@, lo as int, hi as int, prefix@),
        range_ok(s@, ghost_range(r)),
{
    let param = &s[lo..hi];
    if !starts_with_ci_exec(param, prefix) {
        return None;
    }
    let n = prefix.len();
    proof {
        assert(s@.subrange(lo as int, lo + n) == param@.subrange(0, n as int));
        lemma_ci_prefix_char_start(s@, lo as int, prefix@);
    }
    let a = lo + n;
    if hi - a >= 2 && s[a] == 0x22 && s[hi - 1] == 0x22 {
        proof {
            lemma_ascii_char_starts(s@, a as int);
            lemma_ascii_char_starts(s@, hi - 1);
        }
        Some((a + 1, hi - 1))
    } else {
        Some((a, hi))
    }
}

/// The value of a parameter such as `name="value"` or `name=value` when it
/// starts with `prefix` (in any ASCII case), without surrounding quotes.
pub fn extract_quoted_param<'a>(param: &'a str, prefix: &str) -> (r: Option<&'a str>)
    ensures
        match quoted_param(param.spec_bytes(), 0, param.spec_bytes().len() as int, prefix.spec_bytes()) {
            Some((a, b)) => r matches Some(t) && t.spec_bytes() == param.spec_bytes().subrange(a, b),
            None => r is None,
        },
{
    let bytes = param.as_bytes();
    proof {
        lemma_str_bytes(param);
        lemma_str_bytes(prefix);
        assert(char_start(bytes@, 0)) by {
            if bytes@.len() > 0 {
                vstd::utf8::is_char_boundary_iff_not_is_continuation_byte(bytes@, 0);
                vstd::utf8::is_char_boundary_start_end_of_seq(bytes@);
            }
        }
    }
    match quoted_param_at(bytes, 0, bytes.len(), prefix.as_bytes()) {
        Some((a, b)) => Some(str_slice(param, a, b)),
        None => None,
    }
}

// ===========================================================================
// Single part
// ===========================================================================

/// The header fields found so far, as byte ranges of the part.
struct Fields {
    name: Option<(usize, usize)>,
    filename: Option<(usize, usize)>,
    content_type: Option<(usize, usize)>,
}

impl Fields {
    spec fn g(&self) -> HeaderFields {
        HeaderFields {
            name: ghost_range(self.name),
            filename: ghost_range(self.filename),
            content_type: ghost_range(self.content_type),
        }
    }

    spec fn ok(&self, s: Seq<u8>) -> bool {
        range_ok(s, ghost_range(self.name)) && range_ok(s, ghost_range(self.filename))
            && range_ok(s, ghost_range(self.content_type))
    }
}

fn name_eq_bytes() -> (r: [u8; 5])
    ensures
        r@ == name_eq(),
{
    let r: [u8; 5] = [0x6e, 0x61, 0x6d, 0x65, 0x3d];
    assert(r@ =~= name_eq());
    r
}

fn filename_eq_bytes() -> (r: [u8; 9])
    ensures
        r@ == filename_eq(),
{
    let r: [u8; 9] = [0x66, 0x69, 0x6c, 0x65, 0x6e, 0x61, 0x6d, 0x65, 0x3d];
    assert(r@ =~= filename_eq());
    r
}

fn content_disposition_bytes() -> (r: [u8; 20])
    ensures
        r@ == content_disposition(),
{
    let r: [u8; 20] = [0x63, 0x6f, 0x6e, 0x74, 0x65, 0x6e, 0x74, 0x2d, 0x64, 0x69, 0x73, 0x70, 0x6f, 0x73, 0x69, 0x74, 0x69, 0x6f, 0x6e, 0x3a];
    assert(r@ =~= content_disposition());
    r
}

fn content_type_colon_bytes() -> (r: [u8; 13])
    ensures
        r@ == content_type_colon(),
{
    let r: [u8; 13] = [0x63, 0x6f, 0x6e, 0x74, 0x65, 0x6e, 0x74, 0x2d, 0x74, 0x79, 0x70, 0x65, 0x3a];
    assert(r@ =~= content_type_colon());
    r
}

/// Reads the `;`-separated parameters of a Content-Disposition value `va..vb`.
fn read_params(s: &[u8], va: usize, vb: usize, st: Fields) -> (r: Fields)
    requires
        va <= vb <= s.len(),
        valid_utf8(s@),
        char_start(s@, va as int),
        char_start(s@, vb as int),
        st.ok(s@),
    ensures
        r.g() == params_from(s@, va as int, vb as int, st.g()),
        r.ok(s@),
{
    let ghost total = params_from(s@, va as int, vb as int, st.g());
    let np = name_eq_bytes();
    let fp = filename_eq_bytes();
    proof {
        assert(valid_utf8(np@)) by { reveal_with_fuel(valid_utf8, 6); }
        assert(valid_utf8(fp@)) by { reveal_with_fuel(valid_utf8, 10); }
    }
    let mut cur = st;
    let mut a = va;
    loop
        invariant
            va <= a <= vb <= s.len(),
            valid_utf8(s@),
            valid_utf8(np@),
            valid_utf8(fp@),
            np@ == name_eq(),
            fp@ == filename_eq(),
            char_start(s@, a as int),
            char_start(s@, vb as int),
            cur.ok(s@),
            params_from(s@, a as int, vb as int, cur.g()) == total,
            total == params_from(s@, va as int, vb as int, st.g()),
        decreases vb + 1 - a,
    {
        let e0 = find_byte_from(s, a, 0x3b);
        let e = if e0 < vb { e0 } else { vb };
        proof {
            if e0 < vb {
                lemma_ascii_char_starts(s@, e0 as int);
            }
            lemma_trim_in_char_starts(s@, a as int, e as int);
        }
        let (pa, pb) = trim_bounds_in(s, a, e);
        let st2 = match quoted_param_at(s, pa, pb, np.as_slice()) {
            Some(r) => Fields { name: Some(r), filename: cur.filename, content_type: cur.content_type },
            None => match quoted_param_at(s, pa, pb, fp.as_slice()) {
                Some(r) => Fields { name: cur.name, filename: Some(r), content_type: cur.content_type },
                None => cur,
            },
        };
        if e < vb {
            proof { lemma_ascii_char_starts(s@, e as int); }
            cur = st2;
            a = e + 1;
        } else {
            return st2;
        }
    }
}

/// Reads the header lines of a part, `0..hp`.
fn read_headers(s: &[u8], hp: usize) -> (r: Fields)
    requires
        hp <= s.len(),
        valid_utf8(s@),
        char_start(s@, hp as int),
    ensures
        r.g() == header_lines_from(s@, 0, hp as int, no_fields()),
        r.ok(s@),
{
    let ghost total = header_lines_from(s@, 0, hp as int, no_fields());
    let cd = content_disposition_bytes();
    let ct = content_type_colon_bytes();
    let mut cur = Fields { name: None, filename: None, content_type: None };
    let mut a: usize = 0;
    proof {
        assert(char_start(s@, 0)) by {
            if s@.len() > 0 {
                vstd::utf8::is_char_boundary_start_end_of_seq(s@);
                vstd::utf8::is_char_boundary_iff_not_is_continuation_byte(s@, 0);
            }
        }
    }
    loop
        invariant
            a <= hp <= s.len(),
            valid_utf8(s@),
            cd@ == content_disposition(),
            ct@ == content_type_colon(),
            char_start(s@, a as int),
            char_start(s@, hp as int),
            cur.ok(s@),
            header_lines_from(s@, a as int, hp as int, cur.g()) == total,
            total == header_lines_from(s@, 0, hp as int, no_fields()),
        decreases hp + 1 - a,
    {
        let e0 = find_byte_from(s, a, 0x0a);
        let e = if e0 < hp { e0 } else { hp };
        proof {
            if e0 < hp {
                lemma_ascii_char_starts(s@, e0 as int);
            }
            lemma_trim_in_char_starts(s@, a as int, e as int);
        }
        let (la, lb) = trim_bounds_in(s, a, e);
        let ghost line = s@.subrange(la as int, lb as int);
        let st2 = if la >= lb {
            cur
        } else if starts_with_ci_exec(&s[la..lb], cd.as_slice()) {
            proof {
                assert(s@.subrange(la as int, lb as int) == line);
                assert(lower_seq(line.subrange(0, 20))[19] == ascii_lower(s@[la + 19]));
                assert(lower_seq(content_disposition())[19] == 0x3a);
                lemma_lower_non_letter(s@[la + 19], 0x3a);
                lemma_ascii_char_starts(s@, la + 19);
                lemma_trim_in_char_starts(s@, la + 20, lb as int);
            }
            let (va, vb) = trim_bounds_in(s, la + 20, lb);
            read_params(s, va, vb, cur)
        } else if starts_with_ci_exec(&s[la..lb], ct.as_slice()) {
            proof {
                assert(s@.subrange(la as int, lb as int) == line);
                assert(lower_seq(line.subrange(0, 13))[12] == ascii_lower(s@[la + 12]));
                assert(lower_seq(content_type_colon())[12] == 0x3a);
                lemma_lower_non_letter(s@[la + 12], 0x3a);
                lemma_ascii_char_starts(s@, la + 12);
                lemma_trim_in_char_starts(s@, la + 13, lb as int);
            }
            let r = trim_bounds_in(s, la + 13, lb);
            Fields { name: cur.name, filename: cur.filename, content_type: Some(r) }
        } else {
            cur
        };
        if e < hp {
            proof { lemma_ascii_char_starts(s@, e as int); }
            cur = st2;
            a = e + 1;
        } else {
            return st2;
        }
    }
}

fn strip_crlf_end_exec(s: &[u8], lo: usize, j: usize) -> (r: usize)
    requires
        lo <= j <= s.len(),
    ensures
        r as int == strip_crlf_end(s@, lo as int, j as int),
        lo <= r <= j,
{
    let mut k = j;
    while k - lo >= 2 && s[k - 2] == 0x0d && s[k - 1] == 0x0a
        invariant
            lo <= k <= j <= s.len(),
            strip_crlf_end(s@, lo as int, k as int) == strip_crlf_end(s@, lo as int, j as int),
        decreases k,
    {
        k = k - 2;
    }
    k
}

fn strip_lf_end_exec(s: &[u8], lo: usize, j: usize) -> (r: usize)
    requires
        lo <= j <= s.len(),
    ensures
        r as int == strip_lf_end(s@, lo as int, j as int),
        lo <= r <= j,
{
    let mut k = j;
    while k - lo >= 1 && s[k - 1] == 0x0a
        invariant
            lo <= k <= j <= s.len(),
            strip_lf_end(s@, lo as int, k as int) == strip_lf_end(s@, lo as int, j as int),
        decreases k,
    {
        k = k - 1;
    }
    k
}

fn slice_opt<'a>(t: &'a str, r: Option<(usize, usize)>) -> (o: Option<&'a str>)
    requires
        range_ok(t.spec_bytes(), ghost_range(r)),
    ensures
        opt_bytes(o) == opt_range_bytes(t.spec_bytes(), ghost_range(r)),
{
    match r {
        Some((a, b)) => Some(str_slice(t, a, b)),
        None => None,
    }
}

/// Parses one part: headers, a blank line, then the data. `None` when the
/// blank line or the field name is missing.
pub fn parse_single_part<'a>(part_str: &'a str) -> (r: Option<Part<'a>>)
    ensures
        match single_part(part_str.spec_bytes()) {
            Some(v) => r matches Some(p) && p@ == v,
            None => r is None,
        },
{
    reveal(single_part);
    let s = part_str.as_bytes();
    let n = s.len();
    proof { lemma_str_bytes(part_str); }
    let crlf2: [u8; 4] = [0x0d, 0x0a, 0x0d, 0x0a];
    let lf2: [u8; 2] = [0x0a, 0x0a];
    proof {
        assert(crlf2@ =~= crlfcrlf());
        assert(lf2@ =~= lflf());
    }
    let (hp, ds) = match find_bytes(s, crlf2.as_slice()) {
        Some(p) => {
            proof {
                assert(occurs_at(s@, crlf2@, p as int));
                assert(s@.subrange(p as int, p + 4)[0] == s@[p as int]);
            }
            (p, p + 4)
        },
        None => match find_bytes(s, lf2.as_slice()) {
            Some(p) => {
                proof {
                    assert(occurs_at(s@, lf2@, p as int));
                    assert(s@.subrange(p as int, p + 2)[0] == s@[p as int]);
                }
                (p, p + 2)
            },
            None => return None,
        },
    };
    proof { lemma_ascii_char_starts(s@, hp as int); }
    let f = read_headers(s, hp);
    match f.name {
        None => None,
        Some((na, nb)) => {
            let d1 = strip_crlf_end_exec(s, ds, s.len());
            let d2 = strip_lf_end_exec(s, ds, d1);
            let de = strip_crlf_end_exec(s, ds, d2);
            Some(Part {
                name: str_slice(part_str, na, nb),
                filename: slice_opt(part_str, f.filename),
                content_type: slice_opt(part_str, f.content_type),
                data: &s[ds..de],
            })
        },
    }
}

// ===========================================================================
// Body
// ===========================================================================

fn skip_crlf_exec(s: &[u8], r: usize) -> (k: usize)
    requires
        r <= s.len(),
        valid_utf8(s@),
        char_start(s@, r as int),
    ensures
        k as int == skip_crlf(s@, r as int),
        r <= k <= s.len(),
        char_start(s@, k as int),
{
    let mut k = r;
    while s.len() - k >= 2 && s[k] == 0x0d && s[k + 1] == 0x0a
        invariant
            r <= k <= s.len(),
            valid_utf8(s@),
            char_start(s@, k as int),
            skip_crlf(s@, k as int) == skip_crlf(s@, r as int),
        decreases s.len() - k,
    {
        proof { lemma_ascii_char_starts(s@, k + 1); }
        k = k + 2;
    }
    k
}

fn skip_lf_exec(s: &[u8], r: usize) -> (k: usize)
    requires
        r <= s.len(),
        valid_utf8(s@),
        char_start(s@, r as int),
    ensures
        k as int == skip_lf(s@, r as int),
        r <= k <= s.len(),
        char_start(s@, k as int),
{
    let mut k = r;
    while k < s.len() && s[k] == 0x0a
        invariant
            r <= k <= s.len(),
            valid_utf8(s@),
            char_start(s@, k as int),
            skip_lf(s@, k as int) == skip_lf(s@, r as int),
        decreases s.len() - k,
    {
        proof { lemma_ascii_char_starts(s@, k as int); }
        k = k + 1;
    }
    k
}

/// `parts_from` where the rest starts with `--`.
proof fn lemma_parts_at_end(s: Seq<u8>, m: Seq<u8>, r: int, count: int)
    requires
        0 <= r <= s.len(),
        starts_with(s.subrange(r, s.len() as int), dash_dash()) || skip_lf(s, skip_crlf(s, r)) >= s.len(),
    ensures
        parts_from(s, m, r, count) == Ok::<Seq<PartView>, MultipartError>(Seq::empty()),
{
    reveal(parts_from);
}

/// `parts_from` when another part is to be read.
#[verifier::rlimit(60)]
proof fn lemma_parts_step(s: Seq<u8>, m: Seq<u8>, r: int, count: int, r2: int, found: Option<int>)
    requires
        0 <= r <= s.len(),
        !starts_with(s.subrange(r, s.len() as int), dash_dash()),
        r2 == skip_lf(s, skip_crlf(s, r)),
        r2 < s.len(),
        found == spec_find(s.subrange(r2, s.len() as int), m),
        m.len() >= 1,
        r <= r2,
    ensures
        count >= MAX_MULTIPART_PARTS ==> parts_from(s, m, r, count) == Err::<Seq<PartView>, MultipartError>(MultipartError::TooManyParts),
        count < MAX_MULTIPART_PARTS ==> parts_from(s, m, r, count) == ({
            let pe = match found { Some(i) => r2 + i, None => s.len() as int };
            let part = single_part(s.subrange(r2, pe));
            let count2 = if part is Some { count + 1 } else { count };
            let here = match part { Some(p) => seq![p], None => Seq::empty() };
            match found {
                Some(i) => if r < r2 + i + m.len() <= s.len() {
                    prepend_ok(here, parts_from(s, m, r2 + i + m.len(), count2))
                } else {
                    Ok(here)
                },
                None => Ok(here),
            }
        }),
{
    reveal(parts_from);
}

proof fn lemma_prepend_assoc(a: Seq<PartView>, b: Seq<PartView>, x: Result<Seq<PartView>, MultipartError>)
    ensures
        prepend_ok(a, prepend_ok(b, x)) == prepend_ok(a + b, x),
{
    if let Ok(ps) = x {
        assert(a + (b + ps) =~= (a + b) + ps);
    }
}

/// Where reading the parts of a body starts.
proof fn lemma_multipart_start(s: Seq<u8>, b: Seq<u8>, p: int)
    requires
        valid_utf8(s),
        is_first_occurrence(s, marker_of(b), Some(p)),
    ensures
        multipart_parts(s, b) == parts_from(s, marker_of(b), p + marker_of(b).len(), 0),
{
    reveal(multipart_parts);
    lemma_first_occurrence_find(s, marker_of(b), p);
}

/// `--` followed by the boundary.
fn marker_bytes(boundary: &str) -> (m: Vec<u8>)
    ensures
        m@ == marker_of(boundary.spec_bytes()),
{
    let b = boundary.as_bytes();
    let mut m: Vec<u8> = Vec::new();
    m.push(0x2d);
    m.push(0x2d);
    let mut i: usize = 0;
    while i < b.len()
        invariant
            i <= b.len(),
            m@ == dash_dash() + b@.subrange(0, i as int),
        decreases b.len() - i,
    {
        m.push(b[i]);
        proof { assert(b@.subrange(0, i + 1) == b@.subrange(0, i as int).push(b@[i as int])); }
        i = i + 1;
    }
    proof { assert(b@.subrange(0, b@.len() as int) == b@); }
    m
}

/// Parses a multipart body into its parts. `boundary` is the boundary
/// parameter without the leading `--`. The body must be UTF-8 and hold at
/// least one boundary marker.
pub fn parse_multipart<'a>(body: &'a [u8], boundary: &str) -> (r: Result<Vec<Part<'a>>, MultipartError>)
    ensures
        match multipart_parts(body@, boundary.spec_bytes()) {
            Ok(vs) => r matches Ok(ps) && views_match(ps@, vs),
            Err(e) => r == Err::<Vec<Part<'a>>, MultipartError>(e),
        },
{
    let n = body.len();
    let text = match str_from_utf8(body) {
        Some(t) => t,
        None => {
            proof { reveal(multipart_parts); }
            return Err(MultipartError::InvalidFormat);
        },
    };
    let ghost sq = body@;
    let ghost bspec = boundary.spec_bytes();
    proof {
        decode_utf8_encode_utf8(sq);
        lemma_str_bytes(boundary);
    }
    let marker = marker_bytes(boundary);
    let m = marker.as_slice();
    proof {
        assert(valid_utf8(dash_dash())) by { reveal_with_fuel(valid_utf8, 3); }
        vstd::utf8::valid_utf8_concat(dash_dash(), bspec);
    }
    let p = match find_bytes(body, m) {
        Some(p) => p,
        None => {
            proof { reveal(multipart_parts); }
            return Err(MultipartError::InvalidFormat);
        },
    };
    proof {
        assert(sq.subrange(p as int, p + m@.len())[0] == sq[p as int]);
        lemma_ascii_char_starts(sq, p as int);
        lemma_match_ends_on_char(sq, p as int, m@);
        lemma_multipart_start(sq, bspec, p as int);
        assert(p + m@.len() <= sq.len());
    }
    let mut r = p + m.len();
    let mut parts: Vec<Part<'a>> = Vec::new();
    let ghost mut done: Seq<PartView> = Seq::empty();
    let dd: [u8; 2] = [0x2d, 0x2d];
    proof { assert(dd@ =~= dash_dash()); }
    loop
        invariant
            sq == body@,
            bspec == boundary.spec_bytes(),
            text.spec_bytes() == sq,
            valid_utf8(sq),
            valid_utf8(m@),
            m@ == marker_of(bspec),
            m@.len() >= 2,
            dd@ == dash_dash(),
            r <= sq.len(),
            char_start(sq, r as int),
            multipart_parts(sq, bspec) == prepend_ok(done, parts_from(sq, m@, r as int, parts@.len() as int)),
            views_match(parts@, done),
        decreases sq.len() - r,
    {
        let rest = &body[r..body.len()];
        if starts_with_exec(rest, dd.as_slice()) {
            proof {
                lemma_parts_at_end(sq, m@, r as int, parts@.len() as int);
                assert(done + Seq::<PartView>::empty() == done);
            }
            return Ok(parts);
        }
        let r1 = skip_crlf_exec(body, r);
        let r2 = skip_lf_exec(body, r1);
        if r2 >= body.len() {
            proof {
                lemma_parts_at_end(sq, m@, r as int, parts@.len() as int);
                assert(done + Seq::<PartView>::empty() == done);
            }
            return Ok(parts);
        }
        let tail = &body[r2..body.len()];
        let found = find_bytes(tail, m);
        let ghost gfound = match found { Some(i) => Some(i as int), None => None::<int> };
        proof {
            lemma_parts_step(sq, m@, r as int, parts@.len() as int, r2 as int, gfound);
        }
        if parts.len() >= MAX_MULTIPART_PARTS {
            return Err(MultipartError::TooManyParts);
        }
        let pe = match found {
            Some(i) => r2 + i,
            None => body.len(),
        };
        proof {
            if let Some(i) = found {
                assert(tail@.subrange(i as int, i + m@.len()) == m@);
                assert(sq[r2 + i] == tail@.subrange(i as int, i + m@.len())[0]);
                lemma_ascii_char_starts(sq, r2 + i);
            }
        }
        let piece = str_slice(text, r2, pe);
        let ghost here: Seq<PartView> = Seq::empty();
        match parse_single_part(piece) {
            Some(part) => {
                proof { here = seq![part@]; }
                parts.push(part);
            },
            None => {},
        }
        let ghost before = done;
        proof {
            assert(views_match(parts@, done + here));
            assert((done + here) + Seq::<PartView>::empty() == done + here);
            done = done + here;
        }
        match found {
            Some(i) => {
                proof {
                    assert(tail@.subrange(i as int, i + m@.len()) == sq.subrange(r2 + i, r2 + i + m@.len()));
                    lemma_match_ends_on_char(sq, r2 + i, m@);
                    assert(r < r2 + i + m@.len() <= sq.len());
                    lemma_prepend_assoc(before, here, parts_from(sq, m@, r2 + i + m@.len(), parts@.len() as int));
                }
                r = r2 + i + m.len();
            },
            None => {
                return Ok(parts);
            },
        }
    }
}

} // verus!
