//! Cookie parsing and building: the `Cookie` request header is split into
//! name/value pairs, and `Set-Cookie` values are built from their attributes.

use vstd::prelude::*;
use vstd::utf8::valid_utf8;
use vstd::string::StringSliceAdditionalSpecFns;
use vstd::utf8::encode_utf8;
use crate::text::{
    lemma_byte_pos_first, lemma_encode_concat, lemma_trimmed_edges, trim_range, ws_len_at, ws_len_before,
    byte_pos_from, char_start, decimal, find_byte_from, lemma_ascii_char_starts, lemma_byte_pos_from,
    lemma_str_bytes, lemma_trim_in_char_starts, push_decimal, push_text, str_slice,
    to_owned_string, trim_bounds_in, trim_in,
};

verus! {

broadcast use {vstd::seq::group_seq_axioms, vstd::seq_lib::group_seq_properties};

/// SameSite attribute for cookies.
#[derive(Debug, Clone, Copy, PartialEq, Eq, Structural)]
#[non_exhaustive]
pub enum SameSite {
    /// Cookie is sent only with same-site requests.
    Strict,
    /// Cookie is sent with same-site requests and top-level navigations.
    Lax,
    /// Cookie is sent with all requests (requires Secure).
    Unrestricted,
}

/// The attribute text of a SameSite value.
pub open spec fn same_site_text(s: SameSite) -> Seq<char> {
    match s {
        SameSite::Strict => "Strict"@,
        SameSite::Lax => "Lax"@,
        SameSite::Unrestricted => "None"@,
    }
}

impl SameSite {
    /// The attribute text: `Strict`, `Lax` or `None`.
    pub fn as_str(self) -> (r: &'static str)
        ensures
            r@ == same_site_text(self),
    {
        match self {
            SameSite::Strict => "Strict",
            SameSite::Lax => "Lax",
            SameSite::Unrestricted => "None",
        }
    }
}

/// What a `Set-Cookie` builder holds.
pub ghost struct CookieModel {
    pub name: Seq<char>,
    pub value: Seq<char>,
    pub http_only: bool,
    pub secure: bool,
    pub same_site: Option<SameSite>,
    pub max_age: Option<u64>,
    pub expires: Option<Seq<char>>,
    pub path: Option<Seq<char>>,
    pub domain: Option<Seq<char>>,
}

/// `prefix + value` for a present attribute, nothing otherwise.
pub open spec fn attr_text(prefix: Seq<char>, v: Option<Seq<char>>) -> Seq<char> {
    match v {
        Some(x) => prefix + x,
        None => Seq::empty(),
    }
}

/// The `Set-Cookie` header value: `name=value`, then each set attribute in the
/// order HttpOnly, Secure, SameSite, Max-Age, Expires, Path, Domain, joined
/// with `"; "`.
pub open spec fn set_cookie_text(c: CookieModel) -> Seq<char> {
    c.name + "="@ + c.value
        + (if c.http_only { "; HttpOnly"@ } else { Seq::empty() })
        + (if c.secure { "; Secure"@ } else { Seq::empty() })
        + attr_text("; SameSite="@, match c.same_site { Some(s) => Some(same_site_text(s)), None => None })
        + attr_text("; Max-Age="@, match c.max_age { Some(n) => Some(decimal(n as nat)), None => None })
        + attr_text("; Expires="@, c.expires)
        + attr_text("; Path="@, c.path)
        + attr_text("; Domain="@, c.domain)
}

/// One call of a `Set-Cookie` builder method, by its argument.
pub ghost enum CookieStep {
    HttpOnly,
    Secure,
    SameSite(SameSite),
    MaxAge(u64),
    Expires(Seq<char>),
    Path(Seq<char>),
    Domain(Seq<char>),
}

/// What one builder call makes of a cookie.
pub open spec fn apply_cookie_step(c: CookieModel, st: CookieStep) -> CookieModel {
    match st {
        CookieStep::HttpOnly => CookieModel { http_only: true, ..c },
        CookieStep::Secure => CookieModel { secure: true, ..c },
        CookieStep::SameSite(x) => CookieModel { same_site: Some(x), ..c },
        CookieStep::MaxAge(n) => CookieModel { max_age: Some(n), ..c },
        CookieStep::Expires(t) => CookieModel { expires: Some(t), ..c },
        CookieStep::Path(t) => CookieModel { path: Some(t), ..c },
        CookieStep::Domain(t) => CookieModel { domain: Some(t), ..c },
    }
}

/// What a chain of builder calls makes of a cookie, first call first.
pub open spec fn apply_cookie_steps(c: CookieModel, steps: Seq<CookieStep>) -> CookieModel
    decreases steps.len(),
{
    if steps.len() == 0 {
        c
    } else {
        apply_cookie_step(apply_cookie_steps(c, steps.drop_last()), steps.last())
    }
}

/// What `SetCookie::new(name, value)` holds.
pub open spec fn fresh_cookie(name: Seq<char>, value: Seq<char>) -> CookieModel {
    CookieModel {
        name,
        value,
        http_only: false,
        secure: false,
        same_site: None,
        max_age: None,
        expires: None,
        path: None,
        domain: None,
    }
}

/// The argument of the last step that `pick` selects, if any step does.
pub open spec fn last_pick<A>(steps: Seq<CookieStep>, pick: spec_fn(CookieStep) -> Option<A>) -> Option<A>
    decreases steps.len(),
{
    if steps.len() == 0 {
        None
    } else {
        match pick(steps.last()) {
            Some(a) => Some(a),
            None => last_pick(steps.drop_last(), pick),
        }
    }
}

pub open spec fn pick_same_site(st: CookieStep) -> Option<SameSite> {
    match st {
        CookieStep::SameSite(x) => Some(x),
        _ => None,
    }
}

pub open spec fn pick_max_age(st: CookieStep) -> Option<u64> {
    match st {
        CookieStep::MaxAge(n) => Some(n),
        _ => None,
    }
}

pub open spec fn pick_expires(st: CookieStep) -> Option<Seq<char>> {
    match st {
        CookieStep::Expires(t) => Some(t),
        _ => None,
    }
}

pub open spec fn pick_path(st: CookieStep) -> Option<Seq<char>> {
    match st {
        CookieStep::Path(t) => Some(t),
        _ => None,
    }
}

pub open spec fn pick_domain(st: CookieStep) -> Option<Seq<char>> {
    match st {
        CookieStep::Domain(t) => Some(t),
        _ => None,
    }
}

/// The cookie that a chain of builder calls gives, read off the chain: a
/// flag is set when its call occurs, and each valued attribute holds the
/// argument of its last call.
pub open spec fn cookie_of_steps(name: Seq<char>, value: Seq<char>, steps: Seq<CookieStep>) -> CookieModel {
    CookieModel {
        name,
        value,
        http_only: steps.contains(CookieStep::HttpOnly),
        secure: steps.contains(CookieStep::Secure),
        same_site: last_pick(steps, |st: CookieStep| pick_same_site(st)),
        max_age: last_pick(steps, |st: CookieStep| pick_max_age(st)),
        expires: last_pick(steps, |st: CookieStep| pick_expires(st)),
        path: last_pick(steps, |st: CookieStep| pick_path(st)),
        domain: last_pick(steps, |st: CookieStep| pick_domain(st)),
    }
}

/// Builder for `Set-Cookie` header values (RFC 6265).
#[derive(Debug, Clone)]
pub struct SetCookie {
    name: String,
    value: String,
    http_only: bool,
    secure: bool,
    same_site: Option<SameSite>,
    max_age: Option<u64>,
    expires: Option<String>,
    path: Option<String>,
    domain: Option<String>,
}

pub open spec fn opt_text(o: Option<String>) -> Option<Seq<char>> {
    match o {
        Some(s) => Some(s@),
        None => None,
    }
}

impl View for SetCookie {
    type V = CookieModel;

    closed spec fn view(&self) -> CookieModel {
        CookieModel {
            name: self.name@,
            value: self.value@,
            http_only: self.http_only,
            secure: self.secure,
            same_site: self.same_site,
            max_age: self.max_age,
            expires: opt_text(self.expires),
            path: opt_text(self.path),
            domain: opt_text(self.domain),
        }
    }
}

impl SetCookie {
    /// A builder for `name=value` with no attributes set.
    pub fn new(name: &str, value: &str) -> (r: Self)
        ensures
            r@ == (CookieModel {
                name: name@,
                value: value@,
                http_only: false,
                secure: false,
                same_site: None,
                max_age: None,
                expires: None,
                path: None,
                domain: None,
            }),
            r@ == fresh_cookie(name@, value@),
    {
        SetCookie {
            name: to_owned_string(name),
            value: to_owned_string(value),
            http_only: false,
            secure: false,
            same_site: None,
            max_age: None,
            expires: None,
            path: None,
            domain: None,
        }
    }

    /// Sets the HttpOnly flag (cookie not accessible via JavaScript).
    pub fn http_only(self) -> (r: Self)
        ensures
            r@ == (CookieModel { http_only: true, ..self@ }),
            r@ == apply_cookie_step(self@, CookieStep::HttpOnly),
    {
        let mut c = self;
        c.http_only = true;
        c
    }

    /// Sets the Secure flag (cookie only sent over HTTPS).
    pub fn secure(self) -> (r: Self)
        ensures
            r@ == (CookieModel { secure: true, ..self@ }),
            r@ == apply_cookie_step(self@, CookieStep::Secure),
    {
        let mut c = self;
        c.secure = true;
        c
    }

    /// Sets SameSite=Strict.
    pub fn same_site_strict(self) -> (r: Self)
        ensures
            r@ == (CookieModel { same_site: Some(SameSite::Strict), ..self@ }),
            r@ == apply_cookie_step(self@, CookieStep::SameSite(SameSite::Strict)),
    {
        let mut c = self;
        c.same_site = Some(SameSite::Strict);
        c
    }

    /// Sets SameSite=Lax.
    pub fn same_site_lax(self) -> (r: Self)
        ensures
            r@ == (CookieModel { same_site: Some(SameSite::Lax), ..self@ }),
            r@ == apply_cookie_step(self@, CookieStep::SameSite(SameSite::Lax)),
    {
        let mut c = self;
        c.same_site = Some(SameSite::Lax);
        c
    }

    /// Sets SameSite=None (cookie sent with all requests, requires Secure).
    pub fn same_site_none(self) -> (r: Self)
        ensures
            r@ == (CookieModel { same_site: Some(SameSite::Unrestricted), ..self@ }),
            r@ == apply_cookie_step(self@, CookieStep::SameSite(SameSite::Unrestricted)),
    {
        let mut c = self;
        c.same_site = Some(SameSite::Unrestricted);
        c
    }

    /// Sets Max-Age in seconds.
    pub fn max_age(self, seconds: u64) -> (r: Self)
        ensures
            r@ == (CookieModel { max_age: Some(seconds), ..self@ }),
            r@ == apply_cookie_step(self@, CookieStep::MaxAge(seconds)),
    {
        let mut c = self;
        c.max_age = Some(seconds);
        c
    }

    /// Sets the Expires date (an RFC 1123 date string).
    pub fn expires(self, date: &str) -> (r: Self)
        ensures
            r@ == (CookieModel { expires: Some(date@), ..self@ }),
            r@ == apply_cookie_step(self@, CookieStep::Expires(date@)),
    {
        let mut c = self;
        c.expires = Some(to_owned_string(date));
        c
    }

    /// Sets the Path attribute.
    pub fn path(self, path: &str) -> (r: Self)
        ensures
            r@ == (CookieModel { path: Some(path@), ..self@ }),
            r@ == apply_cookie_step(self@, CookieStep::Path(path@)),
    {
        let mut c = self;
        c.path = Some(to_owned_string(path));
        c
    }

    /// Sets the Domain attribute.
    pub fn domain(self, domain: &str) -> (r: Self)
        ensures
            r@ == (CookieModel { domain: Some(domain@), ..self@ }),
            r@ == apply_cookie_step(self@, CookieStep::Domain(domain@)),
    {
        let mut c = self;
        c.domain = Some(to_owned_string(domain));
        c
    }

    /// Builds the `Set-Cookie` header value.
    pub fn build(self) -> (r: String)
        ensures
            r@ == set_cookie_text(self@),
    {
        let ghost m = self@;
        let mut out = String::new();
        push_text(&mut out, self.name.as_str());
        push_text(&mut out, "=");
        push_text(&mut out, self.value.as_str());
        if self.http_only {
            push_text(&mut out, "; HttpOnly");
        }
        if self.secure {
            push_text(&mut out, "; Secure");
        }
        let ghost s2 = out@;
        assert(s2 == m.name + "="@ + m.value
            + (if m.http_only { "; HttpOnly"@ } else { Seq::empty() })
            + (if m.secure { "; Secure"@ } else { Seq::empty() }));
        match self.same_site {
            Some(ss) => push_attr(&mut out, "; SameSite=", ss.as_str()),
            None => {},
        }
        let ghost s3 = out@;
        assert(s3 == s2 + attr_text("; SameSite="@, match m.same_site { Some(s) => Some(same_site_text(s)), None => None }));
        match self.max_age {
            Some(n) => {
                let mut digits = String::new();
                push_decimal(&mut digits, n);
                assert(digits@ == Seq::<char>::empty() + decimal(n as nat));
                assert(digits@ =~= decimal(n as nat));
                push_attr(&mut out, "; Max-Age=", digits.as_str());
            },
            None => {},
        }
        let ghost s4 = out@;
        assert(s4 == s3 + attr_text("; Max-Age="@, match m.max_age { Some(n) => Some(decimal(n as nat)), None => None }));
        match &self.expires {
            Some(e) => push_attr(&mut out, "; Expires=", e.as_str()),
            None => {},
        }
        let ghost s5 = out@;
        assert(s5 == s4 + attr_text("; Expires="@, m.expires));
        match &self.path {
            Some(p) => push_attr(&mut out, "; Path=", p.as_str()),
            None => {},
        }
        let ghost s6 = out@;
        assert(s6 == s5 + attr_text("; Path="@, m.path));
        match &self.domain {
            Some(d) => push_attr(&mut out, "; Domain=", d.as_str()),
            None => {},
        }
        assert(out@ == s6 + attr_text("; Domain="@, m.domain));
        out
    }
}

/// Appends an attribute: its prefix, then its value.
fn push_attr(out: &mut String, prefix: &str, v: &str)
    ensures
        final(out)@ == old(out)@ + (prefix@ + v@),
{
    push_text(out, prefix);
    push_text(out, v);
    assert(old(out)@ + prefix@ + v@ =~= old(out)@ + (prefix@ + v@));
}

// ---------------------------------------------------------------------------
// Parsing the Cookie header
// ---------------------------------------------------------------------------

/// Byte ranges `(name_start, name_end, value_start, value_end)` of the cookies
/// in the segments of `s` from offset `a` on. Segments are separated by `;`;
/// each is trimmed, empty ones and ones without `=` are skipped, and name and
/// value (split at the first `=`) are trimmed.
pub open spec fn cookie_ranges_from(s: Seq<u8>, a: int) -> Seq<(int, int, int, int)>
    decreases s.len() + 1 - a,
{
    if a < 0 || a > s.len() {
        Seq::empty()
    } else {
        let e = byte_pos_from(s, a, 0x3b);
        let (ta, tb) = trim_in(s, a, e);
        let rest = if a <= e < s.len() { cookie_ranges_from(s, e + 1) } else { Seq::empty() };
        if ta >= tb {
            rest
        } else {
            let q = byte_pos_from(s, ta, 0x3d);
            if q >= tb {
                rest
            } else {
                let (na, nb) = trim_in(s, ta, q);
                let (va, vb) = trim_in(s, q + 1, tb);
                seq![(na, nb, va, vb)] + rest
            }
        }
    }
}

/// The cookies of a `Cookie` header value, as byte ranges of the header.
pub open spec fn cookie_ranges(s: Seq<u8>) -> Seq<(int, int, int, int)> {
    cookie_ranges_from(s, 0)
}

/// The pieces of `header` named by the ranges match the parsed pairs.
pub open spec fn pairs_match(
    header: &str,
    pairs: Seq<(&str, &str)>,
    ranges: Seq<(int, int, int, int)>,
) -> bool {
    &&& pairs.len() == ranges.len()
    &&& forall|i: int| 0 <= i < pairs.len() ==> {
        &&& (#[trigger] pairs[i]).0.spec_bytes() == header.spec_bytes().subrange(ranges[i].0, ranges[i].1)
        &&& pairs[i].1.spec_bytes() == header.spec_bytes().subrange(ranges[i].2, ranges[i].3)
    }
}

/// Parses a `Cookie` header value (`name1=value1; name2=value2`) into
/// name/value pairs borrowed from the header. Pairs without `=` are skipped;
/// the value is everything after the first `=`.
pub fn parse_cookie_header(header: &str) -> (r: Vec<(&str, &str)>)
    ensures
        pairs_match(header, r@, cookie_ranges(header.spec_bytes())),
{
    let bytes = header.as_bytes();
    let ghost s = bytes@;
    proof { lemma_str_bytes(header); }
    let mut out: Vec<(&str, &str)> = Vec::new();
    let mut a: usize = 0;
    let mut done = false;
    while !done
        invariant
            s == bytes@,
            s == header.spec_bytes(),
            valid_utf8(s),
            a <= s.len(),
            char_start(s, a as int),
            !done ==> cookie_ranges(s) == {
                let k = out@.len() as int;
                cookie_ranges(s).subrange(0, k) + cookie_ranges_from(s, a as int)
            },
            !done ==> out@.len() <= cookie_ranges(s).len(),
            done ==> out@.len() == cookie_ranges(s).len(),
            pairs_match(header, out@, cookie_ranges(s).subrange(0, out@.len() as int)),
        decreases s.len() + 1 - a, if done { 0int } else { 1int },
    {
        let e = find_byte_from(bytes, a, 0x3b);
        proof {
            if e < s.len() {
                lemma_ascii_char_starts(s, e as int);
            }
            lemma_trim_in_char_starts(s, a as int, e as int);
        }
        let (ta, tb) = trim_bounds_in(bytes, a, e);
        let ghost rest = if e < s.len() { cookie_ranges_from(s, e + 1) } else { Seq::empty() };
        let ghost before = out@.len() as int;
        if ta < tb {
            let q = find_byte_from(bytes, ta, 0x3d);
            if q < tb {
                proof {
                    lemma_byte_pos_from(s, ta as int, 0x3d);
                    lemma_ascii_char_starts(s, q as int);
                    lemma_trim_in_char_starts(s, ta as int, q as int);
                    lemma_trim_in_char_starts(s, q + 1, tb as int);
                }
                let (na, nb) = trim_bounds_in(bytes, ta, q);
                let (va, vb) = trim_bounds_in(bytes, q + 1, tb);
                let name = str_slice(header, na, nb);
                let value = str_slice(header, va, vb);
                out.push((name, value));
                proof {
                    let cr = cookie_ranges(s);
                    assert(cookie_ranges_from(s, a as int) == seq![(na as int, nb as int, va as int, vb as int)] + rest);
                    assert(cr.subrange(0, before) + cookie_ranges_from(s, a as int)
                        =~= cr.subrange(0, before + 1) + rest);
                    assert(cr[before] == (na as int, nb as int, va as int, vb as int));
                    assert forall|i: int| 0 <= i < out@.len() implies {
                        &&& (#[trigger] out@[i]).0.spec_bytes() == s.subrange(cr.subrange(0, out@.len() as int)[i].0, cr.subrange(0, out@.len() as int)[i].1)
                        &&& out@[i].1.spec_bytes() == s.subrange(cr.subrange(0, out@.len() as int)[i].2, cr.subrange(0, out@.len() as int)[i].3)
                    } by {
                        if i < before {
                            assert(cr.subrange(0, before)[i] == cr.subrange(0, out@.len() as int)[i]);
                        }
                    }
                }
            } else {
                proof {
                    assert(cookie_ranges_from(s, a as int) == rest);
                }
            }
        } else {
            proof {
                assert(cookie_ranges_from(s, a as int) == rest);
            }
        }
        if e < bytes.len() {
            a = e + 1;
        } else {
            proof {
                let cr = cookie_ranges(s);
                assert(cr =~= cr.subrange(0, out@.len() as int));
            }
            done = true;
        }
    }
    out
}

// ---------------------------------------------------------------------------
// Building and parsing together
// ---------------------------------------------------------------------------

proof fn lemma_encode_equals_sign()
    ensures
        encode_utf8("="@) == seq![0x3du8],
{
    reveal_strlit("=");
    let c = "="@;
    assert(vstd::utf8::is_ascii_chars(c));
    vstd::utf8::is_ascii_chars_encode_utf8(c);
    assert(c[0] as u8 == 0x3d);
    assert(encode_utf8(c) =~= seq![0x3du8]);
}

/// The whole of `n + "=" + v` survives `trim` when `n` and `v` do and the
/// `=` stands between them.
proof fn lemma_pair_trimmed(n: Seq<u8>, v: Seq<u8>)
    requires
        trim_range(n) == (0int, n.len() as int),
        trim_range(v) == (0int, v.len() as int),
    ensures
        trim_range(n + seq![0x3du8] + v) == (0int, (n.len() + 1 + v.len()) as int),
{
    let s = n + seq![0x3du8] + v;
    let ln = n.len() as int;
    let lv = v.len() as int;
    let ls = s.len() as int;
    assert(ls == ln + 1 + lv);
    assert(s[ln] == 0x3d);
    assert forall|i: int| 0 <= i < ln implies #[trigger] s[i] == n[i] by {}
    assert forall|k: int| 0 <= k < lv implies #[trigger] s[ln + 1 + k] == v[k] by {}
    if ln > 0 {
        lemma_trimmed_edges(n);
        if ln >= 3 {
            assert(s[1] == n[1] && s[2] == n[2]);
        } else if ln == 2 {
            assert(s[1] == n[1] && s[2] == 0x3d);
        } else {
            assert(s[1] == 0x3d);
        }
        assert(s[0] == n[0]);
    }
    assert(ws_len_at(s, 0) == 0);
    if lv > 0 {
        lemma_trimmed_edges(v);
        assert(s[ls - 1] == v[lv - 1]);
        if lv >= 3 {
            assert(s[ls - 2] == v[lv - 2] && s[ls - 3] == v[lv - 3]);
        } else if lv == 2 {
            assert(s[ls - 2] == v[lv - 2] && s[ls - 3] == 0x3d);
        } else {
            assert(s[ls - 2] == 0x3d);
        }
    } else {
        assert(s[ls - 1] == 0x3d);
    }
    assert(ws_len_before(s, ls) == 0);
}

/// A `Set-Cookie` value built from a name and a value alone parses back as
/// that one pair: when the name's bytes hold no `;` or `=`, the value's bytes
/// no `;`, and neither starts or ends with whitespace, the parsed header has
/// one cookie whose name and value are the bytes of the name and the value.
pub proof fn law_built_cookie_parses_back(c: CookieModel)
    requires
        !c.http_only,
        !c.secure,
        c.same_site is None,
        c.max_age is None,
        c.expires is None,
        c.path is None,
        c.domain is None,
        !encode_utf8(c.name).contains(0x3bu8),
        !encode_utf8(c.name).contains(0x3du8),
        !encode_utf8(c.value).contains(0x3bu8),
        trim_range(encode_utf8(c.name)) == (0int, encode_utf8(c.name).len() as int),
        trim_range(encode_utf8(c.value)) == (0int, encode_utf8(c.value).len() as int),
    ensures
        ({
            let s = encode_utf8(set_cookie_text(c));
            let n = encode_utf8(c.name).len() as int;
            &&& cookie_ranges(s) == seq![(0int, n, n + 1, s.len() as int)]
            &&& s.subrange(0, n) == encode_utf8(c.name)
            &&& s.subrange(n + 1, s.len() as int) == encode_utf8(c.value)
        }),
{
    let nb = encode_utf8(c.name);
    let vb = encode_utf8(c.value);
    assert(set_cookie_text(c) =~= c.name + "="@ + c.value);
    lemma_encode_concat(c.name + "="@, c.value);
    lemma_encode_concat(c.name, "="@);
    lemma_encode_equals_sign();
    let s = encode_utf8(set_cookie_text(c));
    assert(s == nb + seq![0x3du8] + vb);
    let ln = nb.len() as int;
    let ls = s.len() as int;
    assert forall|i: int| 0 <= i < ln implies #[trigger] s[i] == nb[i] by {}
    assert forall|k: int| 0 <= k < vb.len() implies #[trigger] s[ln + 1 + k] == vb[k] by {}
    assert(s[ln] == 0x3d);
    assert forall|i: int| 0 <= i < ls implies #[trigger] s[i] != 0x3b by {
        if i < ln {
            assert(nb[i] != 0x3b);
        } else if i > ln {
            assert(s[ln + 1 + (i - ln - 1)] == vb[i - ln - 1]);
            assert(vb[i - ln - 1] != 0x3b);
        }
    }
    lemma_byte_pos_first(s, ls, 0x3b);
    assert forall|i: int| 0 <= i < ln implies s[i] != 0x3d by {
        assert(nb[i] != 0x3d);
    }
    lemma_byte_pos_first(s, ln, 0x3d);
    lemma_pair_trimmed(nb, vb);
    assert(s.subrange(0, ls) == s);
    assert(s.subrange(0, ln) == nb);
    assert(s.subrange(ln + 1, ls) == vb);
    assert(cookie_ranges(s) == seq![(0int, ln, ln + 1, ls)] + Seq::<(int, int, int, int)>::empty());
}


/// `steps` with its last step taken off holds what `steps` holds but that
/// step.
proof fn lemma_contains_drop_last(steps: Seq<CookieStep>, x: CookieStep)
    requires
        steps.len() > 0,
    ensures
        steps.contains(x) <==> (steps.drop_last().contains(x) || steps.last() == x),
{
    let init = steps.drop_last();
    if steps.contains(x) && steps.last() != x {
        let k = choose|k: int| 0 <= k < steps.len() && steps[k] == x;
        assert(init[k] == x);
    }
    if init.contains(x) {
        let k = choose|k: int| 0 <= k < init.len() && init[k] == x;
        assert(steps[k] == x);
    }
    if steps.last() == x {
        assert(steps[steps.len() - 1] == x);
    }
}

/// Whatever chain of builder calls follows `SetCookie::new(name, value)`,
/// `build` renders `name=value` and then HttpOnly and Secure when they were
/// called, and SameSite, Max-Age, Expires, Path and Domain with the argument
/// of their last call, in that fixed order: a later call of the same method
/// wins, and the order of calls to different methods does not matter.
pub proof fn law_cookie_chain(name: Seq<char>, value: Seq<char>, steps: Seq<CookieStep>)
    ensures
        apply_cookie_steps(fresh_cookie(name, value), steps) == cookie_of_steps(name, value, steps),
        set_cookie_text(apply_cookie_steps(fresh_cookie(name, value), steps))
            == set_cookie_text(cookie_of_steps(name, value, steps)),
    decreases steps.len(),
{
    if steps.len() > 0 {
        law_cookie_chain(name, value, steps.drop_last());
        lemma_contains_drop_last(steps, CookieStep::HttpOnly);
        lemma_contains_drop_last(steps, CookieStep::Secure);
    }
}

/// Two builder calls of different methods give the same cookie in either
/// order.
pub proof fn law_cookie_steps_commute(c: CookieModel, a: CookieStep, b: CookieStep)
    requires
        !(a is SameSite && b is SameSite),
        !(a is MaxAge && b is MaxAge),
        !(a is Expires && b is Expires),
        !(a is Path && b is Path),
        !(a is Domain && b is Domain),
    ensures
        apply_cookie_step(apply_cookie_step(c, a), b) == apply_cookie_step(apply_cookie_step(c, b), a),
{
}

} // verus!
