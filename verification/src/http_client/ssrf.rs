//! Checks on the parts of an outbound URL: the authority's syntax, whether it
//! names a private or internal address, and the path's percent-encoding.

use vstd::prelude::*;
use vstd::string::StringSliceAdditionalSpecFns;
use crate::http_client::error::Error;
use crate::json::lazy::{all_digits, digits_value, hex_val};
use crate::text::{ascii_lower, is_digit, lower_seq, push_text, starts_with, to_owned_string};

verus! {

// ===========================================================================
// Specification
// ===========================================================================

/// An ASCII letter or digit.
pub open spec fn is_alnum(b: u8) -> bool {
    is_digit(b) || (0x41 <= b <= 0x5a) || (0x61 <= b <= 0x7a)
}

/// A byte allowed in a host name: letters, digits, `-`, `.`, `_` and `~`.
pub open spec fn host_byte(b: u8) -> bool {
    is_alnum(b) || b == 0x2d || b == 0x2e || b == 0x5f || b == 0x7e
}

/// A byte allowed inside the brackets of an IPv6 literal.
pub open spec fn ipv6_byte(b: u8) -> bool {
    hex_val(b) is Some || b == 0x3a || b == 0x2e
}

/// The offset of the last `b` in `s`, or -1.
pub open spec fn last_pos(s: Seq<u8>, b: u8) -> int
    decreases s.len(),
{
    if s.len() == 0 {
        -1
    } else if s.last() == b {
        s.len() - 1
    } else {
        last_pos(s.drop_last(), b)
    }
}

/// Where the host ends in an authority: at the last `:` (which starts the
/// port), unless the authority ends with the `]` of an IPv6 literal.
pub open spec fn host_end(a: Seq<u8>) -> int {
    let c = last_pos(a, 0x3a);
    if c >= 0 && !(a.len() > 0 && a.last() == 0x5d) { c } else { a.len() as int }
}

pub open spec fn host_of(a: Seq<u8>) -> Seq<u8> {
    a.subrange(0, host_end(a))
}

pub open spec fn port_of(a: Seq<u8>) -> Option<Seq<u8>> {
    if host_end(a) < a.len() { Some(a.subrange(host_end(a) + 1, a.len() as int)) } else { None }
}

/// A host: a bracketed IPv6 literal, or a non-empty name of host bytes.
pub open spec fn host_ok(h: Seq<u8>) -> bool {
    if h.len() > 0 && h[0] == 0x5b {
        h.len() >= 3 && h.last() == 0x5d && forall|i: int| 1 <= i < h.len() - 1 ==> ipv6_byte(#[trigger] h[i])
    } else {
        h.len() > 0 && forall|i: int| 0 <= i < h.len() ==> host_byte(#[trigger] h[i])
    }
}

/// A port: one to five digits naming a number from 1 to 65535.
pub open spec fn port_ok(p: Seq<u8>) -> bool {
    1 <= p.len() <= 5 && all_digits(p) && 1 <= digits_value(p) <= 65535
}

/// What is wrong with an authority, if anything.
pub enum AuthorityProblem {
    Host,
    Port,
}

pub open spec fn authority_problem(a: Seq<u8>) -> Option<AuthorityProblem> {
    if !host_ok(host_of(a)) {
        Some(AuthorityProblem::Host)
    } else if port_of(a) matches Some(p) && !port_ok(p) {
        Some(AuthorityProblem::Port)
    } else {
        None
    }
}

/// The end of the run of digits in `h` that starts at `i`.
pub open spec fn digit_run_end(h: Seq<u8>, i: int) -> int
    decreases h.len() - i,
{
    if 0 <= i < h.len() && is_digit(h[i]) { digit_run_end(h, i + 1) } else { i }
}

pub proof fn lemma_digit_run_end(h: Seq<u8>, i: int)
    requires
        0 <= i <= h.len(),
    ensures
        i <= digit_run_end(h, i) <= h.len(),
        forall|k: int| i <= k < digit_run_end(h, i) ==> is_digit(#[trigger] h[k]),
        digit_run_end(h, i) < h.len() ==> !is_digit(h[digit_run_end(h, i)]),
    decreases h.len() - i,
{
    if i < h.len() && is_digit(h[i]) {
        lemma_digit_run_end(h, i + 1);
    }
}

/// The dot-separated decimal fields of `h` from offset `i`, when each has one
/// to three digits and a value of at most 255.
pub open spec fn dec_fields(h: Seq<u8>, i: int) -> Option<Seq<int>>
    decreases h.len() - i,
{
    if i < 0 || i > h.len() {
        None
    } else {
        let e = digit_run_end(h, i);
        proof { lemma_digit_run_end(h, i); }
        let f = h.subrange(i, e);
        if !(1 <= f.len() <= 3) || digits_value(f) > 255 {
            None
        } else if e >= h.len() {
            Some(seq![digits_value(f)])
        } else if h[e] == 0x2e {
            match dec_fields(h, e + 1) {
                Some(rest) => Some(seq![digits_value(f)] + rest),
                None => None,
            }
        } else {
            None
        }
    }
}

/// A lower-cased host that names a loopback, private or link-local address:
/// `localhost`, `127.x.x.x`, `10.x.x.x`, `172.16.x.x` to `172.31.x.x`,
/// `192.168.x.x`, `169.254.x.x`, `[::1]` or `[fe80:...]`.
pub open spec fn is_private_host(h: Seq<u8>) -> bool {
    if h.len() >= 2 && h[0] == 0x5b && h.last() == 0x5d {
        let inner = h.subrange(1, h.len() - 1);
        inner == seq![0x3au8, 0x3au8, 0x31u8] || starts_with(inner, seq![0x66u8, 0x65u8, 0x38u8, 0x30u8, 0x3au8])
    } else if h == seq![0x6cu8, 0x6fu8, 0x63u8, 0x61u8, 0x6cu8, 0x68u8, 0x6fu8, 0x73u8, 0x74u8] {
        true
    } else {
        match dec_fields(h, 0) {
            Some(v) => v.len() == 4 && {
                ||| v[0] == 127
                ||| v[0] == 10
                ||| (v[0] == 172 && 16 <= v[1] <= 31)
                ||| (v[0] == 192 && v[1] == 168)
                ||| (v[0] == 169 && v[1] == 254)
            },
            None => false,
        }
    }
}

/// Every `%` in the path is followed by two hexadecimal digits.
pub open spec fn percent_ok(p: Seq<u8>) -> bool {
    forall|i: int| 0 <= i < p.len() && p[i] == 0x25 ==>
        i + 2 < p.len() && hex_val(#[trigger] p[i + 1]) is Some && hex_val(p[i + 2]) is Some
}

// ===========================================================================
// Checks
// ===========================================================================

fn is_hex_exec(b: u8) -> (r: bool)
    ensures
        r == (hex_val(b) is Some),
{
    (0x30 <= b && b <= 0x39) || (0x61 <= b && b <= 0x66) || (0x41 <= b && b <= 0x46)
}

/// Offset of the last `b` in `s`, if any.
fn last_pos_exec(s: &[u8], b: u8) -> (r: Option<usize>)
    ensures
        match r {
            Some(i) => i < s@.len() && i as int == last_pos(s@, b),
            None => last_pos(s@, b) == -1,
        },
{
    let mut i: usize = s.len();
    proof { assert(s@.subrange(0, s@.len() as int) == s@); }
    while i > 0
        invariant
            i <= s@.len(),
            last_pos(s@, b) == last_pos(s@.subrange(0, i as int), b),
        decreases i,
    {
        let ghost front = s@.subrange(0, i as int);
        proof {
            assert(front.last() == s@[i - 1]);
            assert(front.drop_last() == s@.subrange(0, i - 1));
        }
        if s[i - 1] == b {
            return Some(i - 1);
        }
        i = i - 1;
    }
    None
}

/// Where the host ends in the authority `a`.
fn host_end_exec(a: &[u8]) -> (r: usize)
    ensures
        r as int == host_end(a@),
        r <= a@.len(),
{
    match last_pos_exec(a, 0x3a) {
        Some(c) => {
            if a.len() > 0 && a[a.len() - 1] == 0x5d {
                a.len()
            } else {
                c
            }
        },
        None => a.len(),
    }
}

fn host_ok_exec(h: &[u8]) -> (r: bool)
    ensures
        r == host_ok(h@),
{
    if h.len() > 0 && h[0] == 0x5b {
        if h.len() < 3 || h[h.len() - 1] != 0x5d {
            return false;
        }
        let mut i: usize = 1;
        while i < h.len() - 1
            invariant
                3 <= h@.len(),
                h@[0] == 0x5b,
                h@.last() == 0x5d,
                1 <= i <= h@.len() - 1,
                forall|k: int| 1 <= k < i ==> ipv6_byte(#[trigger] h@[k]),
            decreases h.len() - 1 - i,
        {
            let b = h[i];
            if !(is_hex_exec(b) || b == 0x3a || b == 0x2e) {
                assert(!ipv6_byte(h@[i as int]));
                return false;
            }
            i = i + 1;
        }
        true
    } else {
        if h.len() == 0 {
            return false;
        }
        let mut i: usize = 0;
        while i < h.len()
            invariant
                i <= h@.len(),
                h@.len() > 0,
                h@[0] != 0x5b,
                forall|k: int| 0 <= k < i ==> host_byte(#[trigger] h@[k]),
            decreases h.len() - i,
        {
            let b = h[i];
            let alnum = (0x30 <= b && b <= 0x39) || (0x41 <= b && b <= 0x5a) || (0x61 <= b && b <= 0x7a);
            if !(alnum || b == 0x2d || b == 0x2e || b == 0x5f || b == 0x7e) {
                assert(!host_byte(h@[i as int]));
                return false;
            }
            i = i + 1;
        }
        true
    }
}

fn port_ok_exec(p: &[u8]) -> (r: bool)
    ensures
        r == port_ok(p@),
{
    if p.len() < 1 || p.len() > 5 {
        return false;
    }
    let mut v: u32 = 0;
    let mut i: usize = 0;
    while i < p.len()
        invariant
            1 <= p@.len() <= 5,
            i <= p@.len(),
            forall|k: int| 0 <= k < i ==> is_digit(#[trigger] p@[k]),
            v == digits_value(p@.subrange(0, i as int)),
            v < pow10(i as nat),
        decreases p.len() - i,
    {
        let b = p[i];
        if !(0x30 <= b && b <= 0x39) {
            assert(!is_digit(p@[i as int]));
            return false;
        }
        proof {
            let t = p@.subrange(0, i + 1);
            assert(t.drop_last() == p@.subrange(0, i as int));
            assert(t.last() == b);
            assert(pow10((i + 1) as nat) == 10 * pow10(i as nat));
            assert(pow10(i as nat) <= 10000) by { lemma_pow10_small(i as nat); }
        }
        v = v * 10 + (b - 0x30) as u32;
        i = i + 1;
    }
    proof { assert(p@.subrange(0, p@.len() as int) == p@); }
    1 <= v && v <= 65535
}

pub open spec fn pow10(n: nat) -> nat
    decreases n,
{
    if n == 0 { 1 } else { 10 * pow10((n - 1) as nat) }
}

proof fn lemma_pow10_small(n: nat)
    requires
        n <= 4,
    ensures
        pow10(n) <= 10000,
{
    reveal_with_fuel(pow10, 5);
}

/// The message `prefix` followed by `detail`.
fn message(prefix: &str, detail: &str) -> (r: String)
    ensures
        r@ == prefix@ + detail@,
{
    let mut m = to_owned_string(prefix);
    push_text(&mut m, detail);
    m
}

/// Checks the authority (host and optional port) of a URL: the host must be
/// a bracketed IPv6 literal or a name of letters, digits, `-`, `.`, `_` and
/// `~`; a port must be a number from 1 to 65535.
pub fn validate_authority(authority: &str) -> (r: Result<(), Error>)
    ensures
        match authority_problem(authority.spec_bytes()) {
            None => r is Ok,
            Some(AuthorityProblem::Host) => r matches Err(Error::InvalidUrl(m)) && m@ == "Invalid host in URL: "@ + authority@,
            Some(AuthorityProblem::Port) => r matches Err(Error::InvalidUrl(m)) && m@ == "Invalid port in URL: "@ + authority@,
        },
{
    let a = authority.as_bytes();
    let he = host_end_exec(a);
    if !host_ok_exec(&a[0..he]) {
        return Err(Error::InvalidUrl(message("Invalid host in URL: ", authority)));
    }
    if he < a.len() && !port_ok_exec(&a[he + 1..a.len()]) {
        return Err(Error::InvalidUrl(message("Invalid port in URL: ", authority)));
    }
    Ok(())
}

/// Reads dot-separated decimal fields of at most three digits and value 255
/// from offset `i` of `h`.
fn dec_fields_exec(h: &[u8], i: usize) -> (r: Option<Vec<u32>>)
    requires
        i <= h@.len(),
    ensures
        match dec_fields(h@, i as int) {
            Some(v) => r matches Some(w) && w@.len() == v.len() && forall|k: int| 0 <= k < v.len() ==> w@[k] as int == #[trigger] v[k],
            None => r is None,
        },
    decreases h.len() - i,
{
    let mut e = i;
    let mut v: u32 = 0;
    proof { crate::http_client::ssrf::lemma_digit_run_end(h@, i as int); }
    while e < h.len() && 0x30 <= h[e] && h[e] <= 0x39 && e - i < 3
        invariant
            i <= e <= h@.len(),
            e - i <= 3,
            forall|k: int| i <= k < e ==> is_digit(#[trigger] h@[k]),
            v == digits_value(h@.subrange(i as int, e as int)),
            v < pow10((e - i) as nat),
            digit_run_end(h@, i as int) == digit_run_end(h@, e as int),
        decreases h.len() - e,
    {
        proof {
            let t = h@.subrange(i as int, e + 1);
            assert(t.drop_last() == h@.subrange(i as int, e as int));
            assert(t.last() == h@[e as int]);
            assert(pow10((e + 1 - i) as nat) == 10 * pow10((e - i) as nat));
            assert(pow10((e - i) as nat) <= 10000) by { lemma_pow10_small((e - i) as nat); }
        }
        v = v * 10 + (h[e] - 0x30) as u32;
        e = e + 1;
    }
    proof { lemma_digit_run_end(h@, e as int); }
    if e == i || v > 255 {
        return None;
    }
    if e < h.len() && 0x30 <= h[e] && h[e] <= 0x39 {
        proof {
            lemma_digit_run_end(h@, i as int);
            assert(digit_run_end(h@, i as int) > e);
            assert(digit_run_end(h@, i as int) - i >= 4);
        }
        return None;
    }
    proof {
        assert(digit_run_end(h@, e as int) == e);
    }
    let f = v;
    if e >= h.len() {
        let mut out: Vec<u32> = Vec::new();
        out.push(f);
        return Some(out);
    }
    if h[e] != 0x2e {
        return None;
    }
    match dec_fields_exec(h, e + 1) {
        Some(rest) => {
            let mut out: Vec<u32> = Vec::new();
            out.push(f);
            let mut k: usize = 0;
            while k < rest.len()
                invariant
                    k <= rest@.len(),
                    out@.len() == k + 1,
                    out@[0] == f,
                    forall|t: int| 0 <= t < k ==> out@[t + 1] == rest@[t],
                decreases rest.len() - k,
            {
                out.push(rest[k]);
                k = k + 1;
            }
            Some(out)
        },
        None => None,
    }
}

/// Does the authority name a loopback, private or link-local address? The
/// host is compared in lower case.
pub fn is_private_address(authority: &str) -> (r: bool)
    ensures
        r == is_private_host(lower_seq(host_of(authority.spec_bytes()))),
{
    let a = authority.as_bytes();
    let he = host_end_exec(a);
    let mut h: Vec<u8> = Vec::new();
    let mut i: usize = 0;
    while i < he
        invariant
            he <= a@.len(),
            i <= he,
            h@ == lower_seq(a@.subrange(0, i as int)),
        decreases he - i,
    {
        let b = a[i];
        let lb = if 0x41 <= b && b <= 0x5a { b + 32 } else { b };
        h.push(lb);
        proof {
            assert(a@.subrange(0, i + 1) == a@.subrange(0, i as int).push(b));
            assert(lb == ascii_lower(b));
            assert(lower_seq(a@.subrange(0, i + 1)) =~= lower_seq(a@.subrange(0, i as int)).push(lb));
        }
        i = i + 1;
    }
    let h = h.as_slice();
    if h.len() >= 2 && h[0] == 0x5b && h[h.len() - 1] == 0x5d {
        let inner = &h[1..h.len() - 1];
        let lo: [u8; 3] = [0x3a, 0x3a, 0x31];
        let fe: [u8; 5] = [0x66, 0x65, 0x38, 0x30, 0x3a];
        proof {
            assert(lo@ =~= seq![0x3au8, 0x3au8, 0x31u8]);
            assert(fe@ =~= seq![0x66u8, 0x65u8, 0x38u8, 0x30u8, 0x3au8]);
        }
        return crate::text::bytes_eq(inner, lo.as_slice()) || crate::text::starts_with_exec(inner, fe.as_slice());
    }
    let lh: [u8; 9] = [0x6c, 0x6f, 0x63, 0x61, 0x6c, 0x68, 0x6f, 0x73, 0x74];
    proof { assert(lh@ =~= seq![0x6cu8, 0x6fu8, 0x63u8, 0x61u8, 0x6cu8, 0x68u8, 0x6fu8, 0x73u8, 0x74u8]); }
    if crate::text::bytes_eq(h, lh.as_slice()) {
        return true;
    }
    match dec_fields_exec(h, 0) {
        Some(v) => {
            if v.len() != 4 {
                return false;
            }
            let (a0, a1) = (v[0], v[1]);
            a0 == 127 || a0 == 10 || (a0 == 172 && 16 <= a1 && a1 <= 31) || (a0 == 192 && a1 == 168)
                || (a0 == 169 && a1 == 254)
        },
        None => false,
    }
}

/// Checks that every `%` in a URL path is followed by two hexadecimal digits.
pub fn validate_percent_encoding(path: &str) -> (r: Result<(), Error>)
    ensures
        if percent_ok(path.spec_bytes()) {
            r is Ok
        } else {
            r matches Err(Error::InvalidUrl(m)) && m@ == "Invalid percent-encoding in path: "@ + path@
        },
{
    let p = path.as_bytes();
    let mut i: usize = 0;
    while i < p.len()
        invariant
            i <= p@.len(),
            p@ == path.spec_bytes(),
            forall|k: int| 0 <= k < i && p@[k] == 0x25 ==>
                k + 2 < p@.len() && hex_val(#[trigger] p@[k + 1]) is Some && hex_val(p@[k + 2]) is Some,
        decreases p.len() - i,
    {
        if p[i] == 0x25 {
            if !(p.len() - i > 2 && is_hex_exec(p[i + 1]) && is_hex_exec(p[i + 2])) {
                proof {
                    let k = i as int;
                    assert(p@[k] == 0x25 && !(k + 2 < p@.len() && hex_val(p@[k + 1]) is Some && hex_val(p@[k + 2]) is Some));
                    assert(!percent_ok(p@));
                }
                return Err(Error::InvalidUrl(message("Invalid percent-encoding in path: ", path)));
            }
        }
        i = i + 1;
    }
    Ok(())
}

/// A sequence that holds no `b` has no last `b`.
proof fn lemma_last_pos_absent(s: Seq<u8>, b: u8)
    requires
        !s.contains(b),
    ensures
        last_pos(s, b) == -1,
    decreases s.len(),
{
    if s.len() > 0 {
        assert(s[s.len() - 1] != b);
        assert forall|i: int| 0 <= i < s.drop_last().len() implies #[trigger] s.drop_last()[i] != b by {
            assert(s.drop_last()[i] == s[i]);
        }
        lemma_last_pos_absent(s.drop_last(), b);
    }
}

/// An authority without a port is accepted exactly when it is a host name: a
/// non-empty run of ASCII letters, digits, `-`, `.`, `_` and `~` (or a
/// bracketed IPv6 literal, which starts with `[`).
pub proof fn law_host_names_accepted(a: Seq<u8>)
    requires
        a.len() > 0,
        a[0] != 0x5bu8,
        !a.contains(0x3au8),
    ensures
        authority_problem(a) is None <==> forall|i: int| 0 <= i < a.len() ==> {
            let x = #[trigger] a[i];
            (0x30 <= x <= 0x39) || (0x41 <= x <= 0x5a) || (0x61 <= x <= 0x7a)
                || x == 0x2du8 || x == 0x2eu8 || x == 0x5fu8 || x == 0x7eu8
        },
{
    lemma_last_pos_absent(a, 0x3a);
    assert(host_end(a) == a.len());
    assert(host_of(a) =~= a);
    assert(port_of(a) is None);
}

} // verus!
