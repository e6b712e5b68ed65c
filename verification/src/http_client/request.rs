//! The outbound request builder.

use vstd::prelude::*;
use crate::constants::{HEADER_CONTENT_TYPE_TITLE, HEADER_TRACE_ID_TITLE, MIME_JSON};
use vstd::utf8::decode_utf8;
use crate::http_client::error::Error;
use crate::json::lazy::hex_val;
use crate::http_client::ssrf::{
    authority_problem, host_of, is_private_address, is_private_host, percent_ok, validate_authority,
    validate_percent_encoding, AuthorityProblem,
};
use crate::text::{
    byte_pos_from, bytes_to_vec, find_byte_from, lemma_ascii_char_starts, lemma_str_bytes,
    lower_seq, push_text, starts_with, starts_with_exec, str_slice, to_owned_string,
};

pub use crate::request::Method;

verus! {

/// URL scheme.
#[derive(Debug, Clone, Copy, PartialEq, Eq, Structural)]
pub enum Scheme {
    /// HTTP (unencrypted).
    Http,
    /// HTTPS (TLS encrypted).
    Https,
}

/// HTTP request builder: build a request, then send it with `send_with`.
#[derive(Debug, Clone)]
pub struct ClientRequest {
    method: Method,
    url: String,
    headers: Vec<(String, String)>,
    body: Option<Vec<u8>>,
    timeout_ns: Option<u64>,
    deny_private_ips: bool,
}

/// What a request holds.
pub ghost struct RequestView {
    pub method: Method,
    pub url: Seq<char>,
    pub headers: Seq<(Seq<char>, Seq<char>)>,
    pub body: Option<Seq<u8>>,
    pub timeout_ns: Option<u64>,
    pub deny_private_ips: bool,
}

pub open spec fn header_view(h: (String, String)) -> (Seq<char>, Seq<char>) {
    (h.0@, h.1@)
}

pub open spec fn body_view(b: Option<Vec<u8>>) -> Option<Seq<u8>> {
    match b {
        Some(v) => Some(v@),
        None => None,
    }
}

impl View for ClientRequest {
    type V = RequestView;

    closed spec fn view(&self) -> RequestView {
        RequestView {
            method: self.method,
            url: self.url@,
            headers: self.headers@.map_values(|h: (String, String)| header_view(h)),
            body: body_view(self.body),
            timeout_ns: self.timeout_ns,
            deny_private_ips: self.deny_private_ips,
        }
    }
}

/// A header value must not hold a carriage return or a line feed: either
/// would let a value inject further headers.
pub open spec fn header_value_ok(value: &str) -> bool {
    !value@.contains('\r') && !value@.contains('\n')
}

/// The timeout in nanoseconds for a timeout in milliseconds, saturating at
/// the largest `u64`.
pub open spec fn ms_to_ns(ms: u64) -> u64 {
    if ms * 1_000_000 > u64::MAX { u64::MAX } else { (ms * 1_000_000) as u64 }
}

/// The outcome of checking a URL: its scheme, authority and path, or the
/// message of the error.
pub ghost enum UrlOutcome {
    Parsed(Scheme, Seq<char>, Seq<char>),
    Failed(Seq<char>),
}

pub open spec fn https_prefix() -> Seq<u8> {
    seq![0x68u8, 0x74u8, 0x74u8, 0x70u8, 0x73u8, 0x3au8, 0x2fu8, 0x2fu8]
}

pub open spec fn http_prefix() -> Seq<u8> {
    seq![0x68u8, 0x74u8, 0x74u8, 0x70u8, 0x3au8, 0x2fu8, 0x2fu8]
}

/// The scheme of a URL and where the text after `scheme://` starts.
pub open spec fn url_scheme(u: Seq<u8>) -> Option<(Scheme, int)> {
    if starts_with(u, https_prefix()) {
        Some((Scheme::Https, 8))
    } else if starts_with(u, http_prefix()) {
        Some((Scheme::Http, 7))
    } else {
        None
    }
}

/// Checking a URL: the scheme must be `http` or `https`; the authority runs
/// to the first `/` and must be present and well formed; a private address is
/// refused when `deny` is set; the path (`/` when there is none) must be
/// properly percent-encoded.
pub open spec fn url_outcome(url: Seq<char>, deny: bool) -> UrlOutcome {
    let u = vstd::utf8::encode_utf8(url);
    match url_scheme(u) {
        None => UrlOutcome::Failed("URL must start with http:// or https://: "@ + url),
        Some((scheme, s0)) => {
            let sl = byte_pos_from(u, s0, 0x2f);
            let a = u.subrange(s0, sl);
            let p = if sl < u.len() { u.subrange(sl, u.len() as int) } else { seq![0x2fu8] };
            let path = if sl < u.len() { decode_utf8(p) } else { "/"@ };
            if a.len() == 0 {
                UrlOutcome::Failed("Missing host in URL"@)
            } else if authority_problem(a) == Some(AuthorityProblem::Host) {
                UrlOutcome::Failed("Invalid host in URL: "@ + decode_utf8(a))
            } else if authority_problem(a) == Some(AuthorityProblem::Port) {
                UrlOutcome::Failed("Invalid port in URL: "@ + decode_utf8(a))
            } else if deny && is_private_host(lower_seq(host_of(a))) {
                UrlOutcome::Failed("Request to private/internal address denied: "@ + decode_utf8(a))
            } else if !percent_ok(p) {
                UrlOutcome::Failed("Invalid percent-encoding in path: "@ + path)
            } else {
                UrlOutcome::Parsed(scheme, decode_utf8(a), path)
            }
        },
    }
}

/// The result of `parse_url` is the outcome of checking the URL.
pub open spec fn url_result_matches(r: Result<(Scheme, String, String), Error>, o: UrlOutcome) -> bool {
    match o {
        UrlOutcome::Parsed(s, a, p) => r matches Ok((s2, a2, p2)) && s2 == s && a2@ == a && p2@ == p,
        UrlOutcome::Failed(m) => r matches Err(Error::InvalidUrl(m2)) && m2@ == m,
    }
}

/// The message `prefix` followed by `detail`.
fn message(prefix: &str, detail: &str) -> (r: String)
    ensures
        r@ == prefix@ + detail@,
{
    let mut m = to_owned_string(prefix);
    push_text(&mut m, detail);
    m
}

/// One call of a builder method, by its arguments.
pub ghost enum BuildStep {
    Header(Seq<char>, Seq<char>),
    TraceId(Option<Seq<char>>),
    Body(Seq<u8>),
    Json(Seq<u8>),
    TimeoutMs(u64),
    TimeoutNs(u64),
    DenyPrivateIps,
}

/// What one builder call makes of a request.
pub open spec fn apply_step(v: RequestView, st: BuildStep) -> RequestView {
    match st {
        BuildStep::Header(name, value) => RequestView { headers: v.headers.push((name, value)), ..v },
        BuildStep::TraceId(Some(id)) => RequestView {
            headers: v.headers.push((HEADER_TRACE_ID_TITLE@, id)),
            ..v
        },
        BuildStep::TraceId(None) => v,
        BuildStep::Body(b) => RequestView { body: Some(b), ..v },
        BuildStep::Json(b) => RequestView {
            headers: v.headers.push((HEADER_CONTENT_TYPE_TITLE@, MIME_JSON@)),
            body: Some(b),
            ..v
        },
        BuildStep::TimeoutMs(ms) => RequestView { timeout_ns: Some(ms_to_ns(ms)), ..v },
        BuildStep::TimeoutNs(ns) => RequestView { timeout_ns: Some(ns), ..v },
        BuildStep::DenyPrivateIps => RequestView { deny_private_ips: true, ..v },
    }
}

/// What a chain of builder calls makes of a request, first call first.
pub open spec fn apply_steps(v: RequestView, steps: Seq<BuildStep>) -> RequestView
    decreases steps.len(),
{
    if steps.len() == 0 {
        v
    } else {
        apply_step(apply_steps(v, steps.drop_last()), steps.last())
    }
}

impl ClientRequest {
    /// What a new request holds: the method and URL, nothing else.
    pub open spec fn new_view(method: Method, url: Seq<char>) -> RequestView {
        RequestView {
            method,
            url,
            headers: Seq::empty(),
            body: None,
            timeout_ns: None,
            deny_private_ips: false,
        }
    }

    /// Creates a request with the given method and URL.
    pub fn new(method: Method, url: &str) -> (r: Self)
        ensures
            r@ == Self::new_view(method, url@),
    {
        let r = ClientRequest {
            method,
            url: url.to_owned(),
            headers: Vec::new(),
            body: None,
            timeout_ns: None,
            deny_private_ips: false,
        };
        proof { assert(r@.headers =~= Seq::<(Seq<char>, Seq<char>)>::empty()); }
        r
    }

    /// Adds a header. The value must not hold CR or LF (header injection).
    pub fn header(self, name: &str, value: &str) -> (r: Self)
        requires
            header_value_ok(value),
        ensures
            r@ == (RequestView { headers: self@.headers.push((name@, value@)), ..self@ }),
            r@ == apply_step(self@, BuildStep::Header(name@, value@)),
    {
        let ghost old_headers = self.headers@;
        let mut s = self;
        s.headers.push((name.to_owned(), value.to_owned()));
        proof {
            assert(s.headers@.map_values(|h: (String, String)| header_view(h))
                =~= old_headers.map_values(|h: (String, String)| header_view(h)).push((name@, value@)));
        }
        s
    }

    /// Forwards a trace ID as the `X-Trace-Id` header; adds nothing for `None`.
    pub fn with_trace_id(self, trace_id: Option<&str>) -> (r: Self)
        requires
            trace_id matches Some(id) ==> header_value_ok(id),
        ensures
            match trace_id {
                Some(id) => r@ == (RequestView { headers: self@.headers.push((HEADER_TRACE_ID_TITLE@, id@)), ..self@ }),
                None => r@ == self@,
            },
            r@ == apply_step(self@, BuildStep::TraceId(match trace_id {
                Some(id) => Some(id@),
                None => None,
            })),
    {
        match trace_id {
            Some(id) => self.header(HEADER_TRACE_ID_TITLE, id),
            None => self,
        }
    }

    /// Sets the request body.
    pub fn body(self, body: &[u8]) -> (r: Self)
        ensures
            r@ == (RequestView { body: Some(body@), ..self@ }),
            r@ == apply_step(self@, BuildStep::Body(body@)),
    {
        let mut s = self;
        s.body = Some(bytes_to_vec(body));
        s
    }

    /// Sets a JSON body and adds the `Content-Type: application/json` header.
    pub fn json(self, body: &[u8]) -> (r: Self)
        ensures
            r@ == (RequestView {
                headers: self@.headers.push((HEADER_CONTENT_TYPE_TITLE@, MIME_JSON@)),
                body: Some(body@),
                ..self@
            }),
            r@ == apply_step(self@, BuildStep::Json(body@)),
    {
        let ghost old_headers = self.headers@;
        let mut s = self;
        s.headers.push((HEADER_CONTENT_TYPE_TITLE.to_owned(), MIME_JSON.to_owned()));
        s.body = Some(bytes_to_vec(body));
        proof {
            assert(s.headers@.map_values(|h: (String, String)| header_view(h))
                =~= old_headers.map_values(|h: (String, String)| header_view(h)).push((HEADER_CONTENT_TYPE_TITLE@, MIME_JSON@)));
        }
        s
    }

    /// Sets the timeout in milliseconds; values too large for nanoseconds in
    /// a `u64` saturate at `u64::MAX` nanoseconds.
    pub fn timeout_ms(self, ms: u64) -> (r: Self)
        ensures
            r@ == (RequestView { timeout_ns: Some(ms_to_ns(ms)), ..self@ }),
            r@ == apply_step(self@, BuildStep::TimeoutMs(ms)),
    {
        let ns = match ms.checked_mul(1_000_000) {
            Some(v) => v,
            None => u64::MAX,
        };
        let mut s = self;
        s.timeout_ns = Some(ns);
        s
    }

    /// Sets the timeout in nanoseconds.
    pub fn timeout_ns(self, ns: u64) -> (r: Self)
        ensures
            r@ == (RequestView { timeout_ns: Some(ns), ..self@ }),
            r@ == apply_step(self@, BuildStep::TimeoutNs(ns)),
    {
        let mut s = self;
        s.timeout_ns = Some(ns);
        s
    }

    /// Denies requests to private or internal addresses (SSRF protection):
    /// `localhost`, `127.x.x.x`, `10.x.x.x`, `172.16.x.x` to `172.31.x.x`,
    /// `192.168.x.x`, `169.254.x.x`, `::1` and `fe80::`.
    pub fn deny_private_ips(self) -> (r: Self)
        ensures
            r@ == (RequestView { deny_private_ips: true, ..self@ }),
            r@ == apply_step(self@, BuildStep::DenyPrivateIps),
    {
        let mut s = self;
        s.deny_private_ips = true;
        s
    }

    /// Is private-address denial enabled?
    pub fn denies_private_ips(&self) -> (r: bool)
        ensures
            r == self@.deny_private_ips,
    {
        self.deny_private_ips
    }

    /// The HTTP method.
    pub fn method(&self) -> (r: Method)
        ensures
            r == self@.method,
    {
        self.method
    }

    /// The URL.
    pub fn url(&self) -> (r: &str)
        ensures
            r@ == self@.url,
    {
        self.url.as_str()
    }

    /// The headers, in the order they were added.
    pub fn headers(&self) -> (r: &[(String, String)])
        ensures
            r@.map_values(|h: (String, String)| header_view(h)) == self@.headers,
    {
        self.headers.as_slice()
    }

    /// The body, if one was set.
    pub fn get_body(&self) -> (r: Option<&[u8]>)
        ensures
            match r {
                Some(b) => self@.body == Some(b@),
                None => self@.body is None,
            },
    {
        match &self.body {
            Some(b) => Some(b.as_slice()),
            None => None,
        }
    }

    /// The timeout in nanoseconds, if one was set.
    pub fn timeout(&self) -> (r: Option<u64>)
        ensures
            r == self@.timeout_ns,
    {
        self.timeout_ns
    }

    /// Is private-address denial enabled?
    pub fn is_private_ips_denied(&self) -> (r: bool)
        ensures
            r == self@.deny_private_ips,
    {
        self.deny_private_ips
    }

    /// Sends the request with the given sender after checking its URL: a URL
    /// that fails the check is refused with that error and the sender is not
    /// called; otherwise the sender's result is returned.
    pub fn send_with<R, F>(self, sender: F) -> (r: Result<R, Error>)
        where
            F: FnOnce(&ClientRequest) -> Result<R, Error>,
        requires
            sender.requires((&self,)),
        ensures
            match url_outcome(self@.url, self@.deny_private_ips) {
                UrlOutcome::Failed(m) => r matches Err(Error::InvalidUrl(m2)) && m2@ == m,
                UrlOutcome::Parsed(_, _, _) => sender.ensures((&self,), r),
            },
    {
        match self.parse_url() {
            Err(e) => Err(e),
            Ok(_) => sender(&self),
        }
    }

    /// Splits the URL into scheme, authority and path (with query), checking
    /// it on the way: see `url_outcome` for the rules and the messages.
    pub fn parse_url(&self) -> (r: Result<(Scheme, String, String), Error>)
        ensures
            url_result_matches(r, url_outcome(self@.url, self@.deny_private_ips)),
    {
        let url = self.url.as_str();
        let u = url.as_bytes();
        let n = u.len();
        proof { lemma_str_bytes(url); }
        let hs: [u8; 8] = [0x68, 0x74, 0x74, 0x70, 0x73, 0x3a, 0x2f, 0x2f];
        let h: [u8; 7] = [0x68, 0x74, 0x74, 0x70, 0x3a, 0x2f, 0x2f];
        proof {
            assert(hs@ =~= https_prefix());
            assert(h@ =~= http_prefix());
        }
        let (scheme, s0) = if starts_with_exec(u, hs.as_slice()) {
            proof { assert(u@.subrange(0, 8)[7] == u@[7]); }
            (Scheme::Https, 8usize)
        } else if starts_with_exec(u, h.as_slice()) {
            proof { assert(u@.subrange(0, 7)[6] == u@[6]); }
            (Scheme::Http, 7usize)
        } else {
            return Err(Error::InvalidUrl(message("URL must start with http:// or https://: ", url)));
        };
        proof { lemma_ascii_char_starts(u@, s0 - 1); }
        let sl = find_byte_from(u, s0, 0x2f);
        proof {
            if sl < n {
                lemma_ascii_char_starts(u@, sl as int);
            }
        }
        let authority = str_slice(url, s0, sl);
        if sl == s0 {
            return Err(Error::InvalidUrl(to_owned_string("Missing host in URL")));
        }
        match validate_authority(authority) {
            Err(e) => return Err(e),
            Ok(()) => {},
        }
        if self.deny_private_ips && is_private_address(authority) {
            return Err(Error::InvalidUrl(message("Request to private/internal address denied: ", authority)));
        }
        if sl < n {
            let path = str_slice(url, sl, n);
            match validate_percent_encoding(path) {
                Err(e) => return Err(e),
                Ok(()) => {},
            }
            Ok((scheme, authority.to_owned(), path.to_owned()))
        } else {
            proof {
                assert(percent_ok(seq![0x2fu8]));
            }
            Ok((scheme, authority.to_owned(), to_owned_string("/")))
        }
    }
}

/// Denying private addresses only adds refusals: a URL accepted with the
/// denial on is accepted the same way with it off, and a URL refused with it
/// off is refused with it on (the message may then name the private address,
/// whose check comes before the path's).
pub proof fn law_deny_only_refuses_more(url: Seq<char>)
    ensures
        url_outcome(url, true) is Parsed ==> url_outcome(url, false) == url_outcome(url, true),
        url_outcome(url, false) is Failed ==> url_outcome(url, true) is Failed,
{
}

/// No chain of builder calls changes a request's method or URL.
pub proof fn law_builders_keep_method_and_url(v: RequestView, steps: Seq<BuildStep>)
    ensures
        apply_steps(v, steps).method == v.method,
        apply_steps(v, steps).url == v.url,
    decreases steps.len(),
{
    if steps.len() > 0 {
        law_builders_keep_method_and_url(v, steps.drop_last());
    }
}

/// A request made by `new` (or `get`, `post`, ..., `request`) and then a
/// chain of builder calls denies private addresses exactly when
/// `deny_private_ips` is one of the calls; `denies_private_ips` and
/// `is_private_ips_denied` both report that flag.
pub proof fn law_deny_flag_iff_called(method: Method, url: Seq<char>, steps: Seq<BuildStep>)
    ensures
        apply_steps(ClientRequest::new_view(method, url), steps).deny_private_ips
            <==> steps.contains(BuildStep::DenyPrivateIps),
    decreases steps.len(),
{
    if steps.len() > 0 {
        let init = steps.drop_last();
        law_deny_flag_iff_called(method, url, init);
        if steps.last() == BuildStep::DenyPrivateIps {
            assert(steps[steps.len() - 1] == BuildStep::DenyPrivateIps);
        } else {
            assert forall|x: BuildStep| steps.contains(x) implies init.contains(x) || x == steps.last() by {
                let k = choose|k: int| 0 <= k < steps.len() && steps[k] == x;
                if k < steps.len() - 1 {
                    assert(init[k] == x);
                }
            }
            assert forall|x: BuildStep| init.contains(x) implies steps.contains(x) by {
                let k = choose|k: int| 0 <= k < init.len() && init[k] == x;
                assert(steps[k] == x);
            }
        }
    }
}

/// A character allowed in a host name: an ASCII letter or digit, `-`, `.`,
/// `_` or `~`.
pub open spec fn host_name_char(c: char) -> bool {
    ('0' <= c <= '9') || ('A' <= c <= 'Z') || ('a' <= c <= 'z') || c == '-' || c == '.' || c == '_' || c == '~'
}

/// An `https` URL whose host is a name of host-name characters and whose
/// path is ASCII without `%` is accepted as it stands: the scheme, the host
/// and the path are handed on unchanged (with private addresses allowed).
pub proof fn law_plain_https_url_parses(host: Seq<char>, path: Seq<char>)
    requires
        host.len() > 0,
        forall|i: int| 0 <= i < host.len() ==> host_name_char(#[trigger] host[i]),
        forall|i: int| 0 <= i < path.len() ==> ('\0' <= #[trigger] path[i] <= '\u{7f}') && path[i] != '%',
    ensures
        url_outcome("https://"@ + host + "/"@ + path, false)
            == UrlOutcome::Parsed(Scheme::Https, host, "/"@ + path),
{
    reveal_strlit("https://");
    reveal_strlit("/");
    let tail = "/"@ + path;
    let url = "https://"@ + host + tail;
    let n = host.len() as int;
    assert forall|i: int| 0 <= i < url.len() implies '\0' <= #[trigger] url[i] <= '\u{7f}' by {
        if 8 <= i < 8 + n {
            assert(url[i] == host[i - 8]);
        } else if i >= 8 + n + 1 {
            assert(url[i] == path[i - 9 - n]);
        }
    }
    assert(vstd::utf8::is_ascii_chars(url));
    vstd::utf8::is_ascii_chars_encode_utf8(url);
    let u = vstd::utf8::encode_utf8(url);
    assert(u.len() == url.len());
    // The scheme.
    assert(u.subrange(0, 8) =~= https_prefix()) by {
        assert forall|i: int| 0 <= i < 8 implies #[trigger] u.subrange(0, 8)[i] == https_prefix()[i] by {
            assert(u[i] == url[i] as u8);
        }
    }
    assert(url_scheme(u) == Some((Scheme::Https, 8int)));
    // The authority runs to the `/` after the host.
    assert forall|i: int| 8 <= i < 8 + n implies #[trigger] u[i] != 0x2fu8 by {
        assert(u[i] == url[i] as u8);
        assert(url[i] == host[i - 8]);
    }
    assert(u[8 + n] == url[8 + n] as u8);
    assert(url[8 + n] == '/');
    crate::text::lemma_byte_pos_down(u, 8, 8 + n, 0x2f);
    let a = u.subrange(8, 8 + n);
    assert forall|i: int| 0 <= i < n implies #[trigger] a[i] == host[i] as u8 by {
        assert(u[8 + i] == url[8 + i] as u8);
        assert(url[8 + i] == host[i]);
    }
    assert(a[0] != 0x5bu8);
    assert forall|i: int| 0 <= i < a.len() implies #[trigger] a[i] != 0x3au8 by {}
    crate::http_client::ssrf::law_host_names_accepted(a);
    assert(authority_problem(a) is None);
    // The host is handed on as text.
    assert(vstd::utf8::is_ascii_chars(host));
    vstd::utf8::is_ascii_chars_encode_utf8(host);
    assert(a =~= vstd::utf8::encode_utf8(host));
    vstd::utf8::encode_utf8_decode_utf8(host);
    // The path.
    let p = u.subrange(8 + n, u.len() as int);
    assert(vstd::utf8::is_ascii_chars(tail)) by {
        assert forall|i: int| 0 <= i < tail.len() implies '\0' <= #[trigger] tail[i] <= '\u{7f}' by {
            if i > 0 {
                assert(tail[i] == path[i - 1]);
            }
        }
    }
    vstd::utf8::is_ascii_chars_encode_utf8(tail);
    assert forall|i: int| 0 <= i < p.len() implies #[trigger] p[i] == tail[i] as u8 by {
        assert(u[8 + n + i] == url[8 + n + i] as u8);
        assert(url[8 + n + i] == tail[i]);
    }
    assert(p =~= vstd::utf8::encode_utf8(tail));
    vstd::utf8::encode_utf8_decode_utf8(tail);
    assert forall|i: int| 0 <= i < p.len() && p[i] == 0x25 implies
        i + 2 < p.len() && hex_val(#[trigger] p[i + 1]) is Some && hex_val(p[i + 2]) is Some by {
        if i > 0 {
            assert(tail[i] == path[i - 1]);
        }
    }
    assert(percent_ok(p));
    assert("https://"@ + host + "/"@ + path =~= url);
    assert(byte_pos_from(u, 8, 0x2f) == 8 + n);
    assert(decode_utf8(a) == host);
    assert(decode_utf8(p) == tail);
    assert(8 + n < u.len());
}

/// A timeout in milliseconds is that many million nanoseconds while the
/// product fits in a `u64`, and `u64::MAX` nanoseconds beyond.
pub proof fn law_timeout_ms_is_ns(ms: u64)
    ensures
        ms <= u64::MAX / 1_000_000 ==> ms_to_ns(ms) == ms * 1_000_000,
        ms > u64::MAX / 1_000_000 ==> ms_to_ns(ms) == u64::MAX,
{
}

/// Creates a GET request.
pub fn get(url: &str) -> (r: ClientRequest)
    ensures
        r@ == ClientRequest::new_view(Method::Get, url@),
{
    ClientRequest::new(Method::Get, url)
}

/// Creates a POST request.
pub fn post(url: &str) -> (r: ClientRequest)
    ensures
        r@ == ClientRequest::new_view(Method::Post, url@),
{
    ClientRequest::new(Method::Post, url)
}

/// Creates a PUT request.
pub fn put(url: &str) -> (r: ClientRequest)
    ensures
        r@ == ClientRequest::new_view(Method::Put, url@),
{
    ClientRequest::new(Method::Put, url)
}

/// Creates a DELETE request.
pub fn delete(url: &str) -> (r: ClientRequest)
    ensures
        r@ == ClientRequest::new_view(Method::Delete, url@),
{
    ClientRequest::new(Method::Delete, url)
}

/// Creates a PATCH request.
pub fn patch(url: &str) -> (r: ClientRequest)
    ensures
        r@ == ClientRequest::new_view(Method::Patch, url@),
{
    ClientRequest::new(Method::Patch, url)
}

/// Creates a HEAD request.
pub fn head(url: &str) -> (r: ClientRequest)
    ensures
        r@ == ClientRequest::new_view(Method::Head, url@),
{
    ClientRequest::new(Method::Head, url)
}

/// Creates an OPTIONS request.
pub fn options(url: &str) -> (r: ClientRequest)
    ensures
        r@ == ClientRequest::new_view(Method::Options, url@),
{
    ClientRequest::new(Method::Options, url)
}

/// Creates a request with the given method.
pub fn request(method: Method, url: &str) -> (r: ClientRequest)
    ensures
        r@ == ClientRequest::new_view(method, url@),
{
    ClientRequest::new(method, url)
}

} // verus!
