//! Limits, header names, MIME types and HTTP status titles shared across the crate.

use vstd::prelude::*;

verus! {

/// Seconds in a day (24 * 60 * 60).
pub const SECONDS_PER_DAY: u64 = 86400;

/// Seconds in an hour (60 * 60).
pub const SECONDS_PER_HOUR: u64 = 3600;

/// Seconds in a minute.
pub const SECONDS_PER_MINUTE: u64 = 60;

/// Maximum JSON input size in bytes (one megabyte).
pub const MAX_JSON_SIZE: usize = 1_000_000;

/// Maximum JSON nesting depth accepted by the parsers.
pub const MAX_JSON_DEPTH: usize = 20;

/// Maximum decoded URL length (64KB).
pub const MAX_URL_DECODED_LEN: usize = 65536;

/// Maximum number of parts accepted in one multipart body.
pub const MAX_MULTIPART_PARTS: usize = 100;

/// Maximum number of form fields.
pub const MAX_FORM_FIELDS: usize = 1000;

/// Maximum individual header value length (8KB).
pub const MAX_HEADER_VALUE_LEN: usize = 8192;

/// Maximum total size of all headers combined (1MB).
pub const MAX_TOTAL_HEADERS_SIZE: usize = 1048576;

/// Content-Type header name (lowercase for lookups).
pub const HEADER_CONTENT_TYPE: &'static str = "content-type";

/// Content-Type header name (title-case for setting headers).
pub const HEADER_CONTENT_TYPE_TITLE: &'static str = "Content-Type";

/// Authorization header name (lowercase for lookups).
pub const HEADER_AUTHORIZATION: &'static str = "authorization";

/// Trace ID header name (lowercase for lookups).
pub const HEADER_TRACE_ID: &'static str = "x-trace-id";

/// Trace ID header name (title-case for setting headers).
pub const HEADER_TRACE_ID_TITLE: &'static str = "X-Trace-Id";

/// JSON MIME type.
pub const MIME_JSON: &'static str = "application/json";

/// RFC 7807 Problem Details MIME type.
pub const MIME_PROBLEM_JSON: &'static str = "application/problem+json";

/// HTML MIME type.
pub const MIME_HTML: &'static str = "text/html";

/// Form URL-encoded MIME type.
pub const MIME_FORM_URLENCODED: &'static str = "application/x-www-form-urlencoded";

/// The standard title of an HTTP status code, as characters.
pub open spec fn spec_status_title(code: u16) -> Seq<char> {
    if code == 200 { "OK"@ }
    else if code == 201 { "Created"@ }
    else if code == 202 { "Accepted"@ }
    else if code == 204 { "No Content"@ }
    else if code == 301 { "Moved Permanently"@ }
    else if code == 302 { "Found"@ }
    else if code == 304 { "Not Modified"@ }
    else if code == 307 { "Temporary Redirect"@ }
    else if code == 308 { "Permanent Redirect"@ }
    else if code == 400 { "Bad Request"@ }
    else if code == 401 { "Unauthorized"@ }
    else if code == 403 { "Forbidden"@ }
    else if code == 404 { "Not Found"@ }
    else if code == 405 { "Method Not Allowed"@ }
    else if code == 406 { "Not Acceptable"@ }
    else if code == 409 { "Conflict"@ }
    else if code == 410 { "Gone"@ }
    else if code == 413 { "Payload Too Large"@ }
    else if code == 422 { "Unprocessable Entity"@ }
    else if code == 429 { "Too Many Requests"@ }
    else if code == 500 { "Internal Server Error"@ }
    else if code == 501 { "Not Implemented"@ }
    else if code == 502 { "Bad Gateway"@ }
    else if code == 503 { "Service Unavailable"@ }
    else if code == 504 { "Gateway Timeout"@ }
    else { "Error"@ }
}

/// Returns the standard title for an HTTP status code ("Error" for unknown codes).
pub fn status_title(code: u16) -> (title: &'static str)
    ensures
        title@ == spec_status_title(code),
{
    match code {
        200 => "OK",
        201 => "Created",
        202 => "Accepted",
        204 => "No Content",
        301 => "Moved Permanently",
        302 => "Found",
        304 => "Not Modified",
        307 => "Temporary Redirect",
        308 => "Permanent Redirect",
        400 => "Bad Request",
        401 => "Unauthorized",
        403 => "Forbidden",
        404 => "Not Found",
        405 => "Method Not Allowed",
        406 => "Not Acceptable",
        409 => "Conflict",
        410 => "Gone",
        413 => "Payload Too Large",
        422 => "Unprocessable Entity",
        429 => "Too Many Requests",
        500 => "Internal Server Error",
        501 => "Not Implemented",
        502 => "Bad Gateway",
        503 => "Service Unavailable",
        504 => "Gateway Timeout",
        _ => "Error",
    }
}

/// The status codes that have a title of their own.
pub open spec fn is_listed_status(code: u16) -> bool {
    code == 200 || code == 201 || code == 202 || code == 204 || code == 301 || code == 302 || code == 304 || code == 307 || code == 308 || code == 400 || code == 401 || code == 403 || code == 404 || code == 405 || code == 406 || code == 409 || code == 410 || code == 413 || code == 422 || code == 429 || code == 500 || code == 501 || code == 502 || code == 503 || code == 504
}

/// The status code whose standard title is `t`, told apart by the title's
/// length and its first and fifth characters; 0 for other text.
pub open spec fn status_of_title(t: Seq<char>) -> u16 {
    if t.len() == 2 && t[0] == 'O' { 200 }
    else if t.len() == 7 && t[0] == 'C' && t[4] == 't' { 201 }
    else if t.len() == 8 && t[0] == 'A' && t[4] == 'p' { 202 }
    else if t.len() == 10 && t[0] == 'N' && t[4] == 'o' { 204 }
    else if t.len() == 17 && t[0] == 'M' && t[4] == 'd' { 301 }
    else if t.len() == 5 && t[0] == 'F' && t[4] == 'd' { 302 }
    else if t.len() == 12 && t[0] == 'N' && t[4] == 'M' { 304 }
    else if t.len() == 18 && t[0] == 'T' && t[4] == 'o' { 307 }
    else if t.len() == 18 && t[0] == 'P' && t[4] == 'a' { 308 }
    else if t.len() == 11 && t[0] == 'B' && t[4] == 'R' { 400 }
    else if t.len() == 12 && t[0] == 'U' && t[4] == 't' { 401 }
    else if t.len() == 9 && t[0] == 'F' && t[4] == 'i' { 403 }
    else if t.len() == 9 && t[0] == 'N' && t[4] == 'F' { 404 }
    else if t.len() == 18 && t[0] == 'M' && t[4] == 'o' { 405 }
    else if t.len() == 14 && t[0] == 'N' && t[4] == 'A' { 406 }
    else if t.len() == 8 && t[0] == 'C' && t[4] == 'l' { 409 }
    else if t.len() == 4 && t[0] == 'G' { 410 }
    else if t.len() == 17 && t[0] == 'P' && t[4] == 'o' { 413 }
    else if t.len() == 20 && t[0] == 'U' && t[4] == 'o' { 422 }
    else if t.len() == 17 && t[0] == 'T' && t[4] == 'M' { 429 }
    else if t.len() == 21 && t[0] == 'I' && t[4] == 'r' { 500 }
    else if t.len() == 15 && t[0] == 'N' && t[4] == 'I' { 501 }
    else if t.len() == 11 && t[0] == 'B' && t[4] == 'G' { 502 }
    else if t.len() == 19 && t[0] == 'S' && t[4] == 'i' { 503 }
    else if t.len() == 15 && t[0] == 'G' && t[4] == 'w' { 504 }
    else { 0 }
}

/// Each listed status code has its standard reason phrase as its title.
pub proof fn law_status_titles_are_standard()
    ensures
        spec_status_title(200) == "OK"@,
        spec_status_title(201) == "Created"@,
        spec_status_title(202) == "Accepted"@,
        spec_status_title(204) == "No Content"@,
        spec_status_title(301) == "Moved Permanently"@,
        spec_status_title(302) == "Found"@,
        spec_status_title(304) == "Not Modified"@,
        spec_status_title(307) == "Temporary Redirect"@,
        spec_status_title(308) == "Permanent Redirect"@,
        spec_status_title(400) == "Bad Request"@,
        spec_status_title(401) == "Unauthorized"@,
        spec_status_title(403) == "Forbidden"@,
        spec_status_title(404) == "Not Found"@,
        spec_status_title(405) == "Method Not Allowed"@,
        spec_status_title(406) == "Not Acceptable"@,
        spec_status_title(409) == "Conflict"@,
        spec_status_title(410) == "Gone"@,
        spec_status_title(413) == "Payload Too Large"@,
        spec_status_title(422) == "Unprocessable Entity"@,
        spec_status_title(429) == "Too Many Requests"@,
        spec_status_title(500) == "Internal Server Error"@,
        spec_status_title(501) == "Not Implemented"@,
        spec_status_title(502) == "Bad Gateway"@,
        spec_status_title(503) == "Service Unavailable"@,
        spec_status_title(504) == "Gateway Timeout"@,
{
}

/// Distinct listed status codes have distinct titles, none of them the
/// `Error` that every other code gets: the code can be read back from its
/// title.
pub proof fn law_status_titles_distinct(code: u16)
    ensures
        is_listed_status(code) ==> status_of_title(spec_status_title(code)) == code,
        is_listed_status(code) ==> spec_status_title(code) != "Error"@,
        !is_listed_status(code) ==> spec_status_title(code) == "Error"@,
{
    reveal_strlit("OK");
    reveal_strlit("Created");
    reveal_strlit("Accepted");
    reveal_strlit("No Content");
    reveal_strlit("Moved Permanently");
    reveal_strlit("Found");
    reveal_strlit("Not Modified");
    reveal_strlit("Temporary Redirect");
    reveal_strlit("Permanent Redirect");
    reveal_strlit("Bad Request");
    reveal_strlit("Unauthorized");
    reveal_strlit("Forbidden");
    reveal_strlit("Not Found");
    reveal_strlit("Method Not Allowed");
    reveal_strlit("Not Acceptable");
    reveal_strlit("Conflict");
    reveal_strlit("Gone");
    reveal_strlit("Payload Too Large");
    reveal_strlit("Unprocessable Entity");
    reveal_strlit("Too Many Requests");
    reveal_strlit("Internal Server Error");
    reveal_strlit("Not Implemented");
    reveal_strlit("Bad Gateway");
    reveal_strlit("Service Unavailable");
    reveal_strlit("Gateway Timeout");
    reveal_strlit("Error");
    assert(status_of_title("Error"@) == 0);
}

} // verus!
