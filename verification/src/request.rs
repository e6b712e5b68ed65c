//! Pieces of incoming-request handling: the HTTP method, cookie parsing and
//! `Set-Cookie` building, and `multipart/form-data` parsing.

pub mod cookie;
pub mod multipart;

use vstd::prelude::*;

verus! {

/// HTTP request method.
#[derive(Debug, Clone, Copy, PartialEq, Eq, Structural)]
pub enum Method {
    Get,
    Post,
    Put,
    Patch,
    Delete,
    Head,
    Options,
}

} // verus!
