//! Errors of outbound requests.

use vstd::prelude::*;

verus! {

/// Why an outbound request could not be made.
#[derive(Debug, Clone, PartialEq, Eq)]
pub enum Error {
    /// The URL is malformed or not allowed; the text says why.
    InvalidUrl(String),
}

} // verus!
