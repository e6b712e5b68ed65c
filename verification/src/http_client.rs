//! Outbound HTTP requests: a builder that collects the method, URL, headers,
//! body and limits of a request, and checks its URL before a sender is called.

pub mod error;
pub mod ssrf;
pub mod request;

pub use error::Error;
pub use request::{delete, get, head, options, patch, post, put, request, ClientRequest, Method, Scheme};
