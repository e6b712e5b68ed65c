//! Request/response helpers for HTTP handlers: constants, environment lookups,
//! cookie and multipart parsing, an outbound request builder, and a JSON layer
//! with a lazy byte scanner.

pub mod constants;
pub mod env;
pub mod http_client;
pub mod text;
pub mod json;
pub mod request;
