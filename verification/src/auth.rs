//! Authentication helpers: header value placeholders, the client address
//! from forwarding headers, and token checks.

pub mod headers;
pub mod validator;

pub use headers::process_header_substitution;
pub use validator::validate_token;
