//! The error type of the library.

use vstd::prelude::*;

verus! {

/// What can go wrong in the proxy. Each variant carries a description.
#[derive(Debug)]
pub enum ProxyError {
    /// Configuration-related errors.
    Config(String),
    /// Backend proxy errors.
    Backend(String),
    /// Parsing errors (configuration, directives, durations).
    Parse(String),
    /// I/O errors, with the text of the underlying error.
    Io(String),
    /// HTTP-related errors.
    Http(String),
    /// Network connection errors.
    Connection(String),
    /// Directive processing errors.
    Directive(String),
    /// URL parsing errors.
    InvalidUrl(String),
    /// Address parsing errors.
    Address(String),
}

pub type Result<T> = core::result::Result<T, ProxyError>;

impl ProxyError {
    /// The text that describes the error, headed by its kind.
    pub open spec fn spec_message(&self) -> Seq<char> {
        match self {
            ProxyError::Config(s) => "Configuration error: "@ + s@,
            ProxyError::Backend(s) => "Backend error: "@ + s@,
            ProxyError::Parse(s) => "Parse error: "@ + s@,
            ProxyError::Io(s) => "I/O error: "@ + s@,
            ProxyError::Http(s) => "HTTP error: "@ + s@,
            ProxyError::Connection(s) => "Connection error: "@ + s@,
            ProxyError::Directive(s) => "Directive error: "@ + s@,
            ProxyError::InvalidUrl(s) => "Invalid URL: "@ + s@,
            ProxyError::Address(s) => "Invalid address: "@ + s@,
        }
    }

    /// The text that describes the error, headed by its kind (what the
    /// error displays as).
    pub fn message(&self) -> (m: String)
        ensures
            m@ == self.spec_message(),
    {
        let (head, body) = match self {
            ProxyError::Config(s) => ("Configuration error: ", s),
            ProxyError::Backend(s) => ("Backend error: ", s),
            ProxyError::Parse(s) => ("Parse error: ", s),
            ProxyError::Io(s) => ("I/O error: ", s),
            ProxyError::Http(s) => ("HTTP error: ", s),
            ProxyError::Connection(s) => ("Connection error: ", s),
            ProxyError::Directive(s) => ("Directive error: ", s),
            ProxyError::InvalidUrl(s) => ("Invalid URL: ", s),
            ProxyError::Address(s) => ("Invalid address: ", s),
        };
        let mut m = head.to_owned();
        m.append(body.as_str());
        m
    }
}

} // verus!
