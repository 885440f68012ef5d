//! Configuration: the data model, the text format and its parser, and the
//! address helpers that the parser and the listeners share.

pub mod net;
pub mod models;
pub mod address;
pub mod grammar;
pub mod parser;

pub use address::{extract_hostname, resolve_listen_addr, tls_redirect_port};
pub use models::{Config, Directive, HeaderDirective, SiteConfig, TlsConfig};
pub use parser::parse_duration;
