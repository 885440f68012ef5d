//! A small HTTP reverse proxy library: a Caddy-like configuration language,
//! request routing through directives, TLS certificate selection by SNI, and
//! the decisions of its listeners and management API.

use vstd::prelude::*;

pub mod api;
pub mod auth;
pub mod cli;
pub mod config;
pub mod error;
pub mod metrics;
pub mod outside;
pub mod proxy;
pub mod text;

pub use config::Config;
pub use error::{ProxyError, Result};
pub use proxy::ActionResult;

verus! {

} // verus!
