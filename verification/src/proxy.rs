//! Request handling: the request model, directive processing, access-log
//! identifiers, TLS certificate selection and listener planning.

pub mod request;
pub mod types;
pub mod directives;
pub mod handler;
pub mod response;
pub mod access_log;
pub mod tls;
pub mod listeners;
pub mod limits;
pub mod pipeline;

pub use types::ActionResult;
