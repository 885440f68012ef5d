//! The command line of the proxy server.

use vstd::prelude::*;

verus! {

/// Command line arguments of the proxy server.
#[derive(Debug)]
pub struct Cli {
    /// Path to the configuration file (Caddy-like format).
    pub config: String,
    /// Address of a single listener; without it, one listener per site
    /// address of the configuration.
    pub addr: Option<String>,
    /// Most connections handled at once (0: CPU cores × 256).
    pub max_concurrency: usize,
    /// Whether to start the management API.
    pub enable_api: bool,
    /// Address of the management API.
    pub api_addr: String,
    /// Address of the Prometheus metrics server.
    pub metrics_addr: Option<String>,
}

impl Cli {
    /// The concurrency limit the command line asks for: none for 0 (the
    /// default applies).
    pub fn concurrency_override(&self) -> (r: Option<usize>)
        ensures
            self.max_concurrency == 0 ==> r is None,
            self.max_concurrency > 0 ==> r == Some(self.max_concurrency),
    {
        if self.max_concurrency > 0 {
            Some(self.max_concurrency)
        } else {
            None
        }
    }
}

} // verus!
