//! The labels the proxy's Prometheus metrics carry.

use vstd::prelude::*;
use crate::text::{decimal, decimal_string};

verus! {

broadcast use vstd::string::group_string_axioms;

/// The labels of one request sample: `http_requests_total` carries all
/// three, `http_request_duration_seconds` the method and status.
#[derive(Debug)]
pub struct RequestLabels {
    pub method: String,
    pub status: String,
    pub site: String,
}

/// The labels a completed request is recorded under: its method, its
/// status in decimal, and its site.
pub fn record_request(method: &str, status: u16, site: &str) -> (l: RequestLabels)
    ensures
        l.method@ == method@,
        l.status@ == decimal(status as nat),
        l.site@ == site@,
{
    RequestLabels {
        method: method.to_owned(),
        status: decimal_string(status as u64),
        site: site.to_owned(),
    }
}

/// One in-flight request: what its sample will be labelled with.
#[derive(Debug)]
pub struct MetricsGuard {
    method: String,
    site: String,
}

impl MetricsGuard {
    pub closed spec fn method(&self) -> Seq<char> {
        self.method@
    }

    pub closed spec fn site(&self) -> Seq<char> {
        self.site@
    }

    /// Starts tracking a request for `site` with `method`.
    pub fn new(method: String, site: String) -> (g: MetricsGuard)
        ensures
            g.method() == method@,
            g.site() == site@,
    {
        MetricsGuard { method, site }
    }

    /// The labels of this request once it ends with `status`.
    pub fn record(&mut self, status: u16) -> (l: RequestLabels)
        ensures
            final(self).method() == old(self).method(),
            final(self).site() == old(self).site(),
            l.method@ == old(self).method(),
            l.status@ == decimal(status as nat),
            l.site@ == old(self).site(),
    {
        record_request(self.method.as_str(), status, self.site.as_str())
    }
}

/// The label of a TLS handshake sample: its outcome (`ok` or `fail`).
pub fn tls_handshake(status: &str) -> (l: String)
    ensures
        l@ == status@,
{
    status.to_owned()
}

} // verus!
