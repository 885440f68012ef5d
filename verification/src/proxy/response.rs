//! The answers the proxy builds itself, and the request it forwards.

use vstd::prelude::*;
use crate::outside::{canonical_reason, status_code_valid, status_reason, uri_authority, uri_authority_of};
use crate::proxy::request::{utf8_bytes, value_bytes_ok, value_ok, with_set, without, RequestHead};
use crate::outside::header_name_norm;
use crate::text::{chars_of, decimal, decimal_string, has_prefix};
use vstd::utf8::encode_utf8;

verus! {

broadcast use vstd::string::group_string_axioms;

/// An answer that the proxy writes itself.
#[derive(Debug)]
pub struct Reply {
    pub status: u16,
    /// The `Content-Type` header, when there is one.
    pub content_type: Option<String>,
    /// The `Location` header, when there is one.
    pub location: Option<String>,
    pub body: String,
}

pub struct ReplyV {
    pub status: u16,
    pub content_type: Option<Seq<char>>,
    pub location: Option<Seq<char>>,
    pub body: Seq<char>,
}

pub open spec fn opt_string(s: Option<String>) -> Option<Seq<char>> {
    match s {
        Some(x) => Some(x@),
        None => None,
    }
}

impl View for Reply {
    type V = ReplyV;

    open spec fn view(&self) -> ReplyV {
        ReplyV {
            status: self.status,
            content_type: opt_string(self.content_type),
            location: opt_string(self.location),
            body: self.body@,
        }
    }
}

/// The answer to `respond status body`.
pub open spec fn respond_reply_v(status: u16, body: Seq<char>) -> ReplyV {
    ReplyV { status: respond_status_of(status), content_type: None, location: None, body }
}

/// The answer to `redirect status url`.
pub open spec fn redirect_reply_v(status: u16, url: Seq<char>) -> ReplyV {
    ReplyV { status: redirect_status_of(status), content_type: None, location: Some(url), body: Seq::empty() }
}

/// An error answer: `status` with its HTML error page about `message`.
pub open spec fn error_reply_v(status: u16, message: Seq<char>) -> ReplyV {
    ReplyV {
        status,
        content_type: Some("text/html; charset=utf-8"@),
        location: None,
        body: error_page(status, message),
    }
}

/// The status a `respond` directive answers with: its own when
/// `StatusCode` accepts it (100 to 999), else 200.
pub open spec fn respond_status_of(status: u16) -> u16 {
    if 100 <= status <= 999 {
        status
    } else {
        200
    }
}

/// The status a `redirect` directive answers with: its own when
/// `StatusCode` accepts it, else 301 (the directive's default).
pub open spec fn redirect_status_of(status: u16) -> u16 {
    if 100 <= status <= 999 {
        status
    } else {
        301
    }
}

/// The answer to a `respond` directive.
pub fn respond_reply(status: u16, body: &str) -> (r: Reply)
    ensures
        r@ == respond_reply_v(status, body@),
        r.status == respond_status_of(status),
        r.content_type is None,
        r.location is None,
        r.body@ == body@,
{
    let s = if status_code_valid(status) {
        status
    } else {
        200
    };
    Reply { status: s, content_type: None, location: None, body: body.to_owned() }
}

/// The answer to a `redirect` directive: its status and a `Location`.
pub fn redirect_reply(status: u16, url: &str) -> (r: Reply)
    ensures
        r@ == redirect_reply_v(status, url@),
        r.status == redirect_status_of(status),
        r.content_type is None,
        r.location matches Some(l) && l@ == url@,
        r.body@ == Seq::<char>::empty(),
{
    let s = if status_code_valid(status) {
        status
    } else {
        301
    };
    Reply { status: s, content_type: None, location: Some(url.to_owned()), body: String::new() }
}

/// The reason phrase of a status in error pages: the canonical one, or
/// `Error` when there is none.
pub open spec fn reason_text(status: u16) -> Seq<char> {
    match status_reason(status) {
        Some(r) => r,
        None => "Error"@,
    }
}

/// The HTML of an error page.
pub open spec fn error_page(status: u16, message: Seq<char>) -> Seq<char> {
    "<!DOCTYPE html>\n        <html>\n        <head><title>"@ + decimal(status as nat) + " "@
        + reason_text(status) + "</title></head>\n        <body>\n        <h1>"@ + decimal(
        status as nat,
    ) + " "@ + reason_text(status) + "</h1>\n        <p>"@ + message
        + "</p>\n        <hr>\n        <p><em>Rust Proxy Server</em></p>\n        </body>\n        </html>"@
}

/// An error answer: `status` with an HTML page that shows it and `message`.
pub fn error_response(status: u16, message: &str) -> (r: Reply)
    requires
        100 <= status <= 999,
    ensures
        r@ == error_reply_v(status, message@),
        r.status == status,
        r.content_type matches Some(c) && c@ == "text/html; charset=utf-8"@,
        r.location is None,
        r.body@ == error_page(status, message@),
{
    let reason = match canonical_reason(status) {
        Some(r) => r,
        None => "Error".to_owned(),
    };
    let code = decimal_string(status as u64);
    let mut body = "<!DOCTYPE html>\n        <html>\n        <head><title>".to_owned();
    body.append(code.as_str());
    body.append(" ");
    body.append(reason.as_str());
    body.append("</title></head>\n        <body>\n        <h1>");
    body.append(code.as_str());
    body.append(" ");
    body.append(reason.as_str());
    body.append("</h1>\n        <p>");
    body.append(message);
    body.append("</p>\n        <hr>\n        <p><em>Rust Proxy Server</em></p>\n        </body>\n        </html>");
    Reply {
        status,
        content_type: Some("text/html; charset=utf-8".to_owned()),
        location: None,
        body,
    }
}

pub open spec fn no_site_text(host: Seq<char>) -> Seq<char> {
    "No configuration found for host: "@ + host
}

/// The answer for a host that no site serves: 404 with its error page.
pub fn no_site_reply(host: &str) -> (r: Reply)
    ensures
        r@ == error_reply_v(404, no_site_text(host@)),
        r.status == 404,
        r.content_type matches Some(c) && c@ == "text/html; charset=utf-8"@,
        r.body@ == error_page(404, no_site_text(host@)),
{
    let mut m = "No configuration found for host: ".to_owned();
    m.append(host);
    error_response(404, m.as_str())
}

/// The backend URL with a scheme: `http://` is put in front unless it
/// already starts with `http://` or `https://`.
pub open spec fn backend_with_scheme(backend: Seq<char>) -> Seq<char> {
    if "http://"@.is_prefix_of(backend) || "https://"@.is_prefix_of(backend) {
        backend
    } else {
        "http://"@ + backend
    }
}

/// The URL a request is forwarded to: the backend with its scheme, then the
/// path to send.
pub open spec fn upstream_url(backend: Seq<char>, path: Seq<char>) -> Seq<char> {
    backend_with_scheme(backend) + path
}

/// Builds the URL a request is forwarded to (see [`upstream_url`]).
pub fn upstream_target(backend_url: &str, path_to_send: &str) -> (u: String)
    ensures
        u@ == upstream_url(backend_url@, path_to_send@),
{
    let b = chars_of(backend_url);
    let h1 = chars_of("http://");
    let h2 = chars_of("https://");
    let mut u = if has_prefix(b.as_slice(), h1.as_slice()) || has_prefix(b.as_slice(), h2.as_slice()) {
        backend_url.to_owned()
    } else {
        let mut s = "http://".to_owned();
        s.append(backend_url);
        s
    };
    u.append(path_to_send);
    u
}

/// Seconds to wait for a backend's answer: the configured `read_timeout`,
/// else 30.
pub open spec fn read_timeout_of(read_timeout: Option<u64>) -> u64 {
    match read_timeout {
        Some(t) => t,
        None => 30,
    }
}

pub fn read_timeout_secs(read_timeout: Option<u64>) -> (t: u64)
    ensures
        t == read_timeout_of(read_timeout),
{
    match read_timeout {
        Some(t) => t,
        None => 30,
    }
}

/// The request headers once prepared for the backend: `Host` replaced by
/// the URL's authority (removed when there is none, or when it is not a
/// valid header value), and `X-Forwarded-Proto: https` set when the client
/// came over TLS.
pub open spec fn upstream_headers(
    hs: Seq<(Seq<char>, Seq<u8>)>,
    authority: Option<Seq<char>>,
    is_tls: bool,
) -> Seq<(Seq<char>, Seq<u8>)> {
    let h1 = match header_name_norm("Host"@) {
        Some(n) => {
            let h0 = without(hs, n);
            match authority {
                Some(a) => if value_ok(encode_utf8(a)) {
                    with_set(h0, n, encode_utf8(a))
                } else {
                    h0
                },
                None => h0,
            }
        },
        None => hs,
    };
    if is_tls {
        match header_name_norm("X-Forwarded-Proto"@) {
            Some(n) => with_set(h1, n, encode_utf8("https"@)),
            None => h1,
        }
    } else {
        h1
    }
}

/// Prepares the request for the backend: the URL to send it to, and its
/// headers (see [`upstream_headers`]). An URL that `http::Uri` refuses is
/// answered with 500 `Invalid proxy URI`, the request unchanged.
pub fn prepare_upstream(
    backend_url: &str,
    path_to_send: &str,
    req: &mut RequestHead,
    is_tls: bool,
) -> (r: Result<String, Reply>)
    requires
        old(req).headers.wf(),
    ensures
        final(req).headers.wf(),
        final(req).method == old(req).method,
        match uri_authority_of(upstream_url(backend_url@, path_to_send@)) {
            None => r matches Err(e) && e@ == error_reply_v(500, "Invalid proxy URI"@)
                && final(req).headers@ == old(req).headers@,
            Some(a) => r matches Ok(u) && u@ == upstream_url(backend_url@, path_to_send@)
                && final(req).headers@ == upstream_headers(old(req).headers@, a, is_tls),
        },
{
    let url = upstream_target(backend_url, path_to_send);
    match uri_authority(url.as_str()) {
        None => Err(error_response(500, "Invalid proxy URI")),
        Some(auth) => {
            let ghost a = match &auth {
                Some(x) => Some(x@),
                None => None,
            };
            req.headers.remove("Host");
            match auth {
                Some(x) => {
                    let b = utf8_bytes(x.as_str());
                    if value_bytes_ok(b.as_slice()) {
                        match crate::outside::normalize_header_name("Host") {
                            Some(n) => req.headers.set_norm(n.as_str(), b),
                            None => {},
                        }
                    }
                },
                None => {},
            }
            if is_tls {
                match crate::outside::normalize_header_name("X-Forwarded-Proto") {
                    Some(n) => {
                        let v = utf8_bytes("https");
                        proof {
                            vstd::string::is_ascii_spec_bytes("https");
                            reveal_strlit("https");
                        }
                        assert(value_ok(v@));
                        req.headers.set_norm(n.as_str(), v);
                    },
                    None => {},
                }
            }
            Ok(url)
        },
    }
}

} // verus!
