//! The management API's decisions: which endpoint a request goes to, the
//! API key check, and the answers that do not depend on the configuration.

use vstd::prelude::*;
use crate::proxy::request::{header_get, header_text, Headers, HeadersV};
use crate::proxy::response::Reply;
use crate::text::{chars_of, is_text};

verus! {

broadcast use vstd::string::group_string_axioms;

/// An endpoint of the management API.
#[derive(Debug, PartialEq, Eq, Structural)]
pub enum ApiRoute {
    /// `GET /config`: the current configuration as JSON.
    GetConfig,
    /// `POST /config`: replace the configuration with the JSON body.
    PostConfig,
    /// `GET /health`.
    Health,
    /// Anything else: 404.
    NotFound,
}

/// The endpoint for a method and path.
pub open spec fn api_route_of(method: Seq<char>, path: Seq<char>) -> ApiRoute {
    if method == "GET"@ && path == "/config"@ {
        ApiRoute::GetConfig
    } else if method == "POST"@ && path == "/config"@ {
        ApiRoute::PostConfig
    } else if method == "GET"@ && path == "/health"@ {
        ApiRoute::Health
    } else {
        ApiRoute::NotFound
    }
}

/// Routes an API request by its method and path.
pub fn api_route(method: &str, path: &str) -> (r: ApiRoute)
    ensures
        r == api_route_of(method@, path@),
{
    let m = chars_of(method);
    let p = chars_of(path);
    if is_text(m.as_slice(), "GET") && is_text(p.as_slice(), "/config") {
        ApiRoute::GetConfig
    } else if is_text(m.as_slice(), "POST") && is_text(p.as_slice(), "/config") {
        ApiRoute::PostConfig
    } else if is_text(m.as_slice(), "GET") && is_text(p.as_slice(), "/health") {
        ApiRoute::Health
    } else {
        ApiRoute::NotFound
    }
}

/// The JSON body of a 401 answer.
pub open spec fn unauthorized_body(message: Seq<char>) -> Seq<char> {
    "{\"error\": \"Unauthorized\", \"message\": \""@ + message + "\"}"@
}

/// The 401 answer with a JSON body that carries `message`.
pub open spec fn is_unauthorized(r: Reply, message: Seq<char>) -> bool {
    &&& r.status == 401
    &&& r.content_type matches Some(c) && c@ == "application/json"@
    &&& r.location is None
    &&& r.body@ == unauthorized_body(message)
}

/// A 401 answer with a JSON body that carries `message`.
pub fn unauthorized_response(message: &str) -> (r: Reply)
    ensures
        is_unauthorized(r, message@),
{
    let mut body = "{\"error\": \"Unauthorized\", \"message\": \"".to_owned();
    body.append(message);
    body.append("\"}");
    Reply {
        status: 401,
        content_type: Some("application/json".to_owned()),
        location: None,
        body,
    }
}

/// The API key check: the request passes when its `X-API-Key` header, as
/// text, is `api_key`; it is refused with `Invalid API key` when the header
/// holds something else and with `Missing API key` when there is none (or
/// it is not text).
pub fn auth_middleware(headers: &Headers, api_key: &str) -> (r: Result<(), Reply>)
    ensures
        match header_text(headers@, "X-API-Key"@) {
            Some(k) => if k == api_key@ {
                r is Ok
            } else {
                r matches Err(e) && is_unauthorized(e, "Invalid API key"@)
            },
            None => r matches Err(e) && is_unauthorized(e, "Missing API key"@),
        },
{
    match headers.get_text("X-API-Key") {
        Some(k) => {
            let kc = chars_of(k.as_str());
            if is_text(kc.as_slice(), api_key) {
                Ok(())
            } else {
                Err(unauthorized_response("Invalid API key"))
            }
        },
        None => Err(unauthorized_response("Missing API key")),
    }
}

/// The client an API request is logged under: `X-Real-IP`, or when that
/// header is absent `X-Forwarded-For`, as text; `unknown` otherwise.
pub open spec fn api_client_of(hs: HeadersV) -> Seq<char> {
    let name = if header_get(hs, "X-Real-IP"@) is Some {
        "X-Real-IP"@
    } else {
        "X-Forwarded-For"@
    };
    match header_text(hs, name) {
        Some(t) => t,
        None => "unknown"@,
    }
}

/// The client an API request is logged under (see [`api_client_of`]).
pub fn logging_middleware(headers: &Headers) -> (c: String)
    ensures
        c@ == api_client_of(headers@),
{
    let name = if headers.contains("X-Real-IP") {
        "X-Real-IP"
    } else {
        "X-Forwarded-For"
    };
    match headers.get_text(name) {
        Some(t) => t,
        None => "unknown".to_owned(),
    }
}

/// The answer to a request for no endpoint: 404 `Not Found`.
pub fn not_found_reply() -> (r: Reply)
    ensures
        r.status == 404,
        r.content_type is None,
        r.location is None,
        r.body@ == "Not Found"@,
{
    Reply { status: 404, content_type: None, location: None, body: "Not Found".to_owned() }
}

/// The answer once `POST /config` has replaced the configuration.
pub fn config_updated_reply() -> (r: Reply)
    ensures
        r.status == 200,
        r.content_type matches Some(c) && c@ == "application/json"@,
        r.location is None,
        r.body@ == "{\"status\": \"success\", \"message\": \"Configuration updated\"}"@,
{
    Reply {
        status: 200,
        content_type: Some("application/json".to_owned()),
        location: None,
        body: "{\"status\": \"success\", \"message\": \"Configuration updated\"}".to_owned(),
    }
}

} // verus!
