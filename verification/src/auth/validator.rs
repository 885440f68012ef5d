//! Token checks for requests that carry credentials.

use vstd::prelude::*;
use crate::error::ProxyError;
use crate::proxy::request::{header_text, Headers};

verus! {

broadcast use vstd::string::group_string_axioms;

/// Checks the request's `Authorization` header. The external validator at
/// `validator_url` is not consulted: a request that carries the header as
/// text is accepted. A request without it is an error.
pub fn validate_token(headers: &Headers, validator_url: &str) -> (r: Result<bool, ProxyError>)
    ensures
        header_text(headers@, "Authorization"@) is Some ==> r == Ok::<bool, ProxyError>(true),
        header_text(headers@, "Authorization"@) is None ==> (r matches Err(ProxyError::Http(m))
            && m@ == "Missing Authorization header"@),
{
    match headers.get_text("Authorization") {
        Some(_) => Ok(true),
        None => Err(ProxyError::Http("Missing Authorization header".to_owned())),
    }
}

/// Like [`validate_token`], with the token in the header `header_name`. A
/// request without it is the error `Missing {header_name} header`.
pub fn validate_token_with_header(headers: &Headers, validator_url: &str, header_name: &str) -> (r:
    Result<bool, ProxyError>)
    ensures
        header_text(headers@, header_name@) is Some ==> r == Ok::<bool, ProxyError>(true),
        header_text(headers@, header_name@) is None ==> (r matches Err(ProxyError::Http(m)) && m@
            == "Missing "@ + header_name@ + " header"@),
{
    match headers.get_text(header_name) {
        Some(_) => Ok(true),
        None => {
            let mut m = "Missing ".to_owned();
            m.append(header_name);
            m.append(" header");
            Err(ProxyError::Http(m))
        },
    }
}

} // verus!
