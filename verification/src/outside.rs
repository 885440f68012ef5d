//! The calls that the library makes into outside crates, each behind a
//! small trusted item whose contract restates what the crate's source shows.

use vstd::prelude::*;

verus! {

/// A character that may stand in an HTTP header name (an RFC 9110 token
/// character): an ASCII letter or digit, or one of ``!#$%&'*+-.^_`|~``.
pub open spec fn is_token_char(c: char) -> bool {
    ('0' <= c && c <= '9') || ('a' <= c && c <= 'z') || ('A' <= c && c <= 'Z') || c == '!' || c
        == '#' || c == '$' || c == '%' || c == '&' || c == '\'' || c == '*' || c == '+' || c == '-'
        || c == '.' || c == '^' || c == '_' || c == '`' || c == '|' || c == '~'
}

/// The text of a header name as `http::HeaderName::from_bytes` normalizes
/// it: a name of 1 to 65535 token characters, in ASCII lowercase; nothing
/// for any other name.
pub open spec fn header_name_norm(name: Seq<char>) -> Option<Seq<char>> {
    if 1 <= name.len() <= 65535 && forall|k: int| 0 <= k < name.len() ==> is_token_char(
        #[trigger] name[k],
    ) {
        Some(crate::text::lower_all(name))
    } else {
        None
    }
}

/// `hyper::header::HeaderName::from_bytes` on the UTF-8 bytes of `name`,
/// then `HeaderName::as_str`: the crate maps each byte through its table of
/// token characters (uppercase letters to lowercase, anything else to an
/// error) and takes names of 1 to 65535 bytes; the result is
/// [`header_name_norm`] of the name.
#[verifier::external_body]
pub(crate) fn normalize_header_name(name: &str) -> (r: Option<String>)
    ensures
        match r {
            Some(s) => header_name_norm(name@) == Some(s@),
            None => header_name_norm(name@) is None,
        },
{
    match hyper::header::HeaderName::from_bytes(name.as_bytes()) {
        Ok(n) => Some(n.as_str().to_string()),
        Err(_) => None,
    }
}

pub open spec fn is_lower_hex(c: char) -> bool {
    ('0' <= c && c <= '9') || ('a' <= c && c <= 'f')
}

/// The text of a random (version 4, RFC 4122 variant) UUID as
/// `uuid::Uuid` displays it: 36 characters, lowercase hexadecimal digits in
/// groups of 8, 4, 4, 4 and 12 separated by `-`, the version digit (index
/// 14) `4` and the variant digit (index 19) one of `8`, `9`, `a`, `b`.
pub open spec fn is_uuid_text(s: Seq<char>) -> bool {
    &&& s.len() == 36
    &&& forall|i: int|
        0 <= i < 36 ==> if i == 8 || i == 13 || i == 18 || i == 23 {
            s[i] == '-'
        } else {
            is_lower_hex(#[trigger] s[i])
        }
    &&& s[14] == '4'
    &&& (s[19] == '8' || s[19] == '9' || s[19] == 'a' || s[19] == 'b')
}

/// `uuid::Uuid::new_v4().to_string()`: a random version-4 UUID in its
/// hyphenated lowercase form (`new_v4` masks in the version and variant
/// bits). Only the form is claimed; the value is random.
#[verifier::external_body]
pub(crate) fn new_uuid() -> (s: String)
    ensures
        is_uuid_text(s@),
{
    uuid::Uuid::new_v4().to_string()
}

/// The reason phrase that `http::StatusCode::canonical_reason` gives for a
/// valid status code (one from 100 to 999), if it has one.
pub uninterp spec fn status_reason(code: u16) -> Option<Seq<char>>;

/// `hyper::StatusCode::from_u16(code)`, then `canonical_reason`. A code
/// outside 100..=999 is refused by `from_u16`, so it gives nothing.
#[verifier::external_body]
pub(crate) fn canonical_reason(code: u16) -> (r: Option<String>)
    ensures
        code < 100 || code > 999 ==> r is None,
        100 <= code <= 999 ==> match r {
            Some(s) => status_reason(code) == Some(s@),
            None => status_reason(code) is None,
        },
{
    match hyper::StatusCode::from_u16(code) {
        Ok(s) => s.canonical_reason().map(|t| t.to_string()),
        Err(_) => None,
    }
}

/// `hyper::StatusCode::from_u16(code).is_ok()`: the crate takes the codes
/// from 100 to 999.
#[verifier::external_body]
pub(crate) fn status_code_valid(code: u16) -> (b: bool)
    ensures
        b == (100 <= code <= 999),
{
    hyper::StatusCode::from_u16(code).is_ok()
}

/// The authority part (`host[:port]`) of `url` once `http::Uri` has parsed
/// it: nothing when the text is not a valid URI, `Some(None)` for a URI
/// without an authority.
pub uninterp spec fn uri_authority_of(url: Seq<char>) -> Option<Option<Seq<char>>>;

/// `url.parse::<hyper::Uri>()`, then `Uri::authority`. The result is the
/// function [`uri_authority_of`] of the text; nothing more is claimed.
#[verifier::external_body]
pub(crate) fn uri_authority(url: &str) -> (r: Option<Option<String>>)
    ensures
        r is None <==> uri_authority_of(url@) is None,
        r matches Some(Some(a)) ==> uri_authority_of(url@) == Some(Some(a@)),
        r matches Some(None) ==> uri_authority_of(url@) == Some(None::<Seq<char>>),
{
    match url.parse::<hyper::Uri>() {
        Ok(u) => Some(u.authority().map(|a| a.as_str().to_string())),
        Err(_) => None,
    }
}

/// `num_cpus::get()`: the number of CPUs available to the process. The
/// count depends on the machine; the crate returns at least one.
#[verifier::external_body]
pub(crate) fn cpu_count() -> (n: usize)
    ensures
        n >= 1,
{
    num_cpus::get()
}

} // verus!
