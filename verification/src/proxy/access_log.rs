//! Request identifiers for the access log.

use vstd::prelude::*;
use vstd::utf8::encode_utf8;
use crate::outside::{header_name_norm, is_lower_hex, is_uuid_text, new_uuid, normalize_header_name};
use crate::proxy::request::{header_text, utf8_bytes, value_ok, with_set, Headers, HeadersV, RequestHead};

verus! {

broadcast use vstd::string::group_string_axioms;

/// The headers once the request id `id` is stored under `X-Request-ID`.
pub open spec fn with_request_id(hs: HeadersV, id: Seq<char>) -> HeadersV {
    match header_name_norm("X-Request-ID"@) {
        Some(n) => with_set(hs, n, encode_utf8(id)),
        None => hs,
    }
}

proof fn lemma_uuid_value_ok(u: Seq<char>)
    requires
        is_uuid_text(u),
    ensures
        value_ok(encode_utf8(u)),
{
    assert(vstd::utf8::is_ascii_chars(u)) by {
        assert forall|i: int| 0 <= i < u.len() implies '\0' <= #[trigger] u[i] <= '\u{7f}' by {
            assert(i == 8 || i == 13 || i == 18 || i == 23 || is_lower_hex(u[i]));
        }
    }
    vstd::utf8::is_ascii_chars_encode_utf8(u);
    let b = encode_utf8(u);
    assert forall|i: int| 0 <= i < b.len() implies crate::proxy::request::value_byte_ok(#[trigger] b[i]) by {
        assert(u[i] as u8 == b[i]);
        assert(i == 8 || i == 13 || i == 18 || i == 23 || is_lower_hex(u[i]));
    }
}

/// The request id: the request's own `X-Request-ID` when it has one as
/// text, left as it is; otherwise a new random UUID, which is also stored
/// under `X-Request-ID`.
pub fn ensure_request_id(req: &mut RequestHead) -> (id: String)
    requires
        old(req).headers.wf(),
    ensures
        final(req).headers.wf(),
        final(req).method == old(req).method,
        match header_text(old(req).headers@, "X-Request-ID"@) {
            Some(t) => id@ == t && final(req).headers@ == old(req).headers@,
            None => is_uuid_text(id@) && final(req).headers@ == with_request_id(
                old(req).headers@,
                id@,
            ),
        },
{
    match req.headers.get_text("X-Request-ID") {
        Some(t) => t,
        None => {
            let id = new_uuid();
            let b = utf8_bytes(id.as_str());
            proof {
                lemma_uuid_value_ok(id@);
            }
            match normalize_header_name("X-Request-ID") {
                Some(n) => req.headers.set_norm(n.as_str(), b),
                None => {},
            }
            id
        },
    }
}

/// The request id after directive processing: the `X-Request-ID` header as
/// it now stands when it is text, else `fallback`.
pub fn final_request_id(headers: &Headers, fallback: &str) -> (id: String)
    ensures
        match header_text(headers@, "X-Request-ID"@) {
            Some(t) => id@ == t,
            None => id@ == fallback@,
        },
{
    match headers.get_text("X-Request-ID") {
        Some(t) => t,
        None => fallback.to_owned(),
    }
}


/// The id that [`ensure_request_id`] draws is what [`final_request_id`]
/// reads back while no directive changes the header.
pub proof fn lemma_request_id_read_back(hs: HeadersV, id: Seq<char>)
    requires
        header_name_norm("X-Request-ID"@) is Some,
        is_uuid_text(id),
    ensures
        header_text(with_request_id(hs, id), "X-Request-ID"@) == Some(id),
{
    let n = header_name_norm("X-Request-ID"@)->0;
    lemma_uuid_value_ok(id);
    crate::proxy::request::lemma_set_then_get(hs, n, encode_utf8(id));
    assert(vstd::utf8::is_ascii_chars(id)) by {
        assert forall|i: int| 0 <= i < id.len() implies '\0' <= #[trigger] id[i] <= '\u{7f}' by {
            assert(i == 8 || i == 13 || i == 18 || i == 23 || is_lower_hex(id[i]));
        }
    }
    vstd::utf8::is_ascii_chars_encode_utf8(id);
    let b = encode_utf8(id);
    assert forall|i: int| 0 <= i < b.len() implies crate::proxy::request::text_byte_ok(#[trigger] b[i]) by {
        assert(id[i] as u8 == b[i]);
        assert(i == 8 || i == 13 || i == 18 || i == 23 || is_lower_hex(id[i]));
    }
    assert(crate::proxy::request::value_text(b) == Some(id)) by {
        assert(Seq::new(b.len(), |i: int| b[i] as char) =~= id) by {
            assert forall|i: int| 0 <= i < id.len() implies (b[i] as char) == id[i] by {
                assert(id[i] as u8 == b[i]);
                assert(i == 8 || i == 13 || i == 18 || i == 23 || is_lower_hex(id[i]));
            }
        }
    }
}

} // verus!
