//! What each directive does to the request, its path, or the answer.

use vstd::prelude::*;
use vstd::utf8::encode_utf8;
use crate::auth::headers::{lemma_replace_absent, lemma_plain_value_unchanged, lemma_substituted_uuid_free, process_header_substitution, substituted};
use crate::error::ProxyError;
use crate::outside::{header_name_norm, is_uuid_text, normalize_header_name};
use crate::proxy::request::{
    header_get, lemma_remove_then_get, lemma_set_then_get, value_bytes_ok, utf8_bytes, value_ok,
    with_set, without, EnvV, EnvVars, HeadersV, RequestHead,
};
use crate::proxy::types::{ActionResult, ActionV};
use crate::text::{chars_of, eq_ci, has_prefix, replace_all, replace_text, same_ci, string_of};

use crate::config::models::{header_ops_view, opt_string_view, HeaderDirective, HeaderOpV};

verus! {

broadcast use vstd::string::group_string_axioms;

/// `reverse_proxy to`: forward to `to`, asking for `path`, with the
/// timeouts and the backend header operations `header_up` carried over
/// unchanged.
pub fn handle_reverse_proxy(
    to: &str,
    path: &str,
    connect_timeout: Option<u64>,
    read_timeout: Option<u64>,
    header_up: Vec<HeaderDirective>,
) -> (a: ActionResult)
    ensures
        a@ == (ActionV::ReverseProxy {
            backend_url: to@,
            path_to_send: path@,
            connect_timeout,
            read_timeout,
            header_up: header_ops_view(header_up@),
        }),
{
    ActionResult::ReverseProxy {
        backend_url: to.to_owned(),
        path_to_send: path.to_owned(),
        connect_timeout,
        read_timeout,
        header_up,
    }
}

/// `respond status body`: answer directly.
pub fn handle_respond(status: &u16, body: &str) -> (a: ActionResult)
    ensures
        a@ == (ActionV::Respond { status: *status, body: body@ }),
{
    ActionResult::Respond { status: *status, body: body.to_owned() }
}

/// `redirect status url`: answer with a redirect to `url` (its `Location`).
pub fn handle_redirect(status: &u16, url: &str) -> (a: ActionResult)
    ensures
        a@ == (ActionV::Redirect { status: *status, url: url@ }),
{
    ActionResult::Redirect { status: *status, url: url.to_owned() }
}

/// What `header name value` does to the headers `hs`, when `{uuid}` stands
/// for `u`, and whether a UUID was drawn: nothing for an invalid name;
/// removal for `header -Name`; otherwise the substituted value is set when
/// it is a valid header value. A UUID is drawn exactly when substitution
/// succeeds.
pub open spec fn header_effect(
    hs: HeadersV,
    name: Seq<char>,
    value: Option<Seq<char>>,
    e: EnvV,
    u: Seq<char>,
) -> (HeadersV, bool) {
    match header_name_norm(name) {
        None => (hs, false),
        Some(n) => match value {
            None => (without(hs, n), false),
            Some(t) => match substituted(t, hs, e, u) {
                Err(_) => (hs, false),
                Ok(v) => if value_ok(encode_utf8(v)) {
                    (with_set(hs, n, encode_utf8(v)), true)
                } else {
                    (hs, true)
                },
            },
        },
    }
}

pub open spec fn opt_text(value: Option<&str>) -> Option<Seq<char>> {
    match value {
        Some(v) => Some(v@),
        None => None,
    }
}

/// Whether the header step fails (the failure is only logged).
pub open spec fn header_step_fails(hs: HeadersV, name: Seq<char>, value: Option<Seq<char>>, e: EnvV) -> bool {
    match header_name_norm(name) {
        None => true,
        Some(_) => match value {
            None => false,
            Some(t) => match substituted(t, hs, e, Seq::empty()) {
                Err(_) => true,
                Ok(_) => false,
            },
        },
    }
}

/// The message of the error of a failed header step: the header name is
/// invalid, a placeholder does not close, or the substituted value is no
/// valid header value.
pub open spec fn header_error(hs: HeadersV, name: Seq<char>, value: Option<Seq<char>>, e: EnvV) -> Seq<char> {
    match header_name_norm(name) {
        None => "HTTP error: invalid HTTP header name"@,
        Some(_) => match value {
            Some(t) => match substituted(t, hs, e, Seq::empty()) {
                Err(m) => "Directive error: "@ + m,
                Ok(_) => "HTTP error: failed to parse header value"@,
            },
            None => Seq::empty(),
        },
    }
}

/// Whether the value is refused once substituted with `u`.
pub open spec fn header_value_refused(
    hs: HeadersV,
    name: Seq<char>,
    value: Option<Seq<char>>,
    e: EnvV,
    u: Seq<char>,
) -> bool {
    &&& header_name_norm(name) is Some
    &&& value is Some
    &&& substituted(value->0, hs, e, u) matches Ok(v) && !value_ok(encode_utf8(v))
}

/// Whether substitution succeeds does not depend on the UUID, nor does what
/// a step that draws none does.
pub proof fn lemma_effect_uuid_free(
    hs: HeadersV,
    name: Seq<char>,
    value: Option<Seq<char>>,
    e: EnvV,
    u1: Seq<char>,
    u2: Seq<char>,
)
    ensures
        header_effect(hs, name, value, e, u1).1 == header_effect(hs, name, value, e, u2).1,
        !header_effect(hs, name, value, e, u1).1 ==> header_effect(hs, name, value, e, u1)
            == header_effect(hs, name, value, e, u2),
        value is Some ==> (substituted(value->0, hs, e, u1) is Ok) == (substituted(
            value->0,
            hs,
            e,
            u2,
        ) is Ok),
{
    if let Some(t) = value {
        lemma_substituted_uuid_free(t, hs, e, u1, u2);
    }
}

/// `header Name value` with a value that has no placeholder and is a valid
/// header value: afterwards the request's `Name` header is that value.
pub proof fn lemma_static_header(hs: HeadersV, name: Seq<char>, t: Seq<char>, e: EnvV, u: Seq<char>)
    requires
        header_name_norm(name) is Some,
        forall|k: int| 0 <= k < t.len() ==> t[k] != '{',
        value_ok(encode_utf8(t)),
    ensures
        header_get(header_effect(hs, name, Some(t), e, u).0, name) == Some(encode_utf8(t)),
{
    lemma_plain_value_unchanged(t, hs, e, u);
    lemma_set_then_get(hs, header_name_norm(name)->0, encode_utf8(t));
}

/// `header -Name`: afterwards the request has no `Name` header.
pub proof fn lemma_removed_header(hs: HeadersV, name: Seq<char>, e: EnvV, u: Seq<char>)
    ensures
        header_get(header_effect(hs, name, None, e, u).0, name) is None,
{
    match header_name_norm(name) {
        Some(n) => lemma_remove_then_get(hs, n, n),
        None => {},
    }
}

/// `strip_prefix`: when the prefix matched, and whenever the path started
/// with `/`, the result starts with `/`.
pub proof fn lemma_strip_prefix_rooted(path: Seq<char>, prefix: Seq<char>)
    ensures
        prefix.is_prefix_of(path) || (path.len() > 0 && path[0] == '/') ==> stripped_path(
            path,
            prefix,
        ).len() > 0 && stripped_path(path, prefix)[0] == '/',
{
    if prefix.is_prefix_of(path) {
        let rest = path.skip(prefix.len() as int);
        if rest.len() == 0 || rest[0] != '/' {
            assert((seq!['/'] + rest)[0] == '/');
        }
    }
}

/// `header name value`: sets the request header `name` to `value` with its
/// placeholders replaced, or removes it when `value` is `None`. Fails,
/// leaving the request unchanged, for an invalid header name, an unclosed
/// placeholder or a substituted value that is not a valid header value.
pub fn handle_header(name: &str, value: Option<&str>, req: &mut RequestHead, env: &EnvVars) -> (r:
    Result<(), ProxyError>)
    requires
        old(req).headers.wf(),
    ensures
        final(req).headers.wf(),
        final(req).method == old(req).method,
        exists|u: Seq<char>|
            is_uuid_text(u) && #[trigger] header_effect(
                old(req).headers@,
                name@,
                opt_text(value),
                env@,
                u,
            ).0 == final(req).headers@ && (r is Err) == (header_step_fails(
                old(req).headers@,
                name@,
                opt_text(value),
                env@,
            ) || header_value_refused(
                old(req).headers@,
                name@,
                opt_text(value),
                env@,
                u,
            )),
        r matches Err(err) ==> err.spec_message() == header_error(
            old(req).headers@,
            name@,
            opt_text(value),
            env@,
        ),
{
    let ghost vv = opt_text(value);
    let ghost hs = req.headers@;
    let ghost any_uuid = Seq::new(36, |i: int| if i == 8 || i == 13 || i == 18 || i == 23 { '-' } else if i == 14 { '4' } else if i == 19 { '8' } else { '0' });
    assert(is_uuid_text(any_uuid));
    match normalize_header_name(name) {
        None => {
            assert(header_effect(hs, name@, vv, env@, any_uuid).0 == req.headers@);
            proof {
                reveal_strlit("HTTP error: ");
                reveal_strlit("invalid HTTP header name");
                reveal_strlit("HTTP error: invalid HTTP header name");
                assert("HTTP error: "@ + "invalid HTTP header name"@ =~= "HTTP error: invalid HTTP header name"@);
            }
            Err(ProxyError::Http("invalid HTTP header name".to_owned()))
        },
        Some(n) => match value {
            None => {
                req.headers.remove(name);
                assert(header_effect(hs, name@, vv, env@, any_uuid).0 == req.headers@);
                Ok(())
            },
            Some(t) => {
                match process_header_substitution(t, &req.headers, env) {
                    Err(e) => {
                        proof {
                            lemma_effect_uuid_free(hs, name@, vv, env@, Seq::empty(), any_uuid);
                        }
                        assert(header_effect(hs, name@, vv, env@, any_uuid).0 == req.headers@);
                        Err(e)
                    },
                    Ok(s) => {
                        let ghost u = choose|u: Seq<char>|
                            is_uuid_text(u) && #[trigger] substituted(t@, hs, env@, u) == Ok::<
                                Seq<char>,
                                Seq<char>,
                            >(s@);
                        let bytes = utf8_bytes(s.as_str());
                        if value_bytes_ok(bytes.as_slice()) {
                            req.headers.set_norm(n.as_str(), bytes);
                            assert(header_effect(hs, name@, vv, env@, u).0 == req.headers@);
                            Ok(())
                        } else {
                            assert(header_effect(hs, name@, vv, env@, u).0 == req.headers@);
                            proof {
                                reveal_strlit("HTTP error: ");
                                reveal_strlit("failed to parse header value");
                                reveal_strlit("HTTP error: failed to parse header value");
                                assert("HTTP error: "@ + "failed to parse header value"@ =~= "HTTP error: failed to parse header value"@);
                            }
                            Err(ProxyError::Http("failed to parse header value".to_owned()))
                        }
                    },
                }
            },
        },
    }
}

/// A `header_up` value with the upstream placeholders replaced:
/// `{upstream_host}` by the backend's authority, `{request.uri}` by the URI
/// of the incoming request and `{remote_ip}` by the client's address.
pub open spec fn upstream_filled(
    t: Seq<char>,
    upstream_host: Seq<char>,
    request_uri: Seq<char>,
    remote_ip: Seq<char>,
) -> Seq<char> {
    replace_all(
        replace_all(replace_all(t, "{upstream_host}"@, upstream_host), "{request.uri}"@, request_uri),
        "{remote_ip}"@,
        remote_ip,
    )
}

/// What the `header_up` operations `ops` do to the headers `hs` of the
/// backend request, in order: each is a `header` step (see
/// [`header_effect`]) on its value with the upstream placeholders replaced
/// first; the `k`-th operation's `{uuid}` stands for `us[k]`.
pub open spec fn header_up_effect(
    hs: HeadersV,
    ops: Seq<HeaderOpV>,
    upstream_host: Seq<char>,
    request_uri: Seq<char>,
    remote_ip: Seq<char>,
    e: EnvV,
    us: Seq<Seq<char>>,
) -> HeadersV
    decreases ops.len(),
{
    if ops.len() == 0 {
        hs
    } else {
        let before = header_up_effect(
            hs,
            ops.drop_last(),
            upstream_host,
            request_uri,
            remote_ip,
            e,
            us,
        );
        let op = ops.last();
        let value = match op.1 {
            Some(t) => Some(upstream_filled(t, upstream_host, request_uri, remote_ip)),
            None => None,
        };
        header_effect(before, op.0, value, e, us[ops.len() - 1]).0
    }
}

/// The value of a `header_up` operation with the upstream placeholders
/// replaced (see [`upstream_filled`]).
fn fill_upstream(value: &str, upstream_host: &str, request_uri: &str, remote_ip: &str) -> (r: String)
    ensures
        r@ == upstream_filled(value@, upstream_host@, request_uri@, remote_ip@),
{
    let v = chars_of(value);
    let p1 = chars_of("{upstream_host}");
    let r1 = chars_of(upstream_host);
    let s1 = replace_text(v.as_slice(), p1.as_slice(), r1.as_slice());
    let p2 = chars_of("{request.uri}");
    let r2 = chars_of(request_uri);
    let s2 = replace_text(s1.as_slice(), p2.as_slice(), r2.as_slice());
    let p3 = chars_of("{remote_ip}");
    let r3 = chars_of(remote_ip);
    let s3 = replace_text(s2.as_slice(), p3.as_slice(), r3.as_slice());
    string_of(s3.as_slice())
}

/// Applies the `header_up` operations of a `reverse_proxy` to the request
/// that goes to the backend, in order: each sets its header to its value
/// with the placeholders replaced (`{upstream_host}`, `{request.uri}`,
/// `{remote_ip}`, then those of a `header` directive), or removes the
/// header when it has no value. An operation that fails (invalid name,
/// unclosed placeholder, invalid value) is skipped. Each `{uuid}` draws a
/// random UUID, so the result is pinned down up to them.
pub fn apply_header_up(
    ops: &[HeaderDirective],
    req: &mut RequestHead,
    upstream_host: &str,
    request_uri: &str,
    remote_ip: &str,
    env: &EnvVars,
)
    requires
        old(req).headers.wf(),
    ensures
        final(req).headers.wf(),
        final(req).method == old(req).method,
        exists|us: Seq<Seq<char>>|
            us.len() == ops@.len() && (forall|k: int| 0 <= k < us.len() ==> is_uuid_text(#[trigger] us[k]))
                && final(req).headers@ == header_up_effect(
                old(req).headers@,
                header_ops_view(ops@),
                upstream_host@,
                request_uri@,
                remote_ip@,
                env@,
                us,
            ),
{
    let ghost hs0 = req.headers@;
    let ghost mut us: Seq<Seq<char>> = Seq::empty();
    let mut i: usize = 0;
    while i < ops.len()
        invariant
            i <= ops@.len(),
            us.len() == i,
            forall|k: int| 0 <= k < us.len() ==> is_uuid_text(#[trigger] us[k]),
            req.headers.wf(),
            req.method == old(req).method,
            hs0 == old(req).headers@,
            req.headers@ == header_up_effect(
                hs0,
                header_ops_view(ops@).take(i as int),
                upstream_host@,
                request_uri@,
                remote_ip@,
                env@,
                us,
            ),
        decreases ops@.len() - i,
    {
        let ghost before = req.headers@;
        let op = &ops[i];
        let filled: Option<String> = match &op.value {
            Some(v) => Some(fill_upstream(v.as_str(), upstream_host, request_uri, remote_ip)),
            None => None,
        };
        let value: Option<&str> = match &filled {
            Some(f) => Some(f.as_str()),
            None => None,
        };
        let _ = handle_header(op.name.as_str(), value, req, env);
        proof {
            let u = choose|u: Seq<char>|
                is_uuid_text(u) && #[trigger] header_effect(before, op.name@, opt_text(value), env@, u).0
                    == req.headers@;
            let ghost old_us = us;
            us = us.push(u);
            let ov = header_ops_view(ops@);
            assert(ov.take(i + 1).drop_last() =~= ov.take(i as int));
            assert(ov.take(i + 1).last() == ov[i as int]);
            assert(ov[i as int] == (op.name@, opt_string_view(op.value)));
            assert(opt_text(value) == (match ov[i as int].1 {
                Some(t) => Some(upstream_filled(t, upstream_host@, request_uri@, remote_ip@)),
                None => None,
            }));
            lemma_header_up_effect_prefix(hs0, ov.take(i as int), upstream_host@, request_uri@, remote_ip@, env@, old_us, us);
        }
        i = i + 1;
    }
    proof {
        assert(header_ops_view(ops@).take(ops@.len() as int) =~= header_ops_view(ops@));
    }
}

/// A `header_up` operation that sets a plain value (without `{`, valid as
/// a header value) under a valid name leaves the backend request's header
/// at that value, whatever came before it.
pub proof fn lemma_header_up_sets(
    hs: HeadersV,
    ops: Seq<HeaderOpV>,
    name: Seq<char>,
    t: Seq<char>,
    upstream_host: Seq<char>,
    request_uri: Seq<char>,
    remote_ip: Seq<char>,
    e: EnvV,
    us: Seq<Seq<char>>,
)
    requires
        ops.len() > 0,
        ops.last() == (name, Some(t)),
        header_name_norm(name) is Some,
        forall|k: int| 0 <= k < t.len() ==> t[k] != '{',
        value_ok(encode_utf8(t)),
    ensures
        header_get(header_up_effect(hs, ops, upstream_host, request_uri, remote_ip, e, us), name)
            == Some(encode_utf8(t)),
{
    reveal_strlit("{upstream_host}");
    reveal_strlit("{request.uri}");
    reveal_strlit("{remote_ip}");
    lemma_replace_absent(t, "{upstream_host}"@, upstream_host);
    lemma_replace_absent(t, "{request.uri}"@, request_uri);
    lemma_replace_absent(t, "{remote_ip}"@, remote_ip);
    assert(upstream_filled(t, upstream_host, request_uri, remote_ip) == t);
    let before = header_up_effect(hs, ops.drop_last(), upstream_host, request_uri, remote_ip, e, us);
    lemma_static_header(before, name, t, e, us[ops.len() - 1]);
}

/// A `header_up` operation without a value removes the header from the
/// backend request, whatever came before it.
pub proof fn lemma_header_up_removes(
    hs: HeadersV,
    ops: Seq<HeaderOpV>,
    name: Seq<char>,
    upstream_host: Seq<char>,
    request_uri: Seq<char>,
    remote_ip: Seq<char>,
    e: EnvV,
    us: Seq<Seq<char>>,
)
    requires
        ops.len() > 0,
        ops.last() == (name, None::<Seq<char>>),
    ensures
        header_get(header_up_effect(hs, ops, upstream_host, request_uri, remote_ip, e, us), name) is None,
{
    let before = header_up_effect(hs, ops.drop_last(), upstream_host, request_uri, remote_ip, e, us);
    lemma_removed_header(before, name, e, us[ops.len() - 1]);
}

/// Only the UUIDs of the operations that ran matter.
proof fn lemma_header_up_effect_prefix(
    hs: HeadersV,
    ops: Seq<HeaderOpV>,
    upstream_host: Seq<char>,
    request_uri: Seq<char>,
    remote_ip: Seq<char>,
    e: EnvV,
    us1: Seq<Seq<char>>,
    us2: Seq<Seq<char>>,
)
    requires
        ops.len() <= us1.len(),
        ops.len() <= us2.len(),
        forall|k: int| 0 <= k < ops.len() ==> us1[k] == us2[k],
    ensures
        header_up_effect(hs, ops, upstream_host, request_uri, remote_ip, e, us1) == header_up_effect(
            hs,
            ops,
            upstream_host,
            request_uri,
            remote_ip,
            e,
            us2,
        ),
    decreases ops.len(),
{
    if ops.len() > 0 {
        lemma_header_up_effect_prefix(hs, ops.drop_last(), upstream_host, request_uri, remote_ip, e, us1, us2);
    }
}

/// `uri_replace find replace` on the path.
pub fn handle_uri_replace(find: &str, replace: &str, path: &mut String)
    ensures
        final(path)@ == replace_all(old(path)@, find@, replace@),
{
    let s = chars_of(path.as_str());
    let f = chars_of(find);
    let r = chars_of(replace);
    let out = replace_text(s.as_slice(), f.as_slice(), r.as_slice());
    *path = string_of(out.as_slice());
}

/// The path once `prefix` is stripped from it: unchanged when it does not
/// start with `prefix`; otherwise the rest, with a `/` put in front when
/// the rest does not start with one.
pub open spec fn stripped_path(path: Seq<char>, prefix: Seq<char>) -> Seq<char> {
    if prefix.is_prefix_of(path) {
        let rest = path.skip(prefix.len() as int);
        if rest.len() == 0 || rest[0] != '/' {
            seq!['/'] + rest
        } else {
            rest
        }
    } else {
        path
    }
}

/// `strip_prefix prefix`: removes `prefix` from the path, which keeps a
/// leading `/`.
pub fn handle_strip_prefix(prefix: &str, path: &mut String)
    ensures
        final(path)@ == stripped_path(old(path)@, prefix@),
{
    let s = chars_of(path.as_str());
    let p = chars_of(prefix);
    if has_prefix(s.as_slice(), p.as_slice()) {
        let mut out: Vec<char> = Vec::new();
        let n = p.len();
        if n == s.len() || s[n] != '/' {
            out.push('/');
        }
        let mut i = n;
        let ghost start = out@;
        while i < s.len()
            invariant
                n <= i <= s@.len(),
                out@ == start + s@.subrange(n as int, i as int),
            decreases s@.len() - i,
        {
            out.push(s[i]);
            i = i + 1;
            assert(out@ =~= start + s@.subrange(n as int, i as int));
        }
        assert(s@.subrange(n as int, s@.len() as int) =~= s@.skip(n as int));
        *path = string_of(out.as_slice());
    }
}

/// Whether `method` is one of `methods`, ignoring ASCII case.
pub open spec fn method_listed(methods: Seq<Seq<char>>, method: Seq<char>) -> bool {
    exists|i: int| 0 <= i < methods.len() && eq_ci(#[trigger] methods[i], method)
}

/// `method M...`: whether the request method is listed.
pub fn handle_method(methods: &[String], method: &str) -> (b: bool)
    ensures
        b == method_listed(methods@.map_values(|m: String| m@), method@),
{
    let ghost ms = methods@.map_values(|m: String| m@);
    let m = chars_of(method);
    let mut i: usize = 0;
    while i < methods.len()
        invariant
            i <= methods@.len(),
            ms == methods@.map_values(|m: String| m@),
            m@ == method@,
            forall|k: int| 0 <= k < i ==> !eq_ci(#[trigger] ms[k], method@),
        decreases methods@.len() - i,
    {
        let c = chars_of(methods[i].as_str());
        if same_ci(c.as_slice(), m.as_slice()) {
            assert(eq_ci(ms[i as int], method@));
            return true;
        }
        i = i + 1;
    }
    false
}

} // verus!
