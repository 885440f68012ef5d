//! Routing a request through a site's directives, and finding the site.

use vstd::prelude::*;
use crate::config::models::{copy_header_ops, 
    distinct_addresses, lemma_site_index_unique, SiteV, dir_view, dirs_view, lemma_dirs_view_inner, site_index, Config, Directive, DirectiveV,
    SiteConfig,
};
use crate::outside::is_uuid_text;
use crate::proxy::directives::{
    handle_header, handle_method, handle_redirect, handle_respond, handle_reverse_proxy,
    handle_strip_prefix, handle_uri_replace, header_effect,
    lemma_effect_uuid_free, method_listed, opt_text, stripped_path,
};
use crate::proxy::request::{EnvV, EnvVars, HeadersV, RequestHead};
use crate::proxy::types::{ActionResult, ActionV};
use crate::text::{chars_of, copy_range, eq_ci, find_from, find_text, has_prefix, replace_all, string_of};

verus! {

broadcast use vstd::string::group_string_axioms;

/// `handle_path` matching: a pattern ending in `/*` matches the paths that
/// start with what comes before the `/*`, and leaves the rest of the path;
/// any other pattern matches only the same path, and leaves `/`.
pub open spec fn pattern_match(pattern: Seq<char>, path: Seq<char>) -> Option<Seq<char>> {
    if pattern.len() >= 2 && pattern[pattern.len() - 2] == '/' && pattern[pattern.len() - 1] == '*' {
        let prefix = pattern.take(pattern.len() - 2);
        if prefix.is_prefix_of(path) {
            Some(path.skip(prefix.len() as int))
        } else {
            None
        }
    } else if pattern == path {
        Some(seq!['/'])
    } else {
        None
    }
}

/// Matches `path` against `pattern` (see [`pattern_match`]).
pub fn match_pattern(pattern: &str, path: &str) -> (r: Option<String>)
    ensures
        match pattern_match(pattern@, path@) {
            Some(rest) => r matches Some(s) && s@ == rest,
            None => r is None,
        },
{
    let p = chars_of(pattern);
    let s = chars_of(path);
    let n = p.len();
    if n >= 2 && p[n - 2] == '/' && p[n - 1] == '*' {
        let prefix = copy_range(p.as_slice(), 0, n - 2);
        assert(p@.subrange(0, n - 2) =~= p@.take(n - 2));
        if has_prefix(s.as_slice(), prefix.as_slice()) {
            let rest = copy_range(s.as_slice(), prefix.len(), s.len());
            assert(s@.subrange(prefix@.len() as int, s@.len() as int) =~= s@.skip(prefix@.len() as int));
            Some(string_of(rest.as_slice()))
        } else {
            None
        }
    } else {
        if crate::text::same_chars(p.as_slice(), s.as_slice()) {
            let mut r = String::new();
            crate::text::push_char(&mut r, '/');
            assert(r@ =~= seq!['/']);
            Some(r)
        } else {
            None
        }
    }
}

/// A `handle_path` wildcard match leaves what follows the pattern's prefix:
/// prefix and rest give back the path. A pattern without the wildcard
/// matches itself and leaves `/`.
pub proof fn lemma_pattern_match_rest(pattern: Seq<char>, path: Seq<char>)
    ensures
        pattern.len() >= 2 && pattern[pattern.len() - 2] == '/' && pattern[pattern.len() - 1] == '*'
            ==> match pattern_match(pattern, path) {
            Some(rest) => pattern.take(pattern.len() - 2) + rest == path,
            None => !pattern.take(pattern.len() - 2).is_prefix_of(path),
        },
        !(pattern.len() >= 2 && pattern[pattern.len() - 2] == '/' && pattern[pattern.len() - 1]
            == '*') ==> pattern_match(pattern, pattern) == Some(seq!['/']),
{
    if pattern.len() >= 2 && pattern[pattern.len() - 2] == '/' && pattern[pattern.len() - 1] == '*' {
        let prefix = pattern.take(pattern.len() - 2);
        if prefix.is_prefix_of(path) {
            assert(prefix + path.skip(prefix.len() as int) =~= path);
        }
    }
}

/// A UUID in its displayed form (all zeros), used where a run draws more
/// UUIDs than it was given.
pub open spec fn default_uuid() -> Seq<char> {
    Seq::new(36, |i: int| if i == 8 || i == 13 || i == 18 || i == 23 { '-' } else if i == 14 { '4' } else if i == 19 { '8' } else { '0' })
}

pub open spec fn next_uuid(us: Seq<Seq<char>>) -> Seq<char> {
    if us.len() > 0 {
        us[0]
    } else {
        default_uuid()
    }
}

pub open spec fn rest_uuids(us: Seq<Seq<char>>) -> Seq<Seq<char>> {
    if us.len() > 0 {
        us.drop_first()
    } else {
        us
    }
}

/// Every entry is a UUID in its displayed form.
pub open spec fn all_uuids(us: Seq<Seq<char>>) -> bool {
    forall|j: int| 0 <= j < us.len() ==> is_uuid_text(#[trigger] us[j])
}

pub open spec fn no_action_text(path: Seq<char>) -> Seq<char> {
    "No action directive (respond or reverse_proxy) found in configuration for path: "@ + path
}

/// Directive processing from the `i`-th directive of `dirs`: `cur` is the
/// path this block was entered with, `path` the path as rewritten so far,
/// `hs` the request headers so far; `us` are the UUIDs that `{uuid}`
/// placeholders draw, in order. The result is the action (or the error for
/// a block without one) with the headers at that point.
///
/// Header, `uri_replace` and `strip_prefix` directives change the request
/// and go on; a matching `handle_path` or `method` block is entered and
/// decides (its path is what the pattern left, or the current path); a
/// block that does not match is skipped; `respond`, `reverse_proxy` and
/// `redirect` end processing.
pub open spec fn route(
    dirs: Seq<DirectiveV>,
    i: int,
    cur: Seq<char>,
    path: Seq<char>,
    method: Seq<char>,
    hs: HeadersV,
    e: EnvV,
    us: Seq<Seq<char>>,
) -> (Result<ActionV, Seq<char>>, HeadersV)
    decreases dirs, dirs.len() - i,
{
    if i < 0 || i >= dirs.len() {
        (Err(no_action_text(cur)), hs)
    } else {
        match dirs[i] {
            DirectiveV::Header { name, value } => {
                let step = header_effect(hs, name, value, e, next_uuid(us));
                route(
                    dirs,
                    i + 1,
                    cur,
                    path,
                    method,
                    step.0,
                    e,
                    if step.1 {
                        rest_uuids(us)
                    } else {
                        us
                    },
                )
            },
            DirectiveV::UriReplace { find, replace } => route(
                dirs,
                i + 1,
                cur,
                replace_all(path, find, replace),
                method,
                hs,
                e,
                us,
            ),
            DirectiveV::StripPrefix { prefix } => route(
                dirs,
                i + 1,
                cur,
                stripped_path(path, prefix),
                method,
                hs,
                e,
                us,
            ),
            DirectiveV::HandlePath { pattern, directives } => match pattern_match(pattern, path) {
                Some(rest) => route(directives, 0, rest, rest, method, hs, e, us),
                None => route(dirs, i + 1, cur, path, method, hs, e, us),
            },
            DirectiveV::Method { methods, directives } => if method_listed(methods, method) {
                route(directives, 0, path, path, method, hs, e, us)
            } else {
                route(dirs, i + 1, cur, path, method, hs, e, us)
            },
            DirectiveV::Respond { status, body } => (Ok(ActionV::Respond { status, body }), hs),
            DirectiveV::ReverseProxy { to, connect_timeout, read_timeout, header_up } => (
                Ok(
                    ActionV::ReverseProxy {
                        backend_url: to,
                        path_to_send: path,
                        connect_timeout,
                        read_timeout,
                        header_up,
                    },
                ),
                hs,
            ),
            DirectiveV::Redirect { status, url } => (Ok(ActionV::Redirect { status, url }), hs),
        }
    }
}

/// Running from index `j + 1` of `dirs` is running from index `j` of `dirs`
/// with an earlier directive (at `i <= j`) taken out.
proof fn lemma_route_without(
    dirs: Seq<DirectiveV>,
    i: int,
    j: int,
    cur: Seq<char>,
    path: Seq<char>,
    method: Seq<char>,
    hs: HeadersV,
    e: EnvV,
    us: Seq<Seq<char>>,
)
    requires
        0 <= i <= j,
        i < dirs.len(),
    ensures
        route(dirs, j + 1, cur, path, method, hs, e, us) == route(
            dirs.remove(i),
            j,
            cur,
            path,
            method,
            hs,
            e,
            us,
        ),
    decreases dirs.len() - j,
{
    let rest = dirs.remove(i);
    if j + 1 < dirs.len() {
        assert(rest[j] == dirs[j + 1]);
        match dirs[j + 1] {
            DirectiveV::Header { name, value } => {
                let step = header_effect(hs, name, value, e, next_uuid(us));
                lemma_route_without(dirs, i, j + 1, cur, path, method, step.0, e, if step.1 {
                    rest_uuids(us)
                } else {
                    us
                });
            },
            DirectiveV::UriReplace { find, replace } => {
                lemma_route_without(dirs, i, j + 1, cur, replace_all(path, find, replace), method, hs, e, us);
            },
            DirectiveV::StripPrefix { prefix } => {
                lemma_route_without(dirs, i, j + 1, cur, stripped_path(path, prefix), method, hs, e, us);
            },
            DirectiveV::HandlePath { pattern, directives } => {
                lemma_route_without(dirs, i, j + 1, cur, path, method, hs, e, us);
            },
            DirectiveV::Method { methods, directives } => {
                lemma_route_without(dirs, i, j + 1, cur, path, method, hs, e, us);
            },
            _ => {},
        }
    }
}

/// A `handle_path` block decides by its pattern alone. When the pattern
/// matches the path, what is left of the path is handed to the block's own
/// directives and nothing after the block runs; when it does not match, the
/// block is passed over: the result is that of the directives without it.
pub proof fn lemma_handle_path_block(
    dirs: Seq<DirectiveV>,
    i: int,
    cur: Seq<char>,
    path: Seq<char>,
    method: Seq<char>,
    hs: HeadersV,
    e: EnvV,
    us: Seq<Seq<char>>,
)
    requires
        0 <= i < dirs.len(),
        dirs[i] is HandlePath,
    ensures
        pattern_match(dirs[i]->HandlePath_pattern, path) matches Some(rest) ==> route(
            dirs,
            i,
            cur,
            path,
            method,
            hs,
            e,
            us,
        ) == route(dirs[i]->HandlePath_directives, 0, rest, rest, method, hs, e, us),
        pattern_match(dirs[i]->HandlePath_pattern, path) is None ==> route(
            dirs,
            i,
            cur,
            path,
            method,
            hs,
            e,
            us,
        ) == route(dirs.remove(i), i, cur, path, method, hs, e, us),
{
    lemma_route_without(dirs, i, i, cur, path, method, hs, e, us);
}

/// A `method` block is entered exactly when the request method is one of
/// its listed methods, at any position, ignoring ASCII case: then its own
/// directives decide, on the current path; otherwise the block is passed
/// over: the result is that of the directives without it.
pub proof fn lemma_method_block(
    dirs: Seq<DirectiveV>,
    i: int,
    cur: Seq<char>,
    path: Seq<char>,
    method: Seq<char>,
    hs: HeadersV,
    e: EnvV,
    us: Seq<Seq<char>>,
)
    requires
        0 <= i < dirs.len(),
        dirs[i] is Method,
    ensures
        (exists|k: int|
            0 <= k < dirs[i]->Method_methods.len() && eq_ci(
                #[trigger] dirs[i]->Method_methods[k],
                method,
            )) ==> route(dirs, i, cur, path, method, hs, e, us) == route(
            dirs[i]->Method_directives,
            0,
            path,
            path,
            method,
            hs,
            e,
            us,
        ),
        !(exists|k: int|
            0 <= k < dirs[i]->Method_methods.len() && eq_ci(
                #[trigger] dirs[i]->Method_methods[k],
                method,
            )) ==> route(dirs, i, cur, path, method, hs, e, us) == route(
            dirs.remove(i),
            i,
            cur,
            path,
            method,
            hs,
            e,
            us,
        ),
{
    lemma_route_without(dirs, i, i, cur, path, method, hs, e, us);
}

pub open spec fn result_view(r: Result<ActionResult, String>) -> Result<ActionV, Seq<char>> {
    match r {
        Ok(a) => Ok(a@),
        Err(s) => Err(s@),
    }
}

proof fn lemma_all_uuids_concat(a: Seq<Seq<char>>, b: Seq<Seq<char>>)
    requires
        all_uuids(a),
        all_uuids(b),
    ensures
        all_uuids(a + b),
{
    assert forall|j: int| 0 <= j < (a + b).len() implies is_uuid_text(#[trigger] (a + b)[j]) by {
        if j < a.len() {
            assert((a + b)[j] == a[j]);
        } else {
            assert((a + b)[j] == b[j - a.len()]);
        }
    }
}

fn no_action_error(path: &str) -> (s: String)
    ensures
        s@ == no_action_text(path@),
{
    let mut s = "No action directive (respond or reverse_proxy) found in configuration for path: ".to_owned();
    s.append(path);
    s
}

/// Processes the directives in order, applying header and path rewrites,
/// entering matching `handle_path` and `method` blocks, and returning the
/// action that ends processing (see [`route`]); an error names the path of
/// a block that has no action. Header failures are skipped. `env` is what
/// `{env.VAR}` placeholders read; each `{uuid}` substitution draws a random
/// UUID, so the result is pinned down up to the UUIDs drawn.
pub fn process_directives(
    directives: &[Directive],
    req: &mut RequestHead,
    current_path: &str,
    env: &EnvVars,
) -> (r: Result<ActionResult, String>)
    requires
        old(req).headers.wf(),
    ensures
        final(req).headers.wf(),
        final(req).method == old(req).method,
        exists|us: Seq<Seq<char>>|
            all_uuids(us) && #[trigger] route(
                dirs_view(directives@),
                0,
                current_path@,
                current_path@,
                old(req).method@,
                old(req).headers@,
                env@,
                us,
            ) == (result_view(r), final(req).headers@),
    decreases directives@,
{
    let ghost dv = dirs_view(directives@);
    let ghost cur = current_path@;
    let ghost m = req.method@;
    let ghost hs0 = req.headers@;
    let ghost e = env@;
    let ghost mut drawn: Seq<Seq<char>> = Seq::empty();
    let mut path = current_path.to_owned();
    let mut i: usize = 0;
    proof {
        assert forall|us: Seq<Seq<char>>| all_uuids(us) implies #[trigger] route(
            dv,
            0,
            cur,
            cur,
            m,
            hs0,
            e,
            drawn + us,
        ) == route(dv, 0, cur, path@, m, req.headers@, e, us) by {
            assert(drawn + us =~= us);
        }
    }
    while i < directives.len()
        invariant
            dv == dirs_view(directives@),
            cur == current_path@,
            e == env@,
            m == req.method@,
            m == old(req).method@,
            req.method == old(req).method,
            hs0 == old(req).headers@,
            req.headers.wf(),
            i <= directives@.len(),
            all_uuids(drawn),
            forall|us: Seq<Seq<char>>|
                all_uuids(us) ==> #[trigger] route(dv, 0, cur, cur, m, hs0, e, drawn + us)
                    == route(dv, i as int, cur, path@, m, req.headers@, e, us),
        decreases directives@.len() - i,
    {
        let ghost hs = req.headers@;
        let ghost p = path@;
        proof {
            assert(dv[i as int] == dir_view(directives@[i as int]));
        }
        match &directives[i] {
            Directive::Header { name, value } => {
                let v: Option<&str> = match value {
                    Some(s) => Some(s.as_str()),
                    None => None,
                };
                assert(opt_text(v) == dv[i as int]->Header_value);
                let _ = handle_header(name.as_str(), v, req, env);
                proof {
                    let u = choose|u: Seq<char>|
                        is_uuid_text(u) && #[trigger] header_effect(hs, name@, opt_text(v), e, u).0
                            == req.headers@;
                    let drew = header_effect(hs, name@, opt_text(v), e, u).1;
                    let old_drawn = drawn;
                    if drew {
                        drawn = drawn.push(u);
                        assert(all_uuids(drawn));
                    }
                    assert forall|us: Seq<Seq<char>>| all_uuids(us) implies #[trigger] route(
                        dv,
                        0,
                        cur,
                        cur,
                        m,
                        hs0,
                        e,
                        drawn + us,
                    ) == route(dv, i + 1, cur, p, m, req.headers@, e, us) by {
                        if drew {
                            let us2 = seq![u] + us;
                            assert(all_uuids(us2)) by {
                                assert forall|j: int| 0 <= j < us2.len() implies is_uuid_text(
                                    #[trigger] us2[j],
                                ) by {
                                    if j > 0 {
                                        assert(us2[j] == us[j - 1]);
                                    }
                                }
                            }
                            assert(drawn + us =~= old_drawn + us2);
                            assert(next_uuid(us2) == u);
                            assert(rest_uuids(us2) =~= us);
                        } else {
                            lemma_effect_uuid_free(hs, name@, opt_text(v), e, u, next_uuid(us));
                        }
                    }
                }
            },
            Directive::UriReplace { find, replace } => {
                handle_uri_replace(find.as_str(), replace.as_str(), &mut path);
            },
            Directive::StripPrefix { prefix } => {
                handle_strip_prefix(prefix.as_str(), &mut path);
            },
            Directive::HandlePath { pattern, directives: nested } => {
                proof {
                    lemma_dirs_view_inner(directives@[i as int]);
                }
                match match_pattern(pattern.as_str(), path.as_str()) {
                    Some(rest) => {
                        let ghost nv = dirs_view(nested@);
                        proof {
                            assert(decreases_to!(directives@ => directives@[i as int]));
                        }
                        let r = process_directives(nested.as_slice(), req, rest.as_str(), env);
                        proof {
                            let d2 = choose|us: Seq<Seq<char>>|
                                all_uuids(us) && #[trigger] route(nv, 0, rest@, rest@, m, hs, e, us)
                                    == (result_view(r), req.headers@);
                            lemma_all_uuids_concat(drawn, d2);
                            assert(route(dv, 0, cur, cur, m, hs0, e, drawn + d2) == (result_view(r), req.headers@));
                        }
                        return r;
                    },
                    None => {},
                }
            },
            Directive::Method { methods, directives: nested } => {
                proof {
                    lemma_dirs_view_inner(directives@[i as int]);
                }
                assert(dv[i as int]->Method_methods == methods@.map_values(|s: String| s@));
                if handle_method(methods.as_slice(), req.method.as_str()) {
                    let ghost nv = dirs_view(nested@);
                    proof {
                        assert(decreases_to!(directives@ => directives@[i as int]));
                    }
                    let r = process_directives(nested.as_slice(), req, path.as_str(), env);
                    proof {
                        let d2 = choose|us: Seq<Seq<char>>|
                            all_uuids(us) && #[trigger] route(nv, 0, p, p, m, hs, e, us) == (
                                result_view(r),
                                req.headers@,
                            );
                        lemma_all_uuids_concat(drawn, d2);
                        assert(route(dv, 0, cur, cur, m, hs0, e, drawn + d2) == (result_view(r), req.headers@));
                    }
                    return r;
                }
            },
            Directive::Respond { status, body } => {
                let a = handle_respond(status, body.as_str());
                proof {
                    let empty = Seq::<Seq<char>>::empty();
                    assert(drawn + empty =~= drawn);
                    assert(route(dv, 0, cur, cur, m, hs0, e, drawn + empty) == (result_view(Ok::<ActionResult, String>(a)), req.headers@));
                }
                return Ok(a);
            },
            Directive::ReverseProxy { to, connect_timeout, read_timeout, header_up } => {
                let a = handle_reverse_proxy(
                    to.as_str(),
                    path.as_str(),
                    *connect_timeout,
                    *read_timeout,
                    copy_header_ops(header_up),
                );
                proof {
                    let empty = Seq::<Seq<char>>::empty();
                    assert(drawn + empty =~= drawn);
                    assert(route(dv, 0, cur, cur, m, hs0, e, drawn + empty) == (result_view(Ok::<ActionResult, String>(a)), req.headers@));
                }
                return Ok(a);
            },
            Directive::Redirect { status, url } => {
                let a = handle_redirect(status, url.as_str());
                proof {
                    let empty = Seq::<Seq<char>>::empty();
                    assert(drawn + empty =~= drawn);
                    assert(route(dv, 0, cur, cur, m, hs0, e, drawn + empty) == (result_view(Ok::<ActionResult, String>(a)), req.headers@));
                }
                return Ok(a);
            },
        }
        i = i + 1;
    }
    let s = no_action_error(current_path);
    proof {
        let empty = Seq::<Seq<char>>::empty();
        assert(drawn + empty =~= drawn);
        assert(route(dv, 0, cur, cur, m, hs0, e, drawn + empty) == (result_view(Err::<ActionResult, String>(s)), req.headers@));
    }
    Err(s)
}

/// Whether a `Host` value names a port: after the `]` of a bracketed IPv6
/// literal, or anywhere in another host.
pub open spec fn host_has_port(host: Seq<char>) -> bool {
    if host.len() > 0 && host[0] == '[' {
        find_from(host, seq![']', ':'], 0) is Some
    } else {
        find_from(host, seq![':'], 0) is Some
    }
}

/// The site key tried for a `Host` without a port: the default port of the
/// scheme (443 over TLS, 80 otherwise) appended.
pub open spec fn default_port_key(host: Seq<char>, is_tls: bool) -> Seq<char> {
    host + if is_tls {
        ":443"@
    } else {
        ":80"@
    }
}

/// The site that serves `host`: the one configured under exactly that
/// text, else, for a host without a port, the one under the host with the
/// scheme's default port (browsers leave out 443 and 80).
pub open spec fn site_for_host(sites: Seq<SiteV>, host: Seq<char>, is_tls: bool) -> Option<int> {
    match site_index(sites, host) {
        Some(i) => Some(i),
        None => if !host_has_port(host) {
            site_index(sites, default_port_key(host, is_tls))
        } else {
            None
        },
    }
}

/// Finds the site configuration for a request's `Host` (see
/// [`site_for_host`]).
pub fn find_site<'a>(config: &'a Config, host: &str, is_tls: bool) -> (r: Option<&'a SiteConfig>)
    requires
        config.wf(),
    ensures
        match site_for_host(config@, host@, is_tls) {
            Some(i) => r matches Some(s) && s@ == config@[i],
            None => r is None,
        },
{
    match config.get_site(host) {
        Some(s) => Some(s),
        None => {
            let h = chars_of(host);
            let has_port = if h.len() > 0 && h[0] == '[' {
                let pat: Vec<char> = vec![']', ':'];
                assert(pat@ == seq![']', ':']);
                find_text(h.as_slice(), pat.as_slice(), 0).is_some()
            } else {
                let pat: Vec<char> = vec![':'];
                assert(pat@ == seq![':']);
                find_text(h.as_slice(), pat.as_slice(), 0).is_some()
            };
            if has_port {
                None
            } else {
                let mut key = host.to_owned();
                if is_tls {
                    key.append(":443");
                } else {
                    key.append(":80");
                }
                config.get_site(key.as_str())
            }
        },
    }
}


/// A site configured under the exact `Host` text serves it; a `Host`
/// without a port over TLS is served by the site on port 443 of that host
/// when there is no exact one.
pub proof fn lemma_find_site_default_port(sites: Seq<SiteV>, host: Seq<char>, i: int)
    requires
        distinct_addresses(sites),
        0 <= i < sites.len(),
    ensures
        sites[i].address == host ==> site_for_host(sites, host, true) == Some(i)
            && site_for_host(sites, host, false) == Some(i),
        sites[i].address == host + ":443"@ && site_index(sites, host) is None && !host_has_port(
            host,
        ) ==> site_for_host(sites, host, true) == Some(i),
        sites[i].address == host + ":80"@ && site_index(sites, host) is None && !host_has_port(
            host,
        ) ==> site_for_host(sites, host, false) == Some(i),
{
    if sites[i].address == host {
        lemma_site_index_unique(sites, host, i);
    }
    if sites[i].address == host + ":443"@ {
        lemma_site_index_unique(sites, host + ":443"@, i);
    }
    if sites[i].address == host + ":80"@ {
        lemma_site_index_unique(sites, host + ":80"@, i);
    }
}

} // verus!
