//! What the proxy does with one request before any I/O: its request id, the
//! site that serves its host, the directives' action, and the answer to
//! write or the backend request to make.

use vstd::prelude::*;
use crate::config::models::{dirs_view, Config, SiteV};
use crate::outside::{is_uuid_text, uri_authority, uri_authority_of};
use crate::proxy::directives::{apply_header_up, header_up_effect};
use crate::config::models::header_ops_view;
use crate::proxy::access_log::{ensure_request_id, final_request_id, with_request_id};
use crate::proxy::handler::{all_uuids, find_site, process_directives, route, site_for_host};
use crate::proxy::request::{header_text, EnvV, EnvVars, HeadersV, RequestHead};
use crate::proxy::response::{
    error_reply_v, no_site_reply, no_site_text, prepare_upstream, read_timeout_of,
    read_timeout_secs, redirect_reply, redirect_reply_v, respond_reply, respond_reply_v,
    upstream_headers, upstream_url, Reply, ReplyV,
};
use crate::proxy::types::{ActionResult, ActionV};

verus! {

broadcast use vstd::string::group_string_axioms;

/// What to do with a request.
#[derive(Debug)]
pub enum RequestPlan {
    /// Write this answer.
    Answer(Reply),
    /// Send the request to `url`, waiting at most `read_timeout_secs` for
    /// the backend's answer.
    Forward { url: String, connect_timeout: Option<u64>, read_timeout_secs: u64 },
}

pub enum PlanV {
    Answer(ReplyV),
    Forward { url: Seq<char>, connect_timeout: Option<u64>, read_timeout_secs: u64 },
}

impl View for RequestPlan {
    type V = PlanV;

    open spec fn view(&self) -> PlanV {
        match self {
            RequestPlan::Answer(r) => PlanV::Answer(r@),
            RequestPlan::Forward { url, connect_timeout, read_timeout_secs } => PlanV::Forward {
                url: url@,
                connect_timeout: *connect_timeout,
                read_timeout_secs: *read_timeout_secs,
            },
        }
    }
}

/// The decision about one request: the host it named, its request id (for
/// the access log), and the plan, or the error of a site whose directives
/// have no action.
#[derive(Debug)]
pub struct RequestDecision {
    pub host: String,
    pub request_id: String,
    pub outcome: Result<RequestPlan, String>,
}

pub struct DecisionV {
    pub host: Seq<char>,
    pub request_id: Seq<char>,
    pub outcome: Result<PlanV, Seq<char>>,
    pub headers: HeadersV,
}

/// The `Host` a request names: its `Host` header as text, else `localhost`.
pub open spec fn host_of(hs: HeadersV) -> Seq<char> {
    match header_text(hs, "Host"@) {
        Some(h) => h,
        None => "localhost"@,
    }
}

/// The request id step: the request's own `X-Request-ID`, or `id` stored
/// under that name.
pub open spec fn id_step(hs: HeadersV, id: Seq<char>) -> (Seq<char>, HeadersV) {
    match header_text(hs, "X-Request-ID"@) {
        Some(t) => (t, hs),
        None => (id, with_request_id(hs, id)),
    }
}

/// The text of a backend URL's authority (empty when it has none).
pub open spec fn authority_text(auth: Option<Seq<char>>) -> Seq<char> {
    match auth {
        Some(x) => x,
        None => Seq::empty(),
    }
}

/// What an action leads to, and the request headers it is sent with: a
/// backend request carries the forwarding headers, then the action's
/// `header_up` operations (see [`header_up_effect`]) with the backend's
/// authority, the incoming request's URI `uri` and the client address `rip`;
/// their `{uuid}` placeholders draw `vs`.
pub open spec fn action_plan(
    a: ActionV,
    hs: HeadersV,
    is_tls: bool,
    uri: Seq<char>,
    rip: Seq<char>,
    e: EnvV,
    vs: Seq<Seq<char>>,
) -> (PlanV, HeadersV) {
    match a {
        ActionV::Respond { status, body } => (PlanV::Answer(respond_reply_v(status, body)), hs),
        ActionV::Redirect { status, url } => (PlanV::Answer(redirect_reply_v(status, url)), hs),
        ActionV::ReverseProxy { backend_url, path_to_send, connect_timeout, read_timeout, header_up } => {
            let url = upstream_url(backend_url, path_to_send);
            match uri_authority_of(url) {
                None => (PlanV::Answer(error_reply_v(500, "Invalid proxy URI"@)), hs),
                Some(auth) => (
                    PlanV::Forward {
                        url,
                        connect_timeout,
                        read_timeout_secs: read_timeout_of(read_timeout),
                    },
                    header_up_effect(
                        upstream_headers(hs, auth, is_tls),
                        header_up,
                        authority_text(auth),
                        uri,
                        rip,
                        e,
                        vs,
                    ),
                ),
            }
        },
    }
}

/// The decision for a request with headers `hs`, `method`, `path` and URI
/// `uri` from the client address `rip`, on a connection that is TLS or not,
/// when a new request id would be `id`, the directives' `{uuid}`
/// placeholders draw `us` and those of the `header_up` operations `vs`.
pub open spec fn decide(
    sites: Seq<SiteV>,
    hs: HeadersV,
    method: Seq<char>,
    path: Seq<char>,
    uri: Seq<char>,
    rip: Seq<char>,
    e: EnvV,
    is_tls: bool,
    id: Seq<char>,
    us: Seq<Seq<char>>,
    vs: Seq<Seq<char>>,
) -> DecisionV {
    let (rid, hs1) = id_step(hs, id);
    let host = host_of(hs1);
    match site_for_host(sites, host, is_tls) {
        None => DecisionV {
            host,
            request_id: rid,
            outcome: Ok(PlanV::Answer(error_reply_v(404, no_site_text(host)))),
            headers: hs1,
        },
        Some(i) => match route(sites[i].directives, 0, path, path, method, hs1, e, us) {
            (Err(m), hs2) => DecisionV { host, request_id: rid, outcome: Err(m), headers: hs2 },
            (Ok(a), hs2) => {
                let fid = match header_text(hs2, "X-Request-ID"@) {
                    Some(t) => t,
                    None => rid,
                };
                let (p, hs3) = action_plan(a, hs2, is_tls, uri, rip, e, vs);
                DecisionV { host, request_id: fid, outcome: Ok(p), headers: hs3 }
            },
        },
    }
}

pub open spec fn outcome_view(o: Result<RequestPlan, String>) -> Result<PlanV, Seq<char>> {
    match o {
        Ok(p) => Ok(p@),
        Err(m) => Err(m@),
    }
}

fn plan_action(
    a: ActionResult,
    req: &mut RequestHead,
    is_tls: bool,
    request_uri: &str,
    remote_ip: &str,
    env: &EnvVars,
) -> (p: RequestPlan)
    requires
        old(req).headers.wf(),
    ensures
        final(req).headers.wf(),
        final(req).method == old(req).method,
        exists|vs: Seq<Seq<char>>|
            all_uuids(vs) && #[trigger] action_plan(a@, old(req).headers@, is_tls, request_uri@, remote_ip@, env@, vs)
                == (p@, final(req).headers@),
{
    let ghost av = a@;
    let ghost hs0 = req.headers@;
    match a {
        ActionResult::Respond { status, body } => {
            let p = RequestPlan::Answer(respond_reply(status, body.as_str()));
            assert(all_uuids(Seq::<Seq<char>>::empty()));
            assert(action_plan(av, hs0, is_tls, request_uri@, remote_ip@, env@, Seq::empty()) == (p@, req.headers@));
            p
        },
        ActionResult::Redirect { status, url } => {
            let p = RequestPlan::Answer(redirect_reply(status, url.as_str()));
            assert(all_uuids(Seq::<Seq<char>>::empty()));
            assert(action_plan(av, hs0, is_tls, request_uri@, remote_ip@, env@, Seq::empty()) == (p@, req.headers@));
            p
        },
        ActionResult::ReverseProxy { backend_url, path_to_send, connect_timeout, read_timeout, header_up } => {
            match prepare_upstream(backend_url.as_str(), path_to_send.as_str(), req, is_tls) {
                Err(r) => {
                    assert(all_uuids(Seq::<Seq<char>>::empty()));
                    assert(action_plan(av, hs0, is_tls, request_uri@, remote_ip@, env@, Seq::empty())
                        == (RequestPlan::Answer(r)@, req.headers@));
                    RequestPlan::Answer(r)
                },
                Ok(url) => {
                    let host_text: String = match uri_authority(url.as_str()) {
                        Some(Some(x)) => x,
                        _ => String::new(),
                    };
                    let ghost auth = uri_authority_of(url@)->0;
                    assert(host_text@ == authority_text(auth));
                    apply_header_up(header_up.as_slice(), req, host_text.as_str(), request_uri, remote_ip, env);
                    let p = RequestPlan::Forward {
                        url,
                        connect_timeout,
                        read_timeout_secs: read_timeout_secs(read_timeout),
                    };
                    proof {
                        let vs = choose|vs: Seq<Seq<char>>|
                            vs.len() == header_up@.len() && (forall|k: int| 0 <= k < vs.len() ==> is_uuid_text(#[trigger] vs[k]))
                                && req.headers@ == header_up_effect(
                                upstream_headers(hs0, auth, is_tls),
                                header_ops_view(header_up@),
                                authority_text(auth),
                                request_uri@,
                                remote_ip@,
                                env@,
                                vs,
                            );
                        assert(all_uuids(vs));
                        assert(action_plan(av, hs0, is_tls, request_uri@, remote_ip@, env@, vs) == (p@, req.headers@));
                    }
                    p
                },
            }
        },
    }
}

/// Decides what to do with a request (see [`decide`]): gives it a request
/// id, finds the site for its `Host` (404 when there is none), runs the
/// site's directives on it, and turns their action into the answer to
/// write or the backend request to make, with the headers to send it
/// with. The request id and the `{uuid}` placeholders are random, so the
/// decision is pinned down up to them.
pub fn plan_request(
    config: &Config,
    req: &mut RequestHead,
    path: &str,
    request_uri: &str,
    remote_ip: &str,
    is_tls: bool,
    env: &EnvVars,
) -> (d: RequestDecision)
    requires
        config.wf(),
        old(req).headers.wf(),
    ensures
        final(req).headers.wf(),
        final(req).method == old(req).method,
        exists|id: Seq<char>, us: Seq<Seq<char>>, vs: Seq<Seq<char>>|
            is_uuid_text(id) && all_uuids(us) && all_uuids(vs) && #[trigger] decide(
                config@,
                old(req).headers@,
                old(req).method@,
                path@,
                request_uri@,
                remote_ip@,
                env@,
                is_tls,
                id,
                us,
                vs,
            ) == (DecisionV {
                host: d.host@,
                request_id: d.request_id@,
                outcome: outcome_view(d.outcome),
                headers: final(req).headers@,
            }),
{
    let ghost hs0 = req.headers@;
    let ghost m = req.method@;
    let ghost any_uuid = crate::proxy::handler::default_uuid();
    assert(is_uuid_text(any_uuid));
    let rid = ensure_request_id(req);
    let ghost id = if header_text(hs0, "X-Request-ID"@) is Some {
        any_uuid
    } else {
        rid@
    };
    assert(id_step(hs0, id) == (rid@, req.headers@));
    let ghost hs1 = req.headers@;
    let host = match req.headers.get_text("Host") {
        Some(h) => h,
        None => "localhost".to_owned(),
    };
    assert(host@ == host_of(hs1));
    match find_site(config, host.as_str(), is_tls) {
        None => {
            let reply = no_site_reply(host.as_str());
            let d = RequestDecision { host, request_id: rid, outcome: Ok(RequestPlan::Answer(reply)) };
            proof {
                let us = Seq::<Seq<char>>::empty();
                let vs = Seq::<Seq<char>>::empty();
                assert(all_uuids(us));
                assert(all_uuids(vs));
                assert(decide(config@, hs0, m, path@, request_uri@, remote_ip@, env@, is_tls, id, us, vs) == (DecisionV {
                        host: d.host@,
                        request_id: d.request_id@,
                        outcome: outcome_view(d.outcome),
                        headers: req.headers@,
                    }));
            }
            d
        },
        Some(site) => {
            let ghost i = site_for_host(config@, host@, is_tls)->0;
            assert(site@ == config@[i]);
            assert(site@.directives == dirs_view(site.directives@));
            let r = process_directives(site.directives.as_slice(), req, path, env);
            let ghost us = choose|us: Seq<Seq<char>>|
                all_uuids(us) && #[trigger] route(dirs_view(site.directives@), 0, path@, path@, m, hs1, env@, us)
                    == (crate::proxy::handler::result_view(r), req.headers@);
            let ghost hs2 = req.headers@;
            match r {
                Err(msg) => {
                    let d = RequestDecision { host, request_id: rid, outcome: Err(msg) };
                    let ghost vs = Seq::<Seq<char>>::empty();
                    assert(all_uuids(vs));
                    assert(decide(config@, hs0, m, path@, request_uri@, remote_ip@, env@, is_tls, id, us, vs) == (DecisionV {
                            host: d.host@,
                            request_id: d.request_id@,
                            outcome: outcome_view(d.outcome),
                            headers: req.headers@,
                        }));
                    d
                },
                Ok(a) => {
                    let ghost av = a@;
                    let fid = final_request_id(&req.headers, rid.as_str());
                    let p = plan_action(a, req, is_tls, request_uri, remote_ip, env);
                    let d = RequestDecision { host, request_id: fid, outcome: Ok(p) };
                    let ghost vs = choose|vs: Seq<Seq<char>>|
                        all_uuids(vs) && #[trigger] action_plan(av, hs2, is_tls, request_uri@, remote_ip@, env@, vs)
                            == (p@, req.headers@);
                    assert(decide(config@, hs0, m, path@, request_uri@, remote_ip@, env@, is_tls, id, us, vs) == (DecisionV {
                            host: d.host@,
                            request_id: d.request_id@,
                            outcome: outcome_view(d.outcome),
                            headers: req.headers@,
                        }));
                    d
                },
            }
        },
    }
}

} // verus!
