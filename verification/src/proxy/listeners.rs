//! Which listeners the proxy runs for a configuration: one per listen
//! address, HTTPS with its certificate table where the sites there use TLS,
//! plain HTTP otherwise, plus an HTTP→HTTPS redirect listener per TLS
//! address.

use vstd::prelude::*;
use crate::config::address::{
    after_last, extract_hostname, hostname_of, listen_addr_of, redirect_port_of,
    is_bare_host, resolve_site_addr, tls_redirect_port,
};
use crate::config::models::{Config, SiteV};
use crate::config::grammar::site_socket;
use crate::config::net::{ip_from_text, parse_ip, socket_display, socket_text, IpAddress, Ipv4Octets, ListenAddr};
use crate::text::{find_text, chars_of, copy_range, is_text, parse_unsigned, parse_unsigned_u64, string_of};

verus! {

broadcast use vstd::string::group_string_axioms;

/// Whether a site's address belongs to the listener on `l`. The address is
/// split at its last `:`: the part after it must be the listener's port;
/// the part before it, when it is empty, `0.0.0.0` or `::`, matches any
/// interface, `localhost` matches 127.0.0.1, an IP address must be the
/// listener's, and a host name matches by port alone.
pub open spec fn site_addr_matches_spec(a: Seq<char>, l: ListenAddr) -> bool {
    let k = after_last(a, ':');
    let port_text = a.subrange(k, a.len() as int);
    let host = if k > 0 {
        a.take(k - 1)
    } else {
        Seq::empty()
    };
    match parse_unsigned(port_text, 0xffff) {
        None => false,
        Some(p) => p == l.spec_port() && (host.len() == 0 || host == "0.0.0.0"@ || host == "::"@
            || if host == "localhost"@ {
            l.spec_ip() == IpAddress::V4(Ipv4Octets(127, 0, 0, 1))
        } else {
            match parse_ip(host) {
                Some(ip) => ip == l.spec_ip(),
                None => true,
            }
        }),
    }
}

/// Whether the site address `site_address` belongs to the listener on
/// `listen_addr` (see [`site_addr_matches_spec`]).
pub fn site_addr_matches(site_address: &str, listen_addr: &ListenAddr) -> (b: bool)
    ensures
        b == site_addr_matches_spec(site_address@, *listen_addr),
{
    let v = chars_of(site_address);
    let mut k: usize = v.len();
    assert(v@.subrange(0, v@.len() as int) =~= v@);
    while k > 0 && v[k - 1] != ':'
        invariant
            k <= v@.len(),
            after_last(v@, ':') == after_last(v@.subrange(0, k as int), ':'),
        decreases k,
    {
        assert(v@.subrange(0, k as int).drop_last() =~= v@.subrange(0, k - 1));
        k = k - 1;
    }
    assert(after_last(v@.subrange(0, k as int), ':') == k as int) by {
        if k > 0 {
            assert(v@.subrange(0, k as int).last() == ':');
        }
    }
    let port_text = copy_range(v.as_slice(), k, v.len());
    let host: Vec<char> = if k > 0 {
        let h = copy_range(v.as_slice(), 0, k - 1);
        assert(v@.subrange(0, k - 1) =~= v@.take(k - 1));
        h
    } else {
        Vec::new()
    };
    match parse_unsigned_u64(port_text.as_slice(), 0xffff) {
        None => false,
        Some(p) => {
            if p != listen_addr.port() as u64 {
                return false;
            }
            if host.len() == 0 || is_text(host.as_slice(), "0.0.0.0") || is_text(host.as_slice(), "::") {
                return true;
            }
            if is_text(host.as_slice(), "localhost") {
                return listen_addr.ip() == IpAddress::V4(Ipv4Octets(127, 0, 0, 1));
            }
            match ip_from_text(host.as_slice()) {
                Some(ip) => ip == listen_addr.ip(),
                None => true,
            }
        },
    }
}

/// The TLS sites that belong to the listener on `l` (see
/// [`site_addr_matches_spec`]; a site whose address is a bare host name
/// belongs to any listener on port 443), in configuration order: each with
/// the host name of its address (its SNI name) and its position.
pub open spec fn tls_sites_on(sites: Seq<SiteV>, l: ListenAddr) -> Seq<(Seq<char>, int)>
    decreases sites.len(),
{
    if sites.len() == 0 {
        Seq::empty()
    } else {
        let rest = tls_sites_on(sites.drop_last(), l);
        let s = sites.last();
        if (site_addr_matches_spec(s.address, l) || (is_bare_host(s.address) && l.spec_port() == 443))
            && s.tls is Some {
            rest.push((hostname_of(s.address), sites.len() - 1))
        } else {
            rest
        }
    }
}

pub open spec fn entries_view(v: Seq<(String, usize)>) -> Seq<(Seq<char>, int)> {
    v.map_values(|e: (String, usize)| (e.0@, e.1 as int))
}

fn bare_host(a: &str) -> (b: bool)
    ensures
        b == is_bare_host(a@),
{
    let v = chars_of(a);
    let colon: [char; 1] = [':'];
    assert(colon@ == seq![':']);
    v.len() > 0 && find_text(v.as_slice(), &colon, 0).is_none()
}

/// The TLS sites served by one listener on `listen_addr` (when there are
/// none, the listener is plain HTTP): their SNI host names and positions.
pub fn tls_sites_for(config: &Config, listen_addr: &ListenAddr) -> (r: Vec<(String, usize)>)
    ensures
        entries_view(r@) == tls_sites_on(config@, *listen_addr),
{
    let mut r: Vec<(String, usize)> = Vec::new();
    let mut i: usize = 0;
    while i < config.sites.len()
        invariant
            i <= config@.len(),
            config@.len() == config.sites@.len(),
            entries_view(r@) == tls_sites_on(config@.take(i as int), *listen_addr),
        decreases config.sites@.len() - i,
    {
        proof {
            assert(config@.take(i + 1).drop_last() =~= config@.take(i as int));
        }
        let site = &config.sites[i];
        assert(config@[i as int] == site@);
        if (site_addr_matches(site.address.as_str(), listen_addr) || (bare_host(site.address.as_str())
            && listen_addr.port() == 443)) && site.tls.is_some() {
            let h = extract_hostname(site.address.as_str());
            let ghost before = r@;
            r.push((h.to_owned(), i));
            assert(entries_view(r@) =~= entries_view(before).push((h@, i as int)));
        }
        i = i + 1;
    }
    assert(config@.take(config@.len() as int) =~= config@);
    r
}

// ---------------------------------------------------------------------------
// All listeners of a configuration
// ---------------------------------------------------------------------------

/// One listener to start.
#[derive(Debug)]
pub enum Listener {
    /// HTTPS on `addr` for the TLS sites there: host name (SNI) and
    /// position of each.
    Https { addr: ListenAddr, sites: Vec<(String, usize)> },
    /// Plain HTTP on `addr`.
    Http { addr: ListenAddr },
}

pub enum ListenerV {
    Https { addr: ListenAddr, sites: Seq<(Seq<char>, int)> },
    Http { addr: ListenAddr },
}

impl View for Listener {
    type V = ListenerV;

    open spec fn view(&self) -> ListenerV {
        match self {
            Listener::Https { addr, sites } => ListenerV::Https { addr: *addr, sites: entries_view(sites@) },
            Listener::Http { addr } => ListenerV::Http { addr: *addr },
        }
    }
}

impl ListenerV {
    pub open spec fn addr(self) -> ListenAddr {
        match self {
            ListenerV::Https { addr, .. } => addr,
            ListenerV::Http { addr } => addr,
        }
    }
}

/// The listeners of a configuration and the HTTP→HTTPS redirect listeners
/// (bind address, TLS port) that go with its HTTPS ones.
#[derive(Debug)]
pub struct ListenerPlan {
    pub listeners: Vec<Listener>,
    pub redirects: Vec<(ListenAddr, u16)>,
}

/// Where the redirect listener for a TLS listener on `a` binds: the same
/// interface, on the port that [`redirect_port_of`] gives.
pub open spec fn redirect_bind(a: ListenAddr) -> ListenAddr {
    match a {
        ListenAddr::V4 { ip, port } => ListenAddr::V4 { ip, port: redirect_port_of(port) },
        ListenAddr::V6 { ip, scope_id, port } => ListenAddr::V6 {
            ip,
            scope_id,
            port: redirect_port_of(port),
        },
    }
}

/// The sites (by position) that listen on `a`, in order.
pub open spec fn sites_on(addrs: Seq<ListenAddr>, a: ListenAddr) -> Seq<int>
    decreases addrs.len(),
{
    if addrs.len() == 0 {
        Seq::empty()
    } else if addrs.last() == a {
        sites_on(addrs.drop_last(), a).push(addrs.len() - 1)
    } else {
        sites_on(addrs.drop_last(), a)
    }
}

/// The listen addresses in order of first appearance.
pub open spec fn distinct_addrs(addrs: Seq<ListenAddr>) -> Seq<ListenAddr>
    decreases addrs.len(),
{
    if addrs.len() == 0 {
        Seq::empty()
    } else if distinct_addrs(addrs.drop_last()).contains(addrs.last()) {
        distinct_addrs(addrs.drop_last())
    } else {
        distinct_addrs(addrs.drop_last()).push(addrs.last())
    }
}

/// The listen address of each site, when all of them resolve.
pub open spec fn site_addrs(sites: Seq<SiteV>) -> Option<Seq<ListenAddr>>
    decreases sites.len(),
{
    if sites.len() == 0 {
        Some(Seq::empty())
    } else {
        match (site_addrs(sites.drop_last()), site_socket(sites.last())) {
            (Some(r), Some(a)) => Some(r.push(a)),
            _ => None,
        }
    }
}

/// The listener for the address `a`: HTTPS with its TLS sites when they
/// all use TLS, plain HTTP when none does; nothing when they are mixed.
pub open spec fn listener_for(sites: Seq<SiteV>, addrs: Seq<ListenAddr>, a: ListenAddr) -> Option<ListenerV> {
    let on = sites_on(addrs, a);
    if forall|k: int| 0 <= k < on.len() ==> (#[trigger] sites[on[k]]).tls is Some {
        Some(
            ListenerV::Https {
                addr: a,
                sites: Seq::new(on.len(), |k: int| (hostname_of(sites[on[k]].address), on[k])),
            },
        )
    } else if forall|k: int| 0 <= k < on.len() ==> (#[trigger] sites[on[k]]).tls is None {
        Some(ListenerV::Http { addr: a })
    } else {
        None
    }
}

/// The error for a listen address, shown as `addr_text`, whose sites mix
/// TLS and plain HTTP.
pub open spec fn mixed_text(addr_text: Seq<char>) -> Seq<char> {
    "Mixed TLS and non-TLS sites on the same listen address "@ + addr_text + " is not supported"@
}

/// The plan of [`plan_listeners`]: per distinct listen address (in order of
/// first appearance) its listener, and per HTTPS listener its redirect.
pub open spec fn plan_ok(sites: Seq<SiteV>, addrs: Seq<ListenAddr>, ls: Seq<ListenerV>, rs: Seq<(ListenAddr, u16)>) -> bool {
    let ds = distinct_addrs(addrs);
    &&& ls.len() == ds.len()
    &&& forall|j: int| 0 <= j < ds.len() ==> Some(#[trigger] ls[j]) == listener_for(sites, addrs, ds[j])
    &&& forall|r: (ListenAddr, u16)| rs.contains(r) <==> exists|j: int|
        0 <= j < ls.len() && (#[trigger] ls[j]) is Https && r == (redirect_bind(ls[j].addr()), ls[j].addr().spec_port())
    &&& forall|x: int, y: int| 0 <= x < y < rs.len() ==> rs[x] != rs[y]
}

/// The error of the first listen address (in the order of
/// `distinct_addrs(addrs)`) whose sites mix TLS and plain HTTP.
pub open spec fn mixed_error(sites: Seq<SiteV>, addrs: Seq<ListenAddr>, m: Seq<char>) -> bool {
    let ds = distinct_addrs(addrs);
    exists|j: int|
        0 <= j < ds.len() && listener_for(sites, addrs, #[trigger] ds[j]) is None
            && (forall|t: int| 0 <= t < j ==> listener_for(sites, addrs, #[trigger] ds[t]) is Some)
            && m == mixed_text(socket_display(ds[j]))
}

/// Plans the listeners of `config` (what `start_all` starts). Sites are
/// grouped by the address they listen on; a group whose sites all use TLS
/// gets an HTTPS listener with their host names, one without TLS a plain
/// HTTP listener, and each HTTPS listener an HTTP→HTTPS redirect listener.
/// An address that does not resolve, or a group that mixes TLS and plain
/// sites, is an error.
pub fn plan_listeners(config: &Config) -> (r: Result<ListenerPlan, String>)
    ensures
        match site_addrs(config@) {
            None => r matches Err(m) && exists|i: int|
                0 <= i < config@.len() && site_socket(#[trigger] config@[i]) is None
                    && m@ == "Cannot parse address: "@ + config@[i].address,
            Some(addrs) => {
                &&& (r is Err) <==> exists|j: int|
                    0 <= j < distinct_addrs(addrs).len() && listener_for(
                        config@,
                        addrs,
                        #[trigger] distinct_addrs(addrs)[j],
                    ) is None
                &&& r matches Err(m) ==> mixed_error(config@, addrs, m@)
                &&& r matches Ok(p) ==> plan_ok(
                    config@,
                    addrs,
                    p.listeners@.map_values(|l: Listener| l@),
                    p.redirects@,
                )
            },
        },
{
    let mut addrs: Vec<ListenAddr> = Vec::new();
    let mut i: usize = 0;
    while i < config.sites.len()
        invariant
            i <= config@.len(),
            config@.len() == config.sites@.len(),
            site_addrs(config@.take(i as int)) == Some(addrs@),
        decreases config.sites@.len() - i,
    {
        proof {
            assert(config@.take(i + 1).drop_last() =~= config@.take(i as int));
        }
        assert(config@[i as int] == config.sites@[i as int]@);
        match resolve_site_addr(config.sites[i].address.as_str(), config.sites[i].tls.is_some()) {
            Ok(a) => {
                addrs.push(a);
            },
            Err(m) => {
                proof {
                    lemma_site_addrs_none(config@, i as int);
                }
                return Err(m);
            },
        }
        i = i + 1;
    }
    assert(config@.take(config@.len() as int) =~= config@);
    plan_groups(config, &addrs)
}

proof fn lemma_site_addrs_none(sites: Seq<SiteV>, i: int)
    requires
        0 <= i < sites.len(),
        site_socket(sites[i]) is None,
    ensures
        site_addrs(sites) is None,
    decreases sites.len(),
{
    if i < sites.len() - 1 {
        lemma_site_addrs_none(sites.drop_last(), i);
    }
}

fn group_of(addrs: &Vec<ListenAddr>, a: &ListenAddr) -> (on: Vec<usize>)
    ensures
        on@.map_values(|x: usize| x as int) == sites_on(addrs@, *a),
        forall|k: int| 0 <= k < on@.len() ==> on@[k] < addrs@.len(),
{
    let mut on: Vec<usize> = Vec::new();
    let mut i: usize = 0;
    while i < addrs.len()
        invariant
            i <= addrs@.len(),
            on@.map_values(|x: usize| x as int) == sites_on(addrs@.take(i as int), *a),
            forall|k: int| 0 <= k < on@.len() ==> on@[k] < i,
        decreases addrs@.len() - i,
    {
        proof {
            assert(addrs@.take(i + 1).drop_last() =~= addrs@.take(i as int));
        }
        if addrs[i] == *a {
            let ghost before = on@;
            on.push(i);
            assert(on@.map_values(|x: usize| x as int) =~= before.map_values(|x: usize| x as int).push(i as int));
        }
        i = i + 1;
    }
    assert(addrs@.take(addrs@.len() as int) =~= addrs@);
    on
}

fn distinct_of(addrs: &Vec<ListenAddr>) -> (ds: Vec<ListenAddr>)
    ensures
        ds@ == distinct_addrs(addrs@),
{
    let mut ds: Vec<ListenAddr> = Vec::new();
    let mut i: usize = 0;
    while i < addrs.len()
        invariant
            i <= addrs@.len(),
            ds@ == distinct_addrs(addrs@.take(i as int)),
        decreases addrs@.len() - i,
    {
        proof {
            assert(addrs@.take(i + 1).drop_last() =~= addrs@.take(i as int));
        }
        let mut found = false;
        let mut k: usize = 0;
        while k < ds.len()
            invariant
                i < addrs@.len(),
                k <= ds@.len(),
                found == exists|t: int| 0 <= t < k && ds@[t] == addrs@[i as int],
            decreases ds@.len() - k,
        {
            if ds[k] == addrs[i] {
                found = true;
            }
            k = k + 1;
        }
        if !found {
            ds.push(addrs[i]);
        } else {
            assert(ds@.contains(addrs@[i as int]));
        }
        i = i + 1;
    }
    assert(addrs@.take(addrs@.len() as int) =~= addrs@);
    ds
}

fn plan_groups(config: &Config, addrs: &Vec<ListenAddr>) -> (r: Result<ListenerPlan, String>)
    requires
        site_addrs(config@) == Some(addrs@),
    ensures
        (r is Err) <==> exists|j: int|
            0 <= j < distinct_addrs(addrs@).len() && listener_for(
                config@,
                addrs@,
                #[trigger] distinct_addrs(addrs@)[j],
            ) is None,
        r matches Err(m) ==> mixed_error(config@, addrs@, m@),
        r matches Ok(p) ==> plan_ok(
            config@,
            addrs@,
            p.listeners@.map_values(|l: Listener| l@),
            p.redirects@,
        ),
{
    proof {
        lemma_site_addrs_len(config@);
    }
    let ds = distinct_of(addrs);
    let mut listeners: Vec<Listener> = Vec::new();
    let mut redirects: Vec<(ListenAddr, u16)> = Vec::new();
    let mut j: usize = 0;
    while j < ds.len()
        invariant
            ds@ == distinct_addrs(addrs@),
            addrs@.len() == config@.len(),
            config@.len() == config.sites@.len(),
            j <= ds@.len(),
            listeners@.len() == j,
            forall|t: int| 0 <= t < j ==> Some(#[trigger] listeners@[t]@) == listener_for(config@, addrs@, ds@[t]),
            forall|x: (ListenAddr, u16)| redirects@.contains(x) <==> exists|t: int|
                0 <= t < j && (#[trigger] listeners@[t]@) is Https && x == (redirect_bind(listeners@[t]@.addr()), listeners@[t]@.addr().spec_port()),
            forall|x: int, y: int| 0 <= x < y < redirects@.len() ==> redirects@[x] != redirects@[y],
        decreases ds@.len() - j,
    {
        let a = ds[j];
        let on = group_of(addrs, &a);
        let ghost onv = on@.map_values(|x: usize| x as int);
        let mut n_tls: usize = 0;
        let mut k: usize = 0;
        let mut entries: Vec<(String, usize)> = Vec::new();
        while k < on.len()
            invariant
                k <= on@.len(),
                onv == on@.map_values(|x: usize| x as int),
                forall|q: int| 0 <= q < on@.len() ==> on@[q] < config@.len(),
                config@.len() == config.sites@.len(),
                n_tls <= k,
                n_tls == k ==> (forall|q: int| 0 <= q < k ==> (#[trigger] config@[onv[q]]).tls is Some)
                    && entries_view(entries@) == Seq::new(k as nat, |q: int| (hostname_of(config@[onv[q]].address), onv[q])),
                n_tls == 0 ==> forall|q: int| 0 <= q < k ==> (#[trigger] config@[onv[q]]).tls is None,
                0 < n_tls < k ==> (exists|q: int| 0 <= q < k && (#[trigger] config@[onv[q]]).tls is Some)
                    && (exists|q: int| 0 <= q < k && (#[trigger] config@[onv[q]]).tls is None),
                n_tls == k && k > 0 ==> exists|q: int| 0 <= q < k && (#[trigger] config@[onv[q]]).tls is Some,
                n_tls == 0 && k > 0 ==> exists|q: int| 0 <= q < k && (#[trigger] config@[onv[q]]).tls is None,
            decreases on@.len() - k,
        {
            let idx = on[k];
            let site = &config.sites[idx];
            assert(config@[onv[k as int]] == site@);
            if site.tls.is_some() {
                if n_tls == k {
                    let h = extract_hostname(site.address.as_str());
                    let ghost before = entries@;
                    let e = (h.to_owned(), idx);
                    entries.push(e);
                    assert(entries_view(entries@) =~= entries_view(before).push((h@, idx as int)));
                    assert(onv[k as int] == idx as int);
                    assert(entries_view(entries@) =~= Seq::new((k + 1) as nat, |q: int| (hostname_of(config@[onv[q]].address), onv[q])));
                }
                n_tls = n_tls + 1;
            }
            k = k + 1;
        }
        if n_tls != 0 && n_tls != on.len() {
            let t = socket_text(&a);
            let mut m = "Mixed TLS and non-TLS sites on the same listen address ".to_owned();
            let ts = string_of(t.as_slice());
            m.append(ts.as_str());
            m.append(" is not supported");
            assert(listener_for(config@, addrs@, ds@[j as int]) is None);
            proof {
                assert(m@ =~= "Mixed TLS and non-TLS sites on the same listen address "@ + socket_display(
                    ds@[j as int],
                ) + " is not supported"@);
                assert forall|t: int| 0 <= t < j implies listener_for(config@, addrs@, #[trigger] ds@[t]) is Some by {
                    assert(Some(listeners@[t]@) == listener_for(config@, addrs@, ds@[t]));
                }
            }
            return Err(m);
        }
        if n_tls == on.len() {
            let ghost lv = ListenerV::Https { addr: a, sites: entries_view(entries@) };
            assert(Some(lv) == listener_for(config@, addrs@, ds@[j as int]));
            let port = a.port();
            let rb = match a {
                ListenAddr::V4 { ip, port } => ListenAddr::V4 { ip, port: tls_redirect_port(port) },
                ListenAddr::V6 { ip, scope_id, port } => ListenAddr::V6 { ip, scope_id, port: tls_redirect_port(port) },
            };
            let pair = (rb, port);
            let mut seen = false;
            let mut q: usize = 0;
            while q < redirects.len()
                invariant
                    q <= redirects@.len(),
                    seen == exists|t: int| 0 <= t < q && redirects@[t] == pair,
                decreases redirects@.len() - q,
            {
                if redirects[q].0 == pair.0 && redirects[q].1 == pair.1 {
                    seen = true;
                }
                q = q + 1;
            }
            let ghost old_r = redirects@;
            let ghost old_l = listeners@;
            if !seen {
                redirects.push(pair);
            }
            listeners.push(Listener::Https { addr: a, sites: entries });
            proof {
                assert(listeners@[j as int]@ == lv);
                assert forall|t: int| 0 <= t < j + 1 implies Some(#[trigger] listeners@[t]@) == listener_for(config@, addrs@, ds@[t]) by {
                    if t < j {
                        assert(listeners@[t] == old_l[t]);
                    }
                }
                assert forall|x: (ListenAddr, u16)| redirects@.contains(x) <==> exists|t: int|
                    0 <= t < j + 1 && (#[trigger] listeners@[t]@) is Https && x == (redirect_bind(listeners@[t]@.addr()), listeners@[t]@.addr().spec_port()) by {
                    if redirects@.contains(x) {
                        if x == pair {
                            assert(listeners@[j as int]@ is Https);
                        } else {
                            let w = choose|w: int| 0 <= w < redirects@.len() && redirects@[w] == x;
                            if !seen {
                                assert(w < old_r.len());
                            }
                            assert(old_r.contains(x)) by {
                                assert(old_r[w] == x);
                            }
                            let t = choose|t: int| 0 <= t < j && (#[trigger] old_l[t]@) is Https && x == (redirect_bind(old_l[t]@.addr()), old_l[t]@.addr().spec_port());
                            assert(listeners@[t] == old_l[t]);
                        }
                    }
                    if exists|t: int| 0 <= t < j + 1 && (#[trigger] listeners@[t]@) is Https && x == (redirect_bind(listeners@[t]@.addr()), listeners@[t]@.addr().spec_port()) {
                        let t = choose|t: int| 0 <= t < j + 1 && (#[trigger] listeners@[t]@) is Https && x == (redirect_bind(listeners@[t]@.addr()), listeners@[t]@.addr().spec_port());
                        if t == j {
                            assert(x == pair);
                            if seen {
                                let w = choose|w: int| 0 <= w < q && redirects@[w] == pair;
                                assert(redirects@[w] == x);
                            } else {
                                assert(redirects@[redirects@.len() - 1] == x);
                            }
                        } else {
                            assert(listeners@[t] == old_l[t]);
                            assert(old_r.contains(x));
                            let w = choose|w: int| 0 <= w < old_r.len() && old_r[w] == x;
                            assert(redirects@[w] == x);
                        }
                    }
                }
            }
        } else {
            let ghost old_l = listeners@;
            listeners.push(Listener::Http { addr: a });
            proof {
                assert(Some(listeners@[j as int]@) == listener_for(config@, addrs@, ds@[j as int]));
                assert forall|t: int| 0 <= t < j + 1 implies Some(#[trigger] listeners@[t]@) == listener_for(config@, addrs@, ds@[t]) by {
                    if t < j {
                        assert(listeners@[t] == old_l[t]);
                    }
                }
                assert forall|x: (ListenAddr, u16)| redirects@.contains(x) <==> exists|t: int|
                    0 <= t < j + 1 && (#[trigger] listeners@[t]@) is Https && x == (redirect_bind(listeners@[t]@.addr()), listeners@[t]@.addr().spec_port()) by {
                    if redirects@.contains(x) {
                        let t = choose|t: int| 0 <= t < j && (#[trigger] old_l[t]@) is Https && x == (redirect_bind(old_l[t]@.addr()), old_l[t]@.addr().spec_port());
                        assert(listeners@[t] == old_l[t]);
                    }
                    if exists|t: int| 0 <= t < j + 1 && (#[trigger] listeners@[t]@) is Https && x == (redirect_bind(listeners@[t]@.addr()), listeners@[t]@.addr().spec_port()) {
                        let t = choose|t: int| 0 <= t < j + 1 && (#[trigger] listeners@[t]@) is Https && x == (redirect_bind(listeners@[t]@.addr()), listeners@[t]@.addr().spec_port());
                        assert(t != j);
                        assert(listeners@[t] == old_l[t]);
                    }
                }
            }
        }
        j = j + 1;
    }
    let plan = ListenerPlan { listeners, redirects };
    proof {
        assert forall|t: int| 0 <= t < distinct_addrs(addrs@).len() implies listener_for(
            config@,
            addrs@,
            #[trigger] distinct_addrs(addrs@)[t],
        ) is Some by {
            assert(Some(plan.listeners@[t]@) == listener_for(config@, addrs@, ds@[t]));
        }
        let lv = plan.listeners@.map_values(|l: Listener| l@);
        assert forall|t: int| 0 <= t < ds@.len() implies Some(#[trigger] lv[t]) == listener_for(config@, addrs@, ds@[t]) by {
            assert(lv[t] == plan.listeners@[t]@);
        }
        assert forall|x: (ListenAddr, u16)| plan.redirects@.contains(x) <==> exists|t: int|
            0 <= t < lv.len() && (#[trigger] lv[t]) is Https && x == (redirect_bind(lv[t].addr()), lv[t].addr().spec_port()) by {
            if plan.redirects@.contains(x) {
                let t = choose|t: int| 0 <= t < ds@.len() && (#[trigger] plan.listeners@[t]@) is Https && x == (redirect_bind(plan.listeners@[t]@.addr()), plan.listeners@[t]@.addr().spec_port());
                assert(lv[t] == plan.listeners@[t]@);
            }
            if exists|t: int| 0 <= t < lv.len() && (#[trigger] lv[t]) is Https && x == (redirect_bind(lv[t].addr()), lv[t].addr().spec_port()) {
                let t = choose|t: int| 0 <= t < lv.len() && (#[trigger] lv[t]) is Https && x == (redirect_bind(lv[t].addr()), lv[t].addr().spec_port());
                assert(lv[t] == plan.listeners@[t]@);
            }
        }
    }
    Ok(plan)
}

proof fn lemma_site_addrs_len(sites: Seq<SiteV>)
    ensures
        site_addrs(sites) matches Some(a) ==> a.len() == sites.len(),
    decreases sites.len(),
{
    if sites.len() > 0 {
        lemma_site_addrs_len(sites.drop_last());
    }
}


proof fn lemma_distinct_has(addrs: Seq<ListenAddr>, i: int)
    requires
        0 <= i < addrs.len(),
    ensures
        distinct_addrs(addrs).contains(addrs[i]),
    decreases addrs.len(),
{
    let p = addrs.drop_last();
    if i < addrs.len() - 1 {
        lemma_distinct_has(p, i);
        assert(p[i] == addrs[i]);
        let w = choose|w: int| 0 <= w < distinct_addrs(p).len() && distinct_addrs(p)[w] == addrs[i];
        if !distinct_addrs(p).contains(addrs.last()) {
            assert(distinct_addrs(addrs)[w] == addrs[i]);
        }
    } else {
        if !distinct_addrs(p).contains(addrs.last()) {
            assert(distinct_addrs(addrs)[distinct_addrs(addrs).len() - 1] == addrs[i]);
        }
    }
}

proof fn lemma_sites_on_has(addrs: Seq<ListenAddr>, i: int)
    requires
        0 <= i < addrs.len(),
    ensures
        exists|k: int| 0 <= k < sites_on(addrs, addrs[i]).len() && sites_on(addrs, addrs[i])[k] == i,
    decreases addrs.len(),
{
    let p = addrs.drop_last();
    if i < addrs.len() - 1 {
        lemma_sites_on_has(p, i);
        assert(p[i] == addrs[i]);
        let k = choose|k: int| 0 <= k < sites_on(p, p[i]).len() && sites_on(p, p[i])[k] == i;
        if addrs.last() == addrs[i] {
            assert(sites_on(addrs, addrs[i]) == sites_on(p, addrs[i]).push(addrs.len() - 1));
            assert(sites_on(addrs, addrs[i])[k] == i);
        } else {
            assert(sites_on(addrs, addrs[i]) == sites_on(p, addrs[i]));
        }
        assert(0 <= k < sites_on(addrs, addrs[i]).len() && sites_on(addrs, addrs[i])[k] == i);
    } else {
        let on = sites_on(addrs, addrs[i]);
        assert(on[on.len() - 1] == i);
    }
}

/// Every site is served by the listener on its own address: an HTTPS one
/// that lists the site with its host name when it uses TLS, a plain HTTP
/// one otherwise.
pub proof fn lemma_plan_serves_every_site(
    sites: Seq<SiteV>,
    addrs: Seq<ListenAddr>,
    ls: Seq<ListenerV>,
    rs: Seq<(ListenAddr, u16)>,
    i: int,
)
    requires
        site_addrs(sites) == Some(addrs),
        plan_ok(sites, addrs, ls, rs),
        0 <= i < sites.len(),
    ensures
        exists|j: int|
            0 <= j < ls.len() && (#[trigger] ls[j]).addr() == addrs[i] && (sites[i].tls is Some
                ==> (ls[j] matches ListenerV::Https { sites: e, .. } && e.contains(
                (hostname_of(sites[i].address), i),
            ))) && (sites[i].tls is None ==> ls[j] is Http),
{
    lemma_site_addrs_len(sites);
    lemma_distinct_has(addrs, i);
    let ds = distinct_addrs(addrs);
    let j = choose|j: int| 0 <= j < ds.len() && ds[j] == addrs[i];
    assert(Some(ls[j]) == listener_for(sites, addrs, ds[j]));
    lemma_sites_on_has(addrs, i);
    let on = sites_on(addrs, addrs[i]);
    let k = choose|k: int| 0 <= k < on.len() && on[k] == i;
    assert(sites[on[k]] == sites[i]);
    if sites[i].tls is Some {
        assert(!(forall|q: int| 0 <= q < on.len() ==> (#[trigger] sites[on[q]]).tls is None));
        if let ListenerV::Https { sites: e, .. } = ls[j] {
            assert(e[k] == (hostname_of(sites[i].address), i));
        }
    } else {
        assert(!(forall|q: int| 0 <= q < on.len() ==> (#[trigger] sites[on[q]]).tls is Some));
    }
}

} // verus!
