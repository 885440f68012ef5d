//! TLS termination decisions: which certificate a handshake gets (by SNI),
//! and the answer of the plain-HTTP listener that sends clients to HTTPS.

use vstd::prelude::*;
use crate::config::address::{hostname_bounds, hostname_of};
use crate::error::ProxyError;
use crate::proxy::response::Reply;
use crate::text::{chars_of, decimal, decimal_string, eq_ci, lower, lower_all, lowercase, same_chars, same_ci};
use vstd::string::StrSliceExecFns;

verus! {

broadcast use vstd::string::group_string_axioms;

/// The host of a `Host` header value, without its port: the text inside
/// the brackets of an IPv6 literal (`[::1]:8080` → `::1`), otherwise the
/// text before the first `:`.
pub fn hostname_from_host_header(host: &str) -> (h: &str)
    ensures
        h@ == hostname_of(host@),
{
    let v = chars_of(host);
    let (a, b) = hostname_bounds(v.as_slice());
    host.substring_char(a, b)
}

/// Where the redirect listener sends a request: HTTPS on the same host, the
/// port written out unless it is 443.
pub open spec fn redirect_location(host: Seq<char>, tls_port: u16, uri: Seq<char>) -> Seq<char> {
    if tls_port == 443 {
        "https://"@ + host + uri
    } else {
        "https://"@ + host + ":"@ + decimal(tls_port as nat) + uri
    }
}

/// The redirect keeps the request's path and query: the Location is
/// `https://`, the host, the port when it is not 443, and then the
/// request's URI unchanged at its end; on port 443 it is exactly
/// `https://` + host + URI.
pub proof fn lemma_redirect_keeps_uri(host: Seq<char>, tls_port: u16, uri: Seq<char>)
    ensures
        ("https://"@ + host).is_prefix_of(redirect_location(host, tls_port, uri)),
        redirect_location(host, tls_port, uri).len() >= 8 + host.len() + uri.len(),
        redirect_location(host, tls_port, uri).skip(
            redirect_location(host, tls_port, uri).len() - uri.len(),
        ) == uri,
        tls_port == 443 ==> redirect_location(host, tls_port, uri) == "https://"@ + host + uri,
        tls_port != 443 ==> redirect_location(host, tls_port, uri) == "https://"@ + host + ":"@
            + decimal(tls_port as nat) + uri,
{
    reveal_strlit("https://");
    let l = redirect_location(host, tls_port, uri);
    let head = "https://"@ + host;
    if tls_port == 443 {
        assert(l =~= head + uri);
        assert(l.subrange(0, head.len() as int) =~= head);
        assert(l.skip(l.len() - uri.len()) =~= uri);
    } else {
        let mid = ":"@ + decimal(tls_port as nat);
        assert(l =~= head + (mid + uri));
        assert(l.subrange(0, head.len() as int) =~= head);
        assert(l.skip(l.len() - uri.len()) =~= uri);
    }
}

/// The HTML body of the redirect answer.
pub open spec fn redirect_page(location: Seq<char>) -> Seq<char> {
    "<!DOCTYPE html><html><head><title>301 Moved</title></head><body><h1>Moved Permanently</h1><p>The document has moved <a href=\""@
        + location + "\">here</a>.</p></body></html>"@
}

/// The answer of the HTTP→HTTPS redirect listener to a request with the
/// `Host` header `host` (`localhost` when there is none) and the path and
/// query `uri` (`/` when there is none): 301 to the same place over HTTPS
/// on `tls_port`.
pub fn https_redirect(host: Option<&str>, tls_port: u16, uri: Option<&str>) -> (r: Reply)
    ensures
        r.status == 301,
        r.location matches Some(l) && l@ == redirect_location(
            hostname_of(
                match host {
                    Some(h) => h@,
                    None => "localhost"@,
                },
            ),
            tls_port,
            match uri {
                Some(u) => u@,
                None => "/"@,
            },
        ),
        r.content_type matches Some(c) && c@ == "text/html; charset=utf-8"@,
        r.body@ == redirect_page(r.location->0@),
{
    let h = match host {
        Some(h) => h,
        None => "localhost",
    };
    let u = match uri {
        Some(u) => u,
        None => "/",
    };
    let hostname = hostname_from_host_header(h);
    let mut location = "https://".to_owned();
    location.append(hostname);
    if tls_port != 443 {
        location.append(":");
        let p = decimal_string(tls_port as u64);
        location.append(p.as_str());
    }
    location.append(u);
    let mut body = "<!DOCTYPE html><html><head><title>301 Moved</title></head><body><h1>Moved Permanently</h1><p>The document has moved <a href=\"".to_owned();
    body.append(location.as_str());
    body.append("\">here</a>.</p></body></html>");
    Reply {
        status: 301,
        content_type: Some("text/html; charset=utf-8".to_owned()),
        location: Some(location),
        body,
    }
}

// ---------------------------------------------------------------------------
// Certificate selection by SNI
// ---------------------------------------------------------------------------

/// Lexicographic order of text by character code, which is the order of
/// its UTF-8 bytes (how `String` sorts).
pub open spec fn lex_le(a: Seq<char>, b: Seq<char>) -> bool
    decreases a.len(),
{
    if a.len() == 0 {
        true
    } else if b.len() == 0 {
        false
    } else if a[0] < b[0] {
        true
    } else if a[0] > b[0] {
        false
    } else {
        lex_le(a.drop_first(), b.drop_first())
    }
}

pub proof fn lemma_lex_total(a: Seq<char>, b: Seq<char>)
    ensures
        lex_le(a, b) || lex_le(b, a),
    decreases a.len(),
{
    if a.len() > 0 && b.len() > 0 && a[0] == b[0] {
        lemma_lex_total(a.drop_first(), b.drop_first());
    }
}

pub proof fn lemma_lex_antisym(a: Seq<char>, b: Seq<char>)
    requires
        lex_le(a, b),
        lex_le(b, a),
    ensures
        a == b,
    decreases a.len(),
{
    if a.len() > 0 && b.len() > 0 && a[0] == b[0] {
        lemma_lex_antisym(a.drop_first(), b.drop_first());
        assert(a =~= seq![a[0]] + a.drop_first());
        assert(b =~= seq![b[0]] + b.drop_first());
    } else if a.len() == 0 && b.len() == 0 {
        assert(a =~= b);
    }
}

pub proof fn lemma_lex_trans(a: Seq<char>, b: Seq<char>, c: Seq<char>)
    requires
        lex_le(a, b),
        lex_le(b, c),
    ensures
        lex_le(a, c),
    decreases a.len(),
{
    if a.len() > 0 && b.len() > 0 && c.len() > 0 && a[0] == b[0] && b[0] == c[0] {
        lemma_lex_trans(a.drop_first(), b.drop_first(), c.drop_first());
    }
}

/// The certificate table: each lowercased host name to the position of the
/// last site that has it (later sites overwrite earlier ones).
pub open spec fn sni_map(hosts: Seq<Seq<char>>) -> Map<Seq<char>, int>
    decreases hosts.len(),
{
    if hosts.len() == 0 {
        Map::empty()
    } else {
        sni_map(hosts.drop_last()).insert(lower_all(hosts.last()), hosts.len() - 1)
    }
}

/// The last site whose host is `d`, ignoring ASCII case.
pub open spec fn named_default(hosts: Seq<Seq<char>>, d: Seq<char>) -> Option<int>
    decreases hosts.len(),
{
    if hosts.len() == 0 {
        None
    } else if eq_ci(hosts.last(), d) {
        Some(hosts.len() - 1)
    } else {
        named_default(hosts.drop_last(), d)
    }
}

/// `k` is the smallest host name of the table.
pub open spec fn is_first_key(m: Map<Seq<char>, int>, k: Seq<char>) -> bool {
    m.dom().contains(k) && forall|k2: Seq<char>| #[trigger] m.dom().contains(k2) ==> lex_le(k, k2)
}

/// The certificate for clients without SNI (or with an unknown name): the
/// named default host's, else that of the smallest host name.
pub open spec fn default_site(hosts: Seq<Seq<char>>, d: Option<Seq<char>>) -> Option<int> {
    match match d {
        Some(n) => named_default(hosts, n),
        None => None,
    } {
        Some(j) => Some(j),
        None => if hosts.len() == 0 {
            None
        } else {
            let k = choose|k: Seq<char>| is_first_key(sni_map(hosts), k);
            Some(sni_map(hosts)[k])
        },
    }
}

/// The site whose certificate answers a handshake with the server name
/// `sni`: the one its lowercased name maps to, else the default.
pub open spec fn sni_choice(hosts: Seq<Seq<char>>, d: Option<Seq<char>>, sni: Option<Seq<char>>) -> Option<int> {
    match sni {
        Some(s) => if sni_map(hosts).dom().contains(lower_all(s)) {
            Some(sni_map(hosts)[lower_all(s)])
        } else {
            default_site(hosts, d)
        },
        None => default_site(hosts, d),
    }
}

/// The certificate table of one TLS listener, over the positions of its
/// sites.
pub struct SniTable {
    keys: Vec<Vec<char>>,
    sites: Vec<usize>,
    default: Option<usize>,
    hosts: Ghost<Seq<Seq<char>>>,
    default_host: Ghost<Option<Seq<char>>>,
}

pub open spec fn strings_of(v: Seq<String>) -> Seq<Seq<char>> {
    v.map_values(|s: String| s@)
}

proof fn lemma_sni_map_step(hosts: Seq<Seq<char>>, j: int)
    requires
        0 <= j < hosts.len(),
    ensures
        sni_map(hosts.take(j + 1)) == sni_map(hosts.take(j)).insert(lower_all(hosts[j]), j),
{
    assert(hosts.take(j + 1).drop_last() =~= hosts.take(j));
}

proof fn lemma_named_default_step(hosts: Seq<Seq<char>>, d: Seq<char>, j: int)
    requires
        0 <= j < hosts.len(),
    ensures
        named_default(hosts.take(j + 1), d) == if eq_ci(hosts[j], d) {
            Some(j)
        } else {
            named_default(hosts.take(j), d)
        },
{
    assert(hosts.take(j + 1).drop_last() =~= hosts.take(j));
}

proof fn lemma_sni_map_range(hosts: Seq<Seq<char>>)
    ensures
        forall|k: Seq<char>| #[trigger] sni_map(hosts).dom().contains(k) ==> 0 <= sni_map(hosts)[k]
            < hosts.len() && lower_all(hosts[sni_map(hosts)[k]]) == k,
        hosts.len() > 0 ==> sni_map(hosts).dom().contains(lower_all(hosts.last())),
    decreases hosts.len(),
{
    if hosts.len() > 0 {
        lemma_sni_map_range(hosts.drop_last());
        assert forall|k: Seq<char>| #[trigger] sni_map(hosts).dom().contains(k) implies 0
            <= sni_map(hosts)[k] < hosts.len() && lower_all(hosts[sni_map(hosts)[k]]) == k by {
            if k != lower_all(hosts.last()) {
                let j = sni_map(hosts.drop_last())[k];
                assert(hosts.drop_last()[j] == hosts[j]);
            }
        }
    }
}

fn lex_le_exec(a: &[char], b: &[char]) -> (r: bool)
    ensures
        r == lex_le(a@, b@),
{
    let mut i: usize = 0;
    assert(a@.skip(0) =~= a@);
    assert(b@.skip(0) =~= b@);
    while i < a.len() && i < b.len() && a[i] == b[i]
        invariant
            i <= a@.len(),
            i <= b@.len(),
            lex_le(a@, b@) == lex_le(a@.skip(i as int), b@.skip(i as int)),
        decreases a@.len() - i,
    {
        assert(a@.skip(i as int).drop_first() =~= a@.skip(i + 1));
        assert(b@.skip(i as int).drop_first() =~= b@.skip(i + 1));
        i = i + 1;
    }
    if i == a.len() {
        true
    } else if i == b.len() {
        false
    } else {
        assert(a@.skip(i as int)[0] == a@[i as int]);
        assert(b@.skip(i as int)[0] == b@[i as int]);
        a[i] < b[i]
    }
}

impl SniTable {
    /// The host names the table was built from, in site order.
    pub closed spec fn hosts(&self) -> Seq<Seq<char>> {
        self.hosts@
    }

    /// The named default host it was built with.
    pub closed spec fn default_host(&self) -> Option<Seq<char>> {
        self.default_host@
    }

    pub closed spec fn wf(&self) -> bool {
        let m = sni_map(self.hosts@);
        &&& self.keys@.len() == self.sites@.len()
        &&& forall|t: int|
            0 <= t < self.keys@.len() ==> m.dom().contains(#[trigger] self.keys@[t]@)
                && m[self.keys@[t]@] == self.sites@[t] as int
        &&& forall|k: Seq<char>|
            #[trigger] m.dom().contains(k) ==> exists|t: int|
                0 <= t < self.keys@.len() && #[trigger] self.keys@[t]@ == k
        &&& self.default matches Some(d) ==> default_site(self.hosts@, self.default_host@) == Some(d as int)
        &&& self.default is None ==> default_site(self.hosts@, self.default_host@) is None
    }

    fn position(&self, k: &[char]) -> (r: Option<usize>)
        requires
            self.keys@.len() == self.sites@.len(),
        ensures
            r matches Some(t) ==> t < self.keys@.len() && self.keys@[t as int]@ == k@,
            r is None ==> forall|t: int| 0 <= t < self.keys@.len() ==> self.keys@[t]@ != k@,
    {
        let mut t: usize = 0;
        while t < self.keys.len()
            invariant
                t <= self.keys@.len(),
                forall|s: int| 0 <= s < t ==> self.keys@[s]@ != k@,
            decreases self.keys@.len() - t,
        {
            if same_chars(self.keys[t].as_slice(), k) {
                return Some(t);
            }
            t = t + 1;
        }
        None
    }

    /// Builds the table for the TLS sites of one listener, given their host
    /// names in order. `default_hostname` names the site whose certificate
    /// goes to clients without SNI; without it (or when no site has that
    /// name) the smallest host name's site is used. No site at all is an
    /// error.
    pub fn build(hosts: &[String], default_hostname: Option<&str>) -> (r: Result<SniTable, ProxyError>)
        ensures
            hosts@.len() == 0 <==> r is Err,
            r matches Err(e) ==> (e matches ProxyError::Io(m)
                && m@ == "Cannot build TLS acceptor: no TLS sites provided"@),
            r matches Ok(t) ==> t.wf() && t.hosts() == strings_of(hosts@) && t.default_host()
                == match default_hostname {
                Some(d) => Some(d@),
                None => None,
            },
    {
        if hosts.len() == 0 {
            return Err(ProxyError::Io("Cannot build TLS acceptor: no TLS sites provided".to_owned()));
        }
        let ghost hv = strings_of(hosts@);
        let ghost dh = match default_hostname {
            Some(d) => Some(d@),
            None => None,
        };
        let mut table = SniTable {
            keys: Vec::new(),
            sites: Vec::new(),
            default: None,
            hosts: Ghost(hv),
            default_host: Ghost(dh),
        };
        let dchars: Option<Vec<char>> = match default_hostname {
            Some(d) => Some(chars_of(d)),
            None => None,
        };
        let mut named: Option<usize> = None;
        let mut j: usize = 0;
        assert(hv.take(0) =~= Seq::<Seq<char>>::empty());
        while j < hosts.len()
            invariant
                hv == strings_of(hosts@),
                table.hosts@ == hv,
                table.default_host@ == dh,
                j <= hosts@.len(),
                table.keys@.len() == table.sites@.len(),
                forall|t: int|
                    0 <= t < table.keys@.len() ==> sni_map(hv.take(j as int)).dom().contains(
                        #[trigger] table.keys@[t]@,
                    ) && sni_map(hv.take(j as int))[table.keys@[t]@] == table.sites@[t] as int,
                forall|k: Seq<char>|
                    #[trigger] sni_map(hv.take(j as int)).dom().contains(k) ==> exists|t: int|
                        0 <= t < table.keys@.len() && #[trigger] table.keys@[t]@ == k,
                forall|s: int, t: int|
                    0 <= s < t < table.keys@.len() ==> table.keys@[s]@ != table.keys@[t]@,
                match dchars {
                    Some(dc) => dh == Some(dc@) && (named matches Some(x) ==> x < j && named_default(
                        hv.take(j as int),
                        dc@,
                    ) == Some(x as int)) && (named is None ==> named_default(hv.take(j as int), dc@) is None),
                    None => dh is None && named is None,
                },
            decreases hosts@.len() - j,
        {
            let hc = chars_of(hosts[j].as_str());
            assert(hc@ == hv[j as int]);
            proof {
                lemma_sni_map_step(hv, j as int);
            }
            match &dchars {
                Some(dc) => {
                    proof {
                        lemma_named_default_step(hv, dc@, j as int);
                    }
                    if same_ci(hc.as_slice(), dc.as_slice()) {
                        named = Some(j);
                    }
                },
                None => {},
            }
            let k = lowercase(hc.as_slice());
            let ghost kk = k@;
            match table.position(k.as_slice()) {
                Some(t) => {
                    table.sites.set(t, j);
                    proof {
                        assert forall|s: int| 0 <= s < table.keys@.len() implies sni_map(
                            hv.take(j + 1),
                        ).dom().contains(#[trigger] table.keys@[s]@) && sni_map(hv.take(j + 1))[table.keys@[s]@]
                            == table.sites@[s] as int by {
                            if s != t {
                                assert(table.keys@[s]@ != kk);
                            }
                        }
                    }
                },
                None => {
                    let ghost old_keys = table.keys@;
                    table.keys.push(k);
                    table.sites.push(j);
                    proof {
                        assert forall|s: int| 0 <= s < old_keys.len() implies #[trigger] table.keys@[s] == old_keys[s] by {}

                        assert forall|k2: Seq<char>| #[trigger] sni_map(hv.take(j + 1)).dom().contains(
                            k2,
                        ) implies exists|t: int|
                            0 <= t < table.keys@.len() && #[trigger] table.keys@[t]@ == k2 by {
                            if k2 == kk {
                                assert(table.keys@[table.keys@.len() - 1]@ == kk);
                            } else {
                                assert(sni_map(hv.take(j as int)).dom().contains(k2));
                                let t = choose|t: int|
                                    0 <= t < old_keys.len() && #[trigger] old_keys[t]@ == k2;
                                assert(table.keys@[t]@ == k2);
                            }
                        }
                    }
                },
            }
            j = j + 1;
        }
        assert(hv.take(hosts@.len() as int) =~= hv);
        match named {
            Some(x) => {
                table.default = Some(x);
            },
            None => {
                let mut best: usize = 0;
                let mut t: usize = 1;
                proof {
                    lemma_sni_map_range(hv);
                    let k0 = lower_all(hv.last());
                    let w = choose|w: int| 0 <= w < table.keys@.len() && #[trigger] table.keys@[w]@ == k0;
                    assert(table.keys@.len() > 0);
                    lemma_lex_total(table.keys@[0]@, table.keys@[0]@);
                }
                while t < table.keys.len()
                    invariant
                        1 <= t <= table.keys@.len(),
                        best < t,
                        forall|s: int| 0 <= s < t ==> lex_le(table.keys@[best as int]@, #[trigger] table.keys@[s]@),
                    decreases table.keys@.len() - t,
                {
                    if !lex_le_exec(table.keys[best].as_slice(), table.keys[t].as_slice()) {
                        proof {
                            lemma_lex_total(table.keys@[best as int]@, table.keys@[t as int]@);
                            assert forall|s: int| 0 <= s <= t implies lex_le(
                                table.keys@[t as int]@,
                                #[trigger] table.keys@[s]@,
                            ) by {
                                if s < t {
                                    lemma_lex_trans(table.keys@[t as int]@, table.keys@[best as int]@, table.keys@[s]@);
                                } else {
                                    lemma_lex_total(table.keys@[s]@, table.keys@[s]@);
                                }
                            }
                        }
                        best = t;
                    } else {
                        proof {
                            lemma_lex_total(table.keys@[t as int]@, table.keys@[t as int]@);
                        }
                    }
                    t = t + 1;
                }
                table.default = Some(table.sites[best]);
                proof {
                    let m = sni_map(hv);
                    let kb = table.keys@[best as int]@;
                    assert(is_first_key(m, kb)) by {
                        assert forall|k2: Seq<char>| #[trigger] m.dom().contains(k2) implies lex_le(kb, k2) by {
                            let s = choose|s: int| 0 <= s < table.keys@.len() && #[trigger] table.keys@[s]@ == k2;
                            assert(lex_le(kb, table.keys@[s]@));
                        }
                    }
                    let k = choose|k: Seq<char>| is_first_key(m, k);
                    assert(is_first_key(m, k));
                    lemma_lex_antisym(k, kb);
                }
            },
        }
        Ok(table)
    }

    /// The position of the site whose certificate answers a handshake with
    /// the server name `sni` (see [`sni_choice`]).
    pub fn resolve(&self, sni: Option<&str>) -> (r: Option<usize>)
        requires
            self.wf(),
        ensures
            match sni_choice(
                self.hosts(),
                self.default_host(),
                match sni {
                    Some(s) => Some(s@),
                    None => None,
                },
            ) {
                Some(i) => r == Some(i as usize),
                None => r is None,
            },
    {
        match sni {
            Some(s) => {
                let c = chars_of(s);
                let k = lowercase(c.as_slice());
                match self.position(k.as_slice()) {
                    Some(t) => Some(self.sites[t]),
                    None => {
                        proof {
                            if sni_map(self.hosts@).dom().contains(k@) {
                                let t = choose|t: int|
                                    0 <= t < self.keys@.len() && #[trigger] self.keys@[t]@ == k@;
                                assert(self.keys@[t]@ == k@);
                            }
                        }
                        self.default
                    },
                }
            },
            None => self.default,
        }
    }
}


proof fn lemma_first_key_exists(hosts: Seq<Seq<char>>)
    requires
        hosts.len() > 0,
    ensures
        exists|k: Seq<char>| is_first_key(sni_map(hosts), k),
    decreases hosts.len(),
{
    let p = hosts.drop_last();
    let kl = lower_all(hosts.last());
    let m = sni_map(hosts);
    lemma_lex_total(kl, kl);
    if p.len() == 0 {
        assert(sni_map(p) == Map::<Seq<char>, int>::empty());
        assert(is_first_key(m, kl));
    } else {
        lemma_first_key_exists(p);
        let k0 = choose|k: Seq<char>| is_first_key(sni_map(p), k);
        lemma_lex_total(k0, kl);
        if lex_le(k0, kl) {
            assert(is_first_key(m, k0));
        } else {
            assert forall|k2: Seq<char>| #[trigger] m.dom().contains(k2) implies lex_le(kl, k2) by {
                if k2 != kl {
                    assert(sni_map(p).dom().contains(k2));
                    lemma_lex_trans(kl, k0, k2);
                }
            }
            assert(is_first_key(m, kl));
        }
    }
}

proof fn lemma_named_default_range(hosts: Seq<Seq<char>>, d: Seq<char>)
    ensures
        named_default(hosts, d) matches Some(j) ==> 0 <= j < hosts.len() && eq_ci(hosts[j], d),
    decreases hosts.len(),
{
    if hosts.len() > 0 && !eq_ci(hosts.last(), d) {
        lemma_named_default_range(hosts.drop_last(), d);
        match named_default(hosts.drop_last(), d) {
            Some(j) => {
                assert(hosts.drop_last()[j] == hosts[j]);
            },
            None => {},
        }
    }
}

proof fn lemma_sni_map_has_host(hosts: Seq<Seq<char>>, j: int)
    requires
        0 <= j < hosts.len(),
    ensures
        sni_map(hosts).dom().contains(lower_all(hosts[j])),
    decreases hosts.len(),
{
    if j < hosts.len() - 1 {
        lemma_sni_map_has_host(hosts.drop_last(), j);
        assert(hosts.drop_last()[j] == hosts[j]);
    }
}

proof fn lemma_eq_ci_lower(a: Seq<char>, b: Seq<char>)
    ensures
        eq_ci(a, b) <==> lower_all(a) == lower_all(b),
{
    if lower_all(a) == lower_all(b) {
        assert(a.len() == lower_all(a).len());
        assert forall|i: int| 0 <= i < a.len() implies lower(a[i]) == lower(b[i]) by {
            assert(lower_all(a)[i] == lower(a[i]));
            assert(lower_all(b)[i] == lower(b[i]));
        }
    }
    if eq_ci(a, b) {
        assert(lower_all(a) =~= lower_all(b));
    }
}

/// A TLS listener with at least one site always has a certificate to
/// present, for any server name or none: that of one of its sites.
pub proof fn lemma_sni_always_answers(hosts: Seq<Seq<char>>, d: Option<Seq<char>>, sni: Option<Seq<char>>)
    requires
        hosts.len() > 0,
    ensures
        sni_choice(hosts, d, sni) matches Some(i) && 0 <= i < hosts.len(),
{
    lemma_sni_map_range(hosts);
    lemma_first_key_exists(hosts);
    if let Some(n) = d {
        lemma_named_default_range(hosts, n);
    }
}

/// A handshake whose server name is one of the listener's host names,
/// ignoring ASCII case, gets the certificate of a site with that name.
pub proof fn lemma_sni_matches_host(hosts: Seq<Seq<char>>, d: Option<Seq<char>>, s: Seq<char>, j: int)
    requires
        0 <= j < hosts.len(),
        eq_ci(hosts[j], s),
    ensures
        sni_choice(hosts, d, Some(s)) matches Some(i) && 0 <= i < hosts.len() && eq_ci(hosts[i], s),
{
    lemma_eq_ci_lower(hosts[j], s);
    lemma_sni_map_has_host(hosts, j);
    lemma_sni_map_range(hosts);
    let i = sni_map(hosts)[lower_all(s)];
    lemma_eq_ci_lower(hosts[i], s);
}

} // verus!
