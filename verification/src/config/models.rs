//! The configuration data model and its mathematical view.

use vstd::prelude::*;
use crate::text::{chars_of, same_chars};

verus! {

/// TLS settings of a site: the certificate chain and the private key, as
/// paths to PEM files.
#[derive(Debug)]
pub struct TlsConfig {
    pub cert_path: String,
    pub key_path: String,
}

/// A header operation on the request that goes to the backend: set the
/// header `name` to `value`, or remove it when `value` is `None`.
#[derive(Debug)]
pub struct HeaderDirective {
    pub name: String,
    pub value: Option<String>,
}

/// One configuration directive. Blocks (`handle_path`, `method`) hold the
/// directives nested inside them; `reverse_proxy` carries its timeouts and
/// the header operations for the backend request (`header_up`).
#[derive(Debug)]
pub enum Directive {
    ReverseProxy {
        to: String,
        connect_timeout: Option<u64>,
        read_timeout: Option<u64>,
        header_up: Vec<HeaderDirective>,
    },
    HandlePath { pattern: String, directives: Vec<Directive> },
    UriReplace { find: String, replace: String },
    Header { name: String, value: Option<String> },
    Method { methods: Vec<String>, directives: Vec<Directive> },
    StripPrefix { prefix: String },
    Redirect { status: u16, url: String },
    Respond { status: u16, body: String },
}

/// One site: the address it is configured under, its directives in order,
/// and its TLS settings when it is served over HTTPS.
#[derive(Debug)]
pub struct SiteConfig {
    pub address: String,
    pub directives: Vec<Directive>,
    pub tls: Option<TlsConfig>,
}

/// The whole configuration: its sites, each with a distinct address (see
/// [`Config::wf`]), in the order in which they were defined.
#[derive(Debug)]
pub struct Config {
    pub sites: Vec<SiteConfig>,
}

// ---------------------------------------------------------------------------
// Views
// ---------------------------------------------------------------------------

pub struct TlsV {
    pub cert_path: Seq<char>,
    pub key_path: Seq<char>,
}

/// A header operation as (name, value to set or nothing to remove).
pub type HeaderOpV = (Seq<char>, Option<Seq<char>>);

pub enum DirectiveV {
    ReverseProxy {
        to: Seq<char>,
        connect_timeout: Option<u64>,
        read_timeout: Option<u64>,
        header_up: Seq<HeaderOpV>,
    },
    HandlePath { pattern: Seq<char>, directives: Seq<DirectiveV> },
    UriReplace { find: Seq<char>, replace: Seq<char> },
    Header { name: Seq<char>, value: Option<Seq<char>> },
    Method { methods: Seq<Seq<char>>, directives: Seq<DirectiveV> },
    StripPrefix { prefix: Seq<char> },
    Redirect { status: u16, url: Seq<char> },
    Respond { status: u16, body: Seq<char> },
}

pub struct SiteV {
    pub address: Seq<char>,
    pub directives: Seq<DirectiveV>,
    pub tls: Option<TlsV>,
}

pub open spec fn tls_view(t: Option<TlsConfig>) -> Option<TlsV> {
    match t {
        Some(t) => Some(TlsV { cert_path: t.cert_path@, key_path: t.key_path@ }),
        None => None,
    }
}

pub open spec fn strings_view(v: Seq<String>) -> Seq<Seq<char>> {
    v.map_values(|s: String| s@)
}

pub open spec fn opt_string_view(v: Option<String>) -> Option<Seq<char>> {
    match v {
        Some(s) => Some(s@),
        None => None,
    }
}

pub open spec fn header_ops_view(v: Seq<HeaderDirective>) -> Seq<HeaderOpV> {
    v.map_values(|h: HeaderDirective| (h.name@, opt_string_view(h.value)))
}

impl View for HeaderDirective {
    type V = HeaderOpV;

    open spec fn view(&self) -> HeaderOpV {
        (self.name@, opt_string_view(self.value))
    }
}

pub open spec fn dir_view(d: Directive) -> DirectiveV
    decreases d,
{
    match d {
        Directive::ReverseProxy { to, connect_timeout, read_timeout, header_up } =>
            DirectiveV::ReverseProxy {
            to: to@,
            connect_timeout,
            read_timeout,
            header_up: header_ops_view(header_up@),
        },
        Directive::HandlePath { pattern, directives } => DirectiveV::HandlePath {
            pattern: pattern@,
            directives: Seq::new(
                directives@.len(),
                |i: int|
                    if 0 <= i < directives@.len() {
                        dir_view(directives@[i])
                    } else {
                        DirectiveV::StripPrefix { prefix: Seq::empty() }
                    },
            ),
        },
        Directive::UriReplace { find, replace } => DirectiveV::UriReplace {
            find: find@,
            replace: replace@,
        },
        Directive::Header { name, value } => DirectiveV::Header {
            name: name@,
            value: opt_string_view(value),
        },
        Directive::Method { methods, directives } => DirectiveV::Method {
            methods: strings_view(methods@),
            directives: Seq::new(
                directives@.len(),
                |i: int|
                    if 0 <= i < directives@.len() {
                        dir_view(directives@[i])
                    } else {
                        DirectiveV::StripPrefix { prefix: Seq::empty() }
                    },
            ),
        },
        Directive::StripPrefix { prefix } => DirectiveV::StripPrefix { prefix: prefix@ },
        Directive::Redirect { status, url } => DirectiveV::Redirect { status, url: url@ },
        Directive::Respond { status, body } => DirectiveV::Respond { status, body: body@ },
    }
}

pub open spec fn dirs_view(v: Seq<Directive>) -> Seq<DirectiveV> {
    Seq::new(v.len(), |i: int| dir_view(v[i]))
}

pub proof fn lemma_dirs_view_inner(d: Directive)
    ensures
        d matches Directive::HandlePath { directives, .. } ==> dir_view(d)->HandlePath_directives
            == dirs_view(directives@),
        d matches Directive::Method { directives, .. } ==> dir_view(d)->Method_directives
            == dirs_view(directives@),
{
    match d {
        Directive::HandlePath { directives, .. } => {
            assert(dir_view(d)->HandlePath_directives =~= dirs_view(directives@));
        },
        Directive::Method { directives, .. } => {
            assert(dir_view(d)->Method_directives =~= dirs_view(directives@));
        },
        _ => {},
    }
}

impl View for Directive {
    type V = DirectiveV;

    open spec fn view(&self) -> DirectiveV {
        dir_view(*self)
    }
}

impl View for TlsConfig {
    type V = TlsV;

    open spec fn view(&self) -> TlsV {
        TlsV { cert_path: self.cert_path@, key_path: self.key_path@ }
    }
}

pub open spec fn site_view(s: SiteConfig) -> SiteV {
    SiteV { address: s.address@, directives: dirs_view(s.directives@), tls: tls_view(s.tls) }
}

impl View for SiteConfig {
    type V = SiteV;

    open spec fn view(&self) -> SiteV {
        site_view(*self)
    }
}

pub open spec fn sites_view(v: Seq<SiteConfig>) -> Seq<SiteV> {
    Seq::new(v.len(), |i: int| site_view(v[i]))
}

impl View for Config {
    type V = Seq<SiteV>;

    open spec fn view(&self) -> Seq<SiteV> {
        sites_view(self.sites@)
    }
}

/// No two sites share an address.
pub open spec fn distinct_addresses(sites: Seq<SiteV>) -> bool {
    forall|i: int, j: int|
        0 <= i < sites.len() && 0 <= j < sites.len() && i != j ==> #[trigger] sites[i].address
            != #[trigger] sites[j].address
}

/// Position of the site configured under `address`, if there is one.
pub open spec fn site_index(sites: Seq<SiteV>, address: Seq<char>) -> Option<int> {
    if exists|i: int| 0 <= i < sites.len() && #[trigger] sites[i].address == address {
        Some(choose|i: int| 0 <= i < sites.len() && #[trigger] sites[i].address == address)
    } else {
        None
    }
}

pub proof fn lemma_site_index_unique(sites: Seq<SiteV>, address: Seq<char>, i: int)
    requires
        distinct_addresses(sites),
        0 <= i < sites.len(),
        sites[i].address == address,
    ensures
        site_index(sites, address) == Some(i),
{
}

// ---------------------------------------------------------------------------
// Copies
// ---------------------------------------------------------------------------

fn copy_strings(v: &Vec<String>) -> (r: Vec<String>)
    ensures
        strings_view(r@) == strings_view(v@),
{
    let mut r: Vec<String> = Vec::new();
    let mut i: usize = 0;
    while i < v.len()
        invariant
            i <= v@.len(),
            r@.len() == i,
            forall|k: int| 0 <= k < i ==> r@[k]@ == v@[k]@,
        decreases v@.len() - i,
    {
        r.push(v[i].clone());
        i = i + 1;
    }
    assert(strings_view(r@) =~= strings_view(v@));
    r
}

fn copy_opt_string(v: &Option<String>) -> (r: Option<String>)
    ensures
        opt_string_view(*v) == opt_string_view(r),
{
    match v {
        Some(s) => Some(s.clone()),
        None => None,
    }
}

/// A copy of a list of header operations.
pub fn copy_header_ops(v: &Vec<HeaderDirective>) -> (r: Vec<HeaderDirective>)
    ensures
        header_ops_view(r@) == header_ops_view(v@),
{
    let mut r: Vec<HeaderDirective> = Vec::new();
    let mut i: usize = 0;
    while i < v.len()
        invariant
            i <= v@.len(),
            r@.len() == i,
            forall|k: int| 0 <= k < i ==> r@[k]@ == v@[k]@,
        decreases v@.len() - i,
    {
        r.push(HeaderDirective { name: v[i].name.clone(), value: copy_opt_string(&v[i].value) });
        i = i + 1;
    }
    assert(header_ops_view(r@) =~= header_ops_view(v@));
    r
}

fn copy_directives(v: &Vec<Directive>) -> (r: Vec<Directive>)
    ensures
        dirs_view(r@) == dirs_view(v@),
    decreases v,
{
    let mut r: Vec<Directive> = Vec::new();
    let mut i: usize = 0;
    while i < v.len()
        invariant
            i <= v@.len(),
            r@.len() == i,
            forall|k: int| 0 <= k < i ==> dir_view(r@[k]) == dir_view(v@[k]),
        decreases v@.len() - i,
    {
        assert(decreases_to!(v => v@[i as int]));
        let d = copy_directive(&v[i]);
        r.push(d);
        i = i + 1;
    }
    assert(dirs_view(r@) =~= dirs_view(v@));
    r
}

fn copy_directive(d: &Directive) -> (r: Directive)
    ensures
        dir_view(r) == dir_view(*d),
    decreases d,
{
    proof {
        lemma_dirs_view_inner(*d);
    }
    let r = match d {
        Directive::ReverseProxy { to, connect_timeout, read_timeout, header_up } => Directive::ReverseProxy {
            to: to.clone(),
            connect_timeout: *connect_timeout,
            read_timeout: *read_timeout,
            header_up: copy_header_ops(header_up),
        },
        Directive::HandlePath { pattern, directives } => Directive::HandlePath {
            pattern: pattern.clone(),
            directives: copy_directives(directives),
        },
        Directive::UriReplace { find, replace } => Directive::UriReplace {
            find: find.clone(),
            replace: replace.clone(),
        },
        Directive::Header { name, value } => Directive::Header {
            name: name.clone(),
            value: copy_opt_string(value),
        },
        Directive::Method { methods, directives } => Directive::Method {
            methods: copy_strings(methods),
            directives: copy_directives(directives),
        },
        Directive::StripPrefix { prefix } => Directive::StripPrefix { prefix: prefix.clone() },
        Directive::Redirect { status, url } => Directive::Redirect {
            status: *status,
            url: url.clone(),
        },
        Directive::Respond { status, body } => Directive::Respond {
            status: *status,
            body: body.clone(),
        },
    };
    proof {
        lemma_dirs_view_inner(r);
    }
    r
}

impl Clone for Directive {
    fn clone(&self) -> (r: Self)
        ensures
            r@ == self@,
    {
        copy_directive(self)
    }
}

impl Clone for TlsConfig {
    fn clone(&self) -> (r: Self)
        ensures
            r@ == self@,
    {
        TlsConfig { cert_path: self.cert_path.clone(), key_path: self.key_path.clone() }
    }
}

fn copy_tls(t: &Option<TlsConfig>) -> (r: Option<TlsConfig>)
    ensures
        tls_view(r) == tls_view(*t),
{
    match t {
        Some(t) => Some(t.clone()),
        None => None,
    }
}

impl Clone for SiteConfig {
    fn clone(&self) -> (r: Self)
        ensures
            r@ == self@,
    {
        SiteConfig {
            address: self.address.clone(),
            directives: copy_directives(&self.directives),
            tls: copy_tls(&self.tls),
        }
    }
}

impl Clone for Config {
    fn clone(&self) -> (r: Self)
        ensures
            r@ == self@,
    {
        let mut sites: Vec<SiteConfig> = Vec::new();
        let mut i: usize = 0;
        while i < self.sites.len()
            invariant
                i <= self.sites@.len(),
                sites@.len() == i,
                forall|k: int| 0 <= k < i ==> site_view(sites@[k]) == site_view(self.sites@[k]),
            decreases self.sites@.len() - i,
        {
            sites.push(self.sites[i].clone());
            i = i + 1;
        }
        let r = Config { sites };
        assert(r@ =~= self@);
        r
    }
}

impl Config {
    /// The configuration is well formed: site addresses are distinct, as
    /// keys of a map.
    pub open spec fn wf(&self) -> bool {
        distinct_addresses(self@)
    }

    /// A configuration with no sites.
    pub fn new() -> (c: Config)
        ensures
            c@ == Seq::<SiteV>::empty(),
            c.wf(),
    {
        let c = Config { sites: Vec::new() };
        assert(c@ =~= Seq::<SiteV>::empty());
        c
    }

    /// Number of sites.
    pub fn site_count(&self) -> (n: usize)
        ensures
            n == self@.len(),
    {
        self.sites.len()
    }

    fn position(&self, address: &str) -> (r: Option<usize>)
        ensures
            r matches Some(i) ==> i < self@.len() && self@[i as int].address == address@
                && forall|j: int| 0 <= j < i ==> self@[j].address != address@,
            r is None ==> forall|j: int| 0 <= j < self@.len() ==> self@[j].address != address@,
    {
        let key = chars_of(address);
        let mut i: usize = 0;
        while i < self.sites.len()
            invariant
                i <= self@.len(),
                self@.len() == self.sites@.len(),
                key@ == address@,
                forall|j: int| 0 <= j < i ==> self@[j].address != address@,
            decreases self.sites@.len() - i,
        {
            let a = chars_of(self.sites[i].address.as_str());
            if same_chars(a.as_slice(), key.as_slice()) {
                return Some(i);
            }
            i = i + 1;
        }
        None
    }

    /// Whether the configuration is well formed (see [`Config::wf`]): no two
    /// sites share an address. A configuration built by hand can be tested
    /// with it before it is served.
    pub fn is_wf(&self) -> (b: bool)
        ensures
            b == self.wf(),
    {
        let mut i: usize = 0;
        while i < self.sites.len()
            invariant
                i <= self@.len(),
                self@.len() == self.sites@.len(),
                forall|a: int, c: int|
                    0 <= a < c < i ==> #[trigger] self@[a].address != #[trigger] self@[c].address,
            decreases self.sites@.len() - i,
        {
            assert(self@[i as int].address == self.sites@[i as int].address@);
            match self.position(self.sites[i].address.as_str()) {
                Some(k) => {
                    if k != i {
                        assert(self@[k as int].address == self@[i as int].address);
                        return false;
                    }
                },
                None => {
                    assert(false);
                },
            }
            i = i + 1;
        }
        true
    }

    /// The site configured under `address`.
    pub fn get_site(&self, address: &str) -> (r: Option<&SiteConfig>)
        ensures
            self.wf() ==> match site_index(self@, address@) {
                Some(i) => r matches Some(s) && s@ == self@[i],
                None => r is None,
            },
            r matches Some(s) ==> s@.address == address@,
    {
        match self.position(address) {
            Some(i) => {
                proof {
                    if self.wf() {
                        lemma_site_index_unique(self@, address@, i as int);
                    }
                }
                Some(&self.sites[i])
            },
            None => None,
        }
    }

    /// Whether a site is configured under `address`.
    pub fn contains_site(&self, address: &str) -> (b: bool)
        ensures
            b == (site_index(self@, address@) is Some),
    {
        match self.position(address) {
            Some(i) => {
                assert(self@[i as int].address == address@);
                true
            },
            None => false,
        }
    }

    /// Adds `site`, replacing the site that has the same address (as a map
    /// insert does).
    pub fn insert_site(&mut self, site: SiteConfig)
        requires
            old(self).wf(),
        ensures
            final(self).wf(),
            match site_index(old(self)@, site@.address) {
                Some(i) => final(self)@ == old(self)@.update(i, site@),
                None => final(self)@ == old(self)@.push(site@),
            },
    {
        let ghost sv = site@;
        let addr = site.address.clone();
        match self.position(addr.as_str()) {
            Some(i) => {
                proof {
                    lemma_site_index_unique(old(self)@, sv.address, i as int);
                }
                self.sites.set(i, site);
                assert(self@ =~= old(self)@.update(i as int, sv));
            },
            None => {
                self.sites.push(site);
                assert(self@ =~= old(self)@.push(sv));
            },
        }
    }
}

} // verus!
