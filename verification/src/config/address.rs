//! Listen addresses and host names taken from site addresses.

use vstd::prelude::*;
use crate::config::net::{parse_socket, socket_from_text, ListenAddr, Ipv4Octets};
use crate::text::{chars_of, find_from, find_text, lemma_find_from, parse_unsigned, parse_unsigned_u64, copy_range};
use vstd::string::StrSliceExecFns;

verus! {

broadcast use vstd::string::group_string_axioms;

/// Index of the first `c` in `s`.
pub open spec fn first_index(s: Seq<char>, c: char) -> Option<int> {
    find_from(s, seq![c], 0)
}

/// Index just after the last `c` in `s` (0 when there is none).
pub open spec fn after_last(s: Seq<char>, c: char) -> int
    decreases s.len(),
{
    if s.len() == 0 {
        0
    } else if s.last() == c {
        s.len() as int
    } else {
        after_last(s.drop_last(), c)
    }
}

pub proof fn lemma_after_last(s: Seq<char>, c: char)
    ensures
        0 <= after_last(s, c) <= s.len(),
        after_last(s, c) > 0 ==> s[after_last(s, c) - 1] == c,
        forall|k: int| after_last(s, c) <= k < s.len() ==> s[k] != c,
    decreases s.len(),
{
    if s.len() > 0 && s.last() != c {
        lemma_after_last(s.drop_last(), c);
        assert forall|k: int| after_last(s, c) <= k < s.len() implies s[k] != c by {
            if k < s.len() - 1 {
                assert(s.drop_last()[k] == s[k]);
            }
        }
    }
}

/// The host part of an address: the text inside the brackets of an IPv6
/// literal (`[::1]:443` → `::1`), otherwise the text before the first `:`.
pub open spec fn hostname_of(a: Seq<char>) -> Seq<char> {
    if a.len() > 0 && a[0] == '[' && first_index(a, ']') is Some {
        a.subrange(1, first_index(a, ']').unwrap())
    } else {
        match first_index(a, ':') {
            Some(k) => a.subrange(0, k),
            None => a,
        }
    }
}

pub fn hostname_bounds(v: &[char]) -> (r: (usize, usize))
    ensures
        r.0 <= r.1 <= v@.len(),
        v@.subrange(r.0 as int, r.1 as int) == hostname_of(v@),
{
    let close: [char; 1] = [']'];
    let colon: [char; 1] = [':'];
    let ghost cl = seq![']'];
    let ghost co = seq![':'];
    assert(close@ == cl);
    assert(colon@ == co);
    if v.len() > 0 && v[0] == '[' {
        match find_text(v, &close, 0) {
            Some(end) => {
                proof {
                    lemma_find_from(v@, cl, 0);
                    assert(v@.subrange(end as int, end + 1)[0] == ']');
                }
                return (1, end);
            },
            None => {},
        }
    }
    match find_text(v, &colon, 0) {
        Some(k) => {
            proof {
                lemma_find_from(v@, co, 0);
            }
            (0, k)
        },
        None => {
            assert(v@.subrange(0, v@.len() as int) =~= v@);
            (0, v.len())
        },
    }
}

/// Extract the hostname portion from an address string (used as the SNI
/// key).
///
/// - `"example.com:443"` → `"example.com"`
/// - `"[::1]:443"` → `"::1"`
/// - `"0.0.0.0:9090"` → `"0.0.0.0"`
pub fn extract_hostname(address: &str) -> (h: &str)
    ensures
        h@ == hostname_of(address@),
{
    let v = chars_of(address);
    let (a, b) = hostname_bounds(v.as_slice());
    address.substring_char(a, b)
}

/// HTTP port for the redirect listener that belongs to a TLS listen port:
/// `tls_port - 443 + 80`, saturating at both ends (443 → 80, 8443 → 8080).
pub open spec fn redirect_port_of(tls_port: u16) -> u16 {
    if tls_port < 443 {
        80
    } else if tls_port - 443 + 80 > u16::MAX {
        u16::MAX
    } else {
        (tls_port - 443 + 80) as u16
    }
}

pub fn tls_redirect_port(tls_port: u16) -> (p: u16)
    ensures
        p == redirect_port_of(tls_port),
{
    tls_port.saturating_sub(443).saturating_add(80)
}

/// Where a site listens: the address read as a socket address, or else any
/// interface (`0.0.0.0`) on the port written after the last `:`.
#[verifier::opaque]
pub open spec fn listen_addr_of(a: Seq<char>) -> Option<ListenAddr> {
    match parse_socket(a) {
        Some(x) => Some(x),
        None => match parse_unsigned(a.subrange(after_last(a, ':'), a.len() as int), 0xffff) {
            Some(p) => Some(ListenAddr::spec_any(p as u16)),
            None => None,
        },
    }
}

/// Resolve a configured address to the socket address to bind:
///
/// - `"example.com:443"` → `0.0.0.0:443` (all interfaces)
/// - `"0.0.0.0:9090"` → `0.0.0.0:9090`
///
/// The error is `Cannot parse address: <address>`.
pub fn resolve_listen_addr(address: &str) -> (r: core::result::Result<ListenAddr, String>)
    ensures
        r matches Ok(x) ==> listen_addr_of(address@) == Some(x),
        r matches Err(m) ==> listen_addr_of(address@) is None && m@ == "Cannot parse address: "@
            + address@,
{
    reveal(listen_addr_of);
    let v = chars_of(address);
    match socket_from_text(v.as_slice()) {
        Some(x) => return Ok(x),
        None => {},
    }
    let mut start: usize = v.len();
    assert(v@.subrange(0, v@.len() as int) =~= v@);
    while start > 0 && v[start - 1] != ':'
        invariant
            start <= v@.len(),
            after_last(v@, ':') == after_last(v@.subrange(0, start as int), ':'),
        decreases start,
    {
        assert(v@.subrange(0, start as int).drop_last() =~= v@.subrange(0, start - 1));
        start = start - 1;
    }
    assert(after_last(v@.subrange(0, start as int), ':') == start as int) by {
        if start > 0 {
            assert(v@.subrange(0, start as int).last() == ':');
        }
    }
    let port_text = copy_range(v.as_slice(), start, v.len());
    match parse_unsigned_u64(port_text.as_slice(), 0xffff) {
        Some(p) => Ok(ListenAddr::V4 { ip: Ipv4Octets(0, 0, 0, 0), port: p as u16 }),
        None => {
            let mut m = "Cannot parse address: ".to_owned();
            m.append(address);
            Err(m)
        },
    }
}

/// A site address that is a bare host name: not empty and without any `:`
/// (so without a port).
pub open spec fn is_bare_host(a: Seq<char>) -> bool {
    a.len() > 0 && first_index(a, ':') is None
}

/// The port a site without one in its address listens on: 443 for a TLS
/// site, 80 otherwise (the ports that browsers leave out).
pub open spec fn default_port(tls: bool) -> u16 {
    if tls {
        443
    } else {
        80
    }
}

/// Where a site listens: where its address resolves (see
/// [`listen_addr_of`]); a bare host name (`api.example.com`) listens on all
/// interfaces on the default port of its kind.
pub open spec fn site_listen_addr(a: Seq<char>, tls: bool) -> Option<ListenAddr> {
    match listen_addr_of(a) {
        Some(x) => Some(x),
        None => if is_bare_host(a) {
            Some(ListenAddr::spec_any(default_port(tls)))
        } else {
            None
        },
    }
}

/// Resolve the address of a site (TLS or not) to the socket address it
/// listens on (see [`site_listen_addr`]): `"api.example.com"` →
/// `0.0.0.0:80`, or `0.0.0.0:443` for a TLS site. The error is `Cannot
/// parse address: <address>`.
pub fn resolve_site_addr(address: &str, tls: bool) -> (r: core::result::Result<ListenAddr, String>)
    ensures
        r matches Ok(x) ==> site_listen_addr(address@, tls) == Some(x),
        r matches Err(m) ==> site_listen_addr(address@, tls) is None && m@ == "Cannot parse address: "@
            + address@,
{
    match resolve_listen_addr(address) {
        Ok(x) => Ok(x),
        Err(m) => {
            let v = chars_of(address);
            let colon: [char; 1] = [':'];
            assert(colon@ == seq![':']);
            if v.len() > 0 && find_text(v.as_slice(), &colon, 0).is_none() {
                let port: u16 = if tls { 443 } else { 80 };
                Ok(ListenAddr::V4 { ip: Ipv4Octets(0, 0, 0, 0), port })
            } else {
                Err(m)
            }
        },
    }
}

/// A site address written as an IPv4 socket address (`a.b.c.d:port`, as
/// it displays) listens on exactly that address: same octets in the same
/// order, same port.
pub proof fn lemma_ipv4_site_listens_there(ip: Ipv4Octets, port: u16, tls: bool)
    ensures
        listen_addr_of(crate::config::net::socket_display(ListenAddr::V4 { ip, port })) == Some(
            ListenAddr::V4 { ip, port },
        ),
        site_listen_addr(crate::config::net::socket_display(ListenAddr::V4 { ip, port }), tls)
            == Some(ListenAddr::V4 { ip, port }),
{
    crate::config::net::lemma_socket_v4_reads_back(ip, port);
    reveal(listen_addr_of);
}

} // verus!
