//! Socket and IP addresses as the standard library reads them from text
//! (`SocketAddr::from_str`, `IpAddr::from_str`), over sequences of `char`.
//!
//! The grammar follows the standard library: dotted-decimal IPv4 with
//! octets of at most three digits and no leading zeros, IPv6 of up to eight
//! hexadecimal groups with one `::` and an optional trailing IPv4 part, a
//! bracketed IPv6 socket address with an optional `%scope`, and a decimal
//! port that may have leading zeros.

use vstd::prelude::*;
use crate::text::{append_chars, chars_of, decimal, decimal_string, lemma_decimal_shape};

verus! {

#[derive(Clone, Copy, Debug, PartialEq, Eq, Structural)]
pub struct Ipv4Octets(pub u8, pub u8, pub u8, pub u8);

#[derive(Clone, Copy, Debug, PartialEq, Eq, Structural)]
pub struct Ipv6Segments(pub u16, pub u16, pub u16, pub u16, pub u16, pub u16, pub u16, pub u16);

/// An IP address (`std::net::IpAddr`).
#[derive(Clone, Copy, Debug, PartialEq, Eq, Structural)]
pub enum IpAddress {
    V4(Ipv4Octets),
    V6(Ipv6Segments),
}

/// A socket address (`std::net::SocketAddr`); an IPv6 one carries its
/// scope id.
#[allow(inconsistent_fields)]
#[derive(Clone, Copy, Debug, PartialEq, Eq, Structural)]
pub enum ListenAddr {
    V4 { ip: Ipv4Octets, port: u16 },
    V6 { ip: Ipv6Segments, scope_id: u32, port: u16 },
}

impl ListenAddr {
    pub open spec fn spec_port(self) -> u16 {
        match self {
            ListenAddr::V4 { port, .. } => port,
            ListenAddr::V6 { port, .. } => port,
        }
    }

    pub open spec fn spec_ip(self) -> IpAddress {
        match self {
            ListenAddr::V4 { ip, .. } => IpAddress::V4(ip),
            ListenAddr::V6 { ip, .. } => IpAddress::V6(ip),
        }
    }

    pub fn port(&self) -> (p: u16)
        ensures
            p == self.spec_port(),
    {
        match self {
            ListenAddr::V4 { port, .. } => *port,
            ListenAddr::V6 { port, .. } => *port,
        }
    }

    pub fn ip(&self) -> (ip: IpAddress)
        ensures
            ip == self.spec_ip(),
    {
        match self {
            ListenAddr::V4 { ip, .. } => IpAddress::V4(*ip),
            ListenAddr::V6 { ip, .. } => IpAddress::V6(*ip),
        }
    }

    /// The address `0.0.0.0:port`.
    pub open spec fn spec_any(port: u16) -> ListenAddr {
        ListenAddr::V4 { ip: Ipv4Octets(0, 0, 0, 0), port }
    }
}

// ---------------------------------------------------------------------------
// Numbers
// ---------------------------------------------------------------------------

pub open spec fn is_radix_digit(c: char, radix: nat) -> bool {
    ('0' <= c && c <= '9') || (radix == 16 && (('a' <= c && c <= 'f') || ('A' <= c && c
        <= 'F')))
}

pub open spec fn radix_val(c: char) -> nat {
    if '0' <= c && c <= '9' {
        (c as u32 - '0' as u32) as nat
    } else if 'a' <= c && c <= 'f' {
        (c as u32 - 'a' as u32 + 10) as nat
    } else {
        (c as u32 - 'A' as u32 + 10) as nat
    }
}

/// End of the run of digits of `radix` that starts at `pos`.
pub open spec fn digit_run_end(s: Seq<char>, pos: int, radix: nat) -> int
    decreases s.len() - pos,
{
    if 0 <= pos < s.len() && is_radix_digit(s[pos], radix) {
        digit_run_end(s, pos + 1, radix)
    } else {
        pos
    }
}

/// Value of the digits `s[from..to]`.
pub open spec fn run_value(s: Seq<char>, from: int, to: int, radix: nat) -> nat
    decreases to - from,
{
    if to <= from {
        0
    } else {
        run_value(s, from, to - 1, radix) * radix + radix_val(s[to - 1])
    }
}

/// A number of `radix` at `pos`: at least one digit, at most `max_digits`
/// digits when that is given, a value no larger than `max`, and no leading
/// zero unless `zero_prefix_ok`. Gives the value and the index after it.
pub open spec fn read_number(
    s: Seq<char>,
    pos: int,
    radix: nat,
    max_digits: Option<nat>,
    zero_prefix_ok: bool,
    max: nat,
) -> Option<(nat, int)> {
    let e = digit_run_end(s, pos, radix);
    let n = e - pos;
    if pos < 0 || n <= 0 {
        None
    } else if max_digits matches Some(m) && n > m {
        None
    } else if run_value(s, pos, e, radix) > max {
        None
    } else if !zero_prefix_ok && s[pos] == '0' && n > 1 {
        None
    } else {
        Some((run_value(s, pos, e, radix), e))
    }
}

pub proof fn lemma_digit_run(s: Seq<char>, pos: int, radix: nat)
    requires
        0 <= pos <= s.len(),
    ensures
        pos <= digit_run_end(s, pos, radix) <= s.len(),
        forall|k: int| pos <= k < digit_run_end(s, pos, radix) ==> is_radix_digit(s[k], radix),
        digit_run_end(s, pos, radix) < s.len() ==> !is_radix_digit(
            s[digit_run_end(s, pos, radix)],
            radix,
        ),
    decreases s.len() - pos,
{
    if pos < s.len() && is_radix_digit(s[pos], radix) {
        lemma_digit_run(s, pos + 1, radix);
    }
}

pub proof fn lemma_run_value_mono(s: Seq<char>, from: int, mid: int, to: int, radix: nat)
    requires
        from <= mid <= to,
        radix >= 1,
    ensures
        run_value(s, from, mid, radix) <= run_value(s, from, to, radix),
    decreases to - mid,
{
    if mid < to {
        lemma_run_value_mono(s, from, mid, to - 1, radix);
        let x = run_value(s, from, to - 1, radix);
        assert(x <= x * radix) by (nonlinear_arith)
            requires
                radix >= 1,
        ;
    }
}

fn digit_value(c: char, radix: u64) -> (r: Option<u64>)
    requires
        radix == 10 || radix == 16,
    ensures
        r matches Some(v) ==> is_radix_digit(c, radix as nat) && v as nat == radix_val(c) && v
            < radix,
        r is None ==> !is_radix_digit(c, radix as nat),
{
    if '0' <= c && c <= '9' {
        Some((c as u32 - '0' as u32) as u64)
    } else if radix == 16 && 'a' <= c && c <= 'f' {
        Some((c as u32 - 'a' as u32 + 10) as u64)
    } else if radix == 16 && 'A' <= c && c <= 'F' {
        Some((c as u32 - 'A' as u32 + 10) as u64)
    } else {
        None
    }
}

pub fn number_at(
    s: &[char],
    pos: usize,
    radix: u64,
    max_digits: Option<usize>,
    zero_prefix_ok: bool,
    max: u64,
) -> (r: Option<(u64, usize)>)
    requires
        radix == 10 || radix == 16,
        pos <= s@.len(),
    ensures
        r matches Some((v, e)) ==> read_number(
            s@,
            pos as int,
            radix as nat,
            match max_digits {
                Some(m) => Some(m as nat),
                None => None,
            },
            zero_prefix_ok,
            max as nat,
        ) == Some((v as nat, e as int)),
        r is None ==> read_number(
            s@,
            pos as int,
            radix as nat,
            match max_digits {
                Some(m) => Some(m as nat),
                None => None,
            },
            zero_prefix_ok,
            max as nat,
        ) is None,
{
    let ghost md: Option<nat> = match max_digits {
        Some(m) => Some(m as nat),
        None => None,
    };
    proof {
        lemma_digit_run(s@, pos as int, radix as nat);
    }
    let ghost e = digit_run_end(s@, pos as int, radix as nat);
    let mut acc: u64 = 0;
    let mut i: usize = pos;
    while i < s.len()
        invariant
            radix == 10 || radix == 16,
            pos <= i <= s@.len(),
            e == digit_run_end(s@, pos as int, radix as nat),
            i <= e <= s@.len(),
            forall|k: int| pos <= k < e ==> is_radix_digit(s@[k], radix as nat),
            e < s@.len() ==> !is_radix_digit(s@[e], radix as nat),
            acc as nat == run_value(s@, pos as int, i as int, radix as nat),
            acc <= max,
            md == (match max_digits {
                Some(m) => Some(m as nat),
                None => None,
            }),
            md matches Some(m) ==> i - pos <= m,
        ensures
            i == e,
        decreases s@.len() - i,
    {
        match digit_value(s[i], radix) {
            None => {
                assert(i >= e) by {
                    if i < e {
                        assert(is_radix_digit(s@[i as int], radix as nat));
                    }
                }
                break ;
            },
            Some(d) => {
                assert(i < e);
                assert(run_value(s@, pos as int, i + 1, radix as nat) == acc * radix + d);
                if d > max {
                    proof {
                        lemma_run_value_mono(s@, pos as int, i + 1, e, radix as nat);
                        assert(acc * radix + d >= d) by (nonlinear_arith)
                            requires
                                radix > 0,
                        ;
                    }
                    return None;
                }
                let q: u64 = (max - d) / radix;
                if acc > q {
                    assert(acc * radix + d > max) by (nonlinear_arith)
                        requires
                            acc > q,
                            q == (max - d) / (radix as int),
                            d <= max,
                            radix > 0,
                    ;
                    proof {
                        lemma_run_value_mono(s@, pos as int, i + 1, e, radix as nat);
                    }
                    return None;
                }
                assert(acc * radix + d <= max) by (nonlinear_arith)
                    requires
                        acc <= q,
                        q == (max - d) / (radix as int),
                        d <= max,
                        radix > 0,
                ;
                acc = acc * radix + d;
                i = i + 1;
                match max_digits {
                    Some(m) => {
                        if i - pos > m {
                            return None;
                        }
                    },
                    None => {},
                }
            },
        }
    }
    assert(i == e);
    if i == pos {
        return None;
    }
    if !zero_prefix_ok && s[pos] == '0' && i - pos > 1 {
        return None;
    }
    Some((acc, i))
}

// ---------------------------------------------------------------------------
// IPv4
// ---------------------------------------------------------------------------

/// Four decimal octets separated by dots, starting at `pos`.
pub open spec fn read_ipv4(s: Seq<char>, pos: int) -> Option<(Seq<nat>, int)> {
    match read_number(s, pos, 10, Some(3), false, 255) {
        None => None,
        Some((a, p1)) => if !(p1 < s.len() && s[p1] == '.') {
            None
        } else {
            match read_number(s, p1 + 1, 10, Some(3), false, 255) {
                None => None,
                Some((b, p2)) => if !(p2 < s.len() && s[p2] == '.') {
                    None
                } else {
                    match read_number(s, p2 + 1, 10, Some(3), false, 255) {
                        None => None,
                        Some((c, p3)) => if !(p3 < s.len() && s[p3] == '.') {
                            None
                        } else {
                            match read_number(s, p3 + 1, 10, Some(3), false, 255) {
                                None => None,
                                Some((d, p4)) => Some((seq![a, b, c, d], p4)),
                            }
                        },
                    }
                },
            }
        },
    }
}

fn ipv4_at(s: &[char], pos: usize) -> (r: Option<(Ipv4Octets, usize)>)
    requires
        pos <= s@.len(),
    ensures
        r matches Some((o, e)) ==> read_ipv4(s@, pos as int) == Some((
            seq![o.0 as nat, o.1 as nat, o.2 as nat, o.3 as nat],
            e as int,
        )),
        r is None ==> read_ipv4(s@, pos as int) is None,
        r matches Some((o, e)) ==> pos < e <= s@.len(),
{
    let (a, p1) = match number_at(s, pos, 10, Some(3), false, 255) {
        None => return None,
        Some(x) => x,
    };
    proof {
        lemma_digit_run(s@, pos as int, 10);
    }
    if !(p1 < s.len() && s[p1] == '.') {
        return None;
    }
    let (b, p2) = match number_at(s, p1 + 1, 10, Some(3), false, 255) {
        None => return None,
        Some(x) => x,
    };
    proof {
        lemma_digit_run(s@, p1 + 1, 10);
    }
    if !(p2 < s.len() && s[p2] == '.') {
        return None;
    }
    let (c, p3) = match number_at(s, p2 + 1, 10, Some(3), false, 255) {
        None => return None,
        Some(x) => x,
    };
    proof {
        lemma_digit_run(s@, p2 + 1, 10);
    }
    if !(p3 < s.len() && s[p3] == '.') {
        return None;
    }
    let (d, p4) = match number_at(s, p3 + 1, 10, Some(3), false, 255) {
        None => return None,
        Some(x) => x,
    };
    proof {
        lemma_digit_run(s@, p3 + 1, 10);
    }
    Some((Ipv4Octets(a as u8, b as u8, c as u8, d as u8), p4))
}

// ---------------------------------------------------------------------------
// IPv6
// ---------------------------------------------------------------------------

/// A part read by `read_ipv6_groups` at index `i`: a `:` first unless `i`
/// is zero.
pub open spec fn after_sep(s: Seq<char>, pos: int, i: int) -> Option<int> {
    if i == 0 {
        Some(pos)
    } else if 0 <= pos < s.len() && s[pos] == ':' {
        Some(pos + 1)
    } else {
        None
    }
}

/// Up to `limit - i` more groups (already read: `acc`); the last two groups
/// may be written as IPv4. Gives the groups, the index after them, and
/// whether an IPv4 part ended them.
pub open spec fn read_ipv6_groups(s: Seq<char>, pos: int, i: int, limit: int, acc: Seq<nat>) -> (
    Seq<nat>,
    int,
    bool,
)
    decreases limit - i,
{
    if i >= limit {
        (acc, pos, false)
    } else {
        let v4 = if i < limit - 1 {
            match after_sep(s, pos, i) {
                None => None,
                Some(q) => read_ipv4(s, q),
            }
        } else {
            None
        };
        match v4 {
            Some((o, e)) => (acc + seq![o[0] * 256 + o[1], o[2] * 256 + o[3]], e, true),
            None => {
                let g = match after_sep(s, pos, i) {
                    None => None,
                    Some(q) => read_number(s, q, 16, Some(4), true, 0xffff),
                };
                match g {
                    Some((v, e)) => read_ipv6_groups(s, e, i + 1, limit, acc.push(v)),
                    None => (acc, pos, false),
                }
            },
        }
    }
}

pub open spec fn zeros(n: nat) -> Seq<nat> {
    Seq::new(n, |k: int| 0nat)
}

/// An IPv6 address at `pos`: eight groups, or fewer around one `::`.
pub open spec fn read_ipv6(s: Seq<char>, pos: int) -> Option<(Seq<nat>, int)> {
    let (head, p1, head_v4) = read_ipv6_groups(s, pos, 0, 8, Seq::empty());
    if head.len() == 8 {
        Some((head, p1))
    } else if head_v4 {
        None
    } else if 0 <= p1 && p1 + 1 < s.len() && s[p1] == ':' && s[p1 + 1] == ':' {
        let limit = 8 - (head.len() + 1);
        let (tail, p2, tail_v4) = read_ipv6_groups(s, p1 + 2, 0, limit, Seq::empty());
        Some((head + zeros((8 - head.len() - tail.len()) as nat) + tail, p2))
    } else {
        None
    }
}

pub proof fn lemma_read_ipv6_groups(s: Seq<char>, pos: int, i: int, limit: int, acc: Seq<nat>)
    requires
        0 <= i <= limit,
        0 <= pos <= s.len(),
        acc.len() == i,
        forall|k: int| 0 <= k < acc.len() ==> acc[k] <= 0xffff,
    ensures
        ({
            let (g, e, v4) = read_ipv6_groups(s, pos, i, limit, acc);
            &&& i <= g.len() <= limit
            &&& pos <= e <= s.len()
            &&& forall|k: int| 0 <= k < g.len() ==> g[k] <= 0xffff
            &&& acc.is_prefix_of(g)
        }),
    decreases limit - i,
{
    if i < limit {
        let v4 = if i < limit - 1 {
            match after_sep(s, pos, i) {
                None => None,
                Some(q) => read_ipv4(s, q),
            }
        } else {
            None
        };
        match v4 {
            Some((o, e)) => {
                let q = after_sep(s, pos, i).unwrap();
                lemma_ipv4_bounds(s, q);
                let g = acc + seq![o[0] * 256 + o[1], o[2] * 256 + o[3]];
                assert(o[0] * 256 + o[1] <= 0xffff) by (nonlinear_arith)
                    requires
                        o[0] <= 255,
                        o[1] <= 255,
                ;
                assert(o[2] * 256 + o[3] <= 0xffff) by (nonlinear_arith)
                    requires
                        o[2] <= 255,
                        o[3] <= 255,
                ;
                assert(acc.is_prefix_of(g)) by {
                    assert(g.subrange(0, acc.len() as int) =~= acc);
                }
            },
            None => {
                let g = match after_sep(s, pos, i) {
                    None => None,
                    Some(q) => read_number(s, q, 16, Some(4), true, 0xffff),
                };
                match g {
                    Some((v, e)) => {
                        let q = after_sep(s, pos, i).unwrap();
                        lemma_digit_run(s, q, 16);
                        lemma_read_ipv6_groups(s, e, i + 1, limit, acc.push(v));
                        let (g2, e2, v42) = read_ipv6_groups(s, e, i + 1, limit, acc.push(v));
                        assert(acc.is_prefix_of(g2)) by {
                            assert(acc.push(v).subrange(0, acc.len() as int) =~= acc);
                            assert(g2.subrange(0, acc.len() as int) =~= acc.push(v).subrange(
                                0,
                                acc.len() as int,
                            ));
                        }
                    },
                    None => {
                        assert(acc.is_prefix_of(acc)) by {
                            assert(acc.subrange(0, acc.len() as int) =~= acc);
                        }
                    },
                }
            },
        }
    } else {
        assert(acc.subrange(0, acc.len() as int) =~= acc);
    }
}

pub proof fn lemma_ipv4_bounds(s: Seq<char>, pos: int)
    requires
        0 <= pos <= s.len(),
    ensures
        read_ipv4(s, pos) matches Some((o, e)) ==> o.len() == 4 && pos < e <= s.len() && o[0]
            <= 255 && o[1] <= 255 && o[2] <= 255 && o[3] <= 255,
{
    lemma_digit_run(s, pos, 10);
    if let Some((a, p1)) = read_number(s, pos, 10, Some(3), false, 255) {
        if p1 < s.len() && s[p1] == '.' {
            lemma_digit_run(s, p1 + 1, 10);
            if let Some((b, p2)) = read_number(s, p1 + 1, 10, Some(3), false, 255) {
                if p2 < s.len() && s[p2] == '.' {
                    lemma_digit_run(s, p2 + 1, 10);
                    if let Some((c, p3)) = read_number(s, p2 + 1, 10, Some(3), false, 255) {
                        if p3 < s.len() && s[p3] == '.' {
                            lemma_digit_run(s, p3 + 1, 10);
                        }
                    }
                }
            }
        }
    }
}

fn sep_at(s: &[char], pos: usize, i: usize) -> (r: Option<usize>)
    requires
        pos <= s@.len(),
    ensures
        r matches Some(q) ==> after_sep(s@, pos as int, i as int) == Some(q as int) && q <= s@.len(),
        r is None ==> after_sep(s@, pos as int, i as int) is None,
{
    if i == 0 {
        Some(pos)
    } else if pos < s.len() && s[pos] == ':' {
        Some(pos + 1)
    } else {
        None
    }
}

fn ipv6_groups_at(s: &[char], pos: usize, limit: usize) -> (r: (Vec<u16>, usize, bool))
    requires
        pos <= s@.len(),
        limit <= 8,
    ensures
        ({
            let (g, e, v4) = read_ipv6_groups(s@, pos as int, 0, limit as int, Seq::empty());
            &&& r.0@.len() == g.len()
            &&& forall|k: int| 0 <= k < g.len() ==> r.0@[k] as nat == g[k]
            &&& r.1 as int == e
            &&& r.2 == v4
        }),
{
    let mut groups: Vec<u16> = Vec::new();
    let mut p: usize = pos;
    let mut i: usize = 0;
    let ghost mut acc: Seq<nat> = Seq::empty();
    while i < limit
        invariant
            i <= limit <= 8,
            p <= s@.len(),
            acc.len() == i,
            groups@.len() == i,
            forall|k: int| 0 <= k < i ==> groups@[k] as nat == acc[k],
            forall|k: int| 0 <= k < acc.len() ==> acc[k] <= 0xffff,
            read_ipv6_groups(s@, pos as int, 0, limit as int, Seq::empty()) == read_ipv6_groups(
                s@,
                p as int,
                i as int,
                limit as int,
                acc,
            ),
        decreases limit - i,
    {
        if i + 1 < limit {
            match sep_at(s, p, i) {
                Some(q) => match ipv4_at(s, q) {
                    Some((o, e)) => {
                        let hi: u16 = (o.0 as u16) * 256 + (o.1 as u16);
                        let lo: u16 = (o.2 as u16) * 256 + (o.3 as u16);
                        groups.push(hi);
                        groups.push(lo);
                        let ghost g = acc + seq![
                            o.0 as nat * 256 + o.1 as nat,
                            o.2 as nat * 256 + o.3 as nat,
                        ];
                        assert(read_ipv6_groups(s@, p as int, i as int, limit as int, acc) == (
                            g,
                            e as int,
                            true,
                        ));
                        assert forall|k: int| 0 <= k < g.len() implies groups@[k] as nat
                            == g[k] by {
                            if k < i {
                            }
                        }
                        return (groups, e, true);
                    },
                    None => {},
                },
                None => {},
            }
        }
        let grp = match sep_at(s, p, i) {
            None => None,
            Some(q) => number_at(s, q, 16, Some(4), true, 0xffff),
        };
        match grp {
            Some((v, e)) => {
                proof {
                    let q = after_sep(s@, p as int, i as int).unwrap();
                    lemma_digit_run(s@, q, 16);
                    acc = acc.push(v as nat);
                }
                groups.push(v as u16);
                p = e;
                i = i + 1;
            },
            None => {
                return (groups, p, false);
            },
        }
    }
    (groups, p, false)
}

pub open spec fn segs_of(g: Seq<nat>) -> Ipv6Segments {
    Ipv6Segments(
        g[0] as u16,
        g[1] as u16,
        g[2] as u16,
        g[3] as u16,
        g[4] as u16,
        g[5] as u16,
        g[6] as u16,
        g[7] as u16,
    )
}

fn ipv6_at(s: &[char], pos: usize) -> (r: Option<(Ipv6Segments, usize)>)
    requires
        pos <= s@.len(),
    ensures
        r matches Some((g, e)) ==> read_ipv6(s@, pos as int) matches Some((gs, e2)) && e2
            == e as int && g == segs_of(gs) && gs.len() == 8,
        r is None ==> read_ipv6(s@, pos as int) is None,
        r matches Some((g, e)) ==> e <= s@.len(),
{
    proof {
        lemma_read_ipv6_groups(s@, pos as int, 0, 8, Seq::empty());
    }
    let (head, p1, head_v4) = ipv6_groups_at(s, pos, 8);
    if head.len() == 8 {
        let segs = Ipv6Segments(
            head[0],
            head[1],
            head[2],
            head[3],
            head[4],
            head[5],
            head[6],
            head[7],
        );
        return Some((segs, p1));
    }
    if head_v4 {
        return None;
    }
    if !(p1 < s.len() && p1 + 1 < s.len() && s[p1] == ':' && s[p1 + 1] == ':') {
        return None;
    }
    let limit: usize = 8 - (head.len() + 1);
    proof {
        lemma_read_ipv6_groups(s@, p1 + 2, 0, limit as int, Seq::empty());
    }
    let (tail, p2, _v4) = ipv6_groups_at(s, p1 + 2, limit);
    let mut all: Vec<u16> = Vec::new();
    let mut k: usize = 0;
    let ghost (hg, _, _) = read_ipv6_groups(s@, pos as int, 0, 8, Seq::empty());
    let ghost (tg, _, _) = read_ipv6_groups(s@, p1 + 2, 0, limit as int, Seq::empty());
    let ghost full: Seq<nat> = hg + zeros((8 - hg.len() - tg.len()) as nat) + tg;
    let nz: usize = 8 - head.len() - tail.len();
    while k < 8
        invariant
            k <= 8,
            all@.len() == k,
            head@.len() == hg.len(),
            tail@.len() == tg.len(),
            nz == 8 - hg.len() - tg.len(),
            hg.len() + tg.len() < 8,
            full == hg + zeros(nz as nat) + tg,
            full.len() == 8,
            forall|j: int| 0 <= j < hg.len() ==> head@[j] as nat == hg[j],
            forall|j: int| 0 <= j < tg.len() ==> tail@[j] as nat == tg[j],
            forall|j: int| 0 <= j < k ==> all@[j] as nat == full[j],
        decreases 8 - k,
    {
        if k < head.len() {
            all.push(head[k]);
        } else if k < head.len() + nz {
            all.push(0);
        } else {
            all.push(tail[k - head.len() - nz]);
        }
        k = k + 1;
    }
    let segs = Ipv6Segments(all[0], all[1], all[2], all[3], all[4], all[5], all[6], all[7]);
    assert(segs == segs_of(full));
    Some((segs, p2))
}

// ---------------------------------------------------------------------------
// Whole addresses
// ---------------------------------------------------------------------------

pub open spec fn octets_of(o: Seq<nat>) -> Ipv4Octets {
    Ipv4Octets(o[0] as u8, o[1] as u8, o[2] as u8, o[3] as u8)
}

/// `IpAddr::from_str`: IPv4 if an IPv4 address starts the text, otherwise
/// IPv6; either way it must take the whole text.
#[verifier::opaque]
pub open spec fn parse_ip(s: Seq<char>) -> Option<IpAddress> {
    match read_ipv4(s, 0) {
        Some((o, e)) => if e == s.len() {
            Some(IpAddress::V4(octets_of(o)))
        } else {
            None
        },
        None => match read_ipv6(s, 0) {
            Some((g, e)) => if e == s.len() {
                Some(IpAddress::V6(segs_of(g)))
            } else {
                None
            },
            None => None,
        },
    }
}

/// `:port` at `pos`.
pub open spec fn read_port(s: Seq<char>, pos: int) -> Option<(nat, int)> {
    if 0 <= pos < s.len() && s[pos] == ':' {
        read_number(s, pos + 1, 10, None, true, 0xffff)
    } else {
        None
    }
}

/// `ip:port` starting at 0.
pub open spec fn read_socket_v4(s: Seq<char>) -> Option<(ListenAddr, int)> {
    match read_ipv4(s, 0) {
        None => None,
        Some((o, e)) => match read_port(s, e) {
            None => None,
            Some((p, e2)) => Some((ListenAddr::V4 { ip: octets_of(o), port: p as u16 }, e2)),
        },
    }
}

/// `[ip%scope]:port` starting at 0; the scope is optional.
pub open spec fn read_socket_v6(s: Seq<char>) -> Option<(ListenAddr, int)> {
    if !(s.len() > 0 && s[0] == '[') {
        None
    } else {
        match read_ipv6(s, 1) {
            None => None,
            Some((g, e)) => {
                let (scope, e2) = if 0 <= e < s.len() && s[e] == '%' {
                    match read_number(s, e + 1, 10, None, true, 0xffff_ffff) {
                        Some((sc, e3)) => (sc, e3),
                        None => (0nat, e),
                    }
                } else {
                    (0nat, e)
                };
                if !(0 <= e2 < s.len() && s[e2] == ']') {
                    None
                } else {
                    match read_port(s, e2 + 1) {
                        None => None,
                        Some((p, e4)) => Some(
                            (
                                ListenAddr::V6 {
                                    ip: segs_of(g),
                                    scope_id: scope as u32,
                                    port: p as u16,
                                },
                                e4,
                            ),
                        ),
                    }
                }
            },
        }
    }
}

/// `SocketAddr::from_str`.
#[verifier::opaque]
pub open spec fn parse_socket(s: Seq<char>) -> Option<ListenAddr> {
    match read_socket_v4(s) {
        Some((a, e)) => if e == s.len() {
            Some(a)
        } else {
            None
        },
        None => match read_socket_v6(s) {
            Some((a, e)) => if e == s.len() {
                Some(a)
            } else {
                None
            },
            None => None,
        },
    }
}

pub fn ip_from_text(s: &[char]) -> (r: Option<IpAddress>)
    ensures
        r == parse_ip(s@),
{
    reveal(parse_ip);
    match ipv4_at(s, 0) {
        Some((o, e)) => {
            proof {
                lemma_ipv4_bounds(s@, 0);
            }
            if e == s.len() {
                let ghost (os, _) = read_ipv4(s@, 0).unwrap();
                assert(octets_of(os) == o);
                Some(IpAddress::V4(o))
            } else {
                None
            }
        },
        None => match ipv6_at(s, 0) {
            Some((g, e)) => {
                if e == s.len() {
                    Some(IpAddress::V6(g))
                } else {
                    None
                }
            },
            None => None,
        },
    }
}

fn port_at(s: &[char], pos: usize) -> (r: Option<(u16, usize)>)
    requires
        pos <= s@.len(),
    ensures
        r matches Some((p, e)) ==> read_port(s@, pos as int) == Some((p as nat, e as int)) && e
            <= s@.len(),
        r is None ==> read_port(s@, pos as int) is None,
{
    if pos < s.len() && s[pos] == ':' {
        proof {
            lemma_digit_run(s@, pos + 1, 10);
        }
        match number_at(s, pos + 1, 10, None, true, 0xffff) {
            Some((v, e)) => Some((v as u16, e)),
            None => None,
        }
    } else {
        None
    }
}

fn socket_v4_at(s: &[char]) -> (r: Option<(ListenAddr, usize)>)
    ensures
        r matches Some((a, e)) ==> read_socket_v4(s@) == Some((a, e as int)),
        r is None ==> read_socket_v4(s@) is None,
{
    match ipv4_at(s, 0) {
        Some((o, e)) => {
            proof {
                lemma_ipv4_bounds(s@, 0);
            }
            let ghost (os, _) = read_ipv4(s@, 0).unwrap();
            assert(octets_of(os) == o);
            match port_at(s, e) {
                Some((p, e2)) => Some((ListenAddr::V4 { ip: o, port: p }, e2)),
                None => None,
            }
        },
        None => None,
    }
}

pub fn socket_from_text(s: &[char]) -> (r: Option<ListenAddr>)
    ensures
        r == parse_socket(s@),
{
    reveal(parse_socket);
    match socket_v4_at(s) {
        Some((a, e)) => {
            if e == s.len() {
                Some(a)
            } else {
                None
            }
        },
        None => socket_v6_from_text(s),
    }
}

fn socket_v6_from_text(s: &[char]) -> (r: Option<ListenAddr>)
    ensures
        r == (match read_socket_v6(s@) {
            Some((a, e)) => if e == s@.len() {
                Some(a)
            } else {
                None
            },
            None => None,
        }),
{
    if !(s.len() > 0 && s[0] == '[') {
        return None;
    }
    let (g, e) = match ipv6_at(s, 1) {
        None => return None,
        Some(x) => x,
    };
    let mut scope: u32 = 0;
    let mut e2: usize = e;
    if e < s.len() && s[e] == '%' {
        proof {
            lemma_digit_run(s@, e + 1, 10);
        }
        match number_at(s, e + 1, 10, None, true, 0xffff_ffff) {
            Some((sc, e3)) => {
                scope = sc as u32;
                e2 = e3;
            },
            None => {},
        }
    }
    if !(e2 < s.len() && s[e2] == ']') {
        return None;
    }
    match port_at(s, e2 + 1) {
        None => None,
        Some((p, e4)) => {
            if e4 == s.len() {
                Some(ListenAddr::V6 { ip: g, scope_id: scope, port: p })
            } else {
                None
            }
        },
    }
}

// ---------------------------------------------------------------------------
// Text of an address, as it is displayed
// ---------------------------------------------------------------------------

// ---------------------------------------------------------------------------
// Display
// ---------------------------------------------------------------------------

/// A hexadecimal digit, lowercase.
pub open spec fn hex_char(d: nat) -> char {
    if d < 10 {
        (('0' as u32) + d) as char
    } else {
        (('a' as u32) + d - 10) as char
    }
}

/// `{:x}` of `v`: lowercase hexadecimal without leading zeros.
pub open spec fn hex_text(v: nat) -> Seq<char>
    decreases v,
{
    if v < 16 {
        seq![hex_char(v)]
    } else {
        hex_text(v / 16).push(hex_char(v % 16))
    }
}

/// Groups in hexadecimal separated by `:`.
pub open spec fn groups_text(g: Seq<u16>) -> Seq<char>
    decreases g.len(),
{
    if g.len() == 0 {
        Seq::empty()
    } else if g.len() == 1 {
        hex_text(g[0] as nat)
    } else {
        groups_text(g.drop_last()) + seq![':'] + hex_text(g.last() as nat)
    }
}

/// The longest run of zero groups from index `i` on, given the run in
/// progress (`cur`) and the longest so far (`best`), as (start, length);
/// the first wins a tie.
pub open spec fn zero_run_from(g: Seq<u16>, i: int, cur: (int, int), best: (int, int)) -> (int, int)
    decreases g.len() - i,
{
    if i < 0 || i >= g.len() {
        best
    } else if g[i] == 0 {
        let c = if cur.1 == 0 {
            (i, 1int)
        } else {
            (cur.0, cur.1 + 1)
        };
        zero_run_from(g, i + 1, c, if c.1 > best.1 { c } else { best })
    } else {
        zero_run_from(g, i + 1, (i + 1, 0), best)
    }
}

pub open spec fn segs_seq(s: Ipv6Segments) -> Seq<u16> {
    seq![s.0, s.1, s.2, s.3, s.4, s.5, s.6, s.7]
}

pub open spec fn ipv4_text(o: Ipv4Octets) -> Seq<char> {
    crate::text::decimal(o.0 as nat) + seq!['.'] + crate::text::decimal(o.1 as nat) + seq!['.']
        + crate::text::decimal(o.2 as nat) + seq!['.'] + crate::text::decimal(o.3 as nat)
}

/// How `Ipv6Addr` displays: IPv4-mapped addresses as `::ffff:a.b.c.d`;
/// otherwise the groups in hexadecimal with the longest run of two or more
/// zero groups written as `::`.
pub open spec fn ipv6_text(s: Ipv6Segments) -> Seq<char> {
    if s.0 == 0 && s.1 == 0 && s.2 == 0 && s.3 == 0 && s.4 == 0 && s.5 == 0xffff {
        seq![':', ':', 'f', 'f', 'f', 'f', ':'] + ipv4_text(
            Ipv4Octets((s.6 / 256) as u8, (s.6 % 256) as u8, (s.7 / 256) as u8, (s.7 % 256) as u8),
        )
    } else {
        let g = segs_seq(s);
        let z = zero_run_from(g, 0, (0, 0), (0, 0));
        if z.1 > 1 {
            groups_text(g.take(z.0)) + seq![':', ':'] + groups_text(g.skip(z.0 + z.1))
        } else {
            groups_text(g)
        }
    }
}

/// How `SocketAddr` displays: `a.b.c.d:port`, or `[ipv6]:port` with
/// `%scope` inside the brackets when the scope id is not 0.
pub open spec fn socket_display(a: ListenAddr) -> Seq<char> {
    match a {
        ListenAddr::V4 { ip, port } => ipv4_text(ip) + seq![':'] + crate::text::decimal(port as nat),
        ListenAddr::V6 { ip, scope_id, port } => seq!['['] + ipv6_text(ip) + (if scope_id != 0 {
            seq!['%'] + crate::text::decimal(scope_id as nat)
        } else {
            Seq::empty()
        }) + seq![']', ':'] + crate::text::decimal(port as nat),
    }
}

fn push_decimal_chars(out: &mut Vec<char>, n: u64)
    ensures
        final(out)@ == old(out)@ + crate::text::decimal(n as nat),
{
    let s = decimal_string(n);
    let c = chars_of(s.as_str());
    append_chars(out, c.as_slice());
}

fn hex_digit(d: u16) -> (c: char)
    requires
        d < 16,
    ensures
        c == hex_char(d as nat),
{
    if d < 10 {
        ((48 + d) as u8) as char
    } else {
        ((87 + d) as u8) as char
    }
}

fn push_hex(out: &mut Vec<char>, v: u16)
    ensures
        final(out)@ == old(out)@ + hex_text(v as nat),
    decreases v,
{
    if v >= 16 {
        push_hex(out, v / 16);
    }
    let c = hex_digit(v % 16);
    out.push(c);
    proof {
        if v >= 16 {
            assert(hex_text(v as nat) == hex_text((v / 16) as nat).push(hex_char((v % 16) as nat)));
        }
    }
    assert(final(out)@ =~= old(out)@ + hex_text(v as nat)) by {
        if v < 16 {
            assert(hex_text(v as nat) == seq![hex_char(v as nat)]);
        }
    }
}

fn push_ipv4(out: &mut Vec<char>, o: &Ipv4Octets)
    ensures
        final(out)@ == old(out)@ + ipv4_text(*o),
{
    push_decimal_chars(out, o.0 as u64);
    out.push('.');
    push_decimal_chars(out, o.1 as u64);
    out.push('.');
    push_decimal_chars(out, o.2 as u64);
    out.push('.');
    push_decimal_chars(out, o.3 as u64);
    assert(final(out)@ =~= old(out)@ + ipv4_text(*o));
}

fn push_groups(out: &mut Vec<char>, g: &Vec<u16>, from: usize, to: usize)
    requires
        from <= to <= g@.len(),
    ensures
        final(out)@ == old(out)@ + groups_text(g@.subrange(from as int, to as int)),
{
    let mut i = from;
    assert(g@.subrange(from as int, from as int) =~= Seq::<u16>::empty());
    while i < to
        invariant
            from <= i <= to <= g@.len(),
            out@ == old(out)@ + groups_text(g@.subrange(from as int, i as int)),
        decreases to - i,
    {
        let ghost before = out@;
        let ghost sub = g@.subrange(from as int, i + 1);
        assert(sub.drop_last() =~= g@.subrange(from as int, i as int));
        assert(sub.last() == g@[i as int]);
        if i > from {
            out.push(':');
        }
        push_hex(out, g[i]);
        i = i + 1;
        assert(out@ =~= old(out)@ + groups_text(g@.subrange(from as int, i as int))) by {
            if i - 1 == from {
                assert(sub.len() == 1);
                assert(groups_text(sub) == hex_text(sub[0] as nat));
            }
        }
    }
}

proof fn lemma_zero_run_bounds(g: Seq<u16>, i: int, cur: (int, int), best: (int, int))
    requires
        0 <= i <= g.len(),
        0 <= cur.0,
        0 <= cur.1,
        cur.0 + cur.1 <= i,
        0 <= best.0,
        0 <= best.1,
        best.0 + best.1 <= i,
    ensures
        0 <= zero_run_from(g, i, cur, best).0,
        0 <= zero_run_from(g, i, cur, best).1,
        zero_run_from(g, i, cur, best).0 + zero_run_from(g, i, cur, best).1 <= g.len(),
    decreases g.len() - i,
{
    if i < g.len() {
        if g[i] == 0 {
            let c = if cur.1 == 0 {
                (i, 1int)
            } else {
                (cur.0, cur.1 + 1)
            };
            lemma_zero_run_bounds(g, i + 1, c, if c.1 > best.1 { c } else { best });
        } else {
            lemma_zero_run_bounds(g, i + 1, (i + 1, 0), best);
        }
    }
}

/// IPv6 text with the longest run of zero groups (of two or more) written
/// as `::`, and IPv4-mapped addresses as `::ffff:a.b.c.d`.
fn push_ipv6(out: &mut Vec<char>, s: &Ipv6Segments)
    ensures
        final(out)@ == old(out)@ + ipv6_text(*s),
{
    if s.0 == 0 && s.1 == 0 && s.2 == 0 && s.3 == 0 && s.4 == 0 && s.5 == 0xffff {
        out.push(':');
        out.push(':');
        out.push('f');
        out.push('f');
        out.push('f');
        out.push('f');
        out.push(':');
        let o = Ipv4Octets((s.6 / 256) as u8, (s.6 % 256) as u8, (s.7 / 256) as u8, (s.7 % 256) as u8);
        let ghost mid = out@;
        push_ipv4(out, &o);
        assert(final(out)@ =~= old(out)@ + ipv6_text(*s));
        return ;
    }
    let mut g: Vec<u16> = Vec::new();
    g.push(s.0);
    g.push(s.1);
    g.push(s.2);
    g.push(s.3);
    g.push(s.4);
    g.push(s.5);
    g.push(s.6);
    g.push(s.7);
    assert(g@ =~= segs_seq(*s));
    let mut best_start: usize = 0;
    let mut best_len: usize = 0;
    let mut cur_start: usize = 0;
    let mut cur_len: usize = 0;
    let mut i: usize = 0;
    while i < 8
        invariant
            g@.len() == 8,
            i <= 8,
            cur_start + cur_len <= i,
            best_start + best_len <= i,
            zero_run_from(g@, 0, (0, 0), (0, 0)) == zero_run_from(
                g@,
                i as int,
                (cur_start as int, cur_len as int),
                (best_start as int, best_len as int),
            ),
        decreases 8 - i,
    {
        if g[i] == 0 {
            if cur_len == 0 {
                cur_start = i;
            }
            cur_len = cur_len + 1;
            if cur_len > best_len {
                best_start = cur_start;
                best_len = cur_len;
            }
        } else {
            cur_len = 0;
            cur_start = i + 1;
        }
        i = i + 1;
    }
    assert(zero_run_from(g@, 0, (0, 0), (0, 0)) == (best_start as int, best_len as int));
    if best_len > 1 {
        push_groups(out, &g, 0, best_start);
        out.push(':');
        out.push(':');
        push_groups(out, &g, best_start + best_len, 8);
        assert(g@.subrange(0, best_start as int) =~= g@.take(best_start as int));
        assert(g@.subrange(best_start + best_len, 8) =~= g@.skip(best_start + best_len));
    } else {
        push_groups(out, &g, 0, 8);
        assert(g@.subrange(0, 8) =~= g@);
    }
    assert(final(out)@ =~= old(out)@ + ipv6_text(*s));
}

/// The text of a socket address as it is displayed (`1.2.3.4:80`,
/// `[::1]:443`, `[fe80::1%2]:8080`).
pub fn socket_text(a: &ListenAddr) -> (t: Vec<char>)
    ensures
        t@ == socket_display(*a),
{
    let mut out: Vec<char> = Vec::new();
    match a {
        ListenAddr::V4 { ip, port } => {
            push_ipv4(&mut out, ip);
            out.push(':');
            push_decimal_chars(&mut out, *port as u64);
        },
        ListenAddr::V6 { ip, scope_id, port } => {
            out.push('[');
            push_ipv6(&mut out, ip);
            if *scope_id != 0 {
                out.push('%');
                push_decimal_chars(&mut out, *scope_id as u64);
            }
            out.push(']');
            out.push(':');
            push_decimal_chars(&mut out, *port as u64);
        },
    }
    assert(out@ =~= socket_display(*a));
    out
}

// ---------------------------------------------------------------------------
// Reading back what is displayed
// ---------------------------------------------------------------------------

proof fn lemma_digit_run_end_at(s: Seq<char>, j: int, e: int)
    requires
        0 <= j <= e <= s.len(),
        forall|k: int| j <= k < e ==> is_radix_digit(#[trigger] s[k], 10),
        e == s.len() || !is_radix_digit(s[e], 10),
    ensures
        digit_run_end(s, j, 10) == e,
    decreases e - j,
{
    if j < e {
        lemma_digit_run_end_at(s, j + 1, e);
    }
}

proof fn lemma_run_value_decimal(s: Seq<char>, pos: int, n: nat)
    requires
        0 <= pos,
        pos + decimal(n).len() <= s.len(),
        s.subrange(pos, pos + decimal(n).len()) == decimal(n),
    ensures
        run_value(s, pos, pos + decimal(n).len(), 10) == n,
    decreases n,
{
    lemma_decimal_shape(n);
    let k = decimal(n).len() as int;
    assert(s[pos + k - 1] == decimal(n)[k - 1]);
    if n < 10 {
        assert(run_value(s, pos, pos, 10) == 0);
    } else {
        let d = decimal(n / 10);
        assert(decimal(n) == d.push(crate::text::digit_char(n % 10)));
        assert(s.subrange(pos, pos + d.len()) =~= d) by {
            assert forall|i: int| 0 <= i < d.len() implies s.subrange(pos, pos + d.len())[i] == d[i] by {
                assert(s.subrange(pos, pos + k)[i] == decimal(n)[i]);
            }
        }
        lemma_run_value_decimal(s, pos, n / 10);
        assert(n == (n / 10) * 10 + n % 10);
    }
}

/// The decimal text of `n` at `pos`, not followed by a digit, reads as `n`
/// (within the limits given).
proof fn lemma_read_decimal(s: Seq<char>, pos: int, n: nat, max_digits: Option<nat>, zero_prefix_ok: bool, max: nat)
    requires
        0 <= pos,
        pos + decimal(n).len() <= s.len(),
        s.subrange(pos, pos + decimal(n).len()) == decimal(n),
        pos + decimal(n).len() == s.len() || !is_radix_digit(s[pos + decimal(n).len()], 10),
        n <= max,
        max_digits matches Some(m) ==> decimal(n).len() <= m,
    ensures
        read_number(s, pos, 10, max_digits, zero_prefix_ok, max) == Some((n, pos + decimal(n).len())),
{
    lemma_decimal_shape(n);
    let k = decimal(n).len() as int;
    assert forall|j: int| pos <= j < pos + k implies is_radix_digit(#[trigger] s[j], 10) by {
        assert(s[j] == s.subrange(pos, pos + k)[j - pos]);
        assert('0' <= decimal(n)[j - pos] <= '9');
    }
    lemma_digit_run_end_at(s, pos, pos + k);
    lemma_run_value_decimal(s, pos, n);
    assert(s[pos] == decimal(n)[0]);
}

/// An IPv4 address written as it displays (`a.b.c.d`), followed by
/// anything but a digit, reads back as the same four octets in the same
/// order.
pub proof fn lemma_ipv4_reads_back(o: Ipv4Octets, rest: Seq<char>)
    requires
        rest.len() == 0 || !is_radix_digit(rest[0], 10),
    ensures
        read_ipv4(ipv4_text(o) + rest, 0) == Some((
            seq![o.0 as nat, o.1 as nat, o.2 as nat, o.3 as nat],
            ipv4_text(o).len() as int,
        )),
{
    let a = decimal(o.0 as nat);
    let b = decimal(o.1 as nat);
    let c = decimal(o.2 as nat);
    let d = decimal(o.3 as nat);
    let dot = seq!['.'];
    let s = ipv4_text(o) + rest;
    assert(s =~= a + dot + b + dot + c + dot + d + rest);
    lemma_decimal_shape(o.0 as nat);
    lemma_decimal_shape(o.1 as nat);
    lemma_decimal_shape(o.2 as nat);
    lemma_decimal_shape(o.3 as nat);
    let p1 = a.len() as int;
    let p2 = p1 + 1 + b.len();
    let p3 = p2 + 1 + c.len();
    let p4 = p3 + 1 + d.len();
    assert(s.subrange(0, p1) =~= a);
    assert(s[p1] == '.');
    lemma_read_decimal(s, 0, o.0 as nat, Some(3), false, 255);
    assert(s.subrange(p1 + 1, p2) =~= b);
    assert(s[p2] == '.');
    lemma_read_decimal(s, p1 + 1, o.1 as nat, Some(3), false, 255);
    assert(s.subrange(p2 + 1, p3) =~= c);
    assert(s[p3] == '.');
    lemma_read_decimal(s, p2 + 1, o.2 as nat, Some(3), false, 255);
    assert(s.subrange(p3 + 1, p4) =~= d);
    assert(p4 == ipv4_text(o).len());
    if rest.len() > 0 {
        assert(s[p4] == rest[0]);
    }
    lemma_read_decimal(s, p3 + 1, o.3 as nat, Some(3), false, 255);
}

/// An IPv4 socket address written as it displays (`a.b.c.d:port`) reads
/// back as itself: same octets in the same order, same port.
pub proof fn lemma_socket_v4_reads_back(ip: Ipv4Octets, port: u16)
    ensures
        parse_socket(socket_display(ListenAddr::V4 { ip, port })) == Some(ListenAddr::V4 { ip, port }),
{
    let x = ListenAddr::V4 { ip, port };
    let pt = decimal(port as nat);
    let rest = seq![':'] + pt;
    let s = socket_display(x);
    assert(s =~= ipv4_text(ip) + rest);
    lemma_ipv4_reads_back(ip, rest);
    let e = ipv4_text(ip).len() as int;
    assert(s[e] == ':');
    lemma_decimal_shape(port as nat);
    assert(s.subrange(e + 1, e + 1 + pt.len()) =~= pt);
    lemma_read_decimal(s, e + 1, port as nat, None, true, 0xffff);
    assert(e + 1 + pt.len() == s.len());
    let o = seq![ip.0 as nat, ip.1 as nat, ip.2 as nat, ip.3 as nat];
    assert(octets_of(o) == ip);
    assert(read_ipv4(s, 0) == Some((o, e)));
    assert(read_port(s, e) == Some((port as nat, s.len() as int)));
    assert(read_socket_v4(s) == Some((x, s.len() as int)));
    reveal(parse_socket);
}

/// An IPv4 address written as it displays reads back as itself (what a
/// site's IP is compared with the listener's by).
pub proof fn lemma_ip_v4_reads_back(o: Ipv4Octets)
    ensures
        parse_ip(ipv4_text(o)) == Some(IpAddress::V4(o)),
{
    lemma_ipv4_reads_back(o, Seq::empty());
    assert(ipv4_text(o) + Seq::<char>::empty() =~= ipv4_text(o));
    assert(octets_of(seq![o.0 as nat, o.1 as nat, o.2 as nat, o.3 as nat]) == o);
    reveal(parse_ip);
}

} // verus!
