//! The parser of the configuration language (see [`crate::config::grammar`]).

use vstd::prelude::*;
use crate::config::grammar::{site_socket, lemma_quote_end, line_words, quote_end, words_of, initial_state, line_end, lemma_line_end, parse_config, run_lines, sites_issue_from, site_issue, sni_key, open_step, close_step, tls_step, word_step, BlockV, DurationReading, ParseIssue, ParseState, Problem, closed_block, directive_of, duration_message, duration_overflows, first_clash, first_or_empty, has_site, issue_text, join, next_line, plain, problem, read_duration, sni_clash, state_wf, step, stops_on_overflow, timeout_line, with_directive, without_braces};
use crate::config::models::{header_ops_view, HeaderDirective, Config, Directive, DirectiveV, SiteConfig, SiteV, TlsConfig, dirs_view, lemma_dirs_view_inner, site_view, sites_view, strings_view, tls_view};
use crate::error::ProxyError;
use crate::config::address::{hostname_bounds, resolve_site_addr};
use crate::config::net::{ListenAddr, socket_display, socket_text};
use crate::text::{is_ws_char, lemma_word_end_bounds, word_end, lowercase, same_chars, append_chars, chars_of, copy_range, decimal, decimal_string, is_text, parse_unsigned_u64, string_of, trim, trimmed, views};

verus! {

broadcast use vstd::string::group_string_axioms;

/// `head` followed by `rest`.
fn message(head: &str, rest: &[char]) -> (m: String)
    ensures
        m@ == head@ + rest@,
{
    let mut m = head.to_owned();
    let r = string_of(rest);
    m.append(r.as_str());
    m
}

fn chars_then(a: &[char], b: &str) -> (r: Vec<char>)
    ensures
        r@ == a@ + b@,
{
    let mut r = copy_range(a, 0, a.len());
    assert(a@.subrange(0, a@.len() as int) =~= a@);
    let bc = chars_of(b);
    append_chars(&mut r, bc.as_slice());
    r
}

fn line_number_text(line_no: u64) -> (r: Vec<char>)
    ensures
        r@ == decimal(line_no as nat),
{
    let s = decimal_string(line_no);
    chars_of(s.as_str())
}

// ---------------------------------------------------------------------------
// Durations
// ---------------------------------------------------------------------------

/// A duration read from text: its seconds, or `Err(None)` when they do not
/// fit in 64 bits, or `Err(Some(message))` when the text is no duration.
fn duration_from_chars(v: &[char]) -> (r: Result<u64, Option<String>>)
    ensures
        match read_duration(v@) {
            DurationReading::Seconds(n) => if n <= u64::MAX {
                r == Ok::<u64, Option<String>>(n as u64)
            } else {
                r == Err::<u64, Option<String>>(None)
            },
            _ => r matches Err(Some(m)) && m@ == duration_message(v@),
        },
{
    let t = trimmed(v);
    if t.len() == 0 {
        return Err(Some("Empty duration value".to_owned()));
    }
    match parse_unsigned_u64(t.as_slice(), u64::MAX) {
        Some(n) => return Ok(n),
        None => {},
    }
    let last = t[t.len() - 1];
    let unit: u64 = if last == 's' {
        1
    } else if last == 'm' {
        60
    } else if last == 'h' {
        3600
    } else if last == 'd' {
        86400
    } else {
        let m = chars_then(t.as_slice(), "'. Use a plain number or Ns/Nm/Nh/Nd");
        let msg = message("Invalid duration '", m.as_slice());
        assert(msg@ =~= duration_message(v@));
        return Err(Some(msg));
    };
    let num = copy_range(t.as_slice(), 0, t.len() - 1);
    assert(num@ =~= t@.drop_last());
    match parse_unsigned_u64(num.as_slice(), u64::MAX) {
        Some(n) => match n.checked_mul(unit) {
            Some(x) => Ok(x),
            None => Err(None),
        },
        None => {
            let m = chars_then(t.as_slice(), "'");
            let msg = message("Invalid numeric value in duration: '", m.as_slice());
            assert(msg@ =~= duration_message(v@));
            Err(Some(msg))
        },
    }
}

/// Parse a human-readable duration into seconds: a plain number (`"30"`),
/// or a number with a unit, `s` (`"30s"` → 30), `m` (`"5m"` → 300), `h`
/// (`"2h"` → 7200) or `d` (`"1d"` → 86400).
pub fn parse_duration(s: &str) -> (r: Result<u64, ProxyError>)
    requires
        !duration_overflows(s@),
    ensures
        match read_duration(s@) {
            DurationReading::Seconds(n) => r matches Ok(v) && v == n,
            _ => r matches Err(ProxyError::Parse(m)) && m@ == duration_message(s@),
        },
{
    let v = chars_of(s);
    match duration_from_chars(v.as_slice()) {
        Ok(n) => Ok(n),
        Err(Some(m)) => Err(ProxyError::Parse(m)),
        Err(None) => {
            assert(false);
            Err(ProxyError::Parse(String::new()))
        },
    }
}

// ---------------------------------------------------------------------------
// Words into directives
// ---------------------------------------------------------------------------

/// The words of a line (see [`crate::config::grammar::line_words`]).
fn split_line(v: &[char]) -> (r: Vec<Vec<char>>)
    ensures
        views(r@) == line_words(v@),
{
    let mut r: Vec<Vec<char>> = Vec::new();
    let mut i: usize = 0;
    while i < v.len()
        invariant
            i <= v@.len(),
            views(r@) + words_of(v@, i as int) == line_words(v@),
        decreases v@.len() - i,
    {
        if is_ws_char(v[i]) {
            i = i + 1;
        } else if v[i] == '"' {
            proof {
                lemma_quote_end(v@, i + 1);
            }
            let mut e = i + 1;
            while e < v.len() && v[e] != '"'
                invariant
                    i + 1 <= e <= v@.len(),
                    quote_end(v@, i + 1) == quote_end(v@, e as int),
                decreases v@.len() - e,
            {
                e = e + 1;
            }
            let w = copy_range(v, i + 1, e);
            let ghost before = r@;
            r.push(w);
            assert(views(r@) =~= views(before).push(w@));
            assert(views(r@) + words_of(v@, e + 1) =~= views(before) + words_of(v@, i as int));
            if e < v.len() {
                i = e + 1;
            } else {
                i = e;
                assert(words_of(v@, e + 1) =~= words_of(v@, e as int));
            }
        } else {
            let mut e = i;
            proof {
                lemma_word_end_bounds(v@, i as int);
            }
            while e < v.len() && !is_ws_char(v[e])
                invariant
                    i <= e <= v@.len(),
                    word_end(v@, i as int) == word_end(v@, e as int),
                decreases v@.len() - e,
            {
                e = e + 1;
            }
            proof {
                lemma_word_end_bounds(v@, e as int);
            }
            let w = copy_range(v, i, e);
            let ghost before = r@;
            r.push(w);
            assert(views(r@) =~= views(before).push(w@));
            assert(views(r@) + words_of(v@, e as int) =~= views(before) + words_of(v@, i as int));
            i = e;
        }
    }
    assert(views(r@) + words_of(v@, i as int) =~= views(r@));
    r
}

fn strings_of(ws: &[Vec<char>]) -> (r: Vec<String>)
    ensures
        strings_view(r@) == views(ws@),
{
    let mut r: Vec<String> = Vec::new();
    let mut i: usize = 0;
    while i < ws.len()
        invariant
            i <= ws@.len(),
            r@.len() == i,
            forall|k: int| 0 <= k < i ==> r@[k]@ == ws@[k]@,
        decreases ws@.len() - i,
    {
        r.push(string_of(ws[i].as_slice()));
        i = i + 1;
    }
    assert(strings_view(r@) =~= views(ws@));
    r
}

fn drop_braces(ws: &[Vec<char>]) -> (r: Vec<Vec<char>>)
    ensures
        views(r@) == without_braces(views(ws@)),
{
    let mut r: Vec<Vec<char>> = Vec::new();
    let mut i: usize = 0;
    while i < ws.len()
        invariant
            i <= ws@.len(),
            views(r@) == without_braces(views(ws@).take(i as int)),
        decreases ws@.len() - i,
    {
        let ghost before = r@;
        let ghost vs = views(ws@).take(i + 1);
        assert(vs.drop_last() =~= views(ws@).take(i as int));
        assert(vs.last() == ws@[i as int]@);
        if !is_text(ws[i].as_slice(), "{") {
            let w = copy_range(ws[i].as_slice(), 0, ws[i].len());
            assert(w@ =~= ws@[i as int]@);
            r.push(w);
            assert(views(r@) =~= views(before).push(w@));
        }
        i = i + 1;
    }
    assert(views(ws@).take(ws@.len() as int) =~= views(ws@));
    r
}

fn join_with_spaces(ws: &[Vec<char>]) -> (r: Vec<char>)
    ensures
        r@ == join(views(ws@), " "@),
{
    proof {
        reveal_strlit(" ");
    }
    let mut r: Vec<char> = Vec::new();
    let mut i: usize = 0;
    while i < ws.len()
        invariant
            i <= ws@.len(),
            " "@ == seq![' '],
            r@ == join(views(ws@).take(i as int), " "@),
        decreases ws@.len() - i,
    {
        let ghost vs = views(ws@).take(i + 1);
        assert(vs.drop_last() =~= views(ws@).take(i as int));
        assert(vs.last() == ws@[i as int]@);
        if i > 0 {
            r.push(' ');
        } else {
            assert(vs =~= seq![ws@[0]@]);
        }
        append_chars(&mut r, ws[i].as_slice());
        i = i + 1;
        assert(r@ =~= join(views(ws@).take(i as int), " "@));
    }
    assert(views(ws@).take(ws@.len() as int) =~= views(ws@));
    r
}

/// A failure of the parser: its kind and the message to report.
pub struct Failure {
    pub issue: ParseIssue,
    pub message: String,
}

/// The failure reports the problem: same kind, same message.
pub open spec fn reports(f: Failure, p: Problem) -> bool {
    f.issue == p.issue && f.message@ == p.message
}

fn fail(issue: ParseIssue, head: &str, rest: &[char]) -> (f: Failure)
    requires
        head@ == issue_text(issue),
    ensures
        reports(f, problem(issue, rest@)),
{
    Failure { issue, message: message(head, rest) }
}

fn fail_plain(issue: ParseIssue, head: &str) -> (f: Failure)
    requires
        head@ == issue_text(issue),
    ensures
        reports(f, plain(issue)),
{
    let empty: Vec<char> = Vec::new();
    assert(empty@ =~= Seq::<char>::empty());
    fail(issue, head, empty.as_slice())
}

fn directive_from(name: &[char], args: &[Vec<char>], line_no: u64) -> (r: Result<Directive, Failure>)
    ensures
        match directive_of(name@, views(args@), line_no) {
            Ok(d) => r matches Ok(x) && x@ == d,
            Err(p) => r matches Err(f) && reports(f, p),
        },
{
    let ghost a = views(args@);
    assert(forall|k: int| 0 <= k < args@.len() ==> a[k] == args@[k]@);
    if is_text(name, "reverse_proxy") {
        if args.len() < 1 {
            return Err(fail_plain(ParseIssue::MissingBackend, "Missing backend URL for reverse_proxy"));
        }
        return Ok(
            Directive::ReverseProxy {
                to: string_of(args[0].as_slice()),
                connect_timeout: None,
                read_timeout: None,
                header_up: no_header_ops(),
            },
        );
    }
    if is_text(name, "uri_replace") {
        if args.len() < 1 {
            return Err(fail_plain(ParseIssue::MissingFind, "Missing 'find' arg for uri_replace"));
        }
        if args.len() < 2 {
            return Err(fail_plain(ParseIssue::MissingReplace, "Missing 'replace' arg for uri_replace"));
        }
        return Ok(
            Directive::UriReplace {
                find: string_of(args[0].as_slice()),
                replace: string_of(args[1].as_slice()),
            },
        );
    }
    if is_text(name, "header") {
        if args.len() < 1 {
            return Err(fail_plain(ParseIssue::MissingHeaderName, "Missing 'name' arg for header"));
        }
        let raw = &args[0];
        if raw.len() > 0 && raw[0] == '-' {
            if raw.len() == 1 {
                return Err(
                    fail_plain(
                        ParseIssue::EmptyHeaderRemoval,
                        "Missing header name after '-' for header removal",
                    ),
                );
            }
            let n = string_of_range_after_first(raw.as_slice());
            return Ok(Directive::Header { name: n, value: None });
        }
        if args.len() < 2 {
            return Err(fail_plain(ParseIssue::MissingHeaderValue, "Missing 'value' arg for header"));
        }
        return Ok(
            Directive::Header {
                name: string_of(raw.as_slice()),
                value: Some(string_of(args[1].as_slice())),
            },
        );
    }
    if is_text(name, "respond") {
        let status = if args.len() < 1 {
            None
        } else {
            parse_unsigned_u64(args[0].as_slice(), 0xffff)
        };
        match status {
            None => {
                return Err(fail_plain(ParseIssue::InvalidStatus, "Invalid status for respond"));
            },
            Some(st) => {
                let body = if args.len() >= 2 {
                    string_of(args[1].as_slice())
                } else {
                    String::new()
                };
                return Ok(Directive::Respond { status: st as u16, body });
            },
        }
    }
    if is_text(name, "strip_prefix") {
        if args.len() < 1 {
            return Err(fail_plain(ParseIssue::MissingPrefix, "Missing 'prefix' arg for strip_prefix"));
        }
        return Ok(Directive::StripPrefix { prefix: string_of(args[0].as_slice()) });
    }
    if is_text(name, "redirect") {
        if args.len() >= 2 {
            match parse_unsigned_u64(args[0].as_slice(), 0xffff) {
                None => {
                    return Err(
                        fail(
                            ParseIssue::InvalidRedirectStatus,
                            "Invalid status code for redirect: ",
                            args[0].as_slice(),
                        ),
                    );
                },
                Some(st) => {
                    let rest = slice_after_first(args);
                    assert(views(rest@) =~= a.drop_first());
                    let url = join_with_spaces(rest.as_slice());
                    return Ok(Directive::Redirect { status: st as u16, url: string_of(url.as_slice()) });
                },
            }
        } else if args.len() == 1 {
            return Ok(Directive::Redirect { status: 301, url: string_of(args[0].as_slice()) });
        } else {
            return Err(fail_plain(ParseIssue::MissingRedirectUrl, "Missing 'url' arg for redirect"));
        }
    }
    let mut tail = chars_of("' on line ");
    let num = line_number_text(line_no);
    append_chars(&mut tail, num.as_slice());
    let mut rest = copy_range(name, 0, name.len());
    append_chars(&mut rest, tail.as_slice());
    assert(rest@ =~= name@ + "' on line "@ + decimal(line_no as nat));
    Err(fail(ParseIssue::UnknownDirective, "Unknown directive '", rest.as_slice()))
}

fn no_header_ops() -> (r: Vec<HeaderDirective>)
    ensures
        header_ops_view(r@) == Seq::<crate::config::models::HeaderOpV>::empty(),
{
    let r: Vec<HeaderDirective> = Vec::new();
    assert(header_ops_view(r@) =~= Seq::<crate::config::models::HeaderOpV>::empty());
    r
}

fn string_of_range_after_first(v: &[char]) -> (s: String)
    requires
        v@.len() >= 1,
    ensures
        s@ == v@.drop_first(),
{
    let s = crate::text::string_of_range(v, 1, v.len());
    assert(v@.subrange(1, v@.len() as int) =~= v@.drop_first());
    s
}

fn slice_after_first(ws: &[Vec<char>]) -> (r: Vec<Vec<char>>)
    requires
        ws@.len() >= 1,
    ensures
        r@.len() == ws@.len() - 1,
        forall|k: int| 0 <= k < r@.len() ==> r@[k]@ == ws@[k + 1]@,
{
    let mut r: Vec<Vec<char>> = Vec::new();
    let mut i: usize = 1;
    while i < ws.len()
        invariant
            1 <= i <= ws@.len(),
            r@.len() == i - 1,
            forall|k: int| 0 <= k < r@.len() ==> r@[k]@ == ws@[k + 1]@,
        decreases ws@.len() - i,
    {
        let w = copy_range(ws[i].as_slice(), 0, ws[i].len());
        assert(w@ =~= ws@[i as int]@);
        r.push(w);
        i = i + 1;
    }
    r
}

// ---------------------------------------------------------------------------
// The line parser
// ---------------------------------------------------------------------------

struct PendingBlock {
    kind: Vec<char>,
    args: Vec<Vec<char>>,
    connect_timeout: Option<u64>,
    read_timeout: Option<u64>,
}

spec fn block_view(b: PendingBlock) -> BlockV {
    BlockV {
        kind: b.kind@,
        args: views(b.args@),
        connect_timeout: b.connect_timeout,
        read_timeout: b.read_timeout,
    }
}

spec fn opt_chars_view(v: Option<Vec<char>>) -> Option<Seq<char>> {
    match v {
        Some(x) => Some(x@),
        None => None,
    }
}

struct LineParser {
    sites: Vec<SiteConfig>,
    current_address: Option<Vec<char>>,
    current_tls: Option<TlsConfig>,
    directives: Vec<Vec<Directive>>,
    blocks: Vec<PendingBlock>,
}

spec fn levels_view(v: Seq<Vec<Directive>>) -> Seq<Seq<DirectiveV>> {
    Seq::new(v.len(), |i: int| dirs_view(v[i]@))
}

spec fn blocks_view(v: Seq<PendingBlock>) -> Seq<BlockV> {
    Seq::new(v.len(), |i: int| block_view(v[i]))
}

impl View for LineParser {
    type V = ParseState;

    closed spec fn view(&self) -> ParseState {
        ParseState {
            sites: sites_view(self.sites@),
            current_address: opt_chars_view(self.current_address),
            current_tls: tls_view(self.current_tls),
            directives: levels_view(self.directives@),
            blocks: blocks_view(self.blocks@),
        }
    }
}

impl LineParser {
    fn new() -> (p: LineParser)
        ensures
            p@ == crate::config::grammar::initial_state(),
    {
        let mut directives: Vec<Vec<Directive>> = Vec::new();
        let e: Vec<Directive> = Vec::new();
        assert(dirs_view(e@) =~= Seq::<DirectiveV>::empty());
        directives.push(e);
        let p = LineParser {
            sites: Vec::new(),
            current_address: None,
            current_tls: None,
            directives,
            blocks: Vec::new(),
        };
        assert(p@.sites =~= Seq::<SiteV>::empty());
        assert(p@.directives =~= seq![Seq::<DirectiveV>::empty()]);
        assert(p@.blocks =~= Seq::<BlockV>::empty());
        p
    }

    /// Adds `d` at the innermost level.
    fn add_directive(&mut self, d: Directive)
        requires
            old(self)@.directives.len() >= 1,
        ensures
            final(self)@ == with_directive(old(self)@, d@),
    {
        let ghost dv = d@;
        let mut inner = self.directives.pop().unwrap();
        let ghost before = inner@;
        inner.push(d);
        assert(dirs_view(inner@) =~= dirs_view(before).push(dv));
        self.directives.push(inner);
        assert(self@.directives =~= with_directive(old(self)@, dv).directives);
        assert(self@ == with_directive(old(self)@, dv));
    }

    fn holds_site(&self, address: &[char]) -> (b: bool)
        ensures
            b == has_site(self@.sites, address@),
    {
        let mut i: usize = 0;
        while i < self.sites.len()
            invariant
                i <= self.sites@.len(),
                self@.sites.len() == self.sites@.len(),
                forall|k: int| 0 <= k < i ==> self@.sites[k].address != address@,
            decreases self.sites@.len() - i,
        {
            let a = chars_of(self.sites[i].address.as_str());
            if same_chars(a.as_slice(), address) {
                assert(self@.sites[i as int].address == address@);
                return true;
            }
            i = i + 1;
        }
        false
    }

    /// A `}` line.
    fn close(&mut self) -> (r: Result<(), Failure>)
        requires
            state_wf(old(self)@),
        ensures
            match close_step(old(self)@) {
                Ok(st) => r is Ok && final(self)@ == st && state_wf(st),
                Err(p) => r matches Err(f) && reports(f, p),
            },
    {
        let ghost st = self@;
        if self.directives.len() > 1 {
            let inner = self.directives.pop().unwrap();
            let block = self.blocks.pop().unwrap();
            assert(dirs_view(inner@) == st.directives.last());
            assert(block_view(block) == st.blocks.last());
            assert(self@.directives =~= st.directives.drop_last());
            assert(self@.blocks =~= st.blocks.drop_last());
            let ghost bv = block_view(block);
            let d = if is_text(block.kind.as_slice(), "handle_path") {
                let pattern = if block.args.len() > 0 {
                    string_of(block.args[0].as_slice())
                } else {
                    String::new()
                };
                assert(pattern@ == first_or_empty(bv.args));
                Directive::HandlePath { pattern, directives: inner }
            } else if is_text(block.kind.as_slice(), "method") {
                let methods = strings_of(block.args.as_slice());
                Directive::Method { methods, directives: inner }
            } else if is_text(block.kind.as_slice(), "reverse_proxy") {
                let to = if block.args.len() > 0 {
                    string_of(block.args[0].as_slice())
                } else {
                    String::new()
                };
                assert(to@ == first_or_empty(bv.args));
                Directive::ReverseProxy {
                    to,
                    connect_timeout: block.connect_timeout,
                    read_timeout: block.read_timeout,
                    header_up: no_header_ops(),
                }
            } else {
                return Err(fail(ParseIssue::UnknownBlock, "Unknown block type: ", block.kind.as_slice()));
            };
            proof {
                lemma_dirs_view_inner(d);
            }
            assert(closed_block(bv, dirs_view(inner@)) == Some(d@));
            self.add_directive(d);
            return Ok(());
        }
        match &self.current_address {
            None => Ok(()),
            Some(address) => {
                let address = copy_range(address.as_slice(), 0, address.len());
                assert(address@ =~= st.current_address.unwrap());
                if self.holds_site(address.as_slice()) {
                    let rest = chars_then(address.as_slice(), "'. Each address may appear only once in the configuration.");
                    return Err(fail(ParseIssue::DuplicateSite, "Duplicate site address '", rest.as_slice()));
                }
                let site_directives = self.directives.pop().unwrap();
                let tls = match &self.current_tls {
                    Some(t) => Some(t.clone()),
                    None => None,
                };
                let site = SiteConfig {
                    address: string_of(address.as_slice()),
                    directives: site_directives,
                    tls,
                };
                let ghost sv = site_view(site);
                assert(sv == SiteV {
                    address: st.current_address.unwrap(),
                    directives: st.directives.last(),
                    tls: st.current_tls,
                });
                self.sites.push(site);
                let e: Vec<Directive> = Vec::new();
                assert(dirs_view(e@) =~= Seq::<DirectiveV>::empty());
                self.directives.push(e);
                self.current_address = None;
                self.current_tls = None;
                assert(self@.sites =~= st.sites.push(sv));
                assert(self@.directives =~= seq![Seq::<DirectiveV>::empty()]);
                Ok(())
            },
        }
    }

    /// A `tls` line at the site level.
    fn tls(&mut self, args: &[Vec<char>], line_no: u64) -> (r: Result<(), Failure>)
        ensures
            match tls_step(old(self)@, views(args@), line_no) {
                Ok(st) => r is Ok && final(self)@ == st,
                Err(p) => r matches Err(f) && reports(f, p),
            },
    {
        let num = line_number_text(line_no);
        if args.len() < 1 {
            return Err(fail(ParseIssue::MissingCertPath, "Missing cert path for tls directive on line ", num.as_slice()));
        }
        if args.len() < 2 {
            return Err(fail(ParseIssue::MissingKeyPath, "Missing key path for tls directive on line ", num.as_slice()));
        }
        if self.current_tls.is_some() {
            let rest = chars_then(num.as_slice(), ". Only one tls per site is allowed.");
            return Err(fail(ParseIssue::DuplicateTls, "Duplicate tls directive on line ", rest.as_slice()));
        }
        self.current_tls = Some(TlsConfig {
            cert_path: string_of(args[0].as_slice()),
            key_path: string_of(args[1].as_slice()),
        });
        Ok(())
    }

    /// A setting inside a `reverse_proxy` block.
    fn timeout(&mut self, name: &[char], args: &[Vec<char>], line_no: u64) -> (r: Result<(), Failure>)
        requires
            state_wf(old(self)@),
            old(self)@.blocks.len() > 0,
        ensures
            match timeout_line(old(self)@, name@, views(args@), line_no) {
                Ok(st) => r is Ok && final(self)@ == st && state_wf(st),
                Err(p) => r matches Err(f) && reports(f, p),
            },
    {
        let ghost st = self@;
        let connect = is_text(name, "connect_timeout");
        let read = !connect && is_text(name, "read_timeout");
        let num = line_number_text(line_no);
        if !connect && !read {
            let mut rest = copy_range(name, 0, name.len());
            let tail = chars_of("' inside reverse_proxy block on line ");
            append_chars(&mut rest, tail.as_slice());
            append_chars(&mut rest, num.as_slice());
            let tail2 = chars_of(". Only connect_timeout and read_timeout are allowed.");
            append_chars(&mut rest, tail2.as_slice());
            assert(rest@ =~= name@ + "' inside reverse_proxy block on line "@ + decimal(line_no as nat)
                + ". Only connect_timeout and read_timeout are allowed."@);
            return Err(fail(ParseIssue::UnexpectedInReverseProxy, "Unexpected directive '", rest.as_slice()));
        }
        if args.len() < 1 {
            if connect {
                return Err(fail_plain(ParseIssue::MissingConnectTimeout, "Missing value for connect_timeout"));
            } else {
                return Err(fail_plain(ParseIssue::MissingReadTimeout, "Missing value for read_timeout"));
            }
        }
        assert(views(args@)[0] == args@[0]@);
        let secs = match duration_from_chars(args[0].as_slice()) {
            Ok(n) => n,
            Err(None) => {
                return Err(fail_plain(ParseIssue::DurationOverflow, "Duration overflow"));
            },
            Err(Some(m)) => {
                let mut rest = num;
                let sep = chars_of(": Parse error: ");
                append_chars(&mut rest, sep.as_slice());
                let mc = chars_of(m.as_str());
                append_chars(&mut rest, mc.as_slice());
                assert(rest@ =~= decimal(line_no as nat) + ": Parse error: "@ + duration_message(views(args@)[0]));
                if connect {
                    return Err(fail(ParseIssue::InvalidConnectTimeout, "Invalid connect_timeout on line ", rest.as_slice()));
                } else {
                    return Err(fail(ParseIssue::InvalidReadTimeout, "Invalid read_timeout on line ", rest.as_slice()));
                }
            },
        };
        let mut block = self.blocks.pop().unwrap();
        assert(block_view(block) == st.blocks.last());
        if connect {
            block.connect_timeout = Some(secs);
        } else {
            block.read_timeout = Some(secs);
        }
        let ghost bv = block_view(block);
        self.blocks.push(block);
        assert(self@.blocks =~= st.blocks.update(st.blocks.len() - 1, bv));
        Ok(())
    }

    /// A line that is neither a block opening nor `}`, split into `parts`.
    fn words_line(&mut self, parts: &[Vec<char>], line_no: u64) -> (r: Result<(), Failure>)
        requires
            state_wf(old(self)@),
            parts@.len() > 0,
        ensures
            match word_step(old(self)@, views(parts@)[0], views(parts@).drop_first(), line_no) {
                Ok(st) => r is Ok && final(self)@ == st && state_wf(st),
                Err(p) => r matches Err(f) && reports(f, p),
            },
    {
        let ghost pv = views(parts@);
        let name = &parts[0];
        let args = slice_after_first(parts);
        assert(views(args@) =~= pv.drop_first());
        assert(name@ == pv[0]);
        if self.blocks.len() > 0 && is_text(self.blocks[self.blocks.len() - 1].kind.as_slice(), "reverse_proxy") {
            assert(self@.blocks.last() == block_view(self.blocks@[self.blocks@.len() - 1]));
            return self.timeout(name.as_slice(), args.as_slice(), line_no);
        }
        assert(self.blocks@.len() > 0 ==> self@.blocks.last().kind == self.blocks@[self.blocks@.len() - 1].kind@);
        if is_text(name.as_slice(), "tls") && self.blocks.len() == 0 {
            return self.tls(args.as_slice(), line_no);
        }
        match directive_from(name.as_slice(), args.as_slice(), line_no) {
            Err(f) => Err(f),
            Ok(d) => {
                self.add_directive(d);
                Ok(())
            },
        }
    }

    /// One trimmed line.
    fn feed(&mut self, line: &[char], line_no: u64) -> (r: Result<(), Failure>)
        requires
            state_wf(old(self)@),
        ensures
            match step(old(self)@, line@, line_no) {
                Ok(st) => r is Ok && final(self)@ == st && state_wf(st),
                Err(p) => r matches Err(f) && reports(f, p),
            },
    {
        if line.len() == 0 || line[0] == '#' {
            return Ok(());
        }
        if line[line.len() - 1] == '{' {
            let parts = split_line(line);
            if parts.len() == 0 {
                return Ok(());
            }
            self.open_block(parts);
            return Ok(());
        }
        if is_text(line, "}") {
            return self.close();
        }
        let parts = split_line(line);
        if parts.len() == 0 {
            return Ok(());
        }
        self.words_line(parts.as_slice(), line_no)
    }

    /// A line that ends with `{`, split into `parts`.
    fn open_block(&mut self, parts: Vec<Vec<char>>)
        requires
            state_wf(old(self)@),
            parts@.len() > 0,
        ensures
            state_wf(final(self)@),
            final(self)@ == open_step(old(self)@, views(parts@)),
    {
        let ghost pv = views(parts@);
        if self.directives.len() == 1 && self.current_address.is_none() {
            let first = copy_range(parts[0].as_slice(), 0, parts[0].len());
            assert(first@ =~= pv[0]);
            self.current_address = Some(first);
            return;
        }
        let rest = slice_after_first(parts.as_slice());
        assert(views(rest@) =~= pv.drop_first());
        let args = drop_braces(rest.as_slice());
        let kind = copy_range(parts[0].as_slice(), 0, parts[0].len());
        assert(kind@ =~= pv[0]);
        let ghost bv = BlockV { kind: pv[0], args: without_braces(pv.drop_first()), connect_timeout: None, read_timeout: None };
        let b = PendingBlock { kind, args, connect_timeout: None, read_timeout: None };
        assert(block_view(b) == bv);
        self.blocks.push(b);
        let e: Vec<Directive> = Vec::new();
        assert(dirs_view(e@) =~= Seq::<DirectiveV>::empty());
        self.directives.push(e);
        assert(self@.blocks =~= old(self)@.blocks.push(bv));
        assert(self@.directives =~= old(self)@.directives.push(Seq::empty()));
    }
}

// ---------------------------------------------------------------------------
// Listen sockets
// ---------------------------------------------------------------------------

fn sni_key_of(address: &[char]) -> (k: Vec<char>)
    ensures
        k@ == sni_key(address@),
{
    let (a, b) = hostname_bounds(address);
    let h = copy_range(address, a, b);
    lowercase(h.as_slice())
}

fn mixed_failure(a: &ListenAddr, address: &[char], is_tls: bool) -> (f: Failure)
    ensures
        reports(
            f,
            problem(
                ParseIssue::MixedTls,
                socket_display(*a) + " is not supported. Site '"@ + address@ + (if is_tls {
                    "' is TLS"@
                } else {
                    "' is plain HTTP"@
                }) + " but conflicts with another site on this socket."@,
            ),
        ),
{
    let mut rest = socket_text(a);
    let t1 = chars_of(" is not supported. Site '");
    append_chars(&mut rest, t1.as_slice());
    append_chars(&mut rest, address);
    let t2 = chars_of(if is_tls { "' is TLS" } else { "' is plain HTTP" });
    append_chars(&mut rest, t2.as_slice());
    let t3 = chars_of(" but conflicts with another site on this socket.");
    append_chars(&mut rest, t3.as_slice());
    assert(rest@ =~= socket_display(*a) + " is not supported. Site '"@ + address@ + (if is_tls {
        "' is TLS"@
    } else {
        "' is plain HTTP"@
    }) + " but conflicts with another site on this socket."@);
    fail(ParseIssue::MixedTls, "Mixed TLS and non-TLS sites on the same listen address ", rest.as_slice())
}

fn sni_failure(a: &ListenAddr, key: &[char], other: &str, address: &[char]) -> (f: Failure)
    ensures
        reports(
            f,
            problem(
                ParseIssue::DuplicateSni,
                key@ + "' on listen address "@ + socket_display(*a) + " (sites '"@ + other@ + "' and '"@
                    + address@ + "')"@,
            ),
        ),
{
    let mut rest = copy_range(key, 0, key.len());
    let t1 = chars_of("' on listen address ");
    append_chars(&mut rest, t1.as_slice());
    let st = socket_text(a);
    append_chars(&mut rest, st.as_slice());
    let t2 = chars_of(" (sites '");
    append_chars(&mut rest, t2.as_slice());
    let oc = chars_of(other);
    append_chars(&mut rest, oc.as_slice());
    let t3 = chars_of("' and '");
    append_chars(&mut rest, t3.as_slice());
    append_chars(&mut rest, address);
    let t4 = chars_of("')");
    append_chars(&mut rest, t4.as_slice());
    assert(rest@ =~= key@ + "' on listen address "@ + socket_display(*a) + " (sites '"@ + other@ + "' and '"@
        + address@ + "')"@);
    fail(ParseIssue::DuplicateSni, "Duplicate SNI hostname '", rest.as_slice())
}

/// The first conflict between the sites' listen sockets, in order (see
/// [`crate::config::grammar::site_issue`]).
fn socket_conflict(sites: &Vec<SiteConfig>) -> (r: Option<Failure>)
    ensures
        match sites_issue_from(sites_view(sites@), 0) {
            Some(p) => r matches Some(f) && reports(f, p),
            None => r is None,
        },
{
    let ghost sv = sites_view(sites@);
    let mut resolved: Vec<ListenAddr> = Vec::new();
    let mut keys: Vec<Vec<char>> = Vec::new();
    let mut i: usize = 0;
    while i < sites.len()
        invariant
            i <= sites@.len(),
            sv == sites_view(sites@),
            sv.len() == sites@.len(),
            resolved@.len() == i,
            keys@.len() == i,
            forall|j: int| 0 <= j < i ==> site_socket(sv[j]) == Some(#[trigger] resolved@[j]),
            forall|j: int| 0 <= j < i ==> #[trigger] keys@[j]@ == sni_key(sv[j].address),
            sites_issue_from(sv, 0) == sites_issue_from(sv, i as int),
        decreases sites@.len() - i,
    {
        let address = chars_of(sites[i].address.as_str());
        assert(address@ == sv[i as int].address);
        let a = match resolve_site_addr(sites[i].address.as_str(), sites[i].tls.is_some()) {
            Ok(a) => a,
            Err(_) => {
                assert(site_issue(sv, i as int) == Some(problem(ParseIssue::UnresolvableAddress, address@)));
                return Some(fail(ParseIssue::UnresolvableAddress, "Cannot parse address: ", address.as_slice()));
            },
        };
        let is_tls = sites[i].tls.is_some();
        assert(is_tls == (sv[i as int].tls is Some));
        let mut j: usize = 0;
        while j < i
            invariant
                j <= i < sites@.len(),
                sv == sites_view(sites@),
                resolved@.len() == i,
                forall|k: int| 0 <= k < i ==> site_socket(sv[k]) == Some(#[trigger] resolved@[k]),
                forall|k: int| 0 <= k < j ==> !(resolved@[k] == a && (sv[k].tls is Some) != is_tls),
                site_socket(sv[i as int]) == Some(a),
                is_tls == (sv[i as int].tls is Some),
                address@ == sv[i as int].address,
                sites_issue_from(sv, 0) == sites_issue_from(sv, i as int),
            decreases i - j,
        {
            if resolved[j] == a && sites[j].tls.is_some() != is_tls {
                assert(site_issue(sv, i as int) == Some(problem(
                    ParseIssue::MixedTls,
                    socket_display(a) + " is not supported. Site '"@ + address@ + (if is_tls {
                        "' is TLS"@
                    } else {
                        "' is plain HTTP"@
                    }) + " but conflicts with another site on this socket."@,
                ))) by {
                    assert(site_socket(sv[j as int]) == Some(a) && (sv[j as int].tls is Some) != (sv[i as int].tls is Some));
                }
                assert(sites_issue_from(sv, i as int) == site_issue(sv, i as int));
                return Some(mixed_failure(&a, address.as_slice(), is_tls));
            }
            j = j + 1;
        }
        let key = sni_key_of(address.as_slice());
        if is_tls {
            let mut j: usize = 0;
            while j < i
                invariant
                    j <= i < sites@.len(),
                    sv == sites_view(sites@),
                    resolved@.len() == i,
                    keys@.len() == i,
                    forall|k: int| 0 <= k < i ==> site_socket(sv[k]) == Some(#[trigger] resolved@[k]),
                    forall|k: int| 0 <= k < i ==> #[trigger] keys@[k]@ == sni_key(sv[k].address),
                    forall|k: int| 0 <= k < j ==> !(resolved@[k] == a && sv[k].tls is Some && keys@[k]@ == key@),
                    forall|k: int| 0 <= k < i ==> !(resolved@[k] == a && (sv[k].tls is Some) != is_tls),
                    site_socket(sv[i as int]) == Some(a),
                    is_tls == (sv[i as int].tls is Some),
                    is_tls,
                    key@ == sni_key(sv[i as int].address),
                    address@ == sv[i as int].address,
                    sites_issue_from(sv, 0) == sites_issue_from(sv, i as int),
                    first_clash(sv, i as int, a, 0) == first_clash(sv, i as int, a, j as int),
                decreases i - j,
            {
                if resolved[j] == a && sites[j].tls.is_some() && same_chars(keys[j].as_slice(), key.as_slice()) {
                    assert(first_clash(sv, i as int, a, j as int) == j);
                    assert(sv[j as int].address == sites@[j as int].address@);
                    assert(site_issue(sv, i as int) == Some(problem(
                        ParseIssue::DuplicateSni,
                        key@ + "' on listen address "@ + socket_display(a) + " (sites '"@ + sites@[j as int].address@ + "' and '"@
                            + address@ + "')"@,
                    ))) by {
                        assert(site_socket(sv[j as int]) == Some(a) && sv[j as int].tls is Some && sni_key(sv[j as int].address) == sni_key(sv[i as int].address));
                        assert(!exists|k: int| 0 <= k < i && site_socket(#[trigger] sv[k]) == Some(a) && (sv[k].tls is Some) != (sv[i as int].tls is Some)) by {
                            assert forall|k: int| 0 <= k < i && site_socket(#[trigger] sv[k]) == Some(a) implies (sv[k].tls is Some) == (sv[i as int].tls is Some) by {
                                assert(resolved@[k] == a);
                            }
                        }
                    }
                    assert(sites_issue_from(sv, i as int) == site_issue(sv, i as int));
                    return Some(sni_failure(&a, key.as_slice(), sites[j].address.as_str(), address.as_slice()));
                }
                assert(!sni_clash(sv, i as int, a, j as int));
                j = j + 1;
            }
        }
        assert(site_issue(sv, i as int) is None) by {
            assert forall|k: int| 0 <= k < i && site_socket(#[trigger] sv[k]) == Some(a) implies (sv[k].tls is Some) == (sv[i as int].tls is Some) by {
                assert(resolved@[k] == a);
            }
            if sv[i as int].tls is Some {
                assert forall|k: int| 0 <= k < i && site_socket(#[trigger] sv[k]) == Some(a) && sv[k].tls is Some implies sni_key(sv[k].address) != sni_key(sv[i as int].address) by {
                    assert(resolved@[k] == a);
                    assert(keys@[k]@ == sni_key(sv[k].address));
                }
            }
        }
        resolved.push(a);
        keys.push(key);
        i = i + 1;
    }
    None
}

// ---------------------------------------------------------------------------
// The whole text
// ---------------------------------------------------------------------------

/// The configuration described by `content`, or the first mistake in it.
pub fn config_from_text(content: &str) -> (r: Result<Config, Failure>)
    ensures
        match parse_config(content@) {
            Ok(sites) => r matches Ok(c) && c@ == sites,
            Err(p) => r matches Err(f) && reports(f, p),
        },
{
    let s = chars_of(content);
    let mut p = LineParser::new();
    let mut pos: usize = 0;
    let mut line_no: u64 = 1;
    while pos < s.len()
        invariant
            pos <= s@.len(),
            s@ == content@,
            state_wf(p@),
            run_lines(s@, 0, initial_state(), 1) == run_lines(s@, pos as int, p@, line_no),
        decreases s@.len() - pos,
    {
        proof {
            lemma_line_end(s@, pos as int);
        }
        let mut e = pos;
        while e < s.len() && s[e] != '\n'
            invariant
                pos <= e <= s@.len(),
                line_end(s@, pos as int) == line_end(s@, e as int),
            decreases s@.len() - e,
        {
            e = e + 1;
        }
        let raw = copy_range(s.as_slice(), pos, e);
        let line = trimmed(raw.as_slice());
        let ghost before = p@;
        match p.feed(line.as_slice(), line_no) {
            Err(f) => return Err(f),
            Ok(()) => {},
        }
        assert(run_lines(s@, pos as int, before, line_no) == run_lines(s@, e + 1, p@, next_line(line_no)));
        assert(e == s@.len() ==> run_lines(s@, e as int, p@, next_line(line_no)) == run_lines(s@, e + 1, p@, next_line(line_no)));
        if e < s.len() {
            pos = e + 1;
        } else {
            pos = e;
        }
        line_no = line_no.saturating_add(1);
    }
    let LineParser { sites, .. } = p;
    match socket_conflict(&sites) {
        Some(f) => Err(f),
        None => Ok(Config { sites }),
    }
}

impl Config {
    /// Parse a configuration from its text (see
    /// [`crate::config::grammar`]). Every error is a
    /// [`ProxyError::Parse`] with the message of the first problem.
    pub fn from_str(content: &str) -> (r: Result<Config, ProxyError>)
        requires
            !stops_on_overflow(content@),
        ensures
            match parse_config(content@) {
                Ok(sites) => r matches Ok(c) && c@ == sites,
                Err(p) => r matches Err(ProxyError::Parse(m)) && m@ == p.message,
            },
            r matches Ok(c) ==> c.wf() && crate::config::grammar::sockets_consistent(c@),
    {
        proof {
            if parse_config(content@) is Ok {
                crate::config::grammar::lemma_parsed_config(content@);
            }
        }
        match config_from_text(content) {
            Ok(c) => Ok(c),
            Err(f) => Err(ProxyError::Parse(f.message)),
        }
    }

    /// Whether the text can be parsed without a duration that overflows
    /// (which [`Config::from_str`] does not accept).
    pub fn durations_fit(content: &str) -> (b: bool)
        ensures
            b == !stops_on_overflow(content@),
    {
        match config_from_text(content) {
            Ok(_) => true,
            Err(f) => !matches!(f.issue, ParseIssue::DurationOverflow),
        }
    }
}

} // verus!
