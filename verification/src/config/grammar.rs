//! The configuration language, stated line by line.
//!
//! The text is read one line at a time (lines end at `\n`); each line is
//! trimmed, and empty lines and lines starting with `#` are skipped. A line
//! that ends with `{` opens a site block at the top level, otherwise a nested
//! block (`handle_path`, `method`, `reverse_proxy`); a line that is exactly
//! `}` closes the innermost block; any other line is a directive. The words
//! of a line are separated by whitespace; a word that starts with `"` runs
//! to the next `"` and may hold whitespace (the quotes are not part of it;
//! a quote left open runs to the end of the line). Inside a `reverse_proxy`
//! block only the `connect_timeout` and `read_timeout` settings are allowed;
//! `tls` is taken at the site level. Closing a site adds it to the
//! configuration, and no address may be used twice. A site address without
//! a port (a bare host name such as `api.example.com`) listens on port 80,
//! or on 443 when the site uses TLS.

use vstd::prelude::*;
use crate::config::models::{DirectiveV, SiteV, TlsV};
use crate::config::address::{hostname_of, site_listen_addr};
use crate::config::net::{socket_display, ListenAddr};
use crate::text::{decimal, is_ws, lemma_word_end_bounds, lower_all, parse_unsigned, trim, word_end};

verus! {

/// The kinds of mistakes that the parser reports.
#[derive(Clone, Copy, Debug, PartialEq, Eq, Structural)]
pub enum ParseIssue {
    UnknownBlock,
    DuplicateSite,
    MissingConnectTimeout,
    InvalidConnectTimeout,
    MissingReadTimeout,
    InvalidReadTimeout,
    UnexpectedInReverseProxy,
    MissingCertPath,
    MissingKeyPath,
    DuplicateTls,
    MissingBackend,
    MissingFind,
    MissingReplace,
    MissingHeaderName,
    EmptyHeaderRemoval,
    MissingHeaderValue,
    InvalidStatus,
    MissingPrefix,
    InvalidRedirectStatus,
    MissingRedirectUrl,
    UnknownDirective,
    /// A duration whose value in seconds does not fit in 64 bits.
    DurationOverflow,
    UnresolvableAddress,
    MixedTls,
    DuplicateSni,
}

/// The text that every error message of an issue starts with.
pub open spec fn issue_text(i: ParseIssue) -> Seq<char> {
    match i {
        ParseIssue::UnknownBlock => "Unknown block type: "@,
        ParseIssue::DuplicateSite => "Duplicate site address '"@,
        ParseIssue::MissingConnectTimeout => "Missing value for connect_timeout"@,
        ParseIssue::InvalidConnectTimeout => "Invalid connect_timeout on line "@,
        ParseIssue::MissingReadTimeout => "Missing value for read_timeout"@,
        ParseIssue::InvalidReadTimeout => "Invalid read_timeout on line "@,
        ParseIssue::UnexpectedInReverseProxy => "Unexpected directive '"@,
        ParseIssue::MissingCertPath => "Missing cert path for tls directive on line "@,
        ParseIssue::MissingKeyPath => "Missing key path for tls directive on line "@,
        ParseIssue::DuplicateTls => "Duplicate tls directive on line "@,
        ParseIssue::MissingBackend => "Missing backend URL for reverse_proxy"@,
        ParseIssue::MissingFind => "Missing 'find' arg for uri_replace"@,
        ParseIssue::MissingReplace => "Missing 'replace' arg for uri_replace"@,
        ParseIssue::MissingHeaderName => "Missing 'name' arg for header"@,
        ParseIssue::EmptyHeaderRemoval => "Missing header name after '-' for header removal"@,
        ParseIssue::MissingHeaderValue => "Missing 'value' arg for header"@,
        ParseIssue::InvalidStatus => "Invalid status for respond"@,
        ParseIssue::MissingPrefix => "Missing 'prefix' arg for strip_prefix"@,
        ParseIssue::InvalidRedirectStatus => "Invalid status code for redirect: "@,
        ParseIssue::MissingRedirectUrl => "Missing 'url' arg for redirect"@,
        ParseIssue::UnknownDirective => "Unknown directive '"@,
        ParseIssue::DurationOverflow => "Duration overflow"@,
        ParseIssue::UnresolvableAddress => "Cannot parse address: "@,
        ParseIssue::MixedTls => "Mixed TLS and non-TLS sites on the same listen address "@,
        ParseIssue::DuplicateSni => "Duplicate SNI hostname '"@,
    }
}

/// A mistake found in a configuration: its kind and the message that
/// reports it.
pub struct Problem {
    pub issue: ParseIssue,
    pub message: Seq<char>,
}

/// The problem of kind `i` whose message is the issue's text followed by
/// `rest`.
pub open spec fn problem(i: ParseIssue, rest: Seq<char>) -> Problem {
    Problem { issue: i, message: issue_text(i) + rest }
}

/// The problem of kind `i` whose message is the issue's text alone.
pub open spec fn plain(i: ParseIssue) -> Problem {
    problem(i, Seq::empty())
}

/// The number of the line after line `ln` (it stays at the largest 64-bit
/// value once there).
pub open spec fn next_line(ln: u64) -> u64 {
    if ln == u64::MAX {
        ln
    } else {
        (ln + 1) as u64
    }
}

// ---------------------------------------------------------------------------
// Durations
// ---------------------------------------------------------------------------

/// How a duration reads: a number of seconds (which may be too large for 64
/// bits), or why it does not read.
pub enum DurationReading {
    Seconds(nat),
    Empty,
    BadSuffix,
    BadNumber,
}

pub open spec fn unit_seconds(c: char) -> nat {
    if c == 's' {
        1
    } else if c == 'm' {
        60
    } else if c == 'h' {
        3600
    } else if c == 'd' {
        86400
    } else {
        0
    }
}

/// A duration: a plain number of seconds, or a number followed by `s`, `m`,
/// `h` or `d`; surrounding whitespace is ignored.
pub open spec fn read_duration(s: Seq<char>) -> DurationReading {
    let t = trim(s);
    if t.len() == 0 {
        DurationReading::Empty
    } else if parse_unsigned(t, u64::MAX as nat) is Some {
        DurationReading::Seconds(parse_unsigned(t, u64::MAX as nat).unwrap())
    } else if unit_seconds(t.last()) == 0 {
        DurationReading::BadSuffix
    } else {
        match parse_unsigned(t.drop_last(), u64::MAX as nat) {
            Some(n) => DurationReading::Seconds(n * unit_seconds(t.last())),
            None => DurationReading::BadNumber,
        }
    }
}

/// The duration reads as more seconds than 64 bits hold.
pub open spec fn duration_overflows(s: Seq<char>) -> bool {
    read_duration(s) matches DurationReading::Seconds(n) && n > u64::MAX
}

/// The message of a duration that does not read.
pub open spec fn duration_message(s: Seq<char>) -> Seq<char> {
    match read_duration(s) {
        DurationReading::Empty => "Empty duration value"@,
        DurationReading::BadSuffix => "Invalid duration '"@ + trim(s)
            + "'. Use a plain number or Ns/Nm/Nh/Nd"@,
        _ => "Invalid numeric value in duration: '"@ + trim(s) + "'"@,
    }
}

// ---------------------------------------------------------------------------
// Parser state
// ---------------------------------------------------------------------------

/// A block that is open: its kind, its arguments and, for a `reverse_proxy`
/// block, the timeouts read so far.
pub struct BlockV {
    pub kind: Seq<char>,
    pub args: Seq<Seq<char>>,
    pub connect_timeout: Option<u64>,
    pub read_timeout: Option<u64>,
}

/// Where the parser stands between two lines: the sites closed so far, the
/// address and TLS settings of the open site, one list of directives per
/// nesting level (the site level first), and the nested blocks that are open.
pub struct ParseState {
    pub sites: Seq<SiteV>,
    pub current_address: Option<Seq<char>>,
    pub current_tls: Option<TlsV>,
    pub directives: Seq<Seq<DirectiveV>>,
    pub blocks: Seq<BlockV>,
}

pub open spec fn initial_state() -> ParseState {
    ParseState {
        sites: Seq::empty(),
        current_address: None,
        current_tls: None,
        directives: seq![Seq::empty()],
        blocks: Seq::empty(),
    }
}

/// One list of directives per open nesting level.
pub open spec fn state_wf(st: ParseState) -> bool {
    st.directives.len() == st.blocks.len() + 1
}

// ---------------------------------------------------------------------------
// Words of a line
// ---------------------------------------------------------------------------

/// Index of the first `"` at or after `i`, or the length.
pub open spec fn quote_end(s: Seq<char>, i: int) -> int
    decreases s.len() - i,
{
    if 0 <= i < s.len() && s[i] != '"' {
        quote_end(s, i + 1)
    } else {
        i
    }
}

pub proof fn lemma_quote_end(s: Seq<char>, i: int)
    requires
        0 <= i <= s.len(),
    ensures
        i <= quote_end(s, i) <= s.len(),
        quote_end(s, i) < s.len() ==> s[quote_end(s, i)] == '"',
    decreases s.len() - i,
{
    if i < s.len() && s[i] != '"' {
        lemma_quote_end(s, i + 1);
    }
}

/// The words of `s` from index `i` on: runs of characters other than
/// whitespace, and text between double quotes.
pub open spec fn words_of(s: Seq<char>, i: int) -> Seq<Seq<char>>
    decreases s.len() + 1 - i,
{
    if i < 0 || i >= s.len() {
        Seq::empty()
    } else if is_ws(s[i]) {
        words_of(s, i + 1)
    } else if s[i] == '"' {
        let e = quote_end(s, i + 1);
        proof {
            lemma_quote_end(s, i + 1);
        }
        seq![s.subrange(i + 1, e)] + words_of(s, e + 1)
    } else {
        let e = word_end(s, i);
        proof {
            lemma_word_end_bounds(s, i);
        }
        if e <= i {
            Seq::empty()
        } else {
            seq![s.subrange(i, e)] + words_of(s, e)
        }
    }
}

/// The words of a line.
pub open spec fn line_words(s: Seq<char>) -> Seq<Seq<char>> {
    words_of(s, 0)
}

/// The words other than `{`.
pub open spec fn without_braces(ws: Seq<Seq<char>>) -> Seq<Seq<char>>
    decreases ws.len(),
{
    if ws.len() == 0 {
        ws
    } else if ws.last() == "{"@ {
        without_braces(ws.drop_last())
    } else {
        without_braces(ws.drop_last()).push(ws.last())
    }
}

/// Words joined by `sep`.
pub open spec fn join(ws: Seq<Seq<char>>, sep: Seq<char>) -> Seq<char>
    decreases ws.len(),
{
    if ws.len() == 0 {
        Seq::empty()
    } else if ws.len() == 1 {
        ws[0]
    } else {
        join(ws.drop_last(), sep) + sep + ws.last()
    }
}

/// The first word, or nothing.
pub open spec fn first_or_empty(ws: Seq<Seq<char>>) -> Seq<char> {
    if ws.len() > 0 {
        ws[0]
    } else {
        Seq::empty()
    }
}

/// The directive that closing `block` produces from the directives inside it.
pub open spec fn closed_block(block: BlockV, inner: Seq<DirectiveV>) -> Option<DirectiveV> {
    if block.kind == "handle_path"@ {
        Some(DirectiveV::HandlePath { pattern: first_or_empty(block.args), directives: inner })
    } else if block.kind == "method"@ {
        Some(DirectiveV::Method { methods: block.args, directives: inner })
    } else if block.kind == "reverse_proxy"@ {
        Some(
            DirectiveV::ReverseProxy {
                to: first_or_empty(block.args),
                connect_timeout: block.connect_timeout,
                read_timeout: block.read_timeout,
                header_up: Seq::empty(),
            },
        )
    } else {
        None
    }
}

/// A one-line directive from its name and arguments.
pub open spec fn directive_of(name: Seq<char>, args: Seq<Seq<char>>, ln: u64) -> Result<
    DirectiveV,
    Problem,
> {
    if name == "reverse_proxy"@ {
        if args.len() < 1 {
            Err(plain(ParseIssue::MissingBackend))
        } else {
            Ok(
                DirectiveV::ReverseProxy {
                    to: args[0],
                    connect_timeout: None,
                    read_timeout: None,
                    header_up: Seq::empty(),
                },
            )
        }
    } else if name == "uri_replace"@ {
        if args.len() < 1 {
            Err(plain(ParseIssue::MissingFind))
        } else if args.len() < 2 {
            Err(plain(ParseIssue::MissingReplace))
        } else {
            Ok(DirectiveV::UriReplace { find: args[0], replace: args[1] })
        }
    } else if name == "header"@ {
        if args.len() < 1 {
            Err(plain(ParseIssue::MissingHeaderName))
        } else if args[0].len() > 0 && args[0][0] == '-' {
            if args[0].len() == 1 {
                Err(plain(ParseIssue::EmptyHeaderRemoval))
            } else {
                Ok(DirectiveV::Header { name: args[0].drop_first(), value: None })
            }
        } else if args.len() < 2 {
            Err(plain(ParseIssue::MissingHeaderValue))
        } else {
            Ok(DirectiveV::Header { name: args[0], value: Some(args[1]) })
        }
    } else if name == "respond"@ {
        if args.len() < 1 || parse_unsigned(args[0], 0xffff) is None {
            Err(plain(ParseIssue::InvalidStatus))
        } else {
            Ok(
                DirectiveV::Respond {
                    status: parse_unsigned(args[0], 0xffff).unwrap() as u16,
                    body: if args.len() >= 2 {
                        args[1]
                    } else {
                        Seq::empty()
                    },
                },
            )
        }
    } else if name == "strip_prefix"@ {
        if args.len() < 1 {
            Err(plain(ParseIssue::MissingPrefix))
        } else {
            Ok(DirectiveV::StripPrefix { prefix: args[0] })
        }
    } else if name == "redirect"@ {
        if args.len() >= 2 {
            match parse_unsigned(args[0], 0xffff) {
                None => Err(problem(ParseIssue::InvalidRedirectStatus, args[0])),
                Some(st) => Ok(
                    DirectiveV::Redirect { status: st as u16, url: join(args.drop_first(), " "@) },
                ),
            }
        } else if args.len() == 1 {
            Ok(DirectiveV::Redirect { status: 301, url: args[0] })
        } else {
            Err(plain(ParseIssue::MissingRedirectUrl))
        }
    } else {
        Err(problem(ParseIssue::UnknownDirective, name + "' on line "@ + decimal(ln as nat)))
    }
}

/// `st` with `d` added at the innermost nesting level.
pub open spec fn with_directive(st: ParseState, d: DirectiveV) -> ParseState {
    let k = st.directives.len() - 1;
    ParseState { directives: st.directives.update(k, st.directives[k].push(d)), ..st }
}

/// A timeout setting inside a `reverse_proxy` block.
pub open spec fn timeout_line(st: ParseState, name: Seq<char>, args: Seq<Seq<char>>, ln: u64) -> Result<
    ParseState,
    Problem,
> {
    let k = st.blocks.len() - 1;
    let b = st.blocks[k];
    if name == "connect_timeout"@ {
        if args.len() < 1 {
            Err(plain(ParseIssue::MissingConnectTimeout))
        } else {
            match read_duration(args[0]) {
                DurationReading::Seconds(n) => if n > u64::MAX {
                    Err(plain(ParseIssue::DurationOverflow))
                } else {
                    Ok(
                        ParseState {
                            blocks: st.blocks.update(
                                k,
                                BlockV { connect_timeout: Some(n as u64), ..b },
                            ),
                            ..st
                        },
                    )
                },
                _ => Err(
                    problem(
                        ParseIssue::InvalidConnectTimeout,
                        decimal(ln as nat) + ": Parse error: "@ + duration_message(args[0]),
                    ),
                ),
            }
        }
    } else if name == "read_timeout"@ {
        if args.len() < 1 {
            Err(plain(ParseIssue::MissingReadTimeout))
        } else {
            match read_duration(args[0]) {
                DurationReading::Seconds(n) => if n > u64::MAX {
                    Err(plain(ParseIssue::DurationOverflow))
                } else {
                    Ok(
                        ParseState {
                            blocks: st.blocks.update(k, BlockV { read_timeout: Some(n as u64), ..b }),
                            ..st
                        },
                    )
                },
                _ => Err(
                    problem(
                        ParseIssue::InvalidReadTimeout,
                        decimal(ln as nat) + ": Parse error: "@ + duration_message(args[0]),
                    ),
                ),
            }
        }
    } else {
        Err(
            problem(
                ParseIssue::UnexpectedInReverseProxy,
                name + "' inside reverse_proxy block on line "@ + decimal(ln as nat)
                    + ". Only connect_timeout and read_timeout are allowed."@,
            ),
        )
    }
}

/// `redirect URL` with just the URL is a permanent redirect: status 301
/// to that URL; `redirect STATUS URL` redirects with the status given.
pub proof fn lemma_redirect_default_permanent(url: Seq<char>, status: u16, ln: u64)
    ensures
        directive_of("redirect"@, seq![url], ln) == Ok::<DirectiveV, Problem>(
            DirectiveV::Redirect { status: 301, url },
        ),
        directive_of("redirect"@, seq![decimal(status as nat), url], ln) == Ok::<DirectiveV, Problem>(
            DirectiveV::Redirect { status, url },
        ),
{
    reveal_strlit("redirect");
    reveal_strlit("reverse_proxy");
    reveal_strlit("uri_replace");
    reveal_strlit("header");
    reveal_strlit("respond");
    reveal_strlit("strip_prefix");
    reveal_strlit(" ");
    crate::text::lemma_parse_decimal(status as nat, 0xffff);
    let args = seq![decimal(status as nat), url];
    assert(args.drop_first() =~= seq![url]);
}

/// A site with this address is already configured.
pub open spec fn has_site(sites: Seq<SiteV>, address: Seq<char>) -> bool {
    exists|i: int| 0 <= i < sites.len() && #[trigger] sites[i].address == address
}

/// What a line that ends with `{` does, given its words: at the top level
/// with no site open it opens a site, otherwise it opens a nested block.
pub open spec fn open_step(st: ParseState, parts: Seq<Seq<char>>) -> ParseState {
    if st.directives.len() == 1 && st.current_address is None {
        ParseState { current_address: Some(parts[0]), ..st }
    } else {
        ParseState {
            blocks: st.blocks.push(
                BlockV {
                    kind: parts[0],
                    args: without_braces(parts.drop_first()),
                    connect_timeout: None,
                    read_timeout: None,
                },
            ),
            directives: st.directives.push(Seq::empty()),
            ..st
        }
    }
}

/// What a `}` line does: it closes the innermost nested block, or else the
/// open site (if any).
pub open spec fn close_step(st: ParseState) -> Result<ParseState, Problem> {
    if st.directives.len() > 1 {
        match closed_block(st.blocks.last(), st.directives.last()) {
            None => Err(problem(ParseIssue::UnknownBlock, st.blocks.last().kind)),
            Some(d) => Ok(
                with_directive(
                    ParseState {
                        directives: st.directives.drop_last(),
                        blocks: st.blocks.drop_last(),
                        ..st
                    },
                    d,
                ),
            ),
        }
    } else {
        match st.current_address {
            None => Ok(st),
            Some(address) => if has_site(st.sites, address) {
                Err(
                    problem(
                        ParseIssue::DuplicateSite,
                        address + "'. Each address may appear only once in the configuration."@,
                    ),
                )
            } else {
                Ok(
                    ParseState {
                        sites: st.sites.push(
                            SiteV { address, directives: st.directives.last(), tls: st.current_tls },
                        ),
                        current_address: None,
                        current_tls: None,
                        directives: seq![Seq::empty()],
                        ..st
                    },
                )
            },
        }
    }
}

/// What a `tls` line at the site level does.
pub open spec fn tls_step(st: ParseState, args: Seq<Seq<char>>, ln: u64) -> Result<ParseState, Problem> {
    if args.len() < 1 {
        Err(problem(ParseIssue::MissingCertPath, decimal(ln as nat)))
    } else if args.len() < 2 {
        Err(problem(ParseIssue::MissingKeyPath, decimal(ln as nat)))
    } else if st.current_tls is Some {
        Err(
            problem(
                ParseIssue::DuplicateTls,
                decimal(ln as nat) + ". Only one tls per site is allowed."@,
            ),
        )
    } else {
        Ok(ParseState { current_tls: Some(TlsV { cert_path: args[0], key_path: args[1] }), ..st })
    }
}

/// What any other line does, given its first word and the rest.
pub open spec fn word_step(st: ParseState, name: Seq<char>, args: Seq<Seq<char>>, ln: u64) -> Result<
    ParseState,
    Problem,
> {
    if st.blocks.len() > 0 && st.blocks.last().kind == "reverse_proxy"@ {
        timeout_line(st, name, args, ln)
    } else if name == "tls"@ && st.blocks.len() == 0 {
        tls_step(st, args, ln)
    } else {
        match directive_of(name, args, ln) {
            Err(e) => Err(e),
            Ok(d) => Ok(with_directive(st, d)),
        }
    }
}

/// What one trimmed line, numbered `ln`, does to the parser state.
pub open spec fn step(st: ParseState, line: Seq<char>, ln: u64) -> Result<ParseState, Problem> {
    if line.len() == 0 || line[0] == '#' {
        Ok(st)
    } else if line.last() == '{' {
        let parts = line_words(line);
        if parts.len() == 0 {
            Ok(st)
        } else {
            Ok(open_step(st, parts))
        }
    } else if line == "}"@ {
        close_step(st)
    } else {
        let parts = line_words(line);
        if parts.len() == 0 {
            Ok(st)
        } else {
            word_step(st, parts[0], parts.drop_first(), ln)
        }
    }
}

/// Index of the `\n` that ends the line starting at `pos`, or the length.
pub open spec fn line_end(s: Seq<char>, pos: int) -> int
    decreases s.len() - pos,
{
    if 0 <= pos < s.len() && s[pos] != '\n' {
        line_end(s, pos + 1)
    } else {
        pos
    }
}

pub proof fn lemma_line_end(s: Seq<char>, pos: int)
    requires
        0 <= pos <= s.len(),
    ensures
        pos <= line_end(s, pos) <= s.len(),
        line_end(s, pos) < s.len() ==> s[line_end(s, pos)] == '\n',
    decreases s.len() - pos,
{
    if pos < s.len() && s[pos] != '\n' {
        lemma_line_end(s, pos + 1);
    }
}

/// The lines from index `pos` on, numbered from `ln`, applied to `st` in
/// order; the first problem stops the run.
pub open spec fn run_lines(s: Seq<char>, pos: int, st: ParseState, ln: u64) -> Result<ParseState, Problem>
    decreases s.len() + 1 - pos,
{
    if pos < 0 || pos >= s.len() {
        Ok(st)
    } else {
        let e = line_end(s, pos);
        proof {
            lemma_line_end(s, pos);
        }
        if e < pos {
            Ok(st)
        } else {
            match step(st, trim(s.subrange(pos, e)), ln) {
                Err(x) => Err(x),
                Ok(next) => run_lines(s, e + 1, next, next_line(ln)),
            }
        }
    }
}

// ---------------------------------------------------------------------------
// Listen sockets
// ---------------------------------------------------------------------------

/// The key under which a TLS site's certificate is selected: its host name
/// in ASCII lowercase.
pub open spec fn sni_key(address: Seq<char>) -> Seq<char> {
    lower_all(hostname_of(address))
}

/// Where a site listens (see [`site_listen_addr`]).
pub open spec fn site_socket(s: SiteV) -> Option<ListenAddr> {
    site_listen_addr(s.address, s.tls is Some)
}

/// The site at index `j` is a TLS site on socket `a` whose host name is
/// that of the site at index `i`.
pub open spec fn sni_clash(sites: Seq<SiteV>, i: int, a: ListenAddr, j: int) -> bool {
    &&& site_socket(sites[j]) == Some(a)
    &&& sites[j].tls is Some
    &&& sni_key(sites[j].address) == sni_key(sites[i].address)
}

/// The first index from `j` on, before `i`, of a site that clashes with
/// site `i` on socket `a` (or `i` when there is none).
pub open spec fn first_clash(sites: Seq<SiteV>, i: int, a: ListenAddr, j: int) -> int
    decreases i - j,
{
    if j >= i {
        i
    } else if sni_clash(sites, i, a, j) {
        j
    } else {
        first_clash(sites, i, a, j + 1)
    }
}

/// What the site at index `i` conflicts with among the sites before it:
/// an address that does not resolve, a socket that mixes TLS and plain
/// HTTP, or a TLS host name already used on its socket (the message names
/// the first site that used it).
pub open spec fn site_issue(sites: Seq<SiteV>, i: int) -> Option<Problem> {
    let address = sites[i].address;
    match site_socket(sites[i]) {
        None => Some(problem(ParseIssue::UnresolvableAddress, address)),
        Some(a) => if exists|j: int|
            0 <= j < i && site_socket(#[trigger] sites[j]) == Some(a) && (
            sites[j].tls is Some) != (sites[i].tls is Some) {
            Some(
                problem(
                    ParseIssue::MixedTls,
                    socket_display(a) + " is not supported. Site '"@ + address + (if sites[i].tls is Some {
                        "' is TLS"@
                    } else {
                        "' is plain HTTP"@
                    }) + " but conflicts with another site on this socket."@,
                ),
            )
        } else if sites[i].tls is Some && exists|j: int|
            0 <= j < i && site_socket(#[trigger] sites[j]) == Some(a)
                && sites[j].tls is Some && sni_key(sites[j].address) == sni_key(address) {
            Some(
                problem(
                    ParseIssue::DuplicateSni,
                    sni_key(address) + "' on listen address "@ + socket_display(a) + " (sites '"@
                        + sites[first_clash(sites, i, a, 0)].address + "' and '"@ + address + "')"@,
                ),
            )
        } else {
            None
        },
    }
}

/// The first conflict among the sites from index `i` on, in order.
pub open spec fn sites_issue_from(sites: Seq<SiteV>, i: int) -> Option<Problem>
    decreases sites.len() - i,
{
    if i < 0 || i >= sites.len() {
        None
    } else {
        match site_issue(sites, i) {
            Some(x) => Some(x),
            None => sites_issue_from(sites, i + 1),
        }
    }
}

/// Sites agree on their listen sockets: every address resolves, no socket
/// has both TLS and plain-HTTP sites, and no two TLS sites on one socket
/// have the same host name (ignoring ASCII case).
pub open spec fn sockets_consistent(sites: Seq<SiteV>) -> bool {
    &&& forall|i: int| 0 <= i < sites.len() ==> site_socket(#[trigger] sites[i]) is Some
    &&& forall|i: int, j: int|
        0 <= i < sites.len() && 0 <= j < sites.len() && site_socket(#[trigger] sites[i])
            == site_socket(#[trigger] sites[j]) ==> (sites[i].tls is Some) == (
        sites[j].tls is Some)
    &&& forall|i: int, j: int|
        0 <= i < sites.len() && 0 <= j < sites.len() && i != j && site_socket(#[trigger] sites[i]) == site_socket(#[trigger] sites[j]) && sites[i].tls is Some ==> sni_key(
            sites[i].address,
        ) != sni_key(sites[j].address)
}

// ---------------------------------------------------------------------------
// The whole text
// ---------------------------------------------------------------------------

/// The configuration that a text describes, or the first problem in it.
pub open spec fn parse_config(s: Seq<char>) -> Result<Seq<SiteV>, Problem> {
    match run_lines(s, 0, initial_state(), 1) {
        Err(x) => Err(x),
        Ok(st) => match sites_issue_from(st.sites, 0) {
            Some(x) => Err(x),
            None => Ok(st.sites),
        },
    }
}

/// The text stops at a duration whose seconds do not fit in 64 bits.
pub open spec fn stops_on_overflow(s: Seq<char>) -> bool {
    parse_config(s) matches Err(p) && p.issue == ParseIssue::DurationOverflow
}

// ---------------------------------------------------------------------------
// Laws
// ---------------------------------------------------------------------------

pub proof fn lemma_issue_from_none(sites: Seq<SiteV>, i: int)
    requires
        0 <= i <= sites.len(),
    ensures
        sites_issue_from(sites, i) is None <==> forall|k: int| i <= k < sites.len() ==> #[trigger] site_issue(sites, k) is None,
    decreases sites.len() - i,
{
    if i < sites.len() {
        lemma_issue_from_none(sites, i + 1);
        if sites_issue_from(sites, i) is None {
            assert forall|k: int| i <= k < sites.len() implies #[trigger] site_issue(sites, k) is None by {
                if k > i {
                }
            }
        }
    }
}

/// The sockets check accepts the sites exactly when they agree on their
/// listen sockets: every address resolves, no socket mixes TLS and plain
/// HTTP, and TLS host names on one socket are distinct.
pub proof fn lemma_sockets_check(sites: Seq<SiteV>)
    ensures
        sites_issue_from(sites, 0) is None <==> sockets_consistent(sites),
{
    lemma_issue_from_none(sites, 0);
    if sites_issue_from(sites, 0) is None {
        assert forall|i: int| 0 <= i < sites.len() implies site_socket(#[trigger] sites[i]) is Some by {
            assert(site_issue(sites, i) is None);
        }
        assert forall|i: int, j: int|
            0 <= i < sites.len() && 0 <= j < sites.len() && site_socket(#[trigger] sites[i])
                == site_socket(#[trigger] sites[j]) implies (sites[i].tls is Some) == (
            sites[j].tls is Some) by {
            assert(site_issue(sites, i) is None);
            assert(site_issue(sites, j) is None);
            if i < j {
                assert(site_socket(sites[i]) == site_socket(sites[j]));
            } else if j < i {
                assert(site_socket(sites[j]) == site_socket(sites[i]));
            }
        }
        assert forall|i: int, j: int|
            0 <= i < sites.len() && 0 <= j < sites.len() && i != j && site_socket(#[trigger] sites[i]) == site_socket(#[trigger] sites[j]) && sites[i].tls is Some implies sni_key(
            sites[i].address,
        ) != sni_key(sites[j].address) by {
            assert(site_issue(sites, i) is None);
            assert(site_issue(sites, j) is None);
            if i < j {
                assert(site_socket(sites[i]) == site_socket(sites[j]));
            } else {
                assert(site_socket(sites[j]) == site_socket(sites[i]));
            }
        }
    } else {
        let k = choose|k: int| 0 <= k < sites.len() && !(#[trigger] site_issue(sites, k) is None);
        if sockets_consistent(sites) {
            assert(site_socket(sites[k]) is Some);
            let a = site_socket(sites[k]).unwrap();
            assert forall|j: int| 0 <= j < k && site_socket(#[trigger] sites[j]) == Some(a)
                implies (sites[j].tls is Some) == (sites[k].tls is Some) by {
            }
            if sites[k].tls is Some {
                assert forall|j: int|
                    0 <= j < k && site_socket(#[trigger] sites[j]) == Some(a)
                        && sites[j].tls is Some implies sni_key(sites[j].address) != sni_key(
                    sites[k].address,
                ) by {
                }
            }
            assert(site_issue(sites, k) is None);
        }
    }
}

/// Closing a site never repeats an address: the sites of every reachable
/// state have distinct addresses.
pub proof fn lemma_step_distinct(st: ParseState, line: Seq<char>, ln: u64)
    requires
        crate::config::models::distinct_addresses(st.sites),
        step(st, line, ln) is Ok,
    ensures
        crate::config::models::distinct_addresses(step(st, line, ln)->Ok_0.sites),
{
    let next = step(st, line, ln)->Ok_0;
    if next.sites != st.sites {
        let address = st.current_address.unwrap();
        assert(!has_site(st.sites, address));
        assert(next.sites == st.sites.push(SiteV { address, directives: st.directives.last(), tls: st.current_tls }));
        assert forall|i: int, j: int|
            0 <= i < next.sites.len() && 0 <= j < next.sites.len() && i != j implies #[trigger] next.sites[i].address
                != #[trigger] next.sites[j].address by {
            if i == st.sites.len() as int {
                assert(st.sites[j].address != address);
            } else if j == st.sites.len() as int {
                assert(st.sites[i].address != address);
            }
        }
    }
}

pub proof fn lemma_run_lines_distinct(s: Seq<char>, pos: int, st: ParseState, ln: u64)
    requires
        crate::config::models::distinct_addresses(st.sites),
        run_lines(s, pos, st, ln) is Ok,
    ensures
        crate::config::models::distinct_addresses(run_lines(s, pos, st, ln)->Ok_0.sites),
    decreases s.len() + 1 - pos,
{
    if 0 <= pos < s.len() {
        let e = line_end(s, pos);
        lemma_line_end(s, pos);
        let line = trim(s.subrange(pos, e));
        lemma_step_distinct(st, line, ln);
        lemma_run_lines_distinct(s, e + 1, step(st, line, ln)->Ok_0, next_line(ln));
    }
}

/// A configuration that parses has distinct site addresses and consistent
/// listen sockets.
pub proof fn lemma_parsed_config(s: Seq<char>)
    requires
        parse_config(s) is Ok,
    ensures
        crate::config::models::distinct_addresses(parse_config(s)->Ok_0),
        sockets_consistent(parse_config(s)->Ok_0),
{
    assert(crate::config::models::distinct_addresses(initial_state().sites));
    lemma_run_lines_distinct(s, 0, initial_state(), 1);
    lemma_sockets_check(run_lines(s, 0, initial_state(), 1)->Ok_0.sites);
}

} // verus!
