//! Header value placeholders (`{header.Name}`, `{env.VAR}`, `{uuid}`) and
//! the client address taken from forwarding headers.

use vstd::prelude::*;
use vstd::utf8::encode_utf8;
use crate::error::ProxyError;
use crate::outside::{is_uuid_text, new_uuid};
use crate::proxy::request::{env_lookup, header_text, EnvV, EnvVars, Headers, HeadersV};
use crate::text::{
    append_chars, chars_of, copy_range, decimal, decimal_string, find_from, find_text,
    lemma_find_from, occurs_at, replace_all, replace_text, string_of, string_of_range, trim,
    trimmed,
};
use crate::config::address::first_index;

verus! {

broadcast use vstd::string::group_string_axioms;

pub open spec fn header_open() -> Seq<char> {
    seq!['{', 'h', 'e', 'a', 'd', 'e', 'r', '.']
}

pub open spec fn env_open() -> Seq<char> {
    seq!['{', 'e', 'n', 'v', '.']
}

pub open spec fn uuid_mark() -> Seq<char> {
    seq!['{', 'u', 'u', 'i', 'd', '}']
}

/// Byte offset in `s` of the character at index `i` (positions in error
/// messages count bytes, as `str::find` does).
pub open spec fn byte_offset(s: Seq<char>, i: int) -> nat {
    encode_utf8(s.take(i)).len()
}

/// What a `{header.Name}` placeholder stands for: the header's text, or
/// nothing when the request has no such header or its value is not text.
pub open spec fn header_look(hs: HeadersV) -> spec_fn(Seq<char>) -> Seq<char> {
    |n: Seq<char>|
        match header_text(hs, n) {
            Some(t) => t,
            None => Seq::<char>::empty(),
        }
}

/// What an `{env.VAR}` placeholder stands for: the variable's value, or
/// nothing when it is not set.
pub open spec fn env_look(e: EnvV) -> spec_fn(Seq<char>) -> Seq<char> {
    |n: Seq<char>|
        match env_lookup(e, n) {
            Some(v) => v,
            None => Seq::<char>::empty(),
        }
}

pub open spec fn header_unclosed_text(p: nat) -> Seq<char> {
    "Unclosed header substitution at position "@ + decimal(p)
}

pub open spec fn env_unclosed_text(p: nat) -> Seq<char> {
    "Unclosed environment variable substitution at position "@ + decimal(p)
}

/// The most rounds of one pass: the `usize` range, which no run that ends
/// in practice reaches.
pub open spec fn max_rounds() -> nat {
    usize::MAX as nat
}

/// Up to `fuel` rounds of: find the first placeholder that starts with
/// `open`, find the first `}` from there, and replace the placeholder by
/// what `look` gives for the text between; the search starts again from the
/// beginning, so text that a replacement brings in is searched too.
/// `Some(Ok(..))` when no placeholder is left, `Some(Err(p))` when a
/// placeholder starting at byte `p` is not closed, `None` when the rounds
/// ran out. (Opaque: `reveal(expand)` unfolds it.)
#[verifier::opaque]
pub open spec fn expand(
    s: Seq<char>,
    open: Seq<char>,
    look: spec_fn(Seq<char>) -> Seq<char>,
    fuel: nat,
) -> Option<Result<Seq<char>, nat>>
    decreases fuel,
{
    if fuel == 0 {
        None
    } else {
        match find_from(s, open, 0) {
            None => Some(Ok(s)),
            Some(start) => match find_from(s, seq!['}'], start) {
                None => Some(Err(byte_offset(s, start))),
                Some(end) => expand(
                    s.take(start) + look(s.subrange(start + open.len(), end)) + s.skip(end + 1),
                    open,
                    look,
                    (fuel - 1) as nat,
                ),
            },
        }
    }
}

/// The error of a pass whose replacements keep bringing in placeholders.
pub open spec fn runaway_text() -> Seq<char> {
    "Placeholder substitution did not end"@
}

/// The value of the template `t`: every `{header.Name}` replaced (searching
/// again from the start after each replacement), then in the result every
/// `{env.VAR}` in the same way, then every `{uuid}` by the one UUID `u`; or
/// the text of the error for an unclosed placeholder (its byte position in
/// the text of that pass), or for a pass that has not ended within
/// [`max_rounds`] replacements.
pub open spec fn substituted(t: Seq<char>, hs: HeadersV, e: EnvV, u: Seq<char>) -> Result<
    Seq<char>,
    Seq<char>,
> {
    match expand(t, header_open(), header_look(hs), max_rounds()) {
        None => Err(runaway_text()),
        Some(Err(p)) => Err(header_unclosed_text(p)),
        Some(Ok(r)) => match expand(r, env_open(), env_look(e), max_rounds()) {
            None => Err(runaway_text()),
            Some(Err(p)) => Err(env_unclosed_text(p)),
            Some(Ok(r2)) => Ok(replace_all(r2, uuid_mark(), u)),
        },
    }
}

/// Whether substitution succeeds, and the error when it does not, do not
/// depend on the UUID.
pub proof fn lemma_substituted_uuid_free(t: Seq<char>, hs: HeadersV, e: EnvV, u1: Seq<char>, u2: Seq<char>)
    ensures
        (substituted(t, hs, e, u1) is Ok) == (substituted(t, hs, e, u2) is Ok),
        substituted(t, hs, e, u1) is Err ==> substituted(t, hs, e, u1) == substituted(t, hs, e, u2),
{
}

/// Text without `{` holds no placeholder of any kind.
proof fn lemma_no_brace_no_find(s: Seq<char>, p: Seq<char>, i: int)
    requires
        0 <= i,
        p.len() > 0,
        p[0] == '{',
        forall|k: int| 0 <= k < s.len() ==> s[k] != '{',
    ensures
        find_from(s, p, i) is None,
    decreases s.len() + 1 - i,
{
    if i + p.len() <= s.len() {
        if occurs_at(s, p, i) {
            assert(s.subrange(i, i + p.len())[0] == s[i]);
        }
        lemma_no_brace_no_find(s, p, i + 1);
    }
}

/// Replacing a pattern that starts with `{` leaves text without `{` as it is.
pub proof fn lemma_replace_absent(s: Seq<char>, p: Seq<char>, r: Seq<char>)
    requires
        p.len() > 0,
        p[0] == '{',
        forall|k: int| 0 <= k < s.len() ==> s[k] != '{',
    ensures
        replace_all(s, p, r) == s,
    decreases s.len(),
{
    if s.len() > 0 {
        assert(!p.is_prefix_of(s)) by {
            if p.is_prefix_of(s) {
                assert(s[0] == p[0]);
            }
        }
        lemma_replace_absent(s.drop_first(), p, r);
        assert(s =~= seq![s[0]] + s.drop_first());
    } else {
        if p.is_prefix_of(s) {
            assert(p.len() <= s.len());
        }
        assert(s =~= Seq::<char>::empty());
    }
}

/// A header value without `{` holds no placeholder: substitution gives it
/// back unchanged, whatever the headers, environment and UUID.
pub proof fn lemma_plain_value_unchanged(t: Seq<char>, hs: HeadersV, e: EnvV, u: Seq<char>)
    requires
        forall|k: int| 0 <= k < t.len() ==> t[k] != '{',
    ensures
        substituted(t, hs, e, u) == Ok::<Seq<char>, Seq<char>>(t),
{
    reveal(expand);
    lemma_no_brace_no_find(t, header_open(), 0);
    lemma_no_brace_no_find(t, env_open(), 0);
    assert(expand(t, header_open(), header_look(hs), max_rounds()) == Some(Ok::<Seq<char>, nat>(t)));
    assert(expand(t, env_open(), env_look(e), max_rounds()) == Some(Ok::<Seq<char>, nat>(t)));
    lemma_replace_absent(t, uuid_mark(), u);
}

/// One round of a pass (see [`expand`]): the first placeholder, at `start`,
/// closed at `end`, replaced by what `look` gives for its name.
pub proof fn lemma_expand_round(
    s: Seq<char>,
    open: Seq<char>,
    look: spec_fn(Seq<char>) -> Seq<char>,
    fuel: nat,
    start: int,
    end: int,
)
    requires
        fuel > 0,
        find_from(s, open, 0) == Some(start),
        find_from(s, seq!['}'], start) == Some(end),
    ensures
        expand(s, open, look, fuel) == expand(
            s.take(start) + look(s.subrange(start + open.len(), end)) + s.skip(end + 1),
            open,
            look,
            (fuel - 1) as nat,
        ),
{
    reveal(expand);
}

/// The closing `}` of a placeholder comes after its opening text.
proof fn lemma_close_after_open(s: Seq<char>, open: Seq<char>, start: int, end: int)
    requires
        occurs_at(s, open, start),
        forall|k: int| 0 <= k < open.len() ==> open[k] != '}',
        find_from(s, seq!['}'], start) == Some(end),
    ensures
        start + open.len() <= end < s.len(),
        s[end] == '}',
{
    lemma_find_from(s, seq!['}'], start);
    assert(occurs_at(s, seq!['}'], end));
    assert(s.subrange(end, end + 1)[0] == s[end]);
    if end < start + open.len() {
        assert(s.subrange(start, start + open.len())[end - start] == s[end]);
    }
}

fn byte_offset_of(v: &[char], i: usize) -> (n: usize)
    requires
        i <= v@.len(),
    ensures
        n == byte_offset(v@, i as int),
{
    let p = string_of_range(v, 0, i);
    assert(v@.subrange(0, i as int) =~= v@.take(i as int));
    p.as_str().as_bytes().len()
}

fn unclosed_error(header: bool, p: usize) -> (e: ProxyError)
    ensures
        header ==> (e matches ProxyError::Directive(m) && m@ == header_unclosed_text(p as nat)),
        !header ==> (e matches ProxyError::Directive(m) && m@ == env_unclosed_text(p as nat)),
{
    let mut m = if header {
        "Unclosed header substitution at position ".to_owned()
    } else {
        "Unclosed environment variable substitution at position ".to_owned()
    };
    let d = decimal_string(p as u64);
    m.append(d.as_str());
    ProxyError::Directive(m)
}

/// `v[..start] + w + v[end + 1..]`.
fn splice(v: &[char], start: usize, end: usize, w: &[char]) -> (r: Vec<char>)
    requires
        start <= end < v@.len(),
    ensures
        r@ == v@.take(start as int) + w@ + v@.skip(end + 1),
{
    let n = v.len();
    let mut r = copy_range(v, 0, start);
    append_chars(&mut r, w);
    let tail = copy_range(v, end + 1, n);
    append_chars(&mut r, tail.as_slice());
    assert(v@.subrange(0, start as int) =~= v@.take(start as int));
    assert(v@.subrange(end + 1, v@.len() as int) =~= v@.skip(end + 1));
    r
}

/// What one pass gives: the text, or the byte position of an unclosed
/// placeholder, or nothing when the rounds ran out.
pub open spec fn pass_view(r: Result<Vec<char>, Option<usize>>) -> Option<Result<Seq<char>, nat>> {
    match r {
        Ok(v) => Some(Ok(v@)),
        Err(Some(p)) => Some(Err(p as nat)),
        Err(None) => None,
    }
}

/// One pass over `t`: the header placeholders when `is_header`, else the
/// environment placeholders (see [`expand`]).
fn run_pass(t: &[char], is_header: bool, headers: &Headers, env: &EnvVars) -> (r: Result<
    Vec<char>,
    Option<usize>,
>)
    ensures
        pass_view(r) == (if is_header {
            expand(t@, header_open(), header_look(headers@), max_rounds())
        } else {
            expand(t@, env_open(), env_look(env@), max_rounds())
        }),
{
    let ghost look = if is_header {
        header_look(headers@)
    } else {
        env_look(env@)
    };
    let open: Vec<char> = if is_header {
        vec!['{', 'h', 'e', 'a', 'd', 'e', 'r', '.']
    } else {
        vec!['{', 'e', 'n', 'v', '.']
    };
    let close: Vec<char> = vec!['}'];
    assert(open@ == (if is_header { header_open() } else { env_open() }));
    assert(close@ == seq!['}']);
    let ghost goal = expand(t@, open@, look, max_rounds());
    proof {
        reveal(expand);
    }
    let mut fuel: usize = usize::MAX;
    let mut cur = copy_range(t, 0, t.len());
    assert(t@.subrange(0, t@.len() as int) =~= t@);
    loop
        invariant
            open@ == (if is_header { header_open() } else { env_open() }),
            close@ == seq!['}'],
            look == (if is_header { header_look(headers@) } else { env_look(env@) }),
            goal == (if is_header {
                expand(t@, header_open(), header_look(headers@), max_rounds())
            } else {
                expand(t@, env_open(), env_look(env@), max_rounds())
            }),
            expand(cur@, open@, look, fuel as nat) == goal,
        decreases fuel,
    {
        proof {
            reveal(expand);
        }
        if fuel == 0 {
            return Err(None);
        }
        match find_text(cur.as_slice(), open.as_slice(), 0) {
            None => {
                return Ok(cur);
            },
            Some(start) => {
                proof {
                    lemma_find_from(cur@, open@, 0);
                }
                match find_text(cur.as_slice(), close.as_slice(), start) {
                    None => {
                        let p = byte_offset_of(cur.as_slice(), start);
                        return Err(Some(p));
                    },
                    Some(end) => {
                        proof {
                            lemma_close_after_open(cur@, open@, start as int, end as int);
                        }
                        let value: Vec<char> = if is_header {
                            let name = string_of_range(cur.as_slice(), start + 8, end);
                            match headers.get_text(name.as_str()) {
                                Some(s) => chars_of(s.as_str()),
                                None => Vec::new(),
                            }
                        } else {
                            let name = copy_range(cur.as_slice(), start + 5, end);
                            match env.get(name.as_slice()) {
                                Some(s) => chars_of(s.as_str()),
                                None => Vec::new(),
                            }
                        };
                        assert(value@ == look(cur@.subrange(start + open@.len(), end as int)));
                        let next = splice(cur.as_slice(), start, end, value.as_slice());
                        cur = next;
                        fuel = fuel - 1;
                    },
                }
            },
        }
    }
}

fn runaway_error() -> (e: ProxyError)
    ensures
        e matches ProxyError::Directive(m) && m@ == runaway_text(),
{
    ProxyError::Directive("Placeholder substitution did not end".to_owned())
}

/// Both passes: header placeholders, then environment placeholders.
fn expand_placeholders(value: &str, headers: &Headers, env: &EnvVars) -> (r: Result<
    Vec<char>,
    ProxyError,
>)
    ensures
        match r {
            Ok(v) => expand(value@, header_open(), header_look(headers@), max_rounds()) matches Some(
                Ok(r1),
            ) && expand(r1, env_open(), env_look(env@), max_rounds()) == Some(
                Ok::<Seq<char>, nat>(v@),
            ),
            Err(e) => e matches ProxyError::Directive(m) && substituted(
                value@,
                headers@,
                env@,
                Seq::empty(),
            ) == Err::<Seq<char>, Seq<char>>(m@),
        },
{
    let t = chars_of(value);
    match run_pass(t.as_slice(), true, headers, env) {
        Err(None) => Err(runaway_error()),
        Err(Some(p)) => Err(unclosed_error(true, p)),
        Ok(r1) => match run_pass(r1.as_slice(), false, headers, env) {
            Err(None) => Err(runaway_error()),
            Err(Some(p)) => Err(unclosed_error(false, p)),
            Ok(r2) => Ok(r2),
        },
    }
}

/// The template `value` with its placeholders replaced, `{uuid}` by
/// `uuid`: what [`process_header_substitution`] gives once it has drawn
/// `uuid` (see [`substituted`]).
pub fn substitute_with(value: &str, headers: &Headers, env: &EnvVars, uuid: &str) -> (r: Result<
    String,
    ProxyError,
>)
    ensures
        match substituted(value@, headers@, env@, uuid@) {
            Ok(s) => r matches Ok(x) && x@ == s,
            Err(m) => r matches Err(ProxyError::Directive(x)) && x@ == m,
        },
{
    match expand_placeholders(value, headers, env) {
        Err(e) => Err(e),
        Ok(r2) => {
            let mark: Vec<char> = vec!['{', 'u', 'u', 'i', 'd', '}'];
            assert(mark@ == uuid_mark());
            let u = chars_of(uuid);
            let out = replace_text(r2.as_slice(), mark.as_slice(), u.as_slice());
            Ok(string_of(out.as_slice()))
        },
    }
}

/// Replaces the placeholders of a header value template: each
/// `{header.Name}` by the request's header `Name` (nothing when it is
/// missing or not text), searching again from the start after each
/// replacement; then each `{env.VAR}` by the environment variable (nothing
/// when unset) in the same way; then each `{uuid}` by one freshly drawn
/// random UUID. An unclosed placeholder is an error; so is a pass that has
/// not ended after [`max_rounds`] replacements. The UUID is random, so the
/// result is pinned down up to it.
pub fn process_header_substitution(value: &str, headers: &Headers, env: &EnvVars) -> (r: Result<
    String,
    ProxyError,
>)
    ensures
        match r {
            Ok(s) => exists|u: Seq<char>|
                is_uuid_text(u) && #[trigger] substituted(value@, headers@, env@, u) == Ok::<
                    Seq<char>,
                    Seq<char>,
                >(s@),
            Err(e) => e matches ProxyError::Directive(m) && substituted(
                value@,
                headers@,
                env@,
                Seq::empty(),
            ) == Err::<Seq<char>, Seq<char>>(m@),
        },
        (r is Ok) == (substituted(value@, headers@, env@, Seq::empty()) is Ok),
{
    match expand_placeholders(value, headers, env) {
        Err(e) => Err(e),
        Ok(r2) => {
            let uuid = new_uuid();
            let mark: Vec<char> = vec!['{', 'u', 'u', 'i', 'd', '}'];
            assert(mark@ == uuid_mark());
            let u = chars_of(uuid.as_str());
            let out = replace_text(r2.as_slice(), mark.as_slice(), u.as_slice());
            let s = string_of(out.as_slice());
            assert(substituted(value@, headers@, env@, uuid@) == Ok::<Seq<char>, Seq<char>>(s@));
            Ok(s)
        },
    }
}

/// The client address that forwarding headers name: the first entry of
/// `X-Forwarded-For`, trimmed, when that header is there and is text;
/// otherwise `X-Real-IP` when it is there and is text.
pub open spec fn remote_ip_of(hs: HeadersV) -> Option<Seq<char>> {
    match header_text(hs, "X-Forwarded-For"@) {
        Some(x) => Some(
            trim(
                match first_index(x, ',') {
                    Some(k) => x.take(k),
                    None => x,
                },
            ),
        ),
        None => header_text(hs, "X-Real-IP"@),
    }
}

/// Extracts the client address from `X-Forwarded-For` (its first
/// entry) or `X-Real-IP`.
pub fn extract_remote_ip(headers: &Headers) -> (r: Option<String>)
    ensures
        match remote_ip_of(headers@) {
            Some(t) => r matches Some(s) && s@ == t,
            None => r is None,
        },
{
    match headers.get_text("X-Forwarded-For") {
        Some(x) => {
            let v = chars_of(x.as_str());
            let comma: Vec<char> = vec![','];
            assert(comma@ == seq![',']);
            let first = match find_text(v.as_slice(), comma.as_slice(), 0) {
                Some(k) => {
                    proof {
                        lemma_find_from(v@, comma@, 0);
                    }
                    let f = copy_range(v.as_slice(), 0, k);
                    assert(v@.subrange(0, k as int) =~= v@.take(k as int));
                    f
                },
                None => v,
            };
            let t = trimmed(first.as_slice());
            Some(string_of(t.as_slice()))
        },
        None => headers.get_text("X-Real-IP"),
    }
}

} // verus!
