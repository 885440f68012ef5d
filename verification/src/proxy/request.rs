//! The parts of an incoming request that routing reads and changes: its
//! method and its header map, plus the process environment that header
//! placeholders may read.
//!
//! Headers are modelled as `http::HeaderMap` keeps them: a list of
//! (name, value) entries in iteration order, where names are normalized by
//! `HeaderName` (see [`header_name_norm`]) and values are raw bytes.

use vstd::prelude::*;
use vstd::utf8::encode_utf8;
use crate::outside::{header_name_norm, normalize_header_name};
use crate::text::{chars_of, push_char, same_chars};

verus! {

/// The view of a header map: (normalized name, value bytes) in iteration
/// order.
pub type HeadersV = Seq<(Seq<char>, Seq<u8>)>;

/// A byte that `HeaderValue` accepts: a tab, or anything from the space on
/// except DEL.
pub open spec fn value_byte_ok(b: u8) -> bool {
    b == 9 || (b >= 32 && b != 127)
}

pub open spec fn value_ok(v: Seq<u8>) -> bool {
    forall|i: int| 0 <= i < v.len() ==> value_byte_ok(#[trigger] v[i])
}

/// A byte that `HeaderValue::to_str` lets through: a tab or visible ASCII.
pub open spec fn text_byte_ok(b: u8) -> bool {
    b == 9 || (32 <= b && b < 127)
}

/// `HeaderValue::to_str`: the value as text when every byte is a tab or
/// visible ASCII, else nothing.
pub open spec fn value_text(v: Seq<u8>) -> Option<Seq<char>> {
    if forall|i: int| 0 <= i < v.len() ==> text_byte_ok(#[trigger] v[i]) {
        Some(Seq::new(v.len(), |i: int| v[i] as char))
    } else {
        None
    }
}

/// Index of the first entry named `n`.
pub open spec fn first_named(h: HeadersV, n: Seq<char>) -> Option<int> {
    if exists|i: int| 0 <= i < h.len() && #[trigger] h[i].0 == n
        && forall|j: int| 0 <= j < i ==> h[j].0 != n {
        Some(choose|i: int| 0 <= i < h.len() && #[trigger] h[i].0 == n
            && forall|j: int| 0 <= j < i ==> h[j].0 != n)
    } else {
        None
    }
}

/// The first value stored under the normalized name `n`.
pub open spec fn lookup(h: HeadersV, n: Seq<char>) -> Option<Seq<u8>> {
    match first_named(h, n) {
        Some(i) => Some(h[i].1),
        None => None,
    }
}

/// `HeaderMap::get` with a name given as text: nothing when the text is not
/// a valid header name.
pub open spec fn header_get(h: HeadersV, name: Seq<char>) -> Option<Seq<u8>> {
    match header_name_norm(name) {
        Some(n) => lookup(h, n),
        None => None,
    }
}

/// `headers.get(name).and_then(|v| v.to_str().ok())`.
pub open spec fn header_text(h: HeadersV, name: Seq<char>) -> Option<Seq<char>> {
    match header_get(h, name) {
        Some(v) => value_text(v),
        None => None,
    }
}

/// The entries not named `n`, in order (`HeaderMap::remove`).
pub open spec fn without(h: HeadersV, n: Seq<char>) -> HeadersV
    decreases h.len(),
{
    if h.len() == 0 {
        h
    } else if h.last().0 == n {
        without(h.drop_last(), n)
    } else {
        without(h.drop_last(), n).push(h.last())
    }
}

/// `HeaderMap::insert`: the first entry named `n` takes the value `v` in
/// place and the other entries of that name go; with no such entry, the
/// pair is appended.
pub open spec fn with_set(h: HeadersV, n: Seq<char>, v: Seq<u8>) -> HeadersV {
    match first_named(h, n) {
        Some(i) => h.take(i).push((n, v)) + without(h.skip(i + 1), n),
        None => h.push((n, v)),
    }
}

pub open spec fn values_ok(h: HeadersV) -> bool {
    forall|i: int| 0 <= i < h.len() ==> value_ok(#[trigger] h[i].1)
}

/// One header: its normalized name and its value bytes.
pub struct HeaderEntry {
    name: String,
    value: Vec<u8>,
}

/// The header map of a request.
pub struct Headers {
    entries: Vec<HeaderEntry>,
}

pub closed spec fn entries_view(v: Seq<HeaderEntry>) -> HeadersV {
    Seq::new(v.len(), |i: int| (v[i].name@, v[i].value@))
}

impl View for Headers {
    type V = HeadersV;

    closed spec fn view(&self) -> HeadersV {
        entries_view(self.entries@)
    }
}

proof fn lemma_entries_view(v: Seq<HeaderEntry>)
    ensures
        entries_view(v).len() == v.len(),
        forall|k: int| 0 <= k < v.len() ==> #[trigger] entries_view(v)[k] == (v[k].name@, v[k].value@),
{
}

proof fn lemma_entries_push(v: Seq<HeaderEntry>, e: HeaderEntry)
    ensures
        entries_view(v.push(e)) == entries_view(v).push((e.name@, e.value@)),
{
    assert(entries_view(v.push(e)) =~= entries_view(v).push((e.name@, e.value@)));
}

pub proof fn lemma_first_named(h: HeadersV, n: Seq<char>, i: int)
    requires
        0 <= i < h.len(),
        h[i].0 == n,
        forall|j: int| 0 <= j < i ==> h[j].0 != n,
    ensures
        first_named(h, n) == Some(i),
{
    let k = choose|k: int| 0 <= k < h.len() && #[trigger] h[k].0 == n
        && forall|j: int| 0 <= j < k ==> h[j].0 != n;
    assert(0 <= k < h.len() && h[k].0 == n && forall|j: int| 0 <= j < k ==> h[j].0 != n);
    if k < i {
        assert(h[k].0 != n);
    }
    if i < k {
        assert(h[i].0 != n);
    }
}

pub proof fn lemma_first_named_none(h: HeadersV, n: Seq<char>)
    requires
        forall|j: int| 0 <= j < h.len() ==> h[j].0 != n,
    ensures
        first_named(h, n) is None,
{
}

pub proof fn lemma_without_values_ok(h: HeadersV, n: Seq<char>)
    requires
        values_ok(h),
    ensures
        values_ok(without(h, n)),
        forall|j: int| 0 <= j < without(h, n).len() ==> (#[trigger] without(h, n)[j]).0 != n,
    decreases h.len(),
{
    if h.len() > 0 {
        let p = h.drop_last();
        assert(values_ok(p)) by {
            assert forall|i: int| 0 <= i < p.len() implies value_ok(#[trigger] p[i].1) by {
                assert(p[i] == h[i]);
            }
        }
        lemma_without_values_ok(p, n);
        assert(value_ok(h[h.len() - 1].1));
    }
}

proof fn lemma_without_names(h: HeadersV, n: Seq<char>)
    ensures
        forall|j: int| 0 <= j < without(h, n).len() ==> (#[trigger] without(h, n)[j]).0 != n,
    decreases h.len(),
{
    if h.len() > 0 {
        let p = h.drop_last();
        lemma_without_names(p, n);
        let w = without(h, n);
        assert forall|j: int| 0 <= j < w.len() implies (#[trigger] w[j]).0 != n by {
            if h.last().0 != n && j == w.len() - 1 {
                assert(w[j] == h.last());
            } else {
                assert(w[j] == without(p, n)[j]);
            }
        }
    }
}

/// The first entry named `m` of `without(h, n)`, for another name `m`, is
/// the first entry named `m` of `h`.
proof fn lemma_without_other(h: HeadersV, n: Seq<char>, m: Seq<char>)
    requires
        m != n,
    ensures
        lookup(without(h, n), m) == lookup(h, m),
    decreases h.len(),
{
    if h.len() > 0 {
        let p = h.drop_last();
        lemma_without_other(p, n, m);
        let w = without(h, n);
        let wp = without(p, n);
        match first_named(p, m) {
            Some(i) => {
                assert(0 <= i < p.len() && p[i].0 == m && forall|j: int| 0 <= j < i ==> p[j].0 != m);
                assert forall|j: int| 0 <= j < i implies h[j].0 != m by {
                    assert(h[j] == p[j]);
                }
                assert(h[i] == p[i]);
                lemma_first_named(h, m, i);
                assert(lookup(wp, m) == Some(p[i].1));
                let k = first_named(wp, m)->0;
                assert(0 <= k < wp.len() && wp[k].0 == m && forall|j: int| 0 <= j < k ==> wp[j].0 != m);
                assert(w[k] == wp[k]);
                assert forall|j: int| 0 <= j < k implies w[j].0 != m by {
                    assert(w[j] == wp[j]);
                }
                lemma_first_named(w, m, k);
            },
            None => {
                assert forall|j: int| 0 <= j < p.len() implies p[j].0 != m by {
                    if p[j].0 == m {
                        lemma_first_named_exists(p, m, j);
                    }
                }
                assert(lookup(wp, m) is None);
                assert forall|j: int| 0 <= j < wp.len() implies wp[j].0 != m by {
                    if wp[j].0 == m {
                        lemma_first_named_exists(wp, m, j);
                    }
                }
                if h.last().0 == m {
                    assert(w == wp.push(h.last()));
                    assert forall|j: int| 0 <= j < h.len() - 1 implies h[j].0 != m by {
                        assert(h[j] == p[j]);
                    }
                    lemma_first_named(h, m, h.len() - 1);
                    lemma_first_named(w, m, w.len() - 1);
                } else {
                    assert forall|j: int| 0 <= j < h.len() implies h[j].0 != m by {
                        if j < h.len() - 1 {
                            assert(h[j] == p[j]);
                        }
                    }
                    lemma_first_named_none(h, m);
                    assert forall|j: int| 0 <= j < w.len() implies w[j].0 != m by {
                        if h.last().0 != n && j == w.len() - 1 {
                        } else {
                            assert(w[j] == wp[j]);
                        }
                    }
                    lemma_first_named_none(w, m);
                }
            },
        }
    }
}

/// Some entry is named `n`, so there is a first one.
proof fn lemma_first_named_exists(h: HeadersV, n: Seq<char>, i: int)
    requires
        0 <= i < h.len(),
        h[i].0 == n,
    ensures
        first_named(h, n) is Some,
    decreases i,
{
    if exists|j: int| 0 <= j < i && h[j].0 == n {
        let j = choose|j: int| 0 <= j < i && h[j].0 == n;
        lemma_first_named_exists(h, n, j);
    } else {
        lemma_first_named(h, n, i);
    }
}

/// A header map gives back what was just set under a name.
pub proof fn lemma_set_then_get(h: HeadersV, n: Seq<char>, v: Seq<u8>)
    ensures
        lookup(with_set(h, n, v), n) == Some(v),
{
    let w = with_set(h, n, v);
    match first_named(h, n) {
        Some(i) => {
            assert(0 <= i < h.len() && h[i].0 == n && forall|j: int| 0 <= j < i ==> h[j].0 != n);
            let t = without(h.skip(i + 1), n);
            assert(w == h.take(i).push((n, v)) + t);
            assert(w[i] == (n, v));
            assert forall|j: int| 0 <= j < i implies w[j].0 != n by {
                assert(w[j] == h[j]);
            }
            lemma_first_named(w, n, i);
        },
        None => {
            assert forall|j: int| 0 <= j < h.len() implies h[j].0 != n by {
                if h[j].0 == n {
                    lemma_first_named_exists(h, n, j);
                }
            }
            assert(w == h.push((n, v)));
            assert forall|j: int| 0 <= j < h.len() implies w[j].0 != n by {
                assert(w[j] == h[j]);
            }
            lemma_first_named(w, n, h.len() as int);
        },
    }
}

/// Setting a name keeps what the map holds under other names.
pub proof fn lemma_set_keeps_others(h: HeadersV, n: Seq<char>, v: Seq<u8>, m: Seq<char>)
    requires
        m != n,
    ensures
        lookup(with_set(h, n, v), m) == lookup(h, m),
{
    let w = with_set(h, n, v);
    match first_named(h, n) {
        Some(i) => {
            assert(0 <= i < h.len() && h[i].0 == n);
            let t = without(h.skip(i + 1), n);
            assert(w == h.take(i).push((n, v)) + t);
            assert(w[i].0 == n);
            lemma_without_other(h.skip(i + 1), n, m);
            lemma_lookup_split(h, i, m, n);
            lemma_lookup_split(w, i, m, n);
            assert(w.skip(i + 1) =~= t);
            assert(w.take(i) =~= h.take(i));
            assert((exists|j: int| 0 <= j < i && h[j].0 == m) == (exists|j: int| 0 <= j < i && w[j].0 == m)) by {
                assert forall|j: int| 0 <= j < i implies h[j] == w[j] by {
                    assert(w[j] == h.take(i)[j]);
                }
            }
        },
        None => {
            assert(w == h.push((n, v)));
            match first_named(h, m) {
                Some(k) => {
                    assert(0 <= k < h.len() && h[k].0 == m && forall|j: int| 0 <= j < k ==> h[j].0 != m);
                    assert(w[k] == h[k]);
                    assert forall|j: int| 0 <= j < k implies w[j].0 != m by {
                        assert(w[j] == h[j]);
                    }
                    lemma_first_named(w, m, k);
                },
                None => {
                    assert forall|j: int| 0 <= j < w.len() implies w[j].0 != m by {
                        if j < h.len() {
                            assert(w[j] == h[j]);
                            if h[j].0 == m {
                                lemma_first_named_exists(h, m, j);
                            }
                        }
                    }
                    lemma_first_named_none(w, m);
                },
            }
        },
    }
}

/// Looking a name `m` up in a map whose entry at `i` is named `n != m`: the
/// first `m` before `i`, else the first `m` after it.
proof fn lemma_lookup_split(h: HeadersV, i: int, m: Seq<char>, n: Seq<char>)
    requires
        0 <= i < h.len(),
        h[i].0 == n,
        m != n,
    ensures
        lookup(h, m) == if exists|j: int| 0 <= j < i && h[j].0 == m {
            lookup(h.take(i), m)
        } else {
            lookup(h.skip(i + 1), m)
        },
{
    if exists|j: int| 0 <= j < i && h[j].0 == m {
        let j0 = choose|j: int| 0 <= j < i && h[j].0 == m;
        lemma_first_named_exists(h.take(i), m, j0);
        let k = first_named(h.take(i), m)->0;
        assert(0 <= k < i && h.take(i)[k].0 == m && forall|j: int| 0 <= j < k ==> h.take(i)[j].0 != m);
        assert forall|j: int| 0 <= j < k implies h[j].0 != m by {
            assert(h.take(i)[j] == h[j]);
        }
        lemma_first_named(h, m, k);
    } else {
        let s = h.skip(i + 1);
        match first_named(s, m) {
            Some(k) => {
                assert(0 <= k < s.len() && s[k].0 == m && forall|j: int| 0 <= j < k ==> s[j].0 != m);
                assert(h[i + 1 + k] == s[k]);
                assert forall|j: int| 0 <= j < i + 1 + k implies h[j].0 != m by {
                    if j > i {
                        assert(h[j] == s[j - i - 1]);
                    }
                }
                lemma_first_named(h, m, i + 1 + k);
            },
            None => {
                assert forall|j: int| 0 <= j < h.len() implies h[j].0 != m by {
                    if j > i {
                        assert(h[j] == s[j - i - 1]);
                        if s[j - i - 1].0 == m {
                            lemma_first_named_exists(s, m, j - i - 1);
                        }
                    }
                }
                lemma_first_named_none(h, m);
            },
        }
    }
}

/// After a name is removed, the map holds nothing under it, and keeps what
/// it holds under other names.
pub proof fn lemma_remove_then_get(h: HeadersV, n: Seq<char>, m: Seq<char>)
    ensures
        lookup(without(h, n), n) is None,
        m != n ==> lookup(without(h, n), m) == lookup(h, m),
{
    lemma_without_names(h, n);
    lemma_first_named_none(without(h, n), n);
    if m != n {
        lemma_without_other(h, n, m);
    }
}

/// Whether every byte of `v` is one that `HeaderValue` accepts
/// (`HeaderValue::from_bytes` succeeds).
pub fn value_bytes_ok(v: &[u8]) -> (b: bool)
    ensures
        b == value_ok(v@),
{
    let mut i: usize = 0;
    while i < v.len()
        invariant
            i <= v@.len(),
            forall|k: int| 0 <= k < i ==> value_byte_ok(#[trigger] v@[k]),
        decreases v@.len() - i,
    {
        let c = v[i];
        if !(c == 9 || (c >= 32 && c != 127)) {
            assert(!value_byte_ok(v@[i as int]));
            return false;
        }
        i = i + 1;
    }
    true
}

/// `HeaderValue::to_str`.
pub fn bytes_text(v: &[u8]) -> (r: Option<String>)
    ensures
        match value_text(v@) {
            Some(t) => r matches Some(s) && s@ == t,
            None => r is None,
        },
{
    let mut s = String::new();
    let mut i: usize = 0;
    while i < v.len()
        invariant
            i <= v@.len(),
            forall|k: int| 0 <= k < i ==> text_byte_ok(#[trigger] v@[k]),
            s@ == Seq::new(i as nat, |k: int| v@[k] as char),
        decreases v@.len() - i,
    {
        let c = v[i];
        if !(c == 9 || (32 <= c && c < 127)) {
            assert(!text_byte_ok(v@[i as int]));
            return None;
        }
        push_char(&mut s, c as char);
        i = i + 1;
        assert(s@ =~= Seq::new(i as nat, |k: int| v@[k] as char));
    }
    assert(s@ =~= Seq::new(v@.len(), |k: int| v@[k] as char));
    Some(s)
}

/// The UTF-8 bytes of `s`.
pub fn utf8_bytes(s: &str) -> (v: Vec<u8>)
    ensures
        v@ == encode_utf8(s@),
{
    let b = s.as_bytes();
    let mut v: Vec<u8> = Vec::new();
    let mut i: usize = 0;
    while i < b.len()
        invariant
            i <= b@.len(),
            b@ == encode_utf8(s@),
            v@ == b@.take(i as int),
        decreases b@.len() - i,
    {
        v.push(b[i]);
        i = i + 1;
        assert(v@ =~= b@.take(i as int));
    }
    assert(b@.take(b@.len() as int) =~= b@);
    v
}

impl Headers {
    /// Every value is one that `HeaderValue` accepts.
    pub open spec fn wf(&self) -> bool {
        values_ok(self@)
    }

    /// An empty header map.
    pub fn new() -> (h: Headers)
        ensures
            h@ == Seq::<(Seq<char>, Seq<u8>)>::empty(),
            h.wf(),
    {
        let h = Headers { entries: Vec::new() };
        assert(h@ =~= Seq::<(Seq<char>, Seq<u8>)>::empty());
        h
    }

    /// Number of entries.
    pub fn len(&self) -> (n: usize)
        ensures
            n == self@.len(),
    {
        self.entries.len()
    }

    /// Normalized name of the entry at `i`.
    pub fn name_at(&self, i: usize) -> (s: String)
        requires
            i < self@.len(),
        ensures
            s@ == self@[i as int].0,
    {
        self.entries[i].name.clone()
    }

    /// Value bytes of the entry at `i`.
    pub fn value_at(&self, i: usize) -> (v: Vec<u8>)
        requires
            i < self@.len(),
        ensures
            v@ == self@[i as int].1,
    {
        vstd::slice::slice_to_vec(self.entries[i].value.as_slice())
    }

    fn find_norm(&self, n: &[char]) -> (r: Option<usize>)
        ensures
            r matches Some(k) ==> k < self@.len() && self@[k as int].0 == n@,
            match first_named(self@, n@) {
                Some(i) => r == Some(i as usize),
                None => r is None,
            },
    {
        let mut i: usize = 0;
        while i < self.entries.len()
            invariant
                i <= self@.len(),
                self@.len() == self.entries@.len(),
                forall|j: int| 0 <= j < i ==> self@[j].0 != n@,
            decreases self.entries@.len() - i,
        {
            let a = chars_of(self.entries[i].name.as_str());
            if same_chars(a.as_slice(), n) {
                proof {
                    lemma_first_named(self@, n@, i as int);
                }
                return Some(i);
            }
            i = i + 1;
        }
        proof {
            lemma_first_named_none(self@, n@);
        }
        None
    }

    /// `HeaderMap::append`: adds an entry under `name` (normalized) with
    /// the value bytes `value`. Nothing changes, and `false` comes back,
    /// when the name is not a valid header name or the value holds a byte
    /// that `HeaderValue` refuses.
    pub fn append(&mut self, name: &str, value: &[u8]) -> (ok: bool)
        requires
            old(self).wf(),
        ensures
            final(self).wf(),
            ok == (header_name_norm(name@) is Some && value_ok(value@)),
            ok ==> final(self)@ == old(self)@.push((header_name_norm(name@)->0, value@)),
            !ok ==> final(self)@ == old(self)@,
    {
        match normalize_header_name(name) {
            Some(n) => {
                if value_bytes_ok(value) {
                    let ghost nv = n@;
                    self.entries.push(HeaderEntry { name: n, value: vstd::slice::slice_to_vec(value) });
                    assert(self@ =~= old(self)@.push((nv, value@)));
                    true
                } else {
                    false
                }
            },
            None => false,
        }
    }

    /// `HeaderMap::get`: the first value stored under `name`.
    pub fn get(&self, name: &str) -> (r: Option<Vec<u8>>)
        ensures
            match header_get(self@, name@) {
                Some(v) => r matches Some(w) && w@ == v,
                None => r is None,
            },
    {
        match normalize_header_name(name) {
            Some(n) => {
                let nc = chars_of(n.as_str());
                match self.find_norm(nc.as_slice()) {
                    Some(i) => {
                        proof {
                            lemma_entries_view(self.entries@);
                        }
                        Some(vstd::slice::slice_to_vec(self.entries[i].value.as_slice()))
                    },
                    None => None,
                }
            },
            None => None,
        }
    }

    /// `headers.get(name).and_then(|v| v.to_str().ok())`.
    pub fn get_text(&self, name: &str) -> (r: Option<String>)
        ensures
            match header_text(self@, name@) {
                Some(t) => r matches Some(s) && s@ == t,
                None => r is None,
            },
    {
        match self.get(name) {
            Some(v) => bytes_text(v.as_slice()),
            None => None,
        }
    }

    /// Whether an entry is stored under `name`.
    pub fn contains(&self, name: &str) -> (b: bool)
        ensures
            b == (header_get(self@, name@) is Some),
    {
        self.get(name).is_some()
    }

    fn remove_norm(&mut self, n: &[char])
        requires
            old(self).wf(),
        ensures
            final(self).wf(),
            final(self)@ == without(old(self)@, n@),
    {
        let ghost h0 = self@;
        let mut kept: Vec<HeaderEntry> = Vec::new();
        let mut rest: Vec<HeaderEntry> = Vec::new();
        std::mem::swap(&mut rest, &mut self.entries);
        let ghost all = rest@;
        assert(entries_view(all) == h0);
        let mut i: usize = 0;
        while i < rest.len()
            invariant
                all == rest@,
                entries_view(all) == h0,
                i <= all.len(),
                entries_view(kept@) == without(h0.take(i as int), n@),
            decreases all.len() - i,
        {
            proof {
                assert(h0.take(i + 1).drop_last() =~= h0.take(i as int));
                assert(h0.take(i + 1).last() == h0[i as int]);
            }
            let a = chars_of(rest[i].name.as_str());
            if !same_chars(a.as_slice(), n) {
                let e = HeaderEntry {
                    name: rest[i].name.clone(),
                    value: vstd::slice::slice_to_vec(rest[i].value.as_slice()),
                };
                let ghost before = entries_view(kept@);
                kept.push(e);
                assert(entries_view(kept@) =~= before.push(h0[i as int]));
            }
            i = i + 1;
        }
        assert(h0.take(all.len() as int) =~= h0);
        self.entries = kept;
        proof {
            lemma_without_values_ok(h0, n@);
        }
    }

    /// `HeaderMap::remove`: every entry stored under `name` goes. Nothing
    /// changes when `name` is not a valid header name.
    pub fn remove(&mut self, name: &str)
        requires
            old(self).wf(),
        ensures
            final(self).wf(),
            match header_name_norm(name@) {
                Some(n) => final(self)@ == without(old(self)@, n),
                None => final(self)@ == old(self)@,
            },
    {
        match normalize_header_name(name) {
            Some(n) => {
                let nc = chars_of(n.as_str());
                self.remove_norm(nc.as_slice());
            },
            None => {},
        }
    }

    /// `HeaderMap::insert` under an already normalized name.
    pub(crate) fn set_norm(&mut self, n: &str, v: Vec<u8>)
        requires
            old(self).wf(),
            value_ok(v@),
        ensures
            final(self).wf(),
            final(self)@ == with_set(old(self)@, n@, v@),
    {
        let ghost h0 = self@;
        let ghost vv = v@;
        let nc = chars_of(n);
        match self.find_norm(nc.as_slice()) {
            Some(i) => {
                proof {
                    lemma_entries_view(self.entries@);
                }
                let mut tail = Headers { entries: Vec::new() };
                let len = self.entries.len();
                assert(i < len);
                let mut k: usize = i + 1;
                while k < self.entries.len()
                    invariant
                        self@ == h0,
                        self.entries@.len() == h0.len(),
                        i + 1 <= k <= h0.len(),
                        tail@ == h0.subrange(i + 1, k as int),
                    decreases h0.len() - k,
                {
                    let e = HeaderEntry {
                        name: self.entries[k].name.clone(),
                        value: vstd::slice::slice_to_vec(self.entries[k].value.as_slice()),
                    };
                    proof {
                        lemma_entries_view(self.entries@);
                        lemma_entries_push(tail.entries@, e);
                    }
                    tail.entries.push(e);
                    k = k + 1;
                    assert(tail@ =~= h0.subrange(i + 1, k as int));
                }
                assert(h0.subrange(i + 1, h0.len() as int) =~= h0.skip(i + 1));
                proof {
                    assert forall|j: int| 0 <= j < tail@.len() implies value_ok(#[trigger] tail@[j].1) by {
                        assert(tail@[j] == h0[i + 1 + j]);
                    }
                }
                tail.remove_norm(nc.as_slice());
                self.entries.truncate(i);
                assert(self@ =~= h0.take(i as int));
                self.entries.push(HeaderEntry { name: n.to_owned(), value: v });
                assert(self@ =~= h0.take(i as int).push((n@, vv)));
                let mut k2: usize = 0;
                let ghost mid = self@;
                while k2 < tail.entries.len()
                    invariant
                        k2 <= tail@.len(),
                        tail@.len() == tail.entries@.len(),
                        self@ == mid + tail@.take(k2 as int),
                    decreases tail@.len() - k2,
                {
                    let e = HeaderEntry {
                        name: tail.entries[k2].name.clone(),
                        value: vstd::slice::slice_to_vec(tail.entries[k2].value.as_slice()),
                    };
                    proof {
                        lemma_entries_view(tail.entries@);
                        lemma_entries_push(self.entries@, e);
                    }
                    self.entries.push(e);
                    k2 = k2 + 1;
                    assert(self@ =~= mid + tail@.take(k2 as int));
                }
                assert(tail@.take(tail@.len() as int) =~= tail@);
                proof {
                    assert forall|j: int| 0 <= j < self@.len() implies value_ok(#[trigger] self@[j].1) by {
                        if j < i {
                            assert(self@[j] == h0[j]);
                        } else if j > i {
                            assert(self@[j] == tail@[j - i - 1]);
                        }
                    }
                }
            },
            None => {
                self.entries.push(HeaderEntry { name: n.to_owned(), value: v });
                assert(self@ =~= h0.push((n@, vv)));
            },
        }
    }
}

/// The environment variables that header placeholders can read: pairs of
/// name and value, as `std::env::var` would answer them.
pub struct EnvVars {
    vars: Vec<(String, String)>,
}

pub type EnvV = Seq<(Seq<char>, Seq<char>)>;

pub closed spec fn vars_view(v: Seq<(String, String)>) -> EnvV {
    Seq::new(v.len(), |i: int| (v[i].0@, v[i].1@))
}

impl View for EnvVars {
    type V = EnvV;

    closed spec fn view(&self) -> EnvV {
        vars_view(self.vars@)
    }
}

/// The value of the variable `name`: that of its first pair.
pub open spec fn env_lookup(e: EnvV, name: Seq<char>) -> Option<Seq<char>> {
    if exists|i: int| 0 <= i < e.len() && #[trigger] e[i].0 == name
        && forall|j: int| 0 <= j < i ==> e[j].0 != name {
        let i = choose|i: int| 0 <= i < e.len() && #[trigger] e[i].0 == name
            && forall|j: int| 0 <= j < i ==> e[j].0 != name;
        Some(e[i].1)
    } else {
        None
    }
}

impl EnvVars {
    /// No variables.
    pub fn new() -> (e: EnvVars)
        ensures
            e@ == Seq::<(Seq<char>, Seq<char>)>::empty(),
    {
        let e = EnvVars { vars: Vec::new() };
        assert(e@ =~= Seq::<(Seq<char>, Seq<char>)>::empty());
        e
    }

    /// Adds the variable `name` with `value` after those already there.
    pub fn add(&mut self, name: String, value: String)
        ensures
            final(self)@ == old(self)@.push((name@, value@)),
    {
        let ghost p = (name@, value@);
        self.vars.push((name, value));
        assert(self@ =~= old(self)@.push(p));
    }

    /// `std::env::var(name).ok()` on the variables held.
    pub fn get(&self, name: &[char]) -> (r: Option<String>)
        ensures
            match env_lookup(self@, name@) {
                Some(v) => r matches Some(s) && s@ == v,
                None => r is None,
            },
    {
        let mut i: usize = 0;
        while i < self.vars.len()
            invariant
                i <= self@.len(),
                self@.len() == self.vars@.len(),
                forall|j: int| 0 <= j < i ==> self@[j].0 != name@,
            decreases self.vars@.len() - i,
        {
            let a = chars_of(self.vars[i].0.as_str());
            if same_chars(a.as_slice(), name) {
                proof {
                    let e = self@;
                    let k = choose|k: int| 0 <= k < e.len() && #[trigger] e[k].0 == name@
                        && forall|j: int| 0 <= j < k ==> e[j].0 != name@;
                    assert(e[i as int].0 == name@);
                    if k < i {
                        assert(e[k].0 != name@);
                    }
                    if i < k {
                        assert(e[i as int].0 != name@);
                    }
                }
                return Some(self.vars[i].1.clone());
            }
            i = i + 1;
        }
        None
    }
}

/// The part of an incoming request that directives read and change.
pub struct RequestHead {
    pub method: String,
    pub headers: Headers,
}

} // verus!
