//! Canonical keys for URLs.
//!
//! A key is what is left of a URL once the scheme, a leading `www.` label,
//! the query string and one trailing path separator are taken away. Every
//! key is a contiguous piece of the URL it was made from.

use vstd::prelude::*;
use vstd::string::*;

verus! {

/// The characters of `http://`.
pub open spec fn http_scheme() -> Seq<char> {
    seq!['h', 't', 't', 'p', ':', '/', '/']
}

/// The characters of `https://`.
pub open spec fn https_scheme() -> Seq<char> {
    seq!['h', 't', 't', 'p', 's', ':', '/', '/']
}

/// The characters of `www.`.
pub open spec fn www_label() -> Seq<char> {
    seq!['w', 'w', 'w', '.']
}

/// Number of leading characters of `s` that spell an `http` or `https` scheme.
pub open spec fn scheme_len(s: Seq<char>) -> int {
    if https_scheme().is_prefix_of(s) {
        8
    } else if http_scheme().is_prefix_of(s) {
        7
    } else {
        0
    }
}

/// Number of leading characters of `s` that spell the `www.` label.
pub open spec fn www_len(s: Seq<char>) -> int {
    if www_label().is_prefix_of(s) {
        4
    } else {
        0
    }
}

/// Position of the first `?` of `s`, or the length of `s` if it has none.
pub open spec fn query_start(s: Seq<char>) -> int
    decreases s.len(),
{
    if s.len() == 0 || s[0] == '?' {
        0
    } else {
        1 + query_start(s.skip(1))
    }
}

/// `s` without its scheme.
pub open spec fn strip_scheme(s: Seq<char>) -> Seq<char> {
    s.skip(scheme_len(s))
}

/// `s` without a leading `www.` label.
pub open spec fn strip_www(s: Seq<char>) -> Seq<char> {
    s.skip(www_len(s))
}

/// `s` up to its first `?`.
pub open spec fn strip_query(s: Seq<char>) -> Seq<char> {
    s.take(query_start(s))
}

/// `s` without one trailing `/`.
pub open spec fn strip_trailing_slash(s: Seq<char>) -> Seq<char> {
    if s.len() > 0 && s.last() == '/' {
        s.drop_last()
    } else {
        s
    }
}

/// The canonical key of `url`: the four strippings, in this order.
pub open spec fn normalize_spec(url: Seq<char>) -> Seq<char> {
    strip_trailing_slash(strip_query(strip_www(strip_scheme(url))))
}

/// A key on which no stripping has any effect.
pub open spec fn is_canonical(key: Seq<char>) -> bool {
    &&& scheme_len(key) == 0
    &&& www_len(key) == 0
    &&& !key.contains('?')
    &&& !(key.len() > 0 && key.last() == '/')
}

/// `query_start` is the least position that holds a `?`, if there is one.
pub proof fn lemma_query_start(s: Seq<char>)
    ensures
        0 <= query_start(s) <= s.len(),
        forall|j: int| 0 <= j < query_start(s) ==> s[j] != '?',
        query_start(s) < s.len() ==> s[query_start(s)] == '?',
    decreases s.len(),
{
    if s.len() == 0 || s[0] == '?' {
    } else {
        let t = s.skip(1);
        lemma_query_start(t);
        assert forall|j: int| 0 <= j < query_start(s) implies s[j] != '?' by {
            if j > 0 {
                assert(s[j] == t[j - 1]);
            }
        }
        if query_start(s) < s.len() {
            assert(s[query_start(s)] == t[query_start(t)]);
        }
    }
}

/// A position before which no `?` stands, and which holds one or is the
/// end, is `query_start`.
pub proof fn lemma_query_start_unique(s: Seq<char>, q: int)
    requires
        0 <= q <= s.len(),
        forall|j: int| 0 <= j < q ==> s[j] != '?',
        q < s.len() ==> s[q] == '?',
    ensures
        query_start(s) == q,
{
    lemma_query_start(s);
    let p = query_start(s);
    if p < q {
        assert(s[p] == '?');
    } else if q < p {
        assert(s[q] == '?');
    }
}

/// A key that begins with no scheme and no `www.` label and ends with no
/// `/`: what a second normalisation could still take away from a key.
pub open spec fn is_settled(key: Seq<char>) -> bool {
    &&& scheme_len(key) == 0
    &&& www_len(key) == 0
    &&& !(key.len() > 0 && key.last() == '/')
}

/// No key holds a `?`.
pub proof fn lemma_key_has_no_query(url: Seq<char>)
    ensures
        !normalize_spec(url).contains('?'),
{
    let body = strip_www(strip_scheme(url));
    lemma_query_start(body);
    let cut = strip_query(body);
    let key = normalize_spec(url);
    assert forall|i: int| 0 <= i < key.len() implies key[i] != '?' by {
        assert(key[i] == cut[i]);
        assert(cut[i] == body[i]);
    }
}

/// A string is its own key exactly when it is canonical.
pub proof fn lemma_fixed_point(key: Seq<char>)
    ensures
        normalize_spec(key) == key <==> is_canonical(key),
{
    let a = strip_scheme(key);
    let b = strip_www(a);
    let c = strip_query(b);
    let d = strip_trailing_slash(c);
    lemma_query_start(b);
    if is_canonical(key) {
        assert(a =~= key);
        assert(b =~= key);
        if query_start(key) < key.len() {
            assert(key[query_start(key)] == '?');
        }
        assert(c =~= key);
        assert(d =~= key);
    } else {
        if scheme_len(key) == 0 && www_len(key) == 0 {
            assert(a =~= key);
            assert(b =~= key);
            if key.contains('?') {
                let i = choose|i: int| 0 <= i < key.len() && key[i] == '?';
                assert(query_start(key) <= i);
                assert(d.len() < key.len());
            } else {
                if query_start(key) < key.len() {
                    assert(key[query_start(key)] == '?');
                }
                assert(c =~= key);
                assert(d.len() < key.len());
            }
        } else {
            assert(d.len() < key.len());
        }
    }
}

/// Normalising twice gives what normalising once gives, for every URL
/// whose key is settled.
pub proof fn lemma_normalize_idempotent(url: Seq<char>)
    requires
        is_settled(normalize_spec(url)),
    ensures
        normalize_spec(normalize_spec(url)) == normalize_spec(url),
{
    lemma_key_has_no_query(url);
    lemma_fixed_point(normalize_spec(url));
}

/// Where the key of a URL is not settled, a second normalisation shortens
/// it: these are the only URLs on which normalising twice differs from
/// normalising once.
pub proof fn lemma_unsettled_key_shrinks(url: Seq<char>)
    requires
        !is_settled(normalize_spec(url)),
    ensures
        normalize_spec(normalize_spec(url)).len() < normalize_spec(url).len(),
{
    let key = normalize_spec(url);
    let b = strip_www(strip_scheme(key));
    lemma_query_start(b);
    if scheme_len(key) == 0 && www_len(key) == 0 {
        lemma_key_has_no_query(url);
        assert(b =~= key);
        if query_start(key) < key.len() {
            assert(key[query_start(key)] == '?');
        }
        assert(strip_query(b) =~= key);
    }
}

/// The scheme makes no difference: with `http://` or with `https://` in
/// front, what follows gets the same key.
pub proof fn lemma_scheme_is_ignored(rest: Seq<char>)
    ensures
        normalize_spec(http_scheme() + rest) == normalize_spec(https_scheme() + rest),
        normalize_spec(http_scheme() + rest) == strip_trailing_slash(
            strip_query(strip_www(rest)),
        ),
{
    let plain = http_scheme() + rest;
    let secure = https_scheme() + rest;
    assert(https_scheme() =~= secure.subrange(0, 8));
    assert(http_scheme() =~= plain.subrange(0, 7));
    assert(!https_scheme().is_prefix_of(plain)) by {
        if https_scheme().is_prefix_of(plain) {
            assert(plain.subrange(0, 8)[4] == plain[4]);
            assert(plain[4] == ':');
            assert(https_scheme()[4] == 's');
        }
    }
    assert(strip_scheme(plain) =~= rest);
    assert(strip_scheme(secure) =~= rest);
}

/// A pattern without `?` leads `url` with a query attached exactly when it
/// leads `url`.
proof fn lemma_prefix_survives_query(pattern: Seq<char>, url: Seq<char>, query: Seq<char>)
    requires
        !pattern.contains('?'),
    ensures
        pattern.is_prefix_of(url + seq!['?'] + query) <==> pattern.is_prefix_of(url),
{
    let full = url + seq!['?'] + query;
    if pattern.len() <= url.len() {
        assert(full.subrange(0, pattern.len() as int) =~= url.subrange(0, pattern.len() as int));
    } else if pattern.is_prefix_of(full) {
        let at = url.len() as int;
        assert(full.subrange(0, pattern.len() as int)[at] == full[at]);
        assert(full[at] == '?');
        assert(pattern[at] == '?');
        assert(pattern.contains('?'));
    }
}

/// The query makes no difference: a URL has the same key with a query
/// attached as without.
pub proof fn lemma_query_is_ignored(url: Seq<char>, query: Seq<char>)
    ensures
        normalize_spec(url + seq!['?'] + query) == normalize_spec(url),
{
    let full = url + seq!['?'] + query;
    assert(!http_scheme().contains('?')) by {
        if http_scheme().contains('?') {
            let i = choose|i: int| 0 <= i < http_scheme().len() && http_scheme()[i] == '?';
        }
    }
    assert(!https_scheme().contains('?')) by {
        if https_scheme().contains('?') {
            let i = choose|i: int| 0 <= i < https_scheme().len() && https_scheme()[i] == '?';
        }
    }
    assert(!www_label().contains('?')) by {
        if www_label().contains('?') {
            let i = choose|i: int| 0 <= i < www_label().len() && www_label()[i] == '?';
        }
    }
    lemma_prefix_survives_query(http_scheme(), url, query);
    lemma_prefix_survives_query(https_scheme(), url, query);
    let a = strip_scheme(url);
    assert(strip_scheme(full) =~= a + seq!['?'] + query);
    lemma_prefix_survives_query(www_label(), a, query);
    let b = strip_www(a);
    let b_full = strip_www(strip_scheme(full));
    assert(b_full =~= b + seq!['?'] + query);
    lemma_query_start(b);
    let q = query_start(b);
    assert forall|j: int| 0 <= j < q implies b_full[j] != '?' by {
        assert(b_full[j] == b[j]);
    }
    if q < b.len() {
        assert(b_full[q] == b[q]);
    } else {
        assert(b_full[q] == '?');
    }
    lemma_query_start_unique(b_full, q);
    assert(strip_query(b_full) =~= strip_query(b));
}

/// The `www.` label makes no difference: behind a scheme, what follows has
/// the same key with the label in front as without, unless it begins with
/// the label itself.
pub proof fn lemma_www_is_ignored(rest: Seq<char>)
    requires
        www_len(rest) == 0,
    ensures
        normalize_spec(http_scheme() + www_label() + rest) == normalize_spec(http_scheme() + rest),
        normalize_spec(https_scheme() + www_label() + rest) == normalize_spec(
            https_scheme() + rest,
        ),
{
    let labelled = www_label() + rest;
    lemma_scheme_is_ignored(labelled);
    lemma_scheme_is_ignored(rest);
    assert(http_scheme() + www_label() + rest =~= http_scheme() + labelled);
    assert(https_scheme() + www_label() + rest =~= https_scheme() + labelled);
    assert(www_label() =~= labelled.subrange(0, 4));
    assert(strip_www(labelled) =~= rest);
    assert(strip_www(rest) =~= rest);
}

/// One trailing `/` makes no difference: a key to which nothing more can be
/// done is also the key of itself with a `/` attached.
pub proof fn lemma_trailing_slash_is_ignored(key: Seq<char>)
    requires
        is_canonical(key),
    ensures
        normalize_spec(key + seq!['/']) == key,
{
    let longer = key + seq!['/'];
    assert(!https_scheme().is_prefix_of(longer)) by {
        if https_scheme().is_prefix_of(longer) {
            if key.len() >= 8 {
                assert(https_scheme() =~= key.subrange(0, 8)) by {
                    assert(longer.subrange(0, 8) =~= key.subrange(0, 8));
                }
            } else if key.len() == 7 {
                assert(http_scheme() =~= key.subrange(0, 7)) by {
                    assert forall|i: int| 0 <= i < 7 implies http_scheme()[i] == key[i] by {
                        assert(longer.subrange(0, 8)[i] == key[i]);
                        assert(https_scheme()[i] == longer.subrange(0, 8)[i]);
                    }
                    assert(https_scheme()[4] == 's');
                }
            } else {
                let at = key.len() as int;
                assert(longer.subrange(0, 8)[at] == '/');
                assert(longer.subrange(0, 8)[4] == https_scheme()[4]);
                assert(longer.subrange(0, 8)[5] == https_scheme()[5]);
                assert(longer.subrange(0, 8)[at] == https_scheme()[at]);
                if at == 6 {
                    assert(longer.subrange(0, 8)[7] == https_scheme()[7]);
                }
            }
        }
    }
    assert(!http_scheme().is_prefix_of(longer)) by {
        if http_scheme().is_prefix_of(longer) {
            if key.len() >= 7 {
                assert(http_scheme() =~= key.subrange(0, 7)) by {
                    assert(longer.subrange(0, 7) =~= key.subrange(0, 7));
                }
            } else {
                let at = key.len() as int;
                assert(longer.subrange(0, 7)[at] == '/');
                assert(longer.subrange(0, 7)[at] == http_scheme()[at]);
                if at == 6 {
                    // the key is `http:/`, which ends with a separator
                    assert(longer.subrange(0, 7)[5] == key[5]);
                    assert(http_scheme()[5] == '/');
                    assert(key.last() == key[5]);
                } else if at == 5 {
                    assert(longer.subrange(0, 7)[6] == http_scheme()[6]);
                }
            }
        }
    }
    assert(!www_label().is_prefix_of(longer)) by {
        if www_label().is_prefix_of(longer) {
            if key.len() >= 4 {
                assert(www_label() =~= key.subrange(0, 4)) by {
                    assert(longer.subrange(0, 4) =~= key.subrange(0, 4));
                }
            } else {
                let at = key.len() as int;
                assert(longer.subrange(0, 4)[at] == '/');
                assert(longer.subrange(0, 4)[at] == www_label()[at]);
            }
        }
    }
    assert(strip_scheme(longer) =~= longer);
    assert(strip_www(longer) =~= longer);
    assert forall|j: int| 0 <= j < longer.len() implies longer[j] != '?' by {
        if j < key.len() {
            assert(longer[j] == key[j]);
            if key[j] == '?' {
                assert(key.contains('?'));
            }
        }
    }
    lemma_query_start_unique(longer, longer.len() as int);
    assert(strip_query(longer) =~= longer);
    assert(longer.drop_last() =~= key);
}

/// The characters of `s`, one by one.
fn chars_of(s: &str) -> (v: Vec<char>)
    ensures
        v@ == s@,
{
    let mut v: Vec<char> = Vec::new();
    for c in it: s.chars()
        invariant
            v@ == it.seq().take(it.index() as int),
            it.seq() == s@,
    {
        v.push(c);
    }
    v
}

/// Tells whether `pattern` stands in `text` at position `at`.
fn matches_at(text: &Vec<char>, at: usize, pattern: &Vec<char>) -> (yes: bool)
    requires
        at <= text.len(),
    ensures
        yes == pattern@.is_prefix_of(text@.skip(at as int)),
{
    let n = text.len();
    let m = pattern.len();
    if n - at < m {
        return false;
    }
    let mut i: usize = 0;
    while i < m
        invariant
            i <= m,
            m == pattern.len(),
            n == text.len(),
            at <= n,
            m <= n - at,
            forall|j: int| 0 <= j < i ==> text@[at + j] == pattern@[j],
        decreases m - i,
    {
        if text[at + i] != pattern[i] {
            proof {
                let rest = text@.skip(at as int);
                assert(rest.subrange(0, m as int)[i as int] == text@[at + i]);
            }
            return false;
        }
        i += 1;
    }
    proof {
        let rest = text@.skip(at as int);
        assert(pattern@ =~= rest.subrange(0, m as int));
    }
    true
}

/// The canonical key of `url`.
///
/// The scheme `http://` or `https://` is dropped, then a leading `www.`,
/// then everything from the first `?` on, then one trailing `/`. A string
/// that is no URL still gets a key: each step does nothing where it does
/// not apply.
pub fn normalize(url: &str) -> (key: String)
    ensures
        key@ == normalize_spec(url@),
{
    let chars = chars_of(url);
    let n = chars.len();
    let http: Vec<char> = vec!['h', 't', 't', 'p', ':', '/', '/'];
    let https: Vec<char> = vec!['h', 't', 't', 'p', 's', ':', '/', '/'];
    let www: Vec<char> = vec!['w', 'w', 'w', '.'];
    assert(http@ =~= http_scheme());
    assert(https@ =~= https_scheme());
    assert(www@ =~= www_label());
    let mut start: usize = 0;
    if matches_at(&chars, 0, &https) {
        start = 8;
    } else if matches_at(&chars, 0, &http) {
        start = 7;
    }
    assert(chars@.skip(0) =~= chars@);
    assert(start == scheme_len(url@));
    let ghost no_scheme = strip_scheme(url@);
    assert(no_scheme == chars@.skip(start as int));
    if matches_at(&chars, start, &www) {
        start += 4;
    }
    let ghost no_www = strip_www(no_scheme);
    assert(no_www =~= chars@.skip(start as int));
    let mut end: usize = start;
    while end < n && chars[end] != '?'
        invariant
            start <= end <= n,
            n == chars.len(),
            forall|j: int| start <= j < end ==> chars@[j] != '?',
        decreases n - end,
    {
        end += 1;
    }
    proof {
        lemma_query_start_unique(no_www, end - start);
    }
    let ghost no_query = strip_query(no_www);
    assert(no_query =~= chars@.subrange(start as int, end as int));
    if end > start && chars[end - 1] == '/' {
        end -= 1;
    }
    assert(strip_trailing_slash(no_query) =~= chars@.subrange(start as int, end as int));
    let key = url.substring_char(start, end);
    key.to_owned()
}

} // verus!
