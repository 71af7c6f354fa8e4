//! Site-level settings derived from the configured base URL.
use vstd::prelude::*;
use crate::text::{
    chars_to_string, copy_range, is_whitespace, str_to_chars,
    unicode_whitespace,
};

verus! {

pub open spec fn has_prefix(s: Seq<char>, p: Seq<char>) -> bool {
    p.len() <= s.len() && s.take(p.len() as int) == p
}

pub open spec fn has_suffix(s: Seq<char>, p: Seq<char>) -> bool {
    p.len() <= s.len() && s.skip(s.len() - p.len()) == p
}

/// `s` with every leading repetition of the non-empty `p` removed
/// (`str::trim_start_matches`).
pub open spec fn strip_prefixes(s: Seq<char>, p: Seq<char>) -> Seq<char>
    decreases s.len(),
{
    if p.len() > 0 && has_prefix(s, p) {
        strip_prefixes(s.skip(p.len() as int), p)
    } else {
        s
    }
}

/// `s` with every trailing repetition of the non-empty `p` removed
/// (`str::trim_end_matches`).
pub open spec fn strip_suffixes(s: Seq<char>, p: Seq<char>) -> Seq<char>
    decreases s.len(),
{
    if p.len() > 0 && has_suffix(s, p) {
        strip_suffixes(s.take(s.len() - p.len()), p)
    } else {
        s
    }
}

pub fn strip_suffix_all(s: &Vec<char>, p: &str) -> (r: Vec<char>)
    ensures
        r@ == strip_suffixes(s@, p@),
{
    let pat = str_to_chars(p);
    let mut cur = copy_range(s, 0, s.len());
    assert(cur@ =~= s@);
    if pat.len() == 0 {
        return cur;
    }
    loop
        invariant
            pat@ == p@,
            pat.len() > 0,
            strip_suffixes(s@, p@) == strip_suffixes(cur@, p@),
        decreases cur.len(),
    {
        if pat.len() > cur.len() {
            return cur;
        }
        let off = cur.len() - pat.len();
        let mut i: usize = 0;
        while i < pat.len()
            invariant
                pat@ == p@,
                pat.len() > 0,
                strip_suffixes(s@, p@) == strip_suffixes(cur@, p@),
                off + pat.len() == cur.len(),
                i <= pat.len(),
                forall|q: int| 0 <= q < i ==> cur@[off + q] == pat@[q],
            decreases pat.len() - i,
        {
            if cur[off + i] != pat[i] {
                assert(cur@.skip(off as int)[i as int] != pat@[i as int]);
                assert(cur@.skip(off as int) != pat@);
                assert(!has_suffix(cur@, p@));
                return cur;
            }
            i = i + 1;
        }
        assert(cur@.skip(off as int) =~= pat@);
        cur = copy_range(&cur, 0, off);
        assert(cur@ =~= cur@.subrange(0, cur@.len() as int));
    }
}

/// The text before the first `c` (all of `s` when there is none): the first
/// piece of `str::split`.
pub open spec fn before_char(s: Seq<char>, c: char) -> Seq<char>
    decreases s.len(),
{
    if s.len() == 0 {
        s
    } else if s[0] == c {
        Seq::<char>::empty()
    } else {
        seq![s[0]] + before_char(s.drop_first(), c)
    }
}

/// `s` without leading and trailing whitespace (`str::trim`).
pub open spec fn trim(s: Seq<char>) -> Seq<char>
    decreases s.len(),
{
    if s.len() > 0 && unicode_whitespace(s[0]) {
        trim(s.drop_first())
    } else if s.len() > 0 && unicode_whitespace(s.last()) {
        trim(s.drop_last())
    } else {
        s
    }
}

/// The host part of a base URL: the scheme prefixes `https://` and then
/// `http://` removed, everything from the first `/` on dropped, whitespace
/// trimmed.
pub open spec fn url_host(base_url: Seq<char>) -> Seq<char> {
    trim(before_char(strip_prefixes(strip_prefixes(base_url, "https://"@), "http://"@), '/'))
}

/// The custom domain of a base URL: its host, unless that is empty or a
/// GitHub Pages default host (ending in `github.io`).
pub open spec fn custom_domain(base_url: Seq<char>) -> Option<Seq<char>> {
    let host = url_host(base_url);
    if host.len() == 0 || has_suffix(host, "github.io"@) {
        None
    } else {
        Some(host)
    }
}

fn strip_all(s: Vec<char>, p: &str) -> (r: Vec<char>)
    ensures
        r@ == strip_prefixes(s@, p@),
{
    let pat = str_to_chars(p);
    let mut cur = s;
    if pat.len() == 0 {
        return cur;
    }
    loop
        invariant
            pat@ == p@,
            pat.len() > 0,
            strip_prefixes(s@, p@) == strip_prefixes(cur@, p@),
        decreases cur.len(),
    {
        if pat.len() > cur.len() {
            return cur;
        }
        let mut i: usize = 0;
        while i < pat.len()
            invariant
                pat@ == p@,
                pat.len() > 0,
                strip_prefixes(s@, p@) == strip_prefixes(cur@, p@),
                pat.len() <= cur.len(),
                i <= pat.len(),
                forall|q: int| 0 <= q < i ==> cur@[q] == pat@[q],
            decreases pat.len() - i,
        {
            if cur[i] != pat[i] {
                assert(cur@.take(pat.len() as int)[i as int] != pat@[i as int]);
                assert(cur@.take(pat.len() as int) != pat@);
                assert(!has_prefix(cur@, p@));
                return cur;
            }
            i = i + 1;
        }
        assert(cur@.take(pat.len() as int) =~= pat@);
        cur = copy_range(&cur, pat.len(), cur.len());
        assert(cur@ =~= cur@.subrange(0, cur@.len() as int));
    }
}

fn take_before(s: &Vec<char>, c: char) -> (r: Vec<char>)
    ensures
        r@ == before_char(s@, c),
{
    let mut i: usize = 0;
    while i < s.len() && s[i] != c
        invariant
            i <= s.len(),
            forall|q: int| 0 <= q < i ==> s@[q] != c,
        decreases s.len() - i,
    {
        i = i + 1;
    }
    proof {
        lemma_before_char(s@, c, i as int);
    }
    copy_range(s, 0, i)
}

proof fn lemma_before_char(s: Seq<char>, c: char, i: int)
    requires
        0 <= i <= s.len(),
        forall|q: int| 0 <= q < i ==> s[q] != c,
        i == s.len() || s[i] == c,
    ensures
        before_char(s, c) == s.take(i),
    decreases s.len(),
{
    if s.len() > 0 && s[0] != c {
        lemma_before_char(s.drop_first(), c, i - 1);
        assert(s.take(i) =~= seq![s[0]] + s.drop_first().take(i - 1));
    } else if s.len() > 0 {
        assert(s.take(i) =~= Seq::<char>::empty());
    } else {
        assert(s.take(i) =~= s);
    }
}

proof fn lemma_trim(s: Seq<char>, a: int, b: int)
    requires
        0 <= a <= b <= s.len(),
        forall|q: int| 0 <= q < a ==> unicode_whitespace(s[q]),
        forall|q: int| b <= q < s.len() ==> unicode_whitespace(s[q]),
        a == b || (!unicode_whitespace(s[a]) && !unicode_whitespace(s[b - 1])),
    ensures
        trim(s) == s.subrange(a, b),
    decreases s.len(),
{
    if s.len() > 0 && unicode_whitespace(s[0]) {
        if a > 0 {
            lemma_trim(s.drop_first(), a - 1, b - 1);
            assert(s.drop_first().subrange(a - 1, b - 1) =~= s.subrange(a, b));
        } else {
            // a == 0 and s[0] is whitespace: then a == b == 0, all whitespace
            assert(b == 0);
            lemma_all_ws_trims_empty(s);
            assert(s.subrange(a, b) =~= Seq::<char>::empty());
        }
    } else if s.len() > 0 && unicode_whitespace(s.last()) {
        if b < s.len() {
            lemma_trim(s.drop_last(), a, b);
            assert(s.drop_last().subrange(a, b) =~= s.subrange(a, b));
        } else {
            assert(a == b);
            assert(a == s.len());
            lemma_all_ws_trims_empty(s);
            assert(s.subrange(a, b) =~= Seq::<char>::empty());
        }
    } else {
        if s.len() > 0 {
            if a > 0 {
                assert(unicode_whitespace(s[0]));
            }
            if b < s.len() {
                assert(unicode_whitespace(s[s.len() - 1]));
            }
        } else {
        }
        assert(s.subrange(a, b) =~= s);
    }
}

proof fn lemma_all_ws_trims_empty(s: Seq<char>)
    requires
        forall|q: int| 0 <= q < s.len() ==> unicode_whitespace(s[q]),
    ensures
        trim(s) == Seq::<char>::empty(),
    decreases s.len(),
{
    if s.len() > 0 {
        lemma_all_ws_trims_empty(s.drop_first());
    } else {
        assert(s =~= Seq::<char>::empty());
    }
}

pub fn trim_chars(s: &Vec<char>) -> (r: Vec<char>)
    ensures
        r@ == trim(s@),
{
    let mut a: usize = 0;
    while a < s.len() && is_whitespace(s[a])
        invariant
            a <= s.len(),
            forall|q: int| 0 <= q < a ==> unicode_whitespace(s@[q]),
        decreases s.len() - a,
    {
        a = a + 1;
    }
    let mut b: usize = s.len();
    while b > a && is_whitespace(s[b - 1])
        invariant
            a <= b <= s.len(),
            forall|q: int| b <= q < s.len() ==> unicode_whitespace(s@[q]),
        decreases b,
    {
        b = b - 1;
    }
    proof {
        if a < b {
            assert(!unicode_whitespace(s@[b - 1]));
            assert(a == s.len() || !unicode_whitespace(s@[a as int]));
        }
        lemma_trim(s@, a as int, b as int);
    }
    copy_range(s, a, b)
}

fn ends_with_github_io(s: &Vec<char>) -> (r: bool)
    ensures
        r == has_suffix(s@, "github.io"@),
{
    let suffix = str_to_chars("github.io");
    if suffix.len() > s.len() {
        return false;
    }
    let off = s.len() - suffix.len();
    let mut i: usize = 0;
    while i < suffix.len()
        invariant
            suffix@ == "github.io"@,
            off + suffix.len() == s.len(),
            i <= suffix.len(),
            forall|q: int| 0 <= q < i ==> s@[off + q] == suffix@[q],
        decreases suffix.len() - i,
    {
        if s[off + i] != suffix[i] {
            assert(s@.skip(off as int)[i as int] != suffix@[i as int]);
            assert(s@.skip(off as int) != suffix@);
            return false;
        }
        i = i + 1;
    }
    assert(s@.skip(off as int) =~= suffix@);
    true
}

/// The custom domain host of a base URL; `*.github.io` hosts are GitHub's
/// defaults and need no CNAME, so they give `None`.
pub fn custom_domain_host(base_url: &str) -> (r: Option<String>)
    ensures
        r matches Some(h) ==> custom_domain(base_url@) == Some(h@),
        r is None ==> custom_domain(base_url@) is None,
{
    let chars = str_to_chars(base_url);
    let no_https = strip_all(chars, "https://");
    let after_scheme = strip_all(no_https, "http://");
    let first = take_before(&after_scheme, '/');
    let host = trim_chars(&first);
    if host.len() == 0 || ends_with_github_io(&host) {
        None
    } else {
        Some(chars_to_string(&host))
    }
}

proof fn lemma_before_char_excludes(s: Seq<char>, c: char)
    ensures
        forall|k: int| 0 <= k < before_char(s, c).len() ==> #[trigger] before_char(s, c)[k] != c,
    decreases s.len(),
{
    if s.len() > 0 && s[0] != c {
        lemma_before_char_excludes(s.drop_first(), c);
        let r = before_char(s.drop_first(), c);
        assert forall|k: int| 0 <= k < (seq![s[0]] + r).len() implies #[trigger] (seq![s[0]] + r)[k] != c by {
            if k > 0 {
                assert((seq![s[0]] + r)[k] == r[k - 1]);
            }
        }
    }
}

proof fn lemma_trim_shape(s: Seq<char>, c: char)
    requires
        forall|k: int| 0 <= k < s.len() ==> #[trigger] s[k] != c,
    ensures
        forall|k: int| 0 <= k < trim(s).len() ==> #[trigger] trim(s)[k] != c,
        trim(s).len() > 0 ==> !unicode_whitespace(trim(s)[0]) && !unicode_whitespace(trim(s).last()),
    decreases s.len(),
{
    if s.len() > 0 && unicode_whitespace(s[0]) {
        let d = s.drop_first();
        assert forall|k: int| 0 <= k < d.len() implies #[trigger] d[k] != c by {
            assert(d[k] == s[k + 1]);
        }
        lemma_trim_shape(d, c);
    } else if s.len() > 0 && unicode_whitespace(s.last()) {
        let d = s.drop_last();
        assert forall|k: int| 0 <= k < d.len() implies #[trigger] d[k] != c by {
            assert(d[k] == s[k]);
        }
        lemma_trim_shape(d, c);
    }
}

/// A custom domain is a bare host: non-empty, without `/`, without
/// whitespace at either end, and not a GitHub Pages default host.
pub proof fn custom_domain_is_a_bare_host(base_url: Seq<char>)
    ensures
        custom_domain(base_url) matches Some(h) ==> {
            &&& h.len() > 0
            &&& !has_suffix(h, "github.io"@)
            &&& forall|k: int| 0 <= k < h.len() ==> #[trigger] h[k] != '/'
            &&& !unicode_whitespace(h[0])
            &&& !unicode_whitespace(h.last())
        },
{
    let stripped = strip_prefixes(strip_prefixes(base_url, "https://"@), "http://"@);
    lemma_before_char_excludes(stripped, '/');
    lemma_trim_shape(before_char(stripped, '/'), '/');
}

/// A bare custom host is recovered from its `https://<host>/` base URL.
pub proof fn custom_domain_round_trip(host: Seq<char>)
    requires
        host.len() > 0,
        forall|k: int| 0 <= k < host.len() ==> #[trigger] host[k] != '/',
        !unicode_whitespace(host[0]),
        !unicode_whitespace(host.last()),
        !has_suffix(host, "github.io"@),
    ensures
        custom_domain("https://"@ + host + seq!['/']) == Some(host),
{
    reveal_strlit("https://");
    reveal_strlit("http://");
    let x = host + seq!['/'];
    let url = "https://"@ + host + seq!['/'];
    assert(url =~= "https://"@ + x);
    assert(has_prefix(url, "https://"@)) by {
        assert(url.take(8) =~= "https://"@);
    }
    assert(url.skip(8) =~= x);
    assert(!has_prefix(x, "https://"@)) by {
        if has_prefix(x, "https://"@) {
            assert(x.take(8)[6] == '/');
            assert(x[6] == '/');
            assert(x[7] == '/');
            if host.len() > 6 {
                assert(host[6] == x[6]);
            }
        }
    }
    assert(strip_prefixes(x, "https://"@) == x);
    assert(strip_prefixes(url, "https://"@) == strip_prefixes(url.skip(8), "https://"@));
    assert(strip_prefixes(url, "https://"@) == x);
    assert(!has_prefix(x, "http://"@)) by {
        if has_prefix(x, "http://"@) {
            assert(x.take(7)[5] == '/');
            assert(x[5] == '/');
            assert(x[6] == '/');
            if host.len() > 5 {
                assert(host[5] == x[5]);
            }
        }
    }
    assert(strip_prefixes(x, "http://"@) == x);
    assert forall|q: int| 0 <= q < host.len() implies x[q] != '/' by {
        assert(x[q] == host[q]);
    }
    lemma_before_char(x, '/', host.len() as int);
    assert(x.take(host.len() as int) =~= host);
    lemma_trim(host, 0, host.len() as int);
    assert(host.subrange(0, host.len() as int) =~= host);
}

} // verus!
