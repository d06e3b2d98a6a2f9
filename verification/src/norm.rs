//! URL normalization: mapping a raw resource URL and a site base URL to an
//! optional canonical local path.
//!
//! A raw URL is first cut at its query string or fragment, then classified
//! into a small closed set of shapes (same-site absolute, off-site absolute,
//! protocol-relative, relative, non-fetchable), and each shape is mapped to a
//! relative path with no leading slash, or rejected. Two raw URLs that map to
//! the same canonical path name the same on-disk artifact.

use vstd::prelude::*;

verus! {

use vstd::string::StrSliceExecFns;

/// A query string or fragment begins at the first of these characters.
pub open spec fn is_stop_char(c: char) -> bool {
    c == '?' || c == '#'
}

/// Length of the longest prefix of `s` free of query/fragment markers.
pub open spec fn stop_free_len(s: Seq<char>) -> int
    decreases s.len(),
{
    if s.len() == 0 {
        0
    } else if is_stop_char(s[0]) {
        0
    } else {
        1 + stop_free_len(s.drop_first())
    }
}

/// Number of leading `/` characters of `s`.
pub open spec fn leading_slash_len(s: Seq<char>) -> int
    decreases s.len(),
{
    if s.len() == 0 {
        0
    } else if s[0] == '/' {
        1 + leading_slash_len(s.drop_first())
    } else {
        0
    }
}

/// Index of the first `/` in `s`, or `s.len()` if there is none.
pub open spec fn pre_slash_len(s: Seq<char>) -> int
    decreases s.len(),
{
    if s.len() == 0 {
        0
    } else if s[0] == '/' {
        0
    } else {
        1 + pre_slash_len(s.drop_first())
    }
}

/// Everything before the first `?` or `#` of `s`.
pub open spec fn strip_query_fragment(s: Seq<char>) -> Seq<char> {
    s.take(stop_free_len(s))
}

/// `s` without its leading slashes.
pub open spec fn trim_leading_slashes(s: Seq<char>) -> Seq<char> {
    s.skip(leading_slash_len(s))
}

/// `p` is a prefix of `s`.
pub open spec fn has_prefix(s: Seq<char>, p: Seq<char>) -> bool {
    p.len() <= s.len() && s.take(p.len() as int) == p
}

pub proof fn lemma_stop_free_len_bounds(s: Seq<char>)
    ensures
        0 <= stop_free_len(s) <= s.len(),
        forall|j: int| 0 <= j < stop_free_len(s) ==> !is_stop_char(s[j]),
        stop_free_len(s) < s.len() ==> is_stop_char(s[stop_free_len(s)]),
    decreases s.len(),
{
    if s.len() == 0 {
    } else if is_stop_char(s[0]) {
    } else {
        lemma_stop_free_len_bounds(s.drop_first());
        let k = stop_free_len(s.drop_first());
        assert forall|j: int| 0 <= j < 1 + k implies !is_stop_char(s[j]) by {
            if j > 0 {
                assert(s.drop_first()[j - 1] == s[j]);
            }
        }
        if 1 + k < s.len() {
            assert(s.drop_first()[k] == s[k + 1]);
        }
    }
}

pub proof fn lemma_stop_free_len_is(s: Seq<char>, i: int)
    requires
        0 <= i <= s.len(),
        forall|j: int| 0 <= j < i ==> !is_stop_char(s[j]),
        i < s.len() ==> is_stop_char(s[i]),
    ensures
        stop_free_len(s) == i,
    decreases s.len(),
{
    if s.len() == 0 {
    } else if i == 0 {
    } else {
        assert(!is_stop_char(s[0]));
        assert forall|j: int| 0 <= j < i - 1 implies !is_stop_char(s.drop_first()[j]) by {
            assert(s.drop_first()[j] == s[j + 1]);
        }
        if i - 1 < s.drop_first().len() {
            assert(s.drop_first()[i - 1] == s[i]);
        }
        lemma_stop_free_len_is(s.drop_first(), i - 1);
    }
}

pub proof fn lemma_leading_slash_len_bounds(s: Seq<char>)
    ensures
        0 <= leading_slash_len(s) <= s.len(),
        forall|j: int| 0 <= j < leading_slash_len(s) ==> s[j] == '/',
        leading_slash_len(s) < s.len() ==> s[leading_slash_len(s)] != '/',
    decreases s.len(),
{
    if s.len() == 0 {
    } else if s[0] == '/' {
        lemma_leading_slash_len_bounds(s.drop_first());
        let k = leading_slash_len(s.drop_first());
        assert forall|j: int| 0 <= j < 1 + k implies s[j] == '/' by {
            if j > 0 {
                assert(s.drop_first()[j - 1] == s[j]);
            }
        }
        if 1 + k < s.len() {
            assert(s.drop_first()[k] == s[k + 1]);
        }
    } else {
    }
}

pub proof fn lemma_leading_slash_len_is(s: Seq<char>, i: int)
    requires
        0 <= i <= s.len(),
        forall|j: int| 0 <= j < i ==> s[j] == '/',
        i < s.len() ==> s[i] != '/',
    ensures
        leading_slash_len(s) == i,
    decreases s.len(),
{
    if s.len() == 0 {
    } else if i == 0 {
    } else {
        assert(s[0] == '/');
        assert forall|j: int| 0 <= j < i - 1 implies s.drop_first()[j] == '/' by {
            assert(s.drop_first()[j] == s[j + 1]);
        }
        if i - 1 < s.drop_first().len() {
            assert(s.drop_first()[i - 1] == s[i]);
        }
        lemma_leading_slash_len_is(s.drop_first(), i - 1);
    }
}

pub proof fn lemma_pre_slash_len_bounds(s: Seq<char>)
    ensures
        0 <= pre_slash_len(s) <= s.len(),
        forall|j: int| 0 <= j < pre_slash_len(s) ==> s[j] != '/',
        pre_slash_len(s) < s.len() ==> s[pre_slash_len(s)] == '/',
    decreases s.len(),
{
    if s.len() == 0 {
    } else if s[0] == '/' {
    } else {
        lemma_pre_slash_len_bounds(s.drop_first());
        let k = pre_slash_len(s.drop_first());
        assert forall|j: int| 0 <= j < 1 + k implies s[j] != '/' by {
            if j > 0 {
                assert(s.drop_first()[j - 1] == s[j]);
            }
        }
        if 1 + k < s.len() {
            assert(s.drop_first()[k] == s[k + 1]);
        }
    }
}

pub proof fn lemma_pre_slash_len_is(s: Seq<char>, i: int)
    requires
        0 <= i <= s.len(),
        forall|j: int| 0 <= j < i ==> s[j] != '/',
        i < s.len() ==> s[i] == '/',
    ensures
        pre_slash_len(s) == i,
    decreases s.len(),
{
    if s.len() == 0 {
    } else if i == 0 {
    } else {
        assert(s[0] != '/');
        assert forall|j: int| 0 <= j < i - 1 implies s.drop_first()[j] != '/' by {
            assert(s.drop_first()[j] == s[j + 1]);
        }
        if i - 1 < s.drop_first().len() {
            assert(s.drop_first()[i - 1] == s[i]);
        }
        lemma_pre_slash_len_is(s.drop_first(), i - 1);
    }
}

/// The shape of a raw URL, after query and fragment are cut off, relative to
/// the mirrored site.
#[derive(Clone, Copy, Debug, PartialEq, Eq, Structural)]
pub enum UrlClass {
    /// `http://` or `https://` URL whose text begins with the site base URL.
    AbsoluteSameSite,
    /// `http://` or `https://` URL rooted elsewhere; deliberately not mirrored.
    AbsoluteOtherSite,
    /// `//host/path`: mirrored whatever the host, by design.
    ProtocolRelative,
    /// Anything else: a relative or root-relative path under the site.
    Relative,
    /// Empty, `data:` or `blob:`: nothing to fetch.
    NonFetchable,
}

/// Classification of a query/fragment-free URL `u` against the site base URL.
pub open spec fn classify_spec(u: Seq<char>, site: Seq<char>) -> UrlClass {
    if u.len() == 0 || has_prefix(u, "data:"@) || has_prefix(u, "blob:"@) {
        UrlClass::NonFetchable
    } else if has_prefix(u, "http://"@) || has_prefix(u, "https://"@) {
        if has_prefix(u, site) {
            UrlClass::AbsoluteSameSite
        } else {
            UrlClass::AbsoluteOtherSite
        }
    } else if has_prefix(u, "//"@) {
        UrlClass::ProtocolRelative
    } else {
        UrlClass::Relative
    }
}

/// `Some(p)` only for a nonempty path: an empty canonical path is a rejection.
pub open spec fn nonempty_or_none(p: Seq<char>) -> Option<Seq<char>> {
    if p.len() == 0 {
        None
    } else {
        Some(p)
    }
}

/// The canonical local path of a raw URL, or `None` when the URL is out of
/// scope: query and fragment are cut off, then each URL shape is reduced to a
/// relative path with no leading slash, and empty results are rejected.
pub open spec fn normalize_spec(url: Seq<char>, site: Seq<char>) -> Option<Seq<char>> {
    let u = strip_query_fragment(url);
    match classify_spec(u, site) {
        UrlClass::NonFetchable => None,
        UrlClass::AbsoluteOtherSite => None,
        UrlClass::AbsoluteSameSite => nonempty_or_none(
            trim_leading_slashes(u.skip(site.len() as int)),
        ),
        UrlClass::ProtocolRelative => {
            let rest = u.skip(2);
            let k = pre_slash_len(rest);
            if k == rest.len() {
                None
            } else {
                nonempty_or_none(trim_leading_slashes(rest.skip(k)))
            }
        },
        UrlClass::Relative => nonempty_or_none(trim_leading_slashes(u)),
    }
}

/// Whether `p` is a prefix of `s`, decided character by character.
pub fn str_has_prefix(s: &str, p: &str) -> (r: bool)
    ensures
        r == has_prefix(s@, p@),
{
    let n = p.unicode_len();
    if n > s.unicode_len() {
        return false;
    }
    let mut i: usize = 0;
    while i < n
        invariant
            i <= n,
            n == p@.len(),
            n <= s@.len(),
            forall|j: int| 0 <= j < i ==> s@[j] == p@[j],
        decreases n - i,
    {
        if s.get_char(i) != p.get_char(i) {
            proof {
                assert(s@.take(n as int)[i as int] == s@[i as int]);
            }
            return false;
        }
        i += 1;
    }
    proof {
        assert(s@.take(n as int) =~= p@);
    }
    true
}

/// Index of the first `?` or `#` in `s`, or its length if there is none.
fn scan_stop_free(s: &str) -> (r: usize)
    ensures
        r == stop_free_len(s@),
        r <= s@.len(),
{
    let n = s.unicode_len();
    let mut i: usize = 0;
    while i < n
        invariant
            i <= n,
            n == s@.len(),
            forall|j: int| 0 <= j < i ==> !is_stop_char(s@[j]),
        decreases n - i,
    {
        let c = s.get_char(i);
        if c == '?' || c == '#' {
            proof {
                lemma_stop_free_len_is(s@, i as int);
            }
            return i;
        }
        i += 1;
    }
    proof {
        lemma_stop_free_len_is(s@, n as int);
    }
    n
}

/// Number of leading `/` characters of `s`.
pub(crate) fn scan_leading_slashes(s: &str) -> (r: usize)
    ensures
        r == leading_slash_len(s@),
        r <= s@.len(),
{
    let n = s.unicode_len();
    let mut i: usize = 0;
    while i < n
        invariant
            i <= n,
            n == s@.len(),
            forall|j: int| 0 <= j < i ==> s@[j] == '/',
        decreases n - i,
    {
        if s.get_char(i) != '/' {
            proof {
                lemma_leading_slash_len_is(s@, i as int);
            }
            return i;
        }
        i += 1;
    }
    proof {
        lemma_leading_slash_len_is(s@, n as int);
    }
    n
}

/// Index of the first `/` in `s`, or its length if there is none.
fn scan_pre_slash(s: &str) -> (r: usize)
    ensures
        r == pre_slash_len(s@),
        r <= s@.len(),
{
    let n = s.unicode_len();
    let mut i: usize = 0;
    while i < n
        invariant
            i <= n,
            n == s@.len(),
            forall|j: int| 0 <= j < i ==> s@[j] != '/',
        decreases n - i,
    {
        if s.get_char(i) == '/' {
            proof {
                lemma_pre_slash_len_is(s@, i as int);
            }
            return i;
        }
        i += 1;
    }
    proof {
        lemma_pre_slash_len_is(s@, n as int);
    }
    n
}

/// Trims leading slashes and keeps the path only if something is left.
fn trimmed_path(s: &str) -> (r: Option<String>)
    ensures
        match r {
            Some(p) => nonempty_or_none(trim_leading_slashes(s@)) == Some(p@),
            None => nonempty_or_none(trim_leading_slashes(s@)) is None,
        },
{
    let k = scan_leading_slashes(s);
    let n = s.unicode_len();
    let t = s.substring_char(k, n);
    if t.unicode_len() == 0 {
        None
    } else {
        Some(t.to_owned())
    }
}

/// The shape of the query/fragment-free URL `u` relative to the site base URL.
pub fn classify(u: &str, site: &str) -> (c: UrlClass)
    ensures
        c == classify_spec(u@, site@),
{
    if u.unicode_len() == 0 || str_has_prefix(u, "data:") || str_has_prefix(u, "blob:") {
        UrlClass::NonFetchable
    } else if str_has_prefix(u, "http://") || str_has_prefix(u, "https://") {
        if str_has_prefix(u, site) {
            UrlClass::AbsoluteSameSite
        } else {
            UrlClass::AbsoluteOtherSite
        }
    } else if str_has_prefix(u, "//") {
        UrlClass::ProtocolRelative
    } else {
        UrlClass::Relative
    }
}

/// Normalizes a raw resource URL to its canonical local path.
///
/// Cuts the URL at its first `?` or `#`, rejects empty, `data:` and `blob:`
/// URLs, keeps an absolute URL only when it starts with `website` (stripping
/// that prefix), takes a protocol-relative URL's path after its host whatever
/// the host is, treats everything else as a path under the site, and finally
/// strips leading slashes and rejects an empty remainder.
pub fn normalize_url_path(url: &str, website: &str) -> (r: Option<String>)
    ensures
        match r {
            Some(p) => normalize_spec(url@, website@) == Some(p@),
            None => normalize_spec(url@, website@) is None,
        },
{
    let stop = scan_stop_free(url);
    let u = url.substring_char(0, stop);
    proof {
        assert(u@ == strip_query_fragment(url@));
    }
    match classify(u, website) {
        UrlClass::NonFetchable => None,
        UrlClass::AbsoluteOtherSite => None,
        UrlClass::AbsoluteSameSite => {
            let site_len = website.unicode_len();
            let rest = u.substring_char(site_len, u.unicode_len());
            proof {
                assert(rest@ == u@.skip(website@.len() as int));
            }
            trimmed_path(rest)
        },
        UrlClass::ProtocolRelative => {
            proof {
                reveal_strlit("//");
                assert(has_prefix(u@, "//"@));
            }
            let rest = u.substring_char(2, u.unicode_len());
            proof {
                assert(rest@ == u@.skip(2));
            }
            let k = scan_pre_slash(rest);
            if k == rest.unicode_len() {
                None
            } else {
                let tail = rest.substring_char(k, rest.unicode_len());
                proof {
                    assert(tail@ == rest@.skip(k as int));
                }
                trimmed_path(tail)
            }
        },
        UrlClass::Relative => trimmed_path(u),
    }
}

pub proof fn lemma_strip_stop_free(url: Seq<char>)
    ensures
        forall|j: int|
            0 <= j < strip_query_fragment(url).len() ==> !is_stop_char(
                strip_query_fragment(url)[j],
            ),
{
    lemma_stop_free_len_bounds(url);
}

pub proof fn lemma_strip_of_stop_free(u: Seq<char>)
    requires
        forall|j: int| 0 <= j < u.len() ==> !is_stop_char(u[j]),
    ensures
        strip_query_fragment(u) == u,
{
    lemma_stop_free_len_is(u, u.len() as int);
    assert(u.take(u.len() as int) =~= u);
}

pub proof fn lemma_strip_preserves_prefix(url: Seq<char>, p: Seq<char>)
    requires
        has_prefix(url, p),
        forall|j: int| 0 <= j < p.len() ==> !is_stop_char(p[j]),
    ensures
        has_prefix(strip_query_fragment(url), p),
{
    lemma_stop_free_len_bounds(url);
    let k = stop_free_len(url);
    assert(forall|j: int| 0 <= j < p.len() ==> url[j] == #[trigger] p[j]);
    if k < p.len() {
        assert(is_stop_char(url[k]));
        assert(url[k] == p[k]);
        assert(false);
    }
    assert(strip_query_fragment(url).take(p.len() as int) =~= p);
}

pub proof fn lemma_trim_props(x: Seq<char>)
    ensures
        0 <= leading_slash_len(x) <= x.len(),
        trim_leading_slashes(x) == x.skip(leading_slash_len(x)),
        trim_leading_slashes(x).len() > 0 ==> trim_leading_slashes(x)[0] != '/',
        forall|j: int|
            0 <= j < trim_leading_slashes(x).len() ==> trim_leading_slashes(x)[j] == x[
                leading_slash_len(x) + j
            ],
{
    lemma_leading_slash_len_bounds(x);
}

pub proof fn lemma_trim_of_no_leading_slash(x: Seq<char>)
    requires
        x.len() == 0 || x[0] != '/',
    ensures
        trim_leading_slashes(x) == x,
{
    assert(leading_slash_len(x) == 0);
    assert(x.skip(0) =~= x);
}

/// The same path issued relative, root-relative, or absolute under the site
/// normalizes to the same canonical path: for a nonempty path `p` with no
/// query/fragment marker, no leading slash and none of the special scheme
/// prefixes, and a site base URL that is itself a marker-free `http://` or
/// `https://` URL, the three spellings `p`, `/p` and `site/p` all map to `p`.
pub proof fn lemma_normalize_agrees_on_forms(p: Seq<char>, site: Seq<char>)
    requires
        p.len() > 0,
        forall|j: int| 0 <= j < p.len() ==> !is_stop_char(p[j]),
        p[0] != '/',
        !has_prefix(p, "data:"@),
        !has_prefix(p, "blob:"@),
        !has_prefix(p, "http://"@),
        !has_prefix(p, "https://"@),
        has_prefix(site, "http://"@) || has_prefix(site, "https://"@),
        forall|j: int| 0 <= j < site.len() ==> !is_stop_char(site[j]),
    ensures
        normalize_spec(p, site) == Some(p),
        normalize_spec(seq!['/'] + p, site) == Some(p),
        normalize_spec(site + seq!['/'] + p, site) == Some(p),
{
    reveal_strlit("//");
    reveal_strlit("http://");
    reveal_strlit("https://");
    reveal_strlit("data:");
    reveal_strlit("blob:");

    // The bare relative form.
    lemma_strip_of_stop_free(p);
    if has_prefix(p, "//"@) {
        assert(p.take(2)[0] == '/');
        assert(false);
    }
    assert(classify_spec(p, site) == UrlClass::Relative);
    lemma_trim_of_no_leading_slash(p);

    // The root-relative form.
    let u1 = seq!['/'] + p;
    assert(forall|j: int| 0 <= j < u1.len() ==> !is_stop_char(#[trigger] u1[j]));
    lemma_strip_of_stop_free(u1);
    assert(u1[0] == '/');
    if has_prefix(u1, "data:"@) {
        assert(u1.take(5)[0] == 'd');
        assert(false);
    }
    if has_prefix(u1, "blob:"@) {
        assert(u1.take(4)[0] == 'b');
        assert(false);
    }
    if has_prefix(u1, "http://"@) {
        assert(u1.take(7)[0] == 'h');
        assert(false);
    }
    if has_prefix(u1, "https://"@) {
        assert(u1.take(8)[0] == 'h');
        assert(false);
    }
    if has_prefix(u1, "//"@) {
        assert(u1.take(2)[1] == '/');
        assert(u1[1] == p[0]);
        assert(false);
    }
    assert(classify_spec(u1, site) == UrlClass::Relative);
    assert(leading_slash_len(u1) == 1 + leading_slash_len(u1.drop_first())) by {
        assert(u1.len() > 0 && u1[0] == '/');
    }
    assert(u1.drop_first() =~= p);
    assert(trim_leading_slashes(u1) =~= p);

    // The absolute same-site form.
    let u2 = site + seq!['/'] + p;
    assert(site.len() >= 7);
    assert(forall|j: int| 0 <= j < u2.len() ==> !is_stop_char(#[trigger] u2[j]));
    lemma_strip_of_stop_free(u2);
    assert(forall|j: int| 0 <= j < site.len() ==> u2[j] == #[trigger] site[j]);
    assert(u2[0] == site[0]);
    assert(site[0] == 'h') by {
        if has_prefix(site, "http://"@) {
            assert(site.take(7)[0] == 'h');
        } else {
            assert(site.take(8)[0] == 'h');
        }
    }
    if has_prefix(u2, "data:"@) {
        assert(u2.take(5)[0] == 'd');
        assert(false);
    }
    if has_prefix(u2, "blob:"@) {
        assert(u2.take(4)[0] == 'b');
        assert(false);
    }
    if has_prefix(site, "http://"@) {
        assert(u2.take(7) =~= site.take(7));
        assert(has_prefix(u2, "http://"@));
    } else {
        assert(u2.take(8) =~= site.take(8));
        assert(has_prefix(u2, "https://"@));
    }
    assert(u2.take(site.len() as int) =~= site);
    assert(has_prefix(u2, site));
    assert(classify_spec(u2, site) == UrlClass::AbsoluteSameSite);
    assert(u2.skip(site.len() as int) =~= u1);
    assert(normalize_spec(u2, site) == Some(p));
}

/// Out-of-scope URLs are rejected: `normalize_spec` returns `None` for the
/// empty string, for any `data:` or `blob:` URL, and for an absolute URL that
/// does not start with the site base URL once its query and fragment are cut.
pub proof fn lemma_normalize_rejects(url: Seq<char>, site: Seq<char>)
    ensures
        url.len() == 0 ==> normalize_spec(url, site) is None,
        has_prefix(url, "data:"@) ==> normalize_spec(url, site) is None,
        has_prefix(url, "blob:"@) ==> normalize_spec(url, site) is None,
        (has_prefix(url, "http://"@) || has_prefix(url, "https://"@)) && !has_prefix(
            strip_query_fragment(url),
            site,
        ) ==> normalize_spec(url, site) is None,
{
    reveal_strlit("data:");
    reveal_strlit("blob:");
    reveal_strlit("http://");
    reveal_strlit("https://");
    let u = strip_query_fragment(url);
    if url.len() == 0 {
        assert(u.len() == 0) by {
            lemma_stop_free_len_bounds(url);
        }
    }
    if has_prefix(url, "data:"@) {
        assert(forall|j: int| 0 <= j < 5 ==> !is_stop_char("data:"@[j]));
        lemma_strip_preserves_prefix(url, "data:"@);
    }
    if has_prefix(url, "blob:"@) {
        assert(forall|j: int| 0 <= j < 5 ==> !is_stop_char("blob:"@[j]));
        lemma_strip_preserves_prefix(url, "blob:"@);
    }
    if (has_prefix(url, "http://"@) || has_prefix(url, "https://"@)) && !has_prefix(u, site) {
        if has_prefix(url, "http://"@) {
            assert(forall|j: int| 0 <= j < 7 ==> !is_stop_char("http://"@[j]));
            lemma_strip_preserves_prefix(url, "http://"@);
            assert(u[0] == 'h' && u[1] == 't') by {
                assert(u.take(7)[0] == 'h' && u.take(7)[1] == 't');
            }
        } else {
            assert(forall|j: int| 0 <= j < 8 ==> !is_stop_char("https://"@[j]));
            lemma_strip_preserves_prefix(url, "https://"@);
            assert(u[0] == 'h' && u[1] == 't') by {
                assert(u.take(8)[0] == 'h' && u.take(8)[1] == 't');
            }
        }
        if has_prefix(u, "data:"@) {
            assert(u.take(5)[0] == 'd');
            assert(false);
        }
        if has_prefix(u, "blob:"@) {
            assert(u.take(4)[0] == 'b');
            assert(false);
        }
        assert(classify_spec(u, site) == UrlClass::AbsoluteOtherSite);
    }
}

/// Queries and fragments never reach the path logic: normalizing a URL and
/// normalizing that URL with its query and fragment already cut give the same
/// canonical path.
pub proof fn lemma_normalize_ignores_query_fragment(url: Seq<char>, site: Seq<char>)
    ensures
        normalize_spec(url, site) == normalize_spec(strip_query_fragment(url), site),
{
    let u = strip_query_fragment(url);
    lemma_strip_stop_free(url);
    lemma_strip_of_stop_free(u);
}

/// The path of a protocol-relative URL is everything after the host,
/// independent of what the host is: for a host free of `/`, `?` and `#` and a
/// marker-free remainder, `//host/rest` normalizes to `rest` without its
/// leading slashes, whatever the host and the site.
pub proof fn lemma_normalize_protocol_relative(host: Seq<char>, rest: Seq<char>, site: Seq<char>)
    requires
        forall|j: int| 0 <= j < host.len() ==> host[j] != '/' && !is_stop_char(host[j]),
        forall|j: int| 0 <= j < rest.len() ==> !is_stop_char(rest[j]),
    ensures
        normalize_spec("//"@ + host + seq!['/'] + rest, site) == nonempty_or_none(
            trim_leading_slashes(rest),
        ),
{
    reveal_strlit("//");
    reveal_strlit("http://");
    reveal_strlit("https://");
    reveal_strlit("data:");
    reveal_strlit("blob:");
    let u = "//"@ + host + seq!['/'] + rest;
    assert(u.len() == 3 + host.len() + rest.len());
    assert(u[0] == '/' && u[1] == '/');
    assert(forall|j: int| 0 <= j < host.len() ==> u[2 + j] == #[trigger] host[j]);
    assert(u[2 + host.len() as int] == '/');
    assert(forall|j: int| 0 <= j < rest.len() ==> u[3 + host.len() as int + j] == #[trigger] rest[j]);
    assert(forall|j: int| 0 <= j < u.len() ==> !is_stop_char(#[trigger] u[j]));
    lemma_strip_of_stop_free(u);
    if has_prefix(u, "data:"@) {
        assert(u.take(5)[0] == 'd');
        assert(false);
    }
    if has_prefix(u, "blob:"@) {
        assert(u.take(4)[0] == 'b');
        assert(false);
    }
    if has_prefix(u, "http://"@) {
        assert(u.take(7)[0] == 'h');
        assert(false);
    }
    if has_prefix(u, "https://"@) {
        assert(u.take(8)[0] == 'h');
        assert(false);
    }
    assert(u.take(2) =~= "//"@);
    assert(classify_spec(u, site) == UrlClass::ProtocolRelative);
    let r = u.skip(2);
    assert(r =~= host + seq!['/'] + rest);
    lemma_pre_slash_len_is(r, host.len() as int);
    assert(pre_slash_len(r) < r.len());
    assert(r.skip(host.len() as int) =~= seq!['/'] + rest);
    let t = seq!['/'] + rest;
    assert(leading_slash_len(t) == 1 + leading_slash_len(t.drop_first()));
    assert(t.drop_first() =~= rest);
    lemma_trim_props(rest);
    assert(trim_leading_slashes(t) =~= trim_leading_slashes(rest)) by {
        assert(t.skip(1 + leading_slash_len(rest)) =~= rest.skip(leading_slash_len(rest)));
    }
}

/// Normalization is idempotent on its own output: a canonical path that does
/// not itself begin with one of the special scheme prefixes normalizes to
/// itself. (A URL such as `/http://x` or `/data:x` yields a canonical path
/// that starts with a scheme prefix and is re-classified when normalized
/// again; those outputs are excluded here.)
pub proof fn lemma_normalize_idempotent(url: Seq<char>, site: Seq<char>, p: Seq<char>)
    requires
        normalize_spec(url, site) == Some(p),
        !has_prefix(p, "data:"@),
        !has_prefix(p, "blob:"@),
        !has_prefix(p, "http://"@),
        !has_prefix(p, "https://"@),
    ensures
        normalize_spec(p, site) == Some(p),
{
    reveal_strlit("//");
    let u = strip_query_fragment(url);
    lemma_strip_stop_free(url);
    // In every branch that yields `Some`, the path is a trimmed tail of `u`,
    // so it is nonempty, starts with no slash, and is free of `?` and `#`.
    let x = match classify_spec(u, site) {
        UrlClass::AbsoluteSameSite => u.skip(site.len() as int),
        UrlClass::ProtocolRelative => u.skip(2).skip(pre_slash_len(u.skip(2))),
        _ => u,
    };
    assert(p == trim_leading_slashes(x) && p.len() > 0);
    match classify_spec(u, site) {
        UrlClass::AbsoluteSameSite => {
            assert(site.len() <= u.len());
            assert(forall|j: int| 0 <= j < x.len() ==> x[j] == u[site.len() + j]);
        },
        UrlClass::ProtocolRelative => {
            let r = u.skip(2);
            lemma_pre_slash_len_bounds(r);
            let k = pre_slash_len(r);
            assert(forall|j: int| 0 <= j < r.len() ==> r[j] == u[2 + j]);
            assert(forall|j: int| 0 <= j < x.len() ==> x[j] == r[k + j]);
            assert(forall|j: int| 0 <= j < x.len() ==> x[j] == u[2 + k + j]);
        },
        _ => {},
    }
    assert(forall|j: int| 0 <= j < x.len() ==> !is_stop_char(#[trigger] x[j]));
    lemma_trim_props(x);
    assert(forall|j: int| 0 <= j < p.len() ==> !is_stop_char(#[trigger] p[j]));
    assert(p[0] != '/');
    lemma_strip_of_stop_free(p);
    if has_prefix(p, "//"@) {
        assert(p.take(2)[0] == '/');
        assert(false);
    }
    assert(classify_spec(p, site) == UrlClass::Relative);
    lemma_trim_of_no_leading_slash(p);
}

} // verus!
