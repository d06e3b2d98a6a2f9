//! Candidate-URL collection from a rendered page's runtime state.
//!
//! A page's candidates come from three independently-sourced lists: the
//! render engine's network-timing entries, a scan of a fixed set of DOM
//! attributes, and `url(...)` tokens inside inline background styles. The
//! caller reads those raw lists off the rendered page and hands them over as
//! plain strings; this module parses `srcset` values and inline-style text,
//! filters non-fetchable entries, and unions everything into one list of
//! candidate URLs, de-duplicated as raw strings before normalization.

use vstd::prelude::*;

verus! {

use vstd::string::StrSliceExecFns;

use crate::norm::has_prefix;

/// ASCII whitespace, the separator between the URL and the resolution hints
/// of one `srcset` candidate descriptor.
pub open spec fn is_space(c: char) -> bool {
    c == ' ' || c == '\t' || c == '\n' || c == '\r' || c == '\u{c}'
}

/// Index of the first `,` in `s`, or `s.len()` if there is none.
pub open spec fn pre_comma_len(s: Seq<char>) -> int
    decreases s.len(),
{
    if s.len() == 0 {
        0
    } else if s[0] == ',' {
        0
    } else {
        1 + pre_comma_len(s.drop_first())
    }
}

/// Number of leading whitespace characters of `s`.
pub open spec fn space_run_len(s: Seq<char>) -> int
    decreases s.len(),
{
    if s.len() == 0 {
        0
    } else if is_space(s[0]) {
        1 + space_run_len(s.drop_first())
    } else {
        0
    }
}

/// Length of the leading whitespace-free run of `s`.
pub open spec fn word_len(s: Seq<char>) -> int
    decreases s.len(),
{
    if s.len() == 0 {
        0
    } else if is_space(s[0]) {
        0
    } else {
        1 + word_len(s.drop_first())
    }
}

/// The first whitespace-separated word of `p`, possibly empty.
pub open spec fn first_word(p: Seq<char>) -> Seq<char> {
    let t = p.skip(space_run_len(p));
    t.take(word_len(t))
}

/// The URL tokens of a `srcset` attribute value: of each comma-separated
/// candidate descriptor, the first whitespace-separated word — the URL; the
/// resolution hints after it are discarded, and descriptors with no word
/// contribute nothing.
pub open spec fn srcset_urls(s: Seq<char>) -> Seq<Seq<char>>
    decreases s.len(),
{
    let k = pre_comma_len(s);
    let tok = first_word(s.take(k));
    let here = if tok.len() == 0 {
        Seq::<Seq<char>>::empty()
    } else {
        seq![tok]
    };
    if 0 <= k < s.len() {
        here + srcset_urls(s.skip(k + 1))
    } else {
        here
    }
}

pub proof fn lemma_pre_comma_len_is(s: Seq<char>, i: int)
    requires
        0 <= i <= s.len(),
        forall|j: int| 0 <= j < i ==> s[j] != ',',
        i < s.len() ==> s[i] == ',',
    ensures
        pre_comma_len(s) == i,
    decreases s.len(),
{
    if s.len() == 0 {
    } else if i == 0 {
    } else {
        assert(s[0] != ',');
        assert forall|j: int| 0 <= j < i - 1 implies s.drop_first()[j] != ',' by {
            assert(s.drop_first()[j] == s[j + 1]);
        }
        if i - 1 < s.drop_first().len() {
            assert(s.drop_first()[i - 1] == s[i]);
        }
        lemma_pre_comma_len_is(s.drop_first(), i - 1);
    }
}

pub proof fn lemma_space_run_len_is(s: Seq<char>, i: int)
    requires
        0 <= i <= s.len(),
        forall|j: int| 0 <= j < i ==> is_space(s[j]),
        i < s.len() ==> !is_space(s[i]),
    ensures
        space_run_len(s) == i,
    decreases s.len(),
{
    if s.len() == 0 {
    } else if i == 0 {
    } else {
        assert(is_space(s[0]));
        assert forall|j: int| 0 <= j < i - 1 implies is_space(s.drop_first()[j]) by {
            assert(s.drop_first()[j] == s[j + 1]);
        }
        if i - 1 < s.drop_first().len() {
            assert(s.drop_first()[i - 1] == s[i]);
        }
        lemma_space_run_len_is(s.drop_first(), i - 1);
    }
}

pub proof fn lemma_word_len_is(s: Seq<char>, i: int)
    requires
        0 <= i <= s.len(),
        forall|j: int| 0 <= j < i ==> !is_space(s[j]),
        i < s.len() ==> is_space(s[i]),
    ensures
        word_len(s) == i,
    decreases s.len(),
{
    if s.len() == 0 {
    } else if i == 0 {
    } else {
        assert(!is_space(s[0]));
        assert forall|j: int| 0 <= j < i - 1 implies !is_space(s.drop_first()[j]) by {
            assert(s.drop_first()[j] == s[j + 1]);
        }
        if i - 1 < s.drop_first().len() {
            assert(s.drop_first()[i - 1] == s[i]);
        }
        lemma_word_len_is(s.drop_first(), i - 1);
    }
}

/// Whether `c` is ASCII whitespace.
fn is_space_char(c: char) -> (r: bool)
    ensures
        r == is_space(c),
{
    c == ' ' || c == '\t' || c == '\n' || c == '\r' || c == '\u{c}'
}

/// Index of the first `,` in `s`, or its length if there is none.
fn scan_pre_comma(s: &str) -> (r: usize)
    ensures
        r == pre_comma_len(s@),
        r <= s@.len(),
{
    let n = s.unicode_len();
    let mut i: usize = 0;
    while i < n
        invariant
            i <= n,
            n == s@.len(),
            forall|j: int| 0 <= j < i ==> s@[j] != ',',
        decreases n - i,
    {
        if s.get_char(i) == ',' {
            proof {
                lemma_pre_comma_len_is(s@, i as int);
            }
            return i;
        }
        i += 1;
    }
    proof {
        lemma_pre_comma_len_is(s@, n as int);
    }
    n
}

/// Number of leading whitespace characters of `s`.
fn scan_space_run(s: &str) -> (r: usize)
    ensures
        r == space_run_len(s@),
        r <= s@.len(),
{
    let n = s.unicode_len();
    let mut i: usize = 0;
    while i < n
        invariant
            i <= n,
            n == s@.len(),
            forall|j: int| 0 <= j < i ==> is_space(s@[j]),
        decreases n - i,
    {
        if !is_space_char(s.get_char(i)) {
            proof {
                lemma_space_run_len_is(s@, i as int);
            }
            return i;
        }
        i += 1;
    }
    proof {
        lemma_space_run_len_is(s@, n as int);
    }
    n
}

/// Length of the leading whitespace-free run of `s`.
fn scan_word(s: &str) -> (r: usize)
    ensures
        r == word_len(s@),
        r <= s@.len(),
{
    let n = s.unicode_len();
    let mut i: usize = 0;
    while i < n
        invariant
            i <= n,
            n == s@.len(),
            forall|j: int| 0 <= j < i ==> !is_space(s@[j]),
        decreases n - i,
    {
        if is_space_char(s.get_char(i)) {
            proof {
                lemma_word_len_is(s@, i as int);
            }
            return i;
        }
        i += 1;
    }
    proof {
        lemma_word_len_is(s@, n as int);
    }
    n
}

fn srcset_into(s: &str, out: &mut Vec<String>)
    ensures
        final(out).deep_view() == old(out).deep_view() + srcset_urls(s@),
    decreases s@.len(),
{
    let ghost before = out.deep_view();
    let n = s.unicode_len();
    let k = scan_pre_comma(s);
    let part = s.substring_char(0, k);
    proof {
        assert(part@ =~= s@.take(pre_comma_len(s@)));
    }
    let w = scan_space_run(part);
    let rest = part.substring_char(w, part.unicode_len());
    proof {
        assert(rest@ =~= part@.skip(space_run_len(part@)));
    }
    let t = scan_word(rest);
    let ghost here = if first_word(part@).len() == 0 {
        Seq::<Seq<char>>::empty()
    } else {
        seq![first_word(part@)]
    };
    if t > 0 {
        let tok = rest.substring_char(0, t);
        proof {
            assert(tok@ =~= first_word(part@));
        }
        out.push(tok.to_owned());
        proof {
            assert(out.deep_view() =~= before + here);
        }
    } else {
        proof {
            assert(first_word(part@).len() == 0);
            assert(out.deep_view() =~= before + here);
        }
    }
    if k < n {
        let tail = s.substring_char(k + 1, n);
        proof {
            assert(tail@ =~= s@.skip(pre_comma_len(s@) + 1));
        }
        srcset_into(tail, out);
        proof {
            assert((before + here) + srcset_urls(tail@) =~= before + (here + srcset_urls(tail@)));
        }
    }
}

/// The URL tokens of a `srcset` attribute value, in order: of each
/// comma-separated candidate descriptor, the URL before the first whitespace.
pub fn parse_srcset(value: &str) -> (urls: Vec<String>)
    ensures
        urls.deep_view() == srcset_urls(value@),
{
    let mut urls: Vec<String> = Vec::new();
    proof {
        assert(urls.deep_view() =~= Seq::<Seq<char>>::empty());
    }
    srcset_into(value, &mut urls);
    proof {
        assert(Seq::<Seq<char>>::empty() + srcset_urls(value@) =~= srcset_urls(value@));
    }
    urls
}

/// A single or double quote, optionally wrapping a `url(...)` argument.
pub open spec fn is_quote(c: char) -> bool {
    c == '\'' || c == '"'
}

/// A character that can stand inside a `url(...)` token: anything but a
/// quote, a closing parenthesis or whitespace.
pub open spec fn is_css_token_char(c: char) -> bool {
    !is_quote(c) && c != ')' && !is_space(c)
}

/// Length of the leading run of `url(...)`-token characters of `s`.
pub open spec fn css_token_len(s: Seq<char>) -> int
    decreases s.len(),
{
    if s.len() == 0 {
        0
    } else if is_css_token_char(s[0]) {
        1 + css_token_len(s.drop_first())
    } else {
        0
    }
}

pub proof fn lemma_css_token_len_is(s: Seq<char>, i: int)
    requires
        0 <= i <= s.len(),
        forall|j: int| 0 <= j < i ==> is_css_token_char(s[j]),
        i < s.len() ==> !is_css_token_char(s[i]),
    ensures
        css_token_len(s) == i,
    decreases s.len(),
{
    if s.len() == 0 {
    } else if i == 0 {
    } else {
        assert(is_css_token_char(s[0]));
        assert forall|j: int| 0 <= j < i - 1 implies is_css_token_char(s.drop_first()[j]) by {
            assert(s.drop_first()[j] == s[j + 1]);
        }
        if i - 1 < s.drop_first().len() {
            assert(s.drop_first()[i - 1] == s[i]);
        }
        lemma_css_token_len_is(s.drop_first(), i - 1);
    }
}

/// The `url(...)` argument that starts right after an occurrence of `url(`,
/// if the text `r` there is an optionally quoted nonempty token followed by
/// its closing parenthesis: the token, and how many characters of `r` the
/// rest of the occurrence takes.
pub open spec fn css_match_after(r: Seq<char>) -> Option<(Seq<char>, int)> {
    let q: int = if r.len() > 0 && is_quote(r[0]) {
        1
    } else {
        0
    };
    let t = r.skip(q);
    let n = css_token_len(t);
    if n == 0 {
        None
    } else if n < t.len() && t[n] == ')' {
        Some((t.take(n), q + n + 1))
    } else if n + 1 < t.len() && is_quote(t[n]) && t[n + 1] == ')' {
        Some((t.take(n), q + n + 2))
    } else {
        None
    }
}

/// The URL tokens found inside `url(...)` occurrences of the inline style
/// text `s`, scanning left to right past each complete occurrence, with
/// `data:` URIs skipped.
pub open spec fn css_urls(s: Seq<char>) -> Seq<Seq<char>>
    decreases s.len(),
{
    if s.len() == 0 {
        Seq::<Seq<char>>::empty()
    } else if has_prefix(s, "url("@) && css_match_after(s.skip(4)) is Some && 4 + css_match_after(
        s.skip(4),
    )->Some_0.1 <= s.len() && css_match_after(s.skip(4))->Some_0.1 >= 0 {
        let m = css_match_after(s.skip(4))->Some_0;
        let rest = css_urls(s.skip(4 + m.1));
        if has_prefix(m.0, "data:"@) {
            rest
        } else {
            seq![m.0] + rest
        }
    } else {
        css_urls(s.drop_first())
    }
}

/// Whether `c` is a single or double quote.
fn is_quote_char(c: char) -> (r: bool)
    ensures
        r == is_quote(c),
{
    c == '\'' || c == '"'
}

/// Length of the leading run of `url(...)`-token characters of `s`.
fn scan_css_token(s: &str) -> (r: usize)
    ensures
        r == css_token_len(s@),
        r <= s@.len(),
{
    let n = s.unicode_len();
    let mut i: usize = 0;
    while i < n
        invariant
            i <= n,
            n == s@.len(),
            forall|j: int| 0 <= j < i ==> is_css_token_char(s@[j]),
        decreases n - i,
    {
        let c = s.get_char(i);
        if is_quote_char(c) || c == ')' || is_space_char(c) {
            proof {
                lemma_css_token_len_is(s@, i as int);
            }
            return i;
        }
        i += 1;
    }
    proof {
        lemma_css_token_len_is(s@, n as int);
    }
    n
}

fn css_into(s: &str, out: &mut Vec<String>)
    ensures
        final(out).deep_view() == old(out).deep_view() + css_urls(s@),
    decreases s@.len(),
{
    let ghost before = out.deep_view();
    let n = s.unicode_len();
    if n == 0 {
        proof {
            assert(before + css_urls(s@) =~= before);
        }
        return ;
    }
    if crate::norm::str_has_prefix(s, "url(") {
        proof {
            reveal_strlit("url(");
        }
        let r = s.substring_char(4, n);
        proof {
            assert(r@ =~= s@.skip(4));
        }
        let rn = r.unicode_len();
        let q: usize = if rn > 0 && is_quote_char(r.get_char(0)) {
            1
        } else {
            0
        };
        let t = r.substring_char(q, rn);
        proof {
            assert(t@ =~= r@.skip(q as int));
        }
        let tn = t.unicode_len();
        let tokn = scan_css_token(t);
        let mut matched = false;
        let mut consumed: usize = 0;
        if tokn > 0 {
            if tokn < tn && t.get_char(tokn) == ')' {
                matched = true;
                consumed = q + tokn + 1;
            } else if tokn + 1 < tn && is_quote_char(t.get_char(tokn)) && t.get_char(tokn + 1)
                == ')' {
                matched = true;
                consumed = q + tokn + 2;
            }
        }
        if matched {
            proof {
                assert(css_match_after(r@) == Some((t@.take(tokn as int), consumed as int)));
                assert(consumed <= rn);
            }
            let tok = t.substring_char(0, tokn);
            let ghost here = if has_prefix(tok@, "data:"@) {
                Seq::<Seq<char>>::empty()
            } else {
                seq![tok@]
            };
            if !crate::norm::str_has_prefix(tok, "data:") {
                out.push(tok.to_owned());
            }
            proof {
                assert(out.deep_view() =~= before + here);
            }
            let tail = s.substring_char(4 + consumed, n);
            proof {
                assert(tail@ =~= s@.skip(4 + consumed as int));
            }
            css_into(tail, out);
            proof {
                assert((before + here) + css_urls(tail@) =~= before + (here + css_urls(tail@)));
                assert(css_urls(s@) == here + css_urls(tail@));
            }
        } else {
            proof {
                assert(css_match_after(r@) is None);
            }
            let tail = s.substring_char(1, n);
            proof {
                assert(tail@ =~= s@.drop_first());
            }
            css_into(tail, out);
        }
    } else {
        let tail = s.substring_char(1, n);
        proof {
            assert(tail@ =~= s@.drop_first());
        }
        css_into(tail, out);
    }
}

/// The URL tokens inside the `url(...)` occurrences of an inline style text,
/// in order, with `data:` URIs skipped.
pub fn extract_css_urls(style: &str) -> (urls: Vec<String>)
    ensures
        urls.deep_view() == css_urls(style@),
{
    let mut urls: Vec<String> = Vec::new();
    proof {
        assert(urls.deep_view() =~= Seq::<Seq<char>>::empty());
    }
    css_into(style, &mut urls);
    proof {
        assert(Seq::<Seq<char>>::empty() + css_urls(style@) =~= css_urls(style@));
    }
    urls
}

/// A network-timing entry is kept as a candidate unless it is inline
/// (`data:`) or session-local (`blob:`) content.
pub open spec fn fetchable_entry(u: Seq<char>) -> bool {
    !has_prefix(u, "data:"@) && !has_prefix(u, "blob:"@)
}

/// The candidate URLs contributed by the network-timing entries.
pub open spec fn perf_url_set(perf: Seq<Seq<char>>) -> Set<Seq<char>>
    decreases perf.len(),
{
    if perf.len() == 0 {
        Set::<Seq<char>>::empty()
    } else {
        (if fetchable_entry(perf[0]) {
            set![perf[0]]
        } else {
            Set::<Seq<char>>::empty()
        }) + perf_url_set(perf.drop_first())
    }
}

/// One scanned DOM attribute value: either a plain URL-valued attribute
/// (`src`, `href`, `poster`, ...) or a `srcset`, whose comma-separated
/// candidate descriptors each carry a URL of their own.
pub enum AttrValue {
    Plain(String),
    Srcset(String),
}

impl AttrValue {
    /// The candidate URLs one scanned attribute value contributes.
    pub open spec fn urls(&self) -> Seq<Seq<char>> {
        match self {
            AttrValue::Plain(s) => seq![s@],
            AttrValue::Srcset(s) => srcset_urls(s@),
        }
    }
}

/// The candidate URLs contributed by the DOM attribute scan.
pub open spec fn dom_url_set(dom: Seq<AttrValue>) -> Set<Seq<char>>
    decreases dom.len(),
{
    if dom.len() == 0 {
        Set::<Seq<char>>::empty()
    } else {
        dom[0].urls().to_set() + dom_url_set(dom.drop_first())
    }
}

/// The candidate URLs contributed by the inline-style background scan.
pub open spec fn style_url_set(styles: Seq<Seq<char>>) -> Set<Seq<char>>
    decreases styles.len(),
{
    if styles.len() == 0 {
        Set::<Seq<char>>::empty()
    } else {
        css_urls(styles[0]).to_set() + style_url_set(styles.drop_first())
    }
}

/// A page's whole candidate set: the union of the three sources.
pub open spec fn candidate_set(
    perf: Seq<Seq<char>>,
    dom: Seq<AttrValue>,
    styles: Seq<Seq<char>>,
) -> Set<Seq<char>> {
    perf_url_set(perf) + dom_url_set(dom) + style_url_set(styles)
}

proof fn lemma_to_set_step(xs: Seq<Seq<char>>, j: int)
    requires
        0 <= j < xs.len(),
    ensures
        xs.skip(j).to_set() == set![xs[j]] + xs.skip(j + 1).to_set(),
{
    let lhs = xs.skip(j).to_set();
    let rhs = set![xs[j]] + xs.skip(j + 1).to_set();
    assert forall|e: Seq<char>| lhs.contains(e) implies rhs.contains(e) by {
        let k = choose|k: int| 0 <= k < xs.skip(j).len() && xs.skip(j)[k] == e;
        if k > 0 {
            assert(xs.skip(j + 1)[k - 1] == e);
            assert(xs.skip(j + 1).contains(e));
        }
    }
    assert forall|e: Seq<char>| rhs.contains(e) implies lhs.contains(e) by {
        if e == xs[j] {
            assert(xs.skip(j)[0] == e);
        } else {
            let tail = xs.skip(j + 1);
            let k = choose|k: int| 0 <= k < tail.len() && tail[k] == e;
            assert(xs.skip(j)[k + 1] == e);
        }
    }
    assert(lhs =~= rhs);
}

/// Appends `url` unless an equal string is already present.
fn push_unique(out: &mut Vec<String>, url: String)
    requires
        old(out).deep_view().no_duplicates(),
    ensures
        final(out).deep_view().no_duplicates(),
        final(out).deep_view().to_set() == old(out).deep_view().to_set().insert(url@),
{
    let n = out.len();
    let mut i: usize = 0;
    while i < n
        invariant
            i <= n,
            n == out.len(),
            *out == *old(out),
            old(out).deep_view().no_duplicates(),
            forall|j: int| 0 <= j < i ==> out.deep_view()[j] != url@,
        decreases n - i,
    {
        if out[i] == url {
            proof {
                assert(out.deep_view()[i as int] == url@);
                assert(out.deep_view().contains(url@));
                assert(old(out).deep_view().to_set().insert(url@) =~= old(
                    out,
                ).deep_view().to_set());
            }
            return ;
        }
        i += 1;
    }
    proof {
        assert forall|j: int| 0 <= j < out.deep_view().len() implies out.deep_view()[j] != url@ by {
        }
        assert(!out.deep_view().contains(url@));
    }
    let ghost before = out.deep_view();
    out.push(url);
    proof {
        assert(out.deep_view() =~= before.push(url@));
        assert(out.deep_view().no_duplicates());
        assert forall|e: Seq<char>|
            out.deep_view().to_set().contains(e) <==> before.to_set().insert(url@).contains(e) by {
            if out.deep_view().to_set().contains(e) {
                let k = choose|k: int|
                    0 <= k < out.deep_view().len() && out.deep_view()[k] == e;
                if k < before.len() {
                    assert(before[k] == e);
                }
            }
            if before.to_set().contains(e) {
                let k = choose|k: int| 0 <= k < before.len() && before[k] == e;
                assert(out.deep_view()[k] == e);
            }
            if e == url@ {
                assert(out.deep_view()[before.len() as int] == e);
            }
        }
        assert(out.deep_view().to_set() =~= before.to_set().insert(url@));
    }
}

/// Appends every item of `items` that is not yet present.
fn push_all_unique(out: &mut Vec<String>, items: &Vec<String>)
    requires
        old(out).deep_view().no_duplicates(),
    ensures
        final(out).deep_view().no_duplicates(),
        final(out).deep_view().to_set() == old(out).deep_view().to_set()
            + items.deep_view().to_set(),
{
    let ghost ivs = items.deep_view();
    let ghost base = old(out).deep_view().to_set();
    let mut j: usize = 0;
    proof {
        assert(ivs.skip(0) =~= ivs);
    }
    while j < items.len()
        invariant
            j <= items.len(),
            ivs == items.deep_view(),
            ivs.len() == items.len(),
            out.deep_view().no_duplicates(),
            out.deep_view().to_set() + ivs.skip(j as int).to_set() == base + ivs.to_set(),
        decreases items.len() - j,
    {
        let ghost pre = out.deep_view().to_set();
        proof {
            lemma_to_set_step(ivs, j as int);
            assert(items[j as int]@ == ivs[j as int]);
        }
        push_unique(out, items[j].clone());
        proof {
            assert(out.deep_view().to_set() + ivs.skip(j as int + 1).to_set() =~= pre + ivs.skip(
                j as int,
            ).to_set());
        }
        j += 1;
    }
    proof {
        assert(ivs.skip(items.len() as int) =~= Seq::<Seq<char>>::empty());
        assert(Seq::<Seq<char>>::empty().to_set() =~= Set::<Seq<char>>::empty());
        assert(out.deep_view().to_set() + Set::<Seq<char>>::empty() =~= out.deep_view().to_set());
    }
}

/// Gathers one page's candidate URLs from the three sources — network-timing
/// entries, scanned DOM attribute values, and inline background style texts —
/// de-duplicated as raw strings: the result lists each URL of the union
/// exactly once. Non-fetchable (`data:`, `blob:`) timing entries are dropped,
/// `srcset` values contribute the URL of each of their candidate descriptors,
/// and style texts contribute the arguments of their `url(...)` tokens.
pub fn collect_candidates(
    perf: &Vec<String>,
    dom: &Vec<AttrValue>,
    styles: &Vec<String>,
) -> (urls: Vec<String>)
    ensures
        urls.deep_view().no_duplicates(),
        urls.deep_view().to_set() == candidate_set(perf.deep_view(), dom@, styles.deep_view()),
{
    let ghost pviews = perf.deep_view();
    let ghost sviews = styles.deep_view();
    let ghost total = candidate_set(perf.deep_view(), dom@, styles.deep_view());
    let mut out: Vec<String> = Vec::new();
    proof {
        assert(out.deep_view() =~= Seq::<Seq<char>>::empty());
        assert(out.deep_view().to_set() =~= Set::<Seq<char>>::empty());
        assert(pviews.skip(0) =~= pviews);
    }

    let mut i: usize = 0;
    while i < perf.len()
        invariant
            i <= perf.len(),
            pviews == perf.deep_view(),
            pviews.len() == perf.len(),
            out.deep_view().no_duplicates(),
            out.deep_view().to_set() + perf_url_set(pviews.skip(i as int)) == perf_url_set(pviews),
        decreases perf.len() - i,
    {
        let ghost pre = out.deep_view().to_set();
        proof {
            assert(pviews.skip(i as int)[0] == pviews[i as int]);
            assert(pviews.skip(i as int).drop_first() =~= pviews.skip(i as int + 1));
            assert(perf[i as int]@ == pviews[i as int]);
        }
        let u = &perf[i];
        if !crate::norm::str_has_prefix(u.as_str(), "data:") && !crate::norm::str_has_prefix(
            u.as_str(),
            "blob:",
        ) {
            push_unique(&mut out, u.clone());
            proof {
                assert(out.deep_view().to_set() + perf_url_set(pviews.skip(i as int + 1)) =~= pre
                    + perf_url_set(pviews.skip(i as int)));
            }
        } else {
            proof {
                assert(perf_url_set(pviews.skip(i as int)) =~= Set::<Seq<char>>::empty()
                    + perf_url_set(pviews.skip(i as int + 1)));
            }
        }
        i += 1;
    }
    proof {
        assert(pviews.skip(perf.len() as int) =~= Seq::<Seq<char>>::empty());
        assert(out.deep_view().to_set() + Set::<Seq<char>>::empty() =~= out.deep_view().to_set());
        assert(out.deep_view().to_set() == perf_url_set(pviews));
        assert(dom@.skip(0) =~= dom@);
    }

    let mut d: usize = 0;
    while d < dom.len()
        invariant
            d <= dom.len(),
            pviews == perf.deep_view(),
            out.deep_view().no_duplicates(),
            out.deep_view().to_set() + dom_url_set(dom@.skip(d as int)) == perf_url_set(pviews)
                + dom_url_set(dom@),
        decreases dom.len() - d,
    {
        let ghost pre = out.deep_view().to_set();
        proof {
            assert(dom@.skip(d as int)[0] == dom@[d as int]);
            assert(dom@.skip(d as int).drop_first() =~= dom@.skip(d as int + 1));
        }
        match &dom[d] {
            AttrValue::Plain(s) => {
                push_unique(&mut out, s.clone());
                proof {
                    assert(dom@[d as int].urls() == seq![s@]);
                    assert forall|e: Seq<char>|
                        seq![s@].to_set().contains(e) <==> e == s@ by {
                        if seq![s@].contains(e) {
                            let k = choose|k: int| 0 <= k < 1 && seq![s@][k] == e;
                            assert(seq![s@][0] == e);
                        }
                        if e == s@ {
                            assert(seq![s@][0] == e);
                        }
                    }
                    assert(seq![s@].to_set() =~= set![s@]);
                    assert(out.deep_view().to_set() + dom_url_set(dom@.skip(d as int + 1)) =~= pre
                        + dom_url_set(dom@.skip(d as int)));
                }
            },
            AttrValue::Srcset(s) => {
                let toks = parse_srcset(s.as_str());
                push_all_unique(&mut out, &toks);
                proof {
                    assert(dom@[d as int].urls() == srcset_urls(s@));
                    assert(toks.deep_view().to_set() == dom@[d as int].urls().to_set());
                    assert(out.deep_view().to_set() + dom_url_set(dom@.skip(d as int + 1)) =~= pre
                        + dom_url_set(dom@.skip(d as int)));
                }
            },
        }
        d += 1;
    }
    proof {
        assert(dom@.skip(dom.len() as int) =~= Seq::<AttrValue>::empty());
        assert(out.deep_view().to_set() + Set::<Seq<char>>::empty() =~= out.deep_view().to_set());
        assert(out.deep_view().to_set() == perf_url_set(pviews) + dom_url_set(dom@));
        assert(sviews.skip(0) =~= sviews);
    }

    let mut t: usize = 0;
    while t < styles.len()
        invariant
            t <= styles.len(),
            pviews == perf.deep_view(),
            sviews == styles.deep_view(),
            sviews.len() == styles.len(),
            out.deep_view().no_duplicates(),
            out.deep_view().to_set() + style_url_set(sviews.skip(t as int)) == perf_url_set(pviews)
                + dom_url_set(dom@) + style_url_set(sviews),
        decreases styles.len() - t,
    {
        let ghost pre = out.deep_view().to_set();
        proof {
            assert(sviews.skip(t as int)[0] == sviews[t as int]);
            assert(sviews.skip(t as int).drop_first() =~= sviews.skip(t as int + 1));
            assert(styles[t as int]@ == sviews[t as int]);
        }
        let found = extract_css_urls(styles[t].as_str());
        push_all_unique(&mut out, &found);
        proof {
            assert(found.deep_view().to_set() == css_urls(sviews[t as int]).to_set());
            assert(out.deep_view().to_set() + style_url_set(sviews.skip(t as int + 1)) =~= pre
                + style_url_set(sviews.skip(t as int)));
        }
        t += 1;
    }
    proof {
        assert(sviews.skip(styles.len() as int) =~= Seq::<Seq<char>>::empty());
        assert(out.deep_view().to_set() + Set::<Seq<char>>::empty() =~= out.deep_view().to_set());
        assert(out.deep_view().to_set() == total);
    }
    out
}

} // verus!
