//! The per-session fetch pipeline: resolving a fetchable absolute URL for a
//! candidate, claiming its canonical path in the dedup registry, and planning
//! the page-by-page downloads.
//!
//! The session owns the registry and decides, for each candidate URL, whether
//! a download is due; performing the network fetch and writing the bytes is
//! the caller's job, carried out on the returned plans. A claim stands whether
//! or not the fetch then succeeds, so a failed fetch is not retried within the
//! session.

use vstd::prelude::*;

verus! {

use vstd::string::StrSliceExecFns;
use vstd::string::StringExecFns;

use crate::norm::has_prefix;
use crate::norm::normalize_spec;
use crate::norm::normalize_url_path;
use crate::norm::scan_leading_slashes;
use crate::norm::trim_leading_slashes;
use crate::registry::DedupRegistry;

/// The absolute URL that a candidate is fetched from: a URL that already
/// carries a scheme is used as it stands, a protocol-relative URL is pinned
/// to `https:`, and anything else is joined onto the site base URL.
pub open spec fn resolve_spec(url: Seq<char>, site: Seq<char>) -> Seq<char> {
    if has_prefix(url, "http"@) {
        url
    } else if has_prefix(url, "//"@) {
        "https://"@ + url.skip(2)
    } else {
        site + "/"@ + trim_leading_slashes(url)
    }
}

/// Builds the absolute URL that `url` is fetched from, against the site base
/// URL `website`.
pub fn resolve_fetch_url(url: &str, website: &str) -> (r: String)
    ensures
        r@ == resolve_spec(url@, website@),
{
    if crate::norm::str_has_prefix(url, "http") {
        url.to_owned()
    } else if crate::norm::str_has_prefix(url, "//") {
        proof {
            reveal_strlit("//");
        }
        let rest = url.substring_char(2, url.unicode_len());
        let mut out = String::from_str("https://");
        out.append(rest);
        proof {
            assert(rest@ =~= url@.skip(2));
        }
        out
    } else {
        let mut out = website.to_owned();
        out.append("/");
        let k = scan_leading_slashes(url);
        let t = url.substring_char(k, url.unicode_len());
        out.append(t);
        proof {
            assert(t@ =~= trim_leading_slashes(url@));
            assert(out@ =~= website@ + "/"@ + trim_leading_slashes(url@));
        }
        out
    }
}

/// Everything the caller needs to materialize one asset: the canonical local
/// path to write, and the absolute URL to fetch the bytes from.
pub struct FetchPlan {
    pub local_path: String,
    pub full_url: String,
}

/// One fetch decision against the claimed set `s`: the claimed set afterwards,
/// and the canonical path to download now, if any. A URL out of scope plans
/// nothing and claims nothing; a URL whose path is already claimed plans
/// nothing; otherwise the path is claimed and planned.
pub open spec fn fetch_decision(s: Set<Seq<char>>, url: Seq<char>, site: Seq<char>) -> (
    Set<Seq<char>>,
    Option<Seq<char>>,
) {
    match normalize_spec(url, site) {
        None => (s, None),
        Some(p) => (
            s.insert(p),
            if s.contains(p) {
                None
            } else {
                Some(p)
            },
        ),
    }
}

/// The claimed set after deciding every URL of `urls` in order, starting
/// from `s`.
pub open spec fn claims_after(s: Set<Seq<char>>, urls: Seq<Seq<char>>, site: Seq<char>) -> Set<
    Seq<char>,
>
    decreases urls.len(),
{
    if urls.len() == 0 {
        s
    } else {
        claims_after(fetch_decision(s, urls[0], site).0, urls.drop_first(), site)
    }
}

/// The downloads planned while deciding every URL of `urls` in order,
/// starting from `s`: for each winning claim, its canonical local path and
/// the absolute URL it is fetched from.
pub open spec fn plans_of(s: Set<Seq<char>>, urls: Seq<Seq<char>>, site: Seq<char>) -> Seq<
    (Seq<char>, Seq<char>),
>
    decreases urls.len(),
{
    if urls.len() == 0 {
        Seq::empty()
    } else {
        let d = fetch_decision(s, urls[0], site);
        let rest = plans_of(d.0, urls.drop_first(), site);
        match d.1 {
            Some(p) => seq![(p, resolve_spec(urls[0], site))] + rest,
            None => rest,
        }
    }
}

/// One scraping session: the site being mirrored and the registry of paths
/// claimed so far. Pages are planned one after another against the same
/// registry, so an asset shared by several pages is downloaded for the first
/// page that names it and skipped for every later one.
pub struct MirrorSession {
    website: String,
    registry: DedupRegistry,
}

impl MirrorSession {
    /// The site base URL the session mirrors.
    pub closed spec fn site(&self) -> Seq<char> {
        self.website@
    }

    /// The canonical paths claimed so far this session.
    pub closed spec fn claimed(&self) -> Set<Seq<char>> {
        self.registry@
    }

    pub closed spec fn inv(&self) -> bool {
        self.registry.inv()
    }

    /// A fresh session for `website`, with nothing claimed yet.
    pub fn new(website: String) -> (r: MirrorSession)
        ensures
            r.inv(),
            r.site() == website@,
            r.claimed() == Set::<Seq<char>>::empty(),
    {
        MirrorSession { website, registry: DedupRegistry::new() }
    }

    /// Decides one candidate URL: normalizes it, claims its canonical path,
    /// and returns the fetch plan if this call won the claim. The claim is
    /// made before any fetch, so no two plans for the same path are ever
    /// handed out, and it stands even if the caller's fetch then fails.
    pub fn begin_download(&mut self, url: &str) -> (r: Option<FetchPlan>)
        requires
            old(self).inv(),
        ensures
            final(self).inv(),
            final(self).site() == old(self).site(),
            final(self).claimed() == fetch_decision(old(self).claimed(), url@, old(self).site()).0,
            match r {
                Some(plan) => fetch_decision(old(self).claimed(), url@, old(self).site()).1
                    == Some(plan.local_path@) && plan.full_url@ == resolve_spec(
                    url@,
                    old(self).site(),
                ),
                None => fetch_decision(old(self).claimed(), url@, old(self).site()).1 is None,
            },
    {
        match normalize_url_path(url, self.website.as_str()) {
            None => None,
            Some(p) => {
                let claimed = self.registry.try_claim(p.clone());
                if claimed {
                    let full_url = resolve_fetch_url(url, self.website.as_str());
                    Some(FetchPlan { local_path: p, full_url: full_url })
                } else {
                    None
                }
            },
        }
    }

    /// Decides a whole page's candidate set in order and returns the plans of
    /// the winning claims: one plan per newly claimed canonical path.
    pub fn plan_page(&mut self, candidates: &Vec<String>) -> (plans: Vec<FetchPlan>)
        requires
            old(self).inv(),
        ensures
            final(self).inv(),
            final(self).site() == old(self).site(),
            final(self).claimed() == claims_after(
                old(self).claimed(),
                candidates.deep_view(),
                old(self).site(),
            ),
            plans@.map_values(|pl: FetchPlan| (pl.local_path@, pl.full_url@)) == plans_of(
                old(self).claimed(),
                candidates.deep_view(),
                old(self).site(),
            ),
    {
        let ghost urls = candidates.deep_view();
        let ghost site = old(self).site();
        let ghost s0 = old(self).claimed();
        let mut plans: Vec<FetchPlan> = Vec::new();
        let mut i: usize = 0;
        proof {
            assert(urls.skip(0) =~= urls);
            assert(plans@.map_values(|pl: FetchPlan| (pl.local_path@, pl.full_url@)) =~= Seq::<(
                Seq<char>,
                Seq<char>,
            )>::empty());
        }
        while i < candidates.len()
            invariant
                i <= candidates.len(),
                urls == candidates.deep_view(),
                urls.len() == candidates.len(),
                self.inv(),
                self.site() == site,
                claims_after(self.claimed(), urls.skip(i as int), site) == claims_after(
                    s0,
                    urls,
                    site,
                ),
                plans@.map_values(|pl: FetchPlan| (pl.local_path@, pl.full_url@)) + plans_of(
                    self.claimed(),
                    urls.skip(i as int),
                    site,
                ) == plans_of(s0, urls, site),
            decreases candidates.len() - i,
        {
            let ghost pre = self.claimed();
            let ghost pre_plans = plans@.map_values(|pl: FetchPlan| (pl.local_path@, pl.full_url@));
            proof {
                assert(urls.skip(i as int).len() > 0);
                assert(urls.skip(i as int)[0] == urls[i as int]);
                assert(urls.skip(i as int).drop_first() =~= urls.skip(i as int + 1));
                assert(candidates[i as int].deep_view() == urls[i as int]);
            }
            let plan = self.begin_download(candidates[i].as_str());
            match plan {
                Some(pl) => {
                    proof {
                        assert(fetch_decision(pre, urls[i as int], site).1 == Some(
                            pl.local_path@,
                        ));
                    }
                    let ghost plv = (pl.local_path@, pl.full_url@);
                    plans.push(pl);
                    proof {
                        assert(plans@.map_values(|pl: FetchPlan| (pl.local_path@, pl.full_url@))
                            =~= pre_plans.push(plv));
                        assert(pre_plans + plans_of(pre, urls.skip(i as int), site) == plans_of(
                            s0,
                            urls,
                            site,
                        ));
                        assert(plans_of(pre, urls.skip(i as int), site) == seq![plv] + plans_of(
                            self.claimed(),
                            urls.skip(i as int + 1),
                            site,
                        ));
                        assert(pre_plans.push(plv) + plans_of(
                            self.claimed(),
                            urls.skip(i as int + 1),
                            site,
                        ) =~= pre_plans + (seq![plv] + plans_of(
                            self.claimed(),
                            urls.skip(i as int + 1),
                            site,
                        )));
                    }
                },
                None => {
                    proof {
                        assert(plans_of(pre, urls.skip(i as int), site) == plans_of(
                            self.claimed(),
                            urls.skip(i as int + 1),
                            site,
                        ));
                    }
                },
            }
            i += 1;
        }
        proof {
            assert(urls.skip(candidates.len() as int) =~= Seq::<Seq<char>>::empty());
            assert(plans@.map_values(|pl: FetchPlan| (pl.local_path@, pl.full_url@)) + Seq::<(
                Seq<char>,
                Seq<char>,
            )>::empty() =~= plans@.map_values(|pl: FetchPlan| (pl.local_path@, pl.full_url@)));
        }
        plans
    }

    /// How many distinct assets have been downloaded (claimed) this session:
    /// the registry's final size is the session's reported total.
    pub fn total_assets(&self) -> (n: usize)
        requires
            self.inv(),
        ensures
            n == self.claimed().len(),
    {
        self.registry.len()
    }
}

/// Fetching the same asset twice within one session downloads it at most
/// once: once a fetch of `u1` has claimed its canonical path, a later fetch
/// of any URL with the same canonical path — in particular of `u1` itself,
/// referenced again from another page — plans no download.
pub proof fn lemma_second_fetch_plans_nothing(
    s: Set<Seq<char>>,
    u1: Seq<char>,
    u2: Seq<char>,
    site: Seq<char>,
)
    requires
        normalize_spec(u1, site) is Some,
        normalize_spec(u2, site) == normalize_spec(u1, site),
    ensures
        fetch_decision(fetch_decision(s, u1, site).0, u2, site).1 is None,
{
    let p = normalize_spec(u1, site)->Some_0;
    assert(fetch_decision(s, u1, site).0.contains(p));
}

/// No canonical path is ever planned twice: the plans of one planning run
/// name pairwise distinct local paths, and never a path that was already
/// claimed when the run began. Together with `claims_after` this is the
/// at-most-once download guarantee across pages: every path a session plans
/// is planned in exactly one run, once.
pub proof fn lemma_plans_distinct(s: Set<Seq<char>>, urls: Seq<Seq<char>>, site: Seq<char>)
    ensures
        plans_of(s, urls, site).map_values(|pr: (Seq<char>, Seq<char>)| pr.0).no_duplicates(),
        forall|k: int|
            0 <= k < plans_of(s, urls, site).len() ==> !s.contains(
                #[trigger] plans_of(s, urls, site)[k].0,
            ),
    decreases urls.len(),
{
    let paths = plans_of(s, urls, site).map_values(|pr: (Seq<char>, Seq<char>)| pr.0);
    if urls.len() == 0 {
        assert(paths =~= Seq::<Seq<char>>::empty());
    } else {
        let d = fetch_decision(s, urls[0], site);
        lemma_plans_distinct(d.0, urls.drop_first(), site);
        let rest = plans_of(d.0, urls.drop_first(), site);
        let rest_paths = rest.map_values(|pr: (Seq<char>, Seq<char>)| pr.0);
        assert forall|k: int| 0 <= k < rest.len() implies !s.contains(rest_paths[k]) by {
            assert(!d.0.contains(rest[k].0));
            assert(d.0.contains(rest[k].0) || !s.contains(rest[k].0)) by {
                match normalize_spec(urls[0], site) {
                    None => {},
                    Some(p) => {
                        assert(d.0 == s.insert(p));
                    },
                }
            }
        }
        match d.1 {
            Some(p) => {
                assert(plans_of(s, urls, site) == seq![(p, resolve_spec(urls[0], site))] + rest);
                assert(paths =~= seq![p] + rest_paths);
                assert(d.0.contains(p));
                assert forall|k: int| 0 <= k < rest_paths.len() implies rest_paths[k] != p by {
                    assert(!d.0.contains(rest_paths[k]));
                }
                assert(paths.no_duplicates()) by {
                    assert(forall|k: int| 0 <= k < rest_paths.len() ==> paths[k + 1] == #[trigger] rest_paths[k]);
                    assert(paths[0] == p);
                }
                assert(!s.contains(p));
            },
            None => {
                assert(plans_of(s, urls, site) == rest);
                assert(paths =~= rest_paths);
            },
        }
    }
}

/// A page with no collectible resources downloads nothing and leaves the
/// claimed set unchanged; its markup is still persisted, since persisting is
/// a stage of every page run and is not conditioned on any download (see
/// `PageStage`).
pub proof fn lemma_empty_page_downloads_nothing(s: Set<Seq<char>>, site: Seq<char>)
    ensures
        claims_after(s, Seq::<Seq<char>>::empty(), site) == s,
        plans_of(s, Seq::<Seq<char>>::empty(), site) == Seq::<(Seq<char>, Seq<char>)>::empty(),
{
}

/// The stages a page goes through, in order: navigate to it, wait a fixed
/// delay for client-rendered content to settle, collect candidate URLs, fetch
/// every planned asset, persist the rendered markup, done.
#[derive(Clone, Copy, Debug, PartialEq, Eq, Structural)]
pub enum PageStage {
    Navigate,
    WaitForHydration,
    Collect,
    FetchAll,
    PersistMarkup,
    Done,
}

/// The stage that follows `st` in a page run.
pub open spec fn next_stage_spec(st: PageStage) -> PageStage {
    match st {
        PageStage::Navigate => PageStage::WaitForHydration,
        PageStage::WaitForHydration => PageStage::Collect,
        PageStage::Collect => PageStage::FetchAll,
        PageStage::FetchAll => PageStage::PersistMarkup,
        PageStage::PersistMarkup => PageStage::Done,
        PageStage::Done => PageStage::Done,
    }
}

/// Advances a page run by one stage.
pub fn next_stage(st: PageStage) -> (n: PageStage)
    ensures
        n == next_stage_spec(st),
{
    match st {
        PageStage::Navigate => PageStage::WaitForHydration,
        PageStage::WaitForHydration => PageStage::Collect,
        PageStage::Collect => PageStage::FetchAll,
        PageStage::FetchAll => PageStage::PersistMarkup,
        PageStage::PersistMarkup => PageStage::Done,
        PageStage::Done => PageStage::Done,
    }
}

/// A page run only finishes through markup persistence: whatever the fetch
/// outcomes, the only stage that steps to `Done` is `PersistMarkup`.
pub proof fn lemma_markup_persisted_before_done(st: PageStage)
    ensures
        next_stage_spec(st) == PageStage::Done ==> st == PageStage::PersistMarkup || st
            == PageStage::Done,
{
}

} // verus!
