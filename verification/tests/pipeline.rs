use ivoclar_offline::collect::collect_candidates;
use ivoclar_offline::collect::extract_css_urls;
use ivoclar_offline::collect::parse_srcset;
use ivoclar_offline::collect::AttrValue;
use ivoclar_offline::registry::DedupRegistry;
use ivoclar_offline::session::resolve_fetch_url;
use ivoclar_offline::session::next_stage;
use ivoclar_offline::session::MirrorSession;
use ivoclar_offline::session::PageStage;

const WEBSITE: &str = "https://www.ivoclar.com";

#[test]
fn test_try_claim_first_call_wins() {
    let mut registry = DedupRegistry::new();
    assert!(registry.try_claim("css/app.css".to_string()));
}

#[test]
fn test_try_claim_exactly_one_winner_among_repeats() {
    let mut registry = DedupRegistry::new();
    let mut wins = 0;
    for _ in 0..16 {
        if registry.try_claim("img/logo.png".to_string()) {
            wins += 1;
        }
    }
    assert_eq!(wins, 1);
    assert_eq!(registry.len(), 1);
}

#[test]
fn test_registry_counts_distinct_paths() {
    let mut registry = DedupRegistry::new();
    assert!(registry.try_claim("a".to_string()));
    assert!(registry.try_claim("b".to_string()));
    assert!(!registry.try_claim("a".to_string()));
    assert_eq!(registry.len(), 2);
}

#[test]
fn test_resolve_fetch_url_absolute_used_as_is() {
    let url = resolve_fetch_url("https://www.ivoclar.com/js/app.js", WEBSITE);
    assert_eq!(url, "https://www.ivoclar.com/js/app.js".to_string());
}

#[test]
fn test_resolve_fetch_url_protocol_relative_gets_https() {
    let url = resolve_fetch_url("//fonts.googleapis.com/css", WEBSITE);
    assert_eq!(url, "https://fonts.googleapis.com/css".to_string());
}

#[test]
fn test_resolve_fetch_url_relative_joined_with_site() {
    let url = resolve_fetch_url("/img/logo.png", WEBSITE);
    assert_eq!(url, "https://www.ivoclar.com/img/logo.png".to_string());
}

#[test]
fn test_begin_download_same_asset_twice_downloads_once() {
    let mut session = MirrorSession::new(WEBSITE.to_string());
    let first = session.begin_download("/img/logo.png?v=1");
    let second = session.begin_download("https://www.ivoclar.com/img/logo.png");
    let plan = first.expect("first fetch of a path should be planned");
    assert_eq!(plan.local_path, "img/logo.png".to_string());
    assert_eq!(
        plan.full_url,
        "https://www.ivoclar.com/img/logo.png?v=1".to_string()
    );
    assert!(second.is_none());
    assert_eq!(session.total_assets(), 1);
}

#[test]
fn test_begin_download_out_of_scope_plans_nothing() {
    let mut session = MirrorSession::new(WEBSITE.to_string());
    assert!(session.begin_download("data:image/png;base64,AA").is_none());
    assert!(session.begin_download("https://cdn.example.com/lib.js").is_none());
    assert_eq!(session.total_assets(), 0);
}

#[test]
fn test_plan_page_with_no_candidates_plans_nothing() {
    let mut session = MirrorSession::new(WEBSITE.to_string());
    let plans = session.plan_page(&Vec::new());
    assert_eq!(plans.len(), 0);
    assert_eq!(session.total_assets(), 0);
}

#[test]
fn test_plan_page_dedups_across_pages() {
    let mut session = MirrorSession::new(WEBSITE.to_string());
    let first_page = vec![
        "/css/app.css".to_string(),
        "https://www.ivoclar.com/css/app.css".to_string(),
        "/img/a.png".to_string(),
    ];
    let second_page = vec!["css/app.css?v=2".to_string(), "/img/b.png".to_string()];
    let first_plans = session.plan_page(&first_page);
    let second_plans = session.plan_page(&second_page);
    assert_eq!(first_plans.len(), 2);
    assert_eq!(first_plans[0].local_path, "css/app.css".to_string());
    assert_eq!(first_plans[1].local_path, "img/a.png".to_string());
    assert_eq!(second_plans.len(), 1);
    assert_eq!(second_plans[0].local_path, "img/b.png".to_string());
    assert_eq!(session.total_assets(), 3);
}

#[test]
fn test_page_stages_run_in_order() {
    let mut stage = PageStage::Navigate;
    let mut trace = Vec::new();
    while stage != PageStage::Done {
        trace.push(stage);
        stage = next_stage(stage);
    }
    assert_eq!(
        trace,
        vec![
            PageStage::Navigate,
            PageStage::WaitForHydration,
            PageStage::Collect,
            PageStage::FetchAll,
            PageStage::PersistMarkup,
        ]
    );
}

#[test]
fn test_parse_srcset_takes_url_before_hints() {
    let urls = parse_srcset("/img/a-480.jpg 480w, /img/a-800.jpg 800w");
    assert_eq!(
        urls,
        vec!["/img/a-480.jpg".to_string(), "/img/a-800.jpg".to_string()]
    );
}

#[test]
fn test_parse_srcset_skips_empty_parts() {
    let urls = parse_srcset("a.jpg 1x,, , b.jpg");
    assert_eq!(urls, vec!["a.jpg".to_string(), "b.jpg".to_string()]);
}

#[test]
fn test_extract_css_urls_quoted_and_bare() {
    let urls = extract_css_urls(
        "background-image: url('/img/bg.png'), url(\"/img/top.png\"), url(/img/side.png);",
    );
    assert_eq!(
        urls,
        vec![
            "/img/bg.png".to_string(),
            "/img/top.png".to_string(),
            "/img/side.png".to_string()
        ]
    );
}

#[test]
fn test_extract_css_urls_skips_data_uris() {
    let urls = extract_css_urls("background: url(data:image/png;base64,AA) url(/img/real.png);");
    assert_eq!(urls, vec!["/img/real.png".to_string()]);
}

#[test]
fn test_extract_css_urls_ignores_unclosed_tokens() {
    let urls = extract_css_urls("background: url( ) url(/ok.png)");
    assert_eq!(urls, vec!["/ok.png".to_string()]);
}

#[test]
fn test_collect_candidates_unions_and_dedups() {
    let perf = vec![
        "https://www.ivoclar.com/js/app.js".to_string(),
        "data:image/png;base64,AA".to_string(),
        "blob:https://www.ivoclar.com/uuid".to_string(),
        "/img/a.png".to_string(),
    ];
    let dom = vec![
        AttrValue::Plain("/img/a.png".to_string()),
        AttrValue::Plain("/css/app.css".to_string()),
        AttrValue::Srcset("/img/a-480.jpg 480w, /img/a.png".to_string()),
    ];
    let styles = vec!["background-image: url('/img/bg.png');".to_string()];
    let urls = collect_candidates(&perf, &dom, &styles);
    let mut sorted = urls.clone();
    sorted.sort();
    assert_eq!(
        sorted,
        vec![
            "/css/app.css".to_string(),
            "/img/a-480.jpg".to_string(),
            "/img/a.png".to_string(),
            "/img/bg.png".to_string(),
            "https://www.ivoclar.com/js/app.js".to_string(),
        ]
    );
}

#[test]
fn test_collect_candidates_all_sources_empty() {
    let urls = collect_candidates(&Vec::new(), &Vec::new(), &Vec::new());
    assert!(urls.is_empty());
}
