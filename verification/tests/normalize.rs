use ivoclar_offline::norm::classify;
use ivoclar_offline::norm::UrlClass;
use ivoclar_offline::normalize_url_path;

const WEBSITE: &str = "https://www.ivoclar.com";

#[test]
fn test_classify_covers_every_shape() {
    assert_eq!(
        classify("https://www.ivoclar.com/js/app.js", WEBSITE),
        UrlClass::AbsoluteSameSite
    );
    assert_eq!(
        classify("https://cdn.example.com/lib.js", WEBSITE),
        UrlClass::AbsoluteOtherSite
    );
    assert_eq!(
        classify("//fonts.googleapis.com/css", WEBSITE),
        UrlClass::ProtocolRelative
    );
    assert_eq!(classify("/assets/style.css", WEBSITE), UrlClass::Relative);
    assert_eq!(classify("images/logo.png", WEBSITE), UrlClass::Relative);
    assert_eq!(classify("", WEBSITE), UrlClass::NonFetchable);
    assert_eq!(classify("data:image/png;base64,AA", WEBSITE), UrlClass::NonFetchable);
    assert_eq!(classify("blob:https://x/uuid", WEBSITE), UrlClass::NonFetchable);
}

#[test]
fn test_normalize_relative_path() {
    let result = normalize_url_path("images/logo.png", WEBSITE);
    assert_eq!(result, Some("images/logo.png".to_string()));
}

#[test]
fn test_normalize_root_relative_path() {
    let result = normalize_url_path("/assets/style.css", WEBSITE);
    assert_eq!(result, Some("assets/style.css".to_string()));
}

#[test]
fn test_normalize_absolute_url_same_domain() {
    let result = normalize_url_path("https://www.ivoclar.com/js/app.js", WEBSITE);
    assert_eq!(result, Some("js/app.js".to_string()));
}

#[test]
fn test_normalize_absolute_url_different_domain() {
    let result = normalize_url_path("https://cdn.example.com/lib.js", WEBSITE);
    assert_eq!(result, None);
}

#[test]
fn test_normalize_protocol_relative_url() {
    let result = normalize_url_path("//fonts.googleapis.com/css?family=Roboto", WEBSITE);
    assert_eq!(result, Some("css".to_string()));
}

#[test]
fn test_normalize_strips_query_string() {
    let result = normalize_url_path("/api/image.png?v=123&size=large", WEBSITE);
    assert_eq!(result, Some("api/image.png".to_string()));
}

#[test]
fn test_normalize_strips_hash() {
    let result = normalize_url_path("/page/section#anchor", WEBSITE);
    assert_eq!(result, Some("page/section".to_string()));
}

#[test]
fn test_normalize_rejects_data_url() {
    let result = normalize_url_path("data:image/png;base64,ABC123", WEBSITE);
    assert_eq!(result, None);
}

#[test]
fn test_normalize_rejects_blob_url() {
    let result = normalize_url_path("blob:https://example.com/uuid", WEBSITE);
    assert_eq!(result, None);
}

#[test]
fn test_normalize_rejects_empty() {
    let result = normalize_url_path("", WEBSITE);
    assert_eq!(result, None);
}

#[test]
fn test_normalize_same_path_in_all_three_forms() {
    let relative = normalize_url_path("a/b", WEBSITE);
    let root_relative = normalize_url_path("/a/b", WEBSITE);
    let absolute = normalize_url_path("https://www.ivoclar.com/a/b", WEBSITE);
    assert_eq!(relative, Some("a/b".to_string()));
    assert_eq!(root_relative, Some("a/b".to_string()));
    assert_eq!(absolute, Some("a/b".to_string()));
}

#[test]
fn test_normalize_strips_query_and_fragment_together() {
    let result = normalize_url_path("/x/y?a=1#frag", WEBSITE);
    assert_eq!(result, Some("x/y".to_string()));
}

#[test]
fn test_normalize_idempotent_on_own_output() {
    let once = normalize_url_path("//cdn.example.com/fonts/a.woff2?v=9", WEBSITE).unwrap();
    let twice = normalize_url_path(&once, WEBSITE);
    assert_eq!(twice, Some(once));
}

#[test]
fn test_normalize_cuts_at_fragment_before_query() {
    let result = normalize_url_path("/x/y#frag?not-a-query", WEBSITE);
    assert_eq!(result, Some("x/y".to_string()));
}

#[test]
fn test_normalize_scheme_must_match_site_exactly() {
    let result = normalize_url_path("http://www.ivoclar.com/js/app.js", WEBSITE);
    assert_eq!(result, None);
}

#[test]
fn test_normalize_query_only_url_rejected() {
    let result = normalize_url_path("?a=1", WEBSITE);
    assert_eq!(result, None);
}

#[test]
fn test_normalize_protocol_relative_without_path_rejected() {
    let result = normalize_url_path("//fonts.googleapis.com", WEBSITE);
    assert_eq!(result, None);
}

#[test]
fn test_normalize_site_root_rejected() {
    let result = normalize_url_path("https://www.ivoclar.com/", WEBSITE);
    assert_eq!(result, None);
}

#[test]
fn test_normalize_collapses_extra_leading_slashes_after_site() {
    let result = normalize_url_path("https://www.ivoclar.com//media//pic.jpg", WEBSITE);
    assert_eq!(result, Some("media//pic.jpg".to_string()));
}
