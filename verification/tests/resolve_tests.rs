use typopotamus::resolve::{
    file_name_from_url, normalize_target_url, resolve_import_url, resolve_url,
};

#[test]
fn target_urls_get_a_scheme() {
    assert_eq!(normalize_target_url("example.com"), "https://example.com");
    assert_eq!(normalize_target_url("  example.com/x "), "https://example.com/x");
    assert_eq!(normalize_target_url("http://example.com"), "http://example.com");
    assert_eq!(normalize_target_url("https://example.com"), "https://example.com");
}

#[test]
fn relative_references_join_the_base() {
    assert_eq!(
        resolve_url("https://a.example/css/site.css", "fonts/f.woff2").as_deref(),
        Some("https://a.example/css/fonts/f.woff2"),
    );
    assert_eq!(
        resolve_url("https://a.example/css/site.css", "/fonts/f.woff2").as_deref(),
        Some("https://a.example/fonts/f.woff2"),
    );
}

#[test]
fn absolute_references_are_normalized() {
    assert_eq!(
        resolve_url("https://a.example/", "HTTPS://B.EXAMPLE").as_deref(),
        Some("https://b.example/"),
    );
}

#[test]
fn inline_payloads_pass_through_resolution() {
    assert_eq!(
        resolve_url("https://a.example/", "data:font/woff;base64,AAAA").as_deref(),
        Some("data:font/woff;base64,AAAA"),
    );
}

#[test]
fn unusable_references_resolve_to_nothing() {
    assert_eq!(resolve_url("not a base", "also relative"), None);
}

#[test]
fn imports_never_point_at_inline_payloads() {
    assert_eq!(resolve_import_url("https://a.example/", "data:text/css,x"), None);
    assert_eq!(
        resolve_import_url("https://a.example/css/a.css", "b.css").as_deref(),
        Some("https://a.example/css/b.css"),
    );
}

#[test]
fn file_names_come_from_the_last_path_segment() {
    assert_eq!(
        file_name_from_url("https://a.example/fonts/foo.woff2?v=1").as_deref(),
        Some("foo.woff2"),
    );
    assert_eq!(file_name_from_url("https://a.example/fonts/"), None);
    assert_eq!(file_name_from_url("data:font/woff,x"), None);
    assert_eq!(file_name_from_url("https://a.example"), None);
}
