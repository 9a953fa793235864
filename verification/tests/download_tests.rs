use typopotamus::download::{
    candidate_file_name, claim_destination, decode_data_url, extension_for_font,
    file_stem_for_font, sanitize_component, strip_extension, try_claim, DownloadReport,
};
use typopotamus::errors::CoreError;
use typopotamus::model::FontInfo;

fn font(name: &str, format: &str, weight: &str, style: &str) -> FontInfo {
    FontInfo {
        name: name.to_string(),
        family: "Fam".to_string(),
        format: format.to_string(),
        url: "https://f.example/x".to_string(),
        weight: weight.to_string(),
        style: style.to_string(),
        referer: String::new(),
    }
}

/// Claims a free destination the way a per-candidate driver would: counting
/// attempts up from zero until one name is free.
fn drive_claims(used: &mut Vec<String>, stem: &str, ext: &str) -> String {
    let mut attempt = 0;
    loop {
        let candidate = candidate_file_name(stem, ext, attempt);
        if try_claim(used, &candidate, false) {
            return candidate;
        }
        attempt += 1;
    }
}

#[test]
fn colliding_stems_get_numeric_suffixes() {
    let mut used = Vec::new();
    let first = drive_claims(&mut used, "roboto-700", "woff2");
    let second = drive_claims(&mut used, "roboto-700", "woff2");
    let third = drive_claims(&mut used, "roboto-700", "woff2");
    assert_eq!(first, "roboto-700.woff2");
    assert_eq!(second, "roboto-700-1.woff2");
    assert_eq!(third, "roboto-700-2.woff2");
    assert_ne!(first, second);
}

#[test]
fn claims_respect_the_disk() {
    let mut used = Vec::new();
    let name = candidate_file_name("font", "ttf", 0);
    assert!(!try_claim(&mut used, &name, true));
    assert!(try_claim(&mut used, &name, false));
    assert!(!try_claim(&mut used, &name, false));
}

#[test]
fn empty_stems_fall_back_to_font() {
    assert_eq!(candidate_file_name("", "bin", 0), "font.bin");
    assert_eq!(candidate_file_name("", "bin", 2), "font-2.bin");
}

#[test]
fn sanitizing_collapses_and_trims() {
    assert_eq!(sanitize_component("My Font! 2"), "my-font-2");
    assert_eq!(sanitize_component("__Weird__"), "weird");
    assert_eq!(sanitize_component("$$$"), "");
}

#[test]
fn stems_combine_name_weight_and_style() {
    let f = font("Foo.woff2", "WOFF2", "700", "Italic");
    assert_eq!(file_stem_for_font(&f), "foo-700-italic");
    let bare = font("", "WOFF2", "", "");
    assert_eq!(file_stem_for_font(&bare), "font");
}

#[test]
fn strip_extension_keeps_leading_dots() {
    assert_eq!(strip_extension("foo.woff"), "foo");
    assert_eq!(strip_extension("a.b.c"), "a.b");
    assert_eq!(strip_extension(".hidden"), ".hidden");
    assert_eq!(strip_extension("plain"), "plain");
}

#[test]
fn extensions_follow_format_then_content_type() {
    assert_eq!(extension_for_font(&font("x", "WOFF2", "", ""), None), "woff2");
    assert_eq!(extension_for_font(&font("x", "otf", "", ""), None), "otf");
    assert_eq!(extension_for_font(&font("x", "TTF", "", ""), None), "ttf");
    assert_eq!(
        extension_for_font(&font("x", "UNKNOWN", "", ""), Some("font/woff2")),
        "woff2",
    );
    assert_eq!(
        extension_for_font(&font("x", "mystery", "", ""), Some("application/x-font-truetype")),
        "ttf",
    );
    assert_eq!(extension_for_font(&font("x", "mystery", "", ""), None), "bin");
}

#[test]
fn base64_payloads_decode_with_their_media_type() {
    let (bytes, mime) = decode_data_url("data:font/woff;base64, AAEC ").unwrap();
    assert_eq!(bytes, vec![0u8, 1, 2]);
    assert_eq!(mime.as_deref(), Some("font/woff"));
}

#[test]
fn percent_payloads_decode_without_base64_marker() {
    let (bytes, mime) = decode_data_url("data:text/plain,a%20b").unwrap();
    assert_eq!(bytes, b"a b".to_vec());
    assert_eq!(mime.as_deref(), Some("text/plain"));
    let (bytes2, mime2) = decode_data_url("data:,plain").unwrap();
    assert_eq!(bytes2, b"plain".to_vec());
    assert_eq!(mime2, None);
}

#[test]
fn malformed_payloads_are_parse_errors() {
    assert!(matches!(decode_data_url("nope"), Err(CoreError::Parse(_))));
    assert!(matches!(decode_data_url("data:missing-comma"), Err(CoreError::Parse(_))));
    assert!(matches!(
        decode_data_url("data:font/woff;base64,!!!"),
        Err(CoreError::Parse(_)),
    ));
}

#[test]
fn reports_track_outcomes() {
    let mut report = DownloadReport::new(3);
    assert_eq!(report.attempted, 3);
    assert_eq!(report.success_count(), 0);
    report.record_saved("out/fam/a.woff2".to_string());
    report.record_failure(
        &font("bad.woff2", "WOFF2", "", ""),
        "HTTP 404",
    );
    report.record_failure_message("could not create output directory out: denied".to_string());
    assert_eq!(report.success_count(), 1);
    assert_eq!(report.saved_files, vec!["out/fam/a.woff2"]);
    assert_eq!(report.failures.len(), 2);
    assert_eq!(report.failures[0], "bad.woff2 (https://f.example/x) -> HTTP 404");
}

#[test]
fn error_descriptions_name_their_kind() {
    let e = CoreError::Network("HTTP 500".to_string());
    assert_eq!(e.describe(), "network error: HTTP 500");
    assert_eq!(e.detail(), "HTTP 500");
    let io = CoreError::Io("denied".to_string());
    assert_eq!(io.describe(), "io error: denied");
    let nf = CoreError::NotFound("no fonts".to_string());
    assert_eq!(nf.describe(), "not found: no fonts");
    let p = CoreError::Parse("bad".to_string());
    assert_eq!(p.describe(), "parse error: bad");
}

#[test]
fn first_free_destination_is_claimed() {
    assert_eq!(claim_destination(&Vec::new(), "roboto", "woff2"), "roboto.woff2");
    let taken = vec!["roboto.woff2".to_string()];
    assert_eq!(claim_destination(&taken, "roboto", "woff2"), "roboto-1.woff2");
    let crowded = vec![
        "roboto.woff2".to_string(),
        "roboto-1.woff2".to_string(),
        "other.ttf".to_string(),
    ];
    assert_eq!(claim_destination(&crowded, "roboto", "woff2"), "roboto-2.woff2");
}
