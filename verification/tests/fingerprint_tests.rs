use typopotamus::fingerprint::{
    cleanup_file_tokens, display_token, effective_style, effective_weight,
    infer_family_fingerprint, is_hash_token, normalize_style, normalize_weight,
    split_camel_chunk, strip_known_extension, strip_variant_tokens, style_hint_from_token,
    tokenize_source, weight_hint_from_token,
};
use typopotamus::model::FontInfo;
use typopotamus::text::truncate_for_cli;

fn font(name: &str, family: &str, weight: &str, style: &str) -> FontInfo {
    FontInfo {
        name: name.to_string(),
        family: family.to_string(),
        format: "WOFF2".to_string(),
        url: format!("https://fonts.example/{name}"),
        weight: weight.to_string(),
        style: style.to_string(),
        referer: "https://example.com/".to_string(),
    }
}

#[test]
fn variant_hints_from_declared_family() {
    let f = font("roboto.woff2", "Roboto-BoldItalic", "400", "normal");
    let fp = infer_family_fingerprint(&f);
    assert_eq!(fp.key, "roboto");
    assert_eq!(fp.display, "Roboto");
    assert_eq!(fp.weight_hint.as_deref(), Some("700"));
    assert_eq!(fp.style_hint.as_deref(), Some("italic"));
}

#[test]
fn fingerprint_falls_back_to_file_name() {
    let f = font("open-sans_bold.woff2", "", "400", "normal");
    let fp = infer_family_fingerprint(&f);
    assert_eq!(fp.key, "open sans");
    assert_eq!(fp.display, "Open Sans");
    assert_eq!(fp.weight_hint.as_deref(), Some("700"));
    assert_eq!(fp.style_hint, None);
}

#[test]
fn fingerprint_sentinel_when_tokens_run_out() {
    let f = font("", "", "400", "normal");
    let fp = infer_family_fingerprint(&f);
    assert_eq!(fp.key, "unknown");
    assert_eq!(fp.display, "Unknown");
}

#[test]
fn camel_split_breaks_words_and_acronyms() {
    assert_eq!(split_camel_chunk("OpenSansBold"), vec!["open", "sans", "bold"]);
    assert_eq!(split_camel_chunk("ABCWord"), vec!["abc", "word"]);
    assert_eq!(split_camel_chunk("lower"), vec!["lower"]);
    assert!(split_camel_chunk("").is_empty());
}

#[test]
fn tokenize_splits_runs_and_camel_case() {
    assert_eq!(tokenize_source("OpenSansBold-webfont"), vec!["open", "sans", "bold", "webfont"]);
    assert_eq!(tokenize_source("open-sans_700"), vec!["open", "sans", "700"]);
    assert_eq!(tokenize_source("MyFont.woff2"), vec!["my", "font"]);
}

#[test]
fn strip_known_extension_handles_known_suffixes() {
    assert_eq!(strip_known_extension("Foo.WOFF2"), "Foo");
    assert_eq!(strip_known_extension("bar.ttf"), "bar");
    assert_eq!(strip_known_extension("plain"), "plain");
    assert_eq!(strip_known_extension("x.png"), "x.png");
}

#[test]
fn cleanup_drops_hashes_and_markers() {
    let mut tokens: Vec<String> =
        vec!["roboto".to_string(), "deadbeef".to_string(), "s".to_string()];
    cleanup_file_tokens(&mut tokens);
    assert_eq!(tokens, vec!["roboto"]);
}

#[test]
fn strip_variants_pops_style_then_weight() {
    let mut tokens: Vec<String> =
        vec!["roboto".to_string(), "bold".to_string(), "italic".to_string()];
    let (weight, style) = strip_variant_tokens(&mut tokens);
    assert_eq!(tokens, vec!["roboto"]);
    assert_eq!(weight.as_deref(), Some("700"));
    assert_eq!(style.as_deref(), Some("italic"));
}

#[test]
fn hint_tables_match_synonyms() {
    assert_eq!(weight_hint_from_token("thin").as_deref(), Some("100"));
    assert_eq!(weight_hint_from_token("extralight").as_deref(), Some("200"));
    assert_eq!(weight_hint_from_token("ultralight").as_deref(), Some("200"));
    assert_eq!(weight_hint_from_token("semibold").as_deref(), Some("600"));
    assert_eq!(weight_hint_from_token("black").as_deref(), Some("900"));
    assert_eq!(weight_hint_from_token("weird"), None);
    assert_eq!(style_hint_from_token("oblique").as_deref(), Some("oblique"));
    assert_eq!(style_hint_from_token("bold"), None);
}

#[test]
fn normalize_weight_maps_numbers_and_synonyms() {
    assert_eq!(normalize_weight(" Bold "), "700");
    assert_eq!(normalize_weight("0400"), "400");
    assert_eq!(normalize_weight(""), "400");
    assert_eq!(normalize_weight("normal"), "400");
    assert_eq!(normalize_weight("oddity"), "oddity");
}

#[test]
fn normalize_style_detects_slants() {
    assert_eq!(normalize_style("Italic"), "italic");
    assert_eq!(normalize_style("semi oblique"), "oblique");
    assert_eq!(normalize_style("upright"), "normal");
}

#[test]
fn effective_values_prefer_non_default_declarations() {
    let declared = font("a.woff2", "A", "300", "italic");
    assert_eq!(effective_weight(&declared, Some("700")), "300");
    assert_eq!(effective_style(&declared, Some("oblique")), "italic");

    let defaulted = font("a.woff2", "A", "400", "normal");
    assert_eq!(effective_weight(&defaulted, Some("700")), "700");
    assert_eq!(effective_style(&defaulted, Some("italic")), "italic");
    assert_eq!(effective_weight(&defaulted, None), "400");
    assert_eq!(effective_style(&defaulted, None), "normal");
}

#[test]
fn display_token_cases() {
    assert_eq!(display_token("roboto"), "Roboto");
    assert_eq!(display_token("ab"), "AB");
    assert_eq!(display_token("123"), "123");
}

#[test]
fn hash_tokens_need_six_hex_digits() {
    assert!(is_hash_token("deadbeef"));
    assert!(is_hash_token("A1B2C3"));
    assert!(!is_hash_token("abc"));
    assert!(!is_hash_token("zzzzzz"));
}

#[test]
fn truncation_keeps_short_text_whole() {
    assert_eq!(truncate_for_cli("short", 10), "short");
    assert_eq!(truncate_for_cli("a-rather-long-name", 10), "a-rathe...");
    assert_eq!(truncate_for_cli("abcdef", 2), "..");
}
