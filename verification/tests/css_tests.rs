use typopotamus::cssdecl::{get_declaration, parse_css_declarations};
use typopotamus::cssparse::{format_from_url, format_rank, normalize_family_name, parse_css, pick_best_source, slug_for_file_name};
use typopotamus::cssscan::font_face_blocks;

#[test]
fn declarations_split_on_semicolons() {
    let decls = parse_css_declarations(
        "font-family: 'My Font'; font-weight: 700 ; font-style:italic",
    );
    assert_eq!(get_declaration(&decls, "font-family").as_deref(), Some("'My Font'"));
    assert_eq!(get_declaration(&decls, "font-weight").as_deref(), Some("700"));
    assert_eq!(get_declaration(&decls, "font-style").as_deref(), Some("italic"));
    assert_eq!(get_declaration(&decls, "src"), None);
}

#[test]
fn declarations_keep_separators_inside_urls_and_quotes() {
    let decls = parse_css_declarations(
        "src: url(data:font/woff2;base64,AAAA) format('woff2'); font-family: \"a;b\"",
    );
    assert_eq!(
        get_declaration(&decls, "src").as_deref(),
        Some("url(data:font/woff2;base64,AAAA) format('woff2')"),
    );
    assert_eq!(get_declaration(&decls, "font-family").as_deref(), Some("\"a;b\""));
}

#[test]
fn declarations_lowercase_names_and_later_wins() {
    let decls = parse_css_declarations("Font-Weight: 300; font-weight: 800");
    assert_eq!(get_declaration(&decls, "font-weight").as_deref(), Some("800"));
}

#[test]
fn declaration_without_colon_is_dropped() {
    let decls = parse_css_declarations("nonsense; font-weight: 500");
    assert_eq!(decls.len(), 1);
    assert_eq!(get_declaration(&decls, "font-weight").as_deref(), Some("500"));
}

#[test]
fn font_face_blocks_are_found_case_blind() {
    let css = "body{} @FONT-FACE { font-family: A; } p{} @font-face{font-family:B;}";
    let blocks = font_face_blocks(css);
    assert_eq!(blocks.len(), 2);
    assert_eq!(blocks[0], " font-family: A; ");
    assert_eq!(blocks[1], "font-family:B;");
}

#[test]
fn best_source_prefers_woff2_over_later_formats() {
    let src = "url('/f/a.eot') format('eot'), url('/f/a.woff2') format('woff2'), \
               url('/f/a.ttf') format('truetype')";
    let best = pick_best_source(src, "https://example.com/css/site.css").unwrap();
    assert_eq!(best.0, "https://example.com/f/a.woff2");
    assert_eq!(best.1, "WOFF2");
}

#[test]
fn best_source_falls_back_to_url_extension() {
    let best = pick_best_source("url(a.ttf)", "https://example.com/css/site.css").unwrap();
    assert_eq!(best.0, "https://example.com/css/a.ttf");
    assert_eq!(best.1, "TRUETYPE");
}

#[test]
fn parse_css_builds_records_and_imports() {
    let css = "@import url('more.css');\n\
               @font-face { font-family: \"Foo\"; font-weight: bold; \
               src: url('/fonts/foo.woff2') format('woff2'); }\n\
               @font-face { font-family: NoSource; }";
    let (fonts, imports) = parse_css(css, "https://example.com/css/main.css", "https://example.com/");
    assert_eq!(imports, vec!["https://example.com/css/more.css"]);
    assert_eq!(fonts.len(), 1);
    assert_eq!(fonts[0].family, "Foo");
    assert_eq!(fonts[0].name, "foo.woff2");
    assert_eq!(fonts[0].url, "https://example.com/fonts/foo.woff2");
    assert_eq!(fonts[0].format, "WOFF2");
    assert_eq!(fonts[0].weight, "bold");
    assert_eq!(fonts[0].style, "normal");
    assert_eq!(fonts[0].referer, "https://example.com/");
}

#[test]
fn parse_css_names_embedded_sources_from_family() {
    let css = "@font-face { font-family: My Font; src: url(data:font/woff;base64,AAAA); }";
    let (fonts, _) = parse_css(css, "https://example.com/", "https://example.com/");
    assert_eq!(fonts.len(), 1);
    assert_eq!(fonts[0].name, "my-font-embedded");
    assert!(fonts[0].url.starts_with("data:"));
}

#[test]
fn quoted_imports_are_recognized() {
    let css = "@import \"theme.css\" screen;";
    let (_, imports) = parse_css(css, "https://example.com/a/b.css", "https://example.com/");
    assert_eq!(imports, vec!["https://example.com/a/theme.css"]);
}

#[test]
fn format_rank_orders_known_formats() {
    assert!(format_rank("woff2") < format_rank("WOFF"));
    assert!(format_rank(" WOFF ") < format_rank("opentype"));
    assert!(format_rank("otf") == format_rank("OPENTYPE"));
    assert!(format_rank("ttf") < format_rank("eot"));
    assert!(format_rank("svg") < format_rank("mystery"));
}

#[test]
fn format_from_url_ignores_query_and_fragment() {
    assert_eq!(format_from_url("https://x/y/font.TTF?v=1"), "TRUETYPE");
    assert_eq!(format_from_url("a/b.woff2#frag"), "WOFF2");
    assert_eq!(format_from_url("no-extension"), "UNKNOWN");
    assert_eq!(format_from_url("f.eot"), "EOT");
}

#[test]
fn family_names_lose_quotes_and_padding() {
    assert_eq!(normalize_family_name("  \"Open Sans\"  "), "Open Sans");
    assert_eq!(normalize_family_name("'Lato'"), "Lato");
    assert_eq!(normalize_family_name("Plain"), "Plain");
}

#[test]
fn slugs_collapse_non_alphanumerics() {
    assert_eq!(slug_for_file_name("My Font! 2"), "my-font-2");
    assert_eq!(slug_for_file_name("--x--"), "x");
    assert_eq!(slug_for_file_name("!!!"), "");
}
