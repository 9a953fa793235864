use typopotamus::extract::{
    crawl_begin, crawl_enqueue, crawl_finish, crawl_next, dedupe_fonts, extract_style_blocks,
    family_from_name, has_word, ingest_css, scan_links, CrawlState,
};
use typopotamus::model::FontInfo;

fn font(name: &str, url: &str, weight: &str) -> FontInfo {
    FontInfo {
        name: name.to_string(),
        family: "Fam".to_string(),
        format: "WOFF2".to_string(),
        url: url.to_string(),
        weight: weight.to_string(),
        style: "normal".to_string(),
        referer: String::new(),
    }
}

/// Drives the crawl against a tiny in-memory web of stylesheets, the way a
/// network driver would; returns how many fetches happened.
fn drive(state: &mut CrawlState, sheets: &[(&str, &str)]) -> usize {
    let mut fetches = 0;
    while let Some((url, depth)) = crawl_next(state) {
        fetches += 1;
        if let Some((_, css)) = sheets.iter().find(|(u, _)| *u == url) {
            ingest_css(state, css, &url, depth + 1);
        }
    }
    fetches
}

#[test]
fn dedupe_keeps_first_occurrence() {
    let mut fonts = vec![
        font("first.woff2", "https://f.example/a", "700"),
        font("other.woff2", "https://f.example/b", "400"),
        font("second.woff2", "https://f.example/a", "100"),
    ];
    dedupe_fonts(&mut fonts);
    assert_eq!(fonts.len(), 2);
    assert_eq!(fonts[0].name, "first.woff2");
    assert_eq!(fonts[0].weight, "700");
    assert_eq!(fonts[1].name, "other.woff2");
}

#[test]
fn self_import_terminates_without_duplicates() {
    let page = "https://example.com/a.css";
    let css = "@import url('a.css');\n\
               @font-face { font-family: A; src: url('/a.woff2'); }";
    let mut state = crawl_begin("https://example.com/".to_string());
    crawl_enqueue(&mut state, page.to_string(), 0);
    let fetches = drive(&mut state, &[(page, css)]);
    assert_eq!(fetches, 1);
    let fonts = crawl_finish(state);
    assert_eq!(fonts.len(), 1);
    assert_eq!(fonts[0].url, "https://example.com/a.woff2");
}

#[test]
fn mutual_imports_terminate_without_duplicates() {
    let a = "https://example.com/a.css";
    let b = "https://example.com/b.css";
    let css_a = "@import url('b.css'); @font-face { font-family: A; src: url('/a.woff2'); }";
    let css_b = "@import url('a.css'); @font-face { font-family: B; src: url('/b.woff2'); }";
    let mut state = crawl_begin("https://example.com/".to_string());
    crawl_enqueue(&mut state, a.to_string(), 0);
    let fetches = drive(&mut state, &[(a, css_a), (b, css_b)]);
    assert_eq!(fetches, 2);
    let fonts = crawl_finish(state);
    assert_eq!(fonts.len(), 2);
}

#[test]
fn import_depth_is_bounded() {
    let urls: Vec<String> =
        (0..6).map(|i| format!("https://example.com/l{i}.css")).collect();
    let sheets: Vec<(String, String)> = (0..6)
        .map(|i| {
            let next = if i + 1 < 6 {
                format!("@import url('l{}.css');", i + 1)
            } else {
                String::new()
            };
            let css = format!(
                "{next} @font-face {{ font-family: L{i}; src: url('/f{i}.woff2'); }}"
            );
            (urls[i].clone(), css)
        })
        .collect();
    let borrowed: Vec<(&str, &str)> =
        sheets.iter().map(|(u, c)| (u.as_str(), c.as_str())).collect();
    let mut state = crawl_begin("https://example.com/".to_string());
    crawl_enqueue(&mut state, urls[0].clone(), 0);
    let fetches = drive(&mut state, &borrowed);
    // Depths 0 through 3 are fetched; the import at depth 4 is dropped.
    assert_eq!(fetches, 4);
    let fonts = crawl_finish(state);
    assert_eq!(fonts.len(), 4);
}

#[test]
fn failed_fetch_is_swallowed() {
    let a = "https://example.com/a.css";
    let css_a = "@import url('missing.css'); @font-face { font-family: A; src: url('/a.woff2'); }";
    let mut state = crawl_begin("https://example.com/".to_string());
    crawl_enqueue(&mut state, a.to_string(), 0);
    drive(&mut state, &[(a, css_a)]);
    let fonts = crawl_finish(state);
    assert_eq!(fonts.len(), 1);
}

#[test]
fn style_blocks_come_from_markup() {
    let html = "<html><head><style>@font-face { font-family: A; }</style>\
                <style>p { color: red; }</style></head><body></body></html>";
    let blocks = extract_style_blocks(html);
    assert_eq!(blocks.len(), 2);
    assert!(blocks[0].contains("@font-face"));
    assert!(blocks[1].contains("color"));
}

#[test]
fn links_become_sheets_and_preload_records() {
    let html = "<html><head>\
                <link rel=\"stylesheet\" href=\"/site.css\">\
                <link rel=\"preload\" as=\"style\" href=\"/pre.css\">\
                <link rel=\"prefetch\" as=\"style\" href=\"/later.css\">\
                <link rel=\"preload\" as=\"font\" href=\"/fonts/Nice-Font.woff2\">\
                <link rel=\"prefetch\" as=\"font\" href=\"/fonts/other.ttf\">\
                <link rel=\"icon\" href=\"/favicon.ico\">\
                <link rel=\"stylesheet\">\
                </head></html>";
    let (records, sheets) = scan_links(html, "https://example.com/page/");
    assert_eq!(
        sheets,
        vec![
            "https://example.com/site.css",
            "https://example.com/pre.css",
            "https://example.com/later.css",
        ],
    );
    assert_eq!(records.len(), 2);
    assert_eq!(records[0].name, "Nice-Font.woff2");
    assert_eq!(records[0].family, "Nice-Font");
    assert_eq!(records[0].format, "WOFF2");
    assert_eq!(records[0].url, "https://example.com/fonts/Nice-Font.woff2");
    assert_eq!(records[0].weight, "400");
    assert_eq!(records[0].style, "normal");
    assert_eq!(records[0].referer, "https://example.com/page/");
    assert_eq!(records[1].format, "TRUETYPE");
}

#[test]
fn rel_words_are_matched_whole() {
    assert!(has_word("preload stylesheet", "stylesheet"));
    assert!(has_word("stylesheet", "stylesheet"));
    assert!(!has_word("stylesheets", "stylesheet"));
    assert!(!has_word("", "stylesheet"));
}

#[test]
fn family_from_name_strips_last_suffix() {
    assert_eq!(family_from_name("Nice-Font.woff2"), "Nice-Font");
    assert_eq!(family_from_name("a.b.c"), "a.b");
    assert_eq!(family_from_name("plain"), "plain");
}

#[test]
fn full_page_extraction_orders_and_dedupes() {
    let html = "<html><head><style>\
                @font-face { font-family: Zeta; src: url('/z.woff2'); }\
                @font-face { font-family: Alpha; src: url('/a.woff2'); }\
                @font-face { font-family: Zeta; src: url('/z.woff2'); }\
                </style></head></html>";
    let page = "https://example.com/";
    let mut state = crawl_begin(page.to_string());
    for block in extract_style_blocks(html) {
        ingest_css(&mut state, &block, page, 0);
        drive(&mut state, &[]);
    }
    let fonts = crawl_finish(state);
    assert_eq!(fonts.len(), 2);
    assert_eq!(fonts[0].family, "Alpha");
    assert_eq!(fonts[1].family, "Zeta");
}
