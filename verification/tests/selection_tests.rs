use typopotamus::errors::CoreError;
use typopotamus::model::FontInfo;
use typopotamus::selection::{resolve_selection, select_font_indices, FontSelection};
use typopotamus::inspect::select_indices_by_inferred_family_names;
use typopotamus::selection::select_fonts;

fn font(name: &str, family: &str, url: &str) -> FontInfo {
    FontInfo {
        name: name.to_string(),
        family: family.to_string(),
        format: "WOFF2".to_string(),
        url: url.to_string(),
        weight: "400".to_string(),
        style: "normal".to_string(),
        referer: String::new(),
    }
}

fn sample_fonts() -> Vec<FontInfo> {
    vec![
        font("roboto-400.woff2", "Roboto", "https://f.example/roboto-400.woff2"),
        font("roboto-700.woff2", "Roboto", "https://f.example/roboto-700.woff2"),
        font("lato-400.woff2", "Lato", "https://f.example/lato-400.woff2"),
        font("lato-700.woff2", "Lato", "https://f.example/lato-700.woff2"),
        font("mono-400.woff2", "Mono", "https://f.example/mono-400.woff2"),
        font("mono-700.woff2", "Mono", "https://f.example/mono-700.woff2"),
    ]
}

#[test]
fn selection_union_of_family_and_index() {
    let fonts = sample_fonts();
    let selection = FontSelection {
        all: false,
        families: vec!["Roboto".to_string()],
        names: Vec::new(),
        urls: Vec::new(),
        indices: vec![5],
    };
    let picked = select_font_indices(&fonts, &selection);
    assert_eq!(picked, vec![0, 1, 5]);
}

#[test]
fn selection_rejects_empty_criteria() {
    let fonts = sample_fonts();
    let selection = FontSelection::default();
    assert!(!selection.has_selectors());
    match resolve_selection(&fonts, &selection) {
        Err(CoreError::Selection(detail)) => {
            assert_eq!(detail, "no selection provided");
        },
        _ => panic!("inactive criteria must be a selection error"),
    }
}

#[test]
fn selection_rejects_matching_nothing() {
    let fonts = sample_fonts();
    let selection = FontSelection {
        all: false,
        families: vec!["Nonexistent".to_string()],
        names: Vec::new(),
        urls: Vec::new(),
        indices: Vec::new(),
    };
    match resolve_selection(&fonts, &selection) {
        Err(CoreError::Selection(detail)) => {
            assert_eq!(detail, "no fonts matched the provided selectors");
        },
        _ => panic!("criteria matching nothing must be a selection error"),
    }
}

#[test]
fn selection_all_takes_everything() {
    let fonts = sample_fonts();
    let selection = FontSelection { all: true, ..FontSelection::default() };
    assert_eq!(select_font_indices(&fonts, &selection), vec![0, 1, 2, 3, 4, 5]);
}

#[test]
fn selection_matches_names_case_insensitively_trimmed() {
    let fonts = sample_fonts();
    let selection = FontSelection {
        all: false,
        families: Vec::new(),
        names: vec!["  LATO-400.WOFF2 ".to_string()],
        urls: Vec::new(),
        indices: Vec::new(),
    };
    assert_eq!(select_font_indices(&fonts, &selection), vec![2]);
}

#[test]
fn selection_matches_urls_exactly() {
    let fonts = sample_fonts();
    let selection = FontSelection {
        all: false,
        families: Vec::new(),
        names: Vec::new(),
        urls: vec!["https://f.example/mono-400.woff2".to_string()],
        indices: Vec::new(),
    };
    assert_eq!(select_font_indices(&fonts, &selection), vec![4]);
    let shouty = FontSelection {
        all: false,
        families: Vec::new(),
        names: Vec::new(),
        urls: vec!["HTTPS://F.EXAMPLE/MONO-400.WOFF2".to_string()],
        indices: Vec::new(),
    };
    assert_eq!(select_font_indices(&fonts, &shouty), Vec::<usize>::new());
}

#[test]
fn selection_ignores_out_of_range_indices() {
    let fonts = sample_fonts();
    let selection = FontSelection {
        all: false,
        families: Vec::new(),
        names: Vec::new(),
        urls: Vec::new(),
        indices: vec![99, 1],
    };
    assert_eq!(select_font_indices(&fonts, &selection), vec![1]);
}

#[test]
fn inferred_family_names_select_whole_groups() {
    let fonts = vec![
        font("a.woff2", "OpenSansBold", "https://f.example/a.woff2"),
        font("b.woff2", "open-sans", "https://f.example/b.woff2"),
        font("c.woff2", "Lato", "https://f.example/c.woff2"),
    ];
    let picked =
        select_indices_by_inferred_family_names(&fonts, &vec!["open sans".to_string()]);
    assert_eq!(picked, vec![0, 1]);
    let by_alias =
        select_indices_by_inferred_family_names(&fonts, &vec!["OpenSansBold".to_string()]);
    assert_eq!(by_alias, vec![0, 1]);
    let none = select_indices_by_inferred_family_names(&fonts, &Vec::new());
    assert!(none.is_empty());
}

#[test]
fn select_fonts_copies_in_order_and_skips_bad_indices() {
    let fonts = sample_fonts();
    let picked = select_fonts(&fonts, &vec![4, 0, 99]);
    assert_eq!(picked.len(), 2);
    assert_eq!(picked[0].name, "mono-400.woff2");
    assert_eq!(picked[1].name, "roboto-400.woff2");
}

#[test]
fn family_criteria_match_inferred_groups() {
    let fonts = vec![
        font("roboto-400.woff2", "Roboto", "https://f.example/r400"),
        font("roboto-bold.woff2", "Roboto-Bold", "https://f.example/r700"),
        font("lato.woff2", "Lato", "https://f.example/l400"),
    ];
    // "Roboto-Bold" shares the inferred group "Roboto", so naming the group
    // by display name or by either raw alias selects both records.
    let by_display = FontSelection {
        all: false,
        families: vec!["roboto".to_string()],
        names: Vec::new(),
        urls: Vec::new(),
        indices: Vec::new(),
    };
    assert_eq!(select_font_indices(&fonts, &by_display), vec![0, 1]);
    let by_alias = FontSelection {
        all: false,
        families: vec![" ROBOTO-BOLD ".to_string()],
        names: Vec::new(),
        urls: Vec::new(),
        indices: Vec::new(),
    };
    assert_eq!(select_font_indices(&fonts, &by_alias), vec![0, 1]);
}
