use typopotamus::inspect::{
    format_index_range, group_by_inferred_family, infer_family_groups, infer_family_groups_all,
    to_index_ranges, InferredFamilyGroup,
};
use typopotamus::model::{group_by_family, sort_fonts, FontInfo};
use typopotamus::inspect::compact_join;

fn font(name: &str, family: &str, weight: &str, style: &str, url: &str) -> FontInfo {
    FontInfo {
        name: name.to_string(),
        family: family.to_string(),
        format: "woff2".to_string(),
        url: url.to_string(),
        weight: weight.to_string(),
        style: style.to_string(),
        referer: String::new(),
    }
}

fn messy_fonts() -> Vec<FontInfo> {
    vec![
        font("OpenSans-Bold.woff2", "OpenSansBold", "400", "normal", "https://f.example/osb"),
        font("open-sans.woff2", "open-sans", "400", "normal", "https://f.example/os"),
        font("lato.woff2", "Lato", "700", "italic", "https://f.example/lato"),
    ]
}

fn groups_equal(a: &InferredFamilyGroup, b: &InferredFamilyGroup) -> bool {
    a.key == b.key && a.name == b.name && a.aliases == b.aliases && a.files == b.files
        && a.variants == b.variants && a.weights == b.weights && a.styles == b.styles
        && a.formats == b.formats && a.font_indices == b.font_indices
        && a.index_ranges == b.index_ranges
}

#[test]
fn grouping_is_idempotent() {
    let fonts = messy_fonts();
    let indices = vec![0, 1, 2];
    let first = infer_family_groups(&fonts, &indices);
    let second = infer_family_groups(&fonts, &indices);
    assert_eq!(first.len(), second.len());
    for (a, b) in first.iter().zip(second.iter()) {
        assert!(groups_equal(a, b));
    }
}

#[test]
fn grouping_collapses_messy_names() {
    let fonts = messy_fonts();
    let groups = infer_family_groups_all(&fonts);
    assert_eq!(groups.len(), 2);
    assert_eq!(groups[0].name, "Lato");
    assert_eq!(groups[1].name, "Open Sans");
    assert_eq!(groups[1].key, "open sans");
    assert_eq!(groups[1].aliases, vec!["OpenSansBold", "open-sans"]);
    assert_eq!(groups[1].files, 2);
    assert_eq!(groups[1].font_indices, vec![0, 1]);
    assert_eq!(groups[1].index_ranges, vec!["0-1"]);
    // The first record's declared weight is the default, so the popped
    // `bold` token supplies its effective weight.
    assert_eq!(groups[1].weights, vec!["400", "700"]);
    assert_eq!(groups[1].variants, 2);
    assert_eq!(groups[1].formats, vec!["WOFF2"]);
}

#[test]
fn grouping_ignores_bad_and_duplicate_indices() {
    let fonts = messy_fonts();
    let groups = infer_family_groups(&fonts, &vec![2, 2, 99, 2]);
    assert_eq!(groups.len(), 1);
    assert_eq!(groups[0].name, "Lato");
    assert_eq!(groups[0].files, 1);
    assert_eq!(groups[0].font_indices, vec![2]);
}

#[test]
fn grouped_entries_carry_effective_values() {
    let fonts = messy_fonts();
    let groups = infer_family_groups_all(&fonts);
    let open_sans = &groups[1];
    assert_eq!(open_sans.fonts.len(), 2);
    assert_eq!(open_sans.fonts[0].index, 0);
    assert_eq!(open_sans.fonts[0].weight, "700");
    assert_eq!(open_sans.fonts[0].style, "normal");
    assert_eq!(open_sans.fonts[0].source_family, "OpenSansBold");
    assert_eq!(open_sans.fonts[1].weight, "400");
}

#[test]
fn index_ranges_collapse_runs() {
    assert_eq!(to_index_ranges(&vec![0, 1, 2, 5, 7, 8]), vec!["0-2", "5", "7-8"]);
    assert!(to_index_ranges(&Vec::new()).is_empty());
    assert_eq!(format_index_range(3, 3), "3");
    assert_eq!(format_index_range(4, 9), "4-9");
}

#[test]
fn inferred_family_view_reduces_groups() {
    let fonts = messy_fonts();
    let families = group_by_inferred_family(&fonts);
    assert_eq!(families.len(), 2);
    assert_eq!(families[0].name, "Lato");
    assert_eq!(families[0].font_indices, vec![2]);
    assert_eq!(families[1].name, "Open Sans");
    assert_eq!(families[1].font_indices, vec![0, 1]);
}

#[test]
fn exact_family_grouping_sorts_by_name() {
    let fonts = messy_fonts();
    let families = group_by_family(&fonts);
    assert_eq!(families.len(), 3);
    assert_eq!(families[0].name, "Lato");
    assert_eq!(families[1].name, "OpenSansBold");
    assert_eq!(families[2].name, "open-sans");
}

#[test]
fn sort_orders_family_style_and_weight_distance() {
    let mut fonts = vec![
        font("b.woff2", "Beta", "900", "normal", "u1"),
        font("a.woff2", "alpha", "400", "italic", "u2"),
        font("a2.woff2", "Alpha", "400", "normal", "u3"),
        font("b2.woff2", "beta", "500", "normal", "u4"),
    ];
    sort_fonts(&mut fonts);
    assert_eq!(fonts[0].url, "u3");
    assert_eq!(fonts[1].url, "u2");
    assert_eq!(fonts[2].url, "u4");
    assert_eq!(fonts[3].url, "u1");
}

#[test]
fn compact_join_summarizes_within_width() {
    assert_eq!(compact_join(&Vec::new(), 10), "-");
    assert_eq!(compact_join(&vec!["400".to_string(), "700".to_string()], 18), "400, 700");
    assert_eq!(
        compact_join(&vec!["alpha".to_string(), "beta".to_string(), "gamma".to_string()], 10),
        "alpha, ...",
    );
}
