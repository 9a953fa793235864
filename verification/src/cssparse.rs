//! From scanned stylesheet text to font records: each font-face block's
//! declarations are parsed, the best `src` source is chosen by format rank,
//! and import references resolve against the stylesheet's own URL.
use vstd::prelude::*;

use crate::cssdecl::{get_declaration, parse_css_declarations, spec_css_declarations, spec_decl_get};
use crate::cssscan::{spec_ff_blocks, spec_imports, spec_src_candidates, font_face_blocks, import_refs, src_candidates};
use crate::download::{sanitize_component, spec_sanitize};
use crate::model::{FontData, FontInfo, spec_fonts};
use crate::resolve::{
    file_name_from_url, resolve_import_url, resolve_url, spec_file_name_from_url,
    spec_resolve, spec_resolve_import,
};
use crate::text::{
    push_char, spec_lower_seq, spec_starts_with, spec_strs, spec_trim, spec_trim_match,
    spec_upper_seq, starts_with, str_eq, to_upper, trim_match_char, trim_str,
};

verus! {

/// The preference rank of a source format: smaller is better, unknown last.
pub open spec fn spec_format_rank(f: Seq<char>) -> int {
    let t = spec_upper_seq(spec_trim(f));
    if t == "WOFF2"@ {
        0
    } else if t == "WOFF"@ {
        1
    } else if t == "OPENTYPE"@ || t == "OTF"@ {
        2
    } else if t == "TRUETYPE"@ || t == "TTF"@ {
        3
    } else if t == "EOT"@ {
        4
    } else if t == "SVG"@ {
        5
    } else {
        6
    }
}

/// Ranks a format for source preference.
pub fn format_rank(format: &str) -> (r: usize)
    ensures
        r == spec_format_rank(format@),
{
    let trimmed = trim_str(format);
    let t = to_upper(trimmed.as_str());
    if str_eq(t.as_str(), "WOFF2") {
        0
    } else if str_eq(t.as_str(), "WOFF") {
        1
    } else if str_eq(t.as_str(), "OPENTYPE") || str_eq(t.as_str(), "OTF") {
        2
    } else if str_eq(t.as_str(), "TRUETYPE") || str_eq(t.as_str(), "TTF") {
        3
    } else if str_eq(t.as_str(), "EOT") {
        4
    } else if str_eq(t.as_str(), "SVG") {
        5
    } else {
        6
    }
}

/// The text before the first `?` or `#`.
pub open spec fn spec_clean_url(s: Seq<char>) -> Seq<char>
    decreases s.len(),
{
    if s.len() == 0 || s[0] == '?' || s[0] == '#' {
        Seq::<char>::empty()
    } else {
        seq![s[0]] + spec_clean_url(s.subrange(1, s.len() as int))
    }
}

fn clean_url(s: &str) -> (r: String)
    ensures
        r@ == spec_clean_url(s@),
{
    let n = s.unicode_len();
    let mut i: usize = 0;
    proof {
        assert(s@.subrange(0, n as int) =~= s@);
    }
    while i < n
        invariant
            i <= n,
            n == s@.len(),
            forall|k: int| 0 <= k < i ==> s@[k] != '?' && #[trigger] s@[k] != '#',
            spec_clean_url(s@) == s@.subrange(0, i as int) + spec_clean_url(
                s@.subrange(i as int, n as int),
            ),
        decreases n - i,
    {
        let ghost suffix = s@.subrange(i as int, n as int);
        let c = s.get_char(i);
        proof {
            assert(suffix[0] == s@[i as int]);
            assert(suffix.subrange(1, suffix.len() as int) =~= s@.subrange(i + 1, n as int));
        }
        if c == '?' || c == '#' {
            proof {
                assert(spec_clean_url(suffix) =~= Seq::<char>::empty());
                assert(spec_clean_url(s@) =~= s@.subrange(0, i as int));
            }
            return String::from_str(s.substring_char(0, i));
        }
        proof {
            assert(s@.subrange(0, i + 1) =~= s@.subrange(0, i as int) + seq![s@[i as int]]);
            assert(s@.subrange(0, i as int) + (seq![suffix[0]] + spec_clean_url(
                suffix.subrange(1, suffix.len() as int),
            )) =~= s@.subrange(0, i + 1) + spec_clean_url(s@.subrange(i + 1, n as int)));
        }
        i = i + 1;
    }
    proof {
        assert(spec_clean_url(s@.subrange(n as int, n as int)) =~= Seq::<char>::empty());
        assert(spec_clean_url(s@) =~= s@);
    }
    String::from_str(s)
}

/// The position of the last dot.
pub open spec fn spec_last_dot_any(s: Seq<char>) -> int {
    choose|i: int|
        0 <= i < s.len() && s[i] == '.' && forall|j: int| i < j < s.len() ==> s[j] != '.'
}

/// The text after the last dot; text without a dot stays whole.
pub open spec fn spec_after_last_dot(s: Seq<char>) -> Seq<char> {
    if exists|i: int| 0 <= i < s.len() && s[i] == '.' {
        s.subrange(spec_last_dot_any(s) + 1, s.len() as int)
    } else {
        s
    }
}

fn after_last_dot(s: &str) -> (r: String)
    ensures
        r@ == spec_after_last_dot(s@),
{
    let n = s.unicode_len();
    let mut i: usize = n;
    while i > 0
        invariant
            i <= n,
            n == s@.len(),
            forall|j: int| i <= j < n ==> s@[j] != '.',
        decreases i,
    {
        if s.get_char(i - 1) == '.' {
            proof {
                let d = i - 1;
                assert(0 <= d < s@.len() && s@[d] == '.');
                let w = spec_last_dot_any(s@);
                assert(w == d) by {
                    if w < d {
                        assert(s@[d] == '.');
                    }
                    if w > d {
                        assert(s@[w] != '.');
                    }
                }
            }
            return String::from_str(s.substring_char(i, n));
        }
        i = i - 1;
    }
    proof {
        assert(forall|j: int| 0 <= j < s@.len() ==> s@[j] != '.');
    }
    String::from_str(s)
}

/// The format a URL's file extension suggests.
pub open spec fn spec_format_from_url(u: Seq<char>) -> Seq<char> {
    let ext = spec_lower_seq(spec_after_last_dot(spec_clean_url(u)));
    if ext == "woff2"@ {
        "WOFF2"@
    } else if ext == "woff"@ {
        "WOFF"@
    } else if ext == "ttf"@ {
        "TRUETYPE"@
    } else if ext == "otf"@ {
        "OPENTYPE"@
    } else if ext == "eot"@ {
        "EOT"@
    } else if ext == "svg"@ {
        "SVG"@
    } else {
        "UNKNOWN"@
    }
}

/// Derives a format from a URL's file extension, ignoring query and
/// fragment.
pub fn format_from_url(u: &str) -> (r: String)
    ensures
        r@ == spec_format_from_url(u@),
{
    let cleaned = clean_url(u);
    let tail = after_last_dot(cleaned.as_str());
    let ext = crate::text::to_lower(tail.as_str());
    if str_eq(ext.as_str(), "woff2") {
        String::from_str("WOFF2")
    } else if str_eq(ext.as_str(), "woff") {
        String::from_str("WOFF")
    } else if str_eq(ext.as_str(), "ttf") {
        String::from_str("TRUETYPE")
    } else if str_eq(ext.as_str(), "otf") {
        String::from_str("OPENTYPE")
    } else if str_eq(ext.as_str(), "eot") {
        String::from_str("EOT")
    } else if str_eq(ext.as_str(), "svg") {
        String::from_str("SVG")
    } else {
        String::from_str("UNKNOWN")
    }
}

/// A declared family name bared: whitespace, then double quotes, then single
/// quotes stripped from both ends.
pub open spec fn spec_normalize_family(raw: Seq<char>) -> Seq<char> {
    spec_trim_match(spec_trim_match(spec_trim(raw), '"'), '\'')
}

/// Bares a declared family name of whitespace and quotes.
pub fn normalize_family_name(raw: &str) -> (r: String)
    ensures
        r@ == spec_normalize_family(raw@),
{
    let t = trim_str(raw);
    let t2 = trim_match_char(t.as_str(), '"');
    trim_match_char(t2.as_str(), '\'')
}

/// A filename-safe slug of a declared family name.
pub fn slug_for_file_name(input: &str) -> (r: String)
    ensures
        r@ == spec_sanitize(input@),
{
    sanitize_component(input)
}

/// The resolvable sources of a `src` value: each candidate trimmed, resolved
/// against the base, and paired with its declared format (trimmed and
/// uppercased) or, failing that, the format its URL suggests.
pub open spec fn spec_source_list(
    cands: Seq<(Seq<char>, Option<Seq<char>>)>,
    base: Seq<char>,
) -> Seq<(Seq<char>, Seq<char>)>
    decreases cands.len(),
{
    if cands.len() == 0 {
        Seq::<(Seq<char>, Seq<char>)>::empty()
    } else {
        let raw = spec_trim(cands[0].0);
        let rest = spec_source_list(cands.subrange(1, cands.len() as int), base);
        if raw.len() == 0 {
            rest
        } else {
            match spec_resolve(base, raw) {
                Some(u) => {
                    let fmt = match cands[0].1 {
                        Some(f) => if spec_upper_seq(spec_trim(f)).len() > 0 {
                            spec_upper_seq(spec_trim(f))
                        } else {
                            spec_format_from_url(raw)
                        },
                        None => spec_format_from_url(raw),
                    };
                    seq![(u, fmt)] + rest
                },
                None => rest,
            }
        }
    }
}

/// The best of the remaining sources, with `cur` best so far: a strictly
/// better rank replaces, ties keep the earlier source.
pub open spec fn spec_best_from(
    list: Seq<(Seq<char>, Seq<char>)>,
    cur: (Seq<char>, Seq<char>),
) -> (Seq<char>, Seq<char>)
    decreases list.len(),
{
    if list.len() == 0 {
        cur
    } else {
        spec_best_from(
            list.subrange(1, list.len() as int),
            if spec_format_rank(list[0].1) < spec_format_rank(cur.1) {
                list[0]
            } else {
                cur
            },
        )
    }
}

/// The chosen source of a `src` value: among its resolvable sources, the
/// earliest of the best format rank.
pub open spec fn spec_pick_best(src: Seq<char>, base: Seq<char>) -> Option<(Seq<char>, Seq<char>)> {
    let l = spec_source_list(spec_src_candidates(src), base);
    if l.len() == 0 {
        None
    } else {
        Some(spec_best_from(l.subrange(1, l.len() as int), l[0]))
    }
}

/// The views of a resolved source list.
pub open spec fn spec_srcpairs(v: Seq<(String, String)>) -> Seq<(Seq<char>, Seq<char>)> {
    v.map_values(|p: (String, String)| (p.0@, p.1@))
}

/// Chooses the best source of a `src` value: resolvable sources ranked
/// WOFF2 before WOFF before OPENTYPE before TRUETYPE before EOT before SVG
/// before anything else, ties broken by order of appearance.
pub fn pick_best_source(src_value: &str, base_url: &str) -> (r: Option<(String, String)>)
    ensures
        match r {
            Some(c) => spec_pick_best(src_value@, base_url@) == Some((c.0@, c.1@)),
            None => spec_pick_best(src_value@, base_url@) is None,
        },
{
    let cands = src_candidates(src_value);
    let ghost cv = crate::cssscan::spec_cand_views(cands@);
    let mut list: Vec<(String, String)> = Vec::new();
    let mut k: usize = 0;
    proof {
        assert(cv.subrange(0, cv.len() as int) =~= cv);
        assert(spec_srcpairs(list@) + spec_source_list(cv, base_url@) =~= spec_source_list(
            cv,
            base_url@,
        ));
    }
    while k < cands.len()
        invariant
            k <= cands@.len(),
            cv == crate::cssscan::spec_cand_views(cands@),
            spec_srcpairs(list@) + spec_source_list(
                cv.subrange(k as int, cv.len() as int),
                base_url@,
            ) == spec_source_list(cv, base_url@),
        decreases cands@.len() - k,
    {
        let ghost rest = cv.subrange(k as int, cv.len() as int);
        proof {
            assert(rest[0] == cv[k as int]);
            assert(cv[k as int] == (cands@[k as int].0@, crate::text::spec_opt_str(
                cands@[k as int].1,
            )));
            assert(rest.subrange(1, rest.len() as int) =~= cv.subrange(k + 1, cv.len() as int));
        }
        let raw = trim_str(cands[k].0.as_str());
        if raw.as_str().unicode_len() > 0 {
            match resolve_url(base_url, raw.as_str()) {
                Some(u) => {
                    let fmt: String = match &cands[k].1 {
                        Some(f) => {
                            let tf = trim_str(f.as_str());
                            let uf = to_upper(tf.as_str());
                            if uf.as_str().unicode_len() > 0 {
                                uf
                            } else {
                                format_from_url(raw.as_str())
                            }
                        },
                        None => format_from_url(raw.as_str()),
                    };
                    let ghost item = (u@, fmt@);
                    let ghost pre = spec_srcpairs(list@);
                    list.push((u, fmt));
                    proof {
                        assert(spec_srcpairs(list@) =~= pre.push(item));
                        assert(spec_source_list(rest, base_url@) == seq![item]
                            + spec_source_list(cv.subrange(k + 1, cv.len() as int), base_url@));
                        assert(spec_srcpairs(list@) + spec_source_list(
                            cv.subrange(k + 1, cv.len() as int),
                            base_url@,
                        ) =~= pre + (seq![item] + spec_source_list(
                            cv.subrange(k + 1, cv.len() as int),
                            base_url@,
                        )));
                    }
                },
                None => {},
            }
        }
        k = k + 1;
    }
    proof {
        assert(cv.subrange(cv.len() as int, cv.len() as int).len() == 0);
        assert(spec_source_list(cv.subrange(cv.len() as int, cv.len() as int), base_url@) =~= Seq::<
            (Seq<char>, Seq<char>),
        >::empty());
        assert(spec_srcpairs(list@) + Seq::<(Seq<char>, Seq<char>)>::empty() =~= spec_srcpairs(
            list@,
        ));
    }
    if list.len() == 0 {
        return None;
    }
    let ghost lv = spec_srcpairs(list@);
    let mut best_url = list[0].0.clone();
    let mut best_fmt = list[0].1.clone();
    let mut k2: usize = 1;
    proof {
        assert(lv[0] == (best_url@, best_fmt@));
        assert(lv.subrange(1, lv.len() as int) =~= lv.subrange(1, lv.len() as int));
    }
    while k2 < list.len()
        invariant
            1 <= k2 <= list@.len(),
            lv == spec_srcpairs(list@),
            spec_best_from(lv.subrange(k2 as int, lv.len() as int), (best_url@, best_fmt@))
                == spec_best_from(lv.subrange(1, lv.len() as int), lv[0]),
        decreases list@.len() - k2,
    {
        let ghost rest = lv.subrange(k2 as int, lv.len() as int);
        proof {
            assert(rest[0] == lv[k2 as int]);
            assert(lv[k2 as int] == (list@[k2 as int].0@, list@[k2 as int].1@));
            assert(rest.subrange(1, rest.len() as int) =~= lv.subrange(k2 + 1, lv.len() as int));
        }
        if format_rank(list[k2].1.as_str()) < format_rank(best_fmt.as_str()) {
            best_url = list[k2].0.clone();
            best_fmt = list[k2].1.clone();
        }
        k2 = k2 + 1;
    }
    proof {
        assert(lv.subrange(lv.len() as int, lv.len() as int).len() == 0);
    }
    Some((best_url, best_fmt))
}

/// The record a font-face block yields: it needs a resolvable family name
/// and source; the filename derives from the source URL, or from the family
/// slug for inline payloads and nameless URLs; missing weight and style
/// default to `400` and `normal`.
pub open spec fn spec_block_font(
    block: Seq<char>,
    base: Seq<char>,
    referer: Seq<char>,
) -> Option<FontData> {
    let decls = spec_css_declarations(block);
    match spec_decl_get(decls, "font-family"@) {
        None => None,
        Some(family_raw) => match spec_decl_get(decls, "src"@) {
            None => None,
            Some(src_raw) => {
                let family = spec_normalize_family(family_raw);
                if family.len() == 0 {
                    None
                } else {
                    match spec_pick_best(src_raw, base) {
                        None => None,
                        Some(best) => {
                            let name = if spec_starts_with(best.0, "data:"@) {
                                spec_sanitize(family) + "-embedded"@
                            } else {
                                match spec_file_name_from_url(best.0) {
                                    Some(nm) => nm,
                                    None => spec_sanitize(family) + "-"@ + best.1,
                                }
                            };
                            let weight = match spec_decl_get(decls, "font-weight"@) {
                                Some(w) => w,
                                None => "400"@,
                            };
                            let style = match spec_decl_get(decls, "font-style"@) {
                                Some(st) => st,
                                None => "normal"@,
                            };
                            Some(
                                FontData {
                                    name: name,
                                    family: family,
                                    format: best.1,
                                    url: best.0,
                                    weight: weight,
                                    style: style,
                                    referer: referer,
                                },
                            )
                        },
                    }
                }
            },
        },
    }
}

/// Builds the record of one font-face block, if it names a family and a
/// usable source.
pub fn block_font(block: &str, base_url: &str, referer: &str) -> (r: Option<FontInfo>)
    ensures
        match spec_block_font(block@, base_url@, referer@) {
            Some(fd) => r matches Some(f) && f@ == fd,
            None => r is None,
        },
{
    let decls = parse_css_declarations(block);
    let family_raw = match get_declaration(&decls, "font-family") {
        Some(v) => v,
        None => {
            return None;
        },
    };
    let src_raw = match get_declaration(&decls, "src") {
        Some(v) => v,
        None => {
            return None;
        },
    };
    let family = normalize_family_name(family_raw.as_str());
    if family.as_str().unicode_len() == 0 {
        return None;
    }
    let best = match pick_best_source(src_raw.as_str(), base_url) {
        Some(b) => b,
        None => {
            return None;
        },
    };
    let name: String;
    if starts_with(best.0.as_str(), "data:") {
        let mut nm = slug_for_file_name(family.as_str());
        nm.append("-embedded");
        name = nm;
    } else {
        match file_name_from_url(best.0.as_str()) {
            Some(nm) => {
                name = nm;
            },
            None => {
                let mut nm = slug_for_file_name(family.as_str());
                push_char(&mut nm, '-');
                nm.append(best.1.as_str());
                proof {
                    reveal_strlit("-");
                    assert(nm@ =~= spec_sanitize(family@) + "-"@ + best.1@);
                }
                name = nm;
            },
        }
    }
    let weight = match get_declaration(&decls, "font-weight") {
        Some(w) => w,
        None => String::from_str("400"),
    };
    let style = match get_declaration(&decls, "font-style") {
        Some(st) => st,
        None => String::from_str("normal"),
    };
    Some(
        FontInfo {
            name,
            family,
            format: best.1,
            url: best.0,
            weight,
            style,
            referer: String::from_str(referer),
        },
    )
}

/// The records of a list of font-face blocks, in order.
pub open spec fn spec_block_fonts(
    blocks: Seq<Seq<char>>,
    base: Seq<char>,
    referer: Seq<char>,
) -> Seq<FontData>
    decreases blocks.len(),
{
    if blocks.len() == 0 {
        Seq::<FontData>::empty()
    } else {
        let rest = spec_block_fonts(blocks.subrange(1, blocks.len() as int), base, referer);
        match spec_block_font(blocks[0], base, referer) {
            Some(f) => seq![f] + rest,
            None => rest,
        }
    }
}

/// The records of a stylesheet's font-face rules, in order.
pub open spec fn spec_parse_css_fonts(
    css: Seq<char>,
    base: Seq<char>,
    referer: Seq<char>,
) -> Seq<FontData> {
    spec_block_fonts(spec_ff_blocks(css), base, referer)
}

/// The resolvable imports of a list of raw references, in order.
pub open spec fn spec_import_list(raws: Seq<Seq<char>>, base: Seq<char>) -> Seq<Seq<char>>
    decreases raws.len(),
{
    if raws.len() == 0 {
        Seq::<Seq<char>>::empty()
    } else {
        let rest = spec_import_list(raws.subrange(1, raws.len() as int), base);
        match spec_resolve_import(base, raws[0]) {
            Some(u) => seq![u] + rest,
            None => rest,
        }
    }
}

/// The resolved stylesheet imports of stylesheet text, in order.
pub open spec fn spec_import_urls(css: Seq<char>, base: Seq<char>) -> Seq<Seq<char>> {
    spec_import_list(spec_imports(css), base)
}

/// Parses stylesheet text: the records of its font-face rules, and the
/// resolved URLs of its import directives.
pub fn parse_css(css: &str, base_url: &str, referer: &str) -> (r: (Vec<FontInfo>, Vec<String>))
    ensures
        spec_fonts(r.0@) == spec_parse_css_fonts(css@, base_url@, referer@),
        spec_strs(r.1@) == spec_import_urls(css@, base_url@),
{
    let raw_imports = import_refs(css);
    let ghost rv = spec_strs(raw_imports@);
    let mut imports: Vec<String> = Vec::new();
    let mut k: usize = 0;
    proof {
        assert(rv.subrange(0, rv.len() as int) =~= rv);
        assert(spec_strs(imports@) + spec_import_list(rv, base_url@) =~= spec_import_list(
            rv,
            base_url@,
        ));
    }
    while k < raw_imports.len()
        invariant
            k <= raw_imports@.len(),
            rv == spec_strs(raw_imports@),
            spec_strs(imports@) + spec_import_list(
                rv.subrange(k as int, rv.len() as int),
                base_url@,
            ) == spec_import_list(rv, base_url@),
        decreases raw_imports@.len() - k,
    {
        let ghost rest = rv.subrange(k as int, rv.len() as int);
        proof {
            assert(rest[0] == rv[k as int]);
            assert(rv[k as int] == raw_imports@[k as int]@);
            assert(rest.subrange(1, rest.len() as int) =~= rv.subrange(k + 1, rv.len() as int));
        }
        match resolve_import_url(base_url, raw_imports[k].as_str()) {
            Some(u) => {
                let ghost item = u@;
                let ghost pre = spec_strs(imports@);
                imports.push(u);
                proof {
                    assert(spec_strs(imports@) =~= pre.push(item));
                    assert(spec_strs(imports@) + spec_import_list(
                        rv.subrange(k + 1, rv.len() as int),
                        base_url@,
                    ) =~= pre + (seq![item] + spec_import_list(
                        rv.subrange(k + 1, rv.len() as int),
                        base_url@,
                    )));
                }
            },
            None => {},
        }
        k = k + 1;
    }
    proof {
        assert(rv.subrange(rv.len() as int, rv.len() as int).len() == 0);
        assert(spec_import_list(rv.subrange(rv.len() as int, rv.len() as int), base_url@) =~= Seq::<
            Seq<char>,
        >::empty());
        assert(spec_strs(imports@) + Seq::<Seq<char>>::empty() =~= spec_strs(imports@));
    }
    let blocks = font_face_blocks(css);
    let ghost bv = spec_strs(blocks@);
    let mut fonts: Vec<FontInfo> = Vec::new();
    let mut b: usize = 0;
    proof {
        assert(bv.subrange(0, bv.len() as int) =~= bv);
        assert(spec_fonts(fonts@) + spec_block_fonts(bv, base_url@, referer@) =~= spec_block_fonts(
            bv,
            base_url@,
            referer@,
        ));
    }
    while b < blocks.len()
        invariant
            b <= blocks@.len(),
            bv == spec_strs(blocks@),
            spec_fonts(fonts@) + spec_block_fonts(
                bv.subrange(b as int, bv.len() as int),
                base_url@,
                referer@,
            ) == spec_block_fonts(bv, base_url@, referer@),
        decreases blocks@.len() - b,
    {
        let ghost rest = bv.subrange(b as int, bv.len() as int);
        proof {
            assert(rest[0] == bv[b as int]);
            assert(bv[b as int] == blocks@[b as int]@);
            assert(rest.subrange(1, rest.len() as int) =~= bv.subrange(b + 1, bv.len() as int));
        }
        match block_font(blocks[b].as_str(), base_url, referer) {
            Some(f) => {
                let ghost item = f@;
                let ghost pre = spec_fonts(fonts@);
                fonts.push(f);
                proof {
                    assert(spec_fonts(fonts@) =~= pre.push(item));
                    assert(spec_fonts(fonts@) + spec_block_fonts(
                        bv.subrange(b + 1, bv.len() as int),
                        base_url@,
                        referer@,
                    ) =~= pre + (seq![item] + spec_block_fonts(
                        bv.subrange(b + 1, bv.len() as int),
                        base_url@,
                        referer@,
                    )));
                }
            },
            None => {},
        }
        b = b + 1;
    }
    proof {
        assert(bv.subrange(bv.len() as int, bv.len() as int).len() == 0);
        assert(spec_block_fonts(
            bv.subrange(bv.len() as int, bv.len() as int),
            base_url@,
            referer@,
        ) =~= Seq::<FontData>::empty());
        assert(spec_fonts(fonts@) + Seq::<FontData>::empty() =~= spec_fonts(fonts@));
    }
    (fonts, imports)
}

} // verus!
