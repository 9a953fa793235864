//! The discovered-font data model: one record per font source, raw families
//! grouped by exact declared name, and the canonical record order (family,
//! then upright before italic, then weights nearest 400, then name, then
//! url).
use vstd::prelude::*;

use crate::order::{lemma_stable_insert_at, lemma_stable_sort_push, spec_stable_sort};
use crate::text::{
    contains_sub, lex_le, spec_contains, spec_lex_le, spec_lower_seq, spec_parse_i32, spec_trim,
    str_eq, to_lower, trim_str, parse_i32_str,
};

verus! {

/// One discovered font source; identity for deduplication is its `url`.
#[derive(Debug, PartialEq, Eq)]
pub struct FontInfo {
    pub name: String,
    pub family: String,
    pub format: String,
    pub url: String,
    pub weight: String,
    pub style: String,
    pub referer: String,
}

/// The mathematical image of a [`FontInfo`]: its fields as character
/// sequences.
pub ghost struct FontData {
    pub name: Seq<char>,
    pub family: Seq<char>,
    pub format: Seq<char>,
    pub url: Seq<char>,
    pub weight: Seq<char>,
    pub style: Seq<char>,
    pub referer: Seq<char>,
}

impl View for FontInfo {
    type V = FontData;

    open spec fn view(&self) -> FontData {
        FontData {
            name: self.name@,
            family: self.family@,
            format: self.format@,
            url: self.url@,
            weight: self.weight@,
            style: self.style@,
            referer: self.referer@,
        }
    }
}

impl Clone for FontInfo {
    fn clone(&self) -> (r: Self)
        ensures
            r@ == self@,
    {
        FontInfo {
            name: self.name.clone(),
            family: self.family.clone(),
            format: self.format.clone(),
            url: self.url.clone(),
            weight: self.weight.clone(),
            style: self.style.clone(),
            referer: self.referer.clone(),
        }
    }
}

/// The views of a record list.
pub open spec fn spec_fonts(s: Seq<FontInfo>) -> Seq<FontData> {
    s.map_values(|f: FontInfo| f@)
}

/// A set of records of one exact declared family name.
#[derive(Debug)]
pub struct FontFamily {
    pub name: String,
    pub font_indices: Vec<usize>,
}

/// The mathematical image of a [`FontFamily`].
pub ghost struct FamilyData {
    pub name: Seq<char>,
    pub font_indices: Seq<usize>,
}

impl View for FontFamily {
    type V = FamilyData;

    open spec fn view(&self) -> FamilyData {
        FamilyData { name: self.name@, font_indices: self.font_indices@ }
    }
}

impl Clone for FontFamily {
    fn clone(&self) -> (r: Self)
        ensures
            r@ == self@,
    {
        FontFamily { name: self.name.clone(), font_indices: clone_usizes(&self.font_indices) }
    }
}

/// Copies an index list.
pub fn clone_usizes(v: &Vec<usize>) -> (r: Vec<usize>)
    ensures
        r@ == v@,
{
    let mut out: Vec<usize> = Vec::new();
    let mut i: usize = 0;
    while i < v.len()
        invariant
            i <= v@.len(),
            out@ == v@.subrange(0, i as int),
        decreases v@.len() - i,
    {
        out.push(v[i]);
        proof {
            assert(v@.subrange(0, i + 1) =~= v@.subrange(0, i as int).push(v@[i as int]));
        }
        i = i + 1;
    }
    proof {
        assert(v@.subrange(0, v@.len() as int) =~= v@);
    }
    out
}

/// Whether a declared style counts as italic for ordering purposes.
pub open spec fn spec_is_italic(style: Seq<char>) -> bool {
    spec_contains(spec_lower_seq(style), "italic"@)
}

/// The numeric weight a declared value stands for: parsed if numeric, 700 for
/// anything mentioning "bold", else 400.
pub open spec fn spec_weight_value(weight: Seq<char>) -> int {
    let t = spec_lower_seq(spec_trim(weight));
    match spec_parse_i32(t) {
        Some(v) => v as int,
        None => if spec_contains(t, "bold"@) {
            700
        } else {
            400
        },
    }
}

/// Distance of a declared weight from the regular weight 400.
pub open spec fn spec_weight_dist(weight: Seq<char>) -> int {
    let v = spec_weight_value(weight);
    if v >= 400 {
        v - 400
    } else {
        400 - v
    }
}

/// The record order: lowercased family, upright before italic, weight
/// distance from 400, lowercased name, then url.
pub open spec fn spec_font_le(a: FontData, b: FontData) -> bool {
    let fa = spec_lower_seq(a.family);
    let fb = spec_lower_seq(b.family);
    if fa != fb {
        spec_lex_le(fa, fb)
    } else if spec_is_italic(a.style) != spec_is_italic(b.style) {
        !spec_is_italic(a.style)
    } else if spec_weight_dist(a.weight) != spec_weight_dist(b.weight) {
        spec_weight_dist(a.weight) < spec_weight_dist(b.weight)
    } else if spec_lower_seq(a.name) != spec_lower_seq(b.name) {
        spec_lex_le(spec_lower_seq(a.name), spec_lower_seq(b.name))
    } else {
        spec_lex_le(a.url, b.url)
    }
}

/// The sorted record list, stably ordered by [`spec_font_le`].
pub open spec fn spec_sort_fonts(s: Seq<FontData>) -> Seq<FontData> {
    spec_stable_sort(s, |a: FontData, b: FontData| spec_font_le(a, b))
}

fn is_italic(style: &String) -> (r: bool)
    ensures
        r == spec_is_italic(style@),
{
    let lowered = to_lower(style.as_str());
    contains_sub(lowered.as_str(), "italic")
}

fn weight_dist(weight: &String) -> (r: u64)
    ensures
        r == spec_weight_dist(weight@),
{
    let trimmed = trim_str(weight.as_str());
    let normalized = to_lower(trimmed.as_str());
    let value: i64 = match parse_i32_str(normalized.as_str()) {
        Some(v) => v as i64,
        None => {
            if contains_sub(normalized.as_str(), "bold") {
                700
            } else {
                400
            }
        },
    };
    if value >= 400 {
        (value - 400) as u64
    } else {
        (400 - value) as u64
    }
}

/// Whether record `a` sorts at-or-before record `b`.
pub fn font_le(a: &FontInfo, b: &FontInfo) -> (r: bool)
    ensures
        r == spec_font_le(a@, b@),
{
    let fa = to_lower(a.family.as_str());
    let fb = to_lower(b.family.as_str());
    if !str_eq(fa.as_str(), fb.as_str()) {
        return lex_le(fa.as_str(), fb.as_str());
    }
    let ia = is_italic(&a.style);
    let ib = is_italic(&b.style);
    if ia != ib {
        return !ia;
    }
    let wa = weight_dist(&a.weight);
    let wb = weight_dist(&b.weight);
    if wa != wb {
        return wa < wb;
    }
    let na = to_lower(a.name.as_str());
    let nb = to_lower(b.name.as_str());
    if !str_eq(na.as_str(), nb.as_str()) {
        return lex_le(na.as_str(), nb.as_str());
    }
    lex_le(a.url.as_str(), b.url.as_str())
}

/// Sorts the record list stably by family, style, weight distance, name and
/// url, as [`spec_sort_fonts`] lays it out.
pub fn sort_fonts(fonts: &mut Vec<FontInfo>)
    ensures
        spec_fonts(final(fonts)@) == spec_sort_fonts(spec_fonts(old(fonts)@)),
{
    let ghost le = |a: FontData, b: FontData| spec_font_le(a, b);
    let mut out: Vec<FontInfo> = Vec::new();
    let mut i: usize = 0;
    while i < fonts.len()
        invariant
            i <= fonts@.len(),
            spec_fonts(out@) == spec_stable_sort(spec_fonts(fonts@.subrange(0, i as int)), le),
            le == (|a: FontData, b: FontData| spec_font_le(a, b)),
        decreases fonts@.len() - i,
    {
        let x = fonts[i].clone();
        let mut j: usize = 0;
        while j < out.len() && font_le(&out[j], &x)
            invariant
                j <= out@.len(),
                forall|k: int| 0 <= k < j ==> le(#[trigger] spec_fonts(out@)[k], x@),
                le == (|a: FontData, b: FontData| spec_font_le(a, b)),
            decreases out@.len() - j,
        {
            j = j + 1;
        }
        proof {
            lemma_stable_insert_at(spec_fonts(out@), x@, le, j as int);
            assert(spec_fonts(fonts@.subrange(0, i + 1)) =~= spec_fonts(
                fonts@.subrange(0, i as int),
            ).push(fonts@[i as int]@));
            lemma_stable_sort_push(spec_fonts(fonts@.subrange(0, i as int)), fonts@[i as int]@, le);
        }
        out.insert(j, x);
        proof {
            assert(spec_fonts(out@) =~= spec_fonts(out@.subrange(0, j as int)) + seq![
                out@[j as int]@,
            ] + spec_fonts(out@.subrange(j + 1, out@.len() as int)));
        }
        i = i + 1;
    }
    proof {
        assert(fonts@.subrange(0, fonts@.len() as int) =~= fonts@);
    }
    *fonts = out;
}

/// The record order holds between every pair, one way or the other.
proof fn lemma_font_le_connected(a: FontData, b: FontData)
    ensures
        spec_font_le(a, b) || spec_font_le(b, a),
{
    lemma_lex_le_total(spec_lower_seq(a.family), spec_lower_seq(b.family));
    lemma_lex_le_total(spec_lower_seq(a.name), spec_lower_seq(b.name));
    lemma_lex_le_total(a.url, b.url);
}

/// The record order is transitive.
proof fn lemma_font_le_trans(a: FontData, b: FontData, c: FontData)
    requires
        spec_font_le(a, b),
        spec_font_le(b, c),
    ensures
        spec_font_le(a, c),
{
    let fa = spec_lower_seq(a.family);
    let fb = spec_lower_seq(b.family);
    let fc = spec_lower_seq(c.family);
    let na = spec_lower_seq(a.name);
    let nb = spec_lower_seq(b.name);
    let nc = spec_lower_seq(c.name);
    if spec_lex_le(fa, fb) && spec_lex_le(fb, fc) {
        lemma_lex_le_trans(fa, fb, fc);
    }
    if spec_lex_le(fa, fb) && spec_lex_le(fb, fa) {
        lemma_lex_le_antisym(fa, fb);
    }
    if spec_lex_le(fb, fc) && spec_lex_le(fc, fb) {
        lemma_lex_le_antisym(fb, fc);
    }
    if spec_lex_le(na, nb) && spec_lex_le(nb, nc) {
        lemma_lex_le_trans(na, nb, nc);
    }
    if spec_lex_le(na, nb) && spec_lex_le(nb, na) {
        lemma_lex_le_antisym(na, nb);
    }
    if spec_lex_le(nb, nc) && spec_lex_le(nc, nb) {
        lemma_lex_le_antisym(nb, nc);
    }
    if spec_lex_le(a.url, b.url) && spec_lex_le(b.url, c.url) {
        lemma_lex_le_trans(a.url, b.url, c.url);
    }
}

/// Law: the canonical order is a real sort. The sorted record list holds
/// exactly the input's records, each as often as the input does, and stands
/// ordered by family, style, weight distance, name and url throughout.
pub proof fn lemma_sort_fonts_canonical(s: Seq<FontData>)
    ensures
        spec_sort_fonts(s).to_multiset() == s.to_multiset(),
        vstd::relations::sorted_by(
            spec_sort_fonts(s),
            |a: FontData, b: FontData| spec_font_le(a, b),
        ),
{
    let le = |a: FontData, b: FontData| spec_font_le(a, b);
    assert(vstd::relations::strongly_connected(le)) by {
        assert forall|x: FontData, y: FontData| #[trigger] le(x, y) || #[trigger] le(y, x) by {
            lemma_font_le_connected(x, y);
        }
    }
    assert(vstd::relations::transitive(le)) by {
        assert forall|x: FontData, y: FontData, z: FontData|
            #[trigger] le(x, y) && #[trigger] le(y, z) implies le(x, z) by {
            lemma_font_le_trans(x, y, z);
        }
    }
    crate::order::lemma_stable_sort_permutes(s, le);
    crate::order::lemma_stable_sort_sorted(s, le);
}

/// One step of exact-name grouping: index `i` of a record whose declared
/// family is `name` joins its family's group, or founds a new group placed in
/// name order.
pub open spec fn spec_family_step(groups: Seq<FamilyData>, name: Seq<char>, i: usize) -> Seq<
    FamilyData,
>
    decreases groups.len(),
{
    if groups.len() == 0 {
        seq![FamilyData { name: name, font_indices: seq![i] }]
    } else if groups[0].name == name {
        seq![
            FamilyData { name: groups[0].name, font_indices: groups[0].font_indices.push(i) },
        ] + groups.subrange(1, groups.len() as int)
    } else if spec_lex_le(name, groups[0].name) {
        seq![FamilyData { name: name, font_indices: seq![i] }] + groups
    } else {
        seq![groups[0]] + spec_family_step(groups.subrange(1, groups.len() as int), name, i)
    }
}

/// Exact-name grouping of the first `n` records.
pub open spec fn spec_group_by_family(fonts: Seq<FontData>, n: int) -> Seq<FamilyData>
    decreases n,
{
    if n <= 0 {
        Seq::<FamilyData>::empty()
    } else {
        spec_family_step(spec_group_by_family(fonts, n - 1), fonts[n - 1].family, (n - 1) as usize)
    }
}

/// The views of a family list.
pub open spec fn spec_families(s: Seq<FontFamily>) -> Seq<FamilyData> {
    s.map_values(|f: FontFamily| f@)
}

/// Groups records by their exact declared family name; groups come out in
/// name order, each holding its member indices in ascending order.
pub fn group_by_family(fonts: &Vec<FontInfo>) -> (groups: Vec<FontFamily>)
    ensures
        spec_families(groups@) == spec_group_by_family(spec_fonts(fonts@), fonts@.len() as int),
{
    let mut groups: Vec<FontFamily> = Vec::new();
    let mut i: usize = 0;
    while i < fonts.len()
        invariant
            i <= fonts@.len(),
            spec_families(groups@) == spec_group_by_family(spec_fonts(fonts@), i as int),
        decreases fonts@.len() - i,
    {
        let name = fonts[i].family.clone();
        family_step(&mut groups, name, i);
        proof {
            assert(spec_fonts(fonts@)[i as int] == fonts@[i as int]@);
        }
        i = i + 1;
    }
    groups
}

/// Adds index `i` under family `name`, founding the group if it is new.
fn family_step(groups: &mut Vec<FontFamily>, name: String, i: usize)
    ensures
        spec_families(final(groups)@) == spec_family_step(spec_families(old(groups)@), name@, i),
{
    let mut j: usize = 0;
    while j < groups.len()
        invariant
            j <= groups@.len(),
            groups@ == old(groups)@,
            forall|k: int|
                0 <= k < j ==> (#[trigger] spec_families(groups@)[k]).name != name@ && spec_lex_le(
                    spec_families(groups@)[k].name,
                    name@,
                ),
        decreases groups@.len() - j,
    {
        if str_eq(groups[j].name.as_str(), name.as_str()) {
            groups[j].font_indices.push(i);
            proof {
                lemma_family_step_hits(spec_families(old(groups)@), name@, i, j as int);
                assert(spec_families(groups@) =~= spec_family_step(
                    spec_families(old(groups)@),
                    name@,
                    i,
                ));
            }
            return ;
        }
        if !lex_le(groups[j].name.as_str(), name.as_str()) {
            let fresh = FontFamily { name, font_indices: vec_of_one(i) };
            groups.insert(j, fresh);
            proof {
                lemma_family_step_inserts(spec_families(old(groups)@), name@, i, j as int);
                assert(spec_families(groups@) =~= spec_family_step(
                    spec_families(old(groups)@),
                    name@,
                    i,
                ));
            }
            return ;
        }
        j = j + 1;
    }
    let fresh = FontFamily { name, font_indices: vec_of_one(i) };
    groups.push(fresh);
    proof {
        lemma_family_step_inserts(spec_families(old(groups)@), name@, i, old(groups)@.len() as int);
        assert(spec_families(groups@) =~= spec_family_step(
            spec_families(old(groups)@),
            name@,
            i,
        ));
    }
}

fn vec_of_one(i: usize) -> (r: Vec<usize>)
    ensures
        r@ == seq![i],
{
    let mut v: Vec<usize> = Vec::new();
    v.push(i);
    proof {
        assert(v@ =~= seq![i]);
    }
    v
}

/// When the first `j` groups sort before `name` and group `j` carries it,
/// the step appends the index to group `j`.
proof fn lemma_family_step_hits(groups: Seq<FamilyData>, name: Seq<char>, i: usize, j: int)
    requires
        0 <= j < groups.len(),
        forall|k: int|
            0 <= k < j ==> (#[trigger] groups[k]).name != name && spec_lex_le(
                groups[k].name,
                name,
            ),
        groups[j].name == name,
    ensures
        spec_family_step(groups, name, i) == groups.update(
            j,
            FamilyData { name: groups[j].name, font_indices: groups[j].font_indices.push(i) },
        ),
    decreases j,
{
    let rest = groups.subrange(1, groups.len() as int);
    if j == 0 {
        assert(spec_family_step(groups, name, i) =~= groups.update(
            0,
            FamilyData { name: groups[0].name, font_indices: groups[0].font_indices.push(i) },
        ));
    } else {
        assert(groups[0].name != name);
        if spec_lex_le(name, groups[0].name) {
            lemma_lex_le_antisym(groups[0].name, name);
            assert(false);
        }
        lemma_family_step_hits(rest, name, i, j - 1);
        assert(spec_family_step(groups, name, i) =~= groups.update(
            j,
            FamilyData { name: groups[j].name, font_indices: groups[j].font_indices.push(i) },
        ));
    }
}

/// When the first `j` groups sort before `name`, none of them carries it, and
/// group `j` (if any) sorts after it, the step founds a new group at `j`.
proof fn lemma_family_step_inserts(groups: Seq<FamilyData>, name: Seq<char>, i: usize, j: int)
    requires
        0 <= j <= groups.len(),
        forall|k: int|
            0 <= k < j ==> (#[trigger] groups[k]).name != name && spec_lex_le(
                groups[k].name,
                name,
            ),
        j < groups.len() ==> !spec_lex_le(groups[j].name, name),
    ensures
        spec_family_step(groups, name, i) == groups.insert(
            j,
            FamilyData { name: name, font_indices: seq![i] },
        ),
    decreases j,
{
    if j == 0 {
        if groups.len() == 0 {
            assert(spec_family_step(groups, name, i) =~= groups.insert(
                0,
                FamilyData { name: name, font_indices: seq![i] },
            ));
        } else {
            assert(!spec_lex_le(groups[0].name, name));
            assert(groups[0].name != name) by {
                lemma_lex_le_refl(name);
            }
            assert(spec_lex_le(name, groups[0].name)) by {
                lemma_lex_le_total(name, groups[0].name);
            }
            assert(spec_family_step(groups, name, i) =~= groups.insert(
                0,
                FamilyData { name: name, font_indices: seq![i] },
            ));
        }
    } else {
        let rest = groups.subrange(1, groups.len() as int);
        assert(groups[0].name != name);
        if spec_lex_le(name, groups[0].name) {
            lemma_lex_le_antisym(groups[0].name, name);
            assert(false);
        }
        lemma_family_step_inserts(rest, name, i, j - 1);
        assert(spec_family_step(groups, name, i) =~= groups.insert(
            j,
            FamilyData { name: name, font_indices: seq![i] },
        ));
    }
}

/// Lexicographic order is reflexive.
pub proof fn lemma_lex_le_refl(a: Seq<char>)
    ensures
        spec_lex_le(a, a),
    decreases a.len(),
{
    if a.len() > 0 {
        lemma_lex_le_refl(a.subrange(1, a.len() as int));
    }
}

/// Lexicographic order is total.
pub proof fn lemma_lex_le_total(a: Seq<char>, b: Seq<char>)
    ensures
        spec_lex_le(a, b) || spec_lex_le(b, a),
    decreases a.len(),
{
    if a.len() > 0 && b.len() > 0 && a[0] == b[0] {
        lemma_lex_le_total(a.subrange(1, a.len() as int), b.subrange(1, b.len() as int));
    }
}

/// Lexicographic order is transitive.
pub proof fn lemma_lex_le_trans(a: Seq<char>, b: Seq<char>, c: Seq<char>)
    requires
        spec_lex_le(a, b),
        spec_lex_le(b, c),
    ensures
        spec_lex_le(a, c),
    decreases a.len(),
{
    if a.len() > 0 && b.len() > 0 && c.len() > 0 && a[0] == b[0] && b[0] == c[0] {
        lemma_lex_le_trans(
            a.subrange(1, a.len() as int),
            b.subrange(1, b.len() as int),
            c.subrange(1, c.len() as int),
        );
    }
}

/// Two strings each at-or-before the other are equal.
pub proof fn lemma_lex_le_antisym(a: Seq<char>, b: Seq<char>)
    requires
        spec_lex_le(a, b),
        spec_lex_le(b, a),
    ensures
        a == b,
    decreases a.len(),
{
    if a.len() > 0 && b.len() > 0 && a[0] == b[0] {
        lemma_lex_le_antisym(a.subrange(1, a.len() as int), b.subrange(1, b.len() as int));
        assert(a =~= seq![a[0]] + a.subrange(1, a.len() as int));
        assert(b =~= seq![b[0]] + b.subrange(1, b.len() as int));
    } else {
        assert(a.len() == 0 || b.len() == 0 || a[0] == b[0]);
        if a.len() == 0 {
            assert(b.len() == 0);
        }
        assert(a =~= b);
    }
}

} // verus!
