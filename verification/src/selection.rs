//! Resolution of user selection criteria into concrete record indices: a
//! record is selected when the select-all flag is set or any clause matches
//! it; the result is the ascending, duplicate-free union.
use vstd::prelude::*;

use crate::errors::CoreError;
use crate::inspect::{
    clone_strings, select_indices_by_inferred_family_names, spec_all_groups, spec_group_matches,
};
use crate::model::{clone_usizes, spec_fonts, FontData, FontInfo};
use crate::order::contains_usize;
use crate::text::{spec_lower_seq, spec_strs, spec_trim, str_eq, to_lower, trim_str};

verus! {

/// Independent optional clauses; a record is selected if it satisfies the
/// select-all flag or matches any clause.
#[derive(Debug)]
pub struct FontSelection {
    pub all: bool,
    pub families: Vec<String>,
    pub names: Vec<String>,
    pub urls: Vec<String>,
    pub indices: Vec<usize>,
}

/// The mathematical image of a [`FontSelection`].
pub ghost struct SelectionData {
    pub all: bool,
    pub families: Seq<Seq<char>>,
    pub names: Seq<Seq<char>>,
    pub urls: Seq<Seq<char>>,
    pub indices: Seq<usize>,
}

impl View for FontSelection {
    type V = SelectionData;

    open spec fn view(&self) -> SelectionData {
        SelectionData {
            all: self.all,
            families: self.families@.map_values(|s: String| s@),
            names: self.names@.map_values(|s: String| s@),
            urls: self.urls@.map_values(|s: String| s@),
            indices: self.indices@,
        }
    }
}

impl Clone for FontSelection {
    fn clone(&self) -> (r: Self)
        ensures
            r@ == self@,
    {
        let r = FontSelection {
            all: self.all,
            families: clone_strings(&self.families),
            names: clone_strings(&self.names),
            urls: clone_strings(&self.urls),
            indices: clone_usizes(&self.indices),
        };
        proof {
            assert(r@.families =~= self@.families);
            assert(r@.names =~= self@.names);
            assert(r@.urls =~= self@.urls);
        }
        r
    }
}

impl Default for FontSelection {
    /// No clause active.
    fn default() -> (r: Self)
        ensures
            !r@.all,
            r@.families.len() == 0,
            r@.names.len() == 0,
            r@.urls.len() == 0,
            r@.indices.len() == 0,
    {
        FontSelection {
            all: false,
            families: Vec::new(),
            names: Vec::new(),
            urls: Vec::new(),
            indices: Vec::new(),
        }
    }
}

/// Case-insensitive, trimmed matching key.
pub open spec fn spec_norm(s: Seq<char>) -> Seq<char> {
    spec_lower_seq(spec_trim(s))
}

/// Whether any clause of the criteria is active.
pub open spec fn spec_has_selectors(sel: SelectionData) -> bool {
    sel.all || sel.families.len() > 0 || sel.names.len() > 0 || sel.urls.len() > 0
        || sel.indices.len() > 0
}

/// Whether record `i` satisfies the select-all flag or some clause. A
/// family-name entry matches per the inferred grouping: it selects every
/// record of a group whose display name or any raw alias it equals,
/// trimmed and case-insensitive.
pub open spec fn spec_clause_match(fonts: Seq<FontData>, sel: SelectionData, i: int) -> bool {
    ||| sel.all
    ||| sel.indices.contains(i as usize)
    ||| exists|g: int|
        0 <= g < spec_all_groups(fonts).len() && spec_group_matches(
            #[trigger] spec_all_groups(fonts)[g],
            sel.families,
        ) && spec_all_groups(fonts)[g].font_indices.contains(i as usize)
    ||| exists|j: int|
        0 <= j < sel.names.len() && spec_norm(#[trigger] sel.names[j]) == spec_norm(fonts[i].name)
    ||| exists|j: int| 0 <= j < sel.urls.len() && #[trigger] sel.urls[j] == fonts[i].url
}

/// Whether index `i` belongs to the resolved selection.
pub open spec fn spec_selected(fonts: Seq<FontData>, sel: SelectionData, i: int) -> bool {
    0 <= i < fonts.len() && spec_clause_match(fonts, sel, i)
}

impl FontSelection {
    /// Whether any clause is active; inactive criteria are a caller error for
    /// selection.
    pub fn has_selectors(&self) -> (r: bool)
        ensures
            r == spec_has_selectors(self@),
    {
        self.all || self.families.len() > 0 || self.names.len() > 0 || self.urls.len() > 0
            || self.indices.len() > 0
    }
}

/// Normalizes for comparison: trims, then lowercases.
pub fn normalize(input: &str) -> (r: String)
    ensures
        r@ == spec_norm(input@),
{
    let trimmed = trim_str(input);
    to_lower(trimmed.as_str())
}

pub(crate) fn any_normalized_match(values: &Vec<String>, target: &String) -> (r: bool)
    ensures
        r == exists|j: int|
            0 <= j < values@.len() && spec_norm((#[trigger] values@[j])@) == spec_norm(target@),
{
    let want = normalize(target.as_str());
    let mut i: usize = 0;
    while i < values.len()
        invariant
            i <= values@.len(),
            want@ == spec_norm(target@),
            forall|k: int| 0 <= k < i ==> spec_norm((#[trigger] values@[k])@) != spec_norm(target@),
        decreases values@.len() - i,
    {
        let got = normalize(values[i].as_str());
        if str_eq(got.as_str(), want.as_str()) {
            return true;
        }
        i = i + 1;
    }
    false
}

fn any_exact_match(values: &Vec<String>, target: &String) -> (r: bool)
    ensures
        r == exists|j: int| 0 <= j < values@.len() && (#[trigger] values@[j])@ == target@,
{
    let mut i: usize = 0;
    while i < values.len()
        invariant
            i <= values@.len(),
            forall|k: int| 0 <= k < i ==> (#[trigger] values@[k])@ != target@,
        decreases values@.len() - i,
    {
        if str_eq(values[i].as_str(), target.as_str()) {
            return true;
        }
        i = i + 1;
    }
    false
}

fn clause_match(fonts: &Vec<FontInfo>, selection: &FontSelection, family_hit: bool, i: usize) -> (r:
    bool)
    requires
        i < fonts@.len(),
        family_hit == exists|g: int|
            0 <= g < spec_all_groups(spec_fonts(fonts@)).len() && spec_group_matches(
                #[trigger] spec_all_groups(spec_fonts(fonts@))[g],
                selection@.families,
            ) && spec_all_groups(spec_fonts(fonts@))[g].font_indices.contains(i),
    ensures
        r == spec_clause_match(spec_fonts(fonts@), selection@, i as int),
{
    if selection.all {
        return true;
    }
    if contains_usize(&selection.indices, i) {
        return true;
    }
    if family_hit {
        return true;
    }
    let font = &fonts[i];
    if any_normalized_match(&selection.names, &font.name) {
        proof {
            assert(spec_fonts(fonts@)[i as int] == fonts@[i as int]@);
            let j = choose|j: int|
                0 <= j < selection.names@.len() && spec_norm(
                    (#[trigger] selection.names@[j])@,
                ) == spec_norm(fonts@[i as int]@.name);
            assert(selection@.names[j] == selection.names@[j]@);
        }
        return true;
    }
    if any_exact_match(&selection.urls, &font.url) {
        proof {
            assert(spec_fonts(fonts@)[i as int] == fonts@[i as int]@);
            let j = choose|j: int|
                0 <= j < selection.urls@.len() && (#[trigger] selection.urls@[j])@ == fonts@[i
                    as int]@.url;
            assert(selection@.urls[j] == selection.urls@[j]@);
        }
        return true;
    }
    proof {
        assert(spec_fonts(fonts@)[i as int] == fonts@[i as int]@);
    }
    false
}

/// Resolves criteria into the ascending, duplicate-free list of exactly the
/// record indices that the select-all flag or some clause covers; a family
/// entry selects every record of an inferred group whose display name or
/// raw alias it names.
pub fn select_font_indices(fonts: &Vec<FontInfo>, selection: &FontSelection) -> (r: Vec<usize>)
    ensures
        forall|k: int, l: int| 0 <= k < l < r@.len() ==> r@[k] < r@[l],
        forall|x: usize| r@.contains(x) == spec_selected(spec_fonts(fonts@), selection@, x as int),
{
    let family_hits = select_indices_by_inferred_family_names(fonts, &selection.families);
    proof {
        assert(spec_strs(selection.families@) =~= selection@.families);
    }
    let mut out: Vec<usize> = Vec::new();
    let mut i: usize = 0;
    while i < fonts.len()
        invariant
            i <= fonts@.len(),
            spec_strs(selection.families@) == selection@.families,
            selection@.families.len() == 0 ==> family_hits@.len() == 0,
            selection@.families.len() > 0 ==> forall|x: usize|
                family_hits@.contains(x) == exists|g: int|
                    0 <= g < spec_all_groups(spec_fonts(fonts@)).len() && spec_group_matches(
                        #[trigger] spec_all_groups(spec_fonts(fonts@))[g],
                        selection@.families,
                    ) && spec_all_groups(spec_fonts(fonts@))[g].font_indices.contains(x),
            forall|k: int, l: int| 0 <= k < l < out@.len() ==> out@[k] < out@[l],
            forall|k: int| 0 <= k < out@.len() ==> 0 <= #[trigger] out@[k] < i,
            forall|x: usize|
                x < i ==> (out@.contains(x) == spec_selected(
                    spec_fonts(fonts@),
                    selection@,
                    x as int,
                )),
        decreases fonts@.len() - i,
    {
        let fam_hit = contains_usize(&family_hits, i);
        proof {
            if selection@.families.len() == 0 {
                assert(!family_hits@.contains(i));
                assert(!(exists|g: int|
                    0 <= g < spec_all_groups(spec_fonts(fonts@)).len() && spec_group_matches(
                        #[trigger] spec_all_groups(spec_fonts(fonts@))[g],
                        selection@.families,
                    ) && spec_all_groups(spec_fonts(fonts@))[g].font_indices.contains(i)));
            }
        }
        let matched = clause_match(fonts, selection, fam_hit, i);
        let ghost pre = out@;
        if matched {
            out.push(i);
        }
        proof {
            assert forall|x: usize|
                x < i + 1 implies (out@.contains(x) == spec_selected(
                spec_fonts(fonts@),
                selection@,
                x as int,
            )) by {
                if matched {
                    assert(out@ == pre.push(i));
                    assert(out@[out@.len() - 1] == i);
                    if x < i {
                        if pre.contains(x) {
                            let k = choose|k: int| 0 <= k < pre.len() && pre[k] == x;
                            assert(out@[k] == x);
                            assert(out@.contains(x));
                        }
                        if out@.contains(x) {
                            let k = choose|k: int| 0 <= k < out@.len() && out@[k] == x;
                            assert(k < pre.len());
                            assert(pre.contains(x));
                        }
                    }
                } else {
                    if x == i && out@.contains(x) {
                        let k = choose|k: int| 0 <= k < out@.len() && out@[k] == x;
                        assert(out@[k] < i);
                    }
                }
            }
        }
        i = i + 1;
    }
    proof {
        assert(forall|x: usize|
            x >= fonts@.len() ==> !spec_selected(spec_fonts(fonts@), selection@, x as int));
        assert(forall|x: usize| x >= i ==> !out@.contains(x));
    }
    out
}

/// The records at the listed indices, in list order; out-of-range indices
/// contribute nothing.
pub open spec fn spec_select_fonts(fonts: Seq<FontData>, idx: Seq<usize>) -> Seq<FontData>
    decreases idx.len(),
{
    if idx.len() == 0 {
        Seq::<FontData>::empty()
    } else {
        let rest = spec_select_fonts(fonts, idx.subrange(1, idx.len() as int));
        if idx[0] < fonts.len() {
            seq![fonts[idx[0] as int]] + rest
        } else {
            rest
        }
    }
}

/// Copies out the records at the given indices, skipping any out of range.
pub fn select_fonts(fonts: &Vec<FontInfo>, indices: &Vec<usize>) -> (r: Vec<FontInfo>)
    ensures
        spec_fonts(r@) == spec_select_fonts(spec_fonts(fonts@), indices@),
{
    let ghost fv = spec_fonts(fonts@);
    let mut out: Vec<FontInfo> = Vec::new();
    let mut k: usize = 0;
    proof {
        assert(indices@.subrange(0, indices@.len() as int) =~= indices@);
        assert(spec_fonts(out@) + spec_select_fonts(fv, indices@) =~= spec_select_fonts(
            fv,
            indices@,
        ));
    }
    while k < indices.len()
        invariant
            k <= indices@.len(),
            fv == spec_fonts(fonts@),
            spec_fonts(out@) + spec_select_fonts(
                fv,
                indices@.subrange(k as int, indices@.len() as int),
            ) == spec_select_fonts(fv, indices@),
        decreases indices@.len() - k,
    {
        let ghost rest = indices@.subrange(k as int, indices@.len() as int);
        proof {
            assert(rest[0] == indices@[k as int]);
            assert(rest.subrange(1, rest.len() as int) =~= indices@.subrange(
                k + 1,
                indices@.len() as int,
            ));
        }
        let idx = indices[k];
        if idx < fonts.len() {
            let record = fonts[idx].clone();
            let ghost pre = spec_fonts(out@);
            out.push(record);
            proof {
                assert(fv[idx as int] == fonts@[idx as int]@);
                assert(spec_fonts(out@) =~= pre.push(fv[idx as int]));
                assert(spec_fonts(out@) + spec_select_fonts(
                    fv,
                    indices@.subrange(k + 1, indices@.len() as int),
                ) =~= pre + (seq![fv[idx as int]] + spec_select_fonts(
                    fv,
                    indices@.subrange(k + 1, indices@.len() as int),
                )));
            }
        }
        k = k + 1;
    }
    proof {
        assert(indices@.subrange(indices@.len() as int, indices@.len() as int).len() == 0);
        assert(spec_select_fonts(
            fv,
            indices@.subrange(indices@.len() as int, indices@.len() as int),
        ) =~= Seq::<FontData>::empty());
        assert(spec_fonts(out@) + Seq::<FontData>::empty() =~= spec_fonts(out@));
    }
    out
}

/// Resolves criteria, rejecting inactive criteria and criteria that match
/// nothing with a selection error rather than an empty success.
pub fn resolve_selection(fonts: &Vec<FontInfo>, selection: &FontSelection) -> (r: Result<
    Vec<usize>,
    CoreError,
>)
    ensures
        r is Err <==> (!spec_has_selectors(selection@) || forall|x: usize|
            !spec_selected(spec_fonts(fonts@), selection@, x as int)),
        r matches Err(e) ==> e is Selection,
        r matches Ok(v) ==> {
            &&& v@.len() > 0
            &&& forall|k: int, l: int| 0 <= k < l < v@.len() ==> v@[k] < v@[l]
            &&& forall|x: usize|
                v@.contains(x) == spec_selected(spec_fonts(fonts@), selection@, x as int)
        },
{
    if !selection.has_selectors() {
        return Err(CoreError::Selection(String::from_str("no selection provided")));
    }
    let picked = select_font_indices(fonts, selection);
    if picked.len() == 0 {
        proof {
            assert forall|x: usize| !spec_selected(
                spec_fonts(fonts@),
                selection@,
                x as int,
            ) by {
                assert(!picked@.contains(x));
            }
        }
        return Err(
            CoreError::Selection(String::from_str("no fonts matched the provided selectors")),
        );
    }
    proof {
        assert(picked@.contains(picked@[0]));
        assert(spec_selected(spec_fonts(fonts@), selection@, picked@[0] as int));
    }
    Ok(picked)
}

} // verus!
