//! Grouping of discovered records into inferred families: each record's
//! fingerprint key gathers aliases, effective weights and styles, formats,
//! member indices and a compact index-range summary; groups come out ordered
//! by lowercased display name, then key.
use vstd::prelude::*;

use crate::fingerprint::{
    effective_style, effective_weight, infer_family_fingerprint, spec_effective_style,
    spec_effective_weight, spec_fingerprint, FingerprintData,
};
use crate::model::{clone_usizes, spec_fonts, FamilyData, FontData, FontFamily, FontInfo};
use crate::order::{
    contains_usize, insert_unique_usize, lemma_stable_insert_at, lemma_stable_sort_push,
    spec_stable_sort,
};
use crate::selection::{any_normalized_match, spec_norm};
use crate::text::{
    lex_le, push_char, spec_dec_str, spec_lex_le, spec_lower_seq, spec_strs, spec_upper_seq,
    str_eq, to_lower, to_upper, usize_to_string,
};

verus! {

/// One record as it appears inside a group: its index and effective values.
#[derive(Debug)]
pub struct InferredFontEntry {
    pub index: usize,
    pub name: String,
    pub source_family: String,
    pub weight: String,
    pub style: String,
    pub format: String,
    pub url: String,
    pub referer: String,
}

/// The mathematical image of an [`InferredFontEntry`].
pub ghost struct EntryData {
    pub index: usize,
    pub name: Seq<char>,
    pub source_family: Seq<char>,
    pub weight: Seq<char>,
    pub style: Seq<char>,
    pub format: Seq<char>,
    pub url: Seq<char>,
    pub referer: Seq<char>,
}

impl View for InferredFontEntry {
    type V = EntryData;

    open spec fn view(&self) -> EntryData {
        EntryData {
            index: self.index,
            name: self.name@,
            source_family: self.source_family@,
            weight: self.weight@,
            style: self.style@,
            format: self.format@,
            url: self.url@,
            referer: self.referer@,
        }
    }
}

impl Clone for InferredFontEntry {
    fn clone(&self) -> (r: Self)
        ensures
            r@ == self@,
    {
        InferredFontEntry {
            index: self.index,
            name: self.name.clone(),
            source_family: self.source_family.clone(),
            weight: self.weight.clone(),
            style: self.style.clone(),
            format: self.format.clone(),
            url: self.url.clone(),
            referer: self.referer.clone(),
        }
    }
}

/// One inferred family: aggregate statistics over the records whose
/// fingerprint keys agree.
#[derive(Debug)]
pub struct InferredFamilyGroup {
    pub key: String,
    pub name: String,
    pub aliases: Vec<String>,
    pub files: usize,
    pub variants: usize,
    pub weights: Vec<String>,
    pub styles: Vec<String>,
    pub formats: Vec<String>,
    pub font_indices: Vec<usize>,
    pub index_ranges: Vec<String>,
    pub fonts: Vec<InferredFontEntry>,
}

/// The mathematical image of an [`InferredFamilyGroup`].
pub ghost struct GroupData {
    pub key: Seq<char>,
    pub name: Seq<char>,
    pub aliases: Seq<Seq<char>>,
    pub files: int,
    pub variants: int,
    pub weights: Seq<Seq<char>>,
    pub styles: Seq<Seq<char>>,
    pub formats: Seq<Seq<char>>,
    pub font_indices: Seq<usize>,
    pub index_ranges: Seq<Seq<char>>,
    pub fonts: Seq<EntryData>,
}

impl View for InferredFamilyGroup {
    type V = GroupData;

    open spec fn view(&self) -> GroupData {
        GroupData {
            key: self.key@,
            name: self.name@,
            aliases: spec_strs(self.aliases@),
            files: self.files as int,
            variants: self.variants as int,
            weights: spec_strs(self.weights@),
            styles: spec_strs(self.styles@),
            formats: spec_strs(self.formats@),
            font_indices: self.font_indices@,
            index_ranges: spec_strs(self.index_ranges@),
            fonts: self.fonts@.map_values(|e: InferredFontEntry| e@),
        }
    }
}

/// Copies a string list.
pub fn clone_strings(v: &Vec<String>) -> (r: Vec<String>)
    ensures
        spec_strs(r@) == spec_strs(v@),
{
    let mut out: Vec<String> = Vec::new();
    let mut i: usize = 0;
    while i < v.len()
        invariant
            i <= v@.len(),
            out@.len() == i,
            forall|k: int| 0 <= k < i ==> (#[trigger] out@[k])@ == v@[k]@,
        decreases v@.len() - i,
    {
        let s = v[i].clone();
        out.push(s);
        i = i + 1;
    }
    proof {
        assert(spec_strs(out@) =~= spec_strs(v@));
    }
    out
}

fn clone_entries(v: &Vec<InferredFontEntry>) -> (r: Vec<InferredFontEntry>)
    ensures
        r@.map_values(|e: InferredFontEntry| e@) == v@.map_values(|e: InferredFontEntry| e@),
{
    let mut out: Vec<InferredFontEntry> = Vec::new();
    let mut i: usize = 0;
    while i < v.len()
        invariant
            i <= v@.len(),
            out@.len() == i,
            forall|k: int| 0 <= k < i ==> (#[trigger] out@[k])@ == v@[k]@,
        decreases v@.len() - i,
    {
        let e = v[i].clone();
        out.push(e);
        i = i + 1;
    }
    proof {
        assert(out@.map_values(|e: InferredFontEntry| e@) =~= v@.map_values(
            |e: InferredFontEntry| e@,
        ));
    }
    out
}

impl Clone for InferredFamilyGroup {
    fn clone(&self) -> (r: Self)
        ensures
            r@ == self@,
    {
        InferredFamilyGroup {
            key: self.key.clone(),
            name: self.name.clone(),
            aliases: clone_strings(&self.aliases),
            files: self.files,
            variants: self.variants,
            weights: clone_strings(&self.weights),
            styles: clone_strings(&self.styles),
            formats: clone_strings(&self.formats),
            font_indices: clone_usizes(&self.font_indices),
            index_ranges: clone_strings(&self.index_ranges),
            fonts: clone_entries(&self.fonts),
        }
    }
}

/// Inserts a string into a sorted duplicate-free list; a present value is
/// left alone.
pub open spec fn spec_siu(s: Seq<Seq<char>>, x: Seq<char>) -> Seq<Seq<char>>
    decreases s.len(),
{
    if s.len() == 0 {
        seq![x]
    } else if s[0] == x {
        s
    } else if spec_lex_le(x, s[0]) {
        seq![x] + s
    } else {
        seq![s[0]] + spec_siu(s.subrange(1, s.len() as int), x)
    }
}

/// The entry a record contributes to its group.
pub open spec fn spec_entry(font: FontData, i: usize, fp: FingerprintData) -> EntryData {
    EntryData {
        index: i,
        name: font.name,
        source_family: font.family,
        weight: spec_effective_weight(font.weight, fp.weight_hint),
        style: spec_effective_style(font.style, fp.style_hint),
        format: font.format,
        url: font.url,
        referer: font.referer,
    }
}

/// A group accumulator in progress; file and variant counts are derived at
/// output time from the index list and the distinct variant keys.
pub ghost struct AccData {
    pub key: Seq<char>,
    pub name: Seq<char>,
    pub aliases: Seq<Seq<char>>,
    pub variant_keys: Seq<Seq<char>>,
    pub weights: Seq<Seq<char>>,
    pub styles: Seq<Seq<char>>,
    pub formats: Seq<Seq<char>>,
    pub indices: Seq<usize>,
    pub fonts: Seq<EntryData>,
}

/// A fresh accumulator for a fingerprint key and display name.
pub open spec fn spec_acc_new(key: Seq<char>, name: Seq<char>) -> AccData {
    AccData {
        key: key,
        name: name,
        aliases: Seq::empty(),
        variant_keys: Seq::empty(),
        weights: Seq::empty(),
        styles: Seq::empty(),
        formats: Seq::empty(),
        indices: Seq::empty(),
        fonts: Seq::empty(),
    }
}

/// Folds record `i` into an accumulator: alias, variant key, weight, style
/// and format sets grow, the index and entry lists extend.
pub open spec fn spec_acc_add(acc: AccData, font: FontData, i: usize) -> AccData {
    let fp = spec_fingerprint(font.family, font.name);
    let ew = spec_effective_weight(font.weight, fp.weight_hint);
    let es = spec_effective_style(font.style, fp.style_hint);
    AccData {
        key: acc.key,
        name: acc.name,
        aliases: spec_siu(acc.aliases, font.family),
        variant_keys: spec_siu(acc.variant_keys, ew + "/"@ + es),
        weights: spec_siu(acc.weights, ew),
        styles: spec_siu(acc.styles, es),
        formats: spec_siu(acc.formats, spec_upper_seq(font.format)),
        indices: acc.indices.push(i),
        fonts: acc.fonts.push(spec_entry(font, i, fp)),
    }
}

/// One grouping step: record `i` joins the accumulator that carries its
/// fingerprint key, or founds one at that key's position in key order.
pub open spec fn spec_group_step(accs: Seq<AccData>, font: FontData, i: usize) -> Seq<AccData>
    decreases accs.len(),
{
    let fp = spec_fingerprint(font.family, font.name);
    if accs.len() == 0 {
        seq![spec_acc_add(spec_acc_new(fp.key, fp.display), font, i)]
    } else if accs[0].key == fp.key {
        seq![spec_acc_add(accs[0], font, i)] + accs.subrange(1, accs.len() as int)
    } else if spec_lex_le(fp.key, accs[0].key) {
        seq![spec_acc_add(spec_acc_new(fp.key, fp.display), font, i)] + accs
    } else {
        seq![accs[0]] + spec_group_step(accs.subrange(1, accs.len() as int), font, i)
    }
}

/// The accumulators after folding in the records at the listed indices.
pub open spec fn spec_accs(fonts: Seq<FontData>, idx: Seq<usize>) -> Seq<AccData>
    decreases idx.len(),
{
    if idx.len() == 0 {
        Seq::<AccData>::empty()
    } else {
        spec_group_step(
            spec_accs(fonts, idx.drop_last()),
            fonts[idx.last() as int],
            idx.last(),
        )
    }
}

/// The compact text of one index run.
pub open spec fn spec_range_str(start: usize, end: usize) -> Seq<char> {
    if start == end {
        spec_dec_str(start as nat)
    } else {
        spec_dec_str(start as nat) + "-"@ + spec_dec_str(end as nat)
    }
}

/// The remaining range texts, with a run open from `start` through `prev`.
pub open spec fn spec_ranges_from(idx: Seq<usize>, pos: int, start: usize, prev: usize) -> Seq<
    Seq<char>,
>
    decreases idx.len() - pos,
{
    if pos < 0 || pos >= idx.len() {
        seq![spec_range_str(start, prev)]
    } else if idx[pos] == prev + 1 {
        spec_ranges_from(idx, pos + 1, start, idx[pos])
    } else {
        seq![spec_range_str(start, prev)] + spec_ranges_from(idx, pos + 1, idx[pos], idx[pos])
    }
}

/// Consecutive index runs collapsed to `a-b` texts.
pub open spec fn spec_index_ranges(idx: Seq<usize>) -> Seq<Seq<char>> {
    if idx.len() == 0 {
        Seq::<Seq<char>>::empty()
    } else {
        spec_ranges_from(idx, 1, idx[0], idx[0])
    }
}

/// The finished group of an accumulator: counts and range texts derived,
/// member indices put in ascending order, and entries ordered by index.
pub open spec fn spec_into_output(acc: AccData) -> GroupData {
    let sorted_indices = spec_stable_sort(acc.indices, |a: usize, b: usize| a <= b);
    GroupData {
        key: acc.key,
        name: acc.name,
        aliases: acc.aliases,
        files: acc.indices.len() as int,
        variants: acc.variant_keys.len() as int,
        weights: acc.weights,
        styles: acc.styles,
        formats: acc.formats,
        font_indices: sorted_indices,
        index_ranges: spec_index_ranges(sorted_indices),
        fonts: spec_stable_sort(acc.fonts, |a: EntryData, b: EntryData| a.index <= b.index),
    }
}

/// Group order: lowercased display name, ties broken by key.
pub open spec fn spec_group_le(a: GroupData, b: GroupData) -> bool {
    if spec_lower_seq(a.name) != spec_lower_seq(b.name) {
        spec_lex_le(spec_lower_seq(a.name), spec_lower_seq(b.name))
    } else {
        spec_lex_le(a.key, b.key)
    }
}

/// The ascending duplicate-free list of the selected indices below `n`.
pub open spec fn spec_unique_sorted(sel: Seq<usize>, n: nat) -> Seq<usize>
    decreases n,
{
    if n == 0 {
        Seq::<usize>::empty()
    } else {
        let p = spec_unique_sorted(sel, (n - 1) as nat);
        if sel.contains((n - 1) as usize) {
            p.push((n - 1) as usize)
        } else {
            p
        }
    }
}

/// The inferred family groups of the records at the given indices: fold each
/// into its key's accumulator, finish each accumulator, and order the groups.
pub open spec fn spec_infer_groups(fonts: Seq<FontData>, idx: Seq<usize>) -> Seq<GroupData> {
    spec_stable_sort(
        spec_accs(fonts, idx).map_values(|a: AccData| spec_into_output(a)),
        |a: GroupData, b: GroupData| spec_group_le(a, b),
    )
}

/// The views of a group list.
pub open spec fn spec_groups(s: Seq<InferredFamilyGroup>) -> Seq<GroupData> {
    s.map_values(|g: InferredFamilyGroup| g@)
}

/// Every record index of an `n`-record list, in order.
pub open spec fn spec_all_indices(n: nat) -> Seq<usize> {
    Seq::new(n, |i: int| i as usize)
}

/// The inferred family groups over every record.
pub open spec fn spec_all_groups(fonts: Seq<FontData>) -> Seq<GroupData> {
    spec_infer_groups(fonts, spec_all_indices(fonts.len()))
}

/// A value list summarized in a bounded width: joined with commas, cut with
/// an ellipsis when too long, a dash when empty.
pub open spec fn spec_compact_join(values: Seq<Seq<char>>, max_chars: int) -> Seq<char> {
    if values.len() == 0 {
        "-"@
    } else {
        let joined = crate::text::spec_join_sep(values, ", "@);
        if joined.len() <= max_chars {
            joined
        } else {
            crate::text::spec_truncate_text(joined, max_chars)
        }
    }
}

/// Summarizes a value list in a bounded width.
pub fn compact_join(values: &Vec<String>, max_chars: usize) -> (r: String)
    ensures
        r@ == spec_compact_join(spec_strs(values@), max_chars as int),
{
    if values.len() == 0 {
        return String::from_str("-");
    }
    let joined = crate::text::join_all(values, ", ");
    if joined.as_str().unicode_len() <= max_chars {
        joined
    } else {
        crate::text::truncate_for_cli(joined.as_str(), max_chars)
    }
}

/// Inserting a string whose place in key order is `j` puts it there; a string
/// already present leaves the list alone.
proof fn lemma_siu_hits(s: Seq<Seq<char>>, x: Seq<char>, j: int)
    requires
        0 <= j < s.len(),
        forall|k: int| 0 <= k < j ==> #[trigger] s[k] != x && spec_lex_le(s[k], x),
        s[j] == x,
    ensures
        spec_siu(s, x) == s,
    decreases j,
{
    if j == 0 {
        assert(spec_siu(s, x) =~= s);
    } else {
        assert(s[0] != x);
        if spec_lex_le(x, s[0]) {
            crate::model::lemma_lex_le_antisym(s[0], x);
            assert(false);
        }
        let rest = s.subrange(1, s.len() as int);
        lemma_siu_hits(rest, x, j - 1);
        assert(spec_siu(s, x) =~= s);
    }
}

proof fn lemma_siu_inserts(s: Seq<Seq<char>>, x: Seq<char>, j: int)
    requires
        0 <= j <= s.len(),
        forall|k: int| 0 <= k < j ==> #[trigger] s[k] != x && spec_lex_le(s[k], x),
        j < s.len() ==> !spec_lex_le(s[j], x),
    ensures
        spec_siu(s, x) == s.insert(j, x),
    decreases j,
{
    if j == 0 {
        if s.len() == 0 {
            assert(spec_siu(s, x) =~= s.insert(0, x));
        } else {
            assert(!spec_lex_le(s[0], x));
            assert(s[0] != x) by {
                crate::model::lemma_lex_le_refl(x);
            }
            assert(spec_lex_le(x, s[0])) by {
                crate::model::lemma_lex_le_total(x, s[0]);
            }
            assert(spec_siu(s, x) =~= s.insert(0, x));
        }
    } else {
        assert(s[0] != x);
        if spec_lex_le(x, s[0]) {
            crate::model::lemma_lex_le_antisym(s[0], x);
            assert(false);
        }
        let rest = s.subrange(1, s.len() as int);
        lemma_siu_inserts(rest, x, j - 1);
        assert(spec_siu(s, x) =~= s.insert(j, x));
    }
}

/// Inserts a string into a sorted duplicate-free list, keeping it sorted; a
/// present value is left alone.
fn sorted_insert_unique(v: &mut Vec<String>, x: String)
    ensures
        spec_strs(final(v)@) == spec_siu(spec_strs(old(v)@), x@),
{
    let mut j: usize = 0;
    while j < v.len()
        invariant
            j <= v@.len(),
            v@ == old(v)@,
            forall|k: int|
                0 <= k < j ==> #[trigger] spec_strs(v@)[k] != x@ && spec_lex_le(
                    spec_strs(v@)[k],
                    x@,
                ),
        decreases v@.len() - j,
    {
        if str_eq(v[j].as_str(), x.as_str()) {
            proof {
                lemma_siu_hits(spec_strs(old(v)@), x@, j as int);
            }
            return ;
        }
        if !lex_le(v[j].as_str(), x.as_str()) {
            let ghost pre = spec_strs(v@);
            v.insert(j, x);
            proof {
                lemma_siu_inserts(pre, v@[j as int]@, j as int);
                assert(spec_strs(v@) =~= pre.insert(j as int, v@[j as int]@));
            }
            return ;
        }
        j = j + 1;
    }
    let ghost pre = spec_strs(v@);
    let ghost xa = x@;
    v.push(x);
    proof {
        lemma_siu_inserts(pre, xa, pre.len() as int);
        assert(spec_strs(v@) =~= pre.insert(pre.len() as int, xa));
    }
}

/// A group being accumulated; counts are derived when it is finished.
pub struct FamilyAccumulator {
    pub key: String,
    pub name: String,
    pub aliases: Vec<String>,
    pub variant_keys: Vec<String>,
    pub weights: Vec<String>,
    pub styles: Vec<String>,
    pub formats: Vec<String>,
    pub indices: Vec<usize>,
    pub fonts: Vec<InferredFontEntry>,
}

impl View for FamilyAccumulator {
    type V = AccData;

    open spec fn view(&self) -> AccData {
        AccData {
            key: self.key@,
            name: self.name@,
            aliases: spec_strs(self.aliases@),
            variant_keys: spec_strs(self.variant_keys@),
            weights: spec_strs(self.weights@),
            styles: spec_strs(self.styles@),
            formats: spec_strs(self.formats@),
            indices: self.indices@,
            fonts: self.fonts@.map_values(|e: InferredFontEntry| e@),
        }
    }
}

impl FamilyAccumulator {
    /// A fresh accumulator for a fingerprint key and display name.
    pub fn new(key: String, name: String) -> (r: Self)
        ensures
            r@ == spec_acc_new(key@, name@),
    {
        let r = FamilyAccumulator {
            key,
            name,
            aliases: Vec::new(),
            variant_keys: Vec::new(),
            weights: Vec::new(),
            styles: Vec::new(),
            formats: Vec::new(),
            indices: Vec::new(),
            fonts: Vec::new(),
        };
        proof {
            assert(spec_strs(r.aliases@) =~= Seq::<Seq<char>>::empty());
            assert(r.fonts@.map_values(|e: InferredFontEntry| e@) =~= Seq::<EntryData>::empty());
        }
        r
    }

    /// Folds one record into the accumulator.
    fn absorb(&mut self, font: &FontInfo, i: usize)
        ensures
            final(self)@ == spec_acc_add(old(self)@, font@, i),
    {
        let fp = infer_family_fingerprint(font);
        let ew = effective_weight(
            font,
            match &fp.weight_hint {
                Some(h) => Some(h.as_str()),
                None => None,
            },
        );
        let es = effective_style(
            font,
            match &fp.style_hint {
                Some(h) => Some(h.as_str()),
                None => None,
            },
        );
        let mut vk = ew.clone();
        push_char(&mut vk, '/');
        vk.append(es.as_str());
        proof {
            reveal_strlit("/");
            assert(vk@ =~= ew@ + "/"@ + es@);
        }
        sorted_insert_unique(&mut self.aliases, font.family.clone());
        sorted_insert_unique(&mut self.variant_keys, vk);
        sorted_insert_unique(&mut self.weights, ew.clone());
        sorted_insert_unique(&mut self.styles, es.clone());
        sorted_insert_unique(&mut self.formats, to_upper(font.format.as_str()));
        self.indices.push(i);
        let entry = InferredFontEntry {
            index: i,
            name: font.name.clone(),
            source_family: font.family.clone(),
            weight: ew,
            style: es,
            format: font.format.clone(),
            url: font.url.clone(),
            referer: font.referer.clone(),
        };
        let ghost pre_fonts = self.fonts@;
        self.fonts.push(entry);
        proof {
            let fpd = spec_fingerprint(font@.family, font@.name);
            assert(self.fonts@.map_values(|e: InferredFontEntry| e@) =~= pre_fonts.map_values(
                |e: InferredFontEntry| e@,
            ).push(spec_entry(font@, i, fpd)));
        }
    }

    /// Finishes the accumulator into a reportable group: sorts the member
    /// indices ascending and the entries by index, and derives the counts
    /// and range texts.
    pub fn into_output(self) -> (r: InferredFamilyGroup)
        ensures
            r@ == spec_into_output(self@),
    {
        let FamilyAccumulator {
            key,
            name,
            aliases,
            variant_keys,
            weights,
            styles,
            formats,
            mut indices,
            fonts,
        } = self;
        let files = indices.len();
        let variants = variant_keys.len();
        crate::order::sort_usizes(&mut indices);
        let index_ranges = to_index_ranges(&indices);
        let sorted_fonts = sort_entries_by_index(fonts);
        InferredFamilyGroup {
            key,
            name,
            aliases,
            files,
            variants,
            weights,
            styles,
            formats,
            font_indices: indices,
            index_ranges,
            fonts: sorted_fonts,
        }
    }
}

/// Whether entry `a` belongs at-or-before entry `b` by record index.
fn entry_le(a: &InferredFontEntry, b: &InferredFontEntry) -> (r: bool)
    ensures
        r == (a@.index <= b@.index),
{
    a.index <= b.index
}

/// Orders a group's entries by their record index, stably.
fn sort_entries_by_index(entries: Vec<InferredFontEntry>) -> (r: Vec<InferredFontEntry>)
    ensures
        r@.map_values(|e: InferredFontEntry| e@) == spec_stable_sort(
            entries@.map_values(|e: InferredFontEntry| e@),
            |a: EntryData, b: EntryData| a.index <= b.index,
        ),
{
    let ghost le = |a: EntryData, b: EntryData| a.index <= b.index;
    let ghost total = entries@;
    let mut src = entries;
    let mut out: Vec<InferredFontEntry> = Vec::new();
    proof {
        assert(src@ =~= total.subrange(0, total.len() as int));
        assert(total.subrange(0, 0).map_values(|e: InferredFontEntry| e@) =~= Seq::<
            EntryData,
        >::empty());
        assert(out@.map_values(|e: InferredFontEntry| e@) =~= Seq::<EntryData>::empty());
    }
    while src.len() > 0
        invariant
            src@.len() <= total.len(),
            src@ == total.subrange(total.len() - src@.len(), total.len() as int),
            out@.map_values(|e: InferredFontEntry| e@) == spec_stable_sort(
                total.subrange(0, total.len() - src@.len()).map_values(
                    |e: InferredFontEntry| e@,
                ),
                le,
            ),
            le == (|a: EntryData, b: EntryData| a.index <= b.index),
        decreases src@.len(),
    {
        let ghost done = total.len() - src@.len();
        let ghost pre = src@;
        let x = src.remove(0);
        proof {
            assert(x == pre[0]);
            assert(x@ == total[done]@);
            assert(src@ =~= pre.subrange(1, pre.len() as int));
            assert(src@ =~= total.subrange(total.len() - src@.len(), total.len() as int));
        }
        let mut j: usize = 0;
        while j < out.len() && entry_le(&out[j], &x)
            invariant
                j <= out@.len(),
                forall|k: int| 0 <= k < j ==> le((#[trigger] out@[k])@, x@),
                le == (|a: EntryData, b: EntryData| a.index <= b.index),
            decreases out@.len() - j,
        {
            j = j + 1;
        }
        proof {
            lemma_stable_insert_at(out@.map_values(|e: InferredFontEntry| e@), x@, le, j as int);
            assert(total.subrange(0, done + 1).map_values(|e: InferredFontEntry| e@) =~= total
                .subrange(0, done).map_values(|e: InferredFontEntry| e@).push(total[done]@));
            lemma_stable_sort_push(
                total.subrange(0, done).map_values(|e: InferredFontEntry| e@),
                total[done]@,
                le,
            );
        }
        out.insert(j, x);
        proof {
            assert(out@.map_values(|e: InferredFontEntry| e@) =~= out@.subrange(
                0,
                j as int,
            ).map_values(|e: InferredFontEntry| e@) + seq![out@[j as int]@] + out@.subrange(
                j + 1,
                out@.len() as int,
            ).map_values(|e: InferredFontEntry| e@));
        }
    }
    proof {
        assert(total.subrange(0, total.len() as int) =~= total);
    }
    out
}

/// The compact text of one index run.
pub fn format_index_range(start: usize, end: usize) -> (r: String)
    ensures
        r@ == spec_range_str(start, end),
{
    if start == end {
        usize_to_string(start)
    } else {
        let mut s = usize_to_string(start);
        push_char(&mut s, '-');
        let tail = usize_to_string(end);
        s.append(tail.as_str());
        proof {
            reveal_strlit("-");
            assert(s@ =~= spec_dec_str(start as nat) + "-"@ + spec_dec_str(end as nat));
        }
        s
    }
}

/// Collapses consecutive index runs to `a-b` texts.
pub fn to_index_ranges(indices: &Vec<usize>) -> (r: Vec<String>)
    ensures
        spec_strs(r@) == spec_index_ranges(indices@),
{
    let mut ranges: Vec<String> = Vec::new();
    if indices.len() == 0 {
        proof {
            assert(spec_strs(ranges@) =~= spec_index_ranges(indices@));
        }
        return ranges;
    }
    let mut start = indices[0];
    let mut prev = indices[0];
    let mut pos: usize = 1;
    proof {
        assert(spec_strs(ranges@) + spec_ranges_from(indices@, 1, start, prev) =~= spec_ranges_from(
            indices@,
            1,
            start,
            prev,
        ));
    }
    while pos < indices.len()
        invariant
            1 <= pos <= indices@.len(),
            spec_strs(ranges@) + spec_ranges_from(indices@, pos as int, start, prev)
                == spec_index_ranges(indices@),
        decreases indices@.len() - pos,
    {
        let cur = indices[pos];
        if cur > prev && cur - prev == 1 {
            prev = cur;
        } else {
            let piece = format_index_range(start, prev);
            let ghost pre = spec_strs(ranges@);
            ranges.push(piece);
            proof {
                assert(spec_strs(ranges@) =~= pre.push(spec_range_str(start, prev)));
                assert(spec_strs(ranges@) + spec_ranges_from(indices@, pos + 1, cur, cur) =~= pre
                    + (seq![spec_range_str(start, prev)] + spec_ranges_from(
                    indices@,
                    pos + 1,
                    cur,
                    cur,
                )));
            }
            start = cur;
            prev = cur;
        }
        pos = pos + 1;
    }
    let piece = format_index_range(start, prev);
    let ghost pre = spec_strs(ranges@);
    ranges.push(piece);
    proof {
        assert(spec_strs(ranges@) =~= pre.push(spec_range_str(start, prev)));
        assert(spec_strs(ranges@) =~= pre + seq![spec_range_str(start, prev)]);
    }
    ranges
}

/// The views of an accumulator list.
spec fn spec_acc_views(s: Seq<FamilyAccumulator>) -> Seq<AccData> {
    s.map_values(|a: FamilyAccumulator| a@)
}

/// When the first `j` accumulators' keys sort before the record's key and
/// accumulator `j` carries it, the step folds the record into accumulator
/// `j`.
proof fn lemma_group_step_hits(accs: Seq<AccData>, font: FontData, i: usize, j: int)
    requires
        0 <= j < accs.len(),
        forall|k: int|
            0 <= k < j ==> (#[trigger] accs[k]).key != spec_fingerprint(
                font.family,
                font.name,
            ).key && spec_lex_le(accs[k].key, spec_fingerprint(font.family, font.name).key),
        accs[j].key == spec_fingerprint(font.family, font.name).key,
    ensures
        spec_group_step(accs, font, i) == accs.update(j, spec_acc_add(accs[j], font, i)),
    decreases j,
{
    let key = spec_fingerprint(font.family, font.name).key;
    if j == 0 {
        assert(spec_group_step(accs, font, i) =~= accs.update(
            0,
            spec_acc_add(accs[0], font, i),
        ));
    } else {
        assert(accs[0].key != key);
        if spec_lex_le(key, accs[0].key) {
            crate::model::lemma_lex_le_antisym(accs[0].key, key);
            assert(false);
        }
        let rest = accs.subrange(1, accs.len() as int);
        lemma_group_step_hits(rest, font, i, j - 1);
        assert(spec_group_step(accs, font, i) =~= accs.update(
            j,
            spec_acc_add(accs[j], font, i),
        ));
    }
}

/// When the first `j` accumulators' keys sort before the record's key, none
/// carries it, and accumulator `j` (if any) sorts after it, the step founds a
/// new accumulator at `j`.
proof fn lemma_group_step_inserts(accs: Seq<AccData>, font: FontData, i: usize, j: int)
    requires
        0 <= j <= accs.len(),
        forall|k: int|
            0 <= k < j ==> (#[trigger] accs[k]).key != spec_fingerprint(
                font.family,
                font.name,
            ).key && spec_lex_le(accs[k].key, spec_fingerprint(font.family, font.name).key),
        j < accs.len() ==> !spec_lex_le(
            accs[j].key,
            spec_fingerprint(font.family, font.name).key,
        ),
    ensures
        spec_group_step(accs, font, i) == accs.insert(
            j,
            spec_acc_add(
                spec_acc_new(
                    spec_fingerprint(font.family, font.name).key,
                    spec_fingerprint(font.family, font.name).display,
                ),
                font,
                i,
            ),
        ),
    decreases j,
{
    let key = spec_fingerprint(font.family, font.name).key;
    let fresh = spec_acc_add(spec_acc_new(key, spec_fingerprint(font.family, font.name).display), font, i);
    if j == 0 {
        if accs.len() == 0 {
            assert(spec_group_step(accs, font, i) =~= accs.insert(0, fresh));
        } else {
            assert(!spec_lex_le(accs[0].key, key));
            assert(accs[0].key != key) by {
                crate::model::lemma_lex_le_refl(key);
            }
            assert(spec_lex_le(key, accs[0].key)) by {
                crate::model::lemma_lex_le_total(key, accs[0].key);
            }
            assert(spec_group_step(accs, font, i) =~= accs.insert(0, fresh));
        }
    } else {
        assert(accs[0].key != key);
        if spec_lex_le(key, accs[0].key) {
            crate::model::lemma_lex_le_antisym(accs[0].key, key);
            assert(false);
        }
        let rest = accs.subrange(1, accs.len() as int);
        lemma_group_step_inserts(rest, font, i, j - 1);
        assert(spec_group_step(accs, font, i) =~= accs.insert(j, fresh));
    }
}

/// Folds record `i` into the accumulator carrying its fingerprint key,
/// founding one in key order when none does.
fn group_step(accs: &mut Vec<FamilyAccumulator>, font: &FontInfo, i: usize)
    ensures
        spec_acc_views(final(accs)@) == spec_group_step(spec_acc_views(old(accs)@), font@, i),
{
    let fp = infer_family_fingerprint(font);
    let ghost key = spec_fingerprint(font@.family, font@.name).key;
    let mut j: usize = 0;
    while j < accs.len()
        invariant
            j <= accs@.len(),
            accs@ == old(accs)@,
            fp@ == spec_fingerprint(font@.family, font@.name),
            key == fp@.key,
            forall|k: int|
                0 <= k < j ==> (#[trigger] spec_acc_views(accs@)[k]).key != key && spec_lex_le(
                    spec_acc_views(accs@)[k].key,
                    key,
                ),
        decreases accs@.len() - j,
    {
        if str_eq(accs[j].key.as_str(), fp.key.as_str()) {
            accs[j].absorb(font, i);
            proof {
                lemma_group_step_hits(spec_acc_views(old(accs)@), font@, i, j as int);
                assert(spec_acc_views(accs@) =~= spec_acc_views(old(accs)@).update(
                    j as int,
                    spec_acc_add(spec_acc_views(old(accs)@)[j as int], font@, i),
                ));
            }
            return ;
        }
        if !lex_le(accs[j].key.as_str(), fp.key.as_str()) {
            let mut fresh = FamilyAccumulator::new(fp.key, fp.display);
            fresh.absorb(font, i);
            accs.insert(j, fresh);
            proof {
                lemma_group_step_inserts(spec_acc_views(old(accs)@), font@, i, j as int);
                assert(spec_acc_views(accs@) =~= spec_acc_views(old(accs)@).insert(
                    j as int,
                    spec_acc_add(spec_acc_new(fp@.key, fp@.display), font@, i),
                ));
            }
            return ;
        }
        j = j + 1;
    }
    let mut fresh = FamilyAccumulator::new(fp.key, fp.display);
    fresh.absorb(font, i);
    accs.push(fresh);
    proof {
        lemma_group_step_inserts(
            spec_acc_views(old(accs)@),
            font@,
            i,
            old(accs)@.len() as int,
        );
        assert(spec_acc_views(accs@) =~= spec_acc_views(old(accs)@).insert(
            old(accs)@.len() as int,
            spec_acc_add(spec_acc_new(fp@.key, fp@.display), font@, i),
        ));
    }
}

/// Whether group `a` orders at-or-before group `b`.
fn group_le(a: &InferredFamilyGroup, b: &InferredFamilyGroup) -> (r: bool)
    ensures
        r == spec_group_le(a@, b@),
{
    let na = to_lower(a.name.as_str());
    let nb = to_lower(b.name.as_str());
    if !str_eq(na.as_str(), nb.as_str()) {
        lex_le(na.as_str(), nb.as_str())
    } else {
        lex_le(a.key.as_str(), b.key.as_str())
    }
}

/// Orders groups by lowercased display name, ties broken by key.
fn sort_groups(groups: Vec<InferredFamilyGroup>) -> (r: Vec<InferredFamilyGroup>)
    ensures
        spec_groups(r@) == spec_stable_sort(
            spec_groups(groups@),
            |a: GroupData, b: GroupData| spec_group_le(a, b),
        ),
{
    let ghost le = |a: GroupData, b: GroupData| spec_group_le(a, b);
    let ghost total = groups@;
    let mut src = groups;
    let mut out: Vec<InferredFamilyGroup> = Vec::new();
    proof {
        assert(src@ =~= total.subrange(0, total.len() as int));
        assert(spec_groups(total.subrange(0, 0)) =~= Seq::<GroupData>::empty());
    }
    while src.len() > 0
        invariant
            src@.len() <= total.len(),
            src@ == total.subrange(total.len() - src@.len(), total.len() as int),
            spec_groups(out@) == spec_stable_sort(
                spec_groups(total.subrange(0, total.len() - src@.len())),
                le,
            ),
            le == (|a: GroupData, b: GroupData| spec_group_le(a, b)),
        decreases src@.len(),
    {
        let ghost done = total.len() - src@.len();
        let ghost pre = src@;
        let x = src.remove(0);
        proof {
            assert(x == pre[0]);
            assert(x@ == total[done]@);
            assert(src@ =~= pre.subrange(1, pre.len() as int));
            assert(src@ =~= total.subrange(total.len() - src@.len(), total.len() as int));
        }
        let mut j: usize = 0;
        while j < out.len() && group_le(&out[j], &x)
            invariant
                j <= out@.len(),
                forall|k: int| 0 <= k < j ==> le(#[trigger] spec_groups(out@)[k], x@),
                le == (|a: GroupData, b: GroupData| spec_group_le(a, b)),
            decreases out@.len() - j,
        {
            j = j + 1;
        }
        proof {
            lemma_stable_insert_at(spec_groups(out@), x@, le, j as int);
            assert(spec_groups(total.subrange(0, done + 1)) =~= spec_groups(
                total.subrange(0, done),
            ).push(total[done]@));
            lemma_stable_sort_push(spec_groups(total.subrange(0, done)), total[done]@, le);
        }
        out.insert(j, x);
        proof {
            assert(spec_groups(out@) =~= spec_groups(out@.subrange(0, j as int)) + seq![
                out@[j as int]@,
            ] + spec_groups(out@.subrange(j + 1, out@.len() as int)));
        }
    }
    proof {
        assert(total.subrange(0, total.len() as int) =~= total);
    }
    out
}

/// Groups the records at the given indices (duplicates and out-of-range
/// entries dropped) into inferred families, ordered by lowercased display
/// name, then key.
pub fn infer_family_groups(fonts: &Vec<FontInfo>, selected_indices: &Vec<usize>) -> (r: Vec<
    InferredFamilyGroup,
>)
    ensures
        spec_groups(r@) == spec_infer_groups(
            spec_fonts(fonts@),
            spec_unique_sorted(selected_indices@, fonts@.len() as nat),
        ),
{
    let n = fonts.len();
    let mut unique: Vec<usize> = Vec::new();
    let mut x: usize = 0;
    while x < n
        invariant
            x <= n,
            n == fonts@.len(),
            unique@ == spec_unique_sorted(selected_indices@, x as nat),
            forall|k: int| 0 <= k < unique@.len() ==> #[trigger] unique@[k] < x,
        decreases n - x,
    {
        if contains_usize(selected_indices, x) {
            unique.push(x);
        }
        x = x + 1;
    }
    let mut accs: Vec<FamilyAccumulator> = Vec::new();
    let mut k: usize = 0;
    proof {
        assert(unique@.subrange(0, 0) =~= Seq::<usize>::empty());
        assert(spec_acc_views(accs@) =~= Seq::<AccData>::empty());
    }
    while k < unique.len()
        invariant
            k <= unique@.len(),
            n == fonts@.len(),
            forall|t: int| 0 <= t < unique@.len() ==> #[trigger] unique@[t] < n,
            spec_acc_views(accs@) == spec_accs(
                spec_fonts(fonts@),
                unique@.subrange(0, k as int),
            ),
        decreases unique@.len() - k,
    {
        let idx = unique[k];
        group_step(&mut accs, &fonts[idx], idx);
        proof {
            let prefix = unique@.subrange(0, k + 1);
            assert(prefix.drop_last() =~= unique@.subrange(0, k as int));
            assert(prefix.last() == unique@[k as int]);
            assert(spec_fonts(fonts@)[idx as int] == fonts@[idx as int]@);
        }
        k = k + 1;
    }
    proof {
        assert(unique@.subrange(0, unique@.len() as int) =~= unique@);
    }
    let mut groups: Vec<InferredFamilyGroup> = Vec::new();
    let ghost acc_total = spec_acc_views(accs@);
    proof {
        assert(accs@.map_values(|a: FamilyAccumulator| a@) =~= acc_total.subrange(
            0,
            acc_total.len() as int,
        ));
        assert(spec_groups(groups@) =~= acc_total.subrange(0, 0).map_values(
            |a: AccData| spec_into_output(a),
        ));
    }
    while accs.len() > 0
        invariant
            accs@.len() <= acc_total.len(),
            spec_acc_views(accs@) == acc_total.subrange(
                acc_total.len() - accs@.len(),
                acc_total.len() as int,
            ),
            spec_groups(groups@) == acc_total.subrange(0, acc_total.len() - accs@.len()).map_values(
                |a: AccData| spec_into_output(a),
            ),
        decreases accs@.len(),
    {
        let ghost done = acc_total.len() - accs@.len();
        let ghost pre = accs@;
        let a = accs.remove(0);
        proof {
            assert(a == pre[0]);
            assert(spec_acc_views(pre)[0] == pre[0]@);
            assert(a@ == acc_total[done]);
            assert(accs@ =~= pre.subrange(1, pre.len() as int));
            assert(forall|k2: int|
                0 <= k2 < accs@.len() ==> #[trigger] spec_acc_views(accs@)[k2] == spec_acc_views(
                    pre,
                )[k2 + 1]);
            assert(spec_acc_views(accs@) =~= acc_total.subrange(
                acc_total.len() - accs@.len(),
                acc_total.len() as int,
            ));
        }
        let g = a.into_output();
        let ghost gpre = groups@;
        groups.push(g);
        proof {
            assert(spec_groups(groups@) =~= spec_groups(gpre).push(g@));
            assert(acc_total.subrange(0, done + 1) =~= acc_total.subrange(0, done).push(
                acc_total[done],
            ));
            assert(acc_total.subrange(0, done + 1).map_values(
                |aa: AccData| spec_into_output(aa),
            ) =~= acc_total.subrange(0, done).map_values(|aa: AccData| spec_into_output(aa)).push(
                spec_into_output(acc_total[done]),
            ));
            assert(spec_groups(groups@) =~= acc_total.subrange(0, done + 1).map_values(
                |aa: AccData| spec_into_output(aa),
            ));
        }
    }
    proof {
        assert(acc_total.subrange(0, acc_total.len() as int) =~= acc_total);
    }
    sort_groups(groups)
}

/// The group order holds between every pair, one way or the other.
proof fn lemma_group_le_connected(a: GroupData, b: GroupData)
    ensures
        spec_group_le(a, b) || spec_group_le(b, a),
{
    crate::model::lemma_lex_le_total(spec_lower_seq(a.name), spec_lower_seq(b.name));
    crate::model::lemma_lex_le_total(a.key, b.key);
}

/// The group order is transitive.
proof fn lemma_group_le_trans(a: GroupData, b: GroupData, c: GroupData)
    requires
        spec_group_le(a, b),
        spec_group_le(b, c),
    ensures
        spec_group_le(a, c),
{
    let na = spec_lower_seq(a.name);
    let nb = spec_lower_seq(b.name);
    let nc = spec_lower_seq(c.name);
    if spec_lex_le(na, nb) && spec_lex_le(nb, nc) {
        crate::model::lemma_lex_le_trans(na, nb, nc);
    }
    if spec_lex_le(na, nb) && spec_lex_le(nb, na) {
        crate::model::lemma_lex_le_antisym(na, nb);
    }
    if spec_lex_le(nb, nc) && spec_lex_le(nc, nb) {
        crate::model::lemma_lex_le_antisym(nb, nc);
    }
    if spec_lex_le(a.key, b.key) && spec_lex_le(b.key, c.key) {
        crate::model::lemma_lex_le_trans(a.key, b.key, c.key);
    }
}

/// Law: inferred groups come out ordered by lowercased display name, ties
/// broken by fingerprint key, throughout the list.
pub proof fn lemma_groups_ordered(fonts: Seq<FontData>, idx: Seq<usize>)
    ensures
        vstd::relations::sorted_by(
            spec_infer_groups(fonts, idx),
            |a: GroupData, b: GroupData| spec_group_le(a, b),
        ),
{
    let le = |a: GroupData, b: GroupData| spec_group_le(a, b);
    assert(vstd::relations::strongly_connected(le)) by {
        assert forall|x: GroupData, y: GroupData| #[trigger] le(x, y) || #[trigger] le(y, x) by {
            lemma_group_le_connected(x, y);
        }
    }
    assert(vstd::relations::transitive(le)) by {
        assert forall|x: GroupData, y: GroupData, z: GroupData|
            #[trigger] le(x, y) && #[trigger] le(y, z) implies le(x, z) by {
            lemma_group_le_trans(x, y, z);
        }
    }
    crate::order::lemma_stable_sort_sorted(
        spec_accs(fonts, idx).map_values(|a: AccData| spec_into_output(a)),
        le,
    );
}

/// Law: grouping is a pure function of the record list and index set.
/// Grouping the same records with the same selection twice yields the same
/// groups both times — the same keys, the same aliases, and the same member
/// index sets, in the same order.
pub proof fn lemma_grouping_idempotent(
    fonts: Seq<FontData>,
    idx: Seq<usize>,
    first: Seq<GroupData>,
    second: Seq<GroupData>,
)
    requires
        first == spec_infer_groups(fonts, idx),
        second == spec_infer_groups(fonts, idx),
    ensures
        first == second,
        first.len() == second.len(),
        forall|g: int|
            0 <= g < first.len() ==> (#[trigger] first[g]).key == second[g].key && first[g].aliases
                == second[g].aliases && first[g].font_indices == second[g].font_indices,
{
}

proof fn lemma_unique_sorted_identity(sel: Seq<usize>, m: nat)
    requires
        m <= sel.len(),
        forall|k: int| 0 <= k < sel.len() ==> #[trigger] sel[k] == k as usize,
    ensures
        spec_unique_sorted(sel, m) == sel.subrange(0, m as int),
    decreases m,
{
    if m == 0 {
        assert(spec_unique_sorted(sel, 0) =~= sel.subrange(0, 0));
    } else {
        lemma_unique_sorted_identity(sel, (m - 1) as nat);
        assert(sel[m - 1] == (m - 1) as usize);
        assert(sel.contains((m - 1) as usize));
        assert(sel.subrange(0, m as int) =~= sel.subrange(0, m - 1).push(sel[m - 1]));
    }
}

/// Groups every record into inferred families.
pub fn infer_family_groups_all(fonts: &Vec<FontInfo>) -> (r: Vec<InferredFamilyGroup>)
    ensures
        spec_groups(r@) == spec_all_groups(spec_fonts(fonts@)),
{
    let n = fonts.len();
    let mut all: Vec<usize> = Vec::new();
    let mut x: usize = 0;
    while x < n
        invariant
            x <= n,
            all@.len() == x,
            forall|k: int| 0 <= k < x ==> #[trigger] all@[k] == k as usize,
        decreases n - x,
    {
        all.push(x);
        x = x + 1;
    }
    let r = infer_family_groups(fonts, &all);
    proof {
        lemma_unique_sorted_identity(all@, n as nat);
        assert(all@.subrange(0, n as int) =~= all@);
        assert(all@ =~= spec_all_indices(fonts@.len()));
    }
    r
}

/// Inferred grouping reduced to name and member indices.
pub fn group_by_inferred_family(fonts: &Vec<FontInfo>) -> (r: Vec<FontFamily>)
    ensures
        crate::model::spec_families(r@) == spec_all_groups(spec_fonts(fonts@)).map_values(
            |g: GroupData| FamilyData { name: g.name, font_indices: g.font_indices },
        ),
{
    let groups = infer_family_groups_all(fonts);
    let ghost total = spec_groups(groups@);
    let mut src = groups;
    let mut out: Vec<FontFamily> = Vec::new();
    proof {
        assert(spec_groups(src@) =~= total.subrange(0, total.len() as int));
        assert(crate::model::spec_families(out@) =~= total.subrange(0, 0).map_values(
            |g: GroupData| FamilyData { name: g.name, font_indices: g.font_indices },
        ));
    }
    while src.len() > 0
        invariant
            src@.len() <= total.len(),
            spec_groups(src@) == total.subrange(total.len() - src@.len(), total.len() as int),
            crate::model::spec_families(out@) == total.subrange(
                0,
                total.len() - src@.len(),
            ).map_values(|g: GroupData| FamilyData { name: g.name, font_indices: g.font_indices }),
        decreases src@.len(),
    {
        let ghost done = total.len() - src@.len();
        let ghost pre = src@;
        let g = src.remove(0);
        proof {
            assert(g == pre[0]);
            assert(spec_groups(pre)[0] == pre[0]@);
            assert(g@ == total[done]);
            assert(src@ =~= pre.subrange(1, pre.len() as int));
            assert(forall|k2: int|
                0 <= k2 < src@.len() ==> #[trigger] spec_groups(src@)[k2] == spec_groups(pre)[k2
                    + 1]);
            assert(spec_groups(src@) =~= total.subrange(
                total.len() - src@.len(),
                total.len() as int,
            ));
        }
        let fam = FontFamily { name: g.name, font_indices: g.font_indices };
        let ghost opre = out@;
        out.push(fam);
        proof {
            assert(crate::model::spec_families(out@) =~= crate::model::spec_families(opre).push(
                FamilyData { name: total[done].name, font_indices: total[done].font_indices },
            ));
            assert(total.subrange(0, done + 1) =~= total.subrange(0, done).push(total[done]));
            assert(total.subrange(0, done + 1).map_values(
                |gg: GroupData| FamilyData { name: gg.name, font_indices: gg.font_indices },
            ) =~= total.subrange(0, done).map_values(
                |gg: GroupData| FamilyData { name: gg.name, font_indices: gg.font_indices },
            ).push(FamilyData { name: total[done].name, font_indices: total[done].font_indices }));
            assert(crate::model::spec_families(out@) =~= total.subrange(0, done + 1).map_values(
                |gg: GroupData| FamilyData { name: gg.name, font_indices: gg.font_indices },
            ));
        }
    }
    proof {
        assert(total.subrange(0, total.len() as int) =~= total);
    }
    out
}

/// Whether a name list hits a group's display name or any of its aliases,
/// case-insensitively and trimmed.
pub open spec fn spec_group_matches(g: GroupData, names: Seq<Seq<char>>) -> bool {
    (exists|j: int| 0 <= j < names.len() && spec_norm(#[trigger] names[j]) == spec_norm(g.name))
        || (exists|j: int, k: int|
        0 <= j < names.len() && 0 <= k < g.aliases.len() && spec_norm(#[trigger] names[j])
            == spec_norm(#[trigger] g.aliases[k]))
}

fn group_matches(group: &InferredFamilyGroup, names: &Vec<String>) -> (r: bool)
    ensures
        r == spec_group_matches(group@, spec_strs(names@)),
{
    if any_normalized_match(names, &group.name) {
        proof {
            let j = choose|j: int|
                0 <= j < names@.len() && spec_norm((#[trigger] names@[j])@) == spec_norm(
                    group.name@,
                );
            assert(spec_strs(names@)[j] == names@[j]@);
        }
        return true;
    }
    let mut k: usize = 0;
    while k < group.aliases.len()
        invariant
            k <= group.aliases@.len(),
            forall|j: int, kk: int|
                0 <= j < names@.len() && 0 <= kk < k ==> spec_norm((#[trigger] names@[j])@)
                    != spec_norm((#[trigger] group.aliases@[kk])@),
        decreases group.aliases@.len() - k,
    {
        if any_normalized_match(names, &group.aliases[k]) {
            proof {
                let j = choose|j: int|
                    0 <= j < names@.len() && spec_norm((#[trigger] names@[j])@) == spec_norm(
                        group.aliases@[k as int]@,
                    );
                assert(spec_strs(names@)[j] == names@[j]@);
                assert(group@.aliases[k as int] == group.aliases@[k as int]@);
            }
            return true;
        }
        k = k + 1;
    }
    proof {
        assert forall|j: int, kk: int|
            !(0 <= j < spec_strs(names@).len() && 0 <= kk < group@.aliases.len() && spec_norm(
                #[trigger] spec_strs(names@)[j],
            ) == spec_norm(#[trigger] group@.aliases[kk])) by {
            if 0 <= j < names@.len() && 0 <= kk < group.aliases@.len() {
                assert(spec_strs(names@)[j] == names@[j]@);
                assert(group@.aliases[kk] == group.aliases@[kk]@);
            }
        }
        assert forall|j: int|
            !(0 <= j < spec_strs(names@).len() && spec_norm(#[trigger] spec_strs(names@)[j])
                == spec_norm(group@.name)) by {
            if 0 <= j < names@.len() {
                assert(spec_strs(names@)[j] == names@[j]@);
            }
        }
    }
    false
}

/// Resolves family names against the inferred grouping: the ascending,
/// duplicate-free union of the member indices of every group whose display
/// name or alias matches one of the names; an empty name list selects
/// nothing.
pub fn select_indices_by_inferred_family_names(
    fonts: &Vec<FontInfo>,
    family_names: &Vec<String>,
) -> (r: Vec<usize>)
    ensures
        family_names@.len() == 0 ==> r@.len() == 0,
        forall|k: int, l: int| 0 <= k < l < r@.len() ==> r@[k] < r@[l],
        family_names@.len() > 0 ==> forall|x: usize|
            r@.contains(x) == exists|g: int|
                0 <= g < spec_all_groups(spec_fonts(fonts@)).len() && spec_group_matches(
                    #[trigger] spec_all_groups(spec_fonts(fonts@))[g],
                    spec_strs(family_names@),
                ) && spec_all_groups(spec_fonts(fonts@))[g].font_indices.contains(x),
{
    let mut out: Vec<usize> = Vec::new();
    if family_names.len() == 0 {
        return out;
    }
    let groups = infer_family_groups_all(fonts);
    let ghost gv = spec_groups(groups@);
    let mut gi: usize = 0;
    while gi < groups.len()
        invariant
            gi <= groups@.len(),
            gv == spec_groups(groups@),
            gv == spec_all_groups(spec_fonts(fonts@)),
            forall|k: int, l: int| 0 <= k < l < out@.len() ==> out@[k] < out@[l],
            forall|x: usize|
                out@.contains(x) == exists|g: int|
                    0 <= g < gi && spec_group_matches(
                        #[trigger] gv[g],
                        spec_strs(family_names@),
                    ) && gv[g].font_indices.contains(x),
        decreases groups@.len() - gi,
    {
        let matched = group_matches(&groups[gi], family_names);
        proof {
            assert(gv[gi as int] == groups@[gi as int]@);
        }
        if matched {
            let member_count = groups[gi].font_indices.len();
            let mut t: usize = 0;
            while t < member_count
                invariant
                    t <= member_count,
                    gi < groups@.len(),
                    member_count == groups@[gi as int]@.font_indices.len(),
                    gv == spec_groups(groups@),
                    spec_group_matches(gv[gi as int], spec_strs(family_names@)),
                    forall|k: int, l: int| 0 <= k < l < out@.len() ==> out@[k] < out@[l],
                    forall|x: usize|
                        out@.contains(x) == ((exists|g: int|
                            0 <= g < gi && spec_group_matches(
                                #[trigger] gv[g],
                                spec_strs(family_names@),
                            ) && gv[g].font_indices.contains(x)) || (exists|u: int|
                            0 <= u < t && gv[gi as int].font_indices[u] == x)),
                decreases member_count - t,
            {
                let idx = groups[gi].font_indices[t];
                proof {
                    assert(gv[gi as int].font_indices[t as int] == groups@[gi
                        as int].font_indices@[t as int]);
                }
                insert_unique_usize(&mut out, idx);
                t = t + 1;
            }
            proof {
                assert forall|x: usize|
                    out@.contains(x) == exists|g: int|
                        0 <= g < gi + 1 && spec_group_matches(
                            #[trigger] gv[g],
                            spec_strs(family_names@),
                        ) && gv[g].font_indices.contains(x) by {
                    if out@.contains(x) {
                        if exists|g: int|
                            0 <= g < gi && spec_group_matches(
                                #[trigger] gv[g],
                                spec_strs(family_names@),
                            ) && gv[g].font_indices.contains(x) {
                            let g0 = choose|g: int|
                                0 <= g < gi && spec_group_matches(
                                    #[trigger] gv[g],
                                    spec_strs(family_names@),
                                ) && gv[g].font_indices.contains(x);
                            assert(0 <= g0 < gi + 1 && spec_group_matches(
                                gv[g0],
                                spec_strs(family_names@),
                            ) && gv[g0].font_indices.contains(x));
                        } else {
                            let u = choose|u: int|
                                0 <= u < member_count && gv[gi as int].font_indices[u] == x;
                            assert(gv[gi as int].font_indices.contains(x));
                            assert(0 <= (gi as int) < gi + 1 && spec_group_matches(
                                gv[gi as int],
                                spec_strs(family_names@),
                            ) && gv[gi as int].font_indices.contains(x));
                        }
                    }
                    if exists|g: int|
                        0 <= g < gi + 1 && spec_group_matches(
                            #[trigger] gv[g],
                            spec_strs(family_names@),
                        ) && gv[g].font_indices.contains(x) {
                        let g = choose|g: int|
                            0 <= g < gi + 1 && spec_group_matches(
                                #[trigger] gv[g],
                                spec_strs(family_names@),
                            ) && gv[g].font_indices.contains(x);
                        if g == gi {
                            let u = choose|u: int|
                                0 <= u < gv[gi as int].font_indices.len() && gv[gi
                                    as int].font_indices[u] == x;
                            assert(0 <= u < member_count && gv[gi as int].font_indices[u] == x);
                            assert(out@.contains(x));
                        } else {
                            assert(0 <= g < gi && spec_group_matches(
                                gv[g],
                                spec_strs(family_names@),
                            ) && gv[g].font_indices.contains(x));
                            assert(out@.contains(x));
                        }
                    }
                }
            }
        } else {
            proof {
                assert forall|x: usize|
                    out@.contains(x) == exists|g: int|
                        0 <= g < gi + 1 && spec_group_matches(
                            #[trigger] gv[g],
                            spec_strs(family_names@),
                        ) && gv[g].font_indices.contains(x) by {
                    if exists|g: int|
                        0 <= g < gi + 1 && spec_group_matches(
                            #[trigger] gv[g],
                            spec_strs(family_names@),
                        ) && gv[g].font_indices.contains(x) {
                        let g = choose|g: int|
                            0 <= g < gi + 1 && spec_group_matches(
                                #[trigger] gv[g],
                                spec_strs(family_names@),
                            ) && gv[g].font_indices.contains(x);
                        assert(g < gi);
                    }
                }
            }
        }
        gi = gi + 1;
    }
    out
}

} // verus!
