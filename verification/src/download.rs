//! The persistence side of the pipeline: collision-safe destination naming,
//! extension choice, inline data payload decoding, and the per-batch report.
//! Network fetches and filesystem writes happen outside; everything that
//! decides a name or decodes bytes is here.
use vstd::prelude::*;

use base64::Engine;

use crate::errors::CoreError;
use crate::model::FontInfo;
use crate::text::{
    contains_sub, is_alnum_char, lower_char, push_char, spec_contains, spec_dec_str, spec_is_alnum,
    spec_lower, spec_lower_seq, spec_opt_str, spec_opt_strref, spec_strs, spec_trim, spec_until,
    spec_upper_seq, str_eq, to_lower, to_upper, trim_str, until_char, usize_to_string,
};

verus! {

/// The outcome of one download batch: how many records were attempted, the
/// destination paths written, and one description per failed record.
#[derive(Debug)]
pub struct DownloadReport {
    pub attempted: usize,
    pub saved_files: Vec<String>,
    pub failures: Vec<String>,
}

impl DownloadReport {
    /// A report for a batch of `attempted` records, before any outcome.
    pub fn new(attempted: usize) -> (r: Self)
        ensures
            r.attempted == attempted,
            r.saved_files@.len() == 0,
            r.failures@.len() == 0,
    {
        DownloadReport { attempted, saved_files: Vec::new(), failures: Vec::new() }
    }

    /// How many records were saved.
    pub fn success_count(&self) -> (r: usize)
        ensures
            r == self.saved_files@.len(),
    {
        self.saved_files.len()
    }

    /// Records one written destination path.
    pub fn record_saved(&mut self, path: String)
        ensures
            final(self).attempted == old(self).attempted,
            final(self).saved_files@ == old(self).saved_files@.push(path),
            final(self).failures@ == old(self).failures@,
    {
        self.saved_files.push(path);
    }

    /// Records one failed record as `name (url) -> error`.
    pub fn record_failure(&mut self, font: &FontInfo, error: &str)
        ensures
            final(self).attempted == old(self).attempted,
            final(self).saved_files@ == old(self).saved_files@,
            spec_strs(final(self).failures@) == spec_strs(old(self).failures@).push(
                font@.name + " ("@ + font@.url + ") -> "@ + error@,
            ),
    {
        let mut message = font.name.clone();
        message.append(" (");
        message.append(font.url.as_str());
        message.append(") -> ");
        message.append(error);
        let ghost pre = self.failures@;
        self.failures.push(message);
        proof {
            assert(spec_strs(self.failures@) =~= spec_strs(pre).push(
                font@.name + " ("@ + font@.url + ") -> "@ + error@,
            ));
        }
    }

    /// Records a failure that is not tied to one record, such as the batch's
    /// directory setup failing.
    pub fn record_failure_message(&mut self, message: String)
        ensures
            final(self).attempted == old(self).attempted,
            final(self).saved_files@ == old(self).saved_files@,
            final(self).failures@ == old(self).failures@.push(message),
    {
        self.failures.push(message);
    }
}

impl Default for DownloadReport {
    /// An empty report.
    fn default() -> (r: Self)
        ensures
            r.attempted == 0,
            r.saved_files@.len() == 0,
            r.failures@.len() == 0,
    {
        DownloadReport { attempted: 0, saved_files: Vec::new(), failures: Vec::new() }
    }
}

/// One character of a path component: alphanumerics lowercased, a run of
/// anything else collapsed to one hyphen; `prev_sep` says whether a hyphen
/// was just written.
pub open spec fn spec_sanitize_core(s: Seq<char>, prev_sep: bool) -> Seq<char>
    decreases s.len(),
{
    if s.len() == 0 {
        Seq::<char>::empty()
    } else if spec_is_alnum(s[0]) {
        seq![spec_lower(s[0])] + spec_sanitize_core(s.subrange(1, s.len() as int), false)
    } else if !prev_sep {
        seq!['-'] + spec_sanitize_core(s.subrange(1, s.len() as int), true)
    } else {
        spec_sanitize_core(s.subrange(1, s.len() as int), true)
    }
}

/// Hyphens stripped from both ends.
pub open spec fn spec_trim_hyphens(s: Seq<char>) -> Seq<char>
    decreases s.len(),
{
    if s.len() == 0 {
        s
    } else if s[0] == '-' {
        spec_trim_hyphens(s.subrange(1, s.len() as int))
    } else if s[s.len() - 1] == '-' {
        spec_trim_hyphens(s.subrange(0, s.len() - 1))
    } else {
        s
    }
}

/// A path component made safe: lowercased alphanumerics, other runs collapsed
/// to single hyphens, trimmed at both ends.
pub open spec fn spec_sanitize(s: Seq<char>) -> Seq<char> {
    spec_trim_hyphens(spec_sanitize_core(s, false))
}

/// Sanitizes one path component.
pub fn sanitize_component(value: &str) -> (r: String)
    ensures
        r@ == spec_sanitize(value@),
{
    let n = value.unicode_len();
    let mut raw = String::new();
    let mut prev_sep = false;
    let mut i: usize = 0;
    proof {
        assert(value@.subrange(0, n as int) =~= value@);
        assert(raw@ + spec_sanitize_core(value@, false) =~= spec_sanitize_core(value@, false));
    }
    while i < n
        invariant
            i <= n,
            n == value@.len(),
            raw@ + spec_sanitize_core(value@.subrange(i as int, n as int), prev_sep)
                == spec_sanitize_core(value@, false),
        decreases n - i,
    {
        let ghost suffix = value@.subrange(i as int, n as int);
        let c = value.get_char(i);
        proof {
            assert(suffix[0] == value@[i as int]);
            assert(suffix.subrange(1, suffix.len() as int) =~= value@.subrange(i + 1, n as int));
        }
        if is_alnum_char(c) {
            push_char(&mut raw, lower_char(c));
            prev_sep = false;
        } else if !prev_sep {
            push_char(&mut raw, '-');
            prev_sep = true;
        } else {
            prev_sep = true;
        }
        i = i + 1;
    }
    proof {
        assert(value@.subrange(n as int, n as int) =~= Seq::<char>::empty());
        assert(raw@ =~= spec_sanitize_core(value@, false));
    }
    trim_hyphens(raw.as_str())
}

/// Removes leading and trailing hyphens, as `str::trim_matches('-')` does.
fn trim_hyphens(s: &str) -> (r: String)
    ensures
        r@ == spec_trim_hyphens(s@),
{
    let n = s.unicode_len();
    let mut lo: usize = 0;
    let mut hi: usize = n;
    proof {
        assert(s@.subrange(0, n as int) =~= s@);
    }
    while lo < hi && s.get_char(lo) == '-'
        invariant
            lo <= hi <= n,
            n == s@.len(),
            spec_trim_hyphens(s@) == spec_trim_hyphens(s@.subrange(lo as int, hi as int)),
            forall|k: int| 0 <= k < lo ==> s@[k] == '-',
        decreases hi - lo,
    {
        proof {
            assert(s@.subrange(lo as int, hi as int).subrange(1, (hi - lo) as int) == s@.subrange(
                lo as int + 1,
                hi as int,
            ));
        }
        lo = lo + 1;
    }
    while lo < hi && s.get_char(hi - 1) == '-'
        invariant
            lo <= hi <= n,
            n == s@.len(),
            spec_trim_hyphens(s@) == spec_trim_hyphens(s@.subrange(lo as int, hi as int)),
            lo < hi ==> s@[lo as int] != '-',
        decreases hi - lo,
    {
        proof {
            assert(s@.subrange(lo as int, hi as int).subrange(0, (hi - lo - 1) as int) == s@
                .subrange(lo as int, hi as int - 1));
        }
        hi = hi - 1;
    }
    let r = s.substring_char(lo, hi);
    proof {
        assert(spec_trim_hyphens(s@.subrange(lo as int, hi as int)) == s@.subrange(
            lo as int,
            hi as int,
        ));
    }
    String::from_str(r)
}

/// The filename with its last dot-suffix removed: text before the final `.`,
/// unless that dot leads the name.
pub open spec fn spec_strip_file_ext(name: Seq<char>) -> Seq<char> {
    if exists|i: int| 1 <= i < name.len() && name[i] == '.' {
        let i = spec_last_dot(name);
        name.subrange(0, i)
    } else {
        name
    }
}

/// The position of the last dot at index one or later.
pub open spec fn spec_last_dot(name: Seq<char>) -> int {
    choose|i: int|
        1 <= i < name.len() && name[i] == '.' && forall|j: int|
            i < j < name.len() ==> name[j] != '.'
}

/// Removes the filename's last dot-suffix; a name without one, or one whose
/// only dot leads it, is kept whole.
pub fn strip_extension(name: &str) -> (r: String)
    ensures
        r@ == spec_strip_file_ext(name@),
{
    let n = name.unicode_len();
    let mut i: usize = n;
    while i > 1
        invariant
            i <= n,
            n == name@.len(),
            forall|j: int| i <= j < n ==> name@[j] != '.',
        decreases i,
    {
        if name.get_char(i - 1) == '.' {
            proof {
                let d = i - 1;
                assert(1 <= d < name@.len() && name@[d] == '.');
                assert(forall|j: int| d < j < name@.len() ==> name@[j] != '.');
                let w = spec_last_dot(name@);
                assert(w == d) by {
                    if w < d {
                        assert(name@[d] == '.');
                    }
                    if w > d {
                        assert(name@[w] != '.');
                    }
                }
            }
            return String::from_str(name.substring_char(0, i - 1));
        }
        i = i - 1;
    }
    proof {
        assert(forall|k: int| 1 <= k < name@.len() ==> name@[k] != '.');
    }
    String::from_str(name)
}

/// The destination stem of a record: sanitized name (or `font`), with the
/// sanitized weight and style appended when they are not empty.
pub open spec fn spec_file_stem(font: crate::model::FontData) -> Seq<char> {
    let base = spec_sanitize(spec_strip_file_ext(font.name));
    let with_base = if base.len() > 0 {
        base
    } else {
        "font"@
    };
    let w = spec_sanitize(font.weight);
    let with_weight = if w.len() > 0 {
        with_base + "-"@ + w
    } else {
        with_base
    };
    let s = spec_sanitize(font.style);
    if s.len() > 0 {
        with_weight + "-"@ + s
    } else {
        with_weight
    }
}

/// Builds a record's destination stem.
pub fn file_stem_for_font(font: &FontInfo) -> (r: String)
    ensures
        r@ == spec_file_stem(font@),
{
    let base_name = strip_extension(font.name.as_str());
    let normalized_base = sanitize_component(base_name.as_str());
    let normalized_weight = sanitize_component(font.weight.as_str());
    let normalized_style = sanitize_component(font.style.as_str());

    let mut stem: String;
    if normalized_base.as_str().unicode_len() > 0 {
        stem = normalized_base;
    } else {
        stem = String::from_str("font");
    }
    if normalized_weight.as_str().unicode_len() > 0 {
        push_char(&mut stem, '-');
        stem.append(normalized_weight.as_str());
        proof {
            reveal_strlit("-");
            assert("-"@ =~= seq!['-']);
        }
    }
    if normalized_style.as_str().unicode_len() > 0 {
        push_char(&mut stem, '-');
        stem.append(normalized_style.as_str());
        proof {
            reveal_strlit("-");
            assert("-"@ =~= seq!['-']);
        }
    }
    proof {
        assert(stem@ =~= spec_file_stem(font@));
    }
    stem
}

/// The file extension a record should be saved with: from its declared
/// format, else sniffed from the response content type, else generic.
pub open spec fn spec_extension_for(format: Seq<char>, content_type: Option<Seq<char>>) -> Seq<
    char,
> {
    let f = spec_upper_seq(format);
    if f == "WOFF2"@ {
        "woff2"@
    } else if f == "WOFF"@ {
        "woff"@
    } else if f == "OPENTYPE"@ || f == "OTF"@ {
        "otf"@
    } else if f == "TRUETYPE"@ || f == "TTF"@ {
        "ttf"@
    } else if f == "EOT"@ {
        "eot"@
    } else if f == "SVG"@ {
        "svg"@
    } else {
        match content_type {
            Some(mime) => {
                if spec_contains(mime, "woff2"@) {
                    "woff2"@
                } else if spec_contains(mime, "woff"@) {
                    "woff"@
                } else if spec_contains(mime, "opentype"@) || spec_contains(mime, "otf"@) {
                    "otf"@
                } else if spec_contains(mime, "truetype"@) || spec_contains(mime, "ttf"@) {
                    "ttf"@
                } else {
                    "bin"@
                }
            },
            None => "bin"@,
        }
    }
}

/// Chooses a record's file extension.
pub fn extension_for_font(font: &FontInfo, content_type: Option<&str>) -> (r: String)
    ensures
        r@ == spec_extension_for(font@.format, spec_opt_strref(content_type)),
{
    let format = to_upper(font.format.as_str());
    if str_eq(format.as_str(), "WOFF2") {
        String::from_str("woff2")
    } else if str_eq(format.as_str(), "WOFF") {
        String::from_str("woff")
    } else if str_eq(format.as_str(), "OPENTYPE") || str_eq(format.as_str(), "OTF") {
        String::from_str("otf")
    } else if str_eq(format.as_str(), "TRUETYPE") || str_eq(format.as_str(), "TTF") {
        String::from_str("ttf")
    } else if str_eq(format.as_str(), "EOT") {
        String::from_str("eot")
    } else if str_eq(format.as_str(), "SVG") {
        String::from_str("svg")
    } else {
        match content_type {
            Some(mime) => {
                if contains_sub(mime, "woff2") {
                    String::from_str("woff2")
                } else if contains_sub(mime, "woff") {
                    String::from_str("woff")
                } else if contains_sub(mime, "opentype") || contains_sub(mime, "otf") {
                    String::from_str("otf")
                } else if contains_sub(mime, "truetype") || contains_sub(mime, "ttf") {
                    String::from_str("ttf")
                } else {
                    String::from_str("bin")
                }
            },
            None => String::from_str("bin"),
        }
    }
}

/// The candidate file name for one attempt: `stem.ext` first, then
/// `stem-1.ext`, `stem-2.ext`, and so on; an empty stem falls back to `font`.
pub open spec fn spec_candidate_name(stem: Seq<char>, ext: Seq<char>, attempt: usize) -> Seq<
    char,
> {
    let base = if stem.len() == 0 {
        "font"@
    } else {
        stem
    };
    if attempt == 0 {
        base + "."@ + ext
    } else {
        base + "-"@ + spec_dec_str(attempt as nat) + "."@ + ext
    }
}

/// Builds the candidate file name for one attempt.
pub fn candidate_file_name(stem: &str, ext: &str, attempt: usize) -> (r: String)
    ensures
        r@ == spec_candidate_name(stem@, ext@, attempt),
{
    let mut out: String;
    if stem.unicode_len() == 0 {
        out = String::from_str("font");
    } else {
        out = String::from_str(stem);
    }
    if attempt > 0 {
        push_char(&mut out, '-');
        let num = usize_to_string(attempt);
        out.append(num.as_str());
    }
    push_char(&mut out, '.');
    out.append(ext);
    proof {
        reveal_strlit("-");
        reveal_strlit(".");
        assert(out@ =~= spec_candidate_name(stem@, ext@, attempt));
    }
    out
}

/// Distinct attempts yield distinct candidate names.
proof fn lemma_candidate_injective(stem: Seq<char>, ext: Seq<char>, a1: usize, a2: usize)
    requires
        a1 != a2,
    ensures
        spec_candidate_name(stem, ext, a1) != spec_candidate_name(stem, ext, a2),
{
    reveal_strlit(".");
    reveal_strlit("-");
    let base = if stem.len() == 0 {
        "font"@
    } else {
        stem
    };
    let c1 = spec_candidate_name(stem, ext, a1);
    let c2 = spec_candidate_name(stem, ext, a2);
    crate::text::lemma_dec_str_len(a1 as nat);
    crate::text::lemma_dec_str_len(a2 as nat);
    if a1 == 0 {
        assert(c1.len() == base.len() + 1 + ext.len());
        assert(c2.len() == base.len() + 1 + spec_dec_str(a2 as nat).len() + 1 + ext.len());
    } else if a2 == 0 {
        assert(c2.len() == base.len() + 1 + ext.len());
        assert(c1.len() == base.len() + 1 + spec_dec_str(a1 as nat).len() + 1 + ext.len());
    } else {
        let d1 = spec_dec_str(a1 as nat);
        let d2 = spec_dec_str(a2 as nat);
        if c1 == c2 {
            assert(c1.len() == base.len() + 1 + d1.len() + 1 + ext.len());
            assert(c2.len() == base.len() + 1 + d2.len() + 1 + ext.len());
            assert(d1.len() == d2.len());
            assert(d1 =~= c1.subrange(
                base.len() as int + 1,
                base.len() as int + 1 + d1.len() as int,
            ));
            assert(d2 =~= c2.subrange(
                base.len() as int + 1,
                base.len() as int + 1 + d2.len() as int,
            ));
            crate::text::lemma_dec_str_injective(a1 as nat, a2 as nat);
        }
    }
}

/// Among pairwise-distinct names numbered up to the occupied list's length,
/// one is missing from that list.
proof fn lemma_free_name_exists(f: spec_fn(int) -> Seq<char>, occ: Seq<Seq<char>>)
    requires
        forall|i: int, j: int| 0 <= i < j <= occ.len() ==> #[trigger] f(i) != #[trigger] f(j),
    ensures
        exists|a: int| 0 <= a <= occ.len() && !occ.contains(#[trigger] f(a)),
    decreases occ.len(),
{
    if !occ.contains(f(0)) {
        assert(0 <= 0 <= occ.len() && !occ.contains(f(0)));
    } else {
        let p = choose|p: int| 0 <= p < occ.len() && occ[p] == f(0);
        let rest = occ.remove(p);
        let g = |i: int| f(i + 1);
        assert forall|i: int, j: int| 0 <= i < j <= rest.len() implies #[trigger] g(i)
            != #[trigger] g(j) by {
            assert(0 <= i + 1 < j + 1 <= occ.len());
            assert(f(i + 1) != f(j + 1));
        }
        lemma_free_name_exists(g, rest);
        let a1 = choose|a: int| 0 <= a <= rest.len() && !rest.contains(#[trigger] g(a));
        assert(!occ.contains(f(a1 + 1))) by {
            if occ.contains(f(a1 + 1)) {
                let q = choose|q: int| 0 <= q < occ.len() && occ[q] == f(a1 + 1);
                assert(0 <= 0 < a1 + 1 <= occ.len());
                assert(f(a1 + 1) != f(0));
                assert(q != p);
                if q < p {
                    assert(rest[q] == occ[q]);
                    assert(rest.contains(g(a1)));
                } else {
                    assert(rest[q - 1] == occ[q]);
                    assert(rest.contains(g(a1)));
                }
            }
        }
        assert(0 <= a1 + 1 <= occ.len() && !occ.contains(f(a1 + 1)));
    }
}

/// Picks the first free destination name: counting attempts up from zero,
/// the earliest candidate that the occupied-name list does not hold —
/// `stem.ext` first, then `stem-1.ext`, `stem-2.ext`, and so on. The list
/// holds what the destination directory already has and what this run has
/// already claimed there.
pub fn claim_destination(taken: &Vec<String>, stem: &str, ext: &str) -> (r: String)
    requires
        taken@.len() < usize::MAX,
    ensures
        exists|a: usize| #[trigger] spec_claim_at(stem@, ext@, spec_strs(taken@), r@, a),
{
    let mut attempt: usize = 0;
    loop
        invariant
            taken@.len() < usize::MAX,
            attempt <= taken@.len(),
            forall|a2: usize|
                a2 < attempt ==> spec_strs(taken@).contains(
                    #[trigger] spec_candidate_name(stem@, ext@, a2),
                ),
        decreases taken@.len() - attempt,
    {
        let candidate = candidate_file_name(stem, ext, attempt);
        if !crate::text::contains_string(taken, &candidate) {
            proof {
                assert(spec_claim_at(stem@, ext@, spec_strs(taken@), candidate@, attempt));
            }
            return candidate;
        }
        proof {
            if attempt + 1 > taken@.len() {
                let f = |i: int| spec_candidate_name(stem@, ext@, i as usize);
                assert forall|i: int, j: int|
                    0 <= i < j <= spec_strs(taken@).len() implies #[trigger] f(i) != #[trigger] f(
                    j,
                ) by {
                    lemma_candidate_injective(stem@, ext@, i as usize, j as usize);
                }
                lemma_free_name_exists(f, spec_strs(taken@));
                let a = choose|a: int|
                    0 <= a <= spec_strs(taken@).len() && !spec_strs(taken@).contains(
                        #[trigger] f(a),
                    );
                assert(spec_strs(taken@).contains(spec_candidate_name(stem@, ext@, a as usize)));
                assert(false);
            }
        }
        attempt = attempt + 1;
    }
}

/// A successful destination claim at attempt `a`: the name is attempt `a`'s
/// candidate, the occupied list does not hold it, and it does hold every
/// earlier attempt's candidate — so the claim is the first free name.
pub open spec fn spec_claim_at(
    stem: Seq<char>,
    ext: Seq<char>,
    taken: Seq<Seq<char>>,
    r: Seq<char>,
    a: usize,
) -> bool {
    &&& r == spec_candidate_name(stem, ext, a)
    &&& !taken.contains(r)
    &&& forall|a2: usize|
        a2 < a ==> taken.contains(#[trigger] spec_candidate_name(stem, ext, a2))
}

/// Claims a candidate destination: succeeds exactly when the name is free
/// both on disk and in this run's already-claimed set, and then records it.
pub fn try_claim(used: &mut Vec<String>, candidate: &String, exists_on_disk: bool) -> (r: bool)
    ensures
        r == (!exists_on_disk && !spec_strs(old(used)@).contains(candidate@)),
        r ==> spec_strs(final(used)@) == spec_strs(old(used)@).push(candidate@),
        !r ==> final(used)@ == old(used)@,
{
    if exists_on_disk {
        return false;
    }
    let mut i: usize = 0;
    while i < used.len()
        invariant
            i <= used@.len(),
            used@ == old(used)@,
            forall|k: int| 0 <= k < i ==> #[trigger] spec_strs(used@)[k] != candidate@,
        decreases used@.len() - i,
    {
        if str_eq(used[i].as_str(), candidate.as_str()) {
            proof {
                assert(spec_strs(used@)[i as int] == candidate@);
            }
            return false;
        }
        i = i + 1;
    }
    let ghost pre = spec_strs(used@);
    proof {
        assert forall|k: int| 0 <= k < pre.len() implies pre[k] != candidate@ by {}
        if pre.contains(candidate@) {
            let k = choose|k: int| 0 <= k < pre.len() && pre[k] == candidate@;
            assert(false);
        }
    }
    used.push(candidate.clone());
    proof {
        assert(spec_strs(used@) =~= pre.push(candidate@));
    }
    true
}

/// What the standard base64 decoder returns for a string, when it accepts it.
/// Relies on `base64`'s documented behaviour: the result depends on the input
/// characters alone.
pub uninterp spec fn base64_decode_of(s: Seq<char>) -> Option<Seq<u8>>;

/// Relies on `base64::Engine::decode` with the standard alphabet: decodes a
/// padded standard-alphabet base64 string, or reports it malformed.
#[verifier::external_body]
fn base64_decode(s: &str) -> (r: Option<Vec<u8>>)
    ensures
        match r {
            Some(v) => base64_decode_of(s@) == Some(v@),
            None => base64_decode_of(s@) is None,
        },
{
    match base64::engine::general_purpose::STANDARD.decode(s) {
        Ok(v) => Some(v),
        Err(_) => None,
    }
}

/// What percent-decoding returns for a string: each `%XX` becomes one byte,
/// everything else passes through as its UTF-8 bytes. Relies on
/// `percent_encoding`'s documented behaviour: the result depends on the input
/// alone, and decoding never fails.
pub uninterp spec fn percent_decode_of(s: Seq<char>) -> Seq<u8>;

/// Relies on `percent_encoding::percent_decode_str`.
#[verifier::external_body]
fn percent_decode(s: &str) -> (r: Vec<u8>)
    ensures
        r@ == percent_decode_of(s@),
{
    percent_encoding::percent_decode_str(s).collect()
}

/// Whether some `;`-separated segment of the metadata, with `seg` read so
/// far, spells `base64` case-insensitively.
pub open spec fn spec_b64_acc(s: Seq<char>, seg: Seq<char>) -> bool
    decreases s.len(),
{
    if s.len() == 0 {
        spec_lower_seq(seg) == "base64"@
    } else if s[0] == ';' {
        spec_lower_seq(seg) == "base64"@ || spec_b64_acc(
            s.subrange(1, s.len() as int),
            Seq::empty(),
        )
    } else {
        spec_b64_acc(s.subrange(1, s.len() as int), seg.push(s[0]))
    }
}

/// Whether an inline payload's metadata marks it base64.
pub open spec fn spec_data_is_base64(meta: Seq<char>) -> bool {
    spec_b64_acc(meta, Seq::empty())
}

/// The declared media type of an inline payload: its first metadata segment,
/// when that is not empty.
pub open spec fn spec_data_mime(meta: Seq<char>) -> Option<Seq<char>> {
    let first = spec_until(meta, ';');
    if first.len() > 0 {
        Some(first)
    } else {
        None
    }
}

/// The metadata and data halves of an inline payload: what follows `data:`
/// split at its first comma. Absent prefix or comma means no parts.
pub open spec fn spec_data_url_parts(s: Seq<char>) -> Option<(Seq<char>, Seq<char>)> {
    if crate::text::spec_starts_with(s, "data:"@) {
        let payload = s.subrange(5, s.len() as int);
        let meta = spec_until(payload, ',');
        if meta.len() < payload.len() {
            Some((meta, payload.subrange(meta.len() as int + 1, payload.len() as int)))
        } else {
            None
        }
    } else {
        None
    }
}

fn data_is_base64(meta: &str) -> (r: bool)
    ensures
        r == spec_data_is_base64(meta@),
{
    let n = meta.unicode_len();
    let mut seg_start: usize = 0;
    let mut i: usize = 0;
    proof {
        assert(meta@.subrange(0, n as int) =~= meta@);
        assert(meta@.subrange(0, 0) =~= Seq::<char>::empty());
    }
    while i < n
        invariant
            seg_start <= i <= n,
            n == meta@.len(),
            spec_data_is_base64(meta@) == spec_b64_acc(
                meta@.subrange(i as int, n as int),
                meta@.subrange(seg_start as int, i as int),
            ),
        decreases n - i,
    {
        let ghost suffix = meta@.subrange(i as int, n as int);
        let ghost seg = meta@.subrange(seg_start as int, i as int);
        let c = meta.get_char(i);
        proof {
            assert(suffix[0] == meta@[i as int]);
            assert(suffix.subrange(1, suffix.len() as int) =~= meta@.subrange(i + 1, n as int));
        }
        if c == ';' {
            let segment = to_lower(meta.substring_char(seg_start, i));
            if str_eq(segment.as_str(), "base64") {
                return true;
            }
            proof {
                assert(meta@.subrange(i + 1, i + 1) =~= Seq::<char>::empty());
            }
            seg_start = i + 1;
        } else {
            proof {
                assert(seg.push(suffix[0]) =~= meta@.subrange(seg_start as int, i + 1));
            }
        }
        i = i + 1;
    }
    let last = to_lower(meta.substring_char(seg_start, n));
    str_eq(last.as_str(), "base64")
}

fn data_mime(meta: &str) -> (r: Option<String>)
    ensures
        spec_opt_str(r) == spec_data_mime(meta@),
{
    let first = until_char(meta, ';');
    if first.as_str().unicode_len() > 0 {
        Some(first)
    } else {
        None
    }
}

/// Decodes an inline data payload into its bytes and declared media type: a
/// `;base64` marker selects base64, anything else percent-decoding; a payload
/// without the `data:` prefix, without a comma, or with undecodable base64 is
/// a parse error.
pub fn decode_data_url(input: &str) -> (r: Result<(Vec<u8>, Option<String>), CoreError>)
    ensures
        match spec_data_url_parts(input@) {
            None => r is Err && (r matches Err(e) ==> e is Parse),
            Some((meta, data)) => {
                if spec_data_is_base64(meta) {
                    match base64_decode_of(spec_trim(data)) {
                        Some(b) => r matches Ok((bytes, mime)) && bytes@ == b && spec_opt_str(mime)
                            == spec_data_mime(meta),
                        None => r is Err && (r matches Err(e) ==> e is Parse),
                    }
                } else {
                    r matches Ok((bytes, mime)) && bytes@ == percent_decode_of(data)
                        && spec_opt_str(mime) == spec_data_mime(meta)
                }
            },
        },
{
    proof {
        reveal_strlit("data:");
    }
    if !crate::text::starts_with(input, "data:") {
        return Err(CoreError::Parse(String::from_str("missing data: prefix")));
    }
    let n = input.unicode_len();
    let payload = String::from_str(input.substring_char(5, n));
    let ghost payload_seq = input@.subrange(5, n as int);
    let meta = until_char(payload.as_str(), ',');
    let meta_len = meta.as_str().unicode_len();
    let payload_len = payload.as_str().unicode_len();
    if meta_len >= payload_len {
        return Err(CoreError::Parse(String::from_str("missing comma separator")));
    }
    let data = String::from_str(payload.as_str().substring_char(meta_len + 1, payload_len));
    let mime = data_mime(meta.as_str());
    if data_is_base64(meta.as_str()) {
        let trimmed = trim_str(data.as_str());
        match base64_decode(trimmed.as_str()) {
            Some(bytes) => Ok((bytes, mime)),
            None => Err(CoreError::Parse(String::from_str("failed to decode base64 font bytes"))),
        }
    } else {
        let bytes = percent_decode(data.as_str());
        Ok((bytes, mime))
    }
}

} // verus!
