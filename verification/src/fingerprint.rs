//! The family fingerprint engine: collapses inconsistent declared names and
//! filenames (`OpenSansBold-webfont`, `open-sans_700`) into one canonical
//! grouping key, a display name, and weight/style hints, via token-level
//! heuristics.
use vstd::prelude::*;

use crate::model::FontInfo;
use crate::text::{
    ends_with, is_alnum_char, is_digit_char, is_hex_digit_char, parse_u16_str, push_char,
    spec_contains, spec_dec_str, spec_ends_with, spec_is_alnum, spec_is_digit, spec_is_hex_digit,
    spec_is_lower_alpha, spec_is_upper, spec_lower_seq, spec_opt_str, spec_opt_strref,
    spec_parse_u16, spec_strs, spec_trim, spec_upper, spec_upper_seq, str_eq, contains_sub,
    to_lower, to_upper, trim_str, usize_to_string,
};

verus! {

/// Strips one known font file extension, if the name ends in one.
pub open spec fn spec_strip_ext(s: Seq<char>) -> Seq<char> {
    let l = spec_lower_seq(s);
    if spec_ends_with(l, ".woff2"@) {
        s.subrange(0, s.len() - 6)
    } else if spec_ends_with(l, ".woff"@) {
        s.subrange(0, s.len() - 5)
    } else if spec_ends_with(l, ".ttf"@) {
        s.subrange(0, s.len() - 4)
    } else if spec_ends_with(l, ".otf"@) {
        s.subrange(0, s.len() - 4)
    } else if spec_ends_with(l, ".eot"@) {
        s.subrange(0, s.len() - 4)
    } else if spec_ends_with(l, ".svg"@) {
        s.subrange(0, s.len() - 4)
    } else {
        s
    }
}

/// Whether a camel-case token break falls before position `i` of an
/// alphanumeric run: an acronym-to-word boundary (upper, upper, lower) or a
/// lower-to-upper boundary.
pub open spec fn spec_break_at(c: Seq<char>, i: int) -> bool {
    spec_is_upper(c[i]) && (spec_is_lower_alpha(c[i - 1]) || (spec_is_upper(c[i - 1]) && i + 1
        < c.len() && spec_is_lower_alpha(c[i + 1])))
}

/// The lowercased camel-case tokens of a run, scanning for the next break at
/// or after position `i`.
pub open spec fn spec_camel_from(c: Seq<char>, i: int) -> Seq<Seq<char>>
    decreases c.len(), c.len() - i,
{
    if c.len() == 0 {
        Seq::<Seq<char>>::empty()
    } else if i < 1 || i >= c.len() {
        seq![spec_lower_seq(c)]
    } else if spec_break_at(c, i) {
        seq![spec_lower_seq(c.subrange(0, i))] + spec_camel_from(c.subrange(i, c.len() as int), 1)
    } else {
        spec_camel_from(c, i + 1)
    }
}

/// The lowercased camel-case tokens of one alphanumeric run.
pub open spec fn spec_camel_split(c: Seq<char>) -> Seq<Seq<char>> {
    spec_camel_from(c, 1)
}

/// The tokens of a name: alphanumeric runs, each camel-split; `chunk` holds
/// the run read so far.
pub open spec fn spec_runs_acc(s: Seq<char>, chunk: Seq<char>) -> Seq<Seq<char>>
    decreases s.len(),
{
    if s.len() == 0 {
        if chunk.len() == 0 {
            Seq::<Seq<char>>::empty()
        } else {
            spec_camel_split(chunk)
        }
    } else if spec_is_alnum(s[0]) {
        spec_runs_acc(s.subrange(1, s.len() as int), chunk.push(s[0]))
    } else if chunk.len() == 0 {
        spec_runs_acc(s.subrange(1, s.len() as int), chunk)
    } else {
        spec_camel_split(chunk) + spec_runs_acc(s.subrange(1, s.len() as int), Seq::empty())
    }
}

/// The fingerprint tokens of a declared name or filename.
pub open spec fn spec_tokenize(input: Seq<char>) -> Seq<Seq<char>> {
    spec_runs_acc(spec_strip_ext(input), Seq::empty())
}

/// A trailing token that carries no meaning: a probable hex hash, or a bare
/// `s`/`p` marker.
pub open spec fn spec_droppable(t: Seq<char>) -> bool {
    spec_is_hash(t) || t == "s"@ || t == "p"@
}

/// At least six characters, all hex digits.
pub open spec fn spec_is_hash(t: Seq<char>) -> bool {
    t.len() >= 6 && forall|i: int| 0 <= i < t.len() ==> spec_is_hex_digit(#[trigger] t[i])
}

/// Drops meaningless trailing tokens.
pub open spec fn spec_cleanup(t: Seq<Seq<char>>) -> Seq<Seq<char>>
    decreases t.len(),
{
    if t.len() > 0 && spec_droppable(t.last()) {
        spec_cleanup(t.drop_last())
    } else {
        t
    }
}

/// The style a token names outright.
pub open spec fn spec_style_hint(t: Seq<char>) -> Option<Seq<char>> {
    if t == "italic"@ {
        Some("italic"@)
    } else if t == "oblique"@ {
        Some("oblique"@)
    } else {
        None
    }
}

/// The numeric weight a token's synonym stands for.
pub open spec fn spec_weight_hint(t: Seq<char>) -> Option<Seq<char>> {
    if t == "thin"@ {
        Some("100"@)
    } else if t == "extralight"@ || t == "ultralight"@ {
        Some("200"@)
    } else if t == "light"@ || t == "semilight"@ {
        Some("300"@)
    } else if t == "regular"@ || t == "normal"@ {
        Some("400"@)
    } else if t == "medium"@ {
        Some("500"@)
    } else if t == "semibold"@ || t == "demibold"@ {
        Some("600"@)
    } else if t == "bold"@ {
        Some("700"@)
    } else if t == "extrabold"@ || t == "ultrabold"@ || t == "heavy"@ {
        Some("800"@)
    } else if t == "black"@ {
        Some("900"@)
    } else {
        None
    }
}

/// Pops trailing style/weight tokens into hints, one of each at most,
/// stopping at the first token that is neither.
pub open spec fn spec_strip_variants(
    t: Seq<Seq<char>>,
    w: Option<Seq<char>>,
    s: Option<Seq<char>>,
) -> (Seq<Seq<char>>, Option<Seq<char>>, Option<Seq<char>>)
    decreases t.len(),
{
    if t.len() == 0 {
        (t, w, s)
    } else if s is None && spec_style_hint(t.last()) is Some {
        spec_strip_variants(t.drop_last(), w, spec_style_hint(t.last()))
    } else if w is None && spec_weight_hint(t.last()) is Some {
        spec_strip_variants(t.drop_last(), spec_weight_hint(t.last()), s)
    } else {
        (t, w, s)
    }
}

/// A token rendered for display: digits unchanged, one or two characters
/// uppercased as a probable acronym, anything longer title-cased.
pub open spec fn spec_display_token(t: Seq<char>) -> Seq<char> {
    if forall|i: int| 0 <= i < t.len() ==> spec_is_digit(#[trigger] t[i]) {
        t
    } else if t.len() <= 2 {
        spec_upper_seq(t)
    } else {
        seq![spec_upper(t[0])] + t.subrange(1, t.len() as int)
    }
}

/// Tokens joined by a single separator.
pub open spec fn spec_join(parts: Seq<Seq<char>>, sep: char) -> Seq<char>
    decreases parts.len(),
{
    if parts.len() == 0 {
        Seq::<char>::empty()
    } else if parts.len() == 1 {
        parts[0]
    } else {
        parts[0] + seq![sep] + spec_join(parts.subrange(1, parts.len() as int), sep)
    }
}

/// The canonical fingerprint of a declared family backed by a filename:
/// grouping key, display name, and the popped weight/style hints.
pub ghost struct FingerprintData {
    pub key: Seq<char>,
    pub display: Seq<char>,
    pub weight_hint: Option<Seq<char>>,
    pub style_hint: Option<Seq<char>>,
}

/// The fingerprint of a record with declared family `family` and filename
/// `name`: family tokens first; if they run out entirely, the filename's
/// tokens, merging still-missing hints; if still empty, the sentinel token.
pub open spec fn spec_fingerprint(family: Seq<char>, name: Seq<char>) -> FingerprintData {
    let first = spec_strip_variants(spec_cleanup(spec_tokenize(family)), None, None);
    let merged = if first.0.len() == 0 {
        let second = spec_strip_variants(spec_cleanup(spec_tokenize(name)), None, None);
        (
            second.0,
            if first.1 is Some {
                first.1
            } else {
                second.1
            },
            if first.2 is Some {
                first.2
            } else {
                second.2
            },
        )
    } else {
        first
    };
    let toks = if merged.0.len() == 0 {
        seq!["unknown"@]
    } else {
        merged.0
    };
    FingerprintData {
        key: spec_join(toks, ' '),
        display: spec_join(toks.map_values(|t: Seq<char>| spec_display_token(t)), ' '),
        weight_hint: merged.1,
        style_hint: merged.2,
    }
}

/// The canonical style of a declared value: italic or oblique if the text
/// mentions either, else normal.
pub open spec fn spec_normalize_style(input: Seq<char>) -> Seq<char> {
    let t = spec_lower_seq(spec_trim(input));
    if spec_contains(t, "italic"@) {
        "italic"@
    } else if spec_contains(t, "oblique"@) {
        "oblique"@
    } else {
        "normal"@
    }
}

/// The canonical weight of a declared value: numeric strings re-rendered,
/// weight synonyms mapped to their number, anything else kept.
pub open spec fn spec_normalize_weight(input: Seq<char>) -> Seq<char> {
    let t = spec_lower_seq(spec_trim(input));
    if t.len() == 0 {
        "400"@
    } else {
        match spec_parse_u16(t) {
            Some(v) => spec_dec_str(v as nat),
            None => match spec_weight_hint(t) {
                Some(m) => m,
                None => if t == "normal"@ {
                    "400"@
                } else {
                    t
                },
            },
        }
    }
}

/// A record's effective style: its own declared value when it normalizes off
/// the default, else the fingerprint's hint, else the default.
pub open spec fn spec_effective_style(style: Seq<char>, hint: Option<Seq<char>>) -> Seq<char> {
    let st = spec_normalize_style(style);
    if st != "normal"@ {
        st
    } else {
        match hint {
            Some(h) => h,
            None => "normal"@,
        }
    }
}

/// A record's effective weight: its own declared value when it normalizes off
/// the default, else the fingerprint's hint, else the default.
pub open spec fn spec_effective_weight(weight: Seq<char>, hint: Option<Seq<char>>) -> Seq<char> {
    let w = spec_normalize_weight(weight);
    if w != "400"@ {
        w
    } else {
        match hint {
            Some(h) => h,
            None => "400"@,
        }
    }
}

/// Strips one known font file extension from a declared name or filename.
pub fn strip_known_extension(input: &str) -> (r: String)
    ensures
        r@ == spec_strip_ext(input@),
{
    let lowered = to_lower(input);
    let n = input.unicode_len();
    proof {
        reveal_strlit(".woff2");
        reveal_strlit(".woff");
        reveal_strlit(".ttf");
        reveal_strlit(".otf");
        reveal_strlit(".eot");
        reveal_strlit(".svg");
        assert(lowered@.len() == input@.len());
    }
    if ends_with(lowered.as_str(), ".woff2") {
        String::from_str(input.substring_char(0, n - 6))
    } else if ends_with(lowered.as_str(), ".woff") {
        String::from_str(input.substring_char(0, n - 5))
    } else if ends_with(lowered.as_str(), ".ttf") {
        String::from_str(input.substring_char(0, n - 4))
    } else if ends_with(lowered.as_str(), ".otf") {
        String::from_str(input.substring_char(0, n - 4))
    } else if ends_with(lowered.as_str(), ".eot") {
        String::from_str(input.substring_char(0, n - 4))
    } else if ends_with(lowered.as_str(), ".svg") {
        String::from_str(input.substring_char(0, n - 4))
    } else {
        String::from_str(input)
    }
}

/// Splits one alphanumeric run at camel-case boundaries, lowercasing each
/// token.
pub fn split_camel_chunk(chunk: &str) -> (r: Vec<String>)
    ensures
        spec_strs(r@) == spec_camel_split(chunk@),
{
    let n = chunk.unicode_len();
    let mut tokens: Vec<String> = Vec::new();
    if n == 0 {
        proof {
            assert(spec_strs(tokens@) =~= spec_camel_split(chunk@));
        }
        return tokens;
    }
    let mut start: usize = 0;
    let mut i: usize = 1;
    proof {
        assert(chunk@.subrange(0, n as int) =~= chunk@);
        assert(spec_strs(tokens@) =~= Seq::<Seq<char>>::empty());
        assert(spec_strs(tokens@) + spec_camel_from(chunk@, 1) =~= spec_camel_from(chunk@, 1));
    }
    while i < n
        invariant
            start < i <= n,
            n == chunk@.len(),
            spec_strs(tokens@) + spec_camel_from(
                chunk@.subrange(start as int, n as int),
                i - start,
            ) == spec_camel_split(chunk@),
        decreases n - i,
    {
        let ghost rest = chunk@.subrange(start as int, n as int);
        let ghost ri = i - start;
        let cur = chunk.get_char(i);
        let prev = chunk.get_char(i - 1);
        let acr = is_upper_char(cur) && is_upper_char(prev) && i + 1 < n && is_lower_alpha_char(
            chunk.get_char(i + 1),
        );
        let l2u = is_upper_char(cur) && is_lower_alpha_char(prev);
        proof {
            assert(rest[ri] == chunk@[i as int]);
            assert(rest[ri - 1] == chunk@[i - 1]);
            if i + 1 < n {
                assert(rest[ri + 1] == chunk@[i + 1]);
            }
            assert((acr || l2u) == spec_break_at(rest, ri));
        }
        if acr || l2u {
            let tok = to_lower(chunk.substring_char(start, i));
            tokens.push(tok);
            proof {
                assert(rest.subrange(0, ri) =~= chunk@.subrange(start as int, i as int));
                assert(rest.subrange(ri, rest.len() as int) =~= chunk@.subrange(
                    i as int,
                    n as int,
                ));
                assert(spec_strs(tokens@) =~= spec_strs(tokens@.drop_last()) + seq![
                    spec_lower_seq(chunk@.subrange(start as int, i as int)),
                ]);
            }
            start = i;
        }
        i = i + 1;
    }
    let tok = to_lower(chunk.substring_char(start, n));
    tokens.push(tok);
    proof {
        let rest = chunk@.subrange(start as int, n as int);
        assert(spec_lower_seq(rest) == tok@);
        assert(spec_strs(tokens@) =~= spec_strs(tokens@.drop_last()) + seq![spec_lower_seq(rest)]);
        assert(spec_camel_from(rest, n - start) =~= seq![spec_lower_seq(rest)]);
    }
    tokens
}

fn is_upper_char(c: char) -> (r: bool)
    ensures
        r == spec_is_upper(c),
{
    'A' <= c && c <= 'Z'
}

fn is_lower_alpha_char(c: char) -> (r: bool)
    ensures
        r == spec_is_lower_alpha(c),
{
    'a' <= c && c <= 'z'
}

fn append_strings(dst: &mut Vec<String>, src: Vec<String>)
    ensures
        spec_strs(final(dst)@) == spec_strs(old(dst)@) + spec_strs(src@),
{
    let mut i: usize = 0;
    let n = src.len();
    while i < n
        invariant
            i <= n,
            n == src@.len(),
            spec_strs(dst@) == spec_strs(old(dst)@) + spec_strs(src@.subrange(0, i as int)),
        decreases n - i,
    {
        let s = src[i].clone();
        let ghost pre = dst@;
        dst.push(s);
        proof {
            assert(spec_strs(dst@) =~= spec_strs(pre) + seq![src@[i as int]@]);
            assert(spec_strs(src@.subrange(0, i + 1)) =~= spec_strs(
                src@.subrange(0, i as int),
            ) + seq![src@[i as int]@]);
            assert(spec_strs(dst@) =~= spec_strs(old(dst)@) + spec_strs(src@.subrange(0, i + 1)));
        }
        i = i + 1;
    }
    proof {
        assert(src@.subrange(0, n as int) =~= src@);
    }
}

/// Tokenizes a declared name or filename: strips a known extension, splits on
/// non-alphanumeric boundaries, then camel-splits each run, lowercasing.
pub fn tokenize_source(input: &str) -> (r: Vec<String>)
    ensures
        spec_strs(r@) == spec_tokenize(input@),
{
    let stripped = strip_known_extension(input);
    let s = stripped.as_str();
    let n = s.unicode_len();
    let mut tokens: Vec<String> = Vec::new();
    let mut start: usize = 0;
    let mut i: usize = 0;
    proof {
        assert(s@.subrange(0, n as int) =~= s@);
        assert(s@.subrange(0, 0) =~= Seq::<char>::empty());
        assert(spec_strs(tokens@) + spec_runs_acc(s@, Seq::empty()) =~= spec_runs_acc(
            s@,
            Seq::empty(),
        ));
    }
    while i < n
        invariant
            start <= i <= n,
            n == s@.len(),
            s@ == spec_strip_ext(input@),
            spec_strs(tokens@) + spec_runs_acc(
                s@.subrange(i as int, n as int),
                s@.subrange(start as int, i as int),
            ) == spec_tokenize(input@),
        decreases n - i,
    {
        let ghost suffix = s@.subrange(i as int, n as int);
        let ghost chunk = s@.subrange(start as int, i as int);
        let c = s.get_char(i);
        proof {
            assert(suffix[0] == s@[i as int]);
            assert(suffix.subrange(1, suffix.len() as int) =~= s@.subrange(i + 1, n as int));
        }
        if is_alnum_char(c) {
            proof {
                assert(spec_is_alnum(suffix[0]));
                assert(chunk.push(suffix[0]) =~= s@.subrange(start as int, i + 1));
                assert(spec_runs_acc(suffix, chunk) == spec_runs_acc(
                    s@.subrange(i + 1, n as int),
                    s@.subrange(start as int, i + 1),
                ));
            }
        } else {
            proof {
                assert(!spec_is_alnum(suffix[0]));
                assert(s@.subrange(i + 1, i + 1) =~= Seq::<char>::empty());
            }
            if start < i {
                let run = split_camel_chunk(s.substring_char(start, i));
                let ghost toks_pre = spec_strs(tokens@);
                append_strings(&mut tokens, run);
                proof {
                    assert(chunk.len() > 0);
                    assert(spec_runs_acc(suffix, chunk) == spec_camel_split(chunk)
                        + spec_runs_acc(s@.subrange(i + 1, n as int), Seq::empty()));
                    assert(spec_strs(tokens@) + spec_runs_acc(
                        s@.subrange(i + 1, n as int),
                        Seq::empty(),
                    ) =~= (toks_pre + spec_camel_split(chunk)) + spec_runs_acc(
                        s@.subrange(i + 1, n as int),
                        Seq::empty(),
                    ));
                    assert(toks_pre + (spec_camel_split(chunk) + spec_runs_acc(
                        s@.subrange(i + 1, n as int),
                        Seq::empty(),
                    )) =~= (toks_pre + spec_camel_split(chunk)) + spec_runs_acc(
                        s@.subrange(i + 1, n as int),
                        Seq::empty(),
                    ));
                }
            } else {
                proof {
                    assert(chunk =~= Seq::<char>::empty());
                    assert(spec_runs_acc(suffix, chunk) == spec_runs_acc(
                        s@.subrange(i + 1, n as int),
                        chunk,
                    ));
                }
            }
            start = i + 1;
        }
        i = i + 1;
    }
    let ghost final_chunk = s@.subrange(start as int, n as int);
    proof {
        assert(s@.subrange(n as int, n as int) =~= Seq::<char>::empty());
        if start == n {
            assert(final_chunk =~= Seq::<char>::empty());
            assert(spec_runs_acc(Seq::empty(), final_chunk) =~= Seq::<Seq<char>>::empty());
            assert(spec_strs(tokens@) + Seq::<Seq<char>>::empty() =~= spec_strs(tokens@));
        } else {
            assert(final_chunk.len() > 0);
            assert(spec_runs_acc(Seq::empty(), final_chunk) == spec_camel_split(final_chunk));
        }
    }
    if start < n {
        let run = split_camel_chunk(s.substring_char(start, n));
        append_strings(&mut tokens, run);
    }
    tokens
}

/// Whether a token looks like a hex hash: six or more hex digits.
pub fn is_hash_token(token: &str) -> (r: bool)
    ensures
        r == spec_is_hash(token@),
{
    let n = token.unicode_len();
    if n < 6 {
        return false;
    }
    let mut i: usize = 0;
    while i < n
        invariant
            i <= n,
            n == token@.len(),
            forall|k: int| 0 <= k < i ==> spec_is_hex_digit(#[trigger] token@[k]),
        decreases n - i,
    {
        if !is_hex_digit_char(token.get_char(i)) {
            return false;
        }
        i = i + 1;
    }
    true
}

/// Drops trailing hash-like tokens and bare `s`/`p` markers.
pub fn cleanup_file_tokens(tokens: &mut Vec<String>)
    ensures
        spec_strs(final(tokens)@) == spec_cleanup(spec_strs(old(tokens)@)),
{
    loop
        invariant
            spec_cleanup(spec_strs(tokens@)) == spec_cleanup(spec_strs(old(tokens)@)),
        ensures
            spec_strs(tokens@) == spec_cleanup(spec_strs(old(tokens)@)),
        decreases tokens@.len(),
    {
        if tokens.len() == 0 {
            proof {
                assert(spec_cleanup(spec_strs(tokens@)) == spec_strs(tokens@));
            }
            return ;
        }
        let last = &tokens[tokens.len() - 1];
        let drop = is_hash_token(last.as_str()) || str_eq(last.as_str(), "s") || str_eq(
            last.as_str(),
            "p",
        );
        proof {
            assert(spec_strs(tokens@).last() == tokens@[tokens@.len() - 1]@);
        }
        if !drop {
            proof {
                assert(spec_cleanup(spec_strs(tokens@)) == spec_strs(tokens@));
            }
            return ;
        }
        let ghost pre = tokens@;
        tokens.pop();
        proof {
            assert(spec_strs(tokens@) =~= spec_strs(pre).drop_last());
        }
    }
}

/// The style a token names outright.
pub fn style_hint_from_token(token: &str) -> (r: Option<String>)
    ensures
        spec_opt_str(r) == spec_style_hint(token@),
{
    if str_eq(token, "italic") {
        Some(String::from_str("italic"))
    } else if str_eq(token, "oblique") {
        Some(String::from_str("oblique"))
    } else {
        None
    }
}

/// The numeric weight a token's synonym stands for.
pub fn weight_hint_from_token(token: &str) -> (r: Option<String>)
    ensures
        spec_opt_str(r) == spec_weight_hint(token@),
{
    if str_eq(token, "thin") {
        Some(String::from_str("100"))
    } else if str_eq(token, "extralight") || str_eq(token, "ultralight") {
        Some(String::from_str("200"))
    } else if str_eq(token, "light") || str_eq(token, "semilight") {
        Some(String::from_str("300"))
    } else if str_eq(token, "regular") || str_eq(token, "normal") {
        Some(String::from_str("400"))
    } else if str_eq(token, "medium") {
        Some(String::from_str("500"))
    } else if str_eq(token, "semibold") || str_eq(token, "demibold") {
        Some(String::from_str("600"))
    } else if str_eq(token, "bold") {
        Some(String::from_str("700"))
    } else if str_eq(token, "extrabold") || str_eq(token, "ultrabold") || str_eq(token, "heavy") {
        Some(String::from_str("800"))
    } else if str_eq(token, "black") {
        Some(String::from_str("900"))
    } else {
        None
    }
}

/// Pops trailing style/weight tokens into hints (one of each at most),
/// returning `(weight hint, style hint)`.
pub fn strip_variant_tokens(tokens: &mut Vec<String>) -> (r: (Option<String>, Option<String>))
    ensures
        ({
            let (t2, w2, s2) = spec_strip_variants(spec_strs(old(tokens)@), None, None);
            spec_strs(final(tokens)@) == t2 && spec_opt_str(r.0) == w2 && spec_opt_str(r.1) == s2
        }),
{
    let mut weight_hint: Option<String> = None;
    let mut style_hint: Option<String> = None;
    let mut done = false;
    while !done
        invariant
            spec_strip_variants(spec_strs(old(tokens)@), None, None) == spec_strip_variants(
                spec_strs(tokens@),
                spec_opt_str(weight_hint),
                spec_opt_str(style_hint),
            ),
            done ==> ({
                let (t2, w2, s2) = spec_strip_variants(spec_strs(old(tokens)@), None, None);
                spec_strs(tokens@) == t2 && spec_opt_str(weight_hint) == w2 && spec_opt_str(
                    style_hint,
                ) == s2
            }),
        decreases tokens@.len() + 1, (if done {
            0int
        } else {
            1int
        }),
    {
        if tokens.len() == 0 {
            done = true;
        } else {
            let idx = tokens.len() - 1;
            proof {
                assert(spec_strs(tokens@).last() == tokens@[tokens@.len() - 1]@);
            }
            let style = style_hint_from_token(tokens[idx].as_str());
            if style_hint.is_none() && style.is_some() {
                style_hint = style;
                let ghost pre = tokens@;
                tokens.pop();
                proof {
                    assert(spec_strs(tokens@) =~= spec_strs(pre).drop_last());
                }
            } else {
                let weight = weight_hint_from_token(tokens[idx].as_str());
                if weight_hint.is_none() && weight.is_some() {
                    weight_hint = weight;
                    let ghost pre = tokens@;
                    tokens.pop();
                    proof {
                        assert(spec_strs(tokens@) =~= spec_strs(pre).drop_last());
                    }
                } else {
                    done = true;
                }
            }
        }
    }
    (weight_hint, style_hint)
}

/// A token rendered for display.
pub fn display_token(token: &str) -> (r: String)
    ensures
        r@ == spec_display_token(token@),
{
    let n = token.unicode_len();
    let mut all_digits = true;
    let mut i: usize = 0;
    while i < n
        invariant
            i <= n,
            n == token@.len(),
            all_digits == forall|k: int| 0 <= k < i ==> spec_is_digit(#[trigger] token@[k]),
        decreases n - i,
    {
        if !is_digit_char(token.get_char(i)) {
            all_digits = false;
            proof {
                assert(!spec_is_digit(token@[i as int]));
            }
        }
        i = i + 1;
    }
    if all_digits {
        return String::from_str(token);
    }
    if n <= 2 {
        return to_upper(token);
    }
    let mut out = String::new();
    push_char(&mut out, crate::text::upper_char(token.get_char(0)));
    out.append(token.substring_char(1, n));
    proof {
        assert(out@ =~= seq![spec_upper(token@[0])] + token@.subrange(1, n as int));
    }
    out
}

/// `spec_join` over an extended token list: the sorted head plus separator
/// and the new token.
proof fn lemma_join_push(parts: Seq<Seq<char>>, x: Seq<char>, sep: char)
    ensures
        spec_join(parts.push(x), sep) == if parts.len() == 0 {
            x
        } else {
            spec_join(parts, sep) + seq![sep] + x
        },
    decreases parts.len(),
{
    let e = parts.push(x);
    if parts.len() == 0 {
        assert(e.len() == 1);
        assert(e[0] == x);
    } else {
        assert(e[0] == parts[0]);
        lemma_join_push(parts.subrange(1, parts.len() as int), x, sep);
        assert(e.subrange(1, e.len() as int) =~= parts.subrange(1, parts.len() as int).push(x));
        if parts.len() == 1 {
            assert(spec_join(parts, sep) == parts[0]);
            assert(spec_join(e, sep) =~= parts[0] + seq![sep] + x);
        } else {
            assert(spec_join(e, sep) =~= spec_join(parts, sep) + seq![sep] + x);
        }
    }
}

/// Joins tokens with single spaces.
pub fn join_with_space(tokens: &Vec<String>) -> (r: String)
    ensures
        r@ == spec_join(spec_strs(tokens@), ' '),
{
    let mut out = String::new();
    let mut i: usize = 0;
    let n = tokens.len();
    while i < n
        invariant
            i <= n,
            n == tokens@.len(),
            out@ == spec_join(spec_strs(tokens@.subrange(0, i as int)), ' '),
        decreases n - i,
    {
        if i > 0 {
            push_char(&mut out, ' ');
        }
        out.append(tokens[i].as_str());
        proof {
            let pre = spec_strs(tokens@.subrange(0, i as int));
            assert(spec_strs(tokens@.subrange(0, i + 1)) =~= pre.push(tokens@[i as int]@));
            lemma_join_push(pre, tokens@[i as int]@, ' ');
            if i == 0 {
                assert(out@ =~= tokens@[0]@);
            } else {
                assert(out@ =~= spec_join(pre, ' ') + seq![' '] + tokens@[i as int]@);
            }
        }
        i = i + 1;
    }
    proof {
        assert(tokens@.subrange(0, n as int) =~= tokens@);
    }
    out
}

/// The display names of a token list.
fn display_tokens(tokens: &Vec<String>) -> (r: Vec<String>)
    ensures
        spec_strs(r@) == spec_strs(tokens@).map_values(|t: Seq<char>| spec_display_token(t)),
{
    let mut out: Vec<String> = Vec::new();
    let mut i: usize = 0;
    let n = tokens.len();
    while i < n
        invariant
            i <= n,
            n == tokens@.len(),
            out@.len() == i,
            forall|k: int| 0 <= k < i ==> (#[trigger] out@[k])@ == spec_display_token(tokens@[k]@),
        decreases n - i,
    {
        let d = display_token(tokens[i].as_str());
        out.push(d);
        i = i + 1;
    }
    proof {
        assert(spec_strs(out@) =~= spec_strs(tokens@).map_values(
            |t: Seq<char>| spec_display_token(t),
        ));
    }
    out
}

/// A canonical family fingerprint: grouping key, display name, and hints.
#[derive(Debug)]
pub struct FamilyFingerprint {
    pub key: String,
    pub display: String,
    pub weight_hint: Option<String>,
    pub style_hint: Option<String>,
}

impl View for FamilyFingerprint {
    type V = FingerprintData;

    open spec fn view(&self) -> FingerprintData {
        FingerprintData {
            key: self.key@,
            display: self.display@,
            weight_hint: spec_opt_str(self.weight_hint),
            style_hint: spec_opt_str(self.style_hint),
        }
    }
}

/// Derives the canonical fingerprint of a record from its declared family,
/// falling back to its filename when the family tokens run out.
pub fn infer_family_fingerprint(font: &FontInfo) -> (r: FamilyFingerprint)
    ensures
        r@ == spec_fingerprint(font@.family, font@.name),
{
    let mut tokens = tokenize_source(font.family.as_str());
    cleanup_file_tokens(&mut tokens);
    let (mut weight_hint, mut style_hint) = strip_variant_tokens(&mut tokens);

    if tokens.len() == 0 {
        tokens = tokenize_source(font.name.as_str());
        cleanup_file_tokens(&mut tokens);
        let (fallback_weight, fallback_style) = strip_variant_tokens(&mut tokens);
        if weight_hint.is_none() {
            weight_hint = fallback_weight;
        }
        if style_hint.is_none() {
            style_hint = fallback_style;
        }
    }

    if tokens.len() == 0 {
        tokens.push(String::from_str("unknown"));
        proof {
            assert(spec_strs(tokens@) =~= seq!["unknown"@]);
        }
    }

    let key = join_with_space(&tokens);
    let displays = display_tokens(&tokens);
    let display = join_with_space(&displays);

    FamilyFingerprint { key, display, weight_hint, style_hint }
}

/// The canonical style of a declared value.
pub fn normalize_style(input: &str) -> (r: String)
    ensures
        r@ == spec_normalize_style(input@),
{
    let trimmed = trim_str(input);
    let normalized = to_lower(trimmed.as_str());
    if contains_sub(normalized.as_str(), "italic") {
        String::from_str("italic")
    } else if contains_sub(normalized.as_str(), "oblique") {
        String::from_str("oblique")
    } else {
        String::from_str("normal")
    }
}

/// The canonical weight of a declared value.
pub fn normalize_weight(input: &str) -> (r: String)
    ensures
        r@ == spec_normalize_weight(input@),
{
    let trimmed = trim_str(input);
    let normalized = to_lower(trimmed.as_str());
    if normalized.as_str().unicode_len() == 0 {
        return String::from_str("400");
    }
    match parse_u16_str(normalized.as_str()) {
        Some(v) => usize_to_string(v as usize),
        None => match weight_hint_from_token(normalized.as_str()) {
            Some(m) => m,
            None => {
                if str_eq(normalized.as_str(), "normal") {
                    String::from_str("400")
                } else {
                    normalized
                }
            },
        },
    }
}

/// A record's effective style: declared when off the default, else the hint.
pub fn effective_style(font: &FontInfo, style_hint: Option<&str>) -> (r: String)
    ensures
        r@ == spec_effective_style(font@.style, spec_opt_strref(style_hint)),
{
    let style = normalize_style(font.style.as_str());
    if !str_eq(style.as_str(), "normal") {
        return style;
    }
    match style_hint {
        Some(h) => String::from_str(h),
        None => String::from_str("normal"),
    }
}

/// A record's effective weight: declared when off the default, else the hint.
pub fn effective_weight(font: &FontInfo, weight_hint: Option<&str>) -> (r: String)
    ensures
        r@ == spec_effective_weight(font@.weight, spec_opt_strref(weight_hint)),
{
    let weight = normalize_weight(font.weight.as_str());
    if !str_eq(weight.as_str(), "400") {
        return weight;
    }
    match weight_hint {
        Some(h) => String::from_str(h),
        None => String::from_str("400"),
    }
}

} // verus!
