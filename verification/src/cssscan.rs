//! Text scanners over stylesheet text: font-face rule bodies, import
//! directives, and the `url()/format()` pairs of a `src` value. Only these
//! patterns are recognized; no full CSS grammar is parsed.
use vstd::prelude::*;

use crate::text::{
    lower_char, spec_is_whitespace, spec_lower, spec_lower_seq, spec_until, spec_strs,
    is_whitespace_char,
};

verus! {

/// The number of leading whitespace characters.
pub open spec fn spec_ws_len(s: Seq<char>) -> int
    decreases s.len(),
{
    if s.len() == 0 || !spec_is_whitespace(s[0]) {
        0
    } else {
        1 + spec_ws_len(s.subrange(1, s.len() as int))
    }
}

pub proof fn lemma_ws_len(s: Seq<char>)
    ensures
        0 <= spec_ws_len(s) <= s.len(),
    decreases s.len(),
{
    if s.len() > 0 && spec_is_whitespace(s[0]) {
        lemma_ws_len(s.subrange(1, s.len() as int));
    }
}

/// A character a `url()` capture may hold: anything but a quote or a closing
/// parenthesis.
pub open spec fn spec_is_capture_char(c: char) -> bool {
    c != '\'' && c != '"' && c != ')'
}

/// The number of leading capture characters.
pub open spec fn spec_cap_len(s: Seq<char>) -> int
    decreases s.len(),
{
    if s.len() == 0 || !spec_is_capture_char(s[0]) {
        0
    } else {
        1 + spec_cap_len(s.subrange(1, s.len() as int))
    }
}

pub proof fn lemma_cap_len(s: Seq<char>)
    ensures
        0 <= spec_cap_len(s) <= s.len(),
    decreases s.len(),
{
    if s.len() > 0 && spec_is_capture_char(s[0]) {
        lemma_cap_len(s.subrange(1, s.len() as int));
    }
}

/// The number of leading non-quote characters.
pub open spec fn spec_nq_len(s: Seq<char>) -> int
    decreases s.len(),
{
    if s.len() == 0 || s[0] == '\'' || s[0] == '"' {
        0
    } else {
        1 + spec_nq_len(s.subrange(1, s.len() as int))
    }
}

pub proof fn lemma_nq_len(s: Seq<char>)
    ensures
        0 <= spec_nq_len(s) <= s.len(),
    decreases s.len(),
{
    if s.len() > 0 && s[0] != '\'' && s[0] != '"' {
        lemma_nq_len(s.subrange(1, s.len() as int));
    }
}

/// `spec_until` reads a prefix: its text is the text before its end, and a
/// terminator, when one exists, stands right after it.
pub proof fn lemma_until_prefix(s: Seq<char>, c: char)
    ensures
        spec_until(s, c).len() <= s.len(),
        spec_until(s, c) == s.subrange(0, spec_until(s, c).len() as int),
        spec_until(s, c).len() < s.len() ==> s[spec_until(s, c).len() as int] == c,
    decreases s.len(),
{
    if s.len() == 0 || s[0] == c {
        assert(spec_until(s, c) =~= s.subrange(0, 0));
    } else {
        let rest = s.subrange(1, s.len() as int);
        lemma_until_prefix(rest, c);
        assert(spec_until(s, c) =~= s.subrange(0, spec_until(s, c).len() as int)) by {
            assert(rest.subrange(0, spec_until(rest, c).len() as int) =~= s.subrange(
                1,
                1 + spec_until(rest, c).len() as int,
            ));
        }
    }
}

/// Characterizes `spec_until` by the position of the first terminator.
pub proof fn lemma_until_char_at(s: Seq<char>, c: char, m: int)
    requires
        0 <= m <= s.len(),
        forall|k: int| 0 <= k < m ==> s[k] != c,
        m < s.len() ==> s[m] == c,
    ensures
        spec_until(s, c) == s.subrange(0, m),
    decreases m,
{
    if m == 0 {
        assert(spec_until(s, c) =~= s.subrange(0, 0));
    } else {
        let rest = s.subrange(1, s.len() as int);
        lemma_until_char_at(rest, c, m - 1);
        assert(spec_until(s, c) =~= s.subrange(0, m)) by {
            assert(rest.subrange(0, m - 1) =~= s.subrange(1, m));
        }
    }
}

/// Characterizes `spec_ws_len` by the position of the first non-whitespace.
pub proof fn lemma_ws_len_at(s: Seq<char>, m: int)
    requires
        0 <= m <= s.len(),
        forall|k: int| 0 <= k < m ==> spec_is_whitespace(#[trigger] s[k]),
        m < s.len() ==> !spec_is_whitespace(s[m]),
    ensures
        spec_ws_len(s) == m,
    decreases m,
{
    if m > 0 {
        let rest = s.subrange(1, s.len() as int);
        assert(forall|k: int| 0 <= k < m - 1 ==> spec_is_whitespace(#[trigger] rest[k]));
        lemma_ws_len_at(rest, m - 1);
    }
}

/// Characterizes `spec_cap_len` by the position of the first non-capture
/// character.
pub proof fn lemma_cap_len_at(s: Seq<char>, m: int)
    requires
        0 <= m <= s.len(),
        forall|k: int| 0 <= k < m ==> spec_is_capture_char(#[trigger] s[k]),
        m < s.len() ==> !spec_is_capture_char(s[m]),
    ensures
        spec_cap_len(s) == m,
    decreases m,
{
    if m > 0 {
        let rest = s.subrange(1, s.len() as int);
        assert(forall|k: int| 0 <= k < m - 1 ==> spec_is_capture_char(#[trigger] rest[k]));
        lemma_cap_len_at(rest, m - 1);
    }
}

/// Characterizes `spec_nq_len` by the position of the first quote.
pub proof fn lemma_nq_len_at(s: Seq<char>, m: int)
    requires
        0 <= m <= s.len(),
        forall|k: int| 0 <= k < m ==> #[trigger] s[k] != '\'' && s[k] != '"',
        m < s.len() ==> (s[m] == '\'' || s[m] == '"'),
    ensures
        spec_nq_len(s) == m,
    decreases m,
{
    if m > 0 {
        let rest = s.subrange(1, s.len() as int);
        assert(forall|k: int| 0 <= k < m - 1 ==> #[trigger] rest[k] != '\'' && rest[k] != '"');
        lemma_nq_len_at(rest, m - 1);
    }
}

/// A `url(...)` reference at the front of `s`: after `url(` and whitespace,
/// an optional quote, a non-empty run of capture characters, an optional
/// quote, whitespace, and a closing parenthesis. Yields the captured text
/// and how many characters the whole form spans.
pub open spec fn spec_url_ref(s: Seq<char>) -> Option<(Seq<char>, int)> {
    if s.len() >= 4 && spec_lower_seq(s.subrange(0, 4)) == "url("@ {
        let p = 4 + spec_ws_len(s.subrange(4, s.len() as int));
        let q = if p < s.len() && (s[p] == '\'' || s[p] == '"') {
            p + 1
        } else {
            p
        };
        let cap = if q <= s.len() {
            spec_cap_len(s.subrange(q, s.len() as int))
        } else {
            0
        };
        if cap == 0 {
            None
        } else {
            let e = q + cap;
            let e2 = if e < s.len() && (s[e] == '\'' || s[e] == '"') {
                e + 1
            } else {
                e
            };
            let e3 = e2 + if e2 <= s.len() {
                spec_ws_len(s.subrange(e2, s.len() as int))
            } else {
                0
            };
            if e3 < s.len() && s[e3] == ')' {
                Some((s.subrange(q, e), e3 + 1))
            } else {
                None
            }
        }
    } else {
        None
    }
}

/// A `url(...)` reference spans at least five characters and never more than
/// the text.
pub proof fn lemma_url_ref_bounds(s: Seq<char>)
    ensures
        spec_url_ref(s) matches Some(r) ==> 5 <= r.1 <= s.len(),
{
    if s.len() >= 4 && spec_lower_seq(s.subrange(0, 4)) == "url("@ {
        lemma_ws_len(s.subrange(4, s.len() as int));
        let p = 4 + spec_ws_len(s.subrange(4, s.len() as int));
        let q = if p < s.len() && (s[p] == '\'' || s[p] == '"') {
            p + 1
        } else {
            p
        };
        if q <= s.len() {
            lemma_cap_len(s.subrange(q, s.len() as int));
            let cap = spec_cap_len(s.subrange(q, s.len() as int));
            if cap > 0 {
                let e = q + cap;
                let e2 = if e < s.len() && (s[e] == '\'' || s[e] == '"') {
                    e + 1
                } else {
                    e
                };
                if e2 <= s.len() {
                    lemma_ws_len(s.subrange(e2, s.len() as int));
                }
            }
        }
    }
}

/// A quoted reference at the front of `s`: a quote, a non-empty run of
/// non-quote characters, and a quote of either kind.
pub open spec fn spec_quoted_ref(s: Seq<char>) -> Option<(Seq<char>, int)> {
    if s.len() >= 1 && (s[0] == '\'' || s[0] == '"') {
        let cap = spec_nq_len(s.subrange(1, s.len() as int));
        if cap == 0 {
            None
        } else {
            let e = 1 + cap;
            if e < s.len() && (s[e] == '\'' || s[e] == '"') {
                Some((s.subrange(1, e), e + 1))
            } else {
                None
            }
        }
    } else {
        None
    }
}

pub proof fn lemma_quoted_ref_bounds(s: Seq<char>)
    ensures
        spec_quoted_ref(s) matches Some(r) ==> 3 <= r.1 <= s.len(),
{
    if s.len() >= 1 && (s[0] == '\'' || s[0] == '"') {
        lemma_nq_len(s.subrange(1, s.len() as int));
    }
}

/// An import's reference: the `url(...)` form, or else a quoted string.
pub open spec fn spec_import_ref(s: Seq<char>) -> Option<(Seq<char>, int)> {
    match spec_url_ref(s) {
        Some(r) => Some(r),
        None => spec_quoted_ref(s),
    }
}

pub proof fn lemma_import_ref_bounds(s: Seq<char>)
    ensures
        spec_import_ref(s) matches Some(r) ==> 1 <= r.1 <= s.len(),
{
    lemma_url_ref_bounds(s);
    lemma_quoted_ref_bounds(s);
}

/// A `format(...)` annotation at the front of `s`, shaped like a `url(...)`
/// reference.
pub open spec fn spec_format_ref(s: Seq<char>) -> Option<(Seq<char>, int)> {
    if s.len() >= 7 && spec_lower_seq(s.subrange(0, 7)) == "format("@ {
        let p = 7 + spec_ws_len(s.subrange(7, s.len() as int));
        let q = if p < s.len() && (s[p] == '\'' || s[p] == '"') {
            p + 1
        } else {
            p
        };
        let cap = if q <= s.len() {
            spec_cap_len(s.subrange(q, s.len() as int))
        } else {
            0
        };
        if cap == 0 {
            None
        } else {
            let e = q + cap;
            let e2 = if e < s.len() && (s[e] == '\'' || s[e] == '"') {
                e + 1
            } else {
                e
            };
            let e3 = e2 + if e2 <= s.len() {
                spec_ws_len(s.subrange(e2, s.len() as int))
            } else {
                0
            };
            if e3 < s.len() && s[e3] == ')' {
                Some((s.subrange(q, e), e3 + 1))
            } else {
                None
            }
        }
    } else {
        None
    }
}

pub proof fn lemma_format_ref_bounds(s: Seq<char>)
    ensures
        spec_format_ref(s) matches Some(r) ==> 8 <= r.1 <= s.len(),
{
    if s.len() >= 7 && spec_lower_seq(s.subrange(0, 7)) == "format("@ {
        lemma_ws_len(s.subrange(7, s.len() as int));
        let p = 7 + spec_ws_len(s.subrange(7, s.len() as int));
        let q = if p < s.len() && (s[p] == '\'' || s[p] == '"') {
            p + 1
        } else {
            p
        };
        if q <= s.len() {
            lemma_cap_len(s.subrange(q, s.len() as int));
            let cap = spec_cap_len(s.subrange(q, s.len() as int));
            if cap > 0 {
                let e = q + cap;
                let e2 = if e < s.len() && (s[e] == '\'' || s[e] == '"') {
                    e + 1
                } else {
                    e
                };
                if e2 <= s.len() {
                    lemma_ws_len(s.subrange(e2, s.len() as int));
                }
            }
        }
    }
}

/// The bodies of the font-face rules in stylesheet text: each case-blind
/// `@font-face`, followed by optional whitespace and `{`, contributes the
/// text up to the next `}`; scanning continues after that brace, and an
/// occurrence without its braces is skipped.
pub open spec fn spec_ff_blocks(s: Seq<char>) -> Seq<Seq<char>>
    decreases s.len(),
{
    if s.len() < 10 {
        Seq::<Seq<char>>::empty()
    } else if spec_lower_seq(s.subrange(0, 10)) == "@font-face"@ {
        let p = 10 + {
            proof {
                lemma_ws_len(s.subrange(10, s.len() as int));
            }
            spec_ws_len(s.subrange(10, s.len() as int))
        };
        if p < s.len() && s[p] == '{' {
            let body = {
                proof {
                    lemma_until_prefix(s.subrange(p + 1, s.len() as int), '}');
                }
                spec_until(s.subrange(p + 1, s.len() as int), '}')
            };
            if p + 1 + body.len() < s.len() {
                seq![body] + spec_ff_blocks(s.subrange(p + 2 + body.len(), s.len() as int))
            } else {
                spec_ff_blocks(s.subrange(1, s.len() as int))
            }
        } else {
            spec_ff_blocks(s.subrange(1, s.len() as int))
        }
    } else {
        spec_ff_blocks(s.subrange(1, s.len() as int))
    }
}

/// The raw references of the import directives in stylesheet text: each
/// case-blind `@import`, followed by whitespace and a `url(...)` or quoted
/// reference, counts when a `;` closes it; scanning continues after the
/// semicolon.
pub open spec fn spec_imports(s: Seq<char>) -> Seq<Seq<char>>
    decreases s.len(),
{
    if s.len() < 7 {
        Seq::<Seq<char>>::empty()
    } else if spec_lower_seq(s.subrange(0, 7)) == "@import"@ {
        let w = {
            proof {
                lemma_ws_len(s.subrange(7, s.len() as int));
            }
            spec_ws_len(s.subrange(7, s.len() as int))
        };
        if w == 0 {
            spec_imports(s.subrange(1, s.len() as int))
        } else {
            let p = 7 + w;
            match spec_import_ref(s.subrange(p, s.len() as int)) {
                Some(r) => {
                    let t = {
                        proof {
                            lemma_import_ref_bounds(s.subrange(p, s.len() as int));
                            lemma_until_prefix(s.subrange(p + r.1, s.len() as int), ';');
                        }
                        spec_until(s.subrange(p + r.1, s.len() as int), ';')
                    };
                    if p + r.1 + t.len() < s.len() {
                        seq![r.0] + spec_imports(
                            s.subrange(p + r.1 + t.len() + 1, s.len() as int),
                        )
                    } else {
                        spec_imports(s.subrange(1, s.len() as int))
                    }
                },
                None => spec_imports(s.subrange(1, s.len() as int)),
            }
        }
    } else {
        spec_imports(s.subrange(1, s.len() as int))
    }
}

fn is_capture_char(c: char) -> (r: bool)
    ensures
        r == spec_is_capture_char(c),
{
    c != '\'' && c != '"' && c != ')'
}

fn is_non_quote_char(c: char) -> (r: bool)
    ensures
        r == (c != '\'' && c != '"'),
{
    c != '\'' && c != '"'
}

/// Counts whitespace characters from position `i` on.
fn ws_len_from(s: &str, i: usize) -> (r: usize)
    requires
        i <= s@.len() <= usize::MAX,
    ensures
        i + r <= s@.len(),
        r == spec_ws_len(s@.subrange(i as int, s@.len() as int)),
{
    let n = s.unicode_len();
    let mut j: usize = i;
    while j < n && is_whitespace_char(s.get_char(j))
        invariant
            i <= j <= n,
            n == s@.len(),
            forall|k: int| i <= k < j ==> spec_is_whitespace(#[trigger] s@[k]),
        decreases n - j,
    {
        j = j + 1;
    }
    proof {
        let rest = s@.subrange(i as int, n as int);
        assert(forall|k: int| 0 <= k < j - i ==> spec_is_whitespace(#[trigger] rest[k]));
        if j < n {
            assert(rest[j - i] == s@[j as int]);
        }
        lemma_ws_len_at(rest, j - i);
    }
    j - i
}

/// Counts capture characters from position `i` on.
fn cap_len_from(s: &str, i: usize) -> (r: usize)
    requires
        i <= s@.len() <= usize::MAX,
    ensures
        i + r <= s@.len(),
        r == spec_cap_len(s@.subrange(i as int, s@.len() as int)),
{
    let n = s.unicode_len();
    let mut j: usize = i;
    while j < n && is_capture_char(s.get_char(j))
        invariant
            i <= j <= n,
            n == s@.len(),
            forall|k: int| i <= k < j ==> spec_is_capture_char(#[trigger] s@[k]),
        decreases n - j,
    {
        j = j + 1;
    }
    proof {
        let rest = s@.subrange(i as int, n as int);
        assert(forall|k: int| 0 <= k < j - i ==> spec_is_capture_char(#[trigger] rest[k]));
        if j < n {
            assert(rest[j - i] == s@[j as int]);
        }
        lemma_cap_len_at(rest, j - i);
    }
    j - i
}

/// Counts non-quote characters from position `i` on.
fn nq_len_from(s: &str, i: usize) -> (r: usize)
    requires
        i <= s@.len() <= usize::MAX,
    ensures
        i + r <= s@.len(),
        r == spec_nq_len(s@.subrange(i as int, s@.len() as int)),
{
    let n = s.unicode_len();
    let mut j: usize = i;
    while j < n && is_non_quote_char(s.get_char(j))
        invariant
            i <= j <= n,
            n == s@.len(),
            forall|k: int| i <= k < j ==> #[trigger] s@[k] != '\'' && s@[k] != '"',
        decreases n - j,
    {
        j = j + 1;
    }
    proof {
        let rest = s@.subrange(i as int, n as int);
        assert(forall|k: int| 0 <= k < j - i ==> #[trigger] rest[k] != '\'' && rest[k] != '"');
        if j < n {
            assert(rest[j - i] == s@[j as int]);
        }
        lemma_nq_len_at(rest, j - i);
    }
    j - i
}

/// The length of the text from position `i` up to the next `c`.
fn until_len_from(s: &str, i: usize, c: char) -> (r: usize)
    requires
        i <= s@.len() <= usize::MAX,
    ensures
        i + r <= s@.len(),
        r == spec_until(s@.subrange(i as int, s@.len() as int), c).len(),
        i + r < s@.len() ==> s@[i + r] == c,
        i + r == s@.len() ==> !s@.subrange(i as int, s@.len() as int).contains(c),
{
    let n = s.unicode_len();
    let mut j: usize = i;
    while j < n && s.get_char(j) != c
        invariant
            i <= j <= n,
            n == s@.len(),
            forall|k: int| i <= k < j ==> s@[k] != c,
        decreases n - j,
    {
        j = j + 1;
    }
    proof {
        let rest = s@.subrange(i as int, n as int);
        assert(forall|k: int| 0 <= k < j - i ==> rest[k] != c);
        if j < n {
            assert(rest[j - i] == s@[j as int]);
        }
        lemma_until_char_at(rest, c, j - i);
        assert(spec_until(rest, c).len() == j - i);
        if j == n {
            if rest.contains(c) {
                let k = choose|k: int| 0 <= k < rest.len() && rest[k] == c;
                assert(s@[i + k] == c);
            }
        }
    }
    j - i
}

/// Whether the text at position `i`, lowercased, spells the (lowercase)
/// pattern `lit`.
fn match_ci_at(s: &str, i: usize, lit: &str) -> (r: bool)
    requires
        i + lit@.len() <= s@.len() <= usize::MAX,
    ensures
        r == (spec_lower_seq(s@.subrange(i as int, i + lit@.len())) == lit@),
{
    let pn = lit.unicode_len();
    let mut j: usize = 0;
    while j < pn
        invariant
            j <= pn,
            pn == lit@.len(),
            i + pn <= s@.len() <= usize::MAX,
            forall|k: int| 0 <= k < j ==> spec_lower(s@[i + k]) == lit@[k],
        decreases pn - j,
    {
        if lower_char(s.get_char(i + j)) != lit.get_char(j) {
            proof {
                let sub = s@.subrange(i as int, i + pn);
                assert(spec_lower_seq(sub)[j as int] == spec_lower(s@[i + j]));
            }
            return false;
        }
        j = j + 1;
    }
    proof {
        assert(spec_lower_seq(s@.subrange(i as int, i + pn)) =~= lit@);
    }
    true
}

/// Reads a `url(...)` reference starting at position `i`; yields the
/// captured text and the number of characters spanned.
fn url_ref_at(s: &str, i: usize) -> (r: Option<(String, usize)>)
    requires
        i <= s@.len() <= usize::MAX,
    ensures
        match r {
            Some(c) => spec_url_ref(s@.subrange(i as int, s@.len() as int)) == Some(
                (c.0@, c.1 as int),
            ) && 1 <= c.1 && i + c.1 <= s@.len(),
            None => spec_url_ref(s@.subrange(i as int, s@.len() as int)) is None,
        },
{
    let n = s.unicode_len();
    let ghost rest = s@.subrange(i as int, n as int);
    proof {
        reveal_strlit("url(");
    }
    if n - i < 4 {
        return None;
    }
    proof {
        assert(rest.subrange(0, 4) =~= s@.subrange(i as int, i + 4));
    }
    if !match_ci_at(s, i, "url(") {
        return None;
    }
    let w = ws_len_from(s, i + 4);
    proof {
        assert(rest.subrange(4, rest.len() as int) =~= s@.subrange(i + 4, n as int));
    }
    let p = i + 4 + w;
    let has_open_quote = p < n && ({
        let c = s.get_char(p);
        c == '\'' || c == '"'
    });
    proof {
        if p < n {
            assert(rest[p - i] == s@[p as int]);
        }
    }
    let q = if has_open_quote {
        p + 1
    } else {
        p
    };
    let cap = cap_len_from(s, q);
    proof {
        assert(rest.subrange(q - i, rest.len() as int) =~= s@.subrange(q as int, n as int));
    }
    if cap == 0 {
        return None;
    }
    let e = q + cap;
    let has_close_quote = e < n && ({
        let c = s.get_char(e);
        c == '\'' || c == '"'
    });
    proof {
        if e < n {
            assert(rest[e - i] == s@[e as int]);
        }
    }
    let e2 = if has_close_quote {
        e + 1
    } else {
        e
    };
    let w2 = ws_len_from(s, e2);
    proof {
        assert(rest.subrange(e2 - i, rest.len() as int) =~= s@.subrange(e2 as int, n as int));
    }
    let e3 = e2 + w2;
    if e3 < n && s.get_char(e3) == ')' {
        proof {
            assert(rest[e3 - i] == s@[e3 as int]);
            assert(rest.subrange(q - i, e - i) =~= s@.subrange(q as int, e as int));
        }
        let capture = String::from_str(s.substring_char(q, e));
        Some((capture, e3 + 1 - i))
    } else {
        proof {
            if e3 < n {
                assert(rest[e3 - i] == s@[e3 as int]);
            }
        }
        None
    }
}

/// Reads a quoted reference starting at position `i`.
fn quoted_ref_at(s: &str, i: usize) -> (r: Option<(String, usize)>)
    requires
        i <= s@.len() <= usize::MAX,
    ensures
        match r {
            Some(c) => spec_quoted_ref(s@.subrange(i as int, s@.len() as int)) == Some(
                (c.0@, c.1 as int),
            ) && 1 <= c.1 && i + c.1 <= s@.len(),
            None => spec_quoted_ref(s@.subrange(i as int, s@.len() as int)) is None,
        },
{
    let n = s.unicode_len();
    let ghost rest = s@.subrange(i as int, n as int);
    if i >= n {
        return None;
    }
    let c0 = s.get_char(i);
    proof {
        assert(rest[0] == s@[i as int]);
    }
    if c0 != '\'' && c0 != '"' {
        return None;
    }
    let cap = nq_len_from(s, i + 1);
    proof {
        assert(rest.subrange(1, rest.len() as int) =~= s@.subrange(i + 1, n as int));
    }
    if cap == 0 {
        return None;
    }
    let e = i + 1 + cap;
    if e < n && ({
        let c = s.get_char(e);
        c == '\'' || c == '"'
    }) {
        proof {
            assert(rest[e - i] == s@[e as int]);
            assert(rest.subrange(1, e - i) =~= s@.subrange(i + 1, e as int));
        }
        let capture = String::from_str(s.substring_char(i + 1, e));
        Some((capture, e + 1 - i))
    } else {
        proof {
            if e < n {
                assert(rest[e - i] == s@[e as int]);
            }
        }
        None
    }
}

/// Reads a `format(...)` annotation starting at position `i`.
fn format_ref_at(s: &str, i: usize) -> (r: Option<(String, usize)>)
    requires
        i <= s@.len() <= usize::MAX,
    ensures
        match r {
            Some(c) => spec_format_ref(s@.subrange(i as int, s@.len() as int)) == Some(
                (c.0@, c.1 as int),
            ) && 1 <= c.1 && i + c.1 <= s@.len(),
            None => spec_format_ref(s@.subrange(i as int, s@.len() as int)) is None,
        },
{
    let n = s.unicode_len();
    let ghost rest = s@.subrange(i as int, n as int);
    proof {
        reveal_strlit("format(");
    }
    if n - i < 7 {
        return None;
    }
    proof {
        assert(rest.subrange(0, 7) =~= s@.subrange(i as int, i + 7));
    }
    if !match_ci_at(s, i, "format(") {
        return None;
    }
    let w = ws_len_from(s, i + 7);
    proof {
        assert(rest.subrange(7, rest.len() as int) =~= s@.subrange(i + 7, n as int));
    }
    let p = i + 7 + w;
    let has_open_quote = p < n && ({
        let c = s.get_char(p);
        c == '\'' || c == '"'
    });
    proof {
        if p < n {
            assert(rest[p - i] == s@[p as int]);
        }
    }
    let q = if has_open_quote {
        p + 1
    } else {
        p
    };
    let cap = cap_len_from(s, q);
    proof {
        assert(rest.subrange(q - i, rest.len() as int) =~= s@.subrange(q as int, n as int));
    }
    if cap == 0 {
        return None;
    }
    let e = q + cap;
    let has_close_quote = e < n && ({
        let c = s.get_char(e);
        c == '\'' || c == '"'
    });
    proof {
        if e < n {
            assert(rest[e - i] == s@[e as int]);
        }
    }
    let e2 = if has_close_quote {
        e + 1
    } else {
        e
    };
    let w2 = ws_len_from(s, e2);
    proof {
        assert(rest.subrange(e2 - i, rest.len() as int) =~= s@.subrange(e2 as int, n as int));
    }
    let e3 = e2 + w2;
    if e3 < n && s.get_char(e3) == ')' {
        proof {
            assert(rest[e3 - i] == s@[e3 as int]);
            assert(rest.subrange(q - i, e - i) =~= s@.subrange(q as int, e as int));
        }
        let capture = String::from_str(s.substring_char(q, e));
        Some((capture, e3 + 1 - i))
    } else {
        proof {
            if e3 < n {
                assert(rest[e3 - i] == s@[e3 as int]);
            }
        }
        None
    }
}

/// Extracts the bodies of every font-face rule in stylesheet text.
pub fn font_face_blocks(css: &str) -> (r: Vec<String>)
    ensures
        spec_strs(r@) == spec_ff_blocks(css@),
{
    let n = css.unicode_len();
    let mut out: Vec<String> = Vec::new();
    let mut i: usize = 0;
    proof {
        assert(css@.subrange(0, n as int) =~= css@);
        assert(spec_strs(out@) + spec_ff_blocks(css@) =~= spec_ff_blocks(css@));
    }
    while i < n
        invariant
            i <= n,
            n == css@.len(),
            spec_strs(out@) + spec_ff_blocks(css@.subrange(i as int, n as int)) == spec_ff_blocks(
                css@,
            ),
        decreases n - i,
    {
        let ghost rest = css@.subrange(i as int, n as int);
        proof {
            assert(rest.subrange(1, rest.len() as int) =~= css@.subrange(i + 1, n as int));
        }
        proof {
            reveal_strlit("@font-face");
        }
        if n - i >= 10 && ({
            proof {
                assert(rest.subrange(0, 10) =~= css@.subrange(i as int, i + 10));
            }
            match_ci_at(css, i, "@font-face")
        }) {
            let w = ws_len_from(css, i + 10);
            proof {
                assert(rest.subrange(10, rest.len() as int) =~= css@.subrange(i + 10, n as int));
            }
            let p = i + 10 + w;
            if p < n && css.get_char(p) == '{' {
                proof {
                    assert(rest[p - i] == css@[p as int]);
                    assert(rest.subrange(p - i + 1, rest.len() as int) =~= css@.subrange(
                        p + 1,
                        n as int,
                    ));
                }
                let blen = until_len_from(css, p + 1, '}');
                if p + 1 + blen < n {
                    proof {
                        lemma_until_prefix(css@.subrange(p + 1, n as int), '}');
                        assert(css@.subrange(p + 1, n as int).subrange(0, blen as int) =~= css@
                            .subrange(p + 1, p + 1 + blen));
                    }
                    let body = String::from_str(css.substring_char(p + 1, p + 1 + blen));
                    let ghost pre = spec_strs(out@);
                    out.push(body);
                    proof {
                        assert(spec_strs(out@) =~= pre.push(
                            spec_until(css@.subrange(p + 1, n as int), '}'),
                        ));
                        assert(rest.subrange(p - i + 2 + blen, rest.len() as int) =~= css@
                            .subrange(p + 2 + blen, n as int));
                        assert(spec_ff_blocks(rest) == seq![
                            spec_until(css@.subrange(p + 1, n as int), '}'),
                        ] + spec_ff_blocks(css@.subrange(p + 2 + blen, n as int)));
                        assert(spec_strs(out@) + spec_ff_blocks(
                            css@.subrange(p + 2 + blen, n as int),
                        ) =~= (pre + seq![spec_until(css@.subrange(p + 1, n as int), '}')])
                            + spec_ff_blocks(css@.subrange(p + 2 + blen, n as int)));
                        assert(pre + (seq![spec_until(css@.subrange(p + 1, n as int), '}')]
                            + spec_ff_blocks(css@.subrange(p + 2 + blen, n as int))) =~= (pre
                            + seq![spec_until(css@.subrange(p + 1, n as int), '}')])
                            + spec_ff_blocks(css@.subrange(p + 2 + blen, n as int)));
                    }
                    i = p + 2 + blen;
                } else {
                    i = i + 1;
                }
            } else {
                proof {
                    if p < n {
                        assert(rest[p - i] == css@[p as int]);
                    }
                }
                i = i + 1;
            }
        } else {
            proof {
                if n - i < 10 {
                    assert(rest.len() < 10);
                    assert(spec_ff_blocks(rest) =~= Seq::<Seq<char>>::empty());
                    assert(spec_ff_blocks(css@.subrange(i + 1, n as int)) =~= Seq::<
                        Seq<char>,
                    >::empty());
                }
            }
            i = i + 1;
        }
    }
    proof {
        assert(css@.subrange(n as int, n as int).len() < 10);
        assert(spec_ff_blocks(css@.subrange(n as int, n as int)) =~= Seq::<Seq<char>>::empty());
        assert(spec_strs(out@) + Seq::<Seq<char>>::empty() =~= spec_strs(out@));
    }
    out
}

/// Extracts the raw reference of every import directive in stylesheet text.
pub fn import_refs(css: &str) -> (r: Vec<String>)
    ensures
        spec_strs(r@) == spec_imports(css@),
{
    let n = css.unicode_len();
    let mut out: Vec<String> = Vec::new();
    let mut i: usize = 0;
    proof {
        assert(css@.subrange(0, n as int) =~= css@);
        assert(spec_strs(out@) + spec_imports(css@) =~= spec_imports(css@));
    }
    while i < n
        invariant
            i <= n,
            n == css@.len(),
            spec_strs(out@) + spec_imports(css@.subrange(i as int, n as int)) == spec_imports(
                css@,
            ),
        decreases n - i,
    {
        let ghost rest = css@.subrange(i as int, n as int);
        proof {
            assert(rest.subrange(1, rest.len() as int) =~= css@.subrange(i + 1, n as int));
        }
        proof {
            reveal_strlit("@import");
        }
        if n - i >= 7 && ({
            proof {
                assert(rest.subrange(0, 7) =~= css@.subrange(i as int, i + 7));
            }
            match_ci_at(css, i, "@import")
        }) {
            let w = ws_len_from(css, i + 7);
            proof {
                assert(rest.subrange(7, rest.len() as int) =~= css@.subrange(i + 7, n as int));
            }
            if w == 0 {
                i = i + 1;
            } else {
                let p = i + 7 + w;
                proof {
                    assert(rest.subrange(p - i, rest.len() as int) =~= css@.subrange(
                        p as int,
                        n as int,
                    ));
                }
                let url_form = url_ref_at(css, p);
                let found: Option<(String, usize)> = match url_form {
                    Some(u) => Some(u),
                    None => quoted_ref_at(css, p),
                };
                match found {
                    Some((capture, consumed)) => {
                        let after = p + consumed;
                        proof {
                            assert(rest.subrange(after - i, rest.len() as int) =~= css@.subrange(
                                after as int,
                                n as int,
                            ));
                        }
                        let t = until_len_from(css, after, ';');
                        if after + t < n {
                            let ghost pre = spec_strs(out@);
                            out.push(capture);
                            proof {
                                assert(rest.subrange(after + t + 1 - i, rest.len() as int) =~= css@
                                    .subrange(after + t + 1, n as int));
                                assert(spec_strs(out@) =~= pre.push(
                                    spec_import_ref(
                                        css@.subrange(p as int, n as int),
                                    )->Some_0.0,
                                ));
                                assert(spec_imports(rest) == seq![
                                    spec_import_ref(css@.subrange(p as int, n as int))->Some_0.0,
                                ] + spec_imports(css@.subrange(after + t + 1, n as int)));
                                assert(spec_strs(out@) + spec_imports(
                                    css@.subrange(after + t + 1, n as int),
                                ) =~= pre + (seq![
                                    spec_import_ref(css@.subrange(p as int, n as int))->Some_0.0,
                                ] + spec_imports(css@.subrange(after + t + 1, n as int))));
                            }
                            i = after + t + 1;
                        } else {
                            i = i + 1;
                        }
                    },
                    None => {
                        i = i + 1;
                    },
                }
            }
        } else {
            proof {
                if n - i < 7 {
                    assert(rest.len() < 7);
                    assert(spec_imports(rest) =~= Seq::<Seq<char>>::empty());
                    assert(spec_imports(css@.subrange(i + 1, n as int)) =~= Seq::<
                        Seq<char>,
                    >::empty());
                }
            }
            i = i + 1;
        }
    }
    proof {
        assert(css@.subrange(n as int, n as int).len() < 7);
        assert(spec_imports(css@.subrange(n as int, n as int)) =~= Seq::<Seq<char>>::empty());
        assert(spec_strs(out@) + Seq::<Seq<char>>::empty() =~= spec_strs(out@));
    }
    out
}

/// The views of a source candidate list.
pub open spec fn spec_cand_views(v: Seq<(String, Option<String>)>) -> Seq<
    (Seq<char>, Option<Seq<char>>),
> {
    v.map_values(|p: (String, Option<String>)| (p.0@, crate::text::spec_opt_str(p.1)))
}

/// Extracts each `url()` source of a `src` value with its optional
/// `format()` annotation.
pub fn src_candidates(src: &str) -> (r: Vec<(String, Option<String>)>)
    ensures
        spec_cand_views(r@) == spec_src_candidates(src@),
{
    let n = src.unicode_len();
    let mut out: Vec<(String, Option<String>)> = Vec::new();
    let mut i: usize = 0;
    proof {
        assert(src@.subrange(0, n as int) =~= src@);
        assert(spec_cand_views(out@) + spec_src_candidates(src@) =~= spec_src_candidates(src@));
    }
    while i < n
        invariant
            i <= n,
            n == src@.len(),
            spec_cand_views(out@) + spec_src_candidates(src@.subrange(i as int, n as int))
                == spec_src_candidates(src@),
        decreases n - i,
    {
        let ghost rest = src@.subrange(i as int, n as int);
        proof {
            assert(rest.subrange(1, rest.len() as int) =~= src@.subrange(i + 1, n as int));
        }
        if n - i < 4 {
            proof {
                assert(rest.len() < 4);
                assert(spec_src_candidates(rest) =~= Seq::<(Seq<char>, Option<Seq<char>>)>::empty());
                assert(spec_src_candidates(src@.subrange(i + 1, n as int)) =~= Seq::<
                    (Seq<char>, Option<Seq<char>>),
                >::empty());
            }
            i = i + 1;
        } else {
            match url_ref_at(src, i) {
                Some((capture, consumed)) => {
                    let after = i + consumed;
                    let w = ws_len_from(src, after);
                    proof {
                        assert(rest.subrange(consumed as int, rest.len() as int) =~= src@.subrange(
                            after as int,
                            n as int,
                        ));
                    }
                    let fstart = after + w;
                    proof {
                        assert(rest.subrange(consumed + w, rest.len() as int) =~= src@.subrange(
                            fstart as int,
                            n as int,
                        ));
                    }
                    let fmt = format_ref_at(src, fstart);
                    let ghost pre = spec_cand_views(out@);
                    match fmt {
                        Some((ftext, fconsumed)) => {
                            let ghost item = (capture@, Some(ftext@));
                            out.push((capture, Some(ftext)));
                            proof {
                                assert(spec_cand_views(out@) =~= pre.push(item));
                                assert(rest.subrange(
                                    consumed + w + fconsumed,
                                    rest.len() as int,
                                ) =~= src@.subrange(fstart + fconsumed, n as int));
                                assert(spec_src_candidates(rest) == seq![item]
                                    + spec_src_candidates(
                                    src@.subrange(fstart + fconsumed, n as int),
                                ));
                                assert(spec_cand_views(out@) + spec_src_candidates(
                                    src@.subrange(fstart + fconsumed, n as int),
                                ) =~= pre + (seq![item] + spec_src_candidates(
                                    src@.subrange(fstart + fconsumed, n as int),
                                )));
                            }
                            i = fstart + fconsumed;
                        },
                        None => {
                            let ghost item = (capture@, Option::<Seq<char>>::None);
                            out.push((capture, None));
                            proof {
                                assert(spec_cand_views(out@) =~= pre.push(item));
                                assert(spec_src_candidates(rest) == seq![item]
                                    + spec_src_candidates(src@.subrange(fstart as int, n as int)));
                                assert(spec_cand_views(out@) + spec_src_candidates(
                                    src@.subrange(fstart as int, n as int),
                                ) =~= pre + (seq![item] + spec_src_candidates(
                                    src@.subrange(fstart as int, n as int),
                                )));
                            }
                            i = fstart;
                        },
                    }
                },
                None => {
                    i = i + 1;
                },
            }
        }
    }
    proof {
        assert(src@.subrange(n as int, n as int).len() < 4);
        assert(spec_src_candidates(src@.subrange(n as int, n as int)) =~= Seq::<
            (Seq<char>, Option<Seq<char>>),
        >::empty());
        assert(spec_cand_views(out@) + Seq::<(Seq<char>, Option<Seq<char>>)>::empty() =~= spec_cand_views(
            out@,
        ));
    }
    out
}

/// The `url()` sources of a `src` value, each with its optional `format()`
/// annotation, in order of appearance.
pub open spec fn spec_src_candidates(s: Seq<char>) -> Seq<(Seq<char>, Option<Seq<char>>)>
    decreases s.len(),
{
    if s.len() < 4 {
        Seq::<(Seq<char>, Option<Seq<char>>)>::empty()
    } else {
        match spec_url_ref(s) {
            Some(r) => {
                let w = {
                    proof {
                        lemma_url_ref_bounds(s);
                        lemma_ws_len(s.subrange(r.1, s.len() as int));
                    }
                    spec_ws_len(s.subrange(r.1, s.len() as int))
                };
                match spec_format_ref(s.subrange(r.1 + w, s.len() as int)) {
                    Some(f) => {
                        proof {
                            lemma_format_ref_bounds(s.subrange(r.1 + w, s.len() as int));
                        }
                        seq![(r.0, Some(f.0))] + spec_src_candidates(
                            s.subrange(r.1 + w + f.1, s.len() as int),
                        )
                    },
                    None => seq![(r.0, Option::<Seq<char>>::None)] + spec_src_candidates(
                        s.subrange(r.1 + w, s.len() as int),
                    ),
                }
            },
            None => spec_src_candidates(s.subrange(1, s.len() as int)),
        }
    }
}

} // verus!
