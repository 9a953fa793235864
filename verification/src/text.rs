//! Character and string helpers shared by the whole crate: ASCII case
//! folding, trimming, substring search, lexicographic order, and decimal
//! conversions, each stated against a spec-level definition over `Seq<char>`.
use vstd::prelude::*;

verus! {

/// ASCII lowercasing of one character.
pub open spec fn spec_lower(c: char) -> char {
    if 'A' <= c && c <= 'Z' {
        ((c as u8) + 32) as char
    } else {
        c
    }
}

/// ASCII uppercasing of one character.
pub open spec fn spec_upper(c: char) -> char {
    if 'a' <= c && c <= 'z' {
        ((c as u8) - 32) as char
    } else {
        c
    }
}

/// ASCII lowercasing of a whole string.
pub open spec fn spec_lower_seq(s: Seq<char>) -> Seq<char> {
    s.map_values(|c: char| spec_lower(c))
}

/// ASCII uppercasing of a whole string.
pub open spec fn spec_upper_seq(s: Seq<char>) -> Seq<char> {
    s.map_values(|c: char| spec_upper(c))
}

pub open spec fn spec_is_digit(c: char) -> bool {
    '0' <= c && c <= '9'
}

pub open spec fn spec_is_hex_digit(c: char) -> bool {
    spec_is_digit(c) || ('a' <= c && c <= 'f') || ('A' <= c && c <= 'F')
}

pub open spec fn spec_is_alnum(c: char) -> bool {
    spec_is_digit(c) || ('a' <= c && c <= 'z') || ('A' <= c && c <= 'Z')
}

pub open spec fn spec_is_upper(c: char) -> bool {
    'A' <= c && c <= 'Z'
}

pub open spec fn spec_is_lower_alpha(c: char) -> bool {
    'a' <= c && c <= 'z'
}

/// The whitespace characters that `str::trim` removes.
pub open spec fn spec_is_whitespace(c: char) -> bool {
    c == '\u{9}' || c == '\u{a}' || c == '\u{b}' || c == '\u{c}' || c == '\u{d}' || c == ' '
        || c == '\u{85}' || c == '\u{a0}' || c == '\u{1680}' || ('\u{2000}' <= c
        && c <= '\u{200a}') || c == '\u{2028}' || c == '\u{2029}' || c == '\u{202f}'
        || c == '\u{205f}' || c == '\u{3000}'
}

/// Whitespace stripped from both ends.
pub open spec fn spec_trim(s: Seq<char>) -> Seq<char>
    decreases s.len(),
{
    if s.len() == 0 {
        s
    } else if spec_is_whitespace(s[0]) {
        spec_trim(s.subrange(1, s.len() as int))
    } else if spec_is_whitespace(s[s.len() - 1]) {
        spec_trim(s.subrange(0, s.len() - 1))
    } else {
        s
    }
}

pub open spec fn spec_starts_with(s: Seq<char>, p: Seq<char>) -> bool {
    p.len() <= s.len() && s.subrange(0, p.len() as int) == p
}

pub open spec fn spec_ends_with(s: Seq<char>, p: Seq<char>) -> bool {
    p.len() <= s.len() && s.subrange(s.len() - p.len(), s.len() as int) == p
}

/// `p` occurs somewhere in `s`.
pub open spec fn spec_contains(s: Seq<char>, p: Seq<char>) -> bool {
    exists|i: int|
        0 <= i && i + p.len() <= s.len() && #[trigger] s.subrange(i, i + p.len()) == p
}

/// Lexicographic order on character sequences; agrees with `str::cmp` because
/// UTF-8 byte order preserves code-point order.
pub open spec fn spec_lex_le(a: Seq<char>, b: Seq<char>) -> bool
    decreases a.len(),
{
    if a.len() == 0 {
        true
    } else if b.len() == 0 {
        false
    } else if a[0] != b[0] {
        a[0] < b[0]
    } else {
        spec_lex_le(a.subrange(1, a.len() as int), b.subrange(1, b.len() as int))
    }
}

/// The decimal digit for a value below ten.
pub open spec fn spec_digit_char(d: nat) -> char {
    (48 + d) as char
}

/// The decimal rendering of a natural number, as `usize` values print.
pub open spec fn spec_dec_str(n: nat) -> Seq<char>
    decreases n,
{
    if n < 10 {
        seq![spec_digit_char(n)]
    } else {
        spec_dec_str(n / 10).push(spec_digit_char(n % 10))
    }
}

/// A decimal rendering is never empty, and two digits or more from ten up.
pub proof fn lemma_dec_str_len(n: nat)
    ensures
        spec_dec_str(n).len() >= 1,
        n >= 10 ==> spec_dec_str(n).len() >= 2,
    decreases n,
{
    if n >= 10 {
        lemma_dec_str_len(n / 10);
    }
}

/// Distinct numbers render to distinct decimal texts.
pub proof fn lemma_dec_str_injective(a: nat, b: nat)
    requires
        spec_dec_str(a) == spec_dec_str(b),
    ensures
        a == b,
    decreases a,
{
    lemma_dec_str_len(a);
    lemma_dec_str_len(b);
    if a < 10 && b < 10 {
        assert(spec_dec_str(a)[0] == spec_digit_char(a));
        assert(spec_dec_str(b)[0] == spec_digit_char(b));
        assert(((48 + a) as char) as int == 48 + a);
        assert(((48 + b) as char) as int == 48 + b);
    } else if a < 10 {
        assert(spec_dec_str(b).len() >= 2);
    } else if b < 10 {
        assert(spec_dec_str(a).len() >= 2);
    } else {
        assert(spec_dec_str(a).last() == spec_digit_char((a % 10) as nat));
        assert(spec_dec_str(b).last() == spec_digit_char((b % 10) as nat));
        assert(((48 + a % 10) as char) as int == 48 + a % 10);
        assert(((48 + b % 10) as char) as int == 48 + b % 10);
        assert(a % 10 == b % 10);
        assert(spec_dec_str(a).drop_last() =~= spec_dec_str((a / 10) as nat));
        assert(spec_dec_str(b).drop_last() =~= spec_dec_str((b / 10) as nat));
        lemma_dec_str_injective((a / 10) as nat, (b / 10) as nat);
    }
}

/// Whether a string list holds `x`.
pub(crate) fn contains_string(v: &Vec<String>, x: &String) -> (r: bool)
    ensures
        r == spec_strs(v@).contains(x@),
{
    let mut i: usize = 0;
    while i < v.len()
        invariant
            i <= v@.len(),
            forall|k: int| 0 <= k < i ==> #[trigger] spec_strs(v@)[k] != x@,
        decreases v@.len() - i,
    {
        if str_eq(v[i].as_str(), x.as_str()) {
            proof {
                assert(spec_strs(v@)[i as int] == x@);
            }
            return true;
        }
        i = i + 1;
    }
    proof {
        if spec_strs(v@).contains(x@) {
            let k = choose|k: int| 0 <= k < spec_strs(v@).len() && spec_strs(v@)[k] == x@;
            assert(false);
        }
    }
    false
}

/// The numeric value of a digit string.
pub open spec fn spec_digits_val(s: Seq<char>) -> nat
    decreases s.len(),
{
    if s.len() == 0 {
        0
    } else {
        (spec_digits_val(s.drop_last()) * 10 + (s.last() as int - 48)) as nat
    }
}

pub open spec fn spec_all_digits(s: Seq<char>) -> bool {
    forall|i: int| 0 <= i < s.len() ==> spec_is_digit(#[trigger] s[i])
}

/// What `str::parse::<u16>` accepts and returns: an optional leading `+`,
/// then one or more decimal digits whose value fits in sixteen bits.
pub open spec fn spec_parse_u16(s: Seq<char>) -> Option<u16> {
    let t = if s.len() > 0 && s[0] == '+' {
        s.subrange(1, s.len() as int)
    } else {
        s
    };
    if t.len() > 0 && spec_all_digits(t) && spec_digits_val(t) <= 0xffff {
        Some(spec_digits_val(t) as u16)
    } else {
        None
    }
}

/// What `str::parse::<i32>` accepts and returns: an optional sign, then one
/// or more decimal digits whose signed value fits in thirty-two bits.
pub open spec fn spec_parse_i32(s: Seq<char>) -> Option<i32> {
    let neg = s.len() > 0 && s[0] == '-';
    let t = if s.len() > 0 && (s[0] == '+' || s[0] == '-') {
        s.subrange(1, s.len() as int)
    } else {
        s
    };
    if t.len() > 0 && spec_all_digits(t) {
        let v = spec_digits_val(t);
        if neg && v <= 0x8000_0000 {
            Some((-(v as int)) as i32)
        } else if !neg && v <= 0x7fff_ffff {
            Some(v as i32)
        } else {
            None
        }
    } else {
        None
    }
}

/// The views of a string list.
pub open spec fn spec_strs(s: Seq<String>) -> Seq<Seq<char>> {
    s.map_values(|x: String| x@)
}

/// The view of an optional owned string.
pub open spec fn spec_opt_str(o: Option<String>) -> Option<Seq<char>> {
    match o {
        Some(s) => Some(s@),
        None => None,
    }
}

/// The view of an optional borrowed string.
pub open spec fn spec_opt_strref(o: Option<&str>) -> Option<Seq<char>> {
    match o {
        Some(s) => Some(s@),
        None => None,
    }
}

pub fn lower_char(c: char) -> (r: char)
    ensures
        r == spec_lower(c),
{
    if 'A' <= c && c <= 'Z' {
        ((c as u8) + 32) as char
    } else {
        c
    }
}

pub fn upper_char(c: char) -> (r: char)
    ensures
        r == spec_upper(c),
{
    if 'a' <= c && c <= 'z' {
        ((c as u8) - 32) as char
    } else {
        c
    }
}

pub fn is_digit_char(c: char) -> (r: bool)
    ensures
        r == spec_is_digit(c),
{
    '0' <= c && c <= '9'
}

pub fn is_hex_digit_char(c: char) -> (r: bool)
    ensures
        r == spec_is_hex_digit(c),
{
    is_digit_char(c) || ('a' <= c && c <= 'f') || ('A' <= c && c <= 'F')
}

pub fn is_alnum_char(c: char) -> (r: bool)
    ensures
        r == spec_is_alnum(c),
{
    is_digit_char(c) || ('a' <= c && c <= 'z') || ('A' <= c && c <= 'Z')
}

pub fn is_whitespace_char(c: char) -> (r: bool)
    ensures
        r == spec_is_whitespace(c),
{
    c == '\u{9}' || c == '\u{a}' || c == '\u{b}' || c == '\u{c}' || c == '\u{d}' || c == ' '
        || c == '\u{85}' || c == '\u{a0}' || c == '\u{1680}' || ('\u{2000}' <= c
        && c <= '\u{200a}') || c == '\u{2028}' || c == '\u{2029}' || c == '\u{202f}'
        || c == '\u{205f}' || c == '\u{3000}'
}

/// Relies on `String::push`: appends one character to the string.
#[verifier::external_body]
pub(crate) fn push_char(s: &mut String, c: char)
    ensures
        final(s)@ == old(s)@.push(c),
{
    s.push(c);
}

/// ASCII-lowercases a whole string.
pub fn to_lower(s: &str) -> (r: String)
    ensures
        r@ == spec_lower_seq(s@),
{
    let n = s.unicode_len();
    let mut out = String::new();
    let mut i: usize = 0;
    while i < n
        invariant
            i <= n,
            n == s@.len(),
            out@ == spec_lower_seq(s@.subrange(0, i as int)),
        decreases n - i,
    {
        let c = lower_char(s.get_char(i));
        push_char(&mut out, c);
        proof {
            assert(s@.subrange(0, i + 1) =~= s@.subrange(0, i as int).push(s@[i as int]));
            assert(spec_lower_seq(s@.subrange(0, i + 1)) =~= spec_lower_seq(
                s@.subrange(0, i as int),
            ).push(spec_lower(s@[i as int])));
        }
        i = i + 1;
    }
    proof {
        assert(s@.subrange(0, n as int) =~= s@);
    }
    out
}

/// ASCII-uppercases a whole string.
pub fn to_upper(s: &str) -> (r: String)
    ensures
        r@ == spec_upper_seq(s@),
{
    let n = s.unicode_len();
    let mut out = String::new();
    let mut i: usize = 0;
    while i < n
        invariant
            i <= n,
            n == s@.len(),
            out@ == spec_upper_seq(s@.subrange(0, i as int)),
        decreases n - i,
    {
        let c = upper_char(s.get_char(i));
        push_char(&mut out, c);
        proof {
            assert(s@.subrange(0, i + 1) =~= s@.subrange(0, i as int).push(s@[i as int]));
            assert(spec_upper_seq(s@.subrange(0, i + 1)) =~= spec_upper_seq(
                s@.subrange(0, i as int),
            ).push(spec_upper(s@[i as int])));
        }
        i = i + 1;
    }
    proof {
        assert(s@.subrange(0, n as int) =~= s@);
    }
    out
}

/// Removes leading and trailing whitespace, as `str::trim` does.
pub fn trim_str(s: &str) -> (r: String)
    ensures
        r@ == spec_trim(s@),
{
    let n = s.unicode_len();
    let mut lo: usize = 0;
    let mut hi: usize = n;
    proof {
        assert(s@.subrange(0, n as int) =~= s@);
    }
    while lo < hi && is_whitespace_char(s.get_char(lo))
        invariant
            lo <= hi <= n,
            n == s@.len(),
            spec_trim(s@) == spec_trim(s@.subrange(lo as int, hi as int)),
            forall|i: int| 0 <= i < lo ==> spec_is_whitespace(s@[i]),
        decreases hi - lo,
    {
        proof {
            assert(s@.subrange(lo as int, hi as int).subrange(1, (hi - lo) as int) == s@.subrange(
                lo as int + 1,
                hi as int,
            ));
        }
        lo = lo + 1;
    }
    while lo < hi && is_whitespace_char(s.get_char(hi - 1))
        invariant
            lo <= hi <= n,
            n == s@.len(),
            spec_trim(s@) == spec_trim(s@.subrange(lo as int, hi as int)),
            lo < hi ==> !spec_is_whitespace(s@[lo as int]),
        decreases hi - lo,
    {
        proof {
            assert(s@.subrange(lo as int, hi as int).subrange(0, (hi - lo - 1) as int) == s@
                .subrange(lo as int, hi as int - 1));
        }
        hi = hi - 1;
    }
    let r = s.substring_char(lo, hi);
    proof {
        assert(spec_trim(s@.subrange(lo as int, hi as int)) == s@.subrange(lo as int, hi as int));
    }
    String::from_str(r)
}

/// Whether two strings hold the same characters.
pub fn str_eq(a: &str, b: &str) -> (r: bool)
    ensures
        r == (a@ == b@),
{
    let an = a.unicode_len();
    let bn = b.unicode_len();
    if an != bn {
        proof {
            assert(a@ =~= b@ ==> a@.len() == b@.len());
        }
        return false;
    }
    let mut i: usize = 0;
    while i < an
        invariant
            i <= an,
            an == a@.len() && an == b@.len(),
            forall|j: int| 0 <= j < i ==> a@[j] == b@[j],
        decreases an - i,
    {
        if a.get_char(i) != b.get_char(i) {
            return false;
        }
        i = i + 1;
    }
    proof {
        assert(a@ =~= b@);
    }
    true
}

/// Whether `s` starts with the prefix `p`.
pub fn starts_with(s: &str, p: &str) -> (r: bool)
    ensures
        r == spec_starts_with(s@, p@),
{
    let sn = s.unicode_len();
    let pn = p.unicode_len();
    if pn > sn {
        return false;
    }
    let mut i: usize = 0;
    while i < pn
        invariant
            i <= pn <= sn,
            sn == s@.len(),
            pn == p@.len(),
            forall|j: int| 0 <= j < i ==> s@[j] == p@[j],
        decreases pn - i,
    {
        if s.get_char(i) != p.get_char(i) {
            assert(s@.subrange(0, pn as int)[i as int] != p@[i as int]);
            return false;
        }
        i = i + 1;
    }
    proof {
        assert(s@.subrange(0, pn as int) =~= p@);
    }
    true
}

/// Whether `s` ends with the suffix `p`.
pub fn ends_with(s: &str, p: &str) -> (r: bool)
    ensures
        r == spec_ends_with(s@, p@),
{
    let sn = s.unicode_len();
    let pn = p.unicode_len();
    if pn > sn {
        return false;
    }
    let base = sn - pn;
    let mut i: usize = 0;
    while i < pn
        invariant
            i <= pn <= sn,
            base == sn - pn,
            sn == s@.len(),
            pn == p@.len(),
            forall|j: int| 0 <= j < i ==> s@[base + j] == p@[j],
        decreases pn - i,
    {
        if s.get_char(base + i) != p.get_char(i) {
            assert(s@.subrange(base as int, sn as int)[i as int] != p@[i as int]);
            return false;
        }
        i = i + 1;
    }
    proof {
        assert(s@.subrange(base as int, sn as int) =~= p@);
    }
    true
}

/// Whether `p` occurs anywhere in `s`.
pub fn contains_sub(s: &str, p: &str) -> (r: bool)
    ensures
        r == spec_contains(s@, p@),
{
    let sn = s.unicode_len();
    let pn = p.unicode_len();
    if pn > sn {
        return false;
    }
    if pn == 0 {
        proof {
            assert(s@.subrange(0, 0 + p@.len() as int) =~= p@);
        }
        return true;
    }
    let limit = sn - pn;
    let mut i: usize = 0;
    while i <= limit
        invariant
            i <= limit + 1,
            limit == sn - pn,
            0 < pn <= sn,
            sn == s@.len(),
            pn == p@.len(),
            s@.len() <= usize::MAX,
            forall|k: int| 0 <= k < i ==> #[trigger] s@.subrange(k, k + pn) != p@,
        decreases limit + 1 - i,
    {
        if match_at(s, p, i) {
            return true;
        }
        i = i + 1;
    }
    return false;
}

/// Whether `p` occurs in `s` at position `i`.
pub fn match_at(s: &str, p: &str, i: usize) -> (r: bool)
    requires
        i + p@.len() <= s@.len() <= usize::MAX,
    ensures
        r == (s@.subrange(i as int, i + p@.len()) == p@),
{
    let pn = p.unicode_len();
    let mut j: usize = 0;
    while j < pn
        invariant
            j <= pn,
            i + pn <= s@.len() <= usize::MAX,
            pn == p@.len(),
            forall|k: int| 0 <= k < j ==> s@[i + k] == p@[k],
        decreases pn - j,
    {
        if s.get_char(i + j) != p.get_char(j) {
            assert(s@.subrange(i as int, i + pn)[j as int] != p@[j as int]);
            return false;
        }
        j = j + 1;
    }
    proof {
        assert(s@.subrange(i as int, i + pn) =~= p@);
    }
    true
}

/// Whether `a` sorts at or before `b` in lexicographic character order.
pub fn lex_le(a: &str, b: &str) -> (r: bool)
    ensures
        r == spec_lex_le(a@, b@),
{
    let an = a.unicode_len();
    let bn = b.unicode_len();
    let mut i: usize = 0;
    proof {
        assert(a@.subrange(0, an as int) =~= a@);
        assert(b@.subrange(0, bn as int) =~= b@);
    }
    while i < an && i < bn
        invariant
            i <= an && i <= bn,
            an == a@.len() && bn == b@.len(),
            spec_lex_le(a@, b@) == spec_lex_le(
                a@.subrange(i as int, an as int),
                b@.subrange(i as int, bn as int),
            ),
            forall|j: int| 0 <= j < i ==> a@[j] == b@[j],
        decreases an - i,
    {
        let ca = a.get_char(i);
        let cb = b.get_char(i);
        if ca != cb {
            assert(a@.subrange(i as int, an as int)[0] == ca);
            assert(b@.subrange(i as int, bn as int)[0] == cb);
            return ca < cb;
        }
        proof {
            let sa = a@.subrange(i as int, an as int);
            let sb = b@.subrange(i as int, bn as int);
            assert(sa[0] == sb[0]);
            assert(sa.subrange(1, sa.len() as int) =~= a@.subrange(i + 1, an as int));
            assert(sb.subrange(1, sb.len() as int) =~= b@.subrange(i + 1, bn as int));
        }
        i = i + 1;
    }
    proof {
        if i == an {
            assert(a@.subrange(i as int, an as int).len() == 0);
        } else {
            assert(b@.subrange(i as int, bn as int).len() == 0);
            assert(a@.subrange(i as int, an as int).len() > 0);
        }
    }
    an - i == 0
}

/// Texts joined by a separator text.
pub open spec fn spec_join_sep(parts: Seq<Seq<char>>, sep: Seq<char>) -> Seq<char>
    decreases parts.len(),
{
    if parts.len() == 0 {
        Seq::<char>::empty()
    } else if parts.len() == 1 {
        parts[0]
    } else {
        parts[0] + sep + spec_join_sep(parts.subrange(1, parts.len() as int), sep)
    }
}

/// `spec_join_sep` over an extended list: the joined head, the separator,
/// and the new text.
pub proof fn lemma_join_sep_push(parts: Seq<Seq<char>>, x: Seq<char>, sep: Seq<char>)
    ensures
        spec_join_sep(parts.push(x), sep) == if parts.len() == 0 {
            x
        } else {
            spec_join_sep(parts, sep) + sep + x
        },
    decreases parts.len(),
{
    let e = parts.push(x);
    if parts.len() == 0 {
        assert(e.len() == 1);
        assert(e[0] == x);
    } else {
        assert(e[0] == parts[0]);
        lemma_join_sep_push(parts.subrange(1, parts.len() as int), x, sep);
        assert(e.subrange(1, e.len() as int) =~= parts.subrange(1, parts.len() as int).push(x));
        if parts.len() == 1 {
            assert(spec_join_sep(parts, sep) == parts[0]);
            assert(spec_join_sep(e, sep) =~= parts[0] + sep + x);
        } else {
            assert(spec_join_sep(e, sep) =~= spec_join_sep(parts, sep) + sep + x);
        }
    }
}

/// Joins texts with a separator.
pub fn join_all(parts: &Vec<String>, sep: &str) -> (r: String)
    ensures
        r@ == spec_join_sep(spec_strs(parts@), sep@),
{
    let mut out = String::new();
    let mut i: usize = 0;
    let n = parts.len();
    while i < n
        invariant
            i <= n,
            n == parts@.len(),
            out@ == spec_join_sep(spec_strs(parts@.subrange(0, i as int)), sep@),
        decreases n - i,
    {
        if i > 0 {
            out.append(sep);
        }
        out.append(parts[i].as_str());
        proof {
            let pre = spec_strs(parts@.subrange(0, i as int));
            assert(spec_strs(parts@.subrange(0, i + 1)) =~= pre.push(parts@[i as int]@));
            lemma_join_sep_push(pre, parts@[i as int]@, sep@);
            if i == 0 {
                assert(out@ =~= parts@[0]@);
            } else {
                assert(out@ =~= spec_join_sep(pre, sep@) + sep@ + parts@[i as int]@);
            }
        }
        i = i + 1;
    }
    proof {
        assert(parts@.subrange(0, n as int) =~= parts@);
    }
    out
}

/// Text cut to a display width: kept whole when it fits, else its head with
/// a three-dot ellipsis, or nothing but dots when even that cannot fit.
pub open spec fn spec_truncate_text(s: Seq<char>, max_width: int) -> Seq<char> {
    if s.len() <= max_width {
        s
    } else if max_width <= 3 {
        Seq::new(max_width as nat, |i: int| '.')
    } else {
        s.subrange(0, max_width - 3) + "..."@
    }
}

/// Cuts text to a display width with an ellipsis.
pub fn truncate_for_cli(input: &str, max_width: usize) -> (r: String)
    ensures
        r@ == spec_truncate_text(input@, max_width as int),
{
    let n = input.unicode_len();
    if n <= max_width {
        return String::from_str(input);
    }
    if max_width <= 3 {
        let mut dots = String::new();
        let mut i: usize = 0;
        while i < max_width
            invariant
                i <= max_width,
                dots@.len() == i,
                forall|k: int| 0 <= k < i ==> dots@[k] == '.',
            decreases max_width - i,
        {
            push_char(&mut dots, '.');
            i = i + 1;
        }
        proof {
            assert(dots@ =~= Seq::new(max_width as nat, |i: int| '.'));
        }
        return dots;
    }
    let mut out = String::from_str(input.substring_char(0, max_width - 3));
    out.append("...");
    out
}

/// The character `c` stripped from both ends.
pub open spec fn spec_trim_match(s: Seq<char>, c: char) -> Seq<char>
    decreases s.len(),
{
    if s.len() == 0 {
        s
    } else if s[0] == c {
        spec_trim_match(s.subrange(1, s.len() as int), c)
    } else if s[s.len() - 1] == c {
        spec_trim_match(s.subrange(0, s.len() - 1), c)
    } else {
        s
    }
}

/// Removes leading and trailing copies of one character, as
/// `str::trim_matches` does.
pub fn trim_match_char(s: &str, c: char) -> (r: String)
    ensures
        r@ == spec_trim_match(s@, c),
{
    let n = s.unicode_len();
    let mut lo: usize = 0;
    let mut hi: usize = n;
    proof {
        assert(s@.subrange(0, n as int) =~= s@);
    }
    while lo < hi && s.get_char(lo) == c
        invariant
            lo <= hi <= n,
            n == s@.len(),
            spec_trim_match(s@, c) == spec_trim_match(s@.subrange(lo as int, hi as int), c),
            forall|k: int| 0 <= k < lo ==> s@[k] == c,
        decreases hi - lo,
    {
        proof {
            assert(s@.subrange(lo as int, hi as int).subrange(1, (hi - lo) as int) == s@.subrange(
                lo as int + 1,
                hi as int,
            ));
        }
        lo = lo + 1;
    }
    while lo < hi && s.get_char(hi - 1) == c
        invariant
            lo <= hi <= n,
            n == s@.len(),
            spec_trim_match(s@, c) == spec_trim_match(s@.subrange(lo as int, hi as int), c),
            lo < hi ==> s@[lo as int] != c,
        decreases hi - lo,
    {
        proof {
            assert(s@.subrange(lo as int, hi as int).subrange(0, (hi - lo - 1) as int) == s@
                .subrange(lo as int, hi as int - 1));
        }
        hi = hi - 1;
    }
    let r = s.substring_char(lo, hi);
    proof {
        assert(spec_trim_match(s@.subrange(lo as int, hi as int), c) == s@.subrange(
            lo as int,
            hi as int,
        ));
    }
    String::from_str(r)
}

/// The text of `s` before the first `c`; all of `s` when `c` is absent.
pub open spec fn spec_until(s: Seq<char>, c: char) -> Seq<char>
    decreases s.len(),
{
    if s.len() == 0 || s[0] == c {
        Seq::<char>::empty()
    } else {
        seq![s[0]] + spec_until(s.subrange(1, s.len() as int), c)
    }
}

/// The prefix before a character is never longer than the text.
pub proof fn lemma_until_len(s: Seq<char>, c: char)
    ensures
        spec_until(s, c).len() <= s.len(),
    decreases s.len(),
{
    if s.len() > 0 && s[0] != c {
        lemma_until_len(s.subrange(1, s.len() as int), c);
    }
}

/// The text before the first occurrence of `c`.
pub fn until_char(s: &str, c: char) -> (r: String)
    ensures
        r@ == spec_until(s@, c),
{
    let n = s.unicode_len();
    let mut i: usize = 0;
    proof {
        assert(s@.subrange(0, n as int) =~= s@);
    }
    while i < n
        invariant
            i <= n,
            n == s@.len(),
            forall|k: int| 0 <= k < i ==> s@[k] != c,
            spec_until(s@, c) == s@.subrange(0, i as int) + spec_until(
                s@.subrange(i as int, n as int),
                c,
            ),
        decreases n - i,
    {
        let ghost suffix = s@.subrange(i as int, n as int);
        proof {
            assert(suffix[0] == s@[i as int]);
            assert(suffix.subrange(1, suffix.len() as int) =~= s@.subrange(i + 1, n as int));
        }
        if s.get_char(i) == c {
            proof {
                assert(spec_until(suffix, c) =~= Seq::<char>::empty());
                assert(spec_until(s@, c) =~= s@.subrange(0, i as int));
            }
            return String::from_str(s.substring_char(0, i));
        }
        proof {
            assert(s@.subrange(0, i + 1) =~= s@.subrange(0, i as int) + seq![s@[i as int]]);
            assert(s@.subrange(0, i as int) + (seq![suffix[0]] + spec_until(
                suffix.subrange(1, suffix.len() as int),
                c,
            )) =~= s@.subrange(0, i + 1) + spec_until(s@.subrange(i + 1, n as int), c));
        }
        i = i + 1;
    }
    proof {
        assert(spec_until(s@.subrange(n as int, n as int), c) =~= Seq::<char>::empty());
        assert(spec_until(s@, c) =~= s@);
    }
    String::from_str(s)
}

/// The decimal rendering of a machine integer.
pub fn usize_to_string(n: usize) -> (r: String)
    ensures
        r@ == spec_dec_str(n as nat),
    decreases n,
{
    if n < 10 {
        let mut s = String::new();
        push_char(&mut s, ((48 + n as u8)) as char);
        proof {
            assert(s@ =~= seq![spec_digit_char(n as nat)]);
        }
        s
    } else {
        let mut s = usize_to_string(n / 10);
        push_char(&mut s, ((48 + (n % 10) as u8)) as char);
        s
    }
}

proof fn lemma_digits_val_prefix_le(s: Seq<char>, i: int)
    requires
        0 <= i < s.len(),
        spec_is_digit(s[i]),
    ensures
        spec_digits_val(s.subrange(0, i)) <= spec_digits_val(s.subrange(0, i + 1)),
{
    let a = s.subrange(0, i);
    let b = s.subrange(0, i + 1);
    assert(b.drop_last() =~= a);
    assert(b.last() == s[i]);
}

proof fn lemma_digits_val_extends(s: Seq<char>, i: int)
    requires
        0 <= i <= s.len(),
        spec_all_digits(s),
    ensures
        spec_digits_val(s.subrange(0, i)) <= spec_digits_val(s),
    decreases s.len() - i,
{
    if i == s.len() {
        assert(s.subrange(0, i) =~= s);
    } else {
        lemma_digits_val_prefix_le(s, i);
        lemma_digits_val_extends(s, i + 1);
    }
}

/// Parses an unsigned sixteen-bit integer the way `str::parse::<u16>` does.
pub fn parse_u16_str(s: &str) -> (r: Option<u16>)
    ensures
        r == spec_parse_u16(s@),
{
    let n = s.unicode_len();
    let has_sign = n > 0 && s.get_char(0) == '+';
    let start: usize = if has_sign {
        1
    } else {
        0
    };
    let ghost t = if has_sign {
        s@.subrange(1, n as int)
    } else {
        s@
    };
    if n == start {
        return None;
    }
    let mut acc: u32 = 0;
    let mut i: usize = start;
    while i < n
        invariant
            start <= i <= n,
            n == s@.len(),
            start == if has_sign { 1int } else { 0int },
            has_sign == (s@.len() > 0 && s@[0] == '+'),
            t == if has_sign { s@.subrange(1, n as int) } else { s@ },
            acc == spec_digits_val(t.subrange(0, i - start)),
            acc <= 0xffff,
            spec_all_digits(t.subrange(0, i - start)),
        decreases n - i,
    {
        let c = s.get_char(i);
        if !is_digit_char(c) {
            proof {
                assert(t[i - start] == c);
                assert(!spec_all_digits(t));
            }
            return None;
        }
        let d = (c as u8) - 48;
        proof {
            assert(t.subrange(0, i - start + 1).drop_last() =~= t.subrange(0, i - start));
            assert(t.subrange(0, i - start + 1).last() == c);
        }
        acc = acc * 10 + (d as u32);
        let ghost tp = t.subrange(0, i - start + 1);
        assert(acc == spec_digits_val(tp));
        assert(spec_all_digits(tp)) by {
            assert(forall|k: int|
                0 <= k < tp.len() - 1 ==> #[trigger] tp[k] == t.subrange(0, i - start)[k]);
        }
        if acc > 0xffff {
            proof {
                if spec_all_digits(t) {
                    assert(tp =~= t.subrange(0, i - start + 1));
                    lemma_digits_val_extends(t, i - start + 1);
                }
            }
            return None;
        }
        i = i + 1;
    }
    proof {
        assert(t.subrange(0, (n - start) as int) =~= t);
    }
    Some(acc as u16)
}

/// Parses a signed thirty-two-bit integer the way `str::parse::<i32>` does.
pub fn parse_i32_str(s: &str) -> (r: Option<i32>)
    ensures
        r == spec_parse_i32(s@),
{
    let n = s.unicode_len();
    let neg = n > 0 && s.get_char(0) == '-';
    let has_sign = n > 0 && (s.get_char(0) == '+' || s.get_char(0) == '-');
    let start: usize = if has_sign {
        1
    } else {
        0
    };
    let ghost t = if has_sign {
        s@.subrange(1, n as int)
    } else {
        s@
    };
    if n == start {
        return None;
    }
    let bound: u64 = if neg {
        0x8000_0000
    } else {
        0x7fff_ffff
    };
    let mut acc: u64 = 0;
    let mut i: usize = start;
    while i < n
        invariant
            start <= i <= n,
            n == s@.len(),
            start == if has_sign { 1int } else { 0int },
            t == if has_sign { s@.subrange(1, n as int) } else { s@ },
            neg == (s@.len() > 0 && s@[0] == '-'),
            has_sign == (s@.len() > 0 && (s@[0] == '+' || s@[0] == '-')),
            bound == if neg { 0x8000_0000u64 } else { 0x7fff_ffffu64 },
            acc == spec_digits_val(t.subrange(0, i - start)),
            acc <= bound,
            spec_all_digits(t.subrange(0, i - start)),
        decreases n - i,
    {
        let c = s.get_char(i);
        if !is_digit_char(c) {
            proof {
                assert(t[i - start] == c);
                assert(!spec_all_digits(t));
            }
            return None;
        }
        let d = (c as u8) - 48;
        proof {
            assert(t.subrange(0, i - start + 1).drop_last() =~= t.subrange(0, i - start));
            assert(t.subrange(0, i - start + 1).last() == c);
        }
        acc = acc * 10 + (d as u64);
        let ghost tp = t.subrange(0, i - start + 1);
        assert(acc == spec_digits_val(tp));
        assert(spec_all_digits(tp)) by {
            assert(forall|k: int|
                0 <= k < tp.len() - 1 ==> #[trigger] tp[k] == t.subrange(0, i - start)[k]);
        }
        if acc > bound {
            proof {
                if spec_all_digits(t) {
                    assert(tp =~= t.subrange(0, i - start + 1));
                    lemma_digits_val_extends(t, i - start + 1);
                }
            }
            return None;
        }
        i = i + 1;
    }
    proof {
        assert(t.subrange(0, (n - start) as int) =~= t);
    }
    if neg {
        if acc == 0x8000_0000 {
            Some(i32::MIN)
        } else {
            Some(-((acc as u32) as i32))
        }
    } else {
        Some(acc as i32)
    }
}

} // verus!
