//! The CSS declaration parser: splits a font-face rule body into
//! `name: value` pairs on `;`, with a scanner that tracks parenthesis depth
//! and quote state so separators inside `url(...)` or quoted strings are not
//! mistaken for boundaries; backslash escapes pass through unaltered.
use vstd::prelude::*;

use crate::text::{
    push_char, spec_lower_seq, spec_trim, spec_until, str_eq, to_lower, trim_str, until_char,
};

verus! {

/// The scanner state after one character: parenthesis depth and quote flags.
/// A quote of the one kind inside the other is literal; parentheses count
/// only outside quotes, and a stray closer never drives the depth negative.
pub open spec fn spec_decl_state(ch: char, depth: int, in_s: bool, in_d: bool) -> (
    int,
    bool,
    bool,
) {
    if ch == '\'' && !in_d {
        (depth, !in_s, in_d)
    } else if ch == '"' && !in_s {
        (depth, in_s, !in_d)
    } else if !in_s && !in_d && ch == '(' {
        (depth + 1, in_s, in_d)
    } else if !in_s && !in_d && ch == ')' {
        (if depth - 1 >= 0 {
            depth - 1
        } else {
            0
        }, in_s, in_d)
    } else {
        (depth, in_s, in_d)
    }
}

/// The raw declaration texts of a block suffix, given the text read into the
/// current declaration and the scanner state: `;` splits only at depth zero
/// outside quotes; an escaped character passes through unexamined.
pub open spec fn spec_split_decls(
    s: Seq<char>,
    cur: Seq<char>,
    depth: int,
    in_s: bool,
    in_d: bool,
    escaped: bool,
) -> Seq<Seq<char>>
    decreases s.len(),
{
    if s.len() == 0 {
        seq![cur]
    } else if escaped {
        spec_split_decls(s.subrange(1, s.len() as int), cur.push(s[0]), depth, in_s, in_d, false)
    } else if s[0] == '\\' {
        spec_split_decls(s.subrange(1, s.len() as int), cur.push(s[0]), depth, in_s, in_d, true)
    } else {
        let st = spec_decl_state(s[0], depth, in_s, in_d);
        if s[0] == ';' && st.0 == 0 && !st.1 && !st.2 {
            seq![cur] + spec_split_decls(
                s.subrange(1, s.len() as int),
                Seq::empty(),
                st.0,
                st.1,
                st.2,
                false,
            )
        } else {
            spec_split_decls(s.subrange(1, s.len() as int), cur.push(s[0]), st.0, st.1, st.2, false)
        }
    }
}

/// The raw declaration texts of a whole block.
pub open spec fn spec_raw_decls(block: Seq<char>) -> Seq<Seq<char>> {
    spec_split_decls(block, Seq::empty(), 0, false, false, false)
}

/// The `name: value` pair of one raw declaration: trimmed, split at its
/// first colon, the name lowercased; text without a colon, or nothing but
/// whitespace, yields no pair.
pub open spec fn spec_decl_pair(d: Seq<char>) -> Option<(Seq<char>, Seq<char>)> {
    let t = spec_trim(d);
    if t.len() == 0 {
        None
    } else {
        let name = spec_until(t, ':');
        if name.len() == t.len() {
            None
        } else {
            Some(
                (
                    spec_lower_seq(spec_trim(name)),
                    spec_trim(t.subrange(name.len() as int + 1, t.len() as int)),
                ),
            )
        }
    }
}

/// The pairs of a raw declaration list, in order.
pub open spec fn spec_decl_pairs(raw: Seq<Seq<char>>) -> Seq<(Seq<char>, Seq<char>)>
    decreases raw.len(),
{
    if raw.len() == 0 {
        Seq::<(Seq<char>, Seq<char>)>::empty()
    } else {
        match spec_decl_pair(raw[0]) {
            Some(p) => seq![p] + spec_decl_pairs(raw.subrange(1, raw.len() as int)),
            None => spec_decl_pairs(raw.subrange(1, raw.len() as int)),
        }
    }
}

/// The declarations of a font-face block body, in order of appearance.
pub open spec fn spec_css_declarations(block: Seq<char>) -> Seq<(Seq<char>, Seq<char>)> {
    spec_decl_pairs(spec_raw_decls(block))
}

/// The value of the last declaration of a name; a later declaration of the
/// same name overrides an earlier one.
pub open spec fn spec_decl_get(pairs: Seq<(Seq<char>, Seq<char>)>, name: Seq<char>) -> Option<
    Seq<char>,
>
    decreases pairs.len(),
{
    if pairs.len() == 0 {
        None
    } else if pairs.last().0 == name {
        Some(pairs.last().1)
    } else {
        spec_decl_get(pairs.drop_last(), name)
    }
}

/// The views of a pair list.
pub open spec fn spec_pairs(v: Seq<(String, String)>) -> Seq<(Seq<char>, Seq<char>)> {
    v.map_values(|p: (String, String)| (p.0@, p.1@))
}

/// Parses a trimmed raw declaration into the pair list, skipping text
/// without a colon.
pub fn push_declaration(declarations: &mut Vec<(String, String)>, raw_declaration: &str)
    ensures
        spec_pairs(final(declarations)@) == match spec_decl_pair(raw_declaration@) {
            Some(p) => spec_pairs(old(declarations)@).push(p),
            None => spec_pairs(old(declarations)@),
        },
{
    let trimmed = trim_str(raw_declaration);
    if trimmed.as_str().unicode_len() == 0 {
        return ;
    }
    let name_part = until_char(trimmed.as_str(), ':');
    let name_len = name_part.as_str().unicode_len();
    let total_len = trimmed.as_str().unicode_len();
    proof {
        crate::text::lemma_until_len(trimmed@, ':');
    }
    if name_len == total_len {
        return ;
    }
    let name_trimmed = trim_str(name_part.as_str());
    let name = to_lower(name_trimmed.as_str());
    let value = trim_str(trimmed.as_str().substring_char(name_len + 1, total_len));
    let ghost pre = spec_pairs(declarations@);
    let ghost p = (name@, value@);
    proof {
        assert(spec_decl_pair(raw_declaration@) == Some(p));
    }
    declarations.push((name, value));
    proof {
        assert(spec_pairs(declarations@) =~= pre.push(p));
    }
}

/// Splits a font-face block body into `name: value` pairs, quote and
/// parenthesis aware.
pub fn parse_css_declarations(block: &str) -> (r: Vec<(String, String)>)
    ensures
        spec_pairs(r@) == spec_css_declarations(block@),
{
    let n = block.unicode_len();
    let mut declarations: Vec<(String, String)> = Vec::new();
    let mut current = String::new();
    let mut paren_depth: usize = 0;
    let mut in_single_quote = false;
    let mut in_double_quote = false;
    let mut escaped = false;
    let mut i: usize = 0;
    proof {
        assert(block@.subrange(0, n as int) =~= block@);
        assert(spec_pairs(declarations@) =~= Seq::<(Seq<char>, Seq<char>)>::empty());
        assert(spec_pairs(declarations@) + spec_decl_pairs(
            spec_split_decls(block@, Seq::empty(), 0, false, false, false),
        ) =~= spec_decl_pairs(spec_split_decls(block@, Seq::empty(), 0, false, false, false)));
    }
    while i < n
        invariant
            i <= n,
            n == block@.len(),
            paren_depth <= i,
            spec_pairs(declarations@) + spec_decl_pairs(
                spec_split_decls(
                    block@.subrange(i as int, n as int),
                    current@,
                    paren_depth as int,
                    in_single_quote,
                    in_double_quote,
                    escaped,
                ),
            ) == spec_css_declarations(block@),
        decreases n - i,
    {
        let ghost suffix = block@.subrange(i as int, n as int);
        let ch = block.get_char(i);
        proof {
            assert(suffix[0] == block@[i as int]);
            assert(suffix.subrange(1, suffix.len() as int) =~= block@.subrange(i + 1, n as int));
        }
        if escaped {
            push_char(&mut current, ch);
            escaped = false;
        } else if ch == '\\' {
            push_char(&mut current, ch);
            escaped = true;
        } else {
            if ch == '\'' && !in_double_quote {
                in_single_quote = !in_single_quote;
            } else if ch == '"' && !in_single_quote {
                in_double_quote = !in_double_quote;
            } else if !in_single_quote && !in_double_quote {
                if ch == '(' {
                    paren_depth = paren_depth + 1;
                } else if ch == ')' {
                    if paren_depth > 0 {
                        paren_depth = paren_depth - 1;
                    }
                }
            }
            if ch == ';' && paren_depth == 0 && !in_single_quote && !in_double_quote {
                let ghost pre_pairs = spec_pairs(declarations@);
                let ghost pre_cur = current@;
                push_declaration(&mut declarations, current.as_str());
                current = String::new();
                proof {
                    let rest = spec_decl_pairs(
                        spec_split_decls(
                            block@.subrange(i + 1, n as int),
                            Seq::empty(),
                            0,
                            false,
                            false,
                            false,
                        ),
                    );
                    assert(spec_decl_pairs(seq![pre_cur] + spec_split_decls(
                        block@.subrange(i + 1, n as int),
                        Seq::empty(),
                        0,
                        false,
                        false,
                        false,
                    )) =~= match spec_decl_pair(pre_cur) {
                        Some(p) => seq![p] + rest,
                        None => rest,
                    }) by {
                        let whole = seq![pre_cur] + spec_split_decls(
                            block@.subrange(i + 1, n as int),
                            Seq::empty(),
                            0,
                            false,
                            false,
                            false,
                        );
                        assert(whole[0] == pre_cur);
                        assert(whole.subrange(1, whole.len() as int) =~= spec_split_decls(
                            block@.subrange(i + 1, n as int),
                            Seq::empty(),
                            0,
                            false,
                            false,
                            false,
                        ));
                    }
                    assert(spec_pairs(declarations@) + rest =~= spec_css_declarations(block@));
                }
            } else {
                push_char(&mut current, ch);
            }
        }
        i = i + 1;
    }
    let ghost final_cur = current@;
    let ghost pre_pairs = spec_pairs(declarations@);
    push_declaration(&mut declarations, current.as_str());
    proof {
        let whole = seq![final_cur];
        assert(spec_split_decls(
            block@.subrange(n as int, n as int),
            final_cur,
            paren_depth as int,
            in_single_quote,
            in_double_quote,
            escaped,
        ) =~= whole);
        assert(whole[0] == final_cur);
        assert(whole.subrange(1, 1) =~= Seq::<Seq<char>>::empty());
        assert(spec_decl_pairs(whole.subrange(1, 1)) =~= Seq::<(Seq<char>, Seq<char>)>::empty());
        if spec_decl_pair(final_cur) is Some {
            assert(spec_decl_pairs(whole) =~= seq![spec_decl_pair(final_cur)->Some_0]);
            assert(pre_pairs + spec_decl_pairs(whole) =~= pre_pairs.push(
                spec_decl_pair(final_cur)->Some_0,
            ));
        } else {
            assert(spec_decl_pairs(whole) =~= Seq::<(Seq<char>, Seq<char>)>::empty());
            assert(pre_pairs + spec_decl_pairs(whole) =~= pre_pairs);
        }
        assert(spec_pairs(declarations@) =~= spec_css_declarations(block@));
    }
    declarations
}

/// Looks a declared name up; a later declaration overrides an earlier one.
pub fn get_declaration(declarations: &Vec<(String, String)>, name: &str) -> (r: Option<String>)
    ensures
        crate::text::spec_opt_str(r) == spec_decl_get(spec_pairs(declarations@), name@),
{
    let mut i: usize = declarations.len();
    proof {
        assert(spec_pairs(declarations@).subrange(0, i as int) =~= spec_pairs(declarations@));
    }
    while i > 0
        invariant
            i <= declarations@.len(),
            spec_decl_get(spec_pairs(declarations@), name@) == spec_decl_get(
                spec_pairs(declarations@).subrange(0, i as int),
                name@,
            ),
        decreases i,
    {
        proof {
            let pairs = spec_pairs(declarations@).subrange(0, i as int);
            assert(pairs.last() == (declarations@[i - 1].0@, declarations@[i - 1].1@));
            assert(pairs.drop_last() =~= spec_pairs(declarations@).subrange(0, i - 1));
        }
        if str_eq(declarations[i - 1].0.as_str(), name) {
            return Some(declarations[i - 1].1.clone());
        }
        i = i - 1;
    }
    proof {
        assert(spec_pairs(declarations@).subrange(0, 0) =~= Seq::<(Seq<char>, Seq<char>)>::empty());
    }
    None
}

} // verus!
