use vstd::prelude::*;
use crate::text::{chars_of, string_from};

verus! {

/// Unicode white space, as `\s` in a regular expression matches it.
pub open spec fn is_whitespace(c: char) -> bool {
    ('\u{9}' <= c && c <= '\u{d}') || c == ' ' || c == '\u{85}' || c == '\u{a0}'
        || c == '\u{1680}' || ('\u{2000}' <= c && c <= '\u{200a}') || c == '\u{2028}'
        || c == '\u{2029}' || c == '\u{202f}' || c == '\u{205f}' || c == '\u{3000}'
}

/// Separators between tokens: white space and commas.
pub open spec fn is_separator(c: char) -> bool {
    is_whitespace(c) || c == ','
}

/// Characters that form a token of their own.
pub open spec fn is_single(c: char) -> bool {
    c == '[' || c == ']' || c == '{' || c == '}' || c == '(' || c == ')' || c == '\''
        || c == '`' || c == '~' || c == '^' || c == '@'
}

/// Characters that may stand in a symbol or number token.
pub open spec fn is_atom_char(c: char) -> bool {
    !is_whitespace(c) && c != '[' && c != ']' && c != '{' && c != '}' && c != '(' && c != ')'
        && c != '\'' && c != '"' && c != '`' && c != ',' && c != ';'
}

/// The first position at or after `i` that holds no separator.
pub open spec fn skip_separators(s: Seq<char>, i: int) -> int
    decreases s.len() - i,
{
    if 0 <= i < s.len() && is_separator(s[i]) {
        skip_separators(s, i + 1)
    } else {
        i
    }
}

/// The end of the body of a string literal whose body starts at `i`: ordinary characters,
/// and a backslash together with the character after it unless that is a line break.
pub open spec fn string_body_end(s: Seq<char>, i: int) -> int
    decreases s.len() - i,
{
    if 0 <= i < s.len() && s[i] != '\\' && s[i] != '"' {
        string_body_end(s, i + 1)
    } else if 0 <= i && i + 1 < s.len() && s[i] == '\\' && s[i + 1] != '\n' {
        string_body_end(s, i + 2)
    } else {
        i
    }
}

/// The end of a line comment that goes on at `i`.
pub open spec fn comment_end(s: Seq<char>, i: int) -> int
    decreases s.len() - i,
{
    if 0 <= i < s.len() && s[i] != '\n' {
        comment_end(s, i + 1)
    } else {
        i
    }
}

/// The end of a run of symbol characters that goes on at `i`.
pub open spec fn atom_end(s: Seq<char>, i: int) -> int
    decreases s.len() - i,
{
    if 0 <= i < s.len() && is_atom_char(s[i]) {
        atom_end(s, i + 1)
    } else {
        i
    }
}

/// The end of the token (or comment) that starts at `i`, where `s[i]` is no separator.
pub open spec fn token_end(s: Seq<char>, i: int) -> int {
    if s[i] == '~' && i + 1 < s.len() && s[i + 1] == '@' {
        i + 2
    } else if is_single(s[i]) {
        i + 1
    } else if s[i] == '"' {
        let e = string_body_end(s, i + 1);
        if e < s.len() && s[e] == '"' {
            e + 1
        } else {
            e
        }
    } else if s[i] == ';' {
        comment_end(s, i + 1)
    } else {
        atom_end(s, i)
    }
}

/// The tokens of `s` from position `i` on; comments are left out.
pub open spec fn tokens_from(s: Seq<char>, i: int) -> Seq<Seq<char>>
    decreases s.len() - i,
    via tokens_from_decreases
{
    let j = skip_separators(s, i);
    if 0 <= i && j < s.len() {
        let e = token_end(s, j);
        if s[j] == ';' {
            tokens_from(s, e)
        } else {
            seq![s.subrange(j, e)] + tokens_from(s, e)
        }
    } else {
        Seq::empty()
    }
}

/// The tokens of `s`, in order.
pub open spec fn tokens(s: Seq<char>) -> Seq<Seq<char>> {
    tokens_from(s, 0)
}

pub(crate) proof fn lemma_skip_separators(s: Seq<char>, i: int)
    requires
        0 <= i,
    ensures
        i <= skip_separators(s, i),
        skip_separators(s, i) < s.len() ==> !is_separator(s[skip_separators(s, i)]),
    decreases s.len() - i,
{
    if 0 <= i < s.len() && is_separator(s[i]) {
        lemma_skip_separators(s, i + 1);
    }
}

proof fn lemma_string_body_end(s: Seq<char>, i: int)
    requires
        0 <= i <= s.len(),
    ensures
        i <= string_body_end(s, i) <= s.len(),
    decreases s.len() - i,
{
    if 0 <= i < s.len() && s[i] != '\\' && s[i] != '"' {
        lemma_string_body_end(s, i + 1);
    } else if 0 <= i && i + 1 < s.len() && s[i] == '\\' && s[i + 1] != '\n' {
        lemma_string_body_end(s, i + 2);
    }
}

proof fn lemma_comment_end(s: Seq<char>, i: int)
    requires
        0 <= i <= s.len(),
    ensures
        i <= comment_end(s, i) <= s.len(),
    decreases s.len() - i,
{
    if 0 <= i < s.len() && s[i] != '\n' {
        lemma_comment_end(s, i + 1);
    }
}

proof fn lemma_atom_end(s: Seq<char>, i: int)
    requires
        0 <= i <= s.len(),
    ensures
        i <= atom_end(s, i) <= s.len(),
    decreases s.len() - i,
{
    if 0 <= i < s.len() && is_atom_char(s[i]) {
        lemma_atom_end(s, i + 1);
    }
}

pub(crate) proof fn lemma_token_end(s: Seq<char>, i: int)
    requires
        0 <= i < s.len(),
        !is_separator(s[i]),
    ensures
        i < token_end(s, i) <= s.len(),
{
    lemma_string_body_end(s, i + 1);
    lemma_comment_end(s, i + 1);
    lemma_atom_end(s, i + 1);
}

/// The shape of a token: a bracket or sigil, a string literal, or a run of symbol
/// characters that starts with no sigil.
pub open spec fn token_shape(t: Seq<char>) -> bool {
    ||| t.len() == 1 && is_single(t[0])
    ||| t == seq!['~', '@']
    ||| t.len() > 0 && t[0] == '"'
    ||| t.len() > 0 && !is_single(t[0]) && t[0] != ';' && forall|k: int|
        0 <= k < t.len() ==> is_atom_char(#[trigger] t[k])
}

proof fn lemma_atom_run(s: Seq<char>, i: int, k: int)
    requires
        0 <= i <= k < atom_end(s, i),
    ensures
        is_atom_char(s[k]),
    decreases s.len() - i,
{
    if i < k {
        lemma_atom_run(s, i + 1, k);
    }
}

/// Every token of a text has the shape of a token.
pub proof fn lemma_token_shapes(s: Seq<char>, i: int)
    requires
        0 <= i,
    ensures
        forall|k: int| 0 <= k < tokens_from(s, i).len() ==> token_shape(#[trigger] tokens_from(s, i)[k]),
    decreases s.len() - i,
{
    lemma_skip_separators(s, i);
    let j = skip_separators(s, i);
    if j < s.len() {
        lemma_token_end(s, j);
        let e = token_end(s, j);
        lemma_token_shapes(s, e);
        if s[j] != ';' {
            let t = s.subrange(j, e);
            if s[j] == '~' && j + 1 < s.len() && s[j + 1] == '@' {
                assert(t =~= seq!['~', '@']);
            } else if is_single(s[j]) {
                assert(t.len() == 1);
            } else if s[j] == '"' {
            } else {
                assert forall|k: int| 0 <= k < t.len() implies is_atom_char(#[trigger] t[k]) by {
                    lemma_atom_run(s, j, j + k);
                }
            }
            assert(token_shape(t));
            let rest = tokens_from(s, e);
            assert(tokens_from(s, i) == seq![t] + rest);
            assert forall|k: int| 0 <= k < tokens_from(s, i).len() implies token_shape(
                #[trigger] tokens_from(s, i)[k],
            ) by {
                if k > 0 {
                    assert(tokens_from(s, i)[k] == rest[k - 1]);
                }
            }
        }
    }
}

#[via_fn]
proof fn tokens_from_decreases(s: Seq<char>, i: int) {
    if 0 <= i {
        lemma_skip_separators(s, i);
        let j = skip_separators(s, i);
        if j < s.len() {
            lemma_token_end(s, j);
        }
    }
}

fn whitespace(c: char) -> (r: bool)
    ensures
        r == is_whitespace(c),
{
    ('\u{9}' <= c && c <= '\u{d}') || c == ' ' || c == '\u{85}' || c == '\u{a0}'
        || c == '\u{1680}' || ('\u{2000}' <= c && c <= '\u{200a}') || c == '\u{2028}'
        || c == '\u{2029}' || c == '\u{202f}' || c == '\u{205f}' || c == '\u{3000}'
}

fn atom_char(c: char) -> (r: bool)
    ensures
        r == is_atom_char(c),
{
    !whitespace(c) && c != '[' && c != ']' && c != '{' && c != '}' && c != '(' && c != ')'
        && c != '\'' && c != '"' && c != '`' && c != ',' && c != ';'
}

fn single(c: char) -> (r: bool)
    ensures
        r == is_single(c),
{
    c == '[' || c == ']' || c == '{' || c == '}' || c == '(' || c == ')' || c == '\'' || c
        == '`' || c == '~' || c == '^' || c == '@'
}

fn find_token_start(s: &Vec<char>, i: usize) -> (r: usize)
    requires
        i <= s.len(),
    ensures
        r as int == skip_separators(s@, i as int),
        i <= r <= s.len(),
{
    let mut k = i;
    while k < s.len() && (whitespace(s[k]) || s[k] == ',')
        invariant
            i <= k <= s.len(),
            skip_separators(s@, k as int) == skip_separators(s@, i as int),
        decreases s.len() - k,
    {
        k = k + 1;
    }
    k
}

fn find_token_end(s: &Vec<char>, i: usize) -> (r: usize)
    requires
        i < s.len(),
        !is_separator(s@[i as int]),
    ensures
        r as int == token_end(s@, i as int),
        i < r <= s.len(),
{
    proof {
        lemma_token_end(s@, i as int);
    }
    let n = s.len();
    let c = s[i];
    if c == '~' && i + 1 < n && s[i + 1] == '@' {
        i + 2
    } else if single(c) {
        i + 1
    } else if c == '"' {
        let mut k = i + 1;
        loop
            invariant
                i + 1 <= k <= n,
                n == s.len(),
                string_body_end(s@, k as int) == string_body_end(s@, i + 1),
            ensures
                i + 1 <= k <= n,
                k as int == string_body_end(s@, i + 1),
            decreases n - k,
        {
            if k < n && s[k] != '\\' && s[k] != '"' {
                k = k + 1;
            } else if k < n && s[k] == '\\' && k + 1 < n && s[k + 1] != '\n' {
                k = k + 2;
            } else {
                break;
            }
        }
        if k < n && s[k] == '"' {
            k + 1
        } else {
            k
        }
    } else if c == ';' {
        let mut k = i + 1;
        while k < n && s[k] != '\n'
            invariant
                i + 1 <= k <= n,
                n == s.len(),
                comment_end(s@, k as int) == comment_end(s@, i + 1),
            decreases n - k,
        {
            k = k + 1;
        }
        k
    } else {
        let mut k = i;
        while k < n && atom_char(s[k])
            invariant
                i <= k <= n,
                n == s.len(),
                atom_end(s@, k as int) == atom_end(s@, i as int),
            decreases n - k,
        {
            k = k + 1;
        }
        k
    }
}

pub(crate) fn slice_of(s: &Vec<char>, from: usize, to: usize) -> (r: Vec<char>)
    requires
        from <= to <= s.len(),
    ensures
        r@ == s@.subrange(from as int, to as int),
{
    let mut r: Vec<char> = Vec::new();
    let mut k = from;
    while k < to
        invariant
            from <= k <= to <= s.len(),
            r@ == s@.subrange(from as int, k as int),
        decreases to - k,
    {
        r.push(s[k]);
        k = k + 1;
        proof {
            assert(r@ =~= s@.subrange(from as int, k as int));
        }
    }
    r
}

/// The tokens of a sequence of characters.
pub fn tokenize_chars(s: &Vec<char>) -> (r: Vec<Vec<char>>)
    ensures
        r@.map_values(|t: Vec<char>| t@) == tokens(s@),
{
    let mut r: Vec<Vec<char>> = Vec::new();
    let mut i: usize = 0;
    loop
        invariant
            i <= s.len(),
            r@.map_values(|t: Vec<char>| t@) + tokens_from(s@, i as int) == tokens(s@),
        ensures
            r@.map_values(|t: Vec<char>| t@) == tokens(s@),
        decreases s.len() - i,
    {
        let j = find_token_start(s, i);
        if j >= s.len() {
            proof {
                assert(r@.map_values(|t: Vec<char>| t@) + tokens_from(s@, i as int) =~= r@.map_values(
                    |t: Vec<char>| t@,
                ));
            }
            break;
        }
        proof {
            lemma_skip_separators(s@, i as int);
        }
        let e = find_token_end(s, j);
        if s[j] != ';' {
            let t = slice_of(s, j, e);
            let ghost before = r@.map_values(|t: Vec<char>| t@);
            r.push(t);
            proof {
                assert(r@.map_values(|t: Vec<char>| t@) =~= before.push(s@.subrange(j as int, e as int)));
                assert(before + tokens_from(s@, i as int) =~= before.push(s@.subrange(j as int, e as int)) + tokens_from(s@, e as int));
            }
        }
        i = e;
    }
    r
}

/// The tokens of `text`, in order: brackets, reader-macro sigils, string literals and
/// symbol or number runs; separators and comments are dropped.
pub fn tokenize(text: &str) -> (r: Vec<String>)
    ensures
        r@.map_values(|t: String| t@) == tokens(text@),
{
    let s = chars_of(text);
    let toks = tokenize_chars(&s);
    let mut r: Vec<String> = Vec::new();
    let mut k: usize = 0;
    while k < toks.len()
        invariant
            k <= toks.len(),
            r@.len() == k,
            r@.map_values(|t: String| t@) == toks@.map_values(|t: Vec<char>| t@).subrange(0, k as int),
        decreases toks.len() - k,
    {
        let t = string_from(&toks[k]);
        let ghost before = r@;
        r.push(t);
        k = k + 1;
        proof {
            assert(r@ == before.push(t));
            assert(t@ == toks@[k - 1]@);
            assert forall|m: int| 0 <= m < k implies #[trigger] r@[m]@ == toks@[m]@ by {
                if m < k - 1 {
                    assert(r@[m] == before[m]);
                    assert(before.map_values(|t: String| t@)[m] == toks@.map_values(|t: Vec<char>| t@).subrange(0, k - 1)[m]);
                }
            }
            assert(r@.map_values(|t: String| t@) =~= toks@.map_values(|t: Vec<char>| t@).subrange(0, k as int));
        }
    }
    proof {
        assert(toks@.map_values(|t: Vec<char>| t@).subrange(0, k as int) =~= toks@.map_values(|t: Vec<char>| t@));
    }
    r
}

} // verus!
