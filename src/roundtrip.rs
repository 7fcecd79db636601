use vstd::prelude::*;
use crate::printer::{digits_of, escape, print_entries, print_items, print_key, print_val, quoted};
use crate::reader::{
    atom_value, entries_from, is_closer, is_token, key_of, key_pos, keys_unique, lemma_key_pos,
    closer_of, container, lemma_entries_unique, macro_name, map_value, parse_form, parse_items,
    parse_rest, string_literal, unescape_from,
};
use crate::text::{all_digits, decimal_value, digits_value, i64_value, is_digit};
use crate::tokenizer::{
    atom_end, is_atom_char, is_separator, is_single, lemma_token_shapes, skip_separators,
    string_body_end, token_end, token_shape, tokens, tokens_from,
};
use crate::types::{FormError, KeyV, Val};

verus! {

proof fn lemma_escape_scan(p: Seq<char>, s: Seq<char>, u: Seq<char>)
    requires
        u.len() > 0,
        u[0] == '"',
    ensures
        string_body_end(p + escape(s) + u, p.len() as int) == p.len() + escape(s).len(),
        unescape_from(p + escape(s) + seq!['"'], p.len() as int) == Ok::<Seq<char>, FormError>(s),
    decreases s.len(),
{
    let t = p + escape(s) + u;
    let w = p + escape(s) + seq!['"'];
    let k = p.len() as int;
    if s.len() == 0 {
        assert(escape(s) =~= Seq::<char>::empty());
        assert(t[k] == '"');
        assert(w.len() == k + 1);
        assert(w[k] == '"');
        assert(s =~= Seq::<char>::empty());
    } else {
        let c = s[0];
        let e0 = if c == '\n' {
            seq!['\\', 'n']
        } else if c == '"' || c == '\\' {
            seq!['\\', c]
        } else {
            seq![c]
        };
        let rest = s.drop_first();
        assert(escape(s) == e0 + escape(rest));
        lemma_escape_scan(p + e0, rest, u);
        assert(p + e0 + escape(rest) + u =~= t);
        assert(p + e0 + escape(rest) + seq!['"'] =~= w);
        assert(t[k] == e0[0]);
        assert(w[k] == e0[0]);
        if e0.len() == 2 {
            assert(t[k + 1] == e0[1]);
            assert(w[k + 1] == e0[1]);
        }
        assert(unescape_from(w, k + e0.len()) == Ok::<Seq<char>, FormError>(rest));
        assert(seq![c] + rest =~= s);
        assert(w.len() > k + e0.len());
        if c == '\n' {
            assert(w[k] == '\\' && w[k + 1] == 'n');
        } else if c == '"' || c == '\\' {
            assert(w[k] == '\\' && w[k + 1] == c);
        } else {
            assert(w[k] == c);
        }
        assert(unescape_from(w, k) == Ok::<Seq<char>, FormError>(s));
    }
}

proof fn lemma_digits(n: nat)
    ensures
        all_digits(digits_of(n)),
        digits_value(digits_of(n)) == n,
        is_digit(digits_of(n)[0]),
    decreases n,
{
    let r = (n % 10) as int;
    assert((r + '0' as int) as char as int == r + '0' as int);
    if n < 10 {
        let d = digits_of(n);
        assert(d.drop_last() =~= Seq::<char>::empty());
        assert(digits_value(d.drop_last()) == 0);
        assert(d.last() as int - '0' as int == n);
        assert(digits_value(d) == digits_value(d.drop_last()) * 10 + (d.last() as int - '0' as int));
    }
    if n >= 10 {
        lemma_digits(n / 10);
        let d = digits_of(n);
        assert(d.drop_last() =~= digits_of(n / 10));
        assert(d.last() as int - '0' as int == r);
        assert((n / 10) * 10 + r == n);
        assert(digits_value(d) == digits_value(d.drop_last()) * 10 + (d.last() as int - '0' as int));
        assert(digits_value(d.drop_last()) == n / 10);
        assert(is_digit(d[d.len() - 1]));
        assert forall|i: int| 0 <= i < d.len() implies is_digit(#[trigger] d[i]) by {
            if i < d.len() - 1 {
                assert(d[i] == digits_of(n / 10)[i]);
            }
        }
        assert(d[0] == digits_of(n / 10)[0]);
    }
}

proof fn lemma_not_token(t: Seq<char>, c: char)
    requires
        t.len() > 0,
        t[0] != c,
    ensures
        !is_token(t, c),
        t != seq![c, '@'],
{
    if t == seq![c] {
        assert(t[0] == c);
    }
    if t == seq![c, '@'] {
        assert(t[0] == c);
    }
}

/// Characters after which a symbol or number token cannot go on.
pub open spec fn is_boundary(c: char) -> bool {
    is_separator(c) || c == ')' || c == ']' || c == '}'
}

/// Non-empty text of symbol characters only.
pub open spec fn plain_text(s: Seq<char>) -> bool {
    s.len() > 0 && forall|k: int| 0 <= k < s.len() ==> is_atom_char(#[trigger] s[k])
}

/// A map key whose text reads back as the same key.
pub open spec fn readable_key(k: KeyV) -> bool {
    match k {
        KeyV::Str(_) => true,
        KeyV::Keyword(s) => plain_text(s),
    }
}

/// A symbol text that reads back as that symbol.
pub open spec fn readable_symbol(s: Seq<char>) -> bool {
    &&& plain_text(s)
    &&& s[0] != '~' && s[0] != '^' && s[0] != '@' && s[0] != ':'
    &&& s != "true"@ && s != "false"@ && s != "nil"@
    &&& i64_value(s) is None
}

/// A form whose printed text reads back as the same form: integers in the range of `i64`,
/// no procedures, keyword and symbol texts that read back as such, and distinct map keys.
pub open spec fn readable(v: Val) -> bool
    decreases v, 1int,
{
    match v {
        Val::Integer(i) => i64::MIN <= i <= i64::MAX,
        Val::Keyword(s) => plain_text(s),
        Val::Symbol(s) => readable_symbol(s),
        Val::List(items) => readable_items(items, 0),
        Val::Vector(items) => readable_items(items, 0),
        Val::HashMap(es) => keys_unique(es) && readable_entries(es, 0),
        Val::Procedure(_) => false,
        _ => true,
    }
}

/// Every item of `s[i..]` is readable.
pub open spec fn readable_items(s: Seq<Val>, i: int) -> bool
    decreases s, s.len() - i,
{
    if i < 0 || i >= s.len() {
        true
    } else {
        readable(s[i]) && readable_items(s, i + 1)
    }
}

/// Every entry of `es[i..]` has a readable key and value.
pub open spec fn readable_entries(es: Seq<(KeyV, Val)>, i: int) -> bool
    decreases es, es.len() - i,
{
    if i < 0 || i >= es.len() {
        true
    } else {
        readable_key(es[i].0) && readable(es[i].1) && readable_entries(es, i + 1)
    }
}

/// The tokens of the printed text of a form.
pub open spec fn toks(v: Val) -> Seq<Seq<char>>
    decreases v, 1int,
{
    match v {
        Val::List(items) => seq![seq!['(']] + toks_items(items, 0) + seq![seq![')']],
        Val::Vector(items) => seq![seq!['[']] + toks_items(items, 0) + seq![seq![']']],
        Val::HashMap(es) => seq![seq!['{']] + toks_entries(es, 0) + seq![seq!['}']],
        _ => seq![print_val(v)],
    }
}

/// The tokens of the printed items `s[i..]`.
pub open spec fn toks_items(s: Seq<Val>, i: int) -> Seq<Seq<char>>
    decreases s, s.len() - i,
{
    if i < 0 || i >= s.len() {
        Seq::empty()
    } else {
        toks(s[i]) + toks_items(s, i + 1)
    }
}

/// The tokens of the printed entries `es[i..]`.
pub open spec fn toks_entries(es: Seq<(KeyV, Val)>, i: int) -> Seq<Seq<char>>
    decreases es, es.len() - i,
{
    if i < 0 || i >= es.len() {
        Seq::empty()
    } else {
        seq![print_key(es[i].0)] + toks(es[i].1) + toks_entries(es, i + 1)
    }
}

proof fn lemma_skip_one(t: Seq<char>, j: int)
    requires
        0 <= j < t.len(),
        is_separator(t[j]),
    ensures
        tokens_from(t, j) == tokens_from(t, j + 1),
{
    assert(skip_separators(t, j) == skip_separators(t, j + 1));
}

proof fn lemma_single_token(t: Seq<char>, i: int)
    requires
        0 <= i < t.len(),
        t[i] == '(' || t[i] == ')' || t[i] == '[' || t[i] == ']' || t[i] == '{' || t[i] == '}'
            || t[i] == '\'' || t[i] == '`' || t[i] == '@' || t[i] == '^' || (t[i] == '~' && (i + 1
            == t.len() || t[i + 1] != '@')),
    ensures
        tokens_from(t, i) == seq![seq![t[i]]] + tokens_from(t, i + 1),
{
    assert(skip_separators(t, i) == i);
    assert(t.subrange(i, i + 1) =~= seq![t[i]]);
}

proof fn lemma_atom_end_until(t: Seq<char>, k: int, e: int)
    requires
        0 <= k <= e <= t.len(),
        forall|j: int| k <= j < e ==> is_atom_char(#[trigger] t[j]),
        e == t.len() || !is_atom_char(t[e]),
    ensures
        atom_end(t, k) == e,
    decreases e - k,
{
    if k < e {
        lemma_atom_end_until(t, k + 1, e);
    }
}

proof fn lemma_atom_token(t: Seq<char>, i: int, p: Seq<char>)
    requires
        0 <= i,
        i + p.len() <= t.len(),
        t.subrange(i, i + p.len()) == p,
        plain_text(p),
        p[0] != '~' && p[0] != '^' && p[0] != '@',
        i + p.len() == t.len() || is_boundary(t[i + p.len()]),
    ensures
        tokens_from(t, i) == seq![p] + tokens_from(t, i + p.len()),
{
    let e = i + p.len();
    assert forall|j: int| i <= j < e implies is_atom_char(#[trigger] t[j]) by {
        assert(t[j] == p[j - i]);
    }
    assert(t[i] == p[0]);
    lemma_atom_end_until(t, i, e);
    assert(skip_separators(t, i) == i);
}

/// The printed text of a literal, number or keyword is plain text.
proof fn lemma_atom_text(v: Val)
    requires
        readable(v),
        v is Nil || v is Bool || v is Integer || v is Keyword || v is Symbol,
    ensures
        plain_text(print_val(v)),
        print_val(v)[0] != '~' && print_val(v)[0] != '^' && print_val(v)[0] != '@',
{
    reveal_strlit("false");
    reveal_strlit("true");
    reveal_strlit("nil");
    let t = print_val(v);
    match v {
        Val::Integer(i) => {
            let n: nat = if i < 0 {
                (-i) as nat
            } else {
                i as nat
            };
            lemma_digits(n);
            let d = digits_of(n);
            if i < 0 {
                assert(t.drop_first() =~= d);
            } else {
                assert(t == d);
            }
            assert forall|k: int| 0 <= k < t.len() implies is_atom_char(#[trigger] t[k]) by {
                if i < 0 && k > 0 {
                    assert(t[k] == d[k - 1]);
                }
            }
        },
        Val::Keyword(s) => {
            assert forall|k: int| 0 <= k < t.len() implies is_atom_char(#[trigger] t[k]) by {
                if k > 0 {
                    assert(t[k] == s[k - 1]);
                }
            }
        },
        _ => {
            assert forall|k: int| 0 <= k < t.len() implies is_atom_char(#[trigger] t[k]) by {}
        },
    }
}

proof fn lemma_string_token(t: Seq<char>, i: int, s: Seq<char>)
    requires
        0 <= i,
        i + quoted(s).len() <= t.len(),
        t.subrange(i, i + quoted(s).len()) == quoted(s),
    ensures
        tokens_from(t, i) == seq![quoted(s)] + tokens_from(t, i + quoted(s).len()),
{
    let q = quoted(s);
    let n = escape(s).len();
    let p = t.subrange(0, i + 1);
    let u = t.subrange(i + 1 + n, t.len() as int);
    assert(t[i] == q[0]);
    assert(t[i + 1 + n] == q[1 + n as int]);
    assert(t =~= p + escape(s) + u) by {
        assert forall|j: int| i + 1 <= j < i + 1 + n implies t[j] == escape(s)[j - i - 1] by {
            assert(t[j] == q[j - i]);
        }
    }
    lemma_escape_scan(p, s, u);
    assert(skip_separators(t, i) == i);
    assert(token_end(t, i) == i + q.len());
}

proof fn lemma_scan_form(v: Val, t: Seq<char>, i: int)
    requires
        readable(v),
        0 <= i,
        i + print_val(v).len() <= t.len(),
        t.subrange(i, i + print_val(v).len()) == print_val(v),
        i + print_val(v).len() == t.len() || is_boundary(t[i + print_val(v).len()]),
    ensures
        tokens_from(t, i) == toks(v) + tokens_from(t, i + print_val(v).len()),
    decreases v, 1int,
{
    let p = print_val(v);
    match v {
        Val::Str(s) => {
            lemma_string_token(t, i, s);
        },
        Val::List(items) => {
            let inner = print_items(items, 0);
            assert(p == seq!['('] + inner + seq![')']);
            assert(t[i] == p[0]);
            assert(t[i + 1 + inner.len()] == p[1 + inner.len() as int]);
            lemma_single_token(t, i);
            assert(t.subrange(i + 1, i + 1 + inner.len()) =~= inner) by {
                assert forall|m: int| 0 <= m < inner.len() implies t[i + 1 + m] == inner[m] by {
                    assert(t[i + 1 + m] == p[1 + m]);
                }
            }
            lemma_scan_items(items, 0, t, i + 1);
            lemma_single_token(t, i + 1 + inner.len());
            assert(toks(v) =~= seq![seq!['(']] + toks_items(items, 0) + seq![seq![')']]);
        },
        Val::Vector(items) => {
            let inner = print_items(items, 0);
            assert(p == seq!['['] + inner + seq![']']);
            assert(t[i] == p[0]);
            assert(t[i + 1 + inner.len()] == p[1 + inner.len() as int]);
            lemma_single_token(t, i);
            assert(t.subrange(i + 1, i + 1 + inner.len()) =~= inner) by {
                assert forall|m: int| 0 <= m < inner.len() implies t[i + 1 + m] == inner[m] by {
                    assert(t[i + 1 + m] == p[1 + m]);
                }
            }
            lemma_scan_items(items, 0, t, i + 1);
            lemma_single_token(t, i + 1 + inner.len());
        },
        Val::HashMap(es) => {
            let inner = print_entries(es, 0);
            assert(p == seq!['{'] + inner + seq!['}']);
            assert(t[i] == p[0]);
            assert(t[i + 1 + inner.len()] == p[1 + inner.len() as int]);
            lemma_single_token(t, i);
            assert(t.subrange(i + 1, i + 1 + inner.len()) =~= inner) by {
                assert forall|m: int| 0 <= m < inner.len() implies t[i + 1 + m] == inner[m] by {
                    assert(t[i + 1 + m] == p[1 + m]);
                }
            }
            lemma_scan_entries(es, 0, t, i + 1);
            lemma_single_token(t, i + 1 + inner.len());
        },
        _ => {
            lemma_atom_text(v);
            lemma_atom_token(t, i, p);
        },
    }
}

proof fn lemma_scan_items(s: Seq<Val>, k: int, t: Seq<char>, j: int)
    requires
        0 <= k <= s.len(),
        readable_items(s, k),
        0 <= j,
        j + print_items(s, k).len() < t.len(),
        t.subrange(j, j + print_items(s, k).len()) == print_items(s, k),
        is_boundary(t[j + print_items(s, k).len()]),
    ensures
        tokens_from(t, j) == toks_items(s, k) + tokens_from(t, j + print_items(s, k).len()),
    decreases s, s.len() - k,
{
    if k < s.len() {
        let p0 = print_val(s[k]);
        assert(readable(s[k]));
        if k == s.len() - 1 {
            lemma_scan_form(s[k], t, j);
            assert(toks_items(s, k + 1) =~= Seq::<Seq<char>>::empty());
            assert(toks_items(s, k) =~= toks(s[k]));
        } else {
            let rest = print_items(s, k + 1);
            assert(print_items(s, k) == p0 + seq![' '] + rest);
            assert(t[j + p0.len()] == print_items(s, k)[p0.len() as int]);
            assert(t.subrange(j, j + p0.len()) =~= p0) by {
                assert forall|m: int| 0 <= m < p0.len() implies t[j + m] == p0[m] by {
                    assert(t[j + m] == print_items(s, k)[m]);
                }
            }
            lemma_scan_form(s[k], t, j);
            lemma_skip_one(t, j + p0.len());
            assert(t.subrange(j + p0.len() + 1, j + p0.len() + 1 + rest.len()) =~= rest) by {
                assert forall|m: int| 0 <= m < rest.len() implies t[j + p0.len() + 1 + m] == rest[m] by {
                    assert(t[j + p0.len() + 1 + m] == print_items(s, k)[p0.len() + 1 + m]);
                }
            }
            lemma_scan_items(s, k + 1, t, j + p0.len() + 1);
            assert(toks_items(s, k) =~= toks(s[k]) + toks_items(s, k + 1));
        }
    } else {
        assert(toks_items(s, k) =~= Seq::<Seq<char>>::empty());
    }
}

proof fn lemma_scan_entries(es: Seq<(KeyV, Val)>, k: int, t: Seq<char>, j: int)
    requires
        0 <= k <= es.len(),
        readable_entries(es, k),
        0 <= j,
        j + print_entries(es, k).len() < t.len(),
        t.subrange(j, j + print_entries(es, k).len()) == print_entries(es, k),
        is_boundary(t[j + print_entries(es, k).len()]),
    ensures
        tokens_from(t, j) == toks_entries(es, k) + tokens_from(t, j + print_entries(es, k).len()),
    decreases es, es.len() - k,
{
    if k < es.len() {
        let pk = print_key(es[k].0);
        let pv = print_val(es[k].1);
        let e = pk + seq![' '] + pv;
        let whole = print_entries(es, k);
        assert(readable_key(es[k].0) && readable(es[k].1));
        assert(whole.subrange(0, e.len() as int) =~= e);
        assert(t.subrange(j, j + pk.len()) =~= pk) by {
            assert forall|m: int| 0 <= m < pk.len() implies t[j + m] == pk[m] by {
                assert(t[j + m] == whole[m]);
            }
        }
        assert(t[j + pk.len()] == whole[pk.len() as int]);
        match es[k].0 {
            KeyV::Str(s) => {
                lemma_string_token(t, j, s);
            },
            KeyV::Keyword(s) => {
                let kv = Val::Keyword(s);
                assert(readable(kv));
                lemma_atom_text(kv);
                lemma_atom_token(t, j, pk);
            },
        }
        lemma_skip_one(t, j + pk.len());
        let jv = j + pk.len() + 1;
        assert(t.subrange(jv, jv + pv.len()) =~= pv) by {
            assert forall|m: int| 0 <= m < pv.len() implies t[jv + m] == pv[m] by {
                assert(t[jv + m] == whole[pk.len() + 1 + m]);
            }
        }
        if k == es.len() - 1 {
            assert(whole == e);
            lemma_scan_form(es[k].1, t, jv);
            assert(toks_entries(es, k + 1) =~= Seq::<Seq<char>>::empty());
            assert(toks_entries(es, k) =~= seq![pk] + toks(es[k].1));
        } else {
            let rest = print_entries(es, k + 1);
            assert(whole == e + seq![' '] + rest);
            assert(t[jv + pv.len()] == whole[e.len() as int]);
            lemma_scan_form(es[k].1, t, jv);
            lemma_skip_one(t, jv + pv.len());
            assert(t.subrange(jv + pv.len() + 1, jv + pv.len() + 1 + rest.len()) =~= rest) by {
                assert forall|m: int| 0 <= m < rest.len() implies t[jv + pv.len() + 1 + m] == rest[m] by {
                    assert(t[jv + pv.len() + 1 + m] == whole[e.len() + 1 + m]);
                }
            }
            lemma_scan_entries(es, k + 1, t, jv + pv.len() + 1);
            assert(toks_entries(es, k) =~= seq![pk] + toks(es[k].1) + toks_entries(es, k + 1));
        }
    } else {
        assert(toks_entries(es, k) =~= Seq::<Seq<char>>::empty());
    }
}

/// The form that a map key reads back as.
pub open spec fn key_val(k: KeyV) -> Val {
    match k {
        KeyV::Str(s) => Val::Str(s),
        KeyV::Keyword(s) => Val::Keyword(s),
    }
}

/// The flat key/value sequence of the entries `es[i..]`.
pub open spec fn flat(es: Seq<(KeyV, Val)>, i: int) -> Seq<Val>
    decreases es.len() - i,
{
    if i < 0 || i >= es.len() {
        Seq::empty()
    } else {
        seq![key_val(es[i].0), es[i].1] + flat(es, i + 1)
    }
}

/// A readable atom reads back from its printed text, which starts with no bracket or sigil.
proof fn lemma_atom_value(v: Val)
    requires
        readable(v),
        !(v is List || v is Vector || v is HashMap),
    ensures
        atom_value(print_val(v)) == Ok::<Val, FormError>(v),
        print_val(v).len() > 0,
        ({
            let c = print_val(v)[0];
            c != '(' && c != '[' && c != '{' && c != ')' && c != ']' && c != '}' && c != '\''
                && c != '`' && c != '~' && c != '@' && c != '^'
        }),
{
    reveal_strlit("false");
    reveal_strlit("true");
    reveal_strlit("nil");
    let t = print_val(v);
    match v {
        Val::Str(s) => {
            assert(t == quoted(s));
            lemma_escape_scan(seq!['"'], s, seq!['"']);
            assert(seq!['"'] + escape(s) + seq!['"'] == t);
            assert(t[0] == '"');
            assert(string_literal(t) == Ok::<Seq<char>, FormError>(s));
            assert(t != "false"@ && t != "true"@ && t != "nil"@) by {
                assert("false"@[0] != '"' && "true"@[0] != '"' && "nil"@[0] != '"');
            }
            assert(t.len() > 0 && t[0] != ':');
            assert(t[0] == '"');
            assert(atom_value(t) == Ok::<Val, FormError>(Val::Str(s)));
        },
        Val::Integer(i) => {
            let n: nat = if i < 0 {
                (-i) as nat
            } else {
                i as nat
            };
            lemma_digits(n);
            let d = digits_of(n);
            if i < 0 {
                assert(t.drop_first() =~= d);
                assert(t[0] == '-');
            } else {
                assert(t == d);
            }
            assert(t != "false"@ && t != "true"@ && t != "nil"@);
            assert(decimal_value(t) == Some(i));
        },
        Val::Keyword(s) => {
            assert(t[0] == ':');
            assert(t != "false"@ && t != "true"@ && t != "nil"@);
            assert(t.drop_first() =~= s);
        },
        Val::Symbol(s) => {
            assert(is_atom_char(s[0]));
            assert(atom_value(t) == Ok::<Val, FormError>(v));
        },
        Val::Nil => {
            assert(t == "nil"@);
            assert(t != "false"@ && t != "true"@);
        },
        Val::Bool(b) => {
            assert("true"@ != "false"@);
        },
        _ => {},
    }
}

proof fn lemma_first_token(v: Val)
    requires
        readable(v),
    ensures
        toks(v).len() > 0,
        !is_closer(toks(v)[0]),
{
    let t = toks(v)[0];
    match v {
        Val::List(_) => {
            assert(t == seq!['(']);
        },
        Val::Vector(_) => {
            assert(t == seq!['[']);
        },
        Val::HashMap(_) => {
            assert(t == seq!['{']);
        },
        _ => {
            lemma_atom_value(v);
        },
    }
    assert(t.len() > 0);
    lemma_not_token(t, ')');
    lemma_not_token(t, ']');
    lemma_not_token(t, '}');
}

proof fn lemma_parse_form(v: Val, ts: Seq<Seq<char>>, p: int)
    requires
        readable(v),
        0 <= p,
        p + toks(v).len() <= ts.len(),
        ts.subrange(p, p + toks(v).len()) == toks(v),
    ensures
        parse_form(ts, p) == (Ok::<Val, FormError>(v), p + toks(v).len()),
    decreases v, 1int,
{
    let n = toks(v).len();
    assert(ts[p] == toks(v)[0]);
    match v {
        Val::List(items) => {
            let inner = toks_items(items, 0);
            assert(ts[p] == seq!['(']);
            assert(ts[p + 1 + inner.len()] == toks(v)[1 + inner.len() as int]);
            assert(ts.subrange(p + 1, p + 1 + inner.len()) =~= inner) by {
                assert forall|m: int| 0 <= m < inner.len() implies ts[p + 1 + m] == inner[m] by {
                    assert(ts[p + 1 + m] == toks(v)[1 + m]);
                }
            }
            lemma_parse_items(items, 0, ts, p + 1, ')', Seq::empty());
            assert(Seq::<Val>::empty() + items.subrange(0, items.len() as int) =~= items);
        },
        Val::Vector(items) => {
            let inner = toks_items(items, 0);
            assert(ts[p] == seq!['[']);
            lemma_not_token(ts[p], '(');
            assert(ts[p + 1 + inner.len()] == toks(v)[1 + inner.len() as int]);
            assert(ts.subrange(p + 1, p + 1 + inner.len()) =~= inner) by {
                assert forall|m: int| 0 <= m < inner.len() implies ts[p + 1 + m] == inner[m] by {
                    assert(ts[p + 1 + m] == toks(v)[1 + m]);
                }
            }
            lemma_parse_items(items, 0, ts, p + 1, ']', Seq::empty());
            assert(Seq::<Val>::empty() + items.subrange(0, items.len() as int) =~= items);
        },
        Val::HashMap(es) => {
            let inner = toks_entries(es, 0);
            assert(ts[p] == seq!['{']);
            lemma_not_token(ts[p], '(');
            lemma_not_token(ts[p], '[');
            assert(ts[p + 1 + inner.len()] == toks(v)[1 + inner.len() as int]);
            assert(ts.subrange(p + 1, p + 1 + inner.len()) =~= inner) by {
                assert forall|m: int| 0 <= m < inner.len() implies ts[p + 1 + m] == inner[m] by {
                    assert(ts[p + 1 + m] == toks(v)[1 + m]);
                }
            }
            lemma_parse_entries(es, 0, ts, p + 1, Seq::empty());
            assert(Seq::<Val>::empty() + flat(es, 0) =~= flat(es, 0));
            assert(es.subrange(0, 0) =~= Seq::<(KeyV, Val)>::empty());
            assert(flat(es, 0).subrange(0, flat(es, 0).len() as int) =~= flat(es, 0));
            lemma_map_entries(es, 0, flat(es, 0), 0);
            assert(es.subrange(0, es.len() as int) =~= es);
        },
        _ => {
            lemma_parse_atom(v, ts, p);
        },
    }
}

proof fn lemma_parse_atom(v: Val, ts: Seq<Seq<char>>, p: int)
    requires
        readable(v),
        !(v is List || v is Vector || v is HashMap),
        0 <= p < ts.len(),
        ts[p] == print_val(v),
    ensures
        parse_form(ts, p) == (Ok::<Val, FormError>(v), p + 1),
{
    match v {
        _ => {
            lemma_atom_value(v);
            let t = print_val(v);
            lemma_not_token(t, '(');
            lemma_not_token(t, '[');
            lemma_not_token(t, '{');
            lemma_not_token(t, ')');
            lemma_not_token(t, ']');
            lemma_not_token(t, '}');
            lemma_not_token(t, '\'');
            lemma_not_token(t, '`');
            lemma_not_token(t, '~');
            lemma_not_token(t, '@');
            lemma_not_token(t, '^');
        },
    }
}

proof fn lemma_parse_items(
    s: Seq<Val>,
    k: int,
    ts: Seq<Seq<char>>,
    q: int,
    close: char,
    acc: Seq<Val>,
)
    requires
        0 <= k <= s.len(),
        readable_items(s, k),
        0 <= q,
        q + toks_items(s, k).len() < ts.len(),
        ts.subrange(q, q + toks_items(s, k).len()) == toks_items(s, k),
        ts[q + toks_items(s, k).len()] == seq![close],
        close == ')' || close == ']' || close == '}',
    ensures
        parse_items(ts, q, close, acc) == (Ok::<Seq<Val>, FormError>(
            acc + s.subrange(k, s.len() as int),
        ), q + toks_items(s, k).len() + 1),
    decreases s, s.len() - k,
{
    if k == s.len() {
        assert(toks_items(s, k).len() == 0);
        assert(acc + s.subrange(k, s.len() as int) =~= acc);
    } else {
        let a = toks(s[k]);
        let rest = toks_items(s, k + 1);
        assert(toks_items(s, k) == a + rest);
        lemma_first_token(s[k]);
        assert(toks_items(s, k)[0] == a[0]);
        assert(ts[q] == ts.subrange(q, q + toks_items(s, k).len())[0]);
        assert(ts[q] == a[0]);
        assert(ts.subrange(q, q + a.len()) =~= a) by {
            assert forall|m: int| 0 <= m < a.len() implies ts[q + m] == a[m] by {
                assert(ts[q + m] == toks_items(s, k)[m]);
            }
        }
        lemma_parse_form(s[k], ts, q);
        assert(ts.subrange(q + a.len(), q + a.len() + rest.len()) =~= rest) by {
            assert forall|m: int| 0 <= m < rest.len() implies ts[q + a.len() + m] == rest[m] by {
                assert(ts[q + a.len() + m] == toks_items(s, k)[a.len() + m]);
            }
        }
        lemma_parse_items(s, k + 1, ts, q + a.len(), close, acc.push(s[k]));
        assert(acc.push(s[k]) + s.subrange(k + 1, s.len() as int) =~= acc + s.subrange(k, s.len() as int));
    }
}

proof fn lemma_parse_entries(es: Seq<(KeyV, Val)>, k: int, ts: Seq<Seq<char>>, q: int, acc: Seq<Val>)
    requires
        0 <= k <= es.len(),
        readable_entries(es, k),
        0 <= q,
        q + toks_entries(es, k).len() < ts.len(),
        ts.subrange(q, q + toks_entries(es, k).len()) == toks_entries(es, k),
        ts[q + toks_entries(es, k).len()] == seq!['}'],
    ensures
        parse_items(ts, q, '}', acc) == (Ok::<Seq<Val>, FormError>(acc + flat(es, k)), q
            + toks_entries(es, k).len() + 1),
    decreases es, es.len() - k,
{
    if k == es.len() {
        assert(toks_entries(es, k).len() == 0);
        assert(acc + flat(es, k) =~= acc);
    } else {
        let kv = key_val(es[k].0);
        let b = toks(es[k].1);
        let rest = toks_entries(es, k + 1);
        let whole = toks_entries(es, k);
        assert(whole == seq![print_key(es[k].0)] + b + rest);
        assert(toks(kv) == seq![print_key(es[k].0)]);
        assert(readable(kv));
        lemma_first_token(kv);
        lemma_first_token(es[k].1);
        assert(ts[q] == ts.subrange(q, q + whole.len())[0]);
        assert(ts[q] == whole[0]);
        assert(ts[q] == print_val(kv));
        lemma_parse_atom(kv, ts, q);
        assert(ts[q + 1] == ts.subrange(q, q + whole.len())[1]);
        assert(ts[q + 1] == whole[1]);
        assert(ts.subrange(q + 1, q + 1 + b.len()) =~= b) by {
            assert forall|m: int| 0 <= m < b.len() implies ts[q + 1 + m] == b[m] by {
                assert(ts[q + 1 + m] == whole[1 + m]);
            }
        }
        lemma_parse_form(es[k].1, ts, q + 1);
        assert(ts.subrange(q + 1 + b.len(), q + 1 + b.len() + rest.len()) =~= rest) by {
            assert forall|m: int| 0 <= m < rest.len() implies ts[q + 1 + b.len() + m] == rest[m] by {
                assert(ts[q + 1 + b.len() + m] == whole[1 + b.len() + m]);
            }
        }
        lemma_parse_entries(es, k + 1, ts, q + 1 + b.len(), acc.push(kv).push(es[k].1));
        assert(acc.push(kv).push(es[k].1) + flat(es, k + 1) =~= acc + flat(es, k));
        assert(b[0] == whole[1]);
        assert(!is_closer(ts[q + 1]));
        assert(parse_items(ts, q + 1, '}', acc.push(kv)) == (Ok::<Seq<Val>, FormError>(acc + flat(es, k)), q
            + toks_entries(es, k).len() + 1));
    }
}

proof fn lemma_map_entries(es: Seq<(KeyV, Val)>, k: int, items: Seq<Val>, i: int)
    requires
        0 <= k <= es.len(),
        0 <= i <= items.len(),
        keys_unique(es),
        items.subrange(i, items.len() as int) == flat(es, k),
    ensures
        entries_from(items, i, es.subrange(0, k)) == Ok::<Seq<(KeyV, Val)>, FormError>(es),
    decreases es.len() - k,
{
    if k == es.len() {
        assert(flat(es, k).len() == 0);
        assert(es.subrange(0, k) =~= es);
    } else {
        let f = flat(es, k);
        assert(f == seq![key_val(es[k].0), es[k].1] + flat(es, k + 1));
        let tail = items.subrange(i, items.len() as int);
        assert(tail.len() == f.len());
        assert(items[i] == tail[0]);
        assert(items[i + 1] == tail[1]);
        assert(items[i] == f[0]);
        assert(items[i + 1] == f[1]);
        assert(key_of(items[i]) == Some(es[k].0));
        let pre = es.subrange(0, k);
        lemma_key_pos(pre, es[k].0);
        if key_pos(pre, es[k].0) >= 0 {
            assert(pre[key_pos(pre, es[k].0)].0 == es[k].0);
        }
        assert(pre.push((es[k].0, es[k].1)) =~= es.subrange(0, k + 1));
        assert(items.subrange(i + 2, items.len() as int) =~= flat(es, k + 1)) by {
            assert forall|m: int| 0 <= m < items.len() - i - 2 implies items[i + 2 + m] == #[trigger] flat(es, k + 1)[m] by {
                assert(items[i + 2 + m] == tail[2 + m]);
            }
        }
        lemma_map_entries(es, k + 1, items, i + 2);
    }
}

/// Printing a readable form and reading the text back gives that one form again; so
/// printing what was read gives the printed text again.
pub proof fn law_round_trip(v: Val)
    requires
        readable(v),
    ensures
        parse_form(tokens(print_val(v)), 0) == (Ok::<Val, FormError>(v), toks(v).len() as int),
        parse_rest(tokens(print_val(v)), 0, Seq::empty()) == (Ok::<Seq<Val>, FormError>(
            seq![v],
        ), toks(v).len() as int),
{
    let t = print_val(v);
    assert(t.subrange(0, t.len() as int) =~= t);
    lemma_scan_form(v, t, 0);
    assert(skip_separators(t, t.len() as int) == t.len());
    assert(tokens_from(t, t.len() as int) == Seq::<Seq<char>>::empty());
    let ts = tokens(t);
    assert(ts =~= toks(v));
    assert(ts.subrange(0, ts.len() as int) =~= ts);
    lemma_parse_form(v, ts, 0);
    assert(parse_rest(ts, ts.len() as int, seq![v]) == (Ok::<Seq<Val>, FormError>(seq![v]), ts.len() as int));
    assert(Seq::<Val>::empty().push(v) =~= seq![v]);
}

/// The printed text of a readable form is not empty and does not start with `@`.
proof fn lemma_print_start(v: Val)
    requires
        readable(v),
    ensures
        print_val(v).len() > 0,
        print_val(v)[0] != '@',
{
    match v {
        Val::List(_) => {},
        Val::Vector(_) => {},
        Val::HashMap(_) => {},
        _ => {
            lemma_atom_value(v);
        },
    }
}

/// The name that a reader-macro sigil stands for is a readable symbol.
proof fn lemma_macro_symbol(t: Seq<char>)
    requires
        macro_name(t) is Some,
    ensures
        readable(Val::Symbol(macro_name(t)->0)),
{
    reveal_strlit("quote");
    reveal_strlit("quasiquote");
    reveal_strlit("unquote");
    reveal_strlit("splice-unquote");
    reveal_strlit("deref");
    reveal_strlit("true");
    reveal_strlit("false");
    reveal_strlit("nil");
    let s = macro_name(t)->0;
    assert(s.len() > 1);
    assert forall|k: int| 0 <= k < s.len() implies is_atom_char(#[trigger] s[k]) by {}
    assert(!is_digit(s[0]) && s[0] != '-' && s[0] != '+');
    assert(!all_digits(s));
}

/// A reader-macro sigil before a form reads as the call of the sigil's name on that form:
/// `'x` as `(quote x)`, `` `x `` as `(quasiquote x)`, `~x` as `(unquote x)`, `~@x` as
/// `(splice-unquote x)` and `@x` as `(deref x)`.
pub proof fn law_reader_macro(sigil: Seq<char>, x: Val)
    requires
        readable(x),
        macro_name(sigil) is Some,
    ensures
        parse_rest(tokens(sigil + print_val(x)), 0, Seq::empty()).0 == parse_rest(
            tokens(print_val(Val::List(seq![Val::Symbol(macro_name(sigil)->0), x]))),
            0,
            Seq::empty(),
        ).0,
{
    let name = macro_name(sigil)->0;
    let call = Val::List(seq![Val::Symbol(name), x]);
    lemma_macro_symbol(sigil);
    assert(readable_items(seq![Val::Symbol(name), x], 2));
    assert(readable_items(seq![Val::Symbol(name), x], 1));
    assert(readable(call));
    law_round_trip(call);
    let p = print_val(x);
    let t = sigil + p;
    let k = sigil.len() as int;
    lemma_print_start(x);
    assert(t[k] == p[0]);
    if sigil == seq!['~', '@'] {
        assert(skip_separators(t, 0) == 0);
        assert(token_end(t, 0) == 2);
        assert(t.subrange(0, 2) =~= sigil);
    } else {
        assert(sigil.len() == 1);
        lemma_single_token(t, 0);
        assert(sigil =~= seq![t[0]]);
    }
    assert(t.subrange(k, t.len() as int) =~= p);
    lemma_scan_form(x, t, k);
    assert(skip_separators(t, t.len() as int) == t.len());
    let ts = tokens(t);
    assert(ts =~= seq![sigil] + toks(x));
    lemma_first_token(x);
    assert(ts.subrange(1, ts.len() as int) =~= toks(x));
    lemma_parse_form(x, ts, 1);
    lemma_not_token(sigil, '(');
    lemma_not_token(sigil, '[');
    lemma_not_token(sigil, '{');
    lemma_not_token(sigil, ')');
    lemma_not_token(sigil, ']');
    lemma_not_token(sigil, '}');
    assert(sigil[0] != '(' && sigil[0] != '[' && sigil[0] != '{' && sigil[0] != ')' && sigil[0]
        != ']' && sigil[0] != '}');
    assert(parse_form(ts, 0) == (Ok::<Val, FormError>(call), ts.len() as int));
    assert(Seq::<Val>::empty().push(call) =~= seq![call]);
    assert(parse_rest(ts, ts.len() as int, seq![call]) == (Ok::<Seq<Val>, FormError>(seq![call]), ts.len() as int));
}

proof fn lemma_meta_tokens(m: Val, x: Val)
    requires
        readable(m),
        readable(x),
    ensures
        tokens(seq!['^'] + print_val(m) + seq![' '] + print_val(x)) == seq![seq!['^']] + toks(m) + toks(x),
{
    let pm = print_val(m);
    let px = print_val(x);
    let t = seq!['^'] + pm + seq![' '] + px;
    let a = pm.len() as int;
    lemma_single_token(t, 0);
    assert(t.subrange(1, 1 + a) =~= pm);
    assert(t[1 + a] == ' ');
    lemma_scan_form(m, t, 1);
    lemma_skip_one(t, 1 + a);
    assert(t.subrange(2 + a, t.len() as int) =~= px);
    lemma_scan_form(x, t, 2 + a);
    assert(skip_separators(t, t.len() as int) == t.len());
    assert(tokens(t) =~= seq![seq!['^']] + toks(m) + toks(x));
}

/// `^m x` reads as `(with-meta x m)`.
pub proof fn law_meta_macro(m: Val, x: Val)
    requires
        readable(m),
        readable(x),
    ensures
        parse_rest(tokens(seq!['^'] + print_val(m) + seq![' '] + print_val(x)), 0, Seq::empty()).0
            == parse_rest(
            tokens(print_val(Val::List(seq![Val::Symbol("with-meta"@), x, m]))),
            0,
            Seq::empty(),
        ).0,
{
    reveal_strlit("with-meta");
    reveal_strlit("true");
    reveal_strlit("false");
    reveal_strlit("nil");
    let head = Val::Symbol("with-meta"@);
    let items = seq![head, x, m];
    let call = Val::List(items);
    assert forall|k: int| 0 <= k < "with-meta"@.len() implies is_atom_char(#[trigger] "with-meta"@[k]) by {}
    assert(!is_digit("with-meta"@[0]));
    assert(!all_digits("with-meta"@));
    assert(readable(head));
    assert(readable_items(items, 3));
    assert(readable_items(items, 2));
    assert(readable_items(items, 1));
    assert(readable(call));
    law_round_trip(call);
    lemma_meta_tokens(m, x);
    let ts = seq![seq!['^']] + toks(m) + toks(x);
    lemma_first_token(m);
    lemma_first_token(x);
    let b = toks(m).len() as int;
    assert(ts.subrange(1, 1 + b) =~= toks(m));
    assert(ts.subrange(1 + b, ts.len() as int) =~= toks(x));
    lemma_parse_form(m, ts, 1);
    lemma_parse_form(x, ts, 1 + b);
    lemma_not_token(ts[0], '(');
    lemma_not_token(ts[0], '[');
    lemma_not_token(ts[0], '{');
    lemma_not_token(ts[0], ')');
    lemma_not_token(ts[0], ']');
    lemma_not_token(ts[0], '}');
    lemma_not_token(ts[0], '\'');
    lemma_not_token(ts[0], '`');
    lemma_not_token(ts[0], '~');
    lemma_not_token(ts[0], '@');
    assert(parse_rest(ts, ts.len() as int, seq![m, x]) == (Ok::<Seq<Val>, FormError>(seq![m, x]), ts.len() as int));
    assert(Seq::<Val>::empty().push(m) =~= seq![m]);
    assert(seq![m].push(x) =~= seq![m, x]);
    assert(parse_rest(ts, 1 + b, seq![m]) == (Ok::<Seq<Val>, FormError>(seq![m, x]), ts.len() as int));
    assert(parse_rest(ts, 1, Seq::empty()) == (Ok::<Seq<Val>, FormError>(seq![m, x]), ts.len() as int));
    assert(parse_form(ts, 0) == (Ok::<Val, FormError>(call), ts.len() as int));
    assert(Seq::<Val>::empty().push(call) =~= seq![call]);
    assert(parse_rest(ts, ts.len() as int, seq![call]) == (Ok::<Seq<Val>, FormError>(seq![call]), ts.len() as int));
    assert(parse_rest(ts, 0, Seq::empty()) == (Ok::<Seq<Val>, FormError>(seq![call]), ts.len() as int));
}

/// Every token has the shape of a token.
pub open spec fn shaped(ts: Seq<Seq<char>>) -> bool {
    forall|i: int| 0 <= i < ts.len() ==> token_shape(#[trigger] ts[i])
}

/// Every form of `s` is readable.
pub open spec fn all_readable(s: Seq<Val>) -> bool {
    forall|i: int| 0 <= i < s.len() ==> #[trigger] readable(s[i])
}

/// Every entry of `es` has a readable key and value.
pub open spec fn all_entries_readable(es: Seq<(KeyV, Val)>) -> bool {
    forall|i: int| 0 <= i < es.len() ==> readable_key(#[trigger] es[i].0) && readable(es[i].1)
}

proof fn lemma_all_items(s: Seq<Val>, k: int)
    requires
        all_readable(s),
        0 <= k,
    ensures
        readable_items(s, k),
    decreases s.len() - k,
{
    if k < s.len() {
        assert(readable(s[k]));
        lemma_all_items(s, k + 1);
    }
}

proof fn lemma_all_entries(es: Seq<(KeyV, Val)>, k: int)
    requires
        all_entries_readable(es),
        0 <= k,
    ensures
        readable_entries(es, k),
    decreases es.len() - k,
{
    if k < es.len() {
        assert(readable_key(es[k].0) && readable(es[k].1));
        lemma_all_entries(es, k + 1);
    }
}

proof fn lemma_with_meta_symbol()
    ensures
        readable(Val::Symbol("with-meta"@)),
{
    reveal_strlit("with-meta");
    reveal_strlit("true");
    reveal_strlit("false");
    reveal_strlit("nil");
    assert forall|k: int| 0 <= k < "with-meta"@.len() implies is_atom_char(#[trigger] "with-meta"@[k]) by {}
    assert(!is_digit("with-meta"@[0]));
    assert(!all_digits("with-meta"@));
}

proof fn lemma_atom_readable(t: Seq<char>)
    requires
        token_shape(t),
        !is_token(t, '(') && !is_token(t, '[') && !is_token(t, '{'),
        !is_closer(t),
        macro_name(t) is None,
        !is_token(t, '^'),
        atom_value(t) is Ok,
    ensures
        readable(atom_value(t)->Ok_0),
{
    reveal_strlit("false");
    reveal_strlit("true");
    reveal_strlit("nil");
    if t.len() == 1 && is_single(t[0]) {
        assert(t =~= seq![t[0]]);
    }
    if t == seq!['~', '@'] {
        assert(macro_name(t) is Some);
    }
    if t.len() > 0 && t[0] == ':' && t.len() > 1 {
        assert forall|k: int| 0 <= k < t.drop_first().len() implies is_atom_char(
            #[trigger] t.drop_first()[k],
        ) by {
            assert(t.drop_first()[k] == t[k + 1]);
        }
    }
}

proof fn lemma_entries_readable(items: Seq<Val>, i: int, acc: Seq<(KeyV, Val)>)
    requires
        all_readable(items),
        all_entries_readable(acc),
    ensures
        entries_from(items, i, acc) matches Ok(es) ==> all_entries_readable(es),
    decreases items.len() - i,
{
    if 0 <= i && i + 1 < items.len() {
        match key_of(items[i]) {
            Some(k) => {
                assert(readable(items[i]));
                assert(readable(items[i + 1]));
                assert(readable_key(k));
                let next = crate::reader::assoc(acc, k, items[i + 1]);
                lemma_key_pos(acc, k);
                assert(all_entries_readable(next));
                lemma_entries_readable(items, i + 2, next);
            },
            None => {},
        }
    }
}

proof fn lemma_parse_readable(ts: Seq<Seq<char>>, p: int)
    requires
        shaped(ts),
    ensures
        parse_form(ts, p).0 matches Ok(v) ==> readable(v),
    decreases ts.len() - p, 0int,
{
    if 0 <= p < ts.len() {
        let t = ts[p];
        if is_token(t, '(') || is_token(t, '[') || is_token(t, '{') {
            let close = closer_of(t);
            lemma_items_readable(ts, p + 1, close, Seq::empty());
            match parse_items(ts, p + 1, close, Seq::empty()).0 {
                Ok(items) => {
                    lemma_all_items(items, 0);
                    if close == '}' {
                        lemma_entries_readable(items, 0, Seq::empty());
                        lemma_entries_unique(items, 0, Seq::empty());
                        match map_value(items) {
                            Ok(Val::HashMap(es)) => {
                                lemma_all_entries(es, 0);
                            },
                            _ => {},
                        }
                    }
                },
                Err(_) => {},
            }
        } else if is_closer(t) {
        } else if macro_name(t) is Some {
            if p + 1 < ts.len() {
                lemma_parse_readable(ts, p + 1);
                match parse_form(ts, p + 1).0 {
                    Ok(v) => {
                        lemma_macro_symbol(t);
                        let items = seq![Val::Symbol(macro_name(t)->0), v];
                        assert(readable_items(items, 2));
                        assert(readable_items(items, 1));
                    },
                    Err(_) => {},
                }
            }
        } else if is_token(t, '^') {
            if p + 1 < ts.len() {
                lemma_rest_readable(ts, p + 1, Seq::empty());
                match parse_rest(ts, p + 1, Seq::empty()).0 {
                    Ok(items) => {
                        if items.len() == 2 {
                            lemma_with_meta_symbol();
                            assert(readable(items[0]) && readable(items[1]));
                            let call = seq![Val::Symbol("with-meta"@), items[1], items[0]];
                            assert(readable_items(call, 3));
                            assert(readable_items(call, 2));
                            assert(readable_items(call, 1));
                        }
                    },
                    Err(_) => {},
                }
            }
        } else {
            assert(token_shape(t));
            if atom_value(t) is Ok {
                lemma_atom_readable(t);
            }
        }
    }
}

proof fn lemma_items_readable(ts: Seq<Seq<char>>, q: int, close: char, acc: Seq<Val>)
    requires
        shaped(ts),
        all_readable(acc),
    ensures
        parse_items(ts, q, close, acc).0 matches Ok(s) ==> all_readable(s),
    decreases ts.len() - q, 1int,
{
    if 0 <= q < ts.len() && !is_closer(ts[q]) {
        lemma_parse_readable(ts, q);
        match parse_form(ts, q) {
            (Ok(v), e) => {
                if q < e <= ts.len() {
                    assert(all_readable(acc.push(v))) by {
                        assert forall|i: int| 0 <= i < acc.push(v).len() implies #[trigger] readable(acc.push(v)[i]) by {
                            if i < acc.len() {
                                assert(acc.push(v)[i] == acc[i]);
                            }
                        }
                    }
                    lemma_items_readable(ts, e, close, acc.push(v));
                }
            },
            _ => {},
        }
    }
}

proof fn lemma_rest_readable(ts: Seq<Seq<char>>, q: int, acc: Seq<Val>)
    requires
        shaped(ts),
        all_readable(acc),
    ensures
        parse_rest(ts, q, acc).0 matches Ok(s) ==> all_readable(s),
    decreases ts.len() - q, 1int,
{
    if 0 <= q < ts.len() {
        lemma_parse_readable(ts, q);
        match parse_form(ts, q) {
            (Ok(v), e) => {
                if q < e <= ts.len() {
                    assert(all_readable(acc.push(v))) by {
                        assert forall|i: int| 0 <= i < acc.push(v).len() implies #[trigger] readable(acc.push(v)[i]) by {
                            if i < acc.len() {
                                assert(acc.push(v)[i] == acc[i]);
                            }
                        }
                    }
                    lemma_rest_readable(ts, e, acc.push(v));
                }
            },
            _ => {},
        }
    }
}

/// Every form read from a text is readable: printing it and reading the printed text back
/// gives that one form again, so printing it again gives the same text.
pub proof fn law_read_print_round_trip(text: Seq<char>, p: int)
    requires
        0 <= p < tokens(text).len(),
        parse_form(tokens(text), p).0 is Ok,
    ensures
        ({
            let v = parse_form(tokens(text), p).0->Ok_0;
            &&& readable(v)
            &&& parse_form(tokens(print_val(v)), 0) == (Ok::<Val, FormError>(v), toks(v).len() as int)
            &&& parse_rest(tokens(print_val(v)), 0, Seq::empty()) == (Ok::<Seq<Val>, FormError>(
                seq![v],
            ), toks(v).len() as int)
        }),
{
    lemma_token_shapes(text, 0);
    lemma_parse_readable(tokens(text), p);
    law_round_trip(parse_form(tokens(text), p).0->Ok_0);
}

} // verus!
