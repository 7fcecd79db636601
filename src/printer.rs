use vstd::prelude::*;
use crate::text::{chars_of, string_from};
use crate::types::{
    entries_view, form_view, forms_view, lemma_list_view, lemma_map_view, Form, KeyV, MapKey, Val,
};

verus! {

broadcast use vstd::seq::axiom_seq_index_decreases, vstd::std_specs::vec::axiom_vec_index_decreases;

/// The character of a decimal digit.
pub open spec fn digit_char(d: int) -> char {
    (d + '0' as int) as char
}

/// The decimal digits of a natural number, without leading zeros.
pub open spec fn digits_of(n: nat) -> Seq<char>
    decreases n,
{
    if n < 10 {
        seq![digit_char(n as int)]
    } else {
        digits_of(n / 10).push(digit_char((n % 10) as int))
    }
}

/// The decimal text of an integer.
pub open spec fn decimal(i: int) -> Seq<char> {
    if i < 0 {
        seq!['-'] + digits_of((-i) as nat)
    } else {
        digits_of(i as nat)
    }
}

/// The text of a string with `\`, `"` and line breaks escaped.
pub open spec fn escape(s: Seq<char>) -> Seq<char>
    decreases s.len(),
{
    if s.len() == 0 {
        Seq::empty()
    } else {
        let c = s[0];
        let e = if c == '\n' {
            seq!['\\', 'n']
        } else if c == '"' || c == '\\' {
            seq!['\\', c]
        } else {
            seq![c]
        };
        e + escape(s.drop_first())
    }
}

/// A string as a double-quoted literal.
pub open spec fn quoted(s: Seq<char>) -> Seq<char> {
    seq!['"'] + escape(s) + seq!['"']
}

/// The text of a map key.
pub open spec fn print_key(k: KeyV) -> Seq<char> {
    match k {
        KeyV::Str(s) => quoted(s),
        KeyV::Keyword(s) => seq![':'] + s,
    }
}

/// The canonical text of a form.
pub open spec fn print_val(v: Val) -> Seq<char>
    decreases v, 1int,
{
    match v {
        Val::Nil => "nil"@,
        Val::Bool(b) => if b {
            "true"@
        } else {
            "false"@
        },
        Val::Integer(i) => decimal(i),
        Val::Str(s) => quoted(s),
        Val::Keyword(s) => seq![':'] + s,
        Val::Symbol(s) => s,
        Val::List(items) => seq!['('] + print_items(items, 0) + seq![')'],
        Val::Vector(items) => seq!['['] + print_items(items, 0) + seq![']'],
        Val::HashMap(es) => seq!['{'] + print_entries(es, 0) + seq!['}'],
        Val::Procedure(_) => "#<function>"@,
    }
}

/// The texts of `s[i..]`, joined by single spaces.
pub open spec fn print_items(s: Seq<Val>, i: int) -> Seq<char>
    decreases s, s.len() - i,
{
    if i < 0 || i >= s.len() {
        Seq::empty()
    } else if i == s.len() - 1 {
        print_val(s[i])
    } else {
        print_val(s[i]) + seq![' '] + print_items(s, i + 1)
    }
}

/// The texts of the entries `es[i..]`, key then value, joined by single spaces.
pub open spec fn print_entries(es: Seq<(KeyV, Val)>, i: int) -> Seq<char>
    decreases es, es.len() - i,
{
    if i < 0 || i >= es.len() {
        Seq::empty()
    } else {
        let e = print_key(es[i].0) + seq![' '] + print_val(es[i].1);
        if i == es.len() - 1 {
            e
        } else {
            e + seq![' '] + print_entries(es, i + 1)
        }
    }
}

fn push_all(out: &mut Vec<char>, s: &Vec<char>)
    ensures
        final(out)@ == old(out)@ + s@,
{
    let ghost start = out@;
    let mut k: usize = 0;
    while k < s.len()
        invariant
            k <= s.len(),
            out@ == start + s@.subrange(0, k as int),
        decreases s.len() - k,
    {
        out.push(s[k]);
        k = k + 1;
        proof {
            assert(out@ =~= start + s@.subrange(0, k as int));
        }
    }
    proof {
        assert(s@.subrange(0, k as int) =~= s@);
    }
}

fn push_str(out: &mut Vec<char>, s: &str)
    ensures
        final(out)@ == old(out)@ + s@,
{
    let c = chars_of(s);
    push_all(out, &c);
}

fn write_decimal(out: &mut Vec<char>, i: i64)
    ensures
        final(out)@ == old(out)@ + decimal(i as int),
{
    let m: u64 = if i < 0 {
        (-(i as i128)) as u64
    } else {
        i as u64
    };
    let ghost n = m as nat;
    let mut q: u64 = m;
    let mut acc: Vec<char> = Vec::new();
    loop
        invariant_except_break
            digits_of(n) == digits_of(q as nat) + acc@,
        invariant
            n == m as nat,
        ensures
            digits_of(n) == acc@,
        decreases q,
    {
        if q < 10 {
            let ghost before = acc@;
            acc.insert(0, ((q as u8) + 48u8) as char);
            proof {
                assert(acc@ =~= seq![digit_char(q as int)] + before);
            }
            break;
        }
        let ghost before = acc@;
        acc.insert(0, (((q % 10) as u8) + 48u8) as char);
        proof {
            assert(acc@ =~= seq![digit_char((q % 10) as int)] + before);
            assert(digits_of(q as nat) == digits_of((q / 10) as nat).push(digit_char((q % 10) as int)));
            assert(digits_of((q / 10) as nat) + acc@ =~= digits_of(q as nat) + before);
        }
        q = q / 10;
    }
    if i < 0 {
        out.push('-');
    }
    push_all(out, &acc);
    proof {
        if i < 0 {
            assert(out@ =~= old(out)@ + decimal(i as int));
        }
    }
}

fn write_quoted(out: &mut Vec<char>, s: &str)
    ensures
        final(out)@ == old(out)@ + quoted(s@),
{
    let c = chars_of(s);
    let ghost start = out@;
    out.push('"');
    let mut k: usize = 0;
    proof {
        assert(c@.subrange(0, c.len() as int) =~= c@);
    }
    while k < c.len()
        invariant
            k <= c.len(),
            out@ + escape(c@.subrange(k as int, c.len() as int)) == start + seq!['"'] + escape(c@),
        decreases c.len() - k,
    {
        let ghost before = out@;
        let ghost rest = c@.subrange(k as int, c.len() as int);
        let ch = c[k];
        if ch == '\n' {
            out.push('\\');
            out.push('n');
        } else if ch == '"' || ch == '\\' {
            out.push('\\');
            out.push(ch);
        } else {
            out.push(ch);
        }
        k = k + 1;
        proof {
            assert(rest.drop_first() =~= c@.subrange(k as int, c.len() as int));
            assert(rest[0] == ch);
            assert(out@ + escape(c@.subrange(k as int, c.len() as int)) =~= before + escape(rest));
        }
    }
    proof {
        assert(c@.subrange(k as int, c.len() as int) =~= Seq::<char>::empty());
    }
    out.push('"');
    proof {
        assert(out@ =~= old(out)@ + quoted(s@));
    }
}

fn write_form(out: &mut Vec<char>, f: &Form)
    ensures
        final(out)@ == old(out)@ + print_val(f@),
    decreases f, 1int,
{
    match f {
        Form::Nil => push_str(out, "nil"),
        Form::Bool(b) => if *b {
            push_str(out, "true")
        } else {
            push_str(out, "false")
        },
        Form::Integer(i) => write_decimal(out, *i),
        Form::String(s) => write_quoted(out, s.as_str()),
        Form::Keyword(s) => {
            out.push(':');
            push_str(out, s.as_str());
            proof {
                assert(final(out)@ =~= old(out)@ + print_val(f@));
            }
        },
        Form::Symbol(s) => push_str(out, s.as_str()),
        Form::List(v) => {
            proof {
                lemma_list_view(*v);
            }
            out.push('(');
            write_items(out, v);
            out.push(')');
            proof {
                assert(final(out)@ =~= old(out)@ + print_val(f@));
            }
        },
        Form::Vector(v) => {
            proof {
                lemma_list_view(*v);
            }
            out.push('[');
            write_items(out, v);
            out.push(']');
            proof {
                assert(final(out)@ =~= old(out)@ + print_val(f@));
            }
        },
        Form::HashMap(es) => {
            proof {
                lemma_map_view(*es);
            }
            out.push('{');
            write_entries(out, es);
            out.push('}');
            proof {
                assert(final(out)@ =~= old(out)@ + print_val(f@));
            }
        },
        Form::Procedure(_) => push_str(out, "#<function>"),
    }
}

fn write_items(out: &mut Vec<char>, v: &Vec<Form>)
    ensures
        final(out)@ == old(out)@ + print_items(forms_view(v@), 0),
    decreases v, 0int,
{
    let ghost s = forms_view(v@);
    let ghost start = out@;
    let mut i: usize = 0;
    proof {
        assert(start + print_items(s, 0) =~= out@ + print_items(s, 0));
    }
    while i < v.len()
        invariant
            i <= v.len(),
            s == forms_view(v@),
            out@ + (if i > 0 && i < v.len() { seq![' '] } else { Seq::empty() }) + print_items(s, i as int) == start + print_items(s, 0),
        decreases v.len() - i,
    {
        let ghost before = out@;
        if i > 0 {
            out.push(' ');
        }
        write_form(out, &v[i]);
        i = i + 1;
        proof {
            assert(s[i - 1] == form_view(v@[i - 1]));
            if i < v.len() {
                assert(out@ + seq![' '] + print_items(s, i as int) =~= before + (if i - 1 > 0 { seq![' '] } else { Seq::empty() }) + print_items(s, i - 1));
            } else {
                assert(out@ + Seq::empty() + print_items(s, i as int) =~= before + (if i - 1 > 0 { seq![' '] } else { Seq::empty() }) + print_items(s, i - 1));
            }
        }
    }
    proof {
        assert(out@ + Seq::<char>::empty() + print_items(s, i as int) =~= out@);
    }
}

fn write_entry(out: &mut Vec<char>, es: &Vec<(MapKey, Form)>, i: usize)
    requires
        i < es.len(),
    ensures
        final(out)@ == old(out)@ + print_key(es@[i as int].0@) + seq![' '] + print_val(es@[i as int].1@),
    decreases es, 0int,
{
    match &es[i].0 {
        MapKey::Str(k) => write_quoted(out, k.as_str()),
        MapKey::Keyword(k) => {
            out.push(':');
            push_str(out, k.as_str());
        },
    }
    let ghost mid = out@;
    proof {
        assert(mid =~= old(out)@ + print_key(es@[i as int].0@));
    }
    out.push(' ');
    proof {
        assert(decreases_to!(*es => es[i as int]));
        assert(decreases_to!(es[i as int] => es[i as int].1));
    }
    write_form(out, &es[i].1);
    proof {
        assert(final(out)@ =~= old(out)@ + print_key(es@[i as int].0@) + seq![' '] + print_val(es@[i as int].1@));
    }
}

fn write_entries(out: &mut Vec<char>, es: &Vec<(MapKey, Form)>)
    ensures
        final(out)@ == old(out)@ + print_entries(entries_view(es@), 0),
    decreases es, 1int,
{
    let ghost s = entries_view(es@);
    let ghost start = out@;
    let mut i: usize = 0;
    while i < es.len()
        invariant
            i <= es.len(),
            s == entries_view(es@),
            out@ + (if i > 0 && i < es.len() { seq![' '] } else { Seq::empty() }) + print_entries(s, i as int) == start + print_entries(s, 0),
        decreases es.len() - i,
    {
        let ghost before = out@;
        if i > 0 {
            out.push(' ');
        }
        write_entry(out, es, i);
        i = i + 1;
        proof {
            assert(s[i - 1] == (es@[i - 1].0@, form_view(es@[i - 1].1)));
            if i < es.len() {
                assert(out@ + seq![' '] + print_entries(s, i as int) =~= before + (if i - 1 > 0 { seq![' '] } else { Seq::empty() }) + print_entries(s, i - 1));
            } else {
                assert(out@ + Seq::empty() + print_entries(s, i as int) =~= before + (if i - 1 > 0 { seq![' '] } else { Seq::empty() }) + print_entries(s, i - 1));
            }
        }
    }
    proof {
        assert(out@ + Seq::<char>::empty() + print_entries(s, i as int) =~= out@);
    }
}

/// The canonical text of a form.
pub fn format(form: &Form) -> (r: String)
    ensures
        r@ == print_val(form@),
{
    let mut out: Vec<char> = Vec::new();
    write_form(&mut out, form);
    proof {
        assert(out@ =~= print_val(form@));
    }
    string_from(&out)
}

/// A string as a double-quoted literal, with `\`, `"` and line breaks escaped.
pub fn format_string(source: &str) -> (r: String)
    ensures
        r@ == quoted(source@),
{
    let mut out: Vec<char> = Vec::new();
    write_quoted(&mut out, source);
    proof {
        assert(out@ =~= quoted(source@));
    }
    string_from(&out)
}

} // verus!
