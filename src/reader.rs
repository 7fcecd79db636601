use vstd::prelude::*;
use crate::text::{chars_of, i64_value, parse_i64, same_text, string_from};
use crate::tokenizer::{slice_of, tokenize_chars, tokens};
use crate::types::{
    entries_view, form_view, forms_view, lemma_list_view, lemma_map_view, result_view, results_view,
    Form, FormError, KeyV, MapKey, Val,
};

verus! {

/// The value of a string literal token from position `i` on, escapes resolved; the token's
/// last character must be the closing quote.
pub open spec fn unescape_from(t: Seq<char>, i: int) -> Result<Seq<char>, FormError>
    decreases t.len() - i,
{
    if i < 0 || i >= t.len() {
        Err(FormError::MissingTrailingDoubleQuote)
    } else if i == t.len() - 1 {
        if t[i] == '"' {
            Ok(Seq::empty())
        } else {
            Err(FormError::MissingTrailingDoubleQuote)
        }
    } else {
        let (c, next) = if t[i] == '\\' {
            if t[i + 1] == '\\' || t[i + 1] == '"' {
                (Some(t[i + 1]), i + 2)
            } else if t[i + 1] == 'n' {
                (Some('\n'), i + 2)
            } else {
                (None, i + 2)
            }
        } else {
            (Some(t[i]), i + 1)
        };
        match c {
            None => Err(FormError::UnBalancedBackSlash),
            Some(c) => match unescape_from(t, next) {
                Ok(rest) => Ok(seq![c] + rest),
                Err(e) => Err(e),
            },
        }
    }
}

/// The text of a string literal token, which starts with its opening quote.
pub open spec fn string_literal(t: Seq<char>) -> Result<Seq<char>, FormError> {
    unescape_from(t, 1)
}

/// The key that a form stands for in a map, if it may be one.
pub open spec fn key_of(v: Val) -> Option<KeyV> {
    match v {
        Val::Str(s) => Some(KeyV::Str(s)),
        Val::Keyword(s) => Some(KeyV::Keyword(s)),
        _ => None,
    }
}

/// The position of key `k` among the entries, or -1.
pub open spec fn key_pos(es: Seq<(KeyV, Val)>, k: KeyV) -> int
    decreases es.len(),
{
    if es.len() == 0 {
        -1
    } else if es.last().0 == k {
        es.len() - 1
    } else {
        key_pos(es.drop_last(), k)
    }
}

/// The entries with `k` bound to `v`: an entry of the same key is replaced in place.
pub open spec fn assoc(es: Seq<(KeyV, Val)>, k: KeyV, v: Val) -> Seq<(KeyV, Val)> {
    let i = key_pos(es, k);
    if i >= 0 {
        es.update(i, (k, v))
    } else {
        es.push((k, v))
    }
}

/// The keys of the entries are distinct.
pub open spec fn keys_unique(es: Seq<(KeyV, Val)>) -> bool {
    forall|i: int, j: int| 0 <= i < j < es.len() ==> es[i].0 != es[j].0
}

pub(crate) proof fn lemma_key_pos(es: Seq<(KeyV, Val)>, k: KeyV)
    ensures
        -1 <= key_pos(es, k) < es.len(),
        key_pos(es, k) >= 0 ==> es[key_pos(es, k)].0 == k,
        key_pos(es, k) == -1 ==> forall|i: int| 0 <= i < es.len() ==> es[i].0 != k,
    decreases es.len(),
{
    if es.len() > 0 && es.last().0 != k {
        lemma_key_pos(es.drop_last(), k);
        assert forall|i: int| 0 <= i < es.len() - 1 implies es[i] == es.drop_last()[i] by {}
    }
}

/// Binding a key keeps the keys distinct.
proof fn lemma_assoc_unique(es: Seq<(KeyV, Val)>, k: KeyV, v: Val)
    requires
        keys_unique(es),
    ensures
        keys_unique(assoc(es, k, v)),
{
    lemma_key_pos(es, k);
}

pub(crate) proof fn lemma_entries_unique(items: Seq<Val>, i: int, acc: Seq<(KeyV, Val)>)
    requires
        keys_unique(acc),
    ensures
        entries_from(items, i, acc) matches Ok(es) ==> keys_unique(es),
    decreases items.len() - i,
{
    if 0 <= i && i + 1 < items.len() {
        match key_of(items[i]) {
            Some(k) => {
                lemma_assoc_unique(acc, k, items[i + 1]);
                lemma_entries_unique(items, i + 2, assoc(acc, k, items[i + 1]));
            },
            None => {},
        }
    }
}

/// The entries of a map read from the flat key/value sequence `items[i..]`, added to `acc`.
pub open spec fn entries_from(items: Seq<Val>, i: int, acc: Seq<(KeyV, Val)>) -> Result<
    Seq<(KeyV, Val)>,
    FormError,
>
    decreases items.len() - i,
{
    if i < 0 || i >= items.len() {
        Ok(acc)
    } else if i + 1 >= items.len() {
        Err(FormError::UnBalancedMap)
    } else {
        match key_of(items[i]) {
            None => Err(FormError::InvalidKey),
            Some(k) => entries_from(items, i + 2, assoc(acc, k, items[i + 1])),
        }
    }
}

/// The map built from a flat key/value sequence.
pub open spec fn map_value(items: Seq<Val>) -> Result<Val, FormError> {
    match entries_from(items, 0, Seq::empty()) {
        Ok(es) => Ok(Val::HashMap(es)),
        Err(e) => Err(e),
    }
}

/// True when `t` is the token of the single character `c`.
pub open spec fn is_token(t: Seq<char>, c: char) -> bool {
    t == seq![c]
}

/// True when `t` is a closing bracket.
pub open spec fn is_closer(t: Seq<char>) -> bool {
    is_token(t, ')') || is_token(t, ']') || is_token(t, '}')
}

/// The symbol that a reader-macro sigil expands to.
pub open spec fn macro_name(t: Seq<char>) -> Option<Seq<char>> {
    if is_token(t, '\'') {
        Some("quote"@)
    } else if is_token(t, '`') {
        Some("quasiquote"@)
    } else if is_token(t, '~') {
        Some("unquote"@)
    } else if t == seq!['~', '@'] {
        Some("splice-unquote"@)
    } else if is_token(t, '@') {
        Some("deref"@)
    } else {
        None
    }
}

/// The value of a token that is no bracket and no sigil.
pub open spec fn atom_value(t: Seq<char>) -> Result<Val, FormError> {
    if t == "false"@ {
        Ok(Val::Bool(false))
    } else if t == "true"@ {
        Ok(Val::Bool(true))
    } else if t == "nil"@ {
        Ok(Val::Nil)
    } else if t.len() > 0 && t[0] == ':' {
        if t.len() == 1 {
            Err(FormError::MissingKeywordValue)
        } else {
            Ok(Val::Keyword(t.drop_first()))
        }
    } else if t.len() > 0 && t[0] == '"' {
        match string_literal(t) {
            Ok(s) => Ok(Val::Str(s)),
            Err(e) => Err(e),
        }
    } else {
        match i64_value(t) {
            Some(v) => Ok(Val::Integer(v)),
            None => Ok(Val::Symbol(t)),
        }
    }
}

/// The closing bracket that matches an opening one.
pub open spec fn closer_of(t: Seq<char>) -> char {
    if is_token(t, '(') {
        ')'
    } else if is_token(t, '[') {
        ']'
    } else {
        '}'
    }
}

/// The container that the items between brackets make.
pub open spec fn container(close: char, items: Seq<Val>) -> Result<Val, FormError> {
    if close == ')' {
        Ok(Val::List(items))
    } else if close == ']' {
        Ok(Val::Vector(items))
    } else {
        map_value(items)
    }
}

/// The form read from the tokens at position `p`, and the position after it.
pub open spec fn parse_form(ts: Seq<Seq<char>>, p: int) -> (Result<Val, FormError>, int)
    decreases ts.len() - p, 0int,
{
    if p < 0 || p >= ts.len() {
        (Err(FormError::MissingMacroArgument), p)
    } else {
        let t = ts[p];
        if is_token(t, '(') || is_token(t, '[') || is_token(t, '{') {
            match parse_items(ts, p + 1, closer_of(t), Seq::empty()) {
                (Ok(items), e) => (container(closer_of(t), items), e),
                (Err(x), e) => (Err(x), e),
            }
        } else if is_closer(t) {
            (Err(FormError::MissingOpeningBracket), p + 1)
        } else if macro_name(t) is Some {
            if p + 1 >= ts.len() {
                (Err(FormError::MissingMacroArgument), p + 1)
            } else {
                match parse_form(ts, p + 1) {
                    (Ok(v), e) => (Ok(Val::List(seq![Val::Symbol(macro_name(t)->0), v])), e),
                    (Err(x), e) => (Err(x), e),
                }
            }
        } else if is_token(t, '^') {
            if p + 1 >= ts.len() {
                (Err(FormError::MissingMacroArgument), p + 1)
            } else {
                match parse_rest(ts, p + 1, Seq::empty()) {
                    (Ok(items), e) => if items.len() == 2 {
                        (Ok(Val::List(seq![Val::Symbol("with-meta"@), items[1], items[0]])), e)
                    } else {
                        (Err(FormError::InvalidMetaMacro), e)
                    },
                    (Err(x), e) => (Err(x), e),
                }
            }
        } else {
            (atom_value(t), p + 1)
        }
    }
}

/// The forms read from position `q` up to the closing bracket `close`, after `acc`, and the
/// position after that bracket.
pub open spec fn parse_items(ts: Seq<Seq<char>>, q: int, close: char, acc: Seq<Val>) -> (Result<
    Seq<Val>,
    FormError,
>, int)
    decreases ts.len() - q, 1int,
{
    if q < 0 || q >= ts.len() {
        (Err(FormError::MissingTrailingBracket), q)
    } else if is_closer(ts[q]) {
        if is_token(ts[q], close) {
            (Ok(acc), q + 1)
        } else {
            (Err(FormError::MissingTrailingBracket), q + 1)
        }
    } else {
        match parse_form(ts, q) {
            (Ok(v), e) => if q < e <= ts.len() {
                parse_items(ts, e, close, acc.push(v))
            } else {
                (Err(FormError::MissingTrailingBracket), e)
            },
            (Err(x), e) => (Err(x), e),
        }
    }
}

/// The forms read from position `q` to the end of the tokens, after `acc`; the first error
/// ends the reading.
pub open spec fn parse_rest(ts: Seq<Seq<char>>, q: int, acc: Seq<Val>) -> (Result<
    Seq<Val>,
    FormError,
>, int)
    decreases ts.len() - q, 1int,
{
    if q < 0 || q >= ts.len() {
        (Ok(acc), q)
    } else {
        match parse_form(ts, q) {
            (Ok(v), e) => if q < e <= ts.len() {
                parse_rest(ts, e, acc.push(v))
            } else {
                (Err(FormError::InvalidMetaMacro), e)
            },
            (Err(x), e) => (Err(x), e),
        }
    }
}

/// `acc` put before the text of a successful result.
pub open spec fn prefixed(acc: Seq<char>, r: Result<Seq<char>, FormError>) -> Result<
    Seq<char>,
    FormError,
> {
    match r {
        Ok(x) => Ok(acc + x),
        Err(e) => Err(e),
    }
}

fn unescape(t: &Vec<char>) -> (r: Result<Vec<char>, FormError>)
    ensures
        match r {
            Ok(v) => string_literal(t@) == Ok::<Seq<char>, FormError>(v@),
            Err(e) => string_literal(t@) == Err::<Seq<char>, FormError>(e),
        },
{
    let n = t.len();
    let mut acc: Vec<char> = Vec::new();
    let mut i: usize = 1;
    loop
        invariant
            n == t.len(),
            1 <= i,
            string_literal(t@) == prefixed(acc@, unescape_from(t@, i as int)),
        decreases n + 2 - i,
    {
        if i >= n {
            proof {
                assert(acc@ + Seq::<char>::empty() =~= acc@);
            }
            return Err(FormError::MissingTrailingDoubleQuote);
        }
        if i == n - 1 {
            if t[i] == '"' {
                proof {
                    assert(acc@ + Seq::<char>::empty() =~= acc@);
                }
                return Ok(acc);
            }
            return Err(FormError::MissingTrailingDoubleQuote);
        }
        let c = t[i];
        let ghost before = acc@;
        if c == '\\' {
            let d = t[i + 1];
            if d == '\\' || d == '"' {
                acc.push(d);
            } else if d == 'n' {
                acc.push('\n');
            } else {
                return Err(FormError::UnBalancedBackSlash);
            }
            i = i + 2;
        } else {
            acc.push(c);
            i = i + 1;
        }
        proof {
            let last = acc@.last();
            assert(acc@ == before.push(last));
            match unescape_from(t@, i as int) {
                Ok(rest) => {
                    assert(before + (seq![last] + rest) =~= acc@ + rest);
                },
                Err(_) => {},
            }
        }
    }
}

/// The string that a string literal token holds, escapes resolved; the token starts with its
/// opening quote.
pub fn parse_string(token: &str) -> (r: Result<Form, FormError>)
    ensures
        result_view(r) == match string_literal(token@) {
            Ok(s) => Ok(Val::Str(s)),
            Err(e) => Err(e),
        },
{
    let t = chars_of(token);
    match unescape(&t) {
        Ok(v) => Ok(Form::String(string_from(&v))),
        Err(e) => Err(e),
    }
}

fn key_from(f: Form) -> (r: Option<MapKey>)
    ensures
        match r {
            Some(k) => key_of(form_view(f)) == Some(k@),
            None => key_of(form_view(f)) is None,
        },
{
    match f {
        Form::String(s) => Some(MapKey::Str(s)),
        Form::Keyword(s) => Some(MapKey::Keyword(s)),
        _ => None,
    }
}

fn same_key(a: &MapKey, b: &MapKey) -> (r: bool)
    ensures
        r == (a@ == b@),
{
    match a {
        MapKey::Str(x) => match b {
            MapKey::Str(y) => x.eq(y),
            MapKey::Keyword(_) => false,
        },
        MapKey::Keyword(x) => match b {
            MapKey::Str(_) => false,
            MapKey::Keyword(y) => x.eq(y),
        },
    }
}

fn find_key(es: &Vec<(MapKey, Form)>, k: &MapKey) -> (r: Option<usize>)
    ensures
        match r {
            Some(i) => key_pos(entries_view(es@), k@) == i as int && i < es.len(),
            None => key_pos(entries_view(es@), k@) == -1,
        },
{
    let mut n = es.len();
    proof {
        assert(entries_view(es@).subrange(0, n as int) =~= entries_view(es@));
    }
    while n > 0
        invariant
            n <= es.len(),
            key_pos(entries_view(es@), k@) == key_pos(entries_view(es@).subrange(0, n as int), k@),
        decreases n,
    {
        let ghost sub = entries_view(es@).subrange(0, n as int);
        if same_key(&es[n - 1].0, k) {
            return Some(n - 1);
        }
        proof {
            assert(sub.drop_last() =~= entries_view(es@).subrange(0, n - 1));
        }
        n = n - 1;
    }
    None
}

/// The map that a flat key/value sequence makes: an odd count is `UnBalancedMap`, a key that
/// is no string or keyword is `InvalidKey`, and a later key overwrites an earlier equal one.
pub fn map_from_vec(list: Vec<Form>) -> (r: Result<Form, FormError>)
    ensures
        result_view(r) == map_value(forms_view(list@)),
        r matches Ok(Form::HashMap(es)) ==> keys_unique(entries_view(es@)),
{
    proof {
        lemma_entries_unique(forms_view(list@), 0, Seq::empty());
    }
    let ghost items = forms_view(list@);
    let mut rest = list;
    let mut es: Vec<(MapKey, Form)> = Vec::new();
    let ghost mut i: int = 0;
    proof {
        assert(entries_view(es@) =~= Seq::empty());
        assert(items.subrange(0, items.len() as int) =~= items);
    }
    while rest.len() > 0
        invariant
            items == forms_view(list@),
            0 <= i <= items.len(),
            rest@.len() == items.len() - i,
            forms_view(rest@) == items.subrange(i, items.len() as int),
            entries_from(items, 0, Seq::empty()) == entries_from(items, i, entries_view(es@)),
        decreases rest.len(),
    {
        let ghost old_rest = rest@;
        let key = rest.remove(0);
        proof {
            assert(forms_view(old_rest)[0] == items[i]);
            assert(forms_view(rest@) =~= items.subrange(i + 1, items.len() as int)) by {
                assert forall|j: int| 0 <= j < rest@.len() implies forms_view(rest@)[j]
                    == items[i + 1 + j] by {
                    assert(rest@[j] == old_rest[j + 1]);
                    assert(forms_view(old_rest)[j + 1] == items[i + 1 + j]);
                }
            }
        }
        if rest.len() == 0 {
            return Err(FormError::UnBalancedMap);
        }
        let ghost old_rest = rest@;
        let value = rest.remove(0);
        proof {
            assert(forms_view(old_rest)[0] == items[i + 1]);
            assert(forms_view(rest@) =~= items.subrange(i + 2, items.len() as int)) by {
                assert forall|j: int| 0 <= j < rest@.len() implies forms_view(rest@)[j]
                    == items[i + 2 + j] by {
                    assert(rest@[j] == old_rest[j + 1]);
                    assert(forms_view(old_rest)[j + 1] == items[i + 2 + j]);
                }
            }
        }
        let k = match key_from(key) {
            Some(k) => k,
            None => {
                return Err(FormError::InvalidKey);
            },
        };
        let ghost before = entries_view(es@);
        match find_key(&es, &k) {
            Some(at) => {
                es.remove(at);
                es.insert(at, (k, value));
                proof {
                    assert(entries_view(es@) =~= before.update(at as int, (k@, form_view(value))));
                }
            },
            None => {
                es.push((k, value));
                proof {
                    assert(entries_view(es@) =~= before.push((k@, form_view(value))));
                }
            },
        }
        proof {
            i = i + 2;
        }
    }
    proof {
        lemma_map_view(es);
    }
    Ok(Form::HashMap(es))
}

fn read_atom(t: &Vec<char>) -> (r: Result<Form, FormError>)
    ensures
        result_view(r) == atom_value(t@),
{
    if same_text(t, "false") {
        Ok(Form::Bool(false))
    } else if same_text(t, "true") {
        Ok(Form::Bool(true))
    } else if same_text(t, "nil") {
        Ok(Form::Nil)
    } else if t.len() > 0 && t[0] == ':' {
        if t.len() == 1 {
            Err(FormError::MissingKeywordValue)
        } else {
            let rest = slice_of(t, 1, t.len());
            proof {
                assert(rest@ =~= t@.drop_first());
            }
            Ok(Form::Keyword(string_from(&rest)))
        }
    } else if t.len() > 0 && t[0] == '"' {
        match unescape(t) {
            Ok(v) => Ok(Form::String(string_from(&v))),
            Err(e) => Err(e),
        }
    } else {
        match parse_i64(t) {
            Some(v) => Ok(Form::Integer(v)),
            None => Ok(Form::Symbol(string_from(t))),
        }
    }
}

fn is_token_exec(t: &Vec<char>, c: char) -> (r: bool)
    ensures
        r == is_token(t@, c),
{
    let r = t.len() == 1 && t[0] == c;
    proof {
        if t.len() == 1 && t@[0] == c {
            assert(t@ =~= seq![c]);
        }
    }
    r
}

fn macro_symbol(t: &Vec<char>) -> (r: Option<String>)
    ensures
        match r {
            Some(s) => macro_name(t@) == Some(s@),
            None => macro_name(t@) is None,
        },
{
    if is_token_exec(t, '\'') {
        Some(String::from_str("quote"))
    } else if is_token_exec(t, '`') {
        Some(String::from_str("quasiquote"))
    } else if is_token_exec(t, '~') {
        Some(String::from_str("unquote"))
    } else if t.len() == 2 && t[0] == '~' && t[1] == '@' {
        proof {
            assert(t@ =~= seq!['~', '@']);
        }
        Some(String::from_str("splice-unquote"))
    } else if is_token_exec(t, '@') {
        Some(String::from_str("deref"))
    } else {
        proof {
            if t@ == seq!['~', '@'] {
                assert(t@.len() == 2);
            }
        }
        None
    }
}

proof fn lemma_pair_view(a: Form, b: Form, v: Vec<Form>)
    requires
        v@ == seq![a, b],
    ensures
        form_view(Form::List(v)) == Val::List(seq![form_view(a), form_view(b)]),
{
    lemma_list_view(v);
    assert(forms_view(v@) =~= seq![form_view(a), form_view(b)]);
}

proof fn lemma_triple_view(a: Form, b: Form, c: Form, v: Vec<Form>)
    requires
        v@ == seq![a, b, c],
    ensures
        form_view(Form::List(v)) == Val::List(seq![form_view(a), form_view(b), form_view(c)]),
{
    lemma_list_view(v);
    assert(forms_view(v@) =~= seq![form_view(a), form_view(b), form_view(c)]);
}

proof fn lemma_push_view(s: Seq<Form>, f: Form)
    ensures
        forms_view(s.push(f)) == forms_view(s).push(form_view(f)),
{
    assert(forms_view(s.push(f)) =~= forms_view(s).push(form_view(f)));
}

/// A cursor over the tokens of one line of text.
pub struct Reader {
    /// The tokens of the line, each as its characters.
    pub tokens: Vec<Vec<char>>,
    /// The position of the next token to read.
    pub pos: usize,
}

impl Reader {
    /// The tokens, as character sequences.
    pub open spec fn toks(&self) -> Seq<Seq<char>> {
        self.tokens@.map_values(|t: Vec<char>| t@)
    }

    /// A reader at the first token of `text`.
    pub fn new(text: &str) -> (r: Reader)
        ensures
            r.toks() == tokens(text@),
            r.pos == 0,
    {
        let s = chars_of(text);
        Reader { tokens: tokenize_chars(&s), pos: 0 }
    }

    fn token_is(&self, c: char) -> (r: bool)
        requires
            self.pos < self.tokens.len(),
        ensures
            r == is_token(self.toks()[self.pos as int], c),
    {
        is_token_exec(&self.tokens[self.pos], c)
    }

    fn read_form_at(&mut self) -> (r: Result<Form, FormError>)
        requires
            old(self).pos < old(self).tokens.len(),
        ensures
            final(self).tokens == old(self).tokens,
            (result_view(r), final(self).pos as int) == parse_form(old(self).toks(), old(self).pos as int),
            old(self).pos < final(self).pos <= final(self).tokens.len(),
        decreases old(self).tokens.len() - old(self).pos, 2int,
    {
        if self.token_is('(') {
            return self.read_list(')');
        }
        if self.token_is('[') {
            return self.read_list(']');
        }
        if self.token_is('{') {
            return self.read_list('}');
        }
        if self.token_is(')') || self.token_is(']') || self.token_is('}') {
            self.pos = self.pos + 1;
            return Err(FormError::MissingOpeningBracket);
        }
        if let Some(name) = macro_symbol(&self.tokens[self.pos]) {
            return self.read_macro(name);
        }
        if self.token_is('^') {
            return self.read_meta_macro();
        }
        let r = read_atom(&self.tokens[self.pos]);
        self.pos = self.pos + 1;
        r
    }

    /// Reads a list, vector or map whose opening bracket is the current token.
    fn read_list(&mut self, close: char) -> (r: Result<Form, FormError>)
        requires
            old(self).pos < old(self).tokens.len(),
            is_token(old(self).toks()[old(self).pos as int], '(') || is_token(
                old(self).toks()[old(self).pos as int],
                '[',
            ) || is_token(old(self).toks()[old(self).pos as int], '{'),
            close == closer_of(old(self).toks()[old(self).pos as int]),
        ensures
            final(self).tokens == old(self).tokens,
            (result_view(r), final(self).pos as int) == parse_form(old(self).toks(), old(self).pos as int),
            old(self).pos < final(self).pos <= final(self).tokens.len(),
        decreases old(self).tokens.len() - old(self).pos, 1int,
    {
        self.pos = self.pos + 1;
        match self.read_items(close) {
            Ok(v) => {
                proof {
                    lemma_list_view(v);
                }
                if close == ')' {
                    Ok(Form::List(v))
                } else if close == ']' {
                    Ok(Form::Vector(v))
                } else {
                    map_from_vec(v)
                }
            },
            Err(e) => Err(e),
        }
    }

    /// Reads the form after a reader-macro sigil, the current token, into a call of `name`.
    fn read_macro(&mut self, name: String) -> (r: Result<Form, FormError>)
        requires
            old(self).pos < old(self).tokens.len(),
            macro_name(old(self).toks()[old(self).pos as int]) == Some(name@),
            !is_closer(old(self).toks()[old(self).pos as int]),
            !is_token(old(self).toks()[old(self).pos as int], '('),
            !is_token(old(self).toks()[old(self).pos as int], '['),
            !is_token(old(self).toks()[old(self).pos as int], '{'),
        ensures
            final(self).tokens == old(self).tokens,
            (result_view(r), final(self).pos as int) == parse_form(old(self).toks(), old(self).pos as int),
            old(self).pos < final(self).pos <= final(self).tokens.len(),
        decreases old(self).tokens.len() - old(self).pos, 1int,
    {
        self.pos = self.pos + 1;
        if self.pos >= self.tokens.len() {
            return Err(FormError::MissingMacroArgument);
        }
        match self.read_form_at() {
            Ok(f) => {
                let head = Form::Symbol(name);
                let v = vec![head, f];
                proof {
                    lemma_pair_view(head, f, v);
                }
                Ok(Form::List(v))
            },
            Err(e) => Err(e),
        }
    }

    /// Reads the forms after a `^`, the current token, up to the end of the tokens: exactly
    /// two, metadata then target, make a `with-meta` call of the target and the metadata.
    fn read_meta_macro(&mut self) -> (r: Result<Form, FormError>)
        requires
            old(self).pos < old(self).tokens.len(),
            is_token(old(self).toks()[old(self).pos as int], '^'),
        ensures
            final(self).tokens == old(self).tokens,
            (result_view(r), final(self).pos as int) == parse_form(old(self).toks(), old(self).pos as int),
            old(self).pos < final(self).pos <= final(self).tokens.len(),
        decreases old(self).tokens.len() - old(self).pos, 1int,
    {
        proof {
            let t = self.toks()[self.pos as int];
            assert(t[0] == '^');
            assert(macro_name(t) is None);
        }
        self.pos = self.pos + 1;
        if self.pos >= self.tokens.len() {
            return Err(FormError::MissingMacroArgument);
        }
        match self.read_rest() {
            Ok(mut v) => {
                if v.len() == 2 {
                    let target = v.pop().unwrap();
                    let meta = v.pop().unwrap();
                    let head = Form::Symbol(String::from_str("with-meta"));
                    let w = vec![head, target, meta];
                    proof {
                        lemma_triple_view(head, target, meta, w);
                    }
                    Ok(Form::List(w))
                } else {
                    Err(FormError::InvalidMetaMacro)
                }
            },
            Err(e) => Err(e),
        }
    }

    fn read_items(&mut self, close: char) -> (r: Result<Vec<Form>, FormError>)
        requires
            old(self).pos <= old(self).tokens.len(),
        ensures
            final(self).tokens == old(self).tokens,
            (results_view(r), final(self).pos as int) == parse_items(
                old(self).toks(),
                old(self).pos as int,
                close,
                Seq::empty(),
            ),
            old(self).pos <= final(self).pos <= final(self).tokens.len(),
        decreases old(self).tokens.len() - old(self).pos, 3int,
    {
        let ghost ts = self.toks();
        let ghost orig = self.tokens;
        let ghost start = self.pos as int;
        let mut acc: Vec<Form> = Vec::new();
        proof {
            assert(forms_view(acc@) =~= Seq::empty());
        }
        loop
            invariant
                self.tokens == orig,
                orig == old(self).tokens,
                start == old(self).pos,
                ts == orig@.map_values(|t: Vec<char>| t@),
                orig.len() == ts.len(),
                start <= self.pos <= self.tokens.len(),
                parse_items(ts, self.pos as int, close, forms_view(acc@)) == parse_items(
                    ts,
                    start,
                    close,
                    Seq::empty(),
                ),
            decreases self.tokens.len() - self.pos,
        {
            if self.pos >= self.tokens.len() {
                return Err(FormError::MissingTrailingBracket);
            }
            if self.token_is(')') || self.token_is(']') || self.token_is('}') {
                let matches = self.token_is(close);
                self.pos = self.pos + 1;
                if matches {
                    return Ok(acc);
                } else {
                    return Err(FormError::MissingTrailingBracket);
                }
            }
            match self.read_form_at() {
                Ok(f) => {
                    proof {
                        lemma_push_view(acc@, f);
                    }
                    acc.push(f);
                },
                Err(e) => {
                    return Err(e);
                },
            }
        }
    }

    fn read_rest(&mut self) -> (r: Result<Vec<Form>, FormError>)
        requires
            old(self).pos <= old(self).tokens.len(),
        ensures
            final(self).tokens == old(self).tokens,
            (results_view(r), final(self).pos as int) == parse_rest(
                old(self).toks(),
                old(self).pos as int,
                Seq::empty(),
            ),
            old(self).pos <= final(self).pos <= final(self).tokens.len(),
        decreases old(self).tokens.len() - old(self).pos, 3int,
    {
        let ghost ts = self.toks();
        let ghost orig = self.tokens;
        let ghost start = self.pos as int;
        let mut acc: Vec<Form> = Vec::new();
        proof {
            assert(forms_view(acc@) =~= Seq::empty());
        }
        loop
            invariant
                self.tokens == orig,
                orig == old(self).tokens,
                start == old(self).pos,
                ts == orig@.map_values(|t: Vec<char>| t@),
                orig.len() == ts.len(),
                start <= self.pos <= self.tokens.len(),
                parse_rest(ts, self.pos as int, forms_view(acc@)) == parse_rest(
                    ts,
                    start,
                    Seq::empty(),
                ),
            decreases self.tokens.len() - self.pos,
        {
            if self.pos >= self.tokens.len() {
                return Ok(acc);
            }
            match self.read_form_at() {
                Ok(f) => {
                    proof {
                        lemma_push_view(acc@, f);
                    }
                    acc.push(f);
                },
                Err(e) => {
                    return Err(e);
                },
            }
        }
    }

    /// Every form of `text`, or the first error met while reading them.
    pub fn read_str(text: &str) -> (r: Result<Vec<Form>, FormError>)
        ensures
            results_view(r) == parse_rest(tokens(text@), 0, Seq::empty()).0,
    {
        let mut reader = Reader::new(text);
        reader.read_rest()
    }

    /// The next form, or `None` once the tokens are used up; a closing bracket with nothing
    /// open, an unclosed or mismatched bracket, or a bad atom give the matching error. Each
    /// call that returns `Some` uses up at least one token, a stray closing bracket included.
    pub fn read_form(&mut self) -> (r: Option<Result<Form, FormError>>)
        ensures
            final(self).tokens == old(self).tokens,
            r is Some ==> old(self).pos < final(self).pos <= final(self).tokens.len(),
            old(self).pos >= old(self).tokens.len() ==> r is None && final(self).pos == old(self).pos,
            old(self).pos < old(self).tokens.len() ==> r is Some && (result_view(r->0), final(self).pos as int) == parse_form(
                old(self).toks(),
                old(self).pos as int,
            ),
    {
        if self.pos >= self.tokens.len() {
            None
        } else {
            Some(self.read_form_at())
        }
    }
}

} // verus!
