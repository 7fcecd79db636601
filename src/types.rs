use vstd::prelude::*;

verus! {

/// The built-in procedures that the environment binds at startup.
#[derive(Clone, Copy, Debug, PartialEq, Eq, Structural)]
pub enum Builtin {
    Add,
    Sub,
    Mul,
    Div,
}

/// A map key: string text or keyword text, kept apart by the variant.
#[derive(Debug)]
pub enum MapKey {
    Str(String),
    Keyword(String),
}

/// A value, as read from text or computed by evaluation.
#[derive(Debug)]
pub enum Form {
    Nil,
    Bool(bool),
    Integer(i64),
    String(String),
    Keyword(String),
    Symbol(String),
    List(Vec<Form>),
    Vector(Vec<Form>),
    /// Entries in the order their keys were first given; the reader gives no key twice.
    HashMap(Vec<(MapKey, Form)>),
    Procedure(Builtin),
}

/// What reading or evaluating a form can fail with.
#[derive(Clone, Copy, Debug, PartialEq, Eq, Structural)]
pub enum FormError {
    MissingOpeningBracket,
    MissingTrailingBracket,
    MissingTrailingDoubleQuote,
    UnBalancedBackSlash,
    MissingKeywordValue,
    UnBalancedMap,
    InvalidKey,
    MissingMacroArgument,
    InvalidMetaMacro,
    InvalidType,
    MissingSymbol,
    /// `/` with a zero divisor.
    DivisionByZero,
    /// Integer arithmetic whose result leaves the range of `i64`.
    IntegerOverflow,
}

/// The mathematical model of a map key.
pub enum KeyV {
    Str(Seq<char>),
    Keyword(Seq<char>),
}

/// The mathematical model of a form.
pub enum Val {
    Nil,
    Bool(bool),
    Integer(int),
    Str(Seq<char>),
    Keyword(Seq<char>),
    Symbol(Seq<char>),
    List(Seq<Val>),
    Vector(Seq<Val>),
    HashMap(Seq<(KeyV, Val)>),
    Procedure(Builtin),
}

impl View for MapKey {
    type V = KeyV;

    open spec fn view(&self) -> KeyV {
        match self {
            MapKey::Str(s) => KeyV::Str(s@),
            MapKey::Keyword(s) => KeyV::Keyword(s@),
        }
    }
}

pub open spec fn form_view(f: Form) -> Val
    decreases f,
{
    match f {
        Form::Nil => Val::Nil,
        Form::Bool(b) => Val::Bool(b),
        Form::Integer(i) => Val::Integer(i as int),
        Form::String(s) => Val::Str(s@),
        Form::Keyword(s) => Val::Keyword(s@),
        Form::Symbol(s) => Val::Symbol(s@),
        Form::List(v) => Val::List(
            Seq::new(v@.len(), |i: int| if 0 <= i < v.len() { form_view(v[i]) } else { Val::Nil }),
        ),
        Form::Vector(v) => Val::Vector(
            Seq::new(v@.len(), |i: int| if 0 <= i < v.len() { form_view(v[i]) } else { Val::Nil }),
        ),
        Form::HashMap(v) => Val::HashMap(
            Seq::new(
                v@.len(),
                |i: int|
                    if 0 <= i < v.len() {
                        (v[i].0@, form_view(v[i].1))
                    } else {
                        (KeyV::Str(Seq::empty()), Val::Nil)
                    },
            ),
        ),
        Form::Procedure(b) => Val::Procedure(b),
    }
}

impl View for Form {
    type V = Val;

    open spec fn view(&self) -> Val {
        form_view(*self)
    }
}

/// The models of a sequence of forms.
pub open spec fn forms_view(s: Seq<Form>) -> Seq<Val> {
    Seq::new(s.len(), |i: int| form_view(s[i]))
}

/// The models of a sequence of map entries.
pub open spec fn entries_view(s: Seq<(MapKey, Form)>) -> Seq<(KeyV, Val)> {
    Seq::new(s.len(), |i: int| (s[i].0@, form_view(s[i].1)))
}

pub(crate) proof fn lemma_list_view(v: Vec<Form>)
    ensures
        form_view(Form::List(v)) == Val::List(forms_view(v@)),
        form_view(Form::Vector(v)) == Val::Vector(forms_view(v@)),
{
    let a = form_view(Form::List(v));
    let b = form_view(Form::Vector(v));
    assert(a->List_0 =~= forms_view(v@));
    assert(b->Vector_0 =~= forms_view(v@));
}

pub(crate) proof fn lemma_map_view(v: Vec<(MapKey, Form)>)
    ensures
        form_view(Form::HashMap(v)) == Val::HashMap(entries_view(v@)),
{
    let a = form_view(Form::HashMap(v));
    assert(a->HashMap_0 =~= entries_view(v@));
}

/// The model of a result that holds a form.
pub open spec fn result_view(r: Result<Form, FormError>) -> Result<Val, FormError> {
    match r {
        Ok(f) => Ok(form_view(f)),
        Err(e) => Err(e),
    }
}

/// The model of a result that holds forms.
pub open spec fn results_view(r: Result<Vec<Form>, FormError>) -> Result<Seq<Val>, FormError> {
    match r {
        Ok(v) => Ok(forms_view(v@)),
        Err(e) => Err(e),
    }
}

} // verus!
