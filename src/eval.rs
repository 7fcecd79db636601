use vstd::prelude::*;
use crate::types::{
    entries_view, form_view, forms_view, lemma_list_view, lemma_map_view, result_view, results_view,
    Builtin, Form, FormError, KeyV, MapKey, Val,
};

verus! {

broadcast use vstd::seq::axiom_seq_index_decreases, vstd::std_specs::vec::axiom_vec_index_decreases;

/// The value bound to `name`: the last binding of that name.
pub open spec fn lookup(bs: Seq<(Seq<char>, Val)>, name: Seq<char>) -> Option<Val>
    decreases bs.len(),
{
    if bs.len() == 0 {
        None
    } else if bs.last().0 == name {
        Some(bs.last().1)
    } else {
        lookup(bs.drop_last(), name)
    }
}

/// The symbol table that evaluation reads.
pub struct Env {
    pub bindings: Vec<(String, Form)>,
}

impl View for Env {
    type V = Seq<(Seq<char>, Val)>;

    open spec fn view(&self) -> Seq<(Seq<char>, Val)> {
        Seq::new(self.bindings@.len(), |i: int| (self.bindings@[i].0@, form_view(self.bindings@[i].1)))
    }
}

impl Env {
    /// The environment of a new session: `+`, `-`, `*` and `/` bound to the built-in
    /// procedures.
    pub fn new() -> (r: Env)
        ensures
            r@ == seq![
                ("+"@, Val::Procedure(Builtin::Add)),
                ("-"@, Val::Procedure(Builtin::Sub)),
                ("*"@, Val::Procedure(Builtin::Mul)),
                ("/"@, Val::Procedure(Builtin::Div)),
            ],
    {
        let bindings = vec![
            (String::from_str("+"), Form::Procedure(Builtin::Add)),
            (String::from_str("-"), Form::Procedure(Builtin::Sub)),
            (String::from_str("*"), Form::Procedure(Builtin::Mul)),
            (String::from_str("/"), Form::Procedure(Builtin::Div)),
        ];
        let r = Env { bindings };
        proof {
            assert(r@ =~= seq![
                ("+"@, Val::Procedure(Builtin::Add)),
                ("-"@, Val::Procedure(Builtin::Sub)),
                ("*"@, Val::Procedure(Builtin::Mul)),
                ("/"@, Val::Procedure(Builtin::Div)),
            ]);
        }
        r
    }

    /// A copy of the value bound to `name`, if any.
    pub fn get(&self, name: &String) -> (r: Option<Form>)
        ensures
            match r {
                Some(f) => lookup(self@, name@) == Some(f@),
                None => lookup(self@, name@) is None,
            },
    {
        let mut n = self.bindings.len();
        proof {
            assert(self@.subrange(0, n as int) =~= self@);
        }
        while n > 0
            invariant
                n <= self.bindings.len(),
                lookup(self@, name@) == lookup(self@.subrange(0, n as int), name@),
            decreases n,
        {
            let ghost sub = self@.subrange(0, n as int);
            if self.bindings[n - 1].0.eq(name) {
                return Some(copy_form(&self.bindings[n - 1].1));
            }
            proof {
                assert(sub.drop_last() =~= self@.subrange(0, n - 1));
            }
            n = n - 1;
        }
        None
    }
}

/// A copy of a form.
pub fn copy_form(f: &Form) -> (r: Form)
    ensures
        r@ == f@,
    decreases f,
{
    match f {
        Form::Nil => Form::Nil,
        Form::Bool(b) => Form::Bool(*b),
        Form::Integer(i) => Form::Integer(*i),
        Form::String(s) => Form::String(s.clone()),
        Form::Keyword(s) => Form::Keyword(s.clone()),
        Form::Symbol(s) => Form::Symbol(s.clone()),
        Form::List(v) => {
            let c = copy_vec(v);
            proof {
                lemma_list_view(*v);
                lemma_list_view(c);
            }
            Form::List(c)
        },
        Form::Vector(v) => {
            let c = copy_vec(v);
            proof {
                lemma_list_view(*v);
                lemma_list_view(c);
            }
            Form::Vector(c)
        },
        Form::HashMap(es) => {
            let c = copy_entries(es);
            proof {
                lemma_map_view(*es);
                lemma_map_view(c);
            }
            Form::HashMap(c)
        },
        Form::Procedure(b) => Form::Procedure(*b),
    }
}

fn copy_entries(es: &Vec<(MapKey, Form)>) -> (r: Vec<(MapKey, Form)>)
    ensures
        entries_view(r@) == entries_view(es@),
    decreases es,
{
    let mut c: Vec<(MapKey, Form)> = Vec::new();
    let mut i: usize = 0;
    while i < es.len()
        invariant
            i <= es.len(),
            c@.len() == i,
            entries_view(c@) == entries_view(es@).subrange(0, i as int),
        decreases es.len() - i,
    {
        let k = match &es[i].0 {
            MapKey::Str(s) => MapKey::Str(s.clone()),
            MapKey::Keyword(s) => MapKey::Keyword(s.clone()),
        };
        proof {
            assert(decreases_to!(*es => es[i as int]));
            assert(decreases_to!(es[i as int] => es[i as int].1));
        }
        let v = copy_form(&es[i].1);
        let ghost before = c@;
        c.push((k, v));
        i = i + 1;
        proof {
            assert(c@ == before.push((k, v)));
            assert(entries_view(c@) =~= entries_view(es@).subrange(0, i as int)) by {
                assert forall|j: int| 0 <= j < i implies #[trigger] entries_view(c@)[j]
                    == entries_view(es@)[j] by {
                    if j < i - 1 {
                        assert(c@[j] == before[j]);
                        assert(entries_view(before)[j] == entries_view(es@).subrange(0, i - 1)[j]);
                    }
                }
            }
        }
    }
    proof {
        assert(entries_view(es@).subrange(0, i as int) =~= entries_view(es@));
    }
    c
}

fn copy_vec(v: &Vec<Form>) -> (r: Vec<Form>)
    ensures
        forms_view(r@) == forms_view(v@),
    decreases v,
{
    let mut c: Vec<Form> = Vec::new();
    let mut i: usize = 0;
    while i < v.len()
        invariant
            i <= v.len(),
            c@.len() == i,
            forms_view(c@) == forms_view(v@).subrange(0, i as int),
        decreases v.len() - i,
    {
        let f = copy_form(&v[i]);
        let ghost before = c@;
        c.push(f);
        i = i + 1;
        proof {
            assert(c@ == before.push(f));
            assert(forms_view(c@) =~= forms_view(v@).subrange(0, i as int)) by {
                assert forall|j: int| 0 <= j < i implies #[trigger] forms_view(c@)[j]
                    == forms_view(v@)[j] by {
                    if j < i - 1 {
                        assert(c@[j] == before[j]);
                        assert(forms_view(before)[j] == forms_view(v@).subrange(0, i - 1)[j]);
                    }
                }
            }
        }
    }
    proof {
        assert(forms_view(v@).subrange(0, i as int) =~= forms_view(v@));
    }
    c
}

/// Division that truncates toward zero, as `i64` division does.
pub open spec fn trunc_div(x: int, d: int) -> int {
    if x == 0 {
        0
    } else if x > 0 && d > 0 {
        x / d
    } else if x < 0 && d < 0 {
        (-x) / (-d)
    } else if x < 0 {
        -((-x) / d)
    } else {
        -(x / (-d))
    }
}

/// One step of a built-in arithmetic fold.
pub open spec fn op_result(op: Builtin, a: int, b: int) -> Result<int, FormError> {
    let v = match op {
        Builtin::Add => a + b,
        Builtin::Sub => a - b,
        Builtin::Mul => a * b,
        Builtin::Div => trunc_div(a, b),
    };
    if op == Builtin::Div && b == 0 {
        Err(FormError::DivisionByZero)
    } else if i64::MIN <= v <= i64::MAX {
        Ok(v)
    } else {
        Err(FormError::IntegerOverflow)
    }
}

/// Every argument is an integer.
pub open spec fn all_integers(args: Seq<Val>) -> bool {
    forall|i: int| 0 <= i < args.len() ==> #[trigger] args[i] is Integer
}

/// The left fold of `op` over the integer arguments `args[i..]`, starting from `acc`.
pub open spec fn fold_from(op: Builtin, acc: int, args: Seq<Val>, i: int) -> Result<int, FormError>
    decreases args.len() - i,
{
    if i < 0 || i >= args.len() {
        Ok(acc)
    } else {
        match op_result(op, acc, args[i]->Integer_0) {
            Ok(x) => fold_from(op, x, args, i + 1),
            Err(e) => Err(e),
        }
    }
}

/// A built-in procedure applied to evaluated arguments: at least two integers, folded from
/// the left.
pub open spec fn apply_builtin(op: Builtin, args: Seq<Val>) -> Result<Val, FormError> {
    if !all_integers(args) || args.len() < 2 {
        Err(FormError::InvalidType)
    } else {
        match fold_from(op, args[0]->Integer_0, args, 1) {
            Ok(x) => Ok(Val::Integer(x)),
            Err(e) => Err(e),
        }
    }
}

/// An evaluated list: a call when its head is a procedure, else the list itself.
pub open spec fn apply_list(items: Seq<Val>) -> Result<Val, FormError> {
    match items[0] {
        Val::Procedure(op) => apply_builtin(op, items.drop_first()),
        _ => Ok(Val::List(items)),
    }
}

/// The value of a form in an environment.
pub open spec fn eval_val(v: Val, env: Seq<(Seq<char>, Val)>) -> Result<Val, FormError>
    decreases v, 2int,
{
    match v {
        Val::List(items) => if items.len() == 0 {
            Ok(v)
        } else {
            match eval_items(items, 0, env) {
                Ok(es) => apply_list(es),
                Err(e) => Err(e),
            }
        },
        _ => eval_ast_val(v, env),
    }
}

/// A form with its symbols resolved and its children evaluated, without a call.
pub open spec fn eval_ast_val(v: Val, env: Seq<(Seq<char>, Val)>) -> Result<Val, FormError>
    decreases v, 1int,
{
    match v {
        Val::Symbol(s) => match lookup(env, s) {
            Some(b) => Ok(b),
            None => Err(FormError::MissingSymbol),
        },
        Val::List(items) => match eval_items(items, 0, env) {
            Ok(es) => Ok(Val::List(es)),
            Err(e) => Err(e),
        },
        Val::Vector(items) => match eval_items(items, 0, env) {
            Ok(es) => Ok(Val::Vector(es)),
            Err(e) => Err(e),
        },
        Val::HashMap(es) => match eval_entries(es, 0, env) {
            Ok(r) => Ok(Val::HashMap(r)),
            Err(e) => Err(e),
        },
        _ => Ok(v),
    }
}

/// The values of `s[i..]`, in order; the first error stops the evaluation.
pub open spec fn eval_items(s: Seq<Val>, i: int, env: Seq<(Seq<char>, Val)>) -> Result<
    Seq<Val>,
    FormError,
>
    decreases s, s.len() - i,
{
    if i < 0 || i >= s.len() {
        Ok(Seq::empty())
    } else {
        match eval_val(s[i], env) {
            Ok(x) => match eval_items(s, i + 1, env) {
                Ok(rest) => Ok(seq![x] + rest),
                Err(e) => Err(e),
            },
            Err(e) => Err(e),
        }
    }
}

/// The entries `es[i..]` with their values evaluated, keys unchanged.
pub open spec fn eval_entries(es: Seq<(KeyV, Val)>, i: int, env: Seq<(Seq<char>, Val)>) -> Result<
    Seq<(KeyV, Val)>,
    FormError,
>
    decreases es, es.len() - i,
{
    if i < 0 || i >= es.len() {
        Ok(Seq::empty())
    } else {
        match eval_val(es[i].1, env) {
            Ok(x) => match eval_entries(es, i + 1, env) {
                Ok(rest) => Ok(seq![(es[i].0, x)] + rest),
                Err(e) => Err(e),
            },
            Err(e) => Err(e),
        }
    }
}

/// `acc` put before the items of a successful result.
pub open spec fn after<A>(acc: Seq<A>, r: Result<Seq<A>, FormError>) -> Result<Seq<A>, FormError> {
    match r {
        Ok(x) => Ok(acc + x),
        Err(e) => Err(e),
    }
}

fn op_step(op: Builtin, a: i64, b: i64) -> (r: Result<i64, FormError>)
    ensures
        match r {
            Ok(x) => op_result(op, a as int, b as int) == Ok::<int, FormError>(x as int),
            Err(e) => op_result(op, a as int, b as int) == Err::<int, FormError>(e),
        },
{
    let v = match op {
        Builtin::Add => a.checked_add(b),
        Builtin::Sub => a.checked_sub(b),
        Builtin::Mul => a.checked_mul(b),
        Builtin::Div => {
            if b == 0 {
                return Err(FormError::DivisionByZero);
            }
            a.checked_div(b)
        },
    };
    match v {
        Some(x) => Ok(x),
        None => Err(FormError::IntegerOverflow),
    }
}

/// A built-in arithmetic procedure applied to `args`: any argument that is no integer, or
/// fewer than two arguments, is `InvalidType`; else the integers are folded from the left.
pub fn int_operation(op: Builtin, args: &Vec<Form>) -> (r: Result<Form, FormError>)
    ensures
        result_view(r) == apply_builtin(op, forms_view(args@)),
{
    let ghost s = forms_view(args@);
    let mut k: usize = 0;
    while k < args.len()
        invariant
            k <= args.len(),
            s == forms_view(args@),
            forall|i: int| 0 <= i < k ==> #[trigger] s[i] is Integer,
        decreases args.len() - k,
    {
        match &args[k] {
            Form::Integer(_) => {},
            _ => {
                proof {
                    assert(!(s[k as int] is Integer));
                }
                return Err(FormError::InvalidType);
            },
        }
        k = k + 1;
    }
    if args.len() < 2 {
        return Err(FormError::InvalidType);
    }
    let mut acc: i64 = match &args[0] {
        Form::Integer(x) => *x,
        _ => 0,
    };
    let mut i: usize = 1;
    while i < args.len()
        invariant
            1 <= i <= args.len(),
            s == forms_view(args@),
            all_integers(s),
            fold_from(op, s[0]->Integer_0, s, 1) == fold_from(op, acc as int, s, i as int),
        decreases args.len() - i,
    {
        let x = match &args[i] {
            Form::Integer(x) => *x,
            _ => 0,
        };
        proof {
            assert(s[i as int] is Integer);
        }
        match op_step(op, acc, x) {
            Ok(y) => {
                acc = y;
            },
            Err(e) => {
                return Err(e);
            },
        }
        i = i + 1;
    }
    Ok(Form::Integer(acc))
}

/// `+` over integers.
pub fn int_add(args: &Vec<Form>) -> (r: Result<Form, FormError>)
    ensures
        result_view(r) == apply_builtin(Builtin::Add, forms_view(args@)),
{
    int_operation(Builtin::Add, args)
}

/// `-` over integers.
pub fn int_minus(args: &Vec<Form>) -> (r: Result<Form, FormError>)
    ensures
        result_view(r) == apply_builtin(Builtin::Sub, forms_view(args@)),
{
    int_operation(Builtin::Sub, args)
}

/// `*` over integers.
pub fn int_mul(args: &Vec<Form>) -> (r: Result<Form, FormError>)
    ensures
        result_view(r) == apply_builtin(Builtin::Mul, forms_view(args@)),
{
    int_operation(Builtin::Mul, args)
}

/// `/` over integers, truncating; a zero divisor is `DivisionByZero`.
pub fn int_div(args: &Vec<Form>) -> (r: Result<Form, FormError>)
    ensures
        result_view(r) == apply_builtin(Builtin::Div, forms_view(args@)),
{
    int_operation(Builtin::Div, args)
}

impl Builtin {
    /// Applies the procedure to evaluated arguments.
    pub fn call(self, args: &Vec<Form>) -> (r: Result<Form, FormError>)
        ensures
            result_view(r) == apply_builtin(self, forms_view(args@)),
    {
        match self {
            Builtin::Add => int_add(args),
            Builtin::Sub => int_minus(args),
            Builtin::Mul => int_mul(args),
            Builtin::Div => int_div(args),
        }
    }
}

fn eval_vec(v: &Vec<Form>, env: &Env) -> (r: Result<Vec<Form>, FormError>)
    ensures
        results_view(r) == eval_items(forms_view(v@), 0, env@),
    decreases v, 0int,
{
    let ghost s = forms_view(v@);
    let mut acc: Vec<Form> = Vec::new();
    let mut i: usize = 0;
    proof {
        assert(forms_view(acc@) + Seq::<Val>::empty() =~= Seq::<Val>::empty());
        assert(forms_view(acc@) =~= Seq::<Val>::empty());
        match eval_items(s, 0, env@) {
            Ok(x) => {
                assert(Seq::<Val>::empty() + x =~= x);
            },
            Err(_) => {},
        }
    }
    while i < v.len()
        invariant
            i <= v.len(),
            s == forms_view(v@),
            eval_items(s, 0, env@) == after(forms_view(acc@), eval_items(s, i as int, env@)),
        decreases v.len() - i,
    {
        match eval(&v[i], env) {
            Ok(f) => {
                let ghost before = forms_view(acc@);
                proof {
                    assert(forms_view(acc@.push(f)) =~= before.push(form_view(f)));
                    match eval_items(s, i + 1, env@) {
                        Ok(rest) => {
                            assert(before + (seq![form_view(f)] + rest) =~= before.push(form_view(f)) + rest);
                        },
                        Err(_) => {},
                    }
                }
                acc.push(f);
            },
            Err(e) => {
                return Err(e);
            },
        }
        i = i + 1;
    }
    proof {
        assert(forms_view(acc@) + Seq::<Val>::empty() =~= forms_view(acc@));
    }
    Ok(acc)
}

fn eval_map(es: &Vec<(MapKey, Form)>, env: &Env) -> (r: Result<Vec<(MapKey, Form)>, FormError>)
    ensures
        match r {
            Ok(x) => eval_entries(entries_view(es@), 0, env@) == Ok::<Seq<(KeyV, Val)>, FormError>(entries_view(x@)),
            Err(e) => eval_entries(entries_view(es@), 0, env@) == Err::<Seq<(KeyV, Val)>, FormError>(e),
        },
    decreases es, 0int,
{
    let ghost s = entries_view(es@);
    let mut acc: Vec<(MapKey, Form)> = Vec::new();
    let mut i: usize = 0;
    proof {
        assert(entries_view(acc@) =~= Seq::<(KeyV, Val)>::empty());
        match eval_entries(s, 0, env@) {
            Ok(x) => {
                assert(Seq::<(KeyV, Val)>::empty() + x =~= x);
            },
            Err(_) => {},
        }
    }
    while i < es.len()
        invariant
            i <= es.len(),
            s == entries_view(es@),
            eval_entries(s, 0, env@) == after(entries_view(acc@), eval_entries(s, i as int, env@)),
        decreases es.len() - i,
    {
        proof {
            assert(decreases_to!(*es => es[i as int]));
            assert(decreases_to!(es[i as int] => es[i as int].1));
        }
        match eval(&es[i].1, env) {
            Ok(f) => {
                let k = match &es[i].0 {
                    MapKey::Str(t) => MapKey::Str(t.clone()),
                    MapKey::Keyword(t) => MapKey::Keyword(t.clone()),
                };
                let ghost before = entries_view(acc@);
                proof {
                    assert(entries_view(acc@.push((k, f))) =~= before.push((k@, form_view(f))));
                    match eval_entries(s, i + 1, env@) {
                        Ok(rest) => {
                            assert(before + (seq![(k@, form_view(f))] + rest) =~= before.push((k@, form_view(f))) + rest);
                        },
                        Err(_) => {},
                    }
                }
                acc.push((k, f));
            },
            Err(e) => {
                return Err(e);
            },
        }
        i = i + 1;
    }
    proof {
        assert(entries_view(acc@) + Seq::<(KeyV, Val)>::empty() =~= entries_view(acc@));
    }
    Ok(acc)
}

/// Evaluates a form: a non-empty list is evaluated element by element and, when its head
/// is a procedure, called with the rest; every other form goes to `eval_ast`.
pub fn eval(form: &Form, env: &Env) -> (r: Result<Form, FormError>)
    ensures
        result_view(r) == eval_val(form@, env@),
    decreases form, 2int,
{
    match form {
        Form::List(v) => {
            proof {
                lemma_list_view(*v);
            }
            if v.len() == 0 {
                let e: Vec<Form> = Vec::new();
                proof {
                    lemma_list_view(e);
                    assert(forms_view(e@) =~= forms_view(v@));
                }
                return Ok(Form::List(e));
            }
            match eval_vec(v, env) {
                Ok(mut es) => {
                    proof {
                        lemma_eval_items_len(forms_view(v@), 0, env@);
                        lemma_list_view(es);
                    }
                    let callee = match &es[0] {
                        Form::Procedure(b) => Some(*b),
                        _ => None,
                    };
                    match callee {
                        Some(b) => {
                            let ghost all = forms_view(es@);
                            let _ = es.remove(0);
                            proof {
                                assert(forms_view(es@) =~= all.drop_first());
                            }
                            b.call(&es)
                        },
                        None => Ok(Form::List(es)),
                    }
                },
                Err(e) => Err(e),
            }
        },
        _ => eval_ast(form, env),
    }
}

/// Resolves a symbol in the environment, evaluates the children of a list, vector or map
/// with `eval` (map keys stay as they are), and returns every other form unchanged.
pub fn eval_ast(form: &Form, env: &Env) -> (r: Result<Form, FormError>)
    ensures
        result_view(r) == eval_ast_val(form@, env@),
    decreases form, 1int,
{
    match form {
        Form::Symbol(s) => match env.get(s) {
            Some(f) => Ok(f),
            None => Err(FormError::MissingSymbol),
        },
        Form::List(v) => {
            proof {
                lemma_list_view(*v);
            }
            match eval_vec(v, env) {
                Ok(es) => {
                    proof {
                        lemma_list_view(es);
                    }
                    Ok(Form::List(es))
                },
                Err(e) => Err(e),
            }
        },
        Form::Vector(v) => {
            proof {
                lemma_list_view(*v);
            }
            match eval_vec(v, env) {
                Ok(es) => {
                    proof {
                        lemma_list_view(es);
                    }
                    Ok(Form::Vector(es))
                },
                Err(e) => Err(e),
            }
        },
        Form::HashMap(es) => {
            proof {
                lemma_map_view(*es);
            }
            match eval_map(es, env) {
                Ok(x) => {
                    proof {
                        lemma_map_view(x);
                    }
                    Ok(Form::HashMap(x))
                },
                Err(e) => Err(e),
            }
        },
        _ => Ok(copy_form(form)),
    }
}

/// Evaluating a symbol reads the environment and nothing else: it gives the value bound to
/// the symbol, or `MissingSymbol`. `eval` takes the environment by shared reference, so the
/// same symbol evaluated again in a session gives the same value.
pub proof fn law_symbol_evaluation(env: Seq<(Seq<char>, Val)>, name: Seq<char>)
    ensures
        eval_val(Val::Symbol(name), env) == match lookup(env, name) {
            Some(b) => Ok(b),
            None => Err(FormError::MissingSymbol),
        },
{
}

/// In the environment of a new session, `+`, `-`, `*` and `/` evaluate to the four
/// built-in procedures.
pub proof fn law_session_builtins(env: Seq<(Seq<char>, Val)>)
    requires
        env == seq![
            ("+"@, Val::Procedure(Builtin::Add)),
            ("-"@, Val::Procedure(Builtin::Sub)),
            ("*"@, Val::Procedure(Builtin::Mul)),
            ("/"@, Val::Procedure(Builtin::Div)),
        ],
    ensures
        eval_val(Val::Symbol("+"@), env) == Ok::<Val, FormError>(Val::Procedure(Builtin::Add)),
        eval_val(Val::Symbol("-"@), env) == Ok::<Val, FormError>(Val::Procedure(Builtin::Sub)),
        eval_val(Val::Symbol("*"@), env) == Ok::<Val, FormError>(Val::Procedure(Builtin::Mul)),
        eval_val(Val::Symbol("/"@), env) == Ok::<Val, FormError>(Val::Procedure(Builtin::Div)),
{
    reveal_strlit("+");
    reveal_strlit("-");
    reveal_strlit("*");
    reveal_strlit("/");
    let e3 = env.drop_last();
    let e2 = e3.drop_last();
    let e1 = e2.drop_last();
    assert(e3 =~= env.subrange(0, 3));
    assert(e2 =~= env.subrange(0, 2));
    assert(e1 =~= env.subrange(0, 1));
    assert(e1.drop_last() =~= Seq::<(Seq<char>, Val)>::empty());
    assert("+"@ != "-"@ && "+"@ != "*"@ && "+"@ != "/"@) by {
        assert("+"@[0] != "-"@[0] && "+"@[0] != "*"@[0] && "+"@[0] != "/"@[0]);
    }
    assert("-"@ != "*"@ && "-"@ != "/"@ && "*"@ != "/"@) by {
        assert("-"@[0] != "*"@[0] && "-"@[0] != "/"@[0] && "*"@[0] != "/"@[0]);
    }
    assert(lookup(e1, "+"@) == Some(Val::Procedure(Builtin::Add)));
    assert(lookup(e2, "+"@) == lookup(e1, "+"@));
    assert(lookup(e3, "+"@) == lookup(e2, "+"@));
    assert(lookup(env, "+"@) == lookup(e3, "+"@));
    assert(lookup(e2, "-"@) == Some(Val::Procedure(Builtin::Sub)));
    assert(lookup(e3, "-"@) == lookup(e2, "-"@));
    assert(lookup(env, "-"@) == lookup(e3, "-"@));
    assert(lookup(e3, "*"@) == Some(Val::Procedure(Builtin::Mul)));
    assert(lookup(env, "*"@) == lookup(e3, "*"@));
}

/// Evaluation keeps the number of items.
proof fn lemma_eval_items_len(s: Seq<Val>, i: int, env: Seq<(Seq<char>, Val)>)
    requires
        0 <= i <= s.len(),
    ensures
        eval_items(s, i, env) matches Ok(x) ==> x.len() == s.len() - i,
    decreases s.len() - i,
{
    if i < s.len() {
        lemma_eval_items_len(s, i + 1, env);
    }
}

} // verus!
