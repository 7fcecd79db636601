use mal::eval::{eval, Env};
use mal::printer;
use mal::reader::{map_from_vec, parse_string, Reader};
use mal::tokenizer::tokenize;
use mal::types::{Form, FormError, MapKey};

fn read_one(text: &str) -> Result<Form, FormError> {
    let mut reader = Reader::new(text);
    match reader.read_form() {
        Some(r) => r,
        None => panic!("no form in {:?}", text),
    }
}

fn printed(text: &str) -> String {
    printer::format(&read_one(text).unwrap())
}

fn eval_text(text: &str) -> Result<Form, FormError> {
    let env = Env::new();
    eval(&read_one(text).unwrap(), &env)
}

#[test]
fn tokenize_simple_list() {
    assert_eq!(tokenize("(+ 1 2)"), vec!["(", "+", "1", "2", ")"]);
}

#[test]
fn tokenize_empty_text() {
    assert!(tokenize("").is_empty());
    assert!(tokenize("  ,, \t").is_empty());
}

#[test]
fn tokenize_sigils_strings_and_comments() {
    assert_eq!(tokenize("~@a ~b 'c `d @e ^f"), vec!["~@", "a", "~", "b", "'", "c", "`", "d", "@", "e", "^", "f"]);
    assert_eq!(tokenize("\"a b\" x ; rest of line"), vec!["\"a b\"", "x"]);
    assert_eq!(tokenize("\"a\\\"b\""), vec!["\"a\\\"b\""]);
    assert_eq!(tokenize("\"open"), vec!["\"open"]);
    assert_eq!(tokenize("[a,b]{c}"), vec!["[", "a", "b", "]", "{", "c", "}"]);
}

#[test]
fn unclosed_list_is_missing_trailing_bracket() {
    assert_eq!(read_one("(1 2").unwrap_err(), FormError::MissingTrailingBracket);
}

#[test]
fn lone_closer_is_missing_opening_bracket() {
    assert_eq!(read_one(")").unwrap_err(), FormError::MissingOpeningBracket);
}

#[test]
fn mismatched_closer_is_missing_trailing_bracket() {
    assert_eq!(read_one("[1 2)").unwrap_err(), FormError::MissingTrailingBracket);
}

#[test]
fn string_escapes_read_and_print() {
    let f = read_one("\"a\\nb\"").unwrap();
    match &f {
        Form::String(s) => {
            assert_eq!(s.chars().count(), 3);
            assert_eq!(s.as_str(), "a\nb");
        }
        _ => panic!("not a string"),
    }
    assert_eq!(printer::format(&f), "\"a\\nb\"");
}

#[test]
fn string_literal_errors() {
    assert_eq!(parse_string("\"abc").unwrap_err(), FormError::MissingTrailingDoubleQuote);
    assert_eq!(parse_string("\"a\\qb\"").unwrap_err(), FormError::UnBalancedBackSlash);
    assert_eq!(parse_string("\"").unwrap_err(), FormError::MissingTrailingDoubleQuote);
    assert_eq!(read_one("\"x\\\"").unwrap_err(), FormError::MissingTrailingDoubleQuote);
    match parse_string("\"q\\\"\\\\\"").unwrap() {
        Form::String(s) => assert_eq!(s.as_str(), "q\"\\"),
        _ => panic!("not a string"),
    }
}

#[test]
fn odd_map_is_unbalanced() {
    assert_eq!(read_one("{:a 1 :b}").unwrap_err(), FormError::UnBalancedMap);
}

#[test]
fn non_text_key_is_invalid() {
    assert_eq!(read_one("{1 2}").unwrap_err(), FormError::InvalidKey);
}

#[test]
fn repeated_key_keeps_last_value() {
    let f = read_one("{:a 1 :a 2}").unwrap();
    match &f {
        Form::HashMap(es) => {
            assert_eq!(es.len(), 1);
            assert!(matches!(&es[0].0, MapKey::Keyword(k) if k.as_str() == "a"));
            assert!(matches!(es[0].1, Form::Integer(2)));
        }
        _ => panic!("not a map"),
    }
    assert_eq!(printer::format(&f), "{:a 2}");
}

#[test]
fn string_and_keyword_keys_stay_apart() {
    let f = read_one("{\"a\" 1 :a 2}").unwrap();
    match &f {
        Form::HashMap(es) => assert_eq!(es.len(), 2),
        _ => panic!("not a map"),
    }
    assert_eq!(printer::format(&f), "{\"a\" 1 :a 2}");
}

#[test]
fn map_from_flat_forms() {
    let items = vec![Form::Keyword("k".to_string()), Form::Integer(7)];
    assert_eq!(printer::format(&map_from_vec(items).unwrap()), "{:k 7}");
    let odd = vec![Form::String("k".to_string())];
    assert_eq!(map_from_vec(odd).unwrap_err(), FormError::UnBalancedMap);
    let bad = vec![Form::Nil, Form::Nil];
    assert_eq!(map_from_vec(bad).unwrap_err(), FormError::InvalidKey);
}

#[test]
fn reader_macros_expand() {
    assert_eq!(printed("'x"), printed("(quote x)"));
    assert_eq!(printed("`x"), printed("(quasiquote x)"));
    assert_eq!(printed("~x"), printed("(unquote x)"));
    assert_eq!(printed("~@x"), printed("(splice-unquote x)"));
    assert_eq!(printed("@x"), printed("(deref x)"));
    assert_eq!(printed("^{:a 1} x"), printed("(with-meta x {:a 1})"));
    assert_eq!(printed("'x"), "(quote x)");
    assert_eq!(printed("^{:a 1} x"), "(with-meta x {:a 1})");
}

#[test]
fn reader_macro_errors() {
    assert_eq!(read_one("'").unwrap_err(), FormError::MissingMacroArgument);
    assert_eq!(read_one("^").unwrap_err(), FormError::MissingMacroArgument);
    assert_eq!(read_one("^{:a 1}").unwrap_err(), FormError::InvalidMetaMacro);
    assert_eq!(read_one("^{:a 1} x y").unwrap_err(), FormError::InvalidMetaMacro);
    assert_eq!(read_one("')").unwrap_err(), FormError::MissingOpeningBracket);
}

#[test]
fn atoms_read() {
    assert!(matches!(read_one("true").unwrap(), Form::Bool(true)));
    assert!(matches!(read_one("false").unwrap(), Form::Bool(false)));
    assert!(matches!(read_one("nil").unwrap(), Form::Nil));
    assert!(matches!(read_one("-42").unwrap(), Form::Integer(-42)));
    assert!(matches!(read_one("+7").unwrap(), Form::Integer(7)));
    assert!(matches!(read_one("-9223372036854775808").unwrap(), Form::Integer(i64::MIN)));
    assert!(matches!(read_one("9223372036854775807").unwrap(), Form::Integer(i64::MAX)));
    assert!(matches!(read_one("9223372036854775808").unwrap(), Form::Symbol(ref s) if s.as_str() == "9223372036854775808"));
    assert!(matches!(read_one("-").unwrap(), Form::Symbol(ref s) if s.as_str() == "-"));
    assert!(matches!(read_one("1a").unwrap(), Form::Symbol(ref s) if s.as_str() == "1a"));
    assert!(matches!(read_one(":kw").unwrap(), Form::Keyword(ref s) if s.as_str() == "kw"));
    assert_eq!(read_one(":").unwrap_err(), FormError::MissingKeywordValue);
}

#[test]
fn reader_walks_a_line() {
    let mut reader = Reader::new("1 (2 3) ; note");
    assert!(matches!(reader.read_form(), Some(Ok(Form::Integer(1)))));
    assert_eq!(printer::format(&reader.read_form().unwrap().unwrap()), "(2 3)");
    assert!(reader.read_form().is_none());
    let all = Reader::read_str("[1 :b \"c\"] {:k nil}").unwrap();
    assert_eq!(all.len(), 2);
    assert_eq!(printer::format(&all[0]), "[1 :b \"c\"]");
    assert_eq!(printer::format(&all[1]), "{:k nil}");
    assert_eq!(Reader::read_str("1 )").unwrap_err(), FormError::MissingOpeningBracket);
}

#[test]
fn printed_forms_read_back() {
    for text in ["(1 [2 {:a \"x\\\\y\"}] nil true false -5 sym :kw)", "\"tab\there\\n\"", "[]", "{}", "()"] {
        let once = printed(text);
        assert_eq!(printed(&once), once);
    }
    assert_eq!(printer::format_string("say \"hi\"\n"), "\"say \\\"hi\\\"\\n\"");
}

#[test]
fn eval_addition() {
    assert!(matches!(eval_text("(+ 1 2 3)").unwrap(), Form::Integer(6)));
}

#[test]
fn eval_subtraction() {
    assert!(matches!(eval_text("(- 10 3 2)").unwrap(), Form::Integer(5)));
}

#[test]
fn eval_undefined_symbol() {
    assert_eq!(eval_text("undefined-symbol").unwrap_err(), FormError::MissingSymbol);
}

#[test]
fn eval_non_integer_argument() {
    assert_eq!(eval_text("(+ 1 \"a\")").unwrap_err(), FormError::InvalidType);
}

#[test]
fn eval_empty_list() {
    match eval_text("()").unwrap() {
        Form::List(v) => assert!(v.is_empty()),
        _ => panic!("not a list"),
    }
}

#[test]
fn eval_non_callable_head() {
    let r = eval_text("(1 2 3)").unwrap();
    assert_eq!(printer::format(&r), "(1 2 3)");
}

#[test]
fn eval_arithmetic_edges() {
    assert!(matches!(eval_text("(* 2 3 4)").unwrap(), Form::Integer(24)));
    assert!(matches!(eval_text("(/ 7 2)").unwrap(), Form::Integer(3)));
    assert!(matches!(eval_text("(/ -7 2)").unwrap(), Form::Integer(-3)));
    assert!(matches!(eval_text("(+ 1 (* 2 3))").unwrap(), Form::Integer(7)));
    assert_eq!(eval_text("(/ 1 0)").unwrap_err(), FormError::DivisionByZero);
    assert_eq!(eval_text("(+ 9223372036854775807 1)").unwrap_err(), FormError::IntegerOverflow);
    assert_eq!(eval_text("(/ -9223372036854775808 -1)").unwrap_err(), FormError::IntegerOverflow);
    assert_eq!(eval_text("(+ 1)").unwrap_err(), FormError::InvalidType);
    assert_eq!(eval_text("(+)").unwrap_err(), FormError::InvalidType);
}

#[test]
fn eval_containers() {
    assert_eq!(printer::format(&eval_text("[1 (+ 1 1) :k]").unwrap()), "[1 2 :k]");
    assert_eq!(printer::format(&eval_text("{:a (+ 1 2) \"b\" [(- 5 1)]}").unwrap()), "{:a 3 \"b\" [4]}");
    assert_eq!(eval_text("[1 nope]").unwrap_err(), FormError::MissingSymbol);
    assert_eq!(printer::format(&eval_text("+").unwrap()), "#<function>");
}

#[test]
fn symbol_evaluates_the_same_twice() {
    let env = Env::new();
    let sym = read_one("*").unwrap();
    let first = eval(&sym, &env).unwrap();
    let second = eval(&sym, &env).unwrap();
    assert!(matches!(first, Form::Procedure(_)));
    assert_eq!(printer::format(&first), printer::format(&second));
    let call = read_one("(* 6 7)").unwrap();
    assert!(matches!(eval(&call, &env).unwrap(), Form::Integer(42)));
    assert!(matches!(eval(&call, &env).unwrap(), Form::Integer(42)));
}

#[test]
fn stray_closer_is_used_up() {
    let mut reader = Reader::new(")");
    assert_eq!(reader.read_form().unwrap().unwrap_err(), FormError::MissingOpeningBracket);
    assert!(reader.read_form().is_none());
    let mut reader = Reader::new("] 1");
    assert_eq!(reader.read_form().unwrap().unwrap_err(), FormError::MissingOpeningBracket);
    assert!(matches!(reader.read_form(), Some(Ok(Form::Integer(1)))));
    assert!(reader.read_form().is_none());
}
