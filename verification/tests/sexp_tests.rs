//! The s-expression parser and printer.

use smtkit::sexp::{parse_one, ParseError, Sexp};

#[test]
fn parse_atom_with_comment_skips_comment() {
    let s = parse_one("(a b) ; comment here\n").unwrap();
    assert_eq!(s.to_string(), "(a b)");
}

#[test]
fn parse_bar_quoted_symbol_atom() {
    let s = parse_one("(|a b| c)").unwrap();
    assert_eq!(s.to_string(), "(|a b| c)");
}

#[test]
fn parse_string_literal_atom_with_space() {
    let s = parse_one("(\"hello world\" 3)").unwrap();
    assert_eq!(s.to_string(), "(\"hello world\" 3)");
}

#[test]
fn parse_string_literal_atom_with_embedded_quote() {
    let s = parse_one("(\"a\"\"b\" x)").unwrap();
    assert_eq!(s.to_string(), "(\"a\"\"b\" x)");
}

#[test]
fn parse_reports_end_of_input() {
    assert!(matches!(parse_one(""), Err(ParseError::Eof)));
    assert!(matches!(parse_one("   ; only a comment"), Err(ParseError::Eof)));
    assert!(matches!(parse_one("(a (b c)"), Err(ParseError::Eof)));
    assert!(matches!(parse_one(")"), Err(ParseError::Eof)));
    assert!(matches!(parse_one("|open bar"), Err(ParseError::Eof)));
    assert!(matches!(parse_one("\"open string"), Err(ParseError::Eof)));
}

#[test]
fn parse_reports_trailing_input() {
    assert!(matches!(parse_one("a b"), Err(ParseError::Trailing)));
    assert!(matches!(parse_one("(a) (b)"), Err(ParseError::Trailing)));
    assert!(matches!(parse_one("(a))"), Err(ParseError::Trailing)));
}

#[test]
fn parse_builds_nested_lists_and_atoms() {
    let s = parse_one("  (model\n\t(define-fun x () Int 5))\r\n").unwrap();
    let expected = Sexp::list(vec![
        Sexp::atom("model"),
        Sexp::list(vec![
            Sexp::atom("define-fun"),
            Sexp::atom("x"),
            Sexp::list(vec![]),
            Sexp::atom("Int"),
            Sexp::atom("5"),
        ]),
    ]);
    assert_eq!(s, expected);
    assert_eq!(s.to_string(), "(model (define-fun x () Int 5))");
}

#[test]
fn parse_keeps_escapes_inside_quotes() {
    let s = parse_one("(|a||b| \"x\\\"y\")").unwrap();
    assert_eq!(
        s,
        Sexp::list(vec![Sexp::atom("|a||b|"), Sexp::atom("\"x\\\"y\"")])
    );
}

#[test]
fn printing_then_parsing_gives_the_value_back() {
    let v = Sexp::list(vec![
        Sexp::atom("a"),
        Sexp::list(vec![Sexp::atom("|b c|"), Sexp::list(vec![])]),
        Sexp::atom("\"s t\""),
    ]);
    let text = v.to_string();
    assert_eq!(text, "(a (|b c| ()) \"s t\")");
    assert_eq!(parse_one(&text).unwrap(), v);
}

#[test]
fn parsing_then_printing_is_stable() {
    let first = parse_one(" ( f  ( g x )\n y ) ").unwrap().to_string();
    assert_eq!(first, "(f (g x) y)");
    assert_eq!(parse_one(&first).unwrap().to_string(), first);
}

#[test]
fn deep_clone_is_equal() {
    let v = parse_one("(a (b c) d)").unwrap();
    assert_eq!(v.deep_clone(), v);
}

#[test]
fn cloned_sexp_is_equal() {
    let s = parse_one("(a (b \"c d\") e)").unwrap();
    let c = s.clone();
    assert_eq!(c, s);
    assert_eq!(c.to_string(), "(a (b \"c d\") e)");
}
