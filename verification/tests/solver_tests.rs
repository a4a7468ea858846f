//! Reading Z3's output.

use smtkit::solver::{
    extract_first_response, is_errorish_line, parse_z3_output, ParseSolverOutputError, Status,
};

#[test]
fn parse_z3_output_ignores_success_and_warning_lines() {
    let stdout = "success\nsat\n\n(warning \"noise\")\n\n(model (define-fun x () Int 5))\n";
    let out = parse_z3_output(stdout, "").expect("parse");
    assert_eq!(out.status, Status::Sat);
    assert!(out.model.is_some(), "expected model");
}

#[test]
fn parse_z3_output_accepts_multiple_top_level_sexps_by_taking_first() {
    let stdout = "sat\n(model (define-fun x () Int 5))\n(extra (stuff))\n";
    let out = parse_z3_output(stdout, "").expect("parse");
    assert_eq!(out.status, Status::Sat);
    assert_eq!(
        out.model.unwrap().to_string(),
        "(model (define-fun x () Int 5))"
    );
}

#[test]
fn extract_first_response_handles_strings_and_bar_symbols() {
    let txt = r#"(a "x) y" |p(q)|) (b c)"#;
    let first = extract_first_response(txt).expect("first");
    assert_eq!(first, r#"(a "x) y" |p(q)|)"#);
}

#[test]
fn parse_z3_output_without_status_is_missing_status() {
    let r = parse_z3_output("\n(warning \"x\")\nsuccess\n", "");
    assert!(matches!(r, Err(ParseSolverOutputError::MissingStatus)));
}

#[test]
fn parse_z3_output_with_other_first_line_is_unknown_status() {
    match parse_z3_output("maybe\n", "") {
        Err(ParseSolverOutputError::UnknownStatus(s)) => assert_eq!(s, "maybe"),
        other => panic!("unexpected {:?}", other),
    }
}

#[test]
fn parse_z3_output_reads_unsat_and_unknown_without_model() {
    let out = parse_z3_output("unsat\n", "").unwrap();
    assert_eq!(out.status, Status::Unsat);
    assert!(out.model.is_none());
    let out = parse_z3_output("  unknown  \n", "").unwrap();
    assert_eq!(out.status, Status::Unknown);
    assert!(out.model.is_none());
}

#[test]
fn errorish_lines_are_recognized() {
    assert!(is_errorish_line("success"));
    assert!(is_errorish_line("  unsupported "));
    assert!(is_errorish_line("(error \"bad\")"));
    assert!(is_errorish_line("(warning \"w\")"));
    assert!(is_errorish_line("(unsupported)"));
    assert!(!is_errorish_line("sat"));
    assert!(!is_errorish_line("(model)"));
}

#[test]
fn extract_first_response_of_atom_and_nothing() {
    assert_eq!(extract_first_response("  sat\nmore").as_deref(), Some("sat"));
    assert_eq!(extract_first_response("   \n"), None);
    assert_eq!(extract_first_response("(a (b").as_deref(), Some("(a (b"));
}
