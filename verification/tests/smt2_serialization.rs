//! The pure SMT-LIB2 surface: scripts, terms, typed IR emission.

use smtkit::ir::{Ctx, Op, Sort as CoreSort};
use smtkit::sexp::{parse_one, Sexp};
use smtkit::smt2::{t, Script, Sort, Var};

#[test]
fn script_serializes_full_smt2() {
    let mut s = Script::new();
    s.set_logic("QF_LIA");
    let x = Var::new("x", Sort::Int);
    s.declare_const(&x);
    // (assert (>= x 0))
    s.assert_sexp(t::ge(x.sym(), t::int_lit(0)));
    s.check_sat();

    let expected = "(set-logic QF_LIA)\n\
                    (declare-const x Int)\n\
                    (assert (>= x 0))\n\
                    (check-sat)\n";
    assert_eq!(s.to_string(), expected);
}

#[test]
fn parse_model_sexp_round_trips_and_structures() {
    let parsed = parse_one("((x 5) (y 3))").unwrap();

    let expected = Sexp::List(vec![
        Sexp::List(vec![Sexp::Atom("x".into()), Sexp::Atom("5".into())]),
        Sexp::List(vec![Sexp::Atom("y".into()), Sexp::Atom("3".into())]),
    ]);
    assert_eq!(parsed, expected);

    assert_eq!(parsed.to_string(), "((x 5) (y 3))");
}

#[test]
fn core_typed_term_emits_expected_smt2() {
    let mut ctx = Ctx::new();
    let x = ctx.var("x", CoreSort::Int);
    let zero = ctx.int_lit(0);
    let ten = ctx.int_lit(10);
    let lb = ctx.app(Op::Ge, vec![x, zero]).unwrap();
    let ub = ctx.app(Op::Lt, vec![x, ten]).unwrap();
    let conj = ctx.app(Op::And, vec![lb, ub]).unwrap();

    let mut s = Script::new();
    s.assert_term(&ctx, conj);

    assert_eq!(s.to_string(), "(assert (and (>= x 0) (< x 10)))\n");
}

#[test]
fn block_model_emits_blocking_clause() {
    let mut ctx = Ctx::new();
    let x = ctx.var("x", CoreSort::Int);
    let y = ctx.var("y", CoreSort::Int);
    let five = ctx.int_lit(5);
    let three = ctx.int_lit(3);

    let clause = ctx.block_model(&[(x, five), (y, three)]).unwrap();

    let mut s = Script::new();
    s.assert_term(&ctx, clause);

    assert_eq!(s.to_string(), "(assert (or (not (= x 5)) (not (= y 3))))\n");
}

#[test]
fn script_serializes_every_command_kind() {
    let mut s = Script::new();
    s.set_option(":produce-models", t::bool_lit(true));
    s.comment("pick a value");
    let b = Var::new("b", Sort::BitVec(8));
    s.declare_const(&b);
    s.assert_sexp(t::eq(b.sym(), t::bv_lit(5, 8)));
    s.maximize(t::sym("b"));
    s.minimize(t::sym("b"));
    s.check_sat();
    s.get_model();
    s.get_unsat_core();
    s.get_proof();
    s.exit();
    let expected = "(set-option :produce-models true)\n\
                    ;pick a value\n\
                    (declare-const b (_ BitVec 8))\n\
                    (assert (= b (_ bv5 8)))\n\
                    (maximize b)\n\
                    (minimize b)\n\
                    (check-sat)\n\
                    (get-model)\n\
                    (get-unsat-core)\n\
                    (get-proof)\n\
                    (exit)\n";
    assert_eq!(s.to_string(), expected);
}

#[test]
fn sorts_render_as_smt2() {
    assert_eq!(Sort::Bool.to_smt2().to_string(), "Bool");
    assert_eq!(Sort::Int.to_smt2().to_string(), "Int");
    assert_eq!(Sort::BitVec(32).to_smt2().to_string(), "(_ BitVec 32)");
}

#[test]
fn term_builders_render_as_smt2() {
    assert_eq!(t::int_lit(-7).to_string(), "-7");
    assert_eq!(t::int_lit(i64::MIN).to_string(), "-9223372036854775808");
    assert_eq!(t::int_lit(42).to_string(), "42");
    assert_eq!(t::bool_lit(false).to_string(), "false");
    assert_eq!(t::bv_lit(1, 3).to_string(), "(_ bv1 3)");
    assert_eq!(t::bv_lit(u64::MAX, 64).to_string(), "(_ bv18446744073709551615 64)");
    assert_eq!(
        t::and(vec![t::sym("a"), t::not(t::sym("b"))]).to_string(),
        "(and a (not b))"
    );
    assert_eq!(
        t::or(vec![t::sym("a"), t::sym("b")]).to_string(),
        "(or a b)"
    );
    assert_eq!(
        t::distinct(vec![t::sym("a"), t::sym("b"), t::sym("c")]).to_string(),
        "(distinct a b c)"
    );
    assert_eq!(
        t::add(vec![t::sym("a"), t::int_lit(1)]).to_string(),
        "(+ a 1)"
    );
    assert_eq!(t::lt(t::sym("a"), t::sym("b")).to_string(), "(< a b)");
    assert_eq!(t::le(t::sym("a"), t::sym("b")).to_string(), "(<= a b)");
    assert_eq!(t::app("f", vec![]).to_string(), "(f)");
    assert_eq!(t::list(vec![]).to_string(), "()");
}

#[test]
fn default_script_and_arena_are_empty_and_scripts_clone() {
    let mut s = Script::default();
    assert_eq!(s.to_string(), "");
    s.check_sat();
    let c = s.clone();
    assert_eq!(c.to_string(), "(check-sat)\n");
    let ctx = Ctx::default();
    assert_eq!(ctx.term_count(), 0);
}
