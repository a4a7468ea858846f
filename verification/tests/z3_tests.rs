//! The in-process Z3 backend and the facade's result shapes.

use smtkit::ir::{Ctx, Op, Sort, Sym};
use smtkit::sexp::parse_one;
use smtkit::solver::{ParseSolverOutputError, SolverError};
use smtkit::z3::{
    is_problem_plain, model_value, project, solve_projected, translate_problem, Evaluated, ModelValue,
    ProjectedModel, SolveStatus,
    Z3BackendError, Z3Node, Z3Plan,
};
use smtkit::{solve_z3_smt2, SolveStatus as FacadeStatus, Z3SolveError};

fn sym(s: &str) -> Sym {
    Sym(s.to_string())
}

#[test]
fn solves_and_projects_integer_and_bitvector_values() {
    let mut ctx = Ctx::new();
    let x = ctx.var("x", Sort::Int);
    let b = ctx.var("b", Sort::BitVec(8));
    let seven = ctx.int_lit(7);
    let eq = ctx.app(Op::Eq, vec![x, seven]).unwrap();
    let five = ctx.bv_lit(5, 8);
    let sum = ctx.app(Op::Add, vec![b, five]).unwrap();
    let nine = ctx.bv_lit(9, 8);
    let eq2 = ctx.app(Op::Eq, vec![sum, nine]).unwrap();
    let r = solve_projected(&ctx, &[eq, eq2], &[x, b, seven]).0.unwrap();
    assert_eq!(r.status, SolveStatus::Sat);
    let m = r.model.unwrap();
    assert_eq!(m.len(), 2);
    assert_eq!(m.get(&sym("x")), Some(&ModelValue::Int(7)));
    assert_eq!(m.get(&sym("b")), Some(&ModelValue::BitVec { value: 4, width: 8 }));
    assert_eq!(m.get(&sym("y")), None);
}

#[test]
fn unsatisfiable_assertions_give_no_model() {
    let mut ctx = Ctx::new();
    let p = ctx.var("p", Sort::Bool);
    let np = ctx.app(Op::Not, vec![p]).unwrap();
    let both = ctx.app(Op::And, vec![p, np]).unwrap();
    let r = solve_projected(&ctx, &[both], &[p]).0.unwrap();
    assert_eq!(r.status, SolveStatus::Unsat);
    assert!(r.model.is_none());
}

#[test]
fn ite_distinct_and_comparisons_translate() {
    let mut ctx = Ctx::new();
    let c = ctx.var("c", Sort::Bool);
    let x = ctx.var("x", Sort::Int);
    let y = ctx.var("y", Sort::Int);
    let one = ctx.int_lit(1);
    let two = ctx.int_lit(2);
    let ite = ctx.app(Op::Ite, vec![c, one, two]).unwrap();
    let eq = ctx.app(Op::Eq, vec![x, ite]).unwrap();
    let d = ctx.app(Op::Distinct, vec![x, y]).unwrap();
    let lt = ctx.app(Op::Lt, vec![y, x]).unwrap();
    let ge = ctx.app(Op::Ge, vec![y, one]).unwrap();
    let le = ctx.app(Op::Le, vec![x, two]).unwrap();
    let r = solve_projected(&ctx, &[eq, d, lt, ge, le], &[c, x, y]).0.unwrap();
    assert_eq!(r.status, SolveStatus::Sat);
    let m = r.model.unwrap();
    // 1 <= y < x <= 2 leaves x = 2 and y = 1, so the branch taken is the else branch.
    assert_eq!(m.get(&sym("x")), Some(&ModelValue::Int(2)));
    assert_eq!(m.get(&sym("y")), Some(&ModelValue::Int(1)));
    assert_eq!(m.get(&sym("c")), Some(&ModelValue::Bool(false)));
}

#[test]
fn non_boolean_assertion_is_a_type_mismatch() {
    let mut ctx = Ctx::new();
    let x = ctx.var("x", Sort::Int);
    let p = ctx.var("p", Sort::Bool);
    assert!(matches!(
        solve_projected(&ctx, &[p, x], &[x]).0,
        Err(Z3BackendError::TypeMismatch)
    ));
}

#[test]
fn later_variable_of_a_name_decides_the_sort() {
    let mut ctx = Ctx::new();
    let xi = ctx.var("x", Sort::Int);
    let xb = ctx.var("x", Sort::Bool);
    let r = solve_projected(&ctx, &[xb], &[xi, xb]).0.unwrap();
    let m = r.model.unwrap();
    assert_eq!(m.len(), 1);
    assert_eq!(m.get(&sym("x")), Some(&ModelValue::Bool(true)));
}

#[test]
fn value_too_wide_for_u64_is_missing() {
    let mut ctx = Ctx::new();
    let b = ctx.var("b", Sort::BitVec(100));
    let big = ctx.bv_lit(u64::MAX, 100);
    let sum = ctx.app(Op::Add, vec![big, big]).unwrap();
    let eq = ctx.app(Op::Eq, vec![b, sum]).unwrap();
    match solve_projected(&ctx, &[eq], &[b]).0 {
        Err(Z3BackendError::MissingValue(s)) => assert_eq!(s, sym("b")),
        other => panic!("unexpected {:?}", other),
    }
}

#[test]
fn model_values_follow_the_sort() {
    let s = sym("v");
    assert_eq!(model_value(&Sort::Bool, &s, Some(Evaluated::Bool(true))).unwrap(), ModelValue::Bool(true));
    assert_eq!(model_value(&Sort::Int, &s, Some(Evaluated::Int(-4))).unwrap(), ModelValue::Int(-4));
    assert_eq!(
        model_value(&Sort::BitVec(12), &s, Some(Evaluated::Bits(4095))).unwrap(),
        ModelValue::BitVec { value: 4095, width: 12 }
    );
    match model_value(&Sort::Int, &s, None) {
        Err(Z3BackendError::MissingValue(m)) => assert_eq!(m, s),
        other => panic!("unexpected {:?}", other),
    }
    assert!(matches!(
        model_value(&Sort::Int, &s, Some(Evaluated::Bool(true))),
        Err(Z3BackendError::MissingValue(_))
    ));
}

#[test]
fn plan_builds_each_term_once() {
    let mut ctx = Ctx::new();
    let x = ctx.var("x", Sort::Int);
    let one = ctx.int_lit(1);
    let s = ctx.app(Op::Add, vec![x, one, x]).unwrap();
    let mut plan = Z3Plan::new(&ctx);
    let i = plan.translate(&ctx, s).unwrap();
    let j = plan.translate(&ctx, s).unwrap();
    assert_eq!(i, j);
    let nodes = plan.nodes();
    assert_eq!(nodes.len(), 3);
    assert!(matches!(&nodes[0], Z3Node::IntConst(n) if n == "x"));
    assert!(matches!(&nodes[1], Z3Node::IntVal(1)));
    assert!(matches!(&nodes[2], Z3Node::AddInt(ops) if *ops == vec![0, 1, 0]));
}

#[test]
fn projected_model_insert_replaces() {
    let mut m = ProjectedModel::new();
    m.insert(sym("a"), ModelValue::Int(1));
    m.insert(sym("b"), ModelValue::Int(2));
    m.insert(sym("a"), ModelValue::Int(3));
    assert_eq!(m.len(), 2);
    assert_eq!(m.get(&sym("a")), Some(&ModelValue::Int(3)));
    assert_eq!(m.entries()[1].0, sym("b"));
}

#[test]
fn facade_solve_reports_run_and_parse_failures() {
    let ok = solve_z3_smt2(Ok(("sat\n((x 1))\n".to_string(), String::new()))).unwrap();
    assert_eq!(ok.status, FacadeStatus::Sat);
    assert_eq!(ok.model.unwrap(), parse_one("((x 1))").unwrap());
    let un = solve_z3_smt2(Ok(("unsat\n".to_string(), String::new()))).unwrap();
    assert_eq!(un.status, FacadeStatus::Unsat);
    assert!(un.model.is_none());
    assert!(matches!(
        solve_z3_smt2(Err(SolverError::Spawn("no z3".to_string()))),
        Err(Z3SolveError::Run(SolverError::Spawn(_)))
    ));
    assert!(matches!(
        solve_z3_smt2(Ok((String::new(), String::new()))),
        Err(Z3SolveError::Parse(ParseSolverOutputError::MissingStatus))
    ));
    assert!(matches!(
        solve_z3_smt2(Ok(("sat\n(a\n".to_string(), String::new()))),
        Err(Z3SolveError::Parse(ParseSolverOutputError::Model(_)))
    ));
}

#[test]
fn facade_solve_projected_maps_the_status() {
    let mut ctx = Ctx::new();
    let p = ctx.var("p", Sort::Bool);
    let r = smtkit::solve_projected(&ctx, &[p], &[p]).0.unwrap();
    assert_eq!(r.status, FacadeStatus::Sat);
    assert_eq!(r.model.unwrap().get(&sym("p")), Some(&ModelValue::Bool(true)));
}

#[test]
fn project_binds_names_and_reports_the_first_missing() {
    let mut ctx = Ctx::new();
    let x = ctx.var("x", Sort::Int);
    let one = ctx.int_lit(1);
    let p = ctx.var("p", Sort::Bool);
    let x2 = ctx.var("x", Sort::Int);
    let vars = [x, one, p, x2];
    let m = project(
        &ctx,
        &vars,
        &vec![Some(Evaluated::Int(3)), None, Some(Evaluated::Bool(false)), Some(Evaluated::Int(9))],
    )
    .unwrap();
    assert_eq!(m.len(), 2);
    assert_eq!(m.get(&sym("x")), Some(&ModelValue::Int(9)));
    assert_eq!(m.get(&sym("p")), Some(&ModelValue::Bool(false)));
    match project(&ctx, &vars, &vec![Some(Evaluated::Int(3)), None, None, None]) {
        Err(Z3BackendError::MissingValue(s)) => assert_eq!(s, sym("p")),
        other => panic!("unexpected {:?}", other),
    }
    match project(&ctx, &vars, &vec![Some(Evaluated::Bool(true)), None, None, None]) {
        Err(Z3BackendError::MissingValue(s)) => assert_eq!(s, sym("x")),
        other => panic!("unexpected {:?}", other),
    }
}

#[test]
fn translate_problem_rejects_non_boolean_assertions() {
    let mut ctx = Ctx::new();
    let x = ctx.var("x", Sort::Int);
    let p = ctx.var("p", Sort::Bool);
    let tr = translate_problem(&ctx, &[p], &[x, p]).unwrap();
    assert_eq!(tr.roots.len(), 1);
    assert_eq!(tr.var_roots.len(), 2);
    assert_eq!(tr.var_roots[1], Some(tr.roots[0]));
    assert!(matches!(translate_problem(&ctx, &[x], &[]), Err(Z3BackendError::TypeMismatch)));
}

#[test]
fn comparisons_keep_their_meaning() {
    let mut ctx = Ctx::new();
    let a = ctx.int_lit(5);
    let b = ctx.int_lit(5);
    let ge = ctx.app(Op::Ge, vec![a, b]).unwrap();
    let lt = ctx.app(Op::Lt, vec![a, b]).unwrap();
    let le = ctx.app(Op::Le, vec![a, b]).unwrap();
    assert_eq!(solve_projected(&ctx, &[ge], &[]).0.unwrap().status, SolveStatus::Sat);
    assert_eq!(solve_projected(&ctx, &[le], &[]).0.unwrap().status, SolveStatus::Sat);
    assert_eq!(solve_projected(&ctx, &[lt], &[]).0.unwrap().status, SolveStatus::Unsat);
    let nge = ctx.app(Op::Not, vec![ge]).unwrap();
    assert_eq!(solve_projected(&ctx, &[nge], &[]).0.unwrap().status, SolveStatus::Unsat);
}

#[test]
fn terms_that_do_not_reach_z3_need_not_be_plain() {
    let mut ctx = Ctx::new();
    let p = ctx.var("p", Sort::Bool);
    let odd = ctx.bv_lit(0, 0);
    let nul = ctx.var("a\0b", Sort::Int);
    assert!(is_problem_plain(&ctx, &[p], &[p, odd]));
    let r = solve_projected(&ctx, &[p], &[p, odd]).0.unwrap();
    assert_eq!(r.status, SolveStatus::Sat);
    let m = r.model.unwrap();
    assert_eq!(m.len(), 1);
    assert_eq!(m.get(&sym("p")), Some(&ModelValue::Bool(true)));
    assert!(!is_problem_plain(&ctx, &[p], &[nul]));
    let eq = ctx.app(Op::Eq, vec![odd, odd]).unwrap();
    assert!(!is_problem_plain(&ctx, &[eq], &[p]));
    assert!(!is_problem_plain(&ctx, &[p, eq], &[]));
}

#[test]
fn the_check_that_answered_is_returned_beside_the_result() {
    let mut ctx = Ctx::new();
    let p = ctx.var("p", Sort::Bool);
    let x = ctx.var("x", Sort::Int);
    let np = ctx.app(Op::Not, vec![p]).unwrap();
    let both = ctx.app(Op::And, vec![p, np]).unwrap();
    let (res, rec) = solve_projected(&ctx, &[both], &[p]);
    assert_eq!(res.unwrap().status, SolveStatus::Unsat);
    assert_eq!(rec.unwrap().status(), SolveStatus::Unsat);
    let (res, rec) = solve_projected(&ctx, &[p], &[p]);
    assert_eq!(res.unwrap().status, SolveStatus::Sat);
    assert_eq!(rec.unwrap().status(), SolveStatus::Sat);
    let (res, rec) = solve_projected(&ctx, &[p, x], &[x]);
    assert!(matches!(res, Err(Z3BackendError::TypeMismatch)));
    assert!(rec.is_none());
    let (res, rec) = smtkit::solve_projected(&ctx, &[both], &[]);
    assert_eq!(res.unwrap().status, FacadeStatus::Unsat);
    assert_eq!(rec.unwrap().status(), SolveStatus::Unsat);
}
