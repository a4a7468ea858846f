//! The typed term arena.

use smtkit::emit::term_to_sexp;
use smtkit::ir::{Ctx, Op, Sort, Sym, TermKind, TypeError};

#[test]
fn constructors_record_kind_and_sort() {
    let mut ctx = Ctx::new();
    let x = ctx.var("x", Sort::BitVec(8));
    let b = ctx.bool_lit(true);
    let i = ctx.int_lit(-3);
    let v = ctx.bv_lit(7, 4);
    assert_eq!(ctx.term_count(), 4);
    assert_eq!(*ctx.sort_of(x), Sort::BitVec(8));
    assert_eq!(*ctx.sort_of(b), Sort::Bool);
    assert_eq!(*ctx.sort_of(i), Sort::Int);
    assert_eq!(*ctx.sort_of(v), Sort::BitVec(4));
    assert_eq!(
        *ctx.kind_of(x),
        TermKind::Var { sym: Sym("x".to_string()), sort: Sort::BitVec(8) }
    );
    assert_eq!(*ctx.kind_of(i), TermKind::IntLit(-3));
    assert_eq!(*ctx.kind_of(v), TermKind::BvLit { value: 7, width: 4 });
    assert_eq!(x.index(), 0);
    assert_eq!(v.index(), 3);
}

#[test]
fn app_infers_result_sorts() {
    let mut ctx = Ctx::new();
    let x = ctx.var("x", Sort::Int);
    let y = ctx.var("y", Sort::Int);
    let p = ctx.var("p", Sort::Bool);
    let b = ctx.var("b", Sort::BitVec(16));
    let c = ctx.var("c", Sort::BitVec(16));
    let sum = ctx.app(Op::Add, vec![x, y]).unwrap();
    assert_eq!(*ctx.sort_of(sum), Sort::Int);
    let bsum = ctx.app(Op::Add, vec![b, c, b]).unwrap();
    assert_eq!(*ctx.sort_of(bsum), Sort::BitVec(16));
    let ite = ctx.app(Op::Ite, vec![p, b, c]).unwrap();
    assert_eq!(*ctx.sort_of(ite), Sort::BitVec(16));
    let d = ctx.app(Op::Distinct, vec![x, y, sum]).unwrap();
    assert_eq!(*ctx.sort_of(d), Sort::Bool);
    let le = ctx.app(Op::Le, vec![x, y]).unwrap();
    let n = ctx.app(Op::Not, vec![le]).unwrap();
    assert_eq!(*ctx.sort_of(n), Sort::Bool);
    assert_eq!(term_to_sexp(&ctx, ite).to_string(), "(ite p b c)");
    assert_eq!(term_to_sexp(&ctx, n).to_string(), "(not (<= x y))");
}

#[test]
fn app_reports_each_type_error_and_adds_nothing() {
    let mut ctx = Ctx::new();
    let x = ctx.var("x", Sort::Int);
    let p = ctx.var("p", Sort::Bool);
    let b8 = ctx.var("b", Sort::BitVec(8));
    let b16 = ctx.var("c", Sort::BitVec(16));
    let before = ctx.term_count();

    assert_eq!(
        ctx.app(Op::Not, vec![p, p]).unwrap_err(),
        TypeError::Arity { op: Op::Not, expected: 1, got: 2 }
    );
    assert_eq!(ctx.app(Op::Not, vec![x]).unwrap_err(), TypeError::ExpectedBool(Sort::Int));
    assert_eq!(ctx.app(Op::And, vec![]).unwrap_err(), TypeError::EmptyArgs { op: Op::And });
    assert_eq!(ctx.app(Op::Or, vec![p, x]).unwrap_err(), TypeError::ExpectedBool(Sort::Int));
    assert_eq!(
        ctx.app(Op::Eq, vec![x]).unwrap_err(),
        TypeError::Arity { op: Op::Eq, expected: 2, got: 1 }
    );
    assert_eq!(
        ctx.app(Op::Eq, vec![x, p]).unwrap_err(),
        TypeError::SortMismatch { expected: Sort::Int, got: Sort::Bool }
    );
    assert_eq!(
        ctx.app(Op::Distinct, vec![x]).unwrap_err(),
        TypeError::MinArity { op: Op::Distinct, min: 2, got: 1 }
    );
    assert_eq!(
        ctx.app(Op::Distinct, vec![x, x, p]).unwrap_err(),
        TypeError::SortMismatch { expected: Sort::Int, got: Sort::Bool }
    );
    assert_eq!(ctx.app(Op::Lt, vec![p, x]).unwrap_err(), TypeError::ExpectedInt(Sort::Bool));
    assert_eq!(ctx.app(Op::Ge, vec![x, b8]).unwrap_err(), TypeError::ExpectedInt(Sort::BitVec(8)));
    assert_eq!(
        ctx.app(Op::Add, vec![x]).unwrap_err(),
        TypeError::MinArity { op: Op::Add, min: 2, got: 1 }
    );
    assert_eq!(ctx.app(Op::Add, vec![p, p]).unwrap_err(), TypeError::ExpectedInt(Sort::Bool));
    assert_eq!(ctx.app(Op::Add, vec![x, p]).unwrap_err(), TypeError::ExpectedInt(Sort::Bool));
    assert_eq!(
        ctx.app(Op::Add, vec![b8, b16]).unwrap_err(),
        TypeError::ExpectedBitVec { expected: 8, got: Sort::BitVec(16) }
    );
    assert_eq!(
        ctx.app(Op::Ite, vec![p, x]).unwrap_err(),
        TypeError::Arity { op: Op::Ite, expected: 3, got: 2 }
    );
    assert_eq!(ctx.app(Op::Ite, vec![x, x, x]).unwrap_err(), TypeError::ExpectedBool(Sort::Int));
    assert_eq!(
        ctx.app(Op::Ite, vec![p, x, p]).unwrap_err(),
        TypeError::SortMismatch { expected: Sort::Int, got: Sort::Bool }
    );
    assert_eq!(ctx.term_count(), before);
}

#[test]
fn neq_builds_not_eq_or_reports_mismatch() {
    let mut ctx = Ctx::new();
    let x = ctx.var("x", Sort::Int);
    let one = ctx.int_lit(1);
    let p = ctx.var("p", Sort::Bool);
    let t = ctx.neq(x, one).unwrap();
    assert_eq!(term_to_sexp(&ctx, t).to_string(), "(not (= x 1))");
    let n = ctx.term_count();
    assert_eq!(
        ctx.neq(x, p).unwrap_err(),
        TypeError::SortMismatch { expected: Sort::Int, got: Sort::Bool }
    );
    assert_eq!(ctx.term_count(), n);
}

#[test]
fn block_model_rejects_empty_and_mismatched_pairs() {
    let mut ctx = Ctx::new();
    let x = ctx.var("x", Sort::Int);
    let p = ctx.var("p", Sort::Bool);
    let one = ctx.int_lit(1);
    assert_eq!(ctx.block_model(&[]).unwrap_err(), TypeError::EmptyArgs { op: Op::Or });
    assert_eq!(
        ctx.block_model(&[(x, one), (p, one)]).unwrap_err(),
        TypeError::SortMismatch { expected: Sort::Bool, got: Sort::Int }
    );
    let single = ctx.block_model(&[(p, p)]).unwrap();
    assert_eq!(term_to_sexp(&ctx, single).to_string(), "(or (not (= p p)))");
}

#[test]
fn free_vars_lists_each_name_once_in_order() {
    let mut ctx = Ctx::new();
    let z = ctx.var("z", Sort::Int);
    let a = ctx.var("a", Sort::Int);
    let z2 = ctx.var("z", Sort::Int);
    let one = ctx.int_lit(1);
    let s1 = ctx.app(Op::Add, vec![z, a, one]).unwrap();
    let s2 = ctx.app(Op::Add, vec![s1, z2]).unwrap();
    let ge = ctx.app(Op::Ge, vec![s2, a]).unwrap();
    let names: Vec<String> = ctx.free_vars(ge).into_iter().map(|s| s.0).collect();
    assert_eq!(names, vec!["a".to_string(), "z".to_string()]);
    assert!(ctx.free_vars(one).is_empty());
    let v: Vec<String> = ctx.free_vars(z).into_iter().map(|s| s.0).collect();
    assert_eq!(v, vec!["z".to_string()]);
}

#[test]
fn free_vars_orders_names_as_strings() {
    let mut ctx = Ctx::new();
    let b = ctx.var("b", Sort::Bool);
    let big = ctx.var("B", Sort::Bool);
    let ab = ctx.var("ab", Sort::Bool);
    let a = ctx.var("a", Sort::Bool);
    let t = ctx.app(Op::And, vec![b, big, ab, a]).unwrap();
    let names: Vec<String> = ctx.free_vars(t).into_iter().map(|s| s.0).collect();
    assert_eq!(names, vec!["B", "a", "ab", "b"]);
}

#[test]
fn substitute_replaces_named_variables() {
    let mut ctx = Ctx::new();
    let x = ctx.var("x", Sort::Int);
    let y = ctx.var("y", Sort::Int);
    let sum = ctx.app(Op::Add, vec![x, y]).unwrap();
    let ten = ctx.int_lit(10);
    let lt = ctx.app(Op::Lt, vec![sum, ten]).unwrap();
    let five = ctx.int_lit(5);
    let r = ctx.substitute(lt, &[(Sym("x".to_string()), five)]).unwrap();
    assert_eq!(term_to_sexp(&ctx, r).to_string(), "(< (+ 5 y) 10)");
    assert_eq!(*ctx.sort_of(r), Sort::Bool);
    // The original term is unchanged.
    assert_eq!(term_to_sexp(&ctx, lt).to_string(), "(< (+ x y) 10)");
}

#[test]
fn substitute_with_nothing_rebuilds_an_equal_term() {
    let mut ctx = Ctx::new();
    let p = ctx.var("p", Sort::Bool);
    let q = ctx.var("q", Sort::Bool);
    let t = ctx.app(Op::Or, vec![p, q, p]).unwrap();
    let r = ctx.substitute(t, &[]).unwrap();
    assert_eq!(term_to_sexp(&ctx, r).to_string(), term_to_sexp(&ctx, t).to_string());
}

#[test]
fn substitute_reports_type_errors() {
    let mut ctx = Ctx::new();
    let x = ctx.var("x", Sort::Int);
    let one = ctx.int_lit(1);
    let lt = ctx.app(Op::Lt, vec![x, one]).unwrap();
    let tt = ctx.bool_lit(true);
    assert_eq!(
        ctx.substitute(lt, &[(Sym("x".to_string()), tt)]).unwrap_err(),
        TypeError::ExpectedInt(Sort::Bool)
    );
}

#[test]
fn sym_from_string() {
    let s: Sym = Sym::from("k".to_string());
    assert_eq!(s, Sym("k".to_string()));
}

#[test]
fn plainness_is_checked_below_the_given_terms() {
    let mut ctx = Ctx::new();
    let x = ctx.var("x", Sort::Int);
    assert!(ctx.are_plain_below(&[x]));
    let zero = ctx.bv_lit(0, 0);
    assert!(ctx.are_plain_below(&[x]));
    assert!(!ctx.are_plain_below(&[x, zero]));
    let eq = ctx.app(Op::Eq, vec![zero, zero]).unwrap();
    assert!(!ctx.are_plain_below(&[eq]));
    assert!(ctx.are_plain_below(&[]));
    let mut ctx2 = Ctx::new();
    let a = ctx2.var("a\0b", Sort::Bool);
    let b = ctx2.var("b", Sort::Bool);
    let n = ctx2.app(Op::Not, vec![a]).unwrap();
    assert!(ctx2.are_plain_below(&[b]));
    assert!(!ctx2.are_plain_below(&[n]));
}

#[test]
fn block_model_keeps_the_terms_built_before_a_mismatch() {
    let mut ctx = Ctx::new();
    let x = ctx.var("x", Sort::Int);
    let p = ctx.var("p", Sort::Bool);
    let one = ctx.int_lit(1);
    let n = ctx.term_count();
    assert!(ctx.block_model(&[]).is_err());
    assert_eq!(ctx.term_count(), n);
    assert!(ctx.block_model(&[(x, one), (x, one), (p, one)]).is_err());
    assert_eq!(ctx.term_count(), n + 4);
}

#[test]
fn substitute_always_builds_new_terms() {
    let mut ctx = Ctx::new();
    let x = ctx.var("x", Sort::Int);
    let one = ctx.int_lit(1);
    let t = ctx.app(Op::Le, vec![x, one]).unwrap();
    let n = ctx.term_count();
    let r = ctx.substitute(t, &[]).unwrap();
    assert_ne!(r, t);
    assert!(r.index() as usize >= n);
    assert_eq!(*ctx.sort_of(r), Sort::Bool);
    let y = ctx.var("y", Sort::Int);
    let bound = ctx.substitute(x, &[(Sym("x".to_string()), y)]).unwrap();
    assert_eq!(bound, y);
}
