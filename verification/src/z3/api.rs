//! The calls into the `z3` crate that the backend makes, one trusted wrapper each.
//!
//! Z3 terms are handles into a context that the crate keeps per thread. Each term here carries
//! a ghost description (`Z3Expr`) of the Z3 operation that built it from which operands, and
//! the solver carries the descriptions of the terms asserted to it. Each `requires` keeps the
//! call from panicking: names without a NUL character, positive bit-vector widths, operands
//! of one width, operand lists that are non-empty (two or more for `distinct`) and fit a
//! `u32`.
use vstd::prelude::*;

use z3::ast::Ast;

use super::{
    model_from_z3, satisfies, z3_eval, Z3Value, answered_by, problem_plain, solve_in_context, solve_outcome, ProjectedModel, SolveResult, SolveStatus,
    Z3BackendError, Z3Expr,
};
use crate::ir::{Ctx, TermId};

verus! {

/// A Z3 Boolean term (`z3::ast::Bool`), opaque here.
#[verifier::external_type_specification]
#[verifier::external_body]
pub struct ExZ3Bool(z3::ast::Bool);

/// A Z3 integer term (`z3::ast::Int`), opaque here.
#[verifier::external_type_specification]
#[verifier::external_body]
pub struct ExZ3Int(z3::ast::Int);

/// A Z3 bit-vector term (`z3::ast::BV`), opaque here.
#[verifier::external_type_specification]
#[verifier::external_body]
pub struct ExZ3BV(z3::ast::BV);

/// A Z3 solver (`z3::Solver`), opaque here.
#[verifier::external_type_specification]
#[verifier::external_body]
pub struct ExZ3Solver(z3::Solver);

/// A Z3 model (`z3::Model`), opaque here.
#[verifier::external_type_specification]
#[verifier::external_body]
pub struct ExZ3Model(z3::Model);

/// A Z3 configuration (`z3::Config`), opaque here.
#[verifier::external_type_specification]
#[verifier::external_body]
pub struct ExZ3Config(z3::Config);

/// A Z3 Boolean term and what it was built as.
pub struct Z3Bool {
    ast: z3::ast::Bool,
    expr: Ghost<Z3Expr>,
}

/// A Z3 integer term and what it was built as.
pub struct Z3Int {
    ast: z3::ast::Int,
    expr: Ghost<Z3Expr>,
}

/// A Z3 bit-vector term, its width, and what it was built as.
pub struct Z3Bv {
    ast: z3::ast::BV,
    width: u32,
    expr: Ghost<Z3Expr>,
}

/// A Z3 solver and what was asserted to it, in order.
pub struct Z3Solver {
    solver: z3::Solver,
    asserted: Ghost<Seq<Z3Expr>>,
    last: Ghost<Option<SolveStatus>>,
}

impl Z3Solver {
    /// The status of the last check, if there was one since the last assertion.
    pub closed spec fn last_check(&self) -> Option<SolveStatus> {
        self.last@
    }
}

/// A Z3 model and the value that it gives each constant (see `Model::eval` below).
pub struct Z3Model {
    model: z3::Model,
    assignment: Ghost<spec_fn(Z3Expr) -> Z3Value>,
}

impl Z3Model {
    /// The value that the model gives each constant, once completed.
    pub closed spec fn assignment(&self) -> spec_fn(Z3Expr) -> Z3Value {
        self.assignment@
    }
}

/// A term that Z3 computed as the value of an expression in a model, and that value.
pub struct Z3Read<A> {
    ast: A,
    value: Ghost<Z3Value>,
}

/// A computed term is seen as the value it was computed as.
impl<A> View for Z3Read<A> {
    type V = Z3Value;

    closed spec fn view(&self) -> Z3Value {
        self.value@
    }
}

/// A Boolean term is seen as the formula it was built as.
impl View for Z3Bool {
    type V = Z3Expr;

    closed spec fn view(&self) -> Z3Expr {
        self.expr@
    }
}

/// An integer term is seen as the expression it was built as.
impl View for Z3Int {
    type V = Z3Expr;

    closed spec fn view(&self) -> Z3Expr {
        self.expr@
    }
}

/// A bit-vector term is seen as the expression it was built as.
impl View for Z3Bv {
    type V = Z3Expr;

    closed spec fn view(&self) -> Z3Expr {
        self.expr@
    }
}

impl Z3Bv {
    /// The width of the term.
    pub closed spec fn spec_width(&self) -> u32 {
        self.width
    }

    /// The width of the term.
    #[verifier::when_used_as_spec(spec_width)]
    pub fn width(&self) -> (r: u32)
        ensures
            r == self.spec_width(),
    {
        self.width
    }
}

/// A solver is seen as the formulas asserted to it, in order.
impl View for Z3Solver {
    type V = Seq<Z3Expr>;

    closed spec fn view(&self) -> Seq<Z3Expr> {
        self.asserted@
    }
}

/// One check of a Z3 solver: the status Z3 gave back and the formulas that the solver held
/// when it was checked. Only `solver_check` makes one.
pub struct Checked {
    status: SolveStatus,
    formulas: Ghost<Seq<Z3Expr>>,
}

impl Checked {
    /// The status Z3 gave back.
    pub closed spec fn spec_status(&self) -> SolveStatus {
        self.status
    }

    /// The formulas that the solver held when it was checked.
    pub closed spec fn formulas(&self) -> Seq<Z3Expr> {
        self.formulas@
    }

    /// The status Z3 gave back.
    pub fn status(&self) -> (r: SolveStatus)
        ensures
            r == self.spec_status(),
    {
        self.status
    }
}

/// The descriptions of a list of Boolean terms.
pub open spec fn bool_exprs(xs: Seq<Z3Bool>) -> Seq<Z3Expr> {
    xs.map_values(|x: Z3Bool| x@)
}

/// The descriptions of a list of integer terms.
pub open spec fn int_exprs(xs: Seq<Z3Int>) -> Seq<Z3Expr> {
    xs.map_values(|x: Z3Int| x@)
}

/// The descriptions of a list of bit-vector terms.
pub open spec fn bv_exprs(xs: Seq<Z3Bv>) -> Seq<Z3Expr> {
    xs.map_values(|x: Z3Bv| x@)
}

/// `z3::ast::Bool::new_const`: the Boolean constant named `name`.
#[verifier::external_body]
pub(crate) fn bool_const(name: &str) -> (r: Z3Bool)
    requires
        !name@.contains('\0'),
    ensures
        r@ == Z3Expr::BoolConst(name@),
{
    Z3Bool { ast: z3::ast::Bool::new_const(name), expr: Ghost(Z3Expr::BoolConst(name@)) }
}

/// `z3::ast::Int::new_const`: the integer constant named `name`.
#[verifier::external_body]
pub(crate) fn int_const(name: &str) -> (r: Z3Int)
    requires
        !name@.contains('\0'),
    ensures
        r@ == Z3Expr::IntConst(name@),
{
    Z3Int { ast: z3::ast::Int::new_const(name), expr: Ghost(Z3Expr::IntConst(name@)) }
}

/// `z3::ast::BV::new_const`: the bit-vector constant named `name`, of width `width`.
#[verifier::external_body]
pub(crate) fn bv_const(name: &str, width: u32) -> (r: Z3Bv)
    requires
        !name@.contains('\0'),
        width > 0,
    ensures
        r.width() == width,
        r@ == Z3Expr::BvConst(name@, width),
{
    Z3Bv {
        ast: z3::ast::BV::new_const(name, width),
        width,
        expr: Ghost(Z3Expr::BvConst(name@, width)),
    }
}

/// `z3::ast::Bool::from_bool`: the Boolean value `v`.
#[verifier::external_body]
pub(crate) fn bool_val(v: bool) -> (r: Z3Bool)
    ensures
        r@ == Z3Expr::BoolVal(v),
{
    Z3Bool { ast: z3::ast::Bool::from_bool(v), expr: Ghost(Z3Expr::BoolVal(v)) }
}

/// `z3::ast::Int::from_i64`: the integer value `v`.
#[verifier::external_body]
pub(crate) fn int_val(v: i64) -> (r: Z3Int)
    ensures
        r@ == Z3Expr::IntVal(v),
{
    Z3Int { ast: z3::ast::Int::from_i64(v), expr: Ghost(Z3Expr::IntVal(v)) }
}

/// `z3::ast::BV::from_u64`: the value `v` as a bit-vector of width `width`.
#[verifier::external_body]
pub(crate) fn bv_val(v: u64, width: u32) -> (r: Z3Bv)
    requires
        width > 0,
    ensures
        r.width() == width,
        r@ == Z3Expr::BvVal(v, width),
{
    Z3Bv { ast: z3::ast::BV::from_u64(v, width), width, expr: Ghost(Z3Expr::BvVal(v, width)) }
}

/// `Bool::not`: the negation of `a`.
#[verifier::external_body]
pub(crate) fn bool_not(a: &Z3Bool) -> (r: Z3Bool)
    ensures
        r@ == Z3Expr::Not(Box::new(a@)),
{
    Z3Bool { ast: a.ast.not(), expr: Ghost(Z3Expr::Not(Box::new(a@))) }
}

/// `Bool::and`: the conjunction of a non-empty list.
#[verifier::external_body]
pub(crate) fn bool_and(xs: &Vec<Z3Bool>) -> (r: Z3Bool)
    requires
        0 < xs@.len() <= u32::MAX,
    ensures
        r@ == Z3Expr::And(bool_exprs(xs@)),
{
    let asts: Vec<&z3::ast::Bool> = xs.iter().map(|x| &x.ast).collect();
    Z3Bool { ast: z3::ast::Bool::and(asts.as_slice()), expr: Ghost(Z3Expr::And(bool_exprs(xs@))) }
}

/// `Bool::or`: the disjunction of a non-empty list.
#[verifier::external_body]
pub(crate) fn bool_or(xs: &Vec<Z3Bool>) -> (r: Z3Bool)
    requires
        0 < xs@.len() <= u32::MAX,
    ensures
        r@ == Z3Expr::Or(bool_exprs(xs@)),
{
    let asts: Vec<&z3::ast::Bool> = xs.iter().map(|x| &x.ast).collect();
    Z3Bool { ast: z3::ast::Bool::or(asts.as_slice()), expr: Ghost(Z3Expr::Or(bool_exprs(xs@))) }
}

/// `Bool::eq`: equality of two Boolean terms.
#[verifier::external_body]
pub(crate) fn bool_eq(a: &Z3Bool, b: &Z3Bool) -> (r: Z3Bool)
    ensures
        r@ == Z3Expr::Eq(Box::new(a@), Box::new(b@)),
{
    Z3Bool { ast: a.ast.eq(&b.ast), expr: Ghost(Z3Expr::Eq(Box::new(a@), Box::new(b@))) }
}

/// `Int::eq`: equality of two integer terms.
#[verifier::external_body]
pub(crate) fn int_eq(a: &Z3Int, b: &Z3Int) -> (r: Z3Bool)
    ensures
        r@ == Z3Expr::Eq(Box::new(a@), Box::new(b@)),
{
    Z3Bool { ast: a.ast.eq(&b.ast), expr: Ghost(Z3Expr::Eq(Box::new(a@), Box::new(b@))) }
}

/// `BV::eq`: equality of two bit-vector terms of one width.
#[verifier::external_body]
pub(crate) fn bv_eq(a: &Z3Bv, b: &Z3Bv) -> (r: Z3Bool)
    requires
        a.width() == b.width(),
    ensures
        r@ == Z3Expr::Eq(Box::new(a@), Box::new(b@)),
{
    Z3Bool { ast: a.ast.eq(&b.ast), expr: Ghost(Z3Expr::Eq(Box::new(a@), Box::new(b@))) }
}

/// `Ast::distinct` over two or more Boolean terms.
#[verifier::external_body]
pub(crate) fn bool_distinct(xs: &Vec<Z3Bool>) -> (r: Z3Bool)
    requires
        1 < xs@.len() <= u32::MAX,
    ensures
        r@ == Z3Expr::Distinct(bool_exprs(xs@)),
{
    let asts: Vec<&z3::ast::Bool> = xs.iter().map(|x| &x.ast).collect();
    Z3Bool {
        ast: z3::ast::Bool::distinct(asts.as_slice()),
        expr: Ghost(Z3Expr::Distinct(bool_exprs(xs@))),
    }
}

/// `Ast::distinct` over two or more integer terms.
#[verifier::external_body]
pub(crate) fn int_distinct(xs: &Vec<Z3Int>) -> (r: Z3Bool)
    requires
        1 < xs@.len() <= u32::MAX,
    ensures
        r@ == Z3Expr::Distinct(int_exprs(xs@)),
{
    let asts: Vec<&z3::ast::Int> = xs.iter().map(|x| &x.ast).collect();
    Z3Bool {
        ast: z3::ast::Int::distinct(asts.as_slice()),
        expr: Ghost(Z3Expr::Distinct(int_exprs(xs@))),
    }
}

/// `Ast::distinct` over two or more bit-vector terms of one width.
#[verifier::external_body]
pub(crate) fn bv_distinct(xs: &Vec<Z3Bv>) -> (r: Z3Bool)
    requires
        1 < xs@.len() <= u32::MAX,
        forall|j: int| 0 <= j < xs@.len() ==> #[trigger] xs@[j].width() == xs@[0].width(),
    ensures
        r@ == Z3Expr::Distinct(bv_exprs(xs@)),
{
    let asts: Vec<&z3::ast::BV> = xs.iter().map(|x| &x.ast).collect();
    Z3Bool {
        ast: z3::ast::BV::distinct(asts.as_slice()),
        expr: Ghost(Z3Expr::Distinct(bv_exprs(xs@))),
    }
}

/// `Int::lt`: `a < b`.
#[verifier::external_body]
pub(crate) fn int_lt(a: &Z3Int, b: &Z3Int) -> (r: Z3Bool)
    ensures
        r@ == Z3Expr::Lt(Box::new(a@), Box::new(b@)),
{
    Z3Bool { ast: a.ast.lt(&b.ast), expr: Ghost(Z3Expr::Lt(Box::new(a@), Box::new(b@))) }
}

/// `Int::le`: `a <= b`.
#[verifier::external_body]
pub(crate) fn int_le(a: &Z3Int, b: &Z3Int) -> (r: Z3Bool)
    ensures
        r@ == Z3Expr::Le(Box::new(a@), Box::new(b@)),
{
    Z3Bool { ast: a.ast.le(&b.ast), expr: Ghost(Z3Expr::Le(Box::new(a@), Box::new(b@))) }
}

/// `Int::ge`: `a >= b`.
#[verifier::external_body]
pub(crate) fn int_ge(a: &Z3Int, b: &Z3Int) -> (r: Z3Bool)
    ensures
        r@ == Z3Expr::Ge(Box::new(a@), Box::new(b@)),
{
    Z3Bool { ast: a.ast.ge(&b.ast), expr: Ghost(Z3Expr::Ge(Box::new(a@), Box::new(b@))) }
}

/// `BV::bvult`: unsigned `a < b` of two bit-vector terms of one width.
#[verifier::external_body]
pub(crate) fn bv_ult(a: &Z3Bv, b: &Z3Bv) -> (r: Z3Bool)
    requires
        a.width() == b.width(),
    ensures
        r@ == Z3Expr::BvUlt(Box::new(a@), Box::new(b@)),
{
    Z3Bool {
        ast: a.ast.bvult(&b.ast),
        expr: Ghost(Z3Expr::BvUlt(Box::new(a@), Box::new(b@))),
    }
}

/// `BV::bvule`: unsigned `a <= b` of two bit-vector terms of one width.
#[verifier::external_body]
pub(crate) fn bv_ule(a: &Z3Bv, b: &Z3Bv) -> (r: Z3Bool)
    requires
        a.width() == b.width(),
    ensures
        r@ == Z3Expr::BvUle(Box::new(a@), Box::new(b@)),
{
    Z3Bool {
        ast: a.ast.bvule(&b.ast),
        expr: Ghost(Z3Expr::BvUle(Box::new(a@), Box::new(b@))),
    }
}

/// `BV::bvuge`: unsigned `a >= b` of two bit-vector terms of one width.
#[verifier::external_body]
pub(crate) fn bv_uge(a: &Z3Bv, b: &Z3Bv) -> (r: Z3Bool)
    requires
        a.width() == b.width(),
    ensures
        r@ == Z3Expr::BvUge(Box::new(a@), Box::new(b@)),
{
    Z3Bool {
        ast: a.ast.bvuge(&b.ast),
        expr: Ghost(Z3Expr::BvUge(Box::new(a@), Box::new(b@))),
    }
}

/// `Int::add`: the sum of a non-empty list.
#[verifier::external_body]
pub(crate) fn int_add(xs: &Vec<Z3Int>) -> (r: Z3Int)
    requires
        0 < xs@.len() <= u32::MAX,
    ensures
        r@ == Z3Expr::Add(int_exprs(xs@)),
{
    let asts: Vec<&z3::ast::Int> = xs.iter().map(|x| &x.ast).collect();
    Z3Int { ast: z3::ast::Int::add(asts.as_slice()), expr: Ghost(Z3Expr::Add(int_exprs(xs@))) }
}

/// `BV::bvadd`: the sum of two bit-vector terms of one width, of that width.
#[verifier::external_body]
pub(crate) fn bv_add(a: &Z3Bv, b: &Z3Bv) -> (r: Z3Bv)
    requires
        a.width() == b.width(),
    ensures
        r.width() == a.width(),
        r@ == Z3Expr::BvAdd(Box::new(a@), Box::new(b@)),
{
    Z3Bv {
        ast: a.ast.bvadd(&b.ast),
        width: a.width(),
        expr: Ghost(Z3Expr::BvAdd(Box::new(a@), Box::new(b@))),
    }
}

/// `Bool::ite` on Boolean branches.
#[verifier::external_body]
pub(crate) fn bool_ite(c: &Z3Bool, x: &Z3Bool, y: &Z3Bool) -> (r: Z3Bool)
    ensures
        r@ == Z3Expr::Ite(Box::new(c@), Box::new(x@), Box::new(y@)),
{
    Z3Bool {
        ast: c.ast.ite(&x.ast, &y.ast),
        expr: Ghost(Z3Expr::Ite(Box::new(c@), Box::new(x@), Box::new(y@))),
    }
}

/// `Bool::ite` on integer branches.
#[verifier::external_body]
pub(crate) fn int_ite(c: &Z3Bool, x: &Z3Int, y: &Z3Int) -> (r: Z3Int)
    ensures
        r@ == Z3Expr::Ite(Box::new(c@), Box::new(x@), Box::new(y@)),
{
    Z3Int {
        ast: c.ast.ite(&x.ast, &y.ast),
        expr: Ghost(Z3Expr::Ite(Box::new(c@), Box::new(x@), Box::new(y@))),
    }
}

/// `Bool::ite` on bit-vector branches of one width, of that width.
#[verifier::external_body]
pub(crate) fn bv_ite(c: &Z3Bool, x: &Z3Bv, y: &Z3Bv) -> (r: Z3Bv)
    requires
        x.width() == y.width(),
    ensures
        r.width() == x.width(),
        r@ == Z3Expr::Ite(Box::new(c@), Box::new(x@), Box::new(y@)),
{
    Z3Bv {
        ast: c.ast.ite(&x.ast, &y.ast),
        width: x.width(),
        expr: Ghost(Z3Expr::Ite(Box::new(c@), Box::new(x@), Box::new(y@))),
    }
}

/// `Clone::clone` of a Boolean term: the same term.
#[verifier::external_body]
pub(crate) fn bool_clone(a: &Z3Bool) -> (r: Z3Bool)
    ensures
        r@ == a@,
{
    Z3Bool { ast: a.ast.clone(), expr: Ghost(a@) }
}

/// `Clone::clone` of an integer term: the same term.
#[verifier::external_body]
pub(crate) fn int_clone(a: &Z3Int) -> (r: Z3Int)
    ensures
        r@ == a@,
{
    Z3Int { ast: a.ast.clone(), expr: Ghost(a@) }
}

/// `Clone::clone` of a bit-vector term: the same term, of the same width.
#[verifier::external_body]
pub(crate) fn bv_clone(a: &Z3Bv) -> (r: Z3Bv)
    ensures
        r.width() == a.width(),
        r@ == a@,
{
    Z3Bv { ast: a.ast.clone(), width: a.width(), expr: Ghost(a@) }
}

/// `z3::Solver::new`: a solver in the current context, with nothing asserted and not
/// checked.
#[verifier::external_body]
pub(crate) fn solver_new() -> (r: Z3Solver)
    ensures
        r@ == Seq::<Z3Expr>::empty(),
        r.last_check() is None,
{
    Z3Solver { solver: z3::Solver::new(), asserted: Ghost(Seq::empty()), last: Ghost(None) }
}

/// `Solver::assert`: adds `b` to what is asserted; the last check no longer applies.
#[verifier::external_body]
pub(crate) fn solver_assert(s: &mut Z3Solver, b: &Z3Bool)
    ensures
        final(s)@ == old(s)@.push(b@),
        final(s).last_check() is None,
{
    s.solver.assert(&b.ast)
}

/// `Solver::check`, with its result as a `SolveStatus`, recorded beside the formulas that
/// the solver held, and kept as the solver's last check. Which status comes back is Z3's
/// answer; what is stated is what `Sat` means: the formulas are consistent, so some value
/// of the constants makes all of them true.
#[verifier::external_body]
pub(crate) fn solver_check(s: &mut Z3Solver) -> (r: Checked)
    ensures
        r.formulas() == old(s)@,
        final(s)@ == old(s)@,
        final(s).last_check() == Some(r.spec_status()),
        r.spec_status() == SolveStatus::Sat ==> exists|g: spec_fn(Z3Expr) -> Z3Value| #[trigger] satisfies(g, old(s)@),
{
    let status = match s.solver.check() {
        z3::SatResult::Sat => SolveStatus::Sat,
        z3::SatResult::Unsat => SolveStatus::Unsat,
        z3::SatResult::Unknown => SolveStatus::Unknown,
    };
    Checked { status, formulas: Ghost(s@) }
}

/// `Solver::get_model`: the model of the last check. After `Sat` (models being enabled),
/// the model makes every asserted formula true. Whether a model comes back is not stated.
#[verifier::external_body]
pub(crate) fn solver_get_model(s: &Z3Solver) -> (r: Option<Z3Model>)
    ensures
        s.last_check() == Some(SolveStatus::Sat) ==> (r matches Some(m) ==> satisfies(m.assignment(), s@)),
{
    match s.solver.get_model() {
        Some(model) => Some(Z3Model { model, assignment: Ghost(arbitrary()) }),
        None => None,
    }
}

/// `Model::eval` of a Boolean term, with model completion: a term whose value is the value
/// of `a` in the model. Whether Z3 gives one back is not stated.
#[verifier::external_body]
pub(crate) fn eval_bool(m: &Z3Model, a: &Z3Bool) -> (r: Option<Z3Read<z3::ast::Bool>>)
    ensures
        r matches Some(x) ==> x@ == z3_eval(m.assignment(), a@),
{
    match m.model.eval(&a.ast, true) {
        Some(ast) => Some(Z3Read { ast, value: Ghost(z3_eval(m.assignment(), a@)) }),
        None => None,
    }
}

/// `Model::eval` of an integer term, with model completion (see `eval_bool`).
#[verifier::external_body]
pub(crate) fn eval_int(m: &Z3Model, a: &Z3Int) -> (r: Option<Z3Read<z3::ast::Int>>)
    ensures
        r matches Some(x) ==> x@ == z3_eval(m.assignment(), a@),
{
    match m.model.eval(&a.ast, true) {
        Some(ast) => Some(Z3Read { ast, value: Ghost(z3_eval(m.assignment(), a@)) }),
        None => None,
    }
}

/// `Model::eval` of a bit-vector term, with model completion (see `eval_bool`).
#[verifier::external_body]
pub(crate) fn eval_bv(m: &Z3Model, a: &Z3Bv) -> (r: Option<Z3Read<z3::ast::BV>>)
    ensures
        r matches Some(x) ==> x@ == z3_eval(m.assignment(), a@),
{
    match m.model.eval(&a.ast, true) {
        Some(ast) => Some(Z3Read { ast, value: Ghost(z3_eval(m.assignment(), a@)) }),
        None => None,
    }
}

/// `Bool::as_bool`: the truth value, where the term is `true` or `false`.
#[verifier::external_body]
pub(crate) fn bool_value(a: &Z3Read<z3::ast::Bool>) -> (r: Option<bool>)
    ensures
        r matches Some(b) ==> a@ == Z3Value::Bool(b),
{
    a.ast.as_bool()
}

/// `Int::as_i64`: the number, where the term is a numeral that fits in an `i64`.
#[verifier::external_body]
pub(crate) fn int_value(a: &Z3Read<z3::ast::Int>) -> (r: Option<i64>)
    ensures
        r matches Some(i) ==> a@ == Z3Value::Int(i as int),
{
    a.ast.as_i64()
}

/// `BV::as_u64`: the unsigned value, where the term is a numeral that fits in a `u64`.
#[verifier::external_body]
pub(crate) fn bv_value(a: &Z3Read<z3::ast::BV>) -> (r: Option<u64>)
    ensures
        r matches Some(u) ==> (a@ matches Z3Value::Bv(n, _) && n == u),
{
    a.ast.as_u64()
}

/// `z3::Config::new`: a configuration with Z3's defaults.
#[verifier::external_body]
pub(crate) fn config_new() -> (r: z3::Config) {
    z3::Config::new()
}

/// `Config::set_model_generation`.
#[verifier::external_body]
pub(crate) fn config_set_model_generation(cfg: &mut z3::Config, on: bool) {
    cfg.set_model_generation(on)
}

/// `z3::with_z3_config`: runs `solve_in_context` once, in a fresh context made from `cfg`,
/// and returns what it returns. The contract is that of `solve_in_context`; what is trusted
/// is that the crate calls the callback exactly once and hands its result back, as its
/// source does.
#[verifier::external_body]
pub(crate) fn run_with_config(
    cfg: &z3::Config,
    ctx: &Ctx,
    assertions: &[TermId],
    vars: &[TermId],
) -> (r: (Result<SolveResult<ProjectedModel>, Z3BackendError>, Option<Checked>))
    requires
        ctx.wf(),
        ctx.all_valid(assertions@),
        ctx.all_valid(vars@),
        problem_plain(ctx, assertions@, vars@),
    ensures
        solve_outcome(ctx, assertions@, vars@, r.0),
        answered_by(ctx, assertions@, r.0, r.1),
        model_from_z3(ctx, assertions@, vars@, r.0),
{
    z3::with_z3_config(cfg, || solve_in_context(ctx, assertions, vars))
}

} // verus!
