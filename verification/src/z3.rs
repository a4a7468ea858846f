//! The in-process Z3 backend. IR terms are translated into a plan of Z3 constructions
//! (`Z3Plan`), whose meaning is stated term by term; the plan is then made with the Z3 API
//! and solved, and the values of the chosen variables are read back into a model.
use vstd::prelude::*;

pub mod api;

use crate::ir::{Ctx, Op, Sort, Sym, TermId, TermKind, spec_infer_app_sort, first_mismatch};

use self::api::{Z3Bool, Z3Bv, Z3Int, Z3Model, bool_exprs, bv_exprs, int_exprs};
pub use self::api::Checked;

verus! {

/// A value of a model.
#[derive(Clone, Copy, Debug, PartialEq, Eq, Structural)]
pub enum ModelValue {
    Bool(bool),
    Int(i64),
    BitVec { value: u64, width: u32 },
}

/// Why the backend failed.
#[derive(Clone, Debug, PartialEq, Eq)]
pub enum Z3BackendError {
    UnsupportedSort(Sort),
    UnsupportedOp(Op),
    TypeMismatch,
    MissingValue(Sym),
}

/// Solver status.
#[derive(Clone, Copy, Debug, PartialEq, Eq, Structural)]
pub enum SolveStatus {
    Sat,
    Unsat,
    Unknown,
}

/// Status plus an optional model.
#[derive(Debug)]
pub struct SolveResult<M> {
    pub status: SolveStatus,
    pub model: Option<M>,
}

/// The Z3 sort family of a construction.
#[derive(Clone, Copy, Debug, PartialEq, Eq, Structural)]
pub enum Z3Kind {
    Bool,
    Int,
    /// Bit-vectors of the given width.
    Bv(u32),
}

/// One Z3 construction; operands are positions of earlier constructions of the plan.
#[derive(Debug)]
pub enum Z3Node {
    BoolConst(String),
    IntConst(String),
    BvConst(String, u32),
    BoolVal(bool),
    IntVal(i64),
    BvVal(u64, u32),
    Not(usize),
    And(Vec<usize>),
    Or(Vec<usize>),
    /// Equality of two constructions of the given kind.
    Eq(Z3Kind, usize, usize),
    Distinct(Z3Kind, Vec<usize>),
    /// `<` on integers, unsigned `<` on bit-vectors.
    Lt(Z3Kind, usize, usize),
    /// `<=` on integers, unsigned `<=` on bit-vectors.
    Le(Z3Kind, usize, usize),
    /// `>=` on integers, unsigned `>=` on bit-vectors.
    Ge(Z3Kind, usize, usize),
    AddInt(Vec<usize>),
    /// Left-to-right fold of bit-vector addition.
    AddBv(Vec<usize>),
    Ite(Z3Kind, usize, usize, usize),
}

/// What a Z3 term was built as: the Z3 operation and the descriptions of its operands.
pub enum Z3Expr {
    BoolConst(Seq<char>),
    IntConst(Seq<char>),
    /// A bit-vector constant of the given width.
    BvConst(Seq<char>, u32),
    BoolVal(bool),
    IntVal(i64),
    /// A bit-vector value of the given width.
    BvVal(u64, u32),
    Not(Box<Z3Expr>),
    And(Seq<Z3Expr>),
    Or(Seq<Z3Expr>),
    Eq(Box<Z3Expr>, Box<Z3Expr>),
    Distinct(Seq<Z3Expr>),
    /// Integer `<`.
    Lt(Box<Z3Expr>, Box<Z3Expr>),
    /// Integer `<=`.
    Le(Box<Z3Expr>, Box<Z3Expr>),
    /// Integer `>=`.
    Ge(Box<Z3Expr>, Box<Z3Expr>),
    /// Unsigned bit-vector `<`.
    BvUlt(Box<Z3Expr>, Box<Z3Expr>),
    /// Unsigned bit-vector `<=`.
    BvUle(Box<Z3Expr>, Box<Z3Expr>),
    /// Unsigned bit-vector `>=`.
    BvUge(Box<Z3Expr>, Box<Z3Expr>),
    /// Integer sum.
    Add(Seq<Z3Expr>),
    /// Bit-vector sum of two terms.
    BvAdd(Box<Z3Expr>, Box<Z3Expr>),
    Ite(Box<Z3Expr>, Box<Z3Expr>, Box<Z3Expr>),
}

/// The left-to-right bit-vector sum of a non-empty list.
pub open spec fn bv_sum(es: Seq<Z3Expr>) -> Z3Expr
    decreases es.len(),
{
    if es.len() <= 1 {
        es[0]
    } else {
        Z3Expr::BvAdd(Box::new(bv_sum(es.drop_last())), Box::new(es.last()))
    }
}

/// The value of a Z3 expression: a truth value, an integer, or a bit-vector's unsigned
/// value and width.
pub enum Z3Value {
    Bool(bool),
    Int(int),
    Bv(nat, u32),
}

/// The unsigned value `v` taken modulo `2^width`.
pub open spec fn bv_wrap(v: nat, width: u32) -> nat {
    v % vstd::arithmetic::power2::pow2(width as nat)
}

/// The value of `e` when each constant `c` has the value `g(c)`, by the SMT-LIB meaning of
/// each operation.
pub open spec fn z3_eval(g: spec_fn(Z3Expr) -> Z3Value, e: Z3Expr) -> Z3Value
    decreases e, 0nat,
{
    match e {
        Z3Expr::BoolConst(_) => g(e),
        Z3Expr::IntConst(_) => g(e),
        Z3Expr::BvConst(_, _) => g(e),
        Z3Expr::BoolVal(b) => Z3Value::Bool(b),
        Z3Expr::IntVal(v) => Z3Value::Int(v as int),
        Z3Expr::BvVal(v, w) => Z3Value::Bv(bv_wrap(v as nat, w), w),
        Z3Expr::Not(a) => Z3Value::Bool(z3_eval(g, *a) != Z3Value::Bool(true)),
        Z3Expr::And(xs) => {
            let vs = z3_eval_all(g, xs, xs.len());
            Z3Value::Bool(all_true(vs))
        },
        Z3Expr::Or(xs) => {
            let vs = z3_eval_all(g, xs, xs.len());
            Z3Value::Bool(some_true(vs))
        },
        Z3Expr::Eq(a, b) => Z3Value::Bool(z3_eval(g, *a) == z3_eval(g, *b)),
        Z3Expr::Distinct(xs) => {
            let vs = z3_eval_all(g, xs, xs.len());
            Z3Value::Bool(all_distinct(vs))
        },
        Z3Expr::Lt(a, b) => Z3Value::Bool(int_of(z3_eval(g, *a)) < int_of(z3_eval(g, *b))),
        Z3Expr::Le(a, b) => Z3Value::Bool(int_of(z3_eval(g, *a)) <= int_of(z3_eval(g, *b))),
        Z3Expr::Ge(a, b) => Z3Value::Bool(int_of(z3_eval(g, *a)) >= int_of(z3_eval(g, *b))),
        Z3Expr::BvUlt(a, b) => Z3Value::Bool(int_of(z3_eval(g, *a)) < int_of(z3_eval(g, *b))),
        Z3Expr::BvUle(a, b) => Z3Value::Bool(int_of(z3_eval(g, *a)) <= int_of(z3_eval(g, *b))),
        Z3Expr::BvUge(a, b) => Z3Value::Bool(int_of(z3_eval(g, *a)) >= int_of(z3_eval(g, *b))),
        Z3Expr::Add(xs) => {
            let vs = z3_eval_all(g, xs, xs.len());
            Z3Value::Int(int_sum(vs))
        },
        Z3Expr::BvAdd(a, b) => {
            let w = width_of(z3_eval(g, *a));
            Z3Value::Bv(bv_wrap((int_of(z3_eval(g, *a)) + int_of(z3_eval(g, *b))) as nat, w), w)
        },
        Z3Expr::Ite(c, x, y) => if z3_eval(g, *c) == Z3Value::Bool(true) {
            z3_eval(g, *x)
        } else {
            z3_eval(g, *y)
        },
    }
}

/// Every value of `vs` is true.
pub open spec fn all_true(vs: Seq<Z3Value>) -> bool {
    forall|i: int| 0 <= i < vs.len() ==> #[trigger] vs[i] == Z3Value::Bool(true)
}

/// Some value of `vs` is true.
pub open spec fn some_true(vs: Seq<Z3Value>) -> bool {
    exists|i: int| 0 <= i < vs.len() && #[trigger] vs[i] == Z3Value::Bool(true)
}

/// No two values of `vs` are equal.
pub open spec fn all_distinct(vs: Seq<Z3Value>) -> bool {
    forall|i: int, j: int| 0 <= i < j < vs.len() ==> #[trigger] vs[i] != #[trigger] vs[j]
}

/// The values of the first `n` expressions of `es`.
pub open spec fn z3_eval_all(g: spec_fn(Z3Expr) -> Z3Value, es: Seq<Z3Expr>, n: nat) -> Seq<Z3Value>
    decreases es, n,
{
    if n == 0 || n > es.len() {
        Seq::empty()
    } else {
        z3_eval_all(g, es, (n - 1) as nat).push(z3_eval(g, es[n - 1]))
    }
}

/// The number a value stands for: an integer, or a bit-vector's unsigned value (0 for a
/// truth value).
pub open spec fn int_of(v: Z3Value) -> int {
    match v {
        Z3Value::Int(i) => i,
        Z3Value::Bv(n, _) => n as int,
        Z3Value::Bool(_) => 0,
    }
}

/// The width of a bit-vector value (0 for other values).
pub open spec fn width_of(v: Z3Value) -> u32 {
    match v {
        Z3Value::Bv(_, w) => w,
        _ => 0,
    }
}

/// The sum of the numbers that `vs` stand for.
pub open spec fn int_sum(vs: Seq<Z3Value>) -> int
    decreases vs.len(),
{
    if vs.len() == 0 {
        0
    } else {
        int_sum(vs.drop_last()) + int_of(vs.last())
    }
}

/// Every formula of `fs` is true when each constant `c` has the value `g(c)`.
pub open spec fn satisfies(g: spec_fn(Z3Expr) -> Z3Value, fs: Seq<Z3Expr>) -> bool {
    forall|i: int| 0 <= i < fs.len() ==> #[trigger] z3_eval(g, fs[i]) == Z3Value::Bool(true)
}

/// The Z3 kind of an IR sort.
pub open spec fn sort_kind(s: Sort) -> Z3Kind {
    match s {
        Sort::Bool => Z3Kind::Bool,
        Sort::Int => Z3Kind::Int,
        Sort::BitVec(w) => Z3Kind::Bv(w),
    }
}

/// The constructions for the terms of one arena, each built once.
#[derive(Debug)]
pub struct Z3Plan {
    nodes: Vec<Z3Node>,
    kinds: Vec<Z3Kind>,
    memo: Vec<Option<usize>>,
}

impl Z3Plan {
    /// The constructions, in order.
    pub closed spec fn spec_nodes(&self) -> Seq<Z3Node> {
        self.nodes@
    }

    /// The kind of each construction.
    pub closed spec fn spec_kinds(&self) -> Seq<Z3Kind> {
        self.kinds@
    }

    /// The constructions of the plan, by position.
    pub fn nodes(&self) -> (r: &Vec<Z3Node>)
        ensures
            r@ == self.spec_nodes(),
    {
        &self.nodes
    }

    /// Construction `a` stands for term `arg`, which is older than `bound`.
    pub open spec fn arg_denotes(&self, ctx: &Ctx, a: int, arg: TermId, bound: nat) -> bool
        decreases bound, 0nat, 0nat,
    {
        if arg.spec_index() < bound {
            self.denotes(ctx, a, arg)
        } else {
            false
        }
    }

    /// The first `n` constructions of `ops` stand for the first `n` terms of `args`.
    pub open spec fn all_denote(&self, ctx: &Ctx, ops: Seq<usize>, args: Seq<TermId>, n: nat, bound: nat) -> bool
        decreases bound, 0nat, n,
    {
        if n == 0 {
            true
        } else if n > ops.len() || n > args.len() || args[n - 1].spec_index() >= bound {
            false
        } else {
            self.all_denote(ctx, ops, args, (n - 1) as nat, bound) && self.denotes(
                ctx,
                ops[n - 1] as int,
                args[n - 1],
            )
        }
    }

    /// Construction `i` builds term `t`: constants for variables, values for literals, and
    /// the Z3 operation of the operator, of the right kind, on constructions of the arguments.
    pub open spec fn denotes(&self, ctx: &Ctx, i: int, t: TermId) -> bool
        decreases t.spec_index(), 1nat, 0nat,
    {
        let nodes = self.spec_nodes();
        let b = t.spec_index();
        &&& 0 <= i < nodes.len()
        &&& i < self.spec_kinds().len()
        &&& self.spec_kinds()[i] == sort_kind(ctx.sort(t))
        &&& match ctx.kind(t) {
            TermKind::Var { sym, sort } => match sort {
                Sort::Bool => nodes[i] matches Z3Node::BoolConst(n) && n@ == sym.0@,
                Sort::Int => nodes[i] matches Z3Node::IntConst(n) && n@ == sym.0@,
                Sort::BitVec(w) => nodes[i] matches Z3Node::BvConst(n, w2) && n@ == sym.0@ && w2
                    == w,
            },
            TermKind::BoolLit(v) => nodes[i] matches Z3Node::BoolVal(x) && x == v,
            TermKind::IntLit(v) => nodes[i] matches Z3Node::IntVal(x) && x == v,
            TermKind::BvLit { value, width } => nodes[i] matches Z3Node::BvVal(x, w) && x == value
                && w == width,
            TermKind::App { op, args } => {
                let a = args@;
                match op {
                    Op::Not => nodes[i] matches Z3Node::Not(x) && a.len() == 1 && self.arg_denotes(
                        ctx,
                        x as int,
                        a[0],
                        b,
                    ),
                    Op::And => nodes[i] matches Z3Node::And(ops) && ops@.len() == a.len()
                        && self.all_denote(ctx, ops@, a, a.len(), b),
                    Op::Or => nodes[i] matches Z3Node::Or(ops) && ops@.len() == a.len()
                        && self.all_denote(ctx, ops@, a, a.len(), b),
                    Op::Eq => nodes[i] matches Z3Node::Eq(k, x, y) && a.len() == 2 && k == sort_kind(
                        ctx.sort(a[0]),
                    ) && self.arg_denotes(ctx, x as int, a[0], b) && self.arg_denotes(
                        ctx,
                        y as int,
                        a[1],
                        b,
                    ),
                    Op::Distinct => nodes[i] matches Z3Node::Distinct(k, ops) && a.len() > 0 && k
                        == sort_kind(ctx.sort(a[0])) && ops@.len() == a.len() && self.all_denote(
                        ctx,
                        ops@,
                        a,
                        a.len(),
                        b,
                    ),
                    Op::Lt => nodes[i] matches Z3Node::Lt(k, x, y) && a.len() == 2 && k == sort_kind(
                        ctx.sort(a[0]),
                    ) && self.arg_denotes(ctx, x as int, a[0], b) && self.arg_denotes(
                        ctx,
                        y as int,
                        a[1],
                        b,
                    ),
                    Op::Le => nodes[i] matches Z3Node::Le(k, x, y) && a.len() == 2 && k == sort_kind(
                        ctx.sort(a[0]),
                    ) && self.arg_denotes(ctx, x as int, a[0], b) && self.arg_denotes(
                        ctx,
                        y as int,
                        a[1],
                        b,
                    ),
                    Op::Ge => nodes[i] matches Z3Node::Ge(k, x, y) && a.len() == 2 && k == sort_kind(
                        ctx.sort(a[0]),
                    ) && self.arg_denotes(ctx, x as int, a[0], b) && self.arg_denotes(
                        ctx,
                        y as int,
                        a[1],
                        b,
                    ),
                    Op::Add => if ctx.sort(t) == Sort::Int {
                        nodes[i] matches Z3Node::AddInt(ops) && ops@.len() == a.len()
                            && self.all_denote(ctx, ops@, a, a.len(), b)
                    } else {
                        nodes[i] matches Z3Node::AddBv(ops) && ops@.len() == a.len() && a.len()
                            > 0 && self.all_denote(ctx, ops@, a, a.len(), b)
                    },
                    Op::Ite => nodes[i] matches Z3Node::Ite(k, c, x, y) && a.len() == 3 && k
                        == sort_kind(ctx.sort(t)) && self.arg_denotes(ctx, c as int, a[0], b)
                        && self.arg_denotes(ctx, x as int, a[1], b) && self.arg_denotes(
                        ctx,
                        y as int,
                        a[2],
                        b,
                    ),
                }
            },
        }
    }

    /// `self` holds the constructions of `old` unchanged, and maybe more.
    pub open spec fn extends(&self, old: &Z3Plan) -> bool {
        &&& old.spec_nodes().len() <= self.spec_nodes().len()
        &&& old.spec_kinds().len() <= self.spec_kinds().len()
        &&& forall|i: int| 0 <= i < old.spec_nodes().len() ==> #[trigger] self.spec_nodes()[i] == old.spec_nodes()[i]
        &&& forall|i: int| 0 <= i < old.spec_kinds().len() ==> #[trigger] self.spec_kinds()[i] == old.spec_kinds()[i]
    }

    /// Position `x` is an earlier construction than `i`, of kind `k`.
    pub open spec fn operand(&self, i: int, x: usize, k: Z3Kind) -> bool {
        0 <= x < i && self.spec_kinds()[x as int] == k
    }

    /// Every position in `ops` is an earlier construction than `i`, of kind `k`.
    pub open spec fn operands(&self, i: int, ops: Seq<usize>, k: Z3Kind) -> bool {
        forall|j: int| 0 <= j < ops.len() ==> #[trigger] self.operand(i, ops[j], k)
    }

    /// Construction `n`, of kind `k`, placed at position `i`, can be made with the Z3 API:
    /// its operands come earlier and have the kinds it takes, `k` is the kind it yields,
    /// names hold no NUL character and widths are positive.
    pub open spec fn node_fits(&self, n: Z3Node, k: Z3Kind, i: int) -> bool {
        match n {
            Z3Node::BoolConst(name) => k == Z3Kind::Bool && !name@.contains('\0'),
            Z3Node::IntConst(name) => k == Z3Kind::Int && !name@.contains('\0'),
            Z3Node::BvConst(name, w) => k == Z3Kind::Bv(w) && !name@.contains('\0') && w > 0,
            Z3Node::BoolVal(_) => k == Z3Kind::Bool,
            Z3Node::IntVal(_) => k == Z3Kind::Int,
            Z3Node::BvVal(_, w) => k == Z3Kind::Bv(w) && w > 0,
            Z3Node::Not(x) => k == Z3Kind::Bool && self.operand(i, x, Z3Kind::Bool),
            Z3Node::And(ops) => k == Z3Kind::Bool && 0 < ops@.len() <= u32::MAX && self.operands(
                i,
                ops@,
                Z3Kind::Bool,
            ),
            Z3Node::Or(ops) => k == Z3Kind::Bool && 0 < ops@.len() <= u32::MAX && self.operands(
                i,
                ops@,
                Z3Kind::Bool,
            ),
            Z3Node::Eq(kk, x, y) => k == Z3Kind::Bool && self.operand(i, x, kk) && self.operand(
                i,
                y,
                kk,
            ),
            Z3Node::Distinct(kk, ops) => k == Z3Kind::Bool && 1 < ops@.len() <= u32::MAX && self.operands(
                i,
                ops@,
                kk,
            ),
            Z3Node::Lt(kk, x, y) => k == Z3Kind::Bool && kk != Z3Kind::Bool && self.operand(
                i,
                x,
                kk,
            ) && self.operand(i, y, kk),
            Z3Node::Le(kk, x, y) => k == Z3Kind::Bool && kk != Z3Kind::Bool && self.operand(
                i,
                x,
                kk,
            ) && self.operand(i, y, kk),
            Z3Node::Ge(kk, x, y) => k == Z3Kind::Bool && kk != Z3Kind::Bool && self.operand(
                i,
                x,
                kk,
            ) && self.operand(i, y, kk),
            Z3Node::AddInt(ops) => k == Z3Kind::Int && 0 < ops@.len() <= u32::MAX && self.operands(
                i,
                ops@,
                Z3Kind::Int,
            ),
            Z3Node::AddBv(ops) => k is Bv && 0 < ops@.len() <= u32::MAX && self.operands(
                i,
                ops@,
                k,
            ),
            Z3Node::Ite(kk, c, x, y) => k == kk && self.operand(i, c, Z3Kind::Bool)
                && self.operand(i, x, kk) && self.operand(i, y, kk),
        }
    }

    /// Every construction of the plan can be made with the Z3 API (see `node_fits`).
    pub open spec fn all_fit(&self) -> bool {
        &&& self.spec_nodes().len() == self.spec_kinds().len()
        &&& forall|i: int|
            0 <= i < self.spec_nodes().len() ==> #[trigger] self.node_fits(
                self.spec_nodes()[i],
                self.spec_kinds()[i],
                i,
            )
    }

    /// The memo records, for terms already built, the construction that builds them.
    pub closed spec fn wf(&self, ctx: &Ctx) -> bool {
        &&& self.memo@.len() == ctx.num_terms()
        &&& self.nodes@.len() == self.kinds@.len()
        &&& self.all_fit()
        &&& forall|u: TermId|
            #![trigger self.memo@[u.spec_index() as int]]
            ctx.valid(u) && self.memo@[u.spec_index() as int] is Some ==> self.denotes(
                ctx,
                self.memo@[u.spec_index() as int]->Some_0 as int,
                u,
            )
    }

    /// An empty plan for the terms of `ctx`.
    pub fn new(ctx: &Ctx) -> (r: Self)
        ensures
            r.wf(ctx),
            r.spec_nodes().len() == 0,
    {
        let n = ctx.term_count();
        let mut memo: Vec<Option<usize>> = Vec::with_capacity(n);
        let mut i: usize = 0;
        while i < n
            invariant
                0 <= i <= n,
                memo@.len() == i,
                forall|k: int| 0 <= k < i ==> memo@[k] is None,
            decreases n - i,
        {
            memo.push(None);
            i = i + 1;
        }
        Z3Plan { nodes: Vec::new(), kinds: Vec::new(), memo }
    }

    proof fn lemma_denotes_stable(p2: &Z3Plan, p1: &Z3Plan, ctx: &Ctx, i: int, t: TermId)
        requires
            p2.extends(p1),
            p1.denotes(ctx, i, t),
        ensures
            p2.denotes(ctx, i, t),
        decreases t.spec_index(), 1nat, 0nat,
    {
        let b = t.spec_index();
        assert(p2.spec_nodes()[i] == p1.spec_nodes()[i]);
        assert(p2.spec_kinds()[i] == p1.spec_kinds()[i]);
        match ctx.kind(t) {
            TermKind::App { op, args } => {
                let a = args@;
                match p1.spec_nodes()[i] {
                    Z3Node::Not(x) => {
                        Self::lemma_arg_stable(p2, p1, ctx, x as int, a[0], b);
                    },
                    Z3Node::And(ops) | Z3Node::Or(ops) | Z3Node::Distinct(_, ops) | Z3Node::AddInt(ops) | Z3Node::AddBv(ops) => {
                        Self::lemma_all_stable(p2, p1, ctx, ops@, a, a.len(), b);
                    },
                    Z3Node::Eq(_, x, y) | Z3Node::Lt(_, x, y) | Z3Node::Le(_, x, y) | Z3Node::Ge(_, x, y) => {
                        Self::lemma_arg_stable(p2, p1, ctx, x as int, a[0], b);
                        Self::lemma_arg_stable(p2, p1, ctx, y as int, a[1], b);
                    },
                    Z3Node::Ite(_, c, x, y) => {
                        Self::lemma_arg_stable(p2, p1, ctx, c as int, a[0], b);
                        Self::lemma_arg_stable(p2, p1, ctx, x as int, a[1], b);
                        Self::lemma_arg_stable(p2, p1, ctx, y as int, a[2], b);
                    },
                    _ => {},
                }
            },
            _ => {},
        }
    }

    proof fn lemma_arg_stable(p2: &Z3Plan, p1: &Z3Plan, ctx: &Ctx, a: int, arg: TermId, bound: nat)
        requires
            p2.extends(p1),
            p1.arg_denotes(ctx, a, arg, bound),
        ensures
            p2.arg_denotes(ctx, a, arg, bound),
        decreases bound, 0nat, 0nat,
    {
        Self::lemma_denotes_stable(p2, p1, ctx, a, arg);
    }

    proof fn lemma_all_stable(p2: &Z3Plan, p1: &Z3Plan, ctx: &Ctx, ops: Seq<usize>, args: Seq<TermId>, n: nat, bound: nat)
        requires
            p2.extends(p1),
            p1.all_denote(ctx, ops, args, n, bound),
        ensures
            p2.all_denote(ctx, ops, args, n, bound),
        decreases bound, 0nat, n,
    {
        if n > 0 {
            Self::lemma_all_stable(p2, p1, ctx, ops, args, (n - 1) as nat, bound);
            Self::lemma_denotes_stable(p2, p1, ctx, ops[n - 1] as int, args[n - 1]);
        }
    }

    proof fn lemma_all_denote_operands(p: &Z3Plan, ctx: &Ctx, ops: Seq<usize>, args: Seq<TermId>, n: nat, bound: nat, want: Z3Kind, i: int)
        requires
            p.all_denote(ctx, ops, args, n, bound),
            forall|j: int| 0 <= j < n ==> sort_kind(ctx.sort(#[trigger] args[j])) == want,
            p.spec_nodes().len() <= i,
        ensures
            forall|j: int| 0 <= j < n ==> #[trigger] p.operand(i, ops[j], want),
        decreases n,
    {
        if n > 0 {
            Self::lemma_all_denote_operands(p, ctx, ops, args, (n - 1) as nat, bound, want, i);
            assert(p.denotes(ctx, ops[n - 1] as int, args[n - 1]));
            assert(sort_kind(ctx.sort(args[n - 1])) == want);
        }
    }

    proof fn lemma_all_ext(p: &Z3Plan, ctx: &Ctx, ops1: Seq<usize>, ops2: Seq<usize>, args: Seq<TermId>, n: nat, bound: nat)
        requires
            p.all_denote(ctx, ops1, args, n, bound),
            n <= ops2.len(),
            forall|k: int| 0 <= k < n ==> ops1[k] == ops2[k],
        ensures
            p.all_denote(ctx, ops2, args, n, bound),
        decreases n,
    {
        if n > 0 {
            Self::lemma_all_ext(p, ctx, ops1, ops2, args, (n - 1) as nat, bound);
        }
    }

    proof fn lemma_wf_stable(p2: &Z3Plan, p1: &Z3Plan, ctx: &Ctx)
        requires
            p2.extends(p1),
            p1.wf(ctx),
            p2.memo@ == p1.memo@,
            p2.all_fit(),
        ensures
            p2.wf(ctx),
    {
        assert forall|u: TermId|
            #![trigger p2.memo@[u.spec_index() as int]]
            ctx.valid(u) && p2.memo@[u.spec_index() as int] is Some implies p2.denotes(
                ctx,
                p2.memo@[u.spec_index() as int]->Some_0 as int,
                u,
            ) by {
            assert(p1.memo@[u.spec_index() as int] is Some);
            Self::lemma_denotes_stable(p2, p1, ctx, p1.memo@[u.spec_index() as int]->Some_0 as int, u);
        }
    }

    proof fn lemma_fits_stable(p2: &Z3Plan, p1: &Z3Plan, n: Z3Node, k: Z3Kind, i: int)
        requires
            p2.extends(p1),
            i <= p1.spec_kinds().len(),
            p1.node_fits(n, k, i),
        ensures
            p2.node_fits(n, k, i),
    {
        assert forall|x: usize, kk: Z3Kind| #[trigger] p1.operand(i, x, kk) implies p2.operand(i, x, kk) by {}
        match n {
            Z3Node::And(ops) | Z3Node::Or(ops) | Z3Node::Distinct(_, ops) | Z3Node::AddInt(ops) | Z3Node::AddBv(ops) => {
                let kk = match n {
                    Z3Node::Distinct(kd, _) => kd,
                    Z3Node::AddInt(_) => Z3Kind::Int,
                    Z3Node::AddBv(_) => k,
                    _ => Z3Kind::Bool,
                };
                assert forall|j: int| 0 <= j < ops@.len() implies #[trigger] p2.operand(i, ops@[j], kk) by {
                    assert(p1.operand(i, ops@[j], kk));
                }
            },
            _ => {},
        }
    }

    proof fn lemma_all_fit_stable(p2: &Z3Plan, p1: &Z3Plan)
        requires
            p2.extends(p1),
            p1.all_fit(),
            p2.spec_nodes().len() == p2.spec_kinds().len(),
            forall|i: int|
                p1.spec_nodes().len() <= i < p2.spec_nodes().len() ==> #[trigger] p2.node_fits(
                    p2.spec_nodes()[i],
                    p2.spec_kinds()[i],
                    i,
                ),
        ensures
            p2.all_fit(),
    {
        assert forall|i: int| 0 <= i < p2.spec_nodes().len() implies #[trigger] p2.node_fits(
            p2.spec_nodes()[i],
            p2.spec_kinds()[i],
            i,
        ) by {
            if i < p1.spec_nodes().len() {
                assert(p1.node_fits(p1.spec_nodes()[i], p1.spec_kinds()[i], i));
                Self::lemma_fits_stable(p2, p1, p1.spec_nodes()[i], p1.spec_kinds()[i], i);
            }
        }
    }

    fn push_node(&mut self, ctx: &Ctx, n: Z3Node, k: Z3Kind) -> (i: usize)
        requires
            old(self).wf(ctx),
            old(self).node_fits(n, k, old(self).spec_nodes().len() as int),
        ensures
            final(self).wf(ctx),
            final(self).extends(old(self)),
            final(self).spec_nodes() == old(self).spec_nodes().push(n),
            final(self).spec_kinds() == old(self).spec_kinds().push(k),
            final(self).memo@ == old(self).memo@,
            i == old(self).spec_nodes().len(),
    {
        let i = self.nodes.len();
        self.nodes.push(n);
        self.kinds.push(k);
        proof {
            Self::lemma_fits_stable(self, old(self), n, k, i as int);
            Self::lemma_all_fit_stable(self, old(self));
            Self::lemma_wf_stable(self, old(self), ctx);
        }
        i
    }

    fn kind_at(&self, i: usize) -> (r: Z3Kind)
        requires
            i < self.spec_kinds().len(),
        ensures
            r == self.spec_kinds()[i as int],
    {
        self.kinds[i]
    }

    /// Builds the constructions of `args` (older than `t`), each of which must have kind
    /// `want`.
    fn translate_args(&mut self, ctx: &Ctx, args: &Vec<TermId>, t: TermId, want: Z3Kind) -> (r: Result<Vec<usize>, Z3BackendError>)
        requires
            ctx.wf(),
            forall|k: int| 0 <= k < args@.len() ==> ctx.plain_below(#[trigger] args@[k]),
            old(self).wf(ctx),
            forall|k: int| 0 <= k < args@.len() ==> #[trigger] args@[k].spec_index() < t.spec_index(),
            t.spec_index() <= ctx.num_terms(),
            forall|k: int| 0 <= k < args@.len() ==> sort_kind(ctx.sort(#[trigger] args@[k])) == want,
        ensures
            final(self).wf(ctx),
            final(self).extends(old(self)),
            r matches Ok(ops) && ops@.len() == args@.len() && final(self).all_denote(ctx, ops@, args@, args@.len(), t.spec_index()),
        decreases t.spec_index(), 0nat,
    {
        let mut ops: Vec<usize> = Vec::new();
        let mut i: usize = 0;
        while i < args.len()
            invariant
                ctx.wf(),
                forall|k: int| 0 <= k < args@.len() ==> ctx.plain_below(#[trigger] args@[k]),
                self.wf(ctx),
                self.extends(old(self)),
                forall|k: int| 0 <= k < args@.len() ==> #[trigger] args@[k].spec_index() < t.spec_index(),
                t.spec_index() <= ctx.num_terms(),
                forall|k: int| 0 <= k < args@.len() ==> sort_kind(ctx.sort(#[trigger] args@[k])) == want,
                0 <= i <= args@.len(),
                ops@.len() == i,
                self.all_denote(ctx, ops@, args@, i as nat, t.spec_index()),
            decreases args@.len() - i,
        {
            let ghost before = *self;
            assert(args@[i as int].spec_index() < t.spec_index());
            let x = self.translate(ctx, args[i])?;
            let k = self.kind_at(x);
            if k != want {
                return Err(Z3BackendError::TypeMismatch);
            }
            let ghost prev = ops@;
            proof {
                Self::lemma_all_stable(self, &before, ctx, prev, args@, i as nat, t.spec_index());
            }
            ops.push(x);
            proof {
                Self::lemma_all_ext(self, ctx, prev, ops@, args@, i as nat, t.spec_index());
            }
            i = i + 1;
        }
        Ok(ops)
    }

    /// Builds (or finds) the construction of term `t`. On a well-typed arena this always
    /// succeeds.
    pub fn translate(&mut self, ctx: &Ctx, t: TermId) -> (r: Result<usize, Z3BackendError>)
        requires
            ctx.wf(),
            ctx.valid(t),
            ctx.plain_below(t),
            old(self).wf(ctx),
        ensures
            final(self).wf(ctx),
            final(self).extends(old(self)),
            r matches Ok(i) && final(self).denotes(ctx, i as int, t),
        decreases t.spec_index(), 3nat,
    {
        let ti = t.index() as usize;
        if let Some(hit) = self.memo[ti] {
            return Ok(hit);
        }
        proof {
            assert(ctx.node_ok(t));
            assert(ctx.term_plain(t));
        }
        let k = sort_kind_exec(ctx.sort_of(t));
        let i = match ctx.kind_of(t) {
            TermKind::Var { sym, sort } => {
                let name = sym.0.clone();
                let node = match sort {
                    Sort::Bool => Z3Node::BoolConst(name),
                    Sort::Int => Z3Node::IntConst(name),
                    Sort::BitVec(w) => Z3Node::BvConst(name, *w),
                };
                self.push_node(ctx, node, k)
            },
            TermKind::BoolLit(v) => self.push_node(ctx, Z3Node::BoolVal(*v), k),
            TermKind::IntLit(v) => self.push_node(ctx, Z3Node::IntVal(*v), k),
            TermKind::BvLit { value, width } => self.push_node(ctx, Z3Node::BvVal(*value, *width), k),
            TermKind::App { op, args } => self.translate_app(ctx, t, *op, args, k)?,
        };
        proof {
            assert(self.denotes(ctx, i as int, t));
        }
        let ghost before_memo = *self;
        self.memo.set(ti, Some(i));
        proof {
            Self::lemma_all_fit_stable(self, &before_memo);
            Self::lemma_denotes_stable(self, &before_memo, ctx, i as int, t);
            assert forall|u: TermId|
                #![trigger self.memo@[u.spec_index() as int]]
                ctx.valid(u) && self.memo@[u.spec_index() as int] is Some implies self.denotes(
                    ctx,
                    self.memo@[u.spec_index() as int]->Some_0 as int,
                    u,
                ) by {
                if u.spec_index() == t.spec_index() {
                    TermId::lemma_index_injective(u, t);
                } else {
                    assert(before_memo.memo@[u.spec_index() as int] is Some);
                    Self::lemma_denotes_stable(self, &before_memo, ctx, before_memo.memo@[u.spec_index() as int]->Some_0 as int, u);
                }
            }
        }
        Ok(i)
    }

    /// Builds the construction of the application `t` of `op` to `args`, whose kind is `k`.
    fn translate_app(&mut self, ctx: &Ctx, t: TermId, op: Op, args: &Vec<TermId>, k: Z3Kind) -> (r: Result<usize, Z3BackendError>)
        requires
            ctx.wf(),
            ctx.valid(t),
            ctx.plain_below(t),
            ctx.is_app(t, op, args@),
            k == sort_kind(ctx.sort(t)),
            old(self).wf(ctx),
        ensures
            final(self).wf(ctx),
            final(self).extends(old(self)),
            r matches Ok(i) && final(self).denotes(ctx, i as int, t),
        decreases t.spec_index(), 2nat,
    {
        proof {
            assert(ctx.node_ok(t));
            assert forall|j: int| 0 <= j < args@.len() implies #[trigger] args@[j].spec_index() < t.spec_index() && ctx.valid(args@[j]) by {}
            ctx.lemma_args_plain_below(args@, args@.len(), t.spec_index());
        }
        match op {
            Op::Not => self.translate_not(ctx, t, args, k),
            Op::Eq | Op::Lt | Op::Le | Op::Ge => self.translate_pair(ctx, t, op, args, k),
            Op::Ite => self.translate_ite(ctx, t, args, k),
            _ => self.translate_list(ctx, t, op, args, k),
        }
    }

    fn translate_not(&mut self, ctx: &Ctx, t: TermId, args: &Vec<TermId>, k: Z3Kind) -> (r: Result<usize, Z3BackendError>)
        requires
            ctx.wf(),
            ctx.valid(t),
            ctx.term_plain(t),
            forall|j: int| 0 <= j < args@.len() ==> ctx.plain_below(#[trigger] args@[j]),
            ctx.is_app(t, Op::Not, args@),
            k == sort_kind(ctx.sort(t)),
            old(self).wf(ctx),
        ensures
            final(self).wf(ctx),
            final(self).extends(old(self)),
            r matches Ok(i) && final(self).denotes(ctx, i as int, t),
        decreases t.spec_index(), 1nat,
    {
        proof {
            assert(ctx.node_ok(t));
            assert(ctx.arg_sorts(args@)[0] == ctx.sort(args@[0]));
        }
        let ghost b = t.spec_index();
        let a = self.translate(ctx, args[0])?;
        if self.kind_at(a) != Z3Kind::Bool {
            return Err(Z3BackendError::TypeMismatch);
        }
        let ghost pre = *self;
        let r = self.push_node(ctx, Z3Node::Not(a), k);
        proof {
            Self::lemma_denotes_stable(self, &pre, ctx, a as int, args@[0]);
            assert(self.arg_denotes(ctx, a as int, args@[0], b));
        }
        Ok(r)
    }

    fn translate_pair(&mut self, ctx: &Ctx, t: TermId, op: Op, args: &Vec<TermId>, k: Z3Kind) -> (r: Result<usize, Z3BackendError>)
        requires
            ctx.wf(),
            ctx.valid(t),
            ctx.term_plain(t),
            forall|j: int| 0 <= j < args@.len() ==> ctx.plain_below(#[trigger] args@[j]),
            ctx.is_app(t, op, args@),
            op == Op::Eq || op == Op::Lt || op == Op::Le || op == Op::Ge,
            k == sort_kind(ctx.sort(t)),
            old(self).wf(ctx),
        ensures
            final(self).wf(ctx),
            final(self).extends(old(self)),
            r matches Ok(i) && final(self).denotes(ctx, i as int, t),
        decreases t.spec_index(), 1nat,
    {
        proof {
            assert(ctx.node_ok(t));
            assert(ctx.arg_sorts(args@)[0] == ctx.sort(args@[0]));
            assert(ctx.arg_sorts(args@)[1] == ctx.sort(args@[1]));
        }
        let ghost b = t.spec_index();
        let a = self.translate(ctx, args[0])?;
        let ghost p1 = *self;
        let c = self.translate(ctx, args[1])?;
        proof {
            Self::lemma_denotes_stable(self, &p1, ctx, a as int, args@[0]);
        }
        let ka = self.kind_at(a);
        let kc = self.kind_at(c);
        let node = match op {
            Op::Eq => {
                if ka != kc {
                    return Err(Z3BackendError::TypeMismatch);
                }
                Z3Node::Eq(ka, a, c)
            },
            _ => {
                let kk = match (ka, kc) {
                    (Z3Kind::Int, Z3Kind::Int) => Z3Kind::Int,
                    (Z3Kind::Bv(x), Z3Kind::Bv(y)) if x == y => Z3Kind::Bv(x),
                    _ => {
                        return Err(Z3BackendError::TypeMismatch);
                    },
                };
                match op {
                    Op::Lt => Z3Node::Lt(kk, a, c),
                    Op::Le => Z3Node::Le(kk, a, c),
                    _ => Z3Node::Ge(kk, a, c),
                }
            },
        };
        let ghost pre = *self;
        let r = self.push_node(ctx, node, k);
        proof {
            Self::lemma_denotes_stable(self, &pre, ctx, a as int, args@[0]);
            Self::lemma_denotes_stable(self, &pre, ctx, c as int, args@[1]);
            assert(self.arg_denotes(ctx, a as int, args@[0], b));
            assert(self.arg_denotes(ctx, c as int, args@[1], b));
        }
        Ok(r)
    }

    fn translate_ite(&mut self, ctx: &Ctx, t: TermId, args: &Vec<TermId>, k: Z3Kind) -> (r: Result<usize, Z3BackendError>)
        requires
            ctx.wf(),
            ctx.valid(t),
            ctx.term_plain(t),
            forall|j: int| 0 <= j < args@.len() ==> ctx.plain_below(#[trigger] args@[j]),
            ctx.is_app(t, Op::Ite, args@),
            k == sort_kind(ctx.sort(t)),
            old(self).wf(ctx),
        ensures
            final(self).wf(ctx),
            final(self).extends(old(self)),
            r matches Ok(i) && final(self).denotes(ctx, i as int, t),
        decreases t.spec_index(), 1nat,
    {
        proof {
            assert(ctx.node_ok(t));
            assert(ctx.arg_sorts(args@)[0] == ctx.sort(args@[0]));
            assert(ctx.arg_sorts(args@)[1] == ctx.sort(args@[1]));
            assert(ctx.arg_sorts(args@)[2] == ctx.sort(args@[2]));
        }
        let ghost b = t.spec_index();
        let c = self.translate(ctx, args[0])?;
        if self.kind_at(c) != Z3Kind::Bool {
            return Err(Z3BackendError::TypeMismatch);
        }
        let ghost p1 = *self;
        let x = self.translate(ctx, args[1])?;
        let ghost p2 = *self;
        let y = self.translate(ctx, args[2])?;
        proof {
            Self::lemma_denotes_stable(&p2, &p1, ctx, c as int, args@[0]);
            Self::lemma_denotes_stable(self, &p2, ctx, c as int, args@[0]);
            Self::lemma_denotes_stable(self, &p2, ctx, x as int, args@[1]);
        }
        let kx = self.kind_at(x);
        if kx != self.kind_at(y) {
            return Err(Z3BackendError::TypeMismatch);
        }
        let ghost pre = *self;
        let r = self.push_node(ctx, Z3Node::Ite(kx, c, x, y), k);
        proof {
            Self::lemma_denotes_stable(self, &pre, ctx, c as int, args@[0]);
            Self::lemma_denotes_stable(self, &pre, ctx, x as int, args@[1]);
            Self::lemma_denotes_stable(self, &pre, ctx, y as int, args@[2]);
            assert(self.arg_denotes(ctx, c as int, args@[0], b));
            assert(self.arg_denotes(ctx, x as int, args@[1], b));
            assert(self.arg_denotes(ctx, y as int, args@[2], b));
        }
        Ok(r)
    }

    /// And, Or, Distinct and Add: one construction over the constructions of all arguments.
    fn translate_list(&mut self, ctx: &Ctx, t: TermId, op: Op, args: &Vec<TermId>, k: Z3Kind) -> (r: Result<usize, Z3BackendError>)
        requires
            ctx.wf(),
            ctx.valid(t),
            ctx.term_plain(t),
            forall|j: int| 0 <= j < args@.len() ==> ctx.plain_below(#[trigger] args@[j]),
            ctx.is_app(t, op, args@),
            op == Op::And || op == Op::Or || op == Op::Distinct || op == Op::Add,
            k == sort_kind(ctx.sort(t)),
            old(self).wf(ctx),
        ensures
            final(self).wf(ctx),
            final(self).extends(old(self)),
            r matches Ok(i) && final(self).denotes(ctx, i as int, t),
        decreases t.spec_index(), 1nat,
    {
        proof {
            assert(ctx.node_ok(t));
            assert(ctx.term_plain(t));
        }
        let ghost s = ctx.arg_sorts(args@);
        let ghost b = t.spec_index();
        let want = match op {
            Op::And | Op::Or => Z3Kind::Bool,
            _ => sort_kind_exec(ctx.sort_of(args[0])),
        };
        proof {
            match op {
                Op::And | Op::Or => lemma_no_mismatch(s, 0, Sort::Bool),
                Op::Distinct => lemma_no_mismatch(s, 1, s[0]),
                _ => lemma_no_mismatch(s, 1, s[0]),
            }
            assert forall|j: int| 0 <= j < args@.len() implies sort_kind(ctx.sort(#[trigger] args@[j])) == want by {
                assert(s[j] == ctx.sort(args@[j]));
                assert(s[0] == ctx.sort(args@[0]));
            }
        }
        if op == Op::Add && want == Z3Kind::Bool {
            return Err(Z3BackendError::UnsupportedSort(Sort::Bool));
        }
        let ops = self.translate_args(ctx, args, t, want)?;
        if op == Op::Add && want != Z3Kind::Int && ops.len() == 0 {
            return Err(Z3BackendError::TypeMismatch);
        }
        let ghost opsv = ops@;
        proof {
            Self::lemma_all_denote_operands(self, ctx, opsv, args@, args@.len(), b, want, self.spec_nodes().len() as int);
            assert(s.len() == args@.len());
        }
        let node = match op {
            Op::And => Z3Node::And(ops),
            Op::Or => Z3Node::Or(ops),
            Op::Distinct => Z3Node::Distinct(want, ops),
            _ => if want == Z3Kind::Int {
                Z3Node::AddInt(ops)
            } else {
                Z3Node::AddBv(ops)
            },
        };
        let ghost pre = *self;
        let r = self.push_node(ctx, node, k);
        proof {
            Self::lemma_all_stable(self, &pre, ctx, opsv, args@, args@.len(), b);
        }
        Ok(r)
    }
}

pub fn sort_kind_exec(s: &Sort) -> (r: Z3Kind)
    ensures
        r == sort_kind(*s),
{
    match s {
        Sort::Bool => Z3Kind::Bool,
        Sort::Int => Z3Kind::Int,
        Sort::BitVec(w) => Z3Kind::Bv(*w),
    }
}

proof fn lemma_no_mismatch(s: Seq<Sort>, i: nat, want: Sort)
    ensures
        first_mismatch(s, i, want) is None ==> forall|k: int| i <= k < s.len() ==> s[k] == want,
    decreases s.len() - i,
{
    if i < s.len() {
        lemma_no_mismatch(s, i + 1, want);
    }
}

/// A Z3 term of one of the three kinds.
pub enum Z3Term {
    Bool(Z3Bool),
    Int(Z3Int),
    Bv(Z3Bv),
}

/// The kind of a Z3 term.
pub open spec fn term_kind(t: Z3Term) -> Z3Kind {
    match t {
        Z3Term::Bool(_) => Z3Kind::Bool,
        Z3Term::Int(_) => Z3Kind::Int,
        Z3Term::Bv(b) => Z3Kind::Bv(b.width()),
    }
}

/// What a Z3 term was built as.
pub open spec fn term_expr(t: Z3Term) -> Z3Expr {
    match t {
        Z3Term::Bool(b) => b@,
        Z3Term::Int(i) => i@,
        Z3Term::Bv(b) => b@,
    }
}

/// What each of a list of Z3 terms was built as.
pub open spec fn term_exprs(ts: Seq<Z3Term>) -> Seq<Z3Expr> {
    ts.map_values(|t: Z3Term| term_expr(t))
}

fn bool_at(ts: &Vec<Z3Term>, x: usize) -> (r: &Z3Bool)
    requires
        x < ts@.len(),
        term_kind(ts@[x as int]) == Z3Kind::Bool,
    ensures
        ts@[x as int] == Z3Term::Bool(*r),
{
    match &ts[x] {
        Z3Term::Bool(b) => b,
        _ => vstd::pervasive::unreached(),
    }
}

fn int_at(ts: &Vec<Z3Term>, x: usize) -> (r: &Z3Int)
    requires
        x < ts@.len(),
        term_kind(ts@[x as int]) == Z3Kind::Int,
    ensures
        ts@[x as int] == Z3Term::Int(*r),
{
    match &ts[x] {
        Z3Term::Int(v) => v,
        _ => vstd::pervasive::unreached(),
    }
}

fn bv_at(ts: &Vec<Z3Term>, x: usize, w: Ghost<u32>) -> (r: &Z3Bv)
    requires
        x < ts@.len(),
        term_kind(ts@[x as int]) == Z3Kind::Bv(w@),
    ensures
        r.width() == w@,
        ts@[x as int] == Z3Term::Bv(*r),
{
    match &ts[x] {
        Z3Term::Bv(b) => b,
        _ => vstd::pervasive::unreached(),
    }
}

/// Copies of the Boolean terms at positions `ops`, in order.
fn bools_at(ts: &Vec<Z3Term>, ops: &Vec<usize>) -> (r: Vec<Z3Bool>)
    requires
        forall|j: int| 0 <= j < ops@.len() ==> #[trigger] ops@[j] < ts@.len() && term_kind(
            ts@[ops@[j] as int],
        ) == Z3Kind::Bool,
    ensures
        r@.len() == ops@.len(),
        bool_exprs(r@) == operand_exprs(ops@, term_exprs(ts@)),
{
    let mut r: Vec<Z3Bool> = Vec::new();
    let mut j: usize = 0;
    while j < ops.len()
        invariant
            forall|j: int| 0 <= j < ops@.len() ==> #[trigger] ops@[j] < ts@.len() && term_kind(
                ts@[ops@[j] as int],
            ) == Z3Kind::Bool,
            0 <= j <= ops@.len(),
            r@.len() == j,
            forall|q: int| 0 <= q < j ==> #[trigger] r@[q]@ == term_expr(ts@[ops@[q] as int]),
        decreases ops@.len() - j,
    {
        assert(ops@[j as int] < ts@.len());
        r.push(api::bool_clone(bool_at(ts, ops[j])));
        j = j + 1;
    }
    assert(bool_exprs(r@) =~= operand_exprs(ops@, term_exprs(ts@)));
    r
}

/// Copies of the integer terms at positions `ops`, in order.
fn ints_at(ts: &Vec<Z3Term>, ops: &Vec<usize>) -> (r: Vec<Z3Int>)
    requires
        forall|j: int| 0 <= j < ops@.len() ==> #[trigger] ops@[j] < ts@.len() && term_kind(
            ts@[ops@[j] as int],
        ) == Z3Kind::Int,
    ensures
        r@.len() == ops@.len(),
        int_exprs(r@) == operand_exprs(ops@, term_exprs(ts@)),
{
    let mut r: Vec<Z3Int> = Vec::new();
    let mut j: usize = 0;
    while j < ops.len()
        invariant
            forall|j: int| 0 <= j < ops@.len() ==> #[trigger] ops@[j] < ts@.len() && term_kind(
                ts@[ops@[j] as int],
            ) == Z3Kind::Int,
            0 <= j <= ops@.len(),
            r@.len() == j,
            forall|q: int| 0 <= q < j ==> #[trigger] r@[q]@ == term_expr(ts@[ops@[q] as int]),
        decreases ops@.len() - j,
    {
        assert(ops@[j as int] < ts@.len());
        r.push(api::int_clone(int_at(ts, ops[j])));
        j = j + 1;
    }
    assert(int_exprs(r@) =~= operand_exprs(ops@, term_exprs(ts@)));
    r
}

/// Copies of the bit-vector terms at positions `ops`, all of width `w`, in order.
fn bvs_at(ts: &Vec<Z3Term>, ops: &Vec<usize>, w: Ghost<u32>) -> (r: Vec<Z3Bv>)
    requires
        forall|j: int| 0 <= j < ops@.len() ==> #[trigger] ops@[j] < ts@.len() && term_kind(
            ts@[ops@[j] as int],
        ) == Z3Kind::Bv(w@),
    ensures
        r@.len() == ops@.len(),
        forall|j: int| 0 <= j < r@.len() ==> #[trigger] r@[j].width() == w@,
        bv_exprs(r@) == operand_exprs(ops@, term_exprs(ts@)),
{
    let mut r: Vec<Z3Bv> = Vec::new();
    let mut j: usize = 0;
    while j < ops.len()
        invariant
            forall|j: int| 0 <= j < ops@.len() ==> #[trigger] ops@[j] < ts@.len() && term_kind(
                ts@[ops@[j] as int],
            ) == Z3Kind::Bv(w@),
            0 <= j <= ops@.len(),
            r@.len() == j,
            forall|q: int| 0 <= q < r@.len() ==> #[trigger] r@[q].width() == w@,
            forall|q: int| 0 <= q < j ==> #[trigger] r@[q]@ == term_expr(ts@[ops@[q] as int]),
        decreases ops@.len() - j,
    {
        assert(ops@[j as int] < ts@.len());
        r.push(api::bv_clone(bv_at(ts, ops[j], w)));
        j = j + 1;
    }
    assert(bv_exprs(r@) =~= operand_exprs(ops@, term_exprs(ts@)));
    r
}

/// The descriptions of the operands at positions `ops`, taken from `es`.
pub open spec fn operand_exprs(ops: Seq<usize>, es: Seq<Z3Expr>) -> Seq<Z3Expr> {
    ops.map_values(|x: usize| es[x as int])
}

/// What the Z3 term of construction `n` is built as, given what the earlier constructions
/// were built as (`es`, by position).
pub open spec fn node_expr(n: Z3Node, es: Seq<Z3Expr>) -> Z3Expr {
    match n {
        Z3Node::BoolConst(name) => Z3Expr::BoolConst(name@),
        Z3Node::IntConst(name) => Z3Expr::IntConst(name@),
        Z3Node::BvConst(name, w) => Z3Expr::BvConst(name@, w),
        Z3Node::BoolVal(v) => Z3Expr::BoolVal(v),
        Z3Node::IntVal(v) => Z3Expr::IntVal(v),
        Z3Node::BvVal(v, w) => Z3Expr::BvVal(v, w),
        Z3Node::Not(x) => Z3Expr::Not(Box::new(es[x as int])),
        Z3Node::And(ops) => Z3Expr::And(operand_exprs(ops@, es)),
        Z3Node::Or(ops) => Z3Expr::Or(operand_exprs(ops@, es)),
        Z3Node::Eq(_, x, y) => Z3Expr::Eq(Box::new(es[x as int]), Box::new(es[y as int])),
        Z3Node::Distinct(_, ops) => Z3Expr::Distinct(operand_exprs(ops@, es)),
        Z3Node::Lt(k, x, y) => if k == Z3Kind::Int {
            Z3Expr::Lt(Box::new(es[x as int]), Box::new(es[y as int]))
        } else {
            Z3Expr::BvUlt(Box::new(es[x as int]), Box::new(es[y as int]))
        },
        Z3Node::Le(k, x, y) => if k == Z3Kind::Int {
            Z3Expr::Le(Box::new(es[x as int]), Box::new(es[y as int]))
        } else {
            Z3Expr::BvUle(Box::new(es[x as int]), Box::new(es[y as int]))
        },
        Z3Node::Ge(k, x, y) => if k == Z3Kind::Int {
            Z3Expr::Ge(Box::new(es[x as int]), Box::new(es[y as int]))
        } else {
            Z3Expr::BvUge(Box::new(es[x as int]), Box::new(es[y as int]))
        },
        Z3Node::AddInt(ops) => Z3Expr::Add(operand_exprs(ops@, es)),
        Z3Node::AddBv(ops) => bv_sum(operand_exprs(ops@, es)),
        Z3Node::Ite(_, c, x, y) => Z3Expr::Ite(
            Box::new(es[c as int]),
            Box::new(es[x as int]),
            Box::new(es[y as int]),
        ),
    }
}

impl Z3Plan {
    /// Makes the Z3 term of every construction, in order, with the Z3 API.
    pub fn build_terms(&self) -> (r: Vec<Z3Term>)
        requires
            self.all_fit(),
        ensures
            self.built(r@),
    {
        let mut ts: Vec<Z3Term> = Vec::new();
        let mut i: usize = 0;
        while i < self.nodes.len()
            invariant
                self.all_fit(),
                0 <= i <= self.nodes@.len(),
                ts@.len() == i,
                forall|j: int| 0 <= j < i ==> #[trigger] term_kind(ts@[j]) == self.spec_kinds()[j],
                forall|j: int| 0 <= j < i ==> #[trigger] term_expr(ts@[j]) == node_expr(
                    self.spec_nodes()[j],
                    term_exprs(ts@),
                ),
            decreases self.nodes@.len() - i,
        {
            proof {
                assert(self.node_fits(self.spec_nodes()[i as int], self.spec_kinds()[i as int], i as int));
            }
            let t = self.build_one(&ts, i);
            let ghost old_ts = ts@;
            ts.push(t);
            proof {
                assert(term_exprs(ts@) =~= term_exprs(old_ts).push(term_expr(t)));
                assert forall|j: int| 0 <= j < i + 1 implies #[trigger] term_expr(ts@[j]) == node_expr(
                    self.spec_nodes()[j],
                    term_exprs(ts@),
                ) by {
                    assert(self.node_fits(self.spec_nodes()[j], self.spec_kinds()[j], j));
                    self.lemma_node_expr_prefix(
                        self.spec_nodes()[j],
                        self.spec_kinds()[j],
                        j,
                        term_exprs(old_ts),
                        term_exprs(ts@),
                    );
                }
            }
            i = i + 1;
        }
        ts
    }

    /// `ts` holds, at each position, a Z3 term of the kind of that construction, built as
    /// that construction says from the terms before it.
    pub open spec fn built(&self, ts: Seq<Z3Term>) -> bool {
        &&& ts.len() == self.spec_nodes().len()
        &&& forall|i: int| 0 <= i < ts.len() ==> #[trigger] term_kind(ts[i]) == self.spec_kinds()[i]
        &&& forall|i: int| 0 <= i < ts.len() ==> #[trigger] term_expr(ts[i]) == node_expr(
            self.spec_nodes()[i],
            term_exprs(ts),
        )
    }

    /// What a construction's term is built as depends only on the terms before it.
    proof fn lemma_node_expr_prefix(&self, n: Z3Node, k: Z3Kind, i: int, es1: Seq<Z3Expr>, es2: Seq<Z3Expr>)
        requires
            self.node_fits(n, k, i),
            i <= es1.len(),
            i <= es2.len(),
            forall|x: int| 0 <= x < i ==> es1[x] == es2[x],
        ensures
            node_expr(n, es1) == node_expr(n, es2),
    {
        match n {
            Z3Node::And(ops) | Z3Node::Or(ops) | Z3Node::Distinct(_, ops) | Z3Node::AddInt(ops) | Z3Node::AddBv(ops) => {
                let kk = match n {
                    Z3Node::Distinct(kd, _) => kd,
                    Z3Node::AddInt(_) => Z3Kind::Int,
                    Z3Node::AddBv(_) => k,
                    _ => Z3Kind::Bool,
                };
                assert forall|q: int| 0 <= q < ops@.len() implies operand_exprs(ops@, es1)[q] == operand_exprs(ops@, es2)[q] by {
                    assert(self.operand(i, ops@[q], kk));
                }
                assert(operand_exprs(ops@, es1) =~= operand_exprs(ops@, es2));
            },
            _ => {},
        }
    }

    fn build_one(&self, ts: &Vec<Z3Term>, i: usize) -> (t: Z3Term)
        requires
            self.all_fit(),
            i < self.spec_nodes().len(),
            ts@.len() == i,
            forall|j: int| 0 <= j < i ==> #[trigger] term_kind(ts@[j]) == self.spec_kinds()[j],
            self.node_fits(self.spec_nodes()[i as int], self.spec_kinds()[i as int], i as int),
        ensures
            term_kind(t) == self.spec_kinds()[i as int],
            term_expr(t) == node_expr(self.spec_nodes()[i as int], term_exprs(ts@)),
    {
        match &self.nodes[i] {
            Z3Node::BoolConst(n) => Z3Term::Bool(api::bool_const(n.as_str())),
            Z3Node::IntConst(n) => Z3Term::Int(api::int_const(n.as_str())),
            Z3Node::BvConst(n, w) => Z3Term::Bv(api::bv_const(n.as_str(), *w)),
            Z3Node::BoolVal(v) => Z3Term::Bool(api::bool_val(*v)),
            Z3Node::IntVal(v) => Z3Term::Int(api::int_val(*v)),
            Z3Node::BvVal(v, w) => Z3Term::Bv(api::bv_val(*v, *w)),
            Z3Node::Not(x) => Z3Term::Bool(api::bool_not(bool_at(ts, *x))),
            Z3Node::And(ops) => {
                proof { self.lemma_operands_at(ts, i, ops@, Z3Kind::Bool); }
                Z3Term::Bool(api::bool_and(&bools_at(ts, ops)))
            },
            Z3Node::Or(ops) => {
                proof { self.lemma_operands_at(ts, i, ops@, Z3Kind::Bool); }
                Z3Term::Bool(api::bool_or(&bools_at(ts, ops)))
            },
            Z3Node::Eq(k, x, y) => Z3Term::Bool(
                match k {
                    Z3Kind::Bool => api::bool_eq(bool_at(ts, *x), bool_at(ts, *y)),
                    Z3Kind::Int => api::int_eq(int_at(ts, *x), int_at(ts, *y)),
                    Z3Kind::Bv(w) => api::bv_eq(bv_at(ts, *x, Ghost(*w)), bv_at(ts, *y, Ghost(*w))),
                },
            ),
            Z3Node::Distinct(k, ops) => {
                proof { self.lemma_operands_at(ts, i, ops@, *k); }
                Z3Term::Bool(
                    match k {
                        Z3Kind::Bool => api::bool_distinct(&bools_at(ts, ops)),
                        Z3Kind::Int => api::int_distinct(&ints_at(ts, ops)),
                        Z3Kind::Bv(w) => api::bv_distinct(&bvs_at(ts, ops, Ghost(*w))),
                    },
                )
            },
            Z3Node::Lt(k, x, y) => Z3Term::Bool(
                match k {
                    Z3Kind::Int => api::int_lt(int_at(ts, *x), int_at(ts, *y)),
                    Z3Kind::Bv(w) => api::bv_ult(bv_at(ts, *x, Ghost(*w)), bv_at(ts, *y, Ghost(*w))),
                    Z3Kind::Bool => vstd::pervasive::unreached(),
                },
            ),
            Z3Node::Le(k, x, y) => Z3Term::Bool(
                match k {
                    Z3Kind::Int => api::int_le(int_at(ts, *x), int_at(ts, *y)),
                    Z3Kind::Bv(w) => api::bv_ule(bv_at(ts, *x, Ghost(*w)), bv_at(ts, *y, Ghost(*w))),
                    Z3Kind::Bool => vstd::pervasive::unreached(),
                },
            ),
            Z3Node::Ge(k, x, y) => Z3Term::Bool(
                match k {
                    Z3Kind::Int => api::int_ge(int_at(ts, *x), int_at(ts, *y)),
                    Z3Kind::Bv(w) => api::bv_uge(bv_at(ts, *x, Ghost(*w)), bv_at(ts, *y, Ghost(*w))),
                    Z3Kind::Bool => vstd::pervasive::unreached(),
                },
            ),
            Z3Node::AddInt(ops) => {
                proof { self.lemma_operands_at(ts, i, ops@, Z3Kind::Int); }
                Z3Term::Int(api::int_add(&ints_at(ts, ops)))
            },
            Z3Node::AddBv(ops) => {
                let w = match self.kinds[i] {
                    Z3Kind::Bv(w) => w,
                    _ => vstd::pervasive::unreached(),
                };
                proof { self.lemma_operands_at(ts, i, ops@, Z3Kind::Bv(w)); }
                let xs = bvs_at(ts, ops, Ghost(w));
                let mut acc = api::bv_clone(&xs[0]);
                let mut j: usize = 1;
                proof {
                    assert(bv_exprs(xs@).take(1).len() == 1);
                }
                while j < xs.len()
                    invariant
                        1 <= j <= xs@.len(),
                        acc.width() == w,
                        forall|q: int| 0 <= q < xs@.len() ==> #[trigger] xs@[q].width() == w,
                        acc@ == bv_sum(bv_exprs(xs@).take(j as int)),
                    decreases xs@.len() - j,
                {
                    proof {
                        let es = bv_exprs(xs@);
                        assert(es.take(j + 1).drop_last() =~= es.take(j as int));
                        assert(es.take(j + 1).last() == xs@[j as int]@);
                    }
                    acc = api::bv_add(&acc, &xs[j]);
                    j = j + 1;
                }
                proof {
                    assert(bv_exprs(xs@).take(xs@.len() as int) =~= bv_exprs(xs@));
                }
                Z3Term::Bv(acc)
            },
            Z3Node::Ite(k, c, x, y) => {
                let cb = bool_at(ts, *c);
                match k {
                    Z3Kind::Bool => Z3Term::Bool(api::bool_ite(cb, bool_at(ts, *x), bool_at(ts, *y))),
                    Z3Kind::Int => Z3Term::Int(api::int_ite(cb, int_at(ts, *x), int_at(ts, *y))),
                    Z3Kind::Bv(w) => Z3Term::Bv(
                        api::bv_ite(cb, bv_at(ts, *x, Ghost(*w)), bv_at(ts, *y, Ghost(*w))),
                    ),
                }
            },
        }
    }

    proof fn lemma_operands_at(&self, ts: &Vec<Z3Term>, i: usize, ops: Seq<usize>, k: Z3Kind)
        requires
            ts@.len() == i,
            forall|j: int| 0 <= j < i ==> #[trigger] term_kind(ts@[j]) == self.spec_kinds()[j],
            self.operands(i as int, ops, k),
        ensures
            forall|j: int| 0 <= j < ops.len() ==> #[trigger] ops[j] < ts@.len() && term_kind(
                ts@[ops[j] as int],
            ) == k,
    {
        assert forall|j: int| 0 <= j < ops.len() implies #[trigger] ops[j] < ts@.len() && term_kind(
            ts@[ops[j] as int],
        ) == k by {
            assert(self.operand(i as int, ops[j], k));
        }
    }
}

/// The value bound to `name` by the first entry of `entries` that names it.
pub open spec fn entry_lookup(entries: Seq<(Sym, ModelValue)>, name: Seq<char>) -> Option<ModelValue>
    decreases entries.len(),
{
    if entries.len() == 0 {
        None
    } else if entries[0].0.0@ == name {
        Some(entries[0].1)
    } else {
        entry_lookup(entries.drop_first(), name)
    }
}

/// A projected model: values of variables, by name.
#[derive(Debug)]
pub struct ProjectedModel {
    entries: Vec<(Sym, ModelValue)>,
}

impl ProjectedModel {
    /// The entries, in the order their names were first bound.
    pub closed spec fn spec_entries(&self) -> Seq<(Sym, ModelValue)> {
        self.entries@
    }

    /// The value bound to `name`, if any.
    pub open spec fn lookup(&self, name: Seq<char>) -> Option<ModelValue> {
        entry_lookup(self.spec_entries(), name)
    }

    /// No name is bound twice.
    pub open spec fn wf(&self) -> bool {
        forall|i: int, j: int|
            0 <= i < j < self.spec_entries().len() ==> #[trigger] self.spec_entries()[i].0.0@
                != #[trigger] self.spec_entries()[j].0.0@
    }

    /// The empty model.
    pub fn new() -> (r: Self)
        ensures
            r.wf(),
            r.spec_entries().len() == 0,
            forall|n: Seq<char>| #[trigger] r.lookup(n) is None,
    {
        ProjectedModel { entries: Vec::new() }
    }

    /// Number of bound names.
    pub fn len(&self) -> (r: usize)
        ensures
            r == self.spec_entries().len(),
    {
        self.entries.len()
    }

    /// The entries, in the order their names were first bound.
    pub fn entries(&self) -> (r: &Vec<(Sym, ModelValue)>)
        ensures
            r@ == self.spec_entries(),
    {
        &self.entries
    }

    proof fn lemma_lookup_at(entries: Seq<(Sym, ModelValue)>, k: int)
        requires
            0 <= k < entries.len(),
            forall|i: int, j: int|
                0 <= i < j < entries.len() ==> #[trigger] entries[i].0.0@ != #[trigger] entries[j].0.0@,
        ensures
            entry_lookup(entries, entries[k].0.0@) == Some(entries[k].1),
        decreases entries.len(),
    {
        if k > 0 {
            assert(entries[0].0.0@ != entries[k].0.0@);
            let rest = entries.drop_first();
            assert(rest[k - 1] == entries[k]);
            Self::lemma_lookup_at(rest, k - 1);
        }
    }

    proof fn lemma_lookup_absent(entries: Seq<(Sym, ModelValue)>, name: Seq<char>)
        requires
            forall|i: int| 0 <= i < entries.len() ==> #[trigger] entries[i].0.0@ != name,
        ensures
            entry_lookup(entries, name) is None,
        decreases entries.len(),
    {
        if entries.len() > 0 {
            let rest = entries.drop_first();
            assert forall|i: int| 0 <= i < rest.len() implies #[trigger] rest[i].0.0@ != name by {
                assert(rest[i] == entries[i + 1]);
            }
            Self::lemma_lookup_absent(rest, name);
        }
    }

    proof fn lemma_lookup_found(entries: Seq<(Sym, ModelValue)>, name: Seq<char>)
        requires
            entry_lookup(entries, name) is Some,
        ensures
            exists|k: int| 0 <= k < entries.len() && #[trigger] entries[k].0.0@ == name,
        decreases entries.len(),
    {
        if entries[0].0.0@ != name {
            let rest = entries.drop_first();
            Self::lemma_lookup_found(rest, name);
            let k = choose|k: int| 0 <= k < rest.len() && #[trigger] rest[k].0.0@ == name;
            assert(entries[k + 1] == rest[k]);
        }
    }

    /// The value bound to `sym`'s name, if any.
    pub fn get(&self, sym: &Sym) -> (r: Option<&ModelValue>)
        requires
            self.wf(),
        ensures
            match r {
                Some(v) => self.lookup(sym.0@) == Some(*v),
                None => self.lookup(sym.0@) is None,
            },
    {
        let mut i: usize = 0;
        while i < self.entries.len()
            invariant
                self.wf(),
                0 <= i <= self.entries@.len(),
                forall|j: int| 0 <= j < i ==> #[trigger] self.entries@[j].0.0@ != sym.0@,
            decreases self.entries@.len() - i,
        {
            if crate::text::str_eq(self.entries[i].0.0.as_str(), sym.0.as_str()) {
                proof {
                    Self::lemma_lookup_at(self.entries@, i as int);
                }
                return Some(&self.entries[i].1);
            }
            i = i + 1;
        }
        proof {
            Self::lemma_lookup_absent(self.entries@, sym.0@);
        }
        None
    }

    /// Binds `sym`'s name to `v`, in place of any value it had.
    pub fn insert(&mut self, sym: Sym, v: ModelValue)
        requires
            old(self).wf(),
        ensures
            final(self).wf(),
            forall|n: Seq<char>| #[trigger] final(self).lookup(n) == if n == sym.0@ {
                Some(v)
            } else {
                old(self).lookup(n)
            },
    {
        let ghost name = sym.0@;
        let ghost before = self.entries@;
        let mut i: usize = 0;
        while i < self.entries.len()
            invariant
                self.entries@ == before,
                old(self).entries@ == before,
                old(self).wf(),
                name == sym.0@,
                0 <= i <= self.entries@.len(),
                forall|j: int| 0 <= j < i ==> #[trigger] self.entries@[j].0.0@ != name,
            decreases self.entries@.len() - i,
        {
            if crate::text::str_eq(self.entries[i].0.0.as_str(), sym.0.as_str()) {
                self.entries.set(i, (sym, v));
                proof {
                    let after = self.entries@;
                    assert forall|a: int, b: int| 0 <= a < b < after.len() implies #[trigger] after[a].0.0@
                        != #[trigger] after[b].0.0@ by {
                        assert(before[a].0.0@ != before[b].0.0@);
                    }
                    assert forall|n: Seq<char>| #[trigger] entry_lookup(after, n) == if n == name {
                        Some(v)
                    } else {
                        entry_lookup(before, n)
                    } by {
                        if n == name {
                            Self::lemma_lookup_at(after, i as int);
                        } else {
                            Self::lemma_lookup_same(before, after, n, i as int);
                        }
                    }
                }
                return;
            }
            i = i + 1;
        }
        self.entries.push((sym, v));
        proof {
            let after = self.entries@;
            assert forall|a: int, b: int| 0 <= a < b < after.len() implies #[trigger] after[a].0.0@
                != #[trigger] after[b].0.0@ by {
                if b < before.len() {
                    assert(before[a].0.0@ != before[b].0.0@);
                }
            }
            assert forall|n: Seq<char>| #[trigger] entry_lookup(after, n) == if n == name {
                Some(v)
            } else {
                entry_lookup(before, n)
            } by {
                if n == name {
                    Self::lemma_lookup_at(after, before.len() as int);
                } else {
                    Self::lemma_lookup_same(before, after, n, before.len() as int);
                }
            }
        }
    }

    /// Changing or adding the entry at `k` does not change what another name is bound to.
    proof fn lemma_lookup_same(before: Seq<(Sym, ModelValue)>, after: Seq<(Sym, ModelValue)>, n: Seq<char>, k: int)
        requires
            0 <= k <= before.len(),
            after.len() == before.len() || (k == before.len() && after.len() == before.len() + 1),
            k < after.len(),
            after[k].0.0@ != n,
            k < before.len() ==> before[k].0.0@ != n,
            forall|j: int| 0 <= j < after.len() && j != k ==> #[trigger] after[j] == before[j],
        ensures
            entry_lookup(after, n) == entry_lookup(before, n),
        decreases before.len(),
    {
        if before.len() == 0 {
            assert(after.drop_first().len() == 0);
        } else if k == 0 {
            assert(after.drop_first() =~= before.drop_first());
        } else {
            assert(after[0] == before[0]);
            Self::lemma_lookup_same(before.drop_first(), after.drop_first(), n, k - 1);
        }
    }
}

/// What Z3 gave back for one variable, read as a plain value.
#[derive(Clone, Copy, Debug, PartialEq, Eq, Structural)]
pub enum Evaluated {
    Bool(bool),
    Int(i64),
    Bits(u64),
}

/// The model value that `got` gives a variable of sort `sort`, if it is of that sort.
pub open spec fn spec_model_value(sort: Sort, got: Option<Evaluated>) -> Option<ModelValue> {
    match (sort, got) {
        (Sort::Bool, Some(Evaluated::Bool(b))) => Some(ModelValue::Bool(b)),
        (Sort::Int, Some(Evaluated::Int(i))) => Some(ModelValue::Int(i)),
        (Sort::BitVec(w), Some(Evaluated::Bits(u))) => Some(ModelValue::BitVec { value: u, width: w }),
        _ => None,
    }
}

/// The model value of variable `sym` of sort `sort`, from what Z3 gave back for it; a
/// missing value, or one of another sort, is `MissingValue(sym)`.
pub fn model_value(sort: &Sort, sym: &Sym, got: Option<Evaluated>) -> (r: Result<ModelValue, Z3BackendError>)
    ensures
        match spec_model_value(*sort, got) {
            Some(v) => r == Ok::<ModelValue, Z3BackendError>(v),
            None => r matches Err(Z3BackendError::MissingValue(s)) && s.0@ == sym.0@,
        },
{
    match (sort, got) {
        (Sort::Bool, Some(Evaluated::Bool(b))) => Ok(ModelValue::Bool(b)),
        (Sort::Int, Some(Evaluated::Int(i))) => Ok(ModelValue::Int(i)),
        (Sort::BitVec(w), Some(Evaluated::Bits(u))) => Ok(ModelValue::BitVec { value: u, width: *w }),
        _ => Err(Z3BackendError::MissingValue(Sym(sym.0.clone()))),
    }
}

/// What a plain value read back from Z3 says of the value `v` it was read from.
pub open spec fn evaluated_means(e: Evaluated, v: Z3Value) -> bool {
    match e {
        Evaluated::Bool(b) => v == Z3Value::Bool(b),
        Evaluated::Int(i) => v == Z3Value::Int(i as int),
        Evaluated::Bits(u) => v matches Z3Value::Bv(n, _) && n == u,
    }
}

/// The value of `t` in model `m`, read as a plain value; `None` where there is no model,
/// or Z3 gives no value, or the value does not fit.
fn evaluate(m: &Option<Z3Model>, t: &Z3Term) -> (r: Option<Evaluated>)
    ensures
        match r {
            Some(Evaluated::Bool(_)) => term_kind(*t) == Z3Kind::Bool,
            Some(Evaluated::Int(_)) => term_kind(*t) == Z3Kind::Int,
            Some(Evaluated::Bits(_)) => term_kind(*t) is Bv,
            None => true,
        },
        r matches Some(e) ==> (m matches Some(mm) && evaluated_means(e, z3_eval(mm.assignment(), term_expr(*t)))),
{
    let m = match m {
        Some(m) => m,
        None => {
            return None;
        },
    };
    match t {
        Z3Term::Bool(b) => match api::eval_bool(m, b) {
            Some(e) => match api::bool_value(&e) {
                Some(x) => Some(Evaluated::Bool(x)),
                None => None,
            },
            None => None,
        },
        Z3Term::Int(i) => match api::eval_int(m, i) {
            Some(e) => match api::int_value(&e) {
                Some(x) => Some(Evaluated::Int(x)),
                None => None,
            },
            None => None,
        },
        Z3Term::Bv(b) => match api::eval_bv(m, b) {
            Some(e) => match api::bv_value(&e) {
                Some(x) => Some(Evaluated::Bits(x)),
                None => None,
            },
            None => None,
        },
    }
}

/// Some assertion is not Boolean.
pub open spec fn has_non_bool(ctx: &Ctx, assertions: Seq<TermId>) -> bool {
    exists|j: int| 0 <= j < assertions.len() && ctx.sort(#[trigger] assertions[j]) != Sort::Bool
}

/// The name of `v`, if it is a variable.
pub open spec fn var_name(ctx: &Ctx, v: TermId) -> Option<Seq<char>> {
    match ctx.kind(v) {
        TermKind::Var { sym, sort } => Some(sym.0@),
        _ => None,
    }
}

/// The sort of the last variable of `vars` named `name`, if any.
pub open spec fn last_sort(ctx: &Ctx, vars: Seq<TermId>, name: Seq<char>) -> Option<Sort>
    decreases vars.len(),
{
    if vars.len() == 0 {
        None
    } else if var_name(ctx, vars.last()) == Some(name) {
        Some(ctx.sort(vars.last()))
    } else {
        last_sort(ctx, vars.drop_last(), name)
    }
}

/// The last variable of `vars` named `name`, if any.
pub open spec fn last_var(ctx: &Ctx, vars: Seq<TermId>, name: Seq<char>) -> Option<TermId>
    decreases vars.len(),
{
    if vars.len() == 0 {
        None
    } else if var_name(ctx, vars.last()) == Some(name) {
        Some(vars.last())
    } else {
        last_var(ctx, vars.drop_last(), name)
    }
}

/// What the model value `v` says of the Z3 value `z` it stands for.
pub open spec fn value_means(v: ModelValue, z: Z3Value) -> bool {
    match v {
        ModelValue::Bool(b) => z == Z3Value::Bool(b),
        ModelValue::Int(i) => z == Z3Value::Int(i as int),
        ModelValue::BitVec { value, width } => z matches Z3Value::Bv(n, _) && n == value,
    }
}

/// Each name bound by `m` has the value of the Z3 constant of the last variable of `vars`
/// of that name, when each constant `c` has the value `g(c)`.
pub open spec fn model_agrees(ctx: &Ctx, vars: Seq<TermId>, m: ProjectedModel, g: spec_fn(Z3Expr) -> Z3Value) -> bool {
    forall|name: Seq<char>| #[trigger] m.lookup(name) matches Some(v) ==> value_means(
        v,
        z3_eval(g, term_z3(ctx, last_var(ctx, vars, name)->Some_0)),
    )
}

/// A model in `r` is one of Z3's answer: some value of the constants makes the Z3 formula
/// of every assertion true and gives each projected variable the value that the model binds
/// to its name.
pub open spec fn model_from_z3(
    ctx: &Ctx,
    assertions: Seq<TermId>,
    vars: Seq<TermId>,
    r: Result<SolveResult<ProjectedModel>, Z3BackendError>,
) -> bool {
    match r {
        Ok(res) => match res.model {
            Some(m) => exists|g: spec_fn(Z3Expr) -> Z3Value|
                #[trigger] satisfies(g, assertions_z3(ctx, assertions)) && model_agrees(ctx, vars, m, g),
            None => true,
        },
        Err(_) => true,
    }
}

/// The value that `last_value` picks is the Z3 value of the variable it was read for, where
/// every value of `got` was read under `g`.
proof fn lemma_last_value_means(
    ctx: &Ctx,
    vars: Seq<TermId>,
    got: Seq<Option<Evaluated>>,
    name: Seq<char>,
    g: spec_fn(Z3Expr) -> Z3Value,
)
    requires
        got.len() >= vars.len(),
        forall|j: int| 0 <= j < vars.len() ==> (#[trigger] got[j] matches Some(e) ==> evaluated_means(
            e,
            z3_eval(g, term_z3(ctx, vars[j])),
        )),
    ensures
        last_value(ctx, vars, got, name) matches Some(v) ==> value_means(
            v,
            z3_eval(g, term_z3(ctx, last_var(ctx, vars, name)->Some_0)),
        ),
    decreases vars.len(),
{
    if vars.len() > 0 {
        let n = vars.len() - 1;
        if var_name(ctx, vars.last()) != Some(name) {
            let rest = vars.drop_last();
            assert forall|j: int| 0 <= j < rest.len() implies (#[trigger] got[j] matches Some(e) ==> evaluated_means(
                e,
                z3_eval(g, term_z3(ctx, rest[j])),
            )) by {
                assert(rest[j] == vars[j]);
            }
            lemma_last_value_means(ctx, rest, got, name, g);
        } else {
            assert(got[n] matches Some(e) ==> evaluated_means(e, z3_eval(g, term_z3(ctx, vars[n]))));
        }
    }
}

/// A model value of sort `s`.
pub open spec fn value_fits(v: ModelValue, s: Sort) -> bool {
    match v {
        ModelValue::Bool(_) => s == Sort::Bool,
        ModelValue::Int(_) => s == Sort::Int,
        ModelValue::BitVec { value, width } => s == Sort::BitVec(width),
    }
}

/// `m` binds exactly the names of the variables among `vars`, each to a value of the sort
/// of the last variable of that name.
pub open spec fn projects(ctx: &Ctx, vars: Seq<TermId>, m: ProjectedModel) -> bool {
    &&& m.wf()
    &&& forall|name: Seq<char>|
        #[trigger] m.lookup(name) is Some <==> last_sort(ctx, vars, name) is Some
    &&& forall|name: Seq<char>|
        #[trigger] m.lookup(name) matches Some(v) ==> value_fits(v, last_sort(ctx, vars, name)->Some_0)
}

/// What `solve_projected` may return: `TypeMismatch` exactly when an assertion is not
/// Boolean; otherwise Z3's status, with a projected model exactly when it is `Sat`, unless a
/// variable's value was missing.
pub open spec fn solve_outcome(
    ctx: &Ctx,
    assertions: Seq<TermId>,
    vars: Seq<TermId>,
    r: Result<SolveResult<ProjectedModel>, Z3BackendError>,
) -> bool {
    if has_non_bool(ctx, assertions) {
        r == Err::<SolveResult<ProjectedModel>, Z3BackendError>(Z3BackendError::TypeMismatch)
    } else {
        match r {
            Ok(res) => {
                &&& (res.status == SolveStatus::Sat <==> res.model is Some)
                &&& (res.model matches Some(m) ==> projects(ctx, vars, m))
            },
            Err(e) => e matches Z3BackendError::MissingValue(s) && exists|j: int|
                0 <= j < vars.len() && var_name(ctx, #[trigger] vars[j]) == Some(s.0@),
        }
    }
}

/// `rec` records the check of Z3's solver that answered `r`: there is none when an
/// assertion is not Boolean; otherwise the solver held the Z3 formula of each assertion, in
/// order, and `r` carries the status that Z3 gave back (`Sat`, where a value was missing).
pub open spec fn answered_by(
    ctx: &Ctx,
    assertions: Seq<TermId>,
    r: Result<SolveResult<ProjectedModel>, Z3BackendError>,
    rec: Option<Checked>,
) -> bool {
    if has_non_bool(ctx, assertions) {
        rec is None
    } else {
        rec matches Some(c) && c.formulas() == assertions_z3(ctx, assertions) && match r {
            Ok(res) => res.status == c.spec_status(),
            Err(_) => c.spec_status() == SolveStatus::Sat,
        }
    }
}

/// The translation of a problem: the plan, the construction of each assertion, and the
/// construction of each variable among the projected terms (`None` for other terms).
pub struct Translation {
    pub plan: Z3Plan,
    pub roots: Vec<usize>,
    pub var_roots: Vec<Option<usize>>,
}

/// `tr` translates `assertions` and `vars` of `ctx`.
pub open spec fn translates(ctx: &Ctx, assertions: Seq<TermId>, vars: Seq<TermId>, tr: Translation) -> bool {
    &&& tr.plan.wf(ctx)
    &&& tr.roots@.len() == assertions.len()
    &&& forall|i: int| 0 <= i < assertions.len() ==> tr.plan.denotes(
        ctx,
        #[trigger] tr.roots@[i] as int,
        assertions[i],
    )
    &&& tr.var_roots@.len() == vars.len()
    &&& forall|j: int| 0 <= j < vars.len() ==> match #[trigger] tr.var_roots@[j] {
        Some(i) => var_name(ctx, vars[j]) is Some && tr.plan.denotes(ctx, i as int, vars[j]),
        None => var_name(ctx, vars[j]) is None,
    }
}

/// Every term reachable from `assertions`, and every variable among `vars`, is plain (see
/// `Ctx::term_plain`): these are the terms that reach Z3. Terms of `vars` that are not
/// variables are skipped, and so is the rest of the arena.
pub open spec fn problem_plain(ctx: &Ctx, assertions: Seq<TermId>, vars: Seq<TermId>) -> bool {
    &&& ctx.all_plain_below(assertions)
    &&& forall|j: int| 0 <= j < vars.len() && var_name(ctx, vars[j]) is Some ==> ctx.plain_below(#[trigger] vars[j])
}

/// Whether `problem_plain` holds, so that a caller can test it before solving.
pub fn is_problem_plain(ctx: &Ctx, assertions: &[TermId], vars: &[TermId]) -> (r: bool)
    requires
        ctx.wf(),
        ctx.all_valid(assertions@),
        ctx.all_valid(vars@),
    ensures
        r == problem_plain(ctx, assertions@, vars@),
{
    let mut named: Vec<TermId> = Vec::new();
    let mut p: usize = 0;
    while p < vars.len()
        invariant
            ctx.wf(),
            ctx.all_valid(vars@),
            0 <= p <= vars@.len(),
            ctx.all_valid(named@),
            forall|q: int| 0 <= q < named@.len() ==> var_name(ctx, #[trigger] named@[q]) is Some && vars@.contains(named@[q]),
            forall|j: int| 0 <= j < p && var_name(ctx, vars@[j]) is Some ==> named@.contains(#[trigger] vars@[j]),
        decreases vars@.len() - p,
    {
        let v = vars[p];
        assert(ctx.valid(vars@[p as int]));
        if let TermKind::Var { .. } = ctx.kind_of(v) {
            let ghost old_named = named@;
            named.push(v);
            proof {
                assert(named@[named@.len() - 1] == v);
                assert(vars@[p as int] == v);
                assert forall|j: int| 0 <= j < p + 1 && var_name(ctx, vars@[j]) is Some implies named@.contains(#[trigger] vars@[j]) by {
                    if j < p {
                        let q = old_named.index_of(vars@[j]);
                        assert(named@[q] == old_named[q]);
                    }
                }
            }
        }
        p = p + 1;
    }
    let a = ctx.are_plain_below(assertions);
    let b = ctx.are_plain_below(named.as_slice());
    proof {
        if b {
            assert forall|j: int| 0 <= j < vars@.len() && var_name(ctx, vars@[j]) is Some implies ctx.plain_below(#[trigger] vars@[j]) by {
                let q = named@.index_of(vars@[j]);
                assert(ctx.plain_below(named@[q]));
            }
        } else {
            let q = choose|q: int| 0 <= q < named@.len() && !ctx.plain_below(#[trigger] named@[q]);
            let v = named@[q];
            assert(vars@.contains(v));
            let j = vars@.index_of(v);
            assert(var_name(ctx, vars@[j]) is Some && !ctx.plain_below(vars@[j]));
        }
    }
    a && b
}

/// Translates the assertions, then the variables among `vars`; `TypeMismatch` exactly when
/// an assertion is not Boolean.
pub fn translate_problem(ctx: &Ctx, assertions: &[TermId], vars: &[TermId]) -> (r: Result<
    Translation,
    Z3BackendError,
>)
    requires
        ctx.wf(),
        ctx.all_valid(assertions@),
        ctx.all_valid(vars@),
        problem_plain(ctx, assertions@, vars@),
    ensures
        has_non_bool(ctx, assertions@) ==> r == Err::<Translation, Z3BackendError>(
            Z3BackendError::TypeMismatch,
        ),
        !has_non_bool(ctx, assertions@) ==> (r matches Ok(tr) && translates(ctx, assertions@, vars@, tr)),
{
    let mut plan = Z3Plan::new(ctx);
    let mut roots: Vec<usize> = Vec::new();
    let mut k: usize = 0;
    while k < assertions.len()
        invariant
            ctx.wf(),
            ctx.all_valid(assertions@),
            ctx.all_plain_below(assertions@),
            plan.wf(ctx),
            0 <= k <= assertions@.len(),
            roots@.len() == k,
            forall|j: int| 0 <= j < k ==> plan.denotes(ctx, #[trigger] roots@[j] as int, assertions@[j]),
            forall|j: int| 0 <= j < k ==> ctx.sort(#[trigger] assertions@[j]) == Sort::Bool,
        decreases assertions@.len() - k,
    {
        let a = assertions[k];
        assert(ctx.valid(assertions@[k as int]));
        let ghost before = plan;
        let i = match plan.translate(ctx, a) {
            Ok(i) => i,
            Err(e) => {
                return Err(e);
            },
        };
        if plan.kind_at(i) != Z3Kind::Bool {
            proof {
                assert(ctx.sort(assertions@[k as int]) != Sort::Bool);
            }
            return Err(Z3BackendError::TypeMismatch);
        }
        roots.push(i);
        proof {
            assert forall|j: int| 0 <= j < k + 1 implies plan.denotes(ctx, #[trigger] roots@[j] as int, assertions@[j]) by {
                if j < k {
                    Z3Plan::lemma_denotes_stable(&plan, &before, ctx, roots@[j] as int, assertions@[j]);
                }
            }
        }
        k = k + 1;
    }
    proof {
        assert(!has_non_bool(ctx, assertions@));
    }
    let mut var_roots: Vec<Option<usize>> = Vec::new();
    let mut p: usize = 0;
    while p < vars.len()
        invariant
            ctx.wf(),
            ctx.all_valid(vars@),
            problem_plain(ctx, assertions@, vars@),
            plan.wf(ctx),
            roots@.len() == assertions@.len(),
            forall|j: int| 0 <= j < assertions@.len() ==> plan.denotes(ctx, #[trigger] roots@[j] as int, assertions@[j]),
            0 <= p <= vars@.len(),
            var_roots@.len() == p,
            forall|j: int| 0 <= j < p ==> match #[trigger] var_roots@[j] {
                Some(i) => var_name(ctx, vars@[j]) is Some && plan.denotes(ctx, i as int, vars@[j]),
                None => var_name(ctx, vars@[j]) is None,
            },
        decreases vars@.len() - p,
    {
        let v = vars[p];
        assert(ctx.valid(vars@[p as int]));
        let ghost before = plan;
        let pick = match ctx.kind_of(v) {
            TermKind::Var { .. } => match plan.translate(ctx, v) {
                Ok(i) => Some(i),
                Err(e) => {
                    return Err(e);
                },
            },
            _ => None,
        };
        var_roots.push(pick);
        proof {
            assert forall|j: int| 0 <= j < assertions@.len() implies plan.denotes(ctx, #[trigger] roots@[j] as int, assertions@[j]) by {
                Z3Plan::lemma_denotes_stable(&plan, &before, ctx, roots@[j] as int, assertions@[j]);
            }
            assert forall|j: int| 0 <= j < p + 1 implies match #[trigger] var_roots@[j] {
                Some(i) => var_name(ctx, vars@[j]) is Some && plan.denotes(ctx, i as int, vars@[j]),
                None => var_name(ctx, vars@[j]) is None,
            } by {
                if j < p {
                    if let Some(i) = var_roots@[j] {
                        Z3Plan::lemma_denotes_stable(&plan, &before, ctx, i as int, vars@[j]);
                    }
                }
            }
        }
        p = p + 1;
    }
    Ok(Translation { plan, roots, var_roots })
}

/// The value of the last variable of `vars` named `name`, from what Z3 gave back for the
/// term at the same position of `got`.
pub open spec fn last_value(
    ctx: &Ctx,
    vars: Seq<TermId>,
    got: Seq<Option<Evaluated>>,
    name: Seq<char>,
) -> Option<ModelValue>
    decreases vars.len(),
{
    if vars.len() == 0 {
        None
    } else if var_name(ctx, vars.last()) == Some(name) {
        spec_model_value(ctx.sort(vars.last()), got[vars.len() - 1])
    } else {
        last_value(ctx, vars.drop_last(), got, name)
    }
}

/// The variable at position `j` of `vars` has no value of its sort in `got`.
pub open spec fn value_missing(ctx: &Ctx, vars: Seq<TermId>, got: Seq<Option<Evaluated>>, j: int) -> bool {
    var_name(ctx, vars[j]) is Some && spec_model_value(ctx.sort(vars[j]), got[j]) is None
}

/// The first position at or after `i` of a variable whose value is missing.
pub open spec fn first_missing(ctx: &Ctx, vars: Seq<TermId>, got: Seq<Option<Evaluated>>, i: nat) -> Option<nat>
    decreases vars.len() - i,
{
    if i >= vars.len() {
        None
    } else if value_missing(ctx, vars, got, i as int) {
        Some(i)
    } else {
        first_missing(ctx, vars, got, i + 1)
    }
}

proof fn lemma_first_missing_skip(ctx: &Ctx, vars: Seq<TermId>, got: Seq<Option<Evaluated>>, i: nat, p: nat)
    requires
        i <= p <= vars.len(),
        forall|j: int| i <= j < p ==> !#[trigger] value_missing(ctx, vars, got, j),
    ensures
        first_missing(ctx, vars, got, i) == first_missing(ctx, vars, got, p),
    decreases p - i,
{
    if i < p {
        assert(!value_missing(ctx, vars, got, i as int));
        lemma_first_missing_skip(ctx, vars, got, i + 1, p);
    }
}

proof fn lemma_first_missing_none(ctx: &Ctx, vars: Seq<TermId>, got: Seq<Option<Evaluated>>, i: nat)
    requires
        first_missing(ctx, vars, got, i) is None,
    ensures
        forall|j: int| i <= j < vars.len() ==> !#[trigger] value_missing(ctx, vars, got, j),
    decreases vars.len() - i,
{
    if i < vars.len() {
        lemma_first_missing_none(ctx, vars, got, i + 1);
    }
}

proof fn lemma_first_missing_some(ctx: &Ctx, vars: Seq<TermId>, got: Seq<Option<Evaluated>>, i: nat)
    requires
        first_missing(ctx, vars, got, i) is Some,
    ensures
        ({
            let j = first_missing(ctx, vars, got, i)->Some_0;
            i <= j < vars.len() && value_missing(ctx, vars, got, j as int)
        }),
    decreases vars.len() - i,
{
    if i < vars.len() && !value_missing(ctx, vars, got, i as int) {
        lemma_first_missing_some(ctx, vars, got, i + 1);
    }
}

proof fn lemma_last_value_step(ctx: &Ctx, vars: Seq<TermId>, got: Seq<Option<Evaluated>>, p: int, name: Seq<char>)
    requires
        0 <= p < vars.len(),
    ensures
        last_value(ctx, vars.take(p + 1), got, name) == if var_name(ctx, vars[p]) == Some(name) {
            spec_model_value(ctx.sort(vars[p]), got[p])
        } else {
            last_value(ctx, vars.take(p), got, name)
        },
{
    assert(vars.take(p + 1).drop_last() =~= vars.take(p));
    assert(vars.take(p + 1).last() == vars[p]);
}

/// The projected model from what Z3 gave back for each of `vars` (`got`, position by
/// position): each variable's name bound to its value, the last variable of a name winning;
/// `MissingValue` for the first variable whose value is missing or not of its sort.
pub fn project(ctx: &Ctx, vars: &[TermId], got: &Vec<Option<Evaluated>>) -> (r: Result<
    ProjectedModel,
    Z3BackendError,
>)
    requires
        ctx.all_valid(vars@),
        got@.len() == vars@.len(),
    ensures
        match first_missing(ctx, vars@, got@, 0) {
            Some(j) => r matches Err(Z3BackendError::MissingValue(s)) && var_name(ctx, vars@[j as int])
                == Some(s.0@),
            None => r matches Ok(m) && m.wf() && forall|name: Seq<char>| #[trigger] m.lookup(name)
                == last_value(ctx, vars@, got@, name),
        },
{
    let mut out = ProjectedModel::new();
    let mut p: usize = 0;
    proof {
        assert forall|name: Seq<char>| #[trigger] out.lookup(name) == last_value(ctx, vars@.take(0), got@, name) by {
            assert(vars@.take(0).len() == 0);
        }
    }
    while p < vars.len()
        invariant
            ctx.all_valid(vars@),
            got@.len() == vars@.len(),
            0 <= p <= vars@.len(),
            out.wf(),
            forall|j: int| 0 <= j < p ==> !#[trigger] value_missing(ctx, vars@, got@, j),
            forall|name: Seq<char>| #[trigger] out.lookup(name) == last_value(ctx, vars@.take(p as int), got@, name),
        decreases vars@.len() - p,
    {
        let v = vars[p];
        assert(ctx.valid(vars@[p as int]));
        proof {
            assert forall|name: Seq<char>| #[trigger] last_value(ctx, vars@.take(p + 1), got@, name) == if var_name(ctx, vars@[p as int]) == Some(name) {
                spec_model_value(ctx.sort(vars@[p as int]), got@[p as int])
            } else {
                last_value(ctx, vars@.take(p as int), got@, name)
            } by {
                lemma_last_value_step(ctx, vars@, got@, p as int, name);
            }
        }
        match ctx.kind_of(v) {
            TermKind::Var { sym, .. } => {
                let name = Sym(sym.0.clone());
                match model_value(ctx.sort_of(v), &name, got[p]) {
                    Ok(val) => {
                        out.insert(name, val);
                    },
                    Err(e) => {
                        proof {
                            assert(value_missing(ctx, vars@, got@, p as int));
                            lemma_first_missing_skip(ctx, vars@, got@, 0, p as nat);
                        }
                        return Err(e);
                    },
                }
            },
            _ => {
                assert(!value_missing(ctx, vars@, got@, p as int));
            },
        }
        p = p + 1;
    }
    proof {
        lemma_first_missing_skip(ctx, vars@, got@, 0, vars@.len());
        assert(vars@.take(vars@.len() as int) =~= vars@);
    }
    Ok(out)
}

proof fn lemma_last_value_fits(ctx: &Ctx, vars: Seq<TermId>, got: Seq<Option<Evaluated>>, name: Seq<char>)
    requires
        got.len() >= vars.len(),
        forall|j: int| 0 <= j < vars.len() ==> !#[trigger] value_missing(ctx, vars, got, j),
    ensures
        last_value(ctx, vars, got, name) is Some <==> last_sort(ctx, vars, name) is Some,
        last_value(ctx, vars, got, name) matches Some(v) ==> value_fits(v, last_sort(ctx, vars, name)->Some_0),
    decreases vars.len(),
{
    if vars.len() > 0 {
        let n = vars.len() - 1;
        assert(!value_missing(ctx, vars, got, n));
        if var_name(ctx, vars.last()) != Some(name) {
            let rest = vars.drop_last();
            assert forall|j: int| 0 <= j < rest.len() implies !#[trigger] value_missing(ctx, rest, got, j) by {
                assert(!value_missing(ctx, vars, got, j));
            }
            lemma_last_value_fits(ctx, rest, got, name);
        }
    }
}

/// What the Z3 term of IR term `t` is: the Z3 operation of each operator, on the terms of the
/// arguments (integer or unsigned bit-vector comparisons by the arguments' sort, and a
/// left-to-right sum for bit-vectors).
pub open spec fn term_z3(ctx: &Ctx, t: TermId) -> Z3Expr
    decreases t.spec_index(), 1nat, 0nat,
{
    let b = t.spec_index();
    match ctx.kind(t) {
        TermKind::Var { sym, sort } => match sort {
            Sort::Bool => Z3Expr::BoolConst(sym.0@),
            Sort::Int => Z3Expr::IntConst(sym.0@),
            Sort::BitVec(w) => Z3Expr::BvConst(sym.0@, w),
        },
        TermKind::BoolLit(v) => Z3Expr::BoolVal(v),
        TermKind::IntLit(v) => Z3Expr::IntVal(v),
        TermKind::BvLit { value, width } => Z3Expr::BvVal(value, width),
        TermKind::App { op, args } => {
            let a = args@;
            let es = args_z3(ctx, a, a.len(), b);
            match op {
                Op::Not => Z3Expr::Not(Box::new(es[0])),
                Op::And => Z3Expr::And(es),
                Op::Or => Z3Expr::Or(es),
                Op::Eq => Z3Expr::Eq(Box::new(es[0]), Box::new(es[1])),
                Op::Distinct => Z3Expr::Distinct(es),
                Op::Lt => if ctx.sort(a[0]) == Sort::Int {
                    Z3Expr::Lt(Box::new(es[0]), Box::new(es[1]))
                } else {
                    Z3Expr::BvUlt(Box::new(es[0]), Box::new(es[1]))
                },
                Op::Le => if ctx.sort(a[0]) == Sort::Int {
                    Z3Expr::Le(Box::new(es[0]), Box::new(es[1]))
                } else {
                    Z3Expr::BvUle(Box::new(es[0]), Box::new(es[1]))
                },
                Op::Ge => if ctx.sort(a[0]) == Sort::Int {
                    Z3Expr::Ge(Box::new(es[0]), Box::new(es[1]))
                } else {
                    Z3Expr::BvUge(Box::new(es[0]), Box::new(es[1]))
                },
                Op::Add => if ctx.sort(t) == Sort::Int {
                    Z3Expr::Add(es)
                } else {
                    bv_sum(es)
                },
                Op::Ite => Z3Expr::Ite(Box::new(es[0]), Box::new(es[1]), Box::new(es[2])),
            }
        },
    }
}

/// The Z3 terms of the first `n` of `args`, each older than `bound`.
pub open spec fn args_z3(ctx: &Ctx, args: Seq<TermId>, n: nat, bound: nat) -> Seq<Z3Expr>
    decreases bound, 0nat, n,
{
    if n == 0 || n > args.len() {
        Seq::empty()
    } else {
        args_z3(ctx, args, (n - 1) as nat, bound).push(
            if args[n - 1].spec_index() < bound {
                term_z3(ctx, args[n - 1])
            } else {
                Z3Expr::BoolVal(false)
            },
        )
    }
}

/// The Z3 terms of the assertions, in order.
pub open spec fn assertions_z3(ctx: &Ctx, assertions: Seq<TermId>) -> Seq<Z3Expr> {
    assertions.map_values(|a: TermId| term_z3(ctx, a))
}

proof fn lemma_args_z3_index(ctx: &Ctx, args: Seq<TermId>, n: nat, bound: nat, k: int)
    requires
        n <= args.len(),
        0 <= k < n,
        args[k].spec_index() < bound,
    ensures
        args_z3(ctx, args, n, bound).len() == n,
        args_z3(ctx, args, n, bound)[k] == term_z3(ctx, args[k]),
    decreases n,
{
    lemma_args_z3_len(ctx, args, n, bound);
    if k < n - 1 {
        lemma_args_z3_index(ctx, args, (n - 1) as nat, bound, k);
    }
}

/// The value of the `k`-th argument of an application, by its Z3 term.
pub open spec fn arg_value(ctx: &Ctx, g: spec_fn(Z3Expr) -> Z3Value, args: Seq<TermId>, k: int) -> Z3Value {
    z3_eval(g, term_z3(ctx, args[k]))
}

/// The sum of the numbers that the values of the first `n` arguments stand for.
pub open spec fn arg_sum(ctx: &Ctx, g: spec_fn(Z3Expr) -> Z3Value, args: Seq<TermId>, n: nat) -> int
    decreases n,
{
    if n == 0 {
        0
    } else {
        arg_sum(ctx, g, args, (n - 1) as nat) + int_of(arg_value(ctx, g, args, n - 1))
    }
}

/// `int_sum` adds up the numbers that the values stand for.
pub proof fn law_int_sum(vs: Seq<Z3Value>, v: Z3Value)
    ensures
        int_sum(Seq::<Z3Value>::empty()) == 0,
        int_sum(vs.push(v)) == int_sum(vs) + int_of(v),
{
    assert(vs.push(v).drop_last() =~= vs);
}

proof fn lemma_z3_eval_all(g: spec_fn(Z3Expr) -> Z3Value, es: Seq<Z3Expr>, n: nat)
    requires
        n <= es.len(),
    ensures
        z3_eval_all(g, es, n).len() == n,
        forall|k: int| 0 <= k < n ==> #[trigger] z3_eval_all(g, es, n)[k] == z3_eval(g, es[k]),
    decreases n,
{
    if n > 0 {
        lemma_z3_eval_all(g, es, (n - 1) as nat);
    }
}

proof fn lemma_int_sum_args(ctx: &Ctx, g: spec_fn(Z3Expr) -> Z3Value, args: Seq<TermId>, vs: Seq<Z3Value>, n: nat)
    requires
        n <= vs.len(),
        n <= args.len(),
        forall|k: int| 0 <= k < n ==> #[trigger] vs[k] == arg_value(ctx, g, args, k),
    ensures
        int_sum(vs.take(n as int)) == arg_sum(ctx, g, args, n),
    decreases n,
{
    if n > 0 {
        lemma_int_sum_args(ctx, g, args, vs, (n - 1) as nat);
        assert(vs.take(n as int).drop_last() =~= vs.take(n - 1));
    }
}

/// What Z3 makes of a term: a variable is its constant; a literal is its value; an
/// application means its operator applied to the values of its arguments: `not` negates,
/// `and` holds when every argument holds, `or` when some argument holds, `=` when the two
/// values are equal, `distinct` when no two are, `<`, `<=`, `>=` compare the numbers, `+` on
/// integers adds them up, and `ite` picks the second or third value by the first.
pub proof fn law_z3_meaning(ctx: &Ctx, t: TermId, g: spec_fn(Z3Expr) -> Z3Value)
    requires
        ctx.wf(),
        ctx.valid(t),
    ensures
        ctx.kind(t) matches TermKind::Var { sym, sort } ==> z3_eval(g, term_z3(ctx, t)) == g(term_z3(ctx, t)),
        ctx.kind(t) matches TermKind::BoolLit(v) ==> z3_eval(g, term_z3(ctx, t)) == Z3Value::Bool(v),
        ctx.kind(t) matches TermKind::IntLit(v) ==> z3_eval(g, term_z3(ctx, t)) == Z3Value::Int(v as int),
        ctx.kind(t) matches TermKind::App { op, args } ==> ({
            let r = z3_eval(g, term_z3(ctx, t));
            let a = args@;
            let n = a.len() as int;
            match op {
                Op::Not => n == 1 && r == Z3Value::Bool(arg_value(ctx, g, a, 0) != Z3Value::Bool(true)),
                Op::And => r == Z3Value::Bool(
                    forall|k: int| 0 <= k < n ==> #[trigger] arg_value(ctx, g, a, k) == Z3Value::Bool(true),
                ),
                Op::Or => r == Z3Value::Bool(
                    exists|k: int| 0 <= k < n && #[trigger] arg_value(ctx, g, a, k) == Z3Value::Bool(true),
                ),
                Op::Eq => n == 2 && r == Z3Value::Bool(arg_value(ctx, g, a, 0) == arg_value(ctx, g, a, 1)),
                Op::Distinct => r == Z3Value::Bool(
                    forall|i: int, j: int|
                        0 <= i < j < n ==> #[trigger] arg_value(ctx, g, a, i) != #[trigger] arg_value(ctx, g, a, j),
                ),
                Op::Lt => n == 2 && r == Z3Value::Bool(
                    int_of(arg_value(ctx, g, a, 0)) < int_of(arg_value(ctx, g, a, 1)),
                ),
                Op::Le => n == 2 && r == Z3Value::Bool(
                    int_of(arg_value(ctx, g, a, 0)) <= int_of(arg_value(ctx, g, a, 1)),
                ),
                Op::Ge => n == 2 && r == Z3Value::Bool(
                    int_of(arg_value(ctx, g, a, 0)) >= int_of(arg_value(ctx, g, a, 1)),
                ),
                Op::Add => ctx.sort(t) == Sort::Int ==> r == Z3Value::Int(arg_sum(ctx, g, a, a.len())),
                Op::Ite => n == 3 && r == (if arg_value(ctx, g, a, 0) == Z3Value::Bool(true) {
                    arg_value(ctx, g, a, 1)
                } else {
                    arg_value(ctx, g, a, 2)
                }),
            }
        }),
{
    assert(ctx.node_ok(t));
    if let TermKind::App { op, args } = ctx.kind(t) {
        let a = args@;
        let b = t.spec_index();
        let es = args_z3(ctx, a, a.len(), b);
        lemma_args_z3_len(ctx, a, a.len(), b);
        assert forall|k: int| 0 <= k < a.len() implies #[trigger] es[k] == term_z3(ctx, a[k]) by {
            lemma_args_z3_index(ctx, a, a.len(), b, k);
        }
        lemma_z3_eval_all(g, es, es.len());
        let vs = z3_eval_all(g, es, es.len());
        assert forall|k: int| 0 <= k < a.len() implies #[trigger] vs[k] == arg_value(ctx, g, a, k) by {
            assert(es[k] == term_z3(ctx, a[k]));
        }
        assert(ctx.arg_sorts(a).len() == a.len());
        match op {
            Op::And => {
                if forall|k: int| 0 <= k < a.len() ==> #[trigger] arg_value(ctx, g, a, k) == Z3Value::Bool(true) {
                    assert forall|k: int| 0 <= k < vs.len() implies #[trigger] vs[k] == Z3Value::Bool(true) by {
                        assert(vs[k] == arg_value(ctx, g, a, k));
                    }
                } else {
                    let k = choose|k: int| 0 <= k < a.len() && #[trigger] arg_value(ctx, g, a, k) != Z3Value::Bool(true);
                    assert(vs[k] != Z3Value::Bool(true));
                }
            },
            Op::Or => {
                if exists|k: int| 0 <= k < a.len() && #[trigger] arg_value(ctx, g, a, k) == Z3Value::Bool(true) {
                    let k = choose|k: int| 0 <= k < a.len() && #[trigger] arg_value(ctx, g, a, k) == Z3Value::Bool(true);
                    assert(vs[k] == Z3Value::Bool(true));
                }
            },
            Op::Distinct => {
                assert(term_z3(ctx, t) == Z3Expr::Distinct(es));
                if forall|i: int, j: int|
                    0 <= i < j < a.len() ==> #[trigger] arg_value(ctx, g, a, i) != #[trigger] arg_value(ctx, g, a, j) {
                    assert forall|i: int, j: int| 0 <= i < j < vs.len() implies #[trigger] vs[i] != #[trigger] vs[j] by {
                        assert(vs[i] == arg_value(ctx, g, a, i));
                        assert(vs[j] == arg_value(ctx, g, a, j));
                    }
                    assert(z3_eval(g, term_z3(ctx, t)) == Z3Value::Bool(true));
                } else {
                    let (i, j) = choose|i: int, j: int|
                        0 <= i < j < a.len() && #[trigger] arg_value(ctx, g, a, i) == #[trigger] arg_value(ctx, g, a, j);
                    assert(vs[i] == vs[j]);
                    assert(z3_eval(g, term_z3(ctx, t)) == Z3Value::Bool(false));
                }
            },
            Op::Add => {
                if ctx.sort(t) == Sort::Int {
                    lemma_int_sum_args(ctx, g, a, vs, a.len());
                    assert(vs.take(a.len() as int) =~= vs);
                }
            },
            Op::Not => {
                assert(a.len() == 1);
                assert(z3_eval(g, term_z3(ctx, t)) == Z3Value::Bool(arg_value(ctx, g, a, 0) != Z3Value::Bool(true)));
            },
            Op::Eq => {
                assert(a.len() == 2);
                assert(z3_eval(g, term_z3(ctx, t)) == Z3Value::Bool(arg_value(ctx, g, a, 0) == arg_value(ctx, g, a, 1)));
            },
            Op::Lt | Op::Le | Op::Ge => {
                assert(a.len() == 2);
            },
            Op::Ite => {
                assert(a.len() == 3);
            },
        }
    }
}

proof fn lemma_args_z3_len(ctx: &Ctx, args: Seq<TermId>, n: nat, bound: nat)
    requires
        n <= args.len(),
    ensures
        args_z3(ctx, args, n, bound).len() == n,
    decreases n,
{
    if n > 0 {
        lemma_args_z3_len(ctx, args, (n - 1) as nat, bound);
    }
}

impl Z3Plan {
    proof fn lemma_all_denote_each(&self, ctx: &Ctx, ops: Seq<usize>, args: Seq<TermId>, n: nat, bound: nat)
        requires
            self.all_denote(ctx, ops, args, n, bound),
        ensures
            n <= ops.len(),
            n <= args.len(),
            forall|k: int| 0 <= k < n ==> (#[trigger] args[k]).spec_index() < bound && self.denotes(
                ctx,
                ops[k] as int,
                args[k],
            ),
        decreases n,
    {
        if n > 0 {
            self.lemma_all_denote_each(ctx, ops, args, (n - 1) as nat, bound);
        }
    }

    /// The Z3 term built for a construction that stands for IR term `t` is the Z3 term of `t`.
    pub proof fn lemma_built_means(&self, ctx: &Ctx, ts: Seq<Z3Term>, i: int, t: TermId)
        requires
            self.built(ts),
            self.denotes(ctx, i, t),
        ensures
            term_expr(ts[i]) == term_z3(ctx, t),
        decreases t.spec_index(),
    {
        let b = t.spec_index();
        let es = term_exprs(ts);
        assert(term_expr(ts[i]) == node_expr(self.spec_nodes()[i], es));
        match ctx.kind(t) {
            TermKind::App { op, args } => {
                let a = args@;
                let ez = args_z3(ctx, a, a.len(), b);
                lemma_args_z3_len(ctx, a, a.len(), b);
                match self.spec_nodes()[i] {
                    Z3Node::Not(x) => {
                        self.lemma_built_means(ctx, ts, x as int, a[0]);
                        lemma_args_z3_index(ctx, a, a.len(), b, 0);
                        assert(self.denotes(ctx, x as int, a[0]));
                        assert(0 <= x < ts.len());
                        assert(es[x as int] == term_expr(ts[x as int]));
                        assert(term_expr(ts[i]) == term_z3(ctx, t));
                    },
                    Z3Node::Eq(_, x, y) | Z3Node::Lt(_, x, y) | Z3Node::Le(_, x, y) | Z3Node::Ge(_, x, y) => {
                        self.lemma_built_means(ctx, ts, x as int, a[0]);
                        self.lemma_built_means(ctx, ts, y as int, a[1]);
                        lemma_args_z3_index(ctx, a, a.len(), b, 0);
                        lemma_args_z3_index(ctx, a, a.len(), b, 1);
                        assert(self.denotes(ctx, x as int, a[0]));
                        assert(0 <= x < ts.len());
                        assert(es[x as int] == term_expr(ts[x as int]));
                        assert(self.denotes(ctx, y as int, a[1]));
                        assert(0 <= y < ts.len());
                        assert(es[y as int] == term_expr(ts[y as int]));
                        assert(term_expr(ts[i]) == term_z3(ctx, t));
                    },
                    Z3Node::Ite(_, c, x, y) => {
                        self.lemma_built_means(ctx, ts, c as int, a[0]);
                        self.lemma_built_means(ctx, ts, x as int, a[1]);
                        self.lemma_built_means(ctx, ts, y as int, a[2]);
                        lemma_args_z3_index(ctx, a, a.len(), b, 0);
                        lemma_args_z3_index(ctx, a, a.len(), b, 1);
                        lemma_args_z3_index(ctx, a, a.len(), b, 2);
                        assert(self.denotes(ctx, c as int, a[0]));
                        assert(0 <= c < ts.len());
                        assert(es[c as int] == term_expr(ts[c as int]));
                        assert(self.denotes(ctx, x as int, a[1]));
                        assert(0 <= x < ts.len());
                        assert(es[x as int] == term_expr(ts[x as int]));
                        assert(self.denotes(ctx, y as int, a[2]));
                        assert(0 <= y < ts.len());
                        assert(es[y as int] == term_expr(ts[y as int]));
                        assert(term_expr(ts[i]) == term_z3(ctx, t));
                    },
                    Z3Node::And(ops) | Z3Node::Or(ops) | Z3Node::Distinct(_, ops) | Z3Node::AddInt(ops) | Z3Node::AddBv(ops) => {
                        self.lemma_all_denote_each(ctx, ops@, a, a.len(), b);
                        assert forall|k: int| 0 <= k < a.len() implies operand_exprs(ops@, es)[k] == ez[k] by {
                            self.lemma_built_means(ctx, ts, ops@[k] as int, a[k]);
                            lemma_args_z3_index(ctx, a, a.len(), b, k);
                        }
                        assert(operand_exprs(ops@, es) =~= ez);
                        assert(term_expr(ts[i]) == term_z3(ctx, t));
                    },
                    _ => {
                        assert(term_expr(ts[i]) == term_z3(ctx, t));
                    },
                }
            },
            _ => {
                assert(term_expr(ts[i]) == term_z3(ctx, t));
            },
        }
    }
}

/// Gives `solver` the Z3 terms built for the assertions, in order.
pub fn load_solver(
    ctx: &Ctx,
    assertions: &[TermId],
    vars: &[TermId],
    tr: &Translation,
    terms: &Vec<Z3Term>,
    solver: &mut api::Z3Solver,
)
    requires
        translates(ctx, assertions@, vars@, *tr),
        !has_non_bool(ctx, assertions@),
        tr.plan.built(terms@),
    ensures
        final(solver)@ == old(solver)@ + assertions_z3(ctx, assertions@),
{
    let ghost start = solver@;
    let mut q: usize = 0;
    while q < tr.roots.len()
        invariant
            translates(ctx, assertions@, vars@, *tr),
            !has_non_bool(ctx, assertions@),
            tr.plan.built(terms@),
            0 <= q <= tr.roots@.len(),
            solver@ == start + assertions_z3(ctx, assertions@).take(q as int),
        decreases tr.roots@.len() - q,
    {
        let ghost a = assertions@[q as int];
        assert(tr.plan.denotes(ctx, tr.roots@[q as int] as int, a));
        assert(ctx.sort(a) == Sort::Bool);
        let b = bool_at(terms, tr.roots[q]);
        proof {
            tr.plan.lemma_built_means(ctx, terms@, tr.roots@[q as int] as int, a);
            assert(assertions_z3(ctx, assertions@).take(q + 1) =~= assertions_z3(ctx, assertions@).take(q as int).push(term_z3(ctx, a)));
        }
        api::solver_assert(solver, b);
        q = q + 1;
    }
    proof {
        assert(assertions_z3(ctx, assertions@).take(assertions@.len() as int) =~= assertions_z3(ctx, assertions@));
    }
}

/// Translates, solves and projects, inside a Z3 context that produces models.
fn solve_in_context(ctx: &Ctx, assertions: &[TermId], vars: &[TermId]) -> (r: (
    Result<SolveResult<ProjectedModel>, Z3BackendError>,
    Option<Checked>,
))
    requires
        ctx.wf(),
        ctx.all_valid(assertions@),
        ctx.all_valid(vars@),
        problem_plain(ctx, assertions@, vars@),
    ensures
        solve_outcome(ctx, assertions@, vars@, r.0),
        answered_by(ctx, assertions@, r.0, r.1),
        model_from_z3(ctx, assertions@, vars@, r.0),
{
    let tr = match translate_problem(ctx, assertions, vars) {
        Ok(tr) => tr,
        Err(e) => {
            return (Err(e), None);
        },
    };
    let terms = tr.plan.build_terms();
    let mut solver = api::solver_new();
    load_solver(ctx, assertions, vars, &tr, &terms, &mut solver);
    proof {
        assert(solver@ =~= assertions_z3(ctx, assertions@));
    }
    let checked = api::solver_check(&mut solver);
    let status = checked.status();
    if status != SolveStatus::Sat {
        return (Ok(SolveResult { status, model: None }), Some(checked));
    }
    let m = api::solver_get_model(&solver);
    let ghost g: spec_fn(Z3Expr) -> Z3Value = if m is Some {
        m->Some_0.assignment()
    } else {
        choose|g: spec_fn(Z3Expr) -> Z3Value| satisfies(g, assertions_z3(ctx, assertions@))
    };
    assert(satisfies(g, assertions_z3(ctx, assertions@)));
    let mut got: Vec<Option<Evaluated>> = Vec::new();
    let mut p: usize = 0;
    while p < vars.len()
        invariant
            translates(ctx, assertions@, vars@, tr),
            tr.plan.built(terms@),
            0 <= p <= vars@.len(),
            got@.len() == p,
            m matches Some(mm) ==> g == mm.assignment(),
            forall|j: int| 0 <= j < p ==> (#[trigger] got@[j] matches Some(e) ==> evaluated_means(
                e,
                z3_eval(g, term_z3(ctx, vars@[j])),
            )),
        decreases vars@.len() - p,
    {
        let e = match tr.var_roots[p] {
            Some(i) => {
                assert(tr.var_roots@[p as int] == Some(i));
                proof {
                    tr.plan.lemma_built_means(ctx, terms@, i as int, vars@[p as int]);
                }
                evaluate(&m, &terms[i])
            },
            None => None,
        };
        got.push(e);
        proof {
            assert forall|j: int| 0 <= j < p + 1 implies (#[trigger] got@[j] matches Some(e) ==> evaluated_means(
                e,
                z3_eval(g, term_z3(ctx, vars@[j])),
            )) by {
                if j < p {
                    assert(got@[j] == got@.drop_last()[j]);
                }
            }
        }
        p = p + 1;
    }
    match project(ctx, vars, &got) {
        Ok(out) => {
            proof {
                lemma_first_missing_none(ctx, vars@, got@, 0);
                assert forall|name: Seq<char>| #[trigger] out.lookup(name) is Some <==> last_sort(ctx, vars@, name) is Some by {
                    lemma_last_value_fits(ctx, vars@, got@, name);
                }
                assert forall|name: Seq<char>| #[trigger] out.lookup(name) is Some implies value_fits(out.lookup(name)->Some_0, last_sort(ctx, vars@, name)->Some_0) by {
                    lemma_last_value_fits(ctx, vars@, got@, name);
                }
                assert(model_agrees(ctx, vars@, out, g)) by {
                    assert forall|name: Seq<char>| #[trigger] out.lookup(name) is Some implies value_means(
                        out.lookup(name)->Some_0,
                        z3_eval(g, term_z3(ctx, last_var(ctx, vars@, name)->Some_0)),
                    ) by {
                        lemma_last_value_means(ctx, vars@, got@, name, g);
                    }
                }
                assert(satisfies(g, assertions_z3(ctx, assertions@)));
            }
            (Ok(SolveResult { status, model: Some(out) }), Some(checked))
        },
        Err(e) => {
            proof {
                lemma_first_missing_some(ctx, vars@, got@, 0);
                let j = first_missing(ctx, vars@, got@, 0)->Some_0 as int;
                assert(var_name(ctx, vars@[j]) is Some);
            }
            (Err(e), Some(checked))
        },
    }
}

/// Solves the conjunction of `assertions` with Z3 in process and, if it is satisfiable,
/// returns the values of the variables among `vars`, by name. Beside the result stands the
/// record of the solver's check that gave it (see `answered_by`).
pub fn solve_projected(ctx: &Ctx, assertions: &[TermId], vars: &[TermId]) -> (r: (
    Result<SolveResult<ProjectedModel>, Z3BackendError>,
    Option<Checked>,
))
    requires
        ctx.wf(),
        ctx.all_valid(assertions@),
        ctx.all_valid(vars@),
        problem_plain(ctx, assertions@, vars@),
    ensures
        solve_outcome(ctx, assertions@, vars@, r.0),
        answered_by(ctx, assertions@, r.0, r.1),
        model_from_z3(ctx, assertions@, vars@, r.0),
{
    let mut cfg = api::config_new();
    api::config_set_model_generation(&mut cfg, true);
    api::run_with_config(&cfg, ctx, assertions, vars)
}

} // verus!
