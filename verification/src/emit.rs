//! Serialize the typed IR into SMT-LIB2 s-expressions.
use vstd::prelude::*;

use crate::ir::{Ctx, Op, Sort, Sym, TermId, TermKind, subst_lookup};
use crate::sexp::{Sexp, SexpView, views, lemma_views};
use crate::text::{nat_decimal, int_decimal, push_decimal, push_int_decimal, push_str, push_char};

verus! {

/// The SMT-LIB2 sort expression: `Bool`, `Int` or `(_ BitVec w)`.
pub open spec fn sort_sexp_of(sort: Sort) -> SexpView {
    match sort {
        Sort::Bool => SexpView::Atom("Bool"@),
        Sort::Int => SexpView::Atom("Int"@),
        Sort::BitVec(w) => SexpView::List(
            seq![
                SexpView::Atom("_"@),
                SexpView::Atom("BitVec"@),
                SexpView::Atom(nat_decimal(w as nat)),
            ],
        ),
    }
}

/// `true` or `false`.
pub open spec fn bool_text(v: bool) -> Seq<char> {
    if v {
        "true"@
    } else {
        "false"@
    }
}

/// The bit-vector literal `(_ bvVALUE WIDTH)`, kept as one atom.
pub open spec fn bv_text(value: u64, width: u32) -> Seq<char> {
    "(_ bv"@ + nat_decimal(value as nat) + seq![' '] + nat_decimal(width as nat) + seq![')']
}

/// The SMT-LIB2 function symbol of an operator.
pub open spec fn op_head(op: Op) -> Seq<char> {
    match op {
        Op::And => "and"@,
        Op::Or => "or"@,
        Op::Not => "not"@,
        Op::Eq => "="@,
        Op::Distinct => "distinct"@,
        Op::Lt => "<"@,
        Op::Le => "<="@,
        Op::Ge => ">="@,
        Op::Add => "+"@,
        Op::Ite => "ite"@,
    }
}

/// The SMT-LIB2 expression of term `t`: variables by name, literals in SMT-LIB2 notation,
/// applications as `(head arg...)`.
pub open spec fn term_sexp(ctx: &Ctx, t: TermId) -> SexpView
    decreases t.spec_index(), 1nat, 0nat,
{
    match ctx.kind(t) {
        TermKind::Var { sym, sort } => SexpView::Atom(sym.0@),
        TermKind::BoolLit(v) => SexpView::Atom(bool_text(v)),
        TermKind::IntLit(v) => SexpView::Atom(int_decimal(v as int)),
        TermKind::BvLit { value, width } => SexpView::Atom(bv_text(value, width)),
        TermKind::App { op, args } => SexpView::List(
            seq![SexpView::Atom(op_head(op))] + args_sexp(ctx, args@, args@.len(), t.spec_index()),
        ),
    }
}

/// The length and first character of each operator's SMT-LIB2 name, which tell the names
/// apart.
spec fn head_key(op: Op) -> (nat, char) {
    match op {
        Op::And => (3, 'a'),
        Op::Or => (2, 'o'),
        Op::Not => (3, 'n'),
        Op::Eq => (1, '='),
        Op::Distinct => (8, 'd'),
        Op::Lt => (1, '<'),
        Op::Le => (2, '<'),
        Op::Ge => (2, '>'),
        Op::Add => (1, '+'),
        Op::Ite => (3, 'i'),
    }
}

proof fn lemma_head_key(op: Op)
    ensures
        op_head(op).len() == head_key(op).0,
        op_head(op)[0] == head_key(op).1,
{
    reveal_strlit("and");
    reveal_strlit("or");
    reveal_strlit("not");
    reveal_strlit("=");
    reveal_strlit("distinct");
    reveal_strlit("<");
    reveal_strlit("<=");
    reveal_strlit(">=");
    reveal_strlit("+");
    reveal_strlit("ite");
}

/// Each operator is written with its SMT-LIB2 name, and no two operators are written
/// alike.
pub proof fn law_operator_names(a: Op, b: Op)
    ensures
        op_head(Op::And) == "and"@,
        op_head(Op::Or) == "or"@,
        op_head(Op::Not) == "not"@,
        op_head(Op::Eq) == "="@,
        op_head(Op::Distinct) == "distinct"@,
        op_head(Op::Lt) == "<"@,
        op_head(Op::Le) == "<="@,
        op_head(Op::Ge) == ">="@,
        op_head(Op::Add) == "+"@,
        op_head(Op::Ite) == "ite"@,
        a != b ==> op_head(a) != op_head(b),
{
    lemma_head_key(a);
    lemma_head_key(b);
}

/// The two truth values are written `true` and `false`.
pub proof fn law_bool_names(b: bool)
    ensures
        bool_text(true) == "true"@,
        bool_text(false) == "false"@,
        bool_text(b) != bool_text(!b),
{
    reveal_strlit("true");
    reveal_strlit("false");
    assert("true"@.len() != "false"@.len());
}

/// How a term is written: a variable as its name; an application as a list of its
/// operator's name followed by its arguments, each written in turn, in order.
pub proof fn law_term_sexp(ctx: &Ctx, t: TermId)
    requires
        ctx.wf(),
        ctx.valid(t),
    ensures
        ctx.kind(t) matches TermKind::Var { sym, sort } ==> term_sexp(ctx, t) == SexpView::Atom(sym.0@),
        ctx.kind(t) matches TermKind::App { op, args } ==> (term_sexp(ctx, t) matches SexpView::List(items)
            && items.len() == args@.len() + 1 && items[0] == SexpView::Atom(op_head(op))
            && forall|k: int| 0 <= k < args@.len() ==> #[trigger] items[k + 1] == term_sexp(ctx, args@[k])),
{
    assert(ctx.node_ok(t));
    if let TermKind::App { op, args } = ctx.kind(t) {
        let a = args@;
        lemma_args_sexp(ctx, a, a.len(), t.spec_index());
        let items = seq![SexpView::Atom(op_head(op))] + args_sexp(ctx, a, a.len(), t.spec_index());
        assert forall|k: int| 0 <= k < a.len() implies #[trigger] items[k + 1] == term_sexp(ctx, a[k]) by {
            assert(items[k + 1] == args_sexp(ctx, a, a.len(), t.spec_index())[k]);
        }
    }
}

/// The expressions of the first `n` terms of `args`, each older than `bound`.
pub open spec fn args_sexp(ctx: &Ctx, args: Seq<TermId>, n: nat, bound: nat) -> Seq<SexpView>
    decreases bound, 0nat, n,
{
    if n == 0 || n > args.len() || args[n - 1].spec_index() >= bound {
        Seq::empty()
    } else {
        args_sexp(ctx, args, (n - 1) as nat, bound).push(term_sexp(ctx, args[n - 1]))
    }
}

pub proof fn lemma_args_sexp(ctx: &Ctx, args: Seq<TermId>, n: nat, bound: nat)
    requires
        n <= args.len(),
        forall|k: int| 0 <= k < args.len() ==> #[trigger] args[k].spec_index() < bound,
    ensures
        args_sexp(ctx, args, n, bound).len() == n,
        forall|k: int|
            0 <= k < n ==> #[trigger] args_sexp(ctx, args, n, bound)[k] == term_sexp(ctx, args[k]),
    decreases n,
{
    if n > 0 {
        lemma_args_sexp(ctx, args, (n - 1) as nat, bound);
        assert(args[n - 1].spec_index() < bound);
    }
}

/// Substituting nothing rebuilds a term: the image of an existing term `t` under the empty
/// substitution is a new term, of the same sort, that prints as `t` does.
pub proof fn law_empty_substitution_prints_same(c: &Ctx, t: TermId, r: TermId, fresh: nat)
    requires
        c.wf(),
        c.valid(t),
        t.spec_index() < fresh,
        c.subst_image(Seq::<(Sym, TermId)>::empty(), t, r, fresh),
    ensures
        r != t,
        c.sort(r) == c.sort(t),
        term_sexp(c, r) == term_sexp(c, t),
{
    lemma_empty_image_same(c, t, r, fresh);
}

proof fn lemma_empty_image_same(c: &Ctx, t: TermId, r: TermId, fresh: nat)
    requires
        c.wf(),
        c.valid(t),
        c.subst_image(Seq::<(Sym, TermId)>::empty(), t, r, fresh),
    ensures
        r.spec_index() >= fresh,
        c.sort(r) == c.sort(t),
        term_sexp(c, r) == term_sexp(c, t),
    decreases t.spec_index(), 1nat, 0nat,
{
    let e = Seq::<(Sym, TermId)>::empty();
    assert(c.node_ok(t));
    assert(c.node_ok(r));
    match c.kind(t) {
        TermKind::Var { sym, sort } => {
            assert(subst_lookup(e, sym.0@, 0) is None);
        },
        TermKind::App { op, args } => {
            let a2 = c.kind(r)->App_args;
            lemma_args_empty_image(c, args@, a2@, args@.len(), t.spec_index(), r.spec_index(), fresh);
            assert(c.arg_sorts(a2@) =~= c.arg_sorts(args@));
        },
        _ => {},
    }
}

proof fn lemma_args_empty_image(c: &Ctx, args: Seq<TermId>, imgs: Seq<TermId>, n: nat, tb: nat, rb: nat, fresh: nat)
    requires
        c.wf(),
        tb <= c.num_terms(),
        n <= args.len(),
        n <= imgs.len(),
        forall|k: int| 0 <= k < imgs.len() ==> (#[trigger] imgs[k]).spec_index() < rb,
        c.args_image(Seq::<(Sym, TermId)>::empty(), args, imgs, n, tb, fresh),
    ensures
        args_sexp(c, imgs, n, rb) == args_sexp(c, args, n, tb),
        forall|k: int| 0 <= k < n ==> c.sort(#[trigger] imgs[k]) == c.sort(args[k]),
    decreases tb, 0nat, n,
{
    if n > 0 {
        lemma_args_empty_image(c, args, imgs, (n - 1) as nat, tb, rb, fresh);
        assert(imgs[n - 1].spec_index() < rb);
        assert(args[n - 1].spec_index() < tb);
        lemma_empty_image_same(c, args[n - 1], imgs[n - 1], fresh);
    }
}

/// The atom holding the decimal notation of `n`.
pub fn nat_atom(n: u64) -> (r: Sexp)
    ensures
        r@ == SexpView::Atom(nat_decimal(n as nat)),
{
    let mut s = String::new();
    push_decimal(&mut s, n);
    proof {
        assert(s@ =~= nat_decimal(n as nat));
    }
    Sexp::Atom(s)
}

/// The atom holding the decimal notation of `v`.
pub fn int_atom(v: i64) -> (r: Sexp)
    ensures
        r@ == SexpView::Atom(int_decimal(v as int)),
{
    let mut s = String::new();
    push_int_decimal(&mut s, v);
    proof {
        assert(s@ =~= int_decimal(v as int));
    }
    Sexp::Atom(s)
}

/// The atom `(_ bvVALUE WIDTH)`.
pub fn bv_atom(value: u64, width: u32) -> (r: Sexp)
    ensures
        r@ == SexpView::Atom(bv_text(value, width)),
{
    let mut s = String::new();
    push_str(&mut s, "(_ bv");
    push_decimal(&mut s, value);
    push_char(&mut s, ' ');
    push_decimal(&mut s, width as u64);
    push_char(&mut s, ')');
    proof {
        assert(s@ =~= bv_text(value, width));
    }
    Sexp::Atom(s)
}

/// The atom `true` or `false`.
pub fn bool_atom(v: bool) -> (r: Sexp)
    ensures
        r@ == SexpView::Atom(bool_text(v)),
{
    Sexp::atom(if v { "true" } else { "false" })
}

/// A list of the given elements, whose value is `views(items)`.
pub fn sexp_list(items: Vec<Sexp>) -> (r: Sexp)
    ensures
        r@ == SexpView::List(views(items@)),
{
    Sexp::List(items)
}

pub fn sort_to_sexp(sort: &Sort) -> (r: Sexp)
    ensures
        r@ == sort_sexp_of(*sort),
{
    match sort {
        Sort::Bool => Sexp::atom("Bool"),
        Sort::Int => Sexp::atom("Int"),
        Sort::BitVec(w) => {
            let items = vec![Sexp::atom("_"), Sexp::atom("BitVec"), nat_atom(*w as u64)];
            proof {
                lemma_views(items@);
                assert(views(items@) =~= seq![
                    SexpView::Atom("_"@),
                    SexpView::Atom("BitVec"@),
                    SexpView::Atom(nat_decimal(*w as nat)),
                ]);
            }
            Sexp::List(items)
        },
    }
}

fn head_atom(op: &Op) -> (r: Sexp)
    ensures
        r@ == SexpView::Atom(op_head(*op)),
{
    Sexp::atom(
        match op {
            Op::And => "and",
            Op::Or => "or",
            Op::Not => "not",
            Op::Eq => "=",
            Op::Distinct => "distinct",
            Op::Lt => "<",
            Op::Le => "<=",
            Op::Ge => ">=",
            Op::Add => "+",
            Op::Ite => "ite",
        },
    )
}

pub fn term_to_sexp(ctx: &Ctx, t: TermId) -> (r: Sexp)
    requires
        ctx.wf(),
        ctx.valid(t),
    ensures
        r@ == term_sexp(ctx, t),
    decreases t.spec_index(),
{
    match ctx.kind_of(t) {
        TermKind::Var { sym, .. } => Sexp::Atom(sym.0.clone()),
        TermKind::BoolLit(v) => bool_atom(*v),
        TermKind::IntLit(v) => int_atom(*v),
        TermKind::BvLit { value, width } => bv_atom(*value, *width),
        TermKind::App { op, args } => {
            proof {
                assert(ctx.node_ok(t));
                lemma_args_sexp(ctx, args@, args@.len(), t.spec_index());
            }
            let mut items: Vec<Sexp> = Vec::new();
            items.push(head_atom(op));
            let ghost head = seq![SexpView::Atom(op_head(*op))];
            proof {
                lemma_views(items@);
                assert(views(items@) =~= head);
            }
            let mut i: usize = 0;
            while i < args.len()
                invariant
                    ctx.wf(),
                    ctx.valid(t),
                    ctx.kind(t) == (TermKind::App { op: *op, args: *args }),
                    forall|k: int|
                        0 <= k < args@.len() ==> #[trigger] args@[k].spec_index() < t.spec_index(),
                    0 <= i <= args@.len(),
                    views(items@) == head + args_sexp(ctx, args@, i as nat, t.spec_index()),
                decreases args@.len() - i,
            {
                assert(args@[i as int].spec_index() < t.spec_index());
                let x = term_to_sexp(ctx, args[i]);
                proof {
                    crate::sexp::lemma_views_push(items@, x);
                }
                items.push(x);
                i = i + 1;
            }
            Sexp::List(items)
        },
    }
}

} // verus!
