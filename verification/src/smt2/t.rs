//! Minimal term constructors for SMT-LIB2 `Sexp`.
use vstd::prelude::*;

use crate::emit::{bool_text, bv_text};
use crate::sexp::{Sexp, SexpView, views, lemma_views};
use crate::smt2::cmd;
use crate::text::int_decimal;

verus! {

/// A symbol atom.
pub fn sym(name: &str) -> (r: Sexp)
    ensures
        r@ == SexpView::Atom(name@),
{
    Sexp::atom(name)
}

/// `true` or `false`.
pub fn bool_lit(v: bool) -> (r: Sexp)
    ensures
        r@ == SexpView::Atom(bool_text(v)),
{
    crate::emit::bool_atom(v)
}

/// A decimal integer literal (negative values carry a `-`).
pub fn int_lit(v: i64) -> (r: Sexp)
    ensures
        r@ == SexpView::Atom(int_decimal(v as int)),
{
    crate::emit::int_atom(v)
}

/// The bit-vector literal `(_ bvVALUE WIDTH)`, as one atom.
pub fn bv_lit(value: u64, width: u32) -> (r: Sexp)
    ensures
        r@ == SexpView::Atom(bv_text(value, width)),
{
    crate::emit::bv_atom(value, width)
}

/// A list of the given elements.
pub fn list(items: Vec<Sexp>) -> (r: Sexp)
    ensures
        r@ == SexpView::List(views(items@)),
{
    Sexp::list(items)
}

/// The application `(f arg...)`.
pub fn app(f: &str, args: Vec<Sexp>) -> (r: Sexp)
    ensures
        r@ == cmd(f@, views(args@)),
{
    let mut v: Vec<Sexp> = Vec::with_capacity(1);
    v.push(Sexp::atom(f));
    let ghost h = v@;
    let mut rest = args;
    let ghost orig = rest@;
    v.append(&mut rest);
    proof {
        lemma_views(v@);
        lemma_views(orig);
        lemma_views(h);
        assert(v@ =~= h + orig);
        assert(views(v@) =~= seq![SexpView::Atom(f@)] + views(orig));
    }
    Sexp::List(v)
}

fn app2(f: &str, a: Sexp, b: Sexp) -> (r: Sexp)
    ensures
        r@ == cmd(f@, seq![a@, b@]),
{
    let ghost av = a@;
    let ghost bv = b@;
    let args = vec![a, b];
    proof {
        lemma_views(args@);
        assert(views(args@) =~= seq![av, bv]);
    }
    app(f, args)
}

pub fn eq(a: Sexp, b: Sexp) -> (r: Sexp)
    ensures
        r@ == cmd("="@, seq![a@, b@]),
{
    app2("=", a, b)
}

pub fn distinct(args: Vec<Sexp>) -> (r: Sexp)
    ensures
        r@ == cmd("distinct"@, views(args@)),
{
    app("distinct", args)
}

pub fn and(args: Vec<Sexp>) -> (r: Sexp)
    ensures
        r@ == cmd("and"@, views(args@)),
{
    app("and", args)
}

pub fn or(args: Vec<Sexp>) -> (r: Sexp)
    ensures
        r@ == cmd("or"@, views(args@)),
{
    app("or", args)
}

pub fn not(a: Sexp) -> (r: Sexp)
    ensures
        r@ == cmd("not"@, seq![a@]),
{
    let ghost av = a@;
    let args = vec![a];
    proof {
        lemma_views(args@);
        assert(views(args@) =~= seq![av]);
    }
    app("not", args)
}

pub fn lt(a: Sexp, b: Sexp) -> (r: Sexp)
    ensures
        r@ == cmd("<"@, seq![a@, b@]),
{
    app2("<", a, b)
}

pub fn le(a: Sexp, b: Sexp) -> (r: Sexp)
    ensures
        r@ == cmd("<="@, seq![a@, b@]),
{
    app2("<=", a, b)
}

pub fn ge(a: Sexp, b: Sexp) -> (r: Sexp)
    ensures
        r@ == cmd(">="@, seq![a@, b@]),
{
    app2(">=", a, b)
}

pub fn add(args: Vec<Sexp>) -> (r: Sexp)
    ensures
        r@ == cmd("+"@, views(args@)),
{
    app("+", args)
}

} // verus!
