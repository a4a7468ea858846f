//! SMT-LIB2 script builder.
use vstd::prelude::*;

use crate::sexp::{Sexp, SexpView, views, lemma_views, sexp_text};
use crate::text::{nat_decimal, push_char};

pub mod t;

verus! {

/// SMT-LIB2 sorts.
#[derive(Clone, Copy, Debug, PartialEq, Eq, Structural)]
pub enum Sort {
    Bool,
    Int,
    BitVec(u32),
}

/// The SMT-LIB2 sort expression: `Bool`, `Int` or `(_ BitVec w)`.
pub open spec fn sort_sexp(sort: Sort) -> SexpView {
    match sort {
        Sort::Bool => SexpView::Atom("Bool"@),
        Sort::Int => SexpView::Atom("Int"@),
        Sort::BitVec(w) => SexpView::List(
            seq![
                SexpView::Atom("_"@),
                SexpView::Atom("BitVec"@),
                SexpView::Atom(nat_decimal(w as nat)),
            ],
        ),
    }
}

impl Sort {
    pub fn to_smt2(&self) -> (r: Sexp)
        ensures
            r@ == sort_sexp(*self),
    {
        match self {
            Sort::Bool => Sexp::atom("Bool"),
            Sort::Int => Sexp::atom("Int"),
            Sort::BitVec(w) => {
                let items = vec![Sexp::atom("_"), Sexp::atom("BitVec"), crate::emit::nat_atom(*w as u64)];
                proof {
                    lemma_views(items@);
                    assert(views(items@) =~= seq![
                        SexpView::Atom("_"@),
                        SexpView::Atom("BitVec"@),
                        SexpView::Atom(nat_decimal(*w as nat)),
                    ]);
                }
                Sexp::List(items)
            },
        }
    }
}

/// A declared variable (as a nullary function).
#[derive(Clone, Debug, PartialEq, Eq)]
pub struct Var {
    pub name: String,
    pub sort: Sort,
}

impl Var {
    pub fn new(name: &str, sort: Sort) -> (r: Self)
        ensures
            r.name@ == name@,
            r.sort == sort,
    {
        Var { name: name.to_owned(), sort }
    }

    /// The variable's name as an atom.
    pub fn sym(&self) -> (r: Sexp)
        ensures
            r@ == SexpView::Atom(self.name@),
    {
        Sexp::Atom(self.name.clone())
    }
}

/// A simple SMT-LIB2 script: a sequence of commands.
#[derive(Clone, Debug)]
pub struct Script {
    items: Vec<Sexp>,
}

impl View for Script {
    type V = Seq<SexpView>;

    closed spec fn view(&self) -> Seq<SexpView> {
        views(self.items@)
    }
}

/// The default script is the empty one.
impl Default for Script {
    fn default() -> (r: Self)
        ensures
            r@ == Seq::<SexpView>::empty(),
    {
        Script::new()
    }
}

/// `(head)` or `(head arg...)` with an atom as head.
pub open spec fn cmd(head: Seq<char>, args: Seq<SexpView>) -> SexpView {
    SexpView::List(seq![SexpView::Atom(head)] + args)
}

/// The text of a script: each command printed on a line of its own.
pub open spec fn script_text(items: Seq<SexpView>) -> Seq<char>
    decreases items.len(),
{
    if items.len() == 0 {
        Seq::empty()
    } else {
        script_text(items.drop_last()) + sexp_text(items.last()) + seq!['\n']
    }
}

impl Script {
    pub fn new() -> (r: Self)
        ensures
            r@ == Seq::<SexpView>::empty(),
    {
        let r = Script { items: Vec::new() };
        proof {
            lemma_views(r.items@);
        }
        r
    }

    fn push_item(&mut self, item: Sexp)
        ensures
            final(self)@ == old(self)@.push(item@),
    {
        proof {
            crate::sexp::lemma_views_push(self.items@, item);
        }
        self.items.push(item);
    }

    fn push_cmd(&mut self, head: &str, args: Vec<Sexp>)
        ensures
            final(self)@ == old(self)@.push(cmd(head@, views(args@))),
    {
        let mut items: Vec<Sexp> = Vec::new();
        items.push(Sexp::atom(head));
        let ghost h = items@;
        let mut rest = args;
        let ghost orig = rest@;
        items.append(&mut rest);
        proof {
            lemma_views(items@);
            lemma_views(orig);
            lemma_views(h);
            assert(items@ =~= h + orig);
            assert(views(items@) =~= seq![SexpView::Atom(head@)] + views(orig));
        }
        self.push_item(Sexp::List(items));
    }

    /// `(set-logic LOGIC)`.
    pub fn set_logic(&mut self, logic: &str)
        ensures
            final(self)@ == old(self)@.push(cmd("set-logic"@, seq![SexpView::Atom(logic@)])),
    {
        self.push_cmd1("set-logic", Sexp::atom(logic));
    }

    fn push_cmd1(&mut self, head: &str, a: Sexp)
        ensures
            final(self)@ == old(self)@.push(cmd(head@, seq![a@])),
    {
        let ghost av = a@;
        let args = vec![a];
        proof {
            lemma_views(args@);
            assert(views(args@) =~= seq![av]);
        }
        self.push_cmd(head, args);
    }

    fn push_cmd0(&mut self, head: &str)
        ensures
            final(self)@ == old(self)@.push(cmd(head@, Seq::empty())),
    {
        let args: Vec<Sexp> = Vec::new();
        proof {
            lemma_views(args@);
            assert(views(args@) =~= Seq::<SexpView>::empty());
        }
        self.push_cmd(head, args);
    }

    /// `(set-option KEY VALUE)`.
    pub fn set_option(&mut self, key: &str, value: Sexp)
        ensures
            final(self)@ == old(self)@.push(cmd("set-option"@, seq![SexpView::Atom(key@), value@])),
    {
        let ghost vv = value@;
        let args = vec![Sexp::atom(key), value];
        proof {
            lemma_views(args@);
            assert(views(args@) =~= seq![SexpView::Atom(key@), vv]);
        }
        self.push_cmd("set-option", args);
    }

    /// A `;` line comment.
    pub fn comment(&mut self, text: &str)
        ensures
            final(self)@ == old(self)@.push(SexpView::Atom(seq![';'] + text@)),
    {
        let mut s = String::new();
        push_char(&mut s, ';');
        crate::text::push_str(&mut s, text);
        proof {
            assert(s@ =~= seq![';'] + text@);
        }
        self.push_item(Sexp::Atom(s));
    }

    /// `(declare-const NAME SORT)`.
    pub fn declare_const(&mut self, v: &Var)
        ensures
            final(self)@ == old(self)@.push(
                cmd("declare-const"@, seq![SexpView::Atom(v.name@), sort_sexp(v.sort)]),
            ),
    {
        let args = vec![v.sym(), v.sort.to_smt2()];
        proof {
            lemma_views(args@);
            assert(views(args@) =~= seq![SexpView::Atom(v.name@), sort_sexp(v.sort)]);
        }
        self.push_cmd("declare-const", args);
    }

    /// `(assert TERM)`.
    pub fn assert_sexp(&mut self, term: Sexp)
        ensures
            final(self)@ == old(self)@.push(cmd("assert"@, seq![term@])),
    {
        self.push_cmd1("assert", term);
    }

    /// Assert a typed IR term.
    pub fn assert_term(&mut self, ctx: &crate::ir::Ctx, t: crate::ir::TermId)
        requires
            ctx.wf(),
            ctx.valid(t),
        ensures
            final(self)@ == old(self)@.push(cmd("assert"@, seq![crate::emit::term_sexp(ctx, t)])),
    {
        self.assert_sexp(crate::emit::term_to_sexp(ctx, t));
    }

    /// `(check-sat)`.
    pub fn check_sat(&mut self)
        ensures
            final(self)@ == old(self)@.push(cmd("check-sat"@, Seq::empty())),
    {
        self.push_cmd0("check-sat");
    }

    /// `(get-model)`.
    pub fn get_model(&mut self)
        ensures
            final(self)@ == old(self)@.push(cmd("get-model"@, Seq::empty())),
    {
        self.push_cmd0("get-model");
    }

    /// `(get-unsat-core)`.
    pub fn get_unsat_core(&mut self)
        ensures
            final(self)@ == old(self)@.push(cmd("get-unsat-core"@, Seq::empty())),
    {
        self.push_cmd0("get-unsat-core");
    }

    /// `(get-proof)`.
    pub fn get_proof(&mut self)
        ensures
            final(self)@ == old(self)@.push(cmd("get-proof"@, Seq::empty())),
    {
        self.push_cmd0("get-proof");
    }

    /// `(exit)`.
    pub fn exit(&mut self)
        ensures
            final(self)@ == old(self)@.push(cmd("exit"@, Seq::empty())),
    {
        self.push_cmd0("exit");
    }

    /// `(maximize TERM)`.
    pub fn maximize(&mut self, term: Sexp)
        ensures
            final(self)@ == old(self)@.push(cmd("maximize"@, seq![term@])),
    {
        self.push_cmd1("maximize", term);
    }

    /// `(minimize TERM)`.
    pub fn minimize(&mut self, term: Sexp)
        ensures
            final(self)@ == old(self)@.push(cmd("minimize"@, seq![term@])),
    {
        self.push_cmd1("minimize", term);
    }

    /// The script text: one command per line, each followed by a newline.
    pub fn to_string(&self) -> (r: String)
        ensures
            r@ == script_text(self@),
    {
        let mut out = String::new();
        let ghost vs = views(self.items@);
        proof {
            lemma_views(self.items@);
        }
        let mut i: usize = 0;
        while i < self.items.len()
            invariant
                0 <= i <= self.items@.len(),
                vs == views(self.items@),
                vs.len() == self.items@.len(),
                forall|k: int| 0 <= k < vs.len() ==> #[trigger] vs[k] == self.items@[k]@,
                out@ == script_text(vs.take(i as int)),
            decreases self.items@.len() - i,
        {
            let s = self.items[i].to_string();
            crate::text::push_str(&mut out, s.as_str());
            push_char(&mut out, '\n');
            proof {
                assert(vs.take(i + 1).drop_last() =~= vs.take(i as int));
            }
            i = i + 1;
        }
        proof {
            assert(vs.take(vs.len() as int) =~= vs);
        }
        out
    }
}

} // verus!
