//! Solver-agnostic, typed constraint IR.
//!
//! Terms live in an arena (`Ctx`); every node records its kind and its sort, and the
//! constructors only ever add nodes whose sort follows the typing rules of the operator.
use vstd::prelude::*;

use crate::text::str_lt;

verus! {

/// A symbol/name used to identify variables.
#[derive(Clone, Debug, PartialEq, Eq, Hash, PartialOrd, Ord)]
pub struct Sym(pub String);

impl From<String> for Sym {
    fn from(s: String) -> (r: Sym) {
        Sym(s)
    }
}

impl vstd::std_specs::convert::FromSpecImpl<String> for Sym {
    open spec fn obeys_from_spec() -> bool {
        true
    }

    open spec fn from_spec(s: String) -> Sym {
        Sym(s)
    }
}

/// Sorts supported by the core IR.
#[derive(Clone, Copy, Debug, PartialEq, Eq, Hash, Structural)]
pub enum Sort {
    Bool,
    Int,
    BitVec(u32),
}

/// A handle to a term in an arena.
#[derive(Copy, Clone, Debug, PartialEq, Eq, Hash, Structural)]
pub struct TermId(u32);

/// Built-in operators.
#[derive(Clone, Copy, Debug, PartialEq, Eq, Hash, Structural)]
pub enum Op {
    And,
    Or,
    Not,
    Eq,
    Distinct,
    Lt,
    Le,
    Ge,
    Add,
    Ite,
}

/// What a term is: a variable, a literal, or an operator application.
#[derive(Clone, Debug, PartialEq, Eq)]
pub enum TermKind {
    Var { sym: Sym, sort: Sort },
    BoolLit(bool),
    IntLit(i64),
    BvLit { value: u64, width: u32 },
    App { op: Op, args: Vec<TermId> },
}

#[derive(Clone, Debug)]
struct TermNode {
    kind: TermKind,
    sort: Sort,
}

/// Why a term could not be built.
#[derive(Clone, Copy, Debug, PartialEq, Eq, Structural)]
pub enum TypeError {
    ExpectedBool(Sort),
    ExpectedInt(Sort),
    ExpectedBitVec { expected: u32, got: Sort },
    SortMismatch { expected: Sort, got: Sort },
    Arity { op: Op, expected: usize, got: usize },
    MinArity { op: Op, min: usize, got: usize },
    EmptyArgs { op: Op },
}

/// A typed term arena with constructors that enforce sorts.
#[derive(Debug)]
pub struct Ctx {
    nodes: Vec<TermNode>,
}

impl TermId {
    /// The position of the term in its arena.
    pub closed spec fn spec_index(self) -> nat {
        self.0 as nat
    }

    /// The position of the term in its arena.
    pub fn index(&self) -> (r: u32)
        ensures
            r == self.spec_index(),
    {
        self.0
    }

    fn new(i: usize) -> (r: Self)
        requires
            i <= u32::MAX,
        ensures
            r.spec_index() == i,
    {
        TermId(i as u32)
    }

    /// Handles with the same position are the same handle.
    pub proof fn lemma_index_injective(a: TermId, b: TermId)
        ensures
            a.spec_index() == b.spec_index() ==> a == b,
    {
    }
}

/// The first sort at position `i` or later that differs from `want`.
pub open spec fn first_mismatch(s: Seq<Sort>, i: nat, want: Sort) -> Option<Sort>
    decreases s.len() - i,
{
    if i >= s.len() {
        None
    } else if s[i as int] != want {
        Some(s[i as int])
    } else {
        first_mismatch(s, i + 1, want)
    }
}

/// The typing rules of the operators: the sort of `op` applied to arguments of sorts `s`,
/// or the first rule that the arguments break.
pub open spec fn spec_infer_app_sort(op: Op, s: Seq<Sort>) -> Result<Sort, TypeError> {
    let n = s.len() as usize;
    match op {
        Op::Not => if s.len() != 1 {
            Err(TypeError::Arity { op, expected: 1, got: n })
        } else if s[0] != Sort::Bool {
            Err(TypeError::ExpectedBool(s[0]))
        } else {
            Ok(Sort::Bool)
        },
        Op::And | Op::Or => if s.len() == 0 {
            Err(TypeError::EmptyArgs { op })
        } else {
            match first_mismatch(s, 0, Sort::Bool) {
                Some(x) => Err(TypeError::ExpectedBool(x)),
                None => Ok(Sort::Bool),
            }
        },
        Op::Eq => if s.len() != 2 {
            Err(TypeError::Arity { op, expected: 2, got: n })
        } else if s[0] != s[1] {
            Err(TypeError::SortMismatch { expected: s[0], got: s[1] })
        } else {
            Ok(Sort::Bool)
        },
        Op::Distinct => if s.len() < 2 {
            Err(TypeError::MinArity { op, min: 2, got: n })
        } else {
            match first_mismatch(s, 1, s[0]) {
                Some(x) => Err(TypeError::SortMismatch { expected: s[0], got: x }),
                None => Ok(Sort::Bool),
            }
        },
        Op::Lt | Op::Le | Op::Ge => if s.len() != 2 {
            Err(TypeError::Arity { op, expected: 2, got: n })
        } else if s[0] != Sort::Int {
            Err(TypeError::ExpectedInt(s[0]))
        } else if s[1] != Sort::Int {
            Err(TypeError::ExpectedInt(s[1]))
        } else {
            Ok(Sort::Bool)
        },
        Op::Add => if s.len() < 2 {
            Err(TypeError::MinArity { op, min: 2, got: n })
        } else {
            match s[0] {
                Sort::Int => match first_mismatch(s, 1, Sort::Int) {
                    Some(x) => Err(TypeError::ExpectedInt(x)),
                    None => Ok(Sort::Int),
                },
                Sort::BitVec(w) => match first_mismatch(s, 1, Sort::BitVec(w)) {
                    Some(x) => Err(TypeError::ExpectedBitVec { expected: w, got: x }),
                    None => Ok(Sort::BitVec(w)),
                },
                Sort::Bool => Err(TypeError::ExpectedInt(Sort::Bool)),
            }
        },
        Op::Ite => if s.len() != 3 {
            Err(TypeError::Arity { op, expected: 3, got: n })
        } else if s[0] != Sort::Bool {
            Err(TypeError::ExpectedBool(s[0]))
        } else if s[1] != s[2] {
            Err(TypeError::SortMismatch { expected: s[1], got: s[2] })
        } else {
            Ok(s[1])
        },
    }
}


/// The names of the symbols `syms`, in order.
pub open spec fn sym_names(syms: Seq<Sym>) -> Seq<Seq<char>> {
    syms.map_values(|x: Sym| x.0@)
}


/// The names are in strictly increasing order (see `crate::text::str_lt`).
pub open spec fn names_sorted(names: Seq<Seq<char>>) -> bool {
    forall|i: int, j: int| 0 <= i < j < names.len() ==> str_lt(#[trigger] names[i], #[trigger] names[j])
}

/// The term that the first pair of `subst` at position `i` or later binds to `name`.
pub open spec fn subst_lookup(subst: Seq<(Sym, TermId)>, name: Seq<char>, i: nat) -> Option<TermId>
    decreases subst.len() - i,
{
    if i >= subst.len() {
        None
    } else if subst[i as int].0.0@ == name {
        Some(subst[i as int].1)
    } else {
        subst_lookup(subst, name, i + 1)
    }
}

/// Number of filled slots.
pub open spec fn count_some(s: Seq<Option<TermId>>) -> nat
    decreases s.len(),
{
    if s.len() == 0 {
        0
    } else {
        count_some(s.drop_last()) + if s.last() is Some { 1nat } else { 0nat }
    }
}

proof fn lemma_count_some_bound(s: Seq<Option<TermId>>)
    ensures
        count_some(s) <= s.len(),
    decreases s.len(),
{
    if s.len() > 0 {
        lemma_count_some_bound(s.drop_last());
    }
}

proof fn lemma_count_some_empty(s: Seq<Option<TermId>>)
    requires
        forall|i: int| 0 <= i < s.len() ==> s[i] is None,
    ensures
        count_some(s) == 0,
    decreases s.len(),
{
    if s.len() > 0 {
        lemma_count_some_empty(s.drop_last());
    }
}

proof fn lemma_count_some_none(s: Seq<Option<TermId>>, i: int)
    requires
        0 <= i < s.len(),
        s[i] is None,
    ensures
        count_some(s) < s.len(),
    decreases s.len(),
{
    if i < s.len() - 1 {
        lemma_count_some_none(s.drop_last(), i);
    } else {
        lemma_count_some_bound(s.drop_last());
    }
}

proof fn lemma_count_some_fill(s: Seq<Option<TermId>>, i: int, x: TermId)
    requires
        0 <= i < s.len(),
        s[i] is None,
    ensures
        count_some(s.update(i, Some(x))) == count_some(s) + 1,
    decreases s.len(),
{
    let u = s.update(i, Some(x));
    if i == s.len() - 1 {
        assert(u.drop_last() =~= s.drop_last());
    } else {
        assert(u.drop_last() =~= s.drop_last().update(i, Some(x)));
        lemma_count_some_fill(s.drop_last(), i, x);
    }
}

/// The default arena is the empty one.
impl Default for Ctx {
    fn default() -> (r: Self)
        ensures
            r.num_terms() == 0,
            r.wf(),
    {
        Ctx::new()
    }
}

impl Ctx {
    /// Number of terms in the arena.
    pub closed spec fn num_terms(&self) -> nat {
        self.nodes@.len()
    }

    /// The kind of term `t`.
    pub closed spec fn kind(&self, t: TermId) -> TermKind {
        self.nodes@[t.spec_index() as int].kind
    }

    /// The sort of term `t`.
    pub closed spec fn sort(&self, t: TermId) -> Sort {
        self.nodes@[t.spec_index() as int].sort
    }

    /// `t` is a handle into this arena.
    pub open spec fn valid(&self, t: TermId) -> bool {
        t.spec_index() < self.num_terms()
    }

    /// Every handle in `ts` is a handle into this arena.
    pub open spec fn all_valid(&self, ts: Seq<TermId>) -> bool {
        forall|i: int| 0 <= i < ts.len() ==> #[trigger] self.valid(ts[i])
    }

    /// The sorts of the terms `ts`.
    pub open spec fn arg_sorts(&self, ts: Seq<TermId>) -> Seq<Sort> {
        ts.map_values(|a: TermId| self.sort(a))
    }

    /// `t` is an application of `op` to exactly `args`.
    pub open spec fn is_app(&self, t: TermId, op: Op, args: Seq<TermId>) -> bool {
        self.kind(t) matches TermKind::App { op: o, args: a } && o == op && a@ == args
    }

    /// `t` is `(not (= a b))`.
    pub open spec fn is_neq(&self, t: TermId, a: TermId, b: TermId) -> bool {
        self.kind(t) matches TermKind::App { op, args } && op == Op::Not && args@.len() == 1
            && self.is_app(args@[0], Op::Eq, seq![a, b])
    }

    /// `t` is the Boolean disjunction `(or (not (= v1 val1)) ...)` over the pairs `ps`.
    pub open spec fn is_blocking_clause(&self, t: TermId, ps: Seq<(TermId, TermId)>) -> bool {
        &&& self.sort(t) == Sort::Bool
        &&& self.kind(t) matches TermKind::App { op, args } && op == Op::Or && args@.len()
            == ps.len() && forall|i: int|
            0 <= i < args@.len() ==> self.is_neq(#[trigger] args@[i], ps[i].0, ps[i].1)
    }

    /// The names of the variables that occur in term `t`.
    pub open spec fn free_vars_of(&self, t: TermId) -> Set<Seq<char>>
        decreases t.spec_index(), 1nat, 0nat,
    {
        match self.kind(t) {
            TermKind::Var { sym, sort } => set![sym.0@],
            TermKind::App { op, args } => self.args_free_vars(args@, args@.len(), t.spec_index()),
            _ => Set::empty(),
        }
    }

    /// The names of the variables that occur in the first `n` terms of `args`, each of which
    /// is older than `bound`.
    pub open spec fn args_free_vars(&self, args: Seq<TermId>, n: nat, bound: nat) -> Set<
        Seq<char>,
    >
        decreases bound, 0nat, n,
    {
        if n == 0 || n > args.len() {
            Set::empty()
        } else if args[n - 1].spec_index() < bound {
            self.args_free_vars(args, (n - 1) as nat, bound).union(
                self.free_vars_of(args[n - 1]),
            )
        } else {
            Set::empty()
        }
    }

    /// Every term that `subst` binds is a handle into this arena.
    pub open spec fn subst_valid(&self, subst: Seq<(Sym, TermId)>) -> bool {
        forall|i: int| 0 <= i < subst.len() ==> self.valid(#[trigger] subst[i].1)
    }

    /// The sort that the image of `t` under `subst` has, or the first typing error met when
    /// the image is rebuilt (arguments left to right, innermost first).
    pub open spec fn subst_sort(&self, subst: Seq<(Sym, TermId)>, t: TermId) -> Result<
        Sort,
        TypeError,
    >
        decreases t.spec_index(), 1nat, 0nat,
    {
        match self.kind(t) {
            TermKind::Var { sym, sort } => match subst_lookup(subst, sym.0@, 0) {
                Some(x) => Ok(self.sort(x)),
                None => Ok(sort),
            },
            TermKind::App { op, args } => match self.args_subst_sorts(
                subst,
                args@,
                args@.len(),
                t.spec_index(),
            ) {
                Ok(ss) => spec_infer_app_sort(op, ss),
                Err(e) => Err(e),
            },
            _ => Ok(self.sort(t)),
        }
    }

    /// `subst_sort` of the first `n` terms of `args`, or the first error among them.
    pub open spec fn args_subst_sorts(
        &self,
        subst: Seq<(Sym, TermId)>,
        args: Seq<TermId>,
        n: nat,
        bound: nat,
    ) -> Result<Seq<Sort>, TypeError>
        decreases bound, 0nat, n,
    {
        if n == 0 || n > args.len() || args[n - 1].spec_index() >= bound {
            Ok(Seq::empty())
        } else {
            match self.args_subst_sorts(subst, args, (n - 1) as nat, bound) {
                Err(e) => Err(e),
                Ok(ss) => match self.subst_sort(subst, args[n - 1]) {
                    Err(e) => Err(e),
                    Ok(x) => Ok(ss.push(x)),
                },
            }
        }
    }

    /// `r` is the image of `t` under `subst`: every variable bound by `subst` is replaced by
    /// its term, and everything else is rebuilt with the same kind as a new term, at position
    /// `fresh` or later.
    pub open spec fn subst_image(&self, subst: Seq<(Sym, TermId)>, t: TermId, r: TermId, fresh: nat) -> bool
        decreases t.spec_index(), 1nat, 0nat,
    {
        &&& self.valid(r)
        &&& match self.kind(t) {
            TermKind::Var { sym, sort } => match subst_lookup(subst, sym.0@, 0) {
                Some(x) => r == x,
                None => self.kind(r) == self.kind(t) && r.spec_index() >= fresh,
            },
            TermKind::App { op, args } => self.kind(r) matches TermKind::App { op: o2, args: a2 }
                && o2 == op && a2@.len() == args@.len() && r.spec_index() >= fresh
                && self.args_image(subst, args@, a2@, args@.len(), t.spec_index(), fresh),
            _ => self.kind(r) == self.kind(t) && r.spec_index() >= fresh,
        }
    }

    /// Each of the first `n` terms of `imgs` is the image of the term of `args` at its position.
    pub open spec fn args_image(
        &self,
        subst: Seq<(Sym, TermId)>,
        args: Seq<TermId>,
        imgs: Seq<TermId>,
        n: nat,
        bound: nat,
        fresh: nat,
    ) -> bool
        decreases bound, 0nat, n,
    {
        if n == 0 {
            true
        } else if n > args.len() || n > imgs.len() || args[n - 1].spec_index() >= bound {
            false
        } else {
            self.args_image(subst, args, imgs, (n - 1) as nat, bound, fresh) && self.subst_image(
                subst,
                args[n - 1],
                imgs[n - 1],
                fresh,
            )
        }
    }

    /// Position of the first pair, from `i` on, whose two terms differ in sort.
    pub open spec fn first_bad_pair(&self, ps: Seq<(TermId, TermId)>, i: nat) -> Option<nat>
        decreases ps.len() - i,
    {
        if i >= ps.len() {
            None
        } else if self.sort(ps[i as int].0) != self.sort(ps[i as int].1) {
            Some(i)
        } else {
            self.first_bad_pair(ps, i + 1)
        }
    }

    /// Node `t` is well typed: its recorded sort follows from its kind, and the
    /// arguments of an application are older terms.
    pub open spec fn node_ok(&self, t: TermId) -> bool {
        match self.kind(t) {
            TermKind::Var { sym, sort } => self.sort(t) == sort,
            TermKind::BoolLit(_) => self.sort(t) == Sort::Bool,
            TermKind::IntLit(_) => self.sort(t) == Sort::Int,
            TermKind::BvLit { value, width } => self.sort(t) == Sort::BitVec(width),
            TermKind::App { op, args } => {
                &&& forall|i: int|
                    0 <= i < args@.len() ==> #[trigger] args@[i].spec_index() < t.spec_index()
                &&& spec_infer_app_sort(op, self.arg_sorts(args@)) == Ok::<Sort, TypeError>(
                    self.sort(t),
                )
            },
        }
    }

    /// Every node of the arena is well typed.
    pub open spec fn wf(&self) -> bool {
        forall|t: TermId| self.valid(t) ==> #[trigger] self.node_ok(t)
    }

    /// `self` holds every term of `old` unchanged, and maybe more.
    pub open spec fn extends(&self, old: &Ctx) -> bool {
        &&& old.num_terms() <= self.num_terms()
        &&& forall|t: TermId| old.valid(t) ==> #[trigger] self.kind(t) == old.kind(t)
        &&& forall|t: TermId| old.valid(t) ==> #[trigger] self.sort(t) == old.sort(t)
    }

    /// `self` is `old` with one more term, `t`, of the given kind and sort.
    pub open spec fn pushed(&self, old: &Ctx, t: TermId, kind: TermKind, sort: Sort) -> bool {
        &&& self.extends(old)
        &&& self.num_terms() == old.num_terms() + 1
        &&& t.spec_index() == old.num_terms()
        &&& self.kind(t) == kind
        &&& self.sort(t) == sort
    }

    pub fn new() -> (r: Self)
        ensures
            r.num_terms() == 0,
            r.wf(),
    {
        Ctx { nodes: Vec::new() }
    }

    /// Number of terms in the arena.
    pub fn term_count(&self) -> (r: usize)
        ensures
            r == self.num_terms(),
    {
        self.nodes.len()
    }

    pub fn sort_of(&self, t: TermId) -> (r: &Sort)
        requires
            self.valid(t),
        ensures
            *r == self.sort(t),
    {
        &self.nodes[t.0 as usize].sort
    }

    pub fn kind_of(&self, t: TermId) -> (r: &TermKind)
        requires
            self.valid(t),
        ensures
            *r == self.kind(t),
    {
        &self.nodes[t.0 as usize].kind
    }

    /// Term `t` has no bit-vector sort of width zero; if it is a variable, its name holds no
    /// NUL character; if it is an application, it has at most `u32::MAX` arguments.
    pub open spec fn term_plain(&self, t: TermId) -> bool {
        &&& self.sort(t) != Sort::BitVec(0)
        &&& (self.kind(t) matches TermKind::Var { sym, sort } ==> !sym.0@.contains('\0'))
        &&& (self.kind(t) matches TermKind::App { op, args } ==> args@.len() <= u32::MAX)
    }

    /// Term `t` and every term below it are plain (see `term_plain`).
    pub open spec fn plain_below(&self, t: TermId) -> bool
        decreases t.spec_index(), 1nat, 0nat,
    {
        &&& self.term_plain(t)
        &&& match self.kind(t) {
            TermKind::App { op, args } => self.args_plain_below(args@, args@.len(), t.spec_index()),
            _ => true,
        }
    }

    /// `plain_below` holds of the first `n` terms of `args` that are older than `bound`.
    pub open spec fn args_plain_below(&self, args: Seq<TermId>, n: nat, bound: nat) -> bool
        decreases bound, 0nat, n,
    {
        if n == 0 || n > args.len() {
            true
        } else if args[n - 1].spec_index() < bound {
            self.args_plain_below(args, (n - 1) as nat, bound) && self.plain_below(args[n - 1])
        } else {
            true
        }
    }

    /// Every term of `ts`, and every term below each, is plain.
    pub open spec fn all_plain_below(&self, ts: Seq<TermId>) -> bool {
        forall|i: int| 0 <= i < ts.len() ==> #[trigger] self.plain_below(ts[i])
    }

    /// For arguments older than `bound`, `args_plain_below` says that each is plain below.
    pub proof fn lemma_args_plain_below(&self, args: Seq<TermId>, n: nat, bound: nat)
        requires
            n <= args.len(),
            forall|k: int| 0 <= k < n ==> (#[trigger] args[k]).spec_index() < bound,
        ensures
            self.args_plain_below(args, n, bound) <==> forall|k: int|
                0 <= k < n ==> #[trigger] self.plain_below(args[k]),
        decreases n,
    {
        if n > 0 {
            self.lemma_args_plain_below(args, (n - 1) as nat, bound);
            assert(args[n - 1].spec_index() < bound);
            assert(self.args_plain_below(args, n, bound) == (self.args_plain_below(args, (n - 1) as nat, bound)
                && self.plain_below(args[n - 1])));
            if forall|k: int| 0 <= k < n ==> #[trigger] self.plain_below(args[k]) {
                assert(self.plain_below(args[n - 1]));
            }
            if self.args_plain_below(args, n, bound) {
                assert forall|k: int| 0 <= k < n implies #[trigger] self.plain_below(args[k]) by {
                    if k < n - 1 {
                        assert(self.plain_below(args[k]));
                    }
                }
            }
        }
    }

    /// Whether the term at position `k` is plain (see `term_plain`).
    fn node_plain(&self, k: usize) -> (r: bool)
        requires
            k < self.nodes@.len(),
            k <= u32::MAX,
        ensures
            r == self.term_plain(TermId(k as u32)),
    {
        let ghost t = TermId(k as u32);
        assert(t.spec_index() == k);
        let node = &self.nodes[k];
        if let Sort::BitVec(w) = node.sort {
            if w == 0 {
                return false;
            }
        }
        match &node.kind {
            TermKind::Var { sym, .. } => !crate::text::contains_nul(sym.0.as_str()),
            TermKind::App { args, .. } => args.len() <= u32::MAX as usize,
            _ => true,
        }
    }

    /// Whether every term of `ts`, and every term below each, is plain.
    pub fn are_plain_below(&self, ts: &[TermId]) -> (r: bool)
        requires
            self.wf(),
            self.all_valid(ts@),
        ensures
            r == self.all_plain_below(ts@),
    {
        let mut marks: Vec<bool> = Vec::new();
        let mut k: usize = 0;
        while k < self.nodes.len()
            invariant
                self.wf(),
                0 <= k <= self.nodes@.len(),
                marks@.len() == k,
                forall|t: TermId| t.spec_index() < k ==> marks@[t.spec_index() as int] == #[trigger] self.plain_below(t),
            decreases self.nodes@.len() - k,
        {
            if k > u32::MAX as usize {
                marks.push(false);
                k = k + 1;
                continue;
            }
            let ghost t = TermId(k as u32);
            assert(t.spec_index() == k);
            assert(self.node_ok(t));
            let mut ok = self.node_plain(k);
            if let TermKind::App { args, .. } = &self.nodes[k].kind {
                assert(self.kind(t) == self.nodes@[k as int].kind);
                let mut j: usize = 0;
                while j < args.len()
                    invariant
                        0 <= j <= args@.len(),
                        marks@.len() == k,
                        forall|q: int| 0 <= q < args@.len() ==> (#[trigger] args@[q]).spec_index() < k,
                        forall|u: TermId| u.spec_index() < k ==> marks@[u.spec_index() as int] == #[trigger] self.plain_below(u),
                        ok == (self.term_plain(t) && forall|q: int| 0 <= q < j ==> #[trigger] self.plain_below(args@[q])),
                    decreases args@.len() - j,
                {
                    let a = args[j];
                    assert(args@[j as int] == a);
                    assert(a.spec_index() < k);
                    assert(marks@[a.spec_index() as int] == self.plain_below(a));
                    let ghost before = ok;
                    ok = ok && marks[a.index() as usize];
                    proof {
                        assert(ok == (before && self.plain_below(args@[j as int])));
                        assert(ok == (self.term_plain(t) && forall|q: int| 0 <= q < j + 1 ==> #[trigger] self.plain_below(args@[q]))) by {
                            if before && self.plain_below(args@[j as int]) {
                                assert forall|q: int| 0 <= q < j + 1 implies #[trigger] self.plain_below(args@[q]) by {
                                    if q < j {
                                        assert(self.plain_below(args@[q]));
                                    }
                                }
                            }
                            if !self.plain_below(args@[j as int]) {
                                assert(!(forall|q: int| 0 <= q < j + 1 ==> #[trigger] self.plain_below(args@[q])));
                            }
                        }
                    }
                    j = j + 1;
                }
                proof {
                    self.lemma_args_plain_below(args@, args@.len(), k as nat);
                }
            }
            proof {
                assert(ok == self.plain_below(t));
            }
            marks.push(ok);
            proof {
                assert forall|u: TermId| u.spec_index() < k + 1 implies marks@[u.spec_index() as int] == #[trigger] self.plain_below(u) by {
                    if u.spec_index() == k {
                        TermId::lemma_index_injective(u, t);
                    }
                }
            }
            k = k + 1;
        }
        let mut i: usize = 0;
        while i < ts.len()
            invariant
                self.all_valid(ts@),
                marks@.len() == self.nodes@.len(),
                forall|t: TermId| t.spec_index() < self.nodes@.len() ==> marks@[t.spec_index() as int] == #[trigger] self.plain_below(t),
                0 <= i <= ts@.len(),
                forall|q: int| 0 <= q < i ==> #[trigger] self.plain_below(ts@[q]),
            decreases ts@.len() - i,
        {
            let t = ts[i];
            assert(self.valid(ts@[i as int]));
            assert(marks@[t.spec_index() as int] == self.plain_below(t));
            if !marks[t.index() as usize] {
                assert(!self.plain_below(ts@[i as int]));
                return false;
            }
            i = i + 1;
        }
        true
    }

    fn push(&mut self, kind: TermKind, sort: Sort) -> (r: TermId)
        requires
            old(self).num_terms() < u32::MAX,
        ensures
            final(self).pushed(old(self), r, kind, sort),
    {
        let id = TermId::new(self.nodes.len());
        self.nodes.push(TermNode { kind, sort });
        id
    }

    proof fn lemma_push_wf(&self, old: &Ctx, t: TermId)
        requires
            old.wf(),
            self.extends(old),
            self.num_terms() == old.num_terms() + 1,
            t.spec_index() == old.num_terms(),
            self.node_ok(t),
        ensures
            self.wf(),
    {
        assert forall|u: TermId| self.valid(u) implies #[trigger] self.node_ok(u) by {
            if u.spec_index() < old.num_terms() {
                assert(old.node_ok(u));
                match self.kind(u) {
                    TermKind::App { op, args } => {
                        assert forall|i: int| 0 <= i < args@.len() implies old.valid(
                            #[trigger] args@[i],
                        ) by {
                            assert(args@[i].spec_index() < u.spec_index());
                        }
                        assert(self.arg_sorts(args@) =~= old.arg_sorts(args@));
                    },
                    _ => {},
                }
            } else {
                TermId::lemma_index_injective(u, t);
            }
        }
    }

    /// Adds a variable of the given name and sort.
    pub fn var(&mut self, sym: &str, sort: Sort) -> (r: TermId)
        requires
            old(self).wf(),
            old(self).num_terms() < u32::MAX,
        ensures
            final(self).wf(),
            final(self).extends(old(self)),
            final(self).num_terms() == old(self).num_terms() + 1,
            r.spec_index() == old(self).num_terms(),
            final(self).kind(r) matches TermKind::Var { sym: s, sort: so } && s.0@ == sym@ && so
                == sort,
            final(self).sort(r) == sort,
    {
        let name = Sym(sym.to_owned());
        let r = self.push(TermKind::Var { sym: name, sort }, sort);
        proof {
            self.lemma_push_wf(old(self), r);
        }
        r
    }

    pub fn bool_lit(&mut self, v: bool) -> (r: TermId)
        requires
            old(self).wf(),
            old(self).num_terms() < u32::MAX,
        ensures
            final(self).wf(),
            final(self).pushed(old(self), r, TermKind::BoolLit(v), Sort::Bool),
    {
        let r = self.push(TermKind::BoolLit(v), Sort::Bool);
        proof {
            self.lemma_push_wf(old(self), r);
        }
        r
    }

    pub fn int_lit(&mut self, v: i64) -> (r: TermId)
        requires
            old(self).wf(),
            old(self).num_terms() < u32::MAX,
        ensures
            final(self).wf(),
            final(self).pushed(old(self), r, TermKind::IntLit(v), Sort::Int),
    {
        let r = self.push(TermKind::IntLit(v), Sort::Int);
        proof {
            self.lemma_push_wf(old(self), r);
        }
        r
    }

    pub fn bv_lit(&mut self, value: u64, width: u32) -> (r: TermId)
        requires
            old(self).wf(),
            old(self).num_terms() < u32::MAX,
        ensures
            final(self).wf(),
            final(self).pushed(
                old(self),
                r,
                TermKind::BvLit { value, width },
                Sort::BitVec(width),
            ),
    {
        let r = self.push(TermKind::BvLit { value, width }, Sort::BitVec(width));
        proof {
            self.lemma_push_wf(old(self), r);
        }
        r
    }

    /// The first argument from position `from` on whose sort differs from `want`.
    fn find_mismatch(&self, args: &[TermId], from: usize, want: Sort) -> (r: Option<Sort>)
        requires
            self.all_valid(args@),
            from <= args@.len(),
        ensures
            r == first_mismatch(self.arg_sorts(args@), from as nat, want),
    {
        let ghost s = self.arg_sorts(args@);
        let mut i = from;
        while i < args.len()
            invariant
                from <= i <= args@.len(),
                s == self.arg_sorts(args@),
                self.all_valid(args@),
                first_mismatch(s, from as nat, want) == first_mismatch(s, i as nat, want),
            decreases args@.len() - i,
        {
            let si = *self.sort_of(args[i]);
            if si != want {
                return Some(si);
            }
            i = i + 1;
        }
        None
    }

    fn infer_app_sort(&self, op: &Op, args: &[TermId]) -> (r: Result<Sort, TypeError>)
        requires
            self.all_valid(args@),
        ensures
            r == spec_infer_app_sort(*op, self.arg_sorts(args@)),
    {
        let ghost s = self.arg_sorts(args@);
        let n = args.len();
        match op {
            Op::Not => {
                if n != 1 {
                    return Err(TypeError::Arity { op: *op, expected: 1, got: n });
                }
                self.require_sort(args[0], Sort::Bool, TypeError::ExpectedBool(*self.sort_of(args[0])))?;
                Ok(Sort::Bool)
            },
            Op::And | Op::Or => {
                if n == 0 {
                    return Err(TypeError::EmptyArgs { op: *op });
                }
                match self.find_mismatch(args, 0, Sort::Bool) {
                    Some(x) => Err(TypeError::ExpectedBool(x)),
                    None => Ok(Sort::Bool),
                }
            },
            Op::Eq => {
                if n != 2 {
                    return Err(TypeError::Arity { op: *op, expected: 2, got: n });
                }
                let s0 = *self.sort_of(args[0]);
                let s1 = *self.sort_of(args[1]);
                if s0 != s1 {
                    return Err(TypeError::SortMismatch { expected: s0, got: s1 });
                }
                Ok(Sort::Bool)
            },
            Op::Distinct => {
                if n < 2 {
                    return Err(TypeError::MinArity { op: *op, min: 2, got: n });
                }
                let s0 = *self.sort_of(args[0]);
                match self.find_mismatch(args, 1, s0) {
                    Some(x) => Err(TypeError::SortMismatch { expected: s0, got: x }),
                    None => Ok(Sort::Bool),
                }
            },
            Op::Lt | Op::Le | Op::Ge => {
                if n != 2 {
                    return Err(TypeError::Arity { op: *op, expected: 2, got: n });
                }
                let s0 = *self.sort_of(args[0]);
                if s0 != Sort::Int {
                    return Err(TypeError::ExpectedInt(s0));
                }
                let s1 = *self.sort_of(args[1]);
                if s1 != Sort::Int {
                    return Err(TypeError::ExpectedInt(s1));
                }
                Ok(Sort::Bool)
            },
            Op::Add => {
                if n < 2 {
                    return Err(TypeError::MinArity { op: *op, min: 2, got: n });
                }
                match *self.sort_of(args[0]) {
                    Sort::Int => match self.find_mismatch(args, 1, Sort::Int) {
                        Some(x) => Err(TypeError::ExpectedInt(x)),
                        None => Ok(Sort::Int),
                    },
                    Sort::BitVec(w) => match self.find_mismatch(args, 1, Sort::BitVec(w)) {
                        Some(x) => Err(TypeError::ExpectedBitVec { expected: w, got: x }),
                        None => Ok(Sort::BitVec(w)),
                    },
                    Sort::Bool => Err(TypeError::ExpectedInt(Sort::Bool)),
                }
            },
            Op::Ite => {
                if n != 3 {
                    return Err(TypeError::Arity { op: *op, expected: 3, got: n });
                }
                let s0 = *self.sort_of(args[0]);
                if s0 != Sort::Bool {
                    return Err(TypeError::ExpectedBool(s0));
                }
                let s1 = *self.sort_of(args[1]);
                let s2 = *self.sort_of(args[2]);
                if s1 != s2 {
                    return Err(TypeError::SortMismatch { expected: s1, got: s2 });
                }
                Ok(s1)
            },
        }
    }

    fn require_sort(&self, t: TermId, want: Sort, err: TypeError) -> (r: Result<(), TypeError>)
        requires
            self.valid(t),
        ensures
            r == (if self.sort(t) == want { Ok(()) } else { Err(err) }),
    {
        if *self.sort_of(t) == want {
            Ok(())
        } else {
            Err(err)
        }
    }

    /// Applies `op` to `args`, checking the operator's typing rules.
    pub fn app(&mut self, op: Op, args: Vec<TermId>) -> (r: Result<TermId, TypeError>)
        requires
            old(self).wf(),
            old(self).all_valid(args@),
            old(self).num_terms() < u32::MAX,
        ensures
            final(self).wf(),
            match spec_infer_app_sort(op, old(self).arg_sorts(args@)) {
                Ok(s) => r matches Ok(t) && final(self).pushed(
                    old(self),
                    t,
                    TermKind::App { op, args },
                    s,
                ),
                Err(e) => r == Err::<TermId, TypeError>(e) && *final(self) == *old(self),
            },
    {
        let sort = self.infer_app_sort(&op, args.as_slice())?;
        let ghost a = args@;
        let r = self.push(TermKind::App { op, args }, sort);
        proof {
            assert forall|i: int| 0 <= i < a.len() implies #[trigger] a[i].spec_index()
                < r.spec_index() by {
                assert(old(self).valid(a[i]));
            }
            assert(self.arg_sorts(a) =~= old(self).arg_sorts(a));
            self.lemma_push_wf(old(self), r);
        }
        Ok(r)
    }

    /// Shorthand for `not (= a b)` (typed).
    pub fn neq(&mut self, a: TermId, b: TermId) -> (r: Result<TermId, TypeError>)
        requires
            old(self).wf(),
            old(self).valid(a),
            old(self).valid(b),
            old(self).num_terms() + 1 < u32::MAX,
        ensures
            final(self).wf(),
            final(self).extends(old(self)),
            old(self).sort(a) != old(self).sort(b) ==> r == Err::<TermId, TypeError>(
                TypeError::SortMismatch { expected: old(self).sort(a), got: old(self).sort(b) },
            ) && *final(self) == *old(self),
            old(self).sort(a) == old(self).sort(b) ==> (r matches Ok(t) && final(self).num_terms()
                == old(self).num_terms() + 2 && t.spec_index() == old(self).num_terms() + 1
                && final(self).is_neq(t, a, b) && final(self).sort(t) == Sort::Bool),
    {
        let eq = self.app(Op::Eq, vec![a, b])?;
        let ghost mid = *self;
        let r = self.app(Op::Not, vec![eq]);
        proof {
            assert(mid.arg_sorts(seq![a, b]) =~= seq![old(self).sort(a), old(self).sort(b)]);
            assert(self.arg_sorts(seq![eq]) =~= seq![Sort::Bool]);
        }
        r
    }

    proof fn lemma_first_mismatch_none(s: Seq<Sort>, i: nat, want: Sort)
        requires
            forall|j: int| i <= j < s.len() ==> s[j] == want,
        ensures
            first_mismatch(s, i, want) is None,
        decreases s.len() - i,
    {
        if i < s.len() {
            Self::lemma_first_mismatch_none(s, i + 1, want);
        }
    }

    /// Builds the blocking clause `(or (not (= v1 val1)) ...)` that rules out the given
    /// assignment during model enumeration.
    pub fn block_model(&mut self, assignments: &[(TermId, TermId)]) -> (r: Result<
        TermId,
        TypeError,
    >)
        requires
            old(self).wf(),
            forall|i: int|
                0 <= i < assignments@.len() ==> old(self).valid(#[trigger] assignments@[i].0)
                    && old(self).valid(assignments@[i].1),
            old(self).num_terms() + 2 * assignments@.len() + 1 <= u32::MAX,
        ensures
            final(self).wf(),
            final(self).extends(old(self)),
            assignments@.len() == 0 ==> r == Err::<TermId, TypeError>(
                TypeError::EmptyArgs { op: Op::Or },
            ) && *final(self) == *old(self),
            assignments@.len() > 0 ==> match old(self).first_bad_pair(assignments@, 0) {
                Some(k) => r == Err::<TermId, TypeError>(
                    TypeError::SortMismatch {
                        expected: old(self).sort(assignments@[k as int].0),
                        got: old(self).sort(assignments@[k as int].1),
                    },
                ) && final(self).num_terms() == old(self).num_terms() + 2 * k,
                None => r matches Ok(t) && final(self).valid(t) && final(self).is_blocking_clause(t, assignments@),
            },
    {
        if assignments.len() == 0 {
            return Err(TypeError::EmptyArgs { op: Op::Or });
        }
        let ghost ps = assignments@;
        let mut disj: Vec<TermId> = Vec::with_capacity(assignments.len());
        let mut i: usize = 0;
        while i < assignments.len()
            invariant
                ps == assignments@,
                0 <= i <= ps.len(),
                self.wf(),
                self.extends(old(self)),
                self.num_terms() == old(self).num_terms() + 2 * i,
                old(self).num_terms() + 2 * ps.len() + 1 <= u32::MAX,
                forall|j: int|
                    0 <= j < ps.len() ==> old(self).valid(#[trigger] ps[j].0) && old(self).valid(
                        ps[j].1,
                    ),
                old(self).first_bad_pair(ps, 0) == old(self).first_bad_pair(ps, i as nat),
                disj@.len() == i,
                forall|j: int|
                    0 <= j < i ==> self.valid(#[trigger] disj@[j]) && self.is_neq(
                        disj@[j],
                        ps[j].0,
                        ps[j].1,
                    ),
            decreases ps.len() - i,
        {
            let (v, val) = assignments[i];
            let ghost before = *self;
            assert(old(self).valid(ps[i as int].0));
            let t = self.neq(v, val);
            match t {
                Ok(t) => {
                    proof {
                        assert forall|j: int| 0 <= j < i implies self.valid(#[trigger] disj@[j])
                            && self.is_neq(disj@[j], ps[j].0, ps[j].1) by {
                            assert(before.valid(disj@[j]));
                            assert(before.is_neq(disj@[j], ps[j].0, ps[j].1));
                            let ar = before.kind(disj@[j])->App_args;
                            assert(before.valid(ar@[0])) by {
                                assert(before.node_ok(disj@[j]));
                            }
                        }
                    }
                    disj.push(t);
                },
                Err(e) => {
                    return Err(e);
                },
            }
            i = i + 1;
        }
        let ghost d = disj@;
        proof {
            assert(self.arg_sorts(d) =~= Seq::new(d.len(), |j: int| Sort::Bool)) by {
                assert forall|j: int| 0 <= j < d.len() implies self.sort(d[j]) == Sort::Bool by {
                    assert(self.node_ok(d[j]));
                    let ar = self.kind(d[j])->App_args;
                    assert(self.arg_sorts(ar@) =~= seq![self.sort(ar@[0])]);
                }
            }
            Self::lemma_first_mismatch_none(self.arg_sorts(d), 0, Sort::Bool);
        }
        let ghost mid = *self;
        let r = self.app(Op::Or, disj);
        proof {
            let t = r->Ok_0;
            assert forall|j: int| 0 <= j < d.len() implies self.is_neq(#[trigger] d[j], ps[j].0, ps[j].1) by {
                assert(mid.valid(d[j]));
                let ar = mid.kind(d[j])->App_args;
                assert(mid.node_ok(d[j]));
                assert(mid.valid(ar@[0]));
            }
        }
        r
    }

    fn add_sym(out: &mut Vec<Sym>, sym: &Sym)
        requires
            names_sorted(sym_names(old(out)@)),
        ensures
            names_sorted(sym_names(final(out)@)),
            sym_names(final(out)@).to_set() == sym_names(old(out)@).to_set().insert(sym.0@),
    {
        let ghost names = sym_names(out@);
        let mut j: usize = 0;
        while j < out.len() && crate::text::str_less(out[j].0.as_str(), sym.0.as_str())
            invariant
                0 <= j <= out@.len(),
                names == sym_names(out@),
                out@ == old(out)@,
                names_sorted(names),
                forall|k: int| 0 <= k < j ==> str_lt(#[trigger] names[k], sym.0@),
            decreases out@.len() - j,
        {
            j = j + 1;
        }
        if j < out.len() && crate::text::str_eq(out[j].0.as_str(), sym.0.as_str()) {
            proof {
                assert(names[j as int] == sym.0@);
                assert(names.to_set().insert(sym.0@) =~= names.to_set());
            }
            return;
        }
        proof {
            if j < names.len() {
                crate::text::lemma_str_lt_total(names[j as int], sym.0@);
            }
        }
        out.insert(j, Sym(sym.0.clone()));
        proof {
            let nn = sym_names(out@);
            assert(nn =~= names.insert(j as int, sym.0@));
            assert forall|a: int, b: int| 0 <= a < b < nn.len() implies str_lt(#[trigger] nn[a], #[trigger] nn[b]) by {
                if b < j {
                } else if b == j {
                } else if a < j {
                    assert(nn[b] == names[b - 1]);
                    if b - 1 > j {
                        assert(str_lt(names[j as int], names[b - 1]));
                        crate::text::lemma_str_lt_transitive(sym.0@, names[j as int], names[b - 1]);
                    }
                    crate::text::lemma_str_lt_transitive(names[a], sym.0@, names[b - 1]);
                } else if a == j {
                    assert(nn[b] == names[b - 1]);
                    if b - 1 > j {
                        assert(str_lt(names[j as int], names[b - 1]));
                        crate::text::lemma_str_lt_transitive(sym.0@, names[j as int], names[b - 1]);
                    }
                } else {
                    assert(nn[a] == names[a - 1]);
                    assert(nn[b] == names[b - 1]);
                }
            }
            assert(nn.to_set() =~= names.to_set().insert(sym.0@)) by {
                assert forall|x: Seq<char>| nn.to_set().contains(x) <==> names.to_set().insert(sym.0@).contains(x) by {
                    if nn.to_set().contains(x) {
                        let k = choose|k: int| 0 <= k < nn.len() && nn[k] == x;
                        if k < j {
                            assert(names[k] == x);
                        } else if k > j {
                            assert(names[k - 1] == x);
                        }
                    }
                    if names.to_set().contains(x) {
                        let k = choose|k: int| 0 <= k < names.len() && names[k] == x;
                        if k < j {
                            assert(nn[k] == x);
                        } else {
                            assert(nn[k + 1] == x);
                        }
                    }
                    if x == sym.0@ {
                        assert(nn[j as int] == x);
                    }
                }
            }
        }
    }

    proof fn lemma_sorted_no_duplicates(names: Seq<Seq<char>>)
        requires
            names_sorted(names),
        ensures
            names.no_duplicates(),
    {
        assert forall|a: int, b: int| 0 <= a < names.len() && 0 <= b < names.len() && a != b implies names[a] != names[b] by {
            if a < b {
                assert(str_lt(names[a], names[b]));
            } else {
                assert(str_lt(names[b], names[a]));
            }
            crate::text::lemma_str_lt_irreflexive(names[a]);
        }
    }

    fn collect_free_vars(&self, t: TermId, out: &mut Vec<Sym>)
        requires
            self.wf(),
            self.valid(t),
            names_sorted(sym_names(old(out)@)),
        ensures
            names_sorted(sym_names(final(out)@)),
            sym_names(final(out)@).to_set() == sym_names(old(out)@).to_set().union(
                self.free_vars_of(t),
            ),
        decreases t.spec_index(),
    {
        match self.kind_of(t) {
            TermKind::Var { sym, .. } => {
                Self::add_sym(out, sym);
                proof {
                    assert(sym_names(old(out)@).to_set().insert(sym.0@) =~= sym_names(
                        old(out)@,
                    ).to_set().union(set![sym.0@]));
                }
            },
            TermKind::App { args, .. } => {
                proof {
                    assert(self.node_ok(t));
                }
                let ghost a = args@;
                let ghost start = sym_names(out@).to_set();
                let mut i: usize = 0;
                while i < args.len()
                    invariant
                        self.wf(),
                        self.valid(t),
                        self.kind(t) matches TermKind::App { args: aa, .. } && aa@ == a,
                        a == args@,
                        0 <= i <= a.len(),
                        forall|k: int| 0 <= k < a.len() ==> #[trigger] a[k].spec_index() < t.spec_index(),
                        names_sorted(sym_names(out@)),
                        sym_names(out@).to_set() == start.union(
                            self.args_free_vars(a, i as nat, t.spec_index()),
                        ),
                    decreases a.len() - i,
                {
                    assert(a[i as int].spec_index() < t.spec_index());
                    self.collect_free_vars(args[i], out);
                    proof {
                        assert(self.args_free_vars(a, (i + 1) as nat, t.spec_index()) == self.args_free_vars(a, i as nat, t.spec_index()).union(self.free_vars_of(a[i as int])));
                        assert(start.union(self.args_free_vars(a, (i + 1) as nat, t.spec_index())) =~= start.union(self.args_free_vars(a, i as nat, t.spec_index())).union(self.free_vars_of(a[i as int])));
                    }
                    i = i + 1;
                }
            },
            _ => {
                proof {
                    assert(sym_names(old(out)@).to_set().union(Set::empty()) =~= sym_names(
                        old(out)@,
                    ).to_set());
                }
            },
        }
    }

    /// The set of free variables (symbols) in `root`, each listed once, in increasing order
    /// of their names.
    pub fn free_vars(&self, root: TermId) -> (r: Vec<Sym>)
        requires
            self.wf(),
            self.valid(root),
        ensures
            names_sorted(sym_names(r@)),
            sym_names(r@).no_duplicates(),
            sym_names(r@).to_set() == self.free_vars_of(root),
    {
        let mut out: Vec<Sym> = Vec::new();
        proof {
            assert(sym_names(out@) =~= Seq::<Seq<char>>::empty());
        }
        self.collect_free_vars(root, &mut out);
        proof {
            Self::lemma_sorted_no_duplicates(sym_names(out@));
            assert(sym_names(Seq::<Sym>::empty()).to_set() =~= Set::<Seq<char>>::empty());
            assert(Set::<Seq<char>>::empty().union(self.free_vars_of(root)) =~= self.free_vars_of(root));
        }
        out
    }

    proof fn lemma_image_stable(c2: &Ctx, c1: &Ctx, subst: Seq<(Sym, TermId)>, t: TermId, r: TermId, fresh: nat)
        requires
            c2.extends(c1),
            c1.valid(t),
            c1.subst_image(subst, t, r, fresh),
        ensures
            c2.subst_image(subst, t, r, fresh),
        decreases t.spec_index(), 1nat, 0nat,
    {
        match c1.kind(t) {
            TermKind::App { op, args } => {
                let a2 = c1.kind(r)->App_args;
                Self::lemma_args_image_stable(c2, c1, subst, args@, a2@, args@.len(), t.spec_index(), fresh);
            },
            _ => {},
        }
    }

    proof fn lemma_args_image_stable(
        c2: &Ctx,
        c1: &Ctx,
        subst: Seq<(Sym, TermId)>,
        args: Seq<TermId>,
        imgs: Seq<TermId>,
        n: nat,
        bound: nat,
        fresh: nat,
    )
        requires
            c2.extends(c1),
            bound <= c1.num_terms(),
            c1.args_image(subst, args, imgs, n, bound, fresh),
        ensures
            c2.args_image(subst, args, imgs, n, bound, fresh),
        decreases bound, 0nat, n,
    {
        if n > 0 {
            Self::lemma_args_image_stable(c2, c1, subst, args, imgs, (n - 1) as nat, bound, fresh);
            Self::lemma_image_stable(c2, c1, subst, args[n - 1], imgs[n - 1], fresh);
        }
    }

    proof fn lemma_args_image_ext(
        c: &Ctx,
        subst: Seq<(Sym, TermId)>,
        args: Seq<TermId>,
        imgs1: Seq<TermId>,
        imgs2: Seq<TermId>,
        n: nat,
        bound: nat,
        fresh: nat,
    )
        requires
            c.args_image(subst, args, imgs1, n, bound, fresh),
            n <= imgs2.len(),
            forall|k: int| 0 <= k < n ==> imgs1[k] == imgs2[k],
        ensures
            c.args_image(subst, args, imgs2, n, bound, fresh),
        decreases n,
    {
        if n > 0 {
            Self::lemma_args_image_ext(c, subst, args, imgs1, imgs2, (n - 1) as nat, bound, fresh);
        }
    }

    proof fn lemma_args_subst_err(
        &self,
        subst: Seq<(Sym, TermId)>,
        args: Seq<TermId>,
        i: nat,
        n: nat,
        bound: nat,
        e: TypeError,
    )
        requires
            i <= n <= args.len(),
            forall|k: int| 0 <= k < args.len() ==> #[trigger] args[k].spec_index() < bound,
            self.args_subst_sorts(subst, args, i, bound) == Err::<Seq<Sort>, TypeError>(e),
        ensures
            self.args_subst_sorts(subst, args, n, bound) == Err::<Seq<Sort>, TypeError>(e),
        decreases n - i,
    {
        if i < n {
            self.lemma_args_subst_err(subst, args, i, (n - 1) as nat, bound, e);
            assert(args[n - 1].spec_index() < bound);
        }
    }

    proof fn lemma_lookup_in(subst: Seq<(Sym, TermId)>, name: Seq<char>, i: nat)
        ensures
            subst_lookup(subst, name, i) matches Some(x) ==> exists|j: int|
                0 <= j < subst.len() && #[trigger] subst[j].1 == x,
        decreases subst.len() - i,
    {
        if i < subst.len() && subst[i as int].0.0@ != name {
            Self::lemma_lookup_in(subst, name, i + 1);
        }
    }

    fn lookup_subst(subst: &[(Sym, TermId)], name: &Sym) -> (r: Option<TermId>)
        ensures
            r == subst_lookup(subst@, name.0@, 0),
    {
        let mut i: usize = 0;
        while i < subst.len()
            invariant
                0 <= i <= subst@.len(),
                subst_lookup(subst@, name.0@, 0) == subst_lookup(subst@, name.0@, i as nat),
            decreases subst@.len() - i,
        {
            if subst[i].0.0 == name.0 {
                return Some(subst[i].1);
            }
            i = i + 1;
        }
        None
    }

    /// The memo holds, for each term of `base` that was already rewritten, its image.
    spec fn memo_ok(&self, base: &Ctx, subst: Seq<(Sym, TermId)>, memo: Seq<Option<TermId>>) -> bool {
        &&& memo.len() == base.num_terms()
        &&& forall|u: TermId|
            #![trigger memo[u.spec_index() as int]]
            base.valid(u) && memo[u.spec_index() as int] is Some ==> {
                let x = memo[u.spec_index() as int]->Some_0;
                &&& self.subst_image(subst, u, x, base.num_terms())
                &&& base.subst_sort(subst, u) == Ok::<Sort, TypeError>(self.sort(x))
            }
    }

    /// Room left in the arena: every term not yet rewritten adds at most one node.
    spec fn room_ok(&self, base: &Ctx, memo: Seq<Option<TermId>>) -> bool {
        &&& self.num_terms() <= base.num_terms() + count_some(memo)
        &&& 2 * base.num_terms() <= u32::MAX
    }

    proof fn lemma_memo_stable(c2: &Ctx, c1: &Ctx, base: &Ctx, subst: Seq<(Sym, TermId)>, memo: Seq<Option<TermId>>)
        requires
            c2.extends(c1),
            c1.extends(base),
            c1.memo_ok(base, subst, memo),
        ensures
            c2.memo_ok(base, subst, memo),
    {
        assert forall|u: TermId|
            #![trigger memo[u.spec_index() as int]]
            base.valid(u) && memo[u.spec_index() as int] is Some implies {
                let x = memo[u.spec_index() as int]->Some_0;
                &&& c2.subst_image(subst, u, x, base.num_terms())
                &&& base.subst_sort(subst, u) == Ok::<Sort, TypeError>(c2.sort(x))
            } by {
            let x = memo[u.spec_index() as int]->Some_0;
            Self::lemma_image_stable(c2, c1, subst, u, x, base.num_terms());
        }
    }

    fn subst_term(
        &mut self,
        t: TermId,
        subst: &[(Sym, TermId)],
        memo: &mut Vec<Option<TermId>>,
        Ghost(base): Ghost<Ctx>,
    ) -> (r: Result<TermId, TypeError>)
        requires
            base.wf(),
            base.valid(t),
            base.subst_valid(subst@),
            old(self).wf(),
            old(self).extends(&base),
            old(self).memo_ok(&base, subst@, old(memo)@),
            old(self).room_ok(&base, old(memo)@),
        ensures
            final(self).wf(),
            final(self).extends(old(self)),
            final(self).memo_ok(&base, subst@, final(memo)@),
            final(self).room_ok(&base, final(memo)@),
            forall|k: int|
                0 <= k < old(memo)@.len() && #[trigger] old(memo)@[k] is Some ==> final(memo)@[k]
                    == old(memo)@[k],
            forall|k: int|
                0 <= k < old(memo)@.len() && old(memo)@[k] is None && #[trigger] final(memo)@[k] is Some
                    ==> k <= t.spec_index(),
            match base.subst_sort(subst@, t) {
                Ok(s) => r matches Ok(x) && final(self).subst_image(subst@, t, x, base.num_terms())
                    && final(self).sort(x) == s,
                Err(e) => r == Err::<TermId, TypeError>(e),
            },
        decreases t.spec_index(),
    {
        if let Some(hit) = memo[t.0 as usize] {
            return Ok(hit);
        }
        proof {
            lemma_count_some_none(memo@, t.spec_index() as int);
            assert(base.node_ok(t));
        }
        let ghost m0 = memo@;
        let out = match self.kind_of(t) {
            TermKind::Var { sym, sort } => {
                match Self::lookup_subst(subst, sym) {
                    Some(x) => {
                        proof {
                            let j = choose|j: int| 0 <= j < subst@.len() && subst@[j].1 == x;
                            Self::lemma_lookup_in(subst@, sym.0@, 0);
                        }
                        x
                    },
                    None => {
                        let so = *sort;
                        let name = Sym(sym.0.clone());
                        let r = self.push(TermKind::Var { sym: name, sort: so }, so);
                        proof {
                            self.lemma_push_wf(old(self), r);
                        }
                        r
                    },
                }
            },
            TermKind::BoolLit(v) => {
                let v = *v;
                self.bool_lit(v)
            },
            TermKind::IntLit(v) => {
                let v = *v;
                self.int_lit(v)
            },
            TermKind::BvLit { value, width } => {
                let value = *value;
                let width = *width;
                self.bv_lit(value, width)
            },
            TermKind::App { op, args } => {
                let op = *op;
                let mut old_args: Vec<TermId> = Vec::new();
                let mut k: usize = 0;
                while k < args.len()
                    invariant
                        0 <= k <= args@.len(),
                        old_args@ == args@.take(k as int),
                    decreases args@.len() - k,
                {
                    old_args.push(args[k]);
                    k = k + 1;
                    assert(args@.take(k as int) == args@.take((k - 1) as int).push(args@[k - 1]));
                }
                assert(args@.take(args@.len() as int) == args@);
                let ghost a = old_args@;
                let mut new_args: Vec<TermId> = Vec::new();
                let mut i: usize = 0;
                while i < old_args.len()
                    invariant
                        base.wf(),
                        base.valid(t),
                        base.subst_valid(subst@),
                        base.is_app(t, op, a),
                        a == old_args@,
                        forall|j: int| 0 <= j < a.len() ==> #[trigger] a[j].spec_index() < t.spec_index(),
                        0 <= i <= a.len(),
                        self.wf(),
                        self.extends(old(self)),
                        self.extends(&base),
                        old(self).extends(&base),
                        self.memo_ok(&base, subst@, memo@),
                        memo@.len() == m0.len(),
                        m0 == old(memo)@,
                        forall|k: int|
                            0 <= k < m0.len() && #[trigger] m0[k] is Some ==> memo@[k] == m0[k],
                        forall|k: int|
                            0 <= k < m0.len() && m0[k] is None && #[trigger] memo@[k] is Some
                                ==> k < t.spec_index(),
                        self.room_ok(&base, memo@),
                        memo@[t.spec_index() as int] is None,
                        new_args@.len() == i,
                        self.args_image(subst@, a, new_args@, i as nat, t.spec_index(), base.num_terms()),
                        base.args_subst_sorts(subst@, a, i as nat, t.spec_index()) matches Ok(ss) && ss
                            == self.arg_sorts(new_args@),
                        self.all_valid(new_args@),
                    decreases a.len() - i,
                {
                    let ghost before = *self;
                    assert(a[i as int].spec_index() < t.spec_index());
                    let x = self.subst_term(old_args[i], subst, memo, Ghost(base));
                    match x {
                        Ok(x) => {
                            let ghost prev = new_args@;
                            proof {
                                Self::lemma_args_image_stable(self, &before, subst@, a, prev, i as nat, t.spec_index(), base.num_terms());
                            }
                            new_args.push(x);
                            proof {
                                Self::lemma_args_image_ext(self, subst@, a, prev, new_args@, i as nat, t.spec_index(), base.num_terms());
                                assert(self.arg_sorts(new_args@) =~= before.arg_sorts(prev).push(self.sort(x)));
                                assert forall|j: int| 0 <= j < new_args@.len() implies self.valid(#[trigger] new_args@[j]) by {
                                    if j < i {
                                        assert(before.valid(prev[j]));
                                    }
                                }
                            }
                        },
                        Err(e) => {
                            proof {
                                base.lemma_args_subst_err(subst@, a, (i + 1) as nat, a.len(), t.spec_index(), e);
                            }
                            return Err(e);
                        },
                    }
                    i = i + 1;
                }
                proof {
                    assert(a.len() == old_args@.len());
                    lemma_count_some_none(memo@, t.spec_index() as int);
                }
                let ghost na = new_args@;
                let ghost before_app = *self;
                match self.app(op, new_args) {
                    Ok(r) => {
                        proof {
                            Self::lemma_args_image_stable(self, &before_app, subst@, a, na, a.len(), t.spec_index(), base.num_terms());
                            Self::lemma_memo_stable(self, &before_app, &base, subst@, memo@);
                        }
                        r
                    },
                    Err(e) => {
                        return Err(e);
                    },
                }
            },
        };
        proof {
            lemma_count_some_fill(memo@, t.spec_index() as int, out);
            if memo@ == m0 {
                Self::lemma_memo_stable(self, old(self), &base, subst@, memo@);
            }
        }
        let ghost m1 = memo@;
        memo.set(t.0 as usize, Some(out));
        proof {
            assert forall|u: TermId|
                #![trigger memo@[u.spec_index() as int]]
                base.valid(u) && memo@[u.spec_index() as int] is Some implies {
                    let x = memo@[u.spec_index() as int]->Some_0;
                    &&& self.subst_image(subst@, u, x, base.num_terms())
                    &&& base.subst_sort(subst@, u) == Ok::<Sort, TypeError>(self.sort(x))
                } by {
                if u.spec_index() != t.spec_index() {
                    assert(m1[u.spec_index() as int] is Some);
                } else {
                    TermId::lemma_index_injective(u, t);
                }
            }
        }
        Ok(out)
    }

    /// Every variable of `t` that `subst` binds is bound to a term of the variable's sort.
    pub open spec fn subst_respects_sorts(&self, subst: Seq<(Sym, TermId)>, t: TermId) -> bool
        decreases t.spec_index(), 1nat, 0nat,
    {
        match self.kind(t) {
            TermKind::Var { sym, sort } => match subst_lookup(subst, sym.0@, 0) {
                Some(x) => self.sort(x) == sort,
                None => true,
            },
            TermKind::App { op, args } => self.args_respect_sorts(
                subst,
                args@,
                args@.len(),
                t.spec_index(),
            ),
            _ => true,
        }
    }

    /// `subst_respects_sorts` holds of the first `n` terms of `args` that are older than
    /// `bound`.
    pub open spec fn args_respect_sorts(
        &self,
        subst: Seq<(Sym, TermId)>,
        args: Seq<TermId>,
        n: nat,
        bound: nat,
    ) -> bool
        decreases bound, 0nat, n,
    {
        if n == 0 || n > args.len() {
            true
        } else if args[n - 1].spec_index() < bound {
            self.args_respect_sorts(subst, args, (n - 1) as nat, bound) && self.subst_respects_sorts(
                subst,
                args[n - 1],
            )
        } else {
            true
        }
    }

    /// A substitution that binds each variable to a term of its own sort rebuilds `t` without
    /// a typing error, and the image has the sort of `t`.
    pub proof fn law_substitution_keeps_sort(&self, subst: Seq<(Sym, TermId)>, t: TermId)
        requires
            self.wf(),
            self.valid(t),
            self.subst_respects_sorts(subst, t),
        ensures
            self.subst_sort(subst, t) == Ok::<Sort, TypeError>(self.sort(t)),
        decreases t.spec_index(), 1nat, 0nat,
    {
        assert(self.node_ok(t));
        match self.kind(t) {
            TermKind::App { op, args } => {
                let a = args@;
                self.lemma_args_keep_sorts(subst, a, a.len(), t.spec_index());
                assert(a.take(a.len() as int) =~= a);
            },
            _ => {},
        }
    }

    proof fn lemma_args_keep_sorts(&self, subst: Seq<(Sym, TermId)>, args: Seq<TermId>, n: nat, bound: nat)
        requires
            self.wf(),
            n <= args.len(),
            bound <= self.num_terms(),
            forall|k: int| 0 <= k < args.len() ==> (#[trigger] args[k]).spec_index() < bound,
            self.args_respect_sorts(subst, args, n, bound),
        ensures
            self.args_subst_sorts(subst, args, n, bound) == Ok::<Seq<Sort>, TypeError>(
                self.arg_sorts(args.take(n as int)),
            ),
        decreases bound, 0nat, n,
    {
        if n > 0 {
            self.lemma_args_keep_sorts(subst, args, (n - 1) as nat, bound);
            assert(args[n - 1].spec_index() < bound);
            self.law_substitution_keeps_sort(subst, args[n - 1]);
            assert(self.arg_sorts(args.take(n as int)) =~= self.arg_sorts(args.take(n - 1)).push(
                self.sort(args[n - 1]),
            ));
        } else {
            assert(self.arg_sorts(args.take(0)) =~= Seq::<Sort>::empty());
        }
    }

    /// The empty substitution binds no variable, so it respects every sort.
    pub proof fn lemma_empty_subst_respects_sorts(&self, t: TermId)
        ensures
            self.subst_respects_sorts(Seq::empty(), t),
        decreases t.spec_index(), 1nat, 0nat,
    {
        match self.kind(t) {
            TermKind::App { op, args } => {
                self.lemma_empty_args_respect(args@, args@.len(), t.spec_index());
            },
            _ => {},
        }
    }

    proof fn lemma_empty_args_respect(&self, args: Seq<TermId>, n: nat, bound: nat)
        ensures
            self.args_respect_sorts(Seq::empty(), args, n, bound),
        decreases bound, 0nat, n,
    {
        if n > 0 && n <= args.len() && args[n - 1].spec_index() < bound {
            self.lemma_empty_args_respect(args, (n - 1) as nat, bound);
            self.lemma_empty_subst_respects_sorts(args[n - 1]);
        }
    }

    /// `args_free_vars` of arguments older than `bound` is the union of their free variables.
    proof fn lemma_args_free_vars_union(&self, args: Seq<TermId>, n: nat, bound: nat)
        requires
            n <= args.len(),
            forall|k: int| 0 <= k < n ==> (#[trigger] args[k]).spec_index() < bound,
        ensures
            forall|x: Seq<char>| #[trigger] self.args_free_vars(args, n, bound).contains(x) <==> exists|k: int|
                0 <= k < n && #[trigger] self.free_vars_of(args[k]).contains(x),
        decreases n,
    {
        if n > 0 {
            self.lemma_args_free_vars_union(args, (n - 1) as nat, bound);
            assert(args[n - 1].spec_index() < bound);
            assert forall|x: Seq<char>| #[trigger] self.args_free_vars(args, n, bound).contains(x) <==> exists|k: int|
                0 <= k < n && #[trigger] self.free_vars_of(args[k]).contains(x) by {
                assert(self.args_free_vars(args, n, bound) == self.args_free_vars(args, (n - 1) as nat, bound).union(
                    self.free_vars_of(args[n - 1]),
                ));
                if self.free_vars_of(args[n - 1]).contains(x) {
                    assert(self.free_vars_of(args[n - 1]).contains(x));
                }
                if self.args_free_vars(args, (n - 1) as nat, bound).contains(x) {
                    let k = choose|k: int| 0 <= k < n - 1 && #[trigger] self.free_vars_of(args[k]).contains(x);
                    assert(self.free_vars_of(args[k]).contains(x));
                }
                if exists|k: int| 0 <= k < n && #[trigger] self.free_vars_of(args[k]).contains(x) {
                    let k = choose|k: int| 0 <= k < n && #[trigger] self.free_vars_of(args[k]).contains(x);
                    if k < n - 1 {
                        assert(self.args_free_vars(args, (n - 1) as nat, bound).contains(x));
                    }
                }
            }
        }
    }

    /// Where variables occur free: a variable has itself alone, a literal has none, and an
    /// application has exactly the free variables of its arguments; so each argument's free
    /// variables are free in the application too.
    pub proof fn law_free_vars(&self, t: TermId)
        requires
            self.wf(),
            self.valid(t),
        ensures
            self.kind(t) matches TermKind::Var { sym, sort } ==> self.free_vars_of(t) == set![sym.0@],
            self.kind(t) matches TermKind::BoolLit(_) ==> self.free_vars_of(t).is_empty(),
            self.kind(t) matches TermKind::IntLit(_) ==> self.free_vars_of(t).is_empty(),
            self.kind(t) matches TermKind::BvLit { .. } ==> self.free_vars_of(t).is_empty(),
            self.kind(t) matches TermKind::App { op, args } ==> forall|x: Seq<char>|
                #[trigger] self.free_vars_of(t).contains(x) <==> exists|k: int|
                    0 <= k < args@.len() && #[trigger] self.free_vars_of(args@[k]).contains(x),
            self.kind(t) matches TermKind::App { op, args } ==> forall|k: int|
                0 <= k < args@.len() ==> #[trigger] self.free_vars_of(args@[k]).subset_of(self.free_vars_of(t)),
    {
        assert(self.node_ok(t));
        if let TermKind::App { op, args } = self.kind(t) {
            self.lemma_args_free_vars_union(args@, args@.len(), t.spec_index());
            assert(self.free_vars_of(t) == self.args_free_vars(args@, args@.len(), t.spec_index()));
            assert forall|k: int| 0 <= k < args@.len() implies #[trigger] self.free_vars_of(args@[k]).subset_of(self.free_vars_of(t)) by {
                assert forall|x: Seq<char>| self.free_vars_of(args@[k]).contains(x) implies self.free_vars_of(t).contains(x) by {
                    assert(self.free_vars_of(args@[k]).contains(x));
                    assert(self.args_free_vars(args@, args@.len(), t.spec_index()).contains(x));
                }
            }
        }
    }

    /// The names that `names` become under `subst`: each name that `subst` does not bind,
    /// and the free variables of the term bound to each name that it binds.
    pub open spec fn image_names(&self, subst: Seq<(Sym, TermId)>, names: Set<Seq<char>>) -> Set<
        Seq<char>,
    > {
        Set::new(
            |n: Seq<char>|
                (names.contains(n) && subst_lookup(subst, n, 0) is None) || exists|m: Seq<char>|
                    #![trigger names.contains(m)]
                    names.contains(m) && subst_lookup(subst, m, 0) is Some && self.free_vars_of(
                        subst_lookup(subst, m, 0)->Some_0,
                    ).contains(n),
        )
    }

    proof fn lemma_image_names_union(&self, subst: Seq<(Sym, TermId)>, a: Set<Seq<char>>, b: Set<Seq<char>>)
        ensures
            self.image_names(subst, a.union(b)) == self.image_names(subst, a).union(
                self.image_names(subst, b),
            ),
    {
        let l = self.image_names(subst, a.union(b));
        let r = self.image_names(subst, a).union(self.image_names(subst, b));
        assert forall|n: Seq<char>| l.contains(n) <==> r.contains(n) by {
            if l.contains(n) && !(a.union(b).contains(n) && subst_lookup(subst, n, 0) is None) {
                let m = choose|m: Seq<char>|
                    #![trigger a.union(b).contains(m)]
                    a.union(b).contains(m) && subst_lookup(subst, m, 0) is Some && self.free_vars_of(
                        subst_lookup(subst, m, 0)->Some_0,
                    ).contains(n);
                if a.contains(m) {
                    assert(self.image_names(subst, a).contains(n));
                } else {
                    assert(b.contains(m));
                    assert(self.image_names(subst, b).contains(n));
                }
            }
            if self.image_names(subst, a).contains(n) && !(a.contains(n) && subst_lookup(subst, n, 0) is None) {
                let m = choose|m: Seq<char>|
                    #![trigger a.contains(m)]
                    a.contains(m) && subst_lookup(subst, m, 0) is Some && self.free_vars_of(
                        subst_lookup(subst, m, 0)->Some_0,
                    ).contains(n);
                assert(a.union(b).contains(m));
            }
            if self.image_names(subst, b).contains(n) && !(b.contains(n) && subst_lookup(subst, n, 0) is None) {
                let m = choose|m: Seq<char>|
                    #![trigger b.contains(m)]
                    b.contains(m) && subst_lookup(subst, m, 0) is Some && self.free_vars_of(
                        subst_lookup(subst, m, 0)->Some_0,
                    ).contains(n);
                assert(a.union(b).contains(m));
            }
        }
        assert(l =~= r);
    }

    /// The free variables of the image of `t` under `subst` are the free variables of `t`
    /// that `subst` does not bind, and the free variables of the terms bound to those that it
    /// binds.
    pub proof fn law_substitution_free_vars(&self, subst: Seq<(Sym, TermId)>, t: TermId, r: TermId, fresh: nat)
        requires
            self.wf(),
            self.valid(t),
            self.subst_image(subst, t, r, fresh),
        ensures
            self.free_vars_of(r) == self.image_names(subst, self.free_vars_of(t)),
        decreases t.spec_index(), 1nat, 0nat,
    {
        let img = self.image_names(subst, self.free_vars_of(t));
        match self.kind(t) {
            TermKind::Var { sym, sort } => {
                let name = sym.0@;
                match subst_lookup(subst, name, 0) {
                    Some(x) => {
                        assert forall|n: Seq<char>| self.free_vars_of(x).contains(n) <==> img.contains(n) by {
                            if self.free_vars_of(x).contains(n) {
                                assert(self.free_vars_of(t).contains(name));
                            }
                        }
                        assert(self.free_vars_of(r) =~= img);
                    },
                    None => {
                        assert forall|n: Seq<char>| self.free_vars_of(r).contains(n) <==> img.contains(n) by {
                            if img.contains(n) && !(self.free_vars_of(t).contains(n) && subst_lookup(subst, n, 0) is None) {
                                let m = choose|m: Seq<char>|
                                    #![trigger self.free_vars_of(t).contains(m)]
                                    self.free_vars_of(t).contains(m) && subst_lookup(subst, m, 0) is Some
                                        && self.free_vars_of(subst_lookup(subst, m, 0)->Some_0).contains(n);
                                assert(m == name);
                            }
                        }
                        assert(self.free_vars_of(r) =~= img);
                    },
                }
            },
            TermKind::App { op, args } => {
                let a2 = self.kind(r)->App_args;
                assert(self.node_ok(t));
                assert(self.node_ok(r));
                self.lemma_args_free_vars(
                    subst,
                    args@,
                    a2@,
                    args@.len(),
                    t.spec_index(),
                    r.spec_index(),
                    fresh,
                );
            },
            _ => {
                assert(self.free_vars_of(r) =~= Set::<Seq<char>>::empty());
                assert(img =~= Set::<Seq<char>>::empty());
            },
        }
    }

    proof fn lemma_args_free_vars(
        &self,
        subst: Seq<(Sym, TermId)>,
        args: Seq<TermId>,
        imgs: Seq<TermId>,
        n: nat,
        tb: nat,
        rb: nat,
        fresh: nat,
    )
        requires
            self.wf(),
            tb <= self.num_terms(),
            n <= args.len(),
            n <= imgs.len(),
            forall|k: int| 0 <= k < imgs.len() ==> (#[trigger] imgs[k]).spec_index() < rb,
            self.args_image(subst, args, imgs, n, tb, fresh),
        ensures
            self.args_free_vars(imgs, n, rb) == self.image_names(
                subst,
                self.args_free_vars(args, n, tb),
            ),
        decreases tb, 0nat, n,
    {
        if n == 0 {
            assert(self.image_names(subst, Set::empty()) =~= Set::<Seq<char>>::empty());
        } else {
            self.lemma_args_free_vars(subst, args, imgs, (n - 1) as nat, tb, rb, fresh);
            assert(imgs[n - 1].spec_index() < rb);
            self.law_substitution_free_vars(subst, args[n - 1], imgs[n - 1], fresh);
            self.lemma_image_names_union(
                subst,
                self.args_free_vars(args, (n - 1) as nat, tb),
                self.free_vars_of(args[n - 1]),
            );
        }
    }

    /// Rebuilds `root` with every variable that `subst` binds (by name; the first binding of
    /// a name counts) replaced by its term. The new term DAG is added to this arena.
    pub fn substitute(&mut self, root: TermId, subst: &[(Sym, TermId)]) -> (r: Result<
        TermId,
        TypeError,
    >)
        requires
            old(self).wf(),
            old(self).valid(root),
            old(self).subst_valid(subst@),
            2 * old(self).num_terms() <= u32::MAX,
        ensures
            final(self).wf(),
            final(self).extends(old(self)),
            match old(self).subst_sort(subst@, root) {
                Ok(s) => r matches Ok(x) && final(self).subst_image(subst@, root, x, old(self).num_terms())
                    && final(self).sort(x) == s,
                Err(e) => r == Err::<TermId, TypeError>(e),
            },
    {
        let n = self.nodes.len();
        let mut memo: Vec<Option<TermId>> = Vec::with_capacity(n);
        let mut i: usize = 0;
        while i < n
            invariant
                0 <= i <= n,
                memo@.len() == i,
                forall|k: int| 0 <= k < i ==> memo@[k] is None,
            decreases n - i,
        {
            memo.push(None);
            i = i + 1;
        }
        let ghost base = *self;
        proof {
            lemma_count_some_empty(memo@);
        }
        self.subst_term(root, subst, &mut memo, Ghost(base))
    }
}

} // verus!
