//! Tiny s-expression utilities for SMT-LIB2 I/O.
use vstd::prelude::*;

use crate::text::{push_char, push_chars, chars_of};

verus! {

/// A minimal s-expression AST (atoms + lists).
#[derive(Debug, PartialEq, Eq)]
pub enum Sexp {
    /// An atom (symbol, numeral, keyword, etc).
    Atom(String),
    /// A list: `(a b c)`.
    List(Vec<Sexp>),
}

/// The mathematical value of an s-expression: atoms are character sequences.
pub enum SexpView {
    Atom(Seq<char>),
    List(Seq<SexpView>),
}

/// The value of `s`.
pub open spec fn sexp_view(s: Sexp) -> SexpView
    decreases s, 0nat,
{
    match s {
        Sexp::Atom(a) => SexpView::Atom(a@),
        Sexp::List(items) => SexpView::List(items_view(items@, items@.len())),
    }
}

/// The values of the first `n` elements of `items`.
pub open spec fn items_view(items: Seq<Sexp>, n: nat) -> Seq<SexpView>
    decreases items, n,
{
    if n == 0 || n > items.len() {
        Seq::empty()
    } else {
        items_view(items, (n - 1) as nat).push(sexp_view(items[n - 1]))
    }
}

/// The values of all elements of `items`.
pub open spec fn views(items: Seq<Sexp>) -> Seq<SexpView> {
    items_view(items, items.len())
}

impl View for Sexp {
    type V = SexpView;

    open spec fn view(&self) -> SexpView {
        sexp_view(*self)
    }
}

/// A deep copy, equal in value.
impl Clone for Sexp {
    fn clone(&self) -> (r: Self)
        ensures
            r@ == self@,
        decreases self,
    {
        match self {
            Sexp::Atom(a) => Sexp::Atom(a.clone()),
            Sexp::List(items) => {
                let mut out: Vec<Sexp> = Vec::new();
                let mut i: usize = 0;
                while i < items.len()
                    invariant
                        *self == Sexp::List(*items),
                        0 <= i <= items@.len(),
                        out@.len() == i,
                        forall|k: int| 0 <= k < i ==> (#[trigger] out@[k])@ == items@[k]@,
                    decreases items@.len() - i,
                {
                    proof {
                        let v = *items;
                        assert(decreases_to!(v => v@));
                        assert(decreases_to!(v@ => v@[i as int]));
                        assert(*self == Sexp::List(v));
                        assert(decreases_to!(*self => (*self)->List_0));
                        assert(decreases_to!(*self => v@[i as int]));
                    }
                    let c = items[i].clone();
                    out.push(c);
                    i = i + 1;
                }
                proof {
                    lemma_items_view(out@, out@.len());
                    lemma_items_view(items@, items@.len());
                    assert(views(out@) =~= views(items@));
                }
                Sexp::List(out)
            },
        }
    }
}

pub proof fn lemma_items_view(items: Seq<Sexp>, n: nat)
    requires
        n <= items.len(),
    ensures
        items_view(items, n).len() == n,
        forall|k: int| 0 <= k < n ==> #[trigger] items_view(items, n)[k] == sexp_view(items[k]),
    decreases n,
{
    if n > 0 {
        lemma_items_view(items, (n - 1) as nat);
    }
}

pub proof fn lemma_views(items: Seq<Sexp>)
    ensures
        views(items).len() == items.len(),
        forall|k: int| 0 <= k < items.len() ==> #[trigger] views(items)[k] == sexp_view(items[k]),
{
    lemma_items_view(items, items.len());
}

pub proof fn lemma_views_push(items: Seq<Sexp>, x: Sexp)
    ensures
        views(items.push(x)) == views(items).push(sexp_view(x)),
{
    lemma_views(items);
    lemma_views(items.push(x));
    assert(views(items.push(x)) =~= views(items).push(sexp_view(x)));
}

/// SMT-LIB whitespace.
pub open spec fn is_ws(c: char) -> bool {
    c == ' ' || c == '\t' || c == '\n' || c == '\r'
}

/// Characters that end an unquoted atom.
pub open spec fn is_delim(c: char) -> bool {
    c == '(' || c == ')' || is_ws(c) || c == ';'
}

/// The printed form of a value: atoms as they are, lists in parentheses with their
/// elements separated by single spaces.
pub open spec fn sexp_text(v: SexpView) -> Seq<char>
    decreases v, 0nat,
{
    match v {
        SexpView::Atom(a) => a,
        SexpView::List(items) => seq!['('] + items_text(items, items.len()) + seq![')'],
    }
}

/// The printed forms of the first `n` values of `items`, separated by single spaces.
pub open spec fn items_text(items: Seq<SexpView>, n: nat) -> Seq<char>
    decreases items, n,
{
    if n == 0 || n > items.len() {
        Seq::empty()
    } else if n == 1 {
        sexp_text(items[0])
    } else {
        items_text(items, (n - 1) as nat) + seq![' '] + sexp_text(items[n - 1])
    }
}

/// Why a text is not an s-expression.
#[derive(Debug, Clone, Copy, PartialEq, Eq, Structural)]
pub enum ParseError {
    Eof,
    Unexpected(char),
    Trailing,
}

// ----- The grammar, over the characters of the input -----

/// Position after the line comment whose text starts at `i`: past the next newline, or
/// the end of the input.
pub open spec fn comment_end(s: Seq<char>, i: nat) -> nat
    decreases s.len() - i,
{
    if i >= s.len() {
        i
    } else if s[i as int] == '\n' {
        i + 1
    } else {
        comment_end(s, i + 1)
    }
}

pub proof fn lemma_comment_end(s: Seq<char>, i: nat)
    ensures
        comment_end(s, i) >= i,
        i <= s.len() ==> comment_end(s, i) <= s.len(),
    decreases s.len() - i,
{
    if i < s.len() && s[i as int] != '\n' {
        lemma_comment_end(s, i + 1);
    }
}

/// Position of the first character at or after `i` that is neither whitespace nor part of
/// a `;` line comment.
pub open spec fn skip_ws(s: Seq<char>, i: nat) -> nat
    decreases s.len() - i,
{
    if i >= s.len() {
        i
    } else if is_ws(s[i as int]) {
        skip_ws(s, i + 1)
    } else if s[i as int] == ';' {
        proof {
            lemma_comment_end(s, i + 1);
        }
        skip_ws(s, comment_end(s, i + 1))
    } else {
        i
    }
}

pub proof fn lemma_skip_ws(s: Seq<char>, i: nat)
    ensures
        skip_ws(s, i) >= i,
        i <= s.len() ==> skip_ws(s, i) <= s.len(),
        skip_ws(s, i) < s.len() ==> !is_ws(s[skip_ws(s, i) as int]) && s[skip_ws(s, i) as int]
            != ';',
    decreases s.len() - i,
{
    if i < s.len() {
        if is_ws(s[i as int]) {
            lemma_skip_ws(s, i + 1);
        } else if s[i as int] == ';' {
            lemma_comment_end(s, i + 1);
            lemma_skip_ws(s, comment_end(s, i + 1));
        }
    }
}

/// End of the unquoted atom that starts at `i`: the first delimiter or the end of input.
pub open spec fn token_end(s: Seq<char>, i: nat) -> nat
    decreases s.len() - i,
{
    if i >= s.len() || is_delim(s[i as int]) {
        i
    } else {
        token_end(s, i + 1)
    }
}

/// End (past the closing bar) of a `|...|` symbol whose body starts at `i`; `||` stands for
/// a literal bar. `None` when the input ends first.
pub open spec fn bar_end(s: Seq<char>, i: nat) -> Option<nat>
    decreases s.len() - i,
{
    if i >= s.len() {
        None
    } else if s[i as int] == '|' {
        if i + 1 < s.len() && s[i + 1int] == '|' {
            bar_end(s, i + 2)
        } else {
            Some(i + 1)
        }
    } else {
        bar_end(s, i + 1)
    }
}

/// End (past the closing quote) of a string literal whose body starts at `i`; `""` stands
/// for a literal quote and a backslash escapes the next character. `None` when the input
/// ends first.
pub open spec fn str_end(s: Seq<char>, i: nat) -> Option<nat>
    decreases s.len() - i,
{
    if i >= s.len() {
        None
    } else if s[i as int] == '"' {
        if i + 1 < s.len() && s[i + 1int] == '"' {
            str_end(s, i + 2)
        } else {
            Some(i + 1)
        }
    } else if s[i as int] == '\\' {
        if i + 1 < s.len() {
            str_end(s, i + 2)
        } else {
            None
        }
    } else {
        str_end(s, i + 1)
    }
}

/// The atom that starts at `j` (a bar-quoted symbol, a string literal, or an unquoted
/// token), with the position after it.
pub open spec fn parse_atom_at(s: Seq<char>, j: nat) -> Result<(SexpView, nat), ParseError> {
    if j >= s.len() {
        Err(ParseError::Eof)
    } else if s[j as int] == '|' {
        match bar_end(s, j + 1) {
            Some(e) => Ok((SexpView::Atom(s.subrange(j as int, e as int)), e)),
            None => Err(ParseError::Eof),
        }
    } else if s[j as int] == '"' {
        match str_end(s, j + 1) {
            Some(e) => Ok((SexpView::Atom(s.subrange(j as int, e as int)), e)),
            None => Err(ParseError::Eof),
        }
    } else {
        let e = token_end(s, j);
        if e == j {
            Err(ParseError::Eof)
        } else {
            Ok((SexpView::Atom(s.subrange(j as int, e as int)), e))
        }
    }
}

/// The s-expression that starts at `i` (after optional whitespace and comments), with the
/// position after it.
pub open spec fn parse_sexp_at(s: Seq<char>, i: nat) -> Result<(SexpView, nat), ParseError>
    decreases s.len() - i, 0nat,
{
    let j = skip_ws(s, i);
    if j >= s.len() {
        Err(ParseError::Eof)
    } else if s[j as int] == '(' {
        proof {
            lemma_skip_ws(s, i);
        }
        parse_items_at(s, j + 1, Seq::empty())
    } else {
        parse_atom_at(s, j)
    }
}

/// The rest of a list whose elements so far are `acc` and whose next element (or closing
/// parenthesis) is at `k` or later, with the position after the list.
pub open spec fn parse_items_at(s: Seq<char>, k: nat, acc: Seq<SexpView>) -> Result<
    (SexpView, nat),
    ParseError,
>
    decreases s.len() - k, 1nat,
{
    let k1 = skip_ws(s, k);
    if k1 >= s.len() {
        Err(ParseError::Eof)
    } else if s[k1 as int] == ')' {
        Ok((SexpView::List(acc), k1 + 1))
    } else {
        proof {
            lemma_skip_ws(s, k);
        }
        match parse_sexp_at(s, k1) {
            Err(e) => Err(e),
            Ok((x, k2)) => if k1 < k2 <= s.len() {
                parse_items_at(s, k2, acc.push(x))
            } else {
                Err(ParseError::Eof)
            },
        }
    }
}

/// The one s-expression that `s` holds, surrounded by optional whitespace and comments.
pub open spec fn spec_parse_one(s: Seq<char>) -> Result<SexpView, ParseError> {
    match parse_sexp_at(s, 0) {
        Err(e) => Err(e),
        Ok((v, k)) => if skip_ws(s, k) < s.len() {
            Err(ParseError::Trailing)
        } else {
            Ok(v)
        },
    }
}

pub open spec fn result_view(r: Result<(Sexp, usize), ParseError>) -> Result<
    (SexpView, nat),
    ParseError,
> {
    match r {
        Ok((x, k)) => Ok((x@, k as nat)),
        Err(e) => Err(e),
    }
}

pub open spec fn parse_one_view(r: Result<Sexp, ParseError>) -> Result<SexpView, ParseError> {
    match r {
        Ok(x) => Ok(x@),
        Err(e) => Err(e),
    }
}

pub proof fn lemma_token_end(s: Seq<char>, i: nat)
    ensures
        token_end(s, i) >= i,
        i <= s.len() ==> token_end(s, i) <= s.len(),
        forall|k: int| i <= k < token_end(s, i) ==> !is_delim(#[trigger] s[k]),
        token_end(s, i) < s.len() ==> is_delim(s[token_end(s, i) as int]),
    decreases s.len() - i,
{
    if i < s.len() && !is_delim(s[i as int]) {
        lemma_token_end(s, i + 1);
    }
}

pub proof fn lemma_bar_end(s: Seq<char>, i: nat)
    ensures
        bar_end(s, i) matches Some(e) ==> i < e <= s.len(),
    decreases s.len() - i,
{
    if i < s.len() {
        if s[i as int] == '|' {
            if i + 1 < s.len() && s[i + 1int] == '|' {
                lemma_bar_end(s, i + 2);
            }
        } else {
            lemma_bar_end(s, i + 1);
        }
    }
}

pub proof fn lemma_str_end(s: Seq<char>, i: nat)
    ensures
        str_end(s, i) matches Some(e) ==> i < e <= s.len(),
    decreases s.len() - i,
{
    if i < s.len() {
        if s[i as int] == '"' {
            if i + 1 < s.len() && s[i + 1int] == '"' {
                lemma_str_end(s, i + 2);
            }
        } else if s[i as int] == '\\' {
            if i + 1 < s.len() {
                lemma_str_end(s, i + 2);
            }
        } else {
            lemma_str_end(s, i + 1);
        }
    }
}

pub proof fn lemma_parse_sexp_progress(s: Seq<char>, i: nat)
    ensures
        parse_sexp_at(s, i) matches Ok((x, k)) ==> skip_ws(s, i) < k <= s.len(),
    decreases s.len() - i, 0nat,
{
    lemma_skip_ws(s, i);
    let j = skip_ws(s, i);
    if j < s.len() {
        if s[j as int] == '(' {
            lemma_parse_items_progress(s, j + 1, Seq::empty());
        } else {
            lemma_bar_end(s, j + 1);
            lemma_str_end(s, j + 1);
            lemma_token_end(s, j);
        }
    }
}

pub proof fn lemma_parse_items_progress(s: Seq<char>, k: nat, acc: Seq<SexpView>)
    ensures
        parse_items_at(s, k, acc) matches Ok((x, k2)) ==> k < k2 <= s.len(),
    decreases s.len() - k, 1nat,
{
    lemma_skip_ws(s, k);
    let k1 = skip_ws(s, k);
    if k1 < s.len() && s[k1 as int] != ')' {
        lemma_parse_sexp_progress(s, k1);
        match parse_sexp_at(s, k1) {
            Ok((x, k2)) => {
                if k1 < k2 <= s.len() {
                    lemma_parse_items_progress(s, k2, acc.push(x));
                }
            },
            Err(_) => {},
        }
    }
}

fn skip_ws_exec(s: &[char], i: usize) -> (r: usize)
    requires
        i <= s@.len(),
    ensures
        r == skip_ws(s@, i as nat),
{
    let mut j = i;
    while j < s.len()
        invariant
            i <= j <= s@.len(),
            skip_ws(s@, i as nat) == skip_ws(s@, j as nat),
        decreases s@.len() - j,
    {
        let c = s[j];
        if c == ' ' || c == '\t' || c == '\n' || c == '\r' {
            j = j + 1;
        } else if c == ';' {
            let mut k = j + 1;
            while k < s.len() && s[k] != '\n'
                invariant
                    j < k <= s@.len(),
                    comment_end(s@, (j + 1) as nat) == comment_end(s@, k as nat),
                decreases s@.len() - k,
            {
                k = k + 1;
            }
            if k < s.len() {
                k = k + 1;
            }
            proof {
                lemma_comment_end(s@, (j + 1) as nat);
            }
            j = k;
        } else {
            return j;
        }
    }
    j
}

fn token_end_exec(s: &[char], i: usize) -> (r: usize)
    requires
        i <= s@.len(),
    ensures
        r == token_end(s@, i as nat),
{
    let mut j = i;
    while j < s.len()
        invariant
            i <= j <= s@.len(),
            token_end(s@, i as nat) == token_end(s@, j as nat),
        decreases s@.len() - j,
    {
        let c = s[j];
        if c == '(' || c == ')' || c == ' ' || c == '\t' || c == '\n' || c == '\r' || c == ';' {
            return j;
        }
        j = j + 1;
    }
    j
}

fn bar_end_exec(s: &[char], i: usize) -> (r: Option<usize>)
    requires
        i <= s@.len(),
    ensures
        r matches Some(e) ==> bar_end(s@, i as nat) == Some(e as nat),
        r is None ==> bar_end(s@, i as nat) is None,
{
    let mut j = i;
    while j < s.len()
        invariant
            i <= j <= s@.len(),
            bar_end(s@, i as nat) == bar_end(s@, j as nat),
        decreases s@.len() - j,
    {
        if s[j] == '|' {
            if j + 1 < s.len() && s[j + 1] == '|' {
                j = j + 2;
            } else {
                return Some(j + 1);
            }
        } else {
            j = j + 1;
        }
    }
    None
}

fn str_end_exec(s: &[char], i: usize) -> (r: Option<usize>)
    requires
        i <= s@.len(),
    ensures
        r matches Some(e) ==> str_end(s@, i as nat) == Some(e as nat),
        r is None ==> str_end(s@, i as nat) is None,
{
    let mut j = i;
    while j < s.len()
        invariant
            i <= j <= s@.len(),
            str_end(s@, i as nat) == str_end(s@, j as nat),
        decreases s@.len() - j,
    {
        if s[j] == '"' {
            if j + 1 < s.len() && s[j + 1] == '"' {
                j = j + 2;
            } else {
                return Some(j + 1);
            }
        } else if s[j] == '\\' {
            if j + 1 < s.len() {
                j = j + 2;
            } else {
                return None;
            }
        } else {
            j = j + 1;
        }
    }
    None
}

/// The characters `s[j..e]` as a string.
pub fn string_of(s: &[char], j: usize, e: usize) -> (r: String)
    requires
        j <= e <= s@.len(),
    ensures
        r@ == s@.subrange(j as int, e as int),
{
    let mut out = String::new();
    let mut k = j;
    while k < e
        invariant
            j <= k <= e <= s@.len(),
            out@ == s@.subrange(j as int, k as int),
        decreases e - k,
    {
        push_char(&mut out, s[k]);
        k = k + 1;
        assert(s@.subrange(j as int, k as int) =~= s@.subrange(j as int, k - 1).push(s@[k - 1]));
    }
    out
}

fn parse_atom_exec(s: &[char], j: usize) -> (r: Result<(Sexp, usize), ParseError>)
    requires
        j < s@.len(),
    ensures
        result_view(r) == parse_atom_at(s@, j as nat),
{
    let c = s[j];
    let end = if c == '|' {
        bar_end_exec(s, j + 1)
    } else if c == '"' {
        str_end_exec(s, j + 1)
    } else {
        let e = token_end_exec(s, j);
        if e == j {
            None
        } else {
            Some(e)
        }
    };
    match end {
        Some(e) => {
            proof {
                lemma_bar_end(s@, (j + 1) as nat);
                lemma_str_end(s@, (j + 1) as nat);
                lemma_token_end(s@, j as nat);
            }
            Ok((Sexp::Atom(string_of(s, j, e)), e))
        },
        None => Err(ParseError::Eof),
    }
}

fn parse_sexp_exec(s: &[char], i: usize) -> (r: Result<(Sexp, usize), ParseError>)
    requires
        i <= s@.len(),
    ensures
        result_view(r) == parse_sexp_at(s@, i as nat),
    decreases s@.len() - i, 0nat,
{
    let j = skip_ws_exec(s, i);
    proof {
        lemma_skip_ws(s@, i as nat);
    }
    if j >= s.len() {
        Err(ParseError::Eof)
    } else if s[j] == '(' {
        parse_items_exec(s, j + 1)
    } else {
        parse_atom_exec(s, j)
    }
}

fn parse_items_exec(s: &[char], k: usize) -> (r: Result<(Sexp, usize), ParseError>)
    requires
        k <= s@.len(),
    ensures
        result_view(r) == parse_items_at(s@, k as nat, Seq::empty()),
    decreases s@.len() - k, 1nat,
{
    let mut items: Vec<Sexp> = Vec::new();
    let mut kk = k;
    proof {
        assert(views(items@) =~= Seq::<SexpView>::empty());
    }
    loop
        invariant
            k <= kk <= s@.len(),
            parse_items_at(s@, k as nat, Seq::empty()) == parse_items_at(s@, kk as nat, views(items@)),
        decreases s@.len() - kk,
    {
        let k1 = skip_ws_exec(s, kk);
        proof {
            lemma_skip_ws(s@, kk as nat);
        }
        if k1 >= s.len() {
            return Err(ParseError::Eof);
        }
        if s[k1] == ')' {
            return Ok((Sexp::List(items), k1 + 1));
        }
        proof {
            lemma_parse_sexp_progress(s@, k1 as nat);
        }
        match parse_sexp_exec(s, k1) {
            Err(e) => {
                return Err(e);
            },
            Ok((x, k2)) => {
                proof {
                    lemma_views_push(items@, x);
                }
                items.push(x);
                kk = k2;
            },
        }
    }
}

/// Parse a single s-expression from `input`.
///
/// This is intentionally small: enough to parse solver output like `sat`, `unsat` or
/// `((x 5) (y 3))`.
pub fn parse_one(input: &str) -> (r: Result<Sexp, ParseError>)
    ensures
        parse_one_view(r) == spec_parse_one(input@),
{
    let cs = chars_of(input);
    let s = cs.as_slice();
    match parse_sexp_exec(s, 0) {
        Err(e) => Err(e),
        Ok((v, k)) => {
            proof {
                lemma_parse_sexp_progress(s@, 0);
            }
            let k2 = skip_ws_exec(s, k);
            if k2 < s.len() {
                Err(ParseError::Trailing)
            } else {
                Ok(v)
            }
        },
    }
}

impl Sexp {
    /// Create an atom.
    pub fn atom(s: &str) -> (r: Self)
        ensures
            r@ == SexpView::Atom(s@),
    {
        Sexp::Atom(s.to_owned())
    }

    /// Create a list.
    pub fn list(items: Vec<Sexp>) -> (r: Self)
        ensures
            r@ == SexpView::List(views(items@)),
    {
        Sexp::List(items)
    }

    /// A copy of the expression.
    pub fn deep_clone(&self) -> (r: Self)
        ensures
            r@ == self@,
        decreases self,
    {
        match self {
            Sexp::Atom(a) => Sexp::Atom(a.clone()),
            Sexp::List(items) => {
                let mut out: Vec<Sexp> = Vec::with_capacity(items.len());
                let mut i: usize = 0;
                while i < items.len()
                    invariant
                        0 <= i <= items@.len(),
                        *self is List,
                        self->List_0 == *items,
                        views(out@) == views(items@).take(i as int),
                    decreases items@.len() - i,
                {
                    proof {
                        assert(decreases_to!(*self => self->List_0));
                        assert(decreases_to!(self->List_0 => self->List_0@));
                        assert(decreases_to!(items@ => items@[i as int]));
                    }
                    let c = items[i].deep_clone();
                    proof {
                        lemma_views_push(out@, c);
                        lemma_views(items@);
                        assert(views(items@).take(i + 1) =~= views(items@).take(i as int).push(
                            sexp_view(items@[i as int]),
                        ));
                    }
                    out.push(c);
                    i = i + 1;
                }
                proof {
                    lemma_views(items@);
                    assert(views(items@).take(items@.len() as int) =~= views(items@));
                }
                Sexp::List(out)
            },
        }
    }

    fn write_to(&self, out: &mut String)
        ensures
            final(out)@ == old(out)@ + sexp_text(self@),
        decreases self,
    {
        match self {
            Sexp::Atom(a) => {
                let cs = chars_of(a.as_str());
                push_chars(out, cs.as_slice());
            },
            Sexp::List(items) => {
                let ghost vs = views(items@);
                proof {
                    lemma_views(items@);
                }
                let ghost start = out@;
                push_char(out, '(');
                let mut i: usize = 0;
                while i < items.len()
                    invariant
                        0 <= i <= items@.len(),
                        *self is List,
                        self->List_0 == *items,
                        vs == views(items@),
                        vs.len() == items@.len(),
                        forall|k: int| 0 <= k < items@.len() ==> #[trigger] vs[k] == sexp_view(items@[k]),
                        out@ == start + seq!['('] + items_text(vs, i as nat),
                    decreases items@.len() - i,
                {
                    if i > 0 {
                        push_char(out, ' ');
                    }
                    proof {
                        assert(decreases_to!(*self => self->List_0));
                        assert(decreases_to!(self->List_0 => self->List_0@));
                        assert(decreases_to!(items@ => items@[i as int]));
                    }
                    items[i].write_to(out);
                    proof {
                        if i == 0 {
                            assert(items_text(vs, 1) == sexp_text(vs[0]));
                            assert(items_text(vs, 0) =~= Seq::<char>::empty());
                        }
                    }
                    i = i + 1;
                }
                push_char(out, ')');
                proof {
                    assert(out@ =~= start + sexp_text(self@));
                }
            },
        }
    }

    /// The printed SMT-LIB2 form.
    pub fn to_string(&self) -> (r: String)
        ensures
            r@ == sexp_text(self@),
    {
        let mut out = String::new();
        self.write_to(&mut out);
        proof {
            assert(out@ =~= sexp_text(self@));
        }
        out
    }
}

// ----- Round trip between printing and parsing -----

/// `a` is an atom that the parser reads back as itself: a closed `|...|` symbol, a closed
/// string literal, or a non-empty token without delimiters.
pub open spec fn atom_ok(a: Seq<char>) -> bool {
    &&& a.len() > 0
    &&& if a[0] == '|' {
        bar_end(a, 1) == Some(a.len())
    } else if a[0] == '"' {
        str_end(a, 1) == Some(a.len())
    } else {
        forall|k: int| 0 <= k < a.len() ==> !is_delim(#[trigger] a[k])
    }
}

/// Every atom of `v` is `atom_ok`.
pub open spec fn printable(v: SexpView) -> bool
    decreases v, 0nat,
{
    match v {
        SexpView::Atom(a) => atom_ok(a),
        SexpView::List(items) => items_printable(items, items.len()),
    }
}

/// The first `n` values of `items` are printable.
pub open spec fn items_printable(items: Seq<SexpView>, n: nat) -> bool
    decreases items, n,
{
    if n == 0 || n > items.len() {
        true
    } else {
        items_printable(items, (n - 1) as nat) && printable(items[n - 1])
    }
}

pub proof fn lemma_items_printable(items: Seq<SexpView>, n: nat)
    requires
        n <= items.len(),
    ensures
        items_printable(items, n) <==> forall|k: int| 0 <= k < n ==> #[trigger] printable(items[k]),
    decreases n,
{
    if n > 0 {
        lemma_items_printable(items, (n - 1) as nat);
        assert(items_printable(items, n) == (items_printable(items, (n - 1) as nat) && printable(
            items[n - 1],
        )));
        if forall|k: int| 0 <= k < n ==> #[trigger] printable(items[k]) {
            assert forall|k: int| 0 <= k < n - 1 implies #[trigger] printable(items[k]) by {
                assert(printable(items[k]));
            }
        }
    }
}

/// Position `p` of `s` may follow a printed value: the end of the input, a space or a
/// closing parenthesis.
pub open spec fn follow_ok(s: Seq<char>, p: int) -> bool {
    p == s.len() || (0 <= p < s.len() && (s[p] == ' ' || s[p] == ')'))
}

proof fn lemma_bar_end_transfer(a: Seq<char>, s: Seq<char>, i: int, k: nat)
    requires
        0 <= i,
        i + a.len() <= s.len(),
        s.subrange(i, i + a.len()) == a,
        bar_end(a, k) == Some(a.len()),
        follow_ok(s, i + a.len()),
    ensures
        bar_end(s, (i + k) as nat) == Some((i + a.len()) as nat),
    decreases a.len() - k,
{
    assert(s[i + k] == a[k as int]);
    if a[k as int] == '|' {
        if k + 1 < a.len() && a[k + 1int] == '|' {
            assert(s[i + k + 1] == a[k + 1int]);
            lemma_bar_end_transfer(a, s, i, k + 2);
        }
    } else {
        lemma_bar_end_transfer(a, s, i, k + 1);
    }
}

proof fn lemma_str_end_transfer(a: Seq<char>, s: Seq<char>, i: int, k: nat)
    requires
        0 <= i,
        i + a.len() <= s.len(),
        s.subrange(i, i + a.len()) == a,
        str_end(a, k) == Some(a.len()),
        follow_ok(s, i + a.len()),
    ensures
        str_end(s, (i + k) as nat) == Some((i + a.len()) as nat),
    decreases a.len() - k,
{
    assert(s[i + k] == a[k as int]);
    if a[k as int] == '"' {
        if k + 1 < a.len() && a[k + 1int] == '"' {
            assert(s[i + k + 1] == a[k + 1int]);
            lemma_str_end_transfer(a, s, i, k + 2);
        }
    } else if a[k as int] == '\\' {
        lemma_str_end_transfer(a, s, i, k + 2);
    } else {
        lemma_str_end_transfer(a, s, i, k + 1);
    }
}

proof fn lemma_token_end_transfer(a: Seq<char>, s: Seq<char>, i: int, k: nat)
    requires
        0 <= i,
        k <= a.len(),
        i + a.len() <= s.len(),
        s.subrange(i, i + a.len()) == a,
        forall|m: int| 0 <= m < a.len() ==> !is_delim(#[trigger] a[m]),
        follow_ok(s, i + a.len()),
    ensures
        token_end(s, (i + k) as nat) == (i + a.len()) as nat,
    decreases a.len() - k,
{
    if k < a.len() {
        assert(s[i + k] == a[k as int]);
        lemma_token_end_transfer(a, s, i, k + 1);
    }
}

/// Printing a printable value and parsing the text at its position gives the value back,
/// and the parser stops right after the printed text.
pub proof fn lemma_parse_printed(s: Seq<char>, i: int, v: SexpView)
    requires
        printable(v),
        0 <= i,
        i + sexp_text(v).len() <= s.len(),
        s.subrange(i, i + sexp_text(v).len()) == sexp_text(v),
        follow_ok(s, i + sexp_text(v).len()),
    ensures
        parse_sexp_at(s, i as nat) == Ok::<(SexpView, nat), ParseError>(
            (v, (i + sexp_text(v).len()) as nat),
        ),
    decreases v, 1nat, 0nat,
{
    let t = sexp_text(v);
    assert(s[i] == t[0]);
    match v {
        SexpView::Atom(a) => {
            assert(!is_ws(a[0]) && a[0] != ';' && a[0] != '(') by {
                if a[0] == '|' {
                } else if a[0] == '"' {
                } else {
                    assert(!is_delim(a[0]));
                }
            }
            assert(skip_ws(s, i as nat) == i);
            if a[0] == '|' {
                lemma_bar_end_transfer(a, s, i, 1);
            } else if a[0] == '"' {
                lemma_str_end_transfer(a, s, i, 1);
            } else {
                lemma_token_end_transfer(a, s, i, 0);
            }
        },
        SexpView::List(items) => {
            assert(skip_ws(s, i as nat) == i);
            lemma_parse_printed_items(s, i, v, 0);
            assert(items.take(0) =~= Seq::<SexpView>::empty());
        },
    }
}

/// Position, relative to the opening parenthesis, where element `m` of a printed list starts.
pub open spec fn item_start(items: Seq<SexpView>, m: nat) -> int {
    1 + items_text(items, m).len() + if m > 0 { 1int } else { 0int }
}

proof fn lemma_items_text_len(items: Seq<SexpView>, n: nat)
    requires
        n <= items.len(),
    ensures
        n > 0 ==> items_text(items, n).len() > 0 || sexp_text(items[0]).len() == 0,
    decreases n,
{
    if n > 1 {
        lemma_items_text_len(items, (n - 1) as nat);
    }
}

/// The printed list of the first `n` elements starts with the printed list of the first
/// `m`, followed by a space and element `m`.
proof fn lemma_items_text_prefix(items: Seq<SexpView>, m: nat, n: nat)
    requires
        m < n <= items.len(),
    ensures
        items_text(items, n).len() >= item_start(items, m) - 1 + sexp_text(items[m as int]).len(),
        items_text(items, n).subrange(0, items_text(items, m).len() as int) == items_text(items, m),
        m > 0 ==> items_text(items, n)[items_text(items, m).len() as int] == ' ',
        items_text(items, n).subrange(item_start(items, m) - 1, item_start(items, m) - 1 + sexp_text(items[m as int]).len()) == sexp_text(items[m as int]),
        m + 1 < n ==> items_text(items, n).len() > item_start(items, m) - 1 + sexp_text(items[m as int]).len(),
        m + 1 < n ==> items_text(items, n)[item_start(items, m) - 1 + sexp_text(items[m as int]).len()] == ' ',
        m + 1 == n ==> items_text(items, n).len() == item_start(items, m) - 1 + sexp_text(items[m as int]).len(),
    decreases n,
{
    let tm = items_text(items, m);
    let tn = items_text(items, n);
    if m + 1 == n {
        if m == 0 {
            assert(tn == sexp_text(items[0]));
            assert(tn.subrange(0, 0) =~= tm);
            assert(tn.subrange(0, sexp_text(items[0]).len() as int) =~= tn);
        } else {
            assert(tn == tm + seq![' '] + sexp_text(items[m as int]));
            assert(tn.subrange(0, tm.len() as int) =~= tm);
            assert(tn.subrange(tm.len() + 1int, tm.len() + 1int + sexp_text(items[m as int]).len()) =~= sexp_text(items[m as int]));
        }
    } else {
        lemma_items_text_prefix(items, m, (n - 1) as nat);
        let tp = items_text(items, (n - 1) as nat);
        assert(tn == tp + seq![' '] + sexp_text(items[n - 1]));
        assert(tn.subrange(0, tp.len() as int) =~= tp);
        assert(tn.subrange(0, tm.len() as int) =~= tp.subrange(0, tm.len() as int));
        let st = item_start(items, m) - 1;
        let l = sexp_text(items[m as int]).len();
        assert(tn.subrange(st, st + l) =~= tp.subrange(st, st + l));
        if m + 1 < n - 1 {
            assert(tn[st + l] == tp[st + l]);
        } else {
            assert(tp.len() == st + l);
        }
        if m > 0 {
            assert(tn[tm.len() as int] == tp[tm.len() as int]);
        }
    }
}

proof fn lemma_parse_printed_items(s: Seq<char>, i: int, v: SexpView, m: nat)
    requires
        v is List,
        printable(v),
        m <= v->List_0.len(),
        0 <= i,
        i + sexp_text(v).len() <= s.len(),
        s.subrange(i, i + sexp_text(v).len()) == sexp_text(v),
        follow_ok(s, i + sexp_text(v).len()),
    ensures
        parse_items_at(
            s,
            (i + if m == 0 { 1int } else { item_start(v->List_0, m) - 1 }) as nat,
            v->List_0.take(m as int),
        ) == Ok::<(SexpView, nat), ParseError>((v, (i + sexp_text(v).len()) as nat)),
    decreases v, 0nat, v->List_0.len() - m,
{
    let items = v->List_0;
    let n = items.len();
    let t = sexp_text(v);
    let it = items_text(items, n);
    assert(t == seq!['('] + it + seq![')']);
    let p = i + if m == 0 { 1int } else { item_start(items, m) - 1 };
    if m == n {
        if n == 0 {
            assert(it.len() == 0);
        } else {
            assert(it.len() == items_text(items, m).len());
        }
        assert(s[p] == t[p - i]);
        assert(t[p - i] == ')');
        assert(skip_ws(s, p as nat) == p);
        assert(items.take(m as int) =~= items);
    } else {
        lemma_items_text_prefix(items, m, n);
        let st = item_start(items, m);
        let x = items[m as int];
        let l = sexp_text(x).len();
        assert(v == SexpView::List(items));
        assert(printable(items[m as int])) by {
            lemma_items_printable(items, n);
        }
        assert(t.subrange(st, st + l) =~= it.subrange(st - 1, st - 1 + l));
        if m > 0 {
            assert(s[p] == t[p - i]);
            assert(t[p - i] == it[items_text(items, m).len() as int]);
            assert(s[p] == ' ');
            assert(skip_ws(s, (p + 1) as nat) == i + st) by {
                lemma_first_char_of_text(x);
                assert(s[i + st] == t[st]);
                assert(t[st] == sexp_text(x)[0]);
            }
        } else {
            assert(skip_ws(s, p as nat) == i + st) by {
                lemma_first_char_of_text(x);
                assert(s[i + st] == t[st]);
                assert(t[st] == sexp_text(x)[0]);
            }
        }
        assert(s.subrange(i + st, i + st + l) =~= t.subrange(st, st + l));
        assert(follow_ok(s, i + st + l)) by {
            assert(s[i + st + l] == t[st + l]);
            if m + 1 < n {
                assert(it.len() > st - 1 + l);
                assert(t[st + l] == (seq!['('] + it)[st + l]);
                assert(t[st + l] == it[st - 1 + l]);
            } else {
                assert(t[st + l] == ')');
            }
        }
        assert(decreases_to!(v => v->List_0));
        assert(decreases_to!(v->List_0 => v->List_0[m as int]));
        lemma_parse_printed(s, i + st, x);
        lemma_parse_printed_items(s, i, v, m + 1);
        assert(items.take(m as int).push(x) =~= items.take(m + 1int));
        assert(i + st + l == i + item_start(items, m + 1) - 1) by {
            if m == 0 {
                assert(items_text(items, 1) == sexp_text(items[0]));
            } else {
                assert(items_text(items, m + 1) == items_text(items, m) + seq![' '] + sexp_text(x));
            }
        }
    }
}

proof fn lemma_first_char_of_text(v: SexpView)
    requires
        printable(v),
    ensures
        sexp_text(v).len() > 0,
        !is_ws(sexp_text(v)[0]),
        sexp_text(v)[0] != ';',
        sexp_text(v)[0] != ')',
{
    match v {
        SexpView::Atom(a) => {
            if a[0] != '|' && a[0] != '"' {
                assert(!is_delim(a[0]));
            }
        },
        SexpView::List(items) => {},
    }
}

proof fn lemma_bar_end_extract(s: Seq<char>, j: int, p: nat, e: nat)
    requires
        0 <= j < p,
        bar_end(s, p) == Some(e),
    ensures
        bar_end(s.subrange(j, e as int), (p - j) as nat) == Some((e - j) as nat),
    decreases s.len() - p,
{
    let a = s.subrange(j, e as int);
    lemma_bar_end(s, p);
    if s[p as int] == '|' {
        if p + 1 < s.len() && s[p + 1int] == '|' {
            lemma_bar_end(s, p + 2);
            lemma_bar_end_extract(s, j, p + 2, e);
            assert(a[p - j] == s[p as int]);
            assert(a[p - j + 1] == s[p + 1int]);
        }
    } else {
        lemma_bar_end_extract(s, j, p + 1, e);
        assert(a[p - j] == s[p as int]);
    }
}

proof fn lemma_str_end_extract(s: Seq<char>, j: int, p: nat, e: nat)
    requires
        0 <= j < p,
        str_end(s, p) == Some(e),
    ensures
        str_end(s.subrange(j, e as int), (p - j) as nat) == Some((e - j) as nat),
    decreases s.len() - p,
{
    let a = s.subrange(j, e as int);
    lemma_str_end(s, p);
    if s[p as int] == '"' {
        if p + 1 < s.len() && s[p + 1int] == '"' {
            lemma_str_end(s, p + 2);
            lemma_str_end_extract(s, j, p + 2, e);
            assert(a[p - j] == s[p as int]);
            assert(a[p - j + 1] == s[p + 1int]);
        }
    } else if s[p as int] == '\\' {
        lemma_str_end(s, p + 2);
        lemma_str_end_extract(s, j, p + 2, e);
        assert(a[p - j] == s[p as int]);
    } else {
        lemma_str_end_extract(s, j, p + 1, e);
        assert(a[p - j] == s[p as int]);
    }
}

/// Whatever the parser returns is printable.
pub proof fn lemma_parsed_printable(s: Seq<char>, i: nat)
    ensures
        parse_sexp_at(s, i) matches Ok((v, k)) ==> printable(v),
    decreases s.len() - i, 0nat,
{
    lemma_skip_ws(s, i);
    let j = skip_ws(s, i);
    if j < s.len() {
        if s[j as int] == '(' {
            lemma_parsed_items_printable(s, j + 1, Seq::empty());
        } else if s[j as int] == '|' {
            if let Some(e) = bar_end(s, j + 1) {
                lemma_bar_end(s, j + 1);
                lemma_bar_end_extract(s, j as int, j + 1, e);
                assert(s.subrange(j as int, e as int)[0] == s[j as int]);
            }
        } else if s[j as int] == '"' {
            if let Some(e) = str_end(s, j + 1) {
                lemma_str_end(s, j + 1);
                lemma_str_end_extract(s, j as int, j + 1, e);
                assert(s.subrange(j as int, e as int)[0] == s[j as int]);
            }
        } else {
            lemma_token_end(s, j);
            let e = token_end(s, j);
            let a = s.subrange(j as int, e as int);
            assert forall|k: int| 0 <= k < a.len() implies !is_delim(#[trigger] a[k]) by {
                assert(a[k] == s[j + k]);
            }
        }
    }
}

proof fn lemma_parsed_items_printable(s: Seq<char>, k: nat, acc: Seq<SexpView>)
    requires
        items_printable(acc, acc.len()),
    ensures
        parse_items_at(s, k, acc) matches Ok((v, k2)) ==> printable(v),
    decreases s.len() - k, 1nat,
{
    lemma_skip_ws(s, k);
    let k1 = skip_ws(s, k);
    if k1 < s.len() && s[k1 as int] != ')' {
        lemma_parsed_printable(s, k1);
        match parse_sexp_at(s, k1) {
            Ok((x, k2)) => {
                if k1 < k2 <= s.len() {
                    lemma_items_printable(acc, acc.len());
                    lemma_items_printable(acc.push(x), acc.len() + 1);
                    assert forall|m: int| 0 <= m < acc.len() + 1 implies #[trigger] printable(
                        acc.push(x)[m],
                    ) by {
                        if m < acc.len() {
                            assert(printable(acc[m]));
                        }
                    }
                    lemma_parsed_items_printable(s, k2, acc.push(x));
                }
            },
            Err(_) => {},
        }
    }
}

/// Parsing the printed form of a printable value gives the value back.
pub proof fn law_parse_after_print(v: SexpView)
    requires
        printable(v),
    ensures
        spec_parse_one(sexp_text(v)) == Ok::<SexpView, ParseError>(v),
{
    let t = sexp_text(v);
    assert(t.subrange(0, t.len() as int) =~= t);
    lemma_parse_printed(t, 0, v);
}

/// Whatever `parse_one` accepts is printable, so printing it and parsing the text again
/// gives the same value.
pub proof fn law_print_after_parse(s: Seq<char>)
    ensures
        spec_parse_one(s) matches Ok(v) ==> printable(v) && spec_parse_one(sexp_text(v)) == Ok::<
            SexpView,
            ParseError,
        >(v),
{
    lemma_parsed_printable(s, 0);
    if let Ok(v) = spec_parse_one(s) {
        law_parse_after_print(v);
    }
}

} // verus!
