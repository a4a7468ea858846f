//! Reading the output of an external solver run: status line and optional model.
use vstd::prelude::*;

use crate::sexp::{Sexp, SexpView, ParseError, parse_one, spec_parse_one, parse_one_view, comment_end, lemma_comment_end};
use crate::text::{is_white, is_white_exec, trim, trim_bounds, chars_eq, chars_start_with, chars_of, push_char, push_chars};

verus! {

/// Why running an external solver failed.
#[derive(Debug)]
pub enum SolverError {
    /// The solver process could not be started; the text says why.
    Spawn(String),
    /// The solver exited with a non-zero code.
    NonZero { code: i32, stdout: String, stderr: String },
    /// Writing the script to the solver failed; the text says why.
    Stdin(String),
    /// Reading the solver output failed; the text says why.
    Output(String),
}

/// Solver status for a check.
#[derive(Clone, Copy, Debug, PartialEq, Eq, Structural)]
pub enum Status {
    Sat,
    Unsat,
    Unknown,
}

/// Why the solver output could not be read.
#[derive(Debug, PartialEq, Eq)]
pub enum ParseSolverOutputError {
    MissingStatus,
    UnknownStatus(String),
    Model(ParseError),
}

/// Parsed solver output: status + optional model.
#[derive(Debug)]
pub struct Z3Output {
    pub status: Status,
    pub model: Option<Sexp>,
    pub raw_stdout: String,
    pub raw_stderr: String,
}

#[derive(Clone, Copy, Debug, PartialEq, Eq, Structural)]
pub enum ScanState {
    Normal,
    InString,
    InBarSymbol,
}

// ----- The first response in a text -----

/// Position after the leading whitespace and `;` line comments from `i` on.
pub open spec fn skip_lead(s: Seq<char>, i: nat) -> nat
    decreases s.len() - i,
{
    if i >= s.len() {
        i
    } else if is_white(s[i as int]) {
        skip_lead(s, i + 1)
    } else if s[i as int] == ';' {
        proof {
            lemma_comment_end(s, i + 1);
        }
        skip_lead(s, comment_end(s, i + 1))
    } else {
        i
    }
}

/// End of the atom response that starts at `i`: the first whitespace, `;`, or the end.
pub open spec fn atom_response_end(s: Seq<char>, i: nat) -> nat
    decreases s.len() - i,
{
    if i >= s.len() || is_white(s[i as int]) || s[i as int] == ';' {
        i
    } else {
        atom_response_end(s, i + 1)
    }
}

/// Position of the first newline at or after `i`.
pub open spec fn newline_at(s: Seq<char>, i: nat) -> Option<nat>
    decreases s.len() - i,
{
    if i >= s.len() {
        None
    } else if s[i as int] == '\n' {
        Some(i)
    } else {
        newline_at(s, i + 1)
    }
}

pub proof fn lemma_newline_at(s: Seq<char>, i: nat)
    ensures
        newline_at(s, i) matches Some(p) ==> i <= p < s.len() && s[p as int] == '\n',
    decreases s.len() - i,
{
    if i < s.len() && s[i as int] != '\n' {
        lemma_newline_at(s, i + 1);
    }
}

/// The characters collected while reading a parenthesized response from position `i`,
/// given the scanner state, the nesting depth and what was collected so far. Parentheses
/// inside string literals and bar-quoted symbols do not count; comments are dropped (their
/// newline is kept); reading stops after the parenthesis that closes the response.
pub open spec fn scan_response(s: Seq<char>, i: nat, st: ScanState, depth: int, out: Seq<char>) -> Seq<char>
    decreases s.len() - i,
{
    if i >= s.len() {
        out
    } else {
        let ch = s[i as int];
        match st {
            ScanState::Normal => if ch == ';' {
                proof {
                    lemma_newline_at(s, i + 1);
                }
                match newline_at(s, i + 1) {
                    Some(p) => scan_response(s, p + 1, ScanState::Normal, depth, out.push('\n')),
                    None => out,
                }
            } else if ch == '"' {
                scan_response(s, i + 1, ScanState::InString, depth, out.push(ch))
            } else if ch == '|' {
                scan_response(s, i + 1, ScanState::InBarSymbol, depth, out.push(ch))
            } else {
                let d = if ch == '(' {
                    depth + 1
                } else if ch == ')' {
                    depth - 1
                } else {
                    depth
                };
                if d == 0 {
                    out.push(ch)
                } else {
                    scan_response(s, i + 1, ScanState::Normal, d, out.push(ch))
                }
            },
            ScanState::InString => if ch == '"' {
                if i + 1 < s.len() && s[i + 1int] == '"' {
                    scan_response(s, i + 2, ScanState::InString, depth, out.push(ch).push('"'))
                } else {
                    scan_response(s, i + 1, ScanState::Normal, depth, out.push(ch))
                }
            } else {
                scan_response(s, i + 1, ScanState::InString, depth, out.push(ch))
            },
            ScanState::InBarSymbol => if ch == '|' {
                if i + 1 < s.len() && s[i + 1int] == '|' {
                    scan_response(s, i + 2, ScanState::InBarSymbol, depth, out.push(ch).push('|'))
                } else {
                    scan_response(s, i + 1, ScanState::Normal, depth, out.push(ch))
                }
            } else {
                scan_response(s, i + 1, ScanState::InBarSymbol, depth, out.push(ch))
            },
        }
    }
}

/// The first complete response in `s`: after leading whitespace and comments, either the
/// first whitespace-delimited token, or the balanced parenthesized expression (trimmed).
pub open spec fn spec_extract_first_response(s: Seq<char>) -> Option<Seq<char>> {
    let j = skip_lead(s, 0);
    if j >= s.len() {
        None
    } else if s[j as int] != '(' {
        let out = s.subrange(j as int, atom_response_end(s, j) as int);
        if trim(out).len() == 0 {
            None
        } else {
            Some(out)
        }
    } else {
        let t = trim(scan_response(s, j, ScanState::Normal, 0, Seq::empty()));
        if t.len() == 0 {
            None
        } else {
            Some(t)
        }
    }
}

/// Best-effort extraction of the first complete SMT-LIB response from `text`.
///
/// This tolerates solver noise such as several top-level s-expressions, string literals and
/// bar-quoted symbols in which parentheses do not count. If the first token is not `(`, the
/// first whitespace-delimited token is returned.
pub fn extract_first_response(text: &str) -> (r: Option<String>)
    ensures
        r matches Some(x) ==> spec_extract_first_response(text@) == Some(x@),
        r is None ==> spec_extract_first_response(text@) is None,
{
    let cv = chars_of(text);
    let s = cv.as_slice();
    let n = s.len();
    let mut j: usize = 0;
    while j < n
        invariant
            n == s@.len(),
            0 <= j <= n,
            skip_lead(s@, 0) == skip_lead(s@, j as nat),
        ensures
            0 <= j <= n,
            skip_lead(s@, 0) == skip_lead(s@, j as nat),
            j < n ==> !is_white(s@[j as int]) && s@[j as int] != ';',
        decreases n - j,
    {
        let c = s[j];
        if is_white_exec(c) {
            j = j + 1;
        } else if c == ';' {
            let mut k = j + 1;
            while k < n && s[k] != '\n'
                invariant
                    n == s@.len(),
                    j < k <= n,
                    comment_end(s@, (j + 1) as nat) == comment_end(s@, k as nat),
                decreases n - k,
            {
                k = k + 1;
            }
            if k < n {
                k = k + 1;
            }
            proof {
                lemma_comment_end(s@, (j + 1) as nat);
            }
            j = k;
        } else {
            break;
        }
    }
    if j >= n {
        return None;
    }
    if s[j] != '(' {
        let mut e = j;
        while e < n && !is_white_exec(s[e]) && s[e] != ';'
            invariant
                n == s@.len(),
                j <= e <= n,
                atom_response_end(s@, j as nat) == atom_response_end(s@, e as nat),
            decreases n - e,
        {
            e = e + 1;
        }
        let piece = &s[j..e];
        assert(piece@ == s@.subrange(j as int, e as int));
        let (a, b) = trim_bounds(piece);
        if a == b {
            return None;
        }
        let mut out = String::new();
        let mut k = j;
        while k < e
            invariant
                j <= k <= e <= n,
                n == s@.len(),
                out@ == s@.subrange(j as int, k as int),
            decreases e - k,
        {
            push_char(&mut out, s[k]);
            k = k + 1;
            assert(s@.subrange(j as int, k as int) =~= s@.subrange(j as int, k - 1).push(s@[k - 1]));
        }
        return Some(out);
    }
    let mut out: Vec<char> = Vec::new();
    let mut st = ScanState::Normal;
    let mut depth: usize = 0;
    let mut i = j;
    let ghost target = scan_response(s@, j as nat, ScanState::Normal, 0, Seq::empty());
    while i < n
        invariant
            n == s@.len(),
            j <= i <= n,
            depth <= i,
            st != ScanState::Normal ==> depth > 0,
            j < i < n ==> depth > 0,
            s@[j as int] == '(',
            i == j ==> st == ScanState::Normal,
            target == scan_response(s@, i as nat, st, depth as int, out@),
        decreases n - i,
    {
        let ch = s[i];
        match st {
            ScanState::Normal => {
                if ch == ';' {
                    proof {
                        lemma_newline_at(s@, (i + 1) as nat);
                    }
                    let mut k = i + 1;
                    while k < n && s[k] != '\n'
                        invariant
                            n == s@.len(),
                            i < k <= n,
                            newline_at(s@, (i + 1) as nat) == newline_at(s@, k as nat),
                        decreases n - k,
                    {
                        k = k + 1;
                    }
                    if k < n {
                        out.push('\n');
                        i = k + 1;
                    } else {
                        i = n;
                    }
                } else if ch == '"' {
                    out.push(ch);
                    st = ScanState::InString;
                    i = i + 1;
                } else if ch == '|' {
                    out.push(ch);
                    st = ScanState::InBarSymbol;
                    i = i + 1;
                } else {
                    if ch == '(' {
                        depth = depth + 1;
                    } else if ch == ')' {
                        depth = depth - 1;
                    }
                    out.push(ch);
                    if depth == 0 {
                        i = n;
                    } else {
                        i = i + 1;
                    }
                }
            },
            ScanState::InString => {
                out.push(ch);
                if ch == '"' {
                    if i + 1 < n && s[i + 1] == '"' {
                        out.push('"');
                        i = i + 2;
                    } else {
                        st = ScanState::Normal;
                        i = i + 1;
                    }
                } else {
                    i = i + 1;
                }
            },
            ScanState::InBarSymbol => {
                out.push(ch);
                if ch == '|' {
                    if i + 1 < n && s[i + 1] == '|' {
                        out.push('|');
                        i = i + 2;
                    } else {
                        st = ScanState::Normal;
                        i = i + 1;
                    }
                } else {
                    i = i + 1;
                }
            },
        }
    }
    assert(out@ == target);
    let (a, b) = trim_bounds(out.as_slice());
    if a == b {
        return None;
    }
    let mut res = String::new();
    let mut k = a;
    while k < b
        invariant
            a <= k <= b <= out@.len(),
            res@ == out@.subrange(a as int, k as int),
        decreases b - k,
    {
        push_char(&mut res, out[k]);
        k = k + 1;
        assert(out@.subrange(a as int, k as int) =~= out@.subrange(a as int, k - 1).push(out@[k - 1]));
    }
    Some(res)
}

// ----- Status line and model -----

/// The pieces of `s` between newline characters.
pub open spec fn split_newlines(s: Seq<char>) -> Seq<Seq<char>>
    decreases s.len(),
{
    match newline_at(s, 0) {
        None => seq![s],
        Some(p) => {
            proof {
                lemma_newline_at(s, 0);
            }
            seq![s.subrange(0, p as int)] + split_newlines(s.subrange(p + 1int, s.len() as int))
        },
    }
}

/// `u` starts with `p`.
pub open spec fn starts_with(u: Seq<char>, p: Seq<char>) -> bool {
    p.len() <= u.len() && u.subrange(0, p.len() as int) == p
}

/// Solver chatter that is neither a status nor a model: `success`, `unsupported`, and
/// `(error ...)`, `(warning ...)`, `(unsupported ...)` lines.
pub open spec fn is_errorish(line: Seq<char>) -> bool {
    let t = trim(line);
    t == "success"@ || t == "unsupported"@ || starts_with(t, "(error"@) || starts_with(
        t,
        "(warning"@,
    ) || starts_with(t, "(unsupported"@)
}

/// The lines of `ls`, trimmed, without the empty ones and the chatter.
pub open spec fn kept_lines(ls: Seq<Seq<char>>) -> Seq<Seq<char>>
    decreases ls.len(),
{
    if ls.len() == 0 {
        Seq::empty()
    } else {
        let t = trim(ls[0]);
        (if t.len() > 0 && !is_errorish(t) {
            seq![t]
        } else {
            Seq::empty()
        }) + kept_lines(ls.drop_first())
    }
}

/// The lines joined with newlines.
pub open spec fn join_lines(ls: Seq<Seq<char>>) -> Seq<char>
    decreases ls.len(),
{
    if ls.len() == 0 {
        Seq::empty()
    } else if ls.len() == 1 {
        ls[0]
    } else {
        ls[0] + seq!['\n'] + join_lines(ls.drop_first())
    }
}

pub proof fn lemma_join_push(ls: Seq<Seq<char>>, x: Seq<char>)
    ensures
        join_lines(ls.push(x)) == if ls.len() == 0 {
            x
        } else {
            join_lines(ls) + seq!['\n'] + x
        },
    decreases ls.len(),
{
    if ls.len() == 0 {
        assert(ls.push(x)[0] == x);
    } else if ls.len() == 1 {
        assert(ls.push(x).drop_first() =~= seq![x]);
        assert(join_lines(seq![x]) == x);
    } else {
        lemma_join_push(ls.drop_first(), x);
        assert(ls.push(x).drop_first() =~= ls.drop_first().push(x));
        assert(join_lines(ls.push(x)) =~= join_lines(ls) + seq!['\n'] + x);
    }
}

/// The status that a status line names.
pub open spec fn status_of(line: Seq<char>) -> Option<Status> {
    if line == "sat"@ {
        Some(Status::Sat)
    } else if line == "unsat"@ {
        Some(Status::Unsat)
    } else if line == "unknown"@ {
        Some(Status::Unknown)
    } else {
        None
    }
}

/// The status lines are exactly `sat`, `unsat` and `unknown`, each naming the status of the
/// same name.
pub proof fn law_status_lines(line: Seq<char>)
    ensures
        status_of("sat"@) == Some(Status::Sat),
        status_of("unsat"@) == Some(Status::Unsat),
        status_of("unknown"@) == Some(Status::Unknown),
        status_of(line) is Some <==> (line == "sat"@ || line == "unsat"@ || line == "unknown"@),
{
    reveal_strlit("sat");
    reveal_strlit("unsat");
    reveal_strlit("unknown");
    assert("sat"@.len() != "unsat"@.len());
    assert("sat"@.len() != "unknown"@.len());
    assert("unsat"@.len() != "unknown"@.len());
}

/// The value of a `ParseSolverOutputError`.
pub enum OutputErrorView {
    MissingStatus,
    UnknownStatus(Seq<char>),
    Model(ParseError),
}

impl View for ParseSolverOutputError {
    type V = OutputErrorView;

    open spec fn view(&self) -> OutputErrorView {
        match self {
            ParseSolverOutputError::MissingStatus => OutputErrorView::MissingStatus,
            ParseSolverOutputError::UnknownStatus(s) => OutputErrorView::UnknownStatus(s@),
            ParseSolverOutputError::Model(e) => OutputErrorView::Model(*e),
        }
    }
}

/// What solver output says: the first kept line is the status; the rest, joined, holds the
/// model, of which the first complete response is parsed (no model when it is empty or
/// chatter).
pub open spec fn spec_parse_z3_output(stdout: Seq<char>) -> Result<
    (Status, Option<SexpView>),
    OutputErrorView,
> {
    let ls = kept_lines(split_newlines(stdout));
    if ls.len() == 0 {
        Err(OutputErrorView::MissingStatus)
    } else {
        match status_of(ls[0]) {
            None => Err(OutputErrorView::UnknownStatus(ls[0])),
            Some(st) => {
                let rest = join_lines(ls.drop_first());
                let model_txt = match spec_extract_first_response(rest) {
                    Some(m) => m,
                    None => rest,
                };
                if trim(model_txt).len() == 0 || is_errorish(model_txt) {
                    Ok((st, None))
                } else {
                    match spec_parse_one(model_txt) {
                        Ok(v) => Ok((st, Some(v))),
                        Err(e) => Err(OutputErrorView::Model(e)),
                    }
                }
            },
        }
    }
}

/// The value of a parse result: the status and the model's value.
pub open spec fn output_view(r: Result<Z3Output, ParseSolverOutputError>) -> Result<
    (Status, Option<SexpView>),
    OutputErrorView,
> {
    match r {
        Ok(o) => Ok(
            (
                o.status,
                match o.model {
                    Some(m) => Some(m@),
                    None => None,
                },
            ),
        ),
        Err(e) => Err(e@),
    }
}

fn is_errorish_chars(line: &[char]) -> (r: bool)
    ensures
        r == is_errorish(line@),
{
    let (a, b) = trim_bounds(line);
    let t = &line[a..b];
    assert(t@ == trim(line@));
    chars_eq(t, "success") || chars_eq(t, "unsupported") || chars_start_with(t, "(error")
        || chars_start_with(t, "(warning") || chars_start_with(t, "(unsupported")
}

/// The chatter test on a line of text.
pub fn is_errorish_line(line: &str) -> (r: bool)
    ensures
        r == is_errorish(line@),
{
    let cs = chars_of(line);
    is_errorish_chars(cs.as_slice())
}

pub open spec fn lines_view(ls: Seq<Vec<char>>) -> Seq<Seq<char>> {
    ls.map_values(|v: Vec<char>| v@)
}

/// The trimmed, non-empty, non-chatter lines of `s`.
fn kept_lines_exec(s: &[char]) -> (r: Vec<Vec<char>>)
    ensures
        lines_view(r@) == kept_lines(split_newlines(s@)),
{
    let n = s.len();
    let mut kept: Vec<Vec<char>> = Vec::new();
    let mut pos: usize = 0;
    let mut done = false;
    assert(s@.subrange(0, n as int) =~= s@);
    while !done
        invariant
            n == s@.len(),
            0 <= pos <= n,
            !done ==> kept_lines(split_newlines(s@)) == lines_view(kept@) + kept_lines(
                split_newlines(s@.subrange(pos as int, n as int)),
            ),
            done ==> kept_lines(split_newlines(s@)) == lines_view(kept@),
        decreases n - pos, if done { 0nat } else { 1nat },
    {
        let ghost suffix = s@.subrange(pos as int, n as int);
        let mut p = pos;
        while p < n && s[p] != '\n'
            invariant
                n == s@.len(),
                pos <= p <= n,
                suffix == s@.subrange(pos as int, n as int),
                newline_at(suffix, 0) == newline_at(suffix, (p - pos) as nat),
            decreases n - p,
        {
            assert(suffix[p - pos] == s@[p as int]);
            p = p + 1;
        }
        let piece = &s[pos..p];
        let (a, b) = trim_bounds(piece);
        let ghost before = kept@;
        if a < b && !is_errorish_chars(&piece[a..b]) {
            let mut line: Vec<char> = Vec::new();
            let mut k = a;
            while k < b
                invariant
                    a <= k <= b <= piece@.len(),
                    line@ == piece@.subrange(a as int, k as int),
                decreases b - k,
            {
                line.push(piece[k]);
                k = k + 1;
                assert(piece@.subrange(a as int, k as int) =~= piece@.subrange(a as int, k - 1).push(piece@[k - 1]));
            }
            kept.push(line);
        }
        proof {
            let t = trim(s@.subrange(pos as int, p as int));
            assert(piece@ == s@.subrange(pos as int, p as int));
            assert(t == piece@.subrange(a as int, b as int));
            let keep: Seq<Seq<char>> = if t.len() > 0 && !is_errorish(t) {
                seq![t]
            } else {
                Seq::empty()
            };
            assert(lines_view(kept@) =~= lines_view(before) + keep);
            if p < n {
                assert(newline_at(suffix, (p - pos) as nat) == Some((p - pos) as nat));
                assert(suffix.subrange(0, (p - pos) as int) =~= s@.subrange(pos as int, p as int));
                assert(suffix.subrange((p - pos + 1) as int, suffix.len() as int) =~= s@.subrange(p + 1, n as int));
                let rest = split_newlines(s@.subrange(p + 1, n as int));
                assert(split_newlines(suffix) == seq![s@.subrange(pos as int, p as int)] + rest);
                assert((seq![s@.subrange(pos as int, p as int)] + rest).drop_first() =~= rest);
                assert(lines_view(before) + kept_lines(split_newlines(suffix)) =~= lines_view(kept@) + kept_lines(rest));
            } else {
                assert(newline_at(suffix, (p - pos) as nat) is None);
                assert(suffix =~= s@.subrange(pos as int, p as int));
                assert(split_newlines(suffix) == seq![suffix]);
                assert(seq![suffix].drop_first() =~= Seq::<Seq<char>>::empty());
                assert(kept_lines(Seq::<Seq<char>>::empty()) == Seq::<Seq<char>>::empty());
                assert(lines_view(kept@) + Seq::<Seq<char>>::empty() =~= lines_view(kept@));
            }
        }
        if p < n {
            pos = p + 1;
        } else {
            pos = n;
            done = true;
        }
    }
    kept
}

/// Parse solver stdout/stderr into status + optional model.
///
/// Contract: the first kept line is the status (`sat|unsat|unknown`); the remaining output
/// is read as one s-expression model (its first complete response).
pub fn parse_z3_output(stdout: &str, stderr: &str) -> (r: Result<Z3Output, ParseSolverOutputError>)
    ensures
        output_view(r) == spec_parse_z3_output(stdout@),
        r matches Ok(o) ==> o.raw_stdout@ == stdout@ && o.raw_stderr@ == stderr@,
{
    let cs = chars_of(stdout);
    let ls = kept_lines_exec(cs.as_slice());
    let ghost lv = lines_view(ls@);
    if ls.len() == 0 {
        return Err(ParseSolverOutputError::MissingStatus);
    }
    let first = ls[0].as_slice();
    assert(first@ == lv[0]);
    let status = if chars_eq(first, "sat") {
        Status::Sat
    } else if chars_eq(first, "unsat") {
        Status::Unsat
    } else if chars_eq(first, "unknown") {
        Status::Unknown
    } else {
        let mut s = String::new();
        push_chars(&mut s, first);
        return Err(ParseSolverOutputError::UnknownStatus(s));
    };
    let mut rest = String::new();
    let mut i: usize = 1;
    proof {
        assert(lv.subrange(1, 1) =~= Seq::<Seq<char>>::empty());
    }
    while i < ls.len()
        invariant
            lv == lines_view(ls@),
            1 <= i <= ls@.len(),
            rest@ == join_lines(lv.subrange(1, i as int)),
        decreases ls@.len() - i,
    {
        if i > 1 {
            push_char(&mut rest, '\n');
        }
        push_chars(&mut rest, ls[i].as_slice());
        proof {
            lemma_join_push(lv.subrange(1, i as int), lv[i as int]);
            assert(lv.subrange(1, i + 1) =~= lv.subrange(1, i as int).push(lv[i as int]));
        }
        i = i + 1;
    }
    proof {
        assert(lv.subrange(1, lv.len() as int) =~= lv.drop_first());
    }
    let model_txt = match extract_first_response(rest.as_str()) {
        Some(m) => m,
        None => rest,
    };
    let mcs = chars_of(model_txt.as_str());
    let (a, b) = trim_bounds(mcs.as_slice());
    let model = if a == b || is_errorish_chars(mcs.as_slice()) {
        None
    } else {
        match parse_one(model_txt.as_str()) {
            Ok(v) => Some(v),
            Err(e) => {
                return Err(ParseSolverOutputError::Model(e));
            },
        }
    };
    Ok(Z3Output { status, model, raw_stdout: stdout.to_owned(), raw_stderr: stderr.to_owned() })
}

} // verus!
