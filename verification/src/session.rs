//! The decisions of an incremental SMT-LIB session over stdio: the text of each command,
//! how solver responses are read, and the capability probe. The process itself is driven
//! by the caller, which sends the texts built here and hands back what the solver printed.
use vstd::prelude::*;

use crate::sexp::{Sexp, SexpView, views, lemma_views, sexp_text, items_text, parse_one, parse_one_view, spec_parse_one};
use crate::solver::{ScanState, is_errorish, is_errorish_line};
use crate::text::{nat_decimal, trim, trim_bounds, chars_of, chars_eq, push_char, push_chars, push_str, push_decimal};

verus! {

/// A small, best-effort capability snapshot for an SMT-LIB session.
#[derive(Clone, Copy, Debug, PartialEq, Eq, Structural)]
pub struct Capabilities {
    /// Supports `(check-sat-assuming ...)`.
    pub check_sat_assuming: bool,
    /// Supports `(get-model)` after `sat` when model production is enabled.
    pub get_model: bool,
    /// Supports `(get-unsat-core)` after `unsat` when core production is enabled.
    pub get_unsat_core: bool,
    /// Supports `(get-proof)` after `unsat` when proof production is enabled.
    pub get_proof: bool,
    /// Whether `:named` assertions are reflected in the returned core.
    pub named_assertions_in_core: bool,
}

impl Default for Capabilities {
    fn default() -> (r: Self)
        ensures
            !r.check_sat_assuming && !r.get_model && !r.get_unsat_core && !r.get_proof
                && !r.named_assertions_in_core,
    {
        Capabilities {
            check_sat_assuming: false,
            get_model: false,
            get_unsat_core: false,
            get_proof: false,
            named_assertions_in_core: false,
        }
    }
}

/// Solver status for a check.
#[derive(Clone, Copy, Debug, PartialEq, Eq, Structural)]
pub enum Status {
    Sat,
    Unsat,
    Unknown,
}

/// The kind of an I/O failure, as far as the session's decisions need it.
#[derive(Clone, Copy, Debug, PartialEq, Eq, Structural)]
pub enum IoErrorKind {
    NotFound,
    InvalidInput,
    Other,
}

/// An I/O failure: its kind and its message.
#[derive(Clone, Debug, PartialEq, Eq)]
pub struct IoFailure {
    pub kind: IoErrorKind,
    pub message: String,
}

/// Why a session operation failed.
#[derive(Debug)]
pub enum SessionError {
    Spawn { cmd: String, source: IoFailure },
    MissingStdin,
    MissingStdout,
    Stdin(IoFailure),
    Stdout(IoFailure),
    Eof,
    UnknownStatus(String),
    Parse(crate::sexp::ParseError),
    BadGetValue,
    Wait(IoFailure),
    NoSolverFound { tried: Vec<String> },
}

/// The failure to start a solver because its program does not exist.
pub open spec fn spec_is_spawn_not_found(e: &SessionError) -> bool {
    e matches SessionError::Spawn { source, .. } && source.kind == IoErrorKind::NotFound
}

pub fn is_spawn_not_found(e: &SessionError) -> (r: bool)
    ensures
        r == spec_is_spawn_not_found(e),
{
    match e {
        SessionError::Spawn { source, .. } => source.kind == IoErrorKind::NotFound,
        _ => false,
    }
}

// ----- Decoding `(get-value ...)` responses -----

/// `v` is a list of two-element lists.
pub open spec fn is_pair_list(v: SexpView) -> bool {
    v matches SexpView::List(items) && forall|i: int|
        0 <= i < items.len() ==> ((#[trigger] items[i]) matches SexpView::List(kv) && kv.len() == 2)
}

/// The `(term, value)` pairs of a pair list.
pub open spec fn pair_views(v: SexpView) -> Seq<(SexpView, SexpView)> {
    match v {
        SexpView::List(items) => Seq::new(
            items.len(),
            |i: int| (items[i]->List_0[0], items[i]->List_0[1]),
        ),
        _ => Seq::empty(),
    }
}

/// Decode a `(get-value ...)` response into a list of `(term, value)` pairs.
pub fn decode_get_value_pairs(resp: Sexp) -> (r: Result<Vec<(Sexp, Sexp)>, SessionError>)
    ensures
        is_pair_list(resp@) ==> (r matches Ok(ps) && ps@.len() == pair_views(resp@).len()
            && forall|i: int|
            0 <= i < ps@.len() ==> (#[trigger] ps@[i]).0@ == pair_views(resp@)[i].0 && ps@[i].1@
                == pair_views(resp@)[i].1),
        !is_pair_list(resp@) ==> r matches Err(SessionError::BadGetValue),
{
    match &resp {
        Sexp::List(items) => {
            proof {
                lemma_views(items@);
            }
            let ghost vs = views(items@);
            let mut out: Vec<(Sexp, Sexp)> = Vec::with_capacity(items.len());
            let mut i: usize = 0;
            while i < items.len()
                invariant
                    resp@ == SexpView::List(vs),
                    vs == views(items@),
                    vs.len() == items@.len(),
                    forall|k: int| 0 <= k < vs.len() ==> #[trigger] vs[k] == items@[k]@,
                    0 <= i <= items@.len(),
                    out@.len() == i,
                    forall|k: int|
                        0 <= k < i ==> ((#[trigger] vs[k]) matches SexpView::List(kv) && kv.len()
                            == 2),
                    forall|k: int|
                        0 <= k < i ==> (#[trigger] out@[k]).0@ == vs[k]->List_0[0] && out@[k].1@
                            == vs[k]->List_0[1],
                decreases items@.len() - i,
            {
                match &items[i] {
                    Sexp::List(kv) if kv.len() == 2 => {
                        proof {
                            lemma_views(kv@);
                        }
                        out.push((kv[0].deep_clone(), kv[1].deep_clone()));
                    },
                    _ => {
                        proof {
                            assert(!(vs[i as int] matches SexpView::List(kv) && kv.len() == 2)) by {
                                match items@[i as int] {
                                    Sexp::List(kv) => {
                                        lemma_views(kv@);
                                    },
                                    _ => {},
                                }
                            }
                        }
                        return Err(SessionError::BadGetValue);
                    },
                }
                i = i + 1;
            }
            Ok(out)
        },
        _ => Err(SessionError::BadGetValue),
    }
}

// ----- Command texts -----

/// A command sent to the solver.
#[derive(Debug)]
pub enum Command {
    /// `(push 1)`.
    Push,
    /// `(pop N)`.
    Pop(u32),
    /// `(set-logic LOGIC)`.
    SetLogic(String),
    /// `(set-option KEY VALUE)`.
    SetOption(String, Sexp),
    /// `(declare-const NAME SORT)`.
    DeclareConst(String, Sexp),
    /// `(assert TERM)`.
    Assert(Sexp),
    /// `(check-sat)`.
    CheckSat,
    /// `(check-sat-assuming (A...))`.
    CheckSatAssuming(Vec<Sexp>),
    /// `(get-unsat-core)`.
    GetUnsatCore,
    /// `(get-info KEY)`.
    GetInfo(String),
    /// `(get-model)`.
    GetModel,
    /// `(get-proof)`.
    GetProof,
    /// `(get-value (T...))`.
    GetValue(Vec<Sexp>),
    /// `(exit)`.
    Exit,
}

/// The printed forms of `items` separated by single spaces.
pub open spec fn joined(items: Seq<Sexp>) -> Seq<char> {
    items_text(views(items), views(items).len())
}

/// The text sent for a command: the command on one line.
pub open spec fn command_text(c: &Command) -> Seq<char> {
    match c {
        Command::Push => "(push 1)\n"@,
        Command::Pop(n) => "(pop "@ + nat_decimal(*n as nat) + ")\n"@,
        Command::SetLogic(l) => "(set-logic "@ + l@ + ")\n"@,
        Command::SetOption(k, v) => "(set-option "@ + k@ + seq![' '] + sexp_text(v@) + ")\n"@,
        Command::DeclareConst(n, s) => "(declare-const "@ + n@ + seq![' '] + sexp_text(s@)
            + ")\n"@,
        Command::Assert(t) => "(assert "@ + sexp_text(t@) + ")\n"@,
        Command::CheckSat => "(check-sat)\n"@,
        Command::CheckSatAssuming(a) => "(check-sat-assuming ("@ + joined(a@) + "))\n"@,
        Command::GetUnsatCore => "(get-unsat-core)\n"@,
        Command::GetInfo(k) => "(get-info "@ + k@ + ")\n"@,
        Command::GetModel => "(get-model)\n"@,
        Command::GetProof => "(get-proof)\n"@,
        Command::GetValue(ts) => "(get-value ("@ + joined(ts@) + "))\n"@,
        Command::Exit => "(exit)\n"@,
    }
}

fn push_joined(out: &mut String, items: &Vec<Sexp>)
    ensures
        final(out)@ == old(out)@ + joined(items@),
{
    proof {
        lemma_views(items@);
    }
    let ghost vs = views(items@);
    let ghost start = out@;
    let mut i: usize = 0;
    while i < items.len()
        invariant
            vs == views(items@),
            vs.len() == items@.len(),
            forall|k: int| 0 <= k < vs.len() ==> #[trigger] vs[k] == items@[k]@,
            0 <= i <= items@.len(),
            out@ == start + items_text(vs, i as nat),
        decreases items@.len() - i,
    {
        if i > 0 {
            push_char(out, ' ');
        }
        let s = items[i].to_string();
        push_str(out, s.as_str());
        proof {
            if i == 0 {
                assert(items_text(vs, 1) == sexp_text(vs[0]));
                assert(items_text(vs, 0) =~= Seq::<char>::empty());
            }
            assert(out@ =~= start + items_text(vs, (i + 1) as nat));
        }
        i = i + 1;
    }
}

fn push_sexp(out: &mut String, x: &Sexp)
    ensures
        final(out)@ == old(out)@ + sexp_text(x@),
{
    let s = x.to_string();
    push_str(out, s.as_str());
}

impl Command {
    /// The text to send for this command.
    pub fn text(&self) -> (r: String)
        ensures
            r@ == command_text(self),
    {
        let mut out = String::new();
        match self {
            Command::Push => push_str(&mut out, "(push 1)\n"),
            Command::Pop(n) => {
                push_str(&mut out, "(pop ");
                push_decimal(&mut out, *n as u64);
                push_str(&mut out, ")\n");
            },
            Command::SetLogic(l) => {
                push_str(&mut out, "(set-logic ");
                push_str(&mut out, l.as_str());
                push_str(&mut out, ")\n");
            },
            Command::SetOption(k, v) => {
                push_str(&mut out, "(set-option ");
                push_str(&mut out, k.as_str());
                push_char(&mut out, ' ');
                push_sexp(&mut out, v);
                push_str(&mut out, ")\n");
            },
            Command::DeclareConst(n, s) => {
                push_str(&mut out, "(declare-const ");
                push_str(&mut out, n.as_str());
                push_char(&mut out, ' ');
                push_sexp(&mut out, s);
                push_str(&mut out, ")\n");
            },
            Command::Assert(t) => {
                push_str(&mut out, "(assert ");
                push_sexp(&mut out, t);
                push_str(&mut out, ")\n");
            },
            Command::CheckSat => push_str(&mut out, "(check-sat)\n"),
            Command::CheckSatAssuming(a) => {
                push_str(&mut out, "(check-sat-assuming (");
                push_joined(&mut out, a);
                push_str(&mut out, "))\n");
            },
            Command::GetUnsatCore => push_str(&mut out, "(get-unsat-core)\n"),
            Command::GetInfo(k) => {
                push_str(&mut out, "(get-info ");
                push_str(&mut out, k.as_str());
                push_str(&mut out, ")\n");
            },
            Command::GetModel => push_str(&mut out, "(get-model)\n"),
            Command::GetProof => push_str(&mut out, "(get-proof)\n"),
            Command::GetValue(ts) => {
                push_str(&mut out, "(get-value (");
                push_joined(&mut out, ts);
                push_str(&mut out, "))\n");
            },
            Command::Exit => push_str(&mut out, "(exit)\n"),
        }
        proof {
            assert(out@ =~= command_text(self));
        }
        out
    }

    /// `(set-option KEY true|false)`.
    pub fn set_bool_option(key: &str, enabled: bool) -> (r: Command)
        ensures
            r matches Command::SetOption(k, v) && k@ == key@ && v@ == SexpView::Atom(
                crate::emit::bool_text(enabled),
            ),
    {
        Command::SetOption(key.to_owned(), crate::emit::bool_atom(enabled))
    }

    /// `(set-option :produce-models true|false)`.
    pub fn set_produce_models(enabled: bool) -> (r: Command)
        ensures
            r matches Command::SetOption(k, v) && k@ == ":produce-models"@ && v@ == SexpView::Atom(
                crate::emit::bool_text(enabled),
            ),
    {
        Self::set_bool_option(":produce-models", enabled)
    }

    /// `(set-option :produce-unsat-cores true|false)`.
    pub fn set_produce_unsat_cores(enabled: bool) -> (r: Command)
        ensures
            r matches Command::SetOption(k, v) && k@ == ":produce-unsat-cores"@ && v@
                == SexpView::Atom(crate::emit::bool_text(enabled)),
    {
        Self::set_bool_option(":produce-unsat-cores", enabled)
    }

    /// `(set-option :produce-proofs true|false)`.
    pub fn set_produce_proofs(enabled: bool) -> (r: Command)
        ensures
            r matches Command::SetOption(k, v) && k@ == ":produce-proofs"@ && v@ == SexpView::Atom(
                crate::emit::bool_text(enabled),
            ),
    {
        Self::set_bool_option(":produce-proofs", enabled)
    }

    /// `(set-option :print-success true|false)`.
    pub fn set_print_success(enabled: bool) -> (r: Command)
        ensures
            r matches Command::SetOption(k, v) && k@ == ":print-success"@ && v@ == SexpView::Atom(
                crate::emit::bool_text(enabled),
            ),
    {
        Self::set_bool_option(":print-success", enabled)
    }

    /// `(set-option :timeout MS)`.
    pub fn set_timeout_ms(ms: u64) -> (r: Command)
        ensures
            r matches Command::SetOption(k, v) && k@ == ":timeout"@ && v@ == SexpView::Atom(
                nat_decimal(ms as nat),
            ),
    {
        Command::SetOption(":timeout".to_owned(), crate::emit::nat_atom(ms))
    }

    /// `(set-option :random-seed SEED)`.
    pub fn set_random_seed(seed: u64) -> (r: Command)
        ensures
            r matches Command::SetOption(k, v) && k@ == ":random-seed"@ && v@ == SexpView::Atom(
                nat_decimal(seed as nat),
            ),
    {
        Command::SetOption(":random-seed".to_owned(), crate::emit::nat_atom(seed))
    }

    /// Whether the solver answers this command with a response that must be read.
    pub open spec fn spec_expects_response(&self) -> bool {
        match self {
            Command::CheckSat | Command::CheckSatAssuming(_) | Command::GetUnsatCore
            | Command::GetInfo(_) | Command::GetModel | Command::GetProof | Command::GetValue(_) => true,
            _ => false,
        }
    }

    /// Whether the solver answers this command with a response that must be read.
    pub fn expects_response(&self) -> (r: bool)
        ensures
            r == self.spec_expects_response(),
    {
        match self {
            Command::CheckSat | Command::CheckSatAssuming(_) | Command::GetUnsatCore
            | Command::GetInfo(_) | Command::GetModel | Command::GetProof | Command::GetValue(_) => true,
            _ => false,
        }
    }
}

// ----- Reading responses -----

/// Whether a line read while waiting for a status carries nothing: empty after trimming, or
/// solver chatter (`success`, `unsupported`, `(error ...)`, `(warning ...)`, `(unsupported ...)`).
pub open spec fn is_skipped_status_line(line: Seq<char>) -> bool {
    trim(line).len() == 0 || is_errorish(line)
}

/// What a line read while waiting for a status line gives: nothing (keep reading) or the
/// trimmed line.
pub fn status_line_content(line: &str) -> (r: Option<String>)
    ensures
        is_skipped_status_line(line@) ==> r is None,
        !is_skipped_status_line(line@) ==> (r matches Some(t) && t@ == trim(line@)),
{
    let cs = chars_of(line);
    let (a, b) = trim_bounds(cs.as_slice());
    if a == b || is_errorish_line(line) {
        return None;
    }
    let mut t = String::new();
    push_chars(&mut t, &cs.as_slice()[a..b]);
    Some(t)
}

/// The status a status line names: `sat`, `unsat` or `unknown`.
pub open spec fn spec_status(line: Seq<char>) -> Option<Status> {
    if line == "sat"@ {
        Some(Status::Sat)
    } else if line == "unsat"@ {
        Some(Status::Unsat)
    } else if line == "unknown"@ {
        Some(Status::Unknown)
    } else {
        None
    }
}

/// The answer to `(check-sat)` or `(check-sat-assuming ...)` that a status line gives.
pub fn status_from_line(line: &str) -> (r: Result<Status, SessionError>)
    ensures
        spec_status(line@) matches Some(s) ==> r == Ok::<Status, SessionError>(s),
        spec_status(line@) is None ==> (r matches Err(SessionError::UnknownStatus(t)) && t@
            == line@),
{
    let cs = chars_of(line);
    let s = cs.as_slice();
    if chars_eq(s, "sat") {
        Ok(Status::Sat)
    } else if chars_eq(s, "unsat") {
        Ok(Status::Unsat)
    } else if chars_eq(s, "unknown") {
        Ok(Status::Unknown)
    } else {
        Err(SessionError::UnknownStatus(line.to_owned()))
    }
}

/// The s-expression that a response text holds, or the parse failure.
pub fn parse_response(text: &str) -> (r: Result<Sexp, SessionError>)
    ensures
        spec_parse_one(text@) matches Ok(v) ==> (r matches Ok(x) && x@ == v),
        spec_parse_one(text@) matches Err(e) ==> (r matches Err(SessionError::Parse(e2)) && e2 == e),
{
    match parse_one(text) {
        Ok(x) => Ok(x),
        Err(e) => Err(SessionError::Parse(e)),
    }
}

// ----- Reading one balanced response, line by line -----

/// The scanner state after reading `s[i..]` of a line: parentheses outside string literals
/// and bar-quoted symbols change the depth, an opening one marks the response as started,
/// and a `;` ends what counts on the line.
pub open spec fn scan_line(s: Seq<char>, i: nat, depth: int, started: bool, st: ScanState) -> (
    int,
    bool,
    ScanState,
)
    decreases s.len() - i,
{
    if i >= s.len() {
        (depth, started, st)
    } else {
        let b = s[i as int];
        match st {
            ScanState::Normal => if b == ';' {
                (depth, started, st)
            } else if b == '"' {
                scan_line(s, i + 1, depth, started, ScanState::InString)
            } else if b == '|' {
                scan_line(s, i + 1, depth, started, ScanState::InBarSymbol)
            } else if b == '(' {
                scan_line(s, i + 1, depth + 1, true, ScanState::Normal)
            } else if b == ')' {
                scan_line(s, i + 1, depth - 1, started, ScanState::Normal)
            } else {
                scan_line(s, i + 1, depth, started, ScanState::Normal)
            },
            ScanState::InString => if b == '\\' {
                if i + 1 < s.len() {
                    scan_line(s, i + 2, depth, started, ScanState::InString)
                } else {
                    (depth, started, ScanState::InString)
                }
            } else if b == '"' {
                if i + 1 < s.len() && s[i + 1int] == '"' {
                    scan_line(s, i + 2, depth, started, ScanState::InString)
                } else {
                    scan_line(s, i + 1, depth, started, ScanState::Normal)
                }
            } else {
                scan_line(s, i + 1, depth, started, ScanState::InString)
            },
            ScanState::InBarSymbol => if b == '|' {
                if i + 1 < s.len() && s[i + 1int] == '|' {
                    scan_line(s, i + 2, depth, started, ScanState::InBarSymbol)
                } else {
                    scan_line(s, i + 1, depth, started, ScanState::Normal)
                }
            } else {
                scan_line(s, i + 1, depth, started, ScanState::InBarSymbol)
            },
        }
    }
}

pub proof fn lemma_scan_line_depth(s: Seq<char>, i: nat, depth: int, started: bool, st: ScanState)
    ensures
        depth - (s.len() - i) <= scan_line(s, i, depth, started, st).0 <= depth + (s.len() - i)
            || i > s.len(),
    decreases s.len() - i,
{
    if i < s.len() {
        let b = s[i as int];
        match st {
            ScanState::Normal => {
                if b != ';' {
                    let d = if b == '(' { depth + 1 } else if b == ')' { depth - 1 } else { depth };
                    let st2 = if b == '"' { ScanState::InString } else if b == '|' { ScanState::InBarSymbol } else { ScanState::Normal };
                    lemma_scan_line_depth(s, i + 1, d, started || b == '(', st2);
                }
            },
            ScanState::InString => {
                if b == '\\' {
                    if i + 1 < s.len() {
                        lemma_scan_line_depth(s, i + 2, depth, started, ScanState::InString);
                    }
                } else if b == '"' && i + 1 < s.len() && s[i + 1int] == '"' {
                    lemma_scan_line_depth(s, i + 2, depth, started, ScanState::InString);
                } else if b == '"' {
                    lemma_scan_line_depth(s, i + 1, depth, started, ScanState::Normal);
                } else {
                    lemma_scan_line_depth(s, i + 1, depth, started, ScanState::InString);
                }
            },
            ScanState::InBarSymbol => {
                if b == '|' && i + 1 < s.len() && s[i + 1int] == '|' {
                    lemma_scan_line_depth(s, i + 2, depth, started, ScanState::InBarSymbol);
                } else if b == '|' {
                    lemma_scan_line_depth(s, i + 1, depth, started, ScanState::Normal);
                } else {
                    lemma_scan_line_depth(s, i + 1, depth, started, ScanState::InBarSymbol);
                }
            },
        }
    }
}

/// Reads one response that may span several lines: a parenthesized response is complete
/// when its parentheses balance; an atom response is one line.
#[derive(Debug)]
pub struct ResponseReader {
    buf: String,
    depth: i64,
    started: bool,
    state: ScanState,
}

/// What feeding one line gives: keep reading, or the complete response.
pub open spec fn feed_result(
    buf: Seq<char>,
    depth: int,
    started: bool,
    st: ScanState,
    line: Seq<char>,
) -> (Option<Seq<char>>, (Seq<char>, int, bool, ScanState)) {
    let t = trim(line);
    if !started && (t.len() == 0 || t == "success"@) {
        (None, (buf, depth, started, st))
    } else if !started && t[0] != '(' {
        (Some(t + seq!['\n']), (buf, depth, started, st))
    } else {
        let r = scan_line(line, 0, depth, started, st);
        let b2 = buf + line;
        (if r.1 && r.0 == 0 { Some(b2) } else { None }, (b2, r.0, r.1, r.2))
    }
}

impl ResponseReader {
    /// The text read so far.
    pub closed spec fn spec_buf(&self) -> Seq<char> {
        self.buf@
    }

    /// The nesting depth so far.
    pub closed spec fn spec_depth(&self) -> int {
        self.depth as int
    }

    /// Whether an opening parenthesis was read.
    pub closed spec fn spec_started(&self) -> bool {
        self.started
    }

    /// The scanner state at the end of the text read so far.
    pub closed spec fn spec_state(&self) -> ScanState {
        self.state
    }

    pub fn new() -> (r: Self)
        ensures
            r.spec_buf() == Seq::<char>::empty(),
            r.spec_depth() == 0,
            !r.spec_started(),
            r.spec_state() == ScanState::Normal,
    {
        ResponseReader { buf: String::new(), depth: 0, started: false, state: ScanState::Normal }
    }

    /// The depth cannot leave the range of `i64` while `line` is read.
    pub open spec fn can_feed_spec(&self, line: Seq<char>) -> bool {
        i64::MIN + line.len() <= self.spec_depth() <= i64::MAX - line.len()
    }

    pub fn can_feed(&self, line: &str) -> (r: bool)
        ensures
            r == self.can_feed_spec(line@),
    {
        let n = chars_of(line).len() as i128;
        let d = self.depth as i128;
        d >= (i64::MIN as i128) + n && d <= (i64::MAX as i128) - n
    }

    /// Feeds one line (with its newline) read from the solver.
    pub fn feed(&mut self, line: &str) -> (r: Option<String>)
        requires
            old(self).can_feed_spec(line@),
        ensures
            ({
                let f = feed_result(
                    old(self).spec_buf(),
                    old(self).spec_depth(),
                    old(self).spec_started(),
                    old(self).spec_state(),
                    line@,
                );
                &&& (match f.0 {
                    Some(x) => r matches Some(y) && y@ == x,
                    None => r is None,
                })
                &&& final(self).spec_buf() == f.1.0
                &&& final(self).spec_depth() == f.1.1
                &&& final(self).spec_started() == f.1.2
                &&& final(self).spec_state() == f.1.3
            }),
    {
        let cv = chars_of(line);
        let s = cv.as_slice();
        let n = s.len();
        if !self.started {
            let (a, b) = trim_bounds(s);
            let t = &s[a..b];
            assert(t@ == trim(s@));
            if a == b || chars_eq(t, "success") {
                return None;
            }
            if t[0] != '(' {
                let mut out = String::new();
                push_chars(&mut out, t);
                push_char(&mut out, '\n');
                return Some(out);
            }
        }
        proof {
            lemma_scan_line_depth(s@, 0, self.depth as int, self.started, self.state);
        }
        let ghost target = scan_line(s@, 0, self.depth as int, self.started, self.state);
        let mut i: usize = 0;
        let mut depth = self.depth;
        let mut started = self.started;
        let mut st = self.state;
        let ghost d0 = self.depth as int;
        while i < n
            invariant
                n == s@.len(),
                0 <= i <= n,
                i64::MIN + n <= d0 <= i64::MAX - n,
                d0 - i <= depth <= d0 + i,
                target == scan_line(s@, i as nat, depth as int, started, st),
            ensures
                target == (depth as int, started, st),
            decreases n - i,
        {
            let b = s[i];
            match st {
                ScanState::Normal => {
                    if b == ';' {
                        break;
                    }
                    if b == '"' {
                        st = ScanState::InString;
                    } else if b == '|' {
                        st = ScanState::InBarSymbol;
                    } else if b == '(' {
                        depth = depth + 1;
                        started = true;
                    } else if b == ')' {
                        depth = depth - 1;
                    }
                    i = i + 1;
                },
                ScanState::InString => {
                    if b == '\\' {
                        if i + 1 < n {
                            i = i + 2;
                        } else {
                            break;
                        }
                    } else if b == '"' {
                        if i + 1 < n && s[i + 1] == '"' {
                            i = i + 2;
                        } else {
                            st = ScanState::Normal;
                            i = i + 1;
                        }
                    } else {
                        i = i + 1;
                    }
                },
                ScanState::InBarSymbol => {
                    if b == '|' {
                        if i + 1 < n && s[i + 1] == '|' {
                            i = i + 2;
                        } else {
                            st = ScanState::Normal;
                            i = i + 1;
                        }
                    } else {
                        i = i + 1;
                    }
                },
            }
        }
        self.depth = depth;
        self.started = started;
        self.state = st;
        push_str(&mut self.buf, line);
        if started && depth == 0 {
            let mut out = String::new();
            push_str(&mut out, self.buf.as_str());
            Some(out)
        } else {
            None
        }
    }
}

// ----- The capability probe -----

/// A solver response that signals a failure: an atom `unsupported`, `unknown` or `error...`,
/// or a list headed by `error`, `unsupported` or `warning`.
pub open spec fn spec_is_errorish_response(v: SexpView) -> bool {
    match v {
        SexpView::Atom(a) => {
            let t = trim(a);
            t == "unsupported"@ || t == "unknown"@ || crate::solver::starts_with(t, "error"@)
        },
        SexpView::List(items) => items.len() > 0 && (items[0] matches SexpView::Atom(h) && (h
            == "error"@ || h == "unsupported"@ || h == "warning"@)),
    }
}

pub fn is_errorish_response(x: &Sexp) -> (r: bool)
    ensures
        r == spec_is_errorish_response(x@),
{
    match x {
        Sexp::Atom(a) => {
            let cs = chars_of(a.as_str());
            let (p, q) = trim_bounds(cs.as_slice());
            let t = &cs.as_slice()[p..q];
            chars_eq(t, "unsupported") || chars_eq(t, "unknown") || crate::text::chars_start_with(
                t,
                "error",
            )
        },
        Sexp::List(items) => {
            proof {
                lemma_views(items@);
            }
            if items.len() == 0 {
                return false;
            }
            match &items[0] {
                Sexp::Atom(h) => {
                    let cs = chars_of(h.as_str());
                    let hs = cs.as_slice();
                    chars_eq(hs, "error") || chars_eq(hs, "unsupported") || chars_eq(hs, "warning")
                },
                _ => false,
            }
        },
    }
}

/// The core lists the assertion named `h0`.
pub open spec fn spec_core_names_h0(core: SexpView) -> bool {
    core matches SexpView::List(items) && exists|i: int|
        0 <= i < items.len() && items[i] == SexpView::Atom("h0"@)
}

pub fn core_names_h0(core: &Sexp) -> (r: bool)
    ensures
        r == spec_core_names_h0(core@),
{
    match core {
        Sexp::List(items) => {
            proof {
                lemma_views(items@);
            }
            let ghost vs = views(items@);
            let mut i: usize = 0;
            while i < items.len()
                invariant
                    core@ == SexpView::List(vs),
                    vs == views(items@),
                    vs.len() == items@.len(),
                    forall|k: int| 0 <= k < vs.len() ==> #[trigger] vs[k] == items@[k]@,
                    0 <= i <= items@.len(),
                    forall|k: int| 0 <= k < i ==> vs[k] != SexpView::Atom("h0"@),
                decreases items@.len() - i,
            {
                match &items[i] {
                    Sexp::Atom(a) => {
                        let cs = chars_of(a.as_str());
                        if chars_eq(cs.as_slice(), "h0") {
                            assert(vs[i as int] == SexpView::Atom("h0"@));
                            return true;
                        }
                    },
                    _ => {},
                }
                i = i + 1;
            }
            false
        },
        _ => false,
    }
}

/// Where the probe stands: the command it sends next.
#[derive(Clone, Copy, Debug, PartialEq, Eq, Structural)]
pub enum ProbeStep {
    CheckSatAssuming,
    ModelPrintSuccess,
    ModelProduce,
    ModelPush,
    ModelAssert,
    ModelCheck,
    ModelGet,
    ModelPop,
    CoreProduce,
    CorePush,
    CoreAssert,
    CoreCheck,
    CoreGet,
    CorePop,
    ProofProduce,
    ProofPush,
    ProofAssert,
    ProofCheck,
    ProofGet,
    ProofPop,
    Finished,
}

/// What happened to the command the probe sent.
#[derive(Debug)]
pub enum ProbeEvent {
    /// The command failed (I/O, parse or protocol error).
    Failed,
    /// A command without response was sent.
    Sent,
    /// A check returned this status.
    Status(Status),
    /// A `(get-...)` command returned this response.
    Response(Sexp),
}

/// The best-effort probe of solver capabilities: a fixed sequence of tiny commands, each
/// part isolated by `push`/`pop`, where any failure means "capability not available".
#[derive(Debug)]
pub struct Probe {
    pub step: ProbeStep,
    pub caps: Capabilities,
}

/// The command sent at each step.
pub open spec fn probe_command(step: ProbeStep) -> Option<Seq<char>> {
    match step {
        ProbeStep::CheckSatAssuming => Some("(check-sat-assuming ("@ + "))\n"@),
        ProbeStep::ModelPrintSuccess => Some(
            "(set-option "@ + ":print-success"@ + seq![' '] + "false"@ + ")\n"@,
        ),
        ProbeStep::ModelProduce => Some(
            "(set-option "@ + ":produce-models"@ + seq![' '] + "true"@ + ")\n"@,
        ),
        ProbeStep::ModelPush | ProbeStep::CorePush | ProbeStep::ProofPush => Some("(push 1)\n"@),
        ProbeStep::ModelAssert => Some("(assert "@ + "true"@ + ")\n"@),
        ProbeStep::ModelCheck | ProbeStep::CoreCheck | ProbeStep::ProofCheck => Some(
            "(check-sat)\n"@,
        ),
        ProbeStep::ModelGet => Some("(get-model)\n"@),
        ProbeStep::ModelPop | ProbeStep::CorePop | ProbeStep::ProofPop => Some(
            "(pop "@ + seq!['1'] + ")\n"@,
        ),
        ProbeStep::CoreProduce => Some(
            "(set-option "@ + ":produce-unsat-cores"@ + seq![' '] + "true"@ + ")\n"@,
        ),
        ProbeStep::CoreAssert => Some(
            "(assert "@ + sexp_text(
                SexpView::List(
                    seq![
                        SexpView::Atom("!"@),
                        SexpView::Atom("false"@),
                        SexpView::Atom(":named"@),
                        SexpView::Atom("h0"@),
                    ],
                ),
            ) + ")\n"@,
        ),
        ProbeStep::CoreGet => Some("(get-unsat-core)\n"@),
        ProbeStep::ProofProduce => Some(
            "(set-option "@ + ":produce-proofs"@ + seq![' '] + "true"@ + ")\n"@,
        ),
        ProbeStep::ProofAssert => Some("(assert "@ + "false"@ + ")\n"@),
        ProbeStep::ProofGet => Some("(get-proof)\n"@),
        ProbeStep::Finished => None,
    }
}

/// The probe's transition: the next step and the capabilities after `ev` answered the
/// command of `step`.
pub open spec fn probe_transition(step: ProbeStep, caps: Capabilities, ev: &ProbeEvent) -> (
    ProbeStep,
    Capabilities,
) {
    let failed = ev is Failed;
    match step {
        ProbeStep::CheckSatAssuming => (
            ProbeStep::ModelPrintSuccess,
            Capabilities { check_sat_assuming: ev is Status, ..caps },
        ),
        ProbeStep::ModelPrintSuccess => (ProbeStep::ModelProduce, caps),
        ProbeStep::ModelProduce => (ProbeStep::ModelPush, caps),
        ProbeStep::ModelPush => (
            if failed {
                ProbeStep::CoreProduce
            } else {
                ProbeStep::ModelAssert
            },
            caps,
        ),
        ProbeStep::ModelAssert => (ProbeStep::ModelCheck, caps),
        ProbeStep::ModelCheck => (
            if ev matches ProbeEvent::Status(Status::Sat) {
                ProbeStep::ModelGet
            } else {
                ProbeStep::ModelPop
            },
            caps,
        ),
        ProbeStep::ModelGet => (
            ProbeStep::ModelPop,
            Capabilities { get_model: ev is Response, ..caps },
        ),
        ProbeStep::ModelPop => (ProbeStep::CoreProduce, caps),
        ProbeStep::CoreProduce => (ProbeStep::CorePush, caps),
        ProbeStep::CorePush => (
            if failed {
                ProbeStep::ProofProduce
            } else {
                ProbeStep::CoreAssert
            },
            caps,
        ),
        ProbeStep::CoreAssert => (ProbeStep::CoreCheck, caps),
        ProbeStep::CoreCheck => (
            if ev matches ProbeEvent::Status(Status::Unsat) {
                ProbeStep::CoreGet
            } else {
                ProbeStep::CorePop
            },
            caps,
        ),
        ProbeStep::CoreGet => (
            ProbeStep::CorePop,
            match ev {
                ProbeEvent::Response(core) => Capabilities {
                    get_unsat_core: true,
                    named_assertions_in_core: if core@ is List {
                        spec_core_names_h0(core@)
                    } else {
                        caps.named_assertions_in_core
                    },
                    ..caps
                },
                _ => caps,
            },
        ),
        ProbeStep::CorePop => (ProbeStep::ProofProduce, caps),
        ProbeStep::ProofProduce => (ProbeStep::ProofPush, caps),
        ProbeStep::ProofPush => (
            if failed {
                ProbeStep::Finished
            } else {
                ProbeStep::ProofAssert
            },
            caps,
        ),
        ProbeStep::ProofAssert => (ProbeStep::ProofCheck, caps),
        ProbeStep::ProofCheck => (
            if ev matches ProbeEvent::Status(Status::Unsat) {
                ProbeStep::ProofGet
            } else {
                ProbeStep::ProofPop
            },
            caps,
        ),
        ProbeStep::ProofGet => (
            ProbeStep::ProofPop,
            match ev {
                ProbeEvent::Response(pf) => if !spec_is_errorish_response(pf@) {
                    Capabilities { get_proof: true, ..caps }
                } else {
                    caps
                },
                _ => caps,
            },
        ),
        ProbeStep::ProofPop => (ProbeStep::Finished, caps),
        ProbeStep::Finished => (ProbeStep::Finished, caps),
    }
}

/// The position of a step in the probe's fixed order.
pub open spec fn step_rank(step: ProbeStep) -> nat {
    match step {
        ProbeStep::CheckSatAssuming => 0,
        ProbeStep::ModelPrintSuccess => 1,
        ProbeStep::ModelProduce => 2,
        ProbeStep::ModelPush => 3,
        ProbeStep::ModelAssert => 4,
        ProbeStep::ModelCheck => 5,
        ProbeStep::ModelGet => 6,
        ProbeStep::ModelPop => 7,
        ProbeStep::CoreProduce => 8,
        ProbeStep::CorePush => 9,
        ProbeStep::CoreAssert => 10,
        ProbeStep::CoreCheck => 11,
        ProbeStep::CoreGet => 12,
        ProbeStep::CorePop => 13,
        ProbeStep::ProofProduce => 14,
        ProbeStep::ProofPush => 15,
        ProbeStep::ProofAssert => 16,
        ProbeStep::ProofCheck => 17,
        ProbeStep::ProofGet => 18,
        ProbeStep::ProofPop => 19,
        ProbeStep::Finished => 20,
    }
}

/// Every capability of `a` is one of `b`.
pub open spec fn caps_within(a: Capabilities, b: Capabilities) -> bool {
    &&& a.check_sat_assuming ==> b.check_sat_assuming
    &&& a.get_model ==> b.get_model
    &&& a.get_unsat_core ==> b.get_unsat_core
    &&& a.get_proof ==> b.get_proof
    &&& a.named_assertions_in_core ==> b.named_assertions_in_core
}

/// Whether the core names `h0` is learnt at the core step alone: when the answer to
/// `(get-unsat-core)` is a list, the capability holds exactly when the atom `h0` is among its
/// items; any other answer leaves it as it was, and so does every other step.
pub proof fn law_core_must_name_h0(step: ProbeStep, caps: Capabilities, ev: &ProbeEvent)
    ensures
        step != ProbeStep::CoreGet ==> probe_transition(step, caps, ev).1.named_assertions_in_core
            == caps.named_assertions_in_core,
        step == ProbeStep::CoreGet ==> match ev {
            ProbeEvent::Response(core) => match core@ {
                SexpView::List(items) => probe_transition(step, caps, ev).1.named_assertions_in_core
                    <==> exists|i: int| 0 <= i < items.len() && #[trigger] items[i] == SexpView::Atom("h0"@),
                _ => probe_transition(step, caps, ev).1.named_assertions_in_core == caps.named_assertions_in_core,
            },
            _ => probe_transition(step, caps, ev).1.named_assertions_in_core == caps.named_assertions_in_core,
        },
{
}

/// The probe grants each capability only at the step that tests it, and a failed command
/// grants none.
pub proof fn law_probe_grants(step: ProbeStep, caps: Capabilities, ev: &ProbeEvent)
    ensures
        ({
            let next = probe_transition(step, caps, ev).1;
            &&& next.check_sat_assuming != caps.check_sat_assuming ==> step == ProbeStep::CheckSatAssuming
            &&& next.get_model != caps.get_model ==> step == ProbeStep::ModelGet
            &&& next.get_unsat_core != caps.get_unsat_core ==> step == ProbeStep::CoreGet
            &&& next.named_assertions_in_core != caps.named_assertions_in_core ==> step == ProbeStep::CoreGet
            &&& next.get_proof != caps.get_proof ==> step == ProbeStep::ProofGet
            &&& ev is Failed ==> caps_within(next, caps)
            &&& step == ProbeStep::CheckSatAssuming ==> (next.check_sat_assuming <==> ev is Status)
            &&& step == ProbeStep::ModelGet ==> (next.get_model <==> ev is Response)
            &&& step == ProbeStep::CoreGet ==> (next.get_unsat_core <==> (caps.get_unsat_core || ev is Response))
        }),
{
}

/// The probe always moves forward: whatever the answer, the next step comes later in the
/// fixed order, until it is finished; so it sends at most twenty commands.
pub proof fn law_probe_moves_forward(step: ProbeStep, caps: Capabilities, ev: &ProbeEvent)
    requires
        step != ProbeStep::Finished,
    ensures
        step_rank(probe_transition(step, caps, ev).0) > step_rank(step),
        step_rank(probe_transition(step, caps, ev).0) <= 20,
{
}

/// The part of the probe (0: models, 1: unsat cores, 2: proofs) whose scope a step is
/// inside: after the part's `push` succeeded and before its `pop`.
pub open spec fn inside_scope(step: ProbeStep) -> Option<nat> {
    match step {
        ProbeStep::ModelAssert | ProbeStep::ModelCheck | ProbeStep::ModelGet => Some(0),
        ProbeStep::CoreAssert | ProbeStep::CoreCheck | ProbeStep::CoreGet => Some(1),
        ProbeStep::ProofAssert | ProbeStep::ProofCheck | ProbeStep::ProofGet => Some(2),
        _ => None,
    }
}

/// The `pop` that closes a part's scope.
pub open spec fn scope_pop(part: nat) -> ProbeStep {
    if part == 0 {
        ProbeStep::ModelPop
    } else if part == 1 {
        ProbeStep::CorePop
    } else {
        ProbeStep::ProofPop
    }
}

/// Each part isolates its checks: once its `push` succeeded, whatever the answers, the probe
/// stays inside the part until it sends the part's `pop`.
pub proof fn law_scopes_end_with_pop(step: ProbeStep, caps: Capabilities, ev: &ProbeEvent)
    ensures
        (step == ProbeStep::ModelPush && !(ev is Failed)) ==> inside_scope(
            probe_transition(step, caps, ev).0,
        ) == Some(0nat),
        (step == ProbeStep::CorePush && !(ev is Failed)) ==> inside_scope(
            probe_transition(step, caps, ev).0,
        ) == Some(1nat),
        (step == ProbeStep::ProofPush && !(ev is Failed)) ==> inside_scope(
            probe_transition(step, caps, ev).0,
        ) == Some(2nat),
        inside_scope(step) matches Some(k) ==> {
            let next = probe_transition(step, caps, ev).0;
            inside_scope(next) == Some(k) || next == scope_pop(k)
        },
{
}

/// A command that failed never makes a capability available.
pub proof fn law_failure_grants_nothing(step: ProbeStep, caps: Capabilities)
    ensures
        caps_within(probe_transition(step, caps, &ProbeEvent::Failed).1, caps),
{
}

impl Probe {
    pub fn new() -> (r: Self)
        ensures
            r.step == ProbeStep::CheckSatAssuming,
            r.caps == (Capabilities {
                check_sat_assuming: false,
                get_model: false,
                get_unsat_core: false,
                get_proof: false,
                named_assertions_in_core: false,
            }),
    {
        Probe { step: ProbeStep::CheckSatAssuming, caps: Capabilities::default() }
    }

    /// The command to send next, or `None` when the probe is finished.
    pub fn next_command(&self) -> (r: Option<Command>)
        ensures
            match probe_command(self.step) {
                Some(t) => r matches Some(c) && command_text(&c) == t,
                None => r is None,
            },
    {
        let c = match self.step {
            ProbeStep::CheckSatAssuming => {
                let c = Command::CheckSatAssuming(Vec::new());
                assert(command_text(&c) =~= probe_command(self.step)->Some_0);
                c
            },
            ProbeStep::ModelPrintSuccess => {
                let c = Command::set_print_success(false);
                assert(command_text(&c) =~= probe_command(self.step)->Some_0);
                c
            },
            ProbeStep::ModelProduce => {
                let c = Command::set_produce_models(true);
                assert(command_text(&c) =~= probe_command(self.step)->Some_0);
                c
            },
            ProbeStep::ModelPush | ProbeStep::CorePush | ProbeStep::ProofPush => {
                let c = Command::Push;
                assert(command_text(&c) =~= probe_command(self.step)->Some_0);
                c
            },
            ProbeStep::ModelAssert => {
                let c = Command::Assert(Sexp::atom("true"));
                assert(command_text(&c) =~= probe_command(self.step)->Some_0);
                c
            },
            ProbeStep::ModelCheck | ProbeStep::CoreCheck | ProbeStep::ProofCheck => {
                let c = Command::CheckSat;
                assert(command_text(&c) =~= probe_command(self.step)->Some_0);
                c
            },
            ProbeStep::ModelGet => {
                let c = Command::GetModel;
                assert(command_text(&c) =~= probe_command(self.step)->Some_0);
                c
            },
            ProbeStep::ModelPop | ProbeStep::CorePop | ProbeStep::ProofPop => {
                let c = Command::Pop(1);
                assert(command_text(&c) =~= probe_command(self.step)->Some_0);
                c
            },
            ProbeStep::CoreProduce => {
                let c = Command::set_produce_unsat_cores(true);
                assert(command_text(&c) =~= probe_command(self.step)->Some_0);
                c
            },
            ProbeStep::CoreAssert => {
                let items = vec![Sexp::atom("!"), Sexp::atom("false"), Sexp::atom(":named"), Sexp::atom("h0")];
                proof {
                    lemma_views(items@);
                    assert(views(items@) =~= seq![
                        SexpView::Atom("!"@),
                        SexpView::Atom("false"@),
                        SexpView::Atom(":named"@),
                        SexpView::Atom("h0"@),
                    ]);
                }
                let c = Command::Assert(Sexp::List(items));
                assert(command_text(&c) =~= probe_command(self.step)->Some_0);
                c
            },
            ProbeStep::CoreGet => {
                let c = Command::GetUnsatCore;
                assert(command_text(&c) =~= probe_command(self.step)->Some_0);
                c
            },
            ProbeStep::ProofProduce => {
                let c = Command::set_produce_proofs(true);
                assert(command_text(&c) =~= probe_command(self.step)->Some_0);
                c
            },
            ProbeStep::ProofAssert => {
                let c = Command::Assert(Sexp::atom("false"));
                assert(command_text(&c) =~= probe_command(self.step)->Some_0);
                c
            },
            ProbeStep::ProofGet => {
                let c = Command::GetProof;
                assert(command_text(&c) =~= probe_command(self.step)->Some_0);
                c
            },
            ProbeStep::Finished => {
                return None;
            },
        };
        proof {
            let e: Seq<Sexp> = Seq::empty();
            assert(views(e) =~= Seq::<SexpView>::empty());
            assert(nat_decimal(1) == seq!['1']);
        }
        assert(command_text(&c) =~= probe_command(self.step)->Some_0);
        Some(c)
    }

    /// Takes the answer to the command last sent.
    pub fn on_event(&mut self, ev: &ProbeEvent)
        ensures
            (final(self).step, final(self).caps) == probe_transition(old(self).step, old(self).caps, ev),
    {
        let failed = match ev {
            ProbeEvent::Failed => true,
            _ => false,
        };
        match self.step {
            ProbeStep::CheckSatAssuming => {
                self.caps.check_sat_assuming = match ev {
                    ProbeEvent::Status(_) => true,
                    _ => false,
                };
                self.step = ProbeStep::ModelPrintSuccess;
            },
            ProbeStep::ModelPrintSuccess => self.step = ProbeStep::ModelProduce,
            ProbeStep::ModelProduce => self.step = ProbeStep::ModelPush,
            ProbeStep::ModelPush => self.step = if failed { ProbeStep::CoreProduce } else { ProbeStep::ModelAssert },
            ProbeStep::ModelAssert => self.step = ProbeStep::ModelCheck,
            ProbeStep::ModelCheck => self.step = match ev {
                ProbeEvent::Status(Status::Sat) => ProbeStep::ModelGet,
                _ => ProbeStep::ModelPop,
            },
            ProbeStep::ModelGet => {
                self.caps.get_model = match ev {
                    ProbeEvent::Response(_) => true,
                    _ => false,
                };
                self.step = ProbeStep::ModelPop;
            },
            ProbeStep::ModelPop => self.step = ProbeStep::CoreProduce,
            ProbeStep::CoreProduce => self.step = ProbeStep::CorePush,
            ProbeStep::CorePush => self.step = if failed { ProbeStep::ProofProduce } else { ProbeStep::CoreAssert },
            ProbeStep::CoreAssert => self.step = ProbeStep::CoreCheck,
            ProbeStep::CoreCheck => self.step = match ev {
                ProbeEvent::Status(Status::Unsat) => ProbeStep::CoreGet,
                _ => ProbeStep::CorePop,
            },
            ProbeStep::CoreGet => {
                match ev {
                    ProbeEvent::Response(core) => {
                        self.caps.get_unsat_core = true;
                        match core {
                            Sexp::List(_) => {
                                self.caps.named_assertions_in_core = core_names_h0(core);
                            },
                            _ => {},
                        }
                    },
                    _ => {},
                }
                self.step = ProbeStep::CorePop;
            },
            ProbeStep::CorePop => self.step = ProbeStep::ProofProduce,
            ProbeStep::ProofProduce => self.step = ProbeStep::ProofPush,
            ProbeStep::ProofPush => self.step = if failed { ProbeStep::Finished } else { ProbeStep::ProofAssert },
            ProbeStep::ProofAssert => self.step = ProbeStep::ProofCheck,
            ProbeStep::ProofCheck => self.step = match ev {
                ProbeEvent::Status(Status::Unsat) => ProbeStep::ProofGet,
                _ => ProbeStep::ProofPop,
            },
            ProbeStep::ProofGet => {
                match ev {
                    ProbeEvent::Response(pf) => {
                        if !is_errorish_response(pf) {
                            self.caps.get_proof = true;
                        }
                    },
                    _ => {},
                }
                self.step = ProbeStep::ProofPop;
            },
            ProbeStep::ProofPop => self.step = ProbeStep::Finished,
            ProbeStep::Finished => {},
        }
    }
}

// ----- Starting a solver -----

/// The words that `shell_words::split` makes of a command line (POSIX shell rules), or
/// `None` when it reports a missing closing quote.
pub uninterp spec fn shell_split(s: Seq<char>) -> Option<Seq<Seq<char>>>;

/// The texts of a list of strings.
pub open spec fn words_view(ws: Seq<String>) -> Seq<Seq<char>> {
    ws.map_values(|w: String| w@)
}

/// `shell_words::split`: the words of a command line by POSIX shell rules (quotes,
/// backslash escapes, `#` comments); its error (a missing closing quote, a unit value)
/// becomes `None`. The claim is only that its result is a function of the text, named
/// `shell_split`.
#[verifier::external_body]
fn shell_split_exec(s: &str) -> (r: Option<Vec<String>>)
    ensures
        r is Some <==> shell_split(s@) is Some,
        r matches Some(v) ==> words_view(v@) == shell_split(s@)->Some_0,
{
    shell_words::split(s).ok()
}

/// The error reported when a command line cannot be used.
pub open spec fn is_cmdline_error(r: &Result<(String, Vec<String>), SessionError>, cmdline: Seq<char>, msg: Seq<char>) -> bool {
    r matches Err(SessionError::Spawn { cmd, source }) && cmd@ == cmdline && source.kind
        == IoErrorKind::InvalidInput && source.message@ == msg
}

/// Program and arguments of a command line, given its words (`None`: unbalanced quotes).
pub fn cmdline_parts(cmdline: &str, words: Option<Vec<String>>) -> (r: Result<
    (String, Vec<String>),
    SessionError,
>)
    ensures
        match words {
            None => is_cmdline_error(&r, cmdline@, "missing closing quote"@),
            Some(ws) => if ws@.len() == 0 {
                is_cmdline_error(&r, cmdline@, "empty command line"@)
            } else {
                r matches Ok((c, args)) && c@ == ws@[0]@ && words_view(args@) == words_view(
                    ws@,
                ).drop_first()
            },
        },
{
    match words {
        None => Err(
            SessionError::Spawn {
                cmd: cmdline.to_owned(),
                source: IoFailure {
                    kind: IoErrorKind::InvalidInput,
                    message: "missing closing quote".to_owned(),
                },
            },
        ),
        Some(mut ws) => {
            if ws.len() == 0 {
                return Err(
                    SessionError::Spawn {
                        cmd: cmdline.to_owned(),
                        source: IoFailure {
                            kind: IoErrorKind::InvalidInput,
                            message: "empty command line".to_owned(),
                        },
                    },
                );
            }
            let ghost orig = ws@;
            let first = ws.remove(0);
            proof {
                assert(words_view(ws@) =~= words_view(orig).drop_first());
            }
            Ok((first, ws))
        },
    }
}

/// Split a shell-like command line (e.g. `z3 -in -smt2`) into program and arguments.
pub fn split_cmdline(cmdline: &str) -> (r: Result<(String, Vec<String>), SessionError>)
    ensures
        match shell_split(cmdline@) {
            None => is_cmdline_error(&r, cmdline@, "missing closing quote"@),
            Some(ws) => if ws.len() == 0 {
                is_cmdline_error(&r, cmdline@, "empty command line"@)
            } else {
                r matches Ok((c, args)) && c@ == ws[0] && words_view(args@) == ws.drop_first()
            },
        },
{
    let words = shell_split_exec(cmdline);
    cmdline_parts(cmdline, words)
}

/// The program followed by its arguments, separated by single spaces.
pub open spec fn display_text(cmd: Seq<char>, args: Seq<Seq<char>>) -> Seq<char>
    decreases args.len(),
{
    if args.len() == 0 {
        cmd
    } else {
        display_text(cmd, args.drop_last()) + seq![' '] + args.last()
    }
}

/// The command line shown when a solver cannot be started.
pub fn display_command(cmd: &str, args: &Vec<String>) -> (r: String)
    ensures
        r@ == display_text(cmd@, words_view(args@)),
{
    let mut out = String::new();
    push_str(&mut out, cmd);
    let mut i: usize = 0;
    while i < args.len()
        invariant
            0 <= i <= args@.len(),
            out@ == display_text(cmd@, words_view(args@.take(i as int))),
        decreases args@.len() - i,
    {
        push_char(&mut out, ' ');
        push_str(&mut out, args[i].as_str());
        proof {
            assert(words_view(args@.take(i + 1)).drop_last() =~= words_view(args@.take(i as int)));
        }
        i = i + 1;
    }
    proof {
        assert(args@.take(args@.len() as int) =~= args@);
    }
    out
}

/// The solvers tried, in order, when no command line is configured.
pub open spec fn spawn_candidates() -> Seq<Seq<char>> {
    seq!["z3 -in -smt2"@, "cvc5 --lang smt2 --incremental"@]
}

fn candidate(i: usize) -> (r: String)
    requires
        i < 2,
    ensures
        r@ == spawn_candidates()[i as int],
{
    if i == 0 {
        "z3 -in -smt2".to_owned()
    } else {
        "cvc5 --lang smt2 --incremental".to_owned()
    }
}

/// What to do next when starting a solver automatically.
#[derive(Debug)]
pub enum SpawnStep {
    /// Start a solver with this command line and report the outcome.
    Try(String),
    /// The solver started with this command line; use it.
    Use(String),
    /// Give up with this error.
    Fail(SessionError),
}

/// Starting a solver automatically: the configured command line if there is one, else the
/// known solvers in order, skipping those that are not installed.
#[derive(Debug)]
pub struct SpawnAuto {
    from_env: bool,
    current: usize,
    cmdline: String,
    tried: Vec<String>,
}

impl SpawnAuto {
    /// The configured command line is used.
    pub closed spec fn spec_from_env(&self) -> bool {
        self.from_env
    }

    /// The command line being tried.
    pub closed spec fn spec_cmdline(&self) -> Seq<char> {
        self.cmdline@
    }

    /// Position of the candidate being tried.
    pub closed spec fn spec_current(&self) -> nat {
        self.current as nat
    }

    pub closed spec fn wf(&self) -> bool {
        !self.from_env ==> {
            &&& self.current < 2
            &&& self.cmdline@ == spawn_candidates()[self.current as int]
            &&& words_view(self.tried@) == spawn_candidates().take(self.current + 1)
        }
    }

    /// Starts with the configured command line (`env_cmdline`) or the first known solver.
    pub fn start(env_cmdline: Option<&str>) -> (r: (SpawnAuto, SpawnStep))
        ensures
            r.0.wf(),
            env_cmdline matches Some(c) ==> r.0.spec_from_env() && r.0.spec_cmdline() == c@ && (r.1 matches SpawnStep::Try(t) && t@ == c@),
            env_cmdline is None ==> !r.0.spec_from_env() && r.0.spec_current() == 0 && (r.1 matches SpawnStep::Try(t) && t@ == spawn_candidates()[0]),
    {
        match env_cmdline {
            Some(c) => (
                SpawnAuto { from_env: true, current: 0, cmdline: c.to_owned(), tried: Vec::new() },
                SpawnStep::Try(c.to_owned()),
            ),
            None => {
                let first = candidate(0);
                let mut tried = Vec::new();
                tried.push(candidate(0));
                proof {
                    assert(words_view(tried@) =~= spawn_candidates().take(1));
                }
                (
                    SpawnAuto { from_env: false, current: 0, cmdline: candidate(0), tried },
                    SpawnStep::Try(first),
                )
            },
        }
    }

    /// Takes the outcome of the last try.
    pub fn next(&mut self, outcome: Result<(), SessionError>) -> (r: SpawnStep)
        requires
            old(self).wf(),
        ensures
            final(self).wf(),
            match outcome {
                Ok(_) => r matches SpawnStep::Use(c) && c@ == old(self).spec_cmdline(),
                Err(e0) => if old(self).spec_from_env() || !spec_is_spawn_not_found(&e0) {
                    r matches SpawnStep::Fail(e) && e == e0
                } else if old(self).spec_current() + 1 < 2 {
                    r matches SpawnStep::Try(t) && t@ == spawn_candidates()[old(self).spec_current() + 1int]
                } else {
                    r matches SpawnStep::Fail(SessionError::NoSolverFound { tried }) && words_view(
                        tried@,
                    ) == spawn_candidates()
                },
            },
    {
        match outcome {
            Ok(()) => {
                let mut c = String::new();
                push_str(&mut c, self.cmdline.as_str());
                SpawnStep::Use(c)
            },
            Err(e) => {
                if self.from_env || !is_spawn_not_found(&e) {
                    return SpawnStep::Fail(e);
                }
                if self.current + 1 < 2 {
                    let ghost oc = self.current;
                    let ghost ot = self.tried@;
                    assert(words_view(ot) == spawn_candidates().take(oc + 1));
                    self.current = self.current + 1;
                    self.cmdline = candidate(self.current);
                    let x = candidate(self.current);
                    let ghost xv = x@;
                    self.tried.push(x);
                    proof {
                        assert(self.tried@ == ot.push(self.tried@.last()));
                        assert(words_view(self.tried@) =~= words_view(ot).push(xv));
                        assert(spawn_candidates().take(oc + 2) =~= spawn_candidates().take(oc + 1).push(spawn_candidates()[oc + 1]));
                    }
                    SpawnStep::Try(candidate(self.current))
                } else {
                    let mut tried: Vec<String> = Vec::new();
                    let mut i: usize = 0;
                    while i < self.tried.len()
                        invariant
                            0 <= i <= self.tried@.len(),
                            tried@.len() == i,
                            forall|k: int| 0 <= k < i ==> #[trigger] tried@[k]@ == self.tried@[k]@,
                        decreases self.tried@.len() - i,
                    {
                        let mut w = String::new();
                        push_str(&mut w, self.tried[i].as_str());
                        tried.push(w);
                        i = i + 1;
                    }
                    proof {
                        assert(words_view(tried@) =~= words_view(self.tried@));
                        assert(spawn_candidates().take(2) =~= spawn_candidates());
                    }
                    SpawnStep::Fail(SessionError::NoSolverFound { tried })
                }
            },
        }
    }
}

} // verus!
