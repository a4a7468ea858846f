//! The backend-agnostic result shape and the session surface of the `smtkit` facade.
use vstd::prelude::*;

use crate::sexp::{Sexp, SexpView};
use crate::session::Status as SessionStatus;
use crate::solver::{ParseSolverOutputError, SolverError, Status as SolverStatus, parse_z3_output, spec_parse_z3_output, OutputErrorView};
use crate::ir::{Ctx, TermId};
use crate::z3::{
    Checked, ProjectedModel, SolveResult as Z3Result, SolveStatus as Z3Status, Z3BackendError, answered_by,
    model_from_z3, problem_plain, solve_outcome,
};

verus! {

/// Backend-agnostic solver status.
#[derive(Clone, Copy, Debug, PartialEq, Eq, Structural)]
pub enum SolveStatus {
    Sat,
    Unsat,
    Unknown,
}

/// A minimal solver result. `model` is backend-defined (e.g. an SMT-LIB s-expression).
#[derive(Debug)]
pub struct SolveResult<M> {
    pub status: SolveStatus,
    pub model: Option<M>,
}

/// Why solving with an external solver binary failed.
#[derive(Debug)]
pub enum Z3SolveError {
    Run(SolverError),
    Parse(ParseSolverOutputError),
}

/// The facade status of a solver status.
pub open spec fn spec_solve_status(s: SolverStatus) -> SolveStatus {
    match s {
        SolverStatus::Sat => SolveStatus::Sat,
        SolverStatus::Unsat => SolveStatus::Unsat,
        SolverStatus::Unknown => SolveStatus::Unknown,
    }
}

/// A solver status becomes the facade status of the same name, so different statuses stay
/// apart: in particular `unknown` is never reported as `unsat`.
pub proof fn law_status_keeps_its_name(s: SolverStatus)
    ensures
        (spec_solve_status(s) == SolveStatus::Sat) <==> (s == SolverStatus::Sat),
        (spec_solve_status(s) == SolveStatus::Unsat) <==> (s == SolverStatus::Unsat),
        (spec_solve_status(s) == SolveStatus::Unknown) <==> (s == SolverStatus::Unknown),
{
}

/// The facade result of running Z3 on a script: `run` is what the run gave back (its
/// stdout and stderr, or why it failed), which is then parsed.
pub fn solve_z3_smt2(run: Result<(String, String), SolverError>) -> (r: Result<SolveResult<Sexp>, Z3SolveError>)
    ensures
        match run {
            Err(e) => r == Err::<SolveResult<Sexp>, Z3SolveError>(Z3SolveError::Run(e)),
            Ok((stdout, stderr)) => match spec_parse_z3_output(stdout@) {
                Ok((st, m)) => r matches Ok(res) && res.status == spec_solve_status(st) && match m {
                    Some(v) => res.model matches Some(x) && x@ == v,
                    None => res.model is None,
                },
                Err(e) => r matches Err(Z3SolveError::Parse(pe)) && pe@ == e,
            },
        },
{
    let (stdout, stderr) = match run {
        Ok(out) => out,
        Err(e) => {
            return Err(Z3SolveError::Run(e));
        },
    };
    match parse_z3_output(stdout.as_str(), stderr.as_str()) {
        Ok(parsed) => {
            let status = match parsed.status {
                SolverStatus::Sat => SolveStatus::Sat,
                SolverStatus::Unsat => SolveStatus::Unsat,
                SolverStatus::Unknown => SolveStatus::Unknown,
            };
            Ok(SolveResult { status, model: parsed.model })
        },
        Err(e) => Err(Z3SolveError::Parse(e)),
    }
}

/// The facade status of a backend status.
pub open spec fn spec_lift_status(s: Z3Status) -> SolveStatus {
    match s {
        Z3Status::Sat => SolveStatus::Sat,
        Z3Status::Unsat => SolveStatus::Unsat,
        Z3Status::Unknown => SolveStatus::Unknown,
    }
}

/// A backend status becomes the facade status of the same name.
pub proof fn law_backend_status_keeps_its_name(s: Z3Status)
    ensures
        (spec_lift_status(s) == SolveStatus::Sat) <==> (s == Z3Status::Sat),
        (spec_lift_status(s) == SolveStatus::Unsat) <==> (s == Z3Status::Unsat),
        (spec_lift_status(s) == SolveStatus::Unknown) <==> (s == Z3Status::Unknown),
{
}

/// The facade result of a backend result.
pub open spec fn spec_lift_result(r: Result<Z3Result<ProjectedModel>, Z3BackendError>) -> Result<
    SolveResult<ProjectedModel>,
    Z3BackendError,
> {
    match r {
        Ok(res) => Ok(SolveResult { status: spec_lift_status(res.status), model: res.model }),
        Err(e) => Err(e),
    }
}

/// Solves `assertions` with Z3 in process and, if satisfiable, returns the values of the
/// variables among `vars` (see `crate::z3::solve_projected`), with the facade's status, and
/// beside it the record of the solver's check that gave it.
pub fn solve_projected(ctx: &Ctx, assertions: &[TermId], vars: &[TermId]) -> (r: (
    Result<SolveResult<ProjectedModel>, Z3BackendError>,
    Option<Checked>,
))
    requires
        ctx.wf(),
        ctx.all_valid(assertions@),
        ctx.all_valid(vars@),
        problem_plain(ctx, assertions@, vars@),
    ensures
        exists|inner: Result<Z3Result<ProjectedModel>, Z3BackendError>|
            solve_outcome(ctx, assertions@, vars@, inner) && answered_by(ctx, assertions@, inner, r.1)
                && model_from_z3(ctx, assertions@, vars@, inner) && r.0 == spec_lift_result(inner),
{
    let (inner, given) = crate::z3::solve_projected(ctx, assertions, vars);
    let ghost g = inner;
    let r = match inner {
        Ok(res) => {
            let status = match res.status {
                Z3Status::Sat => SolveStatus::Sat,
                Z3Status::Unsat => SolveStatus::Unsat,
                Z3Status::Unknown => SolveStatus::Unknown,
            };
            Ok(SolveResult { status, model: res.model })
        },
        Err(e) => Err(e),
    };
    assert(solve_outcome(ctx, assertions@, vars@, g) && answered_by(ctx, assertions@, g, given)
        && model_from_z3(ctx, assertions@, vars@, g) && r == spec_lift_result(g));
    (r, given)
}

/// A small "SMT-LIB over stdio" session surface.
pub trait SmtlibSessionLike {
    type Error;

    fn set_logic(&mut self, logic: &str) -> Result<(), Self::Error>;

    fn set_timeout_ms(&mut self, ms: u64) -> Result<(), Self::Error>;

    fn set_random_seed(&mut self, seed: u64) -> Result<(), Self::Error>;

    fn set_produce_models(&mut self, enabled: bool) -> Result<(), Self::Error>;

    fn set_print_success(&mut self, enabled: bool) -> Result<(), Self::Error>;

    fn push(&mut self) -> Result<(), Self::Error>;

    fn pop(&mut self, n: u32) -> Result<(), Self::Error>;

    fn declare_const(&mut self, name: &str, sort: &Sexp) -> Result<(), Self::Error>;

    fn assert_sexp(&mut self, term: &Sexp) -> Result<(), Self::Error>;

    fn check_sat(&mut self) -> Result<SessionStatus, Self::Error>;

    fn check_sat_assuming(&mut self, assumptions: &[Sexp]) -> Result<SessionStatus, Self::Error>;

    fn get_value_pairs(&mut self, terms: &[Sexp]) -> Result<Vec<(Sexp, Sexp)>, Self::Error>;
}

} // verus!
