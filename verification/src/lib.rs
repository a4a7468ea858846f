//! SMT solver toolkit: a typed constraint IR, SMT-LIB2 emission and parsing, the
//! decisions of solver sessions, and an in-process Z3 backend.

pub mod emit;
pub mod facade;
pub mod ir;
pub mod session;
pub mod sexp;
pub mod smt2;
pub mod solver;
pub mod text;
pub mod z3;

pub use facade::{SmtlibSessionLike, SolveResult, SolveStatus, Z3SolveError, solve_projected, solve_z3_smt2};
