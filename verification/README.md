# smtkit

A small SMT toolkit, verified with Verus:

- `src/ir.rs` — a typed term arena (`Ctx`): constructors that enforce sorts, blocking
  clauses, free variables, substitution.
- `src/sexp.rs` — s-expressions: the parser and the printer, with the round-trip laws.
- `src/emit.rs`, `src/smt2.rs`, `src/smt2/t.rs` — SMT-LIB2 emission of IR terms and a
  script builder.
- `src/solver.rs` — reading the output of the `z3` binary (status and model).
- `src/session.rs` — the decisions of an incremental SMT-LIB session: command texts,
  reading responses line by line, the capability probe, choosing a solver to start.
- `src/z3.rs`, `src/z3/api.rs` — the in-process Z3 backend: IR terms become a plan of Z3
  constructions with a stated meaning, which is built with the `z3` crate, solved, and read
  back into a projected model.
- `src/facade.rs` — the backend-agnostic result shape.
- `src/text.rs` — character-level helpers (decimal text, trimming, comparisons).

`app/` holds what moves bytes: the solver process over stdio, running the `z3` binary, and
the `smtkit-ci` command line (`smoke`, `probe`).
