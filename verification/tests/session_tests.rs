//! The decisions of an SMT-LIB session: command texts, response reading, the capability
//! probe and starting a solver.

use smtkit::sexp::{parse_one, ParseError, Sexp};
use smtkit::session::{
    core_names_h0, decode_get_value_pairs, display_command, is_errorish_response,
    is_spawn_not_found, parse_response, split_cmdline, status_from_line, status_line_content,
    Capabilities, Command, IoErrorKind, IoFailure, Probe, ProbeEvent, ProbeStep, ResponseReader,
    SessionError, SpawnAuto, SpawnStep, Status,
};

fn atom(s: &str) -> Sexp {
    Sexp::atom(s)
}

#[test]
fn command_texts() {
    assert_eq!(Command::Push.text(), "(push 1)\n");
    assert_eq!(Command::Pop(3).text(), "(pop 3)\n");
    assert_eq!(Command::SetLogic("QF_BV".to_string()).text(), "(set-logic QF_BV)\n");
    assert_eq!(
        Command::DeclareConst("x".to_string(), parse_one("(_ BitVec 8)").unwrap()).text(),
        "(declare-const x (_ BitVec 8))\n"
    );
    assert_eq!(
        Command::Assert(parse_one("(> x 0)").unwrap()).text(),
        "(assert (> x 0))\n"
    );
    assert_eq!(Command::CheckSat.text(), "(check-sat)\n");
    assert_eq!(
        Command::CheckSatAssuming(vec![atom("a"), parse_one("(not b)").unwrap()]).text(),
        "(check-sat-assuming (a (not b)))\n"
    );
    assert_eq!(Command::CheckSatAssuming(vec![]).text(), "(check-sat-assuming ())\n");
    assert_eq!(Command::GetUnsatCore.text(), "(get-unsat-core)\n");
    assert_eq!(
        Command::GetInfo(":reason-unknown".to_string()).text(),
        "(get-info :reason-unknown)\n"
    );
    assert_eq!(Command::GetModel.text(), "(get-model)\n");
    assert_eq!(Command::GetProof.text(), "(get-proof)\n");
    assert_eq!(
        Command::GetValue(vec![atom("x"), atom("y")]).text(),
        "(get-value (x y))\n"
    );
    assert_eq!(Command::Exit.text(), "(exit)\n");
}

#[test]
fn option_commands() {
    assert_eq!(
        Command::set_produce_models(true).text(),
        "(set-option :produce-models true)\n"
    );
    assert_eq!(
        Command::set_produce_unsat_cores(false).text(),
        "(set-option :produce-unsat-cores false)\n"
    );
    assert_eq!(
        Command::set_produce_proofs(true).text(),
        "(set-option :produce-proofs true)\n"
    );
    assert_eq!(
        Command::set_print_success(false).text(),
        "(set-option :print-success false)\n"
    );
    assert_eq!(Command::set_timeout_ms(1500).text(), "(set-option :timeout 1500)\n");
    assert_eq!(
        Command::set_random_seed(u64::MAX).text(),
        "(set-option :random-seed 18446744073709551615)\n"
    );
}

#[test]
fn which_commands_expect_a_response() {
    assert!(Command::CheckSat.expects_response());
    assert!(Command::GetModel.expects_response());
    assert!(Command::GetValue(vec![]).expects_response());
    assert!(!Command::Push.expects_response());
    assert!(!Command::Exit.expects_response());
    assert!(!Command::set_produce_models(true).expects_response());
}

#[test]
fn status_lines_skip_chatter() {
    assert_eq!(status_line_content("  \n"), None);
    assert_eq!(status_line_content("success\n"), None);
    assert_eq!(status_line_content("unsupported\n"), None);
    assert_eq!(status_line_content("(error \"x\")\n"), None);
    assert_eq!(status_line_content("(warning \"x\")\n"), None);
    assert_eq!(status_line_content(" sat \n").as_deref(), Some("sat"));
    assert_eq!(status_from_line("sat").unwrap(), Status::Sat);
    assert_eq!(status_from_line("unsat").unwrap(), Status::Unsat);
    assert_eq!(status_from_line("unknown").unwrap(), Status::Unknown);
    match status_from_line("timeout") {
        Err(SessionError::UnknownStatus(s)) => assert_eq!(s, "timeout"),
        other => panic!("unexpected {:?}", other),
    }
}

#[test]
fn parse_response_wraps_parse_errors() {
    assert_eq!(parse_response("(a b)\n").unwrap(), parse_one("(a b)").unwrap());
    assert!(matches!(parse_response("(a"), Err(SessionError::Parse(ParseError::Eof))));
}

#[test]
fn response_reader_balances_parentheses_over_lines() {
    let mut r = ResponseReader::new();
    assert_eq!(r.feed("success\n"), None);
    assert_eq!(r.feed("\n"), None);
    assert_eq!(r.feed("((x 5)\n"), None);
    assert_eq!(r.feed(" (y \"a)\" |b)|)) ; done\n").as_deref(), Some("((x 5)\n (y \"a)\" |b)|)) ; done\n"));
}

#[test]
fn response_reader_returns_atom_lines_at_once() {
    let mut r = ResponseReader::new();
    assert_eq!(r.feed("  unsupported  \n").as_deref(), Some("unsupported\n"));
    assert!(r.can_feed("(a)\n"));
}

#[test]
fn decode_pairs() {
    let resp = parse_one("((x 5) (y (- 3)))").unwrap();
    let pairs = decode_get_value_pairs(resp).unwrap();
    assert_eq!(pairs.len(), 2);
    assert_eq!(pairs[0], (atom("x"), atom("5")));
    assert_eq!(pairs[1].1.to_string(), "(- 3)");
    assert!(matches!(
        decode_get_value_pairs(parse_one("((x 5 6))").unwrap()),
        Err(SessionError::BadGetValue)
    ));
    assert!(matches!(decode_get_value_pairs(atom("x")), Err(SessionError::BadGetValue)));
    assert!(decode_get_value_pairs(parse_one("()").unwrap()).unwrap().is_empty());
}

#[test]
fn errorish_responses() {
    assert!(is_errorish_response(&atom("unsupported")));
    assert!(is_errorish_response(&atom("unknown")));
    assert!(is_errorish_response(&atom("error: x")));
    assert!(is_errorish_response(&parse_one("(error \"no proof\")").unwrap()));
    assert!(is_errorish_response(&parse_one("(warning x)").unwrap()));
    assert!(!is_errorish_response(&parse_one("(proof x)").unwrap()));
    assert!(!is_errorish_response(&parse_one("()").unwrap()));
    assert!(core_names_h0(&parse_one("(a h0)").unwrap()));
    assert!(!core_names_h0(&parse_one("(a h1)").unwrap()));
    assert!(!core_names_h0(&atom("h0")));
}

fn run_probe(answers: Vec<ProbeEvent>) -> (Vec<String>, Capabilities) {
    let mut p = Probe::new();
    let mut sent = Vec::new();
    let mut answers = answers.into_iter();
    while let Some(c) = p.next_command() {
        sent.push(c.text());
        let ev = answers.next().expect("an answer for each command");
        p.on_event(&ev);
    }
    assert_eq!(p.step, ProbeStep::Finished);
    (sent, p.caps)
}

#[test]
fn probe_of_a_capable_solver() {
    let (sent, caps) = run_probe(vec![
        ProbeEvent::Status(Status::Sat),
        ProbeEvent::Sent,
        ProbeEvent::Sent,
        ProbeEvent::Sent,
        ProbeEvent::Sent,
        ProbeEvent::Status(Status::Sat),
        ProbeEvent::Response(parse_one("(model)").unwrap()),
        ProbeEvent::Sent,
        ProbeEvent::Sent,
        ProbeEvent::Sent,
        ProbeEvent::Sent,
        ProbeEvent::Status(Status::Unsat),
        ProbeEvent::Response(parse_one("(h0)").unwrap()),
        ProbeEvent::Sent,
        ProbeEvent::Sent,
        ProbeEvent::Sent,
        ProbeEvent::Sent,
        ProbeEvent::Status(Status::Unsat),
        ProbeEvent::Response(parse_one("(proof)").unwrap()),
        ProbeEvent::Sent,
    ]);
    assert_eq!(
        sent,
        vec![
            "(check-sat-assuming ())\n",
            "(set-option :print-success false)\n",
            "(set-option :produce-models true)\n",
            "(push 1)\n",
            "(assert true)\n",
            "(check-sat)\n",
            "(get-model)\n",
            "(pop 1)\n",
            "(set-option :produce-unsat-cores true)\n",
            "(push 1)\n",
            "(assert (! false :named h0))\n",
            "(check-sat)\n",
            "(get-unsat-core)\n",
            "(pop 1)\n",
            "(set-option :produce-proofs true)\n",
            "(push 1)\n",
            "(assert false)\n",
            "(check-sat)\n",
            "(get-proof)\n",
            "(pop 1)\n",
        ]
    );
    assert_eq!(
        caps,
        Capabilities {
            check_sat_assuming: true,
            get_model: true,
            get_unsat_core: true,
            get_proof: true,
            named_assertions_in_core: true,
        }
    );
}

#[test]
fn probe_of_a_solver_that_fails_everything() {
    let (sent, caps) = run_probe(vec![
        ProbeEvent::Failed,
        ProbeEvent::Failed,
        ProbeEvent::Failed,
        ProbeEvent::Failed,
        ProbeEvent::Failed,
        ProbeEvent::Failed,
        ProbeEvent::Failed,
        ProbeEvent::Failed,
    ]);
    assert_eq!(sent.len(), 8);
    assert_eq!(caps, Capabilities::default());
}

#[test]
fn probe_skips_gets_when_the_check_does_not_fit() {
    let (sent, caps) = run_probe(vec![
        ProbeEvent::Status(Status::Unknown),
        ProbeEvent::Sent,
        ProbeEvent::Sent,
        ProbeEvent::Sent,
        ProbeEvent::Sent,
        ProbeEvent::Status(Status::Unknown),
        ProbeEvent::Sent,
        ProbeEvent::Sent,
        ProbeEvent::Sent,
        ProbeEvent::Sent,
        ProbeEvent::Status(Status::Sat),
        ProbeEvent::Sent,
        ProbeEvent::Sent,
        ProbeEvent::Sent,
        ProbeEvent::Sent,
        ProbeEvent::Status(Status::Unsat),
        ProbeEvent::Response(atom("unsupported")),
        ProbeEvent::Sent,
    ]);
    assert_eq!(sent.len(), 18);
    assert_eq!(
        caps,
        Capabilities { check_sat_assuming: true, ..Capabilities::default() }
    );
}

#[test]
fn command_lines_split_and_display() {
    let (cmd, args) = split_cmdline("cvc5 --lang smt2 'a b'").unwrap();
    assert_eq!(cmd, "cvc5");
    assert_eq!(args, vec!["--lang".to_string(), "smt2".to_string(), "a b".to_string()]);
    assert_eq!(display_command(&cmd, &args), "cvc5 --lang smt2 a b");
    match split_cmdline("z3 'unterminated") {
        Err(SessionError::Spawn { cmd, source }) => {
            assert_eq!(cmd, "z3 'unterminated");
            assert_eq!(source.kind, IoErrorKind::InvalidInput);
            assert_eq!(source.message, "missing closing quote");
        }
        other => panic!("unexpected {:?}", other),
    }
    match split_cmdline("   ") {
        Err(SessionError::Spawn { source, .. }) => {
            assert_eq!(source.message, "empty command line")
        }
        other => panic!("unexpected {:?}", other),
    }
}

fn not_found(cmd: &str) -> SessionError {
    SessionError::Spawn {
        cmd: cmd.to_string(),
        source: IoFailure { kind: IoErrorKind::NotFound, message: "not found".to_string() },
    }
}

#[test]
fn spawn_auto_tries_known_solvers_in_order() {
    let (mut s, step) = SpawnAuto::start(None);
    assert!(matches!(&step, SpawnStep::Try(c) if c == "z3 -in -smt2"));
    let step = s.next(Err(not_found("z3 -in -smt2")));
    assert!(matches!(&step, SpawnStep::Try(c) if c == "cvc5 --lang smt2 --incremental"));
    match s.next(Err(not_found("cvc5"))) {
        SpawnStep::Fail(SessionError::NoSolverFound { tried }) => assert_eq!(
            tried,
            vec!["z3 -in -smt2".to_string(), "cvc5 --lang smt2 --incremental".to_string()]
        ),
        other => panic!("unexpected {:?}", other),
    }
}

#[test]
fn spawn_auto_uses_the_first_that_starts() {
    let (mut s, _) = SpawnAuto::start(None);
    let step = s.next(Err(not_found("z3")));
    assert!(matches!(step, SpawnStep::Try(_)));
    assert!(matches!(s.next(Ok(())), SpawnStep::Use(c) if c == "cvc5 --lang smt2 --incremental"));
}

#[test]
fn spawn_auto_stops_at_other_errors_and_with_a_configured_line() {
    let (mut s, _) = SpawnAuto::start(None);
    assert!(matches!(s.next(Err(SessionError::MissingStdin)), SpawnStep::Fail(SessionError::MissingStdin)));
    let (mut s, step) = SpawnAuto::start(Some("mysolver -q"));
    assert!(matches!(&step, SpawnStep::Try(c) if c == "mysolver -q"));
    assert!(matches!(s.next(Err(not_found("mysolver"))), SpawnStep::Fail(SessionError::Spawn { .. })));
    let (mut s, _) = SpawnAuto::start(Some("mysolver -q"));
    assert!(matches!(s.next(Ok(())), SpawnStep::Use(c) if c == "mysolver -q"));
    assert!(is_spawn_not_found(&not_found("x")));
    assert!(!is_spawn_not_found(&SessionError::Eof));
}
