use boolean_inference::args::{parse_args, parse_audit_args, ArgError, AuditArgError, Command};
use boolean_inference::cli::{
    cube_literals, exit_code, leaf_action, node_kind, original_numbers, refutation_reason, rule_semantics,
    BranchSolverKind, InputKind, LeafAction, Ledger, SelectorKind,
};
use boolean_inference::conquer::{
    outcome_of_exit, read_solution, CnfTemplate, ConquerError, ConquerResult, CubeOutcome, Tally,
};
use boolean_inference::cube::{Cube, CubeCutoff, CubeNodeKind, CubeRefutationReason, CubeStats};
use boolean_inference::measure::Measure;

fn words(line: &str) -> Vec<String> {
    line.split_whitespace().map(|w| w.to_string()).collect()
}

#[test]
fn a_full_command_line_is_read() {
    let line = "in.cnf -n 12 -o out.icnf --branch-solver tail-greedy --measure hard-tensors --max-rows 64 --trace t.jsonl --trace-replay";
    match parse_args(&words(line)).unwrap() {
        Command::Run(a) => {
            assert_eq!(a.input, "in.cnf");
            assert_eq!(a.output.as_deref(), Some("out.icnf"));
            assert_eq!(a.cutoff, CubeCutoff::RemainingVars(12));
            assert_eq!(a.selector, SelectorKind::Region);
            assert_eq!(a.branch_solver, BranchSolverKind::TailGreedy);
            assert_eq!(a.measure, Measure::NumHardTensors);
            assert_eq!(a.max_rows, 64);
            assert_eq!(a.trace.as_deref(), Some("t.jsonl"));
            assert!(a.trace_replay);
        }
        Command::Help => panic!("not help"),
    }
}

#[test]
fn solvers_need_all_of_their_options() {
    let line = "in.cnf --cc-threshold 340282366920938463463374607431768211455 --solve-cnf b.cnf --kissat k --workers 3 --branch-solver naive --measure vars --selector structure-blind";
    match parse_args(&words(line)).unwrap() {
        Command::Run(a) => {
            assert_eq!(a.cutoff, CubeCutoff::CcDifficulty(u128::MAX));
            assert_eq!(a.workers, Some(3));
            assert_eq!(a.max_rows, 512);
            assert_eq!(a.selector, SelectorKind::StructureBlind);
        }
        Command::Help => panic!("not help"),
    }
    let error = |line: &str| parse_args(&words(line)).unwrap_err();
    assert!(matches!(error("in.cnf -n 1 --solve-cnf b.cnf --kissat k"), ArgError::BadSink));
    assert!(matches!(error("in.cnf -n 1 -o x --workers 2"), ArgError::BadSink));
}

#[test]
fn malformed_command_lines_are_reported() {
    let error = |line: &str| parse_args(&words(line)).unwrap_err();
    assert!(matches!(error("-n"), ArgError::MissingValue(o) if o == "-n"));
    assert!(matches!(error("-n x"), ArgError::BadValue(o, v) if o == "-n" && v == "x"));
    assert!(matches!(error("-n 0"), ArgError::Zero(o) if o == "-n"));
    assert!(matches!(error("--workers 0"), ArgError::Zero(o) if o == "--workers"));
    assert!(matches!(
        error("--cc-threshold 340282366920938463463374607431768211456"),
        ArgError::BadValue(o, _) if o == "--cc-threshold"
    ));
    assert!(matches!(error("--selector blind"), ArgError::BadValue(o, v) if o == "--selector" && v == "blind"));
    assert!(matches!(error("--what"), ArgError::UnknownOption(o) if o == "--what"));
    assert!(matches!(error("a b"), ArgError::Unexpected(v) if v == "b"));
    assert!(matches!(error("a"), ArgError::MissingCutoff));
    assert!(matches!(error("a -n 1 --cc-threshold 2"), ArgError::TwoCutoffs));
    assert!(matches!(error("a -n 1 -o x --trace-replay"), ArgError::ReplayNeedsTrace));
    assert!(matches!(
        error("a -n 1 -o x --trace t --trace-replay --selector structure-blind"),
        ArgError::ReplayNeedsRegion
    ));
    assert!(matches!(error("-n 1 -o x"), ArgError::MissingInput));
    assert!(matches!(parse_args(&words("a --help --what")), Ok(Command::Help)));
}

#[test]
fn the_solver_and_the_measure_have_defaults() {
    let line = "input.cnf -n 3 -o plain.cubes --max-rows 1";
    let a = match parse_args(&words(line)) {
        Ok(Command::Run(a)) => a,
        _ => panic!("arguments"),
    };
    assert_eq!(a.input, "input.cnf");
    assert_eq!(a.output.as_deref(), Some("plain.cubes"));
    assert_eq!(a.cutoff, CubeCutoff::RemainingVars(3));
    assert_eq!(a.max_rows, 1);
    assert_eq!(a.selector, SelectorKind::Region);
    assert_eq!(a.branch_solver, BranchSolverKind::Greedy);
    assert_eq!(a.measure, Measure::NumUnfixedVars);
}

#[test]
fn the_audit_takes_two_files_and_an_output() {
    let a = parse_audit_args(&words("in.csp f.icnf -o out.jsonl")).unwrap();
    assert_eq!((a.input.as_str(), a.frontier.as_str()), ("in.csp", "f.icnf"));
    assert_eq!((a.output.as_str(), a.arm.as_str()), ("out.jsonl", "unknown"));
    let b = parse_audit_args(&words("--arm x in.csp --output o f.icnf")).unwrap();
    assert_eq!(b.arm, "x");
    let error = |line: &str| parse_audit_args(&words(line)).unwrap_err();
    assert!(matches!(error("a b -o"), AuditArgError::Usage));
    assert!(matches!(error("a b --arm x -o"), AuditArgError::MissingOutputPath));
    assert!(matches!(error("a b -o x --arm"), AuditArgError::MissingArmName));
    assert!(matches!(error("a b -x y"), AuditArgError::UnknownOption(o) if o == "-x"));
    assert!(matches!(error("a b --arm x"), AuditArgError::NoOutput));
    assert!(matches!(error("a b c -o x"), AuditArgError::Usage));
}

#[test]
fn kinds_round_trip_through_their_labels() {
    for kind in [SelectorKind::Region, SelectorKind::StructureBlind] {
        assert_eq!(SelectorKind::parse(kind.label()), Some(kind));
    }
    for kind in [BranchSolverKind::Greedy, BranchSolverKind::TailGreedy, BranchSolverKind::Naive] {
        assert_eq!(BranchSolverKind::parse(kind.label()), Some(kind));
    }
    assert_eq!(SelectorKind::parse("x"), None);
    assert_eq!(BranchSolverKind::parse(""), None);
    assert_eq!(InputKind::of_extension("cnf").map(|k| k.label()), Some("dimacs"));
    assert_eq!(InputKind::of_extension("txt"), None);
    assert_eq!(node_kind(CubeNodeKind::Cutoff), "cutoff");
    assert_eq!(refutation_reason(CubeRefutationReason::RootPropagation), "root-propagation-contradiction");
    assert_eq!(rule_semantics(0, true), "local-refutation");
    assert_eq!(rule_semantics(1, true), "closed-witness");
    assert_eq!(rule_semantics(1, false), "cover");
}

fn cube(sigma_dec: usize, sigma_all: usize, refuted: bool, sat: bool) -> Cube {
    Cube { decisions: vec![(0, true), (1, false)], sigma_dec, sigma_all, refuted, sat }
}

#[test]
fn leaves_go_where_they_belong() {
    let cutoff = CubeCutoff::RemainingVars(3);
    assert!(matches!(leaf_action(&cube(1, 1, true, false), 5, cutoff, true), LeafAction::Skip));
    assert!(matches!(leaf_action(&cube(1, 5, false, true), 5, cutoff, true), LeafAction::Solved));
    assert!(matches!(leaf_action(&cube(1, 5, false, true), 5, cutoff, false), LeafAction::Emit(0)));
    assert!(matches!(leaf_action(&cube(2, 3, false, false), 5, cutoff, true), LeafAction::Emit(2)));
    assert!(matches!(leaf_action(&cube(1, 1, false, false), 5, cutoff, true), LeafAction::BadCutoff));
    assert_eq!(cube_literals(&cube(2, 3, false, false).decisions, &vec![4, 9]), vec![5, -10]);
    assert_eq!(original_numbers(&[1, 0], &vec![4, 9]), vec![10, 5]);
    assert_eq!(exit_code(ConquerResult::Sat), Some(10));
    assert_eq!(exit_code(ConquerResult::Unsat), Some(20));
    assert_eq!(exit_code(ConquerResult::Incomplete), None);
}

#[test]
fn a_cube_is_put_on_the_formula_as_unit_clauses() {
    let t = CnfTemplate::parse("c hi\np cnf 3 2\n1 2 0\n-1 3 0").unwrap();
    assert_eq!((t.variables, t.clauses), (3, 2));
    assert_eq!(t.body, "c hi\n1 2 0\n-1 3 0");
    assert_eq!(t.query(&[-1, 3]).unwrap(), "p cnf 3 4\nc hi\n1 2 0\n-1 3 0\n-1 0\n3 0\n");
    assert!(t.query(&[4]).is_none());
    let ended = CnfTemplate::parse("p cnf 1 1\n1 0\n").unwrap();
    assert_eq!(ended.query(&[]).unwrap(), "p cnf 1 1\n1 0\n");
    let (nvars, clauses) = boolean_inference::dimacs::parse_dimacs(&t.query(&[-1, 3]).unwrap()).unwrap();
    assert_eq!(nvars, 3);
    assert_eq!(clauses, vec![vec![1, 2], vec![-1, 3], vec![-1], vec![3]]);
}

#[test]
fn formulas_need_one_header() {
    for bad in ["1 0\n", "p cnf 1\n", "p dnf 1 1\n", "p cnf x 1\n", "p cnf 1 1\np cnf 1 1\n"] {
        assert!(matches!(CnfTemplate::parse(bad), Err(ConquerError::MissingHeader)), "{bad}");
    }
}

#[test]
fn answers_of_solvers_are_tallied() {
    let lines: Vec<String> = ["c x", "s SATISFIABLE", "v 1 -2 0", "vv", ""].iter().map(|l| l.to_string()).collect();
    assert_eq!(read_solution(&lines), "s SATISFIABLE\nv 1 -2 0\n");
    assert!(matches!(outcome_of_exit(Some(10), "w".into()), CubeOutcome::Sat(w) if w == "w"));
    assert!(matches!(outcome_of_exit(Some(20), String::new()), CubeOutcome::Unsat));
    assert!(matches!(outcome_of_exit(Some(0), String::new()), CubeOutcome::Unknown));
    assert!(matches!(outcome_of_exit(None, String::new()), CubeOutcome::Unknown));

    let mut t = Tally::new();
    t.record_submitted();
    t.record_submitted();
    t.record(CubeOutcome::Unsat);
    t.record(CubeOutcome::Unsat);
    assert_eq!(t.finish(true).result, ConquerResult::Unsat);

    let mut t = Tally::new();
    t.record_submitted();
    t.record(CubeOutcome::Unknown);
    let s = t.finish(true);
    assert_eq!((s.result, s.errors), (ConquerResult::Incomplete, 1));

    let mut t = Tally::new();
    t.record_submitted();
    t.record(CubeOutcome::Unsat);
    assert_eq!(t.finish(false).result, ConquerResult::Incomplete);

    let mut t = Tally::new();
    t.record_submitted();
    t.record(CubeOutcome::Sat("model".into()));
    t.record(CubeOutcome::Cancelled);
    assert!(t.stopped);
    let s = t.finish(false);
    assert_eq!(s.result, ConquerResult::Sat);
    assert_eq!(s.witness.as_deref(), Some("model"));

    let mut t = Tally::new();
    t.mark_sat_with_witness("here".into());
    t.mark_sat();
    let s = t.finish(true);
    assert_eq!((s.result, s.sat, s.witness.as_deref()), (ConquerResult::Sat, 2, Some("here")));
}

#[test]
fn the_ledger_keeps_the_range_of_open_variables() {
    let mut ledger = Ledger::new();
    for left in [4, 2, 7] {
        ledger.record(left);
    }
    assert_eq!(ledger, Ledger { emitted: 3, range: Some((2, 7)) });
    let stats = |cubes: usize, sat_leaves: usize| CubeStats { cubes, refuted: 9, sat_leaves, stopped_early: false, visited: 0 };
    assert!(ledger.balances(&stats(2, 1)));
    assert!(!ledger.balances(&stats(3, 1)));
    assert!(!ledger.balances(&stats(4, 0)));
}
