use boolean_inference::circuit::{Assignment, BooleanExpr, BooleanOp, Circuit, CircuitError, CircuitSatData};
use boolean_inference::counting::CountBranch;
use boolean_inference::csp::CspError;
use boolean_inference::dimacs::DimacsError;
use boolean_inference::formats::InstanceError;
use boolean_inference::instance::{Instance, InstanceFault, InstanceTensor};
use boolean_inference::semiring::WeightError;

// (x0 ∨ x1) ∧ (x1 ∨ x2): 5 models over 3 vars.
const OR_CHAIN_CSP: &str = "3\n0 1 : 1 2 3\n1 2 : 1 2 3\n";
const OR_CHAIN_CNF: &str = "p cnf 3 2\n1 2 0\n2 3 0\n";

fn count_int(inst: &Instance) -> String {
    let (c, _) = inst.count(16, 128, CountBranch::PerConfig).expect("count");
    c.to_text()
}

fn tensor(vars: Vec<usize>, allow: Vec<u64>) -> InstanceTensor {
    InstanceTensor { vars, allow, rows: Vec::new() }
}

#[test]
fn csp_and_cnf_agree() {
    let a = Instance::from_csp_text(OR_CHAIN_CSP).expect("csp");
    let b = Instance::from_dimacs_text(OR_CHAIN_CNF).expect("cnf");
    assert_eq!(count_int(&a), "5");
    assert_eq!(count_int(&b), "5");
}

#[test]
fn budget_invariance_holds_through_the_canonical_path() {
    let inst = Instance::from_csp_text(OR_CHAIN_CSP).expect("csp");
    for budget in [0, 2, 16] {
        let (c, _) = inst.count(budget, 128, CountBranch::BlockMerge).expect("count");
        assert_eq!(c.to_text(), "5");
    }
}

#[test]
fn declared_but_unconstrained_vars_double_the_count() {
    // Same skeleton, 5 declared vars: 5 * 2^2 = 20.
    let inst = Instance::from_csp_text("5\n0 1 : 1 2 3\n1 2 : 1 2 3\n").expect("csp");
    assert_eq!(count_int(&inst), "20");
}

#[test]
fn csp_w_lines_and_mcc_weights_agree() {
    // w(x0=0)=1/2, w(x0=1)=1/4, rest unit. Weighted count =
    // Σ_models w(x0): models with x0=0: 010,011 -> 2*(1/2)=1;
    // with x0=1: 110,101,111 -> 3*(1/4)=3/4; total 7/4.
    let csp = format!("{OR_CHAIN_CSP}w 0 1/2 1/4\n");
    let cnf = format!("{OR_CHAIN_CNF}c p weight 1 1/4 0\nc p weight -1 1/2 0\n");
    let a = Instance::from_csp_text(&csp).expect("csp");
    let b = Instance::from_dimacs_text(&cnf).expect("cnf");
    let (ca, _) = a.count(16, 128, CountBranch::PerConfig).expect("count");
    let (cb, _) = b.count(0, 128, CountBranch::BlockMerge).expect("count");
    assert_eq!(ca.to_text(), "7/4");
    assert_eq!(cb.to_text(), "7/4");
}

#[test]
fn per_row_weighted_tensors_count_exactly() {
    // One tensor over {0,1}: row 0 (00) weight 1/2, row 3 (11) weight 2.
    // Partition function = 1/2 + 2 = 5/2 (var_weights default to unit).
    let mut inst = Instance::new(2);
    inst.tensors.push(InstanceTensor {
        vars: vec![0, 1],
        allow: Vec::new(),
        rows: vec![(0, "1/2".into()), (3, "2".into())],
    });
    let (c, _) = inst.count(16, 128, CountBranch::PerConfig).expect("count");
    assert_eq!(c.to_text(), "5/2");
}

#[test]
fn validation_rejects_malformed_instances() {
    let mut wrong_format = Instance::new(1);
    wrong_format.format = "wcn-9".into();
    assert_eq!(wrong_format.validate(), Err(InstanceFault::UnknownFormat));

    let with = |n: usize, t: InstanceTensor| {
        let mut inst = Instance::new(n);
        inst.tensors.push(t);
        inst.validate()
    };
    assert_eq!(with(1, tensor(vec![], vec![])), Err(InstanceFault::EmptyScope(0)));
    assert_eq!(with(64, tensor((0..64).collect(), vec![])), Err(InstanceFault::ArityTooLarge(0, 64)));
    assert_eq!(with(1, tensor(vec![0, 0], vec![0])), Err(InstanceFault::DuplicateVar(0)));
    assert_eq!(with(1, tensor(vec![1], vec![0])), Err(InstanceFault::VarOutOfRange(0, 1)));
    assert_eq!(with(2, tensor(vec![0, 1], vec![4])), Err(InstanceFault::ConfigOutOfRange(0, 4)));
    let both = InstanceTensor { vars: vec![0], allow: vec![0], rows: vec![(0, "1".into())] };
    assert_eq!(with(1, both), Err(InstanceFault::AllowAndRows(0)));
    let bad = InstanceTensor { vars: vec![0], allow: vec![], rows: vec![(1, "1/0".into())] };
    assert_eq!(with(1, bad), Err(InstanceFault::BadWeight(0, 1, WeightError::ZeroDenominator)));

    let weights = |ws: Vec<(usize, String, String)>| {
        let mut inst = Instance::new(1);
        inst.var_weights = ws;
        inst.validate()
    };
    let entry = |v: usize, a: &str, b: &str| (v, a.to_string(), b.to_string());
    assert_eq!(weights(vec![entry(0, "x", "1")]), Err(InstanceFault::BadVarWeight(0, WeightError::BadInteger)));
    assert_eq!(weights(vec![entry(1, "1", "1")]), Err(InstanceFault::WeightVarOutOfRange(1)));
    assert_eq!(
        weights(vec![entry(0, "1", "1"), entry(0, "1", "1")]),
        Err(InstanceFault::WeightVarDuplicate(0))
    );
    assert_eq!(weights(vec![entry(0, "1/3", "0.5")]), Ok(()));
}

#[test]
fn a_repeated_weighted_row_cannot_be_counted() {
    let mut inst = Instance::new(1);
    inst.tensors.push(InstanceTensor {
        vars: vec![0],
        allow: Vec::new(),
        rows: vec![(1, "1".into()), (1, "2".into())],
    });
    assert!(matches!(
        inst.count(16, 128, CountBranch::PerConfig),
        Err(InstanceFault::DuplicateConfig(0))
    ));
}

#[test]
fn tautologies_and_duplicate_literals_are_normalized() {
    // (x1 ∨ ¬x1) is dropped; (x2 ∨ x2) dedups to (x2). Count over 2 declared
    // vars: x2 = true, x1 free -> 2 models.
    let inst = Instance::from_dimacs_text("p cnf 2 2\n1 -1 0\n2 2 0\n").expect("cnf");
    assert_eq!(inst.tensors.len(), 1);
    assert_eq!(count_int(&inst), "2");
}

#[test]
fn a_clause_allows_all_configurations_but_one() {
    let inst = Instance::from_dimacs_text("p cnf 3 1\n3 -1 0\n").expect("cnf");
    assert_eq!(inst.tensors[0].vars, vec![0, 2]);
    // The falsifying configuration has x0 true and x2 false.
    assert_eq!(inst.tensors[0].allow, vec![0, 2, 3]);
    assert!(inst.tensors[0].rows.is_empty());
}

#[test]
fn weights_of_literals_are_collected_by_variable() {
    let inst = Instance::from_dimacs_text("p cnf 2 1\nc p weight -2 0.5 0\nc p weight 1 3 0\nc p weight 2 4 0\n1 2 0\n").expect("cnf");
    let entry = |v: usize, a: &str, b: &str| (v, a.to_string(), b.to_string());
    assert_eq!(inst.var_weights, vec![entry(1, "0.5", "4"), entry(0, "1", "3")]);
    assert!(inst.is_weighted());
}

#[test]
fn unreadable_texts_are_reported() {
    let long: Vec<String> = (1..=21).map(|v| v.to_string()).collect();
    let cnf = format!("p cnf 21 1\n{} 0\n", long.join(" "));
    assert!(matches!(Instance::from_dimacs_text(&cnf), Err(InstanceError::ClauseTooLong(21))));
    assert!(matches!(
        Instance::from_dimacs_text("p cnf 2 1\nc p weight 3 1 0\n1 2 0\n"),
        Err(InstanceError::WeightLiteral(3))
    ));
    assert!(matches!(
        Instance::from_dimacs_text("p cnf 2 1\nw 1 0.5\n1 2 0\n"),
        Err(InstanceError::Dimacs(DimacsError::CachetWeightLine))
    ));
    assert!(matches!(
        Instance::from_dimacs_text("p cnf x 1\n1 2 0\n"),
        Err(InstanceError::Dimacs(DimacsError::BadToken(t))) if t == "x"
    ));
    // Stray tokens are passed over, and a literal past the header declares its variable.
    let tolerant = Instance::from_dimacs_text("p cnf 1 1\n1 x 2 0\n").expect("cnf");
    assert_eq!((tolerant.n_vars, count_int(&tolerant).as_str()), (2, "3"));
    assert!(matches!(Instance::from_csp_text(""), Err(InstanceError::Csp(CspError::MissingHeader))));
    assert!(matches!(
        Instance::from_csp_text("1\n0 : 1\nw 0 1 x\n"),
        Err(InstanceError::Fault(InstanceFault::BadVarWeight(0, WeightError::BadInteger)))
    ));
}

#[test]
fn csp_configurations_are_sorted_and_distinct() {
    let inst = Instance::from_csp_text("2\n1 0 : 3 1 3 0\n").expect("csp");
    assert_eq!(inst.tensors[0].vars, vec![1, 0]);
    assert_eq!(inst.tensors[0].allow, vec![0, 1, 3]);
    assert_eq!(count_int(&inst), "3");
}

fn half_adder() -> CircuitSatData {
    let var = |n: &str| BooleanExpr { op: BooleanOp::Var(n.to_string()) };
    CircuitSatData {
        circuit: Circuit {
            assignments: vec![
                Assignment {
                    expr: BooleanExpr { op: BooleanOp::Xor(vec![var("a"), var("b")]) },
                    outputs: vec!["s".into()],
                },
                Assignment {
                    expr: BooleanExpr { op: BooleanOp::And(vec![var("b"), var("a")]) },
                    outputs: vec!["c".into()],
                },
            ],
        },
        variables: ["idle", "a", "b", "s", "c"].iter().map(|v| v.to_string()).collect(),
    }
}

#[test]
fn circuits_keep_every_declared_wire() {
    let inst = Instance::from_circuit_sat(half_adder()).expect("circuit");
    assert_eq!(inst.n_vars, 5);
    assert_eq!(inst.tensors[0].vars, vec![1, 2, 3]);
    assert_eq!(inst.tensors[0].allow, vec![0, 3, 5, 6].iter().map(|&c: &u64| c).collect::<Vec<_>>());
    assert_eq!(inst.tensors[1].vars, vec![2, 1, 4]);
    assert_eq!(inst.validate(), Ok(()));
    // Four settings of the inputs, and the idle wire is free.
    assert_eq!(count_int(&inst), "8");
}

#[test]
fn a_malformed_circuit_is_no_instance() {
    let mut circuit = half_adder();
    circuit.variables.pop();
    assert!(matches!(
        Instance::from_circuit_sat(circuit),
        Err(InstanceError::Circuit(CircuitError::UnknownVar(n))) if n == "c"
    ));
}

#[test]
fn the_weighted_count_does_not_depend_on_the_strategy() {
    let cnf = "p cnf 4 3\nc p weight 1 2/3 0\nc p weight -4 5 0\n1 2 0\n-2 3 0\n3 4 -1 0\n";
    let inst = Instance::from_dimacs_text(cnf).expect("cnf");
    let want = count_int(&inst);
    for budget in [0, 1, 3, 5] {
        for branch in [CountBranch::PerConfig, CountBranch::BlockMerge] {
            let (c, _) = inst.count(budget, 3, branch).expect("count");
            assert_eq!(c.to_text(), want);
        }
    }
}
