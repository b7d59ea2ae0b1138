use boolean_inference::adapter::NaiveBranch;
use boolean_inference::api::{solve_circuit_sat, Solution};
use boolean_inference::circuit::{
    network_from_circuit_sat, Assignment, BooleanExpr, BooleanOp, Circuit, CircuitError, CircuitSatData,
};
use boolean_inference::domain::DomainMask;

fn var(name: &str) -> BooleanExpr {
    BooleanExpr { op: BooleanOp::Var(name.to_string()) }
}

fn constant(value: bool) -> BooleanExpr {
    BooleanExpr { op: BooleanOp::Const(value) }
}

fn set(output: &str, expr: BooleanExpr) -> Assignment {
    Assignment { expr, outputs: vec![output.to_string()] }
}

fn data(variables: &[&str], assignments: Vec<Assignment>) -> CircuitSatData {
    CircuitSatData {
        circuit: Circuit { assignments },
        variables: variables.iter().map(|v| v.to_string()).collect(),
    }
}

fn and_circuit() -> CircuitSatData {
    data(
        &["a", "b", "c"],
        vec![set("c", BooleanExpr { op: BooleanOp::And(vec![var("a"), var("b")]) })],
    )
}

#[test]
fn single_and_gate_builds_the_and_relation() {
    // c = a AND b, over wires [a, b, c].
    let p = network_from_circuit_sat(and_circuit()).expect("load");
    assert_eq!(p.network.tensors.len(), 1);
    let t = &p.network.tensors[0];
    // a,b,c all used -> identity compression; axes = [a=0, b=1, c=2].
    assert_eq!(t.var_axes, vec![0, 1, 2]);
    // Support (config bit0=a, bit1=b, bit2=c): c == a&b -> {000,001,010,111}.
    let mut support = p.network.support(t).to_vec();
    support.sort_unstable();
    assert_eq!(support, vec![0, 1, 2, 7]);
}

#[test]
fn const_gate_becomes_a_unit_constraint() {
    // s = Const(true): forces wire s = 1.
    let p = network_from_circuit_sat(data(&["s"], vec![set("s", constant(true))])).expect("load");
    let t = &p.network.tensors[0];
    assert_eq!(t.var_axes, vec![0]);
    // Over [s]: only s=1 satisfies -> support = {1}.
    assert_eq!(p.network.support(t), &[1]);
}

#[test]
fn equality_gate_builds_the_equality_relation() {
    let p = network_from_circuit_sat(data(&["x", "y"], vec![set("y", var("x"))])).expect("load");
    assert_eq!(p.network.support(&p.network.tensors[0]), &[0, 3]);
}

#[test]
fn or_xor_and_not_gates_build_their_relations() {
    let or = BooleanExpr { op: BooleanOp::Or(vec![var("a"), var("b")]) };
    let p = network_from_circuit_sat(data(&["a", "b", "c"], vec![set("c", or)])).expect("load");
    assert_eq!(p.network.support(&p.network.tensors[0]), &[0, 5, 6, 7]);
    let xor = BooleanExpr { op: BooleanOp::Xor(vec![var("a"), var("b")]) };
    let p = network_from_circuit_sat(data(&["a", "b", "c"], vec![set("c", xor)])).expect("load");
    assert_eq!(p.network.support(&p.network.tensors[0]), &[0, 3, 5, 6]);
    let not = BooleanExpr { op: BooleanOp::Not(Box::new(var("a"))) };
    let p = network_from_circuit_sat(data(&["a", "c"], vec![set("c", not)])).expect("load");
    assert_eq!(p.network.support(&p.network.tensors[0]), &[1, 2]);
}

#[test]
fn a_gate_that_reads_its_own_output_is_held_to_it() {
    // c = NOT c holds nowhere, and c = c everywhere.
    let not = BooleanExpr { op: BooleanOp::Not(Box::new(var("c"))) };
    let p = network_from_circuit_sat(data(&["c"], vec![set("c", not)])).expect("load");
    assert_eq!(p.network.tensors.len(), 1);
    assert_eq!(p.network.tensors[0].var_axes, vec![0]);
    assert!(p.network.support(&p.network.tensors[0]).is_empty());
    let p = network_from_circuit_sat(data(&["c"], vec![set("c", var("c"))])).expect("load");
    assert_eq!(p.network.support(&p.network.tensors[0]), &[0, 1]);
}

#[test]
fn malformed_gates_are_reported() {
    let unknown = data(&["a"], vec![set("a", var("zz"))]);
    assert!(matches!(network_from_circuit_sat(unknown), Err(CircuitError::UnknownVar(n)) if n == "zz"));
    let output = data(&["a"], vec![set("b", var("a"))]);
    assert!(matches!(network_from_circuit_sat(output), Err(CircuitError::UnknownVar(n)) if n == "b"));
    let two = data(&["a"], vec![Assignment { expr: var("a"), outputs: vec!["a".into(), "a".into()] }]);
    assert!(matches!(network_from_circuit_sat(two), Err(CircuitError::BadOutputArity(2))));
    let names: Vec<String> = (0..40).map(|i| format!("w{i}")).collect();
    let wide = CircuitSatData {
        circuit: Circuit {
            assignments: vec![Assignment {
                expr: BooleanExpr { op: BooleanOp::And(names[1..].iter().map(|n| var(n)).collect()) },
                outputs: vec![names[0].clone()],
            }],
        },
        variables: names,
    };
    assert!(matches!(network_from_circuit_sat(wide), Err(CircuitError::ArityCap(40))));
}

#[test]
fn wire_values_read_named_wires() {
    let mut circuit = and_circuit();
    circuit.variables.push("unused".into());
    let p = network_from_circuit_sat(circuit).expect("load");
    let solution = vec![DomainMask::D1, DomainMask::D0, DomainMask::BOTH];
    assert_eq!(p.wire_value(&solution, "a"), Some(true));
    assert_eq!(p.wire_value(&solution, "b"), Some(false));
    assert_eq!(p.wire_value(&solution, "c"), None);
    assert_eq!(p.wire_value(&solution, "unused"), None);
    assert_eq!(p.wire_value(&solution, "nowhere"), None);
}

#[test]
fn sat_instance_returns_a_named_model() {
    match solve_circuit_sat(and_circuit(), &NaiveBranch).unwrap() {
        Solution::Sat(assignment) => {
            let value = |name| assignment.iter().find(|(n, _)| n == name).unwrap().1;
            assert_eq!(value("c"), value("a") && value("b"));
        }
        Solution::Unsat => panic!("expected SAT"),
    }
}

#[test]
fn contradictory_gates_are_unsat() {
    let circuit = data(&["x"], vec![set("x", constant(true)), set("x", constant(false))]);
    assert_eq!(solve_circuit_sat(circuit, &NaiveBranch).unwrap(), Solution::Unsat);
}

#[test]
fn unused_variables_default_false() {
    let circuit = data(&["x", "unused"], vec![set("x", constant(true))]);
    assert_eq!(
        solve_circuit_sat(circuit, &NaiveBranch).unwrap(),
        Solution::Sat(vec![("x".into(), true), ("unused".into(), false)])
    );
}

#[test]
fn a_repeated_name_is_listed_once_at_its_last_place() {
    let circuit = data(&["x", "y", "x"], vec![set("x", constant(true)), set("y", var("x"))]);
    assert_eq!(
        solve_circuit_sat(circuit, &NaiveBranch).unwrap(),
        Solution::Sat(vec![("y".into(), true), ("x".into(), true)])
    );
}
