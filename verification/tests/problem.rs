use boolean_inference::domain::DomainMask;
use boolean_inference::network::setup_problem;
use boolean_inference::problem::TnProblem;

#[test]
fn from_network_runs_initial_propagation() {
    // unit clause (x0): tensor over [0] with dense [F,T] forces x0 = 1.
    let cn = setup_problem(1, vec![vec![0]], vec![vec![false, true]]);
    let p = TnProblem::from_network(cn).unwrap();
    assert_eq!(p.doms[0], DomainMask::D1);
    assert!(p.is_solved());
}
