use boolean_inference::adapter::{Clause, NaiveBranch};
use boolean_inference::ct::build_tables;
use boolean_inference::domain::DomainMask;
use boolean_inference::measure::Measure;
use boolean_inference::network::{setup_problem, ConstraintNetwork};
use boolean_inference::problem::SolverBuffer;
use boolean_inference::table::{adopt_rule, compute_branching_result};
use boolean_inference::trail::Trail;
use std::sync::Arc;

fn or_network() -> Arc<ConstraintNetwork> {
    let or2 = vec![false, true, true, true];
    Arc::new(setup_problem(
        3,
        vec![vec![0, 1], vec![1, 2]],
        vec![or2.clone(), or2],
    ))
}

#[test]
fn closed_region_fixes_one_feasible_config() {
    let cn = or_network();
    let mut doms = vec![DomainMask::BOTH; 3];
    let mut buf = SolverBuffer::new(&cn);
    let (masks, mut tables) = build_tables(&cn);
    let masks = Arc::new(masks);
    let mut trail = Trail::new();
    // Generous budget: the region absorbs the whole network, so it is
    // CLOSED (no external tensor) and the shortcut must return a single
    // full-mask clause pinning one feasible config — not a covering rule.
    let result = compute_branching_result(
        &cn,
        &mut doms,
        &mut buf,
        1,
        1 << 10,
        Measure::NumUnfixedVars,
        &NaiveBranch,
        &masks,
        &mut tables,
        &mut trail,
        true,
        true,
    );
    assert_eq!(result.variables, vec![0, 1, 2]);
    let diagnostics = result.diagnostics.expect("region diagnostics");
    assert!(diagnostics.closed);
    assert_eq!(diagnostics.boundary_variables, 0);
    assert_eq!(diagnostics.feasible_rows, 5);
    assert_eq!(diagnostics.branching_rows, 5);
    assert!(diagnostics.branching_vector.is_empty());
    assert_eq!(diagnostics.cover_verified, None);
    let replay = diagnostics.same_state_replay.expect("closed replay");
    assert_eq!(replay.binary.branches, 2);
    assert_eq!(replay.binary.decision_literals, 2);
    // x1 = 0 forces both neighbours, x1 = 1 leaves them free.
    assert_eq!(replay.binary.branching_vector, vec![3, 1]);
    assert_eq!(replay.naive.branches, 5);
    assert_eq!(replay.naive.decision_literals, 15);
    assert_eq!(replay.naive.branching_vector, vec![3; 5]);
    let clauses = result.clauses.expect("a branching rule should exist");
    assert_eq!(clauses.len(), 1, "closed region: one branch, no retry");
    assert_eq!(clauses[0].mask, 0b111, "every region var is fixed");
    // The pinned config is one of the five feasible ones.
    assert!([2u64, 3, 5, 6, 7].contains(&clauses[0].val));
}

#[test]
fn every_distinct_config_is_its_own_group() {
    // Budget 3 keeps only the seed tensor T0 over vars {0,1}.
    // T0's feasible configs {01,10,11} = {1,2,3} each form a singleton
    // group, and the rule must cover all three.
    let cn = or_network();
    let mut doms = vec![DomainMask::BOTH; 3];
    let mut buf = SolverBuffer::new(&cn);
    let (masks, mut tables) = build_tables(&cn);
    let masks = Arc::new(masks);
    let mut trail = Trail::new();
    let result = compute_branching_result(
        &cn,
        &mut doms,
        &mut buf,
        0,
        3,
        Measure::NumUnfixedVars,
        &NaiveBranch,
        &masks,
        &mut tables,
        &mut trail,
        true,
        true,
    );
    assert_eq!(result.variables, vec![0, 1]);
    let diagnostics = result.diagnostics.expect("region diagnostics");
    assert!(!diagnostics.closed);
    assert_eq!(diagnostics.region_tensors, 1);
    assert_eq!(diagnostics.region_variables, 2);
    assert_eq!(diagnostics.boundary_variables, 1);
    assert_eq!(diagnostics.joined_rows, 3);
    assert_eq!(diagnostics.feasible_rows, 3);
    assert_eq!(diagnostics.branching_rows, 3);
    assert!(!diagnostics.branching_vector.is_empty());
    assert_eq!(diagnostics.cover_verified, Some(true));
    let replay = diagnostics.same_state_replay.expect("open replay");
    assert_eq!(replay.binary.branches, 2);
    assert_eq!(replay.naive.branches, 3);
    assert_eq!(replay.naive.decision_literals, 6);
    assert_eq!(replay.naive.branching_vector.len(), 3);
    let clauses = result.clauses.expect("a branching rule should exist");
    assert!([1u64, 2, 3].iter().all(|&config| clauses.iter().any(|clause: &Clause| clause.covered_by(config))));
}

#[test]
fn no_feasible_config_returns_none() {
    // All eight 3-literal clauses over 3 vars: locally every config of the
    // grown region is refuted, so the grown relation is already empty and
    // the branching result is a no-op.
    let mut scopes = Vec::new();
    let mut tabs = Vec::new();
    for miss in 0..8usize {
        scopes.push(vec![0, 1, 2]);
        let mut dense = vec![true; 8];
        dense[miss] = false; // clause forbidding exactly config `miss`
        tabs.push(dense);
    }
    let cn = Arc::new(setup_problem(3, scopes, tabs));
    let mut doms = vec![DomainMask::BOTH; 3];
    let mut buf = SolverBuffer::new(&cn);
    let (masks, mut tables) = build_tables(&cn);
    let masks = Arc::new(masks);
    let mut trail = Trail::new();
    let result = compute_branching_result(
        &cn,
        &mut doms,
        &mut buf,
        0,
        1 << 10,
        Measure::NumUnfixedVars,
        &NaiveBranch,
        &masks,
        &mut tables,
        &mut trail,
        true,
        true,
    );
    assert!(result.clauses.is_none());
    assert_eq!(result.variables, vec![0, 1, 2]); // region vars reported on the no-op path
    let diagnostics = result.diagnostics.expect("region diagnostics");
    assert_eq!(diagnostics.feasible_rows, 0);
    assert!(diagnostics.branching_vector.is_empty());
    assert!(diagnostics.same_state_replay.is_none());
}

#[test]
fn a_proposal_is_taken_where_it_covers_the_rows() {
    let rows = vec![1u64, 2, 3];
    let wide = vec![Clause::new(0b01, 0b01), Clause::new(0b11, 0b10)];
    assert_eq!(adopt_rule(Some(wide.clone()), &rows, 2), wide);
    let full: Vec<Clause> = rows.iter().map(|&c| Clause::new(0b11, c)).collect();
    // It misses a row, sets nothing, or is missing altogether.
    assert_eq!(adopt_rule(Some(vec![Clause::new(0b01, 0b01)]), &rows, 2), full);
    assert_eq!(adopt_rule(Some(vec![Clause::new(0, 0)]), &rows, 2), full);
    assert_eq!(adopt_rule(None, &rows, 2), full);
}
