use boolean_inference::adapter::NaiveBranch;
use boolean_inference::ct::build_tables;
use boolean_inference::domain::DomainMask;
use boolean_inference::measure::Measure;
use boolean_inference::network::setup_problem;
use boolean_inference::problem::SolverBuffer;
use boolean_inference::selector::{occurrence_pool, select_var_most_occurrence, Selector};
use boolean_inference::trail::Trail;
use std::sync::Arc;

fn or3() -> Vec<bool> {
    vec![false, true, true, true, true, true, true, true]
}
#[test]
fn most_occurrence_picks_highest_occurrence() {
    // T0 over [0,1,2], T1 over [1,2,3]: occurrences v0=1, v1=2, v2=2, v3=1
    // -> argmax is v1 (first to reach the max).
    let cn = setup_problem(4, vec![vec![0, 1, 2], vec![1, 2, 3]], vec![or3(), or3()]);
    let doms = vec![DomainMask::BOTH; 4];
    let mut buf = SolverBuffer::new(&cn);
    let (masks, _t) = build_tables(&cn);
    assert_eq!(
        select_var_most_occurrence(&cn, &doms, &mut buf, &[0, 1, 2, 3], &masks),
        Some(1)
    );
    assert_eq!(buf.occurrence_scores, vec![1, 2, 2, 1]);
    // Scope restriction: excluding v1 shifts the argmax to v2.
    assert_eq!(
        select_var_most_occurrence(&cn, &doms, &mut buf, &[0, 2, 3], &masks),
        Some(2)
    );
}

#[test]
fn selector_is_complete_on_binary_only_residuals() {
    // Pure binary network: every var still scores (occurrence counting has
    // no degree threshold), so selection works without any 2-SAT shortcut.
    let or2 = vec![false, true, true, true];
    let cn = setup_problem(3, vec![vec![0, 1], vec![1, 2]], vec![or2.clone(), or2]);
    let doms = vec![DomainMask::BOTH; 3];
    let mut buf = SolverBuffer::new(&cn);
    let (masks, _t) = build_tables(&cn);
    // occurrences: v0=1, v1=2, v2=1 -> v1.
    assert_eq!(
        select_var_most_occurrence(&cn, &doms, &mut buf, &[0, 1, 2], &masks),
        Some(1)
    );
}

#[test]
fn occurrence_pool_ranks_by_score_and_drops_free_vars() {
    // T0 over [0,1,2], T1 over [1,2,3]: scores v0=1,v1=2,v2=2,v3=1.
    let cn = setup_problem(4, vec![vec![0, 1, 2], vec![1, 2, 3]], vec![or3(), or3()]);
    let doms = vec![DomainMask::BOTH; 4];
    let mut buf = SolverBuffer::new(&cn);
    let (masks, _t) = build_tables(&cn);
    // Top-2 by score: v1, v2 (both score 2, ascending id order).
    assert_eq!(occurrence_pool(&cn, &doms, &mut buf, &masks, 2), vec![1, 2]);
    // Unbounded: all four, highest-first; ties ascending.
    assert_eq!(
        occurrence_pool(&cn, &doms, &mut buf, &masks, 16),
        vec![1, 2, 0, 3]
    );
}

#[test]
fn free_vars_are_batch_fixed_in_one_branch() {
    // A single FULL tensor over [0,1]: entailed at the root, so both vars
    // are free — findbest must return one single-branch clause fixing both
    // to 0 instead of branching over configs.
    let full2 = vec![true, true, true, true];
    let cn = Arc::new(setup_problem(2, vec![vec![0, 1]], vec![full2]));
    let mut doms = vec![DomainMask::BOTH; 2];
    let mut buf = SolverBuffer::new(&cn);
    let (masks, mut tables) = build_tables(&cn);
    let masks = Arc::new(masks);
    let mut trail = Trail::new();
    let sel = Selector::MostOccurrence { max_rows: 32 };
    let result = sel.findbest(
        &cn,
        &mut doms,
        &mut buf,
        Measure::NumUnfixedVars,
        &NaiveBranch,
        &masks,
        &mut tables,
        &mut trail,
        &[0, 1],
        false,
    );
    let (clauses, vars) = (result.clauses, result.variables);
    assert_eq!(vars, vec![0, 1]);
    let clauses = clauses.expect("free vars still produce a rule");
    assert_eq!(clauses.len(), 1, "one branch, no alternatives");
    assert_eq!(clauses[0].mask, 0b11);
    assert_eq!(clauses[0].val, 0b00);
}

#[test]
fn most_occurrence_findbest_returns_a_rule() {
    let cn = Arc::new(setup_problem(
        4,
        vec![vec![0, 1, 2], vec![1, 2, 3]],
        vec![or3(), or3()],
    ));
    let mut doms = vec![DomainMask::BOTH; 4];
    let mut buf = SolverBuffer::new(&cn);
    let (masks, mut tables) = build_tables(&cn);
    let masks = Arc::new(masks);
    let mut trail = Trail::new();
    let sel = Selector::MostOccurrence { max_rows: 32 };
    let result = sel.findbest(
        &cn,
        &mut doms,
        &mut buf,
        Measure::NumUnfixedVars,
        &NaiveBranch,
        &masks,
        &mut tables,
        &mut trail,
        &[0, 1, 2, 3],
        false,
    );
    let (clauses, vars) = (result.clauses, result.variables);
    assert!(clauses.is_some());
    assert!(!vars.is_empty());
}
