use boolean_inference::adapter::{BranchingTable, Clause, MeasureAdapter, NaiveBranch, RuleProblem, RuleSolver};
use boolean_inference::ct::build_tables;
use boolean_inference::domain::DomainMask;
use boolean_inference::measure::{measure_core, Measure};
use boolean_inference::network::{setup_problem, ConstraintNetwork};
use boolean_inference::problem::SolverBuffer;
use boolean_inference::propagate::probe;
use boolean_inference::trail::Trail;
use std::sync::Arc;

fn or_chain() -> ConstraintNetwork {
    // (x0∨x1) ∧ (x1∨x2): forces x1=1 ⇒ both satisfied; x0=0 ⇒ x1=1 forced.
    let or2 = vec![false, true, true, true];
    setup_problem(3, vec![vec![0, 1], vec![1, 2]], vec![or2.clone(), or2])
}

fn rule_problem(cn: &ConstraintNetwork, doms: Vec<DomainMask>) -> RuleProblem {
    let (masks, _tables) = build_tables(cn);
    RuleProblem::new(Arc::new(cn.clone()), Arc::new(masks), doms)
}

#[test]
fn apply_branch_matches_probe() {
    let cn = or_chain();
    let base = vec![DomainMask::BOTH; 3];
    let vars = vec![0usize, 1, 2];
    let clause = Clause::new(0b001, 0b000); // x0 = 0
    let p = rule_problem(&cn, base.clone());
    let (sub, ok) = p.apply_branch(&clause, &vars);
    assert!(ok);

    let (masks2, mut tables2) = build_tables(&cn);
    let mut doms2 = base.clone();
    let mut buf2 = SolverBuffer::new(&cn);
    let mut trail2 = Trail::new();
    let expected = probe(
        &cn,
        &mut doms2,
        &masks2,
        &mut tables2,
        &mut buf2,
        &mut trail2,
        &vars,
        clause.mask,
        clause.val,
        |d| d.to_vec(),
    );
    assert_eq!(sub.doms, expected, "apply_branch must equal probe");
    assert_eq!(sub.doms[0], DomainMask::D0);
    assert_eq!(sub.doms[1], DomainMask::D1); // forced by (x0∨x1)
    assert!(buf2.queue.is_empty());
}

#[test]
fn apply_branch_shares_the_network() {
    let p = rule_problem(&or_chain(), vec![DomainMask::BOTH; 3]);
    let (sub, _) = p.apply_branch(&Clause::new(0b010, 0b010), &[0, 1, 2]);
    assert!(Arc::ptr_eq(&p.cn, &sub.cn));
}

#[test]
fn is_empty_tracks_unfixed_vars() {
    let cn = or_chain();
    let unfixed = rule_problem(&cn, vec![DomainMask::BOTH; 3]);
    assert!(!unfixed.is_empty());
    let fixed = rule_problem(&cn, vec![DomainMask::D1, DomainMask::D0, DomainMask::D1]);
    assert!(fixed.is_empty());
}

#[test]
fn measure_adapter_matches_measure_core() {
    let cn = or_chain();
    let doms = vec![DomainMask::BOTH, DomainMask::D1, DomainMask::BOTH];
    let p = rule_problem(&cn, doms.clone());
    for m in [Measure::NumUnfixedVars, Measure::NumUnfixedTensors, Measure::NumHardTensors] {
        assert_eq!(MeasureAdapter(m).measure(&p), measure_core(&cn, &doms, m));
    }
}

#[test]
fn naive_rule_covers_every_nonempty_three_bit_relation() {
    let cn = setup_problem(3, vec![vec![0], vec![1], vec![2]], vec![vec![true, true]; 3]);
    let problem = rule_problem(&cn, vec![DomainMask::BOTH; 3]);
    for support in 1u16..(1u16 << 8) {
        let groups: Vec<Vec<u64>> = (0u64..8).filter(|&c| support & (1u16 << c) != 0).map(|c| vec![c]).collect();
        let table = BranchingTable { bit_length: 3, table: groups.clone() };
        let rule = NaiveBranch
            .optimal_rule(&problem, &table, &[0, 1, 2], Measure::NumUnfixedVars)
            .expect("rule");
        assert_eq!(rule.len(), groups.len());
        assert!(groups.iter().all(|g| rule.iter().any(|c| c.covered_by(g[0]))));
    }
}
