use std::sync::Arc;

use boolean_inference::adapter::{Clause, NaiveBranch, RuleProblem};
use boolean_inference::cdcl::{prepare, project, Answer, Query, VarMap};
use boolean_inference::csp::network_from_csp;
use boolean_inference::ct::build_tables;
use boolean_inference::domain::DomainMask;
use boolean_inference::measure::Measure;
use boolean_inference::network::{setup_problem, ConstraintNetwork};
use boolean_inference::problem::TnProblem;
use boolean_inference::selector::Selector;
use boolean_inference::util::is_entailed;

fn or_chain() -> ConstraintNetwork {
    let or2 = vec![false, true, true, true];
    setup_problem(3, vec![vec![0, 1], vec![1, 2]], vec![or2.clone(), or2])
}

fn holds(cn: &ConstraintNetwork, bits: u32) -> bool {
    cn.tensors.iter().all(|t| {
        let config = t.var_axes.iter().enumerate().fold(0u32, |c, (i, &v)| c | (((bits >> v) & 1) << i));
        cn.support(t).contains(&config)
    })
}

#[test]
fn names_of_measures_are_read_back() {
    for m in [Measure::NumUnfixedVars, Measure::NumUnfixedTensors, Measure::NumHardTensors] {
        assert_eq!(Measure::parse(m.label()), Ok(m));
    }
    assert_eq!(
        Measure::parse("rows"),
        Err("invalid --measure value: rows; expected vars, tensors, or hard-tensors".to_string())
    );
}

#[test]
fn entailed_constraints_stay_entailed() {
    let cn = or_chain();
    let (masks, _) = build_tables(&cn);
    let mut doms = vec![DomainMask::BOTH; 3];
    assert!(!is_entailed(&cn, 0, &doms, &masks));
    doms[0] = DomainMask::D1;
    assert!(is_entailed(&cn, 0, &doms, &masks));
    doms[1] = DomainMask::D0;
    assert!(is_entailed(&cn, 0, &doms, &masks));
}

#[test]
fn the_order_of_work_does_not_change_what_propagation_finds() {
    let cn = or_chain();
    let (masks, _) = build_tables(&cn);
    let p = RuleProblem::new(Arc::new(cn), Arc::new(masks), vec![DomainMask::BOTH; 3]);
    let (a, ok_a) = p.apply_branch(&Clause::new(0b11, 0b00), &[0, 2]);
    let (b, ok_b) = p.apply_branch(&Clause::new(0b11, 0b00), &[2, 0]);
    assert!(ok_a && ok_b);
    assert_eq!(a.doms, b.doms);
    assert_eq!(a.doms, vec![DomainMask::D0, DomainMask::D1, DomainMask::D0]);
}

#[test]
fn decisions_that_the_domains_hold_change_nothing() {
    let map = VarMap::new(vec![0, 1], 2, 10).unwrap();
    let base = vec![DomainMask::D1, DomainMask::BOTH];
    match prepare(&map, &base, &[(0, true)]).unwrap() {
        Query::Ask { snapshot, assumptions } => {
            assert_eq!(snapshot, base);
            assert_eq!(assumptions, vec![(0, true)]);
        }
        Query::Conflict(_) => panic!("the decision is held"),
    }
}

#[test]
fn sound_implications_lose_no_model() {
    // (x0 or x1) and (x1 or x2) with x0 false: x1 follows.
    let cn = or_chain();
    let map = VarMap::new(vec![0, 1, 2], 3, 10).unwrap();
    let base = vec![DomainMask::D0, DomainMask::BOTH, DomainMask::BOTH];
    let answer = Answer { conflict: false, values: vec![Some(false), Some(true), None], propagated: vec![(1, true)] };
    let after = project(&map, base.clone(), &answer);
    assert_eq!(after, vec![DomainMask::D0, DomainMask::D1, DomainMask::BOTH]);
    let within = |d: &[DomainMask], bits: u32| {
        (0..3).all(|v| if (bits >> v) & 1 == 1 { d[v].has1() } else { d[v].has0() })
    };
    for bits in 0..8 {
        if holds(&cn, bits) && within(&base, bits) {
            assert!(within(&after, bits));
        }
    }
}

#[test]
fn a_text_of_relations_has_the_models_it_lists() {
    // Variable 2 is in no relation.
    let cn = network_from_csp("4\n0 1 : 1 2\n3 1 : 3 0\n").expect("csp");
    assert_eq!(cn.orig_to_new, vec![Some(0), Some(1), None, Some(2)]);
    for bits in 0..8u32 {
        let (x0, x1, x3) = (bits & 1, (bits >> 1) & 1, (bits >> 2) & 1);
        assert_eq!(holds(&cn, bits), x0 != x1 && x3 == x1);
    }
}

#[test]
fn some_branch_of_a_rule_keeps_a_model() {
    for selector in [
        Selector::MostOccurrence { max_rows: 3 },
        Selector::MostOccurrenceReplay { max_rows: 3 },
        Selector::BinaryOccurrence,
    ] {
        let mut p = TnProblem::from_network(or_chain()).expect("root SAT");
        let open: Vec<usize> = (0..p.doms.len()).filter(|&v| !p.doms[v].is_fixed()).collect();
        if open.is_empty() {
            continue;
        }
        let rule = selector.findbest(
            &p.static_cn,
            &mut p.doms,
            &mut p.buffer,
            Measure::NumUnfixedVars,
            &NaiveBranch,
            &p.masks,
            &mut p.tables,
            &mut p.trail,
            &open,
            true,
        );
        let here = RuleProblem::new(p.static_cn.clone(), p.masks.clone(), p.doms.clone());
        let clauses = rule.clauses.expect("the problem has a model");
        assert!(clauses.iter().any(|c| here.apply_branch(c, &rule.variables).1));
        if let (Selector::MostOccurrenceReplay { .. }, Some(told)) = (selector, rule.diagnostics) {
            assert!(told.same_state_replay.is_some());
        }
    }
}
