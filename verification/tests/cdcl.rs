use boolean_inference::adapter::Clause;
use boolean_inference::cdcl::{clause_query, prepare, project, Answer, CdclError, CdclStats, Query, VarMap};
use boolean_inference::domain::DomainMask;

const BOTH: DomainMask = DomainMask::BOTH;

#[test]
fn decisions_become_assumptions_on_cnf_variables() {
    let map = VarMap::new(vec![2, 0], 3, 10).unwrap();
    match prepare(&map, &[BOTH, BOTH], &[(1, true), (0, false)]).unwrap() {
        Query::Ask { snapshot, assumptions } => {
            assert_eq!(snapshot, vec![DomainMask::D0, DomainMask::D1]);
            assert_eq!(assumptions, vec![(0, true), (2, false)]);
        }
        Query::Conflict(_) => panic!("the decisions fit"),
    }
}

#[test]
fn a_decision_against_the_domains_is_a_conflict() {
    let map = VarMap::new(vec![0, 1], 2, 10).unwrap();
    match prepare(&map, &[DomainMask::D1, BOTH], &[(1, true), (0, false)]).unwrap() {
        Query::Conflict(d) => assert_eq!(d[0], DomainMask::NONE),
        Query::Ask { .. } => panic!("the decision contradicts the domain"),
    }
}

#[test]
fn malformed_maps_and_queries_are_reported() {
    assert!(matches!(VarMap::new(vec![11], 1, 10), Err(CdclError::TooLarge(11))));
    assert!(matches!(VarMap::new(vec![1, 1], 2, 10), Err(CdclError::Duplicate(1))));
    let map = VarMap::new(vec![0], 1, 10).unwrap();
    assert!(matches!(prepare(&map, &[BOTH, BOTH], &[]), Err(CdclError::Length(2, 1))));
    assert!(matches!(prepare(&map, &[BOTH], &[(3, true)]), Err(CdclError::OutOfRange(3))));
}

#[test]
fn auxiliaries_stay_hidden_and_implications_are_projected() {
    // Native variables are CNF variables 0, 1 and 2; variable 3 is an auxiliary.
    let map = VarMap::new(vec![0, 1, 2], 4, 10).unwrap();
    let answer = Answer {
        conflict: false,
        values: vec![None, None, None],
        propagated: vec![(3, true), (2, true)],
    };
    let out = project(&map, vec![DomainMask::D1, BOTH, BOTH], &answer);
    assert_eq!(out, vec![DomainMask::D1, BOTH, DomainMask::D1]);
}

#[test]
fn a_conflict_empties_the_first_domain() {
    let map = VarMap::new(vec![0, 1], 2, 10).unwrap();
    let answer = Answer { conflict: true, values: vec![None, None], propagated: Vec::new() };
    assert_eq!(project(&map, vec![BOTH, BOTH], &answer)[0], DomainMask::NONE);
}

#[test]
fn a_clause_extends_the_decisions() {
    let out = clause_query(&[(7, true)], &Clause::new(0b101, 0b100), &[1, 2, 3]);
    assert_eq!(out, vec![(7, true), (1, false), (3, true)]);
}

#[test]
fn queries_are_counted() {
    let mut stats = CdclStats::new();
    stats.record_query(3, false);
    stats.record_query(2, true);
    assert_eq!(stats.propagation_calls, 2);
    assert_eq!(stats.propagation_conflicts, 1);
    assert_eq!(stats.assumption_literals, 5);
    assert_eq!(stats.full_search_calls, 0);
}
