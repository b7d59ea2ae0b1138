use boolean_inference::adapter::{Clause, NaiveBranch};
use boolean_inference::cli::cube_literals;
use boolean_inference::counting::{bbcount, CountBranch};
use boolean_inference::cube::{
    generate_cubes_with_cutoff, generate_cubes_with_cutoff_policy, generate_cubes_with_cutoff_trace, CncSatPolicy, Cube,
    CubeCutoff, CubeList, CubeNodeKind, CubeStats,
};
use boolean_inference::dimacs::{network_from_dimacs, DimacsError};
use boolean_inference::dnf::disjointize_clauses_with_sources;
use boolean_inference::domain::DomainMask;
use boolean_inference::measure::Measure;
use boolean_inference::network::{original_ids, setup_problem, ConstraintNetwork};
use boolean_inference::problem::TnProblem;
use boolean_inference::region::grow_region;
use boolean_inference::selector::Selector;
use boolean_inference::semiring::BigCount;
use boolean_inference::solver::bbsat;
use boolean_inference::trail::Trail;
use boolean_inference::weighted::WeightedNetwork;

const CHAIN: &str = "p cnf 6 10\n1 2 0\n-1 -2 0\n2 3 0\n-2 -3 0\n3 4 0\n-3 -4 0\n4 5 0\n-4 -5 0\n5 6 0\n-5 -6 0\n";

fn problem(cnf: &str) -> TnProblem {
    TnProblem::from_network(network_from_dimacs(cnf).expect("parse")).expect("satisfiable")
}

fn or2() -> Vec<bool> {
    vec![false, true, true, true]
}

#[test]
fn the_binary_rule_tries_false_first() {
    let mut p = problem("p cnf 5 2\n3 5 0\n-3 -5 0\n");
    let ids = original_ids(&p.static_cn);
    let mut list = CubeList::new();
    generate_cubes_with_cutoff(&mut p, Selector::BinaryOccurrence, Measure::NumUnfixedVars, &NaiveBranch, CubeCutoff::RemainingVars(2), &mut list)
        .expect("the list never refuses");
    let lines: Vec<Vec<i64>> = list.cubes.iter().map(|c| cube_literals(&c.decisions, &ids)).collect();
    assert_eq!(lines, vec![vec![-3], vec![3]]);
}

#[test]
fn reported_leaves_are_the_cubes_and_every_clause_is_followed() {
    for selector in [Selector::BinaryOccurrence, Selector::MostOccurrence { max_rows: 4 }] {
        for n in 1..8 {
            let cutoff = CubeCutoff::RemainingVars(n);
            let mut plain = CubeList::new();
            generate_cubes_with_cutoff(&mut problem(CHAIN), selector, Measure::NumUnfixedVars, &NaiveBranch, cutoff, &mut plain)
                .expect("the list never refuses");
            let mut list = CubeList::new();
            generate_cubes_with_cutoff_trace(&mut problem(CHAIN), selector, Measure::NumUnfixedVars, &NaiveBranch, cutoff, &mut list)
                .expect("the list never refuses");
            let key = |c: &Cube| (c.decisions.clone(), c.sigma_all, c.refuted, c.sat);
            assert_eq!(plain.cubes.iter().map(key).collect::<Vec<_>>(), list.cubes.iter().map(key).collect::<Vec<_>>());
            assert!(plain.traced.is_empty());
            assert!(!list.traced.is_empty());
            let ends: Vec<_> = list
                .traced
                .iter()
                .filter(|x| x.kind != CubeNodeKind::Branch)
                .map(|x| (x.decisions.clone(), x.sigma_all, x.kind == CubeNodeKind::Refuted, x.kind == CubeNodeKind::Sat))
                .collect();
            assert_eq!(ends, list.cubes.iter().map(key).collect::<Vec<_>>());
            for x in &list.traced {
                for i in 0..x.clauses.len() {
                    let below = list.traced.iter().filter(|y| y.parent_id == Some(x.node_id) && y.child_index == Some(i)).count();
                    assert_eq!(below, 1);
                }
            }
        }
    }
}

fn decided(cutoff: CubeCutoff) -> (Vec<Cube>, CubeStats) {
    let mut list = CubeList::new();
    let stats = generate_cubes_with_cutoff_policy(
        &mut problem(CHAIN),
        Selector::BinaryOccurrence,
        Measure::NumUnfixedVars,
        &NaiveBranch,
        cutoff,
        CncSatPolicy::StopDecision,
        None,
        &mut list,
    )
    .expect("the list never refuses");
    (list.cubes, stats)
}

#[test]
fn only_a_model_stops_a_generation_that_is_alone() {
    let (cubes, stats) = decided(CubeCutoff::RemainingVars(3));
    assert!(!stats.stopped_early);
    assert!(cubes.len() > 1 && cubes.iter().all(|c| !c.sat));
    let (cubes, stats) = decided(CubeCutoff::CcDifficulty(u128::MAX));
    assert!(stats.stopped_early);
    assert_eq!(cubes.iter().filter(|c| c.sat).count(), 1);
    assert!(cubes.last().expect("a model").sat);
}

#[test]
fn clauses_that_do_not_overlap_stay_as_they_are() {
    let rule = vec![Clause::new(0b11, 0b01), Clause::new(0b01, 0b00), Clause::new(0b11, 0b11)];
    let parts = disjointize_clauses_with_sources(&rule);
    let plain: Vec<(u64, u64, usize)> = parts.iter().map(|(c, k)| (c.mask, c.val, *k)).collect();
    assert_eq!(plain, vec![(0b11, 0b01, 0), (0b01, 0b00, 1), (0b11, 0b11, 2)]);
}

#[test]
fn a_region_starts_from_the_constraint_with_the_fewest_rows() {
    // Three rows, one row and two rows around variable 0.
    let cn = setup_problem(4, vec![vec![0, 1], vec![0, 2], vec![0, 3]], vec![or2(), vec![true, false, false, false], vec![true, true, false, false]]);
    let doms = vec![DomainMask::BOTH; 4];
    let (region, rel) = grow_region(&cn, &doms, 0, 0);
    assert_eq!(region.tensors, vec![1]);
    assert_eq!(rel.rows, vec![0]);
    // Of the joins that fit, the one with the fewest rows comes first.
    let (region, rel) = grow_region(&cn, &doms, 0, 1);
    assert_eq!(region.tensors, vec![0, 1, 2]);
    assert_eq!(rel.rows.len(), 1);
}

#[test]
fn of_equal_joins_that_of_the_lower_constraint_is_taken() {
    // The seed has two rows. Joined with either neighbour it has three, with both it has four.
    let cn = setup_problem(
        4,
        vec![vec![0, 1], vec![0, 2], vec![0, 3]],
        vec![vec![true, false, false, true], vec![true, true, true, false], vec![false, true, true, true]],
    );
    let doms = vec![DomainMask::BOTH; 4];
    let (region, rel) = grow_region(&cn, &doms, 0, 3);
    assert_eq!(region.tensors, vec![0, 1]);
    assert_eq!(rel.rows.len(), 3);
}

#[test]
fn the_smaller_join_is_absorbed_first() {
    // The second constraint shares more with the seed, but joined with it there are three rows, and
    // with the third one two. Both together do not fit.
    let cn = setup_problem(
        4,
        vec![vec![0, 1], vec![0, 1, 2], vec![0, 3]],
        vec![
            vec![true, false, false, true],
            vec![true, false, false, true, true, false, false, false],
            vec![true, false, true, false],
        ],
    );
    let doms = vec![DomainMask::BOTH; 4];
    let (region, rel) = grow_region(&cn, &doms, 1, 3);
    assert_eq!(region.tensors, vec![0, 2]);
    assert_eq!(rel.rows.len(), 2);
}

#[test]
fn wide_clauses_are_refused() {
    let literals: Vec<String> = (1..=21).map(|v| v.to_string()).collect();
    let wide = format!("p cnf 21 1\n{} 0\n", literals.join(" "));
    assert!(matches!(network_from_dimacs(&wide), Err(DimacsError::ClauseTooWide(21, 20))));
    let fitting = format!("p cnf 20 1\n{} 0\n", literals[..20].join(" "));
    assert_eq!(network_from_dimacs(&fitting).expect("parse").tensors.len(), 1);
}

fn counted(cn: &ConstraintNetwork, branch: CountBranch) -> (String, u64, u64) {
    let mut p = TnProblem::from_network_counting(cn.clone()).expect("satisfiable");
    let w = WeightedNetwork::<BigCount>::unit(&p.static_cn);
    let solve = bbcount::<BigCount>(&mut p, &w, 4, branch);
    (solve.models.to_decimal(), solve.stats.region_branches, solve.stats.region_configs)
}

#[test]
fn one_branch_for_each_configuration_compresses_nothing() {
    let cn = setup_problem(5, vec![vec![0, 1], vec![1, 2], vec![2, 3], vec![3, 4]], vec![or2(); 4]);
    let (models, branches, configs) = counted(&cn, CountBranch::PerConfig);
    assert_eq!(models, "13");
    assert!(configs > 0);
    assert_eq!(branches, configs);
    let (models, branches, configs) = counted(&cn, CountBranch::BlockMerge);
    assert_eq!(models, "13");
    assert!(branches < configs);
}

#[test]
fn epochs_are_never_reused() {
    let mut log = Trail::new();
    let mut doms = vec![DomainMask::BOTH];
    let mut tables = Vec::new();
    let mut last = log.epoch();
    for round in 0..12 {
        match round % 4 {
            0 => log.record_dom(0, DomainMask::BOTH),
            1 => log.restore_to(0, &mut doms, &mut tables),
            2 => log.clear(),
            _ => {}
        }
        let mark = log.mark();
        let epoch = log.open();
        assert!(epoch > last);
        assert_eq!(log.epoch(), epoch);
        assert_eq!(log.mark(), mark);
        last = epoch;
    }
}

#[test]
fn a_search_counts_what_it_does() {
    // One rule with two branches, of which the first has a model.
    let mut p = problem("p cnf 2 2\n1 2 0\n-1 -2 0\n");
    let solve = bbsat(&mut p, Selector::BinaryOccurrence, Measure::NumUnfixedVars, &NaiveBranch);
    assert!(solve.found);
    assert_eq!(solve.solution, vec![DomainMask::D0, DomainMask::D1]);
    let stats = solve.stats;
    assert_eq!((stats.branching_nodes, stats.total_potential_subproblems, stats.total_visited_nodes), (1, 2, 1));
    assert_eq!((stats.component_splits, stats.region_branches, stats.region_configs), (0, 0, 0));
    // Two parts that do not share a variable.
    let mut p = problem("p cnf 4 4\n1 2 0\n-1 -2 0\n3 4 0\n-3 -4 0\n");
    let stats = bbsat(&mut p, Selector::BinaryOccurrence, Measure::NumUnfixedVars, &NaiveBranch).stats;
    assert_eq!((stats.branching_nodes, stats.total_potential_subproblems, stats.total_visited_nodes), (2, 4, 2));
    assert_eq!(stats.component_splits, 1);
}
