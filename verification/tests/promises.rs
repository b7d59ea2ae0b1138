use std::sync::Arc;

use boolean_inference::adapter::{BranchingTable, Clause, NaiveBranch, RuleProblem, RuleSolver};
use boolean_inference::blockmerge::{partition_is_valid, Subcube};
use boolean_inference::canonicalize::bounded_ve_canonicalize;
use boolean_inference::contract::{contract_region, join_all, setup_from_relations, Relation};
use boolean_inference::ct::{build_tables, RSparseBitSet};
use boolean_inference::cube::{generate_cubes_with_cutoff_trace, CubeCutoff, CubeList, CubeNodeKind};
use boolean_inference::dimacs::network_from_dimacs;
use boolean_inference::domain::DomainMask;
use boolean_inference::measure::Measure;
use boolean_inference::network::{assemble, setup_problem, ConstraintNetwork};
use boolean_inference::problem::{SolverBuffer, TnProblem};
use boolean_inference::region::{grow_region, Region, RegionCache};
use boolean_inference::selector::Selector;
use boolean_inference::semiring::{BigCount, RationalWeight};
use boolean_inference::table::compute_branching_result;
use boolean_inference::tail_greedy::{greedymerge_with_floor, MergeOracle, Recalled};
use boolean_inference::trail::Trail;
use boolean_inference::wcanonicalize::bounded_ve_canonicalize_weighted;
use boolean_inference::weighted::{original_id_weighted_relations, wjoin_all, WRelation, WeightedNetwork};

fn or2() -> Vec<bool> {
    vec![false, true, true, true]
}

fn ring() -> ConstraintNetwork {
    setup_problem(4, vec![vec![0, 1], vec![0, 3], vec![1, 2], vec![2, 3]], vec![or2(); 4])
}

#[test]
fn no_variable_within_the_budget_is_left() {
    // Eliminating one of 0 and 2 changes what eliminating the other costs.
    let out = bounded_ve_canonicalize(&ring(), 3, &[1, 3]).expect("satisfiable");
    assert_eq!(out.cn.orig_to_new, vec![None, Some(0), None, Some(1)]);
    // With nothing protected all of them go.
    let out = bounded_ve_canonicalize(&ring(), 3, &[]).expect("satisfiable");
    assert_eq!(out.cn.orig_to_new, vec![None; 4]);
    // A ring needs width three for its first variable.
    let out = bounded_ve_canonicalize(&ring(), 2, &[]).expect("satisfiable");
    assert_eq!(out.cn.orig_to_new, vec![Some(0), Some(1), Some(2), Some(3)]);
}

#[test]
fn no_variable_within_the_budget_is_left_in_a_weighted_network() {
    let out = bounded_ve_canonicalize_weighted::<BigCount>(&ring(), 3).expect("satisfiable");
    assert!(out.surviving.is_empty());
    assert_eq!(out.scalar.to_decimal(), "7");
    for budget in 0..4 {
        let out = bounded_ve_canonicalize_weighted::<BigCount>(&ring(), budget).expect("satisfiable");
        for v in 0..4usize {
            let mut partners: Vec<usize> = out.surviving.iter().filter(|r| r.vars.contains(&v)).flat_map(|r| r.vars.clone()).collect();
            partners.sort_unstable();
            partners.dedup();
            assert!(partners.is_empty() || partners.len() > budget);
        }
    }
}

#[test]
fn a_kept_variable_has_the_value_of_the_solution() {
    let cn = ring();
    let out = bounded_ve_canonicalize(&cn, 3, &[1, 3]).expect("satisfiable");
    for (x1, x3) in [(DomainMask::D0, DomainMask::D1), (DomainMask::D1, DomainMask::D0), (DomainMask::D1, DomainMask::D1)] {
        let full = out.model.reconstruct(&[x1, x3]);
        assert_eq!(full[1], x1.value());
        assert_eq!(full[3], x3.value());
        let bit = |v: usize| u32::from(full[v] == Some(true));
        assert!(cn.tensors.iter().all(|t| cn.is_sat(t, bit(t.var_axes[0]) | (bit(t.var_axes[1]) << 1))));
    }
}

#[test]
fn the_order_of_relations_does_not_change_their_join() {
    let rels = || {
        vec![
            Relation { vars: vec![0, 1], rows: vec![1, 2, 3] },
            Relation { vars: vec![2, 3], rows: vec![0, 3] },
            Relation { vars: vec![1, 2], rows: vec![1, 2] },
        ]
    };
    let first = join_all(rels());
    let orders: [[usize; 3]; 5] = [[0, 2, 1], [1, 0, 2], [1, 2, 0], [2, 0, 1], [2, 1, 0]];
    for order in orders {
        let shuffled = order.iter().map(|&i| rels().swap_remove(i)).collect();
        let other = join_all(shuffled);
        assert_eq!(first.vars, other.vars);
        assert_eq!(first.rows, other.rows);
    }
    assert_eq!(first.vars, vec![0, 1, 2, 3]);
    assert_eq!(first.rows, vec![0b0010, 0b0011, 0b1101]);
}

#[test]
fn a_weighted_join_keeps_rows_that_weigh_nothing() {
    let n = RationalWeight::integer;
    let a = WRelation { vars: vec![0], rows: vec![(0, n(0)), (1, n(3))] };
    let b = WRelation { vars: vec![0, 1], rows: vec![(0, n(5)), (1, n(7)), (2, n(2))] };
    let r = wjoin_all(vec![a, b]);
    assert_eq!(r.vars, vec![0, 1]);
    let rows: Vec<(u64, String)> = r.rows.iter().map(|(c, w)| (*c, w.to_ratio_string())).collect();
    assert_eq!(rows, vec![(0, "0/1".to_string()), (1, "21/1".to_string()), (2, "0/1".to_string())]);
}

#[test]
fn equal_tables_are_stored_once() {
    let n = RationalWeight::integer;
    let a = WRelation { vars: vec![0], rows: vec![(0, n(2)), (1, n(3))] };
    let b = WRelation { vars: vec![1], rows: vec![(0, n(5)), (1, n(7))] };
    let wn = WeightedNetwork::from_relations(2, vec![a, b]);
    assert_eq!(wn.cn.unique_tensors.len(), 1);
    assert_eq!(wn.cn.tensors.len(), 2);
    // Equal rows of different arity are different tables.
    let cn = assemble(3, vec![(vec![0], vec![0]), (vec![1, 2], vec![0])]);
    assert_eq!(cn.unique_tensors.len(), 2);
    assert_ne!(cn.tensors[0].data_idx, cn.tensors[1].data_idx);
}

#[test]
fn relations_and_tables_make_the_same_network() {
    let x = setup_from_relations(
        5,
        vec![Relation { vars: vec![1, 4], rows: vec![1, 2, 3] }, Relation { vars: vec![0, 1], rows: vec![1, 2, 3] }],
    );
    let y = setup_problem(5, vec![vec![1, 4], vec![0, 1]], vec![or2(), or2()]);
    assert_eq!(x.orig_to_new, y.orig_to_new);
    assert_eq!(x.tensors.len(), y.tensors.len());
    for (s, t) in x.tensors.iter().zip(&y.tensors) {
        assert_eq!(s.var_axes, t.var_axes);
        assert_eq!(x.support(s), y.support(t));
        assert_eq!(s.data_idx, t.data_idx);
    }
}

#[test]
fn relations_over_original_ids_are_the_tables() {
    let cn = setup_problem(6, vec![vec![2, 5], vec![5, 3]], vec![or2(), vec![true, false, false, true]]);
    let rels = original_id_weighted_relations::<BigCount>(&cn);
    assert_eq!(rels[0].vars, vec![2, 5]);
    assert_eq!(rels[1].vars, vec![3, 5]);
    let configs: Vec<Vec<u64>> = rels.iter().map(|r| r.rows.iter().map(|row| row.0).collect()).collect();
    assert_eq!(configs, vec![vec![1, 2, 3], vec![0, 3]]);
    assert!(rels.iter().all(|r| r.rows.iter().all(|row| row.1.to_decimal() == "1")));
}

#[test]
fn a_partition_does_not_depend_on_the_order_of_the_rows() {
    let cubes = [Subcube { mask: 0b10, val: 0b00 }, Subcube { mask: 0b11, val: 0b11 }];
    assert!(partition_is_valid(&[0b11, 0b00, 0b01], &cubes, 2));
    assert!(partition_is_valid(&[0b00, 0b01, 0b11], &cubes, 2));
    assert!(!partition_is_valid(&[0b11, 0b00, 0b10], &cubes, 2));
}

#[test]
fn a_region_may_have_many_fixed_variables() {
    let scopes: Vec<Vec<usize>> = (0..70).map(|v| vec![v, v + 1]).collect();
    let cn = setup_problem(71, scopes, vec![or2(); 70]);
    let mut doms = vec![DomainMask::D1; 71];
    doms[3] = DomainMask::BOTH;
    doms[4] = DomainMask::BOTH;
    let region = Region { id: 3, tensors: (0..70).collect(), vars: (0..71).collect() };
    let (rows, vars) = contract_region(&cn, &region, &doms);
    assert_eq!(vars, vec![3, 4]);
    assert_eq!(rows, vec![1, 2, 3]);
}

#[test]
fn contracting_a_grown_region_gives_its_rows() {
    let cn = ring();
    let doms = vec![DomainMask::BOTH; 4];
    for focus in 0..4 {
        let (region, rel) = grow_region(&cn, &doms, focus, 5);
        let (rows, vars) = contract_region(&cn, &region, &doms);
        assert_eq!(vars, rel.vars);
        assert_eq!(rows, rel.rows);
        let mut cache = RegionCache::new(&cn, &doms, 5);
        cache.ensure_region(&cn, focus);
        let stored = cache.var_to_region[focus].as_ref().expect("stored");
        assert_eq!(stored.tensors, region.tensors);
        assert_eq!(stored.vars, region.vars);
        assert_eq!(cache.var_to_configs[focus].as_ref().expect("stored"), &rel.rows);
    }
}

#[test]
fn restoring_undoes_any_number_of_writes() {
    let mut doms = vec![DomainMask::BOTH; 3];
    let mut tables: Vec<RSparseBitSet> = Vec::new();
    let mut log = Trail::new();
    log.record_dom(2, doms[2]);
    doms[2] = DomainMask::D0;
    let mark = log.mark();
    let epoch = log.epoch();
    let before = doms.clone();
    for round in 0..10 {
        log.open();
        let v = round % 3;
        log.record_dom(v, doms[v]);
        doms[v] = if round % 2 == 0 { DomainMask::D1 } else { DomainMask::NONE };
    }
    log.restore_to(mark, &mut doms, &mut tables);
    assert_eq!(doms, before);
    assert_eq!(log.mark(), mark);
    assert_eq!(log.epoch(), epoch + 11);
}

#[test]
fn root_reductions_are_made() {
    // Every value that is true everywhere dominates.
    let p = TnProblem::from_network(ring()).expect("satisfiable");
    assert_eq!(p.doms, vec![DomainMask::D1; 4]);
    // Arc consistency alone finds nothing here.
    let p = TnProblem::from_network_gac(ring()).expect("satisfiable");
    assert_eq!(p.doms, vec![DomainMask::BOTH; 4]);
    // x implies y and z, which exclude each other: probing finds that x fails.
    let cnf = "p cnf 3 4\n-1 2 0\n-1 3 0\n-2 -3 0\n1 2 3 0\n";
    let p = TnProblem::from_network_counting(network_from_dimacs(cnf).expect("parse")).expect("satisfiable");
    assert_eq!(p.doms[0], DomainMask::D0);
}

/// Proposes the rule that it holds.
struct Fixed(Vec<(u64, u64)>);

impl RuleSolver for Fixed {
    fn optimal_rule(&self, _problem: &RuleProblem, table: &BranchingTable, variables: &[usize], _measure: Measure) -> Option<Vec<Clause>> {
        assert_eq!(table.bit_length, variables.len());
        assert!(table.table.iter().all(|group| group.len() == 1));
        Some(self.0.iter().map(|&(mask, val)| Clause::new(mask, val)).collect())
    }
}

fn rule_of<S: RuleSolver>(solver: &S) -> Vec<(u64, u64)> {
    let cn = Arc::new(setup_problem(3, vec![vec![0, 1], vec![1, 2]], vec![or2(), or2()]));
    let mut doms = vec![DomainMask::BOTH; 3];
    let mut buffer = SolverBuffer::new(&cn);
    let (masks, mut tables) = build_tables(&cn);
    let result = compute_branching_result(
        &cn,
        &mut doms,
        &mut buffer,
        0,
        3,
        Measure::NumUnfixedVars,
        solver,
        &Arc::new(masks),
        &mut tables,
        &mut Trail::new(),
        false,
        false,
    );
    result.clauses.expect("a rule").iter().map(|c| (c.mask, c.val)).collect()
}

#[test]
fn a_proposal_that_covers_the_rows_is_taken() {
    assert_eq!(rule_of(&Fixed(vec![(0b01, 0b01), (0b11, 0b10)])), vec![(0b01, 0b01), (0b11, 0b10)]);
    // One that misses a row is not.
    assert_eq!(rule_of(&Fixed(vec![(0b01, 0b01)])), vec![(0b11, 1), (0b11, 2), (0b11, 3)]);
    assert_eq!(rule_of(&NaiveBranch), vec![(0b11, 1), (0b11, 2), (0b11, 3)]);
}

/// Offers every merge, with a key of its own, and notes which rows are replaced.
struct Keyed {
    keys: [[i64; 3]; 3],
    replaced: Vec<usize>,
}

impl MergeOracle for Keyed {
    fn size_reduction(&self, _clause: &Clause) -> i64 {
        1
    }

    fn begin_round(&mut self, _reductions: &Vec<i64>) {}

    fn offer(&self, i: usize, j: usize, _reduction: i64) -> Option<i64> {
        Some(self.keys[i][j])
    }

    fn replace(&mut self, i: usize, _reduction: i64) {
        self.replaced.push(i);
    }
}

#[test]
fn rows_are_merged_in_the_order_of_their_offers() {
    let groups: Vec<Vec<Clause>> = [0b001u64, 0b011, 0b101].iter().map(|&c| vec![Clause::new(0b111, c)]).collect();
    let first = |keys: [[i64; 3]; 3]| {
        let mut oracle = Recalled::new(Keyed { keys, replaced: Vec::new() });
        let rule = greedymerge_with_floor(&groups, &vec![1, 1, 1], &mut oracle, false);
        assert_eq!(rule.clauses.len(), 1);
        oracle.oracle.replaced[0]
    };
    assert_eq!(first([[0, 5, 5], [0, 0, 4], [0, 0, 0]]), 1);
    assert_eq!(first([[0, 5, 3], [0, 0, 4], [0, 0, 0]]), 0);
    // Of equal keys the lowest rows come first.
    assert_eq!(first([[0, 4, 4], [0, 0, 4], [0, 0, 0]]), 0);
}

#[test]
fn only_nodes_that_do_not_meet_the_cutoff_are_branched_on() {
    let cnf = "p cnf 6 10\n1 2 0\n-1 -2 0\n2 3 0\n-2 -3 0\n3 4 0\n-3 -4 0\n4 5 0\n-4 -5 0\n5 6 0\n-5 -6 0\n";
    for n in 1..8 {
        let mut p = TnProblem::from_network(network_from_dimacs(cnf).expect("parse")).expect("satisfiable");
        let open = p.count_unfixed();
        let cutoff = CubeCutoff::RemainingVars(n);
        let mut list = CubeList::new();
        generate_cubes_with_cutoff_trace(&mut p, Selector::BinaryOccurrence, Measure::NumUnfixedVars, &NaiveBranch, cutoff, &mut list).expect("the list never refuses");
        for node in &list.traced {
            assert_eq!(node.sigma_all + node.freevars, 6);
            match node.kind {
                CubeNodeKind::Branch => assert!(!cutoff.stops(node.sigma_dec, node.sigma_all, node.freevars)),
                CubeNodeKind::Cutoff => assert!(cutoff.stops(node.sigma_dec, node.sigma_all, node.freevars)),
                CubeNodeKind::Sat => assert_eq!(node.freevars, 0),
                CubeNodeKind::Refuted => {}
            }
        }
        // Every cube that is not refuted meets the cutoff, also where all is solved.
        assert!(list.cubes.iter().all(|c| !c.sat));
        if open < n {
            assert_eq!(list.cubes.len(), 1);
            assert!(list.cubes[0].decisions.is_empty() && !list.cubes[0].refuted && !list.cubes[0].sat);
            assert_eq!(list.cubes[0].sigma_all, 6 - open);
        } else {
            assert!(list.cubes.iter().all(|c| !c.decisions.is_empty()));
        }
    }
}
