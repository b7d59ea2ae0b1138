use boolean_inference::adapter::{Clause, NaiveBranch};
use boolean_inference::cube::{
    disjointize_clauses, generate_cubes, generate_cubes_with, generate_cubes_with_trace,
    generate_cubes_with_cutoff, generate_cubes_with_cutoff_cdcl_policy, generate_cubes_with_cutoff_policy,
    Advisor, CncSatPolicy, Consulted, Cube, CubeCutoff, CubeGenerationOptions, CubeList, CubeNodeKind, CubeNodeTrace,
    CubeReceiver, Recorded,
};
use boolean_inference::dimacs::network_from_dimacs;
use boolean_inference::domain::DomainMask;
use boolean_inference::measure::Measure;
use boolean_inference::problem::TnProblem;
use boolean_inference::selector::Selector;
use boolean_inference::termination::TerminationSignal;

fn xor_chain() -> TnProblem {
    let cnf = "p cnf 3 4\n1 2 0\n-1 -2 0\n2 3 0\n-2 -3 0\n";
    let cn = network_from_dimacs(cnf).expect("parse");
    TnProblem::from_network(cn).expect("root SAT")
}

const REGION: Selector = Selector::MostOccurrence { max_rows: 32 };

#[test]
fn overlapping_branch_cover_is_disjointized_without_changing_union() {
    // x0=0 and x1=0 overlap on 00*. The third cube also overlaps both.
    let cover = vec![
        Clause::new(0b001, 0),
        Clause::new(0b010, 0),
        Clause::new(0b100, 0b100),
    ];
    let partition = disjointize_clauses(&cover);

    for assignment in 0..8 {
        let covered = cover.iter().any(|clause| clause.covered_by(assignment));
        let partition_count = partition
            .iter()
            .filter(|clause| clause.covered_by(assignment))
            .count();
        assert_eq!(partition_count, usize::from(covered));
    }
}

/// A cutoff larger than the root residual emits the empty decision path,
/// while a cutoff equal to the residual must branch because `-n` is strict.
#[test]
fn static_n_controls_the_emitted_frontier() {
    let mut root_cut = xor_chain();
    assert_eq!(root_cut.count_unfixed(), 3);
    let (root_cubes, root_stats) =
        generate_cubes(&mut root_cut, REGION, Measure::NumUnfixedVars, &NaiveBranch, 4);
    assert_eq!(root_stats.cubes, 1);
    assert!(root_cubes[0].decisions.is_empty());

    let mut strict = xor_chain();
    let (strict_cubes, strict_stats) =
        generate_cubes(&mut strict, REGION, Measure::NumUnfixedVars, &NaiveBranch, 3);
    assert!(strict_stats.cubes >= 1);
    assert!(strict_cubes
        .iter()
        .filter(|c| !c.refuted && !c.sat)
        .all(|c| !c.decisions.is_empty()));
}

#[test]
fn decision_policy_honors_a_conquer_stop_without_cdcl() {
    let signal = TerminationSignal::new();
    signal.request();
    let mut problem = xor_chain();
    let mut sink = CubeList::new();

    let stats = generate_cubes_with_cutoff_policy(
        &mut problem,
        Selector::MostOccurrence { max_rows: 1 },
        Measure::NumUnfixedVars,
        &NaiveBranch,
        CubeCutoff::RemainingVars(3),
        CncSatPolicy::StopDecision,
        Some(signal),
        &mut sink,
    )
    .expect("the list never refuses");

    assert!(stats.stopped_early);
    assert!(sink.cubes.is_empty());
}

#[test]
fn cc_difficulty_cutoff_is_evaluated_online() {
    let mut problem = xor_chain();
    let mut sink = CubeList::new();
    let stats = generate_cubes_with_cutoff(
        &mut problem,
        REGION,
        Measure::NumUnfixedVars,
        &NaiveBranch,
        CubeCutoff::CcDifficulty(0),
        &mut sink,
    )
    .expect("the list never refuses");
    assert!(stats.cubes > 0);
    assert!(sink
        .cubes
        .iter()
        .filter(|cube| !cube.refuted && !cube.sat)
        .all(|cube| cube.sigma_dec * cube.sigma_all > 0));
}

/// march_cu checks its static cutoff before declaring a solved leaf. Lock
/// that compatibility behavior: a root-solved instance emits `a 0` at any
/// valid static `-n` rather than being counted as a SAT leaf.
#[test]
fn root_solved_instance_emits_the_empty_cube() {
    let cn = network_from_dimacs("p cnf 1 1\n1 0\n").expect("parse");
    let mut p = TnProblem::from_network(cn).expect("root SAT");
    assert_eq!(p.count_unfixed(), 0);
    let (cubes, stats) = generate_cubes(&mut p, REGION, Measure::NumUnfixedVars, &NaiveBranch, 1);
    assert_eq!(stats.cubes, 1);
    assert_eq!(stats.sat_leaves, 0);
    assert!(cubes[0].decisions.is_empty());
}

/// Refuses the first cube.
struct Refusing {
    received: usize,
}

impl CubeReceiver for Refusing {
    fn emit(&mut self, _cube: Cube) -> bool {
        self.received += 1;
        false
    }

    fn trace(&mut self, _node: CubeNodeTrace) -> bool {
        true
    }
}

#[test]
fn streaming_callback_error_restores_the_search_state() {
    let mut p = xor_chain();
    let root_doms = p.doms.clone();
    let mut sink = Recorded::new(Refusing { received: 0 });
    let result = generate_cubes_with(&mut p, REGION, Measure::NumUnfixedVars, &NaiveBranch, 3, &mut sink);
    assert!(result.is_none());
    assert_eq!(sink.receiver.received, 1);
    assert_eq!(p.doms, root_doms);
}

#[test]
fn tracing_preserves_frontier_and_records_a_tree() {
    let mut plain = xor_chain();
    let (plain_cubes, plain_stats) =
        generate_cubes(&mut plain, REGION, Measure::NumUnfixedVars, &NaiveBranch, 3);

    let mut traced = xor_chain();
    let root_doms = traced.doms.clone();
    let mut sink = CubeList::new();
    let traced_stats = generate_cubes_with_trace(&mut traced, REGION, Measure::NumUnfixedVars, &NaiveBranch, 3, &mut sink)
    .expect("the list never refuses");
    let (traced_cubes, nodes) = (sink.cubes, sink.traced);

    assert_eq!(traced.doms, root_doms, "trace run must restore state");
    assert_eq!(plain_stats.cubes, traced_stats.cubes);
    assert_eq!(plain_stats.refuted, traced_stats.refuted);
    assert_eq!(plain_stats.sat_leaves, traced_stats.sat_leaves);
    assert_eq!(plain_stats.visited, traced_stats.visited);
    assert_eq!(plain_cubes.len(), traced_cubes.len());
    for (expected, actual) in plain_cubes.iter().zip(&traced_cubes) {
        assert_eq!(expected.decisions, actual.decisions);
        assert_eq!(expected.sigma_dec, actual.sigma_dec);
        assert_eq!(expected.sigma_all, actual.sigma_all);
        assert_eq!(expected.refuted, actual.refuted);
        assert_eq!(expected.sat, actual.sat);
    }

    assert!(!nodes.is_empty());
    assert_eq!(nodes[0].node_id, 0);
    assert_eq!(nodes[0].parent_id, None);
    for (index, node) in nodes.iter().enumerate() {
        assert_eq!(node.node_id as usize, index, "DFS ids must be contiguous");
        if let Some(parent) = node.parent_id {
            assert!(parent < node.node_id, "parent must precede child");
            assert_eq!(node.depth, nodes[parent as usize].depth + 1);
        }
        assert_eq!(
            node.kind == CubeNodeKind::Branch,
            !node.clauses.is_empty(),
            "only branch nodes carry rule clauses"
        );
    }
    assert_eq!(
        nodes
            .iter()
            .filter(|node| node.kind == CubeNodeKind::Cutoff)
            .count(),
        traced_stats.cubes
    );
}

#[test]
fn cubes_exclude_each_other_and_keep_the_models() {
    // Every model of the formula is in exactly one leaf, and no refuted leaf has one.
    let cnf = "p cnf 6 8\n1 2 3 0\n-1 4 0\n-2 -4 5 0\n3 -5 6 0\n-3 -6 1 0\n2 5 6 0\n-1 -5 -6 0\n4 -6 2 0\n";
    let (nvars, clauses) = boolean_inference::dimacs::parse_dimacs(cnf).unwrap();
    let cn = network_from_dimacs(cnf).unwrap();
    let orig_to_new = cn.orig_to_new.clone();
    let mut p = TnProblem::from_network(cn).expect("root SAT");
    let (cubes, stats) = generate_cubes(&mut p, REGION, Measure::NumUnfixedVars, &NaiveBranch, 3);
    assert_eq!(cubes.iter().filter(|c| !c.refuted && !c.sat).count(), stats.cubes);
    for (i, a) in cubes.iter().enumerate() {
        for b in &cubes[i + 1..] {
            assert!(a.decisions.iter().any(|&(v, x)| b.decisions.contains(&(v, !x))));
        }
    }
    let satisfiable = (0u32..1 << nvars).any(|bits| {
        clauses.iter().all(|c| c.iter().any(|&l| ((bits >> (l.unsigned_abs() - 1)) & 1 == 1) == (l > 0)))
    });
    let some_live = cubes.iter().filter(|c| !c.refuted).any(|cube| {
        (0u32..1 << nvars).any(|bits| {
            let holds = clauses
                .iter()
                .all(|c| c.iter().any(|&l| ((bits >> (l.unsigned_abs() - 1)) & 1 == 1) == (l > 0)));
            holds
                && cube.decisions.iter().all(|&(v, x)| {
                    let o = orig_to_new.iter().position(|&c| c == Some(v)).unwrap();
                    ((bits >> o) & 1 == 1) == x
                })
        })
    });
    assert_eq!(satisfiable, some_live);
}

/// Adds nothing to the decisions, and counts how often it is asked.
struct Listening {
    questions: usize,
}

impl Advisor for Listening {
    fn propagate_decisions(&mut self, base: &[DomainMask], decisions: &[(usize, bool)]) -> Vec<DomainMask> {
        self.questions += 1;
        let mut out = base.to_vec();
        for &(v, x) in decisions {
            out[v] = if x { DomainMask::D1 } else { DomainMask::D0 };
        }
        out
    }
}

#[test]
fn a_companion_is_asked_at_the_root_and_once_for_each_branch() {
    let mut problem = xor_chain();
    let mut sink = CubeList::new();
    let mut companion = Consulted::new(Listening { questions: 0 });
    let stats = generate_cubes_with_cutoff_cdcl_policy(
        &mut problem,
        Selector::MostOccurrence { max_rows: 1 },
        Measure::NumUnfixedVars,
        &NaiveBranch,
        &mut companion,
        CubeGenerationOptions::new(CubeCutoff::RemainingVars(3)),
        &mut sink,
        false,
    )
    .expect("the list never refuses");
    assert_eq!(companion.advisor.questions as u64, stats.visited + 1);
    assert!(!sink.cubes.is_empty());
}

#[test]
fn only_a_stop_decision_heeds_a_request() {
    assert!(CncSatPolicy::StopDecision.heeds(true));
    assert!(!CncSatPolicy::StopDecision.heeds(false));
    assert!(!CncSatPolicy::CompleteFrontier.heeds(true));
    assert!(!CncSatPolicy::CompleteFrontier.heeds(false));
}

/// Gives the same answer to every question.
struct Settled {
    first: DomainMask,
}

impl Advisor for Settled {
    fn propagate_decisions(&mut self, base: &[DomainMask], _decisions: &[(usize, bool)]) -> Vec<DomainMask> {
        let mut out = base.to_vec();
        out[0] = self.first;
        out
    }
}

fn cubes_advised(first: DomainMask) -> Vec<Cube> {
    let mut problem = xor_chain();
    let mut sink = CubeList::new();
    let mut companion = Consulted::new(Settled { first });
    generate_cubes_with_cutoff_cdcl_policy(
        &mut problem,
        Selector::MostOccurrence { max_rows: 1 },
        Measure::NumUnfixedVars,
        &NaiveBranch,
        &mut companion,
        CubeGenerationOptions::new(CubeCutoff::RemainingVars(3)),
        &mut sink,
        false,
    )
    .expect("the list never refuses");
    sink.cubes
}

#[test]
fn a_companion_that_rules_the_root_out_leaves_one_refuted_cube() {
    let cubes = cubes_advised(DomainMask::NONE);
    assert_eq!(cubes.len(), 1);
    assert!(cubes[0].refuted);
    assert!(cubes[0].decisions.is_empty());
}

#[test]
fn what_a_companion_fixes_counts_at_the_root() {
    let cubes = cubes_advised(DomainMask::D1);
    assert_eq!(cubes.len(), 1);
    assert!(!cubes[0].refuted);
    assert!(cubes[0].decisions.is_empty());
    assert_eq!(cubes[0].sigma_all, 3);
}
