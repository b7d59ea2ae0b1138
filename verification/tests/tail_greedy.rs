use boolean_inference::adapter::Clause;
use boolean_inference::tail_greedy::{
    common, greedymerge_with_floor, ordered_pair, row_reductions, tail_greedymerge, MergeOracle, PairQueue,
    Recalled,
};

/// Measures a clause by the variables that it sets, and weighs merges by the branching factor.
struct SetVariables {
    gamma: f64,
    weights: Vec<f64>,
}

impl SetVariables {
    fn new() -> Self {
        SetVariables { gamma: 1.0, weights: Vec::new() }
    }
}

/// The root above one of the sum of `x^-r` being one.
fn branching_factor(reductions: &[i64]) -> f64 {
    let (mut lo, mut hi) = (1.0f64, 64.0f64);
    for _ in 0..200 {
        let mid = (lo + hi) / 2.0;
        let sum: f64 = reductions.iter().map(|&r| mid.powf(-(r as f64))).sum();
        if sum > 1.0 {
            lo = mid;
        } else {
            hi = mid;
        }
    }
    (lo + hi) / 2.0
}

impl MergeOracle for SetVariables {
    fn size_reduction(&self, clause: &Clause) -> i64 {
        clause.mask.count_ones() as i64
    }

    fn begin_round(&mut self, reductions: &Vec<i64>) {
        self.gamma = branching_factor(reductions);
        self.weights = reductions.iter().map(|&r| self.gamma.powf(-(r as f64))).collect();
    }

    fn offer(&self, i: usize, j: usize, reduction: i64) -> Option<i64> {
        let delta = self.gamma.powf(-(reduction as f64)) - self.weights[i] - self.weights[j];
        if delta <= -1e-12 {
            Some((delta * 1e9) as i64)
        } else {
            None
        }
    }

    fn replace(&mut self, i: usize, reduction: i64) {
        self.weights[i] = self.gamma.powf(-(reduction as f64));
    }
}

fn three_of_four() -> Vec<Vec<Clause>> {
    [0b00u64, 0b01, 0b10].iter().map(|&c| vec![Clause::new(0b11, c)]).collect()
}

fn covers(rule: &[Clause], groups: &[Vec<Clause>]) -> bool {
    groups.iter().all(|g| g.iter().any(|c| rule.iter().any(|r| r.covered_by(c.val))))
}

#[test]
fn tail_guard_preserves_the_unmerged_weakest_child() {
    let groups = three_of_four();
    let initial = row_reductions(&groups, &mut Recalled::new(SetVariables::new()));
    assert_eq!(initial, vec![2, 2, 2]);
    let ordinary = greedymerge_with_floor(&groups, &initial, &mut Recalled::new(SetVariables::new()), false);
    assert!(ordinary.branching_vector.iter().any(|&value| value < 2));
    assert!(covers(&ordinary.clauses, &groups));

    let (guarded, floors) = tail_greedymerge(&groups, &mut Recalled::new(SetVariables::new()));
    assert_eq!(floors, vec![2, 2, 2]);
    assert!(guarded.branching_vector.iter().all(|&value| value >= 2));
    assert!(covers(&guarded.clauses, &groups));
}

#[test]
fn merging_covers_every_group() {
    for support in 1u16..(1u16 << 8) {
        let groups: Vec<Vec<Clause>> = (0u64..8)
            .filter(|&c| support & (1u16 << c) != 0)
            .map(|c| vec![Clause::new(0b111, c)])
            .collect();
        let initial = row_reductions(&groups, &mut Recalled::new(SetVariables::new()));
        for guard in [false, true] {
            let rule = greedymerge_with_floor(&groups, &initial, &mut Recalled::new(SetVariables::new()), guard);
            assert!(covers(&rule.clauses, &groups), "support {support}");
            assert!(rule.clauses.len() <= groups.len());
        }
    }
}

#[test]
fn the_common_part_of_clauses_keeps_what_they_agree_on() {
    let c = common(&Clause::new(0b111, 0b101), &Clause::new(0b011, 0b011));
    assert_eq!(c, Clause::new(0b001, 0b001));
    assert_eq!(ordered_pair(3, 1), (1, 3));
    assert_eq!(ordered_pair(1, 3), (1, 3));
}

#[test]
fn pairs_leave_the_queue_by_priority() {
    let mut q = PairQueue::new();
    q.upsert((0, 1), 5);
    q.upsert((0, 2), 3);
    q.upsert((1, 2), 3);
    q.upsert((0, 1), 1);
    assert_eq!(q.pop_min(), Some((0, 1)));
    q.remove((1, 2));
    assert_eq!(q.pop_min(), Some((0, 2)));
    assert!(q.is_empty());
    assert_eq!(q.pop_min(), None);
}
