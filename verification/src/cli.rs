//! What the command lines ask for.

use crate::conquer::ConquerResult;
use crate::cube::{Cube, CubeCutoff, CubeNodeKind, CubeRefutationReason, CubeStats};
use crate::measure::Measure;
use crate::selector::Selector;
use crate::text;
use vstd::prelude::*;

verus! {

/// How the variable to branch on is selected.
#[derive(Clone, Copy, Debug, PartialEq, Eq, Structural)]
pub enum SelectorKind {
    Region,
    StructureBlind,
}

impl SelectorKind {
    /// Its name.
    pub open spec fn name(self) -> Seq<char> {
        match self {
            SelectorKind::Region => "region"@,
            SelectorKind::StructureBlind => "structure-blind"@,
        }
    }

    /// The kind with the name.
    pub open spec fn named(s: Seq<char>) -> Option<SelectorKind> {
        if s == "region"@ {
            Some(SelectorKind::Region)
        } else if s == "structure-blind"@ {
            Some(SelectorKind::StructureBlind)
        } else {
            None
        }
    }

    pub fn parse(value: &str) -> (r: Option<SelectorKind>)
        ensures
            r == SelectorKind::named(value@),
    {
        if text::same_text(value, "region") {
            Some(SelectorKind::Region)
        } else if text::same_text(value, "structure-blind") {
            Some(SelectorKind::StructureBlind)
        } else {
            None
        }
    }

    pub fn label(self) -> (r: &'static str)
        ensures
            r@ == self.name(),
    {
        match self {
            SelectorKind::Region => "region",
            SelectorKind::StructureBlind => "structure-blind",
        }
    }

    /// The selector, with its bound on the rows of a region. Only region rules are replayed.
    pub fn selector(self, replay: bool, max_rows: usize) -> (r: Selector)
        requires
            replay ==> self is Region,
        ensures
            r == (match (self, replay) {
                (SelectorKind::Region, false) => Selector::MostOccurrence { max_rows },
                (SelectorKind::Region, true) => Selector::MostOccurrenceReplay { max_rows },
                (SelectorKind::StructureBlind, _) => Selector::BinaryOccurrence,
            }),
    {
        match self {
            SelectorKind::Region => if replay {
                Selector::MostOccurrenceReplay { max_rows }
            } else {
                Selector::MostOccurrence { max_rows }
            },
            SelectorKind::StructureBlind => Selector::BinaryOccurrence,
        }
    }
}

/// How a branching rule is found.
#[derive(Clone, Copy, Debug, PartialEq, Eq, Structural)]
pub enum BranchSolverKind {
    Greedy,
    TailGreedy,
    Naive,
}

impl BranchSolverKind {
    /// Its name.
    pub open spec fn name(self) -> Seq<char> {
        match self {
            BranchSolverKind::Greedy => "greedy"@,
            BranchSolverKind::TailGreedy => "tail-greedy"@,
            BranchSolverKind::Naive => "naive"@,
        }
    }

    /// The kind with the name.
    pub open spec fn named(s: Seq<char>) -> Option<BranchSolverKind> {
        if s == "greedy"@ {
            Some(BranchSolverKind::Greedy)
        } else if s == "tail-greedy"@ {
            Some(BranchSolverKind::TailGreedy)
        } else if s == "naive"@ {
            Some(BranchSolverKind::Naive)
        } else {
            None
        }
    }

    pub fn parse(value: &str) -> (r: Option<BranchSolverKind>)
        ensures
            r == BranchSolverKind::named(value@),
    {
        if text::same_text(value, "greedy") {
            Some(BranchSolverKind::Greedy)
        } else if text::same_text(value, "tail-greedy") {
            Some(BranchSolverKind::TailGreedy)
        } else if text::same_text(value, "naive") {
            Some(BranchSolverKind::Naive)
        } else {
            None
        }
    }

    pub fn label(self) -> (r: &'static str)
        ensures
            r@ == self.name(),
    {
        match self {
            BranchSolverKind::Greedy => "greedy",
            BranchSolverKind::TailGreedy => "tail-greedy",
            BranchSolverKind::Naive => "naive",
        }
    }
}

/// The measure with the name.
pub open spec fn measure_named(s: Seq<char>) -> Option<Measure> {
    if s == Measure::NumUnfixedVars.name() {
        Some(Measure::NumUnfixedVars)
    } else if s == Measure::NumUnfixedTensors.name() {
        Some(Measure::NumUnfixedTensors)
    } else if s == Measure::NumHardTensors.name() {
        Some(Measure::NumHardTensors)
    } else {
        None
    }
}

pub(crate) fn read_measure(value: &str) -> (r: Option<Measure>)
    ensures
        r == measure_named(value@),
{
    if text::same_text(value, Measure::NumUnfixedVars.label()) {
        Some(Measure::NumUnfixedVars)
    } else if text::same_text(value, Measure::NumUnfixedTensors.label()) {
        Some(Measure::NumUnfixedTensors)
    } else if text::same_text(value, Measure::NumHardTensors.label()) {
        Some(Measure::NumHardTensors)
    } else {
        None
    }
}

/// A format of instances.
#[derive(Clone, Copy, Debug, PartialEq, Eq, Structural)]
pub enum InputKind {
    CircuitSat,
    Dimacs,
    Csp,
}

impl InputKind {
    /// The format that a file extension stands for.
    pub fn of_extension(extension: &str) -> (r: Option<InputKind>)
        ensures
            r == (if extension@ == "json"@ {
                Some(InputKind::CircuitSat)
            } else if extension@ == "cnf"@ {
                Some(InputKind::Dimacs)
            } else if extension@ == "csp"@ {
                Some(InputKind::Csp)
            } else {
                None
            }),
    {
        if text::same_text(extension, "json") {
            Some(InputKind::CircuitSat)
        } else if text::same_text(extension, "cnf") {
            Some(InputKind::Dimacs)
        } else if text::same_text(extension, "csp") {
            Some(InputKind::Csp)
        } else {
            None
        }
    }

    pub fn label(self) -> (r: &'static str)
        ensures
            r@ == (match self {
                InputKind::CircuitSat => "circuit-sat"@,
                InputKind::Dimacs => "dimacs"@,
                InputKind::Csp => "extensional-csp"@,
            }),
    {
        match self {
            InputKind::CircuitSat => "circuit-sat",
            InputKind::Dimacs => "dimacs",
            InputKind::Csp => "extensional-csp",
        }
    }
}

/// The name of a node kind in a trace.
pub fn node_kind(kind: CubeNodeKind) -> (r: &'static str)
    ensures
        r@ == (match kind {
            CubeNodeKind::Branch => "branch"@,
            CubeNodeKind::Cutoff => "cutoff"@,
            CubeNodeKind::Refuted => "refuted"@,
            CubeNodeKind::Sat => "sat"@,
        }),
{
    match kind {
        CubeNodeKind::Branch => "branch",
        CubeNodeKind::Cutoff => "cutoff",
        CubeNodeKind::Refuted => "refuted",
        CubeNodeKind::Sat => "sat",
    }
}

/// The name of a reason in a trace.
pub fn refutation_reason(reason: CubeRefutationReason) -> (r: &'static str)
    ensures
        r@ == (match reason {
            CubeRefutationReason::RootPropagation => "root-propagation-contradiction"@,
            CubeRefutationReason::SelectorNoFeasibleConfig => "selector-no-feasible-config"@,
            CubeRefutationReason::BranchPropagation => "branch-propagation-contradiction"@,
            CubeRefutationReason::CdclPropagationConflict => "cdcl-propagation-conflict"@,
        }),
{
    match reason {
        CubeRefutationReason::RootPropagation => "root-propagation-contradiction",
        CubeRefutationReason::SelectorNoFeasibleConfig => "selector-no-feasible-config",
        CubeRefutationReason::BranchPropagation => "branch-propagation-contradiction",
        CubeRefutationReason::CdclPropagationConflict => "cdcl-propagation-conflict",
    }
}

/// What the rule of a region means: nothing fits, one configuration settles it, or it covers
/// the choices.
pub fn rule_semantics(feasible_rows: usize, closed: bool) -> (r: &'static str)
    ensures
        r@ == (if feasible_rows == 0 {
            "local-refutation"@
        } else if closed {
            "closed-witness"@
        } else {
            "cover"@
        }),
{
    if feasible_rows == 0 {
        "local-refutation"
    } else if closed {
        "closed-witness"
    } else {
        "cover"
    }
}

/// The literal of a decision: the number of the original variable, negative for false.
pub open spec fn literal_of(ids: Seq<usize>, x: (usize, bool)) -> int {
    if x.1 {
        ids[x.0 as int] + 1
    } else {
        -(ids[x.0 as int] + 1)
    }
}

/// The literals of decisions over the original variables.
pub fn cube_literals(decisions: &[(usize, bool)], ids: &Vec<usize>) -> (r: Vec<i64>)
    requires
        forall|i: int| 0 <= i < decisions@.len() ==> (#[trigger] decisions@[i]).0 < ids@.len(),
        forall|k: int| 0 <= k < ids@.len() ==> (#[trigger] ids@[k]) < i64::MAX,
    ensures
        r@.len() == decisions@.len(),
        forall|i: int| 0 <= i < r@.len() ==> (#[trigger] r@[i]) == literal_of(ids@, decisions@[i]),
{
    let mut out: Vec<i64> = Vec::new();
    while out.len() < decisions.len()
        invariant
            forall|i: int| 0 <= i < decisions@.len() ==> (#[trigger] decisions@[i]).0 < ids@.len(),
            forall|k: int| 0 <= k < ids@.len() ==> (#[trigger] ids@[k]) < i64::MAX,
            out@.len() <= decisions@.len(),
            forall|i: int| 0 <= i < out@.len() ==> (#[trigger] out@[i]) == literal_of(ids@, decisions@[i]),
        decreases decisions.len() - out.len(),
    {
        let i: usize = out.len();
        assert(decisions@[i as int].0 < ids@.len());
        let c: usize = decisions[i].0;
        let number: i64 = ids[c] as i64 + 1;
        out.push(if decisions[i].1 {
            number
        } else {
            0 - number
        });
    }
    out
}

/// The numbers of the original variables, from one.
pub fn original_numbers(variables: &[usize], ids: &Vec<usize>) -> (r: Vec<usize>)
    requires
        forall|i: int| 0 <= i < variables@.len() ==> (#[trigger] variables@[i]) < ids@.len(),
        forall|k: int| 0 <= k < ids@.len() ==> (#[trigger] ids@[k]) < usize::MAX,
    ensures
        r@.len() == variables@.len(),
        forall|i: int| 0 <= i < r@.len() ==> (#[trigger] r@[i]) == ids@[variables@[i] as int] + 1,
{
    let mut out: Vec<usize> = Vec::new();
    while out.len() < variables.len()
        invariant
            forall|i: int| 0 <= i < variables@.len() ==> (#[trigger] variables@[i]) < ids@.len(),
            forall|k: int| 0 <= k < ids@.len() ==> (#[trigger] ids@[k]) < usize::MAX,
            out@.len() <= variables@.len(),
            forall|i: int| 0 <= i < out@.len() ==> (#[trigger] out@[i]) == ids@[variables@[i] as int] + 1,
        decreases variables.len() - out.len(),
    {
        let v: usize = variables[out.len()];
        assert(ids@[v as int] < usize::MAX);
        out.push(ids[v] + 1);
    }
    out
}

/// What has gone out: how many cubes, and the fewest and the most variables left open in one.
#[derive(Clone, Copy, Debug, PartialEq, Eq)]
pub struct Ledger {
    pub emitted: usize,
    pub range: Option<(usize, usize)>,
}

impl Ledger {
    /// Nothing yet.
    pub fn new() -> (r: Ledger)
        ensures
            r == (Ledger { emitted: 0, range: None }),
    {
        Ledger { emitted: 0, range: None }
    }

    /// A cube went out with that many variables left open.
    pub fn record(&mut self, left: usize)
        ensures
            final(self).emitted == (if old(self).emitted < usize::MAX {
                old(self).emitted + 1
            } else {
                usize::MAX as int
            }),
            final(self).range == Some(
                match old(self).range {
                    None => (left, left),
                    Some((low, high)) => (
                        if left < low {
                            left
                        } else {
                            low
                        },
                        if left > high {
                            left
                        } else {
                            high
                        },
                    ),
                },
            ),
    {
        if self.emitted < usize::MAX {
            self.emitted = self.emitted + 1;
        }
        self.range = Some(
            match self.range {
                None => (left, left),
                Some((low, high)) => (
                    if left < low {
                        left
                    } else {
                        low
                    },
                    if left > high {
                        left
                    } else {
                        high
                    },
                ),
            },
        );
    }

    /// Whether as many cubes went out as the counters say were open or models.
    pub fn balances(&self, stats: &CubeStats) -> (r: bool)
        ensures
            r == (self.emitted == stats.cubes + stats.sat_leaves),
    {
        self.emitted >= stats.cubes && self.emitted - stats.cubes == stats.sat_leaves
    }
}

/// What is done with a leaf of the search.
#[derive(Clone, Debug)]
pub enum LeafAction {
    /// It is refuted and goes nowhere.
    Skip,
    /// It has a model, and solvers are waiting: they can stop.
    Solved,
    /// It is open although the cutoff does not hold there.
    BadCutoff,
    /// It goes out with that many variables left open.
    Emit(usize),
}

/// What to do with a leaf: a refuted one goes nowhere, one with a model ends a run with
/// solvers, and any other goes out where it is a model or the cutoff holds.
pub fn leaf_action(cube: &Cube, nvars: usize, cutoff: CubeCutoff, streaming: bool) -> (r: LeafAction)
    requires
        cube.sigma_all <= nvars,
    ensures
        match r {
            LeafAction::Skip => cube.refuted,
            LeafAction::Solved => !cube.refuted && cube.sat && streaming,
            LeafAction::BadCutoff => !cube.refuted && !cube.sat && !cutoff.cuts(cube.sigma_dec as int, cube.sigma_all as int, nvars - cube.sigma_all),
            LeafAction::Emit(left) => !cube.refuted && !(cube.sat && streaming) && (cube.sat || cutoff.cuts(cube.sigma_dec as int, cube.sigma_all as int, nvars - cube.sigma_all)) && left == nvars - cube.sigma_all,
        },
{
    if cube.refuted {
        return LeafAction::Skip;
    }
    if cube.sat && streaming {
        return LeafAction::Solved;
    }
    let remaining: usize = nvars - cube.sigma_all;
    let stopped = cutoff.stops(cube.sigma_dec, cube.sigma_all, remaining);
    if !cube.sat && !stopped {
        return LeafAction::BadCutoff;
    }
    LeafAction::Emit(remaining)
}

/// The exit code: ten for a model, twenty for none.
pub fn exit_code(result: ConquerResult) -> (r: Option<i32>)
    ensures
        r == (match result {
            ConquerResult::Sat => Some(10i32),
            ConquerResult::Unsat => Some(20i32),
            ConquerResult::Incomplete => None,
        }),
{
    match result {
        ConquerResult::Sat => Some(10),
        ConquerResult::Unsat => Some(20),
        ConquerResult::Incomplete => None,
    }
}

} // verus!
