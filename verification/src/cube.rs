//! Cubes: partial assignments that split a problem into independent parts.
use vstd::prelude::*;

use std::sync::Arc;

use crate::adapter::{Clause, RuleSolver};
use crate::bits;
use crate::ct;
use crate::ct::{RSparseBitSet, TableMasks};
use crate::cubetree;
use crate::cubetree::{Step, Tree};
use crate::dnf;
use crate::domain::{Asg, DomainMask};
use crate::measure::Measure;
use crate::models;
use crate::network;
use crate::network::ConstraintNetwork;
use crate::problem;
use crate::problem::{SolverBuffer, Stats, TnProblem};
use crate::propagate;
use crate::selector;
use crate::selector::Selector;
use crate::solver;
use crate::table;
use crate::table::RegionRuleDiagnostics;
use crate::termination::TerminationSignal;
use crate::trail;
use crate::trail::{State, TableView, Trail};
use crate::util;

pub use crate::dnf::{disjointize_clauses, disjointize_clauses_with_sources, subtract_clause};

verus! {

/// A leaf of the cubing tree: the decisions that lead to it, how many there are, how many
/// variables are fixed there, and whether it is known to have no model or to be one.
#[derive(Clone, Debug)]
pub struct Cube {
    pub decisions: Vec<(usize, bool)>,
    pub sigma_dec: usize,
    pub sigma_all: usize,
    pub refuted: bool,
    pub sat: bool,
}

/// How many leaves of each kind, whether the search stopped before the frontier was complete,
/// and how many branches were taken.
#[derive(Clone, Copy, Debug)]
pub struct CubeStats {
    pub cubes: usize,
    pub refuted: usize,
    pub sat_leaves: usize,
    pub stopped_early: bool,
    pub visited: u64,
}

/// The kind of a node of the cubing tree.
#[derive(Clone, Copy, Debug, PartialEq, Eq, Structural)]
pub enum CubeNodeKind {
    Branch,
    Cutoff,
    Refuted,
    Sat,
}

/// Why a node has no model.
#[derive(Clone, Copy, Debug, PartialEq, Eq, Structural)]
pub enum CubeRefutationReason {
    RootPropagation,
    SelectorNoFeasibleConfig,
    BranchPropagation,
    CdclPropagationConflict,
}

/// A clause over the variables of a node.
#[derive(Clone, Copy, Debug, PartialEq, Eq, Structural)]
pub struct TraceClause {
    pub mask: u64,
    pub value: u64,
}

/// What happened at one node of the cubing tree.
pub struct CubeNodeTrace {
    pub node_id: u64,
    pub parent_id: Option<u64>,
    pub child_index: Option<usize>,
    pub depth: usize,
    pub kind: CubeNodeKind,
    pub refutation_reason: Option<CubeRefutationReason>,
    pub decisions: Vec<(usize, bool)>,
    pub sigma_dec: usize,
    pub sigma_all: usize,
    pub freevars: usize,
    pub rule_diagnostics: Option<RegionRuleDiagnostics>,
    pub variables: Vec<usize>,
    /// The clauses of the rule.
    pub optimized_clauses: Vec<TraceClause>,
    /// The disjoint clauses that were branched on.
    pub clauses: Vec<TraceClause>,
    /// For each of these, the clause of the rule that it is part of.
    pub partition_sources: Vec<usize>,
}

/// When to stop branching.
#[derive(Clone, Copy, Debug, PartialEq, Eq, Structural)]
pub enum CubeCutoff {
    /// Stop where fewer variables than this are open.
    RemainingVars(usize),
    /// Stop where `D^2 (D + I) / N` exceeds this, with `D` decisions and `I` implied variables
    /// of `N`.
    CcDifficulty(u128),
}

/// What a companion solver propagates.
#[derive(Clone, Copy, Debug, PartialEq, Eq, Structural)]
pub enum CdclIntegrationMode {
    /// Committed branches and the candidates of a rule.
    FullPropagation,
    /// Committed branches only.
    HybridCtCandidates,
}

/// Whether a model ends the generation.
#[derive(Clone, Copy, Debug, PartialEq, Eq, Structural)]
pub enum CncSatPolicy {
    /// The frontier is always completed.
    CompleteFrontier,
    /// A model found here or elsewhere ends the generation.
    StopDecision,
}

impl CncSatPolicy {
    /// Whether the generation ends, given whether a stop was requested.
    pub fn heeds(self, requested: bool) -> (r: bool)
        ensures
            r == (self == CncSatPolicy::StopDecision && requested),
    {
        match self {
            CncSatPolicy::CompleteFrontier => false,
            CncSatPolicy::StopDecision => requested,
        }
    }
}

/// How to generate cubes.
pub struct CubeGenerationOptions {
    pub cutoff: CubeCutoff,
    pub sat_policy: CncSatPolicy,
    pub termination: Option<TerminationSignal>,
}

impl CdclIntegrationMode {
    /// Whether candidates are propagated too.
    pub fn scores_candidates(self) -> (r: bool)
        ensures
            r == (self == CdclIntegrationMode::FullPropagation),
    {
        match self {
            CdclIntegrationMode::FullPropagation => true,
            CdclIntegrationMode::HybridCtCandidates => false,
        }
    }
}

impl CubeGenerationOptions {
    /// A complete frontier under a cutoff.
    pub fn new(cutoff: CubeCutoff) -> (r: CubeGenerationOptions)
        ensures
            r.cutoff == cutoff,
            r.sat_policy == CncSatPolicy::CompleteFrontier,
            r.termination is None,
    {
        CubeGenerationOptions { cutoff, sat_policy: CncSatPolicy::CompleteFrontier, termination: None }
    }
}

/// A product of a double word and a word: the upper part and the lower word.
fn wide_mul(x: u128, y: u64) -> (r: (u128, u64))
    ensures
        r.0 * 0x1_0000_0000_0000_0000 + r.1 == x * y,
{
    let base: u128 = 0x1_0000_0000_0000_0000;
    let xh: u128 = x / base;
    let xl: u128 = x % base;
    let w: u128 = y as u128;
    assert(xh < base && xl < base && w < base);
    assert(xl * w <= (base - 1) * (base - 1)) by (nonlinear_arith)
        requires
            0 <= xl < base,
            0 <= w < base,
            base == 0x1_0000_0000_0000_0000,
    ;
    assert(xh * w <= (base - 1) * (base - 1)) by (nonlinear_arith)
        requires
            0 <= xh < base,
            0 <= w < base,
            base == 0x1_0000_0000_0000_0000,
    ;
    let low: u128 = xl * w;
    let carry: u128 = low / base;
    let rest: u128 = low % base;
    let high: u128 = xh * w + carry;
    assert(high * base + rest == x * w) by (nonlinear_arith)
        requires
            x == xh * base + xl,
            low == xl * w,
            low == carry * base + rest,
            high == xh * w + carry,
    ;
    (high, rest as u64)
}

impl CubeCutoff {
    /// The cutoff applies with that many decisions, fixed and open variables.
    pub open spec fn cuts(self, sigma_dec: int, sigma_all: int, freevars: int) -> bool {
        match self {
            CubeCutoff::RemainingVars(n) => freevars < n,
            CubeCutoff::CcDifficulty(threshold) => sigma_dec * sigma_dec * sigma_all > threshold * (sigma_all + freevars),
        }
    }

    /// Whether the cutoff applies.
    pub fn stops(self, sigma_dec: usize, sigma_all: usize, freevars: usize) -> (r: bool)
        requires
            sigma_all + freevars <= usize::MAX,
        ensures
            r == self.cuts(sigma_dec as int, sigma_all as int, freevars as int),
    {
        match self {
            CubeCutoff::RemainingVars(n) => freevars < n,
            CubeCutoff::CcDifficulty(threshold) => {
                let total: usize = sigma_all + freevars;
                let dec: u128 = sigma_dec as u128;
                assert(dec * dec <= 0xffff_ffff_ffff_ffff * 0xffff_ffff_ffff_ffff) by (nonlinear_arith)
                    requires
                        0 <= dec <= 0xffff_ffff_ffff_ffff,
                ;
                let squared: u128 = dec * dec;
                let left = wide_mul(squared, sigma_all as u64);
                let right = wide_mul(threshold, total as u64);
                left.0 > right.0 || (left.0 == right.0 && left.1 > right.1)
            },
        }
    }
}

/// An outside solver that propagates decisions. Its answers are not checked: what is said of a
/// frontier holds where they are sound.
pub trait Companion {
    /// It is never asked.
    spec fn silent(&self) -> bool;

    /// The questions so far: domains, decisions and the answer.
    spec fn asked(&self) -> Seq<Question>;

    /// Whether there is such a solver.
    fn present(&self) -> (r: bool)
        ensures
            r == !self.silent(),
    ;

    /// The domains with what follows from the decisions; the first is empty on a conflict.
    fn propagate_decisions(&mut self, base: &[DomainMask], decisions: &[(usize, bool)]) -> (r: Vec<DomainMask>)
        ensures
            final(self).silent() == old(self).silent(),
            !old(self).silent() ==> final(self).asked() == old(self).asked().push((base@, decisions@, r@)),
    ;
}

/// Domains, decisions, and the domains that came back.
pub type Question = (Seq<DomainMask>, Seq<(usize, bool)>, Seq<DomainMask>);

/// No companion.
pub struct NoCompanion;

impl Companion for NoCompanion {
    open spec fn silent(&self) -> bool {
        true
    }

    open spec fn asked(&self) -> Seq<Question> {
        Seq::empty()
    }

    fn present(&self) -> bool {
        false
    }

    fn propagate_decisions(&mut self, base: &[DomainMask], decisions: &[(usize, bool)]) -> Vec<DomainMask> {
        Vec::new()
    }
}

/// What a companion of any make has to offer.
pub trait Advisor {
    /// The domains with what follows from the decisions; the first is empty on a conflict.
    fn propagate_decisions(&mut self, base: &[DomainMask], decisions: &[(usize, bool)]) -> Vec<DomainMask>;
}

/// A companion that asks an advisor, and remembers what was asked.
pub struct Consulted<A> {
    pub advisor: A,
    pub log: Ghost<Seq<Question>>,
}

impl<A: Advisor> Consulted<A> {
    /// A companion that has not been asked yet.
    pub fn new(advisor: A) -> (r: Consulted<A>)
        ensures
            r.advisor == advisor,
            !r.silent(),
            r.asked().len() == 0,
    {
        Consulted { advisor, log: Ghost(Seq::empty()) }
    }
}

impl<A: Advisor> Companion for Consulted<A> {
    open spec fn silent(&self) -> bool {
        false
    }

    open spec fn asked(&self) -> Seq<Question> {
        self.log@
    }

    fn present(&self) -> bool {
        true
    }

    fn propagate_decisions(&mut self, base: &[DomainMask], decisions: &[(usize, bool)]) -> Vec<DomainMask> {
        let answer = self.advisor.propagate_decisions(base, decisions);
        self.log = Ghost(self.log@.push((base@, decisions@, answer@)));
        answer
    }
}

/// Where cubes and nodes go as they are found.
pub trait CubeSink {
    /// The cubes received.
    spec fn seen(&self) -> Seq<Cube>;

    /// The nodes received.
    spec fn nodes(&self) -> Seq<CubeNodeTrace>;

    /// It never refuses.
    spec fn accepts_all(&self) -> bool;

    /// It has refused a cube or a node.
    spec fn refused(&self) -> bool;

    /// Take a cube. False ends the generation.
    fn emit(&mut self, cube: Cube) -> (ok: bool)
        ensures
            final(self).seen() == old(self).seen().push(cube),
            final(self).nodes() == old(self).nodes(),
            old(self).accepts_all() ==> ok && final(self).accepts_all(),
            final(self).refused() == (old(self).refused() || !ok),
    ;

    /// Take a node. False ends the generation.
    fn trace(&mut self, node: CubeNodeTrace) -> (ok: bool)
        ensures
            final(self).seen() == old(self).seen(),
            final(self).nodes() == old(self).nodes().push(node),
            old(self).accepts_all() ==> ok && final(self).accepts_all(),
            final(self).refused() == (old(self).refused() || !ok),
    ;
}

/// What takes cubes and nodes as they come, and may refuse one.
pub trait CubeReceiver {
    /// Take a cube. False ends the generation.
    fn emit(&mut self, cube: Cube) -> bool;

    /// Take a node. False ends the generation.
    fn trace(&mut self, node: CubeNodeTrace) -> bool;
}

/// A sink that hands everything to a receiver, and remembers what was handed over.
pub struct Recorded<R> {
    pub receiver: R,
    pub given: Ghost<Seq<Cube>>,
    pub shown: Ghost<Seq<CubeNodeTrace>>,
    pub declined: Ghost<bool>,
}

impl<R: CubeReceiver> Recorded<R> {
    /// A sink whose receiver has been given nothing yet.
    pub fn new(receiver: R) -> (r: Recorded<R>)
        ensures
            r.receiver == receiver,
            r.seen().len() == 0,
            r.nodes().len() == 0,
            !r.refused(),
    {
        Recorded { receiver, given: Ghost(Seq::empty()), shown: Ghost(Seq::empty()), declined: Ghost(false) }
    }
}

impl<R: CubeReceiver> CubeSink for Recorded<R> {
    open spec fn seen(&self) -> Seq<Cube> {
        self.given@
    }

    open spec fn nodes(&self) -> Seq<CubeNodeTrace> {
        self.shown@
    }

    open spec fn accepts_all(&self) -> bool {
        false
    }

    open spec fn refused(&self) -> bool {
        self.declined@
    }

    fn emit(&mut self, cube: Cube) -> bool {
        self.given = Ghost(self.given@.push(cube));
        let ok = self.receiver.emit(cube);
        let ghost declined = self.declined@ || !ok;
        self.declined = Ghost(declined);
        ok
    }

    fn trace(&mut self, node: CubeNodeTrace) -> bool {
        self.shown = Ghost(self.shown@.push(node));
        let ok = self.receiver.trace(node);
        let ghost declined = self.declined@ || !ok;
        self.declined = Ghost(declined);
        ok
    }
}

/// A list of all cubes and nodes.
pub struct CubeList {
    pub cubes: Vec<Cube>,
    pub traced: Vec<CubeNodeTrace>,
}

impl CubeList {
    /// An empty list.
    pub fn new() -> (r: CubeList)
        ensures
            r.seen().len() == 0,
            r.nodes().len() == 0,
            r.accepts_all(),
            !r.refused(),
    {
        CubeList { cubes: Vec::new(), traced: Vec::new() }
    }
}

impl CubeSink for CubeList {
    open spec fn seen(&self) -> Seq<Cube> {
        self.cubes@
    }

    open spec fn nodes(&self) -> Seq<CubeNodeTrace> {
        self.traced@
    }

    open spec fn accepts_all(&self) -> bool {
        true
    }

    open spec fn refused(&self) -> bool {
        false
    }

    fn emit(&mut self, cube: Cube) -> bool {
        self.cubes.push(cube);
        true
    }

    fn trace(&mut self, node: CubeNodeTrace) -> bool {
        self.traced.push(node);
        true
    }
}

/// `a` has the decided values.
pub open spec fn dec_holds(dec: Seq<(usize, bool)>, a: Asg) -> bool {
    forall|i: int| 0 <= i < dec.len() ==> a((#[trigger] dec[i]).0 as int) == dec[i].1
}

/// `dec` starts with `prefix`.
pub open spec fn extends(dec: Seq<(usize, bool)>, prefix: Seq<(usize, bool)>) -> bool {
    prefix.len() <= dec.len() && dec.take(prefix.len() as int) == prefix
}

/// The two lists decide a variable differently.
pub open spec fn opposed(x: Seq<(usize, bool)>, y: Seq<(usize, bool)>) -> bool {
    exists|i: int, j: int| 0 <= i < x.len() && 0 <= j < y.len() && (#[trigger] x[i]).0 == (#[trigger] y[j]).0 && x[i].1 != y[j].1
}

/// Some model within the domains has the decided values.
pub open spec fn has_model(cn: ConstraintNetwork, d: Seq<DomainMask>, dec: Seq<(usize, bool)>) -> bool {
    exists|a: Asg| #[trigger] cn.model(a) && models::consistent(d, a) && dec_holds(dec, a)
}

/// The domains `e` are arc consistent, within `d`, have the decided values, and fix `sigma_all`
/// variables. Below the root, dominated variables were fixed and failing values removed.
pub open spec fn stands(cn: ConstraintNetwork, d: Seq<DomainMask>, dec: Seq<(usize, bool)>, sigma_all: int, e: Seq<DomainMask>) -> bool {
    &&& reached(cn, d, dec, e)
    &&& ct::closed_under(cn, e)
    &&& sigma_all == cn.n() - util::unfixed(e, cn.n())
    &&& dec.len() > 0 ==> problem::reduced(cn, e)
}

/// How the cutoff marks a cube that is not refuted: it stands at some domains, is open where the
/// cutoff applies there, and sat where it does not and every variable is fixed.
pub open spec fn leaf_cut(cn: ConstraintNetwork, d: Seq<DomainMask>, cutoff: CubeCutoff, c: Cube) -> bool {
    &&& c.sigma_dec == c.decisions@.len()
    &&& c.sigma_all <= cn.n()
    &&& !c.refuted ==> {
        &&& exists|e: Seq<DomainMask>| #[trigger] stands(cn, d, c.decisions@, c.sigma_all as int, e)
        &&& c.sat <==> !cutoff.cuts(c.sigma_dec as int, c.sigma_all as int, cn.n() - c.sigma_all)
        &&& c.sat ==> c.sigma_all == cn.n()
    }
}

/// From `from` on, every cube is marked as the cutoff asks.
pub open spec fn leaves_cut(cn: ConstraintNetwork, d: Seq<DomainMask>, cutoff: CubeCutoff, from: int, cubes: Seq<Cube>) -> bool {
    forall|k: int| from <= k < cubes.len() ==> leaf_cut(cn, d, cutoff, #[trigger] cubes[k])
}

/// What a cube says: a refuted one has no model, a sat one has one and does not meet the cutoff,
/// any other meets the cutoff.
pub open spec fn leaf_ok(cn: ConstraintNetwork, d: Seq<DomainMask>, cutoff: CubeCutoff, c: Cube) -> bool {
    &&& leaf_cut(cn, d, cutoff, c)
    &&& c.refuted ==> !c.sat && !has_model(cn, d, c.decisions@)
    &&& c.sat ==> has_model(cn, d, c.decisions@)
}

/// From `from` on, the cubes extend `prefix`, and any two decide some variable differently.
pub open spec fn separate(prefix: Seq<(usize, bool)>, from: int, cubes: Seq<Cube>) -> bool {
    &&& forall|k: int| from <= k < cubes.len() ==> extends((#[trigger] cubes[k]).decisions@, prefix)
    &&& forall|j: int, k: int| from <= j < k < cubes.len() ==> opposed((#[trigger] cubes[j]).decisions@, (#[trigger] cubes[k]).decisions@)
}

/// From `from` on, every cube says what is so.
pub open spec fn leaves_ok(cn: ConstraintNetwork, d: Seq<DomainMask>, cutoff: CubeCutoff, from: int, cubes: Seq<Cube>) -> bool {
    forall|k: int| from <= k < cubes.len() ==> leaf_ok(cn, d, cutoff, #[trigger] cubes[k])
}

/// From `from` on, some cube that is not refuted has a model.
pub open spec fn some_live(cn: ConstraintNetwork, d: Seq<DomainMask>, from: int, cubes: Seq<Cube>) -> bool {
    exists|k: int| from <= k < cubes.len() && !(#[trigger] cubes[k]).refuted && has_model(cn, d, cubes[k].decisions@)
}

/// `s1` goes on where `s0` ends.
pub open spec fn continues<T>(s0: Seq<T>, s1: Seq<T>) -> bool {
    s0.len() <= s1.len() && s1.take(s0.len() as int) == s0
}

/// The domains of a node: within the root's, with the decided values, and no model that has
/// them is lost, but for values that the node forbids.
pub open spec fn reached(cn: ConstraintNetwork, d0: Seq<DomainMask>, dec: Seq<(usize, bool)>, d: Seq<DomainMask>) -> bool {
    &&& ct::narrower(d, d0)
    &&& forall|i: int| 0 <= i < dec.len() ==> (#[trigger] dec[i]).0 < d.len() && d[dec[i].0 as int] == DomainMask::only(dec[i].1)
}

/// Every model within the root's domains that has the decided values is carried into the node.
pub open spec fn carries_dec(cn: ConstraintNetwork, d0: Seq<DomainMask>, dec: Seq<(usize, bool)>, d: Seq<DomainMask>) -> bool {
    forall|h: Asg| #[trigger] cn.model(h) && models::consistent(d0, h) && dec_holds(dec, h) ==> models::carried(cn, d, h)
}

/// How many of a kind there are from `from` on, at most the largest number.
pub open spec fn tally(cubes: Seq<Cube>, from: int, kind: spec_fn(Cube) -> bool) -> int {
    let n = count_kind(cubes, from, cubes.len() as int, kind);
    if n <= usize::MAX {
        n
    } else {
        usize::MAX as int
    }
}

/// How many of a kind there are between two places.
pub open spec fn count_kind(cubes: Seq<Cube>, from: int, upto: int, kind: spec_fn(Cube) -> bool) -> int
    decreases upto,
{
    if upto <= from || upto <= 0 {
        0
    } else {
        count_kind(cubes, from, upto - 1, kind) + (if kind(cubes[upto - 1]) {
            1int
        } else {
            0int
        })
    }
}

/// The counters of the leaves are those of the cubes from `from` on.
pub open spec fn counted(stats: CubeStats, cubes: Seq<Cube>, from: int) -> bool {
    &&& stats.refuted == tally(cubes, from, |c: Cube| c.refuted)
    &&& stats.sat_leaves == tally(cubes, from, |c: Cube| !c.refuted && c.sat)
    &&& stats.cubes == tally(cubes, from, |c: Cube| !c.refuted && !c.sat)
}

proof fn lemma_count_push(cubes: Seq<Cube>, c: Cube, from: int, upto: int, kind: spec_fn(Cube) -> bool)
    requires
        0 <= from,
        upto <= cubes.len(),
    ensures
        count_kind(cubes.push(c), from, upto, kind) == count_kind(cubes, from, upto, kind),
        count_kind(cubes, from, upto, kind) >= 0,
    decreases upto,
{
    if upto > from && upto > 0 {
        lemma_count_push(cubes, c, from, upto - 1, kind);
    }
}

proof fn lemma_tally_push(cubes: Seq<Cube>, c: Cube, from: int, kind: spec_fn(Cube) -> bool)
    requires
        0 <= from <= cubes.len(),
    ensures
        count_kind(cubes.push(c), from, cubes.len() as int + 1, kind) == count_kind(cubes, from, cubes.len() as int, kind) + (if kind(c) {
            1int
        } else {
            0int
        }),
        count_kind(cubes, from, cubes.len() as int, kind) >= 0,
{
    lemma_count_push(cubes, c, from, cubes.len() as int, kind);
    assert(cubes.push(c)[cubes.len() as int] == c);
}

/// Count a cube and hand it on.
fn emit_cube<K: CubeSink>(stats: &mut CubeStats, sink: &mut K, cube: Cube, Ghost(from): Ghost<int>) -> (ok: bool)
    requires
        0 <= from <= old(sink).seen().len(),
        counted(*old(stats), old(sink).seen(), from),
    ensures
        final(sink).seen() == old(sink).seen().push(cube),
        final(sink).nodes() == old(sink).nodes(),
        old(sink).accepts_all() ==> ok && final(sink).accepts_all(),
        counted(*final(stats), final(sink).seen(), from),
        final(stats).stopped_early == old(stats).stopped_early,
        final(stats).visited == old(stats).visited,
        final(sink).refused() == (old(sink).refused() || !ok),
{
    proof {
        lemma_tally_push(sink.seen(), cube, from, |c: Cube| c.refuted);
        lemma_tally_push(sink.seen(), cube, from, |c: Cube| !c.refuted && c.sat);
        lemma_tally_push(sink.seen(), cube, from, |c: Cube| !c.refuted && !c.sat);
    }
    if cube.refuted {
        if stats.refuted < usize::MAX {
            stats.refuted = stats.refuted + 1;
        }
    } else if cube.sat {
        if stats.sat_leaves < usize::MAX {
            stats.sat_leaves = stats.sat_leaves + 1;
        }
    } else if stats.cubes < usize::MAX {
        stats.cubes = stats.cubes + 1;
    }
    sink.emit(cube)
}

/// The number of a node: its place, at most the largest number.
pub open spec fn node_number(place: int) -> u64 {
    if place <= u64::MAX {
        place as u64
    } else {
        u64::MAX
    }
}

/// What a generation is run on and with.
pub struct Setting {
    pub cn: ConstraintNetwork,
    pub net: Arc<ConstraintNetwork>,
    pub masks: Arc<Vec<TableMasks>>,
    pub doms: Seq<DomainMask>,
    pub cutoff: CubeCutoff,
    pub selector: Selector,
    pub measure: Measure,
}

/// A generation on a problem.
pub open spec fn setting(p: TnProblem, selector: Selector, measure: Measure, cutoff: CubeCutoff) -> Setting {
    Setting { cn: p.cn(), net: p.static_cn, masks: p.masks, doms: p.doms@, cutoff, selector, measure }
}

/// `scope` lists the open variables, ascending.
pub open spec fn lists_open(d: Seq<DomainMask>, scope: Seq<usize>) -> bool {
    &&& network::ascending_ids(scope)
    &&& forall|v: usize| #[trigger] scope.contains(v) <==> (v < d.len() && !d[v as int].fixed())
}

/// Reported clauses as clauses.
pub open spec fn bare(s: Seq<TraceClause>) -> Seq<Clause> {
    Seq::new(s.len(), |k: int| Clause { mask: s[k].mask, val: s[k].value })
}

/// Reported clauses, each with the clause of the rule that it is part of.
pub open spec fn bare_parts(s: Seq<TraceClause>, sources: Seq<usize>) -> Seq<(Clause, usize)> {
    Seq::new(s.len(), |k: int| (Clause { mask: s[k].mask, val: s[k].value }, sources[k]))
}

/// The node reports the rule that the selector finds for the domains `d`: None refutes it, and
/// clauses are branched on.
pub open spec fn ruled(w: Setting, d: Seq<DomainMask>, x: CubeNodeTrace) -> bool {
    exists|scope: Seq<usize>, r: table::BranchingResult| #[trigger]
        selector::selects(w.selector, w.cn, d, scope, r) && lists_open(d, scope) && selector::tells(w.selector, w.cn, d, scope, w.measure, true, r) && x.variables@ == r.variables@ && x.rule_diagnostics == r.diagnostics
            && match r.clauses {
            None => x.kind == CubeNodeKind::Refuted,
            Some(clauses) => x.kind == CubeNodeKind::Branch && bare(x.optimized_clauses@) == clauses@,
        }
}

/// What a node says of itself: its counts are those of the domains where it stands, a cutoff
/// node meets the cutoff and no other that was looked at does, a branch node reports its rule
/// and disjoint clauses that cover the same, and a refuted one its reason.
#[verifier::opaque]
pub open spec fn node_self(w: Setting, x: CubeNodeTrace) -> bool {
    let cuts = w.cutoff.cuts(x.sigma_dec as int, x.sigma_all as int, x.freevars as int);
    &&& x.sigma_dec == x.decisions@.len()
    &&& x.sigma_all + x.freevars == w.cn.n()
    &&& x.kind == CubeNodeKind::Branch <==> x.clauses@.len() > 0
    &&& x.kind == CubeNodeKind::Refuted <==> x.refutation_reason is Some
    &&& x.partition_sources@.len() == x.clauses@.len()
    &&& if x.kind == CubeNodeKind::Branch {
        dnf::disjoint_cover(bare(x.optimized_clauses@), bare_parts(x.clauses@, x.partition_sources@))
    } else {
        x.optimized_clauses@.len() == 0
    }
    &&& if x.kind == CubeNodeKind::Branch || x.refutation_reason == Some(CubeRefutationReason::SelectorNoFeasibleConfig) {
        !cuts && exists|e: Seq<DomainMask>| #[trigger] stands(w.cn, w.doms, x.decisions@, x.sigma_all as int, e) && ruled(w, e, x)
    } else {
        &&& x.variables@.len() == 0
        &&& x.rule_diagnostics is None
        &&& x.kind != CubeNodeKind::Refuted ==> {
            &&& exists|e: Seq<DomainMask>| #[trigger] stands(w.cn, w.doms, x.decisions@, x.sigma_all as int, e)
            &&& x.kind == CubeNodeKind::Cutoff <==> cuts
            &&& x.kind == CubeNodeKind::Sat ==> x.freevars == 0
        }
    }
}

/// The node `x` is the child of the branch node `y`.
pub open spec fn below(y: CubeNodeTrace, x: CubeNodeTrace) -> bool {
    &&& x.parent_id == Some(y.node_id)
    &&& y.kind == CubeNodeKind::Branch
    &&& x.depth == y.depth + 1
    &&& x.child_index is Some
    &&& x.child_index->0 < y.clauses@.len()
    &&& x.decisions@ == child_dec(y.decisions@, y.variables@, bare(y.clauses@)[x.child_index->0 as int])
}

/// A node of the tree at a place: numbered by it, and the root or below an earlier node.
pub open spec fn node_ok(w: Setting, nodes: Seq<CubeNodeTrace>, from: int, k: int) -> bool {
    &&& nodes[k].node_id == node_number(k - from)
    &&& if nodes[k].parent_id is None {
        k == from && nodes[k].depth == 0 && nodes[k].child_index is None && nodes[k].decisions@.len() == 0
    } else {
        exists|q: int| from <= q < k && below(#[trigger] nodes[q], nodes[k])
    }
    &&& node_self(w, nodes[k])
}

/// From `from` on the nodes are a tree in the order of a depth-first walk.
pub open spec fn tree_ok(w: Setting, nodes: Seq<CubeNodeTrace>, from: int) -> bool {
    forall|k: int| from <= k < nodes.len() ==> #[trigger] node_ok(w, nodes, from, k)
}

/// Where a new node hangs: at the root, or below the branch node at `at`.
pub open spec fn hangs(nodes: Seq<CubeNodeTrace>, from: int, at: int, x: CubeNodeTrace) -> bool {
    match x.parent_id {
        None => x.depth == 0 && x.child_index is None && x.decisions@.len() == 0 && nodes.len() == from,
        Some(p) => from <= at < nodes.len() && below(nodes[at], x),
    }
}

proof fn lemma_tree_push(w: Setting, nodes: Seq<CubeNodeTrace>, from: int, at: int, n: CubeNodeTrace)
    requires
        0 <= from <= nodes.len(),
        tree_ok(w, nodes, from),
        n.node_id == node_number(nodes.len() - from),
        hangs(nodes, from, at, n),
        node_self(w, n),
    ensures
        tree_ok(w, nodes.push(n), from),
{
    let all = nodes.push(n);
    assert forall|k: int| from <= k < all.len() implies #[trigger] node_ok(w, all, from, k) by {
        if k < nodes.len() {
            assert(node_ok(w, nodes, from, k));
            assert(all[k] == nodes[k]);
            if nodes[k].parent_id is Some {
                let q = choose|q: int| from <= q < k && below(#[trigger] nodes[q], nodes[k]);
                assert(below(all[q], all[k]));
            }
        } else if n.parent_id is Some {
            assert(below(all[at], all[k]));
        }
    }
}

/// A branch node says of itself what is so.
proof fn lemma_branch_node(w: Setting, d: Seq<DomainMask>, scope: Seq<usize>, r: table::BranchingResult, parts: Seq<(Clause, usize)>, x: CubeNodeTrace)
    requires
        w.cutoff.cuts(x.sigma_dec as int, x.sigma_all as int, x.freevars as int) == false,
        x.sigma_dec == x.decisions@.len(),
        x.sigma_all + x.freevars == w.cn.n(),
        x.kind == CubeNodeKind::Branch,
        x.refutation_reason is None,
        stands(w.cn, w.doms, x.decisions@, x.sigma_all as int, d),
        selector::selects(w.selector, w.cn, d, scope, r),
        selector::tells(w.selector, w.cn, d, scope, w.measure, true, r),
        lists_open(d, scope),
        r.clauses is Some,
        x.variables@ == r.variables@,
        x.rule_diagnostics == r.diagnostics,
        bare(x.optimized_clauses@) == r.clauses->0@,
        x.partition_sources@.len() == x.clauses@.len(),
        bare_parts(x.clauses@, x.partition_sources@) == parts,
        parts.len() > 0,
        dnf::disjoint_cover(r.clauses->0@, parts),
    ensures
        node_self(w, x),
{
    reveal(node_self);
    assert(ruled(w, d, x));
}

/// A node without a feasible row says of itself what is so.
proof fn lemma_barren_node(w: Setting, d: Seq<DomainMask>, scope: Seq<usize>, r: table::BranchingResult, x: CubeNodeTrace)
    requires
        !w.cutoff.cuts(x.sigma_dec as int, x.sigma_all as int, x.freevars as int),
        x.sigma_dec == x.decisions@.len(),
        x.sigma_all + x.freevars == w.cn.n(),
        x.kind == CubeNodeKind::Refuted,
        x.refutation_reason == Some(CubeRefutationReason::SelectorNoFeasibleConfig),
        stands(w.cn, w.doms, x.decisions@, x.sigma_all as int, d),
        selector::selects(w.selector, w.cn, d, scope, r),
        selector::tells(w.selector, w.cn, d, scope, w.measure, true, r),
        lists_open(d, scope),
        r.clauses is None,
        x.variables@ == r.variables@,
        x.rule_diagnostics == r.diagnostics,
        x.optimized_clauses@.len() == 0,
        x.partition_sources@.len() == x.clauses@.len() == 0,
    ensures
        node_self(w, x),
{
    reveal(node_self);
    assert(ruled(w, d, x));
}

/// A node without a rule says of itself what is so.
proof fn lemma_plain_node(w: Setting, d: Seq<DomainMask>, x: CubeNodeTrace)
    requires
        x.sigma_dec == x.decisions@.len(),
        x.sigma_all + x.freevars == w.cn.n(),
        x.kind != CubeNodeKind::Branch,
        x.kind == CubeNodeKind::Refuted <==> x.refutation_reason is Some,
        x.refutation_reason != Some(CubeRefutationReason::SelectorNoFeasibleConfig),
        x.kind != CubeNodeKind::Refuted ==> stands(w.cn, w.doms, x.decisions@, x.sigma_all as int, d),
        x.kind != CubeNodeKind::Refuted ==> (x.kind == CubeNodeKind::Cutoff <==> w.cutoff.cuts(x.sigma_dec as int, x.sigma_all as int, x.freevars as int)),
        x.kind == CubeNodeKind::Sat ==> x.freevars == 0,
        x.variables@.len() == 0,
        x.rule_diagnostics is None,
        x.optimized_clauses@.len() == 0,
        x.partition_sources@.len() == x.clauses@.len() == 0,
    ensures
        node_self(w, x),
{
    reveal(node_self);
}

/// The number that the next node gets.
pub open spec fn next_ok(nodes: Seq<CubeNodeTrace>, from: int, traced: bool, next: u64) -> bool {
    traced ==> next == node_number(nodes.len() - from)
}

/// What a generation is run with.
struct CubeCtx<'a, S> {
    search: solver::SearchCtx<'a, S>,
    cutoff: CubeCutoff,
    sat_policy: CncSatPolicy,
    termination: Option<TerminationSignal>,
    traced: bool,
}

impl<'a, S> CubeCtx<'a, S> {
    spec fn net(self) -> ConstraintNetwork {
        self.search.net()
    }

    spec fn setting(self, d0: Seq<DomainMask>) -> Setting {
        Setting { cn: self.net(), net: *self.search.cn, masks: *self.search.masks, doms: d0, cutoff: self.cutoff, selector: self.search.selector, measure: self.search.measure }
    }

    /// Whether a model was found here or someone has asked to stop, and the policy heeds it. Other
    /// threads may ask, so with a signal nothing is said of that; `CncSatPolicy::heeds` says what
    /// follows from it.
    fn should_stop_for_sat(&self, found: bool) -> (r: bool)
        ensures
            self.sat_policy == CncSatPolicy::CompleteFrontier ==> !r,
            self.sat_policy == CncSatPolicy::StopDecision && found ==> r,
            r ==> found || self.termination is Some,
    {
        let requested = found || match &self.termination {
            Some(signal) => signal.is_requested(),
            None => false,
        };
        self.sat_policy.heeds(requested)
    }
}

/// How a part of the generation ends.
#[derive(Clone, Copy, PartialEq, Eq, Structural)]
enum Flow {
    /// Its part of the frontier is complete.
    Done,
    /// Someone asked to stop.
    Stopped,
    /// The sink refused.
    Refused,
}

/// How propagation ends.
#[derive(Clone, Copy, PartialEq, Eq, Structural)]
enum End {
    Open,
    Refuted,
    RefutedByCompanion,
    Stopped,
}

/// The answer of a companion loses no model.
pub open spec fn reply_sound(cn: ConstraintNetwork, d: Seq<DomainMask>, reply: Seq<DomainMask>) -> bool {
    if reply.len() > 0 && reply[0] == DomainMask::NONE {
        !models::satisfiable(cn, d)
    } else {
        forall|a: Asg, v: int| cn.model(a) && models::consistent(d, a) && 0 <= v < reply.len() && reply[v].fixed() ==> #[trigger] reply[v].allows(#[trigger] a(v))
    }
}

/// From `from` on, no answer that fits the domains loses a model.
pub open spec fn sound_from(cn: ConstraintNetwork, asked: Seq<Question>, from: int) -> bool {
    forall|k: int| from <= k < asked.len() && (#[trigger] asked[k]).2.len() == asked[k].0.len() ==> reply_sound(cn, asked[k].0, asked[k].2)
}

/// More questions were asked, and the record of soundness is kept up.
pub open spec fn kept_up(cn: ConstraintNetwork, q0: Seq<Question>, q1: Seq<Question>, h0: bool, h1: bool) -> bool {
    &&& continues(q0, q1)
    &&& h1 == (h0 && sound_from(cn, q1, q0.len() as int))
}

proof fn lemma_kept_up(cn: ConstraintNetwork, q0: Seq<Question>, q1: Seq<Question>, q2: Seq<Question>, h0: bool, h1: bool, h2: bool)
    requires
        kept_up(cn, q0, q1, h0, h1),
        kept_up(cn, q1, q2, h1, h2),
    ensures
        kept_up(cn, q0, q2, h0, h2),
{
    lemma_continues_trans(q0, q1, q2);
    assert forall|k: int| 0 <= k < q1.len() implies q1[k] == #[trigger] q2[k] by {
        assert(q2[k] == q2.take(q1.len() as int)[k]);
    }
    if sound_from(cn, q2, q0.len() as int) {
        assert forall|k: int| q0.len() <= k < q1.len() && (#[trigger] q1[k]).2.len() == q1[k].0.len() implies reply_sound(cn, q1[k].0, q1[k].2) by {
            assert(q1[k] == q2[k]);
        }
    }
    if sound_from(cn, q1, q0.len() as int) && sound_from(cn, q2, q1.len() as int) {
        assert forall|k: int| q0.len() <= k < q2.len() && (#[trigger] q2[k]).2.len() == q2[k].0.len() implies reply_sound(cn, q2[k].0, q2[k].2) by {
            if k < q1.len() {
                assert(q1[k] == q2[k]);
            }
        }
    }
}

proof fn lemma_kept_same(cn: ConstraintNetwork, q: Seq<Question>, h: bool)
    ensures
        kept_up(cn, q, q, h, h),
{
    assert(q.take(q.len() as int) =~= q);
}

proof fn lemma_kept_one(cn: ConstraintNetwork, q: Seq<Question>, x: Question, h: bool)
    ensures
        kept_up(cn, q, q.push(x), h, h && (x.2.len() == x.0.len() ==> reply_sound(cn, x.0, x.2))),
{
    let r = q.push(x);
    assert(r.take(q.len() as int) =~= q);
    assert(r[q.len() as int] == x);
}

/// The answer fixes a variable that has another value already.
pub open spec fn denies(d: Seq<DomainMask>, reply: Seq<DomainMask>) -> bool {
    exists|v: int| 0 <= v < d.len() && (#[trigger] reply[v]).fixed() && d[v] != DomainMask::BOTH && d[v] != reply[v]
}

/// Domains with the fixed ones of an answer laid over them.
pub open spec fn overlaid(d: Seq<DomainMask>, reply: Seq<DomainMask>, upto: int) -> Seq<DomainMask> {
    Seq::new(
        d.len(),
        |v: int|
            if v < upto && reply[v].fixed() && d[v] == DomainMask::BOTH {
                reply[v]
            } else {
                d[v]
            },
    )
}

/// The answer rules the decisions out. One of another length says nothing.
pub open spec fn vetoes(x: Question) -> bool {
    x.2.len() == x.0.len() && ((x.0.len() > 0 && x.2[0] == DomainMask::NONE) || denies(x.0, x.2))
}

/// The domains with the values that the answer fixes.
pub open spec fn granted(x: Question) -> Seq<DomainMask> {
    if x.2.len() == x.0.len() {
        overlaid(x.0, x.2, x.0.len() as int)
    } else {
        x.0
    }
}

/// The answer is heeded: what is not refuted was not ruled out, and has `sigma` fixed variables, not
/// fewer than the answer left.
pub open spec fn heeded(x: Question, refuted: bool, sigma: int) -> bool {
    refuted || (!vetoes(x) && x.0.len() - util::unfixed(granted(x), x.0.len() as int) <= sigma)
}

/// A companion that is not silent was asked about the decisions, at `from` or later, and its answer
/// was heeded.
#[verifier::opaque]
pub open spec fn told_of(silent: bool, asked: Seq<Question>, from: int, dec: Seq<(usize, bool)>, refuted: bool, sigma: int) -> bool {
    silent || exists|q: int| from <= q < asked.len() && (#[trigger] asked[q]).1 == dec && heeded(asked[q], refuted, sigma)
}

/// A companion that is not silent was asked about each cube, from one on, and heeded.
#[verifier::opaque]
pub open spec fn told_all(silent: bool, asked: Seq<Question>, from: int, cubes: Seq<Cube>, first: int) -> bool {
    forall|k: int| first <= k < cubes.len() ==> told_of(silent, asked, from, (#[trigger] cubes[k]).decisions@, cubes[k].refuted, cubes[k].sigma_all as int)
}

/// Where every domain is live, narrowing frees no variable.
proof fn lemma_unfixed_narrower(e: Seq<DomainMask>, d: Seq<DomainMask>, n: int)
    requires
        0 <= n <= d.len(),
        ct::narrower(e, d),
        forall|v: int| 0 <= v < n ==> (#[trigger] e[v]).live(),
    ensures
        util::unfixed(e, n) <= util::unfixed(d, n),
    decreases n,
{
    if n > 0 {
        lemma_unfixed_narrower(e, d, n - 1);
        assert(e[n - 1].live());
        assert(e[n - 1].allows(true) ==> d[n - 1].allows(true));
        assert(e[n - 1].allows(false) ==> d[n - 1].allows(false));
    }
}

proof fn lemma_told_later(silent: bool, q1: Seq<Question>, q2: Seq<Question>, at: int, from: int, dec: Seq<(usize, bool)>, refuted: bool, sigma: int)
    requires
        continues(q1, q2),
        0 <= from <= at,
        told_of(silent, q1, at, dec, refuted, sigma),
    ensures
        told_of(silent, q2, from, dec, refuted, sigma),
{
    reveal(told_of);
    if !silent {
        let q = choose|q: int| at <= q < q1.len() && (#[trigger] q1[q]).1 == dec && heeded(q1[q], refuted, sigma);
        assert(q2[q] == q2.take(q1.len() as int)[q]);
    }
}

proof fn lemma_told_none(silent: bool, asked: Seq<Question>, from: int, cubes: Seq<Cube>)
    ensures
        told_all(silent, asked, from, cubes, cubes.len() as int),
{
    reveal(told_all);
}

proof fn lemma_told_one(silent: bool, asked: Seq<Question>, from: int, s0: Seq<Cube>, s1: Seq<Cube>, dec: Seq<(usize, bool)>, refuted: bool, sigma: int)
    requires
        told_of(silent, asked, from, dec, refuted, sigma),
        s1 == s0 || (s1.len() == s0.len() + 1 && s1[s0.len() as int].decisions@ == dec && (s1[s0.len() as int].refuted || (!refuted && s1[s0.len() as int].sigma_all == sigma))),
    ensures
        told_all(silent, asked, from, s1, s0.len() as int),
{
    reveal(told_all);
    reveal(told_of);
}

proof fn lemma_told_join(silent: bool, q1: Seq<Question>, q2: Seq<Question>, from: int, s1: Seq<Cube>, s2: Seq<Cube>, first: int)
    requires
        continues(q1, q2),
        continues(s1, s2),
        0 <= from,
        0 <= first <= s1.len(),
        told_all(silent, q1, from, s1, first),
        told_all(silent, q2, from, s2, s1.len() as int),
    ensures
        told_all(silent, q2, from, s2, first),
{
    reveal(told_all);
    assert forall|k: int| first <= k < s2.len() implies told_of(silent, q2, from, (#[trigger] s2[k]).decisions@, s2[k].refuted, s2[k].sigma_all as int) by {
        if k < s1.len() {
            assert(s2[k] == s2.take(s1.len() as int)[k]);
            let c = s1[k];
            assert(told_of(silent, q1, from, c.decisions@, c.refuted, c.sigma_all as int));
            lemma_told_later(silent, q1, q2, from, from, c.decisions@, c.refuted, c.sigma_all as int);
        }
    }
}

/// Write the fixed domains of an answer into the state. False where one contradicts it.
fn apply_reply(cn: &ConstraintNetwork, doms: &mut Vec<DomainMask>, buffer: &mut SolverBuffer, log: &mut Trail, reply: &Vec<DomainMask>, Ghost(tables): Ghost<Seq<TableView>>) -> (r: bool)
    requires
        cn.wf(),
        ct::pending(*cn, (old(doms)@, tables), *old(buffer), -1),
        ct::queue_ok(*old(buffer), 0, cn.m()),
        old(log).fits(trail::shape((old(doms)@, tables))),
        reply@.len() == cn.n(),
    ensures
        ct::logged(*final(log), (final(doms)@, tables), *old(log), (old(doms)@, tables)),
        ct::narrower(final(doms)@, old(doms)@),
        ct::pending(*cn, (final(doms)@, tables), *final(buffer), -1),
        ct::queue_ok(*final(buffer), 0, cn.m()),
        r ==> final(doms)@ == overlaid(old(doms)@, reply@, cn.n()),
        r == !denies(old(doms)@, reply@),
{
    let ghost d0 = doms@;
    let ghost l0 = *log;
    let mut v: usize = 0;
    proof {
        assert(overlaid(d0, reply@, 0) =~= d0);
        solver::lemma_logged_self(l0, (d0, tables));
    }
    while v < reply.len()
        invariant
            cn.wf(),
            d0 == old(doms)@,
            l0 == *old(log),
            d0.len() == cn.n(),
            reply@.len() == cn.n(),
            v <= cn.n(),
            doms@ == overlaid(d0, reply@, v as int),
            ct::pending(*cn, (doms@, tables), *buffer, -1),
            ct::queue_ok(*buffer, 0, cn.m()),
            log.fits(trail::shape((doms@, tables))),
            ct::logged(*log, (doms@, tables), l0, (d0, tables)),
            ct::narrower(doms@, d0),
            forall|u: int| 0 <= u < v && (#[trigger] reply@[u]).fixed() ==> d0[u] == DomainMask::BOTH || d0[u] == reply@[u],
        decreases reply.len() - v,
    {
        let implied = reply[v];
        let ghost d1 = doms@;
        let ghost l1 = *log;
        let ghost b1 = *buffer;
        if implied.is_fixed() {
            if doms[v] == DomainMask::BOTH {
                log.record_dom(v, doms[v]);
                doms.set(v, implied);
                proof {
                    ct::lemma_log_dom(d1, doms@, tables, l1, *log, v as int);
                    ct::lemma_logged_trans(*log, (doms@, tables), l1, (d1, tables), l0, (d0, tables));
                }
                ct::enqueue_var_change(cn, buffer, v);
                proof {
                    ct::lemma_pending_write(*cn, (d1, tables), (doms@, tables), b1, *buffer, v as int, -1);
                    assert(ct::queue_ok(b1, 0, cn.m()));
                }
            } else if doms[v] != implied {
                assert(d0[v as int] == doms@[v as int]);
                return false;
            }
        }
        proof {
            assert(doms@ =~= overlaid(d0, reply@, v + 1));
            assert forall|u: int, b: bool| 0 <= u < d0.len() && (#[trigger] doms@[u].allows(b)) implies d0[u].allows(b) by {}
        }
        v += 1;
    }
    true
}

/// Forget all queued work.
fn drain(buffer: &mut SolverBuffer, Ghost(cn): Ghost<ConstraintNetwork>)
    requires
        old(buffer).sized(cn),
    ensures
        final(buffer).clean(cn),
{
    buffer.reset_worklist();
    let mut t: usize = 0;
    while t < buffer.dirty.len()
        invariant
            buffer.sized(cn),
            buffer.queue@.len() == 0,
            forall|s: int| 0 <= s < cn.m() ==> !#[trigger] buffer.in_queue@[s],
            t <= cn.m(),
            forall|s: int| 0 <= s < t ==> #[trigger] buffer.dirty@[s] == 0,
        decreases buffer.dirty.len() - t,
    {
        buffer.dirty.set(t, 0);
        t += 1;
    }
}

/// Mark a contradiction.
fn set_contradiction(doms: &mut Vec<DomainMask>, log: &mut Trail, Ghost(tables): Ghost<Seq<TableView>>)
    requires
        old(log).fits(trail::shape((old(doms)@, tables))),
    ensures
        ct::logged(*final(log), (final(doms)@, tables), *old(log), (old(doms)@, tables)),
        ct::narrower(final(doms)@, old(doms)@),
        old(doms)@.len() > 0 ==> final(doms)@ == old(doms)@.update(0, DomainMask::NONE),
{
    let ghost d0 = doms@;
    let ghost l0 = *log;
    proof {
        solver::lemma_logged_self(l0, (d0, tables));
    }
    if doms.len() > 0 {
        if doms[0] != DomainMask::NONE {
            log.record_dom(0, doms[0]);
            doms.set(0, DomainMask::NONE);
            proof {
                ct::lemma_log_dom(d0, doms@, tables, l0, *log, 0);
            }
        }
        proof {
            assert(doms@ =~= d0.update(0, DomainMask::NONE));
            assert forall|u: int, b: bool| 0 <= u < d0.len() && (#[trigger] doms@[u].allows(b)) implies d0[u].allows(b) by {}
        }
    }
}

/// What comes of asking a companion, if there is one, about decisions at domains `d`, and
/// propagating: its answer refutes them, or the values that it fixes are taken over. An answer of
/// another length is not heeded.
#[verifier::opaque]
spec fn settled(cn: ConstraintNetwork, silent: bool, q0: Seq<Question>, q1: Seq<Question>, d: Seq<DomainMask>, dec: Seq<(usize, bool)>, e: Seq<DomainMask>, r: End) -> bool {
    if silent {
        q1 == q0 && r != End::RefutedByCompanion && r != End::Stopped && propagate::propagated(cn, d, e, r == End::Open)
    } else {
        let x = q1.last();
        &&& q1.len() == q0.len() + 1
        &&& x.0 == d
        &&& x.1 == dec
        &&& r != End::Stopped
        &&& if vetoes(x) {
            r == End::RefutedByCompanion
        } else {
            r != End::RefutedByCompanion && propagate::propagated(cn, granted(x), e, r == End::Open)
        }
    }
}

/// Ask the companion, if there is one, and propagate.
fn settle<S, C: Companion>(ctx: &CubeCtx<S>, companion: &mut C, buffer: &mut SolverBuffer, doms: &mut Vec<DomainMask>, tables: &mut Vec<RSparseBitSet>, log: &mut Trail, decisions: &Vec<(usize, bool)>, honest: &mut Ghost<bool>) -> (r: End)
    requires
        ctx.search.ok(),
        ct::pending(ctx.net(), (old(doms)@, trail::frozen(old(tables)@)), *old(buffer), -1),
        ct::queue_ok(*old(buffer), 0, ctx.net().m()),
        old(log).fits(trail::shape((old(doms)@, trail::frozen(old(tables)@)))),
    ensures
        ct::logged(*final(log), (final(doms)@, trail::frozen(final(tables)@)), *old(log), (old(doms)@, trail::frozen(old(tables)@))),
        final(buffer).clean(ctx.net()),
        ct::narrower(final(doms)@, old(doms)@),
        r != End::Stopped,
        r == End::Open ==> ct::fixpoint(ctx.net(), (final(doms)@, trail::frozen(final(tables)@))),
        kept_up(ctx.net(), old(companion).asked(), final(companion).asked(), old(honest)@, final(honest)@),
        final(companion).silent() == old(companion).silent(),
        told_of(old(companion).silent(), final(companion).asked(), old(companion).asked().len() as int, decisions@, r != End::Open, ctx.net().n() - util::unfixed(final(doms)@, ctx.net().n())),
        final(honest)@ && r == End::Open ==> models::keeps_models(ctx.net(), old(doms)@, final(doms)@),
        final(honest)@ && r != End::Open ==> !models::satisfiable(ctx.net(), old(doms)@),
        old(companion).silent() && ct::closed_under(ctx.net(), old(doms)@) ==> r == End::Open && final(doms)@ == old(doms)@,
        settled(ctx.net(), old(companion).silent(), old(companion).asked(), final(companion).asked(), old(doms)@, decisions@, final(doms)@, r),
{
    let ghost net = ctx.net();
    let ghost d0 = doms@;
    let ghost tv = trail::frozen(tables@);
    let ghost s0: State = (d0, tv);
    let ghost l0 = *log;
    let ghost q0 = companion.asked();
    let ghost h0 = honest@;
    proof {
        solver::lemma_logged_self(l0, s0);
        lemma_kept_same(net, q0, h0);
    }
    proof {
        reveal(told_of);
        reveal(settled);
    }
    if companion.present() {
        let reply = companion.propagate_decisions(doms.as_slice(), decisions.as_slice());
        proof {
            lemma_kept_one(net, q0, (d0, decisions@, reply@), h0);
            assert(companion.asked()[q0.len() as int].1 == decisions@);
        }
        if reply.len() == doms.len() {
            let ghost sound = reply_sound(net, d0, reply@);
            proof {
                *honest.borrow_mut() = honest@ && sound;
            }
            if reply.len() > 0 && reply[0] == DomainMask::NONE {
                set_contradiction(doms, log, Ghost(tv));
                drain(buffer, Ghost(net));
                return End::RefutedByCompanion;
            }
            let ok = apply_reply(ctx.search.cn, doms, buffer, log, &reply, Ghost(tv));
            if !ok {
                let ghost d1 = doms@;
                let ghost l1 = *log;
                set_contradiction(doms, log, Ghost(tv));
                proof {
                    ct::lemma_logged_trans(*log, (doms@, tv), l1, (d1, tv), l0, s0);
                    ct::lemma_narrower_trans(doms@, d1, d0);
                    if sound && models::satisfiable(net, d0) {
                        let a = choose|a: Asg| #[trigger] net.model(a) && models::consistent(d0, a);
                        let v = choose|v: int| 0 <= v < net.n() && (#[trigger] reply@[v]).fixed() && d0[v] != DomainMask::BOTH && d0[v] != reply@[v];
                        assert(reply@[v].allows(a(v)));
                        assert(d0[v].allows(a(v)));
                    }
                }
                drain(buffer, Ghost(net));
                return End::RefutedByCompanion;
            }
            proof {
                if sound {
                    assert forall|a: Asg| #[trigger] net.model(a) && models::consistent(d0, a) implies models::consistent(doms@, a) by {
                        assert forall|v: int| 0 <= v < doms@.len() implies doms@[v].allows(#[trigger] a(v)) by {
                            assert(d0[v].allows(a(v)));
                            if reply@[v].fixed() {
                                assert(reply@[v].allows(a(v)));
                            }
                        }
                    }
                }
            }
        } else {
            proof {
                assert(models::keeps_models(net, d0, doms@));
            }
        }
    }
    let ghost d1 = doms@;
    let ghost s1: State = (doms@, trail::frozen(tables@));
    let ghost l1 = *log;
    let ok = ct::ct_propagate(ctx.search.cn, doms, ctx.search.masks, tables, buffer, log);
    proof {
        ct::lemma_logged_trans(*log, (doms@, trail::frozen(tables@)), l1, s1, l0, s0);
        ct::lemma_narrower_trans(doms@, d1, d0);
        if ok {
            models::lemma_keeps_models(net, d1, doms@);
            if models::keeps_models(net, d0, d1) {
                assert forall|a: Asg| #[trigger] net.model(a) && models::consistent(d0, a) implies models::consistent(doms@, a) by {
                    assert(models::consistent(d1, a));
                }
            }
        } else {
            models::lemma_refuted_unsat(net, d1);
            if models::keeps_models(net, d0, d1) {
                solver::lemma_unsat_back(net, d0, d1);
            }
        }
    }
    proof {
        if old(companion).silent() && ct::closed_under(net, d0) {
            assert(ct::narrower(d0, d0));
            assert forall|v: int| 0 <= v < d0.len() implies doms@[v] == #[trigger] d0[v] by {
                assert(d0[v].allows(true) == doms@[v].allows(true));
                assert(d0[v].allows(false) == doms@[v].allows(false));
            }
            assert(doms@ =~= d0);
        }
    }
    proof {
        if ok && !old(companion).silent() {
            assert(d1 =~= granted(companion.asked()[q0.len() as int]));
            lemma_unfixed_narrower(doms@, d1, net.n());
        }
    }
    if ok {
        End::Open
    } else {
        End::Refuted
    }
}

/// Take a branch: set its variables, propagate with the companion, and reduce.
fn take_branch<S, C: Companion>(ctx: &CubeCtx<S>, companion: &mut C, buffer: &mut SolverBuffer, doms: &mut Vec<DomainMask>, tables: &mut Vec<RSparseBitSet>, log: &mut Trail, decisions: &Vec<(usize, bool)>, vars: &[usize], mask: u64, val: u64, found: bool, honest: &mut Ghost<bool>) -> (r: End)
    requires
        ctx.search.ok(),
        solver::at_rest(ctx.net(), (old(doms)@, trail::frozen(old(tables)@)), *old(buffer), *old(log)),
        vars@.len() <= 64,
        forall|i: int| 0 <= i < vars@.len() ==> (#[trigger] vars@[i]) < ctx.net().n(),
    ensures
        ct::logged(*final(log), (final(doms)@, trail::frozen(final(tables)@)), *old(log), (old(doms)@, trail::frozen(old(tables)@))),
        final(buffer).clean(ctx.net()),
        ct::narrower(final(doms)@, old(doms)@),
        r == End::Stopped ==> ctx.sat_policy == CncSatPolicy::StopDecision && (found || ctx.termination is Some),
        ctx.sat_policy == CncSatPolicy::StopDecision && found ==> r == End::Stopped,
        r == End::Open ==> ct::fixpoint(ctx.net(), (final(doms)@, trail::frozen(final(tables)@))) && ct::narrower(final(doms)@, ct::assigned(old(doms)@, vars@, mask, val, vars@.len() as int)),
        kept_up(ctx.net(), old(companion).asked(), final(companion).asked(), old(honest)@, final(honest)@),
        final(companion).silent() == old(companion).silent(),
        r != End::Stopped ==> told_of(old(companion).silent(), final(companion).asked(), old(companion).asked().len() as int, decisions@, r != End::Open, ctx.net().n() - util::unfixed(final(doms)@, ctx.net().n())),
        final(honest)@ && r == End::Open ==> models::carries(ctx.net(), ct::assigned(old(doms)@, vars@, mask, val, vars@.len() as int), final(doms)@, Seq::empty()),
        final(honest)@ && (r == End::Refuted || r == End::RefutedByCompanion) ==> !models::satisfiable(ctx.net(), ct::assigned(old(doms)@, vars@, mask, val, vars@.len() as int)),
        r == End::Open ==> problem::reduced(ctx.net(), final(doms)@),
        old(companion).silent() ==> r != End::RefutedByCompanion,
        r != End::Stopped ==> exists|e: Seq<DomainMask>, end: End| #[trigger]
            settled(ctx.net(), old(companion).silent(), old(companion).asked(), final(companion).asked(), ct::assigned(old(doms)@, vars@, mask, val, vars@.len() as int), decisions@, e, end) && ct::narrower(final(doms)@, e) && (if end
                == End::Open {
                r == End::Open || r == End::Refuted
            } else {
                r == end && final(doms)@ == e
            }),
{
    let ghost net = ctx.net();
    let ghost d0 = doms@;
    let ghost tv = trail::frozen(tables@);
    let ghost s0: State = (d0, tv);
    let ghost l0 = *log;
    let ghost a = ct::assigned(d0, vars@, mask, val, vars@.len() as int);
    let ghost none = Seq::<usize>::empty();
    proof {
        propagate::lemma_fixpoint_pending(net, s0, *buffer);
    }
    ct::apply_masked_assignment(ctx.search.cn, doms, buffer, log, vars, mask, val, Ghost(tv));
    let ghost sa: State = (doms@, tv);
    let ghost la = *log;
    let end = settle(ctx, companion, buffer, doms, tables, log, decisions, honest);
    let ghost d1 = doms@;
    let ghost s1: State = (doms@, trail::frozen(tables@));
    let ghost l1 = *log;
    proof {
        ct::lemma_logged_trans(l1, s1, la, sa, l0, s0);
        ct::lemma_narrower_trans(d1, a, d0);
        reveal(told_of);
        reveal(settled);
    }
    if ctx.should_stop_for_sat(found) {
        return End::Stopped;
    }
    if end != End::Open {
        return end;
    }
    let ok = propagate::dominate_fixpoint(ctx.search.cn, doms, ctx.search.masks, tables, buffer, log);
    let ghost d2 = doms@;
    let ghost s2: State = (doms@, trail::frozen(tables@));
    let ghost l2 = *log;
    proof {
        if ok {
            assert(problem::undominated(net, s2));
        }
        ct::lemma_logged_trans(l2, s2, l1, s1, l0, s0);
        ct::lemma_narrower_trans(d2, d1, d0);
        if honest@ {
            models::lemma_keeps_carries(net, a, d1, none);
            if !ok {
                solver::lemma_unsat_back(net, a, d1);
            } else {
                models::lemma_carries_trans(net, a, d1, d2, none, none, none);
            }
        }
    }
    if ctx.should_stop_for_sat(found) {
        return End::Stopped;
    }
    if !ok {
        return End::Refuted;
    }
    let pool = selector::occurrence_pool(ctx.search.cn, doms.as_slice(), buffer, ctx.search.masks.as_slice(), selector::FAILED_LITERAL_POOL);
    proof {
        selector::lemma_ranked_ids(net, d2, selector::all_ids(net.n()), pool@, selector::FAILED_LITERAL_POOL as int);
        assert forall|i: int| 0 <= i < pool@.len() implies (#[trigger] pool@[i]) < net.n() by {
            assert(selector::all_ids(net.n()).contains(pool@[i]));
        }
    }
    let ok = propagate::failed_literal_fixpoint(ctx.search.cn, doms, ctx.search.masks, tables, buffer, log, pool.as_slice());
    proof {
        ct::lemma_logged_trans(*log, (doms@, trail::frozen(tables@)), l2, s2, l0, s0);
        ct::lemma_narrower_trans(doms@, d2, d0);
        ct::lemma_narrower_trans(doms@, d2, d1);
        models::lemma_decided_models(net, d2, doms@, pool@);
        if ok {
            assert(problem::probed_pool(net, d2, pool@));
            assert(problem::reduced(net, doms@)) by {
                reveal(problem::reduced);
            }
            ct::lemma_narrower_trans(d2, d1, a);
            ct::lemma_narrower_trans(doms@, d2, a);
            lemma_unfixed_narrower(doms@, d1, net.n());
        }
        if honest@ {
            if ok {
                models::lemma_keeps_carries(net, d2, doms@, none);
                models::lemma_carries_trans(net, a, d2, doms@, none, none, none);
            } else if models::satisfiable(net, a) {
                models::lemma_carries_satisfiable(net, a, d2);
            }
        }
    }
    if ctx.should_stop_for_sat(found) {
        return End::Stopped;
    }
    if ok {
        End::Open
    } else {
        End::Refuted
    }
}

/// The decisions of a clause.
pub open spec fn clause_decisions(vars: Seq<usize>, mask: u64, val: u64, upto: int) -> Seq<(usize, bool)>
    decreases upto,
{
    if upto <= 0 {
        Seq::empty()
    } else if bits::bit(mask, upto - 1) {
        clause_decisions(vars, mask, val, upto - 1).push((vars[upto - 1], bits::bit(val, upto - 1)))
    } else {
        clause_decisions(vars, mask, val, upto - 1)
    }
}

/// Append the decisions of a clause.
pub fn push_decisions(decisions: &mut Vec<(usize, bool)>, vars: &[usize], mask: u64, val: u64)
    requires
        vars@.len() <= 64,
    ensures
        final(decisions)@ == old(decisions)@ + clause_decisions(vars@, mask, val, vars@.len() as int),
{
    let ghost d0 = decisions@;
    let mut i: usize = 0;
    proof {
        assert(d0 + clause_decisions(vars@, mask, val, 0) =~= d0);
    }
    while i < vars.len()
        invariant
            vars@.len() <= 64,
            i <= vars@.len(),
            decisions@ == d0 + clause_decisions(vars@, mask, val, i as int),
        decreases vars.len() - i,
    {
        if bits::get_bit(mask, i) {
            decisions.push((vars[i], bits::get_bit(val, i)));
        }
        proof {
            assert(decisions@ =~= d0 + clause_decisions(vars@, mask, val, i + 1));
        }
        i += 1;
    }
}

proof fn lemma_clause_decisions(vars: Seq<usize>, mask: u64, val: u64, upto: int)
    requires
        0 <= upto <= vars.len() <= 64,
    ensures
        forall|k: int| 0 <= k < clause_decisions(vars, mask, val, upto).len() ==> decides(vars, mask, val, upto, #[trigger] clause_decisions(vars, mask, val, upto)[k]),
        forall|i: int| 0 <= i < upto && #[trigger] bits::bit(mask, i) ==> clause_decisions(vars, mask, val, upto).contains((vars[i], bits::bit(val, i))),
    decreases upto,
{
    if upto > 0 {
        lemma_clause_decisions(vars, mask, val, upto - 1);
        let s = clause_decisions(vars, mask, val, upto - 1);
        let t = clause_decisions(vars, mask, val, upto);
        assert forall|k: int| 0 <= k < t.len() implies decides(vars, mask, val, upto, #[trigger] t[k]) by {
            if k < s.len() {
                assert(t[k] == s[k]);
                let i = choose|i: int| 0 <= i < upto - 1 && #[trigger] bits::bit(mask, i) && s[k] == (vars[i], bits::bit(val, i));
                assert(bits::bit(mask, i));
            } else {
                assert(bits::bit(mask, upto - 1));
            }
        }
        assert forall|i: int| 0 <= i < upto && #[trigger] bits::bit(mask, i) implies t.contains((vars[i], bits::bit(val, i))) by {
            if i < upto - 1 {
                let q = s.index_of((vars[i], bits::bit(val, i)));
                assert(t[q] == s[q]);
            } else {
                assert(t[s.len() as int] == (vars[i], bits::bit(val, i)));
            }
        }
    }
}

/// The decision is one of the clause's.
spec fn decides(vars: Seq<usize>, mask: u64, val: u64, upto: int, x: (usize, bool)) -> bool {
    exists|i: int| 0 <= i < upto && #[trigger] bits::bit(mask, i) && x == (vars[i], bits::bit(val, i))
}

/// Decisions lead to a child: its domains hold them, and models are carried.
proof fn lemma_child(cn: ConstraintNetwork, d0: Seq<DomainMask>, dec: Seq<(usize, bool)>, d: Seq<DomainMask>, vars: Seq<usize>, mask: u64, val: u64, e: Seq<DomainMask>)
    requires
        cn.wf(),
        d0.len() == cn.n(),
        d.len() == cn.n(),
        propagate::all_live(d),
        propagate::all_live(e),
        reached(cn, d0, dec, d),
        vars.len() <= 64,
        network::distinct(vars),
        forall|i: int| 0 <= i < vars.len() ==> (#[trigger] vars[i]) < cn.n() && !d[vars[i] as int].fixed(),
        ct::narrower(e, d),
        ct::narrower(e, ct::assigned(d, vars, mask, val, vars.len() as int)),
    ensures
        reached(cn, d0, dec + clause_decisions(vars, mask, val, vars.len() as int), e),
{
    let more = clause_decisions(vars, mask, val, vars.len() as int);
    let all = dec + more;
    let a = ct::assigned(d, vars, mask, val, vars.len() as int);
    ct::lemma_narrower_trans(e, d, d0);
    solver::lemma_fixed_stays(d, e);
    lemma_clause_decisions(vars, mask, val, vars.len() as int);
    assert forall|i: int| 0 <= i < all.len() implies (#[trigger] all[i]).0 < e.len() && e[all[i].0 as int] == DomainMask::only(all[i].1) by {
        if i < dec.len() {
            assert(all[i] == dec[i]);
            assert(d[dec[i].0 as int].fixed());
        } else {
            assert(all[i] == more[i - dec.len()]);
            let j = choose|j: int| 0 <= j < vars.len() && #[trigger] bits::bit(mask, j) && more[i - dec.len()] == (vars[j], bits::bit(val, j));
            let v = vars[j] as int;
            assert(vars[j] < cn.n());
            crate::counting::lemma_assigned_at(d, vars, mask, val, vars.len() as int, j);
            assert(d[v].live());
            assert(a[v] == DomainMask::only(bits::bit(val, j)));
            assert(e[v].live());
            assert(e[v].allows(true) ==> a[v].allows(true));
            assert(e[v].allows(false) ==> a[v].allows(false));
        }
    }
}

/// Models are carried along a branch.
proof fn lemma_child_carries(cn: ConstraintNetwork, d0: Seq<DomainMask>, dec: Seq<(usize, bool)>, d: Seq<DomainMask>, vars: Seq<usize>, mask: u64, val: u64)
    requires
        cn.wf(),
        d0.len() == cn.n(),
        d.len() == cn.n(),
        propagate::all_live(d),
        carries_dec(cn, d0, dec, d),
        vars.len() <= 64,
        network::distinct(vars),
        forall|i: int| 0 <= i < vars.len() ==> (#[trigger] vars[i]) < cn.n() && !d[vars[i] as int].fixed(),
    ensures
        carries_dec(cn, d0, dec + clause_decisions(vars, mask, val, vars.len() as int), ct::assigned(d, vars, mask, val, vars.len() as int)),
{
    let more = clause_decisions(vars, mask, val, vars.len() as int);
    let all = dec + more;
    let a = ct::assigned(d, vars, mask, val, vars.len() as int);
    lemma_clause_decisions(vars, mask, val, vars.len() as int);
    assert forall|h: Asg| #[trigger] cn.model(h) && models::consistent(d0, h) && dec_holds(all, h) implies models::carried(cn, a, h) by {
        assert(dec_holds(dec, h)) by {
            assert forall|i: int| 0 <= i < dec.len() implies h((#[trigger] dec[i]).0 as int) == dec[i].1 by {
                assert(all[i] == dec[i]);
            }
        }
        assert(models::carried(cn, d, h));
        let g = choose|g: Asg| #[trigger] cn.model(g) && models::consistent(d, g) && models::keeps_where(d, h, g);
        assert forall|i: int| 0 <= i < vars.len() && bits::bit(mask, i) implies bits::bit(val, i) == g((#[trigger] vars[i]) as int) by {
            assert(more.contains((vars[i], bits::bit(val, i))));
            let q = more.index_of((vars[i], bits::bit(val, i)));
            assert(all[dec.len() + q] == more[q]);
            assert(h(vars[i] as int) == bits::bit(val, i));
            assert(vars[i] < cn.n());
            assert(d[vars[i] as int].live());
            assert(d[vars[i] as int].allows(h(vars[i] as int)));
        }
        table::lemma_assigned_consistent(d, vars, mask, val, vars.len() as int, g);
        assert(models::keeps_where(a, h, g)) by {
            solver::lemma_assigned_elsewhere(d, vars, mask, val, vars.len() as int);
            assert forall|v: int| 0 <= v < a.len() && a[v].allows(#[trigger] h(v)) implies g(v) == h(v) by {
                if crate::contract::lists(vars, v) {
                    let i = choose|i: int| 0 <= i < vars.len() && (#[trigger] vars[i]) as int == v;
                    assert(!d[vars[i] as int].fixed());
                    assert(d[v].live());
                    assert(d[v].allows(h(v)));
                } else {
                    assert(d[v].allows(h(v)));
                }
            }
        }
    }
}

/// Carrying goes on through reductions.
proof fn lemma_dec_trans(cn: ConstraintNetwork, d0: Seq<DomainMask>, dec: Seq<(usize, bool)>, a: Seq<DomainMask>, e: Seq<DomainMask>)
    requires
        carries_dec(cn, d0, dec, a),
        models::carries(cn, a, e, Seq::empty()),
        ct::narrower(e, a),
    ensures
        carries_dec(cn, d0, dec, e),
{
    assert forall|h: Asg| #[trigger] cn.model(h) && models::consistent(d0, h) && dec_holds(dec, h) implies models::carried(cn, e, h) by {
        assert(models::carried(cn, a, h));
        let g = choose|g: Asg| #[trigger] cn.model(g) && models::consistent(a, g) && models::keeps_where(a, h, g);
        assert(models::allows_on(e, Seq::empty(), g));
        assert(models::carried(cn, e, g));
        let f = choose|f: Asg| #[trigger] cn.model(f) && models::consistent(e, f) && models::keeps_where(e, g, f);
        assert(models::keeps_where(e, h, f)) by {
            assert forall|v: int| 0 <= v < e.len() && e[v].allows(#[trigger] h(v)) implies f(v) == h(v) by {
                assert(a[v].allows(h(v)));
                assert(g(v) == h(v));
            }
        }
    }
}

/// Without a model at the node, no model has the decisions.
proof fn lemma_no_model(cn: ConstraintNetwork, d0: Seq<DomainMask>, dec: Seq<(usize, bool)>, d: Seq<DomainMask>)
    requires
        carries_dec(cn, d0, dec, d),
        !models::satisfiable(cn, d),
    ensures
        !has_model(cn, d0, dec),
{
    if has_model(cn, d0, dec) {
        let h = choose|h: Asg| #[trigger] cn.model(h) && models::consistent(d0, h) && dec_holds(dec, h);
        assert(models::carried(cn, d, h));
        let g = choose|g: Asg| #[trigger] cn.model(g) && models::consistent(d, g) && models::keeps_where(d, h, g);
        assert(models::satisfiable(cn, d));
    }
}

/// With a model at the node, some model has the decisions.
proof fn lemma_node_model(cn: ConstraintNetwork, d0: Seq<DomainMask>, dec: Seq<(usize, bool)>, d: Seq<DomainMask>)
    requires
        d.len() == cn.n(),
        reached(cn, d0, dec, d),
        models::satisfiable(cn, d),
    ensures
        has_model(cn, d0, dec),
{
    let a = choose|a: Asg| #[trigger] cn.model(a) && models::consistent(d, a);
    models::lemma_consistent_wider(d, d0, a);
    assert(dec_holds(dec, a)) by {
        assert forall|i: int| 0 <= i < dec.len() implies a((#[trigger] dec[i]).0 as int) == dec[i].1 by {
            assert(dec[i].0 < d.len());
            assert(d[dec[i].0 as int].allows(a(dec[i].0 as int)));
        }
    }
}

/// Decisions of clashing clauses oppose each other.
proof fn lemma_opposed(prefix: Seq<(usize, bool)>, vars: Seq<usize>, x: Clause, y: Clause, p: Seq<(usize, bool)>, q: Seq<(usize, bool)>)
    requires
        vars.len() <= 64,
        bits::below(x.mask, vars.len() as int),
        dnf::clash(x, y),
        extends(p, prefix + clause_decisions(vars, x.mask, x.val, vars.len() as int)),
        extends(q, prefix + clause_decisions(vars, y.mask, y.val, vars.len() as int)),
    ensures
        opposed(p, q),
{
    let i = choose|i: int| 0 <= i < 64 && #[trigger] bits::bit(x.mask, i) && bits::bit(y.mask, i) && bits::bit(x.val, i) != bits::bit(y.val, i);
    let n = vars.len() as int;
    let s = clause_decisions(vars, x.mask, x.val, n);
    let t = clause_decisions(vars, y.mask, y.val, n);
    lemma_clause_decisions(vars, x.mask, x.val, n);
    lemma_clause_decisions(vars, y.mask, y.val, n);
    assert(i < n) by {
        if i >= n {
            assert(!bits::bit(x.mask, i));
        }
    }
    assert(bits::bit(y.mask, i));
    let a = s.index_of((vars[i], bits::bit(x.val, i)));
    let b = t.index_of((vars[i], bits::bit(y.val, i)));
    let m = prefix.len() as int;
    assert(p[m + a] == p.take((prefix + s).len() as int)[m + a]);
    assert((prefix + s)[m + a] == s[a]);
    assert(q[m + b] == q.take((prefix + t).len() as int)[m + b]);
    assert((prefix + t)[m + b] == t[b]);
    assert(p[m + a].0 == q[m + b].0);
}

/// A copy of decisions.
fn copy_decisions(decisions: &Vec<(usize, bool)>) -> (r: Vec<(usize, bool)>)
    ensures
        r@ == decisions@,
{
    let mut out: Vec<(usize, bool)> = Vec::new();
    let mut i: usize = 0;
    while i < decisions.len()
        invariant
            i <= decisions@.len(),
            out@ == decisions@.take(i as int),
        decreases decisions.len() - i,
    {
        out.push(decisions[i]);
        assert(decisions@.take(i + 1) =~= decisions@.take(i as int).push(decisions@[i as int]));
        i += 1;
    }
    assert(decisions@.take(decisions@.len() as int) =~= decisions@);
    out
}

/// A node without a rule.
fn plain_node(node_id: u64, parent_id: Option<u64>, child_index: Option<usize>, depth: usize, kind: CubeNodeKind, refutation_reason: Option<CubeRefutationReason>, decisions: &Vec<(usize, bool)>, sigma_all: usize, freevars: usize) -> (r: CubeNodeTrace)
    ensures
        r.node_id == node_id,
        r.parent_id == parent_id,
        r.child_index == child_index,
        r.depth == depth,
        r.kind == kind,
        r.refutation_reason == refutation_reason,
        r.decisions@ == decisions@,
        r.sigma_dec == decisions@.len(),
        r.sigma_all == sigma_all,
        r.freevars == freevars,
        r.rule_diagnostics is None,
        r.variables@.len() == 0,
        r.optimized_clauses@.len() == 0,
        r.clauses@.len() == 0,
        r.partition_sources@.len() == 0,
{
    CubeNodeTrace {
        node_id,
        parent_id,
        child_index,
        depth,
        kind,
        refutation_reason,
        decisions: copy_decisions(decisions),
        sigma_dec: decisions.len(),
        sigma_all,
        freevars,
        rule_diagnostics: None,
        variables: Vec::new(),
        optimized_clauses: Vec::new(),
        clauses: Vec::new(),
        partition_sources: Vec::new(),
    }
}

/// One more node number.
fn bump(next: u64) -> (r: u64)
    ensures
        r == (if next < u64::MAX {
            (next + 1) as u64
        } else {
            u64::MAX
        }),
{
    if next < u64::MAX {
        next + 1
    } else {
        next
    }
}

/// Clauses as they are reported.
fn trace_clauses(clauses: &Vec<Clause>) -> (r: Vec<TraceClause>)
    ensures
        r@.len() == clauses@.len(),
        forall|k: int| 0 <= k < clauses@.len() ==> (#[trigger] r@[k]).mask == clauses@[k].mask && r@[k].value == clauses@[k].val,
{
    let mut out: Vec<TraceClause> = Vec::new();
    let mut i: usize = 0;
    while i < clauses.len()
        invariant
            i <= clauses@.len(),
            out@.len() == i,
            forall|k: int| 0 <= k < i ==> (#[trigger] out@[k]).mask == clauses@[k].mask && out@[k].value == clauses@[k].val,
        decreases clauses.len() - i,
    {
        out.push(TraceClause { mask: clauses[i].mask, value: clauses[i].val });
        i += 1;
    }
    out
}

proof fn lemma_unfixed_bound(d: Seq<DomainMask>, n: int)
    requires
        0 <= n,
    ensures
        util::unfixed(d, n) <= n,
    decreases n,
{
    if n > 0 {
        lemma_unfixed_bound(d, n - 1);
    }
}

/// Where nothing is open, nothing is counted as unfixed.
proof fn lemma_none_open(d: Seq<DomainMask>, n: int, scope: Seq<usize>)
    requires
        0 <= n <= d.len() <= usize::MAX,
        scope.len() == 0,
        forall|v: usize| #[trigger] scope.contains(v) <==> (v < d.len() && !d[v as int].fixed()),
    ensures
        util::unfixed(d, n) == 0,
    decreases n,
{
    if n > 0 {
        lemma_none_open(d, n - 1, scope);
        assert(!scope.contains((n - 1) as usize));
    }
}

/// An open variable is counted.
proof fn lemma_some_unfixed(d: Seq<DomainMask>, n: int, v: int)
    requires
        0 <= v < n <= d.len(),
        !d[v].fixed(),
    ensures
        util::unfixed(d, n) > 0,
    decreases n,
{
    if v < n - 1 {
        lemma_some_unfixed(d, n - 1, v);
    }
}

proof fn lemma_both_positive(d: Seq<DomainMask>, n: int, v: int)
    requires
        0 <= v < n <= d.len(),
        d[v] == DomainMask::BOTH,
    ensures
        ct::both_count(d, n) > 0,
    decreases n,
{
    if v < n - 1 {
        lemma_both_positive(d, n - 1, v);
    }
}

/// One cube more, with these decisions and marks.
pub open spec fn pushed(s0: Seq<Cube>, s1: Seq<Cube>, decisions: Seq<(usize, bool)>, sigma_all: int, refuted: bool, sat: bool) -> bool {
    &&& s1.len() == s0.len() + 1
    &&& continues(s0, s1)
    &&& s1[s0.len() as int].decisions@ == decisions
    &&& s1[s0.len() as int].sigma_dec == decisions.len()
    &&& s1[s0.len() as int].sigma_all == sigma_all
    &&& s1[s0.len() as int].refuted == refuted
    &&& s1[s0.len() as int].sat == sat
}

/// What is left behind by a leaf: the node where nodes are reported, and the cube unless the
/// sink refused.
pub open spec fn leaf_left(w: Setting, traced: bool, from: int, n0: Seq<CubeNodeTrace>, n1: Seq<CubeNodeTrace>, next: u64, s0: Seq<Cube>, s1: Seq<Cube>, decisions: Seq<(usize, bool)>, sigma_all: int, refuted: bool, sat: bool, ok: bool) -> bool {
    &&& pushed(s0, s1, decisions, sigma_all, refuted, sat) || (!ok && s1 == s0)
    &&& continues(n0, n1)
    &&& traced ==> tree_ok(w, n1, from) && next_ok(n1, from, traced, next)
    &&& !traced ==> n1 == n0
}

/// Report a leaf.
fn leaf<K: CubeSink>(traced: bool, cube_stats: &mut CubeStats, sink: &mut K, node: CubeNodeTrace, Ghost(w): Ghost<Setting>, Ghost(from): Ghost<int>, Ghost(nodes_from): Ghost<int>, Ghost(at): Ghost<int>) -> (ok: bool)
    requires
        0 <= from <= old(sink).seen().len(),
        counted(*old(cube_stats), old(sink).seen(), from),
        node.kind != CubeNodeKind::Branch,
        node.sigma_dec == node.decisions@.len(),
        traced ==> node_self(w, node) && 0 <= nodes_from <= old(sink).nodes().len() && tree_ok(w, old(sink).nodes(), nodes_from) && hangs(old(sink).nodes(), nodes_from, at, node),
        next_ok(old(sink).nodes(), nodes_from, traced, node.node_id),
    ensures
        counted(*final(cube_stats), final(sink).seen(), from),
        leaf_left(w, traced, nodes_from, old(sink).nodes(), final(sink).nodes(), bumped(node.node_id), old(sink).seen(), final(sink).seen(), node.decisions@, node.sigma_all as int, node.kind == CubeNodeKind::Refuted, node.kind == CubeNodeKind::Sat, ok),
        traced ==> final(sink).nodes() == old(sink).nodes().push(node),
        !traced ==> final(sink).seen() != old(sink).seen(),
        old(sink).accepts_all() ==> ok && final(sink).accepts_all(),
        final(sink).refused() == (old(sink).refused() || !ok),
{
    let refuted = match node.kind {
        CubeNodeKind::Refuted => true,
        _ => false,
    };
    let sat = match node.kind {
        CubeNodeKind::Sat => true,
        _ => false,
    };
    let decisions = copy_decisions(&node.decisions);
    let sigma_dec: usize = node.sigma_dec;
    let sigma_all: usize = node.sigma_all;
    let ghost n0 = sink.nodes();
    let ghost s0 = sink.seen();
    proof {
        assert(s0.take(s0.len() as int) =~= s0);
        assert(n0.take(n0.len() as int) =~= n0);
    }
    if traced {
        proof {
            let n1 = n0.push(node);
            lemma_tree_push(w, n0, nodes_from, at, node);
            assert(n1.take(n0.len() as int) =~= n0);
        }
        if !sink.trace(node) {
            return false;
        }
    }
    let cube = Cube { decisions, sigma_dec, sigma_all, refuted, sat };
    proof {
        assert(s0.push(cube).take(s0.len() as int) =~= s0);
    }
    emit_cube(cube_stats, sink, cube, Ghost(from))
}

/// The number after a number.
pub open spec fn bumped(id: u64) -> u64 {
    if id < u64::MAX {
        (id + 1) as u64
    } else {
        u64::MAX
    }
}

/// Some piece of the cover is satisfiable where some clause of the rule is.
proof fn lemma_some_piece(cn: ConstraintNetwork, d: Seq<DomainMask>, vars: Seq<usize>, clauses: Seq<Clause>, parts: Seq<(Clause, usize)>)
    requires
        d.len() == cn.n(),
        vars.len() <= 64,
        network::distinct(vars),
        forall|i: int| 0 <= i < vars.len() ==> (#[trigger] vars[i]) < cn.n() && !d[vars[i] as int].fixed(),
        propagate::all_live(d),
        table::masks_below(clauses, vars.len() as int),
        dnf::disjoint_cover(clauses, parts),
        table::some_branch_satisfiable(cn, d, vars, clauses),
    ensures
        table::some_branch_satisfiable(cn, d, vars, dnf::pieces_of(parts)),
{
    let n = vars.len() as int;
    let k = choose|k: int| 0 <= k < clauses.len() && models::satisfiable(cn, ct::assigned(d, vars, (#[trigger] clauses[k]).mask, clauses[k].val, n));
    let a = ct::assigned(d, vars, clauses[k].mask, clauses[k].val, n);
    let g = choose|g: Asg| #[trigger] cn.model(g) && models::consistent(a, g);
    let x = crate::counting::lemma_config(vars, g, n);
    assert(clauses[k].covers(x)) by {
        assert forall|i: int| 0 <= i < 64 && #[trigger] bits::bit(clauses[k].mask, i) implies bits::bit(x, i) == bits::bit(clauses[k].val, i) by {
            assert(bits::below(clauses[k].mask, n));
            assert(i < n);
            crate::counting::lemma_assigned_at(d, vars, clauses[k].mask, clauses[k].val, n, i);
            assert(vars[i] < cn.n());
            assert(d[vars[i] as int].live());
            assert(a[vars[i] as int].allows(g(vars[i] as int)));
        }
    }
    assert(table::some_covers(clauses, x));
    let pieces = dnf::pieces_of(parts);
    assert(table::some_covers(pieces, x));
    let q = choose|q: int| 0 <= q < pieces.len() && (#[trigger] pieces[q]).covers(x);
    solver::lemma_assigned_elsewhere(d, vars, clauses[k].mask, clauses[k].val, n);
    assert(models::consistent(d, g)) by {
        assert forall|v: int| 0 <= v < d.len() implies d[v].allows(#[trigger] g(v)) by {
            if crate::contract::lists(vars, v) {
                let i = choose|i: int| 0 <= i < vars.len() && (#[trigger] vars[i]) as int == v;
                assert(!d[vars[i] as int].fixed());
                assert(d[v].live());
            } else {
                assert(a[v].allows(g(v)));
            }
        }
    }
    assert forall|i: int| 0 <= i < n && bits::bit(pieces[q].mask, i) implies bits::bit(pieces[q].val, i) == g((#[trigger] vars[i]) as int) by {
        assert(bits::bit(x, i) == g(vars[i] as int));
    }
    table::lemma_assigned_consistent(d, vars, pieces[q].mask, pieces[q].val, n, g);
    assert(models::satisfiable(cn, ct::assigned(d, vars, pieces[q].mask, pieces[q].val, n)));
}

/// The pieces of a cover set variables of the rule, and at least one.
proof fn lemma_pieces(clauses: Seq<Clause>, parts: Seq<(Clause, usize)>, width: int)
    requires
        0 <= width <= 64,
        table::each_sets(clauses, width),
        table::masks_below(clauses, width),
        dnf::disjoint_cover(clauses, parts),
    ensures
        table::each_sets(dnf::pieces_of(parts), width),
        table::masks_below(dnf::pieces_of(parts), width),
{
    let pieces = dnf::pieces_of(parts);
    assert forall|k: int| 0 <= k < pieces.len() implies table::sets_some(#[trigger] pieces[k], width) by {
        let c = clauses[parts[k].1 as int];
        assert(dnf::refines(parts[k].0, c));
        assert(table::sets_some(c, width));
        let i = choose|i: int| 0 <= i < width && #[trigger] bits::bit(c.mask, i);
        assert(bits::bit(pieces[k].mask, i));
    }
    assert forall|k: int| 0 <= k < pieces.len() implies bits::below((#[trigger] pieces[k]).mask, width) by {
        assert forall|i: int| width <= i < 64 implies !#[trigger] bits::bit(pieces[k].mask, i) by {
            if bits::bit(pieces[k].mask, i) {
                assert(dnf::set_by_some(clauses, i));
                let q = choose|q: int| 0 <= q < clauses.len() && bits::bit((#[trigger] clauses[q]).mask, i);
                assert(bits::below(clauses[q].mask, width));
            }
        }
    }
}

/// From `from` on, each cube lies in one of the first `upto` pieces.
spec fn from_pieces(prefix: Seq<(usize, bool)>, vars: Seq<usize>, pieces: Seq<Clause>, upto: int, from: int, cubes: Seq<Cube>) -> bool {
    forall|c: int| from <= c < cubes.len() ==> in_piece(prefix, vars, pieces, upto, (#[trigger] cubes[c]).decisions@)
}

spec fn in_piece(prefix: Seq<(usize, bool)>, vars: Seq<usize>, pieces: Seq<Clause>, upto: int, dec: Seq<(usize, bool)>) -> bool {
    exists|q: int| 0 <= q < upto && extends(dec, child_dec(prefix, vars, #[trigger] pieces[q]))
}

/// The decisions of a child.
pub open spec fn child_dec(prefix: Seq<(usize, bool)>, vars: Seq<usize>, c: Clause) -> Seq<(usize, bool)> {
    prefix + clause_decisions(vars, c.mask, c.val, vars.len() as int)
}

/// The cubes of one more piece.
proof fn lemma_next_piece(prefix: Seq<(usize, bool)>, vars: Seq<usize>, pieces: Seq<Clause>, k: int, from: int, s1: Seq<Cube>, s2: Seq<Cube>)
    requires
        vars.len() <= 64,
        0 <= k < pieces.len(),
        0 <= from <= s1.len(),
        table::masks_below(pieces, vars.len() as int),
        dnf::pairwise_clash(pieces),
        continues(s1, s2),
        separate(prefix, from, s1),
        from_pieces(prefix, vars, pieces, k, from, s1),
        separate(child_dec(prefix, vars, pieces[k]), s1.len() as int, s2),
    ensures
        separate(prefix, from, s2),
        from_pieces(prefix, vars, pieces, k + 1, from, s2),
{
    let child = child_dec(prefix, vars, pieces[k]);
    assert forall|c: int| from <= c < s2.len() implies in_piece(prefix, vars, pieces, k + 1, (#[trigger] s2[c]).decisions@) && extends(s2[c].decisions@, prefix) by {
        if c < s1.len() {
            assert(s2[c] == s2.take(s1.len() as int)[c]);
            assert(in_piece(prefix, vars, pieces, k, s1[c].decisions@));
            let q = choose|q: int| 0 <= q < k && extends(s1[c].decisions@, child_dec(prefix, vars, #[trigger] pieces[q]));
            assert(extends(s2[c].decisions@, child_dec(prefix, vars, pieces[q])));
        } else {
            let dec = s2[c].decisions@;
            assert(extends(dec, child));
            assert(dec.take(prefix.len() as int) =~= child.take(prefix.len() as int));
            assert(child.take(prefix.len() as int) =~= prefix);
        }
    }
    assert forall|i: int, j: int| from <= i < j < s2.len() implies opposed((#[trigger] s2[i]).decisions@, (#[trigger] s2[j]).decisions@) by {
        if j < s1.len() {
            assert(s2[i] == s2.take(s1.len() as int)[i]);
            assert(s2[j] == s2.take(s1.len() as int)[j]);
            assert(opposed(s1[i].decisions@, s1[j].decisions@));
        } else if i < s1.len() {
            assert(s2[i] == s2.take(s1.len() as int)[i]);
            assert(in_piece(prefix, vars, pieces, k, s1[i].decisions@));
            let q = choose|q: int| 0 <= q < k && extends(s1[i].decisions@, child_dec(prefix, vars, #[trigger] pieces[q]));
            assert(dnf::clash(pieces[q], pieces[k]));
            assert(bits::below(pieces[q].mask, vars.len() as int));
            lemma_opposed(prefix, vars, pieces[q], pieces[k], s2[i].decisions@, s2[j].decisions@);
        }
    }
}

/// What is known of the cubes so far stays known as more come.
proof fn lemma_more_cubes(cn: ConstraintNetwork, d: Seq<DomainMask>, cutoff: CubeCutoff, from: int, s1: Seq<Cube>, s2: Seq<Cube>)
    requires
        0 <= from <= s1.len(),
        continues(s1, s2),
    ensures
        leaves_ok(cn, d, cutoff, from, s1) && leaves_ok(cn, d, cutoff, s1.len() as int, s2) ==> leaves_ok(cn, d, cutoff, from, s2),
        leaves_cut(cn, d, cutoff, from, s1) && leaves_cut(cn, d, cutoff, s1.len() as int, s2) ==> leaves_cut(cn, d, cutoff, from, s2),
        some_live(cn, d, from, s1) ==> some_live(cn, d, from, s2),
        some_live(cn, d, s1.len() as int, s2) ==> some_live(cn, d, from, s2),
{
    assert forall|k: int| 0 <= k < s1.len() implies s1[k] == #[trigger] s2[k] by {
        assert(s2[k] == s2.take(s1.len() as int)[k]);
    }
    if some_live(cn, d, from, s1) {
        let k = choose|k: int| from <= k < s1.len() && !(#[trigger] s1[k]).refuted && has_model(cn, d, s1[k].decisions@);
        assert(s2[k] == s1[k]);
    }
    if leaves_ok(cn, d, cutoff, from, s1) && leaves_ok(cn, d, cutoff, s1.len() as int, s2) {
        assert forall|k: int| from <= k < s2.len() implies leaf_ok(cn, d, cutoff, #[trigger] s2[k]) by {
            if k < s1.len() {
                assert(leaf_ok(cn, d, cutoff, s1[k]));
            }
        }
    }
    if leaves_cut(cn, d, cutoff, from, s1) && leaves_cut(cn, d, cutoff, s1.len() as int, s2) {
        assert forall|k: int| from <= k < s2.len() implies leaf_cut(cn, d, cutoff, #[trigger] s2[k]) by {
            if k < s1.len() {
                assert(leaf_cut(cn, d, cutoff, s1[k]));
            }
        }
    }
}

proof fn lemma_continues_trans<T>(a: Seq<T>, b: Seq<T>, c: Seq<T>)
    requires
        continues(a, b),
        continues(b, c),
    ensures
        continues(a, c),
{
    assert(c.take(a.len() as int) =~= b.take(a.len() as int)) by {
        assert forall|i: int| 0 <= i < a.len() implies c.take(a.len() as int)[i] == b.take(a.len() as int)[i] by {
            assert(c.take(b.len() as int)[i] == b[i]);
        }
    }
}

/// What a part of the generation leaves behind: cubes that extend its decisions, oppose each
/// other and say what is so; when it is complete and there is a model, some cube has one.
spec fn outcome(cn: ConstraintNetwork, d0: Seq<DomainMask>, cutoff: CubeCutoff, prefix: Seq<(usize, bool)>, live: bool, s0: Seq<Cube>, s1: Seq<Cube>, honest: bool, r: Flow) -> bool {
    &&& continues(s0, s1)
    &&& separate(prefix, s0.len() as int, s1)
    &&& leaves_cut(cn, d0, cutoff, s0.len() as int, s1)
    &&& honest ==> leaves_ok(cn, d0, cutoff, s0.len() as int, s1)
    &&& honest && r == Flow::Done && live ==> some_live(cn, d0, s0.len() as int, s1)
    &&& r == Flow::Done ==> s1.len() > s0.len()
}

/// The nodes that a part of the generation reports.
spec fn reported(w: Setting, traced: bool, from: int, n0: Seq<CubeNodeTrace>, n1: Seq<CubeNodeTrace>, next: u64, r: Flow) -> bool {
    &&& continues(n0, n1)
    &&& traced ==> tree_ok(w, n1, from)
    &&& r == Flow::Done ==> next_ok(n1, from, traced, next)
    &&& !traced ==> n1 == n0
}

proof fn lemma_leaf_outcome(cn: ConstraintNetwork, d0: Seq<DomainMask>, cutoff: CubeCutoff, dec: Seq<(usize, bool)>, live: bool, s0: Seq<Cube>, s1: Seq<Cube>, sigma_all: int, refuted: bool, sat: bool, honest: bool, ok: bool, e: Seq<DomainMask>)
    requires
        pushed(s0, s1, dec, sigma_all, refuted, sat) || (!ok && s1 == s0),
        0 <= sigma_all <= cn.n(),
        honest && refuted ==> !sat && !has_model(cn, d0, dec),
        honest && sat ==> has_model(cn, d0, dec),
        !refuted ==> stands(cn, d0, dec, sigma_all, e),
        !refuted ==> (sat <==> !cutoff.cuts(dec.len() as int, sigma_all, cn.n() - sigma_all)),
        sat ==> sigma_all == cn.n(),
        honest && live ==> !refuted && has_model(cn, d0, dec),
    ensures
        outcome(cn, d0, cutoff, dec, live, s0, s1, honest, if ok {
            Flow::Done
        } else {
            Flow::Refused
        }),
{
    assert(s0.take(s0.len() as int) =~= s0);
    assert(dec.take(dec.len() as int) =~= dec);
    if s1 != s0 {
        let c = s1[s0.len() as int];
        assert(c.decisions@ == dec);
        assert(leaf_cut(cn, d0, cutoff, c));
        if honest {
            assert(leaf_ok(cn, d0, cutoff, c));
        }
    }
}

/// Some cube from `from` on is a model.
pub open spec fn some_sat(from: int, cubes: Seq<Cube>) -> bool {
    exists|k: int| from <= k < cubes.len() && (#[trigger] cubes[k]).sat
}

/// What a policy makes of models: with `StopDecision` the first one is noted and no cube follows it.
pub open spec fn noted(policy: CncSatPolicy, found: bool, from: int, cubes: Seq<Cube>) -> bool {
    &&& found <==> policy == CncSatPolicy::StopDecision && some_sat(from, cubes)
    &&& policy == CncSatPolicy::StopDecision ==> forall|k: int| from <= k < cubes.len() - 1 ==> !(#[trigger] cubes[k]).sat
}

/// A cube more, where no model was found before.
proof fn lemma_noted_push(policy: CncSatPolicy, found: bool, from: int, s0: Seq<Cube>, s1: Seq<Cube>)
    requires
        0 <= from <= s0.len(),
        noted(policy, found, from, s0),
        policy == CncSatPolicy::StopDecision ==> !found,
        s1.len() == s0.len() + 1,
        continues(s0, s1),
    ensures
        noted(policy, policy == CncSatPolicy::StopDecision && s1[s0.len() as int].sat, from, s1),
{
    assert forall|k: int| 0 <= k < s0.len() implies s0[k] == #[trigger] s1[k] by {
        assert(s1[k] == s1.take(s0.len() as int)[k]);
    }
    if policy == CncSatPolicy::StopDecision {
        assert forall|k: int| from <= k < s1.len() - 1 implies !(#[trigger] s1[k]).sat by {
            if s0[k].sat {
                assert(some_sat(from, s0));
            }
        }
    }
}

/// The step of a node without a rule.
pub open spec fn plain_step(kind: CubeNodeKind, reason: Option<CubeRefutationReason>, dec: Seq<(usize, bool)>, doms: Seq<DomainMask>, sigma_all: int) -> Step {
    Step { kind, reason, decisions: dec, doms, sigma_all, variables: Seq::empty(), rule: Seq::empty(), parts: Seq::empty() }
}

/// The node reports the step.
proof fn lemma_shows(n: CubeNodeTrace, x: Step)
    requires
        n.kind == x.kind,
        n.refutation_reason == x.reason,
        n.decisions@ == x.decisions,
        n.sigma_all == x.sigma_all,
        n.variables@ =~= x.variables,
        n.optimized_clauses@.len() == x.rule.len() == 0,
        n.clauses@.len() == x.parts.len() == 0,
    ensures
        cubetree::shows(n, x),
{
    assert(bare(n.optimized_clauses@) =~= x.rule);
    assert(bare_parts(n.clauses@, n.partition_sources@) =~= x.parts);
}

/// The cutoff applies at domains reached by decisions.
pub open spec fn cut_here(cn: ConstraintNetwork, cutoff: CubeCutoff, d: Seq<DomainMask>, dec: Seq<(usize, bool)>) -> bool {
    cutoff.cuts(dec.len() as int, cn.n() - util::unfixed(d, cn.n()), util::unfixed(d, cn.n()) as int)
}

/// Where a node with these decisions hangs: at the root, or below the branch node at `at`.
spec fn hung(nodes: Seq<CubeNodeTrace>, from: int, at: int, parent_id: Option<u64>, child_index: Option<usize>, depth: int, dec: Seq<(usize, bool)>) -> bool {
    match parent_id {
        None => depth == 0 && child_index is None && dec.len() == 0 && nodes.len() == from,
        Some(p) => {
            &&& from <= at < nodes.len()
            &&& nodes[at].node_id == p
            &&& nodes[at].kind == CubeNodeKind::Branch
            &&& depth == nodes[at].depth + 1
            &&& child_index is Some
            &&& child_index->0 < nodes[at].clauses@.len()
            &&& dec == child_dec(nodes[at].decisions@, nodes[at].variables@, bare(nodes[at].clauses@)[child_index->0 as int])
        },
    }
}

/// Generate the cubes below a node.
#[verifier::rlimit(60)]
fn cube_rec<S: RuleSolver, C: Companion, K: CubeSink>(
    ctx: &CubeCtx<S>,
    companion: &mut C,
    stats: &mut Stats,
    cube_stats: &mut CubeStats,
    buffer: &mut SolverBuffer,
    doms: &mut Vec<DomainMask>,
    tables: &mut Vec<RSparseBitSet>,
    log: &mut Trail,
    decisions: &mut Vec<(usize, bool)>,
    sink: &mut K,
    next_id: &mut u64,
    parent_id: Option<u64>,
    child_index: Option<usize>,
    depth: usize,
    found: &mut bool,
    honest: &mut Ghost<bool>,
    tree: &mut Ghost<Tree>,
    Ghost(d0): Ghost<Seq<DomainMask>>,
    Ghost(from): Ghost<int>,
    Ghost(nodes_from): Ghost<int>,
    Ghost(at): Ghost<int>,
    Ghost(asked_from): Ghost<int>,
) -> (r: Flow)
    requires
        ctx.search.ok(),
        0 <= asked_from <= old(companion).asked().len(),
        solver::at_rest(ctx.net(), (old(doms)@, trail::frozen(old(tables)@)), *old(buffer), *old(log)),
        d0.len() == ctx.net().n(),
        reached(ctx.net(), d0, old(decisions)@, old(doms)@),
        old(decisions)@.len() > 0 ==> problem::reduced(ctx.net(), old(doms)@),
        old(honest)@ ==> carries_dec(ctx.net(), d0, old(decisions)@, old(doms)@),
        0 <= from <= old(sink).seen().len(),
        counted(*old(cube_stats), old(sink).seen(), from),
        noted(ctx.sat_policy, *old(found), from, old(sink).seen()),
        ctx.traced ==> 0 <= nodes_from <= old(sink).nodes().len() && tree_ok(ctx.setting(d0), old(sink).nodes(), nodes_from),
        next_ok(old(sink).nodes(), nodes_from, ctx.traced, *old(next_id)),
        ctx.traced ==> hung(old(sink).nodes(), nodes_from, at, parent_id, child_index, depth as int, old(decisions)@),
        told_of(old(companion).silent(), old(companion).asked(), asked_from, old(decisions)@, false, ctx.net().n() - util::unfixed(old(doms)@, ctx.net().n())),
        depth + ct::both_count(old(doms)@, old(doms)@.len() as int) <= old(doms)@.len(),
    ensures
        (final(doms)@, trail::frozen(final(tables)@)) == (old(doms)@, trail::frozen(old(tables)@)),
        ct::logged(*final(log), (final(doms)@, trail::frozen(final(tables)@)), *old(log), (old(doms)@, trail::frozen(old(tables)@))),
        final(buffer).clean(ctx.net()),
        final(decisions)@ == old(decisions)@,
        outcome(ctx.net(), d0, ctx.cutoff, old(decisions)@, models::satisfiable(ctx.net(), old(doms)@), old(sink).seen(), final(sink).seen(), final(honest)@, r),
        reported(ctx.setting(d0), ctx.traced, nodes_from, old(sink).nodes(), final(sink).nodes(), *final(next_id), r),
        counted(*final(cube_stats), final(sink).seen(), from),
        kept_up(ctx.net(), old(companion).asked(), final(companion).asked(), old(honest)@, final(honest)@),
        final(companion).silent() == old(companion).silent(),
        told_all(old(companion).silent(), final(companion).asked(), asked_from, final(sink).seen(), old(sink).seen().len() as int),
        r == Flow::Stopped ==> ctx.sat_policy == CncSatPolicy::StopDecision && (*final(found) || ctx.termination is Some),
        ctx.sat_policy == CncSatPolicy::StopDecision && *old(found) ==> r == Flow::Stopped && final(sink).seen() == old(sink).seen(),
        r != Flow::Refused ==> noted(ctx.sat_policy, *final(found), from, final(sink).seen()),
        cubetree::borne(ctx.setting(d0), *ctx.search.solver, old(companion).silent(), ctx.traced, old(sink).seen(), final(sink).seen(), old(sink).nodes(), final(sink).nodes(), final(tree)@, r == Flow::Done),
        final(tree)@.root() matches Some(x) ==> x.decisions == old(decisions)@ && x.doms == old(doms)@ && !cubetree::fell(x),
        old(sink).accepts_all() ==> r != Flow::Refused && final(sink).accepts_all(),
        final(sink).refused() == (old(sink).refused() || r == Flow::Refused),
        cut_here(ctx.net(), ctx.cutoff, old(doms)@, old(decisions)@) && r == Flow::Done ==> pushed(old(sink).seen(), final(sink).seen(), old(decisions)@, ctx.net().n() - util::unfixed(old(doms)@, ctx.net().n()), false, false),
        cut_here(ctx.net(), ctx.cutoff, old(doms)@, old(decisions)@) && r == Flow::Stopped ==> final(sink).seen() == old(sink).seen(),
    decreases ct::both_count(old(doms)@, old(doms)@.len() as int), 1int,
{
    let ghost net = ctx.net();
    let ghost d = doms@;
    let ghost s: State = (doms@, trail::frozen(tables@));
    let ghost l0 = *log;
    let ghost prefix = decisions@;
    let ghost seen0 = sink.seen();
    let ghost n0 = sink.nodes();
    let ghost w = ctx.setting(d0);
    let ghost silent = companion.silent();
    proof {
        solver::lemma_logged_self(l0, s);
        lemma_kept_same(net, companion.asked(), honest@);
        lemma_told_none(companion.silent(), companion.asked(), asked_from, seen0);
        assert(seen0.take(seen0.len() as int) =~= seen0);
        assert(n0.take(n0.len() as int) =~= n0);
        lemma_unfixed_bound(d, d.len() as int);
        if models::satisfiable(net, d) {
            lemma_node_model(net, d0, prefix, d);
        } else if honest@ {
            lemma_no_model(net, d0, prefix, d);
        }
        *tree.borrow_mut() = Tree::Unseen;
        cubetree::lemma_unseen(w, *ctx.search.solver, silent, ctx.traced, seen0, n0);
    }
    if ctx.should_stop_for_sat(*found) {
        return Flow::Stopped;
    }
    let ghost found0 = *found;
    let node_id: u64 = *next_id;
    *next_id = bump(node_id);
    let sigma_dec: usize = decisions.len();
    let freevars: usize = util::count_unfixed(doms.as_slice());
    let sigma_all: usize = doms.len() - freevars;
    if ctx.cutoff.stops(sigma_dec, sigma_all, freevars) {
        let node = plain_node(node_id, parent_id, child_index, depth, CubeNodeKind::Cutoff, None, decisions, sigma_all, freevars);
        proof {
            assert(stands(net, d0, prefix, sigma_all as int, d));
            lemma_plain_node(w, d, node);
        }
        let ghost node0 = node;
        let ok = leaf(ctx.traced, cube_stats, sink, node, Ghost(w), Ghost(from), Ghost(nodes_from), Ghost(at));
        proof {
            let x = plain_step(CubeNodeKind::Cutoff, None, prefix, d, sigma_all as int);
            assert(cubetree::decided(w, *ctx.search.solver, x)) by {
                reveal(cubetree::decided);
            }
            lemma_shows(node0, x);
            let t = cubetree::lemma_leaf_tree(w, *ctx.search.solver, silent, ctx.traced, seen0, sink.seen(), n0, sink.nodes(), x, ok);
            *tree.borrow_mut() = t;
            if sink.seen() != seen0 {
                lemma_noted_push(ctx.sat_policy, found0, from, seen0, sink.seen());
            }
            lemma_leaf_outcome(net, d0, ctx.cutoff, prefix, models::satisfiable(net, d), seen0, sink.seen(), sigma_all as int, false, false, honest@, ok, d);
            lemma_told_one(companion.silent(), companion.asked(), asked_from, seen0, sink.seen(), prefix, false, sigma_all as int);
        }
        return if ok {
            Flow::Done
        } else {
            Flow::Refused
        };
    }
    let scope = solver::open_ids(doms.as_slice());
    if scope.len() == 0 {
        stats.record_visit();
        let node = plain_node(node_id, parent_id, child_index, depth, CubeNodeKind::Sat, None, decisions, sigma_all, freevars);
        match ctx.sat_policy {
            CncSatPolicy::StopDecision => {
                *found = true;
                if let Some(signal) = &ctx.termination {
                    signal.request();
                }
            },
            CncSatPolicy::CompleteFrontier => {},
        }
        proof {
            lemma_none_open(d, d.len() as int, scope@);
            assert(stands(net, d0, prefix, sigma_all as int, d));
            lemma_plain_node(w, d, node);
        }
        let ghost node0 = node;
        let ok = leaf(ctx.traced, cube_stats, sink, node, Ghost(w), Ghost(from), Ghost(nodes_from), Ghost(at));
        proof {
            let x = plain_step(CubeNodeKind::Sat, None, prefix, d, sigma_all as int);
            assert(cubetree::decided(w, *ctx.search.solver, x)) by {
                reveal(cubetree::decided);
            }
            lemma_shows(node0, x);
            let t = cubetree::lemma_leaf_tree(w, *ctx.search.solver, silent, ctx.traced, seen0, sink.seen(), n0, sink.nodes(), x, ok);
            *tree.borrow_mut() = t;
            if sink.seen() != seen0 {
                lemma_noted_push(ctx.sat_policy, found0, from, seen0, sink.seen());
            }
            assert(models::all_fixed(d)) by {
                assert forall|v: int| 0 <= v < d.len() implies (#[trigger] d[v]).fixed() by {
                    if !d[v].fixed() {
                        assert(net.vars.len() == net.n());
                        assert(scope@.contains(v as usize));
                    }
                }
            }
            models::lemma_fixed_closed_is_model(net, d);
            assert(models::satisfiable(net, d));
            lemma_leaf_outcome(net, d0, ctx.cutoff, prefix, models::satisfiable(net, d), seen0, sink.seen(), sigma_all as int, false, true, honest@, ok, d);
            lemma_told_one(companion.silent(), companion.asked(), asked_from, seen0, sink.seen(), prefix, false, sigma_all as int);
        }
        return if ok {
            Flow::Done
        } else {
            Flow::Refused
        };
    }
    proof {
        assert(scope@.contains(scope@[0]));
        assert(network::distinct(scope@));
    }
    let rule = ctx.search.selector.findbest(ctx.search.cn, doms, buffer, ctx.search.measure, ctx.search.solver, ctx.search.masks, tables, log, scope.as_slice(), ctx.traced);
    proof {
        selector::law_selection_is_complete(ctx.search.selector, net, d, scope@, rule);
        assert(stands(net, d0, prefix, sigma_all as int, d));
    }
    let ghost chosen = rule;
    if ctx.should_stop_for_sat(*found) {
        return Flow::Stopped;
    }
    proof {
        lemma_some_unfixed(d, d.len() as int, scope@[0] as int);
    }
    let ghost vars = rule.variables@;
    match rule.clauses {
        None => {
            let mut node = plain_node(node_id, parent_id, child_index, depth, CubeNodeKind::Refuted, Some(CubeRefutationReason::SelectorNoFeasibleConfig), decisions, sigma_all, freevars);
            node.rule_diagnostics = rule.diagnostics;
            node.variables = rule.variables;
            proof {
                if ctx.traced {
                    lemma_barren_node(w, d, scope@, chosen, node);
                }
            }
            let ghost node0 = node;
            let ok = leaf(ctx.traced, cube_stats, sink, node, Ghost(w), Ghost(from), Ghost(nodes_from), Ghost(at));
            proof {
                let x = Step { variables: vars, ..plain_step(CubeNodeKind::Refuted, Some(CubeRefutationReason::SelectorNoFeasibleConfig), prefix, d, sigma_all as int) };
                assert(cubetree::decided(w, *ctx.search.solver, x)) by {
                    reveal(cubetree::decided);
                    cubetree::lemma_ruled(w, *ctx.search.solver, x, scope@, chosen);
                }
                lemma_shows(node0, x);
                let t = cubetree::lemma_leaf_tree(w, *ctx.search.solver, silent, ctx.traced, seen0, sink.seen(), n0, sink.nodes(), x, ok);
                *tree.borrow_mut() = t;
                if sink.seen() != seen0 {
                    lemma_noted_push(ctx.sat_policy, found0, from, seen0, sink.seen());
                }
                lemma_leaf_outcome(net, d0, ctx.cutoff, prefix, models::satisfiable(net, d), seen0, sink.seen(), sigma_all as int, true, false, honest@, ok, d);
                lemma_told_one(companion.silent(), companion.asked(), asked_from, seen0, sink.seen(), prefix, false, sigma_all as int);
            }
            if ok {
                Flow::Done
            } else {
                Flow::Refused
            }
        },
        Some(clauses) => {
            let parts = dnf::disjointize_clauses_with_sources(clauses.as_slice());
            let ghost pieces = dnf::pieces_of(parts@);
            proof {
                lemma_pieces(clauses@, parts@, vars.len() as int);
                if models::satisfiable(net, d) {
                    lemma_some_piece(net, d, vars, clauses@, parts@);
                }
            }
            let variables = rule.variables;
            let ghost x = Step { kind: CubeNodeKind::Branch, reason: None, decisions: prefix, doms: d, sigma_all: sigma_all as int, variables: vars, rule: clauses@, parts: parts@ };
            proof {
                assert(cubetree::decided(w, *ctx.search.solver, x)) by {
                    reveal(cubetree::decided);
                    cubetree::lemma_ruled(w, *ctx.search.solver, x, scope@, chosen);
                }
                *tree.borrow_mut() = Tree::Branch(x, Seq::empty());
            }
            if ctx.traced {
                let mut node = plain_node(node_id, parent_id, child_index, depth, CubeNodeKind::Branch, None, decisions, sigma_all, freevars);
                node.rule_diagnostics = rule.diagnostics;
                node.variables = copy_ids(&variables);
                node.optimized_clauses = trace_clauses(&clauses);
                let (disjoint, sources) = trace_parts(&parts);
                node.clauses = disjoint;
                node.partition_sources = sources;
                proof {
                    let n1 = n0.push(node);
                    assert(bare(node.optimized_clauses@) =~= clauses@);
                    assert(bare_parts(node.clauses@, node.partition_sources@) =~= parts@);
                    lemma_branch_node(w, d, scope@, chosen, parts@, node);
                    lemma_tree_push(w, n0, nodes_from, at, node);
                    assert(n1.take(n0.len() as int) =~= n0);
                    cubetree::lemma_below_none(w, *ctx.search.solver, silent, true, x, seen0, n1);
                    cubetree::lemma_branch_tree(w, *ctx.search.solver, silent, true, x, Seq::empty(), seen0, seen0, n0, n1, n1, false);
                }
                if !sink.trace(node) {
                    return Flow::Refused;
                }
            }
            let ghost n1 = sink.nodes();
            let ghost mut kids: Seq<Tree> = Seq::empty();
            proof {
                cubetree::lemma_below_none(w, *ctx.search.solver, silent, ctx.traced, x, seen0, n1);
            }
            assert(n1.take(n1.len() as int) =~= n1);
            let mut k: usize = 0;
            while k < parts.len()
                invariant
                    ctx.search.ok(),
                    net == ctx.net(),
                    d == s.0,
                    s == (doms@, trail::frozen(tables@)),
                    s == (old(doms)@, trail::frozen(old(tables)@)),
                    l0 == *old(log),
                    prefix == old(decisions)@,
                    seen0 == old(sink).seen(),
                    n0 == old(sink).nodes(),
                    w == ctx.setting(d0),
                    !cut_here(net, ctx.cutoff, d, prefix),
                    sink.refused() == old(sink).refused(),
                    silent == old(companion).silent(),
                    noted(ctx.sat_policy, *found, from, sink.seen()),
                    ctx.sat_policy == CncSatPolicy::StopDecision ==> !*old(found),
                    kids.len() == k,
                    cubetree::below_branch(w, *ctx.search.solver, silent, ctx.traced, x, kids, seen0, sink.seen(), n1, sink.nodes(), true),
                    cubetree::decided(w, *ctx.search.solver, x),
                    x.kind == CubeNodeKind::Branch,
                    x.reason is None,
                    x.decisions == prefix,
                    x.doms == d,
                    x.variables == vars,
                    x.parts == parts@,
                    ctx.traced ==> n1.len() == n0.len() + 1 && n1.take(n0.len() as int) == n0 && cubetree::shows(n1[n0.len() as int], x),
                    leaves_cut(net, d0, ctx.cutoff, seen0.len() as int, sink.seen()),
                    solver::at_rest(net, s, *buffer, *log),
                    ct::logged(*log, s, l0, s),
                    decisions@ == prefix,
                    d0.len() == net.n(),
                    reached(net, d0, prefix, d),
                    honest@ ==> carries_dec(net, d0, prefix, d),
                    0 <= from <= seen0.len(),
                    counted(*cube_stats, sink.seen(), from),
                    old(sink).accepts_all() ==> sink.accepts_all(),
                    vars == variables@,
                    vars.len() <= 64,
                    network::distinct(vars),
                    forall|i: int| 0 <= i < vars.len() ==> (#[trigger] vars[i]) < net.n() && !d[vars[i] as int].fixed(),
                    pieces == dnf::pieces_of(parts@),
                    dnf::pairwise_clash(pieces),
                    table::each_sets(pieces, vars.len() as int),
                    table::masks_below(pieces, vars.len() as int),
                    k <= parts@.len(),
                    continues(seen0, sink.seen()),
                    separate(prefix, seen0.len() as int, sink.seen()),
                    from_pieces(prefix, vars, pieces, k as int, seen0.len() as int, sink.seen()),
                    honest@ ==> leaves_ok(net, d0, ctx.cutoff, seen0.len() as int, sink.seen()),
                    honest@ ==> forall|q: int| 0 <= q < k && models::satisfiable(net, ct::assigned(d, vars, (#[trigger] pieces[q]).mask, pieces[q].val, vars.len() as int)) ==> some_live(net, d0, seen0.len() as int, sink.seen()),
                    k > 0 ==> sink.seen().len() > seen0.len(),
                    kept_up(net, old(companion).asked(), companion.asked(), old(honest)@, honest@),
                    0 <= asked_from <= old(companion).asked().len(),
                    companion.silent() == old(companion).silent(),
                    told_all(old(companion).silent(), companion.asked(), asked_from, sink.seen(), seen0.len() as int),
                    continues(n0, sink.nodes()),
                    continues(n1, sink.nodes()),
                    ctx.traced ==> 0 <= nodes_from <= n0.len() && n1.len() == n0.len() + 1 && tree_ok(w, sink.nodes(), nodes_from) && n1[n0.len() as int].node_id == node_id && n1[n0.len() as int].kind == CubeNodeKind::Branch && n1[n0.len() as int].depth == depth && n1[n0.len() as int].clauses@.len() == parts@.len() && n1[n0.len() as int].decisions@ == prefix && n1[n0.len() as int].variables@ == vars && bare(n1[n0.len() as int].clauses@) == pieces,
                    next_ok(sink.nodes(), nodes_from, ctx.traced, *next_id),
                    !ctx.traced ==> sink.nodes() == n0,
                    depth + ct::both_count(d, d.len() as int) <= d.len(),
                decreases parts.len() - k,
            {
                if ctx.should_stop_for_sat(*found) {
                    proof {
                        *tree.borrow_mut() = Tree::Branch(x, kids);
                        cubetree::lemma_branch_tree(w, *ctx.search.solver, silent, ctx.traced, x, kids, seen0, sink.seen(), n0, n1, sink.nodes(), false);
                    }
                    return Flow::Stopped;
                }
                let part = parts[k].0;
                let ghost s1 = sink.seen();
                let ghost h1 = honest@;
                let ghost m1 = sink.nodes();
                let ghost q1 = companion.asked();
                proof {
                    assert(part == pieces[k as int]);
                    assert(table::sets_some(pieces[k as int], vars.len() as int));
                    if ctx.traced {
                        assert(m1[n0.len() as int] == m1.take(n1.len() as int)[n0.len() as int]);
                    }
                }
                let flow = cube_child(ctx, companion, stats, cube_stats, buffer, doms, tables, log, decisions, sink, next_id, node_id, k, depth, &variables, part, found, honest, tree, Ghost(x), Ghost(d0), Ghost(from), Ghost(nodes_from), Ghost(n0.len() as int), Ghost(asked_from));
                proof {
                    lemma_kept_up(net, old(companion).asked(), q1, companion.asked(), old(honest)@, h1, honest@);
                    lemma_next_piece(prefix, vars, pieces, k as int, seen0.len() as int, s1, sink.seen());
                    lemma_more_cubes(net, d0, ctx.cutoff, seen0.len() as int, s1, sink.seen());
                    lemma_continues_trans(seen0, s1, sink.seen());
                    lemma_continues_trans(n0, m1, sink.nodes());
                    lemma_continues_trans(n1, m1, sink.nodes());
                    lemma_told_join(old(companion).silent(), q1, companion.asked(), asked_from, s1, sink.seen(), seen0.len() as int);
                }
                proof {
                    cubetree::lemma_below_more(w, *ctx.search.solver, silent, ctx.traced, x, kids, tree@, seen0, s1, sink.seen(), n1, m1, sink.nodes(), flow == Flow::Done);
                    kids = kids.push(tree@);
                }
                match flow {
                    Flow::Done => {},
                    _ => {
                        proof {
                            *tree.borrow_mut() = Tree::Branch(x, kids);
                            cubetree::lemma_branch_tree(w, *ctx.search.solver, silent, ctx.traced, x, kids, seen0, sink.seen(), n0, n1, sink.nodes(), false);
                        }
                        return flow;
                    },
                }
                k += 1;
            }
            proof {
                *tree.borrow_mut() = Tree::Branch(x, kids);
                cubetree::lemma_branch_tree(w, *ctx.search.solver, silent, ctx.traced, x, kids, seen0, sink.seen(), n0, n1, sink.nodes(), true);
                if honest@ && models::satisfiable(net, d) {
                    let q = choose|q: int| 0 <= q < pieces.len() && models::satisfiable(net, ct::assigned(d, vars, (#[trigger] pieces[q]).mask, pieces[q].val, vars.len() as int));
                    assert(0 <= q < k);
                    assert(some_live(net, d0, seen0.len() as int, sink.seen()));
                }
            }
            Flow::Done
        },
    }
}

/// Generate the cubes of one branch of a node.
#[verifier::rlimit(60)]
fn cube_child<S: RuleSolver, C: Companion, K: CubeSink>(
    ctx: &CubeCtx<S>,
    companion: &mut C,
    stats: &mut Stats,
    cube_stats: &mut CubeStats,
    buffer: &mut SolverBuffer,
    doms: &mut Vec<DomainMask>,
    tables: &mut Vec<RSparseBitSet>,
    log: &mut Trail,
    decisions: &mut Vec<(usize, bool)>,
    sink: &mut K,
    next_id: &mut u64,
    node_id: u64,
    branch_index: usize,
    depth: usize,
    variables: &Vec<usize>,
    part: Clause,
    found: &mut bool,
    honest: &mut Ghost<bool>,
    tree: &mut Ghost<Tree>,
    Ghost(parent): Ghost<Step>,
    Ghost(d0): Ghost<Seq<DomainMask>>,
    Ghost(from): Ghost<int>,
    Ghost(nodes_from): Ghost<int>,
    Ghost(at): Ghost<int>,
    Ghost(asked_from): Ghost<int>,
) -> (r: Flow)
    requires
        ctx.search.ok(),
        0 <= asked_from <= old(companion).asked().len(),
        solver::at_rest(ctx.net(), (old(doms)@, trail::frozen(old(tables)@)), *old(buffer), *old(log)),
        d0.len() == ctx.net().n(),
        reached(ctx.net(), d0, old(decisions)@, old(doms)@),
        old(honest)@ ==> carries_dec(ctx.net(), d0, old(decisions)@, old(doms)@),
        0 <= from <= old(sink).seen().len(),
        counted(*old(cube_stats), old(sink).seen(), from),
        noted(ctx.sat_policy, *old(found), from, old(sink).seen()),
        parent.decisions == old(decisions)@,
        parent.doms == old(doms)@,
        parent.variables == variables@,
        branch_index < parent.parts.len(),
        parent.parts[branch_index as int].0 == part,
        ctx.traced ==> 0 <= nodes_from <= at < old(sink).nodes().len() && tree_ok(ctx.setting(d0), old(sink).nodes(), nodes_from) && old(sink).nodes()[at].node_id == node_id && old(sink).nodes()[at].kind == CubeNodeKind::Branch && old(sink).nodes()[at].depth == depth && branch_index < old(sink).nodes()[at].clauses@.len() && old(sink).nodes()[at].decisions@ == old(decisions)@ && old(sink).nodes()[at].variables@ == variables@ && bare(old(sink).nodes()[at].clauses@)[branch_index as int] == part,
        next_ok(old(sink).nodes(), nodes_from, ctx.traced, *old(next_id)),
        depth + ct::both_count(old(doms)@, old(doms)@.len() as int) <= old(doms)@.len(),
        variables@.len() <= 64,
        network::distinct(variables@),
        forall|i: int| 0 <= i < variables@.len() ==> (#[trigger] variables@[i]) < ctx.net().n() && !old(doms)@[variables@[i] as int].fixed(),
        table::sets_some(part, variables@.len() as int),
    ensures
        (final(doms)@, trail::frozen(final(tables)@)) == (old(doms)@, trail::frozen(old(tables)@)),
        ct::logged(*final(log), (final(doms)@, trail::frozen(final(tables)@)), *old(log), (old(doms)@, trail::frozen(old(tables)@))),
        final(buffer).clean(ctx.net()),
        final(decisions)@ == old(decisions)@,
        outcome(ctx.net(), d0, ctx.cutoff, child_dec(old(decisions)@, variables@, part), models::satisfiable(ctx.net(), ct::assigned(old(doms)@, variables@, part.mask, part.val, variables@.len() as int)), old(sink).seen(), final(sink).seen(), final(honest)@, r),
        reported(ctx.setting(d0), ctx.traced, nodes_from, old(sink).nodes(), final(sink).nodes(), *final(next_id), r),
        counted(*final(cube_stats), final(sink).seen(), from),
        kept_up(ctx.net(), old(companion).asked(), final(companion).asked(), old(honest)@, final(honest)@),
        final(companion).silent() == old(companion).silent(),
        told_all(old(companion).silent(), final(companion).asked(), asked_from, final(sink).seen(), old(sink).seen().len() as int),
        r == Flow::Stopped ==> ctx.sat_policy == CncSatPolicy::StopDecision && (*final(found) || ctx.termination is Some),
        ctx.sat_policy == CncSatPolicy::StopDecision && *old(found) ==> r == Flow::Stopped && final(sink).seen() == old(sink).seen(),
        r != Flow::Refused ==> noted(ctx.sat_policy, *final(found), from, final(sink).seen()),
        cubetree::borne(ctx.setting(d0), *ctx.search.solver, old(companion).silent(), ctx.traced, old(sink).seen(), final(sink).seen(), old(sink).nodes(), final(sink).nodes(), final(tree)@, r == Flow::Done),
        cubetree::hangs_below(ctx.setting(d0), old(companion).silent(), parent, branch_index as int, final(tree)@),
        old(sink).accepts_all() ==> r != Flow::Refused && final(sink).accepts_all(),
        final(sink).refused() == (old(sink).refused() || r == Flow::Refused),
    decreases ct::both_count(old(doms)@, old(doms)@.len() as int), 0int,
{
    let ghost net = ctx.net();
    let ghost d = doms@;
    let ghost s: State = (doms@, trail::frozen(tables@));
    let ghost l0 = *log;
    let ghost prefix = decisions@;
    let ghost vars = variables@;
    let ghost child = child_dec(prefix, vars, part);
    let ghost a = ct::assigned(d, vars, part.mask, part.val, vars.len() as int);
    let ghost seen0 = sink.seen();
    let ghost n0 = sink.nodes();
    let ghost w = ctx.setting(d0);
    let ghost silent = companion.silent();
    let ghost found0 = *found;
    let ghost q0 = companion.asked();
    let ghost h0 = honest@;
    let base: usize = decisions.len();
    stats.record_visit();
    log.open();
    let ghost l1 = *log;
    let mark: usize = log.mark();
    proof {
        solver::lemma_logged_self(l0, s);
        solver::lemma_same_log(l1, l0, s);
        assert(seen0.take(seen0.len() as int) =~= seen0);
        assert(n0.take(n0.len() as int) =~= n0);
        assert(child.take(prefix.len() as int) =~= prefix);
        assert(propagate::all_live(d));
        let i = choose|i: int| 0 <= i < vars.len() && #[trigger] bits::bit(part.mask, i);
        assert(!d[vars[i] as int].fixed() && d[vars[i] as int].live());
        lemma_both_positive(d, d.len() as int, vars[i] as int);
        assert(doms.len() == d.len());
    }
    push_decisions(decisions, variables.as_slice(), part.mask, part.val);
    let end = take_branch(ctx, companion, buffer, doms, tables, log, decisions, variables.as_slice(), part.mask, part.val, *found, honest);
    let ghost e = doms@;
    let ghost s1: State = (doms@, trail::frozen(tables@));
    let ghost l2 = *log;
    let ghost q1 = companion.asked();
    let ghost h1 = honest@;
    proof {
        assert(decisions@ == child);
        assert(q1.take(q1.len() as int) =~= q1);
        if end != End::Stopped {
            lemma_told_later(companion.silent(), q1, q1, q0.len() as int, asked_from, child, end != End::Open, net.n() - util::unfixed(e, net.n()));
        }
        lemma_told_none(companion.silent(), q1, asked_from, seen0);
        *tree.borrow_mut() = Tree::Unseen;
        cubetree::lemma_unseen(w, *ctx.search.solver, silent, ctx.traced, seen0, n0);
        if honest@ {
            lemma_child_carries(net, d0, prefix, d, vars, part.mask, part.val);
        }
    }
    let flow = match end {
        End::Stopped => Flow::Stopped,
        End::Open => {
            proof {
                assert(propagate::all_live(d) && propagate::all_live(e));
                solver::lemma_assigned_less(d, e, vars, part.mask, part.val);
                lemma_child(net, d0, prefix, d, vars, part.mask, part.val, e);
                if honest@ {
                    lemma_dec_trans(net, d0, child, a, e);
                    if models::satisfiable(net, a) {
                        models::lemma_carries_satisfiable(net, a, e);
                    }
                }
            }
            cube_rec(ctx, companion, stats, cube_stats, buffer, doms, tables, log, decisions, sink, next_id, Some(node_id), Some(branch_index), depth + 1, found, honest, tree, Ghost(d0), Ghost(from), Ghost(nodes_from), Ghost(at), Ghost(asked_from))
        },
        _ => {
            let free: usize = util::count_unfixed(doms.as_slice());
            proof {
                lemma_unfixed_bound(e, e.len() as int);
            }
            let sigma_all: usize = doms.len() - free;
            let child_id: u64 = *next_id;
            *next_id = bump(child_id);
            let reason = match end {
                End::RefutedByCompanion => CubeRefutationReason::CdclPropagationConflict,
                _ => CubeRefutationReason::BranchPropagation,
            };
            let child_depth: usize = depth + 1;
            let node = plain_node(child_id, Some(node_id), Some(branch_index), child_depth, CubeNodeKind::Refuted, Some(reason), decisions, sigma_all, free);
            proof {
                lemma_plain_node(w, e, node);
            }
            let ghost node0 = node;
            let ok = leaf(ctx.traced, cube_stats, sink, node, Ghost(w), Ghost(from), Ghost(nodes_from), Ghost(at));
            proof {
                let x = plain_step(CubeNodeKind::Refuted, Some(reason), child, e, sigma_all as int);
                assert(cubetree::decided(w, *ctx.search.solver, x)) by {
                    reveal(cubetree::decided);
                }
                lemma_shows(node0, x);
                let t = cubetree::lemma_leaf_tree(w, *ctx.search.solver, silent, ctx.traced, seen0, sink.seen(), n0, sink.nodes(), x, ok);
                *tree.borrow_mut() = t;
                if sink.seen() != seen0 {
                    lemma_noted_push(ctx.sat_policy, found0, from, seen0, sink.seen());
                }
                if honest@ {
                    lemma_no_model(net, d0, child, a);
                }
                lemma_leaf_outcome(net, d0, ctx.cutoff, child, models::satisfiable(net, a), seen0, sink.seen(), sigma_all as int, true, false, honest@, ok, e);
                lemma_told_one(companion.silent(), companion.asked(), asked_from, seen0, sink.seen(), child, true, sigma_all as int);
            }
            if ok {
                Flow::Done
            } else {
                Flow::Refused
            }
        },
    };
    decisions.truncate(base);
    let ghost l3 = *log;
    let ghost s3: State = (doms@, trail::frozen(tables@));
    proof {
        if end == End::Open {
            ct::lemma_logged_trans(l3, s3, l2, s1, l1, s);
            lemma_kept_up(net, q0, q1, companion.asked(), h0, h1, honest@);
        }
        assert(decisions@ =~= prefix);
    }
    log.restore_to(mark, doms, tables);
    proof {
        propagate::lemma_restored(l1, s, l3, s3, *log, (doms@, trail::frozen(tables@)), mark as int);
        ct::lemma_logged_trans(*log, s, l1, s, l0, s);
    }
    flow
}

/// A copy of ids.
fn copy_ids(ids: &Vec<usize>) -> (r: Vec<usize>)
    ensures
        r@ == ids@,
{
    let mut out: Vec<usize> = Vec::new();
    let mut i: usize = 0;
    while i < ids.len()
        invariant
            i <= ids@.len(),
            out@ == ids@.take(i as int),
        decreases ids.len() - i,
    {
        out.push(ids[i]);
        assert(ids@.take(i + 1) =~= ids@.take(i as int).push(ids@[i as int]));
        i += 1;
    }
    assert(ids@.take(ids@.len() as int) =~= ids@);
    out
}

/// The pieces of a cover as they are reported, and where they come from.
fn trace_parts(parts: &Vec<(Clause, usize)>) -> (r: (Vec<TraceClause>, Vec<usize>))
    ensures
        r.0@.len() == parts@.len(),
        r.1@.len() == parts@.len(),
        forall|k: int| 0 <= k < parts@.len() ==> (#[trigger] r.0@[k]).mask == parts@[k].0.mask && r.0@[k].value == parts@[k].0.val,
        forall|k: int| 0 <= k < parts@.len() ==> #[trigger] r.1@[k] == parts@[k].1,
{
    let mut out: Vec<TraceClause> = Vec::new();
    let mut sources: Vec<usize> = Vec::new();
    let mut i: usize = 0;
    while i < parts.len()
        invariant
            i <= parts@.len(),
            out@.len() == i,
            sources@.len() == i,
            forall|k: int| 0 <= k < i ==> (#[trigger] out@[k]).mask == parts@[k].0.mask && out@[k].value == parts@[k].0.val,
            forall|k: int| 0 <= k < i ==> #[trigger] sources@[k] == parts@[k].1,
        decreases parts.len() - i,
    {
        out.push(TraceClause { mask: parts[i].0.mask, value: parts[i].0.val });
        sources.push(parts[i].1);
        i += 1;
    }
    (out, sources)
}

proof fn lemma_both_bound(d: Seq<DomainMask>, n: int)
    requires
        0 <= n,
    ensures
        ct::both_count(d, n) <= n,
    decreases n,
{
    if n > 0 {
        lemma_both_bound(d, n - 1);
    }
}

/// A frontier: its cubes exclude each other and say what is so; if it is complete, there is a
/// model exactly if some cube that is not refuted has one.
pub open spec fn frontier(cn: ConstraintNetwork, d: Seq<DomainMask>, cutoff: CubeCutoff, from: int, cubes: Seq<Cube>, complete: bool) -> bool {
    &&& separate(Seq::empty(), from, cubes)
    &&& leaves_ok(cn, d, cutoff, from, cubes)
    &&& complete ==> cubes.len() > from && (models::satisfiable(cn, d) <==> some_live(cn, d, from, cubes))
}

/// No assignment agrees with two cubes of a frontier.
pub proof fn law_cubes_exclude_each_other(cn: ConstraintNetwork, d: Seq<DomainMask>, cutoff: CubeCutoff, from: int, cubes: Seq<Cube>, complete: bool, j: int, k: int, a: Asg)
    requires
        frontier(cn, d, cutoff, from, cubes, complete),
        from <= j < cubes.len(),
        from <= k < cubes.len(),
        dec_holds(cubes[j].decisions@, a),
        dec_holds(cubes[k].decisions@, a),
    ensures
        j == k,
{
    if j != k {
        let (x, y) = if j < k {
            (j, k)
        } else {
            (k, j)
        };
        assert(opposed(cubes[x].decisions@, cubes[y].decisions@));
        let p = cubes[x].decisions@;
        let q = cubes[y].decisions@;
        let (i, l) = choose|i: int, l: int| 0 <= i < p.len() && 0 <= l < q.len() && (#[trigger] p[i]).0 == (#[trigger] q[l]).0 && p[i].1 != q[l].1;
        assert(a(p[i].0 as int) == p[i].1);
        assert(a(q[l].0 as int) == q[l].1);
    }
}

/// A complete frontier decides the problem: a cube marked as a model shows one, and where all
/// cubes are refuted there is none.
pub proof fn law_frontier_decides(cn: ConstraintNetwork, d: Seq<DomainMask>, cutoff: CubeCutoff, from: int, cubes: Seq<Cube>)
    requires
        0 <= from,
        frontier(cn, d, cutoff, from, cubes, true),
    ensures
        (exists|k: int| from <= k < cubes.len() && (#[trigger] cubes[k]).sat) ==> models::satisfiable(cn, d),
        (forall|k: int| from <= k < cubes.len() ==> (#[trigger] cubes[k]).refuted) ==> !models::satisfiable(cn, d),
{
    if exists|k: int| from <= k < cubes.len() && (#[trigger] cubes[k]).sat {
        let k = choose|k: int| from <= k < cubes.len() && (#[trigger] cubes[k]).sat;
        assert(leaf_ok(cn, d, cutoff, cubes[k]));
    }
}

/// Where a generation leaves the problem, the sink and the counters. It ends without counters
/// exactly where the sink refused. With `StopDecision` nothing follows a model, and unless someone
/// else can ask for a stop (it is not `alone`), only a model stops it early.
pub open spec fn generated(p0: TnProblem, p1: TnProblem, w: Setting, traced: bool, policy: CncSatPolicy, alone: bool, s0: Seq<Cube>, s1: Seq<Cube>, n0: Seq<CubeNodeTrace>, n1: Seq<CubeNodeTrace>, f0: bool, f1: bool, r: Option<CubeStats>) -> bool {
    &&& p1.wf()
    &&& p1.static_cn == p0.static_cn
    &&& p1.masks == p0.masks
    &&& p1.state() == p0.state()
    &&& continues(s0, s1)
    &&& continues(n0, n1)
    &&& leaves_cut(w.cn, w.doms, w.cutoff, s0.len() as int, s1)
    &&& f1 == (f0 || r is None)
    &&& if traced {
        tree_ok(w, n1, n0.len() as int)
    } else {
        n1 == n0
    }
    &&& r matches Some(stats) ==> {
        &&& counted(stats, s1, s0.len() as int)
        &&& stats.visited == p1.stats.total_visited_nodes
        &&& policy == CncSatPolicy::CompleteFrontier ==> !stats.stopped_early
        &&& policy == CncSatPolicy::StopDecision && some_sat(s0.len() as int, s1) ==> stats.stopped_early
        &&& alone && stats.stopped_early ==> some_sat(s0.len() as int, s1)
        &&& policy == CncSatPolicy::StopDecision ==> forall|k: int| s0.len() <= k < s1.len() - 1 ==> !(#[trigger] s1[k]).sat
    }
}

/// Where the cutoff applies at the root, a complete frontier is the one open cube without
/// decisions.
pub open spec fn cut_at_root(w: Setting, s0: Seq<Cube>, s1: Seq<Cube>, complete: bool) -> bool {
    complete && cut_here(w.cn, w.cutoff, w.doms, Seq::empty()) ==> pushed(s0, s1, Seq::empty(), w.cn.n() - util::unfixed(w.doms, w.cn.n()), false, false)
}

/// The frontier is complete: neither refused nor stopped.
pub open spec fn completed(r: Option<CubeStats>) -> bool {
    r matches Some(stats) && !stats.stopped_early
}

#[verifier::rlimit(80)]
fn generate_cubes_impl<S: RuleSolver, C: Companion, K: CubeSink>(problem: &mut TnProblem, selector: Selector, measure: Measure, solver: &S, companion: &mut C, options: CubeGenerationOptions, sink: &mut K, traced: bool) -> (r: Option<CubeStats>)
    requires
        old(problem).wf(),
    ensures
        generated(*old(problem), *final(problem), setting(*old(problem), selector, measure, options.cutoff), traced, options.sat_policy, options.termination is None, old(sink).seen(), final(sink).seen(), old(sink).nodes(), final(sink).nodes(), old(sink).refused(), final(sink).refused(), r),
        cubetree::of_tree(setting(*old(problem), selector, measure, options.cutoff), *solver, old(companion).silent(), traced, old(sink).seen(), final(sink).seen(), old(sink).nodes(), final(sink).nodes(), completed(r)),
        old(sink).accepts_all() ==> r is Some && final(sink).accepts_all(),
        continues(old(companion).asked(), final(companion).asked()),
        told_all(old(companion).silent(), final(companion).asked(), old(companion).asked().len() as int, final(sink).seen(), old(sink).seen().len() as int),
        separate(Seq::empty(), old(sink).seen().len() as int, final(sink).seen()),
        sound_from(old(problem).cn(), final(companion).asked(), old(companion).asked().len() as int) ==> frontier(old(problem).cn(), old(problem).doms@, options.cutoff, old(sink).seen().len() as int, final(sink).seen(), completed(r)),
        old(companion).silent() ==> cut_at_root(setting(*old(problem), selector, measure, options.cutoff), old(sink).seen(), final(sink).seen(), completed(r)),
{
    problem.stats.reset();
    let cn = problem.static_cn.clone();
    let masks = problem.masks.clone();
    let policy = options.sat_policy;
    let ctx = CubeCtx {
        search: solver::SearchCtx { cn: &cn, masks: &masks, selector, measure, solver },
        cutoff: options.cutoff,
        sat_policy: policy,
        termination: options.termination,
        traced,
    };
    let ghost net = problem.cn();
    let ghost s0 = problem.state();
    let ghost d0 = problem.doms@;
    let ghost l0 = problem.trail;
    let ghost seen0 = sink.seen();
    let ghost n0 = sink.nodes();
    let ghost q0 = companion.asked();
    let ghost none = Seq::<(usize, bool)>::empty();
    let ghost w = setting(*problem, selector, measure, options.cutoff);
    let ghost silent = companion.silent();
    let mut cube_stats = CubeStats { cubes: 0, refuted: 0, sat_leaves: 0, stopped_early: false, visited: 0 };
    let mut decisions: Vec<(usize, bool)> = Vec::new();
    let mut next_id: u64 = 0;
    let mut honest: Ghost<bool> = Ghost(true);
    let mut found: bool = false;
    let mut tree: Ghost<Tree> = Ghost(Tree::Unseen);
    let mark: usize = problem.trail.mark();
    proof {
        solver::lemma_logged_self(l0, s0);
        propagate::lemma_fixpoint_pending(net, s0, problem.buffer);
        assert(seen0.take(seen0.len() as int) =~= seen0);
        assert(n0.take(n0.len() as int) =~= n0);
        lemma_both_bound(d0, d0.len() as int);
        assert(count_kind(seen0, seen0.len() as int, seen0.len() as int, |c: Cube| c.refuted) == 0);
        assert(count_kind(seen0, seen0.len() as int, seen0.len() as int, |c: Cube| !c.refuted && c.sat) == 0);
        assert(count_kind(seen0, seen0.len() as int, seen0.len() as int, |c: Cube| !c.refuted && !c.sat) == 0);
    }
    let end = settle(&ctx, companion, &mut problem.buffer, &mut problem.doms, &mut problem.tables, &mut problem.trail, &decisions, &mut honest);
    let ghost e = problem.doms@;
    let ghost s1 = problem.state();
    let ghost l1 = problem.trail;
    let ghost q1 = companion.asked();
    let ghost h1 = honest@;
    proof {
        assert(decisions@ =~= none);
        lemma_told_none(companion.silent(), q1, q0.len() as int, seen0);
        cubetree::lemma_unseen(w, *solver, silent, traced, seen0, n0);
        if h1 {
            assert(carries_dec(net, d0, none, d0)) by {
                assert forall|h: Asg| #[trigger] net.model(h) && models::consistent(d0, h) && dec_holds(none, h) implies models::carried(net, d0, h) by {
                    assert(models::keeps_where(d0, h, h));
                }
            }
        }
    }
    let flow = if ctx.should_stop_for_sat(found) {
        Flow::Stopped
    } else {
        match end {
            End::Open => {
                proof {
                    lemma_both_bound(e, e.len() as int);
                    if h1 {
                        models::lemma_keeps_carries(net, d0, e, Seq::empty());
                        lemma_dec_trans(net, d0, none, d0, e);
                        if models::satisfiable(net, d0) {
                            models::lemma_carries_satisfiable(net, d0, e);
                        }
                    }
                }
                cube_rec(&ctx, companion, &mut problem.stats, &mut cube_stats, &mut problem.buffer, &mut problem.doms, &mut problem.tables, &mut problem.trail, &mut decisions, sink, &mut next_id, None, None, 0, &mut found, &mut honest, &mut tree, Ghost(d0), Ghost(seen0.len() as int), Ghost(n0.len() as int), Ghost(0), Ghost(q0.len() as int))
            },
            _ => {
                let reason = match end {
                    End::RefutedByCompanion => CubeRefutationReason::CdclPropagationConflict,
                    _ => CubeRefutationReason::RootPropagation,
                };
                let free: usize = problem.doms.len();
                let node = plain_node(0, None, None, 0, CubeNodeKind::Refuted, Some(reason), &decisions, 0, free);
                proof {
                    lemma_plain_node(w, e, node);
                }
                let ghost node0 = node;
                let ok = leaf(traced, &mut cube_stats, sink, node, Ghost(w), Ghost(seen0.len() as int), Ghost(n0.len() as int), Ghost(0));
                proof {
                    if h1 {
                        lemma_no_model(net, d0, none, d0);
                    }
                    let x = plain_step(CubeNodeKind::Refuted, Some(reason), none, e, 0);
                    assert(cubetree::decided(w, *solver, x)) by {
                        reveal(cubetree::decided);
                    }
                    assert(decisions@ =~= none);
                    lemma_shows(node0, x);
                    let t = cubetree::lemma_leaf_tree(w, *solver, silent, traced, seen0, sink.seen(), n0, sink.nodes(), x, ok);
                    *tree.borrow_mut() = t;
                    if sink.seen() != seen0 {
                        lemma_noted_push(policy, false, seen0.len() as int, seen0, sink.seen());
                    }
                    assert(decisions@ =~= none);
                    lemma_leaf_outcome(net, d0, ctx.cutoff, none, models::satisfiable(net, d0), seen0, sink.seen(), 0, true, false, h1, ok, e);
                    lemma_told_one(companion.silent(), companion.asked(), q0.len() as int, seen0, sink.seen(), none, true, net.n() - util::unfixed(e, net.n()));
                }
                if ok {
                    Flow::Done
                } else {
                    Flow::Refused
                }
            },
        }
    };
    let ghost l2 = problem.trail;
    let ghost s2 = problem.state();
    proof {
        lemma_kept_same(net, q1, h1);
        lemma_kept_up(net, q0, q1, companion.asked(), true, h1, honest@);
        if flow != Flow::Stopped && end == End::Open {
            ct::lemma_logged_trans(l2, s2, l1, s1, l0, s0);
        }
        assert(outcome(net, d0, ctx.cutoff, none, models::satisfiable(net, d0), seen0, sink.seen(), honest@, flow));
        assert(cubetree::borne(w, *solver, silent, traced, seen0, sink.seen(), n0, sink.nodes(), tree@, flow == Flow::Done));
        assert(cubetree::of_tree(w, *solver, silent, traced, seen0, sink.seen(), n0, sink.nodes(), flow == Flow::Done)) by {
            reveal(cubetree::borne);
            assert(cubetree::rooted(w, silent, tree@));
        }
        if honest@ && some_live(net, d0, seen0.len() as int, sink.seen()) {
            let k = choose|k: int| seen0.len() <= k < sink.seen().len() && !(#[trigger] sink.seen()[k]).refuted && has_model(net, d0, sink.seen()[k].decisions@);
            assert(models::satisfiable(net, d0));
        }
    }
    problem.trail.restore_to(mark, &mut problem.doms, &mut problem.tables);
    proof {
        propagate::lemma_restored(l0, s0, l2, s2, problem.trail, problem.state(), mark as int);
    }
    match flow {
        Flow::Refused => None,
        _ => {
            cube_stats.stopped_early = match flow {
                Flow::Stopped => true,
                _ => ctx.should_stop_for_sat(found),
            };
            cube_stats.visited = problem.stats.total_visited_nodes;
            Some(cube_stats)
        },
    }
}

/// Generate a frontier. `None` where the sink refused.
pub fn generate_cubes_configured<S: RuleSolver, K: CubeSink>(problem: &mut TnProblem, selector: Selector, measure: Measure, solver: &S, options: CubeGenerationOptions, sink: &mut K) -> (r: Option<CubeStats>)
    requires
        old(problem).wf(),
    ensures
        generated(*old(problem), *final(problem), setting(*old(problem), selector, measure, options.cutoff), false, options.sat_policy, options.termination is None, old(sink).seen(), final(sink).seen(), old(sink).nodes(), final(sink).nodes(), old(sink).refused(), final(sink).refused(), r),
        cubetree::of_tree(setting(*old(problem), selector, measure, options.cutoff), *solver, true, false, old(sink).seen(), final(sink).seen(), old(sink).nodes(), final(sink).nodes(), completed(r)),
        old(sink).accepts_all() ==> r is Some && final(sink).accepts_all(),
        frontier(old(problem).cn(), old(problem).doms@, options.cutoff, old(sink).seen().len() as int, final(sink).seen(), completed(r)),
        cut_at_root(setting(*old(problem), selector, measure, options.cutoff), old(sink).seen(), final(sink).seen(), completed(r)),
{
    generate_cubes_impl(problem, selector, measure, solver, &mut NoCompanion, options, sink, false)
}

/// Generate a frontier and report the nodes of the tree.
pub fn generate_cubes_configured_with_trace<S: RuleSolver, K: CubeSink>(problem: &mut TnProblem, selector: Selector, measure: Measure, solver: &S, options: CubeGenerationOptions, sink: &mut K) -> (r: Option<CubeStats>)
    requires
        old(problem).wf(),
    ensures
        generated(*old(problem), *final(problem), setting(*old(problem), selector, measure, options.cutoff), true, options.sat_policy, options.termination is None, old(sink).seen(), final(sink).seen(), old(sink).nodes(), final(sink).nodes(), old(sink).refused(), final(sink).refused(), r),
        cubetree::of_tree(setting(*old(problem), selector, measure, options.cutoff), *solver, true, true, old(sink).seen(), final(sink).seen(), old(sink).nodes(), final(sink).nodes(), completed(r)),
        old(sink).accepts_all() ==> r is Some && final(sink).accepts_all(),
        frontier(old(problem).cn(), old(problem).doms@, options.cutoff, old(sink).seen().len() as int, final(sink).seen(), completed(r)),
        cut_at_root(setting(*old(problem), selector, measure, options.cutoff), old(sink).seen(), final(sink).seen(), completed(r)),
{
    generate_cubes_impl(problem, selector, measure, solver, &mut NoCompanion, options, sink, true)
}

/// Generate a frontier with the help of a companion, and report the nodes where `traced`. The
/// cubes exclude each other whatever it answers; they say what is so where its answers are
/// sound.
pub fn generate_cubes_with_cutoff_cdcl_policy<S: RuleSolver, C: Companion, K: CubeSink>(problem: &mut TnProblem, selector: Selector, measure: Measure, solver: &S, companion: &mut C, options: CubeGenerationOptions, sink: &mut K, traced: bool) -> (r: Option<CubeStats>)
    requires
        old(problem).wf(),
    ensures
        generated(*old(problem), *final(problem), setting(*old(problem), selector, measure, options.cutoff), traced, options.sat_policy, options.termination is None, old(sink).seen(), final(sink).seen(), old(sink).nodes(), final(sink).nodes(), old(sink).refused(), final(sink).refused(), r),
        cubetree::of_tree(setting(*old(problem), selector, measure, options.cutoff), *solver, old(companion).silent(), traced, old(sink).seen(), final(sink).seen(), old(sink).nodes(), final(sink).nodes(), completed(r)),
        old(sink).accepts_all() ==> r is Some && final(sink).accepts_all(),
        continues(old(companion).asked(), final(companion).asked()),
        told_all(old(companion).silent(), final(companion).asked(), old(companion).asked().len() as int, final(sink).seen(), old(sink).seen().len() as int),
        separate(Seq::empty(), old(sink).seen().len() as int, final(sink).seen()),
        sound_from(old(problem).cn(), final(companion).asked(), old(companion).asked().len() as int) ==> frontier(old(problem).cn(), old(problem).doms@, options.cutoff, old(sink).seen().len() as int, final(sink).seen(), completed(r)),
        old(companion).silent() ==> cut_at_root(setting(*old(problem), selector, measure, options.cutoff), old(sink).seen(), final(sink).seen(), completed(r)),
{
    generate_cubes_impl(problem, selector, measure, solver, companion, options, sink, traced)
}

/// Generate the complete frontier with the given cutoff and the help of a companion.
pub fn generate_cubes_with_cutoff_cdcl<S: RuleSolver, C: Companion, K: CubeSink>(problem: &mut TnProblem, selector: Selector, measure: Measure, solver: &S, cutoff: CubeCutoff, companion: &mut C, sink: &mut K) -> (r: Option<CubeStats>)
    requires
        old(problem).wf(),
    ensures
        generated(*old(problem), *final(problem), setting(*old(problem), selector, measure, cutoff), false, CncSatPolicy::CompleteFrontier, true, old(sink).seen(), final(sink).seen(), old(sink).nodes(), final(sink).nodes(), old(sink).refused(), final(sink).refused(), r),
        cubetree::of_tree(setting(*old(problem), selector, measure, cutoff), *solver, old(companion).silent(), false, old(sink).seen(), final(sink).seen(), old(sink).nodes(), final(sink).nodes(), r is Some),
        old(sink).accepts_all() ==> r is Some && final(sink).accepts_all(),
        continues(old(companion).asked(), final(companion).asked()),
        told_all(old(companion).silent(), final(companion).asked(), old(companion).asked().len() as int, final(sink).seen(), old(sink).seen().len() as int),
        separate(Seq::empty(), old(sink).seen().len() as int, final(sink).seen()),
        sound_from(old(problem).cn(), final(companion).asked(), old(companion).asked().len() as int) ==> frontier(old(problem).cn(), old(problem).doms@, cutoff, old(sink).seen().len() as int, final(sink).seen(), r is Some),
        old(companion).silent() ==> cut_at_root(setting(*old(problem), selector, measure, cutoff), old(sink).seen(), final(sink).seen(), r is Some),
{
    generate_cubes_with_cutoff_cdcl_policy(problem, selector, measure, solver, companion, CubeGenerationOptions::new(cutoff), sink, false)
}

/// Generate the complete frontier with the given cutoff and the help of a companion, and report
/// the nodes of the tree.
pub fn generate_cubes_with_cutoff_trace_cdcl<S: RuleSolver, C: Companion, K: CubeSink>(problem: &mut TnProblem, selector: Selector, measure: Measure, solver: &S, cutoff: CubeCutoff, companion: &mut C, sink: &mut K) -> (r: Option<CubeStats>)
    requires
        old(problem).wf(),
    ensures
        generated(*old(problem), *final(problem), setting(*old(problem), selector, measure, cutoff), true, CncSatPolicy::CompleteFrontier, true, old(sink).seen(), final(sink).seen(), old(sink).nodes(), final(sink).nodes(), old(sink).refused(), final(sink).refused(), r),
        cubetree::of_tree(setting(*old(problem), selector, measure, cutoff), *solver, old(companion).silent(), true, old(sink).seen(), final(sink).seen(), old(sink).nodes(), final(sink).nodes(), r is Some),
        old(sink).accepts_all() ==> r is Some && final(sink).accepts_all(),
        continues(old(companion).asked(), final(companion).asked()),
        told_all(old(companion).silent(), final(companion).asked(), old(companion).asked().len() as int, final(sink).seen(), old(sink).seen().len() as int),
        separate(Seq::empty(), old(sink).seen().len() as int, final(sink).seen()),
        sound_from(old(problem).cn(), final(companion).asked(), old(companion).asked().len() as int) ==> frontier(old(problem).cn(), old(problem).doms@, cutoff, old(sink).seen().len() as int, final(sink).seen(), r is Some),
        old(companion).silent() ==> cut_at_root(setting(*old(problem), selector, measure, cutoff), old(sink).seen(), final(sink).seen(), r is Some),
{
    generate_cubes_with_cutoff_cdcl_policy(problem, selector, measure, solver, companion, CubeGenerationOptions::new(cutoff), sink, true)
}

/// Generate the frontier with the given cutoff and policy, and report the nodes of the tree.
pub fn generate_cubes_with_cutoff_trace_policy<S: RuleSolver, K: CubeSink>(problem: &mut TnProblem, selector: Selector, measure: Measure, solver: &S, cutoff: CubeCutoff, sat_policy: CncSatPolicy, termination: Option<TerminationSignal>, sink: &mut K) -> (r: Option<CubeStats>)
    requires
        old(problem).wf(),
    ensures
        generated(*old(problem), *final(problem), setting(*old(problem), selector, measure, cutoff), true, sat_policy, termination is None, old(sink).seen(), final(sink).seen(), old(sink).nodes(), final(sink).nodes(), old(sink).refused(), final(sink).refused(), r),
        cubetree::of_tree(setting(*old(problem), selector, measure, cutoff), *solver, true, true, old(sink).seen(), final(sink).seen(), old(sink).nodes(), final(sink).nodes(), completed(r)),
        old(sink).accepts_all() ==> r is Some && final(sink).accepts_all(),
        frontier(old(problem).cn(), old(problem).doms@, cutoff, old(sink).seen().len() as int, final(sink).seen(), completed(r)),
        cut_at_root(setting(*old(problem), selector, measure, cutoff), old(sink).seen(), final(sink).seen(), completed(r)),
{
    generate_cubes_configured_with_trace(problem, selector, measure, solver, CubeGenerationOptions { cutoff, sat_policy, termination }, sink)
}

/// Generate the complete frontier with the given cutoff, and report the nodes of the tree.
pub fn generate_cubes_with_cutoff_trace<S: RuleSolver, K: CubeSink>(problem: &mut TnProblem, selector: Selector, measure: Measure, solver: &S, cutoff: CubeCutoff, sink: &mut K) -> (r: Option<CubeStats>)
    requires
        old(problem).wf(),
    ensures
        generated(*old(problem), *final(problem), setting(*old(problem), selector, measure, cutoff), true, CncSatPolicy::CompleteFrontier, true, old(sink).seen(), final(sink).seen(), old(sink).nodes(), final(sink).nodes(), old(sink).refused(), final(sink).refused(), r),
        cubetree::of_tree(setting(*old(problem), selector, measure, cutoff), *solver, true, true, old(sink).seen(), final(sink).seen(), old(sink).nodes(), final(sink).nodes(), r is Some),
        old(sink).accepts_all() ==> r is Some && final(sink).accepts_all(),
        frontier(old(problem).cn(), old(problem).doms@, cutoff, old(sink).seen().len() as int, final(sink).seen(), r is Some),
        cut_at_root(setting(*old(problem), selector, measure, cutoff), old(sink).seen(), final(sink).seen(), r is Some),
{
    generate_cubes_configured_with_trace(problem, selector, measure, solver, CubeGenerationOptions::new(cutoff), sink)
}

/// Generate the complete frontier that stops where fewer than `n` variables are open, and report
/// the nodes of the tree.
pub fn generate_cubes_with_trace<S: RuleSolver, K: CubeSink>(problem: &mut TnProblem, selector: Selector, measure: Measure, solver: &S, n: usize, sink: &mut K) -> (r: Option<CubeStats>)
    requires
        old(problem).wf(),
        n > 0,
    ensures
        generated(*old(problem), *final(problem), setting(*old(problem), selector, measure, CubeCutoff::RemainingVars(n)), true, CncSatPolicy::CompleteFrontier, true, old(sink).seen(), final(sink).seen(), old(sink).nodes(), final(sink).nodes(), old(sink).refused(), final(sink).refused(), r),
        cubetree::of_tree(setting(*old(problem), selector, measure, CubeCutoff::RemainingVars(n)), *solver, true, true, old(sink).seen(), final(sink).seen(), old(sink).nodes(), final(sink).nodes(), r is Some),
        old(sink).accepts_all() ==> r is Some && final(sink).accepts_all(),
        frontier(old(problem).cn(), old(problem).doms@, CubeCutoff::RemainingVars(n), old(sink).seen().len() as int, final(sink).seen(), r is Some),
        cut_at_root(setting(*old(problem), selector, measure, CubeCutoff::RemainingVars(n)), old(sink).seen(), final(sink).seen(), r is Some),
{
    generate_cubes_with_cutoff_trace(problem, selector, measure, solver, CubeCutoff::RemainingVars(n), sink)
}

/// Generate the frontier with the given cutoff and policy.
pub fn generate_cubes_with_cutoff_policy<S: RuleSolver, K: CubeSink>(problem: &mut TnProblem, selector: Selector, measure: Measure, solver: &S, cutoff: CubeCutoff, sat_policy: CncSatPolicy, termination: Option<TerminationSignal>, sink: &mut K) -> (r: Option<CubeStats>)
    requires
        old(problem).wf(),
    ensures
        generated(*old(problem), *final(problem), setting(*old(problem), selector, measure, cutoff), false, sat_policy, termination is None, old(sink).seen(), final(sink).seen(), old(sink).nodes(), final(sink).nodes(), old(sink).refused(), final(sink).refused(), r),
        cubetree::of_tree(setting(*old(problem), selector, measure, cutoff), *solver, true, false, old(sink).seen(), final(sink).seen(), old(sink).nodes(), final(sink).nodes(), completed(r)),
        old(sink).accepts_all() ==> r is Some && final(sink).accepts_all(),
        frontier(old(problem).cn(), old(problem).doms@, cutoff, old(sink).seen().len() as int, final(sink).seen(), completed(r)),
        cut_at_root(setting(*old(problem), selector, measure, cutoff), old(sink).seen(), final(sink).seen(), completed(r)),
{
    generate_cubes_configured(problem, selector, measure, solver, CubeGenerationOptions { cutoff, sat_policy, termination }, sink)
}

/// Generate the complete frontier with the given cutoff.
pub fn generate_cubes_with_cutoff<S: RuleSolver, K: CubeSink>(problem: &mut TnProblem, selector: Selector, measure: Measure, solver: &S, cutoff: CubeCutoff, sink: &mut K) -> (r: Option<CubeStats>)
    requires
        old(problem).wf(),
    ensures
        generated(*old(problem), *final(problem), setting(*old(problem), selector, measure, cutoff), false, CncSatPolicy::CompleteFrontier, true, old(sink).seen(), final(sink).seen(), old(sink).nodes(), final(sink).nodes(), old(sink).refused(), final(sink).refused(), r),
        cubetree::of_tree(setting(*old(problem), selector, measure, cutoff), *solver, true, false, old(sink).seen(), final(sink).seen(), old(sink).nodes(), final(sink).nodes(), r is Some),
        old(sink).accepts_all() ==> r is Some && final(sink).accepts_all(),
        frontier(old(problem).cn(), old(problem).doms@, cutoff, old(sink).seen().len() as int, final(sink).seen(), r is Some),
        cut_at_root(setting(*old(problem), selector, measure, cutoff), old(sink).seen(), final(sink).seen(), r is Some),
{
    generate_cubes_configured(problem, selector, measure, solver, CubeGenerationOptions::new(cutoff), sink)
}

/// Generate the complete frontier that stops where fewer than `n` variables are open.
pub fn generate_cubes_with<S: RuleSolver, K: CubeSink>(problem: &mut TnProblem, selector: Selector, measure: Measure, solver: &S, n: usize, sink: &mut K) -> (r: Option<CubeStats>)
    requires
        old(problem).wf(),
        n > 0,
    ensures
        generated(*old(problem), *final(problem), setting(*old(problem), selector, measure, CubeCutoff::RemainingVars(n)), false, CncSatPolicy::CompleteFrontier, true, old(sink).seen(), final(sink).seen(), old(sink).nodes(), final(sink).nodes(), old(sink).refused(), final(sink).refused(), r),
        cubetree::of_tree(setting(*old(problem), selector, measure, CubeCutoff::RemainingVars(n)), *solver, true, false, old(sink).seen(), final(sink).seen(), old(sink).nodes(), final(sink).nodes(), r is Some),
        old(sink).accepts_all() ==> r is Some && final(sink).accepts_all(),
        frontier(old(problem).cn(), old(problem).doms@, CubeCutoff::RemainingVars(n), old(sink).seen().len() as int, final(sink).seen(), r is Some),
        cut_at_root(setting(*old(problem), selector, measure, CubeCutoff::RemainingVars(n)), old(sink).seen(), final(sink).seen(), r is Some),
{
    generate_cubes_with_cutoff(problem, selector, measure, solver, CubeCutoff::RemainingVars(n), sink)
}

/// All cubes of the complete frontier that stops where fewer than `n` variables are open.
pub fn generate_cubes<S: RuleSolver>(problem: &mut TnProblem, selector: Selector, measure: Measure, solver: &S, n: usize) -> (r: (Vec<Cube>, CubeStats))
    requires
        old(problem).wf(),
        n > 0,
    ensures
        generated(*old(problem), *final(problem), setting(*old(problem), selector, measure, CubeCutoff::RemainingVars(n)), false, CncSatPolicy::CompleteFrontier, true, Seq::empty(), r.0@, Seq::empty(), Seq::empty(), false, false, Some(r.1)),
        cubetree::of_tree(setting(*old(problem), selector, measure, CubeCutoff::RemainingVars(n)), *solver, true, false, Seq::empty(), r.0@, Seq::empty(), Seq::empty(), true),
        frontier(old(problem).cn(), old(problem).doms@, CubeCutoff::RemainingVars(n), 0, r.0@, true),
        cut_at_root(setting(*old(problem), selector, measure, CubeCutoff::RemainingVars(n)), Seq::empty(), r.0@, true),
{
    let mut list = CubeList::new();
    let ghost s0 = list.seen();
    let ghost n0 = list.nodes();
    proof {
        assert(s0 =~= Seq::empty());
        assert(n0 =~= Seq::empty());
    }
    let stats = generate_cubes_with(problem, selector, measure, solver, n, &mut list).unwrap();
    (list.cubes, stats)
}

} // verus!
