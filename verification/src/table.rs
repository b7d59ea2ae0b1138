//! Branching rules from regions.
use vstd::prelude::*;

use std::sync::Arc;

use crate::adapter;
use crate::adapter::{BranchingTable, Clause, RuleProblem, RuleSolver};
use crate::bits;
use crate::clock;
use crate::contract;
use crate::contract::Relation;
use crate::ct;
use crate::ct::{RSparseBitSet, TableMasks};
use crate::domain::{Asg, DomainMask};
use crate::measure;
use crate::measure::Measure;
use crate::models;
use crate::network;
use crate::network::ConstraintNetwork;
use crate::order;
use crate::problem::SolverBuffer;
use crate::propagate;
use crate::region;
use crate::region::Region;
use crate::seqs;
use crate::trail;
use crate::trail::{State, Trail};
use crate::util;

verus! {

/// A rule weighed where it was found.
#[derive(Clone, Debug, PartialEq, Eq)]
pub struct RuleEvaluationDiagnostics {
    /// The clauses of the rule.
    pub branches: usize,
    /// The values that the clauses set, all together.
    pub decision_literals: usize,
    /// How much smaller each clause makes the problem.
    pub branching_vector: Vec<i128>,
    /// The nanoseconds that weighing it took.
    pub solver_ns: u64,
}

/// Two plain rules weighed in the state of the one that was taken.
#[derive(Clone, Debug, PartialEq, Eq)]
pub struct SameStateReplayDiagnostics {
    /// Both values of the variable the region was grown from.
    pub binary: RuleEvaluationDiagnostics,
    /// One full assignment for each feasible row.
    pub naive: RuleEvaluationDiagnostics,
}

/// How a region became a rule.
#[derive(Clone, Debug, PartialEq, Eq)]
pub struct RegionRuleDiagnostics {
    /// The variable the region was grown from.
    pub focus_var: usize,
    /// The constraints of the region.
    pub region_tensors: usize,
    /// The variables of the region.
    pub region_variables: usize,
    /// Region variables that a constraint outside, not entailed, mentions.
    pub boundary_variables: usize,
    /// Rows of the joined relation.
    pub joined_rows: usize,
    /// Rows that propagation does not refute.
    pub feasible_rows: usize,
    /// Rows that the rule has to cover.
    pub branching_rows: usize,
    /// Whether no constraint outside, not entailed, mentions a region variable.
    pub closed: bool,
    /// How much smaller each clause makes the problem; empty where no rule was asked for.
    pub branching_vector: Vec<i128>,
    /// True for a replayed rule: it covers the feasible rows.
    pub cover_verified: Option<bool>,
    /// The nanoseconds that growing the region took.
    pub region_growth_ns: u64,
    /// The nanoseconds that probing its rows took.
    pub feasibility_probe_ns: u64,
    /// The nanoseconds that the rule solver took; zero where it was not asked.
    pub rule_solver_ns: u64,
    /// The plain rules in the same state, where they were asked for.
    pub same_state_replay: Option<SameStateReplayDiagnostics>,
}

/// A rule: clauses over `variables`, or None where no row of the region is feasible.
pub struct BranchingResult {
    pub clauses: Option<Vec<Clause>>,
    pub variables: Vec<usize>,
    pub diagnostics: Option<RegionRuleDiagnostics>,
}

/// A constraint outside the region, not entailed, mentions `v`.
pub open spec fn live_outside(cn: ConstraintNetwork, d: Seq<DomainMask>, tensors: Seq<usize>, v: usize) -> bool {
    exists|t: int| 0 <= t < cn.m() && (#[trigger] cn.axes(t)).contains(v) && !contract::lists(tensors, t) && !util::entailed(cn, d, t)
}

/// The region variables that a constraint outside, not entailed, mentions, in region order.
pub fn live_boundary_vars(cn: &ConstraintNetwork, region: &Region, doms: &[DomainMask], masks: &[TableMasks]) -> (r: Vec<usize>)
    requires
        cn.wf(),
        doms@.len() == cn.n(),
        ct::masks_ok(*cn, masks@),
        network::ascending_ids(region.tensors@),
        forall|i: int| 0 <= i < region.vars@.len() ==> (#[trigger] region.vars@[i]) < cn.n(),
    ensures
        r@ == region.vars@.filter(|v: usize| live_outside(*cn, doms@, region.tensors@, v)),
{
    let ghost p = |v: usize| live_outside(*cn, doms@, region.tensors@, v);
    let mut out: Vec<usize> = Vec::new();
    let mut i: usize = 0;
    proof {
        reveal(Seq::filter);
        assert(region.vars@.take(0).filter(p) =~= Seq::<usize>::empty());
    }
    while i < region.vars.len()
        invariant
            cn.wf(),
            doms@.len() == cn.n(),
            ct::masks_ok(*cn, masks@),
            network::ascending_ids(region.tensors@),
            forall|i: int| 0 <= i < region.vars@.len() ==> (#[trigger] region.vars@[i]) < cn.n(),
            p == |v: usize| live_outside(*cn, doms@, region.tensors@, v),
            i <= region.vars@.len(),
            out@ == region.vars@.take(i as int).filter(p),
        decreases region.vars.len() - i,
    {
        let v: usize = region.vars[i];
        let list = &cn.v2t[v];
        let mut outside = false;
        let mut k: usize = 0;
        proof {
            assert(cn.incidence_wf(v as int));
            assert(cn.tensors.len() == cn.m());
        }
        while k < list.len() && !outside
            invariant
                cn.wf(),
                doms@.len() == cn.n(),
                ct::masks_ok(*cn, masks@),
                cn.incidence_wf(v as int),
                v as int as usize == v,
                network::ascending_ids(region.tensors@),
                list@ == cn.v2t@[v as int]@,
                k <= list@.len(),
                outside ==> live_outside(*cn, doms@, region.tensors@, v),
                !outside ==> forall|q: int| 0 <= q < k ==> contract::lists(region.tensors@, (#[trigger] list@[q]) as int) || util::entailed(*cn, doms@, list@[q] as int),
            decreases list.len() - k,
        {
            let t: usize = list[k];
            assert(list@[k as int] < cn.m());
            match order::find(&region.tensors, t) {
                Some(at) => {
                    assert(region.tensors@[at as int] as int == t);
                },
                None => {
                    if !util::is_entailed(cn, t, doms, masks) {
                        proof {
                            assert(!contract::lists(region.tensors@, t as int)) by {
                                if contract::lists(region.tensors@, t as int) {
                                    let x = choose|x: int| 0 <= x < region.tensors@.len() && (#[trigger] region.tensors@[x]) as int == t;
                                    assert(region.tensors@.contains(t));
                                }
                            }
                            assert(cn.axes(t as int).contains(v));
                        }
                        outside = true;
                    }
                },
            }
            k += 1;
        }
        proof {
            reveal(Seq::filter);
            seqs::lemma_take_next(region.vars@, i as int);
            if !outside && live_outside(*cn, doms@, region.tensors@, v) {
                let t = choose|t: int| 0 <= t < cn.m() && (#[trigger] cn.axes(t)).contains(v) && !contract::lists(region.tensors@, t) && !util::entailed(*cn, doms@, t);
                assert(list@.contains(t as usize));
                let q = list@.index_of(t as usize);
                assert(contract::lists(region.tensors@, list@[q] as int) || util::entailed(*cn, doms@, list@[q] as int));
            }
        }
        if outside {
            out.push(v);
        }
        i += 1;
    }
    proof {
        seqs::lemma_take_all(region.vars@);
    }
    out
}

/// Every clause sets one of the first `width` variables.
pub open spec fn each_sets(clauses: Seq<Clause>, width: int) -> bool {
    forall|k: int| 0 <= k < clauses.len() ==> sets_some(#[trigger] clauses[k], width)
}

/// The clause sets one of the first `width` variables.
pub open spec fn sets_some(c: Clause, width: int) -> bool {
    exists|i: int| 0 <= i < width && #[trigger] bits::bit(c.mask, i)
}

/// Some clause covers `config`.
pub open spec fn some_covers(clauses: Seq<Clause>, config: u64) -> bool {
    exists|k: int| 0 <= k < clauses.len() && (#[trigger] clauses[k]).covers(config)
}

/// Every clause sets the first `width` variables only.
pub open spec fn masks_below(clauses: Seq<Clause>, width: int) -> bool {
    forall|k: int| 0 <= k < clauses.len() ==> bits::below((#[trigger] clauses[k]).mask, width)
}

/// The rule covers all of `configs`; every clause sets a variable, and no others than the first
/// `width`.
pub open spec fn covering_rule(clauses: Seq<Clause>, width: int, configs: Seq<u64>) -> bool {
    &&& each_sets(clauses, width)
    &&& masks_below(clauses, width)
    &&& forall|i: int| 0 <= i < configs.len() ==> some_covers(clauses, #[trigger] configs[i])
}

/// Whether a rule covers all of `configs`, every clause sets a variable, and only those there are.
fn check_rule(clauses: &Vec<Clause>, width: usize, configs: &Vec<u64>) -> (r: bool)
    requires
        width <= 64,
    ensures
        r == covering_rule(clauses@, width as int, configs@),
{
    let full: u64 = bits::full_mask(width);
    let mut k: usize = 0;
    while k < clauses.len()
        invariant
            width <= 64,
            forall|j: int| 0 <= j < 64 ==> #[trigger] bits::bit(full, j) == (j < width),
            k <= clauses@.len(),
            forall|q: int| 0 <= q < k ==> sets_some(#[trigger] clauses@[q], width as int),
            forall|q: int| 0 <= q < k ==> bits::below((#[trigger] clauses@[q]).mask, width as int),
        decreases clauses.len() - k,
    {
        let c = clauses[k];
        proof {
            broadcast use bits::group_bits;

            if c.mask & full == 0 {
                assert forall|i: int| 0 <= i < width implies !#[trigger] bits::bit(c.mask, i) by {
                    assert(bits::bit(c.mask & full, i) == (bits::bit(c.mask, i) && bits::bit(full, i)));
                }
            } else {
                if forall|i: int| 0 <= i < width ==> !#[trigger] bits::bit(c.mask, i) {
                    assert forall|i: int| 0 <= i < 64 implies #[trigger] bits::bit(c.mask & full, i) == bits::bit(0u64, i) by {
                        if i < width {
                            assert(!bits::bit(c.mask, i));
                        }
                    }
                    bits::lemma_bits_equal(c.mask & full, 0);
                }
            }
        }
        if c.mask & full == 0 {
            assert(!sets_some(clauses@[k as int], width as int));
            return false;
        }
        proof {
            broadcast use bits::group_bits;

            if c.mask & full == c.mask {
                assert forall|i: int| width <= i < 64 implies !#[trigger] bits::bit(c.mask, i) by {
                    assert(bits::bit(c.mask & full, i) == (bits::bit(c.mask, i) && bits::bit(full, i)));
                }
            }
            if bits::below(c.mask, width as int) {
                assert forall|i: int| 0 <= i < 64 implies #[trigger] bits::bit(c.mask & full, i) == bits::bit(c.mask, i) by {
                    if i >= width {
                        assert(!bits::bit(c.mask, i));
                    }
                }
                bits::lemma_bits_equal(c.mask & full, c.mask);
            }
        }
        if c.mask & full != c.mask {
            assert(!bits::below(clauses@[k as int].mask, width as int));
            return false;
        }
        k += 1;
    }
    let mut i: usize = 0;
    while i < configs.len()
        invariant
            i <= configs@.len(),
            each_sets(clauses@, width as int),
            masks_below(clauses@, width as int),
            forall|q: int| 0 <= q < i ==> some_covers(clauses@, #[trigger] configs@[q]),
        decreases configs.len() - i,
    {
        let mut found = false;
        let mut k: usize = 0;
        while k < clauses.len() && !found
            invariant
                k <= clauses@.len(),
                i < configs@.len(),
                found ==> some_covers(clauses@, configs@[i as int]),
                !found ==> forall|q: int| 0 <= q < k ==> !(#[trigger] clauses@[q]).covers(configs@[i as int]),
            decreases clauses.len() - k,
        {
            if clauses[k].covered_by(configs[i]) {
                assert(clauses@[k as int].covers(configs@[i as int]));
                found = true;
            }
            k += 1;
        }
        if !found {
            assert(!some_covers(clauses@, configs@[i as int]));
            return false;
        }
        i += 1;
    }
    true
}

/// One full assignment for each configuration.
pub fn naive_rule(configs: &Vec<u64>, width: usize) -> (r: Vec<Clause>)
    requires
        0 < width <= 64,
    ensures
        r@.len() == configs@.len(),
        forall|k: int| 0 <= k < configs@.len() ==> (#[trigger] r@[k]).val == configs@[k],
        forall|k: int, j: int| 0 <= k < configs@.len() && 0 <= j < 64 ==> #[trigger] bits::bit(r@[k].mask, j) == (j < width),
        covering_rule(r@, width as int, configs@),
{
    let full: u64 = bits::full_mask(width);
    let mut out: Vec<Clause> = Vec::new();
    let mut i: usize = 0;
    while i < configs.len()
        invariant
            0 < width <= 64,
            forall|j: int| 0 <= j < 64 ==> #[trigger] bits::bit(full, j) == (j < width),
            i <= configs@.len(),
            out@.len() == i,
            forall|k: int| 0 <= k < i ==> (#[trigger] out@[k]).val == configs@[k] && out@[k].mask == full,
        decreases configs.len() - i,
    {
        out.push(Clause::new(full, configs[i]));
        i += 1;
    }
    proof {
        assert forall|k: int| 0 <= k < out@.len() implies sets_some(#[trigger] out@[k], width as int) by {
            assert(bits::bit(out@[k].mask, 0));
        }
        assert forall|q: int| 0 <= q < configs@.len() implies some_covers(out@, #[trigger] configs@[q]) by {
            assert(out@[q].covers(configs@[q]));
        }
    }
    out
}

/// The rule that is taken: the proposal where it covers the rows and sets something in every
/// clause, and otherwise one full assignment for each row.
pub fn adopt_rule(proposal: Option<Vec<Clause>>, configs: &Vec<u64>, width: usize) -> (r: Vec<Clause>)
    requires
        0 < width <= 64,
    ensures
        covering_rule(r@, width as int, configs@),
        match proposal {
            Some(c) => if covering_rule(c@, width as int, configs@) {
                r@ == c@
            } else {
                full_rule(r@, width as int, configs@)
            },
            None => full_rule(r@, width as int, configs@),
        },
{
    match proposal {
        Some(c) => if check_rule(&c, width, configs) {
            c
        } else {
            naive_rule(configs, width)
        },
        None => naive_rule(configs, width),
    }
}

/// The feasible rows of a relation, ascending, each once.
pub open spec fn lists_feasible(cn: ConstraintNetwork, d: Seq<DomainMask>, rel: Relation, f: Seq<u64>) -> bool {
    &&& order::ascending64(f)
    &&& forall|c: u64| #[trigger] f.contains(c) <==> (rel.rows@.contains(c) && propagate::feasible(cn, d, rel.vars@, c))
}

/// The result for the region `region` with the join `rel` and the feasible rows `f`.
pub open spec fn region_rule(cn: ConstraintNetwork, d: Seq<DomainMask>, region: Region, rel: Relation, f: Seq<u64>, res: BranchingResult) -> bool {
    &&& res.variables@ == rel.vars@
    &&& res.clauses is None <==> f.len() == 0
    &&& res.clauses is Some && is_shut(cn, d, region, rel) ==> {
        &&& res.clauses->0@.len() == 1
        &&& res.clauses->0@[0].val == f[0]
        &&& forall|j: int| 0 <= j < 64 ==> #[trigger] bits::bit(res.clauses->0@[0].mask, j) == (j < rel.vars@.len())
    }
    &&& res.clauses is Some && !is_shut(cn, d, region, rel) ==> covering_rule(res.clauses->0@, rel.vars@.len() as int, f)
}

/// The table hands each of the rows `f` over as a group of its own.
pub open spec fn singletons(table: BranchingTable, width: int, f: Seq<u64>) -> bool {
    &&& table.bit_length == width
    &&& table.table@.len() == f.len()
    &&& forall|k: int| 0 <= k < f.len() ==> (#[trigger] table.table@[k])@ == seq![f[k]]
}

/// The rule that is taken for a proposal.
pub open spec fn adopted(proposal: Option<Vec<Clause>>, width: int, f: Seq<u64>, rule: Seq<Clause>) -> bool {
    if proposal is Some && covering_rule(proposal->0@, width, f) {
        rule == proposal->0@
    } else {
        full_rule(rule, width, f)
    }
}

/// The clauses are what is taken of an answer that the solver may give to this question: the
/// network with its masks and domains, the rows `f`, the variables and the measure.
pub open spec fn proposed<S: RuleSolver>(solver: S, cn: Arc<ConstraintNetwork>, masks: Arc<Vec<TableMasks>>, d: Seq<DomainMask>, vars: Seq<usize>, f: Seq<u64>, m: Measure, rule: Seq<Clause>) -> bool {
    exists|problem: RuleProblem, table: BranchingTable, ids: &[usize], proposal: Option<Vec<Clause>>| #[trigger]
        call_ensures(S::optimal_rule, (&solver, &problem, &table, ids, m), proposal) && problem.cn == cn && problem.masks == masks && problem.doms@ == d && singletons(table, vars.len() as int, f) && ids@ == vars && adopted(
            proposal,
            vars.len() as int,
            f,
            rule,
        )
}

/// Where the region that `focus` grows to is open and some row is feasible, the clauses are what
/// is taken of the solver's answer.
pub open spec fn answered<S: RuleSolver>(solver: S, cn: Arc<ConstraintNetwork>, masks: Arc<Vec<TableMasks>>, d: Seq<DomainMask>, focus: usize, max_rows: int, m: Measure, res: BranchingResult) -> bool {
    exists|region: Region, rel: Relation, f: Seq<u64>|
        {
            &&& #[trigger] region::grown(*cn, d, true, focus, max_rows, region, rel)
            &&& #[trigger] lists_feasible(*cn, d, rel, f)
            &&& region_rule(*cn, d, region, rel, f, res)
            &&& res.clauses is Some && !is_shut(*cn, d, region, rel) ==> proposed(solver, cn, masks, d, rel.vars@, f, m, res.clauses->0@)
        }
}

/// No constraint outside the region, not entailed, mentions a region variable.
pub open spec fn is_shut(cn: ConstraintNetwork, d: Seq<DomainMask>, region: Region, rel: Relation) -> bool {
    forall|t: int| !#[trigger] region::on_frontier(cn, d, true, region.tensors@, rel.vars@, t)
}

/// The result comes from a region grown around `focus`.
pub open spec fn branching_ok(cn: ConstraintNetwork, d: Seq<DomainMask>, focus: usize, max_rows: int, res: BranchingResult) -> bool {
    exists|region: Region, rel: Relation, f: Seq<u64>|
        {
            &&& #[trigger] region::grown(cn, d, true, focus, max_rows, region, rel)
            &&& #[trigger] lists_feasible(cn, d, rel, f)
            &&& region_rule(cn, d, region, rel, f, res)
        }
}

/// The measure, as far as sixty-four bits hold it.
pub open spec fn capped_measure(cn: ConstraintNetwork, d: Seq<DomainMask>, m: Measure) -> int {
    if measure::measured(cn, d, m) <= u64::MAX {
        measure::measured(cn, d, m) as int
    } else {
        u64::MAX as int
    }
}

/// `x` is what the measure loses when the clause is set and propagated.
pub open spec fn reduces_by(cn: ConstraintNetwork, d: Seq<DomainMask>, vars: Seq<usize>, c: Clause, m: Measure, x: int) -> bool {
    exists|e: Seq<DomainMask>, ok: bool|
        #[trigger] propagate::propagated(cn, ct::assigned(d, vars, c.mask, c.val, vars.len() as int), e, ok) && x == capped_measure(cn, d, m) - capped_measure(cn, e, m)
}

/// What each clause takes off the measure.
pub open spec fn rates(cn: ConstraintNetwork, d: Seq<DomainMask>, vars: Seq<usize>, clauses: Seq<Clause>, m: Measure, v: Seq<i128>) -> bool {
    &&& v.len() == clauses.len()
    &&& forall|k: int| 0 <= k < v.len() ==> reduces_by(cn, d, vars, #[trigger] clauses[k], m, v[k] as int)
}

/// The values that the first `k` clauses set, all together.
pub open spec fn literals_set(clauses: Seq<Clause>, k: int) -> nat
    decreases k,
{
    if k <= 0 {
        0
    } else {
        literals_set(clauses, k - 1) + bits::ones(clauses[k - 1].mask)
    }
}

/// `e` weighs the rule.
pub open spec fn evaluates(cn: ConstraintNetwork, d: Seq<DomainMask>, vars: Seq<usize>, clauses: Seq<Clause>, m: Measure, e: RuleEvaluationDiagnostics) -> bool {
    let total = literals_set(clauses, clauses.len() as int);
    &&& e.branches == clauses.len()
    &&& e.decision_literals as int == (if total <= usize::MAX {
        total as int
    } else {
        usize::MAX as int
    })
    &&& rates(cn, d, vars, clauses, m, e.branching_vector@)
}

/// One clause for each row, which sets all `width` variables.
pub open spec fn full_rule(rule: Seq<Clause>, width: int, f: Seq<u64>) -> bool {
    &&& rule.len() == f.len()
    &&& forall|k: int| 0 <= k < f.len() ==> (#[trigger] rule[k]).val == f[k]
    &&& forall|k: int, j: int| 0 <= k < f.len() && 0 <= j < 64 ==> #[trigger] bits::bit(rule[k].mask, j) == (j < width)
}

/// Both plain rules, weighed.
pub open spec fn replays(cn: ConstraintNetwork, d: Seq<DomainMask>, focus: usize, vars: Seq<usize>, f: Seq<u64>, m: Measure, s: SameStateReplayDiagnostics) -> bool {
    &&& evaluates(cn, d, seq![focus], seq![Clause { mask: 1, val: 0 }, Clause { mask: 1, val: 1 }], m, s.binary)
    &&& exists|rule: Seq<Clause>| #[trigger] full_rule(rule, vars.len() as int, f) && evaluates(cn, d, vars, rule, m, s.naive)
}

/// What is told of the rule `clauses` for the region `region` with the join `rel` and the
/// feasible rows `f`.
pub open spec fn describes(cn: ConstraintNetwork, d: Seq<DomainMask>, focus: usize, region: Region, rel: Relation, f: Seq<u64>, m: Measure, replay: bool, clauses: Option<Vec<Clause>>, x: RegionRuleDiagnostics) -> bool {
    let solved = f.len() > 0 && !is_shut(cn, d, region, rel);
    &&& x.focus_var == focus
    &&& x.region_tensors == region.tensors@.len()
    &&& x.region_variables == rel.vars@.len()
    &&& x.boundary_variables == rel.vars@.filter(|v: usize| live_outside(cn, d, region.tensors@, v)).len()
    &&& x.joined_rows == rel.rows@.len()
    &&& x.feasible_rows == f.len()
    &&& x.branching_rows == f.len()
    &&& x.closed == is_shut(cn, d, region, rel)
    &&& if solved {
        clauses is Some && rates(cn, d, rel.vars@, clauses->0@, m, x.branching_vector@)
    } else {
        x.branching_vector@.len() == 0
    }
    &&& x.cover_verified == (if replay && solved {
        Some(true)
    } else {
        None
    })
    &&& !solved ==> x.rule_solver_ns == 0
    &&& x.same_state_replay is Some <==> (replay && f.len() > 0)
    &&& x.same_state_replay matches Some(s) ==> replays(cn, d, focus, rel.vars@, f, m, s)
}

/// The result comes from a region grown around `focus`, and its diagnostics tell of it.
pub open spec fn diagnosed(cn: ConstraintNetwork, d: Seq<DomainMask>, focus: usize, max_rows: int, m: Measure, replay: bool, res: BranchingResult) -> bool {
    exists|region: Region, rel: Relation, f: Seq<u64>|
        {
            &&& #[trigger] region::grown(cn, d, true, focus, max_rows, region, rel)
            &&& #[trigger] lists_feasible(cn, d, rel, f)
            &&& region_rule(cn, d, region, rel, f, res)
            &&& res.diagnostics matches Some(x) ==> describes(cn, d, focus, region, rel, f, m, replay, res.clauses, x)
        }
}

/// An assignment keeps the number of domains.
proof fn lemma_assigned_len(d: Seq<DomainMask>, vars: Seq<usize>, mask: u64, val: u64, upto: int)
    requires
        upto <= vars.len(),
        forall|i: int| 0 <= i < vars.len() ==> (#[trigger] vars[i]) < d.len(),
    ensures
        ct::assigned(d, vars, mask, val, upto).len() == d.len(),
    decreases upto,
{
    if upto > 0 {
        lemma_assigned_len(d, vars, mask, val, upto - 1);
    }
}

/// What each clause takes off the measure of the problem.
fn rate_rule(problem: &RuleProblem, clauses: &Vec<Clause>, variables: &[usize], measure: Measure) -> (r: Vec<i128>)
    requires
        problem.wf(),
        variables@.len() <= 64,
        forall|i: int| 0 <= i < variables@.len() ==> (#[trigger] variables@[i]) < (*problem.cn).n(),
    ensures
        rates(*problem.cn, problem.doms@, variables@, clauses@, measure, r@),
{
    let before: u64 = measure::measure_core(&problem.cn, problem.doms.as_slice(), measure);
    let mut out: Vec<i128> = Vec::new();
    let mut i: usize = 0;
    while i < clauses.len()
        invariant
            problem.wf(),
            variables@.len() <= 64,
            forall|i: int| 0 <= i < variables@.len() ==> (#[trigger] variables@[i]) < (*problem.cn).n(),
            before as int == capped_measure(*problem.cn, problem.doms@, measure),
            i <= clauses@.len(),
            out@.len() == i,
            forall|k: int| 0 <= k < i ==> reduces_by(*problem.cn, problem.doms@, variables@, #[trigger] clauses@[k], measure, out@[k] as int),
        decreases clauses.len() - i,
    {
        let (sub, ok) = problem.apply_branch(&clauses[i], variables);
        proof {
            lemma_assigned_len(problem.doms@, variables@, clauses@[i as int].mask, clauses@[i as int].val, variables@.len() as int);
        }
        let after: u64 = measure::measure_core(&sub.cn, sub.doms.as_slice(), measure);
        out.push(before as i128 - after as i128);
        i += 1;
    }
    out
}

/// The rule, weighed.
fn summarize_rule(problem: &RuleProblem, clauses: &Vec<Clause>, variables: &[usize], measure: Measure) -> (r: RuleEvaluationDiagnostics)
    requires
        problem.wf(),
        variables@.len() <= 64,
        forall|i: int| 0 <= i < variables@.len() ==> (#[trigger] variables@[i]) < (*problem.cn).n(),
    ensures
        evaluates(*problem.cn, problem.doms@, variables@, clauses@, measure, r),
{
    let mut total: usize = 0;
    let mut i: usize = 0;
    while i < clauses.len()
        invariant
            i <= clauses@.len(),
            total as int == (if literals_set(clauses@, i as int) <= usize::MAX {
                literals_set(clauses@, i as int) as int
            } else {
                usize::MAX as int
            }),
        decreases clauses.len() - i,
    {
        total = total.saturating_add(clauses[i].mask.count_ones() as usize);
        i += 1;
    }
    let started = clock::watch(true);
    let branching_vector = rate_rule(problem, clauses, variables, measure);
    RuleEvaluationDiagnostics { branches: clauses.len(), decision_literals: total, branching_vector, solver_ns: clock::nanos(started) }
}

/// The two plain rules, weighed in the state of `problem`: both values of `focus`, and one
/// full assignment for each row.
fn replay_same_state(problem: &RuleProblem, feasible: &Vec<u64>, variables: &[usize], focus: usize, measure: Measure) -> (r: SameStateReplayDiagnostics)
    requires
        problem.wf(),
        0 < variables@.len() <= 64,
        forall|i: int| 0 <= i < variables@.len() ==> (#[trigger] variables@[i]) < (*problem.cn).n(),
        focus < (*problem.cn).n(),
    ensures
        replays(*problem.cn, problem.doms@, focus, variables@, feasible@, measure, r),
{
    let both: Vec<Clause> = vec![Clause::new(1, 0), Clause::new(1, 1)];
    let one: Vec<usize> = vec![focus];
    proof {
        assert(both@ =~= seq![Clause { mask: 1, val: 0 }, Clause { mask: 1, val: 1 }]);
        assert(one@ =~= seq![focus]);
    }
    let binary = summarize_rule(problem, &both, one.as_slice(), measure);
    let rule = naive_rule(feasible, variables.len());
    let naive = summarize_rule(problem, &rule, variables, measure);
    proof {
        assert(full_rule(rule@, variables@.len() as int, feasible@));
    }
    SameStateReplayDiagnostics { binary, naive }
}

/// A branching rule for `var_id`: grow its region, keep the rows that propagation does not
/// refute, and let `solver` propose clauses that cover them. A proposal that does not cover
/// them all, or sets nothing, is replaced by one clause for each row. A region that nothing
/// outside sees is settled by its first feasible row.
pub fn compute_branching_result<S: RuleSolver>(cn: &Arc<ConstraintNetwork>, doms: &mut Vec<DomainMask>, buffer: &mut SolverBuffer, var_id: usize, max_rows: usize, measure: Measure, solver: &S, masks: &Arc<Vec<TableMasks>>, tables: &mut Vec<RSparseBitSet>, log: &mut Trail, collect_diagnostics: bool, replay_diagnostics: bool) -> (r: BranchingResult)
    requires
        replay_diagnostics ==> collect_diagnostics,
        (**cn).wf(),
        ct::markable(**cn),
        ct::masks_ok(**cn, (**masks)@),
        ct::fixpoint(**cn, (old(doms)@, trail::frozen(old(tables)@))),
        old(buffer).clean(**cn),
        old(log).fits(trail::shape((old(doms)@, trail::frozen(old(tables)@)))),
        var_id < (**cn).n(),
        !old(doms)@[var_id as int].fixed(),
        exists|t: int| 0 <= t < (**cn).m() && (#[trigger] (**cn).axes(t)).contains(var_id) && !util::entailed(**cn, old(doms)@, t),
    ensures
        (final(doms)@, trail::frozen(final(tables)@)) == (old(doms)@, trail::frozen(old(tables)@)),
        ct::logged(*final(log), (final(doms)@, trail::frozen(final(tables)@)), *old(log), (old(doms)@, trail::frozen(old(tables)@))),
        final(buffer).clean(**cn),
        branching_ok(**cn, old(doms)@, var_id, max_rows as int, r),
        diagnosed(**cn, old(doms)@, var_id, max_rows as int, measure, replay_diagnostics, r),
        r.diagnostics is Some == collect_diagnostics,
        answered(*solver, *cn, *masks, old(doms)@, var_id, max_rows as int, measure, r),
{
    let ghost s0: State = (doms@, trail::frozen(tables@));
    let ghost net = shared(cn);
    let growing = clock::watch(collect_diagnostics);
    let (region, rel, closed) = region::grow_region_with_closure(cn, doms.as_slice(), var_id, max_rows, masks.as_slice());
    let region_growth_ns: u64 = clock::nanos(growing);
    proof {
        lemma_region_vars(net, s0.0, true, var_id, max_rows as int, region, rel);
    }
    let boundary: usize = if collect_diagnostics {
        live_boundary_vars(cn, &region, doms.as_slice(), masks.as_slice()).len()
    } else {
        0
    };
    let probing = clock::watch(collect_diagnostics);
    let found = propagate::feasible_configs(cn, doms, masks, tables, buffer, log, region.vars.as_slice(), rel.rows.as_slice());
    let feasibility_probe_ns: u64 = clock::nanos(probing);
    let ghost p = choose|p: Seq<u64>|
        {
            &&& p.to_multiset() == rel.rows@.to_multiset()
            &&& #[trigger] propagate::trie_sorted(p, propagate::open_positions(s0.0, region.vars@, region.vars@.len() as int))
            &&& found@ == p.filter(propagate::feasible_in(**cn, s0.0, region.vars@))
        };
    let ghost f0 = found@;
    let feasible = order::sort_dedup_rows(found);
    proof {
        lemma_feasible_list(net, s0.0, rel, p, f0, feasible@);
    }
    let width: usize = region.vars.len();
    let mut diagnostics = if collect_diagnostics {
        Some(
            RegionRuleDiagnostics {
                focus_var: var_id,
                region_tensors: region.tensors.len(),
                region_variables: width,
                boundary_variables: boundary,
                joined_rows: rel.rows.len(),
                feasible_rows: feasible.len(),
                branching_rows: feasible.len(),
                closed,
                branching_vector: Vec::new(),
                cover_verified: None,
                region_growth_ns,
                feasibility_probe_ns,
                rule_solver_ns: 0,
                same_state_replay: None,
            },
        )
    } else {
        None
    };
    let ghost kept = region;
    if feasible.len() == 0 {
        let res = BranchingResult { clauses: None, variables: region.vars, diagnostics };
        proof {
            assert(region_rule(net, s0.0, kept, rel, feasible@, res));
        }
        return res;
    }
    let problem = RuleProblem::new(cn.clone(), masks.clone(), adapter::copy_doms(doms));
    let replay = if replay_diagnostics {
        Some(replay_same_state(&problem, &feasible, region.vars.as_slice(), var_id, measure))
    } else {
        None
    };
    if closed {
        let full: u64 = bits::full_mask(width);
        let clauses: Vec<Clause> = vec![Clause::new(full, feasible[0])];
        if let Some(x) = diagnostics {
            diagnostics = Some(RegionRuleDiagnostics { same_state_replay: replay, ..x });
        }
        let res = BranchingResult { clauses: Some(clauses), variables: region.vars, diagnostics };
        proof {
            assert(region_rule(net, s0.0, kept, rel, feasible@, res));
        }
        return res;
    }
    let table = BranchingTable { bit_length: width, table: singleton_groups(&feasible) };
    let ids = region.vars.as_slice();
    let solving = clock::watch(collect_diagnostics);
    let proposal = solver.optimal_rule(&problem, &table, ids, measure);
    let rule_solver_ns: u64 = clock::nanos(solving);
    let ghost given = proposal;
    let clauses = adopt_rule(proposal, &feasible, width);
    proof {
        assert(adopted(given, width as int, feasible@, clauses@));
        assert(proposed(*solver, *cn, *masks, s0.0, rel.vars@, feasible@, measure, clauses@)) by {
            assert(call_ensures(S::optimal_rule, (solver, &problem, &table, ids, measure), given));
        }
    }
    if let Some(x) = diagnostics {
        let vector = rate_rule(&problem, &clauses, region.vars.as_slice(), measure);
        let verified = if replay_diagnostics {
            Some(true)
        } else {
            None
        };
        diagnostics = Some(RegionRuleDiagnostics { branching_vector: vector, cover_verified: verified, rule_solver_ns, same_state_replay: replay, ..x });
    }
    let res = BranchingResult { clauses: Some(clauses), variables: region.vars, diagnostics };
    proof {
        assert(region_rule(net, s0.0, kept, rel, feasible@, res));
    }
    res
}

/// The network behind a shared pointer.
pub open spec fn shared(cn: &Arc<ConstraintNetwork>) -> ConstraintNetwork {
    **cn
}

/// Each configuration as a group of its own.
fn singleton_groups(configs: &Vec<u64>) -> (r: Vec<Vec<u64>>)
    ensures
        r@.len() == configs@.len(),
        forall|k: int| 0 <= k < configs@.len() ==> (#[trigger] r@[k])@ == seq![configs@[k]],
{
    let mut out: Vec<Vec<u64>> = Vec::new();
    let mut i: usize = 0;
    while i < configs.len()
        invariant
            i <= configs@.len(),
            out@.len() == i,
            forall|k: int| 0 <= k < i ==> (#[trigger] out@[k])@ == seq![configs@[k]],
        decreases configs.len() - i,
    {
        let one: Vec<u64> = vec![configs[i]];
        assert(one@ =~= seq![configs@[i as int]]);
        out.push(one);
        i += 1;
    }
    out
}

/// The variables of a grown region: at most sixty-four, open, and among them the focus.
pub proof fn lemma_region_vars(cn: ConstraintNetwork, d: Seq<DomainMask>, live_only: bool, focus: usize, max_rows: int, region: Region, rel: Relation)
    requires
        cn.wf(),
        d.len() == cn.n(),
        region::grown(cn, d, live_only, focus, max_rows, region, rel),
    ensures
        0 < region.vars@.len() <= 64,
        forall|i: int| 0 <= i < region.vars@.len() ==> (#[trigger] region.vars@[i]) < cn.n() && !d[region.vars@[i] as int].fixed(),
        forall|k: int| 0 <= k < rel.rows@.len() ==> propagate::agrees_fixed(d, region.vars@, #[trigger] rel.rows@[k]),
{
    assert(region.vars@.contains(focus));
    assert forall|i: int| 0 <= i < region.vars@.len() implies (#[trigger] region.vars@[i]) < cn.n() && !d[region.vars@[i] as int].fixed() by {
        assert(rel.vars@.contains(region.vars@[i]));
        let k = choose|k: int| 0 <= k < region.tensors@.len() && cn.axes((#[trigger] region.tensors@[k]) as int).contains(region.vars@[i]);
        assert(cn.tensor_wf(region.tensors@[k] as int));
        let x = cn.axes(region.tensors@[k] as int).index_of(region.vars@[i]);
        assert(cn.axes(region.tensors@[k] as int)[x] < cn.n());
    }
}

/// The list of feasible rows, sorted.
pub proof fn lemma_feasible_list(cn: ConstraintNetwork, d: Seq<DomainMask>, rel: Relation, p: Seq<u64>, f0: Seq<u64>, f: Seq<u64>)
    requires
        p.to_multiset() == rel.rows@.to_multiset(),
        f0 == p.filter(propagate::feasible_in(cn, d, rel.vars@)),
        order::ascending64(f),
        forall|c: u64| #[trigger] f.contains(c) <==> f0.contains(c),
    ensures
        lists_feasible(cn, d, rel, f),
{
    broadcast use vstd::seq_lib::group_filter_ensures;

    let pred = propagate::feasible_in(cn, d, rel.vars@);
    order::lemma_permutation(p, rel.rows@);
    assert forall|c: u64| #[trigger] f.contains(c) <==> (rel.rows@.contains(c) && propagate::feasible(cn, d, rel.vars@, c)) by {
        if f.contains(c) {
            assert(f0.contains(c));
            let k = f0.index_of(c);
            assert(pred(p.filter(pred)[k]));
            propagate::lemma_filter_subset(p, pred, c);
            assert(rel.rows@.contains(c));
        }
        if rel.rows@.contains(c) && propagate::feasible(cn, d, rel.vars@, c) {
            assert(p.contains(c));
            let k = p.index_of(c);
            assert(pred(p[k]));
            assert(p.filter(pred).contains(p[k]));
        }
    }
}

/// An assignment with allowed values is its own fixing.
pub proof fn lemma_fix_same(cn: ConstraintNetwork, d: Seq<DomainMask>, a: Asg, t: int)
    requires
        cn.wf(),
        d.len() == cn.n(),
        0 <= t < cn.m(),
        models::consistent(d, a),
    ensures
        cn.holds(t, contract::fix(d, a)) <==> cn.holds(t, a),
{
    let b = contract::fix(d, a);
    assert(cn.tensor_wf(t));
    assert forall|i: int| 0 <= i < cn.axes(t).len() implies a((#[trigger] cn.axes(t)[i]) as int) == b(cn.axes(t)[i] as int) by {
        assert(cn.axes(t)[i] < cn.n());
        assert(d[cn.axes(t)[i] as int].allows(a(cn.axes(t)[i] as int)));
    }
    if cn.holds(t, a) {
        lemma_holds_on(cn, t, a, b);
    }
    if cn.holds(t, b) {
        lemma_holds_on(cn, t, b, a);
    }
}

/// A constraint depends on its own variables only.
pub proof fn lemma_holds_on(cn: ConstraintNetwork, t: int, a: Asg, b: Asg)
    requires
        forall|i: int| 0 <= i < cn.axes(t).len() ==> a((#[trigger] cn.axes(t)[i]) as int) == b(cn.axes(t)[i] as int),
        cn.holds(t, a),
    ensures
        cn.holds(t, b),
{
    let k = choose|k: int| 0 <= k < cn.rows(t).len() && network::agrees(cn.axes(t), #[trigger] cn.rows(t)[k] as u64, a);
    assert(network::agrees(cn.axes(t), cn.rows(t)[k] as u64, b)) by {
        assert forall|i: int| 0 <= i < cn.axes(t).len() implies bits::bit(cn.rows(t)[k] as u64, i) == b(#[trigger] cn.axes(t)[i] as int) by {
            assert(a(cn.axes(t)[i] as int) == b(cn.axes(t)[i] as int));
        }
    }
}

/// The row of a region that a model has: it is one of the join's, and feasible.
pub proof fn lemma_model_row(cn: ConstraintNetwork, d: Seq<DomainMask>, live_only: bool, focus: usize, tensors: Seq<usize>, rel: Relation, a: Asg) -> (c: u64)
    requires
        cn.wf(),
        d.len() == cn.n(),
        region::joined_region(cn, d, live_only, focus, tensors, rel),
        cn.model(a),
        models::consistent(d, a),
    ensures
        rel.rows@.contains(c),
        network::agrees(rel.vars@, c, a),
        propagate::feasible(cn, d, rel.vars@, c),
{
    assert(region::all_tensors_hold(cn, tensors, contract::fix(d, a))) by {
        assert forall|k: int| 0 <= k < tensors.len() implies cn.holds((#[trigger] tensors[k]) as int, contract::fix(d, a)) by {
            assert(cn.holds(tensors[k] as int, a));
            lemma_fix_same(cn, d, a, tensors[k] as int);
        }
    }
    assert(rel.holds(a));
    let k = choose|k: int| 0 <= k < rel.rows@.len() && network::agrees(rel.vars@, #[trigger] rel.rows@[k], a);
    let c = rel.rows@[k];
    let e = models::singletons(cn.n(), a);
    models::lemma_model_closed(cn, a);
    models::lemma_consistent_narrower(cn.n(), d, a);
    assert(propagate::pinned_to(e, rel.vars@, c)) by {
        assert forall|i: int| 0 <= i < rel.vars@.len() implies e[(#[trigger] rel.vars@[i]) as int] == DomainMask::only(bits::bit(c, i)) by {
            assert(rel.vars@.contains(rel.vars@[i]));
            let q = choose|q: int| 0 <= q < tensors.len() && cn.axes((#[trigger] tensors[q]) as int).contains(rel.vars@[i]);
            assert(cn.tensor_wf(tensors[q] as int));
            let x = cn.axes(tensors[q] as int).index_of(rel.vars@[i]);
            assert(cn.axes(tensors[q] as int)[x] < cn.n());
        }
    }
    c
}

/// Setting variables to values that an assignment has keeps the assignment.
pub proof fn lemma_assigned_consistent(d: Seq<DomainMask>, vars: Seq<usize>, mask: u64, val: u64, upto: int, a: Asg)
    requires
        0 <= upto <= vars.len() <= 64,
        forall|i: int| 0 <= i < vars.len() ==> (#[trigger] vars[i]) < d.len(),
        models::consistent(d, a),
        forall|i: int| 0 <= i < upto && bits::bit(mask, i) ==> bits::bit(val, i) == a((#[trigger] vars[i]) as int),
    ensures
        models::consistent(ct::assigned(d, vars, mask, val, upto), a),
        ct::assigned(d, vars, mask, val, upto).len() == d.len(),
    decreases upto,
{
    if upto > 0 {
        lemma_assigned_consistent(d, vars, mask, val, upto - 1, a);
        let e = ct::assigned(d, vars, mask, val, upto - 1);
        let v = vars[upto - 1] as int;
        assert(vars[upto - 1] < d.len());
        if bits::bit(mask, upto - 1) {
            assert(e[v].allows(a(v)));
            let f = e.update(v, ct::restricted(e[v], bits::bit(val, upto - 1)));
            assert forall|u: int| 0 <= u < f.len() implies f[u].allows(#[trigger] a(u)) by {
                assert(e[u].allows(a(u)));
            }
        }
    }
}

/// Some clause of the rule leaves a model whenever there is one.
pub open spec fn some_branch_satisfiable(cn: ConstraintNetwork, d: Seq<DomainMask>, vars: Seq<usize>, clauses: Seq<Clause>) -> bool {
    exists|k: int| 0 <= k < clauses.len() && models::satisfiable(cn, ct::assigned(d, vars, (#[trigger] clauses[k]).mask, clauses[k].val, vars.len() as int))
}

/// A rule from a region misses no answer: with a model there is a clause that leaves one, and
/// without any feasible row there is no model.
pub proof fn law_region_rule_is_complete(cn: ConstraintNetwork, d: Seq<DomainMask>, focus: usize, max_rows: int, res: BranchingResult)
    requires
        cn.wf(),
        ct::closed_under(cn, d),
        branching_ok(cn, d, focus, max_rows, res),
        models::satisfiable(cn, d),
    ensures
        res.clauses is Some,
        some_branch_satisfiable(cn, d, res.variables@, res.clauses->0@),
{
    let (region, rel, f) = choose|region: Region, rel: Relation, f: Seq<u64>|
        {
            &&& #[trigger] region::grown(cn, d, true, focus, max_rows, region, rel)
            &&& #[trigger] lists_feasible(cn, d, rel, f)
            &&& region_rule(cn, d, region, rel, f, res)
        };
    lemma_region_vars(cn, d, true, focus, max_rows, region, rel);
    let a = choose|a: Asg| #[trigger] cn.model(a) && models::consistent(d, a);
    let c = lemma_model_row(cn, d, true, focus, region.tensors@, rel, a);
    assert(f.contains(c));
    let clauses = res.clauses->0@;
    let vars = rel.vars@;
    if is_shut(cn, d, region, rel) {
        let c0 = f[0];
        assert(f.contains(c0));
        lemma_shut_overlay(cn, d, focus, region, rel, max_rows, a, c0);
        let b = contract::overlay(vars, c0, a);
        let cl = clauses[0];
        assert forall|i: int| 0 <= i < vars.len() && bits::bit(cl.mask, i) implies bits::bit(cl.val, i) == b((#[trigger] vars[i]) as int) by {
            contract::lemma_overlay(vars, c0, a);
        }
        lemma_assigned_consistent(d, vars, cl.mask, cl.val, vars.len() as int, b);
        assert(models::satisfiable(cn, ct::assigned(d, vars, clauses[0].mask, clauses[0].val, vars.len() as int)));
    } else {
        let q = f.index_of(c);
        assert(some_covers(clauses, f[q]));
        let k = choose|k: int| 0 <= k < clauses.len() && (#[trigger] clauses[k]).covers(c);
        let cl = clauses[k];
        assert forall|i: int| 0 <= i < vars.len() && bits::bit(cl.mask, i) implies bits::bit(cl.val, i) == a((#[trigger] vars[i]) as int) by {}
        lemma_assigned_consistent(d, vars, cl.mask, cl.val, vars.len() as int, a);
        assert(models::satisfiable(cn, ct::assigned(d, vars, clauses[k].mask, clauses[k].val, vars.len() as int)));
    }
}

/// In a region that nothing outside sees, a model can be given any of the join's rows.
proof fn lemma_shut_overlay(cn: ConstraintNetwork, d: Seq<DomainMask>, focus: usize, region: Region, rel: Relation, max_rows: int, a: Asg, c0: u64)
    requires
        cn.wf(),
        ct::closed_under(cn, d),
        region::grown(cn, d, true, focus, max_rows, region, rel),
        is_shut(cn, d, region, rel),
        cn.model(a),
        models::consistent(d, a),
        rel.rows@.contains(c0),
    ensures
        cn.model(contract::overlay(rel.vars@, c0, a)),
        models::consistent(d, contract::overlay(rel.vars@, c0, a)),
{
    let vars = rel.vars@;
    let b = contract::overlay(vars, c0, a);
    contract::lemma_overlay(vars, c0, a);
    lemma_region_vars(cn, d, true, focus, max_rows, region, rel);
    assert(models::consistent(d, b)) by {
        assert forall|v: int| 0 <= v < d.len() implies d[v].allows(#[trigger] b(v)) by {
            assert(d[v].allows(a(v)));
            if contract::lists(vars, v) {
                let i = choose|i: int| 0 <= i < vars.len() && (#[trigger] vars[i]) as int == v;
                assert(!d[vars[i] as int].fixed());
                assert(d[v].live());
            }
        }
    }
    let q = rel.rows@.index_of(c0);
    assert(network::agrees(vars, rel.rows@[q], b));
    assert(rel.holds(b));
    assert forall|t: int| 0 <= t < cn.m() implies #[trigger] cn.holds(t, b) by {
        assert(cn.tensor_wf(t));
        if contract::lists(region.tensors@, t) {
            let k = choose|k: int| 0 <= k < region.tensors@.len() && (#[trigger] region.tensors@[k]) as int == t;
            assert(region::all_tensors_hold(cn, region.tensors@, contract::fix(d, b)));
            assert(cn.holds(region.tensors@[k] as int, contract::fix(d, b)));
            lemma_fix_same(cn, d, b, t);
        } else if util::entailed(cn, d, t) {
            assert(util::keeps_fixed(d, b)) by {
                assert forall|v: int| 0 <= v < d.len() && (#[trigger] d[v]).fixed() implies b(v) == (d[v] == DomainMask::D1) by {
                    assert(d[v].allows(b(v)));
                }
            }
        } else {
            assert(!region::on_frontier(cn, d, true, region.tensors@, vars, t));
            assert forall|i: int| 0 <= i < cn.axes(t).len() implies a((#[trigger] cn.axes(t)[i]) as int) == b(cn.axes(t)[i] as int) by {
                let v = cn.axes(t)[i];
                if contract::lists(vars, v as int) {
                    let k = choose|k: int| 0 <= k < vars.len() && (#[trigger] vars[k]) as int == v;
                    assert(vars.contains(v));
                    assert(cn.axes(t).contains(v));
                }
            }
            assert(cn.holds(t, a));
            lemma_holds_on(cn, t, a, b);
        }
    }
}

} // verus!
