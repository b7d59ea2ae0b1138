//! The search state of a problem.
use vstd::prelude::*;

use std::sync::Arc;

use crate::bits;
use crate::ct;
use crate::ct::{RSparseBitSet, TableMasks};
use crate::domain::{Asg, DomainMask};
use crate::models;
use crate::network::ConstraintNetwork;
use crate::propagate;
use crate::selector;
use crate::trail;
use crate::trail::{State, Trail};
use crate::util;

verus! {

/// Counters of a search. They stop at the largest number instead of wrapping.
#[derive(Clone, Copy, Debug, PartialEq, Eq, Structural)]
pub struct Stats {
    pub branching_nodes: u64,
    pub total_potential_subproblems: u64,
    pub total_visited_nodes: u64,
    /// Nodes whose open variables fell into more than one component.
    pub component_splits: u64,
    /// Branches that regions were partitioned into.
    pub region_branches: u64,
    /// Feasible configurations of those regions.
    pub region_configs: u64,
}

/// All counters at zero.
pub open spec fn no_stats() -> Stats {
    Stats { branching_nodes: 0, total_potential_subproblems: 0, total_visited_nodes: 0, component_splits: 0, region_branches: 0, region_configs: 0 }
}

/// `x + y`, or the largest number.
pub open spec fn capped_sum(x: u64, y: u64) -> u64 {
    if x + y <= u64::MAX {
        (x + y) as u64
    } else {
        u64::MAX
    }
}

pub(crate) fn capped(x: u64, y: u64) -> (r: u64)
    ensures
        r == capped_sum(x, y),
{
    if x <= u64::MAX - y {
        x + y
    } else {
        u64::MAX
    }
}

impl Default for Stats {
    fn default() -> (r: Stats)
        ensures
            r == no_stats(),
    {
        Stats { branching_nodes: 0, total_potential_subproblems: 0, total_visited_nodes: 0, component_splits: 0, region_branches: 0, region_configs: 0 }
    }
}

impl Stats {
    /// All counters back to zero.
    pub fn reset(&mut self)
        ensures
            *final(self) == no_stats(),
    {
        *self = Stats::default();
    }

    /// One more branching node, with that many subproblems.
    pub fn record_branch(&mut self, subproblem_count: u64)
        ensures
            *final(self) == (Stats {
                branching_nodes: capped_sum(old(self).branching_nodes, 1),
                total_potential_subproblems: capped_sum(old(self).total_potential_subproblems, subproblem_count),
                ..*old(self)
            }),
    {
        self.branching_nodes = capped(self.branching_nodes, 1);
        self.total_potential_subproblems = capped(self.total_potential_subproblems, subproblem_count);
    }

    /// One more visited node.
    pub fn record_visit(&mut self)
        ensures
            *final(self) == (Stats { total_visited_nodes: capped_sum(old(self).total_visited_nodes, 1), ..*old(self) }),
    {
        self.total_visited_nodes = capped(self.total_visited_nodes, 1);
    }

    /// One more node whose open variables fell apart.
    pub fn record_split(&mut self)
        ensures
            *final(self) == (Stats { component_splits: capped_sum(old(self).component_splits, 1), ..*old(self) }),
    {
        self.component_splits = capped(self.component_splits, 1);
    }

    /// A region with that many feasible configurations became that many branches.
    pub fn record_region_partition(&mut self, branches: u64, configs: u64)
        ensures
            *final(self) == (Stats {
                region_branches: capped_sum(old(self).region_branches, branches),
                region_configs: capped_sum(old(self).region_configs, configs),
                ..*old(self)
            }),
    {
        self.region_branches = capped(self.region_branches, branches);
        self.region_configs = capped(self.region_configs, configs);
    }
}

/// Work lists of the propagation.
pub struct SolverBuffer {
    /// Constraints to look at again.
    pub queue: Vec<usize>,
    /// Whether each constraint is in the queue.
    pub in_queue: Vec<bool>,
    /// Scores of the variables.
    pub occurrence_scores: Vec<u64>,
    /// For each constraint, the axes whose domain changed since it was last looked at.
    pub dirty: Vec<u64>,
}

impl SolverBuffer {
    /// Sized for `cn`, with nothing queued.
    pub open spec fn clean(self, cn: ConstraintNetwork) -> bool {
        &&& self.sized(cn)
        &&& self.queue@.len() == 0
        &&& forall|t: int| 0 <= t < cn.m() ==> !#[trigger] self.in_queue@[t]
        &&& forall|t: int| 0 <= t < cn.m() ==> #[trigger] self.dirty@[t] == 0
    }

    /// Sized for `cn`.
    pub open spec fn sized(self, cn: ConstraintNetwork) -> bool {
        &&& self.in_queue@.len() == cn.m()
        &&& self.dirty@.len() == cn.m()
        &&& self.occurrence_scores@.len() == cn.n()
    }

    /// Empty work lists for `cn`.
    pub fn new(cn: &ConstraintNetwork) -> (r: SolverBuffer)
        ensures
            r.clean(*cn),
            forall|v: int| 0 <= v < cn.n() ==> #[trigger] r.occurrence_scores@[v] == 0,
    {
        let mut in_queue: Vec<bool> = Vec::new();
        let mut dirty: Vec<u64> = Vec::new();
        while in_queue.len() < cn.tensors.len()
            invariant
                in_queue@.len() <= cn.m(),
                dirty@.len() == in_queue@.len(),
                forall|t: int| 0 <= t < in_queue@.len() ==> !#[trigger] in_queue@[t],
                forall|t: int| 0 <= t < dirty@.len() ==> #[trigger] dirty@[t] == 0,
            decreases cn.tensors.len() - in_queue.len(),
        {
            in_queue.push(false);
            dirty.push(0);
        }
        let mut scores: Vec<u64> = Vec::new();
        while scores.len() < cn.vars.len()
            invariant
                scores@.len() <= cn.n(),
                forall|v: int| 0 <= v < scores@.len() ==> #[trigger] scores@[v] == 0,
            decreases cn.vars.len() - scores.len(),
        {
            scores.push(0);
        }
        SolverBuffer { queue: Vec::new(), in_queue, occurrence_scores: scores, dirty }
    }

    /// Empty the queue and clear its flags.
    pub fn reset_worklist(&mut self)
        ensures
            final(self).queue@.len() == 0,
            final(self).in_queue@.len() == old(self).in_queue@.len(),
            forall|t: int| 0 <= t < final(self).in_queue@.len() ==> !#[trigger] final(self).in_queue@[t],
            final(self).dirty == old(self).dirty,
            final(self).occurrence_scores == old(self).occurrence_scores,
    {
        self.queue.clear();
        let mut t: usize = 0;
        while t < self.in_queue.len()
            invariant
                t <= self.in_queue@.len() == old(self).in_queue@.len(),
                self.queue@.len() == 0,
                self.dirty == old(self).dirty,
                self.occurrence_scores == old(self).occurrence_scores,
                forall|u: int| 0 <= u < t ==> !#[trigger] self.in_queue@[u],
            decreases self.in_queue.len() - t,
        {
            self.in_queue.set(t, false);
            t += 1;
        }
    }
}

impl Default for SolverBuffer {
    fn default() -> (r: SolverBuffer)
        ensures
            r.queue@.len() == 0,
            r.in_queue@.len() == 0,
            r.occurrence_scores@.len() == 0,
            r.dirty@.len() == 0,
    {
        SolverBuffer { queue: Vec::new(), in_queue: Vec::new(), occurrence_scores: Vec::new(), dirty: Vec::new() }
    }
}

/// Whether some domain is empty.
pub fn has_contradiction(doms: &[DomainMask]) -> (r: bool)
    ensures
        r == (exists|v: int| 0 <= v < doms@.len() && #[trigger] doms@[v] == DomainMask::NONE),
{
    let mut v: usize = 0;
    while v < doms.len()
        invariant
            v <= doms@.len(),
            forall|u: int| 0 <= u < v ==> #[trigger] doms@[u] != DomainMask::NONE,
        decreases doms.len() - v,
    {
        if doms[v] == DomainMask::NONE {
            return true;
        }
        v += 1;
    }
    false
}

/// A network with the domains and live rows of a search.
pub struct TnProblem {
    pub static_cn: Arc<ConstraintNetwork>,
    pub doms: Vec<DomainMask>,
    pub tables: Vec<RSparseBitSet>,
    pub masks: Arc<Vec<TableMasks>>,
    pub trail: Trail,
    pub stats: Stats,
    pub buffer: SolverBuffer,
}

/// Domains that allow everything.
pub open spec fn top(n: int) -> Seq<DomainMask> {
    Seq::new(n as nat, |v: int| DomainMask::BOTH)
}

/// The variables that are probed: those that rank highest by occurrence.
pub open spec fn probed_pool(cn: ConstraintNetwork, d: Seq<DomainMask>, pool: Seq<usize>) -> bool {
    selector::top_ranked(cn, d, selector::all_ids(cn.n()), pool, selector::FAILED_LITERAL_POOL as int)
}

/// `e` is `d` with the failing values of the probed variables removed: none of their values
/// fails any more, and no more is removed than follows from deciding them.
pub open spec fn probed(cn: ConstraintNetwork, d: Seq<DomainMask>, e: Seq<DomainMask>) -> bool {
    exists|pool: Seq<usize>| #[trigger] probed_pool(cn, d, pool) && ct::narrower(e, d) && models::keeps_decided(cn, d, e, pool) && !propagate::failing(cn, e, pool)
}

/// What every node is brought to: no value that dominates is left open, and then no probed value
/// fails.
#[verifier::opaque]
pub open spec fn reduced(cn: ConstraintNetwork, e: Seq<DomainMask>) -> bool {
    exists|s: State| #[trigger] undominated(cn, s) && probed(cn, s.0, e)
}

/// The state is arc consistent, and no open variable has a value that dominates the other.
pub open spec fn undominated(cn: ConstraintNetwork, s: State) -> bool {
    &&& ct::fixpoint(cn, s)
    &&& forall|v: int, b: bool| 0 <= v < cn.n() && s.0[v] == DomainMask::BOTH ==> !#[trigger] propagate::dominated(cn, s, v, b)
}

impl TnProblem {
    /// The network.
    pub open spec fn cn(self) -> ConstraintNetwork {
        *self.static_cn
    }

    /// The domains and the live rows.
    pub open spec fn state(self) -> State {
        (self.doms@, trail::frozen(self.tables@))
    }

    /// An arc-consistent state of a well-formed network, with nothing queued.
    pub open spec fn wf(self) -> bool {
        &&& self.cn().wf()
        &&& ct::markable(self.cn())
        &&& ct::masks_ok(self.cn(), (*self.masks)@)
        &&& ct::fixpoint(self.cn(), self.state())
        &&& self.buffer.clean(self.cn())
        &&& self.trail.fits(trail::shape(self.state()))
    }

    /// The number of variables that are not fixed.
    pub fn count_unfixed(&self) -> (r: usize)
        ensures
            r == util::unfixed(self.doms@, self.doms@.len() as int),
    {
        util::count_unfixed(self.doms.as_slice())
    }

    /// Whether all variables are fixed.
    pub fn is_solved(&self) -> (r: bool)
        ensures
            r == models::all_fixed(self.doms@),
    {
        let c: usize = self.count_unfixed();
        proof {
            lemma_unfixed_zero(self.doms@, self.doms@.len() as int);
        }
        c == 0
    }

    /// Propagate at the root: None where that finds a contradiction.
    fn at_root(static_cn: ConstraintNetwork) -> (r: Option<TnProblem>)
        requires
            static_cn.wf(),
        ensures
            match r {
                Some(p) => {
                    &&& p.wf()
                    &&& p.cn() == static_cn
                    &&& ct::keeps_closed(static_cn, top(static_cn.n()), p.doms@)
                    &&& p.stats == no_stats()
                },
                None => forall|a: Asg| !#[trigger] static_cn.model(a),
            },
    {
        let n: usize = static_cn.vars.len();
        if n == 0 {
            let mut t: usize = 0;
            while t < static_cn.tensors.len()
                invariant
                    static_cn.wf(),
                    t <= static_cn.m(),
                    forall|s: int| 0 <= s < t ==> (#[trigger] static_cn.rows(s)).len() > 0,
                decreases static_cn.tensors.len() - t,
            {
                assert(static_cn.tensor_wf(t as int));
                if static_cn.support(&static_cn.tensors[t]).len() == 0 {
                    proof {
                        assert forall|a: Asg| !#[trigger] static_cn.model(a) by {
                            if static_cn.model(a) {
                                assert(static_cn.holds(t as int, a));
                            }
                        }
                    }
                    return None;
                }
                t += 1;
            }
        }
        let mut doms: Vec<DomainMask> = Vec::new();
        while doms.len() < n
            invariant
                doms@.len() <= n,
                forall|v: int| 0 <= v < doms@.len() ==> #[trigger] doms@[v] == DomainMask::BOTH,
            decreases n - doms.len(),
        {
            doms.push(DomainMask::BOTH);
        }
        let mut buffer = SolverBuffer::new(&static_cn);
        let (masks, mut tables) = ct::build_tables(&static_cn);
        let mut t: usize = 0;
        while t < static_cn.tensors.len()
            invariant
                t <= static_cn.m(),
                buffer.sized(static_cn),
                buffer.queue@.len() == t,
                forall|i: int| 0 <= i < t ==> #[trigger] buffer.queue@[i] == i,
                forall|s: int| 0 <= s < static_cn.m() ==> #[trigger] buffer.in_queue@[s] == (s < t),
                forall|s: int| 0 <= s < static_cn.m() ==> #[trigger] buffer.dirty@[s] == 0,
            decreases static_cn.tensors.len() - t,
        {
            buffer.queue.push(t);
            buffer.in_queue.set(t, true);
            t += 1;
        }
        let mut log = Trail::new();
        log.open();
        let ghost s0: State = (doms@, trail::frozen(tables@));
        proof {
            lemma_root_pending(static_cn, s0, buffer);
            assert(doms@ =~= top(static_cn.n()));
        }
        let ok = ct::ct_propagate(&static_cn, &mut doms, &masks, &mut tables, &mut buffer, &mut log);
        if !ok {
            proof {
                models::lemma_refuted_unsat(static_cn, s0.0);
                assert forall|a: Asg| !#[trigger] static_cn.model(a) by {
                    if static_cn.model(a) {
                        assert(models::consistent(s0.0, a));
                    }
                }
            }
            return None;
        }
        log.clear();
        Some(
            TnProblem {
                static_cn: Arc::new(static_cn),
                doms,
                tables,
                masks: Arc::new(masks),
                trail: log,
                stats: Stats::default(),
                buffer,
            },
        )
    }

    /// A problem propagated at the root, without any other reduction.
    pub fn from_network_gac(static_cn: ConstraintNetwork) -> (r: Result<TnProblem, &'static str>)
        requires
            static_cn.wf(),
        ensures
            match r {
                Ok(p) => {
                    &&& p.wf()
                    &&& p.cn() == static_cn
                    &&& ct::keeps_closed(static_cn, top(static_cn.n()), p.doms@)
                },
                Err(_) => forall|a: Asg| !#[trigger] static_cn.model(a),
            },
    {
        match TnProblem::at_root(static_cn) {
            Some(p) => Ok(p),
            None => Err("initial propagation found a contradiction"),
        }
    }

    /// A problem propagated and probed at the root. No model is lost.
    pub fn from_network_counting(static_cn: ConstraintNetwork) -> (r: Result<TnProblem, &'static str>)
        requires
            static_cn.wf(),
        ensures
            match r {
                Ok(p) => {
                    &&& p.wf()
                    &&& p.cn() == static_cn
                    &&& models::keeps_models(static_cn, top(static_cn.n()), p.doms@)
                    &&& exists|d: Seq<DomainMask>| #[trigger] ct::closed_under(static_cn, d) && ct::keeps_closed(static_cn, top(static_cn.n()), d) && probed(static_cn, d, p.doms@)
                },
                Err(_) => forall|a: Asg| !#[trigger] static_cn.model(a),
            },
    {
        match TnProblem::at_root(static_cn) {
            None => Err("initial propagation found a contradiction"),
            Some(mut p) => {
                let ghost d0 = p.doms@;
                proof {
                    models::lemma_keeps_models(static_cn, top(static_cn.n()), d0);
                }
                if p.probe_pool() {
                    Ok(p)
                } else {
                    proof {
                        assert forall|a: Asg| !#[trigger] static_cn.model(a) by {
                            if static_cn.model(a) {
                                assert(models::consistent(top(static_cn.n()), a));
                                assert(models::consistent(d0, a));
                                assert(models::satisfiable(static_cn, d0));
                            }
                        }
                    }
                    Err("initial propagation found a contradiction")
                }
            },
        }
    }

    /// A problem propagated at the root, with dominated variables fixed and failing values
    /// removed. A model is left whenever there is one.
    pub fn from_network(static_cn: ConstraintNetwork) -> (r: Result<TnProblem, &'static str>)
        requires
            static_cn.wf(),
        ensures
            match r {
                Ok(p) => {
                    &&& p.wf()
                    &&& p.cn() == static_cn
                    &&& models::carries(static_cn, top(static_cn.n()), p.doms@, Seq::empty())
                    &&& exists|s: State| #[trigger] undominated(static_cn, s) && models::carries(static_cn, top(static_cn.n()), s.0, Seq::empty()) && probed(static_cn, s.0, p.doms@)
                },
                Err(_) => forall|a: Asg| !#[trigger] static_cn.model(a),
            },
    {
        match TnProblem::at_root(static_cn) {
            None => Err("initial propagation found a contradiction"),
            Some(mut p) => {
                let ghost d0 = p.doms@;
                proof {
                    models::lemma_keeps_models(static_cn, top(static_cn.n()), d0);
                    models::lemma_keeps_carries(static_cn, top(static_cn.n()), d0, Seq::empty());
                }
                let ok = propagate::dominate_fixpoint(&p.static_cn, &mut p.doms, &p.masks, &mut p.tables, &mut p.buffer, &mut p.trail);
                proof {
                    if !ok {
                        assert forall|a: Asg| !#[trigger] static_cn.model(a) by {
                            if static_cn.model(a) {
                                assert(models::consistent(top(static_cn.n()), a));
                                assert(models::consistent(d0, a));
                                assert(models::satisfiable(static_cn, d0));
                            }
                        }
                    }
                }
                if !ok {
                    return Err("initial propagation found a contradiction");
                }
                let ghost d1 = p.doms@;
                proof {
                    assert(undominated(static_cn, p.state()));
                    models::lemma_carries_trans(static_cn, top(static_cn.n()), d0, d1, Seq::empty(), Seq::empty(), Seq::empty());
                }
                if p.probe_pool() {
                    proof {
                        models::lemma_keeps_carries(static_cn, d1, p.doms@, Seq::empty());
                        models::lemma_carries_trans(static_cn, top(static_cn.n()), d1, p.doms@, Seq::empty(), Seq::empty(), Seq::empty());
                    }
                    p.trail.clear();
                    Ok(p)
                } else {
                    proof {
                        assert forall|a: Asg| !#[trigger] static_cn.model(a) by {
                            if static_cn.model(a) {
                                assert(models::consistent(top(static_cn.n()), a));
                                assert(models::satisfiable(static_cn, top(static_cn.n())));
                                models::lemma_carries_satisfiable(static_cn, top(static_cn.n()), d1);
                            }
                        }
                    }
                    Err("initial propagation found a contradiction")
                }
            },
        }
    }

    /// Remove the failing values of the highest-scored variables: afterwards none of their
    /// values fails. False where no choice of their values is left.
    fn probe_pool(&mut self) -> (r: bool)
        requires
            old(self).wf(),
        ensures
            r ==> {
                &&& final(self).wf()
                &&& final(self).static_cn == old(self).static_cn
                &&& final(self).stats == old(self).stats
                &&& ct::narrower(final(self).doms@, old(self).doms@)
                &&& models::keeps_models(old(self).cn(), old(self).doms@, final(self).doms@)
            },
            !r ==> !models::satisfiable(old(self).cn(), old(self).doms@),
            selector::scored(old(self).cn(), old(self).doms@, final(self).buffer.occurrence_scores@),
            if r {
                probed(old(self).cn(), old(self).doms@, final(self).doms@)
            } else {
                exists|pool: Seq<usize>| #[trigger] probed_pool(old(self).cn(), old(self).doms@, pool) && models::undecidable(old(self).cn(), old(self).doms@, pool)
            },
    {
        let ghost d0 = self.doms@;
        let pool = selector::occurrence_pool(&self.static_cn, self.doms.as_slice(), &mut self.buffer, self.masks.as_slice(), selector::FAILED_LITERAL_POOL);
        proof {
            assert forall|i: int| 0 <= i < pool@.len() implies (#[trigger] pool@[i]) < self.cn().n() by {
                selector::lemma_ranked_ids(self.cn(), d0, selector::all_ids(self.cn().n()), pool@, selector::FAILED_LITERAL_POOL as int);
                assert(selector::all_ids(self.cn().n()).contains(pool@[i]));
            }
        }
        let ok = propagate::failed_literal_fixpoint(&self.static_cn, &mut self.doms, &self.masks, &mut self.tables, &mut self.buffer, &mut self.trail, pool.as_slice());
        proof {
            models::lemma_decided_models(self.cn(), d0, self.doms@, pool@);
            assert(probed_pool(self.cn(), d0, pool@));
        }
        self.trail.clear();
        ok
    }
}

proof fn lemma_unfixed_zero(d: Seq<DomainMask>, n: int)
    requires
        0 <= n <= d.len(),
    ensures
        util::unfixed(d, n) == 0 <==> (forall|v: int| 0 <= v < n ==> (#[trigger] d[v]).fixed()),
    decreases n,
{
    if n > 0 {
        lemma_unfixed_zero(d, n - 1);
        if forall|v: int| 0 <= v < n ==> (#[trigger] d[v]).fixed() {
            assert(d[n - 1].fixed());
        }
        if util::unfixed(d, n) == 0 {
            assert forall|v: int| 0 <= v < n implies (#[trigger] d[v]).fixed() by {
                if v < n - 1 {
                    assert(util::unfixed(d, n - 1) == 0);
                }
            }
        }
    }
}

/// With all constraints queued and all rows live, everything is still to be looked at.
proof fn lemma_root_pending(cn: ConstraintNetwork, s: State, b: SolverBuffer)
    requires
        cn.wf(),
        s.0.len() == cn.n(),
        forall|v: int| 0 <= v < cn.n() ==> #[trigger] s.0[v] == DomainMask::BOTH,
        s.1.len() == cn.m(),
        forall|t: int| 0 <= t < cn.m() ==> ct::table_wf(cn, t, #[trigger] s.1[t]),
        forall|t: int, q: int| 0 <= t < cn.m() && 0 <= q < cn.rows(t).len() ==> #[trigger] ct::row_live(s.1[t], q),
        b.sized(cn),
        b.queue@.len() == cn.m(),
        forall|i: int| 0 <= i < cn.m() ==> #[trigger] b.queue@[i] == i,
        forall|t: int| 0 <= t < cn.m() ==> #[trigger] b.in_queue@[t],
    ensures
        ct::pending(cn, s, b, -1),
        ct::queue_ok(b, 0, cn.m()),
{
    assert forall|t: int, r: int, j: int|
        0 <= t < cn.m() && 0 <= r < cn.rows(t).len() && 0 <= j < cn.axes(t).len() && #[trigger] ct::row_live(s.1[t], r) && !#[trigger] bits::bit(b.dirty@[t], j)
            implies s.0[cn.axes(t)[j] as int].allows(bits::bit(cn.rows(t)[r] as u64, j)) by {
        assert(cn.tensor_wf(t));
        assert(cn.axes(t)[j] < cn.n());
    }
    assert forall|t: int| 0 <= t < cn.m() && #[trigger] b.in_queue@[t] implies ct::queued(b.queue@, 0, t) by {
        assert(b.queue@[t] == t);
    }
}

} // verus!
