//! Branch-and-reduce search for a model.
use vstd::prelude::*;

use std::sync::Arc;

use crate::adapter;
use crate::adapter::RuleSolver;
use crate::bits;
use crate::canonicalize;
use crate::components;
use crate::contract;
use crate::ct;
use crate::ct::{RSparseBitSet, TableMasks};
use crate::domain::{Asg, DomainMask};
use crate::measure::Measure;
use crate::models;
use crate::network;
use crate::network::ConstraintNetwork;
use crate::problem;
use crate::problem::{SolverBuffer, Stats, TnProblem};
use crate::propagate;
use crate::searchtree;
use crate::searchtree::{Plan, Search};
use crate::selector;
use crate::selector::Selector;
use crate::table;
use crate::trail;
use crate::trail::{State, Trail};
use crate::util;

pub use crate::components::split_components;
pub use crate::counting::{bbcount, CountBranch, CountSolve};
pub use crate::countve::count_with_ve;

verus! {

/// The outcome of a search: whether there is a model, the domains of one, and the counters.
pub struct Solve {
    pub found: bool,
    pub solution: Vec<DomainMask>,
    pub stats: Stats,
}

/// What a search is run with.
pub struct SearchCtx<'a, S> {
    pub cn: &'a Arc<ConstraintNetwork>,
    pub masks: &'a Arc<Vec<TableMasks>>,
    pub selector: Selector,
    pub measure: Measure,
    pub solver: &'a S,
}

impl<'a, S> SearchCtx<'a, S> {
    /// The network.
    pub open spec fn net(self) -> ConstraintNetwork {
        **self.cn
    }

    /// What the search is run on and with.
    pub open spec fn plan(self) -> Plan {
        Plan { net: *self.cn, masks: *self.masks, selector: self.selector, measure: self.measure }
    }

    /// A well-formed network with its row masks.
    pub open spec fn ok(self) -> bool {
        &&& self.net().wf()
        &&& ct::markable(self.net())
        &&& ct::masks_ok(self.net(), (**self.masks)@)
    }
}

/// An arc-consistent state with nothing queued.
pub open spec fn at_rest(cn: ConstraintNetwork, s: State, buffer: SolverBuffer, log: Trail) -> bool {
    &&& ct::fixpoint(cn, s)
    &&& buffer.clean(cn)
    &&& log.fits(trail::shape(s))
}

/// A list of ids that constraints which are not entailed do not lead out of.
pub open spec fn secluded(cn: ConstraintNetwork, d: Seq<DomainMask>, scope: Seq<usize>) -> bool {
    &&& forall|i: int| 0 <= i < scope.len() ==> (#[trigger] scope[i]) < cn.n()
    &&& components::sealed(cn, d, components::live_flags(cn, d), components::members(scope))
}

/// The counters of visits stay within the counters of subproblems.
pub open spec fn tallies(was: Stats, now: Stats) -> bool {
    &&& now.total_potential_subproblems >= was.total_potential_subproblems
    &&& now.total_potential_subproblems == u64::MAX || now.total_potential_subproblems - now.total_visited_nodes >= was.total_potential_subproblems - was.total_visited_nodes
}

/// How a search on `scope` ends: either there is no model, or `scope` is decided and no model
/// that agrees on it was lost.
pub open spec fn settles(cn: ConstraintNetwork, d0: Seq<DomainMask>, d: Seq<DomainMask>, scope: Seq<usize>, found: bool) -> bool {
    &&& !found ==> !models::satisfiable(cn, d0)
    &&& found ==> models::decided_on(d, scope) && models::carries(cn, d0, d, scope)
}

/// A set that is secluded stays so as domains narrow.
pub proof fn lemma_secluded_later(cn: ConstraintNetwork, d: Seq<DomainMask>, e: Seq<DomainMask>, scope: Seq<usize>)
    requires
        cn.wf(),
        d.len() == cn.n(),
        secluded(cn, d, scope),
        ct::narrower(e, d),
        propagate::all_live(e),
    ensures
        secluded(cn, e, scope),
{
    lemma_fixed_stays(d, e);
    let live = components::live_flags(cn, d);
    let later = components::live_flags(cn, e);
    assert forall|t: int| 0 <= t < cn.m() && #[trigger] later[t] implies live[t] by {
        if !live[t] {
            util::law_entailment_is_monotone(cn, d, e, t);
        }
    }
    components::lemma_sealed_later(cn, d, live, e, later, components::members(scope));
}

/// A fixed domain does not change as domains narrow without becoming empty.
pub proof fn lemma_fixed_stays(d: Seq<DomainMask>, e: Seq<DomainMask>)
    requires
        ct::narrower(e, d),
        propagate::all_live(e),
    ensures
        forall|v: int| 0 <= v < d.len() && (#[trigger] d[v]).fixed() ==> e[v] == d[v],
        forall|v: int| 0 <= v < d.len() && !(#[trigger] e[v]).fixed() ==> !d[v].fixed(),
{
    assert forall|v: int| 0 <= v < d.len() && (#[trigger] d[v]).fixed() implies e[v] == d[v] by {
        assert(e[v].live());
        assert(e[v].allows(true) ==> d[v].allows(true));
        assert(e[v].allows(false) ==> d[v].allows(false));
    }
}

/// The values of `d` on `scope`, those of `a` elsewhere.
pub open spec fn patched(d: Seq<DomainMask>, scope: Seq<usize>, a: Asg) -> Asg {
    |v: int| if contract::lists(scope, v) {
        canonicalize::decided(d)(v)
    } else {
        a(v)
    }
}

/// A secluded set that was decided: its values fit any model.
proof fn lemma_patched(cn: ConstraintNetwork, d: Seq<DomainMask>, e: Seq<DomainMask>, scope: Seq<usize>, a: Asg)
    requires
        cn.wf(),
        ct::closed_under(cn, d),
        ct::closed_under(cn, e),
        ct::narrower(e, d),
        secluded(cn, d, scope),
        models::decided_on(e, scope),
        cn.model(a),
        models::consistent(d, a),
    ensures
        cn.model(patched(e, scope, a)),
        models::consistent(d, patched(e, scope, a)),
        models::allows_on(e, scope, patched(e, scope, a)),
{
    let h = patched(e, scope, a);
    let live = components::live_flags(cn, d);
    assert(propagate::all_live(e));
    lemma_fixed_stays(d, e);
    assert forall|v: int| contract::lists(scope, v) implies e[v].fixed() && e[v].allows(#[trigger] h(v)) && 0 <= v < cn.n() by {
        let i = choose|i: int| 0 <= i < scope.len() && (#[trigger] scope[i]) as int == v;
        assert(e[scope[i] as int].fixed());
    }
    assert forall|v: int| 0 <= v < d.len() implies d[v].allows(#[trigger] h(v)) by {
        if contract::lists(scope, v) {
            assert(e[v].allows(h(v)));
        } else {
            assert(d[v].allows(a(v)));
        }
    }
    assert(models::allows_on(e, scope, h)) by {
        assert forall|i: int| 0 <= i < scope.len() implies e[(#[trigger] scope[i]) as int].allows(h(scope[i] as int)) by {
            assert(contract::lists(scope, scope[i] as int));
        }
    }
    assert(util::keeps_fixed(d, h)) by {
        assert forall|v: int| 0 <= v < d.len() && (#[trigger] d[v]).fixed() implies h(v) == (d[v] == DomainMask::D1) by {
            assert(d[v].allows(h(v)));
        }
    }
    assert forall|t: int| 0 <= t < cn.m() implies #[trigger] cn.holds(t, h) by {
        assert(cn.tensor_wf(t));
        if util::entailed(cn, d, t) {
        } else if exists|i: int| 0 <= i < cn.axes(t).len() && !d[(#[trigger] cn.axes(t)[i]) as int].fixed() && contract::lists(scope, cn.axes(t)[i] as int) {
            let i = choose|i: int| 0 <= i < cn.axes(t).len() && !d[(#[trigger] cn.axes(t)[i]) as int].fixed() && contract::lists(scope, cn.axes(t)[i] as int);
            assert(live[t]);
            assert(components::members(scope)(cn.axes(t)[i] as int));
            assert(ct::consistent_at(cn, e, t));
            let r = choose|r: int| 0 <= r < cn.rows(t).len() && ct::admits(e, cn.axes(t), #[trigger] cn.rows(t)[r] as u64);
            assert(network::agrees(cn.axes(t), cn.rows(t)[r] as u64, h)) by {
                assert forall|j: int| 0 <= j < cn.axes(t).len() implies bits::bit(cn.rows(t)[r] as u64, j) == h(#[trigger] cn.axes(t)[j] as int) by {
                    let v = cn.axes(t)[j] as int;
                    assert(cn.axes(t)[j] < cn.n());
                    assert(e[v].allows(bits::bit(cn.rows(t)[r] as u64, j)));
                    if d[v].fixed() {
                        assert(e[v] == d[v]);
                        assert(d[v].allows(h(v)));
                    } else {
                        assert(components::members(scope)(cn.axes(t)[j] as int));
                        assert(contract::lists(scope, v));
                        assert(e[v].fixed() && e[v].allows(h(v)));
                    }
                }
            }
        } else {
            assert forall|i: int| 0 <= i < cn.axes(t).len() implies a((#[trigger] cn.axes(t)[i]) as int) == h(cn.axes(t)[i] as int) by {
                let v = cn.axes(t)[i] as int;
                assert(cn.axes(t)[i] < cn.n());
                assert(d[v].allows(a(v)));
                if d[v].fixed() {
                    assert(d[v].allows(h(v)));
                }
            }
            assert(cn.holds(t, a));
            table::lemma_holds_on(cn, t, a, h);
        }
    }
}

/// Deciding a secluded set does not lose satisfiability.
pub proof fn lemma_decided_keeps(cn: ConstraintNetwork, d: Seq<DomainMask>, e: Seq<DomainMask>, scope: Seq<usize>)
    requires
        cn.wf(),
        ct::closed_under(cn, d),
        ct::closed_under(cn, e),
        ct::narrower(e, d),
        secluded(cn, d, scope),
        models::decided_on(e, scope),
        models::carries(cn, d, e, scope),
        models::satisfiable(cn, d),
    ensures
        models::satisfiable(cn, e),
{
    let a = choose|a: Asg| #[trigger] cn.model(a) && models::consistent(d, a);
    lemma_patched(cn, d, e, scope, a);
    assert(models::carried(cn, e, patched(e, scope, a)));
}

/// Setting variables keeps the models that agree with it.
proof fn lemma_assigned_carries(cn: ConstraintNetwork, d: Seq<DomainMask>, vars: Seq<usize>, mask: u64, val: u64)
    requires
        d.len() == cn.n(),
        vars.len() <= 64,
        forall|i: int| 0 <= i < vars.len() ==> (#[trigger] vars[i]) < cn.n(),
    ensures
        models::carries(cn, d, ct::assigned(d, vars, mask, val, vars.len() as int), vars),
{
    let e = ct::assigned(d, vars, mask, val, vars.len() as int);
    assert forall|h: Asg| #[trigger] cn.model(h) && models::consistent(d, h) && models::allows_on(e, vars, h) implies models::carried(cn, e, h) by {
        lemma_assigned_elsewhere(d, vars, mask, val, vars.len() as int);
        assert forall|v: int| 0 <= v < e.len() implies e[v].allows(#[trigger] h(v)) by {
            if contract::lists(vars, v) {
                let i = choose|i: int| 0 <= i < vars.len() && (#[trigger] vars[i]) as int == v;
                assert(e[vars[i] as int].allows(h(vars[i] as int)));
            } else {
                assert(d[v].allows(h(v)));
            }
        }
        assert(models::consistent(e, h));
        assert(models::keeps_where(e, h, h));
    }
}

pub proof fn lemma_assigned_elsewhere(d: Seq<DomainMask>, vars: Seq<usize>, mask: u64, val: u64, upto: int)
    requires
        0 <= upto <= vars.len(),
        forall|i: int| 0 <= i < vars.len() ==> (#[trigger] vars[i]) < d.len(),
    ensures
        ct::assigned(d, vars, mask, val, upto).len() == d.len(),
        forall|v: int| 0 <= v < d.len() && !contract::lists(vars, v) ==> #[trigger] ct::assigned(d, vars, mask, val, upto)[v] == d[v],
    decreases upto,
{
    if upto > 0 {
        lemma_assigned_elsewhere(d, vars, mask, val, upto - 1);
        assert(vars[upto - 1] < d.len());
        assert(contract::lists(vars, vars[upto - 1] as int));
    }
}

/// Setting an open variable leaves fewer open ones.
pub proof fn lemma_assigned_less(d: Seq<DomainMask>, e: Seq<DomainMask>, vars: Seq<usize>, mask: u64, val: u64)
    requires
        propagate::all_live(d),
        vars.len() <= 64,
        forall|i: int| 0 <= i < vars.len() ==> (#[trigger] vars[i]) < d.len() && !d[vars[i] as int].fixed(),
        exists|i: int| 0 <= i < vars.len() && #[trigger] bits::bit(mask, i),
        ct::narrower(e, ct::assigned(d, vars, mask, val, vars.len() as int)),
        ct::narrower(e, d),
    ensures
        ct::both_count(e, d.len() as int) < ct::both_count(d, d.len() as int),
{
    let i = choose|i: int| 0 <= i < vars.len() && #[trigger] bits::bit(mask, i);
    let v = vars[i] as int;
    assert(vars[i] < d.len());
    lemma_assigned_narrow(d, vars, mask, val, vars.len() as int, i);
    let a = ct::assigned(d, vars, mask, val, vars.len() as int);
    assert(a[v] != DomainMask::BOTH);
    assert(e[v] != DomainMask::BOTH) by {
        if e[v] == DomainMask::BOTH {
            assert(e[v].allows(true) && e[v].allows(false));
        }
    }
    assert(d[v].live());
    let m = d.update(v, e[v]);
    ct::lemma_both_less(d, m, v, d.len() as int);
    assert(ct::narrower(e, m)) by {
        assert forall|u: int, b: bool| 0 <= u < m.len() && (#[trigger] e[u].allows(b)) implies m[u].allows(b) by {}
    }
    propagate::lemma_both_narrower(e, m, d.len() as int);
}

proof fn lemma_assigned_narrow(d: Seq<DomainMask>, vars: Seq<usize>, mask: u64, val: u64, upto: int, i: int)
    requires
        0 <= i < upto <= vars.len(),
        forall|i: int| 0 <= i < vars.len() ==> (#[trigger] vars[i]) < d.len(),
        bits::bit(mask, i),
    ensures
        ct::assigned(d, vars, mask, val, upto).len() == d.len(),
        ct::assigned(d, vars, mask, val, upto)[vars[i] as int] != DomainMask::BOTH,
    decreases upto,
{
    lemma_assigned_elsewhere(d, vars, mask, val, upto - 1);
    assert(vars[i] < d.len());
    assert(vars[upto - 1] < d.len());
    if i < upto - 1 {
        lemma_assigned_narrow(d, vars, mask, val, upto - 1, i);
    }
}

/// A search on a problem.
pub open spec fn search_plan(p: TnProblem, selector: Selector, measure: Measure) -> Plan {
    Plan { net: p.static_cn, masks: p.masks, selector, measure }
}

/// Find a model within the domains of the problem, or show that there is none.
///
/// With a model the domains are left at it; without one they are as before.
#[verifier::rlimit(40)]
pub fn bbsat<S: RuleSolver>(problem: &mut TnProblem, selector: Selector, measure: Measure, solver: &S) -> (r: Solve)
    requires
        old(problem).wf(),
    ensures
        final(problem).wf(),
        final(problem).static_cn == old(problem).static_cn,
        final(problem).masks == old(problem).masks,
        r.found == models::satisfiable(old(problem).cn(), old(problem).doms@),
        r.found ==> {
            &&& r.solution@ == final(problem).doms@
            &&& models::all_fixed(r.solution@)
            &&& old(problem).cn().model(canonicalize::decided(r.solution@))
            &&& models::consistent(old(problem).doms@, canonicalize::decided(r.solution@))
        },
        !r.found ==> r.solution@.len() == 0 && final(problem).state() == old(problem).state(),
        r.stats == final(problem).stats,
        r.stats.total_visited_nodes <= r.stats.total_potential_subproblems,
        searchtree::of_search(search_plan(*old(problem), selector, measure), *solver, old(problem).doms@, r.found, r.stats),
{
    problem.stats.reset();
    let cn = problem.static_cn.clone();
    let masks = problem.masks.clone();
    let ctx = SearchCtx { cn: &cn, masks: &masks, selector, measure, solver };
    let ghost net = problem.cn();
    let ghost s0 = problem.state();
    let ghost l0 = problem.trail;
    let scope = open_ids(problem.doms.as_slice());
    proof {
        assert(secluded(net, s0.0, scope@)) by {
            components::lemma_members(scope@);
            let live = components::live_flags(net, s0.0);
            assert forall|t: int, i: int, j: int|
                0 <= t < net.m() && live[t] && 0 <= i < net.axes(t).len() && 0 <= j < net.axes(t).len() && !s0.0[(#[trigger] net.axes(t)[i]) as int].fixed() && !s0.0[(
                #[trigger] net.axes(t)[j]) as int].fixed() && components::members(scope@)(net.axes(t)[i] as int) implies components::members(scope@)(net.axes(t)[j] as int) by {
                assert(net.tensor_wf(t));
                assert(net.axes(t)[j] < net.n());
                assert(scope@.contains(net.axes(t)[j]));
            }
        }
    }
    let mut tree: Ghost<Search> = Ghost(Search::Refuted);
    let mark: usize = problem.trail.mark();
    let found = bbsat_rec(&ctx, &mut problem.stats, &mut problem.buffer, &mut problem.doms, &mut problem.tables, &mut problem.trail, scope.as_slice(), &mut tree);
    let ghost l1 = problem.trail;
    let ghost s1 = problem.state();
    let mut solution: Vec<DomainMask> = Vec::new();
    if found {
        solution = adapter::copy_doms(&problem.doms);
        proof {
            assert(propagate::all_live(s1.0));
            lemma_fixed_stays(s0.0, s1.0);
            assert(models::all_fixed(s1.0)) by {
                assert forall|v: int| 0 <= v < s1.0.len() implies (#[trigger] s1.0[v]).fixed() by {
                    if !s0.0[v].fixed() {
                        assert(net.vars.len() == net.n());
                        assert(scope@.contains(v as usize));
                        let i = scope@.index_of(v as usize);
                        assert(s1.0[scope@[i] as int].fixed());
                    }
                }
            }
            models::lemma_fixed_closed_is_model(net, s1.0);
            models::lemma_consistent_wider(s1.0, s0.0, canonicalize::decided(s1.0));
        }
    } else {
        problem.trail.restore_to(mark, &mut problem.doms, &mut problem.tables);
        proof {
            propagate::lemma_restored(l0, s0, l1, s1, problem.trail, problem.state(), mark as int);
        }
    }
    Solve { found, solution, stats: problem.stats }
}

/// The ids of the variables that are not fixed.
pub fn open_ids(doms: &[DomainMask]) -> (r: Vec<usize>)
    ensures
        network::ascending_ids(r@),
        forall|v: usize| #[trigger] r@.contains(v) <==> (v < doms@.len() && !doms@[v as int].fixed()),
        forall|i: int| 0 <= i < r@.len() ==> (#[trigger] r@[i]) < doms@.len(),
{
    let mut out: Vec<usize> = Vec::new();
    let mut v: usize = 0;
    while v < doms.len()
        invariant
            v <= doms@.len(),
            network::ascending_ids(out@),
            forall|i: int| 0 <= i < out@.len() ==> (#[trigger] out@[i]) < v,
            forall|u: usize| #[trigger] out@.contains(u) <==> (u < v && !doms@[u as int].fixed()),
        decreases doms.len() - v,
    {
        let ghost o0 = out@;
        if !doms[v].is_fixed() {
            out.push(v);
        }
        proof {
            assert forall|u: usize| #[trigger] out@.contains(u) <==> (u < v + 1 && !doms@[u as int].fixed()) by {
                if !doms@[v as int].fixed() {
                    crate::seqs::lemma_push_contains(o0, v);
                }
            }
        }
        v += 1;
    }
    out
}

/// The lists are components, and together they have what is open in `scope`.
#[verifier::opaque]
spec fn makes_up(cn: ConstraintNetwork, d: Seq<DomainMask>, scope: Seq<usize>, comps: Seq<Vec<usize>>) -> bool {
    &&& forall|k: int| 0 <= k < comps.len() ==> components::component(cn, d, components::live_flags(cn, d), (#[trigger] comps[k])@) && components::meets(scope, comps[k]@)
    &&& forall|i: int| 0 <= i < scope.len() && !d[(#[trigger] scope[i]) as int].fixed() ==> components::in_some(comps, scope[i])
}

/// The same components in another order.
proof fn lemma_same_parts(cn: ConstraintNetwork, d: Seq<DomainMask>, scope: Seq<usize>, split: Seq<Vec<usize>>, comps: Seq<Vec<usize>>)
    requires
        components::components(cn, d, components::live_flags(cn, d), scope, split),
        forall|k: int| 0 <= k < comps.len() ==> components::in_list(split, (#[trigger] comps[k])@),
        forall|q: int| 0 <= q < split.len() ==> components::in_list(comps, (#[trigger] split[q])@),
    ensures
        makes_up(cn, d, scope, comps),
{
    reveal(makes_up);
    let live = components::live_flags(cn, d);
    assert forall|k: int| 0 <= k < comps.len() implies components::component(cn, d, live, (#[trigger] comps[k])@) && components::meets(scope, comps[k]@) by {
        assert(components::in_list(split, comps[k]@));
        let q = choose|q: int| 0 <= q < split.len() && (#[trigger] split[q])@ == comps[k]@;
        assert(components::component(cn, d, live, split[q]@));
        assert(components::meets(scope, split[q]@));
    }
    assert forall|i: int| 0 <= i < scope.len() && !d[(#[trigger] scope[i]) as int].fixed() implies components::in_some(comps, scope[i]) by {
        assert(components::in_some(split, scope[i]));
        let q = choose|q: int| 0 <= q < split.len() && (#[trigger] split[q])@.contains(scope[i]);
        assert(components::in_list(comps, split[q]@));
        let x = choose|x: int| 0 <= x < comps.len() && (#[trigger] comps[x])@ == split[q]@;
        assert(comps[x]@.contains(scope[i]));
    }
}

/// The components of `scope`, the smallest first.
fn components_in_turn<S>(ctx: &SearchCtx<S>, stats: &mut Stats, doms: &Vec<DomainMask>, scope: &[usize]) -> (r: Vec<Vec<usize>>)
    requires
        ctx.ok(),
        ct::closed_under(ctx.net(), doms@),
        secluded(ctx.net(), doms@, scope@),
    ensures
        makes_up(ctx.net(), doms@, scope@, r@),
        searchtree::parted(ctx.net(), doms@, scope@, r@),
        searchtree::recorded(*old(stats), *final(stats), searchtree::split_into(r@.len())),
        tallies(*old(stats), *final(stats)),
{
    let ghost net = ctx.net();
    let ghost live = components::live_flags(net, doms@);
    let comps = components::split_components(ctx.cn, doms.as_slice(), ctx.masks.as_slice(), scope);
    let ghost split = comps@;
    if comps.len() <= 1 {
        proof {
            assert forall|q: int| 0 <= q < split.len() implies components::in_list(split, (#[trigger] split[q])@) by {}
            lemma_same_parts(net, doms@, scope@, split, split);
        }
        return comps;
    }
    stats.record_split();
    let n: usize = doms.len();
    proof {
        lemma_heads_differ(net, doms@, live, scope@, comps@);
    }
    let sorted = components::smallest_first(comps, n);
    proof {
        lemma_same_parts(net, doms@, scope@, split, sorted@);
    }
    sorted
}

/// One of the components, for itself.
proof fn lemma_made_up(cn: ConstraintNetwork, d: Seq<DomainMask>, scope: Seq<usize>, comps: Seq<Vec<usize>>, k: int)
    requires
        cn.wf(),
        ct::closed_under(cn, d),
        secluded(cn, d, scope),
        makes_up(cn, d, scope, comps),
        0 <= k < comps.len(),
    ensures
        secluded(cn, d, comps[k]@),
        exists|i: int| 0 <= i < comps[k]@.len() && !d[(#[trigger] comps[k]@[i]) as int].fixed(),
        components::meets(scope, comps[k]@),
        components::component(cn, d, components::live_flags(cn, d), comps[k]@),
        forall|i: int| 0 <= i < comps[k]@.len() ==> (#[trigger] comps[k]@[i]) < cn.n() && scope.contains(comps[k]@[i]),
{
    reveal(makes_up);
    assert(components::component(cn, d, components::live_flags(cn, d), comps[k]@));
    assert(components::meets(scope, comps[k]@));
    components::lemma_component_inside(cn, d, components::live_flags(cn, d), scope, comps[k]@);
    assert(!d[comps[k]@[0] as int].fixed());
}

/// What is decided stays decided as domains narrow.
proof fn lemma_parts_stay(d1: Seq<DomainMask>, d: Seq<DomainMask>, comps: Seq<Vec<usize>>, k: int)
    requires
        0 <= k <= comps.len(),
        ct::narrower(d, d1),
        propagate::all_live(d),
        forall|q: int, i: int| 0 <= q < k && 0 <= i < comps[q]@.len() ==> (#[trigger] comps[q]@[i]) < d1.len(),
        forall|q: int| 0 <= q < k ==> models::decided_on(d1, (#[trigger] comps[q])@),
    ensures
        forall|q: int| 0 <= q < k ==> models::decided_on(d, (#[trigger] comps[q])@),
{
    lemma_fixed_stays(d1, d);
    assert forall|q: int| 0 <= q < k implies models::decided_on(d, (#[trigger] comps[q])@) by {
        assert(models::decided_on(d1, comps[q]@));
        assert forall|i: int| 0 <= i < comps[q]@.len() implies d[(#[trigger] comps[q]@[i]) as int].fixed() by {
            assert(comps[q]@[i] < d1.len());
            assert(d1[comps[q]@[i] as int].fixed());
        }
    }
}

/// Where all components are decided, the list is.
proof fn lemma_scope_decided(cn: ConstraintNetwork, d0: Seq<DomainMask>, d: Seq<DomainMask>, scope: Seq<usize>, comps: Seq<Vec<usize>>)
    requires
        makes_up(cn, d0, scope, comps),
        d0.len() == cn.n(),
        forall|i: int| 0 <= i < scope.len() ==> (#[trigger] scope[i]) < cn.n(),
        ct::narrower(d, d0),
        propagate::all_live(d),
        forall|q: int| 0 <= q < comps.len() ==> models::decided_on(d, (#[trigger] comps[q])@),
    ensures
        models::decided_on(d, scope),
{
    reveal(makes_up);
    lemma_fixed_stays(d0, d);
    assert forall|i: int| 0 <= i < scope.len() implies d[(#[trigger] scope[i]) as int].fixed() by {
        if !d0[scope[i] as int].fixed() {
            assert(components::in_some(comps, scope[i]));
            let x = choose|x: int| 0 <= x < comps.len() && (#[trigger] comps[x])@.contains(scope[i]);
            assert(models::decided_on(d, comps[x]@));
            let y = comps[x]@.index_of(scope[i]);
            assert(d[comps[x]@[y] as int].fixed());
        }
    }
}

/// Decide the open variables of `scope`, one component at a time.
#[verifier::rlimit(60)]
fn bbsat_rec<S: RuleSolver>(ctx: &SearchCtx<S>, stats: &mut Stats, buffer: &mut SolverBuffer, doms: &mut Vec<DomainMask>, tables: &mut Vec<RSparseBitSet>, log: &mut Trail, scope: &[usize], tree: &mut Ghost<Search>) -> (r: bool)
    requires
        ctx.ok(),
        at_rest(ctx.net(), (old(doms)@, trail::frozen(old(tables)@)), *old(buffer), *old(log)),
        secluded(ctx.net(), old(doms)@, scope@),
    ensures
        ct::logged(*final(log), (final(doms)@, trail::frozen(final(tables)@)), *old(log), (old(doms)@, trail::frozen(old(tables)@))),
        at_rest(ctx.net(), (final(doms)@, trail::frozen(final(tables)@)), *final(buffer), *final(log)),
        ct::narrower(final(doms)@, old(doms)@),
        settles(ctx.net(), old(doms)@, final(doms)@, scope@, r),
        searchtree::searched(ctx.plan(), *ctx.solver, final(tree)@),
        searchtree::succeeds(final(tree)@) == r,
        final(tree)@ matches Search::Split(d, ids, parts, kids) && d == old(doms)@ && ids == scope@,
        searchtree::recorded(*old(stats), *final(stats), searchtree::counts(final(tree)@)),
        tallies(*old(stats), *final(stats)),
    decreases ct::both_count(old(doms)@, old(doms)@.len() as int), 1int,
{
    let ghost net = ctx.net();
    let ghost d0 = doms@;
    let ghost s0: State = (doms@, trail::frozen(tables@));
    let ghost l0 = *log;
    let comps = components_in_turn(ctx, stats, doms, scope);
    let ghost plan = ctx.plan();
    let ghost mut kids: Seq<Search> = Seq::empty();
    let ghost own = searchtree::split_into(comps@.len());
    proof {
        lemma_carries_self(net, d0, scope@);
        searchtree::lemma_parts_none(plan, *ctx.solver, d0, comps@);
        assert(searchtree::both(own, searchtree::counts_of(kids, 0)) == own);
    }
    let mut k: usize = 0;
    while k < comps.len()
        invariant
            ctx.ok(),
            net == ctx.net(),
            d0 == old(doms)@,
            l0 == *old(log),
            s0 == (old(doms)@, trail::frozen(old(tables)@)),
            ct::closed_under(net, d0),
            secluded(net, d0, scope@),
            k <= comps@.len(),
            at_rest(net, (doms@, trail::frozen(tables@)), *buffer, *log),
            ct::logged(*log, (doms@, trail::frozen(tables@)), l0, s0),
            ct::narrower(doms@, d0),
            models::carries(net, d0, doms@, scope@),
            models::satisfiable(net, d0) ==> models::satisfiable(net, doms@),
            tallies(*old(stats), *stats),
            makes_up(net, d0, scope@, comps@),
            plan == ctx.plan(),
            kids.len() == k,
            searchtree::parted(net, d0, scope@, comps@),
            searchtree::parts_done(plan, *ctx.solver, d0, comps@, kids, true),
            own == searchtree::split_into(comps@.len()),
            searchtree::recorded(*old(stats), *stats, searchtree::both(own, searchtree::counts_of(kids, k as int))),
            forall|q: int| 0 <= q < k ==> models::decided_on(doms@, (#[trigger] comps@[q])@),
        decreases comps.len() - k,
    {
        let ghost d1 = doms@;
        let ghost s1: State = (doms@, trail::frozen(tables@));
        let ghost l1 = *log;
        let ghost comp = comps@[k as int]@;
        proof {
            lemma_made_up(net, d0, scope@, comps@, k as int);
            assert(propagate::all_live(d1));
            lemma_secluded_later(net, d0, d1, comp);
            propagate::lemma_both_narrower(d1, d0, d0.len() as int);
        }
        let ghost st1 = *stats;
        let ok = branch_component(ctx, stats, buffer, doms, tables, log, comps[k].as_slice(), tree);
        proof {
            ct::lemma_logged_trans(*log, (doms@, trail::frozen(tables@)), l1, s1, l0, s0);
            ct::lemma_narrower_trans(doms@, d1, d0);
            searchtree::lemma_parts_more(plan, *ctx.solver, d0, comps@, kids, tree@);
            searchtree::lemma_counts_more(kids, tree@);
            let before = searchtree::both(own, searchtree::counts_of(kids, k as int));
            searchtree::lemma_recorded_more(*old(stats), st1, *stats, before, searchtree::counts(tree@));
            kids = kids.push(tree@);
            assert(searchtree::both(before, searchtree::counts(tree@)) == searchtree::both(own, searchtree::counts_of(kids, k + 1)));
        }
        if !ok {
            proof {
                searchtree::lemma_split(plan, *ctx.solver, d0, scope@, comps@, kids, false);
                *tree.borrow_mut() = Search::Split(d0, scope@, comps@, kids);
            }
            return false;
        }
        proof {
            assert(propagate::all_live(doms@));
            models::lemma_carries_trans(net, d0, d1, doms@, scope@, comp, scope@);
            if models::satisfiable(net, d0) {
                lemma_decided_keeps(net, d1, doms@, comp);
            }
            assert forall|q: int, i: int| 0 <= q < k && 0 <= i < comps@[q]@.len() implies (#[trigger] comps@[q]@[i]) < d1.len() by {
                lemma_made_up(net, d0, scope@, comps@, q);
            }
            lemma_parts_stay(d1, doms@, comps@, k as int);
        }
        k += 1;
    }
    proof {
        assert(propagate::all_live(doms@));
        lemma_scope_decided(net, d0, doms@, scope@, comps@);
        searchtree::lemma_split(plan, *ctx.solver, d0, scope@, comps@, kids, true);
        *tree.borrow_mut() = Search::Split(d0, scope@, comps@, kids);
    }
    true
}

proof fn lemma_carries_self(cn: ConstraintNetwork, d: Seq<DomainMask>, scope: Seq<usize>)
    ensures
        models::carries(cn, d, d, scope),
{
    models::lemma_keeps_carries(cn, d, d, scope);
}

pub proof fn lemma_heads_differ(cn: ConstraintNetwork, d: Seq<DomainMask>, live: Seq<bool>, scope: Seq<usize>, comps: Seq<Vec<usize>>)
    requires
        components::components(cn, d, live, scope, comps),
        d.len() == cn.n(),
    ensures
        forall|k: int| 0 <= k < comps.len() ==> (#[trigger] comps[k])@.len() > 0 && comps[k]@[0] < d.len(),
        forall|j: int, k: int| 0 <= j < k < comps.len() ==> (#[trigger] comps[j])@[0] != (#[trigger] comps[k])@[0],
{
    assert forall|k: int| 0 <= k < comps.len() implies (#[trigger] comps[k])@.len() > 0 && comps[k]@[0] < d.len() by {
        assert(components::component(cn, d, live, comps[k]@));
    }
    assert forall|j: int, k: int| 0 <= j < k < comps.len() implies (#[trigger] comps[j])@[0] != (#[trigger] comps[k])@[0] by {
        assert(components::component(cn, d, live, comps[j]@));
        assert(components::component(cn, d, live, comps[k]@));
        assert(components::apart(comps[j]@, comps[k]@));
        assert(comps[j]@.contains(comps[j]@[0]));
        assert(comps[k]@.contains(comps[k]@[0]));
    }
}

/// What a node's reductions do after an assignment: the state they leave, or no model.
pub open spec fn reduced(cn: ConstraintNetwork, a: Seq<DomainMask>, d: Seq<DomainMask>, ok: bool) -> bool {
    &&& ok ==> models::carries(cn, a, d, Seq::empty())
    &&& !ok ==> !models::satisfiable(cn, a)
}

/// Set variables, propagate, and apply the reductions: domination, then failed literals.
pub(crate) fn descend<S>(ctx: &SearchCtx<S>, buffer: &mut SolverBuffer, doms: &mut Vec<DomainMask>, tables: &mut Vec<RSparseBitSet>, log: &mut Trail, vars: &[usize], mask: u64, val: u64) -> (r: bool)
    requires
        ctx.ok(),
        at_rest(ctx.net(), (old(doms)@, trail::frozen(old(tables)@)), *old(buffer), *old(log)),
        vars@.len() <= 64,
        forall|i: int| 0 <= i < vars@.len() ==> (#[trigger] vars@[i]) < ctx.net().n(),
    ensures
        ct::logged(*final(log), (final(doms)@, trail::frozen(final(tables)@)), *old(log), (old(doms)@, trail::frozen(old(tables)@))),
        final(buffer).clean(ctx.net()),
        ct::narrower(final(doms)@, old(doms)@),
        r ==> ct::fixpoint(ctx.net(), (final(doms)@, trail::frozen(final(tables)@))) && ct::narrower(final(doms)@, ct::assigned(old(doms)@, vars@, mask, val, vars@.len() as int)),
        reduced(ctx.net(), ct::assigned(old(doms)@, vars@, mask, val, vars@.len() as int), final(doms)@, r),
        r ==> problem::reduced(ctx.net(), final(doms)@),
{
    let ghost net = ctx.net();
    let ghost d0 = doms@;
    let ghost s0: State = (doms@, trail::frozen(tables@));
    let ghost l0 = *log;
    let ghost a = ct::assigned(d0, vars@, mask, val, vars@.len() as int);
    proof {
        lemma_assigned_elsewhere(d0, vars@, mask, val, vars@.len() as int);
    }
    if !propagate::assign(ctx.cn, doms, ctx.masks, tables, buffer, log, vars, mask, val) {
        proof {
            models::lemma_refuted_unsat(net, a);
        }
        return false;
    }
    let ghost d1 = doms@;
    let ghost s1: State = (doms@, trail::frozen(tables@));
    let ghost l1 = *log;
    proof {
        models::lemma_keeps_models(net, a, d1);
    }
    let ok = propagate::dominate_fixpoint(ctx.cn, doms, ctx.masks, tables, buffer, log);
    let ghost d2 = doms@;
    let ghost s2: State = (doms@, trail::frozen(tables@));
    let ghost l2 = *log;
    proof {
        ct::lemma_logged_trans(l2, s2, l1, s1, l0, s0);
        ct::lemma_narrower_trans(d2, d1, d0);
        if ok {
            assert(problem::undominated(net, s2));
        } else {
            lemma_unsat_back(net, a, d1);
        }
    }
    if !ok {
        return false;
    }
    let pool = selector::occurrence_pool(ctx.cn, doms.as_slice(), buffer, ctx.masks.as_slice(), selector::FAILED_LITERAL_POOL);
    proof {
        selector::lemma_ranked_ids(net, d2, selector::all_ids(net.n()), pool@, selector::FAILED_LITERAL_POOL as int);
        assert forall|i: int| 0 <= i < pool@.len() implies (#[trigger] pool@[i]) < net.n() by {
            assert(selector::all_ids(net.n()).contains(pool@[i]));
        }
    }
    let ok = propagate::failed_literal_fixpoint(ctx.cn, doms, ctx.masks, tables, buffer, log, pool.as_slice());
    proof {
        ct::lemma_logged_trans(*log, (doms@, trail::frozen(tables@)), l2, s2, l0, s0);
        ct::lemma_narrower_trans(doms@, d2, d0);
        models::lemma_decided_models(net, d2, doms@, pool@);
        let none = Seq::<usize>::empty();
        models::lemma_keeps_carries(net, a, d1, none);
        models::lemma_carries_trans(net, a, d1, d2, none, none, none);
        if ok {
            assert(problem::probed_pool(net, d2, pool@));
            assert(problem::reduced(net, doms@)) by {
                reveal(problem::reduced);
            }
            ct::lemma_narrower_trans(d2, d1, a);
            ct::lemma_narrower_trans(doms@, d2, a);
            models::lemma_keeps_carries(net, d2, doms@, none);
            models::lemma_carries_trans(net, a, d2, doms@, none, none, none);
        } else {
            if models::satisfiable(net, a) {
                models::lemma_carries_satisfiable(net, a, d2);
            }
        }
    }
    ok
}

pub proof fn lemma_unsat_back(cn: ConstraintNetwork, a: Seq<DomainMask>, d: Seq<DomainMask>)
    requires
        models::keeps_models(cn, a, d),
        !models::satisfiable(cn, d),
    ensures
        !models::satisfiable(cn, a),
{
    if models::satisfiable(cn, a) {
        let h = choose|h: Asg| #[trigger] cn.model(h) && models::consistent(a, h);
        assert(models::consistent(d, h));
    }
}

/// With that many visits.
spec fn visited(c: searchtree::Counts, n: nat) -> searchtree::Counts {
    searchtree::Counts { visits: n, ..c }
}

/// Decide one component: branch by a rule, and search below each branch.
fn branch_component<S: RuleSolver>(ctx: &SearchCtx<S>, stats: &mut Stats, buffer: &mut SolverBuffer, doms: &mut Vec<DomainMask>, tables: &mut Vec<RSparseBitSet>, log: &mut Trail, comp: &[usize], tree: &mut Ghost<Search>) -> (r: bool)
    requires
        ctx.ok(),
        at_rest(ctx.net(), (old(doms)@, trail::frozen(old(tables)@)), *old(buffer), *old(log)),
        secluded(ctx.net(), old(doms)@, comp@),
    ensures
        ct::logged(*final(log), (final(doms)@, trail::frozen(final(tables)@)), *old(log), (old(doms)@, trail::frozen(old(tables)@))),
        at_rest(ctx.net(), (final(doms)@, trail::frozen(final(tables)@)), *final(buffer), *final(log)),
        ct::narrower(final(doms)@, old(doms)@),
        settles(ctx.net(), old(doms)@, final(doms)@, comp@, r),
        searchtree::searched(ctx.plan(), *ctx.solver, final(tree)@),
        searchtree::succeeds(final(tree)@) == r,
        forall|e: Seq<DomainMask>| ct::narrower(old(doms)@, e) ==> #[trigger] searchtree::part_of(e, comp@, final(tree)@),
        searchtree::recorded(*old(stats), *final(stats), searchtree::counts(final(tree)@)),
        !r ==> (final(doms)@, trail::frozen(final(tables)@)) == (old(doms)@, trail::frozen(old(tables)@)),
        tallies(*old(stats), *final(stats)),
    decreases ct::both_count(old(doms)@, old(doms)@.len() as int), 0int,
{
    let ghost net = ctx.net();
    let ghost d0 = doms@;
    let ghost s0: State = (doms@, trail::frozen(tables@));
    let ghost l0 = *log;
    proof {
        lemma_logged_self(l0, s0);
    }
    if all_decided(doms.as_slice(), comp) {
        proof {
            lemma_carries_self(net, d0, comp@);
            *tree.borrow_mut() = Search::Decided(d0, comp@);
        }
        return true;
    }
    let rule = ctx.selector.findbest(ctx.cn, doms, buffer, ctx.measure, ctx.solver, ctx.masks, tables, log, comp, false);
    proof {
        selector::law_selection_is_complete(ctx.selector, net, d0, comp@, rule);
    }
    let ghost vars = rule.variables@;
    let ghost plan = ctx.plan();
    proof {
        searchtree::lemma_ruled(plan, *ctx.solver, d0, comp@, rule);
        *tree.borrow_mut() = Search::Barren(d0, comp@, vars);
    }
    match rule.clauses {
        None => false,
        Some(clauses) => {
            stats.record_branch(clauses.len() as u64);
            let ghost st0 = *stats;
            let ghost cs = clauses@;
            let ghost mut tries: Seq<Search> = Seq::empty();
            let ghost own = searchtree::Counts { nodes: 1, clauses: cs.len(), visits: 0, splits: 0 };
            proof {
                searchtree::lemma_tries_none(plan, *ctx.solver, d0, comp@, vars, cs);
                assert(clauses.len() == cs.len());
                assert(searchtree::recorded(*old(stats), *stats, own));
                assert(searchtree::both(own, searchtree::counts_of(tries, 0)) == own);
            }
            let mut k: usize = 0;
            while k < clauses.len()
                invariant
                    ctx.ok(),
                    net == ctx.net(),
                    d0 == old(doms)@,
                    s0 == (old(doms)@, trail::frozen(old(tables)@)),
                    l0 == *old(log),
                    (doms@, trail::frozen(tables@)) == s0,
                    at_rest(net, s0, *buffer, *log),
                    ct::logged(*log, s0, l0, s0),
                    secluded(net, d0, comp@),
                    vars == rule.variables@,
                    vars.len() <= 64,
                    forall|i: int| 0 <= i < vars.len() ==> (#[trigger] vars[i]) < net.n() && !d0[vars[i] as int].fixed(),
                    models::ids_within(vars, comp@),
                    plan == ctx.plan(),
                    cs == clauses@,
                    !models::decided_on(d0, comp@),
                    searchtree::ruled(plan, *ctx.solver, d0, comp@, vars, Some(cs)),
                    tries.len() == k,
                    searchtree::tries_done(plan, *ctx.solver, d0, comp@, vars, cs, tries, true),
                    own == (searchtree::Counts { nodes: 1, clauses: cs.len(), visits: 0, splits: 0 }),
                    searchtree::recorded(*old(stats), *stats, searchtree::both(visited(own, k as nat), searchtree::counts_of(tries, k as int))),
                    table::each_sets(clauses@, vars.len() as int),
                    k <= clauses@.len(),
                    clauses.len() == clauses@.len(),
                    stats.total_potential_subproblems >= old(stats).total_potential_subproblems,
                    stats.total_potential_subproblems == u64::MAX || stats.total_potential_subproblems - stats.total_visited_nodes >= old(stats).total_potential_subproblems - old(stats).total_visited_nodes + (clauses@.len() - k),
                    forall|q: int| 0 <= q < k ==> !models::satisfiable(net, ct::assigned(d0, vars, (#[trigger] clauses@[q]).mask, clauses@[q].val, vars.len() as int)),
                decreases clauses.len() - k,
            {
                let cl = clauses[k];
                let ghost l1 = *log;
                stats.record_visit();
                log.open();
                let ghost l2 = *log;
                let mark: usize = log.mark();
                proof {
                    lemma_same_log(l2, l1, s0);
                }
                let ghost a = ct::assigned(d0, vars, cl.mask, cl.val, vars.len() as int);
                let ok = descend(ctx, buffer, doms, tables, log, rule.variables.as_slice(), cl.mask, cl.val);
                let ghost d1 = doms@;
                let ghost s1: State = (doms@, trail::frozen(tables@));
                let ghost l3 = *log;
                let mut found = false;
                proof {
                    *tree.borrow_mut() = Search::Refuted;
                }
                let ghost st2 = *stats;
                proof {
                    assert(searchtree::recorded(*old(stats), st2, searchtree::both(visited(own, (k + 1) as nat), searchtree::counts_of(tries, k as int))));
                    assert(searchtree::recorded(st2, st2, searchtree::nothing()));
                }
                if ok {
                    proof {
                        assert(table::sets_some(clauses@[k as int], vars.len() as int));
                        assert(propagate::all_live(d0) && propagate::all_live(d1));
                        lemma_assigned_less(d0, d1, vars, cl.mask, cl.val);
                        lemma_secluded_later(net, d0, d1, comp@);
                    }
                    found = bbsat_rec(ctx, stats, buffer, doms, tables, log, comp, tree);
                    proof {
                        ct::lemma_logged_trans(*log, (doms@, trail::frozen(tables@)), l3, s1, l2, s0);
                    }
                    if found {
                        proof {
                            let more = tries.push(tree@);
                            let before = searchtree::both(visited(own, (k + 1) as nat), searchtree::counts_of(tries, k as int));
                            searchtree::lemma_tries_more(plan, *ctx.solver, d0, comp@, vars, cs, tries, tree@);
                            searchtree::lemma_counts_more(tries, tree@);
                            searchtree::lemma_recorded_more(*old(stats), st2, *stats, before, searchtree::counts(tree@));
                            searchtree::lemma_branch(plan, *ctx.solver, d0, comp@, vars, cs, more, true);
                            assert(searchtree::both(before, searchtree::counts(tree@)) == searchtree::counts(Search::Branch(d0, comp@, vars, cs, more)));
                            *tree.borrow_mut() = Search::Branch(d0, comp@, vars, cs, more);
                            ct::lemma_logged_trans(*log, (doms@, trail::frozen(tables@)), l2, s0, l1, s0);
                            ct::lemma_logged_trans(*log, (doms@, trail::frozen(tables@)), l1, s0, l0, s0);
                            ct::lemma_narrower_trans(doms@, d1, d0);
                            lemma_branch_carries(net, d0, a, d1, doms@, vars, cl.mask, cl.val, comp@);
                        }
                        return true;
                    }
                }
                proof {
                    let before = searchtree::both(visited(own, (k + 1) as nat), searchtree::counts_of(tries, k as int));
                    searchtree::lemma_tries_more(plan, *ctx.solver, d0, comp@, vars, cs, tries, tree@);
                    searchtree::lemma_counts_more(tries, tree@);
                    searchtree::lemma_recorded_more(*old(stats), st2, *stats, before, searchtree::counts(tree@));
                    tries = tries.push(tree@);
                    assert(searchtree::both(before, searchtree::counts(tree@)) == searchtree::both(visited(own, (k + 1) as nat), searchtree::counts_of(tries, k + 1)));
                }
                let ghost l4 = *log;
                let ghost s4: State = (doms@, trail::frozen(tables@));
                log.restore_to(mark, doms, tables);
                proof {
                    propagate::lemma_restored(l2, s0, l4, s4, *log, (doms@, trail::frozen(tables@)), mark as int);
                    ct::lemma_logged_trans(*log, s0, l2, s0, l1, s0);
                    ct::lemma_logged_trans(*log, s0, l1, s0, l0, s0);
                    if ok && models::satisfiable(net, a) {
                        models::lemma_carries_satisfiable(net, a, d1);
                    }
                }
                k += 1;
            }
            proof {
                searchtree::lemma_branch(plan, *ctx.solver, d0, comp@, vars, cs, tries, false);
                *tree.borrow_mut() = Search::Branch(d0, comp@, vars, cs, tries);
                assert(searchtree::counts(tree@) == searchtree::both(visited(own, cs.len()), searchtree::counts_of(tries, tries.len() as int)));
                if models::satisfiable(net, d0) {
                    assert(table::some_branch_satisfiable(net, d0, vars, clauses@));
                }
            }
            false
        },
    }
}

/// Whether all of `vars` are fixed.
pub(crate) fn all_decided(doms: &[DomainMask], vars: &[usize]) -> (r: bool)
    requires
        forall|i: int| 0 <= i < vars@.len() ==> (#[trigger] vars@[i]) < doms@.len(),
    ensures
        r == models::decided_on(doms@, vars@),
{
    let mut i: usize = 0;
    while i < vars.len()
        invariant
            i <= vars@.len(),
            forall|i: int| 0 <= i < vars@.len() ==> (#[trigger] vars@[i]) < doms@.len(),
            forall|k: int| 0 <= k < i ==> doms@[(#[trigger] vars@[k]) as int].fixed(),
        decreases vars.len() - i,
    {
        if !doms[vars[i]].is_fixed() {
            return false;
        }
        i += 1;
    }
    true
}

pub proof fn lemma_logged_self(l: Trail, s: State)
    requires
        l.fits(trail::shape(s)),
    ensures
        ct::logged(l, s, l, s),
{
}

/// Opening an age leaves the log as it is.
pub proof fn lemma_same_log(l1: Trail, l0: Trail, s: State)
    requires
        l1.same_log(l0),
        l0.fits(trail::shape(s)),
    ensures
        ct::logged(l1, s, l0, s),
        l1.fits(trail::shape(s)),
{
}

/// From the domains before a branch to those that decide the component.
proof fn lemma_branch_carries(cn: ConstraintNetwork, d0: Seq<DomainMask>, a: Seq<DomainMask>, d1: Seq<DomainMask>, d2: Seq<DomainMask>, vars: Seq<usize>, mask: u64, val: u64, comp: Seq<usize>)
    requires
        d0.len() == cn.n(),
        vars.len() <= 64,
        forall|i: int| 0 <= i < vars.len() ==> (#[trigger] vars[i]) < cn.n(),
        forall|i: int| 0 <= i < comp.len() ==> (#[trigger] comp[i]) < cn.n(),
        models::ids_within(vars, comp),
        a == ct::assigned(d0, vars, mask, val, vars.len() as int),
        models::carries(cn, a, d1, Seq::empty()),
        models::carries(cn, d1, d2, comp),
        ct::narrower(d1, a),
        ct::narrower(d2, d1),
    ensures
        models::carries(cn, d0, d2, comp),
{
    lemma_assigned_elsewhere(d0, vars, mask, val, vars.len() as int);
    lemma_assigned_carries(cn, d0, vars, mask, val);
    models::lemma_carries_trans(cn, d0, a, d1, vars, Seq::empty(), comp);
    assert(models::ids_within(comp, comp));
    models::lemma_carries_trans(cn, d0, d1, d2, comp, comp, comp);
}

} // verus!
