//! Exact weighted model counting.
use vstd::prelude::*;

use std::sync::Arc;

use crate::bits;
use crate::blockmerge;
use crate::blockmerge::Subcube;
use crate::components;
use crate::contract;
use crate::contract::Relation;
use crate::ct;
use crate::ct::{RSparseBitSet, TableMasks};
use crate::domain::{Asg, DomainMask};
use crate::localsum;
use crate::models;
use crate::network;
use crate::network::ConstraintNetwork;
use crate::order;
use crate::problem;
use crate::problem::{SolverBuffer, Stats, TnProblem};
use crate::propagate;
use crate::region;
use crate::region::Region;
use crate::selector;
use crate::semiring::Weight;
use crate::sliced;
use crate::solver;
use crate::sums;
use crate::table;
use crate::trail;
use crate::trail::{State, Trail};
use crate::util;
use crate::weighted;

verus! {

/// A weighted count and the counters of the search.
pub struct CountSolve<W> {
    pub models: W,
    pub stats: Stats,
}

/// How the feasible configurations of a region become branches.
#[derive(Clone, Copy, Debug, PartialEq, Eq, Structural)]
pub enum CountBranch {
    /// One branch for each configuration.
    PerConfig,
    /// One branch for each subcube of a partition.
    BlockMerge,
}

/// What a count is run with.
struct CountCtx<'a, W> {
    cn: &'a Arc<ConstraintNetwork>,
    masks: &'a Arc<Vec<TableMasks>>,
    weights: &'a [Vec<W>],
    max_rows: usize,
    branch: CountBranch,
}

impl<'a, W: Weight> CountCtx<'a, W> {
    spec fn net(self) -> ConstraintNetwork {
        **self.cn
    }

    spec fn ws(self) -> Seq<Vec<W>> {
        self.weights@
    }

    spec fn ok(self) -> bool {
        &&& self.net().wf()
        &&& ct::markable(self.net())
        &&& ct::masks_ok(self.net(), (**self.masks)@)
        &&& weighted::weights_fit(self.net(), self.ws())
    }
}

/// Visits and subproblems grew by the same number, `ahead` subproblems not yet visited aside.
pub open spec fn stepped(was: Stats, now: Stats, ahead: int, k: nat) -> bool {
    &&& now.total_potential_subproblems == least(was.total_potential_subproblems + ahead + k)
    &&& now.total_visited_nodes == least(was.total_visited_nodes + k)
}

/// What the counters of regions say: no more branches than configurations, each branch is a
/// subproblem, and with one branch for each configuration as many of the one as of the other.
pub open spec fn tallies(branch: CountBranch, s: Stats) -> bool {
    &&& s.region_branches <= s.region_configs
    &&& s.region_branches <= s.total_potential_subproblems
    &&& branch == CountBranch::PerConfig ==> s.region_branches == s.region_configs
}

/// `x`, at most the largest counter.
pub open spec fn least(x: int) -> int {
    if x <= u64::MAX {
        x
    } else {
        u64::MAX as int
    }
}

/// Visits and subproblems grew by the same number.
pub open spec fn in_step(was: Stats, now: Stats) -> bool {
    exists|k: nat| #[trigger] stepped(was, now, 0, k)
}

proof fn lemma_in_step_trans(a: Stats, b: Stats, c: Stats)
    requires
        in_step(a, b),
        in_step(b, c),
    ensures
        in_step(a, c),
{
    let j = choose|k: nat| #[trigger] stepped(a, b, 0, k);
    let k = choose|k: nat| #[trigger] stepped(b, c, 0, k);
    assert(stepped(a, c, 0, j + k));
}

/// The constraint mentions one of `c`.
pub open spec fn mentions_one(cn: ConstraintNetwork, c: Seq<usize>, t: int) -> bool {
    exists|j: int| 0 <= j < cn.axes(t).len() && c.contains(#[trigger] cn.axes(t)[j])
}

/// The constraints of `comp` that are not constant, ascending.
pub fn comp_incident_live<W: Weight>(cn: &ConstraintNetwork, weights: &[Vec<W>], comp: &[usize], doms: &[DomainMask]) -> (r: Vec<usize>)
    requires
        cn.wf(),
        weighted::weights_fit(*cn, weights@),
        doms@.len() == cn.n(),
        forall|i: int| 0 <= i < comp@.len() ==> (#[trigger] comp@[i]) < cn.n(),
    ensures
        network::ascending_ids(r@),
        forall|t: usize| #[trigger] r@.contains(t) <==> (t < cn.m() && mentions_one(*cn, comp@, t as int) && !sliced::uniform(*cn, weights@, doms@, t as int)),
{
    let mut found: Vec<bool> = Vec::new();
    while found.len() < cn.tensors.len()
        invariant
            found@.len() <= cn.m(),
            forall|t: int| 0 <= t < found@.len() ==> !#[trigger] found@[t],
        decreases cn.tensors.len() - found.len(),
    {
        found.push(false);
    }
    let mut i: usize = 0;
    while i < comp.len()
        invariant
            cn.wf(),
            forall|i: int| 0 <= i < comp@.len() ==> (#[trigger] comp@[i]) < cn.n(),
            i <= comp@.len(),
            found@.len() == cn.m(),
            forall|t: int| 0 <= t < cn.m() ==> #[trigger] found@[t] == mentions_one(*cn, comp@.take(i as int), t),
        decreases comp.len() - i,
    {
        let v: usize = comp[i];
        let list = &cn.v2t[v];
        let ghost f0 = found@;
        let mut k: usize = 0;
        proof {
            assert(cn.incidence_wf(v as int));
        }
        while k < list.len()
            invariant
                cn.wf(),
                cn.incidence_wf(v as int),
                v < cn.n(),
                list@ == cn.v2t@[v as int]@,
                k <= list@.len(),
                found@.len() == cn.m() == f0.len(),
                forall|t: int| 0 <= t < cn.m() ==> #[trigger] found@[t] == (f0[t] || contract::lists(list@.take(k as int), t)),
            decreases list.len() - k,
        {
            let t: usize = list[k];
            assert(list@[k as int] < cn.m());
            let ghost f1 = found@;
            found.set(t, true);
            proof {
                assert(list@.take(k + 1) =~= list@.take(k as int) + seq![t]);
                assert forall|s: int| 0 <= s < cn.m() implies #[trigger] found@[s] == (f0[s] || contract::lists(list@.take(k + 1), s)) by {
                    localsum::lemma_lists_concat(list@.take(k as int), seq![t], s);
                    assert(seq![t][0] == t);
                    assert(f1[s] == (f0[s] || contract::lists(list@.take(k as int), s)));
                }
            }
            k += 1;
        }
        proof {
            assert(list@.take(list@.len() as int) =~= list@);
            assert forall|t: int| 0 <= t < cn.m() implies #[trigger] found@[t] == mentions_one(*cn, comp@.take(i + 1), t) by {
                lemma_mentions_next(*cn, comp@, i as int, t);
                assert(cn.tensors.len() == cn.m());
                if contract::lists(list@, t) {
                    let q = choose|q: int| 0 <= q < list@.len() && (#[trigger] list@[q]) as int == t;
                    assert(cn.axes(list@[q] as int).contains(v));
                }
                if cn.axes(t).contains(v) {
                    assert(list@.contains(t as usize));
                    let q = list@.index_of(t as usize);
                    assert(list@[q] as int == t);
                }
            }
        }
        i += 1;
    }
    assert(comp@.take(comp@.len() as int) =~= comp@);
    let mut out: Vec<usize> = Vec::new();
    let mut t: usize = 0;
    while t < found.len()
        invariant
            cn.wf(),
            weighted::weights_fit(*cn, weights@),
            doms@.len() == cn.n(),
            found@.len() == cn.m(),
            t <= cn.m(),
            forall|t: int| 0 <= t < cn.m() ==> #[trigger] found@[t] == mentions_one(*cn, comp@, t),
            network::ascending_ids(out@),
            forall|i: int| 0 <= i < out@.len() ==> (#[trigger] out@[i]) < t,
            forall|s: usize| #[trigger] out@.contains(s) <==> (s < t && mentions_one(*cn, comp@, s as int) && !sliced::uniform(*cn, weights@, doms@, s as int)),
        decreases found.len() - t,
    {
        let ghost o0 = out@;
        if found[t] {
            if sliced::sliced_constant(cn, weights, t, doms).is_none() {
                out.push(t);
                proof {
                    crate::seqs::lemma_push_contains(o0, t);
                }
            }
        }
        t += 1;
    }
    out
}

proof fn lemma_mentions_next(cn: ConstraintNetwork, comp: Seq<usize>, i: int, t: int)
    requires
        0 <= i < comp.len(),
    ensures
        mentions_one(cn, comp.take(i + 1), t) <==> (mentions_one(cn, comp.take(i), t) || cn.axes(t).contains(comp[i])),
{
    let a = comp.take(i);
    let b = comp.take(i + 1);
    assert(b =~= a.push(comp[i]));
    crate::seqs::lemma_push_contains(a, comp[i]);
    if mentions_one(cn, a, t) {
        let j = choose|j: int| 0 <= j < cn.axes(t).len() && a.contains(#[trigger] cn.axes(t)[j]);
        assert(b.contains(cn.axes(t)[j]));
    }
    if cn.axes(t).contains(comp[i]) {
        let j = cn.axes(t).index_of(comp[i]);
        assert(b.contains(cn.axes(t)[j]));
    }
    if mentions_one(cn, b, t) {
        let j = choose|j: int| 0 <= j < cn.axes(t).len() && b.contains(#[trigger] cn.axes(t)[j]);
        if !a.contains(cn.axes(t)[j]) {
            assert(cn.axes(t)[j] == comp[i]);
        }
    }
}

/// The components of the open variables of `scope`, where a constraint that is not constant
/// couples its open variables.
pub fn split_components_counting<W: Weight>(cn: &ConstraintNetwork, weights: &[Vec<W>], doms: &[DomainMask], scope: &[usize]) -> (r: Vec<Vec<usize>>)
    requires
        cn.wf(),
        weighted::weights_fit(*cn, weights@),
        doms@.len() == cn.n(),
        forall|i: int| 0 <= i < scope@.len() ==> (#[trigger] scope@[i]) < cn.n(),
    ensures
        components::components(*cn, doms@, localsum::wlive(*cn, weights@, doms@), scope@, r@),
{
    let mut live: Vec<bool> = Vec::new();
    while live.len() < cn.tensors.len()
        invariant
            cn.wf(),
            weighted::weights_fit(*cn, weights@),
            doms@.len() == cn.n(),
            live@.len() <= cn.m(),
            forall|t: int| 0 <= t < live@.len() ==> #[trigger] live@[t] == !sliced::uniform(*cn, weights@, doms@, t),
        decreases cn.tensors.len() - live.len(),
    {
        let t: usize = live.len();
        live.push(sliced::sliced_constant(cn, weights, t, doms).is_none());
    }
    assert(live@ =~= localsum::wlive(*cn, weights@, doms@));
    components::components_of(cn, doms, &live, scope)
}

/// The highest-scored open variables of a component, as many as are probed.
pub fn component_occurrence_pool(cn: &ConstraintNetwork, doms: &[DomainMask], buffer: &mut SolverBuffer, masks: &[TableMasks], comp: &[usize]) -> (r: Vec<usize>)
    requires
        cn.wf(),
        doms@.len() == cn.n(),
        ct::masks_ok(*cn, masks@),
        old(buffer).sized(*cn),
        network::ascending_ids(comp@),
        forall|i: int| 0 <= i < comp@.len() ==> (#[trigger] comp@[i]) < cn.n(),
    ensures
        selector::top_ranked(*cn, doms@, comp@, r@, selector::FAILED_LITERAL_POOL as int),
        selector::scored(*cn, doms@, final(buffer).occurrence_scores@),
        final(buffer).queue == old(buffer).queue,
        final(buffer).in_queue == old(buffer).in_queue,
        final(buffer).dirty == old(buffer).dirty,
{
    selector::pool_within(cn, doms, buffer, masks, comp, selector::FAILED_LITERAL_POOL)
}

/// The assignments that have the values of a clause.
pub open spec fn clause_keeps(vars: Seq<usize>, mask: u64, val: u64) -> spec_fn(Asg) -> bool {
    |a: Asg| forall|i: int| 0 <= i < vars.len() && #[trigger] bits::bit(mask, i) ==> bits::bit(val, i) == a(vars[i] as int)
}

/// The sum over the values of a component that a clause keeps.
pub open spec fn branch_total<W: Weight>(cn: ConstraintNetwork, weights: Seq<Vec<W>>, d: Seq<DomainMask>, c: Seq<usize>, keep: spec_fn(Asg) -> bool) -> real {
    sums::total(localsum::picked(cn, weights, d, c, keep), localsum::settled(d), localsum::open_of(d, c))
}

/// What a branch leaves of the domains: nothing it keeps is lost.
proof fn lemma_branch_within<W: Weight>(cn: ConstraintNetwork, weights: Seq<Vec<W>>, d: Seq<DomainMask>, c: Seq<usize>, vars: Seq<usize>, mask: u64, val: u64, a: Asg)
    requires
        cn.wf(),
        ct::closed_under(cn, d),
        localsum::shut_off(cn, weights, d, c),
        vars.len() <= 64,
        network::distinct(vars),
        forall|i: int| 0 <= i < vars.len() ==> c.contains(#[trigger] vars[i]) && !d[vars[i] as int].fixed(),
        sums::same_outside(localsum::settled(d), a, localsum::open_of(d, c)),
        localsum::picked(cn, weights, d, c, clause_keeps(vars, mask, val))(a) != 0real,
    ensures
        ct::closed_under(cn, localsum::refined(d, c, a)),
        ct::narrower(localsum::refined(d, c, a), ct::assigned(d, vars, mask, val, vars.len() as int)),
        ct::narrower(localsum::refined(d, c, a), d),
{
    let e = localsum::refined(d, c, a);
    localsum::lemma_keeps(d, c, a);
    localsum::lemma_refined_closed(cn, weights, d, c, a);
    components::lemma_members(c);
    assert forall|i: int| 0 <= i < vars.len() implies (#[trigger] vars[i]) < d.len() by {
        let q = c.index_of(vars[i]);
        assert(c[q] < cn.n());
    }
    lemma_narrow_assigned(d, e, vars, mask, val, vars.len() as int, c, a);
}

proof fn lemma_narrow_assigned(d: Seq<DomainMask>, e: Seq<DomainMask>, vars: Seq<usize>, mask: u64, val: u64, upto: int, c: Seq<usize>, a: Asg)
    requires
        e == localsum::refined(d, c, a),
        ct::narrower(e, d),
        0 <= upto <= vars.len(),
        vars.len() <= 64,
        forall|i: int| 0 <= i < vars.len() ==> (#[trigger] vars[i]) < d.len(),
        forall|i: int| 0 <= i < vars.len() ==> c.contains(#[trigger] vars[i]) && !d[vars[i] as int].fixed(),
        clause_keeps(vars, mask, val)(a),
    ensures
        ct::narrower(e, ct::assigned(d, vars, mask, val, upto)),
    decreases upto,
{
    if upto > 0 {
        lemma_narrow_assigned(d, e, vars, mask, val, upto - 1, c, a);
        let p = ct::assigned(d, vars, mask, val, upto - 1);
        let v = vars[upto - 1] as int;
        assert(vars[upto - 1] < d.len());
        if bits::bit(mask, upto - 1) {
            let b = bits::bit(val, upto - 1);
            components::lemma_members(c);
            assert(c.contains(vars[upto - 1]));
            assert(contract::lists(c, v));
            assert(b == a(v));
            assert(e[v] == DomainMask::only(b));
            assert(e[v].allows(b));
            assert(p[v].allows(b));
            let f = p.update(v, ct::restricted(p[v], b));
            assert forall|u: int, x: bool| 0 <= u < f.len() && (#[trigger] e[u].allows(x)) implies f[u].allows(x) by {
                assert(p[u].allows(x));
            }
        }
    }
}

/// A set of the values of `q` on the component is kept by the clause that led there.
proof fn lemma_clause_kept(d: Seq<DomainMask>, q: Seq<DomainMask>, c: Seq<usize>, vars: Seq<usize>, mask: u64, val: u64, a: Asg)
    requires
        vars.len() <= 64,
        network::distinct(vars),
        forall|i: int| 0 <= i < vars.len() ==> (#[trigger] vars[i]) < d.len(),
        forall|i: int| 0 <= i < vars.len() ==> c.contains(#[trigger] vars[i]) && !d[vars[i] as int].fixed(),
        propagate::all_live(d),
        propagate::all_live(q),
        ct::narrower(q, ct::assigned(d, vars, mask, val, vars.len() as int)),
        forall|v: int| contract::lists(c, v) && !d[v].fixed() && q[v].fixed() ==> #[trigger] a(v) == (q[v] == DomainMask::D1),
    ensures
        clause_keeps(vars, mask, val)(a),
{
    components::lemma_members(c);
    assert forall|i: int| 0 <= i < vars.len() && #[trigger] bits::bit(mask, i) implies bits::bit(val, i) == a(vars[i] as int) by {
        let v = vars[i] as int;
        lemma_assigned_at(d, vars, mask, val, vars.len() as int, i);
        assert(vars[i] < d.len());
        let b = bits::bit(val, i);
        let p = ct::assigned(d, vars, mask, val, vars.len() as int);
        assert(d[v].live());
        assert(p[v] == DomainMask::only(b));
        assert(q[v].live());
        assert(q[v].allows(true) ==> p[v].allows(true));
        assert(q[v].allows(false) ==> p[v].allows(false));
        assert(q[v] == DomainMask::only(b));
        assert(c.contains(vars[i]));
        assert(contract::lists(c, v));
    }
}

/// What an assignment makes of an open variable.
pub proof fn lemma_assigned_at(d: Seq<DomainMask>, vars: Seq<usize>, mask: u64, val: u64, upto: int, i: int)
    requires
        network::distinct(vars),
        0 <= i < vars.len(),
        0 <= upto <= vars.len(),
        forall|i: int| 0 <= i < vars.len() ==> (#[trigger] vars[i]) < d.len(),
    ensures
        ct::assigned(d, vars, mask, val, upto).len() == d.len(),
        ct::assigned(d, vars, mask, val, upto)[vars[i] as int] == (if i < upto && bits::bit(mask, i) {
            ct::restricted(d[vars[i] as int], bits::bit(val, i))
        } else {
            d[vars[i] as int]
        }),
    decreases upto,
{
    if upto > 0 {
        lemma_assigned_at(d, vars, mask, val, upto - 1, i);
        assert(vars[upto - 1] < d.len());
        assert(vars[i] < d.len());
        if i != upto - 1 {
            assert(vars[i] != vars[upto - 1]);
        }
    }
}

/// The list of the involved constraints.
spec fn lists_involved<W: Weight>(cn: ConstraintNetwork, weights: Seq<Vec<W>>, d: Seq<DomainMask>, c: Seq<usize>, list: Seq<usize>) -> bool {
    &&& network::ascending_ids(list)
    &&& forall|t: usize| #[trigger] list.contains(t) <==> (t < cn.m() && localsum::involved(cn, weights, d, c, t as int))
}

/// One branch: set variables, propagate and probe, take the weights of the constraints that
/// became constant, and count what is left of the component.
#[verifier::rlimit(60)]
fn count_branch<W: Weight>(ctx: &CountCtx<W>, stats: &mut Stats, buffer: &mut SolverBuffer, doms: &mut Vec<DomainMask>, tables: &mut Vec<RSparseBitSet>, log: &mut Trail, comp: &[usize], live_before: &Vec<usize>, vars: &[usize], mask: u64, val: u64) -> (r: W)
    requires
        ctx.ok(),
        tallies(ctx.branch, *old(stats)),
        solver::at_rest(ctx.net(), (old(doms)@, trail::frozen(old(tables)@)), *old(buffer), *old(log)),
        localsum::shut_off(ctx.net(), ctx.ws(), old(doms)@, comp@),
        network::ascending_ids(comp@),
        lists_involved(ctx.net(), ctx.ws(), old(doms)@, comp@, live_before@),
        vars@.len() <= 64,
        network::distinct(vars@),
        forall|i: int| 0 <= i < vars@.len() ==> comp@.contains(#[trigger] vars@[i]) && !old(doms)@[vars@[i] as int].fixed(),
        exists|i: int| 0 <= i < vars@.len() && #[trigger] bits::bit(mask, i),
    ensures
        (final(doms)@, trail::frozen(final(tables)@)) == (old(doms)@, trail::frozen(old(tables)@)),
        ct::logged(*final(log), (final(doms)@, trail::frozen(final(tables)@)), *old(log), (old(doms)@, trail::frozen(old(tables)@))),
        final(buffer).clean(ctx.net()),
        tallies(ctx.branch, *final(stats)),
        r.val() == branch_total(ctx.net(), ctx.ws(), old(doms)@, comp@, clause_keeps(vars@, mask, val)),
        exists|k: nat| #[trigger] stepped(*old(stats), *final(stats), -1, (k + 1) as nat),
    decreases ct::both_count(old(doms)@, old(doms)@.len() as int), 0int,
{
    let ghost net = ctx.net();
    let ghost ws = ctx.ws();
    let ghost d0 = doms@;
    let ghost c = comp@;
    let ghost s0: State = (doms@, trail::frozen(tables@));
    let ghost l0 = *log;
    let ghost keep = clause_keeps(vars@, mask, val);
    let ghost a0 = ct::assigned(d0, vars@, mask, val, vars@.len() as int);
    let ghost st0 = *stats;
    proof {
        assert forall|i: int| 0 <= i < vars@.len() implies (#[trigger] vars@[i]) < net.n() by {
            let q = c.index_of(vars@[i]);
            assert(c[q] < net.n());
        }
    }
    stats.record_visit();
    let ghost st1 = *stats;
    log.open();
    let ghost l1 = *log;
    let mark: usize = log.mark();
    proof {
        solver::lemma_same_log(l1, l0, s0);
    }
    let mut w = W::zero();
    let mut ok = propagate::assign(ctx.cn, doms, ctx.masks, tables, buffer, log, vars, mask, val);
    let ghost d1 = doms@;
    let ghost s1: State = (doms@, trail::frozen(tables@));
    let ghost l2 = *log;
    let ghost mut pool_ids: Seq<usize> = Seq::empty();
    if ok {
        let pool = component_occurrence_pool(ctx.cn, doms.as_slice(), buffer, ctx.masks.as_slice(), comp);
        proof {
            selector::lemma_ranked_ids(net, d1, c, pool@, selector::FAILED_LITERAL_POOL as int);
            pool_ids = pool@;
            assert forall|i: int| 0 <= i < pool@.len() implies (#[trigger] pool@[i]) < net.n() by {
                let q = c.index_of(pool@[i]);
                assert(c[q] < net.n());
            }
        }
        ok = propagate::failed_literal_fixpoint(ctx.cn, doms, ctx.masks, tables, buffer, log, pool.as_slice());
        proof {
            ct::lemma_logged_trans(*log, (doms@, trail::frozen(tables@)), l2, s1, l1, s0);
            ct::lemma_narrower_trans(doms@, d1, d0);
        }
        if !ok {
            proof {
                lemma_branch_empty(net, ws, d0, c, vars@, mask, val, d1, pool_ids, true);
            }
        }
    } else {
        proof {
            lemma_branch_empty(net, ws, d0, c, vars@, mask, val, d1, pool_ids, false);
        }
    }
    let ghost q = doms@;
    if ok {
        let ghost s2: State = (doms@, trail::frozen(tables@));
        let ghost l3 = *log;
        proof {
            ct::lemma_narrower_trans(q, d1, a0);
            assert(propagate::all_live(d0) && propagate::all_live(q));
            solver::lemma_fixed_stays(d0, q);
            localsum::lemma_shut_later(net, ws, d0, q, c);
            solver::lemma_assigned_less(d0, q, vars@, mask, val);
        }
        let mut delta = W::one();
        let mut i: usize = 0;
        let ghost rf = localsum::resolved_factors(net, ws, d0, q, c);
        let ghost live = live_before@;
        proof {
            assert(Seq::new(0nat, |j: int| rf[live[j] as int]) =~= Seq::<real>::empty());
        }
        while i < live_before.len()
            invariant
                ctx.ok(),
                net == ctx.net(),
                ws == ctx.ws(),
                q == doms@,
                q.len() == net.n(),
                live == live_before@,
                i <= live.len(),
                lists_involved(net, ws, d0, c, live),
                rf == localsum::resolved_factors(net, ws, d0, q, c),
                delta.val() == sums::product(Seq::new(i as nat, |j: int| rf[live[j] as int])),
            decreases live_before.len() - i,
        {
            let t: usize = live_before[i];
            proof {
                assert(live.contains(t));
            }
            let ghost next = Seq::new((i + 1) as nat, |j: int| rf[live[j] as int]);
            proof {
                assert(next.drop_last() =~= Seq::new(i as nat, |j: int| rf[live[j] as int]));
                assert(next.last() == rf[t as int]);
                lemma_settled_keeps(q);
            }
            match sliced::sliced_constant(ctx.cn, ctx.weights, t, doms.as_slice()) {
                Some(cw) => {
                    delta = delta.mul(&cw);
                },
                None => {},
            }
            i += 1;
        }
        proof {
            assert forall|j: int| 0 <= j < live.len() implies (#[trigger] live[j]) < rf.len() by {
                assert(live.contains(live[j]));
            }
            components::lemma_members(live);
            assert(net.tensors.len() == net.m());
            assert forall|t: int| 0 <= t < rf.len() && !contract::lists(live, t) implies #[trigger] rf[t] == 1real by {
                assert(!live.contains(t as usize)) by {
                    if live.contains(t as usize) {
                        assert(components::members(live)(t as usize as int));
                    }
                }
            }
            lemma_list_product(rf, live);
        }
        let sub = count_scope(ctx, stats, buffer, doms, tables, log, comp);
        proof {
            ct::lemma_logged_trans(*log, (doms@, trail::frozen(tables@)), l3, s2, l1, s0);
        }
        w = delta.mul(&sub);
        proof {
            lemma_branch_sum(net, ws, d0, c, vars@, mask, val, d1, q, pool_ids);
        }
    }
    let ghost l4 = *log;
    let ghost s4: State = (doms@, trail::frozen(tables@));
    log.restore_to(mark, doms, tables);
    proof {
        propagate::lemma_restored(l1, s0, l4, s4, *log, (doms@, trail::frozen(tables@)), mark as int);
        ct::lemma_logged_trans(*log, s0, l1, s0, l0, s0);
        let k = if ok {
            choose|k: nat| #[trigger] stepped(st1, *stats, 0, k)
        } else {
            0nat
        };
        assert(stepped(st0, *stats, -1, (k + 1) as nat));
    }
    w
}

proof fn lemma_settled_keeps(d: Seq<DomainMask>)
    ensures
        util::keeps_fixed(d, localsum::settled(d)),
{
}

/// The product over a list that holds all factors other than one.
proof fn lemma_list_product(s: Seq<real>, list: Seq<usize>)
    requires
        network::ascending_ids(list),
        forall|i: int| 0 <= i < list.len() ==> (#[trigger] list[i]) < s.len(),
        forall|t: int| 0 <= t < s.len() && !contract::lists(list, t) ==> #[trigger] s[t] == 1real,
    ensures
        sums::product(s) == sums::product(Seq::new(list.len(), |j: int| s[list[j] as int])),
{
    assert(list.no_duplicates());
    sums::lemma_product_split(s, list);
    localsum::lemma_ones(sums::without_factors(s, list));
}

/// A branch that propagation or probing closes contributes nothing.
proof fn lemma_branch_empty<W: Weight>(cn: ConstraintNetwork, weights: Seq<Vec<W>>, d: Seq<DomainMask>, c: Seq<usize>, vars: Seq<usize>, mask: u64, val: u64, d1: Seq<DomainMask>, pool: Seq<usize>, probed: bool)
    requires
        cn.wf(),
        ct::closed_under(cn, d),
        localsum::shut_off(cn, weights, d, c),
        vars.len() <= 64,
        network::distinct(vars),
        forall|i: int| 0 <= i < vars.len() ==> c.contains(#[trigger] vars[i]) && !d[vars[i] as int].fixed(),
        !probed ==> ct::refuted(cn, ct::assigned(d, vars, mask, val, vars.len() as int)),
        probed ==> ct::keeps_closed(cn, ct::assigned(d, vars, mask, val, vars.len() as int), d1) && models::undecidable(cn, d1, pool) && d1.len() == cn.n() && ct::narrower(d1, d) && propagate::all_live(d1),
        forall|i: int| 0 <= i < pool.len() ==> c.contains(#[trigger] pool[i]) && !d1[pool[i] as int].fixed(),
    ensures
        branch_total(cn, weights, d, c, clause_keeps(vars, mask, val)) == 0real,
{
    let keep = clause_keeps(vars, mask, val);
    let p = localsum::picked(cn, weights, d, c, keep);
    assert forall|a: Asg| sums::same_outside(localsum::settled(d), a, localsum::open_of(d, c)) implies #[trigger] p(a) == 0real by {
        if p(a) != 0real {
            lemma_branch_within(cn, weights, d, c, vars, mask, val, a);
            let e = localsum::refined(d, c, a);
            if probed {
                assert(ct::narrower(e, d1));
                lemma_refined_decides(cn, d, d1, c, a, pool);
            }
        }
    }
    sums::lemma_total_zero(p, localsum::settled(d), localsum::open_of(d, c));
}

/// The values of a component decide a pool of its variables.
proof fn lemma_refined_decides(cn: ConstraintNetwork, d: Seq<DomainMask>, d1: Seq<DomainMask>, c: Seq<usize>, a: Asg, pool: Seq<usize>)
    requires
        d.len() == cn.n(),
        d1.len() == cn.n(),
        ct::narrower(d1, d),
        propagate::all_live(d1),
        forall|i: int| 0 <= i < c.len() ==> (#[trigger] c[i]) < cn.n(),
        forall|i: int| 0 <= i < pool.len() ==> c.contains(#[trigger] pool[i]) && !d1[pool[i] as int].fixed(),
    ensures
        models::decided_on(localsum::refined(d, c, a), pool),
{
    components::lemma_members(c);
    solver::lemma_fixed_stays(d, d1);
    assert forall|i: int| 0 <= i < pool.len() implies localsum::refined(d, c, a)[(#[trigger] pool[i]) as int].fixed() by {
        let q = c.index_of(pool[i]);
        assert(c[q] < cn.n());
        assert(c.contains(pool[i]));
        assert(contract::lists(c, pool[i] as int));
    }
}

/// What a branch that stays open contributes.
proof fn lemma_branch_sum<W: Weight>(cn: ConstraintNetwork, weights: Seq<Vec<W>>, d: Seq<DomainMask>, c: Seq<usize>, vars: Seq<usize>, mask: u64, val: u64, d1: Seq<DomainMask>, q: Seq<DomainMask>, pool: Seq<usize>)
    requires
        cn.wf(),
        ct::closed_under(cn, d),
        ct::closed_under(cn, d1),
        ct::closed_under(cn, q),
        localsum::shut_off(cn, weights, d, c),
        vars.len() <= 64,
        network::distinct(vars),
        forall|i: int| 0 <= i < vars.len() ==> c.contains(#[trigger] vars[i]) && !d[vars[i] as int].fixed(),
        ct::keeps_closed(cn, ct::assigned(d, vars, mask, val, vars.len() as int), d1),
        models::keeps_decided(cn, d1, q, pool),
        ct::narrower(d1, d),
        ct::narrower(q, d),
        ct::narrower(q, ct::assigned(d, vars, mask, val, vars.len() as int)),
        forall|i: int| 0 <= i < pool.len() ==> c.contains(#[trigger] pool[i]) && !d1[pool[i] as int].fixed(),
    ensures
        branch_total(cn, weights, d, c, clause_keeps(vars, mask, val)) == sums::product(localsum::resolved_factors(cn, weights, d, q, c)) * localsum::local_total(cn, weights, q, c),
{
    let keep = clause_keeps(vars, mask, val);
    assert(propagate::all_live(d) && propagate::all_live(q) && propagate::all_live(d1));
    solver::lemma_fixed_stays(d, q);
    assert forall|i: int| 0 <= i < vars.len() implies (#[trigger] vars[i]) < d.len() by {
        let x = c.index_of(vars[i]);
        assert(c[x] < cn.n());
    }
    assert forall|a: Asg| sums::same_outside(localsum::settled(d), a, localsum::open_of(d, c)) && #[trigger] localsum::picked(cn, weights, d, c, keep)(a) != 0real implies ct::narrower(localsum::refined(d, c, a), q) by {
        lemma_branch_within(cn, weights, d, c, vars, mask, val, a);
        let e = localsum::refined(d, c, a);
        assert(ct::narrower(e, d1));
        lemma_refined_decides(cn, d, d1, c, a, pool);
    }
    assert forall|a: Asg| (forall|v: int| contract::lists(c, v) && !d[v].fixed() && q[v].fixed() ==> #[trigger] a(v) == (q[v] == DomainMask::D1)) implies #[trigger] keep(a) by {
        lemma_clause_kept(d, q, c, vars, mask, val, a);
    }
    localsum::lemma_branch_total(cn, weights, d, q, c, keep);
}

/// The weighted count over the open variables of `scope`: its components multiply.
#[verifier::rlimit(60)]
fn count_scope<W: Weight>(ctx: &CountCtx<W>, stats: &mut Stats, buffer: &mut SolverBuffer, doms: &mut Vec<DomainMask>, tables: &mut Vec<RSparseBitSet>, log: &mut Trail, scope: &[usize]) -> (r: W)
    requires
        ctx.ok(),
        tallies(ctx.branch, *old(stats)),
        solver::at_rest(ctx.net(), (old(doms)@, trail::frozen(old(tables)@)), *old(buffer), *old(log)),
        localsum::shut_off(ctx.net(), ctx.ws(), old(doms)@, scope@),
    ensures
        (final(doms)@, trail::frozen(final(tables)@)) == (old(doms)@, trail::frozen(old(tables)@)),
        ct::logged(*final(log), (final(doms)@, trail::frozen(final(tables)@)), *old(log), (old(doms)@, trail::frozen(old(tables)@))),
        final(buffer).clean(ctx.net()),
        tallies(ctx.branch, *final(stats)),
        r.val() == localsum::local_total(ctx.net(), ctx.ws(), old(doms)@, scope@),
        in_step(*old(stats), *final(stats)),
    decreases ct::both_count(old(doms)@, old(doms)@.len() as int), 2int,
{
    let ghost net = ctx.net();
    let ghost ws = ctx.ws();
    let ghost d = doms@;
    let ghost s0: State = (doms@, trail::frozen(tables@));
    let ghost l0 = *log;
    let ghost live = localsum::wlive(net, ws, d);
    let ghost st0 = *stats;
    let mut comps = split_components_counting(ctx.cn, ctx.weights, doms.as_slice(), scope);
    let ghost split = comps@;
    proof {
        solver::lemma_heads_differ(net, d, live, scope@, comps@);
        assert(stepped(st0, *stats, 0, 0));
    }
    if comps.len() > 1 {
        stats.record_split();
        let n: usize = doms.len();
        comps = components::smallest_first(comps, n);
    }
    proof {
        lemma_comps_kept(net, d, live, scope@, split, comps@);
        assert(stepped(st0, *stats, 0, 0));
        solver::lemma_logged_self(l0, s0);
        lemma_empty_local(net, ws, d);
    }
    let mut product = W::one();
    let mut k: usize = 0;
    let ghost mut done: Seq<usize> = Seq::empty();
    while k < comps.len()
        invariant
            ctx.ok(),
            net == ctx.net(),
            ws == ctx.ws(),
            d == old(doms)@,
            s0 == (old(doms)@, trail::frozen(old(tables)@)),
            l0 == *old(log),
            st0 == *old(stats),
            live == localsum::wlive(net, ws, d),
            (doms@, trail::frozen(tables@)) == s0,
            solver::at_rest(net, s0, *buffer, *log),
            ct::logged(*log, s0, l0, s0),
            in_step(st0, *stats),
            tallies(ctx.branch, *stats),
            localsum::shut_off(net, ws, d, scope@),
            k <= comps@.len(),
            own_parts(net, d, live, scope@, comps@),
            localsum::shut_off(net, ws, d, done),
            gathers(comps@, k as int, done),
            product.val() == localsum::local_total(net, ws, d, done),
        decreases comps.len() - k,
    {
        let ghost l1 = *log;
        let ghost st1 = *stats;
        let ghost c = comps@[k as int]@;
        proof {
            assert(components::component(net, d, live, comps@[k as int]@));
        }
        let w = count_component(ctx, stats, buffer, doms, tables, log, comps[k].as_slice());
        proof {
            ct::lemma_logged_trans(*log, s0, l1, s0, l0, s0);
            lemma_in_step_trans(st0, st1, *stats);
            lemma_shut_component(net, ws, d, c);
            lemma_gathered_apart(net, d, live, scope@, comps@, k as int, done);
            localsum::lemma_local_product(net, ws, d, done, c);
        }
        if w.is_zero() {
            proof {
                lemma_zero_component(net, ws, d, scope@, comps@, k as int, done, c);
            }
            return W::zero();
        }
        product = product.mul(&w);
        proof {
            lemma_gathers_next(comps@, k as int, done);
            done = done + c;
        }
        k += 1;
    }
    proof {
        lemma_gathered_all(net, d, live, scope@, comps@, done);
        localsum::lemma_local_reorder(net, ws, d, done, scope@);
    }
    product
}

/// Components of a scope, pairwise apart, that cover its open variables.
spec fn own_parts(cn: ConstraintNetwork, d: Seq<DomainMask>, live: Seq<bool>, scope: Seq<usize>, comps: Seq<Vec<usize>>) -> bool {
    &&& forall|k: int| 0 <= k < comps.len() ==> components::component(cn, d, live, (#[trigger] comps[k])@) && components::meets(scope, comps[k]@)
    &&& forall|j: int, k: int| 0 <= j < k < comps.len() ==> components::apart((#[trigger] comps[j])@, (#[trigger] comps[k])@)
    &&& forall|i: int| 0 <= i < scope.len() && !d[(#[trigger] scope[i]) as int].fixed() ==> components::in_some(comps, scope[i])
}

/// `done` holds what the first `k` components hold.
spec fn gathers(comps: Seq<Vec<usize>>, k: int, done: Seq<usize>) -> bool {
    forall|v: usize| #[trigger] done.contains(v) <==> in_first(comps, k, v)
}

/// One of the first `k` components holds `v`.
spec fn in_first(comps: Seq<Vec<usize>>, k: int, v: usize) -> bool {
    exists|j: int| 0 <= j < k && (#[trigger] comps[j])@.contains(v)
}

proof fn lemma_comps_kept(cn: ConstraintNetwork, d: Seq<DomainMask>, live: Seq<bool>, scope: Seq<usize>, split: Seq<Vec<usize>>, comps: Seq<Vec<usize>>)
    requires
        components::components(cn, d, live, scope, split),
        comps == split || same_parts(split, comps),
    ensures
        own_parts(cn, d, live, scope, comps),
{
    if comps != split {
        assert forall|k: int| 0 <= k < comps.len() implies components::component(cn, d, live, (#[trigger] comps[k])@) && components::meets(scope, comps[k]@) by {
            assert(components::in_list(split, comps[k]@));
            let q = choose|q: int| 0 <= q < split.len() && (#[trigger] split[q])@ == comps[k]@;
            assert(components::component(cn, d, live, split[q]@));
            assert(components::meets(scope, split[q]@));
        }
        lemma_parts_apart(split, comps);
        assert forall|i: int| 0 <= i < scope.len() && !d[(#[trigger] scope[i]) as int].fixed() implies components::in_some(comps, scope[i]) by {
            assert(components::in_some(split, scope[i]));
            lemma_parts_cover(split, comps, scope[i]);
        }
    }
}

/// The same components in another order.
spec fn same_parts(split: Seq<Vec<usize>>, comps: Seq<Vec<usize>>) -> bool {
    &&& comps.len() == split.len()
    &&& forall|k: int| 0 <= k < comps.len() ==> components::in_list(split, (#[trigger] comps[k])@)
    &&& forall|q: int| 0 <= q < split.len() ==> components::in_list(comps, (#[trigger] split[q])@)
    &&& forall|j: int, k: int| 0 <= j < k < comps.len() ==> (#[trigger] comps[j])@[0] != (#[trigger] comps[k])@[0]
}

proof fn lemma_parts_apart(split: Seq<Vec<usize>>, comps: Seq<Vec<usize>>)
    requires
        same_parts(split, comps),
        forall|j: int, k: int| 0 <= j < k < split.len() ==> components::apart((#[trigger] split[j])@, (#[trigger] split[k])@),
    ensures
        forall|j: int, k: int| 0 <= j < k < comps.len() ==> components::apart((#[trigger] comps[j])@, (#[trigger] comps[k])@),
{
    assert forall|j: int, k: int| 0 <= j < k < comps.len() implies components::apart((#[trigger] comps[j])@, (#[trigger] comps[k])@) by {
        assert(components::in_list(split, comps[j]@) && components::in_list(split, comps[k]@));
        let x = choose|q: int| 0 <= q < split.len() && (#[trigger] split[q])@ == comps[j]@;
        let y = choose|q: int| 0 <= q < split.len() && (#[trigger] split[q])@ == comps[k]@;
        assert(comps[j]@[0] != comps[k]@[0]);
        if x < y {
            assert(components::apart(split[x]@, split[y]@));
        } else if y < x {
            assert(components::apart(split[y]@, split[x]@));
            assert forall|v: usize| #[trigger] comps[j]@.contains(v) implies !comps[k]@.contains(v) by {
                if comps[k]@.contains(v) {
                    assert(split[y]@.contains(v));
                }
            }
        }
    }
}

proof fn lemma_parts_cover(split: Seq<Vec<usize>>, comps: Seq<Vec<usize>>, v: usize)
    requires
        same_parts(split, comps),
        components::in_some(split, v),
    ensures
        components::in_some(comps, v),
{
    let q = choose|q: int| 0 <= q < split.len() && (#[trigger] split[q])@.contains(v);
    assert(components::in_list(comps, split[q]@));
    let x = choose|x: int| 0 <= x < comps.len() && (#[trigger] comps[x])@ == split[q]@;
    assert(comps[x]@.contains(v));
}

proof fn lemma_empty_local<W: Weight>(cn: ConstraintNetwork, weights: Seq<Vec<W>>, d: Seq<DomainMask>)
    ensures
        localsum::shut_off(cn, weights, d, Seq::empty()),
        localsum::local_total(cn, weights, d, Seq::empty()) == 1real,
{
    let none = Seq::<usize>::empty();
    assert forall|t: int| 0 <= t < cn.m() implies !#[trigger] localsum::involved(cn, weights, d, none, t) by {}
    localsum::lemma_local_free(cn, weights, d, none);
}

proof fn lemma_shut_component<W: Weight>(cn: ConstraintNetwork, weights: Seq<Vec<W>>, d: Seq<DomainMask>, c: Seq<usize>)
    requires
        components::component(cn, d, localsum::wlive(cn, weights, d), c),
    ensures
        localsum::shut_off(cn, weights, d, c),
{
}

proof fn lemma_gathered_apart(cn: ConstraintNetwork, d: Seq<DomainMask>, live: Seq<bool>, scope: Seq<usize>, comps: Seq<Vec<usize>>, k: int, done: Seq<usize>)
    requires
        own_parts(cn, d, live, scope, comps),
        0 <= k < comps.len(),
        gathers(comps, k, done),
    ensures
        forall|v: int| contract::lists(done, v) ==> !#[trigger] contract::lists(comps[k]@, v),
{
    assert forall|v: int| contract::lists(done, v) implies !#[trigger] contract::lists(comps[k]@, v) by {
        let i = choose|i: int| 0 <= i < done.len() && (#[trigger] done[i]) as int == v;
        assert(done.contains(done[i]));
        let j = choose|j: int| 0 <= j < k && (#[trigger] comps[j])@.contains(done[i]);
        assert(components::apart(comps[j]@, comps[k]@));
        if contract::lists(comps[k]@, v) {
            let x = choose|x: int| 0 <= x < comps[k]@.len() && (#[trigger] comps[k]@[x]) as int == v;
            assert(comps[k]@.contains(done[i]));
        }
    }
}

proof fn lemma_gathers_next(comps: Seq<Vec<usize>>, k: int, done: Seq<usize>)
    requires
        0 <= k < comps.len(),
        gathers(comps, k, done),
    ensures
        gathers(comps, k + 1, done + comps[k]@),
{
    let c = comps[k]@;
    let all = done + c;
    assert forall|v: usize| #[trigger] all.contains(v) <==> in_first(comps, k + 1, v) by {
        components::lemma_members(all);
        components::lemma_members(done);
        components::lemma_members(c);
        localsum::lemma_lists_concat(done, c, v as int);
        assert(all.contains(v) <==> (done.contains(v) || c.contains(v)));
        if done.contains(v) {
            let j = choose|j: int| 0 <= j < k && (#[trigger] comps[j])@.contains(v);
            assert(comps[j]@.contains(v));
        }
        if c.contains(v) {
            assert(comps[k]@.contains(v));
        }
        if in_first(comps, k + 1, v) {
            let j = choose|j: int| 0 <= j < k + 1 && (#[trigger] comps[j])@.contains(v);
            if j < k {
                assert(in_first(comps, k, v));
            }
        }
    }
}

proof fn lemma_gathered_all(cn: ConstraintNetwork, d: Seq<DomainMask>, live: Seq<bool>, scope: Seq<usize>, comps: Seq<Vec<usize>>, done: Seq<usize>)
    requires
        own_parts(cn, d, live, scope, comps),
        components::sealed(cn, d, live, components::members(scope)),
        gathers(comps, comps.len() as int, done),
    ensures
        forall|v: int| !d[v].fixed() ==> (#[trigger] contract::lists(done, v) <==> contract::lists(scope, v)),
{
    lemma_parts_inside(cn, d, live, scope, comps);
    assert forall|v: int| !d[v].fixed() implies (#[trigger] contract::lists(done, v) <==> contract::lists(scope, v)) by {
        if contract::lists(done, v) {
            lemma_gathered_in(scope, comps, done, v);
        }
        if contract::lists(scope, v) {
            lemma_gathered_from(cn, d, live, scope, comps, done, v);
        }
    }
}

/// Every id of the components is in the scope.
spec fn parts_inside(scope: Seq<usize>, comps: Seq<Vec<usize>>) -> bool {
    forall|k: int| 0 <= k < comps.len() ==> models::ids_within((#[trigger] comps[k])@, scope)
}

proof fn lemma_parts_inside(cn: ConstraintNetwork, d: Seq<DomainMask>, live: Seq<bool>, scope: Seq<usize>, comps: Seq<Vec<usize>>)
    requires
        own_parts(cn, d, live, scope, comps),
        components::sealed(cn, d, live, components::members(scope)),
    ensures
        parts_inside(scope, comps),
{
    assert forall|k: int| 0 <= k < comps.len() implies models::ids_within((#[trigger] comps[k])@, scope) by {
        components::lemma_component_inside(cn, d, live, scope, comps[k]@);
    }
}

proof fn lemma_gathered_in(scope: Seq<usize>, comps: Seq<Vec<usize>>, done: Seq<usize>, v: int)
    requires
        parts_inside(scope, comps),
        gathers(comps, comps.len() as int, done),
        contract::lists(done, v),
    ensures
        contract::lists(scope, v),
{
    let i = choose|i: int| 0 <= i < done.len() && (#[trigger] done[i]) as int == v;
    assert(done.contains(done[i]));
    let j = choose|j: int| 0 <= j < comps.len() && (#[trigger] comps[j])@.contains(done[i]);
    let x = comps[j]@.index_of(done[i]);
    assert(scope.contains(comps[j]@[x]));
    let y = scope.index_of(done[i]);
    assert(scope[y] as int == v);
}

proof fn lemma_gathered_from(cn: ConstraintNetwork, d: Seq<DomainMask>, live: Seq<bool>, scope: Seq<usize>, comps: Seq<Vec<usize>>, done: Seq<usize>, v: int)
    requires
        own_parts(cn, d, live, scope, comps),
        gathers(comps, comps.len() as int, done),
        contract::lists(scope, v),
        !d[v].fixed(),
    ensures
        contract::lists(done, v),
{
    let i = choose|i: int| 0 <= i < scope.len() && (#[trigger] scope[i]) as int == v;
    assert(components::in_some(comps, scope[i]));
    let j = choose|j: int| 0 <= j < comps.len() && (#[trigger] comps[j])@.contains(scope[i]);
    assert(in_first(comps, comps.len() as int, scope[i]));
    assert(done.contains(scope[i]));
    let y = done.index_of(scope[i]);
    assert(done[y] as int == v);
}

/// A component that counts zero makes the whole zero.
proof fn lemma_zero_component<W: Weight>(cn: ConstraintNetwork, weights: Seq<Vec<W>>, d: Seq<DomainMask>, scope: Seq<usize>, comps: Seq<Vec<usize>>, k: int, done: Seq<usize>, c: Seq<usize>)
    requires
        cn.wf(),
        d.len() == cn.n(),
        own_parts(cn, d, localsum::wlive(cn, weights, d), scope, comps),
        localsum::shut_off(cn, weights, d, scope),
        0 <= k < comps.len(),
        c == comps[k]@,
        localsum::shut_off(cn, weights, d, done + c),
        localsum::local_total(cn, weights, d, done + c) == 0real,
        gathers(comps, k, done),
    ensures
        localsum::local_total(cn, weights, d, scope) == 0real,
{
    lemma_gathers_next(comps, k, done);
    lemma_zero_rest(cn, weights, d, scope, comps, k + 1, done + c);
}

proof fn lemma_zero_rest<W: Weight>(cn: ConstraintNetwork, weights: Seq<Vec<W>>, d: Seq<DomainMask>, scope: Seq<usize>, comps: Seq<Vec<usize>>, k: int, done: Seq<usize>)
    requires
        cn.wf(),
        d.len() == cn.n(),
        own_parts(cn, d, localsum::wlive(cn, weights, d), scope, comps),
        localsum::shut_off(cn, weights, d, scope),
        0 <= k <= comps.len(),
        localsum::shut_off(cn, weights, d, done),
        localsum::local_total(cn, weights, d, done) == 0real,
        gathers(comps, k, done),
    ensures
        localsum::local_total(cn, weights, d, scope) == 0real,
    decreases comps.len() - k,
{
    let live = localsum::wlive(cn, weights, d);
    if k == comps.len() {
        lemma_gathered_all(cn, d, live, scope, comps, done);
        localsum::lemma_local_reorder(cn, weights, d, done, scope);
    } else {
        let c = comps[k]@;
        assert(components::component(cn, d, live, comps[k]@));
        lemma_shut_component(cn, weights, d, c);
        lemma_gathered_apart(cn, d, live, scope, comps, k, done);
        localsum::lemma_local_product(cn, weights, d, done, c);
        lemma_gathers_next(comps, k, done);
        assert(0real * localsum::local_total(cn, weights, d, c) == 0real) by (nonlinear_arith);
        lemma_zero_rest(cn, weights, d, scope, comps, k + 1, done + c);
    }
}

/// The weighted count of one component: the sum over the branches of a partition.
fn count_component<W: Weight>(ctx: &CountCtx<W>, stats: &mut Stats, buffer: &mut SolverBuffer, doms: &mut Vec<DomainMask>, tables: &mut Vec<RSparseBitSet>, log: &mut Trail, comp: &[usize]) -> (r: W)
    requires
        ctx.ok(),
        tallies(ctx.branch, *old(stats)),
        solver::at_rest(ctx.net(), (old(doms)@, trail::frozen(old(tables)@)), *old(buffer), *old(log)),
        components::component(ctx.net(), old(doms)@, localsum::wlive(ctx.net(), ctx.ws(), old(doms)@), comp@),
    ensures
        (final(doms)@, trail::frozen(final(tables)@)) == (old(doms)@, trail::frozen(old(tables)@)),
        ct::logged(*final(log), (final(doms)@, trail::frozen(final(tables)@)), *old(log), (old(doms)@, trail::frozen(old(tables)@))),
        final(buffer).clean(ctx.net()),
        tallies(ctx.branch, *final(stats)),
        r.val() == localsum::local_total(ctx.net(), ctx.ws(), old(doms)@, comp@),
        in_step(*old(stats), *final(stats)),
    decreases ct::both_count(old(doms)@, old(doms)@.len() as int), 1int,
{
    let ghost net = ctx.net();
    let ghost ws = ctx.ws();
    let ghost d = doms@;
    let ghost c = comp@;
    let ghost s0: State = (doms@, trail::frozen(tables@));
    let ghost l0 = *log;
    let ghost st0 = *stats;
    proof {
        lemma_shut_component(net, ws, d, c);
        solver::lemma_logged_self(l0, s0);
    }
    let live_before = comp_incident_live(ctx.cn, ctx.weights, comp, doms.as_slice());
    proof {
        lemma_live_before(net, ws, d, c, live_before@);
        assert(stepped(st0, *stats, 0, 0));
    }
    match selector::select_var_most_occurrence(ctx.cn, doms.as_slice(), buffer, comp, ctx.masks.as_slice()) {
        Some(focus) => {
            proof {
                let i = choose|i: int| 0 <= i < c.len() && #[trigger] c[i] == focus && selector::score(net, d, focus as int) > 0;
                assert(c.contains(focus));
                let t = selector::lemma_some_occurrence(net, d, focus as int, net.m());
                assert(net.axes(t).contains(focus));
            }
            let (region, rel, _closed) = region::grow_region_with_closure(ctx.cn, doms.as_slice(), focus, ctx.max_rows, ctx.masks.as_slice());
            proof {
                table::lemma_region_vars(net, d, true, focus, ctx.max_rows as int, region, rel);
                lemma_region_inside(net, ws, d, c, focus, ctx.max_rows as int, region, rel);
            }
            let found = propagate::feasible_configs(ctx.cn, doms, ctx.masks, tables, buffer, log, region.vars.as_slice(), rel.rows.as_slice());
            let ghost p = choose|p: Seq<u64>|
                {
                    &&& p.to_multiset() == rel.rows@.to_multiset()
                    &&& #[trigger] propagate::trie_sorted(p, propagate::open_positions(d, region.vars@, region.vars@.len() as int))
                    &&& found@ == p.filter(propagate::feasible_in(net, d, region.vars@))
                };
            let ghost f0 = found@;
            let feasible = order::sort_dedup_rows(found);
            proof {
                table::lemma_feasible_list(net, d, rel, p, f0, feasible@);
                lemma_feasible_below(net, d, rel, feasible@);
            }
            if feasible.len() == 0 {
                proof {
                    lemma_region_zero(net, ws, d, c, focus, ctx.max_rows as int, region, rel, feasible@);
                }
                return W::zero();
            }
            let cubes: Vec<Subcube> = match ctx.branch {
                CountBranch::PerConfig => singleton_cubes(&feasible, region.vars.len()),
                CountBranch::BlockMerge => blockmerge::block_merge(feasible.as_slice(), region.vars.len()),
            };
            stats.record_branch(cubes.len() as u64);
            stats.record_region_partition(cubes.len() as u64, feasible.len() as u64);
            let ghost rv = region.vars@;
            let ghost total_cubes = cubes@.len() as int;
            proof {
                assert(cubes.len() == cubes@.len());
                assert(stepped(st0, *stats, total_cubes, 0));
                lemma_no_cubes(net, ws, d, c, rv, cubes@);
            }
            let mut total = W::zero();
            let mut k: usize = 0;
            let ghost mut steps: nat = 0;
            while k < cubes.len()
                invariant
                    ctx.ok(),
                    net == ctx.net(),
                    ws == ctx.ws(),
                    d == old(doms)@,
                    c == comp@,
                    s0 == (old(doms)@, trail::frozen(old(tables)@)),
                    l0 == *old(log),
                    st0 == *old(stats),
                    (doms@, trail::frozen(tables@)) == s0,
                    solver::at_rest(net, s0, *buffer, *log),
                    ct::logged(*log, s0, l0, s0),
                    localsum::shut_off(net, ws, d, c),
                    network::ascending_ids(c),
                    lists_involved(net, ws, d, c, live_before@),
                    rv == region.vars@,
                    region::grown(net, d, true, focus, ctx.max_rows as int, region, rel),
                    table::lists_feasible(net, d, rel, feasible@),
                    rv.len() <= 64,
                    network::distinct(rv),
                    forall|i: int| 0 <= i < rv.len() ==> c.contains(#[trigger] rv[i]) && !d[rv[i] as int].fixed(),
                    blockmerge::partitions(feasible@, cubes@, rv.len() as int),
                    k <= cubes@.len(),
                    total_cubes == cubes@.len(),
                    stepped(st0, *stats, total_cubes - k, steps),
                    tallies(ctx.branch, *stats),
                    total.val() == branch_total(net, ws, d, c, cubes_keep(rv, cubes@, k as int)),
                decreases cubes.len() - k,
            {
                let cube = cubes[k];
                let ghost l1 = *log;
                let ghost st1 = *stats;
                proof {
                    lemma_cube_sets(net, d, focus, ctx.max_rows as int, region, rel, feasible@, cubes@, k as int);
                }
                let w = count_branch(ctx, stats, buffer, doms, tables, log, comp, &live_before, region.vars.as_slice(), cube.mask, cube.val);
                proof {
                    ct::lemma_logged_trans(*log, s0, l1, s0, l0, s0);
                    lemma_cube_added(net, ws, d, c, rv, feasible@, cubes@, k as int);
                    let j = choose|j: nat| #[trigger] stepped(st1, *stats, -1, (j + 1) as nat);
                    steps = steps + (j + 1) as nat;
                }
                total.add(&w);
                k += 1;
            }
            proof {
                lemma_region_sum(net, ws, d, c, focus, ctx.max_rows as int, region, rel, feasible@, cubes@);
                assert(stepped(st0, *stats, 0, steps));
            }
            total
        },
        None => {
            proof {
                assert(c.len() > 0);
            }
            match first_coupled(ctx.cn, ctx.weights, doms.as_slice(), comp) {
                None => {
                    proof {
                        lemma_nothing_involved(net, ws, d, c);
                        localsum::lemma_local_free(net, ws, d, c);
                    }
                    let mut w = W::one();
                    let mut i: usize = 0;
                    while i < comp.len()
                        invariant
                            c == comp@,
                            doms@.len() == net.n(),
                            d == doms@,
                            forall|i: int| 0 <= i < c.len() ==> (#[trigger] c[i]) < net.n(),
                            i <= c.len(),
                            w.val() == util::pow2r(util::open_vars(c, d, i as int).len()),
                        decreases comp.len() - i,
                    {
                        if !doms[comp[i]].is_fixed() {
                            let ghost w0 = w.val();
                            w = w.mul(&W::free_factor(comp[i]));
                            assert(w0 * 2real == 2real * w0) by (nonlinear_arith);
                        }
                        i += 1;
                    }
                    w
                },
                Some(v) => {
                    stats.record_branch(2);
                    let vars: Vec<usize> = vec![v];
                    assert(vars@ =~= seq![v]);
                    proof {
                        assert(stepped(st0, *stats, 2, 0));
                        lemma_one_bit();
                        assert(bits::bit(1, 0));
                    }
                    let ghost st1 = *stats;
                    let zero = count_branch(ctx, stats, buffer, doms, tables, log, comp, &live_before, vars.as_slice(), 1, 0);
                    let ghost l1 = *log;
                    let ghost st2 = *stats;
                    let one = count_branch(ctx, stats, buffer, doms, tables, log, comp, &live_before, vars.as_slice(), 1, 1);
                    proof {
                        ct::lemma_logged_trans(*log, s0, l1, s0, l0, s0);
                        lemma_two_values(net, ws, d, c, v);
                        let j = choose|j: nat| #[trigger] stepped(st1, st2, -1, (j + 1) as nat);
                        let k = choose|k: nat| #[trigger] stepped(st2, *stats, -1, (k + 1) as nat);
                        assert(stepped(st0, *stats, 0, (j + k + 2) as nat));
                    }
                    let mut total = W::zero();
                    total.add(&zero);
                    total.add(&one);
                    total
                },
            }
        },
    }
}

proof fn lemma_one_bit()
    ensures
        bits::bit(1, 0),
        bits::bit(1u64, 0),
        !bits::bit(0u64, 0),
{
    broadcast use bits::group_bits;

    assert(1u64 == 1u64 << 0u64) by (bit_vector);
    assert(bits::bit(1u64 << 0u64, 0));
}

/// The first variable of the component that a constraint which is not constant mentions.
fn first_coupled<W: Weight>(cn: &ConstraintNetwork, weights: &[Vec<W>], doms: &[DomainMask], comp: &[usize]) -> (r: Option<usize>)
    requires
        cn.wf(),
        weighted::weights_fit(*cn, weights@),
        doms@.len() == cn.n(),
        forall|i: int| 0 <= i < comp@.len() ==> (#[trigger] comp@[i]) < cn.n() && !doms@[comp@[i] as int].fixed(),
    ensures
        match r {
            Some(v) => comp@.contains(v),
            None => forall|t: int| 0 <= t < cn.m() && mentions_one(*cn, comp@, t) ==> #[trigger] sliced::uniform(*cn, weights@, doms@, t),
        },
{
    let mut i: usize = 0;
    while i < comp.len()
        invariant
            cn.wf(),
            weighted::weights_fit(*cn, weights@),
            doms@.len() == cn.n(),
            forall|i: int| 0 <= i < comp@.len() ==> (#[trigger] comp@[i]) < cn.n() && !doms@[comp@[i] as int].fixed(),
            i <= comp@.len(),
            forall|t: int| 0 <= t < cn.m() && mentions_one(*cn, comp@.take(i as int), t) ==> #[trigger] sliced::uniform(*cn, weights@, doms@, t),
        decreases comp.len() - i,
    {
        let v: usize = comp[i];
        let list = &cn.v2t[v];
        let mut k: usize = 0;
        proof {
            assert(cn.incidence_wf(v as int));
        }
        while k < list.len()
            invariant
                cn.wf(),
                weighted::weights_fit(*cn, weights@),
                doms@.len() == cn.n(),
                v < cn.n(),
                i < comp@.len(),
                comp@[i as int] == v,
                cn.incidence_wf(v as int),
                list@ == cn.v2t@[v as int]@,
                k <= list@.len(),
                forall|q: int| 0 <= q < k ==> sliced::uniform(*cn, weights@, doms@, (#[trigger] list@[q]) as int),
            decreases list.len() - k,
        {
            assert(list@[k as int] < cn.m());
            if sliced::sliced_constant(cn, weights, list[k], doms).is_none() {
                assert(comp@.contains(comp@[i as int]));
                return Some(v);
            }
            k += 1;
        }
        proof {
            assert forall|t: int| 0 <= t < cn.m() && mentions_one(*cn, comp@.take(i + 1), t) implies #[trigger] sliced::uniform(*cn, weights@, doms@, t) by {
                lemma_mentions_next(*cn, comp@, i as int, t);
                assert(cn.tensors.len() == cn.m());
                if cn.axes(t).contains(v) {
                    assert(list@.contains(t as usize));
                    let q = list@.index_of(t as usize);
                    assert(sliced::uniform(*cn, weights@, doms@, list@[q] as int));
                }
            }
        }
        i += 1;
    }
    assert(comp@.take(comp@.len() as int) =~= comp@);
    None
}

proof fn lemma_nothing_involved<W: Weight>(cn: ConstraintNetwork, weights: Seq<Vec<W>>, d: Seq<DomainMask>, c: Seq<usize>)
    requires
        forall|t: int| 0 <= t < cn.m() && mentions_one(cn, c, t) ==> #[trigger] sliced::uniform(cn, weights, d, t),
    ensures
        forall|t: int| 0 <= t < cn.m() ==> !#[trigger] localsum::involved(cn, weights, d, c, t),
{
    components::lemma_members(c);
    assert forall|t: int| 0 <= t < cn.m() implies !#[trigger] localsum::involved(cn, weights, d, c, t) by {
        if localsum::involved(cn, weights, d, c, t) {
            let j = choose|j: int| 0 <= j < cn.axes(t).len() && !d[(#[trigger] cn.axes(t)[j]) as int].fixed() && contract::lists(c, cn.axes(t)[j] as int);
            assert(components::members(c)(cn.axes(t)[j] as int));
            assert(c.contains(cn.axes(t)[j]));
            assert(mentions_one(cn, c, t));
        }
    }
}

proof fn lemma_live_before<W: Weight>(cn: ConstraintNetwork, weights: Seq<Vec<W>>, d: Seq<DomainMask>, c: Seq<usize>, list: Seq<usize>)
    requires
        network::ascending_ids(list),
        forall|i: int| 0 <= i < c.len() ==> !d[(#[trigger] c[i]) as int].fixed(),
        forall|t: usize| #[trigger] list.contains(t) <==> (t < cn.m() && mentions_one(cn, c, t as int) && !sliced::uniform(cn, weights, d, t as int)),
    ensures
        lists_involved(cn, weights, d, c, list),
{
    components::lemma_members(c);
    assert forall|t: int| #[trigger] mentions_one(cn, c, t) <==> localsum::touches(cn, d, c, t) by {
        if mentions_one(cn, c, t) {
            let j = choose|j: int| 0 <= j < cn.axes(t).len() && c.contains(#[trigger] cn.axes(t)[j]);
            let q = c.index_of(cn.axes(t)[j]);
            assert(!d[c[q] as int].fixed());
            assert(components::members(c)(cn.axes(t)[j] as int));
        }
        if localsum::touches(cn, d, c, t) {
            let j = choose|j: int| 0 <= j < cn.axes(t).len() && !d[(#[trigger] cn.axes(t)[j]) as int].fixed() && contract::lists(c, cn.axes(t)[j] as int);
            assert(components::members(c)(cn.axes(t)[j] as int));
            assert(c.contains(cn.axes(t)[j]));
        }
    }
}

/// One cube for each configuration.
fn singleton_cubes(configs: &Vec<u64>, width: usize) -> (r: Vec<Subcube>)
    requires
        width <= 64,
        order::ascending64(configs@),
        contract::rows_below(configs@, width as int),
    ensures
        blockmerge::partitions(configs@, r@, width as int),
        r@.len() == configs@.len(),
{
    let full: u64 = bits::full_mask(width);
    let mut out: Vec<Subcube> = Vec::new();
    let mut i: usize = 0;
    while i < configs.len()
        invariant
            i <= configs@.len(),
            out@.len() == i,
            forall|k: int| 0 <= k < i ==> #[trigger] out@[k] == (Subcube { mask: full, val: configs@[k] }),
        decreases configs.len() - i,
    {
        out.push(Subcube { mask: full, val: configs[i] });
        i += 1;
    }
    proof {
        assert forall|k: int, x: u64| 0 <= k < out@.len() && bits::below(x, width as int) implies #[trigger] out@[k].has(x) == (x == configs@[k]) by {
            assert(bits::below(configs@[k], width as int));
            if out@[k].has(x) {
                assert forall|j: int| 0 <= j < 64 implies #[trigger] bits::bit(x, j) == bits::bit(configs@[k], j) by {
                    if j < width {
                        assert(bits::bit(out@[k].mask, j));
                    }
                }
                bits::lemma_bits_equal(x, configs@[k]);
            }
        }
        assert forall|x: u64| bits::below(x, width as int) implies (#[trigger] configs@.contains(x) <==> blockmerge::covered(out@, out@.len() as int, x)) by {
            if configs@.contains(x) {
                let k = configs@.index_of(x);
                assert(out@[k].has(x));
            }
            if blockmerge::covered(out@, out@.len() as int, x) {
                let k = choose|k: int| 0 <= k < out@.len() && (#[trigger] out@[k]).has(x);
                assert(out@[k].has(x));
                assert(configs@[k] == x);
            }
        }
        assert(blockmerge::disjoint(out@, width as int)) by {
            assert forall|j: int, k: int, x: u64| 0 <= j < k < out@.len() && bits::below(x, width as int) && #[trigger] out@[j].has(x) implies !#[trigger] out@[k].has(x) by {
                assert(configs@[j] < configs@[k]);
            }
        }
    }
    out
}

/// The assignments whose configuration one of the first `k` cubes has.
spec fn cubes_keep(vars: Seq<usize>, cubes: Seq<Subcube>, k: int) -> spec_fn(Asg) -> bool {
    |a: Asg| exists|j: int| 0 <= j < k && #[trigger] clause_keeps(vars, cubes[j].mask, cubes[j].val)(a)
}

/// The configuration of an assignment.
pub proof fn lemma_config(vars: Seq<usize>, a: Asg, n: int) -> (c: u64)
    requires
        0 <= n <= vars.len() <= 64,
    ensures
        bits::below(c, n),
        forall|i: int| 0 <= i < n ==> bits::bit(c, i) == a(#[trigger] vars[i] as int),
    decreases n,
{
    broadcast use bits::group_bits;

    if n == 0 {
        0u64
    } else {
        let b = lemma_config(vars, a, n - 1);
        if a(vars[n - 1] as int) {
            let c = b | (1u64 << ((n - 1) as u64));
            assert forall|j: int| 0 <= j < 64 implies #[trigger] bits::bit(c, j) == (bits::bit(b, j) || j == n - 1) by {}
            assert forall|j: int| n <= j < 64 implies !#[trigger] bits::bit(c, j) by {
                assert(!bits::bit(b, j));
            }
            c
        } else {
            assert forall|j: int| n <= j < 64 implies !#[trigger] bits::bit(b, j) by {}
            b
        }
    }
}

/// A cube has the configuration of exactly the assignments that it keeps.
proof fn lemma_cube_config(vars: Seq<usize>, cube: Subcube, c: u64, a: Asg)
    requires
        vars.len() <= 64,
        bits::below(cube.mask, vars.len() as int),
        forall|i: int| 0 <= i < vars.len() ==> bits::bit(c, i) == a(#[trigger] vars[i] as int),
    ensures
        cube.has(c) <==> clause_keeps(vars, cube.mask, cube.val)(a),
{
    if cube.has(c) {
        assert forall|i: int| 0 <= i < vars.len() && #[trigger] bits::bit(cube.mask, i) implies bits::bit(cube.val, i) == a(vars[i] as int) by {
            assert(bits::bit(c, i) == a(vars[i] as int));
        }
    }
    if clause_keeps(vars, cube.mask, cube.val)(a) {
        assert forall|i: int| 0 <= i < 64 && #[trigger] bits::bit(cube.mask, i) implies bits::bit(c, i) == bits::bit(cube.val, i) by {
            assert(bits::bit(c, i) == a(vars[i] as int));
        }
    }
}

proof fn lemma_no_cubes<W: Weight>(cn: ConstraintNetwork, weights: Seq<Vec<W>>, d: Seq<DomainMask>, c: Seq<usize>, vars: Seq<usize>, cubes: Seq<Subcube>)
    ensures
        branch_total(cn, weights, d, c, cubes_keep(vars, cubes, 0)) == 0real,
{
    sums::lemma_total_zero(localsum::picked(cn, weights, d, c, cubes_keep(vars, cubes, 0)), localsum::settled(d), localsum::open_of(d, c));
}

/// One more cube adds what its clause keeps.
proof fn lemma_cube_added<W: Weight>(cn: ConstraintNetwork, weights: Seq<Vec<W>>, d: Seq<DomainMask>, c: Seq<usize>, vars: Seq<usize>, configs: Seq<u64>, cubes: Seq<Subcube>, k: int)
    requires
        vars.len() <= 64,
        0 <= k < cubes.len(),
        blockmerge::partitions(configs, cubes, vars.len() as int),
    ensures
        branch_total(cn, weights, d, c, cubes_keep(vars, cubes, k + 1)) == branch_total(cn, weights, d, c, cubes_keep(vars, cubes, k)) + branch_total(cn, weights, d, c, clause_keeps(vars, cubes[k].mask, cubes[k].val)),
{
    let h = localsum::picked(cn, weights, d, c, cubes_keep(vars, cubes, k + 1));
    let f = localsum::picked(cn, weights, d, c, cubes_keep(vars, cubes, k));
    let g = localsum::picked(cn, weights, d, c, clause_keeps(vars, cubes[k].mask, cubes[k].val));
    assert forall|a: Asg| sums::same_outside(localsum::settled(d), a, localsum::open_of(d, c)) implies #[trigger] h(a) == f(a) + g(a) by {
        let x = lemma_config(vars, a, vars.len() as int);
        assert forall|j: int| 0 <= j < cubes.len() implies (#[trigger] cubes[j].has(x) <==> clause_keeps(vars, cubes[j].mask, cubes[j].val)(a)) by {
            assert(bits::below(cubes[j].mask, vars.len() as int));
            lemma_cube_config(vars, cubes[j], x, a);
        }
        let now = clause_keeps(vars, cubes[k].mask, cubes[k].val)(a);
        let earlier = cubes_keep(vars, cubes, k)(a);
        assert(cubes[k].has(x) <==> now);
        if earlier {
            let j = choose|j: int| 0 <= j < k && #[trigger] clause_keeps(vars, cubes[j].mask, cubes[j].val)(a);
            assert(cubes[j].has(x));
            assert(clause_keeps(vars, cubes[j].mask, cubes[j].val)(a));
            assert(!cubes[k].has(x));
        }
        if cubes_keep(vars, cubes, k + 1)(a) {
            let j = choose|j: int| 0 <= j < k + 1 && #[trigger] clause_keeps(vars, cubes[j].mask, cubes[j].val)(a);
            assert(j < k ==> earlier);
        }
    }
    sums::lemma_total_add(f, g, h, localsum::settled(d), localsum::open_of(d, c));
}

/// The variables of a region are in the component of its focus.
proof fn lemma_region_inside<W: Weight>(cn: ConstraintNetwork, weights: Seq<Vec<W>>, d: Seq<DomainMask>, c: Seq<usize>, focus: usize, max_rows: int, region: Region, rel: Relation)
    requires
        cn.wf(),
        d.len() == cn.n(),
        localsum::shut_off(cn, weights, d, c),
        c.contains(focus),
        region::grown(cn, d, true, focus, max_rows, region, rel),
    ensures
        forall|i: int| 0 <= i < region.vars@.len() ==> c.contains(#[trigger] region.vars@[i]),
        network::distinct(region.vars@),
{
    let live = localsum::wlive(cn, weights, d);
    let bool_live = components::live_flags(cn, d);
    let mem = components::members(c);
    assert forall|t: int| 0 <= t < cn.m() && #[trigger] bool_live[t] implies live[t] by {}
    assert forall|v: int| 0 <= v < cn.n() && !(#[trigger] d[v]).fixed() implies !d[v].fixed() by {}
    components::lemma_sealed_later(cn, d, live, d, bool_live, mem);
    components::lemma_sealed_region(cn, d, mem);
    components::lemma_members(c);
    assert(mem(focus as int));
    assert forall|i: int| 0 <= i < region.vars@.len() implies c.contains(#[trigger] region.vars@[i]) by {
        assert(rel.vars@.contains(region.vars@[i]));
        assert(mem(region.vars@[i] as int));
    }
}

proof fn lemma_feasible_below(cn: ConstraintNetwork, d: Seq<DomainMask>, rel: Relation, f: Seq<u64>)
    requires
        rel.wf(),
        table::lists_feasible(cn, d, rel, f),
    ensures
        contract::rows_below(f, rel.vars@.len() as int),
{
    assert forall|k: int| 0 <= k < f.len() implies bits::below(#[trigger] f[k], rel.vars@.len() as int) by {
        assert(f.contains(f[k]));
        let q = rel.rows@.index_of(f[k]);
        assert(rel.rows@[q] == f[k]);
    }
}

/// Where an assignment has weight, its configuration is feasible.
proof fn lemma_weighty_feasible<W: Weight>(cn: ConstraintNetwork, weights: Seq<Vec<W>>, d: Seq<DomainMask>, c: Seq<usize>, focus: usize, max_rows: int, region: Region, rel: Relation, f: Seq<u64>, a: Asg) -> (x: u64)
    requires
        cn.wf(),
        ct::closed_under(cn, d),
        localsum::shut_off(cn, weights, d, c),
        c.contains(focus),
        region::grown(cn, d, true, focus, max_rows, region, rel),
        table::lists_feasible(cn, d, rel, f),
        sums::same_outside(localsum::settled(d), a, localsum::open_of(d, c)),
        localsum::local_weight(cn, weights, d, c)(a) != 0real,
    ensures
        f.contains(x),
        network::agrees(rel.vars@, x, a),
{
    localsum::lemma_keeps(d, c, a);
    localsum::lemma_refined_closed(cn, weights, d, c, a);
    lemma_region_inside(cn, weights, d, c, focus, max_rows, region, rel);
    table::lemma_region_vars(cn, d, true, focus, max_rows, region, rel);
    components::lemma_members(c);
    let e = localsum::refined(d, c, a);
    assert(region::all_tensors_hold(cn, region.tensors@, contract::fix(d, a))) by {
        assert forall|k: int| 0 <= k < region.tensors@.len() implies cn.holds((#[trigger] region.tensors@[k]) as int, contract::fix(d, a)) by {
            let t = region.tensors@[k] as int;
            assert(cn.tensor_wf(t));
            assert(!region::aside(cn, d, true, t));
            // Not entailed, so it has an open variable, which the region and the component hold.
            if !util::has_open(cn, d, t) {
                sliced::lemma_decided_uniform(cn, weights, d, t);
            }
            let j = choose|j: int| 0 <= j < cn.axes(t).len() && !d[(#[trigger] cn.axes(t)[j]) as int].fixed();
            assert(cn.axes(t).contains(cn.axes(t)[j]));
            assert(region::some_mentions(cn, region.tensors@, cn.axes(t)[j]));
            assert(rel.vars@.contains(cn.axes(t)[j]));
            let q = region.vars@.index_of(cn.axes(t)[j]);
            assert(c.contains(region.vars@[q]));
            assert(components::members(c)(cn.axes(t)[j] as int));
            assert(localsum::involved(cn, weights, d, c, t));
            assert(cn.holds(t, a));
            let b = contract::fix(d, a);
            assert forall|i: int| 0 <= i < cn.axes(t).len() implies a((#[trigger] cn.axes(t)[i]) as int) == b(cn.axes(t)[i] as int) by {
                assert(cn.axes(t)[i] < cn.n());
                if d[cn.axes(t)[i] as int].fixed() {
                    assert(a(cn.axes(t)[i] as int) == (d[cn.axes(t)[i] as int] == DomainMask::D1));
                }
            }
            table::lemma_holds_on(cn, t, a, b);
        }
    }
    assert(rel.holds(a));
    let k = choose|k: int| 0 <= k < rel.rows@.len() && network::agrees(rel.vars@, #[trigger] rel.rows@[k], a);
    let x = rel.rows@[k];
    assert(rel.rows@.contains(x));
    assert(propagate::pinned_to(e, rel.vars@, x)) by {
        assert forall|i: int| 0 <= i < rel.vars@.len() implies e[(#[trigger] rel.vars@[i]) as int] == DomainMask::only(bits::bit(x, i)) by {
            let v = rel.vars@[i] as int;
            assert(region.vars@[i] == rel.vars@[i]);
            assert(region.vars@[i] < cn.n());
            assert(c.contains(region.vars@[i]));
            assert(components::members(c)(v));
            assert(bits::bit(x, i) == a(v));
        }
    }
    assert(propagate::feasible(cn, d, rel.vars@, x));
    x
}

/// Without feasible configurations the component counts zero.
proof fn lemma_region_zero<W: Weight>(cn: ConstraintNetwork, weights: Seq<Vec<W>>, d: Seq<DomainMask>, c: Seq<usize>, focus: usize, max_rows: int, region: Region, rel: Relation, f: Seq<u64>)
    requires
        cn.wf(),
        ct::closed_under(cn, d),
        localsum::shut_off(cn, weights, d, c),
        c.contains(focus),
        region::grown(cn, d, true, focus, max_rows, region, rel),
        table::lists_feasible(cn, d, rel, f),
        f.len() == 0,
    ensures
        localsum::local_total(cn, weights, d, c) == 0real,
{
    let w = localsum::local_weight(cn, weights, d, c);
    assert forall|a: Asg| sums::same_outside(localsum::settled(d), a, localsum::open_of(d, c)) implies #[trigger] w(a) == 0real by {
        if w(a) != 0real {
            let x = lemma_weighty_feasible(cn, weights, d, c, focus, max_rows, region, rel, f, a);
        }
    }
    sums::lemma_total_zero(w, localsum::settled(d), localsum::open_of(d, c));
}

/// The cubes of a partition of the feasible configurations keep all that has weight.
proof fn lemma_region_sum<W: Weight>(cn: ConstraintNetwork, weights: Seq<Vec<W>>, d: Seq<DomainMask>, c: Seq<usize>, focus: usize, max_rows: int, region: Region, rel: Relation, f: Seq<u64>, cubes: Seq<Subcube>)
    requires
        cn.wf(),
        ct::closed_under(cn, d),
        localsum::shut_off(cn, weights, d, c),
        c.contains(focus),
        region::grown(cn, d, true, focus, max_rows, region, rel),
        table::lists_feasible(cn, d, rel, f),
        blockmerge::partitions(f, cubes, region.vars@.len() as int),
    ensures
        branch_total(cn, weights, d, c, cubes_keep(region.vars@, cubes, cubes.len() as int)) == localsum::local_total(cn, weights, d, c),
{
    let w = localsum::local_weight(cn, weights, d, c);
    let vars = region.vars@;
    let p = localsum::picked(cn, weights, d, c, cubes_keep(vars, cubes, cubes.len() as int));
    lemma_feasible_below(cn, d, rel, f);
    assert forall|a: Asg| sums::same_outside(localsum::settled(d), a, localsum::open_of(d, c)) implies #[trigger] p(a) == w(a) by {
        if w(a) != 0real {
            let x = lemma_weighty_feasible(cn, weights, d, c, focus, max_rows, region, rel, f, a);
            let q = f.index_of(x);
            assert(bits::below(f[q], vars.len() as int));
            assert(blockmerge::covered(cubes, cubes.len() as int, x));
            let k = choose|k: int| 0 <= k < cubes.len() && (#[trigger] cubes[k]).has(x);
            assert(bits::below(cubes[k].mask, vars.len() as int));
            lemma_cube_config(vars, cubes[k], x, a);
            assert(clause_keeps(vars, cubes[k].mask, cubes[k].val)(a));
        }
    }
    sums::lemma_total_same(p, w, localsum::settled(d), localsum::open_of(d, c));
}

/// Every cube sets a variable: else every configuration would be feasible, and the constraints
/// of the region entailed.
proof fn lemma_cube_sets(cn: ConstraintNetwork, d: Seq<DomainMask>, focus: usize, max_rows: int, region: Region, rel: Relation, f: Seq<u64>, cubes: Seq<Subcube>, k: int)
    requires
        cn.wf(),
        d.len() == cn.n(),
        region::grown(cn, d, true, focus, max_rows, region, rel),
        table::lists_feasible(cn, d, rel, f),
        blockmerge::partitions(f, cubes, region.vars@.len() as int),
        0 <= k < cubes.len(),
    ensures
        exists|i: int| 0 <= i < region.vars@.len() && #[trigger] bits::bit(cubes[k].mask, i),
{
    let vars = region.vars@;
    if forall|i: int| 0 <= i < vars.len() ==> !#[trigger] bits::bit(cubes[k].mask, i) {
        assert forall|x: u64| cubes[k].has(x) by {
            assert(bits::below(cubes[k].mask, vars.len() as int));
        }
        let t = region.tensors@[0] as int;
        assert(!region::aside(cn, d, true, region.tensors@[0] as int));
        assert(cn.tensor_wf(t));
        assert forall|a: Asg| util::keeps_fixed(d, a) implies #[trigger] cn.holds(t, a) by {
            let x = lemma_config(vars, a, vars.len() as int);
            assert(cubes[k].has(x));
            assert(f.contains(x));
            assert(rel.rows@.contains(x));
            let q = rel.rows@.index_of(x);
            assert(network::agrees(rel.vars@, rel.rows@[q], a)) by {
                assert forall|i: int| 0 <= i < rel.vars@.len() implies bits::bit(rel.rows@[q], i) == a(#[trigger] rel.vars@[i] as int) by {
                    assert(vars[i] == rel.vars@[i]);
                }
            }
            assert(rel.holds(a));
            let b = contract::fix(d, a);
            assert(region::all_tensors_hold(cn, region.tensors@, b));
            assert(cn.holds(region.tensors@[0] as int, b));
            assert forall|i: int| 0 <= i < cn.axes(t).len() implies b((#[trigger] cn.axes(t)[i]) as int) == a(cn.axes(t)[i] as int) by {
                assert(cn.axes(t)[i] < cn.n());
                if d[cn.axes(t)[i] as int].fixed() {
                    assert(a(cn.axes(t)[i] as int) == (d[cn.axes(t)[i] as int] == DomainMask::D1));
                }
            }
            table::lemma_holds_on(cn, t, b, a);
        }
        assert(util::entailed(cn, d, t));
    }
}

/// The two values of a variable make up the whole.
proof fn lemma_two_values<W: Weight>(cn: ConstraintNetwork, weights: Seq<Vec<W>>, d: Seq<DomainMask>, c: Seq<usize>, v: usize)
    ensures
        localsum::local_total(cn, weights, d, c) == branch_total(cn, weights, d, c, clause_keeps(seq![v], 1, 0)) + branch_total(cn, weights, d, c, clause_keeps(seq![v], 1, 1)),
{
    let w = localsum::local_weight(cn, weights, d, c);
    let vars = seq![v];
    let f = localsum::picked(cn, weights, d, c, clause_keeps(vars, 1, 0));
    let g = localsum::picked(cn, weights, d, c, clause_keeps(vars, 1, 1));
    lemma_one_bit();
    assert forall|a: Asg| sums::same_outside(localsum::settled(d), a, localsum::open_of(d, c)) implies #[trigger] w(a) == f(a) + g(a) by {
        assert(vars[0] == v);
        let zero = clause_keeps(vars, 1, 0);
        let one = clause_keeps(vars, 1, 1);
        assert(zero(a) == !a(v as int)) by {
            if zero(a) {
                assert(bits::bit(1u64, 0));
            }
        }
        assert(one(a) == a(v as int)) by {
            if one(a) {
                assert(bits::bit(1u64, 0));
            }
        }
    }
    sums::lemma_total_add(f, g, w, localsum::settled(d), localsum::open_of(d, c));
}

/// The weighted count of the models within the domains `d`: the sum of the weights of all
/// assignments with the fixed values, over the open variables.
pub open spec fn count_within<W: Weight>(cn: ConstraintNetwork, weights: Seq<Vec<W>>, d: Seq<DomainMask>) -> real {
    sums::total(|a: Asg| weighted::network_weight(cn, weights, a), localsum::settled(d), sums::chosen_ids(|v: int| !d[v].fixed(), cn.n()))
}

/// The weighted count of the models within the domains of the problem. The problem is left as
/// it was, its counters aside.
pub fn bbcount<W: Weight>(problem: &mut TnProblem, weights: &[Vec<W>], max_rows: usize, branch: CountBranch) -> (r: CountSolve<W>)
    requires
        old(problem).wf(),
        weighted::weights_fit(old(problem).cn(), weights@),
    ensures
        final(problem).wf(),
        final(problem).static_cn == old(problem).static_cn,
        final(problem).masks == old(problem).masks,
        final(problem).state() == old(problem).state(),
        r.models.val() == count_within(old(problem).cn(), weights@, old(problem).doms@),
        r.stats == final(problem).stats,
        r.stats.total_visited_nodes == r.stats.total_potential_subproblems,
        tallies(branch, r.stats),
{
    problem.stats.reset();
    let cn = problem.static_cn.clone();
    let masks = problem.masks.clone();
    let ctx = CountCtx { cn: &cn, masks: &masks, weights, max_rows, branch };
    let ghost net = problem.cn();
    let ghost ws = weights@;
    let ghost s0 = problem.state();
    let ghost d = problem.doms@;
    let ghost l0 = problem.trail;
    let ghost pf = prepass_factors(net, ws, d);
    let mut prepass = W::one();
    let mut t: usize = 0;
    proof {
        assert(pf.take(0) =~= Seq::<real>::empty());
    }
    while t < cn.tensors.len()
        invariant
            net == *cn,
            net.wf(),
            weighted::weights_fit(net, weights@),
            ws == weights@,
            d == problem.doms@,
            d.len() == net.n(),
            pf == prepass_factors(net, ws, d),
            t <= net.m(),
            prepass.val() == sums::product(pf.take(t as int)),
        decreases cn.tensors.len() - t,
    {
        proof {
            assert(pf.take(t + 1).drop_last() =~= pf.take(t as int));
            assert(pf.take(t + 1).last() == pf[t as int]);
            lemma_settled_keeps(d);
        }
        match sliced::sliced_constant(&cn, weights, t, problem.doms.as_slice()) {
            Some(w) => {
                prepass = prepass.mul(&w);
            },
            None => {},
        }
        t += 1;
    }
    let scope = solver::open_ids(problem.doms.as_slice());
    proof {
        assert(pf.take(pf.len() as int) =~= pf);
        lemma_scope_shut(net, ws, d, scope@);
    }
    let mark: usize = problem.trail.mark();
    let residual = count_scope(&ctx, &mut problem.stats, &mut problem.buffer, &mut problem.doms, &mut problem.tables, &mut problem.trail, scope.as_slice());
    let ghost l1 = problem.trail;
    problem.trail.restore_to(mark, &mut problem.doms, &mut problem.tables);
    proof {
        propagate::lemma_restored(l0, s0, l1, s0, problem.trail, problem.state(), mark as int);
        lemma_whole_count(net, ws, d, scope@);
        let k = choose|k: nat| #[trigger] stepped(problem::no_stats(), problem.stats, 0, k);
    }
    CountSolve { models: prepass.mul(&residual), stats: problem.stats }
}

/// The weights of the constraints that are uniform at the root.
spec fn prepass_factors<W: Weight>(cn: ConstraintNetwork, weights: Seq<Vec<W>>, d: Seq<DomainMask>) -> Seq<real> {
    Seq::new(
        cn.m() as nat,
        |t: int|
            if sliced::uniform(cn, weights, d, t) {
                weighted::tensor_weight(cn, weights, t, localsum::settled(d))
            } else {
                1real
            },
    )
}

proof fn lemma_scope_shut<W: Weight>(cn: ConstraintNetwork, weights: Seq<Vec<W>>, d: Seq<DomainMask>, scope: Seq<usize>)
    requires
        cn.wf(),
        d.len() == cn.n(),
        network::ascending_ids(scope),
        forall|v: usize| #[trigger] scope.contains(v) <==> (v < cn.n() && !d[v as int].fixed()),
    ensures
        localsum::shut_off(cn, weights, d, scope),
{
    components::lemma_members(scope);
    assert forall|i: int| 0 <= i < scope.len() implies (#[trigger] scope[i]) < cn.n() by {
        assert(scope.contains(scope[i]));
    }
    let live = localsum::wlive(cn, weights, d);
    assert forall|t: int, i: int, j: int|
        0 <= t < cn.m() && live[t] && 0 <= i < cn.axes(t).len() && 0 <= j < cn.axes(t).len() && !d[(#[trigger] cn.axes(t)[i]) as int].fixed() && !d[(
        #[trigger] cn.axes(t)[j]) as int].fixed() && components::members(scope)(cn.axes(t)[i] as int) implies components::members(scope)(cn.axes(t)[j] as int) by {
        assert(cn.tensor_wf(t));
        assert(cn.axes(t)[j] < cn.n());
        assert(scope.contains(cn.axes(t)[j]));
    }
}

/// The whole count is the constant constraints times the sum over all open variables.
proof fn lemma_whole_count<W: Weight>(cn: ConstraintNetwork, weights: Seq<Vec<W>>, d: Seq<DomainMask>, scope: Seq<usize>)
    requires
        cn.wf(),
        ct::closed_under(cn, d),
        network::ascending_ids(scope),
        forall|v: usize| #[trigger] scope.contains(v) <==> (v < cn.n() && !d[v as int].fixed()),
    ensures
        count_within(cn, weights, d) == sums::product(prepass_factors(cn, weights, d)) * localsum::local_total(cn, weights, d, scope),
{
    let nw = |a: Asg| weighted::network_weight(cn, weights, a);
    let h = localsum::local_weight(cn, weights, d, scope);
    let delta = sums::product(prepass_factors(cn, weights, d));
    let p = |v: int| !d[v].fixed();
    let ids = sums::chosen_ids(p, cn.n());
    let open = localsum::open_of(d, scope);
    sums::lemma_chosen_ids(p, cn.n());
    localsum::lemma_open_of(d, scope);
    components::lemma_members(scope);
    assert(cn.vars.len() == cn.n());
    assert forall|v: int| ids.contains(v) <==> open.contains(v) by {
        assert(ids.contains(v) <==> (0 <= v < cn.n() && p(v)));
        assert(open.contains(v) <==> (contract::lists(scope, v) && !d[v].fixed()));
        if 0 <= v < cn.n() && !d[v].fixed() {
            assert(scope.contains(v as usize));
            assert(components::members(scope)(v as usize as int));
        }
        if contract::lists(scope, v) {
            let i = choose|i: int| 0 <= i < scope.len() && (#[trigger] scope[i]) as int == v;
            assert(scope.contains(scope[i]));
        }
    }
    sums::lemma_total_reorder(nw, localsum::settled(d), ids, open);
    assert forall|a: Asg| sums::same_outside(localsum::settled(d), a, open) implies #[trigger] nw(a) == delta * h(a) by {
        localsum::lemma_keeps(d, scope, a);
        lemma_settled_keeps(d);
        let s = Seq::new(cn.m() as nat, |t: int| weighted::tensor_weight(cn, weights, t, a));
        let x = prepass_factors(cn, weights, d);
        let y = localsum::local_factors(cn, weights, d, scope, a);
        assert forall|t: int| 0 <= t < s.len() implies #[trigger] s[t] == x[t] * y[t] by {
            if sliced::uniform(cn, weights, d, t) {
                localsum::lemma_uniform_any(cn, weights, d, t, a, localsum::settled(d));
            } else {
                if !util::has_open(cn, d, t) {
                    sliced::lemma_decided_uniform(cn, weights, d, t);
                }
                assert(cn.tensor_wf(t));
                let j = choose|j: int| 0 <= j < cn.axes(t).len() && !d[(#[trigger] cn.axes(t)[j]) as int].fixed();
                assert(cn.axes(t)[j] < cn.n());
                assert(scope.contains(cn.axes(t)[j]));
                assert(components::members(scope)(cn.axes(t)[j] as int));
                assert(localsum::involved(cn, weights, d, scope, t));
            }
        }
        sums::lemma_product_pairs(s, x, y);
    }
    sums::lemma_total_same(nw, |a: Asg| delta * h(a), localsum::settled(d), open);
    sums::lemma_total_scale(delta, h, localsum::settled(d), open);
}

} // verus!
