//! What is chosen, in what order, and what is told of it.
use vstd::arithmetic::power2;
use vstd::prelude::*;

use crate::adapter::Clause;
use crate::bits;
use crate::cdcl;
use crate::components;
use crate::contract;
use crate::counting;
use crate::ct;
use crate::cube;
use crate::cube::{CncSatPolicy, Cube, CubeStats};
use crate::domain::{Asg, DomainMask};
use crate::laws::counts;
use crate::laws::sizes;
use crate::measure::Measure;
use crate::minfill;
use crate::minfill::Links;
use crate::network::ConstraintNetwork;
use crate::order;
use crate::problem::Stats;
use crate::propagate;
use crate::region;
use crate::residual;
use crate::residual::ResidualDiagnostics;
use crate::searchtree;
use crate::selector;
use crate::table;
use crate::tail_greedy;
use crate::twosat;
use crate::util;
use crate::vegraph;

verus! {

/// The counters of a frontier: refuted leaves, leaves with a model, and the cubes that are left open.
/// Every leaf is one of these.
pub proof fn law_leaves_are_counted(stats: CubeStats, cubes: Seq<Cube>, from: int)
    requires
        0 <= from <= cubes.len(),
        cubes.len() <= usize::MAX,
        cube::counted(stats, cubes, from),
    ensures
        stats.refuted == Set::new(|i: int| from <= i < cubes.len() && cubes[i].refuted).len(),
        stats.sat_leaves == Set::new(|i: int| from <= i < cubes.len() && !cubes[i].refuted && cubes[i].sat).len(),
        stats.cubes == Set::new(|i: int| from <= i < cubes.len() && !cubes[i].refuted && !cubes[i].sat).len(),
        stats.cubes + stats.sat_leaves + stats.refuted == cubes.len() - from,
{
    let n = cubes.len() as int;
    counts::law_cubes_are_tallied(cubes, from, |c: Cube| c.refuted);
    counts::law_cubes_are_tallied(cubes, from, |c: Cube| !c.refuted && c.sat);
    counts::law_cubes_are_tallied(cubes, from, |c: Cube| !c.refuted && !c.sat);
    let a = Set::new(|i: int| from <= i < cubes.len() && cubes[i].refuted);
    let b = Set::new(|i: int| from <= i < cubes.len() && !cubes[i].refuted && cubes[i].sat);
    let c = Set::new(|i: int| from <= i < cubes.len() && !cubes[i].refuted && !cubes[i].sat);
    let f = |x: Cube| x.refuted;
    let g = |x: Cube| !x.refuted && x.sat;
    let h = |x: Cube| !x.refuted && !x.sat;
    assert(Set::new(|i: int| from <= i < cubes.len() && f(cubes[i])) =~= a);
    assert(Set::new(|i: int| from <= i < cubes.len() && g(cubes[i])) =~= b);
    assert(Set::new(|i: int| from <= i < cubes.len() && h(cubes[i])) =~= c);
    sizes::lemma_places_finite(n, |i: int| from <= i && cubes[i].refuted);
    sizes::lemma_places_finite(n, |i: int| from <= i && !cubes[i].refuted && cubes[i].sat);
    sizes::lemma_places_finite(n, |i: int| from <= i && !cubes[i].refuted && !cubes[i].sat);
    assert(a =~= sizes::places(n, |i: int| from <= i && cubes[i].refuted));
    assert(b =~= sizes::places(n, |i: int| from <= i && !cubes[i].refuted && cubes[i].sat));
    assert(c =~= sizes::places(n, |i: int| from <= i && !cubes[i].refuted && !cubes[i].sat));
    vstd::set_lib::lemma_set_disjoint_lens(a, b);
    vstd::set_lib::lemma_set_disjoint_lens(a + b, c);
    assert(a + b + c =~= vstd::set_lib::set_int_range(from, n));
    vstd::set_lib::lemma_int_range(from, n);
}

/// With `StopDecision` a model is noted, there is only one, and no cube comes after it; otherwise none is noted.
pub proof fn law_models_stop_a_decision(policy: CncSatPolicy, found: bool, from: int, cubes: Seq<Cube>, i: int, j: int)
    requires
        cube::noted(policy, found, from, cubes),
        from <= i < cubes.len(),
        from <= j < cubes.len(),
        cubes[i].sat,
    ensures
        policy == CncSatPolicy::StopDecision ==> found && i == cubes.len() - 1 && (cubes[j].sat ==> j == i),
        policy == CncSatPolicy::CompleteFrontier ==> !found,
{
    assert(cube::some_sat(from, cubes));
}

/// Two regions around a variable start from the same constraint: none with the variable that counts
/// has fewer rows, and none with as many is lower.
pub proof fn law_regions_start_small(cn: ConstraintNetwork, d: Seq<DomainMask>, live_only: bool, focus: usize, t: usize, u: usize)
    requires
        region::seeds(cn, d, live_only, focus, t),
        u < cn.m(),
        cn.axes(u as int).contains(focus),
        !live_only || !util::entailed(cn, d, u as int),
    ensures
        cn.axes(t as int).contains(focus),
        live_only ==> !util::entailed(cn, d, t as int),
        region::sliced_rows(cn, d, t as int) <= region::sliced_rows(cn, d, u as int),
        region::sliced_rows(cn, d, t as int) == region::sliced_rows(cn, d, u as int) ==> t <= u,
        region::seeds(cn, d, live_only, focus, u) ==> t == u,
{
    assert(cn.axes(u as int).contains(focus));
    assert(cn.axes(t as int).contains(focus));
}

/// Around a region a constraint is tried before another where it shares more variables with it; where
/// both share as many, the one with fewer rows; and where these are as many too, the lower one.
pub proof fn law_order_of_trial(cn: ConstraintNetwork, d: Seq<DomainMask>, vars: Seq<usize>, t: usize, u: usize, w: usize)
    ensures
        contract::shared(cn.axes(t as int), vars) > contract::shared(cn.axes(u as int), vars) ==> region::tried_before(cn, d, vars, t, u),
        contract::shared(cn.axes(t as int), vars) == contract::shared(cn.axes(u as int), vars) && region::sliced_rows(cn, d, t as int) < region::sliced_rows(cn, d, u as int) ==> region::tried_before(cn, d, vars, t, u),
        contract::shared(cn.axes(t as int), vars) == contract::shared(cn.axes(u as int), vars) && region::sliced_rows(cn, d, t as int) == region::sliced_rows(cn, d, u as int) && t < u ==> region::tried_before(cn, d, vars, t, u),
        !(region::tried_before(cn, d, vars, t, u) && region::tried_before(cn, d, vars, u, t)),
        t != u ==> region::tried_before(cn, d, vars, t, u) || region::tried_before(cn, d, vars, u, t),
        region::tried_before(cn, d, vars, t, u) && region::tried_before(cn, d, vars, u, w) ==> region::tried_before(cn, d, vars, t, w),
{
}

/// The ranking goes by score, highest first; of equal scores the lower variable comes first. Who is
/// left out scores no higher than anyone listed, and no one is left out of a list that is not full.
pub proof fn law_ranking(cn: ConstraintNetwork, d: Seq<DomainMask>, ids: Seq<usize>, r: Seq<usize>, pool: int, i: int, j: int, v: usize)
    requires
        selector::top_ranked(cn, d, ids, r, pool),
        0 <= i < j < r.len(),
        ids.contains(v),
        !r.contains(v),
    ensures
        r.len() <= pool,
        selector::score(cn, d, r[i] as int) >= selector::score(cn, d, r[j] as int) > 0,
        selector::score(cn, d, r[i] as int) == selector::score(cn, d, r[j] as int) ==> r[i] < r[j],
        selector::score(cn, d, v as int) <= selector::score(cn, d, r[j] as int),
        r.len() < pool ==> selector::score(cn, d, v as int) == 0,
{
    assert(selector::ranks_before(cn, d, r[i] as int, r[j] as int));
    assert(selector::candidate(cn, d, ids, r[j]));
    if selector::score(cn, d, v as int) > 0 {
        assert(selector::candidate(cn, d, ids, v));
        assert(!r.contains(v));
        assert(selector::ranks_before(cn, d, r[j] as int, v as int));
    }
}

/// The variable that a rule is grown from scores highest, and is the first that does.
pub proof fn law_focus_scores_highest(cn: ConstraintNetwork, d: Seq<DomainMask>, scope: Seq<usize>, v: usize, w: usize, k: int)
    requires
        selector::first_best(cn, d, scope, v),
        0 <= k < scope.len(),
    ensures
        scope.contains(v),
        selector::score(cn, d, v as int) > 0,
        selector::score(cn, d, scope[k] as int) <= selector::score(cn, d, v as int),
        selector::first_best(cn, d, scope, w) ==> v == w,
{
    let i = choose|i: int|
        {
            &&& 0 <= i < scope.len()
            &&& #[trigger] scope[i] == v
            &&& selector::score(cn, d, v as int) > 0
            &&& forall|k: int| 0 <= k < scope.len() ==> selector::score(cn, d, (#[trigger] scope[k]) as int) <= selector::score(cn, d, v as int)
            &&& forall|k: int| 0 <= k < i ==> selector::score(cn, d, (#[trigger] scope[k]) as int) < selector::score(cn, d, v as int)
        };
    assert(scope[i] == v);
    if selector::first_best(cn, d, scope, w) {
        let j = choose|j: int|
            {
                &&& 0 <= j < scope.len()
                &&& #[trigger] scope[j] == w
                &&& selector::score(cn, d, w as int) > 0
                &&& forall|k: int| 0 <= k < scope.len() ==> selector::score(cn, d, (#[trigger] scope[k]) as int) <= selector::score(cn, d, w as int)
                &&& forall|k: int| 0 <= k < j ==> selector::score(cn, d, (#[trigger] scope[k]) as int) < selector::score(cn, d, w as int)
            };
        assert(scope[j] == w);
    }
}

/// The batch that is set where nothing bites: open variables of the scope, all of them unless they are
/// more than sixty-four.
pub proof fn law_free_batch(d: Seq<DomainMask>, scope: Seq<usize>, v: usize)
    ensures
        selector::free_batch(d, scope).len() <= 64,
        selector::free_batch(d, scope).contains(v) ==> scope.contains(v) && !d[v as int].fixed(),
        selector::free_batch(d, scope).len() < 64 && scope.contains(v) && !d[v as int].fixed() ==> selector::free_batch(d, scope).contains(v),
{
    let f = |x: usize| !d[x as int].fixed();
    let open = scope.filter(f);
    let b = selector::free_batch(d, scope);
    if b.contains(v) {
        let i = b.index_of(v);
        assert(open[i] == v);
        scope.lemma_filter_pred(f, i);
        scope.lemma_filter_contains_rev(f, v);
    }
    if scope.contains(v) && f(v) {
        let i = scope.index_of(v);
        scope.lemma_filter_contains(f, i);
    }
}

/// The next variable to go adds no more links than any other that may go; of those that add as many
/// it has the least width, and of these it is the lowest.
pub proof fn law_elimination_adds_least(l: Links, held: spec_fn(usize) -> bool, n: int, budget: int, v: usize, u: usize, g: usize, s: usize)
    requires
        minfill::first_in_line(l, held, n, budget, v),
        minfill::costs(l, held, budget, u, g, s),
        u < n,
    ensures
        !held(v),
        exists|f: usize, w: usize| #[trigger] minfill::costs(l, held, budget, v, f, w) && w <= budget && w <= 33 && f <= g && (f == g ==> w <= s) && (f == g && w == s ==> v <= u),
{
    let (f, w) = choose|f: usize, sc: usize|
        {
            &&& v < n
            &&& #[trigger] minfill::costs(l, held, budget, v, f, sc)
            &&& forall|u: usize, g: usize, s: usize| u < n && #[trigger] minfill::costs(l, held, budget, u, g, s) ==> vegraph::triple_le((f, sc, v), (g, s, u))
        };
    assert(minfill::costs(l, held, budget, v, f, w));
    assert(vegraph::triple_le((f, w, v), (g, s, u)));
}

/// What a variable costs: the pairs of its neighbours that are not linked, and one more than its neighbours.
pub proof fn law_costs(l: Links, held: spec_fn(usize) -> bool, budget: int, v: usize, f: usize, w: usize, out: Seq<usize>)
    requires
        minfill::costs(l, held, budget, v, f, w),
        minfill::lists_linked(l, v, out),
    ensures
        w == out.len() + 1,
        w <= budget,
        f == Set::new(|q: (int, int)| 0 <= q.0 < q.1 < out.len() && !l(out[q.0], out[q.1])).len(),
{
    let o = choose|o: Seq<usize>| #[trigger] minfill::lists_linked(l, v, o) && o.len() <= 32 && o.len() + 1 <= budget && f == minfill::gaps(l, o, o.len() as int) && w == o.len() + 1;
    lemma_ascending_same(o, out);
    counts::law_new_links_are_counted(l, out);
}

/// Ascending lists of the same numbers are the same.
proof fn lemma_ascending_same(a: Seq<usize>, b: Seq<usize>)
    requires
        crate::network::ascending_ids(a),
        crate::network::ascending_ids(b),
        forall|x: usize| #[trigger] a.contains(x) <==> b.contains(x),
    ensures
        a == b,
    decreases a.len(),
{
    if a.len() == 0 {
        if b.len() > 0 {
            assert(b.contains(b[0]));
            assert(a.contains(b[0]));
        }
        assert(a =~= b);
    } else {
        assert(a.contains(a[0]));
        assert(b.contains(a[0]));
        assert(b.len() > 0);
        let x = a.last();
        let y = b.last();
        assert(a[a.len() - 1] == x && b[b.len() - 1] == y);
        assert(a.contains(x) && b.contains(y));
        assert(b.contains(x) && a.contains(y));
        let i = b.index_of(x);
        let j = a.index_of(y);
        assert(x <= y && y <= x);
        let p = a.drop_last();
        let q = b.drop_last();
        assert forall|z: usize| #[trigger] p.contains(z) <==> q.contains(z) by {
            if p.contains(z) {
                let k = p.index_of(z);
                assert(a[k] == z);
                assert(a.contains(z));
                assert(z < x);
                let m = b.index_of(z);
                assert(b[m] == z);
                assert(q[m] == z);
            }
            if q.contains(z) {
                let k = q.index_of(z);
                assert(b[k] == z);
                assert(b.contains(z));
                assert(z < y);
                assert(a.contains(z));
                let m = a.index_of(z);
                assert(a[m] == z);
                assert(p[m] == z);
            }
        }
        lemma_ascending_same(p, q);
        assert(a =~= p.push(x));
        assert(b =~= q.push(y));
    }
}

/// Smaller parts come first.
pub proof fn law_small_parts_first(comps: Seq<Vec<usize>>, i: int, j: int)
    requires
        components::size_order(comps),
        0 <= i <= j < comps.len(),
    ensures
        comps[i]@.len() <= comps[j]@.len(),
        comps[i]@.len() == comps[j]@.len() ==> comps[i]@[0] <= comps[j]@[0],
{
    assert(components::size_le(comps[i]@, comps[j]@));
}

/// What a clause takes off a measure is the difference between before and after it is set and propagated.
pub proof fn law_reductions_are_differences(cn: ConstraintNetwork, d: Seq<DomainMask>, vars: Seq<usize>, c: Clause, m: Measure, x: int, e: Seq<DomainMask>)
    requires
        ct::assigned(d, vars, c.mask, c.val, vars.len() as int).len() == cn.n(),
        table::reduces_by(cn, d, vars, c, m, x),
        propagate::propagated(cn, ct::assigned(d, vars, c.mask, c.val, vars.len() as int), e, true),
        crate::measure::measured(cn, d, m) <= u64::MAX,
        crate::measure::measured(cn, e, m) <= u64::MAX,
    ensures
        crate::measure::measured(cn, d, m) == crate::measure::measured(cn, e, m) + x,
{
    let d0 = ct::assigned(d, vars, c.mask, c.val, vars.len() as int);
    let (f, ok) = choose|f: Seq<DomainMask>, ok: bool| #[trigger] propagate::propagated(cn, d0, f, ok) && x == table::capped_measure(cn, d, m) - table::capped_measure(cn, f, m);
    propagate::law_propagation_is_unique(cn, d0, e, true, f, ok);
}

/// A rule is weighed by its branches, the literals that its clauses set, and what each takes off the measure.
pub proof fn law_rules_are_weighed(cn: ConstraintNetwork, d: Seq<DomainMask>, vars: Seq<usize>, clauses: Seq<Clause>, m: Measure, e: table::RuleEvaluationDiagnostics, k: int)
    requires
        table::evaluates(cn, d, vars, clauses, m, e),
        0 <= k < clauses.len(),
        64 * clauses.len() <= usize::MAX,
    ensures
        e.branches == clauses.len(),
        e.branching_vector@.len() == clauses.len(),
        table::reduces_by(cn, d, vars, clauses[k], m, e.branching_vector@[k] as int),
        e.decision_literals == sizes::added(clauses.len() as int, |c: int| Set::new(|i: int| 0 <= i < 64 && bits::bit(clauses[c].mask, i)).len() as int),
{
    counts::law_literals_are_counted(clauses);
    lemma_few_literals(clauses, clauses.len() as int);
}

proof fn lemma_few_literals(clauses: Seq<Clause>, k: int)
    requires
        0 <= k <= clauses.len(),
    ensures
        table::literals_set(clauses, k) <= 64 * k,
    decreases k,
{
    if k > 0 {
        lemma_few_literals(clauses, k - 1);
        bits::lemma_ones_bound(clauses[k - 1].mask, 64);
    }
}

/// A literal and its opposite are never both true nor both false, and the literal of a value is true
/// where the variable has it.
pub proof fn law_opposite_literals(v: int, b: bool, a: Asg)
    requires
        0 <= v,
    ensures
        twosat::lit_holds(twosat::lit(v, b), a) <==> a(v) == b,
        twosat::opposite(twosat::lit(v, b)) == twosat::lit(v, !b),
        twosat::opposite(twosat::opposite(twosat::lit(v, b))) == twosat::lit(v, b),
        twosat::lit_holds(twosat::opposite(twosat::lit(v, b)), a) <==> !twosat::lit_holds(twosat::lit(v, b), a),
{
}

/// The common part of two clauses sets what both set to the same value, so that it covers whatever
/// one of them covers.
pub proof fn law_common_parts(a: Clause, b: Clause, i: int, x: u64)
    requires
        0 <= i < 64,
    ensures
        bits::bit(tail_greedy::gathered(a, b).mask, i) <==> bits::bit(a.mask, i) && bits::bit(b.mask, i) && bits::bit(a.val, i) == bits::bit(b.val, i),
        bits::bit(tail_greedy::gathered(a, b).mask, i) ==> bits::bit(tail_greedy::gathered(a, b).val, i) == bits::bit(a.val, i),
        !bits::bit(tail_greedy::gathered(a, b).mask, i) ==> !bits::bit(tail_greedy::gathered(a, b).val, i),
        a.covers(x) || b.covers(x) ==> tail_greedy::gathered(a, b).covers(x),
{
    broadcast use bits::group_bits;
    let g = tail_greedy::gathered(a, b);
    assert forall|k: int| 0 <= k < 64 implies (#[trigger] bits::bit(g.mask, k) <==> bits::bit(a.mask, k) && bits::bit(b.mask, k) && bits::bit(a.val, k) == bits::bit(b.val, k)) && (bits::bit(g.val, k) <==> bits::bit(a.val, k) && bits::bit(g.mask, k)) by {}
    if a.covers(x) || b.covers(x) {
        assert forall|k: int| 0 <= k < 64 && #[trigger] bits::bit(g.mask, k) implies bits::bit(x, k) == bits::bit(g.val, k) by {
            assert(bits::bit(a.mask, k) && bits::bit(b.mask, k));
        }
    }
}

/// Offers are taken by the lowest priority, of equal ones by the lower rows: no offer comes before itself,
/// of two one comes first, and the order carries over.
pub proof fn law_order_of_offers(a: (i64, usize, usize), b: (i64, usize, usize), c: (i64, usize, usize))
    ensures
        a.0 < b.0 ==> tail_greedy::sooner(a, b),
        a.0 == b.0 && a.1 < b.1 ==> tail_greedy::sooner(a, b),
        a.0 == b.0 && a.1 == b.1 && a.2 < b.2 ==> tail_greedy::sooner(a, b),
        !(tail_greedy::sooner(a, b) && tail_greedy::sooner(b, a)),
        a != b ==> tail_greedy::sooner(a, b) || tail_greedy::sooner(b, a),
        tail_greedy::sooner(a, b) && tail_greedy::sooner(b, c) ==> tail_greedy::sooner(a, c),
{
}

/// The orders by parts are total: the first part counts first, and equal in both directions is the same.
pub proof fn law_orders_by_parts(x: (usize, usize, usize), y: (usize, usize, usize), z: (usize, usize, usize), p: (u64, usize), q: (u64, usize), r: (u64, usize))
    ensures
        x.0 < y.0 ==> vegraph::triple_le(x, y) && !vegraph::triple_le(y, x),
        x.0 == y.0 && x.1 < y.1 ==> vegraph::triple_le(x, y) && !vegraph::triple_le(y, x),
        x.0 == y.0 && x.1 == y.1 ==> (vegraph::triple_le(x, y) <==> x.2 <= y.2),
        vegraph::triple_le(x, y) && vegraph::triple_le(y, z) ==> vegraph::triple_le(x, z),
        p.0 < q.0 ==> order::pair_le(p, q) && !order::pair_le(q, p),
        p.0 == q.0 ==> (order::pair_le(p, q) <==> p.1 <= q.1),
        order::pair_le(p, q) && order::pair_le(q, r) ==> order::pair_le(p, r),
{
}

/// Two to the power of a number.
pub proof fn law_powers_of_two(n: nat)
    ensures
        util::pow2r(n) == power2::pow2(n) as real,
    decreases n,
{
    power2::lemma2_to64();
    if n > 0 {
        law_powers_of_two((n - 1) as nat);
        power2::lemma_pow2_unfold(n);
    }
}

/// An answer that is not a veto: what it fixes is fixed, and all else stays as it was.
pub proof fn law_answers_are_granted(x: cube::Question, v: int)
    requires
        x.2.len() == x.0.len(),
        !cube::vetoes(x),
        0 <= v < x.0.len(),
    ensures
        x.2[v].fixed() ==> cube::granted(x)[v] == x.2[v],
        !x.2[v].fixed() ==> cube::granted(x)[v] == x.0[v],
{
}

/// An answer is a veto where it marks a contradiction or fixes a variable that has another value; one of
/// another length says nothing.
pub proof fn law_vetoes(x: cube::Question, v: int)
    ensures
        x.2.len() != x.0.len() ==> !cube::vetoes(x) && cube::granted(x) == x.0,
        x.2.len() == x.0.len() && x.0.len() > 0 && x.2[0] == DomainMask::NONE ==> cube::vetoes(x),
        x.2.len() == x.0.len() && 0 <= v < x.0.len() && x.2[v].fixed() && x.0[v].fixed() && x.2[v] != x.0[v] ==> cube::vetoes(x),
{
    if x.2.len() == x.0.len() && 0 <= v < x.0.len() && x.2[v].fixed() && x.0[v].fixed() && x.2[v] != x.0[v] {
        assert(cube::denies(x.0, x.2));
    }
}

/// Domains that are marked as contradictory allow no assignment.
pub proof fn law_contradictions_allow_nothing(d: Seq<DomainMask>, a: Asg)
    requires
        d.len() > 0,
    ensures
        cdcl::contradicted(d).len() == d.len(),
        !cdcl::contradicted(d)[0].allows(a(0)),
{
}

/// The counters of a search go up by what was done, as far as they go.
pub proof fn law_searches_are_recorded(was: Stats, now: Stats, c: searchtree::Counts)
    requires
        searchtree::recorded(was, now, c),
        was.branching_nodes + c.nodes <= u64::MAX,
        was.total_potential_subproblems + c.clauses <= u64::MAX,
        was.total_visited_nodes + c.visits <= u64::MAX,
        was.component_splits + c.splits <= u64::MAX,
    ensures
        now.branching_nodes - was.branching_nodes == c.nodes,
        now.total_potential_subproblems - was.total_potential_subproblems == c.clauses,
        now.total_visited_nodes - was.total_visited_nodes == c.visits,
        now.component_splits - was.component_splits == c.splits,
        now.region_branches == was.region_branches,
        now.region_configs == was.region_configs,
{
}

/// While models are counted, as many subproblems are visited as come up.
pub proof fn law_subproblems_are_visited(was: Stats, now: Stats, k: nat)
    requires
        counting::stepped(was, now, 0, k),
        was.total_potential_subproblems + k <= u64::MAX,
        was.total_visited_nodes + k <= u64::MAX,
    ensures
        now.total_potential_subproblems - was.total_potential_subproblems == k,
        now.total_visited_nodes - was.total_visited_nodes == k,
{
}

/// Where the domains are contradictory nothing is measured but the variables: no constraint is active,
/// and each open variable is a part of its own.
pub proof fn law_refuted_measures(cn: ConstraintNetwork, d: Seq<DomainMask>, tables: Seq<ct::RSparseBitSet>, r: ResidualDiagnostics, v: int)
    requires
        residual::measures(cn, d, tables, r),
        0 <= v < cn.n(),
        d[v] == DomainMask::NONE,
    ensures
        r.contradiction,
        r.variables == r.fixed_variables + r.unfixed_variables,
        r.active_tensors == 0 && r.entailed_tensors == cn.m(),
        r.constrained_variables == 0 && r.free_variables == r.unfixed_variables,
        r.constrained_components == 0 && r.components_including_free == r.unfixed_variables,
        r.active_incidence_edges == 0 && r.live_rows_total == 0,
        r.active_degree_max == 0 && r.residual_arity_max == 0 && r.live_rows_max == 0,
{
}

} // verus!
