//! Bounded-width variable elimination that keeps weighted counts.
use vstd::prelude::*;

use crate::canonicalize;
use crate::contract;
use crate::domain::Asg;
use crate::minfill;
use crate::network;
use crate::network::ConstraintNetwork;
use crate::seqs;
use crate::semiring::Weight;
use crate::sums;
use crate::vegraph;
use crate::vegraph::VeGraph;
use crate::weighted;
use crate::weighted::WRelation;

verus! {

/// What is left of weighted relations after elimination: the relations over the variables that
/// stay, and the weight of the parts that went entirely.
pub struct WeightedCanonicalized<W> {
    pub surviving: Vec<WRelation<W>>,
    pub scalar: W,
    pub n_vars: usize,
}

/// The variables below `n` that some relation has, ascending.
pub open spec fn mentioned_ids<W: Weight>(rels: Seq<WRelation<W>>, n: int) -> Seq<int> {
    sums::chosen_ids(|x: int| weighted::some_wlists(rels, x as usize), n)
}

/// The sum, over all assignments of the variables that occur, of the product of the weights.
pub open spec fn relations_total<W: Weight>(rels: Seq<WRelation<W>>, n: int, base: Asg) -> real {
    sums::total(|a: Asg| weighted::weigh_all(rels, a), base, mentioned_ids(rels, n))
}

/// The scopes of weighted relations.
pub open spec fn wscopes_of<W: Weight>(rels: Seq<WRelation<W>>) -> Seq<Seq<usize>> {
    Seq::new(rels.len(), |i: int| rels[i].vars@)
}

/// No variable that occurs can go within the width budget.
pub open spec fn all_too_wide<W: Weight>(rels: Seq<WRelation<W>>, budget: int) -> bool {
    forall|v: usize| #[trigger] weighted::some_wlists(rels, v) ==> vegraph::too_wide(wscopes_of(rels), budget, v)
}

/// `c` keeps the total of `input`: its scalar times the total of what is left. No variable within
/// the width budget is left.
pub open spec fn keeps_total<W: Weight>(input: Seq<WRelation<W>>, n: int, budget: int, c: WeightedCanonicalized<W>) -> bool {
    &&& c.n_vars == n
    &&& all_too_wide(c.surviving@, budget)
    &&& weighted::all_wsmall(c.surviving@, n)
    &&& forall|i: int| 0 <= i < c.surviving@.len() ==> (#[trigger] c.surviving@[i]).vars@.len() > 0 && c.surviving@[i].rows@.len() > 0
    &&& forall|base: Asg| #[trigger] relations_total(input, n, base) == c.scalar.val() * relations_total(c.surviving@, n, base)
}

/// The weights at `a` of the relations in use, ones for the others.
pub open spec fn live_factors<W: Weight>(live: Seq<WRelation<W>>, active: Seq<bool>, a: Asg) -> Seq<real> {
    Seq::new(
        live.len(),
        |t: int|
            if active[t] {
                live[t].weigh(a)
            } else {
                1real
            },
    )
}

/// The product of the weights at an assignment of the relations in use.
pub open spec fn live_weight<W: Weight>(live: Seq<WRelation<W>>, active: Seq<bool>) -> spec_fn(Asg) -> real {
    |a: Asg| sums::product(live_factors(live, active, a))
}

/// The variables below `n` that some slot in use mentions, ascending.
pub open spec fn open_ids(g: VeGraph, n: int) -> Seq<int> {
    sums::chosen_ids(|x: int| vegraph::mentions(g.scopes@, g.active@, x as usize), n)
}

/// The relations in use are those of the graph, and their total is that of the input.
spec fn winv<W: Weight>(input: Seq<WRelation<W>>, n: int, g: VeGraph, live: Seq<WRelation<W>>) -> bool {
    &&& g.wf(n)
    &&& live.len() == g.scopes@.len()
    &&& forall|t: int| 0 <= t < live.len() && g.active@[t] ==> (#[trigger] live[t]).wf() && live[t].vars@ == g.scopes@[t]@ && live[t].vars@.len() <= 32
    &&& forall|base: Asg| #[trigger] relations_total(input, n, base) == sums::total(live_weight(live, g.active@), base, open_ids(g, n))
}

/// A weighted relation depends on its own variables only.
pub proof fn lemma_weigh_same<W: Weight>(vars: Seq<usize>, rows: Seq<(u64, W)>, a: Asg, b: Asg)
    requires
        contract::same_on(vars, a, b),
    ensures
        weighted::weight_at(vars, rows, a) == weighted::weight_at(vars, rows, b),
    decreases rows.len(),
{
    if rows.len() > 0 {
        lemma_weigh_same(vars, rows.drop_last(), a, b);
        assert(network::agrees(vars, rows.last().0, a) <==> network::agrees(vars, rows.last().0, b)) by {
            let row = rows.last().0;
            if network::agrees(vars, row, a) {
                assert forall|i: int| 0 <= i < vars.len() implies crate::bits::bit(row, i) == b(#[trigger] vars[i] as int) by {
                    assert(a(vars[i] as int) == b(vars[i] as int));
                }
            }
            if network::agrees(vars, row, b) {
                assert forall|i: int| 0 <= i < vars.len() implies crate::bits::bit(row, i) == a(#[trigger] vars[i] as int) by {
                    assert(a(vars[i] as int) == b(vars[i] as int));
                }
            }
        }
    }
}

/// The invariant at the start.
proof fn lemma_wstart<W: Weight>(input: Seq<WRelation<W>>, n: int, g: VeGraph)
    requires
        weighted::all_wsmall(input, n),
        g.wf(n),
        0 <= n <= usize::MAX,
        input.len() == g.scopes@.len(),
        forall|t: int| 0 <= t < input.len() ==> #[trigger] g.active@[t],
        forall|t: int| 0 <= t < input.len() ==> (#[trigger] input[t]).vars@ == g.scopes@[t]@,
    ensures
        winv(input, n, g, input),
{
    let p = |x: int| weighted::some_wlists(input, x as usize);
    let q = |x: int| vegraph::mentions(g.scopes@, g.active@, x as usize);
    assert forall|x: int| 0 <= x < n implies #[trigger] p(x) == q(x) by {
        if weighted::some_wlists(input, x as usize) {
            let i = choose|i: int| 0 <= i < input.len() && (#[trigger] input[i]).vars@.contains(x as usize);
            assert(g.active@[i]);
            assert(g.scopes@[i]@.contains(x as usize));
        }
        if vegraph::mentions(g.scopes@, g.active@, x as usize) {
            let t = choose|t: int| 0 <= t < g.scopes@.len() && g.active@[t] && (#[trigger] g.scopes@[t])@.contains(x as usize);
            assert(input[t].vars@.contains(x as usize));
        }
    }
    sums::lemma_chosen_same(p, q, n);
    assert forall|base: Asg| #[trigger] relations_total(input, n, base) == sums::total(live_weight(input, g.active@), base, open_ids(g, n)) by {
        let f = |a: Asg| weighted::weigh_all(input, a);
        let h = live_weight(input, g.active@);
        assert forall|a: Asg| #[trigger] f(a) == h(a) by {
            assert(Seq::new(input.len(), |i: int| input[i].weigh(a)) =~= live_factors(input, g.active@, a)) by {
                assert forall|t: int| 0 <= t < input.len() implies #[trigger] live_factors(input, g.active@, a)[t] == input[t].weigh(a) by {
                    assert(g.active@[t]);
                }
            }
        }
        sums::lemma_total_same(f, h, base, open_ids(g, n));
    }
}

/// Replacing the relations that mention `v` by their join summed over `v` sums the product of
/// all weights over `v`.
proof fn lemma_weight_step<W: Weight>(
    g0: VeGraph,
    g1: VeGraph,
    live0: Seq<WRelation<W>>,
    live1: Seq<WRelation<W>>,
    v: usize,
    tids: Seq<usize>,
    incident: Seq<WRelation<W>>,
    joined: WRelation<W>,
    merged: WRelation<W>,
    b: Asg,
)
    requires
        live0.len() == g0.scopes@.len() == g1.scopes@.len() == live1.len(),
        forall|t: int| 0 <= t < live0.len() && g0.active@[t] ==> (#[trigger] live0[t]).vars@ == g0.scopes@[t]@,
        tids.len() > 0,
        vegraph::incident_ok(g0.scopes@, g0.active@, tids, v as int),
        vegraph::neighbours_ok(g0.scopes@, g0.active@, v, merged.vars@),
        incident.len() == tids.len(),
        forall|i: int, a: Asg| 0 <= i < tids.len() ==> #[trigger] incident[i].weigh(a) == live0[tids[i] as int].weigh(a),
        network::ascending_ids(joined.vars@),
        joined.vars@.contains(v),
        forall|x: usize| #[trigger] joined.vars@.contains(x) ==> x == v || merged.vars@.contains(x),
        forall|x: Asg| #[trigger] joined.weigh(x) == weighted::weigh_all(incident, x),
        forall|a: Asg| #[trigger] merged.weigh(a) == sums::total(|b: Asg| joined.weigh(b), a, weighted::dropped(joined.vars@, merged.vars@)),
        forall|t: int| 0 <= t < g0.scopes@.len() ==> #[trigger] g1.active@[t] == (g0.active@[t] && (t == tids[0] || !tids.contains(t as usize))),
        live1[tids[0] as int] == merged,
        forall|t: int| 0 <= t < live0.len() && t != tids[0] ==> #[trigger] live1[t] == live0[t],
    ensures
        live_weight(live1, g1.active@)(b) == live_weight(live0, g0.active@)(sums::set(b, v as int, false)) + live_weight(live0, g0.active@)(sums::set(b, v as int, true)),
{
    let b0 = sums::set(b, v as int, false);
    let b1 = sums::set(b, v as int, true);
    let keep = tids[0] as int;
    assert(g0.scopes.len() == g0.scopes@.len());
    assert forall|i: int| 0 <= i < tids.len() implies (#[trigger] tids[i]) < live0.len() && g0.active@[tids[i] as int] by {
        assert(tids.contains(tids[i]));
    }
    let rest = sums::without_factors(live_factors(live0, g0.active@, b), tids);
    assert forall|x: bool| #[trigger] live_weight(live0, g0.active@)(sums::set(b, v as int, x)) == joined.weigh(sums::set(b, v as int, x)) * sums::product(rest) by {
        let bx = sums::set(b, v as int, x);
        let s = live_factors(live0, g0.active@, bx);
        assert forall|i: int| 0 <= i < tids.len() implies (#[trigger] tids[i]) < s.len() by {}
        sums::lemma_product_split(s, tids);
        assert(Seq::new(tids.len(), |i: int| s[tids[i] as int]) =~= Seq::new(incident.len(), |i: int| incident[i].weigh(bx))) by {
            assert forall|i: int| 0 <= i < tids.len() implies s[#[trigger] tids[i] as int] == incident[i].weigh(bx) by {
                assert(g0.active@[tids[i] as int]);
            }
        }
        assert(sums::without_factors(s, tids) =~= rest) by {
            assert forall|t: int| 0 <= t < live0.len() && !contract::lists(tids, t) && g0.active@[t] implies #[trigger] live0[t].weigh(bx) == live0[t].weigh(b) by {
                assert(!g0.scopes@[t]@.contains(v)) by {
                    if g0.scopes@[t]@.contains(v) {
                        assert(tids.contains(t as usize));
                        let k = tids.index_of(t as usize);
                        assert(tids[k] as int == t);
                    }
                }
                assert forall|i: int| 0 <= i < live0[t].vars@.len() implies bx(#[trigger] live0[t].vars@[i] as int) == b(live0[t].vars@[i] as int) by {
                    assert(live0[t].vars@.contains(live0[t].vars@[i]));
                }
                lemma_weigh_same(live0[t].vars@, live0[t].rows@, bx, b);
            }
        }
    }
    // The merged relation sums the join over `v`.
    let f = |c: Asg| joined.weigh(c);
    let d = weighted::dropped(joined.vars@, merged.vars@);
    weighted::lemma_dropped(joined.vars@, merged.vars@);
    assert(d =~= seq![v as int]) by {
        assert(contract::lists(joined.vars@, v as int)) by {
            let k = joined.vars@.index_of(v);
            assert(joined.vars@[k] as int == v);
        }
        assert(!contract::lists(merged.vars@, v as int)) by {
            if contract::lists(merged.vars@, v as int) {
                let k = choose|k: int| 0 <= k < merged.vars@.len() && (#[trigger] merged.vars@[k]) as int == v;
                assert(merged.vars@.contains(v));
            }
        }
        assert(d.contains(v as int));
        assert forall|i: int| 0 <= i < d.len() implies d[i] == v by {
            assert(d.contains(d[i]));
            let k = choose|k: int| 0 <= k < joined.vars@.len() && (#[trigger] joined.vars@[k]) as int == d[i];
            assert(joined.vars@.contains(joined.vars@[k]));
            if d[i] != v {
                let q = merged.vars@.index_of(joined.vars@[k]);
                assert(merged.vars@[q] as int == d[i]);
                assert(contract::lists(merged.vars@, d[i]));
            }
        }
        if d.len() > 1 {
            assert(d[0] != d[1]);
        }
    }
    assert(merged.weigh(b) == f(b0) + f(b1)) by {
        reveal_with_fuel(sums::total, 3);
        assert(seq![v as int].drop_last() =~= Seq::<int>::empty());
        assert(seq![v as int].last() == v as int);
    }
    // The factors afterwards.
    let s1 = live_factors(live1, g1.active@, b);
    assert(contract::lists(tids, keep)) by {
        assert(tids[0] as int == keep);
    }
    assert(s1 =~= rest.update(keep, merged.weigh(b))) by {
        assert forall|t: int| 0 <= t < live0.len() && t != keep implies s1[t] == rest[t] by {
            if contract::lists(tids, t) {
                let k = choose|k: int| 0 <= k < tids.len() && (#[trigger] tids[k]) as int == t;
                assert(tids.contains(t as usize));
                assert(!g1.active@[t]);
            } else {
                assert(!tids.contains(t as usize)) by {
                    if tids.contains(t as usize) {
                        let k = tids.index_of(t as usize);
                        assert(tids[k] as int == t);
                    }
                }
                assert(live1[t] == live0[t]);
                assert(g1.active@[t] == g0.active@[t]);
            }
        }
        assert(g1.active@[keep]);
    }
    sums::lemma_product_update(rest, keep, merged.weigh(b));
    let p = sums::product(rest);
    let y0 = f(b0);
    let y1 = f(b1);
    assert(live_weight(live0, g0.active@)(b0) == y0 * p);
    assert(live_weight(live0, g0.active@)(b1) == y1 * p);
    assert(p * (y0 + y1) == y0 * p + y1 * p) by (nonlinear_arith);
}

/// An elimination step keeps the total.
proof fn lemma_weliminate<W: Weight>(
    input: Seq<WRelation<W>>,
    n: int,
    g0: VeGraph,
    g1: VeGraph,
    live0: Seq<WRelation<W>>,
    live1: Seq<WRelation<W>>,
    v: usize,
    tids: Seq<usize>,
    incident: Seq<WRelation<W>>,
    joined: WRelation<W>,
    merged: WRelation<W>,
)
    requires
        winv(input, n, g0, live0),
        v < n <= usize::MAX,
        tids.len() > 0,
        vegraph::incident_ok(g0.scopes@, g0.active@, tids, v as int),
        vegraph::neighbours_ok(g0.scopes@, g0.active@, v, merged.vars@),
        merged.vars@.len() <= 32,
        incident.len() == tids.len(),
        forall|i: int| 0 <= i < tids.len() ==> (#[trigger] incident[i]).vars@ == live0[tids[i] as int].vars@,
        forall|i: int, a: Asg| 0 <= i < tids.len() ==> #[trigger] incident[i].weigh(a) == live0[tids[i] as int].weigh(a),
        joined.wf(),
        forall|x: Asg| #[trigger] joined.weigh(x) == weighted::weigh_all(incident, x),
        forall|x: usize| #[trigger] joined.vars@.contains(x) <==> weighted::some_wlists(incident, x),
        merged.wf(),
        forall|a: Asg| #[trigger] merged.weigh(a) == sums::total(|b: Asg| joined.weigh(b), a, weighted::dropped(joined.vars@, merged.vars@)),
        g1.wf(n),
        g1.scopes@.len() == g0.scopes@.len(),
        forall|t: int| 0 <= t < g0.scopes@.len() ==> #[trigger] g1.active@[t] == (g0.active@[t] && (t == tids[0] || !tids.contains(t as usize))),
        g1.scopes@[tids[0] as int]@ == merged.vars@,
        forall|t: int| 0 <= t < g0.scopes@.len() && t != tids[0] ==> #[trigger] g1.scopes@[t] == g0.scopes@[t],
        live1.len() == live0.len(),
        live1[tids[0] as int] == merged,
        forall|t: int| 0 <= t < live0.len() && t != tids[0] ==> #[trigger] live1[t] == live0[t],
    ensures
        winv(input, n, g1, live1),
        !vegraph::mentions(g1.scopes@, g1.active@, v),
        vegraph::mentions(g0.scopes@, g0.active@, v),
        forall|x: usize| x != v && #[trigger] vegraph::mentions(g1.scopes@, g1.active@, x) ==> vegraph::mentions(g0.scopes@, g0.active@, x),
{
    let out = merged.vars@;
    let keep = tids[0] as int;
    vegraph::lemma_merge_mentions(g0, g1, v, tids, out);
    assert(tids.contains(tids[0]));
    assert(joined.vars@.contains(v)) by {
        assert(incident[0].vars@.contains(v));
    }
    assert forall|x: usize| #[trigger] joined.vars@.contains(x) implies x == v || out.contains(x) by {
        let i = choose|i: int| 0 <= i < incident.len() && (#[trigger] incident[i]).vars@.contains(x);
        let t = tids[i] as int;
        assert(tids.contains(tids[i]));
        assert(g0.scopes@[t]@.contains(v) && g0.scopes@[t]@.contains(x));
    }
    assert forall|t: int| 0 <= t < live1.len() && g1.active@[t] implies (#[trigger] live1[t]).wf() && live1[t].vars@ == g1.scopes@[t]@ && live1[t].vars@.len() <= 32 by {
        if t != keep {
            assert(live1[t] == live0[t]);
            assert(g1.scopes@[t] == g0.scopes@[t]);
        }
    }
    let p0 = |x: int| vegraph::mentions(g0.scopes@, g0.active@, x as usize);
    let p1 = |x: int| vegraph::mentions(g1.scopes@, g1.active@, x as usize);
    let o0 = open_ids(g0, n);
    let o1 = open_ids(g1, n);
    sums::lemma_chosen_ids(p0, n);
    sums::lemma_chosen_ids(p1, n);
    let w0 = live_weight(live0, g0.active@);
    let w1 = live_weight(live1, g1.active@);
    assert(!o1.contains(v as int));
    let moved = seq![v as int] + o1;
    assert(sums::unlike(moved)) by {
        assert forall|i: int, j: int| 0 <= i < j < moved.len() implies moved[i] != moved[j] by {
            assert(o1.contains(moved[j])) by {
                assert(o1[j - 1] == moved[j]);
            }
        }
    }
    assert forall|x: int| o0.contains(x) <==> moved.contains(x) by {
        if moved.contains(x) {
            let k = moved.index_of(x);
            if k > 0 {
                assert(o1.contains(o1[k - 1]));
            }
        }
        if o0.contains(x) {
            if x == v {
                assert(moved[0] == x);
            } else {
                assert(o1.contains(x));
                let k = o1.index_of(x);
                assert(moved[k + 1] == x);
            }
        }
    }
    assert forall|base: Asg| #[trigger] relations_total(input, n, base) == sums::total(w1, base, o1) by {
        sums::lemma_total_reorder(w0, base, o0, moved);
        sums::lemma_total_inner(w0, base, v as int, o1);
        let h = |b: Asg| w0(sums::set(b, v as int, false)) + w0(sums::set(b, v as int, true));
        assert forall|b: Asg| #[trigger] h(b) == w1(b) by {
            lemma_weight_step(g0, g1, live0, live1, v, tids, incident, joined, merged, b);
        }
        sums::lemma_total_same(h, w1, base, o1);
    }
}

/// A relation in use without rows makes the total zero.
proof fn lemma_wzero<W: Weight>(input: Seq<WRelation<W>>, n: int, g: VeGraph, live: Seq<WRelation<W>>)
    requires
        winv(input, n, g, live),
        forall|a: Asg| #[trigger] live_weight(live, g.active@)(a) == 0real,
    ensures
        forall|base: Asg| #[trigger] relations_total(input, n, base) == 0real,
{
    assert forall|base: Asg| #[trigger] relations_total(input, n, base) == 0real by {
        let f = live_weight(live, g.active@);
        let z = |a: Asg| 0real;
        sums::lemma_total_same(f, z, base, open_ids(g, n));
        sums::lemma_total_zero(z, base, open_ids(g, n));
    }
}

/// Copies of the relations in the slots `tids`.
fn wcollect<W: Weight>(live: &Vec<WRelation<W>>, tids: &Vec<usize>) -> (r: Vec<WRelation<W>>)
    requires
        forall|i: int| 0 <= i < tids@.len() ==> (#[trigger] tids@[i]) < live@.len() && live@[tids@[i] as int].wf(),
    ensures
        r@.len() == tids@.len(),
        forall|i: int| 0 <= i < tids@.len() ==> (#[trigger] r@[i]).vars@ == live@[tids@[i] as int].vars@ && r@[i].wf(),
        forall|i: int, a: Asg| 0 <= i < tids@.len() ==> #[trigger] r@[i].weigh(a) == live@[tids@[i] as int].weigh(a),
{
    let mut out: Vec<WRelation<W>> = Vec::new();
    let mut i: usize = 0;
    while i < tids.len()
        invariant
            i <= tids@.len(),
            forall|i: int| 0 <= i < tids@.len() ==> (#[trigger] tids@[i]) < live@.len() && live@[tids@[i] as int].wf(),
            out@.len() == i,
            forall|k: int| 0 <= k < i ==> (#[trigger] out@[k]).vars@ == live@[tids@[k] as int].vars@ && out@[k].wf(),
            forall|k: int, a: Asg| 0 <= k < i ==> #[trigger] out@[k].weigh(a) == live@[tids@[k] as int].weigh(a),
        decreases tids.len() - i,
    {
        let ghost before = out@;
        let r = live[tids[i]].copy();
        out.push(r);
        proof {
            assert forall|k: int, a: Asg| 0 <= k < i + 1 implies #[trigger] out@[k].weigh(a) == live@[tids@[k] as int].weigh(a) by {
                if k < i {
                    assert(before[k].weigh(a) == live@[tids@[k] as int].weigh(a));
                }
            }
        }
        i += 1;
    }
    out
}

/// Without variables, every row agrees with every assignment.
proof fn lemma_weight_constant<W: Weight>(vars: Seq<usize>, rows: Seq<(u64, W)>, a: Asg)
    requires
        vars.len() == 0,
    ensures
        weighted::weight_at(vars, rows, a) == weighted::weight_sum(rows),
    decreases rows.len(),
{
    if rows.len() > 0 {
        lemma_weight_constant(vars, rows.drop_last(), a);
    }
}

/// Collecting one more slot into the scalar or the surviving relations.
proof fn lemma_wsurvive<W: Weight>(g: VeGraph, live: Seq<WRelation<W>>, before: Seq<WRelation<W>>, after: Seq<WRelation<W>>, sc0: real, sc1: real, t: int, n: int)
    requires
        g.wf(n),
        0 <= t < live.len() == g.scopes@.len(),
        g.active@[t] ==> live[t].vars@ == g.scopes@[t]@,
        g.active@[t] && live[t].vars@.len() > 0 ==> sc1 == sc0 && after.len() == before.len() + 1 && after.drop_last() =~= before && after.last().vars@ == live[t].vars@ && (forall|a: Asg| #[trigger] after.last().weigh(a) == live[t].weigh(a)),
        !(g.active@[t] && live[t].vars@.len() > 0) ==> after == before,
        !g.active@[t] ==> sc1 == sc0,
        g.active@[t] && live[t].vars@.len() == 0 ==> sc1 == sc0 * weighted::weight_sum(live[t].rows@),
        forall|x: usize| #[trigger] weighted::some_wlists(before, x) <==> canonicalize::mentions_upto(g, t, x),
        forall|a: Asg| sums::product(#[trigger] live_factors(live, g.active@, a).take(t)) == sc0 * weighted::weigh_all(before, a),
    ensures
        forall|x: usize| #[trigger] weighted::some_wlists(after, x) <==> canonicalize::mentions_upto(g, t + 1, x),
        forall|a: Asg| sums::product(#[trigger] live_factors(live, g.active@, a).take(t + 1)) == sc1 * weighted::weigh_all(after, a),
{
    assert forall|x: usize| #[trigger] weighted::some_wlists(after, x) <==> canonicalize::mentions_upto(g, t + 1, x) by {
        assert(weighted::some_wlists(before, x) <==> canonicalize::mentions_upto(g, t, x));
        if weighted::some_wlists(after, x) {
            let i = choose|i: int| 0 <= i < after.len() && (#[trigger] after[i]).vars@.contains(x);
            if i < before.len() {
                assert(before[i].vars@.contains(x));
                assert(weighted::some_wlists(before, x));
                let s = choose|s: int| 0 <= s < t && g.active@[s] && (#[trigger] g.scopes@[s])@.contains(x);
                assert(g.scopes@[s]@.contains(x));
            } else {
                assert(g.scopes@[t]@.contains(x));
            }
        }
        if canonicalize::mentions_upto(g, t + 1, x) {
            let s = choose|s: int| 0 <= s < t + 1 && g.active@[s] && (#[trigger] g.scopes@[s])@.contains(x);
            if s < t {
                assert(canonicalize::mentions_upto(g, t, x));
                let i = choose|i: int| 0 <= i < before.len() && (#[trigger] before[i]).vars@.contains(x);
                assert(after[i].vars@.contains(x));
            } else {
                assert(after[before.len() as int].vars@.contains(x));
            }
        }
    }
    assert forall|a: Asg| sums::product(#[trigger] live_factors(live, g.active@, a).take(t + 1)) == sc1 * weighted::weigh_all(after, a) by {
        let s = live_factors(live, g.active@, a);
        assert(s.take(t + 1).drop_last() =~= s.take(t));
        assert(s.take(t + 1).last() == s[t]);
        let p = sums::product(s.take(t));
        let w = weighted::weigh_all(before, a);
        assert(p == sc0 * w);
        if !g.active@[t] {
            assert(p * 1real == p) by (nonlinear_arith);
        } else if live[t].vars@.len() == 0 {
            lemma_weight_constant(live[t].vars@, live[t].rows@, a);
            let y = s[t];
            assert((sc0 * w) * y == (sc0 * y) * w) by (nonlinear_arith);
        } else {
            let f = Seq::new(after.len(), |i: int| after[i].weigh(a));
            assert(f.drop_last() =~= Seq::new(before.len(), |i: int| before[i].weigh(a))) by {
                assert forall|i: int| 0 <= i < before.len() implies after[i] == before[i] by {
                    assert(after.drop_last()[i] == before[i]);
                }
            }
            assert(f.last() == after.last().weigh(a));
            let y = s[t];
            assert((sc0 * w) * y == sc0 * (w * y)) by (nonlinear_arith);
        }
    }
}

/// The surviving relations and the scalar keep the total.
proof fn lemma_wfinish<W: Weight>(input: Seq<WRelation<W>>, n: int, g: VeGraph, live: Seq<WRelation<W>>, last: Seq<WRelation<W>>, scalar: real)
    requires
        winv(input, n, g, live),
        0 <= n <= usize::MAX,
        forall|x: usize| #[trigger] weighted::some_wlists(last, x) <==> canonicalize::mentions_upto(g, live.len() as int, x),
        forall|a: Asg| sums::product(#[trigger] live_factors(live, g.active@, a).take(live.len() as int)) == scalar * weighted::weigh_all(last, a),
    ensures
        forall|base: Asg| #[trigger] relations_total(input, n, base) == scalar * relations_total(last, n, base),
{
    let p = |x: int| weighted::some_wlists(last, x as usize);
    let q = |x: int| vegraph::mentions(g.scopes@, g.active@, x as usize);
    assert forall|x: int| 0 <= x < n implies #[trigger] p(x) == q(x) by {
        assert(weighted::some_wlists(last, x as usize) <==> canonicalize::mentions_upto(g, live.len() as int, x as usize));
        if q(x) {
            let t = choose|t: int| 0 <= t < g.scopes@.len() && g.active@[t] && (#[trigger] g.scopes@[t])@.contains(x as usize);
            assert(canonicalize::mentions_upto(g, live.len() as int, x as usize));
        }
        if canonicalize::mentions_upto(g, live.len() as int, x as usize) {
            let t = choose|t: int| 0 <= t < live.len() && g.active@[t] && (#[trigger] g.scopes@[t])@.contains(x as usize);
            assert(g.scopes@[t]@.contains(x as usize));
        }
    }
    sums::lemma_chosen_same(p, q, n);
    assert forall|base: Asg| #[trigger] relations_total(input, n, base) == scalar * relations_total(last, n, base) by {
        let f = |a: Asg| weighted::weigh_all(last, a);
        let h = |a: Asg| scalar * f(a);
        let w = live_weight(live, g.active@);
        assert forall|a: Asg| #[trigger] w(a) == h(a) by {
            let s = live_factors(live, g.active@, a);
            assert(s.take(live.len() as int) =~= s);
        }
        sums::lemma_total_same(w, h, base, open_ids(g, n));
        sums::lemma_total_scale(scalar, f, base, open_ids(g, n));
    }
}

/// Eliminate variables, cheapest first, while the width stays within `budget_b`, summing the
/// weights of each one that goes. None only where the total is zero.
pub fn bounded_ve_canonicalize_weighted_rels<W: Weight>(n_vars: usize, input: Vec<WRelation<W>>, budget_b: usize) -> (r: Option<WeightedCanonicalized<W>>)
    requires
        weighted::all_wsmall(input@, n_vars as int),
    ensures
        match r {
            None => forall|base: Asg| #[trigger] relations_total(input@, n_vars as int, base) == 0real,
            Some(c) => keeps_total(input@, n_vars as int, budget_b as int, c),
        },
{
    let ghost given = input@;
    let ghost n = n_vars as int;
    let mut live: Vec<WRelation<W>> = input;
    let mut scopes: Vec<Vec<usize>> = Vec::new();
    let mut t: usize = 0;
    while t < live.len()
        invariant
            t <= live@.len(),
            scopes@.len() == t,
            forall|s: int| 0 <= s < t ==> (#[trigger] scopes@[s])@ == live@[s].vars@,
        decreases live.len() - t,
    {
        scopes.push(network::copy_ids(&live[t].vars));
        t += 1;
    }
    let mut marks: Vec<bool> = Vec::new();
    while marks.len() < n_vars
        invariant
            marks@.len() <= n_vars,
            forall|v: int| 0 <= v < marks@.len() ==> !#[trigger] marks@[v],
        decreases n_vars - marks.len(),
    {
        marks.push(false);
    }
    proof {
        assert forall|t: int| 0 <= t < scopes@.len() implies network::ascending_ids((#[trigger] scopes@[t])@) by {
            assert(live@[t].wf());
        }
        assert forall|t: int, i: int| 0 <= t < scopes@.len() && 0 <= i < scopes@[t]@.len() implies (#[trigger] scopes@[t]@[i]) < n_vars by {
            assert(live@[t].wf());
            assert(live@[t].vars@[i] < n_vars);
        }
    }
    let mut g = VeGraph::new(scopes, n_vars);
    proof {
        lemma_wstart(given, n, g);
    }
    let mut heap = canonicalize::initial_heap(&g, &marks, budget_b);
    proof {
        assert(marks.len() == n);
        canonicalize::lemma_queue_start(g, marks@, budget_b as int, heap@);
    }
    let mut next = canonicalize::next_variable(&g, &marks, budget_b, &mut heap);
    while next.is_some()
        invariant
            n == n_vars == marks@.len(),
            given == input@,
            forall|v: int| 0 <= v < n ==> !#[trigger] marks@[v],
            winv(given, n, g, live@),
            forall|k: int| 0 <= k < heap@.len() ==> (#[trigger] heap@[k]).2 < n,
            canonicalize::awaits(g, marks@, budget_b as int, heap@, next),
        decreases canonicalize::open_count(g, n),
    {
        if let Some(v) = next {
            let tids = g.incident(v);
            let out = g.neighbours(&tids, v);
            proof {
                assert(vegraph::mentions(g.scopes@, g.active@, v));
                let t = choose|t: int| 0 <= t < g.scopes@.len() && g.active@[t] && (#[trigger] g.scopes@[t])@.contains(v);
                assert(g.scopes.len() == g.scopes@.len());
                assert(tids@.contains(t as usize));
                assert forall|i: int| 0 <= i < tids@.len() implies (#[trigger] tids@[i]) < live@.len() && live@[tids@[i] as int].wf() by {
                    assert(tids@.contains(tids@[i]));
                }
            }
            let incident = wcollect(&live, &tids);
            proof {
                lemma_wincident_joinable(g, live@, v, tids@, out@, incident@);
            }
            let ghost inc = incident@;
            let joined = weighted::wjoin_all(incident);
            if joined.rows.len() == 0 {
                proof {
                    assert forall|a: Asg| #[trigger] live_weight(live@, g.active@)(a) == 0real by {
                        let s = live_factors(live@, g.active@, a);
                        assert forall|i: int| 0 <= i < tids@.len() implies (#[trigger] tids@[i]) < s.len() by {}
                        sums::lemma_product_split(s, tids@);
                        assert(Seq::new(tids@.len(), |i: int| s[tids@[i] as int]) =~= Seq::new(inc.len(), |i: int| inc[i].weigh(a))) by {
                            assert forall|i: int| 0 <= i < tids@.len() implies s[#[trigger] tids@[i] as int] == inc[i].weigh(a) by {
                                assert(tids@.contains(tids@[i]));
                            }
                        }
                        assert(joined.weigh(a) == 0real);
                        let y = sums::product(sums::without_factors(s, tids@));
                        assert(0real * y == 0real) by (nonlinear_arith);
                    }
                    lemma_wzero(given, n, g, live@);
                }
                return None;
            }
            proof {
                lemma_wout_within(g, live@, v, tids@, out@, inc, joined.vars@);
            }
            let merged = joined.project(out.as_slice());
            let ghost g0 = g;
            let ghost live0 = live@;
            g.merge(v, &tids, &out);
            live.set(tids[0], merged);
            proof {
                lemma_weliminate(given, n, g0, g, live0, live@, v, tids@, inc, joined, merged);
                canonicalize::lemma_open_less(g0, g, v, n);
                assert forall|j: int| 0 <= j < out@.len() implies (#[trigger] out@[j]) < marks@.len() by {
                    g0.lemma_neighbour_range(v, out@, j);
                }
            }
            let ghost heap0 = heap@;
            let near = g.around(&out);
            canonicalize::rescore(&g, &marks, budget_b, &near, &mut heap);
            proof {
                minfill::lemma_merge_links(g0, g, v, tids@, out@);
                minfill::lemma_queue_kept(g0, g, marks@, budget_b as int, v, out@, near@, heap0, heap@);
            }
            next = canonicalize::next_variable(&g, &marks, budget_b, &mut heap);
        }
    }
    let mut scalar = W::one();
    let mut surviving: Vec<WRelation<W>> = Vec::new();
    let mut t: usize = 0;
    proof {
        assert forall|a: Asg| sums::product(#[trigger] live_factors(live@, g.active@, a).take(0)) == scalar.val() * weighted::weigh_all(surviving@, a) by {
            assert(live_factors(live@, g.active@, a).take(0).len() == 0);
            assert(Seq::new(surviving@.len(), |i: int| surviving@[i].weigh(a)).len() == 0);
            assert(1real * 1real == 1real) by (nonlinear_arith);
        }
    }
    while t < live.len()
        invariant
            n == n_vars,
            given == input@,
            winv(given, n, g, live@),
            t <= live@.len(),
            weighted::all_wsmall(surviving@, n),
            forall|i: int| 0 <= i < surviving@.len() ==> (#[trigger] surviving@[i]).vars@.len() > 0 && surviving@[i].rows@.len() > 0,
            forall|x: usize| #[trigger] weighted::some_wlists(surviving@, x) <==> canonicalize::mentions_upto(g, t as int, x),
            forall|a: Asg| sums::product(#[trigger] live_factors(live@, g.active@, a).take(t as int)) == scalar.val() * weighted::weigh_all(surviving@, a),
            vegraph::lists_scopes(g, t as int, wscopes_of(surviving@)),
        decreases live.len() - t,
    {
        let ghost before = surviving@;
        let ghost sc0 = scalar.val();
        if g.active[t] {
            assert(live@[t as int].wf());
            if live[t].rows.len() == 0 {
                proof {
                    assert forall|a: Asg| #[trigger] live_weight(live@, g.active@)(a) == 0real by {
                        let s = live_factors(live@, g.active@, a);
                        assert(s[t as int] == 0real);
                        sums::lemma_product_zero(s, t as int);
                    }
                    lemma_wzero(given, n, g, live@);
                }
                return None;
            }
            if live[t].vars.len() == 0 {
                let whole = live[t].total();
                scalar = scalar.mul(&whole);
            } else {
                let kept = live[t].copy();
                proof {
                    assert(weighted::configs(kept.rows@).len() == weighted::configs(live@[t as int].rows@).len());
                    assert forall|j: int| 0 <= j < kept.vars@.len() implies (#[trigger] kept.vars@[j]) < n by {
                        assert(g.scopes@[t as int]@[j] < n);
                    }
                }
                surviving.push(kept);
            }
        }
        proof {
            lemma_wsurvive(g, live@, before, surviving@, sc0, scalar.val(), t as int, n);
            let list = wscopes_of(before);
            if g.active@[t as int] && g.scopes@[t as int]@.len() > 0 {
                assert(wscopes_of(surviving@) =~= list.push(g.scopes@[t as int]@));
            }
            vegraph::lemma_scopes_step(g, t as int, list, wscopes_of(surviving@));
        }
        t += 1;
    }
    proof {
        lemma_wfinish(given, n, g, live@, surviving@, scalar.val());
        let list = wscopes_of(surviving@);
        assert forall|v: usize| #[trigger] weighted::some_wlists(surviving@, v) implies vegraph::too_wide(list, budget_b as int, v) by {
            let i = choose|i: int| 0 <= i < surviving@.len() && (#[trigger] surviving@[i]).vars@.contains(v);
            let j = surviving@[i].vars@.index_of(v);
            assert(surviving@[i].vars@[j] < n);
            assert(list[i].contains(v));
            vegraph::lemma_exhausted(g, list, marks@, budget_b as int, v);
        }
    }
    Some(WeightedCanonicalized { surviving, scalar, n_vars })
}

/// Bounded elimination on the constraints of `cn`, every satisfying row weighing one.
pub fn bounded_ve_canonicalize_weighted<W: Weight>(cn: &ConstraintNetwork, budget_b: usize) -> (r: Option<WeightedCanonicalized<W>>)
    requires
        cn.wf(),
    ensures
        match r {
            None => forall|base: Asg| #[trigger] models_total(*cn, base) == 0real,
            Some(c) => {
                &&& c.n_vars == cn.n()
                &&& weighted::all_wsmall(c.surviving@, cn.n())
                &&& forall|i: int| 0 <= i < c.surviving@.len() ==> (#[trigger] c.surviving@[i]).vars@.len() > 0 && c.surviving@[i].rows@.len() > 0
                &&& all_too_wide(c.surviving@, budget_b as int)
                &&& forall|base: Asg| #[trigger] models_total(*cn, base) == c.scalar.val() * relations_total(c.surviving@, cn.n(), base)
            },
        },
{
    let input = weighted::unit_weighted_relations::<W>(cn);
    proof {
        lemma_unit_total(*cn, input@);
    }
    let ghost given = input@;
    let r = bounded_ve_canonicalize_weighted_rels(cn.n_vars(), input, budget_b);
    proof {
        assert forall|base: Asg| true implies #[trigger] models_total(*cn, base) == relations_total(given, cn.n(), base) by {}
    }
    r
}

/// The number of models, summed from `base`.
pub open spec fn models_total(cn: ConstraintNetwork, base: Asg) -> real {
    sums::total(
        |a: Asg|
            if cn.model(a) {
                1real
            } else {
                0real
            },
        base,
        weighted::ids(cn.n()),
    )
}

/// A product of zeros and ones.
pub proof fn lemma_product_indicators(s: Seq<real>)
    requires
        forall|i: int| 0 <= i < s.len() ==> #[trigger] s[i] == 0real || s[i] == 1real,
    ensures
        sums::product(s) == (if forall|i: int| 0 <= i < s.len() ==> #[trigger] s[i] == 1real {
            1real
        } else {
            0real
        }),
    decreases s.len(),
{
    if s.len() > 0 {
        let f = s.drop_last();
        assert forall|i: int| 0 <= i < f.len() implies #[trigger] f[i] == 0real || f[i] == 1real by {
            assert(f[i] == s[i]);
        }
        lemma_product_indicators(f);
        let p = sums::product(f);
        let l = s.last();
        assert(s[s.len() - 1] == l);
        assert(p * 1real == p) by (nonlinear_arith);
        assert(p * 0real == 0real) by (nonlinear_arith);
        if forall|i: int| 0 <= i < s.len() ==> #[trigger] s[i] == 1real {
            assert forall|i: int| 0 <= i < f.len() implies #[trigger] f[i] == 1real by {
                assert(s[i] == 1real);
            }
        } else if l == 1real {
            let i = choose|i: int| 0 <= i < s.len() && #[trigger] s[i] != 1real;
            assert(f[i] != 1real);
        }
    }
}

proof fn lemma_unit_total<W: Weight>(cn: ConstraintNetwork, rels: Seq<WRelation<W>>)
    requires
        cn.wf(),
        rels.len() == cn.m(),
        forall|t: int, v: usize| 0 <= t < cn.m() ==> (#[trigger] rels[t].vars@.contains(v) <==> cn.axes(t).contains(v)),
        forall|t: int, a: Asg| 0 <= t < cn.m() ==> #[trigger] rels[t].weigh(a) == (if cn.holds(t, a) {
            1real
        } else {
            0real
        }),
    ensures
        forall|base: Asg| #[trigger] relations_total(rels, cn.n(), base) == models_total(cn, base),
{
    let n = cn.n();
    let p = |x: int| weighted::some_wlists(rels, x as usize);
    sums::lemma_chosen_ids(p, n);
    let o = mentioned_ids(rels, n);
    assert forall|x: int| o.contains(x) <==> weighted::ids(n).contains(x) by {
        if 0 <= x < n {
            assert(weighted::ids(n)[x] == x);
            assert(cn.incidence_wf(x));
            let t = cn.v2t@[x]@[0] as int;
            assert(cn.axes(t).contains(x as usize));
            assert(rels[t].vars@.contains(x as usize));
            assert(p(x));
        }
        if weighted::ids(n).contains(x) {
            let k = weighted::ids(n).index_of(x);
        }
    }
    assert forall|base: Asg| #[trigger] relations_total(rels, n, base) == models_total(cn, base) by {
        let f = |a: Asg| weighted::weigh_all(rels, a);
        let h = |a: Asg|
            if cn.model(a) {
                1real
            } else {
                0real
            };
        assert forall|a: Asg| #[trigger] f(a) == h(a) by {
            let s = Seq::new(rels.len(), |i: int| rels[i].weigh(a));
            assert forall|i: int| 0 <= i < s.len() implies #[trigger] s[i] == 0real || s[i] == 1real by {
                assert(rels[i].weigh(a) == (if cn.holds(i, a) { 1real } else { 0real }));
            }
            lemma_product_indicators(s);
            if cn.model(a) {
                assert forall|i: int| 0 <= i < s.len() implies #[trigger] s[i] == 1real by {
                    assert(cn.holds(i, a));
                    assert(rels[i].weigh(a) == 1real);
                }
            } else {
                let t = choose|t: int| 0 <= t < cn.m() && !#[trigger] cn.holds(t, a);
                assert(rels[t].weigh(a) == 0real);
                assert(s[t] != 1real);
            }
        }
        sums::lemma_total_same(f, h, base, o);
        assert(sums::unlike(weighted::ids(n)));
        sums::lemma_total_reorder(h, base, o, weighted::ids(n));
    }
}

/// The slots that mention one variable together have few enough variables to join.
proof fn lemma_wincident_joinable<W: Weight>(g: VeGraph, live: Seq<WRelation<W>>, v: usize, tids: Seq<usize>, out: Seq<usize>, incident: Seq<WRelation<W>>)
    requires
        g.active@.len() == g.scopes@.len() == live.len(),
        forall|t: int| 0 <= t < live.len() && g.active@[t] ==> (#[trigger] live[t]).vars@ == g.scopes@[t]@,
        vegraph::incident_ok(g.scopes@, g.active@, tids, v as int),
        vegraph::neighbours_ok(g.scopes@, g.active@, v, out),
        out.len() <= 32,
        incident.len() == tids.len(),
        forall|i: int| 0 <= i < tids.len() ==> (#[trigger] incident[i]).vars@ == live[tids[i] as int].vars@ && incident[i].wf(),
    ensures
        weighted::wjoinable(incident),
{
    let u = out.push(v);
    seqs::lemma_push_contains(out, v);
    assert forall|i: int| 0 <= i < incident.len() implies (#[trigger] incident[i]).wf() && contract::within(incident[i].vars@, u) by {
        let t = tids[i] as int;
        assert(tids.contains(tids[i]));
        assert forall|j: int| 0 <= j < incident[i].vars@.len() implies u.contains(#[trigger] incident[i].vars@[j]) by {
            let x = incident[i].vars@[j];
            assert(g.scopes@[t]@.contains(x));
            if x != v {
                assert(g.scopes@[t]@.contains(v));
                assert(out.contains(x));
            }
        }
    }
    assert(contract::roomy(u) && weighted::all_wwithin(incident, u));
}

/// The neighbours are variables of the join.
proof fn lemma_wout_within<W: Weight>(g: VeGraph, live: Seq<WRelation<W>>, v: usize, tids: Seq<usize>, out: Seq<usize>, incident: Seq<WRelation<W>>, vars: Seq<usize>)
    requires
        g.active@.len() == g.scopes@.len() == live.len(),
        forall|t: int| 0 <= t < live.len() && g.active@[t] ==> (#[trigger] live[t]).vars@ == g.scopes@[t]@,
        vegraph::incident_ok(g.scopes@, g.active@, tids, v as int),
        vegraph::neighbours_ok(g.scopes@, g.active@, v, out),
        incident.len() == tids.len(),
        forall|i: int| 0 <= i < tids.len() ==> (#[trigger] incident[i]).vars@ == live[tids[i] as int].vars@,
        forall|x: usize| #[trigger] vars.contains(x) <==> weighted::some_wlists(incident, x),
    ensures
        contract::within(out, vars),
{
    assert(g.scopes.len() == g.scopes@.len());
    assert forall|j: int| 0 <= j < out.len() implies vars.contains(#[trigger] out[j]) by {
        let x = out[j];
        assert(out.contains(x));
        let t = choose|t: int| 0 <= t < g.scopes@.len() && g.active@[t] && (#[trigger] g.scopes@[t])@.contains(v) && g.scopes@[t]@.contains(x);
        assert(tids.contains(t as usize));
        let i = tids.index_of(t as usize);
        assert(live[t].vars@.contains(x));
        assert(incident[i].vars@.contains(x));
    }
}

} // verus!
