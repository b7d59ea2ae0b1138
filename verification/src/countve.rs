//! Counting with variable elimination in front.
use vstd::prelude::*;

use crate::contract;
use crate::counting;
use crate::counting::CountBranch;
use crate::domain::{Asg, DomainMask};
use crate::localsum;
use crate::models;
use crate::network;
use crate::network::ConstraintNetwork;
use crate::problem;
use crate::problem::{Stats, TnProblem};
use crate::selector;
use crate::semiring::Weight;
use crate::sliced;
use crate::sums;
use crate::util;
use crate::wcanonicalize;
use crate::weighted;
use crate::weighted::{WRelation, WeightedNetwork};

verus! {

/// A weight that is not zero belongs to a model.
pub proof fn lemma_weighty_model<W: Weight>(cn: ConstraintNetwork, weights: Seq<Vec<W>>, a: Asg)
    requires
        weighted::network_weight(cn, weights, a) != 0real,
    ensures
        cn.model(a),
{
    let fs = Seq::new(cn.m() as nat, |t: int| weighted::tensor_weight(cn, weights, t, a));
    assert forall|t: int| 0 <= t < cn.m() implies #[trigger] cn.holds(t, a) by {
        if fs[t] == 0real {
            sums::lemma_product_zero(fs, t);
        }
        sliced::lemma_weight_holds(cn, weights, t, a);
    }
}

/// Domains that keep all models count all of them.
pub proof fn law_root_count<W: Weight>(cn: ConstraintNetwork, weights: Seq<Vec<W>>, d: Seq<DomainMask>)
    requires
        cn.wf(),
        d.len() == cn.n(),
        models::keeps_models(cn, problem::top(cn.n()), d),
    ensures
        counting::count_within(cn, weights, d) == weighted::weighted_count(cn, weights),
{
    let f = |a: Asg| weighted::network_weight(cn, weights, a);
    let n = cn.n();
    let c = selector::all_ids(n);
    let top = problem::top(n);
    let base: Asg = |v: int| false;
    assert(cn.vars.len() == cn.n());
    assert(network::distinct(c));
    assert forall|v: int| contract::lists(c, v) implies 0 <= v < n by {
        let i = choose|i: int| 0 <= i < c.len() && (#[trigger] c[i]) as int == v;
    }
    assert forall|b: Asg, v: int| contract::lists(c, v) && !top[v].fixed() && d[v].fixed() && #[trigger] b(v) != (d[v] == DomainMask::D1) implies #[trigger] f(b) == 0real by {
        if f(b) != 0real {
            lemma_weighty_model(cn, weights, b);
            assert(models::consistent(top, b));
            assert(models::consistent(d, b));
            assert(d[v].allows(b(v)));
        }
    }
    localsum::lemma_pins(f, top, d, c, n, base);
    lemma_all_open(n, n);
    assert(c.take(n) =~= c);
    let p = |v: int| !d[v].fixed();
    let ids = sums::chosen_ids(p, n);
    let open = util::open_vars(c, d, n);
    sums::lemma_chosen_ids(p, n);
    util::lemma_open_vars(c, d, n);
    assert forall|v: int| ids.contains(v) <==> open.contains(v) by {
        assert(ids.contains(v) <==> (0 <= v < n && p(v)));
        assert(open.contains(v) <==> (contract::lists(c.take(n), v) && !d[v].fixed()));
        if 0 <= v < n {
            assert(c[v] as int == v);
            assert(contract::lists(c, v));
        }
    }
    sums::lemma_total_reorder(f, localsum::settled(d), ids, open);
    assert(localsum::pinned_base(top, d, c, n, base) =~= localsum::settled(d)) by {
        assert forall|v: int| #[trigger] localsum::pinned_base(top, d, c, n, base)(v) == localsum::settled(d)(v) by {
            if 0 <= v < n {
                assert(c[v] as int == v);
                assert(contract::lists(c, v));
            }
        }
    }
}

proof fn lemma_all_open(n: int, k: int)
    requires
        0 <= k <= n <= usize::MAX,
    ensures
        util::open_vars(selector::all_ids(n), problem::top(n), k) == weighted::ids(k),
    decreases k,
{
    if k > 0 {
        lemma_all_open(n, k - 1);
        assert(weighted::ids(k) =~= weighted::ids(k - 1).push(k - 1));
    } else {
        assert(weighted::ids(0) =~= Seq::<int>::empty());
    }
}

/// With weight one on every row, an assignment weighs one where it is a model and zero
/// elsewhere.
pub proof fn law_unit_weight_counts_models<W: Weight>(cn: ConstraintNetwork, weights: Seq<Vec<W>>, a: Asg)
    requires
        cn.wf(),
        weighted::weights_fit(cn, weights),
        forall|t: int, k: int| 0 <= t < cn.m() && 0 <= k < cn.rows(t).len() ==> (#[trigger] weights[t]@[k]).val() == 1real,
    ensures
        weighted::network_weight(cn, weights, a) == (if cn.model(a) {
            1real
        } else {
            0real
        }),
{
    let fs = Seq::new(cn.m() as nat, |t: int| weighted::tensor_weight(cn, weights, t, a));
    if cn.model(a) {
        assert forall|t: int| 0 <= t < cn.m() implies #[trigger] fs[t] == 1real by {
            assert(cn.tensor_wf(t));
            assert(cn.holds(t, a));
            let k = choose|k: int| 0 <= k < cn.rows(t).len() && network::agrees(cn.axes(t), #[trigger] cn.rows(t)[k] as u64, a);
            sliced::lemma_tensor_row(cn, weights, t, k, a);
            assert(weights[t]@[k].val() == 1real);
        }
        localsum::lemma_ones(fs);
    } else if weighted::network_weight(cn, weights, a) != 0real {
        lemma_weighty_model(cn, weights, a);
    }
}

/// Where the kept variables of a compression come from: the k-th of those that have a new id.
proof fn lemma_compressed(map: Seq<Option<usize>>, n: int, u: int)
    requires
        network::compresses(map, n),
        0 <= u <= map.len(),
        0 <= n <= usize::MAX,
    ensures
        forall|w: int| 0 <= w < u && (#[trigger] map[w]) is Some ==> map[w]->0 < kept(map, u).len() && kept(map, u)[map[w]->0 as int] == w,
        forall|j: int| 0 <= j < kept(map, u).len() ==> 0 <= (#[trigger] kept(map, u)[j]) < u && map[kept(map, u)[j]] == Some(j as usize),
        kept(map, u).len() <= n,
    decreases u,
{
    if u > 0 {
        lemma_compressed(map, n, u - 1);
        let s = kept(map, u - 1);
        let t = kept(map, u);
        if map[u - 1] is Some {
            let k = map[u - 1]->0 as int;
            let l = s.len() as int;
            assert(t == s.push(u - 1));
            assert(k >= l) by {
                if k < l {
                    let w = s[k];
                    assert(map[w] == Some(k as usize));
                    assert(map[w]->0 < map[u - 1]->0);
                }
            }
            assert(k <= l) by {
                if k > l {
                    assert(network::has_original(map, l));
                    let w = choose|w: int| 0 <= w < map.len() && #[trigger] map[w] == Some(l as usize);
                    if w < u - 1 {
                        assert(map[w]->0 < s.len());
                    } else if w > u - 1 {
                        assert(map[u - 1]->0 < map[w]->0);
                    }
                }
            }
            assert forall|w: int| 0 <= w < u && (#[trigger] map[w]) is Some implies map[w]->0 < t.len() && t[map[w]->0 as int] == w by {
                if w < u - 1 {
                    assert(s[map[w]->0 as int] == w);
                }
            }
        }
    }
}

/// The ids below `u` that have a new id.
spec fn kept(map: Seq<Option<usize>>, u: int) -> Seq<int> {
    sums::chosen_ids(|x: int| map[x] is Some, u)
}

/// A constraint of the assembled network weighs what its relation weighs.
proof fn lemma_pulled_weight<W: Weight>(cn: ConstraintNetwork, weights: Seq<Vec<W>>, n: int, rels: Seq<WRelation<W>>, given: Seq<(Vec<usize>, Vec<u32>)>, t: int, x: Asg, b: Asg)
    requires
        cn.wf(),
        weighted::weights_fit(cn, weights),
        weighted::wnarrows(rels, given),
        network::assembles(cn, n, given),
        forall|t: int, k: int| 0 <= t < rels.len() && 0 <= k < rels[t].rows@.len() ==> (#[trigger] weights[t]@[k]).val() == rels[t].rows@[k].1.val(),
        0 <= t < rels.len(),
        forall|u: int| 0 <= u < n && (#[trigger] cn.orig_to_new@[u]) is Some ==> x(cn.orig_to_new@[u]->0 as int) == b(u),
    ensures
        weighted::tensor_weight(cn, weights, t, x) == rels[t].weigh(b),
{
    let rows = weighted::weighted_rows(cn, weights, t);
    let other = rels[t].rows@;
    let axes = cn.axes(t);
    let vars = rels[t].vars@;
    assert(given[t].0@ == vars);
    assert(network::renumbered(cn.orig_to_new@, given[t].0@, cn.axes(t)));
    assert(cn.rows(t) == given[t].1@);
    assert forall|i: int| 0 <= i < vars.len() implies x((#[trigger] axes[i]) as int) == b(vars[i] as int) by {
        assert(cn.orig_to_new@[vars[i] as int] == Some(axes[i]));
    }
    assert(rows.len() == other.len());
    assert forall|k: int| 0 <= k < rows.len() implies (#[trigger] rows[k]).0 == other[k].0 && rows[k].1.val() == other[k].1.val() by {
        assert(given[t].1@[k] as u64 == other[k].0);
        assert(weights[t]@[k].val() == other[k].1.val());
    }
    lemma_same_weight(axes, vars, rows, other, x, b);
}

proof fn lemma_same_weight<W: Weight>(axes: Seq<usize>, vars: Seq<usize>, rows: Seq<(u64, W)>, other: Seq<(u64, W)>, x: Asg, b: Asg)
    requires
        axes.len() == vars.len(),
        forall|i: int| 0 <= i < vars.len() ==> x((#[trigger] axes[i]) as int) == b(vars[i] as int),
        rows.len() == other.len(),
        forall|k: int| 0 <= k < rows.len() ==> (#[trigger] rows[k]).0 == other[k].0 && rows[k].1.val() == other[k].1.val(),
    ensures
        weighted::weight_at(axes, rows, x) == weighted::weight_at(vars, other, b),
    decreases rows.len(),
{
    if rows.len() > 0 {
        assert forall|k: int| 0 <= k < rows.drop_last().len() implies (#[trigger] rows.drop_last()[k]).0 == other.drop_last()[k].0 && rows.drop_last()[k].1.val() == other.drop_last()[k].1.val() by {
            assert(rows[k].0 == other[k].0);
        }
        lemma_same_weight(axes, vars, rows.drop_last(), other.drop_last(), x, b);
        let k = rows.len() - 1;
        assert(rows[k].0 == other[k].0);
        let row = rows.last().0;
        assert(network::agrees(axes, row, x) <==> network::agrees(vars, row, b)) by {
            if network::agrees(axes, row, x) {
                assert forall|i: int| 0 <= i < vars.len() implies crate::bits::bit(row, i) == b(#[trigger] vars[i] as int) by {
                    assert(x(axes[i] as int) == b(vars[i] as int));
                }
            }
            if network::agrees(vars, row, b) {
                assert forall|i: int| 0 <= i < axes.len() implies crate::bits::bit(row, i) == x(#[trigger] axes[i] as int) by {
                    assert(b(vars[i] as int) == x(axes[i] as int));
                }
            }
        }
    }
}

/// A sum over new ids is the sum over the ids they come from.
proof fn lemma_renamed<W: Weight>(cn: ConstraintNetwork, weights: Seq<Vec<W>>, n: int, rels: Seq<WRelation<W>>, given: Seq<(Vec<usize>, Vec<u32>)>, j: int, x: Asg, b: Asg)
    requires
        cn.wf(),
        weighted::weights_fit(cn, weights),
        weighted::wnarrows(rels, given),
        network::assembles(cn, n, given),
        forall|t: int, k: int| 0 <= t < rels.len() && 0 <= k < rels[t].rows@.len() ==> (#[trigger] weights[t]@[k]).val() == rels[t].rows@[k].1.val(),
        0 <= j <= cn.n(),
        forall|k: int| j <= k < cn.n() ==> #[trigger] x(k) == b(kept(cn.orig_to_new@, n)[k]),
    ensures
        sums::total(|a: Asg| weighted::network_weight(cn, weights, a), x, weighted::ids(j)) == sums::total(|a: Asg| weighted::weigh_all(rels, a), b, kept(cn.orig_to_new@, n).take(j)),
    decreases j,
{
    let f = |a: Asg| weighted::network_weight(cn, weights, a);
    let g = |a: Asg| weighted::weigh_all(rels, a);
    let map = cn.orig_to_new@;
    let s = kept(map, n);
    assert(cn.vars.len() == cn.n());
    lemma_compressed(map, cn.n(), n);
    lemma_kept_all(cn, n);
    if j == 0 {
        assert(weighted::ids(0) =~= Seq::<int>::empty());
        assert(s.take(0) =~= Seq::<int>::empty());
        assert forall|u: int| 0 <= u < n && (#[trigger] map[u]) is Some implies x(map[u]->0 as int) == b(u) by {
            assert(s[map[u]->0 as int] == u);
            assert(map[u]->0 < cn.n());
        }
        let p = Seq::new(cn.m() as nat, |t: int| weighted::tensor_weight(cn, weights, t, x));
        let q = Seq::new(rels.len(), |i: int| rels[i].weigh(b));
        assert forall|t: int| 0 <= t < rels.len() implies p[t] == q[t] by {
            lemma_pulled_weight(cn, weights, n, rels, given, t, x, b);
        }
        assert(p =~= q);
    } else {
        let ids = weighted::ids(j);
        let picks = s.take(j);
        assert(ids.drop_last() =~= weighted::ids(j - 1));
        assert(picks.drop_last() =~= s.take(j - 1));
        let v = s[j - 1];
        assert(ids.last() == j - 1);
        assert(picks.last() == v);
        assert forall|val: bool, k: int| j - 1 <= k < cn.n() implies #[trigger] sums::set(x, j - 1, val)(k) == sums::set(b, v, val)(s[k]) by {
            if k > j - 1 {
                assert(map[s[k]] == Some(k as usize));
                assert(map[s[j - 1]] == Some((j - 1) as usize));
            }
        }
        lemma_renamed(cn, weights, n, rels, given, j - 1, sums::set(x, j - 1, false), sums::set(b, v, false));
        lemma_renamed(cn, weights, n, rels, given, j - 1, sums::set(x, j - 1, true), sums::set(b, v, true));
    }
}

proof fn lemma_kept_all(cn: ConstraintNetwork, n: int)
    requires
        network::compresses(cn.orig_to_new@, cn.n()),
        cn.orig_to_new@.len() == n,
        cn.n() <= usize::MAX,
    ensures
        kept(cn.orig_to_new@, n).len() == cn.n(),
{
    let map = cn.orig_to_new@;
    lemma_compressed(map, cn.n(), n);
    let s = kept(map, n);
    if s.len() < cn.n() {
        let l = s.len() as int;
        assert(network::has_original(map, l));
        let w = choose|w: int| 0 <= w < map.len() && #[trigger] map[w] == Some(l as usize);
        assert(map[w]->0 < s.len());
    }
}

/// The weighted count of a network made of relations is the sum, over the variables that they
/// mention, of the product of their weights.
pub proof fn law_assembled_count<W: Weight>(cn: ConstraintNetwork, weights: Seq<Vec<W>>, n: int, rels: Seq<WRelation<W>>, base: Asg)
    requires
        weighted::from_wrelations_ok(cn, weights, n, rels),
        0 <= n <= usize::MAX,
    ensures
        weighted::weighted_count(cn, weights) == wcanonicalize::relations_total(rels, n, base),
{
    let given = choose|given: Seq<(Vec<usize>, Vec<u32>)>| weighted::wnarrows(rels, given) && #[trigger] network::assembles(cn, n, given);
    let map = cn.orig_to_new@;
    assert(cn.vars.len() == cn.n());
    lemma_kept_all(cn, n);
    lemma_renamed(cn, weights, n, rels, given, cn.n(), |v: int| false, base);
    assert(kept(map, n).take(cn.n()) =~= kept(map, n));
    let p = |x: int| map[x] is Some;
    let q = |x: int| weighted::some_wlists(rels, x as usize);
    assert forall|x: int| 0 <= x < n implies #[trigger] p(x) == q(x) by {
        assert(map[x] is Some <==> network::mentioned(given, x));
        if network::mentioned(given, x) {
            let t = choose|t: int| 0 <= t < given.len() && (#[trigger] given[t]).0@.contains(x as usize);
            assert(given[t].0@ == rels[t].vars@);
            assert(rels[t].vars@.contains(x as usize));
        }
        if q(x) {
            let t = choose|t: int| 0 <= t < rels.len() && (#[trigger] rels[t]).vars@.contains(x as usize);
            assert(given[t].0@ == rels[t].vars@);
            assert(given[t].0@.contains(x as usize));
        }
    }
    sums::lemma_chosen_same(p, q, n);
}

/// The weighted count of relations over ids below `n_vars`: eliminate variables as far as
/// `budget` allows, and search what is left. Every budget gives the same count.
///
/// The sum is over the variables that the relations mention.
pub fn count_with_ve<W: Weight>(n_vars: usize, rels: Vec<WRelation<W>>, budget: usize, max_rows: usize, branch: CountBranch) -> (r: (W, Stats))
    requires
        weighted::all_wsmall(rels@, n_vars as int),
    ensures
        forall|base: Asg| #[trigger] wcanonicalize::relations_total(rels@, n_vars as int, base) == r.0.val(),
        r.1.total_visited_nodes == r.1.total_potential_subproblems,
{
    match wcanonicalize::bounded_ve_canonicalize_weighted_rels(n_vars, rels, budget) {
        None => (W::zero(), Stats::default()),
        Some(wc) => {
            let ghost left = wc.surviving@;
            let ghost sc = wc.scalar.val();
            let wn = WeightedNetwork::from_relations(wc.n_vars, wc.surviving);
            let ghost net = wn.cn;
            let weights = wn.weights;
            match TnProblem::from_network_counting(wn.cn) {
                Ok(mut p) => {
                    proof {
                        law_root_count(net, weights@, p.doms@);
                    }
                    let solve = counting::bbcount(&mut p, weights.as_slice(), max_rows, branch);
                    proof {
                        assert forall|base: Asg| #[trigger] wcanonicalize::relations_total(rels@, n_vars as int, base) == sc * solve.models.val() by {
                            law_assembled_count(net, weights@, n_vars as int, left, base);
                        }
                    }
                    (wc.scalar.mul(&solve.models), solve.stats)
                },
                Err(_) => {
                    proof {
                        lemma_no_models(net, weights@);
                        assert forall|base: Asg| #[trigger] wcanonicalize::relations_total(rels@, n_vars as int, base) == 0real by {
                            law_assembled_count(net, weights@, n_vars as int, left, base);
                            assert(sc * 0real == 0real) by (nonlinear_arith);
                        }
                    }
                    (W::zero(), Stats::default())
                },
            }
        },
    }
}

proof fn lemma_no_models<W: Weight>(cn: ConstraintNetwork, weights: Seq<Vec<W>>)
    requires
        forall|a: Asg| !#[trigger] cn.model(a),
    ensures
        weighted::weighted_count(cn, weights) == 0real,
{
    let f = |a: Asg| weighted::network_weight(cn, weights, a);
    assert forall|a: Asg| #[trigger] f(a) == 0real by {
        if f(a) != 0real {
            lemma_weighty_model(cn, weights, a);
        }
    }
    sums::lemma_total_zero(f, |v: int| false, weighted::ids(cn.n()));
}

} // verus!
