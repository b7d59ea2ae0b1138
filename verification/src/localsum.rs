//! Sums over the open variables of a set.
use vstd::prelude::*;

use crate::bits;
use crate::components;
use crate::contract;
use crate::ct;
use crate::domain::{Asg, DomainMask};
use crate::network;
use crate::network::ConstraintNetwork;
use crate::propagate;
use crate::semiring::Weight;
use crate::sliced;
use crate::sums;
use crate::util;
use crate::wcanonicalize;
use crate::weighted;

verus! {

/// The fixed values, and zero elsewhere.
pub open spec fn settled(d: Seq<DomainMask>) -> Asg {
    |v: int| 0 <= v < d.len() && d[v] == DomainMask::D1
}

/// The constraints that are not uniform.
pub open spec fn wlive<W: Weight>(cn: ConstraintNetwork, weights: Seq<Vec<W>>, d: Seq<DomainMask>) -> Seq<bool> {
    Seq::new(cn.m() as nat, |t: int| !sliced::uniform(cn, weights, d, t))
}

/// Constraint `t` mentions an open variable of `c`.
pub open spec fn touches(cn: ConstraintNetwork, d: Seq<DomainMask>, c: Seq<usize>, t: int) -> bool {
    exists|j: int| 0 <= j < cn.axes(t).len() && !d[(#[trigger] cn.axes(t)[j]) as int].fixed() && contract::lists(c, cn.axes(t)[j] as int)
}

/// Constraint `t` is not uniform and mentions an open variable of `c`.
pub open spec fn involved<W: Weight>(cn: ConstraintNetwork, weights: Seq<Vec<W>>, d: Seq<DomainMask>, c: Seq<usize>, t: int) -> bool {
    !sliced::uniform(cn, weights, d, t) && touches(cn, d, c, t)
}

/// The weights that the involved constraints give to `a`.
pub open spec fn local_factors<W: Weight>(cn: ConstraintNetwork, weights: Seq<Vec<W>>, d: Seq<DomainMask>, c: Seq<usize>, a: Asg) -> Seq<real> {
    Seq::new(
        cn.m() as nat,
        |t: int|
            if involved(cn, weights, d, c, t) {
                weighted::tensor_weight(cn, weights, t, a)
            } else {
                1real
            },
    )
}

/// The product of the weights of the involved constraints.
pub open spec fn local_weight<W: Weight>(cn: ConstraintNetwork, weights: Seq<Vec<W>>, d: Seq<DomainMask>, c: Seq<usize>) -> spec_fn(Asg) -> real {
    |a: Asg| sums::product(local_factors(cn, weights, d, c, a))
}

/// The open variables of `c`.
pub open spec fn open_of(d: Seq<DomainMask>, c: Seq<usize>) -> Seq<int> {
    util::open_vars(c, d, c.len() as int)
}

/// The sum of the local weights over all values of the open variables of `c`.
pub open spec fn local_total<W: Weight>(cn: ConstraintNetwork, weights: Seq<Vec<W>>, d: Seq<DomainMask>, c: Seq<usize>) -> real {
    sums::total(local_weight(cn, weights, d, c), settled(d), open_of(d, c))
}

/// A list of pairwise different ids that constraints which are not uniform do not lead out of.
pub open spec fn shut_off<W: Weight>(cn: ConstraintNetwork, weights: Seq<Vec<W>>, d: Seq<DomainMask>, c: Seq<usize>) -> bool {
    &&& network::distinct(c)
    &&& forall|i: int| 0 <= i < c.len() ==> (#[trigger] c[i]) < cn.n()
    &&& components::sealed(cn, d, wlive(cn, weights, d), components::members(c))
}

/// The open variables of a list are what its name says.
pub proof fn lemma_open_of(d: Seq<DomainMask>, c: Seq<usize>)
    requires
        network::distinct(c),
    ensures
        sums::unlike(open_of(d, c)),
        forall|v: int| #[trigger] open_of(d, c).contains(v) <==> (contract::lists(c, v) && !d[v].fixed()),
{
    util::lemma_open_vars(c, d, c.len() as int);
    assert(c.take(c.len() as int) =~= c);
}

/// An assignment that differs from the fixed values only on open variables keeps them.
pub proof fn lemma_keeps(d: Seq<DomainMask>, c: Seq<usize>, a: Asg)
    requires
        network::distinct(c),
        sums::same_outside(settled(d), a, open_of(d, c)),
    ensures
        util::keeps_fixed(d, a),
{
    lemma_open_of(d, c);
    assert forall|v: int| 0 <= v < d.len() && (#[trigger] d[v]).fixed() implies a(v) == (d[v] == DomainMask::D1) by {
        assert(!open_of(d, c).contains(v));
        assert(settled(d)(v) == a(v));
    }
}

/// An involved constraint has all its open variables in the set.
pub proof fn lemma_involved_inside<W: Weight>(cn: ConstraintNetwork, weights: Seq<Vec<W>>, d: Seq<DomainMask>, c: Seq<usize>, t: int)
    requires
        0 <= t < cn.m(),
        shut_off(cn, weights, d, c),
        involved(cn, weights, d, c, t),
    ensures
        forall|j: int| 0 <= j < cn.axes(t).len() && !d[(#[trigger] cn.axes(t)[j]) as int].fixed() ==> contract::lists(c, cn.axes(t)[j] as int),
{
    let i = choose|j: int| 0 <= j < cn.axes(t).len() && !d[(#[trigger] cn.axes(t)[j]) as int].fixed() && contract::lists(c, cn.axes(t)[j] as int);
    assert(wlive(cn, weights, d)[t]);
    assert(components::members(c)(cn.axes(t)[i] as int));
    assert forall|j: int| 0 <= j < cn.axes(t).len() && !d[(#[trigger] cn.axes(t)[j]) as int].fixed() implies contract::lists(c, cn.axes(t)[j] as int) by {
        assert(components::members(c)(cn.axes(t)[j] as int));
    }
}

/// The local weight depends on the fixed variables and those of the set only.
pub proof fn lemma_local_same<W: Weight>(cn: ConstraintNetwork, weights: Seq<Vec<W>>, d: Seq<DomainMask>, c: Seq<usize>, a: Asg, b: Asg)
    requires
        cn.wf(),
        shut_off(cn, weights, d, c),
        forall|v: int| 0 <= v < cn.n() && (d[v].fixed() || contract::lists(c, v)) ==> #[trigger] a(v) == b(v),
    ensures
        local_weight(cn, weights, d, c)(a) == local_weight(cn, weights, d, c)(b),
{
    assert forall|t: int| 0 <= t < cn.m() implies local_factors(cn, weights, d, c, a)[t] == local_factors(cn, weights, d, c, b)[t] by {
        if involved(cn, weights, d, c, t) {
            lemma_involved_inside(cn, weights, d, c, t);
            assert(cn.tensor_wf(t));
            assert(contract::same_on(cn.axes(t), a, b)) by {
                assert forall|i: int| 0 <= i < cn.axes(t).len() implies a((#[trigger] cn.axes(t)[i]) as int) == b(cn.axes(t)[i] as int) by {
                    assert(cn.axes(t)[i] < cn.n());
                }
            }
            wcanonicalize::lemma_weigh_same(cn.axes(t), weighted::weighted_rows(cn, weights, t), a, b);
        }
    }
    assert(local_factors(cn, weights, d, c, a) =~= local_factors(cn, weights, d, c, b));
}

/// The open variables of `c` set to the values of `a`.
pub open spec fn refined(d: Seq<DomainMask>, c: Seq<usize>, a: Asg) -> Seq<DomainMask> {
    Seq::new(
        d.len(),
        |v: int|
            if contract::lists(c, v) && !d[v].fixed() {
                DomainMask::only(a(v))
            } else {
                d[v]
            },
    )
}

/// An entailed constraint has a row for any allowed values.
proof fn lemma_allowed_row(cn: ConstraintNetwork, d: Seq<DomainMask>, t: int, a: Asg) -> (r: int)
    requires
        cn.wf(),
        0 <= t < cn.m(),
        d.len() == cn.n(),
        util::entailed(cn, d, t),
        forall|v: int| 0 <= v < d.len() ==> d[v].allows(#[trigger] a(v)),
    ensures
        0 <= r < cn.rows(t).len(),
        ct::admits(d, cn.axes(t), cn.rows(t)[r] as u64),
        network::agrees(cn.axes(t), cn.rows(t)[r] as u64, a),
{
    assert(cn.tensor_wf(t));
    assert(util::keeps_fixed(d, a)) by {
        assert forall|v: int| 0 <= v < d.len() && (#[trigger] d[v]).fixed() implies a(v) == (d[v] == DomainMask::D1) by {
            assert(d[v].allows(a(v)));
        }
    }
    assert(cn.holds(t, a));
    let r = choose|r: int| 0 <= r < cn.rows(t).len() && network::agrees(cn.axes(t), #[trigger] cn.rows(t)[r] as u64, a);
    assert(ct::admits(d, cn.axes(t), cn.rows(t)[r] as u64)) by {
        assert forall|i: int| 0 <= i < cn.axes(t).len() implies d[(#[trigger] cn.axes(t)[i]) as int].allows(bits::bit(cn.rows(t)[r] as u64, i)) by {
            assert(cn.axes(t)[i] < cn.n());
            assert(d[cn.axes(t)[i] as int].allows(a(cn.axes(t)[i] as int)));
        }
    }
    r
}

/// An entailed constraint is arc consistent.
pub proof fn lemma_entailed_consistent(cn: ConstraintNetwork, d: Seq<DomainMask>, t: int)
    requires
        cn.wf(),
        0 <= t < cn.m(),
        d.len() == cn.n(),
        propagate::all_live(d),
        util::entailed(cn, d, t),
    ensures
        ct::consistent_at(cn, d, t),
{
    assert(cn.tensor_wf(t));
    let base = settled(d);
    assert forall|v: int| 0 <= v < d.len() implies d[v].allows(#[trigger] base(v)) by {
        assert(d[v].live());
    }
    let r0 = lemma_allowed_row(cn, d, t, base);
    assert(ct::open_at(cn, d, t));
    assert forall|j: int, b: bool| 0 <= j < cn.axes(t).len() && d[cn.axes(t)[j] as int].allows(b) implies #[trigger] ct::supported(cn, d, t, j, b) by {
        let a = sums::set(base, cn.axes(t)[j] as int, b);
        assert forall|v: int| 0 <= v < d.len() implies d[v].allows(#[trigger] a(v)) by {
            assert(d[v].allows(base(v)));
        }
        let r = lemma_allowed_row(cn, d, t, a);
        assert(bits::bit(cn.rows(t)[r] as u64, j) == a(cn.axes(t)[j] as int));
    }
}

/// Values of the set with a weight that is not zero leave arc-consistent domains.
pub proof fn lemma_refined_closed<W: Weight>(cn: ConstraintNetwork, weights: Seq<Vec<W>>, d: Seq<DomainMask>, c: Seq<usize>, a: Asg)
    requires
        cn.wf(),
        ct::closed_under(cn, d),
        shut_off(cn, weights, d, c),
        util::keeps_fixed(d, a),
        local_weight(cn, weights, d, c)(a) != 0real,
    ensures
        ct::closed_under(cn, refined(d, c, a)),
        ct::narrower(refined(d, c, a), d),
        forall|t: int| 0 <= t < cn.m() && #[trigger] involved(cn, weights, d, c, t) ==> cn.holds(t, a),
{
    let e = refined(d, c, a);
    let fs = local_factors(cn, weights, d, c, a);
    assert forall|t: int| 0 <= t < cn.m() && #[trigger] involved(cn, weights, d, c, t) implies cn.holds(t, a) by {
        if fs[t] == 0real {
            sums::lemma_product_zero(fs, t);
        }
        sliced::lemma_weight_holds(cn, weights, t, a);
    }
    assert forall|v: int| 0 <= v < cn.n() implies (#[trigger] e[v]).live() by {
        assert(d[v].live());
    }
    assert(propagate::all_live(e));
    assert forall|v: int, b: bool| 0 <= v < d.len() && (#[trigger] e[v].allows(b)) implies d[v].allows(b) by {
        assert(d[v].live());
    }
    assert forall|t: int| 0 <= t < cn.m() implies #[trigger] ct::consistent_at(cn, e, t) by {
        assert(cn.tensor_wf(t));
        assert(ct::consistent_at(cn, d, t));
        if sliced::uniform(cn, weights, d, t) {
            util::law_entailment_is_monotone(cn, d, e, t);
            lemma_entailed_consistent(cn, e, t);
        } else if touches(cn, d, c, t) {
            assert(involved(cn, weights, d, c, t));
            lemma_involved_inside(cn, weights, d, c, t);
            let k = choose|k: int| 0 <= k < cn.rows(t).len() && network::agrees(cn.axes(t), #[trigger] cn.rows(t)[k] as u64, a);
            assert forall|i: int| 0 <= i < cn.axes(t).len() implies e[(#[trigger] cn.axes(t)[i]) as int] == DomainMask::only(a(cn.axes(t)[i] as int)) by {
                let v = cn.axes(t)[i] as int;
                assert(cn.axes(t)[i] < cn.n());
                if d[v].fixed() {
                    assert(a(v) == (d[v] == DomainMask::D1));
                }
            }
            assert(ct::admits(e, cn.axes(t), cn.rows(t)[k] as u64));
            assert forall|j: int, b: bool| 0 <= j < cn.axes(t).len() && e[cn.axes(t)[j] as int].allows(b) implies #[trigger] ct::supported(cn, e, t, j, b) by {
                assert(bits::bit(cn.rows(t)[k] as u64, j) == a(cn.axes(t)[j] as int));
                assert(ct::admits(e, cn.axes(t), cn.rows(t)[k] as u64));
            }
        } else {
            assert forall|j: int| 0 <= j < cn.axes(t).len() implies d[(#[trigger] cn.axes(t)[j]) as int] == e[cn.axes(t)[j] as int] by {
                assert(cn.axes(t)[j] < cn.n());
            }
            ct::lemma_consistent_same(cn, d, e, t);
        }
    }
}

/// The open variables of a concatenation.
proof fn lemma_open_concat(d: Seq<DomainMask>, u: Seq<usize>, c: Seq<usize>, n: int)
    requires
        0 <= n <= c.len(),
    ensures
        util::open_vars(u + c, d, u.len() + n) == open_of(d, u) + util::open_vars(c, d, n),
    decreases n,
{
    if n == 0 {
        lemma_open_prefix(d, u, c, u.len() as int);
        assert(open_of(d, u) + util::open_vars(c, d, 0) =~= open_of(d, u));
    } else {
        lemma_open_concat(d, u, c, n - 1);
        assert((u + c)[u.len() + n - 1] == c[n - 1]);
        assert(open_of(d, u) + util::open_vars(c, d, n) =~= util::open_vars(u + c, d, u.len() + n));
    }
}

proof fn lemma_open_prefix(d: Seq<DomainMask>, u: Seq<usize>, c: Seq<usize>, n: int)
    requires
        0 <= n <= u.len(),
    ensures
        util::open_vars(u + c, d, n) == util::open_vars(u, d, n),
    decreases n,
{
    if n > 0 {
        lemma_open_prefix(d, u, c, n - 1);
        assert((u + c)[n - 1] == u[n - 1]);
    }
}

/// Both lists are within the concatenation, and nothing else is.
pub proof fn lemma_lists_concat(u: Seq<usize>, c: Seq<usize>, v: int)
    ensures
        contract::lists(u + c, v) <==> (contract::lists(u, v) || contract::lists(c, v)),
{
    let w = u + c;
    if contract::lists(u, v) {
        let i = choose|i: int| 0 <= i < u.len() && (#[trigger] u[i]) as int == v;
        assert(w[i] as int == v);
    }
    if contract::lists(c, v) {
        let i = choose|i: int| 0 <= i < c.len() && (#[trigger] c[i]) as int == v;
        assert(w[u.len() + i] as int == v);
    }
    if contract::lists(w, v) {
        let i = choose|i: int| 0 <= i < w.len() && (#[trigger] w[i]) as int == v;
        if i < u.len() {
            assert(u[i] as int == v);
        } else {
            assert(c[i - u.len()] as int == v);
        }
    }
}

/// Sets without a common variable multiply.
pub proof fn lemma_local_product<W: Weight>(cn: ConstraintNetwork, weights: Seq<Vec<W>>, d: Seq<DomainMask>, u: Seq<usize>, c: Seq<usize>)
    requires
        cn.wf(),
        d.len() == cn.n(),
        shut_off(cn, weights, d, u),
        shut_off(cn, weights, d, c),
        forall|v: int| contract::lists(u, v) ==> !#[trigger] contract::lists(c, v),
    ensures
        shut_off(cn, weights, d, u + c),
        local_total(cn, weights, d, u + c) == local_total(cn, weights, d, u) * local_total(cn, weights, d, c),
{
    let w = u + c;
    let f = local_weight(cn, weights, d, u);
    let g = local_weight(cn, weights, d, c);
    let h = local_weight(cn, weights, d, w);
    assert forall|v: int| #[trigger] contract::lists(w, v) <==> (contract::lists(u, v) || contract::lists(c, v)) by {
        lemma_lists_concat(u, c, v);
    }
    assert(shut_off(cn, weights, d, w)) by {
        assert forall|i: int, j: int| 0 <= i < j < w.len() implies w[i] != w[j] by {
            if i < u.len() && j >= u.len() {
                assert(u[i] == w[i] && c[j - u.len()] == w[j]);
                assert(contract::lists(u, w[i] as int));
                assert(contract::lists(c, w[j] as int));
            }
        }
        assert forall|i: int| 0 <= i < w.len() implies (#[trigger] w[i]) < cn.n() by {
            if i < u.len() {
                assert(w[i] == u[i]);
            } else {
                assert(w[i] == c[i - u.len()]);
            }
        }
        let live = wlive(cn, weights, d);
        assert forall|t: int, i: int, j: int|
            0 <= t < cn.m() && live[t] && 0 <= i < cn.axes(t).len() && 0 <= j < cn.axes(t).len() && !d[(#[trigger] cn.axes(t)[i]) as int].fixed() && !d[(
            #[trigger] cn.axes(t)[j]) as int].fixed() && components::members(w)(cn.axes(t)[i] as int) implies components::members(w)(cn.axes(t)[j] as int) by {
            if contract::lists(u, cn.axes(t)[i] as int) {
                assert(components::members(u)(cn.axes(t)[i] as int));
                assert(components::members(u)(cn.axes(t)[j] as int));
            } else {
                assert(components::members(c)(cn.axes(t)[i] as int));
                assert(components::members(c)(cn.axes(t)[j] as int));
            }
        }
    }
    lemma_open_concat(d, u, c, c.len() as int);
    assert(open_of(d, w) == open_of(d, u) + open_of(d, c));
    lemma_open_of(d, u);
    lemma_open_of(d, c);
    assert forall|t: int| 0 <= t < cn.m() implies #[trigger] involved(cn, weights, d, w, t) == (involved(cn, weights, d, u, t) || involved(cn, weights, d, c, t)) && !(involved(cn, weights, d, u, t) && involved(cn, weights, d, c, t)) by {
        lemma_touches_concat(cn, d, u, c, t);
        if involved(cn, weights, d, u, t) && involved(cn, weights, d, c, t) {
            lemma_involved_inside(cn, weights, d, u, t);
            let j = choose|j: int| 0 <= j < cn.axes(t).len() && !d[(#[trigger] cn.axes(t)[j]) as int].fixed() && contract::lists(c, cn.axes(t)[j] as int);
            assert(contract::lists(u, cn.axes(t)[j] as int));
        }
    }
    assert forall|a: Asg| #[trigger] h(a) == f(a) * g(a) by {
        let s = local_factors(cn, weights, d, w, a);
        let x = local_factors(cn, weights, d, u, a);
        let y = local_factors(cn, weights, d, c, a);
        assert forall|t: int| 0 <= t < s.len() implies #[trigger] s[t] == x[t] * y[t] by {
            assert(involved(cn, weights, d, w, t) == (involved(cn, weights, d, u, t) || involved(cn, weights, d, c, t)));
        }
        sums::lemma_product_pairs(s, x, y);
    }
    assert(sums::ignores(f, open_of(d, c))) by {
        assert forall|a: Asg, b: Asg| #![trigger f(a), f(b)] sums::same_outside(a, b, open_of(d, c)) implies f(a) == f(b) by {
            lemma_local_same(cn, weights, d, u, a, b);
        }
    }
    assert(sums::ignores(g, open_of(d, u))) by {
        assert forall|a: Asg, b: Asg| #![trigger g(a), g(b)] sums::same_outside(a, b, open_of(d, u)) implies g(a) == g(b) by {
            lemma_local_same(cn, weights, d, c, a, b);
        }
    }
    sums::lemma_total_product(f, g, settled(d), open_of(d, u), open_of(d, c));
    sums::lemma_total_same(h, |b: Asg| f(b) * g(b), settled(d), open_of(d, w));
}

proof fn lemma_touches_concat(cn: ConstraintNetwork, d: Seq<DomainMask>, u: Seq<usize>, c: Seq<usize>, t: int)
    ensures
        touches(cn, d, u + c, t) <==> (touches(cn, d, u, t) || touches(cn, d, c, t)),
{
    assert forall|v: int| #[trigger] contract::lists(u + c, v) <==> (contract::lists(u, v) || contract::lists(c, v)) by {
        lemma_lists_concat(u, c, v);
    }
    if touches(cn, d, u, t) {
        let j = choose|j: int| 0 <= j < cn.axes(t).len() && !d[(#[trigger] cn.axes(t)[j]) as int].fixed() && contract::lists(u, cn.axes(t)[j] as int);
        assert(contract::lists(u + c, cn.axes(t)[j] as int));
    }
    if touches(cn, d, c, t) {
        let j = choose|j: int| 0 <= j < cn.axes(t).len() && !d[(#[trigger] cn.axes(t)[j]) as int].fixed() && contract::lists(c, cn.axes(t)[j] as int);
        assert(contract::lists(u + c, cn.axes(t)[j] as int));
    }
    if touches(cn, d, u + c, t) {
        let j = choose|j: int| 0 <= j < cn.axes(t).len() && !d[(#[trigger] cn.axes(t)[j]) as int].fixed() && contract::lists(u + c, cn.axes(t)[j] as int);
        assert(contract::lists(u, cn.axes(t)[j] as int) || contract::lists(c, cn.axes(t)[j] as int));
    }
}

/// The order of a set, and what is fixed in it, do not matter.
pub proof fn lemma_local_reorder<W: Weight>(cn: ConstraintNetwork, weights: Seq<Vec<W>>, d: Seq<DomainMask>, u: Seq<usize>, c: Seq<usize>)
    requires
        network::distinct(u),
        network::distinct(c),
        forall|v: int| !d[v].fixed() ==> (#[trigger] contract::lists(u, v) <==> contract::lists(c, v)),
    ensures
        local_total(cn, weights, d, u) == local_total(cn, weights, d, c),
{
    lemma_open_of(d, u);
    lemma_open_of(d, c);
    let f = local_weight(cn, weights, d, u);
    let g = local_weight(cn, weights, d, c);
    assert forall|t: int| involved(cn, weights, d, u, t) == #[trigger] involved(cn, weights, d, c, t) by {
        if touches(cn, d, u, t) {
            let j = choose|j: int| 0 <= j < cn.axes(t).len() && !d[(#[trigger] cn.axes(t)[j]) as int].fixed() && contract::lists(u, cn.axes(t)[j] as int);
            assert(contract::lists(c, cn.axes(t)[j] as int));
        }
        if touches(cn, d, c, t) {
            let j = choose|j: int| 0 <= j < cn.axes(t).len() && !d[(#[trigger] cn.axes(t)[j]) as int].fixed() && contract::lists(c, cn.axes(t)[j] as int);
            assert(contract::lists(u, cn.axes(t)[j] as int));
        }
    }
    assert forall|a: Asg| #[trigger] f(a) == g(a) by {
        assert(local_factors(cn, weights, d, u, a) =~= local_factors(cn, weights, d, c, a));
    }
    sums::lemma_total_same(f, g, settled(d), open_of(d, u));
    assert forall|v: int| open_of(d, u).contains(v) <==> open_of(d, c).contains(v) by {
        assert(open_of(d, u).contains(v) <==> (contract::lists(u, v) && !d[v].fixed()));
    }
    sums::lemma_total_reorder(g, settled(d), open_of(d, u), open_of(d, c));
}

/// Without involved constraints, the sum counts the values of the open variables.
pub proof fn lemma_local_free<W: Weight>(cn: ConstraintNetwork, weights: Seq<Vec<W>>, d: Seq<DomainMask>, c: Seq<usize>)
    requires
        forall|t: int| 0 <= t < cn.m() ==> !#[trigger] involved(cn, weights, d, c, t),
    ensures
        local_total(cn, weights, d, c) == util::pow2r(open_of(d, c).len()),
{
    let f = local_weight(cn, weights, d, c);
    assert forall|a: Asg| #[trigger] f(a) == 1real by {
        let fs = local_factors(cn, weights, d, c, a);
        lemma_ones(fs);
    }
    util::lemma_total_ones(f, settled(d), open_of(d, c));
}

pub proof fn lemma_ones(s: Seq<real>)
    requires
        forall|i: int| 0 <= i < s.len() ==> #[trigger] s[i] == 1real,
    ensures
        sums::product(s) == 1real,
    decreases s.len(),
{
    if s.len() > 0 {
        assert forall|i: int| 0 <= i < s.drop_last().len() implies #[trigger] s.drop_last()[i] == 1real by {
            assert(s[i] == 1real);
        }
        lemma_ones(s.drop_last());
        assert(s.last() == 1real);
    }
}

/// The values of the variables of the first `n` of `c` that `q` fixes.
pub open spec fn pinned_base(d: Seq<DomainMask>, q: Seq<DomainMask>, c: Seq<usize>, n: int, a: Asg) -> Asg {
    |v: int|
        if contract::lists(c.take(n), v) && !d[v].fixed() && q[v].fixed() {
            q[v] == DomainMask::D1
        } else {
            a(v)
        }
}

/// Variables on which all other values weigh nothing drop out of a sum.
pub proof fn lemma_pins(f: spec_fn(Asg) -> real, d: Seq<DomainMask>, q: Seq<DomainMask>, c: Seq<usize>, n: int, a: Asg)
    requires
        network::distinct(c),
        0 <= n <= c.len(),
        forall|i: int| 0 <= i < c.len() && d[(#[trigger] c[i]) as int].fixed() ==> q[c[i] as int] == d[c[i] as int],
        forall|b: Asg, v: int| contract::lists(c, v) && !d[v].fixed() && q[v].fixed() && #[trigger] b(v) != (q[v] == DomainMask::D1) ==> #[trigger] f(b) == 0real,
    ensures
        sums::total(f, a, util::open_vars(c, d, n)) == sums::total(f, pinned_base(d, q, c, n, a), util::open_vars(c, q, n)),
    decreases n,
{
    if n == 0 {
        assert(pinned_base(d, q, c, 0, a) =~= a);
    } else {
        let v = c[n - 1] as int;
        let rest = util::open_vars(c, d, n - 1);
        assert(contract::lists(c, v));
        lemma_lists_take(c, n);
        if d[v].fixed() {
            lemma_pins(f, d, q, c, n - 1, a);
            assert(pinned_base(d, q, c, n, a) =~= pinned_base(d, q, c, n - 1, a));
        } else {
            assert(util::open_vars(c, d, n).drop_last() =~= rest);
            let s0 = sums::set(a, v, false);
            let s1 = sums::set(a, v, true);
            lemma_pins(f, d, q, c, n - 1, s0);
            lemma_pins(f, d, q, c, n - 1, s1);
            let p0 = pinned_base(d, q, c, n - 1, s0);
            let p1 = pinned_base(d, q, c, n - 1, s1);
            let left = util::open_vars(c, q, n - 1);
            util::lemma_open_vars(c, q, n - 1);
            assert(!contract::lists(c.take(n - 1), v));
            if q[v].fixed() {
                let good = q[v] == DomainMask::D1;
                let bad = if good {
                    p0
                } else {
                    p1
                };
                assert(bad(v) == !good);
                assert forall|b: Asg| sums::same_outside(bad, b, left) implies #[trigger] f(b) == 0real by {
                    assert(!left.contains(v));
                    assert(bad(v) == b(v));
                }
                sums::lemma_total_zero(f, bad, left);
                assert(pinned_base(d, q, c, n, a) =~= (if good {
                    p1
                } else {
                    p0
                }));
            } else {
                let p = pinned_base(d, q, c, n, a);
                assert(util::open_vars(c, q, n).drop_last() =~= left);
                assert(sums::set(p, v, false) =~= p0);
                assert(sums::set(p, v, true) =~= p1);
            }
        }
    }
}

proof fn lemma_lists_take(c: Seq<usize>, n: int)
    requires
        0 < n <= c.len(),
        network::distinct(c),
    ensures
        forall|v: int| #[trigger] contract::lists(c.take(n), v) <==> (contract::lists(c.take(n - 1), v) || v == c[n - 1]),
        !contract::lists(c.take(n - 1), c[n - 1] as int),
{
    assert(c.take(n) =~= c.take(n - 1) + seq![c[n - 1]]);
    assert forall|v: int| #[trigger] contract::lists(c.take(n), v) <==> (contract::lists(c.take(n - 1), v) || v == c[n - 1]) by {
        lemma_lists_concat(c.take(n - 1), seq![c[n - 1]], v);
        if v == c[n - 1] {
            assert(seq![c[n - 1]][0] as int == v);
        }
    }
    if contract::lists(c.take(n - 1), c[n - 1] as int) {
        let i = choose|i: int| 0 <= i < c.take(n - 1).len() && (#[trigger] c.take(n - 1)[i]) as int == c[n - 1] as int;
        assert(c[i] == c[n - 1]);
    }
}

/// The weights of the constraints of `c` that became uniform.
pub open spec fn resolved_factors<W: Weight>(cn: ConstraintNetwork, weights: Seq<Vec<W>>, d: Seq<DomainMask>, q: Seq<DomainMask>, c: Seq<usize>) -> Seq<real> {
    Seq::new(
        cn.m() as nat,
        |t: int|
            if involved(cn, weights, d, c, t) && sliced::uniform(cn, weights, q, t) {
                weighted::tensor_weight(cn, weights, t, settled(q))
            } else {
                1real
            },
    )
}

/// The local weight of the assignments that `keep` picks.
pub open spec fn picked<W: Weight>(cn: ConstraintNetwork, weights: Seq<Vec<W>>, d: Seq<DomainMask>, c: Seq<usize>, keep: spec_fn(Asg) -> bool) -> spec_fn(Asg) -> real {
    |a: Asg|
        if keep(a) {
            local_weight(cn, weights, d, c)(a)
        } else {
            0real
        }
}

/// A constraint of `c` is involved later where it was before and did not become uniform.
proof fn lemma_involved_later<W: Weight>(cn: ConstraintNetwork, weights: Seq<Vec<W>>, d: Seq<DomainMask>, q: Seq<DomainMask>, c: Seq<usize>, t: int)
    requires
        cn.wf(),
        0 <= t < cn.m(),
        d.len() == cn.n(),
        ct::closed_under(cn, q),
        shut_off(cn, weights, d, c),
        forall|v: int| 0 <= v < d.len() && (#[trigger] d[v]).fixed() ==> q[v] == d[v],
    ensures
        involved(cn, weights, q, c, t) <==> (involved(cn, weights, d, c, t) && !sliced::uniform(cn, weights, q, t)),
{
    assert(cn.tensor_wf(t));
    if involved(cn, weights, q, c, t) {
        if sliced::uniform(cn, weights, d, t) {
            sliced::lemma_uniform_later(cn, weights, d, q, t);
        }
        let j = choose|j: int| 0 <= j < cn.axes(t).len() && !q[(#[trigger] cn.axes(t)[j]) as int].fixed() && contract::lists(c, cn.axes(t)[j] as int);
        assert(cn.axes(t)[j] < cn.n());
        assert(!d[cn.axes(t)[j] as int].fixed());
    }
    if involved(cn, weights, d, c, t) && !sliced::uniform(cn, weights, q, t) {
        if !util::has_open(cn, q, t) {
            sliced::lemma_decided_uniform(cn, weights, q, t);
        }
        let j = choose|j: int| 0 <= j < cn.axes(t).len() && !q[(#[trigger] cn.axes(t)[j]) as int].fixed();
        assert(cn.axes(t)[j] < cn.n());
        assert(!d[cn.axes(t)[j] as int].fixed());
        lemma_involved_inside(cn, weights, d, c, t);
        assert(contract::lists(c, cn.axes(t)[j] as int));
    }
}

/// A set that is shut off stays so.
pub proof fn lemma_shut_later<W: Weight>(cn: ConstraintNetwork, weights: Seq<Vec<W>>, d: Seq<DomainMask>, q: Seq<DomainMask>, c: Seq<usize>)
    requires
        cn.wf(),
        d.len() == cn.n(),
        q.len() == cn.n(),
        shut_off(cn, weights, d, c),
        forall|v: int| 0 <= v < d.len() && (#[trigger] d[v]).fixed() ==> q[v] == d[v],
    ensures
        shut_off(cn, weights, q, c),
{
    let live = wlive(cn, weights, d);
    let later = wlive(cn, weights, q);
    assert forall|t: int| 0 <= t < cn.m() && #[trigger] later[t] implies live[t] by {
        if !live[t] {
            sliced::lemma_uniform_later(cn, weights, d, q, t);
        }
    }
    assert forall|v: int| 0 <= v < cn.n() && !(#[trigger] q[v]).fixed() implies !d[v].fixed() by {}
    components::lemma_sealed_later(cn, d, live, q, later, components::members(c));
}

/// What a branch contributes: the resolved constraints times the sum over what is left open.
///
/// `keep` picks assignments; those with a weight lie within `q`, and it picks all that have the
/// values of `q` on `c`.
pub proof fn lemma_branch_total<W: Weight>(cn: ConstraintNetwork, weights: Seq<Vec<W>>, d: Seq<DomainMask>, q: Seq<DomainMask>, c: Seq<usize>, keep: spec_fn(Asg) -> bool)
    requires
        cn.wf(),
        ct::closed_under(cn, d),
        ct::closed_under(cn, q),
        shut_off(cn, weights, d, c),
        forall|v: int| 0 <= v < d.len() && (#[trigger] d[v]).fixed() ==> q[v] == d[v],
        forall|a: Asg| sums::same_outside(settled(d), a, open_of(d, c)) && #[trigger] picked(cn, weights, d, c, keep)(a) != 0real ==> ct::narrower(refined(d, c, a), q),
        forall|a: Asg| (forall|v: int| contract::lists(c, v) && !d[v].fixed() && q[v].fixed() ==> #[trigger] a(v) == (q[v] == DomainMask::D1)) ==> #[trigger] keep(a),
    ensures
        sums::total(picked(cn, weights, d, c, keep), settled(d), open_of(d, c)) == sums::product(resolved_factors(cn, weights, d, q, c)) * local_total(cn, weights, q, c),
{
    let f = local_weight(cn, weights, d, c);
    let p = picked(cn, weights, d, c, keep);
    let base = settled(d);
    let open = open_of(d, c);
    let left = open_of(q, c);
    lemma_open_of(d, c);
    lemma_open_of(q, c);
    // Guarded so that it is zero away from the values that are summed.
    let g = |a: Asg|
        if sums::same_outside(base, a, open) {
            p(a)
        } else {
            0real
        };
    sums::lemma_total_same(p, g, base, open);
    lemma_guarded_pins(cn, weights, d, q, c, keep);
    let b1 = pinned_base(d, q, c, c.len() as int, base);
    assert(sums::total(g, base, open) == sums::total(g, b1, left));
    assert(c.take(c.len() as int) =~= c);
    assert forall|a: Asg| sums::same_outside(b1, a, left) implies #[trigger] g(a) == f(a) by {
        assert(sums::same_outside(base, a, open)) by {
            assert forall|v: int| !open.contains(v) implies base(v) == a(v) by {
                assert(!left.contains(v)) by {
                    if left.contains(v) {
                        lemma_listed_below(c, cn.n(), v);
                    }
                }
                assert(b1(v) == a(v));
                assert(b1(v) == base(v));
            }
        }
        assert forall|v: int| contract::lists(c, v) && !d[v].fixed() && q[v].fixed() implies #[trigger] a(v) == (q[v] == DomainMask::D1) by {
            assert(!left.contains(v));
            assert(b1(v) == a(v));
        }
        assert(keep(a));
    }
    sums::lemma_total_same(g, f, b1, left);
    let idle_p = |v: int| !d[v].fixed() && !contract::lists(c, v);
    let idle = sums::chosen_ids(idle_p, cn.n());
    sums::lemma_chosen_ids(idle_p, cn.n());
    assert(sums::ignores(f, idle)) by {
        assert forall|a: Asg, b: Asg| #![trigger f(a), f(b)] sums::same_outside(a, b, idle) implies f(a) == f(b) by {
            lemma_local_same(cn, weights, d, c, a, b);
        }
    }
    let b2 = settled(q);
    assert forall|v: int| !left.contains(v) && !idle.contains(v) implies #[trigger] b1(v) == b2(v) by {
        if 0 <= v < cn.n() {
            if d[v].fixed() {
                assert(q[v] == d[v]);
            } else {
                assert(contract::lists(c, v)) by {
                    assert(!idle_p(v));
                }
                assert(q[v].fixed());
            }
        } else {
            if contract::lists(c, v) {
                lemma_listed_below(c, cn.n(), v);
            }
        }
    }
    sums::lemma_total_base(f, b1, b2, left, idle);
    let delta = sums::product(resolved_factors(cn, weights, d, q, c));
    let h = local_weight(cn, weights, q, c);
    assert forall|a: Asg| sums::same_outside(b2, a, left) implies #[trigger] f(a) == delta * h(a) by {
        lemma_keeps(q, c, a);
        let s = local_factors(cn, weights, d, c, a);
        let x = resolved_factors(cn, weights, d, q, c);
        let y = local_factors(cn, weights, q, c, a);
        assert forall|t: int| 0 <= t < s.len() implies #[trigger] s[t] == x[t] * y[t] by {
            lemma_involved_later(cn, weights, d, q, c, t);
            if involved(cn, weights, d, c, t) && sliced::uniform(cn, weights, q, t) {
                lemma_uniform_any(cn, weights, q, t, a, b2);
            }
        }
        sums::lemma_product_pairs(s, x, y);
    }
    sums::lemma_total_same(f, |a: Asg| delta * h(a), b2, left);
    sums::lemma_total_scale(delta, h, b2, left);
}

proof fn lemma_listed_below(c: Seq<usize>, n: int, v: int)
    requires
        forall|i: int| 0 <= i < c.len() ==> (#[trigger] c[i]) < n,
        contract::lists(c, v),
    ensures
        0 <= v < n,
{
    let i = choose|i: int| 0 <= i < c.len() && (#[trigger] c[i]) as int == v;
    assert(c[i] < n);
}

/// A uniform constraint gives the same weight to any two assignments with the fixed values.
pub proof fn lemma_uniform_any<W: Weight>(cn: ConstraintNetwork, weights: Seq<Vec<W>>, d: Seq<DomainMask>, t: int, a: Asg, b: Asg)
    requires
        cn.wf(),
        0 <= t < cn.m(),
        d.len() == cn.n(),
        sliced::uniform(cn, weights, d, t),
        util::keeps_fixed(d, a),
        util::keeps_fixed(d, b),
    ensures
        weighted::tensor_weight(cn, weights, t, a) == weighted::tensor_weight(cn, weights, t, b),
{
    assert(cn.tensor_wf(t));
    assert(cn.holds(t, a));
    let k = choose|k: int| 0 <= k < cn.rows(t).len() && network::agrees(cn.axes(t), #[trigger] cn.rows(t)[k] as u64, a);
    sliced::lemma_agreeing_passes(cn, d, t, k, a);
    sliced::lemma_uniform_weight(cn, weights, d, t, k, a);
    sliced::lemma_uniform_weight(cn, weights, d, t, k, b);
}

proof fn lemma_guarded_pins<W: Weight>(cn: ConstraintNetwork, weights: Seq<Vec<W>>, d: Seq<DomainMask>, q: Seq<DomainMask>, c: Seq<usize>, keep: spec_fn(Asg) -> bool)
    requires
        cn.wf(),
        ct::closed_under(cn, d),
        ct::closed_under(cn, q),
        shut_off(cn, weights, d, c),
        forall|v: int| 0 <= v < d.len() && (#[trigger] d[v]).fixed() ==> q[v] == d[v],
        forall|a: Asg| sums::same_outside(settled(d), a, open_of(d, c)) && #[trigger] picked(cn, weights, d, c, keep)(a) != 0real ==> ct::narrower(refined(d, c, a), q),
    ensures
        ({
            let g = |a: Asg|
                if sums::same_outside(settled(d), a, open_of(d, c)) {
                    picked(cn, weights, d, c, keep)(a)
                } else {
                    0real
                };
            sums::total(g, settled(d), open_of(d, c)) == sums::total(g, pinned_base(d, q, c, c.len() as int, settled(d)), open_of(q, c))
        }),
{
    let g = |a: Asg|
        if sums::same_outside(settled(d), a, open_of(d, c)) {
            picked(cn, weights, d, c, keep)(a)
        } else {
            0real
        };
    assert forall|b: Asg, v: int| contract::lists(c, v) && !d[v].fixed() && q[v].fixed() && #[trigger] b(v) != (q[v] == DomainMask::D1) implies #[trigger] g(b) == 0real by {
        lemma_listed_below(c, cn.n(), v);
        if g(b) != 0real {
            let e = refined(d, c, b);
            assert(ct::narrower(e, q));
            assert(e[v] == DomainMask::only(b(v)));
            assert(e[v].allows(b(v)));
            assert(q[v].allows(b(v)));
        }
    }
    assert forall|i: int| 0 <= i < c.len() && d[(#[trigger] c[i]) as int].fixed() implies q[c[i] as int] == d[c[i] as int] by {
        assert(c[i] < cn.n());
    }
    lemma_pins(g, d, q, c, c.len() as int, settled(d));
}

} // verus!
