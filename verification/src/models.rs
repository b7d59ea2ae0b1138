//! What domains say of the models of a network.
use vstd::prelude::*;

use crate::bits;
use crate::canonicalize;
use crate::ct;
use crate::domain::{Asg, DomainMask};
use crate::network;
use crate::network::ConstraintNetwork;

verus! {

/// Every value of `a` is allowed.
pub open spec fn consistent(d: Seq<DomainMask>, a: Asg) -> bool {
    forall|v: int| 0 <= v < d.len() ==> d[v].allows(#[trigger] a(v))
}

/// Some model has only allowed values.
pub open spec fn satisfiable(cn: ConstraintNetwork, d: Seq<DomainMask>) -> bool {
    exists|a: Asg| #[trigger] cn.model(a) && consistent(d, a)
}

/// Every model within `d0` is within `d`.
pub open spec fn keeps_models(cn: ConstraintNetwork, d0: Seq<DomainMask>, d: Seq<DomainMask>) -> bool {
    forall|a: Asg| #[trigger] cn.model(a) && consistent(d0, a) ==> consistent(d, a)
}

/// The domains that allow the values of `a` only.
pub open spec fn singletons(n: int, a: Asg) -> Seq<DomainMask> {
    Seq::new(n as nat, |v: int| DomainMask::only(a(v)))
}

/// Every domain has one value.
pub open spec fn all_fixed(d: Seq<DomainMask>) -> bool {
    forall|v: int| 0 <= v < d.len() ==> (#[trigger] d[v]).fixed()
}

/// The domains of a model are arc consistent.
pub proof fn lemma_model_closed(cn: ConstraintNetwork, a: Asg)
    requires
        cn.wf(),
        cn.model(a),
    ensures
        ct::closed_under(cn, singletons(cn.n(), a)),
{
    let e = singletons(cn.n(), a);
    assert forall|t: int| 0 <= t < cn.m() implies #[trigger] ct::consistent_at(cn, e, t) by {
        assert(cn.tensor_wf(t));
        assert(cn.holds(t, a));
        let k = choose|k: int| 0 <= k < cn.rows(t).len() && network::agrees(cn.axes(t), #[trigger] cn.rows(t)[k] as u64, a);
        let row = cn.rows(t)[k] as u64;
        assert(ct::admits(e, cn.axes(t), row)) by {
            assert forall|i: int| 0 <= i < cn.axes(t).len() implies e[(#[trigger] cn.axes(t)[i]) as int].allows(bits::bit(row, i)) by {
                assert(cn.axes(t)[i] < cn.n());
            }
        }
        assert forall|j: int, b: bool| 0 <= j < cn.axes(t).len() && e[cn.axes(t)[j] as int].allows(b) implies #[trigger] ct::supported(cn, e, t, j, b) by {
            assert(cn.axes(t)[j] < cn.n());
            assert(bits::bit(row, j) == a(cn.axes(t)[j] as int));
            assert(ct::admits(e, cn.axes(t), cn.rows(t)[k] as u64));
        }
    }
}

/// An assignment has only allowed values exactly when its domains are within the given ones.
pub proof fn lemma_consistent_narrower(n: int, d: Seq<DomainMask>, a: Asg)
    requires
        d.len() == n,
    ensures
        consistent(d, a) <==> ct::narrower(singletons(n, a), d),
{
    let e = singletons(n, a);
    if consistent(d, a) {
        assert forall|v: int, b: bool| 0 <= v < d.len() && (#[trigger] e[v].allows(b)) implies d[v].allows(b) by {
            assert(d[v].allows(a(v)));
        }
    }
    if ct::narrower(e, d) {
        assert forall|v: int| 0 <= v < d.len() implies d[v].allows(#[trigger] a(v)) by {
            assert(e[v].allows(a(v)));
        }
    }
}

/// Keeping the arc-consistent domains keeps the models.
pub proof fn lemma_keeps_models(cn: ConstraintNetwork, d0: Seq<DomainMask>, d: Seq<DomainMask>)
    requires
        cn.wf(),
        d0.len() == cn.n(),
        d.len() == cn.n(),
        ct::keeps_closed(cn, d0, d),
    ensures
        keeps_models(cn, d0, d),
{
    assert forall|a: Asg| #[trigger] cn.model(a) && consistent(d0, a) implies consistent(d, a) by {
        lemma_model_closed(cn, a);
        lemma_consistent_narrower(cn.n(), d0, a);
        lemma_consistent_narrower(cn.n(), d, a);
    }
}

/// Refuted domains hold no model.
pub proof fn lemma_refuted_unsat(cn: ConstraintNetwork, d: Seq<DomainMask>)
    requires
        cn.wf(),
        d.len() == cn.n(),
        ct::refuted(cn, d),
    ensures
        !satisfiable(cn, d),
{
    if satisfiable(cn, d) {
        let a = choose|a: Asg| #[trigger] cn.model(a) && consistent(d, a);
        lemma_model_closed(cn, a);
        lemma_consistent_narrower(cn.n(), d, a);
    }
}

pub proof fn lemma_consistent_wider(e: Seq<DomainMask>, d: Seq<DomainMask>, a: Asg)
    requires
        ct::narrower(e, d),
        consistent(e, a),
    ensures
        consistent(d, a),
{
    assert forall|v: int| 0 <= v < d.len() implies d[v].allows(#[trigger] a(v)) by {
        assert(e[v].allows(a(v)));
    }
}

/// Arc-consistent domains that are all fixed are a model.
pub proof fn lemma_fixed_closed_is_model(cn: ConstraintNetwork, d: Seq<DomainMask>)
    requires
        cn.wf(),
        ct::closed_under(cn, d),
        all_fixed(d),
    ensures
        cn.model(canonicalize::decided(d)),
        consistent(d, canonicalize::decided(d)),
{
    let a = canonicalize::decided(d);
    assert forall|t: int| 0 <= t < cn.m() implies #[trigger] cn.holds(t, a) by {
        assert(ct::consistent_at(cn, d, t));
        assert(cn.tensor_wf(t));
        let r = choose|r: int| 0 <= r < cn.rows(t).len() && ct::admits(d, cn.axes(t), #[trigger] cn.rows(t)[r] as u64);
        assert(network::agrees(cn.axes(t), cn.rows(t)[r] as u64, a)) by {
            assert forall|i: int| 0 <= i < cn.axes(t).len() implies bits::bit(cn.rows(t)[r] as u64, i) == a(#[trigger] cn.axes(t)[i] as int) by {
                assert(cn.axes(t)[i] < cn.n());
                assert(d[cn.axes(t)[i] as int].allows(bits::bit(cn.rows(t)[r] as u64, i)));
                assert(d[cn.axes(t)[i] as int].fixed());
            }
        }
    }
    assert forall|v: int| 0 <= v < d.len() implies d[v].allows(#[trigger] a(v)) by {
        assert(d[v].fixed());
    }
}

/// Every value of `h` on `scope` is allowed.
pub open spec fn allows_on(d: Seq<DomainMask>, scope: Seq<usize>, h: Asg) -> bool {
    forall|i: int| 0 <= i < scope.len() ==> d[(#[trigger] scope[i]) as int].allows(h(scope[i] as int))
}

/// Some model within `y` has the values of `h` wherever `y` allows them.
pub open spec fn carried(cn: ConstraintNetwork, y: Seq<DomainMask>, h: Asg) -> bool {
    exists|g: Asg| #[trigger] cn.model(g) && consistent(y, g) && keeps_where(y, h, g)
}

/// `g` has the values of `h` wherever `y` allows them.
pub open spec fn keeps_where(y: Seq<DomainMask>, h: Asg, g: Asg) -> bool {
    forall|v: int| 0 <= v < y.len() && y[v].allows(#[trigger] h(v)) ==> g(v) == h(v)
}

/// Going from `x` to `y` loses no answer: a model within `x` that `y` allows on `scope` becomes
/// a model within `y` by changing only values that `y` forbids.
pub open spec fn carries(cn: ConstraintNetwork, x: Seq<DomainMask>, y: Seq<DomainMask>, scope: Seq<usize>) -> bool {
    forall|h: Asg| #[trigger] cn.model(h) && consistent(x, h) && allows_on(y, scope, h) ==> carried(cn, y, h)
}

/// Every id of `a` is in `b`.
pub open spec fn ids_within(a: Seq<usize>, b: Seq<usize>) -> bool {
    forall|i: int| 0 <= i < a.len() ==> b.contains(#[trigger] a[i])
}

pub proof fn lemma_carries_trans(cn: ConstraintNetwork, x: Seq<DomainMask>, y: Seq<DomainMask>, z: Seq<DomainMask>, c1: Seq<usize>, c2: Seq<usize>, c: Seq<usize>)
    requires
        x.len() == y.len() == z.len(),
        ct::narrower(z, y),
        carries(cn, x, y, c1),
        carries(cn, y, z, c2),
        ids_within(c1, c),
        ids_within(c2, c),
        forall|i: int| 0 <= i < c.len() ==> (#[trigger] c[i]) < x.len(),
    ensures
        carries(cn, x, z, c),
{
    assert forall|h: Asg| #[trigger] cn.model(h) && consistent(x, h) && allows_on(z, c, h) implies carried(cn, z, h) by {
        assert(allows_on(y, c1, h)) by {
            assert forall|i: int| 0 <= i < c1.len() implies y[(#[trigger] c1[i]) as int].allows(h(c1[i] as int)) by {
                let k = c.index_of(c1[i]);
                assert(c[k] < x.len());
                assert(z[c[k] as int].allows(h(c[k] as int)));
            }
        }
        assert(carried(cn, y, h));
        let g = choose|g: Asg| #[trigger] cn.model(g) && consistent(y, g) && keeps_where(y, h, g);
        assert(allows_on(z, c2, g)) by {
            assert forall|i: int| 0 <= i < c2.len() implies z[(#[trigger] c2[i]) as int].allows(g(c2[i] as int)) by {
                let k = c.index_of(c2[i]);
                let v = c[k] as int;
                assert(c[k] < x.len());
                assert(z[c[k] as int].allows(h(v)));
                assert(y[v].allows(h(v)));
                assert(g(v) == h(v));
            }
        }
        assert(carried(cn, z, g));
        let f = choose|f: Asg| #[trigger] cn.model(f) && consistent(z, f) && keeps_where(z, g, f);
        assert(keeps_where(z, h, f)) by {
            assert forall|v: int| 0 <= v < z.len() && z[v].allows(#[trigger] h(v)) implies f(v) == h(v) by {
                assert(y[v].allows(h(v)));
                assert(g(v) == h(v));
                assert(z[v].allows(g(v)));
            }
        }
    }
}

pub proof fn lemma_keeps_carries(cn: ConstraintNetwork, x: Seq<DomainMask>, y: Seq<DomainMask>, scope: Seq<usize>)
    requires
        keeps_models(cn, x, y),
    ensures
        carries(cn, x, y, scope),
{
    assert forall|h: Asg| #[trigger] cn.model(h) && consistent(x, h) && allows_on(y, scope, h) implies carried(cn, y, h) by {
        assert(consistent(y, h));
        assert(keeps_where(y, h, h));
    }
}

/// Where nothing is asked of a scope, satisfiability carries over.
pub proof fn lemma_carries_satisfiable(cn: ConstraintNetwork, x: Seq<DomainMask>, y: Seq<DomainMask>)
    requires
        carries(cn, x, y, Seq::empty()),
        satisfiable(cn, x),
    ensures
        satisfiable(cn, y),
{
    let h = choose|h: Asg| #[trigger] cn.model(h) && consistent(x, h);
    assert(allows_on(y, Seq::empty(), h));
    assert(carried(cn, y, h));
}

/// Every one of `pool` has one value in `e`.
pub open spec fn decided_on(e: Seq<DomainMask>, pool: Seq<usize>) -> bool {
    forall|i: int| 0 <= i < pool.len() ==> e[(#[trigger] pool[i]) as int].fixed()
}

/// Arc-consistent domains within `d0` that decide `pool` stay within `d`.
pub open spec fn keeps_decided(cn: ConstraintNetwork, d0: Seq<DomainMask>, d: Seq<DomainMask>, pool: Seq<usize>) -> bool {
    forall|e: Seq<DomainMask>| #[trigger] ct::closed_under(cn, e) && ct::narrower(e, d0) && decided_on(e, pool) ==> ct::narrower(e, d)
}

/// No arc-consistent domains within `d` decide `pool`.
pub open spec fn undecidable(cn: ConstraintNetwork, d: Seq<DomainMask>, pool: Seq<usize>) -> bool {
    forall|e: Seq<DomainMask>| #[trigger] ct::closed_under(cn, e) && decided_on(e, pool) ==> !ct::narrower(e, d)
}

/// Keeping the domains that decide `pool` keeps the models, and their absence excludes models.
pub proof fn lemma_decided_models(cn: ConstraintNetwork, d0: Seq<DomainMask>, d: Seq<DomainMask>, pool: Seq<usize>)
    requires
        cn.wf(),
        d0.len() == cn.n(),
        d.len() == cn.n(),
        forall|i: int| 0 <= i < pool.len() ==> (#[trigger] pool[i]) < cn.n(),
    ensures
        keeps_decided(cn, d0, d, pool) ==> keeps_models(cn, d0, d),
        undecidable(cn, d0, pool) ==> !satisfiable(cn, d0),
{
    assert forall|a: Asg| #[trigger] cn.model(a) && consistent(d0, a) implies ct::closed_under(cn, singletons(cn.n(), a)) && ct::narrower(singletons(cn.n(), a), d0) && decided_on(singletons(cn.n(), a), pool) by {
        lemma_model_closed(cn, a);
        lemma_consistent_narrower(cn.n(), d0, a);
    }
    if keeps_decided(cn, d0, d, pool) {
        assert forall|a: Asg| #[trigger] cn.model(a) && consistent(d0, a) implies consistent(d, a) by {
            assert(ct::closed_under(cn, singletons(cn.n(), a)));
            lemma_consistent_narrower(cn.n(), d, a);
        }
    }
    if undecidable(cn, d0, pool) && satisfiable(cn, d0) {
        let a = choose|a: Asg| #[trigger] cn.model(a) && consistent(d0, a);
        assert(ct::closed_under(cn, singletons(cn.n(), a)));
    }
}

} // verus!
