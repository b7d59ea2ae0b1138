//! Regions: groups of constraints joined around a focus variable.
use vstd::prelude::*;

use crate::contract;
use crate::contract::Relation;
use crate::ct;
use crate::ct::TableMasks;
use crate::domain::{Asg, DomainMask};
use crate::network;
use crate::network::ConstraintNetwork;
use crate::order;
use crate::seqs;
use crate::util;
use crate::vegraph;

verus! {

/// How many of the best-ranked neighbours are joined on trial at each step of growth.
pub const JOIN_CANDIDATES: usize = 3;

/// Constraints joined around a focus variable.
#[derive(Clone, Debug)]
pub struct Region {
    /// Focus variable the region was grown from.
    pub id: usize,
    /// Region constraints, ascending.
    pub tensors: Vec<usize>,
    /// Region variables, ascending.
    pub vars: Vec<usize>,
}

/// Some constraint outside `tensors` mentions `v`.
pub open spec fn seen_outside(cn: ConstraintNetwork, tensors: Seq<usize>, v: usize) -> bool {
    exists|t: int| 0 <= t < cn.m() && (#[trigger] cn.axes(t)).contains(v) && !contract::lists(tensors, t)
}

/// The region variables that some constraint outside the region mentions, in region order.
pub fn boundary_vars(cn: &ConstraintNetwork, region: &Region) -> (r: Vec<usize>)
    requires
        cn.wf(),
        network::ascending_ids(region.tensors@),
        forall|i: int| 0 <= i < region.vars@.len() ==> (#[trigger] region.vars@[i]) < cn.n(),
    ensures
        r@ == region.vars@.filter(|v: usize| seen_outside(*cn, region.tensors@, v)),
{
    let ghost p = |v: usize| seen_outside(*cn, region.tensors@, v);
    let mut out: Vec<usize> = Vec::new();
    let mut i: usize = 0;
    proof {
        reveal(Seq::filter);
        assert(region.vars@.take(0).filter(p) =~= Seq::<usize>::empty());
    }
    while i < region.vars.len()
        invariant
            cn.wf(),
            network::ascending_ids(region.tensors@),
            forall|i: int| 0 <= i < region.vars@.len() ==> (#[trigger] region.vars@[i]) < cn.n(),
            p == |v: usize| seen_outside(*cn, region.tensors@, v),
            i <= region.vars@.len(),
            out@ == region.vars@.take(i as int).filter(p),
        decreases region.vars.len() - i,
    {
        let v: usize = region.vars[i];
        let list = &cn.v2t[v];
        let mut outside = false;
        let mut k: usize = 0;
        proof {
            assert(cn.incidence_wf(v as int));
            assert(cn.tensors.len() == cn.m());
        }
        while k < list.len() && !outside
            invariant
                cn.wf(),
                cn.incidence_wf(v as int),
                v as int as usize == v,
                network::ascending_ids(region.tensors@),
                list@ == cn.v2t@[v as int]@,
                k <= list@.len(),
                outside ==> seen_outside(*cn, region.tensors@, v),
                !outside ==> forall|q: int| 0 <= q < k ==> contract::lists(region.tensors@, (#[trigger] list@[q]) as int),
            decreases list.len() - k,
        {
            let t: usize = list[k];
            assert(list@[k as int] < cn.m());
            match order::find(&region.tensors, t) {
                Some(at) => {
                    assert(region.tensors@[at as int] as int == t);
                },
                None => {
                    proof {
                        assert(!contract::lists(region.tensors@, t as int)) by {
                            if contract::lists(region.tensors@, t as int) {
                                let x = choose|x: int| 0 <= x < region.tensors@.len() && (#[trigger] region.tensors@[x]) as int == t;
                                assert(region.tensors@.contains(t));
                            }
                        }
                        assert(cn.axes(t as int).contains(v));
                    }
                    outside = true;
                },
            }
            k += 1;
        }
        proof {
            reveal(Seq::filter);
            seqs::lemma_take_next(region.vars@, i as int);
            if !outside && seen_outside(*cn, region.tensors@, v) {
                let t = choose|t: int| 0 <= t < cn.m() && (#[trigger] cn.axes(t)).contains(v) && !contract::lists(region.tensors@, t);
                assert(list@.contains(t as usize));
                let q = list@.index_of(t as usize);
                assert(contract::lists(region.tensors@, list@[q] as int));
            }
        }
        if outside {
            out.push(v);
        }
        i += 1;
    }
    proof {
        seqs::lemma_take_all(region.vars@);
    }
    out
}

/// Constraint `t` is left aside: where only live ones count, it is entailed.
pub open spec fn aside(cn: ConstraintNetwork, d: Seq<DomainMask>, live_only: bool, t: int) -> bool {
    live_only && util::entailed(cn, d, t)
}

/// The constraints that count have all or none of their open variables in `c`.
pub open spec fn closed_set(cn: ConstraintNetwork, d: Seq<DomainMask>, live_only: bool, c: spec_fn(int) -> bool) -> bool {
    forall|t: int, i: int, j: int|
        0 <= t < cn.m() && !aside(cn, d, live_only, t) && 0 <= i < cn.axes(t).len() && 0 <= j < cn.axes(t).len() && !d[(#[trigger] cn.axes(t)[i]) as int].fixed() && !d[(
        #[trigger] cn.axes(t)[j]) as int].fixed() && c(cn.axes(t)[i] as int) ==> c(cn.axes(t)[j] as int)
}

/// All of `tensors` hold under `a`.
pub open spec fn all_tensors_hold(cn: ConstraintNetwork, tensors: Seq<usize>, a: Asg) -> bool {
    forall|k: int| 0 <= k < tensors.len() ==> cn.holds((#[trigger] tensors[k]) as int, a)
}

/// Some of `tensors` mentions `v`.
pub open spec fn some_mentions(cn: ConstraintNetwork, tensors: Seq<usize>, v: usize) -> bool {
    exists|k: int| 0 <= k < tensors.len() && cn.axes((#[trigger] tensors[k]) as int).contains(v)
}

/// `rel` is the join of `tensors`, sliced against the fixed variables, within what is reachable
/// from `focus`.
pub open spec fn joined_region(cn: ConstraintNetwork, d: Seq<DomainMask>, live_only: bool, focus: usize, tensors: Seq<usize>, rel: Relation) -> bool {
    &&& rel.wf()
    &&& tensors.len() > 0
    &&& forall|k: int| 0 <= k < tensors.len() ==> (#[trigger] tensors[k]) < cn.m() && !aside(cn, d, live_only, tensors[k] as int)
    &&& tensors.no_duplicates()
    &&& forall|v: usize| #[trigger] rel.vars@.contains(v) <==> (some_mentions(cn, tensors, v) && !d[v as int].fixed())
    &&& forall|a: Asg| #[trigger] rel.holds(a) <==> all_tensors_hold(cn, tensors, contract::fix(d, a))
    &&& rel.vars@.contains(focus)
    &&& forall|c: spec_fn(int) -> bool, v: usize| #[trigger] closed_set(cn, d, live_only, c) && c(focus as int) && #[trigger] rel.vars@.contains(v) ==> c(v as int)
}

/// Constraint `t` counts, is not in the region, and shares an open variable with it.
pub open spec fn on_frontier(cn: ConstraintNetwork, d: Seq<DomainMask>, live_only: bool, tensors: Seq<usize>, vars: Seq<usize>, t: int) -> bool {
    &&& 0 <= t < cn.m()
    &&& !aside(cn, d, live_only, t)
    &&& !contract::lists(tensors, t)
    &&& exists|v: usize| #[trigger] vars.contains(v) && cn.axes(t).contains(v)
}

/// Constraint `t` does not fit: with it the region would have too many variables or rows.
pub open spec fn overflows(cn: ConstraintNetwork, d: Seq<DomainMask>, rel: Relation, t: int, max_rows: int) -> bool {
    exists|tr: Relation|
        {
            &&& #[trigger] contract::slices(cn.axes(t), cn.rows(t), d, tr)
            &&& !contract::union_fits(rel.vars@, tr.vars@) || forall|j: Relation| #[trigger] contract::joins(rel, tr, j) ==> j.rows@.len() > max_rows
        }
}

/// How many rows constraint `t` has, sliced against the fixed variables.
pub open spec fn sliced_rows(cn: ConstraintNetwork, d: Seq<DomainMask>, t: int) -> nat {
    (choose|tr: Relation| #[trigger] contract::slices(cn.axes(t), cn.rows(t), d, tr)).rows@.len()
}

/// The constraint that a region starts from: of those of `focus` that count, the one with the fewest
/// sliced rows, and of several the lowest.
pub open spec fn seeds(cn: ConstraintNetwork, d: Seq<DomainMask>, live_only: bool, focus: usize, t: usize) -> bool {
    &&& t < cn.m()
    &&& cn.axes(t as int).contains(focus)
    &&& !aside(cn, d, live_only, t as int)
    &&& forall|u: int|
        0 <= u < cn.m() && (#[trigger] cn.axes(u)).contains(focus) && !aside(cn, d, live_only, u) ==> sliced_rows(cn, d, t as int) < sliced_rows(cn, d, u) || (sliced_rows(cn, d, t as int) == sliced_rows(cn, d, u) && t <= u)
}

/// The order of trial around a region: most shared variables first, then fewest sliced rows, then
/// the lower constraint.
pub open spec fn tried_before(cn: ConstraintNetwork, d: Seq<DomainMask>, vars: Seq<usize>, t: usize, u: usize) -> bool {
    let x = contract::shared(cn.axes(t as int), vars);
    let y = contract::shared(cn.axes(u as int), vars);
    let p = sliced_rows(cn, d, t as int);
    let q = sliced_rows(cn, d, u as int);
    x > y || (x == y && (p < q || (p == q && t < u)))
}

/// `queue` is the beginning of the frontier in the order of trial.
pub open spec fn trial_queue(cn: ConstraintNetwork, d: Seq<DomainMask>, vars: Seq<usize>, near: spec_fn(usize) -> bool, queue: Seq<usize>) -> bool {
    &&& forall|i: int| 0 <= i < queue.len() ==> near(#[trigger] queue[i])
    &&& forall|i: int, j: int| 0 <= i < j < queue.len() ==> tried_before(cn, d, vars, #[trigger] queue[i], #[trigger] queue[j])
    &&& forall|i: int, u: usize| 0 <= i < queue.len() && #[trigger] near(u) && !queue.contains(u) ==> tried_before(cn, d, vars, #[trigger] queue[i], u)
}

/// Every join with constraint `t` has more than `size` rows.
pub open spec fn bigger(cn: ConstraintNetwork, d: Seq<DomainMask>, acc: Relation, t: int, size: int) -> bool {
    forall|j: Relation| #[trigger] joins_tensor(cn, d, acc, t, j) ==> j.rows@.len() > size
}

/// Constraint `t` is the one to absorb, and `j` the join with it: of the first few in the order of
/// trial the one that fits with the fewest rows, the first such; where none of these fits, the first
/// that fits at all.
pub open spec fn absorbs(cn: ConstraintNetwork, d: Seq<DomainMask>, near: spec_fn(usize) -> bool, acc: Relation, max_rows: int, t: usize, j: Relation) -> bool {
    exists|queue: Seq<usize>, k: int|
        {
            &&& #[trigger] trial_queue(cn, d, acc.vars@, near, queue)
            &&& 0 <= k < queue.len()
            &&& #[trigger] queue[k] == t
            &&& joins_tensor(cn, d, acc, t as int, j)
            &&& j.rows@.len() <= max_rows
            &&& forall|i: int| 0 <= i < k ==> overflows(cn, d, acc, (#[trigger] queue[i]) as int, max_rows) || (k < JOIN_CANDIDATES && bigger(cn, d, acc, queue[i] as int, j.rows@.len() as int))
            &&& forall|i: int| k < i < queue.len() ==> overflows(cn, d, acc, (#[trigger] queue[i]) as int, max_rows) || bigger(cn, d, acc, queue[i] as int, j.rows@.len() - 1)
            &&& queue.len() >= JOIN_CANDIDATES || forall|u: usize| #[trigger] near(u) ==> queue.contains(u)
        }
}

/// Which constraints are on the frontier.
pub open spec fn frontier_of(cn: ConstraintNetwork, d: Seq<DomainMask>, live_only: bool, tensors: Seq<usize>, vars: Seq<usize>) -> spec_fn(usize) -> bool {
    |t: usize| on_frontier(cn, d, live_only, tensors, vars, t as int)
}

/// After `taken`, whose join is `acc`, constraint `t` is the one to absorb, with the join `rel`.
pub open spec fn goes_on(cn: ConstraintNetwork, d: Seq<DomainMask>, live_only: bool, max_rows: int, taken: Seq<usize>, acc: Relation, t: usize, rel: Relation) -> bool {
    absorbs(cn, d, frontier_of(cn, d, live_only, taken, acc.vars@), acc, max_rows, t, rel)
}

/// `rel` comes about by starting from the first of `taken` and absorbing the others in order, each
/// the one to absorb at its turn.
pub open spec fn growth(cn: ConstraintNetwork, d: Seq<DomainMask>, live_only: bool, focus: usize, max_rows: int, taken: Seq<usize>, rel: Relation) -> bool
    decreases taken.len(),
{
    if taken.len() <= 1 {
        taken.len() == 1 && seeds(cn, d, live_only, focus, taken[0]) && contract::slices(cn.axes(taken[0] as int), cn.rows(taken[0] as int), d, rel)
    } else {
        exists|acc: Relation| #[trigger] goes_on(cn, d, live_only, max_rows, taken.drop_last(), acc, taken.last(), rel) && growth(cn, d, live_only, focus, max_rows, taken.drop_last(), acc)
    }
}

/// The constraints of the region were taken in the order of growth.
#[verifier::opaque]
pub open spec fn taken_in_turn(cn: ConstraintNetwork, d: Seq<DomainMask>, live_only: bool, focus: usize, max_rows: int, tensors: Seq<usize>, rel: Relation) -> bool {
    exists|taken: Seq<usize>| #[trigger] growth(cn, d, live_only, focus, max_rows, taken, rel) && taken.to_multiset() == tensors.to_multiset()
}

/// A relation is determined by its variables and what it allows.
proof fn lemma_same_relation(r: Relation, q: Relation)
    requires
        r.wf(),
        q.wf(),
        forall|v: usize| #[trigger] r.vars@.contains(v) <==> q.vars@.contains(v),
        forall|a: Asg| #[trigger] r.holds(a) <==> q.holds(a),
    ensures
        r.vars@ == q.vars@,
        r.rows@ == q.rows@,
{
    contract::lemma_ascending_same(r.vars@, q.vars@);
    assert forall|a: Asg| #[trigger] contract::some_row(r.vars@, r.rows@, a) <==> contract::some_row(r.vars@, q.rows@, a) by {
        assert(r.holds(a) <==> q.holds(a));
    }
    contract::lemma_rows_unique(r.vars@, r.rows@, q.rows@);
}

proof fn lemma_sliced_rows(cn: ConstraintNetwork, d: Seq<DomainMask>, t: int, tr: Relation)
    requires
        contract::slices(cn.axes(t), cn.rows(t), d, tr),
    ensures
        sliced_rows(cn, d, t) == tr.rows@.len(),
{
    let q = choose|q: Relation| #[trigger] contract::slices(cn.axes(t), cn.rows(t), d, q);
    assert forall|v: usize| #[trigger] tr.vars@.contains(v) <==> q.vars@.contains(v) by {
        assert(tr.vars@.contains(v) <==> (cn.axes(t).contains(v) && !d[v as int].fixed()));
    }
    assert forall|a: Asg| #[trigger] tr.holds(a) <==> q.holds(a) by {
        assert(tr.holds(a) <==> network::rows_hold(cn.axes(t), cn.rows(t), contract::fix(d, a)));
    }
    lemma_same_relation(tr, q);
}

/// All joins with a constraint have the same rows.
proof fn lemma_joined_rows(cn: ConstraintNetwork, d: Seq<DomainMask>, acc: Relation, t: int, j: Relation, q: Relation)
    requires
        joins_tensor(cn, d, acc, t, j),
        joins_tensor(cn, d, acc, t, q),
    ensures
        j.rows@ == q.rows@,
{
    let x = choose|x: Relation| #[trigger] contract::slices(cn.axes(t), cn.rows(t), d, x) && contract::joins(acc, x, j);
    let y = choose|y: Relation| #[trigger] contract::slices(cn.axes(t), cn.rows(t), d, y) && contract::joins(acc, y, q);
    assert forall|v: usize| #[trigger] x.vars@.contains(v) <==> y.vars@.contains(v) by {
        assert(x.vars@.contains(v) <==> (cn.axes(t).contains(v) && !d[v as int].fixed()));
    }
    assert forall|a: Asg| #[trigger] x.holds(a) <==> y.holds(a) by {
        assert(x.holds(a) <==> network::rows_hold(cn.axes(t), cn.rows(t), contract::fix(d, a)));
    }
    assert forall|v: usize| #[trigger] j.vars@.contains(v) <==> q.vars@.contains(v) by {
        assert(x.vars@.contains(v) <==> y.vars@.contains(v));
    }
    assert forall|a: Asg| #[trigger] j.holds(a) <==> q.holds(a) by {
        assert(x.holds(a) <==> y.holds(a));
    }
    lemma_same_relation(j, q);
}

/// A region grown as far as the budget allows.
pub open spec fn grown(cn: ConstraintNetwork, d: Seq<DomainMask>, live_only: bool, focus: usize, max_rows: int, region: Region, rel: Relation) -> bool {
    &&& region.id == focus
    &&& region.vars@ == rel.vars@
    &&& network::ascending_ids(region.tensors@)
    &&& joined_region(cn, d, live_only, focus, region.tensors@, rel)
    &&& region.tensors@.len() > 1 ==> rel.rows@.len() <= max_rows
    &&& taken_in_turn(cn, d, live_only, focus, max_rows, region.tensors@, rel)
    &&& forall|t: int| #[trigger] on_frontier(cn, d, live_only, region.tensors@, rel.vars@, t) ==> overflows(cn, d, rel, t, max_rows)
}

/// Whether constraint `t` is left aside.
fn is_aside(cn: &ConstraintNetwork, doms: &[DomainMask], masks: Option<&[TableMasks]>, t: usize) -> (r: bool)
    requires
        cn.wf(),
        doms@.len() == cn.n(),
        t < cn.m(),
        masks is Some ==> ct::masks_ok(*cn, masks->0@),
    ensures
        r == aside(*cn, doms@, masks is Some, t as int),
{
    match masks {
        Some(m) => util::is_entailed(cn, t, doms, m),
        None => false,
    }
}

/// The sliced relation of constraint `t`.
fn sliced(cn: &ConstraintNetwork, doms: &[DomainMask], t: usize) -> (r: Relation)
    requires
        cn.wf(),
        doms@.len() == cn.n(),
        t < cn.m(),
    ensures
        contract::slices(cn.axes(t as int), cn.rows(t as int), doms@, r),
        r.vars@.len() <= 32,
{
    assert(cn.tensor_wf(t as int));
    let r = contract::tensor_relation(cn, &cn.tensors[t], doms);
    proof {
        assert(contract::within(r.vars@, cn.axes(t as int))) by {
            assert forall|j: int| 0 <= j < r.vars@.len() implies cn.axes(t as int).contains(#[trigger] r.vars@[j]) by {
                assert(r.vars@.contains(r.vars@[j]));
            }
        }
        contract::lemma_within_len(r.vars@, cn.axes(t as int));
    }
    r
}

/// Whether an id is in a list.
pub(crate) fn in_list(list: &Vec<usize>, x: usize) -> (r: bool)
    ensures
        r == contract::lists(list@, x as int),
        r == list@.contains(x),
{
    let mut i: usize = 0;
    while i < list.len()
        invariant
            i <= list@.len(),
            forall|k: int| 0 <= k < i ==> #[trigger] list@[k] != x,
        decreases list.len() - i,
    {
        if list[i] == x {
            assert(list@[i as int] as int == x);
            return true;
        }
        i += 1;
    }
    false
}

/// The incident constraint of `focus` that counts with the fewest sliced rows, the first such.
fn cheapest_seed(cn: &ConstraintNetwork, doms: &[DomainMask], focus: usize, masks: Option<&[TableMasks]>) -> (r: (usize, Relation))
    requires
        cn.wf(),
        doms@.len() == cn.n(),
        focus < cn.n(),
        masks is Some ==> ct::masks_ok(*cn, masks->0@),
        exists|t: int| 0 <= t < cn.m() && (#[trigger] cn.axes(t)).contains(focus) && !aside(*cn, doms@, masks is Some, t),
    ensures
        r.0 < cn.m(),
        cn.axes(r.0 as int).contains(focus),
        !aside(*cn, doms@, masks is Some, r.0 as int),
        contract::slices(cn.axes(r.0 as int), cn.rows(r.0 as int), doms@, r.1),
        seeds(*cn, doms@, masks is Some, focus, r.0),
{
    let list = &cn.v2t[focus];
    let mut best: Option<(usize, Relation)> = None;
    let mut k: usize = 0;
    proof {
        assert(cn.incidence_wf(focus as int));
        assert(cn.tensors.len() == cn.m());
    }
    while k < list.len()
        invariant
            cn.wf(),
            cn.incidence_wf(focus as int),
            focus as int as usize == focus,
            doms@.len() == cn.n(),
            masks is Some ==> ct::masks_ok(*cn, masks->0@),
            list@ == cn.v2t@[focus as int]@,
            k <= list@.len(),
            match best {
                Some((t, rel)) => {
                    &&& t < cn.m()
                    &&& cn.axes(t as int).contains(focus)
                    &&& !aside(*cn, doms@, masks is Some, t as int)
                    &&& contract::slices(cn.axes(t as int), cn.rows(t as int), doms@, rel)
                    &&& forall|q: int| 0 <= q < k && !aside(*cn, doms@, masks is Some, list@[q] as int) ==> sliced_rows(*cn, doms@, t as int) < sliced_rows(*cn, doms@, (#[trigger] list@[q]) as int) || (sliced_rows(*cn, doms@, t as int) == sliced_rows(*cn, doms@, list@[q] as int) && t <= list@[q])
                    &&& exists|q: int| 0 <= q < k && #[trigger] list@[q] == t
                },
                None => forall|q: int| 0 <= q < k ==> aside(*cn, doms@, masks is Some, (#[trigger] list@[q]) as int),
            },
        decreases list.len() - k,
    {
        let t: usize = list[k];
        assert(list@[k as int] < cn.m());
        if !is_aside(cn, doms, masks, t) {
            let rel = sliced(cn, doms, t);
            proof {
                lemma_sliced_rows(*cn, doms@, t as int, rel);
                if best is Some {
                    let b = best->0;
                    lemma_sliced_rows(*cn, doms@, b.0 as int, b.1);
                    let q = choose|q: int| 0 <= q < k && #[trigger] list@[q] == b.0;
                    assert(list@[q] < list@[k as int]);
                }
                assert forall|q: int| 0 <= q < k implies #[trigger] list@[q] < t by {
                    assert(list@[q] < list@[k as int]);
                }
            }
            let better = match &best {
                Some((_, b)) => rel.rows.len() < b.rows.len(),
                None => true,
            };
            if better {
                best = Some((t, rel));
            }
        }
        k += 1;
    }
    match best {
        Some(r) => {
            proof {
                assert forall|u: int| 0 <= u < cn.m() && (#[trigger] cn.axes(u)).contains(focus) && !aside(*cn, doms@, masks is Some, u) implies sliced_rows(*cn, doms@, r.0 as int) < sliced_rows(*cn, doms@, u) || (sliced_rows(*cn, doms@, r.0 as int) == sliced_rows(*cn, doms@, u) && r.0 <= u) by {
                    assert(list@.contains(u as usize));
                    let q = list@.index_of(u as usize);
                    assert(list@[q] == u);
                }
            }
            r
        },
        None => {
            proof {
                let t = choose|t: int| 0 <= t < cn.m() && (#[trigger] cn.axes(t)).contains(focus) && !aside(*cn, doms@, masks is Some, t);
                assert(list@.contains(t as usize));
                let q = list@.index_of(t as usize);
                assert(aside(*cn, doms@, masks is Some, list@[q] as int));
            }
            (0, Relation { vars: Vec::new(), rows: Vec::new() })
        },
    }
}

/// The constraints on the frontier of the region, ascending.
fn frontier(cn: &ConstraintNetwork, doms: &[DomainMask], masks: Option<&[TableMasks]>, tensors: &Vec<usize>, vars: &Vec<usize>) -> (r: Vec<usize>)
    requires
        cn.wf(),
        doms@.len() == cn.n(),
        masks is Some ==> ct::masks_ok(*cn, masks->0@),
        forall|i: int| 0 <= i < vars@.len() ==> (#[trigger] vars@[i]) < cn.n(),
    ensures
        forall|t: usize| #[trigger] r@.contains(t) <==> on_frontier(*cn, doms@, masks is Some, tensors@, vars@, t as int),
        r@.no_duplicates(),
{
    let mut all: Vec<usize> = Vec::new();
    let mut i: usize = 0;
    while i < vars.len()
        invariant
            cn.wf(),
            forall|i: int| 0 <= i < vars@.len() ==> (#[trigger] vars@[i]) < cn.n(),
            i <= vars@.len(),
            forall|t: usize| #[trigger] all@.contains(t) <==> (t < cn.m() && exists|q: int| 0 <= q < i && cn.axes(t as int).contains(#[trigger] vars@[q])),
        decreases vars.len() - i,
    {
        let v: usize = vars[i];
        let list = &cn.v2t[v];
        let ghost a0 = all@;
        proof {
            assert(cn.incidence_wf(v as int));
            assert(cn.tensors.len() == cn.m());
        }
        let mut k: usize = 0;
        while k < list.len()
            invariant
                k <= list@.len(),
                forall|t: usize| #[trigger] all@.contains(t) <==> (a0.contains(t) || list@.take(k as int).contains(t)),
            decreases list.len() - k,
        {
            proof {
                seqs::lemma_take_next(list@, k as int);
                seqs::lemma_push_contains(all@, list@[k as int]);
            }
            all.push(list[k]);
            k += 1;
        }
        proof {
            seqs::lemma_take_all(list@);
            assert forall|t: usize| #[trigger] all@.contains(t) <==> (t < cn.m() && exists|q: int| 0 <= q < i + 1 && cn.axes(t as int).contains(#[trigger] vars@[q])) by {
                if list@.contains(t) {
                    let k = list@.index_of(t);
                    assert(list@[k] < cn.m());
                    assert(cn.axes(t as int).contains(vars@[i as int]));
                }
                if t < cn.m() && exists|q: int| 0 <= q < i + 1 && cn.axes(t as int).contains(#[trigger] vars@[q]) {
                    let q = choose|q: int| 0 <= q < i + 1 && cn.axes(t as int).contains(#[trigger] vars@[q]);
                    if q < i {
                        assert(cn.axes(t as int).contains(vars@[q]));
                        assert(a0.contains(t));
                    } else {
                        assert(cn.axes(t as int).contains(v));
                        assert(list@.contains(t));
                    }
                }
                if a0.contains(t) {
                    let q = choose|q: int| 0 <= q < i && cn.axes(t as int).contains(#[trigger] vars@[q]);
                    assert(cn.axes(t as int).contains(vars@[q]));
                }
            }
        }
        i += 1;
    }
    let near = order::sort_dedup_ids(all);
    let mut out: Vec<usize> = Vec::new();
    let mut k: usize = 0;
    while k < near.len()
        invariant
            cn.wf(),
            doms@.len() == cn.n(),
            masks is Some ==> ct::masks_ok(*cn, masks->0@),
            k <= near@.len(),
            forall|t: usize| #[trigger] near@.contains(t) ==> t < cn.m(),
            network::ascending_ids(near@),
            out@.no_duplicates(),
            forall|t: usize| #[trigger] out@.contains(t) <==> (near@.take(k as int).contains(t) && !aside(*cn, doms@, masks is Some, t as int) && !contract::lists(tensors@, t as int)),
        decreases near.len() - k,
    {
        let t: usize = near[k];
        proof {
            seqs::lemma_take_next(near@, k as int);
            seqs::lemma_push_contains(out@, t);
            assert(near@.contains(near@[k as int]));
            assert(!near@.take(k as int).contains(t)) by {
                if near@.take(k as int).contains(t) {
                    let q = near@.take(k as int).index_of(t);
                    assert(near@[q] < near@[k as int]);
                }
            }
            assert(!out@.contains(t));
            assert(out@.push(t).no_duplicates());
        }
        if !in_list(tensors, t) && !is_aside(cn, doms, masks, t) {
            out.push(t);
        }
        k += 1;
    }
    proof {
        seqs::lemma_take_all(near@);
        assert forall|t: usize| #[trigger] out@.contains(t) <==> on_frontier(*cn, doms@, masks is Some, tensors@, vars@, t as int) by {
            if out@.contains(t) {
                assert(near@.contains(t));
                let q = choose|q: int| 0 <= q < vars@.len() && cn.axes(t as int).contains(#[trigger] vars@[q]);
                assert(vars@.contains(vars@[q]));
            }
            if on_frontier(*cn, doms@, masks is Some, tensors@, vars@, t as int) {
                let v = choose|v: usize| #[trigger] vars@.contains(v) && cn.axes(t as int).contains(v);
                let q = vars@.index_of(v);
                assert(cn.axes(t as int).contains(vars@[q]));
                assert(near@.contains(t));
            }
        }
    }
    out
}

/// The frontier in order of trial: most shared variables first, then fewest sliced rows.
fn ranked(cn: &ConstraintNetwork, doms: &[DomainMask], near: &Vec<usize>, acc: &Relation) -> (r: Vec<(usize, usize, usize)>)
    requires
        cn.wf(),
        doms@.len() == cn.n(),
        acc.wf(),
        forall|k: int| 0 <= k < near@.len() ==> (#[trigger] near@[k]) < cn.m(),
    ensures
        r@.len() == near@.len(),
        forall|k: int| 0 <= k < near@.len() ==> (#[trigger] r@[k]).2 == near@[k],
        forall|k: int| 0 <= k < near@.len() ==> (#[trigger] r@[k]).0 == usize::MAX - contract::shared(cn.axes(near@[k] as int), acc.vars@),
        forall|k: int| 0 <= k < near@.len() ==> (#[trigger] r@[k]).1 == sliced_rows(*cn, doms@, near@[k] as int),
{
    let mut out: Vec<(usize, usize, usize)> = Vec::new();
    let mut k: usize = 0;
    while k < near.len()
        invariant
            cn.wf(),
            doms@.len() == cn.n(),
            acc.wf(),
            forall|k: int| 0 <= k < near@.len() ==> (#[trigger] near@[k]) < cn.m(),
            k <= near@.len(),
            out@.len() == k,
            forall|q: int| 0 <= q < k ==> (#[trigger] out@[q]).2 == near@[q],
            forall|q: int| 0 <= q < k ==> (#[trigger] out@[q]).0 == usize::MAX - contract::shared(cn.axes(near@[q] as int), acc.vars@),
            forall|q: int| 0 <= q < k ==> (#[trigger] out@[q]).1 == sliced_rows(*cn, doms@, near@[q] as int),
        decreases near.len() - k,
    {
        let t: usize = near[k];
        let shared: usize = contract::shared_count(&cn.tensors[t].var_axes, &acc.vars);
        let rel = sliced(cn, doms, t);
        proof {
            lemma_sliced_rows(*cn, doms@, t as int, rel);
        }
        let rows: usize = rel.rows.len();
        out.push((usize::MAX - shared, rows, t));
        k += 1;
    }
    out
}

/// The join of the region with one of the best-ranked constraints that fit: the one with the
/// fewest rows among the first few, or else the first that fits. None where none fits.
fn best_join(cn: &ConstraintNetwork, doms: &[DomainMask], near: &Vec<usize>, acc: &Relation, max_rows: usize) -> (r: Option<(usize, Relation)>)
    requires
        cn.wf(),
        doms@.len() == cn.n(),
        acc.wf(),
        forall|k: int| 0 <= k < near@.len() ==> (#[trigger] near@[k]) < cn.m(),
        near@.no_duplicates(),
    ensures
        match r {
            Some((t, j)) => {
                &&& near@.contains(t)
                &&& absorbs(*cn, doms@, |u: usize| near@.contains(u), *acc, max_rows as int, t, j)
                &&& j.rows@.len() <= max_rows
                &&& joins_tensor(*cn, doms@, *acc, t as int, j)
            },
            None => forall|t: usize| #[trigger] near@.contains(t) ==> overflows(*cn, doms@, *acc, t as int, max_rows as int),
        },
{
    let mut scored = ranked(cn, doms, near, acc);
    let mut best: Option<(usize, Relation)> = None;
    let mut scanned: usize = 0;
    let total: usize = scored.len();
    let ghost mut tried: Seq<usize> = Seq::empty();
    let ghost mut at: int = 0;
    proof {
        assert forall|t: usize| #[trigger] near@.contains(t) implies listed_third(scored@, t) by {
            let k = near@.index_of(t);
            assert(scored@[k].2 == t);
        }
        assert(scored@.no_duplicates()) by {
            assert forall|a: int, b: int| 0 <= a < scored@.len() && 0 <= b < scored@.len() && a != b implies scored@[a] != scored@[b] by {
                assert(scored@[a].2 == near@[a] && scored@[b].2 == near@[b]);
            }
        }
    }
    while scored.len() > 0 && !(best.is_some() && scanned >= JOIN_CANDIDATES)
        invariant
            cn.wf(),
            doms@.len() == cn.n(),
            acc.wf(),
            forall|k: int| 0 <= k < near@.len() ==> (#[trigger] near@[k]) < cn.m(),
            near@.no_duplicates(),
            scanned + scored@.len() == total,
            tried.len() == scanned,
            scored@.no_duplicates(),
            forall|k: int| 0 <= k < scored@.len() ==> trial_entry(*cn, doms@, acc.vars@, #[trigger] scored@[k]),
            forall|i: int| 0 <= i < tried.len() ==> near@.contains(#[trigger] tried[i]),
            forall|i: int, j: int| 0 <= i < j < tried.len() ==> tried_before(*cn, doms@, acc.vars@, #[trigger] tried[i], #[trigger] tried[j]),
            forall|i: int, k: int| 0 <= i < tried.len() && 0 <= k < scored@.len() ==> tried_before(*cn, doms@, acc.vars@, #[trigger] tried[i], (#[trigger] scored@[k]).2),
            forall|u: usize| #[trigger] near@.contains(u) ==> tried.contains(u) || listed_third(scored@, u),
            best is None ==> forall|i: int| 0 <= i < tried.len() ==> overflows(*cn, doms@, *acc, (#[trigger] tried[i]) as int, max_rows as int),
            best matches Some((t, j)) ==> {
                &&& 0 <= at < tried.len()
                &&& tried[at] == t
                &&& forall|i: int| 0 <= i < at ==> overflows(*cn, doms@, *acc, (#[trigger] tried[i]) as int, max_rows as int) || (at < JOIN_CANDIDATES && bigger(*cn, doms@, *acc, tried[i] as int, j.rows@.len() as int))
                &&& forall|i: int| at < i < tried.len() ==> overflows(*cn, doms@, *acc, (#[trigger] tried[i]) as int, max_rows as int) || bigger(*cn, doms@, *acc, tried[i] as int, j.rows@.len() - 1)
            },
            forall|k: int| 0 <= k < scored@.len() ==> near@.contains((#[trigger] scored@[k]).2),
            match best {
                Some((t, j)) => near@.contains(t) && j.rows@.len() <= max_rows && joins_tensor(*cn, doms@, *acc, t as int, j),
                None => forall|t: usize| #[trigger] near@.contains(t) ==> overflows(*cn, doms@, *acc, t as int, max_rows as int) || listed_third(scored@, t),
            },
        decreases scored.len(),
    {
        let ghost s0 = scored@;
        let top = vegraph::pop_min(&mut scored);
        scanned += 1;
        let (_, _, t) = match top {
            Some(x) => x,
            None => (0, 0, 0),
        };
        let ghost tried0 = tried;
        proof {
            let m = top->0;
            lemma_popped(s0, scored@, m);
            let q = s0.index_of(m);
            assert(near@.contains(s0[q].2));
            lemma_popped_distinct(s0, scored@, m);
            tried = tried0.push(t);
            assert(trial_entry(*cn, doms@, acc.vars@, s0[q]));
            assert forall|k: int| 0 <= k < scored@.len() implies trial_entry(*cn, doms@, acc.vars@, #[trigger] scored@[k]) && tried_before(*cn, doms@, acc.vars@, t, scored@[k].2) && (forall|i: int| 0 <= i < tried0.len() ==> tried_before(*cn, doms@, acc.vars@, #[trigger] tried0[i], scored@[k].2)) by {
                assert(scored@.contains(scored@[k]));
                assert(s0.contains(scored@[k]));
                let y = s0.index_of(scored@[k]);
                assert(s0[y] == scored@[k]);
                assert(trial_entry(*cn, doms@, acc.vars@, s0[y]));
                assert(vegraph::triple_le(m, s0[y]));
                assert(s0[y] != m);
            }
            assert forall|i: int, j: int| 0 <= i < j < tried.len() implies tried_before(*cn, doms@, acc.vars@, #[trigger] tried[i], #[trigger] tried[j]) by {
                if j == tried0.len() {
                    assert(tried_before(*cn, doms@, acc.vars@, tried0[i], s0[q].2));
                } else {
                    assert(tried_before(*cn, doms@, acc.vars@, tried0[i], tried0[j]));
                }
            }
            assert forall|i: int, k: int| 0 <= i < tried.len() && 0 <= k < scored@.len() implies tried_before(*cn, doms@, acc.vars@, #[trigger] tried[i], (#[trigger] scored@[k]).2) by {
                if i < tried0.len() {
                    assert(tried_before(*cn, doms@, acc.vars@, tried0[i], scored@[k].2));
                }
            }
            assert forall|u: usize| #[trigger] near@.contains(u) implies tried.contains(u) || listed_third(scored@, u) by {
                if tried0.contains(u) {
                    let i = tried0.index_of(u);
                    assert(tried[i] == u);
                } else {
                    let k = choose|k: int| 0 <= k < s0.len() && (#[trigger] s0[k]).2 == u;
                    if s0[k] == m {
                        assert(tried[tried0.len() as int] == u);
                    } else {
                        assert(s0.contains(s0[k]));
                        assert(scored@.contains(s0[k]));
                        let y = scored@.index_of(s0[k]);
                        assert(scored@[y].2 == u);
                    }
                }
            }
            let x = near@.index_of(t);
            assert(near@[x] < cn.m());
            assert forall|k: int| 0 <= k < scored@.len() implies near@.contains((#[trigger] scored@[k]).2) by {
                assert(scored@.contains(scored@[k]));
                assert(s0.contains(scored@[k]));
                let y = s0.index_of(scored@[k]);
                assert(near@.contains(s0[y].2));
            }
        }
        let rel = sliced(cn, doms, t);
        let union = contract::sorted_union(&acc.vars, &rel.vars);
        let mut fitting: Option<Relation> = None;
        if union.len() <= 64 {
            proof {
                assert(contract::roomy(union@));
                assert(contract::within(acc.vars@, union@)) by {
                    assert forall|i: int| 0 <= i < acc.vars@.len() implies union@.contains(#[trigger] acc.vars@[i]) by {
                        assert(acc.vars@.contains(acc.vars@[i]));
                    }
                }
                assert(contract::within(rel.vars@, union@)) by {
                    assert forall|i: int| 0 <= i < rel.vars@.len() implies union@.contains(#[trigger] rel.vars@[i]) by {
                        assert(rel.vars@.contains(rel.vars@[i]));
                    }
                }
            }
            fitting = contract::join_bounded(acc, &rel, max_rows);
        } else {
            proof {
                if contract::union_fits(acc.vars@, rel.vars@) {
                    let u = choose|u: Seq<usize>| #[trigger] contract::roomy(u) && contract::within(acc.vars@, u) && contract::within(rel.vars@, u);
                    assert(contract::within(union@, u)) by {
                        assert forall|i: int| 0 <= i < union@.len() implies u.contains(#[trigger] union@[i]) by {
                            assert(union@.contains(union@[i]));
                            if acc.vars@.contains(union@[i]) {
                                let y = acc.vars@.index_of(union@[i]);
                                assert(u.contains(acc.vars@[y]));
                            } else {
                                let y = rel.vars@.index_of(union@[i]);
                                assert(u.contains(rel.vars@[y]));
                            }
                        }
                    }
                    contract::lemma_within_len(union@, u);
                }
            }
        }
        proof {
            if fitting is None {
                assert(contract::slices(cn.axes(t as int), cn.rows(t as int), doms@, rel));
                assert(overflows(*cn, doms@, *acc, t as int, max_rows as int));
            } else {
                assert(joins_tensor(*cn, doms@, *acc, t as int, fitting->0)) by {
                    assert(contract::slices(cn.axes(t as int), cn.rows(t as int), doms@, rel));
                }
            }
            if best is None {
                assert forall|u: usize| #[trigger] near@.contains(u) && u != t implies overflows(*cn, doms@, *acc, u as int, max_rows as int) || listed_third(scored@, u) by {
                    if listed_third(s0, u) {
                        let k = choose|k: int| 0 <= k < s0.len() && (#[trigger] s0[k]).2 == u;
                        assert(s0.contains(s0[k]));
                        assert(scored@.contains(s0[k]));
                        let y = scored@.index_of(s0[k]);
                        assert(scored@[y].2 == u);
                    }
                }
            }
        }
        proof {
            let n = tried0.len() as int;
            assert(tried[n] == t);
            assert forall|i: int| 0 <= i < n implies tried[i] == #[trigger] tried0[i] by {}
            if fitting is Some {
                let j = fitting->0;
                assert(bigger(*cn, doms@, *acc, t as int, j.rows@.len() - 1)) by {
                    assert forall|x: Relation| #[trigger] joins_tensor(*cn, doms@, *acc, t as int, x) implies x.rows@.len() > j.rows@.len() - 1 by {
                        lemma_joined_rows(*cn, doms@, *acc, t as int, j, x);
                    }
                }
                if best is None {
                    at = n;
                } else if j.rows@.len() < (best->0).1.rows@.len() {
                    let b = (best->0).1;
                    assert forall|i: int| 0 <= i < n implies overflows(*cn, doms@, *acc, (#[trigger] tried[i]) as int, max_rows as int) || bigger(*cn, doms@, *acc, tried[i] as int, j.rows@.len() as int) by {
                        assert(tried0[i] == tried[i]);
                        if !overflows(*cn, doms@, *acc, tried[i] as int, max_rows as int) {
                            if i == at {
                                assert forall|x: Relation| #[trigger] joins_tensor(*cn, doms@, *acc, tried[i] as int, x) implies x.rows@.len() > j.rows@.len() by {
                                    lemma_joined_rows(*cn, doms@, *acc, tried[i] as int, b, x);
                                }
                            } else {
                                assert(bigger(*cn, doms@, *acc, tried0[i] as int, b.rows@.len() - 1) || bigger(*cn, doms@, *acc, tried0[i] as int, b.rows@.len() as int));
                            }
                        }
                    }
                    at = n;
                }
            }
        }
        match fitting {
            Some(j) => {
                let better = match &best {
                    Some((_, b)) => j.rows.len() < b.rows.len(),
                    None => true,
                };
                if better {
                    best = Some((t, j));
                }
            },
            None => {},
        }
    }
    proof {
        if best is None {
            assert forall|t: usize| #[trigger] near@.contains(t) implies overflows(*cn, doms@, *acc, t as int, max_rows as int) by {
                assert(!listed_third(scored@, t));
            }
        } else {
            let (t, j) = best->0;
            let front = |u: usize| near@.contains(u);
            assert(trial_queue(*cn, doms@, acc.vars@, front, tried)) by {
                assert forall|i: int, u: usize| 0 <= i < tried.len() && #[trigger] front(u) && !tried.contains(u) implies tried_before(*cn, doms@, acc.vars@, #[trigger] tried[i], u) by {
                    assert(near@.contains(u));
                    let k = choose|k: int| 0 <= k < scored@.len() && (#[trigger] scored@[k]).2 == u;
                    assert(tried_before(*cn, doms@, acc.vars@, tried[i], scored@[k].2));
                }
            }
            assert(tried.len() >= JOIN_CANDIDATES || forall|u: usize| #[trigger] front(u) ==> tried.contains(u)) by {
                if tried.len() < JOIN_CANDIDATES {
                    assert forall|u: usize| #[trigger] front(u) implies tried.contains(u) by {
                        assert(near@.contains(u));
                        assert(!listed_third(scored@, u));
                    }
                }
            }
            assert(tried[at] == t);
            assert(absorbs(*cn, doms@, front, *acc, max_rows as int, t, j));
        }
    }
    best
}

/// `j` is the join of `acc` with the sliced relation of constraint `t`.
pub open spec fn joins_tensor(cn: ConstraintNetwork, d: Seq<DomainMask>, acc: Relation, t: int, j: Relation) -> bool {
    exists|tr: Relation| #[trigger] contract::slices(cn.axes(t), cn.rows(t), d, tr) && contract::joins(acc, tr, j)
}

/// The entry of a constraint in the order of trial.
spec fn trial_entry(cn: ConstraintNetwork, d: Seq<DomainMask>, vars: Seq<usize>, x: (usize, usize, usize)) -> bool {
    x.0 == usize::MAX - contract::shared(cn.axes(x.2 as int), vars) && x.1 == sliced_rows(cn, d, x.2 as int)
}

spec fn listed_third(s: Seq<(usize, usize, usize)>, t: usize) -> bool {
    exists|k: int| 0 <= k < s.len() && (#[trigger] s[k]).2 == t
}

/// What is left after taking one element out.
proof fn lemma_popped(s0: Seq<(usize, usize, usize)>, s1: Seq<(usize, usize, usize)>, m: (usize, usize, usize))
    requires
        s0.contains(m),
        s1.to_multiset() == s0.to_multiset().remove(m),
    ensures
        forall|x: (usize, usize, usize)| #[trigger] s1.contains(x) ==> s0.contains(x),
        forall|x: (usize, usize, usize)| #[trigger] s0.contains(x) && x != m ==> s1.contains(x),
{
    broadcast use vstd::seq_lib::group_to_multiset_ensures;

    assert forall|x: (usize, usize, usize)| #[trigger] s1.contains(x) implies s0.contains(x) by {
        assert(s1.to_multiset().count(x) > 0);
        assert(s0.to_multiset().count(x) > 0);
    }
    assert forall|x: (usize, usize, usize)| #[trigger] s0.contains(x) && x != m implies s1.contains(x) by {
        assert(s0.to_multiset().count(x) > 0);
        assert(s1.to_multiset().count(x) > 0);
    }
}

/// Without duplicates, what was taken out is gone.
proof fn lemma_popped_distinct(s0: Seq<(usize, usize, usize)>, s1: Seq<(usize, usize, usize)>, m: (usize, usize, usize))
    requires
        s0.contains(m),
        s0.no_duplicates(),
        s1.to_multiset() == s0.to_multiset().remove(m),
    ensures
        s1.no_duplicates(),
        !s1.contains(m),
{
    broadcast use vstd::seq_lib::group_to_multiset_ensures;

    s0.lemma_multiset_has_no_duplicates();
    assert forall|x: (usize, usize, usize)| s1.to_multiset().contains(x) implies s1.to_multiset().count(x) == 1 by {
        assert(s0.to_multiset().contains(x));
        assert(s0.to_multiset().count(x) == 1);
    }
    s1.lemma_multiset_has_no_duplicates_conv();
    assert(s0.to_multiset().contains(m));
    assert(s0.to_multiset().count(m) == 1);
    assert(s1.to_multiset().count(m) == 0);
}

/// The order of growth goes on with the constraint to absorb.
proof fn lemma_growth_more(cn: ConstraintNetwork, d: Seq<DomainMask>, live_only: bool, focus: usize, max_rows: int, taken: Seq<usize>, acc: Relation, near: Seq<usize>, t: usize, j: Relation)
    requires
        taken.len() > 0,
        growth(cn, d, live_only, focus, max_rows, taken, acc),
        forall|u: usize| #[trigger] near.contains(u) <==> on_frontier(cn, d, live_only, taken, acc.vars@, u as int),
        absorbs(cn, d, |u: usize| near.contains(u), acc, max_rows, t, j),
    ensures
        growth(cn, d, live_only, focus, max_rows, taken.push(t), j),
{
    let more = taken.push(t);
    assert(more.drop_last() =~= taken);
    let f = |u: usize| near.contains(u);
    let g = frontier_of(cn, d, live_only, taken, acc.vars@);
    assert forall|u: usize| #[trigger] f(u) == g(u) by {
        assert(near.contains(u) <==> on_frontier(cn, d, live_only, taken, acc.vars@, u as int));
    }
    assert(f =~= g);
    assert(absorbs(cn, d, g, acc, max_rows, t, j));
    assert(goes_on(cn, d, live_only, max_rows, more.drop_last(), acc, more.last(), j));
    assert(growth(cn, d, live_only, focus, max_rows, more.drop_last(), acc));
}

/// Absorbing one more constraint.
proof fn lemma_absorb(cn: ConstraintNetwork, d: Seq<DomainMask>, live_only: bool, focus: usize, tensors: Seq<usize>, acc: Relation, t: usize, j: Relation)
    requires
        cn.wf(),
        d.len() == cn.n(),
        joined_region(cn, d, live_only, focus, tensors, acc),
        on_frontier(cn, d, live_only, tensors, acc.vars@, t as int),
        joins_tensor(cn, d, acc, t as int, j),
    ensures
        joined_region(cn, d, live_only, focus, tensors.push(t), j),
{
    let tr = choose|tr: Relation| #[trigger] contract::slices(cn.axes(t as int), cn.rows(t as int), d, tr) && contract::joins(acc, tr, j);
    let more = tensors.push(t);
    assert forall|k: int| 0 <= k < more.len() implies (#[trigger] more[k]) < cn.m() && !aside(cn, d, live_only, more[k] as int) by {
        if k < tensors.len() {
            assert(more[k] == tensors[k]);
        }
    }
    assert(more.no_duplicates()) by {
        assert forall|a: int, b: int| 0 <= a < more.len() && 0 <= b < more.len() && a != b implies more[a] != more[b] by {
            if a == tensors.len() && more[b] == t {
                assert(tensors[b] as int == t);
            }
            if b == tensors.len() && more[a] == t {
                assert(tensors[a] as int == t);
            }
        }
    }
    assert forall|v: usize| #[trigger] some_mentions(cn, more, v) <==> (some_mentions(cn, tensors, v) || cn.axes(t as int).contains(v)) by {
        if some_mentions(cn, more, v) {
            let k = choose|k: int| 0 <= k < more.len() && cn.axes((#[trigger] more[k]) as int).contains(v);
            if k < tensors.len() {
                assert(cn.axes(tensors[k] as int).contains(v));
            }
        }
        if some_mentions(cn, tensors, v) {
            let k = choose|k: int| 0 <= k < tensors.len() && cn.axes((#[trigger] tensors[k]) as int).contains(v);
            assert(cn.axes(more[k] as int).contains(v));
        }
        if cn.axes(t as int).contains(v) {
            assert(cn.axes(more[tensors.len() as int] as int).contains(v));
        }
    }
    assert forall|a: Asg| #[trigger] j.holds(a) <==> all_tensors_hold(cn, more, contract::fix(d, a)) by {
        let b = contract::fix(d, a);
        assert(tr.holds(a) <==> network::rows_hold(cn.axes(t as int), cn.rows(t as int), b));
        assert(network::rows_hold(cn.axes(t as int), cn.rows(t as int), b) <==> cn.holds(t as int, b)) by {
            lemma_rows_hold(cn, t as int, b);
        }
        if all_tensors_hold(cn, more, b) {
            assert(all_tensors_hold(cn, tensors, b)) by {
                assert forall|k: int| 0 <= k < tensors.len() implies cn.holds((#[trigger] tensors[k]) as int, b) by {
                    assert(cn.holds(more[k] as int, b));
                }
            }
            assert(cn.holds(more[tensors.len() as int] as int, b));
        }
        if all_tensors_hold(cn, tensors, b) && cn.holds(t as int, b) {
            assert forall|k: int| 0 <= k < more.len() implies cn.holds((#[trigger] more[k]) as int, b) by {
                if k < tensors.len() {
                    assert(cn.holds(tensors[k] as int, b));
                }
            }
        }
        assert(acc.holds(a) <==> all_tensors_hold(cn, tensors, b));
    }
    assert forall|c: spec_fn(int) -> bool, v: usize| #[trigger] closed_set(cn, d, live_only, c) && c(focus as int) && #[trigger] j.vars@.contains(v) implies c(v as int) by {
        if !acc.vars@.contains(v) {
            assert(tr.vars@.contains(v));
            let u = choose|u: usize| #[trigger] acc.vars@.contains(u) && cn.axes(t as int).contains(u);
            assert(c(u as int));
            let x = cn.axes(t as int).index_of(u);
            let y = cn.axes(t as int).index_of(v);
            assert(!d[cn.axes(t as int)[x] as int].fixed());
            assert(!d[cn.axes(t as int)[y] as int].fixed());
        }
    }
}

pub proof fn lemma_rows_hold(cn: ConstraintNetwork, t: int, b: Asg)
    ensures
        network::rows_hold(cn.axes(t), cn.rows(t), b) <==> cn.holds(t, b),
{
    if network::rows_hold(cn.axes(t), cn.rows(t), b) {
        let k = choose|k: int| 0 <= k < cn.rows(t).len() && network::agrees(cn.axes(t), #[trigger] cn.rows(t)[k] as u64, b);
        assert(network::agrees(cn.axes(t), cn.rows(t)[k] as u64, b));
    }
    if cn.holds(t, b) {
        let k = choose|k: int| 0 <= k < cn.rows(t).len() && network::agrees(cn.axes(t), #[trigger] cn.rows(t)[k] as u64, b);
        assert(network::agrees(cn.axes(t), cn.rows(t)[k] as u64, b));
    }
}

/// The region of one constraint.
proof fn lemma_seed(cn: ConstraintNetwork, d: Seq<DomainMask>, live_only: bool, focus: usize, t: usize, rel: Relation)
    requires
        cn.wf(),
        d.len() == cn.n(),
        t < cn.m(),
        focus < cn.n(),
        !d[focus as int].fixed(),
        cn.axes(t as int).contains(focus),
        !aside(cn, d, live_only, t as int),
        contract::slices(cn.axes(t as int), cn.rows(t as int), d, rel),
    ensures
        joined_region(cn, d, live_only, focus, seq![t], rel),
{
    let tensors = seq![t];
    assert forall|v: usize| #[trigger] some_mentions(cn, tensors, v) <==> cn.axes(t as int).contains(v) by {
        if cn.axes(t as int).contains(v) {
            assert(cn.axes(tensors[0] as int).contains(v));
        }
    }
    assert forall|a: Asg| #[trigger] rel.holds(a) <==> all_tensors_hold(cn, tensors, contract::fix(d, a)) by {
        let b = contract::fix(d, a);
        lemma_rows_hold(cn, t as int, b);
        if all_tensors_hold(cn, tensors, b) {
            assert(cn.holds(tensors[0] as int, b));
        }
    }
    assert forall|c: spec_fn(int) -> bool, v: usize| #[trigger] closed_set(cn, d, live_only, c) && c(focus as int) && #[trigger] rel.vars@.contains(v) implies c(v as int) by {
        let x = cn.axes(t as int).index_of(focus);
        let y = cn.axes(t as int).index_of(v);
        assert(!d[cn.axes(t as int)[x] as int].fixed());
        assert(!d[cn.axes(t as int)[y] as int].fixed());
    }
}

/// Permuting the constraints changes nothing.
proof fn lemma_reordered(cn: ConstraintNetwork, d: Seq<DomainMask>, live_only: bool, focus: usize, before: Seq<usize>, after: Seq<usize>, rel: Relation)
    requires
        joined_region(cn, d, live_only, focus, before, rel),
        after.len() == before.len(),
        after.no_duplicates(),
        forall|t: usize| #[trigger] after.contains(t) <==> before.contains(t),
    ensures
        joined_region(cn, d, live_only, focus, after, rel),
        forall|t: int| #[trigger] contract::lists(after, t) <==> contract::lists(before, t),
{
    assert forall|k: int| 0 <= k < after.len() implies (#[trigger] after[k]) < cn.m() && !aside(cn, d, live_only, after[k] as int) by {
        assert(after.contains(after[k]));
        let q = before.index_of(after[k]);
        assert(before[q] < cn.m());
    }
    assert forall|v: usize| #[trigger] some_mentions(cn, after, v) <==> some_mentions(cn, before, v) by {
        if some_mentions(cn, after, v) {
            let k = choose|k: int| 0 <= k < after.len() && cn.axes((#[trigger] after[k]) as int).contains(v);
            assert(after.contains(after[k]));
            let q = before.index_of(after[k]);
            assert(cn.axes(before[q] as int).contains(v));
        }
        if some_mentions(cn, before, v) {
            let k = choose|k: int| 0 <= k < before.len() && cn.axes((#[trigger] before[k]) as int).contains(v);
            assert(before.contains(before[k]));
            assert(after.contains(before[k]));
            let q = after.index_of(before[k]);
            assert(cn.axes(after[q] as int).contains(v));
        }
    }
    assert forall|b: Asg| #[trigger] all_tensors_hold(cn, after, b) <==> all_tensors_hold(cn, before, b) by {
        if all_tensors_hold(cn, after, b) {
            assert forall|k: int| 0 <= k < before.len() implies cn.holds((#[trigger] before[k]) as int, b) by {
                assert(before.contains(before[k]));
                assert(after.contains(before[k]));
                let q = after.index_of(before[k]);
                assert(cn.holds(after[q] as int, b));
            }
        }
        if all_tensors_hold(cn, before, b) {
            assert forall|k: int| 0 <= k < after.len() implies cn.holds((#[trigger] after[k]) as int, b) by {
                assert(after.contains(after[k]));
                let q = before.index_of(after[k]);
                assert(cn.holds(before[q] as int, b));
            }
        }
    }
    assert forall|t: int| #[trigger] contract::lists(after, t) <==> contract::lists(before, t) by {
        if contract::lists(after, t) {
            let k = choose|k: int| 0 <= k < after.len() && (#[trigger] after[k]) as int == t;
            assert(after.contains(after[k]));
            let q = before.index_of(after[k]);
            assert(before[q] as int == t);
        }
        if contract::lists(before, t) {
            let k = choose|k: int| 0 <= k < before.len() && (#[trigger] before[k]) as int == t;
            assert(before.contains(before[k]));
            assert(after.contains(before[k]));
            let q = after.index_of(before[k]);
            assert(after[q] as int == t);
        }
    }
}

/// Grow a region around `focus`. The flag says that nothing that counts is left on its frontier.
fn grow(cn: &ConstraintNetwork, doms: &[DomainMask], focus: usize, max_rows: usize, masks: Option<&[TableMasks]>) -> (r: (Region, Relation, bool))
    requires
        cn.wf(),
        doms@.len() == cn.n(),
        focus < cn.n(),
        !doms@[focus as int].fixed(),
        masks is Some ==> ct::masks_ok(*cn, masks->0@),
        exists|t: int| 0 <= t < cn.m() && (#[trigger] cn.axes(t)).contains(focus) && !aside(*cn, doms@, masks is Some, t),
    ensures
        grown(*cn, doms@, masks is Some, focus, max_rows as int, r.0, r.1),
        r.2 == (forall|t: int| !#[trigger] on_frontier(*cn, doms@, masks is Some, r.0.tensors@, r.1.vars@, t)),
{
    let (seed, first) = cheapest_seed(cn, doms, focus, masks);
    let mut tensors: Vec<usize> = vec![seed];
    let mut acc = first;
    proof {
        lemma_seed(*cn, doms@, masks is Some, focus, seed, acc);
        assert(tensors@ =~= seq![seed]);
        assert(growth(*cn, doms@, masks is Some, focus, max_rows as int, tensors@, acc));
    }
    let mut done = false;
    let mut closed = false;
    while !done
        invariant
            cn.wf(),
            doms@.len() == cn.n(),
            focus < cn.n(),
            masks is Some ==> ct::masks_ok(*cn, masks->0@),
            joined_region(*cn, doms@, masks is Some, focus, tensors@, acc),
            tensors@.len() > 1 ==> acc.rows@.len() <= max_rows,
            growth(*cn, doms@, masks is Some, focus, max_rows as int, tensors@, acc),
            done ==> forall|t: int| #[trigger] on_frontier(*cn, doms@, masks is Some, tensors@, acc.vars@, t) ==> overflows(*cn, doms@, acc, t, max_rows as int),
            done ==> closed == (forall|t: int| !#[trigger] on_frontier(*cn, doms@, masks is Some, tensors@, acc.vars@, t)),
        decreases cn.m() - tensors@.len() + (if done {
            0int
        } else {
            1int
        }),
    {
        proof {
            assert forall|i: int| 0 <= i < acc.vars@.len() implies (#[trigger] acc.vars@[i]) < cn.n() by {
                assert(acc.vars@.contains(acc.vars@[i]));
                let k = choose|k: int| 0 <= k < tensors@.len() && cn.axes((#[trigger] tensors@[k]) as int).contains(acc.vars@[i]);
                assert(cn.tensor_wf(tensors@[k] as int));
                let x = cn.axes(tensors@[k] as int).index_of(acc.vars@[i]);
                assert(cn.axes(tensors@[k] as int)[x] < cn.n());
            }
            lemma_few(tensors@, cn.m());
        }
        let near = frontier(cn, doms, masks, &tensors, &acc.vars);
        proof {
            assert(cn.tensors.len() == cn.m());
            assert forall|k: int| 0 <= k < near@.len() implies (#[trigger] near@[k]) < cn.m() by {
                assert(near@.contains(near@[k]));
            }
        }
        match best_join(cn, doms, &near, &acc, max_rows) {
            Some((t, j)) => {
                let ghost t0 = tensors@;
                proof {
                    assert(near@.contains(t));
                    lemma_absorb(*cn, doms@, masks is Some, focus, tensors@, acc, t, j);
                    lemma_growth_more(*cn, doms@, masks is Some, focus, max_rows as int, tensors@, acc, near@, t, j);
                    lemma_few(tensors@.push(t), cn.m());
                }
                tensors.push(t);
                acc = j;
            },
            None => {
                proof {
                    assert forall|t: int| #[trigger] on_frontier(*cn, doms@, masks is Some, tensors@, acc.vars@, t) implies overflows(*cn, doms@, acc, t, max_rows as int) by {
                        assert(near@.contains(t as usize));
                    }
                    if near@.len() == 0 {
                        assert forall|t: int| !#[trigger] on_frontier(*cn, doms@, masks is Some, tensors@, acc.vars@, t) by {
                            if on_frontier(*cn, doms@, masks is Some, tensors@, acc.vars@, t) {
                                assert(near@.contains(t as usize));
                            }
                        }
                    } else {
                        assert(near@.contains(near@[0]));
                        assert(on_frontier(*cn, doms@, masks is Some, tensors@, acc.vars@, near@[0] as int));
                    }
                }
                closed = near.len() == 0;
                done = true;
            },
        }
    }
    let ghost before = tensors@;
    order::sort_ids(&mut tensors);
    proof {
        assert(taken_in_turn(*cn, doms@, masks is Some, focus, max_rows as int, tensors@, acc)) by {
            reveal(taken_in_turn);
        }
        order::lemma_permutation(before, tensors@);
        before.lemma_multiset_has_no_duplicates();
        tensors@.lemma_multiset_has_no_duplicates_conv();
        lemma_reordered(*cn, doms@, masks is Some, focus, before, tensors@, acc);
        assert(network::ascending_ids(tensors@)) by {
            assert forall|i: int, j: int| 0 <= i < j < tensors@.len() implies tensors@[i] < tensors@[j] by {}
        }
        assert forall|t: int| #[trigger] on_frontier(*cn, doms@, masks is Some, tensors@, acc.vars@, t) == on_frontier(*cn, doms@, masks is Some, before, acc.vars@, t) by {
            assert(contract::lists(tensors@, t) <==> contract::lists(before, t));
        }
        if !closed {
            let t = choose|t: int| #[trigger] on_frontier(*cn, doms@, masks is Some, before, acc.vars@, t);
            assert(on_frontier(*cn, doms@, masks is Some, tensors@, acc.vars@, t));
        } else {
            assert forall|t: int| !#[trigger] on_frontier(*cn, doms@, masks is Some, tensors@, acc.vars@, t) by {
                assert(on_frontier(*cn, doms@, masks is Some, tensors@, acc.vars@, t) == on_frontier(*cn, doms@, masks is Some, before, acc.vars@, t));
            }
        }
    }
    let vars = network::copy_ids(&acc.vars);
    (Region { id: focus, tensors, vars }, acc, closed)
}

/// A list of different numbers below `m` has at most `m` elements.
proof fn lemma_few(s: Seq<usize>, m: int)
    requires
        s.no_duplicates(),
        forall|k: int| 0 <= k < s.len() ==> (#[trigger] s[k]) < m,
        0 <= m,
    ensures
        s.len() <= m,
{
    let all = Seq::new(m as nat, |i: int| i);
    let ints = s.map_values(|x: usize| x as int);
    assert(ints.no_duplicates());
    ints.unique_seq_to_set();
    assert(all.no_duplicates());
    all.unique_seq_to_set();
    assert(ints.to_set().subset_of(all.to_set())) by {
        assert forall|x: int| ints.to_set().contains(x) implies all.to_set().contains(x) by {
            let k = ints.index_of(x);
            assert(s[k] < m);
            assert(all[x] == x);
        }
    }
    vstd::set_lib::lemma_len_subset(ints.to_set(), all.to_set());
}

/// Grow a region around the open variable `focus`: seed with its constraint of fewest sliced
/// rows, and absorb neighbours for as long as the join stays within `max_rows` rows.
pub fn grow_region(cn: &ConstraintNetwork, doms: &[DomainMask], focus: usize, max_rows: usize) -> (r: (Region, Relation))
    requires
        cn.wf(),
        doms@.len() == cn.n(),
        focus < cn.n(),
        !doms@[focus as int].fixed(),
    ensures
        grown(*cn, doms@, false, focus, max_rows as int, r.0, r.1),
{
    proof {
        assert(cn.incidence_wf(focus as int));
        let t = cn.v2t@[focus as int]@[0] as int;
        assert(cn.axes(t).contains(focus as int as usize));
    }
    let (region, rel, _) = grow(cn, doms, focus, max_rows, None);
    (region, rel)
}

/// Grow a region through constraints that are not entailed. The flag says that no such
/// constraint outside the region mentions one of its variables.
pub fn grow_region_with_closure(cn: &ConstraintNetwork, doms: &[DomainMask], focus: usize, max_rows: usize, masks: &[TableMasks]) -> (r: (Region, Relation, bool))
    requires
        cn.wf(),
        doms@.len() == cn.n(),
        focus < cn.n(),
        !doms@[focus as int].fixed(),
        ct::masks_ok(*cn, masks@),
        exists|t: int| 0 <= t < cn.m() && (#[trigger] cn.axes(t)).contains(focus) && !util::entailed(*cn, doms@, t),
    ensures
        grown(*cn, doms@, true, focus, max_rows as int, r.0, r.1),
        r.2 == (forall|t: int| !#[trigger] on_frontier(*cn, doms@, true, r.0.tensors@, r.1.vars@, t)),
{
    proof {
        let t = choose|t: int| 0 <= t < cn.m() && (#[trigger] cn.axes(t)).contains(focus) && !util::entailed(*cn, doms@, t);
        assert(cn.axes(t).contains(focus) && !aside(*cn, doms@, true, t));
    }
    grow(cn, doms, focus, max_rows, Some(masks))
}

/// Regions grown once at the domains of the root, by focus variable.
pub struct RegionCache {
    pub initial_doms: Vec<DomainMask>,
    pub var_to_region: Vec<Option<Region>>,
    pub var_to_configs: Vec<Option<Vec<u64>>>,
    pub max_rows: usize,
}

impl RegionCache {
    /// One place for each variable; what is filled in was grown at the initial domains.
    pub open spec fn wf(self, cn: ConstraintNetwork) -> bool {
        &&& self.initial_doms@.len() == cn.n()
        &&& self.var_to_region@.len() == cn.n()
        &&& self.var_to_configs@.len() == cn.n()
        &&& forall|v: int| 0 <= v < cn.n() ==> ((#[trigger] self.var_to_region@[v]) is Some <==> self.var_to_configs@[v] is Some)
        &&& forall|v: int| 0 <= v < cn.n() && (#[trigger] self.var_to_region@[v]) is Some ==> self.cached(cn, v)
    }

    /// The region of `v` and its configurations, as grown at the initial domains.
    pub open spec fn cached(self, cn: ConstraintNetwork, v: int) -> bool {
        exists|rel: Relation| #[trigger] grown(cn, self.initial_doms@, false, v as usize, self.max_rows as int, self.var_to_region@[v]->0, rel) && self.var_to_configs@[v]->0@ == rel.rows@
    }

    /// An empty cache at the domains given.
    pub fn new(cn: &ConstraintNetwork, doms: &[DomainMask], max_rows: usize) -> (r: RegionCache)
        requires
            doms@.len() == cn.n(),
        ensures
            r.wf(*cn),
            r.initial_doms@ == doms@,
            r.max_rows == max_rows,
            forall|v: int| 0 <= v < cn.n() ==> (#[trigger] r.var_to_region@[v]) is None,
    {
        let n: usize = cn.vars.len();
        let mut initial_doms: Vec<DomainMask> = Vec::new();
        let mut var_to_region: Vec<Option<Region>> = Vec::new();
        let mut var_to_configs: Vec<Option<Vec<u64>>> = Vec::new();
        let mut v: usize = 0;
        while v < n
            invariant
                v <= n == doms@.len(),
                initial_doms@ == doms@.take(v as int),
                var_to_region@.len() == v,
                var_to_configs@.len() == v,
                forall|u: int| 0 <= u < v ==> (#[trigger] var_to_region@[u]) is None,
                forall|u: int| 0 <= u < v ==> (#[trigger] var_to_configs@[u]) is None,
            decreases n - v,
        {
            proof {
                seqs::lemma_take_next(doms@, v as int);
            }
            initial_doms.push(doms[v]);
            var_to_region.push(None);
            var_to_configs.push(None);
            v += 1;
        }
        proof {
            seqs::lemma_take_all(doms@);
        }
        RegionCache { initial_doms, var_to_region, var_to_configs, max_rows }
    }

    /// Grow the region of `var_id` at the initial domains, unless it is there already.
    pub fn ensure_region(&mut self, cn: &ConstraintNetwork, var_id: usize)
        requires
            cn.wf(),
            old(self).wf(*cn),
            var_id < cn.n(),
            !old(self).initial_doms@[var_id as int].fixed(),
        ensures
            final(self).wf(*cn),
            final(self).initial_doms == old(self).initial_doms,
            final(self).max_rows == old(self).max_rows,
            final(self).var_to_region@[var_id as int] is Some,
            old(self).var_to_region@[var_id as int] is Some ==> *final(self) == *old(self),
            exists|rel: Relation|
                #[trigger] grown(*cn, old(self).initial_doms@, false, var_id, old(self).max_rows as int, final(self).var_to_region@[var_id as int]->0, rel) && final(self).var_to_configs@[var_id as int]->0@ == rel.rows@,
            forall|v: int| 0 <= v < cn.n() && v != var_id ==> #[trigger] final(self).var_to_region@[v] == old(self).var_to_region@[v],
            forall|v: int| 0 <= v < cn.n() && v != var_id ==> #[trigger] final(self).var_to_configs@[v] == old(self).var_to_configs@[v],
    {
        proof {
            if self.var_to_region@[var_id as int] is Some {
                assert(self.cached(*cn, var_id as int));
            }
        }
        if self.var_to_region[var_id].is_none() {
            let (region, rel) = grow_region(cn, self.initial_doms.as_slice(), var_id, self.max_rows);
            let ghost before = *self;
            let ghost whole = rel;
            self.var_to_region.set(var_id, Some(region));
            self.var_to_configs.set(var_id, Some(rel.rows));
            proof {
                assert forall|v: int| 0 <= v < cn.n() && (#[trigger] self.var_to_region@[v]) is Some implies self.cached(*cn, v) by {
                    if v == var_id {
                        assert(grown(*cn, self.initial_doms@, false, v as usize, self.max_rows as int, self.var_to_region@[v]->0, whole));
                    } else {
                        assert(before.cached(*cn, v));
                        let r = choose|r: Relation| #[trigger] grown(*cn, before.initial_doms@, false, v as usize, before.max_rows as int, before.var_to_region@[v]->0, r) && before.var_to_configs@[v]->0@ == r.rows@;
                        assert(grown(*cn, self.initial_doms@, false, v as usize, self.max_rows as int, self.var_to_region@[v]->0, r));
                    }
                }
                assert forall|v: int| 0 <= v < cn.n() implies ((#[trigger] self.var_to_region@[v]) is Some <==> self.var_to_configs@[v] is Some) by {
                    assert(before.var_to_region@[v] is Some <==> before.var_to_configs@[v] is Some);
                }
            }
        }
    }
}

/// Contracting a grown region gives back the variables and the rows of the relation that it was
/// grown with.
pub proof fn law_contracting_a_grown_region(cn: ConstraintNetwork, d: Seq<DomainMask>, live_only: bool, focus: usize, max_rows: int, region: Region, rel: Relation, rows: Seq<u64>, vars: Seq<usize>)
    requires
        grown(cn, d, live_only, focus, max_rows, region, rel),
        vars == contract::open_vars(region.vars@, d),
        order::ascending64(rows),
        contract::rows_below(rows, vars.len() as int),
        forall|a: Asg| #[trigger] contract::some_row(vars, rows, a) <==> (forall|k: int|
            0 <= k < region.tensors@.len() ==> cn.holds((#[trigger] region.tensors@[k]) as int, contract::fix(d, a))),
    ensures
        vars == rel.vars@,
        rows == rel.rows@,
{
    let p = |v: usize| !d[v as int].fixed();
    assert(region.vars@.filter(p) =~= region.vars@) by {
        assert forall|i: int| 0 <= i < region.vars@.len() implies p(#[trigger] region.vars@[i]) by {
            assert(rel.vars@.contains(region.vars@[i]));
        }
        lemma_filter_all(region.vars@, p);
    }
    assert forall|a: Asg| #[trigger] contract::some_row(rel.vars@, rows, a) <==> contract::some_row(rel.vars@, rel.rows@, a) by {
        assert(rel.holds(a) <==> all_tensors_hold(cn, region.tensors@, contract::fix(d, a)));
    }
    contract::lemma_rows_unique(rel.vars@, rows, rel.rows@);
}

proof fn lemma_filter_all(s: Seq<usize>, p: spec_fn(usize) -> bool)
    requires
        forall|i: int| 0 <= i < s.len() ==> p(#[trigger] s[i]),
    ensures
        s.filter(p) == s,
    decreases s.len(),
{
    reveal(Seq::filter);
    if s.len() > 0 {
        let t = s.drop_last();
        assert forall|i: int| 0 <= i < t.len() implies p(#[trigger] t[i]) by {
            assert(t[i] == s[i]);
        }
        lemma_filter_all(t, p);
        assert(p(s[s.len() - 1]));
        assert(s =~= t.push(s.last()));
    } else {
        assert(s.filter(p) =~= s);
    }
}

} // verus!
