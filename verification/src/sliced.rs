//! Constraints that have become constant.
use vstd::prelude::*;

use crate::contract;
use crate::ct;
use crate::domain::{Asg, DomainMask};
use crate::network;
use crate::network::ConstraintNetwork;
use crate::propagate;
use crate::semiring::Weight;
use crate::util;
use crate::weighted;

verus! {

/// Two weights that compare as equal.
pub open spec fn alike<W: Weight>(x: W, y: W) -> bool {
    x.exact() && y.exact() && x.val() == y.val()
}

/// Row `k` of constraint `t` has the fixed values.
pub open spec fn passes(cn: ConstraintNetwork, d: Seq<DomainMask>, t: int, k: int) -> bool {
    propagate::respects(d, cn.axes(t), cn.rows(t)[k] as u64)
}

/// With the fixed values, the constraint holds for all others, and any two of its rows compare
/// as equal in weight.
pub open spec fn uniform<W: Weight>(cn: ConstraintNetwork, weights: Seq<Vec<W>>, d: Seq<DomainMask>, t: int) -> bool {
    &&& util::entailed(cn, d, t)
    &&& forall|j: int, k: int|
        0 <= j < cn.rows(t).len() && 0 <= k < cn.rows(t).len() && j != k && #[trigger] passes(cn, d, t, j) && #[trigger] passes(cn, d, t, k) ==> alike(weights[t]@[j], weights[t]@[k])
}

/// The weight of an assignment is that of the row it agrees with.
pub proof fn lemma_tensor_row<W: Weight>(cn: ConstraintNetwork, weights: Seq<Vec<W>>, t: int, k: int, a: Asg)
    requires
        cn.tensor_wf(t),
        0 <= k < cn.rows(t).len(),
        network::agrees(cn.axes(t), cn.rows(t)[k] as u64, a),
    ensures
        weighted::tensor_weight(cn, weights, t, a) == weights[t]@[k].val(),
{
    lemma_rows_upto(cn, weights, t, k, a, cn.rows(t).len() as int);
    let rows = weighted::weighted_rows(cn, weights, t);
    assert(rows.take(rows.len() as int) =~= rows);
}

proof fn lemma_rows_upto<W: Weight>(cn: ConstraintNetwork, weights: Seq<Vec<W>>, t: int, k: int, a: Asg, n: int)
    requires
        cn.tensor_wf(t),
        0 <= k < cn.rows(t).len(),
        0 <= n <= cn.rows(t).len(),
        network::agrees(cn.axes(t), cn.rows(t)[k] as u64, a),
    ensures
        weighted::weight_at(cn.axes(t), weighted::weighted_rows(cn, weights, t).take(n), a) == (if k < n {
            weights[t]@[k].val()
        } else {
            0real
        }),
    decreases n,
{
    let rows = weighted::weighted_rows(cn, weights, t);
    if n > 0 {
        lemma_rows_upto(cn, weights, t, k, a, n - 1);
        assert(rows.take(n).drop_last() =~= rows.take(n - 1));
        assert(rows.take(n).last() == rows[n - 1]);
        if k != n - 1 && network::agrees(cn.axes(t), rows[n - 1].0, a) {
            assert(bits_below(cn, t, k) && bits_below(cn, t, n - 1));
            contract::lemma_row_unique(cn.axes(t), cn.rows(t)[k] as u64, cn.rows(t)[n - 1] as u64, a);
            assert(cn.rows(t)[k] == cn.rows(t)[n - 1]);
        }
    }
}

spec fn bits_below(cn: ConstraintNetwork, t: int, k: int) -> bool {
    crate::bits::below(cn.rows(t)[k] as u64, cn.axes(t).len() as int)
}

/// A weight that is not zero comes from a row.
pub proof fn lemma_weight_holds<W: Weight>(cn: ConstraintNetwork, weights: Seq<Vec<W>>, t: int, a: Asg)
    requires
        weighted::tensor_weight(cn, weights, t, a) != 0real,
    ensures
        cn.holds(t, a),
{
    let rows = weighted::weighted_rows(cn, weights, t);
    if !cn.holds(t, a) {
        assert forall|i: int| 0 <= i < rows.len() implies !network::agrees(cn.axes(t), (#[trigger] rows[i]).0, a) by {
            assert(!network::agrees(cn.axes(t), cn.rows(t)[i] as u64, a));
        }
        weighted::lemma_weight_none(cn.axes(t), rows, a);
    }
}

/// The rows of an assignment with the fixed values pass.
pub proof fn lemma_agreeing_passes(cn: ConstraintNetwork, d: Seq<DomainMask>, t: int, k: int, a: Asg)
    requires
        cn.tensor_wf(t),
        d.len() == cn.n(),
        0 <= k < cn.rows(t).len(),
        util::keeps_fixed(d, a),
        network::agrees(cn.axes(t), cn.rows(t)[k] as u64, a),
    ensures
        passes(cn, d, t, k),
{
    assert forall|i: int| 0 <= i < cn.axes(t).len() && d[(#[trigger] cn.axes(t)[i]) as int].fixed() implies crate::bits::bit(cn.rows(t)[k] as u64, i) == (d[cn.axes(t)[i] as int] == DomainMask::D1) by {
        assert(cn.axes(t)[i] < cn.n());
        assert(a(cn.axes(t)[i] as int) == (d[cn.axes(t)[i] as int] == DomainMask::D1));
    }
}

/// A uniform constraint gives one weight to all assignments with the fixed values.
pub proof fn lemma_uniform_weight<W: Weight>(cn: ConstraintNetwork, weights: Seq<Vec<W>>, d: Seq<DomainMask>, t: int, k: int, a: Asg)
    requires
        cn.wf(),
        0 <= t < cn.m(),
        d.len() == cn.n(),
        uniform(cn, weights, d, t),
        0 <= k < cn.rows(t).len(),
        passes(cn, d, t, k),
        util::keeps_fixed(d, a),
    ensures
        weighted::tensor_weight(cn, weights, t, a) == weights[t]@[k].val(),
{
    assert(cn.tensor_wf(t));
    assert(cn.holds(t, a));
    let j = choose|j: int| 0 <= j < cn.rows(t).len() && network::agrees(cn.axes(t), #[trigger] cn.rows(t)[j] as u64, a);
    lemma_agreeing_passes(cn, d, t, j, a);
    lemma_tensor_row(cn, weights, t, j, a);
    if j != k {
        assert(alike(weights[t]@[j], weights[t]@[k]));
    }
}

/// A uniform constraint stays uniform as more variables are fixed.
pub proof fn lemma_uniform_later<W: Weight>(cn: ConstraintNetwork, weights: Seq<Vec<W>>, d: Seq<DomainMask>, e: Seq<DomainMask>, t: int)
    requires
        cn.wf(),
        0 <= t < cn.m(),
        d.len() == cn.n(),
        e.len() == cn.n(),
        uniform(cn, weights, d, t),
        forall|v: int| 0 <= v < d.len() && (#[trigger] d[v]).fixed() ==> e[v] == d[v],
    ensures
        uniform(cn, weights, e, t),
{
    assert(cn.tensor_wf(t));
    util::law_entailment_is_monotone(cn, d, e, t);
    assert forall|j: int, k: int|
        0 <= j < cn.rows(t).len() && 0 <= k < cn.rows(t).len() && j != k && #[trigger] passes(cn, e, t, j) && #[trigger] passes(cn, e, t, k) implies alike(weights[t]@[j], weights[t]@[k]) by {
        lemma_passes_wider(cn, d, e, t, j);
        lemma_passes_wider(cn, d, e, t, k);
    }
}

proof fn lemma_passes_wider(cn: ConstraintNetwork, d: Seq<DomainMask>, e: Seq<DomainMask>, t: int, k: int)
    requires
        cn.tensor_wf(t),
        d.len() == cn.n(),
        passes(cn, e, t, k),
        forall|v: int| 0 <= v < d.len() && (#[trigger] d[v]).fixed() ==> e[v] == d[v],
    ensures
        passes(cn, d, t, k),
{
    assert forall|i: int| 0 <= i < cn.axes(t).len() && d[(#[trigger] cn.axes(t)[i]) as int].fixed() implies crate::bits::bit(cn.rows(t)[k] as u64, i) == (d[cn.axes(t)[i] as int] == DomainMask::D1) by {
        assert(cn.axes(t)[i] < cn.n());
        assert(e[cn.axes(t)[i] as int] == d[cn.axes(t)[i] as int]);
    }
}

/// An arc-consistent constraint whose variables are all fixed is uniform.
pub proof fn lemma_decided_uniform<W: Weight>(cn: ConstraintNetwork, weights: Seq<Vec<W>>, d: Seq<DomainMask>, t: int)
    requires
        cn.wf(),
        0 <= t < cn.m(),
        ct::closed_under(cn, d),
        !util::has_open(cn, d, t),
    ensures
        uniform(cn, weights, d, t),
{
    assert(cn.tensor_wf(t));
    assert(ct::consistent_at(cn, d, t));
    let r = choose|r: int| 0 <= r < cn.rows(t).len() && ct::admits(d, cn.axes(t), #[trigger] cn.rows(t)[r] as u64);
    assert forall|i: int| 0 <= i < cn.axes(t).len() implies d[(#[trigger] cn.axes(t)[i]) as int].fixed() by {}
    assert forall|a: Asg| util::keeps_fixed(d, a) implies #[trigger] cn.holds(t, a) by {
        assert(network::agrees(cn.axes(t), cn.rows(t)[r] as u64, a)) by {
            assert forall|i: int| 0 <= i < cn.axes(t).len() implies crate::bits::bit(cn.rows(t)[r] as u64, i) == a(#[trigger] cn.axes(t)[i] as int) by {
                let v = cn.axes(t)[i] as int;
                assert(cn.axes(t)[i] < cn.n());
                assert(d[v].fixed());
                assert(d[v].allows(crate::bits::bit(cn.rows(t)[r] as u64, i)));
                assert(a(v) == (d[v] == DomainMask::D1));
            }
        }
    }
    let base: Asg = |v: int| 0 <= v < d.len() && d[v] == DomainMask::D1;
    assert forall|k: int| 0 <= k < cn.rows(t).len() && #[trigger] passes(cn, d, t, k) implies network::agrees(cn.axes(t), cn.rows(t)[k] as u64, base) by {
        assert forall|i: int| 0 <= i < cn.axes(t).len() implies crate::bits::bit(cn.rows(t)[k] as u64, i) == base(#[trigger] cn.axes(t)[i] as int) by {
            assert(cn.axes(t)[i] < cn.n());
            assert(d[cn.axes(t)[i] as int].fixed());
        }
    }
    assert forall|j: int, k: int|
        0 <= j < cn.rows(t).len() && 0 <= k < cn.rows(t).len() && j != k && #[trigger] passes(cn, d, t, j) && #[trigger] passes(cn, d, t, k) implies alike(weights[t]@[j], weights[t]@[k]) by {
        assert(bits_below(cn, t, j) && bits_below(cn, t, k));
        contract::lemma_row_unique(cn.axes(t), cn.rows(t)[j] as u64, cn.rows(t)[k] as u64, base);
        assert(cn.rows(t)[j] == cn.rows(t)[k]);
    }
}

/// The weight of constraint `tid` where it is constant: with the fixed values all rows are
/// there, and no two differ in weight. None where it is not.
pub fn sliced_constant<W: Weight>(cn: &ConstraintNetwork, weights: &[Vec<W>], tid: usize, doms: &[DomainMask]) -> (r: Option<W>)
    requires
        cn.wf(),
        weighted::weights_fit(*cn, weights@),
        tid < cn.m(),
        doms@.len() == cn.n(),
    ensures
        r is Some == uniform(*cn, weights@, doms@, tid as int),
        r is Some ==> forall|a: Asg| util::keeps_fixed(doms@, a) ==> #[trigger] weighted::tensor_weight(*cn, weights@, tid as int, a) == r->0.val(),
{
    let ghost t = tid as int;
    proof {
        assert(cn.tensor_wf(t));
        assert(weights@[t]@.len() == cn.rows(t).len());
    }
    let axes = &cn.tensors[tid].var_axes;
    let (m0, m1) = propagate::compute_query_masks(doms, axes.as_slice());
    let fmask: u64 = m0 as u64 | m1 as u64;
    let mut open: u64 = 0;
    let mut i: usize = 0;
    while i < axes.len()
        invariant
            cn.tensor_wf(t),
            axes@ == cn.axes(t),
            i <= axes@.len() <= 32,
            doms@.len() == cn.n(),
            open == util::open_vars(axes@, doms@, i as int).len(),
            open <= i,
        decreases axes.len() - i,
    {
        assert(axes@[i as int] < cn.n());
        if !doms[axes[i]].is_fixed() {
            open += 1;
        }
        i += 1;
    }
    let support = cn.support(&cn.tensors[tid]);
    let w = &weights[tid];
    let mut count: u64 = 0;
    let mut first: Option<usize> = None;
    let mut k: usize = 0;
    while k < support.len()
        invariant
            cn.wf(),
            cn.tensor_wf(t),
            t == tid < cn.m(),
            doms@.len() == cn.n(),
            axes@ == cn.axes(t),
            support@ == cn.rows(t),
            w@ == weights@[t]@,
            w@.len() == support@.len(),
            propagate::marks_fixed(doms@, axes@, m0, m1),
            fmask == m0 as u64 | m1 as u64,
            k <= support@.len(),
            count == util::passing(*cn, doms@, t, k as int),
            count <= k,
            match first {
                None => count == 0 && forall|j: int| 0 <= j < k ==> !#[trigger] passes(*cn, doms@, t, j),
                Some(f) => {
                    &&& count > 0
                    &&& f < k
                    &&& passes(*cn, doms@, t, f as int)
                    &&& forall|j: int| 0 <= j < f ==> !#[trigger] passes(*cn, doms@, t, j)
                    &&& forall|j: int| 0 <= j < k && j != f && #[trigger] passes(*cn, doms@, t, j) ==> alike(w@[j], w@[f as int])
                },
            },
        decreases support.len() - k,
    {
        let config: u64 = support[k] as u64;
        proof {
            propagate::lemma_query(doms@, axes@, m0, m1, config);
            assert((config & fmask) == m1 as u64 <==> passes(*cn, doms@, t, k as int));
        }
        if (config & fmask) == m1 as u64 {
            count += 1;
            match first {
                None => {
                    first = Some(k);
                },
                Some(f) => {
                    if !w[k].same(&w[f]) {
                        return None;
                    }
                },
            }
        }
        k += 1;
    }
    proof {
        util::lemma_entailed(*cn, doms@, t);
        util::lemma_pow2r_word(open as nat);
        assert(w@.len() == w.len());
    }
    if count == 1u64 << open {
        match first {
            None => None,
            Some(f) => {
                proof {
                    assert(util::entailed(*cn, doms@, t));
                    assert forall|j: int, k: int|
                        0 <= j < cn.rows(t).len() && 0 <= k < cn.rows(t).len() && j != k && #[trigger] passes(*cn, doms@, t, j) && #[trigger] passes(*cn, doms@, t, k) implies alike(weights@[t]@[j], weights@[t]@[k]) by {}
                    assert(uniform(*cn, weights@, doms@, t));
                    assert forall|a: Asg| util::keeps_fixed(doms@, a) implies #[trigger] weighted::tensor_weight(*cn, weights@, t, a) == w@[f as int].val() by {
                        lemma_uniform_weight(*cn, weights@, doms@, t, f as int, a);
                    }
                }
                Some(w[f].copy())
            },
        }
    } else {
        None
    }
}

} // verus!
