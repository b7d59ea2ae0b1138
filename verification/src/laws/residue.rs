//! What the measures of a conditioned network count.
use vstd::prelude::*;

use crate::bits;
use crate::components;
use crate::ct::RSparseBitSet;
use crate::domain::DomainMask;
use crate::laws::sizes;
use crate::network;
use crate::network::ConstraintNetwork;
use crate::residual;
use crate::residual::ResidualDiagnostics;
use crate::util;

verus! {

/// A sum is what adding up from the left gives.
pub proof fn law_sums_add_up(s: Seq<nat>)
    ensures
        residual::sum_of(s) == s.fold_left(0nat, |a: nat, x: nat| a + x),
    decreases s.len(),
{
    reveal(Seq::fold_left);
    if s.len() > 0 {
        law_sums_add_up(s.drop_last());
    }
}

/// The largest of numbers is one of them and no less than any; of no numbers it is zero.
pub proof fn law_largest_bounds_all(s: Seq<nat>)
    ensures
        forall|i: int| 0 <= i < s.len() ==> (#[trigger] s[i]) <= residual::max_of(s),
        s.len() > 0 ==> s.contains(residual::max_of(s)),
        s.len() == 0 ==> residual::max_of(s) == 0,
    decreases s.len(),
{
    if s.len() > 0 {
        let t = s.drop_last();
        law_largest_bounds_all(t);
        assert forall|i: int| 0 <= i < s.len() implies (#[trigger] s[i]) <= residual::max_of(s) by {
            if i < t.len() {
                assert(t[i] == s[i]);
            }
        }
        if s.last() > residual::max_of(t) || t.len() == 0 {
            assert(s[s.len() - 1] == residual::max_of(s));
        } else {
            let i = t.index_of(residual::max_of(t));
            assert(s[i] == residual::max_of(s));
        }
    }
}

/// The number of set bits of a word is the number of places whose bit is set.
pub proof fn law_set_bits_are_counted(x: u64, n: int)
    requires
        0 <= n <= 64,
    ensures
        bits::ones_upto(x, n) == Set::new(|i: int| 0 <= i < n && bits::bit(x, i)).len(),
        bits::ones(x) == Set::new(|i: int| 0 <= i < 64 && bits::bit(x, i)).len(),
{
    lemma_ones(x, n);
    lemma_ones(x, 64);
    assert(sizes::places(n, |i: int| bits::bit(x, i)) =~= Set::new(|i: int| 0 <= i < n && bits::bit(x, i)));
    assert(sizes::places(64, |i: int| bits::bit(x, i)) =~= Set::new(|i: int| 0 <= i < 64 && bits::bit(x, i)));
}

proof fn lemma_ones(x: u64, n: int)
    requires
        0 <= n,
    ensures
        sizes::places(n, |i: int| bits::bit(x, i)).finite(),
        bits::ones_upto(x, n) == sizes::places(n, |i: int| bits::bit(x, i)).len(),
    decreases n,
{
    let p = |i: int| bits::bit(x, i);
    if n > 0 {
        lemma_ones(x, n - 1);
        sizes::lemma_next_place(n - 1, p);
    } else {
        sizes::lemma_no_places(0, p);
    }
}

/// Row `r` of the words is set.
pub open spec fn row_set(words: Seq<u64>, r: int) -> bool {
    bits::bit(words[r / 64], r % 64)
}

/// The rows left of a table are its places whose bit is set.
pub proof fn law_rows_left_are_counted(words: Seq<u64>)
    ensures
        residual::rows_set(words, words.len() as int) == Set::new(|r: int| 0 <= r < 64 * words.len() && row_set(words, r)).len(),
{
    let p = |r: int| row_set(words, r);
    lemma_rows(words, words.len() as int);
    assert(sizes::places(64 * words.len() as int, p) =~= Set::new(|r: int| 0 <= r < 64 * words.len() && row_set(words, r)));
}

proof fn lemma_rows(words: Seq<u64>, k: int)
    requires
        0 <= k <= words.len(),
    ensures
        sizes::places(64 * k, |r: int| row_set(words, r)).finite(),
        residual::rows_set(words, k) == sizes::places(64 * k, |r: int| row_set(words, r)).len(),
    decreases k,
{
    let p = |r: int| row_set(words, r);
    if k == 0 {
        sizes::lemma_no_places(0, p);
    } else {
        lemma_rows(words, k - 1);
        lemma_rows_of_word(words, k - 1, 64);
    }
}

proof fn lemma_rows_of_word(words: Seq<u64>, k: int, n: int)
    requires
        0 <= k < words.len(),
        0 <= n <= 64,
        sizes::places(64 * k, |r: int| row_set(words, r)).finite(),
    ensures
        sizes::places(64 * k + n, |r: int| row_set(words, r)).finite(),
        sizes::places(64 * k + n, |r: int| row_set(words, r)).len() == sizes::places(64 * k, |r: int| row_set(words, r)).len() + bits::ones_upto(words[k], n),
    decreases n,
{
    let p = |r: int| row_set(words, r);
    if n > 0 {
        lemma_rows_of_word(words, k, n - 1);
        let r = 64 * k + n - 1;
        sizes::lemma_next_place(r, p);
        assert(r / 64 == k && r % 64 == n - 1);
    }
}

proof fn lemma_unfixed(d: Seq<DomainMask>, n: int)
    requires
        0 <= n,
    ensures
        sizes::places(n, |v: int| !d[v].fixed()).finite(),
        util::unfixed(d, n) == sizes::places(n, |v: int| !d[v].fixed()).len(),
    decreases n,
{
    let p = |v: int| !d[v].fixed();
    if n > 0 {
        lemma_unfixed(d, n - 1);
        sizes::lemma_next_place(n - 1, p);
    } else {
        sizes::lemma_no_places(0, p);
    }
}

/// The open variables are those whose domain has not come down to one value.
pub proof fn law_open_variables_are_counted(d: Seq<DomainMask>)
    ensures
        util::unfixed(d, d.len() as int) == Set::new(|v: int| 0 <= v < d.len() && d[v] != DomainMask::D0 && d[v] != DomainMask::D1).len(),
{
    lemma_unfixed(d, d.len() as int);
    assert(sizes::places(d.len() as int, |v: int| !d[v].fixed()) =~= Set::new(|v: int| 0 <= v < d.len() && d[v] != DomainMask::D0 && d[v] != DomainMask::D1));
}

proof fn lemma_flags(flags: Seq<bool>, n: int)
    requires
        0 <= n,
    ensures
        sizes::places(n, |t: int| flags[t]).finite(),
        residual::set_count(flags, n) == sizes::places(n, |t: int| flags[t]).len(),
    decreases n,
{
    let p = |t: int| flags[t];
    if n > 0 {
        lemma_flags(flags, n - 1);
        sizes::lemma_next_place(n - 1, p);
    } else {
        sizes::lemma_no_places(0, p);
    }
}

proof fn lemma_degree(cn: ConstraintNetwork, live: Seq<bool>, v: int, n: int)
    requires
        0 <= n,
    ensures
        sizes::places(n, |t: int| live[t] && cn.axes(t).contains(v as usize)).finite(),
        residual::degree(cn, live, v, n) == sizes::places(n, |t: int| live[t] && cn.axes(t).contains(v as usize)).len(),
    decreases n,
{
    let p = |t: int| live[t] && cn.axes(t).contains(v as usize);
    if n > 0 {
        lemma_degree(cn, live, v, n - 1);
        sizes::lemma_next_place(n - 1, p);
    } else {
        sizes::lemma_no_places(0, p);
    }
}

/// The degree of a variable is the number of the live constraints that name it.
pub proof fn law_degree_counts_constraints(cn: ConstraintNetwork, live: Seq<bool>, v: int)
    requires
        live.len() == cn.m(),
    ensures
        residual::degree(cn, live, v, cn.m()) == Set::new(|t: int| 0 <= t < cn.m() && live[t] && cn.axes(t).contains(v as usize)).len(),
{
    assert(cn.tensors.len() == cn.m());
    lemma_degree(cn, live, v, cn.m());
    assert(sizes::places(cn.m(), |t: int| live[t] && cn.axes(t).contains(v as usize)) =~= Set::new(|t: int| 0 <= t < cn.m() && live[t] && cn.axes(t).contains(v as usize)));
}

proof fn lemma_open_axes(d: Seq<DomainMask>, axes: Seq<usize>, k: int)
    requires
        0 <= k,
    ensures
        sizes::places(k, |j: int| !d[axes[j] as int].fixed()).finite(),
        residual::open_axes(d, axes, k) == sizes::places(k, |j: int| !d[axes[j] as int].fixed()).len(),
    decreases k,
{
    let p = |j: int| !d[axes[j] as int].fixed();
    if k > 0 {
        lemma_open_axes(d, axes, k - 1);
        sizes::lemma_next_place(k - 1, p);
    } else {
        sizes::lemma_no_places(0, p);
    }
}

/// The number of constraints, below `k`, that are live and name a variable of the part.
proof fn lemma_touching(cn: ConstraintNetwork, live: Seq<bool>, comp: Seq<usize>, k: int)
    requires
        0 <= k,
    ensures
        sizes::places(k, |t: int| live[t] && components::meets(cn.axes(t), comp)).finite(),
        residual::touching(cn, live, comp, k) == sizes::places(k, |t: int| live[t] && components::meets(cn.axes(t), comp)).len(),
    decreases k,
{
    let p = |t: int| live[t] && components::meets(cn.axes(t), comp);
    if k > 0 {
        lemma_touching(cn, live, comp, k - 1);
        sizes::lemma_next_place(k - 1, p);
        assert(residual::touches(cn.axes(k - 1), comp, cn.axes(k - 1).len() as int) == components::meets(cn.axes(k - 1), comp));
    } else {
        sizes::lemma_no_places(0, p);
    }
}

/// The constraint of the place `i` among the live ones.
proof fn lemma_listed(cn: ConstraintNetwork, d: Seq<DomainMask>, tables: Seq<RSparseBitSet>, live: Seq<bool>, k: int)
    requires
        0 <= k,
    ensures
        residual::arities(cn, d, live, k).len() == residual::set_count(live, k),
        residual::row_counts(tables, live, k).len() == residual::set_count(live, k),
        forall|t: int| 0 <= t < k && #[trigger] live[t] ==> 0 <= residual::set_count(live, t) < residual::set_count(live, k)
            && residual::arities(cn, d, live, k)[residual::set_count(live, t) as int] == residual::open_axes(d, cn.axes(t), cn.axes(t).len() as int)
            && residual::row_counts(tables, live, k)[residual::set_count(live, t) as int] == residual::rows_set(tables[t].words@, tables[t].words@.len() as int),
    decreases k,
{
    if k > 0 {
        lemma_listed(cn, d, tables, live, k - 1);
        assert forall|t: int| 0 <= t < k && #[trigger] live[t] implies 0 <= residual::set_count(live, t) < residual::set_count(live, k)
            && residual::arities(cn, d, live, k)[residual::set_count(live, t) as int] == residual::open_axes(d, cn.axes(t), cn.axes(t).len() as int)
            && residual::row_counts(tables, live, k)[residual::set_count(live, t) as int] == residual::rows_set(tables[t].words@, tables[t].words@.len() as int) by {
            if t < k - 1 {
                assert(live[t]);
            }
        }
    }
}

/// The constrained variables are, in ascending order, the open ones that a live constraint names.
pub proof fn law_constrained_variables(cn: ConstraintNetwork, d: Seq<DomainMask>, live: Seq<bool>)
    requires
        live.len() == cn.m(),
    ensures
        forall|i: int, j: int| 0 <= i < j < residual::constrained_ids(cn, d, live, cn.n()).len() ==> (#[trigger] residual::constrained_ids(cn, d, live, cn.n())[i]) < (#[trigger] residual::constrained_ids(cn, d, live, cn.n())[j]),
        forall|v: usize| #[trigger] residual::constrained_ids(cn, d, live, cn.n()).contains(v) <==> (v < cn.n() && !d[v as int].fixed() && exists|t: int| 0 <= t < cn.m() && #[trigger] live[t] && cn.axes(t).contains(v)),
{
    assert(cn.vars.len() == cn.n());
    assert(cn.tensors.len() == cn.m());
    lemma_constrained(cn, d, live, cn.n());
    let ids = residual::constrained_ids(cn, d, live, cn.n());
    assert forall|v: usize| #[trigger] ids.contains(v) <==> (v < cn.n() && !d[v as int].fixed() && exists|t: int| 0 <= t < cn.m() && #[trigger] live[t] && cn.axes(t).contains(v)) by {
        lemma_positive_degree(cn, live, v, cn.m());
        assert(ids.contains(v) <==> v < cn.n() && residual::constrained(cn, d, live, v as int));
    }
}

proof fn lemma_positive_degree(cn: ConstraintNetwork, live: Seq<bool>, v: usize, k: int)
    requires
        0 <= k,
    ensures
        residual::degree(cn, live, v as int, k) > 0 <==> exists|t: int| 0 <= t < k && #[trigger] live[t] && cn.axes(t).contains(v),
    decreases k,
{
    if k > 0 {
        lemma_positive_degree(cn, live, v, k - 1);
        if live[k - 1] && cn.axes(k - 1).contains(v) {
            assert(0 <= k - 1 < k && live[k - 1] && cn.axes(k - 1).contains(v));
        }
        if exists|t: int| 0 <= t < k - 1 && #[trigger] live[t] && cn.axes(t).contains(v) {
            let t = choose|t: int| 0 <= t < k - 1 && #[trigger] live[t] && cn.axes(t).contains(v);
            assert(0 <= t < k && live[t] && cn.axes(t).contains(v));
        }
    }
}

proof fn lemma_constrained(cn: ConstraintNetwork, d: Seq<DomainMask>, live: Seq<bool>, k: int)
    requires
        0 <= k <= cn.n(),
        cn.n() <= usize::MAX,
    ensures
        forall|i: int, j: int| 0 <= i < j < residual::constrained_ids(cn, d, live, k).len() ==> (#[trigger] residual::constrained_ids(cn, d, live, k)[i]) < (#[trigger] residual::constrained_ids(cn, d, live, k)[j]),
        forall|i: int| 0 <= i < residual::constrained_ids(cn, d, live, k).len() ==> (#[trigger] residual::constrained_ids(cn, d, live, k)[i]) < k,
        forall|v: usize| #[trigger] residual::constrained_ids(cn, d, live, k).contains(v) <==> v < k && residual::constrained(cn, d, live, v as int),
    decreases k,
{
    if k > 0 {
        lemma_constrained(cn, d, live, k - 1);
        let before = residual::constrained_ids(cn, d, live, k - 1);
        let ids = residual::constrained_ids(cn, d, live, k);
        crate::seqs::lemma_push_contains(before, (k - 1) as usize);
        assert forall|v: usize| #[trigger] ids.contains(v) <==> v < k && residual::constrained(cn, d, live, v as int) by {
            assert(before.contains(v) <==> v < k - 1 && residual::constrained(cn, d, live, v as int));
        }
        assert forall|i: int| 0 <= i < ids.len() implies (#[trigger] ids[i]) < k by {
            if i < before.len() {
                assert(ids[i] == before[i]);
            }
        }
        assert forall|i: int, j: int| 0 <= i < j < ids.len() implies (#[trigger] ids[i]) < (#[trigger] ids[j]) by {
            assert(ids[i] == before[i]);
            if j < before.len() {
                assert(ids[j] == before[j]);
            }
        }
    }
}

/// The degrees over the scope, counting the first `k` constraints.
spec fn degrees_below(cn: ConstraintNetwork, live: Seq<bool>, scope: Seq<usize>, k: int) -> Seq<nat> {
    Seq::new(scope.len(), |i: int| residual::degree(cn, live, scope[i] as int, k))
}

/// Sums that differ by one at the places with a property differ by the number of those places.
proof fn lemma_sum_steps(a: Seq<nat>, b: Seq<nat>, p: spec_fn(int) -> bool)
    requires
        a.len() == b.len(),
        forall|i: int| 0 <= i < a.len() ==> (#[trigger] b[i]) == a[i] + (if p(i) {
            1nat
        } else {
            0nat
        }),
    ensures
        sizes::places(a.len() as int, p).finite(),
        residual::sum_of(b) == residual::sum_of(a) + sizes::places(a.len() as int, p).len(),
    decreases a.len(),
{
    if a.len() == 0 {
        sizes::lemma_no_places(0, p);
    } else {
        let n = a.len() - 1;
        let a0 = a.drop_last();
        let b0 = b.drop_last();
        assert forall|i: int| 0 <= i < a0.len() implies (#[trigger] b0[i]) == a0[i] + (if p(i) {
            1nat
        } else {
            0nat
        }) by {
            assert(b0[i] == b[i] && a0[i] == a[i]);
        }
        lemma_sum_steps(a0, b0, p);
        sizes::lemma_next_place(n, p);
        assert(b[n] == a[n] + (if p(n) {
            1nat
        } else {
            0nat
        }));
    }
}

/// As many places of the scope name an axis below `k` as there are open axes below `k`.
proof fn lemma_axes_in_scope(d: Seq<DomainMask>, axes: Seq<usize>, scope: Seq<usize>, k: int)
    requires
        0 <= k <= axes.len(),
        network::distinct(axes),
        scope.no_duplicates(),
        forall|i: int| 0 <= i < scope.len() ==> !d[(#[trigger] scope[i]) as int].fixed(),
        forall|j: int| 0 <= j < axes.len() && !d[(#[trigger] axes[j]) as int].fixed() ==> scope.contains(axes[j]),
    ensures
        sizes::places(scope.len() as int, |i: int| axes.take(k).contains(scope[i])).finite(),
        sizes::places(scope.len() as int, |i: int| axes.take(k).contains(scope[i])).len() == residual::open_axes(d, axes, k),
    decreases k,
{
    let p = |i: int| axes.take(k).contains(scope[i]);
    let n = scope.len() as int;
    if k == 0 {
        assert(sizes::places(n, p) =~= Set::<int>::empty());
    } else {
        let q = |i: int| axes.take(k - 1).contains(scope[i]);
        lemma_axes_in_scope(d, axes, scope, k - 1);
        let v = axes[k - 1];
        crate::seqs::lemma_take_next(axes, k - 1);
        crate::seqs::lemma_push_contains(axes.take(k - 1), v);
        assert(axes.take(k) =~= axes.take(k - 1).push(v));
        if d[v as int].fixed() {
            assert forall|i: int| 0 <= i < n implies #[trigger] p(i) == q(i) by {
                assert(!d[scope[i] as int].fixed());
            }
            sizes::lemma_same_places(n, p, q);
        } else {
            let i0 = scope.index_of(v);
            assert(scope.contains(v));
            assert(!q(i0)) by {
                if axes.take(k - 1).contains(v) {
                    let j = axes.take(k - 1).index_of(v);
                    assert(axes[j] == v && j < k - 1);
                }
            }
            assert(sizes::places(n, p) =~= sizes::places(n, q).insert(i0));
        }
    }
}

proof fn lemma_incidence(cn: ConstraintNetwork, d: Seq<DomainMask>, live: Seq<bool>, scope: Seq<usize>, k: int)
    requires
        cn.wf(),
        live.len() == cn.m(),
        0 <= k <= cn.m(),
        scope.no_duplicates(),
        forall|i: int| 0 <= i < scope.len() ==> !d[(#[trigger] scope[i]) as int].fixed(),
        forall|t: int, j: int| 0 <= t < cn.m() && live[t] && 0 <= j < cn.axes(t).len() && !d[cn.axes(t)[j] as int].fixed() ==> scope.contains(#[trigger] cn.axes(t)[j]),
    ensures
        residual::sum_of(degrees_below(cn, live, scope, k)) == residual::sum_of(residual::arities(cn, d, live, k)),
    decreases k,
{
    if k == 0 {
        lemma_zero_sum(degrees_below(cn, live, scope, 0));
    } else {
        lemma_incidence(cn, d, live, scope, k - 1);
        let a = degrees_below(cn, live, scope, k - 1);
        let b = degrees_below(cn, live, scope, k);
        let axes = cn.axes(k - 1);
        let p = |i: int| live[k - 1] && axes.contains(scope[i]);
        lemma_sum_steps(a, b, p);
        let n = scope.len() as int;
        if live[k - 1] {
            assert(cn.tensor_wf(k - 1));
            lemma_axes_in_scope(d, axes, scope, axes.len() as int);
            crate::seqs::lemma_take_all(axes);
            let q = |i: int| axes.take(axes.len() as int).contains(scope[i]);
            sizes::lemma_same_places(n, p, q);
            let before = residual::arities(cn, d, live, k - 1);
            let x = residual::open_axes(d, axes, axes.len() as int);
            assert(before.push(x).drop_last() =~= before);
        } else {
            assert(sizes::places(n, p) =~= Set::<int>::empty());
        }
    }
}

proof fn lemma_zero_sum(s: Seq<nat>)
    requires
        forall|i: int| 0 <= i < s.len() ==> (#[trigger] s[i]) == 0,
    ensures
        residual::sum_of(s) == 0,
    decreases s.len(),
{
    if s.len() > 0 {
        let t = s.drop_last();
        assert forall|i: int| 0 <= i < t.len() implies (#[trigger] t[i]) == 0 by {
            assert(t[i] == s[i]);
        }
        lemma_zero_sum(t);
    }
}

/// The measures count what they are named for: the open variables, the constraints that are not
/// entailed, for each constrained variable the live constraints that name it, for each live
/// constraint its open axes and its rows left, and for each part the live constraints that touch it.
pub proof fn law_measures_count(cn: ConstraintNetwork, d: Seq<DomainMask>, tables: Seq<RSparseBitSet>, r: ResidualDiagnostics)
    requires
        cn.wf(),
        d.len() == cn.n(),
        residual::measures(cn, d, tables, r),
        forall|v: int| 0 <= v < cn.n() ==> #[trigger] d[v] != DomainMask::NONE,
    ensures
        !r.contradiction,
        r.variables == r.fixed_variables + r.unfixed_variables,
        r.unfixed_variables == Set::new(|v: int| 0 <= v < cn.n() && !d[v].fixed()).len(),
        r.unfixed_variables == r.free_variables + r.constrained_variables,
        r.active_tensors == Set::new(|t: int| 0 <= t < cn.m() && !util::entailed(cn, d, t)).len(),
        r.active_tensors + r.entailed_tensors == cn.m(),
        r.active_degrees@.len() == r.constrained_variables,
        forall|i: int| 0 <= i < r.active_degrees@.len() ==> (#[trigger] r.active_degrees@[i]) == Set::new(|t: int| 0 <= t < cn.m() && !util::entailed(cn, d, t) && cn.axes(t).contains(residual::constrained_ids(cn, d, components::live_flags(cn, d), cn.n())[i])).len(),
        r.residual_arities@.len() == r.active_tensors,
        r.live_rows@.len() == r.active_tensors,
        forall|t: int| 0 <= t < cn.m() && !util::entailed(cn, d, t) ==> r.residual_arities@[Set::new(|u: int| 0 <= u < t && !util::entailed(cn, d, u)).len() as int] == Set::new(|j: int| 0 <= j < (#[trigger] cn.axes(t)).len() && !d[cn.axes(t)[j] as int].fixed()).len(),
        forall|t: int| 0 <= t < cn.m() && !util::entailed(cn, d, t) ==> r.live_rows@[Set::new(|u: int| 0 <= u < t && !util::entailed(cn, d, u)).len() as int] == Set::new(|q: int| 0 <= q < 64 * (#[trigger] tables[t]).words@.len() && row_set(tables[t].words@, q)).len(),
{
    let live = components::live_flags(cn, d);
    let scope = residual::constrained_ids(cn, d, live, cn.n());
    assert(cn.vars.len() == cn.n());
    assert(cn.tensors.len() == cn.m());
    lemma_unfixed(d, cn.n());
    assert(sizes::places(cn.n(), |v: int| !d[v].fixed()) =~= Set::new(|v: int| 0 <= v < cn.n() && !d[v].fixed()));
    lemma_flags(live, cn.m());
    assert(sizes::places(cn.m(), |t: int| live[t]) =~= Set::new(|t: int| 0 <= t < cn.m() && !util::entailed(cn, d, t)));
    assert forall|i: int| 0 <= i < r.active_degrees@.len() implies (#[trigger] r.active_degrees@[i]) == Set::new(|t: int| 0 <= t < cn.m() && !util::entailed(cn, d, t) && cn.axes(t).contains(scope[i])).len() by {
        law_degree_counts_constraints(cn, live, scope[i] as int);
        assert(Set::new(|t: int| 0 <= t < cn.m() && live[t] && cn.axes(t).contains(scope[i])) =~= Set::new(|t: int| 0 <= t < cn.m() && !util::entailed(cn, d, t) && cn.axes(t).contains(scope[i])));
    }
    lemma_listed(cn, d, tables, live, cn.m());
    assert(residual::numbers(r.residual_arities@).len() == r.residual_arities@.len());
    assert(residual::numbers(r.live_rows@).len() == r.live_rows@.len());
    assert forall|t: int| 0 <= t < cn.m() && !util::entailed(cn, d, t) implies r.residual_arities@[Set::new(|u: int| 0 <= u < t && !util::entailed(cn, d, u)).len() as int] == Set::new(|j: int| 0 <= j < (#[trigger] cn.axes(t)).len() && !d[cn.axes(t)[j] as int].fixed()).len() by {
        let at = residual::set_count(live, t) as int;
        lemma_flags(live, t);
        assert(live[t]);
        assert(sizes::places(t, |u: int| live[u]) =~= Set::new(|u: int| 0 <= u < t && !util::entailed(cn, d, u)));
        lemma_open_axes(d, cn.axes(t), cn.axes(t).len() as int);
        assert(sizes::places(cn.axes(t).len() as int, |j: int| !d[cn.axes(t)[j] as int].fixed()) =~= Set::new(|j: int| 0 <= j < cn.axes(t).len() && !d[cn.axes(t)[j] as int].fixed()));
        assert(residual::numbers(r.residual_arities@)[at] == r.residual_arities@[at]);
    }
    assert forall|t: int| 0 <= t < cn.m() && !util::entailed(cn, d, t) implies r.live_rows@[Set::new(|u: int| 0 <= u < t && !util::entailed(cn, d, u)).len() as int] == Set::new(|q: int| 0 <= q < 64 * (#[trigger] tables[t]).words@.len() && row_set(tables[t].words@, q)).len() by {
        let at = residual::set_count(live, t) as int;
        lemma_flags(live, t);
        assert(live[t]);
        assert(sizes::places(t, |u: int| live[u]) =~= Set::new(|u: int| 0 <= u < t && !util::entailed(cn, d, u)));
        law_rows_left_are_counted(tables[t].words@);
        assert(residual::numbers(r.live_rows@)[at] == r.live_rows@[at]);
    }
}

/// Each edge between a constrained variable and a live constraint is counted once from either end:
/// the degrees add up to the number of edges, and so do the arities.
pub proof fn law_edges_are_counted_from_both_ends(cn: ConstraintNetwork, d: Seq<DomainMask>, tables: Seq<RSparseBitSet>, r: ResidualDiagnostics)
    requires
        cn.wf(),
        d.len() == cn.n(),
        residual::measures(cn, d, tables, r),
        forall|v: int| 0 <= v < cn.n() ==> #[trigger] d[v] != DomainMask::NONE,
    ensures
        residual::numbers(r.active_degrees@).fold_left(0nat, |a: nat, x: nat| a + x) == r.active_incidence_edges,
        residual::numbers(r.residual_arities@).fold_left(0nat, |a: nat, x: nat| a + x) == r.active_incidence_edges,
        residual::numbers(r.live_rows@).fold_left(0nat, |a: nat, x: nat| a + x) == r.live_rows_total,
{
    let live = components::live_flags(cn, d);
    let scope = residual::constrained_ids(cn, d, live, cn.n());
    law_constrained_variables(cn, d, live);
    assert(scope.no_duplicates());
    assert forall|i: int| 0 <= i < scope.len() implies !d[(#[trigger] scope[i]) as int].fixed() by {
        assert(scope.contains(scope[i]));
    }
    assert forall|t: int, j: int| 0 <= t < cn.m() && live[t] && 0 <= j < cn.axes(t).len() && !d[cn.axes(t)[j] as int].fixed() implies scope.contains(#[trigger] cn.axes(t)[j]) by {
        assert(cn.tensor_wf(t));
        assert(cn.axes(t).contains(cn.axes(t)[j]));
    }
    lemma_incidence(cn, d, live, scope, cn.m());
    assert(residual::numbers(r.active_degrees@) =~= degrees_below(cn, live, scope, cn.m()));
    law_sums_add_up(residual::numbers(r.active_degrees@));
    law_sums_add_up(residual::numbers(r.residual_arities@));
    law_sums_add_up(residual::numbers(r.live_rows@));
}

/// The parts are measured by their variables and by the live constraints that touch them.
pub proof fn law_parts_are_measured(cn: ConstraintNetwork, live: Seq<bool>, comps: Seq<Vec<usize>>, vs: Seq<usize>, ts: Seq<usize>, k: int)
    requires
        live.len() == cn.m(),
        residual::part_measures(cn, live, comps, vs, ts),
        0 <= k < comps.len(),
    ensures
        vs[k] == comps[k]@.len(),
        ts[k] == Set::new(|t: int| 0 <= t < cn.m() && live[t] && components::meets(cn.axes(t), comps[k]@)).len(),
{
    assert(cn.tensors.len() == cn.m());
    let c = comps[k]@;
    lemma_touching(cn, live, c, cn.m());
    assert(sizes::places(cn.m(), |t: int| live[t] && components::meets(cn.axes(t), c)) =~= Set::new(|t: int| 0 <= t < cn.m() && live[t] && components::meets(cn.axes(t), c)));
}

} // verus!
