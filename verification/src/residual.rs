//! What is left of a network under domains that were only propagated: its size, its shape and
//! its independent parts.

use crate::bits;
use crate::components;
use crate::components::components_of;
use crate::ct;
use crate::ct::{RSparseBitSet, TableMasks};
use crate::domain::DomainMask;
use crate::network::ConstraintNetwork;
use crate::problem::has_contradiction;
use crate::region;
use crate::seqs;
use crate::util;
use vstd::prelude::*;

verus! {

/// The measures of a conditioned network. The lists are over the constraints that still
/// constrain something, over the variables on them, and over their independent parts.
#[derive(Clone, Debug)]
pub struct ResidualDiagnostics {
    pub contradiction: bool,
    pub variables: usize,
    pub fixed_variables: usize,
    pub unfixed_variables: usize,
    pub active_tensors: usize,
    pub entailed_tensors: usize,
    pub constrained_variables: usize,
    pub free_variables: usize,
    pub constrained_components: usize,
    pub components_including_free: usize,
    pub largest_component_variables: usize,
    pub largest_component_tensors: usize,
    pub component_variables: Vec<usize>,
    pub component_tensors: Vec<usize>,
    pub active_incidence_edges: usize,
    pub active_degrees: Vec<usize>,
    pub active_degree_max: usize,
    pub residual_arities: Vec<usize>,
    pub residual_arity_max: usize,
    pub live_rows: Vec<usize>,
    pub live_rows_total: usize,
    pub live_rows_max: usize,
}

/// How many of the first `k` flags are set.
pub open spec fn set_count(flags: Seq<bool>, k: int) -> nat
    decreases k,
{
    if k <= 0 {
        0
    } else {
        set_count(flags, k - 1) + (if flags[k - 1] {
            1nat
        } else {
            0nat
        })
    }
}

/// How many of the first `k` axes are open.
pub open spec fn open_axes(d: Seq<DomainMask>, axes: Seq<usize>, k: int) -> nat
    decreases k,
{
    if k <= 0 {
        0
    } else {
        open_axes(d, axes, k - 1) + (if d[axes[k - 1] as int].fixed() {
            0nat
        } else {
            1nat
        })
    }
}

/// How many of the first `k` constraints are live and name the variable.
pub open spec fn degree(cn: ConstraintNetwork, live: Seq<bool>, v: int, k: int) -> nat
    decreases k,
{
    if k <= 0 {
        0
    } else {
        degree(cn, live, v, k - 1) + (if live[k - 1] && cn.axes(k - 1).contains(v as usize) {
            1nat
        } else {
            0nat
        })
    }
}

/// How many rows are set in the first `k` words.
pub open spec fn rows_set(words: Seq<u64>, k: int) -> nat
    decreases k,
{
    if k <= 0 {
        0
    } else {
        rows_set(words, k - 1) + bits::ones(words[k - 1])
    }
}

/// The numbers of open axes of the live ones of the first `k` constraints.
pub open spec fn arities(cn: ConstraintNetwork, d: Seq<DomainMask>, live: Seq<bool>, k: int) -> Seq<nat>
    decreases k,
{
    if k <= 0 {
        Seq::empty()
    } else if live[k - 1] {
        arities(cn, d, live, k - 1).push(open_axes(d, cn.axes(k - 1), cn.axes(k - 1).len() as int))
    } else {
        arities(cn, d, live, k - 1)
    }
}

/// The numbers of rows left of the live ones of the first `k` constraints.
pub open spec fn row_counts(tables: Seq<RSparseBitSet>, live: Seq<bool>, k: int) -> Seq<nat>
    decreases k,
{
    if k <= 0 {
        Seq::empty()
    } else if live[k - 1] {
        row_counts(tables, live, k - 1).push(rows_set(tables[k - 1].words@, tables[k - 1].words@.len() as int))
    } else {
        row_counts(tables, live, k - 1)
    }
}

/// Open, and on a live constraint.
pub open spec fn constrained(cn: ConstraintNetwork, d: Seq<DomainMask>, live: Seq<bool>, v: int) -> bool {
    !d[v].fixed() && degree(cn, live, v, cn.m()) > 0
}

/// The constrained ones of the first `k` variables.
pub open spec fn constrained_ids(cn: ConstraintNetwork, d: Seq<DomainMask>, live: Seq<bool>, k: int) -> Seq<usize>
    decreases k,
{
    if k <= 0 {
        Seq::empty()
    } else if constrained(cn, d, live, k - 1) {
        constrained_ids(cn, d, live, k - 1).push((k - 1) as usize)
    } else {
        constrained_ids(cn, d, live, k - 1)
    }
}

/// One of the first `k` axes is in the part.
pub open spec fn touches(axes: Seq<usize>, comp: Seq<usize>, k: int) -> bool {
    exists|j: int| 0 <= j < k && comp.contains(#[trigger] axes[j])
}

/// How many of the first `k` constraints are live and name a variable of the part.
pub open spec fn touching(cn: ConstraintNetwork, live: Seq<bool>, comp: Seq<usize>, k: int) -> nat
    decreases k,
{
    if k <= 0 {
        0
    } else {
        touching(cn, live, comp, k - 1) + (if live[k - 1] && touches(cn.axes(k - 1), comp, cn.axes(k - 1).len() as int) {
            1nat
        } else {
            0nat
        })
    }
}

/// The sum of numbers.
pub open spec fn sum_of(s: Seq<nat>) -> nat
    decreases s.len(),
{
    if s.len() == 0 {
        0
    } else {
        sum_of(s.drop_last()) + s.last()
    }
}

/// The largest number, or zero.
pub open spec fn max_of(s: Seq<nat>) -> nat
    decreases s.len(),
{
    if s.len() == 0 {
        0
    } else if s.last() > max_of(s.drop_last()) {
        s.last()
    } else {
        max_of(s.drop_last())
    }
}

/// Machine numbers as numbers.
pub open spec fn numbers(v: Seq<usize>) -> Seq<nat> {
    Seq::new(v.len(), |i: int| v[i] as nat)
}

/// The measures of the independent parts.
pub open spec fn part_measures(cn: ConstraintNetwork, live: Seq<bool>, comps: Seq<Vec<usize>>, vs: Seq<usize>, ts: Seq<usize>) -> bool {
    &&& vs.len() == comps.len()
    &&& ts.len() == comps.len()
    &&& forall|k: int| 0 <= k < comps.len() ==> vs[k] == (#[trigger] comps[k])@.len() && ts[k] == touching(cn, live, comps[k]@, cn.m())
}

/// The measures where the domains are contradictory: nothing is looked at.
pub open spec fn refuted_measures(cn: ConstraintNetwork, d: Seq<DomainMask>, r: ResidualDiagnostics) -> bool {
    &&& r.contradiction
    &&& r.active_tensors == 0
    &&& r.entailed_tensors == cn.m()
    &&& r.constrained_variables == 0
    &&& r.free_variables == r.unfixed_variables
    &&& r.constrained_components == 0
    &&& r.components_including_free == r.unfixed_variables
    &&& r.largest_component_variables == (if r.unfixed_variables > 0 {
        1int
    } else {
        0
    })
    &&& r.largest_component_tensors == 0
    &&& r.component_variables@.len() == 0
    &&& r.component_tensors@.len() == 0
    &&& r.active_incidence_edges == 0
    &&& r.active_degrees@.len() == 0
    &&& r.active_degree_max == 0
    &&& r.residual_arities@.len() == 0
    &&& r.residual_arity_max == 0
    &&& r.live_rows@.len() == 0
    &&& r.live_rows_total == 0
    &&& r.live_rows_max == 0
}

/// The measures of a network that is not refuted.
pub open spec fn open_measures(cn: ConstraintNetwork, d: Seq<DomainMask>, tables: Seq<RSparseBitSet>, r: ResidualDiagnostics) -> bool {
    let live = components::live_flags(cn, d);
    let scope = constrained_ids(cn, d, live, cn.n());
    &&& !r.contradiction
    &&& r.active_tensors == set_count(live, cn.m())
    &&& r.entailed_tensors == cn.m() - r.active_tensors
    &&& r.constrained_variables == scope.len()
    &&& r.free_variables == r.unfixed_variables - r.constrained_variables
    &&& exists|comps: Seq<Vec<usize>>| #[trigger] components::components(cn, d, live, scope, comps) && part_measures(cn, live, comps, r.component_variables@, r.component_tensors@)
    &&& r.constrained_components == r.component_variables@.len()
    &&& r.components_including_free == r.constrained_components + r.free_variables
    &&& r.largest_component_variables == max_of(numbers(r.component_variables@))
    &&& r.largest_component_tensors == max_of(numbers(r.component_tensors@))
    &&& numbers(r.residual_arities@) == arities(cn, d, live, cn.m())
    &&& r.active_incidence_edges == sum_of(arities(cn, d, live, cn.m()))
    &&& r.residual_arity_max == max_of(arities(cn, d, live, cn.m()))
    &&& r.active_degrees@.len() == scope.len()
    &&& forall|i: int| 0 <= i < scope.len() ==> (#[trigger] r.active_degrees@[i]) == degree(cn, live, scope[i] as int, cn.m())
    &&& r.active_degree_max == max_of(numbers(r.active_degrees@))
    &&& numbers(r.live_rows@) == row_counts(tables, live, cn.m())
    &&& r.live_rows_total == sum_of(row_counts(tables, live, cn.m()))
    &&& r.live_rows_max == max_of(row_counts(tables, live, cn.m()))
}

/// The measures of a network under the domains.
pub open spec fn measures(cn: ConstraintNetwork, d: Seq<DomainMask>, tables: Seq<RSparseBitSet>, r: ResidualDiagnostics) -> bool {
    &&& r.variables == cn.n()
    &&& r.unfixed_variables == util::unfixed(d, cn.n())
    &&& r.fixed_variables == cn.n() - r.unfixed_variables
    &&& if exists|v: int| 0 <= v < cn.n() && #[trigger] d[v] == DomainMask::NONE {
        refuted_measures(cn, d, r)
    } else {
        open_measures(cn, d, tables, r)
    }
}

/// The number of words of the first `k` tables.
pub open spec fn word_total(tables: Seq<RSparseBitSet>, k: int) -> nat
    decreases k,
{
    if k <= 0 {
        0
    } else {
        word_total(tables, k - 1) + tables[k - 1].words@.len()
    }
}

/// There are no more rows left than the words have bits.
pub proof fn lemma_rows_bound(tables: Seq<RSparseBitSet>, live: Seq<bool>, k: int)
    requires
        0 <= k <= tables.len(),
    ensures
        sum_of(row_counts(tables, live, k)) <= 64 * word_total(tables, k),
    decreases k,
{
    if k > 0 {
        lemma_rows_bound(tables, live, k - 1);
        if live[k - 1] {
            let before = row_counts(tables, live, k - 1);
            let words = tables[k - 1].words@;
            let x = rows_set(words, words.len() as int);
            lemma_rows_set_bound(words, words.len() as int);
            assert(before.push(x).drop_last() =~= before);
        }
    }
}

proof fn lemma_rows_set_bound(words: Seq<u64>, k: int)
    requires
        0 <= k,
    ensures
        rows_set(words, k) <= 64 * k,
    decreases k,
{
    if k > 0 {
        lemma_rows_set_bound(words, k - 1);
        bits::lemma_ones_bound(words[k - 1], 64);
    }
}

proof fn lemma_open_axes(d: Seq<DomainMask>, axes: Seq<usize>, k: int)
    requires
        k >= 0,
    ensures
        open_axes(d, axes, k) <= k,
    decreases k,
{
    if k > 0 {
        lemma_open_axes(d, axes, k - 1);
    }
}

proof fn lemma_sum_at(s: Seq<nat>, i: int)
    requires
        0 <= i < s.len(),
    ensures
        s[i] <= sum_of(s),
    decreases s.len(),
{
    if i < s.len() - 1 {
        lemma_sum_at(s.drop_last(), i);
    }
}

proof fn lemma_row_counts_grow(tables: Seq<RSparseBitSet>, live: Seq<bool>, k: int, n: int)
    requires
        0 <= k <= n,
    ensures
        sum_of(row_counts(tables, live, k)) <= sum_of(row_counts(tables, live, n)),
    decreases n,
{
    if k < n {
        lemma_row_counts_grow(tables, live, k, n - 1);
        if live[n - 1] {
            let before = row_counts(tables, live, n - 1);
            let x = rows_set(tables[n - 1].words@, tables[n - 1].words@.len() as int);
            assert(before.push(x).drop_last() =~= before);
        }
    }
}

proof fn lemma_rows_set_grow(words: Seq<u64>, k: int, n: int)
    requires
        0 <= k <= n,
    ensures
        rows_set(words, k) <= rows_set(words, n),
    decreases n,
{
    if k < n {
        lemma_rows_set_grow(words, k, n - 1);
    }
}

pub proof fn lemma_unfixed_bound(d: Seq<DomainMask>, k: int)
    requires
        k >= 0,
    ensures
        util::unfixed(d, k) <= k,
    decreases k,
{
    if k > 0 {
        lemma_unfixed_bound(d, k - 1);
    }
}

/// The sum of machine numbers.
fn total(v: &Vec<usize>) -> (r: usize)
    requires
        sum_of(numbers(v@)) <= usize::MAX,
    ensures
        r == sum_of(numbers(v@)),
{
    let ghost s = numbers(v@);
    let mut sum: usize = 0;
    let mut i: usize = 0;
    while i < v.len()
        invariant
            s == numbers(v@),
            sum_of(s) <= usize::MAX,
            i <= v@.len(),
            sum == sum_of(s.take(i as int)),
        decreases v.len() - i,
    {
        proof {
            seqs::lemma_take_next(s, i as int);
            lemma_sum_prefix(s, i + 1);
        }
        sum += v[i];
        i += 1;
    }
    proof {
        seqs::lemma_take_all(s);
    }
    sum
}

proof fn lemma_sum_prefix(s: Seq<nat>, k: int)
    requires
        0 <= k <= s.len(),
    ensures
        sum_of(s.take(k)) <= sum_of(s),
    decreases s.len(),
{
    if k == s.len() {
        seqs::lemma_take_all(s);
    } else {
        lemma_sum_prefix(s.drop_last(), k);
        assert(s.drop_last().take(k) =~= s.take(k));
    }
}

/// The largest of machine numbers.
fn largest(v: &Vec<usize>) -> (r: usize)
    ensures
        r == max_of(numbers(v@)),
{
    let ghost s = numbers(v@);
    let mut best: usize = 0;
    let mut i: usize = 0;
    while i < v.len()
        invariant
            s == numbers(v@),
            i <= v@.len(),
            best == max_of(s.take(i as int)),
        decreases v.len() - i,
    {
        proof {
            seqs::lemma_take_next(s, i as int);
        }
        if v[i] > best {
            best = v[i];
        }
        i += 1;
    }
    proof {
        seqs::lemma_take_all(s);
    }
    best
}

/// Which constraints are live, and how many.
fn live_tensors(cn: &ConstraintNetwork, doms: &[DomainMask], masks: &[TableMasks]) -> (r: (Vec<bool>, usize))
    requires
        cn.wf(),
        doms@.len() == cn.n(),
        ct::masks_ok(*cn, masks@),
    ensures
        r.0@ == components::live_flags(*cn, doms@),
        r.1 == set_count(r.0@, cn.m()),
        r.1 <= cn.m(),
{
    let ghost want = components::live_flags(*cn, doms@);
    let mut live: Vec<bool> = Vec::new();
    let mut count: usize = 0;
    while live.len() < cn.tensors.len()
        invariant
            cn.wf(),
            doms@.len() == cn.n(),
            ct::masks_ok(*cn, masks@),
            want == components::live_flags(*cn, doms@),
            live@.len() <= cn.m(),
            forall|t: int| 0 <= t < live@.len() ==> #[trigger] live@[t] == want[t],
            count == set_count(want, live@.len() as int),
            count <= live@.len(),
        decreases cn.m() - live@.len(),
    {
        let flag = !util::is_entailed(cn, live.len(), doms, masks);
        if flag {
            assert(cn.tensors.len() == cn.m());
            count += 1;
        }
        live.push(flag);
    }
    assert(live@ =~= want);
    (live, count)
}

/// The open axes of each live constraint.
fn open_arities(cn: &ConstraintNetwork, doms: &[DomainMask], live: &Vec<bool>) -> (r: Vec<usize>)
    requires
        cn.wf(),
        doms@.len() == cn.n(),
        live@.len() == cn.m(),
    ensures
        numbers(r@) == arities(*cn, doms@, live@, cn.m()),
{
    let mut out: Vec<usize> = Vec::new();
    let mut t: usize = 0;
    assert(numbers(out@) =~= arities(*cn, doms@, live@, 0));
    while t < cn.tensors.len()
        invariant
            cn.wf(),
            doms@.len() == cn.n(),
            live@.len() == cn.m(),
            t <= cn.m(),
            numbers(out@) == arities(*cn, doms@, live@, t as int),
        decreases cn.m() - t,
    {
        if live[t] {
            let ghost axes = cn.axes(t as int);
            let mut count: usize = 0;
            let mut j: usize = 0;
            assert(cn.tensor_wf(t as int));
            while j < cn.tensors[t].var_axes.len()
                invariant
                    t < cn.m(),
                    axes == cn.axes(t as int),
                    axes.len() <= 32,
                    doms@.len() == cn.n(),
                    forall|i: int| 0 <= i < axes.len() ==> (#[trigger] axes[i]) < cn.n(),
                    j <= axes.len(),
                    count <= j,
                    count == open_axes(doms@, axes, j as int),
                decreases axes.len() - j,
            {
                if !doms[cn.tensors[t].var_axes[j]].is_fixed() {
                    count += 1;
                }
                j += 1;
            }
            let ghost before = out@;
            out.push(count);
            assert(numbers(out@) =~= numbers(before).push(count as nat));
        }
        t += 1;
    }
    out
}

/// The rows left of each live constraint.
fn rows_left(tables: &[RSparseBitSet], live: &Vec<bool>) -> (r: Vec<usize>)
    requires
        tables@.len() == live@.len(),
        sum_of(row_counts(tables@, live@, live@.len() as int)) <= usize::MAX,
    ensures
        numbers(r@) == row_counts(tables@, live@, live@.len() as int),
{
    let ghost n = live@.len() as int;
    let mut out: Vec<usize> = Vec::new();
    let mut t: usize = 0;
    assert(numbers(out@) =~= row_counts(tables@, live@, 0));
    while t < tables.len()
        invariant
            n == live@.len(),
            tables@.len() == n,
            sum_of(row_counts(tables@, live@, n)) <= usize::MAX,
            t <= n,
            numbers(out@) == row_counts(tables@, live@, t as int),
        decreases n - t,
    {
        if live[t] {
            let ghost words = tables@[t as int].words@;
            let ghost w = words.len() as int;
            let mut count: usize = 0;
            let mut j: usize = 0;
            proof {
                lemma_row_counts_grow(tables@, live@, t + 1, n);
                let all = row_counts(tables@, live@, t + 1);
                lemma_sum_at(all, all.len() - 1);
                assert(all.last() == rows_set(words, w));
            }
            while j < tables[t].words.len()
                invariant
                    t < tables@.len(),
                    words == tables@[t as int].words@,
                    w == words.len(),
                    rows_set(words, w) <= usize::MAX,
                    j <= w,
                    count == rows_set(words, j as int),
                decreases w - j,
            {
                proof {
                    lemma_rows_set_grow(words, j + 1, w);
                }
                count += tables[t].words[j].count_ones() as usize;
                j += 1;
            }
            let ghost before = out@;
            out.push(count);
            assert(numbers(out@) =~= numbers(before).push(count as nat));
        }
        t += 1;
    }
    out
}

/// The constrained variables with their degrees.
fn degrees(cn: &ConstraintNetwork, doms: &[DomainMask], live: &Vec<bool>) -> (r: (Vec<usize>, Vec<usize>))
    requires
        cn.wf(),
        doms@.len() == cn.n(),
        live@.len() == cn.m(),
    ensures
        r.0@ == constrained_ids(*cn, doms@, live@, cn.n()),
        r.1@.len() == r.0@.len(),
        forall|i: int| 0 <= i < r.0@.len() ==> (#[trigger] r.1@[i]) == degree(*cn, live@, r.0@[i] as int, cn.m()),
{
    let mut ids: Vec<usize> = Vec::new();
    let mut out: Vec<usize> = Vec::new();
    let mut v: usize = 0;
    while v < doms.len()
        invariant
            cn.wf(),
            doms@.len() == cn.n(),
            live@.len() == cn.m(),
            v <= cn.n(),
            ids@ == constrained_ids(*cn, doms@, live@, v as int),
            out@.len() == ids@.len(),
            forall|i: int| 0 <= i < ids@.len() ==> (#[trigger] out@[i]) == degree(*cn, live@, ids@[i] as int, cn.m()),
        decreases cn.n() - v,
    {
        if !doms[v].is_fixed() {
            let mut count: usize = 0;
            let mut t: usize = 0;
            while t < cn.tensors.len()
                invariant
                    cn.wf(),
                    live@.len() == cn.m(),
                    t <= cn.m(),
                    count <= t,
                    count == degree(*cn, live@, v as int, t as int),
                decreases cn.m() - t,
            {
                if live[t] && region::in_list(&cn.tensors[t].var_axes, v) {
                    assert(cn.tensors.len() == cn.m());
                    count += 1;
                }
                t += 1;
            }
            if count > 0 {
                ids.push(v);
                out.push(count);
            }
        }
        v += 1;
    }
    (ids, out)
}

/// The sizes of the parts.
fn part_sizes(cn: &ConstraintNetwork, live: &Vec<bool>, comps: &Vec<Vec<usize>>) -> (r: (Vec<usize>, Vec<usize>))
    requires
        cn.wf(),
        live@.len() == cn.m(),
    ensures
        part_measures(*cn, live@, comps@, r.0@, r.1@),
{
    let mut vs: Vec<usize> = Vec::new();
    let mut ts: Vec<usize> = Vec::new();
    while vs.len() < comps.len()
        invariant
            cn.wf(),
            live@.len() == cn.m(),
            vs@.len() <= comps@.len(),
            ts@.len() == vs@.len(),
            forall|k: int| 0 <= k < vs@.len() ==> vs@[k] == (#[trigger] comps@[k])@.len() && ts@[k] == touching(*cn, live@, comps@[k]@, cn.m()),
        decreases comps@.len() - vs@.len(),
    {
        let k: usize = vs.len();
        let mut count: usize = 0;
        let mut t: usize = 0;
        while t < cn.tensors.len()
            invariant
                cn.wf(),
                live@.len() == cn.m(),
                k < comps@.len(),
                t <= cn.m(),
                count <= t,
                count == touching(*cn, live@, comps@[k as int]@, t as int),
            decreases cn.m() - t,
        {
            let ghost axes = cn.axes(t as int);
            let mut hit = false;
            let mut j: usize = 0;
            while j < cn.tensors[t].var_axes.len()
                invariant
                    t < cn.m(),
                    k < comps@.len(),
                    axes == cn.axes(t as int),
                    j <= axes.len(),
                    hit == touches(axes, comps@[k as int]@, j as int),
                decreases axes.len() - j,
            {
                if region::in_list(&comps[k], cn.tensors[t].var_axes[j]) {
                    assert(comps@[k as int]@.contains(axes[j as int]));
                    hit = true;
                }
                j += 1;
            }
            if live[t] && hit {
                assert(cn.tensors.len() == cn.m());
                count += 1;
            }
            t += 1;
        }
        vs.push(comps[k].len());
        ts.push(count);
    }
    (vs, ts)
}

/// No more parts than variables in the scope.
proof fn lemma_part_count(scope: Seq<usize>, comps: Seq<Vec<usize>>)
    requires
        forall|k: int| 0 <= k < comps.len() ==> components::meets(scope, (#[trigger] comps[k])@),
        forall|j: int, k: int| 0 <= j < k < comps.len() ==> components::apart((#[trigger] comps[j])@, (#[trigger] comps[k])@),
    ensures
        comps.len() <= scope.len(),
{
    let reps = Seq::new(comps.len(), |k: int| scope[choose|i: int| 0 <= i < scope.len() && comps[k]@.contains(#[trigger] scope[i])]);
    assert forall|k: int| 0 <= k < reps.len() implies scope.contains(#[trigger] reps[k]) && comps[k]@.contains(reps[k]) by {
        assert(components::meets(scope, comps[k]@));
        let i = choose|i: int| 0 <= i < scope.len() && comps[k]@.contains(#[trigger] scope[i]);
        assert(reps[k] == scope[i]);
    }
    assert(reps.no_duplicates()) by {
        assert forall|i: int, j: int| 0 <= i < reps.len() && 0 <= j < reps.len() && i != j implies reps[i] != reps[j] by {
            assert(comps[i]@.contains(reps[i]) && comps[j]@.contains(reps[j]));
            if i < j {
                assert(components::apart(comps[i]@, comps[j]@));
            } else {
                assert(components::apart(comps[j]@, comps[i]@));
            }
        }
    }
    seqs::lemma_within(reps, scope);
}

proof fn lemma_constrained_ids(cn: ConstraintNetwork, d: Seq<DomainMask>, live: Seq<bool>, k: int)
    requires
        0 <= k <= cn.n(),
    ensures
        constrained_ids(cn, d, live, k).len() <= util::unfixed(d, k),
        forall|i: int| 0 <= i < constrained_ids(cn, d, live, k).len() ==> (#[trigger] constrained_ids(cn, d, live, k)[i]) < k,
    decreases k,
{
    assert(cn.vars.len() == cn.n());
    if k > 0 {
        lemma_constrained_ids(cn, d, live, k - 1);
        let before = constrained_ids(cn, d, live, k - 1);
        assert forall|i: int| 0 <= i < constrained_ids(cn, d, live, k).len() implies (#[trigger] constrained_ids(cn, d, live, k)[i]) < k by {
            if i < before.len() {
                assert(constrained_ids(cn, d, live, k)[i] == before[i]);
            }
        }
    }
}

proof fn lemma_arity_bound(cn: ConstraintNetwork, d: Seq<DomainMask>, live: Seq<bool>, k: int)
    requires
        cn.wf(),
        0 <= k <= cn.m(),
    ensures
        sum_of(arities(cn, d, live, k)) <= 32 * k,
    decreases k,
{
    if k > 0 {
        lemma_arity_bound(cn, d, live, k - 1);
        assert(cn.tensor_wf(k - 1));
        if live[k - 1] {
            let before = arities(cn, d, live, k - 1);
            let x = open_axes(d, cn.axes(k - 1), cn.axes(k - 1).len() as int);
            lemma_open_axes(d, cn.axes(k - 1), cn.axes(k - 1).len() as int);
            assert(before.push(x).drop_last() =~= before);
        }
    }
}

/// Measure what is left of a network under the domains. Nothing is propagated here.
pub fn diagnose(cn: &ConstraintNetwork, doms: &[DomainMask], masks: &[TableMasks], tables: &[RSparseBitSet]) -> (r: ResidualDiagnostics)
    requires
        cn.wf(),
        doms@.len() == cn.n(),
        ct::masks_ok(*cn, masks@),
        tables@.len() == cn.m(),
        32 * cn.m() <= usize::MAX,
        sum_of(row_counts(tables@, components::live_flags(*cn, doms@), cn.m())) <= usize::MAX,
    ensures
        measures(*cn, doms@, tables@, r),
{
    let contradiction = has_contradiction(doms);
    let unfixed_variables: usize = util::count_unfixed(doms);
    let variables: usize = doms.len();
    proof {
        lemma_unfixed_bound(doms@, cn.n());
    }
    let fixed_variables: usize = variables - unfixed_variables;
    if contradiction {
        return ResidualDiagnostics {
            contradiction,
            variables,
            fixed_variables,
            unfixed_variables,
            active_tensors: 0,
            entailed_tensors: cn.tensors.len(),
            constrained_variables: 0,
            free_variables: unfixed_variables,
            constrained_components: 0,
            components_including_free: unfixed_variables,
            largest_component_variables: if unfixed_variables > 0 {
                1
            } else {
                0
            },
            largest_component_tensors: 0,
            component_variables: Vec::new(),
            component_tensors: Vec::new(),
            active_incidence_edges: 0,
            active_degrees: Vec::new(),
            active_degree_max: 0,
            residual_arities: Vec::new(),
            residual_arity_max: 0,
            live_rows: Vec::new(),
            live_rows_total: 0,
            live_rows_max: 0,
        };
    }
    let (live, active_tensors) = live_tensors(cn, doms, masks);
    let entailed_tensors: usize = cn.tensors.len() - active_tensors;
    let residual_arities = open_arities(cn, doms, &live);
    let live_rows = rows_left(tables, &live);
    let (scope, active_degrees) = degrees(cn, doms, &live);
    let constrained_variables: usize = scope.len();
    proof {
        lemma_constrained_ids(*cn, doms@, live@, cn.n());
        lemma_arity_bound(*cn, doms@, live@, cn.m());
    }
    let free_variables: usize = unfixed_variables - constrained_variables;
    let comps = components_of(cn, doms, &live, scope.as_slice());
    let (component_variables, component_tensors) = part_sizes(cn, &live, &comps);
    proof {
        lemma_part_count(scope@, comps@);
    }
    ResidualDiagnostics {
        contradiction,
        variables,
        fixed_variables,
        unfixed_variables,
        active_tensors,
        entailed_tensors,
        constrained_variables,
        free_variables,
        constrained_components: comps.len(),
        components_including_free: comps.len() + free_variables,
        largest_component_variables: largest(&component_variables),
        largest_component_tensors: largest(&component_tensors),
        component_variables,
        component_tensors,
        active_incidence_edges: total(&residual_arities),
        active_degree_max: largest(&active_degrees),
        active_degrees,
        residual_arity_max: largest(&residual_arities),
        residual_arities,
        live_rows_total: total(&live_rows),
        live_rows_max: largest(&live_rows),
        live_rows,
    }
}

} // verus!
