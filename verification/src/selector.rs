//! Choice of the variable to branch on.
use vstd::prelude::*;

use std::sync::Arc;

use crate::adapter::{Clause, RuleSolver};
use crate::bits;
use crate::components;
use crate::contract;
use crate::ct;
use crate::ct::{RSparseBitSet, TableMasks};
use crate::domain::{Asg, DomainMask};
use crate::measure::Measure;
use crate::models;
use crate::network;
use crate::network::ConstraintNetwork;
use crate::order;
use crate::problem::SolverBuffer;
use crate::region;
use crate::region::Region;
use crate::seqs;
use crate::table;
use crate::table::BranchingResult;
use crate::trail;
use crate::trail::Trail;
use crate::util;

verus! {

/// How many variables are tried by failed-literal probing at a node.
pub const FAILED_LITERAL_POOL: usize = 16;

/// The number of the first `upto` constraints that mention `v` and are not entailed.
pub open spec fn occurrences(cn: ConstraintNetwork, d: Seq<DomainMask>, v: int, upto: int) -> nat
    decreases upto,
{
    if upto <= 0 {
        0
    } else {
        occurrences(cn, d, v, upto - 1) + (if cn.axes(upto - 1).contains(v as usize) && !util::entailed(cn, d, upto - 1) {
            1nat
        } else {
            0nat
        })
    }
}

/// The score of `v`: zero where it is fixed.
pub open spec fn score(cn: ConstraintNetwork, d: Seq<DomainMask>, v: int) -> nat {
    if d[v].fixed() {
        0
    } else {
        occurrences(cn, d, v, cn.m())
    }
}

proof fn lemma_occurrences_bound(cn: ConstraintNetwork, d: Seq<DomainMask>, v: int, upto: int)
    requires
        0 <= upto,
    ensures
        occurrences(cn, d, v, upto) <= upto,
    decreases upto,
{
    if upto > 0 {
        lemma_occurrences_bound(cn, d, v, upto - 1);
    }
}

/// Without occurrences, every constraint of `v` is entailed.
pub proof fn lemma_no_occurrence(cn: ConstraintNetwork, d: Seq<DomainMask>, v: int, upto: int, t: int)
    requires
        0 <= t < upto,
        cn.axes(t).contains(v as usize),
        !util::entailed(cn, d, t),
    ensures
        occurrences(cn, d, v, upto) > 0,
    decreases upto,
{
    if t < upto - 1 {
        lemma_no_occurrence(cn, d, v, upto - 1, t);
    }
}

/// With an occurrence, some constraint of `v` is not entailed.
pub proof fn lemma_some_occurrence(cn: ConstraintNetwork, d: Seq<DomainMask>, v: int, upto: int) -> (t: int)
    requires
        occurrences(cn, d, v, upto) > 0,
    ensures
        0 <= t < upto,
        cn.axes(t).contains(v as usize),
        !util::entailed(cn, d, t),
    decreases upto,
{
    if cn.axes(upto - 1).contains(v as usize) && !util::entailed(cn, d, upto - 1) {
        upto - 1
    } else {
        lemma_some_occurrence(cn, d, v, upto - 1)
    }
}

/// The scores of all variables, as numbers.
pub open spec fn scored(cn: ConstraintNetwork, d: Seq<DomainMask>, scores: Seq<u64>) -> bool {
    &&& scores.len() == cn.n()
    &&& forall|v: int| 0 <= v < cn.n() ==> #[trigger] scores[v] == score(cn, d, v)
}

/// Fill in the scores: for each open variable, the number of its constraints that are not
/// entailed.
pub fn compute_occurrence_scores(cn: &ConstraintNetwork, doms: &[DomainMask], buffer: &mut SolverBuffer, masks: &[TableMasks])
    requires
        cn.wf(),
        doms@.len() == cn.n(),
        ct::masks_ok(*cn, masks@),
        old(buffer).sized(*cn),
    ensures
        scored(*cn, doms@, final(buffer).occurrence_scores@),
        final(buffer).queue == old(buffer).queue,
        final(buffer).in_queue == old(buffer).in_queue,
        final(buffer).dirty == old(buffer).dirty,
{
    let mut v: usize = 0;
    while v < buffer.occurrence_scores.len()
        invariant
            v <= buffer.occurrence_scores@.len() == cn.n(),
            buffer.queue == old(buffer).queue,
            buffer.in_queue == old(buffer).in_queue,
            buffer.dirty == old(buffer).dirty,
            forall|u: int| 0 <= u < v ==> #[trigger] buffer.occurrence_scores@[u] == 0,
        decreases buffer.occurrence_scores.len() - v,
    {
        buffer.occurrence_scores.set(v, 0);
        v += 1;
    }
    let mut t: usize = 0;
    while t < cn.tensors.len()
        invariant
            cn.wf(),
            doms@.len() == cn.n(),
            ct::masks_ok(*cn, masks@),
            t <= cn.m(),
            buffer.occurrence_scores@.len() == cn.n(),
            buffer.queue == old(buffer).queue,
            buffer.in_queue == old(buffer).in_queue,
            buffer.dirty == old(buffer).dirty,
            forall|u: int| 0 <= u < cn.n() ==> #[trigger] buffer.occurrence_scores@[u] == (if doms@[u].fixed() {
                0
            } else {
                occurrences(*cn, doms@, u, t as int)
            }),
        decreases cn.tensors.len() - t,
    {
        assert(cn.tensor_wf(t as int));
        let entailed = util::is_entailed(cn, t, doms, masks);
        if !entailed {
            let axes = &cn.tensors[t].var_axes;
            let mut j: usize = 0;
            while j < axes.len()
                invariant
                    cn.wf(),
                    cn.tensor_wf(t as int),
                    t < cn.m(),
                    cn.tensors.len() == cn.m(),
                    axes@ == cn.axes(t as int),
                    j <= axes@.len(),
                    doms@.len() == cn.n(),
                    buffer.occurrence_scores@.len() == cn.n(),
                    buffer.queue == old(buffer).queue,
                    buffer.in_queue == old(buffer).in_queue,
                    buffer.dirty == old(buffer).dirty,
                    forall|u: int| 0 <= u < cn.n() ==> #[trigger] buffer.occurrence_scores@[u] == (if doms@[u].fixed() {
                        0
                    } else {
                        occurrences(*cn, doms@, u, t as int) + (if axes@.take(j as int).contains(u as usize) {
                            1nat
                        } else {
                            0nat
                        })
                    }),
                decreases axes.len() - j,
            {
                let v: usize = axes[j];
                proof {
                    seqs::lemma_take_next(axes@, j as int);
                    lemma_occurrences_bound(*cn, doms@, v as int, t as int);
                    assert(!axes@.take(j as int).contains(v)) by {
                        if axes@.take(j as int).contains(v) {
                            let k = axes@.take(j as int).index_of(v);
                            assert(axes@[k] == axes@[j as int]);
                        }
                    }
                    assert(cn.vars.len() == cn.n());
                }
                if !doms[v].is_fixed() {
                    buffer.occurrence_scores.set(v, buffer.occurrence_scores[v] + 1);
                }
                j += 1;
            }
            proof {
                seqs::lemma_take_all(axes@);
            }
        }
        t += 1;
    }
}

/// `v` is the first of `scope` with the highest score, and its score is not zero.
pub open spec fn first_best(cn: ConstraintNetwork, d: Seq<DomainMask>, scope: Seq<usize>, v: usize) -> bool {
    exists|i: int|
        {
            &&& 0 <= i < scope.len()
            &&& #[trigger] scope[i] == v
            &&& score(cn, d, v as int) > 0
            &&& forall|k: int| 0 <= k < scope.len() ==> score(cn, d, (#[trigger] scope[k]) as int) <= score(cn, d, v as int)
            &&& forall|k: int| 0 <= k < i ==> score(cn, d, (#[trigger] scope[k]) as int) < score(cn, d, v as int)
        }
}

/// The open variable of `scope` with the highest score, the first one at the maximum. None
/// where no constraint that is not entailed mentions any.
pub fn select_var_most_occurrence(cn: &ConstraintNetwork, doms: &[DomainMask], buffer: &mut SolverBuffer, scope: &[usize], masks: &[TableMasks]) -> (r: Option<usize>)
    requires
        cn.wf(),
        doms@.len() == cn.n(),
        ct::masks_ok(*cn, masks@),
        old(buffer).sized(*cn),
        forall|i: int| 0 <= i < scope@.len() ==> (#[trigger] scope@[i]) < cn.n(),
    ensures
        match r {
            Some(v) => v < cn.n() && !doms@[v as int].fixed() && first_best(*cn, doms@, scope@, v),
            None => forall|i: int| 0 <= i < scope@.len() ==> score(*cn, doms@, (#[trigger] scope@[i]) as int) == 0,
        },
        scored(*cn, doms@, final(buffer).occurrence_scores@),
        final(buffer).queue == old(buffer).queue,
        final(buffer).in_queue == old(buffer).in_queue,
        final(buffer).dirty == old(buffer).dirty,
{
    compute_occurrence_scores(cn, doms, buffer, masks);
    let mut max_score: u64 = 0;
    let mut best: Option<usize> = None;
    let ghost mut place: int = 0;
    let mut i: usize = 0;
    while i < scope.len()
        invariant
            i <= scope@.len(),
            doms@.len() == cn.n(),
            forall|i: int| 0 <= i < scope@.len() ==> (#[trigger] scope@[i]) < cn.n(),
            scored(*cn, doms@, buffer.occurrence_scores@),
            buffer.queue == old(buffer).queue,
            buffer.in_queue == old(buffer).in_queue,
            buffer.dirty == old(buffer).dirty,
            forall|k: int| 0 <= k < i ==> score(*cn, doms@, (#[trigger] scope@[k]) as int) <= max_score,
            match best {
                None => max_score == 0,
                Some(v) => {
                    &&& 0 <= place < i
                    &&& scope@[place] == v
                    &&& max_score == score(*cn, doms@, v as int)
                    &&& max_score > 0
                    &&& forall|k: int| 0 <= k < place ==> score(*cn, doms@, (#[trigger] scope@[k]) as int) < max_score
                },
            },
        decreases scope.len() - i,
    {
        let v: usize = scope[i];
        if !doms[v].is_fixed() {
            if buffer.occurrence_scores[v] > max_score {
                max_score = buffer.occurrence_scores[v];
                best = Some(v);
                proof {
                    place = i as int;
                }
            }
        }
        i += 1;
    }
    best
}

/// A variable of `ids` that is open and that some constraint still bites.
pub open spec fn candidate(cn: ConstraintNetwork, d: Seq<DomainMask>, ids: Seq<usize>, v: usize) -> bool {
    ids.contains(v) && score(cn, d, v as int) > 0
}

/// All ids below `n`.
pub open spec fn all_ids(n: int) -> Seq<usize> {
    Seq::new(n as nat, |i: int| i as usize)
}

/// Higher scores first; of equal scores the lower id.
pub open spec fn ranks_before(cn: ConstraintNetwork, d: Seq<DomainMask>, u: int, v: int) -> bool {
    score(cn, d, u) > score(cn, d, v) || (score(cn, d, u) == score(cn, d, v) && u < v)
}

/// `r` is the beginning, at most `pool` long, of the ranking of all candidates of `ids`.
pub open spec fn top_ranked(cn: ConstraintNetwork, d: Seq<DomainMask>, ids: Seq<usize>, r: Seq<usize>, pool: int) -> bool {
    &&& r.len() <= pool
    &&& forall|i: int| 0 <= i < r.len() ==> candidate(cn, d, ids, #[trigger] r[i])
    &&& forall|i: int, j: int| 0 <= i < j < r.len() ==> ranks_before(cn, d, (#[trigger] r[i]) as int, (#[trigger] r[j]) as int)
    &&& forall|v: usize, i: int| candidate(cn, d, ids, v) && !#[trigger] r.contains(v) && 0 <= i < r.len() ==> ranks_before(cn, d, (#[trigger] r[i]) as int, v as int)
    &&& r.len() < pool ==> forall|v: usize| candidate(cn, d, ids, v) ==> #[trigger] r.contains(v)
}

/// Every one of a ranking is a variable of the list, and open.
pub proof fn lemma_ranked_ids(cn: ConstraintNetwork, d: Seq<DomainMask>, ids: Seq<usize>, r: Seq<usize>, pool: int)
    requires
        top_ranked(cn, d, ids, r, pool),
    ensures
        forall|i: int| 0 <= i < r.len() ==> ids.contains(#[trigger] r[i]) && !d[r[i] as int].fixed(),
{
    assert forall|i: int| 0 <= i < r.len() implies ids.contains(#[trigger] r[i]) && !d[r[i] as int].fixed() by {
        assert(candidate(cn, d, ids, r[i]));
    }
}

/// The `pool` highest-scored open variables of `ids`, highest first.
pub fn pool_within(cn: &ConstraintNetwork, doms: &[DomainMask], buffer: &mut SolverBuffer, masks: &[TableMasks], ids: &[usize], pool: usize) -> (r: Vec<usize>)
    requires
        cn.wf(),
        doms@.len() == cn.n(),
        ct::masks_ok(*cn, masks@),
        old(buffer).sized(*cn),
        network::ascending_ids(ids@),
        forall|i: int| 0 <= i < ids@.len() ==> (#[trigger] ids@[i]) < cn.n(),
    ensures
        top_ranked(*cn, doms@, ids@, r@, pool as int),
        scored(*cn, doms@, final(buffer).occurrence_scores@),
        final(buffer).queue == old(buffer).queue,
        final(buffer).in_queue == old(buffer).in_queue,
        final(buffer).dirty == old(buffer).dirty,
{
    compute_occurrence_scores(cn, doms, buffer, masks);
    let mut pairs: Vec<(u64, usize)> = Vec::new();
    let mut at: usize = 0;
    while at < ids.len()
        invariant
            at <= ids@.len(),
            doms@.len() == cn.n(),
            network::ascending_ids(ids@),
            forall|i: int| 0 <= i < ids@.len() ==> (#[trigger] ids@[i]) < cn.n(),
            scored(*cn, doms@, buffer.occurrence_scores@),
            buffer.queue == old(buffer).queue,
            buffer.in_queue == old(buffer).in_queue,
            buffer.dirty == old(buffer).dirty,
            forall|k: int| 0 <= k < pairs@.len() ==> rank_entry(*cn, doms@, ids@, #[trigger] pairs@[k]) && before_all(ids@, at as int, pairs@[k].1),
            forall|i: int, j: int| 0 <= i < j < pairs@.len() ==> (#[trigger] pairs@[i]).1 < (#[trigger] pairs@[j]).1,
            forall|q: int| 0 <= q < at && score(*cn, doms@, ids@[q] as int) > 0 ==> pairs_list(pairs@, #[trigger] ids@[q]),
        decreases ids.len() - at,
    {
        let v: usize = ids[at];
        let ghost p0 = pairs@;
        let s: u64 = buffer.occurrence_scores[v];
        if !doms[v].is_fixed() && s > 0 {
            pairs.push((u64::MAX - s, v));
        }
        proof {
            assert(ids@.contains(v));
            assert forall|q: int| 0 <= q < at + 1 && score(*cn, doms@, ids@[q] as int) > 0 implies pairs_list(pairs@, #[trigger] ids@[q]) by {
                let u = ids@[q];
                if q < at {
                    assert(pairs_list(p0, u));
                    let k = choose|k: int| 0 <= k < p0.len() && (#[trigger] p0[k]).1 == u;
                    assert(pairs@[k].1 == u);
                } else {
                    assert(pairs@[p0.len() as int].1 == u);
                }
            }
        }
        at += 1;
    }
    let ghost before = pairs@;
    order::sort_pairs(&mut pairs);
    proof {
        order::lemma_permutation(before, pairs@);
        assert forall|k: int| 0 <= k < pairs@.len() implies rank_entry(*cn, doms@, ids@, #[trigger] pairs@[k]) by {
            assert(pairs@.contains(pairs@[k]));
            assert(before.contains(pairs@[k]));
            let q = before.index_of(pairs@[k]);
            assert(rank_entry(*cn, doms@, ids@, before[q]));
        }
        assert(pairs@.no_duplicates()) by {
            assert(before.no_duplicates());
            before.lemma_multiset_has_no_duplicates();
            pairs@.lemma_multiset_has_no_duplicates_conv();
        }
    }
    let mut out: Vec<usize> = Vec::new();
    let mut k: usize = 0;
    while k < pairs.len() && k < pool
        invariant
            k <= pairs@.len(),
            k <= pool,
            out@.len() == k,
            forall|q: int| 0 <= q < k ==> #[trigger] out@[q] == pairs@[q].1,
        decreases pairs.len() - k,
    {
        out.push(pairs[k].1);
        k += 1;
    }
    proof {
        assert forall|i: int, j: int| 0 <= i < j < pairs@.len() implies ranks_before(*cn, doms@, (#[trigger] pairs@[i]).1 as int, (#[trigger] pairs@[j]).1 as int) by {
            assert(order::pair_le(pairs@[i], pairs@[j]));
            assert(rank_entry(*cn, doms@, ids@, pairs@[i]) && rank_entry(*cn, doms@, ids@, pairs@[j]));
            assert(pairs@[i] != pairs@[j]);
        }
        assert forall|i: int| 0 <= i < out@.len() implies candidate(*cn, doms@, ids@, #[trigger] out@[i]) by {
            assert(rank_entry(*cn, doms@, ids@, pairs@[i]));
        }
        assert forall|i: int, j: int| 0 <= i < j < out@.len() implies ranks_before(*cn, doms@, (#[trigger] out@[i]) as int, (#[trigger] out@[j]) as int) by {
            assert(ranks_before(*cn, doms@, pairs@[i].1 as int, pairs@[j].1 as int));
        }
        assert forall|u: usize| candidate(*cn, doms@, ids@, u) implies exists|q: int| 0 <= q < pairs@.len() && (#[trigger] pairs@[q]).1 == u by {
            let x0 = ids@.index_of(u);
            assert(pairs_list(before, ids@[x0]));
            let q = choose|q: int| 0 <= q < before.len() && (#[trigger] before[q]).1 == u;
            assert(before.contains(before[q]));
            assert(pairs@.contains(before[q]));
            let x = pairs@.index_of(before[q]);
            assert(pairs@[x].1 == u);
        }
        assert forall|u: usize, i: int| candidate(*cn, doms@, ids@, u) && !#[trigger] out@.contains(u) && 0 <= i < out@.len() implies ranks_before(*cn, doms@, (#[trigger] out@[i]) as int, u as int) by {
            let q = choose|q: int| 0 <= q < pairs@.len() && (#[trigger] pairs@[q]).1 == u;
            if q < k {
                assert(out@[q] == u);
            }
            assert(ranks_before(*cn, doms@, pairs@[i].1 as int, pairs@[q].1 as int));
        }
        if out@.len() < pool {
            assert forall|u: usize| candidate(*cn, doms@, ids@, u) implies #[trigger] out@.contains(u) by {
                let q = choose|q: int| 0 <= q < pairs@.len() && (#[trigger] pairs@[q]).1 == u;
                assert(out@[q] == u);
            }
        }
    }
    out
}

/// The `pool` highest-scored open variables, highest first.
pub fn occurrence_pool(cn: &ConstraintNetwork, doms: &[DomainMask], buffer: &mut SolverBuffer, masks: &[TableMasks], pool: usize) -> (r: Vec<usize>)
    requires
        cn.wf(),
        doms@.len() == cn.n(),
        ct::masks_ok(*cn, masks@),
        old(buffer).sized(*cn),
    ensures
        top_ranked(*cn, doms@, all_ids(cn.n()), r@, pool as int),
        scored(*cn, doms@, final(buffer).occurrence_scores@),
        final(buffer).queue == old(buffer).queue,
        final(buffer).in_queue == old(buffer).in_queue,
        final(buffer).dirty == old(buffer).dirty,
{
    let mut ids: Vec<usize> = Vec::new();
    while ids.len() < doms.len()
        invariant
            ids@.len() <= doms@.len(),
            forall|i: int| 0 <= i < ids@.len() ==> #[trigger] ids@[i] == i,
        decreases doms.len() - ids.len(),
    {
        let v: usize = ids.len();
        ids.push(v);
    }
    assert(ids@ =~= all_ids(cn.n()));
    pool_within(cn, doms, buffer, masks, ids.as_slice(), pool)
}

/// How a node chooses what to branch on.
#[derive(Clone, Copy, Debug, PartialEq, Eq, Structural)]
pub enum Selector {
    /// A region rule around the open variable with the most occurrences.
    MostOccurrence {
        /// How many rows the region may have.
        max_rows: usize,
    },
    /// The same rule, weighed against plain rules where its diagnostics are asked for.
    MostOccurrenceReplay {
        /// How many rows the region may have.
        max_rows: usize,
    },
    /// Both values of the open variable with the most occurrences.
    BinaryOccurrence,
}

/// The open variables of `scope`, at most the first sixty-four.
pub open spec fn free_batch(d: Seq<DomainMask>, scope: Seq<usize>) -> Seq<usize> {
    let open = scope.filter(|v: usize| !d[v as int].fixed());
    if open.len() <= 64 {
        open
    } else {
        open.take(64)
    }
}

/// What the selector returns on `scope`: where nothing bites, one clause that sets the open
/// variables to zero; otherwise the rule of the first variable with the highest score.
#[verifier::opaque]
pub open spec fn selects(sel: Selector, cn: ConstraintNetwork, d: Seq<DomainMask>, scope: Seq<usize>, r: BranchingResult) -> bool {
    if forall|i: int| 0 <= i < scope.len() ==> score(cn, d, (#[trigger] scope[i]) as int) == 0 {
        &&& r.variables@ == free_batch(d, scope)
        &&& r.clauses is Some
        &&& r.clauses->0@.len() == 1
        &&& r.clauses->0@[0].val == 0
        &&& forall|j: int| 0 <= j < 64 ==> #[trigger] bits::bit(r.clauses->0@[0].mask, j) == (j < r.variables@.len())
        &&& r.diagnostics is None
    } else {
        exists|v: usize| #[trigger] first_best(cn, d, scope, v) && v < cn.n() && !d[v as int].fixed() && match sel.region_bound() {
            Some(max_rows) => table::branching_ok(cn, d, v, max_rows as int, r),
            None => {
                &&& r.variables@ == seq![v]
                &&& r.clauses is Some
                &&& r.clauses->0@ == seq![Clause { mask: 1, val: 0 }, Clause { mask: 1, val: 1 }]
                &&& r.diagnostics is None
            },
        }
    }
}

/// What the diagnostics tell: nothing where no region was grown or they were not asked for,
/// otherwise how the region of the chosen variable became the rule.
#[verifier::opaque]
pub open spec fn tells(sel: Selector, cn: ConstraintNetwork, d: Seq<DomainMask>, scope: Seq<usize>, m: Measure, collect: bool, r: BranchingResult) -> bool {
    let idle = forall|i: int| 0 <= i < scope.len() ==> score(cn, d, (#[trigger] scope[i]) as int) == 0;
    &&& r.diagnostics is Some <==> (collect && !idle && sel.region_bound() is Some)
    &&& r.diagnostics is Some ==> exists|v: usize|
        #[trigger] first_best(cn, d, scope, v) && table::diagnosed(cn, d, v, sel.region_bound()->0 as int, m, sel is MostOccurrenceReplay, r)
}

/// Where a region is grown, the clauses are what is taken of the solver's answer.
#[verifier::opaque]
pub open spec fn consults<S: RuleSolver>(sel: Selector, solver: S, cn: Arc<ConstraintNetwork>, masks: Arc<Vec<TableMasks>>, d: Seq<DomainMask>, scope: Seq<usize>, m: Measure, r: BranchingResult) -> bool {
    let idle = forall|i: int| 0 <= i < scope.len() ==> score(*cn, d, (#[trigger] scope[i]) as int) == 0;
    !idle && sel.region_bound() is Some ==> exists|v: usize|
        #[trigger] first_best(*cn, d, scope, v) && table::answered(solver, cn, masks, d, v, sel.region_bound()->0 as int, m, r)
}

impl Selector {
    /// How many rows a region may have, where regions are grown.
    pub open spec fn region_bound(self) -> Option<usize> {
        match self {
            Selector::MostOccurrence { max_rows } => Some(max_rows),
            Selector::MostOccurrenceReplay { max_rows } => Some(max_rows),
            Selector::BinaryOccurrence => None,
        }
    }

    /// The row budget of regions; the binary rule grows none.
    pub fn max_rows(&self) -> (r: usize)
        ensures
            r == (match self.region_bound() {
                Some(max_rows) => max_rows,
                None => 0,
            }),
    {
        match *self {
            Selector::MostOccurrence { max_rows } => max_rows,
            Selector::MostOccurrenceReplay { max_rows } => max_rows,
            Selector::BinaryOccurrence => 0,
        }
    }

    /// Choose a variable of `scope` and the rule to branch on it with.
    pub fn findbest<S: RuleSolver>(&self, cn: &Arc<ConstraintNetwork>, doms: &mut Vec<DomainMask>, buffer: &mut SolverBuffer, measure: Measure, solver: &S, masks: &Arc<Vec<TableMasks>>, tables: &mut Vec<RSparseBitSet>, log: &mut Trail, scope: &[usize], collect_diagnostics: bool) -> (r: BranchingResult)
        requires
            (**cn).wf(),
            ct::markable(**cn),
            ct::masks_ok(**cn, (**masks)@),
            ct::fixpoint(**cn, (old(doms)@, trail::frozen(old(tables)@))),
            old(buffer).clean(**cn),
            old(log).fits(trail::shape((old(doms)@, trail::frozen(old(tables)@)))),
            forall|i: int| 0 <= i < scope@.len() ==> (#[trigger] scope@[i]) < (**cn).n(),
            exists|i: int| 0 <= i < scope@.len() && !old(doms)@[(#[trigger] scope@[i]) as int].fixed(),
        ensures
            (final(doms)@, trail::frozen(final(tables)@)) == (old(doms)@, trail::frozen(old(tables)@)),
            ct::logged(*final(log), (final(doms)@, trail::frozen(final(tables)@)), *old(log), (old(doms)@, trail::frozen(old(tables)@))),
            final(buffer).clean(**cn),
            selects(*self, **cn, old(doms)@, scope@, r),
            tells(*self, **cn, old(doms)@, scope@, measure, collect_diagnostics, r),
            consults(*self, *solver, *cn, *masks, old(doms)@, scope@, measure, r),
    {
        let ghost net = table::shared(cn);
        let ghost d = doms@;
        proof {
            reveal(selects);
            reveal(tells);
            reveal(consults);
        }
        match select_var_most_occurrence(cn, doms.as_slice(), buffer, scope, masks.as_slice()) {
            None => {
                let vars = first_open(doms.as_slice(), scope);
                let full: u64 = bits::full_mask(vars.len());
                let clauses: Vec<Clause> = vec![Clause::new(full, 0)];
                BranchingResult { clauses: Some(clauses), variables: vars, diagnostics: None }
            },
            Some(v) => {
                proof {
                    let i = choose|i: int| 0 <= i < scope@.len() && #[trigger] scope@[i] == v && score(net, d, v as int) > 0;
                    assert(score(net, d, scope@[i] as int) > 0);
                    let t = lemma_some_occurrence(net, d, v as int, net.m());
                    assert(net.axes(t).contains(v));
                }
                match *self {
                    Selector::BinaryOccurrence => {
                        let clauses: Vec<Clause> = vec![Clause::new(1, 0), Clause::new(1, 1)];
                        assert(clauses@ =~= seq![Clause { mask: 1, val: 0 }, Clause { mask: 1, val: 1 }]);
                        let vars: Vec<usize> = vec![v];
                        assert(vars@ =~= seq![v]);
                        let r = BranchingResult { clauses: Some(clauses), variables: vars, diagnostics: None };
                        assert(first_best(net, d, scope@, v));
                        r
                    },
                    Selector::MostOccurrence { max_rows } => {
                        let r = table::compute_branching_result(cn, doms, buffer, v, max_rows, measure, solver, masks, tables, log, collect_diagnostics, false);
                        assert(first_best(net, d, scope@, v));
                        r
                    },
                    Selector::MostOccurrenceReplay { max_rows } => {
                        let r = table::compute_branching_result(cn, doms, buffer, v, max_rows, measure, solver, masks, tables, log, collect_diagnostics, collect_diagnostics);
                        assert(first_best(net, d, scope@, v));
                        r
                    },
                }
            },
        }
    }
}

/// The open variables of `scope`, at most sixty-four.
fn first_open(doms: &[DomainMask], scope: &[usize]) -> (r: Vec<usize>)
    requires
        forall|i: int| 0 <= i < scope@.len() ==> (#[trigger] scope@[i]) < doms@.len(),
    ensures
        r@ == free_batch(doms@, scope@),
{
    let ghost p = |v: usize| !doms@[v as int].fixed();
    let mut out: Vec<usize> = Vec::new();
    let mut i: usize = 0;
    proof {
        reveal(Seq::filter);
        assert(scope@.take(0).filter(p) =~= Seq::<usize>::empty());
    }
    while i < scope.len()
        invariant
            p == |v: usize| !doms@[v as int].fixed(),
            forall|i: int| 0 <= i < scope@.len() ==> (#[trigger] scope@[i]) < doms@.len(),
            i <= scope@.len(),
            out@ == capped_list(scope@.take(i as int).filter(p)),
        decreases scope.len() - i,
    {
        let v: usize = scope[i];
        proof {
            reveal(Seq::filter);
            seqs::lemma_take_next(scope@, i as int);
        }
        if !doms[v].is_fixed() && out.len() < 64 {
            out.push(v);
        }
        i += 1;
    }
    proof {
        seqs::lemma_take_all(scope@);
    }
    out
}

spec fn capped_list(s: Seq<usize>) -> Seq<usize> {
    if s.len() <= 64 {
        s
    } else {
        s.take(64)
    }
}

/// What holds of a rule: its variables are open, at most sixty-four and in any set around the
/// scope that live constraints do not lead out of; there is a clause, and each sets some of them
/// and no others; and where there is a model, some clause leaves one.
pub open spec fn rule_for(cn: ConstraintNetwork, d: Seq<DomainMask>, scope: Seq<usize>, r: BranchingResult) -> bool {
    &&& r.variables@.len() <= 64
    &&& forall|i: int| 0 <= i < r.variables@.len() ==> (#[trigger] r.variables@[i]) < cn.n() && !d[r.variables@[i] as int].fixed()
    &&& components::sealed(cn, d, components::live_flags(cn, d), components::members(scope)) ==> models::ids_within(r.variables@, scope)
    &&& network::distinct(scope) ==> network::distinct(r.variables@)
    &&& r.clauses is Some ==> r.clauses->0@.len() > 0 && table::each_sets(r.clauses->0@, r.variables@.len() as int) && table::masks_below(r.clauses->0@, r.variables@.len() as int)
    &&& models::satisfiable(cn, d) ==> r.clauses is Some && table::some_branch_satisfiable(cn, d, r.variables@, r.clauses->0@)
}

/// Whatever the selector returns is a rule that misses no answer.
pub proof fn law_selection_is_complete(sel: Selector, cn: ConstraintNetwork, d: Seq<DomainMask>, scope: Seq<usize>, r: BranchingResult)
    requires
        cn.wf(),
        ct::closed_under(cn, d),
        forall|i: int| 0 <= i < scope.len() ==> (#[trigger] scope[i]) < cn.n(),
        exists|i: int| 0 <= i < scope.len() && !d[(#[trigger] scope[i]) as int].fixed(),
        selects(sel, cn, d, scope, r),
    ensures
        rule_for(cn, d, scope, r),
{
    reveal(selects);
    let vars = r.variables@;
    let clauses = r.clauses->0@;
    if forall|i: int| 0 <= i < scope.len() ==> score(cn, d, (#[trigger] scope[i]) as int) == 0 {
        lemma_free_batch(cn, d, scope);
        assert(table::each_sets(clauses, vars.len() as int)) by {
            assert(bits::bit(clauses[0].mask, 0));
        }
        if network::distinct(scope) {
            lemma_filter_distinct(scope, |v: usize| !d[v as int].fixed());
        }
        if models::satisfiable(cn, d) {
            let a = choose|a: Asg| #[trigger] cn.model(a) && models::consistent(d, a);
            let b = lemma_free_model(cn, d, scope, a);
            broadcast use bits::group_bits;

            assert forall|i: int| 0 <= i < vars.len() && bits::bit(clauses[0].mask, i) implies bits::bit(clauses[0].val, i) == b((#[trigger] vars[i]) as int) by {
                assert(contract::lists(vars, vars[i] as int));
            }
            table::lemma_assigned_consistent(d, vars, clauses[0].mask, clauses[0].val, vars.len() as int, b);
            assert(models::satisfiable(cn, ct::assigned(d, vars, clauses[0].mask, clauses[0].val, vars.len() as int)));
        }
    } else {
        let v = choose|v: usize| #[trigger] first_best(cn, d, scope, v) && v < cn.n() && !d[v as int].fixed() && match sel.region_bound() {
            Some(max_rows) => table::branching_ok(cn, d, v, max_rows as int, r),
            None => {
                &&& r.variables@ == seq![v]
                &&& r.clauses is Some
                &&& r.clauses->0@ == seq![Clause { mask: 1, val: 0 }, Clause { mask: 1, val: 1 }]
                &&& r.diagnostics is None
            },
        };
        let at = choose|i: int| 0 <= i < scope.len() && #[trigger] scope[i] == v && score(cn, d, v as int) > 0;
        match sel.region_bound() {
            Some(max_rows) => {
                let (region, rel, f) = choose|region: Region, rel: contract::Relation, f: Seq<u64>|
                    {
                        &&& #[trigger] region::grown(cn, d, true, v, max_rows as int, region, rel)
                        &&& #[trigger] table::lists_feasible(cn, d, rel, f)
                        &&& table::region_rule(cn, d, region, rel, f, r)
                    };
                table::lemma_region_vars(cn, d, true, v, max_rows as int, region, rel);
                if components::sealed(cn, d, components::live_flags(cn, d), components::members(scope)) {
                    components::lemma_sealed_region(cn, d, components::members(scope));
                    components::lemma_members(scope);
                    assert(scope.contains(v));
                    assert(components::members(scope)(v as int));
                    assert forall|i: int| 0 <= i < vars.len() implies scope.contains(#[trigger] vars[i]) by {
                        assert(rel.vars@.contains(vars[i]));
                        assert(components::members(scope)(vars[i] as int));
                    }
                }
                if r.clauses is Some {
                    if table::is_shut(cn, d, region, rel) {
                        assert(bits::bit(clauses[0].mask, 0));
                    } else {
                        assert(table::some_covers(clauses, f[0]));
                    }
                }
                if models::satisfiable(cn, d) {
                    table::law_region_rule_is_complete(cn, d, v, max_rows as int, r);
                }
            },
            None => {
                lemma_binary_rule(cn, d, v, vars, clauses);
                assert(scope.contains(v));
            },
        }
    }
}

proof fn lemma_binary_rule(cn: ConstraintNetwork, d: Seq<DomainMask>, v: usize, vars: Seq<usize>, clauses: Seq<Clause>)
    requires
        cn.wf(),
        d.len() == cn.n(),
        v < cn.n(),
        vars == seq![v],
        clauses == seq![Clause { mask: 1, val: 0 }, Clause { mask: 1, val: 1 }],
    ensures
        table::each_sets(clauses, 1),
        table::masks_below(clauses, 1),
        models::satisfiable(cn, d) ==> table::some_branch_satisfiable(cn, d, vars, clauses),
{
    broadcast use bits::group_bits;

    assert(1u64 == 1u64 << 0u64) by (bit_vector);
    assert(bits::bit(1u64 << 0u64, 0));
    assert(bits::bit(clauses[0].mask, 0) && bits::bit(clauses[1].mask, 0));
    assert(!bits::bit(clauses[0].val, 0) && bits::bit(clauses[1].val, 0));
    assert(table::sets_some(clauses[0], 1) && table::sets_some(clauses[1], 1));
    assert forall|k: int| 0 <= k < clauses.len() implies bits::below((#[trigger] clauses[k]).mask, 1) by {
        assert forall|i: int| 1 <= i < 64 implies !#[trigger] bits::bit(1u64 << 0u64, i) by {}
    }
    if models::satisfiable(cn, d) {
        let a = choose|a: Asg| #[trigger] cn.model(a) && models::consistent(d, a);
        let k = if a(v as int) {
            1int
        } else {
            0int
        };
        assert forall|i: int| 0 <= i < 1 && bits::bit(clauses[k].mask, i) implies bits::bit(clauses[k].val, i) == a((#[trigger] vars[i]) as int) by {}
        table::lemma_assigned_consistent(d, vars, clauses[k].mask, clauses[k].val, 1, a);
        assert(models::satisfiable(cn, ct::assigned(d, vars, clauses[k].mask, clauses[k].val, vars.len() as int)));
    }
}

proof fn lemma_free_batch(cn: ConstraintNetwork, d: Seq<DomainMask>, scope: Seq<usize>)
    requires
        forall|i: int| 0 <= i < scope.len() ==> (#[trigger] scope[i]) < cn.n(),
        exists|i: int| 0 <= i < scope.len() && !d[(#[trigger] scope[i]) as int].fixed(),
    ensures
        0 < free_batch(d, scope).len() <= 64,
        forall|i: int| 0 <= i < free_batch(d, scope).len() ==> (#[trigger] free_batch(d, scope)[i]) < cn.n() && !d[free_batch(d, scope)[i] as int].fixed(),
        models::ids_within(free_batch(d, scope), scope),
{
    broadcast use vstd::seq_lib::group_filter_ensures;

    let p = |v: usize| !d[v as int].fixed();
    let open = scope.filter(p);
    let i0 = choose|i: int| 0 <= i < scope.len() && !d[(#[trigger] scope[i]) as int].fixed();
    assert(p(scope[i0]));
    assert(open.contains(scope[i0]));
    let vars = free_batch(d, scope);
    assert forall|i: int| 0 <= i < vars.len() implies (#[trigger] vars[i]) < cn.n() && !d[vars[i] as int].fixed() && scope.contains(vars[i]) by {
        assert(vars[i] == open[i]);
        assert(open.contains(open[i]));
        crate::propagate::lemma_filter_subset(scope, p, open[i]);
        let k = scope.index_of(open[i]);
        assert(scope[k] < cn.n());
        assert(p(open[i]));
    }
}

/// A filtered list of pairwise different ids has pairwise different ids.
proof fn lemma_filter_distinct(s: Seq<usize>, p: spec_fn(usize) -> bool)
    requires
        network::distinct(s),
    ensures
        network::distinct(s.filter(p)),
    decreases s.len(),
{
    reveal(Seq::filter);
    if s.len() > 0 {
        lemma_filter_distinct(s.drop_last(), p);
        let rest = s.drop_last().filter(p);
        if p(s.last()) {
            assert forall|i: int, j: int| 0 <= i < j < s.filter(p).len() implies s.filter(p)[i] != s.filter(p)[j] by {
                if j == rest.len() {
                    assert(rest.contains(rest[i]));
                    crate::propagate::lemma_filter_subset(s.drop_last(), p, rest[i]);
                    let k = s.drop_last().index_of(rest[i]);
                    assert(s[k] == rest[i]);
                }
            }
        }
    }
}

/// Where nothing bites the open variables of the scope, setting some of them to zero keeps a
/// model.
proof fn lemma_free_model(cn: ConstraintNetwork, d: Seq<DomainMask>, scope: Seq<usize>, a: Asg) -> (b: Asg)
    requires
        cn.wf(),
        ct::closed_under(cn, d),
        forall|i: int| 0 <= i < scope.len() ==> (#[trigger] scope[i]) < cn.n(),
        exists|i: int| 0 <= i < scope.len() && !d[(#[trigger] scope[i]) as int].fixed(),
        forall|i: int| 0 <= i < scope.len() ==> score(cn, d, (#[trigger] scope[i]) as int) == 0,
        cn.model(a),
        models::consistent(d, a),
    ensures
        cn.model(b),
        models::consistent(d, b),
        forall|v: int| contract::lists(free_batch(d, scope), v) ==> !#[trigger] b(v),
{
    let vars = free_batch(d, scope);
    lemma_free_batch(cn, d, scope);
    let b: Asg = |v: int| if contract::lists(vars, v) {
        false
    } else {
        a(v)
    };
    assert forall|v: int| 0 <= v < d.len() implies d[v].allows(#[trigger] b(v)) by {
        assert(d[v].allows(a(v)));
        if contract::lists(vars, v) {
            let i = choose|i: int| 0 <= i < vars.len() && (#[trigger] vars[i]) as int == v;
            assert(!d[vars[i] as int].fixed());
            assert(d[v].live());
        }
    }
    assert forall|t: int| 0 <= t < cn.m() implies #[trigger] cn.holds(t, b) by {
        assert(cn.tensor_wf(t));
        if exists|j: int| 0 <= j < cn.axes(t).len() && contract::lists(vars, (#[trigger] cn.axes(t)[j]) as int) {
            let j = choose|j: int| 0 <= j < cn.axes(t).len() && contract::lists(vars, (#[trigger] cn.axes(t)[j]) as int);
            let i = choose|i: int| 0 <= i < vars.len() && (#[trigger] vars[i]) as int == cn.axes(t)[j] as int;
            let k = scope.index_of(vars[i]);
            assert(scope.contains(vars[i]));
            assert(score(cn, d, scope[k] as int) == 0);
            if !util::entailed(cn, d, t) {
                assert(cn.axes(t).contains(vars[i]));
                lemma_no_occurrence(cn, d, vars[i] as int, cn.m(), t);
            }
            assert(util::keeps_fixed(d, b)) by {
                assert forall|v: int| 0 <= v < d.len() && (#[trigger] d[v]).fixed() implies b(v) == (d[v] == DomainMask::D1) by {
                    assert(d[v].allows(b(v)));
                }
            }
        } else {
            assert(cn.holds(t, a));
            assert forall|i: int| 0 <= i < cn.axes(t).len() implies a((#[trigger] cn.axes(t)[i]) as int) == b(cn.axes(t)[i] as int) by {}
            table::lemma_holds_on(cn, t, a, b);
        }
    }
    b
}

/// The sort entry of a candidate.
spec fn rank_entry(cn: ConstraintNetwork, d: Seq<DomainMask>, ids: Seq<usize>, p: (u64, usize)) -> bool {
    candidate(cn, d, ids, p.1) && p.0 == u64::MAX - score(cn, d, p.1 as int)
}

/// `v` comes before the ids from place `at` on.
spec fn before_all(ids: Seq<usize>, at: int, v: usize) -> bool {
    forall|q: int| at <= q < ids.len() ==> v < #[trigger] ids[q]
}

spec fn pairs_list(pairs: Seq<(u64, usize)>, u: usize) -> bool {
    exists|k: int| 0 <= k < pairs.len() && (#[trigger] pairs[k]).1 == u
}

} // verus!
