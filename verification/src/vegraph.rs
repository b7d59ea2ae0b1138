//! Bookkeeping of variable elimination: which live scopes mention which variables, and which
//! variable to eliminate next.
use vstd::prelude::*;

use crate::network;
use crate::order;
use crate::seqs;

verus! {

/// The live scopes of an elimination. Slot `t` is in use while `active[t]`.
pub struct VeGraph {
    pub scopes: Vec<Vec<usize>>,
    pub active: Vec<bool>,
    /// The slots in use that mention each variable.
    pub v2t: Vec<Vec<usize>>,
}

/// `list` names, once each, the slots in use that mention `x`.
pub open spec fn incident_ok(scopes: Seq<Vec<usize>>, active: Seq<bool>, list: Seq<usize>, x: int) -> bool {
    &&& list.no_duplicates()
    &&& forall|t: usize| #[trigger]
        list.contains(t) <==> (t < scopes.len() && active[t as int] && scopes[t as int]@.contains(x as usize))
}

/// `out` lists, ascending, the other variables of the slots that mention `v`.
pub open spec fn neighbours_ok(scopes: Seq<Vec<usize>>, active: Seq<bool>, v: usize, out: Seq<usize>) -> bool {
    &&& network::ascending_ids(out)
    &&& forall|x: usize| #[trigger] out.contains(x) <==> (x != v && linked(scopes, active, v, x))
}

/// Some slot in use mentions both `a` and `b`.
pub open spec fn linked(scopes: Seq<Vec<usize>>, active: Seq<bool>, a: usize, b: usize) -> bool {
    exists|t: int|
        0 <= t < scopes.len() && active[t] && (#[trigger] scopes[t])@.contains(a) && scopes[t]@.contains(b)
}

/// Some slot in use mentions `x`.
pub open spec fn mentions(scopes: Seq<Vec<usize>>, active: Seq<bool>, x: usize) -> bool {
    exists|t: int| 0 <= t < scopes.len() && active[t] && (#[trigger] scopes[t])@.contains(x)
}

/// The number of `j` in `i+1..upto` such that no slot mentions both `out[i]` and `out[j]`.
pub open spec fn fill_row(scopes: Seq<Vec<usize>>, active: Seq<bool>, out: Seq<usize>, i: int, upto: int) -> nat
    decreases upto - i,
{
    if upto <= i + 1 {
        0
    } else {
        fill_row(scopes, active, out, i, upto - 1) + (if linked(scopes, active, out[i], out[upto - 1]) {
            0nat
        } else {
            1nat
        })
    }
}

/// The number of pairs of `out`, the first below position `upto`, that no slot mentions together.
pub open spec fn fill(scopes: Seq<Vec<usize>>, active: Seq<bool>, out: Seq<usize>, upto: int) -> nat
    decreases upto,
{
    if upto <= 0 {
        0
    } else {
        fill(scopes, active, out, upto - 1) + fill_row(scopes, active, out, upto - 1, out.len() as int)
    }
}

/// `r` is the fill and the width of eliminating `v`: None where `v` is protected or not
/// mentioned, or has more neighbours than the budget or a table allows.
pub open spec fn is_score(scopes: Seq<Vec<usize>>, active: Seq<bool>, protected: Seq<bool>, budget: int, v: usize, r: Option<(usize, usize)>) -> bool {
    if protected[v as int] || !mentions(scopes, active, v) {
        r is None
    } else {
        exists|out: Seq<usize>| #[trigger] neighbours_ok(scopes, active, v, out) && match r {
            Some((f, sc)) => out.len() <= 32 && out.len() + 1 <= budget && f == fill(scopes, active, out, out.len() as int) && sc == out.len() + 1,
            None => out.len() > 32 || out.len() + 1 > budget,
        }
    }
}

/// The scores of the first `k` variables listed, each with its variable, without those that have
/// none.
pub open spec fn entries(ids: Seq<usize>, scores: Seq<Option<(usize, usize)>>, k: int) -> Seq<(usize, usize, usize)>
    decreases k,
{
    if k <= 0 {
        Seq::empty()
    } else {
        match scores[k - 1] {
            Some((f, sc)) => entries(ids, scores, k - 1).push((f, sc, ids[k - 1])),
            None => entries(ids, scores, k - 1),
        }
    }
}

/// Only the first `k` scores matter.
pub proof fn lemma_entries_same(ids: Seq<usize>, s: Seq<Option<(usize, usize)>>, t: Seq<Option<(usize, usize)>>, k: int)
    requires
        forall|i: int| 0 <= i < k ==> #[trigger] s[i] == t[i],
    ensures
        entries(ids, s, k) == entries(ids, t, k),
    decreases k,
{
    if k > 0 {
        lemma_entries_same(ids, s, t, k - 1);
        assert(s[k - 1] == t[k - 1]);
    }
}

/// The list holds the scores of the variables `ids`, in their order.
pub open spec fn lists_scores(scopes: Seq<Vec<usize>>, active: Seq<bool>, protected: Seq<bool>, budget: int, ids: Seq<usize>, list: Seq<(usize, usize, usize)>) -> bool {
    exists|scores: Seq<Option<(usize, usize)>>|
        {
            &&& scores.len() == ids.len()
            &&& forall|i: int| 0 <= i < ids.len() ==> is_score(scopes, active, protected, budget, ids[i], #[trigger] scores[i])
            &&& list == #[trigger] entries(ids, scores, ids.len() as int)
        }
}

/// Some scope holds both `a` and `b`.
pub open spec fn tied(scopes: Seq<Seq<usize>>, a: usize, b: usize) -> bool {
    exists|i: int| 0 <= i < scopes.len() && (#[trigger] scopes[i]).contains(a) && scopes[i].contains(b)
}

/// The other variables that share a scope with `v`.
pub open spec fn partners(scopes: Seq<Seq<usize>>, v: usize) -> Set<usize> {
    Set::new(|x: usize| x != v && tied(scopes, v, x))
}

/// Eliminating `v` would go beyond the width budget, or beyond what a table can hold.
pub open spec fn too_wide(scopes: Seq<Seq<usize>>, budget: int, v: usize) -> bool {
    partners(scopes, v).len() + 1 > budget || partners(scopes, v).len() > 32
}

/// No unprotected variable that is still mentioned can go within the budget.
pub open spec fn exhausted(scopes: Seq<Vec<usize>>, active: Seq<bool>, protected: Seq<bool>, budget: int) -> bool {
    forall|v: usize|
        v < protected.len() && !protected[v as int] && #[trigger] mentions(scopes, active, v) ==> exists|out: Seq<usize>|
            #[trigger] neighbours_ok(scopes, active, v, out) && (out.len() > 32 || out.len() + 1 > budget)
}

/// Some of the first `upto` slots is in use and has this scope.
pub open spec fn in_use(g: VeGraph, upto: int, scope: Seq<usize>) -> bool {
    exists|s: int| 0 <= s < upto && g.active@[s] && (#[trigger] g.scopes@[s])@ == scope
}

/// `list` holds the scopes in use of the first `upto` slots, but for empty ones.
pub open spec fn lists_scopes(g: VeGraph, upto: int, list: Seq<Seq<usize>>) -> bool {
    &&& forall|i: int| 0 <= i < list.len() ==> in_use(g, upto, #[trigger] list[i])
    &&& forall|s: int| 0 <= s < upto && g.active@[s] && (#[trigger] g.scopes@[s])@.len() > 0 ==> list.contains(g.scopes@[s]@)
}

pub proof fn lemma_scopes_step(g: VeGraph, upto: int, list: Seq<Seq<usize>>, after: Seq<Seq<usize>>)
    requires
        lists_scopes(g, upto, list),
        0 <= upto < g.scopes@.len(),
        after == (if g.active@[upto] && g.scopes@[upto]@.len() > 0 {
            list.push(g.scopes@[upto]@)
        } else {
            list
        }),
    ensures
        lists_scopes(g, upto + 1, after),
{
    assert forall|i: int| 0 <= i < after.len() implies in_use(g, upto + 1, #[trigger] after[i]) by {
        if i < list.len() {
            assert(in_use(g, upto, list[i]));
            let s = choose|s: int| 0 <= s < upto && g.active@[s] && (#[trigger] g.scopes@[s])@ == list[i];
            assert(g.scopes@[s]@ == after[i]);
        } else {
            assert(g.scopes@[upto]@ == after[i]);
        }
    }
    assert forall|s: int| 0 <= s < upto + 1 && g.active@[s] && (#[trigger] g.scopes@[s])@.len() > 0 implies after.contains(g.scopes@[s]@) by {
        if s < upto {
            assert(list.contains(g.scopes@[s]@));
            let i = list.index_of(g.scopes@[s]@);
            assert(after[i] == g.scopes@[s]@);
        } else {
            assert(after[list.len() as int] == g.scopes@[s]@);
        }
    }
}

/// The listed scopes tie what the slots in use link.
pub proof fn lemma_tied(g: VeGraph, list: Seq<Seq<usize>>, a: usize, b: usize)
    requires
        lists_scopes(g, g.scopes@.len() as int, list),
    ensures
        tied(list, a, b) <==> linked(g.scopes@, g.active@, a, b),
{
    if tied(list, a, b) {
        let i = choose|i: int| 0 <= i < list.len() && (#[trigger] list[i]).contains(a) && list[i].contains(b);
        assert(in_use(g, g.scopes@.len() as int, list[i]));
        let s = choose|s: int| 0 <= s < g.scopes@.len() && g.active@[s] && (#[trigger] g.scopes@[s])@ == list[i];
        assert(g.scopes@[s]@.contains(a));
    }
    if linked(g.scopes@, g.active@, a, b) {
        let s = choose|s: int| 0 <= s < g.scopes@.len() && g.active@[s] && (#[trigger] g.scopes@[s])@.contains(a) && g.scopes@[s]@.contains(b);
        let i = list.index_of(g.scopes@[s]@);
        assert(list[i].contains(a));
    }
}

/// When the slots are exhausted, every unprotected variable of the listed scopes is too wide.
pub proof fn lemma_exhausted(g: VeGraph, list: Seq<Seq<usize>>, protected: Seq<bool>, budget: int, v: usize)
    requires
        lists_scopes(g, g.scopes@.len() as int, list),
        exhausted(g.scopes@, g.active@, protected, budget),
        v < protected.len(),
        !protected[v as int],
        tied(list, v, v),
    ensures
        too_wide(list, budget, v),
        partners(list, v).finite(),
{
    lemma_tied(g, list, v, v);
    let t = choose|t: int| 0 <= t < g.scopes@.len() && g.active@[t] && (#[trigger] g.scopes@[t])@.contains(v) && g.scopes@[t]@.contains(v);
    assert(mentions(g.scopes@, g.active@, v));
    let out = choose|out: Seq<usize>| #[trigger] neighbours_ok(g.scopes@, g.active@, v, out) && (out.len() > 32 || out.len() + 1 > budget);
    assert(out.no_duplicates());
    out.unique_seq_to_set();
    assert(out.to_set() =~= partners(list, v)) by {
        assert forall|x: usize| out.to_set().contains(x) <==> #[trigger] partners(list, v).contains(x) by {
            lemma_tied(g, list, v, x);
            assert(out.contains(x) <==> (x != v && linked(g.scopes@, g.active@, v, x)));
        }
    }
}

/// `x` comes before `y` or is equal to it, compared part by part.
pub open spec fn triple_le(x: (usize, usize, usize), y: (usize, usize, usize)) -> bool {
    x.0 < y.0 || (x.0 == y.0 && (x.1 < y.1 || (x.1 == y.1 && x.2 <= y.2)))
}

/// Take a least triple out of a list.
pub(crate) fn pop_min(heap: &mut Vec<(usize, usize, usize)>) -> (r: Option<(usize, usize, usize)>)
    ensures
        match r {
            None => old(heap)@.len() == 0 && final(heap)@ == old(heap)@,
            Some(m) => {
                &&& old(heap)@.contains(m)
                &&& forall|k: int| 0 <= k < old(heap)@.len() ==> triple_le(m, #[trigger] old(heap)@[k])
                &&& final(heap)@.len() == old(heap)@.len() - 1
                &&& final(heap)@.to_multiset() == old(heap)@.to_multiset().remove(m)
            },
        },
{
    if heap.len() == 0 {
        return None;
    }
    let mut best: usize = 0;
    let mut i: usize = 1;
    while i < heap.len()
        invariant
            1 <= i <= heap@.len(),
            best < heap@.len(),
            forall|k: int| 0 <= k < i ==> triple_le(heap@[best as int], #[trigger] heap@[k]),
        decreases heap.len() - i,
    {
        let x = heap[i];
        let b = heap[best];
        if x.0 < b.0 || (x.0 == b.0 && (x.1 < b.1 || (x.1 == b.1 && x.2 < b.2))) {
            best = i;
        }
        i += 1;
    }
    let ghost before = heap@;
    let m = heap.swap_remove(best);
    proof {
        broadcast use vstd::seq_lib::group_to_multiset_ensures;

        let last = before.last();
        assert(before.drop_last().push(last) =~= before);
        assert(before.to_multiset() =~= before.drop_last().to_multiset().insert(last));
        if best == before.len() - 1 {
            assert(before.update(best as int, last) =~= before);
            assert(heap@ =~= before.drop_last());
            assert(heap@.to_multiset() =~= before.to_multiset().remove(m));
        } else {
            let front = before.drop_last();
            assert(heap@ =~= front.update(best as int, last));
            assert(front.remove(best as int).insert(best as int, last) =~= front.update(best as int, last));
            assert(front.remove(best as int).to_multiset() =~= front.to_multiset().remove(m));
            assert(front[best as int] == m);
            assert(front.contains(m));
            assert(front.to_multiset().count(m) > 0);
            vstd::seq_lib::to_multiset_insert(front.remove(best as int), best as int, last);
            assert(heap@.to_multiset() =~= front.to_multiset().remove(m).insert(last));
            assert(before.to_multiset().remove(m) =~= front.to_multiset().insert(last).remove(m));
            assert(front.to_multiset().remove(m).insert(last) =~= front.to_multiset().insert(last).remove(m));
        }
        assert(before[best as int] == m);
    }
    Some(m)
}

/// Whether an ascending or unordered list holds `x`.
fn has(list: &Vec<usize>, x: usize) -> (r: bool)
    ensures
        r == list@.contains(x),
{
    let mut i: usize = 0;
    while i < list.len()
        invariant
            i <= list@.len(),
            !list@.take(i as int).contains(x),
        decreases list.len() - i,
    {
        proof {
            seqs::lemma_take_next(list@, i as int);
        }
        if list[i] == x {
            assert(list@[i as int] == x);
            return true;
        }
        i += 1;
    }
    proof {
        seqs::lemma_take_all(list@);
    }
    false
}

/// The elements of `list` other than `t`, in order.
fn without(list: &Vec<usize>, t: usize) -> (r: Vec<usize>)
    ensures
        forall|x: usize| #[trigger] r@.contains(x) <==> (list@.contains(x) && x != t),
        list@.no_duplicates() ==> r@.no_duplicates(),
        r@ == list@.filter(|x: usize| x != t),
{
    let mut out: Vec<usize> = Vec::new();
    let mut i: usize = 0;
    proof {
        reveal(Seq::filter);
    }
    while i < list.len()
        invariant
            i <= list@.len(),
            out@ == list@.take(i as int).filter(|x: usize| x != t),
            forall|x: usize| #[trigger] out@.contains(x) <==> (list@.take(i as int).contains(x) && x != t),
            list@.no_duplicates() ==> out@.no_duplicates(),
        decreases list.len() - i,
    {
        proof {
            reveal(Seq::filter);
            seqs::lemma_take_next(list@, i as int);
            seqs::lemma_push_contains(out@, list@[i as int]);
            if list@.no_duplicates() {
                assert(!list@.take(i as int).contains(list@[i as int])) by {
                    if list@.take(i as int).contains(list@[i as int]) {
                        let k = list@.take(i as int).index_of(list@[i as int]);
                        assert(list@[k] == list@[i as int]);
                    }
                }
                if !out@.contains(list@[i as int]) {
                    assert forall|k: int, l: int| 0 <= k < out@.len() + 1 && 0 <= l < out@.len() + 1 && k != l implies out@.push(list@[i as int])[k] != out@.push(list@[i as int])[l] by {
                        if k < out@.len() {
                            assert(out@.contains(out@[k]));
                        }
                        if l < out@.len() {
                            assert(out@.contains(out@[l]));
                        }
                    }
                }
            }
        }
        if list[i] != t {
            out.push(list[i]);
        }
        i += 1;
    }
    proof {
        seqs::lemma_take_all(list@);
    }
    out
}

impl VeGraph {
    /// Ascending scopes over `0..n`, and incidence lists that name the slots in use.
    pub open spec fn wf(self, n: int) -> bool {
        &&& self.active@.len() == self.scopes@.len()
        &&& self.v2t@.len() == n
        &&& forall|t: int| 0 <= t < self.scopes@.len() && self.active@[t] ==> network::ascending_ids((#[trigger] self.scopes@[t])@)
        &&& forall|t: int, i: int| 0 <= t < self.scopes@.len() && self.active@[t] && 0 <= i < self.scopes@[t]@.len() ==> (#[trigger] self.scopes@[t]@[i]) < n
        &&& forall|x: int| 0 <= x < n ==> incident_ok(self.scopes@, self.active@, (#[trigger] self.v2t@[x])@, x)
    }

    /// All slots in use, with the scopes given.
    pub fn new(scopes: Vec<Vec<usize>>, n: usize) -> (r: VeGraph)
        requires
            forall|t: int| 0 <= t < scopes@.len() ==> network::ascending_ids((#[trigger] scopes@[t])@),
            forall|t: int, i: int| 0 <= t < scopes@.len() && 0 <= i < scopes@[t]@.len() ==> (#[trigger] scopes@[t]@[i]) < n,
        ensures
            r.wf(n as int),
            r.scopes@ == scopes@,
            forall|t: int| 0 <= t < scopes@.len() ==> #[trigger] r.active@[t],
    {
        let m: usize = scopes.len();
        let mut active: Vec<bool> = Vec::new();
        while active.len() < m
            invariant
                active@.len() <= m,
                forall|t: int| 0 <= t < active@.len() ==> #[trigger] active@[t],
            decreases m - active.len(),
        {
            active.push(true);
        }
        let mut v2t: Vec<Vec<usize>> = Vec::new();
        let mut x: usize = 0;
        while x < n
            invariant
                x <= n,
                m == scopes@.len() == active@.len(),
                forall|t: int| 0 <= t < active@.len() ==> #[trigger] active@[t],
                v2t@.len() == x,
                forall|y: int| 0 <= y < x ==> incident_ok(scopes@, active@, (#[trigger] v2t@[y])@, y),
            decreases n - x,
        {
            let mut list: Vec<usize> = Vec::new();
            let mut t: usize = 0;
            while t < m
                invariant
                    t <= m == scopes@.len() == active@.len(),
                    forall|t: int| 0 <= t < active@.len() ==> #[trigger] active@[t],
                    list@.no_duplicates(),
                    forall|s: usize| #[trigger] list@.contains(s) <==> (s < t && scopes@[s as int]@.contains(x)),
                decreases m - t,
            {
                if has(&scopes[t], x) {
                    let ghost before = list@;
                    list.push(t);
                    proof {
                        seqs::lemma_push_contains(before, t);
                        assert forall|k: int, l: int| 0 <= k < list@.len() && 0 <= l < list@.len() && k != l implies list@[k] != list@[l] by {
                            if k < before.len() {
                                assert(before.contains(before[k]));
                            }
                            if l < before.len() {
                                assert(before.contains(before[l]));
                            }
                        }
                    }
                }
                t += 1;
            }
            v2t.push(list);
            x += 1;
        }
        VeGraph { scopes, active, v2t }
    }

    /// The slots in use that mention `v`.
    pub fn incident(&self, v: usize) -> (r: Vec<usize>)
        requires
            exists|n: int| v < n && #[trigger] self.wf(n),
        ensures
            incident_ok(self.scopes@, self.active@, r@, v as int),
    {
        let mut out: Vec<usize> = Vec::new();
        let mut i: usize = 0;
        let list = &self.v2t[v];
        proof {
            assert(incident_ok(self.scopes@, self.active@, self.v2t@[v as int]@, v as int));
        }
        while i < list.len()
            invariant
                i <= list@.len(),
                incident_ok(self.scopes@, self.active@, list@, v as int),
                self.active@.len() == self.scopes@.len(),
                out@ == list@.take(i as int),
            decreases list.len() - i,
        {
            proof {
                seqs::lemma_take_next(list@, i as int);
                assert(list@.contains(list@[i as int]));
            }
            if self.active[list[i]] {
                out.push(list[i]);
            }
            i += 1;
        }
        proof {
            seqs::lemma_take_all(list@);
        }
        out
    }

    /// The other variables of the slots `tids`, ascending.
    pub fn neighbours(&self, tids: &Vec<usize>, v: usize) -> (r: Vec<usize>)
        requires
            self.active@.len() == self.scopes@.len(),
            incident_ok(self.scopes@, self.active@, tids@, v as int),
        ensures
            neighbours_ok(self.scopes@, self.active@, v, r@),
    {
        let mut all: Vec<usize> = Vec::new();
        let mut i: usize = 0;
        while i < tids.len()
            invariant
                i <= tids@.len(),
                self.active@.len() == self.scopes@.len(),
                incident_ok(self.scopes@, self.active@, tids@, v as int),
                forall|x: usize| #[trigger] all@.contains(x) <==> (x != v && listed_by(self.scopes@, tids@, i as int, x)),
            decreases tids.len() - i,
        {
            let t: usize = tids[i];
            assert(tids@.contains(tids@[i as int]));
            let scope = &self.scopes[t];
            let ghost all0 = all@;
            let mut j: usize = 0;
            while j < scope.len()
                invariant
                    j <= scope@.len(),
                    forall|x: usize| #[trigger] all@.contains(x) <==> (all0.contains(x) || (x != v && scope@.take(j as int).contains(x))),
                decreases scope.len() - j,
            {
                proof {
                    seqs::lemma_take_next(scope@, j as int);
                    seqs::lemma_push_contains(all@, scope@[j as int]);
                }
                if scope[j] != v {
                    all.push(scope[j]);
                }
                j += 1;
            }
            proof {
                seqs::lemma_take_all(scope@);
                assert forall|x: usize| #[trigger] all@.contains(x) <==> (x != v && listed_by(self.scopes@, tids@, i + 1, x)) by {
                    if listed_by(self.scopes@, tids@, i + 1, x) {
                        let k = choose|k: int| 0 <= k < i + 1 && self.scopes@[(#[trigger] tids@[k]) as int]@.contains(x);
                        if k < i {
                            assert(listed_by(self.scopes@, tids@, i as int, x));
                        }
                    }
                    if listed_by(self.scopes@, tids@, i as int, x) {
                        let k = choose|k: int| 0 <= k < i && self.scopes@[(#[trigger] tids@[k]) as int]@.contains(x);
                        assert(self.scopes@[tids@[k] as int]@.contains(x));
                    }
                    if scope@.contains(x) {
                        assert(self.scopes@[tids@[i as int] as int]@.contains(x));
                    }
                }
            }
            i += 1;
        }
        let out = order::sort_dedup_ids(all);
        proof {
            assert forall|x: usize| #[trigger] out@.contains(x) <==> (x != v && linked(self.scopes@, self.active@, v, x)) by {
                if listed_by(self.scopes@, tids@, tids@.len() as int, x) {
                    let k = choose|k: int| 0 <= k < tids@.len() && self.scopes@[(#[trigger] tids@[k]) as int]@.contains(x);
                    assert(tids@.contains(tids@[k]));
                    assert(self.scopes@[tids@[k] as int]@.contains(v) && self.scopes@[tids@[k] as int]@.contains(x));
                }
                if linked(self.scopes@, self.active@, v, x) {
                    let t = choose|t: int| 0 <= t < self.scopes@.len() && self.active@[t] && (#[trigger] self.scopes@[t])@.contains(v) && self.scopes@[t]@.contains(x);
                    assert(self.scopes.len() == self.scopes@.len());
                    assert(tids@.contains(t as usize));
                    let k = tids@.index_of(t as usize);
                    assert(self.scopes@[tids@[k] as int]@.contains(x));
                }
            }
        }
        out
    }

    /// Whether some slot in use mentions both `a` and `b`.
    fn share(&self, a: usize, b: usize) -> (r: bool)
        requires
            exists|n: int| a < n && #[trigger] self.wf(n),
        ensures
            r == linked(self.scopes@, self.active@, a, b),
    {
        let list = &self.v2t[a];
        let mut i: usize = 0;
        proof {
            assert(incident_ok(self.scopes@, self.active@, self.v2t@[a as int]@, a as int));
        }
        while i < list.len()
            invariant
                i <= list@.len(),
                self.active@.len() == self.scopes@.len(),
                incident_ok(self.scopes@, self.active@, list@, a as int),
                forall|k: int| 0 <= k < i ==> !self.scopes@[(#[trigger] list@[k]) as int]@.contains(b),
            decreases list.len() - i,
        {
            let t: usize = list[i];
            assert(list@.contains(list@[i as int]));
            if self.active[t] && has(&self.scopes[t], b) {
                assert(self.scopes@[t as int]@.contains(a) && self.scopes@[t as int]@.contains(b));
                return true;
            }
            i += 1;
        }
        proof {
            if linked(self.scopes@, self.active@, a, b) {
                let t = choose|t: int| 0 <= t < self.scopes@.len() && self.active@[t] && (#[trigger] self.scopes@[t])@.contains(a) && self.scopes@[t]@.contains(b);
                assert(self.scopes.len() == self.scopes@.len());
                assert(list@.contains(t as usize));
                let k = list@.index_of(t as usize);
                assert(!self.scopes@[list@[k] as int]@.contains(b));
            }
        }
        false
    }

    /// The number of pairs of `out` that no slot in use mentions together.
    pub fn fill_count(&self, out: &Vec<usize>) -> (r: usize)
        requires
            out@.len() <= 64,
            forall|i: int| 0 <= i < out@.len() ==> (#[trigger] out@[i]) < self.v2t@.len(),
            exists|n: int| #[trigger] self.wf(n),
        ensures
            r == fill(self.scopes@, self.active@, out@, out@.len() as int),
    {
        let mut f: usize = 0;
        let mut i: usize = 0;
        while i < out.len()
            invariant
                i <= out@.len() <= 64,
                forall|i: int| 0 <= i < out@.len() ==> (#[trigger] out@[i]) < self.v2t@.len(),
                exists|n: int| #[trigger] self.wf(n),
                f == fill(self.scopes@, self.active@, out@, i as int),
                f <= 64 * i,
            decreases out.len() - i,
        {
            let ghost f0 = f;
            let mut j: usize = i + 1;
            while j < out.len()
                invariant
                    i < out@.len() <= 64,
                    i + 1 <= j <= out@.len(),
                    forall|i: int| 0 <= i < out@.len() ==> (#[trigger] out@[i]) < self.v2t@.len(),
                    exists|n: int| #[trigger] self.wf(n),
                    f == f0 + fill_row(self.scopes@, self.active@, out@, i as int, j as int),
                    f <= f0 + (j - i - 1),
                    f0 <= 64 * i,
                decreases out.len() - j,
            {
                proof {
                    let n = choose|n: int| #[trigger] self.wf(n);
                    assert(out@[i as int] < n);
                }
                if !self.share(out[i], out[j]) {
                    f += 1;
                }
                j += 1;
            }
            i += 1;
        }
        f
    }

    /// The fill and the width of eliminating `v`, where it is open to elimination: not
    /// protected, mentioned, and within the width budget.
    pub fn score(&self, protected: &Vec<bool>, budget: usize, v: usize) -> (r: Option<(usize, usize)>)
        requires
            self.wf(protected@.len() as int),
            v < protected@.len(),
        ensures
            forall|out: Seq<usize>| #[trigger] neighbours_ok(self.scopes@, self.active@, v, out) ==> (match r {
                Some((f, sc)) => {
                    &&& !protected@[v as int]
                    &&& mentions(self.scopes@, self.active@, v)
                    &&& out.len() <= 32
                    &&& sc == out.len() + 1
                    &&& sc <= budget
                    &&& f == fill(self.scopes@, self.active@, out, out.len() as int)
                },
                None => {
                    ||| protected@[v as int]
                    ||| !mentions(self.scopes@, self.active@, v)
                    ||| out.len() > 32
                    ||| out.len() + 1 > budget
                },
            }),
            is_score(self.scopes@, self.active@, protected@, budget as int, v, r),
    {
        if protected[v] {
            return None;
        }
        let tids = self.incident(v);
        if tids.len() == 0 {
            proof {
                if mentions(self.scopes@, self.active@, v) {
                    let t = choose|t: int| 0 <= t < self.scopes@.len() && self.active@[t] && (#[trigger] self.scopes@[t])@.contains(v);
                    assert(self.scopes.len() == self.scopes@.len());
                    assert(tids@.contains(t as usize));
                }
            }
            return None;
        }
        let out = self.neighbours(&tids, v);
        proof {
            assert(tids@.contains(tids@[0]));
            assert(self.scopes@[tids@[0] as int]@.contains(v));
            assert(mentions(self.scopes@, self.active@, v));
            assert forall|o: Seq<usize>| #[trigger] neighbours_ok(self.scopes@, self.active@, v, o) implies o == out@ by {
                crate::contract::lemma_ascending_same(o, out@);
            }
        }
        if out.len() <= 32 && out.len() < budget {
            proof {
                assert forall|i: int| 0 <= i < out@.len() implies (#[trigger] out@[i]) < self.v2t@.len() by {
                    self.lemma_neighbour_range(v, out@, i);
                }
            }
            let f: usize = self.fill_count(&out);
            Some((f, out.len() + 1))
        } else {
            None
        }
    }

    pub proof fn lemma_neighbour_range(self, v: usize, out: Seq<usize>, i: int)
        requires
            self.wf(self.v2t@.len() as int),
            neighbours_ok(self.scopes@, self.active@, v, out),
            0 <= i < out.len(),
        ensures
            out[i] < self.v2t@.len(),
    {
        assert(out.contains(out[i]));
        let t = choose|t: int| 0 <= t < self.scopes@.len() && self.active@[t] && (#[trigger] self.scopes@[t])@.contains(v) && self.scopes@[t]@.contains(out[i]);
        let k = self.scopes@[t]@.index_of(out[i]);
        assert(self.scopes@[t]@[k] < self.v2t@.len());
    }

    /// Replace the slots `tids`, which are those that mention `v`, by one with the scope `out`:
    /// the first of them stays in use.
    pub fn merge(&mut self, v: usize, tids: &Vec<usize>, out: &Vec<usize>)
        requires
            old(self).wf(old(self).v2t@.len() as int),
            v < old(self).v2t@.len(),
            tids@.len() > 0,
            incident_ok(old(self).scopes@, old(self).active@, tids@, v as int),
            neighbours_ok(old(self).scopes@, old(self).active@, v, out@),
        ensures
            final(self).wf(old(self).v2t@.len() as int),
            final(self).scopes@.len() == old(self).scopes@.len(),
            forall|t: int| 0 <= t < old(self).scopes@.len() ==> #[trigger] final(self).active@[t] == (old(self).active@[t] && (
            t == tids@[0] || !tids@.contains(t as usize))),
            final(self).scopes@[tids@[0] as int]@ == out@,
            forall|t: int| 0 <= t < old(self).scopes@.len() && t != tids@[0] ==> #[trigger] final(self).scopes@[t] == old(self).scopes@[t],
    {
        let n: usize = self.v2t.len();
        let keep: usize = tids[0];
        let ghost g0 = *self;
        proof {
            assert forall|i: int| 0 <= i < tids@.len() implies (#[trigger] tids@[i]) < g0.scopes@.len() by {
                assert(tids@.contains(tids@[i]));
            }
            assert(tids@[0] == keep);
        }
        // Forget the merged slots.
        let mut x: usize = 0;
        while x < n
            invariant
                x <= n == g0.v2t@.len(),
                self.scopes == g0.scopes,
                self.active == g0.active,
                self.v2t@.len() == n,
                g0.wf(n as int),
                incident_ok(g0.scopes@, g0.active@, tids@, v as int),
                forall|y: int| 0 <= y < x ==> stripped(g0.v2t@[y]@, tids@, (#[trigger] self.v2t@[y])@),
                forall|y: int| x <= y < n ==> #[trigger] self.v2t@[y] == g0.v2t@[y],
            decreases n - x,
        {
            let mut list: Vec<usize> = network::copy_ids(&self.v2t[x]);
            let mut i: usize = 0;
            proof {
                assert(incident_ok(g0.scopes@, g0.active@, g0.v2t@[x as int]@, x as int));
            }
            while i < tids.len()
                invariant
                    i <= tids@.len(),
                    x < n == g0.v2t@.len(),
                    list@.no_duplicates(),
                    forall|t: usize| #[trigger] list@.contains(t) <==> (g0.v2t@[x as int]@.contains(t) && !tids@.take(i as int).contains(t)),
                decreases tids.len() - i,
            {
                proof {
                    seqs::lemma_take_next(tids@, i as int);
                }
                list = without(&list, tids[i]);
                i += 1;
            }
            proof {
                seqs::lemma_take_all(tids@);
            }
            self.v2t.set(x, list);
            x += 1;
        }
        // Release all but the first.
        let mut i: usize = 1;
        while i < tids.len()
            invariant
                1 <= i <= tids@.len(),
                self.scopes == g0.scopes,
                self.active@.len() == g0.active@.len() == g0.scopes@.len(),
                self.v2t@.len() == n == g0.v2t@.len(),
                forall|y: int| 0 <= y < n ==> stripped(g0.v2t@[y]@, tids@, (#[trigger] self.v2t@[y])@),
                forall|i: int| 0 <= i < tids@.len() ==> (#[trigger] tids@[i]) < g0.scopes@.len(),
                forall|t: int| 0 <= t < g0.scopes@.len() ==> #[trigger] self.active@[t] == (g0.active@[t] && !tids@.subrange(1, i as int).contains(t as usize)),
            decreases tids.len() - i,
        {
            let ghost a0 = self.active@;
            let t: usize = tids[i];
            self.active.set(t, false);
            proof {
                let s0 = tids@.subrange(1, i as int);
                let s1 = tids@.subrange(1, i + 1);
                assert(s1 =~= s0.push(t));
                seqs::lemma_push_contains(s0, t);
                assert(self.scopes.len() == g0.scopes@.len());
                assert forall|q: int| 0 <= q < g0.scopes@.len() implies #[trigger] self.active@[q] == (g0.active@[q] && !s1.contains(q as usize)) by {
                    assert(a0[q] == (g0.active@[q] && !s0.contains(q as usize)));
                }
            }
            i += 1;
        }
        let scope = network::copy_ids(out);
        self.scopes.set(keep, scope);
        proof {
            assert forall|t: int| 0 <= t < g0.scopes@.len() implies #[trigger] self.active@[t] == (g0.active@[t] && (t == keep || !tids@.contains(t as usize))) by {
                let s = tids@.subrange(1, i as int);
                assert(g0.scopes@.len() == self.scopes.len());
                if s.contains(t as usize) {
                    let k = s.index_of(t as usize);
                    assert(tids@[k + 1] == t as usize);
                    assert(tids@.contains(t as usize));
                    assert(tids@[0] != tids@[k + 1]);
                } else if tids@.contains(t as usize) {
                    let k = tids@.index_of(t as usize);
                    if k > 0 {
                        assert(s[k - 1] == t as usize);
                    }
                }
            }
        }
        // Note the merged slot under each of its variables.
        let ghost mid = self.v2t@;
        let mut j: usize = 0;
        while j < out.len()
            invariant
                j <= out@.len(),
                n == g0.v2t@.len() == self.v2t@.len() == mid.len(),
                g0.wf(n as int),
                v < n,
                neighbours_ok(g0.scopes@, g0.active@, v, out@),
                self.scopes@.len() == g0.scopes@.len(),
                self.active@.len() == g0.active@.len(),
                self.scopes@[keep as int]@ == out@,
                keep < g0.scopes@.len(),
                tids@.len() > 0,
                tids@[0] == keep,
                forall|t: int| 0 <= t < g0.scopes@.len() && t != keep ==> #[trigger] self.scopes@[t] == g0.scopes@[t],
                forall|t: int| 0 <= t < g0.scopes@.len() ==> #[trigger] self.active@[t] == (g0.active@[t] && (t == keep || !tids@.contains(t as usize))),
                forall|y: int| 0 <= y < n ==> stripped(g0.v2t@[y]@, tids@, (#[trigger] mid[y])@),
                forall|y: int| 0 <= y < n ==> (#[trigger] self.v2t@[y])@ == (if out@.take(j as int).contains(y as usize) {
                    mid[y]@.push(keep)
                } else {
                    mid[y]@
                }),
            decreases out.len() - j,
        {
            proof {
                g0.lemma_neighbour_range(v, out@, j as int);
                seqs::lemma_take_next(out@, j as int);
                assert(!out@.take(j as int).contains(out@[j as int])) by {
                    if out@.take(j as int).contains(out@[j as int]) {
                        let k = out@.take(j as int).index_of(out@[j as int]);
                        assert(out@[k] == out@[j as int]);
                    }
                }
            }
            self.v2t[out[j]].push(keep);
            j += 1;
        }
        proof {
            seqs::lemma_take_all(out@);
            self.lemma_merged_wf(g0, v, tids@, out@, mid);
        }
    }

    proof fn lemma_merged_wf(self, g0: VeGraph, v: usize, tids: Seq<usize>, out: Seq<usize>, mid: Seq<Vec<usize>>)
        requires
            g0.wf(g0.v2t@.len() as int),
            v < g0.v2t@.len(),
            tids.len() > 0,
            tids[0] < g0.scopes@.len(),
            incident_ok(g0.scopes@, g0.active@, tids, v as int),
            neighbours_ok(g0.scopes@, g0.active@, v, out),
            self.scopes@.len() == g0.scopes@.len(),
            self.active@.len() == g0.active@.len(),
            self.v2t@.len() == g0.v2t@.len() == mid.len(),
            self.scopes@[tids[0] as int]@ == out,
            forall|t: int| 0 <= t < g0.scopes@.len() && t != tids[0] ==> #[trigger] self.scopes@[t] == g0.scopes@[t],
            forall|t: int| 0 <= t < g0.scopes@.len() ==> #[trigger] self.active@[t] == (g0.active@[t] && (t == tids[0] || !tids.contains(t as usize))),
            forall|y: int| 0 <= y < mid.len() ==> stripped(g0.v2t@[y]@, tids, (#[trigger] mid[y])@),
            forall|y: int| 0 <= y < mid.len() ==> (#[trigger] self.v2t@[y])@ == (if out.contains(y as usize) {
                mid[y]@.push(tids[0])
            } else {
                mid[y]@
            }),
        ensures
            self.wf(g0.v2t@.len() as int),
    {
        let n = g0.v2t@.len() as int;
        let keep = tids[0];
        assert(tids.contains(tids[0]));
        assert(self.v2t.len() == self.v2t@.len());
        assert(self.scopes.len() == self.scopes@.len());
        assert forall|t: int| 0 <= t < self.scopes@.len() && self.active@[t] implies network::ascending_ids((#[trigger] self.scopes@[t])@) by {
            if t != keep {
                assert(g0.scopes@[t] == self.scopes@[t]);
            }
        }
        assert forall|t: int, i: int| 0 <= t < self.scopes@.len() && self.active@[t] && 0 <= i < self.scopes@[t]@.len() implies (#[trigger] self.scopes@[t]@[i]) < n by {
            if t == keep {
                g0.lemma_neighbour_range(v, out, i);
            } else {
                assert(g0.scopes@[t]@[i] < n);
            }
        }
        assert forall|x: int| 0 <= x < n implies incident_ok(self.scopes@, self.active@, (#[trigger] self.v2t@[x])@, x) by {
            let m = mid[x]@;
            let l = self.v2t@[x]@;
            assert(stripped(g0.v2t@[x]@, tids, m));
            assert(incident_ok(g0.scopes@, g0.active@, g0.v2t@[x]@, x));
            seqs::lemma_push_contains(m, keep);
            assert(!m.contains(keep));
            if out.contains(x as usize) {
                assert forall|k: int, q: int| 0 <= k < l.len() && 0 <= q < l.len() && k != q implies l[k] != l[q] by {
                    if k < m.len() {
                        assert(m.contains(m[k]));
                    }
                    if q < m.len() {
                        assert(m.contains(m[q]));
                    }
                }
            }
            assert forall|t: usize| #[trigger] l.contains(t) <==> (t < self.scopes@.len() && self.active@[t as int] && self.scopes@[t as int]@.contains(x as usize)) by {
                if t != keep {
                    assert(m.contains(t) <==> (g0.v2t@[x]@.contains(t) && !tids.contains(t)));
                    if t < self.scopes@.len() {
                        assert(self.scopes@[t as int] == g0.scopes@[t as int]);
                    }
                }
            }
        }
    }
}

/// `list` is `from` without the elements of `drop`.
pub open spec fn stripped(from: Seq<usize>, drop: Seq<usize>, list: Seq<usize>) -> bool {
    &&& list.no_duplicates()
    &&& forall|t: usize| #[trigger] list.contains(t) <==> (from.contains(t) && !drop.contains(t))
}

/// One of the first `upto` slots of `tids` mentions `x`.
pub open spec fn listed_by(scopes: Seq<Vec<usize>>, tids: Seq<usize>, upto: int, x: usize) -> bool {
    exists|k: int| 0 <= k < upto && scopes[(#[trigger] tids[k]) as int]@.contains(x)
}

/// Merging the slots that mention `v` drops `v` from the mentioned variables and no other.
pub proof fn lemma_merge_mentions(g0: VeGraph, g1: VeGraph, v: usize, tids: Seq<usize>, out: Seq<usize>)
    requires
        tids.len() > 0,
        incident_ok(g0.scopes@, g0.active@, tids, v as int),
        neighbours_ok(g0.scopes@, g0.active@, v, out),
        g1.scopes@.len() == g0.scopes@.len(),
        forall|t: int| 0 <= t < g0.scopes@.len() ==> #[trigger] g1.active@[t] == (g0.active@[t] && (t == tids[0] || !tids.contains(t as usize))),
        g1.scopes@[tids[0] as int]@ == out,
        forall|t: int| 0 <= t < g0.scopes@.len() && t != tids[0] ==> #[trigger] g1.scopes@[t] == g0.scopes@[t],
    ensures
        mentions(g0.scopes@, g0.active@, v),
        forall|x: usize| #[trigger] mentions(g1.scopes@, g1.active@, x) <==> (x != v && mentions(g0.scopes@, g0.active@, x)),
{
    let keep = tids[0] as int;
    assert(tids.contains(tids[0]));
    assert(g0.scopes.len() == g0.scopes@.len());
    assert(g0.scopes@[keep]@.contains(v));
    assert forall|x: usize| #[trigger] mentions(g1.scopes@, g1.active@, x) <==> (x != v && mentions(g0.scopes@, g0.active@, x)) by {
        if mentions(g1.scopes@, g1.active@, x) {
            let t = choose|t: int| 0 <= t < g1.scopes@.len() && g1.active@[t] && (#[trigger] g1.scopes@[t])@.contains(x);
            if t == keep {
                assert(out.contains(x));
                let s = choose|s: int| 0 <= s < g0.scopes@.len() && g0.active@[s] && (#[trigger] g0.scopes@[s])@.contains(v) && g0.scopes@[s]@.contains(x);
                assert(g0.scopes@[s]@.contains(x));
            } else {
                assert(g1.scopes@[t] == g0.scopes@[t]);
                assert(g0.scopes@[t]@.contains(x));
                assert(!tids.contains(t as usize));
            }
        }
        if x != v && mentions(g0.scopes@, g0.active@, x) {
            let t = choose|t: int| 0 <= t < g0.scopes@.len() && g0.active@[t] && (#[trigger] g0.scopes@[t])@.contains(x);
            if tids.contains(t as usize) {
                assert(g0.scopes@[t]@.contains(v) && g0.scopes@[t]@.contains(x));
                assert(out.contains(x));
                assert(g1.active@[keep]);
                assert(g1.scopes@[keep]@.contains(x));
            } else {
                assert(g1.scopes@[t] == g0.scopes@[t]);
                assert(g1.active@[t]);
                assert(g1.scopes@[t]@.contains(x));
            }
        }
    }
}

} // verus!
