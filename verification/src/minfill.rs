//! The order of elimination: the variable that adds the fewest links goes next.
use vstd::prelude::*;

use crate::contract;
use crate::network;
use crate::order;
use crate::seqs;
use crate::vegraph;
use crate::vegraph::VeGraph;

verus! {

/// Which variables share a constraint; a variable is linked to itself where it occurs at all.
pub type Links = spec_fn(usize, usize) -> bool;

/// The links after eliminating variables in that order: each one links its neighbours to each
/// other and goes.
pub open spec fn game(start: Links, gone: Seq<usize>) -> Links
    decreases gone.len(),
{
    if gone.len() == 0 {
        start
    } else {
        let before = game(start, gone.drop_last());
        let v = gone.last();
        |a: usize, b: usize| a != v && b != v && (before(a, b) || (before(v, a) && before(v, b)))
    }
}

/// `out` lists, ascending, the neighbours of `v`.
pub open spec fn lists_linked(l: Links, v: usize, out: Seq<usize>) -> bool {
    &&& network::ascending_ids(out)
    &&& forall|x: usize| #[trigger] out.contains(x) <==> (x != v && l(v, x))
}

/// The number of `j` in `i+1..upto` such that `out[i]` and `out[j]` are not linked.
pub open spec fn gap_row(l: Links, out: Seq<usize>, i: int, upto: int) -> nat
    decreases upto - i,
{
    if upto <= i + 1 {
        0
    } else {
        gap_row(l, out, i, upto - 1) + (if l(out[i], out[upto - 1]) {
            0nat
        } else {
            1nat
        })
    }
}

/// The number of pairs of `out`, the first below position `upto`, that are not linked.
pub open spec fn gaps(l: Links, out: Seq<usize>, upto: int) -> nat
    decreases upto,
{
    if upto <= 0 {
        0
    } else {
        gaps(l, out, upto - 1) + gap_row(l, out, upto - 1, out.len() as int)
    }
}

/// Eliminating `v` is allowed, adds `f` links and has width `sc`.
pub open spec fn costs(l: Links, held: spec_fn(usize) -> bool, budget: int, v: usize, f: usize, sc: usize) -> bool {
    !held(v) && l(v, v) && exists|out: Seq<usize>| #[trigger]
        lists_linked(l, v, out) && out.len() <= 32 && out.len() + 1 <= budget && f == gaps(l, out, out.len() as int) && sc == out.len() + 1
}

/// Eliminating `v` is allowed and adds the fewest links; of several such the one of least width,
/// and of those the first.
pub open spec fn first_in_line(l: Links, held: spec_fn(usize) -> bool, n: int, budget: int, v: usize) -> bool {
    exists|f: usize, sc: usize|
        {
            &&& v < n
            &&& #[trigger] costs(l, held, budget, v, f, sc)
            &&& forall|u: usize, g: usize, s: usize| u < n && #[trigger] costs(l, held, budget, u, g, s) ==> vegraph::triple_le((f, sc, v), (g, s, u))
        }
}

/// The variables were eliminated in the order of what they add.
#[verifier::opaque]
pub open spec fn in_order(start: Links, held: spec_fn(usize) -> bool, n: int, budget: int, gone: Seq<usize>) -> bool {
    forall|i: int| 0 <= i < gone.len() ==> first_in_line(game(start, #[trigger] gone.take(i)), held, n, budget, gone[i])
}

/// The links of the slots in use.
pub open spec fn links_of(g: VeGraph) -> Links {
    |a: usize, b: usize| vegraph::linked(g.scopes@, g.active@, a, b)
}

/// One more variable in its turn.
pub proof fn lemma_in_order_push(start: Links, held: spec_fn(usize) -> bool, n: int, budget: int, gone: Seq<usize>, v: usize)
    requires
        in_order(start, held, n, budget, gone),
        first_in_line(game(start, gone), held, n, budget, v),
    ensures
        in_order(start, held, n, budget, gone.push(v)),
{
    reveal(in_order);
    let all = gone.push(v);
    assert forall|i: int| 0 <= i < all.len() implies first_in_line(game(start, #[trigger] all.take(i)), held, n, budget, all[i]) by {
        assert(all.take(i) =~= gone.take(i));
        if i == gone.len() {
            assert(gone.take(i) =~= gone);
        } else {
            assert(first_in_line(game(start, gone.take(i)), held, n, budget, gone[i]));
        }
    }
}

proof fn lemma_gap_row(g: VeGraph, l: Links, out: Seq<usize>, i: int, upto: int)
    requires
        0 <= i,
        upto <= out.len(),
        forall|a: usize, b: usize| out.contains(a) && out.contains(b) ==> (#[trigger] l(a, b) <==> vegraph::linked(g.scopes@, g.active@, a, b)),
    ensures
        gap_row(l, out, i, upto) == vegraph::fill_row(g.scopes@, g.active@, out, i, upto),
    decreases upto - i,
{
    if upto > i + 1 {
        lemma_gap_row(g, l, out, i, upto - 1);
        assert(out.contains(out[i]) && out.contains(out[upto - 1]));
        assert(l(out[i], out[upto - 1]) <==> vegraph::linked(g.scopes@, g.active@, out[i], out[upto - 1]));
    }
}

/// The fill is the number of gaps, whichever way the links are given.
proof fn lemma_gaps(g: VeGraph, l: Links, out: Seq<usize>, upto: int)
    requires
        upto <= out.len(),
        forall|a: usize, b: usize| out.contains(a) && out.contains(b) ==> (#[trigger] l(a, b) <==> vegraph::linked(g.scopes@, g.active@, a, b)),
    ensures
        gaps(l, out, upto) == vegraph::fill(g.scopes@, g.active@, out, upto),
    decreases upto,
{
    if upto > 0 {
        lemma_gaps(g, l, out, upto - 1);
        lemma_gap_row(g, l, out, upto - 1, out.len() as int);
    }
}

proof fn lemma_mentions_linked(g: VeGraph, v: usize)
    ensures
        vegraph::mentions(g.scopes@, g.active@, v) <==> vegraph::linked(g.scopes@, g.active@, v, v),
{
    if vegraph::mentions(g.scopes@, g.active@, v) {
        let t = choose|t: int| 0 <= t < g.scopes@.len() && g.active@[t] && (#[trigger] g.scopes@[t])@.contains(v);
        assert(g.scopes@[t]@.contains(v) && g.scopes@[t]@.contains(v));
    }
    if vegraph::linked(g.scopes@, g.active@, v, v) {
        let t = choose|t: int| 0 <= t < g.scopes@.len() && g.active@[t] && (#[trigger] g.scopes@[t])@.contains(v) && g.scopes@[t]@.contains(v);
        assert(g.scopes@[t]@.contains(v));
    }
}

/// What a variable costs is its score.
pub proof fn lemma_costs(g: VeGraph, l: Links, held: spec_fn(usize) -> bool, protected: Seq<bool>, budget: int, v: usize, f: usize, sc: usize)
    requires
        forall|a: usize, b: usize| #[trigger] l(a, b) <==> vegraph::linked(g.scopes@, g.active@, a, b),
        held(v) == protected[v as int],
    ensures
        costs(l, held, budget, v, f, sc) <==> vegraph::is_score(g.scopes@, g.active@, protected, budget, v, Some((f, sc))),
{
    lemma_mentions_linked(g, v);
    assert(l(v, v) <==> vegraph::linked(g.scopes@, g.active@, v, v));
    if costs(l, held, budget, v, f, sc) {
        let out = choose|out: Seq<usize>| #[trigger]
            lists_linked(l, v, out) && out.len() <= 32 && out.len() + 1 <= budget && f == gaps(l, out, out.len() as int) && sc == out.len() + 1;
        lemma_gaps(g, l, out, out.len() as int);
        assert(vegraph::neighbours_ok(g.scopes@, g.active@, v, out)) by {
            assert forall|x: usize| #[trigger] out.contains(x) <==> (x != v && vegraph::linked(g.scopes@, g.active@, v, x)) by {
                assert(l(v, x) <==> vegraph::linked(g.scopes@, g.active@, v, x));
            }
        }
    }
    if vegraph::is_score(g.scopes@, g.active@, protected, budget, v, Some((f, sc))) {
        let out = choose|out: Seq<usize>| #[trigger]
            vegraph::neighbours_ok(g.scopes@, g.active@, v, out) && out.len() <= 32 && out.len() + 1 <= budget && f == vegraph::fill(g.scopes@, g.active@, out, out.len() as int) && sc == out.len() + 1;
        lemma_gaps(g, l, out, out.len() as int);
        assert(lists_linked(l, v, out)) by {
            assert forall|x: usize| #[trigger] out.contains(x) <==> (x != v && l(v, x)) by {
                assert(l(v, x) <==> vegraph::linked(g.scopes@, g.active@, v, x));
            }
        }
    }
}

/// Merging the slots that mention `v` links its neighbours.
pub open spec fn merged_links(g0: VeGraph, g1: VeGraph, v: usize) -> bool {
    forall|a: usize, b: usize| #[trigger]
        vegraph::linked(g1.scopes@, g1.active@, a, b) <==> (a != v && b != v && (vegraph::linked(g0.scopes@, g0.active@, a, b) || (vegraph::linked(g0.scopes@, g0.active@, v, a) && vegraph::linked(
            g0.scopes@,
            g0.active@,
            v,
            b,
        ))))
}

pub proof fn lemma_merge_links(g0: VeGraph, g1: VeGraph, v: usize, tids: Seq<usize>, out: Seq<usize>)
    requires
        tids.len() > 0,
        vegraph::incident_ok(g0.scopes@, g0.active@, tids, v as int),
        vegraph::neighbours_ok(g0.scopes@, g0.active@, v, out),
        g1.scopes@.len() == g0.scopes@.len(),
        forall|t: int| 0 <= t < g0.scopes@.len() ==> #[trigger] g1.active@[t] == (g0.active@[t] && (t == tids[0] || !tids.contains(t as usize))),
        g1.scopes@[tids[0] as int]@ == out,
        forall|t: int| 0 <= t < g0.scopes@.len() && t != tids[0] ==> #[trigger] g1.scopes@[t] == g0.scopes@[t],
    ensures
        merged_links(g0, g1, v),
{
    let keep = tids[0] as int;
    assert(tids.contains(tids[0]));
    assert(g0.scopes.len() == g0.scopes@.len());
    assert forall|a: usize, b: usize| #[trigger]
        vegraph::linked(g1.scopes@, g1.active@, a, b) <==> (a != v && b != v && (vegraph::linked(g0.scopes@, g0.active@, a, b) || (vegraph::linked(g0.scopes@, g0.active@, v, a) && vegraph::linked(
            g0.scopes@,
            g0.active@,
            v,
            b,
        )))) by {
        if vegraph::linked(g1.scopes@, g1.active@, a, b) {
            let t = choose|t: int| 0 <= t < g1.scopes@.len() && g1.active@[t] && (#[trigger] g1.scopes@[t])@.contains(a) && g1.scopes@[t]@.contains(b);
            if t == keep {
                assert(out.contains(a) && out.contains(b));
            } else {
                assert(g1.scopes@[t] == g0.scopes@[t]);
                assert(g0.scopes@[t]@.contains(a) && g0.scopes@[t]@.contains(b));
                assert(!tids.contains(t as usize));
            }
        }
        if a != v && b != v && vegraph::linked(g0.scopes@, g0.active@, v, a) && vegraph::linked(g0.scopes@, g0.active@, v, b) {
            assert(out.contains(a) && out.contains(b));
            assert(g1.active@[keep]);
            assert(g1.scopes@[keep]@.contains(a) && g1.scopes@[keep]@.contains(b));
        } else if a != v && b != v && vegraph::linked(g0.scopes@, g0.active@, a, b) {
            let t = choose|t: int| 0 <= t < g0.scopes@.len() && g0.active@[t] && (#[trigger] g0.scopes@[t])@.contains(a) && g0.scopes@[t]@.contains(b);
            if tids.contains(t as usize) {
                assert(g0.scopes@[t]@.contains(v) && g0.scopes@[t]@.contains(a));
                assert(g0.scopes@[t]@.contains(v) && g0.scopes@[t]@.contains(b));
            }
            assert(!tids.contains(t as usize));
            assert(g1.scopes@[t] == g0.scopes@[t]);
            assert(g1.active@[t]);
            assert(g1.scopes@[t]@.contains(a) && g1.scopes@[t]@.contains(b));
        }
    }
}

proof fn lemma_linked_symmetric(g: VeGraph, a: usize, b: usize)
    requires
        vegraph::linked(g.scopes@, g.active@, a, b),
    ensures
        vegraph::linked(g.scopes@, g.active@, b, a),
        vegraph::linked(g.scopes@, g.active@, b, b),
{
    let t = choose|t: int| 0 <= t < g.scopes@.len() && g.active@[t] && (#[trigger] g.scopes@[t])@.contains(a) && g.scopes@[t]@.contains(b);
    assert(g.scopes@[t]@.contains(b) && g.scopes@[t]@.contains(a));
}

/// Some listed variable is linked to `x`.
pub open spec fn reached(g: VeGraph, out: Seq<usize>, x: usize) -> bool {
    exists|i: int| 0 <= i < out.len() && vegraph::linked(g.scopes@, g.active@, #[trigger] out[i], x)
}

/// Eliminating `v` leaves alone what it costs to eliminate a variable that no neighbour of `v` is
/// linked to.
pub proof fn lemma_score_stays(g0: VeGraph, g1: VeGraph, protected: Seq<bool>, budget: int, v: usize, out: Seq<usize>, u: usize, f: usize, sc: usize)
    requires
        merged_links(g0, g1, v),
        vegraph::neighbours_ok(g0.scopes@, g0.active@, v, out),
        !reached(g1, out, u),
        vegraph::is_score(g1.scopes@, g1.active@, protected, budget, u, Some((f, sc))),
    ensures
        vegraph::is_score(g0.scopes@, g0.active@, protected, budget, u, Some((f, sc))),
        u != v,
{
    let around = choose|around: Seq<usize>| #[trigger]
        vegraph::neighbours_ok(g1.scopes@, g1.active@, u, around) && around.len() <= 32 && around.len() + 1 <= budget && f == vegraph::fill(g1.scopes@, g1.active@, around, around.len() as int)
            && sc == around.len() + 1;
    lemma_mentions_linked(g1, u);
    lemma_mentions_linked(g0, u);
    assert(vegraph::linked(g1.scopes@, g1.active@, u, u));
    assert(!out.contains(u)) by {
        if out.contains(u) {
            let i = out.index_of(u);
            assert(vegraph::linked(g1.scopes@, g1.active@, out[i], u));
        }
    }
    assert(!vegraph::linked(g0.scopes@, g0.active@, v, u));
    assert(!vegraph::linked(g0.scopes@, g0.active@, u, v)) by {
        if vegraph::linked(g0.scopes@, g0.active@, u, v) {
            lemma_linked_symmetric(g0, u, v);
        }
    }
    assert forall|x: usize| #[trigger] around.contains(x) implies !out.contains(x) by {
        if out.contains(x) {
            lemma_linked_symmetric(g1, u, x);
            let i = out.index_of(x);
            assert(vegraph::linked(g1.scopes@, g1.active@, out[i], u));
        }
    }
    assert(vegraph::neighbours_ok(g0.scopes@, g0.active@, u, around)) by {
        assert forall|x: usize| #[trigger] around.contains(x) <==> (x != u && vegraph::linked(g0.scopes@, g0.active@, u, x)) by {
            assert(vegraph::linked(g1.scopes@, g1.active@, u, x) <==> (x != v && vegraph::linked(g0.scopes@, g0.active@, u, x)));
        }
    }
    assert forall|a: usize, b: usize| around.contains(a) && around.contains(b) implies (#[trigger] links_of(g0)(a, b) <==> vegraph::linked(g1.scopes@, g1.active@, a, b)) by {
        assert(!out.contains(a));
        assert(a != v && b != v);
        assert(vegraph::linked(g1.scopes@, g1.active@, a, b) <==> vegraph::linked(g0.scopes@, g0.active@, a, b));
    }
    lemma_gaps(g1, links_of(g0), around, around.len() as int);
    lemma_gaps(g0, links_of(g0), around, around.len() as int);
}

/// Every variable that may go is queued with its score, but for `but`.
pub open spec fn queue_full(g: VeGraph, protected: Seq<bool>, budget: int, heap: Seq<(usize, usize, usize)>, but: Option<usize>) -> bool {
    forall|u: usize, f: usize, sc: usize|
        u < protected.len() && Some(u) != but && #[trigger] vegraph::is_score(g.scopes@, g.active@, protected, budget, u, Some((f, sc))) ==> heap.contains((f, sc, u))
}

proof fn lemma_entry_in(ids: Seq<usize>, scores: Seq<Option<(usize, usize)>>, k: int, i: int, f: usize, sc: usize)
    requires
        0 <= i < k,
        scores[i] == Some((f, sc)),
    ensures
        vegraph::entries(ids, scores, k).contains((f, sc, ids[i])),
    decreases k,
{
    let e = vegraph::entries(ids, scores, k);
    if i == k - 1 {
        assert(e[e.len() - 1] == (f, sc, ids[i]));
    } else {
        lemma_entry_in(ids, scores, k - 1, i, f, sc);
        let b = vegraph::entries(ids, scores, k - 1);
        let j = b.index_of((f, sc, ids[i]));
        assert(e[j] == b[j]);
    }
}

/// A variable has one score only.
pub proof fn lemma_one_score(g: VeGraph, protected: Seq<bool>, budget: int, v: usize, r: Option<(usize, usize)>, q: Option<(usize, usize)>)
    requires
        vegraph::is_score(g.scopes@, g.active@, protected, budget, v, r),
        vegraph::is_score(g.scopes@, g.active@, protected, budget, v, q),
    ensures
        r == q,
{
    if !protected[v as int] && vegraph::mentions(g.scopes@, g.active@, v) {
        let a = choose|out: Seq<usize>| #[trigger] vegraph::neighbours_ok(g.scopes@, g.active@, v, out) && match r {
            Some((f, sc)) => out.len() <= 32 && out.len() + 1 <= budget && f == vegraph::fill(g.scopes@, g.active@, out, out.len() as int) && sc == out.len() + 1,
            None => out.len() > 32 || out.len() + 1 > budget,
        };
        let b = choose|out: Seq<usize>| #[trigger] vegraph::neighbours_ok(g.scopes@, g.active@, v, out) && match q {
            Some((f, sc)) => out.len() <= 32 && out.len() + 1 <= budget && f == vegraph::fill(g.scopes@, g.active@, out, out.len() as int) && sc == out.len() + 1,
            None => out.len() > 32 || out.len() + 1 > budget,
        };
        assert forall|x: usize| #[trigger] a.contains(x) <==> b.contains(x) by {}
        contract::lemma_ascending_same(a, b);
    }
}

/// A variable whose score is listed is queued with it.
pub proof fn lemma_listed(g: VeGraph, protected: Seq<bool>, budget: int, ids: Seq<usize>, list: Seq<(usize, usize, usize)>, u: usize, f: usize, sc: usize)
    requires
        vegraph::lists_scores(g.scopes@, g.active@, protected, budget, ids, list),
        ids.contains(u),
        vegraph::is_score(g.scopes@, g.active@, protected, budget, u, Some((f, sc))),
    ensures
        list.contains((f, sc, u)),
{
    let scores = choose|scores: Seq<Option<(usize, usize)>>|
        {
            &&& scores.len() == ids.len()
            &&& forall|i: int| 0 <= i < ids.len() ==> vegraph::is_score(g.scopes@, g.active@, protected, budget, ids[i], #[trigger] scores[i])
            &&& list == #[trigger] vegraph::entries(ids, scores, ids.len() as int)
        };
    let i = ids.index_of(u);
    assert(vegraph::is_score(g.scopes@, g.active@, protected, budget, ids[i], scores[i]));
    lemma_one_score(g, protected, budget, u, scores[i], Some((f, sc)));
    lemma_entry_in(ids, scores, ids.len() as int, i, f, sc);
}

/// The ids below `n` with a property, ascending.
proof fn lemma_listing(p: spec_fn(usize) -> bool, n: int) -> (out: Seq<usize>)
    requires
        0 <= n <= usize::MAX,
    ensures
        network::ascending_ids(out),
        forall|x: usize| #[trigger] out.contains(x) <==> (x < n && p(x)),
    decreases n,
{
    if n == 0 {
        Seq::empty()
    } else {
        let before = lemma_listing(p, n - 1);
        let y = (n - 1) as usize;
        if p(y) {
            let out = before.push(y);
            seqs::lemma_push_contains(before, y);
            assert forall|i: int, j: int| 0 <= i < j < out.len() implies out[i] < out[j] by {
                assert(before.contains(out[i]));
            }
            out
        } else {
            before
        }
    }
}

proof fn lemma_fill_bound(g: VeGraph, out: Seq<usize>, i: int, upto: int)
    requires
        0 <= i,
        out.len() <= 32,
        upto <= out.len(),
    ensures
        vegraph::fill_row(g.scopes@, g.active@, out, i, upto) <= 32,
        vegraph::fill_row(g.scopes@, g.active@, out, i, upto) <= (if upto > i {
            upto - i
        } else {
            0
        }),
    decreases upto - i,
{
    if upto > i + 1 {
        lemma_fill_bound(g, out, i, upto - 1);
    }
}

proof fn lemma_fill_fits(g: VeGraph, out: Seq<usize>, upto: int)
    requires
        out.len() <= 32,
        0 <= upto <= out.len(),
    ensures
        vegraph::fill(g.scopes@, g.active@, out, upto) <= 32 * upto,
    decreases upto,
{
    if upto > 0 {
        lemma_fill_fits(g, out, upto - 1);
        lemma_fill_bound(g, out, upto - 1, out.len() as int);
    }
}

/// When nothing is queued, nobody may go.
pub proof fn lemma_exhausted(g: VeGraph, protected: Seq<bool>, budget: int)
    requires
        g.wf(protected.len() as int),
        queue_full(g, protected, budget, Seq::empty(), None),
    ensures
        vegraph::exhausted(g.scopes@, g.active@, protected, budget),
{
    let n = protected.len() as int;
    assert(g.v2t.len() == n);
    assert forall|v: usize|
        v < protected.len() && !protected[v as int] && #[trigger] vegraph::mentions(g.scopes@, g.active@, v) implies exists|out: Seq<usize>|
        #[trigger] vegraph::neighbours_ok(g.scopes@, g.active@, v, out) && (out.len() > 32 || out.len() + 1 > budget) by {
        let p = |x: usize| x != v && vegraph::linked(g.scopes@, g.active@, v, x);
        let out = lemma_listing(p, n);
        assert(vegraph::neighbours_ok(g.scopes@, g.active@, v, out)) by {
            assert forall|x: usize| #[trigger] out.contains(x) <==> (x != v && vegraph::linked(g.scopes@, g.active@, v, x)) by {
                if vegraph::linked(g.scopes@, g.active@, v, x) {
                    let t = choose|t: int| 0 <= t < g.scopes@.len() && g.active@[t] && (#[trigger] g.scopes@[t])@.contains(v) && g.scopes@[t]@.contains(x);
                    let k = g.scopes@[t]@.index_of(x);
                    assert(g.scopes@[t]@[k] < n);
                }
                assert(out.contains(x) <==> (x < n && p(x)));
            }
        }
        if out.len() <= 32 && out.len() + 1 <= budget {
            lemma_fill_fits(g, out, out.len() as int);
            let f = vegraph::fill(g.scopes@, g.active@, out, out.len() as int) as usize;
            let sc = (out.len() + 1) as usize;
            assert(vegraph::is_score(g.scopes@, g.active@, protected, budget, v, Some((f, sc))));
            assert(Seq::<(usize, usize, usize)>::empty().contains((f, sc, v)));
        }
    }
}

/// The variable may go, and its score is the least of all.
pub open spec fn least(g: VeGraph, protected: Seq<bool>, budget: int, v: usize) -> bool {
    exists|f: usize, sc: usize|
        {
            &&& v < protected.len()
            &&& #[trigger] vegraph::is_score(g.scopes@, g.active@, protected, budget, v, Some((f, sc)))
            &&& forall|u: usize, x: usize, y: usize|
                u < protected.len() && #[trigger] vegraph::is_score(g.scopes@, g.active@, protected, budget, u, Some((x, y))) ==> vegraph::triple_le((f, sc, v), (x, y, u))
        }
}

/// The least entry of a full queue, where it is right, is of the least variable.
pub proof fn lemma_popped_least(g: VeGraph, protected: Seq<bool>, budget: int, heap: Seq<(usize, usize, usize)>, f: usize, sc: usize, v: usize)
    requires
        v < protected.len(),
        vegraph::is_score(g.scopes@, g.active@, protected, budget, v, Some((f, sc))),
        queue_full(g, protected, budget, heap, None),
        forall|k: int| 0 <= k < heap.len() ==> vegraph::triple_le((f, sc, v), #[trigger] heap[k]),
    ensures
        least(g, protected, budget, v),
{
    assert forall|u: usize, x: usize, y: usize|
        u < protected.len() && #[trigger] vegraph::is_score(g.scopes@, g.active@, protected, budget, u, Some((x, y))) implies vegraph::triple_le((f, sc, v), (x, y, u)) by {
        assert(heap.contains((x, y, u)));
        let k = heap.index_of((x, y, u));
        assert(heap[k] == (x, y, u));
    }
}

/// The least variable is first in line.
pub proof fn lemma_least_first(g: VeGraph, l: Links, held: spec_fn(usize) -> bool, protected: Seq<bool>, budget: int, v: usize)
    requires
        forall|a: usize, b: usize| #[trigger] l(a, b) <==> vegraph::linked(g.scopes@, g.active@, a, b),
        forall|u: usize| u < protected.len() ==> #[trigger] held(u) == protected[u as int],
        least(g, protected, budget, v),
    ensures
        first_in_line(l, held, protected.len() as int, budget, v),
{
    let (f, sc) = choose|f: usize, sc: usize|
        {
            &&& v < protected.len()
            &&& #[trigger] vegraph::is_score(g.scopes@, g.active@, protected, budget, v, Some((f, sc)))
            &&& forall|u: usize, x: usize, y: usize|
                u < protected.len() && #[trigger] vegraph::is_score(g.scopes@, g.active@, protected, budget, u, Some((x, y))) ==> vegraph::triple_le((f, sc, v), (x, y, u))
        };
    assert(held(v) == protected[v as int]);
    lemma_costs(g, l, held, protected, budget, v, f, sc);
    assert forall|u: usize, x: usize, y: usize| u < protected.len() && #[trigger] costs(l, held, budget, u, x, y) implies vegraph::triple_le((f, sc, v), (x, y, u)) by {
        assert(held(u) == protected[u as int]);
        lemma_costs(g, l, held, protected, budget, u, x, y);
        assert(vegraph::is_score(g.scopes@, g.active@, protected, budget, u, Some((x, y))));
    }
}

/// Scoring anew whoever a neighbour of the eliminated variable is linked to keeps the queue full.
pub proof fn lemma_queue_kept(g0: VeGraph, g1: VeGraph, protected: Seq<bool>, budget: int, v: usize, out: Seq<usize>, near: Seq<usize>, before: Seq<(usize, usize, usize)>, after: Seq<(usize, usize, usize)>)
    requires
        merged_links(g0, g1, v),
        vegraph::neighbours_ok(g0.scopes@, g0.active@, v, out),
        queue_full(g0, protected, budget, before, Some(v)),
        forall|x: usize| #[trigger] near.contains(x) <==> reached(g1, out, x),
        before.len() <= after.len(),
        after.take(before.len() as int) == before,
        vegraph::lists_scores(g1.scopes@, g1.active@, protected, budget, near, after.skip(before.len() as int)),
    ensures
        queue_full(g1, protected, budget, after, None),
{
    assert forall|u: usize, f: usize, sc: usize|
        u < protected.len() && #[trigger] vegraph::is_score(g1.scopes@, g1.active@, protected, budget, u, Some((f, sc))) implies after.contains((f, sc, u)) by {
        if reached(g1, out, u) {
            assert(near.contains(u));
            let added = after.skip(before.len() as int);
            lemma_listed(g1, protected, budget, near, added, u, f, sc);
            let k = added.index_of((f, sc, u));
            assert(after[before.len() + k] == added[k]);
        } else {
            lemma_score_stays(g0, g1, protected, budget, v, out, u, f, sc);
            assert(before.contains((f, sc, u)));
            let k = before.index_of((f, sc, u));
            assert(after[k] == after.take(before.len() as int)[k]);
        }
    }
}

/// The links of the constraints of a network, or of relations, given by their scopes.
pub open spec fn ties(scopes: Seq<Seq<usize>>) -> Links {
    |a: usize, b: usize| vegraph::tied(scopes, a, b)
}

/// The links after one more variable is gone.
pub proof fn lemma_game_next(start: Links, gone: Seq<usize>, g0: VeGraph, g1: VeGraph, v: usize)
    requires
        forall|a: usize, b: usize| #[trigger] game(start, gone)(a, b) <==> vegraph::linked(g0.scopes@, g0.active@, a, b),
        merged_links(g0, g1, v),
    ensures
        forall|a: usize, b: usize| #[trigger] game(start, gone.push(v))(a, b) <==> vegraph::linked(g1.scopes@, g1.active@, a, b),
{
    let l = game(start, gone);
    assert(gone.push(v).drop_last() =~= gone);
    assert forall|a: usize, b: usize| #[trigger] game(start, gone.push(v))(a, b) <==> vegraph::linked(g1.scopes@, g1.active@, a, b) by {
        assert(l(a, b) <==> vegraph::linked(g0.scopes@, g0.active@, a, b));
        assert(l(v, a) <==> vegraph::linked(g0.scopes@, g0.active@, v, a));
        assert(l(v, b) <==> vegraph::linked(g0.scopes@, g0.active@, v, b));
    }
}

impl VeGraph {
    /// The variables that some listed one is linked to.
    pub fn around(&self, out: &Vec<usize>) -> (r: Vec<usize>)
        requires
            self.wf(self.v2t@.len() as int),
            forall|i: int| 0 <= i < out@.len() ==> (#[trigger] out@[i]) < self.v2t@.len(),
        ensures
            forall|x: usize| #[trigger] r@.contains(x) <==> reached(*self, out@, x),
            forall|i: int| 0 <= i < r@.len() ==> (#[trigger] r@[i]) < self.v2t@.len(),
    {
        let mut all: Vec<usize> = Vec::new();
        let mut i: usize = 0;
        while i < out.len()
            invariant
                i <= out@.len(),
                self.wf(self.v2t@.len() as int),
                forall|i: int| 0 <= i < out@.len() ==> (#[trigger] out@[i]) < self.v2t@.len(),
                forall|x: usize| #[trigger] all@.contains(x) <==> reached(*self, out@.take(i as int), x),
            decreases out.len() - i,
        {
            let a: usize = out[i];
            let tids = self.incident(a);
            let near = self.neighbours(&tids, a);
            let ghost all0 = all@;
            if tids.len() > 0 {
                all.push(a);
            }
            let ghost all1 = all@;
            let mut j: usize = 0;
            while j < near.len()
                invariant
                    j <= near@.len(),
                    forall|x: usize| #[trigger] all@.contains(x) <==> (all1.contains(x) || near@.take(j as int).contains(x)),
                decreases near.len() - j,
            {
                proof {
                    seqs::lemma_take_next(near@, j as int);
                    seqs::lemma_push_contains(all@, near@[j as int]);
                }
                all.push(near[j]);
                j += 1;
            }
            proof {
                seqs::lemma_take_all(near@);
                seqs::lemma_push_contains(all0, a);
                lemma_mentions_linked(*self, a);
                assert(vegraph::mentions(self.scopes@, self.active@, a) <==> tids@.len() > 0) by {
                    if tids@.len() > 0 {
                        assert(tids@.contains(tids@[0]));
                        assert(self.scopes@[tids@[0] as int]@.contains(a));
                    }
                    if vegraph::mentions(self.scopes@, self.active@, a) {
                        let t = choose|t: int| 0 <= t < self.scopes@.len() && self.active@[t] && (#[trigger] self.scopes@[t])@.contains(a);
                        assert(self.scopes.len() == self.scopes@.len());
                        assert(tids@.contains(t as usize));
                    }
                }
                let t0 = out@.take(i as int);
                let t1 = out@.take(i + 1);
                assert forall|x: usize| #[trigger] all@.contains(x) <==> reached(*self, t1, x) by {
                    assert(all0.contains(x) <==> reached(*self, t0, x));
                    if reached(*self, t0, x) {
                        let k = choose|k: int| 0 <= k < t0.len() && vegraph::linked(self.scopes@, self.active@, #[trigger] t0[k], x);
                        assert(t1[k] == t0[k]);
                    }
                    if vegraph::linked(self.scopes@, self.active@, a, x) {
                        assert(t1[i as int] == a);
                    }
                    if reached(*self, t1, x) {
                        let k = choose|k: int| 0 <= k < t1.len() && vegraph::linked(self.scopes@, self.active@, #[trigger] t1[k], x);
                        if k < i {
                            assert(t0[k] == t1[k]);
                        }
                    }
                    assert(near@.contains(x) <==> (x != a && vegraph::linked(self.scopes@, self.active@, a, x)));
                }
            }
            i += 1;
        }
        let r = order::sort_dedup_ids(all);
        proof {
            seqs::lemma_take_all(out@);
            assert forall|k: int| 0 <= k < r@.len() implies (#[trigger] r@[k]) < self.v2t@.len() by {
                let x = r@[k];
                assert(r@.contains(x));
                assert(all@.contains(x));
                assert(reached(*self, out@, x));
                let q = choose|q: int| 0 <= q < out@.len() && vegraph::linked(self.scopes@, self.active@, #[trigger] out@[q], x);
                let t = choose|t: int| 0 <= t < self.scopes@.len() && self.active@[t] && (#[trigger] self.scopes@[t])@.contains(out@[q]) && self.scopes@[t]@.contains(x);
                let z = self.scopes@[t]@.index_of(x);
                assert(self.scopes@[t]@[z] < self.v2t@.len());
            }
            assert forall|x: usize| #[trigger] r@.contains(x) <==> reached(*self, out@, x) by {
                assert(r@.contains(x) <==> all@.contains(x));
            }
        }
        r
    }
}

} // verus!
