//! What is within bounds, and what fits together.
use vstd::prelude::*;

use crate::cdcl;
use crate::ct;
use crate::cube;
use crate::cube::{CncSatPolicy, Cube, CubeNodeTrace, CubeStats};
use crate::dimacs;
use crate::domain::DomainMask;
use crate::formats;
use crate::laws::lists;
use crate::laws::sizes;
use crate::models;
use crate::network;
use crate::network::ConstraintNetwork;
use crate::problem;
use crate::problem::TnProblem;
use crate::propagate;
use crate::region;
use crate::selector;
use crate::semiring::Weight;
use crate::sliced;
use crate::table;
use crate::text;
use crate::trail::State;
use crate::util;

verus! {

/// White space is what Unicode calls so: the controls from tab to carriage return, the space, the next
/// line, the spaces that do not break or have a width of their own, and the separators of lines and paragraphs.
pub proof fn law_white_space(c: char)
    ensures
        text::blank(c) <==> {
            ||| c == '\t' || c == '\n' || c == '\u{b}' || c == '\u{c}' || c == '\r' || c == ' '
            ||| c == '\u{85}' || c == '\u{a0}' || c == '\u{1680}'
            ||| '\u{2000}' <= c <= '\u{200a}'
            ||| c == '\u{2028}' || c == '\u{2029}' || c == '\u{202f}' || c == '\u{205f}' || c == '\u{3000}'
        },
{
}

/// A formula is taken where no clause has more than twenty literals, and otherwise refused for the first that has.
pub proof fn law_width_of_clauses(clauses: Seq<Seq<i64>>, width: usize)
    ensures
        dimacs::none_wide(clauses) <==> forall|j: int| 0 <= j < clauses.len() ==> (#[trigger] clauses[j]).len() <= 20,
        dimacs::first_wide(clauses, width) ==> !dimacs::none_wide(clauses) && width > 20,
        dimacs::first_wide(clauses, width) <==> exists|k: int| 0 <= k < clauses.len() && (#[trigger] clauses[k]).len() == width && width > 20 && forall|j: int| 0 <= j < k ==> (#[trigger] clauses[j]).len() <= 20,
{
    if dimacs::first_wide(clauses, width) {
        let k = choose|k: int| 0 <= k < clauses.len() && width == (#[trigger] clauses[k]).len() && width > dimacs::MAX_CLAUSE_WIDTH && forall|j: int| 0 <= j < k ==> (#[trigger] clauses[j]).len() <= dimacs::MAX_CLAUSE_WIDTH;
        assert(clauses[k].len() == width);
    }
}

/// A problem is made of a formula where every clause that constrains something is over at most twenty variables.
pub proof fn law_width_of_problems(clauses: Seq<Seq<i64>>)
    ensures
        formats::first_long(clauses, clauses.len() as int) is None <==> forall|i: int| 0 <= i < clauses.len() && !formats::tautology(#[trigger] clauses[i]) ==> formats::width(clauses[i]) <= 20,
{
    lists::law_first_long_clause(clauses);
    let p = |i: int| !formats::tautology(clauses[i]) && formats::width(clauses[i]) > dimacs::MAX_CLAUSE_WIDTH;
    let g = |i: int| formats::width(clauses[i]);
    let r = formats::first_long(clauses, clauses.len() as int);
    if r is Some {
        let i = choose|i: int| #[trigger] sizes::stands_first(i, clauses.len() as int, p) && r->0 == g(i);
        assert(p(i));
    } else {
        assert forall|i: int| 0 <= i < clauses.len() && !formats::tautology(#[trigger] clauses[i]) implies formats::width(clauses[i]) <= 20 by {
            assert(!p(i));
        }
    }
}

/// At most sixteen variables are probed, and all that score where there are fewer.
pub proof fn law_probed_variables(cn: ConstraintNetwork, d: Seq<DomainMask>, pool: Seq<usize>, v: usize)
    requires
        problem::probed_pool(cn, d, pool),
        v < cn.n(),
    ensures
        pool.len() <= 16,
        pool.contains(v) ==> selector::score(cn, d, v as int) > 0,
        pool.len() < 16 && selector::score(cn, d, v as int) > 0 ==> pool.contains(v),
{
    let ids = selector::all_ids(cn.n());
    assert(cn.vars.len() == cn.n());
    assert(ids[v as int] == v);
    assert(ids.contains(v));
    if pool.contains(v) {
        let i = pool.index_of(v);
        assert(selector::candidate(cn, d, ids, pool[i]));
    }
    if selector::score(cn, d, v as int) > 0 {
        assert(selector::candidate(cn, d, ids, v));
    }
}

/// Where a node is reduced, at most sixteen variables were probed, and none of their values that is left open
/// fails when it is tried.
pub proof fn law_reduced_nodes(cn: ConstraintNetwork, e: Seq<DomainMask>)
    requires
        problem::reduced(cn, e),
    ensures
        exists|d: Seq<DomainMask>, pool: Seq<usize>| #[trigger] problem::probed_pool(cn, d, pool) && pool.len() <= 16 && ct::narrower(e, d) && forall|i: int, b: bool| 0 <= i < pool.len() && e[pool[i] as int] == DomainMask::BOTH ==> !#[trigger] ct::refuted(cn, propagate::pin(e, pool[i] as int, b)),
{
    reveal(problem::reduced);
    let s = choose|s: State| #[trigger] problem::undominated(cn, s) && problem::probed(cn, s.0, e);
    let pool = choose|pool: Seq<usize>| #[trigger] problem::probed_pool(cn, s.0, pool) && ct::narrower(e, s.0) && models::keeps_decided(cn, s.0, e, pool) && !propagate::failing(cn, e, pool);
    assert(problem::probed_pool(cn, s.0, pool));
    assert forall|i: int, b: bool| 0 <= i < pool.len() && e[pool[i] as int] == DomainMask::BOTH implies !#[trigger] ct::refuted(cn, propagate::pin(e, pool[i] as int, b)) by {
        if ct::refuted(cn, propagate::pin(e, pool[i] as int, b)) {
            assert(propagate::failing(cn, e, pool));
        }
    }
}

/// The support of a dense table: the places of its true entries, in ascending order.
pub proof fn law_supports_of_tables(support: Seq<u32>, dense: Seq<bool>, c: u32, i: int, j: int)
    requires
        network::lists_true(support, dense),
        0 <= i < j < support.len(),
    ensures
        support[i] < support[j],
        support.contains(c) <==> c < dense.len() && dense[c as int],
{
    if support.contains(c) {
        let k = support.index_of(c);
        assert(support[k] == c);
    }
    if c < dense.len() && dense[c as int] {
        assert(dense[c as int]);
    }
}

/// The original of a variable is the one that was numbered so, and the originals keep their order.
pub proof fn law_originals(cn: ConstraintNetwork, r: Seq<usize>, k: int, u: int, l: int)
    requires
        cn.wf(),
        network::original_ids_of(cn.orig_to_new@, cn.n(), r),
        0 <= k < cn.n(),
        0 <= u < cn.orig_to_new@.len(),
        k < l < cn.n(),
    ensures
        cn.orig_to_new@[u] == Some(k as usize) <==> u == r[k],
        r[k] < r[l],
{
    let map = cn.orig_to_new@;
    assert(network::compresses(map, cn.n()));
    assert(r[k] < map.len() && map[r[k] as int] == Some(k as usize));
    if map[u] == Some(k as usize) {
        if u < r[k] {
            assert(map[u]->0 < map[r[k] as int]->0);
        } else if r[k] < u {
            assert(map[r[k] as int]->0 < map[u]->0);
        }
    }
}

/// How a generation ends: a complete frontier is never cut short, a decision is where a model is found, and
/// nothing of the problem but its counters has changed.
pub proof fn law_generations_end(p0: TnProblem, p1: TnProblem, w: cube::Setting, traced: bool, policy: CncSatPolicy, alone: bool, s0: Seq<Cube>, s1: Seq<Cube>, n0: Seq<CubeNodeTrace>, n1: Seq<CubeNodeTrace>, f0: bool, f1: bool, stats: CubeStats, k: int)
    requires
        cube::generated(p0, p1, w, traced, policy, alone, s0, s1, n0, n1, f0, f1, Some(stats)),
        s0.len() <= k < s1.len(),
    ensures
        p1.state() == p0.state() && p1.static_cn == p0.static_cn,
        s1.take(s0.len() as int) == s0,
        f1 == f0,
        policy == CncSatPolicy::CompleteFrontier ==> !stats.stopped_early,
        policy == CncSatPolicy::StopDecision && s1[k].sat ==> stats.stopped_early && k == s1.len() - 1,
        policy == CncSatPolicy::StopDecision && alone && stats.stopped_early ==> s1.last().sat,
        stats.visited == p1.stats.total_visited_nodes,
        !traced ==> n1 == n0,
{
    if s1[k].sat {
        assert(cube::some_sat(s0.len() as int, s1));
    }
    if policy == CncSatPolicy::StopDecision && alone && stats.stopped_early {
        let q = choose|q: int| s0.len() <= q < s1.len() && (#[trigger] s1[q]).sat;
        assert(q == s1.len() - 1);
    }
    assert(s1.take(s0.len() as int) =~= s0);
}

/// The boundary of a region: its variables that a constraint outside names, and where only live ones count,
/// one that is not entailed.
pub proof fn law_boundaries(cn: ConstraintNetwork, d: Seq<DomainMask>, tensors: Seq<usize>, v: usize)
    requires
        cn.wf(),
    ensures
        region::seen_outside(cn, tensors, v) <==> exists|t: int| 0 <= t < cn.m() && (#[trigger] cn.axes(t)).contains(v) && !tensors.contains(t as usize),
        table::live_outside(cn, d, tensors, v) <==> exists|t: int| 0 <= t < cn.m() && (#[trigger] cn.axes(t)).contains(v) && !tensors.contains(t as usize) && !util::entailed(cn, d, t),
{
    assert(cn.tensors.len() == cn.m());
    assert forall|t: int| 0 <= t < cn.m() implies (tensors.contains(t as usize) <==> crate::contract::lists(tensors, t)) && (#[trigger] cn.axes(t)) == cn.axes(t) by {
        if tensors.contains(t as usize) {
            let i = tensors.index_of(t as usize);
            assert(tensors[i] == t);
        }
    }
    if region::seen_outside(cn, tensors, v) {
        let t = choose|t: int| 0 <= t < cn.m() && !crate::contract::lists(tensors, t) && (#[trigger] cn.axes(t)).contains(v);
        assert(cn.axes(t).contains(v));
    }
}

/// The numbers of variables are taken where none is over the limit and none comes twice; otherwise the
/// first that is or does is blamed.
pub proof fn law_numbers_of_variables(vars: Seq<usize>, max: usize, e: cdcl::CdclError)
    ensures
        (forall|i: int| 0 <= i < vars.len() ==> !#[trigger] cdcl::bad_entry(vars, max, i)) <==> (forall|i: int| 0 <= i < vars.len() ==> (#[trigger] vars[i]) <= max) && vars.no_duplicates(),
        cdcl::first_bad(vars, max, e) ==> (e matches cdcl::CdclError::TooLarge(v) && v > max && vars.contains(v)) || (e matches cdcl::CdclError::Duplicate(v) && v <= max && vars.contains(v) && !vars.no_duplicates()),
{
    if forall|i: int| 0 <= i < vars.len() ==> !#[trigger] cdcl::bad_entry(vars, max, i) {
        assert forall|i: int| 0 <= i < vars.len() implies (#[trigger] vars[i]) <= max by {
            assert(!cdcl::bad_entry(vars, max, i));
        }
        assert forall|i: int, j: int| 0 <= i < vars.len() && 0 <= j < vars.len() && i != j implies vars[i] != vars[j] by {
            assert(!cdcl::bad_entry(vars, max, i) && !cdcl::bad_entry(vars, max, j));
            if i < j {
                assert(!cdcl::used(vars, j, vars[j]));
            } else {
                assert(!cdcl::used(vars, i, vars[i]));
            }
        }
    }
    if (forall|i: int| 0 <= i < vars.len() ==> (#[trigger] vars[i]) <= max) && vars.no_duplicates() {
        assert forall|i: int| 0 <= i < vars.len() implies !#[trigger] cdcl::bad_entry(vars, max, i) by {
            assert(vars[i] <= max);
            if cdcl::used(vars, i, vars[i]) {
                let j = choose|j: int| 0 <= j < i && #[trigger] vars[j] == vars[i];
                assert(vars[j] != vars[i]);
            }
        }
    }
    if cdcl::first_bad(vars, max, e) {
        let i = choose|i: int|
            0 <= i < vars.len() && #[trigger] cdcl::bad_entry(vars, max, i) && (forall|j: int| 0 <= j < i ==> !#[trigger] cdcl::bad_entry(vars, max, j)) && e == (if vars[i] > max {
                cdcl::CdclError::TooLarge(vars[i])
            } else {
                cdcl::CdclError::Duplicate(vars[i])
            });
        assert(vars.contains(vars[i]));
        if vars[i] <= max {
            let j = choose|j: int| 0 <= j < i && #[trigger] vars[j] == vars[i];
            assert(vars[j] == vars[i]);
        }
    }
}

/// The domain allows the value, alone or beside the other.
pub open spec fn may_be(d: DomainMask, b: bool) -> bool {
    d == DomainMask::BOTH || d == (if b {
        DomainMask::D1
    } else {
        DomainMask::D0
    })
}

/// Before the decision at `k`, a variable that was decided has its last value, and any other its domain.
proof fn lemma_before(d: Seq<DomainMask>, dec: Seq<(usize, bool)>, k: int, v: int)
    requires
        0 <= k <= dec.len(),
        0 <= v < d.len(),
        forall|i: int| 0 <= i < k ==> (#[trigger] dec[i]).0 < d.len(),
    ensures
        cdcl::with_decisions(d, dec, k).len() == d.len(),
        (forall|i: int| 0 <= i < k ==> (#[trigger] dec[i]).0 != v) ==> cdcl::with_decisions(d, dec, k)[v] == d[v],
        (exists|i: int| 0 <= i < k && (#[trigger] dec[i]).0 == v) ==> exists|i: int| 0 <= i < k && (#[trigger] dec[i]).0 == v && cdcl::with_decisions(d, dec, k)[v] == DomainMask::only(dec[i].1),
    decreases k,
{
    if k > 0 {
        lemma_before(d, dec, k - 1, v);
        let x = dec[k - 1];
        assert(x.0 < d.len());
        if x.0 == v {
            assert(cdcl::with_decisions(d, dec, k)[v] == DomainMask::only(dec[k - 1].1));
        } else if exists|i: int| 0 <= i < k && (#[trigger] dec[i]).0 == v {
            let i = choose|i: int| 0 <= i < k && (#[trigger] dec[i]).0 == v;
            assert(0 <= i < k - 1 && dec[i].0 == v);
            let j = choose|j: int| 0 <= j < k - 1 && (#[trigger] dec[j]).0 == v && cdcl::with_decisions(d, dec, k - 1)[v] == DomainMask::only(dec[j].1);
            assert(0 <= j < k && dec[j].0 == v);
        }
    }
}

/// Decisions fit where each names a variable whose domain allows the value, and no two decide a variable differently.
pub proof fn law_decisions_that_fit(d: Seq<DomainMask>, dec: Seq<(usize, bool)>)
    ensures
        cdcl::all_fit(d, dec) <==> {
            &&& forall|i: int| 0 <= i < dec.len() ==> (#[trigger] dec[i]).0 < d.len() && may_be(d[dec[i].0 as int], dec[i].1)
            &&& forall|i: int, j: int| 0 <= i < j < dec.len() && (#[trigger] dec[i]).0 == (#[trigger] dec[j]).0 ==> dec[i].1 == dec[j].1
        },
{
    if cdcl::all_fit(d, dec) {
        lemma_fitting(d, dec, dec.len() as int);
    }
    if {
        &&& forall|i: int| 0 <= i < dec.len() ==> (#[trigger] dec[i]).0 < d.len() && may_be(d[dec[i].0 as int], dec[i].1)
        &&& forall|i: int, j: int| 0 <= i < j < dec.len() && (#[trigger] dec[i]).0 == (#[trigger] dec[j]).0 ==> dec[i].1 == dec[j].1
    } {
        assert forall|k: int| 0 <= k < dec.len() implies #[trigger] cdcl::fits(d, dec, k) by {
            let v = dec[k].0 as int;
            assert(dec[k].0 < d.len());
            lemma_before(d, dec, k, v);
            if exists|i: int| 0 <= i < k && (#[trigger] dec[i]).0 == v {
                let i = choose|i: int| 0 <= i < k && (#[trigger] dec[i]).0 == v && cdcl::with_decisions(d, dec, k)[v] == DomainMask::only(dec[i].1);
                assert(dec[i].1 == dec[k].1);
            }
        }
    }
}

proof fn lemma_fitting(d: Seq<DomainMask>, dec: Seq<(usize, bool)>, k: int)
    requires
        0 <= k <= dec.len(),
        forall|j: int| 0 <= j < k ==> #[trigger] cdcl::fits(d, dec, j),
    ensures
        forall|i: int| 0 <= i < k ==> (#[trigger] dec[i]).0 < d.len() && may_be(d[dec[i].0 as int], dec[i].1),
        forall|i: int, j: int| 0 <= i < j < k && (#[trigger] dec[i]).0 == (#[trigger] dec[j]).0 ==> dec[i].1 == dec[j].1,
    decreases k,
{
    if k > 0 {
        lemma_fitting(d, dec, k - 1);
        assert(cdcl::fits(d, dec, k - 1));
        let x = dec[k - 1];
        let v = x.0 as int;
        lemma_before(d, dec, k - 1, v);
        if exists|i: int| 0 <= i < k - 1 && (#[trigger] dec[i]).0 == v {
            let i = choose|i: int| 0 <= i < k - 1 && (#[trigger] dec[i]).0 == v && cdcl::with_decisions(d, dec, k - 1)[v] == DomainMask::only(dec[i].1);
            assert(dec[i].1 == x.1);
            assert(may_be(d[v], dec[i].1));
            assert forall|q: int| 0 <= q < k - 1 && (#[trigger] dec[q]).0 == v implies dec[q].1 == x.1 by {
                if q < i {
                    assert(dec[q].1 == dec[i].1);
                } else if i < q {
                    assert(dec[i].1 == dec[q].1);
                }
            }
        }
        assert forall|i: int| 0 <= i < k implies (#[trigger] dec[i]).0 < d.len() && may_be(d[dec[i].0 as int], dec[i].1) by {
            if i < k - 1 {
                assert(dec[i].0 < d.len());
            }
        }
        assert forall|i: int, j: int| 0 <= i < j < k && (#[trigger] dec[i]).0 == (#[trigger] dec[j]).0 implies dec[i].1 == dec[j].1 by {
            if j == k - 1 {
                assert(dec[i].0 == v);
            }
        }
    }
}

/// A constraint that holds whatever the open variables are, and whose rows all weigh the same, weighs the
/// same everywhere; one that may fail does not.
pub proof fn law_uniform_constraints<W: Weight>(cn: ConstraintNetwork, weights: Seq<Vec<W>>, d: Seq<DomainMask>, t: int)
    ensures
        sliced::uniform(cn, weights, d, t) ==> util::entailed(cn, d, t),
        util::entailed(cn, d, t) && (forall|j: int, k: int| 0 <= j < cn.rows(t).len() && 0 <= k < cn.rows(t).len() ==> (#[trigger] weights[t]@[j]).exact() && (#[trigger] weights[t]@[k]).exact() && weights[t]@[j].val() == weights[t]@[k].val()) ==> sliced::uniform(cn, weights, d, t),
        util::entailed(cn, d, t) && (forall|j: int, k: int| 0 <= j < cn.rows(t).len() && 0 <= k < cn.rows(t).len() && #[trigger] sliced::passes(cn, d, t, j) && #[trigger] sliced::passes(cn, d, t, k) ==> j == k) ==> sliced::uniform(cn, weights, d, t),
{
    if util::entailed(cn, d, t) && (forall|j: int, k: int| 0 <= j < cn.rows(t).len() && 0 <= k < cn.rows(t).len() ==> (#[trigger] weights[t]@[j]).exact() && (#[trigger] weights[t]@[k]).exact() && weights[t]@[j].val() == weights[t]@[k].val()) {
        assert forall|j: int, k: int| 0 <= j < cn.rows(t).len() && 0 <= k < cn.rows(t).len() && j != k && #[trigger] sliced::passes(cn, d, t, j) && #[trigger] sliced::passes(cn, d, t, k) implies sliced::alike(weights[t]@[j], weights[t]@[k]) by {
            assert(weights[t]@[j].exact() && weights[t]@[k].exact());
        }
    }
}

} // verus!
