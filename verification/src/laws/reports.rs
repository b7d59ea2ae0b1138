//! What rules, covers, searches and nodes amount to.
use vstd::prelude::*;

use crate::adapter::{Clause, RuleSolver};
use crate::bits;
use crate::blockmerge;
use crate::blockmerge::Subcube;
use crate::components;
use crate::contract::Relation;
use crate::cube;
use crate::cube::{Cube, CubeCutoff, CubeNodeKind, CubeNodeTrace, Setting};
use crate::dnf;
use crate::domain::DomainMask;
use crate::gammacover;
use crate::minfill;
use crate::minfill::Links;
use crate::network::ConstraintNetwork;
use crate::region;
use crate::region::Region;
use crate::searchtree;
use crate::searchtree::{Plan, Search};
use crate::table;
use crate::table::BranchingResult;
use crate::tail_greedy;
use crate::tail_greedy::MergeEvent;

verus! {

/// The row has the values that some clause of the rule sets.
pub open spec fn reached_by(rule: Seq<Clause>, x: u64) -> bool {
    exists|k: int| 0 <= k < rule.len() && has_values(#[trigger] rule[k], x)
}

/// The row has the values that the clause sets.
pub open spec fn has_values(c: Clause, x: u64) -> bool {
    forall|i: int| 0 <= i < 64 && #[trigger] bits::bit(c.mask, i) ==> bits::bit(x, i) == bits::bit(c.val, i)
}

/// A clause covers a row, and a subcube has it, where the row has the values that are set.
pub proof fn law_values_that_are_set(mask: u64, val: u64, x: u64)
    ensures
        (Clause { mask, val }).covers(x) <==> has_values(Clause { mask, val }, x),
        (Subcube { mask, val }).has(x) <==> has_values(Clause { mask, val }, x),
{
    let c = Clause { mask, val };
    let s = Subcube { mask, val };
    if has_values(c, x) {
        assert forall|i: int| 0 <= i < 64 && #[trigger] bits::bit(s.mask, i) implies bits::bit(x, i) == bits::bit(s.val, i) by {
            assert(bits::bit(c.mask, i));
        }
    }
    if s.has(x) {
        assert forall|i: int| 0 <= i < 64 && #[trigger] bits::bit(c.mask, i) implies bits::bit(x, i) == bits::bit(c.val, i) by {
            assert(bits::bit(s.mask, i));
        }
    }
}

/// Whatever was proposed, the rule that is taken covers every row that has to be covered, and sets
/// variables of the region only. A proposal that does so itself is taken as it is.
pub proof fn law_adopted_rules_cover(proposal: Option<Vec<Clause>>, width: int, f: Seq<u64>, rule: Seq<Clause>)
    requires
        0 < width <= 64,
        table::adopted(proposal, width, f, rule),
    ensures
        forall|i: int| 0 <= i < f.len() ==> reached_by(rule, #[trigger] f[i]),
        forall|k: int, j: int| 0 <= k < rule.len() && width <= j < 64 ==> !#[trigger] bits::bit(rule[k].mask, j),
        proposal is Some && table::covering_rule(proposal->0@, width, f) ==> rule == proposal->0@,
{
    if !(proposal is Some && table::covering_rule(proposal->0@, width, f)) {
        assert forall|i: int| 0 <= i < f.len() implies reached_by(rule, #[trigger] f[i]) by {
            assert(rule[i].val == f[i]);
            assert(has_values(rule[i], f[i]));
            assert(reached_by(rule, f[i]));
        }
    } else {
        assert forall|i: int| 0 <= i < f.len() implies reached_by(rule, #[trigger] f[i]) by {
            assert(table::some_covers(rule, f[i]));
            let k = choose|k: int| 0 <= k < rule.len() && (#[trigger] rule[k]).covers(f[i]);
            assert(has_values(rule[k], f[i]));
            assert(reached_by(rule, f[i]));
        }
        assert(table::masks_below(rule, width));
        assert forall|k: int, j: int| 0 <= k < rule.len() && width <= j < 64 implies !#[trigger] bits::bit(rule[k].mask, j) by {
            assert(bits::below(rule[k].mask, width));
        }
    }
}

/// The rule of a region: none where no row is feasible, the first feasible row where nothing outside is
/// touched, and otherwise clauses that cover all feasible rows.
pub proof fn law_region_rules(cn: ConstraintNetwork, d: Seq<DomainMask>, region: Region, rel: Relation, f: Seq<u64>, res: BranchingResult)
    requires
        table::region_rule(cn, d, region, rel, f, res),
        rel.vars@.len() <= 64,
    ensures
        res.clauses is None <==> f.len() == 0,
        f.len() > 0 ==> reached_by(res.clauses->0@, f[0]),
        f.len() > 0 && table::is_shut(cn, d, region, rel) ==> res.clauses->0@.len() == 1,
        f.len() > 0 && !table::is_shut(cn, d, region, rel) ==> forall|i: int| 0 <= i < f.len() ==> reached_by(res.clauses->0@, #[trigger] f[i]),
{
    if f.len() > 0 {
        let c = res.clauses->0@;
        if table::is_shut(cn, d, region, rel) {
            assert(has_values(c[0], f[0]));
        } else {
            assert forall|i: int| 0 <= i < f.len() implies reached_by(c, #[trigger] f[i]) by {
                assert(table::some_covers(c, f[i]));
                let k = choose|k: int| 0 <= k < c.len() && (#[trigger] c[k]).covers(f[i]);
                assert(has_values(c[k], f[i]));
            }
        }
    }
}

proof fn lemma_freed(c: Subcube, i: int, j: int)
    requires
        0 <= i < 64,
        0 <= j < 64,
    ensures
        bits::bit(gammacover::freed(c, i).mask, j) <==> bits::bit(c.mask, j) && j != i,
        bits::bit(gammacover::freed(c, i).val, j) <==> bits::bit(c.val, j) && bits::bit(c.mask, j) && j != i,
{
    broadcast use bits::group_bits;
}

/// A largest subcube among configurations lies in no other: one that has all its points and only
/// configurations is the same.
pub proof fn law_prime_subcubes_are_largest(configs: Seq<u64>, width: int, c: Subcube, e: Subcube)
    requires
        0 <= width < 64,
        gammacover::prime(configs, width, c),
        gammacover::normal(e, width),
        gammacover::inside(configs, width, e),
        forall|x: u64| bits::below(x, width) && #[trigger] c.has(x) ==> e.has(x),
    ensures
        e == c,
{
    broadcast use bits::group_bits;
    assert(c.has(c.val)) by {}
    assert(bits::below(c.val, width)) by {
        assert forall|j: int| width <= j < 64 implies !#[trigger] bits::bit(c.val, j) by {
            if bits::bit(c.val, j) {
                assert(bits::bit(c.mask, j));
            }
        }
    }
    assert(e.has(c.val));
    assert forall|j: int| 0 <= j < 64 && bits::bit(e.mask, j) implies #[trigger] bits::bit(c.mask, j) && bits::bit(e.val, j) == bits::bit(c.val, j) by {
        assert(bits::bit(c.val, j) == bits::bit(e.val, j));
        if !bits::bit(c.mask, j) {
            assert(j < width) by {
                if j >= width {
                    assert(bits::below(e.mask, width));
                }
            }
            let k = j as u64;
            let y = c.val ^ (1u64 << k);
            assert forall|q: int| 0 <= q < 64 implies #[trigger] bits::bit(y, q) == (bits::bit(c.val, q) != (q == j)) by {}
            assert(c.has(y));
            assert(bits::below(y, width)) by {
                assert forall|q: int| width <= q < 64 implies !#[trigger] bits::bit(y, q) by {
                    assert(!bits::bit(c.val, q));
                }
            }
            assert(e.has(y));
            assert(bits::bit(y, j) == bits::bit(e.val, j));
        }
    }
    if exists|i: int| 0 <= i < 64 && #[trigger] bits::bit(c.mask, i) && !bits::bit(e.mask, i) {
        let i = choose|i: int| 0 <= i < 64 && #[trigger] bits::bit(c.mask, i) && !bits::bit(e.mask, i);
        assert(i < width) by {
            if i >= width {
                assert(bits::below(c.mask, width));
            }
        }
        let g = gammacover::freed(c, i);
        assert forall|x: u64| bits::below(x, width) && #[trigger] g.has(x) implies configs.contains(x) by {
            assert forall|j: int| 0 <= j < 64 && #[trigger] bits::bit(e.mask, j) implies bits::bit(x, j) == bits::bit(e.val, j) by {
                lemma_freed(c, i, j);
                assert(bits::bit(c.mask, j));
                assert(bits::bit(g.mask, j));
            }
            assert(e.has(x));
        }
        assert(gammacover::inside(configs, width, g));
    }
    assert forall|j: int| 0 <= j < 64 implies #[trigger] bits::bit(c.mask, j) == bits::bit(e.mask, j) by {
        if bits::bit(e.mask, j) {
            assert(bits::bit(c.mask, j));
        }
    }
    assert forall|j: int| 0 <= j < 64 implies #[trigger] bits::bit(c.val, j) == bits::bit(e.val, j) by {
        if bits::bit(e.mask, j) {
            assert(bits::bit(c.mask, j));
        } else {
            assert(bits::bit(c.mask, j) == bits::bit(e.mask, j));
        }
    }
    bits::lemma_bits_equal(c.mask, e.mask);
    bits::lemma_bits_equal(c.val, e.val);
}

/// A partition has every configuration in exactly one cube, and nothing else in any.
pub proof fn law_partitions(configs: Seq<u64>, cubes: Seq<Subcube>, width: int, x: u64)
    requires
        blockmerge::partitions(configs, cubes, width),
        bits::below(x, width),
    ensures
        blockmerge::owners(cubes, x, cubes.len() as int) == (if configs.contains(x) {
            1nat
        } else {
            0nat
        }),
{
    lemma_owners(cubes, width, x, cubes.len() as int);
    assert(configs.contains(x) <==> blockmerge::covered(cubes, cubes.len() as int, x));
}

proof fn lemma_owners(cubes: Seq<Subcube>, width: int, x: u64, k: int)
    requires
        blockmerge::disjoint(cubes, width),
        bits::below(x, width),
        0 <= k <= cubes.len(),
    ensures
        blockmerge::owners(cubes, x, k) == (if blockmerge::covered(cubes, k, x) {
            1nat
        } else {
            0nat
        }),
    decreases k,
{
    if k > 0 {
        lemma_owners(cubes, width, x, k - 1);
        if cubes[k - 1].has(x) {
            if blockmerge::covered(cubes, k - 1, x) {
                let j = choose|j: int| 0 <= j < k - 1 && (#[trigger] cubes[j]).has(x);
                assert(!cubes[k - 1].has(x));
            }
            assert(blockmerge::covered(cubes, k, x));
        } else {
            if blockmerge::covered(cubes, k - 1, x) {
                let j = choose|j: int| 0 <= j < k - 1 && (#[trigger] cubes[j]).has(x);
                assert(0 <= j < k && cubes[j].has(x));
            }
        }
    }
}

/// Clauses that are made disjoint say the same: a row has the values of one of them exactly where it has
/// those of a clause before, and never those of two.
pub proof fn law_disjoint_clauses(clauses: Seq<Clause>, r: Seq<(Clause, usize)>, x: u64, i: int, j: int)
    requires
        dnf::disjoint_cover(clauses, r),
        0 <= i < j < r.len(),
    ensures
        reached_by(clauses, x) <==> exists|k: int| 0 <= k < r.len() && has_values((#[trigger] r[k]).0, x),
        !(has_values(r[i].0, x) && has_values(r[j].0, x)),
        r[i].1 <= r[j].1 < clauses.len(),
        has_values(r[i].0, x) ==> has_values(clauses[r[i].1 as int], x),
{
    let ps = dnf::pieces_of(r);
    assert(ps[i] == r[i].0 && ps[j] == r[j].0);
    assert(dnf::clash(ps[i], ps[j]));
    assert(dnf::refines(r[i].0, clauses[r[i].1 as int]));
    if reached_by(clauses, x) {
        let k = choose|k: int| 0 <= k < clauses.len() && has_values(#[trigger] clauses[k], x);
        assert(clauses[k].covers(x));
        assert(table::some_covers(clauses, x));
        assert(table::some_covers(ps, x));
        let q = choose|q: int| 0 <= q < ps.len() && (#[trigger] ps[q]).covers(x);
        assert(ps[q] == r[q].0);
        assert(has_values(r[q].0, x));
    }
    if exists|k: int| 0 <= k < r.len() && has_values((#[trigger] r[k]).0, x) {
        let k = choose|k: int| 0 <= k < r.len() && has_values((#[trigger] r[k]).0, x);
        assert(ps[k] == r[k].0);
        assert(ps[k].covers(x));
        assert(table::some_covers(ps, x));
        assert(table::some_covers(clauses, x));
        let q = choose|q: int| 0 <= q < clauses.len() && (#[trigger] clauses[q]).covers(x);
        assert(has_values(clauses[q], x));
    }
}

/// A cover is chosen only within the limits; beyond them the greedy partition is taken.
pub proof fn law_covers_keep_to_limits(s: Seq<u64>, width: int, limits: gammacover::GammaCoverLimits, plan: gammacover::CoverPlan)
    requires
        gammacover::planned(s, width, limits, plan),
        s.len() > limits.max_rows,
        s.len() > 0,
    ensures
        plan matches gammacover::CoverPlan::Settled { cubes, fell_back } && fell_back && blockmerge::partitions(s, cubes@, width),
{
}

/// A branch succeeds where one of its tries does, and all its clauses were tried where it fails; a
/// scope succeeds where all its parts were looked at and do.
pub proof fn law_searches_succeed<S: RuleSolver>(p: Plan, solver: S, t: Search)
    requires
        searchtree::searched(p, solver, t),
    ensures
        match t {
            Search::Branch(d, ids, vars, clauses, tries) => {
                &&& searchtree::succeeds(t) <==> exists|i: int| 0 <= i < tries.len() && searchtree::succeeds(#[trigger] tries[i])
                &&& !searchtree::succeeds(t) ==> tries.len() == clauses.len()
            },
            Search::Split(d, ids, parts, kids) => {
                &&& searchtree::succeeds(t) <==> kids.len() == parts.len() && forall|i: int| 0 <= i < kids.len() ==> searchtree::succeeds(#[trigger] kids[i])
            },
            Search::Decided(d, ids) => searchtree::succeeds(t),
            _ => !searchtree::succeeds(t),
        },
{
    match t {
        Search::Branch(d, ids, vars, clauses, tries) => {
            if exists|i: int| 0 <= i < tries.len() && searchtree::succeeds(#[trigger] tries[i]) {
                let i = choose|i: int| 0 <= i < tries.len() && searchtree::succeeds(#[trigger] tries[i]);
                assert(searchtree::searched(p, solver, tries[i]));
            }
            if searchtree::succeeds(t) {
                assert(searchtree::succeeds(tries[tries.len() - 1]));
            }
        },
        Search::Split(d, ids, parts, kids) => {
            if searchtree::succeeds(t) {
                assert forall|i: int| 0 <= i < kids.len() implies searchtree::succeeds(#[trigger] kids[i]) by {
                    assert(searchtree::searched(p, solver, kids[i]));
                }
            }
            if kids.len() == parts.len() && forall|i: int| 0 <= i < kids.len() ==> searchtree::succeeds(#[trigger] kids[i]) {
                if kids.len() > 0 {
                    assert(searchtree::succeeds(kids[kids.len() - 1]));
                }
            }
        },
        _ => {},
    }
}

/// The event offers the pair with that key, and the floor lets it pass.
pub open spec fn offers(e: MergeEvent, floor: Option<i64>, a: usize, b: usize, key: i64) -> bool {
    e matches MergeEvent::Offered(x, y, red, answer) && x == a && y == b && answer == Some(key) && (floor matches Some(f) ==> red >= f)
}

/// The event takes the offer of the pair back: a round begins, one of the rows is merged, or the pair is passed over.
pub open spec fn withdraws(e: MergeEvent, a: usize, b: usize) -> bool {
    match e {
        MergeEvent::Round(_) => true,
        MergeEvent::Replaced(i, j, _) => a == i || a == j || b == i || b == j,
        MergeEvent::Passed(i, j) => a == i && b == j,
        _ => false,
    }
}

/// The offer at `p` stands before event `k`: it was neither taken back nor made anew.
pub open spec fn offer_stands(log: Seq<MergeEvent>, floor: Option<i64>, k: int, a: usize, b: usize, key: i64, p: int) -> bool {
    &&& 0 <= p < k
    &&& offers(log[p], floor, a, b, key)
    &&& forall|q: int| p < q < k ==> !withdraws(#[trigger] log[q], a, b) && !(exists|other: i64| #[trigger] offers(log[q], floor, a, b, other))
}

/// A pair stands with a key exactly where the last offer of it has that key and was not taken back.
pub proof fn law_standing_offers(log: Seq<MergeEvent>, floor: Option<i64>, k: int, a: usize, b: usize, key: i64)
    requires
        0 <= k <= log.len(),
    ensures
        tail_greedy::standing(log, floor, k).dom().contains((a, b)) && tail_greedy::standing(log, floor, k)[(a, b)] == key <==> exists|p: int| #[trigger] offer_stands(log, floor, k, a, b, key, p),
    decreases k,
{
    if k > 0 {
        law_standing_offers(log, floor, k - 1, a, b, key);
        let e = log[k - 1];
        let before = tail_greedy::standing(log, floor, k - 1);
        let now = tail_greedy::standing(log, floor, k);
        if exists|other: i64| #[trigger] offers(e, floor, a, b, other) {
            let other = choose|other: i64| #[trigger] offers(e, floor, a, b, other);
            assert(now.dom().contains((a, b)) && now[(a, b)] == other);
            if other == key {
                assert(offer_stands(log, floor, k, a, b, key, k - 1));
            }
            if exists|p: int| #[trigger] offer_stands(log, floor, k, a, b, key, p) {
                let p = choose|p: int| #[trigger] offer_stands(log, floor, k, a, b, key, p);
                if p < k - 1 {
                    assert(offers(log[k - 1], floor, a, b, other));
                }
            }
        } else if withdraws(e, a, b) {
            assert(!now.dom().contains((a, b)));
            if exists|p: int| #[trigger] offer_stands(log, floor, k, a, b, key, p) {
                let p = choose|p: int| #[trigger] offer_stands(log, floor, k, a, b, key, p);
                if p == k - 1 {
                    assert(offers(e, floor, a, b, key));
                } else {
                    assert(!withdraws(log[k - 1], a, b));
                }
            }
        } else {
            assert(now.dom().contains((a, b)) <==> before.dom().contains((a, b))) by {
                if let MergeEvent::Offered(x, y, red, answer) = e {
                    if x == a && y == b && answer is Some && !tail_greedy::barred(floor, red) {
                        assert(offers(e, floor, a, b, answer->0));
                    }
                }
            }
            assert(now.dom().contains((a, b)) ==> now[(a, b)] == before[(a, b)]) by {
                if let MergeEvent::Offered(x, y, red, answer) = e {
                    if x == a && y == b && answer is Some && !tail_greedy::barred(floor, red) {
                        assert(offers(e, floor, a, b, answer->0));
                    }
                }
            }
            if exists|p: int| #[trigger] offer_stands(log, floor, k - 1, a, b, key, p) {
                let p = choose|p: int| #[trigger] offer_stands(log, floor, k - 1, a, b, key, p);
                assert(offer_stands(log, floor, k, a, b, key, p));
            }
            if exists|p: int| #[trigger] offer_stands(log, floor, k, a, b, key, p) {
                let p = choose|p: int| #[trigger] offer_stands(log, floor, k, a, b, key, p);
                if p == k - 1 {
                    assert(offers(e, floor, a, b, key));
                } else {
                    assert(offer_stands(log, floor, k - 1, a, b, key, p));
                }
            }
        }
    } else {
        assert forall|p: int| !#[trigger] offer_stands(log, floor, k, a, b, key, p) by {}
    }
}

/// Eliminating variables: those that are gone have no links, links between the others stay, the
/// neighbours of one that goes become linked, and no other link comes about.
pub proof fn law_elimination_game(start: Links, gone: Seq<usize>, v: usize, a: usize, b: usize)
    ensures
        gone.contains(a) || gone.contains(b) ==> !minfill::game(start, gone)(a, b),
        start(a, b) && !gone.contains(a) && !gone.contains(b) ==> minfill::game(start, gone)(a, b),
        a != v && b != v && minfill::game(start, gone)(v, a) && minfill::game(start, gone)(v, b) ==> minfill::game(start, gone.push(v))(a, b),
        minfill::game(start, gone.push(v))(a, b) && !minfill::game(start, gone)(a, b) ==> minfill::game(start, gone)(v, a) && minfill::game(start, gone)(v, b),
    decreases gone.len(),
{
    assert(gone.push(v).drop_last() =~= gone);
    assert(gone.push(v).last() == v);
    if gone.len() > 0 {
        let g = gone.drop_last();
        let u = gone.last();
        law_elimination_game(start, g, u, a, b);
        law_elimination_game(start, g, u, u, a);
        law_elimination_game(start, g, u, u, b);
        assert(g.push(u) =~= gone);
        crate::seqs::lemma_push_contains(g, u);
    }
}

/// What a node reports of itself: its decisions, and how many variables are fixed and open. A leaf that is
/// not refuted is cut exactly where the cutoff applies, and a model leaves nothing open.
pub proof fn law_nodes_report_where_they_stand(w: Setting, x: CubeNodeTrace)
    requires
        cube::node_self(w, x),
    ensures
        x.sigma_dec == x.decisions@.len(),
        x.sigma_all + x.freevars == w.cn.n(),
        x.kind == CubeNodeKind::Sat ==> x.freevars == 0,
        x.kind == CubeNodeKind::Cutoff ==> w.cutoff.cuts(x.sigma_dec as int, x.sigma_all as int, x.freevars as int),
        x.kind == CubeNodeKind::Sat || x.kind == CubeNodeKind::Branch ==> !w.cutoff.cuts(x.sigma_dec as int, x.sigma_all as int, x.freevars as int),
        x.kind == CubeNodeKind::Branch <==> x.clauses@.len() > 0,
        x.kind == CubeNodeKind::Refuted <==> x.refutation_reason is Some,
{
    reveal(cube::node_self);
}

/// What a leaf says is so: a refuted one has no model; one with a model fixes every variable; any other is
/// cut.
pub proof fn law_leaves_say_what_is_so(cn: ConstraintNetwork, d: Seq<DomainMask>, cutoff: CubeCutoff, c: Cube)
    requires
        cube::leaf_ok(cn, d, cutoff, c),
    ensures
        c.sigma_dec == c.decisions@.len(),
        c.refuted ==> !cube::has_model(cn, d, c.decisions@),
        c.sat ==> cube::has_model(cn, d, c.decisions@) && c.sigma_all == cn.n() && !c.refuted,
        !c.refuted && !c.sat ==> cutoff.cuts(c.sigma_dec as int, c.sigma_all as int, cn.n() - c.sigma_all),
{
}

/// A child hangs one below its branch node, by one of its clauses, with the decisions that this adds.
pub proof fn law_children_hang_below(nodes: Seq<CubeNodeTrace>, from: int, at: int, x: CubeNodeTrace)
    requires
        cube::hangs(nodes, from, at, x),
    ensures
        x.parent_id is None <==> x.depth == 0,
        x.parent_id is None ==> x.decisions@.len() == 0 && x.child_index is None,
        x.parent_id is Some ==> x.parent_id == Some(nodes[at].node_id) && x.depth == nodes[at].depth + 1 && x.child_index is Some && x.child_index->0 < nodes[at].clauses@.len(),
        x.parent_id is Some ==> x.decisions@.len() >= nodes[at].decisions@.len() && x.decisions@.take(nodes[at].decisions@.len() as int) == nodes[at].decisions@,
{
    if x.parent_id is Some {
        let y = nodes[at];
        let c = cube::bare(y.clauses@)[x.child_index->0 as int];
        assert(x.decisions@ == cube::child_dec(y.decisions@, y.variables@, c));
        assert(x.decisions@.take(y.decisions@.len() as int) =~= y.decisions@);
    }
}

/// Where the constraint that is absorbed is among the first three in the order of trial, no other that fits
/// joins with fewer rows, and where it is not, none before it fits; fewer than three are looked at only
/// where there are no more.
pub proof fn law_absorbed_joins_are_small(cn: ConstraintNetwork, d: Seq<DomainMask>, near: spec_fn(usize) -> bool, acc: Relation, max_rows: int, t: usize, j: Relation)
    requires
        region::absorbs(cn, d, near, acc, max_rows, t, j),
    ensures
        exists|queue: Seq<usize>, k: int|
            {
                &&& #[trigger] region::trial_queue(cn, d, acc.vars@, near, queue)
                &&& 0 <= k < queue.len()
                &&& #[trigger] queue[k] == t
                &&& k >= 3 ==> forall|i: int| 0 <= i < k ==> region::overflows(cn, d, acc, (#[trigger] queue[i]) as int, max_rows)
                &&& k < 3 ==> forall|i: int, o: Relation| 0 <= i < queue.len() && #[trigger] region::joins_tensor(cn, d, acc, (#[trigger] queue[i]) as int, o) && !region::overflows(cn, d, acc, queue[i] as int, max_rows) && i != k ==> o.rows@.len() >= j.rows@.len()
                &&& queue.len() < 3 ==> forall|u: usize| #[trigger] near(u) ==> queue.contains(u)
            },
{
    let (queue, k) = choose|queue: Seq<usize>, k: int|
        {
            &&& #[trigger] region::trial_queue(cn, d, acc.vars@, near, queue)
            &&& 0 <= k < queue.len()
            &&& #[trigger] queue[k] == t
            &&& region::joins_tensor(cn, d, acc, t as int, j)
            &&& j.rows@.len() <= max_rows
            &&& forall|i: int| 0 <= i < k ==> region::overflows(cn, d, acc, (#[trigger] queue[i]) as int, max_rows) || (k < region::JOIN_CANDIDATES && region::bigger(cn, d, acc, queue[i] as int, j.rows@.len() as int))
            &&& forall|i: int| k < i < queue.len() ==> region::overflows(cn, d, acc, (#[trigger] queue[i]) as int, max_rows) || region::bigger(cn, d, acc, queue[i] as int, j.rows@.len() - 1)
            &&& queue.len() >= region::JOIN_CANDIDATES || forall|u: usize| #[trigger] near(u) ==> queue.contains(u)
        };
    assert(region::trial_queue(cn, d, acc.vars@, near, queue));
    assert(queue[k] == t);
    assert forall|i: int, o: Relation| 0 <= i < queue.len() && #[trigger] region::joins_tensor(cn, d, acc, (#[trigger] queue[i]) as int, o) && !region::overflows(cn, d, acc, queue[i] as int, max_rows) && i != k && k < 3 implies o.rows@.len() >= j.rows@.len() by {
        if i < k {
            assert(region::bigger(cn, d, acc, queue[i] as int, j.rows@.len() as int));
        } else {
            assert(region::bigger(cn, d, acc, queue[i] as int, j.rows@.len() - 1));
        }
    }
}

/// The constraint that is absorbed into a region lies at its edge, and their join stays within the bound.
pub proof fn law_absorbed_joins_fit(cn: ConstraintNetwork, d: Seq<DomainMask>, near: spec_fn(usize) -> bool, acc: Relation, max_rows: int, t: usize, j: Relation)
    requires
        region::absorbs(cn, d, near, acc, max_rows, t, j),
    ensures
        near(t),
        j.rows@.len() <= max_rows,
        region::joins_tensor(cn, d, acc, t as int, j),
{
}

proof fn lemma_parts_apart(comps: Seq<Vec<usize>>, i: int, j: int, v: usize)
    requires
        forall|a: int, b: int| 0 <= a < b < comps.len() ==> components::apart((#[trigger] comps[a])@, (#[trigger] comps[b])@),
        0 <= i < comps.len(),
        0 <= j < comps.len(),
        comps[i]@.contains(v),
        comps[j]@.contains(v),
    ensures
        i == j,
{
    if i < j {
        assert(components::apart(comps[i]@, comps[j]@));
    } else if j < i {
        assert(components::apart(comps[j]@, comps[i]@));
    }
}

proof fn lemma_parts_cover(d: Seq<DomainMask>, scope: Seq<usize>, comps: Seq<Vec<usize>>, v: usize)
    requires
        forall|i: int| 0 <= i < scope.len() && !d[(#[trigger] scope[i]) as int].fixed() ==> components::in_some(comps, scope[i]),
        scope.contains(v),
        !d[v as int].fixed(),
    ensures
        components::in_some(comps, v),
{
    let k = scope.index_of(v);
    assert(scope[k] == v);
}

/// The parts of a scope have no variable in common, and every open variable of the scope is in one.
#[verifier::spinoff_prover]
pub proof fn law_parts_partition_the_scope(cn: ConstraintNetwork, d: Seq<DomainMask>, live: Seq<bool>, scope: Seq<usize>, comps: Seq<Vec<usize>>, i: int, j: int, v: usize)
    requires
        components::components(cn, d, live, scope, comps),
        0 <= i < comps.len(),
        0 <= j < comps.len(),
    ensures
        comps[i]@.contains(v) && comps[j]@.contains(v) ==> i == j,
        scope.contains(v) && !d[v as int].fixed() ==> exists|k: int| 0 <= k < comps.len() && (#[trigger] comps[k])@.contains(v),
{
    if comps[i]@.contains(v) && comps[j]@.contains(v) {
        lemma_parts_apart(comps, i, j, v);
    }
    if scope.contains(v) && !d[v as int].fixed() {
        lemma_parts_cover(d, scope, comps, v);
    }
}

} // verus!
