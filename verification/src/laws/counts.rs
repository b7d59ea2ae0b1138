//! What is counted.
use vstd::arithmetic::power2;
use vstd::prelude::*;

use crate::adapter::Clause;
use crate::audit;
use crate::bits;
use crate::blockmerge;
use crate::blockmerge::Subcube;
use crate::canonicalize;
use crate::contract;
use crate::ct;
use crate::cube;
use crate::cube::Cube;
use crate::domain::DomainMask;
use crate::laws::residue;
use crate::laws::sizes;
use crate::measure;
use crate::measure::Measure;
use crate::minfill;
use crate::minfill::Links;
use crate::network::ConstraintNetwork;
use crate::propagate;
use crate::selector;
use crate::table;
use crate::util;
use crate::vegraph;
use crate::vegraph::VeGraph;

verus! {

proof fn lemma_occurrences_count_constraints(cn: ConstraintNetwork, d: Seq<DomainMask>, v: int, k: int)
    requires
        0 <= k,
    ensures
        sizes::places(k, |t: int| cn.axes(t).contains(v as usize) && !util::entailed(cn, d, t)).finite(),
        selector::occurrences(cn, d, v, k) == sizes::places(k, |t: int| cn.axes(t).contains(v as usize) && !util::entailed(cn, d, t)).len(),
    decreases k,
{
    let p = |t: int| cn.axes(t).contains(v as usize) && !util::entailed(cn, d, t);
    if k > 0 {
        lemma_occurrences_count_constraints(cn, d, v, k - 1);
        sizes::lemma_next_place(k - 1, p);
    } else {
        sizes::lemma_no_places(0, p);
    }
}

/// A variable occurs in as many constraints as name it and are not entailed.
pub proof fn law_occurrences_count_constraints(cn: ConstraintNetwork, d: Seq<DomainMask>, v: int)
    ensures
        selector::occurrences(cn, d, v, cn.m()) == Set::new(|t: int| 0 <= t < cn.m() && cn.axes(t).contains(v as usize) && !util::entailed(cn, d, t)).len(),
{
    lemma_occurrences_count_constraints(cn, d, v, cn.m());
    assert(sizes::places(cn.m(), |t: int| cn.axes(t).contains(v as usize) && !util::entailed(cn, d, t)) =~= Set::new(|t: int| 0 <= t < cn.m() && cn.axes(t).contains(v as usize) && !util::entailed(cn, d, t)));
}

proof fn lemma_passing_rows_are_counted(cn: ConstraintNetwork, d: Seq<DomainMask>, t: int, k: int)
    requires
        0 <= k,
    ensures
        sizes::places(k, |r: int| propagate::respects(d, cn.axes(t), cn.rows(t)[r] as u64)).finite(),
        util::passing(cn, d, t, k) == sizes::places(k, |r: int| propagate::respects(d, cn.axes(t), cn.rows(t)[r] as u64)).len(),
    decreases k,
{
    let p = |r: int| propagate::respects(d, cn.axes(t), cn.rows(t)[r] as u64);
    if k > 0 {
        lemma_passing_rows_are_counted(cn, d, t, k - 1);
        sizes::lemma_next_place(k - 1, p);
    } else {
        sizes::lemma_no_places(0, p);
    }
}

/// The rows that pass are those that give every fixed variable its value.
pub proof fn law_passing_rows_are_counted(cn: ConstraintNetwork, d: Seq<DomainMask>, t: int)
    ensures
        util::passing(cn, d, t, cn.rows(t).len() as int) == Set::new(|r: int| 0 <= r < cn.rows(t).len() && propagate::respects(d, cn.axes(t), cn.rows(t)[r] as u64)).len(),
{
    lemma_passing_rows_are_counted(cn, d, t, cn.rows(t).len() as int);
    assert(sizes::places(cn.rows(t).len() as int, |r: int| propagate::respects(d, cn.axes(t), cn.rows(t)[r] as u64)) =~= Set::new(|r: int| 0 <= r < cn.rows(t).len() && propagate::respects(d, cn.axes(t), cn.rows(t)[r] as u64)));
}

proof fn lemma_open_constraints_are_counted(cn: ConstraintNetwork, d: Seq<DomainMask>, k: int)
    requires
        0 <= k,
    ensures
        sizes::places(k, |t: int| util::has_open(cn, d, t)).finite(),
        measure::open_tensors(cn, d, k) == sizes::places(k, |t: int| util::has_open(cn, d, t)).len(),
    decreases k,
{
    let p = |t: int| util::has_open(cn, d, t);
    if k > 0 {
        lemma_open_constraints_are_counted(cn, d, k - 1);
        sizes::lemma_next_place(k - 1, p);
    } else {
        sizes::lemma_no_places(0, p);
    }
}

/// A constraint is open where one of its variables is.
pub proof fn law_open_constraints_are_counted(cn: ConstraintNetwork, d: Seq<DomainMask>)
    ensures
        measure::open_tensors(cn, d, cn.m()) == Set::new(|t: int| 0 <= t < cn.m() && exists|j: int| 0 <= j < cn.axes(t).len() && !d[(#[trigger] cn.axes(t)[j]) as int].fixed()).len(),
{
    lemma_open_constraints_are_counted(cn, d, cn.m());
    assert(sizes::places(cn.m(), |t: int| util::has_open(cn, d, t)) =~= Set::new(|t: int| 0 <= t < cn.m() && exists|j: int| 0 <= j < cn.axes(t).len() && !d[(#[trigger] cn.axes(t)[j]) as int].fixed()));
}

proof fn lemma_undecided_variables_are_counted(d: Seq<DomainMask>, k: int)
    requires
        0 <= k,
    ensures
        sizes::places(k, |v: int| d[v] == DomainMask::BOTH).finite(),
        ct::both_count(d, k) == sizes::places(k, |v: int| d[v] == DomainMask::BOTH).len(),
    decreases k,
{
    let p = |v: int| d[v] == DomainMask::BOTH;
    if k > 0 {
        lemma_undecided_variables_are_counted(d, k - 1);
        sizes::lemma_next_place(k - 1, p);
    } else {
        sizes::lemma_no_places(0, p);
    }
}

/// The variables with both values.
pub proof fn law_undecided_variables_are_counted(d: Seq<DomainMask>)
    ensures
        ct::both_count(d, d.len() as int) == Set::new(|v: int| 0 <= v < d.len() && d[v] == DomainMask::BOTH).len(),
{
    lemma_undecided_variables_are_counted(d, d.len() as int);
    assert(sizes::places(d.len() as int, |v: int| d[v] == DomainMask::BOTH) =~= Set::new(|v: int| 0 <= v < d.len() && d[v] == DomainMask::BOTH));
}

proof fn lemma_owners_are_counted(cubes: Seq<Subcube>, x: u64, k: int)
    requires
        0 <= k,
    ensures
        sizes::places(k, |c: int| cubes[c].has(x)).finite(),
        blockmerge::owners(cubes, x, k) == sizes::places(k, |c: int| cubes[c].has(x)).len(),
    decreases k,
{
    let p = |c: int| cubes[c].has(x);
    if k > 0 {
        lemma_owners_are_counted(cubes, x, k - 1);
        sizes::lemma_next_place(k - 1, p);
    } else {
        sizes::lemma_no_places(0, p);
    }
}

/// A point has as many owners as cubes hold it.
pub proof fn law_owners_are_counted(cubes: Seq<Subcube>, x: u64)
    ensures
        blockmerge::owners(cubes, x, cubes.len() as int) == Set::new(|c: int| 0 <= c < cubes.len() && cubes[c].has(x)).len(),
{
    lemma_owners_are_counted(cubes, x, cubes.len() as int);
    assert(sizes::places(cubes.len() as int, |c: int| cubes[c].has(x)) =~= Set::new(|c: int| 0 <= c < cubes.len() && cubes[c].has(x)));
}

proof fn lemma_mentioned_variables_are_counted(g: VeGraph, n: nat, k: int)
    requires
        0 <= k,
    ensures
        sizes::places(k, |v: int| vegraph::mentions(g.scopes@, g.active@, v as usize)).finite(),
        canonicalize::open_count(g, k) == sizes::places(k, |v: int| vegraph::mentions(g.scopes@, g.active@, v as usize)).len(),
    decreases k,
{
    let p = |v: int| vegraph::mentions(g.scopes@, g.active@, v as usize);
    if k > 0 {
        lemma_mentioned_variables_are_counted(g, n, k - 1);
        sizes::lemma_next_place(k - 1, p);
    } else {
        sizes::lemma_no_places(0, p);
    }
}

/// The variables that a slot in use mentions.
pub proof fn law_mentioned_variables_are_counted(g: VeGraph, n: nat)
    ensures
        canonicalize::open_count(g, n as int) == Set::new(|v: int| 0 <= v < n && vegraph::mentions(g.scopes@, g.active@, v as usize)).len(),
{
    lemma_mentioned_variables_are_counted(g, n, n as int);
    assert(sizes::places(n as int, |v: int| vegraph::mentions(g.scopes@, g.active@, v as usize)) =~= Set::new(|v: int| 0 <= v < n && vegraph::mentions(g.scopes@, g.active@, v as usize)));
}

proof fn lemma_fixed_originals_are_counted(cn: ConstraintNetwork, d: Seq<DomainMask>, k: int)
    requires
        0 <= k,
    ensures
        sizes::places(k, |o: int| audit::fixed_value(cn, d, o) is Some).finite(),
        audit::fixed_originals(cn, d, k) == sizes::places(k, |o: int| audit::fixed_value(cn, d, o) is Some).len(),
    decreases k,
{
    let p = |o: int| audit::fixed_value(cn, d, o) is Some;
    if k > 0 {
        lemma_fixed_originals_are_counted(cn, d, k - 1);
        sizes::lemma_next_place(k - 1, p);
    } else {
        sizes::lemma_no_places(0, p);
    }
}

/// The original variables that the domains fix.
pub proof fn law_fixed_originals_are_counted(cn: ConstraintNetwork, d: Seq<DomainMask>)
    ensures
        audit::fixed_originals(cn, d, cn.orig_to_new@.len() as int) == Set::new(|o: int| 0 <= o < cn.orig_to_new@.len() && cn.orig_to_new@[o] is Some && d[cn.orig_to_new@[o]->0 as int].fixed()).len(),
{
    lemma_fixed_originals_are_counted(cn, d, cn.orig_to_new@.len() as int);
    assert(sizes::places(cn.orig_to_new@.len() as int, |o: int| audit::fixed_value(cn, d, o) is Some) =~= Set::new(|o: int| 0 <= o < cn.orig_to_new@.len() && cn.orig_to_new@[o] is Some && d[cn.orig_to_new@[o]->0 as int].fixed()));
}

proof fn lemma_free_coordinates_are_counted(mask: u64, width: nat, k: int)
    requires
        0 <= k,
    ensures
        sizes::places(k, |i: int| !bits::bit(mask, i)).finite(),
        blockmerge::free_below(mask, k) == sizes::places(k, |i: int| !bits::bit(mask, i)).len(),
    decreases k,
{
    let p = |i: int| !bits::bit(mask, i);
    if k > 0 {
        lemma_free_coordinates_are_counted(mask, width, k - 1);
        sizes::lemma_next_place(k - 1, p);
    } else {
        sizes::lemma_no_places(0, p);
    }
}

/// The free coordinates are those that the mask leaves out.
pub proof fn law_free_coordinates_are_counted(mask: u64, width: nat)
    ensures
        blockmerge::free_below(mask, width as int) == Set::new(|i: int| 0 <= i < width && !bits::bit(mask, i)).len(),
{
    lemma_free_coordinates_are_counted(mask, width, width as int);
    assert(sizes::places(width as int, |i: int| !bits::bit(mask, i)) =~= Set::new(|i: int| 0 <= i < width && !bits::bit(mask, i)));
}

/// A variable scores where it is open: by the constraints that name it and are not entailed.
pub proof fn law_scores(cn: ConstraintNetwork, d: Seq<DomainMask>, v: int)
    ensures
        d[v].fixed() ==> selector::score(cn, d, v) == 0,
        !d[v].fixed() ==> selector::score(cn, d, v) == Set::new(|t: int| 0 <= t < cn.m() && cn.axes(t).contains(v as usize) && !util::entailed(cn, d, t)).len(),
{
    law_occurrences_count_constraints(cn, d, v);
}

proof fn lemma_kinds(cubes: Seq<Cube>, from: int, k: int, kind: spec_fn(Cube) -> bool)
    requires
        0 <= from,
        0 <= k,
    ensures
        sizes::places(k, |i: int| from <= i && kind(cubes[i])).finite(),
        cube::count_kind(cubes, from, k, kind) == sizes::places(k, |i: int| from <= i && kind(cubes[i])).len(),
    decreases k,
{
    let p = |i: int| from <= i && kind(cubes[i]);
    if k > 0 {
        lemma_kinds(cubes, from, k - 1, kind);
        sizes::lemma_next_place(k - 1, p);
        if k <= from {
            lemma_none_before(cubes, from, k - 1, kind);
        }
    } else {
        sizes::lemma_no_places(0, p);
    }
}

proof fn lemma_none_before(cubes: Seq<Cube>, from: int, k: int, kind: spec_fn(Cube) -> bool)
    requires
        k < from,
    ensures
        cube::count_kind(cubes, from, k, kind) == 0,
{
}

/// The cubes of a kind from a place on are counted, up to the largest number.
pub proof fn law_cubes_are_tallied(cubes: Seq<Cube>, from: int, kind: spec_fn(Cube) -> bool)
    requires
        0 <= from,
        cubes.len() <= usize::MAX,
    ensures
        cube::tally(cubes, from, kind) == Set::new(|i: int| from <= i < cubes.len() && kind(cubes[i])).len(),
{
    let p = |i: int| from <= i && kind(cubes[i]);
    lemma_kinds(cubes, from, cubes.len() as int, kind);
    sizes::lemma_places_finite(cubes.len() as int, p);
    assert(sizes::places(cubes.len() as int, p) =~= Set::new(|i: int| from <= i < cubes.len() && kind(cubes[i])));
}

/// The number of places of one list whose variable is in the other too.
pub proof fn law_shared_variables_are_counted(a: Seq<usize>, b: Seq<usize>)
    ensures
        contract::shared(a, b) == Set::new(|i: int| 0 <= i < a.len() && b.contains(a[i])).len(),
{
    lemma_shared(a, b);
    assert(sizes::places(a.len() as int, |i: int| b.contains(a[i])) =~= Set::new(|i: int| 0 <= i < a.len() && b.contains(a[i])));
}

proof fn lemma_shared(a: Seq<usize>, b: Seq<usize>)
    ensures
        sizes::places(a.len() as int, |i: int| b.contains(a[i])).finite(),
        contract::shared(a, b) == sizes::places(a.len() as int, |i: int| b.contains(a[i])).len(),
    decreases a.len(),
{
    let p = |i: int| b.contains(a[i]);
    if a.len() == 0 {
        sizes::lemma_no_places(0, p);
    } else {
        let t = a.drop_last();
        let q = |i: int| b.contains(t[i]);
        lemma_shared(t, b);
        assert forall|i: int| 0 <= i < t.len() implies #[trigger] p(i) == q(i) by {
            assert(t[i] == a[i]);
        }
        sizes::lemma_same_places(t.len() as int, p, q);
        sizes::lemma_next_place(t.len() as int, p);
    }
}

proof fn lemma_open_variables(axes: Seq<usize>, d: Seq<DomainMask>, k: int)
    requires
        0 <= k,
    ensures
        sizes::places(k, |j: int| !d[axes[j] as int].fixed()).finite(),
        sizes::lists_in_order(util::open_vars(axes, d, k), k, |j: int| !d[axes[j] as int].fixed(), |j: int| axes[j] as int),
    decreases k,
{
    let p = |j: int| !d[axes[j] as int].fixed();
    let g = |j: int| axes[j] as int;
    sizes::lemma_places_finite(k, p);
    if k > 0 {
        lemma_open_variables(axes, d, k - 1);
        if p(k - 1) {
            sizes::lemma_list_push(util::open_vars(axes, d, k - 1), k - 1, p, g);
        } else {
            sizes::lemma_list_skip(util::open_vars(axes, d, k - 1), k - 1, p, g);
        }
    } else {
        sizes::lemma_list_empty(p, g);
    }
}

/// The open variables of a scope, in its order.
pub proof fn law_open_variables_are_listed(axes: Seq<usize>, d: Seq<DomainMask>)
    ensures
        sizes::lists_in_order(util::open_vars(axes, d, axes.len() as int), axes.len() as int, |j: int| !d[axes[j] as int].fixed(), |j: int| axes[j] as int),
{
    lemma_open_variables(axes, d, axes.len() as int);
}

/// How many open variables a constraint has above two.
pub open spec fn above_two(cn: ConstraintNetwork, d: Seq<DomainMask>, t: int) -> int {
    let open = Set::new(|j: int| 0 <= j < cn.axes(t).len() && !d[cn.axes(t)[j] as int].fixed()).len();
    if open > 2 {
        open - 2
    } else {
        0
    }
}

proof fn lemma_excess(cn: ConstraintNetwork, d: Seq<DomainMask>, k: int)
    requires
        0 <= k,
    ensures
        measure::excess(cn, d, k) == sizes::added(k, |t: int| above_two(cn, d, t)),
    decreases k,
{
    let f = |t: int| above_two(cn, d, t);
    if k > 0 {
        lemma_excess(cn, d, k - 1);
        sizes::lemma_next_added(k - 1, f);
        let axes = cn.axes(k - 1);
        lemma_open_variables(axes, d, axes.len() as int);
        assert(sizes::places(axes.len() as int, |j: int| !d[axes[j] as int].fixed()) =~= Set::new(|j: int| 0 <= j < axes.len() && !d[axes[j] as int].fixed()));
    } else {
        sizes::lemma_nothing_added(f);
    }
}

/// What a measure counts: open variables, constraints with an open variable, or the open variables
/// above two added up over the constraints.
pub proof fn law_measures(cn: ConstraintNetwork, d: Seq<DomainMask>)
    ensures
        measure::measured(cn, d, Measure::NumUnfixedVars) == Set::new(|v: int| 0 <= v < d.len() && d[v] != DomainMask::D0 && d[v] != DomainMask::D1).len(),
        measure::measured(cn, d, Measure::NumUnfixedTensors) == Set::new(|t: int| 0 <= t < cn.m() && exists|j: int| 0 <= j < cn.axes(t).len() && !d[(#[trigger] cn.axes(t)[j]) as int].fixed()).len(),
        measure::measured(cn, d, Measure::NumHardTensors) == sizes::added(cn.m(), |t: int| above_two(cn, d, t)),
{
    residue::law_open_variables_are_counted(d);
    law_open_constraints_are_counted(cn, d);
    assert(cn.tensors.len() == cn.m());
    lemma_excess(cn, d, cn.m());
}

proof fn lemma_literals_set(clauses: Seq<Clause>, k: int)
    requires
        0 <= k,
    ensures
        table::literals_set(clauses, k) == sizes::added(k, |c: int| Set::new(|i: int| 0 <= i < 64 && bits::bit(clauses[c].mask, i)).len() as int),
    decreases k,
{
    let f = |c: int| Set::new(|i: int| 0 <= i < 64 && bits::bit(clauses[c].mask, i)).len() as int;
    if k > 0 {
        lemma_literals_set(clauses, k - 1);
        sizes::lemma_next_added(k - 1, f);
        residue::law_set_bits_are_counted(clauses[k - 1].mask, 64);
    } else {
        sizes::lemma_nothing_added(f);
    }
}

/// The literals of a rule: those that its clauses set, added up.
pub proof fn law_literals_are_counted(clauses: Seq<Clause>)
    ensures
        table::literals_set(clauses, clauses.len() as int) == sizes::added(clauses.len() as int, |c: int| Set::new(|i: int| 0 <= i < 64 && bits::bit(clauses[c].mask, i)).len() as int),
{
    lemma_literals_set(clauses, clauses.len() as int);
}

proof fn lemma_points(cubes: Seq<Subcube>, width: int, k: int)
    requires
        0 <= width,
        0 <= k,
    ensures
        blockmerge::points_of(cubes, width, k) == sizes::added(k, |c: int| power2::pow2(Set::new(|i: int| 0 <= i < width && !bits::bit(cubes[c].mask, i)).len()) as int),
    decreases k,
{
    let f = |c: int| power2::pow2(Set::new(|i: int| 0 <= i < width && !bits::bit(cubes[c].mask, i)).len()) as int;
    if k > 0 {
        lemma_points(cubes, width, k - 1);
        sizes::lemma_next_added(k - 1, f);
        law_free_coordinates_are_counted(cubes[k - 1].mask, width as nat);
        assert(Set::new(|i: int| 0 <= i < width as nat && !bits::bit(cubes[k - 1].mask, i)) =~= Set::new(|i: int| 0 <= i < width && !bits::bit(cubes[k - 1].mask, i)));
    } else {
        sizes::lemma_nothing_added(f);
    }
}

/// Each cube has two to its free coordinates as many points; over the cubes they are added up.
pub proof fn law_points_are_counted(cubes: Seq<Subcube>, width: int)
    requires
        0 <= width,
    ensures
        blockmerge::points_of(cubes, width, cubes.len() as int) == sizes::added(cubes.len() as int, |c: int| power2::pow2(Set::new(|i: int| 0 <= i < width && !bits::bit(cubes[c].mask, i)).len()) as int),
{
    lemma_points(cubes, width, cubes.len() as int);
}

/// The places of two of the first `n`, the first below `upto` and the second above it, that are not linked.
spec fn apart(l: Links, out: Seq<usize>, upto: int) -> Set<(int, int)> {
    Set::new(|q: (int, int)| 0 <= q.0 < upto && q.0 < q.1 < out.len() && !l(out[q.0], out[q.1]))
}

spec fn apart_in_row(l: Links, out: Seq<usize>, i: int, upto: int) -> Set<(int, int)> {
    Set::new(|q: (int, int)| q.0 == i && i < q.1 < upto && !l(out[q.0], out[q.1]))
}

proof fn lemma_row(l: Links, out: Seq<usize>, i: int, upto: int)
    requires
        0 <= i,
        upto <= out.len(),
    ensures
        apart_in_row(l, out, i, upto).finite(),
        minfill::gap_row(l, out, i, upto) == apart_in_row(l, out, i, upto).len(),
    decreases upto - i,
{
    if upto <= i + 1 {
        assert(apart_in_row(l, out, i, upto) =~= Set::<(int, int)>::empty());
    } else {
        lemma_row(l, out, i, upto - 1);
        if l(out[i], out[upto - 1]) {
            assert(apart_in_row(l, out, i, upto) =~= apart_in_row(l, out, i, upto - 1));
        } else {
            assert(apart_in_row(l, out, i, upto) =~= apart_in_row(l, out, i, upto - 1).insert((i, upto - 1)));
        }
    }
}

proof fn lemma_pairs(l: Links, out: Seq<usize>, upto: int)
    requires
        0 <= upto <= out.len(),
    ensures
        apart(l, out, upto).finite(),
        minfill::gaps(l, out, upto) == apart(l, out, upto).len(),
    decreases upto,
{
    if upto == 0 {
        assert(apart(l, out, upto) =~= Set::<(int, int)>::empty());
    } else {
        lemma_pairs(l, out, upto - 1);
        lemma_row(l, out, upto - 1, out.len() as int);
        let a = apart(l, out, upto - 1);
        let b = apart_in_row(l, out, upto - 1, out.len() as int);
        vstd::set_lib::lemma_set_disjoint_lens(a, b);
        assert(apart(l, out, upto) =~= a + b);
    }
}

/// Eliminating a variable adds as many links as pairs of its neighbours are not linked yet.
pub proof fn law_new_links_are_counted(l: Links, out: Seq<usize>)
    ensures
        minfill::gaps(l, out, out.len() as int) == Set::new(|q: (int, int)| 0 <= q.0 < q.1 < out.len() && !l(out[q.0], out[q.1])).len(),
{
    lemma_pairs(l, out, out.len() as int);
    assert(apart(l, out, out.len() as int) =~= Set::new(|q: (int, int)| 0 <= q.0 < q.1 < out.len() && !l(out[q.0], out[q.1])));
}

proof fn lemma_fill_row(scopes: Seq<Vec<usize>>, active: Seq<bool>, out: Seq<usize>, i: int, upto: int)
    ensures
        vegraph::fill_row(scopes, active, out, i, upto) == minfill::gap_row(|a: usize, b: usize| vegraph::linked(scopes, active, a, b), out, i, upto),
    decreases upto - i,
{
    if upto > i + 1 {
        lemma_fill_row(scopes, active, out, i, upto - 1);
    }
}

proof fn lemma_fill(scopes: Seq<Vec<usize>>, active: Seq<bool>, out: Seq<usize>, upto: int)
    ensures
        vegraph::fill(scopes, active, out, upto) == minfill::gaps(|a: usize, b: usize| vegraph::linked(scopes, active, a, b), out, upto),
    decreases upto,
{
    if upto > 0 {
        lemma_fill(scopes, active, out, upto - 1);
        lemma_fill_row(scopes, active, out, upto - 1, out.len() as int);
    }
}

/// The fill of a variable: the pairs of its neighbours that no slot in use mentions together.
pub proof fn law_fill_counts_pairs(scopes: Seq<Vec<usize>>, active: Seq<bool>, out: Seq<usize>)
    ensures
        vegraph::fill(scopes, active, out, out.len() as int) == Set::new(|q: (int, int)| 0 <= q.0 < q.1 < out.len() && !vegraph::linked(scopes, active, out[q.0], out[q.1])).len(),
{
    let l = |a: usize, b: usize| vegraph::linked(scopes, active, a, b);
    lemma_fill(scopes, active, out, out.len() as int);
    law_new_links_are_counted(l, out);
    assert(Set::new(|q: (int, int)| 0 <= q.0 < q.1 < out.len() && !l(out[q.0], out[q.1])) =~= Set::new(|q: (int, int)| 0 <= q.0 < q.1 < out.len() && !vegraph::linked(scopes, active, out[q.0], out[q.1])));
}

} // verus!
