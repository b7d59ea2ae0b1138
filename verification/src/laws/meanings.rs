//! What bits, domains, constraints and counts mean.
use vstd::arithmetic::power2;
use vstd::prelude::*;

use crate::bits;
use crate::circuit;
use crate::counting;
use crate::countve;
use crate::csp;
use crate::ct;
use crate::cube;
use crate::dimacs;
use crate::domain::{Asg, DomainMask};
use crate::formats;
use crate::instance;
use crate::instance::{Instance, InstanceTensor};
use crate::laws::totals;
use crate::localsum;
use crate::models;
use crate::network;
use crate::network::ConstraintNetwork;
use crate::semiring::Weight;
use crate::sums;
use crate::util;
use crate::wcanonicalize;
use crate::weighted;

verus! {

/// Bit `i` of a number is the parity of what is left after halving it `i` times.
pub proof fn law_bits_of_numbers(x: u64, i: nat)
    requires
        i < 64,
    ensures
        bits::bit(x, i as int) <==> (x as nat / power2::pow2(i)) % 2 == 1,
{
    reveal(bits::bit);
    let k = i as u64;
    let y = x >> k;
    vstd::bits::lemma_u64_shr_is_div(x, k);
    assert(y & 1u64 == y % 2) by (bit_vector);
}

/// What a domain allows: nothing, one of the values, or both; it is fixed where it allows exactly one.
pub proof fn law_domains(d: DomainMask, b: bool)
    ensures
        !DomainMask::NONE.allows(b),
        DomainMask::D0.allows(b) <==> !b,
        DomainMask::D1.allows(b) <==> b,
        DomainMask::BOTH.allows(b),
        d.fixed() <==> d.allows(false) != d.allows(true),
        d.live() <==> d.allows(false) || d.allows(true),
        DomainMask::only(b).allows(b) && !DomainMask::only(b).allows(!b),
{
}

/// A clause holds where some literal is true: a positive one where its variable is, a negative one
/// where it is not.
pub proof fn law_clauses(lits: Seq<i64>, a: Asg)
    requires
        forall|i: int| 0 <= i < lits.len() ==> (#[trigger] lits[i]) != 0,
    ensures
        dimacs::clause_holds(lits, a) <==> exists|i: int| 0 <= i < lits.len() && ((#[trigger] lits[i]) > 0 && a(lits[i] - 1) || lits[i] < 0 && !a(-lits[i] - 1)),
{
    if dimacs::clause_holds(lits, a) {
        let i = choose|i: int| 0 <= i < lits.len() && a(dimacs::var_of(#[trigger] lits[i])) == (lits[i] > 0);
        assert(lits[i] != 0);
        assert(lits[i] > 0 && a(lits[i] - 1) || lits[i] < 0 && !a(-lits[i] - 1));
    }
    if exists|i: int| 0 <= i < lits.len() && ((#[trigger] lits[i]) > 0 && a(lits[i] - 1) || lits[i] < 0 && !a(-lits[i] - 1)) {
        let i = choose|i: int| 0 <= i < lits.len() && ((#[trigger] lits[i]) > 0 && a(lits[i] - 1) || lits[i] < 0 && !a(-lits[i] - 1));
        assert(a(dimacs::var_of(lits[i])) == (lits[i] > 0));
    }
}

/// A configuration agrees with an assignment where bit `i` is the value of variable `i` of the scope;
/// a relation holds where one of its configurations agrees.
pub proof fn law_relations(scope: Seq<usize>, configs: Seq<u64>, a: Asg)
    requires
        scope.len() <= 64,
    ensures
        csp::relation_holds(scope, configs, a) <==> exists|k: int| 0 <= k < configs.len() && #[trigger] spells(scope, configs[k], a),
{
    if csp::relation_holds(scope, configs, a) {
        let k = choose|k: int| 0 <= k < configs.len() && network::agrees(scope, #[trigger] configs[k], a);
        lemma_spells(scope, configs[k], a);
    }
    if exists|k: int| 0 <= k < configs.len() && #[trigger] spells(scope, configs[k], a) {
        let k = choose|k: int| 0 <= k < configs.len() && #[trigger] spells(scope, configs[k], a);
        lemma_spells(scope, configs[k], a);
    }
}

/// The number is the configuration that the assignment gives the scope, the first variable lowest.
pub open spec fn spells(scope: Seq<usize>, config: u64, a: Asg) -> bool {
    forall|i: int| 0 <= i < scope.len() ==> a((#[trigger] scope[i]) as int) == ((config as nat / power2::pow2(i as nat)) % 2 == 1)
}

proof fn lemma_spells(scope: Seq<usize>, config: u64, a: Asg)
    requires
        scope.len() <= 64,
    ensures
        network::agrees(scope, config, a) <==> spells(scope, config, a),
{
    assert forall|i: int| 0 <= i < scope.len() implies (#[trigger] bits::bit(config, i)) == ((config as nat / power2::pow2(i as nat)) % 2 == 1) by {
        law_bits_of_numbers(config, i as nat);
    }
    if network::agrees(scope, config, a) {
        assert forall|i: int| 0 <= i < scope.len() implies a((#[trigger] scope[i]) as int) == ((config as nat / power2::pow2(i as nat)) % 2 == 1) by {
            assert(bits::bit(config, i) == a(scope[i] as int));
        }
    }
    if spells(scope, config, a) {
        assert forall|i: int| 0 <= i < scope.len() implies bits::bit(config, i) == a((#[trigger] scope[i]) as int) by {
            assert(bits::bit(config, i) == ((config as nat / power2::pow2(i as nat)) % 2 == 1));
        }
    }
}

/// A row of the constraint spells the assignment.
pub open spec fn row_spells(cn: ConstraintNetwork, t: int, a: Asg) -> bool {
    exists|k: int| 0 <= k < cn.rows(t).len() && spells(cn.axes(t), #[trigger] cn.rows(t)[k] as u64, a)
}

/// An assignment is a model of a network where each constraint has a row that spells it.
pub proof fn law_models_of_networks(cn: ConstraintNetwork, a: Asg)
    requires
        cn.wf(),
    ensures
        cn.model(a) <==> forall|t: int| 0 <= t < cn.m() ==> #[trigger] row_spells(cn, t, a),
{
    assert forall|t: int| 0 <= t < cn.m() implies #[trigger] cn.holds(t, a) == row_spells(cn, t, a) by {
        assert(cn.tensor_wf(t));
        if cn.holds(t, a) {
            let k = choose|k: int| 0 <= k < cn.rows(t).len() && network::agrees(cn.axes(t), #[trigger] cn.rows(t)[k] as u64, a);
            lemma_spells(cn.axes(t), cn.rows(t)[k] as u64, a);
        }
        if row_spells(cn, t, a) {
            let k = choose|k: int| 0 <= k < cn.rows(t).len() && spells(cn.axes(t), #[trigger] cn.rows(t)[k] as u64, a);
            lemma_spells(cn.axes(t), cn.rows(t)[k] as u64, a);
        }
    }
    if cn.model(a) {
        assert forall|t: int| 0 <= t < cn.m() implies #[trigger] row_spells(cn, t, a) by {
            assert(cn.holds(t, a));
        }
    }
    if forall|t: int| 0 <= t < cn.m() ==> #[trigger] row_spells(cn, t, a) {
        assert forall|t: int| 0 <= t < cn.m() implies #[trigger] cn.holds(t, a) by {
            assert(row_spells(cn, t, a));
        }
    }
}

/// The assignment gives every fixed variable its value.
pub open spec fn has_fixed_values(d: Seq<DomainMask>, a: Asg) -> bool {
    forall|v: int| 0 <= v < d.len() ==> (#[trigger] d[v] == DomainMask::D1 ==> a(v)) && (d[v] == DomainMask::D0 ==> !a(v))
}

/// A constraint is entailed where it holds under every assignment with the fixed values.
pub proof fn law_entailed_constraints(cn: ConstraintNetwork, d: Seq<DomainMask>, t: int)
    requires
        cn.wf(),
        0 <= t < cn.m(),
    ensures
        util::entailed(cn, d, t) <==> forall|a: Asg| has_fixed_values(d, a) ==> #[trigger] row_spells(cn, t, a),
{
    assert forall|a: Asg| #[trigger] cn.holds(t, a) == row_spells(cn, t, a) by {
        lemma_holds(cn, t, a);
    }
    assert forall|a: Asg| #[trigger] util::keeps_fixed(d, a) == has_fixed_values(d, a) by {
        if has_fixed_values(d, a) {
            assert forall|v: int| 0 <= v < d.len() && (#[trigger] d[v]).fixed() implies a(v) == (d[v] == DomainMask::D1) by {
                assert(d[v] == DomainMask::D1 ==> a(v));
            }
        }
    }
    if util::entailed(cn, d, t) {
        assert forall|a: Asg| has_fixed_values(d, a) implies #[trigger] row_spells(cn, t, a) by {
            assert(util::keeps_fixed(d, a));
            assert(cn.holds(t, a));
        }
    }
    if forall|a: Asg| has_fixed_values(d, a) ==> #[trigger] row_spells(cn, t, a) {
        assert forall|a: Asg| util::keeps_fixed(d, a) implies #[trigger] cn.holds(t, a) by {
            assert(has_fixed_values(d, a));
            assert(row_spells(cn, t, a));
        }
    }
}

proof fn lemma_holds(cn: ConstraintNetwork, t: int, a: Asg)
    requires
        cn.wf(),
        0 <= t < cn.m(),
    ensures
        cn.holds(t, a) == row_spells(cn, t, a),
{
    assert(cn.tensor_wf(t));
    if cn.holds(t, a) {
        let k = choose|k: int| 0 <= k < cn.rows(t).len() && network::agrees(cn.axes(t), #[trigger] cn.rows(t)[k] as u64, a);
        lemma_spells(cn.axes(t), cn.rows(t)[k] as u64, a);
    }
    if row_spells(cn, t, a) {
        let k = choose|k: int| 0 <= k < cn.rows(t).len() && spells(cn.axes(t), #[trigger] cn.rows(t)[k] as u64, a);
        lemma_spells(cn.axes(t), cn.rows(t)[k] as u64, a);
    }
}

/// The row is left: every value in it is allowed.
pub open spec fn row_left(cn: ConstraintNetwork, d: Seq<DomainMask>, t: int, r: int) -> bool {
    &&& 0 <= r < cn.rows(t).len()
    &&& forall|i: int| 0 <= i < cn.axes(t).len() ==> d[(#[trigger] cn.axes(t)[i]) as int].allows(bits::bit(cn.rows(t)[r] as u64, i))
}

/// Arc consistency: every domain has a value, every constraint has a row left, and each value that is
/// allowed stands in such a row of each constraint on its variable.
pub proof fn law_arc_consistency(cn: ConstraintNetwork, d: Seq<DomainMask>, t: int, j: int, b: bool)
    requires
        ct::closed_under(cn, d),
        0 <= t < cn.m(),
        0 <= j < cn.axes(t).len(),
    ensures
        forall|v: int| 0 <= v < cn.n() ==> #[trigger] d[v] != DomainMask::NONE,
        exists|r: int| #[trigger] row_left(cn, d, t, r),
        d[cn.axes(t)[j] as int].allows(b) ==> exists|r: int| #[trigger] row_left(cn, d, t, r) && bits::bit(cn.rows(t)[r] as u64, j) == b,
{
    assert(ct::consistent_at(cn, d, t));
    let r = choose|r: int| 0 <= r < cn.rows(t).len() && ct::admits(d, cn.axes(t), #[trigger] cn.rows(t)[r] as u64);
    assert(row_left(cn, d, t, r));
    if d[cn.axes(t)[j] as int].allows(b) {
        assert(ct::supported(cn, d, t, j, b));
        let q = choose|q: int| 0 <= q < cn.rows(t).len() && ct::admits(d, cn.axes(t), #[trigger] cn.rows(t)[q] as u64) && bits::bit(cn.rows(t)[q] as u64, j) == b;
        assert(row_left(cn, d, t, q));
    }
}

/// Domains that have all this are arc consistent.
pub proof fn law_arc_consistent_domains(cn: ConstraintNetwork, d: Seq<DomainMask>)
    requires
        d.len() == cn.n(),
        forall|v: int| 0 <= v < cn.n() ==> #[trigger] d[v] != DomainMask::NONE,
        forall|t: int| 0 <= t < cn.m() ==> #[trigger] some_row_left(cn, d, t),
        forall|t: int, j: int, b: bool| 0 <= t < cn.m() && 0 <= j < cn.axes(t).len() && d[cn.axes(t)[j] as int].allows(b) ==> #[trigger] row_left_with(cn, d, t, j, b),
    ensures
        ct::closed_under(cn, d),
{
    assert forall|t: int| 0 <= t < cn.m() implies #[trigger] ct::consistent_at(cn, d, t) by {
        assert(some_row_left(cn, d, t));
        let r = choose|r: int| #[trigger] row_left(cn, d, t, r);
        assert(ct::admits(d, cn.axes(t), cn.rows(t)[r] as u64));
        assert forall|j: int, b: bool| 0 <= j < cn.axes(t).len() && d[cn.axes(t)[j] as int].allows(b) implies #[trigger] ct::supported(cn, d, t, j, b) by {
            assert(row_left_with(cn, d, t, j, b));
            let q = choose|q: int| #[trigger] row_left(cn, d, t, q) && bits::bit(cn.rows(t)[q] as u64, j) == b;
            assert(ct::admits(d, cn.axes(t), cn.rows(t)[q] as u64));
        }
    }
    assert forall|v: int| 0 <= v < cn.n() implies (#[trigger] d[v]).live() by {
        assert(d[v] != DomainMask::NONE);
    }
}

/// Some row is left.
pub open spec fn some_row_left(cn: ConstraintNetwork, d: Seq<DomainMask>, t: int) -> bool {
    exists|r: int| #[trigger] row_left(cn, d, t, r)
}

/// Some row with the value is left.
pub open spec fn row_left_with(cn: ConstraintNetwork, d: Seq<DomainMask>, t: int, j: int, b: bool) -> bool {
    exists|r: int| #[trigger] row_left(cn, d, t, r) && bits::bit(cn.rows(t)[r] as u64, j) == b
}

/// Decisions have a model within domains where some model that the domains allow has the decided values.
pub proof fn law_models_with_decisions(cn: ConstraintNetwork, d: Seq<DomainMask>, dec: Seq<(usize, bool)>)
    ensures
        cube::has_model(cn, d, dec) <==> exists|a: Asg| #[trigger] cn.model(a) && (forall|v: int| 0 <= v < d.len() ==> (#[trigger] d[v]).allows(a(v))) && (forall|i: int| 0 <= i < dec.len() ==> a((#[trigger] dec[i]).0 as int) == dec[i].1),
{
    if cube::has_model(cn, d, dec) {
        let a = choose|a: Asg| #[trigger] cn.model(a) && models::consistent(d, a) && cube::dec_holds(dec, a);
        assert(cn.model(a));
        assert forall|v: int| 0 <= v < d.len() implies (#[trigger] d[v]).allows(a(v)) by {
            assert(d[v].allows(a(v)));
        }
    }
    if exists|a: Asg| #[trigger] cn.model(a) && (forall|v: int| 0 <= v < d.len() ==> (#[trigger] d[v]).allows(a(v))) && (forall|i: int| 0 <= i < dec.len() ==> a((#[trigger] dec[i]).0 as int) == dec[i].1) {
        let a = choose|a: Asg| #[trigger] cn.model(a) && (forall|v: int| 0 <= v < d.len() ==> (#[trigger] d[v]).allows(a(v))) && (forall|i: int| 0 <= i < dec.len() ==> a((#[trigger] dec[i]).0 as int) == dec[i].1);
        assert forall|v: int| 0 <= v < d.len() implies d[v].allows(#[trigger] a(v)) by {
            assert(d[v].allows(a(v)));
        }
        assert(models::consistent(d, a));
        assert(cube::dec_holds(dec, a));
    }
}

/// A constraint that lists allowed configurations weighs one where one of them agrees, and zero
/// elsewhere; one that lists nothing weighs zero.
pub proof fn law_weights_of_constraints(t: InstanceTensor, a: Asg)
    requires
        t.vars@.len() <= 64,
        t.rows@.len() == 0,
    ensures
        instance::tensor_weight(t, a) == (if exists|k: int| 0 <= k < t.allow@.len() && #[trigger] spells(t.vars@, t.allow@[k], a) {
            1real
        } else {
            0real
        }),
        t.allow@.len() == 0 ==> instance::tensor_weight(t, a) == 0real,
{
    law_relations(t.vars@, t.allow@, a);
    assert(csp::relation_holds(t.vars@, t.allow@, a) <==> instance::allows(t, a));
}

proof fn lemma_product_join(s: Seq<real>, t: Seq<real>)
    ensures
        sums::product(s + t) == sums::product(s) * sums::product(t),
    decreases t.len(),
{
    if t.len() == 0 {
        assert(s + t =~= s);
        let x = sums::product(s);
        assert(x * 1real == x) by (nonlinear_arith);
    } else {
        let r = t.drop_last();
        lemma_product_join(s, r);
        assert((s + t).drop_last() =~= s + r);
        assert((s + t).last() == t.last());
        let x = sums::product(s);
        let y = sums::product(r);
        let z = t.last();
        assert((x * y) * z == x * (y * z)) by (nonlinear_arith);
    }
}

/// The weight of an assignment: what its constraints weigh times what its values weigh.
pub proof fn law_weights_of_assignments(inst: Instance, a: Asg)
    ensures
        inst.weight(a) == Seq::new(inst.tensors@.len(), |t: int| instance::tensor_weight(inst.tensors@[t], a)).fold_left(1real, |x: real, y: real| x * y)
            * Seq::new(inst.n_vars as nat, |v: int| instance::value_weight(inst.var_weights@, inst.var_weights@.len() as int, v, a(v))).fold_left(1real, |x: real, y: real| x * y),
{
    let s = Seq::new(inst.tensors@.len(), |t: int| instance::tensor_weight(inst.tensors@[t], a));
    let t = Seq::new(inst.n_vars as nat, |v: int| instance::value_weight(inst.var_weights@, inst.var_weights@.len() as int, v, a(v)));
    lemma_product_join(s, t);
    totals::law_products_multiply(s);
    totals::law_products_multiply(t);
    assert(inst.factors(a) =~= s + t);
}

proof fn lemma_ids(n: int)
    requires
        0 <= n,
    ensures
        weighted::ids(n).no_duplicates(),
        weighted::ids(n).to_set() == Set::new(|v: int| 0 <= v < n),
{
    let s = weighted::ids(n);
    assert forall|v: int| 0 <= v < n implies #[trigger] s.to_set().contains(v) by {
        assert(s[v] == v);
    }
    assert(s.to_set() =~= Set::new(|v: int| 0 <= v < n));
}

/// The sets of variables below `n` that, made true with the others false, satisfy the property.
pub open spec fn solutions(n: int, p: spec_fn(Asg) -> bool, base: Asg) -> Set<Set<int>> {
    Set::new(|s: Set<int>| s.subset_of(Set::new(|v: int| 0 <= v < n)) && p(|v: int| if 0 <= v < n {
        s.contains(v)
    } else {
        base(v)
    }))
}

proof fn lemma_counted(n: int, f: spec_fn(Asg) -> real, p: spec_fn(Asg) -> bool, base: Asg)
    requires
        0 <= n,
        forall|a: Asg| #[trigger] f(a) == (if p(a) {
            1real
        } else {
            0real
        }),
    ensures
        sums::total(f, base, weighted::ids(n)) == solutions(n, p, base).len() as real,
{
    let vars = weighted::ids(n);
    let g = |x: Asg| if p(x) {
        1real
    } else {
        0real
    };
    lemma_ids(n);
    totals::law_totals_count(p, base, vars);
    assert forall|a: Asg| #[trigger] f(a) == g(a) by {}
    sums::lemma_total_same(f, g, base, vars);
    assert forall|s: Set<int>| #[trigger] totals::true_sets(p, base, vars).contains(s) <==> solutions(n, p, base).contains(s) by {
        let x = |v: int| if 0 <= v < n {
            s.contains(v)
        } else {
            base(v)
        };
        assert(totals::with_true(base, vars, s) =~= x) by {
            assert forall|v: int| #[trigger] vars.contains(v) <==> 0 <= v < n by {
                assert(vars.to_set().contains(v) <==> 0 <= v < n);
            }
        }
    }
    assert(totals::true_sets(p, base, vars) =~= solutions(n, p, base));
}

/// The count of a formula without weights is the number of assignments of its variables that satisfy every clause.
pub proof fn law_formula_count(nvars: int, clauses: Seq<Seq<i64>>, inst: Instance, base: Asg)
    requires
        formats::formula_instance(nvars, clauses, Seq::empty(), inst),
        dimacs::clauses_sized(clauses),
    ensures
        inst.total(base) == solutions(nvars, |a: Asg| forall|t: int| 0 <= t < clauses.len() ==> dimacs::clause_holds(#[trigger] clauses[t], a), base).len() as real,
{
    let f = |a: Asg| inst.weight(a);
    let p = |a: Asg| forall|t: int| 0 <= t < clauses.len() ==> dimacs::clause_holds(#[trigger] clauses[t], a);
    assert forall|a: Asg| #[trigger] f(a) == (if p(a) {
        1real
    } else {
        0real
    }) by {
        formats::law_formula_weight(nvars, clauses, inst, a);
    }
    lemma_counted(nvars, f, p, base);
}

/// The count of a circuit is the number of values of its wires under which every gate holds.
pub proof fn law_circuit_count(vars: Seq<Seq<char>>, gs: Seq<circuit::Assignment>, inst: Instance, base: Asg)
    requires
        formats::circuit_instance(vars, gs, inst),
    ensures
        inst.total(base) == solutions(vars.len() as int, |a: Asg| forall|t: int| 0 <= t < gs.len() ==> circuit::gate_holds(vars, #[trigger] gs[t], a), base).len() as real,
{
    let f = |a: Asg| inst.weight(a);
    let p = |a: Asg| forall|t: int| 0 <= t < gs.len() ==> circuit::gate_holds(vars, #[trigger] gs[t], a);
    assert forall|a: Asg| #[trigger] f(a) == (if p(a) {
        1real
    } else {
        0real
    }) by {
        formats::law_circuit_weight(vars, gs, inst, a);
    }
    lemma_counted(vars.len() as int, f, p, base);
}

/// The count within domains, where all rows weigh one, is the number of models with the fixed values: of the
/// ways to make open variables true that give a model.
pub proof fn law_count_within_domains<W: Weight>(cn: ConstraintNetwork, weights: Seq<Vec<W>>, d: Seq<DomainMask>)
    requires
        cn.wf(),
        d.len() == cn.n(),
        weighted::weights_fit(cn, weights),
        forall|t: int, k: int| 0 <= t < cn.m() && 0 <= k < cn.rows(t).len() ==> (#[trigger] weights[t]@[k]).val() == 1real,
    ensures
        counting::count_within(cn, weights, d) == open_solutions(cn, d).len() as real,
{
    let f = |a: Asg| weighted::network_weight(cn, weights, a);
    let p = |a: Asg| cn.model(a);
    let g = |x: Asg| if p(x) {
        1real
    } else {
        0real
    };
    let q = |v: int| !d[v].fixed();
    let n = cn.n();
    assert(cn.vars.len() == n);
    let vars = sums::chosen_ids(q, n);
    let base = localsum::settled(d);
    sums::lemma_chosen_ids(q, n);
    assert forall|a: Asg| #[trigger] f(a) == g(a) by {
        countve::law_unit_weight_counts_models(cn, weights, a);
    }
    sums::lemma_total_same(f, g, base, vars);
    totals::law_totals_count(p, base, vars);
    assert forall|v: int| #[trigger] vars.contains(v) <==> 0 <= v < n && !d[v].fixed() by {}
    assert(totals::true_sets(p, base, vars) =~= open_solutions(cn, d)) by {
        assert forall|s: Set<int>| #[trigger] totals::true_sets(p, base, vars).contains(s) <==> open_solutions(cn, d).contains(s) by {
            let x = |v: int| if 0 <= v < d.len() && !d[v].fixed() {
                s.contains(v)
            } else {
                0 <= v < d.len() && d[v] == DomainMask::D1
            };
            assert(totals::with_true(base, vars, s) =~= x);
            assert(s.subset_of(vars.to_set()) <==> s.subset_of(Set::new(|v: int| 0 <= v < d.len() && !d[v].fixed()))) by {
                assert(vars.to_set() =~= Set::new(|v: int| 0 <= v < d.len() && !d[v].fixed()));
            }
        }
    }
}

/// The sets of open variables that, made true with the other open ones false and the fixed ones as they are,
/// give a model.
pub open spec fn open_solutions(cn: ConstraintNetwork, d: Seq<DomainMask>) -> Set<Set<int>> {
    Set::new(|s: Set<int>| s.subset_of(Set::new(|v: int| 0 <= v < d.len() && !d[v].fixed())) && cn.model(|v: int| if 0 <= v < d.len() && !d[v].fixed() {
        s.contains(v)
    } else {
        0 <= v < d.len() && d[v] == DomainMask::D1
    }))
}

/// The weighted count of a network whose rows all weigh one is the number of its models.
pub proof fn law_network_count<W: Weight>(cn: ConstraintNetwork, weights: Seq<Vec<W>>)
    requires
        cn.wf(),
        weighted::weights_fit(cn, weights),
        forall|t: int, k: int| 0 <= t < cn.m() && 0 <= k < cn.rows(t).len() ==> (#[trigger] weights[t]@[k]).val() == 1real,
    ensures
        weighted::weighted_count(cn, weights) == solutions(cn.n(), |a: Asg| cn.model(a), |v: int| false).len() as real,
        wcanonicalize::models_total(cn, |v: int| false) == solutions(cn.n(), |a: Asg| cn.model(a), |v: int| false).len() as real,
{
    let f = |a: Asg| weighted::network_weight(cn, weights, a);
    let g = |a: Asg| if cn.model(a) {
        1real
    } else {
        0real
    };
    let p = |a: Asg| cn.model(a);
    let base = |v: int| false;
    assert(cn.vars.len() == cn.n());
    assert forall|a: Asg| #[trigger] f(a) == (if p(a) {
        1real
    } else {
        0real
    }) by {
        countve::law_unit_weight_counts_models(cn, weights, a);
    }
    lemma_counted(cn.n(), f, p, base);
    assert forall|a: Asg| #[trigger] g(a) == (if p(a) {
        1real
    } else {
        0real
    }) by {}
    lemma_counted(cn.n(), g, p, base);
}

} // verus!
