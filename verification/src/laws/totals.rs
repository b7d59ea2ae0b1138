//! What products and sums come to.
use vstd::prelude::*;

use crate::dimacs;
use crate::domain::Asg;
use crate::formats;
use crate::instance;
use crate::laws::weights;
use crate::network;
use crate::semiring::Weight;
use crate::sums;
use crate::weighted;

verus! {

/// A product is what multiplying from the left gives.
pub proof fn law_products_multiply(s: Seq<real>)
    ensures
        sums::product(s) == s.fold_left(1real, |a: real, x: real| a * x),
    decreases s.len(),
{
    reveal(Seq::fold_left);
    if s.len() > 0 {
        law_products_multiply(s.drop_last());
    }
}

/// The assignment that makes those of the variables true that are in the set, and leaves the others as they are.
pub open spec fn with_true(a: Asg, vars: Seq<int>, s: Set<int>) -> Asg {
    |x: int| if vars.contains(x) {
        s.contains(x)
    } else {
        a(x)
    }
}

/// The sets of variables that, made true with the others false, give an assignment with the property.
pub open spec fn true_sets(p: spec_fn(Asg) -> bool, a: Asg, vars: Seq<int>) -> Set<Set<int>> {
    Set::new(|s: Set<int>| s.subset_of(vars.to_set()) && p(with_true(a, vars, s)))
}

/// Summing one for each assignment with a property counts these assignments.
pub proof fn law_totals_count(p: spec_fn(Asg) -> bool, a: Asg, vars: Seq<int>)
    requires
        vars.no_duplicates(),
    ensures
        true_sets(p, a, vars).finite(),
        sums::total(|x: Asg| if p(x) {
            1real
        } else {
            0real
        }, a, vars) == true_sets(p, a, vars).len() as real,
    decreases vars.len(),
{
    let f = |x: Asg| if p(x) {
        1real
    } else {
        0real
    };
    let all = true_sets(p, a, vars);
    if vars.len() == 0 {
        let none = Set::<int>::empty();
        assert(with_true(a, vars, none) =~= a);
        assert forall|s: Set<int>| #[trigger] all.contains(s) implies s == none by {
            assert(s =~= none);
        }
        if p(a) {
            assert(all =~= Set::<Set<int>>::empty().insert(none));
        } else {
            assert forall|s: Set<int>| !#[trigger] all.contains(s) by {
                if all.contains(s) {
                    assert(s == none);
                }
            }
            assert(all =~= Set::<Set<int>>::empty());
        }
    } else {
        let v = vars.last();
        let rest = vars.drop_last();
        let a0 = sums::set(a, v, false);
        let a1 = sums::set(a, v, true);
        let s0 = true_sets(p, a0, rest);
        let s1 = true_sets(p, a1, rest);
        law_totals_count(p, a0, rest);
        law_totals_count(p, a1, rest);
        assert(!rest.contains(v)) by {
            if rest.contains(v) {
                let i = rest.index_of(v);
                assert(vars[i] == vars[vars.len() - 1]);
            }
        }
        assert forall|x: int| #[trigger] vars.contains(x) <==> (rest.contains(x) || x == v) by {
            assert(rest.push(v) =~= vars);
            crate::seqs::lemma_push_contains(rest, v);
        }
        let put = |s: Set<int>| s.insert(v);
        let b1 = s1.map(put);
        assert forall|s: Set<int>| s.subset_of(rest.to_set()) implies with_true(a0, rest, s) == #[trigger] with_true(a, vars, s) by {
            assert(!s.contains(v));
            assert(with_true(a0, rest, s) =~= with_true(a, vars, s));
        }
        assert forall|s: Set<int>| s.subset_of(rest.to_set()) implies with_true(a1, rest, s) == with_true(a, vars, #[trigger] s.insert(v)) by {
            assert(!s.contains(v));
            assert(with_true(a1, rest, s) =~= with_true(a, vars, s.insert(v)));
        }
        assert(vstd::relations::injective_on(put, s1)) by {
            assert forall|s: Set<int>, t: Set<int>| s1.contains(s) && s1.contains(t) && #[trigger] put(s) == #[trigger] put(t) implies s == t by {
                assert(!s.contains(v) && !t.contains(v));
                assert(s =~= s.insert(v).remove(v));
                assert(t =~= t.insert(v).remove(v));
            }
        }
        vstd::set_lib::lemma_map_size(s1, b1, put);
        assert(s0.disjoint(b1)) by {
            assert forall|s: Set<int>| s0.contains(s) implies !#[trigger] b1.contains(s) by {
                assert(!s.contains(v));
                if b1.contains(s) {
                    let t = choose|t: Set<int>| s1.contains(t) && s == put(t);
                    assert(s.contains(v));
                }
            }
        }
        vstd::set_lib::lemma_set_disjoint_lens(s0, b1);
        assert(all =~= s0 + b1) by {
            assert forall|s: Set<int>| #[trigger] all.contains(s) implies (s0 + b1).contains(s) by {
                if s.contains(v) {
                    let t = s.remove(v);
                    assert(t.subset_of(rest.to_set()));
                    assert(t.insert(v) =~= s);
                    assert(s1.contains(t));
                    assert(b1.contains(put(t)));
                } else {
                    assert(s.subset_of(rest.to_set()));
                    assert(s0.contains(s));
                }
            }
            assert forall|s: Set<int>| #[trigger] (s0 + b1).contains(s) implies all.contains(s) by {
                if s0.contains(s) {
                    assert(with_true(a0, rest, s) == with_true(a, vars, s));
                    assert(s.subset_of(vars.to_set()));
                } else {
                    let t = choose|t: Set<int>| s1.contains(t) && s == put(t);
                    assert(with_true(a1, rest, t) == with_true(a, vars, t.insert(v)));
                    assert(s.subset_of(vars.to_set()));
                }
            }
        }
    }
}

/// The weight of weighted rows at an assignment: the weights of the rows that agree with it, added up.
pub proof fn law_rows_weigh<W: Weight>(vars: Seq<usize>, rows: Seq<(u64, W)>, a: Asg)
    ensures
        weighted::weight_at(vars, rows, a) == rows.fold_left(0real, |s: real, r: (u64, W)| s + (if network::agrees(vars, r.0, a) {
            r.1.val()
        } else {
            0real
        })),
        weighted::weight_sum(rows) == rows.fold_left(0real, |s: real, r: (u64, W)| s + r.1.val()),
    decreases rows.len(),
{
    reveal(Seq::fold_left);
    if rows.len() > 0 {
        law_rows_weigh(vars, rows.drop_last(), a);
    }
}

proof fn lemma_rows_weight(vars: Seq<usize>, rows: Seq<(u64, String)>, k: int, a: Asg)
    requires
        0 <= k <= rows.len(),
    ensures
        instance::rows_weight(vars, rows, k, a) == rows.take(k).fold_left(0real, |s: real, r: (u64, String)| s + (if network::agrees(vars, r.0, a) {
            instance::weight_value(r.1@)
        } else {
            0real
        })),
    decreases k,
{
    reveal(Seq::fold_left);
    if k > 0 {
        lemma_rows_weight(vars, rows, k - 1, a);
        assert(rows.take(k).drop_last() =~= rows.take(k - 1));
        assert(rows.take(k).last() == rows[k - 1]);
    }
}

/// The weight that the rows of a constraint give an assignment: those of the rows that agree with it, added up.
pub proof fn law_listed_rows_weigh(vars: Seq<usize>, rows: Seq<(u64, String)>, a: Asg)
    ensures
        instance::rows_weight(vars, rows, rows.len() as int, a) == rows.fold_left(0real, |s: real, r: (u64, String)| s + (if network::agrees(vars, r.0, a) {
            instance::weight_value(r.1@)
        } else {
            0real
        })),
{
    lemma_rows_weight(vars, rows, rows.len() as int, a);
    crate::seqs::lemma_take_all(rows);
}

proof fn lemma_value_weight(ws: Seq<(usize, String, String)>, k: int, v: int, b: bool)
    requires
        0 <= k <= ws.len(),
    ensures
        (forall|i: int| 0 <= i < k ==> (#[trigger] ws[i]).0 != v) ==> instance::value_weight(ws, k, v, b) == 1real,
        forall|i: int| 0 <= i < k && (#[trigger] ws[i]).0 == v && (forall|j: int| i < j < k ==> (#[trigger] ws[j]).0 != v) ==> instance::value_weight(ws, k, v, b) == instance::weight_value(if b {
            ws[i].2@
        } else {
            ws[i].1@
        }),
    decreases k,
{
    if k > 0 {
        lemma_value_weight(ws, k - 1, v, b);
        if ws[k - 1].0 != v {
            assert forall|i: int| 0 <= i < k && (#[trigger] ws[i]).0 == v && (forall|j: int| i < j < k ==> (#[trigger] ws[j]).0 != v) implies instance::value_weight(ws, k, v, b) == instance::weight_value(if b {
                ws[i].2@
            } else {
                ws[i].1@
            }) by {
                assert(i < k - 1);
                assert(forall|j: int| i < j < k - 1 ==> (#[trigger] ws[j]).0 != v);
            }
        } else {
            assert forall|i: int| 0 <= i < k && (#[trigger] ws[i]).0 == v && (forall|j: int| i < j < k ==> (#[trigger] ws[j]).0 != v) implies i == k - 1 by {
                if i < k - 1 {
                    assert(ws[k - 1].0 != v);
                }
            }
        }
    }
}

/// A value weighs what the last entry of its variable says, and one where there is none.
pub proof fn law_weights_of_values(ws: Seq<(usize, String, String)>, v: int, b: bool)
    ensures
        (forall|i: int| 0 <= i < ws.len() ==> (#[trigger] ws[i]).0 != v) ==> instance::value_weight(ws, ws.len() as int, v, b) == 1real,
        forall|i: int| 0 <= i < ws.len() && (#[trigger] ws[i]).0 == v && (forall|j: int| i < j < ws.len() ==> (#[trigger] ws[j]).0 != v) ==> instance::value_weight(ws, ws.len() as int, v, b) == instance::weight_value(if b {
            ws[i].2@
        } else {
            ws[i].1@
        }),
{
    lemma_value_weight(ws, ws.len() as int, v, b);
}

/// The literal that says that the variable has the value.
pub open spec fn literal_for(v: int, b: bool) -> int {
    if b {
        v + 1
    } else {
        -(v + 1)
    }
}

/// The weight that the entries give a value.
spec fn said(es: Seq<(usize, Seq<char>, Seq<char>)>, v: int, b: bool) -> Seq<char> {
    let i = formats::entry_at(es, v);
    if i < es.len() {
        if b {
            es[i].2
        } else {
            es[i].1
        }
    } else {
        "1"@
    }
}

/// No variable has two entries.
pub open spec fn one_entry_each(es: Seq<(usize, Seq<char>, Seq<char>)>) -> bool {
    forall|i: int, j: int| 0 <= i < j < es.len() ==> (#[trigger] es[i]).0 != (#[trigger] es[j]).0
}

/// Where the entry of a variable stands.
pub proof fn law_entries_are_found(es: Seq<(usize, Seq<char>, Seq<char>)>, v: int)
    ensures
        0 <= formats::entry_at(es, v) <= es.len(),
        formats::entry_at(es, v) < es.len() ==> es[formats::entry_at(es, v)].0 == v,
        forall|i: int| 0 <= i < formats::entry_at(es, v) ==> (#[trigger] es[i]).0 != v,
    decreases es.len(),
{
    if es.len() > 0 {
        let t = es.drop_last();
        law_entries_are_found(t, v);
        assert forall|i: int| 0 <= i < formats::entry_at(es, v) implies (#[trigger] es[i]).0 != v by {
            if i < t.len() {
                assert(t[i] == es[i]);
            }
        }
    }
}

proof fn lemma_with_weight(es: Seq<(usize, Seq<char>, Seq<char>)>, lit: i64, w: Seq<char>, v: int, b: bool)
    requires
        0 <= v,
        one_entry_each(es),
        lit != 0,
        dimacs::var_of(lit) <= usize::MAX,
    ensures
        one_entry_each(formats::with_weight(es, lit, w)),
        said(formats::with_weight(es, lit, w), v, b) == (if lit == literal_for(v, b) {
            w
        } else {
            said(es, v, b)
        }),
{
    let u = dimacs::var_of(lit);
    law_entries_are_found(es, u);
    law_entries_are_found(es, v);
    let i = formats::entry_at(es, u);
    let all = if i < es.len() {
        es
    } else {
        es.push((u as usize, "1"@, "1"@))
    };
    let r = formats::with_weight(es, lit, w);
    assert(forall|j: int| 0 <= j < all.len() ==> (#[trigger] r[j]).0 == all[j].0);
    assert forall|x: int, y: int| 0 <= x < y < r.len() implies (#[trigger] r[x]).0 != (#[trigger] r[y]).0 by {
        assert(r[x].0 == all[x].0 && r[y].0 == all[y].0);
        if y < es.len() {
            assert(es[x].0 != es[y].0);
        } else {
            assert(es[x].0 != u);
        }
    }
    law_entries_are_found(r, v);
    let k = formats::entry_at(r, v);
    let e = formats::entry_at(es, v);
    if e < es.len() {
        assert(r[e].0 == v);
        if k < e {
            assert(es[k].0 != v);
            assert(r[k].0 == all[k].0);
        } else if e < k {
            assert(r[e].0 != v);
        }
        assert(k == e);
        if v == u {
            assert(e == i) by {
                if e < i {
                    assert(es[e].0 != u);
                } else if i < e && i < es.len() {
                    assert(es[i].0 != v);
                }
            }
        } else {
            assert(r[e] == es[e]);
        }
    } else if v == u {
        assert(i == es.len()) by {
            if i < es.len() {
                assert(es[i].0 != v);
            }
        }
        assert(r[i].0 == v);
        if k < i {
            assert(r[k].0 == all[k].0 && all[k] == es[k]);
            assert(es[k].0 != v);
        } else if i < k {
            assert(r[i].0 != v);
        }
    } else {
        if k < r.len() {
            assert(r[k].0 == all[k].0);
            if k < es.len() {
                assert(es[k].0 != v);
            }
        }
    }
}

proof fn lemma_folded(ws: Seq<(i64, Seq<char>)>, k: int, v: int, b: bool)
    requires
        0 <= v,
        0 <= k <= ws.len(),
        forall|i: int| 0 <= i < ws.len() ==> (#[trigger] ws[i]).0 != 0 && dimacs::var_of(ws[i].0) <= usize::MAX,
    ensures
        one_entry_each(formats::folded(ws, k)),
        (forall|i: int| 0 <= i < k ==> (#[trigger] ws[i]).0 != literal_for(v, b)) ==> said(formats::folded(ws, k), v, b) == "1"@,
        forall|i: int| 0 <= i < k && (#[trigger] ws[i]).0 == literal_for(v, b) && (forall|j: int| i < j < k ==> (#[trigger] ws[j]).0 != literal_for(v, b)) ==> said(formats::folded(ws, k), v, b) == ws[i].1,
    decreases k,
{
    if k > 0 {
        lemma_folded(ws, k - 1, v, b);
        assert(ws[k - 1].0 != 0);
        lemma_with_weight(formats::folded(ws, k - 1), ws[k - 1].0, ws[k - 1].1, v, b);
        assert forall|i: int| 0 <= i < k && (#[trigger] ws[i]).0 == literal_for(v, b) && (forall|j: int| i < j < k ==> (#[trigger] ws[j]).0 != literal_for(v, b)) implies said(formats::folded(ws, k), v, b) == ws[i].1 by {
            if i < k - 1 {
                assert(ws[k - 1].0 != literal_for(v, b));
                assert(forall|j: int| i < j < k - 1 ==> (#[trigger] ws[j]).0 != literal_for(v, b));
            }
        }
    }
}

/// In the problem of a formula, a value weighs what the last weight line of its literal says, and one
/// where there is none.
pub proof fn law_literals_weigh(nvars: int, clauses: Seq<Seq<i64>>, ws: Seq<(i64, Seq<char>)>, inst: instance::Instance, v: int, b: bool)
    requires
        0 <= v,
        formats::formula_instance(nvars, clauses, ws, inst),
        forall|i: int| 0 <= i < ws.len() ==> (#[trigger] ws[i]).0 != 0 && dimacs::var_of(ws[i].0) <= usize::MAX,
    ensures
        (forall|i: int| 0 <= i < ws.len() ==> (#[trigger] ws[i]).0 != literal_for(v, b)) ==> instance::value_weight(inst.var_weights@, inst.var_weights@.len() as int, v, b) == 1real,
        forall|i: int| 0 <= i < ws.len() && (#[trigger] ws[i]).0 == literal_for(v, b) && (forall|j: int| i < j < ws.len() ==> (#[trigger] ws[j]).0 != literal_for(v, b)) ==> instance::value_weight(inst.var_weights@, inst.var_weights@.len() as int, v, b) == instance::weight_value(ws[i].1),
{
    let vw = inst.var_weights@;
    let es = formats::folded(ws, ws.len() as int);
    lemma_folded(ws, ws.len() as int, v, b);
    law_weights_of_values(vw, v, b);
    law_entries_are_found(es, v);
    assert(crate::csp::weights_view(vw) == es);
    assert(vw.len() == es.len());
    assert forall|i: int| 0 <= i < es.len() implies (#[trigger] vw[i]).0 == es[i].0 && vw[i].1@ == es[i].1 && vw[i].2@ == es[i].2 by {
        assert(crate::csp::weights_view(vw)[i] == (vw[i].0, vw[i].1@, vw[i].2@));
    }
    let e = formats::entry_at(es, v);
    let one = "1"@;
    reveal_strlit("1");
    assert(one =~= seq!['1']);
    assert(weights::digits_only(one));
    weights::law_integer_weights(one);
    weights::law_decimal_digits(1);
    assert(crate::semiring::decimal(1) =~= one);
    assert(instance::weight_value(one) == 1real);
    if e < es.len() {
        assert(vw[e].0 == v);
        assert forall|j: int| e < j < vw.len() implies (#[trigger] vw[j]).0 != v by {
            assert(es[e].0 != es[j].0);
        }
        assert(instance::value_weight(vw, vw.len() as int, v, b) == instance::weight_value(said(es, v, b)));
    } else {
        assert forall|i: int| 0 <= i < vw.len() implies (#[trigger] vw[i]).0 != v by {
            assert(es[i].0 != v);
        }
        assert(instance::value_weight(vw, vw.len() as int, v, b) == instance::weight_value(said(es, v, b)));
    }
}

} // verus!
