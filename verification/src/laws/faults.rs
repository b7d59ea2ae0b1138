//! When inputs are accepted, and when they are refused.
use vstd::prelude::*;

use crate::audit;
use crate::bits;
use crate::circuit;
use crate::circuit::Assignment;
use crate::csp;
use crate::csp::CspFault;
use crate::dimacs;
use crate::domain::DomainMask;
use crate::instance;
use crate::instance::{Instance, InstanceFault, InstanceTensor};
use crate::laws::circuits;
use crate::laws::lists;
use crate::laws::sizes;
use crate::network;
use crate::network::ConstraintNetwork;
use crate::semiring;
use crate::text;

verus! {

proof fn lemma_found<A>(r: Option<A>, n: int, p: spec_fn(int) -> bool, g: spec_fn(int) -> A)
    requires
        sizes::finds_first(r, n, p, g),
    ensures
        r is None <==> (forall|i: int| 0 <= i < n ==> !#[trigger] p(i)),
{
    if r is Some {
        let i = choose|i: int| #[trigger] sizes::stands_first(i, n, p) && r->0 == g(i);
        assert(p(i));
    }
}

/// A constraint is accepted exactly where it names from one up to sixty-three variables, all
/// declared and none twice, gives allowed configurations or weighted ones but not both, all of them
/// over its variables, and gives every weight as a number.
pub proof fn law_accepted_constraints(t: InstanceTensor, i: usize, n: int)
    ensures
        instance::tensor_fault(t, i, n) is None <==> {
            &&& 1 <= t.vars@.len() <= 63
            &&& forall|j: int, k: int| 0 <= j < k < t.vars@.len() ==> (#[trigger] t.vars@[j]) != (#[trigger] t.vars@[k])
            &&& forall|j: int| 0 <= j < t.vars@.len() ==> (#[trigger] t.vars@[j]) < n
            &&& t.allow@.len() == 0 || t.rows@.len() == 0
            &&& forall|k: int| 0 <= k < t.allow@.len() ==> bits::below(#[trigger] t.allow@[k], t.vars@.len() as int)
            &&& forall|k: int| 0 <= k < t.rows@.len() ==> bits::below((#[trigger] t.rows@[k]).0, t.vars@.len() as int)
            &&& forall|k: int| 0 <= k < t.rows@.len() ==> semiring::weight_number((#[trigger] t.rows@[k]).1@) is Ok
        },
{
    let vars = t.vars@;
    let rows = t.rows@;
    let allow = t.allow@;
    let m = vars.len() as int;
    let configs = instance::row_configs(rows);
    lists::law_first_variable_out_of_range(vars, n);
    lists::law_first_wide_configuration(allow, m);
    lists::law_first_wide_configuration(configs, m);
    lists::law_first_bad_row(rows);
    let p1 = |i: int| vars[i] >= n;
    let g1 = |i: int| vars[i];
    lemma_found(instance::first_over(vars, n, m), m, p1, g1);
    let p2 = |i: int| !bits::below(allow[i], m);
    let g2 = |i: int| allow[i];
    lemma_found(instance::first_wide(allow, m, allow.len() as int), allow.len() as int, p2, g2);
    let p3 = |i: int| !bits::below(configs[i], m);
    let g3 = |i: int| configs[i];
    lemma_found(instance::first_wide(configs, m, configs.len() as int), configs.len() as int, p3, g3);
    let p4 = |i: int| semiring::weight_number(rows[i].1@) is Err;
    let g4 = |i: int| (rows[i].0, semiring::weight_number(rows[i].1@)->Err_0);
    lemma_found(instance::first_bad_row(rows, rows.len() as int), rows.len() as int, p4, g4);
    assert(network::distinct(vars) <==> (forall|j: int, k: int| 0 <= j < k < vars.len() ==> (#[trigger] vars[j]) != (#[trigger] vars[k])));
    assert((forall|i: int| 0 <= i < m ==> !#[trigger] p1(i)) <==> (forall|j: int| 0 <= j < vars.len() ==> (#[trigger] vars[j]) < n)) by {
        assert forall|j: int| 0 <= j < vars.len() && (forall|i: int| 0 <= i < m ==> !#[trigger] p1(i)) implies (#[trigger] vars[j]) < n by {
            assert(!p1(j));
        }
    }
    assert((forall|i: int| 0 <= i < allow.len() ==> !#[trigger] p2(i)) <==> (forall|k: int| 0 <= k < allow.len() ==> bits::below(#[trigger] allow[k], m))) by {
        assert forall|k: int| 0 <= k < allow.len() && (forall|i: int| 0 <= i < allow.len() ==> !#[trigger] p2(i)) implies bits::below(#[trigger] allow[k], m) by {
            assert(!p2(k));
        }
    }
    assert((forall|i: int| 0 <= i < configs.len() ==> !#[trigger] p3(i)) <==> (forall|k: int| 0 <= k < rows.len() ==> bits::below((#[trigger] rows[k]).0, m))) by {
        assert forall|k: int| 0 <= k < rows.len() && (forall|i: int| 0 <= i < configs.len() ==> !#[trigger] p3(i)) implies bits::below((#[trigger] rows[k]).0, m) by {
            assert(!p3(k));
            assert(configs[k] == rows[k].0);
        }
        assert forall|i: int| 0 <= i < configs.len() && (forall|k: int| 0 <= k < rows.len() ==> bits::below((#[trigger] rows[k]).0, m)) implies !#[trigger] p3(i) by {
            assert(configs[i] == rows[i].0);
        }
    }
    assert((forall|i: int| 0 <= i < rows.len() ==> !#[trigger] p4(i)) <==> (forall|k: int| 0 <= k < rows.len() ==> semiring::weight_number((#[trigger] rows[k]).1@) is Ok)) by {
        assert forall|k: int| 0 <= k < rows.len() && (forall|i: int| 0 <= i < rows.len() ==> !#[trigger] p4(i)) implies semiring::weight_number((#[trigger] rows[k]).1@) is Ok by {
            assert(!p4(k));
        }
        assert forall|i: int| 0 <= i < rows.len() && (forall|k: int| 0 <= k < rows.len() ==> semiring::weight_number((#[trigger] rows[k]).1@) is Ok) implies !#[trigger] p4(i) by {
            assert(semiring::weight_number(rows[i].1@) is Ok);
        }
    }
}

/// What is said of a constraint that is refused: the first thing that is wrong with it, in this order.
pub proof fn law_refused_constraints(t: InstanceTensor, i: usize, n: int)
    ensures
        t.vars@.len() == 0 ==> instance::tensor_fault(t, i, n) == Some(InstanceFault::EmptyScope(i)),
        t.vars@.len() > 63 ==> instance::tensor_fault(t, i, n) == Some(InstanceFault::ArityTooLarge(i, t.vars@.len() as usize)),
        1 <= t.vars@.len() <= 63 && !network::distinct(t.vars@) ==> instance::tensor_fault(t, i, n) == Some(InstanceFault::DuplicateVar(i)),
        1 <= t.vars@.len() <= 63 && network::distinct(t.vars@) && instance::first_over(t.vars@, n, t.vars@.len() as int) is Some ==> instance::tensor_fault(t, i, n) == Some(InstanceFault::VarOutOfRange(i, instance::first_over(t.vars@, n, t.vars@.len() as int)->0)),
        1 <= t.vars@.len() <= 63 && network::distinct(t.vars@) && instance::first_over(t.vars@, n, t.vars@.len() as int) is None && t.allow@.len() > 0 && t.rows@.len() > 0 ==> instance::tensor_fault(t, i, n) == Some(InstanceFault::AllowAndRows(i)),
{
}

/// The first constraint that lists a configuration twice, among the weighted ones where it has these and
/// among the allowed ones otherwise.
pub proof fn law_first_repeated_configuration(ts: Seq<InstanceTensor>)
    ensures
        sizes::finds_first(instance::first_repeat(ts, ts.len() as int), ts.len() as int, |i: int| repeats(ts[i]), |i: int| i as usize),
{
    lists::law_first_constraint_with_a_repeat(ts);
    let p = |i: int| !instance::listed_configs(ts[i]).no_duplicates();
    let q = |i: int| repeats(ts[i]);
    let g = |i: int| i as usize;
    let n = ts.len() as int;
    assert forall|i: int| 0 <= i < n implies #[trigger] p(i) == q(i) by {
        let t = ts[i];
        let s = instance::listed_configs(t);
        if repeats(t) {
            if t.rows@.len() > 0 {
                let (j, k) = choose|j: int, k: int| 0 <= j < k < t.rows@.len() && (#[trigger] t.rows@[j]).0 == (#[trigger] t.rows@[k]).0;
                assert(s[j] == s[k]);
            } else {
                let (j, k) = choose|j: int, k: int| 0 <= j < k < t.allow@.len() && #[trigger] t.allow@[j] == #[trigger] t.allow@[k];
                assert(s[j] == s[k]);
            }
        }
        if p(i) {
            let (j, k) = choose|j: int, k: int| 0 <= j < s.len() && 0 <= k < s.len() && j != k && s[j] == s[k];
            let (x, y) = if j < k {
                (j, k)
            } else {
                (k, j)
            };
            if t.rows@.len() > 0 {
                assert(t.rows@[x].0 == s[x] && t.rows@[y].0 == s[y]);
            } else {
                assert(t.allow@[x] == t.allow@[y]);
            }
        }
    }
    let r = instance::first_repeat(ts, n);
    if r is Some {
        let i = choose|i: int| #[trigger] sizes::stands_first(i, n, p) && r->0 == g(i);
        assert(p(i) == q(i));
        assert forall|j: int| 0 <= j < i implies !#[trigger] q(j) by {
            assert(!p(j));
        }
        assert(sizes::stands_first(i, n, q));
    } else {
        assert forall|i: int| 0 <= i < n implies !#[trigger] q(i) by {
            assert(!p(i));
        }
    }
}

/// The constraint lists a configuration twice.
pub open spec fn repeats(t: InstanceTensor) -> bool {
    if t.rows@.len() > 0 {
        exists|j: int, k: int| 0 <= j < k < t.rows@.len() && (#[trigger] t.rows@[j]).0 == (#[trigger] t.rows@[k]).0
    } else {
        exists|j: int, k: int| 0 <= j < k < t.allow@.len() && #[trigger] t.allow@[j] == #[trigger] t.allow@[k]
    }
}

/// The entry at `i` is of no declared variable, of one that has an entry already, or gives no number.
pub open spec fn bad_weight(ws: Seq<(usize, String, String)>, n: int, i: int) -> bool {
    ||| ws[i].0 >= n
    ||| exists|j: int| 0 <= j < i && (#[trigger] ws[j]).0 == ws[i].0
    ||| semiring::weight_number(ws[i].1@) is Err
    ||| semiring::weight_number(ws[i].2@) is Err
}

/// What is said of a bad entry.
pub open spec fn weight_blame(ws: Seq<(usize, String, String)>, n: int, i: int) -> InstanceFault {
    if ws[i].0 >= n {
        InstanceFault::WeightVarOutOfRange(ws[i].0)
    } else if exists|j: int| 0 <= j < i && (#[trigger] ws[j]).0 == ws[i].0 {
        InstanceFault::WeightVarDuplicate(ws[i].0)
    } else {
        InstanceFault::BadVarWeight(ws[i].0, if semiring::weight_number(ws[i].1@) is Err {
            semiring::weight_number(ws[i].1@)->Err_0
        } else {
            semiring::weight_number(ws[i].2@)->Err_0
        })
    }
}

proof fn lemma_weights(ws: Seq<(usize, String, String)>, n: int, k: int)
    requires
        0 <= k,
    ensures
        sizes::finds_first(instance::weights_fault(ws, n, k), k, |i: int| bad_weight(ws, n, i), |i: int| weight_blame(ws, n, i)),
    decreases k,
{
    let p = |i: int| bad_weight(ws, n, i);
    let g = |i: int| weight_blame(ws, n, i);
    if k > 0 {
        lemma_weights(ws, n, k - 1);
        sizes::lemma_next_found(instance::weights_fault(ws, n, k - 1), k - 1, p, g, instance::weights_fault(ws, n, k));
    }
}

/// What is wrong with the weights of variables is what is wrong with the first bad entry.
pub proof fn law_first_bad_weight(ws: Seq<(usize, String, String)>, n: int)
    ensures
        sizes::finds_first(instance::weights_fault(ws, n, ws.len() as int), ws.len() as int, |i: int| bad_weight(ws, n, i), |i: int| weight_blame(ws, n, i)),
{
    lemma_weights(ws, n, ws.len() as int);
}

/// A problem is accepted exactly where it has the tag of the format and neither a constraint nor a
/// weight is at fault.
pub proof fn law_accepted_problems(inst: Instance)
    ensures
        inst.fault() is None <==> {
            &&& inst.format@ == "wcn-1"@
            &&& forall|t: int| 0 <= t < inst.tensors@.len() ==> instance::tensor_fault(#[trigger] inst.tensors@[t], t as usize, inst.n_vars as int) is None
            &&& forall|i: int| 0 <= i < inst.var_weights@.len() ==> !#[trigger] bad_weight(inst.var_weights@, inst.n_vars as int, i)
        },
{
    let ts = inst.tensors@;
    let ws = inst.var_weights@;
    let n = inst.n_vars as int;
    lists::law_first_faulty_constraint(ts, n);
    law_first_bad_weight(ws, n);
    let p = |i: int| instance::tensor_fault(ts[i], i as usize, n) is Some;
    let g = |i: int| instance::tensor_fault(ts[i], i as usize, n)->0;
    lemma_found(instance::tensors_fault(ts, n, ts.len() as int), ts.len() as int, p, g);
    let q = |i: int| bad_weight(ws, n, i);
    let h = |i: int| weight_blame(ws, n, i);
    lemma_found(instance::weights_fault(ws, n, ws.len() as int), ws.len() as int, q, h);
    assert((forall|i: int| 0 <= i < ts.len() ==> !#[trigger] p(i)) <==> (forall|t: int| 0 <= t < ts.len() ==> instance::tensor_fault(#[trigger] ts[t], t as usize, n) is None)) by {
        assert forall|t: int| 0 <= t < ts.len() && (forall|i: int| 0 <= i < ts.len() ==> !#[trigger] p(i)) implies instance::tensor_fault(#[trigger] ts[t], t as usize, n) is None by {
            assert(!p(t));
        }
        assert forall|i: int| 0 <= i < ts.len() && (forall|t: int| 0 <= t < ts.len() ==> instance::tensor_fault(#[trigger] ts[t], t as usize, n) is None) implies !#[trigger] p(i) by {
            assert(instance::tensor_fault(ts[i], i as usize, n) is None);
        }
    }
    assert((forall|i: int| 0 <= i < ws.len() ==> !#[trigger] q(i)) <==> (forall|i: int| 0 <= i < ws.len() ==> !#[trigger] bad_weight(ws, n, i))) by {
        assert forall|i: int| 0 <= i < ws.len() && (forall|j: int| 0 <= j < ws.len() ==> !#[trigger] q(j)) implies !#[trigger] bad_weight(ws, n, i) by {
            assert(!q(i));
        }
    }
}

/// The word is a number over that many bits.
pub open spec fn config_word(w: Seq<char>, arity: int) -> bool {
    text::unsigned(w) is Some && text::unsigned(w)->0 <= u64::MAX && bits::below(text::unsigned(w)->0 as u64, arity)
}

proof fn lemma_configs(line: int, arity: int, ws: Seq<Seq<char>>, k: int)
    requires
        0 <= k,
    ensures
        sizes::finds_first(csp::config_fault(line, arity, ws, k), k, |i: int| !config_word(ws[i], arity), |i: int| if text::unsigned(ws[i]) is None || text::unsigned(ws[i])->0 > u64::MAX {
            CspFault::Token(line, "configuration"@, ws[i])
        } else {
            CspFault::Config(line, text::unsigned(ws[i])->0, arity)
        }),
    decreases k,
{
    let p = |i: int| !config_word(ws[i], arity);
    let g = |i: int| if text::unsigned(ws[i]) is None || text::unsigned(ws[i])->0 > u64::MAX {
        CspFault::Token(line, "configuration"@, ws[i])
    } else {
        CspFault::Config(line, text::unsigned(ws[i])->0, arity)
    };
    if k > 0 {
        lemma_configs(line, arity, ws, k - 1);
        sizes::lemma_next_found(csp::config_fault(line, arity, ws, k - 1), k - 1, p, g, csp::config_fault(line, arity, ws, k));
    }
}

/// The first word behind the colon that is no configuration of the variables before it.
pub proof fn law_first_word_that_is_no_configuration(line: int, arity: int, ws: Seq<Seq<char>>)
    ensures
        sizes::finds_first(csp::config_fault(line, arity, ws, ws.len() as int), ws.len() as int, |i: int| !config_word(ws[i], arity), |i: int| if text::unsigned(ws[i]) is None || text::unsigned(ws[i])->0 > u64::MAX {
            CspFault::Token(line, "configuration"@, ws[i])
        } else {
            CspFault::Config(line, text::unsigned(ws[i])->0, arity)
        }),
{
    lemma_configs(line, arity, ws, ws.len() as int);
}

/// A relation is accepted exactly where it has a colon, before it from one up to thirty-two declared
/// variables, none twice, and behind it configurations of these.
pub proof fn law_accepted_relations(line: int, nvars: int, scope: Seq<char>, rest: Seq<char>)
    requires
        forall|k: int| 0 <= k < scope.len() ==> (#[trigger] scope[k]) != ':',
        nvars <= usize::MAX,
    ensures
        csp::constraint_fault(line, nvars, scope) == Some(CspFault::NoColon(line)),
        csp::constraint_fault(line, nvars, scope + seq![':'] + rest) is None <==> {
            let ws = text::words(scope);
            let cs = text::words(rest);
            &&& 1 <= ws.len() <= 32
            &&& forall|i: int| 0 <= i < ws.len() ==> text::unsigned(#[trigger] ws[i]) is Some && text::unsigned(ws[i])->0 < nvars
            &&& forall|i: int, j: int| 0 <= i < j < ws.len() ==> text::unsigned(#[trigger] ws[i])->0 != text::unsigned(#[trigger] ws[j])->0
            &&& forall|i: int| 0 <= i < cs.len() ==> config_word(#[trigger] cs[i], ws.len() as int)
        },
{
    let s = scope + seq![':'] + rest;
    text::lemma_first_at(scope, ':', scope.len() as int);
    assert forall|k: int| 0 <= k < scope.len() implies (#[trigger] s[k]) != ':' by {
        assert(s[k] == scope[k]);
    }
    assert(s[scope.len() as int] == ':');
    text::lemma_first_at(s, ':', scope.len() as int);
    assert(s.take(scope.len() as int) =~= scope);
    assert(s.skip(scope.len() as int + 1) =~= rest);
    let ws = text::words(scope);
    let cs = text::words(rest);
    let n = ws.len() as int;
    let ids = csp::ids_of(ws);
    lists::law_first_word_that_is_no_number(line, ws);
    lists::law_first_fault_of_a_scope(line, nvars, ids);
    law_first_word_that_is_no_configuration(line, n, cs);
    let p1 = |i: int| text::unsigned(ws[i]) is None || text::unsigned(ws[i])->0 > usize::MAX;
    let g1 = |i: int| CspFault::Token(line, "variable"@, ws[i]);
    lemma_found(csp::word_fault(line, ws, n), n, p1, g1);
    let p2 = |i: int| ids[i] >= nvars || exists|j: int| 0 <= j < i && #[trigger] ids[j] == ids[i];
    let g2 = |i: int| if ids[i] >= nvars {
        CspFault::Range(line, ids[i] as int, nvars)
    } else {
        CspFault::Duplicate(line, ids[i] as int)
    };
    lemma_found(csp::scope_fault(line, nvars, ids, n), n, p2, g2);
    let p3 = |i: int| !config_word(cs[i], n);
    let g3 = |i: int| if text::unsigned(cs[i]) is None || text::unsigned(cs[i])->0 > u64::MAX {
        CspFault::Token(line, "configuration"@, cs[i])
    } else {
        CspFault::Config(line, text::unsigned(cs[i])->0, n)
    };
    lemma_found(csp::config_fault(line, n, cs, cs.len() as int), cs.len() as int, p3, g3);
    lemma_numbers(ws);
    if csp::constraint_fault(line, nvars, s) is None {
        assert forall|i: int| 0 <= i < ws.len() implies text::unsigned(#[trigger] ws[i]) is Some && text::unsigned(ws[i])->0 < nvars by {
            assert(!p1(i));
            assert(!p2(i));
        }
        assert forall|i: int, j: int| 0 <= i < j < ws.len() implies text::unsigned(#[trigger] ws[i])->0 != text::unsigned(#[trigger] ws[j])->0 by {
            assert(!p1(i) && !p1(j));
            assert(!p2(j));
            assert(ids[i] != ids[j]);
        }
        assert forall|i: int| 0 <= i < cs.len() implies config_word(#[trigger] cs[i], ws.len() as int) by {
            assert(!p3(i));
        }
    }
    if {
        &&& 1 <= ws.len() <= 32
        &&& forall|i: int| 0 <= i < ws.len() ==> text::unsigned(#[trigger] ws[i]) is Some && text::unsigned(ws[i])->0 < nvars
        &&& forall|i: int, j: int| 0 <= i < j < ws.len() ==> text::unsigned(#[trigger] ws[i])->0 != text::unsigned(#[trigger] ws[j])->0
        &&& forall|i: int| 0 <= i < cs.len() ==> config_word(#[trigger] cs[i], ws.len() as int)
    } {
        assert forall|i: int| 0 <= i < n implies !#[trigger] p1(i) by {
            assert(text::unsigned(ws[i]) is Some);
        }
        assert forall|i: int| 0 <= i < n implies !#[trigger] p2(i) by {
            assert(text::unsigned(ws[i]) is Some);
            assert forall|j: int| 0 <= j < i implies #[trigger] ids[j] != ids[i] by {
                assert(text::unsigned(ws[j]) is Some);
                assert(text::unsigned(ws[j])->0 != text::unsigned(ws[i])->0);
            }
        }
        assert forall|i: int| 0 <= i < cs.len() implies !#[trigger] p3(i) by {
            assert(config_word(cs[i], n));
        }
    }
}

/// What is read of a relation: the numbers of the words before the colon and of those behind it.
pub proof fn law_numbers_of_relations(scope: Seq<char>, rest: Seq<char>, ws: Seq<Seq<char>>, i: int)
    requires
        forall|k: int| 0 <= k < scope.len() ==> (#[trigger] scope[k]) != ':',
        0 <= i < ws.len(),
        text::unsigned(ws[i]) is Some,
    ensures
        csp::scope_words(scope + seq![':'] + rest) == text::words(scope),
        csp::config_words(scope + seq![':'] + rest) == text::words(rest),
        csp::ids_of(ws).len() == ws.len(),
        csp::configs_of(ws).len() == ws.len(),
        text::unsigned(ws[i])->0 <= usize::MAX ==> csp::ids_of(ws)[i] == text::unsigned(ws[i])->0,
        text::unsigned(ws[i])->0 <= u64::MAX ==> csp::configs_of(ws)[i] == text::unsigned(ws[i])->0,
{
    let s = scope + seq![':'] + rest;
    assert forall|k: int| 0 <= k < scope.len() implies (#[trigger] s[k]) != ':' by {
        assert(s[k] == scope[k]);
    }
    assert(s[scope.len() as int] == ':');
    text::lemma_first_at(s, ':', scope.len() as int);
    assert(s.take(scope.len() as int) =~= scope);
    assert(s.skip(scope.len() as int + 1) =~= rest);
}

/// What is said of a relation whose words are numbers but too many or none.
pub proof fn law_refused_relations(line: int, nvars: int, chars: Seq<char>)
    requires
        text::first_at(chars, ':') < chars.len(),
        csp::word_fault(line, csp::scope_words(chars), csp::scope_words(chars).len() as int) is None,
    ensures
        csp::scope_words(chars).len() == 0 ==> csp::constraint_fault(line, nvars, chars) == Some(CspFault::Empty(line)),
        csp::scope_words(chars).len() > 32 ==> csp::constraint_fault(line, nvars, chars) == Some(CspFault::Arity(line, csp::scope_words(chars).len() as int)),
{
}

/// What is said of a gate that is refused: how many outputs it has where that is not one, how many wires where
/// they are too many, and otherwise the first wire that is no variable.
pub proof fn law_refused_gates(vars: Seq<Seq<char>>, g: Assignment, k: int)
    ensures
        g.outputs@.len() != 1 ==> circuit::gate_fault(vars, g) == Some(circuit::GateFault::BadOutputArity(g.outputs@.len() as int)),
        g.outputs@.len() == 1 && circuit::wires(g).len() > 32 ==> circuit::gate_fault(vars, g) == Some(circuit::GateFault::ArityCap(circuit::wires(g).len() as int)),
        g.outputs@.len() == 1 && circuit::wires(g).len() <= 32 && 0 <= k < circuit::wires(g).len() && !vars.contains(circuit::wires(g)[k]) && (forall|i: int| 0 <= i < k ==> vars.contains(#[trigger] circuit::wires(g)[i])) ==> circuit::gate_fault(vars, g) == Some(circuit::GateFault::UnknownVar(circuit::wires(g)[k])),
{
    let ws = circuit::wires(g);
    if 0 <= k < ws.len() && !vars.contains(ws[k]) && (forall|i: int| 0 <= i < k ==> vars.contains(#[trigger] ws[i])) {
        lemma_first_unknown(vars, ws, k, ws.len() as int);
    }
}

proof fn lemma_first_unknown(vars: Seq<Seq<char>>, ns: Seq<Seq<char>>, k: int, n: int)
    requires
        0 <= k < n <= ns.len(),
        !vars.contains(ns[k]),
        forall|i: int| 0 <= i < k ==> vars.contains(#[trigger] ns[i]),
    ensures
        circuit::first_unknown(vars, ns, n) == Some(circuit::GateFault::UnknownVar(ns[k])),
    decreases n,
{
    if n - 1 > k {
        lemma_first_unknown(vars, ns, k, n - 1);
    } else {
        lemma_unknown(vars, ns, k);
        circuits::law_the_last_variable_of_a_name_counts(vars, ns[k]);
    }
}

/// The numbers of words are not negative.
proof fn lemma_numbers(ws: Seq<Seq<char>>)
    ensures
        forall|i: int| 0 <= i < ws.len() && text::unsigned(#[trigger] ws[i]) is Some ==> text::unsigned(ws[i])->0 >= 0,
{
}

/// A gate is accepted exactly where it has one output, and at most thirty-two wires, all of them
/// variables.
pub proof fn law_accepted_gates(vars: Seq<Seq<char>>, g: Assignment)
    ensures
        circuit::gate_fault(vars, g) is None <==> {
            &&& g.outputs@.len() == 1
            &&& circuit::wires(g).len() <= 32
            &&& vars.contains(g.outputs@[0]@)
            &&& forall|n: Seq<char>| #[trigger] circuits::mentions(g.expr, n) ==> vars.contains(n)
        },
{
    let ws = circuit::wires(g);
    lemma_unknown(vars, ws, ws.len() as int);
    if g.outputs@.len() == 1 {
        circuits::law_wires_of_a_gate(g);
        assert((forall|i: int| 0 <= i < ws.len() ==> vars.contains(#[trigger] ws[i])) <==> (vars.contains(g.outputs@[0]@) && forall|n: Seq<char>| #[trigger] circuits::mentions(g.expr, n) ==> vars.contains(n))) by {
            if forall|i: int| 0 <= i < ws.len() ==> vars.contains(#[trigger] ws[i]) {
                assert(ws[ws.len() - 1] == g.outputs@[0]@);
                assert forall|n: Seq<char>| #[trigger] circuits::mentions(g.expr, n) implies vars.contains(n) by {
                    assert(ws.contains(n));
                    let i = ws.index_of(n);
                    assert(vars.contains(ws[i]));
                }
            }
            if vars.contains(g.outputs@[0]@) && forall|n: Seq<char>| #[trigger] circuits::mentions(g.expr, n) ==> vars.contains(n) {
                assert forall|i: int| 0 <= i < ws.len() implies vars.contains(#[trigger] ws[i]) by {
                    assert(ws.contains(ws[i]));
                }
            }
        }
    }
}

proof fn lemma_unknown(vars: Seq<Seq<char>>, ns: Seq<Seq<char>>, k: int)
    requires
        0 <= k <= ns.len(),
    ensures
        circuit::first_unknown(vars, ns, k) is None <==> (forall|i: int| 0 <= i < k ==> vars.contains(#[trigger] ns[i])),
    decreases k,
{
    if k > 0 {
        lemma_unknown(vars, ns, k - 1);
        let n = ns[k - 1];
        circuits::law_the_last_variable_of_a_name_counts(vars, n);
        if vars.contains(n) {
            let i = vars.index_of(n);
            assert(vars[i] == n);
        }
    }
}

/// The line holds a cube.
pub open spec fn holds_cube(line: Seq<char>) -> bool {
    text::words(line).len() > 0 && text::words(line)[0] != "c"@
}

/// The words between the first and the last.
pub open spec fn inner_words(line: Seq<char>) -> Seq<Seq<char>> {
    text::words(line).subrange(1, text::words(line).len() - 1)
}

proof fn lemma_cubes(ls: Seq<Seq<char>>, k: int)
    requires
        0 <= k <= ls.len(),
    ensures
        match audit::cube_lines(ls, k) {
            Ok(cubes) => {
                &&& sizes::lists_in_order(cubes, k, |i: int| holds_cube(ls[i]), |i: int| audit::literals(inner_words(ls[i])))
                &&& forall|i: int| 0 <= i < k && holds_cube(#[trigger] ls[i]) ==> audit::cube_fault(i + 1, text::words(ls[i])) is None
            },
            Err(f) => exists|i: int| 0 <= i < k && holds_cube(#[trigger] ls[i]) && audit::cube_fault(i + 1, text::words(ls[i])) == Some(f) && forall|j: int| 0 <= j < i && holds_cube(#[trigger] ls[j]) ==> audit::cube_fault(j + 1, text::words(ls[j])) is None,
        },
    decreases k,
{
    let p = |i: int| holds_cube(ls[i]);
    let g = |i: int| audit::literals(inner_words(ls[i]));
    if k > 0 {
        lemma_cubes(ls, k - 1);
        match audit::cube_lines(ls, k - 1) {
            Ok(cubes) => {
                if p(k - 1) {
                    if audit::cube_fault(k, text::words(ls[k - 1])) is None {
                        sizes::lemma_list_push(cubes, k - 1, p, g);
                    } else {
                        assert(holds_cube(ls[k - 1]));
                    }
                } else {
                    sizes::lemma_list_skip(cubes, k - 1, p, g);
                }
            },
            Err(f) => {
                let i = choose|i: int| 0 <= i < k - 1 && holds_cube(#[trigger] ls[i]) && audit::cube_fault(i + 1, text::words(ls[i])) == Some(f) && forall|j: int| 0 <= j < i && holds_cube(#[trigger] ls[j]) ==> audit::cube_fault(j + 1, text::words(ls[j])) is None;
                assert(0 <= i < k && holds_cube(ls[i]));
            },
        }
    } else {
        sizes::lemma_list_empty(p, g);
    }
}

/// The cubes of a text are those of its lines that are neither blank nor a comment, in order. A text is
/// refused for the first such line at fault, or where there is none at all.
pub proof fn law_cubes_of_a_text(input: Seq<char>)
    ensures
        ({
            let ls = text::lines(input);
            match audit::frontier(input) {
                Ok(cubes) => {
                    &&& cubes.len() > 0
                    &&& sizes::lists_in_order(cubes, ls.len() as int, |i: int| holds_cube(ls[i]), |i: int| audit::literals(inner_words(ls[i])))
                    &&& forall|i: int| 0 <= i < ls.len() && holds_cube(#[trigger] ls[i]) ==> audit::cube_fault(i + 1, text::words(ls[i])) is None
                },
                Err(f) => {
                    ||| f == audit::FrontierFault::Empty && forall|i: int| 0 <= i < ls.len() ==> !holds_cube(#[trigger] ls[i])
                    ||| exists|i: int| 0 <= i < ls.len() && holds_cube(#[trigger] ls[i]) && audit::cube_fault(i + 1, text::words(ls[i])) == Some(f) && forall|j: int| 0 <= j < i && holds_cube(#[trigger] ls[j]) ==> audit::cube_fault(j + 1, text::words(ls[j])) is None
                },
            }
        }),
{
    let ls = text::lines(input);
    let n = ls.len() as int;
    lemma_cubes(ls, n);
    match audit::cube_lines(ls, n) {
        Ok(cubes) => {
            if cubes.len() == 0 {
                let p = |i: int| holds_cube(ls[i]);
                assert forall|i: int| 0 <= i < n implies !holds_cube(#[trigger] ls[i]) by {
                    if p(i) {
                        assert(sizes::places(i, p).len() < cubes.len());
                    }
                }
            }
        },
        Err(f) => {},
    }
}

/// A line is a cube exactly where it is an `a`, literals other than zero of different variables, and a zero.
pub proof fn law_accepted_cubes(line: int, ws: Seq<Seq<char>>)
    requires
        ws.len() > 0,
    ensures
        audit::cube_fault(line, ws) is None <==> {
            &&& ws[0] == "a"@
            &&& ws.last() == "0"@
            &&& forall|i: int| 1 <= i < ws.len() - 1 ==> dimacs::literal(#[trigger] ws[i]) is Some && dimacs::literal(ws[i])->0 != 0
            &&& forall|i: int, j: int| 1 <= i < j < ws.len() - 1 ==> dimacs::literal(#[trigger] ws[i])->0 != dimacs::literal(#[trigger] ws[j])->0 && dimacs::literal(ws[i])->0 != -(dimacs::literal(ws[j])->0)
        },
{
    reveal_strlit("a");
    reveal_strlit("0");
    if ws[0] == "a"@ && ws.last() == "0"@ {
        assert("a"@[0] != "0"@[0]);
        assert(ws.len() >= 2);
        let inner = ws.subrange(1, ws.len() - 1);
        let lits = audit::literals(inner);
        lists::law_first_word_that_is_no_literal(inner);
        let p = |i: int| dimacs::literal(inner[i]) is None;
        let g = |i: int| inner[i];
        lemma_found(audit::first_invalid(inner, inner.len() as int), inner.len() as int, p, g);
        if audit::cube_fault(line, ws) is None {
            assert forall|i: int| 1 <= i < ws.len() - 1 implies dimacs::literal(#[trigger] ws[i]) is Some && dimacs::literal(ws[i])->0 != 0 by {
                assert(!p(i - 1));
                assert(inner[i - 1] == ws[i]);
                assert(lits[i - 1] != 0);
            }
            assert forall|i: int, j: int| 1 <= i < j < ws.len() - 1 implies dimacs::literal(#[trigger] ws[i])->0 != dimacs::literal(#[trigger] ws[j])->0 && dimacs::literal(ws[i])->0 != -(dimacs::literal(ws[j])->0) by {
                assert(inner[i - 1] == ws[i] && inner[j - 1] == ws[j]);
                assert(!p(i - 1) && !p(j - 1));
                assert(dimacs::magnitude(lits[i - 1] as int) != dimacs::magnitude(lits[j - 1] as int));
            }
        }
        if {
            &&& forall|i: int| 1 <= i < ws.len() - 1 ==> dimacs::literal(#[trigger] ws[i]) is Some && dimacs::literal(ws[i])->0 != 0
            &&& forall|i: int, j: int| 1 <= i < j < ws.len() - 1 ==> dimacs::literal(#[trigger] ws[i])->0 != dimacs::literal(#[trigger] ws[j])->0 && dimacs::literal(ws[i])->0 != -(dimacs::literal(ws[j])->0)
        } {
            assert forall|i: int| 0 <= i < inner.len() implies !#[trigger] p(i) by {
                assert(inner[i] == ws[i + 1]);
            }
            assert forall|i: int| 0 <= i < lits.len() implies (#[trigger] lits[i]) != 0 by {
                assert(inner[i] == ws[i + 1]);
            }
            assert forall|i: int, j: int| 0 <= i < j < lits.len() implies dimacs::magnitude((#[trigger] lits[i]) as int) != dimacs::magnitude((#[trigger] lits[j]) as int) by {
                assert(inner[i] == ws[i + 1] && inner[j] == ws[j + 1]);
                assert(dimacs::literal(ws[i + 1])->0 != dimacs::literal(ws[j + 1])->0);
            }
            assert(audit::proper(lits));
        }
    }
}

/// What is said of a line that is no cube: that a cube was expected, the first word that is no literal, or that
/// a literal is zero or a variable comes twice.
pub proof fn law_refused_cube_lines(line: int, ws: Seq<Seq<char>>, k: int)
    requires
        ws.len() > 0,
    ensures
        ws[0] != "a"@ || ws.last() != "0"@ ==> audit::cube_fault(line, ws) == Some(audit::FrontierFault::Expected(line)),
        ws[0] == "a"@ && ws.last() == "0"@ && 1 <= k < ws.len() - 1 && dimacs::literal(ws[k]) is None && (forall|i: int| 1 <= i < k ==> dimacs::literal(#[trigger] ws[i]) is Some) ==> audit::cube_fault(line, ws) == Some(audit::FrontierFault::Invalid(line, ws[k])),
        ws[0] == "a"@ && ws.last() == "0"@ && (forall|i: int| 1 <= i < ws.len() - 1 ==> dimacs::literal(#[trigger] ws[i]) is Some) && audit::cube_fault(line, ws) is Some ==> audit::cube_fault(line, ws) == Some(audit::FrontierFault::Repeated(line)),
{
    let inner = ws.subrange(1, ws.len() - 1);
    reveal_strlit("a");
    reveal_strlit("0");
    if ws[0] == "a"@ && ws.last() == "0"@ {
        assert("a"@[0] != "0"@[0]);
        lists::law_first_word_that_is_no_literal(inner);
        let p = |i: int| dimacs::literal(inner[i]) is None;
        let g = |i: int| inner[i];
        let r = audit::first_invalid(inner, inner.len() as int);
        if 1 <= k < ws.len() - 1 && dimacs::literal(ws[k]) is None && (forall|i: int| 1 <= i < k ==> dimacs::literal(#[trigger] ws[i]) is Some) {
            assert(inner[k - 1] == ws[k]);
            assert(p(k - 1));
            let i = choose|i: int| #[trigger] sizes::stands_first(i, inner.len() as int, p) && r->0 == g(i);
            assert(inner[i] == ws[i + 1]);
            if i < k - 1 {
                assert(dimacs::literal(ws[i + 1]) is Some);
            } else if k - 1 < i {
                assert(!p(k - 1));
            }
        }
        if forall|i: int| 1 <= i < ws.len() - 1 ==> dimacs::literal(#[trigger] ws[i]) is Some {
            if r is Some {
                let i = choose|i: int| #[trigger] sizes::stands_first(i, inner.len() as int, p) && r->0 == g(i);
                assert(inner[i] == ws[i + 1]);
                assert(dimacs::literal(ws[i + 1]) is Some);
            }
        }
    }
}

/// The literals of a cube are those of its words.
pub proof fn law_literals_of_cubes(ws: Seq<Seq<char>>, i: int)
    requires
        0 <= i < ws.len(),
        dimacs::literal(ws[i]) is Some,
    ensures
        audit::literals(ws).len() == ws.len(),
        audit::literals(ws)[i] == dimacs::literal(ws[i])->0,
        text::signed(ws[i]) == Some(audit::literals(ws)[i] as int),
{
}

/// The network variable of a literal.
pub open spec fn place_of(cn: ConstraintNetwork, l: i64) -> Option<usize> {
    let o = dimacs::var_of(l);
    if o < cn.orig_to_new@.len() {
        cn.orig_to_new@[o]
    } else {
        None
    }
}

proof fn lemma_conditioned(cn: ConstraintNetwork, d: Seq<DomainMask>, lits: Seq<i64>, k: int)
    requires
        cn.wf(),
        d.len() == cn.n(),
        0 <= k <= lits.len(),
        forall|i: int| 0 <= i < lits.len() ==> (#[trigger] lits[i]) != 0,
        audit::conditioned(cn, d, lits, k) is Ok,
    ensures
        ({
            let s = audit::conditioned(cn, d, lits, k)->Ok_0;
            &&& s.0.len() == d.len()
            &&& forall|i: int| 0 <= i < k ==> place_of(cn, #[trigger] lits[i]) is Some && place_of(cn, lits[i])->0 < d.len() && s.0[place_of(cn, lits[i])->0 as int] == DomainMask::only(lits[i] > 0)
            &&& forall|v: int| 0 <= v < d.len() && (forall|i: int| 0 <= i < k ==> place_of(cn, #[trigger] lits[i]) != Some(v as usize)) ==> #[trigger] s.0[v] == d[v]
            &&& forall|v: int| 0 <= v < d.len() && #[trigger] s.0[v] != d[v] ==> d[v] == DomainMask::BOTH && s.0[v].fixed()
            &&& sizes::places(d.len() as int, |v: int| s.0[v] != d[v]).finite()
            &&& s.1 == sizes::places(d.len() as int, |v: int| s.0[v] != d[v]).len()
        }),
    decreases k,
{
    assert(cn.vars.len() == cn.n());
    if k == 0 {
        let p = |v: int| d[v] != d[v];
        assert(sizes::places(d.len() as int, p) =~= Set::<int>::empty());
    } else {
        assert(audit::conditioned(cn, d, lits, k - 1) is Ok);
        lemma_conditioned(cn, d, lits, k - 1);
        let t = audit::conditioned(cn, d, lits, k - 1)->Ok_0;
        let s = audit::conditioned(cn, d, lits, k)->Ok_0;
        let l = lits[k - 1];
        let o = dimacs::var_of(l);
        assert(o < cn.orig_to_new@.len());
        let c = cn.orig_to_new@[o]->0 as int;
        assert(network::compresses(cn.orig_to_new@, cn.n()));
        let want = DomainMask::only(l > 0);
        let n = d.len() as int;
        let p = |v: int| t.0[v] != d[v];
        let q = |v: int| s.0[v] != d[v];
        assert(l != 0);
        assert(o >= 0);
        assert(c < d.len());
        if t.0[c] == want {
            assert(s == t);
        } else {
            assert(t.0[c] == DomainMask::BOTH);
            assert(d[c] == DomainMask::BOTH);
            assert(s.0 == t.0.update(c, want));
            assert(sizes::places(n, q) =~= sizes::places(n, p).insert(c));
        }
        assert forall|i: int| 0 <= i < k implies place_of(cn, #[trigger] lits[i]) is Some && place_of(cn, lits[i])->0 < d.len() && s.0[place_of(cn, lits[i])->0 as int] == DomainMask::only(lits[i] > 0) by {
            if i < k - 1 {
                let x = place_of(cn, lits[i])->0 as int;
                assert(t.0[x] == DomainMask::only(lits[i] > 0));
            }
        }
        assert forall|v: int| 0 <= v < d.len() && (forall|i: int| 0 <= i < k ==> place_of(cn, #[trigger] lits[i]) != Some(v as usize)) implies #[trigger] s.0[v] == d[v] by {
            assert(place_of(cn, lits[k - 1]) != Some(v as usize));
            assert(forall|i: int| 0 <= i < k - 1 ==> place_of(cn, #[trigger] lits[i]) != Some(v as usize));
            assert(t.0[v] == d[v]);
        }
        assert forall|v: int| 0 <= v < d.len() && #[trigger] s.0[v] != d[v] implies d[v] == DomainMask::BOTH && s.0[v].fixed() by {
            if v != c {
                assert(t.0[v] != d[v]);
            }
        }
    }
}

/// A cube that is put on the network fixes the variables of its literals to their values and no
/// others, and it is counted how many of them it fixed.
pub proof fn law_cubes_are_put_on_the_network(cn: ConstraintNetwork, d: Seq<DomainMask>, lits: Seq<i64>)
    requires
        cn.wf(),
        d.len() == cn.n(),
        forall|i: int| 0 <= i < lits.len() ==> (#[trigger] lits[i]) != 0,
        audit::conditioned(cn, d, lits, lits.len() as int) is Ok,
    ensures
        ({
            let s = audit::conditioned(cn, d, lits, lits.len() as int)->Ok_0;
            &&& s.0.len() == d.len()
            &&& forall|i: int| 0 <= i < lits.len() ==> place_of(cn, #[trigger] lits[i]) is Some && s.0[place_of(cn, lits[i])->0 as int] == DomainMask::only(lits[i] > 0)
            &&& forall|v: int| 0 <= v < d.len() && (forall|i: int| 0 <= i < lits.len() ==> place_of(cn, #[trigger] lits[i]) != Some(v as usize)) ==> #[trigger] s.0[v] == d[v]
            &&& s.1 == Set::new(|v: int| 0 <= v < d.len() && s.0[v] != d[v]).len()
        }),
{
    lemma_conditioned(cn, d, lits, lits.len() as int);
    let s = audit::conditioned(cn, d, lits, lits.len() as int)->Ok_0;
    assert(sizes::places(d.len() as int, |v: int| s.0[v] != d[v]) =~= Set::new(|v: int| 0 <= v < d.len() && s.0[v] != d[v]));
}

/// A cube is refused for a literal that names no variable, one that no constraint names, or one whose
/// variable has the other value, and for nothing else.
pub proof fn law_refused_cubes(cn: ConstraintNetwork, d: Seq<DomainMask>, lits: Seq<i64>, k: int)
    requires
        0 <= k < lits.len(),
        lits[k] != 0,
        audit::conditioned(cn, d, lits, k) is Ok,
    ensures
        audit::conditioned(cn, d, lits, k + 1) is Err <==> {
            let s = audit::conditioned(cn, d, lits, k)->Ok_0;
            ||| place_of(cn, lits[k]) is None
            ||| s.0[place_of(cn, lits[k])->0 as int] != DomainMask::only(lits[k] > 0) && s.0[place_of(cn, lits[k])->0 as int] != DomainMask::BOTH
        },
{
}

} // verus!
