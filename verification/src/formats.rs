//! Counting problems from the other formats: relations, formulas and circuits.

use crate::bits;
use crate::circuit;
use crate::circuit::{network_from_circuit_sat, CircuitError, CircuitProblem, CircuitSatData};
use crate::counting;
use crate::csp;
use crate::csp::{parse_csp, CspError};
use crate::dimacs;
use crate::dimacs::{parse_dimacs, parse_mcc_weights, DimacsError, MAX_CLAUSE_WIDTH};
use crate::domain::Asg;
use crate::instance;
use crate::instance::{Instance, InstanceFault, InstanceTensor, FORMAT_TAG};
use crate::network;
use crate::network::ConstraintNetwork;
use crate::order;
use crate::seqs;
use crate::sums;
use crate::text;
use vstd::prelude::*;

verus! {

/// Why a text cannot be read as a counting problem.
#[derive(Debug)]
pub enum InstanceError {
    /// What was read is no valid problem.
    Fault(InstanceFault),
    Csp(CspError),
    Dimacs(DimacsError),
    Circuit(CircuitError),
    /// A clause with that many variables, more than a table takes.
    ClauseTooLong(usize),
    /// A weight of a literal that is not of a declared variable.
    WeightLiteral(i64),
}

/// The constraint lists the configurations once each, in order.
pub open spec fn lists_configs(t: InstanceTensor, configs: Seq<u64>) -> bool {
    &&& order::ascending64(t.allow@)
    &&& forall|c: u64| #[trigger] t.allow@.contains(c) <==> configs.contains(c)
    &&& t.rows@.len() == 0
}

/// The problem that a text of relations is.
pub open spec fn csp_instance(input: Seq<char>, inst: Instance) -> bool {
    let ls = text::lines(input);
    let data = csp::data_lines(ls, ls.len() as int);
    let ts = csp::body_tensors(true, data, data.len() as int);
    &&& inst.format@ == FORMAT_TAG@
    &&& inst.n_vars == text::unsigned(data[0].1)->0
    &&& inst.tensors@.len() == ts.len()
    &&& forall|t: int| 0 <= t < ts.len() ==> (#[trigger] inst.tensors@[t]).vars@ == ts[t].0 && lists_configs(inst.tensors@[t], ts[t].1)
    &&& csp::weights_view(inst.var_weights@) == csp::body_weights(true, data, data.len() as int)
}

impl Instance {
    /// Read a text of relations, with weights of variables where it has them.
    pub fn from_csp_text(input: &str) -> (r: Result<Instance, InstanceError>)
        ensures
            match (r, csp::csp_fault(true, input@)) {
                (Ok(inst), None) => csp_instance(input@, inst) && inst.fault() is None,
                (Err(InstanceError::Fault(f)), None) => exists|inst: Instance| #[trigger] csp_instance(input@, inst) && inst.fault() == Some(f),
                (Err(InstanceError::Csp(e)), Some(f)) => csp::says(e, f),
                _ => false,
            },
    {
        let doc = match parse_csp(input) {
            Ok(doc) => doc,
            Err(e) => {
                return Err(InstanceError::Csp(e));
            },
        };
        let mut inst = Instance::new(doc.n_vars);
        let ghost dt = csp::tensors_view(doc.tensors@);
        let mut tensors: Vec<InstanceTensor> = Vec::new();
        while tensors.len() < doc.tensors.len()
            invariant
                dt == csp::tensors_view(doc.tensors@),
                tensors@.len() <= doc.tensors@.len(),
                forall|t: int| 0 <= t < tensors@.len() ==> (#[trigger] tensors@[t]).vars@ == dt[t].0 && lists_configs(tensors@[t], dt[t].1),
            decreases doc.tensors.len() - tensors.len(),
        {
            let t: usize = tensors.len();
            let vars = network::copy_ids(&doc.tensors[t].0);
            let configs = doc.tensors[t].1.clone();
            assert(dt[t as int].0 == doc.tensors@[t as int].0@);
            assert(configs@ =~= dt[t as int].1);
            let allow = order::sort_dedup_rows(configs);
            tensors.push(InstanceTensor { vars, allow, rows: Vec::new() });
        }
        inst.tensors = tensors;
        inst.var_weights = doc.weights;
        assert(csp_instance(input@, inst));
        match inst.validate() {
            Ok(_) => Ok(inst),
            Err(f) => Err(InstanceError::Fault(f)),
        }
    }
}

/// The clause has a literal and its negation.
pub open spec fn tautology(lits: Seq<i64>) -> bool {
    exists|i: int, j: int| 0 <= i < lits.len() && 0 <= j < lits.len() && (#[trigger] lits[i]) as int == -((#[trigger] lits[j]) as int)
}

/// The number of variables of a clause.
pub open spec fn width(lits: Seq<i64>) -> nat {
    dimacs::scope_of(lits, lits.len() as int).len()
}

/// The constraint that is the clause: over its variables in order, with all configurations
/// but the one that makes every literal false.
pub open spec fn is_clause_tensor(lits: Seq<i64>, t: InstanceTensor) -> bool {
    &&& network::ascending_ids(t.vars@)
    &&& forall|v: usize| #[trigger] t.vars@.contains(v) <==> dimacs::var_among(lits, lits.len() as int, v)
    &&& order::ascending64(t.allow@)
    &&& forall|k: int| 0 <= k < t.allow@.len() ==> bits::below(#[trigger] t.allow@[k], t.vars@.len() as int)
    &&& t.rows@.len() == 0
    &&& forall|a: Asg| #[trigger] instance::allows(t, a) <==> dimacs::clause_holds(lits, a)
}

/// Those of the first `k` clauses that constrain something.
pub open spec fn kept_clauses(clauses: Seq<Seq<i64>>, k: int) -> Seq<Seq<i64>>
    decreases k,
{
    if k <= 0 {
        Seq::empty()
    } else if tautology(clauses[k - 1]) {
        kept_clauses(clauses, k - 1)
    } else {
        kept_clauses(clauses, k - 1).push(clauses[k - 1])
    }
}

/// The width of the first of the first `k` clauses that constrains something and has too many
/// variables for a table.
pub open spec fn first_long(clauses: Seq<Seq<i64>>, k: int) -> Option<nat>
    decreases k,
{
    if k <= 0 {
        None
    } else if first_long(clauses, k - 1) is Some {
        first_long(clauses, k - 1)
    } else if !tautology(clauses[k - 1]) && width(clauses[k - 1]) > MAX_CLAUSE_WIDTH {
        Some(width(clauses[k - 1]))
    } else {
        None
    }
}

/// The first of the first `k` weights whose literal is not of a declared variable.
pub open spec fn first_stray(ws: Seq<(i64, Seq<char>)>, n: int, k: int) -> Option<i64>
    decreases k,
{
    if k <= 0 {
        None
    } else if first_stray(ws, n, k - 1) is Some {
        first_stray(ws, n, k - 1)
    } else if ws[k - 1].0 == 0 || dimacs::var_of(ws[k - 1].0) >= n {
        Some(ws[k - 1].0)
    } else {
        None
    }
}

/// The place of the variable's entry, or the number of entries.
pub open spec fn entry_at(es: Seq<(usize, Seq<char>, Seq<char>)>, v: int) -> int
    decreases es.len(),
{
    if es.len() == 0 {
        0
    } else if entry_at(es.drop_last(), v) < es.len() - 1 {
        entry_at(es.drop_last(), v)
    } else if es.last().0 == v {
        es.len() - 1
    } else {
        es.len() as int
    }
}

/// Set the weight of a literal: its variable gets an entry of ones where it has none.
pub open spec fn with_weight(es: Seq<(usize, Seq<char>, Seq<char>)>, lit: i64, w: Seq<char>) -> Seq<(usize, Seq<char>, Seq<char>)> {
    let v = dimacs::var_of(lit);
    let i = entry_at(es, v);
    let all = if i < es.len() {
        es
    } else {
        es.push((v as usize, "1"@, "1"@))
    };
    if lit > 0 {
        all.update(i, (all[i].0, all[i].1, w))
    } else {
        all.update(i, (all[i].0, w, all[i].2))
    }
}

/// The entries after the first `k` weights.
pub open spec fn folded(ws: Seq<(i64, Seq<char>)>, k: int) -> Seq<(usize, Seq<char>, Seq<char>)>
    decreases k,
{
    if k <= 0 {
        Seq::empty()
    } else {
        with_weight(folded(ws, k - 1), ws[k - 1].0, ws[k - 1].1)
    }
}

/// The problem that a formula with weights of literals is.
pub open spec fn formula_instance(nvars: int, clauses: Seq<Seq<i64>>, ws: Seq<(i64, Seq<char>)>, inst: Instance) -> bool {
    let kept = kept_clauses(clauses, clauses.len() as int);
    &&& inst.format@ == FORMAT_TAG@
    &&& inst.n_vars == nvars
    &&& inst.tensors@.len() == kept.len()
    &&& forall|t: int| 0 <= t < kept.len() ==> is_clause_tensor(kept[t], #[trigger] inst.tensors@[t])
    &&& csp::weights_view(inst.var_weights@) == folded(ws, ws.len() as int)
}

/// Every literal names a variable that has an id on this machine.
pub open spec fn literals_fit(clauses: Seq<Seq<i64>>) -> bool {
    forall|t: int, i: int| 0 <= t < clauses.len() && 0 <= i < clauses[t].len() ==> dimacs::magnitude((#[trigger] clauses[t][i]) as int) <= usize::MAX
}

/// The literals in the order of their variables, each once.
spec fn in_order(s: Seq<i64>) -> bool {
    forall|i: int, j: int| 0 <= i < j < s.len() ==> dimacs::var_of(#[trigger] s[i]) < dimacs::var_of(#[trigger] s[j])
}

/// The literals of a clause in the order of their variables, or None for a tautology.
fn sorted_literals(lits: &Vec<i64>) -> (r: Option<Vec<i64>>)
    requires
        dimacs::literals_wf(lits@),
    ensures
        match r {
            Some(s) => {
                &&& !tautology(lits@)
                &&& in_order(s@)
                &&& forall|l: i64| #[trigger] s@.contains(l) <==> lits@.contains(l)
            },
            None => tautology(lits@),
        },
{
    let mut out: Vec<i64> = Vec::new();
    let mut i: usize = 0;
    while i < lits.len()
        invariant
            dimacs::literals_wf(lits@),
            i <= lits@.len(),
            in_order(out@),
            forall|l: i64| #[trigger] out@.contains(l) <==> lits@.take(i as int).contains(l),
        decreases lits.len() - i,
    {
        let l: i64 = lits[i];
        let v: usize = dimacs::literal_var(l);
        let ghost o0 = out@;
        proof {
            seqs::lemma_take_next(lits@, i as int);
            assert forall|k: int| 0 <= k < o0.len() implies lits@.contains(#[trigger] o0[k]) && o0[k] != 0 && dimacs::magnitude(o0[k] as int) <= usize::MAX by {
                assert(o0.contains(o0[k]));
                let q = lits@.take(i as int).index_of(o0[k]);
                assert(lits@[q] == o0[k]);
            }
        }
        let mut at: usize = 0;
        while at < out.len() && dimacs::literal_var(out[at]) < v
            invariant
                out@ == o0,
                v == dimacs::var_of(l),
                at <= out@.len(),
                forall|k: int| 0 <= k < o0.len() ==> lits@.contains(#[trigger] o0[k]) && o0[k] != 0 && dimacs::magnitude(o0[k] as int) <= usize::MAX,
                forall|k: int| 0 <= k < at ==> dimacs::var_of(#[trigger] o0[k]) < v,
            decreases out.len() - at,
        {
            at += 1;
        }
        if at < out.len() && dimacs::literal_var(out[at]) == v {
            if out[at] != l {
                proof {
                    let q = lits@.index_of(o0[at as int]);
                    assert(lits@[q] as int == -(lits@[i as int] as int));
                }
                return None;
            }
            proof {
                assert(out@[at as int] == l);
                assert(out@.contains(l));
            }
        } else {
            out.insert(at, l);
            proof {
                let o1 = out@;
                assert(o1 == o0.insert(at as int, l));
                assert(in_order(o1)) by {
                    assert forall|x: int, y: int| 0 <= x < y < o1.len() implies dimacs::var_of(#[trigger] o1[x]) < dimacs::var_of(#[trigger] o1[y]) by {
                        let x0 = if x < at { x } else { x - 1 };
                        let y0 = if y < at { y } else { y - 1 };
                        if at < o0.len() {
                            assert(dimacs::var_of(o0[at as int]) > v);
                        }
                        if x != at {
                            assert(o1[x] == o0[x0]);
                        }
                        if y != at {
                            assert(o1[y] == o0[y0]);
                        }
                        if x == at && y0 > at {
                            assert(dimacs::var_of(o0[at as int]) < dimacs::var_of(o0[y0]));
                        }
                    }
                }
                assert forall|z: i64| #[trigger] o1.contains(z) <==> lits@.take(i + 1).contains(z) by {
                    if o1.contains(z) {
                        let k = o1.index_of(z);
                        if k < at {
                            assert(o0[k] == z);
                        } else if k > at {
                            assert(o0[k - 1] == z);
                        }
                    }
                    if o0.contains(z) {
                        let k = o0.index_of(z);
                        if k < at {
                            assert(o1[k] == z);
                        } else {
                            assert(o1[k + 1] == z);
                        }
                    }
                    assert(o1[at as int] == l);
                }
            }
        }
        i += 1;
    }
    proof {
        seqs::lemma_take_all(lits@);
        if tautology(lits@) {
            let (p, q) = choose|p: int, q: int| 0 <= p < lits@.len() && 0 <= q < lits@.len() && (#[trigger] lits@[p]) as int == -((#[trigger] lits@[q]) as int);
            assert(out@.contains(lits@[p]) && out@.contains(lits@[q]));
            let x = out@.index_of(lits@[p]);
            let y = out@.index_of(lits@[q]);
            assert(dimacs::var_of(out@[x]) == dimacs::var_of(out@[y]));
            assert(lits@[p] != 0);
            assert(x != y);
        }
    }
    Some(out)
}

proof fn lemma_width(lits: Seq<i64>, kept: Seq<i64>, vars: Seq<usize>)
    requires
        dimacs::literals_wf(lits),
        in_order(kept),
        forall|l: i64| #[trigger] kept.contains(l) <==> lits.contains(l),
        vars.len() == kept.len(),
        forall|i: int| 0 <= i < kept.len() ==> (#[trigger] vars[i]) == dimacs::var_of(kept[i]),
    ensures
        network::ascending_ids(vars),
        forall|v: usize| #[trigger] vars.contains(v) <==> dimacs::var_among(lits, lits.len() as int, v),
        vars.len() == width(lits),
{
    let scope = dimacs::scope_of(lits, lits.len() as int);
    dimacs::lemma_scope(lits, lits.len() as int);
    assert forall|v: usize| #[trigger] vars.contains(v) <==> dimacs::var_among(lits, lits.len() as int, v) by {
        if vars.contains(v) {
            let i = vars.index_of(v);
            assert(kept.contains(kept[i]));
            let q = lits.index_of(kept[i]);
            assert(dimacs::var_of(lits[q]) == v);
        }
        if dimacs::var_among(lits, lits.len() as int, v) {
            let q = choose|q: int| 0 <= q < lits.len() && dimacs::var_of(#[trigger] lits[q]) == v;
            assert(lits.contains(lits[q]));
            assert(kept.contains(lits[q]));
            let i = kept.index_of(lits[q]);
            assert(vars[i] == v);
        }
    }
    assert(network::ascending_ids(vars)) by {
        assert forall|i: int, j: int| 0 <= i < j < vars.len() implies vars[i] < vars[j] by {
            assert(dimacs::var_of(kept[i]) < dimacs::var_of(kept[j]));
        }
    }
    assert(vars.no_duplicates());
    assert(scope.no_duplicates());
    vars.unique_seq_to_set();
    scope.unique_seq_to_set();
    assert(vars.to_set() =~= scope.to_set()) by {
        assert forall|v: usize| vars.to_set().contains(v) <==> scope.to_set().contains(v) by {
            if scope.contains(v) {
                let k = scope.index_of(v);
                assert(dimacs::var_among(lits, lits.len() as int, scope[k]));
                assert(vars.contains(v));
            }
            if vars.contains(v) {
                let q = choose|q: int| 0 <= q < lits.len() && dimacs::var_of(#[trigger] lits[q]) == v;
                assert(scope.contains(dimacs::var_of(lits[q]) as usize));
            }
        }
    }
}

/// The constraint of a clause, given its literals in the order of their variables.
fn clause_tensor(Ghost(lits): Ghost<Seq<i64>>, kept: &Vec<i64>) -> (t: InstanceTensor)
    requires
        dimacs::literals_wf(lits),
        in_order(kept@),
        forall|l: i64| #[trigger] kept@.contains(l) <==> lits.contains(l),
        kept@.len() <= MAX_CLAUSE_WIDTH,
    ensures
        is_clause_tensor(lits, t),
{
    let w: usize = kept.len();
    let mut vars: Vec<usize> = Vec::new();
    let mut forbidden: u64 = 0;
    proof {
        broadcast use bits::group_bits;
        assert forall|j: int| 0 <= j < 64 implies !#[trigger] bits::bit(0u64, j) by {}
        assert forall|k: int| 0 <= k < kept@.len() implies lits.contains(#[trigger] kept@[k]) && kept@[k] != 0 && dimacs::magnitude(kept@[k] as int) <= usize::MAX by {
            assert(kept@.contains(kept@[k]));
            let q = lits.index_of(kept@[k]);
            assert(lits[q] == kept@[k]);
        }
    }
    while vars.len() < w
        invariant
            w == kept@.len(),
            w <= MAX_CLAUSE_WIDTH,
            forall|k: int| 0 <= k < kept@.len() ==> lits.contains(#[trigger] kept@[k]) && kept@[k] != 0 && dimacs::magnitude(kept@[k] as int) <= usize::MAX,
            vars@.len() <= w,
            forall|i: int| 0 <= i < vars@.len() ==> (#[trigger] vars@[i]) == dimacs::var_of(kept@[i]),
            forall|j: int| 0 <= j < 64 ==> #[trigger] bits::bit(forbidden, j) == (j < vars@.len() && kept@[j] < 0),
        decreases w - vars.len(),
    {
        let i: usize = vars.len();
        if kept[i] < 0 {
            forbidden = bits::with_bit(forbidden, i);
        }
        vars.push(dimacs::literal_var(kept[i]));
    }
    proof {
        assert((1u64 << (w as u64)) <= 0x10_0000u64) by (bit_vector)
            requires
                w <= 20,
        ;
    }
    let size: u64 = 1u64 << (w as u64);
    let mut allow: Vec<u64> = Vec::new();
    let mut c: u64 = 0;
    while c < size
        invariant
            c <= size,
            order::ascending64(allow@),
            forall|x: u64| #[trigger] allow@.contains(x) <==> (x < c && x != forbidden),
        decreases size - c,
    {
        if c != forbidden {
            let ghost a0 = allow@;
            proof {
                seqs::lemma_push_contains(a0, c);
                assert forall|i: int| 0 <= i < a0.len() implies #[trigger] a0[i] < c by {
                    assert(a0.contains(a0[i]));
                }
            }
            allow.push(c);
        }
        c += 1;
    }
    let t = InstanceTensor { vars, allow, rows: Vec::new() };
    proof {
        lemma_width(lits, kept@, vars@);
        assert forall|k: int| 0 <= k < allow@.len() implies bits::below(#[trigger] allow@[k], w as int) by {
            assert(allow@.contains(allow@[k]));
            bits::lemma_below_iff(allow@[k], w as u64);
        }
        assert forall|a: Asg| #[trigger] instance::allows(t, a) <==> dimacs::clause_holds(lits, a) by {
            if instance::allows(t, a) {
                let k = choose|k: int| 0 <= k < allow@.len() && network::agrees(vars@, #[trigger] allow@[k], a);
                let x = allow@[k];
                assert(allow@.contains(x));
                if !dimacs::clause_holds(lits, a) {
                    assert forall|j: int| 0 <= j < 64 implies #[trigger] bits::bit(x, j) == bits::bit(forbidden, j) by {
                        if j < w {
                            let q = lits.index_of(kept@[j]);
                            assert(lits[q] == kept@[j]);
                            assert(a(dimacs::var_of(lits[q])) != (lits[q] > 0));
                            assert(bits::bit(x, j) == a(vars@[j] as int));
                        } else {
                            assert(bits::below(x, w as int));
                        }
                    }
                    bits::lemma_bits_equal(x, forbidden);
                    assert(false);
                }
            }
            if dimacs::clause_holds(lits, a) {
                let q = choose|q: int| 0 <= q < lits.len() && a(dimacs::var_of(#[trigger] lits[q])) == (lits[q] > 0);
                assert(lits.contains(lits[q]));
                assert(kept@.contains(lits[q]));
                let i = kept@.index_of(lits[q]);
                let x = counting::lemma_config(vars@, a, w as int);
                bits::lemma_below_iff(x, w as u64);
                assert(bits::bit(x, i) == a(vars@[i] as int));
                assert(bits::bit(forbidden, i) == (kept@[i] < 0));
                assert(x != forbidden);
                assert(allow@.contains(x));
                let k = allow@.index_of(x);
                assert forall|j: int| 0 <= j < vars@.len() implies bits::bit(x, j) == a((#[trigger] vars@[j]) as int) by {}
                assert(network::agrees(t.vars@, t.allow@[k], a));
                assert(instance::allows(t, a));
            }
        }
    }
    t
}

proof fn lemma_entry_at(es: Seq<(usize, Seq<char>, Seq<char>)>, v: int)
    ensures
        0 <= entry_at(es, v) <= es.len(),
        forall|j: int| 0 <= j < entry_at(es, v) ==> (#[trigger] es[j]).0 != v,
        entry_at(es, v) < es.len() ==> es[entry_at(es, v)].0 == v,
    decreases es.len(),
{
    if es.len() > 0 {
        lemma_entry_at(es.drop_last(), v);
        assert forall|j: int| 0 <= j < entry_at(es, v) implies (#[trigger] es[j]).0 != v by {
            if j < es.len() - 1 {
                assert(es.drop_last()[j] == es[j]);
            }
        }
    }
}

/// Set the weight of a literal.
fn set_weight(es: &mut Vec<(usize, String, String)>, lit: i64, w: &str)
    requires
        lit != 0,
        dimacs::magnitude(lit as int) <= usize::MAX,
    ensures
        csp::weights_view(final(es)@) == with_weight(csp::weights_view(old(es)@), lit, w@),
{
    let ghost e0 = csp::weights_view(es@);
    let v: usize = dimacs::literal_var(lit);
    let mut at: usize = 0;
    proof {
        lemma_entry_at(e0, v as int);
    }
    while at < es.len() && es[at].0 != v
        invariant
            e0 == csp::weights_view(es@),
            at <= es@.len(),
            forall|j: int| 0 <= j < at ==> (#[trigger] e0[j]).0 != v,
        decreases es.len() - at,
    {
        assert(e0[at as int].0 == es@[at as int].0);
        at += 1;
    }
    proof {
        if at < es@.len() {
            assert(e0[at as int].0 == v);
        }
        assert(entry_at(e0, v as int) == at);
    }
    if at == es.len() {
        es.push((v, text::copy_text("1"), text::copy_text("1")));
        assert(csp::weights_view(es@) =~= e0.push((v, "1"@, "1"@)));
    }
    let ghost e1 = csp::weights_view(es@);
    assert(e1[at as int] == (es@[at as int].0, es@[at as int].1@, es@[at as int].2@));
    let entry = if lit > 0 {
        (es[at].0, text::copy_text(es[at].1.as_str()), text::copy_text(w))
    } else {
        (es[at].0, text::copy_text(w), text::copy_text(es[at].2.as_str()))
    };
    es.set(at, entry);
    assert(csp::weights_view(es@) =~= e1.update(at as int, (entry.0, entry.1@, entry.2@)));
}

proof fn lemma_long_stays(clauses: Seq<Seq<i64>>, k: int, n: int)
    requires
        0 <= k <= n,
        first_long(clauses, k) is Some,
    ensures
        first_long(clauses, n) == first_long(clauses, k),
    decreases n,
{
    if k < n {
        lemma_long_stays(clauses, k, n - 1);
    }
}

proof fn lemma_stray_stays(ws: Seq<(i64, Seq<char>)>, m: int, k: int, n: int)
    requires
        0 <= k <= n,
        first_stray(ws, m, k) is Some,
    ensures
        first_stray(ws, m, n) == first_stray(ws, m, k),
    decreases n,
{
    if k < n {
        lemma_stray_stays(ws, m, k, n - 1);
    }
}

/// The constraints of the clauses, or the width of the first that is too wide.
fn clause_tensors(clauses: &Vec<Vec<i64>>) -> (r: Result<Vec<InstanceTensor>, usize>)
    requires
        literals_fit(dimacs::clauses_view(clauses@)),
        forall|t: int, i: int| 0 <= t < clauses@.len() && 0 <= i < clauses@[t]@.len() ==> (#[trigger] clauses@[t]@[i]) != 0,
    ensures
        ({
            let cv = dimacs::clauses_view(clauses@);
            let kept = kept_clauses(cv, cv.len() as int);
            match r {
                Ok(ts) => {
                    &&& first_long(cv, cv.len() as int) is None
                    &&& ts@.len() == kept.len()
                    &&& forall|t: int| 0 <= t < kept.len() ==> is_clause_tensor(kept[t], #[trigger] ts@[t])
                },
                Err(w) => first_long(cv, cv.len() as int) == Some(w as nat),
            }
        }),
{
    let ghost cv = dimacs::clauses_view(clauses@);
    let mut ts: Vec<InstanceTensor> = Vec::new();
    let mut k: usize = 0;
    while k < clauses.len()
        invariant
            cv == dimacs::clauses_view(clauses@),
            cv.len() == clauses@.len(),
            literals_fit(cv),
            forall|t: int, i: int| 0 <= t < clauses@.len() && 0 <= i < clauses@[t]@.len() ==> (#[trigger] clauses@[t]@[i]) != 0,
            k <= clauses@.len(),
            first_long(cv, k as int) is None,
            ts@.len() == kept_clauses(cv, k as int).len(),
            forall|t: int| 0 <= t < ts@.len() ==> is_clause_tensor(kept_clauses(cv, k as int)[t], #[trigger] ts@[t]),
        decreases clauses.len() - k,
    {
        let ghost lits = cv[k as int];
        assert(lits == clauses@[k as int]@);
        let ghost kept0 = kept_clauses(cv, k as int);
        proof {
            assert forall|i: int| 0 <= i < lits.len() implies (#[trigger] lits[i]) != 0 && dimacs::magnitude(lits[i] as int) <= usize::MAX by {
                assert(clauses@[k as int]@[i] != 0);
                assert(dimacs::magnitude(cv[k as int][i] as int) <= usize::MAX);
            }
        }
        match sorted_literals(&clauses[k]) {
            None => {},
            Some(kept) => {
                proof {
                    let vars = Seq::new(kept@.len(), |i: int| dimacs::var_of(kept@[i]) as usize);
                    assert forall|i: int| 0 <= i < kept@.len() implies (#[trigger] vars[i]) == dimacs::var_of(kept@[i]) by {
                        assert(kept@.contains(kept@[i]));
                        let q = lits.index_of(kept@[i]);
                        assert(lits[q] == kept@[i]);
                    }
                    lemma_width(lits, kept@, vars);
                }
                if kept.len() > MAX_CLAUSE_WIDTH {
                    proof {
                        lemma_long_stays(cv, k + 1, cv.len() as int);
                    }
                    return Err(kept.len());
                }
                let ghost t0 = ts@;
                let t = clause_tensor(Ghost(lits), &kept);
                ts.push(t);
                proof {
                    let kept1 = kept_clauses(cv, k + 1);
                    assert(kept1 == kept0.push(lits));
                    assert forall|j: int| 0 <= j < ts@.len() implies is_clause_tensor(kept1[j], #[trigger] ts@[j]) by {
                        if j < t0.len() {
                            assert(ts@[j] == t0[j]);
                            assert(kept1[j] == kept0[j]);
                        }
                    }
                }
            },
        }
        k += 1;
    }
    Ok(ts)
}

/// The entries of the weights, or the first literal that is not of a declared variable.
fn weight_entries(ws: &Vec<(i64, String)>, n_vars: usize) -> (r: Result<Vec<(usize, String, String)>, i64>)
    ensures
        ({
            let wv = dimacs::weights_view(ws@);
            match r {
                Ok(es) => first_stray(wv, n_vars as int, wv.len() as int) is None && csp::weights_view(es@) == folded(wv, wv.len() as int),
                Err(l) => first_stray(wv, n_vars as int, wv.len() as int) == Some(l),
            }
        }),
{
    let ghost wv = dimacs::weights_view(ws@);
    let mut es: Vec<(usize, String, String)> = Vec::new();
    let mut k: usize = 0;
    assert(csp::weights_view(es@) =~= folded(wv, 0));
    while k < ws.len()
        invariant
            wv == dimacs::weights_view(ws@),
            wv.len() == ws@.len(),
            k <= ws@.len(),
            first_stray(wv, n_vars as int, k as int) is None,
            csp::weights_view(es@) == folded(wv, k as int),
        decreases ws.len() - k,
    {
        let lit: i64 = ws[k].0;
        let size: u64 = if lit < 0 {
            (0i128 - lit as i128) as u64
        } else {
            lit as u64
        };
        assert(wv[k as int] == (lit, ws@[k as int].1@));
        if size == 0 || size - 1 >= n_vars as u64 {
            proof {
                lemma_stray_stays(wv, n_vars as int, k + 1, wv.len() as int);
            }
            return Err(lit);
        }
        set_weight(&mut es, lit, ws[k].1.as_str());
        k += 1;
    }
    Ok(es)
}

impl Instance {
    /// Read a formula, with weights of literals where it has them. A repeated literal counts
    /// once, and a clause with a literal and its negation is left out: it constrains nothing,
    /// and its variables stay declared.
    pub fn from_dimacs_text(input: &str) -> (r: Result<Instance, InstanceError>)
        requires
            dimacs::formula(input@) matches Ok(f) ==> literals_fit(f.1),
        ensures
            match dimacs::weight_lines(text::lines(input@), text::lines(input@).len() as int) {
                Err(dimacs::WeightFault::Cachet) => r matches Err(InstanceError::Dimacs(DimacsError::CachetWeightLine)),
                Err(dimacs::WeightFault::Bad(l)) => r matches Err(InstanceError::Dimacs(DimacsError::BadWeightLine(line))) && line@ == l,
                Ok(ws) => match dimacs::formula(input@) {
                    Err(f) => r matches Err(InstanceError::Dimacs(e)) && dimacs::fault_of(e, f),
                    Ok(f) => if first_long(f.1, f.1.len() as int) is Some {
                        r matches Err(InstanceError::ClauseTooLong(w)) && first_long(f.1, f.1.len() as int) == Some(w as nat)
                    } else if first_stray(ws, f.0, ws.len() as int) is Some {
                        r matches Err(InstanceError::WeightLiteral(l)) && first_stray(ws, f.0, ws.len() as int) == Some(l)
                    } else {
                        match r {
                            Ok(inst) => formula_instance(f.0, f.1, ws, inst) && inst.fault() is None,
                            Err(InstanceError::Fault(x)) => exists|inst: Instance| #[trigger] formula_instance(f.0, f.1, ws, inst) && inst.fault() == Some(x),
                            Err(_) => false,
                        }
                    },
                },
            },
    {
        let weights = match parse_mcc_weights(input) {
            Ok(ws) => ws,
            Err(e) => {
                return Err(InstanceError::Dimacs(e));
            },
        };
        let (n_vars, clauses) = match parse_dimacs(input) {
            Ok(p) => p,
            Err(e) => {
                return Err(InstanceError::Dimacs(e));
            },
        };
        proof {
            dimacs::lemma_formula_sized(input@);
            let cv = dimacs::clauses_view(clauses@);
            assert forall|t: int, i: int| 0 <= t < clauses@.len() && 0 <= i < clauses@[t]@.len() implies (#[trigger] clauses@[t]@[i]) != 0 by {
                assert(cv[t][i] != 0);
            }
        }
        let mut inst = Instance::new(n_vars);
        match clause_tensors(&clauses) {
            Ok(ts) => {
                inst.tensors = ts;
            },
            Err(w) => {
                return Err(InstanceError::ClauseTooLong(w));
            },
        }
        match weight_entries(&weights, n_vars) {
            Ok(es) => {
                inst.var_weights = es;
            },
            Err(l) => {
                return Err(InstanceError::WeightLiteral(l));
            },
        }
        assert(formula_instance(n_vars as int, dimacs::clauses_view(clauses@), dimacs::weights_view(weights@), inst));
        match inst.validate() {
            Ok(_) => Ok(inst),
            Err(f) => Err(InstanceError::Fault(f)),
        }
    }
}

/// The constraint that is a gate: over its wires, with the configurations under which it holds.
pub open spec fn is_gate_tensor(vars: Seq<Seq<char>>, g: circuit::Assignment, t: InstanceTensor) -> bool {
    &&& t.vars@ == circuit::places(vars, circuit::wires(g))
    &&& order::ascending64(t.allow@)
    &&& forall|k: int| 0 <= k < t.allow@.len() ==> bits::below(#[trigger] t.allow@[k], t.vars@.len() as int)
    &&& t.rows@.len() == 0
    &&& forall|a: Asg| #[trigger] instance::allows(t, a) <==> circuit::gate_holds(vars, g, a)
}

/// The problem that a circuit is, over all of its wires.
pub open spec fn circuit_instance(vars: Seq<Seq<char>>, gs: Seq<circuit::Assignment>, inst: Instance) -> bool {
    &&& inst.format@ == FORMAT_TAG@
    &&& inst.n_vars == vars.len()
    &&& inst.tensors@.len() == gs.len()
    &&& forall|t: int| 0 <= t < gs.len() ==> is_gate_tensor(vars, gs[t], #[trigger] inst.tensors@[t])
    &&& inst.var_weights@.len() == 0
}

proof fn lemma_no_first_over(vars: Seq<usize>, n: int, k: int)
    requires
        0 <= k <= vars.len(),
        forall|i: int| 0 <= i < vars.len() ==> (#[trigger] vars[i]) < n,
    ensures
        instance::first_over(vars, n, k) is None,
    decreases k,
{
    if k > 0 {
        lemma_no_first_over(vars, n, k - 1);
    }
}

proof fn lemma_no_first_wide(configs: Seq<u64>, arity: int, k: int)
    requires
        0 <= k <= configs.len(),
        forall|i: int| 0 <= i < configs.len() ==> bits::below(#[trigger] configs[i], arity),
    ensures
        instance::first_wide(configs, arity, k) is None,
    decreases k,
{
    if k > 0 {
        lemma_no_first_wide(configs, arity, k - 1);
    }
}

proof fn lemma_no_tensor_fault(ts: Seq<InstanceTensor>, n: int, k: int)
    requires
        0 <= k <= ts.len(),
        forall|t: int| 0 <= t < ts.len() ==> {
            &&& 0 < (#[trigger] ts[t]).vars@.len() <= 32
            &&& network::distinct(ts[t].vars@)
            &&& forall|i: int| 0 <= i < ts[t].vars@.len() ==> (#[trigger] ts[t].vars@[i]) < n
            &&& forall|i: int| 0 <= i < ts[t].allow@.len() ==> bits::below(#[trigger] ts[t].allow@[i], ts[t].vars@.len() as int)
            &&& ts[t].rows@.len() == 0
        },
    ensures
        instance::tensors_fault(ts, n, k) is None,
    decreases k,
{
    if k > 0 {
        lemma_no_tensor_fault(ts, n, k - 1);
        let t = ts[k - 1];
        lemma_no_first_over(t.vars@, n, t.vars@.len() as int);
        lemma_no_first_wide(t.allow@, t.vars@.len() as int, t.allow@.len() as int);
    }
}

/// A constraint of the network over the ids of the variables.
fn widened(cn: &ConstraintNetwork, ids: &Vec<usize>, t: usize, Ghost(scope): Ghost<Seq<usize>>) -> (r: InstanceTensor)
    requires
        cn.wf(),
        t < cn.m(),
        network::original_ids_of(cn.orig_to_new@, cn.n(), ids@),
        network::renumbered(cn.orig_to_new@, scope, cn.axes(t as int)),
    ensures
        r.vars@ == scope,
        r.rows@.len() == 0,
        r.allow@.len() == cn.rows(t as int).len(),
        forall|k: int| 0 <= k < r.allow@.len() ==> #[trigger] r.allow@[k] == cn.rows(t as int)[k] as u64,
{
    let ghost map = cn.orig_to_new@;
    let ghost axes = cn.axes(t as int);
    proof {
        assert(cn.tensor_wf(t as int));
        assert(network::compresses(map, cn.n()));
    }
    let mut vars: Vec<usize> = Vec::new();
    while vars.len() < cn.tensors[t].var_axes.len()
        invariant
            t < cn.m(),
            axes == cn.axes(t as int),
            map == cn.orig_to_new@,
            network::compresses(map, cn.n()),
            forall|i: int| 0 <= i < axes.len() ==> (#[trigger] axes[i]) < cn.n(),
            network::original_ids_of(map, cn.n(), ids@),
            network::renumbered(map, scope, axes),
            vars@.len() <= axes.len(),
            forall|i: int| 0 <= i < vars@.len() ==> #[trigger] vars@[i] == scope[i],
        decreases axes.len() - vars@.len(),
    {
        let i: usize = vars.len();
        let c: usize = cn.tensors[t].var_axes[i];
        proof {
            assert(axes[i as int] == c);
            let o = ids@[c as int] as int;
            assert(map[o] == Some(c));
            assert(map[scope[i as int] as int] == Some(c));
            if o < scope[i as int] {
                assert(map[o]->0 < map[scope[i as int] as int]->0);
            }
            if o > scope[i as int] {
                assert(map[scope[i as int] as int]->0 < map[o]->0);
            }
        }
        vars.push(ids[c]);
    }
    assert(vars@ =~= scope);
    let mut allow: Vec<u64> = Vec::new();
    let support = cn.support(&cn.tensors[t]);
    while allow.len() < support.len()
        invariant
            support@ == cn.rows(t as int),
            allow@.len() <= support@.len(),
            forall|k: int| 0 <= k < allow@.len() ==> #[trigger] allow@[k] == cn.rows(t as int)[k] as u64,
        decreases support@.len() - allow@.len(),
    {
        allow.push(support[allow.len()] as u64);
    }
    InstanceTensor { vars, allow, rows: Vec::new() }
}

impl Instance {
    /// Read a circuit: each gate is a constraint, without weights, over the wires in the order
    /// of the variables, so that every declared wire is kept.
    pub fn from_circuit_sat(data: CircuitSatData) -> (r: Result<Instance, InstanceError>)
        ensures
            ({
                let vars = circuit::texts(data.variables@);
                let gs = data.circuit.assignments@;
                match (r, circuit::gates_fault(vars, gs, gs.len() as int)) {
                    (Ok(inst), None) => circuit_instance(vars, gs, inst) && inst.fault() is None,
                    (Err(InstanceError::Circuit(e)), Some(f)) => circuit::reports(e, f),
                    _ => false,
                }
            }),
    {
        let ghost vars = circuit::texts(data.variables@);
        let ghost gs = data.circuit.assignments@;
        let cp = match network_from_circuit_sat(data) {
            Ok(cp) => cp,
            Err(e) => {
                return Err(InstanceError::Circuit(e));
            },
        };
        let CircuitProblem { network: cn, variables } = cp;
        let ghost given = choose|given: Seq<(Vec<usize>, Vec<u32>)>|
            #![trigger network::assembles(cn, vars.len() as int, given)]
            network::assembles(cn, vars.len() as int, given) && given.len() == gs.len() && (forall|t: int| 0 <= t < given.len() ==> circuit::is_gate(vars, gs[t], (#[trigger] given[t]).0@, given[t].1@));
        let ids = network::original_ids(&cn);
        let mut tensors: Vec<InstanceTensor> = Vec::new();
        while tensors.len() < cn.tensors.len()
            invariant
                network::assembles(cn, vars.len() as int, given),
                given.len() == gs.len(),
                forall|t: int| 0 <= t < given.len() ==> circuit::is_gate(vars, gs[t], (#[trigger] given[t]).0@, given[t].1@),
                network::original_ids_of(cn.orig_to_new@, cn.n(), ids@),
                tensors@.len() <= cn.m(),
                forall|t: int| 0 <= t < tensors@.len() ==> is_gate_tensor(vars, gs[t], #[trigger] tensors@[t]) && tensors@[t].vars@ == given[t].0@,
            decreases cn.m() - tensors@.len(),
        {
            let t: usize = tensors.len();
            assert(network::renumbered(cn.orig_to_new@, given[t as int].0@, cn.axes(t as int)));
            let x = widened(&cn, &ids, t, Ghost(given[t as int].0@));
            proof {
                let rows = given[t as int].1@;
                assert(rows == cn.rows(t as int));
                assert(cn.tensor_wf(t as int));
                assert(order::ascending64(x.allow@)) by {
                    assert forall|i: int, j: int| 0 <= i < j < x.allow@.len() implies x.allow@[i] < x.allow@[j] by {
                        assert(rows[i] < rows[j]);
                    }
                }
                assert(circuit::is_gate(vars, gs[t as int], given[t as int].0@, rows));
                assert forall|a: Asg| #[trigger] instance::allows(x, a) <==> circuit::gate_holds(vars, gs[t as int], a) by {
                    if instance::allows(x, a) {
                        let k = choose|k: int| 0 <= k < x.allow@.len() && network::agrees(x.vars@, #[trigger] x.allow@[k], a);
                        assert(network::agrees(given[t as int].0@, rows[k] as u64, a));
                        assert(network::rows_hold(given[t as int].0@, rows, a));
                    }
                    if circuit::gate_holds(vars, gs[t as int], a) {
                        assert(network::rows_hold(given[t as int].0@, rows, a));
                        let k = choose|k: int| 0 <= k < rows.len() && network::agrees(given[t as int].0@, #[trigger] rows[k] as u64, a);
                        assert(network::agrees(x.vars@, x.allow@[k], a));
                    }
                }
            }
            tensors.push(x);
        }
        let mut inst = Instance::new(variables.len());
        inst.tensors = tensors;
        proof {
            let ts = inst.tensors@;
            assert forall|t: int| 0 <= t < ts.len() implies {
                &&& 0 < (#[trigger] ts[t]).vars@.len() <= 32
                &&& network::distinct(ts[t].vars@)
                &&& forall|i: int| 0 <= i < ts[t].vars@.len() ==> (#[trigger] ts[t].vars@[i]) < vars.len()
                &&& forall|i: int| 0 <= i < ts[t].allow@.len() ==> bits::below(#[trigger] ts[t].allow@[i], ts[t].vars@.len() as int)
                &&& ts[t].rows@.len() == 0
            } by {
                assert(is_gate_tensor(vars, gs[t], ts[t]));
                assert(cn.tensor_wf(t));
                let old_ids = given[t].0@;
                let new_ids = cn.axes(t);
                assert(network::renumbered(cn.orig_to_new@, old_ids, new_ids));
                assert forall|i: int| 0 <= i < old_ids.len() implies (#[trigger] old_ids[i]) < vars.len() by {
                    assert(cn.orig_to_new@[old_ids[i] as int] == Some(new_ids[i]));
                }
                assert forall|i: int, j: int| 0 <= i < j < old_ids.len() implies old_ids[i] != old_ids[j] by {
                    assert(new_ids[i] != new_ids[j]);
                    assert(cn.orig_to_new@[old_ids[i] as int] == Some(new_ids[i]));
                    assert(cn.orig_to_new@[old_ids[j] as int] == Some(new_ids[j]));
                }
            }
            lemma_no_tensor_fault(ts, vars.len() as int, ts.len() as int);
        }
        Ok(inst)
    }
}

/// Where the constraints are zero or one and no variable has weights, the weight of an
/// assignment says whether it meets them all.
proof fn lemma_plain_weight(inst: Instance, a: Asg)
    requires
        inst.var_weights@.len() == 0,
        forall|t: int| 0 <= t < inst.tensors@.len() ==> (#[trigger] inst.tensors@[t]).rows@.len() == 0,
    ensures
        inst.weight(a) == (if forall|t: int| 0 <= t < inst.tensors@.len() ==> instance::allows(#[trigger] inst.tensors@[t], a) {
            1real
        } else {
            0real
        }),
{
    let fs = inst.factors(a);
    if forall|t: int| 0 <= t < inst.tensors@.len() ==> instance::allows(#[trigger] inst.tensors@[t], a) {
        assert forall|i: int| 0 <= i < fs.len() implies #[trigger] fs[i] == 1real by {
            if i < inst.tensors@.len() {
                assert(instance::allows(inst.tensors@[i], a));
            }
        }
        lemma_product_ones(fs);
    } else {
        let t = choose|t: int| 0 <= t < inst.tensors@.len() && !instance::allows(#[trigger] inst.tensors@[t], a);
        assert(fs[t] == 0real);
        sums::lemma_product_zero(fs, t);
    }
}

proof fn lemma_product_ones(s: Seq<real>)
    requires
        forall|i: int| 0 <= i < s.len() ==> #[trigger] s[i] == 1real,
    ensures
        sums::product(s) == 1real,
    decreases s.len(),
{
    if s.len() > 0 {
        assert forall|i: int| 0 <= i < s.drop_last().len() implies #[trigger] s.drop_last()[i] == 1real by {
            assert(s.drop_last()[i] == s[i]);
        }
        lemma_product_ones(s.drop_last());
        assert(s.last() == 1real);
    }
}

proof fn lemma_kept(clauses: Seq<Seq<i64>>, k: int, a: Asg)
    requires
        0 <= k <= clauses.len(),
        dimacs::clauses_sized(clauses),
    ensures
        (forall|t: int| 0 <= t < k ==> dimacs::clause_holds(#[trigger] clauses[t], a)) <==> (forall|t: int| 0 <= t < kept_clauses(clauses, k).len() ==> dimacs::clause_holds(#[trigger] kept_clauses(clauses, k)[t], a)),
    decreases k,
{
    if k > 0 {
        lemma_kept(clauses, k - 1, a);
        let lits = clauses[k - 1];
        let before = kept_clauses(clauses, k - 1);
        let now = kept_clauses(clauses, k);
        if tautology(lits) {
            let (i, j) = choose|i: int, j: int| 0 <= i < lits.len() && 0 <= j < lits.len() && (#[trigger] lits[i]) as int == -((#[trigger] lits[j]) as int);
            assert(clauses[k - 1][i] != 0);
            assert(dimacs::var_of(lits[i]) == dimacs::var_of(lits[j]));
            assert((lits[i] > 0) != (lits[j] > 0));
            assert(dimacs::clause_holds(lits, a));
        } else {
            assert(now == before.push(lits));
            if forall|t: int| 0 <= t < now.len() ==> dimacs::clause_holds(#[trigger] now[t], a) {
                assert(now[now.len() - 1] == lits);
                assert forall|t: int| 0 <= t < before.len() implies dimacs::clause_holds(#[trigger] before[t], a) by {
                    assert(now[t] == before[t]);
                }
            }
            if forall|t: int| 0 <= t < k ==> dimacs::clause_holds(#[trigger] clauses[t], a) {
                assert(dimacs::clause_holds(clauses[k - 1], a));
                assert forall|t: int| 0 <= t < now.len() implies dimacs::clause_holds(#[trigger] now[t], a) by {
                    if t < before.len() {
                        assert(now[t] == before[t]);
                    }
                }
            }
        }
    }
}

/// In the problem of a formula without weights an assignment has weight one where it makes
/// every clause true, and zero otherwise.
pub proof fn law_formula_weight(nvars: int, clauses: Seq<Seq<i64>>, inst: Instance, a: Asg)
    requires
        formula_instance(nvars, clauses, Seq::empty(), inst),
        dimacs::clauses_sized(clauses),
    ensures
        inst.weight(a) == (if forall|t: int| 0 <= t < clauses.len() ==> dimacs::clause_holds(#[trigger] clauses[t], a) {
            1real
        } else {
            0real
        }),
{
    let kept = kept_clauses(clauses, clauses.len() as int);
    assert(csp::weights_view(inst.var_weights@).len() == 0);
    lemma_kept(clauses, clauses.len() as int, a);
    assert forall|t: int| 0 <= t < inst.tensors@.len() implies (#[trigger] inst.tensors@[t]).rows@.len() == 0 by {
        assert(is_clause_tensor(kept[t], inst.tensors@[t]));
    }
    lemma_plain_weight(inst, a);
    if forall|t: int| 0 <= t < kept.len() ==> dimacs::clause_holds(#[trigger] kept[t], a) {
        assert forall|t: int| 0 <= t < inst.tensors@.len() implies instance::allows(#[trigger] inst.tensors@[t], a) by {
            assert(dimacs::clause_holds(kept[t], a));
        }
    }
    if forall|t: int| 0 <= t < inst.tensors@.len() ==> instance::allows(#[trigger] inst.tensors@[t], a) {
        assert forall|t: int| 0 <= t < kept.len() implies dimacs::clause_holds(#[trigger] kept[t], a) by {
            assert(instance::allows(inst.tensors@[t], a));
        }
    }
}

/// In the problem of a circuit an assignment has weight one where every gate holds, and zero
/// otherwise.
pub proof fn law_circuit_weight(vars: Seq<Seq<char>>, gs: Seq<circuit::Assignment>, inst: Instance, a: Asg)
    requires
        circuit_instance(vars, gs, inst),
    ensures
        inst.weight(a) == (if forall|t: int| 0 <= t < gs.len() ==> circuit::gate_holds(vars, #[trigger] gs[t], a) {
            1real
        } else {
            0real
        }),
{
    lemma_plain_weight(inst, a);
    if forall|t: int| 0 <= t < gs.len() ==> circuit::gate_holds(vars, #[trigger] gs[t], a) {
        assert forall|t: int| 0 <= t < inst.tensors@.len() implies instance::allows(#[trigger] inst.tensors@[t], a) by {
            assert(circuit::gate_holds(vars, gs[t], a));
        }
    }
    if forall|t: int| 0 <= t < inst.tensors@.len() ==> instance::allows(#[trigger] inst.tensors@[t], a) {
        assert forall|t: int| 0 <= t < gs.len() implies circuit::gate_holds(vars, #[trigger] gs[t], a) by {
            assert(instance::allows(inst.tensors@[t], a));
        }
    }
}

/// In the problem of a text of relations without weights an assignment has weight one where
/// every relation lists a configuration that agrees with it, and zero otherwise.
pub proof fn law_csp_weight(input: Seq<char>, inst: Instance, a: Asg)
    requires
        csp_instance(input, inst),
        csp::body_weights(true, csp::data_lines(text::lines(input), text::lines(input).len() as int), csp::data_lines(text::lines(input), text::lines(input).len() as int).len() as int).len() == 0,
    ensures
        ({
            let data = csp::data_lines(text::lines(input), text::lines(input).len() as int);
            let ts = csp::body_tensors(true, data, data.len() as int);
            inst.weight(a) == (if forall|t: int| 0 <= t < ts.len() ==> csp::relation_holds((#[trigger] ts[t]).0, ts[t].1, a) {
                1real
            } else {
                0real
            })
        }),
{
    let data = csp::data_lines(text::lines(input), text::lines(input).len() as int);
    let ts = csp::body_tensors(true, data, data.len() as int);
    assert(csp::weights_view(inst.var_weights@).len() == 0);
    assert forall|t: int| 0 <= t < inst.tensors@.len() implies (#[trigger] inst.tensors@[t]).rows@.len() == 0 by {
        assert(lists_configs(inst.tensors@[t], ts[t].1));
    }
    lemma_plain_weight(inst, a);
    assert forall|t: int| 0 <= t < ts.len() implies csp::relation_holds((#[trigger] ts[t]).0, ts[t].1, a) == instance::allows(inst.tensors@[t], a) by {
        let tensor = inst.tensors@[t];
        assert(lists_configs(tensor, ts[t].1));
        if csp::relation_holds(ts[t].0, ts[t].1, a) {
            let k = choose|k: int| 0 <= k < ts[t].1.len() && network::agrees(ts[t].0, #[trigger] ts[t].1[k], a);
            assert(tensor.allow@.contains(ts[t].1[k]));
            let j = tensor.allow@.index_of(ts[t].1[k]);
            assert(network::agrees(tensor.vars@, tensor.allow@[j], a));
        }
        if instance::allows(tensor, a) {
            let k = choose|k: int| 0 <= k < tensor.allow@.len() && network::agrees(tensor.vars@, #[trigger] tensor.allow@[k], a);
            assert(tensor.allow@.contains(tensor.allow@[k]));
            assert(ts[t].1.contains(tensor.allow@[k]));
            let j = ts[t].1.index_of(tensor.allow@[k]);
            assert(network::agrees(ts[t].0, ts[t].1[j], a));
        }
    }
    if forall|t: int| 0 <= t < ts.len() ==> csp::relation_holds((#[trigger] ts[t]).0, ts[t].1, a) {
        assert forall|t: int| 0 <= t < inst.tensors@.len() implies instance::allows(#[trigger] inst.tensors@[t], a) by {
            assert(csp::relation_holds(ts[t].0, ts[t].1, a));
        }
    }
    if forall|t: int| 0 <= t < inst.tensors@.len() ==> instance::allows(#[trigger] inst.tensors@[t], a) {
        assert forall|t: int| 0 <= t < ts.len() implies csp::relation_holds((#[trigger] ts[t]).0, ts[t].1, a) by {
            assert(instance::allows(inst.tensors@[t], a));
        }
    }
}

} // verus!
