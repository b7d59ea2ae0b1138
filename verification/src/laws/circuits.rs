//! What circuits mean.
use vstd::prelude::*;

use crate::circuit;
use crate::circuit::{Assignment, BooleanExpr, BooleanOp, Wires};
use crate::domain::Asg;
use crate::laws::sizes;

verus! {

proof fn lemma_operands(es: Seq<BooleanExpr>, k: int, w: Wires)
    requires
        0 <= k <= es.len(),
    ensures
        circuit::every(es, k, w) <==> (forall|i: int| 0 <= i < k ==> circuit::value(#[trigger] es[i], w)),
        circuit::some(es, k, w) <==> (exists|i: int| 0 <= i < k && circuit::value(#[trigger] es[i], w)),
        sizes::places(k, |i: int| circuit::value(es[i], w)).finite(),
        circuit::parity(es, k, w) <==> sizes::places(k, |i: int| circuit::value(es[i], w)).len() % 2 == 1,
    decreases k,
{
    let p = |i: int| circuit::value(es[i], w);
    if k == 0 {
        sizes::lemma_no_places(0, p);
    } else {
        lemma_operands(es, k - 1, w);
        sizes::lemma_next_place(k - 1, p);
        assert(p(k - 1) == circuit::value(es[k - 1], w));
        if circuit::some(es, k, w) && !circuit::some(es, k - 1, w) {
            assert(circuit::value(es[k - 1], w));
        }
        if circuit::some(es, k - 1, w) {
            let i = choose|i: int| 0 <= i < k - 1 && circuit::value(#[trigger] es[i], w);
            assert(0 <= i < k && circuit::value(es[i], w));
        }
    }
}

/// The value of an expression: a conjunction is true where all operands are, a disjunction where
/// some operand is, an exclusive disjunction where an odd number of operands is, however many there
/// are; a negation where its operand is false.
pub proof fn law_values_of_expressions(e: BooleanExpr, w: Wires)
    ensures
        match e.op {
            BooleanOp::Var(n) => circuit::value(e, w) <==> w(n@),
            BooleanOp::Const(b) => circuit::value(e, w) <==> b,
            BooleanOp::Not(x) => circuit::value(e, w) <==> !circuit::value(*x, w),
            BooleanOp::And(es) => circuit::value(e, w) <==> (forall|i: int| 0 <= i < es@.len() ==> circuit::value(#[trigger] es@[i], w)),
            BooleanOp::Or(es) => circuit::value(e, w) <==> (exists|i: int| 0 <= i < es@.len() && circuit::value(#[trigger] es@[i], w)),
            BooleanOp::Xor(es) => circuit::value(e, w) <==> Set::new(|i: int| 0 <= i < es@.len() && circuit::value(es@[i], w)).len() % 2 == 1,
        },
{
    match e.op {
        BooleanOp::And(es) => {
            lemma_operands(es@, es@.len() as int, w);
        },
        BooleanOp::Or(es) => {
            lemma_operands(es@, es@.len() as int, w);
        },
        BooleanOp::Xor(es) => {
            lemma_operands(es@, es@.len() as int, w);
            let p = |i: int| circuit::value(es@[i], w);
            assert(sizes::places(es@.len() as int, p) =~= Set::new(|i: int| 0 <= i < es@.len() && circuit::value(es@[i], w)));
        },
        _ => {},
    }
}

/// An exclusive disjunction is false where all operands are, and where one operand alone changes its value, so
/// does the disjunction.
pub proof fn law_each_operand_flips_an_exclusive_disjunction(e: BooleanExpr, es: Vec<BooleanExpr>, v: Wires, w: Wires, i: int)
    requires
        e.op == BooleanOp::Xor(es),
    ensures
        (forall|j: int| 0 <= j < es@.len() ==> !circuit::value(#[trigger] es@[j], w)) ==> !circuit::value(e, w),
        0 <= i < es@.len() && circuit::value(es@[i], v) != circuit::value(es@[i], w) && (forall|j: int| 0 <= j < es@.len() && j != i ==> circuit::value(#[trigger] es@[j], v) == circuit::value(es@[j], w)) ==> circuit::value(e, v) != circuit::value(e, w),
{
    let n = es@.len() as int;
    let p = |j: int| circuit::value(es@[j], v);
    let q = |j: int| circuit::value(es@[j], w);
    lemma_operands(es@, n, v);
    lemma_operands(es@, n, w);
    if forall|j: int| 0 <= j < n ==> !circuit::value(#[trigger] es@[j], w) {
        assert(sizes::places(n, q) =~= Set::<int>::empty());
    }
    if 0 <= i < n && circuit::value(es@[i], v) != circuit::value(es@[i], w) && (forall|j: int| 0 <= j < n && j != i ==> circuit::value(#[trigger] es@[j], v) == circuit::value(es@[j], w)) {
        let a = sizes::places(n, p);
        let b = sizes::places(n, q);
        if p(i) {
            assert(a =~= b.insert(i));
        } else {
            assert(b =~= a.insert(i));
        }
    }
}

/// A name stands for the last variable that has it, and for none where no variable has it.
pub proof fn law_the_last_variable_of_a_name_counts(vars: Seq<Seq<char>>, name: Seq<char>)
    ensures
        match circuit::last_named(vars, name) {
            Some(p) => 0 <= p < vars.len() && vars[p] == name && forall|q: int| p < q < vars.len() ==> #[trigger] vars[q] != name,
            None => forall|q: int| 0 <= q < vars.len() ==> #[trigger] vars[q] != name,
        },
    decreases vars.len(),
{
    if vars.len() > 0 && vars.last() != name {
        let rest = vars.drop_last();
        law_the_last_variable_of_a_name_counts(rest, name);
        assert forall|q: int| 0 <= q < rest.len() implies rest[q] == #[trigger] vars[q] by {}
    }
}

/// The expression names the wire.
pub open spec fn mentions(e: BooleanExpr, name: Seq<char>) -> bool
    decreases e,
{
    match e.op {
        BooleanOp::Var(n) => n@ == name,
        BooleanOp::Const(b) => false,
        BooleanOp::Not(x) => mentions(*x, name),
        BooleanOp::And(es) => exists|i: int| 0 <= i < es@.len() && mentions(#[trigger] es@[i], name),
        BooleanOp::Or(es) => exists|i: int| 0 <= i < es@.len() && mentions(#[trigger] es@[i], name),
        BooleanOp::Xor(es) => exists|i: int| 0 <= i < es@.len() && mentions(#[trigger] es@[i], name),
    }
}

proof fn lemma_names(e: BooleanExpr, seen: Seq<Seq<char>>, name: Seq<char>)
    ensures
        circuit::names(e, seen).contains(name) <==> (seen.contains(name) || mentions(e, name)),
        circuit::names(e, seen).len() >= seen.len(),
        circuit::names(e, seen).take(seen.len() as int) == seen,
        seen.no_duplicates() ==> circuit::names(e, seen).no_duplicates(),
    decreases e, 0int,
{
    match e.op {
        BooleanOp::Var(n) => {
            crate::seqs::lemma_push_contains(seen, n@);
            assert(seen.push(n@).take(seen.len() as int) =~= seen);
            assert(seen.take(seen.len() as int) =~= seen);
        },
        BooleanOp::Const(b) => {
            assert(seen.take(seen.len() as int) =~= seen);
        },
        BooleanOp::Not(x) => {
            lemma_names(*x, seen, name);
        },
        BooleanOp::And(es) => {
            lemma_names_of(es@, es@.len() as int, seen, name);
        },
        BooleanOp::Or(es) => {
            lemma_names_of(es@, es@.len() as int, seen, name);
        },
        BooleanOp::Xor(es) => {
            lemma_names_of(es@, es@.len() as int, seen, name);
        },
    }
}

proof fn lemma_names_of(es: Seq<BooleanExpr>, k: int, seen: Seq<Seq<char>>, name: Seq<char>)
    requires
        0 <= k <= es.len(),
    ensures
        circuit::names_of(es, k, seen).contains(name) <==> (seen.contains(name) || exists|i: int| 0 <= i < k && mentions(#[trigger] es[i], name)),
        circuit::names_of(es, k, seen).len() >= seen.len(),
        circuit::names_of(es, k, seen).take(seen.len() as int) == seen,
        seen.no_duplicates() ==> circuit::names_of(es, k, seen).no_duplicates(),
    decreases es, k,
{
    if k > 0 {
        let before = circuit::names_of(es, k - 1, seen);
        lemma_names_of(es, k - 1, seen, name);
        lemma_names(es[k - 1], before, name);
        let after = circuit::names(es[k - 1], before);
        assert(after.take(seen.len() as int) =~= after.take(before.len() as int).take(seen.len() as int));
        if exists|i: int| 0 <= i < k - 1 && mentions(#[trigger] es[i], name) {
            let i = choose|i: int| 0 <= i < k - 1 && mentions(#[trigger] es[i], name);
            assert(0 <= i < k && mentions(es[i], name));
        }
        if mentions(es[k - 1], name) {
            assert(0 <= k - 1 < k && mentions(es[k - 1], name));
        }
    } else {
        assert(seen.take(seen.len() as int) =~= seen);
    }
}

/// The wires of a gate: each wire that its expression names, once, but the output, which comes last.
pub proof fn law_wires_of_a_gate(g: Assignment)
    requires
        g.outputs@.len() == 1,
    ensures
        circuit::wires(g).no_duplicates(),
        circuit::wires(g).last() == g.outputs@[0]@,
        forall|n: Seq<char>| #[trigger] circuit::wires(g).contains(n) <==> (mentions(g.expr, n) || n == g.outputs@[0]@),
{
    let out = g.outputs@[0]@;
    let all = circuit::names(g.expr, Seq::empty());
    let ins = circuit::inputs(g);
    let f = circuit::other_than(out);
    lemma_names(g.expr, Seq::empty(), out);
    assert forall|n: Seq<char>| #[trigger] ins.contains(n) <==> (mentions(g.expr, n) && n != out) by {
        lemma_names(g.expr, Seq::empty(), n);
        if ins.contains(n) {
            all.lemma_filter_contains_rev(f, n);
            let k = ins.index_of(n);
            all.lemma_filter_pred(f, k);
        }
        if mentions(g.expr, n) && n != out {
            let k = all.index_of(n);
            assert(f(all[k]));
            all.lemma_filter_contains(f, k);
        }
    }
    lemma_filter_distinct(all, f);
    crate::seqs::lemma_push_contains(ins, out);
    let ws = circuit::wires(g);
    assert forall|i: int, j: int| 0 <= i < ws.len() && 0 <= j < ws.len() && i != j implies ws[i] != ws[j] by {
        if i == ins.len() {
            assert(ins.contains(ins[j]));
        } else if j == ins.len() {
            assert(ins.contains(ins[i]));
        }
    }
}

pub proof fn lemma_filter_distinct<A>(s: Seq<A>, f: spec_fn(A) -> bool)
    requires
        s.no_duplicates(),
    ensures
        s.filter(f).no_duplicates(),
    decreases s.len(),
{
    reveal(Seq::filter);
    if s.len() > 0 {
        let rest = s.drop_last();
        lemma_filter_distinct(rest, f);
        if f(s.last()) {
            let t = rest.filter(f);
            assert forall|i: int, j: int| 0 <= i < s.filter(f).len() && 0 <= j < s.filter(f).len() && i != j implies s.filter(f)[i] != s.filter(f)[j] by {
                if i == t.len() || j == t.len() {
                    let x = if i == t.len() {
                        t[j]
                    } else {
                        t[i]
                    };
                    assert(t.contains(x));
                    rest.lemma_filter_contains_rev(f, x);
                    let q = rest.index_of(x);
                    assert(s[q] == x);
                }
            }
        }
    }
}

/// A gate holds exactly where its output wire has the value of its expression, each wire read at the
/// last variable of its name.
pub proof fn law_gate_ties_its_output(vars: Seq<Seq<char>>, g: Assignment, a: Asg, p: int, w: Wires)
    requires
        g.outputs@.len() == 1,
        0 <= p < vars.len(),
        vars[p] == g.outputs@[0]@,
        forall|q: int| p < q < vars.len() ==> #[trigger] vars[q] != g.outputs@[0]@,
        forall|q: int| 0 <= q < vars.len() && (forall|r: int| q < r < vars.len() ==> #[trigger] vars[r] != vars[q]) ==> w(#[trigger] vars[q]) == a(q),
        forall|n: Seq<char>| mentions(g.expr, n) ==> #[trigger] vars.contains(n),
    ensures
        circuit::gate_holds(vars, g, a) <==> a(p) == circuit::value(g.expr, w),
{
    let out = g.outputs@[0]@;
    law_the_last_variable_of_a_name_counts(vars, out);
    let l = circuit::last_named(vars, out)->0;
    if l < p {
        assert(vars[p] != out);
    } else if p < l {
        assert(vars[l] != out);
    }
    let v = circuit::read_wires(vars, a);
    assert forall|n: Seq<char>| mentions(g.expr, n) implies #[trigger] v(n) == w(n) by {
        assert(vars.contains(n));
        law_the_last_variable_of_a_name_counts(vars, n);
        let q0 = vars.index_of(n);
        assert(vars[q0] == n);
        let q = circuit::last_named(vars, n)->0;
        assert forall|r: int| q < r < vars.len() implies #[trigger] vars[r] != vars[q] by {}
        assert(w(vars[q]) == a(q));
    }
    lemma_value_reads(g.expr, v, w);
}

/// The value of an expression depends on the wires that it names only.
pub proof fn lemma_value_reads(e: BooleanExpr, v: Wires, w: Wires)
    requires
        forall|n: Seq<char>| mentions(e, n) ==> #[trigger] v(n) == w(n),
    ensures
        circuit::value(e, v) == circuit::value(e, w),
    decreases e,
{
    law_values_of_expressions(e, v);
    law_values_of_expressions(e, w);
    match e.op {
        BooleanOp::Var(n) => {
            assert(mentions(e, n@));
        },
        BooleanOp::Const(b) => {},
        BooleanOp::Not(x) => {
            assert forall|n: Seq<char>| mentions(*x, n) implies #[trigger] v(n) == w(n) by {
                assert(mentions(e, n));
            }
            lemma_value_reads(*x, v, w);
        },
        BooleanOp::And(es) => {
            lemma_operands_read(e, es@, v, w);
        },
        BooleanOp::Or(es) => {
            lemma_operands_read(e, es@, v, w);
        },
        BooleanOp::Xor(es) => {
            lemma_operands_read(e, es@, v, w);
            assert(Set::new(|i: int| 0 <= i < es@.len() && circuit::value(es@[i], v)) =~= Set::new(|i: int| 0 <= i < es@.len() && circuit::value(es@[i], w)));
        },
    }
}

proof fn lemma_operands_read(e: BooleanExpr, es: Seq<BooleanExpr>, v: Wires, w: Wires)
    requires
        forall|n: Seq<char>| mentions(e, n) ==> #[trigger] v(n) == w(n),
        forall|n: Seq<char>, i: int| 0 <= i < es.len() && #[trigger] mentions(es[i], n) ==> mentions(e, n),
        forall|i: int| 0 <= i < es.len() ==> decreases_to!(e => #[trigger] es[i]),
    ensures
        forall|i: int| 0 <= i < es.len() ==> circuit::value(#[trigger] es[i], v) == circuit::value(es[i], w),
    decreases e, 0int,
{
    assert forall|i: int| 0 <= i < es.len() implies circuit::value(#[trigger] es[i], v) == circuit::value(es[i], w) by {
        assert forall|n: Seq<char>| mentions(es[i], n) implies #[trigger] v(n) == w(n) by {
            assert(mentions(e, n));
        }
        lemma_value_reads(es[i], v, w);
    }
}

} // verus!
