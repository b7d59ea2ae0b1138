//! Circuits of named wires: each gate `out = expr(inputs..)` is one constraint over its inputs
//! and its output, so that the structure of the circuit is kept.

use crate::bits;
use crate::counting;
use crate::domain::{Asg, DomainMask};
use crate::network;
use crate::network::{setup_problem, ConstraintNetwork};
use crate::seqs;
use crate::text;
use vstd::prelude::*;

verus! {

/// Why a circuit cannot be read as a network.
#[derive(Clone, Debug)]
pub enum CircuitError {
    /// A gate names a wire that is not among the variables.
    UnknownVar(String),
    /// A gate does not have exactly one output.
    BadOutputArity(usize),
    /// A gate has more than 32 wires.
    ArityCap(usize),
}

/// An expression over named wires.
#[derive(Debug)]
pub struct BooleanExpr {
    pub op: BooleanOp,
}

/// What an expression computes.
#[derive(Debug)]
pub enum BooleanOp {
    Var(String),
    Const(bool),
    Not(Box<BooleanExpr>),
    And(Vec<BooleanExpr>),
    Or(Vec<BooleanExpr>),
    Xor(Vec<BooleanExpr>),
}

/// A gate: what its outputs are set to.
#[derive(Debug)]
pub struct Assignment {
    pub expr: BooleanExpr,
    pub outputs: Vec<String>,
}

/// The gates.
#[derive(Debug)]
pub struct Circuit {
    pub assignments: Vec<Assignment>,
}

/// A circuit with its wires.
#[derive(Debug)]
pub struct CircuitSatData {
    pub circuit: Circuit,
    pub variables: Vec<String>,
}

/// The values of the wires.
pub type Wires = spec_fn(Seq<char>) -> bool;

/// The value of an expression.
pub open spec fn value(e: BooleanExpr, w: Wires) -> bool
    decreases e, 0int,
{
    match e.op {
        BooleanOp::Var(n) => w(n@),
        BooleanOp::Const(b) => b,
        BooleanOp::Not(x) => !value(*x, w),
        BooleanOp::And(es) => every(es@, es@.len() as int, w),
        BooleanOp::Or(es) => some(es@, es@.len() as int, w),
        BooleanOp::Xor(es) => parity(es@, es@.len() as int, w),
    }
}

/// All of the first `k` expressions are true.
pub open spec fn every(es: Seq<BooleanExpr>, k: int, w: Wires) -> bool
    decreases es, k,
{
    if 0 < k <= es.len() {
        every(es, k - 1, w) && value(es[k - 1], w)
    } else {
        true
    }
}

/// One of the first `k` expressions is true.
pub open spec fn some(es: Seq<BooleanExpr>, k: int, w: Wires) -> bool
    decreases es, k,
{
    if 0 < k <= es.len() {
        some(es, k - 1, w) || value(es[k - 1], w)
    } else {
        false
    }
}

/// An odd number of the first `k` expressions is true.
pub open spec fn parity(es: Seq<BooleanExpr>, k: int, w: Wires) -> bool
    decreases es, k,
{
    if 0 < k <= es.len() {
        parity(es, k - 1, w) != value(es[k - 1], w)
    } else {
        false
    }
}

/// The wire names of an expression, each once, in the order in which they first occur, behind
/// those seen before.
pub open spec fn names(e: BooleanExpr, seen: Seq<Seq<char>>) -> Seq<Seq<char>>
    decreases e, 0int,
{
    match e.op {
        BooleanOp::Var(n) => if seen.contains(n@) {
            seen
        } else {
            seen.push(n@)
        },
        BooleanOp::Const(b) => seen,
        BooleanOp::Not(x) => names(*x, seen),
        BooleanOp::And(es) => names_of(es@, es@.len() as int, seen),
        BooleanOp::Or(es) => names_of(es@, es@.len() as int, seen),
        BooleanOp::Xor(es) => names_of(es@, es@.len() as int, seen),
    }
}

/// The wire names of the first `k` expressions.
pub open spec fn names_of(es: Seq<BooleanExpr>, k: int, seen: Seq<Seq<char>>) -> Seq<Seq<char>>
    decreases es, k,
{
    if 0 < k <= es.len() {
        names(es[k - 1], names_of(es, k - 1, seen))
    } else {
        seen
    }
}

/// The texts of strings.
pub open spec fn texts(v: Seq<String>) -> Seq<Seq<char>> {
    v.map_values(|s: String| s@)
}

/// The place of a name: the last one where it stands.
pub open spec fn last_named(vars: Seq<Seq<char>>, name: Seq<char>) -> Option<int>
    decreases vars.len(),
{
    if vars.len() == 0 {
        None
    } else if vars.last() == name {
        Some(vars.len() - 1)
    } else {
        last_named(vars.drop_last(), name)
    }
}

/// The inputs of a gate: the names in its expression but the output.
pub open spec fn inputs(g: Assignment) -> Seq<Seq<char>> {
    names(g.expr, Seq::empty()).filter(other_than(g.outputs@[0]@))
}

/// Any text but the one.
pub open spec fn other_than(out: Seq<char>) -> spec_fn(Seq<char>) -> bool {
    |n: Seq<char>| n != out
}

/// The wires of a gate: its inputs, then its output.
pub open spec fn wires(g: Assignment) -> Seq<Seq<char>> {
    inputs(g).push(g.outputs@[0]@)
}

/// What is wrong with a gate.
pub ghost enum GateFault {
    UnknownVar(Seq<char>),
    BadOutputArity(int),
    ArityCap(int),
}

/// The first of the first `k` names that is not among the variables.
pub open spec fn first_unknown(vars: Seq<Seq<char>>, ns: Seq<Seq<char>>, k: int) -> Option<GateFault>
    decreases k,
{
    if k <= 0 {
        None
    } else {
        match first_unknown(vars, ns, k - 1) {
            Some(f) => Some(f),
            None => if last_named(vars, ns[k - 1]) is None {
                Some(GateFault::UnknownVar(ns[k - 1]))
            } else {
                None
            },
        }
    }
}

/// What is wrong with a gate over the variables.
pub open spec fn gate_fault(vars: Seq<Seq<char>>, g: Assignment) -> Option<GateFault> {
    if g.outputs@.len() != 1 {
        Some(GateFault::BadOutputArity(g.outputs@.len() as int))
    } else if wires(g).len() > 32 {
        Some(GateFault::ArityCap(wires(g).len() as int))
    } else {
        first_unknown(vars, wires(g), wires(g).len() as int)
    }
}

/// What is wrong with the first of the first `k` gates with which something is.
pub open spec fn gates_fault(vars: Seq<Seq<char>>, gs: Seq<Assignment>, k: int) -> Option<GateFault>
    decreases k,
{
    if k <= 0 {
        None
    } else {
        match gates_fault(vars, gs, k - 1) {
            Some(f) => Some(f),
            None => gate_fault(vars, gs[k - 1]),
        }
    }
}

/// The error that reports a fault.
pub open spec fn reports(e: CircuitError, f: GateFault) -> bool {
    match (e, f) {
        (CircuitError::UnknownVar(n), GateFault::UnknownVar(m)) => n@ == m,
        (CircuitError::BadOutputArity(a), GateFault::BadOutputArity(b)) => a == b,
        (CircuitError::ArityCap(a), GateFault::ArityCap(b)) => a == b,
        _ => false,
    }
}

/// The wire values that a gate reads under an assignment of the variables.
pub open spec fn read_wires(vars: Seq<Seq<char>>, a: Asg) -> Wires {
    |n: Seq<char>| last_named(vars, n) is Some && a(last_named(vars, n)->0)
}

/// The output of a gate has the value of its expression.
pub open spec fn gate_holds(vars: Seq<Seq<char>>, g: Assignment, a: Asg) -> bool {
    let out = g.outputs@[0]@;
    a(last_named(vars, out)->0) == value(g.expr, read_wires(vars, a))
}

/// The places of names.
pub open spec fn places(vars: Seq<Seq<char>>, ns: Seq<Seq<char>>) -> Seq<usize> {
    ns.map_values(|n: Seq<char>| last_named(vars, n)->0 as usize)
}

/// The constraint that a gate is: over its wires, true where it holds.
pub open spec fn is_gate(vars: Seq<Seq<char>>, g: Assignment, scope: Seq<usize>, rows: Seq<u32>) -> bool {
    &&& scope == places(vars, wires(g))
    &&& forall|a: Asg| #[trigger] network::rows_hold(scope, rows, a) <==> gate_holds(vars, g, a)
}

/// The network of the gates: one constraint for each.
pub open spec fn circuit_network(cn: ConstraintNetwork, vars: Seq<Seq<char>>, gs: Seq<Assignment>) -> bool {
    exists|given: Seq<(Vec<usize>, Vec<u32>)>|
        #![trigger network::assembles(cn, vars.len() as int, given)]
        network::assembles(cn, vars.len() as int, given) && given.len() == gs.len() && (forall|t: int| 0 <= t < given.len() ==> is_gate(vars, gs[t], (#[trigger] given[t]).0@, given[t].1@))
}

/// A circuit as a network, with its wire names in the order of the variables.
#[derive(Clone, Debug)]
pub struct CircuitProblem {
    pub network: ConstraintNetwork,
    pub variables: Vec<String>,
}

impl CircuitProblem {
    /// The network is over the variables.
    pub open spec fn wf(self) -> bool {
        &&& self.network.wf()
        &&& self.network.orig_to_new@.len() == self.variables@.len()
    }

    /// The place of a wire in a solution.
    pub open spec fn slot(self, name: Seq<char>) -> Option<usize> {
        match last_named(texts(self.variables@), name) {
            Some(o) => self.network.orig_to_new@[o],
            None => None,
        }
    }

    /// The value of a named wire in a solution. None where no gate names the wire or it is not
    /// fixed.
    pub fn wire_value(&self, solution: &[DomainMask], name: &str) -> (r: Option<bool>)
        requires
            self.wf(),
            solution@.len() == self.network.n(),
        ensures
            r == (match self.slot(name@) {
                Some(c) => if solution@[c as int] == DomainMask::D0 {
                    Some(false)
                } else if solution@[c as int] == DomainMask::D1 {
                    Some(true)
                } else {
                    None
                },
                None => None,
            }),
    {
        match find_last(&self.variables, name) {
            None => None,
            Some(o) => {
                proof {
                    lemma_last_named(texts(self.variables@), name@);
                    assert(network::compresses(self.network.orig_to_new@, self.network.n()));
                }
                match self.network.orig_to_new[o] {
                    None => None,
                    Some(c) => solution[c].value(),
                }
            },
        }
    }
}

pub proof fn lemma_last_named(vars: Seq<Seq<char>>, name: Seq<char>)
    ensures
        last_named(vars, name) matches Some(i) ==> 0 <= i < vars.len() && vars[i] == name && (forall|j: int| i < j < vars.len() ==> #[trigger] vars[j] != name),
        last_named(vars, name) is None <==> !vars.contains(name),
    decreases vars.len(),
{
    if vars.len() > 0 {
        lemma_last_named(vars.drop_last(), name);
        if vars.last() == name {
            assert(vars[vars.len() - 1] == name);
        } else {
            if vars.contains(name) {
                let i = vars.index_of(name);
                assert(vars.drop_last()[i] == name);
            }
            if let Some(i) = last_named(vars.drop_last(), name) {
                assert(vars[i] == name);
                assert forall|j: int| i < j < vars.len() implies #[trigger] vars[j] != name by {
                    if j < vars.len() - 1 {
                        assert(vars.drop_last()[j] == vars[j]);
                    }
                }
            }
        }
    }
}

/// The last place of a name.
pub(crate) fn find_last(vars: &Vec<String>, name: &str) -> (r: Option<usize>)
    ensures
        match r {
            Some(i) => last_named(texts(vars@), name@) == Some(i as int),
            None => last_named(texts(vars@), name@) is None,
        },
{
    let ghost vs = texts(vars@);
    let mut i: usize = vars.len();
    proof {
        seqs::lemma_take_all(vs);
    }
    while i > 0
        invariant
            vs == texts(vars@),
            i <= vars@.len(),
            last_named(vs, name@) == last_named(vs.take(i as int), name@),
        decreases i,
    {
        i -= 1;
        let ghost t = vs.take(i + 1);
        assert(t.last() == vars@[i as int]@);
        assert(t.drop_last() == vs.take(i as int));
        if text::same_text(vars[i].as_str(), name) {
            return Some(i);
        }
    }
    None
}

/// Whether the text is one of the list.
fn is_listed(list: &Vec<String>, name: &str) -> (r: bool)
    ensures
        r == texts(list@).contains(name@),
{
    let ghost ts = texts(list@);
    let mut i: usize = 0;
    while i < list.len()
        invariant
            ts == texts(list@),
            i <= list@.len(),
            forall|k: int| 0 <= k < i ==> #[trigger] ts[k] != name@,
        decreases list.len() - i,
    {
        assert(ts[i as int] == list@[i as int]@);
        if text::same_text(list[i].as_str(), name) {
            return true;
        }
        i += 1;
    }
    false
}

/// Collect the wire names of an expression behind those seen before, each once.
fn collect_vars(expr: &BooleanExpr, out: &mut Vec<String>)
    ensures
        texts(final(out)@) == names(*expr, texts(old(out)@)),
    decreases expr, 0int,
{
    match &expr.op {
        BooleanOp::Var(n) => {
            if !is_listed(out, n.as_str()) {
                let ghost o0 = out@;
                out.push(text::copy_text(n.as_str()));
                assert(texts(out@) =~= texts(o0).push(n@));
            }
        },
        BooleanOp::Const(_) => {},
        BooleanOp::Not(e) => {
            collect_vars(e, out);
        },
        BooleanOp::And(es) => {
            collect_all(es, out);
        },
        BooleanOp::Or(es) => {
            collect_all(es, out);
        },
        BooleanOp::Xor(es) => {
            collect_all(es, out);
        },
    }
}

/// Collect the wire names of the expressions.
fn collect_all(es: &Vec<BooleanExpr>, out: &mut Vec<String>)
    ensures
        texts(final(out)@) == names_of(es@, es@.len() as int, texts(old(out)@)),
    decreases es@, es@.len() + 1,
{
    let mut i: usize = 0;
    while i < es.len()
        invariant
            i <= es@.len(),
            texts(out@) == names_of(es@, i as int, texts(old(out)@)),
        decreases es.len() - i,
    {
        collect_vars(&es[i], out);
        i += 1;
    }
}

/// The wire values that a configuration of the inputs gives. Other names read as false.
spec fn config_wires(ins: Seq<Seq<char>>, config: u64) -> Wires {
    |n: Seq<char>| ins.contains(n) && bits::bit(config, ins.index_of(n))
}

/// No text twice.
spec fn no_repeat(ns: Seq<Seq<char>>) -> bool {
    forall|i: int, j: int| 0 <= i < j < ns.len() ==> ns[i] != ns[j]
}

/// The value of an expression where the inputs have the bits of the configuration.
fn eval(expr: &BooleanExpr, ins: &Vec<String>, config: u64) -> (r: bool)
    requires
        ins@.len() <= 32,
        no_repeat(texts(ins@)),
    ensures
        r == value(*expr, config_wires(texts(ins@), config)),
    decreases expr, 0int,
{
    let ghost w = config_wires(texts(ins@), config);
    match &expr.op {
        BooleanOp::Var(n) => {
            let ghost ts = texts(ins@);
            let mut i: usize = 0;
            while i < ins.len()
                invariant
                    ts == texts(ins@),
                    ins@.len() <= 32,
                    no_repeat(ts),
                    w == config_wires(ts, config),
                    i <= ins@.len(),
                    forall|k: int| 0 <= k < i ==> #[trigger] ts[k] != n@,
                    expr.op == BooleanOp::Var(*n),
                decreases ins.len() - i,
            {
                assert(ts[i as int] == ins@[i as int]@);
                if text::same_text(ins[i].as_str(), n.as_str()) {
                    assert(ts.contains(n@));
                    assert(ts.index_of(n@) == i) by {
                        assert(ts[ts.index_of(n@)] == n@);
                    }
                    return bits::get_bit(config, i);
                }
                i += 1;
            }
            false
        },
        BooleanOp::Const(b) => *b,
        BooleanOp::Not(e) => !eval(e, ins, config),
        BooleanOp::And(es) => all_of(es, ins, config),
        BooleanOp::Or(es) => any_of(es, ins, config),
        BooleanOp::Xor(es) => odd_of(es, ins, config),
    }
}

/// Whether all of the expressions are true.
fn all_of(es: &Vec<BooleanExpr>, ins: &Vec<String>, config: u64) -> (r: bool)
    requires
        ins@.len() <= 32,
        no_repeat(texts(ins@)),
    ensures
        r == every(es@, es@.len() as int, config_wires(texts(ins@), config)),
    decreases es@, es@.len() + 1,
{
    let ghost w = config_wires(texts(ins@), config);
    let mut i: usize = 0;
    while i < es.len()
        invariant
            ins@.len() <= 32,
            no_repeat(texts(ins@)),
            w == config_wires(texts(ins@), config),
            i <= es@.len(),
            every(es@, i as int, w),
        decreases es.len() - i,
    {
        if !eval(&es[i], ins, config) {
            proof {
                lemma_every_not(es@, i + 1, es@.len() as int, w);
            }
            return false;
        }
        i += 1;
    }
    true
}

/// Whether one of the expressions is true.
fn any_of(es: &Vec<BooleanExpr>, ins: &Vec<String>, config: u64) -> (r: bool)
    requires
        ins@.len() <= 32,
        no_repeat(texts(ins@)),
    ensures
        r == some(es@, es@.len() as int, config_wires(texts(ins@), config)),
    decreases es@, es@.len() + 1,
{
    let ghost w = config_wires(texts(ins@), config);
    let mut i: usize = 0;
    while i < es.len()
        invariant
            ins@.len() <= 32,
            no_repeat(texts(ins@)),
            w == config_wires(texts(ins@), config),
            i <= es@.len(),
            !some(es@, i as int, w),
        decreases es.len() - i,
    {
        if eval(&es[i], ins, config) {
            proof {
                lemma_some_yes(es@, i + 1, es@.len() as int, w);
            }
            return true;
        }
        i += 1;
    }
    false
}

/// Whether an odd number of the expressions is true.
fn odd_of(es: &Vec<BooleanExpr>, ins: &Vec<String>, config: u64) -> (r: bool)
    requires
        ins@.len() <= 32,
        no_repeat(texts(ins@)),
    ensures
        r == parity(es@, es@.len() as int, config_wires(texts(ins@), config)),
    decreases es@, es@.len() + 1,
{
    let ghost w = config_wires(texts(ins@), config);
    let mut odd = false;
    let mut i: usize = 0;
    while i < es.len()
        invariant
            ins@.len() <= 32,
            no_repeat(texts(ins@)),
            w == config_wires(texts(ins@), config),
            i <= es@.len(),
            odd == parity(es@, i as int, w),
        decreases es.len() - i,
    {
        let v = eval(&es[i], ins, config);
        odd = odd != v;
        i += 1;
    }
    odd
}

proof fn lemma_every_not(es: Seq<BooleanExpr>, k: int, n: int, w: Wires)
    requires
        0 <= k <= n <= es.len(),
        !every(es, k, w),
    ensures
        !every(es, n, w),
    decreases n,
{
    if k < n {
        lemma_every_not(es, k, n - 1, w);
    }
}

proof fn lemma_some_yes(es: Seq<BooleanExpr>, k: int, n: int, w: Wires)
    requires
        0 <= k <= n <= es.len(),
        some(es, k, w),
    ensures
        some(es, n, w),
    decreases n,
{
    if k < n {
        lemma_some_yes(es, k, n - 1, w);
    }
}

/// The longer list has all of the shorter one.
spec fn extends(short: Seq<Seq<char>>, long: Seq<Seq<char>>) -> bool {
    forall|n: Seq<char>| #[trigger] short.contains(n) ==> long.contains(n)
}

/// The wirings agree on the names.
spec fn same_on(ns: Seq<Seq<char>>, v: Wires, w: Wires) -> bool {
    forall|n: Seq<char>| #[trigger] ns.contains(n) ==> v(n) == w(n)
}

/// What was seen stays, and no name comes twice.
proof fn lemma_names_grow(e: BooleanExpr, seen: Seq<Seq<char>>)
    ensures
        extends(seen, names(e, seen)),
        no_repeat(seen) ==> no_repeat(names(e, seen)),
    decreases e, 0int,
{
    match e.op {
        BooleanOp::Var(n) => {
            seqs::lemma_push_contains(seen, n@);
            if !seen.contains(n@) && no_repeat(seen) {
                let s = seen.push(n@);
                assert forall|i: int, j: int| 0 <= i < j < s.len() implies s[i] != s[j] by {
                    assert(seen.contains(s[i]));
                }
            }
        },
        BooleanOp::Const(b) => {},
        BooleanOp::Not(x) => {
            lemma_names_grow(*x, seen);
        },
        BooleanOp::And(es) => {
            lemma_names_of_grow(es@, es@.len() as int, seen);
        },
        BooleanOp::Or(es) => {
            lemma_names_of_grow(es@, es@.len() as int, seen);
        },
        BooleanOp::Xor(es) => {
            lemma_names_of_grow(es@, es@.len() as int, seen);
        },
    }
}

proof fn lemma_names_of_grow(es: Seq<BooleanExpr>, k: int, seen: Seq<Seq<char>>)
    ensures
        extends(seen, names_of(es, k, seen)),
        no_repeat(seen) ==> no_repeat(names_of(es, k, seen)),
    decreases es, k,
{
    if 0 < k <= es.len() {
        lemma_names_of_grow(es, k - 1, seen);
        lemma_names_grow(es[k - 1], names_of(es, k - 1, seen));
    }
}

/// Two wirings that agree on the names of an expression give it one value.
proof fn lemma_value_same(e: BooleanExpr, seen: Seq<Seq<char>>, v: Wires, w: Wires)
    requires
        same_on(names(e, seen), v, w),
    ensures
        value(e, v) == value(e, w),
    decreases e, 0int,
{
    match e.op {
        BooleanOp::Var(n) => {
            seqs::lemma_push_contains(seen, n@);
            assert(names(e, seen).contains(n@));
        },
        BooleanOp::Const(b) => {},
        BooleanOp::Not(x) => {
            lemma_value_same(*x, seen, v, w);
        },
        BooleanOp::And(es) => {
            lemma_values_same(es@, es@.len() as int, seen, v, w);
        },
        BooleanOp::Or(es) => {
            lemma_values_same(es@, es@.len() as int, seen, v, w);
        },
        BooleanOp::Xor(es) => {
            lemma_values_same(es@, es@.len() as int, seen, v, w);
        },
    }
}

proof fn lemma_values_same(es: Seq<BooleanExpr>, k: int, seen: Seq<Seq<char>>, v: Wires, w: Wires)
    requires
        same_on(names_of(es, k, seen), v, w),
    ensures
        every(es, k, v) == every(es, k, w),
        some(es, k, v) == some(es, k, w),
        parity(es, k, v) == parity(es, k, w),
    decreases es, k,
{
    if 0 < k <= es.len() {
        let before = names_of(es, k - 1, seen);
        lemma_names_grow(es[k - 1], before);
        lemma_values_same(es, k - 1, seen, v, w);
        lemma_value_same(es[k - 1], before, v, w);
    }
}

/// The inputs of a gate.
fn gate_inputs(g: &Assignment) -> (r: Vec<String>)
    requires
        g.outputs@.len() == 1,
    ensures
        texts(r@) == inputs(*g),
        no_repeat(texts(r@)),
        forall|n: Seq<char>| #[trigger] names(g.expr, Seq::empty()).contains(n) && n != g.outputs@[0]@ ==> texts(r@).contains(n),
        !texts(r@).contains(g.outputs@[0]@),
{
    let mut all: Vec<String> = Vec::new();
    assert(texts(all@) =~= Seq::<Seq<char>>::empty());
    collect_vars(&g.expr, &mut all);
    let ghost ns = texts(all@);
    let ghost out = g.outputs@[0]@;
    let mut ins: Vec<String> = Vec::new();
    let mut i: usize = 0;
    proof {
        lemma_names_grow(g.expr, Seq::empty());
        reveal(Seq::filter);
        assert(ns.take(0).filter(other_than(out)) =~= Seq::<Seq<char>>::empty());
        assert(texts(ins@) =~= Seq::<Seq<char>>::empty());
    }
    while i < all.len()
        invariant
            ns == texts(all@),
            g.outputs@.len() == 1,
            out == g.outputs@[0]@,
            no_repeat(ns),
            i <= all@.len(),
            texts(ins@) == ns.take(i as int).filter(other_than(out)),
            no_repeat(texts(ins@)),
            forall|k: int| 0 <= k < ins@.len() ==> ns.take(i as int).contains(#[trigger] texts(ins@)[k]) && texts(ins@)[k] != out,
            forall|j: int| 0 <= j < i && #[trigger] ns[j] != out ==> texts(ins@).contains(ns[j]),
        decreases all.len() - i,
    {
        let ghost t0 = texts(ins@);
        let ghost i0 = ins@;
        proof {
            seqs::lemma_take_next(ns, i as int);
            reveal(Seq::filter);
        }
        assert(ns[i as int] == all@[i as int]@);
        if !text::same_text(all[i].as_str(), g.outputs[0].as_str()) {
            ins.push(text::copy_text(all[i].as_str()));
            proof {
                let t1 = texts(ins@);
                assert(t1 =~= t0.push(ns[i as int]));
                seqs::lemma_push_contains(t0, ns[i as int]);
                assert forall|k: int, l: int| 0 <= k < l < t1.len() implies t1[k] != t1[l] by {
                    assert(t1[k] == t0[k]);
                    if l == t0.len() {
                        assert(ns.take(i as int).contains(t0[k]));
                        let q = ns.take(i as int).index_of(t0[k]);
                        assert(ns[q] == t0[k]);
                    } else {
                        assert(t1[l] == t0[l]);
                    }
                }
                assert forall|k: int| 0 <= k < ins@.len() implies ns.take(i + 1).contains(#[trigger] texts(ins@)[k]) && texts(ins@)[k] != out by {
                    if k < t0.len() {
                        assert(t1[k] == t0[k]);
                    }
                }
            }
        }
        i += 1;
    }
    proof {
        seqs::lemma_take_all(ns);
        assert forall|n: Seq<char>| #[trigger] ns.contains(n) && n != out implies texts(ins@).contains(n) by {
            let j = ns.index_of(n);
            assert(ns[j] == n);
        }
    }
    ins
}

/// A table of a gate: over its wires, true where it holds.
spec fn table_is(vars: Seq<Seq<char>>, g: Assignment, scope: Seq<usize>, dense: Seq<bool>) -> bool {
    forall|c: int, a: Asg| 0 <= c < dense.len() && #[trigger] network::agrees(scope, c as u64, a) ==> (#[trigger] dense[c] <==> gate_holds(vars, g, a))
}

/// A gate over its variables, as a table.
fn gate_table(vars: &Vec<String>, g: &Assignment) -> (r: Result<(Vec<usize>, Vec<bool>), CircuitError>)
    ensures
        match r {
            Ok(t) => {
                &&& gate_fault(texts(vars@), *g) is None
                &&& t.0@ == places(texts(vars@), wires(*g))
                &&& network::dense_wf(vars@.len() as int, t.0@, t.1@)
                &&& table_is(texts(vars@), *g, t.0@, t.1@)
            },
            Err(e) => gate_fault(texts(vars@), *g) is Some && reports(e, gate_fault(texts(vars@), *g)->0),
        },
{
    let ghost vs = texts(vars@);
    if g.outputs.len() != 1 {
        return Err(CircuitError::BadOutputArity(g.outputs.len()));
    }
    let ghost out = g.outputs@[0]@;
    let ins = gate_inputs(g);
    let mut axes: Vec<usize> = Vec::new();
    let ghost ts = texts(ins@);
    let ghost ws = wires(*g);
    let n_in: usize = ins.len();
    assert(ws.len() == n_in + 1);
    assert forall|k: int| 0 <= k < n_in implies ws[k] == #[trigger] ts[k] by {}
    if n_in >= 32 {
        let mut all = ins;
        all.push(text::copy_text(g.outputs[0].as_str()));
        return Err(CircuitError::ArityCap(all.len()));
    }
    while axes.len() < n_in
        invariant
            vs == texts(vars@),
            ts == texts(ins@),
            n_in == ins@.len(),
            ws.len() == n_in + 1,
            forall|k: int| 0 <= k < n_in ==> ws[k] == #[trigger] ts[k],
            ws == wires(*g),
            g.outputs@.len() == 1,
            ws.len() <= 32,
            axes@.len() <= n_in,
            first_unknown(vs, ws, axes@.len() as int) is None,
            forall|k: int| 0 <= k < axes@.len() ==> last_named(vs, ws[k]) == Some(#[trigger] axes@[k] as int),
        decreases n_in - axes.len(),
    {
        let i: usize = axes.len();
        assert(ts[i as int] == ins@[i as int]@);
        match find_last(vars, ins[i].as_str()) {
            Some(o) => {
                axes.push(o);
            },
            None => {
                proof {
                    lemma_unknown_stays(vs, ws, i + 1, ws.len() as int);
                }
                return Err(CircuitError::UnknownVar(text::copy_text(ins[i].as_str())));
            },
        }
    }
    match find_last(vars, g.outputs[0].as_str()) {
        Some(o) => {
            axes.push(o);
        },
        None => {
            return Err(CircuitError::UnknownVar(text::copy_text(g.outputs[0].as_str())));
        },
    }
    let ghost sc = axes@;
    proof {
        assert(sc =~= places(vs, ws));
        assert forall|k: int| 0 <= k < sc.len() implies (#[trigger] sc[k]) < vars@.len() && vs[sc[k] as int] == ws[k] by {
            lemma_last_named(vs, ws[k]);
        }
        assert(network::distinct(sc)) by {
            assert forall|i: int, j: int| 0 <= i < j < sc.len() implies sc[i] != sc[j] by {
                assert(vs[sc[i] as int] == ws[i] && vs[sc[j] as int] == ws[j]);
                assert(ws[i] == ts[i]);
                assert(ts.contains(ts[i]));
                if j < n_in {
                    assert(ws[j] == ts[j]);
                }
            }
        }
        network::lemma_pow2_32(sc.len() as int);
    }
    let mut all = ins;
    all.push(text::copy_text(g.outputs[0].as_str()));
    proof {
        assert(texts(all@) =~= ws);
        assert(no_repeat(ws)) by {
            assert forall|i: int, j: int| 0 <= i < j < ws.len() implies ws[i] != ws[j] by {
                assert(ws[i] == ts[i]);
                assert(ts.contains(ts[i]));
                if j < n_in {
                    assert(ws[j] == ts[j]);
                }
            }
        }
    }
    let size: u64 = 1u64 << (axes.len() as u64);
    let mut dense: Vec<bool> = Vec::new();
    let mut config: u64 = 0;
    while config < size
        invariant
            ws == texts(all@),
            no_repeat(ws),
            n_in + 1 == all@.len(),
            n_in < 32,
            config <= size <= 0x1_0000_0000,
            dense@.len() == config,
            forall|c: int| 0 <= c < config ==> (#[trigger] dense@[c] <==> (bits::bit(c as u64, n_in as int) == value(g.expr, config_wires(ws, c as u64)))),
        decreases size - config,
    {
        let v = eval(&g.expr, &all, config);
        dense.push(bits::get_bit(config, n_in) == v);
        config += 1;
    }
    proof {
        assert forall|c: int, a: Asg| 0 <= c < dense@.len() && #[trigger] network::agrees(sc, c as u64, a) implies (#[trigger] dense@[c] <==> gate_holds(vs, *g, a)) by {
            let w1 = config_wires(ws, c as u64);
            let w2 = read_wires(vs, a);
            let ns = names(g.expr, Seq::empty());
            assert(bits::bit(c as u64, n_in as int) == a(sc[n_in as int] as int));
            assert forall|n: Seq<char>| #[trigger] ns.contains(n) implies w1(n) == w2(n) by {
                if n != out {
                    let q = ts.index_of(n);
                    assert(ts[q] == n);
                    assert(ws[q] == n);
                } else {
                    assert(ws[n_in as int] == n);
                }
                {
                    let k = ws.index_of(n);
                    assert(bits::bit(c as u64, k) == a(sc[k] as int));
                    assert(last_named(vs, ws[k]) == Some(sc[k] as int));
                }
            }
            lemma_value_same(g.expr, Seq::empty(), w1, w2);
            assert(last_named(vs, ws[n_in as int]) == Some(sc[n_in as int] as int));
        }
    }
    Ok((axes, dense))
}

proof fn lemma_unknown_stays(vars: Seq<Seq<char>>, ns: Seq<Seq<char>>, k: int, n: int)
    requires
        0 <= k <= n,
        first_unknown(vars, ns, k) is Some,
    ensures
        first_unknown(vars, ns, n) == first_unknown(vars, ns, k),
    decreases n,
{
    if k < n {
        lemma_unknown_stays(vars, ns, k, n - 1);
    }
}

proof fn lemma_gates_stop(vars: Seq<Seq<char>>, gs: Seq<Assignment>, k: int, n: int)
    requires
        0 <= k <= n,
        gates_fault(vars, gs, k) is Some,
    ensures
        gates_fault(vars, gs, n) == gates_fault(vars, gs, k),
    decreases n,
{
    if k < n {
        lemma_gates_stop(vars, gs, k, n - 1);
    }
}

/// The rows of a table of a gate.
proof fn lemma_gate_rows(vars: Seq<Seq<char>>, g: Assignment, scope: Seq<usize>, dense: Seq<bool>, rows: Seq<u32>)
    requires
        scope.len() <= 32,
        scope == places(vars, wires(g)),
        dense.len() == 1u64 << (scope.len() as u64),
        network::lists_true(rows, dense),
        table_is(vars, g, scope, dense),
    ensures
        is_gate(vars, g, scope, rows),
{
    network::lemma_pow2_32(scope.len() as int);
    assert forall|a: Asg| #[trigger] network::rows_hold(scope, rows, a) <==> gate_holds(vars, g, a) by {
        if network::rows_hold(scope, rows, a) {
            let k = choose|k: int| 0 <= k < rows.len() && network::agrees(scope, #[trigger] rows[k] as u64, a);
            let c = rows[k] as int;
            assert(dense[c]);
            assert(network::agrees(scope, c as u64, a));
        }
        if gate_holds(vars, g, a) {
            let c = counting::lemma_config(scope, a, scope.len() as int);
            bits::lemma_below_iff(c, scope.len() as u64);
            assert(network::agrees(scope, c as int as u64, a));
            assert(dense[c as int]);
            let k = rows.index_of(c as u32);
            assert(rows.contains(c as u32));
            assert(network::agrees(scope, rows[k] as u64, a));
        }
    }
}

/// Read a circuit as a network: each gate `out = expr(inputs..)` is one constraint over its
/// inputs and its output, true exactly where the output has the value of the expression. The
/// variables are those of the circuit, in their order.
pub fn network_from_circuit_sat(data: CircuitSatData) -> (r: Result<CircuitProblem, CircuitError>)
    ensures
        match (r, gates_fault(texts(data.variables@), data.circuit.assignments@, data.circuit.assignments@.len() as int)) {
            (Ok(p), None) => p.wf() && p.variables@ == data.variables@ && circuit_network(p.network, texts(data.variables@), data.circuit.assignments@),
            (Err(e), Some(f)) => reports(e, f),
            _ => false,
        },
{
    let ghost vs = texts(data.variables@);
    let ghost gs = data.circuit.assignments@;
    let n: usize = data.variables.len();
    let mut scopes: Vec<Vec<usize>> = Vec::new();
    let mut tables: Vec<Vec<bool>> = Vec::new();
    while scopes.len() < data.circuit.assignments.len()
        invariant
            vs == texts(data.variables@),
            gs == data.circuit.assignments@,
            n == data.variables@.len(),
            scopes@.len() <= gs.len(),
            tables@.len() == scopes@.len(),
            gates_fault(vs, gs, scopes@.len() as int) is None,
            forall|t: int| 0 <= t < scopes@.len() ==> network::dense_wf(n as int, (#[trigger] scopes@[t])@, tables@[t]@) && scopes@[t]@ == places(vs, wires(gs[t])) && table_is(vs, gs[t], scopes@[t]@, tables@[t]@),
        decreases data.circuit.assignments.len() - scopes.len(),
    {
        let t: usize = scopes.len();
        match gate_table(&data.variables, &data.circuit.assignments[t]) {
            Ok((scope, dense)) => {
                scopes.push(scope);
                tables.push(dense);
            },
            Err(e) => {
                proof {
                    lemma_gates_stop(vs, gs, t + 1, gs.len() as int);
                }
                return Err(e);
            },
        }
    }
    let ghost sc = scopes@;
    let ghost tb = tables@;
    let cn = setup_problem(n, scopes, tables);
    proof {
        let given = choose|given: Seq<(Vec<usize>, Vec<u32>)>|
            #![trigger network::assembles(cn, n as int, given)]
            network::assembles(cn, n as int, given) && given.len() == sc.len() && (forall|t: int| 0 <= t < given.len() ==> (#[trigger] given[t]).0@ == sc[t]@ && network::lists_true(given[t].1@, tb[t]@));
        assert forall|t: int| 0 <= t < given.len() implies is_gate(vs, gs[t], (#[trigger] given[t]).0@, given[t].1@) by {
            assert(network::dense_wf(n as int, sc[t]@, tb[t]@));
            lemma_gate_rows(vs, gs[t], given[t].0@, tb[t]@, given[t].1@);
        }
        assert(network::assembles(cn, vs.len() as int, given));
    }
    Ok(CircuitProblem { network: cn, variables: data.variables })
}

/// The network of a circuit has for models the assignments under which every gate holds.
pub proof fn law_circuit_models(cn: ConstraintNetwork, vars: Seq<Seq<char>>, gs: Seq<Assignment>, a: Asg)
    requires
        circuit_network(cn, vars, gs),
    ensures
        cn.model(network::pulled(cn.orig_to_new@, a)) <==> (forall|t: int| 0 <= t < gs.len() ==> gate_holds(vars, #[trigger] gs[t], a)),
{
    let given = choose|given: Seq<(Vec<usize>, Vec<u32>)>|
        #![trigger network::assembles(cn, vars.len() as int, given)]
        network::assembles(cn, vars.len() as int, given) && given.len() == gs.len() && (forall|t: int| 0 <= t < given.len() ==> is_gate(vars, gs[t], (#[trigger] given[t]).0@, given[t].1@));
    network::law_assemble_keeps_models(cn, vars.len() as int, given, a);
    if cn.model(network::pulled(cn.orig_to_new@, a)) {
        assert forall|t: int| 0 <= t < gs.len() implies gate_holds(vars, #[trigger] gs[t], a) by {
            assert(network::rows_hold(given[t].0@, given[t].1@, a));
        }
    }
    if forall|t: int| 0 <= t < gs.len() ==> gate_holds(vars, #[trigger] gs[t], a) {
        assert forall|t: int| 0 <= t < given.len() implies network::rows_hold((#[trigger] given[t]).0@, given[t].1@, a) by {
            assert(is_gate(vars, gs[t], given[t].0@, given[t].1@));
            assert(gate_holds(vars, gs[t], a));
        }
    }
}

} // verus!
