//! Solving a circuit with the default region branching strategy.

use crate::adapter::RuleSolver;
use crate::canonicalize;
use crate::circuit;
use crate::circuit::{network_from_circuit_sat, Assignment, CircuitError, CircuitProblem, CircuitSatData};
use crate::domain::{Asg, DomainMask};
use crate::measure::Measure;
use crate::models;
use crate::network;
use crate::network::ConstraintNetwork;
use crate::problem;
use crate::problem::TnProblem;
use crate::selector::Selector;
use crate::solver::bbsat;
use crate::text;
use vstd::prelude::*;

verus! {

/// How many rows a region of the default strategy may have.
pub const DEFAULT_MAX_ROWS: usize = 512;

/// Whether the circuit is satisfiable, and if so, values of its named wires in the order of
/// the variables.
#[derive(Clone, Debug, PartialEq, Eq)]
pub enum Solution {
    Sat(Vec<(String, bool)>),
    Unsat,
}

/// The places, below `k`, of the names: of a repeated name the last.
pub open spec fn name_places(vars: Seq<Seq<char>>, k: int) -> Seq<int>
    decreases k,
{
    if k <= 0 {
        Seq::empty()
    } else if circuit::last_named(vars, vars[k - 1]) == Some(k - 1) {
        name_places(vars, k - 1).push(k - 1)
    } else {
        name_places(vars, k - 1)
    }
}

/// A gate names the wire at the place.
pub open spec fn on_a_gate(vars: Seq<Seq<char>>, gs: Seq<Assignment>, place: int) -> bool {
    exists|t: int| 0 <= t < gs.len() && circuit::places(vars, circuit::wires(#[trigger] gs[t])).contains(place as usize)
}

/// Every gate holds.
pub open spec fn satisfies(vars: Seq<Seq<char>>, gs: Seq<Assignment>, a: Asg) -> bool {
    forall|t: int| 0 <= t < gs.len() ==> circuit::gate_holds(vars, #[trigger] gs[t], a)
}

/// The list names each wire once, in the order of the variables, with its value under the
/// assignment, and a wire that no gate names with false.
pub open spec fn lists(vars: Seq<Seq<char>>, gs: Seq<Assignment>, list: Seq<(String, bool)>, a: Asg) -> bool {
    let at = name_places(vars, vars.len() as int);
    &&& list.len() == at.len()
    &&& forall|j: int| 0 <= j < list.len() ==> (#[trigger] list[j]).0@ == vars[at[j]] && list[j].1 == a(at[j]) && (!on_a_gate(vars, gs, at[j]) ==> !list[j].1)
}

/// The assignment of the variables that a solution of the network is.
spec fn read_back(map: Seq<Option<usize>>, solution: Seq<DomainMask>) -> Asg {
    |o: int| 0 <= o < map.len() && map[o] is Some && solution[map[o]->0 as int] == DomainMask::D1
}

proof fn lemma_name_places(vars: Seq<Seq<char>>, k: int)
    ensures
        forall|j: int| 0 <= j < name_places(vars, k).len() ==> 0 <= #[trigger] name_places(vars, k)[j] < k,
    decreases k,
{
    if k > 0 {
        lemma_name_places(vars, k - 1);
        let before = name_places(vars, k - 1);
        assert forall|j: int| 0 <= j < name_places(vars, k).len() implies 0 <= #[trigger] name_places(vars, k)[j] < k by {
            if j < before.len() {
                assert(name_places(vars, k)[j] == before[j]);
            }
        }
    }
}

/// The wires that the network keeps are those of the gates.
proof fn lemma_on_gates(cn: ConstraintNetwork, vars: Seq<Seq<char>>, gs: Seq<Assignment>)
    requires
        circuit::circuit_network(cn, vars, gs),
    ensures
        cn.orig_to_new@.len() == vars.len(),
        forall|p: int| 0 <= p < vars.len() && (#[trigger] cn.orig_to_new@[p]) is Some ==> on_a_gate(vars, gs, p),
{
    let given = choose|given: Seq<(Vec<usize>, Vec<u32>)>|
        #![trigger network::assembles(cn, vars.len() as int, given)]
        network::assembles(cn, vars.len() as int, given) && given.len() == gs.len() && (forall|t: int| 0 <= t < given.len() ==> circuit::is_gate(vars, gs[t], (#[trigger] given[t]).0@, given[t].1@));
    assert forall|p: int| 0 <= p < vars.len() && (#[trigger] cn.orig_to_new@[p]) is Some implies on_a_gate(vars, gs, p) by {
        assert(network::mentioned(given, p));
        let t = choose|t: int| 0 <= t < given.len() && (#[trigger] given[t]).0@.contains(p as usize);
        assert(circuit::is_gate(vars, gs[t], given[t].0@, given[t].1@));
        assert(circuit::places(vars, circuit::wires(gs[t])).contains(p as usize));
    }
}

/// A solution of the network satisfies the gates.
proof fn lemma_read_back(cn: ConstraintNetwork, vars: Seq<Seq<char>>, gs: Seq<Assignment>, sol: Seq<DomainMask>)
    requires
        cn.wf(),
        circuit::circuit_network(cn, vars, gs),
        sol.len() == cn.n(),
        cn.model(canonicalize::decided(sol)),
    ensures
        satisfies(vars, gs, read_back(cn.orig_to_new@, sol)),
{
    let map = cn.orig_to_new@;
    let a = read_back(map, sol);
    assert(network::compresses(map, cn.n()));
    assert(cn.vars.len() == cn.n());
    assert forall|k: int| 0 <= k < cn.n() implies #[trigger] canonicalize::decided(sol)(k) == network::pulled(map, a)(k) by {
        assert(network::has_original(map, k));
        let u = choose|u: int| 0 <= u < map.len() && #[trigger] map[u] == Some(k as usize);
        assert(map[u]->0 == k);
    }
    canonicalize::lemma_model_same(cn, canonicalize::decided(sol), network::pulled(map, a));
    circuit::law_circuit_models(cn, vars, gs, a);
}

/// No model within the propagated domains: the gates cannot all hold.
proof fn lemma_unsat(cn: ConstraintNetwork, vars: Seq<Seq<char>>, gs: Seq<Assignment>, d: Seq<DomainMask>, a: Asg)
    requires
        cn.wf(),
        circuit::circuit_network(cn, vars, gs),
        models::carries(cn, problem::top(cn.n()), d, Seq::empty()),
        !models::satisfiable(cn, d),
    ensures
        !satisfies(vars, gs, a),
{
    if satisfies(vars, gs, a) {
        let h = network::pulled(cn.orig_to_new@, a);
        circuit::law_circuit_models(cn, vars, gs, a);
        assert(cn.model(h));
        assert(models::consistent(problem::top(cn.n()), h));
        assert(models::satisfiable(cn, problem::top(cn.n())));
        models::lemma_carries_satisfiable(cn, problem::top(cn.n()), d);
    }
}

/// The names with the values that a solution gives them.
fn named_values(variables: &Vec<String>, map: &Vec<Option<usize>>, solution: &Vec<DomainMask>) -> (r: Vec<(String, bool)>)
    requires
        map@.len() == variables@.len(),
        network::compresses(map@, solution@.len() as int),
    ensures
        ({
            let vars = circuit::texts(variables@);
            let at = name_places(vars, vars.len() as int);
            &&& r@.len() == at.len()
            &&& forall|j: int| 0 <= j < r@.len() ==> (#[trigger] r@[j]).0@ == vars[at[j]] && r@[j].1 == read_back(map@, solution@)(at[j])
        }),
{
    let ghost vars = circuit::texts(variables@);
    let ghost a = read_back(map@, solution@);
    let mut list: Vec<(String, bool)> = Vec::new();
    let mut o: usize = 0;
    while o < variables.len()
        invariant
            o <= variables@.len(),
            vars == circuit::texts(variables@),
            vars.len() == variables@.len(),
            map@.len() == vars.len(),
            network::compresses(map@, solution@.len() as int),
            a == read_back(map@, solution@),
            list@.len() == name_places(vars, o as int).len(),
            forall|j: int| 0 <= j < list@.len() ==> (#[trigger] list@[j]).0@ == vars[name_places(vars, o as int)[j]] && list@[j].1 == a(name_places(vars, o as int)[j]),
        decreases variables.len() - o,
    {
        assert(vars[o as int] == variables@[o as int]@);
        let last = match circuit::find_last(variables, variables[o].as_str()) {
            Some(i) => i == o,
            None => false,
        };
        if last {
            let value = match map[o] {
                Some(c) => match solution[c].value() {
                    Some(b) => b,
                    None => false,
                },
                None => false,
            };
            list.push((text::copy_text(variables[o].as_str()), value));
        }
        o += 1;
    }
    list
}

/// Solve a circuit: region branching on the variable with the most occurrences, measured by
/// the open variables, with the given rule solver.
pub fn solve_circuit_sat<S: RuleSolver>(data: CircuitSatData, solver: &S) -> (r: Result<Solution, CircuitError>)
    ensures
        ({
            let vars = circuit::texts(data.variables@);
            let gs = data.circuit.assignments@;
            match (r, circuit::gates_fault(vars, gs, gs.len() as int)) {
                (Ok(Solution::Sat(list)), None) => exists|a: Asg| #[trigger] satisfies(vars, gs, a) && lists(vars, gs, list@, a),
                (Ok(Solution::Unsat), None) => forall|a: Asg| !#[trigger] satisfies(vars, gs, a),
                (Err(e), Some(f)) => circuit::reports(e, f),
                _ => false,
            }
        }),
{
    let ghost vars = circuit::texts(data.variables@);
    let ghost gs = data.circuit.assignments@;
    let cp = match network_from_circuit_sat(data) {
        Ok(cp) => cp,
        Err(e) => {
            return Err(e);
        },
    };
    let CircuitProblem { network, variables } = cp;
    let ghost cn = network;
    let mut problem = match TnProblem::from_network(network) {
        Ok(p) => p,
        Err(_) => {
            proof {
                assert forall|a: Asg| !#[trigger] satisfies(vars, gs, a) by {
                    circuit::law_circuit_models(cn, vars, gs, a);
                }
            }
            return Ok(Solution::Unsat);
        },
    };
    let ghost d0 = problem.doms@;
    let result = bbsat(&mut problem, Selector::MostOccurrence { max_rows: DEFAULT_MAX_ROWS }, Measure::NumUnfixedVars, solver);
    if !result.found {
        proof {
            assert forall|a: Asg| !#[trigger] satisfies(vars, gs, a) by {
                lemma_unsat(cn, vars, gs, d0, a);
            }
        }
        return Ok(Solution::Unsat);
    }
    let ghost map = cn.orig_to_new@;
    let ghost sol = result.solution@;
    let ghost a = read_back(map, sol);
    proof {
        assert(network::compresses(map, cn.n()));
        lemma_read_back(cn, vars, gs, sol);
    }
    let list = named_values(&variables, &problem.static_cn.orig_to_new, &result.solution);
    proof {
        let at = name_places(vars, vars.len() as int);
        lemma_name_places(vars, vars.len() as int);
        lemma_on_gates(cn, vars, gs);
        assert forall|j: int| 0 <= j < list@.len() implies (#[trigger] list@[j]).0@ == vars[at[j]] && list@[j].1 == a(at[j]) && (!on_a_gate(vars, gs, at[j]) ==> !list@[j].1) by {
            assert(at[j] < map.len());
            assert(map[at[j]] is Some ==> on_a_gate(vars, gs, at[j]));
        }
    }
    assert(lists(vars, gs, list@, a));
    Ok(Solution::Sat(list))
}

} // verus!
