//! Propagation by a companion solver that works on a CNF: which assumptions it is asked, and
//! how its answer is laid over the domains. The solver itself stays outside.
use vstd::prelude::*;

use crate::adapter::Clause;
use crate::cube;
use crate::domain::{fixed_domain, Asg, DomainMask};
use crate::models;
use crate::network::ConstraintNetwork;
use crate::problem;

verus! {

/// Counters of the companion.
#[derive(Clone, Copy, Debug, PartialEq, Eq, Structural)]
pub struct CdclStats {
    /// Queries.
    pub propagation_calls: u64,
    /// Queries whose assumptions were refuted.
    pub propagation_conflicts: u64,
    /// Assumptions over all queries.
    pub assumption_literals: u64,
    /// Full searches: always zero.
    pub full_search_calls: u64,
    pub conflicts: u64,
    pub decisions: u64,
    pub propagations: u64,
    /// Clauses learned.
    pub total_learned_clauses: u64,
    /// Learned clauses that are still kept.
    pub current_redundant_clauses: usize,
}

impl CdclStats {
    /// All zero.
    pub fn new() -> (r: CdclStats)
        ensures
            r.propagation_calls == 0,
            r.propagation_conflicts == 0,
            r.assumption_literals == 0,
            r.full_search_calls == 0,
            r.conflicts == 0,
            r.decisions == 0,
            r.propagations == 0,
            r.total_learned_clauses == 0,
            r.current_redundant_clauses == 0,
    {
        CdclStats {
            propagation_calls: 0,
            propagation_conflicts: 0,
            assumption_literals: 0,
            full_search_calls: 0,
            conflicts: 0,
            decisions: 0,
            propagations: 0,
            total_learned_clauses: 0,
            current_redundant_clauses: 0,
        }
    }

    /// Count a query with that many assumptions.
    pub fn record_query(&mut self, assumptions: usize, conflict: bool)
        ensures
            *final(self) == (CdclStats {
                propagation_calls: problem::capped_sum(old(self).propagation_calls, 1),
                propagation_conflicts: problem::capped_sum(old(self).propagation_conflicts, if conflict {
                    1
                } else {
                    0
                }),
                assumption_literals: problem::capped_sum(old(self).assumption_literals, assumptions as u64),
                ..*old(self)
            }),
    {
        self.propagation_calls = self.propagation_calls.saturating_add(1);
        if conflict {
            self.propagation_conflicts = self.propagation_conflicts.saturating_add(1);
        }
        self.assumption_literals = self.assumption_literals.saturating_add(assumptions as u64);
    }
}

/// What is wrong with a map or a query.
#[derive(Clone, Copy, Debug, PartialEq, Eq, Structural)]
pub enum CdclError {
    /// A CNF variable over the limit.
    TooLarge(usize),
    /// Two variables with that CNF variable.
    Duplicate(usize),
    /// Domains of that length, for a map of that length.
    Length(usize, usize),
    /// A decided variable without a domain.
    OutOfRange(usize),
}

/// Which CNF variable stands for each variable, and the other way round.
pub struct VarMap {
    pub native_to_cnf: Vec<usize>,
    pub cnf_to_native: Vec<Option<usize>>,
}

/// `var` occurs among the first `upto`.
pub open spec fn used(vars: Seq<usize>, upto: int, var: usize) -> bool {
    exists|j: int| 0 <= j < upto && #[trigger] vars[j] == var
}

/// The entry at `i` is over the limit or repeats an earlier one.
pub open spec fn bad_entry(vars: Seq<usize>, max_idx: usize, i: int) -> bool {
    vars[i] > max_idx || used(vars, i, vars[i])
}

/// The error of the first bad entry is `e`.
pub open spec fn first_bad(vars: Seq<usize>, max_idx: usize, e: CdclError) -> bool {
    exists|i: int|
        0 <= i < vars.len() && #[trigger] bad_entry(vars, max_idx, i) && (forall|j: int| 0 <= j < i ==> !#[trigger] bad_entry(vars, max_idx, j)) && e == (if vars[i] > max_idx {
            CdclError::TooLarge(vars[i])
        } else {
            CdclError::Duplicate(vars[i])
        })
}

impl VarMap {
    /// The two directions agree.
    pub open spec fn wf(self) -> bool {
        &&& forall|v: int| 0 <= v < self.native_to_cnf@.len() ==> (#[trigger] self.native_to_cnf@[v]) < self.cnf_to_native@.len() && self.cnf_to_native@[self.native_to_cnf@[v] as int] == Some(v as usize)
        &&& forall|c: int| 0 <= c < self.cnf_to_native@.len() && (#[trigger] self.cnf_to_native@[c]) is Some ==> self.cnf_to_native@[c]->0 < self.native_to_cnf@.len() && self.native_to_cnf@[self.cnf_to_native@[c]->0 as int] == c
    }

    /// Check a map into a CNF with `formula_vars` variables, whose variables may not exceed
    /// `max_idx`.
    pub fn new(native_to_cnf: Vec<usize>, formula_vars: usize, max_idx: usize) -> (r: Result<VarMap, CdclError>)
        requires
            max_idx < usize::MAX,
        ensures
            match r {
                Ok(map) => map.wf() && map.native_to_cnf == native_to_cnf && map.cnf_to_native@.len() >= formula_vars && (forall|i: int| 0 <= i < native_to_cnf@.len() ==> !#[trigger] bad_entry(native_to_cnf@, max_idx, i)),
                Err(e) => first_bad(native_to_cnf@, max_idx, e),
            },
    {
        let mut cnf_to_native: Vec<Option<usize>> = Vec::new();
        while cnf_to_native.len() < formula_vars
            invariant
                cnf_to_native@.len() <= formula_vars,
                forall|c: int| 0 <= c < cnf_to_native@.len() ==> (#[trigger] cnf_to_native@[c]) is None,
            decreases formula_vars - cnf_to_native.len(),
        {
            cnf_to_native.push(None);
        }
        let mut i: usize = 0;
        while i < native_to_cnf.len()
            invariant
                max_idx < usize::MAX,
                i <= native_to_cnf@.len(),
                cnf_to_native@.len() >= formula_vars,
                forall|j: int| 0 <= j < i ==> !#[trigger] bad_entry(native_to_cnf@, max_idx, j),
                forall|v: int| 0 <= v < i ==> (#[trigger] native_to_cnf@[v]) < cnf_to_native@.len() && cnf_to_native@[native_to_cnf@[v] as int] == Some(v as usize),
                forall|c: int| 0 <= c < cnf_to_native@.len() && (#[trigger] cnf_to_native@[c]) is Some ==> cnf_to_native@[c]->0 < i && native_to_cnf@[cnf_to_native@[c]->0 as int] == c,
            decreases native_to_cnf.len() - i,
        {
            let var: usize = native_to_cnf[i];
            if var > max_idx {
                assert(bad_entry(native_to_cnf@, max_idx, i as int));
                return Err(CdclError::TooLarge(var));
            }
            if var < cnf_to_native.len() && cnf_to_native[var].is_some() {
                proof {
                    let q = cnf_to_native@[var as int]->0 as int;
                    assert(native_to_cnf@[q] == var);
                    assert(used(native_to_cnf@, i as int, var));
                    assert(bad_entry(native_to_cnf@, max_idx, i as int));
                }
                return Err(CdclError::Duplicate(var));
            }
            while cnf_to_native.len() <= var
                invariant
                    var < usize::MAX,
                    i < native_to_cnf@.len(),
                    cnf_to_native@.len() >= formula_vars,
                    var < cnf_to_native@.len() ==> cnf_to_native@[var as int] is None,
                    forall|v: int| 0 <= v < i ==> (#[trigger] native_to_cnf@[v]) < cnf_to_native@.len() && cnf_to_native@[native_to_cnf@[v] as int] == Some(v as usize),
                    forall|c: int| 0 <= c < cnf_to_native@.len() && (#[trigger] cnf_to_native@[c]) is Some ==> cnf_to_native@[c]->0 < i && native_to_cnf@[cnf_to_native@[c]->0 as int] == c,
                decreases var + 1 - cnf_to_native.len(),
            {
                cnf_to_native.push(None);
            }
            proof {
                assert(!used(native_to_cnf@, i as int, var)) by {
                    if used(native_to_cnf@, i as int, var) {
                        let j = choose|j: int| 0 <= j < i && #[trigger] native_to_cnf@[j] == var;
                        assert(cnf_to_native@[native_to_cnf@[j] as int] is Some);
                    }
                }
            }
            let ghost before = cnf_to_native@;
            cnf_to_native.set(var, Some(i));
            proof {
                assert forall|v: int| 0 <= v < i + 1 implies (#[trigger] native_to_cnf@[v]) < cnf_to_native@.len() && cnf_to_native@[native_to_cnf@[v] as int] == Some(v as usize) by {
                    if v < i {
                        assert(before[native_to_cnf@[v] as int] == Some(v as usize));
                        assert(native_to_cnf@[v] != var);
                    }
                }
                assert forall|c: int| 0 <= c < cnf_to_native@.len() && (#[trigger] cnf_to_native@[c]) is Some implies cnf_to_native@[c]->0 < i + 1 && native_to_cnf@[cnf_to_native@[c]->0 as int] == c by {
                    if c != var {
                        assert(before[c] is Some);
                    }
                }
                assert(!bad_entry(native_to_cnf@, max_idx, i as int));
            }
            i += 1;
        }
        Ok(VarMap { native_to_cnf, cnf_to_native })
    }
}

/// The domains with a decision written in.
pub open spec fn decide(d: Seq<DomainMask>, x: (usize, bool)) -> Seq<DomainMask> {
    d.update(x.0 as int, DomainMask::only(x.1))
}

/// The domains with the first `k` decisions written in.
pub open spec fn with_decisions(d: Seq<DomainMask>, dec: Seq<(usize, bool)>, k: int) -> Seq<DomainMask>
    decreases k,
{
    if k <= 0 {
        d
    } else {
        decide(with_decisions(d, dec, k - 1), dec[k - 1])
    }
}

/// The decision at `k` is in range and agrees with the domains after those before it.
pub open spec fn fits(d: Seq<DomainMask>, dec: Seq<(usize, bool)>, k: int) -> bool {
    let now = with_decisions(d, dec, k);
    dec[k].0 < d.len() && (now[dec[k].0 as int] == DomainMask::BOTH || now[dec[k].0 as int] == DomainMask::only(dec[k].1))
}

/// The decision at `k` is the first that does not fit.
pub open spec fn first_misfit(d: Seq<DomainMask>, dec: Seq<(usize, bool)>, k: int) -> bool {
    &&& 0 <= k < dec.len()
    &&& !fits(d, dec, k)
    &&& forall|j: int| 0 <= j < k ==> #[trigger] fits(d, dec, j)
}

/// All decisions fit.
pub open spec fn all_fit(d: Seq<DomainMask>, dec: Seq<(usize, bool)>) -> bool {
    forall|j: int| 0 <= j < dec.len() ==> #[trigger] fits(d, dec, j)
}

/// The domains marked as contradictory.
pub open spec fn contradicted(d: Seq<DomainMask>) -> Seq<DomainMask> {
    if d.len() > 0 {
        d.update(0, DomainMask::NONE)
    } else {
        d
    }
}

fn mark_conflict(doms: &mut Vec<DomainMask>)
    ensures
        final(doms)@ == contradicted(old(doms)@),
{
    if doms.len() > 0 {
        doms.set(0, DomainMask::NONE);
    }
}

/// What to do about a query: nothing, as the decisions contradict the domains, or to ask.
pub enum Query {
    Conflict(Vec<DomainMask>),
    Ask {
        /// The domains with the decisions.
        snapshot: Vec<DomainMask>,
        /// The decided values of CNF variables.
        assumptions: Vec<(usize, bool)>,
    },
}

proof fn lemma_with_decisions_len(d: Seq<DomainMask>, dec: Seq<(usize, bool)>, k: int)
    requires
        0 <= k <= dec.len(),
        forall|i: int| 0 <= i < dec.len() ==> (#[trigger] dec[i]).0 < d.len(),
    ensures
        with_decisions(d, dec, k).len() == d.len(),
    decreases k,
{
    if k > 0 {
        lemma_with_decisions_len(d, dec, k - 1);
    }
}

/// Prepare a query: only the decisions are assumed, not what the domains have fixed besides.
pub fn prepare(map: &VarMap, base: &[DomainMask], decisions: &[(usize, bool)]) -> (r: Result<Query, CdclError>)
    requires
        map.wf(),
    ensures
        match r {
            Err(CdclError::Length(n, m)) => n == base@.len() && m == map.native_to_cnf@.len() && n != m,
            Err(CdclError::OutOfRange(v)) => base@.len() == map.native_to_cnf@.len() && exists|k: int| #[trigger] first_misfit(base@, decisions@, k) && v == decisions@[k].0 && v >= base@.len(),
            Err(_) => false,
            Ok(Query::Conflict(d)) => base@.len() == map.native_to_cnf@.len() && exists|k: int| #[trigger] first_misfit(base@, decisions@, k) && decisions@[k].0 < base@.len() && d@ == contradicted(with_decisions(base@, decisions@, k)),
            Ok(Query::Ask { snapshot, assumptions }) => {
                &&& base@.len() == map.native_to_cnf@.len()
                &&& all_fit(base@, decisions@)
                &&& snapshot@ == with_decisions(base@, decisions@, decisions@.len() as int)
                &&& assumptions@ == decisions@.map_values(|x: (usize, bool)| (map.native_to_cnf@[x.0 as int], x.1))
            },
        },
{
    if base.len() != map.native_to_cnf.len() {
        return Err(CdclError::Length(base.len(), map.native_to_cnf.len()));
    }
    let mut snapshot: Vec<DomainMask> = Vec::new();
    let mut v: usize = 0;
    while v < base.len()
        invariant
            v <= base@.len(),
            snapshot@ == base@.take(v as int),
        decreases base.len() - v,
    {
        snapshot.push(base[v]);
        assert(base@.take(v + 1) =~= base@.take(v as int).push(base@[v as int]));
        v += 1;
    }
    assert(base@.take(base@.len() as int) =~= base@);
    let ghost to_cnf = |x: (usize, bool)| (map.native_to_cnf@[x.0 as int], x.1);
    let mut assumptions: Vec<(usize, bool)> = Vec::new();
    let mut k: usize = 0;
    while k < decisions.len()
        invariant
            map.wf(),
            base@.len() == map.native_to_cnf@.len(),
            to_cnf == (|x: (usize, bool)| (map.native_to_cnf@[x.0 as int], x.1)),
            k <= decisions@.len(),
            snapshot@ == with_decisions(base@, decisions@, k as int),
            snapshot@.len() == base@.len(),
            forall|j: int| 0 <= j < k ==> #[trigger] fits(base@, decisions@, j),
            assumptions@ == decisions@.take(k as int).map_values(to_cnf),
        decreases decisions.len() - k,
    {
        let (var, value) = decisions[k];
        if var >= snapshot.len() {
            assert(first_misfit(base@, decisions@, k as int));
            return Err(CdclError::OutOfRange(var));
        }
        let requested = fixed_domain(value);
        if snapshot[var] == DomainMask::BOTH || snapshot[var] == requested {
            snapshot.set(var, requested);
        } else {
            assert(first_misfit(base@, decisions@, k as int));
            mark_conflict(&mut snapshot);
            return Ok(Query::Conflict(snapshot));
        }
        assumptions.push((map.native_to_cnf[var], value));
        proof {
            assert(fits(base@, decisions@, k as int));
            assert(assumptions@ =~= decisions@.take(k + 1).map_values(to_cnf));
        }
        k += 1;
    }
    assert(decisions@.take(decisions@.len() as int) =~= decisions@);
    Ok(Query::Ask { snapshot, assumptions })
}

/// The decisions with those of a clause.
pub fn clause_query(prefix: &[(usize, bool)], clause: &Clause, variables: &[usize]) -> (r: Vec<(usize, bool)>)
    requires
        variables@.len() <= 64,
    ensures
        r@ == cube::child_dec(prefix@, variables@, *clause),
{
    let mut out: Vec<(usize, bool)> = Vec::new();
    let mut i: usize = 0;
    while i < prefix.len()
        invariant
            i <= prefix@.len(),
            out@ == prefix@.take(i as int),
        decreases prefix.len() - i,
    {
        out.push(prefix[i]);
        assert(prefix@.take(i + 1) =~= prefix@.take(i as int).push(prefix@[i as int]));
        i += 1;
    }
    assert(prefix@.take(prefix@.len() as int) =~= prefix@);
    cube::push_decisions(&mut out, variables, clause.mask, clause.val);
    out
}

/// What the solver answered: whether the assumptions are refuted, the value of each variable
/// that has one, and the CNF variables on its trail.
pub struct Answer {
    pub conflict: bool,
    pub values: Vec<Option<bool>>,
    pub propagated: Vec<(usize, bool)>,
}

/// Implied values in the order in which they are laid over the domains: the values, and the
/// trail where its variables are known.
pub open spec fn implied(map: VarMap, answer: Answer) -> Seq<(usize, bool)> {
    of_values(answer.values@, answer.values@.len() as int) + of_trail(map, answer.propagated@, answer.propagated@.len() as int)
}

pub open spec fn of_values(values: Seq<Option<bool>>, upto: int) -> Seq<(usize, bool)>
    decreases upto,
{
    if upto <= 0 {
        Seq::empty()
    } else {
        match values[upto - 1] {
            Some(b) => of_values(values, upto - 1).push(((upto - 1) as usize, b)),
            None => of_values(values, upto - 1),
        }
    }
}

pub open spec fn of_trail(map: VarMap, lits: Seq<(usize, bool)>, upto: int) -> Seq<(usize, bool)>
    decreases upto,
{
    if upto <= 0 {
        Seq::empty()
    } else {
        let x = lits[upto - 1];
        if x.0 < map.cnf_to_native@.len() && map.cnf_to_native@[x.0 as int] is Some {
            of_trail(map, lits, upto - 1).push((map.cnf_to_native@[x.0 as int]->0, x.1))
        } else {
            of_trail(map, lits, upto - 1)
        }
    }
}

/// Lay implied values over the domains: contradicted on a conflict, or at the first that does
/// not fit.
pub open spec fn laid_over(snapshot: Seq<DomainMask>, conflict: bool, values: Seq<(usize, bool)>, r: Seq<DomainMask>) -> bool {
    if conflict {
        r == contradicted(snapshot)
    } else if all_fit(snapshot, values) {
        r == with_decisions(snapshot, values, values.len() as int)
    } else {
        exists|k: int| #[trigger] first_misfit(snapshot, values, k) && r == contradicted(with_decisions(snapshot, values, k))
    }
}

proof fn lemma_fits_prefix(d: Seq<DomainMask>, s: Seq<(usize, bool)>, t: Seq<(usize, bool)>, k: int)
    requires
        0 <= k <= s.len() <= t.len(),
        t.take(s.len() as int) == s,
    ensures
        with_decisions(d, t, k) == with_decisions(d, s, k),
        k < s.len() ==> fits(d, t, k) == fits(d, s, k),
    decreases k,
{
    if k < s.len() {
        assert(t[k] == t.take(s.len() as int)[k]);
    }
    if k > 0 {
        lemma_fits_prefix(d, s, t, k - 1);
        assert(t[k - 1] == t.take(s.len() as int)[k - 1]);
    }
}

proof fn lemma_trail_grows(map: VarMap, lits: Seq<(usize, bool)>, j: int, k: int)
    requires
        0 <= j <= k,
    ensures
        of_trail(map, lits, j).len() <= of_trail(map, lits, k).len(),
        of_trail(map, lits, k).take(of_trail(map, lits, j).len() as int) == of_trail(map, lits, j),
    decreases k,
{
    let s = of_trail(map, lits, j);
    if j < k {
        lemma_trail_grows(map, lits, j, k - 1);
        let t = of_trail(map, lits, k - 1);
        assert(of_trail(map, lits, k).take(s.len() as int) =~= t.take(s.len() as int));
    } else {
        assert(s.take(s.len() as int) =~= s);
    }
}

proof fn lemma_values_grow(values: Seq<Option<bool>>, j: int, k: int)
    requires
        0 <= j <= k,
    ensures
        of_values(values, j).len() <= of_values(values, k).len(),
        of_values(values, k).take(of_values(values, j).len() as int) == of_values(values, j),
    decreases k,
{
    let s = of_values(values, j);
    if j < k {
        lemma_values_grow(values, j, k - 1);
        let t = of_values(values, k - 1);
        assert(of_values(values, k).take(s.len() as int) =~= t.take(s.len() as int));
    } else {
        assert(s.take(s.len() as int) =~= s);
    }
}

proof fn lemma_misfit_at(d: Seq<DomainMask>, part: Seq<(usize, bool)>, x: (usize, bool), all: Seq<(usize, bool)>)
    requires
        part.len() as int + 1 <= all.len(),
        all.take(part.len() as int + 1) == part.push(x),
        all_fit(d, part),
        !fits(d, part.push(x), part.len() as int),
    ensures
        first_misfit(d, all, part.len() as int),
        with_decisions(d, all, part.len() as int) == with_decisions(d, part, part.len() as int),
{
    let n = part.len() as int;
    let more = part.push(x);
    lemma_fits_prefix(d, more, all, n);
    assert(more.take(n) =~= part);
    assert forall|j: int| 0 <= j < n implies #[trigger] fits(d, all, j) by {
        lemma_fits_prefix(d, more, all, j);
        lemma_fits_prefix(d, part, more, j);
        assert(fits(d, part, j));
    }
    lemma_fits_prefix(d, part, more, n);
}

proof fn lemma_fit_more(d: Seq<DomainMask>, part: Seq<(usize, bool)>, x: (usize, bool))
    requires
        all_fit(d, part),
        fits(d, part.push(x), part.len() as int),
    ensures
        all_fit(d, part.push(x)),
        with_decisions(d, part.push(x), part.len() as int + 1) == decide(with_decisions(d, part, part.len() as int), x),
{
    let n = part.len() as int;
    let more = part.push(x);
    assert(more.take(n) =~= part);
    assert forall|j: int| 0 <= j < more.len() implies #[trigger] fits(d, more, j) by {
        if j < n {
            lemma_fits_prefix(d, part, more, j);
            assert(fits(d, part, j));
        }
    }
    lemma_fits_prefix(d, part, more, n);
}

/// Lay an answer over the domains that were asked about.
pub fn project(map: &VarMap, snapshot: Vec<DomainMask>, answer: &Answer) -> (r: Vec<DomainMask>)
    requires
        map.wf(),
        snapshot@.len() == map.native_to_cnf@.len(),
        answer.values@.len() == snapshot@.len(),
    ensures
        laid_over(snapshot@, answer.conflict, implied(*map, *answer), r@),
{
    let ghost d = snapshot@;
    let mut out = snapshot;
    if answer.conflict {
        mark_conflict(&mut out);
        return out;
    }
    let ghost vals = of_values(answer.values@, answer.values@.len() as int);
    let ghost all = implied(*map, *answer);
    let mut v: usize = 0;
    while v < answer.values.len()
        invariant
            d == snapshot@,
            answer.values@.len() == d.len(),
            !answer.conflict,
            vals == of_values(answer.values@, answer.values@.len() as int),
            all == implied(*map, *answer),
            v <= d.len(),
            out@.len() == d.len(),
            all_fit(d, of_values(answer.values@, v as int)),
            out@ == with_decisions(d, of_values(answer.values@, v as int), of_values(answer.values@, v as int).len() as int),
        decreases answer.values.len() - v,
    {
        let ghost part = of_values(answer.values@, v as int);
        if let Some(value) = answer.values[v] {
            let wanted = fixed_domain(value);
            let ghost x: (usize, bool) = (v, value);
            proof {
                assert(part.push(x).take(part.len() as int) =~= part);
                lemma_fits_prefix(d, part, part.push(x), part.len() as int);
                assert(of_values(answer.values@, v + 1) == part.push(x));
            }
            if out[v] == DomainMask::BOTH || out[v] == wanted {
                out.set(v, wanted);
                proof {
                    lemma_fit_more(d, part, x);
                }
            } else {
                mark_conflict(&mut out);
                proof {
                    lemma_values_grow(answer.values@, v + 1, d.len() as int);
                    assert(all.take(part.len() as int + 1) =~= vals.take(part.len() as int + 1));
                    lemma_misfit_at(d, part, x, all);
                    assert(!fits(d, all, part.len() as int));
                }
                return out;
            }
        }
        v += 1;
    }
    let mut k: usize = 0;
    proof {
        assert(vals + of_trail(*map, answer.propagated@, 0) =~= vals);
    }
    while k < answer.propagated.len()
        invariant
            map.wf(),
            d == snapshot@,
            d.len() == map.native_to_cnf@.len(),
            !answer.conflict,
            vals == of_values(answer.values@, answer.values@.len() as int),
            all == implied(*map, *answer),
            k <= answer.propagated@.len(),
            out@.len() == d.len(),
            all_fit(d, vals + of_trail(*map, answer.propagated@, k as int)),
            out@ == with_decisions(d, vals + of_trail(*map, answer.propagated@, k as int), (vals + of_trail(*map, answer.propagated@, k as int)).len() as int),
        decreases answer.propagated.len() - k,
    {
        let ghost part = vals + of_trail(*map, answer.propagated@, k as int);
        let (cnf, value) = answer.propagated[k];
        if cnf < map.cnf_to_native.len() {
            if let Some(native) = map.cnf_to_native[cnf] {
                let wanted = fixed_domain(value);
                let ghost x: (usize, bool) = (native, value);
                proof {
                    assert(part.push(x).take(part.len() as int) =~= part);
                    lemma_fits_prefix(d, part, part.push(x), part.len() as int);
                    assert(vals + of_trail(*map, answer.propagated@, k + 1) =~= part.push(x));
                }
                if out[native] == DomainMask::BOTH || out[native] == wanted {
                    out.set(native, wanted);
                    proof {
                        lemma_fit_more(d, part, x);
                    }
                } else {
                    mark_conflict(&mut out);
                    proof {
                        lemma_trail_grows(*map, answer.propagated@, k + 1, answer.propagated@.len() as int);
                        let tail = of_trail(*map, answer.propagated@, k + 1);
                        assert(all.take(part.len() as int + 1) =~= vals + of_trail(*map, answer.propagated@, answer.propagated@.len() as int).take(tail.len() as int));
                        lemma_misfit_at(d, part, x, all);
                        assert(!fits(d, all, part.len() as int));
                    }
                    return out;
                }
            }
        }
        k += 1;
    }
    out
}

/// Every model within the domains has the implied values, and there is none on a conflict.
pub open spec fn answers(cn: ConstraintNetwork, d: Seq<DomainMask>, conflict: bool, values: Seq<(usize, bool)>) -> bool {
    &&& conflict ==> !models::satisfiable(cn, d)
    &&& forall|a: Asg, k: int| #[trigger] cn.model(a) && models::consistent(d, a) && 0 <= k < values.len() ==> a((#[trigger] values[k]).0 as int) == values[k].1
}

/// Laying a sound answer over the domains loses no model.
pub proof fn law_projection_is_sound(cn: ConstraintNetwork, d: Seq<DomainMask>, conflict: bool, values: Seq<(usize, bool)>, r: Seq<DomainMask>)
    requires
        d.len() == cn.n(),
        forall|v: int| 0 <= v < d.len() ==> (#[trigger] d[v]).live(),
        forall|k: int| 0 <= k < values.len() ==> (#[trigger] values[k]).0 < d.len(),
        answers(cn, d, conflict, values),
        laid_over(d, conflict, values, r),
    ensures
        cube::reply_sound(cn, d, r),
{
    if conflict {
    } else if all_fit(d, values) {
        assert forall|a: Asg| #[trigger] cn.model(a) && models::consistent(d, a) implies models::consistent(r, a) by {
            lemma_values_keep(cn, d, conflict, values, values.len() as int, a);
        }
        lemma_with_decisions_live(d, values, values.len() as int);
        lemma_with_decisions_len(d, values, values.len() as int);
        assert(r.len() > 0 ==> r[0].live());
        assert forall|a: Asg, v: int| cn.model(a) && models::consistent(d, a) && 0 <= v < r.len() && r[v].fixed() implies #[trigger] r[v].allows(#[trigger] a(v)) by {
            assert(models::consistent(r, a));
        }
    } else {
        let k = choose|k: int| #[trigger] first_misfit(d, values, k) && r == contradicted(with_decisions(d, values, k));
        lemma_with_decisions_len(d, values, k);
        assert(!models::satisfiable(cn, d)) by {
            if models::satisfiable(cn, d) {
                let a = choose|a: Asg| #[trigger] cn.model(a) && models::consistent(d, a);
                lemma_values_keep(cn, d, conflict, values, k, a);
                let now = with_decisions(d, values, k);
                let v = values[k].0 as int;
                assert(a(v) == values[k].1);
                assert(now[v].allows(a(v)));
            }
        }
    }
}

proof fn lemma_values_keep(cn: ConstraintNetwork, d: Seq<DomainMask>, conflict: bool, values: Seq<(usize, bool)>, k: int, a: Asg)
    requires
        0 <= k <= values.len(),
        answers(cn, d, conflict, values),
        cn.model(a),
        models::consistent(d, a),
        forall|k: int| 0 <= k < values.len() ==> (#[trigger] values[k]).0 < d.len(),
    ensures
        models::consistent(with_decisions(d, values, k), a),
    decreases k,
{
    if k > 0 {
        lemma_values_keep(cn, d, conflict, values, k - 1, a);
        lemma_with_decisions_len(d, values, k - 1);
        assert(a(values[k - 1].0 as int) == values[k - 1].1);
    }
}

proof fn lemma_with_decisions_live(d: Seq<DomainMask>, dec: Seq<(usize, bool)>, k: int)
    requires
        0 <= k <= dec.len(),
        forall|i: int| 0 <= i < dec.len() ==> (#[trigger] dec[i]).0 < d.len(),
        forall|v: int| 0 <= v < d.len() ==> (#[trigger] d[v]).live(),
    ensures
        forall|v: int| 0 <= v < d.len() ==> (#[trigger] with_decisions(d, dec, k)[v]).live(),
    decreases k,
{
    if k > 0 {
        lemma_with_decisions_live(d, dec, k - 1);
        lemma_with_decisions_len(d, dec, k - 1);
    }
}

/// Decisions that the domains hold already change nothing and are always asked.
pub proof fn law_decided_base_is_kept(d: Seq<DomainMask>, dec: Seq<(usize, bool)>)
    requires
        forall|i: int| 0 <= i < dec.len() ==> (#[trigger] dec[i]).0 < d.len() && d[dec[i].0 as int] == DomainMask::only(dec[i].1),
    ensures
        all_fit(d, dec),
        with_decisions(d, dec, dec.len() as int) == d,
{
    assert forall|j: int| 0 <= j < dec.len() implies #[trigger] fits(d, dec, j) by {
        lemma_decided_same(d, dec, j);
    }
    lemma_decided_same(d, dec, dec.len() as int);
}

proof fn lemma_decided_same(d: Seq<DomainMask>, dec: Seq<(usize, bool)>, k: int)
    requires
        0 <= k <= dec.len(),
        forall|i: int| 0 <= i < dec.len() ==> (#[trigger] dec[i]).0 < d.len() && d[dec[i].0 as int] == DomainMask::only(dec[i].1),
    ensures
        with_decisions(d, dec, k) == d,
    decreases k,
{
    if k > 0 {
        lemma_decided_same(d, dec, k - 1);
        assert(decide(d, dec[k - 1]) =~= d);
    }
}

} // verus!
