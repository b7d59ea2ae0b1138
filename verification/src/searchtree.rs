//! The tree behind a search for a model: how scopes fell apart, which rules were branched on, and
//! which branches were tried.
use vstd::prelude::*;

use std::sync::Arc;

use crate::adapter::{Clause, RuleSolver};
use crate::components;
use crate::ct;
use crate::ct::TableMasks;
use crate::domain::DomainMask;
use crate::measure::Measure;
use crate::models;
use crate::network::ConstraintNetwork;
use crate::problem;
use crate::problem::Stats;
use crate::selector;
use crate::selector::Selector;
use crate::table;

verus! {

/// What a search is run on and with.
pub struct Plan {
    pub net: Arc<ConstraintNetwork>,
    pub masks: Arc<Vec<TableMasks>>,
    pub selector: Selector,
    pub measure: Measure,
}

/// A part of a search, with the domains and the variables that it starts from.
pub enum Search {
    /// All variables were decided already.
    Decided(Seq<DomainMask>, Seq<usize>),
    /// The selector found no feasible row.
    Barren(Seq<DomainMask>, Seq<usize>, Seq<usize>),
    /// Propagation refuted the branch.
    Refuted,
    /// The clauses of a rule over some variables, and what came of those that were tried.
    Branch(Seq<DomainMask>, Seq<usize>, Seq<usize>, Seq<Clause>, Seq<Search>),
    /// The parts that the variables fall into, and what came of those that were looked at.
    Split(Seq<DomainMask>, Seq<usize>, Seq<Vec<usize>>, Seq<Search>),
}

/// The search found values for its variables.
pub open spec fn succeeds(t: Search) -> bool
    decreases t,
{
    match t {
        Search::Decided(d, ids) => true,
        Search::Barren(d, ids, vars) => false,
        Search::Refuted => false,
        Search::Branch(d, ids, vars, clauses, tries) => tries.len() > 0 && succeeds(tries[tries.len() - 1]),
        Search::Split(d, ids, parts, kids) => kids.len() == parts.len() && (kids.len() == 0 || succeeds(kids[kids.len() - 1])),
    }
}

/// The selector, with the help of the rule solver, gives this rule for the variables.
pub open spec fn ruled<S: RuleSolver>(p: Plan, solver: S, d: Seq<DomainMask>, ids: Seq<usize>, vars: Seq<usize>, clauses: Option<Seq<Clause>>) -> bool {
    exists|r: table::BranchingResult| #[trigger]
        selector::selects(p.selector, *p.net, d, ids, r) && selector::consults(p.selector, solver, p.net, p.masks, d, ids, p.measure, r) && vars == r.variables@ && match r.clauses {
            None => clauses is None,
            Some(c) => clauses == Some(c@),
        }
}

/// The components of the open variables, smaller ones first.
pub open spec fn parted(cn: ConstraintNetwork, d: Seq<DomainMask>, ids: Seq<usize>, parts: Seq<Vec<usize>>) -> bool {
    exists|split: Seq<Vec<usize>>|
        {
            &&& #[trigger] components::components(cn, d, components::live_flags(cn, d), ids, split)
            &&& parts.len() == split.len()
            &&& forall|k: int| 0 <= k < parts.len() ==> components::in_list(split, (#[trigger] parts[k])@)
            &&& forall|q: int| 0 <= q < split.len() ==> components::in_list(parts, (#[trigger] split[q])@)
            &&& components::size_order(parts)
        }
}

/// What came of trying a clause: propagation refutes it, or the search goes on with the same
/// variables where the clause leads.
pub open spec fn tried(cn: ConstraintNetwork, d: Seq<DomainMask>, ids: Seq<usize>, vars: Seq<usize>, c: Clause, t: Search) -> bool {
    let a = ct::assigned(d, vars, c.mask, c.val, vars.len() as int);
    match t {
        Search::Refuted => !models::satisfiable(cn, a),
        Search::Split(e, scope, parts, kids) => scope == ids && ct::closed_under(cn, e) && ct::narrower(e, a) && problem::reduced(cn, e),
        _ => false,
    }
}

/// What came of one part of a scope: it starts from its variables, at domains within those of the
/// scope.
pub open spec fn part_of(d: Seq<DomainMask>, ids: Seq<usize>, t: Search) -> bool {
    match t {
        Search::Decided(e, own) => own == ids && ct::narrower(e, d),
        Search::Barren(e, own, vars) => own == ids && ct::narrower(e, d),
        Search::Branch(e, own, vars, clauses, tries) => own == ids && ct::narrower(e, d),
        _ => false,
    }
}

/// Every step is what it has to be: parts are looked at in turn until one has no model, and the
/// clauses of the selector's rule are tried in turn until one has.
pub open spec fn searched<S: RuleSolver>(p: Plan, solver: S, t: Search) -> bool
    decreases t,
{
    match t {
        Search::Decided(d, ids) => models::decided_on(d, ids),
        Search::Barren(d, ids, vars) => !models::decided_on(d, ids) && ruled(p, solver, d, ids, vars, None),
        Search::Refuted => true,
        Search::Branch(d, ids, vars, clauses, tries) => {
            &&& !models::decided_on(d, ids)
            &&& ruled(p, solver, d, ids, vars, Some(clauses))
            &&& tries.len() <= clauses.len()
            &&& tries.len() < clauses.len() ==> succeeds(t)
            &&& forall|i: int|
                0 <= i < tries.len() ==> searched(p, solver, #[trigger] tries[i]) && tried(*p.net, d, ids, vars, clauses[i], tries[i]) && (i < tries.len() - 1 ==> !succeeds(tries[i]))
        },
        Search::Split(d, ids, parts, kids) => {
            &&& parted(*p.net, d, ids, parts)
            &&& kids.len() <= parts.len()
            &&& kids.len() < parts.len() ==> kids.len() > 0 && !succeeds(kids[kids.len() - 1])
            &&& forall|i: int| 0 <= i < kids.len() ==> searched(p, solver, #[trigger] kids[i]) && part_of(d, parts[i]@, kids[i]) && (i < kids.len() - 1 ==> succeeds(kids[i]))
        },
    }
}

/// How many rules were branched on, how many clauses they had, how many of these were tried, and how
/// many scopes fell into several parts.
pub struct Counts {
    pub nodes: nat,
    pub clauses: nat,
    pub visits: nat,
    pub splits: nat,
}

/// Both together.
pub open spec fn both(a: Counts, b: Counts) -> Counts {
    Counts { nodes: a.nodes + b.nodes, clauses: a.clauses + b.clauses, visits: a.visits + b.visits, splits: a.splits + b.splits }
}

/// Nothing.
pub open spec fn nothing() -> Counts {
    Counts { nodes: 0, clauses: 0, visits: 0, splits: 0 }
}

/// A scope that falls into that many parts.
pub open spec fn split_into(parts: nat) -> Counts {
    Counts {
        splits: if parts > 1 {
            1
        } else {
            0
        },
        ..nothing()
    }
}

/// What a search comes to.
pub open spec fn counts(t: Search) -> Counts
    decreases t, 0int,
{
    match t {
        Search::Branch(d, ids, vars, clauses, tries) => both(Counts { nodes: 1, clauses: clauses.len(), visits: tries.len(), splits: 0 }, counts_of(tries, tries.len() as int)),
        Search::Split(d, ids, parts, kids) => both(split_into(parts.len()), counts_of(kids, kids.len() as int)),
        _ => nothing(),
    }
}

/// What the first searches come to.
pub open spec fn counts_of(kids: Seq<Search>, upto: int) -> Counts
    decreases kids, upto,
{
    if 0 < upto <= kids.len() {
        both(counts_of(kids, upto - 1), counts(kids[upto - 1]))
    } else {
        nothing()
    }
}

/// `x`, at most the largest counter.
pub open spec fn capped(x: int) -> int {
    if x <= u64::MAX {
        x
    } else {
        u64::MAX as int
    }
}

/// The counters grew by what was done.
pub open spec fn recorded(was: Stats, now: Stats, c: Counts) -> bool {
    &&& now.branching_nodes == capped(was.branching_nodes + c.nodes)
    &&& now.total_potential_subproblems == capped(was.total_potential_subproblems + c.clauses)
    &&& now.total_visited_nodes == capped(was.total_visited_nodes + c.visits)
    &&& now.component_splits == capped(was.component_splits + c.splits)
    &&& now.region_branches == was.region_branches
    &&& now.region_configs == was.region_configs
}

/// The tree behind a search for a model of everything that is open.
pub open spec fn of_search<S: RuleSolver>(p: Plan, solver: S, d: Seq<DomainMask>, found: bool, stats: Stats) -> bool {
    exists|t: Search| #[trigger]
        searched(p, solver, t) && succeeds(t) == found && recorded(problem::no_stats(), stats, counts(t)) && match t {
            Search::Split(e, ids, parts, kids) => e == d && crate::cube::lists_open(d, ids),
            _ => false,
        }
}

pub proof fn lemma_recorded_more(a: Stats, b: Stats, c: Stats, x: Counts, y: Counts)
    requires
        recorded(a, b, x),
        recorded(b, c, y),
    ensures
        recorded(a, c, both(x, y)),
{
}

pub proof fn lemma_counts_push(kids: Seq<Search>, t: Search, upto: int)
    requires
        0 <= upto <= kids.len(),
    ensures
        counts_of(kids.push(t), upto) == counts_of(kids, upto),
    decreases upto,
{
    if upto > 0 {
        lemma_counts_push(kids, t, upto - 1);
        assert(kids.push(t)[upto - 1] == kids[upto - 1]);
    }
}

/// One search more.
pub proof fn lemma_counts_more(kids: Seq<Search>, t: Search)
    ensures
        counts_of(kids.push(t), kids.len() as int + 1) == both(counts_of(kids, kids.len() as int), counts(t)),
{
    lemma_counts_push(kids, t, kids.len() as int);
    assert(kids.push(t)[kids.len() as int] == t);
}

/// The parts that were looked at: all have a model, the last one aside unless that is said.
#[verifier::opaque]
pub open spec fn parts_done<S: RuleSolver>(p: Plan, solver: S, d: Seq<DomainMask>, parts: Seq<Vec<usize>>, kids: Seq<Search>, last: bool) -> bool {
    forall|i: int| 0 <= i < kids.len() ==> searched(p, solver, #[trigger] kids[i]) && part_of(d, parts[i]@, kids[i]) && (last || i < kids.len() - 1 ==> succeeds(kids[i]))
}

pub proof fn lemma_parts_none<S: RuleSolver>(p: Plan, solver: S, d: Seq<DomainMask>, parts: Seq<Vec<usize>>)
    ensures
        parts_done(p, solver, d, parts, Seq::empty(), true),
{
    reveal(parts_done);
}

pub proof fn lemma_parts_more<S: RuleSolver>(p: Plan, solver: S, d: Seq<DomainMask>, parts: Seq<Vec<usize>>, kids: Seq<Search>, t: Search)
    requires
        parts_done(p, solver, d, parts, kids, true),
        searched(p, solver, t),
        part_of(d, parts[kids.len() as int]@, t),
    ensures
        parts_done(p, solver, d, parts, kids.push(t), succeeds(t)),
{
    reveal(parts_done);
    let all = kids.push(t);
    assert forall|i: int| 0 <= i < all.len() implies searched(p, solver, #[trigger] all[i]) && part_of(d, parts[i]@, all[i]) && (succeeds(t) || i < all.len() - 1 ==> succeeds(all[i])) by {
        if i < kids.len() {
            assert(all[i] == kids[i]);
        }
    }
}

/// A scope with what came of its parts.
pub proof fn lemma_split<S: RuleSolver>(p: Plan, solver: S, d: Seq<DomainMask>, ids: Seq<usize>, parts: Seq<Vec<usize>>, kids: Seq<Search>, found: bool)
    requires
        parted(*p.net, d, ids, parts),
        kids.len() <= parts.len(),
        parts_done(p, solver, d, parts, kids, found),
        found ==> kids.len() == parts.len(),
        !found ==> kids.len() > 0 && !succeeds(kids[kids.len() - 1]),
    ensures
        searched(p, solver, Search::Split(d, ids, parts, kids)),
        succeeds(Search::Split(d, ids, parts, kids)) == found,
{
    reveal(parts_done);
    let t = Search::Split(d, ids, parts, kids);
    if found && kids.len() > 0 {
        assert(succeeds(kids[kids.len() - 1]));
    }
    assert(succeeds(t) == found);
}

/// The clauses that were tried: none has a model, the last one aside unless that is said.
#[verifier::opaque]
pub open spec fn tries_done<S: RuleSolver>(p: Plan, solver: S, d: Seq<DomainMask>, ids: Seq<usize>, vars: Seq<usize>, clauses: Seq<Clause>, tries: Seq<Search>, last: bool) -> bool {
    forall|i: int| 0 <= i < tries.len() ==> searched(p, solver, #[trigger] tries[i]) && tried(*p.net, d, ids, vars, clauses[i], tries[i]) && (last || i < tries.len() - 1 ==> !succeeds(tries[i]))
}

pub proof fn lemma_tries_none<S: RuleSolver>(p: Plan, solver: S, d: Seq<DomainMask>, ids: Seq<usize>, vars: Seq<usize>, clauses: Seq<Clause>)
    ensures
        tries_done(p, solver, d, ids, vars, clauses, Seq::empty(), true),
{
    reveal(tries_done);
}

pub proof fn lemma_tries_more<S: RuleSolver>(p: Plan, solver: S, d: Seq<DomainMask>, ids: Seq<usize>, vars: Seq<usize>, clauses: Seq<Clause>, tries: Seq<Search>, t: Search)
    requires
        tries_done(p, solver, d, ids, vars, clauses, tries, true),
        searched(p, solver, t),
        tried(*p.net, d, ids, vars, clauses[tries.len() as int], t),
    ensures
        tries_done(p, solver, d, ids, vars, clauses, tries.push(t), !succeeds(t)),
{
    reveal(tries_done);
    let all = tries.push(t);
    assert forall|i: int| 0 <= i < all.len() implies searched(p, solver, #[trigger] all[i]) && tried(*p.net, d, ids, vars, clauses[i], all[i]) && (!succeeds(t) || i < all.len() - 1 ==> !succeeds(all[i])) by {
        if i < tries.len() {
            assert(all[i] == tries[i]);
        }
    }
}

/// A rule with what came of its clauses.
pub proof fn lemma_branch<S: RuleSolver>(p: Plan, solver: S, d: Seq<DomainMask>, ids: Seq<usize>, vars: Seq<usize>, clauses: Seq<Clause>, tries: Seq<Search>, found: bool)
    requires
        !models::decided_on(d, ids),
        ruled(p, solver, d, ids, vars, Some(clauses)),
        tries.len() <= clauses.len(),
        tries_done(p, solver, d, ids, vars, clauses, tries, !found),
        found ==> tries.len() > 0 && succeeds(tries[tries.len() - 1]),
        !found ==> tries.len() == clauses.len(),
    ensures
        searched(p, solver, Search::Branch(d, ids, vars, clauses, tries)),
        succeeds(Search::Branch(d, ids, vars, clauses, tries)) == found,
{
    reveal(tries_done);
    let t = Search::Branch(d, ids, vars, clauses, tries);
    if !found && tries.len() > 0 {
        assert(!succeeds(tries[tries.len() - 1]));
    }
    assert(succeeds(t) == found);
}

/// The rule that was found is the rule.
pub proof fn lemma_ruled<S: RuleSolver>(p: Plan, solver: S, d: Seq<DomainMask>, ids: Seq<usize>, r: table::BranchingResult)
    requires
        selector::selects(p.selector, *p.net, d, ids, r),
        selector::consults(p.selector, solver, p.net, p.masks, d, ids, p.measure, r),
    ensures
        r.clauses is None ==> ruled(p, solver, d, ids, r.variables@, None),
        r.clauses matches Some(c) ==> ruled(p, solver, d, ids, r.variables@, Some(c@)),
{
}

} // verus!
