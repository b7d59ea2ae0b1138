//! Bounded-width variable elimination: a network with fewer variables and the same answers.
use vstd::prelude::*;

use crate::bits;
use crate::contract;
use crate::contract::Relation;
use crate::domain::{Asg, DomainMask};
use crate::minfill;
use crate::network;
use crate::network::ConstraintNetwork;
use crate::selector;
use crate::seqs;
use crate::sums;
use crate::vegraph;
use crate::vegraph::VeGraph;

pub use crate::wcanonicalize::{
    bounded_ve_canonicalize_weighted, bounded_ve_canonicalize_weighted_rels, WeightedCanonicalized,
};


verus! {

/// One elimination: the variable, and the join of the constraints that mentioned it.
pub struct ElimStep {
    pub var: usize,
    pub rel: Relation,
}

/// Extends a solution of the reshaped network to all variables of the input network.
pub struct ModelReconstructor {
    cn_to_new: Vec<Option<usize>>,
    elim: Vec<ElimStep>,
}

/// The reshaped network, and how to read its solutions back.
pub struct Canonicalized {
    pub cn: ConstraintNetwork,
    pub model: ModelReconstructor,
}

/// `row` has the values of `a` on the known variables of the step other than its own.
pub open spec fn fits_row(step: ElimStep, row: u64, a: Asg, known: spec_fn(int) -> bool) -> bool {
    forall|j: int|
        0 <= j < step.rel.vars@.len() && (#[trigger] step.rel.vars@[j]) != step.var && known(step.rel.vars@[j] as int)
            ==> bits::bit(row, j) == a(step.rel.vars@[j] as int)
}

/// The first row from `from` on that fits, or the number of rows.
pub open spec fn first_fit(step: ElimStep, a: Asg, known: spec_fn(int) -> bool, from: int) -> int
    decreases step.rel.rows@.len() - from,
{
    if from >= step.rel.rows@.len() {
        step.rel.rows@.len() as int
    } else if fits_row(step, step.rel.rows@[from], a, known) {
        from
    } else {
        first_fit(step, a, known, from + 1)
    }
}

/// The value that the first row that fits gives the variable of the step, and false without one.
pub open spec fn chosen(step: ElimStep, a: Asg, known: spec_fn(int) -> bool) -> bool {
    let k = first_fit(step, a, known, 0);
    k < step.rel.rows@.len() && bits::bit(step.rel.rows@[k], contract::at(step.rel.vars@, step.var as int))
}

/// `a` with the eliminated variables set, the last eliminated first.
pub open spec fn lift(steps: Seq<ElimStep>, a: Asg) -> Asg
    decreases steps.len(),
{
    if steps.len() == 0 {
        a
    } else {
        let s = steps.last();
        lift(steps.drop_last(), sums::set(a, s.var as int, chosen(s, a, |x: int| true)))
    }
}

/// The values of a partial assignment, false where there is none.
pub open spec fn values(p: Seq<Option<bool>>) -> Asg {
    |x: int| p[x] == Some(true)
}

/// Where a partial assignment has a value.
pub open spec fn known_in(p: Seq<Option<bool>>) -> spec_fn(int) -> bool {
    |x: int| p[x] is Some
}

/// A partial assignment with the eliminated variables set, the last eliminated first.
pub open spec fn replay(steps: Seq<ElimStep>, p: Seq<Option<bool>>) -> Seq<Option<bool>>
    decreases steps.len(),
{
    if steps.len() == 0 {
        p
    } else {
        let s = steps.last();
        replay(steps.drop_last(), p.update(s.var as int, Some(chosen(s, values(p), known_in(p)))))
    }
}

/// The value of a fixed domain.
pub open spec fn value_of(d: DomainMask) -> Option<bool> {
    match d {
        DomainMask::D0 => Some(false),
        DomainMask::D1 => Some(true),
        _ => None,
    }
}

/// What a solution of the reshaped network says of the input variables.
pub open spec fn survivors(kept: Seq<Option<usize>>, solution: Seq<DomainMask>) -> Seq<Option<bool>> {
    Seq::new(
        kept.len(),
        |x: int|
            match kept[x] {
                Some(k) => value_of(solution[k as int]),
                None => None,
            },
    )
}

/// Some step eliminates `x`.
pub open spec fn eliminated(steps: Seq<ElimStep>, x: int) -> bool {
    exists|i: int| 0 <= i < steps.len() && (#[trigger] steps[i]).var == x
}

/// Steps over variables below `n`; each relation lists its variable and none eliminated before.
pub open spec fn steps_wf(steps: Seq<ElimStep>, n: int) -> bool {
    &&& forall|i: int|
        0 <= i < steps.len() ==> (#[trigger] steps[i]).var < n && steps[i].rel.wf() && steps[i].rel.vars@.contains(
            steps[i].var,
        )
    &&& forall|i: int, j: int|
        0 <= i < steps.len() && 0 <= j < steps[i].rel.vars@.len() ==> (#[trigger] steps[i].rel.vars@[j]) < n
    &&& forall|i: int, j: int|
        0 <= i < j < steps.len() ==> !(#[trigger] steps[j]).rel.vars@.contains((#[trigger] steps[i]).var)
}

impl ModelReconstructor {
    /// Where each input variable went.
    pub closed spec fn kept(self) -> Seq<Option<usize>> {
        self.cn_to_new@
    }

    /// The eliminations, in order.
    pub closed spec fn steps(self) -> Seq<ElimStep> {
        self.elim@
    }

    /// Every input variable below `n` was kept as one of the `n_new` or eliminated.
    pub open spec fn wf(self, n: int, n_new: int) -> bool {
        &&& self.kept().len() == n
        &&& network::compresses(self.kept(), n_new)
        &&& steps_wf(self.steps(), n)
        &&& forall|x: int| 0 <= x < n ==> ((#[trigger] self.kept()[x]) is None <==> eliminated(self.steps(), x))
    }

    /// The kept variables as `solution` has them, and the eliminated ones replayed.
    pub fn reconstruct(&self, solution: &[DomainMask]) -> (r: Vec<Option<bool>>)
        requires
            exists|n: int| #[trigger] self.wf(n, solution@.len() as int),
        ensures
            r@ == replay(self.steps(), survivors(self.kept(), solution@)),
    {
        let ghost n = choose|n: int| #[trigger] self.wf(n, solution@.len() as int);
        let ghost start = survivors(self.kept(), solution@);
        let mut assignment: Vec<Option<bool>> = Vec::new();
        let mut c: usize = 0;
        while c < self.cn_to_new.len()
            invariant
                self.wf(n, solution@.len() as int),
                start == survivors(self.kept(), solution@),
                c <= self.cn_to_new@.len(),
                assignment@ =~= start.take(c as int),
            decreases self.cn_to_new.len() - c,
        {
            match self.cn_to_new[c] {
                Some(k) => {
                    assert(self.kept()[c as int] is Some);
                    assignment.push(solution[k].value());
                },
                None => {
                    assignment.push(None);
                },
            }
            c += 1;
        }
        let mut i: usize = self.elim.len();
        proof {
            seqs::lemma_take_all(self.elim@);
            seqs::lemma_take_all(start);
            assert(assignment@ == start);
        }
        while i > 0
            invariant
                self.wf(n, solution@.len() as int),
                i <= self.elim@.len(),
                assignment@.len() == n,
                replay(self.elim@.take(i as int), assignment@) == replay(self.steps(), start),
            decreases i,
        {
            proof {
                seqs::lemma_take_next(self.elim@, i - 1);
                assert(self.steps()[i - 1].var < n);
            }
            i -= 1;
            let value: bool = pick(&self.elim[i], &assignment);
            assignment.set(self.elim[i].var, Some(value));
        }
        proof {
            assert(self.elim@.take(0).len() == 0);
        }
        assignment
    }
}

/// The value that a step gives its variable under a partial assignment.
fn pick(step: &ElimStep, assignment: &Vec<Option<bool>>) -> (r: bool)
    requires
        step.rel.wf(),
        step.rel.vars@.contains(step.var),
        forall|j: int| 0 <= j < step.rel.vars@.len() ==> (#[trigger] step.rel.vars@[j]) < assignment@.len(),
    ensures
        r == chosen(*step, values(assignment@), known_in(assignment@)),
{
    let ghost a = values(assignment@);
    let ghost known = known_in(assignment@);
    let vars = &step.rel.vars;
    let mut mask: u64 = 0;
    let mut val: u64 = 0;
    let mut vpos: usize = 0;
    let mut j: usize = 0;
    proof {
        broadcast use bits::group_bits;

    }
    while j < vars.len()
        invariant
            j <= vars@.len() <= 64,
            vars@ == step.rel.vars@,
            network::ascending_ids(vars@),
            forall|j: int| 0 <= j < step.rel.vars@.len() ==> (#[trigger] step.rel.vars@[j]) < assignment@.len(),
            a == values(assignment@),
            known == known_in(assignment@),
            forall|q: int| 0 <= q < 64 ==> #[trigger] bits::bit(mask, q) == (q < j && vars@[q] != step.var && known(vars@[q] as int)),
            forall|q: int| 0 <= q < 64 ==> #[trigger] bits::bit(val, q) == (q < j && vars@[q] != step.var && known(vars@[q] as int) && a(vars@[q] as int)),
            vars@.take(j as int).contains(step.var) ==> vpos < j && vars@[vpos as int] == step.var,
        decreases vars.len() - j,
    {
        proof {
            broadcast use bits::group_bits;

            seqs::lemma_take_next(vars@, j as int);
        }
        let v: usize = vars[j];
        if v == step.var {
            vpos = j;
        } else {
            match assignment[v] {
                Some(b) => {
                    mask = bits::with_bit(mask, j);
                    if b {
                        val = bits::with_bit(val, j);
                    }
                },
                None => {},
            }
        }
        j += 1;
    }
    proof {
        seqs::lemma_take_all(vars@);
        let w = contract::at(vars@, step.var as int);
        assert(vars@[vpos as int] == step.var);
        assert(contract::lists(vars@, step.var as int));
        assert(w == vpos);
    }
    let rows = &step.rel.rows;
    let mut k: usize = 0;
    while k < rows.len()
        invariant
            k <= rows@.len(),
            rows@ == step.rel.rows@,
            vars@ == step.rel.vars@,
            vars@.len() <= 64,
            vpos < vars@.len(),
            vpos == contract::at(vars@, step.var as int),
            a == values(assignment@),
            known == known_in(assignment@),
            forall|q: int| 0 <= q < 64 ==> #[trigger] bits::bit(mask, q) == (q < vars@.len() && vars@[q] != step.var && known(vars@[q] as int)),
            forall|q: int| 0 <= q < 64 ==> #[trigger] bits::bit(val, q) == (q < vars@.len() && vars@[q] != step.var && known(vars@[q] as int) && a(vars@[q] as int)),
            first_fit(*step, a, known, 0) == first_fit(*step, a, known, k as int),
        decreases rows.len() - k,
    {
        let row: u64 = rows[k];
        proof {
            lemma_masked_fit(*step, row, mask, val, a, known);
        }
        if row & mask == val {
            return bits::get_bit(row, vpos);
        }
        k += 1;
    }
    false
}

/// Comparing the masked bits of a row is comparing its known values.
proof fn lemma_masked_fit(step: ElimStep, row: u64, mask: u64, val: u64, a: Asg, known: spec_fn(int) -> bool)
    requires
        step.rel.vars@.len() <= 64,
        forall|q: int| 0 <= q < 64 ==> #[trigger] bits::bit(mask, q) == (q < step.rel.vars@.len() && step.rel.vars@[q] != step.var && known(step.rel.vars@[q] as int)),
        forall|q: int| 0 <= q < 64 ==> #[trigger] bits::bit(val, q) == (q < step.rel.vars@.len() && step.rel.vars@[q] != step.var && known(step.rel.vars@[q] as int) && a(step.rel.vars@[q] as int)),
    ensures
        (row & mask == val) <==> fits_row(step, row, a, known),
{
    broadcast use bits::group_bits;

    if row & mask == val {
        assert forall|j: int| 0 <= j < step.rel.vars@.len() && (#[trigger] step.rel.vars@[j]) != step.var && known(step.rel.vars@[j] as int) implies bits::bit(row, j) == a(step.rel.vars@[j] as int) by {
            assert(bits::bit(row & mask, j) == bits::bit(val, j));
            assert(bits::bit(mask, j));
        }
    }
    if fits_row(step, row, a, known) {
        assert forall|q: int| 0 <= q < 64 implies bits::bit(row & mask, q) == bits::bit(val, q) by {
            if bits::bit(mask, q) {
                assert(bits::bit(row, q) == a(step.rel.vars@[q] as int));
            }
        }
        bits::lemma_bits_equal(row & mask, val);
    }
}

/// Where the assignment is known on all variables but those still to be replayed, replaying
/// gives every variable the value that lifting gives it.
proof fn lemma_replay_lift(steps: Seq<ElimStep>, p: Seq<Option<bool>>, a: Asg, n: int)
    requires
        steps_wf(steps, n),
        p.len() == n,
        forall|x: int| 0 <= x < n && !eliminated(steps, x) ==> #[trigger] p[x] == Some(a(x)),
    ensures
        replay(steps, p).len() == n,
        forall|x: int| 0 <= x < n ==> #[trigger] replay(steps, p)[x] == Some(lift(steps, a)(x)),
    decreases steps.len(),
{
    if steps.len() > 0 {
        let s = steps.last();
        let front = steps.drop_last();
        let all = |x: int| true;
        assert(steps[steps.len() - 1] == s);
        assert forall|j: int| 0 <= j < s.rel.vars@.len() && (#[trigger] s.rel.vars@[j]) != s.var implies !eliminated(steps, s.rel.vars@[j] as int) by {
            let x = s.rel.vars@[j];
            assert(s.rel.vars@.contains(x));
            if eliminated(steps, x as int) {
                let i = choose|i: int| 0 <= i < steps.len() && (#[trigger] steps[i]).var == x as int;
                if i < steps.len() - 1 {
                    assert(!steps[steps.len() - 1].rel.vars@.contains(steps[i].var));
                }
            }
        }
        assert forall|row: u64| #[trigger] fits_row(s, row, values(p), known_in(p)) <==> fits_row(s, row, a, all) by {
            assert forall|j: int| 0 <= j < s.rel.vars@.len() && (#[trigger] s.rel.vars@[j]) != s.var implies known_in(p)(s.rel.vars@[j] as int) && values(p)(s.rel.vars@[j] as int) == a(s.rel.vars@[j] as int) by {
                assert(!eliminated(steps, s.rel.vars@[j] as int));
                assert(steps[steps.len() - 1].rel.vars@[j] < n);
                assert(p[s.rel.vars@[j] as int] == Some(a(s.rel.vars@[j] as int)));
            }
        }
        lemma_first_fit_same(s, values(p), known_in(p), a, all, 0);
        let c = chosen(s, a, all);
        let p2 = p.update(s.var as int, Some(c));
        let a2 = sums::set(a, s.var as int, c);
        assert(steps_wf(front, n)) by {
            assert forall|i: int| 0 <= i < front.len() implies (#[trigger] front[i]).var < n && front[i].rel.wf() && front[i].rel.vars@.contains(front[i].var) by {
                assert(front[i] == steps[i]);
            }
            assert forall|i: int, j: int| 0 <= i < front.len() && 0 <= j < front[i].rel.vars@.len() implies (#[trigger] front[i].rel.vars@[j]) < n by {
                assert(steps[i].rel.vars@[j] < n);
            }
            assert forall|i: int, j: int| 0 <= i < j < front.len() implies !(#[trigger] front[j]).rel.vars@.contains((#[trigger] front[i]).var) by {
                assert(!steps[j].rel.vars@.contains(steps[i].var));
            }
        }
        assert forall|x: int| 0 <= x < n && !eliminated(front, x) implies #[trigger] p2[x] == Some(a2(x)) by {
            if x != s.var {
                if eliminated(steps, x) {
                    let i = choose|i: int| 0 <= i < steps.len() && (#[trigger] steps[i]).var == x;
                    assert(front[i].var == x);
                }
                assert(p[x] == Some(a(x)));
            }
        }
        lemma_replay_lift(front, p2, a2, n);
    }
}

proof fn lemma_first_fit_same(step: ElimStep, a: Asg, ka: spec_fn(int) -> bool, b: Asg, kb: spec_fn(int) -> bool, from: int)
    requires
        forall|row: u64| #[trigger] fits_row(step, row, a, ka) <==> fits_row(step, row, b, kb),
    ensures
        first_fit(step, a, ka, from) == first_fit(step, b, kb, from),
    decreases step.rel.rows@.len() - from,
{
    if from < step.rel.rows@.len() {
        assert(fits_row(step, step.rel.rows@[from], a, ka) <==> fits_row(step, step.rel.rows@[from], b, kb));
        lemma_first_fit_same(step, a, ka, b, kb, from + 1);
    }
}

/// The first row that fits comes no later than any that fits.
proof fn lemma_first_fit(step: ElimStep, a: Asg, known: spec_fn(int) -> bool, from: int, k: int)
    requires
        0 <= from <= k < step.rel.rows@.len(),
        fits_row(step, step.rel.rows@[k], a, known),
    ensures
        from <= first_fit(step, a, known, from) <= k,
        fits_row(step, step.rel.rows@[first_fit(step, a, known, from)], a, known),
    decreases k - from,
{
    if !fits_row(step, step.rel.rows@[from], a, known) {
        lemma_first_fit(step, a, known, from + 1, k);
    }
}

/// A relation depends on its own variables only.
pub proof fn lemma_holds_same(rel: Relation, a: Asg, b: Asg)
    requires
        contract::same_on(rel.vars@, a, b),
        rel.holds(a),
    ensures
        rel.holds(b),
{
    let k = choose|k: int| 0 <= k < rel.rows@.len() && network::agrees(rel.vars@, #[trigger] rel.rows@[k], a);
    assert(network::agrees(rel.vars@, rel.rows@[k], b));
}

/// Every relation in use holds under `a`.
pub open spec fn active_hold(live: Seq<Relation>, active: Seq<bool>, a: Asg) -> bool {
    forall|t: int| 0 <= t < live.len() && active[t] ==> (#[trigger] live[t]).holds(a)
}

/// The scope of an assembled constraint is below the budget, or as long as one of the input.
pub open spec fn within_budget(cn: ConstraintNetwork, budget: int, len: int) -> bool {
    len < budget || exists|s: int| 0 <= s < cn.m() && (#[trigger] cn.axes(s)).len() == len
}

/// `c` reshapes `cn`: what it keeps of a model is a model, every model of it lifts to one of
/// `cn`, protected variables stay, the others went in the order of the links that they add, none
/// within the width budget is left, and scopes respect the budget.
pub open spec fn reshapes(cn: ConstraintNetwork, budget: int, protected: Seq<usize>, c: Canonicalized) -> bool {
    &&& c.cn.wf()
    &&& c.model.wf(cn.n(), c.cn.n())
    &&& forall|a: Asg| cn.model(a) ==> #[trigger] c.cn.model(network::pulled(c.model.kept(), a))
    &&& forall|a: Asg| #[trigger] c.cn.model(network::pulled(c.model.kept(), a)) ==> cn.model(lift(c.model.steps(), a))
    &&& forall|i: int| 0 <= i < protected.len() && (#[trigger] protected[i]) < cn.n() ==> c.model.kept()[protected[i] as int] is Some
    &&& forall|x: int| 0 <= x < cn.n() && !protected.contains(x as usize) && (#[trigger] c.model.kept()[x]) is Some ==> vegraph::too_wide(network_scopes(c.cn), budget, c.model.kept()[x]->0)
    &&& minfill::in_order(minfill::ties(network_scopes(cn)), |u: usize| protected.contains(u), cn.n(), budget, gone_of(c.model.steps()))
    &&& forall|t: int| 0 <= t < c.cn.m() ==> within_budget(cn, budget, (#[trigger] c.cn.axes(t)).len() as int)
    &&& c.cn.orig_to_new@.len() == cn.orig_to_new@.len()
    &&& forall|u: int|
        0 <= u < cn.orig_to_new@.len() ==> #[trigger] c.cn.orig_to_new@[u] == (match cn.orig_to_new@[u] {
            Some(x) => c.model.kept()[x as int],
            None => None,
        })
}

/// The bookkeeping invariant of the elimination loop.
spec fn ve_inv(cn: ConstraintNetwork, budget: int, g: VeGraph, live: Seq<Relation>, protected: Seq<bool>, elim: Seq<ElimStep>) -> bool {
    &&& g.wf(cn.n())
    &&& protected.len() == cn.n()
    &&& live.len() == g.scopes@.len()
    &&& forall|t: int| 0 <= t < live.len() && g.active@[t] ==> (#[trigger] live[t]).wf() && live[t].vars@ == g.scopes@[t]@ && live[t].vars@.len() <= 32
        && within_budget(cn, budget, live[t].vars@.len() as int)
    &&& steps_wf(elim, cn.n())
    &&& forall|x: int| 0 <= x < cn.n() ==> (eliminated(elim, x) <==> !#[trigger] vegraph::mentions(g.scopes@, g.active@, x as usize))
    &&& forall|i: int| 0 <= i < elim.len() ==> !protected[(#[trigger] elim[i]).var as int]
    &&& forall|a: Asg| cn.model(a) ==> #[trigger] active_hold(live, g.active@, a)
    &&& forall|a: Asg| #[trigger] active_hold(live, g.active@, a) ==> cn.model(lift(elim, a))
}

/// Eliminating `v`: the constraints that mention it give way to their join without `v`.
proof fn lemma_eliminate(
    cn: ConstraintNetwork,
    budget: int,
    g0: VeGraph,
    g1: VeGraph,
    live0: Seq<Relation>,
    live1: Seq<Relation>,
    protected: Seq<bool>,
    elim0: Seq<ElimStep>,
    v: usize,
    tids: Seq<usize>,
    incident: Seq<Relation>,
    joined: Relation,
    merged: Relation,
)
    requires
        ve_inv(cn, budget, g0, live0, protected, elim0),
        v < cn.n(),
        !protected[v as int],
        tids.len() > 0,
        vegraph::incident_ok(g0.scopes@, g0.active@, tids, v as int),
        vegraph::neighbours_ok(g0.scopes@, g0.active@, v, merged.vars@),
        merged.vars@.len() <= 32,
        merged.vars@.len() < budget,
        incident.len() == tids.len(),
        forall|i: int| 0 <= i < tids.len() ==> (#[trigger] incident[i]).vars@ == live0[tids[i] as int].vars@ && incident[i].rows@ == live0[tids[i] as int].rows@,
        joined.wf(),
        forall|x: Asg| #[trigger] joined.holds(x) <==> contract::all_hold(incident, x),
        forall|x: usize| #[trigger] joined.vars@.contains(x) <==> contract::some_lists(incident, x),
        merged.wf(),
        forall|a: Asg| #[trigger] merged.holds(a) <==> joined.holds_for_some(merged.vars@, a),
        g1.wf(cn.n()),
        g1.scopes@.len() == g0.scopes@.len(),
        forall|t: int| 0 <= t < g0.scopes@.len() ==> #[trigger] g1.active@[t] == (g0.active@[t] && (t == tids[0] || !tids.contains(t as usize))),
        g1.scopes@[tids[0] as int]@ == merged.vars@,
        forall|t: int| 0 <= t < g0.scopes@.len() && t != tids[0] ==> #[trigger] g1.scopes@[t] == g0.scopes@[t],
        live1.len() == live0.len(),
        live1[tids[0] as int] == merged,
        forall|t: int| 0 <= t < live0.len() && t != tids[0] ==> #[trigger] live1[t] == live0[t],
    ensures
        ve_inv(cn, budget, g1, live1, protected, elim0.push(ElimStep { var: v, rel: joined })),
{
    let step = ElimStep { var: v, rel: joined };
    let elim1 = elim0.push(step);
    let keep = tids[0] as int;
    let out = merged.vars@;
    assert(tids.contains(tids[0]));
    assert(g0.scopes.len() == g0.scopes@.len());
    assert(g0.v2t.len() == g0.v2t@.len());
    assert forall|i: int| 0 <= i < tids.len() implies (#[trigger] tids[i]) < live0.len() && g0.active@[tids[i] as int] && g0.scopes@[tids[i] as int]@.contains(v) by {
        assert(tids.contains(tids[i]));
    }
    assert(joined.vars@.contains(v)) by {
        assert(incident[0].vars@ == live0[keep].vars@);
        assert(incident[0].vars@.contains(v));
    }
    assert forall|x: usize| #[trigger] joined.vars@.contains(x) implies x < cn.n() && vegraph::linked(g0.scopes@, g0.active@, v, x) && (x != v ==> out.contains(x)) by {
        let i = choose|i: int| 0 <= i < incident.len() && (#[trigger] incident[i]).vars@.contains(x);
        let t = tids[i] as int;
        assert(live0[t].vars@ == g0.scopes@[t]@);
        assert(g0.scopes@[t]@.contains(v) && g0.scopes@[t]@.contains(x));
        let k = g0.scopes@[t]@.index_of(x);
        assert(g0.scopes@[t]@[k] < cn.n());
    }
    assert forall|x: usize| #[trigger] out.contains(x) implies x < cn.n() && joined.vars@.contains(x) && vegraph::mentions(g0.scopes@, g0.active@, x) by {
        let t = choose|t: int| 0 <= t < g0.scopes@.len() && g0.active@[t] && (#[trigger] g0.scopes@[t])@.contains(v) && g0.scopes@[t]@.contains(x);
        assert(tids.contains(t as usize));
        let i = tids.index_of(t as usize);
        assert(incident[i].vars@.contains(x));
        let k = g0.scopes@[t]@.index_of(x);
        assert(g0.scopes@[t]@[k] < cn.n());
    }
    // Slots.
    assert forall|t: int| 0 <= t < live1.len() && g1.active@[t] implies (#[trigger] live1[t]).wf() && live1[t].vars@ == g1.scopes@[t]@ && live1[t].vars@.len() <= 32 && within_budget(cn, budget, live1[t].vars@.len() as int) by {
        if t != keep {
            assert(live1[t] == live0[t]);
            assert(g1.scopes@[t] == g0.scopes@[t]);
        }
    }
    // Mentions.
    vegraph::lemma_merge_mentions(g0, g1, v, tids, out);
    assert forall|x: int| 0 <= x < cn.n() implies (eliminated(elim1, x) <==> (x == v || eliminated(elim0, x))) by {
        if eliminated(elim1, x) {
            let i = choose|i: int| 0 <= i < elim1.len() && (#[trigger] elim1[i]).var == x;
            if i < elim0.len() {
                assert(elim0[i].var == x);
            }
        }
        if x == v {
            assert(elim1[elim0.len() as int].var == x);
        }
        if eliminated(elim0, x) {
            let i = choose|i: int| 0 <= i < elim0.len() && (#[trigger] elim0[i]).var == x;
            assert(elim1[i].var == x);
        }
    }
    assert forall|x: int| 0 <= x < cn.n() implies (eliminated(elim1, x) <==> !#[trigger] vegraph::mentions(g1.scopes@, g1.active@, x as usize)) by {
        assert(eliminated(elim0, x) <==> !vegraph::mentions(g0.scopes@, g0.active@, x as usize));
        assert(vegraph::mentions(g0.scopes@, g0.active@, v));
    }
    // Steps.
    assert(steps_wf(elim1, cn.n())) by {
        assert forall|i: int| 0 <= i < elim1.len() implies (#[trigger] elim1[i]).var < cn.n() && elim1[i].rel.wf() && elim1[i].rel.vars@.contains(elim1[i].var) by {
            if i < elim0.len() {
                assert(elim1[i] == elim0[i]);
            }
        }
        assert forall|i: int, j: int| 0 <= i < elim1.len() && 0 <= j < elim1[i].rel.vars@.len() implies (#[trigger] elim1[i].rel.vars@[j]) < cn.n() by {
            if i < elim0.len() {
                assert(elim0[i].rel.vars@[j] < cn.n());
            } else {
                assert(joined.vars@.contains(joined.vars@[j]));
            }
        }
        assert forall|i: int, j: int| 0 <= i < j < elim1.len() implies !(#[trigger] elim1[j]).rel.vars@.contains((#[trigger] elim1[i]).var) by {
            if j < elim0.len() {
                assert(!elim0[j].rel.vars@.contains(elim0[i].var));
            } else {
                let x = elim0[i].var;
                assert(eliminated(elim0, x as int));
                assert(!vegraph::mentions(g0.scopes@, g0.active@, x as int as usize));
                if joined.vars@.contains(x) {
                    assert(vegraph::linked(g0.scopes@, g0.active@, v, x));
                    let t = choose|t: int| 0 <= t < g0.scopes@.len() && g0.active@[t] && (#[trigger] g0.scopes@[t])@.contains(v) && g0.scopes@[t]@.contains(x);
                    assert(vegraph::mentions(g0.scopes@, g0.active@, x));
                }
            }
        }
    }
    // Models.
    assert forall|a: Asg| active_hold(live0, g0.active@, a) implies #[trigger] active_hold(live1, g1.active@, a) by {
        assert(contract::all_hold(incident, a)) by {
            assert forall|i: int| 0 <= i < incident.len() implies (#[trigger] incident[i]).holds(a) by {
                assert(live0[tids[i] as int].holds(a));
            }
        }
        assert(joined.holds(a));
        assert(contract::same_on(out, a, a));
        assert(merged.holds(a));
        assert forall|t: int| 0 <= t < live1.len() && g1.active@[t] implies (#[trigger] live1[t]).holds(a) by {
            if t != keep {
                assert(live1[t] == live0[t]);
            }
        }
    }
    assert forall|a: Asg| #[trigger] active_hold(live1, g1.active@, a) implies cn.model(lift(elim1, a)) by {
        let all = |x: int| true;
        assert(g1.active@[keep]);
        assert(live1[keep].holds(a));
        let b = choose|b: Asg| contract::same_on(out, a, b) && #[trigger] joined.holds(b);
        let k = choose|k: int| 0 <= k < joined.rows@.len() && network::agrees(joined.vars@, #[trigger] joined.rows@[k], b);
        assert forall|j: int| 0 <= j < joined.vars@.len() && (#[trigger] joined.vars@[j]) != v implies out.contains(joined.vars@[j]) by {
            assert(joined.vars@.contains(joined.vars@[j]));
        }
        assert(fits_row(step, joined.rows@[k], a, all)) by {
            assert forall|j: int| 0 <= j < step.rel.vars@.len() && (#[trigger] step.rel.vars@[j]) != step.var && all(step.rel.vars@[j] as int) implies bits::bit(joined.rows@[k], j) == a(step.rel.vars@[j] as int) by {
                let q = out.index_of(joined.vars@[j]);
                assert(a(out[q] as int) == b(out[q] as int));
            }
        }
        lemma_first_fit(step, a, all, 0, k);
        let c = chosen(step, a, all);
        let f = first_fit(step, a, all, 0);
        let a2 = sums::set(a, v as int, c);
        assert(network::agrees(joined.vars@, joined.rows@[f], a2)) by {
            assert forall|j: int| 0 <= j < joined.vars@.len() implies bits::bit(joined.rows@[f], j) == a2(#[trigger] joined.vars@[j] as int) by {
                if joined.vars@[j] == v {
                    assert(contract::lists(joined.vars@, v as int));
                    let w = contract::at(joined.vars@, v as int);
                    assert(joined.vars@[w] == v);
                    assert(w == j);
                }
            }
        }
        assert(joined.holds(a2));
        assert(contract::all_hold(incident, a2));
        assert(active_hold(live0, g0.active@, a2)) by {
            assert forall|t: int| 0 <= t < live0.len() && g0.active@[t] implies (#[trigger] live0[t]).holds(a2) by {
                if tids.contains(t as usize) {
                    let i = tids.index_of(t as usize);
                    assert(incident[i].holds(a2));
                } else {
                    assert(g1.active@[t]);
                    assert(live1[t].holds(a));
                    assert(!g0.scopes@[t]@.contains(v));
                    assert(contract::same_on(live0[t].vars@, a, a2)) by {
                        assert forall|i: int| 0 <= i < live0[t].vars@.len() implies a(#[trigger] live0[t].vars@[i] as int) == a2(live0[t].vars@[i] as int) by {
                            assert(live0[t].vars@.contains(live0[t].vars@[i]));
                        }
                    }
                    lemma_holds_same(live0[t], a, a2);
                }
            }
        }
        assert(elim1.last() == step);
        assert(elim1.drop_last() =~= elim0);
    }
    assert forall|i: int| 0 <= i < elim1.len() implies !protected[(#[trigger] elim1[i]).var as int] by {
        if i < elim0.len() {
            assert(elim0[i] == elim1[i]);
        }
    }
}

/// Which variables may not be eliminated.
fn mark_protected(n: usize, protected: &[usize]) -> (r: Vec<bool>)
    ensures
        r@.len() == n,
        forall|x: int| 0 <= x < n ==> #[trigger] r@[x] == protected@.contains(x as usize),
{
    let mut marks: Vec<bool> = Vec::new();
    while marks.len() < n
        invariant
            marks@.len() <= n,
            forall|x: int| 0 <= x < marks@.len() ==> !#[trigger] marks@[x],
        decreases n - marks.len(),
    {
        marks.push(false);
    }
    let mut i: usize = 0;
    while i < protected.len()
        invariant
            i <= protected@.len(),
            marks@.len() == n,
            forall|x: int| 0 <= x < n ==> #[trigger] marks@[x] == protected@.take(i as int).contains(x as usize),
        decreases protected.len() - i,
    {
        proof {
            seqs::lemma_take_next(protected@, i as int);
        }
        if protected[i] < n {
            marks.set(protected[i], true);
        }
        i += 1;
    }
    proof {
        seqs::lemma_take_all(protected@);
    }
    marks
}

/// The constraints of a network as relations, with their scopes.
fn relations(cn: &ConstraintNetwork) -> (r: (Vec<Relation>, Vec<Vec<usize>>))
    requires
        cn.wf(),
    ensures
        r.0@.len() == cn.m(),
        r.1@.len() == cn.m(),
        forall|t: int| 0 <= t < cn.m() ==> (#[trigger] r.0@[t]).wf() && r.0@[t].vars@ == r.1@[t]@ && r.0@[t].vars@.len() == cn.axes(t).len(),
        forall|t: int, v: usize| 0 <= t < cn.m() ==> (#[trigger] r.0@[t].vars@.contains(v) <==> cn.axes(t).contains(v)),
        forall|t: int, a: Asg| 0 <= t < cn.m() ==> (#[trigger] r.0@[t].holds(a) <==> cn.holds(t, a)),
{
    let mut live: Vec<Relation> = Vec::new();
    let mut scopes: Vec<Vec<usize>> = Vec::new();
    let mut t: usize = 0;
    while t < cn.tensors.len()
        invariant
            cn.wf(),
            t <= cn.m(),
            live@.len() == t,
            scopes@.len() == t,
            forall|s: int| 0 <= s < t ==> (#[trigger] live@[s]).wf() && live@[s].vars@ == scopes@[s]@ && live@[s].vars@.len() == cn.axes(s).len(),
            forall|s: int, v: usize| 0 <= s < t ==> (#[trigger] live@[s].vars@.contains(v) <==> cn.axes(s).contains(v)),
            forall|s: int, a: Asg| 0 <= s < t ==> (#[trigger] live@[s].holds(a) <==> cn.holds(s, a)),
        decreases cn.tensors.len() - t,
    {
        assert(cn.tensor_wf(t as int));
        let tensor = &cn.tensors[t];
        let rel = contract::support_relation(tensor.var_axes.as_slice(), cn.support(tensor).as_slice());
        proof {
            assert forall|a: Asg| #[trigger] rel.holds(a) <==> cn.holds(t as int, a) by {
                assert(rel.holds(a) <==> network::rows_hold(cn.axes(t as int), cn.rows(t as int), a));
                if cn.holds(t as int, a) {
                    let k = choose|k: int| 0 <= k < cn.rows(t as int).len() && network::agrees(cn.axes(t as int), #[trigger] cn.rows(t as int)[k] as u64, a);
                    assert(network::agrees(cn.axes(t as int), cn.rows(t as int)[k] as u64, a));
                }
                if network::rows_hold(cn.axes(t as int), cn.rows(t as int), a) {
                    let k = choose|k: int| 0 <= k < cn.rows(t as int).len() && network::agrees(cn.axes(t as int), #[trigger] cn.rows(t as int)[k] as u64, a);
                    assert(network::agrees(cn.axes(t as int), cn.rows(t as int)[k] as u64, a));
                }
            }
        }
        scopes.push(network::copy_ids(&rel.vars));
        live.push(rel);
        t += 1;
    }
    (live, scopes)
}

/// The variables that are open to elimination, with their scores.
pub(crate) fn initial_heap(g: &VeGraph, protected: &Vec<bool>, budget: usize) -> (r: Vec<(usize, usize, usize)>)
    requires
        g.wf(protected@.len() as int),
    ensures
        vegraph::lists_scores(g.scopes@, g.active@, protected@, budget as int, selector::all_ids(protected@.len() as int), r@),
        forall|k: int| 0 <= k < r@.len() ==> (#[trigger] r@[k]).2 < protected@.len(),
{
    let ghost ids = selector::all_ids(protected@.len() as int);
    let ghost mut scores: Seq<Option<(usize, usize)>> = Seq::empty();
    let mut heap: Vec<(usize, usize, usize)> = Vec::new();
    let mut v: usize = 0;
    while v < protected.len()
        invariant
            v <= protected@.len(),
            g.wf(protected@.len() as int),
            ids == selector::all_ids(protected@.len() as int),
            scores.len() == v,
            forall|i: int| 0 <= i < v ==> vegraph::is_score(g.scopes@, g.active@, protected@, budget as int, ids[i], #[trigger] scores[i]),
            heap@ == vegraph::entries(ids, scores, v as int),
            forall|k: int| 0 <= k < heap@.len() ==> (#[trigger] heap@[k]).2 < protected@.len(),
        decreases protected.len() - v,
    {
        let ghost known = scores;
        let score = g.score(protected, budget, v);
        proof {
            scores = known.push(score);
            assert(ids[v as int] == v);
            vegraph::lemma_entries_same(ids, known, scores, v as int);
        }
        match score {
            Some((f, sc)) => {
                heap.push((f, sc, v));
            },
            None => {},
        }
        v += 1;
    }
    proof {
        assert(heap@ == vegraph::entries(ids, scores, ids.len() as int));
    }
    heap
}

/// Score the variables `out` again.
pub(crate) fn rescore(g: &VeGraph, protected: &Vec<bool>, budget: usize, out: &Vec<usize>, heap: &mut Vec<(usize, usize, usize)>)
    requires
        g.wf(protected@.len() as int),
        forall|j: int| 0 <= j < out@.len() ==> (#[trigger] out@[j]) < protected@.len(),
        forall|k: int| 0 <= k < old(heap)@.len() ==> (#[trigger] old(heap)@[k]).2 < protected@.len(),
    ensures
        final(heap)@.len() >= old(heap)@.len(),
        final(heap)@.take(old(heap)@.len() as int) == old(heap)@,
        vegraph::lists_scores(g.scopes@, g.active@, protected@, budget as int, out@, final(heap)@.skip(old(heap)@.len() as int)),
        forall|k: int| 0 <= k < final(heap)@.len() ==> (#[trigger] final(heap)@[k]).2 < protected@.len(),
{
    let ghost before = heap@;
    let ghost mut scores: Seq<Option<(usize, usize)>> = Seq::empty();
    let mut j: usize = 0;
    proof {
        assert(heap@ =~= before + vegraph::entries(out@, scores, 0));
    }
    while j < out.len()
        invariant
            j <= out@.len(),
            g.wf(protected@.len() as int),
            forall|j: int| 0 <= j < out@.len() ==> (#[trigger] out@[j]) < protected@.len(),
            scores.len() == j,
            forall|i: int| 0 <= i < j ==> vegraph::is_score(g.scopes@, g.active@, protected@, budget as int, out@[i], #[trigger] scores[i]),
            heap@ == before + vegraph::entries(out@, scores, j as int),
            forall|k: int| 0 <= k < heap@.len() ==> (#[trigger] heap@[k]).2 < protected@.len(),
        decreases out.len() - j,
    {
        let ghost known = scores;
        let score = g.score(protected, budget, out[j]);
        proof {
            scores = known.push(score);
            vegraph::lemma_entries_same(out@, known, scores, j as int);
        }
        match score {
            Some((f, sc)) => {
                heap.push((f, sc, out[j]));
                proof {
                    assert(heap@ =~= before + vegraph::entries(out@, scores, j + 1));
                }
            },
            None => {},
        }
        j += 1;
    }
    proof {
        let listed = vegraph::entries(out@, scores, out@.len() as int);
        assert(heap@.take(before.len() as int) =~= before);
        assert(heap@.skip(before.len() as int) =~= listed);
    }
}

/// The next variable to eliminate: that of the least entry that is still right. None where nobody
/// is open to elimination.
pub(crate) fn next_variable(g: &VeGraph, protected: &Vec<bool>, budget: usize, heap: &mut Vec<(usize, usize, usize)>) -> (r: Option<usize>)
    requires
        g.wf(protected@.len() as int),
        forall|k: int| 0 <= k < old(heap)@.len() ==> (#[trigger] old(heap)@[k]).2 < protected@.len(),
        minfill::queue_full(*g, protected@, budget as int, old(heap)@, None),
    ensures
        forall|k: int| 0 <= k < final(heap)@.len() ==> (#[trigger] final(heap)@[k]).2 < protected@.len(),
        awaits(*g, protected@, budget as int, final(heap)@, r),
{
    let ghost n = protected@.len() as int;
    while heap.len() > 0
        invariant
            g.wf(n),
            n == protected@.len(),
            forall|k: int| 0 <= k < heap@.len() ==> (#[trigger] heap@[k]).2 < n,
            minfill::queue_full(*g, protected@, budget as int, heap@, None),
        decreases heap@.len(),
    {
        let ghost heap0 = heap@;
        let top = vegraph::pop_min(heap);
        let (fill, sc, v) = match top {
            Some(x) => x,
            None => (0, 0, 0),
        };
        let ghost m = (fill, sc, v);
        proof {
            broadcast use vstd::seq_lib::group_to_multiset_ensures;

            assert forall|k: int| 0 <= k < heap@.len() implies (#[trigger] heap@[k]).2 < n by {
                assert(heap@.contains(heap@[k]));
                assert(heap@.to_multiset().count(heap@[k]) > 0);
                assert(heap0.to_multiset().count(heap@[k]) > 0);
                assert(heap0.contains(heap@[k]));
                let q = heap0.index_of(heap@[k]);
                assert(heap0[q].2 < n);
            }
            assert forall|e: (usize, usize, usize)| heap0.contains(e) && e != m implies #[trigger] heap@.contains(e) by {
                assert(heap0.to_multiset().count(e) > 0);
                assert(heap@.to_multiset().count(e) > 0);
            }
            let q = heap0.index_of(m);
            assert(heap0[q].2 < n);
        }
        let now = g.score(protected, budget, v);
        match now {
            Some((f, s)) => {
                if f == fill && s == sc {
                    proof {
                        minfill::lemma_popped_least(*g, protected@, budget as int, heap0, fill, sc, v);
                    }
                    return Some(v);
                }
            },
            None => {},
        }
        proof {
            assert forall|u: usize, x: usize, y: usize|
                u < n && #[trigger] vegraph::is_score(g.scopes@, g.active@, protected@, budget as int, u, Some((x, y))) implies heap@.contains((x, y, u)) by {
                assert(heap0.contains((x, y, u)));
                if (x, y, u) == m {
                    minfill::lemma_one_score(*g, protected@, budget as int, v, now, Some((x, y)));
                }
            }
        }
    }
    proof {
        assert(heap@ =~= Seq::empty());
        minfill::lemma_exhausted(*g, protected@, budget as int);
    }
    None
}

/// The next variable may go within the budget and is the least, and all others that may go are
/// queued. Without a next one nobody may go.
pub open spec fn awaits(g: VeGraph, protected: Seq<bool>, budget: int, heap: Seq<(usize, usize, usize)>, next: Option<usize>) -> bool {
    match next {
        Some(v) => {
            &&& v < protected.len()
            &&& !protected[v as int]
            &&& vegraph::mentions(g.scopes@, g.active@, v)
            &&& forall|out: Seq<usize>| #[trigger] vegraph::neighbours_ok(g.scopes@, g.active@, v, out) ==> out.len() <= 32 && out.len() + 1 <= budget
            &&& minfill::least(g, protected, budget, v)
            &&& minfill::queue_full(g, protected, budget, heap, Some(v))
        },
        None => vegraph::exhausted(g.scopes@, g.active@, protected, budget),
    }
}

/// Every variable is queued at the start.
pub(crate) proof fn lemma_queue_start(g: VeGraph, protected: Seq<bool>, budget: int, heap: Seq<(usize, usize, usize)>)
    requires
        protected.len() <= usize::MAX,
        vegraph::lists_scores(g.scopes@, g.active@, protected, budget, selector::all_ids(protected.len() as int), heap),
    ensures
        minfill::queue_full(g, protected, budget, heap, None),
{
    let ids = selector::all_ids(protected.len() as int);
    assert forall|u: usize, f: usize, sc: usize|
        u < protected.len() && #[trigger] vegraph::is_score(g.scopes@, g.active@, protected, budget, u, Some((f, sc))) implies heap.contains((f, sc, u)) by {
        assert(ids[u as int] == u);
        minfill::lemma_listed(g, protected, budget, ids, heap, u, f, sc);
    }
}

/// Copies of the relations in the slots `tids`.
fn collect(live: &Vec<Relation>, tids: &Vec<usize>) -> (r: Vec<Relation>)
    requires
        forall|i: int| 0 <= i < tids@.len() ==> (#[trigger] tids@[i]) < live@.len(),
    ensures
        r@.len() == tids@.len(),
        forall|i: int| 0 <= i < tids@.len() ==> (#[trigger] r@[i]).vars@ == live@[tids@[i] as int].vars@ && r@[i].rows@ == live@[tids@[i] as int].rows@,
{
    let mut out: Vec<Relation> = Vec::new();
    let mut i: usize = 0;
    while i < tids.len()
        invariant
            i <= tids@.len(),
            forall|i: int| 0 <= i < tids@.len() ==> (#[trigger] tids@[i]) < live@.len(),
            out@.len() == i,
            forall|k: int| 0 <= k < i ==> (#[trigger] out@[k]).vars@ == live@[tids@[k] as int].vars@ && out@[k].rows@ == live@[tids@[k] as int].rows@,
        decreases tids.len() - i,
    {
        out.push(live[tids[i]].copy());
        i += 1;
    }
    out
}

/// The number of variables below `n` that some slot in use mentions.
pub open spec fn open_count(g: VeGraph, n: int) -> nat
    decreases n,
{
    if n <= 0 {
        0
    } else {
        open_count(g, n - 1) + (if vegraph::mentions(g.scopes@, g.active@, (n - 1) as usize) {
            1nat
        } else {
            0nat
        })
    }
}

pub proof fn lemma_open_less(g0: VeGraph, g1: VeGraph, v: usize, n: int)
    requires
        vegraph::mentions(g0.scopes@, g0.active@, v),
        !vegraph::mentions(g1.scopes@, g1.active@, v),
        n <= usize::MAX + 1,
        forall|x: usize| x != v && #[trigger] vegraph::mentions(g1.scopes@, g1.active@, x) ==> vegraph::mentions(g0.scopes@, g0.active@, x),
    ensures
        open_count(g1, n) <= open_count(g0, n),
        v < n ==> open_count(g1, n) < open_count(g0, n),
    decreases n,
{
    if n > 0 {
        lemma_open_less(g0, g1, v, n - 1);
        let x = (n - 1) as usize;
        if x != v {
            assert(vegraph::mentions(g1.scopes@, g1.active@, x) ==> vegraph::mentions(g0.scopes@, g0.active@, x));
        }
    }
}

/// Eliminate unprotected variables, cheapest first, while the width stays within `budget_b`.
/// None where an elimination or an empty constraint shows that there is no model.
pub fn bounded_ve_canonicalize(cn: &ConstraintNetwork, budget_b: usize, protected: &[usize]) -> (r: Option<Canonicalized>)
    requires
        cn.wf(),
    ensures
        match r {
            None => forall|a: Asg| !#[trigger] cn.model(a),
            Some(c) => reshapes(*cn, budget_b as int, protected@, c),
        },
{
    let nv: usize = cn.n_vars();
    let ghost n = cn.n();
    let (mut live, scopes) = relations(cn);
    proof {
        assert forall|t: int| 0 <= t < scopes@.len() implies network::ascending_ids((#[trigger] scopes@[t])@) by {
            assert(live@[t].wf());
        }
        assert forall|t: int, i: int| 0 <= t < scopes@.len() && 0 <= i < scopes@[t]@.len() implies (#[trigger] scopes@[t]@[i]) < nv by {
            assert(live@[t].vars@ == scopes@[t]@);
            assert(live@[t].vars@.contains(scopes@[t]@[i]));
            assert(cn.tensor_wf(t));
            let k = cn.axes(t).index_of(scopes@[t]@[i]);
            assert(cn.axes(t)[k] < n);
        }
    }
    let mut g = VeGraph::new(scopes, nv);
    let marks = mark_protected(nv, protected);
    let mut elim: Vec<ElimStep> = Vec::new();
    proof {
        lemma_start(*cn, budget_b as int, g, live@, marks@, elim@);
    }
    let mut heap = initial_heap(&g, &marks, budget_b);
    let ghost start = minfill::ties(network_scopes(*cn));
    let ghost held = |u: usize| protected@.contains(u);
    proof {
        assert(marks.len() == n);
        lemma_queue_start(g, marks@, budget_b as int, heap@);
        lemma_links_start(*cn, g, live@);
        assert(gone_of(elim@) =~= Seq::empty());
        reveal(minfill::in_order);
    }
    let mut next = next_variable(&g, &marks, budget_b, &mut heap);
    while next.is_some()
        invariant
            cn.wf(),
            n == cn.n() == marks@.len(),
            ve_inv(*cn, budget_b as int, g, live@, marks@, elim@),
            forall|k: int| 0 <= k < heap@.len() ==> (#[trigger] heap@[k]).2 < n,
            awaits(g, marks@, budget_b as int, heap@, next),
            forall|u: usize| u < n ==> #[trigger] held(u) == marks@[u as int],
            forall|a: usize, b: usize| #[trigger] minfill::game(start, gone_of(elim@))(a, b) <==> vegraph::linked(g.scopes@, g.active@, a, b),
            minfill::in_order(start, held, n, budget_b as int, gone_of(elim@)),
        decreases open_count(g, n),
    {
        if let Some(v) = next {
            let tids = g.incident(v);
            let out = g.neighbours(&tids, v);
            proof {
                assert(vegraph::mentions(g.scopes@, g.active@, v));
                let t = choose|t: int| 0 <= t < g.scopes@.len() && g.active@[t] && (#[trigger] g.scopes@[t])@.contains(v);
                assert(g.scopes.len() == g.scopes@.len());
                assert(tids@.contains(t as usize));
                assert forall|i: int| 0 <= i < tids@.len() implies (#[trigger] tids@[i]) < live@.len() by {
                    assert(tids@.contains(tids@[i]));
                }
            }
            let incident = collect(&live, &tids);
            proof {
                lemma_incident_joinable(g, live@, v, tids@, out@, incident@);
            }
            let ghost inc = incident@;
            let joined = contract::join_all(incident);
            if joined.rows.len() == 0 {
                proof {
                    assert forall|a: Asg| !#[trigger] cn.model(a) by {
                        if cn.model(a) {
                            assert(active_hold(live@, g.active@, a));
                            assert(contract::all_hold(inc, a)) by {
                                assert forall|i: int| 0 <= i < inc.len() implies (#[trigger] inc[i]).holds(a) by {
                                    assert(tids@.contains(tids@[i]));
                                    assert(live@[tids@[i] as int].holds(a));
                                }
                            }
                            assert(joined.holds(a));
                        }
                    }
                }
                return None;
            }
            proof {
                lemma_out_within(g, live@, v, tids@, out@, inc, joined.vars@);
            }
            let merged = joined.project(out.as_slice());
            let ghost g0 = g;
            let ghost live0 = live@;
            let ghost elim0 = elim@;
            g.merge(v, &tids, &out);
            live.set(tids[0], merged);
            elim.push(ElimStep { var: v, rel: joined });
            proof {
                lemma_eliminate(*cn, budget_b as int, g0, g, live0, live@, marks@, elim0, v, tids@, inc, joined, merged);
                lemma_mentions_shrink(*cn, budget_b as int, g0, g, live0, live@, marks@, elim0, v, joined);
                assert(marks.len() == n);
                lemma_open_less(g0, g, v, n);
                assert forall|j: int| 0 <= j < out@.len() implies (#[trigger] out@[j]) < marks@.len() by {
                    g0.lemma_neighbour_range(v, out@, j);
                }
            }
            let ghost heap0 = heap@;
            proof {
                minfill::lemma_merge_links(g0, g, v, tids@, out@);
                minfill::lemma_least_first(g0, minfill::game(start, gone_of(elim0)), held, marks@, budget_b as int, v);
                minfill::lemma_in_order_push(start, held, n, budget_b as int, gone_of(elim0), v);
                minfill::lemma_game_next(start, gone_of(elim0), g0, g, v);
                assert(gone_of(elim@) =~= gone_of(elim0).push(v));
            }
            let near = g.around(&out);
            rescore(&g, &marks, budget_b, &near, &mut heap);
            proof {
                minfill::lemma_queue_kept(g0, g, marks@, budget_b as int, v, out@, near@, heap0, heap@);
            }
            next = next_variable(&g, &marks, budget_b, &mut heap);
        }
    }
    let mut surviving: Vec<Relation> = Vec::new();
    let mut t: usize = 0;
    while t < live.len()
        invariant
            cn.wf(),
            n == cn.n() == marks@.len(),
            ve_inv(*cn, budget_b as int, g, live@, marks@, elim@),
            t <= live@.len(),
            contract::all_small(surviving@, n),
            forall|i: int| 0 <= i < surviving@.len() ==> within_budget(*cn, budget_b as int, (#[trigger] surviving@[i]).vars@.len() as int),
            forall|x: usize| #[trigger] contract::some_lists(surviving@, x) <==> mentions_upto(g, t as int, x),
            forall|a: Asg| #[trigger] contract::all_hold(surviving@, a) <==> active_hold_upto(live@, g.active@, t as int, a),
            vegraph::exhausted(g.scopes@, g.active@, marks@, budget_b as int),
            minfill::in_order(start, held, n, budget_b as int, gone_of(elim@)),
            vegraph::lists_scopes(g, t as int, scopes_of(surviving@)),
        decreases live.len() - t,
    {
        let ghost before = surviving@;
        if g.active[t] {
            assert(live@[t as int].wf());
            if live[t].rows.len() == 0 {
                proof {
                    assert forall|a: Asg| !#[trigger] cn.model(a) by {
                        if cn.model(a) {
                            assert(active_hold(live@, g.active@, a));
                            assert(live@[t as int].holds(a));
                        }
                    }
                }
                return None;
            }
            if live[t].vars.len() > 0 {
                surviving.push(live[t].copy());
            }
        }
        proof {
            lemma_survive(g, live@, before, surviving@, t as int, n);
            let list = scopes_of(before);
            if g.active@[t as int] && g.scopes@[t as int]@.len() > 0 {
                assert(scopes_of(surviving@) =~= list.push(g.scopes@[t as int]@));
            }
            vegraph::lemma_scopes_step(g, t as int, list, scopes_of(surviving@));
        }
        t += 1;
    }
    let ghost last = surviving@;
    let new_cn = contract::setup_from_relations(nv, surviving);
    let cn_to_new = copy_map(&new_cn.orig_to_new);
    let mut orig_to_new: Vec<Option<usize>> = Vec::new();
    let mut u: usize = 0;
    proof {
        assert(new_cn.orig_to_new@.len() == n) by {
            let given = choose|given: Seq<(Vec<usize>, Vec<u32>)>| contract::narrows(last, given) && #[trigger] network::assembles(new_cn, n, given);
        }
    }
    while u < cn.orig_to_new.len()
        invariant
            cn.wf(),
            cn_to_new@.len() == cn.n(),
            u <= cn.orig_to_new@.len(),
            orig_to_new@.len() == u,
            forall|w: int|
                0 <= w < u ==> #[trigger] orig_to_new@[w] == (match cn.orig_to_new@[w] {
                    Some(x) => cn_to_new@[x as int],
                    None => None,
                }),
        decreases cn.orig_to_new.len() - u,
    {
        match cn.orig_to_new[u] {
            Some(x) => {
                assert(cn.orig_to_new@[u as int] is Some);
                orig_to_new.push(cn_to_new[x]);
            },
            None => {
                orig_to_new.push(None);
            },
        }
        u += 1;
    }
    let ghost old_new = new_cn;
    let ConstraintNetwork { vars, unique_tensors, tensors, v2t, orig_to_new: unused } = new_cn;
    let c = Canonicalized {
        cn: ConstraintNetwork { vars, unique_tensors, tensors, v2t, orig_to_new },
        model: ModelReconstructor { cn_to_new, elim },
    };
    proof {
        lemma_finish(*cn, budget_b as int, protected@, g, live@, marks@, elim@, last, old_new, c);
    }
    Some(c)
}

/// A copy of a numbering.
pub(crate) fn copy_map(map: &Vec<Option<usize>>) -> (r: Vec<Option<usize>>)
    ensures
        r@ == map@,
{
    let mut out: Vec<Option<usize>> = Vec::new();
    let mut i: usize = 0;
    while i < map.len()
        invariant
            i <= map@.len(),
            out@ == map@.take(i as int),
        decreases map.len() - i,
    {
        proof {
            seqs::lemma_take_next(map@, i as int);
        }
        out.push(map[i]);
        i += 1;
    }
    proof {
        seqs::lemma_take_all(map@);
    }
    out
}

/// The variables that were eliminated, in order.
pub open spec fn gone_of(steps: Seq<ElimStep>) -> Seq<usize> {
    Seq::new(steps.len(), |i: int| steps[i].var)
}

/// At the start the slots link what the constraints tie.
proof fn lemma_links_start(cn: ConstraintNetwork, g: VeGraph, live: Seq<Relation>)
    requires
        live.len() == cn.m() == g.scopes@.len(),
        forall|t: int| 0 <= t < live.len() ==> #[trigger] g.active@[t],
        forall|t: int| 0 <= t < live.len() ==> (#[trigger] live[t]).vars@ == g.scopes@[t]@,
        forall|t: int, v: usize| 0 <= t < cn.m() ==> (#[trigger] live[t].vars@.contains(v) <==> cn.axes(t).contains(v)),
    ensures
        forall|a: usize, b: usize| #[trigger] minfill::ties(network_scopes(cn))(a, b) <==> vegraph::linked(g.scopes@, g.active@, a, b),
{
    let list = network_scopes(cn);
    assert forall|a: usize, b: usize| #[trigger] minfill::ties(list)(a, b) <==> vegraph::linked(g.scopes@, g.active@, a, b) by {
        if vegraph::tied(list, a, b) {
            let t = choose|t: int| 0 <= t < list.len() && (#[trigger] list[t]).contains(a) && list[t].contains(b);
            assert(live[t].vars@.contains(a) && live[t].vars@.contains(b));
            assert(live[t].vars@ == g.scopes@[t]@);
            assert(g.active@[t]);
        }
        if vegraph::linked(g.scopes@, g.active@, a, b) {
            let t = choose|t: int| 0 <= t < g.scopes@.len() && g.active@[t] && (#[trigger] g.scopes@[t])@.contains(a) && g.scopes@[t]@.contains(b);
            assert(live[t].vars@ == g.scopes@[t]@);
            assert(live[t].vars@.contains(a) && live[t].vars@.contains(b));
            assert(list[t].contains(a) && list[t].contains(b));
        }
    }
}

/// The scopes of relations.
pub open spec fn scopes_of(rels: Seq<Relation>) -> Seq<Seq<usize>> {
    Seq::new(rels.len(), |i: int| rels[i].vars@)
}

/// The scopes of a network.
pub open spec fn network_scopes(cn: ConstraintNetwork) -> Seq<Seq<usize>> {
    Seq::new(cn.m() as nat, |t: int| cn.axes(t))
}

/// Renumbering keeps the number of partners.
proof fn lemma_partners_renumbered(cn: ConstraintNetwork, var_num: int, given: Seq<(Vec<usize>, Vec<u32>)>, rels: Seq<Relation>, v: usize)
    requires
        network::assembles(cn, var_num, given),
        contract::narrows(rels, given),
        v < var_num <= usize::MAX,
        cn.orig_to_new@[v as int] is Some,
        vegraph::partners(scopes_of(rels), v).finite(),
    ensures
        vegraph::partners(network_scopes(cn), cn.orig_to_new@[v as int]->0).len() == vegraph::partners(scopes_of(rels), v).len(),
{
    let kept = cn.orig_to_new@;
    let olds = scopes_of(rels);
    let news = network_scopes(cn);
    let w = kept[v as int]->0;
    let f = |x: usize| kept[x as int]->0;
    let a = vegraph::partners(olds, v);
    let b = vegraph::partners(news, w);
    assert forall|x: usize, i: int| 0 <= i < olds.len() && x < var_num && kept[x as int] is Some implies (#[trigger] olds[i].contains(x) <==> news[i].contains(f(x))) by {
        assert(network::renumbered(kept, given[i].0@, cn.axes(i)));
        if olds[i].contains(x) {
            let j = olds[i].index_of(x);
            assert(given[i].0@[j] == x);
            assert(cn.axes(i)[j] == f(x));
        }
        if news[i].contains(f(x)) {
            let j = cn.axes(i).index_of(f(x));
            assert(kept[given[i].0@[j] as int] == Some(cn.axes(i)[j]));
            let y = given[i].0@[j];
            if y < x {
                assert(kept[y as int]->0 < kept[x as int]->0);
            }
            if x < y {
                assert(kept[x as int]->0 < kept[y as int]->0);
            }
            assert(olds[i][j] == x);
        }
    }
    assert forall|x: usize| #[trigger] a.contains(x) implies x < var_num && kept[x as int] is Some by {
        let i = choose|i: int| 0 <= i < olds.len() && (#[trigger] olds[i]).contains(v) && olds[i].contains(x);
        let j = olds[i].index_of(x);
        assert(network::renumbered(kept, given[i].0@, cn.axes(i)));
        assert(kept[given[i].0@[j] as int] == Some(cn.axes(i)[j]));
    }
    assert(a.map(f) =~= b) by {
        assert forall|y: usize| a.map(f).contains(y) implies #[trigger] b.contains(y) by {
            let x = choose|x: usize| a.contains(x) && f(x) == y;
            let i = choose|i: int| 0 <= i < olds.len() && (#[trigger] olds[i]).contains(v) && olds[i].contains(x);
            assert(news[i].contains(f(v)) && news[i].contains(f(x)));
            if v < x {
                assert(kept[v as int]->0 < kept[x as int]->0);
            } else {
                assert(kept[x as int]->0 < kept[v as int]->0);
            }
        }
        assert forall|y: usize| #[trigger] b.contains(y) implies a.map(f).contains(y) by {
            let i = choose|i: int| 0 <= i < news.len() && (#[trigger] news[i]).contains(w) && news[i].contains(y);
            let j = news[i].index_of(y);
            assert(network::renumbered(kept, given[i].0@, cn.axes(i)));
            assert(kept[given[i].0@[j] as int] == Some(cn.axes(i)[j]));
            let x = given[i].0@[j];
            assert(f(x) == y);
            assert(olds[i].contains(v) <==> news[i].contains(f(v)));
            assert(olds[i].contains(x) <==> news[i].contains(f(x)));
            assert(a.contains(x));
        }
    }
    assert(vstd::relations::injective_on(f, a)) by {
        assert forall|x: usize, y: usize| a.contains(x) && a.contains(y) && #[trigger] f(x) == #[trigger] f(y) implies x == y by {
            if x < y {
                assert(kept[x as int]->0 < kept[y as int]->0);
            } else if y < x {
                assert(kept[y as int]->0 < kept[x as int]->0);
            }
        }
    }
    vstd::set_lib::lemma_map_size(a, b, f);
}

/// One of the first `upto` slots is in use and mentions `x`.
pub open spec fn mentions_upto(g: VeGraph, upto: int, x: usize) -> bool {
    exists|t: int| 0 <= t < upto && g.active@[t] && (#[trigger] g.scopes@[t])@.contains(x)
}

/// Every relation in use among the first `upto` holds under `a`.
spec fn active_hold_upto(live: Seq<Relation>, active: Seq<bool>, upto: int, a: Asg) -> bool {
    forall|t: int| 0 <= t < upto && active[t] ==> (#[trigger] live[t]).holds(a)
}

/// The invariant at the start of an elimination.
proof fn lemma_start(cn: ConstraintNetwork, budget: int, g: VeGraph, live: Seq<Relation>, protected: Seq<bool>, elim: Seq<ElimStep>)
    requires
        cn.wf(),
        g.wf(cn.n()),
        protected.len() == cn.n(),
        live.len() == cn.m() == g.scopes@.len(),
        forall|t: int| 0 <= t < live.len() ==> #[trigger] g.active@[t],
        forall|t: int| 0 <= t < live.len() ==> (#[trigger] live[t]).wf() && live[t].vars@ == g.scopes@[t]@ && live[t].vars@.len() == cn.axes(t).len(),
        forall|t: int, v: usize| 0 <= t < cn.m() ==> (#[trigger] live[t].vars@.contains(v) <==> cn.axes(t).contains(v)),
        forall|t: int, a: Asg| 0 <= t < cn.m() ==> (#[trigger] live[t].holds(a) <==> cn.holds(t, a)),
        elim.len() == 0,
    ensures
        ve_inv(cn, budget, g, live, protected, elim),
{
    assert forall|t: int| 0 <= t < live.len() && g.active@[t] implies (#[trigger] live[t]).wf() && live[t].vars@ == g.scopes@[t]@ && live[t].vars@.len() <= 32 && within_budget(cn, budget, live[t].vars@.len() as int) by {
        assert(cn.tensor_wf(t));
        assert(cn.axes(t).len() == live[t].vars@.len());
    }
    assert forall|x: int| 0 <= x < cn.n() implies (eliminated(elim, x) <==> !#[trigger] vegraph::mentions(g.scopes@, g.active@, x as usize)) by {
        assert(cn.incidence_wf(x));
        let t = cn.v2t@[x]@[0] as int;
        assert(cn.axes(t).contains(x as usize));
        assert(live[t].vars@.contains(x as usize));
        assert(g.active@[t]);
        assert(g.scopes@[t]@.contains(x as usize));
    }
    assert forall|a: Asg| cn.model(a) implies #[trigger] active_hold(live, g.active@, a) by {
        assert forall|t: int| 0 <= t < live.len() && g.active@[t] implies (#[trigger] live[t]).holds(a) by {
            assert(cn.holds(t, a));
        }
    }
    assert forall|a: Asg| #[trigger] active_hold(live, g.active@, a) implies cn.model(lift(elim, a)) by {
        assert(lift(elim, a) == a);
        assert forall|t: int| 0 <= t < cn.m() implies #[trigger] cn.holds(t, a) by {
            assert(g.active@[t]);
            assert(live[t].holds(a));
        }
    }
}

/// The slots that mention one variable together have few enough variables to join.
proof fn lemma_incident_joinable(g: VeGraph, live: Seq<Relation>, v: usize, tids: Seq<usize>, out: Seq<usize>, incident: Seq<Relation>)
    requires
        g.active@.len() == g.scopes@.len() == live.len(),
        forall|t: int| 0 <= t < live.len() && g.active@[t] ==> (#[trigger] live[t]).wf() && live[t].vars@ == g.scopes@[t]@,
        vegraph::incident_ok(g.scopes@, g.active@, tids, v as int),
        vegraph::neighbours_ok(g.scopes@, g.active@, v, out),
        out.len() <= 32,
        incident.len() == tids.len(),
        forall|i: int| 0 <= i < tids.len() ==> (#[trigger] incident[i]).vars@ == live[tids[i] as int].vars@ && incident[i].rows@ == live[tids[i] as int].rows@,
    ensures
        contract::joinable(incident),
{
    let u = out.push(v);
    seqs::lemma_push_contains(out, v);
    assert forall|i: int| 0 <= i < incident.len() implies (#[trigger] incident[i]).wf() && contract::within(incident[i].vars@, u) by {
        let t = tids[i] as int;
        assert(tids.contains(tids[i]));
        assert(live[t].wf());
        assert forall|j: int| 0 <= j < incident[i].vars@.len() implies u.contains(#[trigger] incident[i].vars@[j]) by {
            let x = incident[i].vars@[j];
            assert(g.scopes@[t]@.contains(x));
            if x != v {
                assert(g.scopes@[t]@.contains(v));
                assert(out.contains(x));
            }
        }
    }
    assert(contract::roomy(u) && contract::all_within(incident, u));
}

/// The neighbours are variables of the join.
proof fn lemma_out_within(g: VeGraph, live: Seq<Relation>, v: usize, tids: Seq<usize>, out: Seq<usize>, incident: Seq<Relation>, vars: Seq<usize>)
    requires
        g.active@.len() == g.scopes@.len() == live.len(),
        forall|t: int| 0 <= t < live.len() && g.active@[t] ==> (#[trigger] live[t]).vars@ == g.scopes@[t]@,
        vegraph::incident_ok(g.scopes@, g.active@, tids, v as int),
        vegraph::neighbours_ok(g.scopes@, g.active@, v, out),
        incident.len() == tids.len(),
        forall|i: int| 0 <= i < tids.len() ==> (#[trigger] incident[i]).vars@ == live[tids[i] as int].vars@,
        forall|x: usize| #[trigger] vars.contains(x) <==> contract::some_lists(incident, x),
    ensures
        contract::within(out, vars),
{
    assert(g.scopes.len() == g.scopes@.len());
    assert forall|j: int| 0 <= j < out.len() implies vars.contains(#[trigger] out[j]) by {
        let x = out[j];
        assert(out.contains(x));
        let t = choose|t: int| 0 <= t < g.scopes@.len() && g.active@[t] && (#[trigger] g.scopes@[t])@.contains(v) && g.scopes@[t]@.contains(x);
        assert(tids.contains(t as usize));
        let i = tids.index_of(t as usize);
        assert(live[t].vars@.contains(x));
        assert(incident[i].vars@.contains(x));
    }
}

/// An elimination leaves one variable fewer mentioned.
proof fn lemma_mentions_shrink(cn: ConstraintNetwork, budget: int, g0: VeGraph, g1: VeGraph, live0: Seq<Relation>, live1: Seq<Relation>, protected: Seq<bool>, elim0: Seq<ElimStep>, v: usize, joined: Relation)
    requires
        ve_inv(cn, budget, g0, live0, protected, elim0),
        ve_inv(cn, budget, g1, live1, protected, elim0.push(ElimStep { var: v, rel: joined })),
        v < cn.n(),
    ensures
        !vegraph::mentions(g1.scopes@, g1.active@, v),
        forall|x: usize| x != v && #[trigger] vegraph::mentions(g1.scopes@, g1.active@, x) ==> vegraph::mentions(g0.scopes@, g0.active@, x),
{
    let elim1 = elim0.push(ElimStep { var: v, rel: joined });
    assert(elim1[elim0.len() as int].var == v);
    assert(eliminated(elim1, v as int));
    assert(v as int as usize == v);
    assert forall|x: usize| x != v && #[trigger] vegraph::mentions(g1.scopes@, g1.active@, x) implies vegraph::mentions(g0.scopes@, g0.active@, x) by {
        let t = choose|t: int| 0 <= t < g1.scopes@.len() && g1.active@[t] && (#[trigger] g1.scopes@[t])@.contains(x);
        let k = g1.scopes@[t]@.index_of(x);
        assert(g1.scopes@[t]@[k] < cn.n());
        assert(x as int as usize == x);
        if eliminated(elim0, x as int) {
            let i = choose|i: int| 0 <= i < elim0.len() && (#[trigger] elim0[i]).var == x as int;
            assert(elim1[i].var == x as int);
            assert(eliminated(elim1, x as int));
        }
        assert(!eliminated(elim0, x as int));
    }
}

/// Collecting one more slot.
proof fn lemma_survive(g: VeGraph, live: Seq<Relation>, before: Seq<Relation>, after: Seq<Relation>, t: int, n: int)
    requires
        g.wf(n),
        0 <= t < live.len() == g.scopes@.len(),
        g.active@[t] ==> live[t].wf() && live[t].vars@ == g.scopes@[t]@ && live[t].rows@.len() > 0,
        g.active@[t] && live[t].vars@.len() > 0 ==> after.len() == before.len() + 1 && after.drop_last() =~= before && after.last().vars@ == live[t].vars@ && after.last().rows@ == live[t].rows@,
        !(g.active@[t] && live[t].vars@.len() > 0) ==> after == before,
        forall|x: usize| #[trigger] contract::some_lists(before, x) <==> mentions_upto(g, t, x),
        forall|a: Asg| #[trigger] contract::all_hold(before, a) <==> active_hold_upto(live, g.active@, t, a),
    ensures
        forall|x: usize| #[trigger] contract::some_lists(after, x) <==> mentions_upto(g, t + 1, x),
        forall|a: Asg| #[trigger] contract::all_hold(after, a) <==> active_hold_upto(live, g.active@, t + 1, a),
{
    let took = g.active@[t] && live[t].vars@.len() > 0;
    assert forall|x: usize| #[trigger] contract::some_lists(after, x) <==> mentions_upto(g, t + 1, x) by {
        assert(contract::some_lists(before, x) <==> mentions_upto(g, t, x));
        if contract::some_lists(after, x) {
            let i = choose|i: int| 0 <= i < after.len() && (#[trigger] after[i]).vars@.contains(x);
            if i < before.len() {
                assert(before[i].vars@.contains(x));
                assert(contract::some_lists(before, x));
                let s = choose|s: int| 0 <= s < t && g.active@[s] && (#[trigger] g.scopes@[s])@.contains(x);
                assert(g.scopes@[s]@.contains(x));
            } else {
                assert(g.scopes@[t]@.contains(x));
            }
        }
        if mentions_upto(g, t + 1, x) {
            let s = choose|s: int| 0 <= s < t + 1 && g.active@[s] && (#[trigger] g.scopes@[s])@.contains(x);
            if s < t {
                assert(mentions_upto(g, t, x));
                let i = choose|i: int| 0 <= i < before.len() && (#[trigger] before[i]).vars@.contains(x);
                assert(after[i].vars@.contains(x));
            } else {
                assert(after[before.len() as int].vars@.contains(x));
            }
        }
    }
    assert forall|a: Asg| #[trigger] contract::all_hold(after, a) <==> active_hold_upto(live, g.active@, t + 1, a) by {
        assert(contract::all_hold(before, a) <==> active_hold_upto(live, g.active@, t, a));
        if g.active@[t] && live[t].vars@.len() == 0 {
            assert(network::agrees(live[t].vars@, live[t].rows@[0], a));
            assert(live[t].holds(a));
        }
        if contract::all_hold(after, a) {
            assert(contract::all_hold(before, a)) by {
                assert forall|i: int| 0 <= i < before.len() implies (#[trigger] before[i]).holds(a) by {
                    assert(after[i].holds(a));
                }
            }
            if took {
                assert(after[before.len() as int].holds(a));
                assert(live[t].holds(a));
            }
        }
        if active_hold_upto(live, g.active@, t + 1, a) {
            assert(active_hold_upto(live, g.active@, t, a));
            assert forall|i: int| 0 <= i < after.len() implies (#[trigger] after[i]).holds(a) by {
                if i < before.len() {
                    assert(before[i].holds(a));
                } else {
                    assert(live[t].holds(a));
                }
            }
        }
    }
}

/// Composing the two numberings, and the meaning of the assembled network.
proof fn lemma_finish(
    cn: ConstraintNetwork,
    budget: int,
    protected: Seq<usize>,
    g: VeGraph,
    live: Seq<Relation>,
    marks: Seq<bool>,
    elim: Seq<ElimStep>,
    last: Seq<Relation>,
    new_cn: ConstraintNetwork,
    c: Canonicalized,
)
    requires
        cn.wf(),
        ve_inv(cn, budget, g, live, marks, elim),
        forall|x: int| 0 <= x < cn.n() ==> #[trigger] marks[x] == protected.contains(x as usize),
        forall|i: int| 0 <= i < last.len() ==> within_budget(cn, budget, (#[trigger] last[i]).vars@.len() as int),
        forall|x: usize| #[trigger] contract::some_lists(last, x) <==> mentions_upto(g, live.len() as int, x),
        forall|a: Asg| #[trigger] contract::all_hold(last, a) <==> active_hold_upto(live, g.active@, live.len() as int, a),
        vegraph::exhausted(g.scopes@, g.active@, marks, budget),
        minfill::in_order(minfill::ties(network_scopes(cn)), |u: usize| protected.contains(u), cn.n(), budget, gone_of(elim)),
        vegraph::lists_scopes(g, live.len() as int, scopes_of(last)),
        contract::from_relations_ok(new_cn, cn.n(), last),
        c.cn.vars == new_cn.vars,
        c.cn.unique_tensors == new_cn.unique_tensors,
        c.cn.tensors == new_cn.tensors,
        c.cn.v2t == new_cn.v2t,
        c.model.kept() == new_cn.orig_to_new@,
        c.model.steps() == elim,
        c.cn.orig_to_new@.len() == cn.orig_to_new@.len(),
        forall|u: int|
            0 <= u < cn.orig_to_new@.len() ==> #[trigger] c.cn.orig_to_new@[u] == (match cn.orig_to_new@[u] {
                Some(x) => new_cn.orig_to_new@[x as int],
                None => None,
            }),
    ensures
        reshapes(cn, budget, protected, c),
{
    let given = choose|given: Seq<(Vec<usize>, Vec<u32>)>| contract::narrows(last, given) && #[trigger] network::assembles(new_cn, cn.n(), given);
    let kept = new_cn.orig_to_new@;
    let whole = c.cn.orig_to_new@;
    assert(kept.len() == cn.n());
    // The network itself.
    assert(network::compresses(whole, c.cn.n())) by {
        assert forall|u: int| 0 <= u < whole.len() && (#[trigger] whole[u]) is Some implies whole[u]->0 < c.cn.n() by {
            assert(cn.orig_to_new@[u] is Some);
            assert(kept[cn.orig_to_new@[u]->0 as int] is Some);
        }
        assert forall|u: int, v: int| 0 <= u < v < whole.len() && (#[trigger] whole[u]) is Some && (#[trigger] whole[v]) is Some implies whole[u]->0 < whole[v]->0 by {
            assert(cn.orig_to_new@[u] is Some && cn.orig_to_new@[v] is Some);
            assert(cn.orig_to_new@[u]->0 < cn.orig_to_new@[v]->0);
            assert(kept[cn.orig_to_new@[u]->0 as int] is Some);
            assert(kept[cn.orig_to_new@[v]->0 as int] is Some);
        }
        assert forall|k: int| 0 <= k < c.cn.n() implies #[trigger] network::has_original(whole, k) by {
            assert(network::has_original(kept, k));
            let x = choose|x: int| 0 <= x < kept.len() && #[trigger] kept[x] == Some(k as usize);
            assert(network::has_original(cn.orig_to_new@, x));
            let u = choose|u: int| 0 <= u < cn.orig_to_new@.len() && #[trigger] cn.orig_to_new@[u] == Some(x as usize);
            assert(x as usize as int == x) by {
                assert(cn.vars.len() == cn.n());
            }
            assert(whole[u] == Some(k as usize));
        }
    }
    assert forall|t: int| 0 <= t < c.cn.m() implies #[trigger] c.cn.tensor_wf(t) by {
        assert(new_cn.tensor_wf(t));
        assert(c.cn.axes(t) == new_cn.axes(t));
        assert(c.cn.rows(t) == new_cn.rows(t));
    }
    assert forall|v: int| 0 <= v < c.cn.n() implies #[trigger] c.cn.incidence_wf(v) by {
        assert(new_cn.incidence_wf(v));
        assert forall|t: int| 0 <= t < c.cn.m() && (#[trigger] c.cn.axes(t)).contains(v as usize) implies c.cn.v2t@[v]@.contains(t as usize) by {
            assert(new_cn.axes(t).contains(v as usize));
        }
        assert forall|j: int| 0 <= j < c.cn.v2t@[v]@.len() implies (#[trigger] c.cn.v2t@[v]@[j]) < c.cn.m() && c.cn.axes(c.cn.v2t@[v]@[j] as int).contains(v as usize) by {
            assert(new_cn.axes(new_cn.v2t@[v]@[j] as int).contains(v as usize));
        }
    }
    assert forall|s: int, t: int| 0 <= s < c.cn.m() && 0 <= t < c.cn.m() && (#[trigger] c.cn.tensors@[s]).data_idx == (#[trigger] c.cn.tensors@[t]).data_idx implies c.cn.axes(s).len() == c.cn.axes(t).len() by {
        assert(new_cn.tensors@[s].data_idx == new_cn.tensors@[t].data_idx);
        assert(new_cn.axes(s).len() == new_cn.axes(t).len());
    }
    // Which variables are kept.
    assert forall|x: int| 0 <= x < cn.n() implies ((#[trigger] kept[x]) is Some <==> vegraph::mentions(g.scopes@, g.active@, x as usize)) by {
        assert(kept[x] is Some <==> network::mentioned(given, x));
        assert(contract::some_lists(last, x as usize) <==> mentions_upto(g, live.len() as int, x as usize));
        if network::mentioned(given, x) {
            let t = choose|t: int| 0 <= t < given.len() && (#[trigger] given[t]).0@.contains(x as usize);
            assert(last[t].vars@.contains(x as usize));
            assert(contract::some_lists(last, x as usize));
            let s = choose|s: int| 0 <= s < live.len() && g.active@[s] && (#[trigger] g.scopes@[s])@.contains(x as usize);
            assert(g.scopes@[s]@.contains(x as usize));
        }
        if vegraph::mentions(g.scopes@, g.active@, x as usize) {
            let s = choose|s: int| 0 <= s < g.scopes@.len() && g.active@[s] && (#[trigger] g.scopes@[s])@.contains(x as usize);
            assert(mentions_upto(g, live.len() as int, x as usize));
            let t = choose|t: int| 0 <= t < last.len() && (#[trigger] last[t]).vars@.contains(x as usize);
            assert(given[t].0@.contains(x as usize));
        }
    }
    assert forall|x: int| 0 <= x < cn.n() implies ((#[trigger] c.model.kept()[x]) is None <==> eliminated(c.model.steps(), x)) by {
        assert(kept[x] is Some <==> vegraph::mentions(g.scopes@, g.active@, x as usize));
    }
    assert forall|i: int| 0 <= i < protected.len() && (#[trigger] protected[i]) < cn.n() implies c.model.kept()[protected[i] as int] is Some by {
        let x = protected[i] as int;
        assert(protected.contains(x as usize));
        assert(marks[x]);
        if eliminated(elim, x) {
            let k = choose|k: int| 0 <= k < elim.len() && (#[trigger] elim[k]).var == x;
            assert(!marks[elim[k].var as int]);
        }
        assert(c.model.kept()[x] is None <==> eliminated(c.model.steps(), x));
    }
    assert forall|t: int| 0 <= t < c.cn.m() implies within_budget(cn, budget, (#[trigger] c.cn.axes(t)).len() as int) by {
        assert(network::renumbered(kept, given[t].0@, new_cn.axes(t)));
        assert(given[t].0@ == last[t].vars@);
    }
    assert forall|x: int| 0 <= x < cn.n() && !protected.contains(x as usize) && (#[trigger] c.model.kept()[x]) is Some implies vegraph::too_wide(network_scopes(c.cn), budget, c.model.kept()[x]->0) by {
        assert(cn.vars.len() == cn.n());
        let v = x as usize;
        let list = scopes_of(last);
        assert(vegraph::mentions(g.scopes@, g.active@, v));
        let s = choose|s: int| 0 <= s < g.scopes@.len() && g.active@[s] && (#[trigger] g.scopes@[s])@.contains(v);
        assert(vegraph::linked(g.scopes@, g.active@, v, v));
        vegraph::lemma_tied(g, list, v, v);
        assert(!marks[x]);
        vegraph::lemma_exhausted(g, list, marks, budget, v);
        lemma_partners_renumbered(new_cn, cn.n(), given, last, v);
        assert(network_scopes(c.cn) =~= network_scopes(new_cn));
    }
    // Models.
    assert forall|a: Asg| #[trigger] c.cn.model(network::pulled(kept, a)) <==> active_hold(live, g.active@, a) by {
        network::law_assemble_keeps_models(new_cn, cn.n(), given, a);
        let b = network::pulled(kept, a);
        assert(c.cn.model(b) <==> new_cn.model(b)) by {
            assert forall|t: int| c.cn.holds(t, b) == new_cn.holds(t, b) by {
                assert(c.cn.axes(t) == new_cn.axes(t) && c.cn.rows(t) == new_cn.rows(t));
            }
            if c.cn.model(b) {
                assert forall|t: int| 0 <= t < new_cn.m() implies #[trigger] new_cn.holds(t, b) by {
                    assert(c.cn.holds(t, b));
                }
            }
            if new_cn.model(b) {
                assert forall|t: int| 0 <= t < c.cn.m() implies #[trigger] c.cn.holds(t, b) by {
                    assert(new_cn.holds(t, b));
                }
            }
        }
        assert(contract::all_hold(last, a) <==> active_hold_upto(live, g.active@, live.len() as int, a));
        assert forall|t: int| 0 <= t < last.len() implies (network::rows_hold((#[trigger] given[t]).0@, given[t].1@, a) <==> last[t].holds(a)) by {
            if network::rows_hold(given[t].0@, given[t].1@, a) {
                let k = choose|k: int| 0 <= k < given[t].1@.len() && network::agrees(given[t].0@, #[trigger] given[t].1@[k] as u64, a);
                assert(given[t].1@[k] as u64 == last[t].rows@[k]);
                assert(network::agrees(last[t].vars@, last[t].rows@[k], a));
            }
            if last[t].holds(a) {
                let k = choose|k: int| 0 <= k < last[t].rows@.len() && network::agrees(last[t].vars@, #[trigger] last[t].rows@[k], a);
                assert(given[t].1@[k] as u64 == last[t].rows@[k]);
                assert(network::agrees(given[t].0@, given[t].1@[k] as u64, a));
            }
        }
        if contract::all_hold(last, a) {
            assert forall|t: int| 0 <= t < given.len() implies network::rows_hold((#[trigger] given[t]).0@, given[t].1@, a) by {
                assert(last[t].holds(a));
            }
        }
        if c.cn.model(b) {
            assert forall|t: int| 0 <= t < last.len() implies (#[trigger] last[t]).holds(a) by {
                assert(network::rows_hold(given[t].0@, given[t].1@, a));
            }
        }
        assert(active_hold(live, g.active@, a) <==> active_hold_upto(live, g.active@, live.len() as int, a));
    }
    assert forall|a: Asg| cn.model(a) implies #[trigger] c.cn.model(network::pulled(c.model.kept(), a)) by {
        assert(active_hold(live, g.active@, a));
        assert(c.cn.model(network::pulled(kept, a)));
    }
    assert forall|a: Asg| #[trigger] c.cn.model(network::pulled(c.model.kept(), a)) implies cn.model(lift(c.model.steps(), a)) by {
        assert(c.cn.model(network::pulled(kept, a)));
        assert(active_hold(live, g.active@, a));
    }
}

/// A constraint depends on its own variables only.
pub proof fn lemma_model_same(cn: ConstraintNetwork, a: Asg, b: Asg)
    requires
        cn.wf(),
        forall|x: int| 0 <= x < cn.n() ==> #[trigger] a(x) == b(x),
        cn.model(a),
    ensures
        cn.model(b),
{
    assert forall|t: int| 0 <= t < cn.m() implies #[trigger] cn.holds(t, b) by {
        assert(cn.holds(t, a));
        assert(cn.tensor_wf(t));
        let k = choose|k: int| 0 <= k < cn.rows(t).len() && network::agrees(cn.axes(t), #[trigger] cn.rows(t)[k] as u64, a);
        assert(network::agrees(cn.axes(t), cn.rows(t)[k] as u64, b)) by {
            assert forall|i: int| 0 <= i < cn.axes(t).len() implies bits::bit(cn.rows(t)[k] as u64, i) == b(#[trigger] cn.axes(t)[i] as int) by {
                assert(a(cn.axes(t)[i] as int) == b(cn.axes(t)[i] as int));
            }
        }
    }
}

/// The assignment of a list of fixed domains.
pub open spec fn decided(doms: Seq<DomainMask>) -> Asg {
    |x: int| doms[x] == DomainMask::D1
}

/// What is replayed leaves the kept variables alone.
proof fn lemma_replay_keeps(steps: Seq<ElimStep>, p: Seq<Option<bool>>, x: int)
    requires
        0 <= x < p.len(),
        !eliminated(steps, x),
        forall|i: int| 0 <= i < steps.len() ==> (#[trigger] steps[i]).var < p.len(),
    ensures
        replay(steps, p)[x] == p[x],
    decreases steps.len(),
{
    if steps.len() > 0 {
        let s = steps.last();
        let front = steps.drop_last();
        let q = p.update(s.var as int, Some(chosen(s, values(p), known_in(p))));
        assert(steps[steps.len() - 1].var == s.var);
        if eliminated(front, x) {
            let i = choose|i: int| 0 <= i < front.len() && (#[trigger] front[i]).var == x;
            assert(steps[i].var == x);
        }
        assert forall|i: int| 0 <= i < front.len() implies (#[trigger] front[i]).var < q.len() by {
            assert(front[i] == steps[i]);
        }
        lemma_replay_keeps(front, q, x);
    }
}

/// Reading a solution of the reshaped network back gives every variable of the input network
/// a value, those values satisfy the input network, and a variable that was kept has the value
/// that the solution gives it.
pub proof fn law_reconstructed_solution_is_model(
    cn: ConstraintNetwork,
    budget: int,
    protected: Seq<usize>,
    c: Canonicalized,
    solution: Seq<DomainMask>,
)
    requires
        cn.wf(),
        reshapes(cn, budget, protected, c),
        solution.len() == c.cn.n(),
        forall|k: int| 0 <= k < solution.len() ==> (#[trigger] solution[k]).fixed(),
        c.cn.model(decided(solution)),
    ensures
        ({
            let p = replay(c.model.steps(), survivors(c.model.kept(), solution));
            &&& p.len() == cn.n()
            &&& forall|x: int| 0 <= x < cn.n() ==> #[trigger] p[x] is Some
            &&& cn.model(values(p))
            &&& forall|x: int| 0 <= x < cn.n() && (#[trigger] c.model.kept()[x]) is Some ==> p[x] == Some(solution[c.model.kept()[x]->0 as int] == DomainMask::D1)
            &&& forall|u: int|
                0 <= u < cn.orig_to_new@.len() && (#[trigger] cn.orig_to_new@[u]) is Some && c.cn.orig_to_new@[u] is Some ==> p[cn.orig_to_new@[u]->0 as int] == Some(solution[c.cn.orig_to_new@[u]->0 as int] == DomainMask::D1)
        }),
{
    let kept = c.model.kept();
    let b = decided(solution);
    let a: Asg = |x: int|
        match kept[x] {
            Some(k) => b(k as int),
            None => false,
        };
    let start = survivors(kept, solution);
    let pa = network::pulled(kept, a);
    assert forall|k: int| 0 <= k < c.cn.n() implies #[trigger] b(k) == pa(k) by {
        assert(network::has_original(kept, k));
        let u = choose|u: int| 0 <= u < kept.len() && #[trigger] kept[u] == Some(k as usize);
        assert(c.cn.vars.len() == c.cn.n());
        assert(k as usize as int == k);
        assert(a(u) == b(k));
    }
    lemma_model_same(c.cn, b, pa);
    assert(cn.model(lift(c.model.steps(), a)));
    assert forall|x: int| 0 <= x < cn.n() && !eliminated(c.model.steps(), x) implies #[trigger] start[x] == Some(a(x)) by {
        assert(kept[x] is Some);
        let k = kept[x]->0 as int;
        assert(solution[k].fixed());
    }
    lemma_replay_lift(c.model.steps(), start, a, cn.n());
    let p = replay(c.model.steps(), start);
    let m = lift(c.model.steps(), a);
    assert forall|x: int| 0 <= x < cn.n() implies #[trigger] m(x) == values(p)(x) by {
        assert(p[x] == Some(m(x)));
    }
    lemma_model_same(cn, m, values(p));
    assert forall|x: int| 0 <= x < cn.n() && (#[trigger] kept[x]) is Some implies p[x] == Some(solution[kept[x]->0 as int] == DomainMask::D1) by {
        lemma_replay_keeps(c.model.steps(), start, x);
        assert(start[x] == Some(a(x)));
    }
    assert forall|u: int|
        0 <= u < cn.orig_to_new@.len() && (#[trigger] cn.orig_to_new@[u]) is Some && c.cn.orig_to_new@[u] is Some implies p[cn.orig_to_new@[u]->0 as int] == Some(solution[c.cn.orig_to_new@[u]->0 as int] == DomainMask::D1) by {
        let x = cn.orig_to_new@[u]->0 as int;
        assert(network::compresses(cn.orig_to_new@, cn.n()));
        assert(c.cn.orig_to_new@[u] == kept[x]);
    }
}

} // verus!
