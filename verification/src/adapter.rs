//! The problem as a rule solver sees it.
use vstd::prelude::*;

use std::sync::Arc;

use crate::bits;
use crate::ct;
use crate::ct::TableMasks;
use crate::domain::DomainMask;
use crate::measure;
use crate::measure::Measure;
use crate::models;
use crate::network::ConstraintNetwork;
use crate::problem::SolverBuffer;
use crate::propagate;
use crate::seqs;

verus! {

/// A partial assignment of a list of variables: bit `i` of `mask` says that variable `i` is
/// set, bit `i` of `val` to what.
#[derive(Clone, Copy, Debug, PartialEq, Eq, Structural)]
pub struct Clause {
    pub mask: u64,
    pub val: u64,
}

impl Clause {
    pub fn new(mask: u64, val: u64) -> (r: Clause)
        ensures
            r.mask == mask,
            r.val == val,
    {
        Clause { mask, val }
    }

    /// `config` has the values that the clause sets.
    pub open spec fn covers(self, config: u64) -> bool {
        forall|i: int| 0 <= i < 64 && #[trigger] bits::bit(self.mask, i) ==> bits::bit(config, i) == bits::bit(self.val, i)
    }

    /// Whether `config` has the values that the clause sets.
    pub fn covered_by(&self, config: u64) -> (r: bool)
        ensures
            r == self.covers(config),
    {
        let diff: u64 = (config ^ self.val) & self.mask;
        proof {
            broadcast use bits::group_bits;

            if diff == 0 {
                assert forall|i: int| 0 <= i < 64 && #[trigger] bits::bit(self.mask, i) implies bits::bit(config, i) == bits::bit(self.val, i) by {
                    assert(!bits::bit(diff, i));
                }
            }
            if self.covers(config) {
                assert forall|i: int| 0 <= i < 64 implies #[trigger] bits::bit(diff, i) == bits::bit(0u64, i) by {
                    if bits::bit(self.mask, i) {
                    }
                }
                bits::lemma_bits_equal(diff, 0);
            }
        }
        diff == 0
    }
}

/// The configurations a rule has to cover, in groups.
pub struct BranchingTable {
    pub bit_length: usize,
    pub table: Vec<Vec<u64>>,
}

/// The problem at one node: the network, its masks, and arc-consistent domains.
pub struct RuleProblem {
    pub cn: Arc<ConstraintNetwork>,
    pub masks: Arc<Vec<TableMasks>>,
    pub doms: Vec<DomainMask>,
}

/// Proposes branching rules. Whatever it proposes is checked before use.
pub trait RuleSolver {
    /// Clauses over `variables` that cover the configurations of `table`, or None.
    fn optimal_rule(&self, problem: &RuleProblem, table: &BranchingTable, variables: &[usize], measure: Measure) -> Option<Vec<Clause>>;
}

/// The first configuration of each group that has one.
pub open spec fn heads(groups: Seq<Vec<u64>>) -> Seq<u64>
    decreases groups.len(),
{
    if groups.len() == 0 {
        Seq::empty()
    } else if groups.last()@.len() == 0 {
        heads(groups.drop_last())
    } else {
        heads(groups.drop_last()).push(groups.last()@[0])
    }
}

/// The rule with one full assignment for each group of configurations.
#[derive(Clone, Copy, Debug)]
pub struct NaiveBranch;

impl RuleSolver for NaiveBranch {
    fn optimal_rule(&self, problem: &RuleProblem, table: &BranchingTable, variables: &[usize], measure: Measure) -> (r: Option<Vec<Clause>>)
        ensures
            r is None <==> variables@.len() > 64,
            r matches Some(rule) ==> {
                &&& rule@.len() == heads(table.table@).len()
                &&& forall|k: int| 0 <= k < rule@.len() ==> (#[trigger] rule@[k]).val == heads(table.table@)[k]
                &&& forall|k: int, j: int|
                    0 <= k < rule@.len() && 0 <= j < 64 ==> #[trigger] bits::bit(rule@[k].mask, j) == (j < variables@.len())
            },
    {
        if variables.len() > 64 {
            return None;
        }
        let mask: u64 = bits::full_mask(variables.len());
        let mut out: Vec<Clause> = Vec::new();
        let mut i: usize = 0;
        while i < table.table.len()
            invariant
                i <= table.table@.len(),
                out@.len() == heads(table.table@.take(i as int)).len(),
                forall|k: int|
                    0 <= k < out@.len() ==> (#[trigger] out@[k]).mask == mask && out@[k].val == heads(table.table@.take(i as int))[k],
            decreases table.table.len() - i,
        {
            proof {
                assert(table.table@.take(i + 1).drop_last() =~= table.table@.take(i as int));
            }
            if table.table[i].len() > 0 {
                out.push(Clause::new(mask, table.table[i][0]));
            }
            i += 1;
        }
        proof {
            assert(table.table@.take(i as int) =~= table.table@);
        }
        Some(out)
    }
}

impl RuleProblem {
    /// A well-formed network with arc-consistent domains.
    pub open spec fn wf(self) -> bool {
        &&& (*self.cn).wf()
        &&& ct::markable(*self.cn)
        &&& ct::closed_under(*self.cn, self.doms@)
    }

    pub fn new(cn: Arc<ConstraintNetwork>, masks: Arc<Vec<TableMasks>>, doms: Vec<DomainMask>) -> (r: RuleProblem)
        ensures
            r.cn == cn,
            r.masks == masks,
            r.doms == doms,
    {
        RuleProblem { cn, masks, doms }
    }

    /// Whether all variables are fixed.
    pub fn is_empty(&self) -> (r: bool)
        ensures
            r == models::all_fixed(self.doms@),
    {
        let mut v: usize = 0;
        while v < self.doms.len()
            invariant
                v <= self.doms@.len(),
                forall|u: int| 0 <= u < v ==> (#[trigger] self.doms@[u]).fixed(),
            decreases self.doms.len() - v,
        {
            if !self.doms[v].is_fixed() {
                assert(!self.doms@[v as int].fixed());
                return false;
            }
            v += 1;
        }
        true
    }

    /// The problem after setting what `clause` says of `variables` and propagating, and whether
    /// that went without contradiction.
    pub fn apply_branch(&self, clause: &Clause, variables: &[usize]) -> (r: (RuleProblem, bool))
        requires
            self.wf(),
            variables@.len() <= 64,
            forall|i: int| 0 <= i < variables@.len() ==> (#[trigger] variables@[i]) < (*self.cn).n(),
        ensures
            r.0.cn == self.cn,
            r.0.masks == self.masks,
            propagate::propagated(*self.cn, ct::assigned(self.doms@, variables@, clause.mask, clause.val, variables@.len() as int), r.0.doms@, r.1),
    {
        let cn: &ConstraintNetwork = &self.cn;
        let mut doms = copy_doms(&self.doms);
        let mut buffer = SolverBuffer::new(cn);
        let ghost d0 = self.doms@;
        let mut clash = false;
        let mut i: usize = 0;
        proof {
            assert(ct::queue_ok(buffer, 0, cn.m()));
            assert(ct::narrower(d0, d0));
        }
        while i < variables.len()
            invariant
                cn.wf(),
                d0.len() == cn.n(),
                i <= variables@.len() <= 64,
                forall|i: int| 0 <= i < variables@.len() ==> (#[trigger] variables@[i]) < cn.n(),
                doms@ == ct::assigned(d0, variables@, clause.mask, clause.val, i as int),
                doms@.len() == cn.n(),
                buffer.sized(*cn),
                ct::queue_ok(buffer, 0, cn.m()),
                propagate::calm(*cn, doms@, buffer.in_queue@, -1),
                clash <==> exists|v: int| 0 <= v < cn.n() && (#[trigger] doms@[v]) == DomainMask::NONE,
                forall|v: int| 0 <= v < cn.n() && (#[trigger] doms@[v]) != DomainMask::NONE ==> doms@[v].live(),
            decreases variables.len() - i,
        {
            if bits::get_bit(clause.mask, i) {
                let v: usize = variables[i];
                let b = bits::get_bit(clause.val, i);
                let d = doms[v];
                let allowed = if b {
                    d.has1()
                } else {
                    d.has0()
                };
                let nd = if !allowed {
                    DomainMask::NONE
                } else if b {
                    DomainMask::D1
                } else {
                    DomainMask::D0
                };
                let ghost d1 = doms@;
                let ghost f1 = buffer.in_queue@;
                doms.set(v, nd);
                ct::enqueue_var_change(cn, &mut buffer, v);
                if !allowed {
                    clash = true;
                }
                proof {
                    lemma_calm_write(*cn, d1, doms@, f1, buffer.in_queue@, v as int);
                    if clash {
                        if !allowed {
                            assert(doms@[v as int] == DomainMask::NONE);
                        } else {
                            let u = choose|u: int| 0 <= u < cn.n() && (#[trigger] d1[u]) == DomainMask::NONE;
                            assert(doms@[u] == DomainMask::NONE);
                        }
                    } else if exists|u: int| 0 <= u < cn.n() && (#[trigger] doms@[u]) == DomainMask::NONE {
                        let u = choose|u: int| 0 <= u < cn.n() && (#[trigger] doms@[u]) == DomainMask::NONE;
                        assert(d1[u] == DomainMask::NONE);
                    }
                }
            }
            i += 1;
        }
        let ghost da = doms@;
        let mut ok = false;
        if clash {
            let ghost u = choose|u: int| 0 <= u < cn.n() && (#[trigger] doms@[u]) == DomainMask::NONE;
            doms.set(0, DomainMask::NONE);
            proof {
                assert(ct::refuted(*cn, da)) by {
                    assert forall|e: Seq<DomainMask>| #[trigger] ct::closed_under(*cn, e) implies !ct::narrower(e, da) by {
                        assert(e[u].live());
                        assert(e[u].allows(true) || e[u].allows(false));
                    }
                }
                assert(propagate::propagated(*cn, da, doms@, false));
            }
        } else {
            proof {
                assert(propagate::all_live(doms@));
                assert(propagate::listed_flags(buffer.queue@, buffer.in_queue@, 0));
            }
            ok = propagate::propagate_core_rescan(cn, &mut doms, &mut buffer);
        }
        (RuleProblem { cn: self.cn.clone(), masks: self.masks.clone(), doms }, ok)
    }
}

/// A write to one domain, with its constraints flagged, leaves the others consistent.
proof fn lemma_calm_write(cn: ConstraintNetwork, d1: Seq<DomainMask>, d2: Seq<DomainMask>, f1: Seq<bool>, f2: Seq<bool>, v: int)
    requires
        cn.wf(),
        0 <= v < cn.n() == d1.len(),
        v <= usize::MAX,
        propagate::calm(cn, d1, f1, -1),
        d2.len() == d1.len(),
        forall|u: int| 0 <= u < d1.len() && u != v ==> #[trigger] d2[u] == d1[u],
        forall|t: int| 0 <= t < cn.m() ==> #[trigger] f2[t] == (f1[t] || cn.axes(t).contains(v as usize)),
    ensures
        propagate::calm(cn, d2, f2, -1),
{
    assert forall|t: int| 0 <= t < cn.m() && t != -1 && !#[trigger] f2[t] implies ct::consistent_at(cn, d2, t) by {
        assert(!f1[t]);
        assert(cn.tensor_wf(t));
        assert forall|j: int| 0 <= j < cn.axes(t).len() implies d1[(#[trigger] cn.axes(t)[j]) as int] == d2[cn.axes(t)[j] as int] by {
            assert(cn.axes(t).contains(cn.axes(t)[j]));
        }
        ct::lemma_consistent_same(cn, d1, d2, t);
    }
}

/// A copy of a list of domains.
pub fn copy_doms(doms: &Vec<DomainMask>) -> (r: Vec<DomainMask>)
    ensures
        r@ == doms@,
{
    let mut out: Vec<DomainMask> = Vec::new();
    let mut i: usize = 0;
    while i < doms.len()
        invariant
            i <= doms@.len(),
            out@ == doms@.take(i as int),
        decreases doms.len() - i,
    {
        proof {
            seqs::lemma_take_next(doms@, i as int);
        }
        out.push(doms[i]);
        i += 1;
    }
    proof {
        seqs::lemma_take_all(doms@);
    }
    out
}

/// A measure of rule problems.
pub struct MeasureAdapter(pub Measure);

impl MeasureAdapter {
    /// What is left of the problem.
    pub fn measure(&self, problem: &RuleProblem) -> (r: u64)
        requires
            problem.wf(),
        ensures
            measure::measured(*problem.cn, problem.doms@, self.0) <= u64::MAX ==> r == measure::measured(*problem.cn, problem.doms@, self.0),
            measure::measured(*problem.cn, problem.doms@, self.0) > u64::MAX ==> r == u64::MAX,
    {
        measure::measure_core(&problem.cn, problem.doms.as_slice(), self.0)
    }
}

} // verus!
