//! Propagation: query masks, domination, probing and feasibility of configurations.
use vstd::prelude::*;

use crate::bits;
use crate::contract;
use crate::ct;
use crate::ct::{RSparseBitSet, TableMasks};
use crate::domain::{Asg, DomainMask};
use crate::models;
use crate::network;
use crate::network::ConstraintNetwork;
use crate::order;
use crate::problem::SolverBuffer;
use crate::seqs;
use crate::sums;
use crate::trail;
use crate::trail::{State, Trail};

verus! {

/// `m0` and `m1` mark the axes whose variable is fixed to false and to true.
pub open spec fn marks_fixed(doms: Seq<DomainMask>, axes: Seq<usize>, m0: u32, m1: u32) -> bool {
    &&& bits::below(m0 as u64, axes.len() as int)
    &&& bits::below(m1 as u64, axes.len() as int)
    &&& forall|i: int|
        0 <= i < axes.len() ==> bits::bit(m0 as u64, i) == (doms[(#[trigger] axes[i]) as int]
            == DomainMask::D0)
    &&& forall|i: int|
        0 <= i < axes.len() ==> bits::bit(m1 as u64, i) == (doms[(#[trigger] axes[i]) as int]
            == DomainMask::D1)
}

/// A configuration gives every fixed variable its value.
pub open spec fn respects(doms: Seq<DomainMask>, axes: Seq<usize>, config: u64) -> bool {
    forall|i: int|
        0 <= i < axes.len() && doms[(#[trigger] axes[i]) as int].fixed() ==> bits::bit(config, i) == (
        doms[axes[i] as int] == DomainMask::D1)
}

/// Masks of the axes fixed to false and to true: bit `i` is for `var_axes[i]`.
pub fn compute_query_masks(doms: &[DomainMask], var_axes: &[usize]) -> (r: (u32, u32))
    requires
        var_axes@.len() <= 32,
        forall|i: int| 0 <= i < var_axes@.len() ==> (#[trigger] var_axes@[i]) < doms@.len(),
    ensures
        marks_fixed(doms@, var_axes@, r.0, r.1),
{
    let mut mask0: u64 = 0;
    let mut mask1: u64 = 0;
    let mut i: usize = 0;
    proof {
        broadcast use bits::group_bits;

    }
    while i < var_axes.len()
        invariant
            i <= var_axes@.len() <= 32,
            forall|i: int| 0 <= i < var_axes@.len() ==> (#[trigger] var_axes@[i]) < doms@.len(),
            bits::below(mask0, i as int),
            bits::below(mask1, i as int),
            forall|j: int|
                0 <= j < i ==> bits::bit(mask0, j) == (doms@[(#[trigger] var_axes@[j]) as int]
                    == DomainMask::D0),
            forall|j: int|
                0 <= j < i ==> bits::bit(mask1, j) == (doms@[(#[trigger] var_axes@[j]) as int]
                    == DomainMask::D1),
        decreases var_axes.len() - i,
    {
        let d = doms[var_axes[i]];
        if d == DomainMask::D0 {
            mask0 = bits::with_bit(mask0, i);
        } else if d == DomainMask::D1 {
            mask1 = bits::with_bit(mask1, i);
        }
        i += 1;
    }
    proof {
        bits::lemma_below_iff(mask0, 32);
        bits::lemma_below_iff(mask1, 32);
        assert((1u64 << 32u64) == 0x1_0000_0000u64) by (bit_vector);
    }
    (mask0 as u32, mask1 as u32)
}

/// A configuration passes the masks exactly when it respects the fixed variables.
pub proof fn lemma_query(doms: Seq<DomainMask>, axes: Seq<usize>, m0: u32, m1: u32, config: u64)
    requires
        axes.len() <= 32,
        marks_fixed(doms, axes, m0, m1),
    ensures
        (config & (m0 as u64 | m1 as u64)) == m1 as u64 <==> respects(doms, axes, config),
{
    broadcast use bits::group_bits;

    let m = m0 as u64 | m1 as u64;
    if (config & m) == m1 as u64 {
        assert forall|i: int|
            0 <= i < axes.len() && doms[(#[trigger] axes[i]) as int].fixed() implies bits::bit(
            config,
            i,
        ) == (doms[axes[i] as int] == DomainMask::D1) by {
            assert(bits::bit(config & m, i) == bits::bit(m1 as u64, i));
        }
    }
    if respects(doms, axes, config) {
        assert forall|i: int| 0 <= i < 64 implies #[trigger] bits::bit(config & m, i) == bits::bit(
            m1 as u64,
            i,
        ) by {
            if i < axes.len() {
                let v = axes[i];
                assert(bits::bit(m0 as u64, i) == (doms[v as int] == DomainMask::D0));
                assert(bits::bit(m1 as u64, i) == (doms[v as int] == DomainMask::D1));
            } else {
                assert(!bits::bit(m0 as u64, i));
                assert(!bits::bit(m1 as u64, i));
            }
        }
        bits::lemma_bits_equal(config & m, m1 as u64);
    }
}

/// An arc-consistent state has no work pending.
pub proof fn lemma_fixpoint_pending(cn: ConstraintNetwork, s: State, b: SolverBuffer)
    requires
        ct::fixpoint(cn, s),
        b.clean(cn),
    ensures
        ct::pending(cn, s, b, -1),
        ct::queue_ok(b, 0, cn.m()),
{
    assert forall|t: int, r: int, j: int|
        0 <= t < cn.m() && 0 <= r < cn.rows(t).len() && 0 <= j < cn.axes(t).len() && #[trigger] ct::row_live(s.1[t], r) && !#[trigger] bits::bit(b.dirty@[t], j)
            implies s.0[cn.axes(t)[j] as int].allows(bits::bit(cn.rows(t)[r] as u64, j)) by {
        assert(ct::admits(s.0, cn.axes(t), cn.rows(t)[r] as u64));
        assert(s.0[cn.axes(t)[j] as int].allows(bits::bit(cn.rows(t)[r] as u64, j)));
    }
}

/// Set the variables that `mask` selects to the bits of `val` and propagate.
pub fn assign(cn: &ConstraintNetwork, doms: &mut Vec<DomainMask>, masks: &Vec<TableMasks>, tables: &mut Vec<RSparseBitSet>, buffer: &mut SolverBuffer, log: &mut Trail, vars: &[usize], mask: u64, val: u64) -> (r: bool)
    requires
        cn.wf(),
        ct::markable(*cn),
        ct::masks_ok(*cn, masks@),
        ct::fixpoint(*cn, (old(doms)@, trail::frozen(old(tables)@))),
        old(buffer).clean(*cn),
        old(log).fits(trail::shape((old(doms)@, trail::frozen(old(tables)@)))),
        vars@.len() <= 64,
        forall|i: int| 0 <= i < vars@.len() ==> (#[trigger] vars@[i]) < cn.n(),
    ensures
        ct::logged(*final(log), (final(doms)@, trail::frozen(final(tables)@)), *old(log), (old(doms)@, trail::frozen(old(tables)@))),
        final(buffer).clean(*cn),
        final(buffer).occurrence_scores == old(buffer).occurrence_scores,
        ct::narrower(final(doms)@, old(doms)@),
        propagated(*cn, ct::assigned(old(doms)@, vars@, mask, val, vars@.len() as int), final(doms)@, r),
        r ==> ct::fixpoint(*cn, (final(doms)@, trail::frozen(final(tables)@))),
{
    let ghost s0: State = (doms@, trail::frozen(tables@));
    let ghost l0 = *log;
    proof {
        lemma_fixpoint_pending(*cn, s0, *buffer);
    }
    ct::apply_masked_assignment(cn, doms, buffer, log, vars, mask, val, Ghost(trail::frozen(tables@)));
    let ghost s1: State = (doms@, trail::frozen(tables@));
    let ghost l1 = *log;
    let r = ct::ct_propagate(cn, doms, masks, tables, buffer, log);
    proof {
        let s2: State = (doms@, trail::frozen(tables@));
        ct::lemma_logged_trans(*log, s2, l1, s1, l0, s0);
        ct::lemma_narrower_trans(doms@, s1.0, s0.0);
    }
    r
}

/// `d` is what propagation makes of `d0`: the widest arc-consistent domains within it, or a
/// contradiction where there are none.
pub open spec fn propagated(cn: ConstraintNetwork, d0: Seq<DomainMask>, d: Seq<DomainMask>, ok: bool) -> bool {
    &&& ct::narrower(d, d0)
    &&& ok ==> ct::closed_under(cn, d) && ct::keeps_closed(cn, d0, d)
    &&& !ok ==> ct::refuted(cn, d0) && cn.n() > 0 && d[0] == DomainMask::NONE
}

/// Undo what was done since `mark`.
pub proof fn lemma_restored(l0: Trail, s0: State, l1: Trail, s1: State, l2: Trail, s2: State, mark: int)
    requires
        mark == l0.depth(),
        l0.fits(trail::shape(s0)),
        forall|s: State| #[trigger] l0.before(mark, s) == s,
        ct::logged(l1, s1, l0, s0),
        s2 == l1.before(mark, s1),
        l2.depth() == (if mark <= l1.depth() {
            mark as nat
        } else {
            l1.depth()
        }),
        forall|k: int, s: State| k <= mark ==> #[trigger] l1.before(k, s) == l2.before(k, l1.before(mark, s)),
        forall|sh: (nat, Seq<nat>)| l1.fits(sh) ==> #[trigger] l2.fits(sh),
    ensures
        s2 == s0,
        ct::logged(l2, s0, l0, s0),
{
    assert(s2 == s0) by {
        assert(l1.before(mark, s1) == l0.before(mark, s0));
    }
    assert forall|k: int| k <= l0.depth() implies #[trigger] l2.before(k, s0) == l0.before(k, s0) by {
        assert(l1.before(k, s1) == l2.before(k, l1.before(mark, s1)));
    }
}

/// Try an assignment: propagate it, hand the domains to `read`, and undo everything.
pub fn probe<R, F: FnOnce(&[DomainMask]) -> R>(cn: &ConstraintNetwork, doms: &mut Vec<DomainMask>, masks: &Vec<TableMasks>, tables: &mut Vec<RSparseBitSet>, buffer: &mut SolverBuffer, log: &mut Trail, vars: &[usize], mask: u64, val: u64, read: F) -> (r: R)
    requires
        cn.wf(),
        ct::markable(*cn),
        ct::masks_ok(*cn, masks@),
        ct::fixpoint(*cn, (old(doms)@, trail::frozen(old(tables)@))),
        old(buffer).clean(*cn),
        old(log).fits(trail::shape((old(doms)@, trail::frozen(old(tables)@)))),
        vars@.len() <= 64,
        forall|i: int| 0 <= i < vars@.len() ==> (#[trigger] vars@[i]) < cn.n(),
        forall|d: &[DomainMask]| d@.len() == cn.n() ==> call_requires(read, (d,)),
    ensures
        (final(doms)@, trail::frozen(final(tables)@)) == (old(doms)@, trail::frozen(old(tables)@)),
        ct::logged(*final(log), (final(doms)@, trail::frozen(final(tables)@)), *old(log), (old(doms)@, trail::frozen(old(tables)@))),
        final(buffer).clean(*cn),
        final(buffer).occurrence_scores == old(buffer).occurrence_scores,
        exists|d: &[DomainMask], ok: bool| #[trigger] propagated(*cn, ct::assigned(old(doms)@, vars@, mask, val, vars@.len() as int), d@, ok) && call_ensures(read, (d,), r),
{
    let ghost s0: State = (doms@, trail::frozen(tables@));
    log.open();
    let ghost l0 = *log;
    let mark: usize = log.mark();
    buffer.reset_worklist();
    let ok = assign(cn, doms, masks, tables, buffer, log, vars, mask, val);
    let ghost l1 = *log;
    let ghost s1: State = (doms@, trail::frozen(tables@));
    let r = read(doms.as_slice());
    proof {
        assert(propagated(*cn, ct::assigned(old(doms)@, vars@, mask, val, vars@.len() as int), doms@, ok));
    }
    log.restore_to(mark, doms, tables);
    proof {
        lemma_restored(l0, s0, l1, s1, *log, (doms@, trail::frozen(tables@)), mark as int);
    }
    r
}

/// Some arc-consistent domains within `d` have the values of `config` on `vars`.
pub open spec fn feasible(cn: ConstraintNetwork, d: Seq<DomainMask>, vars: Seq<usize>, config: u64) -> bool {
    exists|e: Seq<DomainMask>| #[trigger] ct::closed_under(cn, e) && ct::narrower(e, d) && pinned_to(e, vars, config)
}

/// Every one of `vars` allows only its value in `config`.
pub open spec fn pinned_to(e: Seq<DomainMask>, vars: Seq<usize>, config: u64) -> bool {
    forall|i: int| 0 <= i < vars.len() ==> e[(#[trigger] vars[i]) as int] == DomainMask::only(bits::bit(config, i))
}

/// `config` does not contradict a fixed variable at the position.
pub open spec fn agrees_at(d: Seq<DomainMask>, vars: Seq<usize>, config: u64, i: int) -> bool {
    d[vars[i] as int] == DomainMask::only(bits::bit(config, i))
}

/// `config` has the values of the variables already fixed.
pub open spec fn agrees_fixed(d: Seq<DomainMask>, vars: Seq<usize>, config: u64) -> bool {
    forall|i: int| 0 <= i < vars.len() && d[(#[trigger] vars[i]) as int].fixed() ==> agrees_at(d, vars, config, i)
}

/// The value of the bits of `c` at the first `upto` positions of `order`, the first the highest.
pub open spec fn trie_key(c: u64, positions: Seq<usize>, upto: int) -> nat
    decreases upto,
{
    if upto <= 0 {
        0
    } else {
        2 * trie_key(c, positions, upto - 1) + (if bits::bit(c, positions[upto - 1] as int) {
            1nat
        } else {
            0nat
        })
    }
}

proof fn lemma_trie_key(c: u64, positions: Seq<usize>, upto: int)
    requires
        0 <= upto,
    ensures
        trie_key(c, positions, upto) < vstd::arithmetic::power2::pow2(upto as nat),
    decreases upto,
{
    if upto > 0 {
        lemma_trie_key(c, positions, upto - 1);
        vstd::arithmetic::power2::lemma_pow2_unfold(upto as nat);
    } else {
        vstd::arithmetic::power2::lemma2_to64();
    }
}

/// The sort key of `c`: its bits at the positions given, the first the highest.
fn key_of(c: u64, positions: &Vec<usize>) -> (r: u64)
    requires
        positions@.len() <= 64,
        forall|i: int| 0 <= i < positions@.len() ==> (#[trigger] positions@[i]) < 64,
    ensures
        r == trie_key(c, positions@, positions@.len() as int),
{
    let mut k: u64 = 0;
    let mut i: usize = 0;
    while i < positions.len()
        invariant
            i <= positions@.len() <= 64,
            forall|i: int| 0 <= i < positions@.len() ==> (#[trigger] positions@[i]) < 64,
            k == trie_key(c, positions@, i as int),
        decreases positions.len() - i,
    {
        proof {
            lemma_trie_key(c, positions@, i as int);
            vstd::arithmetic::power2::lemma2_to64();
            vstd::arithmetic::power2::lemma2_to64_rest();
            if i < 63 {
                vstd::arithmetic::power2::lemma_pow2_strictly_increases(i as nat, 63);
            }
        }
        let b: u64 = if bits::get_bit(c, positions[i]) {
            1
        } else {
            0
        };
        k = k * 2 + b;
        i += 1;
    }
    k
}

/// The configurations in the order of their keys.
fn sort_by_trie(configs: &[u64], positions: &Vec<usize>) -> (r: Vec<u64>)
    requires
        positions@.len() <= 64,
        forall|i: int| 0 <= i < positions@.len() ==> (#[trigger] positions@[i]) < 64,
    ensures
        r@.len() == configs@.len(),
        r@.to_multiset() == configs@.to_multiset(),
        trie_sorted(r@, positions@),
{
    let mut pairs: Vec<(u64, usize)> = Vec::new();
    let mut i: usize = 0;
    while i < configs.len()
        invariant
            positions@.len() <= 64,
            forall|i: int| 0 <= i < positions@.len() ==> (#[trigger] positions@[i]) < 64,
            i <= configs@.len(),
            pairs@.len() == i,
            forall|k: int| 0 <= k < i ==> (#[trigger] pairs@[k]) == (key_pair(configs@, positions@, k)),
        decreases configs.len() - i,
    {
        let k: u64 = key_of(configs[i], positions);
        proof {
            lemma_trie_key(configs@[i as int], positions@, positions@.len() as int);
        }
        pairs.push((k, i));
        i += 1;
    }
    let ghost before = pairs@;
    order::sort_pairs(&mut pairs);
    let mut out: Vec<u64> = Vec::new();
    let ghost places = Seq::new(pairs@.len(), |k: int| pairs@[k].1 as int);
    proof {
        order::lemma_permutation(before, pairs@);
        assert forall|k: int| 0 <= k < pairs@.len() implies (#[trigger] pairs@[k]).1 < configs@.len() && pairs@[k] == key_pair(configs@, positions@, pairs@[k].1 as int) by {
            assert(pairs@.contains(pairs@[k]));
            assert(before.contains(pairs@[k]));
            let q = before.index_of(pairs@[k]);
            assert(before[q] == key_pair(configs@, positions@, q));
        }
    }
    let mut k: usize = 0;
    while k < pairs.len()
        invariant
            k <= pairs@.len(),
            forall|k: int| 0 <= k < pairs@.len() ==> (#[trigger] pairs@[k]).1 < configs@.len() && pairs@[k] == key_pair(configs@, positions@, pairs@[k].1 as int),
            out@.len() == k,
            forall|q: int| 0 <= q < k ==> #[trigger] out@[q] == configs@[pairs@[q].1 as int],
        decreases pairs.len() - k,
    {
        assert(pairs@[k as int].1 < configs@.len());
        out.push(configs[pairs[k].1]);
        k += 1;
    }
    proof {
        let f = |p: (u64, usize)| configs@[p.1 as int];
        assert(out@ =~= pairs@.map_values(f));
        assert(configs@ =~= before.map_values(f));
        order::lemma_map_permutation(before, pairs@, f);
        let w = positions@.len() as int;
        assert forall|c: u64| #[trigger] trie_key(c, positions@, w) <= u64::MAX by {
            lemma_trie_key(c, positions@, w);
            vstd::arithmetic::power2::lemma2_to64();
            vstd::arithmetic::power2::lemma2_to64_rest();
            if w < 64 {
                vstd::arithmetic::power2::lemma_pow2_strictly_increases(w as nat, 64);
            }
        }
        assert forall|i: int, j: int| 0 <= i < j < out@.len() implies trie_key(#[trigger] out@[i], positions@, w) <= trie_key(#[trigger] out@[j], positions@, w) by {
            assert(order::pair_le(pairs@[i], pairs@[j]));
            assert(pairs@[i] == key_pair(configs@, positions@, pairs@[i].1 as int));
            assert(pairs@[j] == key_pair(configs@, positions@, pairs@[j].1 as int));
        }
    }
    out
}

spec fn key_pair(configs: Seq<u64>, positions: Seq<usize>, k: int) -> (u64, usize) {
    (trie_key(configs[k], positions, positions.len() as int) as u64, k as usize)
}

/// The keys do not decrease.
pub open spec fn trie_sorted(configs: Seq<u64>, positions: Seq<usize>) -> bool {
    forall|i: int, j: int|
        0 <= i < j < configs.len() ==> trie_key(#[trigger] configs[i], positions, positions.len() as int) <= trie_key(#[trigger] configs[j], positions, positions.len() as int)
}

/// The domains with `v` set to `b`.
pub open spec fn pin(d: Seq<DomainMask>, v: int, b: bool) -> Seq<DomainMask> {
    d.update(v, ct::restricted(d[v], b))
}

/// Set one variable and propagate.
pub fn assign_one(cn: &ConstraintNetwork, doms: &mut Vec<DomainMask>, masks: &Vec<TableMasks>, tables: &mut Vec<RSparseBitSet>, buffer: &mut SolverBuffer, log: &mut Trail, v: usize, b: bool) -> (r: bool)
    requires
        cn.wf(),
        ct::markable(*cn),
        ct::masks_ok(*cn, masks@),
        ct::fixpoint(*cn, (old(doms)@, trail::frozen(old(tables)@))),
        old(buffer).clean(*cn),
        old(log).fits(trail::shape((old(doms)@, trail::frozen(old(tables)@)))),
        v < cn.n(),
    ensures
        ct::logged(*final(log), (final(doms)@, trail::frozen(final(tables)@)), *old(log), (old(doms)@, trail::frozen(old(tables)@))),
        final(buffer).clean(*cn),
        final(buffer).occurrence_scores == old(buffer).occurrence_scores,
        ct::narrower(final(doms)@, old(doms)@),
        propagated(*cn, pin(old(doms)@, v as int, b), final(doms)@, r),
        r ==> ct::fixpoint(*cn, (final(doms)@, trail::frozen(final(tables)@))),
{
    let one: Vec<usize> = vec![v];
    let val: u64 = if b {
        1
    } else {
        0
    };
    proof {
        broadcast use bits::group_bits;

        assert(bits::bit(1u64, 0)) by {
            reveal(bits::bit);
            assert((1u64 >> 0u64) & 1u64 == 1u64) by (bit_vector);
        }
        reveal_with_fuel(ct::assigned, 2);
        assert(ct::assigned(doms@, one@, 1, val, 1) == pin(doms@, v as int, b));
    }
    assign(cn, doms, masks, tables, buffer, log, one.as_slice(), 1, val)
}

/// Feasibility as a predicate on configurations.
pub open spec fn feasible_in(cn: ConstraintNetwork, d: Seq<DomainMask>, vars: Seq<usize>) -> spec_fn(u64) -> bool {
    |c: u64| feasible(cn, d, vars, c)
}

/// `c` has the value of every variable outside the positions still to be set.
spec fn settled_outside(d: Seq<DomainMask>, vars: Seq<usize>, rest: Seq<usize>, c: u64) -> bool {
    forall|i: int| 0 <= i < vars.len() && !rest.contains(i as usize) ==> #[trigger] agrees_at(d, vars, c, i)
}

/// Setting a variable to its value in `c` keeps whether `c` is feasible.
proof fn lemma_descend(cn: ConstraintNetwork, d0: Seq<DomainMask>, d1: Seq<DomainMask>, vars: Seq<usize>, pos: int, b: bool, ok: bool, c: u64)
    requires
        cn.wf(),
        d0.len() == cn.n(),
        0 <= pos < vars.len() <= 64,
        forall|i: int| 0 <= i < vars.len() ==> (#[trigger] vars[i]) < cn.n(),
        bits::bit(c, pos) == b,
        propagated(cn, pin(d0, vars[pos] as int, b), d1, ok),
        ct::narrower(d1, d0),
    ensures
        feasible(cn, d0, vars, c) == (ok && feasible(cn, d1, vars, c)),
        ok ==> agrees_at(d1, vars, c, pos),
        forall|i: int| 0 <= i < vars.len() && ok && #[trigger] agrees_at(d0, vars, c, i) ==> agrees_at(d1, vars, c, i),
{
    let v = vars[pos] as int;
    let dp = pin(d0, v, b);
    assert(vars[pos] < cn.n());
    if feasible(cn, d0, vars, c) {
        let e = choose|e: Seq<DomainMask>| #[trigger] ct::closed_under(cn, e) && ct::narrower(e, d0) && pinned_to(e, vars, c);
        assert(e[vars[pos] as int] == DomainMask::only(b));
        assert(ct::narrower(e, dp)) by {
            assert forall|u: int, x: bool| 0 <= u < dp.len() && (#[trigger] e[u].allows(x)) implies dp[u].allows(x) by {
                assert(d0[u].allows(x));
            }
        }
        assert(ok);
        assert(ct::narrower(e, d1));
    }
    if ok && feasible(cn, d1, vars, c) {
        let e = choose|e: Seq<DomainMask>| #[trigger] ct::closed_under(cn, e) && ct::narrower(e, d1) && pinned_to(e, vars, c);
        ct::lemma_narrower_trans(e, d1, d0);
    }
    if ok {
        assert(d1[v].live());
        assert(d1[v] == DomainMask::only(b)) by {
            assert(d1[v].allows(b) || d1[v].allows(!b));
            if d1[v].allows(!b) {
                assert(dp[v].allows(!b));
            }
        }
        assert forall|i: int| 0 <= i < vars.len() && #[trigger] agrees_at(d0, vars, c, i) implies agrees_at(d1, vars, c, i) by {
            let u = vars[i] as int;
            let x = bits::bit(c, i);
            assert(vars[i] < cn.n());
            assert(d1[u].live());
            if d1[u].allows(!x) {
                assert(d0[u].allows(!x));
            }
            assert(d1[u].allows(x) || d1[u].allows(!x));
        }
    }
}

/// Sort out the feasible ones among `sorted[lo..hi]`, which agree on the positions already set,
/// sharing the propagation of common prefixes.
fn descend(cn: &ConstraintNetwork, doms: &mut Vec<DomainMask>, masks: &Vec<TableMasks>, tables: &mut Vec<RSparseBitSet>, buffer: &mut SolverBuffer, log: &mut Trail, region_vars: &[usize], positions: &Vec<usize>, sorted: &Vec<u64>, lo: usize, hi: usize, level: usize, out: &mut Vec<u64>)
    requires
        cn.wf(),
        ct::markable(*cn),
        ct::masks_ok(*cn, masks@),
        ct::fixpoint(*cn, (old(doms)@, trail::frozen(old(tables)@))),
        old(buffer).clean(*cn),
        old(log).fits(trail::shape((old(doms)@, trail::frozen(old(tables)@)))),
        region_vars@.len() <= 64,
        forall|i: int| 0 <= i < region_vars@.len() ==> (#[trigger] region_vars@[i]) < cn.n(),
        forall|i: int| 0 <= i < positions@.len() ==> (#[trigger] positions@[i]) < region_vars@.len(),
        level <= positions@.len(),
        lo <= hi <= sorted@.len(),
        forall|k: int| lo <= k < hi ==> settled_outside(old(doms)@, region_vars@, positions@.skip(level as int), #[trigger] sorted@[k]),
    ensures
        (final(doms)@, trail::frozen(final(tables)@)) == (old(doms)@, trail::frozen(old(tables)@)),
        ct::logged(*final(log), (final(doms)@, trail::frozen(final(tables)@)), *old(log), (old(doms)@, trail::frozen(old(tables)@))),
        final(buffer).clean(*cn),
        final(buffer).occurrence_scores == old(buffer).occurrence_scores,
        final(out)@ == old(out)@ + sorted@.subrange(lo as int, hi as int).filter(feasible_in(*cn, old(doms)@, region_vars@)),
    decreases positions@.len() - level,
{
    let ghost s0: State = (doms@, trail::frozen(tables@));
    let ghost vars = region_vars@;
    let ghost pred = feasible_in(*cn, s0.0, vars);
    let ghost out0 = out@;
    if level == positions.len() {
        let mut k: usize = lo;
        proof {
            assert(out@ =~= out0 + sorted@.subrange(lo as int, lo as int));
        }
        while k < hi
            invariant
                lo <= k <= hi <= sorted@.len(),
                out@ == out0 + sorted@.subrange(lo as int, k as int),
            decreases hi - k,
        {
            proof {
                assert(sorted@.subrange(lo as int, k + 1) =~= sorted@.subrange(lo as int, k as int).push(sorted@[k as int]));
                assert((out0 + sorted@.subrange(lo as int, k as int)).push(sorted@[k as int]) =~= out0 + sorted@.subrange(lo as int, k as int).push(sorted@[k as int]));
            }
            out.push(sorted[k]);
            k += 1;
        }
        proof {
            let part = sorted@.subrange(lo as int, hi as int);
            assert forall|i: int| 0 <= i < part.len() implies pred(#[trigger] part[i]) by {
                let c = part[i];
                assert(c == sorted@[lo + i]);
                assert(settled_outside(s0.0, vars, positions@.skip(level as int), c));
                assert(pinned_to(s0.0, vars, c)) by {
                    assert forall|q: int| 0 <= q < vars.len() implies s0.0[(#[trigger] vars[q]) as int] == DomainMask::only(bits::bit(c, q)) by {
                        assert(!positions@.skip(level as int).contains(q as usize));
                        assert(agrees_at(s0.0, vars, c, q));
                    }
                }
                assert(ct::narrower(s0.0, s0.0));
                assert(ct::closed_under(*cn, s0.0));
            }
            seqs::lemma_filter_all(part, pred);
        }
        return;
    }
    let pos: usize = positions[level];
    let var: usize = region_vars[pos];
    let mut i: usize = lo;
    proof {
        assert(sorted@.subrange(lo as int, lo as int) =~= Seq::<u64>::empty());
        seqs::lemma_filter_none(sorted@.subrange(lo as int, lo as int), pred);
        assert(out@ =~= out0 + Seq::<u64>::empty());
        assert(ct::logged(*log, s0, *old(log), s0));
    }
    while i < hi
        invariant
            cn.wf(),
            ct::markable(*cn),
            ct::masks_ok(*cn, masks@),
            s0 == (old(doms)@, trail::frozen(old(tables)@)),
            vars == region_vars@,
            pred == feasible_in(*cn, s0.0, vars),
            ct::fixpoint(*cn, s0),
            (doms@, trail::frozen(tables@)) == s0,
            ct::logged(*log, s0, *old(log), s0),
            buffer.clean(*cn),
            buffer.occurrence_scores == old(buffer).occurrence_scores,
            old(log).fits(trail::shape(s0)),
            region_vars@.len() <= 64,
            forall|i: int| 0 <= i < region_vars@.len() ==> (#[trigger] region_vars@[i]) < cn.n(),
            forall|i: int| 0 <= i < positions@.len() ==> (#[trigger] positions@[i]) < region_vars@.len(),
            level < positions@.len(),
            pos == positions@[level as int],
            var == vars[pos as int],
            lo <= i <= hi <= sorted@.len(),
            forall|k: int| lo <= k < hi ==> settled_outside(s0.0, vars, positions@.skip(level as int), #[trigger] sorted@[k]),
            out@ == out0 + sorted@.subrange(lo as int, i as int).filter(pred),
        decreases hi - i,
    {
        assert(positions@[level as int] < region_vars@.len());
        let value = bits::get_bit(sorted[i], pos);
        let mut j: usize = i + 1;
        let mut more = j < hi;
        while more
            invariant
                i < j <= hi <= sorted@.len(),
                pos < 64,
                more ==> j < hi,
                forall|k: int| i <= k < j ==> bits::bit(#[trigger] sorted@[k], pos as int) == value,
            decreases hi - j + (if more {
                1int
            } else {
                0int
            }),
        {
            if bits::get_bit(sorted[j], pos) == value {
                j += 1;
                more = j < hi;
            } else {
                more = false;
            }
        }
        log.open();
        let ghost l0 = *log;
        let mark: usize = log.mark();
        let ok = assign_one(cn, doms, masks, tables, buffer, log, var, value);
        let ghost s1: State = (doms@, trail::frozen(tables@));
        let ghost l1 = *log;
        let ghost part = sorted@.subrange(i as int, j as int);
        let ghost outb = out@;
        proof {
            assert forall|k: int| i <= k < j && ok implies settled_outside(s1.0, vars, positions@.skip(level + 1), #[trigger] sorted@[k]) by {
                let c = sorted@[k];
                lemma_descend(*cn, s0.0, s1.0, vars, pos as int, value, ok, c);
                assert(settled_outside(s0.0, vars, positions@.skip(level as int), c));
                assert forall|q: int| 0 <= q < vars.len() && !positions@.skip(level + 1).contains(q as usize) implies #[trigger] agrees_at(s1.0, vars, c, q) by {
                    if q != pos {
                        assert(!positions@.skip(level as int).contains(q as usize)) by {
                            if positions@.skip(level as int).contains(q as usize) {
                                let x = positions@.skip(level as int).index_of(q as usize);
                                assert(x != 0);
                                assert(positions@.skip(level + 1)[x - 1] == q as usize);
                            }
                        }
                        assert(agrees_at(s0.0, vars, c, q));
                    }
                }
            }
        }
        if ok {
            assert(positions.len() == positions@.len());
            descend(cn, doms, masks, tables, buffer, log, region_vars, positions, sorted, i, j, level + 1, out);
        }
        let ghost l2 = *log;
        proof {
            if ok {
                ct::lemma_logged_trans(l2, s1, l1, s1, l0, s0);
            }
            let p1 = feasible_in(*cn, s1.0, vars);
            if ok {
                assert forall|q: int| 0 <= q < part.len() implies pred(#[trigger] part[q]) == p1(part[q]) by {
                    assert(part[q] == sorted@[i + q]);
                    lemma_descend(*cn, s0.0, s1.0, vars, pos as int, value, ok, part[q]);
                }
                seqs::lemma_filter_same(part, pred, p1);
                assert(out@ == outb + part.filter(pred));
            } else {
                assert forall|q: int| 0 <= q < part.len() implies !pred(#[trigger] part[q]) by {
                    assert(part[q] == sorted@[i + q]);
                    lemma_descend(*cn, s0.0, s1.0, vars, pos as int, value, ok, part[q]);
                }
                seqs::lemma_filter_none(part, pred);
                assert(out@ =~= outb + part.filter(pred));
            }
            let front = sorted@.subrange(lo as int, i as int);
            assert(sorted@.subrange(lo as int, j as int) =~= front + part);
            Seq::filter_distributes_over_add(front, part, pred);
            assert((out0 + front.filter(pred)) + part.filter(pred) =~= out0 + (front.filter(pred) + part.filter(pred)));
        }
        log.restore_to(mark, doms, tables);
        proof {
            lemma_restored(l0, s0, l2, s1, *log, (doms@, trail::frozen(tables@)), mark as int);
            ct::lemma_logged_trans(*log, s0, l0, s0, *old(log), s0);
        }
        i = j;
    }
}

/// The positions of `vars` whose variable is not fixed.
pub open spec fn open_positions(d: Seq<DomainMask>, vars: Seq<usize>, upto: int) -> Seq<usize>
    decreases upto,
{
    if upto <= 0 {
        Seq::empty()
    } else if d[vars[upto - 1] as int].fixed() {
        open_positions(d, vars, upto - 1)
    } else {
        open_positions(d, vars, upto - 1).push((upto - 1) as usize)
    }
}

/// The configurations among `configs` that are feasible, in the order of their open bits.
/// Each has to agree with the variables already fixed.
pub fn feasible_configs(cn: &ConstraintNetwork, doms: &mut Vec<DomainMask>, masks: &Vec<TableMasks>, tables: &mut Vec<RSparseBitSet>, buffer: &mut SolverBuffer, log: &mut Trail, region_vars: &[usize], configs: &[u64]) -> (r: Vec<u64>)
    requires
        cn.wf(),
        ct::markable(*cn),
        ct::masks_ok(*cn, masks@),
        ct::fixpoint(*cn, (old(doms)@, trail::frozen(old(tables)@))),
        old(buffer).clean(*cn),
        old(log).fits(trail::shape((old(doms)@, trail::frozen(old(tables)@)))),
        region_vars@.len() <= 64,
        forall|i: int| 0 <= i < region_vars@.len() ==> (#[trigger] region_vars@[i]) < cn.n(),
        forall|k: int| 0 <= k < configs@.len() ==> agrees_fixed(old(doms)@, region_vars@, #[trigger] configs@[k]),
    ensures
        (final(doms)@, trail::frozen(final(tables)@)) == (old(doms)@, trail::frozen(old(tables)@)),
        ct::logged(*final(log), (final(doms)@, trail::frozen(final(tables)@)), *old(log), (old(doms)@, trail::frozen(old(tables)@))),
        final(buffer).clean(*cn),
        final(buffer).occurrence_scores == old(buffer).occurrence_scores,
        exists|p: Seq<u64>|
            {
                &&& p.to_multiset() == configs@.to_multiset()
                &&& #[trigger] trie_sorted(p, open_positions(old(doms)@, region_vars@, region_vars@.len() as int))
                &&& r@ == p.filter(feasible_in(*cn, old(doms)@, region_vars@))
            },
{
    let ghost s0: State = (doms@, trail::frozen(tables@));
    let mut positions: Vec<usize> = Vec::new();
    let mut i: usize = 0;
    while i < region_vars.len()
        invariant
            i <= region_vars@.len() <= 64,
            forall|i: int| 0 <= i < region_vars@.len() ==> (#[trigger] region_vars@[i]) < cn.n(),
            doms@ == s0.0,
            doms@.len() == cn.n(),
            positions@ == open_positions(s0.0, region_vars@, i as int),
            positions@.len() <= i,
            forall|k: int| 0 <= k < positions@.len() ==> (#[trigger] positions@[k]) < i,
            forall|q: int| 0 <= q < i && !s0.0[(#[trigger] region_vars@[q]) as int].fixed() ==> positions@.contains(q as usize),
        decreases region_vars.len() - i,
    {
        let ghost before = positions@;
        if !doms[region_vars[i]].is_fixed() {
            positions.push(i);
            proof {
                seqs::lemma_push_contains(before, i);
            }
        }
        i += 1;
    }
    let sorted = sort_by_trie(configs, &positions);
    let mut out: Vec<u64> = Vec::new();
    buffer.reset_worklist();
    proof {
        order::lemma_permutation(configs@, sorted@);
        assert forall|k: int| 0 <= k < sorted@.len() implies settled_outside(s0.0, region_vars@, positions@.skip(0), #[trigger] sorted@[k]) by {
            assert(positions@.skip(0) =~= positions@);
            assert(sorted@.contains(sorted@[k]));
            assert(configs@.contains(sorted@[k]));
            let q = configs@.index_of(sorted@[k]);
            assert forall|i: int| 0 <= i < region_vars@.len() && !positions@.contains(i as usize) implies #[trigger] agrees_at(s0.0, region_vars@, sorted@[k], i) by {
                assert(s0.0[region_vars@[i] as int].fixed());
                assert(agrees_fixed(s0.0, region_vars@, configs@[q]));
            }
        }
    }
    descend(cn, doms, masks, tables, buffer, log, region_vars, &positions, &sorted, 0, sorted.len(), 0, &mut out);
    proof {
        assert(sorted@.subrange(0, sorted@.len() as int) =~= sorted@);
        assert(out@ =~= sorted@.filter(feasible_in(*cn, s0.0, region_vars@)));
    }
    out
}

/// `a` and `b` differ at bit `j` and nowhere else.
pub open spec fn flipped(a: u64, b: u64, j: int) -> bool {
    forall|i: int| 0 <= i < 64 ==> #[trigger] bits::bit(b, i) == (if i == j {
        !bits::bit(a, i)
    } else {
        bits::bit(a, i)
    })
}

/// Some live row of `t` is `row` with the value of axis `j` flipped.
pub open spec fn has_partner(cn: ConstraintNetwork, s: State, t: int, j: int, row: u64) -> bool {
    exists|q: int| 0 <= q < cn.rows(t).len() && #[trigger] ct::row_live(s.1[t], q) && flipped(row, cn.rows(t)[q] as u64, j)
}

/// Every live row of `t` with the value `from` on axis `j` has its flipped row live too.
pub open spec fn flips(cn: ConstraintNetwork, s: State, t: int, j: int, from: bool) -> bool {
    forall|r: int|
        0 <= r < cn.rows(t).len() && #[trigger] ct::row_live(s.1[t], r) && bits::bit(cn.rows(t)[r] as u64, j) == from ==> has_partner(cn, s, t, j, cn.rows(t)[r] as u64)
}

/// In every constraint of `v`, a live row without the value `b` has its flipped row live too.
pub open spec fn dominated(cn: ConstraintNetwork, s: State, v: int, b: bool) -> bool {
    forall|t: int, j: int| 0 <= t < cn.m() && #[trigger] ct::axis_of(cn, t, j, v) ==> flips(cn, s, t, j, !b)
}

/// The position of a configuration among ascending ones.
fn find_row(rows: &Vec<u32>, config: u64) -> (r: Option<usize>)
    requires
        network::ascending32(rows@),
    ensures
        match r {
            Some(q) => q < rows@.len() && rows@[q as int] == config,
            None => forall|q: int| 0 <= q < rows@.len() ==> (#[trigger] rows@[q]) != config,
        },
{
    let mut lo: usize = 0;
    let mut hi: usize = rows.len();
    while lo < hi
        invariant
            lo <= hi <= rows@.len(),
            network::ascending32(rows@),
            forall|q: int| 0 <= q < lo ==> (#[trigger] rows@[q]) < config,
            forall|q: int| hi <= q < rows@.len() ==> (#[trigger] rows@[q]) > config,
        decreases hi - lo,
    {
        let mid: usize = lo + (hi - lo) / 2;
        let x: u64 = rows[mid] as u64;
        if x == config {
            return Some(mid);
        }
        if x < config {
            lo = mid + 1;
        } else {
            hi = mid;
        }
    }
    None
}

/// Whether every live row of `t` with the value `from` on axis `j` has its flipped row live.
fn flipped_supported(cn: &ConstraintNetwork, tables: &Vec<RSparseBitSet>, t: usize, j: usize, from: bool, Ghost(doms): Ghost<Seq<DomainMask>>) -> (r: bool)
    requires
        cn.wf(),
        t < cn.m(),
        j < cn.axes(t as int).len(),
        ct::state_wf(*cn, (doms, trail::frozen(tables@))),
    ensures
        r == flips(*cn, (doms, trail::frozen(tables@)), t as int, j as int, from),
{
    let ghost s: State = (doms, trail::frozen(tables@));
    let ghost tv = s.1[t as int];
    assert(cn.tensor_wf(t as int));
    let rows = cn.support(&cn.tensors[t]);
    let table = &tables[t];
    proof {
        assert(ct::table_wf(*cn, t as int, tv));
        assert(tv == (table.words@, table.limit));
    }
    let mut r: usize = 0;
    while r < rows.len()
        invariant
            cn.wf(),
            t < cn.m(),
            cn.tensor_wf(t as int),
            j < cn.axes(t as int).len(),
            rows@ == cn.rows(t as int),
            s == (doms, trail::frozen(tables@)),
            tv == s.1[t as int],
            tv == (table.words@, table.limit),
            ct::table_wf(*cn, t as int, tv),
            r <= rows@.len(),
            forall|q: int| 0 <= q < r && #[trigger] ct::row_live(tv, q) && bits::bit(rows@[q] as u64, j as int) == from ==> has_partner(*cn, s, t as int, j as int, rows@[q] as u64),
        decreases rows.len() - r,
    {
        let row: u64 = rows[r] as u64;
        if bits::get_bit(table.words[r / 64], r % 64) && bits::get_bit(row, j) == from {
            let other: u64 = row ^ (1u64 << (j as u64));
            proof {
                broadcast use bits::group_bits;

                assert(flipped(row, other, j as int));
                assert(ct::row_live(tv, r as int));
            }
            let place = find_row(rows, other);
            let found = match place {
                Some(q) => bits::get_bit(table.words[q / 64], q % 64),
                None => false,
            };
            proof {
                if has_partner(*cn, s, t as int, j as int, row) {
                    let q = choose|q: int| 0 <= q < cn.rows(t as int).len() && #[trigger] ct::row_live(s.1[t as int], q) && flipped(row, cn.rows(t as int)[q] as u64, j as int);
                    bits::lemma_bits_equal(cn.rows(t as int)[q] as u64, other);
                    assert(rows@[q] as u64 == other);
                    assert(found) by {
                        assert forall|x: int| 0 <= x < rows@.len() && rows@[x] == other implies x == q by {
                            if x < q {
                            } else if q < x {
                            }
                        }
                    }
                }
            }
            if !found {
                return false;
            }
            proof {
                let q = place->0 as int;
                assert(ct::row_live(s.1[t as int], q));
                assert(has_partner(*cn, s, t as int, j as int, row));
            }
        }
        r += 1;
    }
    true
}

/// Setting a dominated variable to its value turns a model into a model.
proof fn lemma_dominated(cn: ConstraintNetwork, s: State, v: int, b: bool, a: Asg)
    requires
        cn.wf(),
        ct::fixpoint(cn, s),
        0 <= v < cn.n(),
        dominated(cn, s, v, b),
        cn.model(a),
        models::consistent(s.0, a),
    ensures
        cn.model(sums::set(a, v, b)),
{
    let a2 = sums::set(a, v, b);
    assert forall|t: int| 0 <= t < cn.m() implies #[trigger] cn.holds(t, a2) by {
        assert(cn.tensor_wf(t));
        assert(cn.holds(t, a));
        let axes = cn.axes(t);
        let k = choose|k: int| 0 <= k < cn.rows(t).len() && network::agrees(axes, #[trigger] cn.rows(t)[k] as u64, a);
        let row = cn.rows(t)[k] as u64;
        if exists|j: int| ct::axis_of(cn, t, j, v) && a(v) != b {
            let j = choose|j: int| ct::axis_of(cn, t, j, v) && a(v) != b;
            assert(ct::admits(s.0, axes, row)) by {
                assert forall|i: int| 0 <= i < axes.len() implies s.0[(#[trigger] axes[i]) as int].allows(bits::bit(row, i)) by {
                    assert(s.0[axes[i] as int].allows(a(axes[i] as int)));
                }
            }
            assert(ct::row_live(s.1[t], k));
            assert(bits::bit(row, j) == a(axes[j] as int));
            assert(flips(cn, s, t, j, !b));
            assert(has_partner(cn, s, t, j, row));
            let q = choose|q: int| 0 <= q < cn.rows(t).len() && #[trigger] ct::row_live(s.1[t], q) && flipped(row, cn.rows(t)[q] as u64, j);
            assert(network::agrees(axes, cn.rows(t)[q] as u64, a2)) by {
                assert forall|i: int| 0 <= i < axes.len() implies bits::bit(cn.rows(t)[q] as u64, i) == a2(#[trigger] axes[i] as int) by {
                    assert(bits::bit(row, i) == a(axes[i] as int));
                    if i != j {
                        if i < j {
                            assert(axes[i] != axes[j]);
                        } else {
                            assert(axes[j] != axes[i]);
                        }
                    }
                }
            }
        } else {
            assert(network::agrees(axes, cn.rows(t)[k] as u64, a2)) by {
                assert forall|i: int| 0 <= i < axes.len() implies bits::bit(row, i) == a2(#[trigger] axes[i] as int) by {
                    assert(bits::bit(row, i) == a(axes[i] as int));
                    if axes[i] == v {
                        assert(ct::axis_of(cn, t, i, v));
                    }
                }
            }
        }
    }
}

/// Which value, if any, dominates in `v`: true is tried first.
fn dominating_value(cn: &ConstraintNetwork, doms: &Vec<DomainMask>, tables: &Vec<RSparseBitSet>, v: usize, Ghost(d0): Ghost<Seq<DomainMask>>) -> (r: Option<bool>)
    requires
        cn.wf(),
        v < cn.n(),
        ct::state_wf(*cn, (d0, trail::frozen(tables@))),
    ensures
        match r {
            Some(b) => dominated(*cn, (d0, trail::frozen(tables@)), v as int, b) && (!b ==> !dominated(*cn, (d0, trail::frozen(tables@)), v as int, true)),
            None => forall|b: bool| !#[trigger] dominated(*cn, (d0, trail::frozen(tables@)), v as int, b),
        },
{
    let ghost s: State = (d0, trail::frozen(tables@));
    let list = &cn.v2t[v];
    let mut ok0 = true;
    let mut ok1 = true;
    let mut i: usize = 0;
    proof {
        assert(cn.incidence_wf(v as int));
        assert(cn.vars.len() == cn.n());
    }
    while i < list.len() && (ok0 || ok1)
        invariant
            cn.wf(),
            v < cn.n(),
            cn.incidence_wf(v as int),
            s == (d0, trail::frozen(tables@)),
            ct::state_wf(*cn, s),
            list@ == cn.v2t@[v as int]@,
            i <= list@.len(),
            ok1 ==> forall|k: int, j: int| 0 <= k < i && #[trigger] ct::axis_of(*cn, list@[k] as int, j, v as int) ==> flips(*cn, s, list@[k] as int, j, false),
            ok0 ==> forall|k: int, j: int| 0 <= k < i && #[trigger] ct::axis_of(*cn, list@[k] as int, j, v as int) ==> flips(*cn, s, list@[k] as int, j, true),
            !ok1 ==> !dominated(*cn, s, v as int, true),
            !ok0 ==> !dominated(*cn, s, v as int, false),
        decreases list.len() - i,
    {
        let t: usize = list[i];
        proof {
            assert(list@[i as int] < cn.m());
            assert(cn.tensor_wf(t as int));
            assert(cn.tensors.len() == cn.m());
        }
        let j: usize = ct::find_axis(&cn.tensors[t].var_axes, v);
        proof {
            assert(ct::axis_of(*cn, t as int, j as int, v as int));
            assert forall|q: int| #[trigger] ct::axis_of(*cn, t as int, q, v as int) implies q == j by {
                if q < j {
                    assert(cn.axes(t as int)[q] != cn.axes(t as int)[j as int]);
                } else if j < q {
                    assert(cn.axes(t as int)[j as int] != cn.axes(t as int)[q]);
                }
            }
        }
        if ok1 {
            ok1 = flipped_supported(cn, tables, t, j, false, Ghost(d0));
        }
        if ok0 {
            ok0 = flipped_supported(cn, tables, t, j, true, Ghost(d0));
        }
        i += 1;
    }
    proof {
        if ok1 {
            assert forall|t: int, j: int| 0 <= t < cn.m() && #[trigger] ct::axis_of(*cn, t, j, v as int) implies flips(*cn, s, t, j, false) by {
                assert(cn.axes(t)[j] == v);
                assert(cn.axes(t).contains(v));
                assert(cn.tensors.len() == cn.m());
                assert(list@.contains(t as usize));
                let k = list@.index_of(t as usize);
                assert(ct::axis_of(*cn, list@[k] as int, j, v as int));
            }
        }
        if ok0 {
            assert forall|t: int, j: int| 0 <= t < cn.m() && #[trigger] ct::axis_of(*cn, t, j, v as int) implies flips(*cn, s, t, j, true) by {
                assert(cn.axes(t)[j] == v);
                assert(cn.axes(t).contains(v));
                assert(cn.tensors.len() == cn.m());
                assert(list@.contains(t as usize));
                let k = list@.index_of(t as usize);
                assert(ct::axis_of(*cn, list@[k] as int, j, v as int));
            }
        }
    }
    if ok1 {
        Some(true)
    } else if ok0 {
        Some(false)
    } else {
        proof {
            assert forall|b: bool| !#[trigger] dominated(*cn, s, v as int, b) by {
                if b {
                } else {
                }
            }
        }
        None
    }
}

/// Fix dominated variables until none is left: each to a value that a model can always be
/// given instead. False where propagation then finds a contradiction.
pub fn dominate_fixpoint(cn: &ConstraintNetwork, doms: &mut Vec<DomainMask>, masks: &Vec<TableMasks>, tables: &mut Vec<RSparseBitSet>, buffer: &mut SolverBuffer, log: &mut Trail) -> (r: bool)
    requires
        cn.wf(),
        ct::markable(*cn),
        ct::masks_ok(*cn, masks@),
        ct::fixpoint(*cn, (old(doms)@, trail::frozen(old(tables)@))),
        old(buffer).clean(*cn),
        old(log).fits(trail::shape((old(doms)@, trail::frozen(old(tables)@)))),
    ensures
        ct::logged(*final(log), (final(doms)@, trail::frozen(final(tables)@)), *old(log), (old(doms)@, trail::frozen(old(tables)@))),
        final(buffer).clean(*cn),
        final(buffer).occurrence_scores == old(buffer).occurrence_scores,
        ct::narrower(final(doms)@, old(doms)@),
        r ==> {
            &&& ct::fixpoint(*cn, (final(doms)@, trail::frozen(final(tables)@)))
            &&& models::carries(*cn, old(doms)@, final(doms)@, Seq::empty())
            &&& forall|v: int, b: bool| 0 <= v < cn.n() && final(doms)@[v] == DomainMask::BOTH ==> !#[trigger] dominated(*cn, (final(doms)@, trail::frozen(final(tables)@)), v, b)
        },
        !r ==> !models::satisfiable(*cn, old(doms)@) && cn.n() > 0 && final(doms)@[0] == DomainMask::NONE,
{
    let ghost s0: State = (doms@, trail::frozen(tables@));
    proof {
        assert(ct::logged(*log, s0, *old(log), s0));
        assert(ct::narrower(s0.0, s0.0));
        models::lemma_keeps_carries(*cn, s0.0, s0.0, Seq::empty());
    }
    loop
        invariant
            cn.wf(),
            ct::markable(*cn),
            ct::masks_ok(*cn, masks@),
            s0 == (old(doms)@, trail::frozen(old(tables)@)),
            ct::fixpoint(*cn, (doms@, trail::frozen(tables@))),
            buffer.clean(*cn),
            buffer.occurrence_scores == old(buffer).occurrence_scores,
            ct::logged(*log, (doms@, trail::frozen(tables@)), *old(log), s0),
            ct::narrower(doms@, s0.0),
            models::carries(*cn, s0.0, doms@, Seq::empty()),
        decreases ct::both_count(doms@, cn.n()),
    {
        let ghost s1: State = (doms@, trail::frozen(tables@));
        let ghost l1 = *log;
        let mut fixed_any = false;
        let mut v: usize = 0;
        proof {
            lemma_fixpoint_pending(*cn, s1, *buffer);
            assert(ct::logged(l1, s1, l1, s1));
            assert(ct::narrower(s1.0, s1.0));
            models::lemma_keeps_carries(*cn, s1.0, s1.0, Seq::empty());
        }
        while v < doms.len()
            invariant
                cn.wf(),
                ct::fixpoint(*cn, s1),
                s1.1 == trail::frozen(tables@),
                doms@.len() == cn.n(),
                v <= doms@.len(),
                ct::pending(*cn, (doms@, s1.1), *buffer, -1),
                ct::queue_ok(*buffer, 0, cn.m()),
                buffer.occurrence_scores == old(buffer).occurrence_scores,
                ct::logged(*log, (doms@, s1.1), l1, s1),
                ct::narrower(doms@, s1.0),
                forall|u: int| v <= u < cn.n() ==> #[trigger] doms@[u] == s1.0[u],
                !fixed_any ==> doms@ == s1.0 && buffer.clean(*cn),
                !fixed_any ==> forall|u: int, b: bool| 0 <= u < v && s1.0[u] == DomainMask::BOTH ==> !#[trigger] dominated(*cn, s1, u, b),
                fixed_any ==> ct::both_count(doms@, cn.n()) < ct::both_count(s1.0, cn.n()),
                models::carries(*cn, s1.0, doms@, Seq::empty()),
            decreases doms.len() - v,
        {
            if doms[v] == DomainMask::BOTH {
                match dominating_value(cn, doms, tables, v, Ghost(s1.0)) {
                    Some(b) => {
                        let ghost d2 = doms@;
                        let ghost b2 = *buffer;
                        let ghost l2 = *log;
                        let nd = if b {
                            DomainMask::D1
                        } else {
                            DomainMask::D0
                        };
                        log.record_dom(v, DomainMask::BOTH);
                        doms.set(v, nd);
                        ct::enqueue_var_change(cn, buffer, v);
                        proof {
                            ct::lemma_log_dom(d2, doms@, s1.1, l2, *log, v as int);
                            ct::lemma_logged_trans(*log, (doms@, s1.1), l2, (d2, s1.1), l1, s1);
                            ct::lemma_pending_write(*cn, (d2, s1.1), (doms@, s1.1), b2, *buffer, v as int, -1);
                            assert(ct::narrower(doms@, d2));
                            ct::lemma_narrower_trans(doms@, d2, s1.0);
                            ct::lemma_both_less(d2, doms@, v as int, cn.n());
                            lemma_dominated_carries(*cn, s1, d2, doms@, v as int, b);
                            models::lemma_carries_trans(*cn, s1.0, d2, doms@, Seq::empty(), Seq::empty(), Seq::empty());
                        }
                        fixed_any = true;
                    },
                    None => {},
                }
            }
            v += 1;
        }
        if !fixed_any {
            proof {
                assert((doms@, trail::frozen(tables@)) == s1);
            }
            return true;
        }
        let ghost s2: State = (doms@, trail::frozen(tables@));
        let ghost l2 = *log;
        let ok = ct::ct_propagate(cn, doms, masks, tables, buffer, log);
        proof {
            let s3: State = (doms@, trail::frozen(tables@));
            ct::lemma_logged_trans(*log, s3, l2, s2, l1, s1);
            ct::lemma_logged_trans(*log, s3, l1, s1, *old(log), s0);
            ct::lemma_narrower_trans(doms@, s2.0, s1.0);
            ct::lemma_narrower_trans(doms@, s1.0, s0.0);
            if ok {
                models::lemma_keeps_models(*cn, s2.0, doms@);
                models::lemma_keeps_carries(*cn, s2.0, doms@, Seq::empty());
                models::lemma_carries_trans(*cn, s1.0, s2.0, doms@, Seq::empty(), Seq::empty(), Seq::empty());
                models::lemma_carries_trans(*cn, s0.0, s1.0, doms@, Seq::empty(), Seq::empty(), Seq::empty());
                lemma_both_narrower(doms@, s2.0, cn.n());
            } else {
                models::lemma_refuted_unsat(*cn, s2.0);
                if models::satisfiable(*cn, s0.0) {
                    models::lemma_carries_satisfiable(*cn, s0.0, s1.0);
                    models::lemma_carries_satisfiable(*cn, s1.0, s2.0);
                }
            }
        }
        if !ok {
            return false;
        }
    }
}

/// Fixing a dominated variable loses no answer.
proof fn lemma_dominated_carries(cn: ConstraintNetwork, s: State, d: Seq<DomainMask>, e: Seq<DomainMask>, v: int, b: bool)
    requires
        cn.wf(),
        ct::fixpoint(cn, s),
        0 <= v < cn.n(),
        dominated(cn, s, v, b),
        ct::narrower(d, s.0),
        e == d.update(v, DomainMask::only(b)),
    ensures
        models::carries(cn, d, e, Seq::empty()),
{
    assert forall|h: Asg| #[trigger] cn.model(h) && models::consistent(d, h) && models::allows_on(e, Seq::empty(), h) implies models::carried(cn, e, h) by {
        models::lemma_consistent_wider(d, s.0, h);
        lemma_dominated(cn, s, v, b, h);
        let g = sums::set(h, v, b);
        assert(models::consistent(e, g)) by {
            assert forall|u: int| 0 <= u < e.len() implies e[u].allows(#[trigger] g(u)) by {
                if u != v {
                    assert(d[u].allows(h(u)));
                }
            }
        }
        assert(models::keeps_where(e, h, g));
    }
}

/// Narrower live domains have no more variables with both values.
pub proof fn lemma_both_narrower(e: Seq<DomainMask>, d: Seq<DomainMask>, n: int)
    requires
        ct::narrower(e, d),
        n <= d.len(),
    ensures
        ct::both_count(e, n) <= ct::both_count(d, n),
    decreases n,
{
    if n > 0 {
        lemma_both_narrower(e, d, n - 1);
        if e[n - 1] == DomainMask::BOTH {
            assert(e[n - 1].allows(true));
            assert(e[n - 1].allows(false));
        }
    }
}

/// Some value of some open variable in `pool` fails when tried.
pub open spec fn failing(cn: ConstraintNetwork, d: Seq<DomainMask>, pool: Seq<usize>) -> bool {
    exists|i: int, b: bool| 0 <= i < pool.len() && d[pool[i] as int] == DomainMask::BOTH && #[trigger] ct::refuted(cn, pin(d, pool[i] as int, b))
}

/// Whether setting `v` to `b` propagates without contradiction; nothing is kept of it.
pub fn value_holds(cn: &ConstraintNetwork, doms: &mut Vec<DomainMask>, masks: &Vec<TableMasks>, tables: &mut Vec<RSparseBitSet>, buffer: &mut SolverBuffer, log: &mut Trail, v: usize, b: bool) -> (r: bool)
    requires
        cn.wf(),
        ct::markable(*cn),
        ct::masks_ok(*cn, masks@),
        ct::fixpoint(*cn, (old(doms)@, trail::frozen(old(tables)@))),
        old(buffer).clean(*cn),
        old(log).fits(trail::shape((old(doms)@, trail::frozen(old(tables)@)))),
        v < cn.n(),
    ensures
        (final(doms)@, trail::frozen(final(tables)@)) == (old(doms)@, trail::frozen(old(tables)@)),
        ct::logged(*final(log), (final(doms)@, trail::frozen(final(tables)@)), *old(log), (old(doms)@, trail::frozen(old(tables)@))),
        final(buffer).clean(*cn),
        final(buffer).occurrence_scores == old(buffer).occurrence_scores,
        r == !ct::refuted(*cn, pin(old(doms)@, v as int, b)),
{
    let ghost s0: State = (doms@, trail::frozen(tables@));
    log.open();
    let ghost l0 = *log;
    let mark: usize = log.mark();
    let ok = assign_one(cn, doms, masks, tables, buffer, log, v, b);
    let ghost l1 = *log;
    let ghost s1: State = (doms@, trail::frozen(tables@));
    proof {
        if ok {
            assert(ct::closed_under(*cn, s1.0) && ct::narrower(s1.0, pin(s0.0, v as int, b)));
        }
    }
    log.restore_to(mark, doms, tables);
    proof {
        lemma_restored(l0, s0, l1, s1, *log, (doms@, trail::frozen(tables@)), mark as int);
    }
    ok
}

/// Arc-consistent domains that decide a variable do not give it a value that fails.
pub proof fn lemma_failed_value(cn: ConstraintNetwork, d: Seq<DomainMask>, e: Seq<DomainMask>, v: int, b: bool)
    requires
        d.len() == cn.n(),
        0 <= v < cn.n(),
        ct::refuted(cn, pin(d, v, b)),
        ct::closed_under(cn, e),
        ct::narrower(e, d),
        e[v].fixed(),
    ensures
        ct::narrower(e, pin(d, v, !b)),
{
    if e[v] == DomainMask::only(b) {
        assert(ct::narrower(e, pin(d, v, b))) by {
            assert forall|u: int, x: bool| 0 <= u < d.len() && (#[trigger] e[u].allows(x)) implies pin(d, v, b)[u].allows(x) by {
                assert(d[u].allows(x));
            }
        }
    }
    assert forall|u: int, x: bool| 0 <= u < d.len() && (#[trigger] e[u].allows(x)) implies pin(d, v, !b)[u].allows(x) by {
        assert(d[u].allows(x));
    }
}

/// Try both values of each open variable in `pool`, and fix the other value where one fails,
/// until none fails. False where both fail.
pub fn failed_literal_fixpoint(cn: &ConstraintNetwork, doms: &mut Vec<DomainMask>, masks: &Vec<TableMasks>, tables: &mut Vec<RSparseBitSet>, buffer: &mut SolverBuffer, log: &mut Trail, pool: &[usize]) -> (r: bool)
    requires
        cn.wf(),
        ct::markable(*cn),
        ct::masks_ok(*cn, masks@),
        ct::fixpoint(*cn, (old(doms)@, trail::frozen(old(tables)@))),
        old(buffer).clean(*cn),
        old(log).fits(trail::shape((old(doms)@, trail::frozen(old(tables)@)))),
        forall|i: int| 0 <= i < pool@.len() ==> (#[trigger] pool@[i]) < cn.n(),
    ensures
        ct::logged(*final(log), (final(doms)@, trail::frozen(final(tables)@)), *old(log), (old(doms)@, trail::frozen(old(tables)@))),
        final(buffer).clean(*cn),
        final(buffer).occurrence_scores == old(buffer).occurrence_scores,
        ct::narrower(final(doms)@, old(doms)@),
        r ==> {
            &&& ct::fixpoint(*cn, (final(doms)@, trail::frozen(final(tables)@)))
            &&& models::keeps_decided(*cn, old(doms)@, final(doms)@, pool@)
            &&& !failing(*cn, final(doms)@, pool@)
        },
        !r ==> models::undecidable(*cn, old(doms)@, pool@) && cn.n() > 0 && final(doms)@[0] == DomainMask::NONE,
{
    let ghost s0: State = (doms@, trail::frozen(tables@));
    proof {
        assert(ct::logged(*log, s0, *old(log), s0));
        assert(ct::narrower(s0.0, s0.0));
    }
    loop
        invariant
            cn.wf(),
            ct::markable(*cn),
            ct::masks_ok(*cn, masks@),
            forall|i: int| 0 <= i < pool@.len() ==> (#[trigger] pool@[i]) < cn.n(),
            s0 == (old(doms)@, trail::frozen(old(tables)@)),
            ct::fixpoint(*cn, (doms@, trail::frozen(tables@))),
            buffer.clean(*cn),
            buffer.occurrence_scores == old(buffer).occurrence_scores,
            ct::logged(*log, (doms@, trail::frozen(tables@)), *old(log), s0),
            ct::narrower(doms@, s0.0),
            models::keeps_decided(*cn, s0.0, doms@, pool@),
        decreases ct::both_count(doms@, cn.n()),
    {
        let ghost d1 = doms@;
        let mut changed = false;
        let mut i: usize = 0;
        while i < pool.len()
            invariant
                cn.wf(),
                ct::markable(*cn),
                ct::masks_ok(*cn, masks@),
                forall|i: int| 0 <= i < pool@.len() ==> (#[trigger] pool@[i]) < cn.n(),
                s0 == (old(doms)@, trail::frozen(old(tables)@)),
                ct::fixpoint(*cn, (doms@, trail::frozen(tables@))),
                buffer.clean(*cn),
                buffer.occurrence_scores == old(buffer).occurrence_scores,
                ct::logged(*log, (doms@, trail::frozen(tables@)), *old(log), s0),
                ct::narrower(doms@, s0.0),
                models::keeps_decided(*cn, s0.0, doms@, pool@),
                i <= pool@.len(),
                !changed ==> doms@ == d1,
                changed ==> ct::both_count(doms@, cn.n()) < ct::both_count(d1, cn.n()),
                !changed ==> forall|k: int, b: bool| 0 <= k < i && d1[pool@[k] as int] == DomainMask::BOTH ==> !#[trigger] ct::refuted(*cn, pin(d1, pool@[k] as int, b)),
            decreases pool.len() - i,
        {
            let v: usize = pool[i];
            if doms[v] == DomainMask::BOTH {
                let ghost s2: State = (doms@, trail::frozen(tables@));
                let ghost l2 = *log;
                let can0 = value_holds(cn, doms, masks, tables, buffer, log, v, false);
                let can1 = value_holds(cn, doms, masks, tables, buffer, log, v, true);
                let ghost l3 = *log;
                proof {
                    ct::lemma_logged_trans(l3, s2, l2, s2, *old(log), s0);
                    assert forall|b: bool| #[trigger] ct::refuted(*cn, pin(s2.0, v as int, b)) implies !(if b { can1 } else { can0 }) by {}
                }
                if !can0 || !can1 {
                    let ok = assign_one(cn, doms, masks, tables, buffer, log, v, can1);
                    proof {
                        let s4: State = (doms@, trail::frozen(tables@));
                        ct::lemma_logged_trans(*log, s4, l3, s2, *old(log), s0);
                        ct::lemma_narrower_trans(doms@, s2.0, s0.0);
                        let dp = pin(s2.0, v as int, can1);
                        assert forall|e: Seq<DomainMask>| #[trigger] ct::closed_under(*cn, e) && ct::narrower(e, s0.0) && models::decided_on(e, pool@) implies ct::narrower(e, dp) by {
                            assert(ct::narrower(e, s2.0));
                            assert(e[pool@[i as int] as int].fixed());
                            lemma_failed_value(*cn, s2.0, e, v as int, !can1);
                        }
                        if ok {
                            ct::lemma_both_less(s2.0, dp, v as int, cn.n());
                            lemma_both_narrower(doms@, dp, cn.n());
                        }
                    }
                    if !ok {
                        return false;
                    }
                    changed = true;
                }
            }
            i += 1;
        }
        if !changed {
            return true;
        }
    }
}

/// The configurations of `support` that have the values marked by `mask0` and `mask1`.
pub open spec fn compatible(support: Seq<u32>, mask0: u32, mask1: u32) -> Seq<u32> {
    support.filter(|c: u32| c & (mask0 | mask1) == mask1)
}

/// The union and the intersection of the compatible configurations, and whether there are any.
pub fn scan_supports(support: &[u32], mask0: u32, mask1: u32) -> (r: (u32, u32, bool))
    ensures
        r.0 == network::or_all(compatible(support@, mask0, mask1)),
        r.1 == network::and_all(compatible(support@, mask0, mask1)),
        r.2 == (compatible(support@, mask0, mask1).len() > 0),
{
    let m: u32 = mask0 | mask1;
    let mut valid_or: u32 = 0;
    let mut valid_and: u32 = 0xFFFF_FFFF;
    let mut found = false;
    let mut i: usize = 0;
    let ghost p = |c: u32| c & (mask0 | mask1) == mask1;
    proof {
        reveal(Seq::filter);
        assert(support@.take(0).filter(p) =~= Seq::<u32>::empty());
    }
    while i < support.len()
        invariant
            i <= support@.len(),
            m == mask0 | mask1,
            p == |c: u32| c & (mask0 | mask1) == mask1,
            valid_or == network::or_all(support@.take(i as int).filter(p)),
            valid_and == network::and_all(support@.take(i as int).filter(p)),
            found == (support@.take(i as int).filter(p).len() > 0),
        decreases support.len() - i,
    {
        let config: u32 = support[i];
        proof {
            reveal(Seq::filter);
            seqs::lemma_take_next(support@, i as int);
            let f = support@.take(i as int).filter(p);
            assert(f.push(config).drop_last() =~= f);
        }
        if config & m == mask1 {
            valid_or = valid_or | config;
            valid_and = valid_and & config;
            found = true;
        }
        i += 1;
    }
    proof {
        seqs::lemma_take_all(support@);
    }
    (valid_or, valid_and, found)
}

/// A bit of a union is in some of the configurations.
pub proof fn lemma_or_bit(s: Seq<u32>, i: int)
    requires
        0 <= i < 64,
    ensures
        bits::bit(network::or_all(s) as u64, i) <==> exists|k: int| 0 <= k < s.len() && bits::bit((#[trigger] s[k]) as u64, i),
    decreases s.len(),
{
    broadcast use bits::group_bits;

    if s.len() > 0 {
        let f = s.drop_last();
        lemma_or_bit(f, i);
        assert((network::or_all(f) | s.last()) as u64 == network::or_all(f) as u64 | s.last() as u64);
        if exists|k: int| 0 <= k < f.len() && bits::bit((#[trigger] f[k]) as u64, i) {
            let k = choose|k: int| 0 <= k < f.len() && bits::bit((#[trigger] f[k]) as u64, i);
            assert(bits::bit(s[k] as u64, i));
        }
        if bits::bit(s.last() as u64, i) {
            assert(bits::bit(s[s.len() - 1] as u64, i));
        }
        if exists|k: int| 0 <= k < s.len() && bits::bit((#[trigger] s[k]) as u64, i) {
            let k = choose|k: int| 0 <= k < s.len() && bits::bit((#[trigger] s[k]) as u64, i);
            if k < f.len() {
                assert(bits::bit(f[k] as u64, i));
            }
        }
    }
}

/// A bit of an intersection is in all of the configurations.
pub proof fn lemma_and_bit(s: Seq<u32>, i: int)
    requires
        0 <= i < 32,
    ensures
        bits::bit(network::and_all(s) as u64, i) <==> forall|k: int| 0 <= k < s.len() ==> bits::bit((#[trigger] s[k]) as u64, i),
    decreases s.len(),
{
    broadcast use bits::group_bits;

    if s.len() > 0 {
        let f = s.drop_last();
        lemma_and_bit(f, i);
        assert((network::and_all(f) & s.last()) as u64 == network::and_all(f) as u64 & s.last() as u64);
        assert(s[s.len() - 1] == s.last());
        if forall|k: int| 0 <= k < s.len() ==> bits::bit((#[trigger] s[k]) as u64, i) {
            assert forall|k: int| 0 <= k < f.len() implies bits::bit((#[trigger] f[k]) as u64, i) by {
                assert(bits::bit(s[k] as u64, i));
            }
        }
        if bits::bit(network::and_all(s) as u64, i) {
            assert forall|k: int| 0 <= k < s.len() implies bits::bit((#[trigger] s[k]) as u64, i) by {
                if k < f.len() {
                    assert(bits::bit(f[k] as u64, i));
                }
            }
        }
    } else {
        reveal(bits::bit);
        let k = i as u64;
        assert((0xFFFF_FFFFu64 >> k) & 1u64 == 1u64) by (bit_vector)
            requires
                k < 32,
        ;
    }
}

/// Queue the neighbours that are not queued yet.
fn enqueue_neighbors(queue: &mut Vec<usize>, in_queue: &mut Vec<bool>, neighbors: &Vec<usize>, Ghost(head): Ghost<int>)
    requires
        listed_flags(old(queue)@, old(in_queue)@, head),
        forall|i: int| 0 <= i < neighbors@.len() ==> (#[trigger] neighbors@[i]) < old(in_queue)@.len(),
    ensures
        listed_flags(final(queue)@, final(in_queue)@, head),
        final(queue)@.len() >= old(queue)@.len(),
        final(in_queue)@.len() == old(in_queue)@.len(),
        forall|t: int| 0 <= t < final(in_queue)@.len() ==> #[trigger] final(in_queue)@[t] == (old(in_queue)@[t] || contract::lists(neighbors@, t)),
{
    let mut i: usize = 0;
    while i < neighbors.len()
        invariant
            i <= neighbors@.len(),
            listed_flags(queue@, in_queue@, head),
            forall|i: int| 0 <= i < neighbors@.len() ==> (#[trigger] neighbors@[i]) < in_queue@.len(),
            queue@.len() >= old(queue)@.len(),
            in_queue@.len() == old(in_queue)@.len(),
            forall|t: int| 0 <= t < in_queue@.len() ==> #[trigger] in_queue@[t] == (old(in_queue)@[t] || contract::lists(neighbors@.take(i as int), t)),
        decreases neighbors.len() - i,
    {
        let t: usize = neighbors[i];
        let ghost q0 = queue@;
        let ghost f0 = in_queue@;
        if !in_queue[t] {
            in_queue.set(t, true);
            queue.push(t);
        }
        proof {
            assert(listed_flags(queue@, in_queue@, head)) by {
                if !f0[t as int] {
                    assert forall|u: int| 0 <= u < in_queue@.len() && #[trigger] in_queue@[u] implies ct::queued(queue@, head, u) by {
                        if u == t {
                            assert(queue@[q0.len() as int] == u);
                        } else {
                            assert(f0[u]);
                            let k = choose|k: int| head <= k < q0.len() && #[trigger] q0[k] == u;
                            assert(queue@[k] == u);
                        }
                    }
                    assert forall|a: int, b: int| head <= a < b < queue@.len() implies #[trigger] queue@[a] != #[trigger] queue@[b] by {
                        assert(f0[q0[a] as int]);
                        if b < q0.len() {
                            assert(q0[a] != q0[b]);
                        }
                    }
                    assert forall|a: int| head <= a < queue@.len() implies (#[trigger] queue@[a]) < in_queue@.len() && in_queue@[queue@[a] as int] by {
                        if a < q0.len() {
                            assert(f0[q0[a] as int]);
                        }
                    }
                }
            }
            let n0 = neighbors@.take(i as int);
            let n1 = neighbors@.take(i + 1);
            assert forall|u: int| #[trigger] contract::lists(n1, u) == (contract::lists(n0, u) || u == t) by {
                if contract::lists(n1, u) {
                    let k = choose|k: int| 0 <= k < n1.len() && (#[trigger] n1[k]) as int == u;
                    if k < i {
                        assert(n0[k] as int == u);
                    }
                }
                if contract::lists(n0, u) {
                    let k = choose|k: int| 0 <= k < n0.len() && (#[trigger] n0[k]) as int == u;
                    assert(n1[k] as int == u);
                }
                if u == t {
                    assert(n1[i as int] as int == u);
                }
            }
        }
        i += 1;
    }
    proof {
        seqs::lemma_take_all(neighbors@);
    }
}

/// The queue from `head` on lists, once each, the constraints flagged.
pub open spec fn listed_flags(queue: Seq<usize>, flags: Seq<bool>, head: int) -> bool {
    &&& 0 <= head <= queue.len()
    &&& forall|i: int| head <= i < queue.len() ==> (#[trigger] queue[i]) < flags.len() && flags[queue[i] as int]
    &&& forall|i: int, k: int| head <= i < k < queue.len() ==> #[trigger] queue[i] != #[trigger] queue[k]
    &&& forall|t: int| 0 <= t < flags.len() && #[trigger] flags[t] ==> ct::queued(queue, head, t)
}

/// Every domain has a value.
pub open spec fn all_live(d: Seq<DomainMask>) -> bool {
    forall|v: int| 0 <= v < d.len() ==> (#[trigger] d[v]).live()
}

/// Constraints that are not flagged are arc consistent.
pub open spec fn calm(cn: ConstraintNetwork, d: Seq<DomainMask>, flags: Seq<bool>, free: int) -> bool {
    forall|t: int| 0 <= t < cn.m() && t != free && !#[trigger] flags[t] ==> ct::consistent_at(cn, d, t)
}

/// Narrow the open variables of constraint `t` to the values its compatible rows have.
fn apply_updates(doms: &mut Vec<DomainMask>, cn: &ConstraintNetwork, t: usize, valid_or: u32, valid_and: u32, queue: &mut Vec<usize>, in_queue: &mut Vec<bool>, Ghost(head): Ghost<int>, Ghost(rows): Ghost<Seq<u32>>)
    requires
        cn.wf(),
        t < cn.m(),
        old(doms)@.len() == cn.n(),
        all_live(old(doms)@),
        old(in_queue)@.len() == cn.m(),
        listed_flags(old(queue)@, old(in_queue)@, head),
        !old(in_queue)@[t as int],
        calm(*cn, old(doms)@, old(in_queue)@, t as int),
        rows.len() > 0,
        forall|c: u32| #[trigger] rows.contains(c) <==> (cn.rows(t as int).contains(c) && ct::admits(old(doms)@, cn.axes(t as int), c as u64)),
        valid_or == network::or_all(rows),
        valid_and == network::and_all(rows),
    ensures
        final(doms)@.len() == cn.n(),
        all_live(final(doms)@),
        final(in_queue)@.len() == cn.m(),
        listed_flags(final(queue)@, final(in_queue)@, head),
        calm(*cn, final(doms)@, final(in_queue)@, -1),
        ct::narrower(final(doms)@, old(doms)@),
        ct::keeps_closed(*cn, old(doms)@, final(doms)@),
        ct::both_count(final(doms)@, cn.n()) < ct::both_count(old(doms)@, cn.n()) || (final(doms)@ == old(doms)@ && final(queue)@ == old(queue)@),
{
    let ghost d0 = doms@;
    let axes = &cn.tensors[t].var_axes;
    assert(cn.tensor_wf(t as int));
    let mut j: usize = 0;
    while j < axes.len()
        invariant
            cn.wf(),
            t < cn.m(),
            cn.tensor_wf(t as int),
            axes@ == cn.axes(t as int),
            j <= axes@.len(),
            d0 == old(doms)@,
            d0.len() == cn.n(),
            doms@.len() == cn.n(),
            all_live(doms@),
            in_queue@.len() == cn.m(),
            listed_flags(queue@, in_queue@, head),
            calm(*cn, doms@, in_queue@, t as int),
            rows.len() > 0,
            forall|c: u32| #[trigger] rows.contains(c) <==> (cn.rows(t as int).contains(c) && ct::admits(d0, cn.axes(t as int), c as u64)),
            valid_or == network::or_all(rows),
            valid_and == network::and_all(rows),
            ct::narrower(doms@, d0),
            ct::keeps_closed(*cn, d0, doms@),
            forall|k: int| j <= k < axes@.len() ==> doms@[(#[trigger] axes@[k]) as int] == d0[axes@[k] as int],
            forall|c: u32| #[trigger] rows.contains(c) ==> ct::admits(doms@, cn.axes(t as int), c as u64),
            forall|k: int, b: bool| 0 <= k < j && doms@[axes@[k] as int].allows(b) ==> #[trigger] seen_in(rows, k, b),
            ct::both_count(doms@, cn.n()) < ct::both_count(d0, cn.n()) || (doms@ == d0 && queue@ == old(queue)@ && in_queue@ == old(in_queue)@),
        decreases axes.len() - j,
    {
        let v: usize = axes[j];
        let old_dom = doms[v];
        proof {
            lemma_or_bit(rows, j as int);
            lemma_and_bit(rows, j as int);
            let c = rows[0];
            assert(rows.contains(c));
            assert(doms@[axes@[j as int] as int].allows(bits::bit(c as u64, j as int)));
            assert(seen_in(rows, j as int, bits::bit(c as u64, j as int)));
            assert(seen_in(rows, j as int, true) == bits::bit(valid_or as u64, j as int)) by {
                if seen_in(rows, j as int, true) {
                    let k = choose|k: int| 0 <= k < rows.len() && bits::bit((#[trigger] rows[k]) as u64, j as int) == true;
                    assert(bits::bit(rows[k] as u64, j as int));
                }
            }
            assert(seen_in(rows, j as int, false) == !bits::bit(valid_and as u64, j as int)) by {
                if !bits::bit(valid_and as u64, j as int) {
                    let k = choose|k: int| 0 <= k < rows.len() && !bits::bit((#[trigger] rows[k]) as u64, j as int);
                    assert(bits::bit(rows[k] as u64, j as int) == false);
                }
            }
        }
        if old_dom == DomainMask::BOTH {
            let can_be_1 = bits::get_bit(valid_or as u64, j);
            let must_be_1 = bits::get_bit(valid_and as u64, j);
            let new_dom = if must_be_1 {
                DomainMask::D1
            } else if can_be_1 {
                DomainMask::BOTH
            } else {
                DomainMask::D0
            };
            if new_dom != old_dom {
                let ghost d1 = doms@;
                let ghost f1 = in_queue@;
                doms.set(v, new_dom);
                proof {
                    assert(cn.incidence_wf(v as int));
                    assert forall|i: int| 0 <= i < cn.v2t@[v as int]@.len() implies (#[trigger] cn.v2t@[v as int]@[i]) < in_queue@.len() by {}
                }
                enqueue_neighbors(queue, in_queue, &cn.v2t[v], Ghost(head));
                proof {
                    lemma_rescan_step(*cn, d0, d1, doms@, f1, in_queue@, rows, t as int, j as int, v as int, must_be_1);
                    ct::lemma_narrower_trans(doms@, d1, d0);
                    ct::lemma_both_less(d1, doms@, v as int, cn.n());
                    assert forall|k: int| j + 1 <= k < axes@.len() implies doms@[(#[trigger] axes@[k]) as int] == d0[axes@[k] as int] by {
                        assert(axes@[j as int] != axes@[k]);
                    }
                    assert forall|k: int, b: bool| 0 <= k < j + 1 && doms@[axes@[k] as int].allows(b) implies #[trigger] seen_in(rows, k, b) by {
                        if k < j {
                            assert(axes@[k] != axes@[j as int]);
                        }
                    }
                }
            } else {
                assert forall|k: int, b: bool| 0 <= k < j + 1 && doms@[axes@[k] as int].allows(b) implies #[trigger] seen_in(rows, k, b) by {
                    if k == j {
                        if b {
                        } else {
                        }
                    }
                }
            }
        }
        j += 1;
    }
    proof {
        assert(ct::consistent_at(*cn, doms@, t as int)) by {
            let c = rows[0];
            assert(rows.contains(c));
            let r = cn.rows(t as int).index_of(c);
            assert(ct::admits(doms@, cn.axes(t as int), cn.rows(t as int)[r] as u64));
            assert forall|k: int, b: bool| 0 <= k < cn.axes(t as int).len() && doms@[cn.axes(t as int)[k] as int].allows(b) implies #[trigger] ct::supported(*cn, doms@, t as int, k, b) by {
                assert(seen_in(rows, k, b));
                let q = choose|q: int| 0 <= q < rows.len() && bits::bit((#[trigger] rows[q]) as u64, k) == b;
                assert(rows.contains(rows[q]));
                let x = cn.rows(t as int).index_of(rows[q]);
                assert(ct::admits(doms@, cn.axes(t as int), cn.rows(t as int)[x] as u64));
            }
        }
    }
}

/// Some of the configurations has the value `b` at bit `j`.
pub open spec fn seen_in(rows: Seq<u32>, j: int, b: bool) -> bool {
    exists|k: int| 0 <= k < rows.len() && bits::bit((#[trigger] rows[k]) as u64, j) == b
}

proof fn lemma_rescan_step(cn: ConstraintNetwork, d0: Seq<DomainMask>, d1: Seq<DomainMask>, d2: Seq<DomainMask>, f1: Seq<bool>, f2: Seq<bool>, rows: Seq<u32>, t: int, j: int, v: int, kept: bool)
    requires
        cn.wf(),
        0 <= t < cn.m(),
        cn.tensor_wf(t),
        0 <= j < cn.axes(t).len(),
        v == cn.axes(t)[j],
        d0.len() == cn.n() == d1.len() == d2.len(),
        f1.len() == cn.m() == f2.len(),
        calm(cn, d1, f1, t),
        ct::narrower(d1, d0),
        ct::keeps_closed(cn, d0, d1),
        all_live(d1),
        d1[v] == DomainMask::BOTH,
        d2 == d1.update(v, DomainMask::only(kept)),
        forall|c: u32| #[trigger] rows.contains(c) <==> (cn.rows(t).contains(c) && ct::admits(d0, cn.axes(t), c as u64)),
        forall|c: u32| #[trigger] rows.contains(c) ==> ct::admits(d1, cn.axes(t), c as u64),
        !seen_in(rows, j, !kept),
        forall|u: int| 0 <= u < f2.len() ==> #[trigger] f2[u] == (f1[u] || contract::lists(cn.v2t@[v]@, u)),
    ensures
        all_live(d2),
        calm(cn, d2, f2, t),
        ct::narrower(d2, d1),
        ct::keeps_closed(cn, d0, d2),
        forall|c: u32| #[trigger] rows.contains(c) ==> ct::admits(d2, cn.axes(t), c as u64),
{
    assert(cn.vars.len() == cn.n());
    assert(cn.tensors.len() == cn.m());
    assert forall|u: int| 0 <= u < cn.m() && u != t && !#[trigger] f2[u] implies ct::consistent_at(cn, d2, u) by {
        assert(!f1[u]);
        assert(ct::consistent_at(cn, d1, u));
        assert(!cn.axes(u).contains(v as usize)) by {
            if cn.axes(u).contains(v as usize) {
                assert(cn.incidence_wf(v));
                assert(cn.v2t@[v]@.contains(u as usize));
                let k = cn.v2t@[v]@.index_of(u as usize);
                assert(cn.v2t@[v]@[k] as int == u);
            }
        }
        assert(cn.tensor_wf(u));
        assert forall|i: int| 0 <= i < cn.axes(u).len() implies d1[(#[trigger] cn.axes(u)[i]) as int] == d2[cn.axes(u)[i] as int] by {
            assert(cn.axes(u).contains(cn.axes(u)[i]));
        }
        ct::lemma_consistent_same(cn, d1, d2, u);
    }
    assert forall|c: u32| #[trigger] rows.contains(c) implies ct::admits(d2, cn.axes(t), c as u64) by {
        let q = rows.index_of(c);
        assert(bits::bit(rows[q] as u64, j) == kept) by {
            if bits::bit(rows[q] as u64, j) != kept {
                assert(bits::bit(rows[q] as u64, j) == !kept);
            }
        }
        assert forall|i: int| 0 <= i < cn.axes(t).len() implies d2[(#[trigger] cn.axes(t)[i]) as int].allows(bits::bit(c as u64, i)) by {
            assert(ct::admits(d1, cn.axes(t), c as u64));
            assert(d1[cn.axes(t)[i] as int].allows(bits::bit(c as u64, i)));
            if i < j {
                assert(cn.axes(t)[i] != cn.axes(t)[j]);
            } else if j < i {
                assert(cn.axes(t)[j] != cn.axes(t)[i]);
            }
        }
    }
    assert forall|e: Seq<DomainMask>| #[trigger] ct::closed_under(cn, e) && ct::narrower(e, d0) implies ct::narrower(e, d2) by {
        assert(ct::narrower(e, d1));
        assert forall|u: int, b: bool| 0 <= u < d2.len() && (#[trigger] e[u].allows(b)) implies d2[u].allows(b) by {
            assert(d1[u].allows(b));
            if u == v && b != kept {
                assert(ct::consistent_at(cn, e, t));
                assert(e[cn.axes(t)[j] as int].allows(b));
                assert(ct::supported(cn, e, t, j, b));
                let r = choose|r: int| 0 <= r < cn.rows(t).len() && ct::admits(e, cn.axes(t), #[trigger] cn.rows(t)[r] as u64) && bits::bit(cn.rows(t)[r] as u64, j) == b;
                ct::lemma_admits_wider(e, d0, cn.axes(t), cn.rows(t)[r] as u64);
                let c = cn.rows(t)[r];
                assert(cn.rows(t).contains(c));
                assert(rows.contains(c));
                let k = rows.index_of(c);
                assert(bits::bit(rows[k] as u64, j) == b);
            }
        }
    }
}

/// Propagation by rescanning the rows of each queued constraint.
pub fn propagate_core_rescan(cn: &ConstraintNetwork, doms: &mut Vec<DomainMask>, buffer: &mut SolverBuffer) -> (r: bool)
    requires
        cn.wf(),
        ct::markable(*cn),
        old(doms)@.len() == cn.n(),
        all_live(old(doms)@),
        old(buffer).in_queue@.len() == cn.m(),
        listed_flags(old(buffer).queue@, old(buffer).in_queue@, 0),
        calm(*cn, old(doms)@, old(buffer).in_queue@, -1),
    ensures
        propagated(*cn, old(doms)@, final(doms)@, r),
        final(buffer).queue@.len() == 0,
        final(buffer).in_queue@.len() == cn.m(),
        forall|t: int| 0 <= t < cn.m() ==> !#[trigger] final(buffer).in_queue@[t],
        final(buffer).dirty == old(buffer).dirty,
        final(buffer).occurrence_scores == old(buffer).occurrence_scores,
{
    let ghost d0 = doms@;
    let mut head: usize = 0;
    while head < buffer.queue.len()
        invariant
            cn.wf(),
            ct::markable(*cn),
            d0 == old(doms)@,
            doms@.len() == cn.n(),
            d0.len() == cn.n(),
            all_live(doms@),
            buffer.in_queue@.len() == cn.m(),
            listed_flags(buffer.queue@, buffer.in_queue@, head as int),
            calm(*cn, doms@, buffer.in_queue@, -1),
            ct::narrower(doms@, d0),
            ct::keeps_closed(*cn, d0, doms@),
            buffer.dirty == old(buffer).dirty,
            buffer.occurrence_scores == old(buffer).occurrence_scores,
        decreases ct::both_count(doms@, cn.n()), buffer.queue.len() - head,
    {
        let t: usize = buffer.queue[head];
        let ghost f0 = buffer.in_queue@;
        let ghost q0 = buffer.queue@;
        let ghost d1 = doms@;
        head += 1;
        buffer.in_queue.set(t, false);
        proof {
            assert forall|i: int| head <= i < q0.len() implies (#[trigger] q0[i]) < cn.m() && buffer.in_queue@[q0[i] as int] by {
                assert(q0[head - 1] != q0[i]);
            }
            assert forall|u: int| 0 <= u < cn.m() && #[trigger] buffer.in_queue@[u] implies ct::queued(q0, head as int, u) by {
                assert(f0[u]);
                let k = choose|k: int| head - 1 <= k < q0.len() && #[trigger] q0[k] == u;
                assert(k != head - 1);
                assert(q0[k] == u);
            }
            assert(cn.tensor_wf(t as int));
        }
        let tensor = &cn.tensors[t];
        let (m0, m1) = compute_query_masks(doms.as_slice(), tensor.var_axes.as_slice());
        let (valid_or, valid_and, found) = scan_supports(cn.support(tensor).as_slice(), m0, m1);
        let ghost rows = compatible(cn.rows(t as int), m0, m1);
        proof {
            assert forall|c: u32| #[trigger] rows.contains(c) <==> (cn.rows(t as int).contains(c) && ct::admits(doms@, cn.axes(t as int), c as u64)) by {
                lemma_compatible(*cn, doms@, t as int, m0, m1, c);
            }
        }
        if !found {
            proof {
                assert(ct::refuted(*cn, d0)) by {
                    assert forall|e: Seq<DomainMask>| #[trigger] ct::closed_under(*cn, e) implies !ct::narrower(e, d0) by {
                        if ct::narrower(e, d0) {
                            assert(ct::narrower(e, doms@));
                            assert(ct::consistent_at(*cn, e, t as int));
                            let q = choose|q: int| 0 <= q < cn.rows(t as int).len() && ct::admits(e, cn.axes(t as int), #[trigger] cn.rows(t as int)[q] as u64);
                            ct::lemma_admits_wider(e, doms@, cn.axes(t as int), cn.rows(t as int)[q] as u64);
                            assert(cn.rows(t as int).contains(cn.rows(t as int)[q]));
                            assert(rows.contains(cn.rows(t as int)[q]));
                        }
                    }
                }
                if cn.n() == 0 {
                    assert(cn.axes(t as int).len() == 0) by {
                        if cn.axes(t as int).len() > 0 {
                            assert(cn.axes(t as int)[0] < cn.n());
                        }
                    }
                    assert(cn.rows(t as int).len() > 0);
                    assert(cn.rows(t as int).contains(cn.rows(t as int)[0]));
                    assert(ct::admits(doms@, cn.axes(t as int), cn.rows(t as int)[0] as u64));
                    assert(rows.contains(cn.rows(t as int)[0]));
                }
            }
            doms.set(0, DomainMask::NONE);
            proof {
                assert(ct::narrower(doms@, d1));
                ct::lemma_narrower_trans(doms@, d1, d0);
            }
            buffer.reset_worklist();
            return false;
        }
        apply_updates(doms, cn, t, valid_or, valid_and, &mut buffer.queue, &mut buffer.in_queue, Ghost(head as int), Ghost(rows));
        proof {
            ct::lemma_narrower_trans(doms@, d1, d0);
            assert forall|e: Seq<DomainMask>| #[trigger] ct::closed_under(*cn, e) && ct::narrower(e, d0) implies ct::narrower(e, doms@) by {
                assert(ct::narrower(e, d1));
            }
        }
    }
    proof {
        assert forall|t: int| 0 <= t < cn.m() implies !#[trigger] buffer.in_queue@[t] by {
            if buffer.in_queue@[t] {
                assert(ct::queued(buffer.queue@, head as int, t));
            }
        }
        assert forall|t: int| 0 <= t < cn.m() implies #[trigger] ct::consistent_at(*cn, doms@, t) by {
            assert(!buffer.in_queue@[t]);
        }
    }
    buffer.queue.clear();
    true
}

/// With no domain empty, the compatible configurations are those that the domains admit.
proof fn lemma_compatible(cn: ConstraintNetwork, d: Seq<DomainMask>, t: int, m0: u32, m1: u32, c: u32)
    requires
        cn.wf(),
        0 <= t < cn.m(),
        d.len() == cn.n(),
        all_live(d),
        marks_fixed(d, cn.axes(t), m0, m1),
    ensures
        compatible(cn.rows(t), m0, m1).contains(c) <==> (cn.rows(t).contains(c) && ct::admits(d, cn.axes(t), c as u64)),
{
    assert(cn.tensor_wf(t));
    let p = |c: u32| c & (m0 | m1) == m1;
    let s = cn.rows(t);
    broadcast use vstd::seq_lib::group_filter_ensures;

    lemma_query(d, cn.axes(t), m0, m1, c as u64);
    assert((c & (m0 | m1)) as u64 == (c as u64) & (m0 as u64 | m1 as u64));
    assert(p(c) <==> respects(d, cn.axes(t), c as u64));
    assert(respects(d, cn.axes(t), c as u64) <==> ct::admits(d, cn.axes(t), c as u64)) by {
        if respects(d, cn.axes(t), c as u64) {
            assert forall|i: int| 0 <= i < cn.axes(t).len() implies d[(#[trigger] cn.axes(t)[i]) as int].allows(bits::bit(c as u64, i)) by {
                assert(cn.axes(t)[i] < cn.n());
                assert(d[cn.axes(t)[i] as int].live());
            }
        }
        if ct::admits(d, cn.axes(t), c as u64) {
            assert forall|i: int| 0 <= i < cn.axes(t).len() && d[(#[trigger] cn.axes(t)[i]) as int].fixed() implies bits::bit(c as u64, i) == (d[cn.axes(t)[i] as int] == DomainMask::D1) by {
                assert(d[cn.axes(t)[i] as int].allows(bits::bit(c as u64, i)));
            }
        }
    }
    if s.contains(c) && p(c) {
        let i = s.index_of(c);
        assert(s.filter(p).contains(s[i]));
    }
    if s.filter(p).contains(c) {
        let k = s.filter(p).index_of(c);
        assert(p(s.filter(p)[k]));
        lemma_filter_subset(s, p, c);
    }
}

pub proof fn lemma_filter_subset<T>(s: Seq<T>, p: spec_fn(T) -> bool, c: T)
    requires
        s.filter(p).contains(c),
    ensures
        s.contains(c),
    decreases s.len(),
{
    reveal(Seq::filter);
    if s.len() > 0 {
        let f = s.drop_last();
        let k = s.filter(p).index_of(c);
        if k < f.filter(p).len() {
            assert(f.filter(p)[k] == c);
            lemma_filter_subset(f, p, c);
            let i = f.index_of(c);
            assert(s[i] == c);
        } else {
            assert(s[s.len() - 1] == c);
        }
    }
}

/// Any two propagations of the same domains come to the same end, whatever the order of work.
pub proof fn law_propagation_is_unique(cn: ConstraintNetwork, d0: Seq<DomainMask>, d: Seq<DomainMask>, ok: bool, e: Seq<DomainMask>, ok2: bool)
    requires
        d0.len() == cn.n(),
        propagated(cn, d0, d, ok),
        propagated(cn, d0, e, ok2),
    ensures
        ok == ok2,
        ok ==> d == e,
{
    if ok && ok2 {
        assert(ct::narrower(d, e));
        assert(ct::narrower(e, d));
        assert forall|v: int| 0 <= v < cn.n() implies d[v] == e[v] by {
            assert(d[v].allows(true) == e[v].allows(true));
            assert(d[v].allows(false) == e[v].allows(false));
            assert(d[v].live() && e[v].live());
        }
        assert(d =~= e);
    }
}

/// A configuration is feasible exactly if setting all its variables propagates without
/// contradiction.
pub proof fn law_feasible_rows_are_those_that_stay_open(cn: ConstraintNetwork, d: Seq<DomainMask>, vars: Seq<usize>, mask: u64, config: u64, e: Seq<DomainMask>, ok: bool)
    requires
        d.len() == cn.n(),
        vars.len() <= 64,
        network::distinct(vars),
        forall|i: int| 0 <= i < vars.len() ==> (#[trigger] vars[i]) < cn.n(),
        forall|i: int| 0 <= i < vars.len() ==> #[trigger] bits::bit(mask, i),
        propagated(cn, ct::assigned(d, vars, mask, config, vars.len() as int), e, ok),
    ensures
        feasible(cn, d, vars, config) == ok,
{
    let n = vars.len() as int;
    let a = ct::assigned(d, vars, mask, config, n);
    lemma_assigned_bounds(d, vars, mask, config, n);
    if ok {
        assert(pinned_to(e, vars, config)) by {
            assert forall|i: int| 0 <= i < n implies e[(#[trigger] vars[i]) as int] == DomainMask::only(bits::bit(config, i)) by {
                let v = vars[i] as int;
                let b = bits::bit(config, i);
                assert(bits::bit(mask, i));
                assert(a[v] == ct::restricted(d[v], b));
                assert(e[v].live());
                assert(e[v].allows(b) || e[v].allows(!b));
                if e[v].allows(!b) {
                    assert(a[v].allows(!b));
                }
                assert(!e[v].allows(!b));
            }
        }
        ct::lemma_narrower_trans(e, a, d);
        assert(ct::closed_under(cn, e));
    }
    if feasible(cn, d, vars, config) {
        let f = choose|f: Seq<DomainMask>| #[trigger] ct::closed_under(cn, f) && ct::narrower(f, d) && pinned_to(f, vars, config);
        assert(ct::narrower(f, a)) by {
            assert forall|v: int, x: bool| 0 <= v < a.len() && (#[trigger] f[v].allows(x)) implies a[v].allows(x) by {
                assert(d[v].allows(x));
                if exists|i: int| 0 <= i < n && (#[trigger] vars[i]) as int == v {
                    let i = choose|i: int| 0 <= i < n && (#[trigger] vars[i]) as int == v;
                    assert(bits::bit(mask, i));
                    assert(f[vars[i] as int] == DomainMask::only(bits::bit(config, i)));
                    assert(a[v] == ct::restricted(d[v], bits::bit(config, i)));
                } else {
                    assert(a[v] == d[v]);
                }
            }
        }
        assert(ok);
    }
}

/// `feasible_configs` keeps exactly the configurations that `probe` finds open: `r` is what it returns
/// for `configs`, and `e` are the domains that probing `config` reads.
pub proof fn law_feasible_configs_are_those_that_probing_leaves_open(cn: ConstraintNetwork, d: Seq<DomainMask>, vars: Seq<usize>, mask: u64, configs: Seq<u64>, p: Seq<u64>, r: Seq<u64>, config: u64, e: Seq<DomainMask>, ok: bool)
    requires
        d.len() == cn.n(),
        cn.n() > 0,
        vars.len() <= 64,
        network::distinct(vars),
        forall|i: int| 0 <= i < vars.len() ==> (#[trigger] vars[i]) < cn.n(),
        forall|i: int| 0 <= i < vars.len() ==> #[trigger] bits::bit(mask, i),
        p.to_multiset() == configs.to_multiset(),
        r == p.filter(feasible_in(cn, d, vars)),
        propagated(cn, ct::assigned(d, vars, mask, config, vars.len() as int), e, ok),
    ensures
        r.contains(config) <==> configs.contains(config) && e[0] != DomainMask::NONE,
{
    law_feasible_rows_are_those_that_stay_open(cn, d, vars, mask, config, e, ok);
    crate::order::lemma_permutation(p, configs);
    let f = feasible_in(cn, d, vars);
    if r.contains(config) {
        p.lemma_filter_contains_rev(f, config);
        let k = r.index_of(config);
        p.lemma_filter_pred(f, k);
    }
    if configs.contains(config) && ok {
        assert(p.contains(config));
        let k = p.index_of(config);
        assert(f(p[k]));
        p.lemma_filter_contains(f, k);
    }
    if ok {
        assert(e[0].live());
    }
}

/// Where each variable of a clause is restricted, and where not.
proof fn lemma_assigned_bounds(d: Seq<DomainMask>, vars: Seq<usize>, mask: u64, val: u64, upto: int)
    requires
        network::distinct(vars),
        0 <= upto <= vars.len(),
        forall|i: int| 0 <= i < vars.len() ==> (#[trigger] vars[i]) < d.len(),
    ensures
        ct::assigned(d, vars, mask, val, upto).len() == d.len(),
        ct::narrower(ct::assigned(d, vars, mask, val, upto), d),
        forall|i: int| 0 <= i < upto && #[trigger] bits::bit(mask, i) ==> ct::assigned(d, vars, mask, val, upto)[vars[i] as int] == ct::restricted(d[vars[i] as int], bits::bit(val, i)),
        forall|v: int| 0 <= v < d.len() && (forall|i: int| 0 <= i < upto ==> (#[trigger] vars[i]) as int != v) ==> #[trigger] ct::assigned(d, vars, mask, val, upto)[v] == d[v],
    decreases upto,
{
    if upto > 0 {
        lemma_assigned_bounds(d, vars, mask, val, upto - 1);
        let p = ct::assigned(d, vars, mask, val, upto - 1);
        let q = ct::assigned(d, vars, mask, val, upto);
        let w = vars[upto - 1] as int;
        assert(vars[upto - 1] < d.len());
        assert(p[w] == d[w]) by {
            assert forall|i: int| 0 <= i < upto - 1 implies (#[trigger] vars[i]) as int != w by {
                assert(vars[i] != vars[upto - 1]);
            }
        }
        assert forall|v: int, b: bool| 0 <= v < d.len() && (#[trigger] q[v].allows(b)) implies d[v].allows(b) by {
            if v != w {
                assert(q[v] == p[v]);
                assert(p[v].allows(b));
            }
        }
        assert forall|i: int| 0 <= i < upto && #[trigger] bits::bit(mask, i) implies q[vars[i] as int] == ct::restricted(d[vars[i] as int], bits::bit(val, i)) by {
            if i < upto - 1 {
                assert(vars[i] != vars[upto - 1]);
                assert(vars[i] < d.len());
            }
        }
        assert forall|v: int| 0 <= v < d.len() && (forall|i: int| 0 <= i < upto ==> (#[trigger] vars[i]) as int != v) implies #[trigger] q[v] == d[v] by {
            assert(vars[upto - 1] as int != v);
        }
    }
}

} // verus!
