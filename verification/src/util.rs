//! Small queries on domains.
use vstd::prelude::*;

use crate::bits;
use crate::contract;
use crate::ct;
use crate::ct::TableMasks;
use crate::domain::{Asg, DomainMask};
use crate::network;
use crate::network::ConstraintNetwork;
use crate::propagate;
use crate::seqs;
use crate::sums;
use crate::weighted;

verus! {

/// Bit `i` of the mask says that `vars[i]` is fixed; bit `i` of the value is its value.
pub fn mask_value_u64(doms: &[DomainMask], vars: &[usize]) -> (r: (u64, u64))
    requires
        vars@.len() <= 64,
        forall|i: int| 0 <= i < vars@.len() ==> (#[trigger] vars@[i]) < doms@.len(),
    ensures
        forall|i: int| 0 <= i < 64 ==> #[trigger] bits::bit(r.0, i) == (i < vars@.len() && doms@[vars@[i] as int].fixed()),
        forall|i: int| 0 <= i < 64 ==> #[trigger] bits::bit(r.1, i) == (i < vars@.len() && doms@[vars@[i] as int] == DomainMask::D1),
{
    let mut mask: u64 = 0;
    let mut value: u64 = 0;
    let mut i: usize = 0;
    proof {
        broadcast use bits::group_bits;

    }
    while i < vars.len()
        invariant
            i <= vars@.len() <= 64,
            forall|i: int| 0 <= i < vars@.len() ==> (#[trigger] vars@[i]) < doms@.len(),
            forall|k: int| 0 <= k < 64 ==> #[trigger] bits::bit(mask, k) == (k < i && doms@[vars@[k] as int].fixed()),
            forall|k: int| 0 <= k < 64 ==> #[trigger] bits::bit(value, k) == (k < i && doms@[vars@[k] as int] == DomainMask::D1),
        decreases vars.len() - i,
    {
        let d = doms[vars[i]];
        if d == DomainMask::D1 {
            mask = bits::with_bit(mask, i);
            value = bits::with_bit(value, i);
        } else if d == DomainMask::D0 {
            mask = bits::with_bit(mask, i);
        }
        i += 1;
    }
    (mask, value)
}

/// Some variable of constraint `t` is not fixed.
pub open spec fn has_open(cn: ConstraintNetwork, doms: Seq<DomainMask>, t: int) -> bool {
    exists|j: int| 0 <= j < cn.axes(t).len() && !doms[(#[trigger] cn.axes(t)[j]) as int].fixed()
}

/// The constraints that still have a variable that is not fixed, ascending.
pub fn get_active_tensors(cn: &ConstraintNetwork, doms: &[DomainMask]) -> (r: Vec<usize>)
    requires
        cn.wf(),
        doms@.len() == cn.n(),
    ensures
        network::ascending_ids(r@),
        forall|t: usize| #[trigger] r@.contains(t) <==> (t < cn.m() && has_open(*cn, doms@, t as int)),
{
    let mut active: Vec<usize> = Vec::new();
    let mut t: usize = 0;
    while t < cn.tensors.len()
        invariant
            cn.wf(),
            doms@.len() == cn.n(),
            t <= cn.m(),
            network::ascending_ids(active@),
            forall|i: int| 0 <= i < active@.len() ==> (#[trigger] active@[i]) < t,
            forall|s: usize| #[trigger] active@.contains(s) <==> (s < t && has_open(*cn, doms@, s as int)),
        decreases cn.tensors.len() - t,
    {
        assert(cn.tensor_wf(t as int));
        let axes = &cn.tensors[t].var_axes;
        let mut open = false;
        let mut j: usize = 0;
        while j < axes.len() && !open
            invariant
                cn.tensor_wf(t as int),
                doms@.len() == cn.n(),
                axes@ == cn.axes(t as int),
                j <= axes@.len(),
                open ==> has_open(*cn, doms@, t as int),
                !open ==> forall|k: int| 0 <= k < j ==> doms@[(#[trigger] axes@[k]) as int].fixed(),
            decreases axes.len() - j,
        {
            if !doms[axes[j]].is_fixed() {
                assert(!doms@[cn.axes(t as int)[j as int] as int].fixed());
                open = true;
            }
            j += 1;
        }
        let ghost before = active@;
        if open {
            active.push(t);
            proof {
                seqs::lemma_push_contains(before, t);
            }
        }
        t += 1;
    }
    active
}

/// The number of domains below `n` that are not fixed.
pub open spec fn unfixed(doms: Seq<DomainMask>, n: int) -> nat
    decreases n,
{
    if n <= 0 {
        0
    } else {
        unfixed(doms, n - 1) + (if doms[n - 1].fixed() {
            0nat
        } else {
            1nat
        })
    }
}

/// The number of domains that are not fixed.
pub fn count_unfixed(doms: &[DomainMask]) -> (r: usize)
    ensures
        r == unfixed(doms@, doms@.len() as int),
{
    let mut c: usize = 0;
    let mut v: usize = 0;
    while v < doms.len()
        invariant
            v <= doms@.len(),
            c <= v,
            c == unfixed(doms@, v as int),
        decreases doms.len() - v,
    {
        if !doms[v].is_fixed() {
            c += 1;
        }
        v += 1;
    }
    c
}

/// `a` gives every fixed variable its value.
pub open spec fn keeps_fixed(doms: Seq<DomainMask>, a: Asg) -> bool {
    forall|v: int| 0 <= v < doms.len() && (#[trigger] doms[v]).fixed() ==> a(v) == (doms[v] == DomainMask::D1)
}

/// Whatever the open variables are, constraint `t` holds.
pub open spec fn entailed(cn: ConstraintNetwork, doms: Seq<DomainMask>, t: int) -> bool {
    forall|a: Asg| keeps_fixed(doms, a) ==> #[trigger] cn.holds(t, a)
}

/// The number of the first `n` rows that give every fixed variable its value.
pub open spec fn passing(cn: ConstraintNetwork, doms: Seq<DomainMask>, t: int, n: int) -> nat
    decreases n,
{
    if n <= 0 {
        0
    } else {
        passing(cn, doms, t, n - 1) + (if propagate::respects(doms, cn.axes(t), cn.rows(t)[n - 1] as u64) {
            1nat
        } else {
            0nat
        })
    }
}

/// The open variables among the first `n` axes of constraint `t`.
pub open spec fn open_vars(axes: Seq<usize>, doms: Seq<DomainMask>, n: int) -> Seq<int>
    decreases n,
{
    if n <= 0 {
        Seq::empty()
    } else if doms[axes[n - 1] as int].fixed() {
        open_vars(axes, doms, n - 1)
    } else {
        open_vars(axes, doms, n - 1).push(axes[n - 1] as int)
    }
}

pub proof fn lemma_open_vars(axes: Seq<usize>, doms: Seq<DomainMask>, n: int)
    requires
        network::distinct(axes),
        0 <= n <= axes.len(),
    ensures
        sums::unlike(open_vars(axes, doms, n)),
        open_vars(axes, doms, n).len() <= n,
        forall|v: int| #[trigger] open_vars(axes, doms, n).contains(v) <==> (contract::lists(axes.take(n), v) && !doms[v].fixed()),
    decreases n,
{
    if n > 0 {
        lemma_open_vars(axes, doms, n - 1);
        let rest = open_vars(axes, doms, n - 1);
        let s = open_vars(axes, doms, n);
        let x = axes[n - 1] as int;
        seqs::lemma_push_contains(rest, x);
        let a0 = axes.take(n - 1);
        let a1 = axes.take(n);
        assert forall|v: int| #[trigger] contract::lists(a1, v) <==> (contract::lists(a0, v) || v == x) by {
            if contract::lists(a1, v) {
                let k = choose|k: int| 0 <= k < a1.len() && (#[trigger] a1[k]) as int == v;
                if k < n - 1 {
                    assert(a0[k] as int == v);
                }
            }
            if contract::lists(a0, v) {
                let k = choose|k: int| 0 <= k < a0.len() && (#[trigger] a0[k]) as int == v;
                assert(a1[k] as int == v);
            }
            if v == x {
                assert(a1[n - 1] as int == v);
            }
        }
        assert forall|i: int, j: int| 0 <= i < j < s.len() implies s[i] != s[j] by {
            if j == rest.len() {
                assert(rest.contains(rest[i]));
                let k = choose|k: int| 0 <= k < a0.len() && (#[trigger] a0[k]) as int == rest[i];
                assert(axes[k] != axes[n - 1]);
            }
        }
        assert forall|v: int| #[trigger] s.contains(v) <==> (contract::lists(a1, v) && !doms[v].fixed()) by {
            assert(rest.contains(v) <==> (contract::lists(a0, v) && !doms[v].fixed()));
            assert(contract::lists(a1, v) <==> (contract::lists(a0, v) || v == x));
        }
    } else {
        assert forall|v: int| !#[trigger] contract::lists(axes.take(0), v) by {}
    }
}

/// Two to the `n`.
pub open spec fn pow2r(n: nat) -> real
    decreases n,
{
    if n == 0 {
        1real
    } else {
        2real * pow2r((n - 1) as nat)
    }
}

/// A sum of numbers up to one is at most the number of summands, and reaches it only where
/// every summand is one.
proof fn lemma_total_full(f: spec_fn(Asg) -> real, a: Asg, vars: Seq<int>)
    requires
        forall|b: Asg| #[trigger] f(b) <= 1real,
    ensures
        sums::total(f, a, vars) <= pow2r(vars.len()),
        sums::total(f, a, vars) == pow2r(vars.len()) ==> (forall|b: Asg| sums::same_outside(a, b, vars) ==> #[trigger] f(b) == 1real),
    decreases vars.len(),
{
    if vars.len() == 0 {
        assert forall|b: Asg| sums::same_outside(a, b, vars) && f(a) == 1real implies #[trigger] f(b) == 1real by {
            assert(a =~= b);
        }
    } else {
        let v = vars.last();
        let rest = vars.drop_last();
        let a0 = sums::set(a, v, false);
        let a1 = sums::set(a, v, true);
        lemma_total_full(f, a0, rest);
        lemma_total_full(f, a1, rest);
        let p = pow2r(rest.len());
        assert(pow2r(vars.len()) == p + p) by {
            assert(2real * p == p + p) by (nonlinear_arith);
        }
        if sums::total(f, a, vars) == pow2r(vars.len()) {
            assert forall|b: Asg| sums::same_outside(a, b, vars) implies #[trigger] f(b) == 1real by {
                let ab = sums::set(a, v, b(v));
                assert(sums::same_outside(ab, b, rest)) by {
                    assert forall|u: int| !rest.contains(u) implies ab(u) == b(u) by {
                        if u != v {
                            assert(!vars.contains(u)) by {
                                if vars.contains(u) {
                                    let k = vars.index_of(u);
                                    assert(rest[k] == u);
                                }
                            }
                            assert(a(u) == b(u));
                        }
                    }
                }
                if b(v) {
                    assert(ab == a1);
                } else {
                    assert(ab == a0);
                }
            }
        }
    }
}

/// A sum of ones.
pub proof fn lemma_total_ones(f: spec_fn(Asg) -> real, a: Asg, vars: Seq<int>)
    requires
        forall|b: Asg| sums::same_outside(a, b, vars) ==> #[trigger] f(b) == 1real,
    ensures
        sums::total(f, a, vars) == pow2r(vars.len()),
    decreases vars.len(),
{
    if vars.len() > 0 {
        let v = vars.last();
        let rest = vars.drop_last();
        assert(vars[vars.len() - 1] == v);
        assert(vars.contains(v));
        assert forall|x: bool, b: Asg| sums::same_outside(#[trigger] sums::set(a, v, x), b, rest) implies #[trigger] f(b) == 1real by {
            let ax = sums::set(a, v, x);
            assert(sums::same_outside(a, b, vars)) by {
                assert forall|u: int| !vars.contains(u) implies a(u) == b(u) by {
                    assert(!rest.contains(u)) by {
                        if rest.contains(u) {
                            let k = rest.index_of(u);
                            assert(vars[k] == u);
                        }
                    }
                    assert(u != v);
                    assert(ax(u) == b(u));
                }
            }
        }
        lemma_total_ones(f, sums::set(a, v, false), rest);
        lemma_total_ones(f, sums::set(a, v, true), rest);
        let p = pow2r(rest.len());
        assert(2real * p == p + p) by (nonlinear_arith);
    } else {
        assert(sums::same_outside(a, a, vars));
    }
}

/// The number of the first `n` rows that agree with an assignment.
spec fn matching(cn: ConstraintNetwork, t: int, n: int) -> spec_fn(Asg) -> real {
    |a: Asg| matching_at(cn, t, n, a)
}

spec fn matching_at(cn: ConstraintNetwork, t: int, n: int, a: Asg) -> real
    decreases n,
{
    if n <= 0 {
        0real
    } else {
        matching_at(cn, t, n - 1, a) + (if network::agrees(cn.axes(t), cn.rows(t)[n - 1] as u64, a) {
            1real
        } else {
            0real
        })
    }
}

/// At most one row agrees with an assignment, and one does exactly where the constraint holds.
proof fn lemma_matching(cn: ConstraintNetwork, t: int, n: int, a: Asg)
    requires
        cn.tensor_wf(t),
        0 <= n <= cn.rows(t).len(),
    ensures
        matching_at(cn, t, n, a) == (if exists|k: int| 0 <= k < n && network::agrees(cn.axes(t), #[trigger] cn.rows(t)[k] as u64, a) {
            1real
        } else {
            0real
        }),
    decreases n,
{
    if n > 0 {
        lemma_matching(cn, t, n - 1, a);
        let last = cn.rows(t)[n - 1] as u64;
        if network::agrees(cn.axes(t), last, a) {
            assert forall|k: int| 0 <= k < n - 1 implies !network::agrees(cn.axes(t), #[trigger] cn.rows(t)[k] as u64, a) by {
                if network::agrees(cn.axes(t), cn.rows(t)[k] as u64, a) {
                    contract::lemma_row_unique(cn.axes(t), cn.rows(t)[k] as u64, last, a);
                    assert(cn.rows(t)[k] < cn.rows(t)[n - 1]);
                }
            }
        }
        if exists|k: int| 0 <= k < n - 1 && network::agrees(cn.axes(t), #[trigger] cn.rows(t)[k] as u64, a) {
            let k = choose|k: int| 0 <= k < n - 1 && network::agrees(cn.axes(t), #[trigger] cn.rows(t)[k] as u64, a);
            assert(network::agrees(cn.axes(t), cn.rows(t)[k] as u64, a));
        }
    }
}

/// Summed over the open variables, the matching rows are those that keep the fixed values.
proof fn lemma_matching_total(cn: ConstraintNetwork, doms: Seq<DomainMask>, t: int, n: int, a: Asg)
    requires
        cn.tensor_wf(t),
        doms.len() == cn.n(),
        0 <= n <= cn.rows(t).len(),
        keeps_fixed(doms, a),
    ensures
        sums::total(matching(cn, t, n), a, open_vars(cn.axes(t), doms, cn.axes(t).len() as int)) == passing(cn, doms, t, n) as int as real,
    decreases n,
{
    let axes = cn.axes(t);
    let ov = open_vars(axes, doms, axes.len() as int);
    lemma_open_vars(axes, doms, axes.len() as int);
    assert(axes.take(axes.len() as int) =~= axes);
    if n == 0 {
        let f = matching(cn, t, 0);
        assert forall|b: Asg| #[trigger] f(b) == 0real by {}
        sums::lemma_total_zero(f, a, ov);
    } else {
        lemma_matching_total(cn, doms, t, n - 1, a);
        let row = cn.rows(t)[n - 1] as u64;
        let f = matching(cn, t, n - 1);
        let g = weighted::row_term(axes, row, 1real);
        let h = matching(cn, t, n);
        assert forall|b: Asg| #[trigger] h(b) == f(b) + g(b) by {}
        sums::lemma_total_add(f, g, h, a, ov);
        weighted::lemma_row_total(axes, row, 1real, a, ov);
        assert(weighted::agrees_but(axes, row, a, ov) == propagate::respects(doms, axes, row)) by {
            if weighted::agrees_but(axes, row, a, ov) {
                assert forall|i: int| 0 <= i < axes.len() && doms[(#[trigger] axes[i]) as int].fixed() implies bits::bit(row, i) == (doms[axes[i] as int] == DomainMask::D1) by {
                    assert(!ov.contains(axes[i] as int));
                    assert(axes[i] < cn.n());
                }
            }
            if propagate::respects(doms, axes, row) {
                assert forall|i: int| 0 <= i < axes.len() && !ov.contains((#[trigger] axes[i]) as int) implies bits::bit(row, i) == a(axes[i] as int) by {
                    assert(axes[i] < cn.n());
                    assert(contract::lists(axes, axes[i] as int));
                    assert(doms[axes[i] as int].fixed());
                }
            }
        }
    }
}

/// A constraint is entailed exactly when all combinations of its open variables occur among
/// the rows that keep the fixed values.
pub proof fn lemma_entailed(cn: ConstraintNetwork, doms: Seq<DomainMask>, t: int)
    requires
        cn.wf(),
        0 <= t < cn.m(),
        doms.len() == cn.n(),
    ensures
        entailed(cn, doms, t) <==> passing(cn, doms, t, cn.rows(t).len() as int) as int as real == pow2r(open_vars(cn.axes(t), doms, cn.axes(t).len() as int).len()),
{
    assert(cn.tensor_wf(t));
    let axes = cn.axes(t);
    let n = cn.rows(t).len() as int;
    let ov = open_vars(axes, doms, axes.len() as int);
    lemma_open_vars(axes, doms, axes.len() as int);
    assert(axes.take(axes.len() as int) =~= axes);
    let f = matching(cn, t, n);
    let base: Asg = |v: int| 0 <= v < doms.len() && doms[v] == DomainMask::D1;
    assert(keeps_fixed(doms, base));
    assert forall|b: Asg| #[trigger] f(b) == (if cn.holds(t, b) { 1real } else { 0real }) by {
        lemma_matching(cn, t, n, b);
        if cn.holds(t, b) {
            let k = choose|k: int| 0 <= k < cn.rows(t).len() && network::agrees(cn.axes(t), #[trigger] cn.rows(t)[k] as u64, b);
            assert(network::agrees(cn.axes(t), cn.rows(t)[k] as u64, b));
        }
    }
    lemma_matching_total(cn, doms, t, n, base);
    lemma_total_full(f, base, ov);
    if entailed(cn, doms, t) {
        assert forall|b: Asg| sums::same_outside(base, b, ov) implies #[trigger] f(b) == 1real by {
            assert(keeps_fixed(doms, b)) by {
                assert forall|v: int| 0 <= v < doms.len() && (#[trigger] doms[v]).fixed() implies b(v) == (doms[v] == DomainMask::D1) by {
                    assert(!ov.contains(v));
                    assert(base(v) == b(v));
                }
            }
            assert(cn.holds(t, b));
        }
        lemma_total_ones(f, base, ov);
    }
    if sums::total(f, base, ov) == pow2r(ov.len()) {
        assert forall|a: Asg| keeps_fixed(doms, a) implies #[trigger] cn.holds(t, a) by {
            // The assignment that differs from the base on the open variables of `t` only.
            let b: Asg = |v: int|
                if ov.contains(v) {
                    a(v)
                } else {
                    base(v)
                };
            assert(sums::same_outside(base, b, ov));
            assert(f(b) == 1real);
            assert(cn.holds(t, b));
            let k = choose|k: int| 0 <= k < cn.rows(t).len() && network::agrees(cn.axes(t), #[trigger] cn.rows(t)[k] as u64, b);
            assert(network::agrees(axes, cn.rows(t)[k] as u64, a)) by {
                assert forall|i: int| 0 <= i < axes.len() implies bits::bit(cn.rows(t)[k] as u64, i) == a(#[trigger] axes[i] as int) by {
                    let v = axes[i] as int;
                    assert(axes[i] < cn.n());
                    assert(contract::lists(axes, v));
                    if !ov.contains(v) {
                        assert(doms[v].fixed());
                    }
                }
            }
        }
    }
}

/// The rows of word `w` that keep the fixed values.
pub open spec fn passing_from(cn: ConstraintNetwork, doms: Seq<DomainMask>, t: int, lo: int, n: int) -> nat
    decreases n,
{
    if n <= 0 {
        0
    } else {
        passing_from(cn, doms, t, lo, n - 1) + (if lo + n - 1 < cn.rows(t).len() && propagate::respects(doms, cn.axes(t), cn.rows(t)[lo + n - 1] as u64) {
            1nat
        } else {
            0nat
        })
    }
}

/// The ones of a word that marks the rows that keep the fixed values.
proof fn lemma_word_count(cn: ConstraintNetwork, doms: Seq<DomainMask>, t: int, word: u64, w: int, n: int)
    requires
        0 <= w,
        0 <= n <= 64,
        forall|b: int| 0 <= b < 64 ==> #[trigger] bits::bit(word, b) == (w * 64 + b < cn.rows(t).len() && propagate::respects(doms, cn.axes(t), cn.rows(t)[w * 64 + b] as u64)),
    ensures
        bits::ones_upto(word, n) == passing_from(cn, doms, t, w * 64, n),
    decreases n,
{
    if n > 0 {
        lemma_word_count(cn, doms, t, word, w, n - 1);
        assert(bits::bit(word, n - 1) == (w * 64 + (n - 1) < cn.rows(t).len() && propagate::respects(doms, cn.axes(t), cn.rows(t)[w * 64 + (n - 1)] as u64)));
    }
}

proof fn lemma_passing_split(cn: ConstraintNetwork, doms: Seq<DomainMask>, t: int, lo: int, n: int)
    requires
        0 <= lo,
        0 <= n,
        lo <= cn.rows(t).len(),
    ensures
        passing(cn, doms, t, if lo + n <= cn.rows(t).len() { lo + n } else { cn.rows(t).len() as int }) == passing(cn, doms, t, lo) + passing_from(cn, doms, t, lo, n),
    decreases n,
{
    if n > 0 {
        lemma_passing_split(cn, doms, t, lo, n - 1);
    }
}

pub proof fn lemma_passing_bound(cn: ConstraintNetwork, doms: Seq<DomainMask>, t: int, n: int)
    requires
        0 <= n,
    ensures
        passing(cn, doms, t, n) <= n,
    decreases n,
{
    if n > 0 {
        lemma_passing_bound(cn, doms, t, n - 1);
    }
}

/// Two to a small power, as a number and as a word.
pub proof fn lemma_pow2r_word(n: nat)
    requires
        n <= 32,
    ensures
        pow2r(n) == (1u64 << (n as u64)) as int as real,
        1 <= (1u64 << (n as u64)) <= 0x1_0000_0000,
    decreases n,
{
    let k = n as u64;
    assert(1 <= (1u64 << k) && (1u64 << k) <= 0x1_0000_0000u64) by (bit_vector)
        requires
            k <= 32,
    ;
    if n > 0 {
        lemma_pow2r_word((n - 1) as nat);
        let j = (n - 1) as u64;
        assert((1u64 << k) == 2 * (1u64 << j)) by (bit_vector)
            requires
                0 < k <= 32,
                j == k - 1,
        ;
    } else {
        assert((1u64 << 0u64) == 1u64) by (bit_vector);
    }
}

/// The word of the rows that keep the fixed values, among those of word `w`.
fn kept_word(doms: &[DomainMask], axes: &Vec<usize>, m: &TableMasks, w: usize, Ghost(rows): Ghost<Seq<u32>>) -> (r: u64)
    requires
        axes@.len() <= 32,
        forall|j: int| 0 <= j < axes@.len() ==> (#[trigger] axes@[j]) < doms@.len(),
        m.ok(rows, axes@.len() as int),
        w < m.n_words,
        exists|j: int| 0 <= j < axes@.len() && doms@[(#[trigger] axes@[j]) as int].fixed(),
    ensures
        forall|b: int| 0 <= b < 64 ==> #[trigger] bits::bit(r, b) == (w * 64 + b < rows.len() && propagate::respects(doms@, axes@, rows[w * 64 + b] as u64)),
{
    let mut acc: u64 = u64::MAX;
    let mut i: usize = 0;
    let ghost mut seen = false;
    proof {
        broadcast use bits::group_bits;

    }
    while i < axes.len()
        invariant
            axes@.len() <= 32,
            forall|j: int| 0 <= j < axes@.len() ==> (#[trigger] axes@[j]) < doms@.len(),
            m.ok(rows, axes@.len() as int),
            w < m.n_words,
            i <= axes@.len(),
            seen <==> exists|j: int| 0 <= j < i && doms@[(#[trigger] axes@[j]) as int].fixed(),
            forall|b: int| 0 <= b < 64 && w * 64 + b < rows.len() ==> #[trigger] bits::bit(acc, b) == propagate::respects(doms@, axes@.take(i as int), rows[w * 64 + b] as u64),
            forall|b: int| 0 <= b < 64 && w * 64 + b >= rows.len() && seen ==> !#[trigger] bits::bit(acc, b),
        decreases axes.len() - i,
    {
        let d = doms[axes[i]];
        let ghost a0 = acc;
        let ghost s0 = seen;
        proof {
            ct::lemma_slot(m.n_words as int, axes@.len() as int, i as int, 0, w as int);
            ct::lemma_slot(m.n_words as int, axes@.len() as int, i as int, 1, w as int);
        }
        if d == DomainMask::D0 {
            acc = acc & m.support_slice(i, 0)[w];
        } else if d == DomainMask::D1 {
            acc = acc & m.support_slice(i, 1)[w];
        }
        proof {
            broadcast use bits::group_bits;

            seen = seen || d.fixed();
            if s0 {
                let j = choose|j: int| 0 <= j < i && doms@[(#[trigger] axes@[j]) as int].fixed();
                assert(doms@[axes@[j] as int].fixed());
            }
            if d.fixed() {
                assert(doms@[axes@[i as int] as int].fixed());
            }
            if exists|j: int| 0 <= j < i + 1 && doms@[(#[trigger] axes@[j]) as int].fixed() {
                let j = choose|j: int| 0 <= j < i + 1 && doms@[(#[trigger] axes@[j]) as int].fixed();
                if j < i {
                    assert(s0);
                }
            }
            assert forall|b: int| 0 <= b < 64 && w * 64 + b < rows.len() implies #[trigger] bits::bit(acc, b) == propagate::respects(doms@, axes@.take(i + 1), rows[w * 64 + b] as u64) by {
                let row = rows[w * 64 + b] as u64;
                assert(bits::bit(a0, b) == propagate::respects(doms@, axes@.take(i as int), row));
                assert(bits::bit(m.word(i as int, 0, w as int), b) == ct::row_has(rows, w * 64 + b, i as int, 0int == 1));
                assert(bits::bit(m.word(i as int, 1, w as int), b) == ct::row_has(rows, w * 64 + b, i as int, 1int == 1));
                lemma_respects_next(doms@, axes@, row, i as int);
            }
            assert forall|b: int| 0 <= b < 64 && w * 64 + b >= rows.len() && seen implies !#[trigger] bits::bit(acc, b) by {
                assert(bits::bit(m.word(i as int, 0, w as int), b) == ct::row_has(rows, w * 64 + b, i as int, 0int == 1));
                assert(bits::bit(m.word(i as int, 1, w as int), b) == ct::row_has(rows, w * 64 + b, i as int, 1int == 1));
            }
        }
        i += 1;
    }
    assert(axes@.take(i as int) =~= axes@);
    acc
}

proof fn lemma_respects_next(doms: Seq<DomainMask>, axes: Seq<usize>, row: u64, i: int)
    requires
        0 <= i < axes.len(),
    ensures
        propagate::respects(doms, axes.take(i + 1), row) == (propagate::respects(doms, axes.take(i), row) && (doms[axes[i] as int].fixed() ==> bits::bit(row, i) == (doms[axes[i] as int] == DomainMask::D1))),
{
    let a = axes.take(i);
    let b = axes.take(i + 1);
    if propagate::respects(doms, b, row) {
        assert forall|k: int| 0 <= k < a.len() && doms[(#[trigger] a[k]) as int].fixed() implies bits::bit(row, k) == (doms[a[k] as int] == DomainMask::D1) by {
            assert(b[k] == a[k]);
        }
        assert(b[i] == axes[i]);
    }
    if propagate::respects(doms, a, row) && (doms[axes[i] as int].fixed() ==> bits::bit(row, i) == (doms[axes[i] as int] == DomainMask::D1)) {
        assert forall|k: int| 0 <= k < b.len() && doms[(#[trigger] b[k]) as int].fixed() implies bits::bit(row, k) == (doms[b[k] as int] == DomainMask::D1) by {
            if k < i {
                assert(a[k] == b[k]);
            }
        }
    }
}

/// Whether constraint `tid` holds whatever its open variables are.
pub fn is_entailed(cn: &ConstraintNetwork, tid: usize, doms: &[DomainMask], masks: &[TableMasks]) -> (r: bool)
    requires
        cn.wf(),
        tid < cn.m(),
        doms@.len() == cn.n(),
        ct::masks_ok(*cn, masks@),
    ensures
        r == entailed(*cn, doms@, tid as int),
{
    let ghost t = tid as int;
    let ghost rows = cn.rows(t);
    assert(cn.tensor_wf(t));
    let tensor = &cn.tensors[tid];
    let axes = &tensor.var_axes;
    let m = &masks[tensor.data_idx];
    let mut open: usize = 0;
    let mut j: usize = 0;
    while j < axes.len()
        invariant
            cn.tensor_wf(t),
            axes@ == cn.axes(t),
            doms@.len() == cn.n(),
            j <= axes@.len() <= 32,
            open <= j,
            open == open_vars(axes@, doms@, j as int).len(),
            open == j ==> forall|k: int| 0 <= k < j ==> !doms@[(#[trigger] axes@[k]) as int].fixed(),
            open < j ==> exists|k: int| 0 <= k < j && doms@[(#[trigger] axes@[k]) as int].fixed(),
        decreases axes.len() - j,
    {
        if !doms[axes[j]].is_fixed() {
            open += 1;
        } else {
            assert(doms@[axes@[j as int] as int].fixed());
        }
        j += 1;
    }
    proof {
        lemma_entailed(*cn, doms@, t);
        lemma_pow2r_word(open as nat);
        if rows.len() > 0 {
            ct::lemma_row_count(rows, 0);
        }
    }
    let full: u64 = 1u64 << (open as u64);
    if open == axes.len() {
        proof {
            assert forall|k: int| 0 <= k <= rows.len() implies #[trigger] passing(*cn, doms@, t, k) == k by {
                lemma_all_pass(*cn, doms@, t, k);
            }
        }
        return m.n_rows as u64 == full;
    }
    let mut count: u64 = 0;
    let mut w: usize = 0;
    while w < m.n_words
        invariant
            cn.tensor_wf(t),
            axes@ == cn.axes(t),
            rows == cn.rows(t),
            doms@.len() == cn.n(),
            m.ok(rows, axes@.len() as int),
            rows.len() <= 0x1_0000_0000,
            w <= m.n_words,
            exists|k: int| 0 <= k < axes@.len() && doms@[(#[trigger] axes@[k]) as int].fixed(),
            count == passing(*cn, doms@, t, if w * 64 <= rows.len() { w * 64 } else { rows.len() as int }),
        decreases m.n_words - w,
    {
        let word: u64 = kept_word(doms, axes, m, w, Ghost(rows));
        proof {
            lemma_word_count(*cn, doms@, t, word, w as int, 64);
            assert(w * 64 <= rows.len());
            lemma_passing_split(*cn, doms@, t, w * 64, 64);
            lemma_passing_bound(*cn, doms@, t, if w * 64 + 64 <= rows.len() { w * 64 + 64 } else { rows.len() as int });
        }
        count = count + word.count_ones() as u64;
        w += 1;
    }
    count == full
}

proof fn lemma_all_pass(cn: ConstraintNetwork, doms: Seq<DomainMask>, t: int, n: int)
    requires
        0 <= n <= cn.rows(t).len(),
        forall|k: int| 0 <= k < cn.axes(t).len() ==> !doms[(#[trigger] cn.axes(t)[k]) as int].fixed(),
    ensures
        passing(cn, doms, t, n) == n,
    decreases n,
{
    if n > 0 {
        lemma_all_pass(cn, doms, t, n - 1);
    }
}

/// A constraint that is entailed stays so when more variables are fixed.
pub proof fn law_entailment_is_monotone(cn: ConstraintNetwork, d: Seq<DomainMask>, e: Seq<DomainMask>, t: int)
    requires
        entailed(cn, d, t),
        e.len() == d.len(),
        forall|v: int| 0 <= v < d.len() && (#[trigger] d[v]).fixed() ==> e[v] == d[v],
    ensures
        entailed(cn, e, t),
{
    assert forall|a: Asg| keeps_fixed(e, a) implies #[trigger] cn.holds(t, a) by {
        assert(keeps_fixed(d, a)) by {
            assert forall|v: int| 0 <= v < d.len() && (#[trigger] d[v]).fixed() implies a(v) == (d[v] == DomainMask::D1) by {
                assert(e[v] == d[v]);
            }
        }
    }
}

} // verus!
