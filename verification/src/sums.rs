//! Sums over assignments.
use vstd::prelude::*;

use crate::contract;
use crate::domain::Asg;

verus! {

/// `a` with variable `v` set to `b`.
pub open spec fn set(a: Asg, v: int, b: bool) -> Asg {
    |x: int|
        if x == v {
            b
        } else {
            a(x)
        }
}

/// The sum of `f` over all assignments that differ from `a` only on `vars`.
pub open spec fn total(f: spec_fn(Asg) -> real, a: Asg, vars: Seq<int>) -> real
    decreases vars.len(),
{
    if vars.len() == 0 {
        f(a)
    } else {
        total(f, set(a, vars.last(), false), vars.drop_last()) + total(
            f,
            set(a, vars.last(), true),
            vars.drop_last(),
        )
    }
}

/// No variable is listed twice.
pub open spec fn unlike(vars: Seq<int>) -> bool {
    forall|i: int, j: int| 0 <= i < j < vars.len() ==> vars[i] != vars[j]
}

/// Outside `vars`, `a` and `b` give every variable the same value.
pub open spec fn same_outside(a: Asg, b: Asg, vars: Seq<int>) -> bool {
    forall|v: int| #![trigger a(v)] #![trigger b(v)] !vars.contains(v) ==> a(v) == b(v)
}

/// `f` gives assignments that agree outside `vars` the same value.
pub open spec fn ignores(f: spec_fn(Asg) -> real, vars: Seq<int>) -> bool {
    forall|a: Asg, b: Asg| #![trigger f(a), f(b)] same_outside(a, b, vars) ==> f(a) == f(b)
}

pub proof fn lemma_set_commutes(a: Asg, u: int, x: bool, v: int, y: bool)
    requires
        u != v,
    ensures
        set(set(a, u, x), v, y) == set(set(a, v, y), u, x),
{
    assert(set(set(a, u, x), v, y) =~= set(set(a, v, y), u, x));
}

/// Two summands that agree wherever the sum looks have the same sum.
pub proof fn lemma_total_same(
    f: spec_fn(Asg) -> real,
    g: spec_fn(Asg) -> real,
    a: Asg,
    vars: Seq<int>,
)
    requires
        forall|b: Asg| same_outside(a, b, vars) ==> #[trigger] f(b) == g(b),
    ensures
        total(f, a, vars) == total(g, a, vars),
    decreases vars.len(),
{
    if vars.len() == 0 {
        assert(same_outside(a, a, vars));
        assert(f(a) == g(a));
    } else {
        let v = vars.last();
        let rest = vars.drop_last();
        assert forall|c: bool, b: Asg|
            #![trigger same_outside(set(a, v, c), b, rest)]
            same_outside(set(a, v, c), b, rest) implies same_outside(a, b, vars) by {
            assert forall|x: int| !vars.contains(x) implies #[trigger] a(x) == b(x) by {
                if rest.contains(x) {
                    let i = rest.index_of(x);
                    assert(vars[i] == x);
                }
                assert(vars[vars.len() - 1] == v);
                assert(set(a, v, c)(x) == b(x));
            }
        }
        assert forall|b: Asg| same_outside(set(a, v, false), b, rest) implies #[trigger] f(b) == g(b) by {
            assert(same_outside(a, b, vars));
        }
        lemma_total_same(f, g, set(a, v, false), rest);
        assert forall|b: Asg| same_outside(set(a, v, true), b, rest) implies #[trigger] f(b) == g(b) by {
            assert(same_outside(a, b, vars));
        }
        lemma_total_same(f, g, set(a, v, true), rest);
    }
}

/// Sums are additive in the summand.
pub proof fn lemma_total_add(
    f: spec_fn(Asg) -> real,
    g: spec_fn(Asg) -> real,
    h: spec_fn(Asg) -> real,
    a: Asg,
    vars: Seq<int>,
)
    requires
        forall|b: Asg| same_outside(a, b, vars) ==> #[trigger] h(b) == f(b) + g(b),
    ensures
        total(h, a, vars) == total(f, a, vars) + total(g, a, vars),
    decreases vars.len(),
{
    let s = |b: Asg| f(b) + g(b);
    lemma_total_same(h, s, a, vars);
    lemma_total_plus(f, g, a, vars);
}

proof fn lemma_total_plus(
    f: spec_fn(Asg) -> real,
    g: spec_fn(Asg) -> real,
    a: Asg,
    vars: Seq<int>,
)
    ensures
        total(|b: Asg| f(b) + g(b), a, vars) == total(f, a, vars) + total(g, a, vars),
    decreases vars.len(),
{
    if vars.len() > 0 {
        lemma_total_plus(f, g, set(a, vars.last(), false), vars.drop_last());
        lemma_total_plus(f, g, set(a, vars.last(), true), vars.drop_last());
    }
}

/// A constant factor comes out of a sum.
pub proof fn lemma_total_scale(c: real, f: spec_fn(Asg) -> real, a: Asg, vars: Seq<int>)
    ensures
        total(|b: Asg| c * f(b), a, vars) == c * total(f, a, vars),
    decreases vars.len(),
{
    if vars.len() > 0 {
        let x = total(f, set(a, vars.last(), false), vars.drop_last());
        let y = total(f, set(a, vars.last(), true), vars.drop_last());
        lemma_total_scale(c, f, set(a, vars.last(), false), vars.drop_last());
        lemma_total_scale(c, f, set(a, vars.last(), true), vars.drop_last());
        assert(c * (x + y) == c * x + c * y) by (nonlinear_arith);
    }
}

/// A sum of zeros is zero.
pub proof fn lemma_total_zero(f: spec_fn(Asg) -> real, a: Asg, vars: Seq<int>)
    requires
        forall|b: Asg| same_outside(a, b, vars) ==> #[trigger] f(b) == 0real,
    ensures
        total(f, a, vars) == 0real,
{
    let z = |b: Asg| 0real * f(b);
    assert forall|b: Asg| same_outside(a, b, vars) implies #[trigger] f(b) == z(b) by {
        assert(0real * f(b) == 0real) by (nonlinear_arith);
    }
    lemma_total_same(f, z, a, vars);
    lemma_total_scale(0real, f, a, vars);
    let t = total(f, a, vars);
    assert(0real * t == 0real) by (nonlinear_arith);
}

/// The sum over a variable may be taken last wherever it is listed.
pub proof fn lemma_total_move(f: spec_fn(Asg) -> real, a: Asg, vars: Seq<int>, i: int)
    requires
        0 <= i < vars.len(),
        unlike(vars),
    ensures
        total(f, a, vars) == total(f, a, vars.remove(i).push(vars[i])),
    decreases vars.len(),
{
    let n = vars.len() as int;
    let moved = vars.remove(i).push(vars[i]);
    if i == n - 1 {
        assert(moved =~= vars);
    } else {
        let v = vars[i];
        let w = vars.last();
        let rest = vars.drop_last();
        // total(vars) = sum over w of total(rest); in each, v may be taken last.
        assert(rest.remove(i).push(v) =~= rest.remove(i).push(rest[i]));
        lemma_total_move(f, set(a, w, false), rest, i);
        lemma_total_move(f, set(a, w, true), rest, i);
        let core = rest.remove(i);
        assert(rest.remove(i).push(v).drop_last() =~= core);
        assert(moved.drop_last() =~= core.push(w));
        assert(core.push(w).drop_last() =~= core);
        assert(v != w);
        lemma_set_commutes(a, w, false, v, false);
        lemma_set_commutes(a, w, false, v, true);
        lemma_set_commutes(a, w, true, v, false);
        lemma_set_commutes(a, w, true, v, true);
        reveal_with_fuel(total, 3);
    }
}

/// The order in which variables are listed does not matter.
pub proof fn lemma_total_reorder(
    f: spec_fn(Asg) -> real,
    a: Asg,
    vars: Seq<int>,
    other: Seq<int>,
)
    requires
        unlike(vars),
        unlike(other),
        forall|v: int| vars.contains(v) <==> other.contains(v),
    ensures
        total(f, a, vars) == total(f, a, other),
    decreases vars.len(),
{
    if vars.len() == 0 {
        if other.len() > 0 {
            assert(other.contains(other[0]));
            assert(vars.contains(other[0]));
        }
        assert(other =~= vars);
    } else {
        let v = vars.last();
        let rest = vars.drop_last();
        assert(vars[vars.len() - 1] == v);
        assert(vars.contains(v));
        let i = other.index_of(v);
        assert(other.contains(v));
        lemma_total_move(f, a, other, i);
        let core = other.remove(i);
        let moved = core.push(v);
        assert(moved.drop_last() =~= core);
        assert(unlike(rest));
        assert(unlike(core));
        assert forall|x: int| rest.contains(x) <==> core.contains(x) by {
            if rest.contains(x) {
                let k = rest.index_of(x);
                assert(vars[k] == x);
                assert(x != v);
                assert(other.contains(x));
                let j = other.index_of(x);
                assert(j != i);
                if j < i {
                    assert(core[j] == x);
                } else {
                    assert(core[j - 1] == x);
                }
            }
            if core.contains(x) {
                let j = core.index_of(x);
                let jj = if j < i {
                    j
                } else {
                    j + 1
                };
                assert(other[jj] == x);
                assert(other.contains(x));
                assert(vars.contains(x));
                let k = vars.index_of(x);
                assert(x != v);
                assert(rest[k] == x);
            }
        }
        lemma_total_reorder(f, set(a, v, false), rest, core);
        lemma_total_reorder(f, set(a, v, true), rest, core);
    }
}

/// A sum does not look at what its base gives the summed variables, nor at what it gives
/// the variables that the summand ignores.
pub proof fn lemma_total_base(f: spec_fn(Asg) -> real, a: Asg, b: Asg, vars: Seq<int>, idle: Seq<int>)
    requires
        ignores(f, idle),
        forall|v: int| !vars.contains(v) && !idle.contains(v) ==> #[trigger] a(v) == b(v),
    ensures
        total(f, a, vars) == total(f, b, vars),
    decreases vars.len(),
{
    if vars.len() == 0 {
        assert(same_outside(a, b, idle));
    } else {
        let v = vars.last();
        let rest = vars.drop_last();
        assert forall|c: bool, x: int|
            #![trigger set(a, v, c)(x)]
            !rest.contains(x) && !idle.contains(x) implies set(a, v, c)(x) == set(b, v, c)(x) by {
            if x != v {
                if vars.contains(x) {
                    let k = vars.index_of(x);
                    assert(rest[k] == x);
                }
                assert(a(x) == b(x));
            }
        }
        lemma_total_base(f, set(a, v, false), set(b, v, false), rest, idle);
        lemma_total_base(f, set(a, v, true), set(b, v, true), rest, idle);
    }
}

/// A product of two summands, each blind to the other's variables, sums to the product of
/// the two sums.
pub proof fn lemma_total_product(
    f: spec_fn(Asg) -> real,
    g: spec_fn(Asg) -> real,
    a: Asg,
    fv: Seq<int>,
    gv: Seq<int>,
)
    requires
        ignores(f, gv),
        ignores(g, fv),
    ensures
        total(|b: Asg| f(b) * g(b), a, fv + gv) == total(f, a, fv) * total(g, a, gv),
    decreases gv.len(),
{
    let h = |b: Asg| f(b) * g(b);
    if gv.len() == 0 {
        assert(fv + gv =~= fv);
        let c = g(a);
        let k = |b: Asg| c * f(b);
        assert forall|b: Asg| same_outside(a, b, fv) implies #[trigger] h(b) == k(b) by {
            assert(g(a) == g(b));
            let x = f(b);
            assert(x * c == c * x) by (nonlinear_arith);
        }
        lemma_total_same(h, k, a, fv);
        lemma_total_scale(c, f, a, fv);
        let t = total(f, a, fv);
        assert(c * t == t * c) by (nonlinear_arith);
    } else {
        let v = gv.last();
        let rest = gv.drop_last();
        let all = fv + gv;
        assert(all.last() == v);
        assert(all.drop_last() =~= fv + rest);
        assert(gv.contains(v)) by {
            assert(gv[gv.len() - 1] == v);
        }
        assert(ignores(f, rest)) by {
            assert forall|x: Asg, y: Asg|
                #![trigger f(x), f(y)]
                same_outside(x, y, rest) implies f(x) == f(y) by {
                assert forall|z: int| !gv.contains(z) implies #[trigger] x(z) == y(z) by {
                    if rest.contains(z) {
                        let k = rest.index_of(z);
                        assert(gv[k] == z);
                    }
                }
                assert(same_outside(x, y, gv));
            }
        }
        lemma_total_product(f, g, set(a, v, false), fv, rest);
        lemma_total_product(f, g, set(a, v, true), fv, rest);
        assert(total(f, set(a, v, false), fv) == total(f, a, fv)) by {
            lemma_total_base(f, set(a, v, false), a, fv, gv);
        }
        assert(total(f, set(a, v, true), fv) == total(f, a, fv)) by {
            lemma_total_base(f, set(a, v, true), a, fv, gv);
        }
        let t = total(f, a, fv);
        let x = total(g, set(a, v, false), rest);
        let y = total(g, set(a, v, true), rest);
        assert(t * x + t * y == t * (x + y)) by (nonlinear_arith);
    }
}

/// The product of the numbers in `s`.
pub open spec fn product(s: Seq<real>) -> real
    decreases s.len(),
{
    if s.len() == 0 {
        1real
    } else {
        product(s.drop_last()) * s.last()
    }
}

/// Replacing one factor.
pub proof fn lemma_product_update(s: Seq<real>, i: int, y: real)
    requires
        0 <= i < s.len(),
    ensures
        product(s.update(i, y)) * s[i] == product(s) * y,
    decreases s.len(),
{
    let t = s.update(i, y);
    let p = product(s.drop_last());
    let q = product(t.drop_last());
    if i == s.len() - 1 {
        assert(t.drop_last() =~= s.drop_last());
        let x = s[i];
        assert((p * y) * x == (p * x) * y) by (nonlinear_arith);
    } else {
        lemma_product_update(s.drop_last(), i, y);
        assert(t.drop_last() =~= s.drop_last().update(i, y));
        let l = s.last();
        let x = s[i];
        assert((q * l) * x == (q * x) * l) by (nonlinear_arith);
        assert((p * y) * l == (p * l) * y) by (nonlinear_arith);
    }
}

/// Taking one factor out, the last one filling its place.
pub proof fn lemma_product_swap_remove(s: Seq<real>, i: int)
    requires
        0 <= i < s.len(),
    ensures
        product(s) == s[i] * product(s.update(i, s.last()).drop_last()),
{
    let rest = s.update(i, s.last()).drop_last();
    let p = product(s.drop_last());
    let l = s.last();
    if i == s.len() - 1 {
        assert(rest =~= s.drop_last());
        assert(p * l == l * p) by (nonlinear_arith);
    } else {
        assert(rest =~= s.drop_last().update(i, l));
        lemma_product_update(s.drop_last(), i, l);
        let q = product(rest);
        let x = s[i];
        assert(q * x == x * q) by (nonlinear_arith);
    }
}

/// A product with a zero factor is zero.
pub proof fn lemma_product_zero(s: Seq<real>, i: int)
    requires
        0 <= i < s.len(),
        s[i] == 0real,
    ensures
        product(s) == 0real,
{
    lemma_product_swap_remove(s, i);
    let q = product(s.update(i, s.last()).drop_last());
    assert(0real * q == 0real) by (nonlinear_arith);
}

/// A product of factors that are products of two.
pub proof fn lemma_product_pairs(s: Seq<real>, t: Seq<real>, u: Seq<real>)
    requires
        s.len() == t.len() == u.len(),
        forall|i: int| 0 <= i < s.len() ==> #[trigger] s[i] == t[i] * u[i],
    ensures
        product(s) == product(t) * product(u),
    decreases s.len(),
{
    if s.len() > 0 {
        lemma_product_pairs(s.drop_last(), t.drop_last(), u.drop_last());
        let p = product(t.drop_last());
        let q = product(u.drop_last());
        let x = t.last();
        let y = u.last();
        assert(s[s.len() - 1] == x * y);
        assert((p * q) * (x * y) == (p * x) * (q * y)) by (nonlinear_arith);
    }
}

/// A sum over one more variable, taken innermost.
pub proof fn lemma_total_inner(f: spec_fn(Asg) -> real, a: Asg, v: int, vars: Seq<int>)
    requires
        unlike(vars),
        !vars.contains(v),
    ensures
        total(f, a, seq![v] + vars) == total(
            |b: Asg| f(set(b, v, false)) + f(set(b, v, true)),
            a,
            vars,
        ),
    decreases vars.len(),
{
    let g = |b: Asg| f(set(b, v, false)) + f(set(b, v, true));
    let all = seq![v] + vars;
    if vars.len() == 0 {
        assert(all =~= seq![v]);
        assert(all.drop_last() =~= Seq::<int>::empty());
        reveal_with_fuel(total, 2);
    } else {
        let rest = vars.drop_last();
        let w = vars.last();
        assert(all.last() == w);
        assert(all.drop_last() =~= seq![v] + rest);
        assert(!rest.contains(v)) by {
            if rest.contains(v) {
                let k = rest.index_of(v);
                assert(vars[k] == v);
            }
        }
        lemma_total_inner(f, set(a, w, false), v, rest);
        lemma_total_inner(f, set(a, w, true), v, rest);
    }
}

/// A product, with the factors at the places `picks` taken out in front.
pub proof fn lemma_product_split(s: Seq<real>, picks: Seq<usize>)
    requires
        picks.no_duplicates(),
        forall|i: int| 0 <= i < picks.len() ==> (#[trigger] picks[i]) < s.len(),
    ensures
        product(s) == product(Seq::new(picks.len(), |i: int| s[picks[i] as int])) * product(
            without_factors(s, picks),
        ),
    decreases picks.len(),
{
    let p = Seq::new(picks.len(), |i: int| s[picks[i] as int]);
    if picks.len() == 0 {
        assert(without_factors(s, picks) =~= s);
    } else {
        let front = picks.drop_last();
        let x = picks.last();
        assert(picks[picks.len() - 1] == x);
        assert forall|i: int| 0 <= i < front.len() implies (#[trigger] front[i]) < s.len() by {
            assert(picks[i] < s.len());
        }
        lemma_product_split(s, front);
        let sf = without_factors(s, front);
        let pf = Seq::new(front.len(), |i: int| s[front[i] as int]);
        assert(p.drop_last() =~= pf);
        lemma_product_update(sf, x as int, 1real);
        assert(!contract::lists(front, x as int)) by {
            if contract::lists(front, x as int) {
                let k = choose|k: int| 0 <= k < front.len() && (#[trigger] front[k]) as int == x;
                assert(picks[k] == picks[picks.len() - 1]);
            }
        }
        assert(sf[x as int] == s[x as int]);
        assert(without_factors(s, picks) =~= sf.update(x as int, 1real)) by {
            assert forall|t: int| 0 <= t < s.len() implies #[trigger] contract::lists(picks, t) == (contract::lists(front, t) || t == x) by {
                if contract::lists(picks, t) {
                    let k = choose|k: int| 0 <= k < picks.len() && (#[trigger] picks[k]) as int == t;
                    if k < front.len() {
                        assert(front[k] as int == t);
                    }
                }
                if contract::lists(front, t) {
                    let k = choose|k: int| 0 <= k < front.len() && (#[trigger] front[k]) as int == t;
                    assert(picks[k] as int == t);
                }
                if t == x {
                    assert(picks[picks.len() - 1] as int == t);
                }
            }
        }
        let a = product(pf);
        let b = s[x as int];
        let c = product(without_factors(s, picks));
        let d = product(sf);
        assert(c * b == d);
        assert(a * d == (a * b) * c) by (nonlinear_arith)
            requires
                c * b == d,
        ;
    }
}

/// `s` with ones at the places `picks`.
pub open spec fn without_factors(s: Seq<real>, picks: Seq<usize>) -> Seq<real> {
    Seq::new(
        s.len(),
        |t: int|
            if contract::lists(picks, t) {
                1real
            } else {
                s[t]
            },
    )
}

/// The numbers below `n` that satisfy `p`, ascending.
pub open spec fn chosen_ids(p: spec_fn(int) -> bool, n: int) -> Seq<int>
    decreases n,
{
    if n <= 0 {
        Seq::empty()
    } else if p(n - 1) {
        chosen_ids(p, n - 1).push(n - 1)
    } else {
        chosen_ids(p, n - 1)
    }
}

pub proof fn lemma_chosen_ids(p: spec_fn(int) -> bool, n: int)
    ensures
        unlike(chosen_ids(p, n)),
        forall|x: int| #[trigger] chosen_ids(p, n).contains(x) <==> (0 <= x < n && p(x)),
    decreases n,
{
    if n > 0 {
        lemma_chosen_ids(p, n - 1);
        let rest = chosen_ids(p, n - 1);
        let s = chosen_ids(p, n);
        crate::seqs::lemma_push_contains(rest, n - 1);
        assert forall|x: int| #[trigger] s.contains(x) <==> (0 <= x < n && p(x)) by {
            assert(rest.contains(x) <==> (0 <= x < n - 1 && p(x)));
        }
        assert forall|i: int, j: int| 0 <= i < j < s.len() implies s[i] != s[j] by {
            if j == rest.len() {
                assert(rest.contains(rest[i]));
            }
        }
    }
}

/// Two predicates that agree below `n` choose the same numbers.
pub proof fn lemma_chosen_same(p: spec_fn(int) -> bool, q: spec_fn(int) -> bool, n: int)
    requires
        forall|x: int| 0 <= x < n ==> #[trigger] p(x) == q(x),
    ensures
        chosen_ids(p, n) == chosen_ids(q, n),
    decreases n,
{
    if n > 0 {
        lemma_chosen_same(p, q, n - 1);
        assert(p(n - 1) == q(n - 1));
    }
}

} // verus!
