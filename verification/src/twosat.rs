//! Residual problems whose constraints leave at most two variables open, by implications.
use vstd::prelude::*;

use crate::bits;
use crate::canonicalize;
use crate::ct;
use crate::domain::{Asg, DomainMask};
use crate::models;
use crate::network;
use crate::network::ConstraintNetwork;
use crate::scc;
use crate::table;
use crate::util;

verus! {

/// `a` has the fixed values.
pub open spec fn agrees_fixed(doms: Seq<DomainMask>, a: Asg) -> bool {
    forall|v: int| 0 <= v < doms.len() && (#[trigger] doms[v]).fixed() ==> doms[v].allows(a(v))
}

/// No constraint leaves three variables open.
pub open spec fn two_left(cn: ConstraintNetwork, doms: Seq<DomainMask>) -> bool {
    forall|t: int, i: int, j: int, k: int|
        0 <= t < cn.m() && 0 <= i < j < k < cn.axes(t).len() ==> doms[(#[trigger] cn.axes(t)[i]) as int].fixed() || doms[(#[trigger] cn.axes(t)[j]) as int].fixed() || doms[(
        #[trigger] cn.axes(t)[k]) as int].fixed()
}

/// Constraint `t` leaves exactly the variables at `i` and `j` open.
pub open spec fn pair_open(cn: ConstraintNetwork, doms: Seq<DomainMask>, t: int, i: int, j: int) -> bool {
    &&& 0 <= t < cn.m()
    &&& 0 <= i < j < cn.axes(t).len()
    &&& forall|k: int| 0 <= k < cn.axes(t).len() ==> doms[(#[trigger] cn.axes(t)[k]) as int].fixed() == (k != i && k != j)
}

/// The constraints that leave two variables open hold.
pub open spec fn pairs_hold(cn: ConstraintNetwork, doms: Seq<DomainMask>, a: Asg) -> bool {
    forall|t: int, i: int, j: int| #[trigger] pair_open(cn, doms, t, i, j) ==> cn.holds(t, a)
}

/// The node of a literal.
pub open spec fn lit(v: int, b: bool) -> int {
    if b {
        2 * v
    } else {
        2 * v + 1
    }
}

/// The literal of a node is true.
pub open spec fn lit_holds(l: int, a: Asg) -> bool {
    a(l / 2) == (l % 2 == 0)
}

/// The node of the opposite literal.
pub open spec fn opposite(l: int) -> int {
    if l % 2 == 0 {
        l + 1
    } else {
        l - 1
    }
}

/// The fixed values, with two others filled in.
pub open spec fn filled(doms: Seq<DomainMask>, v1: int, b1: bool, v2: int, b2: bool) -> Asg {
    |v: int|
        if 0 <= v < doms.len() && doms[v].fixed() {
            doms[v] == DomainMask::D1
        } else if v == v1 {
            b1
        } else if v == v2 {
            b2
        } else {
            false
        }
}

/// Whether constraint `t` holds with those values at `pos1` and `pos2` and the fixed values
/// elsewhere.
fn is_valid_assignment(cn: &ConstraintNetwork, t: usize, doms: &[DomainMask], pos1: usize, val1: bool, pos2: usize, val2: bool) -> (r: bool)
    requires
        cn.wf(),
        doms@.len() == cn.n(),
        t < cn.m(),
        pos1 < cn.axes(t as int).len(),
        pos2 < cn.axes(t as int).len(),
        pos1 != pos2,
    ensures
        r == cn.holds(t as int, filled(doms@, cn.axes(t as int)[pos1 as int] as int, val1, cn.axes(t as int)[pos2 as int] as int, val2)),
{
    let ghost axes = cn.axes(t as int);
    let ghost a = filled(doms@, axes[pos1 as int] as int, val1, axes[pos2 as int] as int, val2);
    proof {
        broadcast use bits::group_bits;

        assert(cn.tensor_wf(t as int));
    }
    let mut config: u64 = 0;
    let mut i: usize = 0;
    let n: usize = cn.tensors[t].var_axes.len();
    proof {
        broadcast use bits::group_bits;

        assert forall|k: int| 0 <= k < 64 implies !#[trigger] bits::bit(config, k) by {}
    }
    while i < n
        invariant
            cn.wf(),
            doms@.len() == cn.n(),
            t < cn.m(),
            axes == cn.axes(t as int),
            cn.tensor_wf(t as int),
            n == axes.len(),
            n <= 32,
            i <= n,
            pos1 < n,
            pos2 < n,
            pos1 != pos2,
            a == filled(doms@, axes[pos1 as int] as int, val1, axes[pos2 as int] as int, val2),
            forall|k: int| 0 <= k < i ==> bits::bit(config, k) == a(#[trigger] axes[k] as int),
            forall|k: int| i <= k < 64 ==> !#[trigger] bits::bit(config, k),
        decreases n - i,
    {
        let var: usize = cn.tensors[t].var_axes[i];
        assert(axes[i as int] == var);
        let bit = if doms[var].is_fixed() {
            doms[var] == DomainMask::D1
        } else if i == pos1 {
            val1
        } else if i == pos2 {
            val2
        } else {
            false
        };
        proof {
            assert(bit == a(var as int)) by {
                assert(i != pos1 ==> axes[i as int] != axes[pos1 as int]);
                assert(i != pos2 ==> axes[i as int] != axes[pos2 as int]);
            }
        }
        let ghost was = config;
        if bit {
            config = bits::with_bit(config, i);
        }
        proof {
            assert forall|k: int| 0 <= k < i + 1 implies bits::bit(config, k) == a(#[trigger] axes[k] as int) by {
                assert(bits::bit(config, k) == (bits::bit(was, k) || (bit && k == i)));
                if k == i {
                    assert(!bits::bit(was, k));
                }
            }
            assert forall|k: int| i + 1 <= k < 64 implies !#[trigger] bits::bit(config, k) by {
                assert(!bits::bit(was, k));
                assert(bits::bit(config, k) == (bits::bit(was, k) || (bit && k == i)));
            }
        }
        i += 1;
    }
    proof {
        assert(bits::below(config, 32)) by {
            assert forall|k: int| 32 <= k < 64 implies !#[trigger] bits::bit(config, k) by {}
        }
        bits::lemma_below_iff(config, 32);
        assert(config <= 0xffff_ffff) by {
            assert((1u64 << 32) == 0x1_0000_0000u64) by (bit_vector);
        }
    }
    let row: u32 = config as u32;
    proof {
        let rows = cn.rows(t as int);
        if cn.holds(t as int, a) {
            let k = choose|k: int| 0 <= k < rows.len() && network::agrees(axes, #[trigger] rows[k] as u64, a);
            assert forall|j: int| 0 <= j < 64 implies #[trigger] bits::bit(rows[k] as u64, j) == bits::bit(config, j) by {
                if j < n {
                    assert(bits::bit(rows[k] as u64, j) == a(axes[j] as int));
                } else {
                    assert(bits::below(rows[k] as u64, n as int));
                    assert(!bits::bit(config, j));
                }
            }
            bits::lemma_bits_equal(rows[k] as u64, config);
            assert(rows.contains(row));
        }
        if rows.contains(row) {
            let k = rows.index_of(row);
            assert(network::agrees(axes, rows[k] as u64, a));
        }
    }
    cn.is_sat(&cn.tensors[t], row)
}

/// An assignment with the fixed values agrees with the filled one where it has those two values.
proof fn lemma_filled(cn: ConstraintNetwork, doms: Seq<DomainMask>, t: int, i: int, j: int, a: Asg)
    requires
        cn.wf(),
        doms.len() == cn.n(),
        pair_open(cn, doms, t, i, j),
        agrees_fixed(doms, a),
    ensures
        cn.holds(t, a) <==> cn.holds(t, filled(doms, cn.axes(t)[i] as int, a(cn.axes(t)[i] as int), cn.axes(t)[j] as int, a(cn.axes(t)[j] as int))),
{
    let axes = cn.axes(t);
    assert(cn.tensor_wf(t));
    let b = filled(doms, axes[i] as int, a(axes[i] as int), axes[j] as int, a(axes[j] as int));
    assert forall|k: int| 0 <= k < axes.len() implies a((#[trigger] axes[k]) as int) == b(axes[k] as int) by {
        assert(axes[k] < cn.n());
        assert(doms[axes[k] as int].fixed() == (k != i && k != j));
        if doms[axes[k] as int].fixed() {
            assert(doms[axes[k] as int].allows(a(axes[k] as int)));
        } else if k == j {
            assert(axes[i] != axes[j]);
        }
    }
    if cn.holds(t, a) {
        table::lemma_holds_on(cn, t, a, b);
    }
    if cn.holds(t, b) {
        table::lemma_holds_on(cn, t, b, a);
    }
}

/// Every edge is an implication of the constraints.
spec fn edges_sound(cn: ConstraintNetwork, doms: Seq<DomainMask>, g: Seq<Vec<usize>>) -> bool {
    forall|l: int, m: int, a: Asg| #[trigger] scc::edge(g, l, m) && #[trigger] pairs_hold(cn, doms, a) && agrees_fixed(doms, a) && lit_holds(l, a) ==> lit_holds(m, a)
}

/// Every edge has its contrapositive.
#[verifier::opaque]
spec fn edges_mirrored(g: Seq<Vec<usize>>) -> bool {
    forall|l: int, m: int| #[trigger] scc::edge(g, l, m) ==> scc::edge(g, opposite(m), opposite(l))
}

proof fn lemma_mirror(g: Seq<Vec<usize>>, l: int, m: int)
    requires
        edges_mirrored(g),
        scc::edge(g, l, m),
    ensures
        scc::edge(g, opposite(m), opposite(l)),
{
    reveal(edges_mirrored);
}

/// What a constraint forbids is ruled out by edges.
spec fn edges_cover(cn: ConstraintNetwork, doms: Seq<DomainMask>, g: Seq<Vec<usize>>, t: int) -> bool {
    forall|i: int, j: int, b1: bool, b2: bool|
        #[trigger] pair_open(cn, doms, t, i, j) && !#[trigger] cn.holds(t, filled(doms, cn.axes(t)[i] as int, b1, cn.axes(t)[j] as int, b2)) ==> scc::edge(g, lit(cn.axes(t)[i] as int, b1), lit(cn.axes(t)[j] as int, !b2))
}

/// `h` has all edges of `g`, and besides them at most the two of a forbidden pair.
spec fn forbids(g: Seq<Vec<usize>>, h: Seq<Vec<usize>>, v1: int, b1: bool, v2: int, b2: bool) -> bool {
    forall|l: int, m: int|
        #[trigger] scc::edge(h, l, m) <==> (scc::edge(g, l, m) || (l == lit(v1, b1) && m == lit(v2, !b2)) || (l == lit(v2, b2) && m == lit(v1, !b1)))
}

/// Add an edge.
fn add_edge(graph: &mut Vec<Vec<usize>>, l: usize, m: usize)
    requires
        scc::graph_wf(old(graph)@),
        l < old(graph)@.len(),
        m < old(graph)@.len(),
    ensures
        scc::graph_wf(final(graph)@),
        final(graph)@.len() == old(graph)@.len(),
        forall|x: int, y: int| #[trigger] scc::edge(final(graph)@, x, y) <==> (scc::edge(old(graph)@, x, y) || (x == l && y == m)),
{
    let ghost g = graph@;
    let mut list: Vec<usize> = Vec::new();
    std::mem::swap(&mut list, &mut graph[l]);
    list.push(m);
    graph.set(l, list);
    proof {
        let h = graph@;
        assert(h =~= g.update(l as int, list));
        assert(list@ == g[l as int]@.push(m));
        assert forall|x: int, y: int| #[trigger] scc::edge(h, x, y) <==> (scc::edge(g, x, y) || (x == l && y == m)) by {
            if x == l {
                let s = g[l as int]@;
                if scc::edge(h, x, y) {
                    let k = list@.index_of(y as usize);
                    if k < s.len() {
                        assert(s[k] == y as usize);
                    }
                }
                if scc::edge(g, x, y) {
                    let k = s.index_of(y as usize);
                    assert(list@[k] == y as usize);
                }
                if y == m {
                    assert(list@[s.len() as int] == m);
                }
            }
        }
        assert forall|u: int, j: int| 0 <= u < h.len() && 0 <= j < h[u]@.len() implies (#[trigger] h[u]@[j]) < h.len() by {
            if u == l && j < g[u]@.len() {
                assert(g[u]@[j] < g.len());
            } else if u != l {
                assert(h[u] == g[u]);
                assert(g[u]@[j] < g.len());
            }
        }
    }
}

/// Rule out a pair of values: each implies the opposite of the other.
fn forbid(graph: &mut Vec<Vec<usize>>, var1: usize, b1: bool, var2: usize, b2: bool)
    requires
        scc::graph_wf(old(graph)@),
        2 * var1 + 1 < old(graph)@.len(),
        2 * var2 + 1 < old(graph)@.len(),
    ensures
        scc::graph_wf(final(graph)@),
        final(graph)@.len() == old(graph)@.len(),
        forbids(old(graph)@, final(graph)@, var1 as int, b1, var2 as int, b2),
{
    assert(graph.len() == graph@.len());
    let u: usize = if b1 {
        2 * var1
    } else {
        2 * var1 + 1
    };
    let not_u: usize = if b1 {
        2 * var1 + 1
    } else {
        2 * var1
    };
    let v: usize = if b2 {
        2 * var2
    } else {
        2 * var2 + 1
    };
    let not_v: usize = if b2 {
        2 * var2 + 1
    } else {
        2 * var2
    };
    add_edge(graph, u, not_v);
    add_edge(graph, v, not_u);
}

/// Ruling out a pair that the constraint forbids keeps the graph sound and mirrored.
proof fn lemma_forbid(cn: ConstraintNetwork, doms: Seq<DomainMask>, g: Seq<Vec<usize>>, h: Seq<Vec<usize>>, t: int, i: int, j: int, b1: bool, b2: bool)
    requires
        cn.wf(),
        doms.len() == cn.n(),
        pair_open(cn, doms, t, i, j),
        !cn.holds(t, filled(doms, cn.axes(t)[i] as int, b1, cn.axes(t)[j] as int, b2)),
        edges_sound(cn, doms, g),
        edges_mirrored(g),
        forbids(g, h, cn.axes(t)[i] as int, b1, cn.axes(t)[j] as int, b2),
        h.len() == g.len(),
    ensures
        edges_sound(cn, doms, h),
        edges_mirrored(h),
{
    let v1 = cn.axes(t)[i] as int;
    let v2 = cn.axes(t)[j] as int;
    assert forall|l: int, m: int, a: Asg| #[trigger] scc::edge(h, l, m) && #[trigger] pairs_hold(cn, doms, a) && agrees_fixed(doms, a) && lit_holds(l, a) implies lit_holds(m, a) by {
        if !scc::edge(g, l, m) {
            lemma_filled(cn, doms, t, i, j, a);
            assert(cn.holds(t, a));
        }
    }
    assert forall|l: int, m: int| #[trigger] scc::edge(h, l, m) implies scc::edge(h, opposite(m), opposite(l)) by {
        if scc::edge(g, l, m) {
            lemma_mirror(g, l, m);
            assert(scc::edge(h, opposite(m), opposite(l)) <==> true);
        } else if l == lit(v1, b1) && m == lit(v2, !b2) {
            assert(opposite(m) == lit(v2, b2));
            assert(opposite(l) == lit(v1, !b1));
            assert(scc::edge(h, lit(v2, b2), lit(v1, !b1)) <==> true);
        } else {
            assert(opposite(m) == lit(v1, b1));
            assert(opposite(l) == lit(v2, !b2));
            assert(scc::edge(h, lit(v1, b1), lit(v2, !b2)) <==> true);
        }
    }
    assert(edges_mirrored(h)) by {
        reveal(edges_mirrored);
    }
}

/// Where the truth of a literal leads.
proof fn lemma_walk_holds(cn: ConstraintNetwork, doms: Seq<DomainMask>, g: Seq<Vec<usize>>, p: Seq<int>, k: int, a: Asg)
    requires
        edges_sound(cn, doms, g),
        scc::walk(g, p),
        pairs_hold(cn, doms, a),
        agrees_fixed(doms, a),
        lit_holds(p[0], a),
        0 <= k < p.len(),
    ensures
        lit_holds(p[k], a),
    decreases k,
{
    if k > 0 {
        lemma_walk_holds(cn, doms, g, p, k - 1, a);
        assert(scc::edge(g, p[k - 1], p[k - 1 + 1]));
    }
}

proof fn lemma_reach_holds(cn: ConstraintNetwork, doms: Seq<DomainMask>, g: Seq<Vec<usize>>, l: int, m: int, a: Asg)
    requires
        edges_sound(cn, doms, g),
        scc::reach(g, l, m),
        pairs_hold(cn, doms, a),
        agrees_fixed(doms, a),
        lit_holds(l, a),
    ensures
        lit_holds(m, a),
{
    let p = choose|p: Seq<int>| #[trigger] scc::walk(g, p) && p[0] == l && p.last() == m;
    lemma_walk_holds(cn, doms, g, p, p.len() - 1, a);
}

/// Where the two open variables of a constraint are: none unless exactly two are open.
fn open_pair(cn: &ConstraintNetwork, doms: &[DomainMask], t: usize) -> (r: Option<(usize, usize)>)
    requires
        cn.wf(),
        doms@.len() == cn.n(),
        t < cn.m(),
        two_left(*cn, doms@),
    ensures
        match r {
            Some(p) => pair_open(*cn, doms@, t as int, p.0 as int, p.1 as int),
            None => forall|i: int, j: int| !pair_open(*cn, doms@, t as int, i, j),
        },
{
    let ghost axes = cn.axes(t as int);
    let n: usize = cn.tensors[t].var_axes.len();
    let mut first: Option<usize> = None;
    let mut second: Option<usize> = None;
    let mut k: usize = 0;
    proof {
        assert(cn.tensor_wf(t as int));
    }
    while k < n
        invariant
            cn.wf(),
            doms@.len() == cn.n(),
            t < cn.m(),
            two_left(*cn, doms@),
            axes == cn.axes(t as int),
            cn.tensor_wf(t as int),
            n == axes.len(),
            k <= n,
            first is None ==> second is None,
            first matches Some(i) ==> i < k,
            second matches Some(j) ==> first->0 < j < k,
            forall|q: int| 0 <= q < k ==> doms@[(#[trigger] axes[q]) as int].fixed() == !((first is Some && q == first->0) || (second is Some && q == second->0)),
        decreases n - k,
    {
        let var: usize = cn.tensors[t].var_axes[k];
        assert(axes[k as int] == var);
        if !doms[var].is_fixed() {
            if first.is_none() {
                first = Some(k);
            } else {
                proof {
                    if second is Some {
                        let i = first->0 as int;
                        let j = second->0 as int;
                        assert(!doms@[axes[i] as int].fixed());
                        assert(!doms@[axes[j] as int].fixed());
                        assert(!doms@[axes[k as int] as int].fixed());
                        assert(cn.axes(t as int)[i] == axes[i]);
                    }
                }
                second = Some(k);
            }
        }
        k += 1;
    }
    match (first, second) {
        (Some(i), Some(j)) => {
            Some((i, j))
        },
        _ => {
            proof {
                assert forall|i: int, j: int| !pair_open(*cn, doms@, t as int, i, j) by {
                    if pair_open(*cn, doms@, t as int, i, j) {
                        assert(!doms@[axes[i] as int].fixed());
                        assert(!doms@[axes[j] as int].fixed());
                    }
                }
            }
            None
        },
    }
}

/// Add the implications of a constraint that leaves two variables open.
fn add_binary_implications(cn: &ConstraintNetwork, graph: &mut Vec<Vec<usize>>, doms: &[DomainMask], t: usize, pos1: usize, pos2: usize)
    requires
        cn.wf(),
        doms@.len() == cn.n(),
        pair_open(*cn, doms@, t as int, pos1 as int, pos2 as int),
        scc::graph_wf(old(graph)@),
        old(graph)@.len() == 2 * cn.n(),
        edges_sound(*cn, doms@, old(graph)@),
        edges_mirrored(old(graph)@),
    ensures
        scc::graph_wf(final(graph)@),
        final(graph)@.len() == old(graph)@.len(),
        edges_sound(*cn, doms@, final(graph)@),
        edges_mirrored(final(graph)@),
        edges_cover(*cn, doms@, final(graph)@, t as int),
        forall|l: int, m: int| #[trigger] scc::edge(old(graph)@, l, m) ==> scc::edge(final(graph)@, l, m),
{
    let ghost axes = cn.axes(t as int);
    let ghost g0 = graph@;
    proof {
        assert(cn.tensor_wf(t as int));
        assert(axes[pos1 as int] < cn.n());
        assert(axes[pos2 as int] < cn.n());
    }
    let var1: usize = cn.tensors[t].var_axes[pos1];
    let var2: usize = cn.tensors[t].var_axes[pos2];
    let mut c: u64 = 0;
    while c < 4
        invariant
            cn.wf(),
            doms@.len() == cn.n(),
            pair_open(*cn, doms@, t as int, pos1 as int, pos2 as int),
            axes == cn.axes(t as int),
            var1 == axes[pos1 as int],
            var2 == axes[pos2 as int],
            var1 < cn.n(),
            var2 < cn.n(),
            c <= 4,
            scc::graph_wf(graph@),
            graph@.len() == 2 * cn.n(),
            edges_sound(*cn, doms@, graph@),
            edges_mirrored(graph@),
            forall|l: int, m: int| #[trigger] scc::edge(g0, l, m) ==> scc::edge(graph@, l, m),
            forall|b1: bool, b2: bool| number(b1, b2) < c && !#[trigger] cn.holds(t as int, filled(doms@, var1 as int, b1, var2 as int, b2)) ==> scc::edge(graph@, lit(var1 as int, b1), lit(var2 as int, !b2)),
        decreases 4 - c,
    {
        let ghost g1 = graph@;
        let b1 = c >= 2;
        let b2 = c == 1 || c == 3;
        assert(number(b1, b2) == c);
        if !is_valid_assignment(cn, t, doms, pos1, b1, pos2, b2) {
            forbid(graph, var1, b1, var2, b2);
            proof {
                lemma_forbid(*cn, doms@, g1, graph@, t as int, pos1 as int, pos2 as int, b1, b2);
                assert(scc::edge(graph@, lit(var1 as int, b1), lit(var2 as int, !b2)) <==> true);
            }
        }
        c += 1;
    }
    proof {
        assert forall|i: int, j: int, b1: bool, b2: bool|
            #[trigger] pair_open(*cn, doms@, t as int, i, j) && !#[trigger] cn.holds(t as int, filled(doms@, cn.axes(t as int)[i] as int, b1, cn.axes(t as int)[j] as int, b2)) implies scc::edge(graph@, lit(
            cn.axes(t as int)[i] as int,
            b1,
        ), lit(cn.axes(t as int)[j] as int, !b2)) by {
            assert(!doms@[cn.axes(t as int)[i] as int].fixed());
            assert(!doms@[cn.axes(t as int)[j] as int].fixed());
            assert(i == pos1 && j == pos2);
        }
    }
}

spec fn number(b1: bool, b2: bool) -> int {
    (if b1 {
        2int
    } else {
        0int
    }) + (if b2 {
        1int
    } else {
        0int
    })
}

/// Solve a problem whose constraints leave at most two variables open: the fixed values and a
/// value for each open variable such that the constraints with two open variables hold, or
/// `None` where there are no such values.
pub fn solve_2sat(cn: &ConstraintNetwork, doms: &[DomainMask]) -> (r: Option<Vec<DomainMask>>)
    requires
        cn.wf(),
        doms@.len() == cn.n(),
        2 * cn.n() <= usize::MAX,
        two_left(*cn, doms@),
    ensures
        match r {
            Some(sol) => {
                &&& sol@.len() == doms@.len()
                &&& models::all_fixed(sol@)
                &&& forall|v: int| 0 <= v < doms@.len() && (#[trigger] doms@[v]).fixed() ==> sol@[v] == doms@[v]
                &&& pairs_hold(*cn, doms@, canonicalize::decided(sol@))
            },
            None => forall|a: Asg| agrees_fixed(doms@, a) ==> !#[trigger] pairs_hold(*cn, doms@, a),
        },
{
    assert(cn.vars.len() == cn.n());
    let n: usize = cn.vars.len();
    let mut graph: Vec<Vec<usize>> = Vec::new();
    while graph.len() < 2 * n
        invariant
            2 * n <= usize::MAX,
            graph@.len() <= 2 * n,
            forall|u: int| 0 <= u < graph@.len() ==> (#[trigger] graph@[u])@.len() == 0,
        decreases 2 * n - graph.len(),
    {
        graph.push(Vec::new());
    }
    proof {
        assert forall|l: int, m: int| !#[trigger] scc::edge(graph@, l, m) by {
            if scc::edge(graph@, l, m) {
                assert(graph@[l]@.len() == 0);
            }
        }
        assert(edges_mirrored(graph@)) by {
            reveal(edges_mirrored);
        }
        assert(scc::graph_wf(graph@)) by {
            assert forall|u: int, j: int| 0 <= u < graph@.len() && 0 <= j < graph@[u]@.len() implies (#[trigger] graph@[u]@[j]) < graph@.len() by {
                assert(graph@[u]@.len() == 0);
            }
        }
    }
    let active = util::get_active_tensors(cn, doms);
    let mut k: usize = 0;
    while k < active.len()
        invariant
            cn.wf(),
            doms@.len() == cn.n(),
            n == cn.n(),
            two_left(*cn, doms@),
            forall|t: usize| #[trigger] active@.contains(t) <==> (t < cn.m() && util::has_open(*cn, doms@, t as int)),
            k <= active@.len(),
            scc::graph_wf(graph@),
            graph@.len() == 2 * n,
            edges_sound(*cn, doms@, graph@),
            edges_mirrored(graph@),
            forall|q: int| 0 <= q < k ==> edges_cover(*cn, doms@, graph@, (#[trigger] active@[q]) as int),
        decreases active.len() - k,
    {
        let t: usize = active[k];
        let ghost g1 = graph@;
        assert(active@.contains(active@[k as int]));
        match open_pair(cn, doms, t) {
            Some((i, j)) => {
                add_binary_implications(cn, &mut graph, doms, t, i, j);
            },
            None => {
                assert(edges_cover(*cn, doms@, graph@, t as int));
            },
        }
        proof {
            assert forall|q: int| 0 <= q < k + 1 implies edges_cover(*cn, doms@, graph@, (#[trigger] active@[q]) as int) by {
                if q < k {
                    assert(edges_cover(*cn, doms@, g1, active@[q] as int));
                }
            }
        }
        k += 1;
    }
    let id = scc::tarjan_scc(graph.as_slice());
    let ghost g = graph@;
    let mut v: usize = 0;
    while v < n
        invariant
            n == cn.n(),
            doms@.len() == n,
            g == graph@,
            g.len() == 2 * n,
            2 * n <= usize::MAX,
            scc::components_numbered(g, id@),
            edges_sound(*cn, doms@, g),
            v <= n,
            forall|x: int| 0 <= x < v && !(#[trigger] doms@[x]).fixed() ==> id@[lit(x, true)] != id@[lit(x, false)],
        decreases n - v,
    {
        if !doms[v].is_fixed() {
            let pos: usize = 2 * v;
            let neg: usize = 2 * v + 1;
            if id[pos] == id[neg] {
                proof {
                    assert forall|a: Asg| agrees_fixed(doms@, a) implies !#[trigger] pairs_hold(*cn, doms@, a) by {
                        if pairs_hold(*cn, doms@, a) {
                            assert(id@[pos as int] == id@[neg as int]);
                            assert(scc::reach(g, pos as int, neg as int));
                            assert(scc::reach(g, neg as int, pos as int));
                            if lit_holds(pos as int, a) {
                                lemma_reach_holds(*cn, doms@, g, pos as int, neg as int, a);
                            } else {
                                assert(lit_holds(neg as int, a));
                                lemma_reach_holds(*cn, doms@, g, neg as int, pos as int, a);
                            }
                        }
                    }
                }
                return None;
            }
        }
        v += 1;
    }
    let mut sol: Vec<DomainMask> = Vec::new();
    let mut v: usize = 0;
    while v < n
        invariant
            n == cn.n(),
            doms@.len() == n,
            2 * n <= usize::MAX,
            id@.len() == 2 * n,
            v <= n,
            sol@.len() == v,
            forall|x: int| 0 <= x < v ==> #[trigger] sol@[x] == chosen(doms@, id@, x),
        decreases n - v,
    {
        if doms[v].is_fixed() {
            sol.push(doms[v]);
        } else if id[2 * v] < id[2 * v + 1] {
            sol.push(DomainMask::D1);
        } else {
            sol.push(DomainMask::D0);
        }
        v += 1;
    }
    proof {
        let a = canonicalize::decided(sol@);
        assert forall|t: int, i: int, j: int| #[trigger] pair_open(*cn, doms@, t, i, j) implies cn.holds(t, a) by {
            assert(cn.tensor_wf(t));
            assert(cn.tensors.len() == cn.m());
            assert(!doms@[cn.axes(t)[i] as int].fixed());
            assert(util::has_open(*cn, doms@, t));
            assert(active@.contains(t as usize));
            let q = active@.index_of(t as usize);
            assert(edges_cover(*cn, doms@, g, active@[q] as int));
            lemma_chosen_holds(*cn, doms@, g, id@, sol@, t, i, j);
        }
    }
    Some(sol)
}

/// The value that the numbering of the components chooses.
spec fn chosen(doms: Seq<DomainMask>, id: Seq<usize>, v: int) -> DomainMask {
    if doms[v].fixed() {
        doms[v]
    } else if id[lit(v, true)] < id[lit(v, false)] {
        DomainMask::D1
    } else {
        DomainMask::D0
    }
}

/// With the chosen values a constraint with two open variables holds.
proof fn lemma_chosen_holds(cn: ConstraintNetwork, doms: Seq<DomainMask>, g: Seq<Vec<usize>>, id: Seq<usize>, sol: Seq<DomainMask>, t: int, i: int, j: int)
    requires
        cn.wf(),
        doms.len() == cn.n(),
        g.len() == 2 * cn.n(),
        2 * cn.n() <= usize::MAX,
        scc::components_numbered(g, id),
        edges_mirrored(g),
        edges_cover(cn, doms, g, t),
        pair_open(cn, doms, t, i, j),
        sol.len() == doms.len(),
        forall|x: int| 0 <= x < doms.len() ==> #[trigger] sol[x] == chosen(doms, id, x),
        forall|x: int| 0 <= x < doms.len() && !(#[trigger] doms[x]).fixed() ==> id[lit(x, true)] != id[lit(x, false)],
    ensures
        cn.holds(t, canonicalize::decided(sol)),
{
    let a = canonicalize::decided(sol);
    let v1 = cn.axes(t)[i] as int;
    let v2 = cn.axes(t)[j] as int;
    assert(cn.tensor_wf(t));
    assert(!doms[cn.axes(t)[i] as int].fixed());
    assert(!doms[cn.axes(t)[j] as int].fixed());
    assert(v1 < cn.n() && v2 < cn.n());
    let b1 = a(v1);
    let b2 = a(v2);
    assert(agrees_fixed(doms, a)) by {
        assert forall|v: int| 0 <= v < doms.len() && (#[trigger] doms[v]).fixed() implies doms[v].allows(a(v)) by {
            assert(sol[v] == chosen(doms, id, v));
        }
    }
    lemma_filled(cn, doms, t, i, j, a);
    assert(sol[v1] == chosen(doms, id, v1));
    assert(sol[v2] == chosen(doms, id, v2));
    assert(id[lit(v1, true)] != id[lit(v1, false)]);
    assert(id[lit(v2, true)] != id[lit(v2, false)]);
    if !cn.holds(t, filled(doms, v1, b1, v2, b2)) {
        assert(scc::edge(g, lit(v1, b1), lit(v2, !b2)));
        assert(opposite(lit(v2, !b2)) == lit(v2, b2));
        assert(opposite(lit(v1, b1)) == lit(v1, !b1));
        lemma_mirror(g, lit(v1, b1), lit(v2, !b2));
        assert(scc::edge(g, lit(v2, b2), lit(v1, !b1)));
        assert(id[lit(v2, !b2)] <= id[lit(v1, b1)]);
        assert(id[lit(v1, !b1)] <= id[lit(v2, b2)]);
    }
}

/// Where every constraint leaves at most two variables open and the domains are
/// arc-consistent, the constraints with two open variables are all there is: an assignment
/// within the domains is a model exactly if they hold.
pub proof fn law_pairs_are_enough(cn: ConstraintNetwork, doms: Seq<DomainMask>, a: Asg)
    requires
        cn.wf(),
        ct::closed_under(cn, doms),
        two_left(cn, doms),
        models::consistent(doms, a),
    ensures
        cn.model(a) <==> pairs_hold(cn, doms, a),
{
    if pairs_hold(cn, doms, a) {
        assert forall|t: int| 0 <= t < cn.m() implies #[trigger] cn.holds(t, a) by {
            assert(cn.tensor_wf(t));
            assert(ct::consistent_at(cn, doms, t));
            let axes = cn.axes(t);
            if exists|i: int, j: int| pair_open(cn, doms, t, i, j) {
                let (i, j) = choose|i: int, j: int| pair_open(cn, doms, t, i, j);
                assert(pair_open(cn, doms, t, i, j));
            } else {
                // at most one variable is open: a row that has its value is the assignment
                let r = lemma_unit_row(cn, doms, t, a);
                assert(network::agrees(axes, cn.rows(t)[r] as u64, a)) by {
                    assert forall|k: int| 0 <= k < axes.len() implies bits::bit(cn.rows(t)[r] as u64, k) == a((#[trigger] axes[k]) as int) by {
                        let v = axes[k] as int;
                        assert(v < cn.n());
                        assert(doms[v].allows(a(v)));
                        assert(doms[v].allows(bits::bit(cn.rows(t)[r] as u64, k)));
                    }
                }
            }
        }
    }
    if cn.model(a) {
        assert forall|t: int, i: int, j: int| #[trigger] pair_open(cn, doms, t, i, j) implies cn.holds(t, a) by {}
    }
}

/// A row within the domains that has the value of the only open variable.
proof fn lemma_unit_row(cn: ConstraintNetwork, doms: Seq<DomainMask>, t: int, a: Asg) -> (r: int)
    requires
        cn.wf(),
        ct::closed_under(cn, doms),
        two_left(cn, doms),
        models::consistent(doms, a),
        0 <= t < cn.m(),
        forall|i: int, j: int| !pair_open(cn, doms, t, i, j),
    ensures
        0 <= r < cn.rows(t).len(),
        ct::admits(doms, cn.axes(t), cn.rows(t)[r] as u64),
        forall|k: int| 0 <= k < cn.axes(t).len() && !doms[(#[trigger] cn.axes(t)[k]) as int].fixed() ==> bits::bit(cn.rows(t)[r] as u64, k) == a(cn.axes(t)[k] as int),
{
    let axes = cn.axes(t);
    assert(cn.tensor_wf(t));
    assert(ct::consistent_at(cn, doms, t));
    if exists|k: int| 0 <= k < axes.len() && !doms[(#[trigger] axes[k]) as int].fixed() {
        let k = choose|k: int| 0 <= k < axes.len() && !doms[(#[trigger] axes[k]) as int].fixed();
        let b = a(axes[k] as int);
        assert(axes[k] < cn.n());
        assert(doms[axes[k] as int].allows(b));
        assert(ct::supported(cn, doms, t, k, b));
        let r = choose|r: int| 0 <= r < cn.rows(t).len() && ct::admits(doms, axes, #[trigger] cn.rows(t)[r] as u64) && bits::bit(cn.rows(t)[r] as u64, k) == b;
        assert forall|q: int| 0 <= q < axes.len() && !doms[(#[trigger] axes[q]) as int].fixed() implies bits::bit(cn.rows(t)[r] as u64, q) == a(axes[q] as int) by {
            if q != k {
                let (i, j) = if q < k {
                    (q, k)
                } else {
                    (k, q)
                };
                assert forall|x: int| 0 <= x < axes.len() implies doms[(#[trigger] axes[x]) as int].fixed() == (x != i && x != j) by {
                    if x != i && x != j && !doms[axes[x] as int].fixed() {
                        let (p0, p1, p2) = if x < i {
                            (x, i, j)
                        } else if x < j {
                            (i, x, j)
                        } else {
                            (i, j, x)
                        };
                        assert(doms[cn.axes(t)[p0] as int].fixed() || doms[cn.axes(t)[p1] as int].fixed() || doms[cn.axes(t)[p2] as int].fixed());
                    }
                }
                assert(pair_open(cn, doms, t, i, j));
            }
        }
        r
    } else {
        choose|r: int| 0 <= r < cn.rows(t).len() && ct::admits(doms, axes, #[trigger] cn.rows(t)[r] as u64)
    }
}

} // verus!
