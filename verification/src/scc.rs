//! Strongly connected components of a directed graph, by Tarjan's walk.
use vstd::prelude::*;

verus! {

/// A graph: for each node the list of its successors.
pub open spec fn graph_wf(g: Seq<Vec<usize>>) -> bool {
    forall|u: int, j: int| 0 <= u < g.len() && 0 <= j < g[u]@.len() ==> (#[trigger] g[u]@[j]) < g.len()
}

/// There is an edge.
pub open spec fn edge(g: Seq<Vec<usize>>, u: int, v: int) -> bool {
    0 <= u < g.len() && 0 <= v <= usize::MAX && g[u]@.contains(v as usize)
}

/// A walk along edges.
pub open spec fn walk(g: Seq<Vec<usize>>, p: Seq<int>) -> bool {
    &&& p.len() > 0
    &&& forall|i: int| 0 <= i < p.len() - 1 ==> edge(g, #[trigger] p[i], p[i + 1])
}

/// `v` can be reached from `u`.
pub open spec fn reach(g: Seq<Vec<usize>>, u: int, v: int) -> bool {
    exists|p: Seq<int>| #[trigger] walk(g, p) && p[0] == u && p.last() == v
}

pub proof fn lemma_reach_self(g: Seq<Vec<usize>>, u: int)
    ensures
        reach(g, u, u),
{
    assert(walk(g, seq![u]));
}

pub proof fn lemma_reach_edge(g: Seq<Vec<usize>>, u: int, v: int)
    requires
        edge(g, u, v),
    ensures
        reach(g, u, v),
{
    let p = seq![u, v];
    assert forall|i: int| 0 <= i < p.len() - 1 implies edge(g, #[trigger] p[i], p[i + 1]) by {
        assert(i == 0);
    }
    assert(walk(g, p));
}

pub proof fn lemma_reach_trans(g: Seq<Vec<usize>>, u: int, v: int, w: int)
    requires
        reach(g, u, v),
        reach(g, v, w),
    ensures
        reach(g, u, w),
{
    let p = choose|p: Seq<int>| #[trigger] walk(g, p) && p[0] == u && p.last() == v;
    let q = choose|q: Seq<int>| #[trigger] walk(g, q) && q[0] == v && q.last() == w;
    let r = p + q.skip(1);
    assert forall|i: int| 0 <= i < r.len() - 1 implies edge(g, #[trigger] r[i], r[i + 1]) by {
        if i < p.len() - 1 {
            assert(edge(g, p[i], p[i + 1]));
        } else {
            let j = i - (p.len() - 1);
            assert(edge(g, q[j], q[j + 1]));
        }
    }
    assert(r.last() == w) by {
        if q.len() == 1 {
        }
    }
    assert(walk(g, r));
}

/// Components: any two nodes with the same number reach each other, and no edge leads to a
/// higher number.
pub open spec fn components_numbered(g: Seq<Vec<usize>>, id: Seq<usize>) -> bool {
    &&& id.len() == g.len()
    &&& forall|u: int, v: int| 0 <= u < g.len() && 0 <= v < g.len() && #[trigger] id[u] == #[trigger] id[v] ==> reach(g, u, v)
    &&& forall|u: int, v: int| #[trigger] edge(g, u, v) && v < g.len() ==> id[v] <= id[u]
}

/// The state of the walk. A node that was not seen yet has the index `n`.
struct Tarjan {
    index: Vec<usize>,
    lowlink: Vec<usize>,
    on_stack: Vec<bool>,
    stack: Vec<usize>,
    next: usize,
    scc_id: Vec<usize>,
    sccs: usize,
}

impl Tarjan {
    spec fn seen(self, v: int) -> bool {
        self.index@[v] < self.index@.len()
    }

    spec fn done(self, v: int) -> bool {
        self.seen(v) && !self.on_stack@[v]
    }

    spec fn sized(self, n: int) -> bool {
        &&& self.index@.len() == n
        &&& self.lowlink@.len() == n
        &&& self.on_stack@.len() == n
        &&& self.scc_id@.len() == n
    }

    /// The stack holds the nodes that are marked, in the order of their indices.
    spec fn stacked(self, n: int) -> bool {
        &&& forall|p: int| 0 <= p < self.stack@.len() ==> (#[trigger] self.stack@[p]) < n && self.on_stack@[self.stack@[p] as int] && self.seen(self.stack@[p] as int)
        &&& forall|v: int| 0 <= v < n && #[trigger] self.on_stack@[v] ==> self.stack@.contains(v as usize)
        &&& forall|p: int, q: int| 0 <= p < q < self.stack@.len() ==> self.index@[#[trigger] self.stack@[p] as int] < self.index@[#[trigger] self.stack@[q] as int]
    }

    /// The finished components are closed, in order, and connected.
    spec fn closed(self, g: Seq<Vec<usize>>) -> bool {
        &&& forall|v: int| 0 <= v < g.len() && #[trigger] self.done(v) ==> self.scc_id@[v] < self.sccs
        &&& forall|u: int, v: int| #[trigger] edge(g, u, v) && self.done(u) ==> self.done(v) && self.scc_id@[v] <= self.scc_id@[u]
        &&& forall|u: int, v: int| 0 <= u < g.len() && 0 <= v < g.len() && #[trigger] self.done(u) && #[trigger] self.done(v) && self.scc_id@[u] == self.scc_id@[v] ==> reach(g, u, v)
    }

    spec fn inv(self, g: Seq<Vec<usize>>) -> bool {
        &&& self.sized(g.len() as int)
        &&& self.next <= g.len()
        &&& forall|v: int| 0 <= v < g.len() ==> #[trigger] self.index@[v] < self.next || self.index@[v] == g.len()
        &&& self.stacked(g.len() as int)
        &&& self.closed(g)
        &&& self.next + unseen(self.index@, g.len() as int) <= g.len()
        &&& self.sccs + unfinished(self, g.len() as int) <= g.len()
    }

    /// From `y` some node on the stack with the index `low` is reached.
    spec fn lands(self, g: Seq<Vec<usize>>, y: int, low: usize) -> bool {
        exists|q: int| 0 <= q < self.stack@.len() && self.index@[#[trigger] self.stack@[q] as int] == low && reach(g, y, self.stack@[q] as int)
    }

    /// Successor `u` of a node with this lowlink has been followed.
    spec fn followed(self, low: usize, u: int) -> bool {
        self.seen(u) && (self.on_stack@[u] ==> low <= self.index@[u])
    }

    /// All successors of a node on the stack have been followed, and it leads lower.
    spec fn finished(self, g: Seq<Vec<usize>>, y: int) -> bool {
        &&& self.lowlink@[y] < self.index@[y]
        &&& self.lands(g, y, self.lowlink@[y])
        &&& forall|u: int| #[trigger] edge(g, y, u) ==> self.followed(self.lowlink@[y], u)
    }

    /// From place `base` on, the stack holds finished nodes that `v` reaches, none leading
    /// lower than `low`.
    spec fn above(self, g: Seq<Vec<usize>>, base: int, v: int, low: usize) -> bool {
        forall|p: int| base <= p < self.stack@.len() ==> self.finished(g, #[trigger] self.stack@[p] as int) && low <= self.lowlink@[self.stack@[p] as int] && reach(g, v, self.stack@[p] as int)
    }

    /// What was seen stays as it was.
    spec fn extends(self, was: Tarjan) -> bool {
        &&& was.stack@.len() <= self.stack@.len()
        &&& forall|p: int| 0 <= p < was.stack@.len() ==> #[trigger] self.stack@[p] == was.stack@[p]
        &&& forall|v: int| 0 <= v < was.index@.len() && #[trigger] was.seen(v) ==> self.index@[v] == was.index@[v] && self.lowlink@[v] == was.lowlink@[v] && self.on_stack@[v] == was.on_stack@[v]
        &&& forall|v: int| 0 <= v < was.index@.len() && #[trigger] was.done(v) ==> self.scc_id@[v] == was.scc_id@[v]
        &&& was.index@.len() == self.index@.len()
        &&& unseen(self.index@, self.index@.len() as int) <= unseen(was.index@, was.index@.len() as int)
    }
}

/// How many nodes are not seen.
spec fn unseen(index: Seq<usize>, upto: int) -> nat
    decreases upto,
{
    if upto <= 0 {
        0
    } else {
        unseen(index, upto - 1) + (if index[upto - 1] == index.len() {
            1nat
        } else {
            0nat
        })
    }
}

/// How many nodes are not in a finished component.
spec fn unfinished(t: Tarjan, upto: int) -> nat
    decreases upto,
{
    if upto <= 0 {
        0
    } else {
        unfinished(t, upto - 1) + (if t.done(upto - 1) {
            0nat
        } else {
            1nat
        })
    }
}

proof fn lemma_unseen_write(index: Seq<usize>, v: int, x: usize, upto: int)
    requires
        0 <= v < index.len(),
        0 <= upto <= index.len(),
        index[v] == index.len(),
        x < index.len(),
    ensures
        unseen(index.update(v, x), upto) == unseen(index, upto) - (if v < upto {
            1int
        } else {
            0int
        }),
    decreases upto,
{
    if upto > 0 {
        lemma_unseen_write(index, v, x, upto - 1);
    }
}

/// Nodes that become finished are no longer counted.
proof fn lemma_unfinished_less(t: Tarjan, u: Tarjan, upto: int)
    requires
        0 <= upto,
        forall|v: int| 0 <= v < upto && #[trigger] t.done(v) ==> u.done(v),
    ensures
        unfinished(u, upto) <= unfinished(t, upto),
        (exists|v: int| 0 <= v < upto && !#[trigger] t.done(v) && u.done(v)) ==> unfinished(u, upto) < unfinished(t, upto),
    decreases upto,
{
    if upto > 0 {
        lemma_unfinished_less(t, u, upto - 1);
        if exists|v: int| 0 <= v < upto && !#[trigger] t.done(v) && u.done(v) {
            let v = choose|v: int| 0 <= v < upto && !#[trigger] t.done(v) && u.done(v);
            if v < upto - 1 {
                assert(!t.done(v) && u.done(v));
            }
        }
    }
}

proof fn lemma_unfinished_same(t: Tarjan, u: Tarjan, upto: int)
    requires
        0 <= upto,
        forall|v: int| 0 <= v < upto ==> #[trigger] t.done(v) == u.done(v),
    ensures
        unfinished(u, upto) == unfinished(t, upto),
    decreases upto,
{
    if upto > 0 {
        lemma_unfinished_same(t, u, upto - 1);
    }
}

/// A finished node stays finished as the stack grows or loses what is above it.
proof fn lemma_finished_later(g: Seq<Vec<usize>>, t: Tarjan, u: Tarjan, y: int, keep: int)
    requires
        graph_wf(g),
        t.inv(g),
        u.sized(g.len() as int),
        0 <= y < g.len(),
        t.finished(g, y),
        0 <= keep <= t.stack@.len(),
        keep <= u.stack@.len(),
        forall|p: int| 0 <= p < keep ==> #[trigger] u.stack@[p] == t.stack@[p],
        exists|p: int| 0 <= p < keep && (#[trigger] t.stack@[p]) as int == y,
        forall|v: int| 0 <= v < g.len() && #[trigger] t.seen(v) ==> u.index@[v] == t.index@[v] && (u.on_stack@[v] ==> t.on_stack@[v]),
        u.lowlink@[y] == t.lowlink@[y],
    ensures
        u.finished(g, y),
{
    let p = choose|p: int| 0 <= p < keep && (#[trigger] t.stack@[p]) as int == y;
    assert(t.seen(t.stack@[p] as int));
    let q = choose|q: int| 0 <= q < t.stack@.len() && t.index@[#[trigger] t.stack@[q] as int] == t.lowlink@[y] && reach(g, y, t.stack@[q] as int);
    assert(q < p) by {
        if q > p {
            assert(t.index@[t.stack@[p] as int] < t.index@[t.stack@[q] as int]);
        }
    }
    assert(u.stack@[q] == t.stack@[q]);
    assert(t.seen(t.stack@[q] as int));
    assert(u.lands(g, y, u.lowlink@[y]));
    assert forall|x: int| #[trigger] edge(g, y, x) implies u.followed(u.lowlink@[y], x) by {
        assert(t.followed(t.lowlink@[y], x));
        let j = g[y]@.index_of(x as usize);
        assert(g[y]@[j] < g.len());
        assert(t.seen(x));
    }
}

/// From every node above the root of a component, the root is reached.
proof fn lemma_back_to_root(g: Seq<Vec<usize>>, t: Tarjan, base: int, v: int, p: int)
    requires
        t.inv(g),
        0 <= base < t.stack@.len(),
        t.stack@[base] as int == v,
        t.lowlink@[v] == t.index@[v],
        t.above(g, base + 1, v, t.lowlink@[v]),
        base <= p < t.stack@.len(),
    ensures
        reach(g, t.stack@[p] as int, v),
    decreases p,
{
    if p == base {
        lemma_reach_self(g, v);
    } else {
        let y = t.stack@[p] as int;
        assert(t.finished(g, y));
        let q = choose|q: int| 0 <= q < t.stack@.len() && t.index@[#[trigger] t.stack@[q] as int] == t.lowlink@[y] && reach(g, y, t.stack@[q] as int);
        assert(q < p) by {
            if q > p {
                assert(t.index@[t.stack@[p] as int] < t.index@[t.stack@[q] as int]);
            }
        }
        assert(q >= base) by {
            if q < base {
                assert(t.index@[t.stack@[q] as int] < t.index@[t.stack@[base] as int]);
            }
        }
        lemma_back_to_root(g, t, base, v, q);
        lemma_reach_trans(g, y, t.stack@[q] as int, v);
    }
}

/// Taking a component off the stack keeps the state in order.
proof fn lemma_component(g: Seq<Vec<usize>>, t: Tarjan, u: Tarjan, base: int, v: int)
    requires
        graph_wf(g),
        t.inv(g),
        0 <= base < t.stack@.len(),
        t.stack@[base] as int == v,
        t.lowlink@[v] == t.index@[v],
        t.above(g, base + 1, v, t.lowlink@[v]),
        forall|x: int| #[trigger] edge(g, v, x) ==> t.followed(t.lowlink@[v], x),
        u.index@ == t.index@,
        u.lowlink@ == t.lowlink@,
        u.next == t.next,
        u.sccs == t.sccs + 1,
        u.sized(g.len() as int),
        u.stack@ == t.stack@.take(base),
        forall|x: int| 0 <= x < g.len() ==> #[trigger] u.on_stack@[x] == (t.on_stack@[x] && !in_top(t.stack@, base, x)),
        forall|x: int| 0 <= x < g.len() ==> #[trigger] u.scc_id@[x] == (if in_top(t.stack@, base, x) {
            t.sccs
        } else {
            t.scc_id@[x]
        }),
    ensures
        u.inv(g),
{
    let n = g.len() as int;
    assert forall|x: int| 0 <= x < n && in_top(t.stack@, base, x) implies #[trigger] t.on_stack@[x] && t.seen(x) by {
        let p = choose|p: int| base <= p < t.stack@.len() && (#[trigger] t.stack@[p]) as int == x;
        assert(t.on_stack@[t.stack@[p] as int]);
    }
    assert forall|x: int| 0 <= x < n implies #[trigger] u.done(x) == (t.done(x) || in_top(t.stack@, base, x)) by {
        if in_top(t.stack@, base, x) {
            assert(t.on_stack@[x]);
        }
        assert(u.on_stack@[x] == (t.on_stack@[x] && !in_top(t.stack@, base, x)));
    }
    assert(u.stacked(n)) by {
        assert forall|p: int| 0 <= p < u.stack@.len() implies (#[trigger] u.stack@[p]) < n && u.on_stack@[u.stack@[p] as int] && u.seen(u.stack@[p] as int) by {
            assert(u.stack@[p] == t.stack@[p]);
            let x = t.stack@[p] as int;
            assert(t.on_stack@[x]);
            if in_top(t.stack@, base, x) {
                let q = choose|q: int| base <= q < t.stack@.len() && (#[trigger] t.stack@[q]) as int == x;
                assert(t.index@[t.stack@[p] as int] < t.index@[t.stack@[q] as int]);
            }
        }
        assert forall|x: int| 0 <= x < n && #[trigger] u.on_stack@[x] implies u.stack@.contains(x as usize) by {
            assert(t.on_stack@[x]);
            assert(t.stack@.contains(x as usize));
            let p = t.stack@.index_of(x as usize);
            if p >= base {
                assert(t.stack@[p] < n);
                assert(t.stack@[p] as int == x) by {
                    assert(t.index.len() == n);
                }
                assert(in_top(t.stack@, base, x));
            }
            assert(u.stack@[p] == x as usize);
        }
        assert forall|p: int, q: int| 0 <= p < q < u.stack@.len() implies u.index@[#[trigger] u.stack@[p] as int] < u.index@[#[trigger] u.stack@[q] as int] by {
            assert(u.stack@[p] == t.stack@[p] && u.stack@[q] == t.stack@[q]);
            assert(t.index@[t.stack@[p] as int] < t.index@[t.stack@[q] as int]);
        }
    }
    assert forall|x: int| 0 <= x < n && #[trigger] u.done(x) implies u.scc_id@[x] < u.sccs by {
        if !in_top(t.stack@, base, x) {
            assert(t.done(x));
        }
        assert(u.scc_id@[x] == (if in_top(t.stack@, base, x) {
            t.sccs
        } else {
            t.scc_id@[x]
        }));
    }
    assert forall|x: int, y: int| #[trigger] edge(g, x, y) && u.done(x) implies u.done(y) && u.scc_id@[y] <= u.scc_id@[x] by {
        let j = g[x]@.index_of(y as usize);
        assert(g[x]@[j] < n);
        assert(u.scc_id@[x] == (if in_top(t.stack@, base, x) {
            t.sccs
        } else {
            t.scc_id@[x]
        }));
        assert(u.scc_id@[y] == (if in_top(t.stack@, base, y) {
            t.sccs
        } else {
            t.scc_id@[y]
        }));
        assert(u.done(x) == (t.done(x) || in_top(t.stack@, base, x)));
        assert(u.done(y) == (t.done(y) || in_top(t.stack@, base, y)));
        if in_top(t.stack@, base, x) {
            let p = choose|p: int| base <= p < t.stack@.len() && (#[trigger] t.stack@[p]) as int == x;
            let low = if p == base {
                t.lowlink@[v]
            } else {
                assert(t.finished(g, t.stack@[p] as int));
                t.lowlink@[x]
            };
            assert(t.followed(low, y));
            if t.on_stack@[y] {
                assert(t.stack@.contains(y as usize));
                let q = t.stack@.index_of(y as usize);
                if q < base {
                    assert(t.index@[t.stack@[q] as int] < t.index@[t.stack@[base] as int]);
                }
                assert(in_top(t.stack@, base, y));
            } else {
                assert(t.done(y));
                assert(t.scc_id@[y] < t.sccs);
            }
        } else {
            assert(t.done(x));
            assert(t.done(y));
            assert(!in_top(t.stack@, base, y)) by {
                if in_top(t.stack@, base, y) {
                    assert(t.on_stack@[y]);
                }
            }
        }
    }
    assert forall|x: int, y: int| 0 <= x < n && 0 <= y < n && #[trigger] u.done(x) && #[trigger] u.done(y) && u.scc_id@[x] == u.scc_id@[y] implies reach(g, x, y) by {
        assert(u.scc_id@[x] == (if in_top(t.stack@, base, x) {
            t.sccs
        } else {
            t.scc_id@[x]
        }));
        assert(u.scc_id@[y] == (if in_top(t.stack@, base, y) {
            t.sccs
        } else {
            t.scc_id@[y]
        }));
        if in_top(t.stack@, base, x) && in_top(t.stack@, base, y) {
            let p = choose|p: int| base <= p < t.stack@.len() && (#[trigger] t.stack@[p]) as int == x;
            let q = choose|q: int| base <= q < t.stack@.len() && (#[trigger] t.stack@[q]) as int == y;
            lemma_back_to_root(g, t, base, v, p);
            if q == base {
            } else {
                assert(t.finished(g, t.stack@[q] as int));
                assert(reach(g, v, y));
                lemma_reach_trans(g, x, v, y);
            }
        } else if in_top(t.stack@, base, x) {
            assert(t.done(y));
            assert(t.scc_id@[y] < t.sccs);
        } else if in_top(t.stack@, base, y) {
            assert(t.done(x));
            assert(t.scc_id@[x] < t.sccs);
        } else {
            assert(t.done(x) && t.done(y));
        }
    }
    assert(unfinished(u, n) < unfinished(t, n)) by {
        assert(t.on_stack@[t.stack@[base] as int]);
        assert(in_top(t.stack@, base, v));
        assert(!t.done(v) && u.done(v));
        lemma_unfinished_less(t, u, n);
    }
}

/// `x` is on the stack at `base` or above.
spec fn in_top(stack: Seq<usize>, base: int, x: int) -> bool {
    exists|p: int| base <= p < stack.len() && (#[trigger] stack[p]) as int == x
}

/// The walk from a new node.
proof fn lemma_entered(g: Seq<Vec<usize>>, t: Tarjan, u: Tarjan, v: int)
    requires
        graph_wf(g),
        t.inv(g),
        0 <= v < g.len(),
        !t.seen(v),
        u.index@ == t.index@.update(v, t.next),
        u.lowlink@ == t.lowlink@.update(v, t.next),
        u.on_stack@ == t.on_stack@.update(v, true),
        u.stack@ == t.stack@.push(v as usize),
        u.next == t.next + 1,
        u.scc_id@ == t.scc_id@,
        u.sccs == t.sccs,
        t.next < g.len(),
    ensures
        u.inv(g),
        u.extends(t),
        u.lands(g, v, u.lowlink@[v]),
        unseen(u.index@, g.len() as int) < unseen(t.index@, g.len() as int),
{
    let n = g.len() as int;
    let k = t.stack@.len() as int;
    assert(t.index.len() == n);
    assert(!t.on_stack@[v]) by {
        if t.on_stack@[v] {
            assert(t.stack@.contains(v as usize));
            let p = t.stack@.index_of(v as usize);
            assert(t.seen(t.stack@[p] as int));
        }
    }
    lemma_unseen_write(t.index@, v, t.next, n);
    assert forall|x: int| 0 <= x < n implies #[trigger] t.done(x) == u.done(x) by {
        assert(t.index@[x] < t.next || t.index@[x] == n);
    }
    lemma_unfinished_same(t, u, n);
    assert(u.stack@[k] as int == v);
    assert(u.stacked(n)) by {
        assert forall|p: int| 0 <= p < u.stack@.len() implies (#[trigger] u.stack@[p]) < n && u.on_stack@[u.stack@[p] as int] && u.seen(u.stack@[p] as int) by {
            if p < k {
                assert(u.stack@[p] == t.stack@[p]);
                assert(t.seen(t.stack@[p] as int));
            }
        }
        assert forall|x: int| 0 <= x < n && #[trigger] u.on_stack@[x] implies u.stack@.contains(x as usize) by {
            if x == v {
                assert(u.stack@[k] == x as usize);
            } else {
                assert(t.on_stack@[x]);
                let p = t.stack@.index_of(x as usize);
                assert(u.stack@[p] == x as usize);
            }
        }
        assert forall|p: int, q: int| 0 <= p < q < u.stack@.len() implies u.index@[#[trigger] u.stack@[p] as int] < u.index@[#[trigger] u.stack@[q] as int] by {
            assert(u.stack@[p] == t.stack@[p]);
            assert(t.seen(t.stack@[p] as int));
            let x = t.stack@[p] as int;
            assert(t.index@[x] < t.next || t.index@[x] == n);
            if q < k {
                assert(u.stack@[q] == t.stack@[q]);
                assert(t.seen(t.stack@[q] as int));
                assert(t.index@[t.stack@[p] as int] < t.index@[t.stack@[q] as int]);
            }
        }
    }
    assert(u.closed(g)) by {
        assert forall|x: int| 0 <= x < n && #[trigger] u.done(x) implies u.scc_id@[x] < u.sccs by {
            assert(t.done(x));
        }
        assert forall|x: int, y: int| #[trigger] edge(g, x, y) && u.done(x) implies u.done(y) && u.scc_id@[y] <= u.scc_id@[x] by {
            assert(t.done(x));
            let j = g[x]@.index_of(y as usize);
            assert(g[x]@[j] < n);
            assert(t.done(y));
        }
        assert forall|x: int, y: int| 0 <= x < n && 0 <= y < n && #[trigger] u.done(x) && #[trigger] u.done(y) && u.scc_id@[x] == u.scc_id@[y] implies reach(g, x, y) by {
            assert(t.done(x) && t.done(y));
        }
    }
    assert forall|x: int| 0 <= x < n implies #[trigger] u.index@[x] < u.next || u.index@[x] == n by {
        assert(t.index@[x] < t.next || t.index@[x] == n);
    }
    assert forall|x: int| 0 <= x < n && #[trigger] t.seen(x) implies u.index@[x] == t.index@[x] && u.lowlink@[x] == t.lowlink@[x] && u.on_stack@[x] == t.on_stack@[x] by {
        assert(x != v);
    }
    lemma_reach_self(g, v);
    assert(u.index@[u.stack@[k] as int] == u.lowlink@[v]);
}

/// A state in which only the lowlink of one node changed.
proof fn lemma_lowered(g: Seq<Vec<usize>>, t: Tarjan, u: Tarjan, v: int)
    requires
        t.inv(g),
        0 <= v < g.len(),
        u == (Tarjan { lowlink: u.lowlink, ..t }),
        u.lowlink@.len() == g.len(),
    ensures
        u.inv(g),
{
    let n = g.len() as int;
    assert forall|x: int| 0 <= x < n implies #[trigger] t.done(x) == u.done(x) by {}
    lemma_unfinished_same(t, u, n);
    assert(u.stacked(n)) by {
        assert forall|p: int| 0 <= p < u.stack@.len() implies (#[trigger] u.stack@[p]) < n && u.on_stack@[u.stack@[p] as int] && u.seen(u.stack@[p] as int) by {
            assert(t.seen(t.stack@[p] as int));
        }
    }
    assert(u.closed(g)) by {
        assert forall|x: int| 0 <= x < n && #[trigger] u.done(x) implies u.scc_id@[x] < u.sccs by {
            assert(t.done(x));
        }
        assert forall|x: int, y: int| #[trigger] edge(g, x, y) && u.done(x) implies u.done(y) && u.scc_id@[y] <= u.scc_id@[x] by {
            assert(t.done(x));
            assert(t.done(y));
        }
        assert forall|x: int, y: int| 0 <= x < n && 0 <= y < n && #[trigger] u.done(x) && #[trigger] u.done(y) && u.scc_id@[x] == u.scc_id@[y] implies reach(g, x, y) by {
            assert(t.done(x) && t.done(y));
        }
    }
}

/// While the successors of `v` at place `base` are followed: the first `k` have been.
spec fn walking(g: Seq<Vec<usize>>, t: Tarjan, base: int, v: int, k: int) -> bool {
    &&& t.inv(g)
    &&& base < t.stack@.len()
    &&& t.stack@[base] as int == v
    &&& t.lowlink@[v] <= t.index@[v]
    &&& t.seen(v)
    &&& t.lands(g, v, t.lowlink@[v])
    &&& t.above(g, base + 1, v, t.lowlink@[v])
    &&& forall|j: int| 0 <= j < k ==> t.followed(t.lowlink@[v], (#[trigger] g[v]@[j]) as int)
}

/// Lowering the lowlink of the node in hand to what a followed successor leads to.
proof fn lemma_follow(g: Seq<Vec<usize>>, t: Tarjan, u: Tarjan, base: int, v: int, k: int, low: usize)
    requires
        graph_wf(g),
        0 <= v < g.len(),
        0 <= base,
        0 <= k < g[v]@.len(),
        walking(g, t, base, v, k),
        u == (Tarjan { lowlink: u.lowlink, ..t }),
        u.lowlink@ == t.lowlink@.update(v, low),
        low <= t.lowlink@[v],
        t.lands(g, v, low),
        t.followed(low, g[v]@[k] as int),
    ensures
        walking(g, u, base, v, k + 1),
{
    let n = g.len() as int;
    lemma_lowered(g, t, u, v);
    assert(u.lands(g, v, low)) by {
        let q = choose|q: int| 0 <= q < t.stack@.len() && t.index@[#[trigger] t.stack@[q] as int] == low && reach(g, v, t.stack@[q] as int);
        assert(u.index@[u.stack@[q] as int] == low);
    }
    assert(u.above(g, base + 1, v, low)) by {
        assert forall|p: int| base + 1 <= p < u.stack@.len() implies u.finished(g, #[trigger] u.stack@[p] as int) && low <= u.lowlink@[u.stack@[p] as int] && reach(g, v, u.stack@[p] as int) by {
            let y = t.stack@[p] as int;
            assert(t.finished(g, t.stack@[p] as int));
            assert(t.index@[t.stack@[base] as int] < t.index@[t.stack@[p] as int]);
            assert(y != v);
            lemma_finished_later(g, t, u, y, t.stack@.len() as int);
        }
    }
    assert forall|j: int| 0 <= j < k + 1 implies u.followed(low, (#[trigger] g[v]@[j]) as int) by {
        assert(g[v]@[j] < n);
        if j < k {
            assert(t.followed(t.lowlink@[v], g[v]@[j] as int));
        }
    }
}

/// After the walk from a successor, the node in hand is where it was.
proof fn lemma_returned(g: Seq<Vec<usize>>, t: Tarjan, u: Tarjan, base: int, v: int, k: int, w: int)
    requires
        graph_wf(g),
        0 <= v < g.len(),
        0 <= base,
        0 <= k < g[v]@.len(),
        w == g[v]@[k] as int,
        walking(g, t, base, v, k),
        !t.seen(w),
        u.inv(g),
        u.extends(t),
        u.seen(w),
        u.stack@.len() > t.stack@.len() ==> u.stack@[t.stack@.len() as int] as int == w && u.above(g, t.stack@.len() as int, w, u.lowlink@[w]),
        u.stack@.len() == t.stack@.len() ==> !u.on_stack@[w] && u.lowlink@[w] == u.index@[w],
        u.on_stack@[w] ==> u.stack@.len() > t.stack@.len(),
        u.index@[w] >= t.next,
    ensures
        u.lowlink@[v] == t.lowlink@[v],
        u.index@[v] == t.index@[v],
        u.stack@[base] as int == v,
        u.seen(v),
        u.lands(g, v, t.lowlink@[v]),
        u.on_stack@[w] ==> u.lowlink@[w] < u.index@[w] && u.lands(g, v, u.lowlink@[w]),
        !u.on_stack@[w] ==> u.lowlink@[w] >= u.lowlink@[v],
        u.above(g, base + 1, v, if u.on_stack@[w] && u.lowlink@[w] < t.lowlink@[v] {
            u.lowlink@[w]
        } else {
            t.lowlink@[v]
        }),
        forall|j: int| 0 <= j < k ==> u.followed(t.lowlink@[v], (#[trigger] g[v]@[j]) as int),
{
    let n = g.len() as int;
    let h = t.stack@.len() as int;
    let low = if u.on_stack@[w] && u.lowlink@[w] < t.lowlink@[v] {
        u.lowlink@[w]
    } else {
        t.lowlink@[v]
    };
    assert(t.seen(v));
    assert(u.stack@[base] == t.stack@[base]);
    assert(g[v]@[k] < n);
    assert(edge(g, v, w)) by {
        assert(g[v]@.contains(g[v]@[k]));
    }
    lemma_reach_edge(g, v, w);
    assert(u.lands(g, v, t.lowlink@[v])) by {
        let q = choose|q: int| 0 <= q < t.stack@.len() && t.index@[#[trigger] t.stack@[q] as int] == t.lowlink@[v] && reach(g, v, t.stack@[q] as int);
        assert(u.stack@[q] == t.stack@[q]);
        assert(t.seen(t.stack@[q] as int));
        assert(u.index@[u.stack@[q] as int] == t.lowlink@[v]);
    }
    if u.on_stack@[w] {
        assert(u.finished(g, u.stack@[h] as int));
        let q = choose|q: int| 0 <= q < u.stack@.len() && u.index@[#[trigger] u.stack@[q] as int] == u.lowlink@[w] && reach(g, w, u.stack@[q] as int);
        lemma_reach_trans(g, v, w, u.stack@[q] as int);
        assert(u.lands(g, v, u.lowlink@[w]));
    } else {
        assert(t.index@[v] < t.next || t.index@[v] == n);
        if u.stack@.len() > h {
            assert(u.on_stack@[u.stack@[h] as int]);
        }
    }
    assert forall|p: int| base + 1 <= p < u.stack@.len() implies u.finished(g, #[trigger] u.stack@[p] as int) && low <= u.lowlink@[u.stack@[p] as int] && reach(g, v, u.stack@[p] as int) by {
        if p < h {
            assert(u.stack@[p] == t.stack@[p]);
            let y = t.stack@[p] as int;
            assert(t.finished(g, t.stack@[p] as int));
            assert(t.seen(t.stack@[p] as int));
            assert forall|x: int| 0 <= x < n && #[trigger] t.seen(x) implies u.index@[x] == t.index@[x] && (u.on_stack@[x] ==> t.on_stack@[x]) by {}
            lemma_finished_later(g, t, u, y, h);
        } else {
            assert(u.finished(g, u.stack@[p] as int));
            assert(u.on_stack@[u.stack@[h] as int]);
            assert(u.lowlink@[w] <= u.lowlink@[u.stack@[p] as int]);
            lemma_reach_trans(g, v, w, u.stack@[p] as int);
        }
    }
    assert forall|j: int| 0 <= j < k implies u.followed(t.lowlink@[v], (#[trigger] g[v]@[j]) as int) by {
        assert(g[v]@[j] < n);
        assert(t.followed(t.lowlink@[v], g[v]@[j] as int));
        assert(t.seen(g[v]@[j] as int));
    }
}

impl Tarjan {
    /// Walk from a node that was not seen.
    #[verifier::rlimit(40)]
    fn strongconnect(&mut self, graph: &[Vec<usize>], v: usize)
        requires
            graph_wf(graph@),
            old(self).inv(graph@),
            v < graph@.len(),
            !old(self).seen(v as int),
        ensures
            final(self).inv(graph@),
            final(self).extends(*old(self)),
            final(self).seen(v as int),
            final(self).index@[v as int] >= old(self).next,
            final(self).stack@.len() > old(self).stack@.len() ==> final(self).stack@[old(self).stack@.len() as int] == v && final(self).above(graph@, old(self).stack@.len() as int, v as int, final(self).lowlink@[v as int]),
            final(self).stack@.len() == old(self).stack@.len() ==> !final(self).on_stack@[v as int] && final(self).lowlink@[v as int] == final(self).index@[v as int],
            final(self).on_stack@[v as int] ==> final(self).stack@.len() > old(self).stack@.len(),
        decreases unseen(old(self).index@, graph@.len() as int),
    {
        let ghost g = graph@;
        let ghost t0 = *self;
        let ghost base = t0.stack@.len() as int;
        let ghost n = g.len() as int;
        proof {
            assert(self.next < g.len()) by {
                lemma_unseen_positive(t0.index@, v as int, n);
            }
        }
        self.index.set(v, self.next);
        self.lowlink.set(v, self.next);
        self.next = self.next + 1;
        self.stack.push(v);
        self.on_stack.set(v, true);
        proof {
            lemma_entered(g, t0, *self, v as int);
            assert(walking(g, *self, base, v as int, 0));
        }
        let mut k: usize = 0;
        while k < graph[v].len()
            invariant
                g == graph@,
                graph_wf(g),
                v < g.len(),
                n == g.len(),
                t0 == *old(self),
                t0.inv(g),
                !t0.seen(v as int),
                base == t0.stack@.len(),
                k <= g[v as int]@.len(),
                walking(g, *self, base, v as int, k as int),
                self.extends(t0),
                self.index@[v as int] >= t0.next,
                unseen(self.index@, n) < unseen(t0.index@, n),
            decreases g[v as int]@.len() - k,
        {
            let w: usize = graph[v][k];
            let ghost t1 = *self;
            proof {
                assert(g[v as int]@[k as int] < g.len());
                assert(t1.index.len() == n);
            }
            if self.index[w] == graph.len() {
                self.strongconnect(graph, w);
                let ghost t2 = *self;
                proof {
                    lemma_returned(g, t1, t2, base, v as int, k as int, w as int);
                    lemma_extends_trans(t0, t1, t2);
                }
                if self.lowlink[w] < self.lowlink[v] {
                    let low: usize = self.lowlink[w];
                    self.lowlink.set(v, low);
                }
                proof {
                    let low = self.lowlink@[v as int];
                    if t2.on_stack@[w as int] && t2.lowlink@[w as int] < t1.lowlink@[v as int] {
                        assert(low == t2.lowlink@[w as int]);
                    } else {
                        assert(low == t1.lowlink@[v as int]);
                    }
                    assert(self.lowlink@ =~= t2.lowlink@.update(v as int, low));
                    lemma_lowered_walk(g, t2, *self, base, v as int, k as int, low, w as int);
                    lemma_extends_lowered(t0, t2, *self, v as int);
                }
            } else if self.on_stack[w] {
                if self.index[w] < self.lowlink[v] {
                    let low: usize = self.index[w];
                    self.lowlink.set(v, low);
                }
                proof {
                    let low = self.lowlink@[v as int];
                    assert(self.lowlink@ =~= t1.lowlink@.update(v as int, low));
                    assert(edge(g, v as int, w as int)) by {
                        assert(g[v as int]@.contains(g[v as int]@[k as int]));
                    }
                    lemma_reach_edge(g, v as int, w as int);
                    assert(t1.stack@.contains(w));
                    let q = t1.stack@.index_of(w);
                    assert(t1.index@[t1.stack@[q] as int] == t1.index@[w as int]);
                    if low != t1.lowlink@[v as int] {
                        assert(t1.lands(g, v as int, low));
                    }
                    assert(t1.index@[w as int] < t1.next || t1.index@[w as int] == n);
                    assert(t1.followed(low, w as int));
                    lemma_follow(g, t1, *self, base, v as int, k as int, low);
                    lemma_extends_lowered(t0, t1, *self, v as int);
                }
            } else {
                proof {
                    assert(t1.followed(t1.lowlink@[v as int], w as int)) by {
                        assert(t1.index@[w as int] < t1.next || t1.index@[w as int] == n);
                    }
                    assert(t1.lowlink@ =~= t1.lowlink@.update(v as int, t1.lowlink@[v as int]));
                    lemma_follow(g, t1, *self, base, v as int, k as int, t1.lowlink@[v as int]);
                }
            }
            k += 1;
        }
        let ghost t3 = *self;
        proof {
            assert forall|x: int| #[trigger] edge(g, v as int, x) implies t3.followed(t3.lowlink@[v as int], x) by {
                let j = g[v as int]@.index_of(x as usize);
                assert(t3.followed(t3.lowlink@[v as int], g[v as int]@[j] as int));
            }
        }
        if self.lowlink[v] == self.index[v] {
            let id: usize = self.sccs;
            proof {
                assert(t3.on_stack@[t3.stack@[base] as int]);
                assert(!t3.done(v as int));
                lemma_unfinished_positive(t3, v as int, n);
            }
            let mut going = true;
            while going
                invariant
                    g == graph@,
                    n == g.len(),
                    v < n,
                    0 <= base < t3.stack@.len(),
                    t3.stack@[base] == v,
                    t3.sized(n),
                    t3.stacked(n),
                    id == t3.sccs,
                    self.index == t3.index,
                    self.lowlink == t3.lowlink,
                    self.next == t3.next,
                    self.sccs == t3.sccs,
                    self.sized(n),
                    base <= self.stack@.len() <= t3.stack@.len(),
                    self.stack@ == t3.stack@.take(self.stack@.len() as int),
                    going <==> self.stack@.len() > base,
                    forall|x: int| 0 <= x < n ==> #[trigger] self.on_stack@[x] == (t3.on_stack@[x] && !in_top(t3.stack@, self.stack@.len() as int, x)),
                    forall|x: int| 0 <= x < n ==> #[trigger] self.scc_id@[x] == (if in_top(t3.stack@, self.stack@.len() as int, x) {
                        id
                    } else {
                        t3.scc_id@[x]
                    }),
                decreases self.stack@.len(),
            {
                let ghost m = self.stack@.len() as int;
                let ghost was = *self;
                proof {
                    assert(self.stack@[m - 1] == t3.stack@[m - 1]);
                }
                let w: usize = match self.stack.pop() {
                    Some(w) => w,
                    None => v,
                };
                proof {
                    assert(w == t3.stack@[m - 1]);
                    assert(w < n);
                    assert forall|x: int| in_top(t3.stack@, m - 1, x) <==> (#[trigger] in_top(t3.stack@, m, x) || x == w) by {
                        if in_top(t3.stack@, m - 1, x) {
                            let q = choose|q: int| m - 1 <= q < t3.stack@.len() && (#[trigger] t3.stack@[q]) as int == x;
                            if q >= m {
                                assert(in_top(t3.stack@, m, x));
                            }
                        }
                        if in_top(t3.stack@, m, x) {
                            let q = choose|q: int| m <= q < t3.stack@.len() && (#[trigger] t3.stack@[q]) as int == x;
                            assert(t3.stack@[q] as int == x);
                        }
                    }
                }
                self.on_stack.set(w, false);
                self.scc_id.set(w, id);
                proof {
                    assert(self.stack@ =~= t3.stack@.take(m - 1));
                    assert forall|x: int| 0 <= x < n implies #[trigger] self.on_stack@[x] == (t3.on_stack@[x] && !in_top(t3.stack@, m - 1, x)) by {
                        assert(was.on_stack@[x] == (t3.on_stack@[x] && !in_top(t3.stack@, m, x)));
                    }
                    assert forall|x: int| 0 <= x < n implies #[trigger] self.scc_id@[x] == (if in_top(t3.stack@, m - 1, x) {
                        id
                    } else {
                        t3.scc_id@[x]
                    }) by {
                        assert(was.scc_id@[x] == (if in_top(t3.stack@, m, x) {
                            id
                        } else {
                            t3.scc_id@[x]
                        }));
                    }
                    if w == v && m - 1 > base {
                        assert(t3.index@[t3.stack@[base] as int] < t3.index@[t3.stack@[m - 1] as int]);
                    }
                }
                going = w != v;
            }
            self.sccs = self.sccs + 1;
            proof {
                lemma_component(g, t3, *self, base, v as int);
                assert(in_top(t3.stack@, base, v as int));
                assert(t0.extends_to(*self)) by {
                    assert forall|p: int| 0 <= p < t0.stack@.len() implies #[trigger] self.stack@[p] == t0.stack@[p] by {
                        assert(t3.stack@[p] == t0.stack@[p]);
                    }
                    assert forall|x: int| 0 <= x < n && #[trigger] t0.seen(x) implies self.index@[x] == t0.index@[x] && self.lowlink@[x] == t0.lowlink@[x] && self.on_stack@[x] == t0.on_stack@[x] by {
                        assert(t3.index@[x] == t0.index@[x]);
                        if t0.on_stack@[x] {
                            assert(!in_top(t3.stack@, base, x)) by {
                                if in_top(t3.stack@, base, x) {
                                    let q = choose|q: int| base <= q < t3.stack@.len() && (#[trigger] t3.stack@[q]) as int == x;
                                    assert(t0.index.len() == n);
                                    assert(t0.stack@.contains(x as usize));
                                    let p = t0.stack@.index_of(x as usize);
                                    assert(t3.stack@[p] == t0.stack@[p]);
                                    assert(t3.index@[t3.stack@[p] as int] < t3.index@[t3.stack@[q] as int]);
                                }
                            }
                        }
                    }
                    assert forall|x: int| 0 <= x < n && #[trigger] t0.done(x) implies self.scc_id@[x] == t0.scc_id@[x] by {
                        assert(t0.seen(x));
                        assert(t3.on_stack@[x] == t0.on_stack@[x]);
                        if in_top(t3.stack@, base, x) {
                            let q = choose|q: int| base <= q < t3.stack@.len() && (#[trigger] t3.stack@[q]) as int == x;
                            assert(t3.on_stack@[t3.stack@[q] as int]);
                        }
                    }
                }
            }
        } else {
            proof {
                assert(t3.finished(g, v as int));
                assert forall|p: int| base <= p < t3.stack@.len() implies t3.finished(g, #[trigger] t3.stack@[p] as int) && t3.lowlink@[v as int] <= t3.lowlink@[t3.stack@[p] as int] && reach(g, v as int, t3.stack@[p] as int) by {
                    if p == base {
                        lemma_reach_self(g, v as int);
                    }
                }
            }
        }
    }
}

impl Tarjan {
    spec fn extends_to(self, later: Tarjan) -> bool {
        later.extends(self)
    }
}

proof fn lemma_unseen_positive(index: Seq<usize>, v: int, upto: int)
    requires
        0 <= v < upto <= index.len(),
        index[v] >= index.len(),
        forall|x: int| 0 <= x < index.len() ==> #[trigger] index[x] <= index.len(),
    ensures
        unseen(index, upto) > 0,
    decreases upto,
{
    if v < upto - 1 {
        lemma_unseen_positive(index, v, upto - 1);
    }
}

proof fn lemma_unfinished_positive(t: Tarjan, v: int, upto: int)
    requires
        0 <= v < upto,
        !t.done(v),
    ensures
        unfinished(t, upto) > 0,
    decreases upto,
{
    if v < upto - 1 {
        lemma_unfinished_positive(t, v, upto - 1);
    }
}

proof fn lemma_extends_trans(t0: Tarjan, t1: Tarjan, t2: Tarjan)
    requires
        t1.extends(t0),
        t2.extends(t1),
    ensures
        t2.extends(t0),
{
    assert forall|p: int| 0 <= p < t0.stack@.len() implies #[trigger] t2.stack@[p] == t0.stack@[p] by {
        assert(t1.stack@[p] == t0.stack@[p]);
    }
    assert forall|v: int| 0 <= v < t0.index@.len() && #[trigger] t0.seen(v) implies t2.index@[v] == t0.index@[v] && t2.lowlink@[v] == t0.lowlink@[v] && t2.on_stack@[v] == t0.on_stack@[v] by {
        assert(t1.seen(v));
    }
    assert forall|v: int| 0 <= v < t0.index@.len() && #[trigger] t0.done(v) implies t2.scc_id@[v] == t0.scc_id@[v] by {
        assert(t0.seen(v));
        assert(t1.done(v));
    }
}

proof fn lemma_extends_lowered(t0: Tarjan, t1: Tarjan, u: Tarjan, v: int)
    requires
        t1.extends(t0),
        u == (Tarjan { lowlink: u.lowlink, ..t1 }),
        0 <= v < t1.lowlink@.len(),
        t1.lowlink@.len() == t1.index@.len(),
        u.lowlink@ == t1.lowlink@.update(v, u.lowlink@[v]),
        !t0.seen(v),
    ensures
        u.extends(t0),
{
    assert forall|x: int| 0 <= x < t0.index@.len() && #[trigger] t0.seen(x) implies u.index@[x] == t0.index@[x] && u.lowlink@[x] == t0.lowlink@[x] && u.on_stack@[x] == t0.on_stack@[x] by {
        assert(x != v);
    }
}

/// After the walk from a successor and the lowering, one more successor is followed.
proof fn lemma_lowered_walk(g: Seq<Vec<usize>>, t: Tarjan, u: Tarjan, base: int, v: int, k: int, low: usize, w: int)
    requires
        graph_wf(g),
        0 <= v < g.len(),
        0 <= base < t.stack@.len(),
        0 <= k < g[v]@.len(),
        w == g[v]@[k] as int,
        t.inv(g),
        t.stack@[base] as int == v,
        t.seen(v),
        t.seen(w),
        low <= t.index@[v],
        t.lands(g, v, low),
        t.above(g, base + 1, v, low),
        forall|j: int| 0 <= j < k ==> t.followed(t.lowlink@[v], (#[trigger] g[v]@[j]) as int),
        low <= t.lowlink@[v],
        t.on_stack@[w] ==> low <= t.index@[w],
        u == (Tarjan { lowlink: u.lowlink, ..t }),
        u.lowlink@ == t.lowlink@.update(v, low),
    ensures
        walking(g, u, base, v, k + 1),
{
    let n = g.len() as int;
    lemma_lowered(g, t, u, v);
    assert(u.lands(g, v, low)) by {
        let q = choose|q: int| 0 <= q < t.stack@.len() && t.index@[#[trigger] t.stack@[q] as int] == low && reach(g, v, t.stack@[q] as int);
        assert(u.index@[u.stack@[q] as int] == low);
    }
    assert(u.above(g, base + 1, v, low)) by {
        assert forall|p: int| base + 1 <= p < u.stack@.len() implies u.finished(g, #[trigger] u.stack@[p] as int) && low <= u.lowlink@[u.stack@[p] as int] && reach(g, v, u.stack@[p] as int) by {
            let y = t.stack@[p] as int;
            assert(t.finished(g, t.stack@[p] as int));
            assert(t.index@[t.stack@[base] as int] < t.index@[t.stack@[p] as int]);
            assert(y != v);
            lemma_finished_later(g, t, u, y, t.stack@.len() as int);
        }
    }
    assert forall|j: int| 0 <= j < k + 1 implies u.followed(low, (#[trigger] g[v]@[j]) as int) by {
        assert(g[v]@[j] < n);
        if j < k {
            assert(t.followed(t.lowlink@[v], g[v]@[j] as int));
        }
    }
}

/// The strongly connected components, numbered so that no edge leads to a higher number.
pub fn tarjan_scc(graph: &[Vec<usize>]) -> (r: Vec<usize>)
    requires
        graph_wf(graph@),
    ensures
        components_numbered(graph@, r@),
{
    let n: usize = graph.len();
    let ghost g = graph@;
    let mut index: Vec<usize> = Vec::new();
    let mut lowlink: Vec<usize> = Vec::new();
    let mut on_stack: Vec<bool> = Vec::new();
    let mut scc_id: Vec<usize> = Vec::new();
    while index.len() < n
        invariant
            index@.len() <= n,
            lowlink@.len() == index@.len(),
            on_stack@.len() == index@.len(),
            scc_id@.len() == index@.len(),
            forall|v: int| 0 <= v < index@.len() ==> #[trigger] index@[v] == n && !on_stack@[v],
        decreases n - index.len(),
    {
        index.push(n);
        lowlink.push(n);
        on_stack.push(false);
        scc_id.push(0);
    }
    let mut t = Tarjan { index, lowlink, on_stack, stack: Vec::new(), next: 0, scc_id, sccs: 0 };
    proof {
        lemma_unseen_bound(t.index@, n as int);
        lemma_unfinished_bound(t, n as int);
        assert forall|v: int| 0 <= v < n implies !#[trigger] t.done(v) by {
            assert(t.index@[v] == n);
        }
        assert forall|v: int| 0 <= v < n && #[trigger] t.on_stack@[v] implies t.stack@.contains(v as usize) by {
            assert(t.index@[v] == n);
        }
        assert forall|u: int, v: int| #[trigger] edge(g, u, v) && t.done(u) implies t.done(v) && t.scc_id@[v] <= t.scc_id@[u] by {
            assert(!t.done(u));
        }
        assert(t.closed(g));
    }
    let mut v: usize = 0;
    while v < n
        invariant
            g == graph@,
            graph_wf(g),
            n == g.len(),
            v <= n,
            t.inv(g),
            t.stack@.len() == 0,
            forall|x: int| 0 <= x < v ==> #[trigger] t.seen(x),
        decreases n - v,
    {
        let ghost t0 = t;
        if t.index[v] == n {
            t.strongconnect(graph, v);
            proof {
                if t.stack@.len() > 0 {
                    assert(t.finished(g, t.stack@[0] as int));
                    let q = choose|q: int| 0 <= q < t.stack@.len() && t.index@[#[trigger] t.stack@[q] as int] == t.lowlink@[v as int] && reach(g, v as int, t.stack@[q] as int);
                    if q > 0 {
                        assert(t.index@[t.stack@[0] as int] < t.index@[t.stack@[q] as int]);
                    }
                }
                assert forall|x: int| 0 <= x < v + 1 implies #[trigger] t.seen(x) by {
                    if x < v {
                        assert(t0.seen(x));
                    }
                }
            }
        } else {
            proof {
                assert(t.index@[v as int] < t.next || t.index@[v as int] == n);
            }
        }
        v += 1;
    }
    proof {
        assert forall|x: int| 0 <= x < n implies #[trigger] t.done(x) by {
            assert(t.seen(x));
            if t.on_stack@[x] {
                assert(t.stack@.contains(x as usize));
            }
        }
        assert forall|u: int, v: int| 0 <= u < g.len() && 0 <= v < g.len() && #[trigger] t.scc_id@[u] == #[trigger] t.scc_id@[v] implies reach(g, u, v) by {
            assert(t.done(u) && t.done(v));
        }
        assert forall|u: int, v: int| #[trigger] edge(g, u, v) && v < g.len() implies t.scc_id@[v] <= t.scc_id@[u] by {
            assert(t.done(u));
        }
    }
    t.scc_id
}

proof fn lemma_unseen_bound(index: Seq<usize>, upto: int)
    requires
        0 <= upto,
    ensures
        unseen(index, upto) <= upto,
    decreases upto,
{
    if upto > 0 {
        lemma_unseen_bound(index, upto - 1);
    }
}

proof fn lemma_unfinished_bound(t: Tarjan, upto: int)
    requires
        0 <= upto,
    ensures
        unfinished(t, upto) <= upto,
    decreases upto,
{
    if upto > 0 {
        lemma_unfinished_bound(t, upto - 1);
    }
}

} // verus!
