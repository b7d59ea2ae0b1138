//! Connected components of the open variables.
use vstd::prelude::*;

use crate::contract;
use crate::ct::TableMasks;
use crate::ct;
use crate::domain::DomainMask;
use crate::network;
use crate::network::ConstraintNetwork;
use crate::order;
use crate::region;
use crate::util;

verus! {

/// A set of variables that no constraint of `live` leads out of, fixed variables aside.
pub open spec fn sealed(cn: ConstraintNetwork, d: Seq<DomainMask>, live: Seq<bool>, c: spec_fn(int) -> bool) -> bool {
    forall|t: int, i: int, j: int|
        0 <= t < cn.m() && live[t] && 0 <= i < cn.axes(t).len() && 0 <= j < cn.axes(t).len() && !d[(#[trigger] cn.axes(t)[i]) as int].fixed() && !d[(
        #[trigger] cn.axes(t)[j]) as int].fixed() && c(cn.axes(t)[i] as int) ==> c(cn.axes(t)[j] as int)
}

/// The ids of a list, as a set.
pub open spec fn members(list: Seq<usize>) -> spec_fn(int) -> bool {
    |v: int| contract::lists(list, v)
}

/// `comp` is one connected component: open variables, sealed, and nothing smaller is.
pub open spec fn component(cn: ConstraintNetwork, d: Seq<DomainMask>, live: Seq<bool>, comp: Seq<usize>) -> bool {
    &&& comp.len() > 0
    &&& network::ascending_ids(comp)
    &&& forall|i: int| 0 <= i < comp.len() ==> (#[trigger] comp[i]) < cn.n() && !d[comp[i] as int].fixed()
    &&& sealed(cn, d, live, members(comp))
    &&& connected(cn, d, live, comp)
}

/// A sealed set that holds one of `comp` holds them all.
pub open spec fn connected(cn: ConstraintNetwork, d: Seq<DomainMask>, live: Seq<bool>, comp: Seq<usize>) -> bool {
    forall|c: spec_fn(int) -> bool, i: int, j: int|
        #[trigger] sealed(cn, d, live, c) && 0 <= i < comp.len() && 0 <= j < comp.len() && c((#[trigger] comp[i]) as int) ==> c((#[trigger] comp[j]) as int)
}

/// `scope` reaches `a` before it reaches `b`.
pub open spec fn reached_first(scope: Seq<usize>, a: Seq<usize>, b: Seq<usize>) -> bool {
    exists|i: int| 0 <= i < scope.len() && a.contains(#[trigger] scope[i]) && forall|k: int| 0 <= k <= i ==> !b.contains(#[trigger] scope[k])
}

/// Some of `comps` holds `v`.
pub open spec fn in_some(comps: Seq<Vec<usize>>, v: usize) -> bool {
    exists|k: int| 0 <= k < comps.len() && (#[trigger] comps[k])@.contains(v)
}

/// The components that the open variables of `scope` are in, in the order in which `scope`
/// reaches them.
pub open spec fn components(cn: ConstraintNetwork, d: Seq<DomainMask>, live: Seq<bool>, scope: Seq<usize>, comps: Seq<Vec<usize>>) -> bool {
    &&& forall|k: int| 0 <= k < comps.len() ==> component(cn, d, live, (#[trigger] comps[k])@)
    &&& forall|j: int, k: int| 0 <= j < k < comps.len() ==> apart((#[trigger] comps[j])@, (#[trigger] comps[k])@) && reached_first(scope, comps[j]@, comps[k]@)
    &&& forall|k: int| 0 <= k < comps.len() ==> meets(scope, (#[trigger] comps[k])@)
    &&& forall|i: int| 0 <= i < scope.len() && !d[(#[trigger] scope[i]) as int].fixed() ==> in_some(comps, scope[i])
}

/// No id is in both.
pub open spec fn apart(a: Seq<usize>, b: Seq<usize>) -> bool {
    forall|v: usize| #[trigger] a.contains(v) ==> !b.contains(v)
}

/// Some id is in both.
pub open spec fn meets(a: Seq<usize>, b: Seq<usize>) -> bool {
    exists|i: int| 0 <= i < a.len() && b.contains(#[trigger] a[i])
}

/// Every open variable of constraint `t` is marked.
spec fn all_marked(cn: ConstraintNetwork, d: Seq<DomainMask>, seen: Seq<bool>, t: int) -> bool {
    forall|j: int| 0 <= j < cn.axes(t).len() && !d[(#[trigger] cn.axes(t)[j]) as int].fixed() ==> seen[cn.axes(t)[j] as int]
}

/// Every open variable of constraint `t` is in `comp`.
spec fn all_inside(cn: ConstraintNetwork, d: Seq<DomainMask>, comp: Seq<usize>, t: int) -> bool {
    forall|j: int| 0 <= j < cn.axes(t).len() && !d[(#[trigger] cn.axes(t)[j]) as int].fixed() ==> comp.contains(cn.axes(t)[j])
}

/// No open variable of constraint `t` is in `comp`.
spec fn all_outside(cn: ConstraintNetwork, d: Seq<DomainMask>, comp: Seq<usize>, t: int) -> bool {
    forall|j: int| 0 <= j < cn.axes(t).len() && !d[(#[trigger] cn.axes(t)[j]) as int].fixed() ==> !comp.contains(cn.axes(t)[j])
}

/// The state of the walk that collects `comp` from `seed`, with the marks `before` at its start.
spec fn walking(cn: ConstraintNetwork, d: Seq<DomainMask>, live: Seq<bool>, before: Seq<bool>, vs: Seq<bool>, ts: Seq<bool>, comp: Seq<usize>, busy: int) -> bool {
    &&& vs.len() == cn.n()
    &&& ts.len() == cn.m()
    &&& comp.no_duplicates()
    &&& forall|i: int| 0 <= i < comp.len() ==> (#[trigger] comp[i]) < cn.n() && !d[comp[i] as int].fixed() && !before[comp[i] as int]
    &&& forall|v: int| 0 <= v < cn.n() ==> (#[trigger] vs[v] <==> (before[v] || comp.contains(v as usize)))
    &&& forall|t: int| 0 <= t < cn.m() && t != busy && #[trigger] ts[t] && live[t] ==> all_marked(cn, d, vs, t) && (all_inside(cn, d, comp, t) || all_outside(cn, d, comp, t))
    &&& forall|c: spec_fn(int) -> bool, i: int| #[trigger] sealed(cn, d, live, c) && 0 <= i < comp.len() && c(comp[0] as int) ==> c((#[trigger] comp[i]) as int)
    &&& forall|c: spec_fn(int) -> bool, i: int| #[trigger] sealed(cn, d, live, c) && 0 <= i < comp.len() && c((#[trigger] comp[i]) as int) ==> c(comp[0] as int)
}

/// All constraints of `v` are marked.
spec fn visited(cn: ConstraintNetwork, ts: Seq<bool>, v: int) -> bool {
    forall|t: int| 0 <= t < cn.m() && (#[trigger] cn.axes(t)).contains(v as usize) ==> ts[t]
}

/// Take in the open variables of constraint `t`, which couples them.
fn take_in(cn: &ConstraintNetwork, doms: &[DomainMask], t: usize, var_seen: &mut Vec<bool>, comp: &mut Vec<usize>, Ghost(live): Ghost<Seq<bool>>, Ghost(before): Ghost<Seq<bool>>, Ghost(ts): Ghost<Seq<bool>>, v: usize)
    requires
        cn.wf(),
        doms@.len() == cn.n(),
        t < cn.m(),
        live.len() == cn.m(),
        live[t as int],
        before.len() == cn.n(),
        walking(*cn, doms@, live, before, old(var_seen)@, ts, old(comp)@, t as int),
        old(comp)@.contains(v),
        cn.axes(t as int).contains(v),
        ts[t as int],
        forall|j: int| 0 <= j < cn.axes(t as int).len() && !doms@[(#[trigger] cn.axes(t as int)[j]) as int].fixed() ==> !before[cn.axes(t as int)[j] as int],
    ensures
        walking(*cn, doms@, live, before, final(var_seen)@, ts, final(comp)@, -1),
        final(comp)@.len() >= old(comp)@.len(),
        final(comp)@.take(old(comp)@.len() as int) == old(comp)@,
{
    let axes = &cn.tensors[t].var_axes;
    let mut j: usize = 0;
    proof {
        assert(cn.tensor_wf(t as int));
    }
    while j < axes.len()
        invariant
            cn.wf(),
            cn.tensor_wf(t as int),
            doms@.len() == cn.n(),
            t < cn.m(),
            live.len() == cn.m(),
            live[t as int],
            before.len() == cn.n(),
            axes@ == cn.axes(t as int),
            j <= axes@.len(),
            walking(*cn, doms@, live, before, var_seen@, ts, comp@, t as int),
            comp@.contains(v),
            axes@.contains(v),
            ts[t as int],
            comp@.len() >= old(comp)@.len(),
            comp@.take(old(comp)@.len() as int) == old(comp)@,
            forall|j: int| 0 <= j < axes@.len() && !doms@[(#[trigger] axes@[j]) as int].fixed() ==> !before[axes@[j] as int],
            forall|k: int| 0 <= k < j && !doms@[(#[trigger] axes@[k]) as int].fixed() ==> comp@.contains(axes@[k]),
        decreases axes.len() - j,
    {
        let u: usize = axes[j];
        assert(axes@[j as int] < cn.n());
        let ghost c0 = comp@;
        let ghost vs0 = var_seen@;
        if !doms[u].is_fixed() && !var_seen[u] {
            var_seen.set(u, true);
            comp.push(u);
            proof {
                lemma_taken(*cn, doms@, live, before, vs0, ts, c0, t as int, u, v);
                assert(comp@ =~= c0.push(u));
                assert(comp@[c0.len() as int] == u);
                assert forall|k: int| 0 <= k < j + 1 && !doms@[(#[trigger] axes@[k]) as int].fixed() implies comp@.contains(axes@[k]) by {
                    if k < j {
                        let q = c0.index_of(axes@[k]);
                        assert(comp@[q] == axes@[k]);
                    }
                }
                let q = c0.index_of(v);
                assert(comp@[q] == v);
                assert(comp@.take(old(comp)@.len() as int) =~= c0.take(old(comp)@.len() as int));
            }
        }
        j += 1;
    }
    proof {
        let cf = comp@;
        let vsf = var_seen@;
        assert(all_inside(*cn, doms@, cf, t as int));
        assert(all_marked(*cn, doms@, vsf, t as int)) by {
            assert forall|j: int| 0 <= j < cn.axes(t as int).len() && !doms@[(#[trigger] cn.axes(t as int)[j]) as int].fixed() implies vsf[cn.axes(t as int)[j] as int] by {
                assert(cf.contains(cn.axes(t as int)[j]));
                assert(cn.axes(t as int)[j] < cn.n());
            }
        }
    }
}

proof fn lemma_taken(cn: ConstraintNetwork, d: Seq<DomainMask>, live: Seq<bool>, before: Seq<bool>, vs: Seq<bool>, ts: Seq<bool>, comp: Seq<usize>, t: int, u: usize, v: usize)
    requires
        cn.wf(),
        0 <= t < cn.m(),
        live[t],
        before.len() == cn.n(),
        walking(cn, d, live, before, vs, ts, comp, t),
        u < cn.n(),
        !d[u as int].fixed(),
        !vs[u as int],
        !before[u as int],
        cn.axes(t).contains(u),
        cn.axes(t).contains(v),
        comp.contains(v),
    ensures
        walking(cn, d, live, before, vs.update(u as int, true), ts, comp.push(u), t),
{
    let c1 = comp.push(u);
    let vs1 = vs.update(u as int, true);
    assert(cn.vars.len() == cn.n());
    assert(!comp.contains(u)) by {
        if comp.contains(u) {
            assert(vs[u as int]);
        }
    }
    assert forall|x: usize| c1.contains(x) <==> (comp.contains(x) || x == u) by {
        if comp.contains(x) {
            assert(c1[comp.index_of(x)] == x);
        }
        assert(c1[comp.len() as int] == u);
        if c1.contains(x) && x != u {
            assert(comp[c1.index_of(x)] == x);
        }
    }
    assert forall|s: int| 0 <= s < cn.m() && s != t && #[trigger] ts[s] && live[s] implies all_marked(cn, d, vs1, s) && (all_inside(cn, d, c1, s) || all_outside(cn, d, c1, s)) by {
        assert(all_marked(cn, d, vs, s));
        assert forall|j: int| 0 <= j < cn.axes(s).len() && !d[(#[trigger] cn.axes(s)[j]) as int].fixed() implies vs1[cn.axes(s)[j] as int] by {
            assert(vs[cn.axes(s)[j] as int]);
            assert(cn.tensor_wf(s));
            assert(cn.axes(s)[j] < cn.n());
        }
        if all_outside(cn, d, comp, s) {
            assert(all_outside(cn, d, c1, s)) by {
                assert forall|j: int| 0 <= j < cn.axes(s).len() && !d[(#[trigger] cn.axes(s)[j]) as int].fixed() implies !c1.contains(cn.axes(s)[j]) by {
                    assert(vs[cn.axes(s)[j] as int]);
                }
            }
        } else {
            assert(all_inside(cn, d, c1, s)) by {
                assert forall|j: int| 0 <= j < cn.axes(s).len() && !d[(#[trigger] cn.axes(s)[j]) as int].fixed() implies c1.contains(cn.axes(s)[j]) by {
                    assert(comp.contains(cn.axes(s)[j]));
                }
            }
        }
    }
    assert(c1[0] == comp[0]);
    let q = comp.index_of(v);
    let iu = cn.axes(t).index_of(u);
    let iv = cn.axes(t).index_of(v);
    assert(!d[comp[q] as int].fixed());
    assert forall|c: spec_fn(int) -> bool, i: int| #[trigger] sealed(cn, d, live, c) && 0 <= i < c1.len() && c(c1[0] as int) implies c((#[trigger] c1[i]) as int) by {
        if i < comp.len() {
            assert(c(comp[i] as int));
        } else {
            assert(c(comp[q] as int));
            assert(c(cn.axes(t)[iv] as int));
            assert(c(cn.axes(t)[iu] as int));
        }
    }
    assert forall|c: spec_fn(int) -> bool, i: int| #[trigger] sealed(cn, d, live, c) && 0 <= i < c1.len() && c((#[trigger] c1[i]) as int) implies c(c1[0] as int) by {
        if i < comp.len() {
            assert(c(comp[i] as int));
        } else {
            assert(c(cn.axes(t)[iu] as int));
            assert(c(cn.axes(t)[iv] as int));
            assert(c(comp[q] as int));
        }
    }
    assert forall|i: int| 0 <= i < c1.len() implies (#[trigger] c1[i]) < cn.n() && !d[c1[i] as int].fixed() && !before[c1[i] as int] by {
        if i < comp.len() {
            assert(comp[i] < cn.n());
        }
    }
    assert(c1.no_duplicates());
    assert forall|x: int| 0 <= x < cn.n() implies (#[trigger] vs1[x] <==> (before[x] || c1.contains(x as usize))) by {
        assert(vs[x] <==> (before[x] || comp.contains(x as usize)));
    }
}

/// Walk from `seed` and collect its component.
fn collect(cn: &ConstraintNetwork, doms: &[DomainMask], live: &Vec<bool>, seed: usize, var_seen: &mut Vec<bool>, tensor_seen: &mut Vec<bool>) -> (r: Vec<usize>)
    requires
        cn.wf(),
        doms@.len() == cn.n(),
        live@.len() == cn.m(),
        seed < cn.n(),
        !doms@[seed as int].fixed(),
        old(var_seen)@.len() == cn.n(),
        old(tensor_seen)@.len() == cn.m(),
        !old(var_seen)@[seed as int],
        forall|t: int| 0 <= t < cn.m() && #[trigger] old(tensor_seen)@[t] && live@[t] ==> all_marked(*cn, doms@, old(var_seen)@, t),
        forall|t: int, i: int, j: int|
            0 <= t < cn.m() && live@[t] && 0 <= i < cn.axes(t).len() && 0 <= j < cn.axes(t).len() && !doms@[(#[trigger] cn.axes(t)[i]) as int].fixed() && !doms@[(
            #[trigger] cn.axes(t)[j]) as int].fixed() && old(var_seen)@[cn.axes(t)[i] as int] ==> old(var_seen)@[cn.axes(t)[j] as int],
    ensures
        component(*cn, doms@, live@, r@),
        r@.contains(seed),
        forall|i: int| 0 <= i < r@.len() ==> !old(var_seen)@[(#[trigger] r@[i]) as int],
        final(var_seen)@.len() == cn.n(),
        final(tensor_seen)@.len() == cn.m(),
        forall|v: int| 0 <= v < cn.n() ==> (#[trigger] final(var_seen)@[v] <==> (old(var_seen)@[v] || r@.contains(v as usize))),
        forall|t: int| 0 <= t < cn.m() && #[trigger] final(tensor_seen)@[t] && live@[t] ==> all_marked(*cn, doms@, final(var_seen)@, t),
{
    let ghost before = var_seen@;
    var_seen.set(seed, true);
    let mut comp: Vec<usize> = vec![seed];
    assert(comp@ =~= seq![seed]);
    let mut head: usize = 0;
    proof {
        assert(comp@[0] == seed);
        assert(cn.vars.len() == cn.n());
        let vs1 = var_seen@;
        let c1 = comp@;
        assert forall|v: int| 0 <= v < cn.n() implies (#[trigger] vs1[v] <==> (before[v] || c1.contains(v as usize))) by {
            if c1.contains(v as usize) {
                assert(v as usize == seed);
            }
        }
        assert forall|t: int| 0 <= t < cn.m() && #[trigger] tensor_seen@[t] && live@[t] implies all_marked(*cn, doms@, vs1, t) && (all_inside(*cn, doms@, c1, t) || all_outside(*cn, doms@, c1, t)) by {
            assert(all_marked(*cn, doms@, before, t));
            assert forall|j: int| 0 <= j < cn.axes(t).len() && !doms@[(#[trigger] cn.axes(t)[j]) as int].fixed() implies vs1[cn.axes(t)[j] as int] by {
                assert(cn.tensor_wf(t));
                assert(cn.axes(t)[j] < cn.n());
                assert(before[cn.axes(t)[j] as int]);
            }
            assert(all_outside(*cn, doms@, c1, t)) by {
                assert forall|j: int| 0 <= j < cn.axes(t).len() && !doms@[(#[trigger] cn.axes(t)[j]) as int].fixed() implies !c1.contains(cn.axes(t)[j]) by {
                    assert(before[cn.axes(t)[j] as int]);
                }
            }
        }
    }
    while head < comp.len()
        invariant
            cn.wf(),
            doms@.len() == cn.n(),
            live@.len() == cn.m(),
            before.len() == cn.n(),
            head <= comp@.len(),
            comp@.len() > 0,
            comp@[0] == seed,
            walking(*cn, doms@, live@, before, var_seen@, tensor_seen@, comp@, -1),
            forall|i: int| 0 <= i < head ==> visited(*cn, tensor_seen@, (#[trigger] comp@[i]) as int),
            forall|t: int, i: int, j: int|
                0 <= t < cn.m() && live@[t] && 0 <= i < cn.axes(t).len() && 0 <= j < cn.axes(t).len() && !doms@[(#[trigger] cn.axes(t)[i]) as int].fixed() && !doms@[(
                #[trigger] cn.axes(t)[j]) as int].fixed() && before[cn.axes(t)[i] as int] ==> before[cn.axes(t)[j] as int],
        decreases cn.n() - head,
    {
        let v: usize = comp[head];
        proof {
            assert(comp@.contains(v));
            assert(v < cn.n() && !doms@[v as int].fixed());
            lemma_short(comp@, cn.n());
            assert(cn.incidence_wf(v as int));
        }
        let list = &cn.v2t[v];
        let mut k: usize = 0;
        while k < list.len()
            invariant
                cn.wf(),
                doms@.len() == cn.n(),
                live@.len() == cn.m(),
                before.len() == cn.n(),
                v < cn.n(),
                !doms@[v as int].fixed(),
                cn.incidence_wf(v as int),
                list@ == cn.v2t@[v as int]@,
                k <= list@.len(),
                head < comp@.len(),
                comp@[head as int] == v,
                comp@[0] == seed,
                walking(*cn, doms@, live@, before, var_seen@, tensor_seen@, comp@, -1),
                forall|i: int| 0 <= i < head ==> visited(*cn, tensor_seen@, (#[trigger] comp@[i]) as int),
                forall|q: int| 0 <= q < k ==> tensor_seen@[(#[trigger] list@[q]) as int],
                forall|t: int, i: int, j: int|
                    0 <= t < cn.m() && live@[t] && 0 <= i < cn.axes(t).len() && 0 <= j < cn.axes(t).len() && !doms@[(#[trigger] cn.axes(t)[i]) as int].fixed() && !doms@[(
                    #[trigger] cn.axes(t)[j]) as int].fixed() && before[cn.axes(t)[i] as int] ==> before[cn.axes(t)[j] as int],
            decreases list.len() - k,
        {
            let t: usize = list[k];
            assert(list@[k as int] < cn.m());
            if !tensor_seen[t] {
                let ghost ts0 = tensor_seen@;
                let ghost c0 = comp@;
                tensor_seen.set(t, true);
                proof {
                    assert(walking(*cn, doms@, live@, before, var_seen@, tensor_seen@, comp@, t as int));
                    assert(cn.axes(t as int).contains(v));
                }
                if live[t] {
                    proof {
                        let iv = cn.axes(t as int).index_of(v);
                        assert(comp@.contains(v));
                        assert(!before[comp@[head as int] as int]);
                        assert forall|j: int| 0 <= j < cn.axes(t as int).len() && !doms@[(#[trigger] cn.axes(t as int)[j]) as int].fixed() implies !before[cn.axes(t as int)[j] as int] by {
                            if before[cn.axes(t as int)[j] as int] {
                                assert(before[cn.axes(t as int)[iv] as int]);
                            }
                        }
                    }
                    take_in(cn, doms, t, var_seen, &mut comp, Ghost(live@), Ghost(before), Ghost(tensor_seen@), v);
                }
                proof {
                    assert forall|i: int| 0 <= i < head implies visited(*cn, tensor_seen@, (#[trigger] comp@[i]) as int) by {
                        assert(comp@.take(c0.len() as int)[i] == c0[i]);
                        assert(visited(*cn, ts0, c0[i] as int));
                    }
                    assert(comp@.take(c0.len() as int)[head as int] == c0[head as int]);
                    assert(comp@.take(c0.len() as int)[0] == c0[0]);
                    assert forall|q: int| 0 <= q < k + 1 implies tensor_seen@[(#[trigger] list@[q]) as int] by {
                        assert(q < k ==> ts0[list@[q] as int]);
                    }
                }
            }
            k += 1;
        }
        proof {
            assert(visited(*cn, tensor_seen@, v as int)) by {
                assert forall|t: int| 0 <= t < cn.m() && (#[trigger] cn.axes(t)).contains(v) implies tensor_seen@[t] by {
                    assert(cn.tensors.len() == cn.m());
                    assert(list@.contains(t as usize));
                    let q = list@.index_of(t as usize);
                    assert(tensor_seen@[list@[q] as int]);
                }
            }
        }
        head += 1;
    }
    let ghost walk = comp@;
    order::sort_ids(&mut comp);
    proof {
        order::lemma_permutation(walk, comp@);
        assert(network::ascending_ids(comp@));
        assert forall|i: int| 0 <= i < comp@.len() implies (#[trigger] comp@[i]) < cn.n() && !doms@[comp@[i] as int].fixed() && !before[comp@[i] as int] by {
            assert(comp@.contains(comp@[i]));
            assert(walk.contains(comp@[i]));
            let q = walk.index_of(comp@[i]);
            assert(walk[q] == comp@[i]);
        }
        assert(sealed(*cn, doms@, live@, members(comp@))) by {
            assert forall|t: int, i: int, j: int|
                0 <= t < cn.m() && live@[t] && 0 <= i < cn.axes(t).len() && 0 <= j < cn.axes(t).len() && !doms@[(#[trigger] cn.axes(t)[i]) as int].fixed() && !doms@[(
                #[trigger] cn.axes(t)[j]) as int].fixed() && members(comp@)(cn.axes(t)[i] as int) implies members(comp@)(cn.axes(t)[j] as int) by {
                let u = cn.axes(t)[i];
                let x = choose|x: int| 0 <= x < comp@.len() && (#[trigger] comp@[x]) as int == u as int;
                assert(comp@.contains(u));
                assert(walk.contains(u));
                let q = walk.index_of(u);
                assert(visited(*cn, tensor_seen@, walk[q] as int));
                assert(cn.axes(t).contains(u));
                assert(tensor_seen@[t]);
                assert(all_inside(*cn, doms@, walk, t) || all_outside(*cn, doms@, walk, t));
                assert(walk.contains(cn.axes(t)[i]));
                assert(walk.contains(cn.axes(t)[j]));
                assert(comp@.contains(cn.axes(t)[j]));
                let y = comp@.index_of(cn.axes(t)[j]);
                assert(comp@[y] as int == cn.axes(t)[j] as int);
            }
        }
        assert(connected(*cn, doms@, live@, comp@)) by {
            assert forall|c: spec_fn(int) -> bool, i: int, j: int|
                #[trigger] sealed(*cn, doms@, live@, c) && 0 <= i < comp@.len() && 0 <= j < comp@.len() && c((#[trigger] comp@[i]) as int) implies c((#[trigger] comp@[j]) as int) by {
                assert(comp@.contains(comp@[i]) && comp@.contains(comp@[j]));
                assert(walk.contains(comp@[i]) && walk.contains(comp@[j]));
                let a = walk.index_of(comp@[i]);
                let b = walk.index_of(comp@[j]);
                assert(c(walk[a] as int));
                assert(c(walk[0] as int));
                assert(c(walk[b] as int));
            }
        }
        assert(walk.contains(walk[0]));
        assert(comp@.contains(seed));
        assert forall|v: int| 0 <= v < cn.n() implies (#[trigger] var_seen@[v] <==> (before[v] || comp@.contains(v as usize))) by {
            assert(walk.contains(v as usize) <==> comp@.contains(v as usize));
        }
    }
    comp
}

proof fn lemma_short(s: Seq<usize>, n: int)
    requires
        s.no_duplicates(),
        forall|i: int| 0 <= i < s.len() ==> (#[trigger] s[i]) < n,
        n >= 0,
    ensures
        s.len() <= n,
{
    let ints = s.map_values(|x: usize| x as int);
    assert(ints.no_duplicates()) by {
        assert forall|i: int, j: int| 0 <= i < ints.len() && 0 <= j < ints.len() && i != j implies ints[i] != ints[j] by {
            assert(s[i] != s[j]);
        }
    }
    let all = vstd::set_lib::set_int_range(0, n);
    vstd::set_lib::lemma_int_range(0, n);
    ints.unique_seq_to_set();
    assert(ints.to_set().subset_of(all)) by {
        assert forall|x: int| ints.to_set().contains(x) implies all.contains(x) by {
            let i = ints.index_of(x);
            assert(s[i] < n);
        }
    }
    vstd::set_lib::lemma_len_subset(ints.to_set(), all);
}

/// The components of the open variables of `scope`, where the constraints flagged in `live`
/// couple their open variables.
pub fn components_of(cn: &ConstraintNetwork, doms: &[DomainMask], live: &Vec<bool>, scope: &[usize]) -> (r: Vec<Vec<usize>>)
    requires
        cn.wf(),
        doms@.len() == cn.n(),
        live@.len() == cn.m(),
        forall|i: int| 0 <= i < scope@.len() ==> (#[trigger] scope@[i]) < cn.n(),
    ensures
        components(*cn, doms@, live@, scope@, r@),
{
    let mut comps: Vec<Vec<usize>> = Vec::new();
    let mut var_seen: Vec<bool> = Vec::new();
    while var_seen.len() < doms.len()
        invariant
            var_seen@.len() <= doms@.len(),
            forall|v: int| 0 <= v < var_seen@.len() ==> !#[trigger] var_seen@[v],
        decreases doms.len() - var_seen.len(),
    {
        var_seen.push(false);
    }
    let mut tensor_seen: Vec<bool> = Vec::new();
    while tensor_seen.len() < cn.tensors.len()
        invariant
            tensor_seen@.len() <= cn.m(),
            forall|t: int| 0 <= t < tensor_seen@.len() ==> !#[trigger] tensor_seen@[t],
        decreases cn.tensors.len() - tensor_seen.len(),
    {
        tensor_seen.push(false);
    }
    let mut i: usize = 0;
    while i < scope.len()
        invariant
            cn.wf(),
            doms@.len() == cn.n(),
            live@.len() == cn.m(),
            forall|i: int| 0 <= i < scope@.len() ==> (#[trigger] scope@[i]) < cn.n(),
            i <= scope@.len(),
            var_seen@.len() == cn.n(),
            tensor_seen@.len() == cn.m(),
            components(*cn, doms@, live@, scope@.take(i as int), comps@),
            forall|v: int| 0 <= v < cn.n() ==> (#[trigger] var_seen@[v] <==> in_some(comps@, v as usize)),
            forall|t: int| 0 <= t < cn.m() && #[trigger] tensor_seen@[t] && live@[t] ==> all_marked(*cn, doms@, var_seen@, t),
        decreases scope.len() - i,
    {
        let s: usize = scope[i];
        let ghost k0 = comps@;
        let ghost done = scope@.take(i as int);
        let ghost more = scope@.take(i + 1);
        proof {
            assert(more =~= done.push(s));
        }
        if !doms[s].is_fixed() && !var_seen[s] {
            let ghost vs0 = var_seen@;
            proof {
                assert forall|t: int, a: int, b: int|
                    0 <= t < cn.m() && live@[t] && 0 <= a < cn.axes(t).len() && 0 <= b < cn.axes(t).len() && !doms@[(#[trigger] cn.axes(t)[a]) as int].fixed() && !doms@[(
                    #[trigger] cn.axes(t)[b]) as int].fixed() && vs0[cn.axes(t)[a] as int] implies vs0[cn.axes(t)[b] as int] by {
                    assert(cn.tensor_wf(t));
                    assert(cn.axes(t)[a] < cn.n() && cn.axes(t)[b] < cn.n());
                    assert(in_some(k0, cn.axes(t)[a]));
                    let k = choose|k: int| 0 <= k < k0.len() && (#[trigger] k0[k])@.contains(cn.axes(t)[a]);
                    lemma_members(k0[k]@);
                    assert(component(*cn, doms@, live@, k0[k]@));
                    assert(members(k0[k]@)(cn.axes(t)[a] as int));
                    assert(members(k0[k]@)(cn.axes(t)[b] as int));
                    assert(k0[k]@.contains(cn.axes(t)[b]));
                    assert(in_some(k0, cn.axes(t)[b]));
                }
            }
            let comp = collect(cn, doms, live, s, &mut var_seen, &mut tensor_seen);
            let ghost cv = comp@;
            comps.push(comp);
            proof {
                assert(comps@[k0.len() as int]@ == cv);
                assert forall|v: int| 0 <= v < cn.n() implies (#[trigger] var_seen@[v] <==> in_some(comps@, v as usize)) by {
                    lemma_in_some_push(k0, comp, v as usize);
                    assert(comps@ =~= k0.push(comp));
                }
                lemma_components_push(*cn, doms@, live@, done, s, k0, comp, vs0);
                assert(comps@ =~= k0.push(comp));
            }
        } else {
            proof {
                lemma_components_skip(*cn, doms@, live@, done, s, k0);
            }
        }
        i += 1;
    }
    assert(scope@.take(scope@.len() as int) =~= scope@);
    comps
}

pub proof fn lemma_members(list: Seq<usize>)
    ensures
        forall|v: usize| #[trigger] list.contains(v) <==> members(list)(v as int),
{
    assert forall|v: usize| #[trigger] list.contains(v) <==> members(list)(v as int) by {
        if list.contains(v) {
            assert(list[list.index_of(v)] as int == v as int);
        }
        if members(list)(v as int) {
            let x = choose|x: int| 0 <= x < list.len() && (#[trigger] list[x]) as int == v as int;
            assert(list[x] == v);
        }
    }
}

proof fn lemma_in_some_push(comps: Seq<Vec<usize>>, c: Vec<usize>, v: usize)
    ensures
        in_some(comps.push(c), v) <==> (in_some(comps, v) || c@.contains(v)),
{
    let more = comps.push(c);
    if in_some(comps, v) {
        let k = choose|k: int| 0 <= k < comps.len() && (#[trigger] comps[k])@.contains(v);
        assert(more[k]@.contains(v));
    }
    assert(more[comps.len() as int] == c);
    if in_some(more, v) {
        let k = choose|k: int| 0 <= k < more.len() && (#[trigger] more[k])@.contains(v);
        if k < comps.len() {
            assert(comps[k]@.contains(v));
        }
    }
}

proof fn lemma_components_skip(cn: ConstraintNetwork, d: Seq<DomainMask>, live: Seq<bool>, scope: Seq<usize>, s: usize, comps: Seq<Vec<usize>>)
    requires
        components(cn, d, live, scope, comps),
        d[s as int].fixed() || in_some(comps, s),
    ensures
        components(cn, d, live, scope.push(s), comps),
{
    let more = scope.push(s);
    assert forall|j: int, k: int| 0 <= j < k < comps.len() implies apart((#[trigger] comps[j])@, (#[trigger] comps[k])@) && reached_first(more, comps[j]@, comps[k]@) by {
        lemma_reached_push(scope, s, comps[j]@, comps[k]@);
    }
    assert forall|k: int| 0 <= k < comps.len() implies meets(more, (#[trigger] comps[k])@) by {
        let i = choose|i: int| 0 <= i < scope.len() && comps[k]@.contains(#[trigger] scope[i]);
        assert(more[i] == scope[i]);
    }
    assert forall|i: int| 0 <= i < more.len() && !d[(#[trigger] more[i]) as int].fixed() implies in_some(comps, more[i]) by {
        if i < scope.len() {
            assert(more[i] == scope[i]);
        }
    }
}

proof fn lemma_reached_push(scope: Seq<usize>, s: usize, a: Seq<usize>, b: Seq<usize>)
    requires
        reached_first(scope, a, b),
    ensures
        reached_first(scope.push(s), a, b),
{
    let more = scope.push(s);
    let i = choose|i: int| 0 <= i < scope.len() && a.contains(#[trigger] scope[i]) && forall|k: int| 0 <= k <= i ==> !b.contains(#[trigger] scope[k]);
    assert(more[i] == scope[i]);
    assert forall|k: int| 0 <= k <= i implies !b.contains(#[trigger] more[k]) by {
        assert(more[k] == scope[k]);
    }
}

proof fn lemma_components_push(cn: ConstraintNetwork, d: Seq<DomainMask>, live: Seq<bool>, scope: Seq<usize>, s: usize, comps: Seq<Vec<usize>>, c: Vec<usize>, vs: Seq<bool>)
    requires
        components(cn, d, live, scope, comps),
        component(cn, d, live, c@),
        c@.contains(s),
        forall|i: int| 0 <= i < c@.len() ==> !vs[(#[trigger] c@[i]) as int],
        forall|v: int| 0 <= v < cn.n() ==> (#[trigger] vs[v] <==> in_some(comps, v as usize)),
    ensures
        components(cn, d, live, scope.push(s), comps.push(c)),
{
    let more = scope.push(s);
    let all = comps.push(c);
    assert(all[comps.len() as int] == c);
    assert forall|v: usize| #[trigger] c@.contains(v) implies !in_some(comps, v) by {
        let x = c@.index_of(v);
        assert(c@[x] < cn.n());
        assert(!vs[c@[x] as int]);
    }
    assert forall|j: int, k: int| 0 <= j < k < all.len() implies apart((#[trigger] all[j])@, (#[trigger] all[k])@) && reached_first(more, all[j]@, all[k]@) by {
        if k < comps.len() {
            assert(all[j] == comps[j] && all[k] == comps[k]);
            assert(reached_first(scope, comps[j]@, comps[k]@));
            lemma_reached_push(scope, s, comps[j]@, comps[k]@);
        } else {
            lemma_fresh_component(cn, d, live, scope, s, comps, c, j);
        }
    }
    assert forall|k: int| 0 <= k < all.len() implies meets(more, (#[trigger] all[k])@) by {
        if k < comps.len() {
            assert(meets(scope, comps[k]@));
            let i = choose|i: int| 0 <= i < scope.len() && comps[k]@.contains(#[trigger] scope[i]);
            assert(more[i] == scope[i]);
        } else {
            assert(more[scope.len() as int] == s);
        }
    }
    assert forall|i: int| 0 <= i < more.len() && !d[(#[trigger] more[i]) as int].fixed() implies in_some(all, more[i]) by {
        lemma_in_some_push(comps, c, more[i]);
        if i < scope.len() {
            assert(more[i] == scope[i]);
        }
    }
    assert forall|k: int| 0 <= k < all.len() implies component(cn, d, live, (#[trigger] all[k])@) by {
        if k < comps.len() {
            assert(all[k] == comps[k]);
        }
    }
}

/// A new component is apart from an earlier one and reached later.
proof fn lemma_fresh_component(cn: ConstraintNetwork, d: Seq<DomainMask>, live: Seq<bool>, scope: Seq<usize>, s: usize, comps: Seq<Vec<usize>>, c: Vec<usize>, j: int)
    requires
        components(cn, d, live, scope, comps),
        component(cn, d, live, c@),
        c@.contains(s),
        forall|v: usize| #[trigger] c@.contains(v) ==> !in_some(comps, v),
        0 <= j < comps.len(),
    ensures
        apart(comps[j]@, c@),
        reached_first(scope.push(s), comps[j]@, c@),
{
    let more = scope.push(s);
            assert(apart(comps[j]@, c@)) by {
                assert forall|v: usize| #[trigger] comps[j]@.contains(v) implies !c@.contains(v) by {
                    assert(in_some(comps, v));
                }
            }
            assert(meets(scope, comps[j]@));
            let i = choose|i: int| 0 <= i < scope.len() && comps[j]@.contains(#[trigger] scope[i]);
            assert(more[i] == scope[i]);
            assert forall|q: int| 0 <= q <= i implies !c@.contains(#[trigger] more[q]) by {
                assert(more[q] == scope[q]);
                if c@.contains(more[q]) {
                    let x = c@.index_of(more[q]);
                    assert(c@[x] < cn.n() && !d[c@[x] as int].fixed());
                    assert(in_some(comps, scope[q]));
                }
            }
}

/// The constraints that are not entailed.
pub open spec fn live_flags(cn: ConstraintNetwork, d: Seq<DomainMask>) -> Seq<bool> {
    Seq::new(cn.m() as nat, |t: int| !util::entailed(cn, d, t))
}

/// The components of the open variables of `scope`: a constraint couples its open variables
/// where it is not entailed.
pub fn split_components(cn: &ConstraintNetwork, doms: &[DomainMask], masks: &[TableMasks], scope: &[usize]) -> (r: Vec<Vec<usize>>)
    requires
        cn.wf(),
        doms@.len() == cn.n(),
        ct::masks_ok(*cn, masks@),
        forall|i: int| 0 <= i < scope@.len() ==> (#[trigger] scope@[i]) < cn.n(),
    ensures
        components(*cn, doms@, live_flags(*cn, doms@), scope@, r@),
{
    let mut live: Vec<bool> = Vec::new();
    while live.len() < cn.tensors.len()
        invariant
            cn.wf(),
            doms@.len() == cn.n(),
            ct::masks_ok(*cn, masks@),
            live@.len() <= cn.m(),
            forall|t: int| 0 <= t < live@.len() ==> #[trigger] live@[t] == !util::entailed(*cn, doms@, t),
        decreases cn.tensors.len() - live.len(),
    {
        let t: usize = live.len();
        live.push(!util::is_entailed(cn, t, doms, masks));
    }
    assert(live@ =~= live_flags(*cn, doms@));
    components_of(cn, doms, &live, scope)
}

/// Sealed along the constraints that are not entailed.
pub proof fn lemma_sealed_region(cn: ConstraintNetwork, d: Seq<DomainMask>, c: spec_fn(int) -> bool)
    ensures
        sealed(cn, d, live_flags(cn, d), c) <==> region::closed_set(cn, d, true, c),
{
    let live = live_flags(cn, d);
    if sealed(cn, d, live, c) {
        assert forall|t: int, i: int, j: int|
            0 <= t < cn.m() && !region::aside(cn, d, true, t) && 0 <= i < cn.axes(t).len() && 0 <= j < cn.axes(t).len() && !d[(#[trigger] cn.axes(t)[i]) as int].fixed() && !d[(
            #[trigger] cn.axes(t)[j]) as int].fixed() && c(cn.axes(t)[i] as int) implies c(cn.axes(t)[j] as int) by {
            assert(live[t]);
        }
    }
    if region::closed_set(cn, d, true, c) {
        assert forall|t: int, i: int, j: int|
            0 <= t < cn.m() && live[t] && 0 <= i < cn.axes(t).len() && 0 <= j < cn.axes(t).len() && !d[(#[trigger] cn.axes(t)[i]) as int].fixed() && !d[(
            #[trigger] cn.axes(t)[j]) as int].fixed() && c(cn.axes(t)[i] as int) implies c(cn.axes(t)[j] as int) by {
            assert(!region::aside(cn, d, true, t));
        }
    }
}

/// A set stays sealed when fewer constraints couple and more variables are fixed.
pub proof fn lemma_sealed_later(cn: ConstraintNetwork, d: Seq<DomainMask>, live: Seq<bool>, e: Seq<DomainMask>, later: Seq<bool>, c: spec_fn(int) -> bool)
    requires
        cn.wf(),
        d.len() == cn.n(),
        sealed(cn, d, live, c),
        forall|v: int| 0 <= v < cn.n() && !(#[trigger] e[v]).fixed() ==> !d[v].fixed(),
        forall|t: int| 0 <= t < cn.m() && #[trigger] later[t] ==> live[t],
    ensures
        sealed(cn, e, later, c),
{
    assert forall|t: int, i: int, j: int|
        0 <= t < cn.m() && later[t] && 0 <= i < cn.axes(t).len() && 0 <= j < cn.axes(t).len() && !e[(#[trigger] cn.axes(t)[i]) as int].fixed() && !e[(
        #[trigger] cn.axes(t)[j]) as int].fixed() && c(cn.axes(t)[i] as int) implies c(cn.axes(t)[j] as int) by {
        assert(cn.tensor_wf(t));
        assert(cn.axes(t)[i] < cn.n() && cn.axes(t)[j] < cn.n());
    }
}

/// A component within a sealed set that holds one of its variables.
pub proof fn lemma_component_inside(cn: ConstraintNetwork, d: Seq<DomainMask>, live: Seq<bool>, scope: Seq<usize>, comp: Seq<usize>)
    requires
        component(cn, d, live, comp),
        sealed(cn, d, live, members(scope)),
        meets(scope, comp),
    ensures
        forall|i: int| 0 <= i < comp.len() ==> scope.contains(#[trigger] comp[i]),
{
    let i0 = choose|i: int| 0 <= i < scope.len() && comp.contains(#[trigger] scope[i]);
    let q = comp.index_of(scope[i0]);
    lemma_members(scope);
    assert(scope.contains(comp[q]));
    assert(members(scope)(comp[q] as int));
    assert forall|i: int| 0 <= i < comp.len() implies scope.contains(#[trigger] comp[i]) by {
        assert(members(scope)(comp[i] as int));
    }
}

/// Shorter components first, of equal length the one with the lower first id.
pub open spec fn size_order(comps: Seq<Vec<usize>>) -> bool {
    forall|i: int, j: int| 0 <= i <= j < comps.len() ==> size_le((#[trigger] comps[i])@, (#[trigger] comps[j])@)
}

pub open spec fn size_le(a: Seq<usize>, b: Seq<usize>) -> bool {
    a.len() < b.len() || (a.len() == b.len() && a[0] <= b[0])
}

/// Which component each first id is of.
spec fn heads_ok(comps: Seq<Vec<usize>>, heads: Seq<usize>, upto: int) -> bool {
    forall|k: int| 0 <= k < upto ==> (#[trigger] comps[k])@.len() > 0 && comps[k]@[0] < heads.len() && heads[comps[k]@[0] as int] == k
}

/// The components, smaller ones first.
pub fn smallest_first(comps: Vec<Vec<usize>>, n: usize) -> (r: Vec<Vec<usize>>)
    requires
        forall|k: int| 0 <= k < comps@.len() ==> (#[trigger] comps@[k])@.len() > 0 && comps@[k]@[0] < n,
        forall|j: int, k: int| 0 <= j < k < comps@.len() ==> (#[trigger] comps@[j])@[0] != (#[trigger] comps@[k])@[0],
    ensures
        r@.len() == comps@.len(),
        size_order(r@),
        forall|k: int| 0 <= k < r@.len() ==> in_list(comps@, (#[trigger] r@[k])@),
        forall|q: int| 0 <= q < comps@.len() ==> in_list(r@, (#[trigger] comps@[q])@),
        forall|j: int, k: int| 0 <= j < k < r@.len() ==> (#[trigger] r@[j])@[0] != (#[trigger] r@[k])@[0],
{
    let mut heads: Vec<usize> = Vec::new();
    while heads.len() < n
        invariant
            heads@.len() <= n,
        decreases n - heads.len(),
    {
        heads.push(0);
    }
    let mut keys: Vec<(u64, usize)> = Vec::new();
    let mut k: usize = 0;
    while k < comps.len()
        invariant
            k <= comps@.len(),
            heads@.len() == n,
            forall|k: int| 0 <= k < comps@.len() ==> (#[trigger] comps@[k])@.len() > 0 && comps@[k]@[0] < n,
            forall|j: int, k: int| 0 <= j < k < comps@.len() ==> (#[trigger] comps@[j])@[0] != (#[trigger] comps@[k])@[0],
            heads_ok(comps@, heads@, k as int),
            keys@.len() == k,
            forall|q: int| 0 <= q < k ==> #[trigger] keys@[q] == (comps@[q]@.len() as u64, comps@[q]@[0]),
        decreases comps.len() - k,
    {
        let first: usize = comps[k][0];
        let size: u64 = comps[k].len() as u64;
        let ghost h0 = heads@;
        heads.set(first, k);
        keys.push((size, first));
        proof {
            assert forall|q: int| 0 <= q < k + 1 implies (#[trigger] comps@[q])@.len() > 0 && comps@[q]@[0] < heads@.len() && heads@[comps@[q]@[0] as int] == q by {
                if q < k {
                    assert(h0[comps@[q]@[0] as int] == q);
                    assert(comps@[q]@[0] != comps@[k as int]@[0]);
                }
            }
        }
        k += 1;
    }
    let ghost k0 = keys@;
    order::sort_pairs(&mut keys);
    proof {
        order::lemma_permutation(k0, keys@);
        assert(k0.no_duplicates()) by {
            assert forall|i: int, j: int| 0 <= i < k0.len() && 0 <= j < k0.len() && i != j implies k0[i] != k0[j] by {
                if i < j {
                    assert(comps@[i]@[0] != comps@[j]@[0]);
                } else {
                    assert(comps@[j]@[0] != comps@[i]@[0]);
                }
            }
        }
    }
    let mut out: Vec<Vec<usize>> = Vec::new();
    let mut i: usize = 0;
    while i < keys.len()
        invariant
            i <= keys@.len(),
            keys@.len() == comps@.len() == k0.len(),
            heads@.len() == n,
            heads_ok(comps@, heads@, comps@.len() as int),
            forall|x: (u64, usize)| #[trigger] keys@.contains(x) <==> k0.contains(x),
            forall|q: int| 0 <= q < k0.len() ==> #[trigger] k0[q] == (comps@[q]@.len() as u64, comps@[q]@[0]),
            out@.len() == i,
            forall|q: int| 0 <= q < i ==> key_of(#[trigger] out@[q], keys@[q]) && in_list(comps@, out@[q]@),
        decreases keys.len() - i,
    {
        proof {
            assert(keys@.contains(keys@[i as int]));
            let q = k0.index_of(keys@[i as int]);
            assert(k0[q] == keys@[i as int]);
            assert(comps@[q]@[0] < heads@.len());
            assert(heads@[comps@[q]@[0] as int] == q);
            assert(comps@[q].len() == comps@[q]@.len());
        }
        let at: usize = heads[keys[i].1];
        let copy = network::copy_ids(&comps[at]);
        assert(copy@ == comps@[at as int]@);
        out.push(copy);
        i += 1;
    }
    proof {
        assert forall|a: int, b: int| 0 <= a <= b < out@.len() implies size_le((#[trigger] out@[a])@, (#[trigger] out@[b])@) by {
            assert(order::pair_le(keys@[a], keys@[b]));
            assert(key_of(out@[a], keys@[a]) && key_of(out@[b], keys@[b]));
            assert(out@[a].len() == out@[a]@.len() && out@[b].len() == out@[b]@.len());
        }
        assert forall|q: int| 0 <= q < comps@.len() implies in_list(out@, (#[trigger] comps@[q])@) by {
            assert(k0.contains(k0[q]));
            assert(keys@.contains(k0[q]));
            let x = keys@.index_of(k0[q]);
            assert(key_of(out@[x], keys@[x]));
            assert(in_list(comps@, out@[x]@));
            let y = choose|y: int| 0 <= y < comps@.len() && (#[trigger] comps@[y])@ == out@[x]@;
            assert(comps@[y]@[0] == comps@[q]@[0]);
            assert(heads@[comps@[y]@[0] as int] == y);
            assert(heads@[comps@[q]@[0] as int] == q);
        }
        assert forall|a: int, b: int| 0 <= a < b < out@.len() implies (#[trigger] out@[a])@[0] != (#[trigger] out@[b])@[0] by {
            assert(key_of(out@[a], keys@[a]) && key_of(out@[b], keys@[b]));
            assert(keys@[a] != keys@[b]);
            assert(keys@.contains(keys@[a]) && keys@.contains(keys@[b]));
            let x = k0.index_of(keys@[a]);
            let y = k0.index_of(keys@[b]);
            assert(k0[x] == keys@[a] && k0[y] == keys@[b]);
            assert(heads@[comps@[x]@[0] as int] == x);
            assert(heads@[comps@[y]@[0] as int] == y);
        }
    }
    out
}

spec fn key_of(c: Vec<usize>, key: (u64, usize)) -> bool {
    c@.len() > 0 && key == (c@.len() as u64, c@[0])
}

/// One of the lists is `c`.
pub open spec fn in_list(comps: Seq<Vec<usize>>, c: Seq<usize>) -> bool {
    exists|q: int| 0 <= q < comps.len() && (#[trigger] comps[q])@ == c
}

} // verus!
