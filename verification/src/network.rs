//! Constraint networks: extensional Boolean constraints over a compressed variable range.
use vstd::prelude::*;

use crate::bits;
use crate::domain::Asg;
use crate::seqs;

verus! {

/// The values of `s` strictly increase.
pub open spec fn ascending32(s: Seq<u32>) -> bool {
    forall|i: int, j: int| 0 <= i < j < s.len() ==> s[i] < s[j]
}

/// The values of `s` strictly increase.
pub open spec fn ascending_ids(s: Seq<usize>) -> bool {
    forall|i: int, j: int| 0 <= i < j < s.len() ==> s[i] < s[j]
}

/// No value occurs twice.
pub open spec fn distinct(s: Seq<usize>) -> bool {
    forall|i: int, j: int| 0 <= i < j < s.len() ==> s[i] != s[j]
}

/// Bitwise OR of all values (zero for none).
pub open spec fn or_all(s: Seq<u32>) -> u32
    decreases s.len(),
{
    if s.len() == 0 {
        0
    } else {
        or_all(s.drop_last()) | s.last()
    }
}

/// Bitwise AND of all values (all ones for none).
pub open spec fn and_all(s: Seq<u32>) -> u32
    decreases s.len(),
{
    if s.len() == 0 {
        0xffff_ffff
    } else {
        and_all(s.drop_last()) & s.last()
    }
}

/// `support` lists exactly the indices of the true entries of `dense`, in order.
pub open spec fn lists_true(support: Seq<u32>, dense: Seq<bool>) -> bool {
    &&& ascending32(support)
    &&& forall|k: int| 0 <= k < support.len() ==> (#[trigger] support[k]) < dense.len()
        && dense[support[k] as int]
    &&& forall|c: int|
        0 <= c < dense.len() && #[trigger] dense[c] ==> support.contains(c as u32)
}

/// Row `row` over the axes `axes` is what the assignment `a` gives them.
pub open spec fn agrees(axes: Seq<usize>, row: u64, a: Asg) -> bool {
    forall|i: int| 0 <= i < axes.len() ==> bits::bit(row, i) == a((#[trigger] axes[i]) as int)
}

/// Shared truth-table data of a constraint: the satisfying configurations, ascending.
#[derive(Clone, Debug)]
pub struct TensorData {
    pub support: Vec<u32>,
    /// OR over all configurations.
    pub support_or: u32,
    /// AND over all configurations.
    pub support_and: u32,
}

impl TensorData {
    /// The aggregates are those of the support, and the support ascends.
    pub open spec fn wf(self) -> bool {
        &&& ascending32(self.support@)
        &&& self.support_or == or_all(self.support@)
        &&& self.support_and == and_all(self.support@)
    }

    /// Construct from a strictly ascending list of satisfying configurations.
    pub fn from_support(support: Vec<u32>) -> (r: TensorData)
        requires
            ascending32(support@),
        ensures
            r.support@ == support@,
            r.wf(),
    {
        let mut support_or: u32 = 0;
        let mut support_and: u32 = 0xffff_ffff;
        let mut i: usize = 0;
        while i < support.len()
            invariant
                i <= support.len(),
                support_or == or_all(support@.take(i as int)),
                support_and == and_all(support@.take(i as int)),
            decreases support.len() - i,
        {
            assert(support@.take(i + 1).drop_last() =~= support@.take(i as int));
            support_or = support_or | support[i];
            support_and = support_and & support[i];
            i += 1;
        }
        assert(support@.take(i as int) =~= support@);
        TensorData { support, support_or, support_and }
    }

    /// Construct from a dense truth table.
    pub fn from_dense(dense: Vec<bool>) -> (r: TensorData)
        requires
            dense.len() <= 0x1_0000_0000,
        ensures
            lists_true(r.support@, dense@),
            r.wf(),
    {
        TensorData::from_support(dense_to_support(&dense))
    }
}

/// Ascending indices of the true entries of a dense truth table.
pub(crate) fn dense_to_support(dense: &Vec<bool>) -> (r: Vec<u32>)
    requires
        dense.len() <= 0x1_0000_0000,
    ensures
        lists_true(r@, dense@),
{
    let mut out: Vec<u32> = Vec::new();
    let mut i: usize = 0;
    while i < dense.len()
        invariant
            i <= dense.len() <= 0x1_0000_0000,
            ascending32(out@),
            forall|k: int| 0 <= k < out.len() ==> (#[trigger] out[k]) < i && dense[out[k] as int],
            forall|c: int| 0 <= c < i && #[trigger] dense[c] ==> out@.contains(c as u32),
        decreases dense.len() - i,
    {
        if dense[i] {
            let ghost before = out@;
            out.push(i as u32);
            assert(out@.last() == i as u32);
            assert forall|c: int| 0 <= c < i + 1 && #[trigger] dense[c] implies out@.contains(
                c as u32,
            ) by {
                if c < i {
                    let k = choose|k: int| 0 <= k < before.len() && before[k] == c as u32;
                    assert(out@[k] == c as u32);
                }
            }
        }
        i += 1;
    }
    out
}

/// One variable of a network: `deg` constraints mention it.
#[derive(Clone, Copy, Debug)]
pub struct Variable {
    pub deg: usize,
}

/// One constraint: its variables, and the index of its shared truth table.
#[derive(Clone, Debug)]
pub struct BoolTensor {
    /// Bit `i` of a configuration is the value of `var_axes[i]`.
    pub var_axes: Vec<usize>,
    pub data_idx: usize,
}

#[derive(Clone, Debug)]
pub struct ConstraintNetwork {
    pub vars: Vec<Variable>,
    pub unique_tensors: Vec<TensorData>,
    pub tensors: Vec<BoolTensor>,
    /// The constraints on each variable, ascending.
    pub v2t: Vec<Vec<usize>>,
    /// Original variable id to compressed id (`None` where no constraint mentions it).
    pub orig_to_new: Vec<Option<usize>>,
}

/// `map` numbers the kept originals `0..n` in order.
pub open spec fn compresses(map: Seq<Option<usize>>, n: int) -> bool {
    &&& forall|u: int| 0 <= u < map.len() && (#[trigger] map[u]) is Some ==> map[u]->0 < n
    &&& forall|u: int, v: int|
        0 <= u < v < map.len() && (#[trigger] map[u]) is Some && (#[trigger] map[v]) is Some
            ==> map[u]->0 < map[v]->0
    &&& forall|k: int|
        0 <= k < n ==> #[trigger] has_original(map, k)
}

/// Some original is numbered `k`.
pub open spec fn has_original(map: Seq<Option<usize>>, k: int) -> bool {
    exists|u: int| 0 <= u < map.len() && #[trigger] map[u] == Some(k as usize)
}

impl ConstraintNetwork {
    /// The number of variables.
    pub open spec fn n(self) -> int {
        self.vars@.len() as int
    }

    /// The number of constraints.
    pub open spec fn m(self) -> int {
        self.tensors@.len() as int
    }

    /// The variables of constraint `t`, in bit order.
    pub open spec fn axes(self, t: int) -> Seq<usize> {
        self.tensors@[t].var_axes@
    }

    /// The satisfying configurations of constraint `t`.
    pub open spec fn rows(self, t: int) -> Seq<u32> {
        self.unique_tensors@[self.tensors@[t].data_idx as int].support@
    }

    /// Constraint `t` is sound: few enough distinct variables of the network, an existing
    /// table, and configurations over exactly those variables.
    pub open spec fn tensor_wf(self, t: int) -> bool {
        &&& self.tensors@[t].data_idx < self.unique_tensors@.len()
        &&& self.axes(t).len() <= 32
        &&& distinct(self.axes(t))
        &&& forall|i: int| 0 <= i < self.axes(t).len() ==> (#[trigger] self.axes(t)[i]) < self.n()
        &&& ascending32(self.rows(t))
        &&& forall|k: int|
            0 <= k < self.rows(t).len() ==> bits::below(
                (#[trigger] self.rows(t)[k]) as u64,
                self.axes(t).len() as int,
            )
    }

    /// The constraints listed for variable `v` are those that mention it, at least one, ascending.
    pub open spec fn incidence_wf(self, v: int) -> bool {
        &&& self.vars@[v].deg == self.v2t@[v]@.len()
        &&& self.v2t@[v]@.len() > 0
        &&& ascending_ids(self.v2t@[v]@)
        &&& forall|j: int| 0 <= j < self.v2t@[v]@.len() ==> (#[trigger] self.v2t@[v]@[j]) < self.m()
            && self.axes(self.v2t@[v]@[j] as int).contains(v as usize)
        &&& forall|t: int|
            0 <= t < self.m() && (#[trigger] self.axes(t)).contains(v as usize)
                ==> self.v2t@[v]@.contains(t as usize)
    }

    /// Network invariant.
    pub open spec fn wf(self) -> bool {
        &&& self.v2t@.len() == self.n()
        &&& forall|t: int| 0 <= t < self.m() ==> #[trigger] self.tensor_wf(t)
        &&& forall|v: int| 0 <= v < self.n() ==> #[trigger] self.incidence_wf(v)
        &&& forall|d: int| 0 <= d < self.unique_tensors@.len() ==> (#[trigger] self.unique_tensors@[d]).wf()
        &&& forall|s: int, t: int|
            0 <= s < self.m() && 0 <= t < self.m() && (#[trigger] self.tensors@[s]).data_idx == (
            #[trigger] self.tensors@[t]).data_idx ==> self.axes(s).len() == self.axes(t).len()
        &&& compresses(self.orig_to_new@, self.n())
    }

    /// Constraint `t` holds under `a`.
    pub open spec fn holds(self, t: int, a: Asg) -> bool {
        exists|k: int|
            0 <= k < self.rows(t).len() && agrees(
                self.axes(t),
                #[trigger] self.rows(t)[k] as u64,
                a,
            )
    }

    /// Every constraint holds under `a`.
    pub open spec fn model(self, a: Asg) -> bool {
        forall|t: int| 0 <= t < self.m() ==> #[trigger] self.holds(t, a)
    }

    /// The number of variables.
    pub fn n_vars(&self) -> (r: usize)
        ensures
            r == self.n(),
    {
        self.vars.len()
    }

    pub fn data(&self, t: &BoolTensor) -> (r: &TensorData)
        requires
            t.data_idx < self.unique_tensors@.len(),
        ensures
            *r == self.unique_tensors@[t.data_idx as int],
    {
        &self.unique_tensors[t.data_idx]
    }

    pub fn support(&self, t: &BoolTensor) -> (r: &Vec<u32>)
        requires
            t.data_idx < self.unique_tensors@.len(),
        ensures
            r@ == self.unique_tensors@[t.data_idx as int].support@,
    {
        &self.unique_tensors[t.data_idx].support
    }

    pub fn support_or(&self, t: &BoolTensor) -> (r: u32)
        requires
            t.data_idx < self.unique_tensors@.len(),
        ensures
            r == self.unique_tensors@[t.data_idx as int].support_or,
    {
        self.unique_tensors[t.data_idx].support_or
    }

    pub fn support_and(&self, t: &BoolTensor) -> (r: u32)
        requires
            t.data_idx < self.unique_tensors@.len(),
        ensures
            r == self.unique_tensors@[t.data_idx as int].support_and,
    {
        self.unique_tensors[t.data_idx].support_and
    }

    /// Whether `config`, over the variables of `t`, satisfies it.
    pub fn is_sat(&self, t: &BoolTensor, config: u32) -> (r: bool)
        requires
            t.data_idx < self.unique_tensors@.len(),
            ascending32(self.unique_tensors@[t.data_idx as int].support@),
        ensures
            r == self.unique_tensors@[t.data_idx as int].support@.contains(config),
    {
        let s = &self.unique_tensors[t.data_idx].support;
        let mut lo: usize = 0;
        let mut hi: usize = s.len();
        while lo < hi
            invariant
                lo <= hi <= s.len(),
                t.data_idx < self.unique_tensors@.len(),
                s@ == self.unique_tensors@[t.data_idx as int].support@,
                ascending32(s@),
                forall|k: int| 0 <= k < lo ==> s@[k] < config,
                forall|k: int| hi <= k < s@.len() ==> s@[k] > config,
            decreases hi - lo,
        {
            let mid: usize = lo + (hi - lo) / 2;
            if s[mid] == config {
                assert(s@[mid as int] == config);
                return true;
            }
            if s[mid] < config {
                lo = mid + 1;
            } else {
                hi = mid;
            }
        }
        false
    }
}

/// Whether two configuration lists are equal.
pub(crate) fn same_rows(a: &Vec<u32>, b: &Vec<u32>) -> (r: bool)
    ensures
        r == (a@ == b@),
{
    if a.len() != b.len() {
        return false;
    }
    let mut i: usize = 0;
    while i < a.len()
        invariant
            i <= a.len() == b.len(),
            a@.take(i as int) == b@.take(i as int),
        decreases a.len() - i,
    {
        if a[i] != b[i] {
            return false;
        }
        assert(a@.take(i + 1) =~= a@.take(i as int).push(a@[i as int]));
        assert(b@.take(i + 1) =~= b@.take(i as int).push(b@[i as int]));
        i += 1;
    }
    assert(a@.take(i as int) =~= a@);
    assert(b@.take(i as int) =~= b@);
    true
}

/// A constraint as given: variables in bit order and satisfying configurations.
pub open spec fn input_wf(var_num: int, scope: Seq<usize>, rows: Seq<u32>) -> bool {
    &&& scope.len() <= 32
    &&& distinct(scope)
    &&& forall|i: int| 0 <= i < scope.len() ==> (#[trigger] scope[i]) < var_num
    &&& ascending32(rows)
    &&& forall|k: int|
        0 <= k < rows.len() ==> bits::below((#[trigger] rows[k]) as u64, scope.len() as int)
}

/// Some given constraint mentions the variable `v`.
pub open spec fn mentioned(tensors_in: Seq<(Vec<usize>, Vec<u32>)>, v: int) -> bool {
    exists|t: int| 0 <= t < tensors_in.len() && (#[trigger] tensors_in[t]).0@.contains(v as usize)
}

/// Some constraint uses the stored table `d`.
pub open spec fn table_used(cn: ConstraintNetwork, d: int) -> bool {
    exists|t: int| 0 <= t < cn.m() && (#[trigger] cn.tensors@[t]).data_idx == d
}

/// `cn` is the network of the given constraints, renumbered by `cn.orig_to_new`, with one
/// shared table for each distinct pair of arity and configurations, and no others.
pub open spec fn assembles(
    cn: ConstraintNetwork,
    var_num: int,
    tensors_in: Seq<(Vec<usize>, Vec<u32>)>,
) -> bool {
    &&& cn.wf()
    &&& cn.m() == tensors_in.len()
    &&& cn.orig_to_new@.len() == var_num
    &&& forall|v: int|
        0 <= v < var_num ==> ((#[trigger] cn.orig_to_new@[v]) is Some <==> mentioned(tensors_in, v))
    &&& forall|t: int|
        0 <= t < tensors_in.len() ==> renumbered(
            cn.orig_to_new@,
            (#[trigger] tensors_in[t]).0@,
            cn.axes(t),
        ) && cn.rows(t) == tensors_in[t].1@
    &&& forall|s: int, t: int|
        0 <= s < tensors_in.len() && 0 <= t < tensors_in.len() ==> ((
        #[trigger] cn.tensors@[s]).data_idx == (#[trigger] cn.tensors@[t]).data_idx <==> (
        tensors_in[s].0@.len() == tensors_in[t].0@.len() && tensors_in[s].1@ == tensors_in[t].1@))
    &&& forall|d: int| 0 <= d < cn.unique_tensors@.len() ==> #[trigger] table_used(cn, d)
}

/// `new` is `old` with every id sent through `map`.
pub open spec fn renumbered(map: Seq<Option<usize>>, old_ids: Seq<usize>, new_ids: Seq<usize>) -> bool {
    &&& new_ids.len() == old_ids.len()
    &&& forall|i: int|
        0 <= i < old_ids.len() ==> old_ids[i] < map.len() && map[old_ids[i] as int] == Some(
            #[trigger] new_ids[i],
        )
}

/// The network of the given constraints: equal tables shared, unmentioned variables dropped.
pub fn assemble(var_num: usize, tensors_in: Vec<(Vec<usize>, Vec<u32>)>) -> (r: ConstraintNetwork)
    requires
        forall|t: int|
            0 <= t < tensors_in@.len() ==> input_wf(
                var_num as int,
                (#[trigger] tensors_in@[t]).0@,
                tensors_in@[t].1@,
            ),
    ensures
        assembles(r, var_num as int, tensors_in@),
{
    let f: usize = tensors_in.len();
    // Share the tables.
    let mut unique: Vec<TensorData> = Vec::new();
    let mut arity: Vec<usize> = Vec::new();
    let mut data_of: Vec<usize> = Vec::new();
    let mut used: Vec<bool> = vec![false; var_num];
    let mut i: usize = 0;
    while i < f
        invariant
            i <= f == tensors_in@.len(),
            forall|t: int|
                0 <= t < tensors_in@.len() ==> input_wf(
                    var_num as int,
                    (#[trigger] tensors_in@[t]).0@,
                    tensors_in@[t].1@,
                ),
            unique@.len() == arity@.len(),
            data_of@.len() == i,
            forall|d: int| 0 <= d < unique@.len() ==> #[trigger] filed_under(data_of@, d),
            used@.len() == var_num,
            forall|d: int| 0 <= d < unique@.len() ==> (#[trigger] unique@[d]).wf(),
            forall|d: int, e: int|
                0 <= d < e < unique@.len() ==> !((#[trigger] arity@[d]) == (#[trigger] arity@[e])
                    && unique@[d].support@ == unique@[e].support@),
            forall|t: int|
                0 <= t < i ==> (#[trigger] data_of@[t]) < unique@.len()
                    && arity@[data_of@[t] as int] == tensors_in@[t].0@.len()
                    && unique@[data_of@[t] as int].support@ == tensors_in@[t].1@,
            forall|v: int|
                0 <= v < var_num ==> (#[trigger] used@[v] <==> mentioned(
                    tensors_in@.take(i as int),
                    v,
                )),
        decreases f - i,
    {
        let scope = &tensors_in[i].0;
        let rows = &tensors_in[i].1;
        let mut d: usize = 0;
        while d < unique.len() && !(arity[d] == scope.len() && same_rows(&unique[d].support, rows))
            invariant
                d <= unique@.len() == arity@.len(),
                scope@ == tensors_in@[i as int].0@,
                rows@ == tensors_in@[i as int].1@,
                forall|e: int|
                    0 <= e < d ==> !((#[trigger] arity@[e]) == scope@.len() && unique@[e].support@
                        == rows@),
            decreases unique.len() - d,
        {
            d += 1;
        }
        if d == unique.len() {
            let copy = copy_rows(rows);
            assert(input_wf(var_num as int, tensors_in@[i as int].0@, tensors_in@[i as int].1@));
            unique.push(TensorData::from_support(copy));
            arity.push(scope.len());
        }
        let ghost filed = data_of@;
        data_of.push(d);
        proof {
            assert forall|e: int| 0 <= e < unique@.len() implies #[trigger] filed_under(data_of@, e) by {
                if e == d {
                    assert(data_of@[i as int] == e);
                } else {
                    assert(filed_under(filed, e));
                    let t = choose|t: int| 0 <= t < filed.len() && #[trigger] filed[t] == e;
                    assert(data_of@[t] == e);
                }
            }
        }
        let ghost used0 = used@;
        let mut j: usize = 0;
        while j < scope.len()
            invariant
                j <= scope@.len(),
                scope@ == tensors_in@[i as int].0@,
                i < tensors_in@.len(),
                input_wf(var_num as int, tensors_in@[i as int].0@, tensors_in@[i as int].1@),
                used@.len() == var_num == used0.len(),
                forall|v: int|
                    0 <= v < var_num ==> (#[trigger] used@[v] <==> (used0[v]
                        || scope@.take(j as int).contains(v as usize))),
            decreases scope.len() - j,
        {
            let v: usize = scope[j];
            used.set(v, true);
            proof {
                seqs::lemma_take_next(scope@, j as int);
            }
            j += 1;
        }
        proof {
            assert(scope@.take(j as int) =~= scope@);
            assert forall|v: int| 0 <= v < var_num implies (#[trigger] used@[v] <==> mentioned(
                tensors_in@.take(i + 1),
                v,
            )) by {
                let t0 = tensors_in@.take(i as int);
                let t1 = tensors_in@.take(i + 1);
                assert(used0[v] <==> mentioned(t0, v));
                if mentioned(t0, v) {
                    let t = choose|t: int| 0 <= t < t0.len() && (#[trigger] t0[t]).0@.contains(v as usize);
                    assert(t1[t].0@.contains(v as usize));
                }
                if scope@.contains(v as usize) {
                    assert(t1[i as int].0@.contains(v as usize));
                }
                if mentioned(t1, v) {
                    let t = choose|t: int| 0 <= t < t1.len() && (#[trigger] t1[t]).0@.contains(v as usize);
                    if t < i {
                        assert(t0[t].0@.contains(v as usize));
                    }
                }
            }
        }
        i += 1;
    }
    proof {
        assert(tensors_in@.take(f as int) =~= tensors_in@);
    }
    // Number the mentioned variables.
    let mut orig_to_new: Vec<Option<usize>> = Vec::new();
    let mut next_id: usize = 0;
    let mut v: usize = 0;
    while v < var_num
        invariant
            v <= var_num == used@.len(),
            next_id <= v,
            orig_to_new@.len() == v,
            forall|u: int| 0 <= u < v ==> ((#[trigger] orig_to_new@[u]) is Some <==> used@[u]),
            compresses(orig_to_new@, next_id as int),
        decreases var_num - v,
    {
        let ghost before = orig_to_new@;
        if used[v] {
            orig_to_new.push(Some(next_id));
            next_id += 1;
        } else {
            orig_to_new.push(None);
        }
        proof {
            assert forall|k: int| 0 <= k < next_id implies #[trigger] has_original(orig_to_new@, k) by {
                if k < next_id && !(used@[v as int] && k == next_id - 1) {
                    assert(has_original(before, k));
                    let u = choose|u: int| 0 <= u < before.len() && #[trigger] before[u] == Some(k as usize);
                    assert(orig_to_new@[u] == Some(k as usize));
                } else {
                    assert(orig_to_new@[v as int] == Some(k as usize));
                }
            }
        }
        v += 1;
    }
    // Renumber the scopes.
    let mut tensors: Vec<BoolTensor> = Vec::new();
    let mut i: usize = 0;
    while i < f
        invariant
            i <= f == tensors_in@.len() == data_of@.len(),
            orig_to_new@.len() == var_num,
            compresses(orig_to_new@, next_id as int),
            forall|t: int|
                0 <= t < tensors_in@.len() ==> input_wf(
                    var_num as int,
                    (#[trigger] tensors_in@[t]).0@,
                    tensors_in@[t].1@,
                ),
            forall|u: int|
                0 <= u < var_num ==> ((#[trigger] orig_to_new@[u]) is Some <==> mentioned(
                    tensors_in@,
                    u,
                )),
            tensors@.len() == i,
            forall|t: int|
                0 <= t < i ==> renumbered(
                    orig_to_new@,
                    tensors_in@[t].0@,
                    (#[trigger] tensors@[t]).var_axes@,
                ) && tensors@[t].data_idx == data_of@[t],
        decreases f - i,
    {
        let scope = &tensors_in[i].0;
        let mut axes: Vec<usize> = Vec::new();
        let mut j: usize = 0;
        while j < scope.len()
            invariant
                j <= scope@.len(),
                i < tensors_in@.len(),
                scope@ == tensors_in@[i as int].0@,
                input_wf(var_num as int, tensors_in@[i as int].0@, tensors_in@[i as int].1@),
                orig_to_new@.len() == var_num,
                forall|u: int|
                    0 <= u < var_num ==> ((#[trigger] orig_to_new@[u]) is Some <==> mentioned(
                        tensors_in@,
                        u,
                    )),
                axes@.len() == j,
                forall|k: int|
                    0 <= k < j ==> orig_to_new@[scope@[k] as int] == Some(#[trigger] axes@[k]),
            decreases scope.len() - j,
        {
            let old_id: usize = scope[j];
            assert(tensors_in@[i as int].0@[j as int] == old_id as int as usize);
            assert(mentioned(tensors_in@, old_id as int));
            match orig_to_new[old_id] {
                Some(k) => {
                    axes.push(k);
                },
                None => {
                    assert(false);
                },
            }
            j += 1;
        }
        tensors.push(BoolTensor { var_axes: axes, data_idx: data_of[i] });
        i += 1;
    }
    // Incidence lists.
    proof {
        assert forall|t: int| 0 <= t < f implies axes_wf((#[trigger] tensors@[t]).var_axes@, next_id as int) by {
            lemma_renumbered_wf(orig_to_new@, tensors_in@[t].0@, tensors@[t].var_axes@, var_num as int, tensors_in@[t].1@, next_id as int);
        }
    }
    let v2t = incidence(&tensors, next_id);
    let mut vars: Vec<Variable> = Vec::new();
    let mut v: usize = 0;
    while v < next_id
        invariant
            v <= next_id == v2t@.len(),
            vars@.len() == v,
            forall|u: int| 0 <= u < v ==> (#[trigger] vars@[u]).deg == v2t@[u]@.len(),
        decreases next_id - v,
    {
        vars.push(Variable { deg: v2t[v].len() });
        v += 1;
    }
    let cn = ConstraintNetwork { vars, unique_tensors: unique, tensors, v2t, orig_to_new };
    proof {
        assert forall|t: int| 0 <= t < cn.m() implies #[trigger] cn.tensor_wf(t) by {
            assert(axes_wf(tensors@[t].var_axes@, next_id as int));
            assert(input_wf(var_num as int, tensors_in@[t].0@, tensors_in@[t].1@));
            assert(cn.rows(t) == tensors_in@[t].1@);
        }
        assert forall|v: int| 0 <= v < cn.n() implies #[trigger] cn.incidence_wf(v) by {
            assert(lists_incident(cn.tensors@, v as usize, cn.v2t@[v]@));
            assert(has_original(cn.orig_to_new@, v));
            let u = choose|u: int| 0 <= u < cn.orig_to_new@.len() && #[trigger] cn.orig_to_new@[u] == Some(v as usize);
            assert(mentioned(tensors_in@, u));
            let t = choose|t: int| 0 <= t < tensors_in@.len() && (#[trigger] tensors_in@[t]).0@.contains(u as usize);
            let i = tensors_in@[t].0@.index_of(u as usize);
            assert(renumbered(cn.orig_to_new@, tensors_in@[t].0@, cn.tensors@[t].var_axes@));
            assert(cn.tensors@[t].var_axes@[i] == v as usize);
            assert(cn.tensors@[t].var_axes@.contains(v as usize));
            assert(cn.v2t@[v]@.contains(t as usize));
        }
        assert forall|d: int| 0 <= d < cn.unique_tensors@.len() implies #[trigger] table_used(cn, d) by {
            assert(filed_under(data_of@, d));
            let t = choose|t: int| 0 <= t < data_of@.len() && #[trigger] data_of@[t] == d;
            assert(cn.tensors@[t].data_idx == d);
        }
    }
    cn
}

/// Some entry of the list is `d`.
spec fn filed_under(data_of: Seq<usize>, d: int) -> bool {
    exists|t: int| 0 <= t < data_of.len() && #[trigger] data_of[t] == d
}

/// Axis list invariant: at most thirty-two distinct ids below `n`.
pub open spec fn axes_wf(axes: Seq<usize>, n: int) -> bool {
    &&& axes.len() <= 32
    &&& distinct(axes)
    &&& forall|i: int| 0 <= i < axes.len() ==> (#[trigger] axes[i]) < n
}

proof fn lemma_renumbered_wf(
    map: Seq<Option<usize>>,
    old_ids: Seq<usize>,
    new_ids: Seq<usize>,
    var_num: int,
    rows: Seq<u32>,
    n: int,
)
    requires
        renumbered(map, old_ids, new_ids),
        compresses(map, n),
        input_wf(var_num, old_ids, rows),
        map.len() == var_num,
    ensures
        axes_wf(new_ids, n),
{
    assert forall|i: int| 0 <= i < new_ids.len() implies (#[trigger] new_ids[i]) < n by {
        assert(map[old_ids[i] as int] == Some(new_ids[i]));
    }
    assert forall|i: int, j: int| 0 <= i < j < new_ids.len() implies new_ids[i] != new_ids[j] by {
        assert(map[old_ids[i] as int] == Some(new_ids[i]));
        assert(map[old_ids[j] as int] == Some(new_ids[j]));
        assert(old_ids[i] != old_ids[j]);
        if old_ids[i] < old_ids[j] {
        } else {
        }
    }
}

/// `list` is the ascending list of the constraints among `tensors` that mention `v`.
pub open spec fn lists_incident(tensors: Seq<BoolTensor>, v: usize, list: Seq<usize>) -> bool {
    &&& ascending_ids(list)
    &&& forall|j: int| 0 <= j < list.len() ==> (#[trigger] list[j]) < tensors.len()
        && tensors[list[j] as int].var_axes@.contains(v)
    &&& forall|t: int|
        0 <= t < tensors.len() && (#[trigger] tensors[t]).var_axes@.contains(v) ==> list.contains(
            t as usize,
        )
}

/// For each variable below `n`, the constraints that mention it, ascending.
fn incidence(tensors: &Vec<BoolTensor>, n: usize) -> (r: Vec<Vec<usize>>)
    requires
        forall|t: int| 0 <= t < tensors@.len() ==> axes_wf((#[trigger] tensors@[t]).var_axes@, n as int),
    ensures
        r@.len() == n,
        forall|v: int| 0 <= v < n ==> lists_incident(tensors@, v as usize, (#[trigger] r@[v])@),
{
    let mut out: Vec<Vec<usize>> = Vec::new();
    let mut v: usize = 0;
    while v < n
        invariant
            v <= n,
            out@.len() == v,
            forall|u: int| 0 <= u < v ==> lists_incident(tensors@.take(0), u as usize, (#[trigger] out@[u])@),
        decreases n - v,
    {
        out.push(Vec::new());
        v += 1;
    }
    let mut t: usize = 0;
    while t < tensors.len()
        invariant
            t <= tensors@.len(),
            out@.len() == n,
            forall|t: int|
                0 <= t < tensors@.len() ==> axes_wf((#[trigger] tensors@[t]).var_axes@, n as int),
            forall|u: int|
                0 <= u < n ==> lists_incident(tensors@.take(t as int), u as usize, (#[trigger] out@[u])@),
        decreases tensors.len() - t,
    {
        let axes = &tensors[t].var_axes;
        let ghost out0 = out@;
        let mut j: usize = 0;
        while j < axes.len()
            invariant
                t < tensors@.len(),
                j <= axes@.len(),
                axes@ == tensors@[t as int].var_axes@,
                axes_wf(axes@, n as int),
                out@.len() == n == out0.len(),
                forall|u: int|
                    0 <= u < n ==> (#[trigger] out@[u])@ == (if axes@.take(j as int).contains(u as usize) {
                        out0[u]@.push(t)
                    } else {
                        out0[u]@
                    }),
            decreases axes.len() - j,
        {
            let v: usize = axes[j];
            let ghost before = out@;
            assert(!axes@.take(j as int).contains(v)) by {
                if axes@.take(j as int).contains(v) {
                    let k = choose|k: int| 0 <= k < j && axes@.take(j as int)[k] == v;
                    assert(axes@[k] == axes@[j as int]);
                }
            }
            out[v].push(t);
            assert forall|u: int| 0 <= u < n implies (#[trigger] out@[u])@ == (if axes@.take(
                j + 1,
            ).contains(u as usize) {
                out0[u]@.push(t)
            } else {
                out0[u]@
            }) by {
                assert(before[u]@ == (if axes@.take(j as int).contains(u as usize) {
                    out0[u]@.push(t)
                } else {
                    out0[u]@
                }));
                seqs::lemma_take_next(axes@, j as int);
            }
            j += 1;
        }
        proof {
            assert(axes@.take(j as int) =~= axes@);
            let old_t = tensors@.take(t as int);
            let new_t = tensors@.take(t + 1);
            assert forall|u: int| 0 <= u < n implies lists_incident(
                new_t,
                u as usize,
                (#[trigger] out@[u])@,
            ) by {
                assert(lists_incident(old_t, u as usize, out0[u]@));
                let l0 = out0[u]@;
                let l1 = out@[u]@;
                assert forall|j: int| 0 <= j < l1.len() implies (#[trigger] l1[j]) < new_t.len()
                    && new_t[l1[j] as int].var_axes@.contains(u as usize) by {
                    if j < l0.len() {
                        assert(l0[j] < old_t.len() && old_t[l0[j] as int].var_axes@.contains(u as usize));
                        assert(new_t[l0[j] as int] == old_t[l0[j] as int]);
                    }
                }
                assert forall|s: int|
                    0 <= s < new_t.len() && (#[trigger] new_t[s]).var_axes@.contains(
                        u as usize,
                    ) implies l1.contains(s as usize) by {
                    if s < t {
                        assert(old_t[s].var_axes@.contains(u as usize));
                        let k = choose|k: int| 0 <= k < l0.len() && l0[k] == s as usize;
                        assert(l1[k] == s as usize);
                    } else {
                        assert(l1.last() == t);
                    }
                }
            }
        }
        t += 1;
    }
    assert(tensors@.take(t as int) =~= tensors@);
    out
}

/// A copy of a configuration list.
pub(crate) fn copy_rows(rows: &Vec<u32>) -> (r: Vec<u32>)
    ensures
        r@ == rows@,
{
    let mut out: Vec<u32> = Vec::new();
    let mut i: usize = 0;
    while i < rows.len()
        invariant
            i <= rows@.len(),
            out@ == rows@.take(i as int),
        decreases rows.len() - i,
    {
        out.push(rows[i]);
        assert(rows@.take(i + 1) =~= rows@.take(i as int).push(rows@[i as int]));
        i += 1;
    }
    assert(rows@.take(i as int) =~= rows@);
    out
}

/// `cn` is the network of the scopes with their dense tables.
pub open spec fn sets_up(cn: ConstraintNetwork, var_num: int, scopes: Seq<Vec<usize>>, tables: Seq<Vec<bool>>) -> bool {
    exists|given: Seq<(Vec<usize>, Vec<u32>)>|
        #![trigger assembles(cn, var_num, given)]
        assembles(cn, var_num, given) && given.len() == scopes.len() && (forall|t: int|
            0 <= t < given.len() ==> (#[trigger] given[t]).0@ == scopes[t]@ && lists_true(given[t].1@, tables[t]@))
}

/// Build a network from dense truth tables over the original ids `0..var_num`.
pub fn setup_problem(
    var_num: usize,
    tensors_to_vars: Vec<Vec<usize>>,
    tensor_data: Vec<Vec<bool>>,
) -> (r: ConstraintNetwork)
    requires
        tensors_to_vars@.len() == tensor_data@.len(),
        forall|t: int|
            0 <= t < tensors_to_vars@.len() ==> dense_wf(
                var_num as int,
                (#[trigger] tensors_to_vars@[t])@,
                tensor_data@[t]@,
            ),
    ensures
        sets_up(r, var_num as int, tensors_to_vars@, tensor_data@),
{
    let mut given: Vec<(Vec<usize>, Vec<u32>)> = Vec::new();
    let mut i: usize = 0;
    while i < tensors_to_vars.len()
        invariant
            i <= tensors_to_vars@.len() == tensor_data@.len(),
            forall|t: int|
                0 <= t < tensors_to_vars@.len() ==> dense_wf(
                    var_num as int,
                    (#[trigger] tensors_to_vars@[t])@,
                    tensor_data@[t]@,
                ),
            given@.len() == i,
            forall|t: int|
                0 <= t < i ==> (#[trigger] given@[t]).0@ == tensors_to_vars@[t]@ && lists_true(
                    given@[t].1@,
                    tensor_data@[t]@,
                ) && input_wf(var_num as int, given@[t].0@, given@[t].1@),
        decreases tensors_to_vars.len() - i,
    {
        let ghost scope = tensors_to_vars@[i as int]@;
        let ghost dense = tensor_data@[i as int]@;
        assert(dense_wf(var_num as int, scope, dense));
        proof {
            lemma_pow2_32(scope.len() as int);
        }
        let rows = dense_to_support(&tensor_data[i]);
        proof {
            assert forall|k: int| 0 <= k < rows@.len() implies bits::below(
                (#[trigger] rows@[k]) as u64,
                scope.len() as int,
            ) by {
                bits::lemma_below_iff(rows@[k] as u64, scope.len() as u64);
            }
        }
        let ids = copy_ids(&tensors_to_vars[i]);
        given.push((ids, rows));
        i += 1;
    }
    assemble(var_num, given)
}

/// A scope with a dense table of the right length.
pub open spec fn dense_wf(var_num: int, scope: Seq<usize>, dense: Seq<bool>) -> bool {
    &&& scope.len() <= 32
    &&& distinct(scope)
    &&& forall|i: int| 0 <= i < scope.len() ==> (#[trigger] scope[i]) < var_num
    &&& dense.len() == 1u64 << (scope.len() as u64)
}

pub proof fn lemma_pow2_32(w: int)
    requires
        0 <= w <= 32,
    ensures
        (1u64 << (w as u64)) <= 0x1_0000_0000,
{
    let k = w as u64;
    assert((1u64 << k) <= 0x1_0000_0000u64) by (bit_vector)
        requires
            k <= 32,
    ;
}

/// A copy of an id list.
pub(crate) fn copy_ids(ids: &Vec<usize>) -> (r: Vec<usize>)
    ensures
        r@ == ids@,
{
    let mut out: Vec<usize> = Vec::new();
    let mut i: usize = 0;
    while i < ids.len()
        invariant
            i <= ids@.len(),
            out@ == ids@.take(i as int),
        decreases ids.len() - i,
    {
        out.push(ids[i]);
        assert(ids@.take(i + 1) =~= ids@.take(i as int).push(ids@[i as int]));
        i += 1;
    }
    assert(ids@.take(i as int) =~= ids@);
    out
}

/// The assignment of the kept variables that `a` gives to their originals.
pub open spec fn pulled(map: Seq<Option<usize>>, a: Asg) -> Asg {
    |k: int| a(choose|u: int| 0 <= u < map.len() && #[trigger] map[u] == Some(k as usize))
}

/// Dropping unmentioned variables and renumbering the rest keeps the meaning: `a` satisfies
/// every given constraint exactly when what it gives the kept variables is a model.
pub proof fn law_assemble_keeps_models(
    cn: ConstraintNetwork,
    var_num: int,
    tensors_in: Seq<(Vec<usize>, Vec<u32>)>,
    a: Asg,
)
    requires
        assembles(cn, var_num, tensors_in),
    ensures
        cn.model(pulled(cn.orig_to_new@, a)) <==> (forall|t: int|
            0 <= t < tensors_in.len() ==> rows_hold(
                (#[trigger] tensors_in[t]).0@,
                tensors_in[t].1@,
                a,
            )),
        forall|t: int| 0 <= t < tensors_in.len() ==> (#[trigger] cn.holds(t, pulled(cn.orig_to_new@, a)) <==> rows_hold(tensors_in[t].0@, tensors_in[t].1@, a)),
{
    let map = cn.orig_to_new@;
    let b = pulled(map, a);
    assert forall|t: int| 0 <= t < tensors_in.len() implies (rows_hold(
        (#[trigger] tensors_in[t]).0@,
        tensors_in[t].1@,
        a,
    ) <==> cn.holds(t, b)) by {
        let old_ids = tensors_in[t].0@;
        let new_ids = cn.axes(t);
        assert(cn.rows(t) == tensors_in[t].1@);
        assert forall|i: int| 0 <= i < old_ids.len() implies a(old_ids[i] as int) == b(
            #[trigger] new_ids[i] as int,
        ) by {
            let u = old_ids[i] as int;
            assert(map[u] == Some(new_ids[i]));
            let w = choose|w: int| 0 <= w < map.len() && #[trigger] map[w] == Some(new_ids[i] as int as usize);
            assert(map[w] == map[u]);
            assert(w == u) by {
                if w < u {
                } else if u < w {
                }
            }
        }
        assert forall|row: u64| agrees(old_ids, row, a) <==> #[trigger] agrees(new_ids, row, b) by {
            if agrees(old_ids, row, a) {
                assert forall|i: int| 0 <= i < new_ids.len() implies bits::bit(row, i) == b(
                    #[trigger] new_ids[i] as int,
                ) by {
                    assert(bits::bit(row, i) == a(old_ids[i] as int));
                }
            }
            if agrees(new_ids, row, b) {
                assert forall|i: int| 0 <= i < old_ids.len() implies bits::bit(row, i) == a(
                    #[trigger] old_ids[i] as int,
                ) by {
                    assert(bits::bit(row, i) == b(new_ids[i] as int));
                }
            }
        }
        if rows_hold(old_ids, cn.rows(t), a) {
            let k = choose|k: int| 0 <= k < cn.rows(t).len() && agrees(old_ids, #[trigger] cn.rows(t)[k] as u64, a);
            assert(agrees(new_ids, cn.rows(t)[k] as u64, b));
        }
        if cn.holds(t, b) {
            let k = choose|k: int| 0 <= k < cn.rows(t).len() && agrees(new_ids, #[trigger] cn.rows(t)[k] as u64, b);
            assert(agrees(old_ids, cn.rows(t)[k] as u64, a));
        }
    }
    if cn.model(b) {
        assert forall|t: int| 0 <= t < tensors_in.len() implies rows_hold(
            (#[trigger] tensors_in[t]).0@,
            tensors_in[t].1@,
            a,
        ) by {
            assert(cn.holds(t, b));
        }
    } else {
        let t = choose|t: int| 0 <= t < cn.m() && !#[trigger] cn.holds(t, b);
        assert(!rows_hold(tensors_in[t].0@, tensors_in[t].1@, a));
    }
}

/// Some row agrees with `a` on `scope`.
pub open spec fn rows_hold(scope: Seq<usize>, rows: Seq<u32>, a: Asg) -> bool {
    exists|k: int| 0 <= k < rows.len() && agrees(scope, #[trigger] rows[k] as u64, a)
}

/// `r` lists, for each compressed id, the id it stands for.
pub open spec fn original_ids_of(map: Seq<Option<usize>>, n: int, r: Seq<usize>) -> bool {
    &&& r.len() == n
    &&& ascending_ids(r)
    &&& forall|k: int| 0 <= k < n ==> (#[trigger] r[k]) < map.len() && map[r[k] as int] == Some(k as usize)
}

/// The original id of each compressed variable.
pub fn original_ids(cn: &ConstraintNetwork) -> (r: Vec<usize>)
    requires
        cn.wf(),
    ensures
        original_ids_of(cn.orig_to_new@, cn.n(), r@),
{
    let mut out: Vec<usize> = Vec::new();
    while out.len() < cn.vars.len()
        invariant
            out@.len() <= cn.n(),
        decreases cn.vars.len() - out.len(),
    {
        out.push(0);
    }
    let mut u: usize = 0;
    while u < cn.orig_to_new.len()
        invariant
            cn.wf(),
            u <= cn.orig_to_new@.len(),
            out@.len() == cn.n(),
            forall|w: int| 0 <= w < u && (#[trigger] cn.orig_to_new@[w]) is Some ==> out@[cn.orig_to_new@[w]->0 as int] == w,
        decreases cn.orig_to_new.len() - u,
    {
        let ghost o0 = out@;
        if let Some(k) = cn.orig_to_new[u] {
            out.set(k, u);
            proof {
                assert forall|w: int| 0 <= w < u + 1 && (#[trigger] cn.orig_to_new@[w]) is Some implies out@[cn.orig_to_new@[w]->0 as int] == w by {
                    if w < u {
                        assert(o0[cn.orig_to_new@[w]->0 as int] == w);
                        assert(cn.orig_to_new@[w]->0 < cn.orig_to_new@[u as int]->0);
                    }
                }
            }
        }
        u += 1;
    }
    proof {
        let map = cn.orig_to_new@;
        assert(cn.vars.len() == cn.n());
        assert forall|k: int| 0 <= k < cn.n() implies (#[trigger] out@[k]) < map.len() && map[out@[k] as int] == Some(k as usize) by {
            assert(has_original(map, k));
            let w = choose|w: int| 0 <= w < map.len() && #[trigger] map[w] == Some(k as usize);
            assert(out@[map[w]->0 as int] == w);
        }
        assert forall|i: int, j: int| 0 <= i < j < out@.len() implies out@[i] < out@[j] by {
            assert(map[out@[i] as int] == Some(i as usize));
            assert(map[out@[j] as int] == Some(j as usize));
            if out@[i] > out@[j] {
                assert(map[out@[j] as int]->0 < map[out@[i] as int]->0);
            }
        }
    }
    out
}

/// A numbering of the same variables in the same order is the same numbering.
proof fn lemma_same_numbering(x: Seq<Option<usize>>, n: int, y: Seq<Option<usize>>, m: int, upto: int)
    requires
        compresses(x, n),
        compresses(y, m),
        x.len() == y.len(),
        0 <= upto <= x.len(),
        0 <= n <= usize::MAX,
        0 <= m <= usize::MAX,
        forall|u: int| 0 <= u < x.len() ==> ((#[trigger] x[u]) is Some <==> y[u] is Some),
    ensures
        forall|u: int| 0 <= u < upto ==> x[u] == #[trigger] y[u],
    decreases upto,
{
    if upto > 0 {
        let u = upto - 1;
        lemma_same_numbering(x, n, y, m, u);
        if x[u] is Some {
            assert(y[u] is Some);
            let j = x[u]->0;
            let k = y[u]->0;
            if j < k {
                assert(has_original(y, j as int));
                let w = choose|w: int| 0 <= w < y.len() && #[trigger] y[w] == Some(j as int as usize);
                if u < w {
                    assert(y[u]->0 < y[w]->0);
                }
                assert(w < u);
                assert(x[w] == y[w]);
                assert(x[w]->0 < x[u]->0);
            }
            if k < j {
                assert(has_original(x, k as int));
                let w = choose|w: int| 0 <= w < x.len() && #[trigger] x[w] == Some(k as int as usize);
                if u < w {
                    assert(x[u]->0 < x[w]->0);
                }
                assert(w < u);
                assert(x[w] == y[w]);
                assert(y[w]->0 < y[u]->0);
            }
        } else {
            assert(y[u] is None);
        }
    }
}

/// Two networks are the same constraints over the same variables, numbered alike.
pub open spec fn same_network(x: ConstraintNetwork, y: ConstraintNetwork) -> bool {
    &&& x.n() == y.n()
    &&& x.m() == y.m()
    &&& x.orig_to_new@ == y.orig_to_new@
    &&& forall|t: int| 0 <= t < x.m() ==> #[trigger] x.axes(t) == y.axes(t)
    &&& forall|t: int| 0 <= t < x.m() ==> #[trigger] x.rows(t) == y.rows(t)
    &&& forall|s: int, t: int|
        0 <= s < x.m() && 0 <= t < x.m() ==> ((#[trigger] x.tensors@[s]).data_idx == (#[trigger] x.tensors@[t]).data_idx <==> y.tensors@[s].data_idx == y.tensors@[t].data_idx)
}

/// What a network is made of determines it.
pub proof fn law_assembled_networks_agree(x: ConstraintNetwork, y: ConstraintNetwork, var_num: int, a: Seq<(Vec<usize>, Vec<u32>)>, b: Seq<(Vec<usize>, Vec<u32>)>)
    requires
        assembles(x, var_num, a),
        assembles(y, var_num, b),
        a.len() == b.len(),
        forall|t: int| 0 <= t < a.len() ==> (#[trigger] a[t]).0@ == b[t].0@ && a[t].1@ == b[t].1@,
    ensures
        same_network(x, y),
{
    let m1 = x.orig_to_new@;
    let m2 = y.orig_to_new@;
    assert(x.vars.len() == x.n() && y.vars.len() == y.n());
    assert forall|v: int| 0 <= v < var_num implies ((#[trigger] m1[v]) is Some <==> m2[v] is Some) by {
        assert(m1[v] is Some <==> mentioned(a, v));
        assert(m2[v] is Some <==> mentioned(b, v));
        if mentioned(a, v) {
            let t = choose|t: int| 0 <= t < a.len() && (#[trigger] a[t]).0@.contains(v as usize);
            assert(b[t].0@.contains(v as usize));
        }
        if mentioned(b, v) {
            let t = choose|t: int| 0 <= t < b.len() && (#[trigger] b[t]).0@.contains(v as usize);
            assert(a[t].0@ == b[t].0@);
            assert(a[t].0@.contains(v as usize));
        }
    }
    lemma_same_numbering(m1, x.n(), m2, y.n(), var_num);
    assert(m1 =~= m2);
    if x.n() < y.n() {
        assert(has_original(m2, x.n()));
        let u = choose|u: int| 0 <= u < m2.len() && #[trigger] m2[u] == Some(x.n() as usize);
        assert(m1[u] is Some);
        assert(m1[u]->0 < x.n());
    }
    if y.n() < x.n() {
        assert(has_original(m1, y.n()));
        let u = choose|u: int| 0 <= u < m1.len() && #[trigger] m1[u] == Some(y.n() as usize);
        assert(m2[u] is Some);
        assert(m2[u]->0 < y.n());
    }
    assert forall|t: int| 0 <= t < x.m() implies #[trigger] x.axes(t) == y.axes(t) by {
        assert(renumbered(m1, a[t].0@, x.axes(t)));
        assert(b[t].0@ == a[t].0@);
        assert(renumbered(m2, b[t].0@, y.axes(t)));
        assert forall|i: int| 0 <= i < x.axes(t).len() implies x.axes(t)[i] == y.axes(t)[i] by {
            assert(m1[a[t].0@[i] as int] == Some(x.axes(t)[i]));
            assert(m2[b[t].0@[i] as int] == Some(y.axes(t)[i]));
        }
        assert(x.axes(t) =~= y.axes(t));
    }
    assert forall|t: int| 0 <= t < x.m() implies #[trigger] x.rows(t) == y.rows(t) by {
        assert(x.rows(t) == a[t].1@);
        assert(a[t].1@ == b[t].1@);
        assert(y.rows(t) == b[t].1@);
    }
    assert forall|s: int, t: int|
        0 <= s < x.m() && 0 <= t < x.m() implies ((#[trigger] x.tensors@[s]).data_idx == (#[trigger] x.tensors@[t]).data_idx <==> y.tensors@[s].data_idx == y.tensors@[t].data_idx) by {
        assert(a[s].0@ == b[s].0@ && a[t].0@ == b[t].0@);
        assert(y.tensors@[s].data_idx == y.tensors@[t].data_idx <==> (b[s].0@.len() == b[t].0@.len() && b[s].1@ == b[t].1@));
    }
}

} // verus!
