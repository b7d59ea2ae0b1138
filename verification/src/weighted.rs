//! Weighted relations and weighted networks.
use vstd::prelude::*;

use crate::bits;
use crate::contract;
use crate::contract::{JoinPlan, Relation};
use crate::domain::Asg;
use crate::network;
use crate::network::ConstraintNetwork;
use crate::order;
use crate::semiring::Weight;
use crate::seqs;
use crate::sums;

verus! {

/// A relation whose rows carry weights: bit `j` of a configuration is the value of `vars[j]`.
#[derive(Clone, Debug)]
pub struct WRelation<W> {
    pub vars: Vec<usize>,
    pub rows: Vec<(u64, W)>,
}

/// The summed weight of the rows that agree with `a`.
pub open spec fn weight_at<W: Weight>(vars: Seq<usize>, rows: Seq<(u64, W)>, a: Asg) -> real
    decreases rows.len(),
{
    if rows.len() == 0 {
        0real
    } else {
        weight_at(vars, rows.drop_last(), a) + (if network::agrees(vars, rows.last().0, a) {
            rows.last().1.val()
        } else {
            0real
        })
    }
}

/// The summed weight of all rows.
pub open spec fn weight_sum<W: Weight>(rows: Seq<(u64, W)>) -> real
    decreases rows.len(),
{
    if rows.len() == 0 {
        0real
    } else {
        weight_sum(rows.drop_last()) + rows.last().1.val()
    }
}

/// The configurations of weighted rows.
pub open spec fn configs<W>(rows: Seq<(u64, W)>) -> Seq<u64> {
    Seq::new(rows.len(), |i: int| rows[i].0)
}

/// The two lists have the same configurations with the same weights.
pub open spec fn same_entries<W: Weight>(s: Seq<(u64, W)>, t: Seq<(u64, W)>) -> bool {
    &&& s.len() == t.len()
    &&& forall|k: int| 0 <= k < s.len() ==> has_entry(t, (#[trigger] s[k]).0, s[k].1.val())
    &&& forall|k: int| 0 <= k < t.len() ==> has_entry(s, (#[trigger] t[k]).0, t[k].1.val())
}

/// Some row has the configuration and the weight given.
pub open spec fn has_entry<W: Weight>(rows: Seq<(u64, W)>, c: u64, w: real) -> bool {
    exists|p: int| 0 <= p < rows.len() && (#[trigger] rows[p]).0 == c && rows[p].1.val() == w
}

/// With pairwise different configurations, the weight at `a` is that of the agreeing row.
pub proof fn lemma_weight_row<W: Weight>(vars: Seq<usize>, rows: Seq<(u64, W)>, k: int, a: Asg)
    requires
        contract::rows_wf(vars, configs(rows)),
        0 <= k < rows.len(),
        network::agrees(vars, rows[k].0, a),
    ensures
        weight_at(vars, rows, a) == rows[k].1.val(),
    decreases rows.len(),
{
    let last = rows.len() - 1;
    let rest = rows.drop_last();
    assert(configs(rest) =~= configs(rows).drop_last());
    let cs = configs(rows);
    assert(cs[k] == rows[k].0 && cs[last] == rows[last].0);
    assert(contract::rows_wf(vars, configs(rest))) by {
        assert forall|i: int| 0 <= i < configs(rest).len() implies bits::below(#[trigger] configs(rest)[i], vars.len() as int) by {
            assert(bits::below(cs[i], vars.len() as int));
        }
        assert forall|i: int, j: int| 0 <= i < j < configs(rest).len() implies configs(rest)[i] != configs(rest)[j] by {
            assert(cs[i] != cs[j]);
        }
    }
    if k == last {
        lemma_weight_none_but(vars, rows, k, rest, a);
    } else {
        lemma_weight_row(vars, rest, k, a);
        if network::agrees(vars, rows[last].0, a) {
            assert(bits::below(cs[k], vars.len() as int) && bits::below(cs[last], vars.len() as int));
            contract::lemma_row_unique(vars, cs[k], cs[last], a);
            assert(cs[k] != cs[last]);
        }
    }
}

proof fn lemma_weight_none_but<W: Weight>(vars: Seq<usize>, rows: Seq<(u64, W)>, k: int, prefix: Seq<(u64, W)>, a: Asg)
    requires
        contract::rows_wf(vars, configs(rows)),
        0 <= k < rows.len(),
        network::agrees(vars, rows[k].0, a),
        prefix.len() <= k,
        prefix == rows.take(prefix.len() as int),
    ensures
        weight_at(vars, prefix, a) == 0real,
{
    assert forall|i: int| 0 <= i < prefix.len() implies !network::agrees(vars, (#[trigger] prefix[i]).0, a) by {
        let cs = configs(rows);
        if network::agrees(vars, prefix[i].0, a) {
            assert(prefix[i] == rows[i]);
            assert(cs[i] == rows[i].0 && cs[k] == rows[k].0);
            assert(bits::below(cs[i], vars.len() as int) && bits::below(cs[k], vars.len() as int));
            contract::lemma_row_unique(vars, cs[i], cs[k], a);
            assert(cs[i] != cs[k]);
        }
    }
    lemma_weight_none(vars, prefix, a);
}

/// Where no row agrees, the weight is zero.
pub proof fn lemma_weight_none<W: Weight>(vars: Seq<usize>, rows: Seq<(u64, W)>, a: Asg)
    requires
        forall|i: int| 0 <= i < rows.len() ==> !network::agrees(vars, (#[trigger] rows[i]).0, a),
    ensures
        weight_at(vars, rows, a) == 0real,
    decreases rows.len(),
{
    if rows.len() > 0 {
        let rest = rows.drop_last();
        assert forall|i: int| 0 <= i < rest.len() implies !network::agrees(vars, (#[trigger] rest[i]).0, a) by {
            assert(rest[i] == rows[i]);
        }
        lemma_weight_none(vars, rest, a);
        assert(!network::agrees(vars, rows[rows.len() - 1].0, a));
    }
}

/// The same entries weigh the same.
pub proof fn lemma_weight_same<W: Weight>(vars: Seq<usize>, s: Seq<(u64, W)>, t: Seq<(u64, W)>, a: Asg)
    requires
        contract::rows_wf(vars, configs(s)),
        contract::rows_wf(vars, configs(t)),
        same_entries(s, t),
    ensures
        weight_at(vars, s, a) == weight_at(vars, t, a),
{
    if exists|k: int| 0 <= k < s.len() && network::agrees(vars, (#[trigger] s[k]).0, a) {
        let k = choose|k: int| 0 <= k < s.len() && network::agrees(vars, (#[trigger] s[k]).0, a);
        lemma_weight_row(vars, s, k, a);
        let p = choose|p: int| 0 <= p < t.len() && (#[trigger] t[p]).0 == s[k].0 && t[p].1.val() == s[k].1.val();
        assert(has_entry(t, s[k].0, s[k].1.val()));
        lemma_weight_row(vars, t, p, a);
    } else {
        lemma_weight_none(vars, s, a);
        assert forall|i: int| 0 <= i < t.len() implies !network::agrees(vars, (#[trigger] t[i]).0, a) by {
            assert(has_entry(s, t[i].0, t[i].1.val()));
            let p = choose|p: int| 0 <= p < s.len() && (#[trigger] s[p]).0 == t[i].0 && s[p].1.val() == t[i].1.val();
            assert(!network::agrees(vars, s[p].0, a));
        }
        lemma_weight_none(vars, t, a);
    }
}

/// Weighted rows in ascending order of their configurations.
fn sort_weighted<W: Weight>(rows: Vec<(u64, W)>) -> (r: Vec<(u64, W)>)
    requires
        configs(rows@).no_duplicates(),
    ensures
        order::ascending64(configs(r@)),
        same_entries(rows@, r@),
{
    let mut pairs: Vec<(u64, usize)> = Vec::new();
    let mut i: usize = 0;
    while i < rows.len()
        invariant
            i <= rows@.len(),
            pairs@.len() == i,
            forall|k: int| 0 <= k < i ==> #[trigger] pairs@[k] == (rows@[k].0, k as usize),
        decreases rows.len() - i,
    {
        pairs.push((rows[i].0, i));
        i += 1;
    }
    let ghost before = pairs@;
    order::sort_pairs(&mut pairs);
    proof {
        order::lemma_permutation(pairs@, before);
        assert(before.no_duplicates()) by {
            assert forall|x: int, y: int| 0 <= x < before.len() && 0 <= y < before.len() && x != y implies before[x] != before[y] by {
                assert(before[x] == (rows@[x].0, x as usize));
                assert(before[y] == (rows@[y].0, y as usize));
            }
        }
        assert forall|k: int| 0 <= k < pairs@.len() implies (#[trigger] pairs@[k]).1 < rows@.len() && pairs@[k].0 == rows@[pairs@[k].1 as int].0 by {
            assert(pairs@.contains(pairs@[k]));
            let p = before.index_of(pairs@[k]);
            assert(before[p] == (rows@[p].0, p as usize));
        }
    }
    let mut out: Vec<(u64, W)> = Vec::new();
    let mut k: usize = 0;
    while k < pairs.len()
        invariant
            k <= pairs@.len(),
            out@.len() == k,
            forall|k: int| 0 <= k < pairs@.len() ==> (#[trigger] pairs@[k]).1 < rows@.len() && pairs@[k].0 == rows@[pairs@[k].1 as int].0,
            forall|j: int| 0 <= j < k ==> (#[trigger] out@[j]).0 == pairs@[j].0 && out@[j].1.val() == rows@[pairs@[j].1 as int].1.val(),
        decreases pairs.len() - k,
    {
        let (c, p) = pairs[k];
        out.push((c, rows[p].1.copy()));
        k += 1;
    }
    proof {
        let cs = configs(out@);
        let rs = configs(rows@);
        assert forall|i: int, j: int| 0 <= i < j < cs.len() implies cs[i] < cs[j] by {
            assert(out@[i].0 == pairs@[i].0 && out@[j].0 == pairs@[j].0);
            assert(order::pair_le(pairs@[i], pairs@[j]));
            if cs[i] == cs[j] {
                let p = pairs@[i].1 as int;
                let q = pairs@[j].1 as int;
                assert(rs[p] == rows@[p].0 && rs[q] == rows@[q].0);
                assert(pairs@[i] != pairs@[j]);
                assert(p != q);
                assert(rs[p] != rs[q]);
            }
        }
        assert forall|k: int| 0 <= k < rows@.len() implies has_entry(out@, (#[trigger] rows@[k]).0, rows@[k].1.val()) by {
            assert(before[k] == (rows@[k].0, k as usize));
            assert(before.contains(before[k]));
            assert(pairs@.contains(before[k]));
            let j = pairs@.index_of(before[k]);
            assert(out@[j].0 == rows@[k].0 && out@[j].1.val() == rows@[k].1.val());
        }
        assert forall|k: int| 0 <= k < out@.len() implies has_entry(rows@, (#[trigger] out@[k]).0, out@[k].1.val()) by {
            let p = pairs@[k].1 as int;
            assert(rows@[p].0 == out@[k].0 && rows@[p].1.val() == out@[k].1.val());
        }
    }
    out
}

impl<W: Weight> WRelation<W> {
    /// Ascending variables, at most sixty-four, and ascending configurations over them.
    pub open spec fn wf(self) -> bool {
        &&& network::ascending_ids(self.vars@)
        &&& self.vars@.len() <= 64
        &&& order::ascending64(configs(self.rows@))
        &&& contract::rows_below(configs(self.rows@), self.vars@.len() as int)
    }

    /// The weight at `a`.
    pub open spec fn weigh(self, a: Asg) -> real {
        weight_at(self.vars@, self.rows@, a)
    }

    /// Some row agrees with `a`.
    pub open spec fn supports(self, a: Asg) -> bool {
        contract::some_row(self.vars@, configs(self.rows@), a)
    }

    /// A relation with weight one on every row.
    pub fn from_relation(rel: &Relation) -> (r: WRelation<W>)
        requires
            rel.wf(),
        ensures
            r.wf(),
            r.vars@ == rel.vars@,
            configs(r.rows@) == rel.rows@,
            forall|k: int| 0 <= k < r.rows@.len() ==> (#[trigger] r.rows@[k]).1.val() == 1real,
            forall|a: Asg| #[trigger] r.weigh(a) == (if rel.holds(a) {
                1real
            } else {
                0real
            }),
    {
        let mut rows: Vec<(u64, W)> = Vec::new();
        let mut i: usize = 0;
        while i < rel.rows.len()
            invariant
                i <= rel.rows@.len(),
                rows@.len() == i,
                forall|k: int| 0 <= k < i ==> (#[trigger] rows@[k]).0 == rel.rows@[k] && rows@[k].1.val() == 1real,
            decreases rel.rows.len() - i,
        {
            rows.push((rel.rows[i], W::one()));
            i += 1;
        }
        let r = WRelation { vars: network::copy_ids(&rel.vars), rows };
        proof {
            assert(configs(r.rows@) =~= rel.rows@);
            assert forall|a: Asg| #[trigger] r.weigh(a) == (if rel.holds(a) {
                1real
            } else {
                0real
            }) by {
                if rel.holds(a) {
                    let k = choose|k: int| 0 <= k < rel.rows@.len() && network::agrees(rel.vars@, #[trigger] rel.rows@[k], a);
                    assert(r.rows@[k].0 == rel.rows@[k]);
                    lemma_weight_row(r.vars@, r.rows@, k, a);
                } else {
                    assert forall|i: int| 0 <= i < r.rows@.len() implies !network::agrees(r.vars@, (#[trigger] r.rows@[i]).0, a) by {
                        assert(r.rows@[i].0 == rel.rows@[i]);
                    }
                    lemma_weight_none(r.vars@, r.rows@, a);
                }
            }
        }
        r
    }

    /// A relation with the same rows and weights.
    pub fn copy(&self) -> (r: WRelation<W>)
        ensures
            r.vars@ == self.vars@,
            configs(r.rows@) == configs(self.rows@),
            forall|k: int| 0 <= k < r.rows@.len() ==> (#[trigger] r.rows@[k]).1.val() == self.rows@[k].1.val(),
            forall|a: Asg| #[trigger] r.weigh(a) == self.weigh(a),
    {
        let mut rows: Vec<(u64, W)> = Vec::new();
        let mut i: usize = 0;
        while i < self.rows.len()
            invariant
                i <= self.rows@.len(),
                rows@.len() == i,
                forall|k: int| 0 <= k < i ==> (#[trigger] rows@[k]).0 == self.rows@[k].0 && rows@[k].1.val() == self.rows@[k].1.val(),
            decreases self.rows.len() - i,
        {
            rows.push((self.rows[i].0, self.rows[i].1.copy()));
            i += 1;
        }
        let r = WRelation { vars: network::copy_ids(&self.vars), rows };
        proof {
            assert(configs(r.rows@) =~= configs(self.rows@));
            assert forall|a: Asg| #[trigger] r.weigh(a) == self.weigh(a) by {
                lemma_weight_pointwise(self.vars@, r.rows@, self.rows@, a);
            }
        }
        r
    }

    /// The summed weight of all rows.
    pub fn total(&self) -> (r: W)
        ensures
            r.val() == weight_sum(self.rows@),
    {
        let mut acc = W::zero();
        let mut i: usize = 0;
        while i < self.rows.len()
            invariant
                i <= self.rows@.len(),
                acc.val() == weight_sum(self.rows@.take(i as int)),
            decreases self.rows.len() - i,
        {
            proof {
                seqs::lemma_take_next(self.rows@, i as int);
            }
            acc.add(&self.rows[i].1);
            i += 1;
        }
        proof {
            seqs::lemma_take_all(self.rows@);
        }
        acc
    }
}

/// Lists that are equal entry by entry weigh the same.
proof fn lemma_weight_pointwise<W: Weight>(vars: Seq<usize>, s: Seq<(u64, W)>, t: Seq<(u64, W)>, a: Asg)
    requires
        s.len() == t.len(),
        forall|k: int| 0 <= k < s.len() ==> (#[trigger] s[k]).0 == t[k].0 && s[k].1.val() == t[k].1.val(),
    ensures
        weight_at(vars, s, a) == weight_at(vars, t, a),
    decreases s.len(),
{
    if s.len() > 0 {
        lemma_weight_pointwise(vars, s.drop_last(), t.drop_last(), a);
        assert(s[s.len() - 1].0 == t[t.len() - 1].0);
    }
}

/// `r` is the weighted join of `a` and `b`.
pub open spec fn wjoins<W: Weight>(a: WRelation<W>, b: WRelation<W>, r: WRelation<W>) -> bool {
    &&& r.wf()
    &&& contract::unites(a.vars@, b.vars@, r.vars@)
    &&& forall|x: Asg| #[trigger] r.weigh(x) == a.weigh(x) * b.weigh(x)
    &&& forall|x: Asg| #[trigger] r.supports(x) <==> (a.supports(x) && b.supports(x))
}

/// The configurations of weighted rows.
fn configs_of<W: Weight>(rows: &Vec<(u64, W)>) -> (r: Vec<u64>)
    ensures
        r@ == configs(rows@),
{
    let mut out: Vec<u64> = Vec::new();
    let mut i: usize = 0;
    while i < rows.len()
        invariant
            i <= rows@.len(),
            out@.len() == i,
            forall|k: int| 0 <= k < i ==> #[trigger] out@[k] == rows@[k].0,
        decreases rows.len() - i,
    {
        out.push(rows[i].0);
        i += 1;
    }
    assert(out@ =~= configs(rows@));
    out
}

/// The rows that agree on shared variables, merged, with their weights multiplied.
pub fn wjoin<W: Weight>(a: &WRelation<W>, b: &WRelation<W>) -> (r: WRelation<W>)
    requires
        a.wf(),
        b.wf(),
        contract::union_fits(a.vars@, b.vars@),
    ensures
        wjoins(*a, *b, r),
{
    let plan = contract::join_plan(&a.vars, &b.vars);
    let bc = configs_of(&b.rows);
    let buckets = contract::bucket_rows(&bc, &plan.key_right);
    let mut rows: Vec<(u64, W)> = Vec::new();
    let ghost mut src: Seq<(int, int)> = Seq::empty();
    let ghost ac = configs(a.rows@);
    proof {
        assert(configs(rows@) =~= Seq::<u64>::empty());
    }
    let mut i: usize = 0;
    while i < a.rows.len()
        invariant
            i <= a.rows@.len(),
            a.wf(),
            b.wf(),
            ac == configs(a.rows@),
            bc@ == configs(b.rows@),
            plan.fits(a.vars@, b.vars@),
            contract::buckets_ok(order::filed(buckets), bc@, plan.key_right@, bc@.len() as int),
            contract::join_state(plan, ac, bc@, configs(rows@), src, i as int),
            contract::join_complete(plan, ac, bc@, src, i as int),
            forall|k: int| 0 <= k < rows@.len() ==> (#[trigger] rows@[k]).1.val() == a.rows@[src[k].0].1.val() * b.rows@[src[k].1].1.val(),
        decreases a.rows.len() - i,
    {
        let key: u64 = contract::gather(a.rows[i].0, &plan.key_left);
        let ghost rows0 = rows@;
        let ghost src0 = src;
        assert(ac[i as int] == a.rows@[i as int].0);
        match order::buckets_get(&buckets, key) {
            Some(list) => {
                let mut j: usize = 0;
                while j < list.len()
                    invariant
                        i < a.rows@.len(),
                        j <= list@.len(),
                        a.wf(),
                        b.wf(),
                        ac == configs(a.rows@),
                        bc@ == configs(b.rows@),
                        plan.fits(a.vars@, b.vars@),
                        key == contract::gathered(ac[i as int], plan.key_left@),
                        order::filed(buckets).contains_key(key),
                        list@ == order::filed(buckets)[key],
                        contract::buckets_ok(order::filed(buckets), bc@, plan.key_right@, bc@.len() as int),
                        contract::join_state(plan, ac, bc@, configs(rows@), src, i + 1),
                        src0.len() == rows0.len(),
                        rows@.len() == rows0.len() + j,
                        forall|k: int| 0 <= k < src0.len() ==> #[trigger] src[k] == src0[k],
                        forall|k: int| 0 <= k < src0.len() ==> (#[trigger] src0[k]).0 < i,
                        forall|k: int|
                            src0.len() <= k < src.len() ==> #[trigger] src[k] == (i as int, list@[k - src0.len()] as int),
                        forall|k: int| 0 <= k < rows@.len() ==> (#[trigger] rows@[k]).1.val() == a.rows@[src[k].0].1.val() * b.rows@[src[k].1].1.val(),
                    decreases list.len() - j,
                {
                    let q: usize = list[j];
                    assert(order::filed(buckets)[key][j as int] == q);
                    assert(ac[i as int] == a.rows@[i as int].0);
                    assert(bc@[q as int] == b.rows@[q as int].0);
                    proof {
                        assert forall|p: int| 0 <= p < plan.source@.len() implies (#[trigger] plan.source@[p]).1 < 64 by {}
                    }
                    let row: u64 = plan.merge(a.rows[i].0, b.rows[q].0);
                    let w = a.rows[i].1.mul(&b.rows[q].1);
                    let ghost before = src;
                    let ghost rows1 = rows@;
                    rows.push((row, w));
                    proof {
                        src = src.push((i as int, q as int));
                        let cs = configs(rows@);
                        assert(cs =~= configs(rows1).push(row));
                        assert forall|k: int, l: int| 0 <= k < l < src.len() implies #[trigger] src[k] != #[trigger] src[l] by {
                            if l == before.len() {
                                if k >= src0.len() {
                                    assert(order::filed(buckets)[key][k - src0.len()] < order::filed(buckets)[key][j as int]);
                                } else {
                                    assert(src[k] == src0[k]);
                                }
                            } else {
                                assert(before[k] != before[l]);
                            }
                        }
                    }
                    j += 1;
                }
                proof {
                    assert forall|x: int, y: int|
                        0 <= x < i + 1 && 0 <= y < bc@.len() && #[trigger] plan.matches(ac[x], bc@[y]) implies src.contains((x, y)) by {
                        if x < i {
                            assert(src0.contains((x, y)));
                            let k = src0.index_of((x, y));
                            assert(src[k] == src0[k]);
                        } else {
                            assert(contract::filed_under(order::filed(buckets), contract::gathered(bc@[y], plan.key_right@), y));
                            assert(bc.len() == bc@.len());
                            let k = list@.index_of(y as usize);
                            assert(src[src0.len() + k] == (i as int, list@[k] as int));
                            assert(src[src0.len() + k] == (x, y));
                        }
                    }
                }
            },
            None => {
                proof {
                    assert forall|x: int, y: int|
                        0 <= x < i + 1 && 0 <= y < bc@.len() && #[trigger] plan.matches(ac[x], bc@[y]) implies src.contains((x, y)) by {
                        if x == i {
                            assert(contract::filed_under(order::filed(buckets), contract::gathered(bc@[y], plan.key_right@), y));
                        }
                    }
                }
            },
        }
        i += 1;
    }
    let ghost unsorted = rows@;
    let ghost cs = configs(unsorted);
    proof {
        contract::lemma_join_distinct(plan, a.vars@, ac, b.vars@, bc@, cs, src, i as int);
    }
    let rows = sort_weighted(rows);
    let r = WRelation { vars: plan.vars, rows };
    proof {
        assert(contract::rows_wf(plan.vars@, cs)) by {
            assert forall|k: int| 0 <= k < cs.len() implies bits::below(#[trigger] cs[k], plan.vars@.len() as int) by {
                assert(plan.makes(ac[src[k].0], bc@[src[k].1], cs[k]));
            }
        }
        let rc = configs(r.rows@);
        assert forall|k: int| 0 <= k < rc.len() implies bits::below(#[trigger] rc[k], r.vars@.len() as int) by {
            assert(has_entry(unsorted, r.rows@[k].0, r.rows@[k].1.val()));
            let p = choose|p: int| 0 <= p < unsorted.len() && (#[trigger] unsorted[p]).0 == r.rows@[k].0 && unsorted[p].1.val() == r.rows@[k].1.val();
            assert(cs[p] == unsorted[p].0);
        }
        assert(r.wf());
        assert forall|x: Asg| #[trigger] r.weigh(x) == a.weigh(x) * b.weigh(x) by {
            lemma_weight_same(plan.vars@, unsorted, r.rows@, x);
            lemma_wjoin_weight(plan, *a, *b, unsorted, src, x);
        }
        assert forall|x: Asg| #[trigger] r.supports(x) <==> (a.supports(x) && b.supports(x)) by {
            lemma_wjoin_weight(plan, *a, *b, unsorted, src, x);
            lemma_supports_same(plan.vars@, unsorted, r.rows@, x);
        }
    }
    r
}

/// The same entries support the same assignments.
proof fn lemma_supports_same<W: Weight>(vars: Seq<usize>, s: Seq<(u64, W)>, t: Seq<(u64, W)>, x: Asg)
    requires
        same_entries(s, t),
    ensures
        contract::some_row(vars, configs(s), x) <==> contract::some_row(vars, configs(t), x),
{
    let cs = configs(s);
    let ct = configs(t);
    if contract::some_row(vars, cs, x) {
        let k = choose|k: int| 0 <= k < cs.len() && network::agrees(vars, #[trigger] cs[k], x);
        assert(has_entry(t, s[k].0, s[k].1.val()));
        let p = choose|p: int| 0 <= p < t.len() && (#[trigger] t[p]).0 == s[k].0 && t[p].1.val() == s[k].1.val();
        assert(network::agrees(vars, ct[p], x));
    }
    if contract::some_row(vars, ct, x) {
        let k = choose|k: int| 0 <= k < ct.len() && network::agrees(vars, #[trigger] ct[k], x);
        assert(has_entry(s, t[k].0, t[k].1.val()));
        let p = choose|p: int| 0 <= p < s.len() && (#[trigger] s[p]).0 == t[k].0 && s[p].1.val() == t[k].1.val();
        assert(network::agrees(vars, cs[p], x));
    }
}

/// The rows of a complete weighted join weigh the product of both sides.
proof fn lemma_wjoin_weight<W: Weight>(
    plan: JoinPlan,
    a: WRelation<W>,
    b: WRelation<W>,
    rows: Seq<(u64, W)>,
    src: Seq<(int, int)>,
    x: Asg,
)
    requires
        a.wf(),
        b.wf(),
        plan.fits(a.vars@, b.vars@),
        contract::rows_wf(plan.vars@, configs(rows)),
        contract::join_state(plan, configs(a.rows@), configs(b.rows@), configs(rows), src, a.rows@.len() as int),
        contract::join_complete(plan, configs(a.rows@), configs(b.rows@), src, a.rows@.len() as int),
        forall|k: int| 0 <= k < rows.len() ==> (#[trigger] rows[k]).1.val() == a.rows@[src[k].0].1.val() * b.rows@[src[k].1].1.val(),
    ensures
        weight_at(plan.vars@, rows, x) == a.weigh(x) * b.weigh(x),
        contract::some_row(plan.vars@, configs(rows), x) <==> (a.supports(x) && b.supports(x)),
{
    let ac = configs(a.rows@);
    let bc = configs(b.rows@);
    let cs = configs(rows);
    if a.supports(x) && b.supports(x) {
        let i = choose|i: int| 0 <= i < ac.len() && network::agrees(a.vars@, #[trigger] ac[i], x);
        let j = choose|j: int| 0 <= j < bc.len() && network::agrees(b.vars@, #[trigger] bc[j], x);
        let k = contract::lemma_join_find(plan, a.vars@, ac, b.vars@, bc, cs, src, i, j, x);
        assert(rows[k].0 == cs[k]);
        lemma_weight_row(plan.vars@, rows, k, x);
        lemma_weight_row(a.vars@, a.rows@, i, x);
        lemma_weight_row(b.vars@, b.rows@, j, x);
        assert(network::agrees(plan.vars@, cs[k], x));
    } else {
        assert forall|k: int| 0 <= k < rows.len() implies !network::agrees(plan.vars@, (#[trigger] rows[k]).0, x) by {
            if network::agrees(plan.vars@, rows[k].0, x) {
                assert(cs[k] == rows[k].0);
                contract::lemma_join_origin(plan, a.vars@, ac, b.vars@, bc, cs, src, a.rows@.len() as int, k, x);
                assert(network::agrees(a.vars@, ac[src[k].0], x));
                assert(network::agrees(b.vars@, bc[src[k].1], x));
            }
        }
        lemma_weight_none(plan.vars@, rows, x);
        if contract::some_row(plan.vars@, cs, x) {
            let k = choose|k: int| 0 <= k < cs.len() && network::agrees(plan.vars@, #[trigger] cs[k], x);
            assert(!network::agrees(plan.vars@, rows[k].0, x));
        }
        let p = a.weigh(x);
        let q = b.weigh(x);
        if !a.supports(x) {
            assert forall|k: int| 0 <= k < a.rows@.len() implies !network::agrees(a.vars@, (#[trigger] a.rows@[k]).0, x) by {
                assert(ac[k] == a.rows@[k].0);
            }
            lemma_weight_none(a.vars@, a.rows@, x);
            assert(p * q == 0real) by (nonlinear_arith)
                requires
                    p == 0real,
            ;
        } else {
            assert forall|k: int| 0 <= k < b.rows@.len() implies !network::agrees(b.vars@, (#[trigger] b.rows@[k]).0, x) by {
                assert(bc[k] == b.rows@[k].0);
            }
            lemma_weight_none(b.vars@, b.rows@, x);
            assert(p * q == 0real) by (nonlinear_arith)
                requires
                    q == 0real,
            ;
        }
    }
}

/// The variables of `vars` that are not in `keep`.
pub open spec fn dropped(vars: Seq<usize>, keep: Seq<usize>) -> Seq<int>
    decreases vars.len(),
{
    if vars.len() == 0 {
        Seq::empty()
    } else {
        let rest = dropped(vars.drop_last(), keep);
        if keep.contains(vars.last()) {
            rest
        } else {
            rest.push(vars.last() as int)
        }
    }
}

pub proof fn lemma_dropped(vars: Seq<usize>, keep: Seq<usize>)
    requires
        network::distinct(vars),
    ensures
        sums::unlike(dropped(vars, keep)),
        forall|v: int| #[trigger] dropped(vars, keep).contains(v) <==> (contract::lists(vars, v) && !contract::lists(keep, v)),
    decreases vars.len(),
{
    let d = dropped(vars, keep);
    if vars.len() > 0 {
        let front = vars.drop_last();
        let last = vars.last();
        let rest = dropped(front, keep);
        assert(vars[vars.len() - 1] == last);
        lemma_dropped(front, keep);
        assert forall|v: int| #[trigger] d.contains(v) <==> (contract::lists(vars, v) && !contract::lists(keep, v)) by {
            seqs::lemma_push_contains(rest, last as int);
            assert(rest.contains(v) <==> (contract::lists(front, v) && !contract::lists(keep, v)));
            if contract::lists(front, v) {
                let i = contract::at(front, v);
                assert(vars[i] as int == v);
                assert(contract::lists(vars, v));
            }
            if contract::lists(vars, v) && v != last as int {
                let i = contract::at(vars, v);
                assert(front[i] as int == v);
                assert(contract::lists(front, v));
            }
            if v == last as int {
                assert(contract::lists(vars, v));
                if contract::lists(keep, v) {
                    let i = contract::at(keep, v);
                    assert(keep[i] == last);
                    assert(keep.contains(last));
                }
                if keep.contains(last) {
                    let i = keep.index_of(last);
                    assert(keep[i] as int == v);
                    assert(contract::lists(keep, v));
                }
            }
        }
        if !keep.contains(last) {
            assert(!rest.contains(last as int)) by {
                if rest.contains(last as int) {
                    assert(contract::lists(front, last as int));
                    let i = contract::at(front, last as int);
                    assert(vars[i] != vars[vars.len() - 1]);
                }
            }
            assert forall|i: int, j: int| 0 <= i < j < d.len() implies d[i] != d[j] by {
                if j == d.len() - 1 {
                    assert(rest.contains(rest[i]));
                } else {
                    assert(rest[i] != rest[j]);
                }
            }
        }
    } else {
        assert(d =~= Seq::<int>::empty());
    }
}

/// `row` agrees with `a` on the variables of `vars` that are not in `skip`.
pub open spec fn agrees_but(vars: Seq<usize>, row: u64, a: Asg, skip: Seq<int>) -> bool {
    forall|i: int| 0 <= i < vars.len() && !skip.contains((#[trigger] vars[i]) as int) ==> bits::bit(row, i) == a(vars[i] as int)
}

/// The contribution of one row.
pub open spec fn row_term(vars: Seq<usize>, row: u64, w: real) -> spec_fn(Asg) -> real {
    |b: Asg|
        if network::agrees(vars, row, b) {
            w
        } else {
            0real
        }
}

/// Summed over some of its variables, a row counts once where it agrees on the others.
pub proof fn lemma_row_total(vars: Seq<usize>, row: u64, w: real, a: Asg, skip: Seq<int>)
    requires
        network::distinct(vars),
        sums::unlike(skip),
        forall|v: int| #[trigger] skip.contains(v) ==> contract::lists(vars, v),
    ensures
        sums::total(row_term(vars, row, w), a, skip) == (if agrees_but(vars, row, a, skip) {
            w
        } else {
            0real
        }),
    decreases skip.len(),
{
    let f = row_term(vars, row, w);
    if skip.len() == 0 {
        assert(network::agrees(vars, row, a) == agrees_but(vars, row, a, skip));
    } else {
        let v = skip.last();
        let rest = skip.drop_last();
        assert(skip[skip.len() - 1] == v);
        assert(skip.contains(v));
        assert forall|x: int| #[trigger] rest.contains(x) implies contract::lists(vars, x) by {
            let k = rest.index_of(x);
            assert(skip[k] == x);
            assert(skip.contains(x));
        }
        assert(!rest.contains(v)) by {
            if rest.contains(v) {
                let k = rest.index_of(v);
                assert(skip[k] == v);
            }
        }
        lemma_row_total(vars, row, w, sums::set(a, v, false), rest);
        lemma_row_total(vars, row, w, sums::set(a, v, true), rest);
        assert(contract::lists(vars, v));
        let i = contract::at(vars, v);
        assert(vars[i] as int == v);
        let b = bits::bit(row, i);
        assert(!agrees_but(vars, row, sums::set(a, v, !b), rest)) by {
            assert(!rest.contains(vars[i] as int));
            assert(sums::set(a, v, !b)(v) == !b);
        }
        assert(agrees_but(vars, row, sums::set(a, v, b), rest) == agrees_but(vars, row, a, skip)) by {
            if agrees_but(vars, row, sums::set(a, v, b), rest) {
                assert forall|j: int| 0 <= j < vars.len() && !skip.contains((#[trigger] vars[j]) as int) implies bits::bit(row, j) == a(vars[j] as int) by {
                    let y = vars[j] as int;
                    if rest.contains(y) {
                        let k = rest.index_of(y);
                        assert(skip[k] == y);
                    }
                    assert(y != v);
                    assert(sums::set(a, v, b)(y) == a(y));
                }
            }
            if agrees_but(vars, row, a, skip) {
                assert forall|j: int| 0 <= j < vars.len() && !rest.contains((#[trigger] vars[j]) as int) implies bits::bit(row, j) == sums::set(a, v, b)(vars[j] as int) by {
                    let y = vars[j] as int;
                    if y == v {
                        if i < j {
                            assert(vars[i] != vars[j]);
                        } else if j < i {
                            assert(vars[j] != vars[i]);
                        }
                    } else {
                        if skip.contains(y) {
                            let k = skip.index_of(y);
                            assert(rest[k] == y);
                        }
                    }
                }
            }
        }
    }
}

/// The rows with their configurations packed at `positions`.
pub open spec fn packed<W>(rows: Seq<(u64, W)>, positions: Seq<usize>) -> Seq<(u64, W)> {
    Seq::new(rows.len(), |k: int| (contract::gathered(rows[k].0, positions), rows[k].1))
}

/// Packing onto `keep` is summing over the other variables.
proof fn lemma_packed_total<W: Weight>(
    vars: Seq<usize>,
    rows: Seq<(u64, W)>,
    keep: Seq<usize>,
    positions: Seq<usize>,
    a: Asg,
)
    requires
        network::ascending_ids(vars),
        vars.len() <= 64,
        keep.len() <= 64,
        contract::places(vars, keep, positions),
    ensures
        weight_at(keep, packed(rows, positions), a) == sums::total(
            |b: Asg| weight_at(vars, rows, b),
            a,
            dropped(vars, keep),
        ),
    decreases rows.len(),
{
    let d = dropped(vars, keep);
    let f = |b: Asg| weight_at(vars, rows, b);
    lemma_dropped(vars, keep);
    if rows.len() == 0 {
        assert(packed(rows, positions) =~= Seq::<(u64, W)>::empty());
        sums::lemma_total_zero(f, a, d);
    } else {
        let rest = rows.drop_last();
        let row = rows.last().0;
        let w = rows.last().1.val();
        let g = |b: Asg| weight_at(vars, rest, b);
        let t = row_term(vars, row, w);
        lemma_packed_total(vars, rest, keep, positions, a);
        sums::lemma_total_add(g, t, f, a, d);
        lemma_row_total(vars, row, w, a, d);
        let p = packed(rows, positions);
        assert(p.drop_last() =~= packed(rest, positions));
        let key = contract::gathered(row, positions);
        contract::lemma_gathered(row, positions);
        assert(network::agrees(keep, key, a) == agrees_but(vars, row, a, d)) by {
            if network::agrees(keep, key, a) {
                assert forall|i: int| 0 <= i < vars.len() && !d.contains((#[trigger] vars[i]) as int) implies bits::bit(row, i) == a(vars[i] as int) by {
                    let v = vars[i] as int;
                    assert(contract::lists(vars, v));
                    assert(contract::lists(keep, v));
                    let j = contract::at(keep, v);
                    assert(keep[j] as int == v);
                    assert(vars[positions[j] as int] == vars[i]);
                    assert(positions[j] == i) by {
                        if positions[j] < i {
                        } else if i < positions[j] {
                        }
                    }
                    assert(bits::bit(key, j) == a(keep[j] as int));
                }
            }
            if agrees_but(vars, row, a, d) {
                assert forall|j: int| 0 <= j < keep.len() implies bits::bit(key, j) == a((#[trigger] keep[j]) as int) by {
                    let i = positions[j] as int;
                    assert(vars[i] == keep[j]);
                    assert(contract::lists(keep, keep[j] as int));
                    assert(!d.contains(vars[i] as int));
                }
            }
        }
    }
}

/// Adding to one row's weight.
proof fn lemma_weight_add<W: Weight>(vars: Seq<usize>, s: Seq<(u64, W)>, t: Seq<(u64, W)>, p: int, w: real, a: Asg)
    requires
        s.len() == t.len(),
        0 <= p < s.len(),
        forall|k: int| 0 <= k < s.len() ==> (#[trigger] s[k]).0 == t[k].0,
        forall|k: int| 0 <= k < s.len() && k != p ==> (#[trigger] s[k]).1.val() == t[k].1.val(),
        t[p].1.val() == s[p].1.val() + w,
    ensures
        weight_at(vars, t, a) == weight_at(vars, s, a) + (if network::agrees(vars, s[p].0, a) {
            w
        } else {
            0real
        }),
    decreases s.len(),
{
    let l = s.len() - 1;
    assert(s[l].0 == t[l].0);
    if p == l {
        lemma_weight_pointwise(vars, t.drop_last(), s.drop_last(), a);
    } else {
        lemma_weight_add(vars, s.drop_last(), t.drop_last(), p, w, a);
        assert(s[l].1.val() == t[l].1.val());
    }
}

/// Keys and weights side by side.
pub open spec fn zipped<W>(keys: Seq<u64>, ws: Seq<W>) -> Seq<(u64, W)> {
    Seq::new(keys.len(), |k: int| (keys[k], ws[k]))
}

/// `buckets` knows the slot of every key.
pub open spec fn slots_ok(buckets: Map<u64, Seq<usize>>, keys: Seq<u64>) -> bool {
    &&& forall|key: u64| #[trigger]
        buckets.contains_key(key) ==> buckets[key].len() == 1 && buckets[key][0] < keys.len()
            && keys[buckets[key][0] as int] == key
    &&& forall|k: int| 0 <= k < keys.len() ==> buckets.contains_key(#[trigger] keys[k])
}

impl<W: Weight> WRelation<W> {
    /// What the relation says of `keep` alone, the weights of rows that coincide summed.
    pub fn project(&self, keep: &[usize]) -> (r: WRelation<W>)
        requires
            network::ascending_ids(self.vars@),
            self.vars@.len() <= 64,
            network::ascending_ids(keep@),
            contract::within(keep@, self.vars@),
        ensures
            r.wf(),
            r.vars@ == keep@,
            forall|a: Asg| #[trigger] r.weigh(a) == sums::total(
                |b: Asg| self.weigh(b),
                a,
                dropped(self.vars@, keep@),
            ),
            forall|key: u64| #[trigger] configs(r.rows@).contains(key) <==> packs_some(*self, keep@, key),
    {
        let positions = contract::positions_of(&self.vars, keep);
        proof {
            contract::lemma_within_len(keep@, self.vars@);
            assert forall|j: int| 0 <= j < positions@.len() implies (#[trigger] positions@[j]) < 64 by {
                assert(positions@[j] < self.vars@.len());
            }
        }
        let mut keys: Vec<u64> = Vec::new();
        let mut ws: Vec<W> = Vec::new();
        let mut buckets = order::buckets_new();
        let mut i: usize = 0;
        proof {
            assert(zipped(keys@, ws@) =~= Seq::<(u64, W)>::empty());
            assert(packed(self.rows@.take(0), positions@) =~= Seq::<(u64, W)>::empty());
        }
        while i < self.rows.len()
            invariant
                i <= self.rows@.len(),
                positions@.len() <= 64,
                forall|j: int| 0 <= j < positions@.len() ==> (#[trigger] positions@[j]) < 64,
                contract::places(self.vars@, keep@, positions@),
                keep@.len() <= 64,
                ws@.len() == keys@.len(),
                keys@.no_duplicates(),
                contract::rows_below(keys@, keep@.len() as int),
                forall|k: int| 0 <= k < keys@.len() ==> packs_one(self.rows@, positions@, i as int, #[trigger] keys@[k]),
                forall|q: int| 0 <= q < i ==> keys@.contains(contract::gathered((#[trigger] self.rows@[q]).0, positions@)),
                slots_ok(order::filed(buckets), keys@),
                forall|a: Asg| weight_at(keep@, zipped(keys@, ws@), a) == #[trigger] weight_at(
                    keep@,
                    packed(self.rows@.take(i as int), positions@),
                    a,
                ),
            decreases self.rows.len() - i,
        {
            let key: u64 = contract::gather(self.rows[i].0, &positions);
            let ghost keys0 = keys@;
            let ghost z0 = zipped(keys@, ws@);
            let ghost b0 = order::filed(buckets);
            proof {
                seqs::lemma_take_next(self.rows@, i as int);
                contract::lemma_gathered(self.rows@[i as int].0, positions@);
                let p1 = packed(self.rows@.take(i + 1), positions@);
                assert(p1.drop_last() =~= packed(self.rows@.take(i as int), positions@));
                assert(p1.last() == (key, self.rows@[i as int].1));
                assert forall|k: int| 0 <= k < keys0.len() implies packs_one(self.rows@, positions@, i + 1, #[trigger] keys0[k]) by {
                    let q = choose|q: int| 0 <= q < i && keys0[k] == contract::gathered((#[trigger] self.rows@[q]).0, positions@);
                    assert(keys0[k] == contract::gathered(self.rows@[q].0, positions@));
                }
                assert(packs_one(self.rows@, positions@, i + 1, key)) by {
                    assert(key == contract::gathered(self.rows@[i as int].0, positions@));
                }
            }
            match order::buckets_get(&buckets, key) {
                Some(list) => {
                    let slot: usize = list[0];
                    assert(keys@[slot as int] == key);
                    ws[slot].add(&self.rows[i].1);
                    proof {
                        let z1 = zipped(keys@, ws@);
                        assert forall|a: Asg| weight_at(keep@, z1, a) == #[trigger] weight_at(keep@, packed(self.rows@.take(i + 1), positions@), a) by {
                            assert(z0[slot as int].0 == key);
                            lemma_weight_add(keep@, z0, z1, slot as int, self.rows@[i as int].1.val(), a);
                            assert(weight_at(keep@, z0, a) == weight_at(keep@, packed(self.rows@.take(i as int), positions@), a));
                        }
                    }
                },
                None => {
                    keys.push(key);
                    ws.push(self.rows[i].1.copy());
                    order::buckets_push(&mut buckets, key, keys.len() - 1);
                    proof {
                        let z1 = zipped(keys@, ws@);
                        assert(z1.drop_last() =~= z0);
                        assert forall|a: Asg| weight_at(keep@, z1, a) == #[trigger] weight_at(keep@, packed(self.rows@.take(i + 1), positions@), a) by {
                            assert(weight_at(keep@, z0, a) == weight_at(keep@, packed(self.rows@.take(i as int), positions@), a));
                        }
                        assert(!keys0.contains(key)) by {
                            if keys0.contains(key) {
                                let k = keys0.index_of(key);
                                assert(b0.contains_key(keys0[k]));
                            }
                        }
                        seqs::lemma_push_contains(keys0, key);
                        let b1 = order::filed(buckets);
                        assert(b1[key] =~= seq![(keys@.len() - 1) as usize]);
                        assert forall|k2: u64| #[trigger] b1.contains_key(k2) implies b1[k2].len() == 1 && b1[k2][0] < keys@.len() && keys@[b1[k2][0] as int] == k2 by {
                            if k2 != key {
                                assert(b0.contains_key(k2));
                                assert(b1[k2] == b0[k2]);
                            }
                        }
                        assert forall|k: int| 0 <= k < keys@.len() implies b1.contains_key(#[trigger] keys@[k]) by {
                            if k < keys0.len() {
                                assert(b0.contains_key(keys0[k]));
                            }
                        }
                        assert forall|k: int, l: int| 0 <= k < keys@.len() && 0 <= l < keys@.len() && k != l implies keys@[k] != keys@[l] by {
                            if k < keys0.len() && l < keys0.len() {
                                assert(keys0[k] != keys0[l]);
                            } else if k < keys0.len() {
                                assert(keys0.contains(keys0[k]));
                            } else {
                                assert(keys0.contains(keys0[l]));
                            }
                        }
                    }
                },
            }
            i += 1;
        }
        let mut rows: Vec<(u64, W)> = Vec::new();
        let mut k: usize = 0;
        while k < keys.len()
            invariant
                k <= keys@.len() == ws@.len(),
                rows@.len() == k,
                forall|j: int| 0 <= j < k ==> (#[trigger] rows@[j]).0 == keys@[j] && rows@[j].1.val() == ws@[j].val(),
            decreases keys.len() - k,
        {
            rows.push((keys[k], ws[k].copy()));
            k += 1;
        }
        let ghost unsorted = rows@;
        proof {
            assert(configs(unsorted) =~= keys@);
        }
        let rows = sort_weighted(rows);
        let r = WRelation { vars: contract::slice_to_vec(keep), rows };
        proof {
            let rc = configs(r.rows@);
            assert forall|k: int| 0 <= k < rc.len() implies bits::below(#[trigger] rc[k], r.vars@.len() as int) by {
                assert(has_entry(unsorted, r.rows@[k].0, r.rows@[k].1.val()));
                let p = choose|p: int| 0 <= p < unsorted.len() && (#[trigger] unsorted[p]).0 == r.rows@[k].0 && unsorted[p].1.val() == r.rows@[k].1.val();
                assert(keys@[p] == unsorted[p].0);
            }
            assert forall|key: u64| #[trigger] rc.contains(key) <==> packs_some(*self, keep@, key) by {
                if rc.contains(key) {
                    let k = rc.index_of(key);
                    assert(has_entry(unsorted, r.rows@[k].0, r.rows@[k].1.val()));
                    let p = choose|p: int| 0 <= p < unsorted.len() && (#[trigger] unsorted[p]).0 == r.rows@[k].0 && unsorted[p].1.val() == r.rows@[k].1.val();
                    assert(packs_one(self.rows@, positions@, i as int, keys@[p]));
                    assert(contract::places(self.vars@, keep@, positions@));
                }
                if packs_some(*self, keep@, key) {
                    let ps = choose|ps: Seq<usize>| #[trigger]
                        contract::places(self.vars@, keep@, ps) && packs_one(self.rows@, ps, self.rows@.len() as int, key);
                    assert(ps =~= positions@) by {
                        assert forall|j: int| 0 <= j < ps.len() implies ps[j] == positions@[j] by {
                            assert(self.vars@[ps[j] as int] == self.vars@[positions@[j] as int]);
                            if ps[j] < positions@[j] {
                            } else if positions@[j] < ps[j] {
                            }
                        }
                    }
                    let q = choose|q: int| 0 <= q < self.rows@.len() && key == contract::gathered((#[trigger] self.rows@[q]).0, ps);
                    assert(keys@.contains(key));
                    let p = keys@.index_of(key);
                    assert(has_entry(r.rows@, unsorted[p].0, unsorted[p].1.val()));
                    let k = choose|k: int| 0 <= k < r.rows@.len() && (#[trigger] r.rows@[k]).0 == unsorted[p].0 && r.rows@[k].1.val() == unsorted[p].1.val();
                    assert(rc[k] == key);
                }
            }
            seqs::lemma_take_all(self.rows@);
            assert forall|a: Asg| #[trigger] r.weigh(a) == sums::total(|b: Asg| self.weigh(b), a, dropped(self.vars@, keep@)) by {
                lemma_weight_same(keep@, unsorted, r.rows@, a);
                lemma_weight_pointwise(keep@, unsorted, zipped(keys@, ws@), a);
                assert(weight_at(keep@, zipped(keys@, ws@), a) == weight_at(keep@, packed(self.rows@.take(i as int), positions@), a));
                lemma_packed_total(self.vars@, self.rows@, keep@, positions@, a);
                sums::lemma_total_same(|b: Asg| weight_at(self.vars@, self.rows@, b), |b: Asg| self.weigh(b), a, dropped(self.vars@, keep@));
            }
        }
        r
    }
}

/// The product of the weights at `x`.
pub open spec fn weigh_all<W: Weight>(rels: Seq<WRelation<W>>, x: Asg) -> real {
    sums::product(Seq::new(rels.len(), |i: int| rels[i].weigh(x)))
}

/// Some relation has the variable `v`.
pub open spec fn some_wlists<W: Weight>(rels: Seq<WRelation<W>>, v: usize) -> bool {
    exists|i: int| 0 <= i < rels.len() && (#[trigger] rels[i]).vars@.contains(v)
}

/// Every relation is well formed, and `u` has all their variables.
pub open spec fn all_wwithin<W: Weight>(rels: Seq<WRelation<W>>, u: Seq<usize>) -> bool {
    forall|i: int| 0 <= i < rels.len() ==> (#[trigger] rels[i]).wf() && contract::within(rels[i].vars@, u)
}

/// The relations are well formed and together have at most sixty-four variables.
pub open spec fn wjoinable<W: Weight>(rels: Seq<WRelation<W>>) -> bool {
    exists|u: Seq<usize>| #[trigger] contract::roomy(u) && all_wwithin(rels, u)
}

/// Taking one relation out of a list.
proof fn lemma_wtake_out<W: Weight>(rels: Seq<WRelation<W>>, p: int, x: Asg)
    requires
        0 <= p < rels.len(),
    ensures
        weigh_all(rels, x) == rels[p].weigh(x) * weigh_all(rels.update(p, rels.last()).drop_last(), x),
{
    let s = Seq::new(rels.len(), |i: int| rels[i].weigh(x));
    let rest = rels.update(p, rels.last()).drop_last();
    sums::lemma_product_swap_remove(s, p);
    assert(s.update(p, s.last()).drop_last() =~= Seq::new(rest.len(), |i: int| rest[i].weigh(x)));
}

/// Every relation has a row that agrees with the assignment.
pub open spec fn all_support<W: Weight>(rels: Seq<WRelation<W>>, x: Asg) -> bool {
    forall|i: int| 0 <= i < rels.len() ==> (#[trigger] rels[i]).supports(x)
}

/// Taking one relation out of a list.
proof fn lemma_wtake_out_support<W: Weight>(rels: Seq<WRelation<W>>, p: int, x: Asg)
    requires
        0 <= p < rels.len(),
    ensures
        all_support(rels, x) <==> (rels[p].supports(x) && all_support(rels.update(p, rels.last()).drop_last(), x)),
{
    let rest = rels.update(p, rels.last()).drop_last();
    if all_support(rels, x) {
        assert forall|i: int| 0 <= i < rest.len() implies (#[trigger] rest[i]).supports(x) by {
            if i == p {
                assert(rels[rels.len() - 1].supports(x));
            } else {
                assert(rels[i].supports(x));
            }
        }
    }
    if rels[p].supports(x) && all_support(rest, x) {
        assert forall|i: int| 0 <= i < rels.len() implies (#[trigger] rels[i]).supports(x) by {
            if i != p {
                if i < rels.len() - 1 {
                    assert(rest[i].supports(x));
                } else {
                    assert(rest[p].supports(x));
                }
            }
        }
    }
}

/// Taking one relation out of a list.
proof fn lemma_wtake_out_vars<W: Weight>(rels: Seq<WRelation<W>>, p: int, v: usize)
    requires
        0 <= p < rels.len(),
    ensures
        some_wlists(rels, v) <==> (rels[p].vars@.contains(v) || some_wlists(rels.update(p, rels.last()).drop_last(), v)),
{
    let rest = rels.update(p, rels.last()).drop_last();
    if some_wlists(rels, v) && !rels[p].vars@.contains(v) {
        let i = choose|i: int| 0 <= i < rels.len() && (#[trigger] rels[i]).vars@.contains(v);
        if i < rels.len() - 1 {
            assert(rest[i].vars@.contains(v));
        } else {
            assert(rest[p].vars@.contains(v));
        }
    }
    if some_wlists(rest, v) {
        let i = choose|i: int| 0 <= i < rest.len() && (#[trigger] rest[i]).vars@.contains(v);
        if i == p {
            assert(rels[rels.len() - 1].vars@.contains(v));
        } else {
            assert(rels[i].vars@.contains(v));
        }
    }
}

/// The weighted join of all relations, the one that shares most variables next.
pub fn wjoin_all<W: Weight>(rels: Vec<WRelation<W>>) -> (r: WRelation<W>)
    requires
        rels@.len() > 0,
        wjoinable(rels@),
    ensures
        r.wf(),
        forall|x: Asg| #[trigger] r.weigh(x) == weigh_all(rels@, x),
        forall|x: Asg| #[trigger] r.supports(x) <==> all_support(rels@, x),
        forall|v: usize| #[trigger] r.vars@.contains(v) <==> some_wlists(rels@, v),
{
    let mut todo: Vec<WRelation<W>> = rels;
    let ghost given = todo@;
    let ghost u = choose|u: Seq<usize>| #[trigger] contract::roomy(u) && all_wwithin(given, u);
    proof {
        assert forall|x: Asg| true implies weigh_all(given, x) == given[0].weigh(x) * weigh_all(given.update(0, given.last()).drop_last(), x) by {
            lemma_wtake_out(given, 0, x);
        }
        assert forall|x: Asg| true implies all_support(given, x) <==> (given[0].supports(x) && all_support(given.update(0, given.last()).drop_last(), x)) by {
            lemma_wtake_out_support(given, 0, x);
        }
        assert forall|v: usize| true implies some_wlists(given, v) <==> (given[0].vars@.contains(v) || some_wlists(given.update(0, given.last()).drop_last(), v)) by {
            lemma_wtake_out_vars(given, 0, v);
        }
    }
    let mut acc: WRelation<W> = todo.swap_remove(0);
    while todo.len() > 0
        invariant
            contract::roomy(u),
            all_wwithin(todo@, u),
            acc.wf(),
            contract::within(acc.vars@, u),
            forall|x: Asg| #[trigger] weigh_all(given, x) == acc.weigh(x) * weigh_all(todo@, x),
            forall|v: usize| #[trigger] some_wlists(given, v) <==> (acc.vars@.contains(v) || some_wlists(todo@, v)),
            forall|x: Asg| #[trigger] all_support(given, x) <==> (acc.supports(x) && all_support(todo@, x)),
        decreases todo.len(),
    {
        let mut pick: usize = 0;
        let mut pick_shared: usize = contract::shared_count(&acc.vars, &todo[0].vars);
        let mut i: usize = 1;
        while i < todo.len()
            invariant
                1 <= i <= todo@.len(),
                pick < todo@.len(),
                all_wwithin(todo@, u),
            decreases todo.len() - i,
        {
            let s: usize = contract::shared_count(&acc.vars, &todo[i].vars);
            if s > pick_shared {
                pick = i;
                pick_shared = s;
            }
            i += 1;
        }
        let ghost before = todo@;
        let ghost acc0 = acc;
        let next: WRelation<W> = todo.swap_remove(pick);
        assert(before[pick as int] == next);
        assert(contract::union_fits(acc.vars@, next.vars@));
        acc = wjoin(&acc, &next);
        proof {
            assert forall|x: Asg| #[trigger] weigh_all(given, x) == acc.weigh(x) * weigh_all(todo@, x) by {
                lemma_wtake_out(before, pick as int, x);
                let p = acc0.weigh(x);
                let q = next.weigh(x);
                let r = weigh_all(todo@, x);
                assert(acc.weigh(x) == p * q);
                assert(p * (q * r) == (p * q) * r) by (nonlinear_arith);
            }
            assert forall|x: Asg| #[trigger] all_support(given, x) <==> (acc.supports(x) && all_support(todo@, x)) by {
                lemma_wtake_out_support(before, pick as int, x);
                assert(acc.supports(x) <==> (acc0.supports(x) && next.supports(x)));
            }
            assert forall|v: usize| #[trigger] some_wlists(given, v) <==> (acc.vars@.contains(v) || some_wlists(todo@, v)) by {
                lemma_wtake_out_vars(before, pick as int, v);
                assert(acc.vars@.contains(v) <==> (acc0.vars@.contains(v) || next.vars@.contains(v)));
            }
            assert(contract::within(acc.vars@, u)) by {
                assert forall|i: int| 0 <= i < acc.vars@.len() implies u.contains(#[trigger] acc.vars@[i]) by {
                    let x = acc.vars@[i];
                    assert(acc.vars@.contains(x));
                    if acc0.vars@.contains(x) {
                        let k = acc0.vars@.index_of(x);
                        assert(u.contains(acc0.vars@[k]));
                    } else {
                        let k = next.vars@.index_of(x);
                        assert(u.contains(next.vars@[k]));
                    }
                }
            }
            assert forall|i: int| 0 <= i < todo@.len() implies (#[trigger] todo@[i]).wf() && contract::within(todo@[i].vars@, u) by {
                if i == pick {
                    assert(before[before.len() - 1].wf());
                } else {
                    assert(before[i].wf());
                }
            }
        }
    }
    proof {
        assert forall|v: usize| #[trigger] acc.vars@.contains(v) <==> some_wlists(given, v) by {
            assert(some_wlists(given, v) <==> (acc.vars@.contains(v) || some_wlists(todo@, v)));
        }
        assert forall|x: Asg| #[trigger] acc.supports(x) <==> all_support(given, x) by {
            assert(all_support(given, x) <==> (acc.supports(x) && all_support(todo@, x)));
        }
        assert forall|x: Asg| #[trigger] acc.weigh(x) == weigh_all(given, x) by {
            assert(weigh_all(given, x) == acc.weigh(x) * weigh_all(todo@, x));
            assert(Seq::new(todo@.len(), |i: int| todo@[i].weigh(x)) =~= Seq::<real>::empty());
            let p = acc.weigh(x);
            assert(p * 1real == p) by (nonlinear_arith);
        }
    }
    acc
}

/// One of the first `upto` rows packs to `key`.
pub open spec fn packs_one<W>(rows: Seq<(u64, W)>, positions: Seq<usize>, upto: int, key: u64) -> bool {
    exists|q: int| 0 <= q < upto && key == contract::gathered((#[trigger] rows[q]).0, positions)
}

/// Some row of `rel` says `key` of `keep`.
pub open spec fn packs_some<W: Weight>(rel: WRelation<W>, keep: Seq<usize>, key: u64) -> bool {
    exists|positions: Seq<usize>| #[trigger]
        contract::places(rel.vars@, keep, positions) && packs_one(rel.rows@, positions, rel.rows@.len() as int, key)
}

/// A constraint network whose rows carry weights: `weights[t][k]` is the weight of row `k` of
/// constraint `t`.
pub struct WeightedNetwork<W> {
    pub cn: ConstraintNetwork,
    pub weights: Vec<Vec<W>>,
}

/// One weight for each row of each constraint.
pub open spec fn weights_fit<W>(cn: ConstraintNetwork, weights: Seq<Vec<W>>) -> bool {
    &&& weights.len() == cn.m()
    &&& forall|t: int| 0 <= t < cn.m() ==> (#[trigger] weights[t])@.len() == cn.rows(t).len()
}

/// The weighted rows of constraint `t`.
pub open spec fn weighted_rows<W>(cn: ConstraintNetwork, weights: Seq<Vec<W>>, t: int) -> Seq<(u64, W)> {
    Seq::new(cn.rows(t).len(), |k: int| (cn.rows(t)[k] as u64, weights[t]@[k]))
}

/// The weight of constraint `t` at `a`.
pub open spec fn tensor_weight<W: Weight>(cn: ConstraintNetwork, weights: Seq<Vec<W>>, t: int, a: Asg) -> real {
    weight_at(cn.axes(t), weighted_rows(cn, weights, t), a)
}

/// The product of the weights of all constraints at `a`.
pub open spec fn network_weight<W: Weight>(cn: ConstraintNetwork, weights: Seq<Vec<W>>, a: Asg) -> real {
    sums::product(Seq::new(cn.m() as nat, |t: int| tensor_weight(cn, weights, t, a)))
}

/// `0, 1, .., n - 1`.
pub open spec fn ids(n: int) -> Seq<int> {
    Seq::new(n as nat, |i: int| i)
}

/// The weighted model count: the summed weight of all assignments of the network's variables.
pub open spec fn weighted_count<W: Weight>(cn: ConstraintNetwork, weights: Seq<Vec<W>>) -> real {
    sums::total(|a: Asg| network_weight(cn, weights, a), |v: int| false, ids(cn.n()))
}

/// Each relation has at most thirty-two variables below `var_num`.
pub open spec fn all_wsmall<W: Weight>(rels: Seq<WRelation<W>>, var_num: int) -> bool {
    forall|i: int|
        0 <= i < rels.len() ==> (#[trigger] rels[i]).wf() && rels[i].vars@.len() <= 32 && (forall|j: int|
            0 <= j < rels[i].vars@.len() ==> (#[trigger] rels[i].vars@[j]) < var_num)
}

/// `given` are the relations as constraints, without their weights.
pub open spec fn wnarrows<W>(rels: Seq<WRelation<W>>, given: Seq<(Vec<usize>, Vec<u32>)>) -> bool {
    &&& given.len() == rels.len()
    &&& forall|t: int|
        0 <= t < rels.len() ==> (#[trigger] given[t]).0@ == rels[t].vars@ && given[t].1@.len() == rels[t].rows@.len()
    &&& forall|t: int, k: int|
        0 <= t < rels.len() && 0 <= k < rels[t].rows@.len() ==> (#[trigger] given[t].1@[k]) as u64 == rels[t].rows@[k].0
}

/// `cn` with `weights` is the network of the weighted relations.
pub open spec fn from_wrelations_ok<W: Weight>(cn: ConstraintNetwork, weights: Seq<Vec<W>>, var_num: int, rels: Seq<WRelation<W>>) -> bool {
    &&& exists|given: Seq<(Vec<usize>, Vec<u32>)>| wnarrows(rels, given) && #[trigger] network::assembles(cn, var_num, given)
    &&& weights_fit(cn, weights)
    &&& forall|t: int, k: int|
        0 <= t < rels.len() && 0 <= k < rels[t].rows@.len() ==> (#[trigger] weights[t]@[k]).val() == rels[t].rows@[k].1.val()
}

impl<W: Weight> WeightedNetwork<W> {
    /// One weight for each row of each constraint.
    pub open spec fn wf(self) -> bool {
        self.cn.wf() && weights_fit(self.cn, self.weights@)
    }

    /// The network of weighted relations: constraint `t` is relation `t`.
    pub fn from_relations(var_num: usize, rels: Vec<WRelation<W>>) -> (r: WeightedNetwork<W>)
        requires
            all_wsmall(rels@, var_num as int),
        ensures
            r.wf(),
            from_wrelations_ok(r.cn, r.weights@, var_num as int, rels@),
    {
        let mut plain: Vec<Relation> = Vec::new();
        let mut weights: Vec<Vec<W>> = Vec::new();
        let mut t: usize = 0;
        while t < rels.len()
            invariant
                t <= rels@.len(),
                all_wsmall(rels@, var_num as int),
                plain@.len() == t,
                weights@.len() == t,
                contract::all_small(plain@, var_num as int),
                forall|s: int| 0 <= s < t ==> (#[trigger] plain@[s]).vars@ == rels@[s].vars@ && plain@[s].rows@ == configs(rels@[s].rows@),
                forall|s: int| 0 <= s < t ==> (#[trigger] weights@[s])@.len() == rels@[s].rows@.len(),
                forall|s: int, k: int| 0 <= s < t && 0 <= k < rels@[s].rows@.len() ==> (#[trigger] weights@[s]@[k]).val() == rels@[s].rows@[k].1.val(),
            decreases rels.len() - t,
        {
            assert(rels@[t as int].wf());
            let rel = Relation { vars: network::copy_ids(&rels[t].vars), rows: configs_of(&rels[t].rows) };
            let mut ws: Vec<W> = Vec::new();
            let mut k: usize = 0;
            while k < rels[t].rows.len()
                invariant
                    t < rels@.len(),
                    k <= rels@[t as int].rows@.len(),
                    ws@.len() == k,
                    forall|j: int| 0 <= j < k ==> (#[trigger] ws@[j]).val() == rels@[t as int].rows@[j].1.val(),
                decreases rels@[t as int].rows@.len() - k,
            {
                ws.push(rels[t].rows[k].1.copy());
                k += 1;
            }
            plain.push(rel);
            let ghost w0 = weights@;
            weights.push(ws);
            proof {
                assert forall|s: int, k: int| 0 <= s < t + 1 && 0 <= k < rels@[s].rows@.len() implies (#[trigger] weights@[s]@[k]).val() == rels@[s].rows@[k].1.val() by {
                    if s < t {
                        assert(weights@[s] == w0[s]);
                        assert(w0[s]@[k].val() == rels@[s].rows@[k].1.val());
                    } else {
                        assert(ws@[k].val() == rels@[t as int].rows@[k].1.val());
                    }
                }
            }
            t += 1;
        }
        let ghost plain0 = plain@;
        let cn = contract::setup_from_relations(var_num, plain);
        proof {
            let given = choose|given: Seq<(Vec<usize>, Vec<u32>)>|
                contract::narrows(plain0, given) && #[trigger] network::assembles(cn, var_num as int, given);
            assert(wnarrows(rels@, given)) by {
                assert forall|t: int| 0 <= t < rels@.len() implies (#[trigger] given[t]).0@ == rels@[t].vars@ && given[t].1@.len() == rels@[t].rows@.len() by {
                    assert(plain0[t].vars@ == rels@[t].vars@);
                }
                assert forall|t: int, k: int| 0 <= t < rels@.len() && 0 <= k < rels@[t].rows@.len() implies (#[trigger] given[t].1@[k]) as u64 == rels@[t].rows@[k].0 by {
                    assert(plain0[t].rows@ == configs(rels@[t].rows@));
                    assert(given[t].1@[k] as u64 == plain0[t].rows@[k]);
                }
            }
            assert(network::assembles(cn, var_num as int, given));
            assert forall|t: int| 0 <= t < cn.m() implies (#[trigger] weights@[t])@.len() == cn.rows(t).len() by {
                assert(cn.rows(t) == given[t].1@);
            }
        }
        WeightedNetwork { cn, weights }
    }

    /// Weight one on every row of every constraint.
    pub fn unit(cn: &ConstraintNetwork) -> (r: Vec<Vec<W>>)
        requires
            cn.wf(),
        ensures
            weights_fit(*cn, r@),
            forall|t: int, k: int| 0 <= t < cn.m() && 0 <= k < cn.rows(t).len() ==> (#[trigger] r@[t]@[k]).val() == 1real,
    {
        let mut weights: Vec<Vec<W>> = Vec::new();
        let mut t: usize = 0;
        while t < cn.tensors.len()
            invariant
                t <= cn.tensors@.len(),
                cn.wf(),
                weights@.len() == t,
                forall|s: int| 0 <= s < t ==> (#[trigger] weights@[s])@.len() == cn.rows(s).len(),
                forall|s: int, k: int| 0 <= s < t && 0 <= k < cn.rows(s).len() ==> (#[trigger] weights@[s]@[k]).val() == 1real,
            decreases cn.tensors.len() - t,
        {
            assert(cn.tensor_wf(t as int));
            let n: usize = cn.support(&cn.tensors[t]).len();
            let mut ws: Vec<W> = Vec::new();
            let mut k: usize = 0;
            while k < n
                invariant
                    k <= n,
                    ws@.len() == k,
                    forall|j: int| 0 <= j < k ==> (#[trigger] ws@[j]).val() == 1real,
                decreases n - k,
            {
                ws.push(W::one());
                k += 1;
            }
            let ghost w0 = weights@;
            weights.push(ws);
            proof {
                assert forall|s: int, k: int| 0 <= s < t + 1 && 0 <= k < cn.rows(s).len() implies (#[trigger] weights@[s]@[k]).val() == 1real by {
                    if s < t {
                        assert(w0[s]@[k].val() == 1real);
                    }
                }
            }
            t += 1;
        }
        weights
    }
}

/// Every row weighs one.
pub open spec fn all_ones<W: Weight>(r: WRelation<W>) -> bool {
    forall|k: int| 0 <= k < r.rows@.len() ==> (#[trigger] r.rows@[k]).1.val() == 1real
}

/// Each constraint of `cn` as a relation with weight one on every row.
pub fn unit_weighted_relations<W: Weight>(cn: &ConstraintNetwork) -> (r: Vec<WRelation<W>>)
    requires
        cn.wf(),
    ensures
        all_wsmall(r@, cn.n()),
        r@.len() == cn.m(),
        forall|t: int| 0 <= t < cn.m() ==> all_ones(#[trigger] r@[t]),
        forall|t: int, a: Asg| 0 <= t < cn.m() ==> (#[trigger] r@[t].supports(a) <==> cn.holds(t, a)),
        forall|t: int, v: usize| 0 <= t < cn.m() ==> (#[trigger] r@[t].vars@.contains(v) <==> cn.axes(t).contains(v)),
        forall|t: int, a: Asg| 0 <= t < cn.m() ==> #[trigger] r@[t].weigh(a) == (if cn.holds(t, a) {
            1real
        } else {
            0real
        }),
{
    let mut out: Vec<WRelation<W>> = Vec::new();
    let mut t: usize = 0;
    while t < cn.tensors.len()
        invariant
            t <= cn.tensors@.len(),
            cn.wf(),
            out@.len() == t,
            all_wsmall(out@, cn.n()),
            forall|s: int| 0 <= s < t ==> all_ones(#[trigger] out@[s]),
            forall|s: int, a: Asg| 0 <= s < t ==> (#[trigger] out@[s].supports(a) <==> cn.holds(s, a)),
            forall|s: int, v: usize| 0 <= s < t ==> (#[trigger] out@[s].vars@.contains(v) <==> cn.axes(s).contains(v)),
            forall|s: int, a: Asg| 0 <= s < t ==> #[trigger] out@[s].weigh(a) == (if cn.holds(s, a) {
                1real
            } else {
                0real
            }),
        decreases cn.tensors.len() - t,
    {
        assert(cn.tensor_wf(t as int));
        let tensor = &cn.tensors[t];
        let rel = contract::support_relation(tensor.var_axes.as_slice(), cn.support(tensor).as_slice());
        let ghost o0 = out@;
        out.push(WRelation::from_relation(&rel));
        proof {
            assert(rel.vars@.len() == cn.axes(t as int).len());
            assert forall|j: int| 0 <= j < rel.vars@.len() implies (#[trigger] rel.vars@[j]) < cn.n() by {
                assert(rel.vars@.contains(rel.vars@[j]));
                let i = cn.axes(t as int).index_of(rel.vars@[j]);
                assert(cn.axes(t as int)[i] < cn.n());
            }
            assert forall|s: int| 0 <= s < t + 1 implies all_ones(#[trigger] out@[s]) by {
                if s < t {
                    assert(out@[s] == o0[s]);
                }
            }
            assert forall|s: int, a: Asg| 0 <= s < t + 1 implies (#[trigger] out@[s].supports(a) <==> cn.holds(s, a)) by {
                if s < t {
                    assert(out@[s] == o0[s]);
                    assert(o0[s].supports(a) <==> cn.holds(s, a));
                } else {
                    assert(rel.holds(a) == network::rows_hold(cn.axes(s), cn.rows(s), a));
                }
            }
            assert forall|s: int, a: Asg| 0 <= s < t + 1 implies #[trigger] out@[s].weigh(a) == (if cn.holds(s, a) {
                1real
            } else {
                0real
            }) by {
                if s < t {
                    assert(out@[s] == o0[s]);
                    assert(o0[s].weigh(a) == (if cn.holds(s, a) {
                        1real
                    } else {
                        0real
                    }));
                } else {
                    assert(rel.holds(a) == network::rows_hold(cn.axes(s), cn.rows(s), a));
                }
            }
        }
        t += 1;
    }
    out
}

/// The constraints of a network as relations with weight one, over the original ids.
pub fn original_id_weighted_relations<W: Weight>(cn: &ConstraintNetwork) -> (r: Vec<WRelation<W>>)
    requires
        cn.wf(),
    ensures
        all_wsmall(r@, cn.orig_to_new@.len() as int),
        r@.len() == cn.m(),
        forall|t: int| 0 <= t < cn.m() ==> all_ones(#[trigger] r@[t]),
        forall|t: int, a: Asg| 0 <= t < cn.m() ==> (#[trigger] r@[t].supports(a) <==> cn.holds(t, network::pulled(cn.orig_to_new@, a))),
        forall|t: int, v: usize| 0 <= t < cn.m() ==> (#[trigger] r@[t].vars@.contains(v) <==> came_from(*cn, t, v)),
        forall|t: int, a: Asg| 0 <= t < cn.m() ==> #[trigger] r@[t].weigh(a) == (if cn.holds(t, network::pulled(cn.orig_to_new@, a)) {
            1real
        } else {
            0real
        }),
{
    let back = network::original_ids(cn);
    let ghost map = cn.orig_to_new@;
    let mut out: Vec<WRelation<W>> = Vec::new();
    let mut t: usize = 0;
    while t < cn.tensors.len()
        invariant
            t <= cn.tensors@.len(),
            cn.wf(),
            map == cn.orig_to_new@,
            network::original_ids_of(map, cn.n(), back@),
            out@.len() == t,
            all_wsmall(out@, map.len() as int),
            forall|s: int| 0 <= s < t ==> all_ones(#[trigger] out@[s]),
            forall|s: int, a: Asg| 0 <= s < t ==> (#[trigger] out@[s].supports(a) <==> cn.holds(s, network::pulled(map, a))),
            forall|s: int, v: usize| 0 <= s < t ==> (#[trigger] out@[s].vars@.contains(v) <==> came_from(*cn, s, v)),
            forall|s: int, a: Asg| 0 <= s < t ==> #[trigger] out@[s].weigh(a) == (if cn.holds(s, network::pulled(map, a)) {
                1real
            } else {
                0real
            }),
        decreases cn.tensors.len() - t,
    {
        assert(cn.tensor_wf(t as int));
        let tensor = &cn.tensors[t];
        let ghost axes = cn.axes(t as int);
        let mut vars: Vec<usize> = Vec::new();
        let mut j: usize = 0;
        while j < tensor.var_axes.len()
            invariant
                axes == tensor.var_axes@,
                network::original_ids_of(map, cn.n(), back@),
                forall|i: int| 0 <= i < axes.len() ==> (#[trigger] axes[i]) < cn.n(),
                j <= axes.len(),
                vars@.len() == j,
                forall|i: int| 0 <= i < j ==> #[trigger] vars@[i] == back@[axes[i] as int],
            decreases tensor.var_axes.len() - j,
        {
            assert(axes[j as int] < cn.n());
            vars.push(back[tensor.var_axes[j]]);
            j += 1;
        }
        proof {
            assert forall|i: int, k: int| 0 <= i < k < vars@.len() implies vars@[i] != vars@[k] by {
                assert(axes[i] < cn.n() && axes[k] < cn.n());
                assert(map[back@[axes[i] as int] as int] == Some(axes[i]));
                assert(map[back@[axes[k] as int] as int] == Some(axes[k]));
            }
        }
        let rel = contract::support_relation(vars.as_slice(), cn.support(tensor).as_slice());
        let ghost o0 = out@;
        out.push(WRelation::from_relation(&rel));
        proof {
            assert forall|j: int| 0 <= j < rel.vars@.len() implies (#[trigger] rel.vars@[j]) < map.len() by {
                assert(rel.vars@.contains(rel.vars@[j]));
                let i = vars@.index_of(rel.vars@[j]);
                assert(axes[i] < cn.n());
                assert(back@[axes[i] as int] < map.len());
            }
            assert forall|s: int, v: usize| 0 <= s < t + 1 implies (#[trigger] out@[s].vars@.contains(v) <==> came_from(*cn, s, v)) by {
                if s < t {
                    assert(out@[s] == o0[s]);
                    assert(o0[s].vars@.contains(v) <==> came_from(*cn, s, v));
                } else {
                    assert(rel.vars@.contains(v) <==> vars@.contains(v));
                    lemma_came_from(*cn, t as int, back@, vars@, v);
                }
            }
            assert forall|s: int| 0 <= s < t + 1 implies all_ones(#[trigger] out@[s]) by {
                if s < t {
                    assert(out@[s] == o0[s]);
                }
            }
            assert forall|s: int, a: Asg| 0 <= s < t + 1 implies (#[trigger] out@[s].supports(a) <==> cn.holds(s, network::pulled(map, a))) by {
                if s < t {
                    assert(out@[s] == o0[s]);
                    assert(o0[s].supports(a) <==> cn.holds(s, network::pulled(map, a)));
                } else {
                    assert(rel.holds(a) == network::rows_hold(vars@, cn.rows(s), a));
                    lemma_pulled_rows(*cn, s, back@, vars@, a);
                }
            }
            assert forall|s: int, a: Asg| 0 <= s < t + 1 implies #[trigger] out@[s].weigh(a) == (if cn.holds(s, network::pulled(map, a)) {
                1real
            } else {
                0real
            }) by {
                if s < t {
                    assert(out@[s] == o0[s]);
                    assert(o0[s].weigh(a) == (if cn.holds(s, network::pulled(map, a)) {
                        1real
                    } else {
                        0real
                    }));
                } else {
                    assert(rel.holds(a) == network::rows_hold(vars@, cn.rows(s), a));
                    lemma_pulled_rows(*cn, s, back@, vars@, a);
                }
            }
        }
        t += 1;
    }
    out
}

/// The original id `v` is that of a variable of constraint `t`.
pub open spec fn came_from(cn: ConstraintNetwork, t: int, v: usize) -> bool {
    v < cn.orig_to_new@.len() && cn.orig_to_new@[v as int] is Some && cn.axes(t).contains(cn.orig_to_new@[v as int]->0)
}

proof fn lemma_came_from(cn: ConstraintNetwork, t: int, back: Seq<usize>, vars: Seq<usize>, v: usize)
    requires
        cn.wf(),
        0 <= t < cn.m(),
        network::original_ids_of(cn.orig_to_new@, cn.n(), back),
        vars.len() == cn.axes(t).len(),
        forall|i: int| 0 <= i < vars.len() ==> #[trigger] vars[i] == back[cn.axes(t)[i] as int],
    ensures
        vars.contains(v) <==> came_from(cn, t, v),
{
    let map = cn.orig_to_new@;
    assert(cn.tensor_wf(t));
    if vars.contains(v) {
        let i = vars.index_of(v);
        assert(cn.axes(t)[i] < cn.n());
        assert(map[back[cn.axes(t)[i] as int] as int] == Some(cn.axes(t)[i]));
        assert(cn.axes(t).contains(cn.axes(t)[i]));
    }
    if came_from(cn, t, v) {
        let k = map[v as int]->0;
        let i = cn.axes(t).index_of(k);
        assert(cn.axes(t)[i] < cn.n());
        assert(map[back[k as int] as int] == Some(k));
        assert(back[k as int] == v) by {
            if back[k as int] < v {
                assert(map[back[k as int] as int]->0 < map[v as int]->0);
            } else if back[k as int] > v {
                assert(map[v as int]->0 < map[back[k as int] as int]->0);
            }
        }
        assert(vars[i] == v);
    }
}

proof fn lemma_pulled_rows(cn: ConstraintNetwork, t: int, back: Seq<usize>, vars: Seq<usize>, a: Asg)
    requires
        cn.wf(),
        0 <= t < cn.m(),
        network::original_ids_of(cn.orig_to_new@, cn.n(), back),
        vars.len() == cn.axes(t).len(),
        forall|i: int| 0 <= i < vars.len() ==> #[trigger] vars[i] == back[cn.axes(t)[i] as int],
    ensures
        network::rows_hold(vars, cn.rows(t), a) <==> cn.holds(t, network::pulled(cn.orig_to_new@, a)),
{
    let map = cn.orig_to_new@;
    let p = network::pulled(map, a);
    assert(cn.tensor_wf(t));
    assert forall|i: int| 0 <= i < vars.len() implies a((#[trigger] vars[i]) as int) == p(cn.axes(t)[i] as int) by {
        let k = cn.axes(t)[i];
        assert(k < cn.n());
        assert(map[back[k as int] as int] == Some(k));
        let w = choose|u: int| 0 <= u < map.len() && #[trigger] map[u] == Some(k as int as usize);
        assert(map[w] == Some(k));
        if w < back[k as int] {
            assert(map[w]->0 < map[back[k as int] as int]->0);
        } else if w > back[k as int] {
            assert(map[back[k as int] as int]->0 < map[w]->0);
        }
    }
    assert forall|row: u64| network::agrees(vars, row, a) <==> #[trigger] network::agrees(cn.axes(t), row, p) by {
        if network::agrees(vars, row, a) {
            assert forall|i: int| 0 <= i < cn.axes(t).len() implies bits::bit(row, i) == p(#[trigger] cn.axes(t)[i] as int) by {
                assert(a(vars[i] as int) == p(cn.axes(t)[i] as int));
            }
        }
        if network::agrees(cn.axes(t), row, p) {
            assert forall|i: int| 0 <= i < vars.len() implies bits::bit(row, i) == a(#[trigger] vars[i] as int) by {
                assert(p(cn.axes(t)[i] as int) == a(vars[i] as int));
            }
        }
    }
    if network::rows_hold(vars, cn.rows(t), a) {
        let k = choose|k: int| 0 <= k < cn.rows(t).len() && network::agrees(vars, #[trigger] cn.rows(t)[k] as u64, a);
        assert(network::agrees(cn.axes(t), cn.rows(t)[k] as u64, p));
    }
    if cn.holds(t, p) {
        let k = choose|k: int| 0 <= k < cn.rows(t).len() && network::agrees(cn.axes(t), #[trigger] cn.rows(t)[k] as u64, p);
        assert(network::agrees(vars, cn.rows(t)[k] as u64, a));
    }
}

/// Weighted rows over variables in any order, as a relation over the variables in ascending
/// order.
pub fn support_wrelation<W: Weight>(var_axes: &[usize], rows: &Vec<(u64, W)>) -> (r: WRelation<W>)
    requires
        var_axes@.len() <= 32,
        network::distinct(var_axes@),
        configs(rows@).no_duplicates(),
        contract::rows_below(configs(rows@), var_axes@.len() as int),
    ensures
        r.wf(),
        r.vars@.len() == var_axes@.len(),
        forall|v: usize| #[trigger] r.vars@.contains(v) <==> var_axes@.contains(v),
        forall|a: Asg| #[trigger] r.weigh(a) == weight_at(var_axes@, rows@, a),
        forall|a: Asg| #[trigger] r.supports(a) <==> contract::some_row(var_axes@, configs(rows@), a),
{
    let vars = order::sort_dedup_ids(contract::slice_to_vec(var_axes));
    proof {
        contract::lemma_within_both(vars@, var_axes@);
    }
    let positions = contract::axis_positions(var_axes, &vars);
    let ghost ps = positions@;
    let ghost axes = var_axes@;
    let mut out: Vec<(u64, W)> = Vec::new();
    let mut k: usize = 0;
    while k < rows.len()
        invariant
            axes == var_axes@,
            ps == positions@,
            axes.len() <= 32,
            contract::places(axes, vars@, ps),
            vars@.len() == axes.len(),
            k <= rows@.len(),
            out@.len() == k,
            forall|i: int| 0 <= i < k ==> (#[trigger] out@[i]).0 == contract::gathered(rows@[i].0, ps) && out@[i].1.val() == rows@[i].1.val(),
        decreases rows.len() - k,
    {
        proof {
            assert forall|j: int| 0 <= j < ps.len() implies (#[trigger] ps[j]) < 64 by {}
        }
        out.push((contract::gather(rows[k].0, &positions), rows[k].1.copy()));
        k += 1;
    }
    let ghost mid = out@;
    proof {
        assert forall|i: int| 0 <= i < axes.len() implies vars@.contains(#[trigger] axes[i]) by {
            assert(axes.contains(axes[i]));
        }
        assert forall|i: int| 0 <= i < mid.len() implies bits::below(#[trigger] configs(mid)[i], vars@.len() as int) by {
            assert(mid[i].0 == contract::gathered(rows@[i].0, ps));
            contract::lemma_gathered(rows@[i].0, ps);
        }
        assert(configs(mid).no_duplicates()) by {
            assert forall|i: int, j: int| 0 <= i < configs(mid).len() && 0 <= j < configs(mid).len() && i != j implies configs(mid)[i] != configs(mid)[j] by {
                assert(mid[i].0 == contract::gathered(rows@[i].0, ps));
                assert(mid[j].0 == contract::gathered(rows@[j].0, ps));
                assert(bits::below(configs(rows@)[i], axes.len() as int));
                assert(bits::below(configs(rows@)[j], axes.len() as int));
                if mid[i].0 == mid[j].0 {
                    lemma_gathered_injective(axes, vars@, ps, rows@[i].0, rows@[j].0);
                    assert(configs(rows@)[i] == configs(rows@)[j]);
                }
            }
        }
    }
    let sorted = sort_weighted(out);
    let r = WRelation { vars, rows: sorted };
    proof {
        assert(contract::rows_wf(r.vars@, configs(mid)));
        assert forall|i: int| 0 <= i < r.rows@.len() implies bits::below(#[trigger] configs(r.rows@)[i], r.vars@.len() as int) by {
            assert(has_entry(mid, r.rows@[i].0, r.rows@[i].1.val()));
            let p = choose|p: int| 0 <= p < mid.len() && (#[trigger] mid[p]).0 == r.rows@[i].0 && mid[p].1.val() == r.rows@[i].1.val();
            assert(configs(mid)[p] == configs(r.rows@)[i]);
        }
        assert(contract::rows_wf(r.vars@, configs(r.rows@)));
        assert forall|a: Asg| #[trigger] r.weigh(a) == weight_at(axes, rows@, a) by {
            lemma_weight_same(r.vars@, mid, r.rows@, a);
            lemma_weight_reencoded(axes, r.vars@, ps, rows@, mid, a);
        }
        assert forall|a: Asg| #[trigger] r.supports(a) <==> contract::some_row(axes, configs(rows@), a) by {
            if r.supports(a) {
                let k = choose|k: int| 0 <= k < configs(r.rows@).len() && network::agrees(r.vars@, #[trigger] configs(r.rows@)[k], a);
                assert(has_entry(mid, r.rows@[k].0, r.rows@[k].1.val()));
                let p = choose|p: int| 0 <= p < mid.len() && (#[trigger] mid[p]).0 == r.rows@[k].0 && mid[p].1.val() == r.rows@[k].1.val();
                contract::lemma_reencoded_agrees(axes, r.vars@, ps, rows@[p].0, a);
                assert(network::agrees(axes, configs(rows@)[p], a));
            }
            if contract::some_row(axes, configs(rows@), a) {
                let p = choose|p: int| 0 <= p < configs(rows@).len() && network::agrees(axes, #[trigger] configs(rows@)[p], a);
                contract::lemma_gathered_agrees(axes, rows@[p].0, r.vars@, ps, a);
                assert(mid[p].0 == contract::gathered(rows@[p].0, ps));
                assert(has_entry(r.rows@, mid[p].0, mid[p].1.val()));
                let k = choose|k: int| 0 <= k < r.rows@.len() && (#[trigger] r.rows@[k]).0 == mid[p].0 && r.rows@[k].1.val() == mid[p].1.val();
                assert(network::agrees(r.vars@, configs(r.rows@)[k], a));
            }
        }
    }
    r
}

proof fn lemma_gathered_injective(axes: Seq<usize>, vars: Seq<usize>, ps: Seq<usize>, c: u64, d: u64)
    requires
        axes.len() <= 32,
        vars.len() <= 64,
        network::distinct(axes),
        contract::places(axes, vars, ps),
        forall|i: int| 0 <= i < axes.len() ==> vars.contains(#[trigger] axes[i]),
        bits::below(c, axes.len() as int),
        bits::below(d, axes.len() as int),
        contract::gathered(c, ps) == contract::gathered(d, ps),
    ensures
        c == d,
{
    let a = |v: int| exists|i: int| 0 <= i < axes.len() && (#[trigger] axes[i]) as int == v && bits::bit(c, i);
    assert(network::agrees(axes, c, a)) by {
        assert forall|i: int| 0 <= i < axes.len() implies bits::bit(c, i) == a((#[trigger] axes[i]) as int) by {
            if a(axes[i] as int) {
                let j = choose|j: int| 0 <= j < axes.len() && (#[trigger] axes[j]) as int == axes[i] as int && bits::bit(c, j);
                assert(i == j) by {
                    if i < j {
                        assert(axes[i] != axes[j]);
                    } else if j < i {
                        assert(axes[j] != axes[i]);
                    }
                }
            }
        }
    }
    contract::lemma_gathered_agrees(axes, c, vars, ps, a);
    contract::lemma_reencoded_agrees(axes, vars, ps, d, a);
    assert forall|j: int| 0 <= j < 64 implies #[trigger] bits::bit(c, j) == bits::bit(d, j) by {
        if j < axes.len() {
            assert(bits::bit(c, j) == a(axes[j] as int));
            assert(bits::bit(d, j) == a(axes[j] as int));
        }
    }
    bits::lemma_bits_equal(c, d);
}

proof fn lemma_weight_reencoded<W: Weight>(axes: Seq<usize>, vars: Seq<usize>, ps: Seq<usize>, rows: Seq<(u64, W)>, mid: Seq<(u64, W)>, a: Asg)
    requires
        axes.len() <= 32,
        vars.len() <= 64,
        network::distinct(axes),
        contract::places(axes, vars, ps),
        forall|i: int| 0 <= i < axes.len() ==> vars.contains(#[trigger] axes[i]),
        mid.len() == rows.len(),
        forall|i: int| 0 <= i < mid.len() ==> (#[trigger] mid[i]).0 == contract::gathered(rows[i].0, ps) && mid[i].1.val() == rows[i].1.val(),
    ensures
        weight_at(vars, mid, a) == weight_at(axes, rows, a),
    decreases rows.len(),
{
    if rows.len() > 0 {
        lemma_weight_reencoded(axes, vars, ps, rows.drop_last(), mid.drop_last(), a);
        let n = rows.len() - 1;
        assert(mid[n].0 == contract::gathered(rows[n].0, ps));
        if network::agrees(axes, rows[n].0, a) {
            contract::lemma_gathered_agrees(axes, rows[n].0, vars, ps, a);
        }
        if network::agrees(vars, mid[n].0, a) {
            contract::lemma_reencoded_agrees(axes, vars, ps, rows[n].0, a);
        }
    }
}

/// The relations over original ids are the tables that a network was set up from: over the same
/// variables, with a row exactly where the table is true, which weighs one.
pub proof fn law_original_relations_are_the_tables<W: Weight>(cn: ConstraintNetwork, var_num: int, scopes: Seq<Vec<usize>>, tables: Seq<Vec<bool>>, rels: Seq<WRelation<W>>, t: int)
    requires
        scopes.len() == tables.len(),
        forall|t: int| 0 <= t < scopes.len() ==> network::dense_wf(var_num, (#[trigger] scopes[t])@, tables[t]@),
        network::sets_up(cn, var_num, scopes, tables),
        rels.len() == cn.m(),
        forall|t: int, v: usize| 0 <= t < cn.m() ==> (#[trigger] rels[t].vars@.contains(v) <==> came_from(cn, t, v)),
        forall|t: int, a: Asg| 0 <= t < cn.m() ==> #[trigger] rels[t].weigh(a) == (if cn.holds(t, network::pulled(cn.orig_to_new@, a)) {
            1real
        } else {
            0real
        }),
        forall|t: int, a: Asg| 0 <= t < cn.m() ==> (#[trigger] rels[t].supports(a) <==> cn.holds(t, network::pulled(cn.orig_to_new@, a))),
        0 <= t < scopes.len(),
    ensures
        rels.len() == scopes.len(),
        forall|v: usize| #[trigger] rels[t].vars@.contains(v) <==> scopes[t]@.contains(v),
        forall|c: int, a: Asg|
            0 <= c < tables[t]@.len() && #[trigger] network::agrees(scopes[t]@, c as u64, a) ==> (rels[t].supports(a) <==> tables[t]@[c]) && rels[t].weigh(a) == (if tables[t]@[c] {
                1real
            } else {
                0real
            }),
{
    let given = choose|given: Seq<(Vec<usize>, Vec<u32>)>|
        #![trigger network::assembles(cn, var_num, given)]
        network::assembles(cn, var_num, given) && given.len() == scopes.len() && (forall|t: int|
            0 <= t < given.len() ==> (#[trigger] given[t]).0@ == scopes[t]@ && network::lists_true(given[t].1@, tables[t]@));
    let map = cn.orig_to_new@;
    assert(given[t].0@ == scopes[t]@);
    assert(network::renumbered(map, given[t].0@, cn.axes(t)));
    assert forall|v: usize| #[trigger] rels[t].vars@.contains(v) <==> scopes[t]@.contains(v) by {
        assert(rels[t].vars@.contains(v) <==> came_from(cn, t, v));
        if scopes[t]@.contains(v) {
            let i = scopes[t]@.index_of(v);
            assert(map[given[t].0@[i] as int] == Some(cn.axes(t)[i]));
            assert(cn.axes(t).contains(cn.axes(t)[i]));
        }
        if came_from(cn, t, v) {
            let i = cn.axes(t).index_of(map[v as int]->0);
            let u = given[t].0@[i] as int;
            assert(map[u] == Some(cn.axes(t)[i]));
            if u < v {
                assert(map[u]->0 < map[v as int]->0);
            } else if v < u {
                assert(map[v as int]->0 < map[u]->0);
            }
            assert(scopes[t]@[i] == v);
        }
    }
    assert forall|c: int, a: Asg|
        0 <= c < tables[t]@.len() && #[trigger] network::agrees(scopes[t]@, c as u64, a) implies (rels[t].supports(a) <==> tables[t]@[c]) && rels[t].weigh(a) == (if tables[t]@[c] {
            1real
        } else {
            0real
        }) by {
        network::law_assemble_keeps_models(cn, var_num, given, a);
        assert(cn.holds(t, network::pulled(map, a)) <==> network::rows_hold(given[t].0@, given[t].1@, a));
        let w = scopes[t]@.len() as int;
        network::lemma_pow2_32(w);
        if tables[t]@[c] {
            assert(given[t].1@.contains(c as u32));
            let k = given[t].1@.index_of(c as u32);
            assert(given[t].1@[k] as u64 == c as u64);
            assert(network::agrees(given[t].0@, given[t].1@[k] as u64, a));
        }
        if network::rows_hold(given[t].0@, given[t].1@, a) {
            let k = choose|k: int| 0 <= k < given[t].1@.len() && network::agrees(given[t].0@, #[trigger] given[t].1@[k] as u64, a);
            let x = given[t].1@[k] as u64;
            let y = c as u64;
            bits::lemma_below_iff(x, w as u64);
            bits::lemma_below_iff(y, w as u64);
            assert forall|i: int| 0 <= i < 64 implies bits::bit(x, i) == bits::bit(y, i) by {
                if i < w {
                    assert(bits::bit(x, i) == a(scopes[t]@[i] as int));
                    assert(bits::bit(y, i) == a(scopes[t]@[i] as int));
                }
            }
            bits::lemma_bits_equal(x, y);
            assert(tables[t]@[given[t].1@[k] as int]);
        }
    }
}

} // verus!
