//! Relations over Boolean variables, plain and weighted: join, projection, contraction.
use vstd::prelude::*;

use crate::bits;
use crate::domain::{Asg, DomainMask};
use crate::network;
use crate::network::{BoolTensor, ConstraintNetwork};
use crate::order;
use crate::propagate;
use crate::region::Region;
use crate::seqs;

pub use crate::weighted::{unit_weighted_relations, wjoin, wjoin_all, WRelation, WeightedNetwork};

verus! {

/// `v` is one of `vars`.
pub open spec fn lists(vars: Seq<usize>, v: int) -> bool {
    exists|i: int| 0 <= i < vars.len() && (#[trigger] vars[i]) as int == v
}

/// The position of `v` among `vars`.
pub open spec fn at(vars: Seq<usize>, v: int) -> int {
    choose|i: int| 0 <= i < vars.len() && (#[trigger] vars[i]) as int == v
}

/// `a`, except that `vars` have the values that `row` gives them.
pub open spec fn overlay(vars: Seq<usize>, row: u64, a: Asg) -> Asg {
    |v: int|
        if lists(vars, v) {
            bits::bit(row, at(vars, v))
        } else {
            a(v)
        }
}

/// Some row agrees with `a` on `vars`.
pub open spec fn some_row(vars: Seq<usize>, rows: Seq<u64>, a: Asg) -> bool {
    exists|k: int| 0 <= k < rows.len() && network::agrees(vars, #[trigger] rows[k], a)
}

/// `a` and `b` give every variable of `vars` the same value.
pub open spec fn same_on(vars: Seq<usize>, a: Asg, b: Asg) -> bool {
    forall|i: int| 0 <= i < vars.len() ==> a((#[trigger] vars[i]) as int) == b(vars[i] as int)
}

/// Every row uses only the lowest `w` bits.
pub open spec fn rows_below(rows: Seq<u64>, w: int) -> bool {
    forall|k: int| 0 <= k < rows.len() ==> bits::below(#[trigger] rows[k], w)
}

/// Every element of `part` is one of `whole`.
pub open spec fn within(part: Seq<usize>, whole: Seq<usize>) -> bool {
    forall|i: int| 0 <= i < part.len() ==> whole.contains(#[trigger] part[i])
}

/// The bits of `row` at `positions`, packed in that order.
pub open spec fn gathered(row: u64, positions: Seq<usize>) -> u64
    decreases positions.len(),
{
    if positions.len() == 0 {
        0
    } else {
        let rest = gathered(row, positions.drop_last());
        if bits::bit(row, positions.last() as int) {
            rest | (1u64 << ((positions.len() - 1) as u64))
        } else {
            rest
        }
    }
}

pub proof fn lemma_gathered(row: u64, positions: Seq<usize>)
    requires
        positions.len() <= 64,
    ensures
        forall|j: int|
            0 <= j < positions.len() ==> #[trigger] bits::bit(gathered(row, positions), j) == bits::bit(
                row,
                positions[j] as int,
            ),
        bits::below(gathered(row, positions), positions.len() as int),
    decreases positions.len(),
{
    broadcast use bits::group_bits;

    if positions.len() > 0 {
        lemma_gathered(row, positions.drop_last());
    }
}

/// The bits of `row` at `positions`, packed in that order.
pub(crate) fn gather(row: u64, positions: &Vec<usize>) -> (r: u64)
    requires
        positions@.len() <= 64,
        forall|j: int| 0 <= j < positions@.len() ==> (#[trigger] positions@[j]) < 64,
    ensures
        r == gathered(row, positions@),
{
    let mut key: u64 = 0;
    let mut j: usize = 0;
    while j < positions.len()
        invariant
            j <= positions@.len() <= 64,
            forall|j: int| 0 <= j < positions@.len() ==> (#[trigger] positions@[j]) < 64,
            key == gathered(row, positions@.take(j as int)),
        decreases positions.len() - j,
    {
        proof {
            seqs::lemma_take_next(positions@, j as int);
        }
        if bits::get_bit(row, positions[j]) {
            key = key | (1u64 << (j as u64));
        }
        j += 1;
    }
    proof {
        seqs::lemma_take_all(positions@);
    }
    key
}

/// An overlaid assignment agrees with the row laid over it.
pub proof fn lemma_overlay(vars: Seq<usize>, row: u64, a: Asg)
    requires
        network::distinct(vars),
    ensures
        network::agrees(vars, row, overlay(vars, row, a)),
        forall|v: int| !lists(vars, v) ==> #[trigger] overlay(vars, row, a)(v) == a(v),
{
    assert forall|i: int| 0 <= i < vars.len() implies bits::bit(row, i) == overlay(vars, row, a)(
        (#[trigger] vars[i]) as int,
    ) by {
        let v = vars[i] as int;
        assert(lists(vars, v));
        let j = at(vars, v);
        assert(vars[j] as int == v);
        assert(i == j) by {
            if i < j {
                assert(vars[i] != vars[j]);
            } else if j < i {
                assert(vars[j] != vars[i]);
            }
        }
    }
}

/// Two rows over the same variables that agree with one assignment are equal.
pub proof fn lemma_row_unique(vars: Seq<usize>, r: u64, s: u64, a: Asg)
    requires
        network::agrees(vars, r, a),
        network::agrees(vars, s, a),
        vars.len() <= 64,
        bits::below(r, vars.len() as int),
        bits::below(s, vars.len() as int),
    ensures
        r == s,
{
    assert forall|i: int| 0 <= i < 64 implies #[trigger] bits::bit(r, i) == bits::bit(s, i) by {
        if i < vars.len() {
            assert(bits::bit(r, i) == a(vars[i] as int));
            assert(bits::bit(s, i) == a(vars[i] as int));
        }
    }
    bits::lemma_bits_equal(r, s);
}

/// What a row says of some of its variables is what the packed bits say.
pub proof fn lemma_gathered_agrees(
    vars: Seq<usize>,
    row: u64,
    sub: Seq<usize>,
    positions: Seq<usize>,
    a: Asg,
)
    requires
        places(vars, sub, positions),
        sub.len() <= 64,
        network::agrees(vars, row, a),
    ensures
        network::agrees(sub, gathered(row, positions), a),
{
    lemma_gathered(row, positions);
    assert forall|j: int| 0 <= j < sub.len() implies bits::bit(gathered(row, positions), j) == a(
        (#[trigger] sub[j]) as int,
    ) by {
        assert(bits::bit(row, positions[j] as int) == a(vars[positions[j] as int] as int));
    }
}

/// `positions` are those of `sub` within `vars`.
pub open spec fn places(vars: Seq<usize>, sub: Seq<usize>, positions: Seq<usize>) -> bool {
    &&& positions.len() == sub.len()
    &&& forall|j: int|
        0 <= j < sub.len() ==> (#[trigger] positions[j]) < vars.len() && vars[positions[j] as int]
            == sub[j]
}

/// The positions of `sub` within the ascending list `vars`.
pub(crate) fn positions_of(vars: &Vec<usize>, sub: &[usize]) -> (r: Vec<usize>)
    requires
        network::ascending_ids(vars@),
        within(sub@, vars@),
    ensures
        places(vars@, sub@, r@),
{
    let mut out: Vec<usize> = Vec::new();
    let mut j: usize = 0;
    while j < sub.len()
        invariant
            j <= sub@.len(),
            network::ascending_ids(vars@),
            within(sub@, vars@),
            out@.len() == j,
            forall|i: int|
                0 <= i < j ==> (#[trigger] out@[i]) < vars@.len() && vars@[out@[i] as int] == sub@[i],
        decreases sub.len() - j,
    {
        assert(vars@.contains(sub@[j as int]));
        match order::find(vars, sub[j]) {
            Some(p) => {
                out.push(p);
            },
            None => {
                assert(false);
            },
        }
        j += 1;
    }
    out
}

/// A set of satisfying assignments: bit `j` of a row is the value of `vars[j]`.
#[derive(Clone, Debug)]
pub struct Relation {
    pub vars: Vec<usize>,
    pub rows: Vec<u64>,
}

impl Relation {
    /// Ascending variables, at most sixty-four, and ascending rows over them.
    pub open spec fn wf(self) -> bool {
        &&& network::ascending_ids(self.vars@)
        &&& self.vars@.len() <= 64
        &&& order::ascending64(self.rows@)
        &&& rows_below(self.rows@, self.vars@.len() as int)
    }

    /// Some row agrees with `a`.
    pub open spec fn holds(self, a: Asg) -> bool {
        some_row(self.vars@, self.rows@, a)
    }

    /// Some assignment that agrees with `a` on `keep` satisfies the relation.
    pub open spec fn holds_for_some(self, keep: Seq<usize>, a: Asg) -> bool {
        exists|b: Asg| same_on(keep, a, b) && #[trigger] self.holds(b)
    }

    /// A copy.
    pub fn copy(&self) -> (r: Relation)
        ensures
            r.vars@ == self.vars@,
            r.rows@ == self.rows@,
    {
        let mut rows: Vec<u64> = Vec::new();
        let mut i: usize = 0;
        while i < self.rows.len()
            invariant
                i <= self.rows@.len(),
                rows@ == self.rows@.take(i as int),
            decreases self.rows.len() - i,
        {
            proof {
                seqs::lemma_take_next(self.rows@, i as int);
            }
            rows.push(self.rows[i]);
            i += 1;
        }
        proof {
            seqs::lemma_take_all(self.rows@);
        }
        Relation { vars: network::copy_ids(&self.vars), rows }
    }

    /// What the relation says of `keep` alone: rows re-encoded over `keep`, ascending, each once.
    pub fn project(&self, keep: &[usize]) -> (r: Relation)
        requires
            network::ascending_ids(self.vars@),
            self.vars@.len() <= 64,
            network::ascending_ids(keep@),
            within(keep@, self.vars@),
        ensures
            r.wf(),
            r.vars@ == keep@,
            forall|a: Asg| #[trigger] r.holds(a) <==> self.holds_for_some(keep@, a),
    {
        let positions = positions_of(&self.vars, keep);
        proof {
            lemma_within_len(keep@, self.vars@);
            assert forall|j: int| 0 <= j < positions@.len() implies (#[trigger] positions@[j]) < 64 by {
                assert(positions@[j] < self.vars@.len());
            }
        }
        let mut keys: Vec<u64> = Vec::new();
        let mut i: usize = 0;
        while i < self.rows.len()
            invariant
                i <= self.rows@.len(),
                positions@.len() <= 64,
                forall|j: int| 0 <= j < positions@.len() ==> (#[trigger] positions@[j]) < 64,
                keys@.len() == i,
                forall|k: int|
                    0 <= k < i ==> #[trigger] keys@[k] == gathered(self.rows@[k], positions@),
            decreases self.rows.len() - i,
        {
            keys.push(gather(self.rows[i], &positions));
            i += 1;
        }
        let ghost keys0 = keys@;
        let rows = order::sort_dedup_rows(keys);
        let r = Relation { vars: slice_to_vec(keep), rows };
        proof {
            assert forall|k: int| 0 <= k < r.rows@.len() implies bits::below(
                #[trigger] r.rows@[k],
                keep@.len() as int,
            ) by {
                assert(r.rows@.contains(r.rows@[k]));
                let p = keys0.index_of(r.rows@[k]);
                assert(keys0[p] == gathered(self.rows@[p], positions@));
                lemma_gathered(self.rows@[p], positions@);
            }
            assert forall|a: Asg| #[trigger] r.holds(a) <==> self.holds_for_some(keep@, a) by {
                if r.holds(a) {
                    let k = choose|k: int|
                        0 <= k < r.rows@.len() && network::agrees(r.vars@, #[trigger] r.rows@[k], a);
                    assert(r.rows@.contains(r.rows@[k]));
                    let p = keys0.index_of(r.rows@[k]);
                    assert(keys0[p] == gathered(self.rows@[p], positions@));
                    let row = self.rows@[p];
                    let b = overlay(self.vars@, row, a);
                    lemma_overlay(self.vars@, row, a);
                    assert(network::agrees(self.vars@, self.rows@[p], b));
                    assert(self.holds(b));
                    lemma_gathered_agrees(self.vars@, row, keep@, positions@, b);
                    assert forall|j: int| 0 <= j < keep@.len() implies a((#[trigger] keep@[j]) as int)
                        == b(keep@[j] as int) by {
                        assert(bits::bit(r.rows@[k], j) == a(keep@[j] as int));
                        assert(bits::bit(gathered(row, positions@), j) == b(keep@[j] as int));
                    }
                    assert(same_on(keep@, a, b));
                }
                if self.holds_for_some(keep@, a) {
                    let b = choose|b: Asg| same_on(keep@, a, b) && #[trigger] self.holds(b);
                    let p = choose|p: int|
                        0 <= p < self.rows@.len() && network::agrees(self.vars@, #[trigger] self.rows@[p], b);
                    lemma_gathered_agrees(self.vars@, self.rows@[p], keep@, positions@, b);
                    assert(keys0[p] == gathered(self.rows@[p], positions@));
                    assert(keys0.contains(keys0[p]));
                    assert(r.rows@.contains(keys0[p]));
                    let k = r.rows@.index_of(keys0[p]);
                    assert forall|j: int| 0 <= j < keep@.len() implies bits::bit(r.rows@[k], j) == a(
                        (#[trigger] keep@[j]) as int,
                    ) by {
                        assert(bits::bit(gathered(self.rows@[p], positions@), j) == b(keep@[j] as int));
                    }
                    assert(network::agrees(r.vars@, r.rows@[k], a));
                }
            }
        }
        r
    }
}

/// An ascending list inside another list is no longer than it.
pub proof fn lemma_within_len(part: Seq<usize>, whole: Seq<usize>)
    requires
        network::distinct(part),
        within(part, whole),
    ensures
        part.len() <= whole.len(),
{
    assert(part.no_duplicates());
    part.unique_seq_to_set();
    let ps = part.to_set();
    let ws = whole.to_set();
    assert(ps.subset_of(ws)) by {
        assert forall|x: usize| ps.contains(x) implies ws.contains(x) by {
            assert(part.contains(x));
            let i = part.index_of(x);
            assert(whole.contains(part[i]));
        }
    }
    vstd::set_lib::lemma_len_subset(ps, ws);
    whole.lemma_cardinality_of_set();
}

/// A slice as a list.
pub(crate) fn slice_to_vec(s: &[usize]) -> (r: Vec<usize>)
    ensures
        r@ == s@,
{
    let mut out: Vec<usize> = Vec::new();
    let mut i: usize = 0;
    while i < s.len()
        invariant
            i <= s@.len(),
            out@ == s@.take(i as int),
        decreases s.len() - i,
    {
        proof {
            seqs::lemma_take_next(s@, i as int);
        }
        out.push(s[i]);
        i += 1;
    }
    proof {
        seqs::lemma_take_all(s@);
    }
    out
}

/// The variables of `a` and of `b`, ascending, each once.
pub(crate) fn sorted_union(a: &Vec<usize>, b: &Vec<usize>) -> (r: Vec<usize>)
    ensures
        unites(a@, b@, r@),
{
    let mut all: Vec<usize> = network::copy_ids(a);
    let mut i: usize = 0;
    while i < b.len()
        invariant
            i <= b@.len(),
            forall|x: usize| #[trigger] all@.contains(x) <==> (a@.contains(x) || b@.take(i as int).contains(x)),
        decreases b.len() - i,
    {
        proof {
            seqs::lemma_take_next(b@, i as int);
            seqs::lemma_push_contains(all@, b@[i as int]);
        }
        all.push(b[i]);
        i += 1;
    }
    proof {
        seqs::lemma_take_all(b@);
    }
    order::sort_dedup_ids(all)
}

/// `u` lists the variables of `a` and of `b`, ascending.
pub open spec fn unites(a: Seq<usize>, b: Seq<usize>, u: Seq<usize>) -> bool {
    &&& network::ascending_ids(u)
    &&& forall|x: usize| #[trigger] u.contains(x) <==> (a.contains(x) || b.contains(x))
}

/// The variables of `a` and `b` together are at most sixty-four.
pub open spec fn union_fits(a: Seq<usize>, b: Seq<usize>) -> bool {
    exists|u: Seq<usize>| #[trigger] roomy(u) && within(a, u) && within(b, u)
}

/// At most sixty-four variables.
pub open spec fn roomy(u: Seq<usize>) -> bool {
    u.len() <= 64
}

/// The number of positions of `a` whose variable is also in `b`.
pub open spec fn shared(a: Seq<usize>, b: Seq<usize>) -> nat
    decreases a.len(),
{
    if a.len() == 0 {
        0
    } else {
        shared(a.drop_last(), b) + (if b.contains(a.last()) {
            1nat
        } else {
            0nat
        })
    }
}

/// The number of variables of `a` that are also in the ascending list `b`.
pub(crate) fn shared_count(a: &Vec<usize>, b: &Vec<usize>) -> (r: usize)
    requires
        network::ascending_ids(b@),
    ensures
        r == shared(a@, b@),
        r <= a@.len(),
{
    let mut n: usize = 0;
    let mut i: usize = 0;
    while i < a.len()
        invariant
            n <= i <= a@.len(),
            network::ascending_ids(b@),
            n == shared(a@.take(i as int), b@),
        decreases a.len() - i,
    {
        proof {
            seqs::lemma_take_next(a@, i as int);
        }
        match order::find(b, a[i]) {
            Some(p) => {
                assert(b@[p as int] == a@[i as int]);
                n += 1;
            },
            None => {},
        }
        i += 1;
    }
    proof {
        seqs::lemma_take_all(a@);
    }
    n
}

/// How two rows make one: for each joint variable, the side and the position of its value.
pub struct JoinPlan {
    pub vars: Vec<usize>,
    /// `(true, p)`: position `p` of the left row; `(false, p)`: of the right row.
    pub source: Vec<(bool, usize)>,
    /// Positions of the shared variables on the left, and on the right.
    pub key_left: Vec<usize>,
    pub key_right: Vec<usize>,
}

impl JoinPlan {
    /// The plan fits the variable lists `a` and `b`.
    pub open spec fn fits(self, a: Seq<usize>, b: Seq<usize>) -> bool {
        &&& unites(a, b, self.vars@)
        &&& self.vars@.len() <= 64
        &&& a.len() <= 64
        &&& b.len() <= 64
        &&& self.source@.len() == self.vars@.len()
        &&& forall|p: int|
            0 <= p < self.vars@.len() ==> {
                let s = #[trigger] self.source@[p];
                &&& s.0 ==> s.1 < a.len() && a[s.1 as int] == self.vars@[p]
                &&& !s.0 ==> s.1 < b.len() && b[s.1 as int] == self.vars@[p] && !a.contains(
                    self.vars@[p],
                )
            }
        &&& self.key_left@.len() == self.key_right@.len()
        &&& self.key_left@.len() <= 64
        &&& forall|j: int|
            0 <= j < self.key_left@.len() ==> (#[trigger] self.key_left@[j]) < a.len()
                && self.key_left@[j] < 64
        &&& forall|j: int|
            0 <= j < self.key_right@.len() ==> (#[trigger] self.key_right@[j]) < b.len()
                && self.key_right@[j] < 64 && a[self.key_left@[j] as int]
                == b[self.key_right@[j] as int]
        &&& forall|q: int|
            0 <= q < b.len() && a.contains(#[trigger] b[q]) ==> self.key_right@.contains(q as usize)
    }

    /// The rows `ra` and `rb` give the shared variables the same values.
    pub open spec fn matches(self, ra: u64, rb: u64) -> bool {
        gathered(ra, self.key_left@) == gathered(rb, self.key_right@)
    }

    /// `r` is the row that `ra` and `rb` make.
    pub open spec fn makes(self, ra: u64, rb: u64, r: u64) -> bool {
        &&& bits::below(r, self.vars@.len() as int)
        &&& forall|p: int|
            0 <= p < self.vars@.len() ==> #[trigger] bits::bit(r, p) == (if self.source@[p].0 {
                bits::bit(ra, self.source@[p].1 as int)
            } else {
                bits::bit(rb, self.source@[p].1 as int)
            })
    }

    /// The row that `ra` and `rb` make.
    pub(crate) fn merge(&self, ra: u64, rb: u64) -> (r: u64)
        requires
            self.vars@.len() <= 64,
            self.source@.len() == self.vars@.len(),
            forall|p: int| 0 <= p < self.source@.len() ==> (#[trigger] self.source@[p]).1 < 64,
        ensures
            self.makes(ra, rb, r),
    {
        let mut row: u64 = 0;
        let mut p: usize = 0;
        proof {
            broadcast use bits::group_bits;

        }
        while p < self.source.len()
            invariant
                p <= self.source@.len() == self.vars@.len() <= 64,
                forall|p: int| 0 <= p < self.source@.len() ==> (#[trigger] self.source@[p]).1 < 64,
                bits::below(row, p as int),
                forall|q: int|
                    0 <= q < p ==> #[trigger] bits::bit(row, q) == (if self.source@[q].0 {
                        bits::bit(ra, self.source@[q].1 as int)
                    } else {
                        bits::bit(rb, self.source@[q].1 as int)
                    }),
            decreases self.source.len() - p,
        {
            let (left, pos) = self.source[p];
            let one: bool = if left {
                bits::get_bit(ra, pos)
            } else {
                bits::get_bit(rb, pos)
            };
            let ghost before = row;
            if one {
                row = bits::with_bit(row, p);
            }
            assert forall|q: int| 0 <= q < p + 1 implies #[trigger] bits::bit(row, q) == (if self.source@[q].0 {
                bits::bit(ra, self.source@[q].1 as int)
            } else {
                bits::bit(rb, self.source@[q].1 as int)
            }) by {
                assert(bits::bit(before, q) == bits::bit(before, q));
            }
            p += 1;
        }
        row
    }
}

/// The join plan for two ascending variable lists.
pub(crate) fn join_plan(a: &Vec<usize>, b: &Vec<usize>) -> (r: JoinPlan)
    requires
        network::ascending_ids(a@),
        network::ascending_ids(b@),
        a@.len() <= 64,
        b@.len() <= 64,
        union_fits(a@, b@),
    ensures
        r.fits(a@, b@),
{
    let vars = sorted_union(a, b);
    proof {
        let u = choose|u: Seq<usize>| #[trigger] roomy(u) && within(a@, u) && within(b@, u);
        assert(within(vars@, u)) by {
            assert forall|i: int| 0 <= i < vars@.len() implies u.contains(#[trigger] vars@[i]) by {
                let x = vars@[i];
                assert(vars@.contains(x));
                if a@.contains(x) {
                    let k = a@.index_of(x);
                    assert(u.contains(a@[k]));
                } else {
                    let k = b@.index_of(x);
                    assert(u.contains(b@[k]));
                }
            }
        }
        lemma_within_len(vars@, u);
    }
    let mut source: Vec<(bool, usize)> = Vec::new();
    let mut key_left: Vec<usize> = Vec::new();
    let mut key_right: Vec<usize> = Vec::new();
    let mut p: usize = 0;
    while p < vars.len()
        invariant
            p <= vars@.len() <= 64,
            network::ascending_ids(a@),
            network::ascending_ids(b@),
            a@.len() <= 64,
            b@.len() <= 64,
            unites(a@, b@, vars@),
            source@.len() == p,
            forall|i: int|
                0 <= i < p ==> {
                    let s = #[trigger] source@[i];
                    &&& s.0 ==> s.1 < a@.len() && a@[s.1 as int] == vars@[i]
                    &&& !s.0 ==> s.1 < b@.len() && b@[s.1 as int] == vars@[i] && !a@.contains(vars@[i])
                },
            key_left@.len() == key_right@.len() <= p,
            forall|j: int| 0 <= j < key_left@.len() ==> (#[trigger] key_left@[j]) < a@.len(),
            forall|j: int|
                0 <= j < key_right@.len() ==> (#[trigger] key_right@[j]) < b@.len()
                    && a@[key_left@[j] as int] == b@[key_right@[j] as int],
            forall|i: int|
                0 <= i < p && a@.contains(#[trigger] vars@[i]) && b@.contains(vars@[i]) ==> exists|
                    j: int,
                |
                    0 <= j < key_right@.len() && b@[(#[trigger] key_right@[j]) as int] == vars@[i],
        decreases vars.len() - p,
    {
        let v: usize = vars[p];
        assert(vars@.contains(v));
        let ghost kr0 = key_right@;
        match order::find(a, v) {
            Some(pa) => {
                source.push((true, pa));
                match order::find(b, v) {
                    Some(pb) => {
                        key_left.push(pa);
                        key_right.push(pb);
                        assert(key_right@[key_right@.len() - 1] == pb);
                    },
                    None => {},
                }
            },
            None => {
                match order::find(b, v) {
                    Some(pb) => {
                        source.push((false, pb));
                    },
                    None => {
                        assert(false);
                    },
                }
            },
        }
        proof {
            assert forall|i: int|
                0 <= i < p + 1 && a@.contains(#[trigger] vars@[i]) && b@.contains(
                    vars@[i],
                ) implies exists|j: int|
                0 <= j < key_right@.len() && b@[(#[trigger] key_right@[j]) as int] == vars@[i] by {
                if i < p {
                    let j = choose|j: int| 0 <= j < kr0.len() && b@[(#[trigger] kr0[j]) as int] == vars@[i];
                    assert(key_right@[j] == kr0[j]);
                } else {
                    assert(b@[key_right@[key_right@.len() - 1] as int] == vars@[i]);
                }
            }
        }
        p += 1;
    }
    let plan = JoinPlan { vars, source, key_left, key_right };
    proof {
        assert forall|q: int| 0 <= q < b@.len() && a@.contains(#[trigger] b@[q]) implies plan.key_right@.contains(q as usize) by {
            let x = b@[q];
            assert(b@.contains(x));
            assert(plan.vars@.contains(x));
            let i = plan.vars@.index_of(x);
            assert(a@.contains(plan.vars@[i]) && b@.contains(plan.vars@[i]));
            let j = choose|j: int| 0 <= j < key_right@.len() && b@[(#[trigger] key_right@[j]) as int] == plan.vars@[i];
            let k = key_right@[j] as int;
            assert(b@[k] == b@[q]);
            assert(k == q) by {
                if k < q {
                } else if q < k {
                }
            }
            assert(plan.key_right@[j] == q as usize);
        }
    }
    plan
}

/// Rows that match make a row that says what both say; rows that agree with one assignment
/// match.
pub proof fn lemma_join_row(plan: JoinPlan, a: Seq<usize>, b: Seq<usize>, ra: u64, rb: u64, r: u64)
    requires
        plan.fits(a, b),
        network::ascending_ids(a),
        network::ascending_ids(b),
        plan.makes(ra, rb, r),
    ensures
        forall|x: Asg|
            plan.matches(ra, rb) ==> (#[trigger] network::agrees(plan.vars@, r, x) <==> (network::agrees(a, ra, x)
                && network::agrees(b, rb, x))),
        forall|x: Asg|
            #![trigger network::agrees(a, ra, x), network::agrees(b, rb, x)]
            network::agrees(a, ra, x) && network::agrees(b, rb, x) ==> plan.matches(ra, rb),
{
    lemma_gathered(ra, plan.key_left@);
    lemma_gathered(rb, plan.key_right@);
    assert forall|x: Asg| #[trigger] network::agrees(plan.vars@, r, x) && plan.matches(ra, rb) implies network::agrees(a, ra, x)
        && network::agrees(b, rb, x) by {
        assert forall|i: int| 0 <= i < a.len() implies bits::bit(ra, i) == x((#[trigger] a[i]) as int) by {
            assert(a.contains(a[i]));
            assert(plan.vars@.contains(a[i]));
            let p = plan.vars@.index_of(a[i]);
            let s = plan.source@[p];
            assert(s.0);
            assert(a[s.1 as int] == a[i]);
            assert(s.1 == i) by {
                if s.1 < i {
                } else if i < s.1 {
                }
            }
            assert(bits::bit(r, p) == x(plan.vars@[p] as int));
        }
        assert forall|i: int| 0 <= i < b.len() implies bits::bit(rb, i) == x((#[trigger] b[i]) as int) by {
            assert(b.contains(b[i]));
            assert(plan.vars@.contains(b[i]));
            let p = plan.vars@.index_of(b[i]);
            let s = plan.source@[p];
            assert(bits::bit(r, p) == x(plan.vars@[p] as int));
            if s.0 {
                assert(a[s.1 as int] == b[i]);
                assert(a.contains(b[i]));
                assert(plan.key_right@.contains(i as usize));
                let j = plan.key_right@.index_of(i as usize);
                let kl = plan.key_left@[j] as int;
                assert(plan.key_right@[j] == i as usize);
                assert(a[kl] == b[i]);
                assert(bits::bit(gathered(ra, plan.key_left@), j) == bits::bit(ra, kl));
                assert(bits::bit(gathered(rb, plan.key_right@), j) == bits::bit(rb, i));
                assert(bits::bit(ra, kl) == x(a[kl] as int));
            } else {
                assert(b[s.1 as int] == b[i]);
                assert(s.1 == i) by {
                    if s.1 < i {
                    } else if i < s.1 {
                    }
                }
            }
        }
    }
    assert forall|x: Asg| network::agrees(a, ra, x) && network::agrees(b, rb, x) implies #[trigger] network::agrees(plan.vars@, r, x) by {
        assert forall|p: int| 0 <= p < plan.vars@.len() implies bits::bit(r, p) == x((#[trigger] plan.vars@[p]) as int) by {
            let s = plan.source@[p];
            if s.0 {
                assert(bits::bit(ra, s.1 as int) == x(a[s.1 as int] as int));
            } else {
                assert(bits::bit(rb, s.1 as int) == x(b[s.1 as int] as int));
            }
        }
    }
    assert forall|x: Asg|
        #![trigger network::agrees(a, ra, x), network::agrees(b, rb, x)]
        network::agrees(a, ra, x) && network::agrees(b, rb, x) implies plan.matches(ra, rb) by {
        let ka = gathered(ra, plan.key_left@);
        let kb = gathered(rb, plan.key_right@);
        assert forall|j: int| 0 <= j < 64 implies #[trigger] bits::bit(ka, j) == bits::bit(kb, j) by {
            if j < plan.key_left@.len() {
                let pl = plan.key_left@[j] as int;
                let pr = plan.key_right@[j] as int;
                assert(bits::bit(ra, pl) == x(a[pl] as int));
                assert(bits::bit(rb, pr) == x(b[pr] as int));
            }
        }
        bits::lemma_bits_equal(ka, kb);
    }
}

/// Buckets of the rows of a relation by their key: each position once, in order.
pub open spec fn buckets_ok(
    buckets: Map<u64, Seq<usize>>,
    rows: Seq<u64>,
    positions: Seq<usize>,
    upto: int,
) -> bool {
    &&& forall|key: u64, i: int|
        #![trigger buckets[key][i]]
        buckets.contains_key(key) && 0 <= i < buckets[key].len() ==> buckets[key][i] < upto
            && gathered(rows[buckets[key][i] as int], positions) == key
    &&& forall|key: u64, i: int, j: int|
        #![trigger buckets[key][i], buckets[key][j]]
        buckets.contains_key(key) && 0 <= i < j < buckets[key].len() ==> buckets[key][i]
            < buckets[key][j]
    &&& forall|q: int|
        0 <= q < upto ==> filed_under(buckets, gathered(#[trigger] rows[q], positions), q)
}

/// Position `q` is filed under `key`.
pub open spec fn filed_under(buckets: Map<u64, Seq<usize>>, key: u64, q: int) -> bool {
    buckets.contains_key(key) && buckets[key].contains(q as usize)
}

/// File the rows of a relation by the bits at `positions`.
pub(crate) fn bucket_rows(rows: &Vec<u64>, positions: &Vec<usize>) -> (r: order::Buckets)
    requires
        positions@.len() <= 64,
        forall|j: int| 0 <= j < positions@.len() ==> (#[trigger] positions@[j]) < 64,
    ensures
        buckets_ok(order::filed(r), rows@, positions@, rows@.len() as int),
{
    let mut buckets = order::buckets_new();
    let mut q: usize = 0;
    while q < rows.len()
        invariant
            q <= rows@.len(),
            positions@.len() <= 64,
            forall|j: int| 0 <= j < positions@.len() ==> (#[trigger] positions@[j]) < 64,
            buckets_ok(order::filed(buckets), rows@, positions@, q as int),
        decreases rows.len() - q,
    {
        let key: u64 = gather(rows[q], positions);
        let ghost before = order::filed(buckets);
        order::buckets_push(&mut buckets, key, q);
        proof {
            let after = order::filed(buckets);
            let list0 = if before.contains_key(key) {
                before[key]
            } else {
                Seq::<usize>::empty()
            };
            assert(after[key] == list0.push(q));
            assert forall|k: u64, i: int|
                #![trigger after[k][i]]
                after.contains_key(k) && 0 <= i < after[k].len() implies after[k][i] < q + 1
                && gathered(rows@[after[k][i] as int], positions@) == k by {
                if k == key {
                    if i < list0.len() {
                        assert(after[k][i] == before[k][i]);
                    }
                } else {
                    assert(after[k][i] == before[k][i]);
                }
            }
            assert forall|k: u64, i: int, j: int|
                #![trigger after[k][i], after[k][j]]
                after.contains_key(k) && 0 <= i < j < after[k].len() implies after[k][i]
                < after[k][j] by {
                if k == key {
                    if j < list0.len() {
                        assert(before[k][i] < before[k][j]);
                    } else {
                        assert(after[k][i] == before[k][i]);
                    }
                } else {
                    assert(before[k][i] < before[k][j]);
                }
            }
            assert forall|s: int| 0 <= s < q + 1 implies filed_under(
                after,
                gathered(#[trigger] rows@[s], positions@),
                s,
            ) by {
                let k = gathered(rows@[s], positions@);
                if s < q {
                    assert(filed_under(before, k, s));
                    let i = before[k].index_of(s as usize);
                    if k == key {
                        assert(after[k][i] == s as usize);
                    }
                } else {
                    assert(after[key][list0.len() as int] == q);
                }
            }
        }
        q += 1;
    }
    buckets
}

/// `r` is the join of `a` and `b`.
pub open spec fn joins(a: Relation, b: Relation, r: Relation) -> bool {
    &&& r.wf()
    &&& unites(a.vars@, b.vars@, r.vars@)
    &&& forall|x: Asg| #[trigger] r.holds(x) <==> (a.holds(x) && b.holds(x))
}

/// Where the rows of a partial join come from: `src[k]` are the two positions that made row `k`.
pub open spec fn join_state(
    plan: JoinPlan,
    a: Seq<u64>,
    b: Seq<u64>,
    rows: Seq<u64>,
    src: Seq<(int, int)>,
    upto: int,
) -> bool {
    &&& src.len() == rows.len()
    &&& forall|k: int|
        0 <= k < rows.len() ==> {
            let s = #[trigger] src[k];
            &&& 0 <= s.0 < upto
            &&& 0 <= s.1 < b.len()
            &&& plan.matches(a[s.0], b[s.1])
            &&& plan.makes(a[s.0], b[s.1], rows[k])
        }
    &&& forall|k: int, l: int| 0 <= k < l < src.len() ==> #[trigger] src[k] != #[trigger] src[l]
}

/// Every matching pair with the left position below `upto` has its row.
pub open spec fn join_complete(
    plan: JoinPlan,
    a: Seq<u64>,
    b: Seq<u64>,
    src: Seq<(int, int)>,
    upto: int,
) -> bool {
    forall|i: int, j: int|
        0 <= i < upto && 0 <= j < b.len() && #[trigger] plan.matches(a[i], b[j]) ==> src.contains(
            (i, j),
        )
}

/// Ascending variables, at most sixty-four, and pairwise different rows over them.
pub open spec fn rows_wf(vars: Seq<usize>, rows: Seq<u64>) -> bool {
    &&& network::ascending_ids(vars)
    &&& vars.len() <= 64
    &&& rows_below(rows, vars.len() as int)
    &&& forall|i: int, j: int| 0 <= i < j < rows.len() ==> rows[i] != rows[j]
}

/// The rows of a join are pairwise different.
pub proof fn lemma_join_distinct(
    plan: JoinPlan,
    av: Seq<usize>,
    ar: Seq<u64>,
    bv: Seq<usize>,
    br: Seq<u64>,
    rows: Seq<u64>,
    src: Seq<(int, int)>,
    upto: int,
)
    requires
        rows_wf(av, ar),
        rows_wf(bv, br),
        plan.fits(av, bv),
        upto <= ar.len(),
        join_state(plan, ar, br, rows, src, upto),
    ensures
        rows.no_duplicates(),
{
    assert forall|k: int, l: int| 0 <= k < rows.len() && 0 <= l < rows.len() && k != l implies rows[k] != rows[l] by {
        if rows[k] == rows[l] {
            let s = src[k];
            let t = src[l];
            let x = overlay(plan.vars@, rows[k], |v: int| false);
            lemma_overlay(plan.vars@, rows[k], |v: int| false);
            lemma_join_row(plan, av, bv, ar[s.0], br[s.1], rows[k]);
            lemma_join_row(plan, av, bv, ar[t.0], br[t.1], rows[l]);
            assert(network::agrees(plan.vars@, rows[k], x));
            assert(network::agrees(plan.vars@, rows[l], x));
            lemma_row_unique(av, ar[s.0], ar[t.0], x);
            lemma_row_unique(bv, br[s.1], br[t.1], x);
            assert(s.0 == t.0) by {
                if s.0 < t.0 {
                } else if t.0 < s.0 {
                }
            }
            assert(s.1 == t.1) by {
                if s.1 < t.1 {
                } else if t.1 < s.1 {
                }
            }
            if k < l {
                assert(src[k] != src[l]);
            } else {
                assert(src[l] != src[k]);
            }
        }
    }
}

/// Two rows that agree with `x` have their merged row, which agrees with `x` too.
pub proof fn lemma_join_find(
    plan: JoinPlan,
    av: Seq<usize>,
    ar: Seq<u64>,
    bv: Seq<usize>,
    br: Seq<u64>,
    rows: Seq<u64>,
    src: Seq<(int, int)>,
    i: int,
    j: int,
    x: Asg,
) -> (k: int)
    requires
        rows_wf(av, ar),
        rows_wf(bv, br),
        plan.fits(av, bv),
        join_state(plan, ar, br, rows, src, ar.len() as int),
        join_complete(plan, ar, br, src, ar.len() as int),
        0 <= i < ar.len(),
        0 <= j < br.len(),
        network::agrees(av, ar[i], x),
        network::agrees(bv, br[j], x),
    ensures
        0 <= k < rows.len(),
        src[k] == (i, j),
        network::agrees(plan.vars@, rows[k], x),
{
    lemma_match_of_agree(plan, av, bv, ar[i], br[j], x);
    assert(src.contains((i, j)));
    let k = src.index_of((i, j));
    lemma_join_row(plan, av, bv, ar[i], br[j], rows[k]);
    k
}

/// A row of a join that agrees with `x` comes from two rows that agree with `x`.
pub proof fn lemma_join_origin(
    plan: JoinPlan,
    av: Seq<usize>,
    ar: Seq<u64>,
    bv: Seq<usize>,
    br: Seq<u64>,
    rows: Seq<u64>,
    src: Seq<(int, int)>,
    upto: int,
    k: int,
    x: Asg,
)
    requires
        rows_wf(av, ar),
        rows_wf(bv, br),
        plan.fits(av, bv),
        upto <= ar.len(),
        join_state(plan, ar, br, rows, src, upto),
        0 <= k < rows.len(),
        network::agrees(plan.vars@, rows[k], x),
    ensures
        network::agrees(av, ar[src[k].0], x),
        network::agrees(bv, br[src[k].1], x),
{
    let s = src[k];
    lemma_join_row(plan, av, bv, ar[s.0], br[s.1], rows[k]);
}

/// The rows of a complete join hold exactly where both sides hold.
proof fn lemma_join_holds(
    plan: JoinPlan,
    a: Relation,
    b: Relation,
    rows: Seq<u64>,
    src: Seq<(int, int)>,
)
    requires
        a.wf(),
        b.wf(),
        plan.fits(a.vars@, b.vars@),
        join_state(plan, a.rows@, b.rows@, rows, src, a.rows@.len() as int),
        join_complete(plan, a.rows@, b.rows@, src, a.rows@.len() as int),
    ensures
        forall|x: Asg| #[trigger] some_row(plan.vars@, rows, x) <==> (a.holds(x) && b.holds(x)),
{
    assert forall|x: Asg| #[trigger] some_row(plan.vars@, rows, x) implies (a.holds(x) && b.holds(x)) by {
        let k = choose|k: int| 0 <= k < rows.len() && network::agrees(plan.vars@, #[trigger] rows[k], x);
        lemma_join_origin(plan, a.vars@, a.rows@, b.vars@, b.rows@, rows, src, a.rows@.len() as int, k, x);
        assert(network::agrees(a.vars@, a.rows@[src[k].0], x));
        assert(network::agrees(b.vars@, b.rows@[src[k].1], x));
    }
    assert forall|x: Asg| a.holds(x) && b.holds(x) implies #[trigger] some_row(plan.vars@, rows, x) by {
        let i = choose|i: int| 0 <= i < a.rows@.len() && network::agrees(a.vars@, #[trigger] a.rows@[i], x);
        let j = choose|j: int| 0 <= j < b.rows@.len() && network::agrees(b.vars@, #[trigger] b.rows@[j], x);
        let k = lemma_join_find(plan, a.vars@, a.rows@, b.vars@, b.rows@, rows, src, i, j, x);
        assert(network::agrees(plan.vars@, rows[k], x));
    }
}

/// Rows that agree with one assignment match.
proof fn lemma_match_of_agree(plan: JoinPlan, a: Seq<usize>, b: Seq<usize>, ra: u64, rb: u64, x: Asg)
    requires
        plan.fits(a, b),
        network::agrees(a, ra, x),
        network::agrees(b, rb, x),
    ensures
        plan.matches(ra, rb),
{
    lemma_gathered(ra, plan.key_left@);
    lemma_gathered(rb, plan.key_right@);
    let ka = gathered(ra, plan.key_left@);
    let kb = gathered(rb, plan.key_right@);
    assert forall|j: int| 0 <= j < 64 implies #[trigger] bits::bit(ka, j) == bits::bit(kb, j) by {
        if j < plan.key_left@.len() {
            let pl = plan.key_left@[j] as int;
            let pr = plan.key_right@[j] as int;
            assert(bits::bit(ra, pl) == x(a[pl] as int));
            assert(bits::bit(rb, pr) == x(b[pr] as int));
        }
    }
    bits::lemma_bits_equal(ka, kb);
}

/// The join of `a` and `b`, or `None` where it has more than `cap` rows.
fn join_capped(a: &Relation, b: &Relation, cap: Option<usize>) -> (r: Option<Relation>)
    requires
        a.wf(),
        b.wf(),
        union_fits(a.vars@, b.vars@),
    ensures
        match r {
            Some(rel) => joins(*a, *b, rel) && (cap is Some ==> rel.rows@.len() <= cap->0),
            None => cap is Some && (forall|rel: Relation| #[trigger]
                joins(*a, *b, rel) ==> rel.rows@.len() > cap->0),
        },
{
    let plan = join_plan(&a.vars, &b.vars);
    let buckets = bucket_rows(&b.rows, &plan.key_right);
    let mut rows: Vec<u64> = Vec::new();
    let ghost mut src: Seq<(int, int)> = Seq::empty();
    let mut i: usize = 0;
    while i < a.rows.len()
        invariant
            i <= a.rows@.len(),
            a.wf(),
            b.wf(),
            plan.fits(a.vars@, b.vars@),
            buckets_ok(order::filed(buckets), b.rows@, plan.key_right@, b.rows@.len() as int),
            join_state(plan, a.rows@, b.rows@, rows@, src, i as int),
            join_complete(plan, a.rows@, b.rows@, src, i as int),
            cap is Some ==> rows@.len() <= cap->0,
        decreases a.rows.len() - i,
    {
        let key: u64 = gather(a.rows[i], &plan.key_left);
        let ghost rows0 = rows@;
        let ghost src0 = src;
        match order::buckets_get(&buckets, key) {
            Some(list) => {
                let over: bool = match cap {
                    Some(c) => list.len() > c - rows.len(),
                    None => false,
                };
                let mut j: usize = 0;
                while j < list.len()
                    invariant
                        i < a.rows@.len(),
                        j <= list@.len(),
                        a.wf(),
                        b.wf(),
                        plan.fits(a.vars@, b.vars@),
                        key == gathered(a.rows@[i as int], plan.key_left@),
                        order::filed(buckets).contains_key(key),
                        list@ == order::filed(buckets)[key],
                        buckets_ok(order::filed(buckets), b.rows@, plan.key_right@, b.rows@.len() as int),
                        rows@.len() == rows0.len() + j,
                        join_state(plan, a.rows@, b.rows@, rows@, src, i + 1),
                        forall|k: int| 0 <= k < src0.len() ==> #[trigger] src[k] == src0[k],
                        forall|k: int|
                            src0.len() <= k < src.len() ==> #[trigger] src[k] == (
                                i as int,
                                list@[k - src0.len()] as int,
                            ),
                        src0.len() == rows0.len(),
                        forall|k: int| 0 <= k < src0.len() ==> (#[trigger] src0[k]).0 < i,
                    decreases list.len() - j,
                {
                    let q: usize = list[j];
                    assert(order::filed(buckets)[key][j as int] == q);
                    proof {
                        assert forall|p: int| 0 <= p < plan.source@.len() implies (#[trigger] plan.source@[p]).1 < 64 by {}
                    }
                    let row: u64 = plan.merge(a.rows[i], b.rows[q]);
                    let ghost before = src;
                    rows.push(row);
                    proof {
                        src = src.push((i as int, q as int));
                        assert forall|k: int, l: int| 0 <= k < l < src.len() implies #[trigger] src[k] != #[trigger] src[l] by {
                            if l == before.len() {
                                if k >= src0.len() {
                                    assert(order::filed(buckets)[key][k - src0.len()] < order::filed(buckets)[key][j as int]);
                                } else {
                                    assert(src[k] == src0[k]);
                                }
                            } else {
                                assert(before[k] != before[l]);
                            }
                        }
                    }
                    j += 1;
                }
                if over {
                    proof {
                        let c = cap->0;
                        assert forall|rel: Relation| #[trigger] joins(*a, *b, rel) implies rel.rows@.len() > c by {
                            lemma_join_distinct(plan, a.vars@, a.rows@, b.vars@, b.rows@, rows@, src, i + 1);
                            lemma_join_rows_within(plan, *a, *b, rows@, src, i + 1, rel);
                            lemma_words_within_len(rows@, rel.rows@);
                        }
                    }
                    return None;
                }
                proof {
                    assert forall|x: int, y: int|
                        0 <= x < i + 1 && 0 <= y < b.rows@.len() && #[trigger] plan.matches(
                            a.rows@[x],
                            b.rows@[y],
                        ) implies src.contains((x, y)) by {
                        if x < i {
                            assert(src0.contains((x, y)));
                            let k = src0.index_of((x, y));
                            assert(src[k] == src0[k]);
                        } else {
                            assert(filed_under(order::filed(buckets), gathered(b.rows@[y], plan.key_right@), y));
                            assert(b.rows.len() == b.rows@.len());
                            let k = list@.index_of(y as usize);
                            assert(src[src0.len() + k] == (i as int, list@[k] as int));
                            assert(src[src0.len() + k] == (x, y));
                        }
                    }
                }
            },
            None => {
                proof {
                    assert forall|x: int, y: int|
                        0 <= x < i + 1 && 0 <= y < b.rows@.len() && #[trigger] plan.matches(
                            a.rows@[x],
                            b.rows@[y],
                        ) implies src.contains((x, y)) by {
                        if x == i {
                            assert(filed_under(order::filed(buckets), gathered(b.rows@[y], plan.key_right@), y));
                        }
                    }
                }
            },
        }
        i += 1;
    }
    let ghost joined = rows@;
    proof {
        lemma_join_distinct(plan, a.vars@, a.rows@, b.vars@, b.rows@, rows@, src, i as int);
        lemma_join_holds(plan, *a, *b, rows@, src);
    }
    order::sort_distinct_rows(&mut rows);
    let r = Relation { vars: plan.vars, rows };
    proof {
        assert forall|k: int| 0 <= k < r.rows@.len() implies bits::below(#[trigger] r.rows@[k], r.vars@.len() as int) by {
            assert(r.rows@.contains(r.rows@[k]));
            let p = joined.index_of(r.rows@[k]);
            assert(plan.makes(a.rows@[src[p].0], b.rows@[src[p].1], joined[p]));
        }
        assert forall|x: Asg| #[trigger] r.holds(x) <==> (a.holds(x) && b.holds(x)) by {
            lemma_some_row_set(plan.vars@, joined, r.rows@, x);
        }
    }
    Some(r)
}

/// Which rows a list has decides what holds of it.
proof fn lemma_some_row_set(vars: Seq<usize>, s: Seq<u64>, t: Seq<u64>, x: Asg)
    requires
        forall|r: u64| #[trigger] t.contains(r) <==> s.contains(r),
    ensures
        some_row(vars, s, x) <==> some_row(vars, t, x),
{
    if some_row(vars, s, x) {
        let k = choose|k: int| 0 <= k < s.len() && network::agrees(vars, #[trigger] s[k], x);
        assert(s.contains(s[k]));
        assert(t.contains(s[k]));
        let l = t.index_of(s[k]);
        assert(network::agrees(vars, t[l], x));
    }
    if some_row(vars, t, x) {
        let k = choose|k: int| 0 <= k < t.len() && network::agrees(vars, #[trigger] t[k], x);
        assert(t.contains(t[k]));
        assert(s.contains(t[k]));
        let l = s.index_of(t[k]);
        assert(network::agrees(vars, s[l], x));
    }
}

/// Every row of a partial join is a row of the join.
proof fn lemma_join_rows_within(
    plan: JoinPlan,
    a: Relation,
    b: Relation,
    rows: Seq<u64>,
    src: Seq<(int, int)>,
    upto: int,
    rel: Relation,
)
    requires
        a.wf(),
        b.wf(),
        plan.fits(a.vars@, b.vars@),
        upto <= a.rows@.len(),
        join_state(plan, a.rows@, b.rows@, rows, src, upto),
        joins(a, b, rel),
    ensures
        forall|k: int| 0 <= k < rows.len() ==> rel.rows@.contains(#[trigger] rows[k]),
{
    assert(rel.vars@ == plan.vars@) by {
        lemma_ascending_same(rel.vars@, plan.vars@);
    }
    assert forall|k: int| 0 <= k < rows.len() implies rel.rows@.contains(#[trigger] rows[k]) by {
        let s = src[k];
        let x = overlay(plan.vars@, rows[k], |v: int| false);
        lemma_overlay(plan.vars@, rows[k], |v: int| false);
        lemma_join_row(plan, a.vars@, b.vars@, a.rows@[s.0], b.rows@[s.1], rows[k]);
        assert(network::agrees(a.vars@, a.rows@[s.0], x));
        assert(network::agrees(b.vars@, b.rows@[s.1], x));
        assert(rel.holds(x));
        let l = choose|l: int| 0 <= l < rel.rows@.len() && network::agrees(rel.vars@, #[trigger] rel.rows@[l], x);
        lemma_row_unique(plan.vars@, rows[k], rel.rows@[l], x);
    }
}

/// Ascending lists with the same elements are equal.
pub proof fn lemma_ascending_same(s: Seq<usize>, t: Seq<usize>)
    requires
        network::ascending_ids(s),
        network::ascending_ids(t),
        forall|x: usize| #[trigger] s.contains(x) <==> t.contains(x),
    ensures
        s == t,
    decreases s.len(),
{
    if s.len() == 0 {
        if t.len() > 0 {
            assert(t.contains(t[0]));
            assert(s.contains(t[0]));
        }
        assert(s =~= t);
    } else if t.len() == 0 {
        assert(s.contains(s[0]));
        assert(t.contains(s[0]));
    } else {
        let x = s.last();
        let y = t.last();
        assert(s[s.len() - 1] == x && t[t.len() - 1] == y);
        assert(t.contains(x)) by {
            assert(s.contains(x));
        }
        assert(s.contains(y)) by {
            assert(t.contains(y));
        }
        let i = t.index_of(x);
        let j = s.index_of(y);
        assert(x <= y);
        assert(y <= x);
        let s1 = s.drop_last();
        let t1 = t.drop_last();
        assert forall|z: usize| #[trigger] s1.contains(z) <==> t1.contains(z) by {
            if s1.contains(z) {
                let k = s1.index_of(z);
                assert(s[k] == z);
                assert(s.contains(z));
                assert(t.contains(z));
                let l = t.index_of(z);
                assert(z < x);
                assert(t1[l] == z);
            }
            if t1.contains(z) {
                let k = t1.index_of(z);
                assert(t[k] == z);
                assert(t.contains(z));
                assert(s.contains(z));
                let l = s.index_of(z);
                assert(z < y);
                assert(s1[l] == z);
            }
        }
        lemma_ascending_same(s1, t1);
        assert(s =~= s1.push(x));
        assert(t =~= t1.push(y));
    }
}

/// Pairwise different words inside another list are no more than it has.
pub proof fn lemma_words_within_len(part: Seq<u64>, whole: Seq<u64>)
    requires
        part.no_duplicates(),
        forall|k: int| 0 <= k < part.len() ==> whole.contains(#[trigger] part[k]),
    ensures
        part.len() <= whole.len(),
{
    part.unique_seq_to_set();
    let ps = part.to_set();
    let ws = whole.to_set();
    assert(ps.subset_of(ws)) by {
        assert forall|x: u64| ps.contains(x) implies ws.contains(x) by {
            assert(part.contains(x));
            let i = part.index_of(x);
            assert(whole.contains(part[i]));
        }
    }
    vstd::set_lib::lemma_len_subset(ps, ws);
    whole.lemma_cardinality_of_set();
}

/// The rows of `a` and `b` that agree on shared variables, merged.
pub fn join(a: &Relation, b: &Relation) -> (r: Relation)
    requires
        a.wf(),
        b.wf(),
        union_fits(a.vars@, b.vars@),
    ensures
        joins(*a, *b, r),
{
    match join_capped(a, b, None) {
        Some(r) => r,
        None => Relation { vars: Vec::new(), rows: Vec::new() },
    }
}

/// `join`, but `None` where the result would have more than `cap` rows.
pub fn join_bounded(a: &Relation, b: &Relation, cap: usize) -> (r: Option<Relation>)
    requires
        a.wf(),
        b.wf(),
        union_fits(a.vars@, b.vars@),
    ensures
        match r {
            Some(rel) => joins(*a, *b, rel) && rel.rows@.len() <= cap,
            None => forall|rel: Relation| #[trigger] joins(*a, *b, rel) ==> rel.rows@.len() > cap,
        },
{
    join_capped(a, b, Some(cap))
}

/// Every relation holds under `x`.
pub open spec fn all_hold(rels: Seq<Relation>, x: Asg) -> bool {
    forall|i: int| 0 <= i < rels.len() ==> (#[trigger] rels[i]).holds(x)
}

/// Some relation has the variable `v`.
pub open spec fn some_lists(rels: Seq<Relation>, v: usize) -> bool {
    exists|i: int| 0 <= i < rels.len() && (#[trigger] rels[i]).vars@.contains(v)
}

/// Every relation is well formed, and `u` has all their variables.
pub open spec fn all_within(rels: Seq<Relation>, u: Seq<usize>) -> bool {
    forall|i: int| 0 <= i < rels.len() ==> (#[trigger] rels[i]).wf() && within(rels[i].vars@, u)
}

/// The relations are well formed and together have at most sixty-four variables.
pub open spec fn joinable(rels: Seq<Relation>) -> bool {
    exists|u: Seq<usize>| #[trigger] roomy(u) && all_within(rels, u)
}

/// Taking one relation out of a list.
proof fn lemma_take_out(rels: Seq<Relation>, p: int, x: Asg)
    requires
        0 <= p < rels.len(),
    ensures
        all_hold(rels, x) <==> (rels[p].holds(x) && all_hold(
            rels.update(p, rels.last()).drop_last(),
            x,
        )),
{
    let rest = rels.update(p, rels.last()).drop_last();
    if rels[p].holds(x) && all_hold(rest, x) {
        assert forall|i: int| 0 <= i < rels.len() implies (#[trigger] rels[i]).holds(x) by {
            if i < rels.len() - 1 && i != p {
                assert(rest[i] == rels[i]);
                assert(rest[i].holds(x));
            } else if i != p {
                assert(rest[p] == rels[i]);
                assert(rest[p].holds(x));
            }
        }
    }
    if all_hold(rels, x) {
        assert forall|i: int| 0 <= i < rest.len() implies (#[trigger] rest[i]).holds(x) by {
            if i == p {
                assert(rels[rels.len() - 1].holds(x));
            } else {
                assert(rels[i].holds(x));
            }
        }
    }
}

/// Taking one relation out of a list.
proof fn lemma_take_out_vars(rels: Seq<Relation>, p: int, v: usize)
    requires
        0 <= p < rels.len(),
    ensures
        some_lists(rels, v) <==> (rels[p].vars@.contains(v) || some_lists(
            rels.update(p, rels.last()).drop_last(),
            v,
        )),
{
    let rest = rels.update(p, rels.last()).drop_last();
    if some_lists(rels, v) && !rels[p].vars@.contains(v) {
        let i = choose|i: int| 0 <= i < rels.len() && (#[trigger] rels[i]).vars@.contains(v);
        if i < rels.len() - 1 {
            assert(rest[i].vars@.contains(v));
        } else {
            assert(rest[p].vars@.contains(v));
        }
    }
    if some_lists(rest, v) {
        let i = choose|i: int| 0 <= i < rest.len() && (#[trigger] rest[i]).vars@.contains(v);
        if i == p {
            assert(rels[rels.len() - 1].vars@.contains(v));
        } else {
            assert(rels[i].vars@.contains(v));
        }
    }
}

/// `r` is the join of the relations.
pub open spec fn joins_all(rels: Seq<Relation>, r: Relation) -> bool {
    &&& r.wf()
    &&& forall|x: Asg| #[trigger] r.holds(x) <==> all_hold(rels, x)
    &&& forall|v: usize| #[trigger] r.vars@.contains(v) <==> some_lists(rels, v)
}

/// The join of all relations, the one that shares most variables next.
pub fn join_all(rels: Vec<Relation>) -> (r: Relation)
    requires
        rels@.len() > 0,
        joinable(rels@),
    ensures
        joins_all(rels@, r),
{
    let mut todo: Vec<Relation> = rels;
    let ghost given = todo@;
    let ghost u = choose|u: Seq<usize>| #[trigger] roomy(u) && all_within(given, u);
    proof {
        assert forall|x: Asg| true implies all_hold(given, x) <==> (given[0].holds(x) && all_hold(given.update(0, given.last()).drop_last(), x)) by {
            lemma_take_out(given, 0, x);
        }
        assert forall|v: usize| true implies some_lists(given, v) <==> (given[0].vars@.contains(v) || some_lists(given.update(0, given.last()).drop_last(), v)) by {
            lemma_take_out_vars(given, 0, v);
        }
    }
    let mut acc: Relation = todo.swap_remove(0);
    while todo.len() > 0
        invariant
            roomy(u),
            all_within(given, u),
            all_within(todo@, u),
            acc.wf(),
            within(acc.vars@, u),
            forall|x: Asg| #[trigger] all_hold(given, x) <==> (acc.holds(x) && all_hold(todo@, x)),
            forall|v: usize| #[trigger] some_lists(given, v) <==> (acc.vars@.contains(v) || some_lists(todo@, v)),
        decreases todo.len(),
    {
        let mut pick: usize = 0;
        let mut pick_shared: usize = shared_count(&acc.vars, &todo[0].vars);
        let mut i: usize = 1;
        while i < todo.len()
            invariant
                1 <= i <= todo@.len(),
                pick < todo@.len(),
                all_within(todo@, u),
            decreases todo.len() - i,
        {
            let s: usize = shared_count(&acc.vars, &todo[i].vars);
            if s > pick_shared {
                pick = i;
                pick_shared = s;
            }
            i += 1;
        }
        let ghost before = todo@;
        let ghost acc0 = acc;
        let next: Relation = todo.swap_remove(pick);
        assert(before[pick as int] == next);
        assert(union_fits(acc.vars@, next.vars@));
        acc = join(&acc, &next);
        proof {
            assert forall|x: Asg| #[trigger] all_hold(given, x) <==> (acc.holds(x) && all_hold(todo@, x)) by {
                lemma_take_out(before, pick as int, x);
                assert(acc.holds(x) <==> (acc0.holds(x) && next.holds(x)));
            }
            assert forall|v: usize| #[trigger] some_lists(given, v) <==> (acc.vars@.contains(v) || some_lists(todo@, v)) by {
                lemma_take_out_vars(before, pick as int, v);
                assert(acc.vars@.contains(v) <==> (acc0.vars@.contains(v) || next.vars@.contains(v)));
            }
            assert(within(acc.vars@, u)) by {
                assert forall|i: int| 0 <= i < acc.vars@.len() implies u.contains(#[trigger] acc.vars@[i]) by {
                    let x = acc.vars@[i];
                    assert(acc.vars@.contains(x));
                    if acc0.vars@.contains(x) {
                        let k = acc0.vars@.index_of(x);
                        assert(u.contains(acc0.vars@[k]));
                    } else {
                        let k = next.vars@.index_of(x);
                        assert(u.contains(next.vars@[k]));
                    }
                }
            }
            assert forall|i: int| 0 <= i < todo@.len() implies (#[trigger] todo@[i]).wf() && within(todo@[i].vars@, u) by {
                if i == pick {
                    assert(before[before.len() - 1].wf());
                } else {
                    assert(before[i].wf());
                }
            }
        }
    }
    proof {
        assert forall|v: usize| #[trigger] acc.vars@.contains(v) <==> some_lists(given, v) by {
            assert(some_lists(given, v) <==> (acc.vars@.contains(v) || some_lists(todo@, v)));
        }
        assert forall|x: Asg| #[trigger] acc.holds(x) <==> all_hold(given, x) by {
            assert(all_hold(given, x) <==> (acc.holds(x) && all_hold(todo@, x)));
        }
    }
    acc
}

/// The join of all relations, then what it says of `keep`.
pub fn contract(rels: Vec<Relation>, keep: &[usize]) -> (r: Relation)
    requires
        rels@.len() > 0,
        joinable(rels@),
        network::ascending_ids(keep@),
        forall|i: int| 0 <= i < keep@.len() ==> some_lists(rels@, #[trigger] keep@[i]),
    ensures
        r.wf(),
        r.vars@ == keep@,
        forall|a: Asg| #[trigger] r.holds(a) <==> all_hold_for_some(rels@, keep@, a),
{
    let ghost given = rels@;
    let joined = join_all(rels);
    proof {
        assert forall|i: int| 0 <= i < keep@.len() implies joined.vars@.contains(#[trigger] keep@[i]) by {
            assert(some_lists(given, keep@[i]));
        }
    }
    let r = joined.project(keep);
    proof {
        assert forall|a: Asg| #[trigger] r.holds(a) <==> all_hold_for_some(given, keep@, a) by {
            if joined.holds_for_some(keep@, a) {
                let b = choose|b: Asg| same_on(keep@, a, b) && #[trigger] joined.holds(b);
                assert(all_hold(given, b));
            }
            if all_hold_for_some(given, keep@, a) {
                let b = choose|b: Asg| same_on(keep@, a, b) && #[trigger] all_hold(given, b);
                assert(joined.holds(b));
            }
        }
    }
    r
}

/// Some assignment that agrees with `a` on `keep` satisfies every relation.
pub open spec fn all_hold_for_some(rels: Seq<Relation>, keep: Seq<usize>, a: Asg) -> bool {
    exists|b: Asg| same_on(keep, a, b) && #[trigger] all_hold(rels, b)
}

/// `a`, except that fixed variables have their fixed value.
pub open spec fn fix(doms: Seq<DomainMask>, a: Asg) -> Asg {
    |v: int|
        if 0 <= v < doms.len() && doms[v].fixed() {
            doms[v] == DomainMask::D1
        } else {
            a(v)
        }
}

/// The places of the ids `free` within `axes`.
pub(crate) fn axis_positions(axes: &[usize], free: &Vec<usize>) -> (r: Vec<usize>)
    requires
        within(free@, axes@),
    ensures
        places(axes@, free@, r@),
{
    let mut positions: Vec<usize> = Vec::new();
    let mut j: usize = 0;
    while j < free.len()
        invariant
            j <= free@.len(),
            within(free@, axes@),
            positions@.len() == j,
            forall|i: int|
                0 <= i < j ==> (#[trigger] positions@[i]) < axes@.len() && axes@[positions@[i] as int] == free@[i],
        decreases free.len() - j,
    {
        let v: usize = free[j];
        assert(axes@.contains(free@[j as int]));
        let ghost w = axes@.index_of(v);
        let mut p: usize = 0;
        while axes[p] != v
            invariant
                p <= w < axes@.len(),
                axes@[w] == v,
            decreases axes@.len() - p,
        {
            p += 1;
        }
        positions.push(p);
        j += 1;
    }
    positions
}

/// The configurations that agree with `value` on the bits of `mask`, re-encoded over the
/// positions of the ascending list `free` within `axes`.
fn reencode(axes: &[usize], support: &[u32], free: &Vec<usize>, mask: u64, value: u64) -> (r: Vec<u64>)
    requires
        axes@.len() <= 64,
        free@.len() <= 64,
        within(free@, axes@),
    ensures
        order::ascending64(r@),
        rows_below(r@, free@.len() as int),
        exists|ps: Seq<usize>| #[trigger]
            places(axes@, free@, ps) && (forall|row: u64| #[trigger]
                r@.contains(row) <==> reencoded(support@, ps, mask, value, support@.len() as int, row)),
{
    let positions = axis_positions(axes, free);
    let mut rows: Vec<u64> = Vec::new();
    let mut k: usize = 0;
    while k < support.len()
        invariant
            k <= support@.len(),
            axes@.len() <= 64,
            free@.len() <= 64,
            places(axes@, free@, positions@),
            forall|row: u64| #[trigger]
                rows@.contains(row) <==> reencoded(support@, positions@, mask, value, k as int, row),
        decreases support.len() - k,
    {
        let config: u64 = support[k] as u64;
        proof {
            assert forall|j: int| 0 <= j < positions@.len() implies (#[trigger] positions@[j]) < 64 by {}
            assert forall|row: u64| reencoded(support@, positions@, mask, value, k + 1, row) <==> (reencoded(support@, positions@, mask, value, k as int, row) || ((config & mask) == value && row == gathered(config, positions@))) by {
                if reencoded(support@, positions@, mask, value, k + 1, row) {
                    let q = choose|q: int| 0 <= q < k + 1 && ((#[trigger] support@[q]) as u64 & mask) == value && row == gathered(support@[q] as u64, positions@);
                    if q < k {
                        assert(reencoded(support@, positions@, mask, value, k as int, row));
                    }
                }
                if reencoded(support@, positions@, mask, value, k as int, row) {
                    let q = choose|q: int| 0 <= q < k && ((#[trigger] support@[q]) as u64 & mask) == value && row == gathered(support@[q] as u64, positions@);
                    assert((support@[q] as u64 & mask) == value);
                }
                if (config & mask) == value && row == gathered(config, positions@) {
                    assert((support@[k as int] as u64 & mask) == value);
                }
            }
        }
        if (config & mask) == value {
            let row: u64 = gather(config, &positions);
            proof {
                seqs::lemma_push_contains(rows@, row);
            }
            rows.push(row);
        }
        k += 1;
    }
    let r = order::sort_dedup_rows(rows);
    proof {
        assert forall|k: int| 0 <= k < r@.len() implies bits::below(#[trigger] r@[k], free@.len() as int) by {
            assert(r@.contains(r@[k]));
            let q = choose|q: int| 0 <= q < support@.len() && ((#[trigger] support@[q]) as u64 & mask) == value && r@[k] == gathered(support@[q] as u64, positions@);
            lemma_gathered(support@[q] as u64, positions@);
        }
        assert(places(axes@, free@, positions@));
    }
    r
}

/// `row` re-encodes one of the first `upto` configurations that agree with `value` on `mask`.
pub open spec fn reencoded(
    support: Seq<u32>,
    positions: Seq<usize>,
    mask: u64,
    value: u64,
    upto: int,
    row: u64,
) -> bool {
    exists|q: int|
        0 <= q < upto && ((#[trigger] support[q]) as u64 & mask) == value && row == gathered(
            support[q] as u64,
            positions,
        )
}

/// The relation of a constraint over its variables in ascending order.
pub fn support_relation(var_axes: &[usize], support: &[u32]) -> (r: Relation)
    requires
        var_axes@.len() <= 32,
        network::distinct(var_axes@),
    ensures
        r.wf(),
        forall|v: usize| #[trigger] r.vars@.contains(v) <==> var_axes@.contains(v),
        r.vars@.len() == var_axes@.len(),
        forall|a: Asg| #[trigger] r.holds(a) <==> network::rows_hold(var_axes@, support@, a),
{
    let vars = order::sort_dedup_ids(slice_to_vec(var_axes));
    proof {
        lemma_within_both(vars@, var_axes@);
    }
    let rows = reencode(var_axes, support, &vars, 0, 0);
    let r = Relation { vars, rows };
    proof {
        let ps = choose|ps: Seq<usize>| #[trigger]
            places(var_axes@, vars@, ps) && (forall|row: u64| #[trigger]
                r.rows@.contains(row) <==> reencoded(support@, ps, 0, 0, support@.len() as int, row));
        assert forall|a: Asg| #[trigger] r.holds(a) <==> network::rows_hold(var_axes@, support@, a) by {
            if r.holds(a) {
                let k = choose|k: int| 0 <= k < r.rows@.len() && network::agrees(r.vars@, #[trigger] r.rows@[k], a);
                assert(r.rows@.contains(r.rows@[k]));
                let q = choose|q: int| 0 <= q < support@.len() && ((#[trigger] support@[q]) as u64 & 0) == 0 && r.rows@[k] == gathered(support@[q] as u64, ps);
                lemma_reencoded_agrees(var_axes@, vars@, ps, support@[q] as u64, a);
                assert(network::agrees(var_axes@, support@[q] as u64, a));
            }
            if network::rows_hold(var_axes@, support@, a) {
                let q = choose|q: int| 0 <= q < support@.len() && network::agrees(var_axes@, #[trigger] support@[q] as u64, a);
                let c = support@[q] as u64;
                assert(c & 0u64 == 0u64) by (bit_vector);
                assert(reencoded(support@, ps, 0, 0, support@.len() as int, gathered(c, ps)));
                assert(r.rows@.contains(gathered(c, ps)));
                let k = r.rows@.index_of(gathered(c, ps));
                lemma_gathered_agrees(var_axes@, c, vars@, ps, a);
                assert(network::agrees(r.vars@, r.rows@[k], a));
            }
        }
    }
    r
}

/// Ascending and distinct lists with the same elements have the same length.
pub proof fn lemma_within_both(sorted: Seq<usize>, list: Seq<usize>)
    requires
        network::ascending_ids(sorted),
        network::distinct(list),
        forall|v: usize| #[trigger] sorted.contains(v) <==> list.contains(v),
    ensures
        within(sorted, list),
        sorted.len() == list.len(),
{
    assert forall|i: int| 0 <= i < sorted.len() implies list.contains(#[trigger] sorted[i]) by {
        assert(sorted.contains(sorted[i]));
    }
    assert forall|i: int| 0 <= i < list.len() implies sorted.contains(#[trigger] list[i]) by {
        assert(list.contains(list[i]));
    }
    lemma_within_len(sorted, list);
    lemma_within_len(list, sorted);
}

/// Over all variables of a constraint, the packed bits say what the configuration says.
pub proof fn lemma_reencoded_agrees(axes: Seq<usize>, vars: Seq<usize>, ps: Seq<usize>, config: u64, a: Asg)
    requires
        axes.len() <= 64,
        vars.len() <= 64,
        network::distinct(axes),
        places(axes, vars, ps),
        forall|i: int| 0 <= i < axes.len() ==> vars.contains(#[trigger] axes[i]),
        network::agrees(vars, gathered(config, ps), a),
    ensures
        network::agrees(axes, config, a),
{
    lemma_gathered(config, ps);
    assert forall|i: int| 0 <= i < axes.len() implies bits::bit(config, i) == a((#[trigger] axes[i]) as int) by {
        assert(vars.contains(axes[i]));
        let j = vars.index_of(axes[i]);
        assert(axes[ps[j] as int] == axes[i]);
        assert(ps[j] == i) by {
            if ps[j] < i {
                assert(axes[ps[j] as int] != axes[i]);
            } else if i < ps[j] {
                assert(axes[i] != axes[ps[j] as int]);
            }
        }
        assert(bits::bit(gathered(config, ps), j) == a(vars[j] as int));
    }
}

/// The constraint `tensor` sliced against the fixed variables: a relation over its unfixed ones.
pub fn tensor_relation(cn: &ConstraintNetwork, tensor: &BoolTensor, doms: &[DomainMask]) -> (r: Relation)
    requires
        tensor.data_idx < cn.unique_tensors@.len(),
        network::axes_wf(tensor.var_axes@, doms@.len() as int),
    ensures
        slices(tensor.var_axes@, cn.unique_tensors@[tensor.data_idx as int].support@, doms@, r),
{
    let axes = &tensor.var_axes;
    let support = &cn.unique_tensors[tensor.data_idx].support;
    let (m0, m1) = propagate::compute_query_masks(doms, axes.as_slice());
    let mut free: Vec<usize> = Vec::new();
    let mut i: usize = 0;
    while i < axes.len()
        invariant
            i <= axes@.len(),
            axes@ == tensor.var_axes@,
            network::axes_wf(axes@, doms@.len() as int),
            free@.len() <= i,
            forall|v: usize| #[trigger]
                free@.contains(v) <==> (axes@.take(i as int).contains(v) && !doms@[v as int].fixed()),
        decreases axes.len() - i,
    {
        let v: usize = axes[i];
        proof {
            seqs::lemma_take_next(axes@, i as int);
            seqs::lemma_push_contains(free@, v);
        }
        if !doms[v].is_fixed() {
            free.push(v);
        }
        i += 1;
    }
    proof {
        seqs::lemma_take_all(axes@);
    }
    let vars = order::sort_dedup_ids(free);
    proof {
        assert forall|i: int| 0 <= i < vars@.len() implies axes@.contains(#[trigger] vars@[i]) by {
            assert(vars@.contains(vars@[i]));
        }
        lemma_within_len(vars@, axes@);
    }
    let ghost mask = m0 as u64 | m1 as u64;
    let rows = reencode(axes.as_slice(), support.as_slice(), &vars, m0 as u64 | m1 as u64, m1 as u64);
    let r = Relation { vars, rows };
    proof {
        let ps = choose|ps: Seq<usize>| #[trigger]
            places(axes@, vars@, ps) && (forall|row: u64| #[trigger]
                r.rows@.contains(row) <==> reencoded(support@, ps, mask, m1 as u64, support@.len() as int, row));
        assert forall|a: Asg| #[trigger] r.holds(a) <==> network::rows_hold(axes@, support@, fix(doms@, a)) by {
            let b = fix(doms@, a);
            if r.holds(a) {
                let k = choose|k: int| 0 <= k < r.rows@.len() && network::agrees(r.vars@, #[trigger] r.rows@[k], a);
                assert(r.rows@.contains(r.rows@[k]));
                let q = choose|q: int| 0 <= q < support@.len() && ((#[trigger] support@[q]) as u64 & mask) == m1 as u64 && r.rows@[k] == gathered(support@[q] as u64, ps);
                let c = support@[q] as u64;
                propagate::lemma_query(doms@, axes@, m0, m1, c);
                lemma_gathered(c, ps);
                assert forall|i: int| 0 <= i < axes@.len() implies bits::bit(c, i) == b((#[trigger] axes@[i]) as int) by {
                    let v = axes@[i];
                    if !doms@[v as int].fixed() {
                        assert(axes@.contains(v));
                        assert(vars@.contains(v));
                        let j = vars@.index_of(v);
                        assert(axes@[ps[j] as int] == v);
                        assert(ps[j] == i) by {
                            if ps[j] < i {
                                assert(axes@[ps[j] as int] != axes@[i]);
                            } else if i < ps[j] {
                                assert(axes@[i] != axes@[ps[j] as int]);
                            }
                        }
                        assert(bits::bit(r.rows@[k], j) == a(vars@[j] as int));
                    }
                }
                assert(network::agrees(axes@, support@[q] as u64, b));
            }
            if network::rows_hold(axes@, support@, b) {
                let q = choose|q: int| 0 <= q < support@.len() && network::agrees(axes@, #[trigger] support@[q] as u64, b);
                let c = support@[q] as u64;
                assert(propagate::respects(doms@, axes@, c));
                propagate::lemma_query(doms@, axes@, m0, m1, c);
                assert(reencoded(support@, ps, mask, m1 as u64, support@.len() as int, gathered(c, ps)));
                assert(r.rows@.contains(gathered(c, ps)));
                let k = r.rows@.index_of(gathered(c, ps));
                lemma_gathered_agrees(axes@, c, vars@, ps, b);
                assert forall|j: int| 0 <= j < vars@.len() implies bits::bit(r.rows@[k], j) == a((#[trigger] vars@[j]) as int) by {
                    assert(vars@.contains(vars@[j]));
                    assert(bits::bit(gathered(c, ps), j) == b(vars@[j] as int));
                }
                assert(network::agrees(r.vars@, r.rows@[k], a));
            }
        }
    }
    r
}

/// `r` is what the constraint with the axes and rows given says of its unfixed variables.
pub open spec fn slices(axes: Seq<usize>, rows: Seq<u32>, doms: Seq<DomainMask>, r: Relation) -> bool {
    &&& r.wf()
    &&& forall|v: usize| #[trigger]
        r.vars@.contains(v) <==> (axes.contains(v) && !doms[v as int].fixed())
    &&& forall|a: Asg| #[trigger] r.holds(a) <==> network::rows_hold(axes, rows, fix(doms, a))
}

/// The region names constraints of the network, and all their unfixed variables.
pub open spec fn region_ok(cn: ConstraintNetwork, region: Region, doms: Seq<DomainMask>) -> bool {
    &&& region.tensors@.len() > 0
    &&& network::ascending_ids(region.vars@)
    &&& forall|k: int| 0 <= k < region.tensors@.len() ==> (#[trigger] region.tensors@[k]) < cn.m()
    &&& forall|i: int| 0 <= i < region.vars@.len() ==> (#[trigger] region.vars@[i]) < doms.len()
    &&& forall|v: usize|
        v < doms.len() && !doms[v as int].fixed() ==> (#[trigger] region.vars@.contains(v) <==> exists|
            k: int,
        |
            0 <= k < region.tensors@.len() && cn.axes((#[trigger] region.tensors@[k]) as int).contains(v))
}

/// The unfixed ones of the variables, in their order.
pub open spec fn open_vars(vars: Seq<usize>, doms: Seq<DomainMask>) -> Seq<usize> {
    vars.filter(|v: usize| !doms[v as int].fixed())
}

/// Contract a region: its satisfiable configurations over its unfixed variables.
pub fn contract_region(cn: &ConstraintNetwork, region: &Region, doms: &[DomainMask]) -> (r: (Vec<u64>, Vec<usize>))
    requires
        cn.wf(),
        doms@.len() == cn.n(),
        region_ok(*cn, *region, doms@),
        open_vars(region.vars@, doms@).len() <= 64,
    ensures
        r.1@ == open_vars(region.vars@, doms@),
        network::ascending_ids(r.1@),
        forall|v: usize| #[trigger] r.1@.contains(v) <==> (region.vars@.contains(v) && !doms@[v as int].fixed()),
        order::ascending64(r.0@),
        rows_below(r.0@, r.1@.len() as int),
        forall|a: Asg| #[trigger] some_row(r.1@, r.0@, a) <==> (forall|k: int|
            0 <= k < region.tensors@.len() ==> cn.holds((#[trigger] region.tensors@[k]) as int, fix(doms@, a))),
{
    let ghost p = |v: usize| !doms@[v as int].fixed();
    let mut keep: Vec<usize> = Vec::new();
    let mut i: usize = 0;
    proof {
        reveal(Seq::filter);
        assert(region.vars@.take(0).filter(p) =~= Seq::<usize>::empty());
    }
    while i < region.vars.len()
        invariant
            p == |v: usize| !doms@[v as int].fixed(),
            keep@ == region.vars@.take(i as int).filter(p),
            i <= region.vars@.len(),
            region_ok(*cn, *region, doms@),
            network::ascending_ids(keep@),
            forall|j: int| 0 <= j < keep@.len() ==> region.vars@.take(i as int).contains(#[trigger] keep@[j]),
            forall|v: usize| #[trigger]
                keep@.contains(v) <==> (region.vars@.take(i as int).contains(v) && !doms@[v as int].fixed()),
        decreases region.vars.len() - i,
    {
        let v: usize = region.vars[i];
        proof {
            reveal(Seq::filter);
            seqs::lemma_take_next(region.vars@, i as int);
            seqs::lemma_push_contains(keep@, v);
            assert forall|j: int| 0 <= j < keep@.len() implies (#[trigger] keep@[j]) < v by {
                let k = region.vars@.take(i as int).index_of(keep@[j]);
                assert(region.vars@[k] == keep@[j]);
            }
        }
        if !doms[v].is_fixed() {
            keep.push(v);
        }
        i += 1;
    }
    proof {
        seqs::lemma_take_all(region.vars@);
    }
    let mut rels: Vec<Relation> = Vec::new();
    let mut k: usize = 0;
    while k < region.tensors.len()
        invariant
            k <= region.tensors@.len(),
            cn.wf(),
            doms@.len() == cn.n(),
            region_ok(*cn, *region, doms@),
            rels@.len() == k,
            forall|j: int|
                0 <= j < k ==> slices(
                    cn.axes(region.tensors@[j] as int),
                    cn.rows(region.tensors@[j] as int),
                    doms@,
                    #[trigger] rels@[j],
                ),
        decreases region.tensors.len() - k,
    {
        let t: usize = region.tensors[k];
        assert(cn.tensor_wf(t as int));
        rels.push(tensor_relation(cn, &cn.tensors[t], doms));
        k += 1;
    }
    let ghost given = rels@;
    proof {
        assert(roomy(keep@));
        assert forall|j: int| 0 <= j < given.len() implies (#[trigger] given[j]).wf() && within(given[j].vars@, keep@) by {
            let t = region.tensors@[j] as int;
            assert(slices(cn.axes(t), cn.rows(t), doms@, given[j]));
            assert(cn.tensor_wf(t));
            assert forall|i: int| 0 <= i < given[j].vars@.len() implies keep@.contains(#[trigger] given[j].vars@[i]) by {
                let v = given[j].vars@[i];
                assert(given[j].vars@.contains(v));
                assert(cn.axes(region.tensors@[j] as int).contains(v));
                let p = cn.axes(t).index_of(v);
                assert(cn.axes(t)[p] < cn.n());
                assert(region.vars@.contains(v));
            }
        }
        assert(all_within(given, keep@));
        assert forall|i: int| 0 <= i < keep@.len() implies some_lists(given, #[trigger] keep@[i]) by {
            let v = keep@[i];
            assert(keep@.contains(v));
            let p = region.vars@.index_of(v);
            assert(region.vars@[p] < doms@.len());
            assert(region.vars@.contains(v));
            let k = choose|k: int| 0 <= k < region.tensors@.len() && cn.axes((#[trigger] region.tensors@[k]) as int).contains(v);
            assert(slices(cn.axes(region.tensors@[k] as int), cn.rows(region.tensors@[k] as int), doms@, given[k]));
            assert(given[k].vars@.contains(v));
        }
    }
    let contracted = contract(rels, keep.as_slice());
    proof {
        assert forall|j: int, i: int| 0 <= j < given.len() && 0 <= i < given[j].vars@.len() implies keep@.contains(#[trigger] given[j].vars@[i]) by {
            let v = given[j].vars@[i];
            assert(given[j].wf() && within(given[j].vars@, keep@));
            assert(slices(cn.axes(region.tensors@[j] as int), cn.rows(region.tensors@[j] as int), doms@, given[j]));
            assert(given[j].vars@.contains(v));
        }
        assert forall|a: Asg| #[trigger] some_row(keep@, contracted.rows@, a) <==> (forall|k: int|
            0 <= k < region.tensors@.len() ==> cn.holds((#[trigger] region.tensors@[k]) as int, fix(doms@, a))) by {
            assert(some_row(keep@, contracted.rows@, a) == contracted.holds(a));
            lemma_sliced_all(*cn, *region, doms@, given, keep@, a);
        }
    }
    (contracted.rows, keep)
}

/// Sliced constraints all hold for some extension exactly when the constraints hold.
proof fn lemma_sliced_all(
    cn: ConstraintNetwork,
    region: Region,
    doms: Seq<DomainMask>,
    rels: Seq<Relation>,
    keep: Seq<usize>,
    a: Asg,
)
    requires
        rels.len() == region.tensors@.len(),
        forall|j: int|
            0 <= j < rels.len() ==> slices(
                cn.axes(region.tensors@[j] as int),
                cn.rows(region.tensors@[j] as int),
                doms,
                #[trigger] rels[j],
            ),
        forall|j: int, i: int|
            0 <= j < rels.len() && 0 <= i < rels[j].vars@.len() ==> keep.contains(#[trigger] rels[j].vars@[i]),
    ensures
        all_hold_for_some(rels, keep, a) <==> (forall|k: int|
            0 <= k < region.tensors@.len() ==> cn.holds((#[trigger] region.tensors@[k]) as int, fix(doms, a))),
{
    if all_hold_for_some(rels, keep, a) {
        let b = choose|b: Asg| same_on(keep, a, b) && #[trigger] all_hold(rels, b);
        assert forall|k: int| 0 <= k < region.tensors@.len() implies cn.holds((#[trigger] region.tensors@[k]) as int, fix(doms, a)) by {
            assert(rels[k].holds(b));
            let l = choose|l: int| 0 <= l < rels[k].rows@.len() && network::agrees(rels[k].vars@, #[trigger] rels[k].rows@[l], b);
            assert forall|i: int| 0 <= i < rels[k].vars@.len() implies bits::bit(rels[k].rows@[l], i) == a((#[trigger] rels[k].vars@[i]) as int) by {
                assert(keep.contains(rels[k].vars@[i]));
                let p = keep.index_of(rels[k].vars@[i]);
                assert(a(keep[p] as int) == b(keep[p] as int));
            }
            assert(network::agrees(rels[k].vars@, rels[k].rows@[l], a));
            assert(rels[k].holds(a));
        }
    }
    if forall|k: int| 0 <= k < region.tensors@.len() ==> cn.holds((#[trigger] region.tensors@[k]) as int, fix(doms, a)) {
        assert forall|j: int| 0 <= j < rels.len() implies (#[trigger] rels[j]).holds(a) by {
            assert(cn.holds(region.tensors@[j] as int, fix(doms, a)));
        }
        assert(same_on(keep, a, a));
        assert(all_hold(rels, a));
    }
}

/// Each relation has at most thirty-two variables below `var_num`.
pub open spec fn all_small(rels: Seq<Relation>, var_num: int) -> bool {
    forall|i: int|
        0 <= i < rels.len() ==> (#[trigger] rels[i]).wf() && rels[i].vars@.len() <= 32 && (forall|j: int|
            0 <= j < rels[i].vars@.len() ==> (#[trigger] rels[i].vars@[j]) < var_num)
}

/// `given` are the relations as constraints: the same variables and the same rows.
pub open spec fn narrows(rels: Seq<Relation>, given: Seq<(Vec<usize>, Vec<u32>)>) -> bool {
    &&& given.len() == rels.len()
    &&& forall|t: int|
        0 <= t < rels.len() ==> (#[trigger] given[t]).0@ == rels[t].vars@ && given[t].1@.len()
            == rels[t].rows@.len()
    &&& forall|t: int, k: int|
        0 <= t < rels.len() && 0 <= k < rels[t].rows@.len() ==> (#[trigger] given[t].1@[k]) as u64
            == rels[t].rows@[k]
}

/// `cn` is the network of the relations.
pub open spec fn from_relations_ok(cn: ConstraintNetwork, var_num: int, rels: Seq<Relation>) -> bool {
    exists|given: Seq<(Vec<usize>, Vec<u32>)>|
        narrows(rels, given) && #[trigger] network::assembles(cn, var_num, given)
}

/// Build a network from relations.
pub fn setup_from_relations(var_num: usize, rels: Vec<Relation>) -> (r: ConstraintNetwork)
    requires
        all_small(rels@, var_num as int),
    ensures
        from_relations_ok(r, var_num as int, rels@),
{
    let mut given: Vec<(Vec<usize>, Vec<u32>)> = Vec::new();
    let mut t: usize = 0;
    while t < rels.len()
        invariant
            t <= rels@.len(),
            all_small(rels@, var_num as int),
            given@.len() == t,
            narrows(rels@.take(t as int), given@),
            forall|s: int| 0 <= s < t ==> network::input_wf(var_num as int, (#[trigger] given@[s]).0@, given@[s].1@),
        decreases rels.len() - t,
    {
        assert(rels@[t as int].wf());
        let rows = &rels[t].rows;
        let mut support: Vec<u32> = Vec::new();
        let mut k: usize = 0;
        while k < rows.len()
            invariant
                k <= rows@.len(),
                t < rels@.len(),
                rows@ == rels@[t as int].rows@,
                rels@[t as int].wf(),
                rels@[t as int].vars@.len() <= 32,
                support@.len() == k,
                forall|j: int| 0 <= j < k ==> (#[trigger] support@[j]) as u64 == rows@[j],
            decreases rows.len() - k,
        {
            proof {
                assert(bits::below(rows@[k as int], rels@[t as int].vars@.len() as int));
                bits::lemma_below_iff(rows@[k as int], 32);
                assert((1u64 << 32u64) == 0x1_0000_0000u64) by (bit_vector);
            }
            support.push(rows[k] as u32);
            k += 1;
        }
        let ghost before = given@;
        given.push((network::copy_ids(&rels[t].vars), support));
        proof {
            let r = rels@[t as int];
            assert(network::input_wf(var_num as int, given@[t as int].0@, given@[t as int].1@)) by {
                assert forall|i: int, j: int| 0 <= i < j < support@.len() implies support@[i] < support@[j] by {
                    assert(support@[i] as u64 == r.rows@[i]);
                    assert(support@[j] as u64 == r.rows@[j]);
                }
                assert forall|k: int| 0 <= k < support@.len() implies bits::below((#[trigger] support@[k]) as u64, r.vars@.len() as int) by {
                    assert(bits::below(r.rows@[k], r.vars@.len() as int));
                }
            }
            assert(narrows(rels@.take(t + 1), given@)) by {
                let p1 = rels@.take(t + 1);
                let p0 = rels@.take(t as int);
                assert forall|s: int| 0 <= s < p1.len() implies (#[trigger] given@[s]).0@ == p1[s].vars@ && given@[s].1@.len() == p1[s].rows@.len() by {
                    if s < t {
                        assert(given@[s] == before[s]);
                        assert(p1[s] == p0[s]);
                    }
                }
                assert forall|s: int, k: int| 0 <= s < p1.len() && 0 <= k < p1[s].rows@.len() implies (#[trigger] given@[s].1@[k]) as u64 == p1[s].rows@[k] by {
                    if s < t {
                        assert(given@[s] == before[s]);
                        assert(p1[s] == p0[s]);
                        assert(before[s].1@[k] as u64 == p0[s].rows@[k]);
                    } else {
                        assert(support@[k] as u64 == r.rows@[k]);
                    }
                }
            }
        }
        t += 1;
    }
    proof {
        seqs::lemma_take_all(rels@);
    }
    network::assemble(var_num, given)
}

/// Ascending lists of the same numbers are equal.
proof fn lemma_ascending_rows_same(s: Seq<u64>, t: Seq<u64>)
    requires
        order::ascending64(s),
        order::ascending64(t),
        forall|x: u64| #[trigger] s.contains(x) <==> t.contains(x),
    ensures
        s == t,
    decreases s.len(),
{
    if s.len() == 0 {
        if t.len() > 0 {
            assert(t.contains(t[0]));
            assert(s.contains(t[0]));
        }
        assert(s =~= t);
    } else if t.len() == 0 {
        assert(s.contains(s[0]));
        assert(t.contains(s[0]));
    } else {
        let x = s.last();
        let y = t.last();
        assert(s[s.len() - 1] == x && t[t.len() - 1] == y);
        assert(s.contains(x) && t.contains(y));
        assert(t.contains(x) && s.contains(y));
        let i = t.index_of(x);
        let j = s.index_of(y);
        assert(x <= y);
        assert(y <= x);
        let s1 = s.drop_last();
        let t1 = t.drop_last();
        assert forall|z: u64| #[trigger] s1.contains(z) <==> t1.contains(z) by {
            if s1.contains(z) {
                let k = s1.index_of(z);
                assert(s[k] == z);
                assert(s.contains(z));
                let q = t.index_of(z);
                assert(s[k] < s[s.len() - 1]);
                assert(z < x);
                assert(q < t.len() - 1);
                assert(t1[q] == z);
            }
            if t1.contains(z) {
                let k = t1.index_of(z);
                assert(t[k] == z);
                assert(t.contains(z));
                assert(s.contains(z));
                let q = s.index_of(z);
                assert(t[k] < t[t.len() - 1]);
                assert(z < y);
                assert(x == y);
                assert(q < s.len() - 1);
                assert(s1[q] == z);
            }
        }
        lemma_ascending_rows_same(s1, t1);
        assert(s =~= s1.push(x));
        assert(t =~= t1.push(y));
    }
}

/// A row is listed exactly if an assignment that has its values is allowed.
proof fn lemma_row_listed(vars: Seq<usize>, rows: Seq<u64>, x: u64, a: Asg)
    requires
        vars.len() <= 64,
        rows_below(rows, vars.len() as int),
        bits::below(x, vars.len() as int),
        network::agrees(vars, x, a),
    ensures
        rows.contains(x) <==> some_row(vars, rows, a),
{
    if rows.contains(x) {
        let k = rows.index_of(x);
        assert(network::agrees(vars, rows[k], a));
    }
    if some_row(vars, rows, a) {
        let k = choose|k: int| 0 <= k < rows.len() && network::agrees(vars, #[trigger] rows[k], a);
        let y = rows[k];
        assert(bits::below(y, vars.len() as int));
        assert forall|i: int| 0 <= i < 64 implies bits::bit(y, i) == bits::bit(x, i) by {
            if i < vars.len() {
                assert(bits::bit(y, i) == a(vars[i] as int));
                assert(bits::bit(x, i) == a(vars[i] as int));
            }
        }
        bits::lemma_bits_equal(y, x);
    }
}

/// The assignments that a relation allows determine its rows.
pub proof fn lemma_rows_unique(vars: Seq<usize>, r: Seq<u64>, q: Seq<u64>)
    requires
        network::ascending_ids(vars),
        vars.len() <= 64,
        order::ascending64(r),
        order::ascending64(q),
        rows_below(r, vars.len() as int),
        rows_below(q, vars.len() as int),
        forall|a: Asg| #[trigger] some_row(vars, r, a) <==> some_row(vars, q, a),
    ensures
        r == q,
{
    assert forall|x: u64| #[trigger] r.contains(x) <==> q.contains(x) by {
        if r.contains(x) || q.contains(x) {
            let a: Asg = |v: int| exists|i: int| 0 <= i < vars.len() && (#[trigger] vars[i]) as int == v && bits::bit(x, i);
            assert(network::agrees(vars, x, a)) by {
                assert forall|i: int| 0 <= i < vars.len() implies bits::bit(x, i) == a((#[trigger] vars[i]) as int) by {
                    if a(vars[i] as int) {
                        let j = choose|j: int| 0 <= j < vars.len() && (#[trigger] vars[j]) as int == vars[i] as int && bits::bit(x, j);
                        assert(vars[j] == vars[i]);
                        if i < j {
                            assert(vars[i] < vars[j]);
                        } else if j < i {
                            assert(vars[j] < vars[i]);
                        }
                    }
                }
            }
            assert(bits::below(x, vars.len() as int)) by {
                if r.contains(x) {
                    let k = r.index_of(x);
                    assert(bits::below(r[k], vars.len() as int));
                } else {
                    let k = q.index_of(x);
                    assert(bits::below(q[k], vars.len() as int));
                }
            }
            lemma_row_listed(vars, r, x, a);
            lemma_row_listed(vars, q, x, a);
            assert(some_row(vars, r, a) <==> some_row(vars, q, a));
        }
    }
    lemma_ascending_rows_same(r, q);
}

/// The join of relations does not depend on their order.
pub proof fn law_join_does_not_depend_on_the_order(x: Seq<Relation>, y: Seq<Relation>, r: Relation, q: Relation)
    requires
        x.to_multiset() == y.to_multiset(),
        joins_all(x, r),
        joins_all(y, q),
    ensures
        r.vars@ == q.vars@,
        r.rows@ == q.rows@,
{
    order::lemma_permutation(x, y);
    assert forall|v: usize| #[trigger] r.vars@.contains(v) <==> q.vars@.contains(v) by {
        assert(some_lists(x, v) <==> some_lists(y, v)) by {
            if some_lists(x, v) {
                let i = choose|i: int| 0 <= i < x.len() && (#[trigger] x[i]).vars@.contains(v);
                assert(x.contains(x[i]));
                assert(y.contains(x[i]));
                let j = y.index_of(x[i]);
                assert(y[j].vars@.contains(v));
            }
            if some_lists(y, v) {
                let i = choose|i: int| 0 <= i < y.len() && (#[trigger] y[i]).vars@.contains(v);
                assert(y.contains(y[i]));
                assert(x.contains(y[i]));
                let j = x.index_of(y[i]);
                assert(x[j].vars@.contains(v));
            }
        }
    }
    lemma_ascending_same(r.vars@, q.vars@);
    assert forall|a: Asg| #[trigger] some_row(r.vars@, r.rows@, a) <==> some_row(r.vars@, q.rows@, a) by {
        assert(r.holds(a) <==> all_hold(x, a));
        assert(q.holds(a) <==> all_hold(y, a));
        if all_hold(x, a) {
            assert forall|i: int| 0 <= i < y.len() implies (#[trigger] y[i]).holds(a) by {
                assert(y.contains(y[i]));
                assert(x.contains(y[i]));
                let j = x.index_of(y[i]);
                assert(x[j].holds(a));
            }
        }
        if all_hold(y, a) {
            assert forall|i: int| 0 <= i < x.len() implies (#[trigger] x[i]).holds(a) by {
                assert(x.contains(x[i]));
                assert(y.contains(x[i]));
                let j = y.index_of(x[i]);
                assert(y[j].holds(a));
            }
        }
    }
    lemma_rows_unique(r.vars@, r.rows@, q.rows@);
}

/// The dense table of a relation.
pub open spec fn tabulates(rel: Relation, dense: Seq<bool>) -> bool {
    &&& dense.len() == 1u64 << (rel.vars@.len() as u64)
    &&& forall|c: int| 0 <= c < dense.len() ==> (#[trigger] dense[c] <==> rel.rows@.contains(c as u64))
}

/// Relations and their dense tables make the same network.
pub proof fn law_relations_and_tables_agree(x: ConstraintNetwork, y: ConstraintNetwork, var_num: int, rels: Seq<Relation>, scopes: Seq<Vec<usize>>, tables: Seq<Vec<bool>>)
    requires
        all_small(rels, var_num),
        from_relations_ok(x, var_num, rels),
        network::sets_up(y, var_num, scopes, tables),
        scopes.len() == rels.len(),
        tables.len() == rels.len(),
        forall|t: int| 0 <= t < rels.len() ==> (#[trigger] scopes[t])@ == rels[t].vars@ && tabulates(rels[t], tables[t]@),
    ensures
        network::same_network(x, y),
{
    let a = choose|given: Seq<(Vec<usize>, Vec<u32>)>| narrows(rels, given) && #[trigger] network::assembles(x, var_num, given);
    let b = choose|given: Seq<(Vec<usize>, Vec<u32>)>|
        #![trigger network::assembles(y, var_num, given)]
        network::assembles(y, var_num, given) && given.len() == scopes.len() && (forall|t: int|
            0 <= t < given.len() ==> (#[trigger] given[t]).0@ == scopes[t]@ && network::lists_true(given[t].1@, tables[t]@));
    assert forall|t: int| 0 <= t < a.len() implies (#[trigger] a[t]).0@ == b[t].0@ && a[t].1@ == b[t].1@ by {
        assert(scopes[t]@ == rels[t].vars@);
        assert(b[t].0@ == scopes[t]@);
        let rows = rels[t].rows@;
        let wide = b[t].1@.map_values(|c: u32| c as u64);
        assert(rels[t].wf());
        network::lemma_pow2_32(rels[t].vars@.len() as int);
        assert(order::ascending64(wide));
        assert forall|x: u64| #[trigger] wide.contains(x) <==> rows.contains(x) by {
            if wide.contains(x) {
                let k = wide.index_of(x);
                assert(b[t].1@[k] as u64 == x);
                assert(tables[t]@[b[t].1@[k] as int]);
            }
            if rows.contains(x) {
                let k = rows.index_of(x);
                assert(bits::below(rows[k], rels[t].vars@.len() as int));
                bits::lemma_below_iff(x, rels[t].vars@.len() as u64);
                assert(tables[t]@[x as int]);
                assert(b[t].1@.contains(x as int as u32));
                let q = b[t].1@.index_of(x as u32);
                assert(wide[q] == x);
            }
        }
        lemma_ascending_rows_same(wide, rows);
        assert forall|k: int| 0 <= k < rows.len() implies a[t].1@[k] == b[t].1@[k] by {
            assert(a[t].1@[k] as u64 == rows[k]);
            assert(wide[k] == rows[k]);
        }
        assert(a[t].1@ =~= b[t].1@);
    }
    network::law_assembled_networks_agree(x, y, var_num, a, b);
}

} // verus!
