//! Compact-table propagation: per-constraint sets of live rows, narrowed with the domains to
//! generalized arc consistency.
use vstd::prelude::*;

use crate::bits;
use crate::domain::DomainMask;
use crate::network;
use crate::network::ConstraintNetwork;
use crate::problem::SolverBuffer;
use crate::trail;
use crate::trail::{State, TableView, Trail};

verus! {

/// A reversible set of live rows: row `r` is bit `r % 64` of word `r / 64`; the words from
/// `limit` on are zero.
pub struct RSparseBitSet {
    pub words: Vec<u64>,
    pub limit: u32,
}

/// Which rows of a table have which value on which axis: word `w` of axis `i` and value `v`
/// is `supports[(i * 2 + v) * n_words + w]`.
pub struct TableMasks {
    pub n_rows: usize,
    pub n_words: usize,
    pub supports: Vec<u64>,
}

/// The number of words that hold `n` rows.
pub open spec fn words_for(n: int) -> int {
    (n + 63) / 64
}

/// The place of a mask word.
pub open spec fn slot(n_words: int, i: int, v: int, w: int) -> int {
    (i * 2 + v) * n_words + w
}

/// Row `r` has the value `b` on axis `i`.
pub open spec fn row_has(rows: Seq<u32>, r: int, i: int, b: bool) -> bool {
    0 <= r < rows.len() && bits::bit(rows[r] as u64, i) == b
}

pub proof fn lemma_slot(nw: int, arity: int, i: int, v: int, w: int)
    requires
        0 <= i < arity,
        0 <= v < 2,
        0 <= w < nw,
    ensures
        0 <= (i * 2 + v) * nw,
        0 <= slot(nw, i, v, w) < arity * 2 * nw,
        slot(nw, i, v, w) == (i * 2 + v) * nw + w,
        (i * 2 + v) * nw + nw <= arity * 2 * nw,
{
    let a = i * 2 + v;
    assert(0 <= a <= arity * 2 - 1);
    assert(0 <= a * nw) by (nonlinear_arith)
        requires
            0 <= a,
            0 < nw,
    ;
    assert(a * nw + nw <= arity * 2 * nw) by (nonlinear_arith)
        requires
            a <= arity * 2 - 1,
            0 < nw,
    ;
}

proof fn lemma_slot_unique(nw: int, i: int, v: int, w: int, i2: int, v2: int, w2: int)
    requires
        0 <= i,
        0 <= i2,
        0 <= v < 2,
        0 <= v2 < 2,
        0 <= w < nw,
        0 <= w2 < nw,
        slot(nw, i, v, w) == slot(nw, i2, v2, w2),
    ensures
        i == i2,
        v == v2,
        w == w2,
{
    let a = i * 2 + v;
    let b = i2 * 2 + v2;
    assert(a == b && w == w2) by (nonlinear_arith)
        requires
            a * nw + w == b * nw + w2,
            0 <= w < nw,
            0 <= w2 < nw,
    ;
}

impl TableMasks {
    /// Word `w` of axis `i` and value `v`.
    pub open spec fn word(self, i: int, v: int, w: int) -> u64 {
        self.supports@[slot(self.n_words as int, i, v, w)]
    }

    /// The masks of a table with the given rows and arity.
    pub open spec fn ok(self, rows: Seq<u32>, arity: int) -> bool {
        &&& self.n_rows == rows.len()
        &&& self.n_words == words_for(rows.len() as int)
        &&& self.supports@.len() == arity * 2 * self.n_words
        &&& forall|i: int, v: int, w: int, b: int|
            0 <= i < arity && 0 <= v < 2 && 0 <= w < self.n_words && 0 <= b < 64 ==> (#[trigger] bits::bit(self.word(i, v, w), b)
                == row_has(rows, w * 64 + b, i, v == 1))
    }

    /// The masks of a table.
    pub fn build(support: &[u32], arity: usize) -> (r: TableMasks)
        requires
            arity <= 32,
        ensures
            r.ok(support@, arity as int),
    {
        let n_rows: usize = support.len();
        let n_words: usize = n_rows / 64 + (if n_rows % 64 == 0 {
            0
        } else {
            1
        });
        let ghost nw = n_words as int;
        let mut supports: Vec<u64> = Vec::new();
        let mut i: usize = 0;
        assert(0 * nw == 0) by (nonlinear_arith);
        while i < arity * 2
            invariant
                arity <= 32,
                i <= arity * 2,
                nw == n_words,
                supports@.len() == i * nw,
                forall|k: int| 0 <= k < supports@.len() ==> #[trigger] supports@[k] == 0,
            decreases arity * 2 - i,
        {
            let mut w: usize = 0;
            while w < n_words
                invariant
                    w <= n_words,
                    nw == n_words,
                    supports@.len() == i * nw + w,
                    forall|k: int| 0 <= k < supports@.len() ==> #[trigger] supports@[k] == 0,
                decreases n_words - w,
            {
                supports.push(0);
                w += 1;
            }
            proof {
                let x = i as int;
                assert((x + 1) * nw == x * nw + nw) by (nonlinear_arith);
            }
            i += 1;
        }
        let mut r: usize = 0;
        proof {
            broadcast use bits::group_bits;

            assert(supports@.len() == arity * 2 * nw);
            assert forall|i: int, v: int, w: int, b: int| 0 <= i < arity && 0 <= v < 2 && 0 <= w < nw && 0 <= b < 64 implies #[trigger] bits::bit(supports@[slot(nw, i, v, w)], b) == false by {
                lemma_slot(nw, arity as int, i, v, w);
            }
        }
        while r < n_rows
            invariant
                arity <= 32,
                n_rows == support@.len(),
                r <= n_rows,
                nw == n_words == words_for(n_rows as int),
                supports@.len() == arity * 2 * nw,
                forall|i: int, v: int, w: int, b: int|
                    0 <= i < arity && 0 <= v < 2 && 0 <= w < nw && 0 <= b < 64 ==> (#[trigger] bits::bit(supports@[slot(nw, i, v, w)], b)
                        == (w * 64 + b < r && row_has(support@, w * 64 + b, i, v == 1))),
            decreases n_rows - r,
        {
            let w: usize = r / 64;
            let b: usize = r % 64;
            let config: u64 = support[r] as u64;
            let mut i: usize = 0;
            while i < arity
                invariant
                    arity <= 32,
                    i <= arity,
                    n_rows == support@.len(),
                    r < n_rows,
                    w == r / 64,
                    b == r % 64,
                    config == support@[r as int] as u64,
                    nw == n_words == words_for(n_rows as int),
                    supports@.len() == arity * 2 * nw,
                    forall|j: int, v: int, x: int, y: int|
                        0 <= j < arity && 0 <= v < 2 && 0 <= x < nw && 0 <= y < 64 ==> (#[trigger] bits::bit(supports@[slot(nw, j, v, x)], y)
                            == ((x * 64 + y < r || (x * 64 + y == r && j < i)) && row_has(support@, x * 64 + y, j, v == 1))),
                decreases arity - i,
            {
                let set = bits::get_bit(config, i);
                let v: usize = if set {
                    1
                } else {
                    0
                };
                proof {
                    lemma_slot(nw, arity as int, i as int, v as int, w as int);
                    assert(supports.len() == supports@.len());
                }
                let at: usize = (i * 2 + v) * n_words + w;
                let ghost before = supports@;
                supports.set(at, bits::with_bit(supports[at], b));
                proof {
                    assert forall|j: int, u: int, x: int, y: int| 0 <= j < arity && 0 <= u < 2 && 0 <= x < nw && 0 <= y < 64 implies #[trigger] bits::bit(supports@[slot(nw, j, u, x)], y)
                        == ((x * 64 + y < r || (x * 64 + y == r && j < i + 1)) && row_has(support@, x * 64 + y, j, u == 1)) by {
                        assert(bits::bit(before[slot(nw, j, u, x)], y) == ((x * 64 + y < r || (x * 64 + y == r && j < i)) && row_has(support@, x * 64 + y, j, u == 1)));
                        lemma_slot(nw, arity as int, j, u, x);
                        if slot(nw, j, u, x) == at as int {
                            lemma_slot_unique(nw, i as int, v as int, w as int, j, u, x);
                        } else if j == i && x * 64 + y == r {
                            assert(x == w && y == b);
                            assert(u != v);
                        }
                    }
                }
                i += 1;
            }
            r += 1;
        }
        TableMasks { n_rows, n_words, supports }
    }

    /// The mask of axis `axis` and value `value`.
    pub fn support_slice(&self, axis: usize, value: usize) -> (r: &[u64])
        requires
            (axis * 2 + value) * self.n_words + self.n_words <= self.supports@.len(),
        ensures
            r@.len() == self.n_words,
            forall|w: int| 0 <= w < self.n_words ==> #[trigger] r@[w] == self.word(axis as int, value as int, w),
    {
        proof {
            let nw = self.n_words as int;
            let a = axis * 2 + value;
            assert(self.supports.len() == self.supports@.len());
            assert(0 <= a * nw) by (nonlinear_arith)
                requires
                    0 <= a,
                    0 <= nw,
            ;
            assert(nw == 0 || a <= a * nw) by (nonlinear_arith)
                requires
                    0 <= a,
                    0 <= nw,
            ;
        }
        if self.n_words == 0 {
            return vstd::slice::slice_subrange(self.supports.as_slice(), 0, 0);
        }
        let base: usize = (axis * 2 + value) * self.n_words;
        vstd::slice::slice_subrange(self.supports.as_slice(), base, base + self.n_words)
    }
}

/// Row `r` is in the set.
pub open spec fn row_live(t: TableView, r: int) -> bool {
    bits::bit(t.0[r / 64], r % 64)
}

/// Every value of `row` is allowed.
pub open spec fn admits(doms: Seq<DomainMask>, axes: Seq<usize>, row: u64) -> bool {
    forall|i: int| 0 <= i < axes.len() ==> doms[(#[trigger] axes[i]) as int].allows(bits::bit(row, i))
}

/// A live-row set over the rows of constraint `t`.
pub open spec fn table_wf(cn: ConstraintNetwork, t: int, tv: TableView) -> bool {
    &&& tv.0.len() == words_for(cn.rows(t).len() as int)
    &&& tv.1 <= tv.0.len()
    &&& forall|w: int| tv.1 <= w < tv.0.len() ==> #[trigger] tv.0[w] == 0
    &&& forall|r: int| cn.rows(t).len() <= r < tv.0.len() * 64 ==> !#[trigger] row_live(tv, r)
}

/// Masks of every table, and well-formed live-row sets and domains.
pub open spec fn state_wf(cn: ConstraintNetwork, s: State) -> bool {
    &&& s.0.len() == cn.n()
    &&& s.1.len() == cn.m()
    &&& forall|t: int| 0 <= t < cn.m() ==> table_wf(cn, t, #[trigger] s.1[t])
}

/// Each constraint's masks are those of its table.
pub open spec fn masks_ok(cn: ConstraintNetwork, masks: Seq<TableMasks>) -> bool {
    &&& masks.len() == cn.unique_tensors@.len()
    &&& forall|t: int| 0 <= t < cn.m() ==> masks[(#[trigger] cn.tensors@[t]).data_idx as int].ok(cn.rows(t), cn.axes(t).len() as int)
}

/// The live rows are those that the domains admit.
pub open spec fn exact(cn: ConstraintNetwork, s: State) -> bool {
    forall|t: int, r: int|
        0 <= t < cn.m() && 0 <= r < cn.rows(t).len() ==> (#[trigger] row_live(s.1[t], r) <==> admits(s.0, cn.axes(t), cn.rows(t)[r] as u64))
}

/// Some row that the domains admit has the value `b` on axis `j`.
pub open spec fn supported(cn: ConstraintNetwork, doms: Seq<DomainMask>, t: int, j: int, b: bool) -> bool {
    exists|r: int| 0 <= r < cn.rows(t).len() && admits(doms, cn.axes(t), #[trigger] cn.rows(t)[r] as u64) && bits::bit(cn.rows(t)[r] as u64, j) == b
}

/// Some row is admitted.
pub open spec fn open_at(cn: ConstraintNetwork, doms: Seq<DomainMask>, t: int) -> bool {
    exists|r: int| 0 <= r < cn.rows(t).len() && admits(doms, cn.axes(t), #[trigger] cn.rows(t)[r] as u64)
}

/// Constraint `t` is arc consistent: it admits a row, and supports every value that is allowed.
pub open spec fn consistent_at(cn: ConstraintNetwork, doms: Seq<DomainMask>, t: int) -> bool {
    &&& open_at(cn, doms, t)
    &&& forall|j: int, b: bool| 0 <= j < cn.axes(t).len() && doms[cn.axes(t)[j] as int].allows(b) ==> #[trigger] supported(cn, doms, t, j, b)
}

/// Generalized arc consistency: every constraint supports every value that is allowed.
pub open spec fn closed_under(cn: ConstraintNetwork, doms: Seq<DomainMask>) -> bool {
    &&& doms.len() == cn.n()
    &&& forall|v: int| 0 <= v < cn.n() ==> (#[trigger] doms[v]).live()
    &&& forall|t: int| 0 <= t < cn.m() ==> #[trigger] consistent_at(cn, doms, t)
}

/// Every value that `e` allows, `d` allows.
pub open spec fn narrower(e: Seq<DomainMask>, d: Seq<DomainMask>) -> bool {
    &&& e.len() == d.len()
    &&& forall|v: int, b: bool| 0 <= v < d.len() && (#[trigger] e[v].allows(b)) ==> d[v].allows(b)
}

/// Arc-consistent domains within `d0` stay within `d`.
pub open spec fn keeps_closed(cn: ConstraintNetwork, d0: Seq<DomainMask>, d: Seq<DomainMask>) -> bool {
    forall|e: Seq<DomainMask>| #[trigger] closed_under(cn, e) && narrower(e, d0) ==> narrower(e, d)
}

/// No arc-consistent domains lie within `d`.
pub open spec fn refuted(cn: ConstraintNetwork, d: Seq<DomainMask>) -> bool {
    forall|e: Seq<DomainMask>| #[trigger] closed_under(cn, e) ==> !narrower(e, d)
}

/// An arc-consistent state with exact live rows.
pub open spec fn fixpoint(cn: ConstraintNetwork, s: State) -> bool {
    &&& state_wf(cn, s)
    &&& exact(cn, s)
    &&& closed_under(cn, s.0)
}

/// `t1` and `s1` come from `t0` and `s0` by recorded writes.
pub open spec fn logged(t1: Trail, s1: State, t0: Trail, s0: State) -> bool {
    &&& trail::shape(s1) == trail::shape(s0)
    &&& t1.fits(trail::shape(s1))
    &&& t1.depth() >= t0.depth()
    &&& forall|mark: int| mark <= t0.depth() ==> #[trigger] t1.before(mark, s1) == t0.before(mark, s0)
}

/// A contradiction can be marked, or none can arise.
pub open spec fn markable(cn: ConstraintNetwork) -> bool {
    cn.n() > 0 || forall|t: int| 0 <= t < cn.m() ==> (#[trigger] cn.rows(t)).len() > 0
}

pub proof fn lemma_logged_trans(t2: Trail, s2: State, t1: Trail, s1: State, t0: Trail, s0: State)
    requires
        logged(t2, s2, t1, s1),
        logged(t1, s1, t0, s0),
    ensures
        logged(t2, s2, t0, s0),
{
    assert forall|mark: int| mark <= t0.depth() implies #[trigger] t2.before(mark, s2) == t0.before(mark, s0) by {
        assert(t2.before(mark, s2) == t1.before(mark, s1));
    }
}

pub proof fn lemma_narrower_trans(c: Seq<DomainMask>, b: Seq<DomainMask>, a: Seq<DomainMask>)
    requires
        narrower(c, b),
        narrower(b, a),
    ensures
        narrower(c, a),
{
    assert forall|v: int, x: bool| 0 <= v < a.len() && (#[trigger] c[v].allows(x)) implies a[v].allows(x) by {
        assert(b[v].allows(x));
    }
}

/// Narrower domains admit fewer rows.
pub proof fn lemma_admits_wider(e: Seq<DomainMask>, d: Seq<DomainMask>, axes: Seq<usize>, row: u64)
    requires
        narrower(e, d),
        admits(e, axes, row),
        forall|i: int| 0 <= i < axes.len() ==> (#[trigger] axes[i]) < d.len(),
    ensures
        admits(d, axes, row),
{
    assert forall|i: int| 0 <= i < axes.len() implies d[(#[trigger] axes[i]) as int].allows(bits::bit(row, i)) by {
        assert(e[axes[i] as int].allows(bits::bit(row, i)));
    }
}

/// A table has at most as many rows as there are configurations.
pub proof fn lemma_row_count(rows: Seq<u32>, k: int)
    requires
        network::ascending32(rows),
        0 <= k < rows.len(),
    ensures
        rows[k] >= k,
        rows.len() <= 0x1_0000_0000,
    decreases k,
{
    if k > 0 {
        lemma_row_count(rows, k - 1);
        assert(rows[k - 1] < rows[k]);
    }
    if k < rows.len() - 1 {
        lemma_row_count_up(rows, k, rows.len() - 1);
    }
}

proof fn lemma_row_count_up(rows: Seq<u32>, k: int, top: int)
    requires
        network::ascending32(rows),
        0 <= k <= top < rows.len(),
        rows[k] >= k,
    ensures
        rows[top] >= top,
    decreases top - k,
{
    if k < top {
        assert(rows[k] < rows[k + 1]);
        lemma_row_count_up(rows, k + 1, top);
    }
}

/// A live-row set with all of `n_rows` rows.
fn full_table(n_rows: usize) -> (r: RSparseBitSet)
    requires
        n_rows <= 0x1_0000_0000,
    ensures
        r.words@.len() == words_for(n_rows as int),
        r.limit == r.words@.len(),
        forall|q: int| 0 <= q < r.words@.len() * 64 ==> #[trigger] row_live((r.words@, r.limit), q) == (q < n_rows),
{
    let n_words: usize = n_rows / 64 + (if n_rows % 64 == 0 {
        0
    } else {
        1
    });
    let mut words: Vec<u64> = Vec::new();
    let mut w: usize = 0;
    while w < n_words
        invariant
            w <= n_words == words_for(n_rows as int),
            n_rows <= 0x1_0000_0000,
            words@.len() == w,
            forall|x: int, b: int| 0 <= x < w && 0 <= b < 64 ==> #[trigger] bits::bit(words@[x], b) == (x * 64 + b < n_rows),
        decreases n_words - w,
    {
        let left: usize = n_rows - w * 64;
        let width: usize = if left < 64 {
            left
        } else {
            64
        };
        words.push(bits::full_mask(width));
        w += 1;
    }
    RSparseBitSet { words, limit: n_words as u32 }
}

/// The masks of every table, and live-row sets with all rows.
pub fn build_tables(cn: &ConstraintNetwork) -> (r: (Vec<TableMasks>, Vec<RSparseBitSet>))
    requires
        cn.wf(),
    ensures
        masks_ok(*cn, r.0@),
        r.1@.len() == cn.m(),
        forall|t: int| 0 <= t < cn.m() ==> table_wf(*cn, t, #[trigger] trail::frozen(r.1@)[t]),
        forall|t: int, q: int| 0 <= t < cn.m() && 0 <= q < cn.rows(t).len() ==> #[trigger] row_live(trail::frozen(r.1@)[t], q),
{
    let mut arity: Vec<usize> = Vec::new();
    while arity.len() < cn.unique_tensors.len()
        invariant
            arity@.len() <= cn.unique_tensors@.len(),
            forall|d: int| 0 <= d < arity@.len() ==> #[trigger] arity@[d] <= 32,
        decreases cn.unique_tensors.len() - arity.len(),
    {
        arity.push(0);
    }
    let mut tables: Vec<RSparseBitSet> = Vec::new();
    let mut t: usize = 0;
    while t < cn.tensors.len()
        invariant
            cn.wf(),
            t <= cn.m(),
            arity@.len() == cn.unique_tensors@.len(),
            forall|d: int| 0 <= d < arity@.len() ==> #[trigger] arity@[d] <= 32,
            forall|s: int| 0 <= s < t ==> arity@[(#[trigger] cn.tensors@[s]).data_idx as int] == cn.axes(s).len(),
            tables@.len() == t,
            forall|s: int| 0 <= s < t ==> table_wf(*cn, s, #[trigger] trail::frozen(tables@)[s]),
            forall|s: int, q: int| 0 <= s < t && 0 <= q < cn.rows(s).len() ==> #[trigger] row_live(trail::frozen(tables@)[s], q),
        decreases cn.tensors.len() - t,
    {
        assert(cn.tensor_wf(t as int));
        let tensor = &cn.tensors[t];
        let ghost before = arity@;
        arity.set(tensor.data_idx, tensor.var_axes.len());
        proof {
            assert forall|s: int| 0 <= s < t + 1 implies arity@[(#[trigger] cn.tensors@[s]).data_idx as int] == cn.axes(s).len() by {
                assert(cn.tensor_wf(s));
                if cn.tensors@[s].data_idx == cn.tensors@[t as int].data_idx {
                    assert(cn.axes(s).len() == cn.axes(t as int).len());
                }
            }
            if cn.rows(t as int).len() > 0 {
                lemma_row_count(cn.rows(t as int), 0);
            }
        }
        let ghost old_tables = tables@;
        let table = full_table(cn.support(tensor).len());
        tables.push(table);
        proof {
            assert forall|s: int| 0 <= s < t + 1 implies table_wf(*cn, s, #[trigger] trail::frozen(tables@)[s]) by {
                if s < t {
                    assert(trail::frozen(tables@)[s] == trail::frozen(old_tables)[s]);
                } else {
                    let tv = trail::frozen(tables@)[s];
                    assert(tv == (table.words@, table.limit));
                    assert forall|r: int| cn.rows(s).len() <= r < tv.0.len() * 64 implies !#[trigger] row_live(tv, r) by {
                        assert(row_live((table.words@, table.limit), r) == (r < cn.rows(s).len()));
                    }
                }
            }
            assert forall|s: int, q: int| 0 <= s < t + 1 && 0 <= q < cn.rows(s).len() implies #[trigger] row_live(trail::frozen(tables@)[s], q) by {
                if s < t {
                    assert(row_live(trail::frozen(old_tables)[s], q));
                } else {
                    assert(row_live((table.words@, table.limit), q));
                }
            }
        }
        t += 1;
    }
    let mut masks: Vec<TableMasks> = Vec::new();
    let mut d: usize = 0;
    while d < cn.unique_tensors.len()
        invariant
            d <= cn.unique_tensors@.len() == arity@.len(),
            forall|d: int| 0 <= d < arity@.len() ==> #[trigger] arity@[d] <= 32,
            masks@.len() == d,
            forall|e: int| 0 <= e < d ==> (#[trigger] masks@[e]).ok(cn.unique_tensors@[e].support@, arity@[e] as int),
        decreases cn.unique_tensors.len() - d,
    {
        masks.push(TableMasks::build(cn.unique_tensors[d].support.as_slice(), arity[d]));
        d += 1;
    }
    proof {
        assert forall|t: int| 0 <= t < cn.m() implies masks@[(#[trigger] cn.tensors@[t]).data_idx as int].ok(cn.rows(t), cn.axes(t).len() as int) by {
            assert(cn.tensor_wf(t));
            assert(masks@[cn.tensors@[t].data_idx as int].ok(cn.unique_tensors@[cn.tensors@[t].data_idx as int].support@, arity@[cn.tensors@[t].data_idx as int] as int));
        }
    }
    (masks, tables)
}

/// The axes in `d` allow the values of `row`.
pub open spec fn allowed_on(doms: Seq<DomainMask>, axes: Seq<usize>, d: u64, row: u64) -> bool {
    forall|j: int| 0 <= j < axes.len() && bits::bit(d, j) ==> doms[(#[trigger] axes[j]) as int].allows(bits::bit(row, j))
}

/// The rows of word `w` that the domains of the axes in `d` allow.
fn allowed_word(doms: &Vec<DomainMask>, axes: &Vec<usize>, m: &TableMasks, d: u64, w: usize, Ghost(rows): Ghost<Seq<u32>>) -> (r: u64)
    requires
        axes@.len() <= 32,
        forall|j: int| 0 <= j < axes@.len() ==> (#[trigger] axes@[j]) < doms@.len(),
        m.ok(rows, axes@.len() as int),
        w < m.n_words,
    ensures
        forall|b: int| 0 <= b < 64 && w * 64 + b < rows.len() ==> #[trigger] bits::bit(r, b) == allowed_on(doms@, axes@, d, rows[w * 64 + b] as u64),
{
    let mut keep: u64 = u64::MAX;
    let mut j: usize = 0;
    proof {
        broadcast use bits::group_bits;

    }
    while j < axes.len()
        invariant
            axes@.len() <= 32,
            j <= axes@.len(),
            forall|j: int| 0 <= j < axes@.len() ==> (#[trigger] axes@[j]) < doms@.len(),
            m.ok(rows, axes@.len() as int),
            w < m.n_words,
            forall|b: int| 0 <= b < 64 && w * 64 + b < rows.len() ==> #[trigger] bits::bit(keep, b) == allowed_on(doms@, axes@.take(j as int), d, rows[w * 64 + b] as u64),
        decreases axes.len() - j,
    {
        let ghost k0 = keep;
        let ghost row_at = |b: int| rows[w * 64 + b] as u64;
        proof {
            broadcast use bits::group_bits;

            lemma_slot(m.n_words as int, axes@.len() as int, j as int, 0, w as int);
            lemma_slot(m.n_words as int, axes@.len() as int, j as int, 1, w as int);
        }
        if bits::get_bit(d, j) {
            let dom = doms[axes[j]];
            if dom == DomainMask::D0 {
                keep = keep & m.support_slice(j, 0)[w];
            } else if dom == DomainMask::D1 {
                keep = keep & m.support_slice(j, 1)[w];
            } else if dom == DomainMask::NONE {
                keep = 0;
            }
        }
        proof {
            broadcast use bits::group_bits;

            assert forall|b: int| 0 <= b < 64 && w * 64 + b < rows.len() implies #[trigger] bits::bit(keep, b) == allowed_on(doms@, axes@.take(j + 1), d, rows[w * 64 + b] as u64) by {
                let row = rows[w * 64 + b] as u64;
                assert(bits::bit(k0, b) == allowed_on(doms@, axes@.take(j as int), d, row));
                assert(bits::bit(m.word(j as int, 0, w as int), b) == row_has(rows, w * 64 + b, j as int, 0int == 1));
                assert(bits::bit(m.word(j as int, 1, w as int), b) == row_has(rows, w * 64 + b, j as int, 1int == 1));
                let mine = bits::bit(d, j as int) ==> doms@[axes@[j as int] as int].allows(bits::bit(row, j as int));
                assert(bits::bit(keep, b) == (bits::bit(k0, b) && mine));
                lemma_allowed_next(doms@, axes@, d, row, j as int);
            }
        }
        j += 1;
    }
    assert(axes@.take(j as int) =~= axes@);
    keep
}

proof fn lemma_allowed_next(doms: Seq<DomainMask>, axes: Seq<usize>, d: u64, row: u64, j: int)
    requires
        0 <= j < axes.len(),
    ensures
        allowed_on(doms, axes.take(j + 1), d, row) == (allowed_on(doms, axes.take(j), d, row) && (bits::bit(d, j) ==> doms[axes[j] as int].allows(bits::bit(row, j)))),
{
    let a = axes.take(j);
    let b = axes.take(j + 1);
    if allowed_on(doms, b, d, row) {
        assert forall|i: int| 0 <= i < a.len() && bits::bit(d, i) implies doms[(#[trigger] a[i]) as int].allows(bits::bit(row, i)) by {
            assert(b[i] == a[i]);
        }
        assert(b[j] == axes[j]);
    }
    if allowed_on(doms, a, d, row) && (bits::bit(d, j) ==> doms[axes[j] as int].allows(bits::bit(row, j))) {
        assert forall|i: int| 0 <= i < b.len() && bits::bit(d, i) implies doms[(#[trigger] b[i]) as int].allows(bits::bit(row, i)) by {
            if i < j {
                assert(a[i] == b[i]);
            }
        }
    }
}

/// Some row of constraint `t` is live.
pub open spec fn any_live(cn: ConstraintNetwork, s: State, t: int) -> bool {
    exists|r: int| 0 <= r < cn.rows(t).len() && #[trigger] row_live(s.1[t], r)
}

/// Some live row of constraint `t` has the value `b` on axis `j`.
pub open spec fn live_with(cn: ConstraintNetwork, s: State, t: int, j: int, b: bool) -> bool {
    exists|r: int| 0 <= r < cn.rows(t).len() && #[trigger] row_live(s.1[t], r) && bits::bit(cn.rows(t)[r] as u64, j) == b
}

/// `s1` differs from `s0` in the live rows of `t` only, where the axes in `d` were applied.
pub open spec fn applied(cn: ConstraintNetwork, s0: State, s1: State, t: int, d: u64) -> bool {
    &&& s1.0 == s0.0
    &&& s1.1.len() == s0.1.len()
    &&& forall|u: int| 0 <= u < s0.1.len() && u != t ==> #[trigger] s1.1[u] == s0.1[u]
    &&& forall|r: int| 0 <= r < cn.rows(t).len() ==> (#[trigger] row_live(s1.1[t], r) <==> (row_live(s0.1[t], r) && allowed_on(s0.0, cn.axes(t), d, cn.rows(t)[r] as u64)))
}

/// Apply the domains of the axes in `d` to the live rows of `t`; whether any are left.
fn update_table(cn: &ConstraintNetwork, doms: &Vec<DomainMask>, masks: &Vec<TableMasks>, tables: &mut Vec<RSparseBitSet>, log: &mut Trail, t: usize, d: u64) -> (r: bool)
    requires
        cn.wf(),
        masks_ok(*cn, masks@),
        t < cn.m(),
        state_wf(*cn, (doms@, trail::frozen(old(tables)@))),
        old(log).fits(trail::shape((doms@, trail::frozen(old(tables)@)))),
    ensures
        state_wf(*cn, (doms@, trail::frozen(final(tables)@))),
        applied(*cn, (doms@, trail::frozen(old(tables)@)), (doms@, trail::frozen(final(tables)@)), t as int, d),
        logged(*final(log), (doms@, trail::frozen(final(tables)@)), *old(log), (doms@, trail::frozen(old(tables)@))),
        r == any_live(*cn, (doms@, trail::frozen(final(tables)@)), t as int),
{
    let ghost s0: State = (doms@, trail::frozen(tables@));
    let ghost rows = cn.rows(t as int);
    let ghost nw = words_for(rows.len() as int);
    let tensor = &cn.tensors[t];
    proof {
        assert(cn.tensor_wf(t as int));
        assert(masks@[cn.tensors@[t as int].data_idx as int].ok(rows, cn.axes(t as int).len() as int));
        assert(table_wf(*cn, t as int, s0.1[t as int]));
        assert(s0.1[t as int] == (tables@[t as int].words@, tables@[t as int].limit));
    }
    let m = &masks[tensor.data_idx];
    let limit: usize = tables[t].limit as usize;
    let mut w: usize = 0;
    while w < limit
        invariant
            cn.wf(),
            t < cn.m(),
            tensor == cn.tensors@[t as int],
            cn.tensor_wf(t as int),
            rows == cn.rows(t as int),
            nw == words_for(rows.len() as int),
            m.ok(rows, cn.axes(t as int).len() as int),
            doms@ == s0.0,
            doms@.len() == cn.n(),
            s0 == (doms@, trail::frozen(old(tables)@)),
            tables@.len() == s0.1.len() == cn.m(),
            w <= limit <= nw == s0.1[t as int].0.len(),
            limit == s0.1[t as int].1,
            forall|u: int| 0 <= u < tables@.len() && u != t ==> #[trigger] trail::frozen(tables@)[u] == s0.1[u],
            tables@[t as int].words@.len() == nw,
            tables@[t as int].limit == limit,
            forall|x: int| w <= x < nw ==> #[trigger] tables@[t as int].words@[x] == s0.1[t as int].0[x],
            forall|x: int, b: int| 0 <= x < w && 0 <= b < 64 ==> #[trigger] bits::bit(tables@[t as int].words@[x], b) == (bits::bit(s0.1[t as int].0[x], b) && (x * 64 + b < rows.len() ==> allowed_on(doms@, cn.axes(t as int), d, rows[x * 64 + b] as u64))),
            table_wf(*cn, t as int, s0.1[t as int]),
            old(log).fits(trail::shape(s0)),
            logged(*log, (doms@, trail::frozen(tables@)), *old(log), s0),
        decreases limit - w,
    {
        let allowed: u64 = allowed_word(doms, &tensor.var_axes, m, d, w, Ghost(rows));
        let before: u64 = tables[t].words[w];
        let after: u64 = before & allowed;
        let ghost pre = tables@;
        let ghost tpre = *log;
        proof {
            broadcast use bits::group_bits;

            assert forall|b: int| 0 <= b < 64 implies #[trigger] bits::bit(after, b) == (bits::bit(before, b) && (w * 64 + b < rows.len() ==> allowed_on(doms@, cn.axes(t as int), d, rows[w * 64 + b] as u64))) by {
                if w * 64 + b >= rows.len() {
                    assert(!row_live(s0.1[t as int], w * 64 + b));
                    assert((w * 64 + b) / 64 == w && (w * 64 + b) % 64 == b);
                }
            }
        }
        if after != before {
            log.record_word(t, w, before);
            tables[t].words.set(w, after);
            proof {
                lemma_log_word(pre, tables@, doms@, tpre, *log, t as int, w as int, before, after);
                lemma_logged_trans(*log, (doms@, trail::frozen(tables@)), tpre, (doms@, trail::frozen(pre)), *old(log), s0);
                assert forall|u: int| 0 <= u < tables@.len() && u != t implies #[trigger] trail::frozen(tables@)[u] == s0.1[u] by {
                    assert(trail::frozen(pre)[u] == s0.1[u]);
                }
            }
        }
        w += 1;
    }
    let mut top: usize = limit;
    let mut more = top > 0;
    let ghost tb = tables@;
    while more
        invariant
            tables@ == tb,
            t < tables@.len(),
            top <= limit <= tables@[t as int].words@.len(),
            more ==> top > 0,
            forall|x: int| top <= x < limit ==> #[trigger] tables@[t as int].words@[x] == 0,
            !more && top > 0 ==> tables@[t as int].words@[top - 1] != 0,
        decreases top + (if more {
            1int
        } else {
            0int
        }),
    {
        if tables[t].words[top - 1] == 0 {
            top -= 1;
            more = top > 0;
        } else {
            more = false;
        }
    }
    let ghost tmid = *log;
    if top < limit {
        log.record_limit(t, limit as u32);
        tables[t].limit = top as u32;
    }
    let ghost s1: State = (doms@, trail::frozen(tables@));
    proof {
        broadcast use bits::group_bits;

        if top < limit {
            let sm: State = (doms@, trail::frozen(tb));
            assert(trail::put_limit(s1, t as int, limit as u32).1 =~= sm.1);
            assert(trail::put_limit(s1, t as int, limit as u32) == sm);
            assert(trail::shape(s1).1 =~= trail::shape(sm).1);
            assert(logged(*log, s1, tmid, sm));
            lemma_logged_trans(*log, s1, tmid, sm, *old(log), s0);
        } else {
            assert(s1.1 =~= trail::frozen(tb));
        }
        assert forall|u: int| 0 <= u < s0.1.len() && u != t implies #[trigger] s1.1[u] == s0.1[u] by {
            assert(trail::frozen(tb)[u] == s0.1[u]);
        }
        let tv = s1.1[t as int];
        let tv0 = s0.1[t as int];
        assert(tv.0 == tb[t as int].words@);
        assert forall|q: int| 0 <= q < nw * 64 implies #[trigger] row_live(tv, q) == (row_live(tv0, q) && (q < rows.len() ==> allowed_on(doms@, cn.axes(t as int), d, rows[q] as u64))) by {
            let x = q / 64;
            let b = q % 64;
            assert(q == x * 64 + b);
            if x < limit {
                assert(bits::bit(tb[t as int].words@[x], b) == (bits::bit(tv0.0[x], b) && (x * 64 + b < rows.len() ==> allowed_on(doms@, cn.axes(t as int), d, rows[x * 64 + b] as u64))));
            } else {
                assert(tv0.0[x] == 0);
            }
        }
        assert(table_wf(*cn, t as int, tv)) by {
            assert forall|x: int| tv.1 <= x < tv.0.len() implies #[trigger] tv.0[x] == 0 by {
                if x >= limit {
                    assert(tv0.0[x] == 0);
                }
            }
            assert forall|q: int| rows.len() <= q < tv.0.len() * 64 implies !#[trigger] row_live(tv, q) by {
                assert(!row_live(tv0, q));
            }
        }
        assert forall|u: int| 0 <= u < cn.m() implies table_wf(*cn, u, #[trigger] s1.1[u]) by {
            if u != t {
                assert(s1.1[u] == s0.1[u]);
                assert(table_wf(*cn, u, s0.1[u]));
            }
        }
        if top > 0 {
            // A word that is not zero has a bit.
            let x = top - 1;
            assert(exists|b: int| 0 <= b < 64 && #[trigger] bits::bit(tv.0[x], b)) by {
                if forall|b: int| 0 <= b < 64 ==> !#[trigger] bits::bit(tv.0[x], b) {
                    bits::lemma_bits_equal(tv.0[x], 0);
                }
            }
            let b = choose|b: int| 0 <= b < 64 && #[trigger] bits::bit(tv.0[x], b);
            let q = x * 64 + b;
            assert(q / 64 == x && q % 64 == b);
            assert(row_live(tv, q));
            assert(any_live(*cn, s1, t as int)) by {
                assert(row_live(s1.1[t as int], q));
            }
        } else {
            assert(!any_live(*cn, s1, t as int)) by {
                if any_live(*cn, s1, t as int) {
                    let q = choose|q: int| 0 <= q < rows.len() && #[trigger] row_live(s1.1[t as int], q);
                    assert(tv.0[q / 64] == 0);
                }
            }
        }
    }
    top > 0
}

/// Recording a word and writing it is a recorded write.
proof fn lemma_log_word(pre: Seq<RSparseBitSet>, post: Seq<RSparseBitSet>, doms: Seq<DomainMask>, t0: Trail, t1: Trail, t: int, w: int, before: u64, after: u64)
    requires
        0 <= t < pre.len() == post.len(),
        0 <= w < pre[t].words@.len(),
        pre[t].words@[w] == before,
        post[t].words@ == pre[t].words@.update(w, after),
        post[t].limit == pre[t].limit,
        forall|u: int| 0 <= u < pre.len() && u != t ==> #[trigger] post[u] == pre[u],
        t0.fits(trail::shape((doms, trail::frozen(pre)))),
        t1.depth() == t0.depth() + 1,
        forall|mark: int, s: State| mark <= t0.depth() ==> #[trigger] t1.before(mark, s) == t0.before(mark, trail::put_word(s, t, w, before)),
        forall|sh: (nat, Seq<nat>)| #[trigger] t1.fits(sh) == (t0.fits(sh) && t < sh.1.len() && w < sh.1[t]),
    ensures
        logged(t1, (doms, trail::frozen(post)), t0, (doms, trail::frozen(pre))),
{
    let a: State = (doms, trail::frozen(pre));
    let b: State = (doms, trail::frozen(post));
    assert(trail::put_word(b, t, w, before).1 =~= a.1) by {
        assert(pre[t].words@.update(w, after).update(w, before) =~= pre[t].words@);
    }
    assert(trail::put_word(b, t, w, before) == a);
    assert(trail::shape(b).1 =~= trail::shape(a).1);
}

/// Whether some live row of constraint `t` has the value `value` on axis `j`.
fn axis_supported(cn: &ConstraintNetwork, masks: &Vec<TableMasks>, tables: &Vec<RSparseBitSet>, t: usize, j: usize, value: bool, Ghost(doms): Ghost<Seq<DomainMask>>) -> (r: bool)
    requires
        cn.wf(),
        masks_ok(*cn, masks@),
        t < cn.m(),
        j < cn.axes(t as int).len(),
        state_wf(*cn, (doms, trail::frozen(tables@))),
    ensures
        r == live_with(*cn, (doms, trail::frozen(tables@)), t as int, j as int, value),
{
    let ghost s: State = (doms, trail::frozen(tables@));
    let ghost rows = cn.rows(t as int);
    let ghost tv = s.1[t as int];
    let tensor = &cn.tensors[t];
    assert(cn.tensor_wf(t as int));
    let m = &masks[tensor.data_idx];
    let v: usize = if value {
        1
    } else {
        0
    };
    proof {
        assert(cn.tensor_wf(t as int));
        assert(m.ok(rows, cn.axes(t as int).len() as int));
        assert(table_wf(*cn, t as int, tv));
        assert(tv == (tables@[t as int].words@, tables@[t as int].limit));
        if m.n_words > 0 {
            lemma_slot(m.n_words as int, cn.axes(t as int).len() as int, j as int, v as int, 0);
        } else {
            let a = j * 2 + v;
            assert(a * 0 == 0) by (nonlinear_arith);
        }
    }
    let mask = m.support_slice(j, v);
    let limit: usize = tables[t].limit as usize;
    let mut w: usize = 0;
    while w < limit
        invariant
            w <= limit <= tv.0.len(),
            limit == tv.1,
            tv == (tables@[t as int].words@, tables@[t as int].limit),
            t < tables@.len(),
            v == (if value { 1int } else { 0int }),
            j < cn.axes(t as int).len(),
            rows == cn.rows(t as int),
            m.ok(rows, cn.axes(t as int).len() as int),
            s == (doms, trail::frozen(tables@)),
            s.1[t as int] == tv,
            table_wf(*cn, t as int, tv),
            mask@.len() == m.n_words,
            forall|x: int| 0 <= x < m.n_words ==> #[trigger] mask@[x] == m.word(j as int, v as int, x),
            forall|r: int| 0 <= r < rows.len() && r < w * 64 && #[trigger] row_live(tv, r) ==> bits::bit(rows[r] as u64, j as int) != value,
        decreases limit - w,
    {
        let both: u64 = tables[t].words[w] & mask[w];
        proof {
            broadcast use bits::group_bits;

            assert forall|b: int| 0 <= b < 64 implies #[trigger] bits::bit(both, b) == (bits::bit(tv.0[w as int], b) && row_has(rows, w * 64 + b, j as int, value)) by {
                assert(bits::bit(m.word(j as int, v as int, w as int), b) == row_has(rows, w * 64 + b, j as int, v == 1));
            }
        }
        if both != 0 {
            proof {
                broadcast use bits::group_bits;

                assert(exists|b: int| 0 <= b < 64 && #[trigger] bits::bit(both, b)) by {
                    if forall|b: int| 0 <= b < 64 ==> !#[trigger] bits::bit(both, b) {
                        bits::lemma_bits_equal(both, 0);
                    }
                }
                let b = choose|b: int| 0 <= b < 64 && #[trigger] bits::bit(both, b);
                let q = w * 64 + b;
                assert(q / 64 == w && q % 64 == b);
                assert(row_live(s.1[t as int], q));
            }
            return true;
        }
        proof {
            broadcast use bits::group_bits;

            assert forall|r: int| 0 <= r < rows.len() && r < (w + 1) * 64 && #[trigger] row_live(tv, r) implies bits::bit(rows[r] as u64, j as int) != value by {
                if r >= w * 64 {
                    let b = r - w * 64;
                    assert(r / 64 == w && r % 64 == b);
                    assert(!bits::bit(both, b));
                    assert(bits::bit(both, b) == (bits::bit(tv.0[w as int], b) && row_has(rows, w * 64 + b, j as int, value)));
                }
            }
        }
        w += 1;
    }
    proof {
        broadcast use bits::group_bits;

        if live_with(*cn, s, t as int, j as int, value) {
            let r = choose|r: int| 0 <= r < rows.len() && #[trigger] row_live(s.1[t as int], r) && bits::bit(rows[r] as u64, j as int) == value;
            if r >= limit * 64 {
                assert(tv.0[r / 64] == 0);
            }
        }
    }
    false
}

/// The queue from `head` on lists, once each, the constraints flagged.
pub open spec fn queue_ok(b: SolverBuffer, head: int, m: int) -> bool {
    &&& 0 <= head <= b.queue@.len()
    &&& forall|i: int| head <= i < b.queue@.len() ==> (#[trigger] b.queue@[i]) < m && b.in_queue@[b.queue@[i] as int]
    &&& forall|i: int, k: int| head <= i < k < b.queue@.len() ==> #[trigger] b.queue@[i] != #[trigger] b.queue@[k]
    &&& forall|t: int| 0 <= t < m && #[trigger] b.in_queue@[t] ==> queued(b.queue@, head, t)
}

/// `t` is in the queue from `head` on.
pub open spec fn queued(queue: Seq<usize>, head: int, t: int) -> bool {
    exists|i: int| head <= i < queue.len() && #[trigger] queue[i] == t
}

/// Axis `j` of constraint `t` is variable `v`.
pub open spec fn axis_of(cn: ConstraintNetwork, t: int, j: int, v: int) -> bool {
    0 <= j < cn.axes(t).len() && cn.axes(t)[j] == v
}

/// Queue the constraints of `v`, and mark its axis in each as changed.
pub fn enqueue_var_change(cn: &ConstraintNetwork, buffer: &mut SolverBuffer, v: usize)
    requires
        cn.wf(),
        old(buffer).sized(*cn),
        v < cn.n(),
    ensures
        final(buffer).sized(*cn),
        final(buffer).occurrence_scores == old(buffer).occurrence_scores,
        final(buffer).queue@.len() >= old(buffer).queue@.len(),
        forall|head: int| queue_ok(*old(buffer), head, cn.m()) ==> #[trigger] queue_ok(*final(buffer), head, cn.m()),
        forall|t: int| 0 <= t < cn.m() ==> #[trigger] final(buffer).in_queue@[t] == (old(buffer).in_queue@[t] || cn.axes(t).contains(v)),
        forall|t: int, j: int| 0 <= t < cn.m() && 0 <= j < 64 ==> #[trigger] bits::bit(final(buffer).dirty@[t], j) == (bits::bit(old(buffer).dirty@[t], j) || axis_of(*cn, t, j, v as int)),
        forall|t: int| 0 <= t < cn.m() && !cn.axes(t).contains(v) ==> #[trigger] final(buffer).dirty@[t] == old(buffer).dirty@[t],
{
    let list = &cn.v2t[v];
    let mut i: usize = 0;
    proof {
        assert(cn.incidence_wf(v as int));
        assert(cn.v2t.len() == cn.n());
    }
    while i < list.len()
        invariant
            cn.wf(),
            v < cn.n(),
            cn.incidence_wf(v as int),
            list@ == cn.v2t@[v as int]@,
            i <= list@.len(),
            buffer.sized(*cn),
            buffer.occurrence_scores == old(buffer).occurrence_scores,
            buffer.queue@.len() >= old(buffer).queue@.len(),
            forall|head: int| queue_ok(*old(buffer), head, cn.m()) ==> #[trigger] queue_ok(*buffer, head, cn.m()),
            forall|t: int| 0 <= t < cn.m() ==> #[trigger] buffer.in_queue@[t] == (old(buffer).in_queue@[t] || list@.take(i as int).contains(t as usize)),
            forall|t: int, j: int| 0 <= t < cn.m() && 0 <= j < 64 ==> #[trigger] bits::bit(buffer.dirty@[t], j) == (bits::bit(old(buffer).dirty@[t], j) || (list@.take(i as int).contains(t as usize) && axis_of(*cn, t, j, v as int))),
            forall|t: int| 0 <= t < cn.m() && !list@.take(i as int).contains(t as usize) ==> #[trigger] buffer.dirty@[t] == old(buffer).dirty@[t],
        decreases list.len() - i,
    {
        let t: usize = list[i];
        proof {
            assert(list@[i as int] < cn.m());
            crate::seqs::lemma_take_next(list@, i as int);
            assert(cn.tensor_wf(t as int));
            assert(cn.tensors.len() == cn.m());
        }
        let ghost b0 = *buffer;
        let j: usize = find_axis(&cn.tensors[t].var_axes, v);
        buffer.dirty.set(t, bits::with_bit(buffer.dirty[t], j));
        if !buffer.in_queue[t] {
            buffer.in_queue.set(t, true);
            buffer.queue.push(t);
        }
        proof {
            assert forall|head: int| queue_ok(b0, head, cn.m()) implies #[trigger] queue_ok(*buffer, head, cn.m()) by {
                lemma_queue_push(b0, *buffer, head, cn.m(), t as int);
            }
            assert forall|u: int, k: int| 0 <= u < cn.m() && 0 <= k < 64 implies #[trigger] bits::bit(buffer.dirty@[u], k) == (bits::bit(old(buffer).dirty@[u], k) || (list@.take(i + 1).contains(u as usize) && axis_of(*cn, u, k, v as int))) by {
                assert(bits::bit(b0.dirty@[u], k) == (bits::bit(old(buffer).dirty@[u], k) || (list@.take(i as int).contains(u as usize) && axis_of(*cn, u, k, v as int))));
                if u == t {
                    assert(axis_of(*cn, u, k, v as int) ==> k == j);
                    assert(axis_of(*cn, u, j as int, v as int));
                }
            }
        }
        i += 1;
    }
    proof {
        crate::seqs::lemma_take_all(list@);
        assert(cn.tensors.len() == cn.m());
        assert forall|t: int| 0 <= t < cn.m() implies list@.contains(t as usize) == #[trigger] cn.axes(t).contains(v) by {
            if list@.contains(t as usize) {
                let k = list@.index_of(t as usize);
                assert(cn.axes(list@[k] as int).contains(v));
            }
        }
        assert forall|t: int, j: int| 0 <= t < cn.m() && 0 <= j < 64 implies #[trigger] bits::bit(buffer.dirty@[t], j) == (bits::bit(old(buffer).dirty@[t], j) || axis_of(*cn, t, j, v as int)) by {
            if axis_of(*cn, t, j, v as int) {
                assert(cn.axes(t)[j] == v);
                assert(cn.axes(t).contains(v));
            }
        }
    }
}

/// Flagging a constraint, and queueing it where it was not flagged, keeps the queue sound.
proof fn lemma_queue_push(b0: SolverBuffer, b1: SolverBuffer, head: int, m: int, t: int)
    requires
        queue_ok(b0, head, m),
        0 <= t < m == b0.in_queue@.len(),
        t <= usize::MAX,
        b0.in_queue@[t] ==> b1.in_queue == b0.in_queue && b1.queue == b0.queue,
        !b0.in_queue@[t] ==> b1.in_queue@ == b0.in_queue@.update(t, true) && b1.queue@ == b0.queue@.push(t as usize),
    ensures
        queue_ok(b1, head, m),
{
    if !b0.in_queue@[t] {
        assert forall|i: int| head <= i < b1.queue@.len() implies (#[trigger] b1.queue@[i]) < m && b1.in_queue@[b1.queue@[i] as int] by {
            if i < b0.queue@.len() {
                assert(b0.queue@[i] < m);
            }
        }
        assert forall|i: int, k: int| head <= i < k < b1.queue@.len() implies #[trigger] b1.queue@[i] != #[trigger] b1.queue@[k] by {
            assert(b0.in_queue@[b0.queue@[i] as int]);
            if k < b0.queue@.len() {
                assert(b0.queue@[i] != b0.queue@[k]);
            }
        }
        assert forall|u: int| 0 <= u < m && #[trigger] b1.in_queue@[u] implies queued(b1.queue@, head, u) by {
            if u == t {
                assert(b1.queue@[b0.queue@.len() as int] == t);
            } else {
                assert(b0.in_queue@[u]);
                let i = choose|i: int| head <= i < b0.queue@.len() && #[trigger] b0.queue@[i] == u;
                assert(b1.queue@[i] == u);
            }
        }
    }
}

/// The position of `v` among the variables of a constraint that has it.
pub(crate) fn find_axis(axes: &Vec<usize>, v: usize) -> (j: usize)
    requires
        axes@.contains(v),
    ensures
        j < axes@.len(),
        axes@[j as int] == v,
{
    let mut j: usize = 0;
    while j < axes.len()
        invariant
            j <= axes@.len(),
            axes@.contains(v),
            forall|k: int| 0 <= k < j ==> #[trigger] axes@[k] != v,
        decreases axes.len() - j,
    {
        if axes[j] == v {
            return j;
        }
        j += 1;
    }
    proof {
        let k = axes@.index_of(v);
        assert(axes@[k] != v);
    }
    0
}

/// The first `upto` assignments of `vars` that `mask` selects, applied to `d0`.
pub open spec fn assigned(d0: Seq<DomainMask>, vars: Seq<usize>, mask: u64, val: u64, upto: int) -> Seq<DomainMask>
    decreases upto,
{
    if upto <= 0 {
        d0
    } else {
        let d = assigned(d0, vars, mask, val, upto - 1);
        if bits::bit(mask, upto - 1) {
            d.update(vars[upto - 1] as int, restricted(d[vars[upto - 1] as int], bits::bit(val, upto - 1)))
        } else {
            d
        }
    }
}

/// What is left of a domain when its variable is set to `b`.
pub open spec fn restricted(d: DomainMask, b: bool) -> DomainMask {
    if d.allows(b) {
        DomainMask::only(b)
    } else {
        DomainMask::NONE
    }
}

/// The work still to do: rows of changed axes may be stale, and queued constraints may be
/// inconsistent; `free` is exempt.
pub open spec fn pending(cn: ConstraintNetwork, s: State, b: SolverBuffer, free: int) -> bool {
    &&& state_wf(cn, s)
    &&& b.sized(cn)
    &&& forall|t: int, r: int, j: int|
        0 <= t < cn.m() && 0 <= r < cn.rows(t).len() && 0 <= j < cn.axes(t).len() && #[trigger] row_live(s.1[t], r) && !#[trigger] bits::bit(b.dirty@[t], j)
            ==> s.0[cn.axes(t)[j] as int].allows(bits::bit(cn.rows(t)[r] as u64, j))
    &&& forall|t: int, r: int| 0 <= t < cn.m() && 0 <= r < cn.rows(t).len() && admits(s.0, cn.axes(t), cn.rows(t)[r] as u64) ==> #[trigger] row_live(s.1[t], r)
    &&& forall|t: int| 0 <= t < cn.m() && t != free && !#[trigger] b.in_queue@[t] ==> consistent_at(cn, s.0, t) && b.dirty@[t] == 0
}

/// Writing one domain, with its constraints queued, leaves the rest as it was.
pub proof fn lemma_pending_write(cn: ConstraintNetwork, s0: State, s1: State, b0: SolverBuffer, b1: SolverBuffer, v: int, free: int)
    requires
        cn.wf(),
        pending(cn, s0, b0, free),
        0 <= v < cn.n(),
        s1.1 == s0.1,
        s1.0.len() == s0.0.len(),
        forall|u: int| 0 <= u < s0.0.len() && u != v ==> #[trigger] s1.0[u] == s0.0[u],
        forall|b: bool| #[trigger] s1.0[v].allows(b) ==> s0.0[v].allows(b),
        b1.sized(cn),
        forall|t: int| 0 <= t < cn.m() ==> #[trigger] b1.in_queue@[t] == (b0.in_queue@[t] || cn.axes(t).contains(v as usize)),
        forall|t: int, j: int| 0 <= t < cn.m() && 0 <= j < 64 ==> #[trigger] bits::bit(b1.dirty@[t], j) == (bits::bit(b0.dirty@[t], j) || axis_of(cn, t, j, v)),
        forall|t: int| 0 <= t < cn.m() && !cn.axes(t).contains(v as usize) ==> #[trigger] b1.dirty@[t] == b0.dirty@[t],
    ensures
        pending(cn, s1, b1, free),
{
    assert(cn.vars.len() == cn.n());
    assert(narrower(s1.0, s0.0)) by {
        assert forall|u: int, b: bool| 0 <= u < s0.0.len() && (#[trigger] s1.0[u].allows(b)) implies s0.0[u].allows(b) by {
            if u != v {
                assert(s1.0[u] == s0.0[u]);
            }
        }
    }
    assert forall|t: int, r: int, j: int|
        0 <= t < cn.m() && 0 <= r < cn.rows(t).len() && 0 <= j < cn.axes(t).len() && #[trigger] row_live(s1.1[t], r) && !#[trigger] bits::bit(b1.dirty@[t], j)
            implies s1.0[cn.axes(t)[j] as int].allows(bits::bit(cn.rows(t)[r] as u64, j)) by {
        assert(cn.tensor_wf(t));
        assert(row_live(s0.1[t], r));
        assert(bits::bit(b1.dirty@[t], j) == (bits::bit(b0.dirty@[t], j) || axis_of(cn, t, j, v)));
        assert(!bits::bit(b0.dirty@[t], j));
        assert(!axis_of(cn, t, j, v));
    }
    assert forall|t: int, r: int| 0 <= t < cn.m() && 0 <= r < cn.rows(t).len() && admits(s1.0, cn.axes(t), cn.rows(t)[r] as u64) implies #[trigger] row_live(s1.1[t], r) by {
        assert(cn.tensor_wf(t));
        lemma_admits_wider(s1.0, s0.0, cn.axes(t), cn.rows(t)[r] as u64);
        assert(row_live(s0.1[t], r));
    }
    assert forall|t: int| 0 <= t < cn.m() && t != free && !#[trigger] b1.in_queue@[t] implies consistent_at(cn, s1.0, t) && b1.dirty@[t] == 0 by {
        assert(cn.tensor_wf(t));
        assert(!b0.in_queue@[t]);
        assert(!cn.axes(t).contains(v as usize));
        lemma_consistent_same(cn, s0.0, s1.0, t);
    }
    assert forall|t: int| 0 <= t < cn.m() implies table_wf(cn, t, #[trigger] s1.1[t]) by {
        assert(table_wf(cn, t, s0.1[t]));
    }
}

/// Consistency of a constraint depends on the domains of its own variables.
pub proof fn lemma_consistent_same(cn: ConstraintNetwork, d0: Seq<DomainMask>, d1: Seq<DomainMask>, t: int)
    requires
        consistent_at(cn, d0, t),
        forall|j: int| 0 <= j < cn.axes(t).len() ==> d0[(#[trigger] cn.axes(t)[j]) as int] == d1[cn.axes(t)[j] as int],
    ensures
        consistent_at(cn, d1, t),
{
    assert forall|r: int| 0 <= r < cn.rows(t).len() && admits(d0, cn.axes(t), #[trigger] cn.rows(t)[r] as u64) implies admits(d1, cn.axes(t), cn.rows(t)[r] as u64) by {
        assert forall|i: int| 0 <= i < cn.axes(t).len() implies d1[(#[trigger] cn.axes(t)[i]) as int].allows(bits::bit(cn.rows(t)[r] as u64, i)) by {
            assert(d0[cn.axes(t)[i] as int].allows(bits::bit(cn.rows(t)[r] as u64, i)));
        }
    }
    let r = choose|r: int| 0 <= r < cn.rows(t).len() && admits(d0, cn.axes(t), #[trigger] cn.rows(t)[r] as u64);
    assert(admits(d1, cn.axes(t), cn.rows(t)[r] as u64));
    assert forall|j: int, b: bool| 0 <= j < cn.axes(t).len() && d1[cn.axes(t)[j] as int].allows(b) implies #[trigger] supported(cn, d1, t, j, b) by {
        assert(d0[cn.axes(t)[j] as int] == d1[cn.axes(t)[j] as int]);
        assert(supported(cn, d0, t, j, b));
        let q = choose|q: int| 0 <= q < cn.rows(t).len() && admits(d0, cn.axes(t), #[trigger] cn.rows(t)[q] as u64) && bits::bit(cn.rows(t)[q] as u64, j) == b;
        assert(admits(d1, cn.axes(t), cn.rows(t)[q] as u64));
    }
}

/// Recording a domain and writing it is a recorded write.
pub proof fn lemma_log_dom(doms0: Seq<DomainMask>, doms1: Seq<DomainMask>, tables: Seq<TableView>, t0: Trail, t1: Trail, v: int)
    requires
        0 <= v < doms0.len() == doms1.len(),
        forall|u: int| 0 <= u < doms0.len() && u != v ==> #[trigger] doms1[u] == doms0[u],
        t0.fits(trail::shape((doms0, tables))),
        t1.depth() == t0.depth() + 1,
        forall|mark: int, s: State| mark <= t0.depth() ==> #[trigger] t1.before(mark, s) == t0.before(mark, trail::put_dom(s, v, doms0[v])),
        forall|sh: (nat, Seq<nat>)| #[trigger] t1.fits(sh) == (t0.fits(sh) && v < sh.0),
    ensures
        logged(t1, (doms1, tables), t0, (doms0, tables)),
{
    assert(doms1.update(v, doms0[v]) =~= doms0);
}

/// Set the variables that `mask` selects to the bits of `val`, queueing what they change. A
/// variable that does not allow its value is left without any.
pub(crate) fn apply_masked_assignment(cn: &ConstraintNetwork, doms: &mut Vec<DomainMask>, buffer: &mut SolverBuffer, log: &mut Trail, vars: &[usize], mask: u64, val: u64, Ghost(tables): Ghost<Seq<TableView>>)
    requires
        cn.wf(),
        vars@.len() <= 64,
        forall|i: int| 0 <= i < vars@.len() ==> (#[trigger] vars@[i]) < cn.n(),
        pending(*cn, (old(doms)@, tables), *old(buffer), -1),
        queue_ok(*old(buffer), 0, cn.m()),
        old(log).fits(trail::shape((old(doms)@, tables))),
    ensures
        final(doms)@ == assigned(old(doms)@, vars@, mask, val, vars@.len() as int),
        pending(*cn, (final(doms)@, tables), *final(buffer), -1),
        queue_ok(*final(buffer), 0, cn.m()),
        logged(*final(log), (final(doms)@, tables), *old(log), (old(doms)@, tables)),
        narrower(final(doms)@, old(doms)@),
        final(buffer).occurrence_scores == old(buffer).occurrence_scores,
{
    let mut i: usize = 0;
    while i < vars.len()
        invariant
            cn.wf(),
            i <= vars@.len() <= 64,
            forall|i: int| 0 <= i < vars@.len() ==> (#[trigger] vars@[i]) < cn.n(),
            doms@ == assigned(old(doms)@, vars@, mask, val, i as int),
            pending(*cn, (doms@, tables), *buffer, -1),
            queue_ok(*buffer, 0, cn.m()),
            logged(*log, (doms@, tables), *old(log), (old(doms)@, tables)),
            narrower(doms@, old(doms)@),
            buffer.occurrence_scores == old(buffer).occurrence_scores,
        decreases vars.len() - i,
    {
        if bits::get_bit(mask, i) {
            let v: usize = vars[i];
            let b = bits::get_bit(val, i);
            let d = doms[v];
            let nd = if b {
                if d.has1() {
                    DomainMask::D1
                } else {
                    DomainMask::NONE
                }
            } else {
                if d.has0() {
                    DomainMask::D0
                } else {
                    DomainMask::NONE
                }
            };
            if nd != d {
                let ghost d0 = doms@;
                let ghost b0 = *buffer;
                let ghost l0 = *log;
                log.record_dom(v, d);
                doms.set(v, nd);
                enqueue_var_change(cn, buffer, v);
                proof {
                    lemma_log_dom(d0, doms@, tables, l0, *log, v as int);
                    lemma_logged_trans(*log, (doms@, tables), l0, (d0, tables), *old(log), (old(doms)@, tables));
                    lemma_pending_write(*cn, (d0, tables), (doms@, tables), b0, *buffer, v as int, -1);
                    lemma_narrower_trans(doms@, d0, old(doms)@);
                }
            } else {
                assert(doms@.update(v as int, nd) =~= doms@);
            }
        }
        i += 1;
    }
}

/// The number of variables below `n` with both values.
pub open spec fn both_count(doms: Seq<DomainMask>, n: int) -> nat
    decreases n,
{
    if n <= 0 {
        0
    } else {
        both_count(doms, n - 1) + (if doms[n - 1] == DomainMask::BOTH {
            1nat
        } else {
            0nat
        })
    }
}

pub proof fn lemma_both_less(d0: Seq<DomainMask>, d1: Seq<DomainMask>, v: int, n: int)
    requires
        0 <= v,
        d0[v] == DomainMask::BOTH,
        d1[v] != DomainMask::BOTH,
        forall|u: int| 0 <= u < n && u != v ==> #[trigger] d1[u] == d0[u],
    ensures
        both_count(d1, n) <= both_count(d0, n),
        v < n ==> both_count(d1, n) < both_count(d0, n),
    decreases n,
{
    if n > 0 {
        lemma_both_less(d0, d1, v, n - 1);
        if n - 1 != v {
            assert(d1[n - 1] == d0[n - 1]);
        }
    }
}

/// The live rows of constraint `t` are those that the domains admit.
pub open spec fn exact_at(cn: ConstraintNetwork, s: State, t: int) -> bool {
    forall|r: int| 0 <= r < cn.rows(t).len() ==> (#[trigger] row_live(s.1[t], r) <==> admits(s.0, cn.axes(t), cn.rows(t)[r] as u64))
}

/// Remove the values that constraint `t` no longer supports.
fn filter_domains(cn: &ConstraintNetwork, doms: &mut Vec<DomainMask>, masks: &Vec<TableMasks>, tables: &Vec<RSparseBitSet>, buffer: &mut SolverBuffer, log: &mut Trail, t: usize, Ghost(head): Ghost<int>)
    requires
        cn.wf(),
        masks_ok(*cn, masks@),
        t < cn.m(),
        pending(*cn, (old(doms)@, trail::frozen(tables@)), *old(buffer), t as int),
        queue_ok(*old(buffer), head, cn.m()),
        !old(buffer).in_queue@[t as int],
        old(buffer).dirty@[t as int] == 0,
        exact_at(*cn, (old(doms)@, trail::frozen(tables@)), t as int),
        any_live(*cn, (old(doms)@, trail::frozen(tables@)), t as int),
        old(log).fits(trail::shape((old(doms)@, trail::frozen(tables@)))),
    ensures
        pending(*cn, (final(doms)@, trail::frozen(tables@)), *final(buffer), -1),
        queue_ok(*final(buffer), head, cn.m()),
        logged(*final(log), (final(doms)@, trail::frozen(tables@)), *old(log), (old(doms)@, trail::frozen(tables@))),
        narrower(final(doms)@, old(doms)@),
        keeps_closed(*cn, old(doms)@, final(doms)@),
        both_count(final(doms)@, cn.n()) < both_count(old(doms)@, cn.n()) || (final(doms)@ == old(doms)@ && final(buffer).queue@ == old(buffer).queue@),
        final(buffer).occurrence_scores == old(buffer).occurrence_scores,
{
    let ghost tv = trail::frozen(tables@);
    let ghost d0 = doms@;
    let axes = &cn.tensors[t].var_axes;
    proof {
        assert(cn.tensor_wf(t as int));
    }
    let mut j: usize = 0;
    while j < axes.len()
        invariant
            cn.wf(),
            masks_ok(*cn, masks@),
            t < cn.m(),
            cn.tensor_wf(t as int),
            axes@ == cn.axes(t as int),
            tv == trail::frozen(tables@),
            d0 == old(doms)@,
            j <= axes@.len(),
            pending(*cn, (doms@, tv), *buffer, t as int),
            queue_ok(*buffer, head, cn.m()),
            exact_at(*cn, (doms@, tv), t as int),
            any_live(*cn, (doms@, tv), t as int),
            forall|k: int, b: bool| 0 <= k < j && doms@[axes@[k] as int].allows(b) ==> #[trigger] live_with(*cn, (doms@, tv), t as int, k, b),
            logged(*log, (doms@, tv), *old(log), (d0, tv)),
            narrower(doms@, d0),
            keeps_closed(*cn, d0, doms@),
            both_count(doms@, cn.n()) < both_count(d0, cn.n()) || (doms@ == d0 && *buffer == *old(buffer)),
            !buffer.in_queue@[t as int] ==> buffer.dirty@[t as int] == 0,
            buffer.occurrence_scores == old(buffer).occurrence_scores,
        decreases axes.len() - j,
    {
        let v: usize = axes[j];
        let d = doms[v];
        let ghost s: State = (doms@, tv);
        proof {
            // A live row admits its value, so the domain is not empty.
            let r = choose|r: int| 0 <= r < cn.rows(t as int).len() && #[trigger] row_live(tv[t as int], r);
            assert(admits(doms@, cn.axes(t as int), cn.rows(t as int)[r] as u64));
            assert(doms@[axes@[j as int] as int].allows(bits::bit(cn.rows(t as int)[r] as u64, j as int)));
            assert(live_with(*cn, s, t as int, j as int, bits::bit(cn.rows(t as int)[r] as u64, j as int)));
        }
        if d == DomainMask::BOTH {
            let can0 = axis_supported(cn, masks, tables, t, j, false, Ghost(doms@));
            let can1 = axis_supported(cn, masks, tables, t, j, true, Ghost(doms@));
            if !(can0 && can1) {
                let nd = if can1 {
                    DomainMask::D1
                } else {
                    DomainMask::D0
                };
                let ghost b0 = *buffer;
                let ghost l0 = *log;
                let ghost d1 = doms@;
                log.record_dom(v, d);
                doms.set(v, nd);
                enqueue_var_change(cn, buffer, v);
                proof {
                    lemma_log_dom(d1, doms@, tv, l0, *log, v as int);
                    lemma_logged_trans(*log, (doms@, tv), l0, (d1, tv), *old(log), (d0, tv));
                    lemma_pending_write(*cn, (d1, tv), (doms@, tv), b0, *buffer, v as int, t as int);
                    lemma_narrower_trans(doms@, d1, d0);
                    lemma_both_less(d1, doms@, v as int, cn.n());
                    lemma_filter_step(*cn, d0, d1, doms@, tv, t as int, j as int, v as int, can1);
                    assert(axes@.contains(v));
                    assert(buffer.in_queue@[t as int]);
                    assert forall|k: int, b: bool| 0 <= k < j + 1 && doms@[axes@[k] as int].allows(b) implies #[trigger] live_with(*cn, (doms@, tv), t as int, k, b) by {
                        if k < j {
                            assert(axes@[k] != axes@[j as int]);
                            assert(live_with(*cn, (d1, tv), t as int, k, b));
                            let r = choose|r: int| 0 <= r < cn.rows(t as int).len() && #[trigger] row_live(tv[t as int], r) && bits::bit(cn.rows(t as int)[r] as u64, k) == b;
                            assert(row_live((doms@, tv).1[t as int], r));
                        } else {
                            assert(live_with(*cn, (d1, tv), t as int, k, b));
                            let r = choose|r: int| 0 <= r < cn.rows(t as int).len() && #[trigger] row_live(tv[t as int], r) && bits::bit(cn.rows(t as int)[r] as u64, k) == b;
                            assert(row_live((doms@, tv).1[t as int], r));
                        }
                    }
                    let r = choose|r: int| 0 <= r < cn.rows(t as int).len() && #[trigger] row_live(tv[t as int], r);
                    assert(row_live((doms@, tv).1[t as int], r));
                }
            }
        }
        j += 1;
    }
    proof {
        let s: State = (doms@, tv);
        assert(consistent_at(*cn, doms@, t as int)) by {
            let r = choose|r: int| 0 <= r < cn.rows(t as int).len() && #[trigger] row_live(tv[t as int], r);
            assert(admits(doms@, cn.axes(t as int), cn.rows(t as int)[r] as u64));
            assert forall|k: int, b: bool| 0 <= k < cn.axes(t as int).len() && doms@[cn.axes(t as int)[k] as int].allows(b) implies #[trigger] supported(*cn, doms@, t as int, k, b) by {
                assert(live_with(*cn, s, t as int, k, b));
                let q = choose|q: int| 0 <= q < cn.rows(t as int).len() && #[trigger] row_live(tv[t as int], q) && bits::bit(cn.rows(t as int)[q] as u64, k) == b;
                assert(admits(doms@, cn.axes(t as int), cn.rows(t as int)[q] as u64));
            }
        }
    }
}

/// Removing a value that no live row has keeps the live rows exact and the closed domains.
proof fn lemma_filter_step(cn: ConstraintNetwork, d0: Seq<DomainMask>, d1: Seq<DomainMask>, d2: Seq<DomainMask>, tv: Seq<TableView>, t: int, j: int, v: int, kept: bool)
    requires
        cn.wf(),
        0 <= t < cn.m(),
        cn.tensor_wf(t),
        0 <= j < cn.axes(t).len(),
        v == cn.axes(t)[j],
        d1.len() == cn.n(),
        d2.len() == d1.len(),
        d1[v] == DomainMask::BOTH,
        d2[v] == DomainMask::only(kept),
        forall|u: int| 0 <= u < d1.len() && u != v ==> #[trigger] d2[u] == d1[u],
        exact_at(cn, (d1, tv), t),
        !live_with(cn, (d1, tv), t, j, !kept),
        keeps_closed(cn, d0, d1),
    ensures
        exact_at(cn, (d2, tv), t),
        keeps_closed(cn, d0, d2),
{
    assert forall|r: int| 0 <= r < cn.rows(t).len() implies (#[trigger] row_live((d2, tv).1[t], r) <==> admits(d2, cn.axes(t), cn.rows(t)[r] as u64)) by {
        let row = cn.rows(t)[r] as u64;
        assert(row_live((d1, tv).1[t], r) <==> admits(d1, cn.axes(t), row));
        if row_live(tv[t], r) {
            assert(bits::bit(row, j) == kept);
            assert forall|i: int| 0 <= i < cn.axes(t).len() implies d2[(#[trigger] cn.axes(t)[i]) as int].allows(bits::bit(row, i)) by {
                assert(d1[cn.axes(t)[i] as int].allows(bits::bit(row, i)));
                if cn.axes(t)[i] == v {
                    if i < j {
                        assert(cn.axes(t)[i] != cn.axes(t)[j]);
                    } else if j < i {
                        assert(cn.axes(t)[j] != cn.axes(t)[i]);
                    }
                }
            }
        }
        if admits(d2, cn.axes(t), row) {
            assert forall|i: int| 0 <= i < cn.axes(t).len() implies d1[(#[trigger] cn.axes(t)[i]) as int].allows(bits::bit(row, i)) by {
                assert(d2[cn.axes(t)[i] as int].allows(bits::bit(row, i)));
            }
        }
    }
    assert forall|e: Seq<DomainMask>| #[trigger] closed_under(cn, e) && narrower(e, d0) implies narrower(e, d2) by {
        assert(narrower(e, d1));
        assert forall|u: int, b: bool| 0 <= u < d2.len() && (#[trigger] e[u].allows(b)) implies d2[u].allows(b) by {
            assert(d1[u].allows(b));
            if u == v && b != kept {
                assert(consistent_at(cn, e, t));
                assert(e[cn.axes(t)[j] as int].allows(b));
                assert(supported(cn, e, t, j, b));
                let r = choose|r: int| 0 <= r < cn.rows(t).len() && admits(e, cn.axes(t), #[trigger] cn.rows(t)[r] as u64) && bits::bit(cn.rows(t)[r] as u64, j) == b;
                lemma_admits_wider(e, d1, cn.axes(t), cn.rows(t)[r] as u64);
                assert(row_live((d1, tv).1[t], r));
                assert(live_with(cn, (d1, tv), t, j, b));
            }
        }
    }
}

/// Drop what is queued from `head` on.
fn drain(cn: &ConstraintNetwork, buffer: &mut SolverBuffer, head: usize)
    requires
        old(buffer).sized(*cn),
        queue_ok(*old(buffer), head as int, cn.m()),
        forall|t: int| 0 <= t < cn.m() && !#[trigger] old(buffer).in_queue@[t] ==> old(buffer).dirty@[t] == 0,
    ensures
        final(buffer).clean(*cn),
        final(buffer).occurrence_scores == old(buffer).occurrence_scores,
{
    let mut i: usize = head;
    while i < buffer.queue.len()
        invariant
            buffer.sized(*cn),
            queue_ok(*buffer, i as int, cn.m()),
            forall|t: int| 0 <= t < cn.m() && !#[trigger] buffer.in_queue@[t] ==> buffer.dirty@[t] == 0,
            buffer.occurrence_scores == old(buffer).occurrence_scores,
        decreases buffer.queue.len() - i,
    {
        let t: usize = buffer.queue[i];
        let ghost b0 = *buffer;
        buffer.in_queue.set(t, false);
        buffer.dirty.set(t, 0);
        proof {
            lemma_queue_pop(b0, *buffer, i as int, cn.m());
        }
        i += 1;
    }
    proof {
        assert forall|t: int| 0 <= t < cn.m() implies !#[trigger] buffer.in_queue@[t] by {
            if buffer.in_queue@[t] {
                assert(queued(buffer.queue@, i as int, t));
            }
        }
        assert forall|t: int| 0 <= t < cn.m() implies #[trigger] buffer.dirty@[t] == 0 by {
            assert(!buffer.in_queue@[t]);
        }
    }
    buffer.queue.clear();
}

/// Taking the first of the queue, its flag cleared.
proof fn lemma_queue_pop(b0: SolverBuffer, b1: SolverBuffer, head: int, m: int)
    requires
        queue_ok(b0, head, m),
        head < b0.queue@.len(),
        b0.in_queue@.len() == m,
        b1.queue == b0.queue,
        b1.in_queue@ == b0.in_queue@.update(b0.queue@[head] as int, false),
    ensures
        queue_ok(b1, head + 1, m),
{
    let t = b0.queue@[head] as int;
    assert forall|i: int| head + 1 <= i < b1.queue@.len() implies (#[trigger] b1.queue@[i]) < m && b1.in_queue@[b1.queue@[i] as int] by {
        assert(b0.queue@[i] < m);
        assert(b0.queue@[head] != b0.queue@[i]);
    }
    assert forall|u: int| 0 <= u < m && #[trigger] b1.in_queue@[u] implies queued(b1.queue@, head + 1, u) by {
        assert(b0.in_queue@[u]);
        let i = choose|i: int| head <= i < b0.queue@.len() && #[trigger] b0.queue@[i] == u;
        assert(i != head);
        assert(b1.queue@[i] == u);
    }
}

/// Narrow the domains and live rows until every constraint is arc consistent. False where that
/// cannot be: the first domain is then emptied.
pub fn ct_propagate(cn: &ConstraintNetwork, doms: &mut Vec<DomainMask>, masks: &Vec<TableMasks>, tables: &mut Vec<RSparseBitSet>, buffer: &mut SolverBuffer, log: &mut Trail) -> (r: bool)
    requires
        cn.wf(),
        markable(*cn),
        masks_ok(*cn, masks@),
        pending(*cn, (old(doms)@, trail::frozen(old(tables)@)), *old(buffer), -1),
        queue_ok(*old(buffer), 0, cn.m()),
        old(log).fits(trail::shape((old(doms)@, trail::frozen(old(tables)@)))),
    ensures
        logged(*final(log), (final(doms)@, trail::frozen(final(tables)@)), *old(log), (old(doms)@, trail::frozen(old(tables)@))),
        final(buffer).clean(*cn),
        final(buffer).occurrence_scores == old(buffer).occurrence_scores,
        narrower(final(doms)@, old(doms)@),
        r ==> fixpoint(*cn, (final(doms)@, trail::frozen(final(tables)@))) && keeps_closed(*cn, old(doms)@, final(doms)@),
        !r ==> refuted(*cn, old(doms)@) && cn.n() > 0 && final(doms)@[0] == DomainMask::NONE,
{
    let ghost s0: State = (doms@, trail::frozen(tables@));
    let mut head: usize = 0;
    proof {
        assert(narrower(doms@, s0.0));
    }
    while head < buffer.queue.len()
        invariant
            cn.wf(),
            markable(*cn),
            masks_ok(*cn, masks@),
            s0 == (old(doms)@, trail::frozen(old(tables)@)),
            pending(*cn, (doms@, trail::frozen(tables@)), *buffer, -1),
            queue_ok(*buffer, head as int, cn.m()),
            logged(*log, (doms@, trail::frozen(tables@)), *old(log), s0),
            narrower(doms@, s0.0),
            keeps_closed(*cn, s0.0, doms@),
            buffer.occurrence_scores == old(buffer).occurrence_scores,
        decreases both_count(doms@, cn.n()), buffer.queue.len() - head,
    {
        let t: usize = buffer.queue[head];
        let ghost b0 = *buffer;
        let ghost s1: State = (doms@, trail::frozen(tables@));
        let ghost l1 = *log;
        let d: u64 = buffer.dirty[t];
        buffer.in_queue.set(t, false);
        buffer.dirty.set(t, 0);
        head += 1;
        proof {
            lemma_queue_pop(b0, *buffer, head - 1, cn.m());
        }
        let alive = update_table(cn, doms, masks, tables, log, t, d);
        let ghost s2: State = (doms@, trail::frozen(tables@));
        proof {
            lemma_logged_trans(*log, s2, l1, s1, *old(log), s0);
            lemma_updated(*cn, s1, s2, b0, *buffer, t as int, d);
        }
        if !alive {
            proof {
                assert(refuted(*cn, s0.0)) by {
                    assert forall|e: Seq<DomainMask>| #[trigger] closed_under(*cn, e) implies !narrower(e, s0.0) by {
                        if narrower(e, s0.0) {
                            assert(narrower(e, doms@));
                            assert(consistent_at(*cn, e, t as int));
                            let q = choose|q: int| 0 <= q < cn.rows(t as int).len() && admits(e, cn.axes(t as int), #[trigger] cn.rows(t as int)[q] as u64);
                            assert(cn.tensor_wf(t as int));
                            lemma_admits_wider(e, doms@, cn.axes(t as int), cn.rows(t as int)[q] as u64);
                            assert(row_live(s2.1[t as int], q));
                        }
                    }
                }
                assert forall|u: int| 0 <= u < cn.m() && !#[trigger] buffer.in_queue@[u] implies buffer.dirty@[u] == 0 by {
                    if u != t {
                        assert(!b0.in_queue@[u]);
                    }
                }
            }
            drain(cn, buffer, head);
            if doms.len() > 0 {
                let ghost l2 = *log;
                let ghost d2 = doms@;
                log.record_dom(0, doms[0]);
                doms.set(0, DomainMask::NONE);
                proof {
                    lemma_log_dom(d2, doms@, s2.1, l2, *log, 0);
                    lemma_logged_trans(*log, (doms@, s2.1), l2, s2, *old(log), s0);
                    assert(narrower(doms@, d2));
                    lemma_narrower_trans(doms@, d2, s0.0);
                }
            } else {
                proof {
                    // Without variables every row admits everything.
                    assert(cn.rows(t as int).len() > 0);
                    assert(cn.tensor_wf(t as int));
                    assert(cn.axes(t as int).len() == 0) by {
                        if cn.axes(t as int).len() > 0 {
                            assert(cn.axes(t as int)[0] < cn.n());
                        }
                    }
                    assert(admits(doms@, cn.axes(t as int), cn.rows(t as int)[0] as u64));
                    assert(row_live(s2.1[t as int], 0));
                }
            }
            return false;
        }
        let ghost l2 = *log;
        let ghost b2 = *buffer;
        filter_domains(cn, doms, masks, tables, buffer, log, t, Ghost(head as int));
        proof {
            let s3: State = (doms@, trail::frozen(tables@));
            lemma_logged_trans(*log, s3, l2, s2, *old(log), s0);
            lemma_narrower_trans(doms@, s2.0, s0.0);
            assert forall|e: Seq<DomainMask>| #[trigger] closed_under(*cn, e) && narrower(e, s0.0) implies narrower(e, doms@) by {
                assert(narrower(e, s2.0));
            }
        }
    }
    let ghost last = *buffer;
    buffer.queue.clear();
    proof {
        let s: State = (doms@, trail::frozen(tables@));
        assert forall|t: int| 0 <= t < cn.m() implies !#[trigger] last.in_queue@[t] by {
            if last.in_queue@[t] {
                assert(queued(last.queue@, head as int, t));
            }
        }
        assert forall|t: int| 0 <= t < cn.m() implies #[trigger] buffer.dirty@[t] == 0 by {
            assert(!last.in_queue@[t]);
        }
        lemma_settled(*cn, s, last);
    }
    true
}

/// After applying the changed axes of `t`, its live rows are exact.
proof fn lemma_updated(cn: ConstraintNetwork, s1: State, s2: State, b0: SolverBuffer, b1: SolverBuffer, t: int, d: u64)
    requires
        cn.wf(),
        0 <= t < cn.m(),
        pending(cn, s1, b0, -1),
        state_wf(cn, s2),
        applied(cn, s1, s2, t, d),
        d == b0.dirty@[t],
        b1.sized(cn),
        b1.in_queue@ == b0.in_queue@.update(t, false),
        b1.dirty@ == b0.dirty@.update(t, 0),
    ensures
        pending(cn, s2, b1, t),
        exact_at(cn, s2, t),
{
    broadcast use bits::group_bits;

    assert(cn.tensor_wf(t));
    assert(exact_at(cn, s2, t)) by {
        assert forall|r: int| 0 <= r < cn.rows(t).len() implies (#[trigger] row_live(s2.1[t], r) <==> admits(s2.0, cn.axes(t), cn.rows(t)[r] as u64)) by {
            let row = cn.rows(t)[r] as u64;
            if row_live(s2.1[t], r) {
                assert(row_live(s1.1[t], r));
                assert forall|i: int| 0 <= i < cn.axes(t).len() implies s2.0[(#[trigger] cn.axes(t)[i]) as int].allows(bits::bit(row, i)) by {
                    if bits::bit(d, i) {
                    } else {
                        assert(!bits::bit(b0.dirty@[t], i));
                    }
                }
            }
            if admits(s2.0, cn.axes(t), row) {
                assert(row_live(s1.1[t], r));
            }
        }
    }
    assert forall|u: int, r: int, j: int|
        0 <= u < cn.m() && 0 <= r < cn.rows(u).len() && 0 <= j < cn.axes(u).len() && #[trigger] row_live(s2.1[u], r) && !#[trigger] bits::bit(b1.dirty@[u], j)
            implies s2.0[cn.axes(u)[j] as int].allows(bits::bit(cn.rows(u)[r] as u64, j)) by {
        if u == t {
            assert(admits(s2.0, cn.axes(t), cn.rows(t)[r] as u64));
            assert(s2.0[cn.axes(t)[j] as int].allows(bits::bit(cn.rows(t)[r] as u64, j)));
        } else {
            assert(row_live(s1.1[u], r));
            assert(!bits::bit(b0.dirty@[u], j));
        }
    }
    assert forall|u: int, r: int| 0 <= u < cn.m() && 0 <= r < cn.rows(u).len() && admits(s2.0, cn.axes(u), cn.rows(u)[r] as u64) implies #[trigger] row_live(s2.1[u], r) by {
        if u != t {
            assert(row_live(s1.1[u], r));
        }
    }
    assert forall|u: int| 0 <= u < cn.m() && u != t && !#[trigger] b1.in_queue@[u] implies consistent_at(cn, s2.0, u) && b1.dirty@[u] == 0 by {
        assert(!b0.in_queue@[u]);
    }
}

/// With nothing queued the state is arc consistent.
proof fn lemma_settled(cn: ConstraintNetwork, s: State, b: SolverBuffer)
    requires
        cn.wf(),
        pending(cn, s, b, -1),
        forall|t: int| 0 <= t < cn.m() ==> !#[trigger] b.in_queue@[t],
    ensures
        fixpoint(cn, s),
{
    broadcast use bits::group_bits;

    assert forall|t: int| 0 <= t < cn.m() implies #[trigger] consistent_at(cn, s.0, t) by {
        assert(!b.in_queue@[t]);
    }
    assert forall|t: int, r: int| 0 <= t < cn.m() && 0 <= r < cn.rows(t).len() implies (#[trigger] row_live(s.1[t], r) <==> admits(s.0, cn.axes(t), cn.rows(t)[r] as u64)) by {
        assert(!b.in_queue@[t]);
        if row_live(s.1[t], r) {
            assert forall|i: int| 0 <= i < cn.axes(t).len() implies s.0[(#[trigger] cn.axes(t)[i]) as int].allows(bits::bit(cn.rows(t)[r] as u64, i)) by {
                assert(cn.tensor_wf(t));
                assert(!bits::bit(b.dirty@[t], i));
            }
        }
    }
    assert forall|v: int| 0 <= v < cn.n() implies (#[trigger] s.0[v]).live() by {
        assert(cn.incidence_wf(v));
        let t = cn.v2t@[v]@[0] as int;
        assert(cn.axes(t).contains(v as usize));
        assert(cn.vars.len() == cn.n());
        let j = cn.axes(t).index_of(v as usize);
        assert(consistent_at(cn, s.0, t));
        let r = choose|r: int| 0 <= r < cn.rows(t).len() && admits(s.0, cn.axes(t), #[trigger] cn.rows(t)[r] as u64);
        assert(s.0[cn.axes(t)[j] as int].allows(bits::bit(cn.rows(t)[r] as u64, j)));
    }
}

} // verus!
