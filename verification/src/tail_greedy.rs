//! Greedy row merging with a guard for the weakest child.
//!
//! The ordinary merge objective may trade one very weak merged child for many strong ones.
//! The guard freezes the smallest reduction among the unmerged rows: a merge whose measured
//! reduction falls below that floor is never made.

use crate::adapter::Clause;
use crate::bits;
use vstd::prelude::*;

verus! {

/// Measures clauses and weighs merges. The weights are real numbers, so the caller holds
/// them; a merge is offered by a key whose order is theirs.
pub trait MergeOracle {
    /// How much smaller the problem gets under the clause.
    fn size_reduction(&self, clause: &Clause) -> i64;

    /// Starts a round with the reductions of the rows.
    fn begin_round(&mut self, reductions: &Vec<i64>);

    /// What it is worth to put one row with that reduction in place of two: the lower the
    /// better, and None where it does not pay.
    fn offer(&self, i: usize, j: usize, reduction: i64) -> Option<i64>;

    /// The row has that reduction now.
    fn replace(&mut self, i: usize, reduction: i64);
}

/// What was asked and answered while rows were merged.
pub enum MergeEvent {
    /// A clause, and what it takes off the problem.
    Reduced(Clause, i64),
    /// A round began with those reductions.
    Round(Seq<i64>),
    /// Two rows, what their merge takes off the problem, and what that is worth.
    Offered(usize, usize, i64, Option<i64>),
    /// Two rows gave way to one in the place of the first, which has a new reduction.
    Replaced(usize, usize, i64),
    /// The merge of two rows was passed over.
    Passed(usize, usize),
}

/// An oracle, with what it has been asked.
pub struct Recalled<O> {
    pub oracle: O,
    pub log: Ghost<Seq<MergeEvent>>,
}

impl<O: MergeOracle> Recalled<O> {
    /// An oracle that has not been asked yet.
    pub fn new(oracle: O) -> (r: Recalled<O>)
        ensures
            r.oracle == oracle,
            r.log@.len() == 0,
    {
        Recalled { oracle, log: Ghost(Seq::empty()) }
    }

    fn size_reduction(&mut self, clause: &Clause) -> (r: i64)
        ensures
            final(self).log@ == old(self).log@.push(MergeEvent::Reduced(*clause, r)),
    {
        let r: i64 = self.oracle.size_reduction(clause);
        self.log = Ghost(self.log@.push(MergeEvent::Reduced(*clause, r)));
        r
    }

    fn begin_round(&mut self, reductions: &Vec<i64>)
        ensures
            final(self).log@ == old(self).log@.push(MergeEvent::Round(reductions@)),
    {
        self.oracle.begin_round(reductions);
        self.log = Ghost(self.log@.push(MergeEvent::Round(reductions@)));
    }

    fn offer(&mut self, i: usize, j: usize, reduction: i64) -> (r: Option<i64>)
        ensures
            final(self).log@ == old(self).log@.push(MergeEvent::Offered(i, j, reduction, r)),
    {
        let r = self.oracle.offer(i, j, reduction);
        self.log = Ghost(self.log@.push(MergeEvent::Offered(i, j, reduction, r)));
        r
    }

    fn replace(&mut self, i: usize, reduction: i64, Ghost(j): Ghost<usize>)
        ensures
            final(self).log@ == old(self).log@.push(MergeEvent::Replaced(i, j, reduction)),
    {
        self.oracle.replace(i, reduction);
        self.log = Ghost(self.log@.push(MergeEvent::Replaced(i, j, reduction)));
    }

    fn pass(&mut self, Ghost(i): Ghost<usize>, Ghost(j): Ghost<usize>)
        ensures
            final(self).log@ == old(self).log@.push(MergeEvent::Passed(i, j)),
    {
        self.log = Ghost(self.log@.push(MergeEvent::Passed(i, j)));
    }
}

/// The pairs of rows that stand offered after the first `k` events, each with its key: what was
/// offered since the round began and not barred, less what was merged since or passed over.
pub open spec fn standing(log: Seq<MergeEvent>, floor: Option<i64>, k: int) -> Map<(usize, usize), i64>
    decreases k,
{
    if k <= 0 {
        Map::empty()
    } else {
        let before = standing(log, floor, k - 1);
        match log[k - 1] {
            MergeEvent::Round(_) => Map::empty(),
            MergeEvent::Offered(a, b, red, answer) => if answer is Some && !barred(floor, red) {
                before.insert((a, b), answer->0)
            } else {
                before
            },
            MergeEvent::Replaced(i, j, _) => before.remove_keys(Set::new(|key: (usize, usize)| key.0 == i || key.0 == j || key.1 == i || key.1 == j)),
            MergeEvent::Passed(i, j) => before.remove((i, j)),
            MergeEvent::Reduced(_, _) => before,
        }
    }
}

/// The pair stands offered, with the lowest key; of equal keys, with the lowest rows.
pub open spec fn stands_first(m: Map<(usize, usize), i64>, i: usize, j: usize) -> bool {
    &&& m.dom().contains((i, j))
    &&& forall|key: (usize, usize)| #[trigger] m.dom().contains(key) ==> key == (i, j) || sooner((m[(i, j)], i, j), (m[key], key.0, key.1))
}

/// The event takes the pair that stands first, or begins a round when no pair stands.
pub open spec fn in_turn(log: Seq<MergeEvent>, from: int, floor: Option<i64>, k: int) -> bool {
    match log[k] {
        MergeEvent::Replaced(i, j, _) => stands_first(standing(log, floor, k), i, j),
        MergeEvent::Passed(i, j) => stands_first(standing(log, floor, k), i, j),
        MergeEvent::Round(_) => k > from ==> standing(log, floor, k).dom() == Set::<(usize, usize)>::empty(),
        _ => true,
    }
}

/// From `from` on, rows are merged in the order of their offers.
pub open spec fn in_order(log: Seq<MergeEvent>, from: int, floor: Option<i64>) -> bool {
    forall|k: int| from <= k < log.len() ==> #[trigger] in_turn(log, from, floor, k)
}

proof fn lemma_standing_same(a: Seq<MergeEvent>, b: Seq<MergeEvent>, floor: Option<i64>, k: int)
    requires
        extends(a, b),
        k <= a.len(),
    ensures
        standing(a, floor, k) == standing(b, floor, k),
    decreases k,
{
    if k > 0 {
        lemma_standing_same(a, b, floor, k - 1);
        assert(b[k - 1] == a[k - 1]);
    }
}

/// The order is kept by one event more that is in turn.
proof fn lemma_order_push(a: Seq<MergeEvent>, b: Seq<MergeEvent>, from: int, floor: Option<i64>)
    requires
        extends(a, b),
        b.len() == a.len() + 1,
        0 <= from,
        in_order(a, from, floor),
        in_turn(b, from, floor, a.len() as int),
    ensures
        in_order(b, from, floor),
{
    assert forall|k: int| from <= k < b.len() implies #[trigger] in_turn(b, from, floor, k) by {
        if k < a.len() {
            assert(in_turn(a, from, floor, k));
            assert(b[k] == a[k]);
            lemma_standing_same(a, b, floor, k);
        }
    }
}

/// Measuring clauses changes neither what stands nor the order.
proof fn lemma_quiet(a: Seq<MergeEvent>, b: Seq<MergeEvent>, from: int, floor: Option<i64>)
    requires
        extends(a, b),
        forall|k: int| a.len() <= k < b.len() ==> (#[trigger] b[k]) is Reduced,
        0 <= from,
        in_order(a, from, floor),
    ensures
        standing(b, floor, b.len() as int) == standing(a, floor, a.len() as int),
        in_order(b, from, floor),
    decreases b.len(),
{
    if b.len() > a.len() {
        let c = b.drop_last();
        lemma_quiet(a, c, from, floor);
        assert(extends(c, b));
        lemma_standing_same(c, b, floor, c.len() as int);
        assert(b[b.len() - 1] is Reduced);
        lemma_order_push(c, b, from, floor);
    } else {
        assert(a =~= b);
    }
}

/// The queue holds exactly what stands.
spec fn mirrors(q: PairQueue, m: Map<(usize, usize), i64>) -> bool {
    forall|e: (i64, usize, usize)| #[trigger] q@.contains(e) <==> (m.dom().contains((e.1, e.2)) && m[(e.1, e.2)] == e.0)
}

/// A key is queued with one priority only.
proof fn lemma_one_entry(q: PairQueue, p: i64, r: i64, a: usize, b: usize)
    requires
        q.wf(),
        q@.contains((p, a, b)),
        q@.contains((r, a, b)),
    ensures
        p == r,
{
    let i = q@.index_of((p, a, b));
    let j = q@.index_of((r, a, b));
    assert(q@[i].1 == q@[j].1);
    if i < j {
        assert(q@[i].1 != q@[j].1 || q@[i].2 != q@[j].2);
    } else if j < i {
        assert(q@[j].1 != q@[i].1 || q@[j].2 != q@[i].2);
    }
}

/// The first list is the beginning of the second.
pub open spec fn extends(a: Seq<MergeEvent>, b: Seq<MergeEvent>) -> bool {
    a.len() <= b.len() && forall|k: int| 0 <= k < a.len() ==> #[trigger] b[k] == a[k]
}

/// One of the first `p` answers said that the clause takes off `x`.
pub open spec fn weighed(log: Seq<MergeEvent>, p: int, c: Clause, x: i64) -> bool {
    exists|q: int| 0 <= q < p && #[trigger] log[q] == MergeEvent::Reduced(c, x)
}

/// One of the first `p` answers said that the clause takes off at most `x`.
pub open spec fn weighed_at_most(log: Seq<MergeEvent>, p: int, c: Clause, x: i64) -> bool {
    exists|y: i64| y <= x && #[trigger] weighed(log, p, c, y)
}

/// What two clauses both set, and to the same.
pub open spec fn gathered(a: Clause, b: Clause) -> Clause {
    Clause { mask: a.mask & b.mask & !(a.val ^ b.val), val: a.val & (a.mask & b.mask & !(a.val ^ b.val)) }
}

/// By the first `p` answers, `red` is the most that a common part of the rows takes off the
/// problem, or zero where none takes anything off.
pub open spec fn best_merge(log: Seq<MergeEvent>, p: int, left: Seq<Clause>, right: Seq<Clause>, red: i64) -> bool {
    &&& red >= 0
    &&& forall|a: int, b: int|
        #![trigger left[a], right[b]]
        0 <= a < left.len() && 0 <= b < right.len() && gathered(left[a], right[b]).mask != 0 ==> weighed_at_most(log, p, gathered(left[a], right[b]), red)
    &&& red > 0 ==> exists|a: int, b: int|
        #![trigger left[a], right[b]]
        0 <= a < left.len() && 0 <= b < right.len() && weighed(log, p, gathered(left[a], right[b]), red)
}

/// The merge takes less off the problem than the floor asks for.
pub open spec fn barred(floor: Option<i64>, red: i64) -> bool {
    floor matches Some(f) && red < f
}

/// The event says that merging rows `i` and `j` does not pay, or the floor forbids it.
pub open spec fn turns_down(e: MergeEvent, log: Seq<MergeEvent>, p: int, rows: Seq<Vec<Clause>>, i: int, j: int, floor: Option<i64>) -> bool {
    match e {
        MergeEvent::Offered(a, b, red, answer) => {
            &&& a == i
            &&& b == j
            &&& answer is None || barred(floor, red)
            &&& best_merge(log, p, rows[i]@, rows[j]@, red)
        },
        _ => false,
    }
}

/// After the event `start`, merging rows `i` and `j` was turned down.
pub open spec fn settled(log: Seq<MergeEvent>, start: int, rows: Seq<Vec<Clause>>, i: int, j: int, floor: Option<i64>) -> bool {
    exists|p: int| start < p < log.len() && turns_down(#[trigger] log[p], log, p, rows, i, j, floor)
}

/// The rows are a resting point: in a round that began with their reductions every merge of
/// two of them was turned down.
pub open spec fn rests(log: Seq<MergeEvent>, start: int, rows: Seq<Vec<Clause>>, reductions: Seq<i64>, floor: Option<i64>) -> bool {
    &&& 0 <= start < log.len()
    &&& log[start] == MergeEvent::Round(reductions)
    &&& forall|i: int, j: int| 0 <= i < j < rows.len() ==> #[trigger] settled(log, start, rows, i, j, floor)
}

/// The smallest of the numbers, where a guard is wanted and there are numbers.
pub open spec fn is_floor(s: Seq<i64>, guard: bool, r: Option<i64>) -> bool {
    &&& r is Some <==> (guard && s.len() > 0)
    &&& r matches Some(f) ==> s.contains(f) && forall|k: int| 0 <= k < s.len() ==> f <= #[trigger] s[k]
}

/// The clauses are the heads of rows at rest, after the first `from` events.
pub open spec fn at_rest(log: Seq<MergeEvent>, from: int, clauses: Seq<Clause>, reductions: Seq<i64>, floor: Option<i64>) -> bool {
    exists|rows: Seq<Vec<Clause>>, start: int|
        {
            &&& from <= start
            &&& #[trigger] rests(log, start, rows, reductions, floor)
            &&& rows.len() == clauses.len()
            &&& forall|k: int| 0 <= k < rows.len() ==> (#[trigger] rows[k])@.len() > 0 && rows[k]@[0] == clauses[k]
        }
}

proof fn lemma_weighed_later(log: Seq<MergeEvent>, p: int, later: Seq<MergeEvent>, p2: int, c: Clause, x: i64)
    requires
        extends(log, later),
        0 <= p <= log.len(),
        p <= p2,
        weighed(log, p, c, x),
    ensures
        weighed(later, p2, c, x),
{
    let q = choose|q: int| 0 <= q < p && #[trigger] log[q] == MergeEvent::Reduced(c, x);
    assert(later[q] == log[q]);
}

proof fn lemma_at_most_later(log: Seq<MergeEvent>, p: int, later: Seq<MergeEvent>, p2: int, c: Clause, x: i64, x2: i64)
    requires
        extends(log, later),
        0 <= p <= log.len(),
        p <= p2,
        x <= x2,
        weighed_at_most(log, p, c, x),
    ensures
        weighed_at_most(later, p2, c, x2),
{
    let y = choose|y: i64| y <= x && #[trigger] weighed(log, p, c, y);
    lemma_weighed_later(log, p, later, p2, c, y);
}

/// What the answers said stays said.
proof fn lemma_best_later(log: Seq<MergeEvent>, p: int, later: Seq<MergeEvent>, p2: int, left: Seq<Clause>, right: Seq<Clause>, red: i64)
    requires
        extends(log, later),
        0 <= p <= log.len(),
        p <= p2,
        best_merge(log, p, left, right, red),
    ensures
        best_merge(later, p2, left, right, red),
{
    assert forall|a: int, b: int|
        #![trigger left[a], right[b]]
        0 <= a < left.len() && 0 <= b < right.len() && gathered(left[a], right[b]).mask != 0 implies weighed_at_most(later, p2, gathered(left[a], right[b]), red) by {
        lemma_at_most_later(log, p, later, p2, gathered(left[a], right[b]), red, red);
    }
    if red > 0 {
        let (a, b) = choose|a: int, b: int|
            #![trigger left[a], right[b]]
            0 <= a < left.len() && 0 <= b < right.len() && weighed(log, p, gathered(left[a], right[b]), red);
        lemma_weighed_later(log, p, later, p2, gathered(left[a], right[b]), red);
    }
}

proof fn lemma_settled_later(log: Seq<MergeEvent>, later: Seq<MergeEvent>, start: int, rows: Seq<Vec<Clause>>, i: int, j: int, floor: Option<i64>)
    requires
        extends(log, later),
        0 <= start,
        settled(log, start, rows, i, j, floor),
    ensures
        settled(later, start, rows, i, j, floor),
{
    let p = choose|p: int| start < p < log.len() && turns_down(#[trigger] log[p], log, p, rows, i, j, floor);
    assert(later[p] == log[p]);
    if let MergeEvent::Offered(a, b, red, answer) = log[p] {
        lemma_best_later(log, p, later, p, rows[i]@, rows[j]@, red);
    }
    assert(turns_down(later[p], later, p, rows, i, j, floor));
}

/// A rule, with what each of its clauses takes off the problem.
#[derive(Clone, Debug)]
pub struct MergedRule {
    pub clauses: Vec<Clause>,
    pub branching_vector: Vec<i64>,
}

/// Greedy row merging that never makes a child weaker than the weakest unmerged row.
#[derive(Debug, Clone, Copy, Default)]
pub struct TailGreedyMerge;

/// Whatever the second clause covers, the first covers.
pub open spec fn wider(a: Clause, b: Clause) -> bool {
    forall|x: u64| #[trigger] b.covers(x) ==> a.covers(x)
}

/// Some clause of the group is covered.
pub open spec fn serves(a: Clause, group: Seq<Clause>) -> bool {
    exists|c: int| 0 <= c < group.len() && wider(a, #[trigger] group[c])
}

/// Whichever clause of the row is taken, the group is served.
spec fn hosts(row: Seq<Clause>, group: Seq<Clause>) -> bool {
    forall|a: int| 0 <= a < row.len() ==> serves(#[trigger] row[a], group)
}

/// The rows have clauses.
pub open spec fn rows_wf(rows: Seq<Vec<Clause>>) -> bool {
    forall|k: int| 0 <= k < rows.len() ==> (#[trigger] rows[k])@.len() > 0
}

/// Every group is hosted by an active row.
spec fn hosted(rows: Seq<Vec<Clause>>, active: Seq<bool>, groups: Seq<Vec<Clause>>) -> bool {
    forall|g: int| 0 <= g < groups.len() ==> #[trigger] has_host(rows, active, groups[g]@)
}

spec fn has_host(rows: Seq<Vec<Clause>>, active: Seq<bool>, group: Seq<Clause>) -> bool {
    exists|k: int| 0 <= k < rows.len() && active[k] && hosts((#[trigger] rows[k])@, group)
}

/// No number is below one of the first list.
pub open spec fn above_floor(floors: Seq<i64>, s: Seq<i64>) -> bool {
    forall|k: int| 0 <= k < s.len() ==> some_at_most(floors, #[trigger] s[k])
}

/// One of the numbers is at most `x`.
pub open spec fn some_at_most(floors: Seq<i64>, x: i64) -> bool {
    exists|g: int| 0 <= g < floors.len() && (#[trigger] floors[g]) <= x
}

/// What two clauses both set, and to the same.
pub fn common(a: &Clause, b: &Clause) -> (r: Clause)
    ensures
        r == gathered(*a, *b),
        forall|i: int| 0 <= i < 64 ==> (#[trigger] bits::bit(r.mask, i) <==> (bits::bit(a.mask, i) && bits::bit(b.mask, i) && bits::bit(a.val, i) == bits::bit(b.val, i))),
        forall|i: int| 0 <= i < 64 ==> (#[trigger] bits::bit(r.val, i) <==> (bits::bit(r.mask, i) && bits::bit(a.val, i))),
        wider(r, *a),
        wider(r, *b),
{
    let mask: u64 = a.mask & b.mask & !(a.val ^ b.val);
    let val: u64 = a.val & mask;
    let r = Clause::new(mask, val);
    proof {
        broadcast use bits::group_bits;

        assert forall|i: int| 0 <= i < 64 implies (#[trigger] bits::bit(mask, i) <==> (bits::bit(a.mask, i) && bits::bit(b.mask, i) && bits::bit(a.val, i) == bits::bit(b.val, i))) by {
            assert(bits::bit(a.val ^ b.val, i) == (bits::bit(a.val, i) != bits::bit(b.val, i)));
        }
    }
    r
}

/// A pair in the order of its numbers.
pub fn ordered_pair(a: usize, b: usize) -> (r: (usize, usize))
    ensures
        r == (if a <= b {
            (a, b)
        } else {
            (b, a)
        }),
{
    if a <= b {
        (a, b)
    } else {
        (b, a)
    }
}

/// Pairs by priority.
pub struct PairQueue {
    pub entries: Vec<(i64, usize, usize)>,
}

/// Comes before in the order of priority, first number and second number.
pub open spec fn sooner(a: (i64, usize, usize), b: (i64, usize, usize)) -> bool {
    a.0 < b.0 || (a.0 == b.0 && (a.1 < b.1 || (a.1 == b.1 && a.2 < b.2)))
}

impl PairQueue {
    /// The priority of each pair.
    pub open spec fn view(self) -> Seq<(i64, usize, usize)> {
        self.entries@
    }

    /// No pair comes twice.
    pub open spec fn wf(self) -> bool {
        forall|i: int, j: int| 0 <= i < j < self@.len() ==> (#[trigger] self@[i]).1 != (#[trigger] self@[j]).1 || self@[i].2 != self@[j].2
    }

    /// The pair is queued.
    pub open spec fn queued(self, key: (usize, usize)) -> bool {
        exists|i: int| 0 <= i < self@.len() && (#[trigger] self@[i]).1 == key.0 && self@[i].2 == key.1
    }

    pub fn new() -> (r: PairQueue)
        ensures
            r@.len() == 0,
            r.wf(),
    {
        PairQueue { entries: Vec::new() }
    }

    pub fn is_empty(&self) -> (r: bool)
        ensures
            r == (self@.len() == 0),
    {
        self.entries.len() == 0
    }

    /// The place of a pair, or the number of pairs.
    fn place(&self, key: (usize, usize)) -> (r: usize)
        ensures
            r <= self@.len(),
            r < self@.len() ==> self@[r as int].1 == key.0 && self@[r as int].2 == key.1,
            r == self@.len() <==> !self.queued(key),
    {
        let mut i: usize = 0;
        while i < self.entries.len()
            invariant
                i <= self@.len(),
                forall|k: int| 0 <= k < i ==> (#[trigger] self@[k]).1 != key.0 || self@[k].2 != key.1,
            decreases self.entries.len() - i,
        {
            if self.entries[i].1 == key.0 && self.entries[i].2 == key.1 {
                assert(self@[i as int].1 == key.0);
                return i;
            }
            i += 1;
        }
        i
    }

    /// Give the pair that priority.
    pub fn upsert(&mut self, key: (usize, usize), priority: i64)
        requires
            old(self).wf(),
        ensures
            final(self).wf(),
            final(self)@.contains((priority, key.0, key.1)),
            forall|e: (i64, usize, usize)| (e.1 != key.0 || e.2 != key.1) ==> (#[trigger] final(self)@.contains(e) <==> old(self)@.contains(e)),
            final(self).queued(key),
    {
        let ghost s0 = self@;
        let at: usize = self.place(key);
        if at < self.entries.len() {
            self.entries.set(at, (priority, key.0, key.1));
            assert(self@[at as int] == (priority, key.0, key.1));
        } else {
            self.entries.push((priority, key.0, key.1));
            assert(self@[at as int] == (priority, key.0, key.1));
        }
        proof {
            let s1 = self@;
            assert forall|e: (i64, usize, usize)| (e.1 != key.0 || e.2 != key.1) implies (#[trigger] s1.contains(e) <==> s0.contains(e)) by {
                if s1.contains(e) {
                    let i = s1.index_of(e);
                    assert(s0[i] == e);
                }
                if s0.contains(e) {
                    let i = s0.index_of(e);
                    assert(s1[i] == e);
                }
            }
            assert forall|i: int, j: int| 0 <= i < j < s1.len() implies (#[trigger] s1[i]).1 != (#[trigger] s1[j]).1 || s1[i].2 != s1[j].2 by {
                if i != at && j != at {
                    assert(s1[i] == s0[i] && s1[j] == s0[j]);
                } else if at < s0.len() {
                    assert(s0[at as int].1 == key.0 && s0[at as int].2 == key.1);
                    if i == at {
                        assert(s1[j] == s0[j]);
                    } else {
                        assert(s1[i] == s0[i]);
                    }
                } else {
                    assert(s1[i] == s0[i]);
                }
            }
        }
    }

    /// Take the pair out.
    pub fn remove(&mut self, key: (usize, usize))
        requires
            old(self).wf(),
        ensures
            final(self).wf(),
            !final(self).queued(key),
            forall|e: (i64, usize, usize)| (e.1 != key.0 || e.2 != key.1) ==> (#[trigger] final(self)@.contains(e) <==> old(self)@.contains(e)),
            final(self)@.len() <= old(self)@.len(),
    {
        let at: usize = self.place(key);
        if at < self.entries.len() {
            self.take_at(at);
        }
    }

    /// Take the pair at a place out.
    fn take_at(&mut self, at: usize) -> (r: (i64, usize, usize))
        requires
            old(self).wf(),
            at < old(self)@.len(),
        ensures
            r == old(self)@[at as int],
            final(self).wf(),
            final(self)@.len() == old(self)@.len() - 1,
            !final(self).queued((r.1, r.2)),
            forall|e: (i64, usize, usize)| (e.1 != r.1 || e.2 != r.2) ==> (#[trigger] final(self)@.contains(e) <==> old(self)@.contains(e)),
    {
        let ghost s0 = self@;
        let r = self.entries.remove(at);
        proof {
            let s1 = self@;
            assert(s1 =~= s0.remove(at as int));
            assert forall|i: int| 0 <= i < s1.len() implies #[trigger] s1[i] == s0[if i < at { i } else { i + 1 }] by {}
            assert forall|e: (i64, usize, usize)| (e.1 != r.1 || e.2 != r.2) implies (#[trigger] s1.contains(e) <==> s0.contains(e)) by {
                if s1.contains(e) {
                    let i = s1.index_of(e);
                    assert(s1[i] == e);
                    assert(s0[if i < at { i } else { i + 1 }] == e);
                }
                if s0.contains(e) {
                    let i = s0.index_of(e);
                    assert(i != at);
                    assert(s1[if i < at { i } else { i - 1 }] == e);
                }
            }
            assert(self.wf()) by {
                assert forall|i: int, j: int| 0 <= i < j < s1.len() implies (#[trigger] s1[i]).1 != (#[trigger] s1[j]).1 || s1[i].2 != s1[j].2 by {
                    let i0 = if i < at { i } else { i + 1 };
                    let j0 = if j < at { j } else { j + 1 };
                    assert(s1[i] == s0[i0] && s1[j] == s0[j0]);
                }
            }
            if self.queued((r.1, r.2)) {
                let i = choose|i: int| 0 <= i < s1.len() && (#[trigger] s1[i]).1 == r.1 && s1[i].2 == r.2;
                let i0 = if i < at { i } else { i + 1 };
                assert(s1[i] == s0[i0]);
                assert(s0[at as int] == r);
                if i0 < at {
                    assert(s0[i0].1 != s0[at as int].1 || s0[i0].2 != s0[at as int].2);
                } else {
                    assert(s0[at as int].1 != s0[i0].1 || s0[at as int].2 != s0[i0].2);
                }
            }
        }
        r
    }

    /// Take out the pair that comes first.
    pub fn pop_min(&mut self) -> (r: Option<(usize, usize)>)
        requires
            old(self).wf(),
        ensures
            final(self).wf(),
            match r {
                None => old(self)@.len() == 0 && *final(self) == *old(self),
                Some(key) => {
                    &&& old(self).queued(key)
                    &&& exists|p: i64| #[trigger] old(self)@.contains((p, key.0, key.1)) && (forall|e: (i64, usize, usize)| #[trigger] old(self)@.contains(e) ==> e == (p, key.0, key.1) || sooner((p, key.0, key.1), e))
                    &&& !final(self).queued(key)
                    &&& forall|e: (i64, usize, usize)| (e.1 != key.0 || e.2 != key.1) ==> (#[trigger] final(self)@.contains(e) <==> old(self)@.contains(e))
                    &&& final(self)@.len() < old(self)@.len()
                },
            },
    {
        if self.entries.len() == 0 {
            return None;
        }
        let ghost s0 = self@;
        let mut best: usize = 0;
        let mut i: usize = 1;
        while i < self.entries.len()
            invariant
                self@ == s0,
                s0.len() > 0,
                self.wf(),
                best < i <= s0.len(),
                forall|k: int| 0 <= k < i && k != best ==> sooner(s0[best as int], #[trigger] s0[k]),
            decreases self.entries.len() - i,
        {
            let a = self.entries[i];
            let b = self.entries[best];
            assert(s0[best as int].1 != s0[i as int].1 || s0[best as int].2 != s0[i as int].2);
            if a.0 < b.0 || (a.0 == b.0 && (a.1 < b.1 || (a.1 == b.1 && a.2 < b.2))) {
                proof {
                    assert forall|k: int| 0 <= k < i + 1 && k != i implies sooner(s0[i as int], #[trigger] s0[k]) by {
                        if k != best {
                            assert(sooner(s0[best as int], s0[k]));
                        }
                    }
                }
                best = i;
            }
            i += 1;
        }
        let r = self.take_at(best);
        proof {
            assert(s0[best as int] == r);
            assert(old(self)@[best as int] == r);
            assert(old(self).queued((r.1, r.2)));
            assert(old(self)@.contains((r.0, r.1, r.2)));
            assert forall|e: (i64, usize, usize)| #[trigger] s0.contains(e) implies e == (r.0, r.1, r.2) || sooner((r.0, r.1, r.2), e) by {
                let k = s0.index_of(e);
                assert(s0[k] == e);
            }
        }
        Some((r.1, r.2))
    }
}

/// The common part of a clause of each row that takes most off the problem, with what it takes
/// off: the first where several take the same. The clause that sets nothing, with zero, where
/// none takes anything off.
fn reduction_merge<O: MergeOracle>(left: &Vec<Clause>, right: &Vec<Clause>, oracle: &mut Recalled<O>) -> (r: (Clause, i64))
    requires
        left@.len() > 0,
        right@.len() > 0,
    ensures
        extends(old(oracle).log@, final(oracle).log@),
        best_merge(final(oracle).log@, final(oracle).log@.len() as int, left@, right@, r.1),
        exists|a: int| 0 <= a < left@.len() && wider(r.0, #[trigger] left@[a]),
        exists|b: int| 0 <= b < right@.len() && wider(r.0, #[trigger] right@[b]),
        r.1 == 0 ==> r.0 == (Clause { mask: 0, val: 0 }),
        forall|k: int| old(oracle).log@.len() <= k < final(oracle).log@.len() ==> (#[trigger] final(oracle).log@[k]) is Reduced,
{
    let ghost start = oracle.log@;
    let mut best = Clause::new(0, 0);
    let mut reduction: i64 = 0;
    proof {
        broadcast use bits::group_bits;

        assert(wider(best, left@[0]) && wider(best, right@[0])) by {
            assert forall|x: u64| best.covers(x) by {
                assert forall|i: int| 0 <= i < 64 implies !#[trigger] bits::bit(best.mask, i) by {
                    assert(!bits::bit(0u64, i));
                }
            }
        }
    }
    let mut i: usize = 0;
    while i < left.len()
        invariant
            left@.len() > 0,
            right@.len() > 0,
            i <= left@.len(),
            extends(start, oracle.log@),
            partly_best(oracle.log@, left@, right@, i as int, 0, reduction),
            exists|a: int| 0 <= a < left@.len() && wider(best, #[trigger] left@[a]),
            exists|b: int| 0 <= b < right@.len() && wider(best, #[trigger] right@[b]),
            reduction == 0 ==> best == (Clause { mask: 0, val: 0 }),
            forall|k: int| start.len() <= k < oracle.log@.len() ==> (#[trigger] oracle.log@[k]) is Reduced,
        decreases left.len() - i,
    {
        let mut j: usize = 0;
        while j < right.len()
            invariant
                i < left@.len(),
                j <= right@.len(),
                extends(start, oracle.log@),
                partly_best(oracle.log@, left@, right@, i as int, j as int, reduction),
                exists|a: int| 0 <= a < left@.len() && wider(best, #[trigger] left@[a]),
                exists|b: int| 0 <= b < right@.len() && wider(best, #[trigger] right@[b]),
                reduction == 0 ==> best == (Clause { mask: 0, val: 0 }),
                forall|k: int| start.len() <= k < oracle.log@.len() ==> (#[trigger] oracle.log@[k]) is Reduced,
            decreases right.len() - j,
        {
            let ghost before = oracle.log@;
            let ghost known = reduction;
            let merged = common(&left[i], &right[j]);
            if merged.mask != 0 {
                let r: i64 = oracle.size_reduction(&merged);
                proof {
                    assert(oracle.log@[before.len() as int] == MergeEvent::Reduced(merged, r));
                    assert(weighed(oracle.log@, oracle.log@.len() as int, merged, r));
                }
                if r > reduction {
                    best = merged;
                    reduction = r;
                    assert(wider(best, left@[i as int]) && wider(best, right@[j as int]));
                }
            }
            proof {
                lemma_partly_next(before, oracle.log@, left@, right@, i as int, j as int, known, reduction);
            }
            j += 1;
        }
        i += 1;
        proof {
            lemma_partly_turn(oracle.log@, left@, right@, i as int, reduction);
        }
    }
    proof {
        lemma_partly_done(oracle.log@, left@, right@, reduction);
    }
    (best, reduction)
}

/// `red` is the most of the pairs before `(i, j)`.
spec fn partly_best(log: Seq<MergeEvent>, left: Seq<Clause>, right: Seq<Clause>, i: int, j: int, red: i64) -> bool {
    &&& red >= 0
    &&& forall|a: int, b: int|
        #![trigger left[a], right[b]]
        0 <= a < left.len() && 0 <= b < right.len() && (a < i || (a == i && b < j)) && gathered(left[a], right[b]).mask != 0 ==> weighed_at_most(log, log.len() as int, gathered(left[a], right[b]), red)
    &&& red > 0 ==> exists|a: int, b: int|
        #![trigger left[a], right[b]]
        0 <= a < left.len() && 0 <= b < right.len() && weighed(log, log.len() as int, gathered(left[a], right[b]), red)
}

proof fn lemma_partly_next(before: Seq<MergeEvent>, log: Seq<MergeEvent>, left: Seq<Clause>, right: Seq<Clause>, i: int, j: int, known: i64, red: i64)
    requires
        extends(before, log),
        0 <= i < left.len(),
        0 <= j < right.len(),
        partly_best(before, left, right, i, j, known),
        known <= red,
        gathered(left[i], right[j]).mask != 0 ==> weighed_at_most(log, log.len() as int, gathered(left[i], right[j]), red),
        red != known ==> weighed(log, log.len() as int, gathered(left[i], right[j]), red),
    ensures
        partly_best(log, left, right, i, j + 1, red),
{
    assert forall|a: int, b: int|
        #![trigger left[a], right[b]]
        0 <= a < left.len() && 0 <= b < right.len() && (a < i || (a == i && b < j + 1)) && gathered(left[a], right[b]).mask != 0 implies weighed_at_most(log, log.len() as int, gathered(left[a], right[b]), red) by {
        if !(a == i && b == j) {
            lemma_at_most_later(before, before.len() as int, log, log.len() as int, gathered(left[a], right[b]), known, red);
        }
    }
    if red > 0 {
        if red == known {
            let (a, b) = choose|a: int, b: int|
                #![trigger left[a], right[b]]
                0 <= a < left.len() && 0 <= b < right.len() && weighed(before, before.len() as int, gathered(left[a], right[b]), red);
            lemma_weighed_later(before, before.len() as int, log, log.len() as int, gathered(left[a], right[b]), red);
        }
    }
}

proof fn lemma_partly_turn(log: Seq<MergeEvent>, left: Seq<Clause>, right: Seq<Clause>, i: int, red: i64)
    requires
        partly_best(log, left, right, i - 1, right.len() as int, red),
    ensures
        partly_best(log, left, right, i, 0, red),
{
}

proof fn lemma_partly_done(log: Seq<MergeEvent>, left: Seq<Clause>, right: Seq<Clause>, red: i64)
    requires
        partly_best(log, left, right, left.len() as int, 0, red),
    ensures
        best_merge(log, log.len() as int, left, right, red),
{
}

/// What the first clause of each row takes off the problem.
pub fn row_reductions<O: MergeOracle>(rows: &Vec<Vec<Clause>>, oracle: &mut Recalled<O>) -> (r: Vec<i64>)
    requires
        rows_wf(rows@),
    ensures
        r@.len() == rows@.len(),
        final(oracle).log@ == old(oracle).log@ + Seq::new(rows@.len(), |k: int| MergeEvent::Reduced(rows@[k]@[0], r@[k])),
{
    let ghost start = oracle.log@;
    let mut out: Vec<i64> = Vec::new();
    while out.len() < rows.len()
        invariant
            rows_wf(rows@),
            out@.len() <= rows@.len(),
            oracle.log@ == start + Seq::new(out@.len(), |k: int| MergeEvent::Reduced(rows@[k]@[0], out@[k])),
        decreases rows.len() - out.len(),
    {
        assert(rows@[out@.len() as int]@.len() > 0);
        let ghost was = out@;
        let x: i64 = oracle.size_reduction(&rows[out.len()][0]);
        out.push(x);
        proof {
            assert(oracle.log@ =~= start + Seq::new(out@.len(), |k: int| MergeEvent::Reduced(rows@[k]@[0], out@[k])));
        }
    }
    out
}

/// The smallest number, where a guard is wanted and there are numbers.
fn floor_of(s: &Vec<i64>, guard: bool) -> (r: Option<i64>)
    ensures
        is_floor(s@, guard, r),
{
    if !guard || s.len() == 0 {
        return None;
    }
    let mut f: i64 = s[0];
    let mut i: usize = 1;
    assert(s@[0] == f);
    while i < s.len()
        invariant
            1 <= i <= s@.len(),
            s@.contains(f),
            forall|k: int| 0 <= k < i ==> f <= #[trigger] s@[k],
        decreases s.len() - i,
    {
        if s[i] < f {
            f = s[i];
            assert(s@[i as int] == f);
        }
        i += 1;
    }
    Some(f)
}

/// The reduction is not below the floor.
fn tail_safe(floor: Option<i64>, reduction: i64) -> (r: bool)
    ensures
        r == !barred(floor, reduction),
{
    match floor {
        Some(f) => reduction >= f,
        None => true,
    }
}

/// Every pair queued is of two active rows, in order.
spec fn queue_active(q: PairQueue, active: Seq<bool>) -> bool {
    forall|e: (i64, usize, usize)| #[trigger] q@.contains(e) ==> e.1 < e.2 < active.len() && active[e.1 as int] && active[e.2 as int]
}

/// How many rows are active.
spec fn active_count(active: Seq<bool>, k: int) -> nat
    decreases k,
{
    if k <= 0 {
        0
    } else {
        active_count(active, k - 1) + (if active[k - 1] {
            1nat
        } else {
            0nat
        })
    }
}

proof fn lemma_deactivate(active: Seq<bool>, j: int, k: int)
    requires
        0 <= j < active.len(),
        0 <= k <= active.len(),
        active[j],
    ensures
        active_count(active.update(j, false), k) == active_count(active, k) - (if j < k {
            1int
        } else {
            0
        }),
    decreases k,
{
    if k > 0 {
        lemma_deactivate(active, j, k - 1);
    }
}

proof fn lemma_all_active(active: Seq<bool>, k: int)
    requires
        0 <= k <= active.len(),
        forall|i: int| 0 <= i < active.len() ==> #[trigger] active[i],
    ensures
        active_count(active, k) == k,
    decreases k,
{
    if k > 0 {
        lemma_all_active(active, k - 1);
    }
}

/// The merge of the rows was turned down, or the pair is queued.
spec fn attended(log: Seq<MergeEvent>, start: int, rows: Seq<Vec<Clause>>, queue: PairQueue, i: int, j: int, floor: Option<i64>) -> bool {
    settled(log, start, rows, i, j, floor) || queue.queued((i as usize, j as usize))
}

proof fn lemma_attended_later(log: Seq<MergeEvent>, later: Seq<MergeEvent>, start: int, rows: Seq<Vec<Clause>>, q0: PairQueue, q1: PairQueue, i: int, j: int, floor: Option<i64>)
    requires
        extends(log, later),
        0 <= start,
        attended(log, start, rows, q0, i, j, floor),
        q0.queued((i as usize, j as usize)) ==> q1.queued((i as usize, j as usize)),
    ensures
        attended(later, start, rows, q1, i, j, floor),
{
    if settled(log, start, rows, i, j, floor) {
        lemma_settled_later(log, later, start, rows, i, j, floor);
    }
}

/// Ask what it is worth to merge two rows, and queue the pair where it pays.
fn offer_pair<O: MergeOracle>(rows: &Vec<Vec<Clause>>, active: &Vec<bool>, queue: &mut PairQueue, floor: Option<i64>, oracle: &mut Recalled<O>, a: usize, b: usize, Ghost(start): Ghost<int>, Ghost(from_event): Ghost<int>)
    requires
        rows_wf(rows@),
        active@.len() == rows@.len(),
        a < b < rows@.len(),
        active@[a as int],
        active@[b as int],
        old(queue).wf(),
        queue_active(*old(queue), active@),
        0 <= start < old(oracle).log@.len(),
        0 <= from_event,
        in_order(old(oracle).log@, from_event, floor),
        mirrors(*old(queue), standing(old(oracle).log@, floor, old(oracle).log@.len() as int)),
    ensures
        in_order(final(oracle).log@, from_event, floor),
        mirrors(*final(queue), standing(final(oracle).log@, floor, final(oracle).log@.len() as int)),
        final(queue).wf(),
        queue_active(*final(queue), active@),
        extends(old(oracle).log@, final(oracle).log@),
        attended(final(oracle).log@, start, rows@, *final(queue), a as int, b as int, floor),
        forall|key: (usize, usize)| old(queue).queued(key) ==> #[trigger] final(queue).queued(key),
{
    assert(rows@[a as int]@.len() > 0 && rows@[b as int]@.len() > 0);
    let ghost l0 = oracle.log@;
    let (_merged, reduction) = reduction_merge(&rows[a], &rows[b], oracle);
    let ghost l1 = oracle.log@;
    let answer = oracle.offer(a, b, reduction);
    let ghost l2 = oracle.log@;
    let ghost m1 = standing(l1, floor, l1.len() as int);
    let ghost m2 = standing(l2, floor, l2.len() as int);
    proof {
        lemma_quiet(l0, l1, from_event, floor);
        lemma_order_push(l1, l2, from_event, floor);
        lemma_standing_same(l1, l2, floor, l1.len() as int);
        lemma_best_later(l1, l1.len() as int, l2, l1.len() as int, rows@[a as int]@, rows@[b as int]@, reduction);
        assert(l2[l1.len() as int] == MergeEvent::Offered(a, b, reduction, answer));
        if answer is None || barred(floor, reduction) {
            assert(turns_down(l2[l1.len() as int], l2, l1.len() as int, rows@, a as int, b as int, floor));
            assert(settled(l2, start, rows@, a as int, b as int, floor));
        }
    }
    if tail_safe(floor, reduction) {
        match answer {
            Some(priority) => {
                let ghost q0 = *queue;
                queue.upsert((a, b), priority);
                proof {
                    assert forall|e: (i64, usize, usize)| #[trigger] queue@.contains(e) implies e.1 < e.2 < active@.len() && active@[e.1 as int] && active@[e.2 as int] by {
                        if e.1 != a || e.2 != b {
                            assert(q0@.contains(e));
                        }
                    }
                    assert forall|key: (usize, usize)| q0.queued(key) implies #[trigger] queue.queued(key) by {
                        lemma_upsert_keeps(q0, *queue, (a, b), priority, key);
                    }
                    lemma_listed_queued(*queue, priority, (a, b));
                    assert(m2 == m1.insert((a, b), priority));
                    assert forall|e: (i64, usize, usize)| #[trigger] queue@.contains(e) <==> (m2.dom().contains((e.1, e.2)) && m2[(e.1, e.2)] == e.0) by {
                        if e.1 == a && e.2 == b {
                            if queue@.contains(e) {
                                lemma_one_entry(*queue, e.0, priority, a, b);
                            }
                        } else {
                            assert(queue@.contains(e) <==> q0@.contains(e));
                        }
                    }
                }
            },
            None => {},
        }
    }
}

proof fn lemma_listed_queued(q: PairQueue, p: i64, key: (usize, usize))
    requires
        q@.contains((p, key.0, key.1)),
    ensures
        q.queued(key),
{
    let k = q@.index_of((p, key.0, key.1));
    assert(q@[k].1 == key.0);
}

proof fn lemma_upsert_keeps(q0: PairQueue, q: PairQueue, at: (usize, usize), p: i64, key: (usize, usize))
    requires
        q0.queued(key),
        q@.contains((p, at.0, at.1)),
        forall|e: (i64, usize, usize)| (e.1 != at.0 || e.2 != at.1) ==> (#[trigger] q@.contains(e) <==> q0@.contains(e)),
    ensures
        q.queued(key),
{
    if key == at {
        lemma_listed_queued(q, p, at);
    } else {
        let i = choose|i: int| 0 <= i < q0@.len() && (#[trigger] q0@[i]).1 == key.0 && q0@[i].2 == key.1;
        assert(q0@.contains(q0@[i]));
        assert(q@.contains(q0@[i]));
        lemma_listed_queued(q, q0@[i].0, key);
    }
}

/// Queue the merges of the row with the other active rows, from one on, that pay.
fn offer_row<O: MergeOracle>(rows: &Vec<Vec<Clause>>, active: &Vec<bool>, queue: &mut PairQueue, floor: Option<i64>, oracle: &mut Recalled<O>, i: usize, from: usize, Ghost(start): Ghost<int>, Ghost(from_event): Ghost<int>)
    requires
        rows_wf(rows@),
        active@.len() == rows@.len(),
        i < rows@.len(),
        from <= rows@.len(),
        active@[i as int],
        old(queue).wf(),
        queue_active(*old(queue), active@),
        0 <= start < old(oracle).log@.len(),
        0 <= from_event,
        in_order(old(oracle).log@, from_event, floor),
        mirrors(*old(queue), standing(old(oracle).log@, floor, old(oracle).log@.len() as int)),
    ensures
        in_order(final(oracle).log@, from_event, floor),
        mirrors(*final(queue), standing(final(oracle).log@, floor, final(oracle).log@.len() as int)),
        final(queue).wf(),
        queue_active(*final(queue), active@),
        extends(old(oracle).log@, final(oracle).log@),
        forall|key: (usize, usize)| old(queue).queued(key) ==> #[trigger] final(queue).queued(key),
        forall|j: int| i < j && from <= j < rows@.len() && active@[j] ==> #[trigger] attended(final(oracle).log@, start, rows@, *final(queue), i as int, j, floor),
{
    let ghost l0 = oracle.log@;
    let ghost q0 = *queue;
    let mut other: usize = from;
    while other < rows.len()
        invariant
            rows_wf(rows@),
            active@.len() == rows@.len(),
            i < rows@.len(),
            from <= other <= rows@.len(),
            active@[i as int],
            queue.wf(),
            queue_active(*queue, active@),
            0 <= start < l0.len(),
            extends(l0, oracle.log@),
            forall|key: (usize, usize)| q0.queued(key) ==> #[trigger] queue.queued(key),
            forall|j: int| i < j && from <= j < other && active@[j] ==> #[trigger] attended(oracle.log@, start, rows@, *queue, i as int, j, floor),
            0 <= from_event,
            in_order(oracle.log@, from_event, floor),
            mirrors(*queue, standing(oracle.log@, floor, oracle.log@.len() as int)),
        decreases rows.len() - other,
    {
        let ghost l1 = oracle.log@;
        let ghost q1 = *queue;
        if other != i && active[other] {
            let (a, b) = ordered_pair(i, other);
            offer_pair(rows, active, queue, floor, oracle, a, b, Ghost(start), Ghost(from_event));
        }
        proof {
            assert forall|j: int| i < j && from <= j < other + 1 && active@[j] implies #[trigger] attended(oracle.log@, start, rows@, *queue, i as int, j, floor) by {
                if j < other {
                    assert(attended(l1, start, rows@, q1, i as int, j, floor));
                    if q1.queued((i, j as usize)) {
                        assert(queue.queued((i, j as usize)));
                    }
                    lemma_attended_later(l1, oracle.log@, start, rows@, q1, *queue, i as int, j, floor);
                }
            }
        }
        other += 1;
    }
}

/// Take the pairs of a row with the active rows out of the queue.
fn drop_row(active: &Vec<bool>, queue: &mut PairQueue, row: usize, Ghost(was): Ghost<Seq<bool>>)
    requires
        row < active@.len(),
        was == active@.update(row as int, true),
        !active@[row as int],
        old(queue).wf(),
        queue_active(*old(queue), was),
    ensures
        final(queue).wf(),
        queue_active(*final(queue), active@),
        forall|e: (i64, usize, usize)| #[trigger] final(queue)@.contains(e) <==> (old(queue)@.contains(e) && e.1 != row && e.2 != row),
{
    let ghost q0 = *queue;
    let mut other: usize = 0;
    while other < active.len()
        invariant
            row < active@.len(),
            was == active@.update(row as int, true),
            !active@[row as int],
            other <= active@.len(),
            queue.wf(),
            queue_active(*queue, was),
            forall|e: (i64, usize, usize)| #[trigger] queue@.contains(e) ==> !(e.1 == row && e.2 < other) && !(e.2 == row && e.1 < other),
            q0 == *old(queue),
            forall|e: (i64, usize, usize)| #[trigger] queue@.contains(e) ==> q0@.contains(e),
            forall|e: (i64, usize, usize)| #[trigger] q0@.contains(e) && e.1 != row && e.2 != row ==> queue@.contains(e),
        decreases active.len() - other,
    {
        let ghost q1 = *queue;
        if active[other] {
            let key = ordered_pair(row, other);
            queue.remove(key);
            proof {
                assert forall|e: (i64, usize, usize)| #[trigger] queue@.contains(e) implies q1@.contains(e) && (e.1 != key.0 || e.2 != key.1) by {
                    if e.1 == key.0 && e.2 == key.1 {
                        let k = queue@.index_of(e);
                        assert(queue@[k].1 == key.0);
                    }
                }
                assert forall|e: (i64, usize, usize)| #[trigger] q0@.contains(e) && e.1 != row && e.2 != row implies queue@.contains(e) by {
                    assert(q1@.contains(e));
                }
                assert forall|e: (i64, usize, usize)| #[trigger] queue@.contains(e) implies !(e.1 == row && e.2 < other + 1) && !(e.2 == row && e.1 < other + 1) by {
                    assert(q1@.contains(e));
                    assert(e.1 < e.2);
                }
            }
        } else {
            proof {
                assert forall|e: (i64, usize, usize)| #[trigger] queue@.contains(e) implies !(e.1 == row && e.2 < other + 1) && !(e.2 == row && e.1 < other + 1) by {
                    assert(was[e.1 as int] && was[e.2 as int]);
                    assert(e.1 < e.2);
                }
            }
        }
        other += 1;
    }
    proof {
        assert forall|e: (i64, usize, usize)| #[trigger] queue@.contains(e) implies e.1 < e.2 < active@.len() && active@[e.1 as int] && active@[e.2 as int] by {
            assert(e.1 < e.2 < was.len());
            assert(e.1 != row && e.2 != row);
            assert(was[e.1 as int] && was[e.2 as int]);
        }
    }
}

/// The merged row hosts what the two rows hosted.
proof fn lemma_merge_hosts(rows: Seq<Vec<Clause>>, active: Seq<bool>, groups: Seq<Vec<Clause>>, i: int, j: int, row: Vec<Clause>)
    requires
        0 <= i < rows.len(),
        0 <= j < rows.len(),
        i != j,
        active.len() == rows.len(),
        active[i],
        active[j],
        hosted(rows, active, groups),
        row@.len() == 1,
        exists|a: int| 0 <= a < rows[i]@.len() && wider(row@[0], #[trigger] rows[i]@[a]),
        exists|b: int| 0 <= b < rows[j]@.len() && wider(row@[0], #[trigger] rows[j]@[b]),
    ensures
        hosted(rows.update(i, row), active.update(j, false), groups),
{
    let rows1 = rows.update(i, row);
    let active1 = active.update(j, false);
    assert forall|g: int| 0 <= g < groups.len() implies #[trigger] has_host(rows1, active1, groups[g]@) by {
        let group = groups[g]@;
        assert(has_host(rows, active, group));
        let k = choose|k: int| 0 <= k < rows.len() && active[k] && hosts((#[trigger] rows[k])@, group);
        if k == i || k == j {
            let a = choose|a: int| 0 <= a < rows[k]@.len() && wider(row@[0], #[trigger] rows[k]@[a]);
            assert(serves(rows[k]@[a], group));
            let c = choose|c: int| 0 <= c < group.len() && wider(rows[k]@[a], #[trigger] group[c]);
            assert(wider(row@[0], group[c]));
            assert(hosts(rows1[i]@, group));
        } else {
            assert(rows1[k] == rows[k]);
        }
    }
}

/// Merge the rows of a table greedily. Rows are merged while a merge is offered, the lowest
/// key first and of equal keys the lowest rows; with the guard no merge takes less off the problem than the weakest row did.
pub fn greedymerge_with_floor<O: MergeOracle>(groups: &Vec<Vec<Clause>>, initial: &Vec<i64>, oracle: &mut Recalled<O>, guard_tail: bool) -> (r: MergedRule)
    requires
        rows_wf(groups@),
        initial@.len() == groups@.len(),
    ensures
        r.clauses@.len() == r.branching_vector@.len(),
        r.clauses@.len() <= groups@.len(),
        forall|g: int| 0 <= g < groups@.len() ==> #[trigger] rule_serves(r.clauses@, groups@[g]@),
        guard_tail ==> above_floor(initial@, r.branching_vector@),
        extends(old(oracle).log@, final(oracle).log@),
        exists|floor: Option<i64>|
            #[trigger] is_floor(initial@, guard_tail, floor) && at_rest(final(oracle).log@, old(oracle).log@.len() as int, r.clauses@, r.branching_vector@, floor) && in_order(final(oracle).log@, old(oracle).log@.len() as int, floor),
{
    let ghost l0 = oracle.log@;
    let ghost mut start: int = 0;
    let floor = floor_of(initial, guard_tail);
    let mut rows: Vec<Vec<Clause>> = Vec::new();
    let mut reductions: Vec<i64> = Vec::new();
    while rows.len() < groups.len()
        invariant
            rows_wf(groups@),
            rows@.len() <= groups@.len(),
            initial@.len() == groups@.len(),
            reductions@.len() == rows@.len(),
            forall|k: int| 0 <= k < rows@.len() ==> (#[trigger] rows@[k])@ == groups@[k]@,
            forall|k: int| 0 <= k < rows@.len() ==> (#[trigger] reductions@[k]) == initial@[k],
        decreases groups.len() - rows.len(),
    {
        let k: usize = rows.len();
        rows.push(copy_clauses(&groups[k]));
        reductions.push(initial[k]);
    }
    proof {
        assert(rows_wf(rows@)) by {
            assert forall|k: int| 0 <= k < rows@.len() implies (#[trigger] rows@[k])@.len() > 0 by {
                assert(groups@[k]@.len() > 0);
            }
        }
        let all = Seq::new(rows@.len(), |k: int| true);
        assert forall|g: int| 0 <= g < groups@.len() implies #[trigger] has_host(rows@, all, groups@[g]@) by {
            assert forall|a: int| 0 <= a < rows@[g]@.len() implies serves(#[trigger] rows@[g]@[a], groups@[g]@) by {
                assert(wider(rows@[g]@[a], groups@[g]@[a]));
            }
            assert(hosts(rows@[g]@, groups@[g]@));
        }
        assert(hosted(rows@, all, groups@));
        if guard_tail {
            assert forall|k: int| 0 <= k < reductions@.len() implies some_at_most(initial@, #[trigger] reductions@[k]) by {
                assert(initial@[k] <= reductions@[k]);
            }
        }
    }
    let mut going = true;
    while going
        invariant
            initial@.len() == groups@.len(),
            is_floor(initial@, guard_tail, floor),
            rows_wf(rows@),
            rows@.len() <= groups@.len(),
            reductions@.len() == rows@.len(),
            hosted(rows@, Seq::new(rows@.len(), |k: int| true), groups@),
            guard_tail ==> above_floor(initial@, reductions@),
            extends(l0, oracle.log@),
            !going ==> l0.len() <= start && rests(oracle.log@, start, rows@, reductions@, floor),
            in_order(oracle.log@, l0.len() as int, floor),
            oracle.log@.len() > l0.len() ==> standing(oracle.log@, floor, oracle.log@.len() as int).dom() == Set::<(usize, usize)>::empty(),
        decreases rows@.len(), (if going { 1int } else { 0 }),
    {
        let ghost l1 = oracle.log@;
        let merged = merge_round(&mut rows, &mut reductions, oracle, floor, Ghost(groups@), Ghost(initial@), Ghost(guard_tail), Ghost(l0.len() as int));
        if !merged {
            going = false;
            proof {
                start = l1.len() as int;
            }
        }
    }
    let mut clauses: Vec<Clause> = Vec::new();
    while clauses.len() < rows.len()
        invariant
            rows_wf(rows@),
            clauses@.len() <= rows@.len(),
            forall|k: int| 0 <= k < clauses@.len() ==> (#[trigger] clauses@[k]) == rows@[k]@[0],
        decreases rows.len() - clauses.len(),
    {
        assert(rows@[clauses@.len() as int]@.len() > 0);
        clauses.push(rows[clauses.len()][0]);
    }
    proof {
        let all = Seq::new(rows@.len(), |k: int| true);
        assert forall|g: int| 0 <= g < groups@.len() implies #[trigger] rule_serves(clauses@, groups@[g]@) by {
            assert(has_host(rows@, all, groups@[g]@));
            let k = choose|k: int| 0 <= k < rows@.len() && all[k] && hosts((#[trigger] rows@[k])@, groups@[g]@);
            assert(rows@[k]@.len() > 0);
            assert(serves(rows@[k]@[0], groups@[g]@));
            assert(serves(clauses@[k], groups@[g]@));
        }
        assert(rests(oracle.log@, start, rows@, reductions@, floor));
        assert(at_rest(oracle.log@, l0.len() as int, clauses@, reductions@, floor)) by {
            assert forall|k: int| 0 <= k < rows@.len() implies (#[trigger] rows@[k])@.len() > 0 && rows@[k]@[0] == clauses@[k] by {
                assert(clauses@[k] == rows@[k]@[0]);
            }
        }
        assert(is_floor(initial@, guard_tail, floor));
    }
    MergedRule { clauses, branching_vector: reductions }
}

/// Some clause of the rule covers a clause of the group.
pub open spec fn rule_serves(rule: Seq<Clause>, group: Seq<Clause>) -> bool {
    exists|k: int| 0 <= k < rule.len() && serves(#[trigger] rule[k], group)
}

fn copy_clauses(s: &Vec<Clause>) -> (r: Vec<Clause>)
    ensures
        r@ == s@,
{
    let mut out: Vec<Clause> = Vec::new();
    while out.len() < s.len()
        invariant
            out@.len() <= s@.len(),
            forall|i: int| 0 <= i < out@.len() ==> #[trigger] out@[i] == s@[i],
        decreases s.len() - out.len(),
    {
        out.push(s[out.len()]);
    }
    assert(out@ =~= s@);
    out
}

/// One round: weigh all pairs anew and merge while a merge is offered. Returns whether any
/// rows were merged.
fn merge_round<O: MergeOracle>(rows: &mut Vec<Vec<Clause>>, reductions: &mut Vec<i64>, oracle: &mut Recalled<O>, floor: Option<i64>, Ghost(groups): Ghost<Seq<Vec<Clause>>>, Ghost(initial): Ghost<Seq<i64>>, Ghost(guard): Ghost<bool>, Ghost(from_event): Ghost<int>) -> (merged: bool)
    requires
        0 <= from_event <= old(oracle).log@.len(),
        in_order(old(oracle).log@, from_event, floor),
        old(oracle).log@.len() > from_event ==> standing(old(oracle).log@, floor, old(oracle).log@.len() as int).dom() == Set::<(usize, usize)>::empty(),
        is_floor(initial, guard, floor),
        initial.len() == groups.len(),
        old(rows)@.len() <= groups.len(),
        rows_wf(old(rows)@),
        old(reductions)@.len() == old(rows)@.len(),
        hosted(old(rows)@, Seq::new(old(rows)@.len(), |k: int| true), groups),
        guard ==> above_floor(initial, old(reductions)@),
    ensures
        rows_wf(final(rows)@),
        final(reductions)@.len() == final(rows)@.len(),
        hosted(final(rows)@, Seq::new(final(rows)@.len(), |k: int| true), groups),
        guard ==> above_floor(initial, final(reductions)@),
        merged ==> final(rows)@.len() < old(rows)@.len(),
        !merged ==> final(rows)@.len() == old(rows)@.len(),
        extends(old(oracle).log@, final(oracle).log@),
        !merged ==> rests(final(oracle).log@, old(oracle).log@.len() as int, final(rows)@, final(reductions)@, floor),
        in_order(final(oracle).log@, from_event, floor),
        final(oracle).log@.len() > from_event,
        standing(final(oracle).log@, floor, final(oracle).log@.len() as int).dom() == Set::<(usize, usize)>::empty(),
{
    let ghost l0 = oracle.log@;
    let ghost start = l0.len() as int;
    let ghost rows0 = rows@;
    let ghost red00 = reductions@;
    let n: usize = rows.len();
    let mut active: Vec<bool> = Vec::new();
    while active.len() < n
        invariant
            active@.len() <= n,
            forall|k: int| 0 <= k < active@.len() ==> #[trigger] active@[k],
        decreases n - active.len(),
    {
        active.push(true);
    }
    proof {
        lemma_all_active(active@, n as int);
        assert(active@ =~= Seq::new(rows@.len(), |k: int| true));
    }
    oracle.begin_round(reductions);
    let mut queue = PairQueue::new();
    proof {
        lemma_standing_same(l0, oracle.log@, floor, l0.len() as int);
        lemma_order_push(l0, oracle.log@, from_event, floor);
        assert(mirrors(queue, standing(oracle.log@, floor, oracle.log@.len() as int)));
    }
    let mut i: usize = 0;
    while i < n
        invariant
            n == rows@.len(),
            rows_wf(rows@),
            active@.len() == n,
            forall|k: int| 0 <= k < active@.len() ==> #[trigger] active@[k],
            i <= n,
            queue.wf(),
            queue_active(queue, active@),
            start == l0.len(),
            extends(l0.push(MergeEvent::Round(red00)), oracle.log@),
            forall|x: int, y: int| 0 <= x < i && x < y < n ==> #[trigger] attended(oracle.log@, start, rows@, queue, x, y, floor),
            0 <= from_event,
            in_order(oracle.log@, from_event, floor),
            mirrors(queue, standing(oracle.log@, floor, oracle.log@.len() as int)),
        decreases n - i,
    {
        let ghost l1 = oracle.log@;
        let ghost q1 = queue;
        offer_row(rows, &active, &mut queue, floor, oracle, i, i + 1, Ghost(start), Ghost(from_event));
        proof {
            assert forall|x: int, y: int| 0 <= x < i + 1 && x < y < n implies #[trigger] attended(oracle.log@, start, rows@, queue, x, y, floor) by {
                if x < i {
                    assert(attended(l1, start, rows@, q1, x, y, floor));
                    if q1.queued((x as usize, y as usize)) {
                        assert(queue.queued((x as usize, y as usize)));
                    }
                    lemma_attended_later(l1, oracle.log@, start, rows@, q1, queue, x, y, floor);
                } else {
                    assert(active@[y]);
                }
            }
        }
        i += 1;
    }
    let mut merged = false;
    while !queue.is_empty()
        invariant
            n == rows@.len(),
            active@.len() == n,
            rows_wf(rows@),
            reductions@.len() == n,
            queue.wf(),
            queue_active(queue, active@),
            hosted(rows@, active@, groups),
            is_floor(initial, guard, floor),
            initial.len() == groups.len(),
            n <= groups.len(),
            guard ==> above_floor(initial, reductions@),
            merged ==> active_count(active@, n as int) < n,
            !merged ==> active_count(active@, n as int) == n,
            start == l0.len(),
            extends(l0.push(MergeEvent::Round(red00)), oracle.log@),
            !merged ==> rows@ == rows0 && reductions@ == red00 && (forall|k: int| 0 <= k < n ==> #[trigger] active@[k]),
            !merged ==> forall|x: int, y: int| 0 <= x < y < n ==> #[trigger] attended(oracle.log@, start, rows@, queue, x, y, floor),
            0 <= from_event <= l0.len(),
            in_order(oracle.log@, from_event, floor),
            mirrors(queue, standing(oracle.log@, floor, oracle.log@.len() as int)),
        decreases active_count(active@, n as int), queue@.len(),
    {
        let ghost q0 = queue;
        match queue.pop_min() {
            None => {
                assert(false);
            },
            Some((i, j)) => {
                proof {
                    let e = choose|p: i64| #[trigger] q0@.contains((p, i, j)) && (forall|e: (i64, usize, usize)| #[trigger] q0@.contains(e) ==> e == (p, i, j) || sooner((p, i, j), e));
                    assert(q0@.contains((e, i, j)));
                    assert forall|e: (i64, usize, usize)| #[trigger] queue@.contains(e) implies e.1 < e.2 < active@.len() && active@[e.1 as int] && active@[e.2 as int] && (e.1 != i || e.2 != j) by {
                        if e.1 == i && e.2 == j {
                            let k = queue@.index_of(e);
                            assert(queue@[k].1 == i);
                            assert(queue.queued((i, j)));
                        } else {
                            assert(q0@.contains(e));
                        }
                    }
                }
                assert(rows@[i as int]@.len() > 0 && rows@[j as int]@.len() > 0);
                let ghost l1 = oracle.log@;
                let ghost q1 = queue;
                let ghost m = standing(l1, floor, l1.len() as int);
                proof {
                    lemma_popped_first(q0, m, i, j);
                }
                let (clause, reduction) = reduction_merge(&rows[i], &rows[j], oracle);
                proof {
                    lemma_quiet(l1, oracle.log@, from_event, floor);
                }
                if !tail_safe(floor, reduction) {
                    let ghost l2 = oracle.log@;
                    let answer = oracle.offer(i, j, reduction);
                    let ghost l4 = oracle.log@;
                    oracle.pass(Ghost(i), Ghost(j));
                    proof {
                        let l3 = oracle.log@;
                        lemma_standing_same(l2, l4, floor, l2.len() as int);
                        lemma_order_push(l2, l4, from_event, floor);
                        assert(standing(l4, floor, l4.len() as int) == m);
                        lemma_standing_same(l4, l3, floor, l4.len() as int);
                        lemma_order_push(l4, l3, from_event, floor);
                        assert forall|e: (i64, usize, usize)| #[trigger] queue@.contains(e) <==> (m.remove((i, j)).dom().contains((e.1, e.2)) && m.remove((i, j))[(e.1, e.2)] == e.0) by {
                            if e.1 != i || e.2 != j {
                                assert(queue@.contains(e) <==> q0@.contains(e));
                            }
                        }
                        lemma_best_later(l2, l2.len() as int, l3, l2.len() as int, rows@[i as int]@, rows@[j as int]@, reduction);
                        assert(l3[l2.len() as int] == MergeEvent::Offered(i, j, reduction, answer));
                        assert(turns_down(l3[l2.len() as int], l3, l2.len() as int, rows@, i as int, j as int, floor));
                        assert(settled(l3, start, rows@, i as int, j as int, floor));
                        if !merged {
                            assert forall|x: int, y: int| 0 <= x < y < n implies #[trigger] attended(l3, start, rows@, queue, x, y, floor) by {
                                if !(x == i && y == j) {
                                    assert(attended(l1, start, rows@, q0, x, y, floor));
                                    if q0.queued((x as usize, y as usize)) {
                                        lemma_popped_keeps(q0, queue, (i, j), (x as usize, y as usize));
                                    }
                                    lemma_attended_later(l1, l3, start, rows@, q0, queue, x, y, floor);
                                }
                            }
                        }
                    }
                } else {
                    let ghost a0 = active@;
                    let ghost r0 = rows@;
                    active.set(i, false);
                    assert(active@.update(i as int, true) =~= a0);
                    drop_row(&active, &mut queue, i, Ghost(a0));
                    let ghost a1 = active@;
                    active.set(j, false);
                    assert(active@.update(j as int, true) =~= a1);
                    drop_row(&active, &mut queue, j, Ghost(a1));
                    active.set(i, true);
                    let ghost a2 = active@;
                    proof {
                        assert(a2 =~= a0.update(j as int, false));
                        lemma_deactivate(a0, j as int, n as int);
                    }
                    let row = vec![clause];
                    proof {
                        lemma_merge_hosts(r0, a0, groups, i as int, j as int, row);
                    }
                    rows.set(i, row);
                    assert(rows@ =~= r0.update(i as int, row));
                    assert(rows_wf(rows@)) by {
                        assert forall|k: int| 0 <= k < rows@.len() implies (#[trigger] rows@[k])@.len() > 0 by {
                            if k != i {
                                assert(rows@[k] == r0[k]);
                            }
                        }
                    }
                    let ghost red0 = reductions@;
                    reductions.set(i, reduction);
                    proof {
                        if guard {
                            assert forall|k: int| 0 <= k < reductions@.len() implies some_at_most(initial, #[trigger] reductions@[k]) by {
                                if k != i {
                                    assert(reductions@[k] == red0[k]);
                                } else {
                                    let g = initial.index_of(floor->0);
                                    assert(initial[g] <= reduction);
                                }
                            }
                        }
                    }
                    let ghost l5 = oracle.log@;
                    oracle.replace(i, reduction, Ghost(j));
                    proof {
                        let l6 = oracle.log@;
                        lemma_standing_same(l5, l6, floor, l5.len() as int);
                        lemma_order_push(l5, l6, from_event, floor);
                        let left = standing(l6, floor, l6.len() as int);
                        assert forall|e: (i64, usize, usize)| #[trigger] queue@.contains(e) <==> (left.dom().contains((e.1, e.2)) && left[(e.1, e.2)] == e.0) by {
                            if e.1 != i && e.1 != j && e.2 != i && e.2 != j {
                                assert(queue@.contains(e) <==> q1@.contains(e));
                                assert(q1@.contains(e) <==> q0@.contains(e));
                            }
                        }
                    }
                    merged = true;
                    offer_row(rows, &active, &mut queue, floor, oracle, i, 0, Ghost(start), Ghost(from_event));
                }
            },
        }
    }
    let ghost left = rows@;
    proof {
        let m = standing(oracle.log@, floor, oracle.log@.len() as int);
        assert forall|key: (usize, usize)| !m.dom().contains(key) by {
            assert(!queue@.contains((m[key], key.0, key.1)));
        }
        assert(m.dom() =~= Set::<(usize, usize)>::empty());
    }
    compact(rows, reductions, &active, Ghost(groups), Ghost(initial), Ghost(guard));
    proof {
        if !merged {
            assert(reductions@ =~= red00);
            assert(oracle.log@[start] == MergeEvent::Round(red00));
            assert forall|x: int, y: int| 0 <= x < y < rows@.len() implies #[trigger] settled(oracle.log@, start, rows@, x, y, floor) by {
                assert(attended(oracle.log@, start, left, queue, x, y, floor));
                assert(settled(oracle.log@, start, left, x, y, floor));
                let p = choose|p: int| start < p < oracle.log@.len() && turns_down(#[trigger] oracle.log@[p], oracle.log@, p, left, x, y, floor);
                assert(rows@[x]@ == left[x]@ && rows@[y]@ == left[y]@);
                assert(turns_down(oracle.log@[p], oracle.log@, p, rows@, x, y, floor));
            }
        }
    }
    merged
}

/// The pair that is popped stands first.
proof fn lemma_popped_first(q0: PairQueue, m: Map<(usize, usize), i64>, i: usize, j: usize)
    requires
        mirrors(q0, m),
        exists|p: i64| #[trigger] q0@.contains((p, i, j)) && (forall|e: (i64, usize, usize)| #[trigger] q0@.contains(e) ==> e == (p, i, j) || sooner((p, i, j), e)),
    ensures
        stands_first(m, i, j),
{
    let p = choose|p: i64| #[trigger] q0@.contains((p, i, j)) && (forall|e: (i64, usize, usize)| #[trigger] q0@.contains(e) ==> e == (p, i, j) || sooner((p, i, j), e));
    assert(m[(i, j)] == p);
    assert forall|key: (usize, usize)| #[trigger] m.dom().contains(key) implies key == (i, j) || sooner((m[(i, j)], i, j), (m[key], key.0, key.1)) by {
        assert(q0@.contains((m[key], key.0, key.1)));
    }
}

proof fn lemma_popped_keeps(q0: PairQueue, q: PairQueue, at: (usize, usize), key: (usize, usize))
    requires
        q0.queued(key),
        key != at,
        forall|e: (i64, usize, usize)| (e.1 != at.0 || e.2 != at.1) ==> (#[trigger] q@.contains(e) <==> q0@.contains(e)),
    ensures
        q.queued(key),
{
    let i = choose|i: int| 0 <= i < q0@.len() && (#[trigger] q0@[i]).1 == key.0 && q0@[i].2 == key.1;
    assert(q0@.contains(q0@[i]));
    assert(q@.contains(q0@[i]));
    lemma_listed_queued(q, q0@[i].0, key);
}

/// Keep the active rows.
fn compact(rows: &mut Vec<Vec<Clause>>, reductions: &mut Vec<i64>, active: &Vec<bool>, Ghost(groups): Ghost<Seq<Vec<Clause>>>, Ghost(initial): Ghost<Seq<i64>>, Ghost(guard): Ghost<bool>)
    requires
        rows_wf(old(rows)@),
        active@.len() == old(rows)@.len(),
        old(reductions)@.len() == old(rows)@.len(),
        hosted(old(rows)@, active@, groups),
        guard ==> above_floor(initial, old(reductions)@),
    ensures
        rows_wf(final(rows)@),
        final(rows)@.len() == active_count(active@, active@.len() as int),
        final(reductions)@.len() == final(rows)@.len(),
        hosted(final(rows)@, Seq::new(final(rows)@.len(), |k: int| true), groups),
        guard ==> above_floor(initial, final(reductions)@),
        (forall|k: int| 0 <= k < active@.len() ==> #[trigger] active@[k]) ==> {
            &&& final(rows)@.len() == old(rows)@.len()
            &&& forall|k: int| 0 <= k < final(rows)@.len() ==> (#[trigger] final(rows)@[k])@ == old(rows)@[k]@
            &&& final(reductions)@ == old(reductions)@
        },
{
    let ghost r0 = rows@;
    let ghost n = active@.len() as int;
    let ghost whole = forall|k: int| 0 <= k < active@.len() ==> #[trigger] active@[k];
    let mut kept: Vec<Vec<Clause>> = Vec::new();
    let mut left: Vec<i64> = Vec::new();
    let mut k: usize = 0;
    while k < active.len()
        invariant
            rows@ == r0,
            rows_wf(r0),
            n == active@.len() == r0.len(),
            reductions@.len() == n,
            k <= n,
            guard ==> above_floor(initial, reductions@),
            rows_wf(kept@),
            kept@.len() == active_count(active@, k as int),
            left@.len() == kept@.len(),
            forall|q: int| 0 <= q < k && active@[q] ==> #[trigger] kept_row(kept@, r0[q]@),
            guard ==> above_floor(initial, left@),
            whole == (forall|k: int| 0 <= k < active@.len() ==> #[trigger] active@[k]),
            whole ==> kept@.len() == k && (forall|q: int| 0 <= q < k ==> (#[trigger] kept@[q])@ == r0[q]@ && left@[q] == reductions@[q]),
        decreases n - k,
    {
        if active[k] {
            let ghost k0 = kept@;
            let ghost l0 = left@;
            let row = copy_clauses(&rows[k]);
            kept.push(row);
            left.push(reductions[k]);
            proof {
                assert(r0[k as int]@.len() > 0);
                assert forall|q: int| 0 <= q < k + 1 && active@[q] implies #[trigger] kept_row(kept@, r0[q]@) by {
                    if q < k {
                        assert(kept_row(k0, r0[q]@));
                        let x = choose|x: int| 0 <= x < k0.len() && (#[trigger] k0[x])@ == r0[q]@;
                        assert(kept@[x] == k0[x]);
                    } else {
                        assert(kept@[k0.len() as int]@ == r0[q]@);
                    }
                }
                assert forall|q: int| 0 <= q < kept@.len() implies (#[trigger] kept@[q])@.len() > 0 by {
                    if q < k0.len() {
                        assert(kept@[q] == k0[q]);
                    }
                }
                if guard {
                    assert forall|q: int| 0 <= q < left@.len() implies some_at_most(initial, #[trigger] left@[q]) by {
                        if q < l0.len() {
                            assert(left@[q] == l0[q]);
                        } else {
                            assert(some_at_most(initial, reductions@[k as int]));
                        }
                    }
                }
            }
        }
        k += 1;
    }
    proof {
        let all = Seq::new(kept@.len(), |k: int| true);
        assert forall|g: int| 0 <= g < groups.len() implies #[trigger] has_host(kept@, all, groups[g]@) by {
            assert(has_host(r0, active@, groups[g]@));
            let q = choose|q: int| 0 <= q < r0.len() && active@[q] && hosts((#[trigger] r0[q])@, groups[g]@);
            assert(kept_row(kept@, r0[q]@));
            let x = choose|x: int| 0 <= x < kept@.len() && (#[trigger] kept@[x])@ == r0[q]@;
            assert(hosts(kept@[x]@, groups[g]@));
        }
        if whole {
            assert(left@ =~= reductions@) by {
                assert forall|q: int| 0 <= q < left@.len() implies left@[q] == reductions@[q] by {
                    assert(kept@[q]@ == r0[q]@);
                }
            }
        }
    }
    *rows = kept;
    *reductions = left;
}

/// The row is among those kept.
spec fn kept_row(kept: Seq<Vec<Clause>>, row: Seq<Clause>) -> bool {
    exists|x: int| 0 <= x < kept.len() && (#[trigger] kept[x])@ == row
}

/// Merge a branching table while preserving its smallest reduction.
pub fn tail_greedymerge<O: MergeOracle>(groups: &Vec<Vec<Clause>>, oracle: &mut Recalled<O>) -> (r: (MergedRule, Vec<i64>))
    requires
        rows_wf(groups@),
    ensures
        r.1@.len() == groups@.len(),
        r.0.clauses@.len() == r.0.branching_vector@.len(),
        forall|g: int| 0 <= g < groups@.len() ==> #[trigger] rule_serves(r.0.clauses@, groups@[g]@),
        above_floor(r.1@, r.0.branching_vector@),
        forall|k: int| 0 <= k < groups@.len() ==> weighed(final(oracle).log@, final(oracle).log@.len() as int, (#[trigger] groups@[k])@[0], r.1@[k]),
        exists|floor: Option<i64>|
            #[trigger] is_floor(r.1@, true, floor) && at_rest(final(oracle).log@, old(oracle).log@.len() as int, r.0.clauses@, r.0.branching_vector@, floor) && in_order(final(oracle).log@, old(oracle).log@.len() + groups@.len() as int, floor),
{
    let ghost l0 = oracle.log@;
    let initial = row_reductions(groups, oracle);
    let ghost l1 = oracle.log@;
    let rule = greedymerge_with_floor(groups, &initial, oracle, true);
    proof {
        assert forall|k: int| 0 <= k < groups@.len() implies weighed(oracle.log@, oracle.log@.len() as int, (#[trigger] groups@[k])@[0], initial@[k]) by {
            assert(l1[l0.len() + k] == MergeEvent::Reduced(groups@[k]@[0], initial@[k]));
            assert(oracle.log@[l0.len() + k] == l1[l0.len() + k]);
        }
        let floor = choose|floor: Option<i64>|
            #[trigger] is_floor(initial@, true, floor) && at_rest(oracle.log@, l1.len() as int, rule.clauses@, rule.branching_vector@, floor) && in_order(oracle.log@, l1.len() as int, floor);
        let (rows, start) = choose|rows: Seq<Vec<Clause>>, start: int|
            {
                &&& l1.len() <= start
                &&& #[trigger] rests(oracle.log@, start, rows, rule.branching_vector@, floor)
                &&& rows.len() == rule.clauses@.len()
                &&& forall|k: int| 0 <= k < rows.len() ==> (#[trigger] rows[k])@.len() > 0 && rows[k]@[0] == rule.clauses@[k]
            };
        assert(rests(oracle.log@, start, rows, rule.branching_vector@, floor));
        assert(at_rest(oracle.log@, l0.len() as int, rule.clauses@, rule.branching_vector@, floor));
    }
    (rule, initial)
}

} // verus!
