//! The undo log of an in-place search.
use vstd::prelude::*;

use crate::ct::RSparseBitSet;
use crate::domain::DomainMask;

verus! {

/// One reversible write: the place and its old content.
enum Undo {
    Dom { var: usize, was: DomainMask },
    Word { table: usize, word: usize, bits: u64 },
    Limit { table: usize, limit: u32 },
}

/// The contents of a live-row set: its words and its limit.
pub type TableView = (Seq<u64>, u32);

/// What a search writes to: domains and live-row sets.
pub type State = (Seq<DomainMask>, Seq<TableView>);

/// The contents of the live-row sets.
pub open spec fn frozen(tables: Seq<RSparseBitSet>) -> Seq<TableView> {
    Seq::new(tables.len(), |t: int| (tables[t].words@, tables[t].limit))
}

/// The number of domains, and the number of words of each live-row set.
pub open spec fn shape(s: State) -> (nat, Seq<nat>) {
    (s.0.len(), Seq::new(s.1.len(), |t: int| s.1[t].0.len()))
}

/// The state with one domain put back.
pub open spec fn put_dom(s: State, var: int, was: DomainMask) -> State {
    (s.0.update(var, was), s.1)
}

/// The state with one word put back.
pub open spec fn put_word(s: State, table: int, word: int, was: u64) -> State {
    (s.0, s.1.update(table, (s.1[table].0.update(word, was), s.1[table].1)))
}

/// The state with one limit put back.
pub open spec fn put_limit(s: State, table: int, was: u32) -> State {
    (s.0, s.1.update(table, (s.1[table].0, was)))
}

/// The state before the write.
spec fn undone(u: Undo, s: State) -> State {
    match u {
        Undo::Dom { var, was } => put_dom(s, var as int, was),
        Undo::Word { table, word, bits } => put_word(s, table as int, word as int, bits),
        Undo::Limit { table, limit } => put_limit(s, table as int, limit),
    }
}

/// The place of the write exists.
spec fn in_range(u: Undo, sh: (nat, Seq<nat>)) -> bool {
    match u {
        Undo::Dom { var, was } => var < sh.0,
        Undo::Word { table, word, bits } => table < sh.1.len() && word < sh.1[table as int],
        Undo::Limit { table, limit } => table < sh.1.len(),
    }
}

/// The state before all writes from `mark` on.
spec fn unwound(entries: Seq<Undo>, mark: int, s: State) -> State
    decreases entries.len(),
{
    if entries.len() <= mark || entries.len() == 0 {
        s
    } else {
        unwound(entries.drop_last(), mark, undone(entries.last(), s))
    }
}

/// A call that changes a trail.
pub enum Call {
    Open,
    Record,
    Clear,
    Restore,
}

/// What a call does to the epoch: opening and undoing a scope raise it by one, up to the largest
/// number, and nothing else changes it.
pub open spec fn ages(call: Call, t0: Trail, t1: Trail) -> bool {
    match call {
        Call::Open | Call::Restore => t1.age() >= t0.age() && (t0.age() < u64::MAX ==> t1.age() == t0.age() + 1),
        Call::Record | Call::Clear => t1.age() == t0.age(),
    }
}

/// What going back to a depth does: the state is the one before all writes from there on, and no
/// deeper writes are recorded.
pub open spec fn restored(mark: int, t0: Trail, s0: State, t1: Trail, s1: State) -> bool {
    &&& s1 == t0.before(mark, s0)
    &&& mark <= t0.depth() ==> t1.depth() == mark
    &&& ages(Call::Restore, t0, t1)
}

/// Undo log: the old content of every place written to, latest last. The epoch grows with
/// every scope that is opened or undone.
pub struct Trail {
    entries: Vec<Undo>,
    epoch: u64,
}

impl Trail {
    /// The number of writes recorded.
    pub closed spec fn depth(self) -> nat {
        self.entries@.len()
    }

    /// The epoch.
    pub closed spec fn age(self) -> u64 {
        self.epoch
    }

    /// The state before all writes from `mark` on, if `s` is the present one.
    pub closed spec fn before(self, mark: int, s: State) -> State {
        unwound(self.entries@, mark, s)
    }

    /// Every place recorded exists in a state of that shape.
    pub closed spec fn fits(self, sh: (nat, Seq<nat>)) -> bool {
        forall|i: int| 0 <= i < self.entries@.len() ==> in_range(#[trigger] self.entries@[i], sh)
    }

    /// An empty log.
    pub fn new() -> (r: Trail)
        ensures
            r.depth() == 0,
            r.age() == 1,
            forall|sh: (nat, Seq<nat>)| #[trigger] r.fits(sh),
    {
        Trail { entries: Vec::new(), epoch: 1 }
    }

    /// The present depth, to come back to.
    pub fn mark(&self) -> (r: usize)
        ensures
            r == self.depth(),
            forall|s: State| #[trigger] self.before(r as int, s) == s,
    {
        self.entries.len()
    }

    /// The epoch.
    pub fn epoch(&self) -> (r: u64)
        ensures
            r == self.age(),
    {
        self.epoch
    }

    /// Enter a new scope.
    pub fn open(&mut self) -> (r: u64)
        ensures
            r == final(self).age(),
            old(self).age() < u64::MAX ==> r == old(self).age() + 1,
            ages(Call::Open, *old(self), *final(self)),
            final(self).depth() == old(self).depth(),
            final(self).same_log(*old(self)),
    {
        if self.epoch < u64::MAX {
            self.epoch = self.epoch + 1;
        }
        self.epoch
    }

    /// The two logs undo the same writes.
    pub open spec fn same_log(self, other: Trail) -> bool {
        &&& self.depth() == other.depth()
        &&& forall|mark: int, s: State| #[trigger] self.before(mark, s) == other.before(mark, s)
        &&& forall|sh: (nat, Seq<nat>)| #[trigger] self.fits(sh) == other.fits(sh)
    }

    /// Record the domain of `var` before a write to it.
    pub fn record_dom(&mut self, var: usize, was: DomainMask)
        ensures
            final(self).age() == old(self).age(),
            ages(Call::Record, *old(self), *final(self)),
            final(self).depth() == old(self).depth() + 1,
            forall|mark: int, s: State| mark <= old(self).depth() ==> #[trigger] final(self).before(mark, s) == old(self).before(mark, put_dom(s, var as int, was)),
            forall|sh: (nat, Seq<nat>)| #[trigger] final(self).fits(sh) == (old(self).fits(sh) && var < sh.0),
    {
        self.entries.push(Undo::Dom { var, was });
        proof {
            self.lemma_pushed(*old(self), Undo::Dom { var, was });
        }
    }

    /// Record a word of a live-row set before a write to it.
    pub fn record_word(&mut self, table: usize, word: usize, bits: u64)
        ensures
            final(self).age() == old(self).age(),
            ages(Call::Record, *old(self), *final(self)),
            final(self).depth() == old(self).depth() + 1,
            forall|mark: int, s: State| mark <= old(self).depth() ==> #[trigger] final(self).before(mark, s) == old(self).before(mark, put_word(s, table as int, word as int, bits)),
            forall|sh: (nat, Seq<nat>)| #[trigger] final(self).fits(sh) == (old(self).fits(sh) && table < sh.1.len() && word < sh.1[table as int]),
    {
        self.entries.push(Undo::Word { table, word, bits });
        proof {
            self.lemma_pushed(*old(self), Undo::Word { table, word, bits });
        }
    }

    /// Record the limit of a live-row set before a write to it.
    pub fn record_limit(&mut self, table: usize, limit: u32)
        ensures
            final(self).age() == old(self).age(),
            ages(Call::Record, *old(self), *final(self)),
            final(self).depth() == old(self).depth() + 1,
            forall|mark: int, s: State| mark <= old(self).depth() ==> #[trigger] final(self).before(mark, s) == old(self).before(mark, put_limit(s, table as int, limit)),
            forall|sh: (nat, Seq<nat>)| #[trigger] final(self).fits(sh) == (old(self).fits(sh) && table < sh.1.len()),
    {
        self.entries.push(Undo::Limit { table, limit });
        proof {
            self.lemma_pushed(*old(self), Undo::Limit { table, limit });
        }
    }

    proof fn lemma_pushed(self, before: Trail, u: Undo)
        requires
            self.entries@ == before.entries@.push(u),
        ensures
            forall|mark: int, s: State| mark <= before.depth() ==> #[trigger] self.before(mark, s) == before.before(mark, undone(u, s)),
            forall|sh: (nat, Seq<nat>)| #[trigger] self.fits(sh) == (before.fits(sh) && in_range(u, sh)),
    {
        assert(self.entries@.drop_last() =~= before.entries@);
        assert(self.entries@.last() == u);
        assert forall|sh: (nat, Seq<nat>)| #[trigger] self.fits(sh) == (before.fits(sh) && in_range(u, sh)) by {
            if self.fits(sh) {
                assert forall|i: int| 0 <= i < before.entries@.len() implies in_range(#[trigger] before.entries@[i], sh) by {
                    assert(self.entries@[i] == before.entries@[i]);
                }
                assert(in_range(self.entries@[before.entries@.len() as int], sh));
            }
        }
    }

    /// Undo all writes from `mark` on, latest first.
    pub fn restore_to(&mut self, mark: usize, doms: &mut Vec<DomainMask>, tables: &mut Vec<RSparseBitSet>)
        requires
            old(self).fits(shape((old(doms)@, frozen(old(tables)@)))),
        ensures
            (final(doms)@, frozen(final(tables)@)) == old(self).before(mark as int, (old(doms)@, frozen(old(tables)@))),
            shape((final(doms)@, frozen(final(tables)@))) == shape((old(doms)@, frozen(old(tables)@))),
            final(self).depth() == (if mark <= old(self).depth() {
                mark as nat
            } else {
                old(self).depth()
            }),
            forall|k: int, s: State| k <= mark ==> #[trigger] old(self).before(k, s) == final(self).before(k, old(self).before(mark as int, s)),
            forall|sh: (nat, Seq<nat>)| old(self).fits(sh) ==> #[trigger] final(self).fits(sh),
            old(self).age() < u64::MAX ==> final(self).age() == old(self).age() + 1,
            final(self).age() >= old(self).age(),
            restored(mark as int, *old(self), (old(doms)@, frozen(old(tables)@)), *final(self), (final(doms)@, frozen(final(tables)@))),
    {
        let ghost s0: State = (doms@, frozen(tables@));
        let ghost e0 = self.entries@;
        let ghost sh = shape(s0);
        proof {
            lemma_unwound_base(e0, e0.len() as int);
        }
        while self.entries.len() > mark
            invariant
                self.epoch == old(self).epoch,
                e0 == old(self).entries@,
                s0 == (old(doms)@, frozen(old(tables)@)),
                sh == shape(s0),
                shape((doms@, frozen(tables@))) == sh,
                forall|i: int| 0 <= i < self.entries@.len() ==> in_range(#[trigger] self.entries@[i], sh),
                self.entries@.len() <= e0.len(),
                self.entries@.len() >= mark || self.entries@ == e0,
                self.entries@ == e0.take(self.entries@.len() as int),
                unwound(e0, mark as int, s0) == unwound(self.entries@, mark as int, (doms@, frozen(tables@))),
                forall|k: int, s: State| k <= self.entries@.len() ==> #[trigger] unwound(e0, k, s) == unwound(self.entries@, k, unwound(e0, self.entries@.len() as int, s)),
            decreases self.entries.len(),
        {
            let ghost entries = self.entries@;
            let ghost s: State = (doms@, frozen(tables@));
            let ghost u = entries.last();
            proof {
                assert(in_range(entries[entries.len() - 1], sh));
            }
            match self.entries.pop() {
                Some(Undo::Dom { var, was }) => {
                    doms.set(var, was);
                    assert(frozen(tables@) =~= s.1);
                },
                Some(Undo::Word { table, word, bits }) => {
                    assert(sh.1[table as int] == tables@[table as int].words@.len());
                    tables[table].words.set(word, bits);
                    assert(frozen(tables@) =~= put_word(s, table as int, word as int, bits).1);
                },
                Some(Undo::Limit { table, limit }) => {
                    tables[table].limit = limit;
                    assert(frozen(tables@) =~= put_limit(s, table as int, limit).1);
                },
                None => {},
            }
            proof {
                assert((doms@, frozen(tables@)) == undone(u, s));
                assert(shape((doms@, frozen(tables@))).1 =~= sh.1);
                assert(self.entries@ =~= e0.take(self.entries@.len() as int));
                assert forall|i: int| 0 <= i < self.entries@.len() implies in_range(#[trigger] self.entries@[i], sh) by {
                    assert(self.entries@[i] == entries[i]);
                }
                assert forall|k: int, s: State| k <= self.entries@.len() implies #[trigger] unwound(e0, k, s) == unwound(self.entries@, k, unwound(e0, self.entries@.len() as int, s)) by {
                    let full = entries.len() as int;
                    assert(unwound(e0, k, s) == unwound(entries, k, unwound(e0, full, s)));
                    assert(unwound(e0, full - 1, s) == unwound(entries, full - 1, unwound(e0, full, s)));
                    let x = unwound(e0, full, s);
                    assert(entries.drop_last() =~= self.entries@);
                    assert(unwound(entries, full - 1, x) == unwound(self.entries@, full - 1, undone(u, x)));
                    assert(unwound(self.entries@, full - 1, undone(u, x)) == undone(u, x));
                }
            }
        }
        proof {
            if self.entries@.len() != mark {
                assert(self.entries@ == e0);
                assert forall|k: int, s: State| k <= mark implies #[trigger] unwound(e0, k, s) == unwound(self.entries@, k, unwound(e0, mark as int, s)) by {
                    assert(unwound(e0, mark as int, s) == s);
                }
            }
        }
        if self.epoch < u64::MAX {
            self.epoch = self.epoch + 1;
        }
        proof {
            let b = self.entries@;
            assert forall|k: int, s: State| k <= mark implies #[trigger] old(self).before(k, s) == self.before(k, old(self).before(mark as int, s)) by {
                assert(unwound(e0, k, s) == unwound(b, k, unwound(e0, mark as int, s)));
            }
            assert forall|sh: (nat, Seq<nat>)| old(self).fits(sh) implies #[trigger] self.fits(sh) by {
                assert forall|i: int| 0 <= i < self.entries@.len() implies in_range(#[trigger] self.entries@[i], sh) by {
                    assert(self.entries@[i] == e0[i]);
                }
            }
        }
    }

    /// Forget all recorded writes; the epoch stays.
    pub fn clear(&mut self)
        ensures
            final(self).depth() == 0,
            final(self).age() == old(self).age(),
            ages(Call::Clear, *old(self), *final(self)),
            forall|sh: (nat, Seq<nat>)| #[trigger] final(self).fits(sh),
    {
        self.entries.clear();
    }
}

proof fn lemma_unwound_base(entries: Seq<Undo>, mark: int)
    requires
        mark >= entries.len(),
    ensures
        forall|s: State| #[trigger] unwound(entries, mark, s) == s,
        forall|k: int, s: State| k <= entries.len() ==> #[trigger] unwound(entries, k, s) == unwound(entries, k, unwound(entries, mark, s)),
{
}

impl Default for Trail {
    fn default() -> (r: Trail)
        ensures
            r.depth() == 0,
            r.age() == 1,
    {
        Trail::new()
    }
}

/// A write to one place, recorded with what stood there before.
pub open spec fn records(t0: Trail, s0: State, t1: Trail, s1: State) -> bool {
    ||| exists|var: int, x: DomainMask| #[trigger]
        put_dom(s0, var, x) == s1 && 0 <= var < s0.0.len() && t1.depth() == t0.depth() + 1 && (forall|mark: int, s: State|
            mark <= t0.depth() ==> #[trigger] t1.before(mark, s) == t0.before(mark, put_dom(s, var, s0.0[var])))
    ||| exists|table: int, word: int, x: u64| #[trigger]
        put_word(s0, table, word, x) == s1 && 0 <= table < s0.1.len() && 0 <= word < s0.1[table].0.len() && t1.depth() == t0.depth() + 1 && (forall|mark: int, s: State|
            mark <= t0.depth() ==> #[trigger] t1.before(mark, s) == t0.before(mark, put_word(s, table, word, s0.1[table].0[word])))
    ||| exists|table: int, x: u32| #[trigger]
        put_limit(s0, table, x) == s1 && 0 <= table < s0.1.len() && t1.depth() == t0.depth() + 1 && (forall|mark: int, s: State|
            mark <= t0.depth() ==> #[trigger] t1.before(mark, s) == t0.before(mark, put_limit(s, table, s0.1[table].1)))
}

proof fn lemma_recorded(t0: Trail, s0: State, t1: Trail, s1: State, mark: int)
    requires
        records(t0, s0, t1, s1),
        mark <= t0.depth(),
    ensures
        t1.before(mark, s1) == t0.before(mark, s0),
        t1.depth() == t0.depth() + 1,
{
    if exists|var: int, x: DomainMask| #[trigger]
        put_dom(s0, var, x) == s1 && 0 <= var < s0.0.len() && t1.depth() == t0.depth() + 1 && (forall|mark: int, s: State|
            mark <= t0.depth() ==> #[trigger] t1.before(mark, s) == t0.before(mark, put_dom(s, var, s0.0[var]))) {
        let (var, x) = choose|var: int, x: DomainMask| #[trigger]
            put_dom(s0, var, x) == s1 && 0 <= var < s0.0.len() && t1.depth() == t0.depth() + 1 && (forall|mark: int, s: State|
                mark <= t0.depth() ==> #[trigger] t1.before(mark, s) == t0.before(mark, put_dom(s, var, s0.0[var])));
        assert(t1.before(mark, s1) == t0.before(mark, put_dom(s1, var, s0.0[var])));
        assert(put_dom(s1, var, s0.0[var]).0 =~= s0.0);
    } else if exists|table: int, word: int, x: u64| #[trigger]
        put_word(s0, table, word, x) == s1 && 0 <= table < s0.1.len() && 0 <= word < s0.1[table].0.len() && t1.depth() == t0.depth() + 1 && (forall|mark: int, s: State|
            mark <= t0.depth() ==> #[trigger] t1.before(mark, s) == t0.before(mark, put_word(s, table, word, s0.1[table].0[word]))) {
        let (table, word, x) = choose|table: int, word: int, x: u64| #[trigger]
            put_word(s0, table, word, x) == s1 && 0 <= table < s0.1.len() && 0 <= word < s0.1[table].0.len() && t1.depth() == t0.depth() + 1 && (forall|mark: int, s: State|
                mark <= t0.depth() ==> #[trigger] t1.before(mark, s) == t0.before(mark, put_word(s, table, word, s0.1[table].0[word])));
        let w = s0.1[table].0[word];
        assert(t1.before(mark, s1) == t0.before(mark, put_word(s1, table, word, w)));
        assert(s1.1[table].0.update(word, w) =~= s0.1[table].0);
        assert(put_word(s1, table, word, w).1 =~= s0.1);
    } else {
        let (table, x) = choose|table: int, x: u32| #[trigger]
            put_limit(s0, table, x) == s1 && 0 <= table < s0.1.len() && t1.depth() == t0.depth() + 1 && (forall|mark: int, s: State|
                mark <= t0.depth() ==> #[trigger] t1.before(mark, s) == t0.before(mark, put_limit(s, table, s0.1[table].1)));
        let l = s0.1[table].1;
        assert(t1.before(mark, s1) == t0.before(mark, put_limit(s1, table, l)));
        assert(put_limit(s1, table, l).1 =~= s0.1);
    }
}

/// The log undoes a row of recorded writes, however many they are.
proof fn lemma_all_undone(trails: Seq<Trail>, states: Seq<State>)
    requires
        trails.len() == states.len(),
        trails.len() > 0,
        forall|s: State| #[trigger] trails[0].before(trails[0].depth() as int, s) == s,
        forall|i: int|
            0 <= i < trails.len() - 1 ==> records(#[trigger] trails[i], states[i], trails[i + 1], states[i + 1]) || (trails[i + 1].same_log(trails[i]) && states[i + 1] == states[i]),
    ensures
        trails.last().before(trails[0].depth() as int, states.last()) == states[0],
        trails.last().depth() >= trails[0].depth(),
    decreases trails.len(),
{
    let n = trails.len() - 1;
    let mark = trails[0].depth() as int;
    if n > 0 {
        let t = trails.drop_last();
        let s = states.drop_last();
        assert forall|i: int| 0 <= i < t.len() - 1 implies records(#[trigger] t[i], s[i], t[i + 1], s[i + 1]) || (t[i + 1].same_log(t[i]) && s[i + 1] == s[i]) by {
            assert(t[i] == trails[i]);
        }
        lemma_all_undone(t, s);
        let k = n - 1;
        assert(trails[k] == t.last());
        if records(trails[k], states[k], trails[k + 1], states[k + 1]) {
            lemma_recorded(trails[k], states[k], trails[k + 1], states[k + 1], mark);
        } else {
            assert(trails[k + 1].before(mark, states[k]) == trails[k].before(mark, states[k]));
        }
    }
}

/// Restoring to a mark undoes all writes recorded since, however many they are and whether or not
/// they hit the same places: the state is the one at the mark, the log is as deep as there, and the
/// epoch is a new one. New scopes may be opened between the writes.
pub proof fn law_restoring_undoes_all_writes(trails: Seq<Trail>, states: Seq<State>, after: Trail, end: State)
    requires
        trails.len() == states.len(),
        trails.len() > 0,
        forall|s: State| #[trigger] trails[0].before(trails[0].depth() as int, s) == s,
        forall|i: int|
            0 <= i < trails.len() - 1 ==> records(#[trigger] trails[i], states[i], trails[i + 1], states[i + 1]) || (trails[i + 1].same_log(trails[i]) && states[i + 1] == states[i]),
        restored(trails[0].depth() as int, trails.last(), states.last(), after, end),
    ensures
        end == states[0],
        after.depth() == trails[0].depth(),
        trails.last().age() < u64::MAX ==> after.age() > trails.last().age(),
{
    lemma_all_undone(trails, states);
}

/// Over any history of calls the epoch never goes back, and one that is opened is later than every
/// earlier one: none is used again, also not after restoring or clearing.
pub proof fn law_epochs_are_never_reused(trails: Seq<Trail>, calls: Seq<Call>, i: int, j: int)
    requires
        calls.len() + 1 == trails.len(),
        forall|k: int| 0 <= k < calls.len() ==> ages(#[trigger] calls[k], trails[k], trails[k + 1]),
        forall|k: int| 0 <= k < trails.len() ==> (#[trigger] trails[k]).age() < u64::MAX,
        0 <= i <= j < trails.len(),
    ensures
        trails[i].age() <= trails[j].age(),
        i < j && calls[j - 1] == Call::Open ==> trails[i].age() < trails[j].age(),
    decreases j - i,
{
    if i < j {
        law_epochs_are_never_reused(trails, calls, i, j - 1);
        assert(ages(calls[j - 1], trails[j - 1], trails[j - 1 + 1]));
    }
}

} // verus!
