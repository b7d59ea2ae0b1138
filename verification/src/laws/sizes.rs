//! Sizes of sets of places.
use vstd::prelude::*;

verus! {

/// The places below `n` with a property.
pub open spec fn places(n: int, p: spec_fn(int) -> bool) -> Set<int> {
    Set::new(|i: int| 0 <= i < n && p(i))
}

/// There are none below zero.
pub proof fn lemma_no_places(n: int, p: spec_fn(int) -> bool)
    requires
        n <= 0,
    ensures
        places(n, p).finite(),
        places(n, p).len() == 0,
{
    assert(places(n, p) =~= Set::<int>::empty());
}

/// One place more.
pub proof fn lemma_next_place(n: int, p: spec_fn(int) -> bool)
    requires
        0 <= n,
        places(n, p).finite(),
    ensures
        places(n + 1, p).finite(),
        places(n + 1, p).len() == places(n, p).len() + (if p(n) {
            1nat
        } else {
            0nat
        }),
{
    if p(n) {
        assert(places(n + 1, p) =~= places(n, p).insert(n));
    } else {
        assert(places(n + 1, p) =~= places(n, p));
    }
}

/// The places are finitely many.
pub proof fn lemma_places_finite(n: int, p: spec_fn(int) -> bool)
    ensures
        places(n, p).finite(),
        places(n, p).len() <= (if n < 0 {
            0
        } else {
            n
        }),
    decreases n,
{
    if n <= 0 {
        lemma_no_places(n, p);
    } else {
        lemma_places_finite(n - 1, p);
        lemma_next_place(n - 1, p);
    }
}

/// Properties that agree below `n` have the same places.
pub proof fn lemma_same_places(n: int, p: spec_fn(int) -> bool, q: spec_fn(int) -> bool)
    requires
        forall|i: int| 0 <= i < n ==> #[trigger] p(i) == q(i),
    ensures
        places(n, p) == places(n, q),
{
    assert(places(n, p) =~= places(n, q));
}

/// The sum of the values at the places below `n`, added up from the left.
pub open spec fn added(n: int, f: spec_fn(int) -> int) -> int {
    Seq::new(n as nat, f).fold_left(0int, |a: int, x: int| a + x)
}

/// Nothing is added below zero.
pub proof fn lemma_nothing_added(f: spec_fn(int) -> int)
    ensures
        added(0, f) == 0,
{
    reveal(Seq::fold_left);
}

/// One value more.
pub proof fn lemma_next_added(n: int, f: spec_fn(int) -> int)
    requires
        0 <= n,
    ensures
        added(n + 1, f) == added(n, f) + f(n),
{
    reveal(Seq::fold_left);
    assert(Seq::new((n + 1) as nat, f).drop_last() =~= Seq::new(n as nat, f));
}

/// The list holds `g` of each place below `n` with the property, in order.
pub open spec fn lists_in_order<A>(s: Seq<A>, n: int, p: spec_fn(int) -> bool, g: spec_fn(int) -> A) -> bool {
    &&& s.len() == places(n, p).len()
    &&& forall|i: int| 0 <= i < n && #[trigger] p(i) ==> places(i, p).len() < s.len() && s[places(i, p).len() as int] == g(i)
}

/// The empty list.
pub proof fn lemma_list_empty<A>(p: spec_fn(int) -> bool, g: spec_fn(int) -> A)
    ensures
        lists_in_order(Seq::<A>::empty(), 0, p, g),
{
    lemma_no_places(0, p);
}

/// A place with the property puts its value at the end.
pub proof fn lemma_list_push<A>(s: Seq<A>, n: int, p: spec_fn(int) -> bool, g: spec_fn(int) -> A)
    requires
        0 <= n,
        lists_in_order(s, n, p, g),
        p(n),
    ensures
        lists_in_order(s.push(g(n)), n + 1, p, g),
{
    lemma_places_finite(n, p);
    lemma_next_place(n, p);
    assert forall|i: int| 0 <= i < n + 1 && #[trigger] p(i) implies places(i, p).len() < s.push(g(n)).len() && s.push(g(n))[places(i, p).len() as int] == g(i) by {}
}

/// A place without the property changes nothing.
pub proof fn lemma_list_skip<A>(s: Seq<A>, n: int, p: spec_fn(int) -> bool, g: spec_fn(int) -> A)
    requires
        0 <= n,
        lists_in_order(s, n, p, g),
        !p(n),
    ensures
        lists_in_order(s, n + 1, p, g),
{
    lemma_places_finite(n, p);
    lemma_next_place(n, p);
}

/// The answer is `g` of the first place below `n` with the property, and none where no place has it.
pub open spec fn finds_first<A>(r: Option<A>, n: int, p: spec_fn(int) -> bool, g: spec_fn(int) -> A) -> bool {
    match r {
        None => forall|i: int| 0 <= i < n ==> !#[trigger] p(i),
        Some(x) => exists|i: int| #[trigger] stands_first(i, n, p) && x == g(i),
    }
}

/// The place has the property, and none before it has.
pub open spec fn stands_first(i: int, n: int, p: spec_fn(int) -> bool) -> bool {
    &&& 0 <= i < n
    &&& p(i)
    &&& forall|j: int| 0 <= j < i ==> !#[trigger] p(j)
}

/// One place more is looked at.
pub proof fn lemma_next_found<A>(r: Option<A>, n: int, p: spec_fn(int) -> bool, g: spec_fn(int) -> A, s: Option<A>)
    requires
        0 <= n,
        finds_first(r, n, p, g),
        s == (if r is Some {
            r
        } else if p(n) {
            Some(g(n))
        } else {
            None
        }),
    ensures
        finds_first(s, n + 1, p, g),
{
    if r is Some {
        let i = choose|i: int| #[trigger] stands_first(i, n, p) && r->0 == g(i);
        assert(stands_first(i, n + 1, p));
    } else if p(n) {
        assert(stands_first(n, n + 1, p));
    }
}

} // verus!
