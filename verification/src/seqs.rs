//! Facts about sequences used throughout.
use vstd::prelude::*;

verus! {

/// One more element of a prefix.
pub proof fn lemma_take_next<T>(s: Seq<T>, j: int)
    requires
        0 <= j < s.len(),
    ensures
        s.take(j + 1) == s.take(j).push(s[j]),
        s.take(j + 1).drop_last() == s.take(j),
        s.take(j + 1).last() == s[j],
        forall|x: T| #[trigger]
            s.take(j + 1).contains(x) <==> (s.take(j).contains(x) || s[j] == x),
{
    assert(s.take(j + 1) =~= s.take(j).push(s[j]));
    assert(s.take(j + 1).drop_last() =~= s.take(j));
    assert forall|x: T| #[trigger] s.take(j + 1).contains(x) implies (s.take(j).contains(x) || s[j]
        == x) by {
        let k = s.take(j + 1).index_of(x);
        if k < j {
            assert(s.take(j)[k] == x);
        }
    }
    assert forall|x: T| s.take(j).contains(x) || s[j] == x implies #[trigger] s.take(j + 1).contains(
        x,
    ) by {
        if s[j] == x {
            assert(s.take(j + 1)[j] == x);
        } else {
            let k = s.take(j).index_of(x);
            assert(s.take(j + 1)[k] == x);
        }
    }
}

/// The whole sequence as a prefix.
pub proof fn lemma_take_all<T>(s: Seq<T>)
    ensures
        s.take(s.len() as int) == s,
{
    assert(s.take(s.len() as int) =~= s);
}

/// Membership after a push.
pub proof fn lemma_push_contains<T>(s: Seq<T>, y: T)
    ensures
        forall|x: T| #[trigger] s.push(y).contains(x) <==> (s.contains(x) || x == y),
{
    assert forall|x: T| #[trigger] s.push(y).contains(x) implies (s.contains(x) || x == y) by {
        let k = s.push(y).index_of(x);
        if k < s.len() {
            assert(s[k] == x);
        }
    }
    assert forall|x: T| s.contains(x) || x == y implies #[trigger] s.push(y).contains(x) by {
        if x == y {
            assert(s.push(y)[s.len() as int] == x);
        } else {
            let k = s.index_of(x);
            assert(s.push(y)[k] == x);
        }
    }
}

/// Filters that agree on the elements give the same result.
pub proof fn lemma_filter_same<T>(s: Seq<T>, p: spec_fn(T) -> bool, q: spec_fn(T) -> bool)
    requires
        forall|i: int| 0 <= i < s.len() ==> p(#[trigger] s[i]) == q(s[i]),
    ensures
        s.filter(p) == s.filter(q),
    decreases s.len(),
{
    reveal(Seq::filter);
    if s.len() > 0 {
        assert forall|i: int| 0 <= i < s.drop_last().len() implies p(#[trigger] s.drop_last()[i]) == q(s.drop_last()[i]) by {
            assert(s.drop_last()[i] == s[i]);
        }
        lemma_filter_same(s.drop_last(), p, q);
        assert(p(s[s.len() - 1]) == q(s[s.len() - 1]));
    }
}

/// A filter that every element passes.
pub proof fn lemma_filter_all<T>(s: Seq<T>, p: spec_fn(T) -> bool)
    requires
        forall|i: int| 0 <= i < s.len() ==> p(#[trigger] s[i]),
    ensures
        s.filter(p) == s,
    decreases s.len(),
{
    reveal(Seq::filter);
    if s.len() > 0 {
        assert forall|i: int| 0 <= i < s.drop_last().len() implies p(#[trigger] s.drop_last()[i]) by {
            assert(s.drop_last()[i] == s[i]);
        }
        lemma_filter_all(s.drop_last(), p);
        assert(p(s[s.len() - 1]));
        assert(s.drop_last().push(s.last()) =~= s);
    }
}

/// A filter that no element passes.
pub proof fn lemma_filter_none<T>(s: Seq<T>, p: spec_fn(T) -> bool)
    requires
        forall|i: int| 0 <= i < s.len() ==> !p(#[trigger] s[i]),
    ensures
        s.filter(p) == Seq::<T>::empty(),
    decreases s.len(),
{
    reveal(Seq::filter);
    if s.len() > 0 {
        assert forall|i: int| 0 <= i < s.drop_last().len() implies !p(#[trigger] s.drop_last()[i]) by {
            assert(s.drop_last()[i] == s[i]);
        }
        lemma_filter_none(s.drop_last(), p);
        assert(!p(s[s.len() - 1]));
    }
}

/// A list without repetition whose elements are all in another is no longer than it; if it is
/// as long, the other has no more elements.
pub proof fn lemma_within<T>(a: Seq<T>, b: Seq<T>)
    requires
        a.no_duplicates(),
        forall|k: int| 0 <= k < a.len() ==> b.contains(#[trigger] a[k]),
    ensures
        a.len() <= b.len(),
        a.len() == b.len() && b.no_duplicates() ==> forall|x: T| #[trigger] b.contains(x) ==> a.contains(x),
    decreases a.len(),
{
    if a.len() > 0 {
        let x = a.last();
        let rest = a.drop_last();
        assert(b.contains(a[a.len() - 1]));
        let q = b.index_of(x);
        let left = b.remove(q);
        assert forall|k: int| 0 <= k < rest.len() implies left.contains(#[trigger] rest[k]) by {
            assert(b.contains(a[k]));
            assert(a[k] != x);
            let p = b.index_of(a[k]);
            assert(left[if p < q {
                p
            } else {
                p - 1
            }] == a[k]);
        }
        assert(rest.no_duplicates());
        lemma_within(rest, left);
        if a.len() == b.len() && b.no_duplicates() {
            assert(left.no_duplicates());
            assert forall|y: T| #[trigger] b.contains(y) implies a.contains(y) by {
                let p = b.index_of(y);
                if p != q {
                    assert(left[if p < q {
                        p
                    } else {
                        p - 1
                    }] == y);
                    assert(left.contains(y));
                    let z = rest.index_of(y);
                    assert(a[z] == y);
                } else {
                    assert(a[a.len() - 1] == y);
                }
            }
        }
    }
}

} // verus!
