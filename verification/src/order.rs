//! Sorted lists and hash buckets.
use vstd::prelude::*;

use rustc_hash::{FxBuildHasher, FxHashMap};

use crate::network;
use crate::seqs;

verus! {

/// The values of `s` strictly increase.
pub open spec fn ascending64(s: Seq<u64>) -> bool {
    forall|i: int, j: int| 0 <= i < j < s.len() ==> s[i] < s[j]
}

/// The values of `s` never decrease.
pub open spec fn sorted64(s: Seq<u64>) -> bool {
    forall|i: int, j: int| 0 <= i <= j < s.len() ==> s[i] <= s[j]
}

/// The values of `s` never decrease.
pub open spec fn sorted_ids(s: Seq<usize>) -> bool {
    forall|i: int, j: int| 0 <= i <= j < s.len() ==> s[i] <= s[j]
}

/// `x` comes before `y` or is equal to it, compared by the first and then the second part.
pub open spec fn pair_le(x: (u64, usize), y: (u64, usize)) -> bool {
    x.0 < y.0 || (x.0 == y.0 && x.1 <= y.1)
}

/// `slice::sort_unstable` on words: a permutation in ascending order.
#[verifier::external_body]
pub(crate) fn sort_rows(v: &mut Vec<u64>)
    ensures
        final(v)@.to_multiset() == old(v)@.to_multiset(),
        sorted64(final(v)@),
{
    v.sort_unstable();
}

/// `slice::sort_unstable` on ids: a permutation in ascending order.
#[verifier::external_body]
pub(crate) fn sort_ids(v: &mut Vec<usize>)
    ensures
        final(v)@.to_multiset() == old(v)@.to_multiset(),
        sorted_ids(final(v)@),
{
    v.sort_unstable();
}

/// `slice::sort_unstable` on pairs: a permutation in ascending lexicographic order.
#[verifier::external_body]
pub(crate) fn sort_pairs(v: &mut Vec<(u64, usize)>)
    ensures
        final(v)@.to_multiset() == old(v)@.to_multiset(),
        forall|i: int, j: int| 0 <= i <= j < final(v)@.len() ==> pair_le(#[trigger] final(v)@[i], #[trigger] final(v)@[j]),
{
    v.sort_unstable();
}

/// Two permutations of each other have the same elements, as often.
pub proof fn lemma_permutation<T>(s: Seq<T>, t: Seq<T>)
    requires
        s.to_multiset() == t.to_multiset(),
    ensures
        s.len() == t.len(),
        forall|x: T| #[trigger] s.contains(x) <==> t.contains(x),
        s.no_duplicates() <==> t.no_duplicates(),
{
    broadcast use vstd::seq_lib::group_to_multiset_ensures;

    assert(s.to_multiset().len() == s.len());
    assert(t.to_multiset().len() == t.len());
    assert forall|x: T| #[trigger] s.contains(x) <==> t.contains(x) by {
        assert(s.contains(x) <==> s.to_multiset().count(x) > 0);
        assert(t.contains(x) <==> t.to_multiset().count(x) > 0);
    }
    if s.no_duplicates() {
        s.lemma_multiset_has_no_duplicates();
        t.lemma_multiset_has_no_duplicates_conv();
    }
    if t.no_duplicates() {
        t.lemma_multiset_has_no_duplicates();
        s.lemma_multiset_has_no_duplicates_conv();
    }
}

/// Sort words that do not repeat.
pub(crate) fn sort_distinct_rows(v: &mut Vec<u64>)
    requires
        old(v)@.no_duplicates(),
    ensures
        ascending64(final(v)@),
        final(v)@.len() == old(v)@.len(),
        forall|x: u64| #[trigger] final(v)@.contains(x) <==> old(v)@.contains(x),
{
    let ghost before = v@;
    sort_rows(v);
    proof {
        lemma_permutation(v@, before);
    }
}

/// The words of `v` in ascending order, each once.
pub(crate) fn sort_dedup_rows(mut v: Vec<u64>) -> (r: Vec<u64>)
    ensures
        ascending64(r@),
        forall|x: u64| #[trigger] r@.contains(x) <==> v@.contains(x),
{
    let ghost before = v@;
    sort_rows(&mut v);
    proof {
        lemma_permutation(v@, before);
    }
    let mut out: Vec<u64> = Vec::new();
    let mut i: usize = 0;
    while i < v.len()
        invariant
            i <= v@.len(),
            sorted64(v@),
            ascending64(out@),
            out@.len() == 0 <==> i == 0,
            i > 0 ==> out@.last() == v@[i - 1],
            forall|x: u64| #[trigger] out@.contains(x) <==> v@.take(i as int).contains(x),
        decreases v.len() - i,
    {
        proof {
            seqs::lemma_take_next(v@, i as int);
            seqs::lemma_push_contains(out@, v@[i as int]);
            if i > 0 {
                assert(v@.take(i as int)[i - 1] == v@[i - 1]);
                assert(v@.take(i as int).contains(v@[i - 1]));
            }
        }
        if i == 0 || v[i - 1] != v[i] {
            out.push(v[i]);
        }
        i += 1;
    }
    proof {
        seqs::lemma_take_all(v@);
    }
    out
}

/// The ids of `v` in ascending order, each once.
pub(crate) fn sort_dedup_ids(mut v: Vec<usize>) -> (r: Vec<usize>)
    ensures
        network::ascending_ids(r@),
        forall|x: usize| #[trigger] r@.contains(x) <==> v@.contains(x),
{
    let ghost before = v@;
    sort_ids(&mut v);
    proof {
        lemma_permutation(v@, before);
    }
    let mut out: Vec<usize> = Vec::new();
    let mut i: usize = 0;
    while i < v.len()
        invariant
            i <= v@.len(),
            sorted_ids(v@),
            network::ascending_ids(out@),
            out@.len() == 0 <==> i == 0,
            i > 0 ==> out@.last() == v@[i - 1],
            forall|x: usize| #[trigger] out@.contains(x) <==> v@.take(i as int).contains(x),
        decreases v.len() - i,
    {
        proof {
            seqs::lemma_take_next(v@, i as int);
            seqs::lemma_push_contains(out@, v@[i as int]);
            if i > 0 {
                assert(v@.take(i as int)[i - 1] == v@[i - 1]);
                assert(v@.take(i as int).contains(v@[i - 1]));
            }
        }
        if i == 0 || v[i - 1] != v[i] {
            out.push(v[i]);
        }
        i += 1;
    }
    proof {
        seqs::lemma_take_all(v@);
    }
    out
}

/// The position of `x` in an ascending list.
pub(crate) fn find(v: &Vec<usize>, x: usize) -> (r: Option<usize>)
    requires
        network::ascending_ids(v@),
    ensures
        match r {
            Some(i) => i < v@.len() && v@[i as int] == x,
            None => !v@.contains(x),
        },
{
    let mut lo: usize = 0;
    let mut hi: usize = v.len();
    while lo < hi
        invariant
            lo <= hi <= v@.len(),
            network::ascending_ids(v@),
            forall|k: int| 0 <= k < lo ==> v@[k] < x,
            forall|k: int| hi <= k < v@.len() ==> v@[k] > x,
        decreases hi - lo,
    {
        let mid: usize = lo + (hi - lo) / 2;
        if v[mid] == x {
            return Some(mid);
        }
        if v[mid] < x {
            lo = mid + 1;
        } else {
            hi = mid;
        }
    }
    None
}

/// Buckets of positions by key: the `rustc_hash` map.
pub type Buckets = FxHashMap<u64, Vec<usize>>;

#[verifier::external_type_specification]
#[verifier::external_body]
pub struct ExFxBuildHasher(FxBuildHasher);

/// What the buckets hold: the positions filed under each key, in the order of filing.
pub uninterp spec fn filed(m: FxHashMap<u64, Vec<usize>>) -> Map<u64, Seq<usize>>;

/// `FxHashMap::default`: no bucket.
#[verifier::external_body]
pub(crate) fn buckets_new() -> (m: Buckets)
    ensures
        forall|k: u64| !#[trigger] filed(m).contains_key(k),
{
    FxHashMap::default()
}

/// `HashMap::entry` with `or_default`, then `Vec::push`: `pos` is filed last under `key`.
#[verifier::external_body]
pub(crate) fn buckets_push(m: &mut Buckets, key: u64, pos: usize)
    ensures
        filed(*final(m)) == filed(*old(m)).insert(
            key,
            (if filed(*old(m)).contains_key(key) {
                filed(*old(m))[key]
            } else {
                Seq::empty()
            }).push(pos),
        ),
{
    m.entry(key).or_default().push(pos);
}

/// `HashMap::get`: the positions filed under `key`, if any were.
#[verifier::external_body]
pub(crate) fn buckets_get<'a>(m: &'a Buckets, key: u64) -> (r: Option<&'a Vec<usize>>)
    ensures
        match r {
            Some(v) => filed(*m).contains_key(key) && v@ == filed(*m)[key],
            None => !filed(*m).contains_key(key),
        },
{
    m.get(&key)
}

/// Mapping the elements of two permutations of each other gives permutations of each other.
pub proof fn lemma_map_permutation<A, B>(s: Seq<A>, t: Seq<A>, f: spec_fn(A) -> B)
    requires
        s.to_multiset() == t.to_multiset(),
    ensures
        s.map_values(f).to_multiset() == t.map_values(f).to_multiset(),
    decreases s.len(),
{
    broadcast use vstd::seq_lib::group_to_multiset_ensures;

    lemma_permutation(s, t);
    if s.len() == 0 {
        assert(s.map_values(f) =~= t.map_values(f));
    } else {
        let x = s.last();
        let n = s.len() - 1;
        assert(s[n] == x);
        assert(s.contains(x));
        assert(s.to_multiset().count(x) > 0);
        assert(t.contains(x));
        let q = t.index_of(x);
        assert(s.remove(n) =~= s.drop_last());
        lemma_map_permutation(s.drop_last(), t.remove(q), f);
        assert(s.map_values(f).remove(n) =~= s.drop_last().map_values(f));
        assert(t.map_values(f).remove(q) =~= t.remove(q).map_values(f));
        let ms = s.map_values(f).to_multiset();
        let mt = t.map_values(f).to_multiset();
        assert(s.map_values(f)[n] == f(x));
        assert(t.map_values(f)[q] == f(x));
        assert(s.map_values(f).contains(f(x)));
        assert(t.map_values(f).contains(f(x)));
        assert(ms.remove(f(x)) == mt.remove(f(x)));
        assert(ms.remove(f(x)).insert(f(x)) =~= ms);
        assert(mt.remove(f(x)).insert(f(x)) =~= mt);
    }
}

} // verus!
