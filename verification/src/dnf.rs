//! Disjoint covers of clauses.
use vstd::prelude::*;

use crate::adapter::Clause;
use crate::bits;
use crate::table;

verus! {

/// Some position is set by both clauses, to different values.
pub open spec fn clash(a: Clause, b: Clause) -> bool {
    exists|i: int| 0 <= i < 64 && #[trigger] bits::bit(a.mask, i) && bits::bit(b.mask, i) && bits::bit(a.val, i) != bits::bit(b.val, i)
}

/// `a` sets all that `b` sets, and to the same values.
pub open spec fn refines(a: Clause, b: Clause) -> bool {
    forall|i: int| 0 <= i < 64 && #[trigger] bits::bit(b.mask, i) ==> bits::bit(a.mask, i) && bits::bit(a.val, i) == bits::bit(b.val, i)
}

/// Any two clauses clash.
pub open spec fn pairwise_clash(s: Seq<Clause>) -> bool {
    forall|i: int, j: int| 0 <= i < j < s.len() ==> clash(#[trigger] s[i], #[trigger] s[j])
}

/// `s` covers what `a` covers and `b` does not.
pub open spec fn covers_difference(s: Seq<Clause>, a: Clause, b: Clause) -> bool {
    forall|x: u64| #[trigger] table::some_covers(s, x) <==> (a.covers(x) && !b.covers(x))
}

/// All of `s` set nothing but what one of the two clauses sets.
pub open spec fn within_masks(s: Seq<Clause>, a: Clause, b: Clause) -> bool {
    forall|k: int, i: int| 0 <= k < s.len() && 0 <= i < 64 && #[trigger] bits::bit(s[k].mask, i) ==> bits::bit(a.mask, i) || bits::bit(b.mask, i)
}

/// What `a` covers and `b` does not, as clauses that clash pairwise. One for each position that
/// only `b` sets, lowest first: it agrees with `b` below, and differs there.
pub fn subtract_clause(a: Clause, b: Clause) -> (r: Vec<Clause>)
    ensures
        covers_difference(r@, a, b),
        pairwise_clash(r@),
        forall|k: int| 0 <= k < r@.len() ==> refines(#[trigger] r@[k], a) && clash(r@[k], b),
        within_masks(r@, a, b),
        clash(a, b) ==> r@ == seq![a],
{
    broadcast use bits::group_bits;

    let shared: u64 = a.mask & b.mask;
    let diff: u64 = (a.val ^ b.val) & shared;
    proof {
        assert forall|i: int| 0 <= i < 64 implies #[trigger] bits::bit(diff, i) == (bits::bit(a.mask, i) && bits::bit(b.mask, i) && bits::bit(a.val, i) != bits::bit(b.val, i)) by {
            assert(bits::bit(shared, i) == (bits::bit(a.mask, i) && bits::bit(b.mask, i)));
        }
        if diff == 0 {
            assert forall|i: int| 0 <= i < 64 implies !#[trigger] bits::bit(diff, i) by {}
            if clash(a, b) {
                let i = choose|i: int| 0 <= i < 64 && #[trigger] bits::bit(a.mask, i) && bits::bit(b.mask, i) && bits::bit(a.val, i) != bits::bit(b.val, i);
                assert(bits::bit(diff, i));
            }
        } else if !clash(a, b) {
            assert forall|i: int| 0 <= i < 64 implies #[trigger] bits::bit(diff, i) == bits::bit(0u64, i) by {
                if bits::bit(diff, i) {
                    assert(bits::bit(a.mask, i));
                }
            }
            bits::lemma_bits_equal(diff, 0);
        }
    }
    if diff != 0 {
        let r: Vec<Clause> = vec![a];
        proof {
            assert(r@ =~= seq![a]);
            assert(r@[0] == a);
            assert forall|x: u64| #[trigger] table::some_covers(r@, x) <==> (a.covers(x) && !b.covers(x)) by {
                if a.covers(x) {
                    assert(r@[0].covers(x));
                    lemma_clash_excludes(a, b, x);
                }
            }
        }
        return r;
    }
    let mut prefix = Clause::new(a.mask, a.val & a.mask);
    let mut pieces: Vec<Clause> = Vec::new();
    let mut i: usize = 0;
    proof {
        assert forall|j: int| 0 <= j < 64 implies #[trigger] bits::bit(a.val & a.mask, j) == (bits::bit(a.val, j) && bits::bit(a.mask, j)) by {}
    }
    while i < 64
        invariant
            i <= 64,
            !clash(a, b),
            forall|j: int| 0 <= j < 64 ==> #[trigger] bits::bit(prefix.mask, j) == (bits::bit(a.mask, j) || (j < i && bits::bit(b.mask, j))),
            forall|j: int| 0 <= j < 64 ==> #[trigger] bits::bit(prefix.val, j) == (if bits::bit(a.mask, j) {
                bits::bit(a.val, j)
            } else {
                j < i && bits::bit(b.mask, j) && bits::bit(b.val, j)
            }),
            pairwise_clash(pieces@),
            forall|k: int| 0 <= k < pieces@.len() ==> refines(#[trigger] pieces@[k], a) && clash(pieces@[k], b) && clash(pieces@[k], prefix),
            within_masks(pieces@, a, b),
            forall|x: u64| #[trigger] table::some_covers(pieces@, x) <==> (a.covers(x) && differs_below(a, b, i as int, x)),
        decreases 64 - i,
    {
        let ghost p0 = pieces@;
        let ghost pre0 = prefix;
        if bits::get_bit(b.mask, i) && !bits::get_bit(a.mask, i) {
            let bit: u64 = 1u64 << (i as u64);
            let required: bool = bits::get_bit(b.val, i);
            let piece = if required {
                Clause::new(prefix.mask | bit, prefix.val)
            } else {
                Clause::new(prefix.mask | bit, prefix.val | bit)
            };
            let next = if required {
                Clause::new(prefix.mask | bit, prefix.val | bit)
            } else {
                Clause::new(prefix.mask | bit, prefix.val)
            };
            pieces.push(piece);
            prefix = next;
            proof {
                broadcast use bits::group_bits;

                lemma_piece(a, b, pre0, piece, next, i as int, p0, pieces@);
            }
        } else {
            proof {
                assert forall|x: u64| a.covers(x) implies (differs_below(a, b, i as int, x) <==> #[trigger] differs_below(a, b, i + 1, x)) by {
                    lemma_same_below(a, b, i as int, x);
                }
            }
        }
        i += 1;
    }
    proof {
        assert forall|x: u64| #[trigger] table::some_covers(pieces@, x) <==> (a.covers(x) && !b.covers(x)) by {
            if a.covers(x) {
                lemma_differs(a, b, x);
            }
        }
    }
    pieces
}

/// `x` differs from `b` at a position below `i` that only `b` sets.
spec fn differs_below(a: Clause, b: Clause, i: int, x: u64) -> bool {
    exists|j: int| 0 <= j < i && #[trigger] bits::bit(b.mask, j) && !bits::bit(a.mask, j) && bits::bit(x, j) != bits::bit(b.val, j)
}

pub proof fn lemma_clash_excludes(a: Clause, b: Clause, x: u64)
    requires
        clash(a, b),
        a.covers(x),
    ensures
        !b.covers(x),
{
    let i = choose|i: int| 0 <= i < 64 && #[trigger] bits::bit(a.mask, i) && bits::bit(b.mask, i) && bits::bit(a.val, i) != bits::bit(b.val, i);
    if b.covers(x) {
        assert(bits::bit(b.mask, i));
        assert(bits::bit(x, i) == bits::bit(a.val, i));
    }
}

proof fn lemma_same_below(a: Clause, b: Clause, i: int, x: u64)
    requires
        0 <= i < 64,
        !(bits::bit(b.mask, i) && !bits::bit(a.mask, i)),
    ensures
        differs_below(a, b, i, x) <==> differs_below(a, b, i + 1, x),
{
    if differs_below(a, b, i, x) {
        let j = choose|j: int| 0 <= j < i && #[trigger] bits::bit(b.mask, j) && !bits::bit(a.mask, j) && bits::bit(x, j) != bits::bit(b.val, j);
        assert(bits::bit(b.mask, j));
    }
    if differs_below(a, b, i + 1, x) {
        let j = choose|j: int| 0 <= j < i + 1 && #[trigger] bits::bit(b.mask, j) && !bits::bit(a.mask, j) && bits::bit(x, j) != bits::bit(b.val, j);
        assert(bits::bit(b.mask, j));
    }
}

proof fn lemma_differs(a: Clause, b: Clause, x: u64)
    requires
        !clash(a, b),
        a.covers(x),
    ensures
        differs_below(a, b, 64, x) <==> !b.covers(x),
{
    if differs_below(a, b, 64, x) {
        let j = choose|j: int| 0 <= j < 64 && #[trigger] bits::bit(b.mask, j) && !bits::bit(a.mask, j) && bits::bit(x, j) != bits::bit(b.val, j);
        assert(bits::bit(b.mask, j));
    }
    if !b.covers(x) {
        let j = choose|j: int| 0 <= j < 64 && #[trigger] bits::bit(b.mask, j) && bits::bit(x, j) != bits::bit(b.val, j);
        if bits::bit(a.mask, j) {
            assert(bits::bit(x, j) == bits::bit(a.val, j));
        }
        assert(bits::bit(b.mask, j));
    }
}

/// One more piece: it differs from `b` at position `i` and agrees with it below.
proof fn lemma_piece(a: Clause, b: Clause, prefix: Clause, piece: Clause, next: Clause, i: int, p0: Seq<Clause>, p1: Seq<Clause>)
    requires
        0 <= i < 64,
        bits::bit(b.mask, i),
        !bits::bit(a.mask, i),
        forall|j: int| 0 <= j < 64 ==> #[trigger] bits::bit(prefix.mask, j) == (bits::bit(a.mask, j) || (j < i && bits::bit(b.mask, j))),
        forall|j: int| 0 <= j < 64 ==> #[trigger] bits::bit(prefix.val, j) == (if bits::bit(a.mask, j) {
            bits::bit(a.val, j)
        } else {
            j < i && bits::bit(b.mask, j) && bits::bit(b.val, j)
        }),
        piece.mask == prefix.mask | (1u64 << (i as u64)),
        next.mask == prefix.mask | (1u64 << (i as u64)),
        piece.val == (if bits::bit(b.val, i) {
            prefix.val
        } else {
            prefix.val | (1u64 << (i as u64))
        }),
        next.val == (if bits::bit(b.val, i) {
            prefix.val | (1u64 << (i as u64))
        } else {
            prefix.val
        }),
        p1 == p0.push(piece),
        pairwise_clash(p0),
        forall|k: int| 0 <= k < p0.len() ==> refines(#[trigger] p0[k], a) && clash(p0[k], b) && clash(p0[k], prefix),
        within_masks(p0, a, b),
        forall|x: u64| #[trigger] table::some_covers(p0, x) <==> (a.covers(x) && differs_below(a, b, i, x)),
    ensures
        forall|j: int| 0 <= j < 64 ==> #[trigger] bits::bit(next.mask, j) == (bits::bit(a.mask, j) || (j < i + 1 && bits::bit(b.mask, j))),
        forall|j: int| 0 <= j < 64 ==> #[trigger] bits::bit(next.val, j) == (if bits::bit(a.mask, j) {
            bits::bit(a.val, j)
        } else {
            j < i + 1 && bits::bit(b.mask, j) && bits::bit(b.val, j)
        }),
        pairwise_clash(p1),
        forall|k: int| 0 <= k < p1.len() ==> refines(#[trigger] p1[k], a) && clash(p1[k], b) && clash(p1[k], next),
        within_masks(p1, a, b),
        forall|x: u64| #[trigger] table::some_covers(p1, x) <==> (a.covers(x) && differs_below(a, b, i + 1, x)),
{
    broadcast use bits::group_bits;

    let bit = 1u64 << (i as u64);
    let n = p0.len() as int;
    assert(p1[n] == piece);
    assert forall|j: int| 0 <= j < 64 implies #[trigger] bits::bit(piece.mask, j) == (bits::bit(prefix.mask, j) || j == i) by {}
    assert forall|j: int| 0 <= j < 64 implies #[trigger] bits::bit(next.mask, j) == (bits::bit(prefix.mask, j) || j == i) by {}
    assert forall|j: int| 0 <= j < 64 && j != i implies #[trigger] bits::bit(piece.val, j) == bits::bit(prefix.val, j) by {}
    assert forall|j: int| 0 <= j < 64 && j != i implies #[trigger] bits::bit(next.val, j) == bits::bit(prefix.val, j) by {}
    assert(!bits::bit(prefix.val, i));
    assert(bits::bit(piece.val, i) == !bits::bit(b.val, i));
    assert(bits::bit(next.val, i) == bits::bit(b.val, i));
    assert(refines(piece, a));
    assert(clash(piece, b)) by {
        assert(bits::bit(piece.mask, i));
    }
    assert(clash(piece, next)) by {
        assert(bits::bit(piece.mask, i));
    }
    assert forall|k: int| 0 <= k < n implies clash(#[trigger] p0[k], next) && clash(p0[k], piece) by {
        let j = choose|j: int| 0 <= j < 64 && #[trigger] bits::bit(p0[k].mask, j) && bits::bit(prefix.mask, j) && bits::bit(p0[k].val, j) != bits::bit(prefix.val, j);
        assert(bits::bit(p0[k].mask, j));
        assert(j != i);
        assert(bits::bit(next.mask, j) && bits::bit(piece.mask, j));
        assert(bits::bit(next.val, j) == bits::bit(prefix.val, j));
        assert(bits::bit(piece.val, j) == bits::bit(prefix.val, j));
    }
    assert forall|k: int| 0 <= k < p1.len() implies refines(#[trigger] p1[k], a) && clash(p1[k], b) && clash(p1[k], next) by {
        if k < n {
            assert(p1[k] == p0[k]);
        }
    }
    assert(pairwise_clash(p1)) by {
        assert forall|x: int, y: int| 0 <= x < y < p1.len() implies clash(#[trigger] p1[x], #[trigger] p1[y]) by {
            if y < n {
                assert(clash(p0[x], p0[y]));
            } else {
                assert(clash(p0[x], piece));
            }
        }
    }
    assert forall|k: int, j: int| 0 <= k < p1.len() && 0 <= j < 64 && #[trigger] bits::bit(p1[k].mask, j) implies bits::bit(a.mask, j) || bits::bit(b.mask, j) by {
        if k < n {
            assert(bits::bit(p0[k].mask, j));
        } else {
            assert(bits::bit(piece.mask, j));
        }
    }
    assert forall|x: u64| #[trigger] table::some_covers(p1, x) <==> (a.covers(x) && differs_below(a, b, i + 1, x)) by {
        assert(table::some_covers(p0, x) <==> (a.covers(x) && differs_below(a, b, i, x)));
        if table::some_covers(p0, x) {
            let k = choose|k: int| 0 <= k < p0.len() && (#[trigger] p0[k]).covers(x);
            assert(p1[k].covers(x));
            let j = choose|j: int| 0 <= j < i && #[trigger] bits::bit(b.mask, j) && !bits::bit(a.mask, j) && bits::bit(x, j) != bits::bit(b.val, j);
            assert(bits::bit(b.mask, j));
        }
        if piece.covers(x) {
            assert(a.covers(x)) by {
                assert forall|j: int| 0 <= j < 64 && #[trigger] bits::bit(a.mask, j) implies bits::bit(x, j) == bits::bit(a.val, j) by {
                    assert(bits::bit(piece.mask, j));
                }
            }
            assert(bits::bit(piece.mask, i));
            assert(bits::bit(b.mask, i));
            assert(differs_below(a, b, i + 1, x));
        }
        if table::some_covers(p1, x) {
            let k = choose|k: int| 0 <= k < p1.len() && (#[trigger] p1[k]).covers(x);
            if k < n {
                assert(p0[k].covers(x));
            }
        }
        if a.covers(x) && differs_below(a, b, i + 1, x) && !differs_below(a, b, i, x) {
            assert(piece.covers(x)) by {
                let q = choose|j: int| 0 <= j < i + 1 && #[trigger] bits::bit(b.mask, j) && !bits::bit(a.mask, j) && bits::bit(x, j) != bits::bit(b.val, j);
                assert(q == i) by {
                    if q < i {
                        assert(bits::bit(b.mask, q));
                        assert(differs_below(a, b, i, x));
                    }
                }
                assert forall|j: int| 0 <= j < 64 && #[trigger] bits::bit(piece.mask, j) implies bits::bit(x, j) == bits::bit(piece.val, j) by {
                    if j != i {
                        assert(bits::bit(prefix.mask, j));
                        if bits::bit(a.mask, j) {
                            assert(bits::bit(x, j) == bits::bit(a.val, j));
                        } else {
                            assert(bits::bit(b.mask, j));
                            if bits::bit(x, j) != bits::bit(b.val, j) {
                                assert(differs_below(a, b, i, x));
                            }
                        }
                    }
                }
            }
            assert(p1[n].covers(x));
        }
    }
}

/// The clauses of a list of pieces.
pub open spec fn pieces_of(s: Seq<(Clause, usize)>) -> Seq<Clause> {
    Seq::new(s.len(), |k: int| s[k].0)
}

/// Each piece refines the clause it came from, and the clauses come in order.
pub open spec fn sourced(s: Seq<(Clause, usize)>, clauses: Seq<Clause>) -> bool {
    &&& forall|k: int| 0 <= k < s.len() ==> (#[trigger] s[k]).1 < clauses.len() && refines(s[k].0, clauses[s[k].1 as int])
    &&& forall|j: int, k: int| 0 <= j < k < s.len() ==> (#[trigger] s[j]).1 <= (#[trigger] s[k]).1
}

/// No clause sets a position that none of `clauses` sets.
pub open spec fn within_any(s: Seq<Clause>, clauses: Seq<Clause>) -> bool {
    forall|k: int, i: int| 0 <= k < s.len() && 0 <= i < 64 && #[trigger] bits::bit(s[k].mask, i) ==> set_by_some(clauses, i)
}

pub open spec fn set_by_some(clauses: Seq<Clause>, i: int) -> bool {
    exists|q: int| 0 <= q < clauses.len() && bits::bit((#[trigger] clauses[q]).mask, i)
}

/// A cover with the same union whose clauses clash pairwise, each with the clause it came from.
pub open spec fn disjoint_cover(clauses: Seq<Clause>, r: Seq<(Clause, usize)>) -> bool {
    &&& pairwise_clash(pieces_of(r))
    &&& forall|x: u64| #[trigger] table::some_covers(pieces_of(r), x) <==> table::some_covers(clauses, x)
    &&& sourced(r, clauses)
    &&& within_any(pieces_of(r), clauses)
}

/// Each clause, with its place.
pub open spec fn placed(clauses: Seq<Clause>) -> Seq<(Clause, usize)> {
    Seq::new(clauses.len(), |k: int| (clauses[k], k as usize))
}

/// Make a cover disjoint: from each clause, in order, take away what came before. Where nothing
/// overlaps, nothing changes.
pub fn disjointize_clauses_with_sources(clauses: &[Clause]) -> (r: Vec<(Clause, usize)>)
    ensures
        disjoint_cover(clauses@, r@),
        pairwise_clash(clauses@) ==> r@ == placed(clauses@),
        clauses@.len() > 0 ==> r@.len() > 0,
{
    let mut out: Vec<(Clause, usize)> = Vec::new();
    let mut source: usize = 0;
    proof {
        assert forall|x: u64| #[trigger] table::some_covers(pieces_of(out@), x) <==> table::some_covers(clauses@.take(0), x) by {}
    }
    while source < clauses.len()
        invariant
            source <= clauses@.len(),
            disjoint_cover(clauses@.take(source as int), out@),
            pairwise_clash(clauses@) ==> out@ == placed(clauses@.take(source as int)),
            source > 0 ==> out@.len() > 0,
        decreases clauses.len() - source,
    {
        let clause = clauses[source];
        let ghost before = out@;
        let ghost old_cover = pieces_of(before);
        let mut pieces: Vec<Clause> = vec![clause];
        assert(pieces@ =~= seq![clause]);
        let mut k: usize = 0;
        proof {
            assert(pieces@[0] == clause);
            lemma_rest_start(clauses@, source as int, old_cover, clause);
        }
        while k < out.len()
            invariant
                out@ == before,
                old_cover == pieces_of(before),
                k <= before.len(),
                source < clauses@.len(),
                clause == clauses@[source as int],
                pairwise_clash(clauses@) ==> before == placed(clauses@.take(source as int)) && pieces@ == seq![clause],
                sourced(before, clauses@.take(source as int)),
                within_any(old_cover, clauses@.take(source as int)),
                rest_of(clauses@, source as int, clause, old_cover, k as int, pieces@),
                before.len() == 0 ==> pieces@.len() > 0,
            decreases out.len() - k,
        {
            let covered = out[k].0;
            let mut next: Vec<Clause> = Vec::new();
            let mut j: usize = 0;
            let ghost p0 = pieces@;
            proof {
                assert(old_cover[k as int] == covered);
                lemma_next_start(clauses@, source as int, clause, old_cover, k as int, p0);
                if pairwise_clash(clauses@) {
                    assert(covered == clauses@[k as int]);
                    lemma_clash_sym(clauses@[k as int], clause);
                }
            }
            while j < pieces.len()
                invariant
                    pieces@ == p0,
                    j <= p0.len(),
                    k < old_cover.len(),
                    source < clauses@.len(),
                    clause == clauses@[source as int],
                    covered == old_cover[k as int],
                    pairwise_clash(clauses@) ==> p0 == seq![clause] && clash(clause, covered) && next@ == (if j == 0 {
                        Seq::empty()
                    } else {
                        seq![clause]
                    }),
                    within_any(old_cover, clauses@.take(source as int)),
                    rest_of(clauses@, source as int, clause, old_cover, k as int, p0),
                    next_of(clauses@, source as int, clause, old_cover, k as int, p0, j as int, next@),
                decreases pieces.len() - j,
            {
                let mut parts = subtract_clause(pieces[j], covered);
                let ghost n0 = next@;
                let ghost ps = parts@;
                next.append(&mut parts);
                proof {
                    assert(next@ =~= n0 + ps);
                    if pairwise_clash(clauses@) {
                        assert(next@ =~= seq![clause]);
                    }
                    lemma_next_step(clauses@, source as int, clause, old_cover, k as int, p0, j as int, n0, ps);
                }
                j += 1;
            }
            proof {
                lemma_next_done(clauses@, source as int, clause, old_cover, k as int, p0, next@);
            }
            pieces = next;
            k += 1;
        }
        let mut j: usize = 0;
        let ghost ps = pieces@;
        while j < pieces.len()
            invariant
                pieces@ == ps,
                j <= ps.len(),
                out@.len() == before.len() + j,
                forall|q: int| 0 <= q < before.len() ==> #[trigger] out@[q] == before[q],
                forall|q: int| 0 <= q < j ==> #[trigger] out@[before.len() + q] == (ps[q], source),
            decreases pieces.len() - j,
        {
            out.push((pieces[j], source));
            j += 1;
        }
        proof {
            lemma_source_done(clauses@, source as int, clause, before, ps, out@);
            if pairwise_clash(clauses@) {
                assert(out@ =~= placed(clauses@.take(source + 1)));
            }
        }
        source += 1;
    }
    assert(clauses@.take(clauses@.len() as int) =~= clauses@);
    out
}

/// The clauses alone.
pub fn disjointize_clauses(clauses: &[Clause]) -> (r: Vec<Clause>)
    ensures
        pairwise_clash(r@),
        forall|x: u64| #[trigger] table::some_covers(r@, x) <==> table::some_covers(clauses@, x),
        pairwise_clash(clauses@) ==> r@ == clauses@,
{
    let pieces = disjointize_clauses_with_sources(clauses);
    let mut out: Vec<Clause> = Vec::new();
    let mut i: usize = 0;
    while i < pieces.len()
        invariant
            i <= pieces@.len(),
            out@ == pieces_of(pieces@).take(i as int),
        decreases pieces.len() - i,
    {
        out.push(pieces[i].0);
        assert(pieces_of(pieces@).take(i + 1) =~= pieces_of(pieces@).take(i as int).push(pieces@[i as int].0));
        i += 1;
    }
    assert(pieces_of(pieces@).take(pieces@.len() as int) =~= pieces_of(pieces@));
    proof {
        if pairwise_clash(clauses@) {
            assert(pieces_of(placed(clauses@)) =~= clauses@);
        }
    }
    out
}

/// One of the first `k` clauses covers `x`.
spec fn covered_upto(s: Seq<Clause>, k: int, x: u64) -> bool {
    exists|q: int| 0 <= q < k && (#[trigger] s[q]).covers(x)
}

/// `pieces` is what the first `k` of `cover` leave of `clause`.
spec fn rest_of(clauses: Seq<Clause>, source: int, clause: Clause, cover: Seq<Clause>, k: int, pieces: Seq<Clause>) -> bool {
    &&& pairwise_clash(pieces)
    &&& forall|q: int| 0 <= q < pieces.len() ==> refines(#[trigger] pieces[q], clause)
    &&& forall|q: int, c: int| 0 <= q < pieces.len() && 0 <= c < k ==> clash(#[trigger] pieces[q], #[trigger] cover[c])
    &&& forall|x: u64| #[trigger] table::some_covers(pieces, x) <==> (clause.covers(x) && !covered_upto(cover, k, x))
    &&& within_any(pieces, clauses.take(source + 1))
}

/// `next` is what cover clause `k` leaves of the first `j` pieces.
spec fn next_of(clauses: Seq<Clause>, source: int, clause: Clause, cover: Seq<Clause>, k: int, pieces: Seq<Clause>, j: int, next: Seq<Clause>) -> bool {
    &&& pairwise_clash(next)
    &&& forall|q: int| 0 <= q < next.len() ==> refines(#[trigger] next[q], clause)
    &&& forall|q: int, c: int| 0 <= q < next.len() && 0 <= c < k + 1 ==> clash(#[trigger] next[q], #[trigger] cover[c])
    &&& forall|q: int, p: int| 0 <= q < next.len() && j <= p < pieces.len() ==> clash(#[trigger] next[q], #[trigger] pieces[p])
    &&& forall|x: u64| #[trigger] table::some_covers(next, x) <==> (covered_upto(pieces, j, x) && !cover[k].covers(x))
    &&& within_any(next, clauses.take(source + 1))
}

proof fn lemma_refines_trans(a: Clause, b: Clause, c: Clause)
    requires
        refines(a, b),
        refines(b, c),
    ensures
        refines(a, c),
{
    assert forall|i: int| 0 <= i < 64 && #[trigger] bits::bit(c.mask, i) implies bits::bit(a.mask, i) && bits::bit(a.val, i) == bits::bit(c.val, i) by {
        assert(bits::bit(b.mask, i));
    }
}

proof fn lemma_clash_refined(a: Clause, b: Clause, c: Clause)
    requires
        refines(a, b),
        clash(b, c),
    ensures
        clash(a, c),
        clash(c, a),
{
    let i = choose|i: int| 0 <= i < 64 && #[trigger] bits::bit(b.mask, i) && bits::bit(c.mask, i) && bits::bit(b.val, i) != bits::bit(c.val, i);
    assert(bits::bit(b.mask, i));
    assert(bits::bit(a.mask, i));
    assert(bits::bit(c.mask, i));
}

pub proof fn lemma_clash_sym(a: Clause, b: Clause)
    requires
        clash(a, b),
    ensures
        clash(b, a),
{
    let i = choose|i: int| 0 <= i < 64 && #[trigger] bits::bit(a.mask, i) && bits::bit(b.mask, i) && bits::bit(a.val, i) != bits::bit(b.val, i);
    assert(bits::bit(b.mask, i));
}

proof fn lemma_rest_start(clauses: Seq<Clause>, source: int, cover: Seq<Clause>, clause: Clause)
    requires
        0 <= source < clauses.len(),
        clause == clauses[source],
    ensures
        rest_of(clauses, source, clause, cover, 0, seq![clause]),
{
    let s = seq![clause];
    assert(s[0] == clause);
    assert forall|x: u64| #[trigger] table::some_covers(s, x) <==> (clause.covers(x) && !covered_upto(cover, 0, x)) by {
        if clause.covers(x) {
            assert(s[0].covers(x));
        }
    }
    assert forall|k: int, i: int| 0 <= k < s.len() && 0 <= i < 64 && #[trigger] bits::bit(s[k].mask, i) implies set_by_some(clauses.take(source + 1), i) by {
        assert(clauses.take(source + 1)[source] == clause);
    }
}

proof fn lemma_next_start(clauses: Seq<Clause>, source: int, clause: Clause, cover: Seq<Clause>, k: int, pieces: Seq<Clause>)
    ensures
        next_of(clauses, source, clause, cover, k, pieces, 0, Seq::empty()),
{
}

proof fn lemma_next_step(clauses: Seq<Clause>, source: int, clause: Clause, cover: Seq<Clause>, k: int, pieces: Seq<Clause>, j: int, next: Seq<Clause>, parts: Seq<Clause>)
    requires
        0 <= source < clauses.len(),
        0 <= k < cover.len(),
        0 <= j < pieces.len(),
        within_any(cover, clauses.take(source)),
        rest_of(clauses, source, clause, cover, k, pieces),
        next_of(clauses, source, clause, cover, k, pieces, j, next),
        covers_difference(parts, pieces[j], cover[k]),
        pairwise_clash(parts),
        forall|q: int| 0 <= q < parts.len() ==> refines(#[trigger] parts[q], pieces[j]) && clash(parts[q], cover[k]),
        within_masks(parts, pieces[j], cover[k]),
    ensures
        next_of(clauses, source, clause, cover, k, pieces, j + 1, next + parts),
{
    let all = next + parts;
    let n = next.len() as int;
    assert forall|q: int| 0 <= q < parts.len() implies #[trigger] all[n + q] == parts[q] by {}
    assert forall|q: int| 0 <= q < all.len() implies refines(#[trigger] all[q], clause) by {
        if q < n {
            assert(all[q] == next[q]);
        } else {
            assert(all[q] == parts[q - n]);
            assert(refines(pieces[j], clause));
            lemma_refines_trans(parts[q - n], pieces[j], clause);
        }
    }
    assert forall|q: int, c: int| 0 <= q < all.len() && 0 <= c < k + 1 implies clash(#[trigger] all[q], #[trigger] cover[c]) by {
        if q < n {
            assert(all[q] == next[q]);
        } else {
            assert(all[q] == parts[q - n]);
            if c < k {
                assert(clash(pieces[j], cover[c]));
                lemma_clash_refined(parts[q - n], pieces[j], cover[c]);
            }
        }
    }
    assert forall|q: int, p: int| 0 <= q < all.len() && j + 1 <= p < pieces.len() implies clash(#[trigger] all[q], #[trigger] pieces[p]) by {
        if q < n {
            assert(all[q] == next[q]);
        } else {
            assert(all[q] == parts[q - n]);
            assert(clash(pieces[j], pieces[p]));
            lemma_clash_refined(parts[q - n], pieces[j], pieces[p]);
        }
    }
    assert(pairwise_clash(all)) by {
        assert forall|x: int, y: int| 0 <= x < y < all.len() implies clash(#[trigger] all[x], #[trigger] all[y]) by {
            if y < n {
                assert(clash(next[x], next[y]));
            } else if x < n {
                assert(all[x] == next[x] && all[y] == parts[y - n]);
                assert(clash(next[x], pieces[j]));
                lemma_clash_sym(next[x], pieces[j]);
                lemma_clash_refined(parts[y - n], pieces[j], next[x]);
            } else {
                assert(all[x] == parts[x - n] && all[y] == parts[y - n]);
                assert(clash(parts[x - n], parts[y - n]));
            }
        }
    }
    assert forall|x: u64| #[trigger] table::some_covers(all, x) <==> (covered_upto(pieces, j + 1, x) && !cover[k].covers(x)) by {
        assert(table::some_covers(next, x) <==> (covered_upto(pieces, j, x) && !cover[k].covers(x)));
        assert(table::some_covers(parts, x) <==> (pieces[j].covers(x) && !cover[k].covers(x)));
        if table::some_covers(next, x) {
            let q = choose|q: int| 0 <= q < next.len() && (#[trigger] next[q]).covers(x);
            assert(all[q].covers(x));
        }
        if table::some_covers(parts, x) {
            let q = choose|q: int| 0 <= q < parts.len() && (#[trigger] parts[q]).covers(x);
            assert(all[n + q].covers(x));
        }
        if table::some_covers(all, x) {
            let q = choose|q: int| 0 <= q < all.len() && (#[trigger] all[q]).covers(x);
            if q < n {
                assert(next[q].covers(x));
            } else {
                assert(parts[q - n].covers(x));
            }
        }
        if covered_upto(pieces, j, x) {
            let q = choose|q: int| 0 <= q < j && (#[trigger] pieces[q]).covers(x);
            assert(pieces[q].covers(x));
        }
        if covered_upto(pieces, j + 1, x) {
            let q = choose|q: int| 0 <= q < j + 1 && (#[trigger] pieces[q]).covers(x);
            if q < j {
                assert(covered_upto(pieces, j, x));
            }
        }
        if pieces[j].covers(x) {
            assert(covered_upto(pieces, j + 1, x));
        }
    }
    assert forall|q: int, i: int| 0 <= q < all.len() && 0 <= i < 64 && #[trigger] bits::bit(all[q].mask, i) implies set_by_some(clauses.take(source + 1), i) by {
        if q < n {
            assert(bits::bit(next[q].mask, i));
        } else {
            assert(bits::bit(parts[q - n].mask, i));
            if bits::bit(pieces[j].mask, i) {
                assert(set_by_some(clauses.take(source + 1), i));
            } else {
                assert(bits::bit(cover[k].mask, i));
                lemma_set_later(clauses, source, i);
            }
        }
    }
}

proof fn lemma_set_later(clauses: Seq<Clause>, source: int, i: int)
    requires
        0 <= source < clauses.len(),
        set_by_some(clauses.take(source), i),
    ensures
        set_by_some(clauses.take(source + 1), i),
{
    let q = choose|q: int| 0 <= q < clauses.take(source).len() && bits::bit((#[trigger] clauses.take(source)[q]).mask, i);
    assert(clauses.take(source + 1)[q] == clauses.take(source)[q]);
}

proof fn lemma_next_done(clauses: Seq<Clause>, source: int, clause: Clause, cover: Seq<Clause>, k: int, pieces: Seq<Clause>, next: Seq<Clause>)
    requires
        0 <= k < cover.len(),
        rest_of(clauses, source, clause, cover, k, pieces),
        next_of(clauses, source, clause, cover, k, pieces, pieces.len() as int, next),
    ensures
        rest_of(clauses, source, clause, cover, k + 1, next),
{
    assert forall|x: u64| #[trigger] table::some_covers(next, x) <==> (clause.covers(x) && !covered_upto(cover, k + 1, x)) by {
        assert(table::some_covers(pieces, x) <==> (clause.covers(x) && !covered_upto(cover, k, x)));
        assert(covered_upto(pieces, pieces.len() as int, x) <==> table::some_covers(pieces, x)) by {
            if covered_upto(pieces, pieces.len() as int, x) {
                let q = choose|q: int| 0 <= q < pieces.len() && (#[trigger] pieces[q]).covers(x);
                assert(pieces[q].covers(x));
            }
            if table::some_covers(pieces, x) {
                let q = choose|q: int| 0 <= q < pieces.len() && (#[trigger] pieces[q]).covers(x);
                assert(pieces[q].covers(x));
            }
        }
        if covered_upto(cover, k, x) {
            let q = choose|q: int| 0 <= q < k && (#[trigger] cover[q]).covers(x);
            assert(cover[q].covers(x));
        }
        if covered_upto(cover, k + 1, x) {
            let q = choose|q: int| 0 <= q < k + 1 && (#[trigger] cover[q]).covers(x);
            if q < k {
                assert(covered_upto(cover, k, x));
            }
        }
        if cover[k].covers(x) {
            assert(covered_upto(cover, k + 1, x));
        }
    }
}

proof fn lemma_source_done(clauses: Seq<Clause>, source: int, clause: Clause, before: Seq<(Clause, usize)>, pieces: Seq<Clause>, out: Seq<(Clause, usize)>)
    requires
        0 <= source < clauses.len() <= usize::MAX,
        clause == clauses[source],
        disjoint_cover(clauses.take(source), before),
        rest_of(clauses, source, clause, pieces_of(before), before.len() as int, pieces),
        out.len() == before.len() + pieces.len(),
        forall|q: int| 0 <= q < before.len() ==> #[trigger] out[q] == before[q],
        forall|q: int| 0 <= q < pieces.len() ==> #[trigger] out[before.len() + q] == (pieces[q], source as usize),
    ensures
        disjoint_cover(clauses.take(source + 1), out),
{
    let n = before.len() as int;
    let cover = pieces_of(before);
    let all = pieces_of(out);
    let given = clauses.take(source + 1);
    assert(given =~= clauses.take(source).push(clause));
    assert forall|q: int| 0 <= q < n implies #[trigger] all[q] == cover[q] by {
        assert(out[q] == before[q]);
    }
    assert forall|q: int| 0 <= q < pieces.len() implies #[trigger] all[n + q] == pieces[q] by {
        assert(out[n + q] == (pieces[q], source as usize));
    }
    assert(pairwise_clash(all)) by {
        assert forall|x: int, y: int| 0 <= x < y < all.len() implies clash(#[trigger] all[x], #[trigger] all[y]) by {
            if y < n {
                assert(clash(cover[x], cover[y]));
            } else if x < n {
                assert(all[n + (y - n)] == pieces[y - n]);
                assert(clash(pieces[y - n], cover[x]));
                lemma_clash_sym(pieces[y - n], cover[x]);
            } else {
                assert(all[n + (x - n)] == pieces[x - n] && all[n + (y - n)] == pieces[y - n]);
                assert(clash(pieces[x - n], pieces[y - n]));
            }
        }
    }
    assert forall|x: u64| #[trigger] table::some_covers(all, x) <==> table::some_covers(given, x) by {
        assert(table::some_covers(cover, x) <==> table::some_covers(clauses.take(source), x));
        assert(table::some_covers(pieces, x) <==> (clause.covers(x) && !covered_upto(cover, n, x)));
        if table::some_covers(all, x) {
            let q = choose|q: int| 0 <= q < all.len() && (#[trigger] all[q]).covers(x);
            if q < n {
                assert(cover[q].covers(x));
                let z = choose|z: int| 0 <= z < clauses.take(source).len() && (#[trigger] clauses.take(source)[z]).covers(x);
                assert(given[z].covers(x));
            } else {
                assert(all[n + (q - n)] == pieces[q - n]);
                assert(pieces[q - n].covers(x));
                assert(given[source].covers(x));
            }
        }
        if table::some_covers(given, x) {
            let z = choose|z: int| 0 <= z < given.len() && (#[trigger] given[z]).covers(x);
            if covered_upto(cover, n, x) {
                let q = choose|q: int| 0 <= q < n && (#[trigger] cover[q]).covers(x);
                assert(all[q].covers(x));
            } else if z < source {
                assert(clauses.take(source)[z].covers(x));
                let q = choose|q: int| 0 <= q < cover.len() && (#[trigger] cover[q]).covers(x);
                assert(all[q].covers(x));
            } else {
                let q = choose|q: int| 0 <= q < pieces.len() && (#[trigger] pieces[q]).covers(x);
                assert(all[n + q].covers(x));
            }
        }
    }
    assert(sourced(out, given)) by {
        assert forall|k: int| 0 <= k < out.len() implies (#[trigger] out[k]).1 < given.len() && refines(out[k].0, given[out[k].1 as int]) by {
            if k < n {
                assert(out[k] == before[k]);
                assert(clauses.take(source)[before[k].1 as int] == given[before[k].1 as int]);
            } else {
                assert(out[n + (k - n)] == (pieces[k - n], source as usize));
                assert(refines(pieces[k - n], clause));
            }
        }
        assert forall|j: int, k: int| 0 <= j < k < out.len() implies (#[trigger] out[j]).1 <= (#[trigger] out[k]).1 by {
            if k < n {
                assert(out[j] == before[j] && out[k] == before[k]);
            } else {
                assert(out[n + (k - n)] == (pieces[k - n], source as usize));
                if j < n {
                    assert(out[j] == before[j]);
                } else {
                    assert(out[n + (j - n)] == (pieces[j - n], source as usize));
                }
            }
        }
    }
    assert forall|k: int, i: int| 0 <= k < all.len() && 0 <= i < 64 && #[trigger] bits::bit(all[k].mask, i) implies set_by_some(given, i) by {
        if k < n {
            assert(bits::bit(cover[k].mask, i));
            lemma_set_later(clauses, source, i);
        } else {
            assert(all[n + (k - n)] == pieces[k - n]);
            assert(bits::bit(pieces[k - n].mask, i));
        }
    }
}

} // verus!
