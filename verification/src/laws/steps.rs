//! What is decided, tried and recorded.
use vstd::arithmetic::power2;
use vstd::prelude::*;

use crate::args;
use crate::audit;
use crate::bits;
use crate::canonicalize;
use crate::cdcl;
use crate::circuit;
use crate::csp;
use crate::ct;
use crate::dimacs;
use crate::dimacs::WeightFault;
use crate::domain::{Asg, DomainMask};
use crate::laws::sizes;
use crate::network;
use crate::propagate;
use crate::searchtree;
use crate::searchtree::Search;
use crate::text;

verus! {

proof fn lemma_undecided(d: Seq<DomainMask>, dec: Seq<(usize, bool)>, from: int, k: int, v: int)
    requires
        0 <= from <= k <= dec.len(),
        0 <= v < d.len(),
        forall|i: int| 0 <= i < dec.len() ==> (#[trigger] dec[i]).0 < d.len(),
        forall|i: int| from <= i < k ==> (#[trigger] dec[i]).0 != v,
    ensures
        cdcl::with_decisions(d, dec, k)[v] == cdcl::with_decisions(d, dec, from)[v],
    decreases k - from,
{
    lemma_decided_len(d, dec, k);
    if from < k {
        lemma_undecided(d, dec, from, k - 1, v);
        lemma_decided_len(d, dec, k - 1);
        assert(dec[k - 1].0 != v);
        assert(dec[k - 1].0 < d.len());
    }
}

proof fn lemma_decided_len(d: Seq<DomainMask>, dec: Seq<(usize, bool)>, k: int)
    requires
        0 <= k <= dec.len(),
        forall|i: int| 0 <= i < dec.len() ==> (#[trigger] dec[i]).0 < d.len(),
    ensures
        cdcl::with_decisions(d, dec, k).len() == d.len(),
    decreases k,
{
    if k > 0 {
        lemma_decided_len(d, dec, k - 1);
        assert(dec[k - 1].0 < d.len());
    }
}

/// After decisions a variable has the value that the last decision on it says, and the domain that it had where none is.
pub proof fn law_decisions_are_written_in(d: Seq<DomainMask>, dec: Seq<(usize, bool)>, v: int)
    requires
        0 <= v < d.len(),
        forall|i: int| 0 <= i < dec.len() ==> (#[trigger] dec[i]).0 < d.len(),
    ensures
        (forall|i: int| 0 <= i < dec.len() ==> (#[trigger] dec[i]).0 != v) ==> cdcl::with_decisions(d, dec, dec.len() as int)[v] == d[v],
        forall|i: int| 0 <= i < dec.len() && (#[trigger] dec[i]).0 == v && (forall|j: int| i < j < dec.len() ==> (#[trigger] dec[j]).0 != v) ==> cdcl::with_decisions(d, dec, dec.len() as int)[v] == (if dec[i].1 {
            DomainMask::D1
        } else {
            DomainMask::D0
        }),
{
    let n = dec.len() as int;
    if forall|i: int| 0 <= i < n ==> (#[trigger] dec[i]).0 != v {
        lemma_undecided(d, dec, 0, n, v);
    }
    assert forall|i: int| 0 <= i < dec.len() && (#[trigger] dec[i]).0 == v && (forall|j: int| i < j < dec.len() ==> (#[trigger] dec[j]).0 != v) implies cdcl::with_decisions(d, dec, n)[v] == (if dec[i].1 {
        DomainMask::D1
    } else {
        DomainMask::D0
    }) by {
        lemma_undecided(d, dec, i + 1, n, v);
        lemma_decided_len(d, dec, i);
        assert(cdcl::with_decisions(d, dec, i + 1) == cdcl::decide(cdcl::with_decisions(d, dec, i), dec[i]));
    }
}

proof fn lemma_assigned(d: Seq<DomainMask>, vars: Seq<usize>, mask: u64, val: u64, k: int, v: int, b: bool)
    requires
        0 <= k <= vars.len(),
        0 <= v < d.len(),
        forall|i: int| 0 <= i < vars.len() ==> (#[trigger] vars[i]) < d.len(),
    ensures
        ct::assigned(d, vars, mask, val, k).len() == d.len(),
        ct::assigned(d, vars, mask, val, k)[v].allows(b) <==> d[v].allows(b) && forall|i: int| 0 <= i < k && bits::bit(mask, i) && (#[trigger] vars[i]) == v ==> bits::bit(val, i) == b,
    decreases k,
{
    if k > 0 {
        lemma_assigned(d, vars, mask, val, k - 1, v, b);
        let i = k - 1;
        let x = vars[i] as int;
        assert(x < d.len());
        if bits::bit(mask, i) && x == v {
            let before = ct::assigned(d, vars, mask, val, k - 1);
            lemma_assigned(d, vars, mask, val, k - 1, v, bits::bit(val, i));
            assert(vars[i] == v);
        }
    }
}

/// After an assignment a value is left exactly where it was allowed and the assignment gives its
/// variable no other.
pub proof fn law_assignments_restrict(d: Seq<DomainMask>, vars: Seq<usize>, mask: u64, val: u64, v: int, b: bool)
    requires
        0 <= v < d.len(),
        forall|i: int| 0 <= i < vars.len() ==> (#[trigger] vars[i]) < d.len(),
    ensures
        ct::assigned(d, vars, mask, val, vars.len() as int)[v].allows(b) <==> d[v].allows(b) && forall|i: int| 0 <= i < vars.len() && bits::bit(mask, i) && (#[trigger] vars[i]) == v ==> bits::bit(val, i) == b,
{
    lemma_assigned(d, vars, mask, val, vars.len() as int, v, b);
}

/// The configurations agree at the first `k` positions.
spec fn same_upto(c: u64, e: u64, positions: Seq<usize>, k: int) -> bool {
    forall|i: int| 0 <= i < k ==> bits::bit(c, (#[trigger] positions[i]) as int) == bits::bit(e, positions[i] as int)
}

/// At the first position where they differ, the second has a one.
pub open spec fn comes_before(c: u64, e: u64, positions: Seq<usize>, k: int) -> bool {
    exists|i: int| #[trigger] parts_at(c, e, positions, k, i)
}

/// They agree before the position, and at it only the second has a one.
pub open spec fn parts_at(c: u64, e: u64, positions: Seq<usize>, k: int, i: int) -> bool {
    &&& 0 <= i < k
    &&& !bits::bit(c, positions[i] as int)
    &&& bits::bit(e, positions[i] as int)
    &&& forall|j: int| 0 <= j < i ==> bits::bit(c, (#[trigger] positions[j]) as int) == bits::bit(e, positions[j] as int)
}

/// The keys are in the order in which the configurations are read, from the first position on, and there
/// are no more of them than configurations.
pub proof fn law_keys_order_configurations(c: u64, e: u64, positions: Seq<usize>, k: int)
    requires
        0 <= k <= positions.len(),
    ensures
        propagate::trie_key(c, positions, k) < power2::pow2(k as nat),
        propagate::trie_key(c, positions, k) < propagate::trie_key(e, positions, k) <==> comes_before(c, e, positions, k),
        propagate::trie_key(c, positions, k) == propagate::trie_key(e, positions, k) <==> (forall|i: int| 0 <= i < k ==> bits::bit(c, (#[trigger] positions[i]) as int) == bits::bit(e, positions[i] as int)),
    decreases k,
{
    power2::lemma2_to64();
    if k > 0 {
        power2::lemma_pow2_unfold(k as nat);
        law_keys_order_configurations(c, e, positions, k - 1);
        law_keys_order_configurations(e, c, positions, k - 1);
        let i = k - 1;
        let x = positions[i] as int;
        let kc = propagate::trie_key(c, positions, k - 1);
        let ke = propagate::trie_key(e, positions, k - 1);
        if comes_before(c, e, positions, k - 1) {
            let j = choose|j: int| #[trigger] parts_at(c, e, positions, k - 1, j);
            assert(parts_at(c, e, positions, k, j));
        }
        if comes_before(c, e, positions, k) {
            let j = choose|j: int| #[trigger] parts_at(c, e, positions, k, j);
            if j < k - 1 {
                assert(parts_at(c, e, positions, k - 1, j));
            } else {
                assert(same_upto(c, e, positions, k - 1));
                assert(kc == ke);
            }
        }
        if kc == ke {
            if !bits::bit(c, x) && bits::bit(e, x) {
                assert(parts_at(c, e, positions, k, i));
            }
        }
        if kc > ke && comes_before(c, e, positions, k) {
            let j = choose|j: int| #[trigger] parts_at(c, e, positions, k, j);
            assert(j == k - 1);
        }
    }
}

proof fn lemma_bits_of_or(s: Seq<u32>, i: int)
    requires
        0 <= i < 64,
    ensures
        bits::bit(network::or_all(s) as u64, i) <==> exists|k: int| 0 <= k < s.len() && bits::bit((#[trigger] s[k]) as u64, i),
    decreases s.len(),
{
    bits::lemma_bit_zero(i);
    if s.len() > 0 {
        let t = s.drop_last();
        lemma_bits_of_or(t, i);
        let a = network::or_all(t);
        let b = s.last();
        assert((a | b) as u64 == (a as u64) | (b as u64)) by (bit_vector);
        bits::lemma_bit_or(a as u64, b as u64, i);
        if exists|k: int| 0 <= k < t.len() && bits::bit((#[trigger] t[k]) as u64, i) {
            let k = choose|k: int| 0 <= k < t.len() && bits::bit((#[trigger] t[k]) as u64, i);
            assert(bits::bit(s[k] as u64, i));
        }
        if bits::bit(b as u64, i) {
            assert(bits::bit(s[s.len() - 1] as u64, i));
        }
        if exists|k: int| 0 <= k < s.len() && bits::bit((#[trigger] s[k]) as u64, i) {
            let k = choose|k: int| 0 <= k < s.len() && bits::bit((#[trigger] s[k]) as u64, i);
            if k < t.len() {
                assert(t[k] == s[k]);
            }
        }
    }
}

/// A bit is set in the disjunction of configurations where one of them has it.
pub proof fn law_disjunction_of_configurations(s: Seq<u32>, i: int)
    requires
        0 <= i < 64,
    ensures
        bits::bit(network::or_all(s) as u64, i) <==> exists|k: int| 0 <= k < s.len() && bits::bit((#[trigger] s[k]) as u64, i),
{
    lemma_bits_of_or(s, i);
}

/// A bit is set in the conjunction of configurations where all of them have it.
pub proof fn law_conjunction_of_configurations(s: Seq<u32>, i: int)
    requires
        0 <= i < 32,
    ensures
        bits::bit(network::and_all(s) as u64, i) <==> forall|k: int| 0 <= k < s.len() ==> bits::bit((#[trigger] s[k]) as u64, i),
    decreases s.len(),
{
    if s.len() == 0 {
        reveal(bits::bit);
        let k = i as u64;
        assert((0xffff_ffffu64 >> k) & 1u64 == 1u64) by (bit_vector)
            requires
                k < 32,
        ;
    } else {
        let t = s.drop_last();
        law_conjunction_of_configurations(t, i);
        let a = network::and_all(t);
        let b = s.last();
        assert((a & b) as u64 == (a as u64) & (b as u64)) by (bit_vector);
        bits::lemma_bit_and(a as u64, b as u64, i);
        if forall|k: int| 0 <= k < s.len() ==> bits::bit((#[trigger] s[k]) as u64, i) {
            assert forall|k: int| 0 <= k < t.len() implies bits::bit((#[trigger] t[k]) as u64, i) by {
                assert(t[k] == s[k]);
            }
            assert(bits::bit(s[s.len() - 1] as u64, i));
        }
        if bits::bit(a as u64, i) && bits::bit(b as u64, i) {
            assert forall|k: int| 0 <= k < s.len() implies bits::bit((#[trigger] s[k]) as u64, i) by {
                if k < t.len() {
                    assert(t[k] == s[k]);
                }
            }
        }
    }
}

/// The number that a hexadecimal digit is.
pub open spec fn hex_digit(c: char) -> int {
    if '0' <= c <= '9' {
        c as int - '0' as int
    } else {
        c as int - 'a' as int + 10
    }
}

/// The number that hexadecimal digits spell.
pub open spec fn hex_number(s: Seq<char>) -> int
    decreases s.len(),
{
    if s.len() == 0 {
        0
    } else {
        16 * hex_number(s.drop_last()) + hex_digit(s.last())
    }
}

proof fn lemma_hex(w: u64, j: int)
    requires
        0 <= j < 16,
    ensures
        hex_number(audit::hex_word(w).take(j + 1)) == (w >> ((60 - 4 * j) as u64)),
    decreases j,
{
    let s = audit::hex_word(w);
    let t = s.take(j + 1);
    let sh = (60 - 4 * j) as u64;
    assert(t.drop_last() =~= s.take(j));
    assert(t.last() == s[j]);
    let d = (w >> sh) & 15;
    assert(((w >> sh) & 15) < 16) by (bit_vector);
    reveal_strlit("0123456789abcdef");
    assert(s[j] == "0123456789abcdef"@[d as int]);
    assert(hex_digit(s[j]) == d);
    if j == 0 {
        assert(s.take(0) =~= Seq::<char>::empty());
        assert(hex_number(s.take(0)) == 0);
        assert((w >> 60u64) & 15 == w >> 60u64) by (bit_vector);
    } else {
        lemma_hex(w, j - 1);
        let up = (64 - 4 * j) as u64;
        assert(w >> sh == 16 * (w >> up) + ((w >> sh) & 15)) by (bit_vector)
            requires
                up == sh + 4,
                sh <= 56,
        ;
    }
}

/// A word in hexadecimal has sixteen digits that spell it.
pub proof fn law_hexadecimal_words(w: u64)
    ensures
        audit::hex_word(w).len() == 16,
        hex_number(audit::hex_word(w)) == w,
{
    lemma_hex(w, 15);
    assert(audit::hex_word(w).take(16) =~= audit::hex_word(w));
    assert(w >> 0u64 == w) by (bit_vector);
}

/// The line gives a weight.
pub open spec fn gives_weight(line: Seq<char>) -> bool {
    let ws = text::words(line);
    ws.len() >= 3 && ws[0] == "c"@ && ws[1] == "p"@ && ws[2] == "weight"@
}

/// The line gives a weight in the legacy form.
pub open spec fn gives_legacy_weight(line: Seq<char>) -> bool {
    text::words(line).len() > 0 && text::words(line)[0] == "w"@
}

/// The weight line names a literal and a weight.
pub open spec fn complete_weight(line: Seq<char>) -> bool {
    text::words(line).len() >= 5 && dimacs::literal(text::words(line)[3]) is Some
}

proof fn lemma_weight_lines(ls: Seq<Seq<char>>, k: int)
    requires
        0 <= k <= ls.len(),
    ensures
        match dimacs::weight_lines(ls, k) {
            Ok(found) => {
                &&& sizes::lists_in_order(found, k, |i: int| gives_weight(ls[i]), |i: int| (dimacs::literal(text::words(ls[i])[3])->0 as i64, text::words(ls[i])[4]))
                &&& forall|i: int| 0 <= i < k ==> !gives_legacy_weight(#[trigger] ls[i]) && (gives_weight(ls[i]) ==> complete_weight(ls[i]))
            },
            Err(f) => exists|i: int| 0 <= i < k && #[trigger] refused_for(ls, i, f),
        },
    decreases k,
{
    let p = |i: int| gives_weight(ls[i]);
    let g = |i: int| (dimacs::literal(text::words(ls[i])[3])->0 as i64, text::words(ls[i])[4]);
    reveal_strlit("c");
    reveal_strlit("w");
    assert("c"@[0] != "w"@[0]);
    if k > 0 {
        lemma_weight_lines(ls, k - 1);
        match dimacs::weight_lines(ls, k - 1) {
            Ok(found) => {
                if p(k - 1) {
                    if complete_weight(ls[k - 1]) {
                        sizes::lemma_list_push(found, k - 1, p, g);
                    } else {
                        assert(refused_for(ls, k - 1, WeightFault::Bad(text::trimmed(ls[k - 1]))));
                    }
                } else {
                    sizes::lemma_list_skip(found, k - 1, p, g);
                    if gives_legacy_weight(ls[k - 1]) {
                        assert(refused_for(ls, k - 1, WeightFault::Cachet));
                    }
                }
            },
            Err(f) => {
                let i = choose|i: int| 0 <= i < k - 1 && #[trigger] refused_for(ls, i, f);
                assert(0 <= i < k && refused_for(ls, i, f));
            },
        }
    } else {
        sizes::lemma_list_empty(p, g);
    }
}

/// The line is the first that is refused, and for that reason.
pub open spec fn refused_for(ls: Seq<Seq<char>>, i: int, f: WeightFault) -> bool {
    &&& if gives_weight(ls[i]) {
        !complete_weight(ls[i]) && f == WeightFault::Bad(text::trimmed(ls[i]))
    } else {
        gives_legacy_weight(ls[i]) && f == WeightFault::Cachet
    }
    &&& forall|j: int| 0 <= j < i ==> !gives_legacy_weight(#[trigger] ls[j]) && (gives_weight(ls[j]) ==> complete_weight(ls[j]))
}

/// The weights of a formula are those of its weight lines, in order. A formula is refused for the first
/// line with an incomplete weight or a weight in the legacy form.
pub proof fn law_weights_of_a_formula(ls: Seq<Seq<char>>)
    ensures
        match dimacs::weight_lines(ls, ls.len() as int) {
            Ok(found) => {
                &&& sizes::lists_in_order(found, ls.len() as int, |i: int| gives_weight(ls[i]), |i: int| (dimacs::literal(text::words(ls[i])[3])->0 as i64, text::words(ls[i])[4]))
                &&& forall|i: int| 0 <= i < ls.len() ==> !gives_legacy_weight(#[trigger] ls[i]) && (gives_weight(ls[i]) ==> complete_weight(ls[i]))
            },
            Err(f) => exists|i: int| 0 <= i < ls.len() && #[trigger] refused_for(ls, i, f),
        },
{
    lemma_weight_lines(ls, ls.len() as int);
}

/// The row that is taken for an eliminated variable is the first that fits.
pub proof fn law_first_row_that_fits(step: canonicalize::ElimStep, a: Asg, known: spec_fn(int) -> bool, from: int)
    requires
        0 <= from <= step.rel.rows@.len(),
    ensures
        from <= canonicalize::first_fit(step, a, known, from) <= step.rel.rows@.len(),
        canonicalize::first_fit(step, a, known, from) < step.rel.rows@.len() ==> canonicalize::fits_row(step, step.rel.rows@[canonicalize::first_fit(step, a, known, from)], a, known),
        forall|k: int| from <= k < canonicalize::first_fit(step, a, known, from) ==> !canonicalize::fits_row(step, #[trigger] step.rel.rows@[k], a, known),
    decreases step.rel.rows@.len() - from,
{
    if from < step.rel.rows@.len() && !canonicalize::fits_row(step, step.rel.rows@[from], a, known) {
        law_first_row_that_fits(step, a, known, from + 1);
    }
}

/// All parts of a search, from the top.
pub open spec fn parts(t: Search) -> Seq<Search>
    decreases t, 0int,
{
    match t {
        Search::Branch(d, ids, vars, clauses, tries) => seq![t] + parts_of(tries, tries.len() as int),
        Search::Split(d, ids, ps, kids) => seq![t] + parts_of(kids, kids.len() as int),
        _ => seq![t],
    }
}

/// The parts of the first searches.
pub open spec fn parts_of(kids: Seq<Search>, upto: int) -> Seq<Search>
    decreases kids, upto,
{
    if 0 < upto <= kids.len() {
        parts_of(kids, upto - 1) + parts(kids[upto - 1])
    } else {
        Seq::empty()
    }
}

/// The rules that were branched on.
pub open spec fn branches() -> spec_fn(Search) -> int {
    |t: Search| if t is Branch {
        1int
    } else {
        0int
    }
}

/// The clauses of the rules.
pub open spec fn offered() -> spec_fn(Search) -> int {
    |t: Search| match t {
        Search::Branch(d, ids, vars, clauses, tries) => clauses.len() as int,
        _ => 0int,
    }
}

/// The clauses that were tried.
pub open spec fn tried() -> spec_fn(Search) -> int {
    |t: Search| match t {
        Search::Branch(d, ids, vars, clauses, tries) => tries.len() as int,
        _ => 0int,
    }
}

/// The scopes that fell into several parts.
pub open spec fn split() -> spec_fn(Search) -> int {
    |t: Search| match t {
        Search::Split(d, ids, ps, kids) => if ps.len() >= 2 {
            1int
        } else {
            0int
        },
        _ => 0int,
    }
}

/// The values of the parts, added up.
pub open spec fn added_over(s: Seq<Search>, f: spec_fn(Search) -> int) -> int {
    s.fold_left(0int, |a: int, t: Search| a + f(t))
}

proof fn lemma_added_join(a: Seq<Search>, b: Seq<Search>, f: spec_fn(Search) -> int)
    ensures
        added_over(a + b, f) == added_over(a, f) + added_over(b, f),
    decreases b.len(),
{
    reveal(Seq::fold_left);
    if b.len() == 0 {
        assert(a + b =~= a);
    } else {
        lemma_added_join(a, b.drop_last(), f);
        assert((a + b).drop_last() =~= a + b.drop_last());
        assert((a + b).last() == b.last());
    }
}

proof fn lemma_added_one(t: Search, f: spec_fn(Search) -> int)
    ensures
        added_over(seq![t], f) == f(t),
{
    reveal(Seq::fold_left);
    assert(seq![t].drop_last() =~= Seq::<Search>::empty());
    assert(added_over(Seq::empty(), f) == 0);
}

/// A search is counted by its parts: the rules that were branched on, their clauses, those of them
/// that were tried, and the scopes that fell into several parts.
pub proof fn law_searches_are_counted(t: Search)
    ensures
        searchtree::counts(t).nodes == added_over(parts(t), branches()),
        searchtree::counts(t).clauses == added_over(parts(t), offered()),
        searchtree::counts(t).visits == added_over(parts(t), tried()),
        searchtree::counts(t).splits == added_over(parts(t), split()),
    decreases t, 0int,
{
    lemma_added_one(t, branches());
    lemma_added_one(t, offered());
    lemma_added_one(t, tried());
    lemma_added_one(t, split());
    match t {
        Search::Branch(d, ids, vars, clauses, tries) => {
            lemma_counted_of(tries, tries.len() as int);
            let b = parts_of(tries, tries.len() as int);
            lemma_added_join(seq![t], b, branches());
            lemma_added_join(seq![t], b, offered());
            lemma_added_join(seq![t], b, tried());
            lemma_added_join(seq![t], b, split());
        },
        Search::Split(d, ids, ps, kids) => {
            lemma_counted_of(kids, kids.len() as int);
            let b = parts_of(kids, kids.len() as int);
            lemma_added_join(seq![t], b, branches());
            lemma_added_join(seq![t], b, offered());
            lemma_added_join(seq![t], b, tried());
            lemma_added_join(seq![t], b, split());
        },
        _ => {},
    }
}

proof fn lemma_counted_of(kids: Seq<Search>, upto: int)
    requires
        0 <= upto <= kids.len(),
    ensures
        searchtree::counts_of(kids, upto).nodes == added_over(parts_of(kids, upto), branches()),
        searchtree::counts_of(kids, upto).clauses == added_over(parts_of(kids, upto), offered()),
        searchtree::counts_of(kids, upto).visits == added_over(parts_of(kids, upto), tried()),
        searchtree::counts_of(kids, upto).splits == added_over(parts_of(kids, upto), split()),
    decreases kids, upto,
{
    if upto > 0 {
        lemma_counted_of(kids, upto - 1);
        law_searches_are_counted(kids[upto - 1]);
        let a = parts_of(kids, upto - 1);
        let b = parts(kids[upto - 1]);
        lemma_added_join(a, b, branches());
        lemma_added_join(a, b, offered());
        lemma_added_join(a, b, tried());
        lemma_added_join(a, b, split());
    } else {
        reveal(Seq::fold_left);
        assert(parts_of(kids, upto) =~= Seq::<Search>::empty());
    }
}

/// An error tells what is wrong: none reports two different faults.
pub proof fn law_errors_tell_faults_apart(a: args::ArgError, f: args::ArgFault, g: args::ArgFault, b: csp::CspError, h: csp::CspFault, i: csp::CspFault, c: audit::FrontierError, j: audit::FrontierFault, k: audit::FrontierFault, d: circuit::CircuitError, l: circuit::GateFault, m: circuit::GateFault, e: dimacs::DimacsError, n: dimacs::Fault, o: dimacs::Fault)
    ensures
        args::names(a, f) && args::names(a, g) ==> f == g,
        csp::says(b, h) && csp::says(b, i) ==> h == i,
        audit::tells(c, j) && audit::tells(c, k) ==> j == k,
        circuit::reports(d, l) && circuit::reports(d, m) ==> l == m,
        dimacs::fault_of(e, n) && dimacs::fault_of(e, o) ==> n == o,
{
}

} // verus!
