//! What formulas mean, and what is read of their texts.
use vstd::prelude::*;

use crate::conquer;
use crate::conquer::CnfTemplate;
use crate::dimacs;
use crate::dimacs::{Fault, Reading};
use crate::domain::Asg;
use crate::formats;
use crate::laws::sizes;
use crate::laws::texts;
use crate::laws::weights;
use crate::semiring;
use crate::text;

verus! {

/// A clause has a literal and its negation exactly where every assignment makes it true.
pub proof fn law_tautologies_always_hold(lits: Seq<i64>)
    requires
        forall|i: int| 0 <= i < lits.len() ==> (#[trigger] lits[i]) != 0,
    ensures
        formats::tautology(lits) <==> (forall|a: Asg| #[trigger] dimacs::clause_holds(lits, a)),
{
    if formats::tautology(lits) {
        let (i, j) = choose|i: int, j: int| 0 <= i < lits.len() && 0 <= j < lits.len() && (#[trigger] lits[i]) as int == -((#[trigger] lits[j]) as int);
        assert forall|a: Asg| #[trigger] dimacs::clause_holds(lits, a) by {
            assert(lits[i] != 0 && lits[j] != 0);
            assert(dimacs::var_of(lits[i]) == dimacs::var_of(lits[j]));
            if a(dimacs::var_of(lits[i])) == (lits[i] > 0) {
                assert(dimacs::clause_holds(lits, a));
            } else {
                assert(a(dimacs::var_of(lits[j])) == (lits[j] > 0));
            }
        }
    } else {
        let a: Asg = |v: int| exists|i: int| 0 <= i < lits.len() && (#[trigger] lits[i]) as int == -(v + 1);
        if dimacs::clause_holds(lits, a) {
            let i = choose|i: int| 0 <= i < lits.len() && a(dimacs::var_of(#[trigger] lits[i])) == (lits[i] > 0);
            let v = dimacs::var_of(lits[i]);
            if lits[i] > 0 {
                let j = choose|j: int| 0 <= j < lits.len() && (#[trigger] lits[j]) as int == -(v + 1);
                assert(lits[i] as int == -(lits[j] as int));
            } else {
                assert(lits[i] as int == -(v + 1));
                assert(a(v));
            }
        }
    }
}

/// The literal is the first of its variable.
pub open spec fn first_of_variable(lits: Seq<i64>, i: int) -> bool {
    forall|j: int| 0 <= j < i ==> dimacs::var_of(#[trigger] lits[j]) != dimacs::var_of(lits[i])
}

proof fn lemma_scope(lits: Seq<i64>, k: int)
    requires
        0 <= k <= lits.len(),
        dimacs::literals_wf(lits),
    ensures
        sizes::lists_in_order(dimacs::scope_of(lits, k), k, |i: int| first_of_variable(lits, i), |i: int| dimacs::var_of(lits[i]) as usize),
        forall|v: usize| #[trigger] dimacs::scope_of(lits, k).contains(v) <==> exists|i: int| 0 <= i < k && dimacs::var_of(#[trigger] lits[i]) == v,
    decreases k,
{
    let p = |i: int| first_of_variable(lits, i);
    let g = |i: int| dimacs::var_of(lits[i]) as usize;
    if k > 0 {
        lemma_scope(lits, k - 1);
        let before = dimacs::scope_of(lits, k - 1);
        let v = dimacs::var_of(lits[k - 1]) as usize;
        assert(lits[k - 1] != 0 && dimacs::magnitude(lits[k - 1] as int) <= usize::MAX);
        assert(v == dimacs::var_of(lits[k - 1]));
        crate::seqs::lemma_push_contains(before, v);
        assert(before.contains(v) <==> !p(k - 1));
        if p(k - 1) {
            sizes::lemma_list_push(before, k - 1, p, g);
        } else {
            sizes::lemma_list_skip(before, k - 1, p, g);
        }
        assert forall|u: usize| #[trigger] dimacs::scope_of(lits, k).contains(u) <==> exists|i: int| 0 <= i < k && dimacs::var_of(#[trigger] lits[i]) == u by {
            if dimacs::scope_of(lits, k).contains(u) {
                if before.contains(u) {
                    let i = choose|i: int| 0 <= i < k - 1 && dimacs::var_of(#[trigger] lits[i]) == u;
                    assert(0 <= i < k && dimacs::var_of(lits[i]) == u);
                } else {
                    assert(dimacs::var_of(lits[k - 1]) == u);
                }
            }
            if exists|i: int| 0 <= i < k && dimacs::var_of(#[trigger] lits[i]) == u {
                let i = choose|i: int| 0 <= i < k && dimacs::var_of(#[trigger] lits[i]) == u;
                if i < k - 1 {
                    assert(before.contains(u));
                }
            }
        }
    } else {
        sizes::lemma_list_empty(p, g);
    }
}

/// The scope of a clause: each of its variables once, in the order in which they first occur; its
/// width is their number.
pub proof fn law_scope_of_a_clause(lits: Seq<i64>)
    requires
        dimacs::literals_wf(lits),
    ensures
        sizes::lists_in_order(dimacs::scope_of(lits, lits.len() as int), lits.len() as int, |i: int| first_of_variable(lits, i), |i: int| dimacs::var_of(lits[i]) as usize),
        forall|v: usize| #[trigger] dimacs::scope_of(lits, lits.len() as int).contains(v) <==> exists|i: int| 0 <= i < lits.len() && dimacs::var_of(#[trigger] lits[i]) == v,
        formats::width(lits) == Set::new(|i: int| 0 <= i < lits.len() && first_of_variable(lits, i)).len(),
{
    lemma_scope(lits, lits.len() as int);
    assert(sizes::places(lits.len() as int, |i: int| first_of_variable(lits, i)) =~= Set::new(|i: int| 0 <= i < lits.len() && first_of_variable(lits, i)));
}

/// The text of literals, each with a space behind it.
pub open spec fn literals_text(lits: Seq<i64>) -> Seq<char>
    decreases lits.len(),
{
    if lits.len() == 0 {
        Seq::empty()
    } else {
        literals_text(lits.drop_last()) + conquer::signed_text(lits.last()) + seq![' ']
    }
}

/// A line with a clause: its literals and a zero.
pub open spec fn clause_line(lits: Seq<i64>) -> Seq<char> {
    literals_text(lits) + seq!['0']
}

/// The literals as words.
pub open spec fn literal_words(lits: Seq<i64>) -> Seq<Seq<char>> {
    Seq::new(lits.len(), |i: int| conquer::signed_text(lits[i]))
}

proof fn lemma_literals_text(lits: Seq<i64>)
    ensures
        text::words(literals_text(lits)) == literal_words(lits),
        texts::one_line(literals_text(lits)),
        lits.len() > 0 ==> literals_text(lits).len() > 0 && (literals_text(lits)[0] == '-' || text::digit(literals_text(lits)[0])),
        lits.len() > 0 ==> literals_text(lits).last() == ' ',
    decreases lits.len(),
{
    if lits.len() == 0 {
        assert(literal_words(lits) =~= Seq::<Seq<char>>::empty());
        assert(text::words(literals_text(lits)) =~= Seq::<Seq<char>>::empty());
    } else {
        let front = lits.drop_last();
        let l = lits.last();
        let w = conquer::signed_text(l);
        lemma_literals_text(front);
        weights::law_written_literals_are_read_back(l);
        lemma_signed_chars(l);
        let t = literals_text(front);
        let s = literals_text(lits);
        assert(s == t + w + seq![' ']);
        lemma_words_join(t, w);
        texts::law_white_space_parts_words(t + w, ' ', Seq::empty());
        assert(t + w + seq![' '] + Seq::<char>::empty() =~= s);
        assert(text::words(Seq::<char>::empty()) =~= Seq::<Seq<char>>::empty());
        assert(text::words(t + w) + Seq::<Seq<char>>::empty() =~= text::words(t + w));
        assert(literal_words(lits) =~= literal_words(front).push(w)) by {
            assert forall|i: int| 0 <= i < lits.len() implies literal_words(lits)[i] == literal_words(front).push(w)[i] by {
                if i < front.len() {
                    assert(front[i] == lits[i]);
                }
            }
        }
        assert forall|k: int| 0 <= k < s.len() implies (#[trigger] s[k]) != '\n' by {
            if k < t.len() {
                assert(s[k] == t[k]);
            } else if k < t.len() + w.len() {
                assert(s[k] == w[k - t.len()]);
            }
        }
        if front.len() > 0 {
            assert(s[0] == t[0]);
        } else {
            assert(s[0] == w[0]);
        }
    }
}

/// What a literal is written with.
proof fn lemma_signed_chars(l: i64)
    ensures
        conquer::signed_text(l).len() > 0,
        conquer::signed_text(l)[0] == '-' || text::digit(conquer::signed_text(l)[0]),
        forall|k: int| 0 <= k < conquer::signed_text(l).len() ==> (#[trigger] conquer::signed_text(l)[k]) == '-' || text::digit(conquer::signed_text(l)[k]),
        texts::none_blank(conquer::signed_text(l)),
        texts::one_line(conquer::signed_text(l)),
{
    let s = conquer::signed_text(l);
    reveal_strlit("-");
    if l < 0 {
        let t = semiring::decimal((-l) as nat);
        weights::law_decimal_digits((-l) as nat);
        assert forall|k: int| 0 <= k < s.len() implies (#[trigger] s[k]) == '-' || text::digit(s[k]) by {
            if k > 0 {
                assert(s[k] == t[k - 1]);
            }
        }
    } else {
        weights::law_decimal_digits(l as nat);
    }
}

/// A word put behind a text that is empty or ends in white space is one word more.
proof fn lemma_words_join(t: Seq<char>, w: Seq<char>)
    requires
        t.len() > 0 ==> text::blank(t.last()),
        w.len() > 0,
        texts::none_blank(w),
    ensures
        text::words(t + w) == text::words(t).push(w),
{
    texts::law_single_words(w);
    if t.len() == 0 {
        assert(t + w =~= w);
        assert(text::words(t) =~= Seq::<Seq<char>>::empty());
        assert(seq![w] =~= Seq::<Seq<char>>::empty().push(w));
    } else {
        let a = t.drop_last();
        let c = t.last();
        texts::law_white_space_parts_words(a, c, w);
        assert(a + seq![c] + w =~= t + w);
        texts::law_white_space_parts_words(a, c, Seq::empty());
        assert(a + seq![c] + Seq::<char>::empty() =~= t);
        assert(text::words(Seq::<char>::empty()) =~= Seq::<Seq<char>>::empty());
        assert(text::words(a) + Seq::<Seq<char>>::empty() =~= text::words(a));
        assert(text::words(a) + seq![w] =~= text::words(a).push(w));
    }
}

/// The largest variable of the literals, and at least `n`.
pub open spec fn covering(n: int, lits: Seq<i64>) -> int
    decreases lits.len(),
{
    if lits.len() == 0 {
        n
    } else {
        let m = covering(n, lits.drop_last());
        if dimacs::magnitude(lits.last() as int) > m {
            dimacs::magnitude(lits.last() as int)
        } else {
            m
        }
    }
}

/// The number of variables that literals need: no smaller than any of them, and one of them or `n`.
pub proof fn law_covering(n: int, lits: Seq<i64>)
    ensures
        covering(n, lits) >= n,
        forall|i: int| 0 <= i < lits.len() ==> dimacs::magnitude((#[trigger] lits[i]) as int) <= covering(n, lits),
        covering(n, lits) == n || exists|i: int| 0 <= i < lits.len() && dimacs::magnitude((#[trigger] lits[i]) as int) == covering(n, lits),
    decreases lits.len(),
{
    if lits.len() > 0 {
        let t = lits.drop_last();
        law_covering(n, t);
        assert forall|i: int| 0 <= i < lits.len() implies dimacs::magnitude((#[trigger] lits[i]) as int) <= covering(n, lits) by {
            if i < t.len() {
                assert(t[i] == lits[i]);
            }
        }
        if covering(n, lits) != n {
            if dimacs::magnitude(lits.last() as int) > covering(n, t) {
                assert(dimacs::magnitude(lits[lits.len() - 1] as int) == covering(n, lits));
            } else {
                let i = choose|i: int| 0 <= i < t.len() && dimacs::magnitude((#[trigger] t[i]) as int) == covering(n, t);
                assert(dimacs::magnitude(lits[i] as int) == covering(n, lits));
            }
        }
    }
}

proof fn lemma_tokens(r: Reading, ws: Seq<Seq<char>>, lits: Seq<i64>)
    requires
        ws.len() >= lits.len(),
        dimacs::literals_wf(lits),
        forall|i: int| 0 <= i < lits.len() ==> dimacs::literal(#[trigger] ws[i]) == Some(lits[i] as int),
    ensures
        dimacs::read_tokens(r, ws, lits.len() as int) == Ok::<Reading, Fault>(Reading { nvars: covering(r.nvars, lits), clauses: r.clauses, current: r.current + lits }),
    decreases lits.len(),
{
    if lits.len() == 0 {
        assert(r.current + lits =~= r.current);
    } else {
        let t = lits.drop_last();
        assert forall|i: int| 0 <= i < t.len() implies (#[trigger] t[i]) != 0 && dimacs::magnitude(t[i] as int) <= usize::MAX by {
            assert(t[i] == lits[i]);
        }
        assert forall|i: int| 0 <= i < t.len() implies dimacs::literal(#[trigger] ws[i]) == Some(t[i] as int) by {
            assert(t[i] == lits[i]);
        }
        lemma_tokens(r, ws, t);
        let n = lits.len() - 1;
        assert(dimacs::literal(ws[n]) == Some(lits[n] as int));
        assert(lits[n] != 0 && dimacs::magnitude(lits[n] as int) <= usize::MAX);
        assert((r.current + t).push(lits[n]) =~= r.current + lits);
    }
}

/// A line of literals that ends in zero is read as one clause more: exactly those literals, put behind
/// what was left open before, and the variables grow to hold them.
pub proof fn law_clause_lines_are_read(r: Reading, lits: Seq<i64>)
    requires
        dimacs::literals_wf(lits),
        lits.len() > 0,
    ensures
        dimacs::read_line(r, clause_line(lits)) == Ok::<Reading, Fault>(Reading { nvars: covering(r.nvars, lits), clauses: r.clauses.push(r.current + lits), current: Seq::empty() }),
        texts::one_line(clause_line(lits)),
        clause_line(lits).len() > 0,
{
    let line = clause_line(lits);
    let t = literals_text(lits);
    lemma_literals_text(lits);
    let zero = seq!['0'];
    lemma_words_join(t, zero);
    let ws = text::words(line);
    assert(ws == literal_words(lits).push(zero));
    assert forall|i: int| 0 <= i < lits.len() implies dimacs::literal(#[trigger] ws[i]) == Some(lits[i] as int) by {
        assert(ws[i] == conquer::signed_text(lits[i]));
        weights::law_written_literals_are_read_back(lits[i]);
    }
    lemma_tokens(r, ws, lits);
    weights::law_numbers_of_texts(zero);
    assert(weights::digits_only(zero));
    weights::law_decimal_digits(0);
    assert(semiring::decimal(0) =~= zero);
    assert(ws[lits.len() as int] == zero);
    assert(dimacs::literal(zero) == Some(0int));
    let w0 = ws[0];
    assert(w0 == conquer::signed_text(lits[0]));
    lemma_signed_chars(lits[0]);
    reveal_strlit("c");
    assert(w0[0] != 'c' && w0[0] != 'p' && w0[0] != '%');
    assert("c"@[0] == 'c');
    assert(!dimacs::starts_with3(ws, "c"@, "p"@, "show"@));
    assert((r.current + lits).len() > 0);
    assert forall|k: int| 0 <= k < line.len() implies (#[trigger] line[k]) != '\n' by {
        if k < t.len() {
            assert(line[k] == t[k]);
        }
    }
}

/// A line with a clause begins with a literal, not with a mark.
pub proof fn lemma_clause_line(lits: Seq<i64>)
    requires
        lits.len() > 0,
    ensures
        texts::one_line(clause_line(lits)),
        text::words(clause_line(lits)).len() > 0,
        text::words(clause_line(lits))[0].len() > 0,
        text::words(clause_line(lits))[0][0] == '-' || text::digit(text::words(clause_line(lits))[0][0]),
{
    let line = clause_line(lits);
    let t = literals_text(lits);
    let zero = seq!['0'];
    lemma_literals_text(lits);
    lemma_words_join(t, zero);
    assert(text::words(line) == literal_words(lits).push(zero));
    assert(text::words(line)[0] == conquer::signed_text(lits[0]));
    lemma_signed_chars(lits[0]);
    assert forall|k: int| 0 <= k < line.len() implies (#[trigger] line[k]) != '\n' by {
        if k < t.len() {
            assert(line[k] == t[k]);
        }
    }
}

/// The lines are read on from what was read before.
pub open spec fn read_on(r: Reading, ls: Seq<Seq<char>>) -> Result<Reading, Fault>
    decreases ls.len(),
{
    if ls.len() == 0 {
        Ok(r)
    } else {
        match read_on(r, ls.drop_last()) {
            Ok(s) => dimacs::read_line(s, ls.last()),
            Err(f) => Err(f),
        }
    }
}

proof fn lemma_read_lines(ls: Seq<Seq<char>>, k: int)
    requires
        0 <= k <= ls.len(),
    ensures
        dimacs::read_lines(ls, k) == read_on(Reading { nvars: 0, clauses: Seq::empty(), current: Seq::empty() }, ls.take(k)),
    decreases k,
{
    if k > 0 {
        lemma_read_lines(ls, k - 1);
        assert(ls.take(k).drop_last() =~= ls.take(k - 1));
        assert(ls.take(k).last() == ls[k - 1]);
    }
}

proof fn lemma_read_on_join(r: Reading, a: Seq<Seq<char>>, b: Seq<Seq<char>>)
    ensures
        read_on(r, a + b) == (match read_on(r, a) {
            Ok(s) => read_on(s, b),
            Err(f) => Err(f),
        }),
    decreases b.len(),
{
    if b.len() == 0 {
        assert(a + b =~= a);
    } else {
        lemma_read_on_join(r, a, b.drop_last());
        assert((a + b).drop_last() =~= a + b.drop_last());
        assert((a + b).last() == b.last());
    }
}

proof fn lemma_read_one(r: Reading, l: Seq<char>)
    ensures
        read_on(r, seq![l]) == dimacs::read_line(r, l),
{
    assert(seq![l].drop_last() =~= Seq::<Seq<char>>::empty());
    assert(read_on(r, Seq::empty()) == Ok::<Reading, Fault>(r));
}

/// The header of a formula.
pub open spec fn header_line(n: nat, m: nat) -> Seq<char> {
    "p cnf "@ + semiring::decimal(n) + " "@ + semiring::decimal(m)
}

/// The words of a header.
pub proof fn lemma_header_words(n: nat, m: nat)
    ensures
        text::words(header_line(n, m)) == seq![seq!['p'], seq!['c', 'n', 'f'], semiring::decimal(n), semiring::decimal(m)],
        texts::one_line(header_line(n, m)),
{
    let a = semiring::decimal(n);
    let b = semiring::decimal(m);
    let line = header_line(n, m);
    weights::law_decimal_digits(n);
    weights::law_decimal_digits(m);
    reveal_strlit("p cnf ");
    reveal_strlit(" ");
    let p = seq!['p'];
    let cnf = seq!['c', 'n', 'f'];
    let start = seq!['p', ' ', 'c', 'n', 'f', ' '];
    assert("p cnf "@ =~= start);
    assert forall|k: int| 0 <= k < a.len() implies !text::blank(#[trigger] a[k]) && a[k] != '\n' by {
        assert(text::digit(a[k]));
    }
    assert forall|k: int| 0 <= k < b.len() implies !text::blank(#[trigger] b[k]) && b[k] != '\n' by {
        assert(text::digit(b[k]));
    }
    lemma_words_join(Seq::empty(), p);
    assert(Seq::<char>::empty() + p =~= p);
    assert(text::words(Seq::<char>::empty()) =~= Seq::<Seq<char>>::empty());
    let s1 = seq!['p', ' '];
    texts::law_white_space_parts_words(p, ' ', Seq::empty());
    assert(p + seq![' '] + Seq::<char>::empty() =~= s1);
    assert(text::words(s1) =~= seq![p]);
    lemma_words_join(s1, cnf);
    texts::law_white_space_parts_words(s1 + cnf, ' ', Seq::empty());
    assert(s1 + cnf + seq![' '] + Seq::<char>::empty() =~= start);
    assert(text::words(start) =~= seq![p, cnf]);
    lemma_words_join(start, a);
    texts::law_white_space_parts_words(start + a, ' ', Seq::empty());
    let s2 = start + a + seq![' '];
    assert(start + a + seq![' '] + Seq::<char>::empty() =~= s2);
    assert(text::words(s2) =~= seq![p, cnf, a]);
    lemma_words_join(s2, b);
    assert(s2 + b =~= line);
    let ws = text::words(line);
    assert(ws =~= seq![p, cnf, a, b]);
    assert forall|k: int| 0 <= k < line.len() implies (#[trigger] line[k]) != '\n' by {
        if k < 6 {
            assert(line[k] == start[k]);
        } else if k < 6 + a.len() {
            assert(line[k] == a[k - 6]);
        } else if k > 6 + a.len() {
            assert(line[k] == b[k - 7 - a.len()]);
        }
    }
}

/// A header is read as the number of variables that it declares.
pub proof fn law_header_is_read(r: Reading, n: nat, m: nat)
    requires
        n <= usize::MAX,
    ensures
        dimacs::read_line(r, header_line(n, m)) == Ok::<Reading, Fault>(Reading { nvars: n as int, ..r }),
        texts::one_line(header_line(n, m)),
{
    let a = semiring::decimal(n);
    let ws = text::words(header_line(n, m));
    lemma_header_words(n, m);
    weights::law_decimal_digits(n);
    weights::law_numbers_of_texts(a);
    reveal_strlit("c");
    assert(ws[2] == a);
    assert(ws[0][0] == 'p');
    assert("c"@[0] == 'c');
    assert(!dimacs::starts_with3(ws, "c"@, "p"@, "show"@));
}

/// The lines of a formula without its header: a clause on each.
pub open spec fn clause_lines(clauses: Seq<Seq<i64>>) -> Seq<char>
    decreases clauses.len(),
{
    if clauses.len() == 0 {
        Seq::empty()
    } else {
        clause_lines(clauses.drop_last()) + clause_line(clauses.last()) + seq!['\n']
    }
}

/// The literals name variables up to `n`, and no clause is empty.
pub open spec fn writable(clauses: Seq<Seq<i64>>, n: int) -> bool {
    forall|t: int| 0 <= t < clauses.len() ==> (#[trigger] clauses[t]).len() > 0 && dimacs::literals_wf(clauses[t]) && covering(n, clauses[t]) == n
}

proof fn lemma_text_ends(s: Seq<char>, l: Seq<char>)
    requires
        s.len() == 0 || s.last() == '\n',
        texts::one_line(l),
    ensures
        text::lines(s + l.push('\n')) == text::lines(s).push(l),
{
    texts::law_single_lines(l);
    if s.len() == 0 {
        assert(s + l.push('\n') =~= l.push('\n'));
        assert(text::lines(s) =~= Seq::<Seq<char>>::empty());
        assert(seq![l] =~= Seq::<Seq<char>>::empty().push(l));
    } else {
        let a = s.drop_last();
        assert(a.push('\n') =~= s);
        texts::law_line_feeds_part_lines(a, l.push('\n'));
        assert(text::lines(s) + seq![l] =~= text::lines(s).push(l));
    }
}

proof fn lemma_clauses_read(r: Reading, s: Seq<char>, clauses: Seq<Seq<i64>>, n: int)
    requires
        s.len() == 0 || s.last() == '\n',
        read_on(Reading { nvars: 0, clauses: Seq::empty(), current: Seq::empty() }, text::lines(s)) == Ok::<Reading, Fault>(r),
        r.nvars == n,
        r.current.len() == 0,
        writable(clauses, n),
    ensures
        ({
            let t = s + clause_lines(clauses);
            &&& t.len() == 0 || t.last() == '\n'
            &&& read_on(Reading { nvars: 0, clauses: Seq::empty(), current: Seq::empty() }, text::lines(t)) == Ok::<Reading, Fault>(Reading { nvars: n, clauses: r.clauses + clauses, current: Seq::empty() })
        }),
    decreases clauses.len(),
{
    if clauses.len() == 0 {
        assert(s + clause_lines(clauses) =~= s);
        assert(r.clauses + clauses =~= r.clauses);
        assert(r.current =~= Seq::<i64>::empty());
    } else {
        let front = clauses.drop_last();
        let c = clauses.last();
        assert forall|t: int| 0 <= t < front.len() implies (#[trigger] front[t]).len() > 0 && dimacs::literals_wf(front[t]) && covering(n, front[t]) == n by {
            assert(front[t] == clauses[t]);
        }
        lemma_clauses_read(r, s, front, n);
        let t = s + clause_lines(front);
        let r0 = Reading { nvars: 0, clauses: Seq::<Seq<i64>>::empty(), current: Seq::<i64>::empty() };
        let r1 = Reading { nvars: n, clauses: r.clauses + front, current: Seq::<i64>::empty() };
        assert(clauses[clauses.len() - 1].len() > 0);
        law_clause_lines_are_read(r1, c);
        lemma_text_ends(t, clause_line(c));
        assert(s + clause_lines(clauses) =~= t + clause_line(c).push('\n'));
        let ls = text::lines(t);
        assert(ls.push(clause_line(c)).drop_last() =~= ls);
        assert(r1.current + c =~= c);
        assert((r.clauses + front).push(c) =~= r.clauses + clauses);
        assert((t + clause_line(c).push('\n')).last() == '\n');
    }
}

/// A formula that is written out is read back as the same clauses over the same variables.
pub proof fn law_written_formulas_are_read_back(n: nat, m: nat, clauses: Seq<Seq<i64>>)
    requires
        n <= usize::MAX,
        writable(clauses, n as int),
    ensures
        dimacs::formula(header_line(n, m) + seq!['\n'] + clause_lines(clauses)) == Ok::<(int, Seq<Seq<i64>>), Fault>((n as int, clauses)),
{
    let head = header_line(n, m).push('\n');
    let r0 = Reading { nvars: 0, clauses: Seq::<Seq<i64>>::empty(), current: Seq::<i64>::empty() };
    law_header_is_read(r0, n, m);
    texts::law_single_lines(header_line(n, m));
    lemma_read_one(r0, header_line(n, m));
    let r = Reading { nvars: n as int, ..r0 };
    lemma_clauses_read(r, head, clauses, n as int);
    let all = header_line(n, m) + seq!['\n'] + clause_lines(clauses);
    assert(all =~= head + clause_lines(clauses));
    let ls = text::lines(all);
    lemma_read_lines(ls, ls.len() as int);
    crate::seqs::lemma_take_all(ls);
    assert(r.clauses + clauses =~= clauses);
}

/// A clause that the text does not end counts too.
pub proof fn law_open_clauses_count(n: nat, m: nat, clauses: Seq<Seq<i64>>, lits: Seq<i64>)
    requires
        n <= usize::MAX,
        writable(clauses, n as int),
        lits.len() > 0,
        dimacs::literals_wf(lits),
        covering(n as int, lits) == n,
    ensures
        dimacs::formula(header_line(n, m) + seq!['\n'] + clause_lines(clauses) + literals_text(lits)) == Ok::<(int, Seq<Seq<i64>>), Fault>((n as int, clauses.push(lits))),
{
    let head = header_line(n, m).push('\n');
    let r0 = Reading { nvars: 0, clauses: Seq::<Seq<i64>>::empty(), current: Seq::<i64>::empty() };
    law_header_is_read(r0, n, m);
    texts::law_single_lines(header_line(n, m));
    lemma_read_one(r0, header_line(n, m));
    let r = Reading { nvars: n as int, ..r0 };
    lemma_clauses_read(r, head, clauses, n as int);
    let s = head + clause_lines(clauses);
    let line = literals_text(lits);
    lemma_literals_text(lits);
    let all = header_line(n, m) + seq!['\n'] + clause_lines(clauses) + line;
    assert(all =~= s + line);
    let a = s.drop_last();
    assert(a.push('\n') =~= s);
    texts::law_line_feeds_part_lines(a, line);
    texts::law_single_lines(line);
    let ls = text::lines(all);
    assert(ls == text::lines(s) + seq![line]);
    lemma_read_on_join(r0, text::lines(s), seq![line]);
    let r1 = Reading { nvars: n as int, clauses: r.clauses + clauses, current: Seq::<i64>::empty() };
    lemma_read_one(r1, line);
    let ws = text::words(line);
    assert forall|i: int| 0 <= i < lits.len() implies dimacs::literal(#[trigger] ws[i]) == Some(lits[i] as int) by {
        assert(ws[i] == conquer::signed_text(lits[i]));
        weights::law_written_literals_are_read_back(lits[i]);
    }
    lemma_tokens(r1, ws, lits);
    lemma_signed_chars(lits[0]);
    assert(ws[0] == conquer::signed_text(lits[0]));
    reveal_strlit("c");
    assert("c"@[0] == 'c');
    assert(!dimacs::starts_with3(ws, "c"@, "p"@, "show"@));
    assert(r1.current + lits =~= lits);
    assert(r.clauses + clauses =~= clauses);
    lemma_read_lines(ls, ls.len() as int);
    crate::seqs::lemma_take_all(ls);
}

/// The literals as clauses of their own.
pub open spec fn units(cube: Seq<i64>) -> Seq<Seq<i64>> {
    Seq::new(cube.len(), |i: int| seq![cube[i]])
}

proof fn lemma_unit_clauses(cube: Seq<i64>, k: int)
    requires
        0 <= k <= cube.len(),
    ensures
        conquer::unit_clauses(cube, k) == clause_lines(units(cube.take(k))),
    decreases k,
{
    if k > 0 {
        lemma_unit_clauses(cube, k - 1);
        let us = units(cube.take(k));
        assert(us.drop_last() =~= units(cube.take(k - 1)));
        let l = cube[k - 1];
        let one = seq![l];
        assert(us.last() =~= one);
        assert(one.drop_last() =~= Seq::<i64>::empty());
        assert(literals_text(one) == literals_text(one.drop_last()) + conquer::signed_text(l) + seq![' ']);
        assert(literals_text(Seq::<i64>::empty()) =~= Seq::<char>::empty());
        reveal_strlit(" 0\n");
        assert(conquer::unit_clauses(cube, k) =~= clause_lines(us));
    }
}

/// The text for the solver is the formula with one clause more for each literal of the cube: the
/// clauses that the body holds come first, and then the literals.
pub proof fn law_query_adds_the_cube(t: CnfTemplate, cube: Seq<i64>, r: Reading)
    requires
        t.takes(cube),
        forall|i: int| 0 <= i < cube.len() ==> (#[trigger] cube[i]) != 0,
        read_on(Reading { nvars: t.variables as int, clauses: Seq::empty(), current: Seq::empty() }, text::lines(t.body@)) == Ok::<Reading, Fault>(r),
        r.nvars == t.variables,
        r.current.len() == 0,
    ensures
        dimacs::formula(t.with_cube(cube)) == Ok::<(int, Seq<Seq<i64>>), Fault>((t.variables as int, r.clauses + units(cube))),
{
    let n = t.variables as nat;
    let m = (t.clauses + cube.len()) as nat;
    let body = t.body@;
    let head = header_line(n, m).push('\n');
    let ends = body.len() > 0 && body.last() == '\n';
    let full = if ends {
        body
    } else {
        body.push('\n')
    };
    reveal_strlit("\n");
    let r0 = Reading { nvars: 0, clauses: Seq::<Seq<i64>>::empty(), current: Seq::<i64>::empty() };
    let rh = Reading { nvars: n as int, ..r0 };
    law_header_is_read(r0, n, m);
    texts::law_single_lines(header_line(n, m));
    lemma_read_one(r0, header_line(n, m));
    assert(read_on(r0, text::lines(head)) == Ok::<Reading, Fault>(rh));
    assert(read_on(rh, text::lines(full)) == Ok::<Reading, Fault>(r)) by {
        if !ends {
            if body.len() == 0 {
                texts::law_single_lines(body);
                assert(body =~= Seq::<char>::empty());
                assert(text::lines(body) =~= Seq::<Seq<char>>::empty());
                lemma_read_one(rh, body);
                reveal_strlit("c");
                texts::law_single_words(body);
                assert(text::words(body).len() == 0);
            } else {
                assert(full.drop_last() =~= body);
                assert(full[full.len() - 2] == body[body.len() - 1]);
                assert(text::lines(full) == text::lines(body));
            }
        }
    }
    texts::law_line_feeds_part_lines(header_line(n, m), full);
    let s = head + full;
    lemma_read_on_join(r0, text::lines(head), text::lines(full));
    assert(s.last() == '\n');
    let us = units(cube);
    assert forall|i: int| 0 <= i < us.len() implies (#[trigger] us[i]).len() > 0 && dimacs::literals_wf(us[i]) && covering(n as int, us[i]) == n as int by {
        assert(us[i] == seq![cube[i]]);
        assert(cube[i] != 0 && dimacs::magnitude(cube[i] as int) <= t.variables);
        assert(us[i].drop_last() =~= Seq::<i64>::empty());
        assert(covering(n as int, us[i].drop_last()) == n as int);
    }
    lemma_clauses_read(r, s, us, n as int);
    lemma_unit_clauses(cube, cube.len() as int);
    crate::seqs::lemma_take_all(cube);
    let all = t.with_cube(cube);
    assert(all =~= s + clause_lines(us));
    let ls = text::lines(all);
    lemma_read_lines(ls, ls.len() as int);
    crate::seqs::lemma_take_all(ls);
}

} // verus!
