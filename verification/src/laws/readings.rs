//! What is read of lines, headers and arguments.
use vstd::prelude::*;

use crate::args;
use crate::audit;
use crate::bits;
use crate::conquer;
use crate::csp;
use crate::dimacs;
use crate::dimacs::{Fault, Reading};
use crate::domain::DomainMask;
use crate::laws::formulas;
use crate::laws::sizes;
use crate::laws::steps;
use crate::laws::texts;
use crate::laws::weights;
use crate::network::ConstraintNetwork;
use crate::semiring;
use crate::semiring::WeightError;
use crate::text;

verus! {

/// Lines put one below the other, each with its line feed.
pub open spec fn stacked(ls: Seq<Seq<char>>) -> Seq<char>
    decreases ls.len(),
{
    if ls.len() == 0 {
        Seq::empty()
    } else {
        ls[0].push('\n') + stacked(ls.drop_first())
    }
}

/// The line is to be a header.
pub open spec fn header_mark(l: Seq<char>) -> bool {
    text::words(l).len() > 0 && text::words(l)[0] == "p"@
}

/// Lines without a line feed of which none is to be a header.
pub open spec fn plain(ls: Seq<Seq<char>>) -> bool {
    forall|i: int| 0 <= i < ls.len() ==> texts::one_line(#[trigger] ls[i]) && !header_mark(ls[i])
}

proof fn lemma_first_line(l: Seq<char>, s: Seq<char>)
    requires
        texts::one_line(l),
    ensures
        conquer::first_line(l.push('\n') + s) == l.len() + 1,
        (l.push('\n') + s).take(l.len() as int + 1) == l.push('\n'),
        (l.push('\n') + s).skip(l.len() as int + 1) == s,
        text::words(l.push('\n')) == text::words(l),
{
    let t = l.push('\n') + s;
    assert forall|k: int| 0 <= k < l.len() implies (#[trigger] t[k]) != '\n' by {
        assert(t[k] == l[k]);
    }
    assert(t[l.len() as int] == '\n');
    text::lemma_first_at(t, '\n', l.len() as int);
    assert(t.take(l.len() as int + 1) =~= l.push('\n'));
    assert(t.skip(l.len() as int + 1) =~= s);
    texts::law_white_space_parts_words(l, '\n', Seq::empty());
    assert(l + seq!['\n'] + Seq::<char>::empty() =~= l.push('\n'));
    assert(text::words(Seq::<char>::empty()) =~= Seq::<Seq<char>>::empty());
    assert(text::words(l) + Seq::<Seq<char>>::empty() =~= text::words(l));
}

proof fn lemma_plain_lines(ls: Seq<Seq<char>>, s: Seq<char>, found: Option<(int, int)>, body: Seq<char>)
    requires
        plain(ls),
    ensures
        conquer::taken_apart(stacked(ls) + s, found, body) == conquer::taken_apart(s, found, body + stacked(ls)),
    decreases ls.len(),
{
    if ls.len() == 0 {
        assert(stacked(ls) + s =~= s);
        assert(body + stacked(ls) =~= body);
    } else {
        let l = ls[0];
        let rest = ls.drop_first();
        assert(texts::one_line(ls[0]) && !header_mark(ls[0]));
        assert forall|i: int| 0 <= i < rest.len() implies texts::one_line(#[trigger] rest[i]) && !header_mark(rest[i]) by {
            assert(rest[i] == ls[i + 1]);
        }
        let t = stacked(rest) + s;
        assert(stacked(ls) + s =~= l.push('\n') + t);
        lemma_first_line(l, t);
        lemma_plain_lines(rest, s, found, body + l.push('\n'));
        assert(body + l.push('\n') + stacked(rest) =~= body + stacked(ls));
    }
}

/// A formula is taken apart into its header and the other lines, which stay as they are. A text
/// without a header, with a second one, or with one that is malformed is refused.
pub proof fn law_formulas_are_taken_apart(pre: Seq<Seq<char>>, h: Seq<char>, post: Seq<Seq<char>>, again: Seq<char>)
    requires
        plain(pre),
        plain(post),
        texts::one_line(h),
        header_mark(h),
        texts::one_line(again),
        header_mark(again),
    ensures
        conquer::template_of(stacked(pre) + h.push('\n') + stacked(post)) == (match conquer::header(text::words(h)) {
            Some(x) => Some((x.0, x.1, stacked(pre) + stacked(post))),
            None => None,
        }),
        conquer::template_of(stacked(pre)) is None,
        conquer::template_of(stacked(pre) + h.push('\n') + stacked(post) + again.push('\n')) is None,
{
    let a = stacked(pre);
    let b = stacked(post);
    let none = Seq::<char>::empty();
    lemma_plain_lines(pre, none, None, none);
    assert(a + none =~= a);
    let s = h.push('\n') + b;
    assert(a + h.push('\n') + b =~= a + s);
    lemma_plain_lines(pre, s, None, none);
    assert(none + a =~= a);
    lemma_first_line(h, b);
    let x = conquer::header(text::words(h));
    if x is Some {
        lemma_plain_lines(post, none, x, a);
        assert(b + none =~= b);
    }
    let c = again.push('\n');
    let s2 = h.push('\n') + (b + c);
    assert(a + h.push('\n') + b + c =~= a + s2);
    lemma_plain_lines(pre, s2, None, none);
    lemma_first_line(h, b + c);
    if x is Some {
        lemma_plain_lines(post, c, x, a);
        lemma_first_line(again, none);
        assert(c + none =~= c);
    }
}

/// A header is read as its two numbers.
pub proof fn law_headers_are_read(a: Seq<char>, b: Seq<char>, n: int, m: int)
    requires
        text::unsigned(a) == Some(n),
        text::unsigned(b) == Some(m),
        n <= usize::MAX,
        m <= usize::MAX,
    ensures
        conquer::header(seq!["p"@, "cnf"@, a, b]) == Some((n, m)),
        conquer::header(seq!["p"@, "cnf"@, a]) is None,
        conquer::header(seq!["p"@, "cnf"@, a, b, b]) is None,
{
}

/// Blank lines and lines that begin with a `c` or a percent sign change nothing, and a line that asks
/// for a projection is refused.
pub proof fn law_lines_passed_over(r: Reading, line: Seq<char>)
    ensures
        text::words(line).len() == 0 ==> dimacs::read_line(r, line) == Ok::<Reading, Fault>(r),
        text::words(line).len() >= 3 && text::words(line)[0] == "c"@ && text::words(line)[1] == "p"@ && text::words(line)[2] == "show"@ ==> dimacs::read_line(r, line) == Err::<Reading, Fault>(Fault::Projected),
        text::words(line).len() > 0 && text::words(line)[0][0] == 'c' && !(text::words(line).len() >= 3 && text::words(line)[0] == "c"@ && text::words(line)[1] == "p"@ && text::words(line)[2] == "show"@) ==> dimacs::read_line(r, line) == Ok::<Reading, Fault>(r),
        text::words(line).len() > 0 && text::words(line)[0][0] == '%' ==> dimacs::read_line(r, line) == Ok::<Reading, Fault>(r),
{
    reveal_strlit("c");
    assert("c"@[0] == 'c');
}

/// A line that begins with a `p` declares by its third word how many variables there are; a third word that is no
/// such number is refused, and with fewer words the line says nothing.
pub proof fn law_headers_declare_variables(r: Reading, line: Seq<char>, n: int)
    requires
        text::words(line).len() > 0,
        text::words(line)[0][0] == 'p',
    ensures
        text::words(line).len() < 3 ==> dimacs::read_line(r, line) == Ok::<Reading, Fault>(r),
        text::words(line).len() >= 3 && text::unsigned(text::words(line)[2]) == Some(n) && n <= usize::MAX ==> dimacs::read_line(r, line) == Ok::<Reading, Fault>(Reading { nvars: n, ..r }),
        text::words(line).len() >= 3 && text::unsigned(text::words(line)[2]) is None ==> dimacs::read_line(r, line) == Err::<Reading, Fault>(Fault::Token(text::words(line)[2])),
{
    reveal_strlit("c");
    assert("c"@[0] == 'c');
}

/// What a token does: a zero ends the clause unless it is empty, another literal goes on it, one that no
/// variable of this machine has is refused, and what is no literal is passed over.
pub proof fn law_tokens(r: Reading, tok: Seq<char>, v: int)
    requires
        i64::MIN <= v <= i64::MAX,
    ensures
        text::signed(tok) is None ==> dimacs::read_token(r, tok) == Ok::<Reading, Fault>(r),
        text::signed(tok) == Some(0int) && r.current.len() == 0 ==> dimacs::read_token(r, tok) == Ok::<Reading, Fault>(r),
        text::signed(tok) == Some(0int) && r.current.len() > 0 ==> dimacs::read_token(r, tok) == Ok::<Reading, Fault>(Reading { nvars: r.nvars, clauses: r.clauses.push(r.current), current: Seq::empty() }),
        text::signed(tok) == Some(v) && v != 0 && -usize::MAX <= v <= usize::MAX ==> dimacs::read_token(r, tok) is Ok && dimacs::read_token(r, tok)->Ok_0.current == r.current.push(v as i64) && dimacs::read_token(r, tok)->Ok_0.clauses == r.clauses && dimacs::read_token(r, tok)->Ok_0.nvars >= r.nvars,
        text::signed(tok) == Some(v) && (v > usize::MAX || v < -usize::MAX) ==> dimacs::read_token(r, tok) == Err::<Reading, Fault>(Fault::Token(tok)),
{
}

proof fn lemma_stacked_join(a: Seq<Seq<char>>, b: Seq<Seq<char>>)
    ensures
        stacked(a + b) == stacked(a) + stacked(b),
    decreases a.len(),
{
    if a.len() == 0 {
        assert(a + b =~= b);
        assert(stacked(a) + stacked(b) =~= stacked(b));
    } else {
        lemma_stacked_join(a.drop_first(), b);
        assert((a + b).drop_first() =~= a.drop_first() + b);
        assert((a + b)[0] == a[0]);
        assert(stacked(a + b) =~= stacked(a) + stacked(b));
    }
}

/// The lines of unit clauses.
pub open spec fn unit_lines(cube: Seq<i64>) -> Seq<Seq<char>> {
    Seq::new(cube.len(), |i: int| formulas::clause_line(seq![cube[i]]))
}

proof fn lemma_unit_lines(cube: Seq<i64>, k: int)
    requires
        0 <= k <= cube.len(),
    ensures
        conquer::unit_clauses(cube, k) == stacked(unit_lines(cube.take(k))),
        forall|i: int| 0 <= i < k ==> texts::one_line(#[trigger] unit_lines(cube.take(k))[i]) && (cube[i] != 0 ==> !header_mark(unit_lines(cube.take(k))[i])),
    decreases k,
{
    let now = unit_lines(cube.take(k));
    if k == 0 {
        assert(now =~= Seq::<Seq<char>>::empty());
    } else {
        lemma_unit_lines(cube, k - 1);
        let l = cube[k - 1];
        let before = unit_lines(cube.take(k - 1));
        let line = formulas::clause_line(seq![l]);
        assert(now =~= before + seq![line]);
        lemma_stacked_join(before, seq![line]);
        assert(seq![line].drop_first() =~= Seq::<Seq<char>>::empty());
        assert(stacked(Seq::<Seq<char>>::empty()) =~= Seq::<char>::empty());
        assert(stacked(seq![line]) =~= line.push('\n'));
        let one = seq![l];
        assert(one.drop_last() =~= Seq::<i64>::empty());
        assert(formulas::literals_text(one) == formulas::literals_text(one.drop_last()) + conquer::signed_text(l) + seq![' ']);
        assert(formulas::literals_text(Seq::<i64>::empty()) =~= Seq::<char>::empty());
        reveal_strlit(" 0\n");
        assert(conquer::unit_clauses(cube, k) =~= stacked(now));
        formulas::lemma_clause_line(one);
        reveal_strlit("p");
        assert forall|i: int| 0 <= i < k implies texts::one_line(#[trigger] now[i]) && (cube[i] != 0 ==> !header_mark(now[i])) by {
            if i < k - 1 {
                assert(now[i] == before[i]);
            } else {
                assert(now[i] == line);
                assert("p"@[0] == 'p');
            }
        }
    }
}

/// The text for the solver, taken apart again, is the same formula with the literals behind its lines, and its
/// header counts them.
pub proof fn law_queries_count_their_clauses(t: conquer::CnfTemplate, cube: Seq<i64>, ls: Seq<Seq<char>>)
    requires
        ls.len() > 0,
        plain(ls),
        t.body@ == stacked(ls),
        forall|i: int| 0 <= i < cube.len() ==> (#[trigger] cube[i]) != 0,
        t.clauses + cube.len() <= usize::MAX,
    ensures
        conquer::template_of(t.with_cube(cube)) == Some((t.variables as int, t.clauses + cube.len(), stacked(ls) + conquer::unit_clauses(cube, cube.len() as int))),
{
    let n = t.variables as nat;
    let m = (t.clauses + cube.len()) as nat;
    let h = formulas::header_line(n, m);
    let none = Seq::<Seq<char>>::empty();
    let us = unit_lines(cube);
    lemma_unit_lines(cube, cube.len() as int);
    crate::seqs::lemma_take_all(cube);
    let post = ls + us;
    assert forall|i: int| 0 <= i < post.len() implies texts::one_line(#[trigger] post[i]) && !header_mark(post[i]) by {
        if i < ls.len() {
            assert(post[i] == ls[i]);
        } else {
            assert(post[i] == us[i - ls.len()]);
            assert(cube[i - ls.len()] != 0);
        }
    }
    lemma_stacked_join(ls, us);
    formulas::lemma_header_words(n, m);
    reveal_strlit("p");
    reveal_strlit("cnf");
    reveal_strlit("\n");
    let ws = text::words(h);
    assert("p"@ =~= seq!['p']);
    assert("cnf"@ =~= seq!['c', 'n', 'f']);
    assert(header_mark(h));
    law_formulas_are_taken_apart(none, h, post, h);
    assert(stacked(none) =~= Seq::<char>::empty());
    lemma_stacked_end(ls);
    weights::law_decimal_digits(n);
    weights::law_decimal_digits(m);
    weights::law_numbers_of_texts(semiring::decimal(n));
    weights::law_numbers_of_texts(semiring::decimal(m));
    assert(conquer::header(ws) == Some((n as int, m as int)));
    let all = t.with_cube(cube);
    assert(all =~= stacked(none) + h.push('\n') + stacked(post));
    assert(stacked(none) + stacked(post) =~= stacked(ls) + stacked(us));
}

proof fn lemma_stacked_end(ls: Seq<Seq<char>>)
    requires
        ls.len() > 0,
    ensures
        stacked(ls).len() > 0,
        stacked(ls).last() == '\n',
    decreases ls.len(),
{
    let rest = ls.drop_first();
    if rest.len() > 0 {
        lemma_stacked_end(rest);
        assert(stacked(ls).last() == stacked(rest).last());
    } else {
        assert(stacked(rest) =~= Seq::<char>::empty());
        assert(stacked(ls) =~= ls[0].push('\n'));
    }
}

proof fn lemma_body(weights: bool, nvars: int, data: Seq<(int, Seq<char>)>, k: int)
    requires
        0 <= k <= data.len(),
    ensures
        sizes::finds_first(csp::body_fault(weights, nvars, data, k), k, |i: int| i >= 1 && csp::line_fault(weights, data[i].0, nvars, data[i].1) is Some, |i: int| csp::line_fault(weights, data[i].0, nvars, data[i].1)->0),
    decreases k,
{
    let p = |i: int| i >= 1 && csp::line_fault(weights, data[i].0, nvars, data[i].1) is Some;
    let g = |i: int| csp::line_fault(weights, data[i].0, nvars, data[i].1)->0;
    if k > 1 {
        lemma_body(weights, nvars, data, k - 1);
        sizes::lemma_next_found(csp::body_fault(weights, nvars, data, k - 1), k - 1, p, g, csp::body_fault(weights, nvars, data, k));
    }
}

/// What is wrong with the lines behind the header is what is wrong with the first with which something is.
pub proof fn law_first_faulty_line(weights: bool, nvars: int, data: Seq<(int, Seq<char>)>)
    ensures
        sizes::finds_first(csp::body_fault(weights, nvars, data, data.len() as int), data.len() as int, |i: int| i >= 1 && csp::line_fault(weights, data[i].0, nvars, data[i].1) is Some, |i: int| csp::line_fault(weights, data[i].0, nvars, data[i].1)->0),
{
    lemma_body(weights, nvars, data, data.len() as int);
}

/// A text of relations is accepted exactly where its first line that says something is the number of
/// variables and no line behind it is at fault.
pub proof fn law_accepted_texts(weights: bool, input: Seq<char>)
    ensures
        ({
            let data = csp::data_lines(text::lines(input), text::lines(input).len() as int);
            csp::csp_fault(weights, input) is None <==> {
                &&& data.len() > 0
                &&& text::unsigned(data[0].1) is Some
                &&& text::unsigned(data[0].1)->0 <= usize::MAX
                &&& forall|i: int| 1 <= i < data.len() ==> csp::line_fault(weights, (#[trigger] data[i]).0, text::unsigned(data[0].1)->0, data[i].1) is None
            }
        }),
{
    let data = csp::data_lines(text::lines(input), text::lines(input).len() as int);
    if data.len() > 0 {
        let n = text::unsigned(data[0].1)->0;
        law_first_faulty_line(weights, n, data);
        let p = |i: int| i >= 1 && csp::line_fault(weights, data[i].0, n, data[i].1) is Some;
        let g = |i: int| csp::line_fault(weights, data[i].0, n, data[i].1)->0;
        let r = csp::body_fault(weights, n, data, data.len() as int);
        if r is Some {
            let i = choose|i: int| #[trigger] sizes::stands_first(i, data.len() as int, p) && r->0 == g(i);
            assert(p(i));
        } else {
            assert forall|i: int| 1 <= i < data.len() implies csp::line_fault(weights, (#[trigger] data[i]).0, n, data[i].1) is None by {
                assert(!p(i));
            }
        }
    }
}

/// A weight line names a variable and two weights; where weights are not asked for it is read as a relation.
pub proof fn law_weight_lines(line: int, nvars: int, chars: Seq<char>)
    requires
        text::words(chars).len() > 0,
        text::words(chars)[0] == "w"@,
    ensures
        csp::line_fault(true, line, nvars, chars) is None <==> text::words(chars).len() == 4 && text::unsigned(text::words(chars)[1]) is Some && text::unsigned(text::words(chars)[1])->0 <= usize::MAX,
        csp::line_fault(false, line, nvars, chars) == csp::constraint_fault(line, nvars, chars),
{
}

proof fn lemma_hex_words(ws: Seq<u64>, k: int)
    requires
        0 <= k <= ws.len(),
    ensures
        audit::hex_words(ws, k).len() == 16 * k,
        forall|i: int| 0 <= i < k ==> audit::hex_words(ws, k).subrange(16 * i, 16 * i + 16) == audit::hex_word(#[trigger] ws[i]),
    decreases k,
{
    if k > 0 {
        lemma_hex_words(ws, k - 1);
        let a = audit::hex_words(ws, k - 1);
        let s = audit::hex_words(ws, k);
        assert forall|i: int| 0 <= i < k implies s.subrange(16 * i, 16 * i + 16) == audit::hex_word(#[trigger] ws[i]) by {
            if i < k - 1 {
                assert(s.subrange(16 * i, 16 * i + 16) =~= a.subrange(16 * i, 16 * i + 16));
            } else {
                assert(s.subrange(16 * i, 16 * i + 16) =~= audit::hex_word(ws[i]));
            }
        }
    }
}

/// The word of the group of sixteen hexadecimal digits at the place.
pub open spec fn group(s: Seq<char>, w: int) -> int {
    steps::hex_number(s.subrange(16 * w, 16 * w + 16))
}

/// The bit of an original variable: in the word for it, the lowest bit for the first.
pub open spec fn signature_bit(s: Seq<char>, o: int) -> bool {
    bits::bit(group(s, o / 64) as u64, o % 64)
}

/// The signature of a fixed assignment tells of each original variable whether it is fixed, and to what.
pub proof fn law_signatures(cn: ConstraintNetwork, d: Seq<DomainMask>, fixed: usize, mask: Seq<char>, values: Seq<char>, o: int)
    requires
        audit::signature(cn, d, fixed, mask, values),
        0 <= o < cn.orig_to_new@.len(),
    ensures
        signature_bit(mask, o) <==> cn.orig_to_new@[o] is Some && d[cn.orig_to_new@[o]->0 as int].fixed(),
        signature_bit(values, o) <==> cn.orig_to_new@[o] is Some && d[cn.orig_to_new@[o]->0 as int] == DomainMask::D1,
{
    let n = cn.orig_to_new@.len() as int;
    let p = |o: int| audit::fixed_value(cn, d, o) is Some;
    let q = |o: int| audit::fixed_value(cn, d, o) == Some(true);
    let ms = choose|ms: Seq<u64>| audit::packs(ms, n, p) && mask == #[trigger] audit::hex_words(ms, ms.len() as int);
    let vs = choose|vs: Seq<u64>| audit::packs(vs, n, q) && values == #[trigger] audit::hex_words(vs, vs.len() as int);
    let w = o / 64;
    let j = o % 64;
    assert(o == w * 64 + j);
    lemma_hex_words(ms, ms.len() as int);
    lemma_hex_words(vs, vs.len() as int);
    assert(0 <= w < ms.len() && 0 <= w < vs.len());
    steps::law_hexadecimal_words(ms[w]);
    steps::law_hexadecimal_words(vs[w]);
    assert(group(mask, w) == ms[w]);
    assert(group(values, w) == vs[w]);
    assert(bits::bit(ms[w], j) <==> (w * 64 + j < n && p(w * 64 + j)));
    assert(bits::bit(vs[w], j) <==> (w * 64 + j < n && q(w * 64 + j)));
}

/// What an audit adds up: the variables fixed before, those that the cube fixed, and those that
/// propagation fixed besides.
pub proof fn law_audits_add_up(cn: ConstraintNetwork, root: Seq<DomainMask>, added: nat, d: Seq<DomainMask>, tables: Seq<crate::ct::RSparseBitSet>, ok: bool, a: audit::Audit)
    requires
        audit::audited(cn, root, added, d, tables, ok, a),
        crate::util::unfixed(d, cn.n()) + added <= crate::util::unfixed(root, cn.n()),
    ensures
        a.explicit_new_variables == added,
        crate::util::unfixed(root, cn.n()) == crate::util::unfixed(d, cn.n()) + a.explicit_new_variables + a.gac_additional_fixed_variables,
{
}

/// A command line of the audit that names an input, a frontier, an output and an arm asks for just that.
pub proof fn law_audit_command_line(input: Seq<char>, frontier: Seq<char>, output: Seq<char>, arm: Seq<char>)
    requires
        input.len() == 0 || input[0] != '-',
        frontier.len() == 0 || frontier[0] != '-',
    ensures
        args::audit_line(seq![input, frontier, "-o"@, output, "--arm"@, arm]) == Ok::<args::AuditDraft, args::AuditArgFault>(args::AuditDraft { positional: seq![input, frontier], output: Some(output), arm }),
        args::audit_line(seq![input, frontier, "--output"@, output]) == Ok::<args::AuditDraft, args::AuditArgFault>(args::AuditDraft { positional: seq![input, frontier], output: Some(output), arm: "unknown"@ }),
{
    reveal_strlit("-o");
    reveal_strlit("--output");
    reveal_strlit("--arm");
    assert("-o"@[0] == '-' && "--output"@[0] == '-' && "--arm"@[0] == '-');
    assert("-o"@.len() == 2 && "--output"@.len() == 8 && "--arm"@.len() == 5);
    let d0 = args::AuditDraft { positional: Seq::empty(), output: None, arm: "unknown"@ };
    let d1 = args::AuditDraft { positional: Seq::<Seq<char>>::empty().push(input), ..d0 };
    let d2 = args::AuditDraft { positional: Seq::<Seq<char>>::empty().push(input).push(frontier), ..d0 };
    let d3 = args::AuditDraft { output: Some(output), ..d2 };
    let d4 = args::AuditDraft { arm, ..d3 };
    assert(d2.positional =~= seq![input, frontier]);
    let raw = seq![input, frontier, "-o"@, output, "--arm"@, arm];
    assert(args::read_audit(raw, 6, d4) == Ok::<args::AuditDraft, args::AuditArgFault>(d4));
    assert(args::read_audit(raw, 4, d3) == args::read_audit(raw, 6, d4));
    assert(args::read_audit(raw, 2, d2) == args::read_audit(raw, 4, d3));
    assert(args::read_audit(raw, 1, d1) == args::read_audit(raw, 2, d2));
    assert(args::read_audit(raw, 0, d0) == args::read_audit(raw, 1, d1));
    let raw2 = seq![input, frontier, "--output"@, output];
    assert(args::read_audit(raw2, 4, d3) == Ok::<args::AuditDraft, args::AuditArgFault>(d3));
    assert(args::read_audit(raw2, 2, d2) == args::read_audit(raw2, 4, d3));
    assert(args::read_audit(raw2, 1, d1) == args::read_audit(raw2, 2, d2));
    assert(args::read_audit(raw2, 0, d0) == args::read_audit(raw2, 1, d1));
}

/// Minus signs in front are taken off, all of them and nothing else.
pub proof fn law_minus_signs_are_taken_off(m: Seq<char>, s: Seq<char>)
    requires
        forall|k: int| 0 <= k < m.len() ==> (#[trigger] m[k]) == '-',
        s.len() > 0 ==> s[0] != '-',
    ensures
        semiring::after_minuses(m + s) == s,
    decreases m.len(),
{
    if m.len() == 0 {
        assert(m + s =~= s);
    } else {
        let t = m.drop_first();
        assert forall|k: int| 0 <= k < t.len() implies (#[trigger] t[k]) == '-' by {
            assert(t[k] == m[k + 1]);
        }
        law_minus_signs_are_taken_off(t, s);
        assert((m + s).drop_first() =~= t + s);
        assert((m + s)[0] == m[0]);
    }
}

/// Underscores between digits do not count.
pub proof fn law_underscores_do_not_count(s: Seq<char>)
    requires
        forall|k: int| 0 <= k < s.len() ==> text::digit(#[trigger] s[k]) || s[k] == '_',
    ensures
        semiring::spaced_number(s) == weights::spelled(s.filter(|c: char| c != '_')),
    decreases s.len(),
{
    reveal(Seq::filter);
    let f = |c: char| c != '_';
    if s.len() > 0 {
        let t = s.drop_last();
        assert forall|k: int| 0 <= k < t.len() implies text::digit(#[trigger] t[k]) || t[k] == '_' by {
            assert(t[k] == s[k]);
        }
        law_underscores_do_not_count(t);
        assert(text::digit(s[s.len() - 1]) || s[s.len() - 1] == '_');
        if s.last() != '_' {
            weights::lemma_spelled_push(t.filter(f), s.last());
        }
    }
}

/// An error about a ratio or a decimal quotes the part that it is about.
pub proof fn law_errors_quote_their_part(a: Seq<char>, b: Seq<char>)
    requires
        a.len() > 0,
        b.len() > 0,
        texts::none_blank(a),
        texts::none_blank(b),
        forall|k: int| 0 <= k < a.len() ==> (#[trigger] a[k]) != '/' && a[k] != '.',
    ensures
        WeightError::BadNumerator.part_of(a + seq!['/'] + b) == a,
        WeightError::BadDenominator.part_of(a + seq!['/'] + b) == b,
        WeightError::ZeroDenominator.part_of(a + seq!['/'] + b) == a + seq!['/'] + b,
        WeightError::BadIntegerPart.part_of(a + seq!['.'] + b) == a,
        WeightError::BadFractionalPart.part_of(a + seq!['.'] + b) == b,
        WeightError::BadInteger.part_of(a) == a,
{
    lemma_parts(a, '/', b);
    lemma_parts(a, '.', b);
    let none = Seq::<char>::empty();
    assert(!text::blank(a[0]) && !text::blank(a[a.len() - 1]));
    texts::law_trimming(none, a, none);
    assert(none + a + none =~= a);
}

proof fn lemma_parts(a: Seq<char>, c: char, b: Seq<char>)
    requires
        a.len() > 0,
        b.len() > 0,
        texts::none_blank(a),
        texts::none_blank(b),
        forall|k: int| 0 <= k < a.len() ==> (#[trigger] a[k]) != c,
    ensures
        text::trimmed(a + seq![c] + b) == a + seq![c] + b,
        text::first_at(a + seq![c] + b, c) == a.len(),
        (a + seq![c] + b).take(a.len() as int) == a,
        (a + seq![c] + b).skip(a.len() as int + 1) == b,
{
    let s = a + seq![c] + b;
    let none = Seq::<char>::empty();
    assert(s[0] == a[0] && s.last() == b[b.len() - 1]);
    assert(!text::blank(a[0]) && !text::blank(b[b.len() - 1]));
    texts::law_trimming(none, s, none);
    assert(none + s + none =~= s);
    assert forall|k: int| 0 <= k < a.len() implies (#[trigger] s[k]) != c by {
        assert(s[k] == a[k]);
    }
    assert(s[a.len() as int] == c);
    text::lemma_first_at(s, c, a.len() as int);
    assert(s.take(a.len() as int) =~= a);
    assert(s.skip(a.len() as int + 1) =~= b);
}

} // verus!
