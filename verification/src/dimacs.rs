//! Formulas in the DIMACS format.
use vstd::prelude::*;

use crate::bits;
use crate::domain::Asg;
use crate::network;
use crate::network::{setup_problem, ConstraintNetwork};
use crate::seqs;
use crate::text;

verus! {

/// The widest clause that becomes a table.
pub const MAX_CLAUSE_WIDTH: usize = 20;

/// What is wrong with a formula.
#[derive(Debug)]
pub enum DimacsError {
    /// A clause of that width, with the limit.
    ClauseTooWide(usize, usize),
    /// Literal zero where a variable is meant.
    ZeroLiteral,
    /// A token that is not a number that fits.
    BadToken(String),
    /// The formula asks for a projected count.
    ProjectedInstance,
    /// A weight line in the legacy format.
    CachetWeightLine,
    /// A weight line without a literal or a weight.
    BadWeightLine(String),
}

/// The line starts with these three words.
pub open spec fn starts_with3(ws: Seq<Seq<char>>, a: Seq<char>, b: Seq<char>, c: Seq<char>) -> bool {
    ws.len() >= 3 && ws[0] == a && ws[1] == b && ws[2] == c
}

fn words_start_with3(ws: &Vec<Vec<char>>, a: &str, b: &str, c: &str) -> (r: bool)
    ensures
        r == starts_with3(text::views(ws@), a@, b@, c@),
{
    ws.len() >= 3 && text::is_text(&ws[0], a) && text::is_text(&ws[1], b) && text::is_text(&ws[2], c)
}

/// The value of a token that is a literal.
pub open spec fn literal(tok: Seq<char>) -> Option<int> {
    match text::signed(tok) {
        Some(v) => if i64::MIN <= v <= i64::MAX {
            Some(v)
        } else {
            None
        },
        None => None,
    }
}

/// The weights of a text: one entry for each weight line.
pub open spec fn weight_lines(ls: Seq<Seq<char>>, k: int) -> Result<Seq<(i64, Seq<char>)>, WeightFault>
    decreases k,
{
    if k <= 0 {
        Ok(Seq::empty())
    } else {
        match weight_lines(ls, k - 1) {
            Err(f) => Err(f),
            Ok(found) => {
                let ws = text::words(ls[k - 1]);
                if starts_with3(ws, "c"@, "p"@, "weight"@) {
                    if ws.len() >= 5 && literal(ws[3]) is Some {
                        Ok(found.push((literal(ws[3])->0 as i64, ws[4])))
                    } else {
                        Err(WeightFault::Bad(text::trimmed(ls[k - 1])))
                    }
                } else if ws.len() > 0 && ws[0] == "w"@ {
                    Err(WeightFault::Cachet)
                } else {
                    Ok(found)
                }
            },
        }
    }
}

/// The first weight line that is refused.
pub enum WeightFault {
    Cachet,
    Bad(Seq<char>),
}

/// What a list of weights is.
pub open spec fn weights_view(v: Seq<(i64, String)>) -> Seq<(i64, Seq<char>)> {
    v.map_values(|x: (i64, String)| (x.0, x.1@))
}

/// The weight lines `c p weight <lit> <w> 0` of a formula, in order. The legacy form
/// `w <var> <p>` is refused.
pub fn parse_mcc_weights(input: &str) -> (r: Result<Vec<(i64, String)>, DimacsError>)
    ensures
        match (r, weight_lines(text::lines(input@), text::lines(input@).len() as int)) {
            (Ok(v), Ok(found)) => weights_view(v@) == found,
            (Err(DimacsError::CachetWeightLine), Err(WeightFault::Cachet)) => true,
            (Err(DimacsError::BadWeightLine(line)), Err(WeightFault::Bad(l))) => line@ == l,
            _ => false,
        },
{
    let chars = text::chars_of(input);
    let lines = text::split_lines(&chars);
    let ghost ls = text::lines(input@);
    let mut out: Vec<(i64, String)> = Vec::new();
    let mut k: usize = 0;
    assert(weights_view(out@) =~= Seq::empty());
    while k < lines.len()
        invariant
            ls == text::lines(input@),
            text::views(lines@) == ls,
            lines@.len() == ls.len(),
            k <= lines@.len(),
            weight_lines(ls, k as int) == Ok::<Seq<(i64, Seq<char>)>, WeightFault>(weights_view(out@)),
        decreases lines.len() - k,
    {
        assert(ls[k as int] == lines@[k as int]@);
        let ws = text::split_words(&lines[k]);
        let ghost before = out@;
        proof {
            assert(text::views(ws@) == text::words(ls[k as int]));
            assert(ws@.len() == text::views(ws@).len());
        }
        if words_start_with3(&ws, "c", "p", "weight") {
            let lit: Option<i64> = if ws.len() >= 4 {
                text::parse_i64(&ws[3])
            } else {
                None
            };
            if ws.len() < 5 || lit.is_none() {
                proof {
                    lemma_weights_stop(ls, k + 1);
                }
                return Err(DimacsError::BadWeightLine(text::string_of(&text::trim(&lines[k]))));
            }
            if let Some(n) = lit {
                out.push((n, text::string_of(&ws[4])));
                proof {
                    assert(weights_view(out@) =~= weights_view(before).push((n, text::views(ws@)[4])));
                }
            }
        } else if ws.len() > 0 && text::is_text(&ws[0], "w") {
            proof {
                lemma_weights_stop(ls, k + 1);
            }
            return Err(DimacsError::CachetWeightLine);
        }
        k += 1;
    }
    Ok(out)
}

proof fn lemma_weights_stop(ls: Seq<Seq<char>>, k: int)
    requires
        0 <= k <= ls.len(),
        weight_lines(ls, k) is Err,
    ensures
        weight_lines(ls, ls.len() as int) == weight_lines(ls, k),
    decreases ls.len() - k,
{
    if k < ls.len() {
        assert(weight_lines(ls, k + 1) == weight_lines(ls, k));
        lemma_weights_stop(ls, k + 1);
    }
}

/// What has been read: the number of variables, the clauses, and the clause in hand.
pub struct Reading {
    pub nvars: int,
    pub clauses: Seq<Seq<i64>>,
    pub current: Seq<i64>,
}

/// Why a formula is refused.
pub enum Fault {
    Projected,
    Token(Seq<char>),
}

pub open spec fn magnitude(v: int) -> int {
    if v < 0 {
        -v
    } else {
        v
    }
}

/// Read a token: zero ends a clause, any other literal goes on it, and what is no literal is
/// passed over.
pub open spec fn read_token(r: Reading, tok: Seq<char>) -> Result<Reading, Fault> {
    match literal(tok) {
        None => Ok(r),
        Some(v) => if v == 0 {
            if r.current.len() > 0 {
                Ok(Reading { clauses: r.clauses.push(r.current), current: Seq::empty(), ..r })
            } else {
                Ok(r)
            }
        } else if magnitude(v) > usize::MAX {
            Err(Fault::Token(tok))
        } else {
            Ok(
                Reading {
                    nvars: if magnitude(v) > r.nvars {
                        magnitude(v)
                    } else {
                        r.nvars
                    },
                    current: r.current.push(v as i64),
                    ..r
                },
            )
        },
    }
}

pub open spec fn read_tokens(r: Reading, ws: Seq<Seq<char>>, k: int) -> Result<Reading, Fault>
    decreases k,
{
    if k <= 0 {
        Ok(r)
    } else {
        match read_tokens(r, ws, k - 1) {
            Ok(s) => read_token(s, ws[k - 1]),
            Err(f) => Err(f),
        }
    }
}

/// Read a line: the header declares the number of variables, comments are passed over.
pub open spec fn read_line(r: Reading, line: Seq<char>) -> Result<Reading, Fault> {
    let ws = text::words(line);
    if starts_with3(ws, "c"@, "p"@, "show"@) {
        Err(Fault::Projected)
    } else if ws.len() == 0 || ws[0][0] == 'c' || ws[0][0] == '%' {
        Ok(r)
    } else if ws[0][0] == 'p' {
        if ws.len() >= 3 {
            match text::unsigned(ws[2]) {
                Some(n) => if n <= usize::MAX {
                    Ok(Reading { nvars: n, ..r })
                } else {
                    Err(Fault::Token(ws[2]))
                },
                None => Err(Fault::Token(ws[2])),
            }
        } else {
            Ok(r)
        }
    } else {
        read_tokens(r, ws, ws.len() as int)
    }
}

pub open spec fn read_lines(ls: Seq<Seq<char>>, k: int) -> Result<Reading, Fault>
    decreases k,
{
    if k <= 0 {
        Ok(Reading { nvars: 0, clauses: Seq::empty(), current: Seq::empty() })
    } else {
        match read_lines(ls, k - 1) {
            Ok(r) => read_line(r, ls[k - 1]),
            Err(f) => Err(f),
        }
    }
}

/// The formula of a text: a clause that is not ended counts too.
pub open spec fn formula(input: Seq<char>) -> Result<(int, Seq<Seq<i64>>), Fault> {
    let ls = text::lines(input);
    match read_lines(ls, ls.len() as int) {
        Err(f) => Err(f),
        Ok(r) => Ok(
            (
                r.nvars,
                if r.current.len() > 0 {
                    r.clauses.push(r.current)
                } else {
                    r.clauses
                },
            ),
        ),
    }
}

/// What a list of clauses is.
pub open spec fn clauses_view(v: Seq<Vec<i64>>) -> Seq<Seq<i64>> {
    v.map_values(|c: Vec<i64>| c@)
}

/// The error of a refused formula.
pub open spec fn fault_of(e: DimacsError, f: Fault) -> bool {
    match (e, f) {
        (DimacsError::ProjectedInstance, Fault::Projected) => true,
        (DimacsError::BadToken(t), Fault::Token(u)) => t@ == u,
        _ => false,
    }
}

/// A formula in the reading.
struct Reader {
    nvars: usize,
    clauses: Vec<Vec<i64>>,
    current: Vec<i64>,
}

impl Reader {
    spec fn reading(self) -> Reading {
        Reading { nvars: self.nvars as int, clauses: clauses_view(self.clauses@), current: self.current@ }
    }
}

proof fn lemma_tokens_stop(r: Reading, ws: Seq<Seq<char>>, k: int)
    requires
        0 <= k <= ws.len(),
        read_tokens(r, ws, k) is Err,
    ensures
        read_tokens(r, ws, ws.len() as int) == read_tokens(r, ws, k),
    decreases ws.len() - k,
{
    if k < ws.len() {
        assert(read_tokens(r, ws, k + 1) == read_tokens(r, ws, k));
        lemma_tokens_stop(r, ws, k + 1);
    }
}

proof fn lemma_lines_stop(ls: Seq<Seq<char>>, k: int)
    requires
        0 <= k <= ls.len(),
        read_lines(ls, k) is Err,
    ensures
        read_lines(ls, ls.len() as int) == read_lines(ls, k),
    decreases ls.len() - k,
{
    if k < ls.len() {
        assert(read_lines(ls, k + 1) == read_lines(ls, k));
        lemma_lines_stop(ls, k + 1);
    }
}

/// Read the tokens of a line.
fn take_tokens(st: &mut Reader, ws: &Vec<Vec<char>>) -> (r: Option<DimacsError>)
    ensures
        match (r, read_tokens(old(st).reading(), text::views(ws@), ws@.len() as int)) {
            (None, Ok(s)) => final(st).reading() == s,
            (Some(e), Err(f)) => fault_of(e, f),
            _ => false,
        },
{
    let ghost start = st.reading();
    let ghost wv = text::views(ws@);
    let mut k: usize = 0;
    while k < ws.len()
        invariant
            start == old(st).reading(),
            wv == text::views(ws@),
            k <= ws@.len(),
            read_tokens(start, wv, k as int) == Ok::<Reading, Fault>(st.reading()),
        decreases ws.len() - k,
    {
        let ghost was = *st;
        assert(wv[k as int] == ws@[k as int]@);
        match text::parse_i64(&ws[k]) {
            None => {
                assert(literal(wv[k as int]) is None);
            },
            Some(val) => {
                assert(literal(wv[k as int]) == Some(val as int));
                if val == 0 {
                    if st.current.len() > 0 {
                        let mut clause: Vec<i64> = Vec::new();
                        std::mem::swap(&mut clause, &mut st.current);
                        st.clauses.push(clause);
                        proof {
                            assert(st.current@ =~= Seq::empty());
                            assert(clauses_view(st.clauses@) =~= clauses_view(was.clauses@).push(was.current@));
                        }
                    }
                } else {
                    let size: u64 = if val < 0 {
                        (0i128 - val as i128) as u64
                    } else {
                        val as u64
                    };
                    if size > usize::MAX as u64 {
                        proof {
                            lemma_tokens_stop(start, wv, k + 1);
                        }
                        return Some(DimacsError::BadToken(text::string_of(&ws[k])));
                    }
                    if size as usize > st.nvars {
                        st.nvars = size as usize;
                    }
                    st.current.push(val);
                }
            },
        }
        k += 1;
    }
    None
}

/// Read a line.
fn take_line(st: &mut Reader, line: &Vec<char>) -> (r: Option<DimacsError>)
    ensures
        match (r, read_line(old(st).reading(), line@)) {
            (None, Ok(s)) => final(st).reading() == s,
            (Some(e), Err(f)) => fault_of(e, f),
            _ => false,
        },
{
    let ws = text::split_words(line);
    let ghost wv = text::words(line@);
    proof {
        assert(ws@.len() == text::views(ws@).len());
    }
    if words_start_with3(&ws, "c", "p", "show") {
        return Some(DimacsError::ProjectedInstance);
    }
    if ws.len() == 0 {
        return None;
    }
    proof {
        text::lemma_words_nonempty(line@, 0);
        assert(wv[0] == ws@[0]@);
    }
    let first = ws[0][0];
    if first == 'c' || first == '%' {
        return None;
    }
    if first == 'p' {
        if ws.len() >= 3 {
            assert(wv[2] == ws@[2]@);
            match text::parse_usize(&ws[2]) {
                Some(n) => {
                    st.nvars = n;
                },
                None => {
                    return Some(DimacsError::BadToken(text::string_of(&ws[2])));
                },
            }
        }
        return None;
    }
    take_tokens(st, &ws)
}

/// Read a formula: the number of variables, declared or used, and the clauses.
pub fn parse_dimacs(input: &str) -> (r: Result<(usize, Vec<Vec<i64>>), DimacsError>)
    ensures
        match (r, formula(input@)) {
            (Ok(p), Ok(f)) => p.0 == f.0 && clauses_view(p.1@) == f.1,
            (Err(e), Err(f)) => fault_of(e, f),
            _ => false,
        },
{
    let chars = text::chars_of(input);
    let lines = text::split_lines(&chars);
    let ghost ls = text::lines(input@);
    let mut st = Reader { nvars: 0, clauses: Vec::new(), current: Vec::new() };
    let mut k: usize = 0;
    proof {
        assert(clauses_view(st.clauses@) =~= Seq::empty());
        assert(st.current@ =~= Seq::empty());
    }
    while k < lines.len()
        invariant
            ls == text::lines(input@),
            text::views(lines@) == ls,
            lines@.len() == ls.len(),
            k <= lines@.len(),
            read_lines(ls, k as int) == Ok::<Reading, Fault>(st.reading()),
        decreases lines.len() - k,
    {
        assert(ls[k as int] == lines@[k as int]@);
        match take_line(&mut st, &lines[k]) {
            Some(e) => {
                proof {
                    lemma_lines_stop(ls, k + 1);
                }
                return Err(e);
            },
            None => {},
        }
        k += 1;
    }
    if st.current.len() > 0 {
        let ghost was = st;
        let mut clause: Vec<i64> = Vec::new();
        std::mem::swap(&mut clause, &mut st.current);
        st.clauses.push(clause);
        proof {
            assert(clauses_view(st.clauses@) =~= clauses_view(was.clauses@).push(was.current@));
        }
    }
    Ok((st.nvars, st.clauses))
}

/// The variable of a literal, counted from zero.
pub open spec fn var_of(l: i64) -> int {
    magnitude(l as int) - 1
}

/// The literals name variables that have an id.
pub open spec fn literals_wf(lits: Seq<i64>) -> bool {
    forall|i: int| 0 <= i < lits.len() ==> (#[trigger] lits[i]) != 0 && magnitude(lits[i] as int) <= usize::MAX
}

/// Some literal of the clause is true.
pub open spec fn clause_holds(lits: Seq<i64>, a: Asg) -> bool {
    exists|i: int| 0 <= i < lits.len() && a(var_of(#[trigger] lits[i])) == (lits[i] > 0)
}

/// The configuration makes one of the first `upto` literals true.
pub open spec fn config_satisfies(lits: Seq<i64>, config: u64, upto: int) -> bool {
    exists|i: int| 0 <= i < upto && bits::bit(config, i) == ((#[trigger] lits[i]) > 0)
}

/// The id of a literal's variable.
pub(crate) fn literal_var(l: i64) -> (r: usize)
    requires
        l != 0,
        magnitude(l as int) <= usize::MAX,
    ensures
        r == var_of(l),
{
    let size: u64 = if l < 0 {
        (0i128 - l as i128) as u64
    } else {
        l as u64
    };
    (size - 1) as usize
}

/// The table of a clause over its variables in order: the configurations that make a literal
/// true.
pub fn clause_to_tensor(lits: &[i64]) -> (r: (Vec<usize>, Vec<bool>))
    requires
        lits@.len() <= 31,
        literals_wf(lits@),
    ensures
        r.0@.len() == lits@.len(),
        forall|i: int| 0 <= i < lits@.len() ==> (#[trigger] r.0@[i]) == var_of(lits@[i]),
        r.1@.len() == 1u64 << (lits@.len() as u64),
        forall|c: int| 0 <= c < r.1@.len() ==> #[trigger] r.1@[c] == config_satisfies(lits@, c as u64, lits@.len() as int),
{
    let mut vars: Vec<usize> = Vec::new();
    let mut i: usize = 0;
    while i < lits.len()
        invariant
            literals_wf(lits@),
            i <= lits@.len(),
            vars@.len() == i,
            forall|k: int| 0 <= k < i ==> (#[trigger] vars@[k]) == var_of(lits@[k]),
        decreases lits.len() - i,
    {
        vars.push(literal_var(lits[i]));
        i += 1;
    }
    let width: u64 = lits.len() as u64;
    proof {
        assert((1u64 << width) <= 0x8000_0000u64) by (bit_vector)
            requires
                width <= 31,
        ;
    }
    let rows: u64 = 1u64 << width;
    let mut dense: Vec<bool> = Vec::new();
    let mut config: u64 = 0;
    while config < rows
        invariant
            lits@.len() <= 31,
            config <= rows <= 0x8000_0000,
            dense@.len() == config,
            forall|c: int| 0 <= c < config ==> #[trigger] dense@[c] == config_satisfies(lits@, c as u64, lits@.len() as int),
        decreases rows - config,
    {
        let mut sat = false;
        let mut i: usize = 0;
        while i < lits.len()
            invariant
                lits@.len() <= 31,
                i <= lits@.len(),
                sat == config_satisfies(lits@, config, i as int),
            decreases lits.len() - i,
        {
            if bits::get_bit(config, i) == (lits[i] > 0) {
                sat = true;
                assert(bits::bit(config, i as int) == (lits@[i as int] > 0));
            }
            i += 1;
        }
        dense.push(sat);
        config += 1;
    }
    (vars, dense)
}

/// The variables in the order in which they first occur.
pub open spec fn scope_of(lits: Seq<i64>, upto: int) -> Seq<usize>
    decreases upto,
{
    if upto <= 0 {
        Seq::empty()
    } else {
        let before = scope_of(lits, upto - 1);
        let v = var_of(lits[upto - 1]) as usize;
        if before.contains(v) {
            before
        } else {
            before.push(v)
        }
    }
}

/// A constraint that is the clause: over its variables, with the configurations that make a
/// literal true.
pub open spec fn is_clause(lits: Seq<i64>, scope: Seq<usize>, rows: Seq<u32>) -> bool {
    &&& scope == scope_of(lits, lits.len() as int)
    &&& forall|a: Asg| #[trigger] network::rows_hold(scope, rows, a) <==> clause_holds(lits, a)
}

/// The clause is over the scope: each variable occurs in it exactly once, and the literal of
/// each is one of the clause.
spec fn kept_literals(lits: Seq<i64>, upto: int, kept: Seq<i64>) -> bool {
    &&& kept.len() == scope_of(lits, upto).len()
    &&& forall|k: int| 0 <= k < kept.len() ==> var_of(#[trigger] kept[k]) == scope_of(lits, upto)[k] && lits.contains(kept[k])
}

pub proof fn lemma_scope(lits: Seq<i64>, upto: int)
    requires
        literals_wf(lits),
        0 <= upto <= lits.len(),
    ensures
        network::distinct(scope_of(lits, upto)),
        scope_of(lits, upto).len() <= upto,
        forall|i: int| 0 <= i < upto ==> scope_of(lits, upto).contains(var_of(#[trigger] lits[i]) as usize),
        forall|k: int| 0 <= k < scope_of(lits, upto).len() ==> var_among(lits, upto, #[trigger] scope_of(lits, upto)[k]),
    decreases upto,
{
    if upto > 0 {
        lemma_scope(lits, upto - 1);
        let before = scope_of(lits, upto - 1);
        let now = scope_of(lits, upto);
        let v = var_of(lits[upto - 1]) as usize;
        assert(lits[upto - 1] != 0);
        seqs::lemma_push_contains(before, v);
        assert forall|k: int| 0 <= k < now.len() implies var_among(lits, upto, #[trigger] now[k]) by {
            if k < before.len() {
                assert(var_among(lits, upto - 1, before[k]));
                let i = choose|i: int| 0 <= i < upto - 1 && var_of(#[trigger] lits[i]) == before[k];
                assert(var_of(lits[i]) == now[k]);
            } else {
                assert(var_of(lits[upto - 1]) == now[k]);
            }
        }
        assert(network::distinct(now)) by {
            assert forall|i: int, j: int| 0 <= i < j < now.len() implies now[i] != now[j] by {
                if j == before.len() {
                    assert(before.contains(before[i]));
                }
            }
        }
    }
}

pub open spec fn var_among(lits: Seq<i64>, upto: int, v: usize) -> bool {
    exists|i: int| 0 <= i < upto && var_of(#[trigger] lits[i]) == v
}

/// The assignment that a configuration of a scope is.
proof fn lemma_scope_row(scope: Seq<usize>, a: Asg) -> (c: u64)
    requires
        scope.len() <= 32,
    ensures
        bits::below(c, scope.len() as int),
        network::agrees(scope, c, a),
{
    let c = crate::counting::lemma_config(scope, a, scope.len() as int);
    c
}

/// The table of a clause over its distinct variables.
fn clause_constraint(lits: &Vec<i64>) -> (r: (Vec<usize>, Vec<bool>))
    requires
        lits@.len() <= 31,
        literals_wf(lits@),
    ensures
        r.0@ == scope_of(lits@, lits@.len() as int),
        r.1@.len() == 1u64 << (r.0@.len() as u64),
        forall|c: int, a: Asg| 0 <= c < r.1@.len() && #[trigger] network::agrees(r.0@, c as u64, a) ==> (#[trigger] r.1@[c] <==> clause_holds(lits@, a)),
{
    let ghost n = lits@.len() as int;
    let mut kept: Vec<i64> = Vec::new();
    let mut vars: Vec<usize> = Vec::new();
    let mut tautology = false;
    let mut i: usize = 0;
    while i < lits.len()
        invariant
            literals_wf(lits@),
            n == lits@.len(),
            i <= n,
            vars@ == scope_of(lits@, i as int),
            kept_literals(lits@, i as int, kept@),
            kept@.len() <= i,
            !tautology ==> forall|j: int| 0 <= j < i ==> kept@.contains(#[trigger] lits@[j]),
            tautology ==> exists|p: int, q: int| 0 <= p < n && 0 <= q < n && var_of(#[trigger] lits@[p]) == var_of(#[trigger] lits@[q]) && (lits@[p] > 0) != (lits@[q] > 0),
        decreases lits.len() - i,
    {
        let l: i64 = lits[i];
        let v: usize = literal_var(l);
        let ghost k0 = kept@;
        let ghost v0 = vars@;
        let mut at: usize = 0;
        proof {
            lemma_scope(lits@, i as int);
        }
        while at < vars.len() && vars[at] != v
            invariant
                at <= vars@.len(),
                forall|k: int| 0 <= k < at ==> #[trigger] vars@[k] != v,
            decreases vars.len() - at,
        {
            at += 1;
        }
        if at == vars.len() {
            proof {
                assert(!vars@.contains(v));
                seqs::lemma_push_contains(k0, l);
            }
            vars.push(v);
            kept.push(l);
            proof {
                assert(vars@ == scope_of(lits@, i + 1));
                assert forall|k: int| 0 <= k < kept@.len() implies var_of(#[trigger] kept@[k]) == vars@[k] && lits@.contains(kept@[k]) by {
                    if k < k0.len() {
                        assert(var_of(k0[k]) == v0[k]);
                    } else {
                        assert(lits@[i as int] == l);
                    }
                }
            }
        } else {
            proof {
                assert(vars@[at as int] == v);
                assert(vars@.contains(v));
                assert(var_of(k0[at as int]) == v0[at as int]);
                assert(lits@.contains(k0[at as int]));
            }
            if kept[at] != l {
                proof {
                    let q = lits@.index_of(k0[at as int]);
                    assert(var_of(lits@[q]) == var_of(lits@[i as int]));
                    assert(lits@[q] != 0 && lits@[i as int] != 0);
                    assert((lits@[q] > 0) != (lits@[i as int] > 0));
                }
                tautology = true;
            }
        }
        proof {
            if !tautology {
                assert forall|j: int| 0 <= j < i + 1 implies kept@.contains(#[trigger] lits@[j]) by {
                    if j < i {
                        assert(k0.contains(lits@[j]));
                    } else if at < v0.len() {
                        assert(kept@[at as int] == l);
                    }
                }
            }
        }
        i += 1;
    }
    proof {
        lemma_scope(lits@, n);
        assert(literals_wf(kept@)) by {
            assert forall|k: int| 0 <= k < kept@.len() implies (#[trigger] kept@[k]) != 0 && magnitude(kept@[k] as int) <= usize::MAX by {
                let q = lits@.index_of(kept@[k]);
                assert(lits@[q] != 0);
            }
        }
    }
    let (scope, dense) = clause_to_tensor(kept.as_slice());
    proof {
        assert(scope@ =~= vars@);
    }
    if tautology {
        let mut all: Vec<bool> = Vec::new();
        while all.len() < dense.len()
            invariant
                all@.len() <= dense@.len(),
                forall|c: int| 0 <= c < all@.len() ==> #[trigger] all@[c],
            decreases dense.len() - all.len(),
        {
            all.push(true);
        }
        proof {
            let (p, q) = choose|p: int, q: int| 0 <= p < n && 0 <= q < n && var_of(#[trigger] lits@[p]) == var_of(#[trigger] lits@[q]) && (lits@[p] > 0) != (lits@[q] > 0);
            assert forall|c: int, a: Asg| 0 <= c < all@.len() && #[trigger] network::agrees(scope@, c as u64, a) implies (#[trigger] all@[c] <==> clause_holds(lits@, a)) by {
                if a(var_of(lits@[p])) == (lits@[p] > 0) {
                    assert(clause_holds(lits@, a));
                } else {
                    assert(a(var_of(lits@[q])) == (lits@[q] > 0));
                    assert(clause_holds(lits@, a));
                }
            }
        }
        (scope, all)
    } else {
        proof {
            assert forall|c: int, a: Asg| 0 <= c < dense@.len() && #[trigger] network::agrees(scope@, c as u64, a) implies (#[trigger] dense@[c] <==> clause_holds(lits@, a)) by {
                if dense@[c] {
                    let k = choose|k: int| 0 <= k < kept@.len() && bits::bit(c as u64, k) == ((#[trigger] kept@[k]) > 0);
                    assert(a(scope@[k] as int) == bits::bit(c as u64, k));
                    let q = lits@.index_of(kept@[k]);
                    assert(a(var_of(lits@[q])) == (lits@[q] > 0));
                }
                if clause_holds(lits@, a) {
                    let q = choose|q: int| 0 <= q < lits@.len() && a(var_of(#[trigger] lits@[q])) == (lits@[q] > 0);
                    assert(kept@.contains(lits@[q]));
                    let k = kept@.index_of(lits@[q]);
                    assert(scope@[k] == var_of(kept@[k]));
                    assert(bits::bit(c as u64, k) == a(scope@[k] as int));
                    assert(bits::bit(c as u64, k) == (kept@[k] > 0));
                }
            }
        }
        (scope, dense)
    }
}

/// Every clause has at most the admitted number of literals.
pub open spec fn none_wide(clauses: Seq<Seq<i64>>) -> bool {
    forall|j: int| 0 <= j < clauses.len() ==> (#[trigger] clauses[j]).len() <= MAX_CLAUSE_WIDTH
}

/// The first clause that is too wide.
pub open spec fn first_wide(clauses: Seq<Seq<i64>>, width: usize) -> bool {
    exists|k: int| 0 <= k < clauses.len() && width == (#[trigger] clauses[k]).len() && width > MAX_CLAUSE_WIDTH && forall|j: int| 0 <= j < k ==> (#[trigger] clauses[j]).len() <= MAX_CLAUSE_WIDTH
}

/// The network of a formula: one constraint for each clause.
pub open spec fn formula_network(cn: ConstraintNetwork, nvars: int, clauses: Seq<Seq<i64>>) -> bool {
    exists|given: Seq<(Vec<usize>, Vec<u32>)>|
        #![trigger network::assembles(cn, nvars, given)]
        network::assembles(cn, nvars, given) && given.len() == clauses.len() && (forall|t: int| 0 <= t < given.len() ==> is_clause(clauses[t], (#[trigger] given[t]).0@, given[t].1@))
}

/// The clauses name no variable above the number of variables. A header below them may declare
/// fewer than they use.
pub open spec fn clauses_within(nvars: int, clauses: Seq<Seq<i64>>) -> bool {
    forall|t: int, i: int| 0 <= t < clauses.len() && 0 <= i < clauses[t].len() ==> magnitude((#[trigger] clauses[t][i]) as int) <= nvars
}

/// Whether the clauses name no variable above the number of variables.
pub fn literals_declared(nvars: usize, clauses: &Vec<Vec<i64>>) -> (r: bool)
    ensures
        r == clauses_within(nvars as int, clauses_view(clauses@)),
{
    let ghost cv = clauses_view(clauses@);
    let mut t: usize = 0;
    while t < clauses.len()
        invariant
            cv == clauses_view(clauses@),
            t <= clauses@.len(),
            forall|s: int, i: int| 0 <= s < t && 0 <= i < cv[s].len() ==> magnitude((#[trigger] cv[s][i]) as int) <= nvars,
        decreases clauses.len() - t,
    {
        let mut i: usize = 0;
        assert(cv[t as int] == clauses@[t as int]@);
        while i < clauses[t].len()
            invariant
                cv == clauses_view(clauses@),
                t < clauses@.len(),
                cv[t as int] == clauses@[t as int]@,
                i <= clauses@[t as int]@.len(),
                forall|j: int| 0 <= j < i ==> magnitude((#[trigger] cv[t as int][j]) as int) <= nvars,
            decreases clauses@[t as int]@.len() - i,
        {
            let l: i64 = clauses[t][i];
            let size: u64 = if l < 0 {
                (0i128 - l as i128) as u64
            } else {
                l as u64
            };
            assert(cv[t as int][i as int] == l);
            if size > nvars as u64 {
                return false;
            }
            i += 1;
        }
        t += 1;
    }
    true
}

/// Tables of clauses as constraints.
proof fn lemma_clause_rows(lits: Seq<i64>, scope: Seq<usize>, dense: Seq<bool>, rows: Seq<u32>)
    requires
        scope.len() <= 31,
        scope == scope_of(lits, lits.len() as int),
        dense.len() == 1u64 << (scope.len() as u64),
        network::lists_true(rows, dense),
        forall|c: int, a: Asg| 0 <= c < dense.len() && #[trigger] network::agrees(scope, c as u64, a) ==> (#[trigger] dense[c] <==> clause_holds(lits, a)),
    ensures
        is_clause(lits, scope, rows),
{
    network::lemma_pow2_32(scope.len() as int);
    assert forall|a: Asg| #[trigger] network::rows_hold(scope, rows, a) <==> clause_holds(lits, a) by {
        if network::rows_hold(scope, rows, a) {
            let k = choose|k: int| 0 <= k < rows.len() && network::agrees(scope, #[trigger] rows[k] as u64, a);
            let c = rows[k] as int;
            assert(dense[c]);
            assert(network::agrees(scope, c as u64, a));
        }
        if clause_holds(lits, a) {
            let c = lemma_scope_row(scope, a);
            bits::lemma_below_iff(c, scope.len() as u64);
            assert(network::agrees(scope, c as int as u64, a));
            assert(dense[c as int]);
            let k = rows.index_of(c as u32);
            assert(rows.contains(c as u32));
            assert(network::agrees(scope, rows[k] as u64, a));
        }
    }
}

/// Read a formula as a network. A clause with a repeated variable is over its distinct
/// variables.
pub fn network_from_dimacs(input: &str) -> (r: Result<ConstraintNetwork, DimacsError>)
    requires
        formula(input@) matches Ok(f) ==> clauses_within(f.0, f.1),
    ensures
        match (r, formula(input@)) {
            (Ok(cn), Ok(f)) => formula_network(cn, f.0, f.1) && none_wide(f.1),
            (Err(DimacsError::ClauseTooWide(w, m)), Ok(f)) => m == MAX_CLAUSE_WIDTH && first_wide(f.1, w),
            (Err(e), Err(f)) => fault_of(e, f),
            _ => false,
        },
{
    let (nvars, clauses) = match parse_dimacs(input) {
        Ok(p) => p,
        Err(e) => {
            return Err(e);
        },
    };
    let ghost cv = clauses_view(clauses@);
    proof {
        lemma_formula_sized(input@);
        assert(cv.len() == clauses@.len());
    }
    let mut scopes: Vec<Vec<usize>> = Vec::new();
    let mut tables: Vec<Vec<bool>> = Vec::new();
    let mut k: usize = 0;
    while k < clauses.len()
        invariant
            cv == clauses_view(clauses@),
            cv.len() == clauses@.len(),
            clauses_within(nvars as int, cv),
            clauses_sized(cv),
            formula(input@) == Ok::<(int, Seq<Seq<i64>>), Fault>((nvars as int, cv)),
            k <= clauses@.len(),
            scopes@.len() == k,
            tables@.len() == k,
            forall|j: int| 0 <= j < k ==> (#[trigger] cv[j]).len() <= MAX_CLAUSE_WIDTH,
            forall|t: int| 0 <= t < k ==> network::dense_wf(nvars as int, (#[trigger] scopes@[t])@, tables@[t]@) && scopes@[t]@.len() <= 20,
            forall|t: int| 0 <= t < k ==> (#[trigger] scopes@[t])@ == scope_of(cv[t], cv[t].len() as int),
            forall|t: int| 0 <= t < k ==> table_is(cv[t], (#[trigger] scopes@[t])@, tables@[t]@),
        decreases clauses.len() - k,
    {
        assert(cv[k as int] == clauses@[k as int]@);
        if clauses[k].len() > MAX_CLAUSE_WIDTH {
            assert(first_wide(cv, cv[k as int].len() as usize));
            return Err(DimacsError::ClauseTooWide(clauses[k].len(), MAX_CLAUSE_WIDTH));
        }
        proof {
            assert forall|i: int| 0 <= i < clauses@[k as int]@.len() implies (#[trigger] clauses@[k as int]@[i]) != 0 && magnitude(clauses@[k as int]@[i] as int) <= usize::MAX by {
                assert(cv[k as int][i] != 0);
            }
            lemma_scope(cv[k as int], cv[k as int].len() as int);
        }
        let (scope, dense) = clause_constraint(&clauses[k]);
        proof {
            assert forall|i: int| 0 <= i < scope@.len() implies (#[trigger] scope@[i]) < nvars by {
                assert(var_among(cv[k as int], cv[k as int].len() as int, scope@[i]));
                let q = choose|q: int| 0 <= q < cv[k as int].len() && var_of(#[trigger] cv[k as int][q]) == scope@[i];
                assert(magnitude(cv[k as int][q] as int) <= nvars);
            }
            assert(table_is(cv[k as int], scope@, dense@));
        }
        scopes.push(scope);
        tables.push(dense);
        k += 1;
    }
    let ghost sc = scopes@;
    let ghost tb = tables@;
    let cn = setup_problem(nvars, scopes, tables);
    proof {
        let given = choose|given: Seq<(Vec<usize>, Vec<u32>)>|
            #![trigger network::assembles(cn, nvars as int, given)]
            network::assembles(cn, nvars as int, given) && given.len() == sc.len() && (forall|t: int| 0 <= t < given.len() ==> (#[trigger] given[t]).0@ == sc[t]@ && network::lists_true(given[t].1@, tb[t]@));
        assert forall|t: int| 0 <= t < given.len() implies is_clause(cv[t], (#[trigger] given[t]).0@, given[t].1@) by {
            assert(table_is(cv[t], sc[t]@, tb[t]@));
            assert(network::dense_wf(nvars as int, sc[t]@, tb[t]@));
            lemma_clause_rows(cv[t], given[t].0@, tb[t]@, given[t].1@);
        }
    }
    Ok(cn)
}

spec fn table_is(lits: Seq<i64>, scope: Seq<usize>, dense: Seq<bool>) -> bool {
    forall|c: int, a: Asg| 0 <= c < dense.len() && #[trigger] network::agrees(scope, c as u64, a) ==> (#[trigger] dense[c] <==> clause_holds(lits, a))
}

/// No clause has literal zero.
pub open spec fn clauses_sized(clauses: Seq<Seq<i64>>) -> bool {
    forall|t: int, i: int| 0 <= t < clauses.len() && 0 <= i < clauses[t].len() ==> (#[trigger] clauses[t][i]) != 0
}

spec fn reading_sized(r: Reading) -> bool {
    &&& clauses_sized(r.clauses)
    &&& forall|i: int| 0 <= i < r.current.len() ==> (#[trigger] r.current[i]) != 0
}

proof fn lemma_tokens_sized(r: Reading, ws: Seq<Seq<char>>, k: int)
    requires
        reading_sized(r),
    ensures
        read_tokens(r, ws, k) matches Ok(s) ==> reading_sized(s),
    decreases k,
{
    if k > 0 {
        lemma_tokens_sized(r, ws, k - 1);
    }
}

proof fn lemma_lines_sized(ls: Seq<Seq<char>>, k: int)
    ensures
        read_lines(ls, k) matches Ok(s) ==> reading_sized(s),
    decreases k,
{
    if k > 0 {
        lemma_lines_sized(ls, k - 1);
        if let Ok(r) = read_lines(ls, k - 1) {
            let ws = text::words(ls[k - 1]);
            lemma_tokens_sized(r, ws, ws.len() as int);
        }
    }
}

pub proof fn lemma_formula_sized(input: Seq<char>)
    ensures
        formula(input) matches Ok(f) ==> clauses_sized(f.1),
{
    let ls = text::lines(input);
    lemma_lines_sized(ls, ls.len() as int);
}

/// The network of a formula has the models of the formula.
pub proof fn law_formula_models(cn: ConstraintNetwork, nvars: int, clauses: Seq<Seq<i64>>, a: Asg)
    requires
        formula_network(cn, nvars, clauses),
    ensures
        cn.model(network::pulled(cn.orig_to_new@, a)) <==> (forall|t: int| 0 <= t < clauses.len() ==> clause_holds(#[trigger] clauses[t], a)),
{
    let given = choose|given: Seq<(Vec<usize>, Vec<u32>)>|
        #![trigger network::assembles(cn, nvars, given)]
        network::assembles(cn, nvars, given) && given.len() == clauses.len() && (forall|t: int| 0 <= t < given.len() ==> is_clause(clauses[t], (#[trigger] given[t]).0@, given[t].1@));
    network::law_assemble_keeps_models(cn, nvars, given, a);
    if cn.model(network::pulled(cn.orig_to_new@, a)) {
        assert forall|t: int| 0 <= t < clauses.len() implies clause_holds(#[trigger] clauses[t], a) by {
            assert(network::rows_hold(given[t].0@, given[t].1@, a));
        }
    }
    if forall|t: int| 0 <= t < clauses.len() ==> clause_holds(#[trigger] clauses[t], a) {
        assert forall|t: int| 0 <= t < given.len() implies network::rows_hold((#[trigger] given[t]).0@, given[t].1@, a) by {
            assert(is_clause(clauses[t], given[t].0@, given[t].1@));
            assert(clause_holds(clauses[t], a));
        }
    }
}

} // verus!
