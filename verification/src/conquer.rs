//! The conquer side of a frontier: the formula that a solver is given for a cube, what its
//! answer means, and the answer over all cubes.

use crate::dimacs;
use crate::semiring;
use crate::text;
use vstd::prelude::*;
use vstd::string::StringExecFns;

verus! {

/// What can go wrong. The texts are those of the system.
#[derive(Clone, Debug)]
pub enum ConquerError {
    /// The formula at a path cannot be read.
    ReadCnf(String, String),
    /// The formula has no valid header, or more than one.
    MissingHeader,
    StartKissat(String),
    WriteKissat(String),
    ReadKissat(String),
    Disconnected,
    WorkerPanicked,
}

/// The answer for a frontier.
#[derive(Debug, Clone, Copy, PartialEq, Eq, Structural)]
pub enum ConquerResult {
    Sat,
    Unsat,
    Incomplete,
}

/// The answer, with the tallies behind it.
#[derive(Clone, Debug)]
pub struct ConquerSummary {
    pub result: ConquerResult,
    pub submitted: usize,
    pub sat: usize,
    pub unsat: usize,
    pub errors: usize,
    pub witness: Option<String>,
}

/// A formula with its header taken apart, so that literals can be put on it.
#[derive(Clone, Debug)]
pub struct CnfTemplate {
    pub variables: usize,
    pub clauses: usize,
    pub body: String,
}

/// The length of the first line with its line feed.
pub open spec fn first_line(s: Seq<char>) -> int {
    if text::first_at(s, '\n') < s.len() {
        text::first_at(s, '\n') + 1
    } else {
        s.len() as int
    }
}

/// The numbers of a header, where the words are one.
pub open spec fn header(ws: Seq<Seq<char>>) -> Option<(int, int)> {
    if ws.len() == 4 && ws[1] == "cnf"@ {
        match (text::unsigned(ws[2]), text::unsigned(ws[3])) {
            (Some(v), Some(c)) => if v <= usize::MAX && c <= usize::MAX {
                Some((v, c))
            } else {
                None
            },
            _ => None,
        }
    } else {
        None
    }
}

/// The header and the other lines of a text, read after what was read before. None where a
/// header is malformed or comes twice.
pub open spec fn taken_apart(s: Seq<char>, found: Option<(int, int)>, body: Seq<char>) -> Option<(Option<(int, int)>, Seq<char>)>
    decreases s.len(),
{
    let e = first_line(s);
    if s.len() == 0 || e <= 0 || e > s.len() {
        Some((found, body))
    } else {
        let ws = text::words(s.take(e));
        if ws.len() > 0 && ws[0] == "p"@ {
            if header(ws) is Some && found is None {
                taken_apart(s.skip(e), header(ws), body)
            } else {
                None
            }
        } else {
            taken_apart(s.skip(e), found, body + s.take(e))
        }
    }
}

/// The template that a text is.
pub open spec fn template_of(input: Seq<char>) -> Option<(int, int, Seq<char>)> {
    match taken_apart(input, None, Seq::empty()) {
        Some((Some(h), body)) => Some((h.0, h.1, body)),
        _ => None,
    }
}

/// Read the words of a header.
fn read_header(ws: &Vec<Vec<char>>) -> (r: Option<(usize, usize)>)
    ensures
        match r {
            Some(h) => header(text::views(ws@)) == Some((h.0 as int, h.1 as int)),
            None => header(text::views(ws@)) is None,
        },
{
    let ghost wv = text::views(ws@);
    if ws.len() != 4 {
        return None;
    }
    assert(wv[1] == ws@[1]@ && wv[2] == ws@[2]@ && wv[3] == ws@[3]@);
    if !text::is_text(&ws[1], "cnf") {
        return None;
    }
    match (text::parse_usize(&ws[2]), text::parse_usize(&ws[3])) {
        (Some(v), Some(c)) => Some((v, c)),
        _ => None,
    }
}

impl CnfTemplate {
    /// Take a formula apart into its header and its other lines.
    pub fn parse(input: &str) -> (r: Result<CnfTemplate, ConquerError>)
        ensures
            match (r, template_of(input@)) {
                (Ok(t), Some(p)) => t.variables == p.0 && t.clauses == p.1 && t.body@ == p.2,
                (Err(ConquerError::MissingHeader), None) => true,
                _ => false,
            },
    {
        let chars = text::chars_of(input);
        let ghost all = chars@;
        let mut found: Option<(usize, usize)> = None;
        let mut body: Vec<char> = Vec::new();
        let mut at: usize = 0;
        assert(all.skip(0) =~= all);
        while at < chars.len()
            invariant
                all == chars@,
                all == input@,
                at <= all.len(),
                taken_apart(all, None, Seq::empty()) == taken_apart(all.skip(at as int), seen(found), body@),
            decreases chars.len() - at,
        {
            let ghost rest = all.skip(at as int);
            let line_end: usize = end_of_line(&chars, at);
            let line = text::part(&chars, at, line_end);
            proof {
                assert(line@ =~= rest.take(first_line(rest)));
                assert(rest.skip(first_line(rest)) =~= all.skip(line_end as int));
            }
            let ws = text::split_words(&line);
            let ghost wv = text::views(ws@);
            let is_header = if ws.len() > 0 {
                assert(wv[0] == ws@[0]@);
                text::is_text(&ws[0], "p")
            } else {
                false
            };
            if is_header {
                match read_header(&ws) {
                    Some(h) => {
                        if found.is_some() {
                            return Err(ConquerError::MissingHeader);
                        }
                        found = Some(h);
                    },
                    None => {
                        return Err(ConquerError::MissingHeader);
                    },
                }
            } else {
                append(&mut body, &line);
            }
            at = line_end;
        }
        assert(all.skip(at as int).len() == 0);
        match found {
            Some(h) => Ok(CnfTemplate { variables: h.0, clauses: h.1, body: text::string_of(&body) }),
            None => Err(ConquerError::MissingHeader),
        }
    }

    /// The literals name variables of the formula.
    pub open spec fn takes(self, cube: Seq<i64>) -> bool {
        forall|i: int| 0 <= i < cube.len() ==> dimacs::magnitude((#[trigger] cube[i]) as int) <= self.variables
    }

    /// The formula with the literals as further clauses.
    pub open spec fn with_cube(self, cube: Seq<i64>) -> Seq<char> {
        "p cnf "@ + semiring::decimal(self.variables as nat) + " "@ + semiring::decimal((self.clauses + cube.len()) as nat) + "\n"@ + self.body@ + (if self.body@.len() > 0 && self.body@.last() == '\n' {
            Seq::empty()
        } else {
            "\n"@
        }) + unit_clauses(cube, cube.len() as int)
    }

    /// The text for the solver: the formula with the literals of the cube as further clauses.
    /// None where a literal names no variable of the formula.
    pub fn query(&self, cube: &[i64]) -> (r: Option<String>)
        requires
            self.clauses + cube@.len() <= usize::MAX,
        ensures
            match r {
                Some(t) => self.takes(cube@) && t@ == self.with_cube(cube@),
                None => !self.takes(cube@),
            },
    {
        let mut k: usize = 0;
        while k < cube.len()
            invariant
                k <= cube@.len(),
                forall|i: int| 0 <= i < k ==> dimacs::magnitude((#[trigger] cube@[i]) as int) <= self.variables,
            decreases cube.len() - k,
        {
            let l: i64 = cube[k];
            let size: u64 = if l < 0 {
                (0i128 - l as i128) as u64
            } else {
                l as u64
            };
            if size > self.variables as u64 {
                assert(!self.takes(cube@));
                return None;
            }
            k += 1;
        }
        let mut out = text::chars_of("p cnf ");
        append(&mut out, &decimal_chars(self.variables as u64));
        append(&mut out, &text::chars_of(" "));
        append(&mut out, &decimal_chars((self.clauses + cube.len()) as u64));
        append(&mut out, &text::chars_of("\n"));
        let body = text::chars_of(self.body.as_str());
        append(&mut out, &body);
        if body.len() == 0 || body[body.len() - 1] != '\n' {
            append(&mut out, &text::chars_of("\n"));
        }
        let ghost head = out@;
        let mut i: usize = 0;
        assert(out@ =~= head + unit_clauses(cube@, 0));
        while i < cube.len()
            invariant
                i <= cube@.len(),
                out@ == head + unit_clauses(cube@, i as int),
            decreases cube.len() - i,
        {
            let ghost before = out@;
            append(&mut out, &signed_chars(cube[i]));
            append(&mut out, &text::chars_of(" 0\n"));
            assert(out@ =~= head + unit_clauses(cube@, i + 1));
            i += 1;
        }
        proof {
            assert(out@ =~= self.with_cube(cube@));
        }
        Some(text::string_of(&out))
    }
}

/// A number in decimal, with its sign where it is negative.
pub open spec fn signed_text(l: i64) -> Seq<char> {
    if l < 0 {
        "-"@ + semiring::decimal((-l) as nat)
    } else {
        semiring::decimal(l as nat)
    }
}

/// The first `k` literals as clauses of their own.
pub open spec fn unit_clauses(cube: Seq<i64>, k: int) -> Seq<char>
    decreases k,
{
    if k <= 0 {
        Seq::empty()
    } else {
        unit_clauses(cube, k - 1) + signed_text(cube[k - 1]) + " 0\n"@
    }
}

spec fn seen(found: Option<(usize, usize)>) -> Option<(int, int)> {
    match found {
        Some(h) => Some((h.0 as int, h.1 as int)),
        None => None,
    }
}

/// Put text behind text.
fn append(out: &mut Vec<char>, more: &Vec<char>)
    ensures
        final(out)@ == old(out)@ + more@,
{
    let ghost o0 = out@;
    let mut i: usize = 0;
    assert(out@ =~= o0 + more@.take(0));
    while i < more.len()
        invariant
            i <= more@.len(),
            out@ == o0 + more@.take(i as int),
        decreases more.len() - i,
    {
        out.push(more[i]);
        assert(more@.take(i + 1) =~= more@.take(i as int).push(more@[i as int]));
        assert(out@ =~= o0 + more@.take(i + 1));
        i += 1;
    }
    assert(more@.take(i as int) =~= more@);
}

/// A number in decimal.
fn decimal_chars(n: u64) -> (r: Vec<char>)
    ensures
        r@ == semiring::decimal(n as nat),
    decreases n,
{
    let digits = text::chars_of("0123456789");
    proof {
        reveal_strlit("0123456789");
        assert("0123456789"@.len() == 10);
        assert forall|d: nat| d < 10 implies #[trigger] semiring::digit_char(d) == "0123456789"@[d as int] by {}
    }
    let mut out: Vec<char> = if n < 10 {
        Vec::new()
    } else {
        decimal_chars(n / 10)
    };
    let ghost before = out@;
    out.push(digits[(n % 10) as usize]);
    proof {
        assert(semiring::digit_char((n % 10) as nat) == digits@[(n % 10) as int]);
        if n < 10 {
            assert(out@ =~= semiring::decimal(n as nat));
        } else {
            assert(out@ =~= semiring::decimal((n / 10) as nat).push(semiring::digit_char((n % 10) as nat)));
        }
    }
    out
}

/// A literal in decimal.
fn signed_chars(l: i64) -> (r: Vec<char>)
    ensures
        r@ == signed_text(l),
{
    if l < 0 {
        let mut out = text::chars_of("-");
        append(&mut out, &decimal_chars((0i128 - l as i128) as u64));
        out
    } else {
        decimal_chars(l as u64)
    }
}

/// Where the line that begins at a place ends, behind its line feed.
fn end_of_line(s: &Vec<char>, from: usize) -> (r: usize)
    requires
        from < s@.len(),
    ensures
        r == from + first_line(s@.skip(from as int)),
        from < r <= s@.len(),
{
    let ghost rest = s@.skip(from as int);
    let mut i: usize = from;
    while i < s.len()
        invariant
            from <= i <= s@.len(),
            from < s@.len(),
            rest == s@.skip(from as int),
            forall|k: int| 0 <= k < i - from ==> #[trigger] rest[k] != '\n',
        decreases s.len() - i,
    {
        assert(rest[i - from] == s@[i as int]);
        if s[i] == '\n' {
            proof {
                text::lemma_first_at(rest, '\n', i - from);
            }
            return i + 1;
        }
        i += 1;
    }
    proof {
        text::lemma_first_at(rest, '\n', rest.len() as int);
    }
    i
}

/// What a solver said of a cube.
#[derive(Clone, Debug)]
pub enum CubeOutcome {
    /// The cube has a model: the lines that say so.
    Sat(String),
    Unsat,
    /// The solver was stopped because another one won.
    Cancelled,
    Unknown,
}

/// What the exit code of a solver means: ten for a model, twenty for none.
pub fn outcome_of_exit(code: Option<i32>, solution: String) -> (r: CubeOutcome)
    ensures
        match r {
            CubeOutcome::Sat(s) => code == Some(10i32) && s == solution,
            CubeOutcome::Unsat => code == Some(20i32),
            CubeOutcome::Cancelled => false,
            CubeOutcome::Unknown => code != Some(10i32) && code != Some(20i32),
        },
{
    match code {
        Some(c) => if c == 10 {
            CubeOutcome::Sat(solution)
        } else if c == 20 {
            CubeOutcome::Unsat
        } else {
            CubeOutcome::Unknown
        },
        None => CubeOutcome::Unknown,
    }
}

/// A line of the solver that belongs to its solution.
pub open spec fn solution_line(line: Seq<char>) -> bool {
    line.len() >= 2 && (line[0] == 's' || line[0] == 'v') && line[1] == ' '
}

/// The first `k` lines that belong to the solution, each with a line feed.
pub open spec fn solution_text(ls: Seq<Seq<char>>, k: int) -> Seq<char>
    decreases k,
{
    if k <= 0 {
        Seq::empty()
    } else if solution_line(ls[k - 1]) {
        solution_text(ls, k - 1) + ls[k - 1] + "\n"@
    } else {
        solution_text(ls, k - 1)
    }
}

/// The lines of an output that belong to its solution.
pub fn read_solution(lines: &Vec<String>) -> (r: String)
    ensures
        r@ == solution_text(crate::circuit::texts(lines@), lines@.len() as int),
{
    let ghost ls = crate::circuit::texts(lines@);
    let mut out: Vec<char> = Vec::new();
    let mut k: usize = 0;
    while k < lines.len()
        invariant
            ls == crate::circuit::texts(lines@),
            k <= lines@.len(),
            out@ == solution_text(ls, k as int),
        decreases lines.len() - k,
    {
        let line = text::chars_of(lines[k].as_str());
        assert(ls[k as int] == line@);
        if line.len() >= 2 && (line[0] == 's' || line[0] == 'v') && line[1] == ' ' {
            append(&mut out, &line);
            append(&mut out, &text::chars_of("\n"));
        }
        k += 1;
    }
    text::string_of(&out)
}

/// The tallies of a frontier.
pub struct Tally {
    pub submitted: usize,
    pub sat: usize,
    pub unsat: usize,
    pub errors: usize,
    /// Some cube has a model: the rest need not be solved.
    pub stopped: bool,
    pub witness: Option<String>,
}

/// One more, from the top back to zero.
pub open spec fn next(n: usize) -> usize {
    if n < usize::MAX {
        (n + 1) as usize
    } else {
        0
    }
}

fn count(n: usize) -> (r: usize)
    ensures
        r == next(n),
{
    if n < usize::MAX {
        n + 1
    } else {
        0
    }
}

/// What the tallies say of a frontier. A model wins; without one the frontier is refuted only where it was complete,
/// nothing failed and every cube was refuted.
pub open spec fn answer(t: Tally, complete: bool) -> ConquerResult {
    if t.sat > 0 {
        ConquerResult::Sat
    } else if complete && t.errors == 0 && t.unsat == t.submitted {
        ConquerResult::Unsat
    } else {
        ConquerResult::Incomplete
    }
}

impl Tally {
    pub fn new() -> (r: Tally)
        ensures
            r.submitted == 0,
            r.sat == 0,
            r.unsat == 0,
            r.errors == 0,
            !r.stopped,
            r.witness is None,
    {
        Tally { submitted: 0, sat: 0, unsat: 0, errors: 0, stopped: false, witness: None }
    }

    /// A cube was handed to the solvers.
    pub fn record_submitted(&mut self)
        ensures
            *final(self) == (Tally { submitted: next(old(self).submitted), ..*old(self) }),
    {
        self.submitted = count(self.submitted);
    }

    /// Record what a solver said of a cube.
    pub fn record(&mut self, outcome: CubeOutcome)
        ensures
            *final(self) == (match outcome {
                CubeOutcome::Sat(w) => Tally { sat: next(old(self).sat), witness: Some(w), stopped: true, ..*old(self) },
                CubeOutcome::Unsat => Tally { unsat: next(old(self).unsat), ..*old(self) },
                CubeOutcome::Cancelled => *old(self),
                CubeOutcome::Unknown => Tally { errors: next(old(self).errors), ..*old(self) },
            }),
    {
        match outcome {
            CubeOutcome::Sat(w) => {
                self.sat = count(self.sat);
                self.witness = Some(w);
                self.stopped = true;
            },
            CubeOutcome::Unsat => {
                self.unsat = count(self.unsat);
            },
            CubeOutcome::Cancelled => {},
            CubeOutcome::Unknown => {
                self.errors = count(self.errors);
            },
        }
    }

    /// Record a model that was found while the cubes were made.
    pub fn mark_sat(&mut self)
        ensures
            *final(self) == (Tally { sat: next(old(self).sat), stopped: true, ..*old(self) }),
    {
        self.sat = count(self.sat);
        self.stopped = true;
    }

    /// Record a model with the lines that say so.
    pub fn mark_sat_with_witness(&mut self, witness: String)
        ensures
            *final(self) == (Tally { sat: next(old(self).sat), stopped: true, witness: Some(witness), ..*old(self) }),
    {
        self.witness = Some(witness);
        self.mark_sat();
    }

    /// The answer when all solvers are done.
    pub fn finish(self, cubing_complete: bool) -> (r: ConquerSummary)
        ensures
            r.result == answer(self, cubing_complete),
            r.result == ConquerResult::Sat <==> self.sat > 0,
            r.result == ConquerResult::Unsat <==> cubing_complete && self.sat == 0 && self.errors == 0 && self.unsat == self.submitted,
            r.submitted == self.submitted,
            r.sat == self.sat,
            r.unsat == self.unsat,
            r.errors == self.errors,
            r.witness == self.witness,
    {
        let result = if self.sat > 0 {
            ConquerResult::Sat
        } else if cubing_complete && self.errors == 0 && self.unsat == self.submitted {
            ConquerResult::Unsat
        } else {
            ConquerResult::Incomplete
        };
        ConquerSummary {
            result,
            submitted: self.submitted,
            sat: self.sat,
            unsat: self.unsat,
            errors: self.errors,
            witness: self.witness,
        }
    }
}

/// After a failed cube, a cube without an answer or a frontier cut short, it is never claimed
/// that there is no model; after a model it is never claimed that there is none either.
pub proof fn law_no_refutation_is_guessed(t: Tally, complete: bool)
    ensures
        t.errors > 0 || t.unsat != t.submitted || !complete || t.sat > 0 ==> answer(t, complete) != ConquerResult::Unsat,
        t.sat > 0 <==> answer(t, complete) == ConquerResult::Sat,
{
}

/// Where cubing was complete, no cube has a model, none failed and each one submitted was refuted, it
/// is claimed that there is no model, also where no cube was submitted. Where neither this nor a model
/// is known, nothing is claimed.
pub proof fn law_refutation_is_owed(t: Tally, complete: bool)
    ensures
        complete && t.sat == 0 && t.errors == 0 && t.unsat == t.submitted ==> answer(t, complete) == ConquerResult::Unsat,
        t.sat == 0 && (!complete || t.errors > 0 || t.unsat != t.submitted) ==> answer(t, complete) == ConquerResult::Incomplete,
{
}

} // verus!
