//! Reading the command lines of the cuber and of the audit.

use crate::circuit;
use crate::cli;
use crate::cli::{BranchSolverKind, SelectorKind};
use crate::cube::CubeCutoff;
use crate::measure::Measure;
use crate::text;
use vstd::prelude::*;
use vstd::string::StringExecFns;

verus! {

/// What is wrong with a command line.
#[derive(Clone, Debug)]
pub enum ArgError {
    /// The option stands last, without its value.
    MissingValue(String),
    /// The option has a value that it does not take.
    BadValue(String, String),
    /// The option has zero for a value.
    Zero(String),
    UnknownOption(String),
    /// A second positional argument.
    Unexpected(String),
    MissingCutoff,
    TwoCutoffs,
    /// Neither a file for the cubes nor all that solvers need, or something of both.
    BadSink,
    ReplayNeedsTrace,
    ReplayNeedsRegion,
    MissingInput,
}

/// What the cuber is to do.
#[derive(Clone, Debug)]
pub struct CuberArgs {
    pub input: String,
    pub output: Option<String>,
    pub solve_cnf: Option<String>,
    pub kissat: Option<String>,
    pub workers: Option<usize>,
    pub cutoff: CubeCutoff,
    pub selector: SelectorKind,
    pub branch_solver: BranchSolverKind,
    pub measure: Measure,
    pub max_rows: usize,
    pub trace: Option<String>,
    pub trace_replay: bool,
}

/// What a command line asks for.
#[derive(Clone, Debug)]
pub enum Command {
    Help,
    Run(CuberArgs),
}

/// What an argument is.
#[derive(Clone, Copy, Debug, PartialEq, Eq, Structural)]
pub enum Word {
    Help,
    Remaining,
    Threshold,
    Output,
    SolveCnf,
    Kissat,
    Workers,
    Trace,
    TraceReplay,
    Selector,
    BranchSolver,
    Measure,
    MaxRows,
    Unknown,
    Positional,
}

/// What an argument is.
pub open spec fn word_of(a: Seq<char>) -> Word {
    if a == "-h"@ || a == "--help"@ {
        Word::Help
    } else if a == "-n"@ {
        Word::Remaining
    } else if a == "--cc-threshold"@ {
        Word::Threshold
    } else if a == "-o"@ {
        Word::Output
    } else if a == "--solve-cnf"@ {
        Word::SolveCnf
    } else if a == "--kissat"@ {
        Word::Kissat
    } else if a == "--workers"@ {
        Word::Workers
    } else if a == "--trace"@ {
        Word::Trace
    } else if a == "--trace-replay"@ {
        Word::TraceReplay
    } else if a == "--selector"@ {
        Word::Selector
    } else if a == "--branch-solver"@ {
        Word::BranchSolver
    } else if a == "--measure"@ {
        Word::Measure
    } else if a == "--max-rows"@ {
        Word::MaxRows
    } else if a.len() > 0 && a[0] == '-' {
        Word::Unknown
    } else {
        Word::Positional
    }
}

/// Begins with a dash.
fn dashed(a: &str) -> (r: bool)
    ensures
        r == (a@.len() > 0 && a@[0] == '-'),
{
    let chars = text::chars_of(a);
    chars.len() > 0 && chars[0] == '-'
}

fn read_word(a: &str) -> (r: Word)
    ensures
        r == word_of(a@),
{
    if text::same_text(a, "-h") || text::same_text(a, "--help") {
        Word::Help
    } else if text::same_text(a, "-n") {
        Word::Remaining
    } else if text::same_text(a, "--cc-threshold") {
        Word::Threshold
    } else if text::same_text(a, "-o") {
        Word::Output
    } else if text::same_text(a, "--solve-cnf") {
        Word::SolveCnf
    } else if text::same_text(a, "--kissat") {
        Word::Kissat
    } else if text::same_text(a, "--workers") {
        Word::Workers
    } else if text::same_text(a, "--trace") {
        Word::Trace
    } else if text::same_text(a, "--trace-replay") {
        Word::TraceReplay
    } else if text::same_text(a, "--selector") {
        Word::Selector
    } else if text::same_text(a, "--branch-solver") {
        Word::BranchSolver
    } else if text::same_text(a, "--measure") {
        Word::Measure
    } else if text::same_text(a, "--max-rows") {
        Word::MaxRows
    } else if dashed(a) {
        Word::Unknown
    } else {
        Word::Positional
    }
}

/// What was read so far.
pub ghost struct Draft {
    pub input: Option<Seq<char>>,
    pub output: Option<Seq<char>>,
    pub solve_cnf: Option<Seq<char>>,
    pub kissat: Option<Seq<char>>,
    pub workers: Option<usize>,
    pub remaining: Option<usize>,
    pub threshold: Option<u128>,
    pub max_rows: usize,
    pub selector: SelectorKind,
    pub branch_solver: BranchSolverKind,
    pub measure: Measure,
    pub trace: Option<Seq<char>>,
    pub trace_replay: bool,
}

/// What is wrong with an argument.
pub ghost enum ArgFault {
    MissingValue(Seq<char>),
    BadValue(Seq<char>, Seq<char>),
    Zero(Seq<char>),
    UnknownOption(Seq<char>),
    Unexpected(Seq<char>),
    MissingCutoff,
    TwoCutoffs,
    BadSink,
    ReplayNeedsTrace,
    ReplayNeedsRegion,
    MissingInput,
}

/// What reading comes to: help, a fault, or a draft with the place to go on.
pub ghost enum Reading {
    Help,
    Fault(ArgFault),
    Next(Draft, int),
}

/// Nothing read yet: rules come from the greedy solver, which counts open variables, over regions of
/// at most 512 rows.
pub open spec fn blank_draft() -> Draft {
    Draft {
        input: None,
        output: None,
        solve_cnf: None,
        kissat: None,
        workers: None,
        remaining: None,
        threshold: None,
        max_rows: 512,
        selector: SelectorKind::Region,
        branch_solver: BranchSolverKind::Greedy,
        measure: Measure::NumUnfixedVars,
        trace: None,
        trace_replay: false,
    }
}

/// A positive number that a text is, or what is wrong with it.
pub open spec fn positive(a: Seq<char>, v: Seq<char>) -> Result<usize, ArgFault> {
    match text::unsigned(v) {
        Some(n) => if n > usize::MAX {
            Err(ArgFault::BadValue(a, v))
        } else if n == 0 {
            Err(ArgFault::Zero(a))
        } else {
            Ok(n as usize)
        },
        None => Err(ArgFault::BadValue(a, v)),
    }
}

/// The draft with the value of an option.
pub open spec fn with_value(a: Seq<char>, v: Seq<char>, d: Draft) -> Result<Draft, ArgFault> {
    match word_of(a) {
        Word::Remaining => match positive(a, v) {
            Ok(n) => Ok(Draft { remaining: Some(n), ..d }),
            Err(f) => Err(f),
        },
        Word::Threshold => match text::unsigned(v) {
            Some(n) => if n > u128::MAX {
                Err(ArgFault::BadValue(a, v))
            } else {
                Ok(Draft { threshold: Some(n as u128), ..d })
            },
            None => Err(ArgFault::BadValue(a, v)),
        },
        Word::Output => Ok(Draft { output: Some(v), ..d }),
        Word::SolveCnf => Ok(Draft { solve_cnf: Some(v), ..d }),
        Word::Kissat => Ok(Draft { kissat: Some(v), ..d }),
        Word::Workers => match positive(a, v) {
            Ok(n) => Ok(Draft { workers: Some(n), ..d }),
            Err(f) => Err(f),
        },
        Word::Trace => Ok(Draft { trace: Some(v), ..d }),
        Word::Selector => match SelectorKind::named(v) {
            Some(k) => Ok(Draft { selector: k, ..d }),
            None => Err(ArgFault::BadValue(a, v)),
        },
        Word::BranchSolver => match BranchSolverKind::named(v) {
            Some(k) => Ok(Draft { branch_solver: k, ..d }),
            None => Err(ArgFault::BadValue(a, v)),
        },
        Word::Measure => match cli::measure_named(v) {
            Some(k) => Ok(Draft { measure: k, ..d }),
            None => Err(ArgFault::BadValue(a, v)),
        },
        Word::MaxRows => match positive(a, v) {
            Ok(n) => Ok(Draft { max_rows: n, ..d }),
            Err(f) => Err(f),
        },
        _ => Ok(d),
    }
}

/// Read the argument at a place.
pub open spec fn read_at(raw: Seq<Seq<char>>, i: int, d: Draft) -> Reading {
    let a = raw[i];
    match word_of(a) {
        Word::Help => Reading::Help,
        Word::TraceReplay => Reading::Next(Draft { trace_replay: true, ..d }, i + 1),
        Word::Unknown => Reading::Fault(ArgFault::UnknownOption(a)),
        Word::Positional => if d.input is None {
            Reading::Next(Draft { input: Some(a), ..d }, i + 1)
        } else {
            Reading::Fault(ArgFault::Unexpected(a))
        },
        _ => if i + 1 >= raw.len() {
            Reading::Fault(ArgFault::MissingValue(a))
        } else {
            match with_value(a, raw[i + 1], d) {
                Ok(e) => Reading::Next(e, i + 2),
                Err(f) => Reading::Fault(f),
            }
        },
    }
}

/// Read the arguments from a place on.
pub open spec fn read_from(raw: Seq<Seq<char>>, i: int, d: Draft) -> Reading
    decreases raw.len() - i,
{
    if i >= raw.len() {
        Reading::Next(d, i)
    } else {
        match read_at(raw, i, d) {
            Reading::Next(e, j) => if j > i {
                read_from(raw, j, e)
            } else {
                Reading::Next(e, j)
            },
            r => r,
        }
    }
}

/// What is wrong with a draft as a whole.
pub open spec fn draft_fault(d: Draft) -> Option<ArgFault> {
    if d.remaining is None && d.threshold is None {
        Some(ArgFault::MissingCutoff)
    } else if d.remaining is Some && d.threshold is Some {
        Some(ArgFault::TwoCutoffs)
    } else if !(d.output is Some && d.solve_cnf is None && d.kissat is None && d.workers is None) && !(d.output is None && d.solve_cnf is Some && d.kissat is Some && d.workers is Some) {
        Some(ArgFault::BadSink)
    } else if d.trace_replay && d.trace is None {
        Some(ArgFault::ReplayNeedsTrace)
    } else if d.trace_replay && d.selector == SelectorKind::StructureBlind {
        Some(ArgFault::ReplayNeedsRegion)
    } else if d.input is None {
        Some(ArgFault::MissingInput)
    } else {
        None
    }
}

/// The text of an optional string.
pub open spec fn opt_text(s: Option<String>) -> Option<Seq<char>> {
    match s {
        Some(t) => Some(t@),
        None => None,
    }
}

/// The arguments are those of the draft.
pub open spec fn is_draft(a: CuberArgs, d: Draft) -> bool {
    &&& d.input == Some(a.input@)
    &&& d.output == opt_text(a.output)
    &&& d.solve_cnf == opt_text(a.solve_cnf)
    &&& d.kissat == opt_text(a.kissat)
    &&& d.workers == a.workers
    &&& a.cutoff == (match d.remaining {
        Some(n) => CubeCutoff::RemainingVars(n),
        None => CubeCutoff::CcDifficulty(d.threshold->0),
    })
    &&& d.selector == a.selector
    &&& d.branch_solver == a.branch_solver
    &&& d.measure == a.measure
    &&& d.max_rows == a.max_rows
    &&& d.trace == opt_text(a.trace)
    &&& d.trace_replay == a.trace_replay
}

/// The error that reports a fault.
pub open spec fn names(e: ArgError, f: ArgFault) -> bool {
    match (e, f) {
        (ArgError::MissingValue(a), ArgFault::MissingValue(b)) => a@ == b,
        (ArgError::BadValue(a, v), ArgFault::BadValue(b, w)) => a@ == b && v@ == w,
        (ArgError::Zero(a), ArgFault::Zero(b)) => a@ == b,
        (ArgError::UnknownOption(a), ArgFault::UnknownOption(b)) => a@ == b,
        (ArgError::Unexpected(a), ArgFault::Unexpected(b)) => a@ == b,
        (ArgError::MissingCutoff, ArgFault::MissingCutoff) => true,
        (ArgError::TwoCutoffs, ArgFault::TwoCutoffs) => true,
        (ArgError::BadSink, ArgFault::BadSink) => true,
        (ArgError::ReplayNeedsTrace, ArgFault::ReplayNeedsTrace) => true,
        (ArgError::ReplayNeedsRegion, ArgFault::ReplayNeedsRegion) => true,
        (ArgError::MissingInput, ArgFault::MissingInput) => true,
        _ => false,
    }
}

/// What was read so far.
struct Read {
    input: Option<String>,
    output: Option<String>,
    solve_cnf: Option<String>,
    kissat: Option<String>,
    workers: Option<usize>,
    remaining: Option<usize>,
    threshold: Option<u128>,
    max_rows: usize,
    selector: SelectorKind,
    branch_solver: BranchSolverKind,
    measure: Measure,
    trace: Option<String>,
    trace_replay: bool,
}

impl Read {
    spec fn draft(self) -> Draft {
        Draft {
            input: opt_text(self.input),
            output: opt_text(self.output),
            solve_cnf: opt_text(self.solve_cnf),
            kissat: opt_text(self.kissat),
            workers: self.workers,
            remaining: self.remaining,
            threshold: self.threshold,
            max_rows: self.max_rows,
            selector: self.selector,
            branch_solver: self.branch_solver,
            measure: self.measure,
            trace: opt_text(self.trace),
            trace_replay: self.trace_replay,
        }
    }
}

/// Read a positive number.
fn read_positive(a: &str, v: &str) -> (r: Result<usize, ArgError>)
    ensures
        match (r, positive(a@, v@)) {
            (Ok(n), Ok(m)) => n == m,
            (Err(e), Err(f)) => names(e, f),
            _ => false,
        },
{
    match text::parse_usize(&text::chars_of(v)) {
        Some(n) => if n == 0 {
            Err(ArgError::Zero(text::copy_text(a)))
        } else {
            Ok(n)
        },
        None => Err(ArgError::BadValue(text::copy_text(a), text::copy_text(v))),
    }
}

/// Read the value of an option.
fn read_value(a: &str, v: &str, d: &mut Read) -> (r: Result<(), ArgError>)
    requires
        !(word_of(a@) is Help) && !(word_of(a@) is TraceReplay) && !(word_of(a@) is Unknown) && !(word_of(a@) is Positional),
    ensures
        match (r, with_value(a@, v@, old(d).draft())) {
            (Ok(_), Ok(e)) => final(d).draft() == e,
            (Err(e), Err(f)) => names(e, f),
            _ => false,
        },
{
    match read_word(a) {
        Word::Remaining => match read_positive(a, v) {
            Ok(n) => {
                d.remaining = Some(n);
            },
            Err(e) => {
                return Err(e);
            },
        },
        Word::Threshold => match text::parse_u128(&text::chars_of(v), u128::MAX) {
            Some(n) => {
                d.threshold = Some(n);
            },
            None => {
                return Err(ArgError::BadValue(text::copy_text(a), text::copy_text(v)));
            },
        },
        Word::Output => {
            d.output = Some(text::copy_text(v));
        },
        Word::SolveCnf => {
            d.solve_cnf = Some(text::copy_text(v));
        },
        Word::Kissat => {
            d.kissat = Some(text::copy_text(v));
        },
        Word::Workers => match read_positive(a, v) {
            Ok(n) => {
                d.workers = Some(n);
            },
            Err(e) => {
                return Err(e);
            },
        },
        Word::Trace => {
            d.trace = Some(text::copy_text(v));
        },
        Word::Selector => match SelectorKind::parse(v) {
            Some(k) => {
                d.selector = k;
            },
            None => {
                return Err(ArgError::BadValue(text::copy_text(a), text::copy_text(v)));
            },
        },
        Word::BranchSolver => match BranchSolverKind::parse(v) {
            Some(k) => {
                d.branch_solver = k;
            },
            None => {
                return Err(ArgError::BadValue(text::copy_text(a), text::copy_text(v)));
            },
        },
        Word::Measure => match cli::read_measure(v) {
            Some(k) => {
                d.measure = k;
            },
            None => {
                return Err(ArgError::BadValue(text::copy_text(a), text::copy_text(v)));
            },
        },
        _ => match read_positive(a, v) {
            Ok(n) => {
                d.max_rows = n;
            },
            Err(e) => {
                return Err(e);
            },
        },
    }
    Ok(())
}

/// Check a draft as a whole.
fn finish(d: Read) -> (r: Result<CuberArgs, ArgError>)
    ensures
        match (r, draft_fault(d.draft())) {
            (Ok(a), None) => is_draft(a, d.draft()),
            (Err(e), Some(f)) => names(e, f),
            _ => false,
        },
{
    let cutoff = match (d.remaining, d.threshold) {
        (Some(n), None) => CubeCutoff::RemainingVars(n),
        (None, Some(t)) => CubeCutoff::CcDifficulty(t),
        (None, None) => {
            return Err(ArgError::MissingCutoff);
        },
        (Some(_), Some(_)) => {
            return Err(ArgError::TwoCutoffs);
        },
    };
    let to_file = d.output.is_some() && d.solve_cnf.is_none() && d.kissat.is_none() && d.workers.is_none();
    let to_solvers = d.output.is_none() && d.solve_cnf.is_some() && d.kissat.is_some() && d.workers.is_some();
    if !to_file && !to_solvers {
        return Err(ArgError::BadSink);
    }
    if d.trace_replay && d.trace.is_none() {
        return Err(ArgError::ReplayNeedsTrace);
    }
    if d.trace_replay && d.selector == SelectorKind::StructureBlind {
        return Err(ArgError::ReplayNeedsRegion);
    }
    let input = match d.input {
        Some(s) => s,
        None => {
            return Err(ArgError::MissingInput);
        },
    };
    Ok(
        CuberArgs {
            input,
            output: d.output,
            solve_cnf: d.solve_cnf,
            kissat: d.kissat,
            workers: d.workers,
            cutoff,
            selector: d.selector,
            branch_solver: d.branch_solver,
            measure: d.measure,
            max_rows: d.max_rows,
            trace: d.trace,
            trace_replay: d.trace_replay,
        },
    )
}

/// Read the command line of the cuber, without the name of the program.
pub fn parse_args(raw: &Vec<String>) -> (r: Result<Command, ArgError>)
    ensures
        match (r, read_from(circuit::texts(raw@), 0, blank_draft())) {
            (Ok(Command::Help), Reading::Help) => true,
            (Ok(Command::Run(a)), Reading::Next(d, _)) => draft_fault(d) is None && is_draft(a, d),
            (Err(e), Reading::Next(d, _)) => draft_fault(d) is Some && names(e, draft_fault(d)->0),
            (Err(e), Reading::Fault(f)) => names(e, f),
            _ => false,
        },
{
    let ghost rv = circuit::texts(raw@);
    let mut d = Read {
        input: None,
        output: None,
        solve_cnf: None,
        kissat: None,
        workers: None,
        remaining: None,
        threshold: None,
        max_rows: 512,
        selector: SelectorKind::Region,
        branch_solver: BranchSolverKind::Greedy,
        measure: Measure::NumUnfixedVars,
        trace: None,
        trace_replay: false,
    };
    let mut i: usize = 0;
    while i < raw.len()
        invariant
            rv == circuit::texts(raw@),
            rv.len() == raw@.len(),
            i <= raw@.len(),
            read_from(rv, 0, blank_draft()) == read_from(rv, i as int, d.draft()),
        decreases raw.len() - i,
    {
        assert(rv[i as int] == raw@[i as int]@);
        let a = raw[i].as_str();
        match read_word(a) {
            Word::Help => {
                return Ok(Command::Help);
            },
            Word::TraceReplay => {
                d.trace_replay = true;
                i += 1;
            },
            Word::Unknown => {
                return Err(ArgError::UnknownOption(text::copy_text(a)));
            },
            Word::Positional => {
                if d.input.is_some() {
                    return Err(ArgError::Unexpected(text::copy_text(a)));
                }
                d.input = Some(text::copy_text(a));
                i += 1;
            },
            _ => {
                if raw.len() - i < 2 {
                    return Err(ArgError::MissingValue(text::copy_text(a)));
                }
                assert(rv[i + 1] == raw@[i + 1]@);
                match read_value(a, raw[i + 1].as_str(), &mut d) {
                    Ok(_) => {},
                    Err(e) => {
                        return Err(e);
                    },
                }
                i += 2;
            },
        }
    }
    match finish(d) {
        Ok(a) => Ok(Command::Run(a)),
        Err(e) => Err(e),
    }
}

/// What the audit is to do.
#[derive(Clone, Debug)]
pub struct AuditArgs {
    pub input: String,
    pub frontier: String,
    pub output: String,
    pub arm: String,
}

/// What is wrong with a command line of the audit.
#[derive(Clone, Debug)]
pub enum AuditArgError {
    /// Too few arguments, or not two positional ones.
    Usage,
    /// The output option stands last.
    MissingOutputPath,
    /// The arm option stands last.
    MissingArmName,
    UnknownOption(String),
    /// There is no output option.
    NoOutput,
}

/// What was read of a command line of the audit.
pub ghost struct AuditDraft {
    pub positional: Seq<Seq<char>>,
    pub output: Option<Seq<char>>,
    pub arm: Seq<char>,
}

/// What is wrong with a command line of the audit.
pub ghost enum AuditArgFault {
    Usage,
    MissingOutputPath,
    MissingArmName,
    UnknownOption(Seq<char>),
    NoOutput,
}

/// Read the arguments of the audit from a place on.
pub open spec fn read_audit(raw: Seq<Seq<char>>, i: int, d: AuditDraft) -> Result<AuditDraft, AuditArgFault>
    decreases raw.len() - i,
{
    if i >= raw.len() {
        Ok(d)
    } else {
        let a = raw[i];
        if a == "-o"@ || a == "--output"@ {
            if i + 1 >= raw.len() {
                Err(AuditArgFault::MissingOutputPath)
            } else {
                read_audit(raw, i + 2, AuditDraft { output: Some(raw[i + 1]), ..d })
            }
        } else if a == "--arm"@ {
            if i + 1 >= raw.len() {
                Err(AuditArgFault::MissingArmName)
            } else {
                read_audit(raw, i + 2, AuditDraft { arm: raw[i + 1], ..d })
            }
        } else if a.len() > 0 && a[0] == '-' {
            Err(AuditArgFault::UnknownOption(a))
        } else {
            read_audit(raw, i + 1, AuditDraft { positional: d.positional.push(a), ..d })
        }
    }
}

/// What a command line of the audit asks for: two positional arguments and an output. The arm
/// is unknown where none is named.
pub open spec fn audit_line(raw: Seq<Seq<char>>) -> Result<AuditDraft, AuditArgFault> {
    if raw.len() < 4 {
        Err(AuditArgFault::Usage)
    } else {
        match read_audit(raw, 0, AuditDraft { positional: Seq::empty(), output: None, arm: "unknown"@ }) {
            Err(f) => Err(f),
            Ok(d) => if d.positional.len() != 2 {
                Err(AuditArgFault::Usage)
            } else if d.output is None {
                Err(AuditArgFault::NoOutput)
            } else {
                Ok(d)
            },
        }
    }
}

/// The error that reports a fault of a command line of the audit.
pub open spec fn names_audit(e: AuditArgError, f: AuditArgFault) -> bool {
    match (e, f) {
        (AuditArgError::Usage, AuditArgFault::Usage) => true,
        (AuditArgError::MissingOutputPath, AuditArgFault::MissingOutputPath) => true,
        (AuditArgError::MissingArmName, AuditArgFault::MissingArmName) => true,
        (AuditArgError::UnknownOption(a), AuditArgFault::UnknownOption(b)) => a@ == b,
        (AuditArgError::NoOutput, AuditArgFault::NoOutput) => true,
        _ => false,
    }
}

/// Read the command line of the audit, without the name of the program.
pub fn parse_audit_args(raw: &Vec<String>) -> (r: Result<AuditArgs, AuditArgError>)
    ensures
        match (r, audit_line(circuit::texts(raw@))) {
            (Ok(a), Ok(d)) => a.input@ == d.positional[0] && a.frontier@ == d.positional[1] && d.output == Some(a.output@) && a.arm@ == d.arm,
            (Err(e), Err(f)) => names_audit(e, f),
            _ => false,
        },
{
    let ghost rv = circuit::texts(raw@);
    if raw.len() < 4 {
        return Err(AuditArgError::Usage);
    }
    let ghost d0 = AuditDraft { positional: Seq::empty(), output: None, arm: "unknown"@ };
    let mut positional: Vec<String> = Vec::new();
    let mut output: Option<String> = None;
    let mut arm: String = text::copy_text("unknown");
    let mut i: usize = 0;
    assert(circuit::texts(positional@) =~= Seq::<Seq<char>>::empty());
    while i < raw.len()
        invariant
            rv == circuit::texts(raw@),
            rv.len() == raw@.len(),
            rv.len() >= 4,
            d0 == (AuditDraft { positional: Seq::empty(), output: None, arm: "unknown"@ }),
            i <= raw@.len(),
            read_audit(rv, 0, d0) == read_audit(rv, i as int, AuditDraft { positional: circuit::texts(positional@), output: opt_text(output), arm: arm@ }),
        decreases raw.len() - i,
    {
        assert(rv[i as int] == raw@[i as int]@);
        let a = raw[i].as_str();
        if text::same_text(a, "-o") || text::same_text(a, "--output") {
            if raw.len() - i < 2 {
                return Err(AuditArgError::MissingOutputPath);
            }
            assert(rv[i + 1] == raw@[i + 1]@);
            output = Some(text::copy_text(raw[i + 1].as_str()));
            i += 2;
        } else if text::same_text(a, "--arm") {
            if raw.len() - i < 2 {
                return Err(AuditArgError::MissingArmName);
            }
            assert(rv[i + 1] == raw@[i + 1]@);
            arm = text::copy_text(raw[i + 1].as_str());
            i += 2;
        } else if dashed(a) {
            return Err(AuditArgError::UnknownOption(text::copy_text(a)));
        } else {
            let ghost p0 = positional@;
            positional.push(text::copy_text(a));
            assert(circuit::texts(positional@) =~= circuit::texts(p0).push(a@));
            i += 1;
        }
    }
    if positional.len() != 2 {
        return Err(AuditArgError::Usage);
    }
    assert(circuit::texts(positional@)[0] == positional@[0]@ && circuit::texts(positional@)[1] == positional@[1]@);
    match output {
        Some(o) => Ok(
            AuditArgs {
                input: text::copy_text(positional[0].as_str()),
                frontier: text::copy_text(positional[1].as_str()),
                output: o,
                arm,
            },
        ),
        None => Err(AuditArgError::NoOutput),
    }
}

} // verus!
