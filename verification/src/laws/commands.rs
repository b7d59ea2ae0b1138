//! What command lines and outcomes mean.
use vstd::prelude::*;

use crate::args;
use crate::cli;
use crate::cli::{BranchSolverKind, SelectorKind};
use crate::conquer;
use crate::cube::CubeCutoff;
use crate::dimacs;
use crate::domain::Asg;
use crate::measure::Measure;
use crate::text;

verus! {

/// A draft is accepted exactly where it has one cutoff, sends the cubes to a file or to solvers with
/// all that these need, replays only what it traces and only region rules, and has an input.
pub proof fn law_accepted_drafts(d: args::Draft)
    ensures
        args::draft_fault(d) is None <==> {
            &&& (d.remaining is Some) != (d.threshold is Some)
            &&& (d.output is Some) != (d.solve_cnf is Some)
            &&& (d.solve_cnf is Some) == (d.kissat is Some)
            &&& (d.solve_cnf is Some) == (d.workers is Some)
            &&& d.trace_replay ==> d.trace is Some && d.selector == SelectorKind::Region
            &&& d.input is Some
        },
{
}

/// What is said of a draft that is refused: that a cutoff is missing or is one too many, that the cubes go nowhere
/// or to both sides, that a replay needs a trace or a region, or that there is no input.
pub proof fn law_refused_drafts(d: args::Draft)
    ensures
        d.remaining is None && d.threshold is None ==> args::draft_fault(d) == Some(args::ArgFault::MissingCutoff),
        d.remaining is Some && d.threshold is Some ==> args::draft_fault(d) == Some(args::ArgFault::TwoCutoffs),
        (d.remaining is Some) != (d.threshold is Some) && d.output is Some && (d.solve_cnf is Some || d.kissat is Some || d.workers is Some) ==> args::draft_fault(d) == Some(args::ArgFault::BadSink),
        (d.remaining is Some) != (d.threshold is Some) && d.output is None && (d.solve_cnf is None || d.kissat is None || d.workers is None) ==> args::draft_fault(d) == Some(args::ArgFault::BadSink),
        args::draft_fault(d) == Some(args::ArgFault::ReplayNeedsTrace) ==> d.trace_replay && d.trace is None,
        args::draft_fault(d) == Some(args::ArgFault::ReplayNeedsRegion) ==> d.trace_replay && d.trace is Some && d.selector == SelectorKind::StructureBlind,
        args::draft_fault(d) == Some(args::ArgFault::MissingInput) ==> d.input is None,
        args::draft_fault(d) is Some && d.input is Some && (d.remaining is Some) != (d.threshold is Some) && !d.trace_replay ==> args::draft_fault(d) == Some(args::ArgFault::BadSink),
{
}

/// A number that has to be positive is refused where it is zero, and a text where it is no number of this machine.
pub proof fn law_positive_numbers(a: Seq<char>, v: Seq<char>, n: int)
    ensures
        text::unsigned(v) is None ==> args::positive(a, v) == Err::<usize, args::ArgFault>(args::ArgFault::BadValue(a, v)),
        text::unsigned(v) == Some(0int) ==> args::positive(a, v) == Err::<usize, args::ArgFault>(args::ArgFault::Zero(a)),
        text::unsigned(v) == Some(n) && 1 <= n <= usize::MAX ==> args::positive(a, v) == Ok::<usize, args::ArgFault>(n as usize),
        text::unsigned(v) == Some(n) && n > usize::MAX ==> args::positive(a, v) == Err::<usize, args::ArgFault>(args::ArgFault::BadValue(a, v)),
{
}

/// A second positional argument is refused, and an option that takes a value where it stands last.
pub proof fn law_refused_arguments(raw: Seq<Seq<char>>, i: int, d: args::Draft)
    requires
        0 <= i < raw.len(),
    ensures
        (raw[i].len() == 0 || raw[i][0] != '-') && d.input is Some ==> args::read_at(raw, i, d) == args::Reading::Fault(args::ArgFault::Unexpected(raw[i])),
        (raw[i].len() == 0 || raw[i][0] != '-') && d.input is None ==> args::read_at(raw, i, d) == args::Reading::Next(args::Draft { input: Some(raw[i]), ..d }, i + 1),
        raw[i] == "-h"@ || raw[i] == "--help"@ ==> args::read_at(raw, i, d) == args::Reading::Help,
        raw[i] == "-n"@ && i == raw.len() - 1 ==> args::read_at(raw, i, d) == args::Reading::Fault(args::ArgFault::MissingValue(raw[i])),
        raw[i] == "--trace-replay"@ ==> args::read_at(raw, i, d) == args::Reading::Next(args::Draft { trace_replay: true, ..d }, i + 1),
{
    lemma_literals();
    if raw[i].len() == 0 || raw[i][0] != '-' {
        lemma_dashes(raw[i]);
    }
    assert("-n"@ != "-h"@ && "-o"@ != "-h"@ && "-n"@ != "-o"@) by {
        assert("-n"@[1] == 'n' && "-h"@[1] == 'h' && "-o"@[1] == 'o');
    }
}

/// The arguments hold what the draft says: the cutoff is by open variables where their number was given, and by
/// difficulty otherwise.
pub proof fn law_arguments_hold_the_draft(a: args::CuberArgs, d: args::Draft)
    requires
        args::is_draft(a, d),
        args::draft_fault(d) is None,
    ensures
        d.input == Some(a.input@),
        a.cutoff matches CubeCutoff::RemainingVars(n) ==> d.remaining == Some(n),
        a.cutoff matches CubeCutoff::CcDifficulty(t) ==> d.threshold == Some(t),
        d.remaining matches Some(n) ==> a.cutoff == CubeCutoff::RemainingVars(n),
        a.selector == d.selector && a.branch_solver == d.branch_solver && a.measure == d.measure && a.max_rows == d.max_rows,
        a.output is Some <==> d.output is Some,
        a.output matches Some(s) ==> d.output == Some(s@),
        a.solve_cnf matches Some(s) ==> d.solve_cnf == Some(s@),
        a.kissat matches Some(s) ==> d.kissat == Some(s@),
        a.trace matches Some(s) ==> d.trace == Some(s@),
        a.workers == d.workers && a.trace_replay == d.trace_replay,
{
}

proof fn lemma_literals()
    ensures
        "-h"@ == seq!['-', 'h'],
        "--help"@.len() == 6,
        "-n"@ == seq!['-', 'n'],
        "--cc-threshold"@.len() == 14,
        "--cc-threshold"@[2] == 'c',
        "-o"@ == seq!['-', 'o'],
        "--solve-cnf"@.len() == 11,
        "--solve-cnf"@[2] == 's',
        "--kissat"@.len() == 8,
        "--kissat"@[2] == 'k',
        "--workers"@.len() == 9,
        "--workers"@[2] == 'w',
        "--trace"@.len() == 7,
        "--trace-replay"@.len() == 14,
        "--trace-replay"@[2] == 't',
        "--selector"@.len() == 10,
        "--selector"@[2] == 's',
        "--branch-solver"@.len() == 15,
        "--measure"@.len() == 9,
        "--measure"@[2] == 'm',
        "--max-rows"@.len() == 10,
        "--max-rows"@[2] == 'm',
{
    reveal_strlit("-h");
    reveal_strlit("--help");
    reveal_strlit("-n");
    reveal_strlit("--cc-threshold");
    reveal_strlit("-o");
    reveal_strlit("--solve-cnf");
    reveal_strlit("--kissat");
    reveal_strlit("--workers");
    reveal_strlit("--trace");
    reveal_strlit("--trace-replay");
    reveal_strlit("--selector");
    reveal_strlit("--branch-solver");
    reveal_strlit("--measure");
    reveal_strlit("--max-rows");
    assert("-h"@ =~= seq!['-', 'h']);
    assert("-n"@ =~= seq!['-', 'n']);
    assert("-o"@ =~= seq!['-', 'o']);
}

/// Each option sets what it is named for to its value, and nothing else.
pub proof fn law_options_set_what_they_name(v: Seq<char>, n: int, d: args::Draft)
    requires
        text::unsigned(v) == Some(n),
        1 <= n <= usize::MAX,
    ensures
        args::with_value("-n"@, v, d) == Ok::<args::Draft, args::ArgFault>(args::Draft { remaining: Some(n as usize), ..d }),
        args::with_value("--cc-threshold"@, v, d) == Ok::<args::Draft, args::ArgFault>(args::Draft { threshold: Some(n as u128), ..d }),
        args::with_value("--workers"@, v, d) == Ok::<args::Draft, args::ArgFault>(args::Draft { workers: Some(n as usize), ..d }),
        args::with_value("--max-rows"@, v, d) == Ok::<args::Draft, args::ArgFault>(args::Draft { max_rows: n as usize, ..d }),
{
    lemma_literals();
    assert("-n"@ != "-h"@ && "-n"@ != "-o"@) by {
        assert("-n"@[1] == 'n' && "-h"@[1] == 'h' && "-o"@[1] == 'o');
    }
}

/// Each option sets what it is named for to its text, and nothing else.
pub proof fn law_options_take_texts(v: Seq<char>, d: args::Draft)
    ensures
        args::with_value("-o"@, v, d) == Ok::<args::Draft, args::ArgFault>(args::Draft { output: Some(v), ..d }),
        args::with_value("--solve-cnf"@, v, d) == Ok::<args::Draft, args::ArgFault>(args::Draft { solve_cnf: Some(v), ..d }),
        args::with_value("--kissat"@, v, d) == Ok::<args::Draft, args::ArgFault>(args::Draft { kissat: Some(v), ..d }),
        args::with_value("--trace"@, v, d) == Ok::<args::Draft, args::ArgFault>(args::Draft { trace: Some(v), ..d }),
{
    lemma_literals();
    assert("-o"@ != "-h"@ && "-o"@ != "-n"@) by {
        assert("-n"@[1] == 'n' && "-h"@[1] == 'h' && "-o"@[1] == 'o');
    }
}

/// Each option that takes a name sets what it is named for to what has the name, and refuses any
/// other text.
pub proof fn law_options_take_names(v: Seq<char>, d: args::Draft)
    ensures
        forall|k: SelectorKind| v == #[trigger] k.name() ==> args::with_value("--selector"@, v, d) == Ok::<args::Draft, args::ArgFault>(args::Draft { selector: k, ..d }),
        forall|k: BranchSolverKind| v == #[trigger] k.name() ==> args::with_value("--branch-solver"@, v, d) == Ok::<args::Draft, args::ArgFault>(args::Draft { branch_solver: k, ..d }),
        forall|k: Measure| v == #[trigger] k.name() ==> args::with_value("--measure"@, v, d) == Ok::<args::Draft, args::ArgFault>(args::Draft { measure: k, ..d }),
        (forall|k: SelectorKind| v != #[trigger] k.name()) ==> args::with_value("--selector"@, v, d) == Err::<args::Draft, args::ArgFault>(args::ArgFault::BadValue("--selector"@, v)),
        (forall|k: BranchSolverKind| v != #[trigger] k.name()) ==> args::with_value("--branch-solver"@, v, d) == Err::<args::Draft, args::ArgFault>(args::ArgFault::BadValue("--branch-solver"@, v)),
        (forall|k: Measure| v != #[trigger] k.name()) ==> args::with_value("--measure"@, v, d) == Err::<args::Draft, args::ArgFault>(args::ArgFault::BadValue("--measure"@, v)),
{
    lemma_literals();
    law_names_are_read(v);
    assert(v == SelectorKind::Region.name() || v != SelectorKind::Region.name());
    assert(v == SelectorKind::StructureBlind.name() || v != SelectorKind::StructureBlind.name());
    assert(v == BranchSolverKind::Greedy.name() || v != BranchSolverKind::Greedy.name());
    assert(v == BranchSolverKind::TailGreedy.name() || v != BranchSolverKind::TailGreedy.name());
    assert(v == BranchSolverKind::Naive.name() || v != BranchSolverKind::Naive.name());
    assert(v == Measure::NumUnfixedVars.name() || v != Measure::NumUnfixedVars.name());
    assert(v == Measure::NumUnfixedTensors.name() || v != Measure::NumUnfixedTensors.name());
    assert(v == Measure::NumHardTensors.name() || v != Measure::NumHardTensors.name());
}

/// A name is read as what has it, and a text that is no name as nothing.
pub proof fn law_names_are_read(s: Seq<char>)
    ensures
        forall|k: SelectorKind| s == #[trigger] k.name() <==> SelectorKind::named(s) == Some(k),
        forall|k: BranchSolverKind| s == #[trigger] k.name() <==> BranchSolverKind::named(s) == Some(k),
        forall|k: Measure| s == #[trigger] k.name() <==> cli::measure_named(s) == Some(k),
{
    reveal_strlit("region");
    reveal_strlit("structure-blind");
    reveal_strlit("greedy");
    reveal_strlit("tail-greedy");
    reveal_strlit("naive");
    reveal_strlit("vars");
    reveal_strlit("tensors");
    reveal_strlit("hard-tensors");
    assert("region"@.len() == 6 && "structure-blind"@.len() == 15);
    assert("greedy"@.len() == 6 && "tail-greedy"@.len() == 11 && "naive"@.len() == 5);
    assert("vars"@.len() == 4 && "tensors"@.len() == 7 && "hard-tensors"@.len() == 12);
    assert forall|k: SelectorKind| s == #[trigger] k.name() <==> SelectorKind::named(s) == Some(k) by {
        match k {
            SelectorKind::Region => {},
            SelectorKind::StructureBlind => {},
        }
    }
    assert forall|k: BranchSolverKind| s == #[trigger] k.name() <==> BranchSolverKind::named(s) == Some(k) by {
        match k {
            BranchSolverKind::Greedy => {},
            BranchSolverKind::TailGreedy => {},
            BranchSolverKind::Naive => {},
        }
    }
    assert forall|k: Measure| s == #[trigger] k.name() <==> cli::measure_named(s) == Some(k) by {
        match k {
            Measure::NumUnfixedVars => {},
            Measure::NumUnfixedTensors => {},
            Measure::NumHardTensors => {},
        }
    }
}

/// A command line that names an input, a number of variables to leave open and a file for the cubes
/// asks for just that, with the defaults for all else.
pub proof fn law_shortest_command_line(input: Seq<char>, v: Seq<char>, n: int, out: Seq<char>)
    requires
        input.len() == 0 || input[0] != '-',
        text::unsigned(v) == Some(n),
        1 <= n <= usize::MAX,
    ensures
        ({
            let d = args::Draft {
                input: Some(input),
                output: Some(out),
                solve_cnf: None,
                kissat: None,
                workers: None,
                remaining: Some(n as usize),
                threshold: None,
                max_rows: 512,
                selector: SelectorKind::Region,
                branch_solver: BranchSolverKind::Greedy,
                measure: Measure::NumUnfixedVars,
                trace: None,
                trace_replay: false,
            };
            args::read_from(seq![input, "-n"@, v, "-o"@, out], 0, args::blank_draft()) == args::Reading::Next(d, 5) && args::draft_fault(d) is None
        }),
{
    lemma_literals();
    lemma_dashes(input);
    let raw = seq![input, "-n"@, v, "-o"@, out];
    let d0 = args::blank_draft();
    let d1 = args::Draft { input: Some(input), ..d0 };
    law_options_set_what_they_name(v, n, d1);
    let d2 = args::Draft { remaining: Some(n as usize), ..d1 };
    law_options_take_texts(out, d2);
    let d3 = args::Draft { output: Some(out), ..d2 };
    assert("-n"@ != "-h"@ && "-o"@ != "-h"@ && "-n"@ != "-o"@) by {
        assert("-n"@[1] == 'n' && "-h"@[1] == 'h' && "-o"@[1] == 'o');
    }
    assert(args::word_of("-n"@) == args::Word::Remaining);
    assert(args::word_of("-o"@) == args::Word::Output);
    assert(args::read_at(raw, 0, d0) == args::Reading::Next(d1, 1));
    assert(args::read_at(raw, 1, d1) == args::Reading::Next(d2, 3));
    assert(args::read_at(raw, 3, d2) == args::Reading::Next(d3, 5));
    assert(args::read_from(raw, 5, d3) == args::Reading::Next(d3, 5));
    assert(args::read_from(raw, 3, d2) == args::read_from(raw, 5, d3));
    assert(args::read_from(raw, 1, d1) == args::read_from(raw, 3, d2));
    assert(args::read_from(raw, 0, d0) == args::read_from(raw, 1, d1));
}

proof fn lemma_dashes(a: Seq<char>)
    requires
        a.len() == 0 || a[0] != '-',
    ensures
        args::word_of(a) == args::Word::Positional,
{
    reveal_strlit("-h");
    reveal_strlit("--help");
    reveal_strlit("-n");
    reveal_strlit("--cc-threshold");
    reveal_strlit("-o");
    reveal_strlit("--solve-cnf");
    reveal_strlit("--kissat");
    reveal_strlit("--workers");
    reveal_strlit("--trace");
    reveal_strlit("--trace-replay");
    reveal_strlit("--selector");
    reveal_strlit("--branch-solver");
    reveal_strlit("--measure");
    reveal_strlit("--max-rows");
    assert("-h"@[0] == '-' && "--help"@[0] == '-' && "-n"@[0] == '-' && "--cc-threshold"@[0] == '-' && "-o"@[0] == '-');
    assert("--solve-cnf"@[0] == '-' && "--kissat"@[0] == '-' && "--workers"@[0] == '-' && "--trace"@[0] == '-' && "--trace-replay"@[0] == '-');
    assert("--selector"@[0] == '-' && "--branch-solver"@[0] == '-' && "--measure"@[0] == '-' && "--max-rows"@[0] == '-');
}

/// A literal says of the original variable what the decision says of the variable: an assignment makes
/// the one true exactly where it has the other.
pub proof fn law_literals_say_what_decisions_say(ids: Seq<usize>, x: (usize, bool), l: i64, a: Asg)
    requires
        x.0 < ids.len(),
        l == cli::literal_of(ids, x),
    ensures
        l != 0,
        dimacs::clause_holds(seq![l], a) <==> a(ids[x.0 as int] as int) == x.1,
{
    let lits = seq![l];
    assert(lits[0] == l);
    assert(dimacs::var_of(l) == ids[x.0 as int]);
    if a(ids[x.0 as int] as int) == x.1 {
        assert(a(dimacs::var_of(lits[0])) == (lits[0] > 0));
    }
}

/// Below a bound on the open variables a cutoff applies, and it stays in force when fewer are open.
pub proof fn law_cutoff_by_open_variables(n: usize, dec: int, all: int, open: int, dec2: int, all2: int, open2: int)
    requires
        open2 <= open,
    ensures
        CubeCutoff::RemainingVars(n).cuts(dec, all, open) <==> open < n,
        CubeCutoff::RemainingVars(n).cuts(dec, all, open) ==> CubeCutoff::RemainingVars(n).cuts(dec2, all2, open2),
{
}

/// The difficulty is the square of the decisions times the share of the variables that are fixed:
/// where all are fixed the cutoff applies once the square is above the threshold, more decisions or
/// fixed variables among as many keep it in force, and it depends on the share alone.
pub proof fn law_cutoff_by_difficulty(t: u128, dec: int, all: int, open: int, more: int, k: int)
    requires
        0 <= dec,
        0 <= all,
        0 <= open,
        0 <= more,
        1 <= k,
    ensures
        all > 0 ==> (CubeCutoff::CcDifficulty(t).cuts(dec, all, 0) <==> dec * dec > t),
        all == 0 || dec == 0 ==> !CubeCutoff::CcDifficulty(t).cuts(dec, all, open),
        CubeCutoff::CcDifficulty(t).cuts(dec, all, open) ==> CubeCutoff::CcDifficulty(t).cuts(dec + more, all, open),
        CubeCutoff::CcDifficulty(t).cuts(dec, all, open) && more <= open ==> CubeCutoff::CcDifficulty(t).cuts(dec, all + more, open - more),
        CubeCutoff::CcDifficulty(t).cuts(dec, k * all, k * open) <==> CubeCutoff::CcDifficulty(t).cuts(dec, all, open),
{
    let s = dec * dec;
    let th = t as int;
    assert(s >= 0) by (nonlinear_arith)
        requires
            s == dec * dec,
    ;
    if all > 0 {
        assert(s * all > th * all <==> s > th) by (nonlinear_arith)
            requires
                all > 0,
        ;
    }
    let total = all + open;
    assert(th * total >= 0) by (nonlinear_arith)
        requires
            th >= 0,
            total >= 0,
    ;
    if all == 0 {
        assert(s * 0 == 0);
    }
    if dec == 0 {
        assert(s == 0);
        assert(0 * all == 0);
    }
    let bigger = (dec + more) * (dec + more);
    assert(bigger >= s) by (nonlinear_arith)
        requires
            bigger == (dec + more) * (dec + more),
            s == dec * dec,
            dec >= 0,
            more >= 0,
    ;
    assert(bigger * all >= s * all) by (nonlinear_arith)
        requires
            bigger >= s,
            all >= 0,
    ;
    assert(s * (all + more) >= s * all) by (nonlinear_arith)
        requires
            s >= 0,
            more >= 0,
    ;
    let ka = k * all;
    let ko = k * open;
    assert(ka + ko == k * total) by (nonlinear_arith)
        requires
            ka == k * all,
            ko == k * open,
            total == all + open,
    ;
    assert(s * ka == k * (s * all)) by (nonlinear_arith)
        requires
            ka == k * all,
    ;
    assert(th * (k * total) == k * (th * total)) by (nonlinear_arith);
    let x = s * all;
    let y = th * total;
    assert(k * x > k * y <==> x > y) by (nonlinear_arith)
        requires
            k >= 1,
    ;
}

/// A line belongs to the solution where it begins with an `s` or a `v` and a space.
pub proof fn law_solution_lines(rest: Seq<char>, line: Seq<char>)
    ensures
        conquer::solution_line("s "@ + rest),
        conquer::solution_line("v "@ + rest),
        conquer::solution_line(line) <==> line.len() >= 2 && (line.take(2) == "s "@ || line.take(2) == "v "@),
{
    reveal_strlit("s ");
    reveal_strlit("v ");
    assert(("s "@ + rest)[0] == 's' && ("s "@ + rest)[1] == ' ');
    assert(("v "@ + rest)[0] == 'v' && ("v "@ + rest)[1] == ' ');
    if line.len() >= 2 {
        if line[0] == 's' && line[1] == ' ' {
            assert(line.take(2) =~= "s "@);
        }
        if line[0] == 'v' && line[1] == ' ' {
            assert(line.take(2) =~= "v "@);
        }
        if line.take(2) == "s "@ {
            assert(line.take(2)[0] == 's' && line.take(2)[1] == ' ');
        }
        if line.take(2) == "v "@ {
            assert(line.take(2)[0] == 'v' && line.take(2)[1] == ' ');
        }
    }
}

/// The solution is made of the lines that belong to it, in order, each with a line feed.
pub proof fn law_solution_is_made_of_its_lines(ls: Seq<Seq<char>>, k: int)
    requires
        0 <= k <= ls.len(),
    ensures
        conquer::solution_text(ls, k) == ls.take(k).filter(|l: Seq<char>| conquer::solution_line(l)).fold_left(Seq::<char>::empty(), |s: Seq<char>, l: Seq<char>| s + l.push('\n')),
    decreases k,
{
    reveal(Seq::fold_left);
    reveal(Seq::filter);
    reveal_strlit("\n");
    let f = |l: Seq<char>| conquer::solution_line(l);
    if k > 0 {
        law_solution_is_made_of_its_lines(ls, k - 1);
        let t = ls.take(k);
        assert(t.drop_last() =~= ls.take(k - 1));
        assert(t.last() == ls[k - 1]);
        let before = ls.take(k - 1).filter(f);
        if f(ls[k - 1]) {
            assert(t.filter(f) == before.push(ls[k - 1]));
            assert(before.push(ls[k - 1]).drop_last() =~= before);
            let s = conquer::solution_text(ls, k - 1);
            assert(s + ls[k - 1] + "\n"@ =~= s + ls[k - 1].push('\n'));
        }
    }
}

/// Counters go up by one as long as they can.
pub proof fn law_counters_go_up(n: usize, x: u64, y: u64)
    ensures
        n < usize::MAX ==> conquer::next(n) == n + 1,
        crate::problem::capped_sum(x, y) <= x + y,
        x + y <= u64::MAX ==> crate::problem::capped_sum(x, y) == x + y,
        x + y > u64::MAX ==> crate::problem::capped_sum(x, y) == u64::MAX,
{
}

} // verus!
