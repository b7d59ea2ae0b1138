//! Constraint problems in the native text format.
//!
//! The first line is the number of variables. Every later line is `<v0> <v1> ... : <cfg0>
//! <cfg1> ...`: variables counted from zero, and the allowed configurations, where bit `i` is
//! the value of the variable listed at `i`. Blank lines and lines that start with `#` are
//! passed over. A line `w <var> <w0> <w1>` gives the weights of a variable's values.
use vstd::prelude::*;

use crate::bits;
use crate::domain::Asg;
use crate::network;
use crate::network::{assemble, ConstraintNetwork};
use crate::order;
use crate::seqs;
use crate::text;

verus! {

/// What is wrong with a problem, and on which line.
#[derive(Debug)]
pub enum CspError {
    MissingHeader,
    MissingColon(usize),
    BadToken { line: usize, kind: &'static str, token: String },
    VariableOutOfRange { line: usize, variable: usize, nvars: usize },
    EmptyScope(usize),
    ArityTooLarge { line: usize, arity: usize },
    DuplicateVariable { line: usize, variable: usize },
    ConfigurationOutOfRange { line: usize, config: u64, arity: usize },
    BadWeightLine(usize),
}

/// A problem as it is written: the number of variables, the constraints, and the weights.
pub struct CspDoc {
    pub n_vars: usize,
    pub tensors: Vec<(Vec<usize>, Vec<u64>)>,
    pub weights: Vec<(usize, String, String)>,
}

/// Why a problem is refused.
pub enum CspFault {
    NoHeader,
    NoColon(int),
    Token(int, Seq<char>, Seq<char>),
    Range(int, int, int),
    Empty(int),
    Arity(int, int),
    Duplicate(int, int),
    Config(int, int, int),
    Weight(int),
}

/// The error says why.
pub open spec fn says(e: CspError, f: CspFault) -> bool {
    match (e, f) {
        (CspError::MissingHeader, CspFault::NoHeader) => true,
        (CspError::MissingColon(l), CspFault::NoColon(k)) => l == k,
        (CspError::BadToken { line, kind, token }, CspFault::Token(k, what, t)) => line == k && kind@ == what && token@ == t,
        (CspError::VariableOutOfRange { line, variable, nvars }, CspFault::Range(k, v, n)) => line == k && variable == v && nvars == n,
        (CspError::EmptyScope(l), CspFault::Empty(k)) => l == k,
        (CspError::ArityTooLarge { line, arity }, CspFault::Arity(k, n)) => line == k && arity == n,
        (CspError::DuplicateVariable { line, variable }, CspFault::Duplicate(k, v)) => line == k && variable == v,
        (CspError::ConfigurationOutOfRange { line, config, arity }, CspFault::Config(k, c, n)) => line == k && config == c && arity == n,
        (CspError::BadWeightLine(l), CspFault::Weight(k)) => l == k,
        _ => false,
    }
}

/// The lines that say something, with their numbers.
pub open spec fn data_lines(ls: Seq<Seq<char>>, k: int) -> Seq<(int, Seq<char>)>
    decreases k,
{
    if k <= 0 {
        Seq::empty()
    } else {
        let ws = text::words(ls[k - 1]);
        if ws.len() == 0 || ws[0][0] == '#' {
            data_lines(ls, k - 1)
        } else {
            data_lines(ls, k - 1).push((k, text::trimmed(ls[k - 1])))
        }
    }
}

/// The word is a number up to the limit.
pub open spec fn number_word(w: Seq<char>, limit: int) -> bool {
    text::unsigned(w) is Some && text::unsigned(w)->0 <= limit
}

/// The numbers that the words are.
pub open spec fn ids_of(ws: Seq<Seq<char>>) -> Seq<usize> {
    Seq::new(ws.len(), |i: int| text::unsigned(ws[i])->0 as usize)
}

/// The numbers that the words are.
pub open spec fn configs_of(ws: Seq<Seq<char>>) -> Seq<u64> {
    Seq::new(ws.len(), |i: int| text::unsigned(ws[i])->0 as u64)
}

/// The first of `k` words that is no variable.
pub open spec fn word_fault(line: int, ws: Seq<Seq<char>>, k: int) -> Option<CspFault>
    decreases k,
{
    if k <= 0 {
        None
    } else {
        match word_fault(line, ws, k - 1) {
            Some(f) => Some(f),
            None => if number_word(ws[k - 1], usize::MAX as int) {
                None
            } else {
                Some(CspFault::Token(line, "variable"@, ws[k - 1]))
            },
        }
    }
}

/// The first of `k` variables that is out of range or repeated.
pub open spec fn scope_fault(line: int, nvars: int, ids: Seq<usize>, k: int) -> Option<CspFault>
    decreases k,
{
    if k <= 0 {
        None
    } else {
        match scope_fault(line, nvars, ids, k - 1) {
            Some(f) => Some(f),
            None => if ids[k - 1] >= nvars {
                Some(CspFault::Range(line, ids[k - 1] as int, nvars))
            } else if ids.take(k - 1).contains(ids[k - 1]) {
                Some(CspFault::Duplicate(line, ids[k - 1] as int))
            } else {
                None
            },
        }
    }
}

/// The first of `k` words that is no configuration of that many variables.
pub open spec fn config_fault(line: int, arity: int, ws: Seq<Seq<char>>, k: int) -> Option<CspFault>
    decreases k,
{
    if k <= 0 {
        None
    } else {
        match config_fault(line, arity, ws, k - 1) {
            Some(f) => Some(f),
            None => if !number_word(ws[k - 1], u64::MAX as int) {
                Some(CspFault::Token(line, "configuration"@, ws[k - 1]))
            } else if !bits::below(text::unsigned(ws[k - 1])->0 as u64, arity) {
                Some(CspFault::Config(line, text::unsigned(ws[k - 1])->0, arity))
            } else {
                None
            },
        }
    }
}

/// The words before the colon.
pub open spec fn scope_words(chars: Seq<char>) -> Seq<Seq<char>> {
    text::words(chars.take(text::first_at(chars, ':')))
}

/// The words behind the colon.
pub open spec fn config_words(chars: Seq<char>) -> Seq<Seq<char>> {
    text::words(chars.skip(text::first_at(chars, ':') + 1))
}

/// What is wrong with a constraint.
pub open spec fn constraint_fault(line: int, nvars: int, chars: Seq<char>) -> Option<CspFault> {
    let ws = scope_words(chars);
    let cs = config_words(chars);
    if text::first_at(chars, ':') >= chars.len() {
        Some(CspFault::NoColon(line))
    } else if word_fault(line, ws, ws.len() as int) is Some {
        word_fault(line, ws, ws.len() as int)
    } else if ws.len() == 0 {
        Some(CspFault::Empty(line))
    } else if ws.len() > 32 {
        Some(CspFault::Arity(line, ws.len() as int))
    } else if scope_fault(line, nvars, ids_of(ws), ws.len() as int) is Some {
        scope_fault(line, nvars, ids_of(ws), ws.len() as int)
    } else {
        config_fault(line, ws.len() as int, cs, cs.len() as int)
    }
}

/// The line is a weight line.
pub open spec fn weight_line(chars: Seq<char>) -> bool {
    text::words(chars).len() > 0 && text::words(chars)[0] == "w"@
}

/// What is wrong with a line, if weights may be given.
pub open spec fn line_fault(weights: bool, line: int, nvars: int, chars: Seq<char>) -> Option<CspFault> {
    if weights && weight_line(chars) {
        let ws = text::words(chars);
        if ws.len() == 4 && number_word(ws[1], usize::MAX as int) {
            None
        } else {
            Some(CspFault::Weight(line))
        }
    } else {
        constraint_fault(line, nvars, chars)
    }
}

/// The first fault of the lines behind the header, up to place `k`.
pub open spec fn body_fault(weights: bool, nvars: int, data: Seq<(int, Seq<char>)>, k: int) -> Option<CspFault>
    decreases k,
{
    if k <= 1 {
        None
    } else {
        match body_fault(weights, nvars, data, k - 1) {
            Some(f) => Some(f),
            None => line_fault(weights, data[k - 1].0, nvars, data[k - 1].1),
        }
    }
}

/// The constraints of the lines up to place `k`.
pub open spec fn body_tensors(weights: bool, data: Seq<(int, Seq<char>)>, k: int) -> Seq<(Seq<usize>, Seq<u64>)>
    decreases k,
{
    if k <= 1 {
        Seq::empty()
    } else if weights && weight_line(data[k - 1].1) {
        body_tensors(weights, data, k - 1)
    } else {
        body_tensors(weights, data, k - 1).push((ids_of(scope_words(data[k - 1].1)), configs_of(config_words(data[k - 1].1))))
    }
}

/// The weights of the lines up to place `k`.
pub open spec fn body_weights(weights: bool, data: Seq<(int, Seq<char>)>, k: int) -> Seq<(usize, Seq<char>, Seq<char>)>
    decreases k,
{
    if k <= 1 {
        Seq::empty()
    } else if weights && weight_line(data[k - 1].1) {
        let ws = text::words(data[k - 1].1);
        body_weights(weights, data, k - 1).push((text::unsigned(ws[1])->0 as usize, ws[2], ws[3]))
    } else {
        body_weights(weights, data, k - 1)
    }
}

/// What is wrong with a problem.
pub open spec fn csp_fault(weights: bool, input: Seq<char>) -> Option<CspFault> {
    let ls = text::lines(input);
    let data = data_lines(ls, ls.len() as int);
    if data.len() == 0 {
        Some(CspFault::NoHeader)
    } else if !number_word(data[0].1, usize::MAX as int) {
        Some(CspFault::Token(data[0].0, "variable-count"@, data[0].1))
    } else {
        body_fault(weights, text::unsigned(data[0].1)->0, data, data.len() as int)
    }
}

/// The constraints as they are written.
pub open spec fn tensors_view(v: Seq<(Vec<usize>, Vec<u64>)>) -> Seq<(Seq<usize>, Seq<u64>)> {
    v.map_values(|x: (Vec<usize>, Vec<u64>)| (x.0@, x.1@))
}

/// The weights as they are written.
pub open spec fn weights_view(v: Seq<(usize, String, String)>) -> Seq<(usize, Seq<char>, Seq<char>)> {
    v.map_values(|x: (usize, String, String)| (x.0, x.1@, x.2@))
}

/// The document says what the text does.
pub open spec fn csp_doc(weights: bool, input: Seq<char>, doc: CspDoc) -> bool {
    let ls = text::lines(input);
    let data = data_lines(ls, ls.len() as int);
    &&& doc.n_vars == text::unsigned(data[0].1)->0
    &&& tensors_view(doc.tensors@) == body_tensors(weights, data, data.len() as int)
    &&& weights_view(doc.weights@) == body_weights(weights, data, data.len() as int)
}

/// The constraint that a line is.
fn read_constraint(line: usize, nvars: usize, chars: &Vec<char>) -> (r: Result<(Vec<usize>, Vec<u64>), CspError>)
    ensures
        match (r, constraint_fault(line as int, nvars as int, chars@)) {
            (Ok(t), None) => t.0@ == ids_of(scope_words(chars@)) && t.1@ == configs_of(config_words(chars@)),
            (Err(e), Some(f)) => says(e, f),
            _ => false,
        },
{
    let colon: usize = text::find_char(chars, ':');
    if colon >= chars.len() {
        return Err(CspError::MissingColon(line));
    }
    let before = text::part(chars, 0, colon);
    let behind = text::part(chars, colon + 1, chars.len());
    proof {
        assert(before@ =~= chars@.take(colon as int));
        assert(behind@ =~= chars@.skip(colon + 1));
    }
    let words = text::split_words(&before);
    let ghost ws = scope_words(chars@);
    assert(words@.len() == text::views(words@).len());
    let mut scope: Vec<usize> = Vec::new();
    let mut i: usize = 0;
    while i < words.len()
        invariant
            text::views(words@) == ws,
            words@.len() == ws.len(),
            ws == scope_words(chars@),
            text::first_at(chars@, ':') < chars@.len(),
            i <= words@.len(),
            word_fault(line as int, ws, i as int) is None,
            scope@ == ids_of(ws).take(i as int),
        decreases words.len() - i,
    {
        assert(ws[i as int] == words@[i as int]@);
        match text::parse_usize(&words[i]) {
            Some(v) => {
                scope.push(v);
                proof {
                    seqs::lemma_take_next(ids_of(ws), i as int);
                }
            },
            None => {
                proof {
                    lemma_word_stop(line as int, ws, i + 1);
                }
                return Err(CspError::BadToken { line, kind: "variable", token: text::string_of(&words[i]) });
            },
        }
        i += 1;
    }
    proof {
        seqs::lemma_take_all(ids_of(ws));
    }
    if scope.len() == 0 {
        return Err(CspError::EmptyScope(line));
    }
    if scope.len() > 32 {
        return Err(CspError::ArityTooLarge { line, arity: scope.len() });
    }
    let ghost ids = ids_of(ws);
    let mut i: usize = 0;
    while i < scope.len()
        invariant
            scope@ == ids,
            ids == ids_of(ws),
            ws == scope_words(chars@),
            word_fault(line as int, ws, ws.len() as int) is None,
            0 < ws.len() <= 32,
            text::first_at(chars@, ':') < chars@.len(),
            i <= ids.len(),
            scope_fault(line as int, nvars as int, ids, i as int) is None,
        decreases scope.len() - i,
    {
        let v: usize = scope[i];
        if v >= nvars {
            proof {
                lemma_scope_stop(line as int, nvars as int, ids, i + 1);
            }
            return Err(CspError::VariableOutOfRange { line, variable: v, nvars });
        }
        let mut j: usize = 0;
        while j < i
            invariant
                scope@ == ids,
                ids == ids_of(ws),
                ws == scope_words(chars@),
                word_fault(line as int, ws, ws.len() as int) is None,
                0 < ws.len() <= 32,
                text::first_at(chars@, ':') < chars@.len(),
                i < ids.len(),
                j <= i,
                v == ids[i as int],
                v < nvars,
                scope_fault(line as int, nvars as int, ids, i as int) is None,
                forall|k: int| 0 <= k < j ==> #[trigger] ids[k] != v,
            decreases i - j,
        {
            if scope[j] == v {
                proof {
                    assert(ids.take(i as int)[j as int] == v);
                    lemma_scope_stop(line as int, nvars as int, ids, i + 1);
                }
                return Err(CspError::DuplicateVariable { line, variable: v });
            }
            j += 1;
        }
        i += 1;
    }
    let cwords = text::split_words(&behind);
    let ghost cs = config_words(chars@);
    assert(cwords@.len() == text::views(cwords@).len());
    let arity: usize = scope.len();
    let limit: u64 = 1u64 << (arity as u64);
    let mut configs: Vec<u64> = Vec::new();
    let mut i: usize = 0;
    while i < cwords.len()
        invariant
            text::views(cwords@) == cs,
            cwords@.len() == cs.len(),
            cs == config_words(chars@),
            ws == scope_words(chars@),
            arity == ws.len(),
            0 < arity <= 32,
            limit == 1u64 << (arity as u64),
            word_fault(line as int, ws, ws.len() as int) is None,
            scope_fault(line as int, nvars as int, ids_of(ws), ws.len() as int) is None,
            text::first_at(chars@, ':') < chars@.len(),
            i <= cs.len(),
            config_fault(line as int, arity as int, cs, i as int) is None,
            configs@ == configs_of(cs).take(i as int),
        decreases cwords.len() - i,
    {
        assert(cs[i as int] == cwords@[i as int]@);
        match text::parse_unsigned(&cwords[i], u64::MAX) {
            None => {
                proof {
                    lemma_config_stop(line as int, arity as int, cs, i + 1);
                }
                return Err(CspError::BadToken { line, kind: "configuration", token: text::string_of(&cwords[i]) });
            },
            Some(c) => {
                proof {
                    bits::lemma_below_iff(c, arity as u64);
                }
                if c >= limit {
                    proof {
                        lemma_config_stop(line as int, arity as int, cs, i + 1);
                    }
                    return Err(CspError::ConfigurationOutOfRange { line, config: c, arity });
                }
                configs.push(c);
                proof {
                    seqs::lemma_take_next(configs_of(cs), i as int);
                }
            },
        }
        i += 1;
    }
    proof {
        seqs::lemma_take_all(configs_of(cs));
    }
    Ok((scope, configs))
}

proof fn lemma_word_stop(line: int, ws: Seq<Seq<char>>, k: int)
    requires
        0 <= k <= ws.len(),
        word_fault(line, ws, k) is Some,
    ensures
        word_fault(line, ws, ws.len() as int) == word_fault(line, ws, k),
    decreases ws.len() - k,
{
    if k < ws.len() {
        assert(word_fault(line, ws, k + 1) == word_fault(line, ws, k));
        lemma_word_stop(line, ws, k + 1);
    }
}

proof fn lemma_scope_stop(line: int, nvars: int, ids: Seq<usize>, k: int)
    requires
        0 <= k <= ids.len(),
        scope_fault(line, nvars, ids, k) is Some,
    ensures
        scope_fault(line, nvars, ids, ids.len() as int) == scope_fault(line, nvars, ids, k),
    decreases ids.len() - k,
{
    if k < ids.len() {
        assert(scope_fault(line, nvars, ids, k + 1) == scope_fault(line, nvars, ids, k));
        lemma_scope_stop(line, nvars, ids, k + 1);
    }
}

proof fn lemma_config_stop(line: int, arity: int, ws: Seq<Seq<char>>, k: int)
    requires
        0 <= k <= ws.len(),
        config_fault(line, arity, ws, k) is Some,
    ensures
        config_fault(line, arity, ws, ws.len() as int) == config_fault(line, arity, ws, k),
    decreases ws.len() - k,
{
    if k < ws.len() {
        assert(config_fault(line, arity, ws, k + 1) == config_fault(line, arity, ws, k));
        lemma_config_stop(line, arity, ws, k + 1);
    }
}

proof fn lemma_body_stop(weights: bool, nvars: int, data: Seq<(int, Seq<char>)>, k: int)
    requires
        0 <= k <= data.len(),
        body_fault(weights, nvars, data, k) is Some,
    ensures
        body_fault(weights, nvars, data, data.len() as int) == body_fault(weights, nvars, data, k),
    decreases data.len() - k,
{
    if k < data.len() {
        assert(body_fault(weights, nvars, data, k + 1) == body_fault(weights, nvars, data, k));
        lemma_body_stop(weights, nvars, data, k + 1);
    }
}

/// The lines that say something, with their numbers.
pub open spec fn lines_view(v: Seq<(usize, Vec<char>)>) -> Seq<(int, Seq<char>)> {
    v.map_values(|x: (usize, Vec<char>)| (x.0 as int, x.1@))
}

fn take_data_lines(input: &str) -> (r: Vec<(usize, Vec<char>)>)
    ensures
        lines_view(r@) == data_lines(text::lines(input@), text::lines(input@).len() as int),
{
    let chars = text::chars_of(input);
    let lines = text::split_lines(&chars);
    let ghost ls = text::lines(input@);
    assert(lines@.len() == text::views(lines@).len());
    let mut out: Vec<(usize, Vec<char>)> = Vec::new();
    let mut k: usize = 0;
    assert(lines_view(out@) =~= Seq::empty());
    while k < lines.len()
        invariant
            text::views(lines@) == ls,
            lines@.len() == ls.len(),
            k <= ls.len(),
            lines_view(out@) == data_lines(ls, k as int),
        decreases lines.len() - k,
    {
        assert(ls[k as int] == lines@[k as int]@);
        let ws = text::split_words(&lines[k]);
        let ghost before = out@;
        assert(ws@.len() == text::views(ws@).len());
        if ws.len() > 0 {
            proof {
                text::lemma_words_nonempty(ls[k as int], 0);
                assert(text::views(ws@)[0] == ws@[0]@);
            }
            if ws[0][0] != '#' {
                out.push((k + 1, text::trim(&lines[k])));
                proof {
                    assert(lines_view(out@) =~= lines_view(before).push((k + 1, text::trimmed(ls[k as int]))));
                }
            }
        }
        k += 1;
    }
    out
}

/// Read a problem, with or without weight lines.
fn read_csp(weights: bool, input: &str) -> (r: Result<CspDoc, CspError>)
    ensures
        match (r, csp_fault(weights, input@)) {
            (Ok(doc), None) => csp_doc(weights, input@, doc),
            (Err(e), Some(f)) => says(e, f),
            _ => false,
        },
{
    let lines = take_data_lines(input);
    let ghost data = data_lines(text::lines(input@), text::lines(input@).len() as int);
    assert(lines@.len() == lines_view(lines@).len());
    if lines.len() == 0 {
        return Err(CspError::MissingHeader);
    }
    assert(data[0] == (lines@[0].0 as int, lines@[0].1@));
    let n_vars: usize = match text::parse_usize(&lines[0].1) {
        Some(n) => n,
        None => {
            return Err(CspError::BadToken { line: lines[0].0, kind: "variable-count", token: text::string_of(&lines[0].1) });
        },
    };
    let mut tensors: Vec<(Vec<usize>, Vec<u64>)> = Vec::new();
    let mut found: Vec<(usize, String, String)> = Vec::new();
    let mut k: usize = 1;
    proof {
        assert(tensors_view(tensors@) =~= Seq::empty());
        assert(weights_view(found@) =~= Seq::empty());
    }
    while k < lines.len()
        invariant
            data == data_lines(text::lines(input@), text::lines(input@).len() as int),
            lines_view(lines@) == data,
            lines@.len() == data.len(),
            1 <= k <= data.len(),
            number_word(data[0].1, usize::MAX as int),
            n_vars == text::unsigned(data[0].1)->0,
            body_fault(weights, n_vars as int, data, k as int) is None,
            tensors_view(tensors@) == body_tensors(weights, data, k as int),
            weights_view(found@) == body_weights(weights, data, k as int),
        decreases lines.len() - k,
    {
        assert(data[k as int] == (lines@[k as int].0 as int, lines@[k as int].1@));
        let line: usize = lines[k].0;
        let ghost chars = data[k as int].1;
        let ws = text::split_words(&lines[k].1);
        assert(ws@.len() == text::views(ws@).len());
        let weight = weights && ws.len() > 0 && text::is_text(&ws[0], "w");
        assert(weight == (weights && weight_line(chars)));
        if weight {
            let ghost before = found@;
            let id: Option<usize> = if ws.len() == 4 {
                text::parse_usize(&ws[1])
            } else {
                None
            };
            match id {
                Some(v) => {
                    found.push((v, text::string_of(&ws[2]), text::string_of(&ws[3])));
                    proof {
                        assert(weights_view(found@) =~= weights_view(before).push((v, text::words(chars)[2], text::words(chars)[3])));
                    }
                },
                None => {
                    proof {
                        lemma_body_stop(weights, n_vars as int, data, k + 1);
                    }
                    return Err(CspError::BadWeightLine(line));
                },
            }
        } else {
            let ghost before = tensors@;
            match read_constraint(line, n_vars, &lines[k].1) {
                Ok(t) => {
                    tensors.push(t);
                    proof {
                        assert(tensors_view(tensors@) =~= tensors_view(before).push((ids_of(scope_words(chars)), configs_of(config_words(chars)))));
                    }
                },
                Err(e) => {
                    proof {
                        lemma_body_stop(weights, n_vars as int, data, k + 1);
                    }
                    return Err(e);
                },
            }
        }
        k += 1;
    }
    Ok(CspDoc { n_vars, tensors, weights: found })
}

/// Read a problem with its weights.
pub fn parse_csp(input: &str) -> (r: Result<CspDoc, CspError>)
    ensures
        match (r, csp_fault(true, input@)) {
            (Ok(doc), None) => csp_doc(true, input@, doc),
            (Err(e), Some(f)) => says(e, f),
            _ => false,
        },
{
    read_csp(true, input)
}

/// What is known of a constraint that was read.
pub open spec fn constraint_wf(nvars: int, t: (Seq<usize>, Seq<u64>)) -> bool {
    &&& 0 < t.0.len() <= 32
    &&& network::distinct(t.0)
    &&& forall|i: int| 0 <= i < t.0.len() ==> (#[trigger] t.0[i]) < nvars
    &&& forall|k: int| 0 <= k < t.1.len() ==> bits::below(#[trigger] t.1[k], t.0.len() as int)
}

proof fn lemma_scope_ok(line: int, nvars: int, ids: Seq<usize>, k: int)
    requires
        0 <= k <= ids.len(),
        scope_fault(line, nvars, ids, k) is None,
    ensures
        network::distinct(ids.take(k)),
        forall|i: int| 0 <= i < k ==> (#[trigger] ids[i]) < nvars,
    decreases k,
{
    if k > 0 {
        lemma_scope_ok(line, nvars, ids, k - 1);
        assert forall|i: int, j: int| 0 <= i < j < k implies ids.take(k)[i] != ids.take(k)[j] by {
            if j == k - 1 {
                if ids[i] == ids[j] {
                    assert(ids.take(k - 1)[i] == ids[k - 1]);
                }
            } else {
                assert(ids.take(k - 1)[i] != ids.take(k - 1)[j]);
            }
        }
    }
}

proof fn lemma_config_ok(line: int, arity: int, ws: Seq<Seq<char>>, k: int)
    requires
        0 <= k <= ws.len(),
        config_fault(line, arity, ws, k) is None,
    ensures
        forall|i: int| 0 <= i < k ==> bits::below(#[trigger] configs_of(ws)[i], arity),
    decreases k,
{
    if k > 0 {
        lemma_config_ok(line, arity, ws, k - 1);
    }
}

/// The constraints of a problem without fault are well-formed.
pub proof fn lemma_body_wf(weights: bool, nvars: int, data: Seq<(int, Seq<char>)>, k: int)
    requires
        0 <= k <= data.len(),
        body_fault(weights, nvars, data, k) is None,
    ensures
        forall|t: int| 0 <= t < body_tensors(weights, data, k).len() ==> constraint_wf(nvars, #[trigger] body_tensors(weights, data, k)[t]),
    decreases k,
{
    if k > 1 {
        lemma_body_wf(weights, nvars, data, k - 1);
        let chars = data[k - 1].1;
        let line = data[k - 1].0;
        if !(weights && weight_line(chars)) {
            let ws = scope_words(chars);
            let cs = config_words(chars);
            lemma_scope_ok(line, nvars, ids_of(ws), ws.len() as int);
            seqs::lemma_take_all(ids_of(ws));
            lemma_config_ok(line, ws.len() as int, cs, cs.len() as int);
            assert(constraint_wf(nvars, (ids_of(ws), configs_of(cs))));
            let was = body_tensors(weights, data, k - 1);
            let now = body_tensors(weights, data, k);
            assert forall|t: int| 0 <= t < now.len() implies constraint_wf(nvars, #[trigger] now[t]) by {
                if t < was.len() {
                    assert(now[t] == was[t]);
                }
            }
        } else {
            assert(body_tensors(weights, data, k) == body_tensors(weights, data, k - 1));
        }
    }
}

/// The constraints as they are assembled: the allowed configurations in order, each once.
pub open spec fn sorted_tensors(tensors: Seq<(Seq<usize>, Seq<u64>)>, given: Seq<(Vec<usize>, Vec<u32>)>) -> bool {
    &&& given.len() == tensors.len()
    &&& forall|t: int|
        0 <= t < given.len() ==> (#[trigger] given[t]).0@ == tensors[t].0 && network::ascending32(given[t].1@) && (forall|c: u32| #[trigger] given[t].1@.contains(c) <==> tensors[t].1.contains(c as u64))
}

/// The configurations in order, each once.
pub(crate) fn sorted_rows(configs: Vec<u64>, Ghost(width): Ghost<int>) -> (r: Vec<u32>)
    requires
        0 <= width <= 32,
        forall|k: int| 0 <= k < configs@.len() ==> bits::below(#[trigger] configs@[k], width),
    ensures
        network::ascending32(r@),
        forall|c: u32| #[trigger] r@.contains(c) <==> configs@.contains(c as u64),
        forall|k: int| 0 <= k < r@.len() ==> bits::below((#[trigger] r@[k]) as u64, width),
{
    let ghost c0 = configs@;
    let rows = order::sort_dedup_rows(configs);
    let mut out: Vec<u32> = Vec::new();
    let mut k: usize = 0;
    proof {
        assert forall|k: int| 0 <= k < rows@.len() implies #[trigger] rows@[k] <= 0xffff_ffff && bits::below(rows@[k], width) by {
            assert(rows@.contains(rows@[k]));
            let q = c0.index_of(rows@[k]);
            assert(bits::below(c0[q], width));
            bits::lemma_below_iff(rows@[k], width as u64);
            network::lemma_pow2_32(width);
        }
    }
    while k < rows.len()
        invariant
            order::ascending64(rows@),
            forall|k: int| 0 <= k < rows@.len() ==> #[trigger] rows@[k] <= 0xffff_ffff,
            k <= rows@.len(),
            out@.len() == k,
            forall|i: int| 0 <= i < k ==> (#[trigger] out@[i]) as u64 == rows@[i],
        decreases rows.len() - k,
    {
        out.push(rows[k] as u32);
        k += 1;
    }
    proof {
        assert(network::ascending32(out@)) by {
            assert forall|i: int, j: int| 0 <= i < j < out@.len() implies out@[i] < out@[j] by {
                assert(rows@[i] < rows@[j]);
                assert(out@[i] as u64 == rows@[i] && out@[j] as u64 == rows@[j]);
            }
        }
        assert forall|c: u32| #[trigger] out@.contains(c) <==> c0.contains(c as u64) by {
            if out@.contains(c) {
                let k = out@.index_of(c);
                assert(rows@[k] == c as u64);
                assert(rows@.contains(c as u64));
            }
            if c0.contains(c as u64) {
                assert(rows@.contains(c as u64));
                let k = rows@.index_of(c as u64);
                assert(out@[k] as u64 == rows@[k]);
                assert(out@[k] == c);
            }
        }
        assert forall|k: int| 0 <= k < out@.len() implies bits::below((#[trigger] out@[k]) as u64, width) by {
            assert(out@[k] as u64 == rows@[k]);
        }
    }
    out
}

/// Read a problem as a network.
pub fn network_from_csp(input: &str) -> (r: Result<ConstraintNetwork, CspError>)
    ensures
        match (r, csp_fault(false, input@)) {
            (Ok(cn), None) => csp_network(cn, input@),
            (Err(e), Some(f)) => says(e, f),
            _ => false,
        },
{
    let doc = match read_csp(false, input) {
        Ok(doc) => doc,
        Err(e) => {
            return Err(e);
        },
    };
    let ghost data = data_lines(text::lines(input@), text::lines(input@).len() as int);
    let ghost tv = tensors_view(doc.tensors@);
    let ghost given0 = doc.tensors@;
    let nvars: usize = doc.n_vars;
    proof {
        lemma_body_wf(false, nvars as int, data, data.len() as int);
        assert(tv.len() == given0.len());
    }
    let mut rest = doc.tensors;
    let mut back: Vec<(Vec<usize>, Vec<u64>)> = Vec::new();
    while rest.len() > 0
        invariant
            rest@.len() + back@.len() == given0.len(),
            rest@ == given0.take(rest@.len() as int),
            forall|k: int| 0 <= k < back@.len() ==> #[trigger] back@[k] == given0[given0.len() - 1 - k],
        decreases rest.len(),
    {
        let ghost n = rest@.len() as int;
        match rest.pop() {
            Some(x) => {
                back.push(x);
                proof {
                    assert(x == given0[n - 1]);
                    assert(rest@ =~= given0.take(n - 1));
                }
            },
            None => {},
        }
    }
    let mut tensors: Vec<(Vec<usize>, Vec<u32>)> = Vec::new();
    while back.len() > 0
        invariant
            tv == tensors_view(given0),
            tv.len() == given0.len(),
            forall|t: int| 0 <= t < tv.len() ==> constraint_wf(nvars as int, #[trigger] tv[t]),
            tensors@.len() + back@.len() == given0.len(),
            forall|k: int| 0 <= k < back@.len() ==> #[trigger] back@[k] == given0[given0.len() - 1 - k],
            forall|t: int|
                0 <= t < tensors@.len() ==> (#[trigger] tensors@[t]).0@ == tv[t].0 && network::ascending32(tensors@[t].1@) && (forall|c: u32| #[trigger] tensors@[t].1@.contains(c) <==> tv[t].1.contains(c as u64)),
            forall|t: int| 0 <= t < tensors@.len() ==> network::input_wf(nvars as int, (#[trigger] tensors@[t]).0@, tensors@[t].1@),
        decreases back.len(),
    {
        let ghost t = tensors@.len() as int;
        let ghost before = tensors@;
        assert(back@[back@.len() - 1] == given0[t]);
        match back.pop() {
            Some((scope, configs)) => {
                proof {
                    assert(scope@ == tv[t].0 && configs@ == tv[t].1);
                    assert(constraint_wf(nvars as int, tv[t]));
                }
                let rows = sorted_rows(configs, Ghost(scope@.len() as int));
                tensors.push((scope, rows));
                proof {
                    assert forall|q: int| 0 <= q < tensors@.len() implies (#[trigger] tensors@[q]).0@ == tv[q].0 && network::ascending32(tensors@[q].1@) && (forall|c: u32| #[trigger] tensors@[q].1@.contains(c) <==> tv[q].1.contains(c as u64)) by {
                        if q < t {
                            assert(tensors@[q] == before[q]);
                        }
                    }
                }
            },
            None => {},
        }
    }
    let ghost given = tensors@;
    let cn = assemble(nvars, tensors);
    proof {
        assert(sorted_tensors(tv, given));
    }
    Ok(cn)
}

/// The network of a problem: its constraints, each with its configurations.
pub open spec fn csp_network(cn: ConstraintNetwork, input: Seq<char>) -> bool {
    let ls = text::lines(input);
    let data = data_lines(ls, ls.len() as int);
    exists|given: Seq<(Vec<usize>, Vec<u32>)>| #[trigger] network::assembles(cn, text::unsigned(data[0].1)->0, given) && sorted_tensors(body_tensors(false, data, data.len() as int), given)
}

/// One of the configurations agrees with the assignment.
pub open spec fn relation_holds(scope: Seq<usize>, configs: Seq<u64>, a: Asg) -> bool {
    exists|k: int| 0 <= k < configs.len() && network::agrees(scope, #[trigger] configs[k], a)
}

/// The network of a text of relations has for models the assignments that agree with a listed
/// configuration of every relation.
pub proof fn law_csp_models(cn: ConstraintNetwork, input: Seq<char>, a: Asg)
    requires
        csp_network(cn, input),
        csp_fault(false, input) is None,
    ensures
        ({
            let data = data_lines(text::lines(input), text::lines(input).len() as int);
            let ts = body_tensors(false, data, data.len() as int);
            cn.model(network::pulled(cn.orig_to_new@, a)) <==> (forall|t: int| 0 <= t < ts.len() ==> relation_holds((#[trigger] ts[t]).0, ts[t].1, a))
        }),
{
    let data = data_lines(text::lines(input), text::lines(input).len() as int);
    let n = text::unsigned(data[0].1)->0;
    let ts = body_tensors(false, data, data.len() as int);
    let given = choose|given: Seq<(Vec<usize>, Vec<u32>)>| #[trigger] network::assembles(cn, n, given) && sorted_tensors(ts, given);
    network::law_assemble_keeps_models(cn, n, given, a);
    lemma_body_wf(false, n, data, data.len() as int);
    assert forall|t: int| 0 <= t < ts.len() implies relation_holds((#[trigger] ts[t]).0, ts[t].1, a) == network::rows_hold(given[t].0@, given[t].1@, a) by {
        let rows = given[t].1@;
        let configs = ts[t].1;
        assert(given[t].0@ == ts[t].0);
        if relation_holds(ts[t].0, configs, a) {
            let k = choose|k: int| 0 <= k < configs.len() && network::agrees(ts[t].0, #[trigger] configs[k], a);
            assert(constraint_wf(n, ts[t]));
            let width = ts[t].0.len() as int;
            assert(bits::below(configs[k], width));
            bits::lemma_below_iff(configs[k], width as u64);
            network::lemma_pow2_32(width);
            let c = configs[k] as u32;
            assert(c as u64 == configs[k]);
            assert(configs.contains(c as u64));
            assert(rows.contains(c));
            let j = rows.index_of(c);
            assert(network::agrees(ts[t].0, rows[j] as u64, a));
        }
        if network::rows_hold(given[t].0@, rows, a) {
            let k = choose|k: int| 0 <= k < rows.len() && network::agrees(given[t].0@, #[trigger] rows[k] as u64, a);
            assert(rows.contains(rows[k]));
            assert(configs.contains(rows[k] as u64));
            let j = configs.index_of(rows[k] as u64);
            assert(network::agrees(ts[t].0, configs[j], a));
        }
    }
    if forall|t: int| 0 <= t < given.len() ==> network::rows_hold((#[trigger] given[t]).0@, given[t].1@, a) {
        assert forall|t: int| 0 <= t < ts.len() implies relation_holds((#[trigger] ts[t]).0, ts[t].1, a) by {
            assert(network::rows_hold(given[t].0@, given[t].1@, a));
        }
    }
    if forall|t: int| 0 <= t < ts.len() ==> relation_holds((#[trigger] ts[t]).0, ts[t].1, a) {
        assert forall|t: int| 0 <= t < given.len() implies network::rows_hold((#[trigger] given[t]).0@, given[t].1@, a) by {
            assert(relation_holds(ts[t].0, ts[t].1, a));
        }
    }
}

} // verus!
