//! Auditing a frontier: read its cubes, put each on the network by propagation alone, and
//! measure what is left.

use crate::adapter;
use crate::bits;
use crate::components;
use crate::ct;
use crate::ct::RSparseBitSet;
use crate::dimacs;
use crate::domain::DomainMask;
use crate::network;
use crate::network::ConstraintNetwork;
use crate::problem::TnProblem;
use crate::propagate;
use crate::residual;
use crate::residual::{diagnose, ResidualDiagnostics};
use crate::table;
use crate::text;
use crate::trail;
use crate::trail::State;
use crate::util;
use vstd::prelude::*;

verus! {

/// What is wrong with a text of cubes, with the number of the line.
#[derive(Clone, Debug)]
pub enum FrontierError {
    /// The line is not `a <literals> 0`.
    ExpectedCube(usize),
    /// The word is no literal.
    InvalidLiteral(usize, String),
    /// A literal is zero or a variable comes twice.
    ZeroOrDuplicate(usize),
    /// There is no cube.
    Empty,
}

/// What is wrong with a text of cubes.
pub ghost enum FrontierFault {
    Expected(int),
    Invalid(int, Seq<char>),
    Repeated(int),
    Empty,
}

/// The first of the first `k` words that is no literal.
pub open spec fn first_invalid(ws: Seq<Seq<char>>, k: int) -> Option<Seq<char>>
    decreases k,
{
    if k <= 0 {
        None
    } else if first_invalid(ws, k - 1) is Some {
        first_invalid(ws, k - 1)
    } else if dimacs::literal(ws[k - 1]) is None {
        Some(ws[k - 1])
    } else {
        None
    }
}

/// The literals that words are.
pub open spec fn literals(ws: Seq<Seq<char>>) -> Seq<i64> {
    Seq::new(ws.len(), |i: int| dimacs::literal(ws[i])->0 as i64)
}

/// No literal is zero and no variable comes twice.
pub open spec fn proper(lits: Seq<i64>) -> bool {
    &&& forall|i: int| 0 <= i < lits.len() ==> (#[trigger] lits[i]) != 0
    &&& forall|i: int, j: int| 0 <= i < j < lits.len() ==> dimacs::magnitude((#[trigger] lits[i]) as int) != dimacs::magnitude((#[trigger] lits[j]) as int)
}

/// A line that holds no cube: it is blank or a comment.
pub open spec fn idle_line(ws: Seq<Seq<char>>) -> bool {
    ws.len() == 0 || ws[0] == "c"@
}

/// What is wrong with the words of a line that is to hold a cube.
pub open spec fn cube_fault(line: int, ws: Seq<Seq<char>>) -> Option<FrontierFault> {
    let inner = ws.subrange(1, ws.len() - 1);
    if ws[0] != "a"@ || ws.last() != "0"@ {
        Some(FrontierFault::Expected(line))
    } else if first_invalid(inner, inner.len() as int) is Some {
        Some(FrontierFault::Invalid(line, first_invalid(inner, inner.len() as int)->0))
    } else if !proper(literals(inner)) {
        Some(FrontierFault::Repeated(line))
    } else {
        None
    }
}

/// The cubes of the first `k` lines.
pub open spec fn cube_lines(ls: Seq<Seq<char>>, k: int) -> Result<Seq<Seq<i64>>, FrontierFault>
    decreases k,
{
    if k <= 0 {
        Ok(Seq::empty())
    } else {
        match cube_lines(ls, k - 1) {
            Err(f) => Err(f),
            Ok(cubes) => {
                let ws = text::words(ls[k - 1]);
                if idle_line(ws) {
                    Ok(cubes)
                } else {
                    match cube_fault(k, ws) {
                        Some(f) => Err(f),
                        None => Ok(cubes.push(literals(ws.subrange(1, ws.len() - 1)))),
                    }
                }
            },
        }
    }
}

/// The cubes of a text.
pub open spec fn frontier(input: Seq<char>) -> Result<Seq<Seq<i64>>, FrontierFault> {
    let ls = text::lines(input);
    match cube_lines(ls, ls.len() as int) {
        Err(f) => Err(f),
        Ok(cubes) => if cubes.len() == 0 {
            Err(FrontierFault::Empty)
        } else {
            Ok(cubes)
        },
    }
}

/// The error that reports a fault.
pub open spec fn tells(e: FrontierError, f: FrontierFault) -> bool {
    match (e, f) {
        (FrontierError::ExpectedCube(a), FrontierFault::Expected(b)) => a == b,
        (FrontierError::InvalidLiteral(a, s), FrontierFault::Invalid(b, t)) => a == b && s@ == t,
        (FrontierError::ZeroOrDuplicate(a), FrontierFault::Repeated(b)) => a == b,
        (FrontierError::Empty, FrontierFault::Empty) => true,
        _ => false,
    }
}

proof fn lemma_invalid_stays(ws: Seq<Seq<char>>, k: int, n: int)
    requires
        0 <= k <= n,
        first_invalid(ws, k) is Some,
    ensures
        first_invalid(ws, n) == first_invalid(ws, k),
    decreases n,
{
    if k < n {
        lemma_invalid_stays(ws, k, n - 1);
    }
}

proof fn lemma_lines_stop(ls: Seq<Seq<char>>, k: int, n: int)
    requires
        0 <= k <= n,
        cube_lines(ls, k) is Err,
    ensures
        cube_lines(ls, n) == cube_lines(ls, k),
    decreases n,
{
    if k < n {
        lemma_lines_stop(ls, k, n - 1);
    }
}

/// Whether the literals are a cube.
fn is_proper(lits: &Vec<i64>) -> (r: bool)
    ensures
        r == proper(lits@),
{
    let mut i: usize = 0;
    while i < lits.len()
        invariant
            i <= lits@.len(),
            forall|a: int| 0 <= a < i ==> (#[trigger] lits@[a]) != 0,
            forall|a: int, b: int| 0 <= a < b < i ==> dimacs::magnitude((#[trigger] lits@[a]) as int) != dimacs::magnitude((#[trigger] lits@[b]) as int),
        decreases lits.len() - i,
    {
        if lits[i] == 0 {
            return false;
        }
        let mut j: usize = 0;
        while j < i
            invariant
                i < lits@.len(),
                j <= i,
                forall|a: int| 0 <= a < j ==> dimacs::magnitude((#[trigger] lits@[a]) as int) != dimacs::magnitude(lits@[i as int] as int),
            decreases i - j,
        {
            if lits[j] == lits[i] || lits[j] as i128 == 0 - lits[i] as i128 {
                return false;
            }
            j += 1;
        }
        i += 1;
    }
    true
}

/// Read the words of a line that is to hold a cube.
fn read_cube(line: usize, ws: &Vec<Vec<char>>) -> (r: Result<Vec<i64>, FrontierError>)
    requires
        ws@.len() > 0,
    ensures
        ({
            let wv = text::views(ws@);
            match r {
                Ok(lits) => cube_fault(line as int, wv) is None && lits@ == literals(wv.subrange(1, wv.len() - 1)),
                Err(e) => cube_fault(line as int, wv) is Some && tells(e, cube_fault(line as int, wv)->0),
            }
        }),
{
    let ghost wv = text::views(ws@);
    let n: usize = ws.len();
    assert(wv[0] == ws@[0]@);
    assert(wv.last() == ws@[n - 1]@);
    if !text::is_text(&ws[0], "a") || !text::is_text(&ws[n - 1], "0") {
        return Err(FrontierError::ExpectedCube(line));
    }
    proof {
        reveal_strlit("a");
        reveal_strlit("0");
        assert("a"@[0] != "0"@[0]);
        assert(n >= 2);
    }
    let ghost inner = wv.subrange(1, n - 1);
    let mut lits: Vec<i64> = Vec::new();
    while lits.len() < n - 2
        invariant
            wv == text::views(ws@),
            n == ws@.len(),
            n >= 2,
            inner == wv.subrange(1, n - 1),
            wv[0] == "a"@,
            wv.last() == "0"@,
            lits@.len() <= n - 2,
            first_invalid(inner, lits@.len() as int) is None,
            forall|i: int| 0 <= i < lits@.len() ==> dimacs::literal(inner[i]) == Some(#[trigger] lits@[i] as int),
        decreases n - 2 - lits.len(),
    {
        let i: usize = lits.len();
        assert(inner[i as int] == ws@[i + 1]@);
        match text::parse_i64(&ws[i + 1]) {
            Some(l) => {
                lits.push(l);
            },
            None => {
                proof {
                    lemma_invalid_stays(inner, i + 1, inner.len() as int);
                }
                return Err(FrontierError::InvalidLiteral(line, text::string_of(&ws[i + 1])));
            },
        }
    }
    assert(lits@ =~= literals(inner));
    if !is_proper(&lits) {
        return Err(FrontierError::ZeroOrDuplicate(line));
    }
    Ok(lits)
}

/// The literals of cubes.
pub open spec fn cubes_view(v: Seq<Vec<i64>>) -> Seq<Seq<i64>> {
    v.map_values(|c: Vec<i64>| c@)
}

/// Read the cubes of a frontier: one for each line `a <literals> 0`, with comments and blank
/// lines left out.
pub fn read_cubes(input: &str) -> (r: Result<Vec<Vec<i64>>, FrontierError>)
    ensures
        match (r, frontier(input@)) {
            (Ok(cubes), Ok(f)) => cubes_view(cubes@) == f,
            (Err(e), Err(f)) => tells(e, f),
            _ => false,
        },
{
    let chars = text::chars_of(input);
    let lines = text::split_lines(&chars);
    let ghost ls = text::lines(input@);
    let mut cubes: Vec<Vec<i64>> = Vec::new();
    let mut k: usize = 0;
    assert(cubes_view(cubes@) =~= Seq::<Seq<i64>>::empty());
    while k < lines.len()
        invariant
            text::views(lines@) == ls,
            ls == text::lines(input@),
            k <= lines@.len(),
            cube_lines(ls, k as int) == Ok::<Seq<Seq<i64>>, FrontierFault>(cubes_view(cubes@)),
        decreases lines.len() - k,
    {
        let ws = text::split_words(&lines[k]);
        assert(ls[k as int] == lines@[k as int]@);
        let ghost wv = text::views(ws@);
        if ws.len() > 0 {
            assert(wv[0] == ws@[0]@);
            if !text::is_text(&ws[0], "c") {
                match read_cube(k + 1, &ws) {
                    Ok(lits) => {
                        let ghost before = cubes@;
                        cubes.push(lits);
                        assert(cubes_view(cubes@) =~= cubes_view(before).push(lits@));
                    },
                    Err(e) => {
                        proof {
                            lemma_lines_stop(ls, k + 1, ls.len() as int);
                        }
                        return Err(e);
                    },
                }
            }
        }
        k += 1;
    }
    if cubes.len() == 0 {
        return Err(FrontierError::Empty);
    }
    Ok(cubes)
}

/// A word in sixteen hexadecimal digits, the highest first.
pub open spec fn hex_word(w: u64) -> Seq<char> {
    Seq::new(16, |j: int| "0123456789abcdef"@[((w >> ((60 - 4 * j) as u64)) & 15) as int])
}

/// The first `k` words in hexadecimal.
pub open spec fn hex_words(ws: Seq<u64>, k: int) -> Seq<char>
    decreases k,
{
    if k <= 0 {
        Seq::empty()
    } else {
        hex_words(ws, k - 1) + hex_word(ws[k - 1])
    }
}

/// Words in hexadecimal.
fn hex_text(ws: &Vec<u64>) -> (r: String)
    ensures
        r@ == hex_words(ws@, ws@.len() as int),
{
    let digits = text::chars_of("0123456789abcdef");
    proof {
        reveal_strlit("0123456789abcdef");
        assert("0123456789abcdef"@.len() == 16);
    }
    let mut out: Vec<char> = Vec::new();
    let mut k: usize = 0;
    while k < ws.len()
        invariant
            digits@ == "0123456789abcdef"@,
            digits@.len() == 16,
            k <= ws@.len(),
            out@ == hex_words(ws@, k as int),
        decreases ws.len() - k,
    {
        let w: u64 = ws[k];
        let ghost before = out@;
        let mut j: u64 = 0;
        assert(out@ =~= before + hex_word(w).take(0));
        while j < 16
            invariant
                digits@ == "0123456789abcdef"@,
                digits@.len() == 16,
                j <= 16,
                out@ == before + hex_word(w).take(j as int),
            decreases 16 - j,
        {
            let shift: u64 = 60 - 4 * j;
            let d: u64 = (w >> shift) & 15;
            proof {
                assert(((w >> shift) & 15) < 16) by (bit_vector);
                assert(hex_word(w).take(j + 1) =~= hex_word(w).take(j as int).push(digits@[d as int]));
            }
            out.push(digits[d as usize]);
            assert(out@ =~= before + hex_word(w).take(j + 1));
            j += 1;
        }
        assert(hex_word(w).take(16) =~= hex_word(w));
        k += 1;
    }
    text::string_of(&out)
}

/// The value that the domains fix an original variable to.
pub open spec fn fixed_value(cn: ConstraintNetwork, d: Seq<DomainMask>, o: int) -> Option<bool> {
    match cn.orig_to_new@[o] {
        None => None,
        Some(c) => if d[c as int] == DomainMask::D0 {
            Some(false)
        } else if d[c as int] == DomainMask::D1 {
            Some(true)
        } else {
            None
        },
    }
}

/// How many of the first `k` original variables are fixed.
pub open spec fn fixed_originals(cn: ConstraintNetwork, d: Seq<DomainMask>, k: int) -> nat
    decreases k,
{
    if k <= 0 {
        0
    } else {
        fixed_originals(cn, d, k - 1) + (if fixed_value(cn, d, k - 1) is Some {
            1nat
        } else {
            0nat
        })
    }
}

/// Words with a bit for each number: the lowest bit of the first word for the first.
pub open spec fn packs(ws: Seq<u64>, n: int, p: spec_fn(int) -> bool) -> bool {
    &&& ws.len() == (n + 63) / 64
    &&& forall|w: int, j: int| 0 <= w < ws.len() && 0 <= j < 64 ==> (#[trigger] bits::bit(ws[w], j) <==> (w * 64 + j < n && p(w * 64 + j)))
}

/// The fixed original variables and their values, in hexadecimal words.
pub open spec fn signature(cn: ConstraintNetwork, d: Seq<DomainMask>, fixed: usize, mask: Seq<char>, values: Seq<char>) -> bool {
    let n = cn.orig_to_new@.len() as int;
    &&& fixed == fixed_originals(cn, d, n)
    &&& exists|ms: Seq<u64>| packs(ms, n, |o: int| fixed_value(cn, d, o) is Some) && mask == #[trigger] hex_words(ms, ms.len() as int)
    &&& exists|vs: Seq<u64>| packs(vs, n, |o: int| fixed_value(cn, d, o) == Some(true)) && values == #[trigger] hex_words(vs, vs.len() as int)
}

/// Words with a bit for each flag.
fn pack(flags: &Vec<bool>) -> (r: Vec<u64>)
    ensures
        packs(r@, flags@.len() as int, |o: int| flags@[o]),
{
    let n: usize = flags.len();
    let mut out: Vec<u64> = Vec::new();
    let mut o: usize = 0;
    while o < n
        invariant
            n == flags@.len(),
            o <= n,
            o < n ==> o % 64 == 0,
            out@.len() == (o + 63) / 64,
            forall|w: int, j: int| 0 <= w < out@.len() && 0 <= j < 64 ==> (#[trigger] bits::bit(out@[w], j) <==> (w * 64 + j < o && flags@[w * 64 + j])),
        decreases n - o,
    {
        let ghost before = out@;
        let ghost base = o as int;
        let mut word: u64 = 0;
        let mut j: usize = 0;
        proof {
            broadcast use bits::group_bits;
            assert forall|i: int| 0 <= i < 64 implies !#[trigger] bits::bit(0u64, i) by {}
            assert(before.len() * 64 == base);
        }
        while j < 64 && o < n
            invariant
                n == flags@.len(),
                j <= 64,
                o == base + j,
                o <= n,
                forall|i: int| 0 <= i < 64 ==> (#[trigger] bits::bit(word, i) <==> (i < j && flags@[base + i])),
            decreases 64 - j,
        {
            if flags[o] {
                word = bits::with_bit(word, j);
            }
            j += 1;
            o += 1;
        }
        out.push(word);
        proof {
            assert forall|w: int, i: int| 0 <= w < out@.len() && 0 <= i < 64 implies (#[trigger] bits::bit(out@[w], i) <==> (w * 64 + i < o && flags@[w * 64 + i])) by {
                if w < before.len() {
                    assert(out@[w] == before[w]);
                    assert(bits::bit(before[w], i) <==> (w * 64 + i < base && flags@[w * 64 + i]));
                } else {
                    assert(w * 64 == base);
                }
            }
        }
    }
    out
}

/// The original variables that the domains fix: how many there are, and which, with their
/// values, in words of hexadecimal digits.
pub fn fixed_assignment_signature(cn: &ConstraintNetwork, doms: &[DomainMask]) -> (r: (usize, String, String))
    requires
        cn.wf(),
        doms@.len() == cn.n(),
    ensures
        signature(*cn, doms@, r.0, r.1@, r.2@),
{
    let ghost n = cn.orig_to_new@.len() as int;
    let mut is_fixed: Vec<bool> = Vec::new();
    let mut is_true: Vec<bool> = Vec::new();
    let mut fixed: usize = 0;
    while is_fixed.len() < cn.orig_to_new.len()
        invariant
            cn.wf(),
            doms@.len() == cn.n(),
            n == cn.orig_to_new@.len(),
            is_fixed@.len() <= n,
            is_true@.len() == is_fixed@.len(),
            fixed <= is_fixed@.len(),
            fixed == fixed_originals(*cn, doms@, is_fixed@.len() as int),
            forall|o: int| 0 <= o < is_fixed@.len() ==> #[trigger] is_fixed@[o] == (fixed_value(*cn, doms@, o) is Some),
            forall|o: int| 0 <= o < is_true@.len() ==> #[trigger] is_true@[o] == (fixed_value(*cn, doms@, o) == Some(true)),
        decreases n - is_fixed@.len(),
    {
        let o: usize = is_fixed.len();
        let value = match cn.orig_to_new[o] {
            None => None,
            Some(c) => {
                assert(network::compresses(cn.orig_to_new@, cn.n()));
                doms[c].value()
            },
        };
        match value {
            Some(b) => {
                assert(cn.orig_to_new.len() == n);
                fixed += 1;
                is_fixed.push(true);
                is_true.push(b);
            },
            None => {
                is_fixed.push(false);
                is_true.push(false);
            },
        }
    }
    let ms = pack(&is_fixed);
    let vs = pack(&is_true);
    proof {
        let p = |o: int| fixed_value(*cn, doms@, o) is Some;
        let q = |o: int| fixed_value(*cn, doms@, o) == Some(true);
        assert(packs(ms@, n, p)) by {
            assert forall|w: int, j: int| 0 <= w < ms@.len() && 0 <= j < 64 implies (#[trigger] bits::bit(ms@[w], j) <==> (w * 64 + j < n && p(w * 64 + j))) by {
                if w * 64 + j < n {
                    assert(is_fixed@[w * 64 + j] == (fixed_value(*cn, doms@, w * 64 + j) is Some));
                }
            }
        }
        assert(packs(vs@, n, q)) by {
            assert forall|w: int, j: int| 0 <= w < vs@.len() && 0 <= j < 64 implies (#[trigger] bits::bit(vs@[w], j) <==> (w * 64 + j < n && q(w * 64 + j))) by {
                if w * 64 + j < n {
                    assert(is_true@[w * 64 + j] == (fixed_value(*cn, doms@, w * 64 + j) == Some(true)));
                }
            }
        }
    }
    (fixed, hex_text(&ms), hex_text(&vs))
}

/// Why a cube cannot be put on the network.
#[derive(Clone, Copy, Debug, PartialEq, Eq, Structural)]
pub enum AuditError {
    /// The literal names no variable.
    OutOfRange(i64),
    /// The literal names a variable that no constraint names.
    CompressedOut(i64),
    /// The variable has another value already.
    Contradicts(i64),
}

/// The domains after the first `k` literals, with how many were not yet set.
pub open spec fn conditioned(cn: ConstraintNetwork, d: Seq<DomainMask>, lits: Seq<i64>, k: int) -> Result<(Seq<DomainMask>, nat), AuditError>
    decreases k,
{
    if k <= 0 {
        Ok((d, 0))
    } else {
        match conditioned(cn, d, lits, k - 1) {
            Err(e) => Err(e),
            Ok(s) => {
                let l = lits[k - 1];
                let o = dimacs::var_of(l);
                let want = DomainMask::only(l > 0);
                if o >= cn.orig_to_new@.len() {
                    Err(AuditError::OutOfRange(l))
                } else {
                    match cn.orig_to_new@[o] {
                        None => Err(AuditError::CompressedOut(l)),
                        Some(c) => if s.0[c as int] == want {
                            Ok(s)
                        } else if s.0[c as int] == DomainMask::BOTH {
                            Ok((s.0.update(c as int, want), s.1 + 1))
                        } else {
                            Err(AuditError::Contradicts(l))
                        },
                    }
                }
            },
        }
    }
}

/// What a cube leaves of the network.
#[derive(Clone, Debug)]
pub struct Audit {
    /// The literals that were not set before.
    pub explicit_new_variables: usize,
    /// The variables that propagation set beyond them.
    pub gac_additional_fixed_variables: usize,
    pub fixed_original_variables: usize,
    pub fixed_mask_hex: String,
    pub fixed_value_hex: String,
    pub residual: ResidualDiagnostics,
}

/// What is measured on propagated domains: their tables hold what the constraints still allow
/// unless there is a contradiction.
pub open spec fn audited(cn: ConstraintNetwork, root: Seq<DomainMask>, added: nat, d: Seq<DomainMask>, tables: Seq<RSparseBitSet>, ok: bool, a: Audit) -> bool {
    &&& ok ==> ct::fixpoint(cn, (d, trail::frozen(tables)))
    &&& a.explicit_new_variables == added
    &&& residual::measures(cn, d, tables, a.residual)
    &&& signature(cn, d, a.fixed_original_variables, a.fixed_mask_hex@, a.fixed_value_hex@)
    &&& ({
        let extra = a.residual.fixed_variables - (cn.n() - util::unfixed(root, cn.n())) - added;
        a.gac_additional_fixed_variables == (if extra > 0 {
            extra
        } else {
            0
        })
    })
}

proof fn lemma_conditioned_stops(cn: ConstraintNetwork, d: Seq<DomainMask>, lits: Seq<i64>, k: int, n: int)
    requires
        0 <= k <= n,
        conditioned(cn, d, lits, k) is Err,
    ensures
        conditioned(cn, d, lits, n) == conditioned(cn, d, lits, k),
    decreases n,
{
    if k < n {
        lemma_conditioned_stops(cn, d, lits, k, n - 1);
    }
}

/// What the literals set: the domains with them, and each variable that was open with its
/// value.
spec fn picks_of(d: Seq<DomainMask>, picks: Seq<(usize, bool)>, k: int) -> Seq<DomainMask>
    decreases k,
{
    if k <= 0 {
        d
    } else {
        picks_of(d, picks, k - 1).update(picks[k - 1].0 as int, DomainMask::only(picks[k - 1].1))
    }
}

/// The picks are of variables that are open when their turn comes.
spec fn picks_wf(d: Seq<DomainMask>, picks: Seq<(usize, bool)>) -> bool {
    forall|k: int| 0 <= k < picks.len() ==> (#[trigger] picks[k]).0 < d.len() && picks_of(d, picks, k)[picks[k].0 as int] == DomainMask::BOTH
}

proof fn lemma_picks_push(d: Seq<DomainMask>, picks: Seq<(usize, bool)>, x: (usize, bool), k: int)
    requires
        0 <= k <= picks.len(),
    ensures
        picks_of(d, picks.push(x), k) == picks_of(d, picks, k),
    decreases k,
{
    if k > 0 {
        lemma_picks_push(d, picks, x, k - 1);
        assert(picks.push(x)[k - 1] == picks[k - 1]);
    }
}

/// Read the literals against the domains.
fn read_literals(cn: &ConstraintNetwork, doms: &Vec<DomainMask>, lits: &[i64]) -> (r: Result<Vec<(usize, bool)>, AuditError>)
    requires
        cn.wf(),
        doms@.len() == cn.n(),
        forall|i: int| 0 <= i < lits@.len() ==> (#[trigger] lits@[i]) != 0,
    ensures
        match r {
            Ok(picks) => {
                &&& picks_wf(doms@, picks@)
                &&& conditioned(*cn, doms@, lits@, lits@.len() as int) == Ok::<(Seq<DomainMask>, nat), AuditError>((picks_of(doms@, picks@, picks@.len() as int), picks@.len()))
            },
            Err(e) => conditioned(*cn, doms@, lits@, lits@.len() as int) == Err::<(Seq<DomainMask>, nat), AuditError>(e),
        },
{
    let ghost d0 = doms@;
    let ghost n = lits@.len() as int;
    let mut now: Vec<DomainMask> = adapter::copy_doms(doms);
    let mut picks: Vec<(usize, bool)> = Vec::new();
    let mut k: usize = 0;
    while k < lits.len()
        invariant
            cn.wf(),
            d0 == doms@,
            d0.len() == cn.n(),
            n == lits@.len(),
            forall|i: int| 0 <= i < lits@.len() ==> (#[trigger] lits@[i]) != 0,
            k <= n,
            now@.len() == cn.n(),
            now@ == picks_of(d0, picks@, picks@.len() as int),
            picks_wf(d0, picks@),
            conditioned(*cn, d0, lits@, k as int) == Ok::<(Seq<DomainMask>, nat), AuditError>((now@, picks@.len())),
        decreases n - k,
    {
        let l: i64 = lits[k];
        let size: u64 = if l < 0 {
            (0i128 - l as i128) as u64
        } else {
            l as u64
        };
        if size - 1 >= cn.orig_to_new.len() as u64 {
            proof {
                lemma_conditioned_stops(*cn, d0, lits@, k + 1, n);
            }
            return Err(AuditError::OutOfRange(l));
        }
        let o: usize = (size - 1) as usize;
        match cn.orig_to_new[o] {
            None => {
                proof {
                    lemma_conditioned_stops(*cn, d0, lits@, k + 1, n);
                }
                return Err(AuditError::CompressedOut(l));
            },
            Some(c) => {
                assert(network::compresses(cn.orig_to_new@, cn.n()));
                let want = crate::domain::fixed_domain(l > 0);
                if now[c] == DomainMask::BOTH {
                    let ghost p0 = picks@;
                    now.set(c, want);
                    picks.push((c, l > 0));
                    proof {
                        lemma_picks_push(d0, p0, (c, l > 0), p0.len() as int);
                        assert forall|j: int| 0 <= j < picks@.len() implies (#[trigger] picks@[j]).0 < d0.len() && picks_of(d0, picks@, j)[picks@[j].0 as int] == DomainMask::BOTH by {
                            lemma_picks_push(d0, p0, (c, l > 0), j);
                            if j < p0.len() {
                                assert(picks@[j] == p0[j]);
                            }
                        }
                    }
                } else if now[c] != want {
                    proof {
                        lemma_conditioned_stops(*cn, d0, lits@, k + 1, n);
                    }
                    return Err(AuditError::Contradicts(l));
                }
            },
        }
        k += 1;
    }
    Ok(picks)
}

proof fn lemma_same_words(a: Seq<RSparseBitSet>, b: Seq<RSparseBitSet>, k: int)
    requires
        a.len() == b.len(),
        0 <= k <= a.len(),
        forall|t: int| 0 <= t < a.len() ==> (#[trigger] a[t]).words@.len() == b[t].words@.len(),
    ensures
        residual::word_total(a, k) == residual::word_total(b, k),
    decreases k,
{
    if k > 0 {
        lemma_same_words(a, b, k - 1);
        assert(a[k - 1].words@.len() == b[k - 1].words@.len());
    }
}

/// Set the picked variables and propagate.
fn place(problem: &mut TnProblem, picks: &Vec<(usize, bool)>) -> (ok: bool)
    requires
        old(problem).wf(),
        picks_wf(old(problem).doms@, picks@),
    ensures
        final(problem).static_cn == old(problem).static_cn,
        final(problem).masks == old(problem).masks,
        final(problem).buffer.clean(old(problem).cn()),
        ct::logged(final(problem).trail, final(problem).state(), old(problem).trail, old(problem).state()),
        propagate::propagated(old(problem).cn(), picks_of(old(problem).doms@, picks@, picks@.len() as int), final(problem).doms@, ok),
        ok ==> ct::fixpoint(old(problem).cn(), final(problem).state()),
{
    let cn = problem.static_cn.clone();
    let masks = problem.masks.clone();
    let ghost net = problem.cn();
    let ghost s0: State = problem.state();
    let ghost l0 = problem.trail;
    let ghost d0 = problem.doms@;
    let ghost t0 = problem.tables@;
    proof {
        propagate::lemma_fixpoint_pending(net, s0, problem.buffer);
    }
    let mut k: usize = 0;
    while k < picks.len()
        invariant
            net == table::shared(&cn),
            net.wf(),
            ct::markable(net),
            s0 == (d0, trail::frozen(t0)),
            d0.len() == net.n(),
            picks_wf(d0, picks@),
            k <= picks@.len(),
            problem.doms@ == picks_of(d0, picks@, k as int),
            problem.tables@ == t0,
            ct::pending(net, (problem.doms@, s0.1), problem.buffer, -1),
            ct::queue_ok(problem.buffer, 0, net.m()),
            ct::logged(problem.trail, (problem.doms@, s0.1), l0, s0),
            problem.masks == old(problem).masks,
            problem.static_cn == old(problem).static_cn,
        decreases picks.len() - k,
    {
        let ghost s1: State = (problem.doms@, s0.1);
        let ghost l1 = problem.trail;
        let c: usize = picks[k].0;
        let b: bool = picks[k].1;
        let vars = vec![c];
        assert(picks_of(d0, picks@, k as int)[picks@[k as int].0 as int] == DomainMask::BOTH);
        let val: u64 = if b {
            1
        } else {
            0
        };
        ct::apply_masked_assignment(&cn, &mut problem.doms, &mut problem.buffer, &mut problem.trail, vars.as_slice(), 1, val, Ghost(s0.1));
        proof {
            assert(bits::bit(1u64, 0) && !bits::bit(0u64, 0)) by {
                reveal(bits::bit);
                assert((1u64 >> 0u64) & 1u64 == 1u64 && (0u64 >> 0u64) & 1u64 == 0u64) by (bit_vector);
            }
            assert(vars@ =~= seq![c]);
            reveal_with_fuel(ct::assigned, 2);
            ct::lemma_logged_trans(problem.trail, (problem.doms@, s0.1), l1, s1, l0, s0);
        }
        k += 1;
    }
    let ghost s1: State = (problem.doms@, s0.1);
    let ghost l1 = problem.trail;
    let ok = ct::ct_propagate(&cn, &mut problem.doms, &masks, &mut problem.tables, &mut problem.buffer, &mut problem.trail);
    proof {
        ct::lemma_logged_trans(problem.trail, problem.state(), l1, s1, l0, s0);
    }
    ok
}

proof fn lemma_audit_bounds(net: ConstraintNetwork, s0: State, t0: Seq<RSparseBitSet>, s2: State, t2: Seq<RSparseBitSet>)
    requires
        s0.1 == trail::frozen(t0),
        s2.1 == trail::frozen(t2),
        trail::shape(s2) == trail::shape(s0),
        t0.len() == net.m(),
    ensures
        t2.len() == t0.len(),
        s2.0.len() == s0.0.len(),
        residual::sum_of(residual::row_counts(t2, components::live_flags(net, s2.0), net.m())) <= 64 * residual::word_total(t0, net.m()),
{
    assert(s2.1.len() == t2.len() && s0.1.len() == t0.len());
    assert(trail::shape(s2).1.len() == s2.1.len() && trail::shape(s0).1.len() == s0.1.len());
    assert forall|t: int| 0 <= t < t0.len() implies (#[trigger] t2[t]).words@.len() == t0[t].words@.len() by {
        assert(s2.1[t].0 == t2[t].words@ && s0.1[t].0 == t0[t].words@);
        let f2 = trail::shape(s2).1;
        let f0 = trail::shape(s0).1;
        assert(f2[t] == s2.1[t].0.len());
        assert(f0[t] == s0.1[t].0.len());
        assert(f2 == f0);
    }
    lemma_same_words(t2, t0, net.m());
    residual::lemma_rows_bound(t2, components::live_flags(net, s2.0), net.m());
}

/// Measure the propagated domains.
fn measure_on(problem: &TnProblem, open_before: usize, added: usize, Ghost(root): Ghost<Seq<DomainMask>>, Ghost(ok): Ghost<bool>) -> (a: Audit)
    requires
        problem.cn().wf(),
        ct::masks_ok(problem.cn(), (*problem.masks)@),
        problem.doms@.len() == problem.cn().n(),
        problem.tables@.len() == problem.cn().m(),
        root.len() == problem.cn().n(),
        open_before == util::unfixed(root, problem.cn().n()),
        32 * problem.cn().m() <= usize::MAX,
        residual::sum_of(residual::row_counts(problem.tables@, components::live_flags(problem.cn(), problem.doms@), problem.cn().m())) <= usize::MAX,
        ok ==> ct::fixpoint(problem.cn(), problem.state()),
    ensures
        audited(problem.cn(), root, added as nat, problem.doms@, problem.tables@, ok, a),
{
    let measured = diagnose(&problem.static_cn, problem.doms.as_slice(), problem.masks.as_slice(), problem.tables.as_slice());
    let (fixed_original_variables, fixed_mask_hex, fixed_value_hex) = fixed_assignment_signature(&problem.static_cn, problem.doms.as_slice());
    proof {
        residual::lemma_unfixed_bound(root, problem.cn().n());
    }
    let root_fixed: usize = problem.doms.len() - open_before;
    let past_root: usize = if measured.fixed_variables > root_fixed {
        measured.fixed_variables - root_fixed
    } else {
        0
    };
    let gac_additional_fixed_variables: usize = if past_root > added {
        past_root - added
    } else {
        0
    };
    Audit {
        explicit_new_variables: added,
        gac_additional_fixed_variables,
        fixed_original_variables,
        fixed_mask_hex,
        fixed_value_hex,
        residual: measured,
    }
}

/// Put a cube on the network by propagation alone, measure what is left, and take it off
/// again.
pub fn audit_cube(problem: &mut TnProblem, lits: &[i64]) -> (r: Result<Audit, AuditError>)
    requires
        old(problem).wf(),
        forall|i: int| 0 <= i < lits@.len() ==> (#[trigger] lits@[i]) != 0,
        32 * old(problem).cn().m() <= usize::MAX,
        64 * residual::word_total(old(problem).tables@, old(problem).cn().m()) <= usize::MAX,
    ensures
        final(problem).wf(),
        final(problem).state() == old(problem).state(),
        final(problem).static_cn == old(problem).static_cn,
        match (r, conditioned(old(problem).cn(), old(problem).doms@, lits@, lits@.len() as int)) {
            (Ok(a), Ok(s)) => audit_of(old(problem).cn(), old(problem).doms@, s, a),
            (Err(e), Err(f)) => e == f,
            _ => false,
        },
{
    let ghost net = problem.cn();
    let ghost s0: State = problem.state();
    let ghost d0 = problem.doms@;
    let ghost t0 = problem.tables@;
    let picks = match read_literals(&problem.static_cn, &problem.doms, lits) {
        Ok(p) => p,
        Err(e) => {
            return Err(e);
        },
    };
    let open_before: usize = util::count_unfixed(problem.doms.as_slice());
    problem.trail.open();
    let ghost l0 = problem.trail;
    let mark: usize = problem.trail.mark();
    let ok = place(problem, &picks);
    let ghost s2: State = problem.state();
    let ghost l2 = problem.trail;
    proof {
        lemma_audit_bounds(net, s0, t0, s2, problem.tables@);
    }
    let a = measure_on(problem, open_before, picks.len(), Ghost(d0), Ghost(ok));
    proof {
        let s = (picks_of(d0, picks@, picks@.len() as int), picks@.len());
        assert(audited(net, d0, s.1, problem.doms@, problem.tables@, ok, a));
        assert(propagate::propagated(net, s.0, problem.doms@, ok));
        assert(audit_of(net, d0, s, a));
    }
    problem.trail.restore_to(mark, &mut problem.doms, &mut problem.tables);
    proof {
        propagate::lemma_restored(l0, s0, l2, s2, problem.trail, problem.state(), mark as int);
    }
    Ok(a)
}

/// What is measured after the domains with the cube were propagated.
pub open spec fn audit_of(cn: ConstraintNetwork, root: Seq<DomainMask>, s: (Seq<DomainMask>, nat), a: Audit) -> bool {
    exists|d: Seq<DomainMask>, tables: Seq<RSparseBitSet>, ok: bool|
        #[trigger] audited(cn, root, s.1, d, tables, ok, a) && propagate::propagated(cn, s.0, d, ok)
}

} // verus!
