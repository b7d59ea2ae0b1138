//! Counting problems: constraints with or without weights, and weights of values.
use vstd::prelude::*;
use vstd::string::StringExecFns;

use crate::bits;
use crate::contract;
use crate::counting::CountBranch;
use crate::countve::count_with_ve;
use crate::domain::Asg;
use crate::network;
use crate::network::{assemble, ConstraintNetwork};
use crate::order;
use crate::problem::Stats;
use crate::semiring;
use crate::semiring::{BigCount, RationalWeight, Weight, WeightError};
use crate::seqs;
use crate::sums;
use crate::text;
use crate::wcanonicalize;
use crate::weighted;
use crate::weighted::WRelation;

verus! {

/// The tag of the format.
pub const FORMAT_TAG: &'static str = "wcn-1";

/// A constraint: its variables, and either the allowed configurations or weighted ones.
pub struct InstanceTensor {
    pub vars: Vec<usize>,
    pub allow: Vec<u64>,
    pub rows: Vec<(u64, String)>,
}

/// A counting problem.
pub struct Instance {
    pub format: String,
    pub n_vars: usize,
    pub tensors: Vec<InstanceTensor>,
    /// For a variable, the weights of its two values.
    pub var_weights: Vec<(usize, String, String)>,
}

/// An exact count.
pub enum CountValue {
    /// The number of models.
    Int(BigCount),
    /// The summed weight.
    Rat(RationalWeight),
}

impl CountValue {
    /// The number.
    pub open spec fn number(self) -> real {
        match self {
            CountValue::Int(c) => c.val(),
            CountValue::Rat(w) => w.val(),
        }
    }

    /// The count in decimal, or as a ratio in lowest terms.
    pub fn to_text(&self) -> (r: String)
        ensures
            r@ == (match *self {
                CountValue::Int(c) => semiring::decimal(c.count()),
                CountValue::Rat(w) => semiring::ratio_text(w.is_negative(), w.numerator(), w.denominator()),
            }),
    {
        match self {
            CountValue::Int(c) => c.to_decimal(),
            CountValue::Rat(w) => w.to_ratio_string(),
        }
    }
}

/// What is wrong with a counting problem. The first number of most is the constraint.
#[derive(Clone, Copy, Debug, PartialEq, Eq, Structural)]
pub enum InstanceFault {
    UnknownFormat,
    EmptyScope(usize),
    ArityTooLarge(usize, usize),
    DuplicateVar(usize),
    VarOutOfRange(usize, usize),
    AllowAndRows(usize),
    ConfigOutOfRange(usize, u64),
    BadWeight(usize, u64, WeightError),
    WeightVarOutOfRange(usize),
    WeightVarDuplicate(usize),
    BadVarWeight(usize, WeightError),
    DuplicateConfig(usize),
}

/// The first of `k` variables that is out of range.
pub open spec fn first_over(vars: Seq<usize>, n: int, k: int) -> Option<usize>
    decreases k,
{
    if k <= 0 {
        None
    } else if first_over(vars, n, k - 1) is Some {
        first_over(vars, n, k - 1)
    } else if vars[k - 1] >= n {
        Some(vars[k - 1])
    } else {
        None
    }
}

/// The first of `k` configurations that has a bit beyond the variables.
pub open spec fn first_wide(configs: Seq<u64>, arity: int, k: int) -> Option<u64>
    decreases k,
{
    if k <= 0 {
        None
    } else if first_wide(configs, arity, k - 1) is Some {
        first_wide(configs, arity, k - 1)
    } else if !bits::below(configs[k - 1], arity) {
        Some(configs[k - 1])
    } else {
        None
    }
}

/// The configurations of weighted rows.
pub open spec fn row_configs(rows: Seq<(u64, String)>) -> Seq<u64> {
    Seq::new(rows.len(), |k: int| rows[k].0)
}

/// The error of a text that is no weight.
pub open spec fn weight_error(s: Seq<char>) -> Option<WeightError> {
    match semiring::weight_number(s) {
        Ok(_) => None,
        Err(e) => Some(e),
    }
}

/// The number that a text is.
pub open spec fn weight_value(s: Seq<char>) -> real {
    match semiring::weight_number(s) {
        Ok(x) => x,
        Err(_) => 0real,
    }
}

/// The first of `k` rows whose weight is no number.
pub open spec fn first_bad_row(rows: Seq<(u64, String)>, k: int) -> Option<(u64, WeightError)>
    decreases k,
{
    if k <= 0 {
        None
    } else if first_bad_row(rows, k - 1) is Some {
        first_bad_row(rows, k - 1)
    } else {
        match weight_error(rows[k - 1].1@) {
            Some(e) => Some((rows[k - 1].0, e)),
            None => None,
        }
    }
}

/// What is wrong with constraint `i`.
pub open spec fn tensor_fault(t: InstanceTensor, i: usize, n: int) -> Option<InstanceFault> {
    let vars = t.vars@;
    if vars.len() == 0 {
        Some(InstanceFault::EmptyScope(i))
    } else if vars.len() > 63 {
        Some(InstanceFault::ArityTooLarge(i, vars.len() as usize))
    } else if !network::distinct(vars) {
        Some(InstanceFault::DuplicateVar(i))
    } else if first_over(vars, n, vars.len() as int) is Some {
        Some(InstanceFault::VarOutOfRange(i, first_over(vars, n, vars.len() as int)->0))
    } else if t.allow@.len() > 0 && t.rows@.len() > 0 {
        Some(InstanceFault::AllowAndRows(i))
    } else if first_wide(t.allow@, vars.len() as int, t.allow@.len() as int) is Some {
        Some(InstanceFault::ConfigOutOfRange(i, first_wide(t.allow@, vars.len() as int, t.allow@.len() as int)->0))
    } else if first_wide(row_configs(t.rows@), vars.len() as int, t.rows@.len() as int) is Some {
        Some(InstanceFault::ConfigOutOfRange(i, first_wide(row_configs(t.rows@), vars.len() as int, t.rows@.len() as int)->0))
    } else {
        match first_bad_row(t.rows@, t.rows@.len() as int) {
            Some(x) => Some(InstanceFault::BadWeight(i, x.0, x.1)),
            None => None,
        }
    }
}

/// The first fault among `k` constraints.
pub open spec fn tensors_fault(ts: Seq<InstanceTensor>, n: int, k: int) -> Option<InstanceFault>
    decreases k,
{
    if k <= 0 {
        None
    } else if tensors_fault(ts, n, k - 1) is Some {
        tensors_fault(ts, n, k - 1)
    } else {
        tensor_fault(ts[k - 1], (k - 1) as usize, n)
    }
}

/// One of the first `k` entries is for `v`.
pub open spec fn weighted_var(ws: Seq<(usize, String, String)>, k: int, v: usize) -> bool {
    exists|j: int| 0 <= j < k && (#[trigger] ws[j]).0 == v
}

/// The first fault among `k` weights of variables.
pub open spec fn weights_fault(ws: Seq<(usize, String, String)>, n: int, k: int) -> Option<InstanceFault>
    decreases k,
{
    if k <= 0 {
        None
    } else if weights_fault(ws, n, k - 1) is Some {
        weights_fault(ws, n, k - 1)
    } else {
        let v = ws[k - 1].0;
        if v >= n {
            Some(InstanceFault::WeightVarOutOfRange(v))
        } else if weighted_var(ws, k - 1, v) {
            Some(InstanceFault::WeightVarDuplicate(v))
        } else if weight_error(ws[k - 1].1@) is Some {
            Some(InstanceFault::BadVarWeight(v, weight_error(ws[k - 1].1@)->0))
        } else if weight_error(ws[k - 1].2@) is Some {
            Some(InstanceFault::BadVarWeight(v, weight_error(ws[k - 1].2@)->0))
        } else {
            None
        }
    }
}

/// The weight that weighted rows give an assignment.
pub open spec fn rows_weight(vars: Seq<usize>, rows: Seq<(u64, String)>, k: int, a: Asg) -> real
    decreases k,
{
    if k <= 0 {
        0real
    } else {
        rows_weight(vars, rows, k - 1, a) + (if network::agrees(vars, rows[k - 1].0, a) {
            weight_value(rows[k - 1].1@)
        } else {
            0real
        })
    }
}

/// An allowed configuration agrees with the assignment.
pub open spec fn allows(t: InstanceTensor, a: Asg) -> bool {
    exists|k: int| 0 <= k < t.allow@.len() && network::agrees(t.vars@, #[trigger] t.allow@[k], a)
}

/// The weight that a constraint gives an assignment: one or zero where it lists allowed
/// configurations.
pub open spec fn tensor_weight(t: InstanceTensor, a: Asg) -> real {
    if t.rows@.len() > 0 {
        rows_weight(t.vars@, t.rows@, t.rows@.len() as int, a)
    } else if allows(t, a) {
        1real
    } else {
        0real
    }
}

/// The weight of a value of a variable: one where the first `k` entries give none.
pub open spec fn value_weight(ws: Seq<(usize, String, String)>, k: int, v: int, b: bool) -> real
    decreases k,
{
    if k <= 0 {
        1real
    } else if ws[k - 1].0 == v {
        if b {
            weight_value(ws[k - 1].2@)
        } else {
            weight_value(ws[k - 1].1@)
        }
    } else {
        value_weight(ws, k - 1, v, b)
    }
}

impl Instance {
    /// What is wrong with the problem.
    pub open spec fn fault(self) -> Option<InstanceFault> {
        if self.format@ != FORMAT_TAG@ {
            Some(InstanceFault::UnknownFormat)
        } else if tensors_fault(self.tensors@, self.n_vars as int, self.tensors@.len() as int) is Some {
            tensors_fault(self.tensors@, self.n_vars as int, self.tensors@.len() as int)
        } else {
            weights_fault(self.var_weights@, self.n_vars as int, self.var_weights@.len() as int)
        }
    }

    /// Some constraint has weighted rows, or some variable has weights.
    pub open spec fn weighted(self) -> bool {
        self.var_weights@.len() > 0 || exists|t: int| 0 <= t < self.tensors@.len() && (#[trigger] self.tensors@[t]).rows@.len() > 0
    }

    /// The weights of an assignment: those of the constraints, then those of the values.
    pub open spec fn factors(self, a: Asg) -> Seq<real> {
        Seq::new(
            self.tensors@.len() + self.n_vars as nat,
            |i: int|
                if i < self.tensors@.len() {
                    tensor_weight(self.tensors@[i], a)
                } else {
                    value_weight(self.var_weights@, self.var_weights@.len() as int, i - self.tensors@.len(), a(i - self.tensors@.len()))
                },
        )
    }

    /// The weight of an assignment.
    pub open spec fn weight(self, a: Asg) -> real {
        sums::product(self.factors(a))
    }

    /// The summed weight of all assignments of the declared variables.
    pub open spec fn total(self, base: Asg) -> real {
        sums::total(|a: Asg| self.weight(a), base, weighted::ids(self.n_vars as int))
    }

    /// Every constraint is narrow enough for a table.
    pub open spec fn narrow(self) -> bool {
        forall|t: int| 0 <= t < self.tensors@.len() ==> (#[trigger] self.tensors@[t]).vars@.len() <= 32
    }

    /// A problem without constraints.
    pub fn new(n_vars: usize) -> (r: Instance)
        ensures
            r.format@ == FORMAT_TAG@,
            r.n_vars == n_vars,
            r.tensors@.len() == 0,
            r.var_weights@.len() == 0,
    {
        Instance { format: text::copy_text(FORMAT_TAG), n_vars, tensors: Vec::new(), var_weights: Vec::new() }
    }

    /// Whether the count is a sum of weights.
    pub fn is_weighted(&self) -> (r: bool)
        ensures
            r == self.weighted(),
    {
        if self.var_weights.len() > 0 {
            return true;
        }
        let mut t: usize = 0;
        while t < self.tensors.len()
            invariant
                t <= self.tensors@.len(),
                self.var_weights@.len() == 0,
                forall|s: int| 0 <= s < t ==> (#[trigger] self.tensors@[s]).rows@.len() == 0,
            decreases self.tensors.len() - t,
        {
            if self.tensors[t].rows.len() > 0 {
                return true;
            }
            t += 1;
        }
        false
    }

    /// Check the problem.
    pub fn validate(&self) -> (r: Result<(), InstanceFault>)
        ensures
            match r {
                Ok(_) => self.fault() is None,
                Err(e) => self.fault() == Some(e),
            },
    {
        if !text::same_text(self.format.as_str(), FORMAT_TAG) {
            return Err(InstanceFault::UnknownFormat);
        }
        let mut i: usize = 0;
        while i < self.tensors.len()
            invariant
                self.format@ == FORMAT_TAG@,
                i <= self.tensors@.len(),
                tensors_fault(self.tensors@, self.n_vars as int, i as int) is None,
            decreases self.tensors.len() - i,
        {
            match check_tensor(&self.tensors[i], i, self.n_vars) {
                Some(f) => {
                    proof {
                        lemma_tensors_stop(self.tensors@, self.n_vars as int, i + 1);
                    }
                    return Err(f);
                },
                None => {},
            }
            i += 1;
        }
        match check_weights(&self.var_weights, self.n_vars) {
            Some(f) => Err(f),
            None => Ok(()),
        }
    }
}

proof fn lemma_tensors_stop(ts: Seq<InstanceTensor>, n: int, k: int)
    requires
        0 <= k <= ts.len(),
        tensors_fault(ts, n, k) is Some,
    ensures
        tensors_fault(ts, n, ts.len() as int) == tensors_fault(ts, n, k),
    decreases ts.len() - k,
{
    if k < ts.len() {
        assert(tensors_fault(ts, n, k + 1) == tensors_fault(ts, n, k));
        lemma_tensors_stop(ts, n, k + 1);
    }
}

proof fn lemma_weights_stop(ws: Seq<(usize, String, String)>, n: int, k: int)
    requires
        0 <= k <= ws.len(),
        weights_fault(ws, n, k) is Some,
    ensures
        weights_fault(ws, n, ws.len() as int) == weights_fault(ws, n, k),
    decreases ws.len() - k,
{
    if k < ws.len() {
        assert(weights_fault(ws, n, k + 1) == weights_fault(ws, n, k));
        lemma_weights_stop(ws, n, k + 1);
    }
}

proof fn lemma_over_stop(vars: Seq<usize>, n: int, k: int)
    requires
        0 <= k <= vars.len(),
        first_over(vars, n, k) is Some,
    ensures
        first_over(vars, n, vars.len() as int) == first_over(vars, n, k),
    decreases vars.len() - k,
{
    if k < vars.len() {
        assert(first_over(vars, n, k + 1) == first_over(vars, n, k));
        lemma_over_stop(vars, n, k + 1);
    }
}

proof fn lemma_wide_stop(configs: Seq<u64>, arity: int, k: int)
    requires
        0 <= k <= configs.len(),
        first_wide(configs, arity, k) is Some,
    ensures
        first_wide(configs, arity, configs.len() as int) == first_wide(configs, arity, k),
    decreases configs.len() - k,
{
    if k < configs.len() {
        assert(first_wide(configs, arity, k + 1) == first_wide(configs, arity, k));
        lemma_wide_stop(configs, arity, k + 1);
    }
}

proof fn lemma_bad_row_stop(rows: Seq<(u64, String)>, k: int)
    requires
        0 <= k <= rows.len(),
        first_bad_row(rows, k) is Some,
    ensures
        first_bad_row(rows, rows.len() as int) == first_bad_row(rows, k),
    decreases rows.len() - k,
{
    if k < rows.len() {
        assert(first_bad_row(rows, k + 1) == first_bad_row(rows, k));
        lemma_bad_row_stop(rows, k + 1);
    }
}

/// Whether no id occurs twice.
fn ids_distinct(ids: &Vec<usize>) -> (r: bool)
    ensures
        r == network::distinct(ids@),
{
    let mut j: usize = 0;
    while j < ids.len()
        invariant
            j <= ids@.len(),
            forall|x: int, y: int| 0 <= x < y < j ==> ids@[x] != ids@[y],
        decreases ids.len() - j,
    {
        let mut i: usize = 0;
        while i < j
            invariant
                i <= j < ids@.len(),
                forall|x: int| 0 <= x < i ==> ids@[x] != ids@[j as int],
            decreases j - i,
        {
            if ids[i] == ids[j] {
                return false;
            }
            i += 1;
        }
        j += 1;
    }
    true
}

/// The first variable that is out of range.
fn find_over(vars: &Vec<usize>, n: usize) -> (r: Option<usize>)
    ensures
        r == first_over(vars@, n as int, vars@.len() as int),
{
    let mut k: usize = 0;
    while k < vars.len()
        invariant
            k <= vars@.len(),
            first_over(vars@, n as int, k as int) is None,
        decreases vars.len() - k,
    {
        if vars[k] >= n {
            proof {
                lemma_over_stop(vars@, n as int, k + 1);
            }
            return Some(vars[k]);
        }
        k += 1;
    }
    None
}

/// Whether the configuration has a bit beyond the variables.
fn is_wide(c: u64, arity: usize) -> (r: bool)
    requires
        arity <= 63,
    ensures
        r == !bits::below(c, arity as int),
{
    proof {
        bits::lemma_below_iff(c, arity as u64);
    }
    c >= 1u64 << (arity as u64)
}

/// What is wrong with constraint `i`.
fn check_tensor(t: &InstanceTensor, i: usize, n: usize) -> (r: Option<InstanceFault>)
    ensures
        r == tensor_fault(*t, i, n as int),
{
    let arity: usize = t.vars.len();
    if arity == 0 {
        return Some(InstanceFault::EmptyScope(i));
    }
    if arity > 63 {
        return Some(InstanceFault::ArityTooLarge(i, arity));
    }
    if !ids_distinct(&t.vars) {
        return Some(InstanceFault::DuplicateVar(i));
    }
    if let Some(v) = find_over(&t.vars, n) {
        return Some(InstanceFault::VarOutOfRange(i, v));
    }
    if t.allow.len() > 0 && t.rows.len() > 0 {
        return Some(InstanceFault::AllowAndRows(i));
    }
    let mut k: usize = 0;
    while k < t.allow.len()
        invariant
            k <= t.allow@.len(),
            arity == t.vars@.len(),
            0 < arity <= 63,
            network::distinct(t.vars@),
            first_over(t.vars@, n as int, t.vars@.len() as int) is None,
            !(t.allow@.len() > 0 && t.rows@.len() > 0),
            first_wide(t.allow@, arity as int, k as int) is None,
        decreases t.allow.len() - k,
    {
        if is_wide(t.allow[k], arity) {
            proof {
                lemma_wide_stop(t.allow@, arity as int, k + 1);
            }
            return Some(InstanceFault::ConfigOutOfRange(i, t.allow[k]));
        }
        k += 1;
    }
    let ghost rc = row_configs(t.rows@);
    let mut k: usize = 0;
    while k < t.rows.len()
        invariant
            rc == row_configs(t.rows@),
            k <= t.rows@.len(),
            arity == t.vars@.len(),
            0 < arity <= 63,
            network::distinct(t.vars@),
            first_over(t.vars@, n as int, t.vars@.len() as int) is None,
            !(t.allow@.len() > 0 && t.rows@.len() > 0),
            first_wide(t.allow@, arity as int, t.allow@.len() as int) is None,
            first_wide(rc, arity as int, k as int) is None,
        decreases t.rows.len() - k,
    {
        if is_wide(t.rows[k].0, arity) {
            proof {
                lemma_wide_stop(rc, arity as int, k + 1);
            }
            return Some(InstanceFault::ConfigOutOfRange(i, t.rows[k].0));
        }
        k += 1;
    }
    let mut k: usize = 0;
    while k < t.rows.len()
        invariant
            rc == row_configs(t.rows@),
            k <= t.rows@.len(),
            arity == t.vars@.len(),
            0 < arity <= 63,
            network::distinct(t.vars@),
            first_over(t.vars@, n as int, t.vars@.len() as int) is None,
            !(t.allow@.len() > 0 && t.rows@.len() > 0),
            first_wide(t.allow@, arity as int, t.allow@.len() as int) is None,
            first_wide(rc, arity as int, t.rows@.len() as int) is None,
            first_bad_row(t.rows@, k as int) is None,
        decreases t.rows.len() - k,
    {
        match RationalWeight::parse(t.rows[k].1.as_str()) {
            Ok(_) => {},
            Err(e) => {
                proof {
                    lemma_bad_row_stop(t.rows@, k + 1);
                }
                return Some(InstanceFault::BadWeight(i, t.rows[k].0, e));
            },
        }
        k += 1;
    }
    None
}

/// What is wrong with the weights of variables.
fn check_weights(ws: &Vec<(usize, String, String)>, n: usize) -> (r: Option<InstanceFault>)
    ensures
        r == weights_fault(ws@, n as int, ws@.len() as int),
{
    let mut seen: Vec<bool> = Vec::new();
    while seen.len() < n
        invariant
            seen@.len() <= n,
            forall|v: int| 0 <= v < seen@.len() ==> !#[trigger] seen@[v],
        decreases n - seen.len(),
    {
        seen.push(false);
    }
    let mut k: usize = 0;
    while k < ws.len()
        invariant
            seen@.len() == n,
            k <= ws@.len(),
            weights_fault(ws@, n as int, k as int) is None,
            forall|v: int| 0 <= v < n ==> #[trigger] seen@[v] == weighted_var(ws@, k as int, v as usize),
        decreases ws.len() - k,
    {
        let v: usize = ws[k].0;
        if v >= n {
            proof {
                lemma_weights_stop(ws@, n as int, k + 1);
            }
            return Some(InstanceFault::WeightVarOutOfRange(v));
        }
        if seen[v] {
            proof {
                lemma_weights_stop(ws@, n as int, k + 1);
            }
            return Some(InstanceFault::WeightVarDuplicate(v));
        }
        let ghost s0 = seen@;
        seen.set(v, true);
        match RationalWeight::parse(ws[k].1.as_str()) {
            Ok(_) => {},
            Err(e) => {
                proof {
                    assert(!s0[v as int]);
                    lemma_weights_stop(ws@, n as int, k + 1);
                }
                return Some(InstanceFault::BadVarWeight(v, e));
            },
        }
        match RationalWeight::parse(ws[k].2.as_str()) {
            Ok(_) => {},
            Err(e) => {
                proof {
                    assert(!s0[v as int]);
                    lemma_weights_stop(ws@, n as int, k + 1);
                }
                return Some(InstanceFault::BadVarWeight(v, e));
            },
        }
        proof {
            assert(!s0[v as int]);
            assert forall|x: int| 0 <= x < n implies #[trigger] seen@[x] == weighted_var(ws@, k + 1, x as usize) by {
                assert(s0[x] == weighted_var(ws@, k as int, x as usize));
                if weighted_var(ws@, k as int, x as usize) {
                    let j = choose|j: int| 0 <= j < k && (#[trigger] ws@[j]).0 == x as usize;
                    assert(ws@[j].0 == x as usize);
                }
                if x == v {
                    assert(ws@[k as int].0 == x as usize);
                }
            }
        }
        k += 1;
    }
    None
}

/// The configurations that a constraint lists.
pub open spec fn listed_configs(t: InstanceTensor) -> Seq<u64> {
    if t.rows@.len() > 0 {
        row_configs(t.rows@)
    } else {
        t.allow@
    }
}

/// The first of `k` constraints that lists a configuration twice.
pub open spec fn first_repeat(ts: Seq<InstanceTensor>, k: int) -> Option<usize>
    decreases k,
{
    if k <= 0 {
        None
    } else if first_repeat(ts, k - 1) is Some {
        first_repeat(ts, k - 1)
    } else if !listed_configs(ts[k - 1]).no_duplicates() {
        Some((k - 1) as usize)
    } else {
        None
    }
}

proof fn lemma_repeat_stop(ts: Seq<InstanceTensor>, k: int)
    requires
        0 <= k <= ts.len(),
        first_repeat(ts, k) is Some,
    ensures
        first_repeat(ts, ts.len() as int) == first_repeat(ts, k),
    decreases ts.len() - k,
{
    if k < ts.len() {
        assert(first_repeat(ts, k + 1) == first_repeat(ts, k));
        lemma_repeat_stop(ts, k + 1);
    }
}

/// A constraint without fault is well-formed.
proof fn lemma_tensor_ok(ts: Seq<InstanceTensor>, n: int, k: int, t: int)
    requires
        0 <= t < k <= ts.len(),
        tensors_fault(ts, n, k) is None,
    ensures
        tensor_fault(ts[t], t as usize, n) is None,
    decreases k,
{
    if t < k - 1 {
        lemma_tensor_ok(ts, n, k - 1, t);
    }
}

proof fn lemma_over_ok(vars: Seq<usize>, n: int, k: int)
    requires
        0 <= k <= vars.len(),
        first_over(vars, n, k) is None,
    ensures
        forall|i: int| 0 <= i < k ==> (#[trigger] vars[i]) < n,
    decreases k,
{
    if k > 0 {
        lemma_over_ok(vars, n, k - 1);
    }
}

proof fn lemma_wide_ok(configs: Seq<u64>, arity: int, k: int)
    requires
        0 <= k <= configs.len(),
        first_wide(configs, arity, k) is None,
    ensures
        forall|i: int| 0 <= i < k ==> bits::below(#[trigger] configs[i], arity),
    decreases k,
{
    if k > 0 {
        lemma_wide_ok(configs, arity, k - 1);
    }
}

proof fn lemma_rows_ok(rows: Seq<(u64, String)>, k: int)
    requires
        0 <= k <= rows.len(),
        first_bad_row(rows, k) is None,
    ensures
        forall|i: int| 0 <= i < k ==> weight_error((#[trigger] rows[i]).1@) is None,
    decreases k,
{
    if k > 0 {
        lemma_rows_ok(rows, k - 1);
    }
}

proof fn lemma_entry_ok(ws: Seq<(usize, String, String)>, n: int, k: int, j: int)
    requires
        0 <= j < k <= ws.len(),
        weights_fault(ws, n, k) is None,
    ensures
        ws[j].0 < n,
        weight_error(ws[j].1@) is None,
        weight_error(ws[j].2@) is None,
    decreases k,
{
    if j < k - 1 {
        lemma_entry_ok(ws, n, k - 1, j);
    }
}

/// A list and its elements without repetition are equally long exactly if nothing is repeated.
proof fn lemma_dedup_len(v: Seq<u64>, r: Seq<u64>)
    requires
        r.no_duplicates(),
        forall|x: u64| #[trigger] r.contains(x) <==> v.contains(x),
    ensures
        v.no_duplicates() <==> r.len() == v.len(),
{
    assert forall|k: int| 0 <= k < r.len() implies v.contains(#[trigger] r[k]) by {
        assert(r.contains(r[k]));
    }
    if v.no_duplicates() {
        assert forall|k: int| 0 <= k < v.len() implies r.contains(#[trigger] v[k]) by {
            assert(v.contains(v[k]));
        }
        seqs::lemma_within(r, v);
        seqs::lemma_within(v, r);
    }
    if r.len() == v.len() {
        r.unique_seq_to_set();
        assert(r.to_set() =~= v.to_set()) by {
            assert forall|x: u64| r.to_set().contains(x) <==> v.to_set().contains(x) by {
                assert(r.contains(x) <==> v.contains(x));
            }
        }
        v.lemma_no_dup_set_cardinality();
    }
}

/// Whether a configuration occurs twice.
fn configs_distinct<W>(rows: &Vec<(u64, W)>) -> (r: bool)
    ensures
        r == weighted::configs(rows@).no_duplicates(),
{
    let mut list: Vec<u64> = Vec::new();
    let mut k: usize = 0;
    while k < rows.len()
        invariant
            k <= rows@.len(),
            list@ == weighted::configs(rows@).take(k as int),
        decreases rows.len() - k,
    {
        list.push(rows[k].0);
        proof {
            seqs::lemma_take_next(weighted::configs(rows@), k as int);
        }
        k += 1;
    }
    proof {
        seqs::lemma_take_all(weighted::configs(rows@));
    }
    let n: usize = list.len();
    let ghost l0 = list@;
    let sorted = order::sort_dedup_rows(list);
    proof {
        assert(sorted@.no_duplicates());
        lemma_dedup_len(l0, sorted@);
    }
    sorted.len() == n
}

/// Configurations that agree with one assignment are the same.
proof fn lemma_same_row(vars: Seq<usize>, c: u64, d: u64, a: Asg)
    requires
        vars.len() <= 64,
        bits::below(c, vars.len() as int),
        bits::below(d, vars.len() as int),
        network::agrees(vars, c, a),
        network::agrees(vars, d, a),
    ensures
        c == d,
{
    assert forall|j: int| 0 <= j < 64 implies #[trigger] bits::bit(c, j) == bits::bit(d, j) by {
        if j < vars.len() {
            assert(bits::bit(c, j) == a(vars[j] as int));
            assert(bits::bit(d, j) == a(vars[j] as int));
        }
    }
    bits::lemma_bits_equal(c, d);
}

/// Rows of weight one weigh one exactly where one of them agrees.
proof fn lemma_unit_rows<W: Weight>(vars: Seq<usize>, rows: Seq<(u64, W)>, a: Asg)
    requires
        vars.len() <= 64,
        weighted::configs(rows).no_duplicates(),
        contract::rows_below(weighted::configs(rows), vars.len() as int),
        forall|k: int| 0 <= k < rows.len() ==> (#[trigger] rows[k]).1.val() == 1real,
    ensures
        weighted::weight_at(vars, rows, a) == (if (exists|k: int| 0 <= k < rows.len() && network::agrees(vars, (#[trigger] rows[k]).0, a)) {
            1real
        } else {
            0real
        }),
    decreases rows.len(),
{
    if rows.len() > 0 {
        let n = rows.len() - 1;
        let rest = rows.drop_last();
        let cs = weighted::configs(rows);
        assert(weighted::configs(rest).no_duplicates()) by {
            assert forall|i: int, j: int| 0 <= i < rest.len() && 0 <= j < rest.len() && i != j implies weighted::configs(rest)[i] != weighted::configs(rest)[j] by {
                assert(cs[i] != cs[j]);
            }
        }
        assert(contract::rows_below(weighted::configs(rest), vars.len() as int)) by {
            assert forall|k: int| 0 <= k < rest.len() implies bits::below(#[trigger] weighted::configs(rest)[k], vars.len() as int) by {
                assert(bits::below(cs[k], vars.len() as int));
            }
        }
        lemma_unit_rows(vars, rest, a);
        if network::agrees(vars, rows[n].0, a) {
            assert(!(exists|k: int| 0 <= k < rest.len() && network::agrees(vars, (#[trigger] rest[k]).0, a))) by {
                if exists|k: int| 0 <= k < rest.len() && network::agrees(vars, (#[trigger] rest[k]).0, a) {
                    let k = choose|k: int| 0 <= k < rest.len() && network::agrees(vars, (#[trigger] rest[k]).0, a);
                    assert(bits::below(cs[k], vars.len() as int));
                    assert(bits::below(cs[n], vars.len() as int));
                    lemma_same_row(vars, rows[k].0, rows[n].0, a);
                    assert(cs[k] == cs[n]);
                }
            }
        } else {
            if exists|k: int| 0 <= k < rest.len() && network::agrees(vars, (#[trigger] rest[k]).0, a) {
                let k = choose|k: int| 0 <= k < rest.len() && network::agrees(vars, (#[trigger] rest[k]).0, a);
                assert(rows[k] == rest[k]);
            }
            if exists|k: int| 0 <= k < rows.len() && network::agrees(vars, (#[trigger] rows[k]).0, a) {
                let k = choose|k: int| 0 <= k < rows.len() && network::agrees(vars, (#[trigger] rows[k]).0, a);
                assert(rest[k] == rows[k]);
            }
        }
    }
}

proof fn lemma_text_rows<W: Weight>(vars: Seq<usize>, rows: Seq<(u64, W)>, texts: Seq<(u64, String)>, k: int, a: Asg)
    requires
        0 <= k <= rows.len(),
        rows.len() == texts.len(),
        forall|i: int| 0 <= i < rows.len() ==> (#[trigger] rows[i]).0 == texts[i].0 && rows[i].1.val() == weight_value(texts[i].1@),
    ensures
        weighted::weight_at(vars, rows.take(k), a) == rows_weight(vars, texts, k, a),
    decreases k,
{
    if k > 0 {
        lemma_text_rows(vars, rows, texts, k - 1, a);
        assert(rows.take(k).drop_last() =~= rows.take(k - 1));
        assert(rows.take(k).last() == rows[k - 1]);
    }
}

/// Unit rows of configurations.
fn unit_rows<W: Weight>(configs: &Vec<u64>) -> (r: Vec<(u64, W)>)
    ensures
        weighted::configs(r@) == configs@,
        forall|k: int| 0 <= k < r@.len() ==> (#[trigger] r@[k]).1.val() == 1real,
{
    let mut out: Vec<(u64, W)> = Vec::new();
    let mut k: usize = 0;
    while k < configs.len()
        invariant
            k <= configs@.len(),
            out@.len() == k,
            forall|j: int| 0 <= j < k ==> (#[trigger] out@[j]).0 == configs@[j] && out@[j].1.val() == 1real,
        decreases configs.len() - k,
    {
        out.push((configs[k], W::one()));
        k += 1;
    }
    proof {
        assert(weighted::configs(out@) =~= configs@);
    }
    out
}

/// What is known of a constraint without fault.
spec fn tensor_wf(t: InstanceTensor, n: int) -> bool {
    &&& 0 < t.vars@.len() <= 32
    &&& network::distinct(t.vars@)
    &&& forall|i: int| 0 <= i < t.vars@.len() ==> (#[trigger] t.vars@[i]) < n
    &&& contract::rows_below(t.allow@, t.vars@.len() as int)
    &&& contract::rows_below(row_configs(t.rows@), t.vars@.len() as int)
    &&& forall|k: int| 0 <= k < t.rows@.len() ==> weight_error((#[trigger] t.rows@[k]).1@) is None
}

proof fn lemma_tensor_wf(t: InstanceTensor, i: usize, n: int)
    requires
        tensor_fault(t, i, n) is None,
        t.vars@.len() <= 32,
    ensures
        tensor_wf(t, n),
{
    lemma_over_ok(t.vars@, n, t.vars@.len() as int);
    lemma_wide_ok(t.allow@, t.vars@.len() as int, t.allow@.len() as int);
    lemma_wide_ok(row_configs(t.rows@), t.vars@.len() as int, t.rows@.len() as int);
    lemma_rows_ok(t.rows@, t.rows@.len() as int);
}

/// The relation is the constraint.
spec fn relation_of<W: Weight>(t: InstanceTensor, r: WRelation<W>) -> bool {
    &&& r.wf()
    &&& r.vars@.len() == t.vars@.len()
    &&& forall|v: usize| #[trigger] r.vars@.contains(v) <==> t.vars@.contains(v)
    &&& forall|a: Asg| #[trigger] r.weigh(a) == tensor_weight(t, a)
}

/// The relation of a constraint that lists allowed configurations.
fn plain_relation<W: Weight>(t: &InstanceTensor, Ghost(n): Ghost<int>) -> (r: WRelation<W>)
    requires
        tensor_wf(*t, n),
        t.rows@.len() == 0,
    ensures
        relation_of(*t, r),
{
    let mut list: Vec<u64> = Vec::new();
    let mut k: usize = 0;
    while k < t.allow.len()
        invariant
            k <= t.allow@.len(),
            list@ == t.allow@.take(k as int),
        decreases t.allow.len() - k,
    {
        list.push(t.allow[k]);
        proof {
            seqs::lemma_take_next(t.allow@, k as int);
        }
        k += 1;
    }
    proof {
        seqs::lemma_take_all(t.allow@);
    }
    let configs = order::sort_dedup_rows(list);
    let rows: Vec<(u64, W)> = unit_rows(&configs);
    proof {
        assert(configs@.no_duplicates());
        assert(contract::rows_below(configs@, t.vars@.len() as int)) by {
            assert forall|k: int| 0 <= k < configs@.len() implies bits::below(#[trigger] configs@[k], t.vars@.len() as int) by {
                assert(configs@.contains(configs@[k]));
                let q = t.allow@.index_of(configs@[k]);
                assert(bits::below(t.allow@[q], t.vars@.len() as int));
            }
        }
    }
    let r = weighted::support_wrelation(t.vars.as_slice(), &rows);
    proof {
        assert forall|a: Asg| #[trigger] r.weigh(a) == tensor_weight(*t, a) by {
            lemma_unit_rows(t.vars@, rows@, a);
            if allows(*t, a) {
                let k = choose|k: int| 0 <= k < t.allow@.len() && network::agrees(t.vars@, #[trigger] t.allow@[k], a);
                assert(t.allow@.contains(t.allow@[k]));
                assert(configs@.contains(t.allow@[k]));
                let q = configs@.index_of(t.allow@[k]);
                assert(weighted::configs(rows@)[q] == configs@[q]);
                assert(network::agrees(t.vars@, rows@[q].0, a));
            }
            if exists|k: int| 0 <= k < rows@.len() && network::agrees(t.vars@, (#[trigger] rows@[k]).0, a) {
                let k = choose|k: int| 0 <= k < rows@.len() && network::agrees(t.vars@, (#[trigger] rows@[k]).0, a);
                assert(weighted::configs(rows@)[k] == configs@[k]);
                assert(configs@.contains(configs@[k]));
                let q = t.allow@.index_of(configs@[k]);
                assert(network::agrees(t.vars@, t.allow@[q], a));
            }
        }
    }
    r
}

/// The relation of a constraint with weights, or `None` where a configuration occurs twice.
fn weighted_relation(t: &InstanceTensor, Ghost(n): Ghost<int>) -> (r: Option<WRelation<RationalWeight>>)
    requires
        tensor_wf(*t, n),
    ensures
        match r {
            Some(rel) => relation_of(*t, rel) && listed_configs(*t).no_duplicates(),
            None => !listed_configs(*t).no_duplicates(),
        },
{
    let rows: Vec<(u64, RationalWeight)> = if t.rows.len() == 0 {
        unit_rows(&t.allow)
    } else {
        parsed_rows(&t.rows)
    };
    proof {
        assert(weighted::configs(rows@) =~= listed_configs(*t));
    }
    if !configs_distinct(&rows) {
        return None;
    }
    let rel = weighted::support_wrelation(t.vars.as_slice(), &rows);
    proof {
        assert forall|a: Asg| #[trigger] rel.weigh(a) == tensor_weight(*t, a) by {
            if t.rows@.len() == 0 {
                lemma_unit_rows(t.vars@, rows@, a);
                if allows(*t, a) {
                    let k = choose|k: int| 0 <= k < t.allow@.len() && network::agrees(t.vars@, #[trigger] t.allow@[k], a);
                    assert(weighted::configs(rows@)[k] == t.allow@[k]);
                    assert(network::agrees(t.vars@, rows@[k].0, a));
                }
                if exists|k: int| 0 <= k < rows@.len() && network::agrees(t.vars@, (#[trigger] rows@[k]).0, a) {
                    let k = choose|k: int| 0 <= k < rows@.len() && network::agrees(t.vars@, (#[trigger] rows@[k]).0, a);
                    assert(weighted::configs(rows@)[k] == t.allow@[k]);
                    assert(network::agrees(t.vars@, t.allow@[k], a));
                }
            } else {
                lemma_text_rows(t.vars@, rows@, t.rows@, rows@.len() as int, a);
                seqs::lemma_take_all(rows@);
            }
        }
    }
    Some(rel)
}

/// The weighted rows with their weights as numbers.
fn parsed_rows(rows: &Vec<(u64, String)>) -> (r: Vec<(u64, RationalWeight)>)
    requires
        forall|k: int| 0 <= k < rows@.len() ==> weight_error((#[trigger] rows@[k]).1@) is None,
    ensures
        r@.len() == rows@.len(),
        forall|k: int| 0 <= k < r@.len() ==> (#[trigger] r@[k]).0 == rows@[k].0 && r@[k].1.val() == weight_value(rows@[k].1@),
{
    let mut out: Vec<(u64, RationalWeight)> = Vec::new();
    let mut k: usize = 0;
    while k < rows.len()
        invariant
            forall|k: int| 0 <= k < rows@.len() ==> weight_error((#[trigger] rows@[k]).1@) is None,
            k <= rows@.len(),
            out@.len() == k,
            forall|j: int| 0 <= j < k ==> (#[trigger] out@[j]).0 == rows@[j].0 && out@[j].1.val() == weight_value(rows@[j].1@),
        decreases rows.len() - k,
    {
        assert(weight_error(rows@[k as int].1@) is None);
        out.push((rows[k].0, parsed_weight(rows[k].1.as_str())));
        k += 1;
    }
    out
}

/// The number that a text is.
fn parsed_weight(s: &str) -> (r: RationalWeight)
    requires
        weight_error(s@) is None,
    ensures
        r.val() == weight_value(s@),
{
    match RationalWeight::parse(s) {
        Ok(w) => w,
        Err(_) => RationalWeight::integer(0),
    }
}

/// The relation of the weights of a variable's values.
fn value_relation(v: usize, w0: RationalWeight, w1: RationalWeight) -> (r: WRelation<RationalWeight>)
    ensures
        r.wf(),
        r.vars@ == seq![v],
        forall|a: Asg| #[trigger] r.weigh(a) == (if a(v as int) {
            w1.val()
        } else {
            w0.val()
        }),
{
    let vars: Vec<usize> = vec![v];
    let rows: Vec<(u64, RationalWeight)> = vec![(0u64, w0), (1u64, w1)];
    let r = WRelation { vars, rows };
    proof {
        broadcast use bits::group_bits;

        assert(vars@ =~= seq![v]);
        assert(rows@.len() == 2);
        assert(1u64 << 0u64 == 1u64) by (bit_vector);
        assert forall|j: int| 0 <= j < 64 implies #[trigger] bits::bit(1u64, j) == (j == 0) by {
            assert(bits::bit(1u64 << 0u64, j) == (j == 0));
        }
        assert forall|j: int| 0 <= j < 64 implies !#[trigger] bits::bit(0u64, j) by {}
        let cs = weighted::configs(r.rows@);
        assert(cs[0] == 0 && cs[1] == 1);
        assert forall|a: Asg| #[trigger] r.weigh(a) == (if a(v as int) {
            w1.val()
        } else {
            w0.val()
        }) by {
            let top = r.rows@.drop_last();
            assert(r.rows@[0].0 == 0u64 && r.rows@[0].1.val() == w0.val());
            assert(r.rows@[1].0 == 1u64 && r.rows@[1].1.val() == w1.val());
            assert(top.len() == 1);
            assert(top.last() == r.rows@[0]);
            assert(r.rows@.last() == r.rows@[1]);
            assert(top.drop_last().len() == 0);
            assert(weighted::weight_at(r.vars@, top.drop_last(), a) == 0real);
            assert(weighted::weight_at(r.vars@, r.rows@, a) == weighted::weight_at(r.vars@, top, a) + (if network::agrees(r.vars@, 1u64, a) {
                w1.val()
            } else {
                0real
            }));
            assert(network::agrees(r.vars@, 0u64, a) <==> !a(v as int)) by {
                assert(r.vars@[0] == v);
                assert(!bits::bit(0u64, 0));
                if network::agrees(r.vars@, 0u64, a) {
                    assert(bits::bit(0u64, 0) == a(r.vars@[0] as int));
                }
            }
            assert(network::agrees(r.vars@, 1u64, a) <==> a(v as int)) by {
                assert(r.vars@[0] == v);
                assert(bits::bit(1u64, 0));
                if network::agrees(r.vars@, 1u64, a) {
                    assert(bits::bit(1u64, 0) == a(r.vars@[0] as int));
                }
            }
        }
    }
    r
}

/// Two to the `k`.
spec fn doubled(k: nat) -> real
    decreases k,
{
    if k == 0 {
        1real
    } else {
        2real * doubled((k - 1) as nat)
    }
}

proof fn lemma_ones_total(base: Asg, vars: Seq<int>)
    ensures
        sums::total(|a: Asg| 1real, base, vars) == doubled(vars.len()),
    decreases vars.len(),
{
    if vars.len() > 0 {
        lemma_ones_total(sums::set(base, vars.last(), false), vars.drop_last());
        lemma_ones_total(sums::set(base, vars.last(), true), vars.drop_last());
    }
}

proof fn lemma_product_ones(s: Seq<real>, m: int)
    requires
        0 <= m <= s.len(),
        forall|i: int| m <= i < s.len() ==> #[trigger] s[i] == 1real,
    ensures
        sums::product(s) == sums::product(s.take(m)),
    decreases s.len(),
{
    if m < s.len() {
        let t = s.drop_last();
        lemma_product_ones(t, m);
        assert(t.take(m) =~= s.take(m));
        assert(s.last() == 1real);
        let x = sums::product(t);
        assert(x * 1real == x) by (nonlinear_arith);
    } else {
        assert(s.take(m) =~= s);
    }
}

/// The variables that no relation mentions.
spec fn idle_ids<W: Weight>(rels: Seq<WRelation<W>>, n: int) -> Seq<int> {
    sums::chosen_ids(|x: int| !weighted::some_wlists(rels, x as usize), n)
}

/// Summing over variables that nothing mentions doubles the sum for each.
proof fn lemma_idle_total<W: Weight>(rels: Seq<WRelation<W>>, n: int, base: Asg)
    requires
        0 <= n <= usize::MAX,
        weighted::all_wsmall(rels, n),
    ensures
        sums::total(|a: Asg| weighted::weigh_all(rels, a), base, weighted::ids(n)) == wcanonicalize::relations_total(rels, n, base) * doubled(idle_ids(rels, n).len()),
{
    let f = |a: Asg| weighted::weigh_all(rels, a);
    let one = |a: Asg| 1real;
    let p = |x: int| weighted::some_wlists(rels, x as usize);
    let q = |x: int| !weighted::some_wlists(rels, x as usize);
    let used = sums::chosen_ids(p, n);
    let idle = sums::chosen_ids(q, n);
    sums::lemma_chosen_ids(p, n);
    sums::lemma_chosen_ids(q, n);
    let both = used + idle;
    assert(sums::unlike(both)) by {
        assert forall|i: int, j: int| 0 <= i < j < both.len() implies both[i] != both[j] by {
            if i < used.len() && j >= used.len() {
                assert(used.contains(used[i]));
                assert(idle.contains(idle[j - used.len()]));
            } else if j < used.len() {
                assert(used[i] != used[j]);
            } else {
                assert(idle[i - used.len()] != idle[j - used.len()]);
            }
        }
    }
    assert(sums::unlike(weighted::ids(n)));
    assert forall|v: int| weighted::ids(n).contains(v) <==> both.contains(v) by {
        if weighted::ids(n).contains(v) {
            let i = weighted::ids(n).index_of(v);
            assert(0 <= v < n);
            if p(v) {
                assert(used.contains(v));
                let k = used.index_of(v);
                assert(both[k] == v);
            } else {
                assert(idle.contains(v));
                let k = idle.index_of(v);
                assert(both[used.len() + k] == v);
            }
        }
        if both.contains(v) {
            let k = both.index_of(v);
            if k < used.len() {
                assert(used.contains(v));
            } else {
                assert(idle[k - used.len()] == v);
                assert(idle.contains(v));
            }
            assert(weighted::ids(n)[v] == v);
        }
    }
    sums::lemma_total_reorder(f, base, weighted::ids(n), both);
    assert(sums::ignores(f, idle)) by {
        assert forall|a: Asg, b: Asg| #![trigger f(a), f(b)] sums::same_outside(a, b, idle) implies f(a) == f(b) by {
            let x = Seq::new(rels.len(), |i: int| rels[i].weigh(a));
            let y = Seq::new(rels.len(), |i: int| rels[i].weigh(b));
            assert forall|i: int| 0 <= i < rels.len() implies x[i] == y[i] by {
                assert(rels[i].wf());
                assert forall|j: int| 0 <= j < rels[i].vars@.len() implies a((#[trigger] rels[i].vars@[j]) as int) == b(rels[i].vars@[j] as int) by {
                    let v = rels[i].vars@[j];
                    assert(rels[i].vars@.contains(v));
                    assert(weighted::some_wlists(rels, v));
                    if idle.contains(v as int) {
                        assert(q(v as int));
                    }
                }
                wcanonicalize::lemma_weigh_same(rels[i].vars@, rels[i].rows@, a, b);
            }
            assert(x =~= y);
        }
    }
    assert(sums::ignores(one, used));
    sums::lemma_total_product(f, one, base, used, idle);
    let g = |b: Asg| f(b) * one(b);
    assert forall|b: Asg| sums::same_outside(base, b, both) implies #[trigger] f(b) == g(b) by {
        let x = f(b);
        assert(x * 1real == x) by (nonlinear_arith);
    }
    sums::lemma_total_same(f, g, base, both);
    lemma_ones_total(base, idle);
}

/// Relations with the weights of a problem have its total.
proof fn lemma_instance_total<W: Weight>(inst: Instance, rels: Seq<WRelation<W>>, base: Asg)
    requires
        weighted::all_wsmall(rels, inst.n_vars as int),
        forall|a: Asg| #[trigger] weighted::weigh_all(rels, a) == inst.weight(a),
    ensures
        inst.total(base) == wcanonicalize::relations_total(rels, inst.n_vars as int, base) * doubled(idle_ids(rels, inst.n_vars as int).len()),
{
    let n = inst.n_vars as int;
    let f = |a: Asg| weighted::weigh_all(rels, a);
    let g = |a: Asg| inst.weight(a);
    assert forall|b: Asg| sums::same_outside(base, b, weighted::ids(n)) implies #[trigger] g(b) == f(b) by {}
    sums::lemma_total_same(g, f, base, weighted::ids(n));
    lemma_idle_total(rels, n, base);
}

/// The constraints without their weights.
pub open spec fn skeleton(ts: Seq<InstanceTensor>, given: Seq<(Vec<usize>, Vec<u32>)>) -> bool {
    &&& given.len() == ts.len()
    &&& forall|t: int|
        0 <= t < given.len() ==> (#[trigger] given[t]).0@ == ts[t].vars@ && network::ascending32(given[t].1@) && (forall|c: u32| #[trigger] given[t].1@.contains(c) <==> (ts[t].allow@.contains(c as u64) || row_configs(ts[t].rows@).contains(c as u64)))
}

/// All configurations that a constraint lists.
fn all_configs(t: &InstanceTensor) -> (r: Vec<u64>)
    ensures
        r@ == t.allow@ + row_configs(t.rows@),
{
    let mut out: Vec<u64> = Vec::new();
    let mut k: usize = 0;
    while k < t.allow.len()
        invariant
            k <= t.allow@.len(),
            out@ == t.allow@.take(k as int),
        decreases t.allow.len() - k,
    {
        out.push(t.allow[k]);
        proof {
            seqs::lemma_take_next(t.allow@, k as int);
        }
        k += 1;
    }
    proof {
        seqs::lemma_take_all(t.allow@);
        assert(t.allow@ + row_configs(t.rows@).take(0) =~= t.allow@);
    }
    let mut k: usize = 0;
    while k < t.rows.len()
        invariant
            k <= t.rows@.len(),
            out@ == t.allow@ + row_configs(t.rows@).take(k as int),
        decreases t.rows.len() - k,
    {
        out.push(t.rows[k].0);
        proof {
            seqs::lemma_take_next(row_configs(t.rows@), k as int);
            assert(out@ =~= t.allow@ + row_configs(t.rows@).take(k + 1));
        }
        k += 1;
    }
    proof {
        seqs::lemma_take_all(row_configs(t.rows@));
    }
    out
}

/// Mark the ids.
fn mark(flags: &mut Vec<bool>, ids: &Vec<usize>)
    requires
        forall|i: int| 0 <= i < ids@.len() ==> (#[trigger] ids@[i]) < old(flags)@.len(),
    ensures
        final(flags)@.len() == old(flags)@.len(),
        forall|v: int| 0 <= v < old(flags)@.len() ==> #[trigger] final(flags)@[v] == (old(flags)@[v] || ids@.contains(v as usize)),
{
    let ghost f0 = flags@;
    let mut i: usize = 0;
    while i < ids.len()
        invariant
            f0 == old(flags)@,
            i <= ids@.len(),
            flags@.len() == f0.len(),
            forall|i: int| 0 <= i < ids@.len() ==> (#[trigger] ids@[i]) < f0.len(),
            forall|v: int| 0 <= v < f0.len() ==> #[trigger] flags@[v] == (f0[v] || ids@.take(i as int).contains(v as usize)),
        decreases ids.len() - i,
    {
        let ghost f1 = flags@;
        let v: usize = ids[i];
        flags.set(v, true);
        proof {
            seqs::lemma_take_next(ids@, i as int);
            seqs::lemma_push_contains(ids@.take(i as int), v);
            assert(flags.len() == f0.len());
            assert forall|x: int| 0 <= x < f0.len() implies #[trigger] flags@[x] == (f0[x] || ids@.take(i + 1).contains(x as usize)) by {
                assert(f1[x] == (f0[x] || ids@.take(i as int).contains(x as usize)));
                assert(ids@.take(i + 1).contains(x as usize) <==> (ids@.take(i as int).contains(x as usize) || x as usize == v));
            }
        }
        i += 1;
    }
    proof {
        seqs::lemma_take_all(ids@);
    }
}

impl Instance {
    /// The network of the constraints without their weights.
    pub fn skeleton_network(&self) -> (r: ConstraintNetwork)
        requires
            self.fault() is None,
            self.narrow(),
        ensures
            exists|given: Seq<(Vec<usize>, Vec<u32>)>| #[trigger] network::assembles(r, self.n_vars as int, given) && skeleton(self.tensors@, given),
    {
        let ghost n = self.n_vars as int;
        let ghost ts = self.tensors@;
        let mut tensors: Vec<(Vec<usize>, Vec<u32>)> = Vec::new();
        let mut t: usize = 0;
        while t < self.tensors.len()
            invariant
                self.fault() is None,
                self.narrow(),
                n == self.n_vars,
                ts == self.tensors@,
                t <= ts.len(),
                tensors@.len() == t,
                forall|s: int|
                    0 <= s < t ==> (#[trigger] tensors@[s]).0@ == ts[s].vars@ && network::ascending32(tensors@[s].1@) && (forall|c: u32| #[trigger] tensors@[s].1@.contains(c) <==> (ts[s].allow@.contains(c as u64) || row_configs(ts[s].rows@).contains(c as u64))),
                forall|s: int| 0 <= s < t ==> network::input_wf(n, (#[trigger] tensors@[s]).0@, tensors@[s].1@),
            decreases self.tensors.len() - t,
        {
            let ghost before = tensors@;
            proof {
                lemma_tensor_ok(ts, n, ts.len() as int, t as int);
                assert(ts[t as int].vars@.len() <= 32);
                lemma_tensor_wf(ts[t as int], t, n);
            }
            let configs = all_configs(&self.tensors[t]);
            let ghost cs = configs@;
            let ghost tensor = ts[t as int];
            proof {
                assert forall|k: int| 0 <= k < cs.len() implies bits::below(#[trigger] cs[k], tensor.vars@.len() as int) by {
                    if k < tensor.allow@.len() {
                        assert(bits::below(tensor.allow@[k], tensor.vars@.len() as int));
                    } else {
                        assert(bits::below(row_configs(tensor.rows@)[k - tensor.allow@.len()], tensor.vars@.len() as int));
                    }
                }
            }
            let rows = crate::csp::sorted_rows(configs, Ghost(tensor.vars@.len() as int));
            tensors.push((network::copy_ids(&self.tensors[t].vars), rows));
            proof {
                assert forall|c: u32| #[trigger] rows@.contains(c) <==> (tensor.allow@.contains(c as u64) || row_configs(tensor.rows@).contains(c as u64)) by {
                    if cs.contains(c as u64) {
                        let k = cs.index_of(c as u64);
                        if k >= tensor.allow@.len() {
                            assert(row_configs(tensor.rows@)[k - tensor.allow@.len()] == c as u64);
                        }
                    }
                    if tensor.allow@.contains(c as u64) {
                        let k = tensor.allow@.index_of(c as u64);
                        assert(cs[k] == c as u64);
                    }
                    if row_configs(tensor.rows@).contains(c as u64) {
                        let k = row_configs(tensor.rows@).index_of(c as u64);
                        assert(cs[tensor.allow@.len() + k] == c as u64);
                    }
                }
                assert forall|s: int| 0 <= s < t + 1 implies (#[trigger] tensors@[s]).0@ == ts[s].vars@ && network::ascending32(tensors@[s].1@) && (forall|c: u32|
                    #[trigger] tensors@[s].1@.contains(c) <==> (ts[s].allow@.contains(c as u64) || row_configs(ts[s].rows@).contains(c as u64))) by {
                    if s < t {
                        assert(tensors@[s] == before[s]);
                    }
                }
            }
            t += 1;
        }
        let ghost given = tensors@;
        let cn = assemble(self.n_vars, tensors);
        proof {
            assert(skeleton(ts, given));
        }
        cn
    }

    /// The number of models.
    fn count_plain(&self, budget: usize, max_rows: usize, branch: CountBranch) -> (r: (BigCount, Stats))
        requires
            self.fault() is None,
            self.narrow(),
            !self.weighted(),
        ensures
            forall|base: Asg| #[trigger] self.total(base) == r.0.val(),
    {
        let ghost n = self.n_vars as int;
        let ghost ts = self.tensors@;
        let mut flags: Vec<bool> = Vec::new();
        while flags.len() < self.n_vars
            invariant
                flags@.len() <= self.n_vars,
                forall|v: int| 0 <= v < flags@.len() ==> !#[trigger] flags@[v],
            decreases self.n_vars - flags.len(),
        {
            flags.push(false);
        }
        let mut rels: Vec<WRelation<BigCount>> = Vec::new();
        let mut t: usize = 0;
        while t < self.tensors.len()
            invariant
                self.fault() is None,
                self.narrow(),
                !self.weighted(),
                n == self.n_vars,
                ts == self.tensors@,
                t <= ts.len(),
                rels@.len() == t,
                flags@.len() == n,
                forall|s: int| 0 <= s < t ==> relation_of(ts[s], #[trigger] rels@[s]),
                weighted::all_wsmall(rels@, n),
                forall|v: int| 0 <= v < n ==> #[trigger] flags@[v] == weighted::some_wlists(rels@, v as usize),
            decreases self.tensors.len() - t,
        {
            let ghost r0 = rels@;
            let ghost f0 = flags@;
            proof {
                lemma_tensor_ok(ts, n, ts.len() as int, t as int);
                assert(ts[t as int].vars@.len() <= 32);
                lemma_tensor_wf(ts[t as int], t, n);
                assert(ts[t as int].rows@.len() == 0);
            }
            let rel: WRelation<BigCount> = plain_relation(&self.tensors[t], Ghost(n));
            mark(&mut flags, &self.tensors[t].vars);
            rels.push(rel);
            proof {
                lemma_pushed_relation(ts[t as int], r0, rel, n);
                assert forall|v: int| 0 <= v < n implies #[trigger] flags@[v] == weighted::some_wlists(rels@, v as usize) by {
                    assert(f0[v] == weighted::some_wlists(r0, v as usize));
                    assert(rel.vars@.contains(v as usize) <==> ts[t as int].vars@.contains(v as usize));
                }
                assert forall|s: int| 0 <= s < t + 1 implies relation_of(ts[s], #[trigger] rels@[s]) by {
                    if s < t {
                        assert(rels@[s] == r0[s]);
                    }
                }
            }
            t += 1;
        }
        let ghost rv = rels@;
        let (count, stats) = count_with_ve(self.n_vars, rels, budget, max_rows, branch);
        let mut free = BigCount::one();
        let mut v: usize = 0;
        while v < flags.len()
            invariant
                flags@.len() == n,
                v <= n,
                forall|x: int| 0 <= x < n ==> #[trigger] flags@[x] == weighted::some_wlists(rv, x as usize),
                free.val() == doubled(idle_ids(rv, v as int).len()),
            decreases flags.len() - v,
        {
            if !flags[v] {
                let two = BigCount::free_factor(v);
                free = two.mul(&free);
            }
            proof {
                let q = |x: int| !weighted::some_wlists(rv, x as usize);
                assert(q(v as int) == !flags@[v as int]);
            }
            v += 1;
        }
        let total = count.mul(&free);
        proof {
            assert forall|a: Asg| #[trigger] weighted::weigh_all(rv, a) == self.weight(a) by {
                let x = Seq::new(rv.len(), |i: int| rv[i].weigh(a));
                let y = self.factors(a);
                assert(y.take(ts.len() as int) =~= x) by {
                    assert forall|i: int| 0 <= i < ts.len() implies y[i] == x[i] by {
                        assert(relation_of(ts[i], rv[i]));
                        assert(rv[i].weigh(a) == tensor_weight(ts[i], a));
                    }
                }
                lemma_product_ones(y, ts.len() as int);
            }
            assert forall|base: Asg| #[trigger] self.total(base) == total.val() by {
                lemma_instance_total(*self, rv, base);
                assert(wcanonicalize::relations_total(rv, n, base) == count.val());
            }
        }
        (total, stats)
    }

    /// The weights of the values of the variables: of false first, then of true.
    fn value_weights(&self) -> (r: (Vec<RationalWeight>, Vec<RationalWeight>))
        requires
            self.fault() is None,
        ensures
            r.0@.len() == self.n_vars,
            r.1@.len() == self.n_vars,
            forall|v: int| 0 <= v < self.n_vars ==> (#[trigger] r.0@[v]).val() == value_weight(self.var_weights@, self.var_weights@.len() as int, v, false),
            forall|v: int| 0 <= v < self.n_vars ==> (#[trigger] r.1@[v]).val() == value_weight(self.var_weights@, self.var_weights@.len() as int, v, true),
    {
        let n: usize = self.n_vars;
        let ghost ws = self.var_weights@;
        let mut w0: Vec<RationalWeight> = Vec::new();
        let mut w1: Vec<RationalWeight> = Vec::new();
        while w0.len() < n
            invariant
                w0@.len() <= n,
                w1@.len() == w0@.len(),
                forall|v: int| 0 <= v < w0@.len() ==> (#[trigger] w0@[v]).val() == 1real,
                forall|v: int| 0 <= v < w1@.len() ==> (#[trigger] w1@[v]).val() == 1real,
            decreases n - w0.len(),
        {
            w0.push(RationalWeight::one());
            w1.push(RationalWeight::one());
        }
        let mut k: usize = 0;
        while k < self.var_weights.len()
            invariant
                self.fault() is None,
                n == self.n_vars,
                ws == self.var_weights@,
                k <= ws.len(),
                w0@.len() == n,
                w1@.len() == n,
                forall|v: int| 0 <= v < n ==> (#[trigger] w0@[v]).val() == value_weight(ws, k as int, v, false),
                forall|v: int| 0 <= v < n ==> (#[trigger] w1@[v]).val() == value_weight(ws, k as int, v, true),
            decreases self.var_weights.len() - k,
        {
            proof {
                lemma_entry_ok(ws, n as int, ws.len() as int, k as int);
            }
            let ghost a0 = w0@;
            let ghost a1 = w1@;
            let v: usize = self.var_weights[k].0;
            w0.set(v, parsed_weight(self.var_weights[k].1.as_str()));
            w1.set(v, parsed_weight(self.var_weights[k].2.as_str()));
            proof {
                assert forall|x: int| 0 <= x < n implies (#[trigger] w0@[x]).val() == value_weight(ws, k + 1, x, false) by {
                    assert(a0[x].val() == value_weight(ws, k as int, x, false));
                }
                assert forall|x: int| 0 <= x < n implies (#[trigger] w1@[x]).val() == value_weight(ws, k + 1, x, true) by {
                    assert(a1[x].val() == value_weight(ws, k as int, x, true));
                }
            }
            k += 1;
        }
        (w0, w1)
    }

    /// The summed weight, or the constraint that lists a configuration twice.
    fn count_weighted(&self, budget: usize, max_rows: usize, branch: CountBranch) -> (r: Result<(RationalWeight, Stats), usize>)
        requires
            self.fault() is None,
            self.narrow(),
        ensures
            match r {
                Ok(x) => first_repeat(self.tensors@, self.tensors@.len() as int) is None && (forall|base: Asg| #[trigger] self.total(base) == x.0.val()),
                Err(i) => first_repeat(self.tensors@, self.tensors@.len() as int) == Some(i),
            },
    {
        let ghost n = self.n_vars as int;
        let ghost ts = self.tensors@;
        let ghost m = ts.len() as int;
        let mut rels: Vec<WRelation<RationalWeight>> = Vec::new();
        let mut t: usize = 0;
        while t < self.tensors.len()
            invariant
                self.fault() is None,
                self.narrow(),
                n == self.n_vars,
                ts == self.tensors@,
                t <= ts.len(),
                rels@.len() == t,
                first_repeat(ts, t as int) is None,
                forall|s: int| 0 <= s < t ==> relation_of(ts[s], #[trigger] rels@[s]),
                weighted::all_wsmall(rels@, n),
            decreases self.tensors.len() - t,
        {
            let ghost r0 = rels@;
            proof {
                lemma_tensor_ok(ts, n, ts.len() as int, t as int);
                assert(ts[t as int].vars@.len() <= 32);
                lemma_tensor_wf(ts[t as int], t, n);
            }
            match weighted_relation(&self.tensors[t], Ghost(n)) {
                None => {
                    proof {
                        lemma_repeat_stop(ts, t + 1);
                    }
                    return Err(t);
                },
                Some(rel) => {
                    rels.push(rel);
                    proof {
                        lemma_pushed_relation(ts[t as int], r0, rel, n);
                        assert forall|s: int| 0 <= s < t + 1 implies relation_of(ts[s], #[trigger] rels@[s]) by {
                            if s < t {
                                assert(rels@[s] == r0[s]);
                            }
                        }
                    }
                },
            }
            t += 1;
        }
        let (w0, w1) = self.value_weights();
        let ghost ws = self.var_weights@;
        let mut v: usize = 0;
        while v < self.n_vars
            invariant
                n == self.n_vars,
                m == ts.len(),
                ts == self.tensors@,
                ws == self.var_weights@,
                v <= n,
                w0@.len() == n,
                w1@.len() == n,
                forall|x: int| 0 <= x < n ==> (#[trigger] w0@[x]).val() == value_weight(ws, ws.len() as int, x, false),
                forall|x: int| 0 <= x < n ==> (#[trigger] w1@[x]).val() == value_weight(ws, ws.len() as int, x, true),
                rels@.len() == m + v,
                forall|s: int| 0 <= s < m ==> relation_of(ts[s], #[trigger] rels@[s]),
                forall|x: int| 0 <= x < v ==> value_relation_of(ws, x, #[trigger] rels@[m + x]),
                weighted::all_wsmall(rels@, n),
            decreases self.n_vars - v,
        {
            let ghost r0 = rels@;
            let rel = value_relation(v, w0[v].copy(), w1[v].copy());
            rels.push(rel);
            proof {
                assert(rel.vars@[0] == v);
                assert(value_relation_of(ws, v as int, rel));
                assert(weighted::all_wsmall(rels@, n)) by {
                    assert forall|i: int| 0 <= i < rels@.len() implies (#[trigger] rels@[i]).wf() && rels@[i].vars@.len() <= 32 && (forall|j: int|
                        0 <= j < rels@[i].vars@.len() ==> (#[trigger] rels@[i].vars@[j]) < n) by {
                        if i < r0.len() {
                            assert(rels@[i] == r0[i]);
                        }
                    }
                }
                assert forall|s: int| 0 <= s < m implies relation_of(ts[s], #[trigger] rels@[s]) by {
                    assert(rels@[s] == r0[s]);
                }
                assert forall|x: int| 0 <= x < v + 1 implies value_relation_of(ws, x, #[trigger] rels@[m + x]) by {
                    if x < v {
                        assert(rels@[m + x] == r0[m + x]);
                    }
                }
            }
            v += 1;
        }
        let ghost rv = rels@;
        let (count, stats) = count_with_ve(self.n_vars, rels, budget, max_rows, branch);
        proof {
            assert forall|a: Asg| #[trigger] weighted::weigh_all(rv, a) == self.weight(a) by {
                let x = Seq::new(rv.len(), |i: int| rv[i].weigh(a));
                let y = self.factors(a);
                assert(x =~= y) by {
                    assert forall|i: int| 0 <= i < y.len() implies x[i] == y[i] by {
                        if i < m {
                            assert(relation_of(ts[i], rv[i]));
                            assert(rv[i].weigh(a) == tensor_weight(ts[i], a));
                        } else {
                            assert(value_relation_of(ws, i - m, rv[m + (i - m)]));
                        }
                    }
                }
            }
            assert(idle_ids(rv, n).len() == 0) by {
                let q = |x: int| !weighted::some_wlists(rv, x as usize);
                sums::lemma_chosen_ids(q, n);
                if idle_ids(rv, n).len() > 0 {
                    let x = idle_ids(rv, n)[0];
                    assert(idle_ids(rv, n).contains(x));
                    assert(q(x));
                    assert(value_relation_of(ws, x, rv[m + x]));
                    assert(rv[m + x].vars@[0] == x as usize);
                    assert(rv[m + x].vars@.contains(x as usize));
                    assert(weighted::some_wlists(rv, x as usize));
                }
            }
            assert forall|base: Asg| #[trigger] self.total(base) == count.val() by {
                lemma_instance_total(*self, rv, base);
                assert(wcanonicalize::relations_total(rv, n, base) == count.val());
                let c = count.val();
                assert(c * 1real == c) by (nonlinear_arith);
            }
        }
        Ok((count, stats))
    }

    /// The exact count: the number of models, or the summed weight where there are weights.
    pub fn count(&self, budget: usize, max_rows: usize, branch: CountBranch) -> (r: Result<(CountValue, Stats), InstanceFault>)
        requires
            self.narrow(),
        ensures
            match r {
                Ok(x) => {
                    &&& self.fault() is None
                    &&& forall|base: Asg| #[trigger] self.total(base) == x.0.number()
                    &&& x.0 is Rat <==> self.weighted()
                    &&& self.weighted() ==> first_repeat(self.tensors@, self.tensors@.len() as int) is None
                },
                Err(e) => match self.fault() {
                    Some(f) => e == f,
                    None => self.weighted() && (e matches InstanceFault::DuplicateConfig(i) && first_repeat(self.tensors@, self.tensors@.len() as int) == Some(i)),
                },
            },
    {
        match self.validate() {
            Err(e) => {
                return Err(e);
            },
            Ok(_) => {},
        }
        if self.is_weighted() {
            match self.count_weighted(budget, max_rows, branch) {
                Ok((w, stats)) => Ok((CountValue::Rat(w), stats)),
                Err(i) => Err(InstanceFault::DuplicateConfig(i)),
            }
        } else {
            let (c, stats) = self.count_plain(budget, max_rows, branch);
            Ok((CountValue::Int(c), stats))
        }
    }
}

/// The relation is the weights of the values of `x`.
spec fn value_relation_of(ws: Seq<(usize, String, String)>, x: int, r: WRelation<RationalWeight>) -> bool {
    &&& r.vars@.len() == 1
    &&& r.vars@[0] == x
    &&& forall|a: Asg| #[trigger] r.weigh(a) == value_weight(ws, ws.len() as int, x, a(x))
}

/// One relation more.
proof fn lemma_pushed_relation<W: Weight>(t: InstanceTensor, r0: Seq<WRelation<W>>, rel: WRelation<W>, n: int)
    requires
        tensor_wf(t, n),
        relation_of(t, rel),
        weighted::all_wsmall(r0, n),
    ensures
        weighted::all_wsmall(r0.push(rel), n),
        forall|v: usize| #[trigger] weighted::some_wlists(r0.push(rel), v) <==> (weighted::some_wlists(r0, v) || rel.vars@.contains(v)),
{
    let r1 = r0.push(rel);
    assert forall|i: int| 0 <= i < r1.len() implies (#[trigger] r1[i]).wf() && r1[i].vars@.len() <= 32 && (forall|j: int| 0 <= j < r1[i].vars@.len() ==> (#[trigger] r1[i].vars@[j]) < n) by {
        if i < r0.len() {
            assert(r1[i] == r0[i]);
        } else {
            assert forall|j: int| 0 <= j < rel.vars@.len() implies (#[trigger] rel.vars@[j]) < n by {
                assert(rel.vars@.contains(rel.vars@[j]));
                let q = t.vars@.index_of(rel.vars@[j]);
                assert(t.vars@[q] < n);
            }
        }
    }
    assert forall|v: usize| #[trigger] weighted::some_wlists(r1, v) <==> (weighted::some_wlists(r0, v) || rel.vars@.contains(v)) by {
        if weighted::some_wlists(r1, v) {
            let i = choose|i: int| 0 <= i < r1.len() && (#[trigger] r1[i]).vars@.contains(v);
            if i < r0.len() {
                assert(r0[i].vars@.contains(v));
            }
        }
        if weighted::some_wlists(r0, v) {
            let i = choose|i: int| 0 <= i < r0.len() && (#[trigger] r0[i]).vars@.contains(v);
            assert(r1[i].vars@.contains(v));
        }
        if rel.vars@.contains(v) {
            assert(r1[r0.len() as int].vars@.contains(v));
        }
    }
}

/// However the work was divided between elimination and search, the count is the same.
pub proof fn law_count_does_not_depend_on_the_way(inst: Instance, x: CountValue, y: CountValue, base: Asg)
    requires
        forall|b: Asg| #[trigger] inst.total(b) == x.number(),
        forall|b: Asg| #[trigger] inst.total(b) == y.number(),
    ensures
        x.number() == y.number(),
{
    assert(inst.total(base) == x.number());
}

} // verus!
