//! How much of a problem is left.
use vstd::prelude::*;
use vstd::string::StringExecFns;

use crate::domain::DomainMask;
use crate::network::ConstraintNetwork;
use crate::text;
use crate::util;

verus! {

/// What is counted.
#[derive(Clone, Copy, Debug, PartialEq, Eq, Structural)]
pub enum Measure {
    NumUnfixedVars,
    NumUnfixedTensors,
    NumHardTensors,
}

impl Measure {
    /// The name of the measure on the command line.
    pub open spec fn name(self) -> Seq<char> {
        match self {
            Measure::NumUnfixedVars => "vars"@,
            Measure::NumUnfixedTensors => "tensors"@,
            Measure::NumHardTensors => "hard-tensors"@,
        }
    }

    /// The measure of that name.
    pub fn parse(value: &str) -> (r: Result<Self, String>)
        ensures
            match r {
                Ok(m) => value@ == m.name(),
                Err(e) => {
                    &&& forall|m: Measure| value@ != #[trigger] m.name()
                    &&& e@ == "invalid --measure value: "@ + value@ + "; expected vars, tensors, or hard-tensors"@
                },
            },
    {
        if text::same_text(value, "vars") {
            Ok(Measure::NumUnfixedVars)
        } else if text::same_text(value, "tensors") {
            Ok(Measure::NumUnfixedTensors)
        } else if text::same_text(value, "hard-tensors") {
            Ok(Measure::NumHardTensors)
        } else {
            let mut e = String::new();
            e.append("invalid --measure value: ");
            e.append(value);
            e.append("; expected vars, tensors, or hard-tensors");
            proof {
                assert(e@ =~= "invalid --measure value: "@ + value@ + "; expected vars, tensors, or hard-tensors"@);
                assert forall|m: Measure| value@ != #[trigger] m.name() by {
                    match m {
                        Measure::NumUnfixedVars => {},
                        Measure::NumUnfixedTensors => {},
                        Measure::NumHardTensors => {},
                    }
                }
            }
            Err(e)
        }
    }

    /// The name of the measure.
    pub fn label(self) -> (r: &'static str)
        ensures
            r@ == self.name(),
    {
        match self {
            Measure::NumUnfixedVars => "vars",
            Measure::NumUnfixedTensors => "tensors",
            Measure::NumHardTensors => "hard-tensors",
        }
    }
}

/// Reading the name of a measure gives the measure back.
pub proof fn law_names_tell_measures_apart(a: Measure, b: Measure)
    requires
        a.name() == b.name(),
    ensures
        a == b,
{
    reveal_strlit("vars");
    reveal_strlit("tensors");
    reveal_strlit("hard-tensors");
    assert("vars"@.len() == 4);
    assert("tensors"@.len() == 7);
    assert("hard-tensors"@.len() == 12);
}

/// The number of the first `upto` constraints with an open variable.
pub open spec fn open_tensors(cn: ConstraintNetwork, d: Seq<DomainMask>, upto: int) -> nat
    decreases upto,
{
    if upto <= 0 {
        0
    } else {
        open_tensors(cn, d, upto - 1) + (if util::has_open(cn, d, upto - 1) {
            1nat
        } else {
            0nat
        })
    }
}

/// The number of open variables above two, summed over the first `upto` constraints.
pub open spec fn excess(cn: ConstraintNetwork, d: Seq<DomainMask>, upto: int) -> nat
    decreases upto,
{
    if upto <= 0 {
        0
    } else {
        let degree = util::open_vars(cn.axes(upto - 1), d, cn.axes(upto - 1).len() as int).len();
        excess(cn, d, upto - 1) + (if degree > 2 {
            (degree - 2) as nat
        } else {
            0nat
        })
    }
}

/// What the measure counts.
pub open spec fn measured(cn: ConstraintNetwork, d: Seq<DomainMask>, m: Measure) -> nat {
    match m {
        Measure::NumUnfixedVars => util::unfixed(d, d.len() as int),
        Measure::NumUnfixedTensors => open_tensors(cn, d, cn.m()),
        Measure::NumHardTensors => excess(cn, d, cn.m()),
    }
}

/// The number of open variables of constraint `t`.
fn degree(cn: &ConstraintNetwork, doms: &[DomainMask], t: usize) -> (r: usize)
    requires
        cn.wf(),
        doms@.len() == cn.n(),
        t < cn.m(),
    ensures
        r == util::open_vars(cn.axes(t as int), doms@, cn.axes(t as int).len() as int).len(),
        r <= 32,
        (r > 0) == util::has_open(*cn, doms@, t as int),
{
    assert(cn.tensor_wf(t as int));
    let axes = &cn.tensors[t].var_axes;
    let mut c: usize = 0;
    let mut j: usize = 0;
    while j < axes.len()
        invariant
            cn.tensor_wf(t as int),
            axes@ == cn.axes(t as int),
            doms@.len() == cn.n(),
            j <= axes@.len() <= 32,
            c <= j,
            c == util::open_vars(axes@, doms@, j as int).len(),
            c > 0 ==> util::has_open(*cn, doms@, t as int),
            c == 0 ==> forall|k: int| 0 <= k < j ==> doms@[(#[trigger] axes@[k]) as int].fixed(),
        decreases axes.len() - j,
    {
        if !doms[axes[j]].is_fixed() {
            assert(!doms@[cn.axes(t as int)[j as int] as int].fixed());
            c += 1;
        }
        j += 1;
    }
    c
}

/// What is left of the problem under `doms`, as the measure counts it. The sum over the
/// constraints stops at the largest number.
pub fn measure_core(cn: &ConstraintNetwork, doms: &[DomainMask], m: Measure) -> (r: u64)
    requires
        cn.wf(),
        doms@.len() == cn.n(),
    ensures
        measured(*cn, doms@, m) <= u64::MAX ==> r == measured(*cn, doms@, m),
        measured(*cn, doms@, m) > u64::MAX ==> r == u64::MAX,
{
    match m {
        Measure::NumUnfixedVars => util::count_unfixed(doms) as u64,
        Measure::NumUnfixedTensors => {
            let mut c: u64 = 0;
            let mut t: usize = 0;
            while t < cn.tensors.len()
                invariant
                    cn.wf(),
                    doms@.len() == cn.n(),
                    t <= cn.m(),
                    c <= t,
                    c == open_tensors(*cn, doms@, t as int),
                decreases cn.tensors.len() - t,
            {
                if degree(cn, doms, t) > 0 {
                    c += 1;
                }
                t += 1;
            }
            c
        },
        Measure::NumHardTensors => {
            let mut c: u64 = 0;
            let mut t: usize = 0;
            while t < cn.tensors.len()
                invariant
                    cn.wf(),
                    doms@.len() == cn.n(),
                    t <= cn.m(),
                    excess(*cn, doms@, t as int) <= u64::MAX ==> c == excess(*cn, doms@, t as int),
                    excess(*cn, doms@, t as int) > u64::MAX ==> c == u64::MAX,
                decreases cn.tensors.len() - t,
            {
                let k: usize = degree(cn, doms, t);
                if k > 2 {
                    c = crate::problem::capped(c, (k - 2) as u64);
                }
                t += 1;
            }
            c
        },
    }
}

} // verus!
