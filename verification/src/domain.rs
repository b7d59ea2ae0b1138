//! Boolean domains as two-bit masks.
use vstd::prelude::*;

verus! {

/// An assignment: a truth value for every variable id.
pub type Asg = spec_fn(int) -> bool;

/// Domain of one Boolean variable: which of its two values are still possible.
#[allow(clippy::upper_case_acronyms)]
#[derive(Clone, Copy, Debug, PartialEq, Eq, Structural)]
pub enum DomainMask {
    /// Neither value: a contradiction.
    NONE,
    /// Only `false`.
    D0,
    /// Only `true`.
    D1,
    /// Either value.
    BOTH,
}

impl DomainMask {
    /// Whether the value `b` is still allowed.
    pub open spec fn allows(self, b: bool) -> bool {
        self == DomainMask::BOTH || self == DomainMask::only(b)
    }

    /// One of the three non-empty masks.
    pub open spec fn live(self) -> bool {
        self == DomainMask::D0 || self == DomainMask::D1 || self == DomainMask::BOTH
    }

    /// Exactly one value is allowed.
    pub open spec fn fixed(self) -> bool {
        self == DomainMask::D0 || self == DomainMask::D1
    }

    /// The mask that allows only `b`.
    pub open spec fn only(b: bool) -> DomainMask {
        if b {
            DomainMask::D1
        } else {
            DomainMask::D0
        }
    }

    pub fn has0(self) -> (r: bool)
        ensures
            r == self.allows(false),
    {
        self == DomainMask::D0 || self == DomainMask::BOTH
    }

    pub fn has1(self) -> (r: bool)
        ensures
            r == self.allows(true),
    {
        self == DomainMask::D1 || self == DomainMask::BOTH
    }

    pub fn is_fixed(self) -> (r: bool)
        ensures
            r == self.fixed(),
    {
        self == DomainMask::D0 || self == DomainMask::D1
    }

    /// The fixed value, if exactly one value is allowed.
    pub fn value(self) -> (r: Option<bool>)
        ensures
            r == (if self == DomainMask::D0 {
                Some(false)
            } else if self == DomainMask::D1 {
                Some(true)
            } else {
                None
            }),
    {
        if self == DomainMask::D0 {
            Some(false)
        } else if self == DomainMask::D1 {
            Some(true)
        } else {
            None
        }
    }
}

/// The mask that allows exactly `b`.
pub fn fixed_domain(b: bool) -> (r: DomainMask)
    ensures
        r == DomainMask::only(b),
{
    if b {
        DomainMask::D1
    } else {
        DomainMask::D0
    }
}

} // verus!
