//! Time spent, for diagnostics.
use vstd::prelude::*;

use std::time::Instant;

verus! {

/// A moment of `std::time`. Nothing is known of it.
#[verifier::external_type_specification]
#[verifier::external_body]
pub struct ExInstant(Instant);

/// The present moment, as `Instant::now` gives it. Nothing is claimed of it.
#[verifier::external_body]
fn moment() -> (r: Instant)
{
    Instant::now()
}

/// The nanoseconds since a moment, as `Instant::elapsed` gives them, at most the largest number.
/// Nothing is claimed of how many they are.
#[verifier::external_body]
fn nanos_since(start: Instant) -> (r: u64)
{
    u64::try_from(start.elapsed().as_nanos()).unwrap_or(u64::MAX)
}

/// A watch, running where time is taken.
pub(crate) fn watch(running: bool) -> (r: Option<Instant>)
    ensures
        r is Some == running,
{
    if running {
        Some(moment())
    } else {
        None
    }
}

/// The nanoseconds on a watch; zero where it does not run. The clock decides, so nothing else is
/// said of them.
pub(crate) fn nanos(start: Option<Instant>) -> (r: u64)
    ensures
        start is None ==> r == 0,
{
    match start {
        Some(s) => nanos_since(s),
        None => 0,
    }
}

} // verus!
