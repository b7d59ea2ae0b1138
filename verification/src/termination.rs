//! A stop signal that several workers share.
use vstd::prelude::*;

use std::sync::atomic::AtomicBool;
use std::sync::atomic::Ordering;
use std::sync::Arc;

verus! {

/// A stop signal. Clones share it: what one requests, all see.
#[derive(Clone, Debug)]
pub struct TerminationSignal {
    requested: Arc<AtomicBool>,
}

impl TerminationSignal {
    /// A signal that nobody has requested.
    pub fn new() -> (r: TerminationSignal) {
        TerminationSignal { requested: Arc::new(AtomicBool::new(false)) }
    }

    /// Ask all holders of the signal to stop.
    pub fn request(&self) {
        self.requested.store(true, Ordering::Release);
    }

    /// Whether a holder has asked to stop. Other threads decide that, so nothing is said of the
    /// result.
    pub fn is_requested(&self) -> (r: bool) {
        self.requested.load(Ordering::Acquire)
    }
}

impl Default for TerminationSignal {
    fn default() -> (r: TerminationSignal) {
        TerminationSignal::new()
    }
}

} // verus!
