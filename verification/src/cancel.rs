//! Asking a query to stop.
//!
//! Cancellation is cooperative. It is observed at part, clause, and match-row boundaries,
//! and nowhere else: a single pattern is matched to its end.

use vstd::prelude::*;

verus! {

/// Something that may ask a query to stop.
pub trait ShouldStop {
    /// Whether this may ask at all.
    spec fn may_stop(&self) -> bool;

    /// Whether this asks whenever it is consulted.
    spec fn must_stop(&self) -> bool;

    /// Whether to stop now.
    fn should_stop(&self) -> (stop: bool)
        ensures
            stop ==> self.may_stop(),
            self.must_stop() ==> stop,
    ;

    /// Why to stop. Any text will do: it becomes the message of the refusal.
    fn reason(&self) -> (text: String);
}

/// Something that never asks a query to stop.
#[derive(Clone, Copy, Debug, PartialEq, Eq)]
pub struct Never;

impl ShouldStop for Never {
    open spec fn may_stop(&self) -> bool {
        false
    }

    open spec fn must_stop(&self) -> bool {
        false
    }

    fn should_stop(&self) -> (stop: bool) {
        false
    }

    fn reason(&self) -> (text: String) {
        String::new()
    }
}

} // verus!
