//! How an EXA's instruction can fail.

use vstd::prelude::*;

verus! {

/// The outcome of an instruction that did not complete.
#[derive(Debug, Clone, Copy, PartialEq, Eq)]
pub enum ExaError {
    /// The instruction could not run this cycle; it is retried on the next one.
    Blocking(&'static str),
    /// The EXA dies; it is removed from the VM at the start of the next cycle.
    Fatal(&'static str),
    /// Freezing errors cause an Exa to skip processing cycles until
    /// the freeze is released by an outside process. One use case here
    /// is freezing an Exa after an M write until it is read by
    /// another Exa.
    Freezing(&'static str),
}

} // verus!
