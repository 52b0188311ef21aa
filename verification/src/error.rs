//! What can go wrong.

use vstd::prelude::*;

verus! {

/// The errors of this library.
#[derive(Clone, Copy, Debug, PartialEq, Eq, Structural)]
pub enum Error {
    /// The profiler could not be created.
    CreatingError,
    /// The collected samples could not be read; the operating system's error code.
    IoError(i32),
    /// The counts of one stack add up to more than a count can hold.
    CountOverflow,
    /// The flame graph could not be drawn: no stack of the report can be shown.
    FlamegraphError,
    /// The numbers of the report are too large for a flame graph.
    FlamegraphOverflow,
}

} // verus!
