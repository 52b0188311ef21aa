//! What the operations are for: laws over their inputs and their results.
//!
//! Each law speaks of every call of an operation, whatever it was given, and says of the
//! result what a caller of the operation wants of it, in terms of the plain inputs.

pub mod stacks;
pub mod numbers;
pub mod profiles;
pub mod documents;
pub mod sampling;
pub mod reports;
pub mod heap_reports;
pub mod drawing;
pub mod checks;
pub mod appended;
