use vstd::prelude::*;

verus! {

/// Everything that can go wrong between reading a source and finishing its run.
#[derive(Debug, PartialEq, Eq)]
pub enum Error {
    /// A failure of the code generator's host: allocation or memory protection.
    Generic(String),
    /// A `]` without a `[` before it, or a `[` that is never closed.
    UnbalancedBrackets,
    /// Moving right would leave the tape.
    CursorOverflow,
    /// Moving left would leave the tape.
    CursorUnderflow,
    /// A byte was asked for and none could be read.
    IO,
    /// No source path was given.
    NoPathProvided,
}

} // verus!
