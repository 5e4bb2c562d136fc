use vstd::prelude::*;

verus! {

/// Number of cells on the data tape.
pub const NO_CELLS: usize = 30000;

/// One bytecode instruction.
///
/// Runs of `>`, `<`, `+` and `-` are folded into a single instruction that
/// carries the run length. The two jumps carry the index of the instruction
/// that follows their partner.
#[derive(Clone, Copy, Debug, PartialEq, Eq, Structural)]
pub enum Instruction {
    /// `>`: advance the cursor by the count.
    Right(usize),
    /// `<`: retreat the cursor by the count.
    Left(usize),
    /// `+`: add to the current cell, wrapping.
    Increment(u8),
    /// `-`: subtract from the current cell, wrapping.
    Decrement(u8),
    /// `.`: write the current cell.
    Output,
    /// `,`: read one byte into the current cell.
    Input,
    /// `[`: continue at the target when the current cell is zero.
    JumpIfZero(usize),
    /// `]`: continue at the target when the current cell is not zero.
    JumpIfNonZero(usize),
}

} // verus!
