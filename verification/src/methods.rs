//! The two ways to run bytecode: step by step on a tape, or as machine code.

pub mod compile;
pub mod install;
pub mod interpret;
