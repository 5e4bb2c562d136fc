//! A bytecode compiler, interpreter and x86-64 code generator for the
//! eight-instruction tape-machine language `> < + - . , [ ]`.

pub mod common;
pub mod error;
pub mod methods;
pub mod nesting;
pub mod parser;

pub use common::{Instruction, NO_CELLS};
pub use error::Error;
pub use methods::compile::{compile, AVec, ALIGNMENT};
pub use methods::install::{advance, verdict, Action, Event, Stage};
pub use methods::interpret::{interpret, Machine, Step};
pub use parser::{parse, parse_bytes};
