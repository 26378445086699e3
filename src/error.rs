//! The closed set of failures of the engine.

use vstd::prelude::*;

verus! {

/// Kind of an input failure.
#[derive(Clone, Copy, Debug, PartialEq, Eq, Structural)]
pub enum IoErrorKind {
    /// A decimal number was asked for and the input did not hold one.
    InvalidData,
}

/// Everything that can stop a program early.
#[derive(Clone, Copy, Debug, PartialEq, Eq, Structural)]
pub enum Error {
    /// An input failure.
    Io(IoErrorKind),
    /// The program text is wider or taller than the playfield: width, height.
    InvalidGridSize(usize, usize),
    /// A non-ASCII character in the program text, or a value written as a
    /// character that is not an ASCII code.
    NonAscii(i64),
    /// A byte that is no Befunge-93 command was reached outside string mode.
    IllegalCommand(u8),
    /// The step interpreter reached `@`; the run loops report it as success.
    ProgramEnd,
}

} // verus!
