//! The Befunge-93 instruction set: what each byte of the playfield means
//! outside string mode.

use vstd::prelude::*;
use crate::ops::{BinaryOperation, IOMode, Operation};
use crate::pc::Direction;

verus! {

/// The meaning of a playfield byte outside string mode.
#[derive(Clone, Copy, Debug, PartialEq, Eq, Structural)]
pub enum Command {
    /// `>` `<` `^` `v`: move on in a fixed direction.
    Turn(Direction),
    /// `?`: move on in a random direction.
    Random,
    /// `#`: skip the next cell.
    Bridge,
    /// Space: move on.
    Nop,
    /// `"`: enter string mode.
    Quote,
    /// A command that is one byte code operation.
    Emit(Operation),
    /// `p`: store to the playfield.
    Store,
    /// `_`: go left if the popped value is non-zero, else right.
    BranchHorizontal,
    /// `|`: go up if the popped value is non-zero, else down.
    BranchVertical,
    /// `@`: end the program.
    End,
    /// Any other byte.
    Illegal,
}

/// The command that byte `c` stands for.
pub open spec fn command_of(c: u8) -> Command {
    if c == 62 {
        Command::Turn(Direction::Right)
    } else if c == 60 {
        Command::Turn(Direction::Left)
    } else if c == 94 {
        Command::Turn(Direction::Up)
    } else if c == 118 {
        Command::Turn(Direction::Down)
    } else if c == 63 {
        Command::Random
    } else if c == 35 {
        Command::Bridge
    } else if c == 32 {
        Command::Nop
    } else if c == 34 {
        Command::Quote
    } else if 48 <= c <= 57 {
        Command::Emit(Operation::PushConstant((c - 48) as i64))
    } else if c == 58 {
        Command::Emit(Operation::Duplicate)
    } else if c == 92 {
        Command::Emit(Operation::Swap)
    } else if c == 36 {
        Command::Emit(Operation::Drop)
    } else if c == 43 {
        Command::Emit(Operation::Binary(BinaryOperation::Add))
    } else if c == 45 {
        Command::Emit(Operation::Binary(BinaryOperation::Subtract))
    } else if c == 42 {
        Command::Emit(Operation::Binary(BinaryOperation::Multiply))
    } else if c == 47 {
        Command::Emit(Operation::Binary(BinaryOperation::Divide))
    } else if c == 37 {
        Command::Emit(Operation::Binary(BinaryOperation::Remainder))
    } else if c == 96 {
        Command::Emit(Operation::Binary(BinaryOperation::Greater))
    } else if c == 33 {
        Command::Emit(Operation::Negate)
    } else if c == 44 {
        Command::Emit(Operation::Output(IOMode::Ascii))
    } else if c == 46 {
        Command::Emit(Operation::Output(IOMode::Decimal))
    } else if c == 126 {
        Command::Emit(Operation::Input(IOMode::Ascii))
    } else if c == 38 {
        Command::Emit(Operation::Input(IOMode::Decimal))
    } else if c == 95 {
        Command::BranchHorizontal
    } else if c == 124 {
        Command::BranchVertical
    } else if c == 64 {
        Command::End
    } else if c == 103 {
        Command::Emit(Operation::GetValue)
    } else if c == 112 {
        Command::Store
    } else {
        Command::Illegal
    }
}

/// Decodes a playfield byte.
pub fn decode(c: u8) -> (r: Command)
    ensures
        r == command_of(c),
{
    match c {
        62 => Command::Turn(Direction::Right),  // '>'
        60 => Command::Turn(Direction::Left),  // '<'
        94 => Command::Turn(Direction::Up),  // '^'
        118 => Command::Turn(Direction::Down),  // 'v'
        63 => Command::Random,  // '?'
        35 => Command::Bridge,  // '#'
        32 => Command::Nop,  // ' '
        34 => Command::Quote,  // '"'
        48..=57 => Command::Emit(Operation::PushConstant((c - 48) as i64)),  // '0' to '9'
        58 => Command::Emit(Operation::Duplicate),  // ':'
        92 => Command::Emit(Operation::Swap),  // '\\'
        36 => Command::Emit(Operation::Drop),  // '$'
        43 => Command::Emit(Operation::Binary(BinaryOperation::Add)),  // '+'
        45 => Command::Emit(Operation::Binary(BinaryOperation::Subtract)),  // '-'
        42 => Command::Emit(Operation::Binary(BinaryOperation::Multiply)),  // '*'
        47 => Command::Emit(Operation::Binary(BinaryOperation::Divide)),  // '/'
        37 => Command::Emit(Operation::Binary(BinaryOperation::Remainder)),  // '%'
        96 => Command::Emit(Operation::Binary(BinaryOperation::Greater)),  // '`'
        33 => Command::Emit(Operation::Negate),  // '!'
        44 => Command::Emit(Operation::Output(IOMode::Ascii)),  // ','
        46 => Command::Emit(Operation::Output(IOMode::Decimal)),  // '.'
        126 => Command::Emit(Operation::Input(IOMode::Ascii)),  // '~'
        38 => Command::Emit(Operation::Input(IOMode::Decimal)),  // '&'
        95 => Command::BranchHorizontal,  // '_'
        124 => Command::BranchVertical,  // '|'
        64 => Command::End,  // '@'
        103 => Command::Emit(Operation::GetValue),  // 'g'
        112 => Command::Store,  // 'p'
        _ => Command::Illegal,
    }
}

} // verus!
