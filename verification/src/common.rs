//! Definitions shared by every stage.

use vstd::prelude::*;

verus! {

/// The six atomic actions of the language.
#[derive(Clone, Copy, Debug, PartialEq, Eq, Hash, Structural)]
pub enum Command {
    /// `<`: move the pointer one cell to the left.
    Left,
    /// `>`: move the pointer one cell to the right.
    Right,
    /// `+`: increment the cell under the pointer.
    Up,
    /// `-`: decrement the cell under the pointer.
    Down,
    /// `,`: read one byte into the cell under the pointer.
    In,
    /// `.`: write the cell under the pointer.
    Out,
}

/// Everything that can go wrong, while parsing or while running a program.
#[derive(Clone, Copy, Debug, PartialEq, Eq, Hash, Structural)]
pub enum Error {
    /// A `[` is never closed.
    UnmatchedBegin,
    /// A `]` closes nothing.
    UnmatchedEnd,
    /// The pointer would move below the first cell.
    PointerUnderflow,
    /// The pointer would move beyond the last cell.
    PointerOverflow,
}

/// The result of a fallible stage.
pub type BfResult<T> = Result<T, Error>;

/// The byte that stands for a command in source text: one of `<>+-,.`.
pub open spec fn command_byte(command: Command) -> u8 {
    match command {
        Command::Left => 0x3c,
        Command::Right => 0x3e,
        Command::Up => 0x2b,
        Command::Down => 0x2d,
        Command::In => 0x2c,
        Command::Out => 0x2e,
    }
}

/// The command that a byte of source text stands for, if it stands for one.
pub fn command_of(byte: u8) -> (result: Option<Command>)
    ensures
        match result {
            Some(command) => command_byte(command) == byte,
            None => forall|command: Command| command_byte(command) != byte,
        },
{
    if byte == 0x3c {
        Some(Command::Left)
    } else if byte == 0x3e {
        Some(Command::Right)
    } else if byte == 0x2b {
        Some(Command::Up)
    } else if byte == 0x2d {
        Some(Command::Down)
    } else if byte == 0x2c {
        Some(Command::In)
    } else if byte == 0x2e {
        Some(Command::Out)
    } else {
        None
    }
}

/// The byte that opens a loop, `[`.
pub const LOOP_BEGIN: u8 = 0x5b;

/// The byte that closes a loop, `]`.
pub const LOOP_END: u8 = 0x5d;

} // verus!
