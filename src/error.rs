use vstd::prelude::*;

use crate::atom::{BuiltIn, Kind};
use crate::number::Fault;

verus! {

/// Why a run stopped.
#[derive(Clone, Copy, Debug, PartialEq, Eq, Structural)]
pub enum RuntimeError {
    /// An operand had the wrong kind.
    TypeMismatch { operation: BuiltIn, expected: Kind, found: Kind },
    /// The stack held fewer values than the operation takes.
    StackUnderflow { operation: BuiltIn, needed: usize, available: usize },
    /// A jump pointed outside the tape.
    InvalidJumpTarget { target: i64, tape_length: usize },
    /// The text codec could not turn the bytes into text.
    DecodeError { operation: BuiltIn },
    /// The arithmetic had no exact result within range.
    Arithmetic { operation: BuiltIn, fault: Fault },
    /// The run was stopped after the given number of steps with tape left to run.
    StepLimit { steps: u64 },
}

/// Why source text could not be tokenized.
#[derive(Clone, Copy, Debug, PartialEq, Eq, Structural)]
pub enum ParseReason {
    /// A byte that starts no token.
    UnexpectedByte,
    /// A string literal without its closing delimiter.
    UnterminatedString,
    /// A numeral too large to hold.
    NumberTooLarge,
    /// A string literal whose bytes do not make text.
    InvalidText,
    /// A compressed string literal that does not decompress to text.
    UndecodableLiteral,
}

/// Where and why tokenizing failed; `position` is a byte offset into the source.
#[derive(Clone, Copy, Debug, PartialEq, Eq, Structural)]
pub struct ParseError {
    pub position: usize,
    pub reason: ParseReason,
}

} // verus!
