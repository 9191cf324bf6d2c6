use vstd::prelude::*;
use crate::parser::Position;

verus! {

/// The error type shared by the parser, the optimizer and the interpreter.
#[derive(Debug, Clone, PartialEq, Eq)]
pub enum BrainfuckError {
    /// Generic message.
    Message(String),
    /// I/O error: the interpreter hit the end of its input stream.
    IoError,
    /// Error while parsing.
    ParseError { message: String, position: Position },
    /// Unknown optimization pass.
    UnknownOptimizationPass(String),
    /// The data pointer underflowed the available tape.
    TapeUnderflow,
    /// The data pointer overflowed the available tape.
    TapeOverflow,
}

} // verus!
