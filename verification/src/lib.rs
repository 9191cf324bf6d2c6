//! An optimizing toolchain for Brainfuck: a parser producing an extended
//! intermediate representation, a multi-pass rewrite optimizer, and a
//! byte-tape interpreter, with the behaviour of every component stated in
//! contracts and proved.

pub mod error;
pub mod parser;
pub mod optimizer;
pub mod interpreter;

pub use error::BrainfuckError;
pub use optimizer::Optimizer;
pub use interpreter::Interpreter;
pub use parser::Instruction;
