//! A small regular-expression engine: a pattern is parsed into an abstract
//! syntax tree, compiled into a linear bytecode program, and evaluated
//! against an input by either an exhaustive depth-first backtracking search
//! or a breadth-first thread-set simulation. Both strategies are proved to
//! return the acceptance of the compiled program, so they always agree.

pub mod codegen;
pub mod engine;
pub mod evaluator;
pub mod helper;
pub mod parser;

pub use codegen::{get_code, CodeGenError};
pub use engine::{is_match, EngineError, Instruction};
pub use parser::{parse, ParseError, AST};
