//! A small compiler pipeline for a byte-tape language: source text is parsed
//! into instructions, optionally optimized, and executed one instruction at a
//! time against a bounded tape. Every stage is specified over sequences and
//! proved against that specification.

pub mod equivalence;
pub mod error;
pub mod instruction;
pub mod interpreter;
pub mod machine;
pub mod optimizer;
pub mod parser;
pub mod program;
pub mod round_trip;

pub use error::{Error, Result};
pub use instruction::Instruction;
pub use parser::parse;
pub use optimizer::optimize;
pub use interpreter::{Action, Interpreter};
