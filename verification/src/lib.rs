//! A verified interpreter for a minimal tape-based language: eight primitive
//! operations over a circular byte tape, with bracket-matched loops.
//!
//! The pipeline has three stages, each a pure function with a full contract:
//! lexing and peephole optimization ([`parse`]), loop resolution into a
//! bidirectional jump table ([`build_jump_table`]), and execution of the
//! resulting program against a bounded tape ([`run`]).

pub mod equiv;
pub mod inst;
pub mod jumps;
pub mod machine;
pub mod parser;

pub use inst::Instructions;
pub use jumps::{build_jump_table, StructuralError};
pub use machine::run;
pub use parser::parse;
