//! An interpreter for a byte-tape language of eight one-character operators.
//!
//! The source text is parsed into a tree of operators ([`Ast`]), which a
//! [`Machine`] executes step by step against a tape of byte cells.

pub mod operators;
pub mod storage;
pub mod ast;
pub mod machine;

pub use operators::Operator;
pub use ast::Ast;
pub use machine::Machine;
pub use storage::{Unit, Tape, VectorTape, SparseTape};
