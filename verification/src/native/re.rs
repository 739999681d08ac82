//! A parser for Python-style regular expressions.
//!
//! Patterns are parsed into a [`SubPattern`] tree of operation nodes, each
//! an opcode with its arguments.
//! Only the parser lives here; the schema interpreter walks the tree to
//! produce matching strings.

pub mod constants;
pub mod parser;
pub(crate) mod tokenizer;

pub use constants::{AtCode, ChCode};
pub use parser::{OpCode, ParseError, SetItem, SubPattern};
