//! Lexer, parser, code generator and virtual machine for a small calculator language.
use vstd::prelude::*;

pub mod text;
pub mod scanner;
pub mod number;
pub mod parser;
pub mod codegen;
pub mod symbol_table;
pub mod vm;
pub mod display;
pub mod gui;
pub mod pipeline;

verus! {
}
