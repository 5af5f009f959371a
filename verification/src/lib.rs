//! A small dynamically typed expression language: a single-pass bytecode
//! compiler and a stack-based virtual machine with first-class closures,
//! together with the lexer and the two-phase parser that feed them.

pub mod common;
pub mod compiler;
pub mod disassembly;
pub mod globals;
pub mod layout;
pub mod lexer;
pub mod native;
pub mod parser;
pub mod program;
pub mod text;
pub mod value;
pub mod vm;
