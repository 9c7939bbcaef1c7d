//! A compiler for the TINY language: scanner, parser and TM code generator.
pub mod ast;
pub mod codegen;
pub mod error;
pub mod parser;
pub mod scanner;
pub mod token;
pub mod compile;
pub mod tm;
