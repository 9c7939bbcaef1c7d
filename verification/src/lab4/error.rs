//! Errors of the TINY compiler.
use vstd::prelude::*;

verus! {

/// Why a compilation failed, with a message.
#[derive(Debug)]
pub enum CompileError {
    Io(String),
    Lex(String),
    Parse(String),
    Semantic(String),
    Codegen(String),
}

} // verus!
