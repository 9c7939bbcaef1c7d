use vstd::prelude::*;

verus! {

/// Lexical categories that an accepting automaton state can carry.
#[derive(Clone, Copy, Debug, PartialEq, Eq, Structural)]
pub enum LexemeCategory {
    /// Integer constant (`0`, `42`).
    INTEGER_CONST,
    /// Floating constant (`3.14`).
    FLOAT_CONST,
    /// Scientific constant (`1.2e-3`).
    SCIENTIFIC_CONST,
    /// Arithmetic operator (`+ - * /`).
    NUMERIC_OPERATOR,
    /// Comment.
    NOTE,
    /// String constant.
    STRING_CONST,
    /// White space.
    SPACE_CONST,
    /// Comparison operator (`<`, `=`).
    COMPARE_OPERATOR,
    /// Identifier.
    ID,
    /// Delimiters and brackets.
    LOGIC_OPERATOR,
    /// Reserved word.
    KEYWORD,
    /// Assignment operator (`:=`).
    ASSIGN_OPERATOR,
}

} // verus!
