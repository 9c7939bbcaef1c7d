//! Character sets, Thompson-style NFA construction, subset construction and
//! the TINY lexical automaton.
pub mod category;
pub mod char_set;
pub mod graph;
pub mod subset;
pub mod count;
pub mod dfa;
pub mod token;
pub mod scan;
pub mod minimize;
pub mod merge;
pub mod regular_expression;
pub mod lexer;
