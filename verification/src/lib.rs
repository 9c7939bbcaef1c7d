//! Compiler-construction toolkit: character sets and finite automata for
//! lexical analysis, context-free grammar analysis (FIRST/FOLLOW, LL(1),
//! LR(0)/SLR(1)), a regular-definition language, and a TINY compiler that
//! emits TM assembly.
#![allow(non_snake_case)]
#![allow(non_camel_case_types)]
#![allow(non_upper_case_globals)]
#![allow(dead_code)]

pub mod text;
pub mod lab1;
pub mod lab2;
pub mod lab3;
pub mod lab4;
