//! Context-free grammar analysis: FIRST and FOLLOW sets, LL(1) tables,
//! LR(0) item-set automata and SLR(1) parse tables.
pub mod str_set;
pub mod types;
pub mod grammar;
pub mod first;
pub mod follow;
pub mod ll1;
pub mod lr0;
pub mod display;
pub mod samples;
pub mod slr;
pub mod report;
pub mod tables;
