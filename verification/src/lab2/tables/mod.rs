//! Grammar analysis over shared tables of symbol records: FIRST and FOLLOW
//! by fixed-point iteration, LR(0) item sets, the SLR(1) check and ACTION and
//! GOTO tables, a shift-reduce parser, and the sample grammars built in them.
pub mod symbols;
pub mod items;
pub mod supplementary;
pub mod task1;
pub mod declare;
pub mod parse_table;
pub mod task2;
pub mod task3;
pub mod follow_circle;
