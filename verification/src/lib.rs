//! A small row-store database: SQL lexer and parser, planner, query
//! evaluation, and the binary formats of records, slotted pages, table
//! metadata and B+Tree index nodes.
pub mod catalog;
pub mod cli;
pub mod error;
pub mod parser;
pub mod seqs;
pub mod query;
pub mod storage;
pub mod text;
pub mod types;
