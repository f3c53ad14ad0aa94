//! A small in-memory relational query engine: a parser for a restricted
//! SQL dialect and an executor that runs the parsed query over tables held
//! in memory.
//!
//! - `grammar`: the query language as functions on text.
//! - `parser`: the cursor and the recursive-descent reader that follow it.
//! - `syntax`: how a query is written, and that it is read back.
//! - `database`: rows, tables and the database.
//! - `json`: a database read from a JSON document.
//! - `engine`: the four stages that run a query over a database.
//! - `algebra`: laws of the join, the filter and the projection.
//! - `text`, `text_map`: text, and maps keyed by text.

pub mod algebra;
pub mod database;
pub mod engine;
pub mod grammar;
pub mod json;
pub mod parser;
pub mod syntax;
pub mod text;
pub mod text_map;
