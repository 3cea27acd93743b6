//! The query language: a flat string of AND-combined terms.
//!
//! `parse` turns the string into an [`ast::Query`], `lower` resolves its dates
//! against a captured `now` and gives a flat [`lower::Filter`] of column
//! predicates, which the index store turns into SQL.
pub mod ast;
pub mod date;
pub mod lower;
pub mod parse;
