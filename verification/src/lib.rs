//! Row projection and row retrieval for a SQL query executor.
//!
//! A table scan yields the stored rows that pass a predicate
//! ([`executor::fetch`]); the rows of the joined tables are bound into a
//! chain of row contexts ([`executor::context`]); and a SELECT list turns
//! such a chain into one output row ([`executor::blend`]).
pub mod data;
pub mod executor;
pub mod outside;
pub mod result;
pub mod store;
