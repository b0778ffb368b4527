//! From stored rows to output rows: the scan of a table, the contexts that
//! bind a composed row, and the projection through a SELECT list.
pub mod blend;
pub mod context;
pub mod fetch;
