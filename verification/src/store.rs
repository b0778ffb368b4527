//! The storage that the executor reads.
use vstd::prelude::*;
use crate::data::{Ident, Row};
use crate::result::Error;

verus! {

/// The definition of one column of a table.
#[derive(Debug, PartialEq)]
pub struct ColumnDef {
    pub name: Ident,
}

/// What the storage knows of a table.
#[derive(Debug, PartialEq)]
pub struct Schema {
    pub table_name: String,
    pub column_defs: Vec<ColumnDef>,
}

/// What a storage hands out for one stored row: its key and the row, or why
/// it could not be read.
pub type Stored<T> = Result<(T, Row), Error>;

/// A storage of tables, whose rows are found under keys of type `T`.
pub trait Store<T> {
    /// The rows of one table, one at a time and in the storage's order.
    type Rows: Iterator<Item = Stored<T>>;

    /// The schema of the table, or an error where the storage knows no such
    /// table.
    fn get_schema(&self, table_name: &str) -> Result<Schema, Error>;

    /// The stored rows of the table.
    fn get_data(&self, table_name: &str) -> Result<Self::Rows, Error>;
}

} // verus!
