//! The schema-change model: a migration is an id and one change to the
//! schema, such as creating a table.

use vstd::prelude::*;

verus! {

/// The type of a column.
#[derive(Debug)]
pub enum ColumnType {
    /// A number of the given width.
    Number(u8),
}

/// A column of a table.
#[derive(Debug)]
pub struct Column {
    pub name: String,
    pub column_type: ColumnType,
}

/// A change to the schema.
#[derive(Debug)]
pub enum Change {
    CreateTable { name: String, columns: Vec<Column> },
}

/// A migration: its id and its change.
#[derive(Debug)]
pub struct Migration {
    pub id: i32,
    pub change: Change,
}

} // verus!
