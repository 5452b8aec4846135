//! The changelog model: a migration is an id and a list of change sets, each
//! with a change to apply (`up`) and, optionally, one that undoes it (`down`).

use vstd::prelude::*;

verus! {

/// The top-level changelog file: the list of migration files it includes.
pub struct ChangeLog {
    pub includes: Vec<IncludePath>,
}

/// One file included by a [`ChangeLog`].
pub struct IncludePath {
    pub path: String,
}

/// A migration: its id (which orders migrations) and its change sets.
pub struct Migration {
    pub id: i64,
    pub changes: Vec<ChangeSet>,
}

/// A change to apply, an optional change that undoes it, and the SQL dialect
/// the change is written for.
pub struct ChangeSet {
    pub dialect: Option<String>,
    pub up: Change,
    pub down: Option<Change>,
}

/// The SQL of a change: one query, several queries, or a SQL file.
pub enum Change {
    Query { query: String },
    Queries { queries: Vec<String> },
    SqlFile { sql_file: SqlFile },
}

/// A SQL file referred to by a change.
pub struct SqlFile {
    pub path: String,
    pub new_line_delimited: bool,
}

} // verus!
