//! The interfaces of the schema-change model: something that runs queries,
//! and a backend that keeps track of the applied migrations.
//!
//! A failure is reported as `Err` with a message.

use vstd::prelude::*;

use crate::migration::Migration;

verus! {

/// A query that an executor ran, with what the run ended with.
pub struct Execution {
    pub query: Seq<char>,
    pub result: Result<(), String>,
}

/// Runs queries.
///
/// An executor that records the queries it runs says so with `keeps_log`;
/// then `execute` states the run it adds to `log`.
pub trait Executor {
    /// This executor records, in `log`, every query it runs. An executor
    /// that records nothing keeps this default.
    open spec fn keeps_log(&self) -> bool {
        false
    }

    /// The queries this executor ran, oldest first, with how each ended.
    open spec fn log(&self) -> Seq<Execution> {
        Seq::empty()
    }

    /// Runs `query`.
    fn execute(&mut self, query: String) -> (r: Result<(), String>)
        ensures
            old(self).keeps_log() ==> final(self).keeps_log() && final(self).log() == old(self).log().push(
                Execution { query: query@, result: r },
            ),
    ;
}

/// A migration recorded as applied.
pub struct DbMigration {
    pub id: u32,
}

/// A database that records the migrations applied to it.
pub trait Backend {
    /// Creates the table of applied migrations if it does not exist yet.
    fn ensure_migration_table(&mut self) -> Result<(), String>;

    /// The migrations recorded as applied.
    fn existing_migrations(&mut self) -> Result<Vec<DbMigration>, String>;

    /// Applies `migration`.
    fn migrate(&mut self, migration: &Migration) -> Result<(), String>;
}

} // verus!
