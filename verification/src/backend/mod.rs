//! A backend of the schema-change model that only reports what it would do.

use vstd::prelude::*;

use crate::migration::Migration;
use crate::traits::{Backend, DbMigration, Execution, Executor};

verus! {

/// A backend that hands a description of each step to an executor, and
/// reports the migrations with ids 2, 3 and 4 as applied.
pub struct DummyBackend<T: Executor>(T);

impl<T: Executor> DummyBackend<T> {
    /// The executor that the steps are handed to.
    pub closed spec fn executor(self) -> T {
        self.0
    }

    /// A backend that hands its steps to `e`.
    pub fn new(e: T) -> (b: Self)
        ensures
            b.executor() == e,
    {
        Self(e)
    }
}

/// The `Debug` rendering of `m`, as `derive(Debug)` writes it.
pub uninterp spec fn migration_debug_text(m: Migration) -> Seq<char>;

/// The line that announces that `migration` runs, made by `format!`:
/// `Running migration ` followed by the `Debug` rendering of `migration`,
/// which `migration_debug_text` names.
#[verifier::external_body]
fn running_line(migration: &Migration) -> (line: String)
    ensures
        line@ == "Running migration "@ + migration_debug_text(*migration),
{
    format!("Running migration {:?}", migration)
}

impl<T: Executor> Backend for DummyBackend<T> {
    /// Runs the query `CREATE MIGRATION TABLE` on the executor, once, and
    /// ends as that run ends.
    fn ensure_migration_table(&mut self) -> (r: Result<(), String>)
        ensures
            old(self).executor().keeps_log() ==> {
                &&& final(self).executor().keeps_log()
                &&& final(self).executor().log() == old(self).executor().log().push(
                    Execution { query: "CREATE MIGRATION TABLE"@, result: r },
                )
            },
    {
        broadcast use vstd::string::to_string_from_display_ensures_for_str;

        let query = "CREATE MIGRATION TABLE".to_string();
        assert(query@ == "CREATE MIGRATION TABLE"@);
        self.0.execute(query)
    }

    /// The migrations with ids 2, 3 and 4; the executor is not used.
    fn existing_migrations(&mut self) -> (r: Result<Vec<DbMigration>, String>)
        ensures
            final(self).executor() == old(self).executor(),
            r matches Ok(v) && v@.len() == 3 && v@[0].id == 2 && v@[1].id == 3 && v@[2].id == 4,
    {
        Ok(vec![DbMigration { id: 2 }, DbMigration { id: 3 }, DbMigration { id: 4 }])
    }

    /// Runs on the executor, once, the line `Running migration ` followed by
    /// the `Debug` rendering of `migration`, and ends as that run ends.
    fn migrate(&mut self, migration: &Migration) -> (r: Result<(), String>)
        ensures
            old(self).executor().keeps_log() ==> {
                &&& final(self).executor().keeps_log()
                &&& final(self).executor().log() == old(self).executor().log().push(
                    Execution { query: "Running migration "@ + migration_debug_text(*migration), result: r },
                )
            },
    {
        self.0.execute(running_line(migration))
    }
}

} // verus!
