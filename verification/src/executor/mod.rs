//! Applying and rolling back migrations through a database backend.

use vstd::prelude::*;

use crate::migrations::Migration;
use checksum::{
    all_checksummable, checksum_of, checksummable, first_unchecksummable_from, first_without_checksum,
    has_sql_file,
};
use planner::{
    distinct_ids, entry_index_from, find_entry, lemma_first_entry_at, plan_down, plan_up, planned,
    rollback_target, up_to_date, find_migration, MigrationPlan, RollbackPlan,
};
use query_iter::{migration_queries, texts, QueryIter};

pub mod checksum;
pub mod planner;
pub mod query_iter;

verus! {

/// A row of the changelog that the database keeps: the id of an applied
/// migration and the checksum it had when it was applied.
#[derive(Debug)]
pub struct MigrationEntry {
    pub id: i64,
    pub checksum: String,
}

impl Clone for MigrationEntry {
    fn clone(&self) -> (r: Self)
        ensures
            r == *self,
    {
        MigrationEntry { id: self.id, checksum: self.checksum.clone() }
    }
}

/// Which way a migration runs: `Up` applies it, `Down` undoes it.
#[derive(Clone, Copy, Debug, PartialEq, Eq, Structural)]
pub enum Direction {
    Up,
    Down,
}

/// Why applying or rolling back migrations stopped.
#[derive(Debug)]
pub enum Error {
    /// The migration with id `id` now has checksum `checksum`, but the
    /// changelog recorded `old_checksum` when it was applied.
    Diverged { id: i64, checksum: String, old_checksum: String },
    /// The backend reported a failure, with this message.
    Backend { message: String },
    /// The migration with id `id`, to be rolled back, has a change that is a
    /// SQL file, whose checksum is not defined.
    NoChecksum { id: i64 },
}

/// A transaction handed to a backend: its queries, in order, and the
/// changelog entry it adds (`Up`) or removes (`Down`).
pub struct Transaction {
    pub queries: Seq<Seq<char>>,
    pub id: i64,
    pub checksum: Seq<char>,
    pub direction: Direction,
}

/// A call made to a backend, with what it returned.
pub enum BackendCall {
    /// `execute(query)`.
    Execute { query: Seq<char>, result: Result<(), String> },
    /// `db_migrations()`.
    ReadChangelog { entries: Result<Seq<MigrationEntry>, String> },
    /// `in_transaction(..)`.
    Transaction { transaction: Transaction, result: Result<(), String> },
}

/// A database that keeps a changelog of applied migrations.
///
/// A failure is reported as `Err` with a message. A backend that records
/// the calls it gets says so with `keeps_log`; then each method states the
/// call it adds to `log`.
pub trait Backend {
    /// The query that creates the changelog table if it does not exist yet.
    const CHANGELOG_TABLE_CREATION_QUERY: &'static str;

    /// This backend records, in `log`, every call it gets. A backend that
    /// records nothing keeps this default.
    open spec fn keeps_log(&self) -> bool {
        false
    }

    /// The calls this backend got, oldest first, with what each returned.
    open spec fn log(&self) -> Seq<BackendCall> {
        Seq::empty()
    }

    /// Runs one query.
    fn execute(&mut self, query: String) -> (r: Result<(), String>)
        ensures
            old(self).keeps_log() ==> final(self).keeps_log() && final(self).log() == old(self).log().push(
                BackendCall::Execute { query: query@, result: r },
            ),
    ;

    /// The changelog: the applied migrations, ordered by id.
    fn db_migrations(&mut self) -> (r: Result<Vec<MigrationEntry>, String>)
        ensures
            old(self).keeps_log() ==> final(self).keeps_log() && final(self).log() == old(self).log().push(
                BackendCall::ReadChangelog {
                    entries: match r {
                        Ok(v) => Ok(v@),
                        Err(e) => Err(e),
                    },
                },
            ),
    ;

    /// Runs `queries` in one transaction, together with the changelog update
    /// for `entry`: adding it (`Up`) or removing it (`Down`).
    fn in_transaction(
        &mut self,
        queries: Vec<String>,
        entry: MigrationEntry,
        action: Direction,
    ) -> (r: Result<(), String>)
        ensures
            old(self).keeps_log() ==> final(self).keeps_log() && final(self).log() == old(self).log().push(
                BackendCall::Transaction {
                    transaction: Transaction {
                        queries: texts(queries@),
                        id: entry.id,
                        checksum: entry.checksum@,
                        direction: action,
                    },
                    result: r,
                },
            ),
    ;

    /// Creates the changelog table if it does not exist yet: runs
    /// `CHANGELOG_TABLE_CREATION_QUERY`, and ends as that run ends.
    fn init(&mut self) -> (r: Result<(), String>)
        ensures
            old(self).keeps_log() ==> final(self).keeps_log() && final(self).log() == old(self).log().push(
                BackendCall::Execute { query: Self::CHANGELOG_TABLE_CREATION_QUERY@, result: r },
            ),
    {
        broadcast use vstd::string::to_string_from_display_ensures_for_str;

        self.execute(Self::CHANGELOG_TABLE_CREATION_QUERY.to_string())
    }
}

/// `r` is what a backend call that returned `res` ends with: success, or
/// `Error::Backend` with the backend's own message.
pub open spec fn passes_on(res: Result<(), String>, r: Result<(), Error>) -> bool {
    match res {
        Ok(()) => r is Ok,
        Err(message) => r == Err::<(), Error>(Error::Backend { message }),
    }
}

/// The transaction that applies `m`.
pub open spec fn up_transaction(m: Migration) -> Transaction {
    Transaction {
        queries: migration_queries(m, Direction::Up),
        id: m.id,
        checksum: checksum_of(m),
        direction: Direction::Up,
    }
}

/// The transaction that rolls back `m`, recorded in the changelog as `e`.
pub open spec fn down_transaction(m: Migration, e: MigrationEntry) -> Transaction {
    Transaction {
        queries: migration_queries(m, Direction::Down),
        id: e.id,
        checksum: e.checksum@,
        direction: Direction::Down,
    }
}

/// The index of the first migration of `ms` from `i` on that the changelog
/// `db` records (with another checksum, for a planned one), or the length of
/// `ms` if there is none.
pub open spec fn first_recorded_from(ms: Seq<Migration>, db: Seq<MigrationEntry>, i: int) -> int
    decreases ms.len() - i,
{
    if i < 0 || i >= ms.len() {
        ms.len() as int
    } else if find_entry(db, ms[i].id) is Some {
        i
    } else {
        first_recorded_from(ms, db, i + 1)
    }
}

/// `init` made the backend calls `calls` and ended with `r`: it ran the
/// query `creation`, and ended as that run ended.
pub open spec fn init_outcome(creation: Seq<char>, calls: Seq<BackendCall>, r: Result<(), Error>) -> bool {
    &&& calls.len() == 1
    &&& calls[0] is Execute
    &&& calls[0]->query == creation
    &&& passes_on(calls[0]->Execute_result, r)
}

/// Applying the migrations `disk` against the changelog `db` made the
/// backend calls `calls` and ended with `r`: the pending migrations are
/// applied in order, one transaction each, until the first diverged one
/// (which gives `Error::Diverged`) or the first failed transaction (whose
/// message `Error::Backend` carries).
pub open spec fn up_outcome(
    disk: Seq<Migration>,
    db: Seq<MigrationEntry>,
    calls: Seq<BackendCall>,
    r: Result<(), Error>,
) -> bool {
    let ms = planned(disk, db);
    let n = first_recorded_from(ms, db, 0);
    &&& calls.len() <= n
    &&& forall|i: int|
        0 <= i < calls.len() ==> {
            &&& (#[trigger] calls[i]) is Transaction
            &&& calls[i]->transaction == up_transaction(ms[i])
            &&& i < calls.len() - 1 ==> calls[i]->Transaction_result is Ok
        }
    &&& if calls.len() > 0 && calls.last()->Transaction_result is Err {
        passes_on(calls.last()->Transaction_result, r)
    } else {
        &&& calls.len() == n
        &&& n == ms.len() ==> r is Ok
        &&& n < ms.len() ==> match r {
            Err(Error::Diverged { id, checksum, old_checksum }) => {
                &&& id == ms[n].id
                &&& checksum@ == checksum_of(ms[n])
                &&& find_entry(db, ms[n].id) is Some
                &&& old_checksum@ == find_entry(db, ms[n].id).unwrap().checksum@
            },
            _ => false,
        }
    }
}

/// `migrate(disk)` made the backend calls `calls` and ended with `r`: it
/// read the changelog (a failed read ends it with the backend's message);
/// then, if a migration of `disk` has a SQL file, it ended with
/// `Error::NoChecksum` for the first such, and otherwise it went on as
/// `up_outcome` says.
pub open spec fn migrate_outcome(disk: Seq<Migration>, calls: Seq<BackendCall>, r: Result<(), Error>) -> bool {
    &&& calls.len() >= 1
    &&& calls[0] is ReadChangelog
    &&& match calls[0]->entries {
        Err(message) => calls.len() == 1 && r == Err::<(), Error>(Error::Backend { message }),
        Ok(db) => if all_checksummable(disk) {
            up_outcome(disk, db, calls.drop_first(), r)
        } else {
            &&& calls.len() == 1
            &&& r == Err::<(), Error>(
                Error::NoChecksum { id: disk[first_unchecksummable_from(disk, 0)].id },
            )
        },
    }
}

/// Rolling back against the changelog `db` with the migrations `disk` made
/// the backend calls `calls` and ended with `r`: the migration of the last
/// changelog entry is rolled back in one transaction if its checksum is
/// unchanged; nothing is done if there is no such migration.
pub open spec fn down_outcome(
    disk: Seq<Migration>,
    db: Seq<MigrationEntry>,
    calls: Seq<BackendCall>,
    r: Result<(), Error>,
) -> bool {
    match rollback_target(disk, db) {
        None => calls.len() == 0 && r is Ok,
        Some(m) => {
            let e = db.last();
            if !checksummable(m) {
                &&& calls.len() == 0
                &&& r == Err::<(), Error>(Error::NoChecksum { id: m.id })
            } else if e.checksum@ == checksum_of(m) {
                &&& calls.len() == 1
                &&& calls[0] is Transaction
                &&& calls[0]->transaction == down_transaction(m, e)
                &&& passes_on(calls[0]->Transaction_result, r)
            } else {
                &&& calls.len() == 0
                &&& match r {
                    Err(Error::Diverged { id, checksum, old_checksum }) => {
                        &&& id == e.id
                        &&& checksum@ == checksum_of(m)
                        &&& old_checksum@ == e.checksum@
                    },
                    _ => false,
                }
            }
        },
    }
}

/// `rollback(disk)` made the backend calls `calls` and ended with `r`: it
/// read the changelog (a failed read ends it with the backend's message),
/// then went on as `down_outcome` says.
pub open spec fn rollback_outcome(disk: Seq<Migration>, calls: Seq<BackendCall>, r: Result<(), Error>) -> bool {
    &&& calls.len() >= 1
    &&& calls[0] is ReadChangelog
    &&& match calls[0]->entries {
        Err(message) => calls.len() == 1 && r == Err::<(), Error>(Error::Backend { message }),
        Ok(db) => down_outcome(disk, db, calls.drop_first(), r),
    }
}

/// A successful transaction applying each of the first `k` migrations of `ms`.
pub open spec fn applied_calls(ms: Seq<Migration>, k: int) -> Seq<BackendCall> {
    Seq::new(
        k as nat,
        |j: int| BackendCall::Transaction { transaction: up_transaction(ms[j]), result: Ok(()) },
    )
}

/// The index that `first_recorded_from` finds is not before `i`.
proof fn lemma_first_recorded_from(ms: Seq<Migration>, db: Seq<MigrationEntry>, i: int)
    requires
        0 <= i <= ms.len(),
    ensures
        i <= first_recorded_from(ms, db, i) <= ms.len(),
    decreases ms.len() - i,
{
    if i < ms.len() && find_entry(db, ms[i].id) is None {
        lemma_first_recorded_from(ms, db, i + 1);
    }
}

/// A transaction of pending migration `k` that fails with `res` after the
/// `k` before it succeeded ends `migrate` as `up_outcome` says.
proof fn lemma_up_failed(
    disk: Seq<Migration>,
    db: Seq<MigrationEntry>,
    k: int,
    res: Result<(), String>,
    r: Result<(), Error>,
)
    requires
        0 <= k < planned(disk, db).len(),
        first_recorded_from(planned(disk, db), db, 0) == first_recorded_from(planned(disk, db), db, k),
        find_entry(db, planned(disk, db)[k].id) is None,
        res is Err,
        passes_on(res, r),
    ensures
        up_outcome(
            disk,
            db,
            applied_calls(planned(disk, db), k).push(
                BackendCall::Transaction { transaction: up_transaction(planned(disk, db)[k]), result: res },
            ),
            r,
        ),
{
    let ms = planned(disk, db);
    let tail = applied_calls(ms, k).push(
        BackendCall::Transaction { transaction: up_transaction(ms[k]), result: res },
    );
    lemma_first_recorded_from(ms, db, k + 1);
    assert(first_recorded_from(ms, db, k) == first_recorded_from(ms, db, k + 1));
    assert forall|i: int| 0 <= i < tail.len() implies {
        &&& (#[trigger] tail[i]) is Transaction
        &&& tail[i]->transaction == up_transaction(ms[i])
        &&& i < tail.len() - 1 ==> tail[i]->Transaction_result is Ok
    } by {
        if i < k {
            assert(tail[i] == applied_calls(ms, k)[i]);
        }
    }
}

/// Reaching diverged migration `k` after applying the `k` before it ends
/// `migrate` as `up_outcome` says.
proof fn lemma_up_diverged(disk: Seq<Migration>, db: Seq<MigrationEntry>, k: int, r: Result<(), Error>)
    requires
        0 <= k < planned(disk, db).len(),
        first_recorded_from(planned(disk, db), db, 0) == first_recorded_from(planned(disk, db), db, k),
        find_entry(db, planned(disk, db)[k].id) is Some,
        match r {
            Err(Error::Diverged { id, checksum, old_checksum }) => {
                &&& id == planned(disk, db)[k].id
                &&& checksum@ == checksum_of(planned(disk, db)[k])
                &&& old_checksum@ == find_entry(db, planned(disk, db)[k].id).unwrap().checksum@
            },
            _ => false,
        },
    ensures
        up_outcome(disk, db, applied_calls(planned(disk, db), k), r),
{
    let ms = planned(disk, db);
    assert(first_recorded_from(ms, db, k) == k);
    if k > 0 {
        assert(applied_calls(ms, k).last() == applied_calls(ms, k)[k - 1]);
    }
}

/// Applying every planned migration ends `migrate` as `up_outcome` says.
proof fn lemma_up_done(disk: Seq<Migration>, db: Seq<MigrationEntry>)
    requires
        first_recorded_from(planned(disk, db), db, 0) == first_recorded_from(
            planned(disk, db),
            db,
            planned(disk, db).len() as int,
        ),
    ensures
        up_outcome(disk, db, applied_calls(planned(disk, db), planned(disk, db).len() as int), Ok(())),
{
    let ms = planned(disk, db);
    let k = ms.len() as int;
    if k > 0 {
        assert(applied_calls(ms, k).last() == applied_calls(ms, k)[k - 1]);
    }
}

/// The calls `c0`, then `first`, then `tail` are, after `c0`, the calls
/// `seq![first] + tail`.
pub(crate) proof fn lemma_after(c0: Seq<BackendCall>, calls: Seq<BackendCall>, first: BackendCall, tail: Seq<BackendCall>)
    requires
        calls == c0.push(first) + tail,
    ensures
        calls.len() > c0.len(),
        calls.take(c0.len() as int) == c0,
        calls.skip(c0.len() as int)[0] == first,
        calls.skip(c0.len() as int).drop_first() == tail,
{
    assert(calls.take(c0.len() as int) =~= c0);
    assert(calls.skip(c0.len() as int).drop_first() =~= tail);
}

/// Applies and rolls back migrations through a backend.
pub struct Executor<T: Backend> {
    backend: T,
}

impl<T: Backend> Executor<T> {
    /// The backend.
    pub closed spec fn backend(self) -> T {
        self.backend
    }

    /// An executor over `backend`.
    pub fn new(backend: T) -> (e: Self)
        ensures
            e.backend() == backend,
    {
        Self { backend }
    }

    /// Makes sure that the changelog table exists: runs the backend's
    /// `init`, and ends as it ends.
    pub fn init(&mut self) -> (r: Result<(), Error>)
        ensures
            old(self).backend().keeps_log() ==> {
                &&& final(self).backend().keeps_log()
                &&& final(self).backend().log().len() == old(self).backend().log().len() + 1
                &&& final(self).backend().log().take(old(self).backend().log().len() as int)
                    == old(self).backend().log()
                &&& init_outcome(
                    T::CHANGELOG_TABLE_CREATION_QUERY@,
                    final(self).backend().log().skip(old(self).backend().log().len() as int),
                    r,
                )
            },
    {
        let ghost c0 = self.backend.log();
        let res = self.backend.init();
        let r = match res {
            Ok(()) => Ok(()),
            Err(message) => Err(Error::Backend { message }),
        };
        proof {
            if old(self).backend.keeps_log() {
                lemma_after(c0, self.backend.log(), self.backend.log().last(), seq![]);
                assert(self.backend.log() =~= c0.push(self.backend.log().last()) + seq![]);
            }
        }
        r
    }

    /// Runs `queries` with the changelog update for `entry` in direction `d`.
    fn run_transaction(&mut self, queries: Vec<String>, entry: MigrationEntry, d: Direction) -> (r:
        Result<(), Error>)
        ensures
            old(self).backend().keeps_log() ==> {
                &&& final(self).backend().keeps_log()
                &&& final(self).backend().log() == old(self).backend().log().push(
                    final(self).backend().log().last(),
                )
                &&& final(self).backend().log().last() is Transaction
                &&& final(self).backend().log().last()->transaction == (Transaction {
                    queries: texts(queries@),
                    id: entry.id,
                    checksum: entry.checksum@,
                    direction: d,
                })
                &&& passes_on(final(self).backend().log().last()->Transaction_result, r)
            },
    {
        let res = self.backend.in_transaction(queries, entry, d);
        match res {
            Ok(()) => Ok(()),
            Err(message) => Err(Error::Backend { message }),
        }
    }

    /// Applies `migration`, recording `checksum` in the changelog.
    fn apply(&mut self, migration: Migration, checksum: String) -> (r: Result<(), Error>)
        ensures
            old(self).backend().keeps_log() ==> {
                &&& final(self).backend().keeps_log()
                &&& final(self).backend().log() == old(self).backend().log().push(
                    final(self).backend().log().last(),
                )
                &&& final(self).backend().log().last() is Transaction
                &&& final(self).backend().log().last()->transaction == (Transaction {
                    queries: migration_queries(migration, Direction::Up),
                    id: migration.id,
                    checksum: checksum@,
                    direction: Direction::Up,
                })
                &&& passes_on(final(self).backend().log().last()->Transaction_result, r)
            },
    {
        let queries = QueryIter::new(&migration, Direction::Up).collect_queries();
        let entry = MigrationEntry { id: migration.id, checksum };
        self.run_transaction(queries, entry, Direction::Up)
    }

    /// Rolls back `migration`, removing `entry` from the changelog.
    fn apply_down(&mut self, migration: Migration, entry: MigrationEntry) -> (r: Result<(), Error>)
        ensures
            old(self).backend().keeps_log() ==> {
                &&& final(self).backend().keeps_log()
                &&& final(self).backend().log() == old(self).backend().log().push(
                    final(self).backend().log().last(),
                )
                &&& final(self).backend().log().last() is Transaction
                &&& final(self).backend().log().last()->transaction == down_transaction(migration, entry)
                &&& passes_on(final(self).backend().log().last()->Transaction_result, r)
            },
    {
        let queries = QueryIter::new(&migration, Direction::Down).collect_queries();
        self.run_transaction(queries, entry, Direction::Down)
    }

    /// Carries out the up-plans `plans` of `disk` against the changelog `db`.
    fn apply_plans(
        &mut self,
        plans: Vec<MigrationPlan>,
        Ghost(disk): Ghost<Seq<Migration>>,
        Ghost(db): Ghost<Seq<MigrationEntry>>,
    ) -> (r: Result<(), Error>)
        requires
            planner::up_plans_are(plans@, disk, db),
        ensures
            old(self).backend().keeps_log() ==> {
                &&& final(self).backend().keeps_log()
                &&& final(self).backend().log().len() >= old(self).backend().log().len()
                &&& final(self).backend().log().take(old(self).backend().log().len() as int)
                    == old(self).backend().log()
                &&& up_outcome(
                    disk,
                    db,
                    final(self).backend().log().skip(old(self).backend().log().len() as int),
                    r,
                )
            },
    {
        let ghost keeps = self.backend.keeps_log();
        let ghost c1 = self.backend.log();
        let ghost ms = planned(disk, db);
        let ghost all_plans = plans@;
        proof {
            lemma_first_recorded_from(ms, db, 0);
        }
        for p in it: plans
            invariant
                it.seq() == all_plans,
                planner::up_plans_are(all_plans, disk, db),
                ms == planned(disk, db),
                keeps == old(self).backend().keeps_log(),
                c1 == old(self).backend().log(),
                keeps ==> self.backend.keeps_log() && self.backend.log() == c1 + applied_calls(
                    ms,
                    it.index() as int,
                ),
                first_recorded_from(ms, db, 0) == first_recorded_from(ms, db, it.index() as int),
        {
            let ghost k = it.index() as int;
            assert(all_plans[k] == p);
            match p {
                MigrationPlan::Pending { checksum, migration } => {
                    assert(find_entry(db, ms[k].id) is None);
                    let ghost before = self.backend.log();
                    let res = self.apply(migration, checksum);
                    match res {
                        Ok(()) => {
                            proof {
                                if keeps {
                                    let last = self.backend.log().last();
                                    assert(last->Transaction_result->Ok_0 == ());
                                    assert(last->Transaction_result == Ok::<(), String>(()));
                                    assert(self.backend.log().last() == (BackendCall::Transaction {
                                        transaction: up_transaction(ms[k]),
                                        result: Ok(()),
                                    }));
                                    assert(applied_calls(ms, k + 1) =~= applied_calls(ms, k).push(
                                        BackendCall::Transaction { transaction: up_transaction(ms[k]), result: Ok(()) },
                                    ));
                                    assert(self.backend.log() =~= c1 + applied_calls(ms, k + 1));
                                }
                            }
                            assert(first_recorded_from(ms, db, k) == first_recorded_from(ms, db, k + 1));
                        },
                        Err(e) => {
                            proof {
                                if keeps {
                                    let last = self.backend.log().last();
                                    let tail = applied_calls(ms, k).push(last);
                                    assert(last == BackendCall::Transaction {
                                        transaction: up_transaction(ms[k]),
                                        result: last->Transaction_result,
                                    });
                                    lemma_up_failed(disk, db, k, last->Transaction_result, Err(e));
                                    assert(self.backend.log() =~= c1 + tail);
                                    assert(self.backend.log().take(c1.len() as int) =~= c1);
                                    assert(self.backend.log().skip(c1.len() as int) =~= tail);
                                }
                            }
                            return Err(e);
                        },
                    }
                },
                MigrationPlan::Diverged { checksum, migration, entry } => {
                    proof {
                        planner::lemma_entry_index_from(db, ms[k].id, 0);
                    }
                    let r = Err(Error::Diverged { id: entry.id, checksum, old_checksum: entry.checksum });
                    proof {
                        lemma_up_diverged(disk, db, k, r);
                        if keeps {
                            assert(self.backend.log().take(c1.len() as int) =~= c1);
                            assert(self.backend.log().skip(c1.len() as int) =~= applied_calls(ms, k));
                        }
                    }
                    return r;
                },
            }
        }
        proof {
            lemma_up_done(disk, db);
            if keeps {
                assert(self.backend.log().take(c1.len() as int) =~= c1);
                assert(self.backend.log().skip(c1.len() as int) =~= applied_calls(ms, ms.len() as int));
            }
        }
        Ok(())
    }

    /// Applies, in order, the migrations read from disk that the changelog
    /// does not record, stopping at the first one whose checksum differs from
    /// the recorded one (`Error::Diverged`) or the first failure of the
    /// backend (`Error::Backend`, with the backend's message). Nothing is
    /// applied when a migration has a SQL file (`Error::NoChecksum`).
    pub fn migrate(&mut self, disk_migrations: Vec<Migration>) -> (r: Result<(), Error>)
        ensures
            old(self).backend().keeps_log() ==> {
                &&& final(self).backend().keeps_log()
                &&& final(self).backend().log().len() > old(self).backend().log().len()
                &&& final(self).backend().log().take(old(self).backend().log().len() as int)
                    == old(self).backend().log()
                &&& migrate_outcome(
                    disk_migrations@,
                    final(self).backend().log().skip(old(self).backend().log().len() as int),
                    r,
                )
            },
    {
        let ghost c0 = self.backend.log();
        let ghost disk = disk_migrations@;
        let db_migrations = match self.backend.db_migrations() {
            Ok(v) => v,
            Err(message) => {
                proof {
                    if old(self).backend.keeps_log() {
                        lemma_after(c0, self.backend.log(), self.backend.log().last(), seq![]);
                        assert(self.backend.log() =~= c0.push(self.backend.log().last()) + seq![]);
                    }
                }
                return Err(Error::Backend { message });
            },
        };
        let ghost db = db_migrations@;
        let ghost c1 = self.backend.log();
        if let Some(k) = first_without_checksum(&disk_migrations) {
            let r = Err(Error::NoChecksum { id: disk_migrations[k].id });
            proof {
                if old(self).backend.keeps_log() {
                    lemma_after(c0, self.backend.log(), BackendCall::ReadChangelog { entries: Ok(db) }, seq![]);
                    assert(self.backend.log() =~= c0.push(BackendCall::ReadChangelog { entries: Ok(db) }) + seq![]);
                }
            }
            return r;
        }
        let plans = plan_up(disk_migrations, db_migrations);
        let r = self.apply_plans(plans, Ghost(disk), Ghost(db));
        proof {
            if old(self).backend.keeps_log() {
                let tail = self.backend.log().skip(c1.len() as int);
                assert(self.backend.log() =~= self.backend.log().take(c1.len() as int) + tail);
                assert(c1 == c0.push(BackendCall::ReadChangelog { entries: Ok(db) }));
                lemma_after(c0, self.backend.log(), BackendCall::ReadChangelog { entries: Ok(db) }, tail);
            }
        }
        r
    }

    /// Rolls back the last applied migration: the one on disk whose id is
    /// that of the last changelog entry. Nothing is done when the changelog
    /// is empty or no migration on disk has that id; `Error::NoChecksum` when
    /// that migration has a SQL file; `Error::Diverged` when its checksum
    /// differs from the recorded one.
    pub fn rollback(&mut self, disk_migrations: Vec<Migration>) -> (r: Result<(), Error>)
        ensures
            old(self).backend().keeps_log() ==> {
                &&& final(self).backend().keeps_log()
                &&& final(self).backend().log().len() > old(self).backend().log().len()
                &&& final(self).backend().log().take(old(self).backend().log().len() as int)
                    == old(self).backend().log()
                &&& rollback_outcome(
                    disk_migrations@,
                    final(self).backend().log().skip(old(self).backend().log().len() as int),
                    r,
                )
            },
    {
        let ghost c0 = self.backend.log();
        let ghost disk = disk_migrations@;
        let db_migrations = match self.backend.db_migrations() {
            Ok(v) => v,
            Err(message) => {
                proof {
                    if old(self).backend.keeps_log() {
                        lemma_after(c0, self.backend.log(), self.backend.log().last(), seq![]);
                        assert(self.backend.log() =~= c0.push(self.backend.log().last()) + seq![]);
                    }
                }
                return Err(Error::Backend { message });
            },
        };
        let ghost db = db_migrations@;
        let ghost c1 = self.backend.log();
        proof {
            if db.len() > 0 {
                planner::lemma_migration_index_from(disk, db.last().id, 0);
            }
        }
        let n = db_migrations.len();
        if n > 0 {
            if let Some(i) = planner::find_migration_index(&disk_migrations, db_migrations[n - 1].id) {
                if has_sql_file(&disk_migrations[i]) {
                    let r = Err(Error::NoChecksum { id: disk_migrations[i].id });
                    proof {
                        if old(self).backend.keeps_log() {
                            lemma_after(c0, self.backend.log(), BackendCall::ReadChangelog { entries: Ok(db) }, seq![]);
                            assert(self.backend.log() =~= c0.push(BackendCall::ReadChangelog { entries: Ok(db) }) + seq![]);
                        }
                    }
                    return r;
                }
            }
        }
        let plan = plan_down(disk_migrations, db_migrations);
        let r = match plan {
            None => Ok(()),
            Some(RollbackPlan::Pending { migration, entry }) => self.apply_down(migration, entry),
            Some(RollbackPlan::Diverged { checksum, entry, .. }) => Err(
                Error::Diverged { id: entry.id, checksum, old_checksum: entry.checksum },
            ),
        };
        proof {
            if old(self).backend.keeps_log() {
                assert(c1 == c0.push(BackendCall::ReadChangelog { entries: Ok(db) }));
                assert(self.backend.log().len() >= c1.len());
                assert(self.backend.log().take(c1.len() as int) =~= c1);
                let tail = self.backend.log().skip(c1.len() as int);
                assert(self.backend.log() =~= c1 + tail);
                lemma_after(c0, self.backend.log(), BackendCall::ReadChangelog { entries: Ok(db) }, tail);
            }
        }
        r
    }
}

/// The planned migrations of distinct migrations are distinct.
proof fn lemma_planned_distinct(disk: Seq<Migration>, db: Seq<MigrationEntry>)
    requires
        distinct_ids(disk),
    ensures
        distinct_ids(planned(disk, db)),
    decreases disk.len(),
{
    if disk.len() > 0 {
        let front = disk.drop_last();
        assert(distinct_ids(front)) by {
            assert forall|a: int, b: int| 0 <= a < front.len() && 0 <= b < front.len() && a != b implies #[trigger] front[a].id
                != #[trigger] front[b].id by {
                assert(front[a] == disk[a]);
                assert(front[b] == disk[b]);
            }
        }
        lemma_planned_distinct(front, db);
        planner::lemma_unrecorded_planned(front, db);
        let p = planned(front, db);
        if !up_to_date(disk.last(), db) {
            assert forall|a: int| 0 <= a < p.len() implies #[trigger] p[a].id != disk.last().id by {
                assert(p.contains(p[a]));
                assert(front.contains(p[a]));
                let k = choose|k: int| 0 <= k < front.len() && front[k] == p[a];
                assert(disk[k] == front[k]);
                assert(disk[disk.len() - 1] == disk.last());
            }
            let q = p.push(disk.last());
            assert forall|a: int, b: int| 0 <= a < q.len() && 0 <= b < q.len() && a != b implies #[trigger] q[a].id
                != #[trigger] q[b].id by {
                if a < p.len() && b < p.len() {
                    assert(q[a] == p[a] && q[b] == p[b]);
                } else if a < p.len() {
                    assert(q[a] == p[a]);
                } else if b < p.len() {
                    assert(q[b] == p[b]);
                }
            }
        }
    }
}

/// From the index that `first_recorded_from` finds being the end, no
/// migration from `i` on is recorded.
proof fn lemma_none_recorded(ms: Seq<Migration>, db: Seq<MigrationEntry>, i: int, j: int)
    requires
        0 <= i <= j < ms.len(),
        first_recorded_from(ms, db, i) == ms.len(),
    ensures
        find_entry(db, ms[j].id) is None,
    decreases j - i,
{
    if i < j {
        lemma_none_recorded(ms, db, i + 1, j);
    }
}

/// Migrating again applies nothing: when `migrate` of the migrations `disk`
/// (of distinct ids) against the changelog `db` succeeded with the
/// transactions `calls`, and the changelog then got one entry per
/// transaction, with its id and checksum, there is nothing left to plan.
pub proof fn lemma_migrate_again_plans_nothing(
    disk: Seq<Migration>,
    db: Seq<MigrationEntry>,
    calls: Seq<BackendCall>,
    extra: Seq<MigrationEntry>,
)
    requires
        distinct_ids(disk),
        up_outcome(disk, db, calls, Ok(())),
        extra.len() == calls.len(),
        forall|i: int|
            0 <= i < extra.len() ==> (#[trigger] extra[i]).id == calls[i]->transaction.id
                && extra[i].checksum@ == calls[i]->transaction.checksum,
    ensures
        planned(disk, db + extra) == Seq::<Migration>::empty(),
{
    let ms = planned(disk, db);
    lemma_first_recorded_from(ms, db, 0);
    lemma_planned_distinct(disk, db);
    planner::lemma_unrecorded_planned(disk, db);
    assert(calls.len() == ms.len());
    assert forall|a: int, b: int| 0 <= a < extra.len() && 0 <= b < extra.len() && a != b implies #[trigger] extra[a].id
        != #[trigger] extra[b].id by {
        assert(calls[a]->transaction == up_transaction(ms[a]));
        assert(calls[b]->transaction == up_transaction(ms[b]));
    }
    assert forall|i: int| 0 <= i < disk.len() implies up_to_date(#[trigger] disk[i], db + extra) by {
        let m = disk[i];
        planner::lemma_find_entry_concat(db, extra, m.id);
        if find_entry(db, m.id) is None {
            assert(planned(disk, db).contains(m));
            let j = choose|j: int| 0 <= j < ms.len() && ms[j] == m;
            assert(calls[j]->transaction == up_transaction(ms[j]));
            lemma_first_entry_at(extra, j, 0);
            planner::lemma_entry_index_from(extra, m.id, 0);
        } else if !up_to_date(m, db) {
            assert(planned(disk, db).contains(m));
            let j = choose|j: int| 0 <= j < ms.len() && ms[j] == m;
            lemma_none_recorded(ms, db, 0, j);
        }
    }
    planner::lemma_recorded_not_replanned(disk, db + extra);
}

/// The changelog `db` without its entries of id `id`.
pub open spec fn without_id(db: Seq<MigrationEntry>, id: i64) -> Seq<MigrationEntry>
    decreases db.len(),
{
    if db.len() == 0 {
        seq![]
    } else if db.last().id == id {
        without_id(db.drop_last(), id)
    } else {
        without_id(db.drop_last(), id).push(db.last())
    }
}

/// A changelog with no entry of id `id` loses nothing when those are
/// removed.
proof fn lemma_without_absent_id(db: Seq<MigrationEntry>, id: i64)
    requires
        forall|j: int| 0 <= j < db.len() ==> (#[trigger] db[j]).id != id,
    ensures
        without_id(db, id) == db,
    decreases db.len(),
{
    if db.len() > 0 {
        assert(db.last() == db[db.len() - 1]);
        assert forall|j: int| 0 <= j < db.drop_last().len() implies (#[trigger] db.drop_last()[j]).id != id by {
            assert(db.drop_last()[j] == db[j]);
        }
        lemma_without_absent_id(db.drop_last(), id);
        assert(db =~= db.drop_last().push(db.last()));
    }
}

/// Rolling back right after migrating undoes the migration: when the
/// changelog is `db` followed by the entry `e` that applying `m` recorded
/// (its id and checksum), `m` is the first migration on disk with its id and
/// has a checksum, and `db` has no entry of that id, the rollback makes one
/// transaction, which runs the down queries of `m` and removes the entries
/// of id `e.id`; removing them gives back `db`.
pub proof fn lemma_rollback_after_migrate(
    disk: Seq<Migration>,
    db: Seq<MigrationEntry>,
    m: Migration,
    e: MigrationEntry,
    calls: Seq<BackendCall>,
    r: Result<(), Error>,
)
    requires
        find_migration(disk, m.id) == Some(m),
        checksummable(m),
        e.id == m.id,
        e.checksum@ == checksum_of(m),
        forall|j: int| 0 <= j < db.len() ==> (#[trigger] db[j]).id != e.id,
        down_outcome(disk, db.push(e), calls, r),
    ensures
        calls.len() == 1,
        calls[0] is Transaction,
        calls[0]->transaction == down_transaction(m, e),
        calls[0]->transaction.direction == Direction::Down,
        passes_on(calls[0]->Transaction_result, r),
        without_id(db.push(e), e.id) == db,
{
    planner::lemma_rollback_targets_last_applied(disk, db, m, e);
    assert(db.push(e).drop_last() =~= db);
    lemma_without_absent_id(db, e.id);
}

/// The transaction that applies a migration without SQL files runs the up
/// queries of every change set, change set by change set in order.
pub proof fn lemma_up_transaction_runs_every_up_query(m: Migration)
    requires
        forall|j: int| 0 <= j < m.changes@.len() ==> !query_iter::is_sql_file_at(m.changes@, Direction::Up, j),
    ensures
        up_transaction(m).queries == Seq::new(
            m.changes@.len(),
            |j: int| query_iter::change_query_texts(Some(m.changes@[j].up)),
        ).flatten(),
{
    query_iter::lemma_walk_is_concatenation(m, Direction::Up, m.changes@.len() as int);
    assert(Seq::new(
        m.changes@.len(),
        |j: int| query_iter::change_query_texts(query_iter::directed(m.changes@[j], Direction::Up)),
    ) =~= Seq::new(m.changes@.len(), |j: int| query_iter::change_query_texts(Some(m.changes@[j].up))));
}

} // verus!
