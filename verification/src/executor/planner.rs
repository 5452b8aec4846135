//! Deciding which migrations to apply or roll back.

use vstd::prelude::*;

use super::checksum::{self, all_checksummable, checksum_of, checksummable};
use super::MigrationEntry;
use crate::migrations::Migration;

verus! {

/// What to do with a migration on the way up.
pub enum MigrationPlan {
    /// Not applied yet: apply it and record `checksum`.
    Pending { checksum: String, migration: Migration },
    /// Applied, but its checksum is now `checksum`, not the one in `entry`.
    Diverged { checksum: String, migration: Migration, entry: MigrationEntry },
}

/// What to do with the last applied migration on the way down.
pub enum RollbackPlan {
    /// Unchanged since it was applied: undo it and remove `entry`.
    Pending { migration: Migration, entry: MigrationEntry },
    /// Its checksum is now `checksum`, not the one in `entry`.
    Diverged { checksum: String, migration: Migration, entry: MigrationEntry },
}

/// The index of the first changelog entry from `i` on with id `id`, if any.
pub open spec fn entry_index_from(db: Seq<MigrationEntry>, id: i64, i: int) -> Option<int>
    decreases db.len() - i,
{
    if i < 0 || i >= db.len() {
        None
    } else if db[i].id == id {
        Some(i)
    } else {
        entry_index_from(db, id, i + 1)
    }
}

/// The first changelog entry with id `id`, if any.
pub open spec fn find_entry(db: Seq<MigrationEntry>, id: i64) -> Option<MigrationEntry> {
    match entry_index_from(db, id, 0) {
        Some(i) => Some(db[i]),
        None => None,
    }
}

/// The up-plan for `m` given its changelog entry and its checksum `c`:
/// `None` when it is applied and unchanged.
pub open spec fn up_plan_is(
    p: Option<MigrationPlan>,
    m: Migration,
    entry: Option<MigrationEntry>,
    c: Seq<char>,
) -> bool {
    match entry {
        None => p matches Some(MigrationPlan::Pending { checksum, migration }) && checksum@ == c
            && migration == m,
        Some(e) => if e.checksum@ == c {
            p is None
        } else {
            p matches Some(MigrationPlan::Diverged { checksum, migration, entry }) && checksum@ == c
                && migration == m && entry == e
        },
    }
}

/// `m` needs no plan on the way up: the changelog records it with its
/// current checksum.
pub open spec fn up_to_date(m: Migration, db: Seq<MigrationEntry>) -> bool {
    find_entry(db, m.id) matches Some(e) && e.checksum@ == checksum_of(m)
}

/// The migrations of `disk`, in order, that get a plan on the way up.
pub open spec fn planned(disk: Seq<Migration>, db: Seq<MigrationEntry>) -> Seq<Migration>
    decreases disk.len(),
{
    if disk.len() == 0 {
        seq![]
    } else if up_to_date(disk.last(), db) {
        planned(disk.drop_last(), db)
    } else {
        planned(disk.drop_last(), db).push(disk.last())
    }
}

/// The up-plan that the migration `m`, read from disk, gets against its
/// changelog entry `entry`, given its current checksum `checksum`.
pub fn plan_with_checksum(
    migration: Migration,
    entry: Option<&MigrationEntry>,
    checksum: String,
) -> (p: Option<MigrationPlan>)
    ensures
        up_plan_is(
            p,
            migration,
            match entry {
                Some(e) => Some(*e),
                None => None,
            },
            checksum@,
        ),
{
    match entry {
        Some(entry) => {
            if entry.checksum != checksum {
                Some(MigrationPlan::Diverged { checksum, migration, entry: entry.clone() })
            } else {
                None
            }
        },
        None => Some(MigrationPlan::Pending { checksum, migration }),
    }
}

/// The up-plan of `migration` against its changelog entry, if it has one.
pub fn verify(migration: Migration, entry: Option<&MigrationEntry>) -> (p: Option<MigrationPlan>)
    requires
        checksummable(migration),
    ensures
        up_plan_is(
            p,
            migration,
            match entry {
                Some(e) => Some(*e),
                None => None,
            },
            checksum_of(migration),
        ),
{
    let checksum = checksum::new(&migration);
    plan_with_checksum(migration, entry, checksum)
}

/// Where the first changelog entry with id `id` stands, if any.
fn find_entry_index(db: &Vec<MigrationEntry>, id: i64) -> (r: Option<usize>)
    ensures
        r matches Some(j) ==> j < db@.len() && entry_index_from(db@, id, 0) == Some(j as int),
        r is None ==> entry_index_from(db@, id, 0) is None,
{
    let n = db.len();
    for i in 0..n
        invariant
            n == db@.len(),
            entry_index_from(db@, id, 0) == entry_index_from(db@, id, i as int),
    {
        if db[i].id == id {
            return Some(i);
        }
    }
    None
}

/// `plans` are the up-plans of the migrations in `disk` against the changelog
/// `db`, in order, leaving out those that are applied and unchanged.
pub open spec fn up_plans_are(
    plans: Seq<MigrationPlan>,
    disk: Seq<Migration>,
    db: Seq<MigrationEntry>,
) -> bool {
    let ms = planned(disk, db);
    &&& plans.len() == ms.len()
    &&& forall|i: int|
        0 <= i < plans.len() ==> up_plan_is(
            Some(#[trigger] plans[i]),
            ms[i],
            find_entry(db, ms[i].id),
            checksum_of(ms[i]),
        )
}

/// The plans for applying the migrations read from disk, in their order,
/// against the changelog that the database holds: a pending plan for each
/// migration not in the changelog, a diverged plan for each whose checksum
/// differs from the recorded one, and nothing for the others.
pub fn plan_up(disk_migrations: Vec<Migration>, db_migrations: Vec<MigrationEntry>) -> (plans: Vec<
    MigrationPlan,
>)
    requires
        all_checksummable(disk_migrations@),
    ensures
        up_plans_are(plans@, disk_migrations@, db_migrations@),
{
    let ghost disk = disk_migrations@;
    let mut plans: Vec<MigrationPlan> = Vec::new();
    for m in it: disk_migrations
        invariant
            it.seq() == disk,
            all_checksummable(disk),
            up_plans_are(plans@, disk.take(it.index() as int), db_migrations@),
    {
        let ghost k = it.index() as int;
        assert(disk.take(k + 1).drop_last() == disk.take(k));
        assert(disk[k] == m);
        let entry = match find_entry_index(&db_migrations, m.id) {
            Some(i) => Some(&db_migrations[i]),
            None => None,
        };
        assert(match entry {
            Some(e) => Some(*e),
            None => None,
        } == find_entry(db_migrations@, m.id));
        let ghost prev = plans@;
        let p = verify(m, entry);
        match p {
            Some(p) => {
                plans.push(p);
                assert(!up_to_date(m, db_migrations@));
                assert(planned(disk.take(k + 1), db_migrations@) == planned(disk.take(k), db_migrations@).push(m));
                assert forall|i: int| 0 <= i < plans@.len() implies up_plan_is(
                    Some(#[trigger] plans@[i]),
                    planned(disk.take(k + 1), db_migrations@)[i],
                    find_entry(db_migrations@, planned(disk.take(k + 1), db_migrations@)[i].id),
                    checksum_of(planned(disk.take(k + 1), db_migrations@)[i]),
                ) by {
                    if i < prev.len() {
                        assert(plans@[i] == prev[i]);
                    }
                }
            },
            None => {
                assert(up_to_date(m, db_migrations@));
            },
        }
    }
    assert(disk.take(disk.len() as int) == disk);
    plans
}

/// The index of the first migration from `i` on with id `id`, if any.
pub open spec fn migration_index_from(disk: Seq<Migration>, id: i64, i: int) -> Option<int>
    decreases disk.len() - i,
{
    if i < 0 || i >= disk.len() {
        None
    } else if disk[i].id == id {
        Some(i)
    } else {
        migration_index_from(disk, id, i + 1)
    }
}

/// The first migration with id `id`, if any.
pub open spec fn find_migration(disk: Seq<Migration>, id: i64) -> Option<Migration> {
    match migration_index_from(disk, id, 0) {
        Some(i) => Some(disk[i]),
        None => None,
    }
}

/// `p` is the rollback plan for `m`, recorded as `e`, whose checksum is now `c`.
pub open spec fn down_plan_is(p: RollbackPlan, m: Migration, e: MigrationEntry, c: Seq<char>) -> bool {
    if e.checksum@ == c {
        p matches RollbackPlan::Pending { migration, entry } && migration == m && entry == e
    } else {
        p matches RollbackPlan::Diverged { checksum, migration, entry } && checksum@ == c
            && migration == m && entry == e
    }
}

/// The migration to roll back: the one on disk whose id is that of the last
/// changelog entry, if there is such an entry and such a migration.
pub open spec fn rollback_target(disk: Seq<Migration>, db: Seq<MigrationEntry>) -> Option<Migration> {
    if db.len() == 0 {
        None
    } else {
        find_migration(disk, db.last().id)
    }
}

/// The rollback plan for `migration`, recorded as `entry`, given its current
/// checksum `checksum`.
pub fn rollback_plan_with_checksum(
    migration: Migration,
    entry: &MigrationEntry,
    checksum: String,
) -> (p: RollbackPlan)
    ensures
        down_plan_is(p, migration, *entry, checksum@),
{
    if entry.checksum == checksum {
        RollbackPlan::Pending { migration, entry: entry.clone() }
    } else {
        RollbackPlan::Diverged { checksum, migration, entry: entry.clone() }
    }
}

/// Where the first migration with id `id` stands, if any.
pub(crate) fn find_migration_index(disk: &Vec<Migration>, id: i64) -> (r: Option<usize>)
    ensures
        r matches Some(j) ==> j < disk@.len() && migration_index_from(disk@, id, 0) == Some(j as int),
        r is None ==> migration_index_from(disk@, id, 0) is None,
{
    let n = disk.len();
    for i in 0..n
        invariant
            n == disk@.len(),
            migration_index_from(disk@, id, 0) == migration_index_from(disk@, id, i as int),
    {
        if disk[i].id == id {
            return Some(i);
        }
    }
    None
}

/// The plan for rolling back the last applied migration: the last entry of
/// the changelog, matched with the first migration on disk of the same id.
/// `None` when the changelog is empty or no migration on disk has that id;
/// otherwise a pending plan if the migration's checksum is the recorded one,
/// and a diverged plan if not.
pub fn plan_down(disk_migrations: Vec<Migration>, db_migrations: Vec<MigrationEntry>) -> (plan:
    Option<RollbackPlan>)
    requires
        rollback_target(disk_migrations@, db_migrations@) matches Some(m) ==> checksummable(m),
    ensures
        match rollback_target(disk_migrations@, db_migrations@) {
            None => plan is None,
            Some(m) => plan matches Some(p) && down_plan_is(
                p,
                m,
                db_migrations@.last(),
                checksum_of(m),
            ),
        },
{
    let n = db_migrations.len();
    if n == 0 {
        return None;
    }
    let entry = &db_migrations[n - 1];
    let mut disk_migrations = disk_migrations;
    match find_migration_index(&disk_migrations, entry.id) {
        None => None,
        Some(i) => {
            let migration = disk_migrations.remove(i);
            let checksum = checksum::new(&migration);
            Some(rollback_plan_with_checksum(migration, entry, checksum))
        },
    }
}

/// The first changelog entry from `i` on with id `id` stands at or after `i`
/// and has that id.
pub proof fn lemma_entry_index_from(db: Seq<MigrationEntry>, id: i64, i: int)
    requires
        0 <= i,
    ensures
        entry_index_from(db, id, i) matches Some(j) ==> i <= j < db.len() && db[j].id == id,
    decreases db.len() - i,
{
    if i < db.len() && db[i].id != id {
        lemma_entry_index_from(db, id, i + 1);
    }
}

/// The first migration from `i` on with id `id` stands at or after `i` and
/// has that id.
pub proof fn lemma_migration_index_from(disk: Seq<Migration>, id: i64, i: int)
    requires
        0 <= i,
    ensures
        migration_index_from(disk, id, i) matches Some(j) ==> i <= j < disk.len() && disk[j].id == id,
    decreases disk.len() - i,
{
    if i < disk.len() && disk[i].id != id {
        lemma_migration_index_from(disk, id, i + 1);
    }
}

/// Migrations that the changelog records with their current checksum are
/// never planned again: when it so records every migration on disk, there is
/// nothing to plan on the way up.
pub proof fn lemma_recorded_not_replanned(disk: Seq<Migration>, db: Seq<MigrationEntry>)
    requires
        forall|i: int| 0 <= i < disk.len() ==> up_to_date(#[trigger] disk[i], db),
    ensures
        planned(disk, db) == Seq::<Migration>::empty(),
    decreases disk.len(),
{
    if disk.len() > 0 {
        assert(disk.last() == disk[disk.len() - 1]);
        assert forall|i: int| 0 <= i < disk.drop_last().len() implies up_to_date(
            #[trigger] disk.drop_last()[i],
            db,
        ) by {
            assert(disk.drop_last()[i] == disk[i]);
        }
        lemma_recorded_not_replanned(disk.drop_last(), db);
    }
}

/// Every migration on disk that the changelog does not record unchanged is
/// planned on the way up, and every planned migration comes from disk.
pub proof fn lemma_unrecorded_planned(disk: Seq<Migration>, db: Seq<MigrationEntry>)
    ensures
        forall|i: int|
            0 <= i < disk.len() && !up_to_date(#[trigger] disk[i], db)
                ==> planned(disk, db).contains(disk[i]),
        forall|m: Migration| #[trigger] planned(disk, db).contains(m) ==> disk.contains(m),
    decreases disk.len(),
{
    if disk.len() > 0 {
        let front = disk.drop_last();
        lemma_unrecorded_planned(front, db);
        assert forall|i: int|
            0 <= i < disk.len() && !up_to_date(#[trigger] disk[i], db) implies planned(
            disk,
            db,
        ).contains(disk[i]) by {
            if i < front.len() {
                assert(front[i] == disk[i]);
                assert(planned(front, db).contains(front[i]));
                if !up_to_date(disk.last(), db) {
                    let j = choose|j: int| 0 <= j < planned(front, db).len() && planned(front, db)[j] == front[i];
                    assert(planned(disk, db)[j] == disk[i]);
                }
            } else {
                assert(disk[i] == disk.last());
                assert(planned(disk, db).last() == disk[i]);
            }
        }
        assert forall|m: Migration| #[trigger] planned(disk, db).contains(m) implies disk.contains(m) by {
            let j = choose|j: int| 0 <= j < planned(disk, db).len() && planned(disk, db)[j] == m;
            if j < planned(front, db).len() {
                assert(planned(front, db)[j] == m);
                assert(planned(front, db).contains(m));
                let k = choose|k: int| 0 <= k < front.len() && front[k] == m;
                assert(disk[k] == m);
            } else {
                assert(m == disk.last());
                assert(disk[disk.len() - 1] == m);
            }
        }
    }
}

/// Rolling back right after applying undoes what was applied: once the
/// changelog ends with the entry that applying `m` records (its id and its
/// checksum), the rollback targets `m` (the first migration on disk with its
/// id) and finds it unchanged.
pub proof fn lemma_rollback_targets_last_applied(
    disk: Seq<Migration>,
    db: Seq<MigrationEntry>,
    m: Migration,
    e: MigrationEntry,
)
    requires
        find_migration(disk, m.id) == Some(m),
        e.id == m.id,
        e.checksum@ == checksum_of(m),
    ensures
        rollback_target(disk, db.push(e)) == Some(m),
        db.push(e).last().checksum@ == checksum_of(m),
{
    assert(db.push(e).last() == e);
}

/// The changelog records `m`, but with another checksum.
pub open spec fn is_diverged(m: Migration, db: Seq<MigrationEntry>) -> bool {
    match find_entry(db, m.id) {
        Some(e) => e.checksum@ != checksum_of(m),
        None => false,
    }
}

/// The migrations of `disk`, in order, that the changelog `db` records with
/// another checksum.
pub open spec fn diverged_of(disk: Seq<Migration>, db: Seq<MigrationEntry>) -> Seq<Migration>
    decreases disk.len(),
{
    if disk.len() == 0 {
        seq![]
    } else if is_diverged(disk.last(), db) {
        diverged_of(disk.drop_last(), db).push(disk.last())
    } else {
        diverged_of(disk.drop_last(), db)
    }
}

/// Searching `db + extra` from index `db.len() + k` is searching `extra`
/// from `k`.
proof fn lemma_entry_index_shift(db: Seq<MigrationEntry>, extra: Seq<MigrationEntry>, id: i64, k: int)
    requires
        0 <= k <= extra.len(),
    ensures
        entry_index_from(db + extra, id, db.len() + k) == match entry_index_from(extra, id, k) {
            Some(j) => Some(db.len() + j),
            None => None::<int>,
        },
    decreases extra.len() - k,
{
    if k < extra.len() {
        assert((db + extra)[db.len() + k] == extra[k]);
        lemma_entry_index_shift(db, extra, id, k + 1);
    }
}

/// Searching `db + extra` finds the entry that `db` has, or else the one
/// that `extra` has.
proof fn lemma_entry_index_concat(db: Seq<MigrationEntry>, extra: Seq<MigrationEntry>, id: i64, i: int)
    requires
        0 <= i <= db.len(),
    ensures
        entry_index_from(db + extra, id, i) == match entry_index_from(db, id, i) {
            Some(j) => Some(j),
            None => match entry_index_from(extra, id, 0) {
                Some(j) => Some(db.len() + j),
                None => None::<int>,
            },
        },
    decreases db.len() - i,
{
    if i < db.len() {
        assert((db + extra)[i] == db[i]);
        lemma_entry_index_concat(db, extra, id, i + 1);
    } else {
        lemma_entry_index_shift(db, extra, id, 0);
    }
}

/// The first entry with id `id` in `db + extra` is `db`'s, if it has one,
/// and else `extra`'s.
pub proof fn lemma_find_entry_concat(db: Seq<MigrationEntry>, extra: Seq<MigrationEntry>, id: i64)
    ensures
        find_entry(db + extra, id) == match find_entry(db, id) {
            Some(e) => Some(e),
            None => find_entry(extra, id),
        },
{
    lemma_entry_index_concat(db, extra, id, 0);
    lemma_entry_index_from(db, id, 0);
    lemma_entry_index_from(extra, id, 0);
    if let Some(j) = entry_index_from(db, id, 0) {
        assert((db + extra)[j] == db[j]);
    } else if let Some(j) = entry_index_from(extra, id, 0) {
        assert((db + extra)[db.len() + j] == extra[j]);
    }
}

/// Planning against `db2` leaves out exactly the migrations that are not
/// diverged in `db`, when those are the ones that `db2` records unchanged.
proof fn lemma_planned_is_diverged(disk: Seq<Migration>, db: Seq<MigrationEntry>, db2: Seq<MigrationEntry>)
    requires
        forall|i: int|
            0 <= i < disk.len() ==> (up_to_date(#[trigger] disk[i], db2) <==> !is_diverged(disk[i], db)),
    ensures
        planned(disk, db2) == diverged_of(disk, db),
    decreases disk.len(),
{
    if disk.len() > 0 {
        assert(disk.last() == disk[disk.len() - 1]);
        assert forall|i: int| 0 <= i < disk.drop_last().len() implies (up_to_date(
            #[trigger] disk.drop_last()[i],
            db2,
        ) <==> !is_diverged(disk.drop_last()[i], db)) by {
            assert(disk.drop_last()[i] == disk[i]);
        }
        lemma_planned_is_diverged(disk.drop_last(), db, db2);
    }
}

/// Re-planning after the pending migrations are recorded leaves only the
/// diverged ones: once the changelog `db` is extended with `extra`, whose
/// first entry for each migration that `db` did not record carries that
/// migration's checksum, the plans on the way up are for exactly the
/// migrations that `db` records with another checksum.
pub proof fn lemma_replan_after_recording(
    disk: Seq<Migration>,
    db: Seq<MigrationEntry>,
    extra: Seq<MigrationEntry>,
)
    requires
        forall|i: int|
            0 <= i < disk.len() && find_entry(db, (#[trigger] disk[i]).id) is None ==> (find_entry(
                extra,
                disk[i].id,
            ) is Some && find_entry(extra, disk[i].id).unwrap().checksum@ == checksum_of(disk[i])),
    ensures
        planned(disk, db + extra) == diverged_of(disk, db),
{
    assert forall|i: int| 0 <= i < disk.len() implies (up_to_date(#[trigger] disk[i], db + extra)
        <==> !is_diverged(disk[i], db)) by {
        lemma_find_entry_concat(db, extra, disk[i].id);
    }
    lemma_planned_is_diverged(disk, db, db + extra);
}

/// No two migrations of `s` have the same id.
pub open spec fn distinct_ids(s: Seq<Migration>) -> bool {
    forall|a: int, b: int| 0 <= a < s.len() && 0 <= b < s.len() && a != b ==> #[trigger] s[a].id != #[trigger] s[b].id
}

/// With distinct ids, the first entry with the id of `extra[j]` is at `j`.
pub proof fn lemma_first_entry_at(extra: Seq<MigrationEntry>, j: int, i: int)
    requires
        0 <= i <= j < extra.len(),
        forall|a: int, b: int| 0 <= a < extra.len() && 0 <= b < extra.len() && a != b ==> #[trigger] extra[a].id
            != #[trigger] extra[b].id,
    ensures
        entry_index_from(extra, extra[j].id, i) == Some(j),
    decreases j - i,
{
    if i < j {
        lemma_first_entry_at(extra, j, i + 1);
    }
}

/// The migrations of `disk`, in order, that the changelog `db` does not
/// record.
pub open spec fn pending_of(disk: Seq<Migration>, db: Seq<MigrationEntry>) -> Seq<Migration>
    decreases disk.len(),
{
    if disk.len() == 0 {
        seq![]
    } else if find_entry(db, disk.last().id) is None {
        pending_of(disk.drop_last(), db).push(disk.last())
    } else {
        pending_of(disk.drop_last(), db)
    }
}

/// The migrations of the pending plans of `plans`, in order.
pub open spec fn pending_in(plans: Seq<MigrationPlan>) -> Seq<Migration>
    decreases plans.len(),
{
    if plans.len() == 0 {
        seq![]
    } else {
        match plans.last() {
            MigrationPlan::Pending { migration, .. } => pending_in(plans.drop_last()).push(migration),
            _ => pending_in(plans.drop_last()),
        }
    }
}

/// The migrations of the diverged plans of `plans`, in order.
pub open spec fn diverged_in(plans: Seq<MigrationPlan>) -> Seq<Migration>
    decreases plans.len(),
{
    if plans.len() == 0 {
        seq![]
    } else {
        match plans.last() {
            MigrationPlan::Diverged { migration, .. } => diverged_in(plans.drop_last()).push(migration),
            _ => diverged_in(plans.drop_last()),
        }
    }
}

/// The up-plans of `disk` are pending for the migrations that the changelog
/// does not record and diverged for those it records with another checksum.
pub proof fn lemma_plans_split(plans: Seq<MigrationPlan>, disk: Seq<Migration>, db: Seq<MigrationEntry>)
    requires
        up_plans_are(plans, disk, db),
    ensures
        pending_in(plans) == pending_of(disk, db),
        diverged_in(plans) == diverged_of(disk, db),
    decreases disk.len(),
{
    if disk.len() > 0 {
        let front = disk.drop_last();
        let m = disk.last();
        if up_to_date(m, db) {
            assert(planned(disk, db) == planned(front, db));
            lemma_plans_split(plans, front, db);
        } else {
            let ms = planned(front, db);
            assert(planned(disk, db) == ms.push(m));
            let ps = plans.drop_last();
            assert forall|i: int| 0 <= i < ps.len() implies up_plan_is(
                Some(#[trigger] ps[i]),
                ms[i],
                find_entry(db, ms[i].id),
                checksum_of(ms[i]),
            ) by {
                assert(ps[i] == plans[i]);
                assert(planned(disk, db)[i] == ms[i]);
            }
            lemma_plans_split(ps, front, db);
            assert(plans.last() == plans[plans.len() - 1]);
            assert(planned(disk, db)[plans.len() - 1] == m);
            assert(up_plan_is(Some(plans.last()), m, find_entry(db, m.id), checksum_of(m)));
        }
    }
}

/// Every migration on disk that the changelog does not record is pending,
/// and every pending migration is on disk.
proof fn lemma_pending_of_members(disk: Seq<Migration>, db: Seq<MigrationEntry>)
    ensures
        forall|i: int|
            0 <= i < disk.len() && find_entry(db, (#[trigger] disk[i]).id) is None ==> pending_of(disk, db).contains(
                disk[i],
            ),
        forall|m: Migration| #[trigger] pending_of(disk, db).contains(m) ==> disk.contains(m),
    decreases disk.len(),
{
    if disk.len() > 0 {
        let front = disk.drop_last();
        lemma_pending_of_members(front, db);
        assert forall|i: int|
            0 <= i < disk.len() && find_entry(db, (#[trigger] disk[i]).id) is None implies pending_of(
            disk,
            db,
        ).contains(disk[i]) by {
            if i < front.len() {
                assert(front[i] == disk[i]);
                assert(pending_of(front, db).contains(front[i]));
                let j = choose|j: int| 0 <= j < pending_of(front, db).len() && pending_of(front, db)[j] == front[i];
                if find_entry(db, disk.last().id) is None {
                    assert(pending_of(disk, db)[j] == disk[i]);
                }
            } else {
                assert(disk[i] == disk.last());
                assert(pending_of(disk, db).last() == disk[i]);
            }
        }
        assert forall|m: Migration| #[trigger] pending_of(disk, db).contains(m) implies disk.contains(m) by {
            let j = choose|j: int| 0 <= j < pending_of(disk, db).len() && pending_of(disk, db)[j] == m;
            if j < pending_of(front, db).len() {
                assert(pending_of(front, db)[j] == m);
                assert(pending_of(front, db).contains(m));
                let k = choose|k: int| 0 <= k < front.len() && front[k] == m;
                assert(disk[k] == m);
            } else {
                assert(m == disk.last());
                assert(disk[disk.len() - 1] == m);
            }
        }
    }
}

/// The pending migrations of distinct migrations are distinct.
proof fn lemma_pending_of_distinct(disk: Seq<Migration>, db: Seq<MigrationEntry>)
    requires
        distinct_ids(disk),
    ensures
        distinct_ids(pending_of(disk, db)),
    decreases disk.len(),
{
    if disk.len() > 0 {
        let front = disk.drop_last();
        assert(distinct_ids(front)) by {
            assert forall|a: int, b: int| 0 <= a < front.len() && 0 <= b < front.len() && a != b implies #[trigger] front[a].id
                != #[trigger] front[b].id by {
                assert(front[a] == disk[a]);
                assert(front[b] == disk[b]);
            }
        }
        lemma_pending_of_distinct(front, db);
        lemma_pending_of_members(front, db);
        let p = pending_of(front, db);
        if find_entry(db, disk.last().id) is None {
            assert forall|a: int| 0 <= a < p.len() implies #[trigger] p[a].id != disk.last().id by {
                assert(p.contains(p[a]));
                assert(front.contains(p[a]));
                let k = choose|k: int| 0 <= k < front.len() && front[k] == p[a];
                assert(disk[k] == front[k]);
                assert(disk[disk.len() - 1] == disk.last());
            }
            let q = p.push(disk.last());
            assert forall|a: int, b: int| 0 <= a < q.len() && 0 <= b < q.len() && a != b implies #[trigger] q[a].id
                != #[trigger] q[b].id by {
                if a < p.len() && b < p.len() {
                    assert(q[a] == p[a] && q[b] == p[b]);
                } else if a < p.len() {
                    assert(q[a] == p[a]);
                } else if b < p.len() {
                    assert(q[b] == p[b]);
                }
            }
        }
    }
}

/// Two changelogs that make the same migrations diverged give the same
/// diverged migrations.
proof fn lemma_diverged_of_same(disk: Seq<Migration>, db: Seq<MigrationEntry>, db2: Seq<MigrationEntry>)
    requires
        forall|i: int| 0 <= i < disk.len() ==> (is_diverged(#[trigger] disk[i], db) == is_diverged(disk[i], db2)),
    ensures
        diverged_of(disk, db) == diverged_of(disk, db2),
    decreases disk.len(),
{
    if disk.len() > 0 {
        assert(disk.last() == disk[disk.len() - 1]);
        assert forall|i: int| 0 <= i < disk.drop_last().len() implies (is_diverged(
            #[trigger] disk.drop_last()[i],
            db,
        ) == is_diverged(disk.drop_last()[i], db2)) by {
            assert(disk.drop_last()[i] == disk[i]);
        }
        lemma_diverged_of_same(disk.drop_last(), db, db2);
    }
}

/// Recording the pending migrations leaves nothing to apply: when the
/// migrations on disk have distinct ids, `plans` are their up-plans against
/// `db`, and `db` is extended with `extra`, one entry per pending plan in
/// order with the migration's id and checksum, then the up-plans `replans`
/// against the extended changelog are all diverged, and they are for the
/// migrations of the diverged plans of `plans`, in the same order.
pub proof fn lemma_replan_after_recording_pending(
    disk: Seq<Migration>,
    db: Seq<MigrationEntry>,
    plans: Seq<MigrationPlan>,
    extra: Seq<MigrationEntry>,
    replans: Seq<MigrationPlan>,
)
    requires
        distinct_ids(disk),
        up_plans_are(plans, disk, db),
        extra.len() == pending_in(plans).len(),
        forall|i: int|
            0 <= i < extra.len() ==> (#[trigger] extra[i]).id == pending_in(plans)[i].id
                && extra[i].checksum@ == checksum_of(pending_in(plans)[i]),
        up_plans_are(replans, disk, db + extra),
    ensures
        forall|i: int| 0 <= i < replans.len() ==> (#[trigger] replans[i]) is Diverged,
        diverged_in(replans) == diverged_in(plans),
{
    let db2 = db + extra;
    let pend = pending_of(disk, db);
    lemma_plans_split(plans, disk, db);
    lemma_pending_of_members(disk, db);
    lemma_pending_of_distinct(disk, db);
    assert forall|a: int, b: int| 0 <= a < extra.len() && 0 <= b < extra.len() && a != b implies #[trigger] extra[a].id
        != #[trigger] extra[b].id by {
        assert(pend[a].id != pend[b].id);
    }
    assert forall|i: int| 0 <= i < disk.len() implies (#[trigger] find_entry(db2, disk[i].id)) is Some && (
    find_entry(db, disk[i].id) is None ==> find_entry(db2, disk[i].id).unwrap().checksum@ == checksum_of(
        disk[i],
    )) && is_diverged(disk[i], db) == is_diverged(disk[i], db2) by {
        let m = disk[i];
        lemma_find_entry_concat(db, extra, m.id);
        if find_entry(db, m.id) is None {
            assert(pend.contains(m));
            let j = choose|j: int| 0 <= j < pend.len() && pend[j] == m;
            lemma_first_entry_at(extra, j, 0);
            assert(find_entry(extra, m.id) == Some(extra[j]));
        }
    }
    assert forall|i: int|
        0 <= i < disk.len() && find_entry(db, (#[trigger] disk[i]).id) is None implies (find_entry(
        extra,
        disk[i].id,
    ) is Some && find_entry(extra, disk[i].id).unwrap().checksum@ == checksum_of(disk[i])) by {
        lemma_find_entry_concat(db, extra, disk[i].id);
        assert(find_entry(db2, disk[i].id) is Some);
    }
    lemma_replan_after_recording(disk, db, extra);
    lemma_diverged_of_same(disk, db, db2);
    lemma_plans_split(replans, disk, db2);
    lemma_unrecorded_planned(disk, db2);
    assert forall|i: int| 0 <= i < replans.len() implies (#[trigger] replans[i]) is Diverged by {
        let m = planned(disk, db2)[i];
        assert(planned(disk, db2).contains(m));
        let k = choose|k: int| 0 <= k < disk.len() && disk[k] == m;
        assert(find_entry(db2, disk[k].id) is Some);
        assert(up_plan_is(Some(replans[i]), m, find_entry(db2, m.id), checksum_of(m)));
    }
}

} // verus!
