//! Separating the migrations still to run from those already applied.

use vstd::prelude::*;

use crate::migration::Migration;
use crate::traits::DbMigration;

verus! {

/// Some migration of `db` has id `id`.
pub open spec fn is_applied(db: Seq<DbMigration>, id: int) -> bool {
    exists|j: int| 0 <= j < db.len() && #[trigger] db[j].id == id
}

/// The migrations of `disk`, in order, whose id no migration of `db` has.
pub open spec fn not_applied(disk: Seq<Migration>, db: Seq<DbMigration>) -> Seq<Migration>
    decreases disk.len(),
{
    if disk.len() == 0 {
        seq![]
    } else if is_applied(db, disk.last().id as int) {
        not_applied(disk.drop_last(), db)
    } else {
        not_applied(disk.drop_last(), db).push(disk.last())
    }
}

/// Whether some migration of `db` has id `id`.
fn applied(db: &Vec<DbMigration>, id: i32) -> (r: bool)
    ensures
        r == is_applied(db@, id as int),
{
    let n = db.len();
    for j in 0..n
        invariant
            n == db@.len(),
            forall|i: int| 0 <= i < j ==> #[trigger] db@[i].id != id,
    {
        if db[j].id as i64 == id as i64 {
            return true;
        }
    }
    false
}

/// The migrations read from disk, in their order, that are not recorded as
/// applied: those whose id no applied migration has.
pub fn runnable_migrations(disk_migrations: Vec<Migration>, db_migrations: Vec<DbMigration>) -> (r: Vec<
    Migration,
>)
    ensures
        r@ == not_applied(disk_migrations@, db_migrations@),
{
    let ghost disk = disk_migrations@;
    let mut runnable: Vec<Migration> = Vec::new();
    for m in it: disk_migrations
        invariant
            it.seq() == disk,
            runnable@ == not_applied(disk.take(it.index() as int), db_migrations@),
    {
        let ghost k = it.index() as int;
        assert(disk.take(k + 1).drop_last() == disk.take(k));
        assert(disk.take(k + 1).last() == m);
        if !applied(&db_migrations, m.id) {
            runnable.push(m);
        }
    }
    assert(disk.take(disk.len() as int) == disk);
    runnable
}

/// The migrations left to run are exactly the migrations on disk whose id is
/// not recorded as applied.
pub proof fn lemma_not_applied_members(disk: Seq<Migration>, db: Seq<DbMigration>)
    ensures
        forall|m: Migration|
            #[trigger] not_applied(disk, db).contains(m) <==> disk.contains(m) && !is_applied(
                db,
                m.id as int,
            ),
    decreases disk.len(),
{
    if disk.len() > 0 {
        let front = disk.drop_last();
        lemma_not_applied_members(front, db);
        assert(disk =~= front.push(disk.last()));
        assert forall|m: Migration| #[trigger] not_applied(disk, db).contains(m) <==> disk.contains(m)
            && !is_applied(db, m.id as int) by {
            if disk.contains(m) && !is_applied(db, m.id as int) {
                let k = choose|k: int| 0 <= k < disk.len() && disk[k] == m;
                if k < front.len() {
                    assert(front[k] == m);
                    assert(front.contains(m));
                    assert(not_applied(front, db).contains(m));
                    let j = choose|j: int| 0 <= j < not_applied(front, db).len() && not_applied(front, db)[j] == m;
                    if !is_applied(db, disk.last().id as int) {
                        assert(not_applied(disk, db) == not_applied(front, db).push(disk.last()));
                        assert(not_applied(disk, db)[j] == m);
                    } else {
                        assert(not_applied(disk, db) == not_applied(front, db));
                    }
                } else {
                    assert(not_applied(disk, db).last() == m);
                }
            }
            if not_applied(disk, db).contains(m) {
                let j = choose|j: int| 0 <= j < not_applied(disk, db).len() && not_applied(disk, db)[j] == m;
                if j < not_applied(front, db).len() {
                    assert(not_applied(front, db)[j] == m);
                    assert(not_applied(front, db).contains(m));
                    let k = choose|k: int| 0 <= k < front.len() && front[k] == m;
                    assert(disk[k] == m);
                } else {
                    assert(m == disk.last());
                    assert(disk[disk.len() - 1] == m);
                }
            }
        }
    }
}

/// Separating in two steps is separating once: leaving out the migrations
/// applied according to `db1`, then those applied according to `db2`,
/// leaves the migrations not applied according to both together.
pub proof fn lemma_not_applied_compose(disk: Seq<Migration>, db1: Seq<DbMigration>, db2: Seq<DbMigration>)
    ensures
        not_applied(not_applied(disk, db1), db2) == not_applied(disk, db1 + db2),
    decreases disk.len(),
{
    if disk.len() > 0 {
        let front = disk.drop_last();
        let m = disk.last();
        lemma_not_applied_compose(front, db1, db2);
        let id = m.id as int;
        assert(is_applied(db1 + db2, id) <==> is_applied(db1, id) || is_applied(db2, id)) by {
            if is_applied(db1, id) {
                let j = choose|j: int| 0 <= j < db1.len() && #[trigger] db1[j].id == id;
                assert((db1 + db2)[j] == db1[j]);
            }
            if is_applied(db2, id) {
                let j = choose|j: int| 0 <= j < db2.len() && #[trigger] db2[j].id == id;
                assert((db1 + db2)[db1.len() + j] == db2[j]);
            }
            if is_applied(db1 + db2, id) {
                let j = choose|j: int| 0 <= j < (db1 + db2).len() && #[trigger] (db1 + db2)[j].id == id;
                if j < db1.len() {
                    assert(db1[j] == (db1 + db2)[j]);
                } else {
                    assert(db2[j - db1.len()] == (db1 + db2)[j]);
                }
            }
        }
        if !is_applied(db1, id) {
            let once = not_applied(front, db1).push(m);
            assert(not_applied(disk, db1) == once);
            assert(once.drop_last() =~= not_applied(front, db1));
            assert(once.last() == m);
        } else {
            assert(not_applied(disk, db1) == not_applied(front, db1));
        }
    }
}

} // verus!
