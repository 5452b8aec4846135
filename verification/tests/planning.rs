use dbmigrator::executor::planner::{
    plan_down, plan_up, plan_with_checksum, rollback_plan_with_checksum, verify, MigrationPlan,
    RollbackPlan,
};
use dbmigrator::executor::MigrationEntry;
use dbmigrator::migrations::{Change, ChangeSet, Migration};

const C1: &str = "3Kce+6emxivqQ+vzgXlj18qQN5+KhBjIOODM/lvpO9M=";
const C1_DOWN: &str = "TXKVdke1M1joNBnYBAwuijT56NXviMK8p1PgZEb7Qmc=";

fn m1() -> Migration {
    Migration {
        id: 1,
        changes: vec![ChangeSet {
            dialect: None,
            up: Change::Query { query: "CREATE TABLE a (x INT);".to_string() },
            down: None,
        }],
    }
}

fn m1_with_down() -> Migration {
    Migration {
        id: 1,
        changes: vec![ChangeSet {
            dialect: None,
            up: Change::Query { query: "CREATE TABLE a (x INT);".to_string() },
            down: Some(Change::Query { query: "DROP TABLE a;".to_string() }),
        }],
    }
}

fn plain(id: i64, q: &str) -> Migration {
    Migration {
        id,
        changes: vec![ChangeSet { dialect: None, up: Change::Query { query: q.to_string() }, down: None }],
    }
}

fn entry(id: i64, checksum: &str) -> MigrationEntry {
    MigrationEntry { id, checksum: checksum.to_string() }
}

#[test]
fn plan_with_checksum_covers_each_case() {
    match plan_with_checksum(m1(), None, "c".to_string()) {
        Some(MigrationPlan::Pending { checksum, migration }) => {
            assert_eq!(checksum, "c");
            assert_eq!(migration.id, 1);
        },
        _ => panic!("expected a pending plan"),
    }
    assert!(plan_with_checksum(m1(), Some(&entry(1, "c")), "c".to_string()).is_none());
    match plan_with_checksum(m1(), Some(&entry(1, "old")), "new".to_string()) {
        Some(MigrationPlan::Diverged { checksum, entry, .. }) => {
            assert_eq!(checksum, "new");
            assert_eq!(entry.checksum, "old");
        },
        _ => panic!("expected a diverged plan"),
    }
}

#[test]
fn verify_computes_the_checksum() {
    assert!(verify(m1(), Some(&entry(1, C1))).is_none());
    match verify(m1(), None) {
        Some(MigrationPlan::Pending { checksum, .. }) => assert_eq!(checksum, C1),
        _ => panic!("expected a pending plan"),
    }
}

#[test]
fn plan_up_plans_new_and_changed_migrations_in_order() {
    let disk = vec![m1(), plain(2, "B;"), plain(3, "C;")];
    let db = vec![entry(1, C1), entry(2, "stale")];
    let plans = plan_up(disk, db);
    assert_eq!(plans.len(), 2);
    match &plans[0] {
        MigrationPlan::Diverged { migration, entry, .. } => {
            assert_eq!(migration.id, 2);
            assert_eq!(entry.checksum, "stale");
        },
        _ => panic!("expected a diverged plan"),
    }
    match &plans[1] {
        MigrationPlan::Pending { migration, .. } => assert_eq!(migration.id, 3),
        _ => panic!("expected a pending plan"),
    }
}

#[test]
fn plan_up_is_empty_when_everything_is_recorded() {
    let plans = plan_up(vec![m1()], vec![entry(1, C1)]);
    assert!(plans.is_empty());
}

#[test]
fn rollback_plan_with_checksum_covers_each_case() {
    match rollback_plan_with_checksum(m1(), &entry(1, "c"), "c".to_string()) {
        RollbackPlan::Pending { entry, .. } => assert_eq!(entry.id, 1),
        _ => panic!("expected a pending plan"),
    }
    match rollback_plan_with_checksum(m1(), &entry(1, "old"), "c".to_string()) {
        RollbackPlan::Diverged { checksum, .. } => assert_eq!(checksum, "c"),
        _ => panic!("expected a diverged plan"),
    }
}

#[test]
fn plan_down_targets_the_last_changelog_entry() {
    let db = vec![entry(2, "x"), entry(1, C1_DOWN)];
    match plan_down(vec![plain(2, "B;"), m1_with_down()], db) {
        Some(RollbackPlan::Pending { migration, entry }) => {
            assert_eq!(migration.id, 1);
            assert_eq!(entry.checksum, C1_DOWN);
        },
        _ => panic!("expected a pending plan"),
    }
    match plan_down(vec![m1_with_down()], vec![entry(1, "old")]) {
        Some(RollbackPlan::Diverged { checksum, .. }) => assert_eq!(checksum, C1_DOWN),
        _ => panic!("expected a diverged plan"),
    }
}

#[test]
fn plan_down_is_none_without_entry_or_migration() {
    assert!(plan_down(vec![m1()], vec![]).is_none());
    assert!(plan_down(vec![m1()], vec![entry(5, "x")]).is_none());
}

#[test]
fn replanning_after_recording_leaves_only_diverged() {
    let disk = || vec![m1(), plain(2, "B;"), plain(3, "C;")];
    let db = vec![entry(2, "stale")];
    let first = plan_up(disk(), db);
    assert_eq!(first.len(), 3);
    let mut recorded = vec![entry(2, "stale")];
    for p in first {
        if let MigrationPlan::Pending { checksum, migration } = p {
            recorded.push(MigrationEntry { id: migration.id, checksum });
        }
    }
    let again = plan_up(disk(), recorded);
    assert_eq!(again.len(), 1);
    match &again[0] {
        MigrationPlan::Diverged { migration, .. } => assert_eq!(migration.id, 2),
        _ => panic!("expected a diverged plan"),
    }
}
