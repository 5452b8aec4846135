use std::cell::RefCell;
use std::rc::Rc;

use dbmigrator::executor::{Backend, Direction, Error, Executor, MigrationEntry};
use dbmigrator::migrations::{Change, ChangeSet, Migration, SqlFile};
use dbmigrator::migrator::Migrator;

#[derive(Default)]
struct State {
    changelog: Vec<MigrationEntry>,
    executed: Vec<String>,
    transactions: Vec<(Vec<String>, i64, String, Direction)>,
    fail_transactions: bool,
    fail_read: bool,
}

#[derive(Clone, Default)]
struct Memory(Rc<RefCell<State>>);

impl Backend for Memory {
    const CHANGELOG_TABLE_CREATION_QUERY: &'static str = "CREATE TABLE IF NOT EXISTS DB_CHANGELOG;";

    fn execute(&mut self, query: String) -> Result<(), String> {
        self.0.borrow_mut().executed.push(query);
        Ok(())
    }

    fn db_migrations(&mut self) -> Result<Vec<MigrationEntry>, String> {
        let s = self.0.borrow();
        if s.fail_read {
            return Err("no connection".to_string());
        }
        Ok(s.changelog.clone())
    }

    fn in_transaction(
        &mut self,
        queries: Vec<String>,
        entry: MigrationEntry,
        action: Direction,
    ) -> Result<(), String> {
        let mut s = self.0.borrow_mut();
        if s.fail_transactions {
            return Err("transaction failed".to_string());
        }
        s.transactions.push((queries, entry.id, entry.checksum.clone(), action));
        match action {
            Direction::Up => s.changelog.push(entry),
            Direction::Down => s.changelog.retain(|e| e.id != entry.id),
        }
        Ok(())
    }
}

fn mig(id: i64, up: &str, down: &str) -> Migration {
    Migration {
        id,
        changes: vec![ChangeSet {
            dialect: None,
            up: Change::Query { query: up.to_string() },
            down: Some(Change::Query { query: down.to_string() }),
        }],
    }
}

fn disk() -> Vec<Migration> {
    vec![mig(2, "CREATE TABLE b;", "DROP TABLE b;"), mig(1, "CREATE TABLE a;", "DROP TABLE a;")]
}

#[test]
fn init_runs_the_changelog_table_query() {
    let mem = Memory::default();
    let mut ex = Executor::new(mem.clone());
    ex.init().unwrap();
    assert_eq!(mem.0.borrow().executed, vec!["CREATE TABLE IF NOT EXISTS DB_CHANGELOG;"]);
}

#[test]
fn migrate_applies_pending_migrations_in_given_order() {
    let mem = Memory::default();
    let mut ex = Executor::new(mem.clone());
    ex.migrate(vec![mig(1, "CREATE TABLE a;", "DROP TABLE a;"), mig(2, "CREATE TABLE b;", "DROP TABLE b;")])
        .unwrap();
    let s = mem.0.borrow();
    assert_eq!(s.transactions.len(), 2);
    assert_eq!(s.transactions[0].0, vec!["CREATE TABLE a;"]);
    assert_eq!(s.transactions[0].1, 1);
    assert_eq!(s.transactions[0].3, Direction::Up);
    assert_eq!(s.transactions[1].1, 2);
    assert_eq!(s.changelog.len(), 2);
}

#[test]
fn migrate_twice_applies_nothing_the_second_time() {
    let mem = Memory::default();
    let mut ex = Executor::new(mem.clone());
    ex.migrate(vec![mig(1, "CREATE TABLE a;", "DROP TABLE a;")]).unwrap();
    ex.migrate(vec![mig(1, "CREATE TABLE a;", "DROP TABLE a;")]).unwrap();
    assert_eq!(mem.0.borrow().transactions.len(), 1);
}

#[test]
fn migrate_stops_at_a_changed_migration() {
    let mem = Memory::default();
    let mut ex = Executor::new(mem.clone());
    ex.migrate(vec![mig(1, "CREATE TABLE a;", "DROP TABLE a;")]).unwrap();
    let r = ex.migrate(vec![mig(1, "CREATE TABLE a2;", "DROP TABLE a;"), mig(2, "CREATE TABLE b;", "DROP TABLE b;")]);
    match r {
        Err(Error::Diverged { id, checksum, old_checksum }) => {
            assert_eq!(id, 1);
            assert_ne!(checksum, old_checksum);
        },
        _ => panic!("expected a diverged migration"),
    }
    assert_eq!(mem.0.borrow().transactions.len(), 1);
}

#[test]
fn migrate_reports_backend_failures() {
    let mem = Memory::default();
    mem.0.borrow_mut().fail_transactions = true;
    let mut ex = Executor::new(mem.clone());
    match ex.migrate(disk()) {
        Err(Error::Backend { message }) => assert_eq!(message, "transaction failed"),
        _ => panic!("expected a backend error"),
    }
    let mem = Memory::default();
    mem.0.borrow_mut().fail_read = true;
    let mut ex = Executor::new(mem.clone());
    match ex.rollback(disk()) {
        Err(Error::Backend { message }) => assert_eq!(message, "no connection"),
        _ => panic!("expected a backend error"),
    }
}

#[test]
fn rollback_undoes_the_last_applied_migration() {
    let mem = Memory::default();
    let mut ex = Executor::new(mem.clone());
    ex.migrate(vec![mig(1, "CREATE TABLE a;", "DROP TABLE a;"), mig(2, "CREATE TABLE b;", "DROP TABLE b;")])
        .unwrap();
    ex.rollback(disk()).unwrap();
    let s = mem.0.borrow();
    let last = s.transactions.last().unwrap();
    assert_eq!(last.0, vec!["DROP TABLE b;"]);
    assert_eq!(last.1, 2);
    assert_eq!(last.3, Direction::Down);
    assert_eq!(s.changelog.len(), 1);
    assert_eq!(s.changelog[0].id, 1);
}

#[test]
fn rollback_with_empty_changelog_does_nothing() {
    let mem = Memory::default();
    let mut ex = Executor::new(mem.clone());
    ex.rollback(disk()).unwrap();
    assert!(mem.0.borrow().transactions.is_empty());
}

#[test]
fn rollback_refuses_a_changed_migration() {
    let mem = Memory::default();
    let mut ex = Executor::new(mem.clone());
    ex.migrate(vec![mig(1, "CREATE TABLE a;", "DROP TABLE a;")]).unwrap();
    match ex.rollback(vec![mig(1, "CREATE TABLE a;", "DROP TABLE a2;")]) {
        Err(Error::Diverged { id, .. }) => assert_eq!(id, 1),
        _ => panic!("expected a diverged migration"),
    }
    assert_eq!(mem.0.borrow().changelog.len(), 1);
}

#[test]
fn migrator_sorts_by_id_before_applying() {
    let mem = Memory::default();
    let mut migrator = Migrator::new(Executor::new(mem.clone()));
    migrator.migrate(disk).unwrap();
    let s = mem.0.borrow();
    assert_eq!(s.executed.len(), 1);
    let ids: Vec<i64> = s.transactions.iter().map(|t| t.1).collect();
    assert_eq!(ids, vec![1, 2]);
    drop(s);
    migrator.rollback(disk).unwrap();
    assert_eq!(mem.0.borrow().transactions.last().unwrap().1, 2);
}

#[test]
fn sort_by_order_is_stable() {
    let input = vec![
        mig(3, "c1", "x"),
        mig(1, "a", "x"),
        mig(3, "c2", "x"),
        mig(-5, "z", "x"),
        mig(1, "b", "x"),
    ];
    let sorted = Migrator::<Memory>::sort_by_order(input);
    let ups: Vec<String> = sorted
        .iter()
        .map(|m| match &m.changes[0].up {
            Change::Query { query } => query.clone(),
            _ => String::new(),
        })
        .collect();
    assert_eq!(ups, vec!["z", "a", "b", "c1", "c2"]);
}

#[test]
fn sorting_sorted_migrations_changes_nothing() {
    let once = Migrator::<Memory>::sort_by_order(vec![
        mig(2, "b1", "x"),
        mig(1, "a", "x"),
        mig(2, "b2", "x"),
    ]);
    let before: Vec<(i64, String)> = once
        .iter()
        .map(|m| match &m.changes[0].up {
            Change::Query { query } => (m.id, query.clone()),
            _ => (m.id, String::new()),
        })
        .collect();
    let twice = Migrator::<Memory>::sort_by_order(once);
    let after: Vec<(i64, String)> = twice
        .iter()
        .map(|m| match &m.changes[0].up {
            Change::Query { query } => (m.id, query.clone()),
            _ => (m.id, String::new()),
        })
        .collect();
    assert_eq!(before, after);
    assert_eq!(after, vec![(1, "a".to_string()), (2, "b1".to_string()), (2, "b2".to_string())]);
}

#[test]
fn rollback_right_after_migrate_undoes_it() {
    let mem = Memory::default();
    let mut ex = Executor::new(mem.clone());
    ex.migrate(vec![mig(1, "CREATE TABLE a;", "DROP TABLE a;")]).unwrap();
    ex.rollback(vec![mig(1, "CREATE TABLE a;", "DROP TABLE a;")]).unwrap();
    let s = mem.0.borrow();
    assert!(s.changelog.is_empty());
    assert_eq!(s.transactions[1].0, vec!["DROP TABLE a;"]);
    assert_eq!(s.transactions[1].2, s.transactions[0].2);
}

#[test]
fn rollback_of_a_migration_with_sql_file_has_no_checksum() {
    let mem = Memory::default();
    let mut ex = Executor::new(mem.clone());
    ex.migrate(vec![mig(1, "CREATE TABLE a;", "DROP TABLE a;")]).unwrap();
    let with_file = Migration {
        id: 1,
        changes: vec![ChangeSet {
            dialect: None,
            up: Change::Query { query: "CREATE TABLE a;".to_string() },
            down: Some(Change::SqlFile {
                sql_file: SqlFile { path: "down.sql".to_string(), new_line_delimited: true },
            }),
        }],
    };
    match ex.rollback(vec![with_file, mig(2, "CREATE TABLE b;", "DROP TABLE b;")]) {
        Err(Error::NoChecksum { id }) => assert_eq!(id, 1),
        _ => panic!("expected a migration without checksum"),
    }
    assert_eq!(mem.0.borrow().transactions.len(), 1);
}

#[test]
fn migrator_does_not_read_the_disk_when_init_fails() {
    struct Failing;
    impl Backend for Failing {
        const CHANGELOG_TABLE_CREATION_QUERY: &'static str = "CREATE;";
        fn execute(&mut self, _query: String) -> Result<(), String> {
            Err("down".to_string())
        }
        fn db_migrations(&mut self) -> Result<Vec<MigrationEntry>, String> {
            Ok(vec![])
        }
        fn in_transaction(&mut self, _q: Vec<String>, _e: MigrationEntry, _a: Direction) -> Result<(), String> {
            Ok(())
        }
    }
    let mut migrator = Migrator::new(Executor::new(Failing));
    let read = || -> Vec<Migration> { panic!("the disk must not be read") };
    match migrator.migrate(read) {
        Err(Error::Backend { message }) => assert_eq!(message, "down"),
        _ => panic!("expected a backend error"),
    }
}

#[test]
fn migrate_refuses_a_migration_with_sql_file_after_reading_the_changelog() {
    let mem = Memory::default();
    let mut ex = Executor::new(mem.clone());
    let with_file = Migration {
        id: 7,
        changes: vec![ChangeSet {
            dialect: None,
            up: Change::SqlFile {
                sql_file: SqlFile { path: "up.sql".to_string(), new_line_delimited: false },
            },
            down: None,
        }],
    };
    match ex.migrate(vec![mig(1, "CREATE TABLE a;", "DROP TABLE a;"), with_file]) {
        Err(Error::NoChecksum { id }) => assert_eq!(id, 7),
        _ => panic!("expected a migration without checksum"),
    }
    assert!(mem.0.borrow().transactions.is_empty());
    let failing = Memory::default();
    failing.0.borrow_mut().fail_read = true;
    let mut ex = Executor::new(failing);
    let with_file = Migration {
        id: 7,
        changes: vec![ChangeSet {
            dialect: None,
            up: Change::SqlFile {
                sql_file: SqlFile { path: "up.sql".to_string(), new_line_delimited: false },
            },
            down: None,
        }],
    };
    match ex.migrate(vec![with_file]) {
        Err(Error::Backend { message }) => assert_eq!(message, "no connection"),
        _ => panic!("expected a backend error"),
    }
}
