use std::cell::RefCell;
use std::rc::Rc;

use dbmigrator::backend::DummyBackend;
use dbmigrator::migration::{Change, Column, ColumnType, Migration};
use dbmigrator::separator::runnable_migrations;
use dbmigrator::traits::{Backend, DbMigration, Executor};

fn table(id: i32) -> Migration {
    Migration {
        id,
        change: Change::CreateTable {
            name: format!("t{}", id),
            columns: vec![Column { name: "x".to_string(), column_type: ColumnType::Number(4) }],
        },
    }
}

#[test]
fn runnable_migrations_leaves_out_applied_ids() {
    let disk = vec![table(1), table(2), table(3), table(5)];
    let db = vec![DbMigration { id: 3 }, DbMigration { id: 2 }, DbMigration { id: 7 }];
    let ids: Vec<i32> = runnable_migrations(disk, db).iter().map(|m| m.id).collect();
    assert_eq!(ids, vec![1, 5]);
}

#[test]
fn runnable_migrations_ignores_negative_ids_against_applied() {
    let disk = vec![table(-1), table(0)];
    let db = vec![DbMigration { id: 0 }];
    let ids: Vec<i32> = runnable_migrations(disk, db).iter().map(|m| m.id).collect();
    assert_eq!(ids, vec![-1]);
}

struct Recorder {
    lines: Rc<RefCell<Vec<String>>>,
}

impl Executor for Recorder {
    fn execute(&mut self, query: String) -> Result<(), String> {
        self.lines.borrow_mut().push(query);
        Ok(())
    }
}

#[test]
fn dummy_backend_reports_fixed_migrations_and_describes_steps() {
    let lines = Rc::new(RefCell::new(vec![]));
    let mut backend = DummyBackend::new(Recorder { lines: lines.clone() });
    let ids: Vec<u32> = backend.existing_migrations().unwrap().iter().map(|m| m.id).collect();
    assert_eq!(ids, vec![2, 3, 4]);
    backend.ensure_migration_table().unwrap();
    backend.migrate(&table(1)).unwrap();
    {
        let seen = lines.borrow();
        assert_eq!(seen.len(), 2);
        assert_eq!(seen[0], "CREATE MIGRATION TABLE");
        assert_eq!(seen[1], format!("Running migration {:?}", table(1)));
        assert!(seen[1].starts_with("Running migration Migration { id: 1,"));
    }
    let runnable: Vec<i32> =
        runnable_migrations(vec![table(1), table(2), table(5)], backend.existing_migrations().unwrap())
            .iter()
            .map(|m| m.id)
            .collect();
    assert_eq!(runnable, vec![1, 5]);
}

#[test]
fn separating_in_two_steps_is_separating_once() {
    let disk = || vec![table(1), table(2), table(3), table(4)];
    let two_steps: Vec<i32> = runnable_migrations(
        runnable_migrations(disk(), vec![DbMigration { id: 2 }]),
        vec![DbMigration { id: 4 }],
    )
    .iter()
    .map(|m| m.id)
    .collect();
    let once: Vec<i32> = runnable_migrations(disk(), vec![DbMigration { id: 2 }, DbMigration { id: 4 }])
        .iter()
        .map(|m| m.id)
        .collect();
    assert_eq!(two_steps, once);
    assert_eq!(once, vec![1, 3]);
}
