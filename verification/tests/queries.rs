use dbmigrator::executor::query_iter::QueryIter;
use dbmigrator::executor::Direction;
use dbmigrator::migrations::{Change, ChangeSet, Migration, SqlFile};

fn query(q: &str) -> Change {
    Change::Query { query: q.to_string() }
}

fn queries(qs: &[&str]) -> Change {
    Change::Queries { queries: qs.iter().map(|q| q.to_string()).collect() }
}

fn sql_file() -> Change {
    Change::SqlFile { sql_file: SqlFile { path: "x.sql".to_string(), new_line_delimited: true } }
}

fn set(up: Change, down: Option<Change>) -> ChangeSet {
    ChangeSet { dialect: None, up, down }
}

fn sample() -> Migration {
    Migration {
        id: 1,
        changes: vec![
            set(query("CREATE TABLE a (x INT);"), Some(query("DROP TABLE a;"))),
            set(queries(&["INSERT INTO a VALUES (1);", "INSERT INTO a VALUES (2);"]), None),
            set(queries(&[]), Some(queries(&["DELETE FROM a;", "VACUUM;"]))),
        ],
    }
}

#[test]
fn up_walk_yields_every_up_query_in_order() {
    let m = sample();
    let mut it = QueryIter::new(&m, Direction::Up);
    assert_eq!(it.next().map(|s| s.as_str()), Some("CREATE TABLE a (x INT);"));
    assert_eq!(it.next().map(|s| s.as_str()), Some("INSERT INTO a VALUES (1);"));
    assert_eq!(it.next().map(|s| s.as_str()), Some("INSERT INTO a VALUES (2);"));
    assert_eq!(it.next(), None);
    assert_eq!(it.next(), None);
}

#[test]
fn down_walk_skips_change_sets_without_down() {
    let m = sample();
    let v = QueryIter::new(&m, Direction::Down).collect_queries();
    assert_eq!(v, vec!["DROP TABLE a;", "DELETE FROM a;", "VACUUM;"]);
}

#[test]
fn walk_stops_at_sql_file_and_resumes_after_it() {
    let m = Migration {
        id: 3,
        changes: vec![
            set(query("A;"), None),
            set(sql_file(), None),
            set(query("B;"), None),
        ],
    };
    let mut it = QueryIter::new(&m, Direction::Up);
    assert_eq!(it.next().map(|s| s.as_str()), Some("A;"));
    assert_eq!(it.next(), None);
    assert_eq!(it.next().map(|s| s.as_str()), Some("B;"));
    assert_eq!(it.next(), None);
    assert_eq!(QueryIter::new(&m, Direction::Up).collect_queries(), vec!["A;"]);
}

#[test]
fn walk_of_migration_without_changes_is_empty() {
    let m = Migration { id: 9, changes: vec![] };
    assert!(QueryIter::new(&m, Direction::Up).collect_queries().is_empty());
    assert!(QueryIter::new(&m, Direction::Down).next().is_none());
}
