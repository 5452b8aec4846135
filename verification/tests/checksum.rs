use dbmigrator::executor::checksum;
use dbmigrator::migrations::{Change, ChangeSet, Migration, SqlFile};

fn query(q: &str) -> Change {
    Change::Query { query: q.to_string() }
}

fn set(up: Change, down: Option<Change>) -> ChangeSet {
    ChangeSet { dialect: None, up, down }
}

#[test]
fn checksum_of_one_query() {
    let m = Migration { id: 1, changes: vec![set(query("CREATE TABLE a (x INT);"), None)] };
    assert_eq!(checksum::new(&m), "3Kce+6emxivqQ+vzgXlj18qQN5+KhBjIOODM/lvpO9M=");
    assert_eq!(checksum::new(&m).len(), 44);
}

#[test]
fn checksum_covers_down_change() {
    let m = Migration {
        id: 1,
        changes: vec![set(query("CREATE TABLE a (x INT);"), Some(query("DROP TABLE a;")))],
    };
    assert_eq!(checksum::new(&m), "TXKVdke1M1joNBnYBAwuijT56NXviMK8p1PgZEb7Qmc=");
}

#[test]
fn checksum_of_several_queries_and_change_sets() {
    let m = Migration {
        id: 2,
        changes: vec![
            set(
                Change::Queries {
                    queries: vec![
                        "INSERT INTO a VALUES (1);".to_string(),
                        "INSERT INTO a VALUES (2);".to_string(),
                    ],
                },
                None,
            ),
            set(query("DELETE FROM a;"), None),
        ],
    };
    assert_eq!(checksum::new(&m), "p1LH3wH/49URsqs0OHQxh0mAaawGu9B8Lw7ApKwcD3s=");
}

#[test]
fn checksum_of_negative_id_without_changes() {
    let m = Migration { id: -1, changes: vec![] };
    assert_eq!(checksum::new(&m), "2rm61nmsaaq3cXUohC+4Z2Y6+m1IItFZz87b5baBnrk=");
}

#[test]
fn checksum_ignores_dialect() {
    let a = Migration { id: 1, changes: vec![set(query("CREATE TABLE a (x INT);"), None)] };
    let mut cs = set(query("CREATE TABLE a (x INT);"), None);
    cs.dialect = Some("postgres".to_string());
    let b = Migration { id: 1, changes: vec![cs] };
    assert_eq!(checksum::new(&a), checksum::new(&b));
}

#[test]
fn sql_files_have_no_checksum() {
    let sql = Change::SqlFile { sql_file: SqlFile { path: "a.sql".to_string(), new_line_delimited: false } };
    let up = Migration { id: 1, changes: vec![set(sql, None)] };
    assert!(checksum::has_sql_file(&up));
    let sql = Change::SqlFile { sql_file: SqlFile { path: "a.sql".to_string(), new_line_delimited: false } };
    let down = Migration { id: 1, changes: vec![set(query("A;"), Some(sql))] };
    assert!(checksum::has_sql_file(&down));
    let plain = Migration { id: 1, changes: vec![set(query("A;"), Some(query("B;")))] };
    assert!(!checksum::has_sql_file(&plain));
}
