use rustydb::storage::table::Table;
use rustydb::{Column, DataType, DbError, Row, Schema, Value};

fn column(name: &str, data_type: DataType, primary_key: bool) -> Column {
    Column { name: name.to_string(), data_type, primary_key, nullable: !primary_key }
}

fn people() -> Table {
    Table::new(
        "t".to_string(),
        Schema::new(vec![column("id", DataType::Integer, true), column("name", DataType::Text, false)]),
    )
}

fn text(s: &str) -> Value {
    Value::Text(s.to_string())
}

fn row(id: i64, name: &str) -> Row {
    Row { values: vec![Value::Integer(id), text(name)] }
}

#[test]
fn end_to_end_scenario() {
    let mut t = people();
    assert_eq!(t.insert(vec![Value::Integer(1), text("a")]).unwrap(), 0);
    assert_eq!(t.insert(vec![Value::Integer(2), text("b")]).unwrap(), 1);
    t.create_index("name").unwrap();
    assert_eq!(t.select(Some("name"), Some(&text("b"))).unwrap(), vec![row(2, "b")]);
    assert_eq!(t.update("id", &Value::Integer(2), "name", text("c")).unwrap(), 1);
    assert_eq!(t.select(Some("name"), Some(&text("b"))).unwrap(), Vec::<Row>::new());
    assert_eq!(t.select(Some("name"), Some(&text("c"))).unwrap(), vec![row(2, "c")]);
    assert_eq!(t.delete("id", &Value::Integer(1)).unwrap(), 1);
    assert_eq!(t.select(None, None).unwrap(), vec![row(2, "c")]);
    assert_eq!(t.row_count(), 1);
}

#[test]
fn insert_then_select_by_primary_key_returns_the_row() {
    let mut t = people();
    for i in 0..250 {
        t.insert(vec![Value::Integer(i), text(&format!("n{}", i))]).unwrap();
    }
    for i in [0, 99, 100, 101, 199, 200, 249] {
        let found = t.select(Some("id"), Some(&Value::Integer(i))).unwrap();
        assert_eq!(found, vec![row(i, &format!("n{}", i))]);
    }
    assert_eq!(t.row_count(), 250);
}

#[test]
fn duplicate_primary_key_is_rejected() {
    let mut t = people();
    t.insert(vec![Value::Integer(7), text("x")]).unwrap();
    let second = t.insert(vec![Value::Integer(7), text("y")]);
    assert!(matches!(second, Err(DbError::ConstraintViolation)));
    assert_eq!(t.row_count(), 1);
    assert_eq!(t.select(None, None).unwrap(), vec![row(7, "x")]);
}

#[test]
fn wrong_arity_is_rejected() {
    let mut t = people();
    let short = t.insert(vec![Value::Integer(7)]);
    assert!(matches!(short, Err(DbError::ArityMismatch { expected: 2, found: 1 })));
    let long = t.insert(vec![Value::Integer(7), text("x"), Value::Null]);
    assert!(matches!(long, Err(DbError::ArityMismatch { expected: 2, found: 3 })));
    assert_eq!(t.row_count(), 0);
}

#[test]
fn missing_columns_are_reported() {
    let mut t = people();
    t.insert(vec![Value::Integer(1), text("a")]).unwrap();
    assert!(matches!(t.select(Some("age"), Some(&Value::Integer(1))), Err(DbError::ColumnNotFound(n)) if n == "age"));
    assert!(matches!(t.update("age", &Value::Integer(1), "name", text("b")), Err(DbError::ColumnNotFound(n)) if n == "age"));
    assert!(matches!(t.update("id", &Value::Integer(1), "age", text("b")), Err(DbError::ColumnNotFound(n)) if n == "age"));
    assert!(matches!(t.delete("age", &Value::Integer(1)), Err(DbError::ColumnNotFound(n)) if n == "age"));
    assert!(matches!(t.create_index("age"), Err(DbError::ColumnNotFound(n)) if n == "age"));
    assert!(matches!(t.create_index("id"), Err(DbError::IndexAlreadyExists(n)) if n == "id"));
    assert_eq!(t.select(None, None).unwrap(), vec![row(1, "a")]);
}

#[test]
fn index_driven_and_scan_driven_selects_agree() {
    let mut indexed = people();
    let mut plain = people();
    indexed.create_index("name").unwrap();
    let names = ["a", "b", "a", "c", "b", "a"];
    for (i, n) in names.iter().enumerate() {
        indexed.insert(vec![Value::Integer(i as i64), text(n)]).unwrap();
        plain.insert(vec![Value::Integer(i as i64), text(n)]).unwrap();
    }
    let check = |indexed: &Table, plain: &Table| {
        for n in ["a", "b", "c", "d"] {
            let mut x = indexed.select(Some("name"), Some(&text(n))).unwrap();
            let mut y = plain.select(Some("name"), Some(&text(n))).unwrap();
            let key = |r: &Row| match r.values[0] {
                Value::Integer(i) => i,
                _ => -1,
            };
            x.sort_by_key(key);
            y.sort_by_key(key);
            assert_eq!(x, y);
        }
    };
    check(&indexed, &plain);
    for t in [&mut indexed, &mut plain] {
        assert_eq!(t.update("name", &text("a"), "name", text("b")).unwrap(), 3);
    }
    check(&indexed, &plain);
    for t in [&mut indexed, &mut plain] {
        assert_eq!(t.delete("name", &text("b")).unwrap(), 5);
    }
    check(&indexed, &plain);
    for t in [&mut indexed, &mut plain] {
        assert_eq!(t.update("id", &Value::Integer(3), "name", text("a")).unwrap(), 1);
        assert_eq!(t.delete("name", &text("zzz")).unwrap(), 0);
        assert_eq!(t.row_count(), 1);
    }
    check(&indexed, &plain);
}

#[test]
fn update_keeps_identifiers_and_other_rows() {
    let mut t = people();
    for i in 0..5 {
        t.insert(vec![Value::Integer(i), text("same")]).unwrap();
    }
    assert_eq!(t.update("id", &Value::Integer(2), "name", text("new")).unwrap(), 1);
    let all = t.select(None, None).unwrap();
    assert_eq!(all, vec![row(0, "same"), row(1, "same"), row(2, "new"), row(3, "same"), row(4, "same")]);
    assert_eq!(t.update("id", &Value::Integer(9), "name", text("new")).unwrap(), 0);
    assert_eq!(t.select(None, None).unwrap(), all);
}

#[test]
fn deleted_identifiers_are_not_reused() {
    let mut t = people();
    assert_eq!(t.insert(vec![Value::Integer(1), text("a")]).unwrap(), 0);
    assert_eq!(t.insert(vec![Value::Integer(2), text("b")]).unwrap(), 1);
    assert_eq!(t.delete("id", &Value::Integer(1)).unwrap(), 1);
    assert_eq!(t.insert(vec![Value::Integer(1), text("again")]).unwrap(), 2);
    assert_eq!(t.select(None, None).unwrap(), vec![row(2, "b"), row(1, "again")]);
    assert_eq!(t.select(Some("id"), Some(&Value::Integer(1))).unwrap(), vec![row(1, "again")]);
}

#[test]
fn created_index_reflects_current_contents() {
    let mut t = people();
    t.insert(vec![Value::Integer(1), text("a")]).unwrap();
    t.insert(vec![Value::Integer(2), text("b")]).unwrap();
    t.insert(vec![Value::Integer(3), text("a")]).unwrap();
    t.delete("id", &Value::Integer(1)).unwrap();
    t.create_index("name").unwrap();
    assert_eq!(t.select(Some("name"), Some(&text("a"))).unwrap(), vec![row(3, "a")]);
    assert_eq!(t.select(Some("name"), Some(&text("b"))).unwrap(), vec![row(2, "b")]);
}

#[test]
fn table_without_primary_key_accepts_duplicates() {
    let mut t = Table::new("log".to_string(), Schema::new(vec![column("line", DataType::Text, false)]));
    t.insert(vec![text("x")]).unwrap();
    t.insert(vec![text("x")]).unwrap();
    assert_eq!(t.row_count(), 2);
    assert_eq!(t.select(Some("line"), Some(&text("x"))).unwrap().len(), 2);
    assert_eq!(t.name(), "log");
    assert_eq!(t.get_schema().columns.len(), 1);
    assert_eq!(t.select(Some("line"), None).unwrap().len(), 2);
}
