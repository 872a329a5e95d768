use rustydb::query::executor::QueryResult;
use rustydb::query::parser::{Query, WhereClause};
use rustydb::{Column, DataType, DbError, QueryExecutor, Row, Schema, Value};

fn schema() -> Schema {
    Schema::new(vec![
        Column { name: "id".to_string(), data_type: DataType::Integer, primary_key: true, nullable: false },
        Column { name: "name".to_string(), data_type: DataType::Text, primary_key: false, nullable: true },
    ])
}

fn text(s: &str) -> Value {
    Value::Text(s.to_string())
}

fn message(r: Result<QueryResult, DbError>) -> String {
    match r.unwrap() {
        QueryResult::Message(m) => m,
        QueryResult::Rows { .. } => panic!("expected a message"),
    }
}

fn rows(r: Result<QueryResult, DbError>) -> (Vec<Row>, Vec<String>) {
    match r.unwrap() {
        QueryResult::Rows { rows, column_names } => (rows, column_names),
        QueryResult::Message(_) => panic!("expected rows"),
    }
}

fn filter(column: &str, value: Value) -> WhereClause {
    WhereClause { column: column.to_string(), value }
}

#[test]
fn executor_end_to_end() {
    let mut db = QueryExecutor::new();
    let t = || "t".to_string();
    assert_eq!(message(db.execute(Query::CreateTable { name: t(), schema: schema() })), "Table 't' created");
    assert_eq!(
        message(db.execute(Query::Insert { table_name: t(), values: vec![Value::Integer(1), text("a")] })),
        "1 row inserted into 't'"
    );
    db.execute(Query::Insert { table_name: t(), values: vec![Value::Integer(2), text("b")] }).unwrap();
    assert_eq!(
        message(db.execute(Query::CreateIndex { table_name: t(), column_name: "name".to_string() })),
        "Index created on 't.name'"
    );
    let (found, names) = rows(db.execute(Query::Select { table_name: t(), where_clause: Some(filter("name", text("b"))) }));
    assert_eq!(found, vec![Row { values: vec![Value::Integer(2), text("b")] }]);
    assert_eq!(names, vec!["id".to_string(), "name".to_string()]);
    assert_eq!(
        message(db.execute(Query::Update {
            table_name: t(),
            set_column: "name".to_string(),
            set_value: text("c"),
            where_clause: filter("id", Value::Integer(2)),
        })),
        "1 row(s) updated in 't'"
    );
    assert_eq!(rows(db.execute(Query::Select { table_name: t(), where_clause: Some(filter("name", text("b"))) })).0.len(), 0);
    assert_eq!(
        rows(db.execute(Query::Select { table_name: t(), where_clause: Some(filter("name", text("c"))) })).0,
        vec![Row { values: vec![Value::Integer(2), text("c")] }]
    );
    assert_eq!(
        message(db.execute(Query::Delete { table_name: t(), where_clause: filter("id", Value::Integer(1)) })),
        "1 row(s) deleted from 't'"
    );
    assert_eq!(
        message(db.execute(Query::Delete { table_name: t(), where_clause: filter("id", Value::Integer(1)) })),
        "0 row(s) deleted from 't'"
    );
    assert_eq!(
        rows(db.execute(Query::Select { table_name: t(), where_clause: None })).0,
        vec![Row { values: vec![Value::Integer(2), text("c")] }]
    );
}

#[test]
fn executor_errors_leave_the_database_alone() {
    let mut db = QueryExecutor::default();
    let t = || "t".to_string();
    assert!(matches!(
        db.execute(Query::Insert { table_name: t(), values: vec![] }),
        Err(DbError::TableNotFound(n)) if n == "t"
    ));
    assert!(matches!(db.execute(Query::Select { table_name: t(), where_clause: None }), Err(DbError::TableNotFound(_))));
    assert!(matches!(
        db.execute(Query::Update {
            table_name: t(),
            set_column: "a".to_string(),
            set_value: Value::Null,
            where_clause: filter("a", Value::Null)
        }),
        Err(DbError::TableNotFound(_))
    ));
    assert!(matches!(
        db.execute(Query::Delete { table_name: t(), where_clause: filter("a", Value::Null) }),
        Err(DbError::TableNotFound(_))
    ));
    assert!(matches!(
        db.execute(Query::CreateIndex { table_name: t(), column_name: "a".to_string() }),
        Err(DbError::TableNotFound(_))
    ));
    db.execute(Query::CreateTable { name: t(), schema: schema() }).unwrap();
    assert!(matches!(
        db.execute(Query::CreateTable { name: t(), schema: schema() }),
        Err(DbError::TableAlreadyExists(n)) if n == "t"
    ));
    db.execute(Query::CreateTable { name: "u".to_string(), schema: schema() }).unwrap();
    assert_eq!(db.list_tables(), vec!["t".to_string(), "u".to_string()]);
    assert!(db.get_table("t").is_some());
    assert!(db.get_table("v").is_none());
    assert_eq!(db.get_table("t").unwrap().row_count(), 0);
    assert!(matches!(
        db.execute(Query::Insert { table_name: t(), values: vec![Value::Integer(1)] }),
        Err(DbError::ArityMismatch { expected: 2, found: 1 })
    ));
    assert_eq!(db.get_table("t").unwrap().row_count(), 0);
}

#[test]
fn query_clone_is_a_copy() {
    let q = Query::Update {
        table_name: "t".to_string(),
        set_column: "name".to_string(),
        set_value: text("c"),
        where_clause: filter("id", Value::Integer(2)),
    };
    match q.clone() {
        Query::Update { table_name, set_column, set_value, where_clause } => {
            assert_eq!(table_name, "t");
            assert_eq!(set_column, "name");
            assert_eq!(set_value, text("c"));
            assert_eq!(where_clause.column, "id");
            assert_eq!(where_clause.value, Value::Integer(2));
        }
        _ => panic!("wrong kind"),
    }
}

#[test]
fn result_rendering() {
    assert_eq!(QueryResult::Message("done".to_string()).format(), "done");
    let none = QueryResult::Rows { rows: vec![], column_names: vec!["id".to_string()] };
    assert_eq!(none.format(), "No rows found");
    let some = QueryResult::Rows {
        rows: vec![
            Row { values: vec![Value::Integer(1), text("Alice")] },
            Row { values: vec![Value::Integer(20), text("Bo")] },
        ],
        column_names: vec!["id".to_string(), "name".to_string()],
    };
    let expected = "\
┌────┬───────┐
│ id │ name  │
├────┼───────┤
│ 1  │ Alice │
│ 20 │ Bo    │
└────┴───────┘

2 row(s) returned";
    assert_eq!(some.format(), expected);
}
