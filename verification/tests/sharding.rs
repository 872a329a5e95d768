use rustydb::query::executor::QueryResult;
use rustydb::query::parser::{Query, WhereClause};
use rustydb::sharding::{route, ShardStats, ShardedDatabase};
use rustydb::{Column, DataType, Schema, Value};

fn users_schema() -> Schema {
    Schema::new(vec![
        Column { name: "id".to_string(), data_type: DataType::Integer, primary_key: true, nullable: true },
        Column { name: "name".to_string(), data_type: DataType::Text, primary_key: false, nullable: true },
    ])
}

fn create_users() -> Query {
    Query::CreateTable { name: "users".to_string(), schema: users_schema() }
}

fn insert_user(i: i64) -> Query {
    Query::Insert {
        table_name: "users".to_string(),
        values: vec![Value::Integer(i), Value::Text(format!("User{}", i))],
    }
}

#[test]
fn test_sharding_distribution() {
    let mut db = ShardedDatabase::new(3);

    db.execute(create_users()).unwrap();

    for i in 1..=10 {
        db.execute(insert_user(i)).unwrap();
    }

    let stats = db.get_shard_stats("users");
    let total: usize = stats.iter().map(|s| s.row_count).sum();
    assert_eq!(total, 10);

    for stat in stats {
        println!("{}", stat.format());
    }
}

#[test]
fn routing_is_the_hash_of_the_canonical_bytes() {
    let db = ShardedDatabase::new(5);
    assert_eq!(db.shard_count(), 5);
    let cases: Vec<(Value, Vec<u8>)> = vec![
        (Value::Integer(42), b"42".to_vec()),
        (Value::Integer(-7), b"-7".to_vec()),
        (Value::Integer(i64::MIN), b"-9223372036854775808".to_vec()),
        (Value::Float(1500), b"1500".to_vec()),
        (Value::Text("héllo".to_string()), "héllo".as_bytes().to_vec()),
        (Value::Boolean(true), b"true".to_vec()),
        (Value::Boolean(false), b"false".to_vec()),
        (Value::Null, b"null".to_vec()),
    ];
    for (value, bytes) in cases {
        let expected = (seahash::hash(&bytes) as usize) % 5;
        assert_eq!(db.get_shard_id(&value), expected);
        assert_eq!(route(&value, 5), expected);
    }
}

#[test]
fn routing_is_deterministic() {
    let a = ShardedDatabase::new(4);
    let b = ShardedDatabase::new(4);
    for i in 0..50 {
        let v = Value::Integer(i);
        let first = a.get_shard_id(&v);
        assert!(first < 4);
        assert_eq!(first, a.get_shard_id(&v));
        assert_eq!(first, b.get_shard_id(&v));
    }
    let t = Value::Text("alpha".to_string());
    assert_eq!(a.get_shard_id(&t), b.get_shard_id(&t));
}

#[test]
fn scatter_gather_returns_every_row_once() {
    let mut db = ShardedDatabase::new(4);
    db.execute(create_users()).unwrap();
    let k = 37;
    for i in 0..k {
        db.execute(insert_user(i)).unwrap();
    }
    let all = db.execute(Query::Select { table_name: "users".to_string(), where_clause: None }).unwrap();
    match all {
        QueryResult::Rows { rows, column_names } => {
            assert_eq!(rows.len(), k as usize);
            assert_eq!(column_names, vec!["id".to_string(), "name".to_string()]);
            let mut ids: Vec<i64> = rows
                .iter()
                .map(|r| match &r.values[0] {
                    Value::Integer(i) => *i,
                    _ => panic!("not an integer"),
                })
                .collect();
            ids.sort();
            assert_eq!(ids, (0..k).collect::<Vec<i64>>());
        }
        QueryResult::Message(_) => panic!("expected rows"),
    }
    let stats = db.get_shard_stats("users");
    assert_eq!(stats.len(), 4);
    assert_eq!(stats.iter().map(|s| s.row_count).sum::<usize>(), k as usize);
    for (i, s) in stats.iter().enumerate() {
        assert_eq!(s.shard_id, i);
    }
}

#[test]
fn filtered_statements_go_to_one_partition() {
    let mut db = ShardedDatabase::new(3);
    db.execute(create_users()).unwrap();
    for i in 1..=6 {
        db.execute(insert_user(i)).unwrap();
    }
    let by_id = |i: i64| WhereClause { column: "id".to_string(), value: Value::Integer(i) };
    let found = db.execute(Query::Select { table_name: "users".to_string(), where_clause: Some(by_id(4)) }).unwrap();
    match found {
        QueryResult::Rows { rows, .. } => {
            assert_eq!(rows.len(), 1);
            assert_eq!(rows[0].values, vec![Value::Integer(4), Value::Text("User4".to_string())]);
        }
        QueryResult::Message(_) => panic!("expected rows"),
    }
    let updated = db
        .execute(Query::Update {
            table_name: "users".to_string(),
            set_column: "name".to_string(),
            set_value: Value::Text("Zed".to_string()),
            where_clause: by_id(4),
        })
        .unwrap();
    assert_eq!(updated.format(), "1 row(s) updated in 'users'");
    let deleted = db.execute(Query::Delete { table_name: "users".to_string(), where_clause: by_id(5) }).unwrap();
    assert_eq!(deleted.format(), "1 row(s) deleted from 'users'");
    let stats = db.get_shard_stats("users");
    assert_eq!(stats.iter().map(|s| s.row_count).sum::<usize>(), 5);
    let again = db.execute(insert_user(4));
    assert!(matches!(again, Err(rustydb::DbError::ConstraintViolation)));
}

#[test]
fn definitions_reach_every_partition_or_none() {
    let mut db = ShardedDatabase::new(3);
    let made = db.execute(create_users()).unwrap();
    assert_eq!(made.format(), "Table created on all shards");
    let twice = db.execute(create_users());
    assert!(matches!(twice, Err(rustydb::DbError::TableAlreadyExists(_))));
    let indexed = db
        .execute(Query::CreateIndex { table_name: "users".to_string(), column_name: "name".to_string() })
        .unwrap();
    assert_eq!(indexed.format(), "Index created on all shards");
    let again = db.execute(Query::CreateIndex { table_name: "users".to_string(), column_name: "name".to_string() });
    assert!(matches!(again, Err(rustydb::DbError::IndexAlreadyExists(_))));
    let missing = db.execute(Query::Select { table_name: "nope".to_string(), where_clause: None });
    assert!(matches!(missing, Err(rustydb::DbError::TableNotFound(_))));
    assert_eq!(db.get_shard_stats("nope").iter().map(|s| s.row_count).sum::<usize>(), 0);
}

#[test]
fn shard_stats_line() {
    let s = ShardStats { shard_id: 2, row_count: 15 };
    assert_eq!(s.format(), "Shard 2: 15 rows");
}
