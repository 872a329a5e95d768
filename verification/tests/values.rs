use rustydb::storage::page::{Page, PageManager};
use rustydb::storage::key::IndexKey;
use rustydb::{Column, DataType, Row, Schema, Value};
use std::cmp::Ordering;

fn text(s: &str) -> Value {
    Value::Text(s.to_string())
}

#[test]
fn values_render() {
    assert_eq!(Value::Null.to_string(), "NULL");
    assert_eq!(Value::Integer(0).to_string(), "0");
    assert_eq!(Value::Integer(-120).to_string(), "-120");
    assert_eq!(Value::Integer(i64::MAX).to_string(), "9223372036854775807");
    assert_eq!(Value::Integer(i64::MIN).to_string(), "-9223372036854775808");
    assert_eq!(text("héllo").to_string(), "héllo");
    assert_eq!(Value::Boolean(true).to_string(), "true");
    assert_eq!(Value::Boolean(false).to_string(), "false");
}

#[test]
fn fixed_point_values_render_like_the_fraction_they_stand_for() {
    for f in [0i64, 1, 10, 100, 999, 1000, 1500, 1050, 1005, -250, -1, -1000, 123456789, -987654321, 30000] {
        let expected = ((f as f64) / 1000.0).to_string();
        assert_eq!(Value::Float(f).to_string(), expected);
    }
    assert_eq!(Value::Float(1500).to_string(), "1.5");
    assert_eq!(Value::Float(-250).to_string(), "-0.25");
    assert_eq!(Value::Float(1).to_string(), "0.001");
    assert_eq!(Value::Float(3000).to_string(), "3");
}

#[test]
fn values_compare_within_a_kind_only() {
    assert_eq!(Value::Integer(1).compare(&Value::Integer(2)), Some(Ordering::Less));
    assert_eq!(Value::Integer(2).compare(&Value::Integer(2)), Some(Ordering::Equal));
    assert_eq!(Value::Integer(3).compare(&Value::Integer(2)), Some(Ordering::Greater));
    assert_eq!(Value::Float(-5).compare(&Value::Float(5)), Some(Ordering::Less));
    assert_eq!(text("a").compare(&text("b")), Some(Ordering::Less));
    assert_eq!(text("ab").compare(&text("a")), Some(Ordering::Greater));
    assert_eq!(text("").compare(&text("")), Some(Ordering::Equal));
    assert_eq!(text("z").compare(&text("é")), Some(Ordering::Less));
    assert_eq!(Value::Boolean(false).compare(&Value::Boolean(true)), Some(Ordering::Less));
    assert_eq!(Value::Boolean(true).compare(&Value::Boolean(true)), Some(Ordering::Equal));
    assert_eq!(Value::Integer(1).compare(&Value::Float(1)), None);
    assert_eq!(Value::Integer(1).compare(&text("1")), None);
    assert_eq!(Value::Null.compare(&Value::Null), None);
    assert_eq!(Value::Null.compare(&Value::Integer(1)), None);
    assert!(Value::Integer(1).is_comparable(&Value::Integer(5)));
    assert!(!Value::Null.is_comparable(&Value::Null));
}

#[test]
fn text_order_agrees_with_the_standard_order() {
    let words = ["", "a", "A", "ab", "b", "é", "z", "zz", "日本", "a\u{10000}"];
    for x in words {
        for y in words {
            assert_eq!(text(x).compare(&text(y)), Some(x.cmp(y)));
            assert_eq!(text(x) == text(y), x == y);
        }
    }
}

#[test]
fn key_order_is_total() {
    let keys = [
        Value::Null,
        Value::Integer(-1),
        Value::Integer(3),
        Value::Float(-1),
        Value::Float(3),
        text("a"),
        text("b"),
        Value::Boolean(false),
        Value::Boolean(true),
    ];
    for (i, x) in keys.iter().enumerate() {
        for (j, y) in keys.iter().enumerate() {
            assert_eq!(x.precedes(y), i < j);
            assert_eq!(IndexKey(x.clone()).precedes(&IndexKey(y.clone())), i < j);
            assert_eq!(x == y, i == j);
        }
    }
}

#[test]
fn schema_lookups() {
    let schema = Schema::new(vec![
        Column { name: "a".to_string(), data_type: DataType::Integer, primary_key: false, nullable: true },
        Column { name: "b".to_string(), data_type: DataType::Text, primary_key: true, nullable: false },
        Column { name: "c".to_string(), data_type: DataType::Boolean, primary_key: false, nullable: true },
    ]);
    assert_eq!(schema.get_column_index("a"), Some(0));
    assert_eq!(schema.get_column_index("c"), Some(2));
    assert_eq!(schema.get_column_index("d"), None);
    assert_eq!(schema.get_primary_key_index(), Some(1));
    assert_eq!(Schema::new(vec![]).get_primary_key_index(), None);
    let copy = schema.clone();
    assert_eq!(copy.columns.len(), 3);
    assert_eq!(copy.columns[1].name, "b");
    assert_eq!(copy.columns[1].data_type, DataType::Text);
}

#[test]
fn pages_keep_deleted_slots() {
    let mut page = Page::new(3, 2);
    assert!(page.is_empty());
    assert!(page.insert(Row { values: vec![Value::Integer(1)] }));
    assert!(page.insert(Row { values: vec![Value::Integer(2)] }));
    assert!(page.is_full());
    assert!(!page.insert(Row { values: vec![Value::Integer(3)] }));
    assert_eq!(page.len(), 2);
    assert_eq!(page.delete(0), Some(Row { values: vec![Value::Integer(1)] }));
    assert_eq!(page.delete(0), None);
    assert_eq!(page.delete(5), None);
    assert_eq!(page.len(), 1);
    assert!(page.is_full());
    assert_eq!(page.get(0), None);
    assert_eq!(page.get(1), Some(&Row { values: vec![Value::Integer(2)] }));
    assert_eq!(page.get(2), None);
    page.get_mut(1).unwrap().values[0] = Value::Integer(9);
    assert_eq!(page.get(1), Some(&Row { values: vec![Value::Integer(9)] }));
    assert!(page.get_mut(0).is_none());
    assert_eq!(page.id, 3);
    assert_eq!(page.max_rows, 2);
}

#[test]
fn page_manager_identifiers() {
    let mut store = PageManager::new(3);
    for i in 0..7usize {
        assert!(store.has_room());
        let (page, slot) = store.insert(Row { values: vec![Value::Integer(i as i64)] });
        assert_eq!((page, slot), (i / 3, i % 3));
    }
    assert_eq!(store.total_rows(), 7);
    assert_eq!(store.get(4), Some(&Row { values: vec![Value::Integer(4)] }));
    assert_eq!(store.get(7), None);
    assert_eq!(store.get(100), None);
    assert_eq!(store.delete(4), Some(Row { values: vec![Value::Integer(4)] }));
    assert_eq!(store.delete(4), None);
    assert_eq!(store.get(4), None);
    assert_eq!(store.get(5), Some(&Row { values: vec![Value::Integer(5)] }));
    store.get_mut(5).unwrap().values[0] = Value::Integer(50);
    assert!(store.get_mut(4).is_none());
    assert_eq!(store.total_rows(), 6);
    let scanned: Vec<(usize, Row)> = store.scan().into_iter().map(|(id, r)| (id, r.clone())).collect();
    let expected: Vec<(usize, Row)> = [(0, 0), (1, 1), (2, 2), (3, 3), (5, 50), (6, 6)]
        .iter()
        .map(|(id, v)| (*id as usize, Row { values: vec![Value::Integer(*v)] }))
        .collect();
    assert_eq!(scanned, expected);
    assert_eq!(store.insert(Row { values: vec![Value::Null] }), (2, 1));
}

#[test]
fn index_keys_compare_in_the_key_order() {
    let a = IndexKey(Value::Integer(1));
    let b = IndexKey(Value::Integer(2));
    let t = IndexKey(text("1"));
    assert!(a < b);
    assert!(b > a);
    assert!(a <= a.clone());
    assert!(a < t);
    assert_eq!(a.partial_cmp(&b), Some(Ordering::Less));
    assert_eq!(t.partial_cmp(&a), Some(Ordering::Greater));
    assert_eq!(IndexKey(Value::Null).partial_cmp(&IndexKey(Value::Null)), Some(Ordering::Equal));
    assert!(a == IndexKey(Value::Integer(1)));
    assert!(a != b);
}

#[test]
fn copies_are_equal_and_independent() {
    let mut page = Page::new(0, 4);
    page.insert(Row { values: vec![Value::Integer(1), text("a")] });
    page.insert(Row { values: vec![Value::Integer(2), text("b")] });
    page.delete(0);
    let copy = page.clone();
    page.delete(1);
    assert_eq!(copy.id, 0);
    assert_eq!(copy.max_rows, 4);
    assert_eq!(copy.get(0), None);
    assert_eq!(copy.get(1), Some(&Row { values: vec![Value::Integer(2), text("b")] }));
    assert_eq!(page.get(1), None);
}
