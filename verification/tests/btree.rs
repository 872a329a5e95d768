use rustydb::storage::btree::BTreeIndex;
use rustydb::{DbError, Value};

#[test]
fn test_btree_insert_and_lookup() {
    let mut index = BTreeIndex::new("id".to_string());

    index.insert(Value::Integer(1), 0);
    index.insert(Value::Integer(2), 1);
    index.insert(Value::Integer(1), 2);

    let result = index.lookup(&Value::Integer(1));
    assert_eq!(result, Some(&vec![0, 2]));
}

#[test]
fn test_btree_range_query() {
    let mut index = BTreeIndex::new("age".to_string());

    index.insert(Value::Integer(25), 0);
    index.insert(Value::Integer(30), 1);
    index.insert(Value::Integer(35), 2);
    index.insert(Value::Integer(40), 3);

    let result = index.range_query(&Value::Integer(28), &Value::Integer(36)).unwrap();
    assert!(result.contains(&1));
    assert!(result.contains(&2));
    assert!(!result.contains(&0));
    assert!(!result.contains(&3));
}

#[test]
fn range_query_is_in_ascending_value_order() {
    let mut index = BTreeIndex::new("age".to_string());
    index.insert(Value::Integer(40), 3);
    index.insert(Value::Integer(25), 0);
    index.insert(Value::Integer(35), 2);
    index.insert(Value::Integer(30), 1);
    index.insert(Value::Integer(30), 7);
    let result = index.range_query(&Value::Integer(25), &Value::Integer(35)).unwrap();
    assert_eq!(result, vec![0, 1, 7, 2]);
    let none = index.range_query(&Value::Integer(36), &Value::Integer(25)).unwrap();
    assert_eq!(none, Vec::<usize>::new());
}

#[test]
fn range_query_rejects_mismatched_kinds() {
    let mut index = BTreeIndex::new("age".to_string());
    index.insert(Value::Integer(25), 0);
    let mixed = index.range_query(&Value::Integer(1), &Value::Text("z".to_string()));
    assert!(matches!(mixed, Err(DbError::UnsupportedComparison)));
    let other_kind = index.range_query(&Value::Text("a".to_string()), &Value::Text("z".to_string()));
    assert!(matches!(other_kind, Err(DbError::UnsupportedComparison)));
    let nulls = index.range_query(&Value::Null, &Value::Null);
    assert!(matches!(nulls, Err(DbError::UnsupportedComparison)));
    let empty = BTreeIndex::new("age".to_string());
    let fine = empty.range_query(&Value::Text("a".to_string()), &Value::Text("z".to_string()));
    assert_eq!(fine.unwrap(), Vec::<usize>::new());
}

#[test]
fn lookup_tells_absent_from_present() {
    let mut index = BTreeIndex::new("name".to_string());
    assert!(index.is_empty());
    assert_eq!(index.lookup(&Value::Text("a".to_string())), None);
    index.insert(Value::Text("a".to_string()), 4);
    index.insert(Value::Text("b".to_string()), 5);
    index.insert(Value::Text("a".to_string()), 4);
    assert_eq!(index.lookup(&Value::Text("a".to_string())), Some(&vec![4]));
    assert_eq!(index.len(), 2);
    assert_eq!(index.column_name(), "name");
    assert!(!index.is_empty());
}

#[test]
fn remove_drops_empty_entries() {
    let mut index = BTreeIndex::new("id".to_string());
    index.insert(Value::Integer(1), 0);
    index.insert(Value::Integer(1), 2);
    index.insert(Value::Integer(2), 1);
    index.remove(&Value::Integer(1), 0);
    assert_eq!(index.lookup(&Value::Integer(1)), Some(&vec![2]));
    index.remove(&Value::Integer(1), 2);
    assert_eq!(index.lookup(&Value::Integer(1)), None);
    assert_eq!(index.len(), 1);
    index.remove(&Value::Integer(9), 0);
    index.remove(&Value::Integer(2), 9);
    assert_eq!(index.lookup(&Value::Integer(2)), Some(&vec![1]));
}

#[test]
fn keys_of_different_kinds_do_not_collapse() {
    let mut index = BTreeIndex::new("mixed".to_string());
    index.insert(Value::Integer(1), 0);
    index.insert(Value::Text("1".to_string()), 1);
    index.insert(Value::Null, 2);
    index.insert(Value::Boolean(true), 3);
    index.insert(Value::Float(1), 4);
    assert_eq!(index.len(), 5);
    assert_eq!(index.lookup(&Value::Integer(1)), Some(&vec![0]));
    assert_eq!(index.lookup(&Value::Text("1".to_string())), Some(&vec![1]));
    assert_eq!(index.lookup(&Value::Null), Some(&vec![2]));
    assert_eq!(index.lookup(&Value::Boolean(true)), Some(&vec![3]));
    assert_eq!(index.lookup(&Value::Float(1)), Some(&vec![4]));
}

#[test]
fn a_copy_of_an_index_holds_the_same() {
    let mut index = BTreeIndex::new("id".to_string());
    index.insert(Value::Integer(2), 1);
    index.insert(Value::Integer(1), 0);
    let copy = index.clone();
    index.remove(&Value::Integer(1), 0);
    assert_eq!(copy.lookup(&Value::Integer(1)), Some(&vec![0]));
    assert_eq!(copy.lookup(&Value::Integer(2)), Some(&vec![1]));
    assert_eq!(copy.column_name(), "id");
    assert_eq!(copy.len(), 2);
    assert_eq!(index.len(), 1);
}
