use rustydb::query::number::{has_char, parse_integer};
use rustydb::query::parser::{Query, QueryParser};
use rustydb::query::statement::{
    SqlAssignment, SqlBody, SqlColumn, SqlColumnOption, SqlCondition, SqlOperand, SqlRelation, SqlSource,
    SqlStatement, SqlType,
};
use rustydb::{DataType, DbError, Value};

fn name(parts: &[&str]) -> Vec<String> {
    parts.iter().map(|p| p.to_string()).collect()
}

fn number(text: &str) -> SqlOperand {
    let scaled = if text.contains('.') { text.parse::<f64>().ok().map(|x| (x * 1000.0) as i64) } else { None };
    SqlOperand::Number { text: text.to_string(), scaled }
}

fn equals(column: &str, right: SqlOperand) -> SqlCondition {
    SqlCondition::Comparison { left: SqlOperand::Identifier(column.to_string()), is_equality: true, right }
}

fn reason(r: Result<Query, DbError>) -> String {
    match r {
        Err(e) => e.message(),
        Ok(q) => panic!("expected an error, got {:?}", q),
    }
}

#[test]
fn integers_are_read_like_the_standard_library_reads_them() {
    let texts = [
        "0", "7", "42", "007", "-1", "+1", "-0", "9223372036854775807", "9223372036854775808",
        "-9223372036854775808", "-9223372036854775809", "+9223372036854775807", "+9223372036854775808",
        "92233720368547758070", "18446744073709551616", "", "-", "+", "1a", "a1", "1 ", " 1", "1.5", "--1",
        "+-1", "１", "1e3", "99999999999999999999999999",
    ];
    for t in texts {
        assert_eq!(parse_integer(t), t.parse::<i64>().ok(), "text {:?}", t);
    }
    assert!(has_char("1.5", '.'));
    assert!(!has_char("15", '.'));
    assert!(!has_char("", '.'));
}

#[test]
fn create_table_is_translated() {
    let stmt = SqlStatement::CreateTable {
        name: "users".to_string(),
        columns: vec![
            SqlColumn { name: "id".to_string(), data_type: SqlType::Integer, options: vec![SqlColumnOption::PrimaryKey] },
            SqlColumn { name: "name".to_string(), data_type: SqlType::Varchar, options: vec![SqlColumnOption::Other, SqlColumnOption::NotNull] },
            SqlColumn { name: "score".to_string(), data_type: SqlType::Double, options: vec![] },
            SqlColumn { name: "ok".to_string(), data_type: SqlType::Boolean, options: vec![] },
        ],
    };
    match QueryParser::translate(&vec![stmt]).unwrap() {
        Query::CreateTable { name, schema } => {
            assert_eq!(name, "users");
            let got: Vec<(String, DataType, bool, bool)> =
                schema.columns.iter().map(|c| (c.name.clone(), c.data_type, c.primary_key, c.nullable)).collect();
            assert_eq!(
                got,
                vec![
                    ("id".to_string(), DataType::Integer, true, true),
                    ("name".to_string(), DataType::Text, false, false),
                    ("score".to_string(), DataType::Float, false, true),
                    ("ok".to_string(), DataType::Boolean, false, true),
                ]
            );
        }
        other => panic!("wrong query {:?}", other),
    }
    let bad = SqlStatement::CreateTable {
        name: "t".to_string(),
        columns: vec![
            SqlColumn { name: "a".to_string(), data_type: SqlType::Int, options: vec![] },
            SqlColumn { name: "b".to_string(), data_type: SqlType::Other("Date".to_string()), options: vec![] },
            SqlColumn { name: "c".to_string(), data_type: SqlType::Other("Time".to_string()), options: vec![] },
        ],
    };
    assert_eq!(reason(QueryParser::translate(&vec![bad])), "Unsupported data type: Date");
}

#[test]
fn insert_is_translated() {
    let stmt = SqlStatement::Insert {
        table_name: name(&["main", "users"]),
        source: SqlSource::Values(vec![
            vec![
                number("1"),
                number("2.5"),
                SqlOperand::SingleQuoted("a".to_string()),
                SqlOperand::DoubleQuoted("b".to_string()),
                SqlOperand::Boolean(true),
                SqlOperand::Null,
            ],
            vec![number("2")],
        ]),
    };
    match QueryParser::translate(&vec![stmt]).unwrap() {
        Query::Insert { table_name, values } => {
            assert_eq!(table_name, "main.users");
            assert_eq!(
                values,
                vec![
                    Value::Integer(1),
                    Value::Float(2500),
                    Value::Text("a".to_string()),
                    Value::Text("b".to_string()),
                    Value::Boolean(true),
                    Value::Null
                ]
            );
        }
        other => panic!("wrong query {:?}", other),
    }
    let insert = |source| QueryParser::translate(&vec![SqlStatement::Insert { table_name: name(&["t"]), source }]);
    assert_eq!(reason(insert(SqlSource::Values(vec![]))), "No values provided");
    assert_eq!(reason(insert(SqlSource::Missing)), "No values provided");
    assert_eq!(reason(insert(SqlSource::Other)), "Unsupported INSERT format");
    assert_eq!(
        reason(insert(SqlSource::Values(vec![vec![number("1"), SqlOperand::Other("-(2)".to_string()), number("x")]]))),
        "Unsupported value expression: -(2)"
    );
    assert_eq!(
        reason(insert(SqlSource::Values(vec![vec![number("99999999999999999999")]]))),
        "invalid integer literal"
    );
    assert_eq!(
        reason(insert(SqlSource::Values(vec![vec![SqlOperand::Number { text: "1.x".to_string(), scaled: None }]]))),
        "invalid float literal"
    );
}

#[test]
fn select_is_translated() {
    let select = |from, selection| QueryParser::translate(&vec![SqlStatement::Query { body: SqlBody::Select { from, selection } }]);
    match select(vec![SqlRelation::Table(name(&["t"])), SqlRelation::Other], None).unwrap() {
        Query::Select { table_name, where_clause } => {
            assert_eq!(table_name, "t");
            assert!(where_clause.is_none());
        }
        other => panic!("wrong query {:?}", other),
    }
    match select(vec![SqlRelation::Table(name(&["t"]))], Some(equals("id", number("5")))).unwrap() {
        Query::Select { table_name, where_clause } => {
            assert_eq!(table_name, "t");
            let w = where_clause.unwrap();
            assert_eq!(w.column, "id");
            assert_eq!(w.value, Value::Integer(5));
        }
        other => panic!("wrong query {:?}", other),
    }
    assert_eq!(reason(select(vec![], None)), "No table specified in SELECT");
    assert_eq!(reason(select(vec![SqlRelation::Other], None)), "Unsupported table reference");
    assert_eq!(
        reason(QueryParser::translate(&vec![SqlStatement::Query { body: SqlBody::Other }])),
        "Unsupported SELECT format"
    );
    let t = || vec![SqlRelation::Table(name(&["t"]))];
    assert_eq!(reason(select(t(), Some(SqlCondition::Other))), "Unsupported WHERE clause format");
    assert_eq!(
        reason(select(
            t(),
            Some(SqlCondition::Comparison {
                left: SqlOperand::Identifier("a".to_string()),
                is_equality: false,
                right: number("1")
            })
        )),
        "Only = operator is supported in WHERE clause"
    );
    assert_eq!(
        reason(select(t(), Some(SqlCondition::Comparison { left: number("1"), is_equality: true, right: number("1") }))),
        "Expected column name in WHERE clause"
    );
    assert_eq!(
        reason(select(t(), Some(equals("a", SqlOperand::Identifier("b".to_string()))))),
        "Unsupported value expression: b"
    );
}

#[test]
fn update_is_translated() {
    let update = |table, assignments, selection| {
        QueryParser::translate(&vec![SqlStatement::Update { table, assignments, selection }])
    };
    let t = || SqlRelation::Table(name(&["t"]));
    let set = || vec![SqlAssignment { target: Some(name(&["age"])), value: number("31") }];
    match update(t(), set(), Some(equals("id", number("1")))).unwrap() {
        Query::Update { table_name, set_column, set_value, where_clause } => {
            assert_eq!(table_name, "t");
            assert_eq!(set_column, "age");
            assert_eq!(set_value, Value::Integer(31));
            assert_eq!(where_clause.column, "id");
            assert_eq!(where_clause.value, Value::Integer(1));
        }
        other => panic!("wrong query {:?}", other),
    }
    assert!(matches!(update(t(), set(), None), Err(DbError::MissingRequiredFilter(k)) if k == "UPDATE"));
    assert_eq!(reason(update(t(), set(), None)), "UPDATE requires WHERE clause");
    assert_eq!(reason(update(SqlRelation::Other, set(), None)), "Unsupported table reference");
    assert_eq!(reason(update(t(), vec![], None)), "Only single column updates are supported");
    let two = vec![
        SqlAssignment { target: Some(name(&["a"])), value: number("1") },
        SqlAssignment { target: Some(name(&["b"])), value: number("2") },
    ];
    assert_eq!(reason(update(t(), two, None)), "Only single column updates are supported");
    assert_eq!(
        reason(update(t(), vec![SqlAssignment { target: None, value: number("1") }], None)),
        "Unsupported assignment target"
    );
}

#[test]
fn delete_and_create_index_are_translated() {
    let delete = |tables, selection| QueryParser::translate(&vec![SqlStatement::Delete { tables, selection }]);
    match delete(vec![name(&["t"])], Some(equals("id", number("1")))).unwrap() {
        Query::Delete { table_name, where_clause } => {
            assert_eq!(table_name, "t");
            assert_eq!(where_clause.column, "id");
            assert_eq!(where_clause.value, Value::Integer(1));
        }
        other => panic!("wrong query {:?}", other),
    }
    assert_eq!(reason(delete(vec![], None)), "No table specified");
    assert_eq!(reason(delete(vec![name(&["t"])], None)), "DELETE requires WHERE clause");
    let index = |columns| QueryParser::translate(&vec![SqlStatement::CreateIndex { table_name: "t".to_string(), columns }]);
    match index(vec!["name".to_string()]).unwrap() {
        Query::CreateIndex { table_name, column_name } => {
            assert_eq!(table_name, "t");
            assert_eq!(column_name, "name");
        }
        other => panic!("wrong query {:?}", other),
    }
    assert_eq!(reason(index(vec![])), "Only single column indexes are supported");
    assert_eq!(reason(index(vec!["a".to_string(), "b".to_string()])), "Only single column indexes are supported");
}

#[test]
fn only_single_supported_statements_are_translated() {
    assert_eq!(reason(QueryParser::translate(&vec![])), "Only single statements are supported");
    assert_eq!(
        reason(QueryParser::translate(&vec![SqlStatement::Other, SqlStatement::Other])),
        "Only single statements are supported"
    );
    assert_eq!(reason(QueryParser::translate(&vec![SqlStatement::Other])), "Unsupported SQL statement");
}

#[test]
fn errors_say_what_went_wrong() {
    assert_eq!(DbError::TableNotFound("t".to_string()).message(), "Table 't' not found");
    assert_eq!(DbError::TableAlreadyExists("t".to_string()).message(), "Table 't' already exists");
    assert_eq!(DbError::ColumnNotFound("c".to_string()).message(), "Column not found: c");
    assert_eq!(DbError::ArityMismatch { expected: 3, found: 12 }.message(), "Expected 3 values, got 12");
    assert_eq!(DbError::ConstraintViolation.message(), "Primary key violation: duplicate value");
    assert_eq!(DbError::IndexAlreadyExists("c".to_string()).message(), "Index already exists on column: c");
    assert_eq!(DbError::MissingRequiredFilter("DELETE".to_string()).message(), "DELETE requires WHERE clause");
    assert_eq!(DbError::TranslationError("why".to_string()).message(), "why");
    assert!(DbError::UnsupportedComparison.message().starts_with("Unsupported comparison"));
    assert!(DbError::CapacityExhausted.message().starts_with("Table is full"));
}
