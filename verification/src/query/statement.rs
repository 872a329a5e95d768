//! Statements as a grammar hands them over: the parts of a parsed statement
//! that decide what query it is, as plain values.

use vstd::prelude::*;

verus! {

/// The declared type of a column.
#[derive(Debug)]
pub enum SqlType {
    Int,
    Integer,
    BigInt,
    Float,
    Double,
    Real,
    Text,
    Varchar,
    Str,
    Boolean,
    /// Any other type, as it is shown.
    Other(String),
}

/// One option of a column definition.
#[derive(Debug, Clone, Copy, PartialEq, Eq, Structural)]
pub enum SqlColumnOption {
    PrimaryKey,
    NotNull,
    Other,
}

/// One column definition.
#[derive(Debug)]
pub struct SqlColumn {
    pub name: String,
    pub data_type: SqlType,
    pub options: Vec<SqlColumnOption>,
}

/// One side of a comparison, an inserted value or an assigned value.
#[derive(Debug)]
pub enum SqlOperand {
    /// A number as it was written. For a number written with a decimal
    /// point, `scaled` is the number times one thousand, cut to an integer,
    /// if the number could be read.
    Number { text: String, scaled: Option<i64> },
    SingleQuoted(String),
    DoubleQuoted(String),
    Boolean(bool),
    Null,
    Identifier(String),
    /// Any other expression, as it is shown.
    Other(String),
}

/// The condition of a statement.
#[derive(Debug)]
pub enum SqlCondition {
    /// Two operands and an operator between them, which is `=` or not.
    Comparison { left: SqlOperand, is_equality: bool, right: SqlOperand },
    Other,
}

/// What a statement reads from or writes to.
#[derive(Debug)]
pub enum SqlRelation {
    /// A table, by the parts of its name.
    Table(Vec<String>),
    Other,
}

/// Where the rows of an insert come from.
#[derive(Debug)]
pub enum SqlSource {
    /// Rows written out, each a list of operands.
    Values(Vec<Vec<SqlOperand>>),
    Other,
    Missing,
}

/// The body of a query statement.
#[derive(Debug)]
pub enum SqlBody {
    Select { from: Vec<SqlRelation>, selection: Option<SqlCondition> },
    Other,
}

/// One assignment of an update. The target is the parts of a column's name,
/// or nothing where it is no single column.
#[derive(Debug)]
pub struct SqlAssignment {
    pub target: Option<Vec<String>>,
    pub value: SqlOperand,
}

/// One parsed statement.
#[derive(Debug)]
#[allow(inconsistent_fields)]
pub enum SqlStatement {
    CreateTable { name: String, columns: Vec<SqlColumn> },
    Insert { table_name: Vec<String>, source: SqlSource },
    Query { body: SqlBody },
    Update { table: SqlRelation, assignments: Vec<SqlAssignment>, selection: Option<SqlCondition> },
    Delete { tables: Vec<Vec<String>>, selection: Option<SqlCondition> },
    CreateIndex { table_name: String, columns: Vec<String> },
    Other,
}

} // verus!
