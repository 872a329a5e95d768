//! The structured form of a statement, and how a parsed statement becomes one.

use vstd::prelude::*;
use vstd::string::*;
use super::number::{has_char, integer_of, parse_integer};
use super::statement::{
    SqlAssignment,
    SqlBody,
    SqlColumn,
    SqlColumnOption,
    SqlCondition,
    SqlOperand,
    SqlRelation,
    SqlSource,
    SqlStatement,
    SqlType,
};
use crate::error::{DbError, DbErrorView};
use crate::storage::{
    clone_values,
    values_view,
    Column,
    ColumnView,
    DataType,
    Schema,
    Value,
    ValueView,
};

verus! {

/// The mathematical content of a [`WhereClause`]: a column and the value it
/// must hold.
pub struct WhereView {
    pub column: Seq<char>,
    pub value: ValueView,
}

/// A filter: rows that hold `value` in the column `column`.
#[derive(Debug)]
pub struct WhereClause {
    pub column: String,
    pub value: Value,
}

impl View for WhereClause {
    type V = WhereView;

    open spec fn view(&self) -> WhereView {
        WhereView { column: self.column@, value: self.value@ }
    }
}

impl Clone for WhereClause {
    fn clone(&self) -> (res: Self)
        ensures
            res@ == self@,
    {
        WhereClause { column: self.column.clone(), value: self.value.clone() }
    }
}

/// The mathematical content of a [`Query`].
#[allow(inconsistent_fields)]
pub enum QueryView {
    CreateTable { name: Seq<char>, columns: Seq<ColumnView> },
    Insert { table_name: Seq<char>, values: Seq<ValueView> },
    Select { table_name: Seq<char>, where_clause: Option<WhereView> },
    Update { table_name: Seq<char>, set_column: Seq<char>, set_value: ValueView, where_clause: WhereView },
    Delete { table_name: Seq<char>, where_clause: WhereView },
    CreateIndex { table_name: Seq<char>, column_name: Seq<char> },
}

/// A statement in structured form.
#[derive(Debug)]
#[allow(inconsistent_fields)]
pub enum Query {
    /// Makes a table of the given name and columns.
    CreateTable { name: String, schema: Schema },
    /// Stores one row.
    Insert { table_name: String, values: Vec<Value> },
    /// Reads the rows that pass the filter, or all rows.
    Select { table_name: String, where_clause: Option<WhereClause> },
    /// Sets one column in the rows that pass the filter.
    Update { table_name: String, set_column: String, set_value: Value, where_clause: WhereClause },
    /// Deletes the rows that pass the filter.
    Delete { table_name: String, where_clause: WhereClause },
    /// Indexes one column.
    CreateIndex { table_name: String, column_name: String },
}

impl View for Query {
    type V = QueryView;

    open spec fn view(&self) -> QueryView {
        match self {
            Query::CreateTable { name, schema } => QueryView::CreateTable {
                name: name@,
                columns: schema@,
            },
            Query::Insert { table_name, values } => QueryView::Insert {
                table_name: table_name@,
                values: values_view(values@),
            },
            Query::Select { table_name, where_clause } => QueryView::Select {
                table_name: table_name@,
                where_clause: match where_clause {
                    Some(w) => Some(w@),
                    None => None,
                },
            },
            Query::Update { table_name, set_column, set_value, where_clause } => QueryView::Update {
                table_name: table_name@,
                set_column: set_column@,
                set_value: set_value@,
                where_clause: where_clause@,
            },
            Query::Delete { table_name, where_clause } => QueryView::Delete {
                table_name: table_name@,
                where_clause: where_clause@,
            },
            Query::CreateIndex { table_name, column_name } => QueryView::CreateIndex {
                table_name: table_name@,
                column_name: column_name@,
            },
        }
    }
}

impl Clone for Query {
    fn clone(&self) -> (res: Self)
        ensures
            res@ == self@,
    {
        match self {
            Query::CreateTable { name, schema } => Query::CreateTable {
                name: name.clone(),
                schema: schema.clone(),
            },
            Query::Insert { table_name, values } => Query::Insert {
                table_name: table_name.clone(),
                values: clone_values(values),
            },
            Query::Select { table_name, where_clause } => Query::Select {
                table_name: table_name.clone(),
                where_clause: match where_clause {
                    Some(w) => Some(w.clone()),
                    None => None,
                },
            },
            Query::Update { table_name, set_column, set_value, where_clause } => Query::Update {
                table_name: table_name.clone(),
                set_column: set_column.clone(),
                set_value: set_value.clone(),
                where_clause: where_clause.clone(),
            },
            Query::Delete { table_name, where_clause } => Query::Delete {
                table_name: table_name.clone(),
                where_clause: where_clause.clone(),
            },
            Query::CreateIndex { table_name, column_name } => Query::CreateIndex {
                table_name: table_name.clone(),
                column_name: column_name.clone(),
            },
        }
    }
}

/// A statement that cannot be turned into a query, with the reason.
pub open spec fn refused<T>(reason: Seq<char>) -> Result<T, DbErrorView> {
    Err(DbErrorView::TranslationError(reason))
}

/// The parts of a name put together with dots between them.
pub open spec fn joined(parts: Seq<String>) -> Seq<char>
    decreases parts.len(),
{
    if parts.len() == 0 {
        Seq::empty()
    } else if parts.len() == 1 {
        parts[0]@
    } else {
        joined(parts.drop_last()) + "."@ + parts.last()@
    }
}

/// The kind of value that a declared type stands for.
pub open spec fn data_type_of(t: SqlType) -> Result<DataType, DbErrorView> {
    match t {
        SqlType::Int | SqlType::Integer | SqlType::BigInt => Ok(DataType::Integer),
        SqlType::Float | SqlType::Double | SqlType::Real => Ok(DataType::Float),
        SqlType::Text | SqlType::Varchar | SqlType::Str => Ok(DataType::Text),
        SqlType::Boolean => Ok(DataType::Boolean),
        SqlType::Other(shown) => refused("Unsupported data type: "@ + shown@),
    }
}

/// The column that a column definition stands for: a primary key where an
/// option says so, nullable unless an option forbids it.
pub open spec fn column_of(c: SqlColumn) -> Result<ColumnView, DbErrorView> {
    match data_type_of(c.data_type) {
        Ok(data_type) => Ok(
            ColumnView {
                name: c.name@,
                data_type,
                primary_key: c.options@.contains(SqlColumnOption::PrimaryKey),
                nullable: !c.options@.contains(SqlColumnOption::NotNull),
            },
        ),
        Err(e) => Err(e),
    }
}

/// The columns that column definitions stand for; the first definition
/// that stands for none decides.
pub open spec fn columns_of(columns: Seq<SqlColumn>) -> Result<Seq<ColumnView>, DbErrorView>
    decreases columns.len(),
{
    if columns.len() == 0 {
        Ok(Seq::empty())
    } else {
        match columns_of(columns.drop_last()) {
            Err(e) => Err(e),
            Ok(front) => match column_of(columns.last()) {
                Err(e) => Err(e),
                Ok(c) => Ok(front.push(c)),
            },
        }
    }
}

/// The value that an operand stands for. A number written with a decimal
/// point is a fraction, any other number an integer.
pub open spec fn value_of(operand: SqlOperand) -> Result<ValueView, DbErrorView> {
    match operand {
        SqlOperand::Number { text, scaled } => if text@.contains('.') {
            match scaled {
                Some(f) => Ok(ValueView::Float(f)),
                None => refused("invalid float literal"@),
            }
        } else {
            match integer_of(text@) {
                Some(i) => Ok(ValueView::Integer(i)),
                None => refused("invalid integer literal"@),
            }
        },
        SqlOperand::SingleQuoted(s) => Ok(ValueView::Text(s@)),
        SqlOperand::DoubleQuoted(s) => Ok(ValueView::Text(s@)),
        SqlOperand::Boolean(b) => Ok(ValueView::Boolean(b)),
        SqlOperand::Null => Ok(ValueView::Null),
        SqlOperand::Identifier(shown) => refused("Unsupported value expression: "@ + shown@),
        SqlOperand::Other(shown) => refused("Unsupported value expression: "@ + shown@),
    }
}

/// The values that operands stand for; the first operand that stands for
/// none decides.
pub open spec fn values_of(operands: Seq<SqlOperand>) -> Result<Seq<ValueView>, DbErrorView>
    decreases operands.len(),
{
    if operands.len() == 0 {
        Ok(Seq::empty())
    } else {
        match values_of(operands.drop_last()) {
            Err(e) => Err(e),
            Ok(front) => match value_of(operands.last()) {
                Err(e) => Err(e),
                Ok(v) => Ok(front.push(v)),
            },
        }
    }
}

/// The filter that a condition stands for: a column on the left of `=` and
/// a value on the right.
pub open spec fn where_of(condition: SqlCondition) -> Result<WhereView, DbErrorView> {
    match condition {
        SqlCondition::Comparison { left, is_equality, right } => if !is_equality {
            refused("Only = operator is supported in WHERE clause"@)
        } else {
            match left {
                SqlOperand::Identifier(column) => match value_of(right) {
                    Ok(value) => Ok(WhereView { column: column@, value }),
                    Err(e) => Err(e),
                },
                _ => refused("Expected column name in WHERE clause"@),
            }
        },
        SqlCondition::Other => refused("Unsupported WHERE clause format"@),
    }
}

/// The name of the table that a relation stands for.
pub open spec fn table_of(relation: SqlRelation) -> Result<Seq<char>, DbErrorView> {
    match relation {
        SqlRelation::Table(parts) => Ok(joined(parts@)),
        SqlRelation::Other => refused("Unsupported table reference"@),
    }
}

/// The query that making a table stands for.
pub open spec fn create_table_of(name: String, columns: Vec<SqlColumn>) -> Result<
    QueryView,
    DbErrorView,
> {
    match columns_of(columns@) {
        Ok(columns) => Ok(QueryView::CreateTable { name: name@, columns }),
        Err(e) => Err(e),
    }
}

/// The query that an insert stands for: the first of its rows.
pub open spec fn insert_of(table_name: Vec<String>, source: SqlSource) -> Result<
    QueryView,
    DbErrorView,
> {
    match source {
        SqlSource::Values(rows) => if rows@.len() == 0 {
            refused("No values provided"@)
        } else {
            match values_of(rows@[0]@) {
                Ok(values) => Ok(QueryView::Insert { table_name: joined(table_name@), values }),
                Err(e) => Err(e),
            }
        },
        SqlSource::Other => refused("Unsupported INSERT format"@),
        SqlSource::Missing => refused("No values provided"@),
    }
}

/// The query that a select stands for: the first table it reads, with the
/// filter if it has one.
pub open spec fn select_of(body: SqlBody) -> Result<QueryView, DbErrorView> {
    match body {
        SqlBody::Select { from, selection } => if from@.len() == 0 {
            refused("No table specified in SELECT"@)
        } else {
            match table_of(from@[0]) {
                Err(e) => Err(e),
                Ok(table_name) => match selection {
                    None => Ok(QueryView::Select { table_name, where_clause: None }),
                    Some(condition) => match where_of(condition) {
                        Ok(w) => Ok(QueryView::Select { table_name, where_clause: Some(w) }),
                        Err(e) => Err(e),
                    },
                },
            }
        },
        SqlBody::Other => refused("Unsupported SELECT format"@),
    }
}

/// The query that an update stands for: one column set, under a filter.
pub open spec fn update_of(
    table: SqlRelation,
    assignments: Vec<SqlAssignment>,
    selection: Option<SqlCondition>,
) -> Result<QueryView, DbErrorView> {
    match table_of(table) {
        Err(e) => Err(e),
        Ok(table_name) => if assignments@.len() != 1 {
            refused("Only single column updates are supported"@)
        } else {
            match assignments@[0].target {
                None => refused("Unsupported assignment target"@),
                Some(parts) => match value_of(assignments@[0].value) {
                    Err(e) => Err(e),
                    Ok(set_value) => match selection {
                        None => Err(DbErrorView::MissingRequiredFilter("UPDATE"@)),
                        Some(condition) => match where_of(condition) {
                            Err(e) => Err(e),
                            Ok(where_clause) => Ok(
                                QueryView::Update {
                                    table_name,
                                    set_column: joined(parts@),
                                    set_value,
                                    where_clause,
                                },
                            ),
                        },
                    },
                },
            }
        },
    }
}

/// The query that a delete stands for: the first table it names, under a
/// filter.
pub open spec fn delete_of(tables: Vec<Vec<String>>, selection: Option<SqlCondition>) -> Result<
    QueryView,
    DbErrorView,
> {
    if tables@.len() == 0 {
        refused("No table specified"@)
    } else {
        match selection {
            None => Err(DbErrorView::MissingRequiredFilter("DELETE"@)),
            Some(condition) => match where_of(condition) {
                Err(e) => Err(e),
                Ok(where_clause) => Ok(
                    QueryView::Delete { table_name: joined(tables@[0]@), where_clause },
                ),
            },
        }
    }
}

/// The query that making an index stands for: an index on one column.
pub open spec fn create_index_of(table_name: String, columns: Vec<String>) -> Result<
    QueryView,
    DbErrorView,
> {
    if columns@.len() != 1 {
        refused("Only single column indexes are supported"@)
    } else {
        Ok(QueryView::CreateIndex { table_name: table_name@, column_name: columns@[0]@ })
    }
}

/// The query that a statement stands for.
pub open spec fn query_of(statement: SqlStatement) -> Result<QueryView, DbErrorView> {
    match statement {
        SqlStatement::CreateTable { name, columns } => create_table_of(name, columns),
        SqlStatement::Insert { table_name, source } => insert_of(table_name, source),
        SqlStatement::Query { body } => select_of(body),
        SqlStatement::Update { table, assignments, selection } => update_of(
            table,
            assignments,
            selection,
        ),
        SqlStatement::Delete { tables, selection } => delete_of(tables, selection),
        SqlStatement::CreateIndex { table_name, columns } => create_index_of(table_name, columns),
        SqlStatement::Other => refused("Unsupported SQL statement"@),
    }
}

/// The query that a parsed text stands for: it must be one statement.
pub open spec fn translated(statements: Seq<SqlStatement>) -> Result<QueryView, DbErrorView> {
    if statements.len() != 1 {
        refused("Only single statements are supported"@)
    } else {
        query_of(statements[0])
    }
}

/// Whether a result is what the model asks for.
pub open spec fn query_is(res: Result<Query, DbError>, model: Result<QueryView, DbErrorView>) -> bool {
    match model {
        Ok(q) => res matches Ok(x) && x@ == q,
        Err(e) => res matches Err(x) && x@ == e,
    }
}

/// An error that says why a statement is no query.
fn refuse(reason: &str) -> (res: DbError)
    ensures
        res@ == DbErrorView::TranslationError(reason@),
{
    DbError::TranslationError(String::from_str(reason))
}

/// An error that says why a statement is no query, with what was found.
fn refuse_shown(reason: &str, shown: &str) -> (res: DbError)
    ensures
        res@ == DbErrorView::TranslationError(reason@ + shown@),
{
    let mut text = String::from_str(reason);
    text.append(shown);
    DbError::TranslationError(text)
}

/// Whether `option` is among `options`.
fn has_option(options: &Vec<SqlColumnOption>, option: SqlColumnOption) -> (res: bool)
    ensures
        res == options@.contains(option),
{
    let mut i: usize = 0;
    while i < options.len()
        invariant
            i <= options@.len(),
            forall|j: int| 0 <= j < i ==> options@[j] != option,
        decreases options.len() - i,
    {
        if options[i] == option {
            return true;
        }
        i += 1;
    }
    false
}

/// The parts of a name put together with dots between them.
fn join_parts(parts: &Vec<String>) -> (res: String)
    ensures
        res@ == joined(parts@),
{
    let mut out = String::new();
    let mut i: usize = 0;
    while i < parts.len()
        invariant
            i <= parts@.len(),
            out@ == joined(parts@.take(i as int)),
        decreases parts.len() - i,
    {
        proof {
            assert(parts@.take(i + 1).drop_last() =~= parts@.take(i as int));
            assert(parts@.take(i + 1).last() == parts@[i as int]);
        }
        if i > 0 {
            out.append(".");
        }
        out.append(parts[i].as_str());
        proof {
            if i == 0 {
                assert(out@ =~= parts@[0]@);
            }
        }
        i += 1;
    }
    proof {
        assert(parts@.take(i as int) =~= parts@);
    }
    out
}

/// Turns parsed statements into queries.
#[derive(Debug)]
pub struct QueryParser;

impl QueryParser {
    /// The query that a parsed text stands for. The text must hold one
    /// statement, and the statement must be one of the six that a query
    /// can be; an update or a delete must have a filter.
    pub fn translate(statements: &Vec<SqlStatement>) -> (res: Result<Query, DbError>)
        ensures
            query_is(res, translated(statements@)),
    {
        if statements.len() != 1 {
            return Err(refuse("Only single statements are supported"));
        }
        match &statements[0] {
            SqlStatement::CreateTable { name, columns } => Self::parse_create_table(name, columns),
            SqlStatement::Insert { table_name, source } => Self::parse_insert(table_name, source),
            SqlStatement::Query { body } => Self::parse_select(body),
            SqlStatement::Update { table, assignments, selection } => Self::parse_update(
                table,
                assignments,
                selection,
            ),
            SqlStatement::Delete { tables, selection } => Self::parse_delete(tables, selection),
            SqlStatement::CreateIndex { table_name, columns } => Self::parse_create_index(
                table_name,
                columns,
            ),
            SqlStatement::Other => Err(refuse("Unsupported SQL statement")),
        }
    }

    fn parse_create_table(name: &String, columns: &Vec<SqlColumn>) -> (res: Result<Query, DbError>)
        ensures
            query_is(res, create_table_of(*name, *columns)),
    {
        let mut out: Vec<Column> = Vec::new();
        let mut i: usize = 0;
        assert(out@.map_values(|c: Column| c@) =~= Seq::<ColumnView>::empty());
        while i < columns.len()
            invariant
                i <= columns@.len(),
                columns_of(columns@.take(i as int)) == Ok::<Seq<ColumnView>, DbErrorView>(
                    out@.map_values(|c: Column| c@),
                ),
            decreases columns.len() - i,
        {
            proof {
                assert(columns@.take(i + 1).drop_last() =~= columns@.take(i as int));
                assert(columns@.take(i + 1).last() == columns@[i as int]);
            }
            let def = &columns[i];
            let data_type = match Self::parse_data_type(&def.data_type) {
                Ok(t) => t,
                Err(e) => {
                    proof {
                        Self::lemma_columns_fail(columns@, i as int);
                    }
                    return Err(e);
                },
            };
            let ghost before = out@.map_values(|c: Column| c@);
            out.push(
                Column {
                    name: def.name.clone(),
                    data_type,
                    primary_key: has_option(&def.options, SqlColumnOption::PrimaryKey),
                    nullable: !has_option(&def.options, SqlColumnOption::NotNull),
                },
            );
            proof {
                assert(out@.map_values(|c: Column| c@) =~= before.push(column_of(*def)->Ok_0));
            }
            i += 1;
        }
        proof {
            assert(columns@.take(i as int) =~= columns@);
        }
        Ok(Query::CreateTable { name: name.clone(), schema: Schema::new(out) })
    }

    /// Column definitions stand for no columns once one of them stands for
    /// none.
    proof fn lemma_columns_fail(columns: Seq<SqlColumn>, i: int)
        requires
            0 <= i < columns.len(),
            columns_of(columns.take(i)) is Ok,
            column_of(columns[i]) is Err,
        ensures
            columns_of(columns) == Err::<Seq<ColumnView>, DbErrorView>(
                column_of(columns[i])->Err_0,
            ),
        decreases columns.len(),
    {
        if i == columns.len() - 1 {
            assert(columns.drop_last() =~= columns.take(i));
        } else {
            assert(columns.drop_last().take(i) =~= columns.take(i));
            Self::lemma_columns_fail(columns.drop_last(), i);
        }
    }

    fn parse_insert(table_name: &Vec<String>, source: &SqlSource) -> (res: Result<Query, DbError>)
        ensures
            query_is(res, insert_of(*table_name, *source)),
    {
        let name = join_parts(table_name);
        match source {
            SqlSource::Values(rows) => {
                if rows.len() == 0 {
                    return Err(refuse("No values provided"));
                }
                match Self::parse_values(&rows[0]) {
                    Ok(values) => Ok(Query::Insert { table_name: name, values }),
                    Err(e) => Err(e),
                }
            },
            SqlSource::Other => Err(refuse("Unsupported INSERT format")),
            SqlSource::Missing => Err(refuse("No values provided")),
        }
    }

    fn parse_select(body: &SqlBody) -> (res: Result<Query, DbError>)
        ensures
            query_is(res, select_of(*body)),
    {
        match body {
            SqlBody::Select { from, selection } => {
                let table_name = match Self::extract_table_name(from) {
                    Ok(n) => n,
                    Err(e) => {
                        return Err(e);
                    },
                };
                let where_clause = match selection {
                    Some(condition) => match Self::parse_where_clause(condition) {
                        Ok(w) => Some(w),
                        Err(e) => {
                            return Err(e);
                        },
                    },
                    None => None,
                };
                Ok(Query::Select { table_name, where_clause })
            },
            SqlBody::Other => Err(refuse("Unsupported SELECT format")),
        }
    }

    fn parse_update(
        table: &SqlRelation,
        assignments: &Vec<SqlAssignment>,
        selection: &Option<SqlCondition>,
    ) -> (res: Result<Query, DbError>)
        ensures
            query_is(res, update_of(*table, *assignments, *selection)),
    {
        let table_name = match table {
            SqlRelation::Table(parts) => join_parts(parts),
            SqlRelation::Other => {
                return Err(refuse("Unsupported table reference"));
            },
        };
        if assignments.len() != 1 {
            return Err(refuse("Only single column updates are supported"));
        }
        let assignment = &assignments[0];
        let set_column = match &assignment.target {
            Some(parts) => join_parts(parts),
            None => {
                return Err(refuse("Unsupported assignment target"));
            },
        };
        let set_value = match Self::parse_value(&assignment.value) {
            Ok(v) => v,
            Err(e) => {
                return Err(e);
            },
        };
        let where_clause = match selection {
            Some(condition) => match Self::parse_where_clause(condition) {
                Ok(w) => w,
                Err(e) => {
                    return Err(e);
                },
            },
            None => {
                return Err(DbError::MissingRequiredFilter(String::from_str("UPDATE")));
            },
        };
        Ok(Query::Update { table_name, set_column, set_value, where_clause })
    }

    fn parse_delete(tables: &Vec<Vec<String>>, selection: &Option<SqlCondition>) -> (res: Result<
        Query,
        DbError,
    >)
        ensures
            query_is(res, delete_of(*tables, *selection)),
    {
        if tables.len() == 0 {
            return Err(refuse("No table specified"));
        }
        let table_name = join_parts(&tables[0]);
        let where_clause = match selection {
            Some(condition) => match Self::parse_where_clause(condition) {
                Ok(w) => w,
                Err(e) => {
                    return Err(e);
                },
            },
            None => {
                return Err(DbError::MissingRequiredFilter(String::from_str("DELETE")));
            },
        };
        Ok(Query::Delete { table_name, where_clause })
    }

    fn parse_create_index(table_name: &String, columns: &Vec<String>) -> (res: Result<
        Query,
        DbError,
    >)
        ensures
            query_is(res, create_index_of(*table_name, *columns)),
    {
        if columns.len() != 1 {
            return Err(refuse("Only single column indexes are supported"));
        }
        Ok(
            Query::CreateIndex {
                table_name: table_name.clone(),
                column_name: columns[0].clone(),
            },
        )
    }

    fn parse_data_type(sql_type: &SqlType) -> (res: Result<DataType, DbError>)
        ensures
            match data_type_of(*sql_type) {
                Ok(t) => res == Ok::<DataType, DbError>(t),
                Err(e) => res matches Err(x) && x@ == e,
            },
    {
        match sql_type {
            SqlType::Int | SqlType::Integer | SqlType::BigInt => Ok(DataType::Integer),
            SqlType::Float | SqlType::Double | SqlType::Real => Ok(DataType::Float),
            SqlType::Text | SqlType::Varchar | SqlType::Str => Ok(DataType::Text),
            SqlType::Boolean => Ok(DataType::Boolean),
            SqlType::Other(shown) => Err(refuse_shown("Unsupported data type: ", shown.as_str())),
        }
    }

    fn parse_values(operands: &Vec<SqlOperand>) -> (res: Result<Vec<Value>, DbError>)
        ensures
            match values_of(operands@) {
                Ok(values) => res matches Ok(x) && values_view(x@) == values,
                Err(e) => res matches Err(x) && x@ == e,
            },
    {
        let mut out: Vec<Value> = Vec::new();
        let mut i: usize = 0;
        assert(values_view(out@) =~= Seq::<ValueView>::empty());
        while i < operands.len()
            invariant
                i <= operands@.len(),
                values_of(operands@.take(i as int)) == Ok::<Seq<ValueView>, DbErrorView>(
                    values_view(out@),
                ),
            decreases operands.len() - i,
        {
            proof {
                assert(operands@.take(i + 1).drop_last() =~= operands@.take(i as int));
                assert(operands@.take(i + 1).last() == operands@[i as int]);
            }
            let value = match Self::parse_value(&operands[i]) {
                Ok(v) => v,
                Err(e) => {
                    proof {
                        Self::lemma_values_fail(operands@, i as int);
                    }
                    return Err(e);
                },
            };
            let ghost before = values_view(out@);
            out.push(value);
            proof {
                assert(values_view(out@) =~= before.push(value@));
            }
            i += 1;
        }
        proof {
            assert(operands@.take(i as int) =~= operands@);
        }
        Ok(out)
    }

    /// Operands stand for no values once one of them stands for none.
    proof fn lemma_values_fail(operands: Seq<SqlOperand>, i: int)
        requires
            0 <= i < operands.len(),
            values_of(operands.take(i)) is Ok,
            value_of(operands[i]) is Err,
        ensures
            values_of(operands) == Err::<Seq<ValueView>, DbErrorView>(value_of(operands[i])->Err_0),
        decreases operands.len(),
    {
        if i == operands.len() - 1 {
            assert(operands.drop_last() =~= operands.take(i));
        } else {
            assert(operands.drop_last().take(i) =~= operands.take(i));
            Self::lemma_values_fail(operands.drop_last(), i);
        }
    }

    fn parse_value(operand: &SqlOperand) -> (res: Result<Value, DbError>)
        ensures
            match value_of(*operand) {
                Ok(v) => res matches Ok(x) && x@ == v,
                Err(e) => res matches Err(x) && x@ == e,
            },
    {
        match operand {
            SqlOperand::Number { text, scaled } => {
                if has_char(text.as_str(), '.') {
                    match scaled {
                        Some(f) => Ok(Value::Float(*f)),
                        None => Err(refuse("invalid float literal")),
                    }
                } else {
                    match parse_integer(text.as_str()) {
                        Some(i) => Ok(Value::Integer(i)),
                        None => Err(refuse("invalid integer literal")),
                    }
                }
            },
            SqlOperand::SingleQuoted(s) => Ok(Value::Text(s.clone())),
            SqlOperand::DoubleQuoted(s) => Ok(Value::Text(s.clone())),
            SqlOperand::Boolean(b) => Ok(Value::Boolean(*b)),
            SqlOperand::Null => Ok(Value::Null),
            SqlOperand::Identifier(shown) => Err(
                refuse_shown("Unsupported value expression: ", shown.as_str()),
            ),
            SqlOperand::Other(shown) => Err(
                refuse_shown("Unsupported value expression: ", shown.as_str()),
            ),
        }
    }

    fn extract_table_name(from: &Vec<SqlRelation>) -> (res: Result<String, DbError>)
        ensures
            if from@.len() == 0 {
                res matches Err(x) && x@ == DbErrorView::TranslationError(
                    "No table specified in SELECT"@,
                )
            } else {
                match table_of(from@[0]) {
                    Ok(n) => res matches Ok(x) && x@ == n,
                    Err(e) => res matches Err(x) && x@ == e,
                }
            },
    {
        if from.len() == 0 {
            return Err(refuse("No table specified in SELECT"));
        }
        match &from[0] {
            SqlRelation::Table(parts) => Ok(join_parts(parts)),
            SqlRelation::Other => Err(refuse("Unsupported table reference")),
        }
    }

    fn parse_where_clause(condition: &SqlCondition) -> (res: Result<WhereClause, DbError>)
        ensures
            match where_of(*condition) {
                Ok(w) => res matches Ok(x) && x@ == w,
                Err(e) => res matches Err(x) && x@ == e,
            },
    {
        match condition {
            SqlCondition::Comparison { left, is_equality, right } => {
                if !*is_equality {
                    return Err(refuse("Only = operator is supported in WHERE clause"));
                }
                let column = match left {
                    SqlOperand::Identifier(name) => name.clone(),
                    _ => {
                        return Err(refuse("Expected column name in WHERE clause"));
                    },
                };
                match Self::parse_value(right) {
                    Ok(value) => Ok(WhereClause { column, value }),
                    Err(e) => Err(e),
                }
            },
            SqlCondition::Other => Err(refuse("Unsupported WHERE clause format")),
        }
    }
}

} // verus!
