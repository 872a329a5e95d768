//! The database: a set of tables by name, and the execution of queries on it.

use vstd::prelude::*;
use vstd::string::*;
use super::parser::{Query, QueryView, WhereView};
use crate::error::{DbError, DbErrorView};
use crate::storage::laws::{lemma_delete_all_inv, lemma_update_all_inv};
use crate::storage::model::TableState;
use crate::storage::order::text_equal;
use crate::storage::table::{rows_view, Table};
use crate::storage::text::{decimal, push_decimal};
use crate::storage::{ColumnView, Row, ValueView};

verus! {

/// The tables of a database, in the order in which they were made.
pub type DbState = Seq<TableState>;

/// The mathematical content of a [`QueryResult`].
pub enum QueryResultView {
    Rows { rows: Seq<Seq<ValueView>>, column_names: Seq<Seq<char>> },
    Message(Seq<char>),
}

/// What a query gives back: rows with the names of their columns, or a
/// message.
#[derive(Debug)]
pub enum QueryResult {
    /// The rows of a select.
    Rows { rows: Vec<Row>, column_names: Vec<String> },
    /// The report of any other statement.
    Message(String),
}

/// The contents of a list of names.
pub open spec fn names_view(names: Seq<String>) -> Seq<Seq<char>> {
    names.map_values(|s: String| s@)
}

impl View for QueryResult {
    type V = QueryResultView;

    open spec fn view(&self) -> QueryResultView {
        match self {
            QueryResult::Rows { rows, column_names } => QueryResultView::Rows {
                rows: rows_view(rows@),
                column_names: names_view(column_names@),
            },
            QueryResult::Message(text) => QueryResultView::Message(text@),
        }
    }
}

/// Whether `i` is the first table of `db` that is called `name`.
pub open spec fn is_first_table(db: DbState, name: Seq<char>, i: int) -> bool {
    &&& 0 <= i < db.len()
    &&& db[i].name == name
    &&& forall|j: int| 0 <= j < i ==> (#[trigger] db[j]).name != name
}

/// The position of the table called `name`, if there is one.
pub open spec fn table_position(db: DbState, name: Seq<char>) -> Option<int> {
    if exists|i: int| is_first_table(db, name, i) {
        Some(choose|i: int| is_first_table(db, name, i))
    } else {
        None
    }
}

/// The first table called `name` is the one that `table_position` gives.
pub proof fn lemma_table_position(db: DbState, name: Seq<char>, i: int)
    requires
        is_first_table(db, name, i),
    ensures
        table_position(db, name) == Some(i),
{
    let k = choose|k: int| is_first_table(db, name, k);
    if k < i {
        assert(db[k].name != name);
    }
    if i < k {
        assert(db[i].name != name);
    }
}

/// Where some table up to `j` is called `name`, there is a first one.
pub proof fn lemma_some_first_table(db: DbState, name: Seq<char>, j: int)
    requires
        0 <= j < db.len(),
        db[j].name == name,
    ensures
        table_position(db, name) is Some,
    decreases j,
{
    if exists|k: int| 0 <= k < j && (#[trigger] db[k]).name == name {
        let k = choose|k: int| 0 <= k < j && (#[trigger] db[k]).name == name;
        lemma_some_first_table(db, name, k);
    } else {
        assert(is_first_table(db, name, j));
    }
}

/// The names of the columns, in order.
pub open spec fn column_names(columns: Seq<ColumnView>) -> Seq<Seq<char>> {
    columns.map_values(|c: ColumnView| c.name)
}

/// The report of a statement that made a table.
pub open spec fn created_message(name: Seq<char>) -> Seq<char> {
    "Table '"@ + name + "' created"@
}

/// The report of a statement that stored a row.
pub open spec fn inserted_message(table_name: Seq<char>) -> Seq<char> {
    "1 row inserted into '"@ + table_name + "'"@
}

/// The report of an update that changed `count` rows.
pub open spec fn updated_message(count: usize, table_name: Seq<char>) -> Seq<char> {
    decimal(count as nat) + " row(s) updated in '"@ + table_name + "'"@
}

/// The report of a delete that deleted `count` rows.
pub open spec fn deleted_message(count: usize, table_name: Seq<char>) -> Seq<char> {
    decimal(count as nat) + " row(s) deleted from '"@ + table_name + "'"@
}

/// The report of a statement that indexed a column.
pub open spec fn indexed_message(table_name: Seq<char>, column_name: Seq<char>) -> Seq<char> {
    "Index created on '"@ + table_name + "."@ + column_name + "'"@
}

/// What a filter of a query asks of a table.
pub open spec fn filter_of(where_clause: Option<WhereView>) -> Option<(Seq<char>, ValueView)> {
    match where_clause {
        Some(w) => Some((w.column, w.value)),
        None => None,
    }
}

/// What a query makes of a database and what it gives back. A query that
/// fails leaves the database as it was.
pub open spec fn run_query(db: DbState, query: QueryView) -> (
    DbState,
    Result<QueryResultView, DbErrorView>,
) {
    match query {
        QueryView::CreateTable { name, columns } => {
            if table_position(db, name) is Some {
                (db, Err(DbErrorView::TableAlreadyExists(name)))
            } else {
                (
                    db.push(TableState::empty(name, columns)),
                    Ok(QueryResultView::Message(created_message(name))),
                )
            }
        },
        QueryView::Insert { table_name, values } => match table_position(db, table_name) {
            None => (db, Err(DbErrorView::TableNotFound(table_name))),
            Some(i) => match db[i].insert(values) {
                Ok((table, _)) => (
                    db.update(i, table),
                    Ok(QueryResultView::Message(inserted_message(table_name))),
                ),
                Err(e) => (db, Err(e)),
            },
        },
        QueryView::Select { table_name, where_clause } => match table_position(db, table_name) {
            None => (db, Err(DbErrorView::TableNotFound(table_name))),
            Some(i) => match db[i].select(filter_of(where_clause)) {
                Ok(rows) => (
                    db,
                    Ok(QueryResultView::Rows { rows, column_names: column_names(db[i].columns) }),
                ),
                Err(e) => (db, Err(e)),
            },
        },
        QueryView::Update { table_name, set_column, set_value, where_clause } => match table_position(
            db,
            table_name,
        ) {
            None => (db, Err(DbErrorView::TableNotFound(table_name))),
            Some(i) => match db[i].update(
                where_clause.column,
                where_clause.value,
                set_column,
                set_value,
            ) {
                Ok((table, count)) => (
                    db.update(i, table),
                    Ok(QueryResultView::Message(updated_message(count, table_name))),
                ),
                Err(e) => (db, Err(e)),
            },
        },
        QueryView::Delete { table_name, where_clause } => match table_position(db, table_name) {
            None => (db, Err(DbErrorView::TableNotFound(table_name))),
            Some(i) => match db[i].delete(where_clause.column, where_clause.value) {
                Ok((table, count)) => (
                    db.update(i, table),
                    Ok(QueryResultView::Message(deleted_message(count, table_name))),
                ),
                Err(e) => (db, Err(e)),
            },
        },
        QueryView::CreateIndex { table_name, column_name } => match table_position(db, table_name) {
            None => (db, Err(DbErrorView::TableNotFound(table_name))),
            Some(i) => match db[i].create_index(column_name) {
                Ok(table) => (
                    db.update(i, table),
                    Ok(QueryResultView::Message(indexed_message(table_name, column_name))),
                ),
                Err(e) => (db, Err(e)),
            },
        },
    }
}

/// A database as it should be: every table is as its model asks, and no two
/// tables have one name.
pub open spec fn db_inv(db: DbState) -> bool {
    &&& forall|i: int| 0 <= i < db.len() ==> (#[trigger] db[i]).inv()
    &&& forall|i: int, j: int|
        0 <= i < j < db.len() ==> (#[trigger] db[i]).name != (#[trigger] db[j]).name
}

/// The text `a` followed by `b` and `c`.
fn join3(a: &str, b: &str, c: &str) -> (res: String)
    ensures
        res@ == a@ + b@ + c@,
{
    let mut out = String::from_str(a);
    out.append(b);
    out.append(c);
    out
}

/// The numeral of `count` followed by `b`, `c` and `d`.
fn count_message(count: usize, b: &str, c: &str, d: &str) -> (res: String)
    ensures
        res@ == decimal(count as nat) + b@ + c@ + d@,
{
    let mut out = String::new();
    push_decimal(&mut out, count as u64);
    assert(out@ =~= decimal(count as nat));
    out.append(b);
    out.append(c);
    out.append(d);
    out
}

/// Copies of the names of the columns of `table`.
fn names_of(table: &Table) -> (res: Vec<String>)
    ensures
        names_view(res@) == column_names(table@.columns),
{
    let schema = table.get_schema();
    let mut out: Vec<String> = Vec::new();
    let mut i: usize = 0;
    while i < schema.columns.len()
        invariant
            i <= schema.columns@.len(),
            out@.len() == i,
            forall|j: int| 0 <= j < i ==> (#[trigger] out@[j])@ == schema@[j].name,
        decreases schema.columns.len() - i,
    {
        out.push(schema.columns[i].name.clone());
        i += 1;
    }
    assert(names_view(out@) =~= column_names(schema@));
    out
}

/// A database: tables by name.
#[derive(Debug)]
pub struct QueryExecutor {
    tables: Vec<Table>,
}

impl View for QueryExecutor {
    type V = DbState;

    closed spec fn view(&self) -> DbState {
        self.tables@.map_values(|t: Table| t@)
    }
}

impl QueryExecutor {
    /// Every table is well-formed, and no two tables have one name.
    pub closed spec fn wf(&self) -> bool {
        &&& forall|i: int| 0 <= i < self.tables@.len() ==> (#[trigger] self.tables@[i]).wf()
        &&& forall|i: int, j: int|
            0 <= i < j < self.tables@.len() ==> (#[trigger] self.tables@[i])@.name != (
            #[trigger] self.tables@[j])@.name
    }

    /// A well-formed database is as it should be.
    pub proof fn lemma_wf(&self)
        requires
            self.wf(),
        ensures
            db_inv(self@),
    {
        assert forall|i: int| 0 <= i < self@.len() implies (#[trigger] self@[i]).inv() by {
            self.tables@[i].lemma_wf();
        }
    }

    /// A database without tables.
    pub fn new() -> (res: Self)
        ensures
            res.wf(),
            res@ == Seq::<TableState>::empty(),
    {
        let res = Self { tables: Vec::new() };
        assert(res@ =~= Seq::<TableState>::empty());
        res
    }

    /// The position of the table called `name`.
    fn find_table(&self, name: &str) -> (res: Option<usize>)
        ensures
            match res {
                Some(i) => table_position(self@, name@) == Some(i as int) && i < self.tables@.len(),
                None => table_position(self@, name@) is None,
            },
    {
        let mut i: usize = 0;
        while i < self.tables.len()
            invariant
                i <= self.tables@.len(),
                forall|j: int| 0 <= j < i ==> (#[trigger] self@[j]).name != name@,
            decreases self.tables.len() - i,
        {
            if text_equal(self.tables[i].name(), name) {
                proof {
                    assert(self@[i as int] == self.tables@[i as int]@);
                    lemma_table_position(self@, name@, i as int);
                }
                return Some(i);
            }
            i += 1;
        }
        proof {
            if exists|k: int| is_first_table(self@, name@, k) {
                let k = choose|k: int| is_first_table(self@, name@, k);
                assert(self@[k].name != name@);
            }
        }
        None
    }

    /// Replaces table `i` by what an operation made of it.
    proof fn lemma_table_changed(&self, before: &Self, i: int)
        requires
            before.wf(),
            0 <= i < before.tables@.len(),
            self.tables@.len() == before.tables@.len(),
            forall|j: int|
                0 <= j < before.tables@.len() && j != i ==> #[trigger] self.tables@[j]
                    == before.tables@[j],
            self.tables@[i].wf(),
            self.tables@[i]@.name == before.tables@[i]@.name,
        ensures
            self.wf(),
            self@ == before@.update(i, self.tables@[i]@),
    {
        assert forall|a: int, b: int| 0 <= a < b < self.tables@.len() implies (
        #[trigger] self.tables@[a])@.name != (#[trigger] self.tables@[b])@.name by {
            assert(before.tables@[a]@.name != before.tables@[b]@.name);
            assert(self.tables@[a]@.name == before.tables@[a]@.name);
            assert(self.tables@[b]@.name == before.tables@[b]@.name);
        }
        assert(self@ =~= before@.update(i, self.tables@[i]@));
    }

    /// Executes a query. A statement that makes a table, stores a row,
    /// updates, deletes or indexes gives a message; a select gives the rows
    /// with the names of the columns. A query that fails changes nothing.
    pub fn execute(&mut self, query: Query) -> (res: Result<QueryResult, DbError>)
        requires
            old(self).wf(),
        ensures
            final(self).wf(),
            final(self)@ == run_query(old(self)@, query@).0,
            match run_query(old(self)@, query@).1 {
                Ok(r) => res matches Ok(x) && x@ == r,
                Err(e) => res matches Err(x) && x@ == e,
            },
    {
        let ghost pre = *self;
        match query {
            Query::CreateTable { name, schema } => {
                if self.find_table(name.as_str()).is_some() {
                    return Err(DbError::TableAlreadyExists(name));
                }
                let message = join3("Table '", name.as_str(), "' created");
                let table = Table::new(name, schema);
                self.tables.push(table);
                proof {
                    assert(self@ =~= pre@.push(TableState::empty(name@, schema@)));
                    assert forall|a: int, b: int| 0 <= a < b < self.tables@.len() implies (
                    #[trigger] self.tables@[a])@.name != (#[trigger] self.tables@[b])@.name by {
                        if b == pre.tables@.len() {
                            assert(pre@[a].name != name@) by {
                                if pre@[a].name == name@ {
                                    lemma_some_first_table(pre@, name@, a);
                                }
                            }
                        } else {
                            assert(pre.tables@[a]@.name != pre.tables@[b]@.name);
                        }
                    }
                }
                Ok(QueryResult::Message(message))
            },
            Query::Insert { table_name, values } => {
                let i = match self.find_table(table_name.as_str()) {
                    Some(i) => i,
                    None => {
                        return Err(DbError::TableNotFound(table_name));
                    },
                };
                let outcome = self.tables[i].insert(values);
                proof {
                    self.lemma_table_changed(&pre, i as int);
                }
                match outcome {
                    Ok(_) => Ok(
                        QueryResult::Message(
                            join3("1 row inserted into '", table_name.as_str(), "'"),
                        ),
                    ),
                    Err(e) => Err(e),
                }
            },
            Query::Select { table_name, where_clause } => {
                let i = match self.find_table(table_name.as_str()) {
                    Some(i) => i,
                    None => {
                        return Err(DbError::TableNotFound(table_name));
                    },
                };
                let table = &self.tables[i];
                let rows = match &where_clause {
                    Some(w) => table.select(Some(w.column.as_str()), Some(&w.value)),
                    None => table.select(None, None),
                };
                match rows {
                    Ok(rows) => Ok(QueryResult::Rows { rows, column_names: names_of(table) }),
                    Err(e) => Err(e),
                }
            },
            Query::Update { table_name, set_column, set_value, where_clause } => {
                let i = match self.find_table(table_name.as_str()) {
                    Some(i) => i,
                    None => {
                        return Err(DbError::TableNotFound(table_name));
                    },
                };
                proof {
                    pre.tables@[i as int].lemma_wf();
                    if let Some(wc) = pre@[i as int].column(where_clause@.column) {
                        if let Some(sc) = pre@[i as int].column(set_column@) {
                            lemma_update_all_inv(
                                pre@[i as int],
                                pre@[i as int].candidates(
                                    where_clause@.column,
                                    wc,
                                    where_clause@.value,
                                ),
                                set_column@,
                                sc,
                                set_value@,
                            );
                        }
                    }
                }
                let outcome = self.tables[i].update(
                    where_clause.column.as_str(),
                    &where_clause.value,
                    set_column.as_str(),
                    set_value,
                );
                proof {
                    self.lemma_table_changed(&pre, i as int);
                }
                match outcome {
                    Ok(count) => Ok(
                        QueryResult::Message(
                            count_message(count, " row(s) updated in '", table_name.as_str(), "'"),
                        ),
                    ),
                    Err(e) => Err(e),
                }
            },
            Query::Delete { table_name, where_clause } => {
                let i = match self.find_table(table_name.as_str()) {
                    Some(i) => i,
                    None => {
                        return Err(DbError::TableNotFound(table_name));
                    },
                };
                proof {
                    pre.tables@[i as int].lemma_wf();
                    if let Some(c) = pre@[i as int].column(where_clause@.column) {
                        lemma_delete_all_inv(
                            pre@[i as int],
                            pre@[i as int].candidates(where_clause@.column, c, where_clause@.value),
                        );
                    }
                }
                let outcome = self.tables[i].delete(
                    where_clause.column.as_str(),
                    &where_clause.value,
                );
                proof {
                    self.lemma_table_changed(&pre, i as int);
                }
                match outcome {
                    Ok(count) => Ok(
                        QueryResult::Message(
                            count_message(
                                count,
                                " row(s) deleted from '",
                                table_name.as_str(),
                                "'",
                            ),
                        ),
                    ),
                    Err(e) => Err(e),
                }
            },
            Query::CreateIndex { table_name, column_name } => {
                let i = match self.find_table(table_name.as_str()) {
                    Some(i) => i,
                    None => {
                        return Err(DbError::TableNotFound(table_name));
                    },
                };
                let outcome = self.tables[i].create_index(column_name.as_str());
                proof {
                    self.lemma_table_changed(&pre, i as int);
                }
                match outcome {
                    Ok(()) => {
                        let mut message = join3("Index created on '", table_name.as_str(), ".");
                        message.append(column_name.as_str());
                        message.append("'");
                        Ok(QueryResult::Message(message))
                    },
                    Err(e) => Err(e),
                }
            },
        }
    }

    /// The table called `name`, if there is one.
    pub fn get_table(&self, name: &str) -> (res: Option<&Table>)
        requires
            self.wf(),
        ensures
            match res {
                Some(table) => {
                    &&& table.wf()
                    &&& table_position(self@, name@) matches Some(i)
                    &&& self@[i] == table@
                },
                None => table_position(self@, name@) is None,
            },
    {
        match self.find_table(name) {
            Some(i) => Some(&self.tables[i]),
            None => None,
        }
    }

    /// The names of the tables, in the order in which they were made.
    pub fn list_tables(&self) -> (res: Vec<String>)
        ensures
            res@.len() == self@.len(),
            forall|i: int| 0 <= i < res@.len() ==> (#[trigger] res@[i])@ == self@[i].name,
    {
        let mut out: Vec<String> = Vec::new();
        let mut i: usize = 0;
        while i < self.tables.len()
            invariant
                i <= self.tables@.len(),
                out@.len() == i,
                forall|j: int| 0 <= j < i ==> (#[trigger] out@[j])@ == self@[j].name,
            decreases self.tables.len() - i,
        {
            out.push(String::from_str(self.tables[i].name()));
            i += 1;
        }
        out
    }
}

impl Default for QueryExecutor {
    fn default() -> (res: Self)
        ensures
            res.wf(),
            res@ == Seq::<TableState>::empty(),
    {
        Self::new()
    }
}

} // verus!
