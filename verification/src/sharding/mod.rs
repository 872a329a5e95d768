//! The partition router: one logical database over several independent ones.
//!
//! A row belongs to the partition that the hash of its routing value picks.
//! Statements that make tables or indexes go to every partition; statements
//! with a filter go to the partition of the filter's value; a select without
//! a filter asks every partition and puts the answers together.

pub mod laws;

use vstd::prelude::*;
use vstd::string::*;
use vstd::utf8::encode_utf8;
use crate::error::{DbError, DbErrorView};
use crate::query::executor::{
    db_inv,
    is_first_table,
    lemma_table_position,
    names_view,
    run_query,
    table_position,
    DbState,
    QueryExecutor,
    QueryResult,
    QueryResultView,
};
use crate::query::parser::{Query, QueryView};
use crate::storage::laws::{lemma_delete_all_inv, lemma_update_all_inv};
use crate::storage::page::live_count;
use crate::storage::table::rows_view;
use crate::storage::text::{decimal, push_decimal, push_signed_decimal, signed_decimal};
use crate::storage::{Row, Value, ValueView};

verus! {

/// The SeaHash value of a byte string, with the hash's own fixed seed.
pub uninterp spec fn seahash_of(bytes: Seq<u8>) -> u64;

/// Calls `seahash::hash`. The hash has a fixed seed, reads nothing but the
/// bytes, reads them in little-endian order on every machine and does not
/// panic, so the result is the same for the same bytes wherever it is
/// computed. The contract gives that result its name and claims no more.
#[verifier::external_body]
fn seahash_bytes(bytes: &[u8]) -> (res: u64)
    ensures
        res == seahash_of(bytes@),
{
    seahash::hash(bytes)
}

/// The text that stands for a value when it is routed: the decimal numeral
/// of an integer, the numeral of the thousandths of a fraction, a text
/// itself, `true` or `false`, and `null`.
pub open spec fn routing_text(value: ValueView) -> Seq<char> {
    match value {
        ValueView::Integer(i) => signed_decimal(i as int),
        ValueView::Float(f) => signed_decimal(f as int),
        ValueView::Text(s) => s,
        ValueView::Boolean(b) => if b {
            "true"@
        } else {
            "false"@
        },
        ValueView::Null => "null"@,
    }
}

/// The bytes that are hashed for a value: its routing text in UTF-8.
pub open spec fn routing_bytes(value: ValueView) -> Seq<u8> {
    encode_utf8(routing_text(value))
}

/// The partition of a value among `count` partitions: the hash of its
/// routing bytes modulo `count`.
pub open spec fn shard_of(value: ValueView, count: usize) -> int {
    (seahash_of(routing_bytes(value)) as usize) as int % (count as int)
}

/// The partition that `value` is routed to among `count` partitions.
pub fn route(value: &Value, count: usize) -> (res: usize)
    requires
        count > 0,
    ensures
        res == shard_of(value@, count),
        res < count,
{
    let bytes: Vec<u8> = match value {
        Value::Integer(i) => {
            let mut text = String::new();
            push_signed_decimal(&mut text, *i);
            assert(text@ =~= signed_decimal(*i as int));
            text.as_str().as_bytes_vec()
        },
        Value::Float(f) => {
            let mut text = String::new();
            push_signed_decimal(&mut text, *f);
            assert(text@ =~= signed_decimal(*f as int));
            text.as_str().as_bytes_vec()
        },
        Value::Text(s) => s.as_str().as_bytes_vec(),
        Value::Boolean(b) => if *b {
            "true".as_bytes_vec()
        } else {
            "false".as_bytes_vec()
        },
        Value::Null => "null".as_bytes_vec(),
    };
    let hash = seahash_bytes(bytes.as_slice());
    (hash as usize) % count
}

/// The number of rows that one partition holds of a table.
#[derive(Debug)]
pub struct ShardStats {
    pub shard_id: usize,
    pub row_count: usize,
}

impl ShardStats {
    /// What the line of a partition says: its number and its rows.
    pub open spec fn line(shard_id: usize, row_count: usize) -> Seq<char> {
        "Shard "@ + decimal(shard_id as nat) + ": "@ + decimal(row_count as nat) + " rows"@
    }

    /// One line of text: `Shard 2: 5 rows`.
    pub fn format(&self) -> (res: String)
        ensures
            res@ == Self::line(self.shard_id, self.row_count),
    {
        let mut out = String::from_str("Shard ");
        push_decimal(&mut out, self.shard_id as u64);
        out.append(": ");
        push_decimal(&mut out, self.row_count as u64);
        out.append(" rows");
        out
    }
}

/// The number of rows of the table called `name` in one database; none
/// where there is no such table.
pub open spec fn rows_in(db: DbState, name: Seq<char>) -> nat {
    match table_position(db, name) {
        Some(i) => live_count(db[i].slots),
        None => 0,
    }
}

/// The number of rows of the table called `name` in the first `upto`
/// partitions together.
pub open spec fn rows_in_all(shards: Seq<DbState>, name: Seq<char>, upto: int) -> nat
    decreases upto,
{
    if upto <= 0 {
        0
    } else {
        rows_in_all(shards, name, upto - 1) + rows_in(shards[upto - 1], name)
    }
}

/// Two databases with the same tables, columns and indexes, whatever rows
/// they hold.
pub open spec fn same_shape(a: DbState, b: DbState) -> bool {
    &&& a.len() == b.len()
    &&& forall|i: int|
        0 <= i < a.len() ==> {
            &&& (#[trigger] a[i]).name == b[i].name
            &&& a[i].columns == b[i].columns
            &&& a[i].indexes.dom() == b[i].indexes.dom()
        }
}

/// Whether a query makes a table or an index.
pub open spec fn is_definition(query: QueryView) -> bool {
    query is CreateTable || query is CreateIndex
}

/// The value that decides which partition a query goes to: the first value
/// of a row to insert, the value of a filter. A definition and a select
/// without a filter have none.
pub open spec fn routing_value(query: QueryView) -> Option<ValueView> {
    match query {
        QueryView::Insert { values, .. } => Some(values[0]),
        QueryView::Select { where_clause: Some(w), .. } => Some(w.value),
        QueryView::Update { where_clause, .. } => Some(where_clause.value),
        QueryView::Delete { where_clause, .. } => Some(where_clause.value),
        _ => None,
    }
}

/// Running a query on partition `i` and every partition after it, in
/// order, until one of them fails: the partitions after that and the error
/// of the one that failed.
pub open spec fn broadcast_from(shards: Seq<DbState>, query: QueryView, i: int) -> (
    Seq<DbState>,
    Option<DbErrorView>,
)
    decreases shards.len() - i,
{
    if i < 0 || i >= shards.len() {
        (shards, None)
    } else {
        match run_query(shards[i], query) {
            (db, Ok(_)) => broadcast_from(shards.update(i, db), query, i + 1),
            (_, Err(e)) => (shards, Some(e)),
        }
    }
}

/// Asking partition `i` and every partition after it, in order, and
/// putting their rows behind `rows`; the names of the columns are those of
/// the first answer that has any. The first partition that fails ends it.
pub open spec fn gather_from(
    shards: Seq<DbState>,
    query: QueryView,
    i: int,
    rows: Seq<Seq<ValueView>>,
    names: Seq<Seq<char>>,
) -> Result<(Seq<Seq<ValueView>>, Seq<Seq<char>>), DbErrorView>
    decreases shards.len() - i,
{
    if i < 0 || i >= shards.len() {
        Ok((rows, names))
    } else {
        match run_query(shards[i], query).1 {
            Err(e) => Err(e),
            Ok(QueryResultView::Rows { rows: found, column_names }) => gather_from(
                shards,
                query,
                i + 1,
                rows + found,
                if names.len() == 0 {
                    column_names
                } else {
                    names
                },
            ),
            Ok(QueryResultView::Message(_)) => gather_from(shards, query, i + 1, rows, names),
        }
    }
}

/// What a query makes of the partitions and what it gives back.
pub open spec fn run_sharded(shards: Seq<DbState>, query: QueryView) -> (
    Seq<DbState>,
    Result<QueryResultView, DbErrorView>,
) {
    match routing_value(query) {
        Some(value) => {
            let k = shard_of(value, shards.len() as usize);
            (shards.update(k, run_query(shards[k], query).0), run_query(shards[k], query).1)
        },
        None => match query {
            QueryView::CreateTable { .. } => match broadcast_from(shards, query, 0) {
                (after, None) => (
                    after,
                    Ok(QueryResultView::Message("Table created on all shards"@)),
                ),
                (after, Some(e)) => (after, Err(e)),
            },
            QueryView::CreateIndex { .. } => match broadcast_from(shards, query, 0) {
                (after, None) => (
                    after,
                    Ok(QueryResultView::Message("Index created on all shards"@)),
                ),
                (after, Some(e)) => (after, Err(e)),
            },
            _ => (
                shards,
                match gather_from(shards, query, 0, Seq::empty(), Seq::empty()) {
                    Ok((rows, names)) => Ok(QueryResultView::Rows { rows, column_names: names }),
                    Err(e) => Err(e),
                },
            ),
        },
    }
}

/// Databases of the same shape know the same tables.
pub proof fn lemma_same_shape_position(a: DbState, b: DbState, name: Seq<char>)
    requires
        same_shape(a, b),
    ensures
        table_position(a, name) == table_position(b, name),
{
    if exists|i: int| is_first_table(a, name, i) {
        let i = choose|i: int| is_first_table(a, name, i);
        assert(is_first_table(b, name, i)) by {
            assert forall|j: int| 0 <= j < i implies (#[trigger] b[j]).name != name by {
                assert(a[j].name != name);
            }
        }
        lemma_table_position(b, name, i);
    } else if exists|i: int| is_first_table(b, name, i) {
        let i = choose|i: int| is_first_table(b, name, i);
        assert(is_first_table(a, name, i)) by {
            assert forall|j: int| 0 <= j < i implies (#[trigger] a[j]).name != name by {
                assert(b[j].name != name);
            }
        }
    }
}

/// Having the same shape is transitive and symmetric.
pub proof fn lemma_same_shape_trans(a: DbState, b: DbState, c: DbState)
    requires
        same_shape(a, b),
        same_shape(b, c),
    ensures
        same_shape(a, c),
        same_shape(b, a),
{
    assert forall|i: int| 0 <= i < a.len() implies (#[trigger] a[i]).name == c[i].name
        && a[i].columns == c[i].columns && a[i].indexes.dom() == c[i].indexes.dom() by {
        assert(b[i].name == c[i].name);
    }
    assert forall|i: int| 0 <= i < b.len() implies (#[trigger] b[i]).name == a[i].name
        && b[i].columns == a[i].columns && b[i].indexes.dom() == a[i].indexes.dom() by {
        assert(a[i].name == b[i].name);
    }
}

/// A definition does the same to databases of the same shape: it fails on
/// both with the same error, or it succeeds on both with the same message
/// and leaves them in the same shape.
pub proof fn lemma_definition_same_outcome(a: DbState, b: DbState, query: QueryView)
    requires
        same_shape(a, b),
        is_definition(query),
    ensures
        run_query(a, query).1 == run_query(b, query).1,
        same_shape(run_query(a, query).0, run_query(b, query).0),
        run_query(a, query).1 is Err ==> run_query(a, query).0 == a,
{
    match query {
        QueryView::CreateTable { name, columns } => {
            lemma_same_shape_position(a, b, name);
        },
        QueryView::CreateIndex { table_name, column_name } => {
            lemma_same_shape_position(a, b, table_name);
            if let Some(i) = table_position(a, table_name) {
                assert(a[i].name == b[i].name);
                if a[i].create_index(column_name) is Ok {
                    let x = run_query(a, query).0;
                    let y = run_query(b, query).0;
                    assert forall|j: int| 0 <= j < x.len() implies (#[trigger] x[j]).name
                        == y[j].name && x[j].columns == y[j].columns && x[j].indexes.dom()
                        == y[j].indexes.dom() by {
                        assert(a[j].name == b[j].name);
                        if j == i {
                            assert(x[j].indexes.dom() =~= y[j].indexes.dom());
                        }
                    }
                }
            }
        },
        _ => {},
    }
}

/// A query that is no definition leaves the shape of a database as it is.
pub proof fn lemma_routed_keeps_shape(db: DbState, query: QueryView)
    requires
        db_inv(db),
        !is_definition(query),
    ensures
        same_shape(db, run_query(db, query).0),
{
    let after = run_query(db, query).0;
    match query {
        QueryView::Insert { table_name, values } => {
            if let Some(i) = table_position(db, table_name) {
                if db[i].insert(values) is Ok {
                    assert(after[i].indexes.dom() =~= db[i].indexes.dom());
                }
            }
        },
        QueryView::Update { table_name, set_column, set_value, where_clause } => {
            if let Some(i) = table_position(db, table_name) {
                if let Some(wc) = db[i].column(where_clause.column) {
                    if let Some(sc) = db[i].column(set_column) {
                        lemma_update_all_inv(
                            db[i],
                            db[i].candidates(where_clause.column, wc, where_clause.value),
                            set_column,
                            sc,
                            set_value,
                        );
                    }
                }
            }
        },
        QueryView::Delete { table_name, where_clause } => {
            if let Some(i) = table_position(db, table_name) {
                if let Some(c) = db[i].column(where_clause.column) {
                    lemma_delete_all_inv(
                        db[i],
                        db[i].candidates(where_clause.column, c, where_clause.value),
                    );
                }
            }
        },
        _ => {},
    }
}

/// A definition that goes to partitions of one shape reaches all of them or
/// none: where it fails, it fails on the first of them, and where it
/// succeeds there, it succeeds on every one.
pub proof fn lemma_broadcast_from(shards: Seq<DbState>, like: DbState, query: QueryView, i: int)
    requires
        is_definition(query),
        0 <= i <= shards.len(),
        forall|j: int| i <= j < shards.len() ==> same_shape(like, #[trigger] shards[j]),
    ensures
        ({
            let (after, err) = broadcast_from(shards, query, i);
            &&& after.len() == shards.len()
            &&& forall|j: int| 0 <= j < i ==> #[trigger] after[j] == shards[j]
            &&& match run_query(like, query).1 {
                Err(e) => after == shards && (i < shards.len() ==> err == Some(e)),
                Ok(_) => err is None && forall|j: int|
                    i <= j < shards.len() ==> #[trigger] after[j] == run_query(shards[j], query).0,
            }
        }),
    decreases shards.len() - i,
{
    if i < shards.len() {
        lemma_definition_same_outcome(like, shards[i], query);
        match run_query(shards[i], query) {
            (db, Ok(_)) => {
                let next = shards.update(i, db);
                assert forall|j: int| i + 1 <= j < next.len() implies same_shape(
                    like,
                    #[trigger] next[j],
                ) by {
                    assert(next[j] == shards[j]);
                }
                lemma_broadcast_from(next, like, query, i + 1);
                let (after, err) = broadcast_from(next, query, i + 1);
                assert forall|j: int| 0 <= j < i implies #[trigger] after[j] == shards[j] by {
                    assert(after[j] == next[j]);
                }
                assert forall|j: int| i <= j < shards.len() implies #[trigger] after[j]
                    == run_query(shards[j], query).0 by {
                    if j == i {
                        assert(after[j] == next[j]);
                    } else {
                        assert(next[j] == shards[j]);
                    }
                }
            },
            (_, Err(e)) => {},
        }
    }
}

/// Several databases behind one router.
#[derive(Debug)]
pub struct ShardedDatabase {
    shards: Vec<QueryExecutor>,
    num_shards: usize,
}

impl View for ShardedDatabase {
    type V = Seq<DbState>;

    closed spec fn view(&self) -> Seq<DbState> {
        self.shards@.map_values(|s: QueryExecutor| s@)
    }
}

impl ShardedDatabase {
    /// There is at least one partition, and every partition is well-formed.
    pub closed spec fn wf(&self) -> bool {
        &&& self.num_shards == self.shards@.len()
        &&& self.num_shards > 0
        &&& forall|i: int| 0 <= i < self.shards@.len() ==> (#[trigger] self.shards@[i]).wf()
        &&& forall|i: int| 0 <= i < self@.len() ==> same_shape(self@[0], #[trigger] self@[i])
    }

    /// The partitions of a well-formed router are as they should be and of
    /// one shape.
    pub proof fn lemma_wf(&self)
        requires
            self.wf(),
        ensures
            self@.len() > 0,
            forall|i: int| 0 <= i < self@.len() ==> db_inv(#[trigger] self@[i]),
            forall|i: int| 0 <= i < self@.len() ==> same_shape(self@[0], #[trigger] self@[i]),
    {
        assert forall|i: int| 0 <= i < self@.len() implies db_inv(#[trigger] self@[i]) by {
            self.shards@[i].lemma_wf();
        }
    }

    /// A router over `num_shards` empty databases.
    pub fn new(num_shards: usize) -> (res: Self)
        requires
            num_shards > 0,
        ensures
            res.wf(),
            res@.len() == num_shards,
            forall|i: int| 0 <= i < num_shards ==> (#[trigger] res@[i]).len() == 0,
    {
        let mut shards: Vec<QueryExecutor> = Vec::new();
        let mut i: usize = 0;
        while i < num_shards
            invariant
                i <= num_shards,
                shards@.len() == i,
                forall|j: int| 0 <= j < i ==> (#[trigger] shards@[j]).wf(),
                forall|j: int| 0 <= j < i ==> (#[trigger] shards@[j])@.len() == 0,
            decreases num_shards - i,
        {
            shards.push(QueryExecutor::new());
            i += 1;
        }
        Self { shards, num_shards }
    }

    /// The partition that `value` is routed to.
    pub fn get_shard_id(&self, value: &Value) -> (res: usize)
        requires
            self.wf(),
        ensures
            res == shard_of(value@, self@.len() as usize),
            res < self@.len(),
    {
        route(value, self.num_shards)
    }

    /// Sends one query to partition `k`.
    fn execute_on(&mut self, k: usize, query: Query) -> (res: Result<QueryResult, DbError>)
        requires
            old(self).wf(),
            k < old(self)@.len(),
            !is_definition(query@),
        ensures
            final(self).wf(),
            final(self)@ == old(self)@.update(k as int, run_query(old(self)@[k as int], query@).0),
            match run_query(old(self)@[k as int], query@).1 {
                Ok(r) => res matches Ok(x) && x@ == r,
                Err(e) => res matches Err(x) && x@ == e,
            },
    {
        let ghost pre = self@;
        proof {
            self.lemma_wf();
            lemma_routed_keeps_shape(pre[k as int], query@);
        }
        let res = self.shards[k].execute(query);
        proof {
            let after = run_query(pre[k as int], query@).0;
            assert(self@ =~= pre.update(k as int, after));
            assert forall|i: int| 0 <= i < self@.len() implies same_shape(
                self@[0],
                #[trigger] self@[i],
            ) by {
                lemma_same_shape_trans(pre[0], pre[k as int], after);
                lemma_same_shape_trans(pre[0], pre[i], pre[i]);
                if k == 0 {
                    lemma_same_shape_trans(after, pre[0], pre[i]);
                    if i == 0 {
                        lemma_same_shape_trans(after, pre[0], after);
                    }
                }
            }
        }
        res
    }

    /// Sends a definition to every partition, one after the other.
    fn execute_on_all(&mut self, query: Query) -> (res: Option<DbError>)
        requires
            old(self).wf(),
            is_definition(query@),
        ensures
            final(self).wf(),
            final(self)@ == broadcast_from(old(self)@, query@, 0).0,
            match broadcast_from(old(self)@, query@, 0).1 {
                Some(e) => res matches Some(x) && x@ == e,
                None => res is None,
            },
    {
        let ghost pre = self@;
        let n = self.shards.len();
        let mut i: usize = 0;
        proof {
            self.lemma_wf();
            lemma_broadcast_from(pre, pre[0], query@, 0);
        }
        while i < n
            invariant
                i <= n,
                n == self.shards@.len(),
                n == self.num_shards,
                n > 0,
                pre.len() == n,
                pre == old(self)@,
                is_definition(query@),
                forall|j: int| 0 <= j < n ==> (#[trigger] self.shards@[j]).wf(),
                broadcast_from(pre, query@, 0) == broadcast_from(self@, query@, i as int),
                forall|j: int| 0 <= j < n ==> same_shape(pre[0], #[trigger] pre[j]),
            decreases n - i,
        {
            let ghost before = self@;
            let outcome = self.shards[i].execute(query.clone());
            proof {
                assert(self@ =~= before.update(i as int, run_query(before[i as int], query@).0));
            }
            if let Err(e) = outcome {
                proof {
                    assert(self@ =~= before);
                    self.lemma_shape_after(pre, query@);
                }
                return Some(e);
            }
            i += 1;
        }
        proof {
            self.lemma_shape_after(pre, query@);
        }
        None
    }

    /// After a definition went round, the partitions are of one shape again.
    proof fn lemma_shape_after(&self, pre: Seq<DbState>, query: QueryView)
        requires
            is_definition(query),
            pre.len() > 0,
            forall|j: int| 0 <= j < pre.len() ==> same_shape(pre[0], #[trigger] pre[j]),
            self@ == broadcast_from(pre, query, 0).0,
        ensures
            forall|j: int| 0 <= j < self@.len() ==> same_shape(self@[0], #[trigger] self@[j]),
    {
        lemma_broadcast_from(pre, pre[0], query, 0);
        assert forall|j: int| 0 <= j < self@.len() implies same_shape(
            self@[0],
            #[trigger] self@[j],
        ) by {
            if run_query(pre[0], query).1 is Ok {
                lemma_same_shape_trans(pre[0], pre[0], pre[j]);
                lemma_definition_same_outcome(pre[0], pre[j], query);
            }
        }
    }

    /// Puts a select without a filter to every partition and gathers the
    /// rows.
    fn gather(&mut self, query: &Query) -> (res: Result<QueryResult, DbError>)
        requires
            old(self).wf(),
            query@ is Select,
        ensures
            final(self).wf(),
            final(self)@ == old(self)@,
            match gather_from(old(self)@, query@, 0, Seq::empty(), Seq::empty()) {
                Ok((rows, names)) => res matches Ok(x) && x@ == (QueryResultView::Rows {
                    rows,
                    column_names: names,
                }),
                Err(e) => res matches Err(x) && x@ == e,
            },
    {
        let ghost pre = self@;
        let mut all_rows: Vec<Row> = Vec::new();
        let mut column_names: Vec<String> = Vec::new();
        let n = self.shards.len();
        let mut i: usize = 0;
        proof {
            assert(rows_view(all_rows@) =~= Seq::<Seq<ValueView>>::empty());
            assert(names_view(column_names@) =~= Seq::<Seq<char>>::empty());
        }
        while i < n
            invariant
                self.wf(),
                self@ == pre,
                pre == old(self)@,
                query@ is Select,
                i <= n,
                n == self.shards@.len(),
                gather_from(pre, query@, 0, Seq::empty(), Seq::empty()) == gather_from(
                    pre,
                    query@,
                    i as int,
                    rows_view(all_rows@),
                    names_view(column_names@),
                ),
            decreases n - i,
        {
            let outcome = self.shards[i].execute(query.clone());
            proof {
                assert(self@ =~= pre);
            }
            match outcome {
                Ok(QueryResult::Rows { rows, column_names: names }) => {
                    let ghost had = all_rows@;
                    let ghost got = rows@;
                    let mut rows = rows;
                    if column_names.len() == 0 {
                        column_names = names;
                    }
                    all_rows.append(&mut rows);
                    proof {
                        assert(rows_view(all_rows@) =~= rows_view(had) + rows_view(got));
                    }
                },
                Ok(QueryResult::Message(_)) => {},
                Err(e) => {
                    return Err(e);
                },
            }
            i += 1;
        }
        Ok(QueryResult::Rows { rows: all_rows, column_names })
    }

    /// Executes a query. A definition goes to every partition; the
    /// partitions are of one shape, so it reaches all of them or, where the
    /// first refuses it, none. A query with a routing value goes to the
    /// partition of that value and to no other. A select without a filter
    /// is answered by all partitions together, their rows one partition
    /// after the other.
    pub fn execute(&mut self, query: Query) -> (res: Result<QueryResult, DbError>)
        requires
            old(self).wf(),
            query@ matches QueryView::Insert { values, .. } ==> values.len() > 0,
        ensures
            final(self).wf(),
            final(self)@ == run_sharded(old(self)@, query@).0,
            match run_sharded(old(self)@, query@).1 {
                Ok(r) => res matches Ok(x) && x@ == r,
                Err(e) => res matches Err(x) && x@ == e,
            },
    {
        match &query {
            Query::CreateTable { .. } => match self.execute_on_all(query) {
                Some(e) => Err(e),
                None => Ok(QueryResult::Message(String::from_str("Table created on all shards"))),
            },
            Query::CreateIndex { .. } => match self.execute_on_all(query) {
                Some(e) => Err(e),
                None => Ok(QueryResult::Message(String::from_str("Index created on all shards"))),
            },
            Query::Insert { values, .. } => {
                let shard_id = self.get_shard_id(&values[0]);
                self.execute_on(shard_id, query)
            },
            Query::Select { where_clause: Some(where_clause), .. } => {
                let shard_id = self.get_shard_id(&where_clause.value);
                self.execute_on(shard_id, query)
            },
            Query::Select { where_clause: None, .. } => self.gather(&query),
            Query::Update { where_clause, .. } => {
                let shard_id = self.get_shard_id(&where_clause.value);
                self.execute_on(shard_id, query)
            },
            Query::Delete { where_clause, .. } => {
                let shard_id = self.get_shard_id(&where_clause.value);
                self.execute_on(shard_id, query)
            },
        }
    }

    /// The number of partitions.
    pub fn shard_count(&self) -> (res: usize)
        requires
            self.wf(),
        ensures
            res == self@.len(),
    {
        self.num_shards
    }

    /// For each partition, in order, the number of rows it holds of the
    /// table `table_name`; none where the partition has no such table.
    pub fn get_shard_stats(&self, table_name: &str) -> (res: Vec<ShardStats>)
        requires
            self.wf(),
        ensures
            res@.len() == self@.len(),
            forall|i: int|
                0 <= i < res@.len() ==> (#[trigger] res@[i]).shard_id == i && res@[i].row_count
                    == rows_in(self@[i], table_name@),
    {
        let mut stats: Vec<ShardStats> = Vec::new();
        let mut i: usize = 0;
        while i < self.shards.len()
            invariant
                self.wf(),
                i <= self.shards@.len(),
                stats@.len() == i,
                forall|j: int|
                    0 <= j < i ==> (#[trigger] stats@[j]).shard_id == j && stats@[j].row_count
                        == rows_in(self@[j], table_name@),
            decreases self.shards.len() - i,
        {
            let row_count = match self.shards[i].get_table(table_name) {
                Some(table) => table.row_count(),
                None => 0,
            };
            stats.push(ShardStats { shard_id: i, row_count });
            i += 1;
        }
        stats
    }
}

} // verus!
