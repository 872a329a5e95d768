//! What holds of every router: a value always goes to the same partition,
//! no statement leaves the partitions in different shapes, and a select
//! without a filter finds every row that was inserted, once.

use vstd::prelude::*;
use super::{
    gather_from,
    is_definition,
    lemma_broadcast_from,
    lemma_definition_same_outcome,
    lemma_routed_keeps_shape,
    lemma_same_shape_position,
    lemma_same_shape_trans,
    routing_value,
    rows_in,
    rows_in_all,
    run_sharded,
    same_shape,
    shard_of,
};
use crate::query::executor::{
    db_inv,
    is_first_table,
    lemma_some_first_table,
    lemma_table_position,
    run_query,
    table_position,
    DbState,
    QueryResultView,
};
use crate::query::parser::QueryView;
use crate::query::parser::WhereView;
use crate::storage::laws::{
    lemma_create_index_inv,
    lemma_delete_all_inv,
    lemma_empty_inv,
    lemma_insert_adds_one_row,
    lemma_insert_inv,
    lemma_insert_then_select_by_key,
    lemma_select_all_count,
    lemma_update_all_inv,
    schema_valid,
};
use crate::storage::model::TableState;
use crate::storage::ValueView;

verus! {

/// Partitions as they should be: at least one, each a database as it
/// should be, and all of one shape.
pub open spec fn router_inv(shards: Seq<DbState>) -> bool {
    &&& 0 < shards.len() <= usize::MAX
    &&& forall|i: int| 0 <= i < shards.len() ==> db_inv(#[trigger] shards[i])
    &&& forall|i: int| 0 <= i < shards.len() ==> same_shape(shards[0], #[trigger] shards[i])
}

/// The table that a name stands for keeps its place when a table is
/// replaced by one of the same name.
pub proof fn lemma_position_after_update(db: DbState, i: int, table: TableState, name: Seq<char>)
    requires
        0 <= i < db.len(),
        table.name == db[i].name,
    ensures
        table_position(db.update(i, table), name) == table_position(db, name),
{
    let after = db.update(i, table);
    assert(same_shape_names(db, after)) by {
        assert forall|j: int| 0 <= j < db.len() implies (#[trigger] db[j]).name == after[j].name by {}
    }
    lemma_same_names_position(db, after, name);
}

/// Two databases whose tables have the same names, in order.
pub open spec fn same_shape_names(a: DbState, b: DbState) -> bool {
    &&& a.len() == b.len()
    &&& forall|j: int| 0 <= j < a.len() ==> (#[trigger] a[j]).name == b[j].name
}

/// Databases with the same table names know the same tables.
pub proof fn lemma_same_names_position(a: DbState, b: DbState, name: Seq<char>)
    requires
        same_shape_names(a, b),
    ensures
        table_position(a, name) == table_position(b, name),
{
    if exists|i: int| is_first_table(a, name, i) {
        let i = choose|i: int| is_first_table(a, name, i);
        assert(is_first_table(b, name, i)) by {
            assert forall|j: int| 0 <= j < i implies (#[trigger] b[j]).name != name by {
                assert(a[j].name != name);
            }
        }
        lemma_table_position(b, name, i);
    } else if exists|i: int| is_first_table(b, name, i) {
        let i = choose|i: int| is_first_table(b, name, i);
        assert(is_first_table(a, name, i)) by {
            assert forall|j: int| 0 <= j < i implies (#[trigger] a[j]).name != name by {
                assert(b[j].name != name);
            }
        }
    }
}

/// Every query leaves a database as it should be.
pub proof fn lemma_run_query_inv(db: DbState, query: QueryView)
    requires
        db_inv(db),
    ensures
        db_inv(run_query(db, query).0),
{
    let after = run_query(db, query).0;
    match query {
        QueryView::CreateTable { name, columns } => {
            if table_position(db, name) is None {
                lemma_empty_inv(name, columns);
                assert forall|i: int, j: int| 0 <= i < j < after.len() implies (
                #[trigger] after[i]).name != (#[trigger] after[j]).name by {
                    if j == db.len() {
                        if db[i].name == name {
                            lemma_some_first_table(db, name, i);
                        }
                    } else {
                        assert(db[i].name != db[j].name);
                    }
                }
            }
        },
        QueryView::Insert { table_name, values } => {
            if let Some(k) = table_position(db, table_name) {
                if db[k].insert(values) is Ok {
                    lemma_insert_inv(db[k], values);
                    lemma_names_kept(db, k, after[k]);
                }
            }
        },
        QueryView::Select { .. } => {},
        QueryView::Update { table_name, set_column, set_value, where_clause } => {
            if let Some(k) = table_position(db, table_name) {
                if let Some(wc) = db[k].column(where_clause.column) {
                    if let Some(sc) = db[k].column(set_column) {
                        lemma_update_all_inv(
                            db[k],
                            db[k].candidates(where_clause.column, wc, where_clause.value),
                            set_column,
                            sc,
                            set_value,
                        );
                        lemma_names_kept(db, k, after[k]);
                    }
                }
            }
        },
        QueryView::Delete { table_name, where_clause } => {
            if let Some(k) = table_position(db, table_name) {
                if let Some(c) = db[k].column(where_clause.column) {
                    lemma_delete_all_inv(
                        db[k],
                        db[k].candidates(where_clause.column, c, where_clause.value),
                    );
                    lemma_names_kept(db, k, after[k]);
                }
            }
        },
        QueryView::CreateIndex { table_name, column_name } => {
            if let Some(k) = table_position(db, table_name) {
                if db[k].create_index(column_name) is Ok {
                    lemma_create_index_inv(db[k], column_name);
                    lemma_names_kept(db, k, after[k]);
                }
            }
        },
    }
}

/// A database stays as it should be when one of its tables is replaced by a
/// table of the same name that is as it should be.
pub proof fn lemma_names_kept(db: DbState, k: int, table: TableState)
    requires
        db_inv(db),
        0 <= k < db.len(),
        table.inv(),
        table.name == db[k].name,
    ensures
        db_inv(db.update(k, table)),
{
    let after = db.update(k, table);
    assert forall|i: int, j: int| 0 <= i < j < after.len() implies (#[trigger] after[i]).name != (
    #[trigger] after[j]).name by {
        assert(db[i].name != db[j].name);
    }
}

/// A value has a partition among any positive number of partitions.
pub proof fn lemma_shard_in_range(value: ValueView, count: usize)
    requires
        count > 0,
    ensures
        0 <= shard_of(value, count) < count,
{
}

/// Partition determinism: where a value goes depends on the value and on
/// the number of partitions, and on nothing else. Two routers with the same
/// number of partitions send the same value to the same partition.
pub proof fn lemma_routing_deterministic(a: Seq<DbState>, b: Seq<DbState>, value: ValueView)
    requires
        a.len() == b.len(),
    ensures
        shard_of(value, a.len() as usize) == shard_of(value, b.len() as usize),
{
}

/// A query with a routing value touches the partition of that value and no
/// other.
pub proof fn lemma_routed_touches_one(shards: Seq<DbState>, query: QueryView)
    requires
        router_inv(shards),
        routing_value(query) is Some,
    ensures
        ({
            let k = shard_of(routing_value(query)->0, shards.len() as usize);
            let after = run_sharded(shards, query).0;
            &&& 0 <= k < shards.len()
            &&& after.len() == shards.len()
            &&& after[k] == run_query(shards[k], query).0
            &&& forall|i: int| 0 <= i < shards.len() && i != k ==> #[trigger] after[i] == shards[i]
        }),
{
}

/// Every query leaves the partitions as they should be. In particular a
/// definition is never applied to some partitions and not to others.
pub proof fn lemma_run_sharded_inv(shards: Seq<DbState>, query: QueryView)
    requires
        router_inv(shards),
    ensures
        router_inv(run_sharded(shards, query).0),
{
    let after = run_sharded(shards, query).0;
    let n = shards.len() as int;
    match routing_value(query) {
        Some(value) => {
            let k = shard_of(value, shards.len() as usize);
            lemma_run_query_inv(shards[k], query);
            lemma_routed_keeps_shape(shards[k], query);
            assert forall|i: int| 0 <= i < n implies same_shape(after[0], #[trigger] after[i]) by {
                lemma_same_shape_trans(shards[0], shards[k], after[k]);
                lemma_same_shape_trans(shards[0], shards[i], shards[i]);
                if k == 0 {
                    lemma_same_shape_trans(after[k], shards[0], shards[i]);
                    if i == 0 {
                        lemma_same_shape_trans(after[k], shards[0], after[k]);
                    }
                }
            }
        },
        None => {
            if is_definition(query) {
                lemma_broadcast_from(shards, shards[0], query, 0);
                assert forall|i: int| 0 <= i < n implies db_inv(#[trigger] after[i])
                    && same_shape(after[0], after[i]) by {
                    lemma_run_query_inv(shards[i], query);
                    if run_query(shards[0], query).1 is Ok {
                        lemma_same_shape_trans(shards[0], shards[0], shards[i]);
                        lemma_definition_same_outcome(shards[0], shards[i], query);
                    }
                }
            }
        },
    }
}

/// Definitions are all or nothing: one that the first partition refuses
/// changes no partition, and one that it accepts is applied to every one.
pub proof fn lemma_definition_all_or_nothing(shards: Seq<DbState>, query: QueryView)
    requires
        router_inv(shards),
        is_definition(query),
    ensures
        ({
            let (after, outcome) = run_sharded(shards, query);
            match run_query(shards[0], query).1 {
                Err(e) => after == shards && outcome == Err::<QueryResultView, _>(e),
                Ok(_) => outcome is Ok && after.len() == shards.len() && forall|i: int|
                    0 <= i < shards.len() ==> #[trigger] after[i] == run_query(shards[i], query).0,
            }
        }),
{
    lemma_broadcast_from(shards, shards[0], query, 0);
}

/// Round trip through the router: where the primary key is the first
/// column, a row that was inserted is what a select by its primary key
/// gives, and nothing else; the select goes to the partition that took the
/// row.
pub proof fn lemma_router_round_trip(
    shards: Seq<DbState>,
    table_name: Seq<char>,
    values: Seq<ValueView>,
)
    requires
        router_inv(shards),
        run_sharded(shards, QueryView::Insert { table_name, values }).1 is Ok,
        ({
            let k = shard_of(values[0], shards.len() as usize);
            let table = shards[k][table_position(shards[k], table_name)->0];
            schema_valid(table.columns) && table.primary_key() == Some(0int)
        }),
    ensures
        ({
            let k = shard_of(values[0], shards.len() as usize);
            let table = shards[k][table_position(shards[k], table_name)->0];
            let after = run_sharded(shards, QueryView::Insert { table_name, values }).0;
            run_sharded(
                after,
                QueryView::Select {
                    table_name,
                    where_clause: Some(WhereView { column: table.columns[0].name, value: values[0] }),
                },
            ).1 == Ok::<QueryResultView, crate::error::DbErrorView>(
                QueryResultView::Rows {
                    rows: seq![values],
                    column_names: crate::query::executor::column_names(table.columns),
                },
            )
        }),
{
    let k = shard_of(values[0], shards.len() as usize);
    let db = shards[k];
    let i = table_position(db, table_name)->0;
    let table = db[i];
    lemma_insert_then_select_by_key(table, values);
    lemma_position_after_update(db, i, table.insert(values)->Ok_0.0, table_name);
}

/// Replacing one partition changes the number of rows by what that
/// partition gained.
pub proof fn lemma_rows_in_all_update(
    shards: Seq<DbState>,
    k: int,
    db: DbState,
    name: Seq<char>,
    upto: int,
)
    requires
        0 <= k < shards.len(),
        0 <= upto <= shards.len(),
    ensures
        rows_in_all(shards.update(k, db), name, upto) + (if k < upto {
            rows_in(shards[k], name)
        } else {
            0
        }) == rows_in_all(shards, name, upto) + (if k < upto {
            rows_in(db, name)
        } else {
            0
        }),
    decreases upto,
{
    if upto > 0 {
        lemma_rows_in_all_update(shards, k, db, name, upto - 1);
    }
}

/// An accepted insert adds one row to the table, in one partition.
pub proof fn lemma_insert_adds_one(shards: Seq<DbState>, table_name: Seq<char>, values: Seq<ValueView>)
    requires
        router_inv(shards),
        run_sharded(shards, QueryView::Insert { table_name, values }).1 is Ok,
    ensures
        rows_in_all(
            run_sharded(shards, QueryView::Insert { table_name, values }).0,
            table_name,
            shards.len() as int,
        ) == rows_in_all(shards, table_name, shards.len() as int) + 1,
{
    let query = QueryView::Insert { table_name, values };
    let k = shard_of(values[0], shards.len() as usize);
    let db = shards[k];
    let after = run_query(db, query).0;
    let i = table_position(db, table_name)->0;
    lemma_insert_adds_one_row(db[i], values);
    lemma_position_after_update(db, i, db[i].insert(values)->Ok_0.0, table_name);
    lemma_rows_in_all_update(shards, k, after, table_name, shards.len() as int);
}

/// The rows gathered from partition `i` on are the rows that those
/// partitions hold.
pub proof fn lemma_gather_from(
    shards: Seq<DbState>,
    table_name: Seq<char>,
    i: int,
    rows: Seq<Seq<ValueView>>,
    names: Seq<Seq<char>>,
)
    requires
        router_inv(shards),
        0 <= i <= shards.len(),
        gather_from(shards, QueryView::Select { table_name, where_clause: None }, i, rows, names)
            is Ok,
    ensures
        gather_from(
            shards,
            QueryView::Select { table_name, where_clause: None },
            i,
            rows,
            names,
        )->Ok_0.0.len() + rows_in_all(shards, table_name, i) == rows.len() + rows_in_all(
            shards,
            table_name,
            shards.len() as int,
        ),
    decreases shards.len() - i,
{
    let query = QueryView::Select { table_name, where_clause: None };
    if i < shards.len() {
        let db = shards[i];
        let k = table_position(db, table_name)->0;
        lemma_select_all_count(db[k]);
        let found = db[k].select(None)->Ok_0;
        let column_names = crate::query::executor::column_names(db[k].columns);
        lemma_gather_from(
            shards,
            table_name,
            i + 1,
            rows + found,
            if names.len() == 0 {
                column_names
            } else {
                names
            },
        );
    }
}

/// The tables after the rows `rows` were inserted into `table_name`, one
/// after the other.
pub open spec fn run_inserts(
    shards: Seq<DbState>,
    table_name: Seq<char>,
    rows: Seq<Seq<ValueView>>,
) -> Seq<DbState>
    decreases rows.len(),
{
    if rows.len() == 0 {
        shards
    } else {
        run_sharded(
            run_inserts(shards, table_name, rows.drop_last()),
            QueryView::Insert { table_name, values: rows.last() },
        ).0
    }
}

/// Whether each of the rows `rows` was accepted when they were inserted
/// into `table_name`, one after the other.
pub open spec fn inserts_accepted(
    shards: Seq<DbState>,
    table_name: Seq<char>,
    rows: Seq<Seq<ValueView>>,
) -> bool
    decreases rows.len(),
{
    rows.len() == 0 || (inserts_accepted(shards, table_name, rows.drop_last()) && run_sharded(
        run_inserts(shards, table_name, rows.drop_last()),
        QueryView::Insert { table_name, values: rows.last() },
    ).1 is Ok)
}

/// Scatter-gather completeness: after any number of rows were inserted and
/// accepted, the partitions hold that many rows more between them, and a
/// select without a filter gives exactly the rows that the partitions hold:
/// none is lost and none comes twice.
pub proof fn lemma_scatter_gather_complete(
    shards: Seq<DbState>,
    table_name: Seq<char>,
    rows: Seq<Seq<ValueView>>,
)
    requires
        router_inv(shards),
        rows.len() > 0,
        inserts_accepted(shards, table_name, rows),
    ensures
        ({
            let after = run_inserts(shards, table_name, rows);
            let n = shards.len() as int;
            &&& router_inv(after)
            &&& after.len() == shards.len()
            &&& rows_in_all(after, table_name, n) == rows_in_all(shards, table_name, n) + rows.len()
            &&& run_sharded(after, QueryView::Select { table_name, where_clause: None }).1 matches Ok(
                QueryResultView::Rows { rows: found, .. },
            ) && found.len() == rows_in_all(after, table_name, n)
        }),
{
    lemma_inserts(shards, table_name, rows);
    let after = run_inserts(shards, table_name, rows);
    let select = QueryView::Select { table_name, where_clause: None };
    lemma_table_everywhere(shards, table_name, rows);
    lemma_gather_all(after, table_name, 0, Seq::empty(), Seq::empty());
    lemma_gather_from(after, table_name, 0, Seq::empty(), Seq::empty());
}

/// Accepted inserts keep the partitions as they should be and add one row
/// each.
pub proof fn lemma_inserts(shards: Seq<DbState>, table_name: Seq<char>, rows: Seq<Seq<ValueView>>)
    requires
        router_inv(shards),
        inserts_accepted(shards, table_name, rows),
    ensures
        router_inv(run_inserts(shards, table_name, rows)),
        run_inserts(shards, table_name, rows).len() == shards.len(),
        rows_in_all(run_inserts(shards, table_name, rows), table_name, shards.len() as int)
            == rows_in_all(shards, table_name, shards.len() as int) + rows.len(),
        forall|i: int|
            0 <= i < shards.len() ==> same_shape(
                shards[i],
                #[trigger] run_inserts(shards, table_name, rows)[i],
            ),
    decreases rows.len(),
{
    if rows.len() > 0 {
        let before = run_inserts(shards, table_name, rows.drop_last());
        let query = QueryView::Insert { table_name, values: rows.last() };
        lemma_inserts(shards, table_name, rows.drop_last());
        lemma_run_sharded_inv(before, query);
        lemma_insert_adds_one(before, table_name, rows.last());
        let after = run_sharded(before, query).0;
        let k = shard_of(rows.last()[0], before.len() as usize);
        lemma_routed_keeps_shape(before[k], query);
        assert forall|i: int| 0 <= i < shards.len() implies same_shape(
            shards[i],
            #[trigger] after[i],
        ) by {
            lemma_same_shape_trans(shards[i], before[i], before[i]);
            if i == k {
                lemma_same_shape_trans(shards[i], before[i], after[i]);
            }
        }
    } else {
        assert forall|i: int| 0 <= i < shards.len() implies same_shape(
            shards[i],
            #[trigger] shards[i],
        ) by {
            lemma_same_shape_trans(shards[0], shards[i], shards[i]);
            lemma_same_shape_trans(shards[i], shards[0], shards[i]);
        }
    }
}

/// Where a row was accepted by one partition, every partition has the table.
pub proof fn lemma_table_everywhere(
    shards: Seq<DbState>,
    table_name: Seq<char>,
    rows: Seq<Seq<ValueView>>,
)
    requires
        router_inv(shards),
        rows.len() > 0,
        inserts_accepted(shards, table_name, rows),
    ensures
        forall|i: int|
            0 <= i < shards.len() ==> table_position(
                #[trigger] run_inserts(shards, table_name, rows)[i],
                table_name,
            ) is Some,
{
    let before = run_inserts(shards, table_name, rows.drop_last());
    let after = run_inserts(shards, table_name, rows);
    let query = QueryView::Insert { table_name, values: rows.last() };
    lemma_inserts(shards, table_name, rows.drop_last());
    lemma_inserts(shards, table_name, rows);
    let k = shard_of(rows.last()[0], before.len() as usize);
    assert(table_position(before[k], table_name) is Some);
    assert forall|i: int| 0 <= i < shards.len() implies table_position(
        #[trigger] after[i],
        table_name,
    ) is Some by {
        lemma_same_shape_trans(before[0], before[k], before[k]);
        lemma_same_shape_trans(before[k], before[0], before[i]);
        lemma_same_shape_position(before[k], before[i], table_name);
        lemma_same_shape_trans(shards[i], before[i], before[i]);
        lemma_same_shape_trans(before[i], shards[i], after[i]);
        lemma_same_shape_position(before[i], after[i], table_name);
    }
}

/// Where every partition has the table, gathering its rows succeeds.
pub proof fn lemma_gather_all(
    shards: Seq<DbState>,
    table_name: Seq<char>,
    i: int,
    rows: Seq<Seq<ValueView>>,
    names: Seq<Seq<char>>,
)
    requires
        router_inv(shards),
        0 <= i <= shards.len(),
        forall|j: int|
            0 <= j < shards.len() ==> table_position(#[trigger] shards[j], table_name) is Some,
    ensures
        gather_from(shards, QueryView::Select { table_name, where_clause: None }, i, rows, names)
            is Ok,
    decreases shards.len() - i,
{
    if i < shards.len() {
        let db = shards[i];
        let k = table_position(db, table_name)->0;
        lemma_select_all_count(db[k]);
        let found = db[k].select(None)->Ok_0;
        let column_names = crate::query::executor::column_names(db[k].columns);
        lemma_gather_all(
            shards,
            table_name,
            i + 1,
            rows + found,
            if names.len() == 0 {
                column_names
            } else {
                names
            },
        );
    }
}

} // verus!

