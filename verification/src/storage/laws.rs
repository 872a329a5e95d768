//! What holds of every table: its invariant is kept by every operation, and
//! the operations relate to each other as one expects of a table.

use vstd::prelude::*;
use super::btree::{
    ids_of,
    index_insert,
    index_remove,
    lemma_with_id,
    lemma_without_id,
    with_id,
    without_id,
    IndexView,
};
use super::model::{
    build_from,
    build_index,
    holds,
    index_consistent,
    listed,
    lists_wf,
    pick,
    rows_at,
    TableState,
    ROWS_PER_PAGE,
};
use super::page::{lemma_live_ids, live_count, live_ids, slot_limit, SlotView};
use super::{
    column_position,
    is_first_named,
    lemma_column_position,
    lemma_column_position_is_first,
    primary_key_position,
    ColumnView,
    ValueView,
};
use crate::error::DbErrorView;

verus! {

/// After a row is listed under a key, the index lists what it listed before
/// and that row under that key.
pub proof fn lemma_index_insert_listed(m: IndexView, key: ValueView, id: usize)
    requires
        lists_wf(m),
    ensures
        lists_wf(index_insert(m, key, id)),
        forall|k: ValueView, x: usize| #[trigger]
            listed(index_insert(m, key, id), k, x) == (listed(m, k, x) || (k == key && x == id)),
{
    let after = index_insert(m, key, id);
    let old_ids = ids_of(m, key);
    assert(old_ids.no_duplicates());
    lemma_with_id(old_ids, id);
    assert forall|k: ValueView| #[trigger] after.contains_key(k) implies after[k].len() > 0
        && after[k].no_duplicates() by {
        if k != key {
            assert(m.contains_key(k));
        }
    }
    assert forall|k: ValueView, x: usize| #[trigger]
        listed(after, k, x) == (listed(m, k, x) || (k == key && x == id)) by {
        if k == key {
            if x != id {
                assert(with_id(old_ids, id).contains(x) <==> old_ids.contains(x));
            }
        }
    }
}

/// After a row is taken out from under a key, the index lists what it listed
/// before, but for that row under that key.
pub proof fn lemma_index_remove_listed(m: IndexView, key: ValueView, id: usize)
    requires
        lists_wf(m),
    ensures
        lists_wf(index_remove(m, key, id)),
        forall|k: ValueView, x: usize| #[trigger]
            listed(index_remove(m, key, id), k, x) == (listed(m, k, x) && !(k == key && x == id)),
{
    let after = index_remove(m, key, id);
    if m.contains_key(key) {
        lemma_without_id(m[key], id);
        let kept = without_id(m[key], id);
        assert forall|k: ValueView| #[trigger] after.contains_key(k) implies after[k].len() > 0
            && after[k].no_duplicates() by {
            if k != key {
                assert(m.contains_key(k));
            }
        }
        assert forall|k: ValueView, x: usize| #[trigger]
            listed(after, k, x) == (listed(m, k, x) && !(k == key && x == id)) by {
            if k == key {
                if x != id {
                    assert(kept.contains(x) <==> m[key].contains(x));
                    if kept.len() == 0 && m[key].contains(x) {
                        assert(kept.contains(x));
                    }
                }
            }
        }
    }
}

/// An index built from the rows `ids` lists exactly those of them that are
/// stored.
pub proof fn lemma_build_from(ids: Seq<usize>, slots: Seq<SlotView>, c: int)
    ensures
        lists_wf(build_from(ids, slots, c)),
        forall|k: ValueView, x: usize| #[trigger]
            listed(build_from(ids, slots, c), k, x) == (ids.contains(x) && holds(slots, c, x, k)),
    decreases ids.len(),
{
    let m = build_from(ids, slots, c);
    if ids.len() == 0 {
        assert forall|k: ValueView, x: usize| #[trigger]
            listed(m, k, x) == (ids.contains(x) && holds(slots, c, x, k)) by {}
    } else {
        let front_ids = ids.drop_last();
        let front = build_from(front_ids, slots, c);
        let last = ids.last();
        lemma_build_from(front_ids, slots, c);
        if last < slots.len() && slots[last as int] is Some {
            lemma_index_insert_listed(front, slots[last as int]->0[c], last);
        }
        assert forall|k: ValueView, x: usize| #[trigger]
            listed(m, k, x) == (ids.contains(x) && holds(slots, c, x, k)) by {
            assert(listed(front, k, x) == (front_ids.contains(x) && holds(slots, c, x, k)));
            if front_ids.contains(x) {
                let i = choose|i: int| 0 <= i < front_ids.len() && front_ids[i] == x;
                assert(ids[i] == x);
            }
            if ids.contains(x) && x != last {
                let i = choose|i: int| 0 <= i < ids.len() && ids[i] == x;
                assert(front_ids[i] == x);
            }
            if x == last {
                assert(ids[ids.len() - 1] == x);
            }
        }
    }
}

/// An index built from the stored rows lists exactly the stored rows.
pub proof fn lemma_build_index(slots: Seq<SlotView>, c: int)
    requires
        slots.len() <= usize::MAX,
    ensures
        index_consistent(build_index(slots, c), slots, c),
{
    let m = build_index(slots, c);
    lemma_build_from(live_ids(slots), slots, c);
    lemma_live_ids(slots);
    assert forall|k: ValueView, x: usize| #[trigger] listed(m, k, x) == holds(slots, c, x, k) by {
        assert(listed(m, k, x) == (live_ids(slots).contains(x) && holds(slots, c, x, k)));
    }
}

/// A table without rows is as a table should be.
pub proof fn lemma_empty_inv(name: Seq<char>, columns: Seq<ColumnView>)
    ensures
        TableState::empty(name, columns).inv(),
{
    let st = TableState::empty(name, columns);
    assert(slot_limit(ROWS_PER_PAGE as nat) >= 0);
    assert forall|n: Seq<char>| #[trigger] st.indexes.contains_key(n) implies st.column(n) is Some
        && index_consistent(st.indexes[n], st.slots, st.column(n)->0) by {
        let p = primary_key_position(columns)->0;
        assert(n == columns[p].name);
        super::lemma_some_first_named(columns, n, p);
        let m = st.indexes[n];
        assert(m =~= Map::<ValueView, Seq<usize>>::empty());
        assert forall|k: ValueView, id: usize| #[trigger]
            listed(m, k, id) == holds(st.slots, st.column(n)->0, id, k) by {}
    }
}

/// Two different names are the names of different columns.
pub proof fn lemma_columns_differ(columns: Seq<ColumnView>, a: Seq<char>, b: Seq<char>)
    requires
        a != b,
        column_position(columns, a) is Some,
        column_position(columns, b) is Some,
    ensures
        column_position(columns, a)->0 != column_position(columns, b)->0,
        0 <= column_position(columns, a)->0 < columns.len(),
{
    lemma_column_position_is_first(columns, a);
    lemma_column_position_is_first(columns, b);
}

/// Inserting a row keeps the table as it should be.
pub proof fn lemma_insert_inv(st: TableState, values: Seq<ValueView>)
    requires
        st.inv(),
        st.insert(values) is Ok,
    ensures
        st.insert(values)->Ok_0.0.inv(),
{
    let after = st.insert(values)->Ok_0.0;
    let id = st.slots.len() as usize;
    assert(slot_limit(ROWS_PER_PAGE as nat) <= usize::MAX) by {
        super::page::lemma_slot_limit(ROWS_PER_PAGE as nat);
    }
    assert forall|n: Seq<char>| #[trigger] after.indexes.contains_key(n) implies after.column(n)
        is Some && index_consistent(after.indexes[n], after.slots, after.column(n)->0) by {
        assert(st.indexes.contains_key(n));
        let c = st.column(n)->0;
        let m = st.indexes[n];
        lemma_index_insert_listed(m, values[c], id);
        assert forall|k: ValueView, x: usize| #[trigger]
            listed(after.indexes[n], k, x) == holds(after.slots, c, x, k) by {
            assert(listed(m, k, x) == holds(st.slots, c, x, k));
        }
    }
}

/// Setting one column of one row keeps the table as it should be.
pub proof fn lemma_update_one_inv(st: TableState, id: usize, name: Seq<char>, c: int, value: ValueView)
    requires
        st.inv(),
        st.column(name) == Some(c),
    ensures
        st.update_one(id, name, c, value).0.inv(),
        st.update_one(id, name, c, value).0.columns == st.columns,
        st.update_one(id, name, c, value).0.name == st.name,
        st.update_one(id, name, c, value).0.slots.len() == st.slots.len(),
        st.update_one(id, name, c, value).0.indexes.dom() == st.indexes.dom(),
{
    let after = st.update_one(id, name, c, value).0;
    lemma_column_position_is_first(st.columns, name);
    if id < st.slots.len() && st.slots[id as int] is Some {
        let row = st.slots[id as int]->0;
        assert(row.len() == st.columns.len());
        assert forall|x: int| 0 <= x < after.slots.len() && (#[trigger] after.slots[x])
            is Some implies after.slots[x]->0.len() == after.columns.len() by {
            if x != id {
                assert(st.slots[x] is Some);
            }
        }
        assert forall|n: Seq<char>| #[trigger] after.indexes.contains_key(n) implies after.column(
            n,
        ) is Some && index_consistent(after.indexes[n], after.slots, after.column(n)->0) by {
            assert(st.indexes.contains_key(n));
            let cn = st.column(n)->0;
            let m = st.indexes[n];
            if n == name {
                let removed = index_remove(m, row[c], id);
                lemma_index_remove_listed(m, row[c], id);
                lemma_index_insert_listed(removed, value, id);
                assert forall|k: ValueView, x: usize| #[trigger]
                    listed(after.indexes[n], k, x) == holds(after.slots, cn, x, k) by {
                    assert(listed(removed, k, x) == (listed(m, k, x) && !(k == row[c] && x == id)));
                    assert(listed(m, k, x) == holds(st.slots, cn, x, k));
                }
            } else {
                lemma_columns_differ(st.columns, n, name);
                assert forall|k: ValueView, x: usize| #[trigger]
                    listed(after.indexes[n], k, x) == holds(after.slots, cn, x, k) by {
                    assert(listed(m, k, x) == holds(st.slots, cn, x, k));
                }
            }
        }
        assert(after.indexes.dom() =~= st.indexes.dom());
    }
}

/// Setting one column of some rows keeps the table as it should be.
pub proof fn lemma_update_all_inv(
    st: TableState,
    ids: Seq<usize>,
    name: Seq<char>,
    c: int,
    value: ValueView,
)
    requires
        st.inv(),
        st.column(name) == Some(c),
    ensures
        st.update_all(ids, name, c, value).0.inv(),
        st.update_all(ids, name, c, value).0.columns == st.columns,
        st.update_all(ids, name, c, value).0.name == st.name,
        st.update_all(ids, name, c, value).0.slots.len() == st.slots.len(),
        st.update_all(ids, name, c, value).0.indexes.dom() == st.indexes.dom(),
        st.update_all(ids, name, c, value).1 <= ids.len(),
    decreases ids.len(),
{
    if ids.len() > 0 {
        lemma_update_all_inv(st, ids.drop_last(), name, c, value);
        let before = st.update_all(ids.drop_last(), name, c, value).0;
        lemma_update_one_inv(before, ids.last(), name, c, value);
    }
}

/// Deleting one row keeps the table as it should be.
pub proof fn lemma_delete_one_inv(st: TableState, id: usize)
    requires
        st.inv(),
    ensures
        st.delete_one(id).0.inv(),
        st.delete_one(id).0.columns == st.columns,
        st.delete_one(id).0.name == st.name,
        st.delete_one(id).0.slots.len() == st.slots.len(),
        st.delete_one(id).0.indexes.dom() == st.indexes.dom(),
{
    let after = st.delete_one(id).0;
    if id < st.slots.len() && st.slots[id as int] is Some {
        let row = st.slots[id as int]->0;
        assert forall|x: int| 0 <= x < after.slots.len() && (#[trigger] after.slots[x])
            is Some implies after.slots[x]->0.len() == after.columns.len() by {
            assert(st.slots[x] is Some);
        }
        assert forall|n: Seq<char>| #[trigger] after.indexes.contains_key(n) implies after.column(
            n,
        ) is Some && index_consistent(after.indexes[n], after.slots, after.column(n)->0) by {
            assert(st.indexes.contains_key(n));
            let cn = st.column(n)->0;
            let m = st.indexes[n];
            lemma_index_remove_listed(m, row[cn], id);
            assert forall|k: ValueView, x: usize| #[trigger]
                listed(after.indexes[n], k, x) == holds(after.slots, cn, x, k) by {
                assert(listed(m, k, x) == holds(st.slots, cn, x, k));
            }
        }
        assert(after.indexes.dom() =~= st.indexes.dom());
    }
}

/// Deleting some rows keeps the table as it should be.
pub proof fn lemma_delete_all_inv(st: TableState, ids: Seq<usize>)
    requires
        st.inv(),
    ensures
        st.delete_all(ids).0.inv(),
        st.delete_all(ids).0.columns == st.columns,
        st.delete_all(ids).0.name == st.name,
        st.delete_all(ids).0.slots.len() == st.slots.len(),
        st.delete_all(ids).0.indexes.dom() == st.indexes.dom(),
        st.delete_all(ids).1 <= ids.len(),
    decreases ids.len(),
{
    if ids.len() > 0 {
        lemma_delete_all_inv(st, ids.drop_last());
        let before = st.delete_all(ids.drop_last()).0;
        lemma_delete_one_inv(before, ids.last());
    }
}

/// Indexing a column keeps the table as it should be.
pub proof fn lemma_create_index_inv(st: TableState, name: Seq<char>)
    requires
        st.inv(),
        st.create_index(name) is Ok,
    ensures
        st.create_index(name)->Ok_0.inv(),
{
    let after = st.create_index(name)->Ok_0;
    let c = st.column(name)->0;
    super::page::lemma_slot_limit(ROWS_PER_PAGE as nat);
    lemma_build_index(st.slots, c);
    assert forall|n: Seq<char>| #[trigger] after.indexes.contains_key(n) implies after.column(n)
        is Some && index_consistent(after.indexes[n], after.slots, after.column(n)->0) by {
        if n != name {
            assert(st.indexes.contains_key(n));
        }
    }
}

/// A schema as it should be: no two columns of one name, and at most one
/// primary-key column.
pub open spec fn schema_valid(columns: Seq<ColumnView>) -> bool {
    &&& forall|i: int, j: int|
        0 <= i < j < columns.len() ==> (#[trigger] columns[i]).name != (#[trigger] columns[j]).name
    &&& forall|i: int, j: int|
        0 <= i < j < columns.len() ==> !((#[trigger] columns[i]).primary_key && (
        #[trigger] columns[j]).primary_key)
}

/// In a valid schema every column is the one that its name stands for.
pub proof fn lemma_valid_column(columns: Seq<ColumnView>, i: int)
    requires
        schema_valid(columns),
        0 <= i < columns.len(),
    ensures
        column_position(columns, columns[i].name) == Some(i),
{
    assert(is_first_named(columns, columns[i].name, i)) by {
        assert forall|j: int| 0 <= j < i implies columns[j].name != columns[i].name by {}
    }
    lemma_column_position(columns, columns[i].name, i);
}

/// Picking from a list gives those of its rows that hold the key, each as
/// often as the list has it.
pub proof fn lemma_pick(ids: Seq<usize>, slots: Seq<SlotView>, c: int, key: ValueView)
    ensures
        forall|x: usize| #[trigger]
            pick(ids, slots, c, key).contains(x) == (ids.contains(x) && holds(slots, c, x, key)),
        ids.no_duplicates() ==> pick(ids, slots, c, key).no_duplicates(),
        pick(ids, slots, c, key).len() <= ids.len(),
    decreases ids.len(),
{
    let out = pick(ids, slots, c, key);
    if ids.len() > 0 {
        let front = ids.drop_last();
        let last = ids.last();
        let sub = pick(front, slots, c, key);
        lemma_pick(front, slots, c, key);
        assert forall|x: usize| #[trigger]
            out.contains(x) == (ids.contains(x) && holds(slots, c, x, key)) by {
            assert(sub.contains(x) == (front.contains(x) && holds(slots, c, x, key)));
            if front.contains(x) {
                let i = choose|i: int| 0 <= i < front.len() && front[i] == x;
                assert(ids[i] == x);
            }
            if ids.contains(x) && x != last {
                let i = choose|i: int| 0 <= i < ids.len() && ids[i] == x;
                assert(front[i] == x);
            }
            if x == last {
                assert(ids[ids.len() - 1] == x);
            }
            if sub.contains(x) && holds(slots, c, last, key) {
                let i = choose|i: int| 0 <= i < sub.len() && sub[i] == x;
                assert(out[i] == x);
            }
            if out.contains(x) {
                let i = choose|i: int| 0 <= i < out.len() && out[i] == x;
                if i < sub.len() {
                    assert(sub[i] == x);
                }
            }
            if x == last && holds(slots, c, last, key) {
                assert(out[out.len() - 1] == x);
            }
        }
        if ids.no_duplicates() {
            assert(front.no_duplicates());
            if holds(slots, c, last, key) {
                assert(!front.contains(last)) by {
                    if front.contains(last) {
                        let i = choose|i: int| 0 <= i < front.len() && front[i] == last;
                        assert(ids[i] == ids[ids.len() - 1]);
                    }
                }
                assert(!sub.contains(last));
            }
        }
    }
}

/// What the index lists under a key are the rows that going through the
/// store finds for it: the same rows, each once, as many.
pub proof fn lemma_index_agrees_with_scan(st: TableState, name: Seq<char>, key: ValueView)
    requires
        st.inv(),
        st.indexes.contains_key(name),
    ensures
        ({
            let by_index = ids_of(st.indexes[name], key);
            let by_scan = pick(live_ids(st.slots), st.slots, st.column(name)->0, key);
            &&& by_index.no_duplicates()
            &&& by_scan.no_duplicates()
            &&& by_index.to_set() == by_scan.to_set()
            &&& by_index.len() == by_scan.len()
            &&& forall|id: usize|
                by_index.contains(id) <==> holds(st.slots, st.column(name)->0, id, key)
        }),
{
    let m = st.indexes[name];
    let c = st.column(name)->0;
    let by_index = ids_of(m, key);
    let by_scan = pick(live_ids(st.slots), st.slots, c, key);
    super::page::lemma_slot_limit(ROWS_PER_PAGE as nat);
    lemma_live_ids(st.slots);
    lemma_pick(live_ids(st.slots), st.slots, c, key);
    assert(live_ids(st.slots).no_duplicates());
    assert forall|id: usize| by_index.contains(id) <==> holds(st.slots, c, id, key) by {
        assert(listed(m, key, id) == holds(st.slots, c, id, key));
    }
    assert forall|id: usize| by_scan.contains(id) <==> holds(st.slots, c, id, key) by {
        if holds(st.slots, c, id, key) {
            assert(live_ids(st.slots).contains(id));
        }
    }
    assert(by_index.to_set() =~= by_scan.to_set());
    by_index.unique_seq_to_set();
    by_scan.unique_seq_to_set();
}

/// The rows that an operation with a filter works on are the stored rows
/// that hold the key in the filter's column, each once.
pub proof fn lemma_candidates(st: TableState, name: Seq<char>, key: ValueView)
    requires
        st.inv(),
        st.column(name) is Some,
    ensures
        ({
            let c = st.column(name)->0;
            let ids = st.candidates(name, c, key);
            &&& ids.no_duplicates()
            &&& forall|id: usize| ids.contains(id) <==> holds(st.slots, c, id, key)
            &&& ids.len() == pick(live_ids(st.slots), st.slots, c, key).len()
            &&& ids.len() <= live_count(st.slots)
        }),
{
    let c = st.column(name)->0;
    super::page::lemma_slot_limit(ROWS_PER_PAGE as nat);
    lemma_live_ids(st.slots);
    lemma_pick(live_ids(st.slots), st.slots, c, key);
    if st.indexes.contains_key(name) {
        lemma_index_agrees_with_scan(st, name, key);
    } else {
        let ids = pick(live_ids(st.slots), st.slots, c, key);
        assert forall|id: usize| ids.contains(id) <==> holds(st.slots, c, id, key) by {
            if holds(st.slots, c, id, key) {
                assert(live_ids(st.slots).contains(id));
            }
        }
    }
}

/// Round trip: a row that was inserted is what a select by its primary key
/// gives, and nothing else.
pub proof fn lemma_insert_then_select_by_key(st: TableState, values: Seq<ValueView>)
    requires
        st.inv(),
        schema_valid(st.columns),
        st.primary_key() is Some,
        st.insert(values) is Ok,
    ensures
        ({
            let p = st.primary_key()->0;
            let after = st.insert(values)->Ok_0.0;
            after.select(Some((st.columns[p].name, values[p]))) == Ok::<
                Seq<Seq<ValueView>>,
                DbErrorView,
            >(seq![values])
        }),
{
    let p = st.primary_key()->0;
    let n = st.columns[p].name;
    let after = st.insert(values)->Ok_0.0;
    let id = st.slots.len() as usize;
    super::page::lemma_slot_limit(ROWS_PER_PAGE as nat);
    lemma_valid_column(st.columns, p);
    assert(st.indexes.contains_key(n));
    let m = st.indexes[n];
    assert(!m.contains_key(values[p]));
    let ids = ids_of(after.indexes[n], values[p]);
    assert(ids =~= seq![id]);
    assert(ids.drop_last() =~= Seq::<usize>::empty());
    assert(rows_at(after.slots, ids.drop_last()) =~= Seq::<Seq<ValueView>>::empty());
    assert(ids.last() == id);
    assert(after.slots[id as int] == Some(values));
    assert(rows_at(after.slots, ids) =~= seq![values]);
}

/// Primary-key uniqueness: a row whose primary key a stored row holds is
/// refused.
pub proof fn lemma_taken_key_refused(st: TableState, values: Seq<ValueView>, id: usize)
    requires
        st.inv(),
        schema_valid(st.columns),
        st.primary_key() is Some,
        values.len() == st.columns.len(),
        holds(st.slots, st.primary_key()->0, id, values[st.primary_key()->0]),
    ensures
        st.insert(values) == Err::<(TableState, usize), DbErrorView>(
            DbErrorView::ConstraintViolation,
        ),
{
    let p = st.primary_key()->0;
    let n = st.columns[p].name;
    lemma_valid_column(st.columns, p);
    assert(st.indexes.contains_key(n));
    assert(listed(st.indexes[n], values[p], id));
}

/// A row is accepted when it has one value for each column, no stored row
/// holds its primary key, and the store has room.
pub proof fn lemma_fresh_key_accepted(st: TableState, values: Seq<ValueView>)
    requires
        st.inv(),
        values.len() == st.columns.len(),
        st.slots.len() < slot_limit(ROWS_PER_PAGE as nat),
        st.primary_key() matches Some(p) ==> forall|id: usize|
            !holds(st.slots, st.column(st.columns[p].name)->0, id, values[p]),
    ensures
        st.insert(values) is Ok,
{
    if let Some(p) = st.primary_key() {
        let n = st.columns[p].name;
        let m = st.indexes[n];
        if m.contains_key(values[p]) {
            let id = m[values[p]][0];
            assert(listed(m, values[p], id));
        }
    }
}

/// Primary-key uniqueness: of two rows with the same primary key that are
/// inserted one after the other, the second is refused, so that one row
/// is added and not two.
pub proof fn lemma_second_insert_refused(
    st: TableState,
    first: Seq<ValueView>,
    second: Seq<ValueView>,
)
    requires
        st.inv(),
        schema_valid(st.columns),
        st.primary_key() is Some,
        st.insert(first) is Ok,
        second.len() == st.columns.len(),
        second[st.primary_key()->0] == first[st.primary_key()->0],
    ensures
        st.insert(first)->Ok_0.0.insert(second) == Err::<(TableState, usize), DbErrorView>(
            DbErrorView::ConstraintViolation,
        ),
        live_count(st.insert(first)->Ok_0.0.slots) == live_count(st.slots) + 1,
{
    let after = st.insert(first)->Ok_0.0;
    let id = st.slots.len() as usize;
    super::page::lemma_slot_limit(ROWS_PER_PAGE as nat);
    lemma_insert_inv(st, first);
    lemma_taken_key_refused(after, second, id);
    super::page::lemma_live_count_push(st.slots, Some(first));
}

/// An accepted row is one more row, in a slot of its own, and every other
/// row stays as it is.
pub proof fn lemma_insert_adds_one_row(st: TableState, values: Seq<ValueView>)
    requires
        st.insert(values) is Ok,
    ensures
        ({
            let (after, id) = st.insert(values)->Ok_0;
            &&& id == st.slots.len()
            &&& after.slots == st.slots.push(Some(values))
            &&& live_count(after.slots) == live_count(st.slots) + 1
            &&& after.columns == st.columns
            &&& after.name == st.name
            &&& after.indexes.dom() == st.indexes.dom()
        }),
{
    super::page::lemma_live_count_push(st.slots, Some(values));
    super::page::lemma_slot_limit(ROWS_PER_PAGE as nat);
    let after = st.insert(values)->Ok_0.0;
    assert(after.indexes.dom() =~= st.indexes.dom());
}

/// What setting a column of some rows does to the store: each of the rows
/// that is stored has the new value in that column, and every slot else is
/// as before.
pub proof fn lemma_update_all_slots(
    st: TableState,
    ids: Seq<usize>,
    name: Seq<char>,
    c: int,
    value: ValueView,
)
    requires
        st.inv(),
        st.column(name) == Some(c),
    ensures
        ({
            let (after, count) = st.update_all(ids, name, c, value);
            &&& after.slots.len() == st.slots.len()
            &&& forall|x: int|
                0 <= x < st.slots.len() ==> #[trigger] after.slots[x] == if ids.contains(
                    x as usize,
                ) && st.slots[x] is Some {
                    Some(st.slots[x]->0.update(c, value))
                } else {
                    st.slots[x]
                }
            &&& (ids.len() <= usize::MAX && ids.no_duplicates() && (forall|i: int|
                0 <= i < ids.len() ==> holds(st.slots, c, #[trigger] ids[i], st.slots[ids[i] as int]->0[c])))
                ==> count == ids.len()
        }),
    decreases ids.len(),
{
    super::page::lemma_slot_limit(ROWS_PER_PAGE as nat);
    lemma_column_position_is_first(st.columns, name);
    if ids.len() > 0 {
        let front = ids.drop_last();
        let last = ids.last();
        let (before, count_before) = st.update_all(front, name, c, value);
        let (after, count) = st.update_all(ids, name, c, value);
        lemma_update_all_slots(st, front, name, c, value);
        lemma_update_all_inv(st, front, name, c, value);
        assert forall|x: int| 0 <= x < st.slots.len() implies #[trigger] after.slots[x]
            == if ids.contains(x as usize) && st.slots[x] is Some {
            Some(st.slots[x]->0.update(c, value))
        } else {
            st.slots[x]
        } by {
            if front.contains(x as usize) {
                let i = choose|i: int| 0 <= i < front.len() && front[i] == x as usize;
                assert(ids[i] == x as usize);
            }
            if ids.contains(x as usize) && x as usize != last {
                let i = choose|i: int| 0 <= i < ids.len() && ids[i] == x as usize;
                assert(front[i] == x as usize);
            }
            if x as usize == last {
                assert(ids[ids.len() - 1] == last);
                if st.slots[x] is Some {
                    let row = st.slots[x]->0;
                    assert(row.len() == st.columns.len());
                    assert(row.update(c, value).update(c, value) =~= row.update(c, value));
                }
            }
        }
        if ids.len() <= usize::MAX && ids.no_duplicates() && (forall|i: int|
            0 <= i < ids.len() ==> holds(st.slots, c, #[trigger] ids[i], st.slots[ids[i] as int]->0[c])) {
            assert(front.no_duplicates());
            assert forall|i: int| 0 <= i < front.len() implies holds(
                st.slots,
                c,
                #[trigger] front[i],
                st.slots[front[i] as int]->0[c],
            ) by {
                assert(front[i] == ids[i]);
            }
            assert(holds(st.slots, c, ids[ids.len() - 1], st.slots[last as int]->0[c]));
            assert(before.slots[last as int] is Some);
        }
    }
}

/// Update preserves identifiers: the table has the same slots after an
/// update as before; each row that held the filter's value in the filter's
/// column has the new value in the changed column and is otherwise as it
/// was; every other row is untouched; and the count is the number of rows
/// that matched.
pub proof fn lemma_update_keeps_rows(
    st: TableState,
    where_column: Seq<char>,
    where_value: ValueView,
    set_column: Seq<char>,
    set_value: ValueView,
)
    requires
        st.inv(),
        st.update(where_column, where_value, set_column, set_value) is Ok,
    ensures
        ({
            let (after, count) = st.update(where_column, where_value, set_column, set_value)->Ok_0;
            let wc = st.column(where_column)->0;
            let sc = st.column(set_column)->0;
            &&& after.inv()
            &&& after.slots.len() == st.slots.len()
            &&& forall|id: int|
                0 <= id < st.slots.len() ==> #[trigger] after.slots[id] == if holds(
                    st.slots,
                    wc,
                    id as usize,
                    where_value,
                ) {
                    Some(st.slots[id]->0.update(sc, set_value))
                } else {
                    st.slots[id]
                }
            &&& count == pick(live_ids(st.slots), st.slots, wc, where_value).len()
            &&& live_count(after.slots) == live_count(st.slots)
        }),
{
    let wc = st.column(where_column)->0;
    let sc = st.column(set_column)->0;
    let ids = st.candidates(where_column, wc, where_value);
    let (after, count) = st.update_all(ids, set_column, sc, set_value);
    super::page::lemma_slot_limit(ROWS_PER_PAGE as nat);
    lemma_candidates(st, where_column, where_value);
    lemma_update_all_inv(st, ids, set_column, sc, set_value);
    lemma_update_all_slots(st, ids, set_column, sc, set_value);
    lemma_live_count_bound_usize(st.slots);
    assert forall|i: int| 0 <= i < ids.len() implies holds(
        st.slots,
        sc,
        #[trigger] ids[i],
        st.slots[ids[i] as int]->0[sc],
    ) by {
        assert(ids.contains(ids[i]));
    }
    assert forall|id: int| 0 <= id < st.slots.len() implies #[trigger] after.slots[id] == if holds(
        st.slots,
        wc,
        id as usize,
        where_value,
    ) {
        Some(st.slots[id]->0.update(sc, set_value))
    } else {
        st.slots[id]
    } by {
        assert(ids.contains(id as usize) <==> holds(st.slots, wc, id as usize, where_value));
    }
    lemma_same_liveness(st.slots, after.slots);
}

/// The number of rows fits the machine word when the slots do.
pub proof fn lemma_live_count_bound_usize(slots: Seq<SlotView>)
    requires
        slots.len() <= usize::MAX,
    ensures
        live_count(slots) <= usize::MAX,
{
    super::page::lemma_live_count_bound(slots);
}

/// Two stores with rows in the same slots hold as many rows.
pub proof fn lemma_same_liveness(a: Seq<SlotView>, b: Seq<SlotView>)
    requires
        a.len() == b.len(),
        forall|i: int| 0 <= i < a.len() ==> (#[trigger] a[i] is Some <==> b[i] is Some),
    ensures
        live_count(a) == live_count(b),
    decreases a.len(),
{
    if a.len() > 0 {
        assert forall|i: int| 0 <= i < a.drop_last().len() implies (#[trigger] a.drop_last()[i]
            is Some <==> b.drop_last()[i] is Some) by {
            assert(a[i] is Some <==> b[i] is Some);
        }
        lemma_same_liveness(a.drop_last(), b.drop_last());
        assert(a[a.len() - 1] is Some <==> b[a.len() - 1] is Some);
    }
}

/// What deleting some rows does to the store: the slot of each of them is
/// empty, and every slot else is as before.
pub proof fn lemma_delete_all_slots(st: TableState, ids: Seq<usize>)
    requires
        st.inv(),
    ensures
        ({
            let (after, count) = st.delete_all(ids);
            &&& after.slots.len() == st.slots.len()
            &&& forall|x: int|
                0 <= x < st.slots.len() ==> #[trigger] after.slots[x] == if ids.contains(
                    x as usize,
                ) {
                    None
                } else {
                    st.slots[x]
                }
            &&& (ids.len() <= usize::MAX && ids.no_duplicates() && (forall|i: int|
                0 <= i < ids.len() ==> (#[trigger] ids[i]) < st.slots.len()
                    && st.slots[ids[i] as int] is Some)) ==> count == ids.len() && live_count(
                after.slots,
            ) + count == live_count(st.slots)
        }),
    decreases ids.len(),
{
    super::page::lemma_slot_limit(ROWS_PER_PAGE as nat);
    if ids.len() > 0 {
        let front = ids.drop_last();
        let last = ids.last();
        let (before, count_before) = st.delete_all(front);
        let (after, count) = st.delete_all(ids);
        lemma_delete_all_slots(st, front);
        lemma_delete_all_inv(st, front);
        assert forall|x: int| 0 <= x < st.slots.len() implies #[trigger] after.slots[x]
            == if ids.contains(x as usize) {
            None
        } else {
            st.slots[x]
        } by {
            if front.contains(x as usize) {
                let i = choose|i: int| 0 <= i < front.len() && front[i] == x as usize;
                assert(ids[i] == x as usize);
            }
            if ids.contains(x as usize) && x as usize != last {
                let i = choose|i: int| 0 <= i < ids.len() && ids[i] == x as usize;
                assert(front[i] == x as usize);
            }
            if x as usize == last {
                assert(ids[ids.len() - 1] == last);
            }
        }
        if ids.len() <= usize::MAX && ids.no_duplicates() && (forall|i: int|
            0 <= i < ids.len() ==> (#[trigger] ids[i]) < st.slots.len() && st.slots[ids[i] as int]
                is Some) {
            assert(front.no_duplicates());
            assert forall|i: int| 0 <= i < front.len() implies (#[trigger] front[i])
                < st.slots.len() && st.slots[front[i] as int] is Some by {
                assert(front[i] == ids[i]);
            }
            assert(ids[ids.len() - 1] < st.slots.len());
            assert(!front.contains(last)) by {
                if front.contains(last) {
                    let i = choose|i: int| 0 <= i < front.len() && front[i] == last;
                    assert(ids[i] == ids[ids.len() - 1]);
                }
            }
            assert(before.slots[last as int] is Some);
            super::page::lemma_live_count_update(before.slots, last as int, None);
            super::page::lemma_live_count_bound(st.slots);
        }
    }
}

/// What a delete leaves: the rows that held the filter's value in the
/// filter's column are gone from the store and from every index, every
/// other row keeps its identifier and its values, and the count is the
/// number of rows that matched.
pub proof fn lemma_delete_removes_rows(st: TableState, name: Seq<char>, key: ValueView)
    requires
        st.inv(),
        st.delete(name, key) is Ok,
    ensures
        ({
            let (after, count) = st.delete(name, key)->Ok_0;
            let c = st.column(name)->0;
            &&& after.inv()
            &&& after.slots.len() == st.slots.len()
            &&& forall|id: int|
                0 <= id < st.slots.len() ==> #[trigger] after.slots[id] == if holds(
                    st.slots,
                    c,
                    id as usize,
                    key,
                ) {
                    None
                } else {
                    st.slots[id]
                }
            &&& count == pick(live_ids(st.slots), st.slots, c, key).len()
            &&& live_count(after.slots) + count == live_count(st.slots)
        }),
{
    let c = st.column(name)->0;
    let ids = st.candidates(name, c, key);
    let (after, count) = st.delete_all(ids);
    super::page::lemma_slot_limit(ROWS_PER_PAGE as nat);
    lemma_candidates(st, name, key);
    lemma_delete_all_inv(st, ids);
    lemma_delete_all_slots(st, ids);
    lemma_live_count_bound_usize(st.slots);
    assert forall|i: int| 0 <= i < ids.len() implies (#[trigger] ids[i]) < st.slots.len()
        && st.slots[ids[i] as int] is Some by {
        assert(ids.contains(ids[i]));
    }
    assert forall|id: int| 0 <= id < st.slots.len() implies #[trigger] after.slots[id] == if holds(
        st.slots,
        c,
        id as usize,
        key,
    ) {
        None
    } else {
        st.slots[id]
    } by {
        assert(ids.contains(id as usize) <==> holds(st.slots, c, id as usize, key));
    }
}

/// A select without a filter gives as many rows as the table holds.
pub proof fn lemma_select_all_count(st: TableState)
    requires
        st.inv(),
    ensures
        st.select(None) is Ok,
        st.select(None)->Ok_0.len() == live_count(st.slots),
{
    super::page::lemma_slot_limit(ROWS_PER_PAGE as nat);
    lemma_live_ids(st.slots);
    lemma_rows_at_live(st.slots, live_ids(st.slots));
}

/// Of rows that are all stored, every one is found.
pub proof fn lemma_rows_at_live(slots: Seq<SlotView>, ids: Seq<usize>)
    requires
        forall|k: int|
            0 <= k < ids.len() ==> (#[trigger] ids[k]) < slots.len() && slots[ids[k] as int] is Some,
    ensures
        rows_at(slots, ids).len() == ids.len(),
        forall|k: int| 0 <= k < ids.len() ==> #[trigger] rows_at(slots, ids)[k] == slots[ids[k] as int]->0,
    decreases ids.len(),
{
    if ids.len() > 0 {
        let front = ids.drop_last();
        assert forall|k: int| 0 <= k < front.len() implies (#[trigger] front[k]) < slots.len()
            && slots[front[k] as int] is Some by {
            assert(front[k] == ids[k]);
        }
        lemma_rows_at_live(slots, front);
        assert(ids[ids.len() - 1] < slots.len());
        assert forall|k: int| 0 <= k < ids.len() implies #[trigger] rows_at(slots, ids)[k]
            == slots[ids[k] as int]->0 by {
            if k < front.len() {
                assert(rows_at(slots, front)[k] == slots[front[k] as int]->0);
                assert(front[k] == ids[k]);
            }
        }
    }
}

/// What a select with a filter gives: where the table has the column, the
/// stored rows that hold the key in it, each once and no other; where it
/// has not, an error.
pub proof fn lemma_select_finds_matching(st: TableState, name: Seq<char>, key: ValueView)
    requires
        st.inv(),
    ensures
        match st.column(name) {
            None => st.select(Some((name, key))) == Err::<Seq<Seq<ValueView>>, DbErrorView>(
                DbErrorView::ColumnNotFound(name),
            ),
            Some(c) => {
                let ids = st.candidates(name, c, key);
                &&& st.select(Some((name, key))) matches Ok(rows)
                &&& rows.len() == ids.len()
                &&& ids.no_duplicates()
                &&& forall|id: usize| ids.contains(id) <==> holds(st.slots, c, id, key)
                &&& forall|k: int|
                    0 <= k < rows.len() ==> #[trigger] rows[k] == st.slots[ids[k] as int]->0
            },
        },
{
    if let Some(c) = st.column(name) {
        let ids = st.candidates(name, c, key);
        lemma_candidates(st, name, key);
        assert forall|k: int| 0 <= k < ids.len() implies (#[trigger] ids[k]) < st.slots.len()
            && st.slots[ids[k] as int] is Some by {
            assert(ids.contains(ids[k]));
        }
        lemma_rows_at_live(st.slots, ids);
    }
}

/// Two lists of the same rows, each row once in each, give the same rows
/// when they are looked up, whatever the order.
pub proof fn lemma_rows_at_same_ids(slots: Seq<SlotView>, a: Seq<usize>, b: Seq<usize>)
    requires
        a.no_duplicates(),
        b.no_duplicates(),
        a.to_set() == b.to_set(),
        forall|k: int|
            0 <= k < a.len() ==> (#[trigger] a[k]) < slots.len() && slots[a[k] as int] is Some,
    ensures
        rows_at(slots, a).to_multiset() == rows_at(slots, b).to_multiset(),
    decreases a.len(),
{
    a.unique_seq_to_set();
    b.unique_seq_to_set();
    assert forall|k: int| 0 <= k < b.len() implies (#[trigger] b[k]) < slots.len()
        && slots[b[k] as int] is Some by {
        assert(b.to_set().contains(b[k]));
        assert(a.contains(b[k]));
    }
    lemma_rows_at_live(slots, a);
    lemma_rows_at_live(slots, b);
    if a.len() == 0 {
        assert(rows_at(slots, a) =~= rows_at(slots, b));
    } else {
        let x = a.last();
        assert(a.to_set().contains(x));
        assert(b.contains(x));
        let j = choose|j: int| 0 <= j < b.len() && b[j] == x;
        let a1 = a.drop_last();
        let b1 = b.remove(j);
        assert(a1.no_duplicates());
        assert(b1.no_duplicates()) by {
            assert forall|p: int, q: int| 0 <= p < b1.len() && 0 <= q < b1.len() && p
                != q implies b1[p] != b1[q] by {
                let pp = if p < j {
                    p
                } else {
                    p + 1
                };
                let qq = if q < j {
                    q
                } else {
                    q + 1
                };
                assert(b1[p] == b[pp] && b1[q] == b[qq]);
            }
        }
        assert(a1.to_set() =~= b1.to_set()) by {
            assert forall|y: usize| a1.to_set().contains(y) == b1.to_set().contains(y) by {
                if a1.contains(y) {
                    let p = choose|p: int| 0 <= p < a1.len() && a1[p] == y;
                    assert(a[p] == y);
                    assert(y != x);
                    assert(a.to_set().contains(y));
                    assert(b.contains(y));
                    let q = choose|q: int| 0 <= q < b.len() && b[q] == y;
                    if q < j {
                        assert(b1[q] == y);
                    } else {
                        assert(b1[q - 1] == y);
                    }
                }
                if b1.contains(y) {
                    let q = choose|q: int| 0 <= q < b1.len() && b1[q] == y;
                    let qq = if q < j {
                        q
                    } else {
                        q + 1
                    };
                    assert(b[qq] == y);
                    assert(y != x);
                    assert(b.to_set().contains(y));
                    assert(a.contains(y));
                    let p = choose|p: int| 0 <= p < a.len() && a[p] == y;
                    assert(a1[p] == y);
                }
            }
        }
        assert forall|k: int| 0 <= k < a1.len() implies (#[trigger] a1[k]) < slots.len()
            && slots[a1[k] as int] is Some by {
            assert(a1[k] == a[k]);
        }
        lemma_rows_at_same_ids(slots, a1, b1);
        lemma_rows_at_live(slots, a1);
        assert forall|k: int| 0 <= k < b1.len() implies (#[trigger] b1[k]) < slots.len()
            && slots[b1[k] as int] is Some by {
            let kk = if k < j {
                k
            } else {
                k + 1
            };
            assert(b1[k] == b[kk]);
        }
        lemma_rows_at_live(slots, b1);
        let row = slots[x as int]->0;
        let ra = rows_at(slots, a);
        let rb = rows_at(slots, b);
        let ra1 = rows_at(slots, a1);
        let rb1 = rows_at(slots, b1);
        assert(ra =~= ra1.push(row));
        assert(rb =~= rb1.insert(j, row)) by {
            assert forall|k: int| 0 <= k < rb.len() implies rb[k] == rb1.insert(j, row)[k] by {
                if k < j {
                    assert(b1[k] == b[k]);
                } else if k > j {
                    assert(b1[k - 1] == b[k]);
                }
            }
        }
        vstd::seq_lib::to_multiset_build(ra1, row);
        vstd::seq_lib::to_multiset_insert(rb1, j, row);
    }
}

/// An index-driven select and a scan-driven select of the same key give the
/// same rows, each as often, in whatever order.
pub proof fn lemma_index_select_is_scan_select(st: TableState, name: Seq<char>, key: ValueView)
    requires
        st.inv(),
        st.indexes.contains_key(name),
    ensures
        rows_at(st.slots, ids_of(st.indexes[name], key)).to_multiset() == rows_at(
            st.slots,
            pick(live_ids(st.slots), st.slots, st.column(name)->0, key),
        ).to_multiset(),
{
    let by_index = ids_of(st.indexes[name], key);
    let by_scan = pick(live_ids(st.slots), st.slots, st.column(name)->0, key);
    lemma_index_agrees_with_scan(st, name, key);
    assert forall|k: int| 0 <= k < by_index.len() implies (#[trigger] by_index[k])
        < st.slots.len() && st.slots[by_index[k] as int] is Some by {
        assert(by_index.contains(by_index[k]));
    }
    lemma_rows_at_same_ids(st.slots, by_index, by_scan);
}

/// An operation that changes a table.
pub enum TableOp {
    Insert { values: Seq<ValueView> },
    Update {
        where_column: Seq<char>,
        where_value: ValueView,
        set_column: Seq<char>,
        set_value: ValueView,
    },
    Delete { column: Seq<char>, value: ValueView },
    CreateIndex { column: Seq<char> },
}

/// The table after an operation; a refused operation leaves it as it was.
pub open spec fn apply(st: TableState, op: TableOp) -> TableState {
    match op {
        TableOp::Insert { values } => match st.insert(values) {
            Ok((after, _)) => after,
            Err(_) => st,
        },
        TableOp::Update { where_column, where_value, set_column, set_value } => match st.update(
            where_column,
            where_value,
            set_column,
            set_value,
        ) {
            Ok((after, _)) => after,
            Err(_) => st,
        },
        TableOp::Delete { column, value } => match st.delete(column, value) {
            Ok((after, _)) => after,
            Err(_) => st,
        },
        TableOp::CreateIndex { column } => match st.create_index(column) {
            Ok(after) => after,
            Err(_) => st,
        },
    }
}

/// The table after some operations, one after the other.
pub open spec fn apply_all(st: TableState, ops: Seq<TableOp>) -> TableState
    decreases ops.len(),
{
    if ops.len() == 0 {
        st
    } else {
        apply(apply_all(st, ops.drop_last()), ops.last())
    }
}

/// Every operation keeps the table as it should be.
pub proof fn lemma_apply_inv(st: TableState, op: TableOp)
    requires
        st.inv(),
    ensures
        apply(st, op).inv(),
{
    match op {
        TableOp::Insert { values } => {
            if st.insert(values) is Ok {
                lemma_insert_inv(st, values);
            }
        },
        TableOp::Update { where_column, where_value, set_column, set_value } => {
            if st.update(where_column, where_value, set_column, set_value) is Ok {
                lemma_update_all_inv(
                    st,
                    st.candidates(where_column, st.column(where_column)->0, where_value),
                    set_column,
                    st.column(set_column)->0,
                    set_value,
                );
            }
        },
        TableOp::Delete { column, value } => {
            if st.delete(column, value) is Ok {
                lemma_delete_all_inv(st, st.candidates(column, st.column(column)->0, value));
            }
        },
        TableOp::CreateIndex { column } => {
            if st.create_index(column) is Ok {
                lemma_create_index_inv(st, column);
            }
        },
    }
}

/// Index/store consistency: after any operations on a table, in any order,
/// every index lists under every value exactly the rows that hold that
/// value in the indexed column, each once; so a select that goes by the
/// index and a select that goes through the store give the same rows.
pub proof fn lemma_indexes_always_consistent(
    st: TableState,
    ops: Seq<TableOp>,
    name: Seq<char>,
    key: ValueView,
)
    requires
        st.inv(),
        apply_all(st, ops).indexes.contains_key(name),
    ensures
        ({
            let now = apply_all(st, ops);
            let by_index = ids_of(now.indexes[name], key);
            let by_scan = pick(live_ids(now.slots), now.slots, now.column(name)->0, key);
            &&& now.inv()
            &&& by_index.no_duplicates()
            &&& by_index.to_set() == by_scan.to_set()
            &&& by_index.len() == by_scan.len()
            &&& forall|id: usize|
                by_index.contains(id) <==> holds(now.slots, now.column(name)->0, id, key)
            &&& rows_at(now.slots, by_index).to_multiset() == rows_at(
                now.slots,
                by_scan,
            ).to_multiset()
        }),
{
    lemma_apply_all_inv(st, ops);
    lemma_index_agrees_with_scan(apply_all(st, ops), name, key);
    lemma_index_select_is_scan_select(apply_all(st, ops), name, key);
}

/// Any operations, in any order, keep the table as it should be.
pub proof fn lemma_apply_all_inv(st: TableState, ops: Seq<TableOp>)
    requires
        st.inv(),
    ensures
        apply_all(st, ops).inv(),
    decreases ops.len(),
{
    if ops.len() > 0 {
        lemma_apply_all_inv(st, ops.drop_last());
        lemma_apply_inv(apply_all(st, ops.drop_last()), ops.last());
    }
}

} // verus!
