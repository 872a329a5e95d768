//! The table: one schema, one row store and the indexes on its columns.

use vstd::prelude::*;
use vstd::string::*;
use super::btree::{append_ids, index_insert, index_remove, BTreeIndex, IndexView};
use super::laws::{
    lemma_create_index_inv,
    lemma_delete_one_inv,
    lemma_empty_inv,
    lemma_insert_inv,
    lemma_update_one_inv,
};
use super::model::{build_from, pick, rows_at, TableState, ROWS_PER_PAGE};
use super::order::text_equal;
use super::page::{is_scan_of, lemma_live_ids, live_count, live_ids, PageManager};
use super::{
    column_position,
    lemma_column_position_is_first,
    values_view,
    Row,
    Schema,
    Value,
    ValueView,
};
use crate::error::DbError;

verus! {

/// Whether one of `indexes` is on the column called `name`.
pub open spec fn has_index(indexes: Seq<BTreeIndex>, name: Seq<char>) -> bool {
    exists|i: int| 0 <= i < indexes.len() && (#[trigger] indexes[i]).name() == name
}

/// The position of an index on the column called `name`.
pub open spec fn index_position(indexes: Seq<BTreeIndex>, name: Seq<char>) -> int {
    choose|i: int| 0 <= i < indexes.len() && (#[trigger] indexes[i]).name() == name
}

/// The indexes by the name of their column.
pub open spec fn index_map(indexes: Seq<BTreeIndex>) -> Map<Seq<char>, IndexView> {
    Map::new(
        |n: Seq<char>| has_index(indexes, n),
        |n: Seq<char>| indexes[index_position(indexes, n)]@,
    )
}

/// Every index is well-formed and no two are on a column of the same name.
pub open spec fn indexes_wf(indexes: Seq<BTreeIndex>) -> bool {
    &&& forall|i: int| 0 <= i < indexes.len() ==> (#[trigger] indexes[i]).wf()
    &&& forall|i: int, j: int|
        0 <= i < j < indexes.len() ==> (#[trigger] indexes[i]).name() != (
        #[trigger] indexes[j]).name()
}

/// Among well-formed indexes a name stands for one index.
pub proof fn lemma_index_at(indexes: Seq<BTreeIndex>, i: int)
    requires
        indexes_wf(indexes),
        0 <= i < indexes.len(),
    ensures
        has_index(indexes, indexes[i].name()),
        index_position(indexes, indexes[i].name()) == i,
        index_map(indexes).contains_key(indexes[i].name()),
        index_map(indexes)[indexes[i].name()] == indexes[i]@,
{
    let n = indexes[i].name();
    assert(has_index(indexes, n));
    let j = index_position(indexes, n);
    if j < i {
        assert(indexes[j].name() != indexes[i].name());
    }
    if i < j {
        assert(indexes[i].name() != indexes[j].name());
    }
}

/// Replacing an index by one on the same column changes the map at that name.
pub proof fn lemma_index_map_update(indexes: Seq<BTreeIndex>, i: int, changed: BTreeIndex)
    requires
        indexes_wf(indexes),
        0 <= i < indexes.len(),
        changed.wf(),
        changed.name() == indexes[i].name(),
    ensures
        indexes_wf(indexes.update(i, changed)),
        index_map(indexes.update(i, changed)) == index_map(indexes).insert(
            changed.name(),
            changed@,
        ),
{
    let after = indexes.update(i, changed);
    assert(indexes_wf(after)) by {
        assert forall|a: int, b: int| 0 <= a < b < after.len() implies (#[trigger] after[a]).name()
            != (#[trigger] after[b]).name() by {
            assert(after[a].name() == indexes[a].name());
            assert(after[b].name() == indexes[b].name());
        }
    }
    let m = index_map(indexes).insert(changed.name(), changed@);
    assert forall|n: Seq<char>| index_map(after).contains_key(n) == m.contains_key(n) by {
        if has_index(after, n) {
            let j = index_position(after, n);
            assert(indexes[j].name() == n);
        }
        if has_index(indexes, n) {
            let j = index_position(indexes, n);
            assert(after[j].name() == n);
        }
    }
    assert forall|n: Seq<char>| index_map(after).contains_key(n) implies index_map(after)[n]
        == m[n] by {
        let j = index_position(after, n);
        lemma_index_at(after, j);
        if j != i {
            assert(indexes[j].name() == n);
            lemma_index_at(indexes, j);
            lemma_index_at(indexes, i);
        }
    }
    assert(index_map(after) =~= m);
}

/// A new index on a column that has none adds its name to the map.
pub proof fn lemma_index_map_push(indexes: Seq<BTreeIndex>, added: BTreeIndex)
    requires
        indexes_wf(indexes),
        added.wf(),
        !has_index(indexes, added.name()),
    ensures
        indexes_wf(indexes.push(added)),
        index_map(indexes.push(added)) == index_map(indexes).insert(added.name(), added@),
{
    let after = indexes.push(added);
    assert(indexes_wf(after)) by {
        assert forall|a: int, b: int| 0 <= a < b < after.len() implies (#[trigger] after[a]).name()
            != (#[trigger] after[b]).name() by {
            assert(after[a] == indexes[a]);
            if b < indexes.len() {
                assert(after[b] == indexes[b]);
            }
        }
    }
    let m = index_map(indexes).insert(added.name(), added@);
    assert forall|n: Seq<char>| index_map(after).contains_key(n) == m.contains_key(n) by {
        if has_index(after, n) {
            let j = index_position(after, n);
            if j < indexes.len() {
                assert(indexes[j].name() == n);
            }
        }
        if has_index(indexes, n) {
            let j = index_position(indexes, n);
            assert(after[j].name() == n);
        }
        if n == added.name() {
            assert(after[indexes.len() as int].name() == n);
        }
    }
    assert forall|n: Seq<char>| index_map(after).contains_key(n) implies index_map(after)[n]
        == m[n] by {
        let j = index_position(after, n);
        lemma_index_at(after, j);
        if j < indexes.len() {
            assert(after[j] == indexes[j]);
            lemma_index_at(indexes, j);
        }
    }
    assert(index_map(after) =~= m);
}

/// The contents of a list of rows.
pub open spec fn rows_view(rows: Seq<Row>) -> Seq<Seq<ValueView>> {
    rows.map_values(|r: Row| r@)
}

/// What a filter asks for: a column and a value where both are given.
pub open spec fn filter_view(column_name: Option<&str>, value: Option<&Value>) -> Option<
    (Seq<char>, ValueView),
> {
    match (column_name, value) {
        (Some(n), Some(v)) => Some((n@, v@)),
        _ => None,
    }
}

/// Takes row `id`, which held the values `row`, out of every index.
fn unlist_row(indexes: &mut Vec<BTreeIndex>, schema: &Schema, row: &Row, id: usize)
    requires
        indexes_wf(old(indexes)@),
        forall|j: int|
            0 <= j < old(indexes)@.len() ==> (column_position(
                schema@,
                (#[trigger] old(indexes)@[j]).name(),
            ) matches Some(c) && c < row@.len()),
    ensures
        indexes_wf(final(indexes)@),
        final(indexes)@.len() == old(indexes)@.len(),
        forall|j: int|
            0 <= j < old(indexes)@.len() ==> {
                &&& (#[trigger] final(indexes)@[j]).name() == old(indexes)@[j].name()
                &&& final(indexes)@[j]@ == index_remove(
                    old(indexes)@[j]@,
                    row@[column_position(schema@, old(indexes)@[j].name())->0],
                    id,
                )
            },
{
    let n = indexes.len();
    let mut i: usize = 0;
    while i < n
        invariant
            i <= n,
            n == indexes@.len(),
            n == old(indexes)@.len(),
            indexes_wf(old(indexes)@),
            forall|j: int|
                0 <= j < n ==> (column_position(schema@, (#[trigger] old(indexes)@[j]).name())
                    matches Some(c) && c < row@.len()),
            forall|j: int|
                0 <= j < n ==> (#[trigger] indexes@[j]).name() == old(indexes)@[j].name(),
            forall|j: int| 0 <= j < n ==> (#[trigger] indexes@[j]).wf(),
            forall|j: int|
                0 <= j < i ==> (#[trigger] indexes@[j])@ == index_remove(
                    old(indexes)@[j]@,
                    row@[column_position(schema@, old(indexes)@[j].name())->0],
                    id,
                ),
            forall|j: int| i <= j < n ==> (#[trigger] indexes@[j])@ == old(indexes)@[j]@,
        decreases n - i,
    {
        let found = schema.get_column_index(indexes[i].column_name());
        assert(column_position(schema@, old(indexes)@[i as int].name()) is Some);
        let ghost before = indexes@;
        if let Some(c) = found {
            indexes[i].remove(&row.values[c], id);
        }
        assert(forall|j: int| 0 <= j < n && j != i ==> indexes@[j] == before[j]);
        i += 1;
    }
    proof {
        assert forall|a: int, b: int| 0 <= a < b < indexes@.len() implies (
        #[trigger] indexes@[a]).name() != (#[trigger] indexes@[b]).name() by {
            assert(old(indexes)@[a].name() != old(indexes)@[b].name());
        }
    }
}

/// A table.
#[derive(Debug)]
pub struct Table {
    name: String,
    schema: Schema,
    page_manager: PageManager,
    indexes: Vec<BTreeIndex>,
    next_row_id: usize,
}

impl View for Table {
    type V = TableState;

    closed spec fn view(&self) -> TableState {
        TableState {
            name: self.name@,
            columns: self.schema@,
            slots: self.page_manager@,
            indexes: index_map(self.indexes@),
        }
    }
}

impl Table {
    /// The store and the indexes are well-formed and the table is as its
    /// model asks.
    pub closed spec fn wf(&self) -> bool {
        &&& self.page_manager.wf()
        &&& self.page_manager.capacity() == ROWS_PER_PAGE
        &&& self.next_row_id == self.page_manager@.len()
        &&& indexes_wf(self.indexes@)
        &&& self@.inv()
    }

    /// A well-formed table is as its model asks.
    pub proof fn lemma_wf(&self)
        requires
            self.wf(),
        ensures
            self@.inv(),
    {
    }

    /// An empty table. The primary-key column, if there is one, is indexed.
    pub fn new(name: String, schema: Schema) -> (res: Self)
        ensures
            res.wf(),
            res@ == TableState::empty(name@, schema@),
    {
        let mut indexes: Vec<BTreeIndex> = Vec::new();
        if let Some(pk) = schema.get_primary_key_index() {
            let pk_name = schema.columns[pk].name.clone();
            indexes.push(BTreeIndex::new(pk_name));
            proof {
                lemma_index_at(indexes@, 0);
            }
        }
        let res = Self {
            name,
            schema,
            page_manager: PageManager::new(ROWS_PER_PAGE),
            indexes,
            next_row_id: 0,
        };
        proof {
            lemma_empty_inv(name@, schema@);
            assert(res@.indexes =~= TableState::empty(name@, schema@).indexes);
        }
        res
    }

    /// The position of the index on the column called `name`.
    fn find_index(&self, name: &str) -> (res: Option<usize>)
        requires
            indexes_wf(self.indexes@),
        ensures
            match res {
                Some(i) => i < self.indexes@.len() && self.indexes@[i as int].name() == name@
                    && self@.indexes.contains_key(name@) && self@.indexes[name@]
                    == self.indexes@[i as int]@,
                None => !self@.indexes.contains_key(name@),
            },
    {
        let mut i: usize = 0;
        while i < self.indexes.len()
            invariant
                indexes_wf(self.indexes@),
                i <= self.indexes@.len(),
                forall|j: int| 0 <= j < i ==> (#[trigger] self.indexes@[j]).name() != name@,
            decreases self.indexes.len() - i,
        {
            if text_equal(self.indexes[i].column_name(), name) {
                proof {
                    lemma_index_at(self.indexes@, i as int);
                }
                return Some(i);
            }
            i += 1;
        }
        None
    }

    /// Stores a row and lists it in every index. The row is refused when it
    /// has the wrong number of values, when a stored row has its primary
    /// key, and when no further row can be addressed; a refused row changes
    /// nothing. The row's identifier is the number of its slot.
    pub fn insert(&mut self, values: Vec<Value>) -> (res: Result<usize, DbError>)
        requires
            old(self).wf(),
        ensures
            final(self).wf(),
            match old(self)@.insert(values_view(values@)) {
                Ok((st, id)) => res matches Ok(i) && i == id && final(self)@ == st,
                Err(e) => res matches Err(x) && x@ == e && final(self)@ == old(self)@,
            },
    {
        let ghost vals = values_view(values@);
        let ghost pre = self@;
        if values.len() != self.schema.columns.len() {
            return Err(
                DbError::ArityMismatch { expected: self.schema.columns.len(), found: values.len() },
            );
        }
        if let Some(pk) = self.schema.get_primary_key_index() {
            let found = self.find_index(self.schema.columns[pk].name.as_str());
            if let Some(i) = found {
                if self.indexes[i].lookup(&values[pk]).is_some() {
                    return Err(DbError::ConstraintViolation);
                }
            }
        }
        if !self.page_manager.has_room() {
            return Err(DbError::CapacityExhausted);
        }
        let row = Row { values };
        self.page_manager.insert(row.clone());
        let row_id = self.next_row_id;
        proof {
            self.page_manager.lemma_wf();
        }
        self.next_row_id += 1;
        let n = self.indexes.len();
        let mut i: usize = 0;
        while i < n
            invariant
                i <= n,
                n == self.indexes@.len(),
                n == old(self).indexes@.len(),
                old(self).wf(),
                pre == old(self)@,
                vals == row@,
                vals.len() == pre.columns.len(),
                self.schema == old(self).schema,
                self.name == old(self).name,
                self.page_manager.wf(),
                self.page_manager.capacity() == ROWS_PER_PAGE,
                self.page_manager@ == pre.slots.push(Some(vals)),
                self.next_row_id == self.page_manager@.len(),
                row_id == pre.slots.len(),
                forall|j: int|
                    0 <= j < n ==> (#[trigger] self.indexes@[j]).name() == old(
                        self,
                    ).indexes@[j].name(),
                forall|j: int| 0 <= j < n ==> (#[trigger] self.indexes@[j]).wf(),
                forall|j: int|
                    0 <= j < i ==> (#[trigger] self.indexes@[j])@ == index_insert(
                        old(self).indexes@[j]@,
                        vals[pre.column(old(self).indexes@[j].name())->0],
                        row_id,
                    ),
                forall|j: int| i <= j < n ==> (#[trigger] self.indexes@[j])@ == old(
                    self,
                ).indexes@[j]@,
            decreases n - i,
        {
            proof {
                lemma_index_at(old(self).indexes@, i as int);
                lemma_column_position_is_first(pre.columns, old(self).indexes@[i as int].name());
            }
            let found = self.schema.get_column_index(self.indexes[i].column_name());
            assert(pre.indexes.contains_key(old(self).indexes@[i as int].name()));
            assert(found is Some);
            let ghost before = self.indexes@;
            if let Some(c) = found {
                let value = row.values[c].clone();
                assert(value@ == vals[c as int]);
                self.indexes[i].insert(value, row_id);
            }
            assert(forall|j: int| 0 <= j < n && j != i ==> self.indexes@[j] == before[j]);
            i += 1;
        }
        proof {
            let post = pre.insert(vals)->Ok_0.0;
            assert(indexes_wf(self.indexes@));
            assert forall|name: Seq<char>| has_index(self.indexes@, name) == has_index(
                old(self).indexes@,
                name,
            ) by {
                if has_index(self.indexes@, name) {
                    let j = index_position(self.indexes@, name);
                    assert(old(self).indexes@[j].name() == name);
                }
                if has_index(old(self).indexes@, name) {
                    let j = index_position(old(self).indexes@, name);
                    assert(self.indexes@[j].name() == name);
                }
            }
            assert forall|name: Seq<char>| #[trigger]
                post.indexes.contains_key(name) implies self@.indexes[name]
                == post.indexes[name] by {
                let j = index_position(old(self).indexes@, name);
                lemma_index_at(old(self).indexes@, j);
                assert(self.indexes@[j].name() == name);
                lemma_index_at(self.indexes@, j);
            }
            assert(self@.indexes =~= post.indexes);
            lemma_insert_inv(pre, vals);
        }
        Ok(row_id)
    }

    /// The identifiers of the rows that hold `key` in column `c`, in
    /// ascending order, found by going through every row.
    fn matching_ids(&self, c: usize, key: &Value) -> (res: Vec<usize>)
        requires
            self.wf(),
            c < self@.columns.len(),
        ensures
            res@ == pick(live_ids(self@.slots), self@.slots, c as int, key@),
    {
        let found = self.page_manager.scan();
        let ghost slots = self@.slots;
        let ghost ids = live_ids(slots);
        proof {
            self.page_manager.lemma_wf();
            lemma_live_ids(slots);
        }
        let mut out: Vec<usize> = Vec::new();
        let mut k: usize = 0;
        while k < found.len()
            invariant
                self.wf(),
                slots == self@.slots,
                ids == live_ids(slots),
                c < self@.columns.len(),
                is_scan_of(found@, slots),
                k <= found@.len(),
                forall|j: int|
                    0 <= j < ids.len() ==> 0 <= #[trigger] ids[j] < slots.len()
                        && slots[ids[j] as int] is Some,
                out@ == pick(ids.take(k as int), slots, c as int, key@),
            decreases found.len() - k,
        {
            let (id, row) = found[k];
            proof {
                assert(ids.take(k + 1).drop_last() =~= ids.take(k as int));
                assert(ids.take(k + 1).last() == ids[k as int]);
                assert(found@[k as int].0 == ids[k as int]);
                assert(slots[id as int] == Some(row@));
                assert(row@.len() == self@.columns.len());
            }
            if row.values[c] == *key {
                out.push(id);
            }
            k += 1;
        }
        proof {
            assert(ids.take(k as int) =~= ids);
        }
        out
    }

    /// The rows that hold `key` in the column called `name`, which is column
    /// `c`: from the index where the column is indexed, otherwise by going
    /// through every row.
    fn candidates(&self, name: &str, c: usize, key: &Value) -> (res: Vec<usize>)
        requires
            self.wf(),
            c < self@.columns.len(),
        ensures
            res@ == self@.candidates(name@, c as int, key@),
    {
        match self.find_index(name) {
            Some(i) => {
                let mut out: Vec<usize> = Vec::new();
                if let Some(ids) = self.indexes[i].lookup(key) {
                    append_ids(&mut out, ids);
                    assert(out@ =~= ids@);
                }
                out
            },
            None => self.matching_ids(c, key),
        }
    }

    /// Copies of the rows with the identifiers `ids`, in order.
    fn rows_with(&self, ids: &Vec<usize>) -> (res: Vec<Row>)
        requires
            self.wf(),
        ensures
            rows_view(res@) == rows_at(self@.slots, ids@),
    {
        let mut out: Vec<Row> = Vec::new();
        let mut k: usize = 0;
        assert(rows_view(out@) =~= rows_at(self@.slots, ids@.take(0)));
        while k < ids.len()
            invariant
                self.wf(),
                k <= ids@.len(),
                rows_view(out@) == rows_at(self@.slots, ids@.take(k as int)),
            decreases ids.len() - k,
        {
            proof {
                assert(ids@.take(k + 1).drop_last() =~= ids@.take(k as int));
                assert(ids@.take(k + 1).last() == ids@[k as int]);
            }
            let ghost before = out@;
            if let Some(row) = self.page_manager.get(ids[k]) {
                out.push(row.clone());
                assert(rows_view(out@) =~= rows_view(before).push(row@));
            }
            k += 1;
        }
        proof {
            assert(ids@.take(k as int) =~= ids@);
        }
        out
    }

    /// Copies of all rows, in ascending order of identifier.
    fn all_rows(&self) -> (res: Vec<Row>)
        requires
            self.wf(),
        ensures
            rows_view(res@) == rows_at(self@.slots, live_ids(self@.slots)),
    {
        let found = self.page_manager.scan();
        let ghost slots = self@.slots;
        let ghost ids = live_ids(slots);
        proof {
            self.page_manager.lemma_wf();
            lemma_live_ids(slots);
        }
        let mut out: Vec<Row> = Vec::new();
        let mut k: usize = 0;
        assert(rows_view(out@) =~= rows_at(slots, ids.take(0)));
        while k < found.len()
            invariant
                slots == self@.slots,
                ids == live_ids(slots),
                is_scan_of(found@, slots),
                k <= found@.len(),
                forall|j: int|
                    0 <= j < ids.len() ==> 0 <= #[trigger] ids[j] < slots.len()
                        && slots[ids[j] as int] is Some,
                rows_view(out@) == rows_at(slots, ids.take(k as int)),
            decreases found.len() - k,
        {
            let (id, row) = found[k];
            proof {
                assert(ids.take(k + 1).drop_last() =~= ids.take(k as int));
                assert(ids.take(k + 1).last() == ids[k as int]);
                assert(found@[k as int].0 == ids[k as int]);
                assert(slots[id as int] == Some(row@));
            }
            let ghost before = out@;
            out.push(row.clone());
            assert(rows_view(out@) =~= rows_view(before).push(row@));
            k += 1;
        }
        proof {
            assert(ids.take(k as int) =~= ids);
        }
        out
    }

    /// Copies of the rows that hold `value` in the column `column_name`;
    /// of all rows where one of the two is not given. An indexed column is
    /// answered from its index, in the order of the index; any other by
    /// going through the rows, in ascending order of identifier. A column
    /// that the table does not have is an error.
    pub fn select(&self, column_name: Option<&str>, value: Option<&Value>) -> (res: Result<
        Vec<Row>,
        DbError,
    >)
        requires
            self.wf(),
        ensures
            match self@.select(filter_view(column_name, value)) {
                Ok(rows) => res matches Ok(found) && rows_view(found@) == rows,
                Err(e) => res matches Err(x) && x@ == e,
            },
    {
        match (column_name, value) {
            (Some(name), Some(key)) => {
                if let Some(i) = self.find_index(name) {
                    match self.indexes[i].lookup(key) {
                        Some(ids) => Ok(self.rows_with(ids)),
                        None => {
                            let out: Vec<Row> = Vec::new();
                            assert(rows_view(out@) =~= rows_at(
                                self@.slots,
                                Seq::<usize>::empty(),
                            ));
                            Ok(out)
                        },
                    }
                } else {
                    match self.schema.get_column_index(name) {
                        Some(c) => {
                            proof {
                                lemma_column_position_is_first(self@.columns, name@);
                            }
                            let ids = self.matching_ids(c, key);
                            Ok(self.rows_with(&ids))
                        },
                        None => Err(DbError::ColumnNotFound(String::from_str(name))),
                    }
                }
            },
            _ => Ok(self.all_rows()),
        }
    }

    /// Sets the column `update_column` to `update_value` in every row that
    /// holds `where_value` in the column `where_column`, and gives the
    /// number of rows changed. The rows are those that match before the
    /// first of them is changed; they keep their identifiers, and no other
    /// row changes. An index on the changed column follows each change. A
    /// column that the table does not have is an error, and nothing changes.
    pub fn update(
        &mut self,
        where_column: &str,
        where_value: &Value,
        update_column: &str,
        update_value: Value,
    ) -> (res: Result<usize, DbError>)
        requires
            old(self).wf(),
        ensures
            final(self).wf(),
            match old(self)@.update(where_column@, where_value@, update_column@, update_value@) {
                Ok((st, count)) => res matches Ok(n) && n == count && final(self)@ == st,
                Err(e) => res matches Err(x) && x@ == e && final(self)@ == old(self)@,
            },
    {
        let ghost pre = self@;
        let wc = match self.schema.get_column_index(where_column) {
            Some(c) => c,
            None => {
                return Err(DbError::ColumnNotFound(String::from_str(where_column)));
            },
        };
        let sc = match self.schema.get_column_index(update_column) {
            Some(c) => c,
            None => {
                return Err(DbError::ColumnNotFound(String::from_str(update_column)));
            },
        };
        proof {
            lemma_column_position_is_first(pre.columns, where_column@);
            lemma_column_position_is_first(pre.columns, update_column@);
        }
        let row_ids = self.candidates(where_column, wc, where_value);
        let index_pos = self.find_index(update_column);
        let ghost name = update_column@;
        let ghost val = update_value@;
        let mut count: usize = 0;
        let mut k: usize = 0;
        while k < row_ids.len()
            invariant
                self.wf(),
                pre.inv(),
                k <= row_ids@.len(),
                name == update_column@,
                val == update_value@,
                pre.column(name) == Some(sc as int),
                sc < pre.columns.len(),
                self@.columns == pre.columns,
                self@.indexes.dom() == pre.indexes.dom(),
                match index_pos {
                    Some(i) => i < self.indexes@.len() && self.indexes@[i as int].name() == name,
                    None => !pre.indexes.contains_key(name),
                },
                (self@, count) == pre.update_all(row_ids@.take(k as int), name, sc as int, val),
                count <= k,
            decreases row_ids.len() - k,
        {
            let id = row_ids[k];
            let ghost before = self@;
            proof {
                assert(row_ids@.take(k + 1).drop_last() =~= row_ids@.take(k as int));
                assert(row_ids@.take(k + 1).last() == id);
                lemma_update_one_inv(before, id, name, sc as int, val);
            }
            let held = match self.page_manager.get(id) {
                Some(row) => {
                    assert(row@.len() == before.columns.len());
                    Some(row.values[sc].clone())
                },
                None => None,
            };
            if let Some(old_value) = held {
                let ghost old_row = before.slots[id as int]->0;
                if let Some(i) = index_pos {
                    let ghost indexes_before = self.indexes@;
                    proof {
                        lemma_index_at(indexes_before, i as int);
                    }
                    self.indexes[i].remove(&old_value, id);
                    self.indexes[i].insert(update_value.clone(), id);
                    proof {
                        lemma_index_map_update(indexes_before, i as int, self.indexes@[i as int]);
                        assert(self.indexes@ =~= indexes_before.update(
                            i as int,
                            self.indexes@[i as int],
                        ));
                    }
                }
                if let Some(row) = self.page_manager.get_mut(id) {
                    row.values[sc] = update_value.clone();
                    assert(row@ =~= old_row.update(sc as int, val));
                }
                count += 1;
            }
            proof {
                assert(self@.indexes =~= before.update_one(id, name, sc as int, val).0.indexes);
                assert(self@ == before.update_one(id, name, sc as int, val).0);
            }
            k += 1;
        }
        proof {
            assert(row_ids@.take(k as int) =~= row_ids@);
        }
        Ok(count)
    }

    /// Deletes every row that holds `value` in the column `column_name`
    /// and gives the number of rows deleted. Each of them leaves every
    /// index and the store; the other rows keep their identifiers. A column
    /// that the table does not have is an error, and nothing changes.
    pub fn delete(&mut self, column_name: &str, value: &Value) -> (res: Result<usize, DbError>)
        requires
            old(self).wf(),
        ensures
            final(self).wf(),
            match old(self)@.delete(column_name@, value@) {
                Ok((st, count)) => res matches Ok(n) && n == count && final(self)@ == st,
                Err(e) => res matches Err(x) && x@ == e && final(self)@ == old(self)@,
            },
    {
        let ghost pre = self@;
        let c = match self.schema.get_column_index(column_name) {
            Some(c) => c,
            None => {
                return Err(DbError::ColumnNotFound(String::from_str(column_name)));
            },
        };
        proof {
            lemma_column_position_is_first(pre.columns, column_name@);
        }
        let row_ids = self.candidates(column_name, c, value);
        let mut count: usize = 0;
        let mut k: usize = 0;
        while k < row_ids.len()
            invariant
                self.wf(),
                pre.inv(),
                k <= row_ids@.len(),
                (self@, count) == pre.delete_all(row_ids@.take(k as int)),
                count <= k,
            decreases row_ids.len() - k,
        {
            let id = row_ids[k];
            let ghost before = self@;
            let ghost indexes_before = self.indexes@;
            proof {
                assert(row_ids@.take(k + 1).drop_last() =~= row_ids@.take(k as int));
                assert(row_ids@.take(k + 1).last() == id);
                lemma_delete_one_inv(before, id);
            }
            if let Some(row) = self.page_manager.delete(id) {
                proof {
                    assert(row@.len() == before.columns.len());
                    assert forall|j: int| 0 <= j < indexes_before.len() implies (column_position(
                        self.schema@,
                        (#[trigger] indexes_before[j]).name(),
                    ) matches Some(c) && c < row@.len()) by {
                        lemma_index_at(indexes_before, j);
                        lemma_column_position_is_first(self.schema@, indexes_before[j].name());
                    }
                }
                unlist_row(&mut self.indexes, &self.schema, &row, id);
                proof {
                    let post = before.delete_one(id).0;
                    assert forall|n: Seq<char>| has_index(self.indexes@, n) == has_index(
                        indexes_before,
                        n,
                    ) by {
                        if has_index(self.indexes@, n) {
                            let j = index_position(self.indexes@, n);
                            assert(indexes_before[j].name() == n);
                        }
                        if has_index(indexes_before, n) {
                            let j = index_position(indexes_before, n);
                            assert(self.indexes@[j].name() == n);
                        }
                    }
                    assert forall|n: Seq<char>| #[trigger]
                        post.indexes.contains_key(n) implies self@.indexes[n]
                        == post.indexes[n] by {
                        let j = index_position(indexes_before, n);
                        lemma_index_at(indexes_before, j);
                        assert(self.indexes@[j].name() == n);
                        lemma_index_at(self.indexes@, j);
                    }
                    assert(self@.indexes =~= post.indexes);
                }
                count += 1;
            }
            proof {
                assert(self@ == before.delete_one(id).0);
            }
            k += 1;
        }
        proof {
            assert(row_ids@.take(k as int) =~= row_ids@);
        }
        Ok(count)
    }

    /// Indexes the column `column_name`. The new index lists every stored
    /// row under the value the row holds in that column. A column that the
    /// table does not have, or that is indexed already, is an error, and
    /// nothing changes.
    pub fn create_index(&mut self, column_name: &str) -> (res: Result<(), DbError>)
        requires
            old(self).wf(),
        ensures
            final(self).wf(),
            match old(self)@.create_index(column_name@) {
                Ok(st) => res is Ok && final(self)@ == st,
                Err(e) => res matches Err(x) && x@ == e && final(self)@ == old(self)@,
            },
    {
        let ghost pre = self@;
        let c = match self.schema.get_column_index(column_name) {
            Some(c) => c,
            None => {
                return Err(DbError::ColumnNotFound(String::from_str(column_name)));
            },
        };
        if self.find_index(column_name).is_some() {
            return Err(DbError::IndexAlreadyExists(String::from_str(column_name)));
        }
        let mut index = BTreeIndex::new(String::from_str(column_name));
        let found = self.page_manager.scan();
        let ghost slots = pre.slots;
        let ghost ids = live_ids(slots);
        proof {
            lemma_column_position_is_first(pre.columns, column_name@);
            self.page_manager.lemma_wf();
            lemma_live_ids(slots);
            assert(index@ =~= build_from(ids.take(0), slots, c as int));
        }
        let mut k: usize = 0;
        while k < found.len()
            invariant
                old(self).wf(),
                pre == old(self)@,
                slots == pre.slots,
                ids == live_ids(slots),
                c < pre.columns.len(),
                is_scan_of(found@, slots),
                k <= found@.len(),
                forall|j: int|
                    0 <= j < ids.len() ==> 0 <= #[trigger] ids[j] < slots.len()
                        && slots[ids[j] as int] is Some,
                index.wf(),
                index.name() == column_name@,
                index@ == build_from(ids.take(k as int), slots, c as int),
            decreases found.len() - k,
        {
            let (id, row) = found[k];
            proof {
                assert(ids.take(k + 1).drop_last() =~= ids.take(k as int));
                assert(ids.take(k + 1).last() == ids[k as int]);
                assert(found@[k as int].0 == ids[k as int]);
                assert(slots[id as int] == Some(row@));
                assert(row@.len() == pre.columns.len());
            }
            index.insert(row.values[c].clone(), id);
            k += 1;
        }
        proof {
            assert(ids.take(k as int) =~= ids);
            lemma_index_map_push(self.indexes@, index);
            lemma_create_index_inv(pre, column_name@);
        }
        self.indexes.push(index);
        Ok(())
    }

    /// The number of rows in the table.
    pub fn row_count(&self) -> (res: usize)
        requires
            self.wf(),
        ensures
            res == live_count(self@.slots),
    {
        self.page_manager.total_rows()
    }

    /// The column definitions.
    pub fn get_schema(&self) -> (res: &Schema)
        ensures
            res@ == self@.columns,
    {
        &self.schema
    }

    /// The table's name.
    pub fn name(&self) -> (res: &str)
        ensures
            res@ == self@.name,
    {
        self.name.as_str()
    }
}

} // verus!
