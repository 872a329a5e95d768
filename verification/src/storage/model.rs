//! What a table is, mathematically: its columns, its slots and its indexes,
//! and what each operation makes of them.

use vstd::prelude::*;
use super::btree::{ids_of, index_insert, index_remove, IndexView};
use super::page::{live_ids, slot_limit, SlotView};
use super::{column_position, primary_key_position, ColumnView, ValueView};
use crate::error::DbErrorView;

verus! {

/// The number of slots in each page of a table's row store.
pub const ROWS_PER_PAGE: usize = 100;

/// The state of a table.
pub struct TableState {
    /// The table's name.
    pub name: Seq<char>,
    /// The column definitions, in order.
    pub columns: Seq<ColumnView>,
    /// Every slot handed out so far, by row identifier; `None` where the row
    /// was deleted.
    pub slots: Seq<SlotView>,
    /// The indexes, by the name of the column they are on.
    pub indexes: Map<Seq<char>, IndexView>,
}

/// Whether row `id` is stored and holds `key` in column `c`.
pub open spec fn holds(slots: Seq<SlotView>, c: int, id: usize, key: ValueView) -> bool {
    &&& id < slots.len()
    &&& slots[id as int] matches Some(row)
    &&& row[c] == key
}

/// Whether the index lists row `id` under `key`.
pub open spec fn listed(m: IndexView, key: ValueView, id: usize) -> bool {
    m.contains_key(key) && m[key].contains(id)
}

/// Every entry of the index lists at least one row and no row twice.
pub open spec fn lists_wf(m: IndexView) -> bool {
    forall|k: ValueView| #[trigger]
        m.contains_key(k) ==> m[k].len() > 0 && m[k].no_duplicates()
}

/// The index lists a row under a key exactly when the row is stored and
/// holds that key in column `c`.
pub open spec fn index_consistent(m: IndexView, slots: Seq<SlotView>, c: int) -> bool {
    &&& lists_wf(m)
    &&& forall|k: ValueView, id: usize| #[trigger] listed(m, k, id) == holds(slots, c, id, k)
}

/// Of the rows `ids`, those that hold `key` in column `c`, in order.
pub open spec fn pick(ids: Seq<usize>, slots: Seq<SlotView>, c: int, key: ValueView) -> Seq<usize>
    decreases ids.len(),
{
    if ids.len() == 0 {
        Seq::empty()
    } else if holds(slots, c, ids.last(), key) {
        pick(ids.drop_last(), slots, c, key).push(ids.last())
    } else {
        pick(ids.drop_last(), slots, c, key)
    }
}

/// The rows with the identifiers `ids`, in order; identifiers of rows that
/// are not stored are passed over.
pub open spec fn rows_at(slots: Seq<SlotView>, ids: Seq<usize>) -> Seq<Seq<ValueView>>
    decreases ids.len(),
{
    if ids.len() == 0 {
        Seq::empty()
    } else if ids.last() < slots.len() && slots[ids.last() as int] is Some {
        rows_at(slots, ids.drop_last()).push(slots[ids.last() as int]->0)
    } else {
        rows_at(slots, ids.drop_last())
    }
}

/// The index on column `c` that lists the rows `ids`, taken in order; rows
/// that are not stored are passed over.
pub open spec fn build_from(ids: Seq<usize>, slots: Seq<SlotView>, c: int) -> IndexView
    decreases ids.len(),
{
    if ids.len() == 0 {
        Map::empty()
    } else if ids.last() < slots.len() && slots[ids.last() as int] is Some {
        index_insert(
            build_from(ids.drop_last(), slots, c),
            slots[ids.last() as int]->0[c],
            ids.last(),
        )
    } else {
        build_from(ids.drop_last(), slots, c)
    }
}

/// The index on column `c` that lists every stored row.
pub open spec fn build_index(slots: Seq<SlotView>, c: int) -> IndexView {
    build_from(live_ids(slots), slots, c)
}

impl TableState {
    /// The position of the first column called `name`.
    pub open spec fn column(self, name: Seq<char>) -> Option<int> {
        column_position(self.columns, name)
    }

    /// The position of the primary-key column.
    pub open spec fn primary_key(self) -> Option<int> {
        primary_key_position(self.columns)
    }

    /// What holds of a table between operations: stored rows have one value
    /// for each column; every index is on a column of the table and lists
    /// exactly the rows that are stored, each under the value it holds in
    /// that column; the primary-key column is indexed; and the row
    /// identifiers fit the machine word.
    pub open spec fn inv(self) -> bool {
        &&& self.slots.len() <= slot_limit(ROWS_PER_PAGE as nat)
        &&& forall|id: int|
            0 <= id < self.slots.len() && (#[trigger] self.slots[id]) is Some
                ==> self.slots[id]->0.len() == self.columns.len()
        &&& forall|n: Seq<char>| #[trigger]
            self.indexes.contains_key(n) ==> self.column(n) is Some && index_consistent(
                self.indexes[n],
                self.slots,
                self.column(n)->0,
            )
        &&& self.primary_key() matches Some(p) ==> self.indexes.contains_key(self.columns[p].name)
    }

    /// A table without rows, with an index on the primary-key column if
    /// there is one.
    pub open spec fn empty(name: Seq<char>, columns: Seq<ColumnView>) -> TableState {
        TableState {
            name,
            columns,
            slots: Seq::empty(),
            indexes: match primary_key_position(columns) {
                Some(p) => Map::<Seq<char>, IndexView>::empty().insert(
                    columns[p].name,
                    Map::empty(),
                ),
                None => Map::empty(),
            },
        }
    }

    /// The indexes after row `id` with the values `values` is listed in each.
    pub open spec fn indexes_with(self, values: Seq<ValueView>, id: usize) -> Map<
        Seq<char>,
        IndexView,
    > {
        Map::new(
            |n: Seq<char>| self.indexes.contains_key(n),
            |n: Seq<char>| index_insert(self.indexes[n], values[self.column(n)->0], id),
        )
    }

    /// The indexes after row `id` with the values `values` is taken out of each.
    pub open spec fn indexes_without(self, values: Seq<ValueView>, id: usize) -> Map<
        Seq<char>,
        IndexView,
    > {
        Map::new(
            |n: Seq<char>| self.indexes.contains_key(n),
            |n: Seq<char>| index_remove(self.indexes[n], values[self.column(n)->0], id),
        )
    }

    /// Whether a stored row holds `key` in the primary-key column, as the
    /// index on that column tells.
    pub open spec fn key_taken(self, values: Seq<ValueView>) -> bool {
        self.primary_key() matches Some(p) && self.indexes.contains_key(self.columns[p].name)
            && self.indexes[self.columns[p].name].contains_key(values[p])
    }

    /// Inserting a row. The row is refused when it has the wrong number of
    /// values, when its primary key is taken, and when the store is full;
    /// otherwise it goes into the next slot and into every index, and the
    /// slot's number is its identifier.
    pub open spec fn insert(self, values: Seq<ValueView>) -> Result<(TableState, usize), DbErrorView> {
        if values.len() != self.columns.len() {
            Err(
                DbErrorView::ArityMismatch {
                    expected: self.columns.len() as usize,
                    found: values.len() as usize,
                },
            )
        } else if self.key_taken(values) {
            Err(DbErrorView::ConstraintViolation)
        } else if self.slots.len() >= slot_limit(ROWS_PER_PAGE as nat) {
            Err(DbErrorView::CapacityExhausted)
        } else {
            let id = self.slots.len() as usize;
            Ok(
                (
                    TableState {
                        slots: self.slots.push(Some(values)),
                        indexes: self.indexes_with(values, id),
                        ..self
                    },
                    id,
                ),
            )
        }
    }

    /// The rows that hold `key` in the column called `name`, which is column
    /// `c`: as its index lists them where the column is indexed, otherwise
    /// in ascending order of identifier.
    pub open spec fn candidates(self, name: Seq<char>, c: int, key: ValueView) -> Seq<usize> {
        if self.indexes.contains_key(name) {
            ids_of(self.indexes[name], key)
        } else {
            pick(live_ids(self.slots), self.slots, c, key)
        }
    }

    /// Selecting rows: those that hold `key` in the column called `name`
    /// where both are given, all rows otherwise.
    pub open spec fn select(self, filter: Option<(Seq<char>, ValueView)>) -> Result<
        Seq<Seq<ValueView>>,
        DbErrorView,
    > {
        match filter {
            Some((name, key)) => {
                if self.indexes.contains_key(name) {
                    Ok(rows_at(self.slots, ids_of(self.indexes[name], key)))
                } else {
                    match self.column(name) {
                        Some(c) => Ok(
                            rows_at(self.slots, pick(live_ids(self.slots), self.slots, c, key)),
                        ),
                        None => Err(DbErrorView::ColumnNotFound(name)),
                    }
                }
            },
            None => Ok(rows_at(self.slots, live_ids(self.slots))),
        }
    }

    /// Setting column `c`, called `name`, of row `id` to `value`. The index
    /// on the column, if there is one, forgets the old value of the row and
    /// lists the new one. A row that is not stored is left alone.
    pub open spec fn update_one(self, id: usize, name: Seq<char>, c: int, value: ValueView) -> (
        TableState,
        usize,
    ) {
        if id < self.slots.len() && self.slots[id as int] is Some {
            let row = self.slots[id as int]->0;
            (
                TableState {
                    slots: self.slots.update(id as int, Some(row.update(c, value))),
                    indexes: if self.indexes.contains_key(name) {
                        self.indexes.insert(
                            name,
                            index_insert(index_remove(self.indexes[name], row[c], id), value, id),
                        )
                    } else {
                        self.indexes
                    },
                    ..self
                },
                1,
            )
        } else {
            (self, 0)
        }
    }

    /// Setting column `c` of the rows `ids`, one after the other, with the
    /// number of rows changed.
    pub open spec fn update_all(self, ids: Seq<usize>, name: Seq<char>, c: int, value: ValueView) -> (
        TableState,
        usize,
    )
        decreases ids.len(),
    {
        if ids.len() == 0 {
            (self, 0)
        } else {
            let (before, count) = self.update_all(ids.drop_last(), name, c, value);
            let (after, one) = before.update_one(ids.last(), name, c, value);
            (after, (count + one) as usize)
        }
    }

    /// Updating: in every row that holds `where_value` in the column
    /// `where_column`, the column `set_column` becomes `set_value`. The rows
    /// are those that match before the first of them is changed.
    pub open spec fn update(
        self,
        where_column: Seq<char>,
        where_value: ValueView,
        set_column: Seq<char>,
        set_value: ValueView,
    ) -> Result<(TableState, usize), DbErrorView> {
        match self.column(where_column) {
            None => Err(DbErrorView::ColumnNotFound(where_column)),
            Some(wc) => match self.column(set_column) {
                None => Err(DbErrorView::ColumnNotFound(set_column)),
                Some(sc) => Ok(
                    self.update_all(
                        self.candidates(where_column, wc, where_value),
                        set_column,
                        sc,
                        set_value,
                    ),
                ),
            },
        }
    }

    /// Deleting row `id`: every index forgets it and its slot is emptied. A
    /// row that is not stored is left alone.
    pub open spec fn delete_one(self, id: usize) -> (TableState, usize) {
        if id < self.slots.len() && self.slots[id as int] is Some {
            let row = self.slots[id as int]->0;
            (
                TableState {
                    slots: self.slots.update(id as int, None),
                    indexes: self.indexes_without(row, id),
                    ..self
                },
                1,
            )
        } else {
            (self, 0)
        }
    }

    /// Deleting the rows `ids`, one after the other, with the number of rows
    /// deleted.
    pub open spec fn delete_all(self, ids: Seq<usize>) -> (TableState, usize)
        decreases ids.len(),
    {
        if ids.len() == 0 {
            (self, 0)
        } else {
            let (before, count) = self.delete_all(ids.drop_last());
            let (after, one) = before.delete_one(ids.last());
            (after, (count + one) as usize)
        }
    }

    /// Deleting every row that holds `key` in the column called `name`.
    pub open spec fn delete(self, name: Seq<char>, key: ValueView) -> Result<
        (TableState, usize),
        DbErrorView,
    > {
        match self.column(name) {
            None => Err(DbErrorView::ColumnNotFound(name)),
            Some(c) => Ok(self.delete_all(self.candidates(name, c, key))),
        }
    }

    /// Indexing the column called `name`: refused when there is no such
    /// column or it is indexed already; otherwise the new index lists every
    /// stored row.
    pub open spec fn create_index(self, name: Seq<char>) -> Result<TableState, DbErrorView> {
        match self.column(name) {
            None => Err(DbErrorView::ColumnNotFound(name)),
            Some(c) => if self.indexes.contains_key(name) {
                Err(DbErrorView::IndexAlreadyExists(name))
            } else {
                Ok(
                    TableState {
                        indexes: self.indexes.insert(name, build_index(self.slots, c)),
                        ..self
                    },
                )
            },
        }
    }
}

} // verus!
