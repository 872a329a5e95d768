//! The ordered index: for each value of one column, the rows that hold it.
//!
//! Entries are kept sorted by key, each key once, and an entry lives only as
//! long as some row holds its value. Within an entry every row identifier
//! occurs once.

use vstd::prelude::*;
use vstd::string::*;
use super::order::{
    key_le,
    key_lt,
    lemma_key_lt_asymmetric,
    lemma_key_lt_connected,
    lemma_key_lt_irreflexive,
    lemma_key_lt_transitive,
};
pub use super::key::IndexKey;
use super::{comparable, Value, ValueView};
use crate::error::{DbError, DbErrorView};

verus! {

/// What an index holds: for each key that occurs, the rows that hold it.
pub type IndexView = Map<ValueView, Seq<usize>>;

/// An index entry: a key and the identifiers of the rows that hold it.
pub type EntryView = (ValueView, Seq<usize>);

/// The rows listed under `key`; none when the key does not occur.
pub open spec fn ids_of(m: IndexView, key: ValueView) -> Seq<usize> {
    if m.contains_key(key) {
        m[key]
    } else {
        Seq::empty()
    }
}

/// `ids` with `id` added at the end, unless it is there already.
pub open spec fn with_id(ids: Seq<usize>, id: usize) -> Seq<usize> {
    if ids.contains(id) {
        ids
    } else {
        ids.push(id)
    }
}

/// `ids` with every occurrence of `id` taken out.
pub open spec fn without_id(ids: Seq<usize>, id: usize) -> Seq<usize>
    decreases ids.len(),
{
    if ids.len() == 0 {
        ids
    } else if ids.last() == id {
        without_id(ids.drop_last(), id)
    } else {
        without_id(ids.drop_last(), id).push(ids.last())
    }
}

/// The index after row `id` is listed under `key`.
pub open spec fn index_insert(m: IndexView, key: ValueView, id: usize) -> IndexView {
    m.insert(key, with_id(ids_of(m, key), id))
}

/// The index after row `id` is no longer listed under `key`. A key with no
/// rows left is dropped.
pub open spec fn index_remove(m: IndexView, key: ValueView, id: usize) -> IndexView {
    if !m.contains_key(key) {
        m
    } else if without_id(m[key], id).len() == 0 {
        m.remove(key)
    } else {
        m.insert(key, without_id(m[key], id))
    }
}

/// Entries in strictly ascending order of key, none of them without rows and
/// none listing a row twice.
pub open spec fn entries_wf(entries: Seq<EntryView>) -> bool {
    &&& forall|i: int, j: int|
        0 <= i < j < entries.len() ==> key_lt(#[trigger] entries[i].0, #[trigger] entries[j].0)
    &&& forall|i: int|
        0 <= i < entries.len() ==> (#[trigger] entries[i]).1.len() > 0 && entries[i].1.no_duplicates()
}

/// Whether some entry has the key `key`.
pub open spec fn has_key(entries: Seq<EntryView>, key: ValueView) -> bool {
    exists|i: int| 0 <= i < entries.len() && (#[trigger] entries[i]).0 == key
}

/// The position of an entry with the key `key`.
pub open spec fn position_of(entries: Seq<EntryView>, key: ValueView) -> int {
    choose|i: int| 0 <= i < entries.len() && (#[trigger] entries[i]).0 == key
}

/// The entries as a map from key to rows.
pub open spec fn entries_map(entries: Seq<EntryView>) -> IndexView {
    Map::new(|k: ValueView| has_key(entries, k), |k: ValueView| entries[position_of(entries, k)].1)
}

/// Whether `key` lies in the closed interval from `min` to `max`.
pub open spec fn in_range(key: ValueView, min: ValueView, max: ValueView) -> bool {
    key_le(min, key) && key_le(key, max)
}

/// The rows of the entries whose key lies between `min` and `max`, entry by
/// entry in the order of the entries.
pub open spec fn range_ids(entries: Seq<EntryView>, min: ValueView, max: ValueView) -> Seq<usize>
    decreases entries.len(),
{
    if entries.len() == 0 {
        Seq::empty()
    } else {
        range_ids(entries.drop_last(), min, max) + if in_range(entries.last().0, min, max) {
            entries.last().1
        } else {
            Seq::empty()
        }
    }
}

/// Whether every key of `entries` can be ordered against `bound`.
pub open spec fn all_comparable(entries: Seq<EntryView>, bound: ValueView) -> bool {
    forall|i: int| 0 <= i < entries.len() ==> comparable((#[trigger] entries[i]).0, bound)
}

/// In well-formed entries a key occurs once, so the map gives each entry's rows.
pub proof fn lemma_entry_in_map(entries: Seq<EntryView>, i: int)
    requires
        entries_wf(entries),
        0 <= i < entries.len(),
    ensures
        entries_map(entries).contains_key(entries[i].0),
        entries_map(entries)[entries[i].0] == entries[i].1,
{
    let k = entries[i].0;
    assert(has_key(entries, k));
    let j = position_of(entries, k);
    if j < i {
        lemma_key_lt_asymmetric(entries[j].0, entries[i].0);
    }
    if i < j {
        lemma_key_lt_asymmetric(entries[i].0, entries[j].0);
    }
}

/// Changing the rows of one entry changes the map at that key.
pub proof fn lemma_entries_update(entries: Seq<EntryView>, i: int, ids: Seq<usize>)
    requires
        entries_wf(entries),
        0 <= i < entries.len(),
        ids.len() > 0,
        ids.no_duplicates(),
    ensures
        entries_wf(entries.update(i, (entries[i].0, ids))),
        entries_map(entries.update(i, (entries[i].0, ids))) == entries_map(entries).insert(
            entries[i].0,
            ids,
        ),
{
    let changed = entries.update(i, (entries[i].0, ids));
    assert(entries_wf(changed)) by {
        assert forall|a: int, b: int| 0 <= a < b < changed.len() implies key_lt(
            #[trigger] changed[a].0,
            #[trigger] changed[b].0,
        ) by {
            assert(changed[a].0 == entries[a].0);
            assert(changed[b].0 == entries[b].0);
        }
    }
    let m = entries_map(entries).insert(entries[i].0, ids);
    assert forall|k: ValueView| entries_map(changed).contains_key(k) == m.contains_key(k) by {
        if has_key(changed, k) {
            let j = position_of(changed, k);
            assert(entries[j].0 == k);
        }
        if has_key(entries, k) {
            let j = position_of(entries, k);
            assert(changed[j].0 == k);
        }
        if k == entries[i].0 {
            assert(changed[i].0 == k);
        }
    }
    assert forall|k: ValueView| entries_map(changed).contains_key(k) implies entries_map(
        changed,
    )[k] == m[k] by {
        let j = position_of(changed, k);
        lemma_entry_in_map(changed, j);
        if j != i {
            assert(entries[j].0 == k);
            lemma_entry_in_map(entries, j);
            if j < i {
                lemma_key_lt_asymmetric(entries[j].0, entries[i].0);
            } else {
                lemma_key_lt_asymmetric(entries[i].0, entries[j].0);
            }
        }
    }
    assert(entries_map(changed) =~= m);
}

/// A new entry put at its place in the order adds its key to the map.
pub proof fn lemma_entries_insert(entries: Seq<EntryView>, pos: int, key: ValueView, ids: Seq<usize>)
    requires
        entries_wf(entries),
        0 <= pos <= entries.len(),
        forall|i: int| 0 <= i < pos ==> key_lt((#[trigger] entries[i]).0, key),
        forall|i: int| pos <= i < entries.len() ==> key_lt(key, (#[trigger] entries[i]).0),
        ids.len() > 0,
        ids.no_duplicates(),
    ensures
        !entries_map(entries).contains_key(key),
        entries_wf(entries.insert(pos, (key, ids))),
        entries_map(entries.insert(pos, (key, ids))) == entries_map(entries).insert(key, ids),
{
    let changed = entries.insert(pos, (key, ids));
    assert(!has_key(entries, key)) by {
        if has_key(entries, key) {
            let j = position_of(entries, key);
            lemma_key_lt_irreflexive(key);
        }
    }
    assert(entries_wf(changed)) by {
        assert forall|a: int, b: int| 0 <= a < b < changed.len() implies key_lt(
            #[trigger] changed[a].0,
            #[trigger] changed[b].0,
        ) by {
            if a < pos {
                assert(changed[a] == entries[a]);
            } else if a > pos {
                assert(changed[a] == entries[a - 1]);
            }
            if b < pos {
                assert(changed[b] == entries[b]);
            } else if b > pos {
                assert(changed[b] == entries[b - 1]);
            }
        }
        assert forall|a: int| 0 <= a < changed.len() implies (#[trigger] changed[a]).1.len() > 0
            && changed[a].1.no_duplicates() by {
            if a < pos {
                assert(changed[a] == entries[a]);
            } else if a > pos {
                assert(changed[a] == entries[a - 1]);
            }
        }
    }
    let m = entries_map(entries).insert(key, ids);
    assert forall|k: ValueView| entries_map(changed).contains_key(k) == m.contains_key(k) by {
        if has_key(changed, k) {
            let j = position_of(changed, k);
            if j < pos {
                assert(entries[j].0 == k);
            } else if j > pos {
                assert(entries[j - 1].0 == k);
            }
        }
        if has_key(entries, k) {
            let j = position_of(entries, k);
            if j < pos {
                assert(changed[j].0 == k);
            } else {
                assert(changed[j + 1].0 == k);
            }
        }
        if k == key {
            assert(changed[pos].0 == k);
        }
    }
    assert forall|k: ValueView| entries_map(changed).contains_key(k) implies entries_map(
        changed,
    )[k] == m[k] by {
        let j = position_of(changed, k);
        lemma_entry_in_map(changed, j);
        if j < pos {
            assert(changed[j] == entries[j]);
            lemma_entry_in_map(entries, j);
        } else if j > pos {
            assert(changed[j] == entries[j - 1]);
            lemma_entry_in_map(entries, j - 1);
        }
    }
    assert(entries_map(changed) =~= m);
}

/// Taking an entry out takes its key out of the map.
pub proof fn lemma_entries_remove(entries: Seq<EntryView>, i: int)
    requires
        entries_wf(entries),
        0 <= i < entries.len(),
    ensures
        entries_wf(entries.remove(i)),
        entries_map(entries.remove(i)) == entries_map(entries).remove(entries[i].0),
{
    let changed = entries.remove(i);
    let key = entries[i].0;
    assert(entries_wf(changed)) by {
        assert forall|a: int, b: int| 0 <= a < b < changed.len() implies key_lt(
            #[trigger] changed[a].0,
            #[trigger] changed[b].0,
        ) by {
            if a < i {
                assert(changed[a] == entries[a]);
            } else {
                assert(changed[a] == entries[a + 1]);
            }
            if b < i {
                assert(changed[b] == entries[b]);
            } else {
                assert(changed[b] == entries[b + 1]);
            }
        }
        assert forall|a: int| 0 <= a < changed.len() implies (#[trigger] changed[a]).1.len() > 0
            && changed[a].1.no_duplicates() by {
            if a < i {
                assert(changed[a] == entries[a]);
            } else {
                assert(changed[a] == entries[a + 1]);
            }
        }
    }
    let m = entries_map(entries).remove(key);
    assert forall|k: ValueView| entries_map(changed).contains_key(k) == m.contains_key(k) by {
        if has_key(changed, k) {
            let j = position_of(changed, k);
            if j < i {
                assert(entries[j].0 == k);
                lemma_key_lt_asymmetric(entries[j].0, entries[i].0);
            } else {
                assert(entries[j + 1].0 == k);
                lemma_key_lt_asymmetric(entries[i].0, entries[j + 1].0);
            }
        }
        if has_key(entries, k) && k != key {
            let j = position_of(entries, k);
            if j < i {
                assert(changed[j].0 == k);
            } else {
                assert(changed[j - 1].0 == k);
            }
        }
    }
    assert forall|k: ValueView| entries_map(changed).contains_key(k) implies entries_map(
        changed,
    )[k] == m[k] by {
        let j = position_of(changed, k);
        lemma_entry_in_map(changed, j);
        if j < i {
            assert(changed[j] == entries[j]);
            lemma_entry_in_map(entries, j);
            lemma_key_lt_asymmetric(entries[j].0, entries[i].0);
        } else {
            assert(changed[j] == entries[j + 1]);
            lemma_entry_in_map(entries, j + 1);
            lemma_key_lt_asymmetric(entries[i].0, entries[j + 1].0);
        }
    }
    assert(entries_map(changed) =~= m);
}

/// Taking `id` out of a list leaves the other rows, in their order.
pub proof fn lemma_without_id(ids: Seq<usize>, id: usize)
    ensures
        !without_id(ids, id).contains(id),
        forall|x: usize|
            x != id ==> (#[trigger] without_id(ids, id).contains(x) <==> ids.contains(x)),
        ids.no_duplicates() ==> without_id(ids, id).no_duplicates(),
        without_id(ids, id).len() <= ids.len(),
        !ids.contains(id) ==> without_id(ids, id) == ids,
    decreases ids.len(),
{
    let out = without_id(ids, id);
    if ids.len() == 0 {
    } else {
        let front = ids.drop_last();
        let last = ids.last();
        lemma_without_id(front, id);
        let sub = without_id(front, id);
        assert forall|x: usize| x != id implies (out.contains(x) <==> ids.contains(x)) by {
            if ids.contains(x) {
                let i = choose|i: int| 0 <= i < ids.len() && ids[i] == x;
                if i < ids.len() - 1 {
                    assert(front[i] == x);
                    assert(front.contains(x));
                    assert(sub.contains(x));
                    let j = choose|j: int| 0 <= j < sub.len() && sub[j] == x;
                    assert(out[j] == x);
                } else {
                    assert(out[out.len() - 1] == x);
                }
            }
            if out.contains(x) {
                let j = choose|j: int| 0 <= j < out.len() && out[j] == x;
                if j < sub.len() {
                    assert(sub.contains(x));
                    let i = choose|i: int| 0 <= i < front.len() && front[i] == x;
                    assert(ids[i] == x);
                } else {
                    assert(ids[ids.len() - 1] == x);
                }
            }
        }
        if out.contains(id) {
            let j = choose|j: int| 0 <= j < out.len() && out[j] == id;
            if j < sub.len() {
                assert(sub.contains(id));
            }
        }
        if ids.no_duplicates() {
            assert(front.no_duplicates());
            if last != id {
                assert forall|a: int, b: int| 0 <= a < out.len() && 0 <= b < out.len() && a
                    != b implies out[a] != out[b] by {
                    if a == sub.len() || b == sub.len() {
                        let c = if a == sub.len() {
                            b
                        } else {
                            a
                        };
                        if sub[c] == last {
                            assert(sub.contains(last));
                            assert(front.contains(last));
                            let i = choose|i: int| 0 <= i < front.len() && front[i] == last;
                            assert(ids[i] == ids[ids.len() - 1]);
                        }
                    }
                }
            }
        }
        if !ids.contains(id) {
            assert(!front.contains(id)) by {
                if front.contains(id) {
                    let i = choose|i: int| 0 <= i < front.len() && front[i] == id;
                    assert(ids[i] == id);
                }
            }
            assert(last != id) by {
                assert(ids[ids.len() - 1] == last);
            }
            assert(out =~= ids);
        }
    }
}

/// Adding a row to a list that lists no row twice keeps it so.
pub proof fn lemma_with_id(ids: Seq<usize>, id: usize)
    requires
        ids.no_duplicates(),
    ensures
        with_id(ids, id).no_duplicates(),
        with_id(ids, id).len() > 0,
        with_id(ids, id).contains(id),
        forall|x: usize|
            x != id ==> (#[trigger] with_id(ids, id).contains(x) <==> ids.contains(x)),
{
    let out = with_id(ids, id);
    if ids.contains(id) {
        let i = choose|i: int| 0 <= i < ids.len() && ids[i] == id;
    } else {
        assert(out[out.len() - 1] == id);
        assert forall|x: usize| x != id implies (out.contains(x) <==> ids.contains(x)) by {
            if ids.contains(x) {
                let i = choose|i: int| 0 <= i < ids.len() && ids[i] == x;
                assert(out[i] == x);
            }
            if out.contains(x) {
                let i = choose|i: int| 0 <= i < out.len() && out[i] == x;
                assert(ids[i] == x);
            }
        }
    }
}

/// Well-formed entries stand for a finite map with one key for each entry.
pub proof fn lemma_entries_count(entries: Seq<EntryView>)
    requires
        entries_wf(entries),
    ensures
        entries_map(entries).dom().finite(),
        entries_map(entries).dom().len() == entries.len(),
    decreases entries.len(),
{
    let m = entries_map(entries);
    if entries.len() == 0 {
        assert(m.dom() =~= Set::<ValueView>::empty());
    } else {
        let last = entries.len() - 1;
        let front = entries.remove(last);
        lemma_entries_remove(entries, last);
        lemma_entry_in_map(entries, last);
        lemma_entries_count(front);
        assert(m.dom() =~= entries_map(front).dom().insert(entries[last].0));
    }
}

/// Well-formed entries are determined by the map they stand for: the same
/// keys with the same rows are in the same order.
pub proof fn lemma_entries_unique(a: Seq<EntryView>, b: Seq<EntryView>)
    requires
        entries_wf(a),
        entries_wf(b),
        entries_map(a) == entries_map(b),
    ensures
        a == b,
    decreases a.len(),
{
    if a.len() == 0 {
        if b.len() > 0 {
            lemma_entry_in_map(b, 0);
            assert(has_key(a, b[0].0));
        }
        assert(a =~= b);
    } else {
        lemma_entry_in_map(a, 0);
        assert(has_key(b, a[0].0));
        let j = position_of(b, a[0].0);
        lemma_entry_in_map(b, 0);
        assert(has_key(a, b[0].0));
        let i = position_of(a, b[0].0);
        if j > 0 {
            if i == 0 {
                lemma_key_lt_irreflexive(b[0].0);
            } else {
                lemma_key_lt_asymmetric(a[0].0, a[i].0);
            }
        }
        lemma_entries_remove(a, 0);
        lemma_entries_remove(b, 0);
        lemma_entries_unique(a.remove(0), b.remove(0));
        assert forall|k: int| 0 <= k < a.len() implies a[k] == b[k] by {
            if k > 0 {
                assert(a.remove(0)[k - 1] == a[k]);
                assert(b.remove(0)[k - 1] == b[k]);
            }
        }
        assert(a.len() == b.len()) by {
            assert(a.remove(0).len() == b.remove(0).len());
        }
        assert(a =~= b);
    }
}

/// The rows of the entries from position `lo` up to position `hi`, entry
/// by entry.
pub open spec fn ids_between(entries: Seq<EntryView>, lo: int, hi: int) -> Seq<usize>
    decreases hi - lo,
{
    if hi <= lo {
        Seq::empty()
    } else {
        ids_between(entries, lo, hi - 1) + entries[hi - 1].1
    }
}

/// Entries that begin and end with a key of the kind of `bound` hold keys of
/// that kind only.
pub proof fn lemma_one_kind(entries: Seq<EntryView>, bound: ValueView)
    requires
        entries_wf(entries),
        entries.len() > 0,
        comparable(entries[0].0, bound),
        comparable(entries.last().0, bound),
    ensures
        all_comparable(entries, bound),
{
    assert forall|i: int| 0 <= i < entries.len() implies comparable(
        (#[trigger] entries[i]).0,
        bound,
    ) by {
        if 0 < i {
            assert(key_lt(entries[0].0, entries[i].0));
        }
        if i < entries.len() - 1 {
            assert(key_lt(entries[i].0, entries[entries.len() - 1].0));
        }
    }
}

/// Where the keys in range are those of the entries from `lo` up to `hi`,
/// the rows in range are the rows of those entries.
pub proof fn lemma_range_ids(entries: Seq<EntryView>, min: ValueView, max: ValueView, lo: int, hi: int)
    requires
        0 <= lo <= hi <= entries.len(),
        forall|k: int|
            0 <= k < entries.len() ==> in_range((#[trigger] entries[k]).0, min, max) == (lo <= k
                < hi),
    ensures
        range_ids(entries, min, max) == ids_between(entries, lo, hi),
    decreases entries.len(),
{
    if entries.len() == 0 {
    } else {
        let front = entries.drop_last();
        let last = entries.len() - 1;
        assert(in_range(entries[last].0, min, max) == (lo <= last < hi));
        if hi == entries.len() && lo < hi {
            assert forall|k: int| 0 <= k < front.len() implies in_range(
                (#[trigger] front[k]).0,
                min,
                max,
            ) == (lo <= k < hi - 1) by {
                assert(front[k] == entries[k]);
            }
            lemma_range_ids(front, min, max, lo, hi - 1);
            lemma_ids_between_prefix(entries, front, lo, hi - 1);
        } else {
            let h = if hi == entries.len() {
                hi - 1
            } else {
                hi
            };
            let l = if lo == entries.len() {
                lo - 1
            } else {
                lo
            };
            assert forall|k: int| 0 <= k < front.len() implies in_range(
                (#[trigger] front[k]).0,
                min,
                max,
            ) == (l <= k < h) by {
                assert(front[k] == entries[k]);
            }
            lemma_range_ids(front, min, max, l, h);
            lemma_ids_between_prefix(entries, front, l, h);
            assert(range_ids(entries, min, max) =~= range_ids(front, min, max));
            if lo == hi {
                assert(ids_between(entries, lo, hi) =~= ids_between(entries, l, h));
            }
        }
    }
}

/// The rows between two positions are the same in any run of entries that
/// agrees up to the second position.
pub proof fn lemma_ids_between_prefix(a: Seq<EntryView>, b: Seq<EntryView>, lo: int, hi: int)
    requires
        0 <= lo,
        hi <= a.len(),
        hi <= b.len(),
        forall|k: int| 0 <= k < hi ==> a[k] == b[k],
    ensures
        ids_between(a, lo, hi) == ids_between(b, lo, hi),
    decreases hi - lo,
{
    if hi > lo {
        lemma_ids_between_prefix(a, b, lo, hi - 1);
    }
}

/// A key lies between two bounds exactly when it comes before neither the
/// lower bound nor after the upper one.
pub proof fn lemma_in_range(key: ValueView, min: ValueView, max: ValueView)
    ensures
        in_range(key, min, max) <==> !key_lt(key, min) && !key_lt(max, key),
{
    if key_lt(key, min) {
        lemma_key_lt_asymmetric(key, min);
    } else if !key_lt(min, key) {
        lemma_key_lt_connected(key, min);
    }
    if key_lt(max, key) {
        lemma_key_lt_asymmetric(max, key);
    } else if !key_lt(key, max) {
        lemma_key_lt_connected(max, key);
    }
}

/// One key with the rows that hold it.
#[derive(Debug)]
struct Entry {
    key: IndexKey,
    row_ids: Vec<usize>,
}

impl View for Entry {
    type V = EntryView;

    closed spec fn view(&self) -> EntryView {
        (self.key@, self.row_ids@)
    }
}

/// An ordered index on one column.
#[derive(Debug)]
pub struct BTreeIndex {
    entries: Vec<Entry>,
    column_name: String,
}

impl View for BTreeIndex {
    type V = IndexView;

    /// For each key that occurs, the rows that hold it.
    open spec fn view(&self) -> IndexView {
        entries_map(self.ordered())
    }
}

impl Clone for BTreeIndex {
    fn clone(&self) -> (res: Self)
        ensures
            res.ordered() == self.ordered(),
            res.name() == self.name(),
            res@ == self@,
    {
        let mut entries: Vec<Entry> = Vec::new();
        let mut i: usize = 0;
        while i < self.entries.len()
            invariant
                i <= self.entries@.len(),
                entries@.len() == i,
                forall|j: int| 0 <= j < i ==> (#[trigger] entries@[j])@ == self.entries@[j]@,
            decreases self.entries.len() - i,
        {
            let entry = &self.entries[i];
            let mut row_ids: Vec<usize> = Vec::new();
            append_ids(&mut row_ids, &entry.row_ids);
            assert(row_ids@ =~= entry.row_ids@);
            entries.push(Entry { key: entry.key.clone(), row_ids });
            i += 1;
        }
        let res = BTreeIndex { entries, column_name: self.column_name.clone() };
        assert(res.ordered() =~= self.ordered());
        res
    }
}

/// Whether `id` is listed in `ids`.
pub fn lists(ids: &Vec<usize>, id: usize) -> (res: bool)
    ensures
        res == ids@.contains(id),
{
    let mut i: usize = 0;
    while i < ids.len()
        invariant
            i <= ids.len(),
            forall|j: int| 0 <= j < i ==> ids@[j] != id,
        decreases ids.len() - i,
    {
        if ids[i] == id {
            return true;
        }
        i += 1;
    }
    false
}

/// The rows of `ids` other than `id`, in their order.
pub fn list_without(ids: &Vec<usize>, id: usize) -> (res: Vec<usize>)
    ensures
        res@ == without_id(ids@, id),
{
    let mut out: Vec<usize> = Vec::new();
    let mut i: usize = 0;
    while i < ids.len()
        invariant
            i <= ids.len(),
            out@ == without_id(ids@.take(i as int), id),
        decreases ids.len() - i,
    {
        proof {
            assert(ids@.take(i + 1).drop_last() =~= ids@.take(i as int));
        }
        if ids[i] != id {
            out.push(ids[i]);
        }
        i += 1;
    }
    proof {
        assert(ids@.take(i as int) =~= ids@);
    }
    out
}

/// Appends the rows of `ids` to `out`.
pub fn append_ids(out: &mut Vec<usize>, ids: &Vec<usize>)
    ensures
        final(out)@ == old(out)@ + ids@,
{
    let mut i: usize = 0;
    while i < ids.len()
        invariant
            i <= ids.len(),
            out@ == old(out)@ + ids@.take(i as int),
        decreases ids.len() - i,
    {
        out.push(ids[i]);
        proof {
            assert(ids@.take(i + 1) =~= ids@.take(i as int).push(ids@[i as int]));
            assert(out@ =~= old(out)@ + ids@.take(i + 1));
        }
        i += 1;
    }
    proof {
        assert(ids@.take(i as int) =~= ids@);
    }
}

impl BTreeIndex {
    /// The entries in ascending order of key.
    pub closed spec fn ordered(&self) -> Seq<EntryView> {
        self.entries@.map_values(|e: Entry| e@)
    }

    /// The name of the indexed column.
    pub closed spec fn name(&self) -> Seq<char> {
        self.column_name@
    }

    /// The entries are in strictly ascending order of key, and each lists at
    /// least one row and no row twice.
    pub open spec fn wf(&self) -> bool {
        entries_wf(self.ordered())
    }

    /// An empty index for the column `column_name`.
    pub fn new(column_name: String) -> (res: Self)
        ensures
            res.wf(),
            res.name() == column_name@,
            res.ordered() == Seq::<EntryView>::empty(),
            res@ == Map::<ValueView, Seq<usize>>::empty(),
    {
        let res = Self { entries: Vec::new(), column_name };
        assert(res.ordered() =~= Seq::<EntryView>::empty());
        assert(res@ =~= Map::<ValueView, Seq<usize>>::empty());
        res
    }

    /// Where `value` is, or where it would have to be put: the number of
    /// keys that come before it, and whether it is a key.
    fn find(&self, value: &Value) -> (res: (usize, bool))
        requires
            self.wf(),
        ensures
            res.0 <= self.ordered().len(),
            forall|i: int| 0 <= i < res.0 ==> key_lt((#[trigger] self.ordered()[i]).0, value@),
            res.1 ==> res.0 < self.ordered().len() && self.ordered()[res.0 as int].0 == value@,
            !res.1 ==> forall|i: int|
                res.0 <= i < self.ordered().len() ==> key_lt(
                    value@,
                    (#[trigger] self.ordered()[i]).0,
                ),
            res.1 == self@.contains_key(value@),
    {
        let ghost ord = self.ordered();
        let mut lo: usize = 0;
        let mut hi: usize = self.entries.len();
        while lo < hi
            invariant
                self.wf(),
                ord == self.ordered(),
                lo <= hi <= self.entries@.len(),
                forall|i: int| 0 <= i < lo ==> key_lt((#[trigger] ord[i]).0, value@),
                forall|i: int| hi <= i < ord.len() ==> !key_lt((#[trigger] ord[i]).0, value@),
            decreases hi - lo,
        {
            let mid = lo + (hi - lo) / 2;
            if self.entries[mid].key.0.precedes(value) {
                proof {
                    assert forall|i: int| 0 <= i < mid + 1 implies key_lt(
                        (#[trigger] ord[i]).0,
                        value@,
                    ) by {
                        if i < mid {
                            lemma_key_lt_transitive(ord[i].0, ord[mid as int].0, value@);
                        }
                    }
                }
                lo = mid + 1;
            } else {
                proof {
                    assert forall|i: int| mid <= i < ord.len() implies !key_lt(
                        (#[trigger] ord[i]).0,
                        value@,
                    ) by {
                        if i > mid && key_lt(ord[i].0, value@) {
                            lemma_key_lt_transitive(ord[mid as int].0, ord[i].0, value@);
                        }
                    }
                }
                hi = mid;
            }
        }
        let found = lo < self.entries.len() && self.entries[lo].key.0 == *value;
        proof {
            if found {
                assert(has_key(ord, value@));
            } else {
                assert forall|i: int| lo <= i < ord.len() implies key_lt(
                    value@,
                    (#[trigger] ord[i]).0,
                ) by {
                    if !key_lt(value@, ord[lo as int].0) {
                        lemma_key_lt_connected(value@, ord[lo as int].0);
                    }
                    if i > lo {
                        lemma_key_lt_transitive(value@, ord[lo as int].0, ord[i].0);
                    }
                }
                if has_key(ord, value@) {
                    let j = position_of(ord, value@);
                    lemma_key_lt_irreflexive(value@);
                }
            }
        }
        (lo, found)
    }

    /// Lists row `row_id` under `value`, making a new entry where the value
    /// is not a key yet. A row that is listed there already is not listed
    /// again.
    pub fn insert(&mut self, value: Value, row_id: usize)
        requires
            old(self).wf(),
        ensures
            final(self).wf(),
            final(self).name() == old(self).name(),
            final(self)@ == index_insert(old(self)@, value@, row_id),
    {
        let (pos, found) = self.find(&value);
        let ghost ord = self.ordered();
        if found {
            proof {
                lemma_entry_in_map(ord, pos as int);
                lemma_with_id(ord[pos as int].1, row_id);
                lemma_entries_update(ord, pos as int, with_id(ord[pos as int].1, row_id));
            }
            if !lists(&self.entries[pos].row_ids, row_id) {
                self.entries[pos].row_ids.push(row_id);
            }
            assert(self.ordered() =~= ord.update(
                pos as int,
                (ord[pos as int].0, with_id(ord[pos as int].1, row_id)),
            ));
        } else {
            let mut row_ids: Vec<usize> = Vec::new();
            row_ids.push(row_id);
            proof {
                assert(row_ids@ =~= with_id(Seq::<usize>::empty(), row_id));
                lemma_with_id(Seq::<usize>::empty(), row_id);
                lemma_entries_insert(ord, pos as int, value@, row_ids@);
            }
            self.entries.insert(pos, Entry { key: IndexKey(value), row_ids });
            assert(self.ordered() =~= ord.insert(pos as int, (value@, seq![row_id])));
        }
    }

    /// The rows that hold `value`; `None` when no row does.
    pub fn lookup(&self, value: &Value) -> (res: Option<&Vec<usize>>)
        requires
            self.wf(),
        ensures
            match res {
                Some(ids) => self@.contains_key(value@) && ids@ == self@[value@],
                None => !self@.contains_key(value@),
            },
    {
        let (pos, found) = self.find(value);
        if found {
            proof {
                lemma_entry_in_map(self.ordered(), pos as int);
            }
            Some(&self.entries[pos].row_ids)
        } else {
            None
        }
    }

    /// The rows whose value lies between `min` and `max`, both included, in
    /// ascending order of value. The bounds and every indexed value must be
    /// of one kind that has an order; otherwise the query is refused.
    pub fn range_query(&self, min: &Value, max: &Value) -> (res: Result<Vec<usize>, DbError>)
        requires
            self.wf(),
        ensures
            match res {
                Ok(ids) => {
                    &&& comparable(min@, max@)
                    &&& all_comparable(self.ordered(), min@)
                    &&& ids@ == range_ids(self.ordered(), min@, max@)
                },
                Err(e) => {
                    &&& e@ == DbErrorView::UnsupportedComparison
                    &&& !(comparable(min@, max@) && all_comparable(self.ordered(), min@))
                },
            },
    {
        if !min.is_comparable(max) {
            return Err(DbError::UnsupportedComparison);
        }
        let ghost ord = self.ordered();
        let n = self.entries.len();
        let mut result: Vec<usize> = Vec::new();
        if n == 0 {
            return Ok(result);
        }
        if !self.entries[0].key.0.is_comparable(min) || !self.entries[n - 1].key.0.is_comparable(
            min,
        ) {
            proof {
                assert(ord[0].0 == self.entries@[0].key@);
                assert(ord[n - 1].0 == self.entries@[n - 1].key@);
            }
            return Err(DbError::UnsupportedComparison);
        }
        proof {
            lemma_one_kind(ord, min@);
        }
        let (start, found) = self.find(min);
        proof {
            assert forall|k: int| start <= k < ord.len() implies !key_lt(
                (#[trigger] ord[k]).0,
                min@,
            ) by {
                if found {
                    lemma_key_lt_irreflexive(min@);
                    if k > start {
                        lemma_key_lt_asymmetric(ord[start as int].0, ord[k].0);
                    }
                } else {
                    lemma_key_lt_asymmetric(min@, ord[k].0);
                }
            }
            assert(result@ =~= ids_between(ord, start as int, start as int));
        }
        let mut i: usize = start;
        while i < n && !max.precedes(&self.entries[i].key.0)
            invariant
                self.wf(),
                ord == self.ordered(),
                n == self.entries@.len(),
                start <= i <= n,
                forall|k: int| start <= k < i ==> !key_lt(max@, (#[trigger] ord[k]).0),
                result@ == ids_between(ord, start as int, i as int),
            decreases n - i,
        {
            append_ids(&mut result, &self.entries[i].row_ids);
            i += 1;
        }
        proof {
            assert forall|k: int| i <= k < ord.len() implies key_lt(max@, (#[trigger] ord[k]).0) by {
                if k > i {
                    lemma_key_lt_transitive(max@, ord[i as int].0, ord[k].0);
                }
            }
            assert forall|k: int| 0 <= k < ord.len() implies in_range(
                (#[trigger] ord[k]).0,
                min@,
                max@,
            ) == (start <= k < i) by {
                lemma_in_range(ord[k].0, min@, max@);
                if k >= i {
                    lemma_key_lt_asymmetric(max@, ord[k].0);
                }
            }
            lemma_range_ids(ord, min@, max@, start as int, i as int);
        }
        Ok(result)
    }

    /// Takes row `row_id` out of the rows listed under `value`. An entry
    /// that lists no row any more is dropped.
    pub fn remove(&mut self, value: &Value, row_id: usize)
        requires
            old(self).wf(),
        ensures
            final(self).wf(),
            final(self).name() == old(self).name(),
            final(self)@ == index_remove(old(self)@, value@, row_id),
    {
        let (pos, found) = self.find(value);
        let ghost ord = self.ordered();
        if found {
            let kept = list_without(&self.entries[pos].row_ids, row_id);
            proof {
                lemma_entry_in_map(ord, pos as int);
                lemma_without_id(ord[pos as int].1, row_id);
            }
            if kept.is_empty() {
                proof {
                    lemma_entries_remove(ord, pos as int);
                }
                self.entries.remove(pos);
                assert(self.ordered() =~= ord.remove(pos as int));
            } else {
                proof {
                    lemma_entries_update(ord, pos as int, kept@);
                }
                self.entries[pos].row_ids = kept;
                assert(self.ordered() =~= ord.update(pos as int, (ord[pos as int].0, kept@)));
            }
        }
    }

    /// The name of the indexed column.
    pub fn column_name(&self) -> (res: &str)
        ensures
            res@ == self.name(),
    {
        self.column_name.as_str()
    }

    /// The number of different values in the index.
    pub fn len(&self) -> (res: usize)
        ensures
            res == self.ordered().len(),
            self.wf() ==> res == self@.dom().len(),
    {
        proof {
            if self.wf() {
                lemma_entries_count(self.ordered());
            }
        }
        self.entries.len()
    }

    /// Whether the index holds no value.
    pub fn is_empty(&self) -> (res: bool)
        ensures
            res == (self.ordered().len() == 0),
            self.wf() ==> res == (self@ == Map::<ValueView, Seq<usize>>::empty()),
    {
        proof {
            if self.wf() {
                lemma_entries_count(self.ordered());
                if self.ordered().len() == 0 {
                    assert(self@ =~= Map::<ValueView, Seq<usize>>::empty());
                } else {
                    lemma_entry_in_map(self.ordered(), 0);
                }
            }
        }
        self.entries.len() == 0
    }
}

} // verus!
