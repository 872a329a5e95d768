//! Paged row storage.
//!
//! Rows live in fixed-capacity pages. A row's identifier is its page's number
//! times the page capacity plus its slot in the page. A deleted row leaves an
//! empty slot behind, so identifiers stay valid and are never given out twice.

use vstd::prelude::*;
use vstd::arithmetic::div_mod::*;
use vstd::arithmetic::mul::*;
use super::{Row, ValueView};

verus! {

/// What a slot holds: the values of a row, or nothing once the row is deleted.
pub type SlotView = Option<Seq<ValueView>>;

/// The content of a slot.
pub open spec fn slot_view(slot: Option<Row>) -> SlotView {
    match slot {
        Some(row) => Some(row@),
        None => None,
    }
}

/// The number of slots that hold a row.
pub open spec fn live_count(slots: Seq<SlotView>) -> nat
    decreases slots.len(),
{
    if slots.len() == 0 {
        0
    } else {
        live_count(slots.drop_last()) + if slots.last() is Some {
            1nat
        } else {
            0nat
        }
    }
}

/// The identifiers of the slots that hold a row, in ascending order.
pub open spec fn live_ids(slots: Seq<SlotView>) -> Seq<usize>
    decreases slots.len(),
{
    if slots.len() == 0 {
        Seq::empty()
    } else if slots.last() is Some {
        live_ids(slots.drop_last()).push((slots.len() - 1) as usize)
    } else {
        live_ids(slots.drop_last())
    }
}

/// There are never more rows than slots.
pub proof fn lemma_live_count_bound(slots: Seq<SlotView>)
    ensures
        live_count(slots) <= slots.len(),
    decreases slots.len(),
{
    if slots.len() > 0 {
        lemma_live_count_bound(slots.drop_last());
    }
}

/// Counting over two runs of slots adds up.
pub proof fn lemma_live_count_concat(a: Seq<SlotView>, b: Seq<SlotView>)
    ensures
        live_count(a + b) == live_count(a) + live_count(b),
    decreases b.len(),
{
    if b.len() == 0 {
        assert(a + b =~= a);
    } else {
        assert((a + b).drop_last() =~= a + b.drop_last());
        lemma_live_count_concat(a, b.drop_last());
    }
}

/// A new row in a fresh slot is one more row.
pub proof fn lemma_live_count_push(slots: Seq<SlotView>, slot: SlotView)
    ensures
        live_count(slots.push(slot)) == live_count(slots) + if slot is Some {
            1nat
        } else {
            0nat
        },
{
    assert(slots.push(slot).drop_last() =~= slots);
}

/// Emptying or refilling one slot changes the count by that slot alone.
pub proof fn lemma_live_count_update(slots: Seq<SlotView>, i: int, slot: SlotView)
    requires
        0 <= i < slots.len(),
    ensures
        live_count(slots.update(i, slot)) + (if slots[i] is Some {
            1nat
        } else {
            0nat
        }) == live_count(slots) + (if slot is Some {
            1nat
        } else {
            0nat
        }),
    decreases slots.len(),
{
    if i == slots.len() - 1 {
        assert(slots.update(i, slot).drop_last() =~= slots.drop_last());
    } else {
        assert(slots.update(i, slot).drop_last() =~= slots.drop_last().update(i, slot));
        lemma_live_count_update(slots.drop_last(), i, slot);
    }
}

/// The live identifiers are exactly those of the slots that hold a row, each
/// listed once, in ascending order.
pub proof fn lemma_live_ids(slots: Seq<SlotView>)
    requires
        slots.len() <= usize::MAX,
    ensures
        live_ids(slots).len() == live_count(slots),
        forall|k: int|
            0 <= k < live_ids(slots).len() ==> 0 <= #[trigger] live_ids(slots)[k] < slots.len()
                && slots[live_ids(slots)[k] as int] is Some,
        forall|j: int, k: int|
            0 <= j < k < live_ids(slots).len() ==> live_ids(slots)[j] < live_ids(slots)[k],
        forall|i: usize|
            0 <= i < slots.len() && slots[i as int] is Some ==> live_ids(slots).contains(i),
    decreases slots.len(),
{
    if slots.len() > 0 {
        let prefix = slots.drop_last();
        lemma_live_ids(prefix);
        let ids = live_ids(slots);
        assert forall|i: usize| 0 <= i < slots.len() && slots[i as int] is Some implies ids.contains(
            i,
        ) by {
            if i < slots.len() - 1 {
                assert(prefix[i as int] is Some);
                assert(live_ids(prefix).contains(i));
                let k = choose|k: int| 0 <= k < live_ids(prefix).len() && live_ids(prefix)[k] == i;
                assert(ids[k] == i);
            } else {
                assert(ids[ids.len() - 1] == i);
            }
        }
    }
}

/// One page: a run of slots, at most `max_rows` of them.
#[derive(Debug)]
pub struct Page {
    /// The page's number.
    pub id: usize,
    /// The slots handed out so far; `None` marks a deleted row.
    pub rows: Vec<Option<Row>>,
    /// The most slots the page can hold.
    pub max_rows: usize,
}

impl Clone for Page {
    fn clone(&self) -> (res: Self)
        ensures
            res.id == self.id,
            res.max_rows == self.max_rows,
            res.slots() == self.slots(),
    {
        let mut rows: Vec<Option<Row>> = Vec::new();
        let mut i: usize = 0;
        while i < self.rows.len()
            invariant
                i <= self.rows@.len(),
                rows@.len() == i,
                forall|j: int| 0 <= j < i ==> slot_view(#[trigger] rows@[j]) == slot_view(self.rows@[j]),
            decreases self.rows.len() - i,
        {
            let slot = match &self.rows[i] {
                Some(row) => Some(row.clone()),
                None => None,
            };
            rows.push(slot);
            i += 1;
        }
        let res = Page { id: self.id, rows, max_rows: self.max_rows };
        assert(res.slots() =~= self.slots());
        res
    }
}

impl Page {
    /// The contents of the page's slots.
    pub open spec fn slots(&self) -> Seq<SlotView> {
        self.rows@.map_values(|s: Option<Row>| slot_view(s))
    }

    /// An empty page.
    pub fn new(id: usize, max_rows: usize) -> (res: Self)
        ensures
            res.id == id,
            res.max_rows == max_rows,
            res.rows@.len() == 0,
            res.slots() == Seq::<SlotView>::empty(),
    {
        let res = Self { id, rows: Vec::new(), max_rows };
        assert(res.slots() =~= Seq::<SlotView>::empty());
        res
    }

    /// Puts `row` into the next free slot. A full page is left as it is and
    /// answers `false`.
    pub fn insert(&mut self, row: Row) -> (res: bool)
        ensures
            res == (old(self).rows@.len() < old(self).max_rows),
            final(self).id == old(self).id,
            final(self).max_rows == old(self).max_rows,
            res ==> final(self).slots() == old(self).slots().push(Some(row@)),
            res ==> final(self).rows@.len() == old(self).rows@.len() + 1,
            !res ==> final(self).slots() == old(self).slots(),
    {
        if self.is_full() {
            return false;
        }
        self.rows.push(Some(row));
        assert(self.slots() =~= old(self).slots().push(Some(row@)));
        true
    }

    /// Whether every slot of the page has been handed out.
    pub fn is_full(&self) -> (res: bool)
        ensures
            res == (self.rows@.len() >= self.max_rows),
    {
        self.rows.len() >= self.max_rows
    }

    /// The row in slot `index`, if the slot exists and holds one.
    pub fn get(&self, index: usize) -> (res: Option<&Row>)
        ensures
            match res {
                Some(row) => index < self.slots().len() && self.slots()[index as int] == Some(
                    row@,
                ) && self.rows@[index as int] == Some(*row),
                None => index >= self.slots().len() || self.slots()[index as int] is None,
            },
    {
        if index < self.rows.len() {
            self.rows[index].as_ref()
        } else {
            None
        }
    }

    /// The row in slot `index`, for changing it in place.
    pub fn get_mut(&mut self, index: usize) -> (res: Option<&mut Row>)
        ensures
            final(self).id == old(self).id,
            final(self).max_rows == old(self).max_rows,
            match res {
                Some(row) => index < old(self).rows@.len() && old(self).rows@[index as int]
                    == Some(*row) && final(self).rows@ == old(self).rows@.update(
                    index as int,
                    Some(*final(row)),
                ),
                None => (index >= old(self).rows@.len() || old(self).rows@[index as int] is None)
                    && final(self).rows@ == old(self).rows@,
            },
    {
        if index < self.rows.len() {
            self.rows[index].as_mut()
        } else {
            None
        }
    }

    /// Deletes the row in slot `index` and hands it out. The slot stays in
    /// place, empty.
    pub fn delete(&mut self, index: usize) -> (res: Option<Row>)
        ensures
            final(self).id == old(self).id,
            final(self).max_rows == old(self).max_rows,
            match res {
                Some(row) => index < old(self).slots().len() && old(self).slots()[index as int]
                    == Some(row@) && final(self).slots() == old(self).slots().update(
                    index as int,
                    None,
                ),
                None => (index >= old(self).slots().len() || old(self).slots()[index as int]
                    is None) && final(self).slots() == old(self).slots(),
            },
    {
        if index < self.rows.len() {
            let mut taken: Option<Row> = None;
            std::mem::swap(&mut self.rows[index], &mut taken);
            assert(self.slots() =~= old(self).slots().update(index as int, None));
            taken
        } else {
            None
        }
    }

    /// The number of rows in the page.
    pub fn len(&self) -> (res: usize)
        ensures
            res == live_count(self.slots()),
    {
        let mut count: usize = 0;
        let mut i: usize = 0;
        while i < self.rows.len()
            invariant
                i <= self.rows.len(),
                count == live_count(self.slots().take(i as int)),
                count <= i,
            decreases self.rows.len() - i,
        {
            proof {
                assert(self.slots().take(i + 1).drop_last() =~= self.slots().take(i as int));
            }
            if self.rows[i].is_some() {
                count += 1;
            }
            i += 1;
        }
        assert(self.slots().take(i as int) =~= self.slots());
        count
    }

    /// Whether the page holds no row.
    pub fn is_empty(&self) -> (res: bool)
        ensures
            res == (live_count(self.slots()) == 0),
    {
        self.len() == 0
    }
}

/// The slots of a run of pages, one page after the other.
pub open spec fn all_slots(pages: Seq<Page>) -> Seq<SlotView>
    decreases pages.len(),
{
    if pages.len() == 0 {
        Seq::empty()
    } else {
        all_slots(pages.drop_last()) + pages.last().slots()
    }
}

/// The most slots a store with pages of `capacity` slots can address.
pub open spec fn slot_limit(capacity: nat) -> nat {
    if capacity == 0 {
        0
    } else {
        (usize::MAX as nat / capacity) * capacity
    }
}

/// Pages that are numbered in order, of one capacity, and all full but the last.
pub open spec fn pages_wf(pages: Seq<Page>, capacity: nat) -> bool {
    &&& capacity > 0
    &&& forall|p: int|
        0 <= p < pages.len() ==> {
            &&& (#[trigger] pages[p]).id == p
            &&& pages[p].max_rows == capacity
            &&& 0 < pages[p].rows@.len() <= capacity
        }
    &&& forall|p: int| 0 <= p < pages.len() - 1 ==> (#[trigger] pages[p]).rows@.len() == capacity
}

/// Well-formed pages stay well-formed without their last page.
pub proof fn lemma_pages_wf_front(pages: Seq<Page>, capacity: nat)
    requires
        pages_wf(pages, capacity),
        pages.len() > 0,
    ensures
        pages_wf(pages.drop_last(), capacity),
{
    let front = pages.drop_last();
    assert forall|p: int| 0 <= p < front.len() implies (#[trigger] front[p]).id == p
        && front[p].max_rows == capacity && 0 < front[p].rows@.len() <= capacity by {
        assert(front[p] == pages[p]);
    }
    assert forall|p: int| 0 <= p < front.len() - 1 implies (#[trigger] front[p]).rows@.len()
        == capacity by {
        assert(front[p] == pages[p]);
    }
}

/// The number of slots in well-formed pages.
pub proof fn lemma_all_slots_len(pages: Seq<Page>, capacity: nat)
    requires
        pages_wf(pages, capacity),
    ensures
        pages.len() == 0 ==> all_slots(pages).len() == 0,
        pages.len() > 0 ==> all_slots(pages).len() == (pages.len() - 1) * capacity
            + pages.last().rows@.len(),
        all_slots(pages).len() <= pages.len() * capacity,
    decreases pages.len(),
{
    if pages.len() > 0 {
        let front = pages.drop_last();
        let n = pages.len() - 1;
        lemma_pages_wf_front(pages, capacity);
        lemma_all_slots_len(front, capacity);
        if n > 0 {
            assert(front.last() == pages[n - 1]);
            assert(pages[n - 1].rows@.len() == capacity);
        }
        assert((n - 1) * capacity + capacity == n * capacity) by (nonlinear_arith);
        assert(0 * capacity == 0) by (nonlinear_arith);
        assert(n * capacity + capacity == (n + 1) * capacity) by (nonlinear_arith);
        assert(all_slots(front).len() == n * capacity);
        assert(pages.last().slots().len() == pages.last().rows@.len());
    } else {
        assert(0 * capacity == 0) by (nonlinear_arith);
    }
}

/// In well-formed pages, slot `s` of page `p` is slot `p * capacity + s` overall.
pub proof fn lemma_slot_at(pages: Seq<Page>, capacity: nat, p: int, s: int)
    requires
        pages_wf(pages, capacity),
        0 <= p < pages.len(),
        0 <= s < pages[p].rows@.len(),
    ensures
        0 <= p * capacity + s < all_slots(pages).len(),
        all_slots(pages)[p * capacity + s] == pages[p].slots()[s],
    decreases pages.len(),
{
    let front = pages.drop_last();
    let n = pages.len() - 1;
    lemma_pages_wf_front(pages, capacity);
    lemma_all_slots_len(front, capacity);
    lemma_all_slots_len(pages, capacity);
    if n > 0 {
        assert(front.last() == pages[n - 1]);
    }
    assert((n - 1) * capacity + capacity == n * capacity) by (nonlinear_arith);
    assert(0 * capacity == 0) by (nonlinear_arith);
    assert(all_slots(front).len() == n * capacity);
    if p < n {
        assert(front[p] == pages[p]);
        lemma_slot_at(front, capacity, p, s);
    } else {
        assert(p * capacity == n * capacity);
        assert(pages.last().slots().len() == pages[p].rows@.len());
    }
}

/// Dividing an overall slot number by the capacity gives back page and slot.
pub proof fn lemma_split_id(p: int, s: int, capacity: int)
    requires
        0 <= p,
        0 <= s < capacity,
    ensures
        (p * capacity + s) / capacity == p,
        (p * capacity + s) % capacity == s,
{
    lemma_fundamental_div_mod_converse(p * capacity + s, capacity, p, s);
}

/// Any slot number is its page number times the capacity plus a slot in the page.
pub proof fn lemma_join_id(id: int, capacity: int)
    requires
        0 <= id,
        0 < capacity,
    ensures
        0 <= id / capacity,
        0 <= id % capacity < capacity,
        (id / capacity) * capacity + id % capacity == id,
{
    lemma_fundamental_div_mod(id, capacity);
    lemma_mod_bound(id, capacity);
    lemma_div_pos_is_pos(id, capacity);
    assert((id / capacity) * capacity == capacity * (id / capacity)) by (nonlinear_arith);
}

/// Where the row with identifier `id` lies, and when it lies nowhere.
pub proof fn lemma_locate(pages: Seq<Page>, capacity: nat, id: int)
    requires
        pages_wf(pages, capacity),
        0 <= id,
    ensures
        ({
            let cap = capacity as int;
            let p = id / cap;
            let s = id % cap;
            &&& 0 <= p
            &&& 0 <= s < cap
            &&& p * cap + s == id
            &&& (p < pages.len() && s < pages[p].rows@.len()) <==> id < all_slots(pages).len()
            &&& id < all_slots(pages).len() ==> all_slots(pages)[id] == pages[p].slots()[s]
        }),
{
    let cap = capacity as int;
    let p = id / cap;
    let s = id % cap;
    let n = pages.len() as int;
    lemma_join_id(id, cap);
    lemma_all_slots_len(pages, capacity);
    if p < n && s < pages[p].rows@.len() {
        lemma_slot_at(pages, capacity, p, s);
    } else if p >= n {
        assert(p * cap >= n * cap) by (nonlinear_arith)
            requires
                p >= n,
                cap > 0,
        ;
    } else {
        if p < n - 1 {
            assert(pages[p].rows@.len() == cap);
        }
    }
}

/// Pages that agree slot for slot make the same store.
pub proof fn lemma_same_slots(pages: Seq<Page>, changed: Seq<Page>, capacity: nat)
    requires
        pages_wf(pages, capacity),
        changed.len() == pages.len(),
        forall|q: int|
            0 <= q < pages.len() ==> {
                &&& (#[trigger] changed[q]).id == pages[q].id
                &&& changed[q].max_rows == pages[q].max_rows
                &&& changed[q].slots() == pages[q].slots()
            },
    ensures
        pages_wf(changed, capacity),
        all_slots(changed) == all_slots(pages),
{
    assert(pages_wf(changed, capacity)) by {
        assert forall|q: int| 0 <= q < changed.len() implies (#[trigger] changed[q]).id == q
            && changed[q].max_rows == capacity && 0 < changed[q].rows@.len() <= capacity by {
            assert(changed[q].slots().len() == pages[q].slots().len());
            assert(pages[q].id == q);
        }
        assert forall|q: int| 0 <= q < changed.len() - 1 implies (
        #[trigger] changed[q]).rows@.len() == capacity by {
            assert(changed[q].slots().len() == pages[q].slots().len());
            assert(pages[q].rows@.len() == capacity);
        }
    }
    lemma_all_slots_len(pages, capacity);
    lemma_all_slots_len(changed, capacity);
    if pages.len() > 0 {
        assert(changed.last().slots().len() == pages.last().slots().len());
    }
    assert forall|id: int| 0 <= id < all_slots(pages).len() implies all_slots(changed)[id]
        == all_slots(pages)[id] by {
        lemma_locate(pages, capacity, id);
        lemma_locate(changed, capacity, id);
        let q = id / (capacity as int);
        assert(changed[q].slots() == pages[q].slots());
    }
    assert(all_slots(changed) =~= all_slots(pages));
}

/// Changing what one slot of one page holds changes that slot of the store
/// and nothing else.
pub proof fn lemma_replace_slot(
    pages: Seq<Page>,
    changed: Seq<Page>,
    capacity: nat,
    p: int,
    s: int,
    slot: SlotView,
)
    requires
        pages_wf(pages, capacity),
        0 <= p < pages.len(),
        0 <= s < pages[p].rows@.len(),
        changed.len() == pages.len(),
        forall|q: int| 0 <= q < pages.len() && q != p ==> #[trigger] changed[q] == pages[q],
        changed[p].id == pages[p].id,
        changed[p].max_rows == pages[p].max_rows,
        changed[p].slots() == pages[p].slots().update(s, slot),
    ensures
        pages_wf(changed, capacity),
        all_slots(changed) == all_slots(pages).update(p * capacity + s, slot),
{
    assert(changed[p].slots().len() == pages[p].slots().len());
    assert(pages_wf(changed, capacity)) by {
        assert forall|q: int| 0 <= q < changed.len() implies (#[trigger] changed[q]).id == q
            && changed[q].max_rows == capacity && 0 < changed[q].rows@.len() <= capacity by {
            assert(pages[q].id == q);
            if q != p {
                assert(changed[q] == pages[q]);
            }
        }
        assert forall|q: int| 0 <= q < changed.len() - 1 implies (
        #[trigger] changed[q]).rows@.len() == capacity by {
            assert(pages[q].rows@.len() == capacity);
            if q != p {
                assert(changed[q] == pages[q]);
            }
        }
    }
    lemma_all_slots_len(pages, capacity);
    lemma_all_slots_len(changed, capacity);
    if p != pages.len() - 1 {
        assert(changed.last() == pages.last());
    }
    lemma_slot_at(pages, capacity, p, s);
    let target = p * capacity + s;
    assert forall|id: int| 0 <= id < all_slots(pages).len() implies all_slots(changed)[id]
        == all_slots(pages).update(target, slot)[id] by {
        lemma_locate(pages, capacity, id);
        lemma_locate(changed, capacity, id);
        let q = id / (capacity as int);
        let t = id % (capacity as int);
        if q != p {
            assert(changed[q] == pages[q]);
            assert(id != target) by {
                lemma_split_id(p, s, capacity as int);
            }
        } else if t != s {
            assert(id != target) by {
                lemma_split_id(p, s, capacity as int);
            }
        } else {
            assert(id == target);
        }
    }
    assert(all_slots(changed) =~= all_slots(pages).update(target, slot));
}

/// Pages that differ from `pages` at most in what slot `s` of page `p` holds.
pub open spec fn agree_except(pages: Seq<Page>, changed: Seq<Page>, p: int, s: int) -> bool {
    &&& changed.len() == pages.len()
    &&& forall|q: int|
        0 <= q < pages.len() ==> {
            &&& (#[trigger] changed[q]).id == pages[q].id
            &&& changed[q].max_rows == pages[q].max_rows
            &&& changed[q].rows@.len() == pages[q].rows@.len()
        }
    &&& forall|q: int, t: int|
        0 <= q < pages.len() && 0 <= t < pages[q].rows@.len() && (q != p || t != s)
            ==> slot_view(#[trigger] changed[q].rows@[t]) == slot_view(pages[q].rows@[t])
}

/// Whatever is put into one slot of one page, the store changes in that slot
/// and nowhere else.
pub proof fn lemma_replace_any_slot(pages: Seq<Page>, capacity: nat, p: int, s: int)
    requires
        pages_wf(pages, capacity),
        0 <= p < pages.len(),
        0 <= s < pages[p].rows@.len(),
    ensures
        forall|changed: Seq<Page>|
            agree_except(pages, changed, p, s) ==> pages_wf(changed, capacity)
                && #[trigger] all_slots(changed) == all_slots(pages).update(
                p * capacity + s,
                slot_view(changed[p].rows@[s]),
            ),
{
    assert forall|changed: Seq<Page>| agree_except(pages, changed, p, s) implies pages_wf(
        changed,
        capacity,
    ) && #[trigger] all_slots(changed) == all_slots(pages).update(
        p * capacity + s,
        slot_view(changed[p].rows@[s]),
    ) by {
        let slot = slot_view(changed[p].rows@[s]);
        assert(changed[p].slots() =~= pages[p].slots().update(s, slot));
        assert(pages_wf(changed, capacity)) by {
            assert forall|q: int| 0 <= q < changed.len() implies (#[trigger] changed[q]).id == q
                && changed[q].max_rows == capacity && 0 < changed[q].rows@.len() <= capacity by {
                assert(pages[q].id == q);
            }
            assert forall|q: int| 0 <= q < changed.len() - 1 implies (
            #[trigger] changed[q]).rows@.len() == capacity by {
                assert(pages[q].rows@.len() == capacity);
            }
        }
        lemma_all_slots_len(pages, capacity);
        lemma_all_slots_len(changed, capacity);
        lemma_slot_at(pages, capacity, p, s);
        let target = p * capacity + s;
        assert forall|id: int| 0 <= id < all_slots(pages).len() implies all_slots(changed)[id]
            == all_slots(pages).update(target, slot)[id] by {
            lemma_locate(pages, capacity, id);
            lemma_locate(changed, capacity, id);
            let q = id / (capacity as int);
            let t = id % (capacity as int);
            lemma_split_id(p, s, capacity as int);
            if q != p || t != s {
                assert(id != target);
                assert(slot_view(changed[q].rows@[t]) == slot_view(pages[q].rows@[t]));
            }
        }
        assert(all_slots(changed) =~= all_slots(pages).update(target, slot));
    }
}

/// Pages that hold the same in every slot make the same store.
pub proof fn lemma_replace_no_slot(pages: Seq<Page>, capacity: nat)
    requires
        pages_wf(pages, capacity),
    ensures
        forall|changed: Seq<Page>|
            agree_except(pages, changed, -1, -1) ==> pages_wf(changed, capacity)
                && #[trigger] all_slots(changed) == all_slots(pages),
{
    assert forall|changed: Seq<Page>| agree_except(pages, changed, -1, -1) implies pages_wf(
        changed,
        capacity,
    ) && #[trigger] all_slots(changed) == all_slots(pages) by {
        assert forall|q: int| 0 <= q < pages.len() implies (#[trigger] changed[q]).slots()
            == pages[q].slots() by {
            assert(changed[q].slots() =~= pages[q].slots());
        }
        lemma_same_slots(pages, changed, capacity);
    }
}

/// Whether `found` lists the rows of `slots` with their positions, in
/// ascending order of position.
pub open spec fn is_scan_of(found: Seq<(usize, &Row)>, slots: Seq<SlotView>) -> bool {
    &&& found.len() == live_ids(slots).len()
    &&& forall|k: int|
        0 <= k < found.len() ==> {
            &&& (#[trigger] found[k]).0 == live_ids(slots)[k]
            &&& slots[live_ids(slots)[k] as int] == Some(found[k].1@)
        }
}

/// The pages before page `p` are all full.
pub proof fn lemma_all_slots_take(pages: Seq<Page>, capacity: nat, p: int)
    requires
        pages_wf(pages, capacity),
        0 <= p < pages.len(),
    ensures
        all_slots(pages.take(p)).len() == p * capacity,
        pages[p].id == p,
        pages[p].rows@.len() <= capacity,
        pages[p].slots().len() == pages[p].rows@.len(),
    decreases p,
{
    if p == 0 {
        assert(pages.take(0) =~= Seq::<Page>::empty());
        assert(0 * capacity == 0) by (nonlinear_arith);
    } else {
        lemma_all_slots_take(pages, capacity, p - 1);
        assert(pages.take(p).drop_last() =~= pages.take(p - 1));
        assert(pages.take(p).last() == pages[p - 1]);
        assert(pages[p - 1].rows@.len() == capacity);
        assert(pages[p - 1].slots().len() == capacity);
        assert((p - 1) * capacity + capacity == p * capacity) by (nonlinear_arith);
    }
}

/// The slot limit fits the machine word.
pub proof fn lemma_slot_limit(capacity: nat)
    ensures
        slot_limit(capacity) <= usize::MAX,
{
    if capacity > 0 {
        lemma_fundamental_div_mod(usize::MAX as int, capacity as int);
        lemma_mod_bound(usize::MAX as int, capacity as int);
        assert((usize::MAX as nat / capacity) * capacity == capacity * (usize::MAX as nat
            / capacity)) by (nonlinear_arith);
    }
}

/// Whole pages of `capacity` slots never exceed the slot limit while their
/// number fits.
pub proof fn lemma_pages_within_limit(n: nat, capacity: nat)
    requires
        capacity > 0,
        n * capacity <= usize::MAX,
    ensures
        n * capacity <= slot_limit(capacity),
{
    let q = usize::MAX as nat / capacity;
    assert(n <= q) by {
        lemma_div_is_ordered((n * capacity) as int, usize::MAX as int, capacity as int);
        lemma_div_by_multiple(n as int, capacity as int);
    }
    assert(n * capacity <= q * capacity) by (nonlinear_arith)
        requires
            n <= q,
    ;
}

/// `n` full pages leave room for another exactly when `n` is below the number
/// of pages that fit.
pub proof fn lemma_page_count_limit(n: nat, capacity: nat)
    requires
        capacity > 0,
    ensures
        (n < usize::MAX as nat / capacity) <==> (n * capacity < slot_limit(capacity)),
        n < usize::MAX as nat / capacity ==> (n + 1) * capacity <= usize::MAX,
{
    let q = usize::MAX as nat / capacity;
    if n < q {
        assert(n * capacity < q * capacity) by (nonlinear_arith)
            requires
                n < q,
                capacity > 0,
        ;
        assert((n + 1) * capacity <= q * capacity) by (nonlinear_arith)
            requires
                n + 1 <= q,
        ;
        lemma_fundamental_div_mod(usize::MAX as int, capacity as int);
        lemma_mod_bound(usize::MAX as int, capacity as int);
        assert(q * capacity == capacity * q) by (nonlinear_arith);
    } else {
        assert(n * capacity >= q * capacity) by (nonlinear_arith)
            requires
                n >= q,
        ;
    }
}

/// The row store: pages filled one after the other.
#[derive(Debug)]
pub struct PageManager {
    pages: Vec<Page>,
    max_rows_per_page: usize,
}

impl View for PageManager {
    type V = Seq<SlotView>;

    /// Every slot handed out so far, by row identifier.
    closed spec fn view(&self) -> Seq<SlotView> {
        all_slots(self.pages@)
    }
}

impl PageManager {
    /// The number of slots in each page.
    pub closed spec fn capacity(&self) -> nat {
        self.max_rows_per_page as nat
    }

    /// The pages are numbered in order and filled in order, and every slot
    /// number fits the machine word.
    pub closed spec fn wf(&self) -> bool {
        &&& pages_wf(self.pages@, self.max_rows_per_page as nat)
        &&& self.pages@.len() * self.max_rows_per_page <= usize::MAX
    }

    /// A well-formed store has a capacity and is within its limit.
    pub proof fn lemma_wf(&self)
        requires
            self.wf(),
        ensures
            self.capacity() > 0,
            self@.len() <= slot_limit(self.capacity()),
            self@.len() <= usize::MAX,
    {
        lemma_slot_limit(self.max_rows_per_page as nat);
        let cap = self.max_rows_per_page as nat;
        let n = self.pages@.len();
        lemma_all_slots_len(self.pages@, cap);
        assert(self@.len() <= n * cap) by {
            if n > 0 {
                assert((n - 1) * cap + cap == n * cap) by (nonlinear_arith);
            }
        }
        lemma_pages_within_limit(n, cap);
    }

    /// An empty store with pages of `max_rows_per_page` slots.
    pub fn new(max_rows_per_page: usize) -> (res: Self)
        requires
            max_rows_per_page > 0,
        ensures
            res.wf(),
            res.capacity() == max_rows_per_page,
            res@ == Seq::<SlotView>::empty(),
    {
        assert(0 * max_rows_per_page == 0) by (nonlinear_arith);
        Self { pages: Vec::new(), max_rows_per_page }
    }

    /// Whether one more row can be stored.
    pub fn has_room(&self) -> (res: bool)
        requires
            self.wf(),
        ensures
            res == (self@.len() < slot_limit(self.capacity())),
    {
        let n = self.pages.len();
        let cap = self.max_rows_per_page;
        proof {
            lemma_all_slots_len(self.pages@, cap as nat);
            lemma_pages_within_limit(n as nat, cap as nat);
            assert(n > 0 ==> (n - 1) * cap + cap == n * cap) by (nonlinear_arith);
        }
        if n > 0 && !self.pages[n - 1].is_full() {
            true
        } else {
            proof {
                assert(self@.len() == n * cap) by {
                    if n == 0 {
                        assert(0 * cap == 0) by (nonlinear_arith);
                    }
                }
                lemma_page_count_limit(n as nat, cap as nat);
            }
            n < usize::MAX / cap
        }
    }

    /// Stores `row` in the next free slot and gives the page number and the
    /// slot in the page. Pages fill in order, so the page with free capacity
    /// is the last one; when it is full, a new page is added.
    pub fn insert(&mut self, row: Row) -> (res: (usize, usize))
        requires
            old(self).wf(),
            old(self)@.len() < slot_limit(old(self).capacity()),
        ensures
            final(self).wf(),
            final(self).capacity() == old(self).capacity(),
            final(self)@ == old(self)@.push(Some(row@)),
            res.1 < old(self).capacity(),
            res.0 * old(self).capacity() + res.1 == old(self)@.len(),
    {
        let n = self.pages.len();
        let cap = self.max_rows_per_page;
        proof {
            lemma_all_slots_len(self.pages@, cap as nat);
            assert(n > 0 ==> (n - 1) * cap + cap == n * cap) by (nonlinear_arith);
        }
        if n > 0 && !self.pages[n - 1].is_full() {
            let ghost before = self.pages@;
            let row_index = self.pages[n - 1].rows.len();
            let page = &mut self.pages[n - 1];
            page.insert(row);
            proof {
                let after = self.pages@;
                assert(after.drop_last() =~= before.drop_last());
                assert(pages_wf(after, cap as nat)) by {
                    assert forall|p: int| 0 <= p < after.len() implies (#[trigger] after[p]).id
                        == p && after[p].max_rows == cap as nat && 0 < after[p].rows@.len()
                        <= cap as nat by {
                        if p < n - 1 {
                            assert(after[p] == before[p]);
                        }
                    }
                    assert forall|p: int| 0 <= p < after.len() - 1 implies (
                    #[trigger] after[p]).rows@.len() == cap as nat by {
                        assert(after[p] == before[p]);
                    }
                }
                assert(self@ =~= old(self)@.push(Some(row@)));
            }
            (n - 1, row_index)
        } else {
            proof {
                assert(self@.len() == n * cap) by {
                    if n == 0 {
                        assert(0 * cap == 0) by (nonlinear_arith);
                    }
                }
                lemma_page_count_limit(n as nat, cap as nat);
                lemma_pages_within_limit((n + 1) as nat, cap as nat);
            }
            let ghost before = self.pages@;
            let mut page = Page::new(n, cap);
            page.insert(row);
            self.pages.push(page);
            proof {
                let after = self.pages@;
                assert(after.drop_last() =~= before);
                assert(pages_wf(after, cap as nat)) by {
                    assert forall|p: int| 0 <= p < after.len() implies (#[trigger] after[p]).id
                        == p && after[p].max_rows == cap as nat && 0 < after[p].rows@.len()
                        <= cap as nat by {
                        if p < n {
                            assert(after[p] == before[p]);
                        }
                    }
                    assert forall|p: int| 0 <= p < after.len() - 1 implies (
                    #[trigger] after[p]).rows@.len() == cap as nat by {
                        assert(after[p] == before[p]);
                        if n > 0 && p == n - 1 {
                            assert(before[p].rows@.len() >= cap);
                        }
                    }
                }
                assert(self@ =~= old(self)@.push(Some(row@)));
            }
            (n, 0)
        }
    }

    /// The row with identifier `row_id`, if it was stored and not deleted since.
    pub fn get(&self, row_id: usize) -> (res: Option<&Row>)
        requires
            self.wf(),
        ensures
            match res {
                Some(row) => row_id < self@.len() && self@[row_id as int] == Some(row@),
                None => row_id >= self@.len() || self@[row_id as int] is None,
            },
    {
        let page_id = row_id / self.max_rows_per_page;
        let row_index = row_id % self.max_rows_per_page;
        proof {
            lemma_locate(self.pages@, self.max_rows_per_page as nat, row_id as int);
        }
        if page_id < self.pages.len() {
            self.pages[page_id].get(row_index)
        } else {
            None
        }
    }

    /// The row with identifier `row_id`, for changing its values in place.
    pub fn get_mut(&mut self, row_id: usize) -> (res: Option<&mut Row>)
        requires
            old(self).wf(),
        ensures
            final(self).wf(),
            final(self).capacity() == old(self).capacity(),
            match res {
                Some(row) => row_id < old(self)@.len() && old(self)@[row_id as int] == Some(row@)
                    && final(self)@ == old(self)@.update(row_id as int, Some(final(row)@)),
                None => (row_id >= old(self)@.len() || old(self)@[row_id as int] is None)
                    && final(self)@ == old(self)@,
            },
    {
        let page_id = row_id / self.max_rows_per_page;
        let row_index = row_id % self.max_rows_per_page;
        proof {
            lemma_locate(self.pages@, self.max_rows_per_page as nat, row_id as int);
        }
        if page_id < self.pages.len() {
            proof {
                if row_index < self.pages@[page_id as int].rows@.len() {
                    lemma_replace_any_slot(
                        self.pages@,
                        self.max_rows_per_page as nat,
                        page_id as int,
                        row_index as int,
                    );
                } else {
                    lemma_replace_no_slot(self.pages@, self.max_rows_per_page as nat);
                }
            }
            self.pages[page_id].get_mut(row_index)
        } else {
            None
        }
    }

    /// Deletes the row with identifier `row_id` and hands it out. Its slot
    /// stays behind empty, so no other row's identifier changes and the
    /// identifier is not given out again.
    pub fn delete(&mut self, row_id: usize) -> (res: Option<Row>)
        requires
            old(self).wf(),
        ensures
            final(self).wf(),
            final(self).capacity() == old(self).capacity(),
            match res {
                Some(row) => row_id < old(self)@.len() && old(self)@[row_id as int] == Some(row@)
                    && final(self)@ == old(self)@.update(row_id as int, None),
                None => (row_id >= old(self)@.len() || old(self)@[row_id as int] is None)
                    && final(self)@ == old(self)@,
            },
    {
        let page_id = row_id / self.max_rows_per_page;
        let row_index = row_id % self.max_rows_per_page;
        proof {
            lemma_locate(self.pages@, self.max_rows_per_page as nat, row_id as int);
        }
        if page_id < self.pages.len() {
            let res = self.pages[page_id].delete(row_index);
            proof {
                if res is Some {
                    lemma_replace_slot(
                        old(self).pages@,
                        self.pages@,
                        self.max_rows_per_page as nat,
                        page_id as int,
                        row_index as int,
                        None,
                    );
                } else {
                    assert(self.pages@[page_id as int].slots() == old(self).pages@[page_id as int].slots());
                    lemma_same_slots(old(self).pages@, self.pages@, self.max_rows_per_page as nat);
                }
            }
            res
        } else {
            None
        }
    }

    /// Every stored row with its identifier, in ascending order of identifier:
    /// page by page, slot by slot.
    pub fn scan(&self) -> (res: Vec<(usize, &Row)>)
        requires
            self.wf(),
        ensures
            is_scan_of(res@, self@),
    {
        let mut results: Vec<(usize, &Row)> = Vec::new();
        let n = self.pages.len();
        let cap = self.max_rows_per_page;
        let mut p: usize = 0;
        proof {
            assert(self.pages@.take(0) =~= Seq::<Page>::empty());
        }
        while p < n
            invariant
                self.wf(),
                n == self.pages@.len(),
                cap == self.max_rows_per_page,
                p <= n,
                is_scan_of(results@, all_slots(self.pages@.take(p as int))),
            decreases n - p,
        {
            let page = &self.pages[p];
            let ghost before = all_slots(self.pages@.take(p as int));
            proof {
                lemma_all_slots_take(self.pages@, cap as nat, p as int);
                assert(self.pages@.take(p + 1).drop_last() =~= self.pages@.take(p as int));
                assert(before + page.slots().take(0) =~= before);
                assert(p * cap + cap <= n * cap) by (nonlinear_arith)
                    requires
                        p < n,
                ;
            }
            let mut row_index: usize = 0;
            while row_index < page.rows.len()
                invariant
                    self.wf(),
                    p < n,
                    n == self.pages@.len(),
                    cap == self.max_rows_per_page,
                    *page == self.pages@[p as int],
                    row_index <= page.rows@.len(),
                    page.rows@.len() <= cap,
                    page.id == p,
                    before.len() == p * cap,
                    p * cap + cap <= usize::MAX,
                    is_scan_of(results@, before + page.slots().take(row_index as int)),
                decreases page.rows@.len() - row_index,
            {
                let ghost done = before + page.slots().take(row_index as int);
                proof {
                    assert(before + page.slots().take(row_index + 1) =~= done.push(
                        page.slots()[row_index as int],
                    ));
                    assert(done.push(page.slots()[row_index as int]).drop_last() =~= done);
                }
                let ghost found = results@;
                if let Some(row) = page.get(row_index) {
                    let row_id = page.id * cap + row_index;
                    results.push((row_id, row));
                }
                proof {
                    let next = done.push(page.slots()[row_index as int]);
                    lemma_live_ids(done);
                    assert(done.len() == p * cap + row_index);
                    assert forall|k: int| 0 <= k < results@.len() implies (
                    #[trigger] results@[k]).0 == live_ids(next)[k] && next[live_ids(
                        next,
                    )[k] as int] == Some(results@[k].1@) by {
                        if k < found.len() {
                            assert(results@[k] == found[k]);
                            assert(live_ids(next)[k] == live_ids(done)[k]);
                        }
                    }
                }
                row_index += 1;
            }
            proof {
                assert(page.slots().take(row_index as int) =~= page.slots());
            }
            p += 1;
        }
        proof {
            assert(self.pages@.take(p as int) =~= self.pages@);
        }
        results
    }

    /// The number of rows in the store.
    pub fn total_rows(&self) -> (res: usize)
        requires
            self.wf(),
        ensures
            res == live_count(self@),
    {
        let n = self.pages.len();
        let mut total: usize = 0;
        let mut p: usize = 0;
        proof {
            assert(self.pages@.take(0) =~= Seq::<Page>::empty());
        }
        while p < n
            invariant
                self.wf(),
                n == self.pages@.len(),
                p <= n,
                total == live_count(all_slots(self.pages@.take(p as int))),
            decreases n - p,
        {
            proof {
                let cap = self.max_rows_per_page as nat;
                lemma_all_slots_take(self.pages@, cap, p as int);
                assert(self.pages@.take(p + 1).drop_last() =~= self.pages@.take(p as int));
                lemma_live_count_concat(
                    all_slots(self.pages@.take(p as int)),
                    self.pages@[p as int].slots(),
                );
                lemma_live_count_bound(all_slots(self.pages@.take(p as int)));
                lemma_live_count_bound(self.pages@[p as int].slots());
                assert(p * cap + cap <= n * cap) by (nonlinear_arith)
                    requires
                        p < n,
                ;
            }
            total = total + self.pages[p].len();
            p += 1;
        }
        proof {
            assert(self.pages@.take(p as int) =~= self.pages@);
        }
        total
    }
}

} // verus!
