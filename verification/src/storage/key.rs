//! Index keys: values under the total order that an index is sorted by.

use std::cmp::Ordering;
use vstd::prelude::*;
use vstd::std_specs::cmp::{PartialEqSpecImpl, PartialOrdSpecImpl};
use super::order::key_lt;
use super::{Value, ValueView};

verus! {

/// How two keys stand to each other in the key order. Any two keys are
/// ordered: keys of different kinds by their kind, keys of one kind by
/// their content.
pub open spec fn key_order(a: ValueView, b: ValueView) -> Ordering {
    if key_lt(a, b) {
        Ordering::Less
    } else if key_lt(b, a) {
        Ordering::Greater
    } else {
        Ordering::Equal
    }
}

/// A value as an index key.
#[derive(Debug)]
pub struct IndexKey(pub Value);

impl View for IndexKey {
    type V = ValueView;

    open spec fn view(&self) -> ValueView {
        self.0@
    }
}

impl Clone for IndexKey {
    fn clone(&self) -> (res: Self)
        ensures
            res@ == self@,
    {
        IndexKey(self.0.clone())
    }
}

impl PartialEq for IndexKey {
    fn eq(&self, other: &Self) -> (res: bool) {
        self.0 == other.0
    }
}

impl PartialEqSpecImpl for IndexKey {
    open spec fn obeys_eq_spec() -> bool {
        true
    }

    open spec fn eq_spec(&self, other: &Self) -> bool {
        self@ == other@
    }
}

impl Eq for IndexKey {}

impl PartialOrd for IndexKey {
    fn partial_cmp(&self, other: &Self) -> (res: Option<Ordering>) {
        if self.0.precedes(&other.0) {
            Some(Ordering::Less)
        } else if other.0.precedes(&self.0) {
            Some(Ordering::Greater)
        } else {
            Some(Ordering::Equal)
        }
    }
}

impl PartialOrdSpecImpl for IndexKey {
    open spec fn obeys_partial_cmp_spec() -> bool {
        true
    }

    open spec fn partial_cmp_spec(&self, other: &Self) -> Option<Ordering> {
        Some(key_order(self@, other@))
    }
}

impl IndexKey {
    /// Whether this key comes strictly before `other`.
    pub fn precedes(&self, other: &IndexKey) -> (res: bool)
        ensures
            res == key_lt(self@, other@),
    {
        self.0.precedes(&other.0)
    }
}

} // verus!
