//! A record paired with a signed multiplicity.

use std::cmp::Ordering;
use vstd::prelude::*;
use vstd::std_specs::cmp::{PartialEqSpec, PartialEqSpecImpl, PartialOrdSpec, PartialOrdSpecImpl};

verus! {

/// One record together with its multiplicity: positive for insertions,
/// negative for retractions, zero for a record that is logically absent.
#[derive(Debug)]
pub struct MultiSet<T> where T: Eq + PartialEq + Ord + PartialOrd {
    pub record: T,
    pub multiplicity: i32,
}

impl<T> MultiSet<T> where T: Eq + PartialEq + Ord + PartialOrd {
    /// Pairs `record` with `multiplicity`.
    pub fn new(record: T, multiplicity: i32) -> (pair: MultiSet<T>)
        ensures
            pair.record == record,
            pair.multiplicity == multiplicity,
    {
        MultiSet { record: record, multiplicity: multiplicity }
    }
}

impl<T> Clone for MultiSet<T> where T: Clone + Eq + PartialEq + Ord + PartialOrd {
    /// The copy carries a clone of the record and the same multiplicity.
    fn clone(&self) -> (copy: Self)
        ensures
            cloned(self.record, copy.record),
            copy.multiplicity == self.multiplicity,
    {
        MultiSet { record: self.record.clone(), multiplicity: self.multiplicity }
    }
}

impl<T> PartialEq for MultiSet<T> where T: Eq + PartialEq + Ord + PartialOrd {
    fn eq(&self, other: &Self) -> (same: bool) {
        self.record == other.record && self.multiplicity == other.multiplicity
    }
}

impl<T> PartialEqSpecImpl for MultiSet<T> where T: Eq + PartialEq + Ord + PartialOrd {
    open spec fn obeys_eq_spec() -> bool {
        T::obeys_eq_spec()
    }

    /// Two pairs are equal when both the records and the multiplicities are.
    open spec fn eq_spec(&self, other: &Self) -> bool {
        self.record.eq_spec(&other.record) && self.multiplicity == other.multiplicity
    }
}

impl<T> Eq for MultiSet<T> where T: Eq + PartialEq + Ord + PartialOrd {
}

impl<T> PartialOrd for MultiSet<T> where T: Eq + PartialEq + Ord + PartialOrd {
    fn partial_cmp(&self, other: &Self) -> (order: Option<Ordering>) {
        self.record.partial_cmp(&other.record)
    }
}

impl<T> PartialOrdSpecImpl for MultiSet<T> where T: Eq + PartialEq + Ord + PartialOrd {
    open spec fn obeys_partial_cmp_spec() -> bool {
        T::obeys_partial_cmp_spec()
    }

    /// Pairs are ordered by record alone; the multiplicity takes no part.
    open spec fn partial_cmp_spec(&self, other: &Self) -> Option<Ordering> {
        self.record.partial_cmp_spec(&other.record)
    }
}

} // verus!
