//! What the algebra asks of a record type, the order on pairs that makes
//! results deterministic, and a sort by that order.

use crate::multiset::MultiSet;
use std::cmp::Ordering;
use vstd::prelude::*;
use vstd::std_specs::cmp::{PartialEqSpec, PartialOrdSpec};

verus! {

/// `x` comes strictly before `y` in the order of the record type.
pub open spec fn precedes<T: Ord>(x: T, y: T) -> bool {
    x.partial_cmp_spec(&y) == Some(Ordering::Less)
}

/// The record type keeps its side of the bargain: `==` is equality, a clone
/// equals its source, and `<` is a strict total order.
pub open spec fn lawful<T: Ord + Clone>() -> bool {
    &&& T::obeys_eq_spec()
    &&& T::obeys_partial_cmp_spec()
    &&& forall|x: T, y: T| #[trigger] x.eq_spec(&y) <==> x == y
    &&& forall|x: T, y: T| #[trigger] cloned(x, y) ==> x == y
    &&& forall|x: T, y: T| #[trigger] precedes(x, y) ==> !precedes(y, x) && x != y
    &&& forall|x: T, y: T| #![trigger precedes(x, y)] x == y || precedes(x, y) || precedes(y, x)
    &&& forall|x: T, y: T, z: T| #[trigger]
        precedes(x, y) && #[trigger] precedes(y, z) ==> precedes(x, z)
}

/// `i32` records are lawful.
pub proof fn lemma_i32_lawful()
    ensures
        lawful::<i32>(),
{
}

/// `i64` records are lawful.
pub proof fn lemma_i64_lawful()
    ensures
        lawful::<i64>(),
{
}

/// `u32` records are lawful.
pub proof fn lemma_u32_lawful()
    ensures
        lawful::<u32>(),
{
}

/// `u64` records are lawful.
pub proof fn lemma_u64_lawful()
    ensures
        lawful::<u64>(),
{
}

/// Pair `a` comes no later than pair `b`: by record first, then by
/// multiplicity.
pub open spec fn pair_le<T: Ord>(a: MultiSet<T>, b: MultiSet<T>) -> bool {
    precedes(a.record, b.record) || (a.record == b.record && a.multiplicity <= b.multiplicity)
}

/// The pairs of `s` stand in ascending order of record and multiplicity.
pub open spec fn ascending<T: Ord>(s: Seq<MultiSet<T>>) -> bool {
    forall|i: int, j: int| 0 <= i < j < s.len() ==> pair_le(#[trigger] s[i], #[trigger] s[j])
}

/// The pairs of `s` stand in strictly ascending order of record, so that no
/// record stands in two of them.
pub open spec fn strictly_ascending<T: Ord>(s: Seq<MultiSet<T>>) -> bool {
    forall|i: int, j: int|
        0 <= i < j < s.len() ==> precedes((#[trigger] s[i]).record, (#[trigger] s[j]).record)
}

/// Whether `a < b`.
pub(crate) fn record_lt<T: Ord + Clone>(a: &T, b: &T) -> (r: bool)
    ensures
        lawful::<T>() ==> r == precedes(*a, *b),
{
    *a < *b
}

/// Whether `a == b`.
pub(crate) fn record_eq<T: Ord + Clone>(a: &T, b: &T) -> (r: bool)
    ensures
        lawful::<T>() ==> r == (*a == *b),
{
    *a == *b
}

/// A clone of `a`.
pub(crate) fn record_clone<T: Ord + Clone>(a: &T) -> (r: T)
    ensures
        lawful::<T>() ==> r == *a,
{
    let r = a.clone();
    assert(cloned(*a, r));
    r
}

/// Whether pair `a` comes strictly before pair `b`, that is, whether `b` does
/// not come before or beside `a`.
pub(crate) fn pair_before<T: Ord + Clone>(a: &MultiSet<T>, b: &MultiSet<T>) -> (r: bool)
    ensures
        lawful::<T>() ==> r == !pair_le(*b, *a),
{
    if record_lt(&a.record, &b.record) {
        true
    } else if record_eq(&a.record, &b.record) {
        a.multiplicity < b.multiplicity
    } else {
        proof {
            if lawful::<T>() {
                assert(!precedes(a.record, b.record));
            }
        }
        false
    }
}

/// Over a lawful record type the order on pairs is total.
pub proof fn lemma_pair_le_total<T: Ord + Clone>()
    requires
        lawful::<T>(),
    ensures
        vstd::relations::total_ordering(|a: MultiSet<T>, b: MultiSet<T>| pair_le(a, b)),
{
    let leq = |a: MultiSet<T>, b: MultiSet<T>| pair_le(a, b);
    assert forall|a: MultiSet<T>, b: MultiSet<T>| #[trigger] leq(a, b) || #[trigger] leq(b, a) by {
        assert(a.record == b.record || precedes(a.record, b.record) || precedes(
            b.record,
            a.record,
        ));
    }
    assert forall|a: MultiSet<T>, b: MultiSet<T>| #[trigger] leq(a, b) && #[trigger] leq(b, a)
        implies a == b by {
        if precedes(a.record, b.record) {
            assert(!precedes(b.record, a.record));
        }
    }
    assert forall|a: MultiSet<T>, b: MultiSet<T>, c: MultiSet<T>| #[trigger]
        leq(a, b) && #[trigger] leq(b, c) implies leq(a, c) by {
        if precedes(a.record, b.record) && precedes(b.record, c.record) {
            assert(precedes(a.record, c.record));
        }
    }
    assert forall|a: MultiSet<T>| #[trigger] leq(a, a) by {}
}

/// Two ascending sequences that hold the same pairs, each as often as the
/// other, are the same sequence.
pub proof fn lemma_ascending_unique<T: Ord + Clone>(x: Seq<MultiSet<T>>, y: Seq<MultiSet<T>>)
    requires
        lawful::<T>(),
        ascending(x),
        ascending(y),
        x.to_multiset() == y.to_multiset(),
    ensures
        x == y,
{
    let leq = |a: MultiSet<T>, b: MultiSet<T>| pair_le(a, b);
    lemma_pair_le_total::<T>();
    assert(vstd::relations::sorted_by(x, leq));
    assert(vstd::relations::sorted_by(y, leq));
    vstd::seq_lib::lemma_sorted_unique(x, y, leq);
}

/// Sorts pairs by record and, among equal records, by multiplicity.
pub fn sort_pairs<T: Ord + Clone>(pairs: Vec<MultiSet<T>>) -> (out: Vec<MultiSet<T>>)
    ensures
        out@.to_multiset() == pairs@.to_multiset(),
        lawful::<T>() ==> ascending(out@),
{
    broadcast use {vstd::seq_lib::group_to_multiset_ensures, vstd::multiset::group_multiset_axioms};

    let ghost all = pairs@.to_multiset();
    let mut rest = pairs;
    let mut out: Vec<MultiSet<T>> = Vec::new();
    while rest.len() > 0
        invariant
            out@.to_multiset().add(rest@.to_multiset()) == all,
            lawful::<T>() ==> ascending(out@),
        decreases rest.len(),
    {
        let ghost before = rest@;
        let ghost sorted = out@;
        let next = rest.pop().unwrap();
        proof {
            assert(before =~= rest@.push(next));
        }
        let mut at: usize = 0;
        while at < out.len() && pair_before(&out[at], &next)
            invariant
                at <= out.len(),
                out@ == sorted,
                lawful::<T>() ==> forall|k: int| 0 <= k < at ==> pair_le(#[trigger] out@[k], next),
            decreases out.len() - at,
        {
            at += 1;
        }
        out.insert(at, next);
        proof {
            assert(out@ == sorted.insert(at as int, next));
            vstd::seq_lib::to_multiset_build(rest@, next);
            vstd::seq_lib::to_multiset_insert(sorted, at as int, next);
            assert(out@.to_multiset().add(rest@.to_multiset()) =~= all);
            if lawful::<T>() {
                lemma_pair_le_total::<T>();
                assert forall|i: int, j: int| 0 <= i < j < out@.len() implies pair_le(
                    #[trigger] out@[i],
                    #[trigger] out@[j],
                ) by {
                    if j < at {
                    } else if j == at {
                    } else if i < at {
                        assert(pair_le(sorted[i], next));
                        assert(pair_le(next, sorted[at as int]));
                        assert(pair_le(sorted[at as int], sorted[j - 1]) || at == j - 1);
                    } else if i == at {
                        assert(pair_le(next, sorted[at as int]));
                        assert(pair_le(sorted[at as int], sorted[j - 1]) || at == j - 1);
                    } else {
                    }
                }
            }
        }
    }
    proof {
        assert(rest@ =~= Seq::empty());
        assert(out@.to_multiset().add(rest@.to_multiset()) =~= out@.to_multiset());
    }
    out
}

} // verus!
