//! The mathematical reading of a collection: what its groups are, what a
//! record's net multiplicity is, and what the operators produce.

use crate::multiset::MultiSet;
use crate::order::{ascending, lawful, precedes, strictly_ascending};
use vstd::prelude::*;

verus! {

/// The pairs of `s` whose flag in `keep` is set, in their order in `s`.
pub open spec fn retained<T: Ord>(s: Seq<MultiSet<T>>, keep: Seq<bool>) -> Seq<MultiSet<T>>
    recommends
        keep.len() == s.len(),
    decreases s.len(),
{
    if s.len() == 0 || keep.len() == 0 {
        Seq::empty()
    } else {
        let head = retained(s.drop_last(), keep.drop_last());
        if keep.last() {
            head.push(s.last())
        } else {
            head
        }
    }
}

/// The group of record `r`: one entry for each pair of `s` with that record,
/// in the order of `s`, multiplicities not yet summed.
pub open spec fn group_of<T: Ord>(s: Seq<MultiSet<T>>, r: T) -> Seq<(T, i32)>
    decreases s.len(),
{
    if s.len() == 0 {
        Seq::empty()
    } else {
        let head = group_of(s.drop_last(), r);
        if s.last().record == r {
            head.push((r, s.last().multiplicity))
        } else {
            head
        }
    }
}

/// The sum of the multiplicities of the entries of `g`.
pub open spec fn total<T>(g: Seq<(T, i32)>) -> int
    decreases g.len(),
{
    if g.len() == 0 {
        0
    } else {
        total(g.drop_last()) + g.last().1
    }
}

/// How many pairs of `s` carry record `r`.
pub open spec fn occurrences<T: Ord>(s: Seq<MultiSet<T>>, r: T) -> nat {
    group_of(s, r).len()
}

/// The net multiplicity of `r` in `s`: the sum over all pairs that carry it.
pub open spec fn net<T: Ord>(s: Seq<MultiSet<T>>, r: T) -> int {
    total(group_of(s, r))
}

/// Some pair of `s` carries record `r`.
pub open spec fn has_record<T: Ord>(s: Seq<MultiSet<T>>, r: T) -> bool {
    exists|i: int| 0 <= i < s.len() && (#[trigger] s[i]).record == r
}

/// The records of `s`, each once, in the order of their first appearance.
pub open spec fn keys<T: Ord>(s: Seq<MultiSet<T>>) -> Seq<T>
    decreases s.len(),
{
    if s.len() == 0 {
        Seq::empty()
    } else {
        let head = keys(s.drop_last());
        if head.contains(s.last().record) {
            head
        } else {
            head.push(s.last().record)
        }
    }
}

/// The entries of `g` as pairs.
pub open spec fn as_pairs<T: Ord>(g: Seq<(T, i32)>) -> Seq<MultiSet<T>> {
    Seq::new(g.len(), |i: int| MultiSet { record: g[i].0, multiplicity: g[i].1 })
}

/// The entries of all of `outs`, one list after the other, as pairs.
pub open spec fn flatten<T: Ord>(outs: Seq<Seq<(T, i32)>>) -> Seq<MultiSet<T>>
    decreases outs.len(),
{
    if outs.len() == 0 {
        Seq::empty()
    } else {
        as_pairs(outs.first()) + flatten(outs.drop_first())
    }
}

/// The views of a sequence of vectors.
pub open spec fn views<T>(lists: Seq<Vec<(T, i32)>>) -> Seq<Seq<(T, i32)>> {
    Seq::new(lists.len(), |i: int| lists[i]@)
}

/// A record is among the keys exactly when some pair carries it.
pub proof fn lemma_keys_cover<T: Ord>(s: Seq<MultiSet<T>>, r: T)
    ensures
        keys(s).contains(r) <==> has_record(s, r),
    decreases s.len(),
{
    if s.len() > 0 {
        let rest = s.drop_last();
        let head = keys(rest);
        let last = s.last().record;
        lemma_keys_cover(rest, r);
        if has_record(s, r) {
            let i = choose|i: int| 0 <= i < s.len() && (#[trigger] s[i]).record == r;
            if i < s.len() - 1 {
                assert(rest[i].record == r);
                let k = choose|k: int| 0 <= k < head.len() && head[k] == r;
                assert(keys(s)[k] == r);
            } else if head.contains(last) {
            } else {
                assert(keys(s)[head.len() as int] == r);
            }
        }
        if keys(s).contains(r) {
            if head.contains(r) {
                let i = choose|i: int| 0 <= i < rest.len() && (#[trigger] rest[i]).record == r;
                assert(s[i].record == r);
            } else {
                assert(s[s.len() - 1].record == r);
            }
        }
    }
}

/// No record stands twice among the keys.
pub proof fn lemma_keys_distinct<T: Ord>(s: Seq<MultiSet<T>>)
    ensures
        keys(s).no_duplicates(),
    decreases s.len(),
{
    if s.len() > 0 {
        lemma_keys_distinct(s.drop_last());
    }
}

/// Every entry of a record's group carries that record, and the group of a
/// record that some pair carries is not empty.
pub proof fn lemma_group_entries<T: Ord>(s: Seq<MultiSet<T>>, r: T)
    ensures
        forall|k: int| 0 <= k < group_of(s, r).len() ==> (#[trigger] group_of(s, r)[k]).0 == r,
        has_record(s, r) ==> group_of(s, r).len() > 0,
    decreases s.len(),
{
    if s.len() > 0 {
        let rest = s.drop_last();
        let head = group_of(rest, r);
        lemma_group_entries(rest, r);
        if has_record(s, r) && s.last().record != r {
            let i = choose|i: int| 0 <= i < s.len() && (#[trigger] s[i]).record == r;
            assert(s[s.len() - 1].record != r);
            assert(rest[i].record == r);
        }
        assert forall|k: int| 0 <= k < group_of(s, r).len() implies (#[trigger] group_of(
            s,
            r,
        )[k]).0 == r by {
            if k < head.len() {
                assert(head[k].0 == r);
            }
        }
    }
}

/// A record that no pair carries has an empty group.
pub proof fn lemma_group_absent<T: Ord>(s: Seq<MultiSet<T>>, r: T)
    requires
        !has_record(s, r),
    ensures
        group_of(s, r).len() == 0,
    decreases s.len(),
{
    if s.len() > 0 {
        let rest = s.drop_last();
        assert(s[s.len() - 1].record != r);
        assert forall|i: int| 0 <= i < rest.len() implies (#[trigger] rest[i]).record != r by {
            assert(s[i].record != r);
        }
        lemma_group_absent(rest, r);
    }
}

/// `out` is `s` negated: pair for pair the same record, with the
/// multiplicity's sign flipped.
pub open spec fn negated<T: Ord>(out: Seq<MultiSet<T>>, s: Seq<MultiSet<T>>) -> bool {
    &&& out.len() == s.len()
    &&& forall|i: int|
        0 <= i < s.len() ==> (#[trigger] out[i]).record == s[i].record && out[i].multiplicity
            == -s[i].multiplicity
}

/// What pair `a` gives against `b`: one pair for each pair of `b` with the
/// record of `a`, in the order of `b`, whose multiplicity is the product of
/// the two.
pub open spec fn join_row<T: Ord>(a: MultiSet<T>, b: Seq<MultiSet<T>>) -> Seq<MultiSet<T>>
    decreases b.len(),
{
    if b.len() == 0 {
        Seq::empty()
    } else {
        let head = join_row(a, b.drop_last());
        if b.last().record == a.record {
            head.push(
                MultiSet {
                    record: a.record,
                    multiplicity: (a.multiplicity * b.last().multiplicity) as i32,
                },
            )
        } else {
            head
        }
    }
}

/// The join of `a` and `b`: one pair for each pair of `a` and each pair of
/// `b` with the same record, in the order of `a` and within that of `b`.
pub open spec fn joined<T: Ord>(a: Seq<MultiSet<T>>, b: Seq<MultiSet<T>>) -> Seq<MultiSet<T>>
    decreases a.len(),
{
    if a.len() == 0 {
        Seq::empty()
    } else {
        joined(a.drop_last(), b) + join_row(a.last(), b)
    }
}

/// `out` is the count of `s`: in strictly ascending order of record, one pair
/// for each record of `s`, whose multiplicity is the number of pairs of `s`
/// that carry the record.
pub open spec fn counted<T: Ord>(out: Seq<MultiSet<T>>, s: Seq<MultiSet<T>>) -> bool {
    &&& strictly_ascending(out)
    &&& forall|r: T| #[trigger] has_record(out, r) <==> has_record(s, r)
    &&& forall|i: int|
        0 <= i < out.len() ==> (#[trigger] out[i]).multiplicity == occurrences(s, out[i].record)
}

/// `out` is the sum of `s`: in strictly ascending order of record, one pair
/// for each record of `s`, whose multiplicity is the record's net
/// multiplicity in `s`.
pub open spec fn summed<T: Ord>(out: Seq<MultiSet<T>>, s: Seq<MultiSet<T>>) -> bool {
    &&& strictly_ascending(out)
    &&& forall|r: T| #[trigger] has_record(out, r) <==> has_record(s, r)
    &&& forall|i: int|
        0 <= i < out.len() ==> (#[trigger] out[i]).multiplicity == net(s, out[i].record)
}

/// `out` holds the distinct records of `s`: in strictly ascending order of
/// record, one pair for each record of `s`, with multiplicity 1.
pub open spec fn made_distinct<T: Ord>(out: Seq<MultiSet<T>>, s: Seq<MultiSet<T>>) -> bool {
    &&& strictly_ascending(out)
    &&& forall|r: T| #[trigger] has_record(out, r) <==> has_record(s, r)
    &&& forall|i: int| 0 <= i < out.len() ==> (#[trigger] out[i]).multiplicity == 1
}

/// `out` is `s` consolidated: in strictly ascending order of record, one pair
/// for each record whose net multiplicity in `s` is not zero, with that net
/// multiplicity.
pub open spec fn consolidated<T: Ord>(out: Seq<MultiSet<T>>, s: Seq<MultiSet<T>>) -> bool {
    &&& strictly_ascending(out)
    &&& forall|r: T| #[trigger] has_record(out, r) <==> has_record(s, r) && net(s, r) != 0
    &&& forall|i: int|
        0 <= i < out.len() ==> (#[trigger] out[i]).multiplicity == net(s, out[i].record)
}

/// What a group's reduction hands back when it gives at most one entry for
/// its record: the entry with the multiplicity that `emit` names, or nothing.
pub open spec fn emitted<T>(k: T, emit: spec_fn(T) -> Option<i32>) -> Seq<(T, i32)> {
    match emit(k) {
        Some(m) => seq![(k, m)],
        None => Seq::empty(),
    }
}

/// `out` holds, in strictly ascending order of record, one pair for each
/// record of `s` to which `emit` gives a multiplicity, with that
/// multiplicity, and nothing else.
pub open spec fn aggregates<T: Ord>(
    out: Seq<MultiSet<T>>,
    s: Seq<MultiSet<T>>,
    emit: spec_fn(T) -> Option<i32>,
) -> bool {
    &&& strictly_ascending(out)
    &&& forall|r: T| #[trigger] has_record(out, r) <==> has_record(s, r) && emit(r) is Some
    &&& forall|i: int|
        0 <= i < out.len() ==> emit((#[trigger] out[i]).record) == Some(out[i].multiplicity)
}

/// Where each key gives at most one entry, the flattened entries hold no pair
/// twice, and hold exactly the pairs that `emit` names for the keys.
pub proof fn lemma_flatten_emitted<T: Ord>(
    ks: Seq<T>,
    os: Seq<Seq<(T, i32)>>,
    emit: spec_fn(T) -> Option<i32>,
)
    requires
        ks.no_duplicates(),
        os.len() == ks.len(),
        forall|i: int| 0 <= i < ks.len() ==> #[trigger] os[i] == emitted(ks[i], emit),
    ensures
        flatten(os).no_duplicates(),
        forall|p: MultiSet<T>| #[trigger]
            flatten(os).contains(p) <==> ks.contains(p.record) && emit(p.record) == Some(
                p.multiplicity,
            ),
    decreases ks.len(),
{
    if ks.len() > 0 {
        let k0 = ks[0];
        let kt = ks.drop_first();
        let ot = os.drop_first();
        assert forall|i: int| 0 <= i < kt.len() implies #[trigger] ot[i] == emitted(
            kt[i],
            emit,
        ) by {
            assert(os[i + 1] == emitted(ks[i + 1], emit));
        }
        lemma_flatten_emitted(kt, ot, emit);
        let head = as_pairs(os[0]);
        let tail = flatten(ot);
        let full = head + tail;
        assert(os.first() == emitted(k0, emit));
        assert(flatten(os) == full);
        assert(!kt.contains(k0)) by {
            if kt.contains(k0) {
                let j = choose|j: int| 0 <= j < kt.len() && kt[j] == k0;
                assert(ks[j + 1] == k0);
            }
        }
        assert forall|p: MultiSet<T>| #[trigger]
            full.contains(p) <==> ks.contains(p.record) && emit(p.record) == Some(
                p.multiplicity,
            ) by {
            if full.contains(p) {
                let i = choose|i: int| 0 <= i < full.len() && full[i] == p;
                if i < head.len() {
                    assert(p == head[i]);
                    assert(ks[0] == p.record);
                } else {
                    assert(tail[i - head.len()] == p);
                    assert(tail.contains(p));
                    let j = choose|j: int| 0 <= j < kt.len() && kt[j] == p.record;
                    assert(ks[j + 1] == p.record);
                }
            }
            if ks.contains(p.record) && emit(p.record) == Some(p.multiplicity) {
                let j = choose|j: int| 0 <= j < ks.len() && ks[j] == p.record;
                if j == 0 {
                    assert(head[0] == p);
                    assert(full[0] == p);
                } else {
                    assert(kt[j - 1] == p.record);
                    assert(kt.contains(p.record));
                    assert(tail.contains(p));
                    let i = choose|i: int| 0 <= i < tail.len() && tail[i] == p;
                    assert(full[head.len() + i] == p);
                }
            }
        }
        assert forall|i: int, j: int| 0 <= i < j < full.len() implies full[i] != full[j] by {
            if i < head.len() {
                assert(tail.contains(tail[j - head.len()]));
                assert(kt.contains(full[j].record));
            } else {
                assert(tail[i - head.len()] != tail[j - head.len()]);
            }
        }
    } else {
        assert(flatten(os) =~= Seq::empty());
    }
}

/// A sorted arrangement of what the groups hand back, where each group gives
/// at most one entry for its record, is the aggregate that `emit` describes.
pub proof fn lemma_aggregate<T: Ord + Clone>(
    s: Seq<MultiSet<T>>,
    os: Seq<Seq<(T, i32)>>,
    out: Seq<MultiSet<T>>,
    emit: spec_fn(T) -> Option<i32>,
)
    requires
        lawful::<T>(),
        os.len() == keys(s).len(),
        forall|i: int| 0 <= i < keys(s).len() ==> #[trigger] os[i] == emitted(keys(s)[i], emit),
        out.to_multiset() == flatten(os).to_multiset(),
        ascending(out),
    ensures
        aggregates(out, s, emit),
{
    broadcast use {
        vstd::seq_lib::group_to_multiset_ensures,
        vstd::multiset::group_multiset_axioms,
    };

    let ks = keys(s);
    let flat = flatten(os);
    lemma_keys_distinct(s);
    lemma_flatten_emitted(ks, os, emit);
    flat.lemma_multiset_has_no_duplicates();
    out.lemma_multiset_has_no_duplicates_conv();
    assert forall|p: MultiSet<T>| out.contains(p) <==> flat.contains(p) by {
        assert(out.contains(p) <==> out.to_multiset().count(p) > 0);
        assert(flat.contains(p) <==> flat.to_multiset().count(p) > 0);
    }
    assert forall|i: int| 0 <= i < out.len() implies emit((#[trigger] out[i]).record) == Some(
        out[i].multiplicity,
    ) by {
        assert(out.contains(out[i]));
        assert(flat.contains(out[i]));
    }
    assert forall|r: T| #[trigger] has_record(out, r) <==> has_record(s, r) && emit(r) is Some by {
        lemma_keys_cover(s, r);
        if has_record(out, r) {
            let i = choose|i: int| 0 <= i < out.len() && (#[trigger] out[i]).record == r;
            assert(out.contains(out[i]));
            assert(flat.contains(out[i]));
        }
        if has_record(s, r) && emit(r) is Some {
            let p = MultiSet { record: r, multiplicity: emit(r).unwrap() };
            assert(flat.contains(p));
            assert(out.contains(p));
            let i = choose|i: int| 0 <= i < out.len() && out[i] == p;
            assert(out[i].record == r);
        }
    }
    assert forall|i: int, j: int| 0 <= i < j < out.len() implies precedes(
        (#[trigger] out[i]).record,
        (#[trigger] out[j]).record,
    ) by {
        assert(crate::order::pair_le(out[i], out[j]));
        if out[i].record == out[j].record {
            assert(out[i] == out[j]);
        }
    }
}

} // verus!
