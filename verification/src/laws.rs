//! Laws of the algebra, stated over the views and predicates in which the
//! operators' contracts speak.

use crate::collection::{is_orbit, reduces_to, Collection};
use crate::model::{
    as_pairs, consolidated, counted, flatten, group_of, has_record, keys, lemma_group_absent,
    lemma_keys_cover, lemma_keys_distinct, made_distinct, negated, net, occurrences, retained,
    summed, total, views,
};
use crate::multiset::MultiSet;
use crate::order::{lawful, precedes, strictly_ascending};
use vstd::prelude::*;
use vstd::seq_lib::{lemma_multiset_commutative, to_multiset_build};

verus! {

/// Concatenation is associative.
pub proof fn lemma_concat_associative<T: Ord>(
    a: Seq<MultiSet<T>>,
    b: Seq<MultiSet<T>>,
    c: Seq<MultiSet<T>>,
)
    ensures
        (a + b) + c == a + (b + c),
{
    assert((a + b) + c =~= a + (b + c));
}

/// The group of a record in a concatenation is its group in the first part
/// followed by its group in the second.
pub proof fn lemma_group_of_concat<T: Ord>(a: Seq<MultiSet<T>>, b: Seq<MultiSet<T>>, r: T)
    ensures
        group_of(a + b, r) == group_of(a, r) + group_of(b, r),
    decreases b.len(),
{
    if b.len() == 0 {
        assert(a + b =~= a);
        assert(group_of(a, r) + group_of(b, r) =~= group_of(a, r));
    } else {
        lemma_group_of_concat(a, b.drop_last(), r);
        assert((a + b).drop_last() =~= a + b.drop_last());
        assert(group_of(a + b, r) =~= group_of(a, r) + group_of(b, r));
    }
}

/// The total of two lists of entries, one after the other, is the sum of
/// their totals.
pub proof fn lemma_total_concat<T>(x: Seq<(T, i32)>, y: Seq<(T, i32)>)
    ensures
        total(x + y) == total(x) + total(y),
    decreases y.len(),
{
    if y.len() == 0 {
        assert(x + y =~= x);
    } else {
        lemma_total_concat(x, y.drop_last());
        assert((x + y).drop_last() =~= x + y.drop_last());
    }
}

/// Net multiplicities add up under concatenation, and so do the numbers of
/// occurrences.
pub proof fn lemma_net_concat<T: Ord>(a: Seq<MultiSet<T>>, b: Seq<MultiSet<T>>, r: T)
    ensures
        net(a + b, r) == net(a, r) + net(b, r),
        occurrences(a + b, r) == occurrences(a, r) + occurrences(b, r),
{
    lemma_group_of_concat(a, b, r);
    lemma_total_concat(group_of(a, r), group_of(b, r));
}

/// Negation flips the sign of every net multiplicity.
pub proof fn lemma_net_negated<T: Ord>(a: Seq<MultiSet<T>>, n: Seq<MultiSet<T>>, r: T)
    requires
        negated(n, a),
    ensures
        net(n, r) == -net(a, r),
    decreases a.len(),
{
    if a.len() > 0 {
        let a0 = a.drop_last();
        let n0 = n.drop_last();
        assert forall|i: int| 0 <= i < a0.len() implies (#[trigger] n0[i]).record == a0[i].record
            && n0[i].multiplicity == -a0[i].multiplicity by {
            assert(n[i].record == a[i].record);
        }
        lemma_net_negated(a0, n0, r);
        assert(n[n.len() - 1].record == a[a.len() - 1].record);
        if a.last().record == r {
            assert(group_of(a, r).drop_last() =~= group_of(a0, r));
            assert(group_of(n, r).drop_last() =~= group_of(n0, r));
        }
    }
}

/// A collection and its negation cancel, whichever comes first: in their
/// concatenation every record has net multiplicity zero, so every pair of the
/// sum carries zero.
pub proof fn lemma_negate_cancels<T: Ord>(
    a: Seq<MultiSet<T>>,
    n: Seq<MultiSet<T>>,
    out: Seq<MultiSet<T>>,
)
    requires
        negated(n, a),
        summed(out, a + n) || summed(out, n + a),
    ensures
        forall|r: T| #[trigger] net(a + n, r) == 0,
        forall|r: T| #[trigger] net(n + a, r) == 0,
        forall|i: int| 0 <= i < out.len() ==> (#[trigger] out[i]).multiplicity == 0,
{
    assert forall|r: T| #[trigger] net(a + n, r) == 0 by {
        lemma_net_concat(a, n, r);
        lemma_net_negated(a, n, r);
    }
    assert forall|r: T| #[trigger] net(n + a, r) == 0 by {
        lemma_net_concat(n, a, r);
        lemma_net_negated(a, n, r);
    }
}

/// What a filter retains is part of what it was given: no pair occurs more
/// often than before, and no record is carried by more pairs than before.
pub proof fn lemma_filter_sub_multiset<T: Ord>(s: Seq<MultiSet<T>>, keep: Seq<bool>)
    requires
        keep.len() == s.len(),
    ensures
        retained(s, keep).to_multiset().subset_of(s.to_multiset()),
        forall|r: T| #[trigger] occurrences(retained(s, keep), r) <= occurrences(s, r),
    decreases s.len(),
{
    broadcast use vstd::multiset::group_multiset_axioms;

    if s.len() > 0 {
        let s0 = s.drop_last();
        let k0 = keep.drop_last();
        let head = retained(s0, k0);
        lemma_filter_sub_multiset(s0, k0);
        assert(s =~= s0.push(s.last()));
        to_multiset_build(s0, s.last());
        to_multiset_build(head, s.last());
        let kept = retained(s, keep);
        assert(kept == if keep.last() {
            head.push(s.last())
        } else {
            head
        });
        assert forall|p: MultiSet<T>| kept.to_multiset().count(p) <= s.to_multiset().count(p) by {
            assert(head.to_multiset().count(p) <= s0.to_multiset().count(p));
        }
        assert forall|r: T| #[trigger] occurrences(retained(s, keep), r) <= occurrences(s, r) by {
            assert(occurrences(head, r) <= occurrences(s0, r));
            if keep.last() {
                assert(retained(s, keep).drop_last() =~= head);
            }
        }
    } else {
        assert(retained(s, keep) =~= s);
    }
}

/// The entries of a record's group, as pairs, hold each pair with that
/// record as often as the collection does.
pub proof fn lemma_group_count<T: Ord>(s: Seq<MultiSet<T>>, p: MultiSet<T>)
    ensures
        as_pairs(group_of(s, p.record)).to_multiset().count(p) == s.to_multiset().count(p),
    decreases s.len(),
{
    broadcast use vstd::multiset::group_multiset_axioms;

    let r = p.record;
    if s.len() == 0 {
        assert(as_pairs(group_of(s, r)) =~= s);
    } else {
        let s0 = s.drop_last();
        let x = s.last();
        lemma_group_count(s0, p);
        assert(s =~= s0.push(x));
        to_multiset_build(s0, x);
        if x.record == r {
            assert(as_pairs(group_of(s, r)) =~= as_pairs(group_of(s0, r)).push(x));
            to_multiset_build(as_pairs(group_of(s0, r)), x);
        }
    }
}

/// The groups of the records `ks` of `s`, in that order.
pub open spec fn groups_of<T: Ord>(s: Seq<MultiSet<T>>, ks: Seq<T>) -> Seq<Seq<(T, i32)>> {
    Seq::new(ks.len(), |i: int| group_of(s, ks[i]))
}

/// Among the groups of distinct records, a pair occurs as often as in the
/// group of its own record, and not at all if its record is not among them.
pub proof fn lemma_groups_count<T: Ord>(s: Seq<MultiSet<T>>, ks: Seq<T>, p: MultiSet<T>)
    requires
        ks.no_duplicates(),
    ensures
        flatten(groups_of(s, ks)).to_multiset().count(p) == if ks.contains(p.record) {
            s.to_multiset().count(p)
        } else {
            0
        },
    decreases ks.len(),
{
    broadcast use {
        vstd::multiset::group_multiset_axioms,
        vstd::seq_lib::group_to_multiset_ensures,
    };

    let os = groups_of(s, ks);
    if ks.len() == 0 {
        assert(flatten(os) =~= Seq::empty());
        assert(!Seq::<MultiSet<T>>::empty().contains(p));
    } else {
        let kt = ks.drop_first();
        let head = as_pairs(group_of(s, ks[0]));
        let tail = flatten(groups_of(s, kt));
        assert(os.drop_first() =~= groups_of(s, kt));
        assert(os.first() == group_of(s, ks[0]));
        assert(flatten(os) == head + tail);
        lemma_groups_count(s, kt, p);
        lemma_multiset_commutative(head, tail);
        if ks[0] == p.record {
            lemma_group_count(s, p);
            if kt.contains(p.record) {
                let j = choose|j: int| 0 <= j < kt.len() && kt[j] == p.record;
                assert(ks[j + 1] == p.record);
            }
        } else {
            crate::model::lemma_group_entries(s, ks[0]);
            if head.contains(p) {
                let i = choose|i: int| 0 <= i < head.len() && head[i] == p;
                assert(group_of(s, ks[0])[i].0 == ks[0]);
            }
            assert(head.to_multiset().count(p) == 0);
            if ks.contains(p.record) {
                let j = choose|j: int| 0 <= j < ks.len() && ks[j] == p.record;
                assert(kt[j - 1] == p.record);
            }
            if kt.contains(p.record) {
                let j = choose|j: int| 0 <= j < kt.len() && kt[j] == p.record;
                assert(ks[j + 1] == p.record);
            }
        }
    }
}

/// The groups are exhaustive and disjoint: taken together, the groups that a
/// reduction hands out hold every pair of the collection exactly as often as
/// the collection does.
pub proof fn lemma_groups_partition<T: Ord, F: Fn(Vec<(T, i32)>) -> Vec<(T, i32)>>(
    s: Seq<MultiSet<T>>,
    f: F,
    ins: Seq<Vec<(T, i32)>>,
    outs: Seq<Vec<(T, i32)>>,
    out: Seq<MultiSet<T>>,
)
    requires
        reduces_to(s, f, ins, outs, out),
    ensures
        flatten(views(ins)).to_multiset() == s.to_multiset(),
{
    broadcast use {
        vstd::multiset::group_multiset_axioms,
        vstd::seq_lib::group_to_multiset_ensures,
    };

    let ks = keys(s);
    lemma_keys_distinct(s);
    assert(views(ins) =~= groups_of(s, ks));
    assert forall|p: MultiSet<T>|
        flatten(views(ins)).to_multiset().count(p) == s.to_multiset().count(p) by {
        lemma_groups_count(s, ks, p);
        lemma_keys_cover(s, p.record);
        if !ks.contains(p.record) {
            if s.contains(p) {
                let i = choose|i: int| 0 <= i < s.len() && s[i] == p;
                assert(s[i].record == p.record);
            }
            assert(s.to_multiset().count(p) == 0);
        }
    }
    assert(flatten(views(ins)).to_multiset() =~= s.to_multiset());
}

/// Two strictly ascending sequences that carry the same records, with the
/// same multiplicity wherever they carry the same record, are the same
/// sequence.
pub proof fn lemma_strictly_ascending_unique<T: Ord + Clone>(
    x: Seq<MultiSet<T>>,
    y: Seq<MultiSet<T>>,
)
    requires
        lawful::<T>(),
        strictly_ascending(x),
        strictly_ascending(y),
        forall|r: T| #[trigger] has_record(x, r) <==> has_record(y, r),
        forall|i: int, j: int|
            0 <= i < x.len() && 0 <= j < y.len() && (#[trigger] x[i]).record == (
            #[trigger] y[j]).record ==> x[i].multiplicity == y[j].multiplicity,
    ensures
        x == y,
    decreases x.len(),
{
    if x.len() == 0 {
        if y.len() > 0 {
            assert(y[0].record == y[0].record);
            assert(has_record(y, y[0].record));
            assert(has_record(x, y[0].record));
        }
        assert(x =~= y);
    } else if y.len() == 0 {
        assert(x[0].record == x[0].record);
        assert(has_record(x, x[0].record));
        assert(has_record(y, x[0].record));
    } else {
        let xl = x.last();
        let yl = y.last();
        let x0 = x.drop_last();
        let y0 = y.drop_last();
        assert(x0.len() == x.len() - 1 && y0.len() == y.len() - 1);
        assert(forall|k: int| 0 <= k < x0.len() ==> x0[k] == x[k]);
        assert(forall|k: int| 0 <= k < y0.len() ==> y0[k] == y[k]);
        assert(x[x.len() - 1].record == xl.record);
        assert(y[y.len() - 1].record == yl.record);
        assert(has_record(x, xl.record));
        assert(has_record(y, yl.record));
        assert(has_record(y, xl.record));
        assert(has_record(x, yl.record));
        let j = choose|j: int| 0 <= j < y.len() && (#[trigger] y[j]).record == xl.record;
        let i = choose|i: int| 0 <= i < x.len() && (#[trigger] x[i]).record == yl.record;
        if xl.record != yl.record {
            assert(precedes(y[j].record, y[y.len() - 1].record));
            assert(precedes(x[i].record, x[x.len() - 1].record));
            assert(false);
        }
        assert(x[x.len() - 1].multiplicity == y[y.len() - 1].multiplicity);
        assert(xl == yl);
        assert forall|r: T| #[trigger] has_record(x0, r) <==> has_record(y0, r) by {
            if has_record(x0, r) {
                let a = choose|a: int| 0 <= a < x0.len() && (#[trigger] x0[a]).record == r;
                assert(precedes(x[a].record, x[x.len() - 1].record));
                assert(has_record(x, r));
                let b = choose|b: int| 0 <= b < y.len() && (#[trigger] y[b]).record == r;
                assert(b != y.len() - 1);
                assert(y0[b].record == r);
            }
            if has_record(y0, r) {
                let b = choose|b: int| 0 <= b < y0.len() && (#[trigger] y0[b]).record == r;
                assert(precedes(y[b].record, y[y.len() - 1].record));
                assert(has_record(y, r));
                assert(has_record(x, r));
                let a = choose|a: int| 0 <= a < x.len() && (#[trigger] x[a]).record == r;
                assert(a != x.len() - 1);
                assert(x0[a].record == r);
            }
        }
        assert forall|a: int, b: int|
            0 <= a < x0.len() && 0 <= b < y0.len() && (#[trigger] x0[a]).record == (
            #[trigger] y0[b]).record implies x0[a].multiplicity == y0[b].multiplicity by {
            assert(x[a].record == y[b].record);
        }
        assert(strictly_ascending(x0)) by {
            assert forall|a: int, b: int| 0 <= a < b < x0.len() implies precedes(
                (#[trigger] x0[a]).record,
                (#[trigger] x0[b]).record,
            ) by {
                assert(precedes(x[a].record, x[b].record));
            }
        }
        assert(strictly_ascending(y0)) by {
            assert forall|a: int, b: int| 0 <= a < b < y0.len() implies precedes(
                (#[trigger] y0[a]).record,
                (#[trigger] y0[b]).record,
            ) by {
                assert(precedes(y[a].record, y[b].record));
            }
        }
        lemma_strictly_ascending_unique(x0, y0);
        assert(x =~= x0.push(xl));
        assert(y =~= y0.push(yl));
    }
}

/// The count of a collection is determined by its pairs.
pub proof fn lemma_counted_unique<T: Ord + Clone>(
    s: Seq<MultiSet<T>>,
    x: Seq<MultiSet<T>>,
    y: Seq<MultiSet<T>>,
)
    requires
        lawful::<T>(),
        counted(x, s),
        counted(y, s),
    ensures
        x == y,
{
    lemma_strictly_ascending_unique(x, y);
}

/// The sum of a collection is determined by its pairs.
pub proof fn lemma_summed_unique<T: Ord + Clone>(
    s: Seq<MultiSet<T>>,
    x: Seq<MultiSet<T>>,
    y: Seq<MultiSet<T>>,
)
    requires
        lawful::<T>(),
        summed(x, s),
        summed(y, s),
    ensures
        x == y,
{
    lemma_strictly_ascending_unique(x, y);
}

/// The distinct records of a collection are determined by its pairs.
pub proof fn lemma_distinct_unique<T: Ord + Clone>(
    s: Seq<MultiSet<T>>,
    x: Seq<MultiSet<T>>,
    y: Seq<MultiSet<T>>,
)
    requires
        lawful::<T>(),
        made_distinct(x, s),
        made_distinct(y, s),
    ensures
        x == y,
{
    lemma_strictly_ascending_unique(x, y);
}

/// The consolidation of a collection is determined by its pairs.
pub proof fn lemma_consolidated_unique<T: Ord + Clone>(
    s: Seq<MultiSet<T>>,
    x: Seq<MultiSet<T>>,
    y: Seq<MultiSet<T>>,
)
    requires
        lawful::<T>(),
        consolidated(x, s),
        consolidated(y, s),
    ensures
        x == y,
{
    lemma_strictly_ascending_unique(x, y);
}

/// Distinct is idempotent: the distinct records of the distinct records are
/// the distinct records.
pub proof fn lemma_distinct_idempotent<T: Ord + Clone>(
    a: Seq<MultiSet<T>>,
    once: Seq<MultiSet<T>>,
    twice: Seq<MultiSet<T>>,
)
    requires
        lawful::<T>(),
        made_distinct(once, a),
        made_distinct(twice, once),
    ensures
        twice == once,
{
    lemma_strictly_ascending_unique(twice, once);
}

/// In a strictly ascending sequence a record's net multiplicity is the
/// multiplicity of the one pair that carries it.
pub proof fn lemma_net_of_ascending<T: Ord + Clone>(c: Seq<MultiSet<T>>, i: int)
    requires
        lawful::<T>(),
        strictly_ascending(c),
        0 <= i < c.len(),
    ensures
        net(c, c[i].record) == c[i].multiplicity,
    decreases c.len(),
{
    let c0 = c.drop_last();
    let r = c[i].record;
    assert(c0.len() == c.len() - 1);
    assert(forall|k: int| 0 <= k < c0.len() ==> c0[k] == c[k]);
    if i == c.len() - 1 {
        assert(!has_record(c0, r)) by {
            if has_record(c0, r) {
                let a = choose|a: int| 0 <= a < c0.len() && (#[trigger] c0[a]).record == r;
                assert(precedes(c[a].record, c[i].record));
            }
        }
        lemma_group_absent(c0, r);
        assert(group_of(c, r).drop_last() =~= group_of(c0, r));
        assert(total(group_of(c0, r)) == 0);
    } else {
        assert(precedes(c[i].record, c[c.len() - 1].record));
        assert(strictly_ascending(c0)) by {
            assert forall|a: int, b: int| 0 <= a < b < c0.len() implies precedes(
                (#[trigger] c0[a]).record,
                (#[trigger] c0[b]).record,
            ) by {
                assert(precedes(c[a].record, c[b].record));
            }
        }
        lemma_net_of_ascending(c0, i);
    }
}

/// Consolidation keeps every record's net multiplicity.
pub proof fn lemma_consolidate_keeps_net<T: Ord + Clone>(
    a: Seq<MultiSet<T>>,
    c: Seq<MultiSet<T>>,
    r: T,
)
    requires
        lawful::<T>(),
        consolidated(c, a),
    ensures
        net(c, r) == net(a, r),
{
    if has_record(c, r) {
        let i = choose|i: int| 0 <= i < c.len() && (#[trigger] c[i]).record == r;
        lemma_net_of_ascending(c, i);
    } else {
        lemma_group_absent(c, r);
        if !has_record(a, r) {
            lemma_group_absent(a, r);
        }
    }
}

/// Consolidation is idempotent.
pub proof fn lemma_consolidate_idempotent<T: Ord + Clone>(
    a: Seq<MultiSet<T>>,
    once: Seq<MultiSet<T>>,
    twice: Seq<MultiSet<T>>,
)
    requires
        lawful::<T>(),
        consolidated(once, a),
        consolidated(twice, once),
    ensures
        twice == once,
{
    assert forall|r: T| #[trigger] has_record(twice, r) <==> has_record(once, r) by {
        lemma_consolidate_keeps_net(a, once, r);
    }
    assert forall|i: int, j: int|
        0 <= i < twice.len() && 0 <= j < once.len() && (#[trigger] twice[i]).record == (
        #[trigger] once[j]).record implies twice[i].multiplicity == once[j].multiplicity by {
        lemma_net_of_ascending(once, j);
    }
    lemma_strictly_ascending_unique(twice, once);
}

/// A fixed point is stable: where `f` makes of every collection with the
/// pairs of `fix` a collection equal to it, a run of `f` from `fix` ends
/// where it began.
pub proof fn lemma_fixpoint_stable<T: Ord + Clone, F: Fn(&Collection<T>) -> Collection<T>>(
    fix: Seq<MultiSet<T>>,
    f: F,
    orbit: Seq<Collection<T>>,
    out: Collection<T>,
)
    requires
        forall|c: Collection<T>, next: Collection<T>|
            c@ == fix && #[trigger] f.ensures((&c,), next) ==> next@.to_multiset()
                == fix.to_multiset(),
        is_orbit(fix, f, orbit, out),
    ensures
        out@ == fix,
{
    if orbit.len() > 1 {
        let i = 0int;
        assert(f.ensures((&orbit[i],), orbit[i + 1]));
    }
}

} // verus!
