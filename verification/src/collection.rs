//! Collections of record-multiplicity pairs and the operators of the algebra.

use crate::model::{
    as_pairs, consolidated, counted, emitted, flatten, group_of, has_record, join_row, joined, keys,
    lemma_aggregate, lemma_group_absent, lemma_group_entries, lemma_keys_cover,
    lemma_keys_distinct, made_distinct, negated, net, occurrences, retained, summed, total, views,
};
use crate::multiset::MultiSet;
use crate::order::{
    ascending, lawful, lemma_ascending_unique, pair_before, record_clone, record_eq, sort_pairs,
};
use vstd::prelude::*;
use vstd::seq_lib::lemma_multiset_commutative;
use vstd::std_specs::cmp::PartialEqSpecImpl;

verus! {

/// An ordered list of record-multiplicity pairs. A record may stand in several
/// pairs; its effective multiplicity is the sum over all of them.
#[derive(Debug)]
pub struct Collection<T: Ord>(pub Vec<MultiSet<T>>);

impl<T: Ord> View for Collection<T> {
    type V = Seq<MultiSet<T>>;

    /// The pairs, in the order in which the collection holds them.
    open spec fn view(&self) -> Seq<MultiSet<T>> {
        self.0@
    }
}

/// A copy of `pairs`, pair by pair.
pub(crate) fn clone_pairs<T: Ord + Clone>(pairs: &Vec<MultiSet<T>>) -> (out: Vec<MultiSet<T>>)
    ensures
        out@.len() == pairs@.len(),
        lawful::<T>() ==> out@ == pairs@,
{
    let mut out: Vec<MultiSet<T>> = Vec::new();
    let mut at: usize = 0;
    while at < pairs.len()
        invariant
            at <= pairs.len(),
            out@.len() == at,
            lawful::<T>() ==> out@ == pairs@.take(at as int),
        decreases pairs.len() - at,
    {
        let copy = pairs[at].clone();
        out.push(copy);
        proof {
            if lawful::<T>() {
                assert(copy == pairs@[at as int]);
                assert(out@ =~= pairs@.take(at + 1));
            }
        }
        at += 1;
    }
    proof {
        assert(pairs@.take(at as int) =~= pairs@);
    }
    out
}

/// The pairs of `pairs` in the opposite order.
pub(crate) fn reversed<T: Ord>(pairs: Vec<MultiSet<T>>) -> (out: Vec<MultiSet<T>>)
    ensures
        out@ == pairs@.reverse(),
{
    let ghost all = pairs@;
    let mut rest = pairs;
    let mut out: Vec<MultiSet<T>> = Vec::new();
    while rest.len() > 0
        invariant
            rest@.len() <= all.len(),
            rest@ == all.take(rest@.len() as int),
            out@.len() + rest@.len() == all.len(),
            forall|k: int| 0 <= k < out@.len() ==> out@[k] == all[all.len() - 1 - k],
        decreases rest.len(),
    {
        let last = rest.pop().unwrap();
        out.push(last);
    }
    proof {
        assert(out@ =~= all.reverse());
    }
    out
}

/// The groups of `pairs`, one for each record, in the order in which the
/// records first appear.
pub fn group_pairs<T: Ord + Clone>(pairs: &Vec<MultiSet<T>>) -> (groups: Vec<Vec<(T, i32)>>)
    requires
        lawful::<T>(),
    ensures
        groups@.len() == keys(pairs@).len(),
        forall|i: int|
            0 <= i < groups@.len() ==> (#[trigger] groups@[i])@ == group_of(
                pairs@,
                keys(pairs@)[i],
            ),
{
    let mut groups: Vec<Vec<(T, i32)>> = Vec::new();
    let mut at: usize = 0;
    while at < pairs.len()
        invariant
            lawful::<T>(),
            at <= pairs@.len(),
            groups@.len() == keys(pairs@.take(at as int)).len(),
            forall|i: int|
                0 <= i < groups@.len() ==> (#[trigger] groups@[i])@ == group_of(
                    pairs@.take(at as int),
                    keys(pairs@.take(at as int))[i],
                ),
            forall|i: int|
                0 <= i < groups@.len() ==> (#[trigger] groups@[i])@.len() > 0 && groups@[i]@[0].0
                    == keys(pairs@.take(at as int))[i],
        decreases pairs@.len() - at,
    {
        let ghost seen = pairs@.take(at as int);
        let ghost next = pairs@.take(at + 1);
        let ghost ks = keys(seen);
        let ghost before = groups@;
        proof {
            assert(next.drop_last() =~= seen);
            assert(next.last() == pairs@[at as int]);
            lemma_keys_distinct(seen);
        }
        let record = record_clone(&pairs[at].record);
        let multiplicity = pairs[at].multiplicity;
        let mut slot: usize = 0;
        while slot < groups.len() && !record_eq(&groups[slot][0].0, &record)
            invariant
                lawful::<T>(),
                slot <= groups@.len(),
                groups@ == before,
                groups@.len() == ks.len(),
                forall|i: int|
                    0 <= i < groups@.len() ==> (#[trigger] groups@[i])@.len() > 0
                        && groups@[i]@[0].0 == ks[i],
                forall|k: int| 0 <= k < slot ==> ks[k] != record,
            decreases groups@.len() - slot,
        {
            slot += 1;
        }
        if slot < groups.len() {
            let mut group = groups.remove(slot);
            group.push((record, multiplicity));
            groups.insert(slot, group);
            proof {
                assert(ks[slot as int] == record);
                assert(ks.contains(record));
                assert(groups@ =~= before.update(slot as int, group));
            }
        } else {
            let mut group: Vec<(T, i32)> = Vec::new();
            group.push((record, multiplicity));
            groups.push(group);
            proof {
                assert(!ks.contains(record));
                lemma_keys_cover(seen, record);
                lemma_group_absent(seen, record);
                assert(group@ =~= group_of(seen, record).push((record, multiplicity)));
            }
        }
        at += 1;
    }
    proof {
        assert(pairs@.take(at as int) =~= pairs@);
    }
    groups
}

/// What a grouped reduction of `s` by `f` comes to: `ins` are the groups that
/// `f` was given, one for each record in the order of first appearance,
/// `outs` what it made of each, and `out` holds all of that in ascending
/// order.
pub open spec fn reduces_to<T: Ord, F: Fn(Vec<(T, i32)>) -> Vec<(T, i32)>>(
    s: Seq<MultiSet<T>>,
    f: F,
    ins: Seq<Vec<(T, i32)>>,
    outs: Seq<Vec<(T, i32)>>,
    out: Seq<MultiSet<T>>,
) -> bool {
    &&& ins.len() == keys(s).len()
    &&& outs.len() == keys(s).len()
    &&& forall|i: int| 0 <= i < keys(s).len() ==> (#[trigger] ins[i])@ == group_of(s, keys(s)[i])
    &&& forall|i: int| 0 <= i < keys(s).len() ==> f.ensures((ins[i],), #[trigger] outs[i])
    &&& out.to_multiset() == flatten(views(outs)).to_multiset()
    &&& ascending(out)
}

/// The sum of the multiplicities of `vals`.
pub(crate) fn sum_entries<T>(vals: &Vec<(T, i32)>) -> (sum: i128)
    ensures
        sum == total(vals@),
{
    let mut sum: i128 = 0;
    let mut at: usize = 0;
    while at < vals.len()
        invariant
            at <= vals@.len(),
            sum == total(vals@.take(at as int)),
            -0x8000_0000 * at <= sum <= 0x8000_0000 * at,
        decreases vals@.len() - at,
    {
        proof {
            assert(vals@.take(at + 1).drop_last() =~= vals@.take(at as int));
        }
        sum = sum + vals[at].1 as i128;
        at += 1;
    }
    proof {
        assert(vals@.take(at as int) =~= vals@);
    }
    sum
}

/// `f` accepts `c`, and whatever it makes of `c` either equals `c` or settles
/// within `n - 1` rounds: applied again and again from `c`, `f` reaches a
/// fixed point after at most `n` changes.
pub open spec fn settles_within<T: Ord + Clone, F: Fn(&Collection<T>) -> Collection<T>>(
    f: F,
    c: Collection<T>,
    n: nat,
) -> bool
    decreases n,
{
    &&& f.requires((&c,))
    &&& forall|next: Collection<T>| #[trigger]
        f.ensures((&c,), next) ==> next@.to_multiset() == c@.to_multiset() || (n > 0
            && settles_within(f, next, (n - 1) as nat))
}

/// How to show that `f` settles from `c`: `f` accepts `c`, and whatever it
/// makes of `c` either equals `c` or settles within one round fewer.
pub proof fn lemma_settles<T: Ord + Clone, F: Fn(&Collection<T>) -> Collection<T>>(
    f: F,
    c: Collection<T>,
    n: nat,
)
    requires
        f.requires((&c,)),
        forall|next: Collection<T>| #[trigger]
            f.ensures((&c,), next) ==> next@.to_multiset() == c@.to_multiset() || (n > 0
                && settles_within(f, next, (n - 1) as nat)),
    ensures
        settles_within(f, c, n),
{
}

/// From every collection with the pairs `s`, `f` settles within `n` rounds.
pub open spec fn comes_to_rest<T: Ord + Clone, F: Fn(&Collection<T>) -> Collection<T>>(
    f: F,
    s: Seq<MultiSet<T>>,
    n: nat,
) -> bool {
    forall|c: Collection<T>| c@ == s ==> #[trigger] settles_within(f, c, n)
}

/// `orbit` is the run of `f` from a collection with the pairs `s` to `out`:
/// each member is what `f` made of the one before and differs from it.
pub open spec fn is_orbit<T: Ord + Clone, F: Fn(&Collection<T>) -> Collection<T>>(
    s: Seq<MultiSet<T>>,
    f: F,
    orbit: Seq<Collection<T>>,
    out: Collection<T>,
) -> bool {
    &&& orbit.len() > 0
    &&& orbit[0]@ == s
    &&& orbit.last() == out
    &&& forall|i: int|
        0 <= i < orbit.len() - 1 ==> f.ensures((&orbit[i],), #[trigger] orbit[i + 1]) && orbit[i
            + 1]@.to_multiset() != orbit[i]@.to_multiset()
}

/// `g` is the whole group of some record of `s`.
pub open spec fn is_group<T: Ord>(s: Seq<MultiSet<T>>, g: Seq<(T, i32)>) -> bool {
    g.len() > 0 && has_record(s, g[0].0) && g == group_of(s, g[0].0)
}

impl<T: Clone> Collection<T> where T: Ord {
    /// A collection of the given pairs, in the given order.
    pub fn new(multiset_vec: Vec<MultiSet<T>>) -> (out: Collection<T>)
        ensures
            out@ == multiset_vec@,
    {
        Collection(multiset_vec)
    }

    /// The pairs of `self` followed by the pairs of `other`. Nothing is merged:
    /// a record that stands in both stands in the result twice.
    pub fn concat(self, other: Collection<T>) -> (out: Collection<T>)
        ensures
            out@ == self@ + other@,
    {
        let mut out = self.0;
        let mut tail = other.0;
        out.append(&mut tail);
        Collection(out)
    }

    /// One pair for each pair of `self`, in the same order, with the same
    /// record and the multiplicity's sign flipped.
    pub fn negate(self) -> (out: Collection<T>)
        requires
            forall|i: int| 0 <= i < self@.len() ==> (#[trigger] self@[i]).multiplicity != i32::MIN,
        ensures
            negated(out@, self@),
    {
        let ghost all = self@;
        let mut rest = self.0;
        let mut flipped: Vec<MultiSet<T>> = Vec::new();
        while rest.len() > 0
            invariant
                rest@.len() <= all.len(),
                rest@ == all.take(rest@.len() as int),
                flipped@.len() + rest@.len() == all.len(),
                forall|i: int| 0 <= i < all.len() ==> (#[trigger] all[i]).multiplicity != i32::MIN,
                forall|k: int|
                    0 <= k < flipped@.len() ==> (#[trigger] flipped@[k]).record == all[all.len() - 1
                        - k].record && flipped@[k].multiplicity == -all[all.len() - 1
                        - k].multiplicity,
            decreases rest.len(),
        {
            let ghost at = rest@.len() - 1;
            let pair = rest.pop().unwrap();
            assert(pair == all[at]);
            flipped.push(MultiSet { record: pair.record, multiplicity: -pair.multiplicity });
        }
        Collection(reversed(flipped))
    }

    /// One pair for each pair of `self`, in the same order: what `f` makes of
    /// it.
    pub fn map<F>(&self, f: F) -> (out: Collection<T>) where F: Fn(&MultiSet<T>) -> MultiSet<T>
        requires
            forall|i: int| 0 <= i < self@.len() ==> f.requires((&#[trigger] self@[i],)),
        ensures
            out@.len() == self@.len(),
            forall|i: int| 0 <= i < self@.len() ==> f.ensures((&self@[i],), #[trigger] out@[i]),
    {
        let mut out: Vec<MultiSet<T>> = Vec::new();
        let mut at: usize = 0;
        while at < self.0.len()
            invariant
                at <= self@.len(),
                out@.len() == at,
                forall|i: int| 0 <= i < self@.len() ==> f.requires((&#[trigger] self@[i],)),
                forall|i: int| 0 <= i < at ==> f.ensures((&self@[i],), #[trigger] out@[i]),
            decreases self@.len() - at,
        {
            let made = f(&self.0[at]);
            out.push(made);
            at += 1;
        }
        Collection(out)
    }

    /// The pairs of `self` for which `f` says yes, unchanged and in their
    /// order; the others are dropped. `keep` names what `f` said of each pair.
    pub fn filter<F>(&self, f: F) -> (out: Collection<T>) where F: Fn(&MultiSet<T>) -> bool
        requires
            lawful::<T>(),
            forall|i: int| 0 <= i < self@.len() ==> f.requires((&#[trigger] self@[i],)),
        ensures
            exists|keep: Seq<bool>|
                {
                    &&& keep.len() == self@.len()
                    &&& forall|i: int|
                        0 <= i < self@.len() ==> f.ensures((&self@[i],), #[trigger] keep[i])
                    &&& out@ == retained(self@, keep)
                },
    {
        let mut out: Vec<MultiSet<T>> = Vec::new();
        let ghost mut keep: Seq<bool> = Seq::empty();
        let mut at: usize = 0;
        while at < self.0.len()
            invariant
                lawful::<T>(),
                at <= self@.len(),
                keep.len() == at,
                forall|i: int| 0 <= i < self@.len() ==> f.requires((&#[trigger] self@[i],)),
                forall|i: int| 0 <= i < at ==> f.ensures((&self@[i],), #[trigger] keep[i]),
                out@ == retained(self@.take(at as int), keep),
            decreases self@.len() - at,
        {
            let yes = f(&self.0[at]);
            proof {
                let ghost longer = keep.push(yes);
                assert(longer.drop_last() =~= keep);
                assert(self@.take(at + 1).drop_last() =~= self@.take(at as int));
                keep = longer;
            }
            if yes {
                let copy = self.0[at].clone();
                assert(copy == self@[at as int]);
                out.push(copy);
            }
            at += 1;
        }
        proof {
            assert(self@.take(at as int) =~= self@);
        }
        Collection(out)
    }

    /// Groups the pairs by record, hands each group to `f` with its
    /// multiplicities not yet summed, and returns all that `f` made of the
    /// groups, in ascending order of record and multiplicity.
    pub fn reduce<F>(&self, f: F) -> (out: Collection<T>) where
        F: Fn(Vec<(T, i32)>) -> Vec<(T, i32)>,

        requires
            lawful::<T>(),
            forall|g: Vec<(T, i32)>| is_group(self@, g@) ==> f.requires((g,)),
        ensures
            exists|ins: Seq<Vec<(T, i32)>>, outs: Seq<Vec<(T, i32)>>|
                reduces_to(self@, f, ins, outs, out@),
    {
        let mut groups = group_pairs(&self.0);
        let ghost ks = keys(self@);
        let ghost mut ins: Seq<Vec<(T, i32)>> = Seq::empty();
        let ghost mut outs: Seq<Vec<(T, i32)>> = Seq::empty();
        let mut flat: Vec<MultiSet<T>> = Vec::new();
        proof {
            assert(views(outs) =~= Seq::empty());
        }
        while groups.len() > 0
            invariant
                lawful::<T>(),
                forall|g: Vec<(T, i32)>| is_group(self@, g@) ==> f.requires((g,)),
                ks == keys(self@),
                groups@.len() <= ks.len(),
                forall|i: int|
                    0 <= i < groups@.len() ==> (#[trigger] groups@[i])@ == group_of(self@, ks[i]),
                ins.len() == ks.len() - groups@.len(),
                outs.len() == ins.len(),
                forall|j: int|
                    0 <= j < ins.len() ==> (#[trigger] ins[j])@ == group_of(
                        self@,
                        ks[groups@.len() + j],
                    ),
                forall|j: int| 0 <= j < ins.len() ==> f.ensures((ins[j],), #[trigger] outs[j]),
                flat@.to_multiset() == flatten(views(outs)).to_multiset(),
            decreases groups@.len(),
        {
            let ghost slot = groups@.len() - 1;
            let group = groups.pop().unwrap();
            let ghost given = group;
            proof {
                assert(ks.contains(ks[slot]));
                lemma_keys_cover(self@, ks[slot]);
                lemma_group_entries(self@, ks[slot]);
                assert(group@[0].0 == ks[slot]);
                assert(is_group(self@, group@));
            }
            let results = f(group);
            let ghost base = flat@;
            let mut k: usize = 0;
            proof {
                assert(as_pairs(results@.take(0)) =~= Seq::empty());
                assert(flat@ =~= base + as_pairs(results@.take(0)));
            }
            while k < results.len()
                invariant
                    lawful::<T>(),
                    k <= results@.len(),
                    flat@ == base + as_pairs(results@.take(k as int)),
                decreases results@.len() - k,
            {
                let pair = MultiSet::new(record_clone(&results[k].0), results[k].1);
                flat.push(pair);
                proof {
                    assert(as_pairs(results@.take(k + 1)) =~= as_pairs(
                        results@.take(k as int),
                    ).push(pair));
                    assert(flat@ =~= base + as_pairs(results@.take(k + 1)));
                }
                k += 1;
            }
            proof {
                assert(results@.take(k as int) =~= results@);
                let longer_ins = seq![given] + ins;
                let longer_outs = seq![results] + outs;
                assert(views(longer_outs).drop_first() =~= views(outs));
                assert(views(longer_outs).first() == results@);
                lemma_multiset_commutative(base, as_pairs(results@));
                lemma_multiset_commutative(as_pairs(results@), flatten(views(outs)));
                assert(flat@.to_multiset() =~= flatten(views(longer_outs)).to_multiset());
                assert forall|j: int| 0 <= j < longer_ins.len() implies (
                #[trigger] longer_ins[j])@ == group_of(self@, ks[groups@.len() + j]) by {
                    if j > 0 {
                        assert(longer_ins[j] == ins[j - 1]);
                    }
                }
                assert forall|j: int| 0 <= j < longer_ins.len() implies f.ensures(
                    (longer_ins[j],),
                    #[trigger] longer_outs[j],
                ) by {
                    if j > 0 {
                        assert(longer_ins[j] == ins[j - 1]);
                        assert(longer_outs[j] == outs[j - 1]);
                    }
                }
                ins = longer_ins;
                outs = longer_outs;
            }
        }
        let out = Collection(sort_pairs(flat));
        proof {
            assert(reduces_to(self@, f, ins, outs, out@));
        }
        out
    }

    /// For each record, one pair whose multiplicity is the number of pairs
    /// that carry the record, whatever their multiplicities.
    pub fn count(&self) -> (out: Collection<T>)
        requires
            lawful::<T>(),
            forall|r: T| #[trigger] occurrences(self@, r) <= i32::MAX,
        ensures
            counted(out@, self@),
    {
        let ghost s = self@;
        let f = |vals: Vec<(T, i32)>| -> (made: Vec<(T, i32)>)
            requires
                vals@.len() > 0,
                vals@.len() <= i32::MAX,
            ensures
                made@ == seq![(vals@[0].0, vals@.len() as i32)],
            {
                let mut made: Vec<(T, i32)> = Vec::new();
                made.push((record_clone(&vals[0].0), vals.len() as i32));
                proof {
                    assert(made@ =~= seq![(vals@[0].0, vals@.len() as i32)]);
                }
                made
            };
        let ghost fg = f;
        proof {
            assert forall|g: Vec<(T, i32)>| is_group(s, g@) implies f.requires((g,)) by {
                assert(occurrences(s, g@[0].0) <= i32::MAX);
            }
        }
        let out = self.reduce(f);
        proof {
            let (ins, outs) = choose|ins: Seq<Vec<(T, i32)>>, outs: Seq<Vec<(T, i32)>>|
                reduces_to(s, fg, ins, outs, out@);
            let emit = |r: T| Some(occurrences(s, r) as i32);
            let ks = keys(s);
            assert forall|i: int| 0 <= i < ks.len() implies #[trigger] views(outs)[i] == emitted(
                ks[i],
                emit,
            ) by {
                assert(ks.contains(ks[i]));
                lemma_keys_cover(s, ks[i]);
                lemma_group_entries(s, ks[i]);
                assert(ins[i]@ == group_of(s, ks[i]));
                assert(fg.ensures((ins[i],), outs[i]));
                assert(occurrences(s, ks[i]) <= i32::MAX);
                assert(outs[i]@ =~= emitted(ks[i], emit));
            }
            lemma_aggregate(s, views(outs), out@, emit);
            assert forall|i: int| 0 <= i < out@.len() implies (
            #[trigger] out@[i]).multiplicity == occurrences(s, out@[i].record) by {
                assert(occurrences(s, out@[i].record) <= i32::MAX);
            }
        }
        out
    }

    /// For each record, one pair whose multiplicity is the sum of the
    /// multiplicities of the pairs that carry the record.
    pub fn sum(&self) -> (out: Collection<T>)
        requires
            lawful::<T>(),
            forall|r: T| i32::MIN <= #[trigger] net(self@, r) <= i32::MAX,
        ensures
            summed(out@, self@),
    {
        let ghost s = self@;
        let f = |vals: Vec<(T, i32)>| -> (made: Vec<(T, i32)>)
            requires
                vals@.len() > 0,
                i32::MIN <= total(vals@) <= i32::MAX,
            ensures
                made@ == seq![(vals@[0].0, total(vals@) as i32)],
            {
                let sum = sum_entries(&vals);
                let mut made: Vec<(T, i32)> = Vec::new();
                made.push((record_clone(&vals[0].0), sum as i32));
                proof {
                    assert(made@ =~= seq![(vals@[0].0, total(vals@) as i32)]);
                }
                made
            };
        let ghost fg = f;
        proof {
            assert forall|g: Vec<(T, i32)>| is_group(s, g@) implies f.requires((g,)) by {
                assert(i32::MIN <= net(s, g@[0].0) <= i32::MAX);
            }
        }
        let out = self.reduce(f);
        proof {
            let (ins, outs) = choose|ins: Seq<Vec<(T, i32)>>, outs: Seq<Vec<(T, i32)>>|
                reduces_to(s, fg, ins, outs, out@);
            let emit = |r: T| Some(net(s, r) as i32);
            let ks = keys(s);
            assert forall|i: int| 0 <= i < ks.len() implies #[trigger] views(outs)[i] == emitted(
                ks[i],
                emit,
            ) by {
                assert(ks.contains(ks[i]));
                lemma_keys_cover(s, ks[i]);
                lemma_group_entries(s, ks[i]);
                assert(ins[i]@ == group_of(s, ks[i]));
                assert(fg.ensures((ins[i],), outs[i]));
                assert(i32::MIN <= net(s, ks[i]) <= i32::MAX);
                assert(outs[i]@ =~= emitted(ks[i], emit));
            }
            lemma_aggregate(s, views(outs), out@, emit);
            assert forall|i: int| 0 <= i < out@.len() implies (
            #[trigger] out@[i]).multiplicity == net(s, out@[i].record) by {
                assert(i32::MIN <= net(s, out@[i].record) <= i32::MAX);
            }
        }
        out
    }

    /// For each record, exactly one pair, with multiplicity 1: presence
    /// without count.
    pub fn distinct(&self) -> (out: Collection<T>)
        requires
            lawful::<T>(),
        ensures
            made_distinct(out@, self@),
    {
        let ghost s = self@;
        let f = |vals: Vec<(T, i32)>| -> (made: Vec<(T, i32)>)
            requires
                vals@.len() > 0,
            ensures
                made@ == seq![(vals@[0].0, 1i32)],
            {
                let mut made: Vec<(T, i32)> = Vec::new();
                made.push((record_clone(&vals[0].0), 1));
                proof {
                    assert(made@ =~= seq![(vals@[0].0, 1i32)]);
                }
                made
            };
        let ghost fg = f;
        let out = self.reduce(f);
        proof {
            let (ins, outs) = choose|ins: Seq<Vec<(T, i32)>>, outs: Seq<Vec<(T, i32)>>|
                reduces_to(s, fg, ins, outs, out@);
            let emit = |r: T| Some(1i32);
            let ks = keys(s);
            assert forall|i: int| 0 <= i < ks.len() implies #[trigger] views(outs)[i] == emitted(
                ks[i],
                emit,
            ) by {
                assert(ks.contains(ks[i]));
                lemma_keys_cover(s, ks[i]);
                lemma_group_entries(s, ks[i]);
                assert(ins[i]@ == group_of(s, ks[i]));
                assert(fg.ensures((ins[i],), outs[i]));
                assert(outs[i]@ =~= emitted(ks[i], emit));
            }
            lemma_aggregate(s, views(outs), out@, emit);
        }
        out
    }

    /// For each record whose multiplicities do not sum to zero, one pair with
    /// that sum; a record whose multiplicities cancel is left out.
    pub fn consolidate(&self) -> (out: Collection<T>)
        requires
            lawful::<T>(),
            forall|r: T| i32::MIN <= #[trigger] net(self@, r) <= i32::MAX,
        ensures
            consolidated(out@, self@),
    {
        let ghost s = self@;
        let f = |vals: Vec<(T, i32)>| -> (made: Vec<(T, i32)>)
            requires
                vals@.len() > 0,
                i32::MIN <= total(vals@) <= i32::MAX,
            ensures
                total(vals@) != 0 ==> made@ == seq![(vals@[0].0, total(vals@) as i32)],
                total(vals@) == 0 ==> made@ == Seq::<(T, i32)>::empty(),
            {
                let sum = sum_entries(&vals);
                let mut made: Vec<(T, i32)> = Vec::new();
                if sum != 0 {
                    made.push((record_clone(&vals[0].0), sum as i32));
                    proof {
                        assert(made@ =~= seq![(vals@[0].0, total(vals@) as i32)]);
                    }
                }
                made
            };
        let ghost fg = f;
        proof {
            assert forall|g: Vec<(T, i32)>| is_group(s, g@) implies f.requires((g,)) by {
                assert(i32::MIN <= net(s, g@[0].0) <= i32::MAX);
            }
        }
        let out = self.reduce(f);
        proof {
            let (ins, outs) = choose|ins: Seq<Vec<(T, i32)>>, outs: Seq<Vec<(T, i32)>>|
                reduces_to(s, fg, ins, outs, out@);
            let emit = |r: T|
                if net(s, r) != 0 {
                    Some(net(s, r) as i32)
                } else {
                    None
                };
            let ks = keys(s);
            assert forall|i: int| 0 <= i < ks.len() implies #[trigger] views(outs)[i] == emitted(
                ks[i],
                emit,
            ) by {
                assert(ks.contains(ks[i]));
                lemma_keys_cover(s, ks[i]);
                lemma_group_entries(s, ks[i]);
                assert(ins[i]@ == group_of(s, ks[i]));
                assert(fg.ensures((ins[i],), outs[i]));
                assert(i32::MIN <= net(s, ks[i]) <= i32::MAX);
                assert(outs[i]@ =~= emitted(ks[i], emit));
            }
            lemma_aggregate(s, views(outs), out@, emit);
            assert forall|i: int| 0 <= i < out@.len() implies (
            #[trigger] out@[i]).multiplicity == net(s, out@[i].record) by {
                assert(i32::MIN <= net(s, out@[i].record) <= i32::MAX);
            }
            assert forall|r: T| #[trigger]
                has_record(out@, r) <==> has_record(s, r) && net(s, r) != 0 by {
                assert(i32::MIN <= net(s, r) <= i32::MAX);
            }
        }
        out
    }

    /// The equi-join: one pair for each pair of `self` and each pair of
    /// `other` that carry the same record, with that record and the product
    /// of the two multiplicities. Pairs that repeat a record multiply out.
    pub fn join(&self, other: &Collection<T>) -> (out: Collection<T>)
        requires
            lawful::<T>(),
            forall|i: int, j: int|
                0 <= i < self@.len() && 0 <= j < other@.len() && (#[trigger] self@[i]).record == (
                #[trigger] other@[j]).record ==> i32::MIN <= self@[i].multiplicity
                    * other@[j].multiplicity <= i32::MAX,
        ensures
            out@ == joined(self@, other@),
    {
        let mut out: Vec<MultiSet<T>> = Vec::new();
        let mut i: usize = 0;
        while i < self.0.len()
            invariant
                lawful::<T>(),
                i <= self@.len(),
                forall|i: int, j: int|
                    0 <= i < self@.len() && 0 <= j < other@.len() && (#[trigger] self@[i]).record
                        == (#[trigger] other@[j]).record ==> i32::MIN <= self@[i].multiplicity
                        * other@[j].multiplicity <= i32::MAX,
                out@ == joined(self@.take(i as int), other@),
            decreases self@.len() - i,
        {
            let ghost base = out@;
            let left = &self.0[i];
            let mut j: usize = 0;
            while j < other.0.len()
                invariant
                    lawful::<T>(),
                    i < self@.len(),
                    j <= other@.len(),
                    *left == self@[i as int],
                    forall|j: int|
                        0 <= j < other@.len() && left.record == (#[trigger] other@[j]).record
                            ==> i32::MIN <= left.multiplicity * other@[j].multiplicity <= i32::MAX,
                    out@ == base + join_row(*left, other@.take(j as int)),
                decreases other@.len() - j,
            {
                let right = &other.0[j];
                proof {
                    assert(other@.take(j + 1).drop_last() =~= other@.take(j as int));
                    assert(*right == other@[j as int]);
                }
                if record_eq(&left.record, &right.record) {
                    let pair = MultiSet::new(
                        record_clone(&left.record),
                        left.multiplicity * right.multiplicity,
                    );
                    out.push(pair);
                }
                proof {
                    assert(out@ =~= base + join_row(*left, other@.take(j + 1)));
                }
                j += 1;
            }
            proof {
                assert(other@.take(j as int) =~= other@);
                assert(self@.take(i + 1).drop_last() =~= self@.take(i as int));
            }
            i += 1;
        }
        proof {
            assert(self@.take(i as int) =~= self@);
        }
        Collection(out)
    }

    /// Applies `f` again and again, starting from `self`, until what it makes
    /// equals what it was given, and returns that fixed collection. The
    /// caller vouches that `f` comes to rest.
    pub fn iterate<F>(&self, f: F) -> (out: Collection<T>) where
        F: Fn(&Collection<T>) -> Collection<T>,

        requires
            lawful::<T>(),
            exists|n: nat| comes_to_rest(f, self@, n),
        ensures
            exists|again: Collection<T>|
                f.ensures((&out,), again) && again@.to_multiset() == out@.to_multiset(),
            exists|orbit: Seq<Collection<T>>| is_orbit(self@, f, orbit, out),
    {
        let ghost mut fuel: nat = choose|n: nat| comes_to_rest(f, self@, n);
        let mut curr = self.clone();
        let ghost mut orbit: Seq<Collection<T>> = seq![curr];
        proof {
            assert(settles_within(f, curr, fuel));
        }
        let mut next = f(&curr);
        while next != curr
            invariant
                lawful::<T>(),
                settles_within(f, curr, fuel),
                f.ensures((&curr,), next),
                is_orbit(self@, f, orbit, curr),
            decreases fuel,
        {
            proof {
                assert(next@.to_multiset() != curr@.to_multiset());
                assert(fuel > 0 && settles_within(f, next, (fuel - 1) as nat));
                let longer = orbit.push(next);
                assert forall|i: int| 0 <= i < longer.len() - 1 implies f.ensures(
                    (&longer[i],),
                    #[trigger] longer[i + 1],
                ) && longer[i + 1]@.to_multiset() != longer[i]@.to_multiset() by {
                    if i < orbit.len() - 1 {
                        assert(longer[i + 1] == orbit[i + 1]);
                    }
                }
                orbit = longer;
                fuel = (fuel - 1) as nat;
            }
            curr = next;
            next = f(&curr);
        }
        curr
    }
}

impl<T: Clone> Clone for Collection<T> where T: Ord {
    /// The copy holds equal pairs in the same order.
    fn clone(&self) -> (copy: Self)
        ensures
            copy@.len() == self@.len(),
            lawful::<T>() ==> copy@ == self@,
    {
        Collection(clone_pairs(&self.0))
    }
}

impl<T: Clone> PartialEq for Collection<T> where T: Ord {
    fn eq(&self, other: &Self) -> (same: bool) {
        let left = sort_pairs(clone_pairs(&self.0));
        let right = sort_pairs(clone_pairs(&other.0));
        proof {
            if lawful::<T>() {
                if left@ != right@ && self@.to_multiset() == other@.to_multiset() {
                    lemma_ascending_unique(left@, right@);
                }
            }
        }
        if left.len() != right.len() {
            return false;
        }
        let mut at: usize = 0;
        while at < left.len()
            invariant
                at <= left.len(),
                left.len() == right.len(),
                lawful::<T>() ==> left@.take(at as int) == right@.take(at as int),
                lawful::<T>() ==> left@.to_multiset() == self@.to_multiset(),
                lawful::<T>() ==> right@.to_multiset() == other@.to_multiset(),
                lawful::<T>() && self@.to_multiset() == other@.to_multiset() ==> left@ == right@,
            decreases left.len() - at,
        {
            if pair_before(&left[at], &right[at]) || pair_before(&right[at], &left[at]) {
                proof {
                    if lawful::<T>() {
                        assert(left@[at as int] != right@[at as int]);
                    }
                }
                return false;
            }
            proof {
                if lawful::<T>() {
                    assert(left@[at as int] == right@[at as int]);
                    assert(left@.take(at + 1) =~= left@.take(at as int).push(left@[at as int]));
                    assert(right@.take(at + 1) =~= right@.take(at as int).push(right@[at as int]));
                }
            }
            at += 1;
        }
        proof {
            assert(left@.take(at as int) =~= left@);
            assert(right@.take(at as int) =~= right@);
        }
        true
    }
}

impl<T: Clone> PartialEqSpecImpl for Collection<T> where T: Ord {
    open spec fn obeys_eq_spec() -> bool {
        lawful::<T>()
    }

    /// Two collections are equal when they hold the same pairs, each as often
    /// as the other, in whatever order.
    open spec fn eq_spec(&self, other: &Self) -> bool {
        self@.to_multiset() == other@.to_multiset()
    }
}

impl<T: Clone> Eq for Collection<T> where T: Ord {
}

} // verus!
