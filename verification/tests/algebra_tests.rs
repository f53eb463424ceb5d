use rs_differential_dataflow::collection::{group_pairs, Collection};
use rs_differential_dataflow::multiset::MultiSet;
use rs_differential_dataflow::order::sort_pairs;

fn letters() -> Collection<String> {
    Collection(vec![
        MultiSet::new("a".to_string(), 1),
        MultiSet::new("b".to_string(), 2),
        MultiSet::new("a".to_string(), 3),
        MultiSet::new("b".to_string(), 4),
    ])
}

fn pair(record: &str, multiplicity: i32) -> MultiSet<String> {
    MultiSet::new(record.to_string(), multiplicity)
}

#[test]
fn new_keeps_pairs_in_order() {
    let coll = Collection::new(vec![MultiSet::new(3, 1), MultiSet::new(1, 2)]);
    assert_eq!(coll.0, vec![MultiSet::new(3, 1), MultiSet::new(1, 2)]);
}

#[test]
fn equality_ignores_order() {
    let left = Collection(vec![pair("a", 1), pair("b", 2), pair("a", 3)]);
    let right = Collection(vec![pair("a", 3), pair("a", 1), pair("b", 2)]);
    assert_eq!(left, right);
}

#[test]
fn equality_breaks_ties_by_multiplicity() {
    let left = Collection(vec![MultiSet::new(1, 1), MultiSet::new(1, 2)]);
    let right = Collection(vec![MultiSet::new(1, 2), MultiSet::new(1, 1)]);
    assert_eq!(left, right);
}

#[test]
fn equality_is_not_set_equality() {
    let once = Collection(vec![MultiSet::new(1, 1)]);
    let twice = Collection(vec![MultiSet::new(1, 1), MultiSet::new(1, 1)]);
    let other = Collection(vec![MultiSet::new(1, 2)]);
    assert_ne!(once, twice);
    assert_ne!(once, other);
    assert_ne!(twice, other);
}

#[test]
fn equality_of_empty_collections() {
    let left: Collection<i32> = Collection(vec![]);
    let right: Collection<i32> = Collection::new(vec![]);
    assert_eq!(left, right);
    assert_ne!(left, Collection(vec![MultiSet::new(0, 0)]));
}

#[test]
fn clone_keeps_pairs_and_order() {
    let coll = letters();
    assert_eq!(coll.clone().0, coll.0);
}

#[test]
fn concat_appends_without_merging() {
    let coll1 = Collection(vec![pair("a", 1), pair("b", 2)]);
    let coll2 = Collection(vec![pair("c", 3), pair("a", 4)]);
    let result = coll1.concat(coll2);
    assert_eq!(result.0, vec![pair("a", 1), pair("b", 2), pair("c", 3), pair("a", 4)]);
}

#[test]
fn concat_is_associative() {
    let a = Collection(vec![MultiSet::new(1, 1)]);
    let b = Collection(vec![MultiSet::new(2, 2), MultiSet::new(1, -1)]);
    let c = Collection(vec![MultiSet::new(3, 3)]);
    let left = a.clone().concat(b.clone()).concat(c.clone());
    let right = a.concat(b.concat(c));
    assert_eq!(left.0, right.0);
}

#[test]
fn concat_with_empty() {
    let a = Collection(vec![MultiSet::new(1, 1)]);
    let empty: Collection<i32> = Collection(vec![]);
    assert_eq!(a.clone().concat(empty.clone()).0, a.0);
    assert_eq!(empty.concat(a.clone()).0, a.0);
}

#[test]
fn negate_flips_each_sign() {
    let coll = Collection(vec![pair("a", 1), pair("b", -2), pair("c", 0)]);
    let result = coll.negate();
    assert_eq!(result.0, vec![pair("a", -1), pair("b", 2), pair("c", 0)]);
}

#[test]
fn negate_cancels_under_sum() {
    let a = Collection(vec![pair("a", 1), pair("b", -2), pair("a", 5), pair("c", 7)]);
    let result = a.clone().concat(a.negate()).sum();
    assert_eq!(result.0, vec![pair("a", 0), pair("b", 0), pair("c", 0)]);
}

#[test]
fn negate_cancels_under_consolidate() {
    let a = Collection(vec![pair("a", 1), pair("b", -2), pair("a", 5)]);
    let result = a.clone().concat(a.negate()).consolidate();
    assert_eq!(result.0, vec![]);
}

#[test]
fn subtraction_by_concat_and_negate() {
    let a = Collection(vec![MultiSet::new(1, 5), MultiSet::new(2, 1)]);
    let b = Collection(vec![MultiSet::new(1, 2), MultiSet::new(2, 1)]);
    let result = a.concat(b.negate()).consolidate();
    assert_eq!(result.0, vec![MultiSet::new(1, 3)]);
}

#[test]
fn map_changes_each_pair_in_place() {
    let coll = Collection(vec![pair("a", 1), pair("b", 2)]);
    let result = coll.map(|ms| MultiSet {
        record: ms.record.to_uppercase(),
        multiplicity: ms.multiplicity * 10,
    });
    assert_eq!(result.0, vec![pair("A", 10), pair("B", 20)]);
}

#[test]
fn map_preserves_cardinality() {
    let coll = letters();
    let result = coll.map(|_ms| MultiSet::new("same".to_string(), 0));
    assert_eq!(result.0.len(), coll.0.len());
    let empty: Collection<i32> = Collection(vec![]);
    assert_eq!(empty.map(|ms| MultiSet::new(ms.record, ms.multiplicity)).0.len(), 0);
}

#[test]
fn filter_keeps_matching_pairs_in_order() {
    let coll = letters();
    let result = coll.filter(|ms| ms.record == "b");
    assert_eq!(result.0, vec![pair("b", 2), pair("b", 4)]);
    let result = coll.filter(|ms| ms.multiplicity > 1);
    assert_eq!(result.0, vec![pair("b", 2), pair("a", 3), pair("b", 4)]);
}

#[test]
fn filter_drops_rather_than_zeroes() {
    let coll = letters();
    assert_eq!(coll.filter(|_ms| false).0, vec![]);
    assert_eq!(coll.filter(|_ms| true).0, coll.0);
}

#[test]
fn filter_counts_no_more_than_the_source() {
    let coll = letters();
    let kept = coll.filter(|ms| ms.multiplicity != 3);
    assert_eq!(kept.count().0, vec![pair("a", 1), pair("b", 2)]);
    assert_eq!(coll.count().0, vec![pair("a", 2), pair("b", 2)]);
}

#[test]
fn reduce_sums_each_group() {
    let coll = letters();
    let result = coll.reduce(|vals| {
        let sum = vals.iter().map(|(_, multiplicity)| multiplicity).sum();
        vec![(vals[0].0.clone(), sum)]
    });
    assert_eq!(result.0, vec![pair("a", 4), pair("b", 6)]);
}

#[test]
fn reduce_hands_over_each_pair_exactly_once() {
    let coll = Collection(vec![
        MultiSet::new(3, 1),
        MultiSet::new(1, 9),
        MultiSet::new(3, -4),
        MultiSet::new(2, 0),
        MultiSet::new(1, 9),
    ]);
    let result = coll.reduce(|vals| vals);
    assert_eq!(
        result.0,
        vec![
            MultiSet::new(1, 9),
            MultiSet::new(1, 9),
            MultiSet::new(2, 0),
            MultiSet::new(3, -4),
            MultiSet::new(3, 1),
        ]
    );
    assert_eq!(result, coll);
}

#[test]
fn reduce_gives_groups_unsummed_and_in_order() {
    let coll = Collection(vec![MultiSet::new(5, 2), MultiSet::new(6, 1), MultiSet::new(5, -7)]);
    let result = coll.reduce(|vals| {
        let first = vals[0].1;
        let size = vals.len() as i32;
        vec![(vals[0].0, first), (vals[0].0 + 100, size)]
    });
    assert_eq!(
        result.0,
        vec![
            MultiSet::new(5, 2),
            MultiSet::new(6, 1),
            MultiSet::new(105, 2),
            MultiSet::new(106, 1),
        ]
    );
}

#[test]
fn reduce_may_drop_groups() {
    let coll = letters();
    let result = coll.reduce(|_vals| vec![]);
    assert_eq!(result.0, vec![]);
}

#[test]
fn count_counts_entries_not_multiplicities() {
    assert_eq!(letters().count().0, vec![pair("a", 2), pair("b", 2)]);
    let coll = Collection(vec![MultiSet::new(1, -5), MultiSet::new(1, 0), MultiSet::new(1, 50)]);
    assert_eq!(coll.count().0, vec![MultiSet::new(1, 3)]);
}

#[test]
fn sum_adds_multiplicities() {
    assert_eq!(letters().sum().0, vec![pair("a", 4), pair("b", 6)]);
    let coll = Collection(vec![MultiSet::new(2, -5), MultiSet::new(1, 4), MultiSet::new(2, 5)]);
    assert_eq!(coll.sum().0, vec![MultiSet::new(1, 4), MultiSet::new(2, 0)]);
}

#[test]
fn sum_of_large_terms_that_cancel() {
    let coll = Collection(vec![
        MultiSet::new(1, i32::MAX),
        MultiSet::new(1, i32::MAX),
        MultiSet::new(1, i32::MIN),
        MultiSet::new(1, i32::MIN),
    ]);
    assert_eq!(coll.sum().0, vec![MultiSet::new(1, -2)]);
}

#[test]
fn distinct_projects_presence() {
    assert_eq!(letters().distinct().0, vec![pair("a", 1), pair("b", 1)]);
    let coll = Collection(vec![MultiSet::new(9, -3), MultiSet::new(4, 0), MultiSet::new(9, 3)]);
    assert_eq!(coll.distinct().0, vec![MultiSet::new(4, 1), MultiSet::new(9, 1)]);
}

#[test]
fn distinct_is_idempotent() {
    let once = letters().distinct();
    let twice = once.distinct();
    assert_eq!(twice, once);
    assert_eq!(twice.0, once.0);
}

#[test]
fn consolidate_emits_net_sums_and_drops_zero() {
    let coll = Collection(vec![pair("a", 1), pair("b", 0), pair("a", -1), pair("a", 2)]);
    assert_eq!(coll.consolidate().0, vec![pair("a", 2)]);
}

#[test]
fn consolidate_keeps_negative_net() {
    let coll = Collection(vec![pair("x", -3), pair("x", 1), pair("y", 2), pair("y", -2)]);
    assert_eq!(coll.consolidate().0, vec![pair("x", -2)]);
}

#[test]
fn consolidate_is_idempotent_and_keeps_net() {
    let coll = Collection(vec![pair("a", 1), pair("b", 5), pair("a", -4), pair("c", 0)]);
    let once = coll.consolidate();
    let twice = once.consolidate();
    assert_eq!(twice, once);
    assert_eq!(once.sum().0, vec![pair("a", -3), pair("b", 5)]);
    assert_eq!(coll.sum().0, vec![pair("a", -3), pair("b", 5), pair("c", 0)]);
}

#[test]
fn aggregates_of_empty_are_empty() {
    let empty: Collection<i32> = Collection(vec![]);
    assert_eq!(empty.count().0, vec![]);
    assert_eq!(empty.sum().0, vec![]);
    assert_eq!(empty.distinct().0, vec![]);
    assert_eq!(empty.consolidate().0, vec![]);
    assert_eq!(empty.join(&empty).0, vec![]);
}

#[test]
fn join_multiplies_multiplicities() {
    let a = Collection(vec![pair("k", 2)]);
    let b = Collection(vec![pair("k", 3)]);
    assert_eq!(a.join(&b), Collection(vec![pair("k", 6)]));
}

#[test]
fn join_matches_on_record() {
    let coll1 = Collection(vec![pair("a", 1), pair("b", 2), pair("c", 9)]);
    let coll2 = Collection(vec![pair("b", 4), pair("a", 3), pair("d", 9)]);
    let result = coll1.join(&coll2);
    assert_eq!(result.0, vec![pair("a", 3), pair("b", 8)]);
}

#[test]
fn join_keeps_every_combination() {
    let a = Collection(vec![MultiSet::new(7, 1), MultiSet::new(7, 2)]);
    let b = Collection(vec![MultiSet::new(7, 3), MultiSet::new(8, 1), MultiSet::new(7, -5)]);
    let result = a.join(&b);
    assert_eq!(
        result.0,
        vec![
            MultiSet::new(7, 3),
            MultiSet::new(7, -5),
            MultiSet::new(7, 6),
            MultiSet::new(7, -10),
        ]
    );
    assert_eq!(result.consolidate().0, vec![MultiSet::new(7, -6)]);
}

#[test]
fn join_without_common_records_is_empty() {
    let a = Collection(vec![MultiSet::new(1, 1)]);
    let b = Collection(vec![MultiSet::new(2, 1)]);
    assert_eq!(a.join(&b).0, vec![]);
}

#[test]
fn sort_pairs_orders_by_record_then_multiplicity() {
    let sorted = sort_pairs(vec![
        MultiSet::new(3, 1),
        MultiSet::new(1, 9),
        MultiSet::new(3, -4),
        MultiSet::new(2, 0),
        MultiSet::new(1, -2),
        MultiSet::new(3, 1),
    ]);
    assert_eq!(
        sorted,
        vec![
            MultiSet::new(1, -2),
            MultiSet::new(1, 9),
            MultiSet::new(2, 0),
            MultiSet::new(3, -4),
            MultiSet::new(3, 1),
            MultiSet::new(3, 1),
        ]
    );
    let nothing: Vec<MultiSet<i32>> = vec![];
    assert_eq!(sort_pairs(nothing), vec![]);
}

#[test]
fn group_pairs_groups_in_order_of_first_appearance() {
    let pairs = vec![pair("b", 2), pair("a", 1), pair("b", -4), pair("c", 0), pair("a", 3)];
    let groups = group_pairs(&pairs);
    assert_eq!(
        groups,
        vec![
            vec![("b".to_string(), 2), ("b".to_string(), -4)],
            vec![("a".to_string(), 1), ("a".to_string(), 3)],
            vec![("c".to_string(), 0)],
        ]
    );
    let nothing: Vec<MultiSet<String>> = vec![];
    assert_eq!(group_pairs(&nothing).len(), 0);
}
