use rs_differential_dataflow::collection::Collection;
use rs_differential_dataflow::multiset::MultiSet;

// not fully extensible yet, only has String implementation
fn add_one_strings(coll: Collection<String>) -> Collection<String> {
    coll.map(|ms| MultiSet { record: ms.record.clone(), multiplicity: ms.multiplicity.clone() + 1 })
}

fn collection_fixpoint(coll: Collection<i32>) -> Collection<i32> {
    coll.map(|ms| MultiSet { record: ms.record.clone() + 1, multiplicity: ms.multiplicity.clone() })
        .concat(coll)
        .filter(|ms| ms.record <= 5)
        .distinct()
}

#[test]
fn test_add_one() {
    let ms1 = MultiSet::new("foo".to_string(), 2);
    let ms2 = MultiSet::new("bar".to_string(), 6);
    let coll1 = Collection(vec![ms1.clone(), ms2.clone()]);
    let result = add_one_strings(coll1);
    assert_eq!(
        result,
        Collection(vec![
            MultiSet::new("foo".to_string(), 3),
            MultiSet::new("bar".to_string(), 7),
        ])
    );
}

#[test]
fn test_fixpoint_computation() {
    let collection = Collection::new(vec![MultiSet::new(1, 1)]);

    let expected = Collection(vec![
        MultiSet { record: 1, multiplicity: 1 },
        MultiSet { record: 2, multiplicity: 1 },
        MultiSet { record: 3, multiplicity: 1 },
        MultiSet { record: 4, multiplicity: 1 },
        MultiSet { record: 5, multiplicity: 1 },
    ]);

    let result = collection.iterate(|cl| collection_fixpoint(cl.clone()));
    assert_eq!(result, expected);
}

#[test]
fn fixpoint_result_is_in_ascending_order() {
    let collection = Collection::new(vec![MultiSet::new(1, 1)]);
    let result = collection.iterate(|cl| collection_fixpoint(cl.clone()));
    assert_eq!(
        result.0,
        vec![
            MultiSet::new(1, 1),
            MultiSet::new(2, 1),
            MultiSet::new(3, 1),
            MultiSet::new(4, 1),
            MultiSet::new(5, 1),
        ]
    );
}

#[test]
fn fixpoint_is_stable_under_another_round() {
    let collection = Collection::new(vec![MultiSet::new(1, 1)]);
    let fix = collection.iterate(|cl| collection_fixpoint(cl.clone()));
    assert_eq!(collection_fixpoint(fix.clone()), fix);
    let again = fix.iterate(|cl| collection_fixpoint(cl.clone()));
    assert_eq!(again, fix);
}

#[test]
fn iterate_of_a_fixed_collection_returns_it() {
    let collection = Collection::new(vec![MultiSet::new(7, 3), MultiSet::new(2, -1)]);
    let result = collection.iterate(|cl| cl.clone());
    assert_eq!(result.0, vec![MultiSet::new(7, 3), MultiSet::new(2, -1)]);
}

#[test]
fn iterate_with_an_aggregate_pipeline() {
    let coll = Collection(vec![
        MultiSet::new("a".to_string(), 1),
        MultiSet::new("b".to_string(), 2),
        MultiSet::new("a".to_string(), 3),
        MultiSet::new("b".to_string(), 4),
    ]);
    let result = coll.iterate(|coll| coll.distinct().sum().count());
    assert_eq!(
        result,
        Collection(vec![MultiSet::new("a".to_string(), 1), MultiSet::new("b".to_string(), 1)])
    );
}

#[test]
fn fruit_scenario_end_to_end() {
    let a = Collection(vec![
        MultiSet::new("apple".to_string(), 1),
        MultiSet::new("orange".to_string(), 1),
    ]);
    let b = Collection(vec![
        MultiSet::new("apple".to_string(), 4),
        MultiSet::new("pear".to_string(), 1),
    ]);
    let ab = a.concat(b);
    assert_eq!(
        ab.0,
        vec![
            MultiSet::new("apple".to_string(), 1),
            MultiSet::new("orange".to_string(), 1),
            MultiSet::new("apple".to_string(), 4),
            MultiSet::new("pear".to_string(), 1),
        ]
    );
    let expected = vec![
        MultiSet::new("apple".to_string(), 5),
        MultiSet::new("orange".to_string(), 1),
        MultiSet::new("pear".to_string(), 1),
    ];
    assert_eq!(ab.sum().0, expected);
    assert_eq!(ab.consolidate().0, expected);
    assert_eq!(ab.sum(), ab.consolidate());
}
