use rs_differential_dataflow::multiset::MultiSet;
use std::cmp::Ordering;

#[test]
fn test_multiset_clone() {
    let ms1 = MultiSet::new("foo".to_string(), 2);
    let ms2 = MultiSet::new(9, 6);
    let ms3 = MultiSet::new(("foo", 6), 1);

    assert_eq!(ms1, ms1.clone());
    assert_eq!(ms2, ms2.clone());
    assert_eq!(ms3, ms3.clone());
}

#[test]
fn test_multiset_eq() {
    let ms1 = MultiSet::new("foo".to_string(), 2);
    let ms2 = MultiSet::new(9, 6);
    let ms3 = MultiSet::new(("foo", 6), 1);

    assert_eq!(ms1, MultiSet::new("foo".to_string(), 2));
    assert_eq!(ms2, MultiSet::new(9, 6));
    assert_eq!(ms3, MultiSet::new(("foo", 6), 1));
}

#[test]
fn multiset_new_keeps_both_fields() {
    let ms = MultiSet::new("pear".to_string(), -4);
    assert_eq!(ms.record, "pear".to_string());
    assert_eq!(ms.multiplicity, -4);
}

#[test]
fn multiset_equality_needs_both_fields() {
    assert_ne!(MultiSet::new(9, 6), MultiSet::new(9, 7));
    assert_ne!(MultiSet::new(9, 6), MultiSet::new(8, 6));
}

#[test]
fn multiset_order_is_by_record_alone() {
    assert!(MultiSet::new(1, 50) < MultiSet::new(2, -50));
    assert!(MultiSet::new(3, 0) > MultiSet::new(2, 9));
    assert_eq!(MultiSet::new(4, 1).partial_cmp(&MultiSet::new(4, 2)), Some(Ordering::Equal));
    assert!(!(MultiSet::new(4, 1) < MultiSet::new(4, 2)));
    assert!(MultiSet::new(4, 1) <= MultiSet::new(4, 2));
}
