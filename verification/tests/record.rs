use treesize::record::AggregateRecord;

#[test]
fn new_record_is_empty() {
    let record = AggregateRecord::new();
    assert!(record.is_empty());
    assert_eq!(record.len(), 0);
    assert_eq!(record.get("a"), None);
    assert!(!record.contains("a"));
}

#[test]
fn set_replaces_what_was_there() {
    let mut record = AggregateRecord::new();
    record.set("a", 1);
    record.set("b", 1);
    record.set("a", 1);
    assert_eq!(record.len(), 2);
    assert_eq!(record.get("a"), Some(1));
    record.set("a", 9);
    assert_eq!(record.get("a"), Some(9));
    assert!(record.contains("b"));
}

#[test]
fn credit_adds_from_zero() {
    let mut record = AggregateRecord::new();
    record.credit("a", 5);
    assert_eq!(record.get("a"), Some(5));
    record.credit("a", 7);
    assert_eq!(record.get("a"), Some(12));
    record.credit("b", 0);
    assert_eq!(record.get("b"), Some(0));
    assert_eq!(record.len(), 2);
}

#[test]
fn credit_stops_at_the_largest_count() {
    let mut record = AggregateRecord::new();
    record.credit("a", u64::MAX - 2);
    record.credit("a", 2);
    assert_eq!(record.get("a"), Some(u64::MAX));
    record.credit("a", 1);
    assert_eq!(record.get("a"), Some(u64::MAX));
}
