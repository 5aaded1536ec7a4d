use ospf_viz::entry::{Entry, EntryParseError, EntryType, Metric};

#[test]
fn reads_adjacency_line() {
    let e = Entry::from_str("router 10.0.0.2 metric 10").unwrap();
    assert_eq!(e.typ, EntryType::Router);
    assert_eq!(e.obj, "10.0.0.2");
    assert_eq!(e.metric, Metric::Internal(10));
    let e = Entry::from_str("  external   0.0.0.0/0\tmetric2 +20 ").unwrap();
    assert_eq!(e.typ, EntryType::External);
    assert_eq!(e.obj, "0.0.0.0/0");
    assert_eq!(e.metric, Metric::External(20));
}

#[test]
fn wrong_token_count() {
    assert_eq!(
        Entry::from_str("router R2 metric").unwrap_err(),
        EntryParseError::InvalidStructure(3)
    );
    assert_eq!(
        Entry::from_str("router R2 metric 1 2").unwrap_err(),
        EntryParseError::InvalidStructure(5)
    );
}

#[test]
fn unknown_entry_type() {
    assert_eq!(
        Entry::from_str("bridge R2 metric 1").unwrap_err(),
        EntryParseError::InvalidEntryType
    );
}

#[test]
fn unknown_metric_kind() {
    assert_eq!(
        Entry::from_str("router R2 metric3 1").unwrap_err(),
        EntryParseError::UnknownMetric
    );
}

#[test]
fn bad_metric_value() {
    assert_eq!(
        Entry::from_str("router R2 metric ten").unwrap_err(),
        EntryParseError::InvalidMetric
    );
    assert_eq!(
        Entry::from_str("router R2 metric 65536").unwrap_err(),
        EntryParseError::InvalidMetric
    );
    assert_eq!(
        Entry::from_str("router R2 metric -1").unwrap_err(),
        EntryParseError::InvalidMetric
    );
    assert_eq!(
        Entry::from_str("router R2 metric 65535").unwrap().metric,
        Metric::Internal(65535)
    );
}

#[test]
fn metric_weights() {
    assert_eq!(Metric::Internal(1000).weight(), 1000);
    assert_eq!(Metric::External(1).weight(), 1001);
    assert_eq!(Metric::External(65535).weight(), 66535);
    assert!(Metric::External(0).weight() > Metric::Internal(999).weight());
}
