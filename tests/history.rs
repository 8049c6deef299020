use cycler_core::history::History;

#[test]
fn values_are_recorded_in_time_order() {
    let mut history = History::new(10);
    assert!(history.record(5, "a"));
    assert!(history.record(7, "b"));
    assert!(!history.record(7, "c"));
    assert!(!history.record(3, "d"));
    assert_eq!(history.len(), 2);
    assert_eq!(history.get(7), Some(&"b"));
    assert_eq!(history.get(5), Some(&"a"));
    assert_eq!(history.get(6), None);
}

#[test]
fn values_outside_the_window_are_dropped() {
    let mut history = History::new(10);
    for timestamp in [1u64, 5, 11, 15, 20] {
        assert!(history.record(timestamp, timestamp * 100));
    }
    history.prune(21);
    assert_eq!(history.get(5), None);
    assert_eq!(history.get(11), Some(&1100));
    assert_eq!(history.len(), 3);
    history.prune(100);
    assert_eq!(history.len(), 0);
}

#[test]
fn window_larger_than_now_keeps_everything() {
    let mut history = History::new(1000);
    history.record(0, 'x');
    history.record(3, 'y');
    history.prune(5);
    assert_eq!(history.len(), 2);
    assert_eq!(history.get(0), Some(&'x'));
}
