use cycler_core::synchronizer::{watermark_of, Databases, PerceptionSynchronizer, Timestamped, Update};

fn update(items: &[(u64, &'static str)], watermark: Option<u64>) -> Update<&'static str> {
    Update {
        items: items.iter().map(|&(timestamp, value)| Timestamped { timestamp, value }).collect(),
        first_timestamp_of_non_finalized_database: watermark,
    }
}

fn timestamps(delivered: &[Databases<&'static str>]) -> Vec<u64> {
    delivered.iter().map(|d| d.timestamp).collect()
}

#[test]
fn finalized_timestamps_are_delivered_in_order() {
    let mut synchronizer = PerceptionSynchronizer::new(2);
    let delivered = synchronizer.merge(vec![
        update(&[(1, "a1"), (2, "a2"), (3, "a3")], Some(3)),
        update(&[(2, "b2"), (3, "b3")], Some(3)),
    ]);
    assert_eq!(timestamps(&delivered), vec![1, 2]);
    assert_eq!(delivered[0].slots, vec![Some("a1"), None]);
    assert_eq!(delivered[1].slots, vec![Some("a2"), Some("b2")]);
    assert_eq!(synchronizer.pending_timestamps(), vec![3]);
    assert_eq!(synchronizer.pending_count(), 1);

    let delivered = synchronizer.merge(vec![update(&[], Some(4)), update(&[], Some(4))]);
    assert_eq!(timestamps(&delivered), vec![3]);
    assert_eq!(delivered[0].slots, vec![Some("a3"), Some("b3")]);
    assert_eq!(synchronizer.pending_count(), 0);
}

#[test]
fn pending_timestamp_waits_for_both_watermarks() {
    let mut synchronizer = PerceptionSynchronizer::new(2);
    synchronizer.merge(vec![
        update(&[(1, "a1"), (2, "a2"), (3, "a3")], Some(3)),
        update(&[(2, "b2"), (3, "b3")], Some(3)),
    ]);
    let delivered = synchronizer.merge(vec![update(&[(4, "a4")], Some(5)), update(&[], Some(3))]);
    assert!(delivered.is_empty());
    assert_eq!(synchronizer.pending_timestamps(), vec![3, 4]);
}

#[test]
fn stalled_instance_blocks_join_and_pending_grows() {
    let mut synchronizer = PerceptionSynchronizer::new(2);
    let delivered = synchronizer.merge(vec![
        update(&[(1, "a1"), (2, "a2")], Some(3)),
        update(&[(2, "b2")], Some(2)),
    ]);
    assert_eq!(timestamps(&delivered), vec![1]);
    let mut previous = synchronizer.pending_count();
    for timestamp in 3..10u64 {
        let delivered = synchronizer.merge(vec![
            update(&[(timestamp, "a")], Some(timestamp + 1)),
            update(&[], Some(2)),
        ]);
        assert!(delivered.is_empty());
        let count = synchronizer.pending_count();
        assert!(count >= previous);
        previous = count;
    }
    assert_eq!(synchronizer.pending_timestamps(), (2..10).collect::<Vec<u64>>());
}

#[test]
fn instance_without_open_item_does_not_block() {
    let mut synchronizer = PerceptionSynchronizer::new(2);
    let delivered = synchronizer.merge(vec![update(&[(5, "a5"), (7, "a7")], Some(7)), update(&[], None)]);
    assert_eq!(timestamps(&delivered), vec![5]);
    let delivered = synchronizer.merge(vec![update(&[], None), update(&[], None)]);
    assert_eq!(timestamps(&delivered), vec![7]);
    assert_eq!(delivered[0].slots, vec![Some("a7"), None]);
}

#[test]
fn same_timestamp_of_two_instances_shares_one_entry() {
    let mut synchronizer = PerceptionSynchronizer::new(3);
    let delivered = synchronizer.merge(vec![
        update(&[(10, "a")], None),
        update(&[(10, "b")], None),
        update(&[(10, "c")], None),
    ]);
    assert_eq!(delivered.len(), 1);
    assert_eq!(delivered[0].slots, vec![Some("a"), Some("b"), Some("c")]);
}

#[test]
fn out_of_order_items_are_sorted() {
    let mut synchronizer = PerceptionSynchronizer::new(1);
    let delivered = synchronizer.merge(vec![update(&[(9, "x"), (3, "y"), (6, "z")], Some(8))]);
    assert_eq!(timestamps(&delivered), vec![3, 6]);
    assert_eq!(synchronizer.pending_timestamps(), vec![9]);
    assert_eq!(synchronizer.instance_count(), 1);
}

#[test]
fn later_item_of_same_instance_and_timestamp_wins() {
    let mut synchronizer = PerceptionSynchronizer::new(1);
    let delivered = synchronizer.merge(vec![update(&[(4, "old"), (4, "new")], None)]);
    assert_eq!(delivered[0].slots, vec![Some("new")]);
}

#[test]
fn watermark_is_minimum_of_open_instances() {
    assert_eq!(watermark_of(&vec![update(&[], Some(7)), update(&[], None), update(&[], Some(4))]), Some(4));
    assert_eq!(watermark_of(&vec![update(&[], None), update(&[], None)]), None);
    assert_eq!(watermark_of::<&'static str>(&vec![]), None);
}
