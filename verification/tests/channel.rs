use treesize::aggregator::Aggregator;
use treesize::channel::{
    after_send, announce, announce_credits, open, pump, pump_credit, pump_mark, take, take_credit,
    take_mark, Progress, Signal, DEFAULT_CAPACITY, MAX_CAPACITY,
};
use treesize::entry::FileEntry;
use treesize::record::AggregateRecord;
use treesize::walker::{Stat, Verdict};

fn file(len: u64) -> Option<Stat> {
    Some(Stat { regular: true, len })
}

fn dir() -> Option<Stat> {
    Some(Stat { regular: false, len: 4096 })
}

#[test]
fn default_capacity_is_a_thousand() {
    assert_eq!(DEFAULT_CAPACITY, 1000);
}

#[test]
fn announced_entries_arrive_and_are_aggregated() {
    let (tx, rx) = open(DEFAULT_CAPACITY).unwrap();
    assert_eq!(announce(&tx, false, Verdict::Traverse, Some("root"), dir()), Signal::Continue);
    assert_eq!(announce(&tx, false, Verdict::Traverse, Some("root/a"), dir()), Signal::Continue);
    assert_eq!(announce(&tx, false, Verdict::Traverse, Some("root/a/x"), file(100)), Signal::Continue);
    assert_eq!(announce(&tx, false, Verdict::Traverse, Some("root/a/y"), file(200)), Signal::Continue);
    assert_eq!(announce(&tx, false, Verdict::Traverse, Some("root/b"), file(50)), Signal::Continue);
    drop(tx);
    let mut agg = Aggregator::new("root");
    let mut received = 0;
    while pump(&mut agg, &rx, false) == Progress::Absorbed {
        received += 1;
    }
    assert_eq!(received, 5);
    assert_eq!(pump(&mut agg, &rx, false), Progress::Ended);
    let record = agg.finish();
    assert_eq!(record.get("root"), Some(350));
    assert_eq!(record.get("root/a"), Some(300));
    assert_eq!(record.get("root/b"), Some(50));
    assert_eq!(record.get("root/a/x"), Some(100));
    assert_eq!(record.get("root/a/y"), Some(200));
    assert_eq!(record.len(), 5);
}

#[test]
fn pruned_and_unreadable_paths_send_nothing() {
    let (tx, rx) = open(4).unwrap();
    assert_eq!(announce(&tx, false, Verdict::Skip, Some("root/target"), dir()), Signal::Prune);
    assert_eq!(announce(&tx, false, Verdict::Skip, Some("root/gone"), None), Signal::Prune);
    assert_eq!(announce(&tx, false, Verdict::Traverse, Some("root/locked"), None), Signal::Continue);
    assert!(rx.is_empty());
    drop(tx);
    let mut agg = Aggregator::new("root");
    assert_eq!(pump(&mut agg, &rx, false), Progress::Ended);
    let record = agg.finish();
    assert_eq!(record.len(), 1);
    assert_eq!(record.get("root"), Some(0));
}

#[test]
fn announce_reports_a_closed_channel() {
    let (tx, rx) = open(4).unwrap();
    drop(rx);
    assert_eq!(announce(&tx, false, Verdict::Traverse, Some("root/f"), file(1)), Signal::Closed);
    assert_eq!(announce(&tx, false, Verdict::Traverse, Some("root/locked"), None), Signal::Continue);
    assert_eq!(announce(&tx, false, Verdict::Skip, Some("root/f"), file(1)), Signal::Prune);
}

#[test]
fn pump_drains_what_is_buffered_after_the_senders_are_gone() {
    let (tx, rx) = open(2).unwrap();
    assert_eq!(announce(&tx, false, Verdict::Traverse, Some("r/a"), file(1)), Signal::Continue);
    assert_eq!(announce(&tx, false, Verdict::Traverse, Some("r/b"), file(2)), Signal::Continue);
    drop(tx);
    let mut agg = Aggregator::new("r");
    assert_eq!(pump(&mut agg, &rx, false), Progress::Absorbed);
    assert_eq!(agg.total(), 1);
    assert_eq!(pump(&mut agg, &rx, false), Progress::Absorbed);
    assert_eq!(agg.total(), 3);
    assert_eq!(pump(&mut agg, &rx, false), Progress::Ended);
    assert_eq!(pump(&mut agg, &rx, false), Progress::Ended);
    assert_eq!(agg.total(), 3);
}

#[test]
fn take_absorbs_an_entry_and_stops_at_the_end() {
    let mut agg = Aggregator::new("r");
    assert_eq!(take(&mut agg, Some(FileEntry::new("r/a/b", 4))), Progress::Absorbed);
    assert_eq!(agg.get("r/a"), Some(4));
    assert_eq!(take(&mut agg, Some(FileEntry::new("elsewhere", 4))), Progress::Absorbed);
    assert_eq!(agg.total(), 4);
    assert_eq!(take(&mut agg, None), Progress::Ended);
    assert_eq!(agg.total(), 4);
    assert_eq!(agg.finish().len(), 3);
}

#[test]
fn small_channel_drained_in_turns() {
    let (tx, rx) = open(2).unwrap();
    let mut agg = Aggregator::new("r");
    let mut sent = 0;
    for round in 0..5u64 {
        assert_eq!(announce(&tx, false, Verdict::Traverse, Some(&format!("r/a{}", round)), file(1)), Signal::Continue);
        assert_eq!(announce(&tx, false, Verdict::Traverse, Some(&format!("r/b{}", round)), file(2)), Signal::Continue);
        sent += 2;
        assert!(rx.is_full());
        assert_eq!(pump(&mut agg, &rx, false), Progress::Absorbed);
        assert_eq!(pump(&mut agg, &rx, false), Progress::Absorbed);
    }
    drop(tx);
    assert_eq!(pump(&mut agg, &rx, false), Progress::Ended);
    assert_eq!(sent, 10);
    assert_eq!(agg.total(), 15);
    assert_eq!(agg.finish().len(), 11);
}

#[test]
fn open_refuses_only_oversized_channels() {
    assert!(open(0).is_some());
    assert!(open(1).is_some());
    assert!(open(DEFAULT_CAPACITY).is_some());
    assert!(open(MAX_CAPACITY + 1).is_none());
    assert!(open(usize::MAX).is_none());
    assert_eq!(MAX_CAPACITY, 1 << 20);
}

#[test]
fn opened_channel_has_the_capacity_asked_for() {
    let (tx, rx) = open(3).unwrap();
    assert_eq!(tx.capacity(), Some(3));
    assert_eq!(rx.capacity(), Some(3));
    let (tx, _rx) = open(MAX_CAPACITY).unwrap();
    assert_eq!(tx.capacity(), Some(MAX_CAPACITY));
}

#[test]
fn after_send_maps_failure_to_closed() {
    assert_eq!(after_send(true), Signal::Continue);
    assert_eq!(after_send(false), Signal::Closed);
}

#[test]
fn cancelled_worker_sends_nothing() {
    let (tx, rx) = open(4).unwrap();
    assert_eq!(announce(&tx, true, Verdict::Traverse, Some("r/f"), file(1)), Signal::Cancelled);
    assert_eq!(announce(&tx, true, Verdict::Skip, Some("r/f"), file(1)), Signal::Cancelled);
    assert_eq!(announce(&tx, true, Verdict::Traverse, Some("r/f"), None), Signal::Cancelled);
    assert!(rx.is_empty());
}

#[test]
fn cancelled_aggregator_keeps_a_partial_record() {
    let (tx, rx) = open(4).unwrap();
    assert_eq!(announce(&tx, false, Verdict::Traverse, Some("r/a"), file(1)), Signal::Continue);
    assert_eq!(announce(&tx, false, Verdict::Traverse, Some("r/b"), file(2)), Signal::Continue);
    let mut agg = Aggregator::new("r");
    assert_eq!(pump(&mut agg, &rx, false), Progress::Absorbed);
    assert_eq!(pump(&mut agg, &rx, true), Progress::Cancelled);
    assert_eq!(rx.len(), 1);
    assert_eq!(agg.total(), 1);
    drop(rx);
    assert_eq!(announce(&tx, false, Verdict::Traverse, Some("r/c"), file(3)), Signal::Closed);
    let record = agg.finish();
    assert_eq!(record.get("r"), Some(1));
    assert_eq!(record.get("r/a"), Some(1));
    assert_eq!(record.get("r/b"), None);
    assert_eq!(record.len(), 2);
}

#[test]
fn fan_out_on_the_sending_side_gives_the_same_record() {
    let (tx, rx) = open(DEFAULT_CAPACITY).unwrap();
    assert_eq!(announce_credits(&tx, false, "root", Verdict::Traverse, Some("root"), dir()), Signal::Continue);
    assert_eq!(announce_credits(&tx, false, "root", Verdict::Traverse, Some("root/a"), dir()), Signal::Continue);
    assert_eq!(announce_credits(&tx, false, "root", Verdict::Traverse, Some("root/a/x"), file(100)), Signal::Continue);
    assert_eq!(announce_credits(&tx, false, "root", Verdict::Traverse, Some("root/a/y"), file(200)), Signal::Continue);
    assert_eq!(announce_credits(&tx, false, "root", Verdict::Traverse, Some("root/b"), file(50)), Signal::Continue);
    assert_eq!(announce_credits(&tx, false, "root", Verdict::Traverse, Some("elsewhere/c"), file(9)), Signal::Continue);
    assert_eq!(rx.len(), 1 + 2 + 3 + 3 + 2);
    drop(tx);
    let mut record = AggregateRecord::new();
    while pump_credit(&mut record, &rx, false) == Progress::Absorbed {}
    assert_eq!(record.get("root"), Some(350));
    assert_eq!(record.get("root/a"), Some(300));
    assert_eq!(record.get("root/b"), Some(50));
    assert_eq!(record.get("root/a/x"), Some(100));
    assert_eq!(record.get("root/a/y"), Some(200));
    assert_eq!(record.len(), 5);
}

#[test]
fn credits_leave_in_order_from_the_path_up() {
    let (tx, rx) = open(8).unwrap();
    assert_eq!(announce_credits(&tx, false, "/", Verdict::Traverse, Some("/a/b"), file(3)), Signal::Continue);
    let got: Vec<(String, u64)> = rx.try_iter().map(|c| (c.path().to_string(), c.size())).collect();
    assert_eq!(got, vec![("/a/b".to_string(), 3), ("/a".to_string(), 3), ("/".to_string(), 3)]);
}

#[test]
fn announce_credits_sends_nothing_without_an_entry() {
    let (tx, rx) = open(8).unwrap();
    assert_eq!(announce_credits(&tx, true, "r", Verdict::Traverse, Some("r/f"), file(1)), Signal::Cancelled);
    assert_eq!(announce_credits(&tx, false, "r", Verdict::Skip, Some("r/f"), file(1)), Signal::Prune);
    assert_eq!(announce_credits(&tx, false, "r", Verdict::Traverse, Some("r/f"), None), Signal::Continue);
    assert!(rx.is_empty());
    drop(rx);
    assert_eq!(announce_credits(&tx, false, "r", Verdict::Traverse, Some("r/f"), file(1)), Signal::Closed);
}

#[test]
fn take_credit_adds_to_one_path_only() {
    let mut record = AggregateRecord::new();
    assert_eq!(take_credit(&mut record, Some(FileEntry::new("r/a/b", 4))), Progress::Absorbed);
    assert_eq!(take_credit(&mut record, Some(FileEntry::new("r/a/b", 5))), Progress::Absorbed);
    assert_eq!(take_credit(&mut record, None), Progress::Ended);
    assert_eq!(record.get("r/a/b"), Some(9));
    assert_eq!(record.get("r/a"), None);
    assert_eq!(record.len(), 1);
}

#[test]
fn marks_count_distinct_paths() {
    let (tx, rx) = open(8).unwrap();
    for path in ["r", "r/a", "r/b", "r/a", "r//b/"] {
        assert_eq!(announce(&tx, false, Verdict::Traverse, Some(path), file(10)), Signal::Continue);
    }
    drop(tx);
    let mut record = AggregateRecord::new();
    assert_eq!(pump_mark(&mut record, &rx, true), Progress::Cancelled);
    assert!(record.is_empty());
    while pump_mark(&mut record, &rx, false) == Progress::Absorbed {}
    assert_eq!(record.len(), 3);
    assert_eq!(record.get("r"), Some(1));
    assert_eq!(record.get("r/a"), Some(1));
    assert_eq!(record.get("r/b"), Some(1));
    assert_eq!(take_mark(&mut record, Some(FileEntry::new("r/c", 7))), Progress::Absorbed);
    assert_eq!(take_mark(&mut record, None), Progress::Ended);
    assert_eq!(record.get("r/c"), Some(1));
}

#[test]
fn cancelled_credit_receiver_leaves_the_record() {
    let (tx, rx) = open(8).unwrap();
    assert_eq!(announce_credits(&tx, false, "r", Verdict::Traverse, Some("r/f"), file(1)), Signal::Continue);
    let mut record = AggregateRecord::new();
    assert_eq!(pump_credit(&mut record, &rx, true), Progress::Cancelled);
    assert!(record.is_empty());
    assert_eq!(rx.len(), 2);
}

#[test]
fn paths_that_are_not_text_send_nothing() {
    let (tx, rx) = open(4).unwrap();
    assert_eq!(announce(&tx, false, Verdict::Traverse, None, file(5)), Signal::Continue);
    assert_eq!(announce(&tx, false, Verdict::Traverse, None, None), Signal::Continue);
    assert_eq!(announce_credits(&tx, false, "r", Verdict::Traverse, None, file(5)), Signal::Continue);
    assert_eq!(announce(&tx, true, Verdict::Traverse, None, None), Signal::Cancelled);
    assert_eq!(announce(&tx, false, Verdict::Skip, None, None), Signal::Prune);
    assert!(rx.is_empty());
}

#[test]
fn sender_side_root_is_brought_to_normal_form() {
    let (tx, rx) = open(8).unwrap();
    assert_eq!(announce_credits(&tx, false, "r//", Verdict::Traverse, Some("r/a/f"), file(2)), Signal::Continue);
    let got: Vec<(String, u64)> = rx.try_iter().map(|c| (c.path().to_string(), c.size())).collect();
    assert_eq!(got, vec![("r/a/f".to_string(), 2), ("r/a".to_string(), 2), ("r".to_string(), 2)]);
}

#[test]
fn nothing_to_send_outside_the_root_even_when_closed() {
    let (tx, rx) = open(4).unwrap();
    drop(rx);
    assert_eq!(announce_credits(&tx, false, "r", Verdict::Traverse, Some("elsewhere/f"), file(1)), Signal::Continue);
    assert_eq!(announce_credits(&tx, false, "r", Verdict::Traverse, Some("rx"), file(1)), Signal::Continue);
    assert_eq!(announce_credits(&tx, false, "r", Verdict::Traverse, Some("r"), file(1)), Signal::Closed);
}
