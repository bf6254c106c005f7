use treesize::aggregator::Aggregator;
use treesize::entry::FileEntry;
use treesize::fanout::credits_of;
use treesize::record::AggregateRecord;

fn pairs(credits: &[FileEntry]) -> Vec<(String, u64)> {
    credits.iter().map(|c| (c.path().to_string(), c.size())).collect()
}

#[test]
fn credits_name_every_level_once() {
    let credits = credits_of("root", &FileEntry::new("root/a/x", 100));
    assert_eq!(
        pairs(&credits),
        vec![("root/a/x".to_string(), 100), ("root/a".to_string(), 100), ("root".to_string(), 100)]
    );
    let credits = credits_of("/", &FileEntry::new("/f", 2));
    assert_eq!(pairs(&credits), vec![("/f".to_string(), 2), ("/".to_string(), 2)]);
    let credits = credits_of("r", &FileEntry::new("r", 0));
    assert_eq!(pairs(&credits), vec![("r".to_string(), 0)]);
}

#[test]
fn no_credits_outside_the_root() {
    assert!(credits_of("root", &FileEntry::new("rooted/a", 1)).is_empty());
    assert!(credits_of("root/a", &FileEntry::new("root", 1)).is_empty());
    assert!(credits_of("roo", &FileEntry::new("root/a", 1)).is_empty());
}

#[test]
fn credits_take_the_root_in_normal_form() {
    let credits = credits_of("root/", &FileEntry::new("root/a", 1));
    assert_eq!(pairs(&credits), vec![("root/a".to_string(), 1), ("root".to_string(), 1)]);
    let credits = credits_of("//", &FileEntry::new("/a", 4));
    assert_eq!(pairs(&credits), vec![("/a".to_string(), 4), ("/".to_string(), 4)]);
}

#[test]
fn crediting_each_equals_absorbing_the_entry() {
    let entries = [("r/a/b/c", 5u64), ("r/a/d", 7), ("r", 0), ("r/a", 0), ("elsewhere", 3), ("r/a/b/c", 1)];
    let mut agg = Aggregator::new("r");
    let mut flat = AggregateRecord::new();
    flat.set("r", 0);
    for (path, size) in entries {
        let entry = FileEntry::new(path, size);
        for credit in credits_of("r", &entry) {
            flat.credit(credit.path(), credit.size());
        }
        agg.absorb(&entry);
    }
    let folded = agg.finish();
    assert_eq!(folded.len(), flat.len());
    for path in ["r", "r/a", "r/a/b", "r/a/b/c", "r/a/d"] {
        assert_eq!(folded.get(path), flat.get(path));
    }
    assert_eq!(flat.get("r"), Some(13));
    assert_eq!(flat.get("r/a/b"), Some(6));
}

#[test]
fn mixed_credits_of_several_entries_give_the_aggregate() {
    let entries = [("r", 0u64), ("r/a", 0), ("r/a/x", 100), ("r/a/y", 200), ("r/b", 50), ("out/z", 9)];
    let mut credits: Vec<(String, u64)> = Vec::new();
    for (path, size) in entries {
        credits.extend(pairs(&credits_of("r", &FileEntry::new(path, size))));
    }
    assert_eq!(credits.len(), 1 + 2 + 3 + 3 + 2);
    let folded = {
        let mut agg = Aggregator::new("r");
        for (path, size) in entries {
            agg.absorb(&FileEntry::new(path, size));
        }
        agg.finish()
    };
    for turn in 0..credits.len() {
        let mut arrival = credits.clone();
        arrival.rotate_left(turn);
        if turn % 2 == 1 {
            arrival.reverse();
        }
        let mut record = Aggregator::new("r").finish();
        for (path, size) in &arrival {
            record.credit(path, *size);
        }
        assert_eq!(record.len(), folded.len());
        for path in ["r", "r/a", "r/a/x", "r/a/y", "r/b"] {
            assert_eq!(record.get(path), folded.get(path));
        }
        assert_eq!(record.get("r"), Some(350));
        assert_eq!(record.get("r/a"), Some(300));
    }
}

#[test]
fn credits_saturate_in_any_order() {
    let credits = [("p", u64::MAX - 1), ("p", 5), ("q", 1), ("p", 1)];
    for turn in 0..credits.len() {
        let mut arrival = credits.to_vec();
        arrival.rotate_left(turn);
        let mut record = AggregateRecord::new();
        for (path, size) in &arrival {
            record.credit(path, *size);
        }
        assert_eq!(record.get("p"), Some(u64::MAX));
        assert_eq!(record.get("q"), Some(1));
    }
}
