use distributed_system_challenges::log_entry::{LogEntry, LogTier};
use distributed_system_challenges::log_store::{holds_entry, holds_pair, LogStore};

fn names(list: &[&str]) -> Vec<String> {
    list.iter().map(|s| s.to_string()).collect()
}

fn entry(key: &str, offset: usize, msg: usize, seen: &[&str]) -> LogEntry {
    LogEntry::new(offset + 100, key.to_string(), offset, msg, names(seen))
}

fn sorted(mut list: Vec<String>) -> Vec<String> {
    list.sort();
    list
}

fn seen_by(store: &LogStore, key: &str, offset: usize) -> Vec<String> {
    sorted(store.get(key, offset).expect("entry expected").seen_by)
}

/// Everything a store holds of the given entries, in a form that can be compared.
fn snapshot(store: &LogStore, ids: &[(&str, usize)]) -> Vec<(String, usize, Option<(usize, usize, LogTier, Vec<String>)>)> {
    ids.iter()
        .map(|(key, offset)| {
            let held = store.get(key, *offset).map(|e| {
                (e.msg_id, e.msg, store.tier_of(key, *offset).unwrap(), sorted(e.seen_by))
            });
            (key.to_string(), *offset, held)
        })
        .collect()
}

#[test]
fn new_store_is_empty() {
    let store = LogStore::new("n1");
    assert_eq!(store.src(), "n1");
    assert_eq!(store.len(), 0);
    assert!(!store.has_key("x"));
    assert_eq!(store.list_from("x", 0), vec![]);
    assert_eq!(store.committed_count("x"), 0);
    assert_eq!(store.committed_offset("x"), None);
}

#[test]
fn init_renames_the_owner_and_keeps_the_log() {
    let mut store = LogStore::new("uninit");
    store.append("x", 1, 0, 10);
    store.init("n1");
    assert_eq!(store.src(), "n1");
    assert_eq!(store.len(), 1);
    assert_eq!(seen_by(&store, "x", 0), names(&["uninit"]));
    let e = store.append("x", 2, 1, 11);
    assert_eq!(e.seen_by, names(&["n1"]));
}

#[test]
fn append_makes_an_uncommitted_entry_seen_by_the_owner() {
    let mut store = LogStore::new("n1");
    let e = store.append("x", 7, 3, 42);
    assert_eq!((e.msg_id, e.key.as_str(), e.offset, e.msg), (7, "x", 3, 42));
    assert_eq!(e.seen_by, names(&["n1"]));
    assert_eq!(store.tier_of("x", 3), Some(LogTier::Uncommitted));
    assert_eq!(store.len(), 1);
    assert!(store.has_key("x"));
    assert!(!store.has_key("y"));
}

#[test]
fn append_under_a_held_offset_only_enriches() {
    let mut store = LogStore::new("n1");
    store.merge_incoming(&vec![entry("x", 0, 10, &["n2"])], LogTier::Committed);
    let e = store.append("x", 9, 0, 99);
    assert_eq!(e.msg, 99);
    let held = store.get("x", 0).unwrap();
    assert_eq!((held.msg_id, held.msg), (100, 10));
    assert_eq!(store.tier_of("x", 0), Some(LogTier::Committed));
    assert_eq!(seen_by(&store, "x", 0), names(&["n1", "n2"]));
    assert_eq!(store.len(), 1);
}

#[test]
fn merge_inserts_new_entries_into_the_tier_they_arrive_in() {
    let mut store = LogStore::new("n1");
    store.merge_incoming(&vec![entry("x", 0, 10, &["n2"])], LogTier::Committed);
    store.merge_incoming(&vec![entry("x", 1, 11, &["n2"])], LogTier::Uncommitted);
    assert_eq!(store.tier_of("x", 0), Some(LogTier::Committed));
    assert_eq!(store.tier_of("x", 1), Some(LogTier::Uncommitted));
    assert_eq!(store.tier_of("x", 2), None);
}

#[test]
fn merge_unions_seen_by_and_keeps_tier_and_content() {
    let mut store = LogStore::new("n1");
    store.merge_incoming(&vec![entry("x", 0, 10, &["n1"])], LogTier::Committed);
    let mut other = entry("x", 0, 77, &["n2", "n3"]);
    other.msg_id = 5;
    store.merge_incoming(&vec![other], LogTier::Uncommitted);
    let held = store.get("x", 0).unwrap();
    assert_eq!((held.msg_id, held.msg), (100, 10));
    assert_eq!(store.tier_of("x", 0), Some(LogTier::Committed));
    assert_eq!(seen_by(&store, "x", 0), names(&["n1", "n2", "n3"]));
}

#[test]
fn merge_is_idempotent() {
    let payload = vec![
        entry("x", 0, 10, &["n2"]),
        entry("x", 1, 11, &["n2", "n3"]),
        entry("y", 0, 5, &["n3"]),
        entry("x", 0, 10, &["n4"]),
    ];
    let ids = [("x", 0), ("x", 1), ("y", 0), ("z", 0)];
    let mut once = LogStore::new("n1");
    once.append("x", 1, 1, 11);
    once.merge_incoming(&payload, LogTier::Uncommitted);
    let mut twice = LogStore::new("n1");
    twice.append("x", 1, 1, 11);
    twice.merge_incoming(&payload, LogTier::Uncommitted);
    twice.merge_incoming(&payload, LogTier::Uncommitted);
    assert_eq!(snapshot(&once, &ids), snapshot(&twice, &ids));
    assert_eq!(once.len(), twice.len());
    assert_eq!(once.len(), 3);
}

#[test]
fn merge_is_commutative_when_the_payloads_agree() {
    let a = vec![entry("x", 0, 10, &["n2"]), entry("x", 1, 11, &["n2"])];
    let b = vec![entry("x", 1, 11, &["n3"]), entry("y", 4, 9, &["n3"])];
    let ids = [("x", 0), ("x", 1), ("y", 4)];
    let mut ab = LogStore::new("n1");
    ab.merge_incoming(&a, LogTier::Uncommitted);
    ab.merge_incoming(&b, LogTier::Uncommitted);
    let mut ba = LogStore::new("n1");
    ba.merge_incoming(&b, LogTier::Uncommitted);
    ba.merge_incoming(&a, LogTier::Uncommitted);
    assert_eq!(snapshot(&ab, &ids), snapshot(&ba, &ids));
    assert_eq!(seen_by(&ab, "x", 1), names(&["n2", "n3"]));
}

#[test]
fn merge_order_shows_when_the_payloads_disagree_on_the_tier() {
    let a = vec![entry("x", 0, 10, &["n2"])];
    let b = vec![entry("x", 0, 10, &["n3"])];
    let mut ab = LogStore::new("n1");
    ab.merge_incoming(&a, LogTier::Committed);
    ab.merge_incoming(&b, LogTier::Uncommitted);
    let mut ba = LogStore::new("n1");
    ba.merge_incoming(&b, LogTier::Uncommitted);
    ba.merge_incoming(&a, LogTier::Committed);
    assert_eq!(ab.tier_of("x", 0), Some(LogTier::Committed));
    assert_eq!(ba.tier_of("x", 0), Some(LogTier::Uncommitted));
    assert_eq!(seen_by(&ab, "x", 0), seen_by(&ba, "x", 0));
}

#[test]
fn insert_takes_in_a_pushed_entry_once() {
    let mut store = LogStore::new("n2");
    store.insert(entry("x", 0, 10, &["n1", "n2"]));
    store.insert(entry("x", 0, 55, &["n3"]));
    assert_eq!(store.len(), 1);
    assert_eq!(store.get("x", 0).unwrap().msg, 10);
    assert_eq!(store.tier_of("x", 0), Some(LogTier::Uncommitted));
    assert_eq!(seen_by(&store, "x", 0), names(&["n1", "n2", "n3"]));
}

#[test]
fn commit_moves_the_prefix_and_records_the_offset() {
    let mut store = LogStore::new("n1");
    for offset in 0..5 {
        store.append("x", offset, offset, offset * 10);
    }
    store.append("y", 9, 0, 1);
    store.commit(&vec![("x".to_string(), 2)]);
    for offset in 0..3 {
        assert_eq!(store.tier_of("x", offset), Some(LogTier::Committed));
    }
    for offset in 3..5 {
        assert_eq!(store.tier_of("x", offset), Some(LogTier::Uncommitted));
    }
    assert_eq!(store.tier_of("y", 0), Some(LogTier::Uncommitted));
    assert_eq!(store.committed_offset("x"), Some(2));
    assert_eq!(store.committed_offset("y"), None);
    assert_eq!(store.committed_count("x"), 3);
    assert_eq!(store.committed_count("y"), 0);
}

#[test]
fn commit_of_a_lower_offset_changes_nothing() {
    let mut store = LogStore::new("n1");
    for offset in 0..8 {
        store.append("key", offset, offset, offset);
    }
    store.commit_one("key", 5);
    assert_eq!(store.committed_offset("key"), Some(5));
    assert_eq!(store.committed_count("key"), 6);
    store.commit_one("key", 3);
    assert_eq!(store.committed_offset("key"), Some(5));
    assert_eq!(store.committed_count("key"), 6);
    store.commit_one("key", 5);
    assert_eq!(store.committed_offset("key"), Some(5));
    store.commit_one("key", 6);
    assert_eq!(store.committed_offset("key"), Some(6));
    assert_eq!(store.committed_count("key"), 7);
}

#[test]
fn commit_of_an_unknown_key_records_the_offset() {
    let mut store = LogStore::new("n1");
    store.commit(&vec![("x".to_string(), 4)]);
    assert_eq!(store.committed_offset("x"), Some(4));
    assert_eq!(store.committed_count("x"), 0);
    store.append("x", 0, 3, 30);
    assert_eq!(store.tier_of("x", 3), Some(LogTier::Uncommitted));
    store.commit(&vec![("x".to_string(), 2)]);
    assert_eq!(store.committed_offset("x"), Some(4));
    assert_eq!(store.tier_of("x", 3), Some(LogTier::Uncommitted));
    store.commit(&vec![("x".to_string(), 4)]);
    assert_eq!(store.tier_of("x", 3), Some(LogTier::Committed));
}

#[test]
fn commit_takes_the_pairs_in_order() {
    let mut store = LogStore::new("n1");
    store.append("x", 0, 0, 1);
    store.append("x", 1, 1, 2);
    store.commit(&vec![("x".to_string(), 1), ("x".to_string(), 0)]);
    assert_eq!(store.committed_offset("x"), Some(1));
    assert_eq!(store.committed_count("x"), 2);
}

#[test]
fn list_from_is_sorted_and_spans_all_tiers() {
    let mut store = LogStore::new("n1");
    store.append("x", 0, 7, 70);
    store.append("x", 0, 2, 20);
    store.append("x", 0, 5, 50);
    store.append("x", 0, 0, 100);
    store.append("y", 0, 3, 33);
    store.commit_one("x", 2);
    store.merge_incoming(&vec![entry("x", 9, 90, &["n1", "n2"])], LogTier::Anchored);
    assert_eq!(store.list_from("x", 0), vec![(0, 100), (2, 20), (5, 50), (7, 70), (9, 90)]);
    assert_eq!(store.list_from("x", 3), vec![(5, 50), (7, 70), (9, 90)]);
    assert_eq!(store.list_from("x", 5), vec![(5, 50), (7, 70), (9, 90)]);
    assert_eq!(store.list_from("x", 10), vec![]);
    assert_eq!(store.list_from("y", 0), vec![(3, 33)]);
    assert_eq!(store.list_from("z", 0), vec![]);
}

#[test]
fn list_logs_leaves_out_unknown_keys() {
    let mut store = LogStore::new("n1");
    store.append("x", 0, 0, 10);
    store.append("x", 0, 1, 11);
    store.append("y", 0, 0, 5);
    let logs = store.list_logs(&vec![
        ("y".to_string(), 0),
        ("nope".to_string(), 0),
        ("x".to_string(), 1),
        ("x".to_string(), 9),
    ]);
    assert_eq!(
        logs,
        vec![
            ("y".to_string(), vec![(0, 5)]),
            ("x".to_string(), vec![(1, 11)]),
            ("x".to_string(), vec![]),
        ]
    );
    assert_eq!(store.list_logs(&vec![]), vec![]);
}

#[test]
fn list_committed_offsets_counts_committed_entries() {
    let mut store = LogStore::new("n1");
    store.append("x", 0, 0, 10);
    store.append("x", 0, 1, 11);
    store.append("y", 0, 0, 5);
    store.commit(&vec![("x".to_string(), 0)]);
    let counts = store.list_committed_offsets(&names(&["x", "y", "z"]));
    assert_eq!(counts, vec![("x".to_string(), 1)]);
    store.commit(&vec![("y".to_string(), 7), ("x".to_string(), 1)]);
    let counts = store.list_committed_offsets(&names(&["y", "x"]));
    assert_eq!(counts, vec![("y".to_string(), 1), ("x".to_string(), 2)]);
}

#[test]
fn anchor_moves_only_what_the_whole_cluster_has_seen() {
    let cluster = names(&["n1", "n2", "n3"]);
    let mut store = LogStore::new("n1");
    store.merge_incoming(
        &vec![
            entry("x", 0, 10, &["n1", "n2", "n3"]),
            entry("x", 1, 11, &["n1", "n2"]),
            entry("x", 2, 12, &["n3", "n2", "n1", "n4"]),
        ],
        LogTier::Uncommitted,
    );
    store.merge_incoming(&vec![entry("y", 0, 5, &["n2", "n3", "n1"])], LogTier::Committed);
    store.anchor(&cluster);
    assert_eq!(store.tier_of("x", 0), Some(LogTier::Anchored));
    assert_eq!(store.tier_of("x", 1), Some(LogTier::Uncommitted));
    assert_eq!(store.tier_of("x", 2), Some(LogTier::Anchored));
    assert_eq!(store.tier_of("y", 0), Some(LogTier::Anchored));
    assert_eq!(store.list_from("x", 0), vec![(0, 10), (1, 11), (2, 12)]);
    assert_eq!(store.committed_count("y"), 0);
}

#[test]
fn anchored_entries_never_go_back() {
    let cluster = names(&["n1", "n2"]);
    let mut store = LogStore::new("n1");
    store.merge_incoming(&vec![entry("x", 0, 10, &["n1", "n2"])], LogTier::Uncommitted);
    store.anchor(&cluster);
    store.commit_one("x", 5);
    assert_eq!(store.tier_of("x", 0), Some(LogTier::Anchored));
    store.merge_incoming(&vec![entry("x", 0, 10, &["n3"])], LogTier::Uncommitted);
    assert_eq!(store.tier_of("x", 0), Some(LogTier::Anchored));
    store.merge_incoming(&vec![entry("x", 0, 10, &["n3"])], LogTier::Committed);
    assert_eq!(store.tier_of("x", 0), Some(LogTier::Anchored));
    store.anchor(&names(&["n1", "n2", "n9"]));
    assert_eq!(store.tier_of("x", 0), Some(LogTier::Anchored));
    assert_eq!(seen_by(&store, "x", 0), names(&["n1", "n2", "n3"]));
}

#[test]
fn seen_by_only_grows() {
    let mut store = LogStore::new("n1");
    store.append("x", 0, 0, 10);
    let mut last = seen_by(&store, "x", 0);
    let e = entry("x", 0, 10, &["n2"]);
    store.mark_seen(&vec![e.clone()], &"n3".to_string());
    for step in 0..5 {
        match step {
            0 => store.merge_incoming(&vec![e.clone()], LogTier::Uncommitted),
            1 => store.commit_one("x", 0),
            2 => store.anchor(&names(&["n1", "n2", "n3"])),
            3 => store.mark_seen(&vec![e.clone()], &"n1".to_string()),
            _ => store.merge_incoming(&vec![entry("x", 0, 10, &[])], LogTier::Committed),
        }
        let now = seen_by(&store, "x", 0);
        assert!(last.iter().all(|n| now.contains(n)));
        last = now;
    }
    assert_eq!(last, names(&["n1", "n2", "n3"]));
}

#[test]
fn mark_seen_touches_the_listed_entries_only() {
    let mut store = LogStore::new("n1");
    store.append("x", 0, 0, 10);
    store.append("x", 0, 1, 11);
    store.mark_seen(&vec![entry("x", 1, 0, &[]), entry("q", 3, 0, &[])], &"n2".to_string());
    assert_eq!(seen_by(&store, "x", 0), names(&["n1"]));
    assert_eq!(seen_by(&store, "x", 1), names(&["n1", "n2"]));
    assert_eq!(store.len(), 2);
}

#[test]
fn pending_skips_what_is_known_and_other_tiers() {
    let mut store = LogStore::new("n1");
    for offset in 0..6 {
        store.append("x", offset, offset, offset);
    }
    store.commit_one("x", 1);
    let known = vec![("x".to_string(), 3), ("x".to_string(), 0)];
    let uncommitted = store.pending(LogTier::Uncommitted, &known, 10);
    let mut offsets: Vec<usize> = uncommitted.iter().map(|e| e.offset).collect();
    offsets.sort();
    assert_eq!(offsets, vec![2, 4, 5]);
    let committed = store.pending(LogTier::Committed, &known, 10);
    assert_eq!(committed.len(), 1);
    assert_eq!((committed[0].offset, committed[0].msg), (1, 1));
    assert_eq!(committed[0].seen_by, names(&["n1"]));
    assert!(store.pending(LogTier::Anchored, &known, 10).is_empty());
}

#[test]
fn pending_is_capped() {
    let mut store = LogStore::new("n1");
    for offset in 0..10 {
        store.append("x", offset, offset, offset);
    }
    let batch = store.pending(LogTier::Uncommitted, &vec![], 4);
    assert_eq!(batch.len(), 4);
    let mut offsets: Vec<usize> = batch.iter().map(|e| e.offset).collect();
    offsets.sort();
    offsets.dedup();
    assert_eq!(offsets.len(), 4);
    assert!(store.pending(LogTier::Uncommitted, &vec![], 0).is_empty());
    assert_eq!(store.pending(LogTier::Uncommitted, &vec![], 10).len(), 10);
    assert_eq!(store.pending(LogTier::Uncommitted, &vec![], 11).len(), 10);
}

#[test]
fn membership_helpers() {
    let entries = vec![entry("x", 0, 1, &[]), entry("y", 2, 1, &[])];
    assert!(holds_entry(&entries, &"y".to_string(), 2));
    assert!(!holds_entry(&entries, &"y".to_string(), 0));
    assert!(!holds_entry(&entries, &"z".to_string(), 0));
    let pairs = vec![("x".to_string(), 1)];
    assert!(holds_pair(&pairs, &"x".to_string(), 1));
    assert!(!holds_pair(&pairs, &"x".to_string(), 2));
}

#[test]
fn entries_compare_by_key_and_offset() {
    let a = entry("x", 0, 1, &["n1"]);
    let b = entry("x", 0, 2, &["n2"]);
    let c = entry("x", 1, 1, &["n1"]);
    let d = entry("y", 0, 1, &["n1"]);
    assert!(a.same_entry(&b));
    assert!(!a.same_entry(&c));
    assert!(!a.same_entry(&d));
    let copy = a.clone();
    assert_eq!((copy.msg_id, copy.key, copy.offset, copy.msg, copy.seen_by), (100, "x".to_string(), 0, 1, names(&["n1"])));
}

#[test]
fn list_committed_offsets_counts_entries_that_arrived_committed() {
    let mut store = LogStore::new("n2");
    store.merge_incoming(&vec![entry("x", 0, 10, &["n1"])], LogTier::Committed);
    store.merge_incoming(&vec![entry("y", 0, 5, &["n1"])], LogTier::Uncommitted);
    assert_eq!(store.committed_offset("x"), None);
    assert_eq!(store.committed_count("x"), 1);
    let counts = store.list_committed_offsets(&names(&["y", "x", "z"]));
    assert_eq!(counts, vec![("x".to_string(), 1)]);
}

#[test]
fn stores_fed_the_same_entries_in_any_order_poll_alike() {
    let mut a = LogStore::new("n1");
    a.append("x", 1, 2, 20);
    a.insert(entry("x", 0, 10, &["n2"]));
    a.commit_one("x", 1);
    a.insert(entry("y", 5, 50, &["n3"]));
    a.insert(entry("x", 0, 10, &["n3"]));
    a.append("x", 2, 7, 70);

    let mut b = LogStore::new("n2");
    b.insert(entry("x", 7, 70, &["n1"]));
    b.insert(entry("y", 5, 50, &["n3"]));
    b.insert(entry("y", 5, 50, &["n1"]));
    b.append("x", 9, 0, 10);
    b.insert(entry("x", 2, 20, &["n1"]));
    b.commit_one("y", 9);

    let requests = vec![
        ("x".to_string(), 0),
        ("x".to_string(), 2),
        ("x".to_string(), 8),
        ("y".to_string(), 0),
        ("z".to_string(), 0),
    ];
    let expected = vec![
        ("x".to_string(), vec![(0, 10), (2, 20), (7, 70)]),
        ("x".to_string(), vec![(2, 20), (7, 70)]),
        ("x".to_string(), vec![]),
        ("y".to_string(), vec![(5, 50)]),
    ];
    assert_eq!(a.list_logs(&requests), expected);
    assert_eq!(b.list_logs(&requests), expected);
}

#[test]
fn held_entries_name_each_node_once() {
    let mut store = LogStore::new("n1");
    store.insert(entry("x", 0, 10, &["n2", "n2", "n3", "n2"]));
    assert_eq!(seen_by(&store, "x", 0), names(&["n2", "n3"]));
    store.merge_incoming(&vec![entry("x", 0, 10, &["n3", "n1", "n1"])], LogTier::Committed);
    assert_eq!(seen_by(&store, "x", 0), names(&["n1", "n2", "n3"]));
    let batch = store.pending(LogTier::Uncommitted, &vec![], 5);
    assert_eq!(batch[0].seen_by.len(), 3);
}
