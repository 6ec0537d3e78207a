use distributed_system_challenges::decimal::decimal;
use distributed_system_challenges::log_entry::LogEntry;
use distributed_system_challenges::name_map::NameMap;
use distributed_system_challenges::names::{
    clone_names, contains_all, contains_name, insert_name, others_of, union_names,
};
use distributed_system_challenges::numbers::{
    add_number, add_numbers, clone_numbers, has_number, numbers_without,
};
use distributed_system_challenges::peer_knowledge::PeerKnowledge;

fn names(list: &[&str]) -> Vec<String> {
    list.iter().map(|s| s.to_string()).collect()
}

fn entry(key: &str, offset: usize) -> LogEntry {
    LogEntry::new(0, key.to_string(), offset, 0, vec![])
}

#[test]
fn name_lists_behave_like_sets() {
    let mut list = names(&["a", "b"]);
    assert!(contains_name(&list, &"a".to_string()));
    assert!(!contains_name(&list, &"c".to_string()));
    insert_name(&mut list, &"a".to_string());
    assert_eq!(list, names(&["a", "b"]));
    insert_name(&mut list, &"c".to_string());
    assert_eq!(list, names(&["a", "b", "c"]));
    union_names(&mut list, &names(&["b", "d", "d", "a", "e"]));
    assert_eq!(list, names(&["a", "b", "c", "d", "e"]));
    assert!(contains_all(&list, &names(&["e", "a"])));
    assert!(contains_all(&list, &names(&[])));
    assert!(!contains_all(&list, &names(&["a", "z"])));
    assert!(contains_all(&names(&[]), &names(&[])));
    assert_eq!(clone_names(&list), list);
}

#[test]
fn others_are_the_rest_of_the_cluster_each_once() {
    let me = "n2".to_string();
    assert_eq!(others_of(&names(&["n1", "n2", "n3"]), &me), names(&["n1", "n3"]));
    assert_eq!(others_of(&names(&["n3", "n1", "n3", "n2", "n1"]), &me), names(&["n3", "n1"]));
    assert_eq!(others_of(&names(&["n2"]), &me), names(&[]));
    assert_eq!(others_of(&names(&[]), &me), names(&[]));
}

#[test]
fn number_lists_behave_like_sets() {
    let mut list = vec![3, 1];
    assert!(has_number(&list, 1));
    assert!(!has_number(&list, 2));
    add_number(&mut list, 3);
    add_number(&mut list, 2);
    assert_eq!(list, vec![3, 1, 2]);
    add_numbers(&mut list, &vec![2, 9, 9, 1, 0]);
    assert_eq!(list, vec![3, 1, 2, 9, 0]);
    assert_eq!(numbers_without(&list, &vec![1, 9, 7]), vec![3, 2, 0]);
    assert_eq!(numbers_without(&list, &vec![]), list);
    assert_eq!(numbers_without(&vec![], &list), vec![]);
    assert_eq!(clone_numbers(&list), list);
}

#[test]
fn decimal_writes_numbers_out() {
    assert_eq!(decimal(0), "0");
    assert_eq!(decimal(7), "7");
    assert_eq!(decimal(10), "10");
    assert_eq!(decimal(1234567890), "1234567890");
    assert_eq!(decimal(usize::MAX), usize::MAX.to_string());
}

#[test]
fn name_map_keeps_one_value_per_name() {
    let mut map: NameMap<usize> = NameMap::new();
    assert!(!map.contains_key("a"));
    assert_eq!(map.get("a"), None);
    map.insert("a", 1);
    map.insert("b", 2);
    map.insert("a", 3);
    assert_eq!(map.get("a"), Some(&3));
    assert_eq!(map.get("b"), Some(&2));
    assert_eq!(map.get("c"), None);
    assert!(map.contains_key("b"));
}

#[test]
fn peer_knowledge_records_per_neighbour() {
    let mut known = PeerKnowledge::new();
    assert!(!known.has_peer("n2"));
    assert!(!known.knows("n2", "x", 0));
    assert!(known.known_to("n2").is_none());
    assert!(!known.mark("n2", &vec![entry("x", 0)]));
    assert!(!known.knows("n2", "x", 0));

    known.extend(&names(&["n2", "n3"]));
    assert!(known.has_peer("n2") && known.has_peer("n3"));
    assert!(known.mark("n2", &vec![entry("x", 0), entry("y", 1), entry("x", 0)]));
    assert!(known.knows("n2", "x", 0));
    assert!(known.knows("n2", "y", 1));
    assert!(!known.knows("n2", "x", 1));
    assert!(!known.knows("n3", "x", 0));
    assert_eq!(known.known_to("n2").unwrap().len(), 2);
    assert!(known.known_to("n3").unwrap().is_empty());

    known.add_peer("n2");
    assert!(known.has_peer("n2"));
    assert!(!known.knows("n2", "x", 0));
    known.mark("n3", &vec![entry("z", 9)]);
    known.extend(&names(&["n4"]));
    assert!(known.knows("n3", "z", 9));
    assert!(known.has_peer("n4"));
}
