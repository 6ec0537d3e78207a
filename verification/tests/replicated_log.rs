use distributed_system_challenges::kafka_style_log::{
    offset_from_count, Gossip, KafkaStyleLogNode, Payload,
};
use distributed_system_challenges::log_entry::{LogEntry, LogTier};
use distributed_system_challenges::{Body, Message, NodeError};

fn names(list: &[&str]) -> Vec<String> {
    list.iter().map(|s| s.to_string()).collect()
}

fn request(src: &str, dest: &str, msg_id: usize, payload: Payload) -> Message<Payload> {
    Message::new(src.to_string(), dest.to_string(), Body::new(Some(msg_id), None, payload))
}

fn started(id: &str, all: &[&str], push: bool) -> KafkaStyleLogNode {
    let mut node = if push { KafkaStyleLogNode::new() } else { KafkaStyleLogNode::gossiping() };
    let init = request(
        "c0",
        id,
        1,
        Payload::Init { node_id: id.to_string(), node_ids: names(all) },
    );
    let out = node.handle_message(&init, None).unwrap();
    assert_eq!(out.len(), 1);
    assert!(matches!(out[0].body.payload, Payload::InitOk));
    assert_eq!(out[0].body.in_reply_to, Some(1));
    assert_eq!(out[0].body.msg_id, None);
    assert_eq!(out[0].dest, "c0");
    assert_eq!(out[0].src, id);
    node
}

fn deliver(to: &mut KafkaStyleLogNode, messages: Vec<Message<Payload>>) {
    for message in messages {
        if message.dest == to.node_id() {
            let out = to.handle_message(&message, None).unwrap();
            assert!(out.is_empty());
        }
    }
}

fn poll(node: &mut KafkaStyleLogNode, key: &str, from: usize) -> Vec<(String, Vec<(usize, usize)>)> {
    let message = request("c1", "n", 7, Payload::Poll { offsets: vec![(key.to_string(), from)] });
    let mut out = node.handle_message(&message, None).unwrap();
    assert_eq!(out.len(), 1);
    match out.remove(0).body.payload {
        Payload::PollOk { msgs } => msgs,
        _ => panic!("poll_ok expected"),
    }
}

#[test]
fn three_node_scenario_by_gossip() {
    let all = ["n1", "n2", "n3"];
    let mut n1 = started("n1", &all, false);
    let mut n2 = started("n2", &all, false);
    let mut n3 = started("n3", &all, false);

    let send = request("c1", "n1", 2, Payload::Send { key: "x".to_string(), msg: 10 });
    let out = n1.handle_message(&send, Some(0)).unwrap();
    assert_eq!(out.len(), 1);
    assert!(matches!(out[0].body.payload, Payload::SendOk { offset: 0 }));
    assert_eq!(out[0].body.in_reply_to, Some(2));

    assert_eq!(poll(&mut n1, "x", 0), vec![("x".to_string(), vec![(0, 10)])]);

    for _ in 0..2 {
        let trigger = request("n1", "n1", 0, Payload::TriggerGossip);
        let gossip = n1.handle_message(&trigger, None).unwrap();
        let copy: Vec<Message<Payload>> = gossip
            .iter()
            .map(|m| match &m.body.payload {
                Payload::Gossip { seen } => Message::new(
                    m.src.clone(),
                    m.dest.clone(),
                    Body::new(
                        m.body.msg_id,
                        None,
                        Payload::Gossip {
                            seen: Gossip {
                                committed: seen.committed.clone(),
                                uncommitted: seen.uncommitted.clone(),
                            },
                        },
                    ),
                ),
                _ => panic!("gossip expected"),
            })
            .collect();
        deliver(&mut n2, gossip);
        deliver(&mut n3, copy);
    }

    assert_eq!(poll(&mut n3, "x", 0), vec![("x".to_string(), vec![(0, 10)])]);
    assert_eq!(poll(&mut n2, "x", 0), vec![("x".to_string(), vec![(0, 10)])]);

    let commit = request("c1", "n1", 3, Payload::CommitOffsets { offsets: vec![("x".to_string(), 0)] });
    let out = n1.handle_message(&commit, None).unwrap();
    assert_eq!(out.len(), 1);
    assert!(matches!(out[0].body.payload, Payload::CommitOffsetsOk));

    let list = request("c1", "n1", 4, Payload::ListCommittedOffsets { keys: names(&["x"]) });
    let out = n1.handle_message(&list, None).unwrap();
    match &out[0].body.payload {
        Payload::ListCommittedOffsetsOk { offsets } => {
            assert_eq!(offsets, &vec![("x".to_string(), 1)]);
        }
        _ => panic!("list_committed_offsets_ok expected"),
    }
}

#[test]
fn send_without_offset_is_a_retryable_failure() {
    let mut n1 = started("n1", &["n1", "n2"], true);
    let before = n1.message_id();
    let send = request("c1", "n1", 2, Payload::Send { key: "x".to_string(), msg: 10 });
    let out = n1.handle_message(&send, None);
    assert_eq!(out.err(), Some(NodeError::AllocatorUnavailable));
    assert_eq!(n1.message_id(), before);
    assert_eq!(n1.log_store().len(), 0);
}

#[test]
fn gossip_from_a_stranger_is_an_error() {
    let mut n1 = started("n1", &["n1", "n2"], false);
    let entry = LogEntry::new(1, "x".to_string(), 0, 5, names(&["n9"]));
    let gossip = request(
        "n9",
        "n1",
        1,
        Payload::Gossip { seen: Gossip { committed: vec![], uncommitted: vec![entry] } },
    );
    assert_eq!(n1.handle_message(&gossip, None).err(), Some(NodeError::UnknownNode));
    assert_eq!(n1.log_store().len(), 0);
    assert_eq!(n1.log_store().tier_of("x", 0), None::<LogTier>);
}

fn gossip_of(message: &Message<Payload>) -> Gossip {
    match &message.body.payload {
        Payload::Gossip { seen } => Gossip {
            committed: seen.committed.clone(),
            uncommitted: seen.uncommitted.clone(),
        },
        _ => panic!("gossip expected"),
    }
}

fn sorted(mut list: Vec<String>) -> Vec<String> {
    list.sort();
    list
}

fn send(node: &mut KafkaStyleLogNode, key: &str, msg: usize, offset: usize) -> Vec<Message<Payload>> {
    let message = request("c1", "n", 2, Payload::Send { key: key.to_string(), msg });
    node.handle_message(&message, Some(offset)).unwrap()
}

#[test]
fn a_fresh_node_knows_nobody() {
    let node = KafkaStyleLogNode::new();
    assert_eq!(node.node_id(), "uninit");
    assert_eq!(node.message_id(), 0);
    assert!(node.neighbors().is_empty());
    assert!(node.cluster().is_empty());
    assert_eq!(node.log_store().len(), 0);
    assert_eq!(node.log_store().src(), "uninit");
}

#[test]
fn init_sets_membership() {
    let node = started("n2", &["n1", "n2", "n3", "n1", "n2"], true);
    assert_eq!(node.node_id(), "n2");
    assert_eq!(node.neighbors(), &names(&["n1", "n3"]));
    assert_eq!(sorted(node.cluster().clone()), names(&["n1", "n2", "n3"]));
    assert_eq!(node.log_store().src(), "n2");
    assert!(node.known().has_peer("n1"));
    assert!(node.known().has_peer("n3"));
    assert!(!node.known().has_peer("n2"));
    assert_eq!(node.message_id(), 1);
}

#[test]
fn three_node_scenario_by_push() {
    let all = ["n1", "n2", "n3"];
    let mut n1 = started("n1", &all, true);
    let mut n2 = started("n2", &all, true);
    let mut n3 = started("n3", &all, true);

    let out = send(&mut n1, "x", 10, 0);
    assert_eq!(out.len(), 3);
    for (i, dest) in ["n2", "n3"].iter().enumerate() {
        assert_eq!(out[i].src, "n1");
        assert_eq!(&out[i].dest, dest);
        assert_eq!(out[i].body.msg_id, Some(1));
        assert_eq!(out[i].body.in_reply_to, None);
        match &out[i].body.payload {
            Payload::InternalSend { log_entry } => {
                assert_eq!((log_entry.key.as_str(), log_entry.offset, log_entry.msg), ("x", 0, 10));
                assert_eq!(log_entry.msg_id, 1);
                assert_eq!(sorted(log_entry.seen_by.clone()), names(&["n1", "n2", "n3"]));
            }
            _ => panic!("internal_send expected"),
        }
    }
    assert!(matches!(out[2].body.payload, Payload::SendOk { offset: 0 }));
    assert_eq!(out[2].body.msg_id, Some(2));
    assert_eq!(out[2].body.in_reply_to, Some(2));
    assert_eq!(out[2].dest, "c1");
    assert_eq!(n1.message_id(), 3);

    assert_eq!(poll(&mut n1, "x", 0), vec![("x".to_string(), vec![(0, 10)])]);
    let mut out = out;
    let to_n3 = out.remove(1);
    let to_n2 = out.remove(0);
    deliver(&mut n2, vec![to_n2]);
    deliver(&mut n3, vec![to_n3]);
    assert_eq!(poll(&mut n3, "x", 0), vec![("x".to_string(), vec![(0, 10)])]);
    assert_eq!(n3.log_store().tier_of("x", 0), Some(LogTier::Anchored));
    assert_eq!(n1.log_store().tier_of("x", 0), Some(LogTier::Uncommitted));
    assert!(n3.known().knows("n1", "x", 0));
    assert!(!n3.known().knows("n2", "x", 0));

    let commit = request("c1", "n1", 3, Payload::CommitOffsets { offsets: vec![("x".to_string(), 0)] });
    let out = n1.handle_message(&commit, None).unwrap();
    assert_eq!(out.len(), 3);
    for i in 0..2 {
        match &out[i].body.payload {
            Payload::InternalCommitOffsets { offsets } => {
                assert_eq!(offsets, &vec![("x".to_string(), 0)])
            }
            _ => panic!("internal_commit_offsets expected"),
        }
    }
    assert!(matches!(out[2].body.payload, Payload::CommitOffsetsOk));
    let list = request("c1", "n1", 4, Payload::ListCommittedOffsets { keys: names(&["x"]) });
    let out = n1.handle_message(&list, None).unwrap();
    match &out[0].body.payload {
        Payload::ListCommittedOffsetsOk { offsets } => {
            assert_eq!(offsets, &vec![("x".to_string(), 1)])
        }
        _ => panic!("list_committed_offsets_ok expected"),
    }
}

#[test]
fn poll_of_an_unknown_key_is_empty() {
    let mut n1 = started("n1", &["n1"], false);
    assert_eq!(poll(&mut n1, "nothing", 0), vec![]);
    let list = request("c1", "n1", 4, Payload::ListCommittedOffsets { keys: names(&["nothing"]) });
    let out = n1.handle_message(&list, None).unwrap();
    match &out[0].body.payload {
        Payload::ListCommittedOffsetsOk { offsets } => assert!(offsets.is_empty()),
        _ => panic!("list_committed_offsets_ok expected"),
    }
}

#[test]
fn gossip_goes_to_each_neighbour_once() {
    let mut n1 = started("n1", &["n1", "n2", "n3"], false);
    send(&mut n1, "x", 10, 0);
    send(&mut n1, "y", 20, 0);
    n1.handle_commit_offsets(
        &request("c1", "n1", 5, Payload::CommitOffsets { offsets: vec![] }),
        &vec![("x".to_string(), 0)],
    );
    let before = n1.message_id();
    let out = n1.handle_trigger_gossip();
    assert_eq!(out.len(), 2);
    assert_eq!(n1.message_id(), before + 1);
    assert_eq!((out[0].dest.as_str(), out[1].dest.as_str()), ("n2", "n3"));
    assert_eq!(out[0].body.msg_id, Some(before));
    assert_eq!(out[1].body.msg_id, Some(before));
    let first = gossip_of(&out[0]);
    assert_eq!(first.committed.len(), 1);
    assert_eq!(first.committed[0].key, "x");
    assert_eq!(first.committed[0].seen_by, names(&["n1"]));
    assert_eq!(first.uncommitted.len(), 1);
    assert_eq!(first.uncommitted[0].key, "y");
    let second = gossip_of(&out[1]);
    assert_eq!(sorted(second.committed[0].seen_by.clone()), names(&["n1", "n2"]));
    assert!(n1.known().knows("n2", "x", 0));
    assert!(n1.known().knows("n3", "y", 0));
    assert_eq!(
        sorted(n1.log_store().get("x", 0).unwrap().seen_by),
        names(&["n1", "n2", "n3"])
    );

    let again = n1.handle_trigger_gossip();
    assert!(again.is_empty());
    assert_eq!(n1.message_id(), before + 1);
}

#[test]
fn gossip_batches_are_capped() {
    let mut n1 = started("n1", &["n1", "n2"], false);
    for offset in 0..150 {
        send(&mut n1, "x", offset, offset);
    }
    let mut n2 = started("n2", &["n1", "n2"], false);
    let mut rounds = 0;
    loop {
        let out = n1.handle_trigger_gossip();
        if out.is_empty() {
            break;
        }
        rounds += 1;
        assert_eq!(out.len(), 1);
        let seen = gossip_of(&out[0]);
        assert!(seen.uncommitted.len() <= 64);
        assert!(seen.committed.is_empty());
        deliver(&mut n2, out);
    }
    assert_eq!(rounds, 3);
    let listing = poll(&mut n2, "x", 0);
    assert_eq!(listing[0].1.len(), 150);
    assert_eq!(listing[0].1, (0..150).map(|o| (o, o)).collect::<Vec<_>>());
    assert_eq!(listing, poll(&mut n1, "x", 0));
}

#[test]
fn receiving_gossip_stamps_marks_and_anchors() {
    let mut n2 = started("n2", &["n1", "n2"], false);
    let entry = LogEntry::new(4, "x".to_string(), 0, 10, names(&["n1"]));
    let other = LogEntry::new(5, "x".to_string(), 1, 11, names(&[]));
    let out = n2
        .handle_gossip("n1", &Gossip { committed: vec![entry], uncommitted: vec![other] })
        .unwrap();
    assert!(out.is_empty());
    assert_eq!(n2.log_store().tier_of("x", 0), Some(LogTier::Anchored));
    assert_eq!(n2.log_store().tier_of("x", 1), Some(LogTier::Uncommitted));
    assert_eq!(sorted(n2.log_store().get("x", 0).unwrap().seen_by), names(&["n1", "n2"]));
    assert_eq!(n2.log_store().get("x", 1).unwrap().seen_by, names(&["n2"]));
    assert!(n2.known().knows("n1", "x", 0));
    assert!(n2.known().knows("n1", "x", 1));
    let out = n2.handle_trigger_gossip();
    assert!(out.is_empty());
}

#[test]
fn receiving_the_same_gossip_twice_changes_nothing_more() {
    let payload = || Gossip {
        committed: vec![LogEntry::new(4, "x".to_string(), 0, 10, names(&["n1"]))],
        uncommitted: vec![
            LogEntry::new(5, "x".to_string(), 1, 11, names(&["n1", "n3"])),
            LogEntry::new(6, "y".to_string(), 0, 1, names(&["n1"])),
        ],
    };
    let state = |node: &KafkaStyleLogNode| {
        [("x", 0), ("x", 1), ("y", 0)]
            .iter()
            .map(|(k, o)| {
                let e = node.log_store().get(k, *o).unwrap();
                (e.msg_id, e.msg, sorted(e.seen_by), node.log_store().tier_of(k, *o), node.known().knows("n1", k, *o))
            })
            .collect::<Vec<_>>()
    };
    let mut once = started("n2", &["n1", "n2", "n3"], false);
    once.handle_gossip("n1", &payload()).unwrap();
    let mut twice = started("n2", &["n1", "n2", "n3"], false);
    twice.handle_gossip("n1", &payload()).unwrap();
    twice.handle_gossip("n1", &payload()).unwrap();
    assert_eq!(state(&once), state(&twice));
    assert_eq!(once.log_store().len(), twice.log_store().len());
    assert_eq!(once.message_id(), twice.message_id());
}

#[test]
fn gossip_from_two_neighbours_in_either_order() {
    let a = || Gossip {
        committed: vec![],
        uncommitted: vec![
            LogEntry::new(4, "x".to_string(), 0, 10, names(&["n1"])),
            LogEntry::new(5, "x".to_string(), 1, 11, names(&["n1"])),
        ],
    };
    let b = || Gossip {
        committed: vec![],
        uncommitted: vec![
            LogEntry::new(5, "x".to_string(), 1, 11, names(&["n3"])),
            LogEntry::new(7, "x".to_string(), 2, 12, names(&["n3", "n1"])),
        ],
    };
    let state = |node: &KafkaStyleLogNode| {
        (0..3)
            .map(|o| {
                let e = node.log_store().get("x", o).unwrap();
                (
                    e.msg_id,
                    e.msg,
                    sorted(e.seen_by),
                    node.log_store().tier_of("x", o),
                    node.known().knows("n1", "x", o),
                    node.known().knows("n3", "x", o),
                )
            })
            .collect::<Vec<_>>()
    };
    let mut ab = started("n2", &["n1", "n2", "n3"], false);
    ab.handle_gossip("n1", &a()).unwrap();
    ab.handle_gossip("n3", &b()).unwrap();
    let mut ba = started("n2", &["n1", "n2", "n3"], false);
    ba.handle_gossip("n3", &b()).unwrap();
    ba.handle_gossip("n1", &a()).unwrap();
    assert_eq!(state(&ab), state(&ba));
    assert_eq!(ab.log_store().tier_of("x", 1), Some(LogTier::Anchored));
    assert_eq!(ab.log_store().tier_of("x", 0), Some(LogTier::Uncommitted));
}

#[test]
fn internal_messages_from_a_neighbour() {
    let mut n2 = started("n2", &["n1", "n2"], true);
    let entry = LogEntry::new(4, "x".to_string(), 0, 10, names(&["n1", "n2"]));
    assert!(n2.handle_internal_send("n1", &entry).unwrap().is_empty());
    assert_eq!(n2.log_store().tier_of("x", 0), Some(LogTier::Anchored));
    let stranger = LogEntry::new(4, "x".to_string(), 1, 10, names(&["n7"]));
    assert_eq!(n2.handle_internal_send("n7", &stranger).err(), Some(NodeError::UnknownNode));
    assert_eq!(n2.log_store().len(), 1);

    let later = LogEntry::new(5, "x".to_string(), 2, 12, names(&["n1"]));
    n2.handle_internal_send("n1", &later).unwrap();
    assert_eq!(n2.log_store().tier_of("x", 2), Some(LogTier::Anchored));
    let mut n3 = started("n3", &["n1", "n2", "n3"], true);
    n3.handle_internal_send("n1", &LogEntry::new(5, "x".to_string(), 2, 12, names(&["n1"]))).unwrap();
    assert_eq!(n3.log_store().tier_of("x", 2), Some(LogTier::Uncommitted));
    n3.handle_internal_commit_offsets(&vec![("x".to_string(), 2)]);
    assert_eq!(n3.log_store().tier_of("x", 2), Some(LogTier::Committed));
    assert_eq!(n3.log_store().committed_offset("x"), Some(2));
    let before = n3.message_id();
    let commit = request("n1", "n3", 1, Payload::InternalCommitOffsets { offsets: vec![("x".to_string(), 1)] });
    assert!(n3.handle_message(&commit, None).unwrap().is_empty());
    assert_eq!(n3.log_store().committed_offset("x"), Some(2));
    assert_eq!(n3.message_id(), before);
}

#[test]
fn the_anchor_trigger_anchors_what_everyone_has_seen() {
    let mut n1 = started("n1", &["n1", "n2"], false);
    send(&mut n1, "x", 10, 0);
    n1.handle_trigger_anchor();
    assert_eq!(n1.log_store().tier_of("x", 0), Some(LogTier::Uncommitted));
    n1.handle_trigger_gossip();
    assert_eq!(n1.log_store().tier_of("x", 0), Some(LogTier::Uncommitted));
    let trigger = request("n1", "n1", 0, Payload::TriggerAnchor);
    assert!(n1.handle_message(&trigger, None).unwrap().is_empty());
    assert_eq!(n1.log_store().tier_of("x", 0), Some(LogTier::Anchored));
    assert_eq!(poll(&mut n1, "x", 0), vec![("x".to_string(), vec![(0, 10)])]);
}

#[test]
fn replies_that_reach_a_node_change_nothing() {
    let mut n1 = started("n1", &["n1", "n2"], true);
    let before = n1.message_id();
    for payload in [
        Payload::InitOk,
        Payload::SendOk { offset: 1 },
        Payload::PollOk { msgs: vec![] },
        Payload::CommitOffsetsOk,
        Payload::ListCommittedOffsetsOk { offsets: vec![] },
    ] {
        assert!(n1.handle_message(&request("n2", "n1", 1, payload), Some(3)).unwrap().is_empty());
    }
    assert_eq!(n1.message_id(), before);
    assert_eq!(n1.log_store().len(), 0);
}

#[test]
fn a_cluster_converges_after_gossip() {
    let all = ["n1", "n2", "n3", "n4"];
    let mut nodes: Vec<KafkaStyleLogNode> = all.iter().map(|id| started(id, &all, false)).collect();
    let mut offset = 0;
    for (i, node) in nodes.iter_mut().enumerate() {
        for k in 0..3 {
            send(node, if k == 0 { "x" } else { "y" }, 100 * i + k, offset);
            offset += 1;
        }
    }
    for _ in 0..2 {
        for i in 0..nodes.len() {
            let out = nodes[i].handle_trigger_gossip();
            for message in out {
                let target = all.iter().position(|id| *id == message.dest).unwrap();
                assert!(nodes[target].handle_message(&message, None).unwrap().is_empty());
            }
        }
    }
    let expected_x = poll(&mut nodes[0], "x", 0);
    let expected_y = poll(&mut nodes[0], "y", 0);
    assert_eq!(expected_x[0].1.len(), 4);
    assert_eq!(expected_y[0].1.len(), 8);
    for node in nodes.iter_mut() {
        assert_eq!(poll(node, "x", 0), expected_x);
        assert_eq!(poll(node, "y", 0), expected_y);
        assert_eq!(node.log_store().len(), 12);
    }
    for node in nodes.iter_mut() {
        assert!(node.handle_trigger_gossip().is_empty());
    }
}

#[test]
fn a_gossip_only_node_reports_entries_that_arrived_committed() {
    let mut n2 = started("n2", &["n1", "n2", "n3"], false);
    let entry = LogEntry::new(4, "x".to_string(), 0, 10, names(&["n1"]));
    n2.handle_gossip("n1", &Gossip { committed: vec![entry], uncommitted: vec![] }).unwrap();
    let list = request("c1", "n2", 4, Payload::ListCommittedOffsets { keys: names(&["x", "y"]) });
    let out = n2.handle_message(&list, None).unwrap();
    match &out[0].body.payload {
        Payload::ListCommittedOffsetsOk { offsets } => {
            assert_eq!(offsets, &vec![("x".to_string(), 1)])
        }
        _ => panic!("list_committed_offsets_ok expected"),
    }
}

#[test]
fn offsets_count_from_zero() {
    assert_eq!(offset_from_count(1), Some(0));
    assert_eq!(offset_from_count(2), Some(1));
    assert_eq!(offset_from_count(isize::MAX), Some(isize::MAX as usize - 1));
    assert_eq!(offset_from_count(0), None);
    assert_eq!(offset_from_count(-3), None);
}
