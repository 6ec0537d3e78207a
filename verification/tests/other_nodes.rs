use distributed_system_challenges::broadcast::{BroadcastNode, Payload as Broadcast};
use distributed_system_challenges::grow_only_counter::{
    add_wrapping, GrowOnlyCounterNode, Payload as Counter,
};
use distributed_system_challenges::raft::{Error, Payload as Kv, RaftNode};
use distributed_system_challenges::totally_available_transactions::{
    Operation, OperationError, Payload as Txn, TotallyAvailableTransactionsNode,
};
use distributed_system_challenges::unique_id::{Payload as UniqueId, UniqueIdNode};
use distributed_system_challenges::{Body, Message, Node, NodeError};

fn names(list: &[&str]) -> Vec<String> {
    list.iter().map(|s| s.to_string()).collect()
}

fn from<P>(src: &str, msg_id: Option<usize>, payload: P) -> Message<P> {
    Message::new(src.to_string(), "n1".to_string(), Body::new(msg_id, None, payload))
}

#[test]
fn unique_ids_have_the_node_id_and_a_uuid() {
    let mut node = UniqueIdNode::new();
    let init = from("c0", Some(1), UniqueId::Init { node_id: "n1".to_string(), node_ids: names(&["n1"]) });
    let out = node.handle_message(&init).unwrap();
    assert!(matches!(out[0].body.payload, UniqueId::InitOk));
    assert_eq!(out[0].body.msg_id, None);
    let mut seen = Vec::new();
    for round in 0..20 {
        let out = node.handle_message(&from("c0", Some(round + 2), UniqueId::Generate)).unwrap();
        assert_eq!(out.len(), 1);
        assert_eq!(out[0].body.msg_id, Some(round + 1));
        assert_eq!(out[0].body.in_reply_to, Some(round + 2));
        match &out[0].body.payload {
            UniqueId::GenerateOk { id } => {
                assert!(id.starts_with("n1-"));
                let uuid = &id[3..];
                assert_eq!(uuid.len(), 32);
                assert!(uuid.chars().all(|c| c.is_ascii_digit() || ('a'..='f').contains(&c)));
                assert!(!seen.contains(id));
                seen.push(id.clone());
            }
            _ => panic!("generate_ok expected"),
        }
    }
    assert_eq!(node.message_id(), 21);
}

#[test]
fn unique_id_from_a_given_uuid() {
    let mut node = UniqueIdNode::new();
    let out = node.handle_generate_with(&from("c0", Some(5), UniqueId::Generate), "00ff");
    match &out[0].body.payload {
        UniqueId::GenerateOk { id } => assert_eq!(id, "uninit-00ff"),
        _ => panic!("generate_ok expected"),
    }
    assert_eq!(out[0].body.msg_id, Some(0));
    assert_eq!(node.message_id(), 1);
}

#[test]
fn broadcast_keeps_each_value_once() {
    let mut node = BroadcastNode::new();
    node.handle_message(&from("c0", Some(1), Broadcast::Init { node_id: "n1".to_string(), node_ids: names(&["n1", "n2", "n3"]) })).unwrap();
    for value in [5, 7, 5, 1] {
        let out = node.handle_message(&from("c0", Some(2), Broadcast::Broadcast { message: value })).unwrap();
        assert!(matches!(out[0].body.payload, Broadcast::BroadcastOk));
    }
    assert_eq!(node.messages(), &vec![5, 7, 1]);
    let out = node.handle_message(&from("c0", Some(3), Broadcast::Read)).unwrap();
    match &out[0].body.payload {
        Broadcast::ReadOk { messages } => assert_eq!(messages, &vec![5, 7, 1]),
        _ => panic!("read_ok expected"),
    }
    assert_eq!(out[0].body.msg_id, Some(5));
}

#[test]
fn broadcast_gossips_what_neighbours_have_not_sent() {
    let mut node = BroadcastNode::new();
    node.handle_message(&from("c0", Some(1), Broadcast::Init { node_id: "n1".to_string(), node_ids: names(&["n1", "n2", "n3"]) })).unwrap();
    assert!(node.handle_message(&from("n1", None, Broadcast::TriggerGossip)).unwrap().is_empty());
    let before = node.message_id();
    let topology = vec![
        ("n2".to_string(), names(&["n1"])),
        ("n1".to_string(), names(&["n2", "n3"])),
        ("n1".to_string(), names(&["n9"])),
    ];
    let out = node.handle_message(&from("c0", Some(2), Broadcast::Topology { topology })).unwrap();
    assert!(matches!(out[0].body.payload, Broadcast::TopologyOk));
    assert_eq!(node.message_id(), before + 1);
    node.handle_message(&from("c0", Some(3), Broadcast::Broadcast { message: 1 })).unwrap();
    node.handle_message(&from("c0", Some(4), Broadcast::Broadcast { message: 2 })).unwrap();
    assert!(node.handle_message(&from("n2", Some(1), Broadcast::Gossip { seen: vec![2, 3] })).unwrap().is_empty());
    assert_eq!(node.messages(), &vec![1, 2, 3]);
    let id = node.message_id();
    let out = node.handle_message(&from("n1", None, Broadcast::TriggerGossip)).unwrap();
    assert_eq!(out.len(), 2);
    assert_eq!(node.message_id(), id + 1);
    let seen: Vec<(String, Vec<usize>)> = out
        .iter()
        .map(|m| match &m.body.payload {
            Broadcast::Gossip { seen } => (m.dest.clone(), seen.clone()),
            _ => panic!("gossip expected"),
        })
        .collect();
    assert_eq!(seen, vec![("n2".to_string(), vec![1]), ("n3".to_string(), vec![1, 2, 3])]);
    assert_eq!(out[0].body.msg_id, Some(id));
    let again = node.handle_message(&from("n1", None, Broadcast::TriggerGossip)).unwrap();
    assert_eq!(again.len(), 2);
}

#[test]
fn broadcast_rejects_unknown_nodes() {
    let mut node = BroadcastNode::new();
    node.handle_message(&from("c0", Some(1), Broadcast::Init { node_id: "n1".to_string(), node_ids: names(&["n1", "n2"]) })).unwrap();
    let gossip = from("n7", Some(1), Broadcast::Gossip { seen: vec![4] });
    assert_eq!(node.handle_message(&gossip).err(), Some(NodeError::UnknownNode));
    assert!(node.messages().is_empty());
    let topology = vec![("n1".to_string(), names(&["n2", "n7"]))];
    node.handle_message(&from("c0", Some(2), Broadcast::Topology { topology })).unwrap();
    let id = node.message_id();
    assert_eq!(node.handle_message(&from("n1", None, Broadcast::TriggerGossip)).err(), Some(NodeError::UnknownNode));
    assert_eq!(node.message_id(), id);
    let none = vec![("n5".to_string(), names(&["n2"]))];
    node.handle_message(&from("c0", Some(2), Broadcast::Topology { topology: none })).unwrap();
    assert!(node.handle_message(&from("n1", None, Broadcast::TriggerGossip)).unwrap().is_empty());
}

#[test]
fn counter_adds_and_gossips() {
    let mut node = GrowOnlyCounterNode::new();
    node.handle_message(&from("c0", Some(1), Counter::Init { node_id: "n1".to_string(), node_ids: names(&["n1", "n2", "n3"]) })).unwrap();
    let out = node.handle_message(&from("c0", Some(10), Counter::Add { delta: 4 })).unwrap();
    assert!(matches!(out[0].body.payload, Counter::AddOk));
    node.handle_message(&from("c0", Some(11), Counter::Add { delta: 6 })).unwrap();
    assert_eq!(node.value(), 10);
    node.handle_message(&from("c9", Some(10), Counter::Add { delta: 1 })).unwrap();
    assert_eq!(node.value(), 11);
    let out = node.handle_message(&from("c0", Some(12), Counter::Read)).unwrap();
    assert!(matches!(out[0].body.payload, Counter::ReadOk { value: 11 }));

    node.handle_message(&from("n2", Some(1), Counter::Gossip { seen: vec![(11, 6), (20, 5), (20, 7)] })).unwrap();
    assert_eq!(node.value(), 16);
    let id = node.message_id();
    let out = node.handle_message(&from("n1", None, Counter::TriggerGossip)).unwrap();
    let seen: Vec<(String, Vec<(usize, usize)>)> = out
        .iter()
        .map(|m| match &m.body.payload {
            Counter::Gossip { seen } => (m.dest.clone(), seen.clone()),
            _ => panic!("gossip expected"),
        })
        .collect();
    assert_eq!(
        seen,
        vec![
            ("n2".to_string(), vec![(10, 1)]),
            ("n3".to_string(), vec![(10, 1), (11, 6), (20, 7)]),
        ]
    );
    assert_eq!(node.message_id(), id + 1);
}

#[test]
fn counter_errors_change_nothing() {
    let mut node = GrowOnlyCounterNode::new();
    node.handle_message(&from("c0", Some(1), Counter::Init { node_id: "n1".to_string(), node_ids: names(&["n1", "n2"]) })).unwrap();
    let id = node.message_id();
    assert_eq!(node.handle_message(&from("c0", None, Counter::Add { delta: 4 })).err(), Some(NodeError::MissingMessageId));
    assert_eq!(node.handle_message(&from("n8", Some(1), Counter::Gossip { seen: vec![(1, 1)] })).err(), Some(NodeError::UnknownNode));
    assert_eq!((node.value(), node.message_id()), (0, id));
}

#[test]
fn counter_sums_wrap() {
    assert_eq!(add_wrapping(2, 3), 5);
    assert_eq!(add_wrapping(usize::MAX, 0), usize::MAX);
    assert_eq!(add_wrapping(usize::MAX, 1), 0);
    assert_eq!(add_wrapping(usize::MAX, usize::MAX), usize::MAX - 1);
    assert_eq!(add_wrapping(7, usize::MAX - 3), 3);
}

#[test]
fn key_value_reads_writes_and_compares() {
    let mut node = RaftNode::new();
    let out = node.handle_message(&from("c0", Some(1), Kv::Init { node_id: "n1".to_string(), node_ids: names(&["n1", "n2", "n3"]) })).unwrap();
    assert!(matches!(out[0].body.payload, Kv::InitOk));
    assert_eq!(out[0].body.msg_id, Some(0));

    let out = node.handle_message(&from("c0", Some(3), Kv::Read { key: 1 })).unwrap();
    match &out[0].body.payload {
        Kv::Error { code, text } => {
            assert_eq!((*code, code.code()), (Error::KetDoesNotExist, 20));
            assert_eq!(text, "Key 1 not found");
        }
        _ => panic!("error expected"),
    }

    let out = node.handle_message(&from("c0", Some(3), Kv::Write { key: 1, value: 5 })).unwrap();
    assert_eq!(out.len(), 3);
    assert!(matches!(out[0].body.payload, Kv::Write { key: 1, value: 5 }));
    assert_eq!((out[0].dest.as_str(), out[1].dest.as_str()), ("n2", "n3"));
    assert_eq!((out[0].body.msg_id, out[2].body.msg_id), (Some(2), Some(3)));
    assert!(matches!(out[2].body.payload, Kv::WriteOk));
    assert_eq!(node.value_of(1), Some(5));

    let out = node.handle_message(&from("c0", Some(3), Kv::Read { key: 1 })).unwrap();
    assert!(matches!(out[0].body.payload, Kv::ReadOk { value: 5 }));

    let out = node.handle_message(&from("c0", Some(3), Kv::Cas { key: 1, from: 0, to: 9 })).unwrap();
    assert!(matches!(out[0].body.payload, Kv::Write { key: 1, value: 9 }));
    match &out[2].body.payload {
        Kv::Error { code, text } => {
            assert_eq!((*code, code.code()), (Error::PreconditionFailed, 22));
            assert_eq!(text, "Expected 5, but had 0");
        }
        _ => panic!("error expected"),
    }
    assert_eq!(node.value_of(1), Some(5));

    let out = node.handle_message(&from("c0", Some(3), Kv::Cas { key: 1, from: 5, to: 9 })).unwrap();
    assert!(matches!(out[2].body.payload, Kv::CasOk));
    assert_eq!(node.value_of(1), Some(9));

    let out = node.handle_message(&from("c0", Some(3), Kv::Cas { key: 40, from: 5, to: 9 })).unwrap();
    match &out[2].body.payload {
        Kv::Error { code, text } => {
            assert_eq!(*code, Error::KetDoesNotExist);
            assert_eq!(text, "Key 40 not found");
        }
        _ => panic!("error expected"),
    }
    assert_eq!(node.value_of(40), None);
    assert!(node.handle_message(&from("c0", Some(3), Kv::CasOk)).unwrap().is_empty());
}

#[test]
fn operations_from_their_parts() {
    assert_eq!(Operation::parse("r", 1, None), Ok(Operation::Read { key: 1, value: None }));
    assert_eq!(Operation::parse("r", 2, Some(5)), Ok(Operation::Read { key: 2, value: Some(5) }));
    assert_eq!(Operation::parse("w", 3, Some(6)), Ok(Operation::Write { key: 3, value: 6 }));
    assert_eq!(Operation::parse("w", 3, None), Err(OperationError::MissingValue));
    assert_eq!(Operation::parse("x", 3, Some(1)), Err(OperationError::UnknownVariant));
    assert_eq!(Operation::parse("", 3, Some(1)), Err(OperationError::UnknownVariant));
    assert_eq!(Operation::Read { key: 1, value: None }.kind(), "r");
    assert_eq!(Operation::Write { key: 1, value: 2 }.kind(), "w");
}

#[test]
fn transactions_apply_in_order() {
    let mut node = TotallyAvailableTransactionsNode::new();
    let out = node.handle_message(&from("c0", Some(1), Txn::Init { node_id: "n1".to_string(), node_ids: names(&["n1", "n2"]) })).unwrap();
    assert_eq!(out[0].body.msg_id, None);
    let txn = vec![
        Operation::Read { key: 1, value: None },
        Operation::Read { key: 2, value: Some(5) },
        Operation::Write { key: 3, value: 6 },
        Operation::Read { key: 3, value: None },
        Operation::Write { key: 3, value: 7 },
    ];
    let done = vec![
        Operation::Read { key: 1, value: None },
        Operation::Read { key: 2, value: None },
        Operation::Write { key: 3, value: 6 },
        Operation::Read { key: 3, value: Some(6) },
        Operation::Write { key: 3, value: 7 },
    ];
    let out = node.handle_message(&from("c0", Some(3), Txn::Txn { txn })).unwrap();
    assert_eq!(out.len(), 2);
    match &out[0].body.payload {
        Txn::InternalTxn { txn } => assert_eq!(txn, &done),
        _ => panic!("internal_txn expected"),
    }
    assert_eq!((out[0].dest.as_str(), out[0].body.msg_id), ("n2", Some(1)));
    match &out[1].body.payload {
        Txn::TxnOk { txn } => assert_eq!(txn, &done),
        _ => panic!("txn_ok expected"),
    }
    assert_eq!((out[1].body.msg_id, out[1].body.in_reply_to), (Some(2), Some(3)));
    assert_eq!(node.value_of(3), Some(7));
    assert_eq!(node.message_id(), 3);

    let mut other = TotallyAvailableTransactionsNode::new();
    assert!(other.handle_message(&from("n1", Some(1), Txn::InternalTxn { txn: done })).unwrap().is_empty());
    assert_eq!(other.value_of(3), Some(7));
    assert_eq!(other.value_of(1), None);
    assert_eq!(other.message_id(), 0);
}

#[test]
fn the_kind_tells_whether_a_value_is_needed() {
    assert_eq!(Operation::needs_value("r"), Ok(false));
    assert_eq!(Operation::needs_value("w"), Ok(true));
    assert_eq!(Operation::needs_value("x"), Err(OperationError::UnknownVariant));
    assert_eq!(Operation::needs_value("rw"), Err(OperationError::UnknownVariant));
}
