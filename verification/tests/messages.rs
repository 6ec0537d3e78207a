use distributed_system_challenges::echo::{EchoNode, Payload};
use distributed_system_challenges::grow_only_counter::{GrowOnlyCounterNode, Payload as Counter};
use distributed_system_challenges::{bump, main_loop, Body, Message, Node, NodeError};

fn echo(id: usize, text: &str) -> Message<Payload> {
    Message::new(
        "c0".to_string(),
        "n1".to_string(),
        Body::new(Some(id), None, Payload::Echo { echo: text.to_string() }),
    )
}

#[test]
fn message_parts_are_kept() {
    let message = Message::new(
        "c0".to_string(),
        "n1".to_string(),
        Body::new(Some(3), Some(2), Payload::InitOk),
    );
    assert_eq!(message.msg_id(), Some(3));
    assert_eq!(message.src(), "c0");
    assert_eq!(message.dest(), "n1");
    assert_eq!(message.body().msg_id, Some(3));
    assert_eq!(message.body().in_reply_to, Some(2));
    assert!(matches!(message.body().payload, Payload::InitOk));
    let bare: Message<usize> = Message::new("a".to_string(), "b".to_string(), Body::new(None, None, 9));
    assert_eq!(bare.msg_id(), None);
    assert_eq!(bare.body().payload, 9);
}

#[test]
fn reply_swaps_the_ends() {
    let request = echo(3, "hi");
    let answer = request.reply(Some(8), Payload::EchoOk { echo: "hi".to_string() });
    assert_eq!(answer.src(), "n1");
    assert_eq!(answer.dest(), "c0");
    assert_eq!(answer.msg_id(), Some(8));
    assert_eq!(answer.body().in_reply_to, Some(3));
    let unnumbered = Message::new("a".to_string(), "b".to_string(), Body::new(None, None, 1usize));
    assert_eq!(unnumbered.reply(None, 2usize).body().in_reply_to, None);
}

#[test]
fn ids_wrap_after_the_largest() {
    assert_eq!(bump(0), 1);
    assert_eq!(bump(41), 42);
    assert_eq!(bump(usize::MAX), 0);
}

#[test]
fn echo_answers_with_the_same_text() {
    let mut node = EchoNode::new();
    assert_eq!(node.node_id(), "uninit");
    let init = Message::new(
        "c0".to_string(),
        "n1".to_string(),
        Body::new(Some(1), None, Payload::Init { node_id: "n1".to_string(), node_ids: vec!["n1".to_string()] }),
    );
    let out = node.handle_message(&init).unwrap();
    assert_eq!(out.len(), 1);
    assert!(matches!(out[0].body.payload, Payload::InitOk));
    assert_eq!(out[0].body.msg_id, None);
    assert_eq!(out[0].body.in_reply_to, Some(1));
    assert_eq!(node.node_id(), "n1");
    assert_eq!(node.message_id(), 1);

    let out = node.handle_message(&echo(2, "Please echo 35")).unwrap();
    assert_eq!(out.len(), 1);
    match &out[0].body.payload {
        Payload::EchoOk { echo } => assert_eq!(echo, "Please echo 35"),
        _ => panic!("echo_ok expected"),
    }
    assert_eq!(out[0].body.msg_id, Some(1));
    assert_eq!(out[0].body.in_reply_to, Some(2));
    assert_eq!((out[0].src.as_str(), out[0].dest.as_str()), ("n1", "c0"));
    assert_eq!(node.message_id(), 2);

    let out = node.handle_message(&out[0]).unwrap();
    assert!(out.is_empty());
    assert_eq!(node.message_id(), 2);
}

#[test]
fn main_loop_handles_messages_in_order() {
    let mut node = EchoNode::new();
    let inbox = vec![echo(1, "a"), echo(2, "b"), echo(3, "c")];
    let out = main_loop(&mut node, &inbox).unwrap();
    let texts: Vec<String> = out
        .iter()
        .map(|m| match &m.body.payload {
            Payload::EchoOk { echo } => echo.clone(),
            _ => panic!("echo_ok expected"),
        })
        .collect();
    assert_eq!(texts, vec!["a", "b", "c"]);
    let ids: Vec<Option<usize>> = out.iter().map(|m| m.body.msg_id).collect();
    assert_eq!(ids, vec![Some(0), Some(1), Some(2)]);
    assert_eq!(node.message_id(), 3);
    assert_eq!(main_loop(&mut node, &vec![]).unwrap().len(), 0);
}

#[test]
fn main_loop_stops_at_the_first_error() {
    let mut node = GrowOnlyCounterNode::new();
    let add = |id: Option<usize>, delta: usize| {
        Message::new("c0".to_string(), "n1".to_string(), Body::new(id, None, Counter::Add { delta }))
    };
    let inbox = vec![add(Some(1), 5), add(None, 7), add(Some(3), 11)];
    assert_eq!(main_loop(&mut node, &inbox).err(), Some(NodeError::MissingMessageId));
    assert_eq!(node.value(), 5);
}
