//! Message-passing nodes for a line-delimited JSON cluster protocol: echo,
//! unique ids, gossiped sets and counters, simple replicated stores, and a
//! replicated append-only log with offset commit and cluster-wide anchoring.
//!
//! Every node is a state machine: a handler takes the node's state and one
//! inbound message and returns the messages to send. Reading input, writing
//! output and timers live outside this crate.
//!
//! The replicated log is the heart of the crate. `log_model` says what a
//! log store is and what each operation makes of it; `log_store` is the
//! store itself; `peer_knowledge` is what a node believes its neighbours
//! hold; `kafka_model` and `kafka_style_log` are the node. The laws of the
//! log are proved in `log_laws`, `kafka_laws` and `convergence`.
use vstd::prelude::*;

pub mod broadcast;
pub mod convergence;
pub mod decimal;
pub mod echo;
pub mod grow_only_counter;
pub mod kafka_laws;
pub mod kafka_model;
pub mod kafka_style_log;
pub mod log_entry;
pub mod log_laws;
pub mod log_model;
pub mod log_store;
pub mod name_map;
pub mod names;
pub mod numbers;
pub mod peer_knowledge;
pub mod raft;
pub mod totally_available_transactions;
pub mod unique_id;

verus! {

/// The envelope around one payload: who sent it, who receives it, and the body.
#[derive(Debug, Clone)]
pub struct Message<Payload> {
    pub src: String,
    pub dest: String,
    pub body: Body<Payload>,
}

/// The inner part of a message: its own id, the id of the request it answers,
/// and the typed payload.
#[derive(Debug, Clone)]
pub struct Body<Payload> {
    pub msg_id: Option<usize>,
    pub in_reply_to: Option<usize>,
    pub payload: Payload,
}

/// A message as specifications see it, with the payload taken by its view.
pub struct MessageView<P> {
    pub src: Seq<char>,
    pub dest: Seq<char>,
    pub msg_id: Option<usize>,
    pub in_reply_to: Option<usize>,
    pub payload: P,
}

impl<Payload> Body<Payload> {
    /// A body with these ids and this payload.
    pub fn new(msg_id: Option<usize>, in_reply_to: Option<usize>, payload: Payload) -> (body: Self)
        ensures
            body == (Body { msg_id, in_reply_to, payload }),
    {
        Self { msg_id, in_reply_to, payload }
    }
}

impl<Payload> Message<Payload> {
    /// A message from `src` to `dest`.
    pub fn new(src: String, dest: String, body: Body<Payload>) -> (message: Self)
        ensures
            message == (Message { src, dest, body }),
    {
        Self { src, dest, body }
    }

    /// The id that the message carries, if any.
    pub fn msg_id(&self) -> (id: Option<usize>)
        ensures
            id == self.body.msg_id,
    {
        self.body.msg_id
    }

    /// The sender's node id.
    pub fn src(&self) -> (src: &str)
        ensures
            src@ == self.src@,
    {
        self.src.as_str()
    }

    /// The receiver's node id.
    pub fn dest(&self) -> (dest: &str)
        ensures
            dest@ == self.dest@,
    {
        self.dest.as_str()
    }

    /// The body of the message.
    pub fn body(&self) -> (body: &Body<Payload>)
        ensures
            *body == self.body,
    {
        &self.body
    }
}

impl<Payload: View> View for Message<Payload> {
    type V = MessageView<Payload::V>;

    open spec fn view(&self) -> MessageView<Payload::V> {
        MessageView {
            src: self.src@,
            dest: self.dest@,
            msg_id: self.body.msg_id,
            in_reply_to: self.body.in_reply_to,
            payload: self.body.payload@,
        }
    }
}

impl<Payload> Message<Payload> {
    /// The message that answers this one: from its receiver to its sender,
    /// in reply to its id.
    pub fn reply(&self, msg_id: Option<usize>, payload: Payload) -> (answer: Message<Payload>)
        ensures
            answer.src@ == self.dest@,
            answer.dest@ == self.src@,
            answer.body == (Body { msg_id, in_reply_to: self.body.msg_id, payload }),
    {
        Message::new(
            self.dest.clone(),
            self.src.clone(),
            Body::new(msg_id, self.body.msg_id, payload),
        )
    }
}

impl<P> MessageView<P> {
    /// The same message with another payload.
    pub open spec fn carrying(self, payload: P) -> MessageView<P> {
        MessageView { payload, ..self }
    }

    /// The view of the message that answers this one.
    pub open spec fn reply(self, msg_id: Option<usize>, payload: P) -> MessageView<P> {
        MessageView { src: self.dest, dest: self.src, msg_id, in_reply_to: self.msg_id, payload }
    }
}

/// The id that follows `id`; after the largest id the count starts again.
pub open spec fn next_id(id: usize) -> usize {
    if id == usize::MAX {
        0
    } else {
        (id + 1) as usize
    }
}

/// The id that follows `id`.
pub fn bump(id: usize) -> (next: usize)
    ensures
        next == next_id(id),
{
    if id == usize::MAX {
        0
    } else {
        id + 1
    }
}

/// The views of a list of messages, in order.
pub open spec fn message_views<Payload: View>(messages: Seq<Message<Payload>>) -> Seq<
    MessageView<Payload::V>,
> {
    Seq::new(messages.len(), |i: int| messages[i]@)
}

/// Why a node could not handle an event.
#[derive(Debug, Clone, Copy, PartialEq, Eq, Structural)]
pub enum NodeError {
    /// The offset service gave no offset; the client may try again.
    AllocatorUnavailable,
    /// A message names a node outside the known topology.
    UnknownNode,
    /// A request that must carry a message id carried none.
    MissingMessageId,
}

/// A node: a state machine that takes one message at a time and answers
/// with the messages to send.
pub trait Node<Payload>: Sized {
    /// What holds of the node between two messages.
    spec fn wf(&self) -> bool;

    /// Whether handling `message` in state `self` may leave the node in
    /// state `post` with `result`.
    spec fn handles(
        &self,
        message: &Message<Payload>,
        post: &Self,
        result: &Result<Vec<Message<Payload>>, NodeError>,
    ) -> bool;

    /// Handles one message and returns the messages to send, in order.
    fn handle_message(&mut self, message: &Message<Payload>) -> (result: Result<
        Vec<Message<Payload>>,
        NodeError,
    >)
        requires
            old(self).wf(),
        ensures
            final(self).wf(),
            old(self).handles(message, final(self), &result),
    ;
}

/// Whether handling the first `upto` messages of `inbox` in order, each
/// without error, may take `node` to `post` and send `sent`.
pub open spec fn delivers<Payload, N: Node<Payload>>(
    node: N,
    inbox: Seq<Message<Payload>>,
    upto: int,
    post: N,
    sent: Seq<Message<Payload>>,
) -> bool
    decreases upto,
{
    if upto <= 0 {
        post == node && sent.len() == 0
    } else {
        exists|mid: N, now: Vec<Message<Payload>>| #[trigger]
            mid.handles(&inbox[upto - 1], &post, &Ok(now)) && now@.len() <= sent.len()
                && sent.skip(sent.len() - now@.len()) == now@ && delivers(
                node,
                inbox,
                upto - 1,
                mid,
                sent.take(sent.len() - now@.len()),
            )
    }
}

/// Feeds the node the messages of `inbox` in the order of their arrival
/// and gathers what it sends. The first message that the node cannot
/// handle ends the run with the node's error; what was to be sent until
/// then is dropped, and the node stays as that message left it.
pub fn main_loop<Payload, N: Node<Payload>>(node: &mut N, inbox: &Vec<Message<Payload>>) -> (result:
    Result<Vec<Message<Payload>>, NodeError>)
    requires
        old(node).wf(),
    ensures
        final(node).wf(),
        match result {
            Ok(sent) => delivers(*old(node), inbox@, inbox@.len() as int, *final(node), sent@),
            Err(error) => exists|k: int, mid: N, before: Seq<Message<Payload>>|
                #![trigger delivers(*old(node), inbox@, k, mid, before)]
                0 <= k < inbox@.len() && delivers(*old(node), inbox@, k, mid, before)
                    && mid.handles(&inbox@[k], final(node), &Err(error)),
        },
{
    let mut sent: Vec<Message<Payload>> = Vec::new();
    let mut i: usize = 0;
    while i < inbox.len()
        invariant
            i <= inbox.len(),
            node.wf(),
            delivers(*old(node), inbox@, i as int, *node, sent@),
        decreases inbox.len() - i,
    {
        let ghost mid = *node;
        let ghost before = sent@;
        match node.handle_message(&inbox[i]) {
            Ok(mut now) => {
                let ghost fresh = now;
                sent.append(&mut now);
                proof {
                    let upto = i as int + 1;
                    assert(mid.handles(&inbox@[upto - 1], &*node, &Ok(fresh)));
                    assert(sent@ == before + fresh@);
                    assert(sent@.skip(sent@.len() - fresh@.len()) =~= fresh@);
                    assert(sent@.take(sent@.len() - fresh@.len()) =~= before);
                }
            },
            Err(error) => {
                proof {
                    assert(delivers(*old(node), inbox@, i as int, mid, before));
                }
                return Err(error);
            },
        }
        i += 1;
    }
    Ok(sent)
}

} // verus!
