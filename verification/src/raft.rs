//! A node of a key-value store that replicates every write by telling
//! all its neighbours. There is no leader and no agreement: the last
//! write that reaches a node wins there.
use crate::decimal::{decimal, decimal_text};
use crate::names::{
    clone_names, distinct_names, lemma_distinct_push, lemma_name_seq_set, lemma_name_set_push,
    name_seq, name_set, others, others_of,
};
use crate::{bump, message_views, next_id, Body, Message, MessageView, Node, NodeError};
use std::collections::HashMap;
use vstd::prelude::*;
use vstd::string::StringExecFns;

verus! {

broadcast use vstd::std_specs::hash::group_hash_axioms;

/// Why a request failed.
#[derive(Debug, Clone, Copy, PartialEq, Eq, Structural)]
pub enum Error {
    KetDoesNotExist,
    PreconditionFailed,
}

impl Error {
    /// The number that stands for the error on the wire.
    pub open spec fn spec_code(self) -> u64 {
        match self {
            Error::KetDoesNotExist => 20,
            Error::PreconditionFailed => 22,
        }
    }

    /// The number that stands for the error on the wire.
    pub fn code(&self) -> (code: u64)
        ensures
            code == self.spec_code(),
    {
        match self {
            Error::KetDoesNotExist => 20,
            Error::PreconditionFailed => 22,
        }
    }
}

/// What a message of the key-value protocol carries.
#[derive(Debug)]
pub enum Payload {
    Init { node_id: String, node_ids: Vec<String> },
    InitOk,
    Read { key: usize },
    ReadOk { value: usize },
    Write { key: usize, value: usize },
    WriteOk,
    Cas { key: usize, from: usize, to: usize },
    CasOk,
    Error { code: Error, text: String },
}

/// A payload as specifications see it.
#[allow(inconsistent_fields)]
pub enum PayloadView {
    Init { node_id: Seq<char>, node_ids: Seq<Seq<char>> },
    InitOk,
    Read { key: usize },
    ReadOk { value: usize },
    Write { key: usize, value: usize },
    WriteOk,
    Cas { key: usize, from: usize, to: usize },
    CasOk,
    Error { code: Error, text: Seq<char> },
}

impl View for Payload {
    type V = PayloadView;

    open spec fn view(&self) -> PayloadView {
        match self {
            Payload::Init { node_id, node_ids } => PayloadView::Init {
                node_id: node_id@,
                node_ids: name_seq(node_ids@),
            },
            Payload::InitOk => PayloadView::InitOk,
            Payload::Read { key } => PayloadView::Read { key: *key },
            Payload::ReadOk { value } => PayloadView::ReadOk { value: *value },
            Payload::Write { key, value } => PayloadView::Write { key: *key, value: *value },
            Payload::WriteOk => PayloadView::WriteOk,
            Payload::Cas { key, from, to } => PayloadView::Cas { key: *key, from: *from, to: *to },
            Payload::CasOk => PayloadView::CasOk,
            Payload::Error { code, text } => PayloadView::Error { code: *code, text: text@ },
        }
    }
}

/// A message of the key-value protocol as specifications see it.
pub type Letter = MessageView<PayloadView>;

/// The text of the error for a key that is not there.
pub open spec fn key_not_found(key: usize) -> Seq<char> {
    "Key "@ + decimal_text(key as nat) + " not found"@
}

/// The text of the error for a comparison that failed: first the value
/// that is there, then the value that was asked for.
pub open spec fn expected_but_had(found: usize, from: usize) -> Seq<char> {
    "Expected "@ + decimal_text(found as nat) + ", but had "@ + decimal_text(from as nat)
}

/// The text of the error for a key that is not there.
fn key_not_found_text(key: usize) -> (text: String)
    ensures
        text@ == key_not_found(key),
{
    let number = decimal(key);
    let text = "Key ".to_owned().concat(number.as_str()).concat(" not found");
    assert(text@ =~= key_not_found(key));
    text
}

/// The text of the error for a comparison that failed.
fn expected_but_had_text(found: usize, from: usize) -> (text: String)
    ensures
        text@ == expected_but_had(found, from),
{
    let first = decimal(found);
    let second = decimal(from);
    let text = "Expected ".to_owned().concat(first.as_str()).concat(", but had ").concat(
        second.as_str(),
    );
    assert(text@ =~= expected_but_had(found, from));
    text
}

/// A key-value node.
pub struct RaftNode {
    node_id: String,
    message_id: usize,
    cluster: Vec<String>,
    neighbors: Vec<String>,
    store: HashMap<usize, usize>,
}

/// The state of a key-value node.
#[verifier::ext_equal]
pub struct RaftView {
    pub node_id: Seq<char>,
    pub message_id: usize,
    /// Every node of the cluster, this one included.
    pub cluster: Set<Seq<char>>,
    /// Every other node of the cluster, in the order in which it is told.
    pub neighbors: Seq<Seq<char>>,
    /// The value under each key.
    pub store: Map<usize, usize>,
}

impl View for RaftNode {
    type V = RaftView;

    closed spec fn view(&self) -> RaftView {
        RaftView {
            node_id: self.node_id@,
            message_id: self.message_id,
            cluster: name_set(self.cluster@),
            neighbors: name_seq(self.neighbors@),
            store: self.store@,
        }
    }
}

impl RaftView {
    /// The node after it sent something.
    pub open spec fn next(self) -> RaftView {
        RaftView { message_id: next_id(self.message_id), ..self }
    }

    /// One message with `payload` for each neighbour, in order, all under
    /// the node's current message id.
    pub open spec fn fanout(self, payload: PayloadView) -> Seq<Letter> {
        Seq::new(
            self.neighbors.len(),
            |i: int|
                MessageView {
                    src: self.node_id,
                    dest: self.neighbors[i],
                    msg_id: Some(self.message_id),
                    in_reply_to: None,
                    payload,
                },
        )
    }

    /// The answer to `read`.
    pub open spec fn read(self, key: usize) -> PayloadView {
        if self.store.contains_key(key) {
            PayloadView::ReadOk { value: self.store[key] }
        } else {
            PayloadView::Error { code: Error::KetDoesNotExist, text: key_not_found(key) }
        }
    }

    /// The answer to `cas`.
    pub open spec fn compared(self, key: usize, from: usize) -> PayloadView {
        if !self.store.contains_key(key) {
            PayloadView::Error { code: Error::KetDoesNotExist, text: key_not_found(key) }
        } else if self.store[key] == from {
            PayloadView::CasOk
        } else {
            PayloadView::Error {
                code: Error::PreconditionFailed,
                text: expected_but_had(self.store[key], from),
            }
        }
    }

    /// What handling `request` makes of the node, and what it sends.
    ///
    /// `write` stores the value, tells every neighbour, and answers.
    /// `cas` stores the new value if the old one is as asked, and answers
    /// accordingly; it tells every neighbour to write the new value
    /// whether or not the comparison held.
    pub open spec fn step(self, request: Letter) -> (RaftView, Seq<Letter>) {
        match request.payload {
            PayloadView::Init { node_id, node_ids } => (
                RaftView {
                    node_id,
                    neighbors: others(node_ids, node_id),
                    cluster: others(node_ids, node_id).to_set().insert(node_id),
                    ..self
                }.next(),
                seq![request.reply(Some(self.message_id), PayloadView::InitOk)],
            ),
            PayloadView::Read { key } => (
                self.next(),
                seq![request.reply(Some(self.message_id), self.read(key))],
            ),
            PayloadView::Write { key, value } => {
                let stored = RaftView { store: self.store.insert(key, value), ..self };
                (
                    stored.next().next(),
                    stored.fanout(PayloadView::Write { key, value }).push(
                        request.reply(Some(stored.next().message_id), PayloadView::WriteOk),
                    ),
                )
            },
            PayloadView::Cas { key, from, to } => {
                let stored = if self.store.contains_key(key) && self.store[key] == from {
                    RaftView { store: self.store.insert(key, to), ..self }
                } else {
                    self
                };
                (
                    stored.next().next(),
                    stored.fanout(PayloadView::Write { key, value: to }).push(
                        request.reply(Some(stored.next().message_id), self.compared(key, from)),
                    ),
                )
            },
            _ => (self, Seq::empty()),
        }
    }
}

impl RaftNode {
    /// A node before `init`.
    pub open spec fn fresh() -> RaftView {
        RaftView {
            node_id: "uninit"@,
            message_id: 0,
            cluster: Set::empty(),
            neighbors: Seq::empty(),
            store: Map::empty(),
        }
    }

    /// Neither the neighbours nor the cluster hold a name twice.
    pub closed spec fn well_formed(&self) -> bool {
        distinct_names(self.neighbors@) && distinct_names(self.cluster@)
    }

    /// A node before `init`.
    pub fn new() -> (node: Self)
        ensures
            node.well_formed(),
            node@ == Self::fresh(),
    {
        let node = Self {
            node_id: "uninit".to_owned(),
            message_id: 0,
            cluster: Vec::new(),
            neighbors: Vec::new(),
            store: HashMap::new(),
        };
        proof {
            assert(name_set(node.cluster@) =~= Set::<Seq<char>>::empty());
            assert(name_seq(node.neighbors@) =~= Seq::<Seq<char>>::empty());
            assert(node@ =~= Self::fresh());
        }
        node
    }

    /// The id that the next message from this node carries.
    pub fn message_id(&self) -> (id: usize)
        ensures
            id == self@.message_id,
    {
        self.message_id
    }

    /// The value under `key`, if there is one.
    pub fn value_of(&self, key: usize) -> (value: Option<usize>)
        ensures
            value == (if self@.store.contains_key(key) {
                Some(self@.store[key])
            } else {
                None
            }),
    {
        match self.store.get(&key) {
            Some(value) => Some(*value),
            None => None,
        }
    }

    /// Queues `message` for sending and uses up the message id.
    pub fn send_message(&mut self, out: &mut Vec<Message<Payload>>, message: Message<Payload>)
        requires
            old(self).well_formed(),
        ensures
            final(self).well_formed(),
            final(self)@ == old(self)@.next(),
            final(out)@ == old(out)@.push(message),
    {
        out.push(message);
        self.message_id = bump(self.message_id);
    }

    /// Queues a batch of messages for sending; the whole batch uses up
    /// one message id.
    pub fn send_messages(&mut self, out: &mut Vec<Message<Payload>>, messages: Vec<Message<Payload>>)
        requires
            old(self).well_formed(),
        ensures
            final(self).well_formed(),
            final(self)@ == old(self)@.next(),
            final(out)@ == old(out)@ + messages@,
    {
        let mut messages = messages;
        out.append(&mut messages);
        self.message_id = bump(self.message_id);
    }

    /// Handles `init`: takes the id and the cluster and answers
    /// `init_ok`.
    pub fn handle_init(&mut self, message: &Message<Payload>, node_id: &str, node_ids: &Vec<String>) -> (out:
        Vec<Message<Payload>>)
        requires
            old(self).well_formed(),
        ensures
            final(self).well_formed(),
            (final(self)@, message_views(out@)) == old(self)@.step(
                message@.carrying(PayloadView::Init { node_id: node_id@, node_ids: name_seq(node_ids@) }),
            ),
    {
        let me = node_id.to_owned();
        let neighbors = others_of(node_ids, &me);
        let mut cluster = clone_names(&neighbors);
        proof {
            lemma_name_seq_set(neighbors@);
            lemma_name_set_push(cluster@, me);
            lemma_distinct_push(cluster@, me);
        }
        cluster.push(me.clone());
        self.node_id = me;
        self.neighbors = neighbors;
        self.cluster = cluster;
        let reply = message.reply(Some(self.message_id), Payload::InitOk);
        let mut out: Vec<Message<Payload>> = Vec::new();
        self.send_message(&mut out, reply);
        proof {
            assert(message_views(out@) =~= old(self)@.step(
                message@.carrying(PayloadView::Init { node_id: node_id@, node_ids: name_seq(node_ids@) }),
            ).1);
            assert(self@ =~= old(self)@.step(
                message@.carrying(PayloadView::Init { node_id: node_id@, node_ids: name_seq(node_ids@) }),
            ).0);
        }
        out
    }

    /// Handles `read`: answers with the value under the key, or with the
    /// error for a key that is not there.
    pub fn handle_read(&mut self, message: &Message<Payload>, key: usize) -> (out: Vec<
        Message<Payload>,
    >)
        requires
            old(self).well_formed(),
        ensures
            final(self).well_formed(),
            (final(self)@, message_views(out@)) == old(self)@.step(
                message@.carrying(PayloadView::Read { key }),
            ),
    {
        let payload = match self.store.get(&key) {
            Some(value) => Payload::ReadOk { value: *value },
            None => Payload::Error { code: Error::KetDoesNotExist, text: key_not_found_text(key) },
        };
        let reply = message.reply(Some(self.message_id), payload);
        let mut out: Vec<Message<Payload>> = Vec::new();
        self.send_message(&mut out, reply);
        proof {
            assert(message_views(out@) =~= old(self)@.step(
                message@.carrying(PayloadView::Read { key }),
            ).1);
            assert(self@ =~= old(self)@.step(message@.carrying(PayloadView::Read { key })).0);
        }
        out
    }

    /// Tells every neighbour to write `value` under `key`.
    pub fn broadcast(&mut self, out: &mut Vec<Message<Payload>>, key: usize, value: usize)
        requires
            old(self).well_formed(),
        ensures
            final(self).well_formed(),
            final(self)@ == old(self)@.next(),
            message_views(final(out)@) == message_views(old(out)@) + old(self)@.fanout(
                PayloadView::Write { key, value },
            ),
    {
        let mut messages: Vec<Message<Payload>> = Vec::new();
        let mut i: usize = 0;
        let ghost payload = PayloadView::Write { key, value };
        while i < self.neighbors.len()
            invariant
                i <= self.neighbors.len(),
                self == old(self),
                payload == (PayloadView::Write { key, value }),
                messages.len() == i,
                forall|k: int| 0 <= k < i ==> (#[trigger] messages[k])@ == self@.fanout(payload)[k],
            decreases self.neighbors.len() - i,
        {
            let message = Message::new(
                self.node_id.clone(),
                self.neighbors[i].clone(),
                Body::new(Some(self.message_id), None, Payload::Write { key, value }),
            );
            let ghost before = messages@;
            messages.push(message);
            assert forall|k: int| 0 <= k < i + 1 implies (#[trigger] messages[k])@
                == self@.fanout(payload)[k] by {
                if k < i {
                    assert(messages[k] == before[k]);
                }
            }
            i += 1;
        }
        proof {
            assert(message_views(messages@) =~= self@.fanout(payload));
        }
        self.send_messages(out, messages);
        proof {
            assert(message_views(out@) =~= message_views(old(out)@) + old(self)@.fanout(payload));
        }
    }

    /// Handles `write`: stores the value, tells every neighbour, and
    /// answers `write_ok`.
    pub fn handle_write(&mut self, message: &Message<Payload>, key: usize, value: usize) -> (out:
        Vec<Message<Payload>>)
        requires
            old(self).well_formed(),
        ensures
            final(self).well_formed(),
            (final(self)@, message_views(out@)) == old(self)@.step(
                message@.carrying(PayloadView::Write { key, value }),
            ),
    {
        self.store.insert(key, value);
        let mut out: Vec<Message<Payload>> = Vec::new();
        proof {
            assert(message_views(out@) =~= Seq::<Letter>::empty());
        }
        self.broadcast(&mut out, key, value);
        let reply = message.reply(Some(self.message_id), Payload::WriteOk);
        let ghost before = out@;
        self.send_message(&mut out, reply);
        proof {
            assert(message_views(out@) =~= message_views(before).push(reply@));
            assert(message_views(out@) =~= old(self)@.step(
                message@.carrying(PayloadView::Write { key, value }),
            ).1);
            assert(self@ =~= old(self)@.step(
                message@.carrying(PayloadView::Write { key, value }),
            ).0);
        }
        out
    }

    /// Handles `cas`: if the value under the key is `from` it becomes
    /// `to`; every neighbour is told to write `to` in either case; the
    /// answer says how the comparison went.
    pub fn handle_cas(&mut self, message: &Message<Payload>, key: usize, from: usize, to: usize) -> (out:
        Vec<Message<Payload>>)
        requires
            old(self).well_formed(),
        ensures
            final(self).well_formed(),
            (final(self)@, message_views(out@)) == old(self)@.step(
                message@.carrying(PayloadView::Cas { key, from, to }),
            ),
    {
        let found = self.value_of(key);
        let payload = match found {
            Some(value) => {
                if value == from {
                    self.store.insert(key, to);
                    Payload::CasOk
                } else {
                    Payload::Error {
                        code: Error::PreconditionFailed,
                        text: expected_but_had_text(value, from),
                    }
                }
            },
            None => Payload::Error { code: Error::KetDoesNotExist, text: key_not_found_text(key) },
        };
        let mut out: Vec<Message<Payload>> = Vec::new();
        proof {
            assert(message_views(out@) =~= Seq::<Letter>::empty());
        }
        self.broadcast(&mut out, key, to);
        let reply = message.reply(Some(self.message_id), payload);
        let ghost before = out@;
        self.send_message(&mut out, reply);
        proof {
            assert(message_views(out@) =~= message_views(before).push(reply@));
            assert(message_views(out@) =~= old(self)@.step(
                message@.carrying(PayloadView::Cas { key, from, to }),
            ).1);
            assert(self@ =~= old(self)@.step(
                message@.carrying(PayloadView::Cas { key, from, to }),
            ).0);
        }
        out
    }
}

impl Node<Payload> for RaftNode {
    open spec fn wf(&self) -> bool {
        self.well_formed()
    }

    open spec fn handles(
        &self,
        message: &Message<Payload>,
        post: &Self,
        result: &Result<Vec<Message<Payload>>, NodeError>,
    ) -> bool {
        &&& *result matches Ok(out)
        &&& (post@, message_views(out@)) == self@.step(message@)
    }

    fn handle_message(&mut self, message: &Message<Payload>) -> (result: Result<
        Vec<Message<Payload>>,
        NodeError,
    >) {
        let out = match &message.body.payload {
            Payload::Init { node_id, node_ids } => self.handle_init(
                message,
                node_id.as_str(),
                node_ids,
            ),
            Payload::Read { key } => self.handle_read(message, *key),
            Payload::Write { key, value } => self.handle_write(message, *key, *value),
            Payload::Cas { key, from, to } => self.handle_cas(message, *key, *from, *to),
            _ => {
                let out: Vec<Message<Payload>> = Vec::new();
                assert(message_views(out@) =~= Seq::<Letter>::empty());
                out
            },
        };
        Ok(out)
    }
}

} // verus!
