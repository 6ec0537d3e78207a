//! A node of a key-value store that takes whole transactions: it applies
//! the operations of a transaction in order and tells every neighbour
//! what it applied. Nothing orders the transactions of different nodes.
use crate::names::{
    clone_names, distinct_names, lemma_distinct_push, lemma_name_seq_set, lemma_name_set_push,
    name_seq, name_set, others, others_of,
};
use crate::{bump, message_views, next_id, Body, Message, MessageView, Node, NodeError};
use std::collections::HashMap;
use vstd::prelude::*;

verus! {

broadcast use vstd::std_specs::hash::group_hash_axioms;

/// One operation of a transaction.
#[allow(inconsistent_fields)]
#[derive(Debug, Clone, Copy, PartialEq, Eq, Structural)]
pub enum Operation {
    /// Reads the value under a key.
    Read { key: usize, value: Option<usize> },
    /// Writes a value under a key.
    Write { key: usize, value: usize },
}

/// Why the parts of an operation make no operation.
#[derive(Debug, Clone, Copy, PartialEq, Eq, Structural)]
pub enum OperationError {
    /// A write came without a value.
    MissingValue,
    /// The kind is neither `r` nor `w`.
    UnknownVariant,
}

impl Operation {
    /// The operation that the three parts of its wire form stand for:
    /// the kind, `r` or `w`, the key, and the value. A read may come
    /// without a value; a write may not.
    pub open spec fn parsed(kind: Seq<char>, key: usize, value: Option<usize>) -> Result<
        Operation,
        OperationError,
    > {
        if kind == "r"@ {
            Ok(Operation::Read { key, value })
        } else if kind == "w"@ {
            match value {
                Some(value) => Ok(Operation::Write { key, value }),
                None => Err(OperationError::MissingValue),
            }
        } else {
            Err(OperationError::UnknownVariant)
        }
    }

    /// Whether an operation of this kind must come with a value: a write
    /// must, a read need not, and any other kind is no operation.
    pub open spec fn value_needed(kind: Seq<char>) -> Result<bool, OperationError> {
        if kind == "r"@ {
            Ok(false)
        } else if kind == "w"@ {
            Ok(true)
        } else {
            Err(OperationError::UnknownVariant)
        }
    }

    /// Tells from the kind alone, before the value is read, whether the
    /// operation must come with a value.
    pub fn needs_value(kind: &str) -> (result: Result<bool, OperationError>)
        ensures
            result == Operation::value_needed(kind@),
    {
        let kind = kind.to_owned();
        if kind == "r".to_owned() {
            Ok(false)
        } else if kind == "w".to_owned() {
            Ok(true)
        } else {
            Err(OperationError::UnknownVariant)
        }
    }

    /// Makes an operation from the three parts of its wire form.
    pub fn parse(kind: &str, key: usize, value: Option<usize>) -> (result: Result<
        Operation,
        OperationError,
    >)
        ensures
            result == Operation::parsed(kind@, key, value),
    {
        let kind = kind.to_owned();
        if kind == "r".to_owned() {
            Ok(Operation::Read { key, value })
        } else if kind == "w".to_owned() {
            match value {
                Some(value) => Ok(Operation::Write { key, value }),
                None => Err(OperationError::MissingValue),
            }
        } else {
            Err(OperationError::UnknownVariant)
        }
    }

    /// The kind of the operation on the wire.
    pub fn kind(&self) -> (kind: &'static str)
        ensures
            kind@ == (match self {
                Operation::Read { .. } => "r"@,
                Operation::Write { .. } => "w"@,
            }),
    {
        match self {
            Operation::Read { .. } => "r",
            Operation::Write { .. } => "w",
        }
    }
}

/// What a message of the transaction protocol carries.
#[derive(Debug)]
pub enum Payload {
    Init { node_id: String, node_ids: Vec<String> },
    InitOk,
    Txn { txn: Vec<Operation> },
    TxnOk { txn: Vec<Operation> },
    InternalTxn { txn: Vec<Operation> },
}

/// A payload as specifications see it.
pub enum PayloadView {
    Init { node_id: Seq<char>, node_ids: Seq<Seq<char>> },
    InitOk,
    Txn { txn: Seq<Operation> },
    TxnOk { txn: Seq<Operation> },
    InternalTxn { txn: Seq<Operation> },
}

impl View for Payload {
    type V = PayloadView;

    open spec fn view(&self) -> PayloadView {
        match self {
            Payload::Init { node_id, node_ids } => PayloadView::Init {
                node_id: node_id@,
                node_ids: name_seq(node_ids@),
            },
            Payload::InitOk => PayloadView::InitOk,
            Payload::Txn { txn } => PayloadView::Txn { txn: txn@ },
            Payload::TxnOk { txn } => PayloadView::TxnOk { txn: txn@ },
            Payload::InternalTxn { txn } => PayloadView::InternalTxn { txn: txn@ },
        }
    }
}

/// A message of the transaction protocol as specifications see it.
pub type Letter = MessageView<PayloadView>;

/// What one operation makes of the store, and the operation as it was
/// applied: a read takes the value that is there; a write puts its value.
pub open spec fn applied_one(store: Map<usize, usize>, operation: Operation) -> (
    Map<usize, usize>,
    Operation,
) {
    match operation {
        Operation::Read { key, value } => (
            store,
            Operation::Read {
                key,
                value: if store.contains_key(key) {
                    Some(store[key])
                } else {
                    None
                },
            },
        ),
        Operation::Write { key, value } => (store.insert(key, value), operation),
    }
}

/// What a transaction makes of the store, and its operations as they
/// were applied, first to last.
pub open spec fn applied(store: Map<usize, usize>, txn: Seq<Operation>) -> (
    Map<usize, usize>,
    Seq<Operation>,
)
    decreases txn.len(),
{
    if txn.len() == 0 {
        (store, Seq::empty())
    } else {
        let before = applied(store, txn.drop_last());
        let last = applied_one(before.0, txn.last());
        (last.0, before.1.push(last.1))
    }
}

/// A transaction node.
pub struct TotallyAvailableTransactionsNode {
    node_id: String,
    message_id: usize,
    cluster: Vec<String>,
    neighbors: Vec<String>,
    log_store: HashMap<usize, usize>,
}

/// The state of a transaction node.
#[verifier::ext_equal]
pub struct TransactionsView {
    pub node_id: Seq<char>,
    pub message_id: usize,
    /// Every node of the cluster, this one included.
    pub cluster: Set<Seq<char>>,
    /// Every other node of the cluster, in the order in which it is told.
    pub neighbors: Seq<Seq<char>>,
    /// The value under each key.
    pub store: Map<usize, usize>,
}

impl View for TotallyAvailableTransactionsNode {
    type V = TransactionsView;

    closed spec fn view(&self) -> TransactionsView {
        TransactionsView {
            node_id: self.node_id@,
            message_id: self.message_id,
            cluster: name_set(self.cluster@),
            neighbors: name_seq(self.neighbors@),
            store: self.log_store@,
        }
    }
}

impl TransactionsView {
    /// The node after it sent something.
    pub open spec fn next(self) -> TransactionsView {
        TransactionsView { message_id: next_id(self.message_id), ..self }
    }

    /// One message with `payload` for each neighbour, in order, all under
    /// the node's current message id.
    pub open spec fn fanout(self, payload: PayloadView) -> Seq<Letter> {
        Seq::new(
            self.neighbors.len(),
            |i: int|
                MessageView {
                    src: self.node_id,
                    dest: self.neighbors[i],
                    msg_id: Some(self.message_id),
                    in_reply_to: None,
                    payload,
                },
        )
    }

    /// What handling `request` makes of the node, and what it sends. A
    /// transaction from a client is applied, passed on to every neighbour
    /// as it was applied, and answered; one from a neighbour is applied
    /// and nothing is sent.
    pub open spec fn step(self, request: Letter) -> (TransactionsView, Seq<Letter>) {
        match request.payload {
            PayloadView::Init { node_id, node_ids } => (
                TransactionsView {
                    node_id,
                    neighbors: others(node_ids, node_id),
                    cluster: others(node_ids, node_id).to_set().insert(node_id),
                    ..self
                }.next(),
                seq![request.reply(None, PayloadView::InitOk)],
            ),
            PayloadView::Txn { txn } => {
                let stored = TransactionsView { store: applied(self.store, txn).0, ..self };
                let done = applied(self.store, txn).1;
                (
                    stored.next().next(),
                    stored.fanout(PayloadView::InternalTxn { txn: done }).push(
                        request.reply(
                            Some(stored.next().message_id),
                            PayloadView::TxnOk { txn: done },
                        ),
                    ),
                )
            },
            PayloadView::InternalTxn { txn } => (
                TransactionsView { store: applied(self.store, txn).0, ..self },
                Seq::empty(),
            ),
            _ => (self, Seq::empty()),
        }
    }
}

/// A copy of a list of operations.
fn clone_operations(txn: &Vec<Operation>) -> (copy: Vec<Operation>)
    ensures
        copy@ == txn@,
{
    let mut copy: Vec<Operation> = Vec::new();
    let mut i: usize = 0;
    while i < txn.len()
        invariant
            i <= txn.len(),
            copy@ == txn@.take(i as int),
        decreases txn.len() - i,
    {
        copy.push(txn[i]);
        assert(copy@ =~= txn@.take(i + 1));
        i += 1;
    }
    assert(txn@.take(txn.len() as int) =~= txn@);
    copy
}

impl TotallyAvailableTransactionsNode {
    /// A node before `init`.
    pub open spec fn fresh() -> TransactionsView {
        TransactionsView {
            node_id: "uninit"@,
            message_id: 0,
            cluster: Set::empty(),
            neighbors: Seq::empty(),
            store: Map::empty(),
        }
    }

    /// Neither the neighbours nor the cluster hold a name twice.
    pub closed spec fn well_formed(&self) -> bool {
        distinct_names(self.neighbors@) && distinct_names(self.cluster@)
    }

    /// A node before `init`.
    pub fn new() -> (node: Self)
        ensures
            node.well_formed(),
            node@ == Self::fresh(),
    {
        let node = Self {
            node_id: "uninit".to_owned(),
            message_id: 0,
            cluster: Vec::new(),
            neighbors: Vec::new(),
            log_store: HashMap::new(),
        };
        proof {
            assert(name_set(node.cluster@) =~= Set::<Seq<char>>::empty());
            assert(name_seq(node.neighbors@) =~= Seq::<Seq<char>>::empty());
            assert(node@ =~= Self::fresh());
        }
        node
    }

    /// The id that the next message from this node carries.
    pub fn message_id(&self) -> (id: usize)
        ensures
            id == self@.message_id,
    {
        self.message_id
    }

    /// The value under `key`, if there is one.
    pub fn value_of(&self, key: usize) -> (value: Option<usize>)
        ensures
            value == (if self@.store.contains_key(key) {
                Some(self@.store[key])
            } else {
                None
            }),
    {
        match self.log_store.get(&key) {
            Some(value) => Some(*value),
            None => None,
        }
    }

    /// Queues `message` for sending and uses up the message id.
    pub fn send_message(&mut self, out: &mut Vec<Message<Payload>>, message: Message<Payload>)
        requires
            old(self).well_formed(),
        ensures
            final(self).well_formed(),
            final(self)@ == old(self)@.next(),
            final(out)@ == old(out)@.push(message),
    {
        out.push(message);
        self.message_id = bump(self.message_id);
    }

    /// Queues a batch of messages for sending; the whole batch uses up
    /// one message id.
    pub fn send_messages(&mut self, out: &mut Vec<Message<Payload>>, messages: Vec<Message<Payload>>)
        requires
            old(self).well_formed(),
        ensures
            final(self).well_formed(),
            final(self)@ == old(self)@.next(),
            final(out)@ == old(out)@ + messages@,
    {
        let mut messages = messages;
        out.append(&mut messages);
        self.message_id = bump(self.message_id);
    }

    /// Handles `init`: takes the id and the cluster and answers
    /// `init_ok`.
    pub fn handle_init(&mut self, message: &Message<Payload>, node_id: &str, node_ids: &Vec<String>) -> (out:
        Vec<Message<Payload>>)
        requires
            old(self).well_formed(),
        ensures
            final(self).well_formed(),
            (final(self)@, message_views(out@)) == old(self)@.step(
                message@.carrying(PayloadView::Init { node_id: node_id@, node_ids: name_seq(node_ids@) }),
            ),
    {
        let me = node_id.to_owned();
        let neighbors = others_of(node_ids, &me);
        let mut cluster = clone_names(&neighbors);
        proof {
            lemma_name_seq_set(neighbors@);
            lemma_name_set_push(cluster@, me);
            lemma_distinct_push(cluster@, me);
        }
        cluster.push(me.clone());
        self.node_id = me;
        self.neighbors = neighbors;
        self.cluster = cluster;
        let reply = message.reply(None, Payload::InitOk);
        let mut out: Vec<Message<Payload>> = Vec::new();
        self.send_message(&mut out, reply);
        proof {
            assert(message_views(out@) =~= old(self)@.step(
                message@.carrying(PayloadView::Init { node_id: node_id@, node_ids: name_seq(node_ids@) }),
            ).1);
            assert(self@ =~= old(self)@.step(
                message@.carrying(PayloadView::Init { node_id: node_id@, node_ids: name_seq(node_ids@) }),
            ).0);
        }
        out
    }

    /// Applies a read: the operation with the value that is there.
    pub fn process_read(&mut self, key: usize) -> (done: Operation)
        requires
            old(self).well_formed(),
        ensures
            final(self).well_formed(),
            (final(self)@.store, done) == applied_one(
                old(self)@.store,
                Operation::Read { key, value: None },
            ),
            final(self)@ == old(self)@,
    {
        Operation::Read { key, value: self.value_of(key) }
    }

    /// Applies a write: the value is put under the key.
    pub fn process_write(&mut self, key: usize, value: usize) -> (done: Operation)
        requires
            old(self).well_formed(),
        ensures
            final(self).well_formed(),
            (final(self)@.store, done) == applied_one(
                old(self)@.store,
                Operation::Write { key, value },
            ),
            final(self)@ == (TransactionsView {
                store: old(self)@.store.insert(key, value),
                ..old(self)@
            }),
    {
        self.log_store.insert(key, value);
        Operation::Write { key, value }
    }

    /// Applies the operations of a transaction in order and returns them
    /// as they were applied.
    pub fn handle_internal_txn(&mut self, txn: &Vec<Operation>) -> (done: Vec<Operation>)
        requires
            old(self).well_formed(),
        ensures
            final(self).well_formed(),
            final(self)@ == (TransactionsView {
                store: applied(old(self)@.store, txn@).0,
                ..old(self)@
            }),
            done@ == applied(old(self)@.store, txn@).1,
    {
        let mut done: Vec<Operation> = Vec::new();
        let mut i: usize = 0;
        proof {
            assert(txn@.take(0) =~= Seq::<Operation>::empty());
        }
        while i < txn.len()
            invariant
                i <= txn.len(),
                self.well_formed(),
                self@ == (TransactionsView {
                    store: applied(old(self)@.store, txn@.take(i as int)).0,
                    ..old(self)@
                }),
                done@ == applied(old(self)@.store, txn@.take(i as int)).1,
            decreases txn.len() - i,
        {
            proof {
                assert(txn@.take(i + 1).drop_last() =~= txn@.take(i as int));
            }
            let operation = match txn[i] {
                Operation::Read { key, .. } => self.process_read(key),
                Operation::Write { key, value } => self.process_write(key, value),
            };
            done.push(operation);
            i += 1;
        }
        proof {
            assert(txn@.take(txn.len() as int) =~= txn@);
        }
        done
    }

    /// Tells every neighbour which operations were applied.
    pub fn broadcast_txn(&mut self, out: &mut Vec<Message<Payload>>, txn: &Vec<Operation>)
        requires
            old(self).well_formed(),
        ensures
            final(self).well_formed(),
            final(self)@ == old(self)@.next(),
            message_views(final(out)@) == message_views(old(out)@) + old(self)@.fanout(
                PayloadView::InternalTxn { txn: txn@ },
            ),
    {
        let mut messages: Vec<Message<Payload>> = Vec::new();
        let mut i: usize = 0;
        let ghost payload = PayloadView::InternalTxn { txn: txn@ };
        while i < self.neighbors.len()
            invariant
                i <= self.neighbors.len(),
                self == old(self),
                payload == (PayloadView::InternalTxn { txn: txn@ }),
                messages.len() == i,
                forall|k: int| 0 <= k < i ==> (#[trigger] messages[k])@ == self@.fanout(payload)[k],
            decreases self.neighbors.len() - i,
        {
            let message = Message::new(
                self.node_id.clone(),
                self.neighbors[i].clone(),
                Body::new(
                    Some(self.message_id),
                    None,
                    Payload::InternalTxn { txn: clone_operations(txn) },
                ),
            );
            let ghost before = messages@;
            messages.push(message);
            assert forall|k: int| 0 <= k < i + 1 implies (#[trigger] messages[k])@
                == self@.fanout(payload)[k] by {
                if k < i {
                    assert(messages[k] == before[k]);
                }
            }
            i += 1;
        }
        proof {
            assert(message_views(messages@) =~= self@.fanout(payload));
        }
        self.send_messages(out, messages);
        proof {
            assert(message_views(out@) =~= message_views(old(out)@) + old(self)@.fanout(payload));
        }
    }

    /// Handles a transaction from a client: applies it, tells every
    /// neighbour what was applied, and answers with the same.
    pub fn handle_txn(&mut self, message: &Message<Payload>, txn: &Vec<Operation>) -> (out: Vec<
        Message<Payload>,
    >)
        requires
            old(self).well_formed(),
        ensures
            final(self).well_formed(),
            (final(self)@, message_views(out@)) == old(self)@.step(
                message@.carrying(PayloadView::Txn { txn: txn@ }),
            ),
    {
        let done = self.handle_internal_txn(txn);
        let mut out: Vec<Message<Payload>> = Vec::new();
        proof {
            assert(message_views(out@) =~= Seq::<Letter>::empty());
        }
        self.broadcast_txn(&mut out, &done);
        let reply = message.reply(Some(self.message_id), Payload::TxnOk { txn: done });
        let ghost before = out@;
        self.send_message(&mut out, reply);
        proof {
            assert(message_views(out@) =~= message_views(before).push(reply@));
            assert(message_views(out@) =~= old(self)@.step(
                message@.carrying(PayloadView::Txn { txn: txn@ }),
            ).1);
            assert(self@ =~= old(self)@.step(message@.carrying(PayloadView::Txn { txn: txn@ })).0);
        }
        out
    }
}

impl Node<Payload> for TotallyAvailableTransactionsNode {
    open spec fn wf(&self) -> bool {
        self.well_formed()
    }

    open spec fn handles(
        &self,
        message: &Message<Payload>,
        post: &Self,
        result: &Result<Vec<Message<Payload>>, NodeError>,
    ) -> bool {
        &&& *result matches Ok(out)
        &&& (post@, message_views(out@)) == self@.step(message@)
    }

    fn handle_message(&mut self, message: &Message<Payload>) -> (result: Result<
        Vec<Message<Payload>>,
        NodeError,
    >) {
        let out = match &message.body.payload {
            Payload::Init { node_id, node_ids } => self.handle_init(
                message,
                node_id.as_str(),
                node_ids,
            ),
            Payload::Txn { txn } => self.handle_txn(message, txn),
            Payload::InternalTxn { txn } => {
                self.handle_internal_txn(txn);
                let out: Vec<Message<Payload>> = Vec::new();
                assert(message_views(out@) =~= Seq::<Letter>::empty());
                out
            },
            _ => {
                let out: Vec<Message<Payload>> = Vec::new();
                assert(message_views(out@) =~= Seq::<Letter>::empty());
                out
            },
        };
        Ok(out)
    }
}

} // verus!
