//! A node of the replicated append-only log: client writes, polls and
//! commits, dissemination by push or by periodic gossip, and anchoring of
//! what the whole cluster has seen.
use crate::kafka_model::{Letter, NodeView, Outcome, PayloadView};
use crate::log_entry::{
    count_views, entry_ids, entry_views, id_set, listing_views, pair_views, EntryId, LogEntry,
    LogEntryView, LogTier,
};
use crate::log_model::{stamp_all, GossipView, StoreView};
use crate::log_store::LogStore;
use crate::names::{
    clone_names, distinct_names, insert_name, lemma_distinct_push, lemma_name_seq_set,
    lemma_name_set_push, name_seq, name_set, others_of,
};
use crate::peer_knowledge::PeerKnowledge;
use crate::{bump, message_views, Body, Message, MessageView, NodeError};
use vstd::prelude::*;

verus! {

/// The most entries of one tier that one gossip message carries.
pub const GOSSIP_BATCH: usize = 64;

/// The offset that a count of the offset service stands for. The service
/// counts the messages of a key from one; offsets count from zero. A count
/// below one is no count at all.
pub open spec fn offset_of_count(count: isize) -> Option<usize> {
    if count >= 1 {
        Some((count - 1) as usize)
    } else {
        None
    }
}

/// Turns the answer of the offset service into an offset, if it is one.
pub fn offset_from_count(count: isize) -> (offset: Option<usize>)
    ensures
        offset == offset_of_count(count),
{
    if count >= 1 {
        Some((count - 1) as usize)
    } else {
        None
    }
}

/// What one gossip message carries.
#[derive(Debug)]
pub struct Gossip {
    pub committed: Vec<LogEntry>,
    pub uncommitted: Vec<LogEntry>,
}

impl View for Gossip {
    type V = GossipView;

    open spec fn view(&self) -> GossipView {
        GossipView {
            committed: entry_views(self.committed@),
            uncommitted: entry_views(self.uncommitted@),
        }
    }
}

/// What a message of the replicated log carries.
#[derive(Debug)]
pub enum Payload {
    Init { node_id: String, node_ids: Vec<String> },
    InitOk,
    Send { key: String, msg: usize },
    SendOk { offset: usize },
    Poll { offsets: Vec<(String, usize)> },
    PollOk { msgs: Vec<(String, Vec<(usize, usize)>)> },
    CommitOffsets { offsets: Vec<(String, usize)> },
    CommitOffsetsOk,
    ListCommittedOffsets { keys: Vec<String> },
    ListCommittedOffsetsOk { offsets: Vec<(String, usize)> },
    InternalSend { log_entry: LogEntry },
    InternalCommitOffsets { offsets: Vec<(String, usize)> },
    Gossip { seen: Gossip },
    TriggerGossip,
    TriggerAnchor,
}

impl View for Payload {
    type V = PayloadView;

    open spec fn view(&self) -> PayloadView {
        match self {
            Payload::Init { node_id, node_ids } => PayloadView::Init {
                node_id: node_id@,
                node_ids: name_seq(node_ids@),
            },
            Payload::InitOk => PayloadView::InitOk,
            Payload::Send { key, msg } => PayloadView::Send { key: key@, msg: *msg },
            Payload::SendOk { offset } => PayloadView::SendOk { offset: *offset },
            Payload::Poll { offsets } => PayloadView::Poll { offsets: pair_views(offsets@) },
            Payload::PollOk { msgs } => PayloadView::PollOk { msgs: listing_views(msgs@) },
            Payload::CommitOffsets { offsets } => PayloadView::CommitOffsets {
                offsets: pair_views(offsets@),
            },
            Payload::CommitOffsetsOk => PayloadView::CommitOffsetsOk,
            Payload::ListCommittedOffsets { keys } => PayloadView::ListCommittedOffsets {
                keys: name_seq(keys@),
            },
            Payload::ListCommittedOffsetsOk { offsets } => PayloadView::ListCommittedOffsetsOk {
                offsets: count_views(offsets@),
            },
            Payload::InternalSend { log_entry } => PayloadView::InternalSend {
                log_entry: log_entry@,
            },
            Payload::InternalCommitOffsets { offsets } => PayloadView::InternalCommitOffsets {
                offsets: pair_views(offsets@),
            },
            Payload::Gossip { seen } => PayloadView::Gossip { seen: seen@ },
            Payload::TriggerGossip => PayloadView::TriggerGossip,
            Payload::TriggerAnchor => PayloadView::TriggerAnchor,
        }
    }
}

/// What a handler returned, as specifications see it.
pub open spec fn outcome_view(result: Result<Vec<Message<Payload>>, NodeError>) -> Outcome {
    match result {
        Ok(messages) => Ok(message_views(messages@)),
        Err(error) => Err(error),
    }
}

/// A node of the replicated log.
pub struct KafkaStyleLogNode {
    node_id: String,
    message_id: usize,
    push: bool,
    cluster: Vec<String>,
    neighbors: Vec<String>,
    known: PeerKnowledge,
    log_store: LogStore,
}

impl View for KafkaStyleLogNode {
    type V = NodeView;

    closed spec fn view(&self) -> NodeView {
        NodeView {
            node_id: self.node_id@,
            message_id: self.message_id,
            push: self.push,
            cluster: name_set(self.cluster@),
            neighbors: name_seq(self.neighbors@),
            known: self.known@,
            store: self.log_store@,
        }
    }
}

/// A copy of a list of `(key, offset)` pairs.
fn clone_pairs(pairs: &Vec<(String, usize)>) -> (copy: Vec<(String, usize)>)
    ensures
        copy@ == pairs@,
{
    let mut copy: Vec<(String, usize)> = Vec::new();
    let mut i: usize = 0;
    while i < pairs.len()
        invariant
            i <= pairs.len(),
            copy@ == pairs@.take(i as int),
        decreases pairs.len() - i,
    {
        copy.push((pairs[i].0.clone(), pairs[i].1));
        assert(copy@ =~= pairs@.take(i + 1));
        i += 1;
    }
    assert(pairs@.take(pairs.len() as int) =~= pairs@);
    copy
}

/// The entries of a list, each also seen by `node`.
fn stamp_entries(entries: &Vec<LogEntry>, node: &String) -> (stamped: Vec<LogEntry>)
    ensures
        entry_views(stamped@) == stamp_all(entry_views(entries@), node@),
{
    let mut stamped: Vec<LogEntry> = Vec::new();
    let mut i: usize = 0;
    while i < entries.len()
        invariant
            i <= entries.len(),
            stamped.len() == i,
            forall|k: int| 0 <= k < i ==> (#[trigger] stamped[k])@ == entries[k]@.stamped(node@),
        decreases entries.len() - i,
    {
        let mut entry = entries[i].clone();
        insert_name(&mut entry.seen_by, node);
        let ghost before = stamped@;
        stamped.push(entry);
        assert forall|k: int| 0 <= k < i + 1 implies (#[trigger] stamped[k])@ == entries[k]@.stamped(
            node@,
        ) by {
            if k < i {
                assert(stamped[k] == before[k]);
            }
        }
        i += 1;
    }
    assert(entry_views(stamped@) =~= stamp_all(entry_views(entries@), node@));
    stamped
}

proof fn lemma_views_push(messages: Seq<Message<Payload>>, message: Message<Payload>)
    ensures
        message_views(messages.push(message)) == message_views(messages).push(message@),
{
    assert(message_views(messages.push(message)) =~= message_views(messages).push(message@));
}

impl KafkaStyleLogNode {
    /// The stores are well formed, the log store belongs to this node,
    /// neither the neighbours nor the cluster hold a name twice, and
    /// something is believed of every neighbour.
    pub closed spec fn wf(&self) -> bool {
        &&& self.log_store.wf()
        &&& self.known.wf()
        &&& self.log_store@.src == self.node_id@
        &&& distinct_names(self.neighbors@)
        &&& distinct_names(self.cluster@)
        &&& forall|i: int|
            0 <= i < self.neighbors.len() ==> self.known@.contains_key(
                (#[trigger] self.neighbors[i])@,
            )
    }

    /// A node before `init`: it has a placeholder id, no neighbours and an
    /// empty log.
    pub open spec fn fresh(push: bool) -> NodeView {
        NodeView {
            node_id: "uninit"@,
            message_id: 0,
            push,
            cluster: Set::empty(),
            neighbors: Seq::empty(),
            known: Map::empty(),
            store: StoreView::empty("uninit"@),
        }
    }

    /// A node that pushes every write and every commit to its neighbours
    /// at once.
    pub fn new() -> (node: Self)
        ensures
            node.wf(),
            node@ == Self::fresh(true),
    {
        Self::create(true)
    }

    /// A node that leaves dissemination to periodic gossip alone.
    pub fn gossiping() -> (node: Self)
        ensures
            node.wf(),
            node@ == Self::fresh(false),
    {
        Self::create(false)
    }

    fn create(push: bool) -> (node: Self)
        ensures
            node.wf(),
            node@ == Self::fresh(push),
    {
        let node_id = "uninit";
        let node = KafkaStyleLogNode {
            node_id: node_id.to_owned(),
            message_id: 0,
            push,
            cluster: Vec::new(),
            neighbors: Vec::new(),
            known: PeerKnowledge::new(),
            log_store: LogStore::new(node_id),
        };
        proof {
            assert(name_set(node.cluster@) =~= Set::<Seq<char>>::empty());
            assert(name_seq(node.neighbors@) =~= Seq::<Seq<char>>::empty());
            assert(node@ =~= Self::fresh(push));
        }
        node
    }

    /// This node's id.
    pub fn node_id(&self) -> (id: &str)
        ensures
            id@ == self@.node_id,
    {
        self.node_id.as_str()
    }

    /// The id that the next message from this node carries.
    pub fn message_id(&self) -> (id: usize)
        ensures
            id == self@.message_id,
    {
        self.message_id
    }

    /// The log store of this node.
    pub fn log_store(&self) -> (store: &LogStore)
        requires
            self.wf(),
        ensures
            store.wf(),
            store@ == self@.store,
    {
        &self.log_store
    }

    /// What this node believes of its neighbours.
    pub fn known(&self) -> (known: &PeerKnowledge)
        requires
            self.wf(),
        ensures
            known.wf(),
            known@ == self@.known,
    {
        &self.known
    }

    /// The other nodes of the cluster, in the order in which they are
    /// served.
    pub fn neighbors(&self) -> (neighbors: &Vec<String>)
        ensures
            name_seq(neighbors@) == self@.neighbors,
            self.wf() ==> distinct_names(neighbors@),
    {
        &self.neighbors
    }

    /// Every node of the cluster.
    pub fn cluster(&self) -> (cluster: &Vec<String>)
        ensures
            name_set(cluster@) == self@.cluster,
            self.wf() ==> distinct_names(cluster@),
    {
        &self.cluster
    }

    /// Handles `init`: the node learns its id and the cluster, takes up
    /// every other node as a neighbour, and answers `init_ok`.
    pub fn handle_init(&mut self, message: &Message<Payload>, node_id: &str, node_ids: &Vec<String>) -> (out:
        Vec<Message<Payload>>)
        requires
            old(self).wf(),
        ensures
            final(self).wf(),
            old(self)@.inits(
                message@,
                node_id@,
                name_seq(node_ids@),
                final(self)@,
                Ok(message_views(out@)),
            ),
    {
        let me = node_id.to_owned();
        let neighbors = others_of(node_ids, &me);
        proof {
            lemma_name_seq_set(neighbors@);
        }
        let mut cluster = clone_names(&neighbors);
        proof {
            lemma_name_set_push(cluster@, me);
            lemma_distinct_push(cluster@, me);
        }
        cluster.push(me.clone());
        self.known.extend(&neighbors);
        self.log_store.init(node_id);
        self.node_id = me;
        self.neighbors = neighbors;
        self.cluster = cluster;
        let reply = message.reply(None, Payload::InitOk);
        self.message_id = bump(self.message_id);
        let mut out: Vec<Message<Payload>> = Vec::new();
        out.push(reply);
        proof {
            assert forall|k: int| 0 <= k < self.neighbors.len() implies self.known@.contains_key(
                (#[trigger] self.neighbors[k])@,
            ) by {
                assert(name_set(self.neighbors@).contains(self.neighbors[k]@));
            }
            assert(self@ =~= old(self)@.initialized(node_id@, name_seq(node_ids@)).next());
            assert(message_views(out@) =~= seq![message@.reply(None, PayloadView::InitOk)]);
        }
        out
    }

    /// Pushes a freshly written entry to every neighbour: each gets a copy
    /// that names the whole cluster as having seen it.
    pub fn broadcast_send(&mut self, log_entry: &LogEntry) -> (out: Vec<Message<Payload>>)
        requires
            old(self).wf(),
        ensures
            final(self).wf(),
            final(self)@ == old(self)@.next(),
            message_views(out@) == old(self)@.fanout(
                PayloadView::InternalSend { log_entry: old(self)@.pushed_copy(log_entry@) },
            ),
    {
        let mut out: Vec<Message<Payload>> = Vec::new();
        let mut i: usize = 0;
        let ghost payload = PayloadView::InternalSend { log_entry: self@.pushed_copy(log_entry@) };
        while i < self.neighbors.len()
            invariant
                i <= self.neighbors.len(),
                self == old(self),
                payload == (PayloadView::InternalSend {
                    log_entry: self@.pushed_copy(log_entry@),
                }),
                out.len() == i,
                forall|k: int| 0 <= k < i ==> (#[trigger] out[k])@ == self@.fanout(payload)[k],
            decreases self.neighbors.len() - i,
        {
            let copy = LogEntry {
                msg_id: log_entry.msg_id,
                key: log_entry.key.clone(),
                offset: log_entry.offset,
                msg: log_entry.msg,
                seen_by: clone_names(&self.cluster),
            };
            let message = Message::new(
                self.node_id.clone(),
                self.neighbors[i].clone(),
                Body::new(Some(self.message_id), None, Payload::InternalSend { log_entry: copy }),
            );
            let ghost before = out@;
            out.push(message);
            assert forall|k: int| 0 <= k < i + 1 implies (#[trigger] out[k])@ == self@.fanout(
                payload,
            )[k] by {
                if k < i {
                    assert(out[k] == before[k]);
                }
            }
            i += 1;
        }
        self.message_id = bump(self.message_id);
        proof {
            assert(message_views(out@) =~= old(self)@.fanout(payload));
            assert(self@ =~= old(self)@.next());
        }
        out
    }

    /// Tells every neighbour which offsets were committed.
    pub fn broadcast_commit_offsets(&mut self, offsets: &Vec<(String, usize)>) -> (out: Vec<
        Message<Payload>,
    >)
        requires
            old(self).wf(),
        ensures
            final(self).wf(),
            final(self)@ == old(self)@.next(),
            message_views(out@) == old(self)@.fanout(
                PayloadView::InternalCommitOffsets { offsets: pair_views(offsets@) },
            ),
    {
        let mut out: Vec<Message<Payload>> = Vec::new();
        let mut i: usize = 0;
        let ghost payload = PayloadView::InternalCommitOffsets { offsets: pair_views(offsets@) };
        while i < self.neighbors.len()
            invariant
                i <= self.neighbors.len(),
                self == old(self),
                payload == (PayloadView::InternalCommitOffsets { offsets: pair_views(offsets@) }),
                out.len() == i,
                forall|k: int| 0 <= k < i ==> (#[trigger] out[k])@ == self@.fanout(payload)[k],
            decreases self.neighbors.len() - i,
        {
            let message = Message::new(
                self.node_id.clone(),
                self.neighbors[i].clone(),
                Body::new(
                    Some(self.message_id),
                    None,
                    Payload::InternalCommitOffsets { offsets: clone_pairs(offsets) },
                ),
            );
            let ghost before = out@;
            out.push(message);
            assert forall|k: int| 0 <= k < i + 1 implies (#[trigger] out[k])@ == self@.fanout(
                payload,
            )[k] by {
                if k < i {
                    assert(out[k] == before[k]);
                }
            }
            i += 1;
        }
        self.message_id = bump(self.message_id);
        proof {
            assert(message_views(out@) =~= old(self)@.fanout(payload));
            assert(self@ =~= old(self)@.next());
        }
        out
    }

    /// Handles `send` with the answer of the offset service: `allocated`
    /// is the offset it assigned, or `None` if it could not be reached.
    pub fn handle_send(
        &mut self,
        message: &Message<Payload>,
        key: &str,
        msg: usize,
        allocated: Option<usize>,
    ) -> (result: Result<Vec<Message<Payload>>, NodeError>)
        requires
            old(self).wf(),
        ensures
            final(self).wf(),
            old(self)@.sends(message@, key@, msg, allocated, final(self)@, outcome_view(result)),
    {
        let offset = match allocated {
            Some(offset) => offset,
            None => {
                return Err(NodeError::AllocatorUnavailable);
            },
        };
        let log_entry = self.log_store.append(key, self.message_id, offset, msg);
        let ghost stored = self@;
        let mut out = if self.push {
            self.broadcast_send(&log_entry)
        } else {
            Vec::new()
        };
        let reply = message.reply(Some(self.message_id), Payload::SendOk { offset });
        proof {
            lemma_views_push(out@, reply);
            assert(stored =~= old(self)@.with_store(
                old(self)@.store.append(key@, old(self)@.message_id, offset, msg),
            ));
            if !self.push {
                assert(message_views(out@) =~= Seq::<Letter>::empty());
            }
        }
        out.push(reply);
        self.message_id = bump(self.message_id);
        proof {
            let ready = if old(self)@.push {
                stored.next()
            } else {
                stored
            };
            assert(self@ =~= ready.next());
        }
        Ok(out)
    }

    /// Handles `poll`: for each requested key that the store holds, the
    /// `(offset, value)` pairs from the requested offset on.
    pub fn handle_poll(&mut self, message: &Message<Payload>, offsets: &Vec<(String, usize)>) -> (out:
        Vec<Message<Payload>>)
        requires
            old(self).wf(),
        ensures
            final(self).wf(),
            old(self)@.polls(message@, pair_views(offsets@), final(self)@, Ok(message_views(out@))),
    {
        let msgs = self.log_store.list_logs(offsets);
        let reply = message.reply(Some(self.message_id), Payload::PollOk { msgs });
        let mut out: Vec<Message<Payload>> = Vec::new();
        out.push(reply);
        self.message_id = bump(self.message_id);
        proof {
            assert(self@ =~= old(self)@.next());
            assert(message_views(out@)[0] == reply@);
        }
        out
    }

    /// Handles `commit_offsets`: commits them and, on a pushing node, tells
    /// the neighbours.
    pub fn handle_commit_offsets(
        &mut self,
        message: &Message<Payload>,
        offsets: &Vec<(String, usize)>,
    ) -> (out: Vec<Message<Payload>>)
        requires
            old(self).wf(),
        ensures
            final(self).wf(),
            old(self)@.commits(message@, pair_views(offsets@), final(self)@, Ok(message_views(out@))),
    {
        self.log_store.commit(offsets);
        proof {
            crate::log_laws::lemma_commit_keeps_owner(old(self)@.store, pair_views(offsets@));
        }
        let ghost stored = self@;
        let mut out = if self.push {
            self.broadcast_commit_offsets(offsets)
        } else {
            Vec::new()
        };
        let reply = message.reply(Some(self.message_id), Payload::CommitOffsetsOk);
        proof {
            lemma_views_push(out@, reply);
            assert(stored =~= old(self)@.with_store(old(self)@.store.commit(pair_views(offsets@))));
            if !self.push {
                assert(message_views(out@) =~= Seq::<Letter>::empty());
            }
        }
        out.push(reply);
        self.message_id = bump(self.message_id);
        proof {
            let ready = if old(self)@.push {
                stored.next()
            } else {
                stored
            };
            assert(self@ =~= ready.next());
        }
        out
    }

    /// Handles `list_committed_offsets`: for each requested key with
    /// committed entries, or with a commit that took effect here, how many
    /// of its entries are committed.
    pub fn handle_list_committed_offsets(&mut self, message: &Message<Payload>, keys: &Vec<String>) -> (out:
        Vec<Message<Payload>>)
        requires
            old(self).wf(),
        ensures
            final(self).wf(),
            old(self)@.lists(message@, name_seq(keys@), final(self)@, Ok(message_views(out@))),
    {
        let offsets = self.log_store.list_committed_offsets(keys);
        let reply = message.reply(Some(self.message_id), Payload::ListCommittedOffsetsOk { offsets });
        let mut out: Vec<Message<Payload>> = Vec::new();
        out.push(reply);
        self.message_id = bump(self.message_id);
        proof {
            assert(self@ =~= old(self)@.next());
            assert(message_views(out@) =~= seq![reply@]);
        }
        out
    }

    /// Handles a commit that a neighbour pushed.
    pub fn handle_internal_commit_offsets(&mut self, offsets: &Vec<(String, usize)>)
        requires
            old(self).wf(),
        ensures
            final(self).wf(),
            final(self)@ == old(self)@.with_store(old(self)@.store.commit(pair_views(offsets@))),
    {
        self.log_store.commit(offsets);
        proof {
            crate::log_laws::lemma_commit_keeps_owner(old(self)@.store, pair_views(offsets@));
            assert(self@ =~= old(self)@.with_store(old(self)@.store.commit(pair_views(offsets@))));
        }
    }

    /// Handles the anchor trigger: every entry that the whole cluster has
    /// seen moves to the anchored tier.
    pub fn handle_trigger_anchor(&mut self)
        requires
            old(self).wf(),
        ensures
            final(self).wf(),
            final(self)@ == old(self)@.with_store(old(self)@.store.anchor(old(self)@.cluster)),
    {
        self.log_store.anchor(&self.cluster);
        proof {
            assert(self@ =~= old(self)@.with_store(old(self)@.store.anchor(old(self)@.cluster)));
        }
    }

    /// Handles gossip from `src`: every carried entry is stamped as seen
    /// by this node and merged, `src` is believed to hold all of them, and
    /// what the whole cluster has seen is anchored. Gossip from a node
    /// that is no neighbour is an error and changes nothing.
    pub fn handle_gossip(&mut self, src: &str, seen: &Gossip) -> (result: Result<
        Vec<Message<Payload>>,
        NodeError,
    >)
        requires
            old(self).wf(),
        ensures
            final(self).wf(),
            old(self)@.receives(src@, seen@, final(self)@, outcome_view(result)),
    {
        if !self.known.has_peer(src) {
            return Err(NodeError::UnknownNode);
        }
        let committed = stamp_entries(&seen.committed, &self.node_id);
        let uncommitted = stamp_entries(&seen.uncommitted, &self.node_id);
        self.log_store.merge_incoming(&committed, LogTier::Committed);
        self.log_store.merge_incoming(&uncommitted, LogTier::Uncommitted);
        self.log_store.anchor(&self.cluster);
        let ghost known = self.known@;
        self.known.mark(src, &seen.committed);
        self.known.mark(src, &seen.uncommitted);
        let out: Vec<Message<Payload>> = Vec::new();
        proof {
            let stamped = seen@.stamped(old(self)@.store.src);
            crate::log_laws::lemma_merge_evolves(
                old(self)@.store,
                stamped.committed,
                LogTier::Committed,
            );
            crate::log_laws::lemma_merge_keeps_owner(
                old(self)@.store,
                stamped.committed,
                LogTier::Committed,
            );
            crate::log_laws::lemma_merge_keeps_owner(
                old(self)@.store.merge(stamped.committed, LogTier::Committed),
                stamped.uncommitted,
                LogTier::Uncommitted,
            );
            assert(self@.store == old(self)@.store.receive(seen@, old(self)@.cluster));
            assert(known[src@].union(entry_ids(seen@.committed)).union(
                entry_ids(seen@.uncommitted),
            ) =~= known[src@].union(seen@.ids()));
            assert(self@.known =~= known.insert(src@, known[src@].union(seen@.ids())));
            assert(self@ =~= old(self)@.on_gossip(src@, seen@));
            assert(message_views(out@) =~= Seq::<Letter>::empty());
            assert forall|i: int| 0 <= i < self.neighbors.len() implies self.known@.contains_key(
                (#[trigger] self.neighbors[i])@,
            ) by {
                assert(known.contains_key(self.neighbors[i]@));
            }
        }
        Ok(out)
    }

    /// Handles an entry that the neighbour `src` pushed; it is taken in
    /// like gossip that carries this one uncommitted entry.
    pub fn handle_internal_send(&mut self, src: &str, log_entry: &LogEntry) -> (result: Result<
        Vec<Message<Payload>>,
        NodeError,
    >)
        requires
            old(self).wf(),
        ensures
            final(self).wf(),
            old(self)@.receives(
                src@,
                NodeView::single(log_entry@),
                final(self)@,
                outcome_view(result),
            ),
    {
        let mut uncommitted: Vec<LogEntry> = Vec::new();
        uncommitted.push(log_entry.clone());
        let seen = Gossip { committed: Vec::new(), uncommitted };
        proof {
            assert(seen@.committed =~= Seq::<LogEntryView>::empty());
            assert(seen@.uncommitted =~= seq![log_entry@]);
        }
        self.handle_gossip(src, &seen)
    }
}

impl KafkaStyleLogNode {
    /// Serves the neighbour at place `i`: picks a batch for it and, unless
    /// the batch is empty, returns the gossip message and records what was
    /// sent.
    fn serve(&mut self, i: usize) -> (served: (Option<Message<Payload>>, Ghost<GossipView>))
        requires
            old(self).wf(),
            i < old(self)@.neighbors.len(),
        ensures
            final(self).wf(),
            old(self)@.is_gossip_for(old(self)@.neighbors[i as int], GOSSIP_BATCH as nat, served.1@),
            match served.0 {
                None => served.1@.is_empty() && final(self)@ == old(self)@,
                Some(message) => !served.1@.is_empty() && final(self)@ == old(self)@.after_gossip_to(
                    old(self)@.neighbors[i as int],
                    served.1@,
                ) && message@ == old(self)@.gossip_letter(old(self)@.neighbors[i as int], served.1@),
            },
    {
        let peer = self.neighbors[i].clone();
        let ghost before = self.known@;
        let (committed, uncommitted) = match self.known.known_to(peer.as_str()) {
            Some(known) => (
                self.log_store.pending(LogTier::Committed, known, GOSSIP_BATCH),
                self.log_store.pending(LogTier::Uncommitted, known, GOSSIP_BATCH),
            ),
            None => {
                proof {
                    assert(self.known@.contains_key(self.neighbors[i as int]@));
                }
                (Vec::new(), Vec::new())
            },
        };
        let ghost gossip = GossipView {
            committed: entry_views(committed@),
            uncommitted: entry_views(uncommitted@),
        };
        if committed.len() == 0 && uncommitted.len() == 0 {
            return (None, Ghost(gossip));
        }
        self.known.mark(peer.as_str(), &committed);
        self.known.mark(peer.as_str(), &uncommitted);
        self.log_store.mark_seen(&committed, &peer);
        self.log_store.mark_seen(&uncommitted, &peer);
        let message = Message::new(
            self.node_id.clone(),
            peer,
            Body::new(
                Some(self.message_id),
                None,
                Payload::Gossip { seen: Gossip { committed, uncommitted } },
            ),
        );
        proof {
            crate::log_laws::lemma_mark_seen_twice(
                old(self)@.store,
                entry_ids(gossip.committed),
                entry_ids(gossip.uncommitted),
                peer@,
            );
            assert(before[peer@].union(entry_ids(gossip.committed)).union(
                entry_ids(gossip.uncommitted),
            ) =~= before[peer@].union(gossip.ids()));
            assert(self@.known =~= before.insert(peer@, before[peer@].union(gossip.ids())));
            assert(self@ =~= old(self)@.after_gossip_to(peer@, gossip));
            assert forall|k: int| 0 <= k < self.neighbors.len() implies self.known@.contains_key(
                (#[trigger] self.neighbors[k])@,
            ) by {
                assert(before.contains_key(self.neighbors[k]@));
            }
        }
        (Some(message), Ghost(gossip))
    }

    /// Handles the gossip trigger: each neighbour, in order, gets one
    /// message with what it is not believed to hold yet, at most
    /// `GOSSIP_BATCH` entries of each tier, unless nothing is pending for
    /// it. What was sent is recorded at once, without waiting for an
    /// answer.
    pub fn handle_trigger_gossip(&mut self) -> (out: Vec<Message<Payload>>)
        requires
            old(self).wf(),
        ensures
            final(self).wf(),
            old(self)@.triggers(GOSSIP_BATCH as nat, final(self)@, Ok(message_views(out@))),
    {
        let mut out: Vec<Message<Payload>> = Vec::new();
        let mut i: usize = 0;
        proof {
            assert(message_views(out@) =~= Seq::<Letter>::empty());
        }
        while i < self.neighbors.len()
            invariant
                i <= self.neighbors.len(),
                self.wf(),
                self@.neighbors == old(self)@.neighbors,
                self.neighbors@.len() == old(self)@.neighbors.len(),
                old(self)@.gossips(i as int, GOSSIP_BATCH as nat, self@, message_views(out@)),
            decreases self.neighbors.len() - i,
        {
            let ghost mid = self@;
            let ghost sent = message_views(out@);
            let (message, Ghost(gossip)) = self.serve(i);
            match message {
                Some(message) => {
                    proof {
                        lemma_views_push(out@, message);
                    }
                    out.push(message);
                    proof {
                        assert(message_views(out@).drop_last() =~= sent);
                    }
                },
                None => {},
            }
            proof {
                let peer = old(self)@.neighbors[i as int];
                assert(mid.is_gossip_for(peer, GOSSIP_BATCH as nat, gossip));
                assert(old(self)@.gossips(
                    i as int + 1,
                    GOSSIP_BATCH as nat,
                    self@,
                    message_views(out@),
                ));
            }
            i += 1;
        }
        let ghost served = self@;
        if out.len() > 0 {
            self.message_id = bump(self.message_id);
        }
        proof {
            crate::kafka_laws::lemma_gossips_moves_forward(
                old(self)@,
                old(self)@.neighbors.len() as int,
                GOSSIP_BATCH as nat,
                served,
                message_views(out@),
                served.cluster,
            );
            assert(served =~= (NodeView { message_id: old(self)@.message_id, ..self@ }));
        }
        out
    }

    /// Handles one event: a message from a client or a neighbour, or one
    /// of the two triggers. `allocated` is the answer of the offset
    /// service and is read for `send` only. Returns the messages to send,
    /// in order. Whatever the event, no entry is lost, no `seen_by`
    /// shrinks, no tier goes back, and an entry reaches the anchored tier
    /// only when the whole cluster has seen it.
    pub fn handle_message(&mut self, message: &Message<Payload>, allocated: Option<usize>) -> (result:
        Result<Vec<Message<Payload>>, NodeError>)
        requires
            old(self).wf(),
        ensures
            final(self).wf(),
            old(self)@.handles(
                message@,
                allocated,
                GOSSIP_BATCH as nat,
                final(self)@,
                outcome_view(result),
            ),
            old(self)@.store.evolves_to(final(self)@.store),
            old(self)@.store.anchors_safely(final(self)@.store, old(self)@.cluster),
    {
        let result = match &message.body.payload {
            Payload::Init { node_id, node_ids } => Ok(
                self.handle_init(message, node_id.as_str(), node_ids),
            ),
            Payload::Send { key, msg } => self.handle_send(message, key.as_str(), *msg, allocated),
            Payload::Poll { offsets } => Ok(self.handle_poll(message, offsets)),
            Payload::CommitOffsets { offsets } => Ok(self.handle_commit_offsets(message, offsets)),
            Payload::ListCommittedOffsets { keys } => Ok(
                self.handle_list_committed_offsets(message, keys),
            ),
            Payload::InternalSend { log_entry } => self.handle_internal_send(
                message.src.as_str(),
                log_entry,
            ),
            Payload::InternalCommitOffsets { offsets } => {
                self.handle_internal_commit_offsets(offsets);
                Ok(Vec::new())
            },
            Payload::Gossip { seen } => self.handle_gossip(message.src.as_str(), seen),
            Payload::TriggerGossip => Ok(self.handle_trigger_gossip()),
            Payload::TriggerAnchor => {
                self.handle_trigger_anchor();
                Ok(Vec::new())
            },
            _ => Ok(Vec::new()),
        };
        proof {
            if result is Ok && result->Ok_0@.len() == 0 {
                assert(message_views(result->Ok_0@) =~= Seq::<Letter>::empty());
            }
            crate::kafka_laws::lemma_handles_moves_forward(
                old(self)@,
                message@,
                allocated,
                GOSSIP_BATCH as nat,
                self@,
                outcome_view(result),
            );
        }
        result
    }
}

} // verus!
