//! One node of the replicated log as a mathematical object, and what each
//! event makes of it.
use crate::log_entry::{EntryId, LogEntryView, LogTier};
use crate::log_model::{GossipView, StoreView};
use crate::names::others;
use crate::{next_id, MessageView, NodeError};
use vstd::prelude::*;

verus! {

/// What a message of the replicated log carries.
#[allow(inconsistent_fields)]
pub enum PayloadView {
    Init { node_id: Seq<char>, node_ids: Seq<Seq<char>> },
    InitOk,
    Send { key: Seq<char>, msg: usize },
    SendOk { offset: usize },
    Poll { offsets: Seq<EntryId> },
    PollOk { msgs: Seq<(Seq<char>, Seq<(usize, usize)>)> },
    CommitOffsets { offsets: Seq<EntryId> },
    CommitOffsetsOk,
    ListCommittedOffsets { keys: Seq<Seq<char>> },
    ListCommittedOffsetsOk { offsets: Seq<(Seq<char>, nat)> },
    InternalSend { log_entry: LogEntryView },
    InternalCommitOffsets { offsets: Seq<EntryId> },
    Gossip { seen: GossipView },
    TriggerGossip,
    TriggerAnchor,
}

/// A message of the replicated log as specifications see it.
pub type Letter = MessageView<PayloadView>;

/// What handling an event gives: the messages to send, or the reason why
/// the event could not be handled.
pub type Outcome = Result<Seq<Letter>, NodeError>;

/// The state of one node.
#[verifier::ext_equal]
pub struct NodeView {
    /// This node's id.
    pub node_id: Seq<char>,
    /// The id that the next message from this node carries.
    pub message_id: usize,
    /// Whether writes and commits are pushed to the neighbours at once.
    pub push: bool,
    /// Every node of the cluster, this one included.
    pub cluster: Set<Seq<char>>,
    /// Every other node of the cluster, in the order in which it is served.
    pub neighbors: Seq<Seq<char>>,
    /// What each neighbour is believed to hold.
    pub known: Map<Seq<char>, Set<EntryId>>,
    /// The log store.
    pub store: StoreView,
}

impl GossipView {
    /// Whether the message carries nothing.
    pub open spec fn is_empty(self) -> bool {
        self.committed.len() == 0 && self.uncommitted.len() == 0
    }
}

impl NodeView {
    /// The node after it sent something: its next message id is used up.
    pub open spec fn next(self) -> NodeView {
        NodeView { message_id: next_id(self.message_id), ..self }
    }

    /// The same node with another store.
    pub open spec fn with_store(self, store: StoreView) -> NodeView {
        NodeView { store, ..self }
    }

    /// One message with `payload` for each neighbour, in order, all under
    /// the node's current message id.
    pub open spec fn fanout(self, payload: PayloadView) -> Seq<Letter> {
        Seq::new(
            self.neighbors.len(),
            |i: int|
                MessageView {
                    src: self.node_id,
                    dest: self.neighbors[i],
                    msg_id: Some(self.message_id),
                    in_reply_to: None,
                    payload,
                },
        )
    }

    /// The node once it has learnt who it is and who else is there.
    pub open spec fn initialized(self, node_id: Seq<char>, node_ids: Seq<Seq<char>>) -> NodeView {
        let neighbors = others(node_ids, node_id);
        NodeView {
            node_id,
            cluster: neighbors.to_set().insert(node_id),
            neighbors,
            known: crate::peer_knowledge::with_neighbors(self.known, neighbors.to_set()),
            store: StoreView { src: node_id, ..self.store },
            ..self
        }
    }

    /// Handling `init`: membership is set and `init_ok` goes back, without
    /// a message id of its own.
    pub open spec fn inits(
        self,
        request: Letter,
        node_id: Seq<char>,
        node_ids: Seq<Seq<char>>,
        post: NodeView,
        out: Outcome,
    ) -> bool {
        &&& post == self.initialized(node_id, node_ids).next()
        &&& out == Ok::<Seq<Letter>, NodeError>(seq![request.reply(None, PayloadView::InitOk)])
    }

    /// The copy of an entry that is pushed to the neighbours: it names the
    /// whole cluster as having seen it.
    pub open spec fn pushed_copy(self, entry: LogEntryView) -> LogEntryView {
        LogEntryView { seen_by: self.cluster, ..entry }
    }

    /// Handling `send` with the offset service's answer. Without an offset
    /// nothing changes and the failure is reported. With one, the message
    /// is appended under it; a pushing node sends the entry to every
    /// neighbour; `send_ok` with the offset goes back.
    pub open spec fn sends(
        self,
        request: Letter,
        key: Seq<char>,
        msg: usize,
        allocated: Option<usize>,
        post: NodeView,
        out: Outcome,
    ) -> bool {
        match allocated {
            None => post == self && out == Err::<Seq<Letter>, NodeError>(
                NodeError::AllocatorUnavailable,
            ),
            Some(offset) => {
                let entry = LogEntryView {
                    msg_id: self.message_id,
                    key,
                    offset,
                    msg,
                    seen_by: set![self.store.src],
                };
                let stored = self.with_store(
                    self.store.append(key, self.message_id, offset, msg),
                );
                let pushed = if self.push {
                    stored.fanout(PayloadView::InternalSend { log_entry: stored.pushed_copy(entry) })
                } else {
                    Seq::empty()
                };
                let ready = if self.push {
                    stored.next()
                } else {
                    stored
                };
                &&& post == ready.next()
                &&& out == Ok::<Seq<Letter>, NodeError>(
                    pushed.push(
                        request.reply(Some(ready.message_id), PayloadView::SendOk { offset }),
                    ),
                )
            },
        }
    }

    /// Handling `poll`: nothing but the message id changes, and `poll_ok`
    /// goes back with one listing for each requested key that the store
    /// holds.
    pub open spec fn polls(self, request: Letter, offsets: Seq<EntryId>, post: NodeView, out: Outcome) -> bool {
        &&& post == self.next()
        &&& out matches Ok(letters)
        &&& letters.len() == 1
        &&& letters[0].payload matches PayloadView::PollOk { msgs }
        &&& self.store.is_poll_result(offsets, msgs)
        &&& letters[0] == request.reply(Some(self.message_id), letters[0].payload)
    }

    /// Handling `commit_offsets`: the offsets are committed; a pushing node
    /// tells every neighbour; `commit_offsets_ok` goes back.
    pub open spec fn commits(
        self,
        request: Letter,
        offsets: Seq<EntryId>,
        post: NodeView,
        out: Outcome,
    ) -> bool {
        let stored = self.with_store(self.store.commit(offsets));
        let pushed = if self.push {
            stored.fanout(PayloadView::InternalCommitOffsets { offsets })
        } else {
            Seq::empty()
        };
        let ready = if self.push {
            stored.next()
        } else {
            stored
        };
        &&& post == ready.next()
        &&& out == Ok::<Seq<Letter>, NodeError>(
            pushed.push(request.reply(Some(ready.message_id), PayloadView::CommitOffsetsOk)),
        )
    }

    /// Handling `list_committed_offsets`: nothing but the message id
    /// changes, and for each requested key of which the store has commits
    /// to report the number of its committed entries goes back.
    pub open spec fn lists(self, request: Letter, keys: Seq<Seq<char>>, post: NodeView, out: Outcome) -> bool {
        &&& post == self.next()
        &&& out == Ok::<Seq<Letter>, NodeError>(
            seq![
                request.reply(
                    Some(self.message_id),
                    PayloadView::ListCommittedOffsetsOk {
                        offsets: self.store.committed_counts(keys),
                    },
                ),
            ],
        )
    }

    /// The node after it took in `gossip` from `src`: the store received
    /// it, and `src` is believed to hold all it carried.
    pub open spec fn on_gossip(self, src: Seq<char>, gossip: GossipView) -> NodeView {
        NodeView {
            store: self.store.receive(gossip, self.cluster),
            known: self.known.insert(src, self.known[src].union(gossip.ids())),
            ..self
        }
    }

    /// Handling gossip from `src`. From a stranger it is an error and
    /// nothing changes; from a neighbour it is taken in. Nothing is sent.
    pub open spec fn receives(self, src: Seq<char>, gossip: GossipView, post: NodeView, out: Outcome) -> bool {
        if self.known.contains_key(src) {
            post == self.on_gossip(src, gossip) && out == Ok::<Seq<Letter>, NodeError>(Seq::empty())
        } else {
            post == self && out == Err::<Seq<Letter>, NodeError>(NodeError::UnknownNode)
        }
    }

    /// The gossip message that carries one pushed entry.
    pub open spec fn single(entry: LogEntryView) -> GossipView {
        GossipView { committed: Seq::empty(), uncommitted: seq![entry] }
    }

    /// Handling a commit that a neighbour pushed: the offsets are
    /// committed. Nothing is sent.
    pub open spec fn commits_quietly(self, offsets: Seq<EntryId>, post: NodeView, out: Outcome) -> bool {
        &&& post == self.with_store(self.store.commit(offsets))
        &&& out == Ok::<Seq<Letter>, NodeError>(Seq::empty())
    }

    /// Handling the anchor trigger: what the whole cluster has seen is
    /// anchored. Nothing is sent.
    pub open spec fn anchors(self, post: NodeView, out: Outcome) -> bool {
        &&& post == self.with_store(self.store.anchor(self.cluster))
        &&& out == Ok::<Seq<Letter>, NodeError>(Seq::empty())
    }

    /// Whether `gossip` is what the node may send to `peer` now: for each
    /// of the two tiers a batch of at most `cap` entries that `peer` is
    /// not believed to hold.
    pub open spec fn is_gossip_for(self, peer: Seq<char>, cap: nat, gossip: GossipView) -> bool {
        &&& self.store.is_delta(LogTier::Committed, self.known[peer], cap, gossip.committed)
        &&& self.store.is_delta(LogTier::Uncommitted, self.known[peer], cap, gossip.uncommitted)
    }

    /// The node after it sent `gossip` to `peer`: `peer` is believed to
    /// hold all it carried, and is recorded as having seen each entry.
    pub open spec fn after_gossip_to(self, peer: Seq<char>, gossip: GossipView) -> NodeView {
        NodeView {
            store: self.store.mark_seen(gossip.ids(), peer),
            known: self.known.insert(peer, self.known[peer].union(gossip.ids())),
            ..self
        }
    }

    /// The gossip message for `peer`.
    pub open spec fn gossip_letter(self, peer: Seq<char>, gossip: GossipView) -> Letter {
        MessageView {
            src: self.node_id,
            dest: peer,
            msg_id: Some(self.message_id),
            in_reply_to: None,
            payload: PayloadView::Gossip { seen: gossip },
        }
    }

    /// Whether serving the first `upto` neighbours in order, each with a
    /// batch of its own, takes the node to `post` and sends `out`. A
    /// neighbour with nothing pending gets no message.
    pub open spec fn gossips(self, upto: int, cap: nat, post: NodeView, out: Seq<Letter>) -> bool
        decreases upto,
    {
        if upto <= 0 {
            post == self && out.len() == 0
        } else {
            let peer = self.neighbors[upto - 1];
            exists|mid: NodeView, gossip: GossipView| #[trigger]
                mid.is_gossip_for(peer, cap, gossip) && if gossip.is_empty() {
                    post == mid && self.gossips(upto - 1, cap, mid, out)
                } else {
                    &&& post == mid.after_gossip_to(peer, gossip)
                    &&& out.len() > 0
                    &&& out.last() == mid.gossip_letter(peer, gossip)
                    &&& self.gossips(upto - 1, cap, mid, out.drop_last())
                }
        }
    }

    /// Handling the gossip trigger: every neighbour is served in order,
    /// all messages go out under the same message id, and that id is used
    /// up if anything was sent.
    pub open spec fn triggers(self, cap: nat, post: NodeView, out: Outcome) -> bool {
        &&& out matches Ok(letters)
        &&& self.gossips(
            self.neighbors.len() as int,
            cap,
            NodeView { message_id: self.message_id, ..post },
            letters,
        )
        &&& post.message_id == (if letters.len() > 0 {
            next_id(self.message_id)
        } else {
            self.message_id
        })
    }

    /// What handling one message makes of the node. `allocated` is the
    /// offset service's answer and matters for `send` only. Replies that
    /// reach a node change nothing.
    pub open spec fn handles(
        self,
        request: Letter,
        allocated: Option<usize>,
        cap: nat,
        post: NodeView,
        out: Outcome,
    ) -> bool {
        match request.payload {
            PayloadView::Init { node_id, node_ids } => self.inits(
                request,
                node_id,
                node_ids,
                post,
                out,
            ),
            PayloadView::Send { key, msg } => self.sends(request, key, msg, allocated, post, out),
            PayloadView::Poll { offsets } => self.polls(request, offsets, post, out),
            PayloadView::CommitOffsets { offsets } => self.commits(request, offsets, post, out),
            PayloadView::ListCommittedOffsets { keys } => self.lists(request, keys, post, out),
            PayloadView::InternalSend { log_entry } => self.receives(
                request.src,
                NodeView::single(log_entry),
                post,
                out,
            ),
            PayloadView::InternalCommitOffsets { offsets } => self.commits_quietly(
                offsets,
                post,
                out,
            ),
            PayloadView::Gossip { seen } => self.receives(request.src, seen, post, out),
            PayloadView::TriggerGossip => self.triggers(cap, post, out),
            PayloadView::TriggerAnchor => self.anchors(post, out),
            _ => post == self && out == Ok::<Seq<Letter>, NodeError>(Seq::empty()),
        }
    }
}

} // verus!
