//! Laws of a node of the replicated log: whatever event it handles, its
//! log only moves forward, and receiving gossip is idempotent and
//! commutative.
use crate::kafka_model::{Letter, NodeView, Outcome, PayloadView};
use crate::log_entry::{EntryId, LogTier};
use crate::log_laws::{
    lemma_anchor_evolves, lemma_anchor_safe, lemma_commit_anchors_nothing, lemma_commit_evolves,
    lemma_evolves_transitive, lemma_mark_seen_anchors_nothing, lemma_mark_seen_evolves,
    lemma_receive_anchors_safely, lemma_receive_commutes, lemma_receive_evolves,
    lemma_receive_idempotent, lemma_anchors_safely_transitive, receipts_agree,
};
use crate::log_model::GossipView;
use vstd::prelude::*;

verus! {

/// Serving neighbours with gossip changes nothing of the node but what it
/// believes of them and who has seen its entries; the log only moves
/// forward and nothing is anchored.
pub proof fn lemma_gossips_moves_forward(
    pre: NodeView,
    upto: int,
    cap: nat,
    post: NodeView,
    out: Seq<Letter>,
    cluster: Set<Seq<char>>,
)
    requires
        pre.gossips(upto, cap, post, out),
    ensures
        post.node_id == pre.node_id,
        post.message_id == pre.message_id,
        post.push == pre.push,
        post.cluster == pre.cluster,
        post.neighbors == pre.neighbors,
        pre.store.evolves_to(post.store),
        pre.store.anchors_safely(post.store, cluster),
    decreases upto,
{
    if upto > 0 {
        let peer = pre.neighbors[upto - 1];
        let (mid, gossip) = choose|mid: NodeView, gossip: GossipView| #[trigger]
            mid.is_gossip_for(peer, cap, gossip) && if gossip.is_empty() {
                post == mid && pre.gossips(upto - 1, cap, mid, out)
            } else {
                &&& post == mid.after_gossip_to(peer, gossip)
                &&& out.len() > 0
                &&& out.last() == mid.gossip_letter(peer, gossip)
                &&& pre.gossips(upto - 1, cap, mid, out.drop_last())
            };
        if gossip.is_empty() {
            lemma_gossips_moves_forward(pre, upto - 1, cap, mid, out, cluster);
        } else {
            lemma_gossips_moves_forward(pre, upto - 1, cap, mid, out.drop_last(), cluster);
            lemma_mark_seen_evolves(mid.store, gossip.ids(), peer);
            lemma_mark_seen_anchors_nothing(mid.store, gossip.ids(), peer, cluster);
            lemma_evolves_transitive(pre.store, mid.store, post.store);
            lemma_anchors_safely_transitive(pre.store, mid.store, post.store, cluster);
        }
    }
}

/// Whatever event a node handles, no entry is lost, no `seen_by` shrinks,
/// no tier goes back, no committed offset goes down, and an entry reaches
/// the anchored tier only when the whole cluster has seen it.
pub proof fn lemma_handles_moves_forward(
    pre: NodeView,
    request: Letter,
    allocated: Option<usize>,
    cap: nat,
    post: NodeView,
    out: Outcome,
)
    requires
        pre.handles(request, allocated, cap, post, out),
    ensures
        pre.store.evolves_to(post.store),
        pre.store.anchors_safely(post.store, pre.cluster),
{
    match request.payload {
        PayloadView::CommitOffsets { offsets } => {
            lemma_commit_evolves(pre.store, offsets);
            lemma_commit_anchors_nothing(pre.store, offsets, pre.cluster);
        },
        PayloadView::InternalCommitOffsets { offsets } => {
            lemma_commit_evolves(pre.store, offsets);
            lemma_commit_anchors_nothing(pre.store, offsets, pre.cluster);
        },
        PayloadView::InternalSend { log_entry } => {
            lemma_receive_evolves(pre.store, NodeView::single(log_entry), pre.cluster);
            lemma_receive_anchors_safely(pre.store, NodeView::single(log_entry), pre.cluster);
        },
        PayloadView::Gossip { seen } => {
            lemma_receive_evolves(pre.store, seen, pre.cluster);
            lemma_receive_anchors_safely(pre.store, seen, pre.cluster);
        },
        PayloadView::TriggerGossip => {
            lemma_gossips_moves_forward(
                pre,
                pre.neighbors.len() as int,
                cap,
                NodeView { message_id: pre.message_id, ..post },
                out->Ok_0,
                pre.cluster,
            );
        },
        PayloadView::TriggerAnchor => {
            lemma_anchor_evolves(pre.store, pre.cluster);
            lemma_anchor_safe(pre.store, pre.cluster);
        },
        _ => {},
    }
}

/// Handling the same gossip from the same neighbour twice leaves the node
/// as handling it once leaves it.
pub proof fn lemma_on_gossip_idempotent(node: NodeView, src: Seq<char>, gossip: GossipView)
    ensures
        node.on_gossip(src, gossip).on_gossip(src, gossip) == node.on_gossip(src, gossip),
{
    let once = node.on_gossip(src, gossip);
    let twice = once.on_gossip(src, gossip);
    lemma_receive_idempotent(node.store, gossip, node.cluster);
    assert(once.known[src].union(gossip.ids()) =~= once.known[src]);
    assert(twice.known =~= once.known);
    assert(twice =~= once);
}

/// Handling gossip from one neighbour and then from another leaves the
/// node as handling them the other way round leaves it, if and only if
/// the two messages agree over the node's store in the sense of
/// `receipts_agree`.
pub proof fn lemma_on_gossip_commutes(
    node: NodeView,
    first_src: Seq<char>,
    first: GossipView,
    second_src: Seq<char>,
    second: GossipView,
)
    ensures
        receipts_agree(node.store, first, second, node.cluster) <==> node.on_gossip(
            first_src,
            first,
        ).on_gossip(second_src, second) == node.on_gossip(second_src, second).on_gossip(
            first_src,
            first,
        ),
{
    let left = node.on_gossip(first_src, first).on_gossip(second_src, second);
    let right = node.on_gossip(second_src, second).on_gossip(first_src, first);
    lemma_receive_commutes(node.store, first, second, node.cluster);
    if first_src == second_src {
        assert(node.known[first_src].union(first.ids()).union(second.ids())
            =~= node.known[first_src].union(second.ids()).union(first.ids()));
    }
    assert(left.known =~= right.known);
    if receipts_agree(node.store, first, second, node.cluster) {
        assert(left =~= right);
    }
}

} // verus!
