//! Convergence of a cluster under gossip: once writes have stopped, an
//! exchange between every two nodes leaves every node with the same
//! entries.
//!
//! The cluster is modelled with exchanges that are not torn apart: one
//! node serves one neighbour, and the message arrives before anything
//! else happens.
use crate::kafka_model::NodeView;
use crate::log_entry::{entry_ids, EntryId, LogEntryView, LogTier};
use crate::log_laws::{
    arriving, carried, incoming_ids, lemma_merge_all_origin, lemma_merge_all_shape,
    lemma_merge_gossip_is_merge_all, merge_all, seen_among, Incoming,
};
use crate::log_model::{GossipView, StoreView};
use vstd::prelude::*;

verus! {

/// The state of every node of a cluster, by node id.
pub type ClusterView = Map<Seq<char>, NodeView>;

/// One exchange: `sender` serves `receiver` with `gossip`.
pub struct Exchange {
    pub sender: Seq<char>,
    pub receiver: Seq<char>,
    pub gossip: GossipView,
}

/// Whether node `node` of the cluster holds the entry `id`.
pub open spec fn holds(cluster: ClusterView, node: Seq<char>, id: EntryId) -> bool {
    cluster.contains_key(node) && cluster[node].store.entries.contains_key(id)
}

/// Every node knows its own id and the whole cluster.
pub open spec fn members_agree(cluster: ClusterView) -> bool {
    forall|node: Seq<char>| #[trigger]
        cluster.contains_key(node) ==> cluster[node].node_id == node && cluster[node].store.src
            == node && cluster[node].cluster == cluster.dom()
}

/// What a node believes another node to hold, that node holds.
pub open spec fn beliefs_hold(cluster: ClusterView) -> bool {
    forall|sender: Seq<char>, receiver: Seq<char>, id: EntryId|
        cluster.contains_key(sender) && cluster.contains_key(receiver) && sender != receiver
            && #[trigger] cluster[sender].known[receiver].contains(id) ==> holds(
            cluster,
            receiver,
            id,
        )
}

/// A node that an entry names as having seen it holds the entry.
pub open spec fn sightings_hold(cluster: ClusterView) -> bool {
    forall|node: Seq<char>, id: EntryId, other: Seq<char>|
        holds(cluster, node, id) && cluster.contains_key(other)
            && #[trigger] cluster[node].store.entries[id].seen_by.contains(other) ==> holds(
            cluster,
            other,
            id,
        )
}

/// Two nodes that hold the same entry hold the same content.
pub open spec fn contents_agree(cluster: ClusterView) -> bool {
    forall|first: Seq<char>, second: Seq<char>, id: EntryId|
        #[trigger] holds(cluster, first, id) && #[trigger] holds(cluster, second, id)
            ==> cluster[first].store.entries[id].msg == cluster[second].store.entries[id].msg
            && cluster[first].store.entries[id].msg_id
            == cluster[second].store.entries[id].msg_id
}

/// Every anchored entry has been seen by the whole cluster.
pub open spec fn anchors_hold(cluster: ClusterView) -> bool {
    forall|node: Seq<char>, id: EntryId|
        #[trigger] holds(cluster, node, id) && cluster[node].store.entries[id].tier
            == LogTier::Anchored ==> cluster.dom().subset_of(
            cluster[node].store.entries[id].seen_by,
        )
}

/// The cluster is at rest: no message is under way, so what nodes believe
/// and record of each other is true.
pub open spec fn coherent(cluster: ClusterView) -> bool {
    &&& members_agree(cluster)
    &&& beliefs_hold(cluster)
    &&& sightings_hold(cluster)
    &&& contents_agree(cluster)
    &&& anchors_hold(cluster)
}

/// Whether the exchange may happen now: both nodes are there and differ,
/// and the gossip is one the sender may send with batches of `cap`.
pub open spec fn allows(cluster: ClusterView, step: Exchange, cap: nat) -> bool {
    &&& cluster.contains_key(step.sender)
    &&& cluster.contains_key(step.receiver)
    &&& step.sender != step.receiver
    &&& cluster[step.sender].is_gossip_for(step.receiver, cap, step.gossip)
}

/// The cluster after the exchange. Empty gossip is not sent.
pub open spec fn exchanged(cluster: ClusterView, step: Exchange) -> ClusterView {
    if step.gossip.is_empty() {
        cluster
    } else {
        cluster.insert(
            step.sender,
            cluster[step.sender].after_gossip_to(step.receiver, step.gossip),
        ).insert(step.receiver, cluster[step.receiver].on_gossip(step.sender, step.gossip))
    }
}

/// Whether neither batch of the gossip is full, so that nothing pending
/// was left out.
pub open spec fn complete(gossip: GossipView, cap: nat) -> bool {
    gossip.committed.len() < cap && gossip.uncommitted.len() < cap
}

/// What gossip that the sender may send carries: entries that the sender
/// holds, each as the sender holds it.
proof fn lemma_gossip_content(sender: NodeView, peer: Seq<char>, cap: nat, gossip: GossipView)
    requires
        sender.is_gossip_for(peer, cap, gossip),
    ensures
        forall|i: int|
            0 <= i < carried(gossip).len() ==> sender.store.entries.contains_key(
                (#[trigger] carried(gossip)[i]).0.id(),
            ) && carried(gossip)[i].0 == sender.store.entry(carried(gossip)[i].0.id()),
        incoming_ids(carried(gossip)) == gossip.ids(),
{
    let items = carried(gossip);
    let c = arriving(gossip.committed, LogTier::Committed);
    let u = arriving(gossip.uncommitted, LogTier::Uncommitted);
    assert forall|i: int| 0 <= i < items.len() implies sender.store.entries.contains_key(
        (#[trigger] items[i]).0.id(),
    ) && items[i].0 == sender.store.entry(items[i].0.id()) by {
        if i < c.len() {
            assert(items[i] == c[i]);
            assert(c[i].0 == gossip.committed[i]);
            assert(sender.store.pending(LogTier::Committed, sender.known[peer]).contains(
                gossip.committed[i].id(),
            ));
        } else {
            assert(items[i] == u[i - c.len()]);
            assert(u[i - c.len()].0 == gossip.uncommitted[i - c.len()]);
            assert(sender.store.pending(LogTier::Uncommitted, sender.known[peer]).contains(
                gossip.uncommitted[i - c.len()].id(),
            ));
        }
    }
    assert forall|id: EntryId| incoming_ids(items).contains(id) <==> gossip.ids().contains(id) by {
        if incoming_ids(items).contains(id) {
            let i = choose|i: int| 0 <= i < items.len() && (#[trigger] items[i]).0.id() == id;
            if i < c.len() {
                assert(items[i] == c[i]);
                assert(gossip.committed[i].id() == id);
            } else {
                assert(items[i] == u[i - c.len()]);
                assert(gossip.uncommitted[i - c.len()].id() == id);
            }
        }
        if entry_ids(gossip.committed).contains(id) {
            let i = choose|i: int|
                0 <= i < gossip.committed.len() && (#[trigger] gossip.committed[i]).id() == id;
            assert(items[i] == c[i]);
            assert(items[i].0.id() == id);
        }
        if entry_ids(gossip.uncommitted).contains(id) {
            let i = choose|i: int|
                0 <= i < gossip.uncommitted.len() && (#[trigger] gossip.uncommitted[i]).id() == id;
            assert(items[i + c.len()] == u[i]);
            assert(items[i + c.len()].0.id() == id);
        }
    }
    assert(incoming_ids(items) =~= gossip.ids());
}

/// What the receiver's store holds after it took in gossip that the
/// sender might send: what it held and what was carried; every carried
/// entry with the sender's content; and every entry seen by whom the
/// receiver or the sender recorded, and by the receiver.
proof fn lemma_received(
    receiver: NodeView,
    sender: NodeView,
    cap: nat,
    gossip: GossipView,
    cluster: Set<Seq<char>>,
)
    requires
        sender.is_gossip_for(receiver.node_id, cap, gossip),
        receiver.store.src == receiver.node_id,
    ensures
        ({
            let after = receiver.store.receive(gossip, cluster);
            &&& after.src == receiver.store.src
            &&& forall|id: EntryId| #[trigger]
                after.entries.contains_key(id) <==> receiver.store.entries.contains_key(id)
                    || gossip.ids().contains(id)
            &&& forall|id: EntryId| #[trigger]
                receiver.store.entries.contains_key(id) ==> after.entries[id].msg
                    == receiver.store.entries[id].msg && after.entries[id].msg_id
                    == receiver.store.entries[id].msg_id && after.entries[id].seen_by == (if gossip.ids().contains(
                    id,
                ) {
                    receiver.store.entries[id].seen_by.union(
                        sender.store.entries[id].seen_by.insert(receiver.node_id),
                    )
                } else {
                    receiver.store.entries[id].seen_by
                })
            &&& forall|id: EntryId|
                !receiver.store.entries.contains_key(id) && #[trigger] gossip.ids().contains(id)
                    ==> after.entries[id].msg == sender.store.entries[id].msg
                    && after.entries[id].msg_id == sender.store.entries[id].msg_id
                    && after.entries[id].seen_by == sender.store.entries[id].seen_by.insert(
                    receiver.node_id,
                )
            &&& forall|id: EntryId| #[trigger]
                after.entries.contains_key(id) && after.entries[id].tier == LogTier::Anchored ==> (
                receiver.store.entries.contains_key(id) && receiver.store.entries[id].tier
                    == LogTier::Anchored) || cluster.subset_of(after.entries[id].seen_by)
            &&& forall|id: EntryId| #[trigger]
                gossip.ids().contains(id) ==> sender.store.entries.contains_key(id)
        }),
{
    let me = receiver.node_id;
    let stamped = gossip.stamped(me);
    let items = carried(stamped);
    let plain = carried(gossip);
    let merged = merge_all(receiver.store, items);
    let after = receiver.store.receive(gossip, cluster);
    lemma_merge_gossip_is_merge_all(receiver.store, stamped);
    lemma_merge_all_shape(receiver.store, items);
    lemma_gossip_content(sender, me, cap, gossip);
    assert(items.len() == plain.len());
    assert forall|i: int| 0 <= i < items.len() implies (#[trigger] items[i]).0
        == plain[i].0.stamped(me) && items[i].1 == plain[i].1 by {
        let c = gossip.committed.len();
        if i < c {
            assert(items[i] == arriving(stamped.committed, LogTier::Committed)[i]);
            assert(plain[i] == arriving(gossip.committed, LogTier::Committed)[i]);
        } else {
            assert(items[i] == arriving(stamped.uncommitted, LogTier::Uncommitted)[i - c]);
            assert(plain[i] == arriving(gossip.uncommitted, LogTier::Uncommitted)[i - c]);
        }
    }
    assert forall|id: EntryId| incoming_ids(items).contains(id) <==> gossip.ids().contains(id) by {
        if incoming_ids(items).contains(id) {
            let i = choose|i: int| 0 <= i < items.len() && (#[trigger] items[i]).0.id() == id;
            assert(plain[i].0.id() == id);
        }
        if incoming_ids(plain).contains(id) {
            let i = choose|i: int| 0 <= i < plain.len() && (#[trigger] plain[i]).0.id() == id;
            assert(items[i].0.id() == id);
        }
    }
    assert forall|id: EntryId| #[trigger] gossip.ids().contains(id) implies seen_among(items, id)
        == sender.store.entries[id].seen_by.insert(me) && sender.store.entries.contains_key(id) by {
        let k = choose|k: int| 0 <= k < plain.len() && (#[trigger] plain[k]).0.id() == id;
        assert(plain[k].0 == sender.store.entry(id));
        let target = sender.store.entries[id].seen_by.insert(me);
        assert forall|node: Seq<char>| seen_among(items, id).contains(node) implies target.contains(
            node,
        ) by {
            let i = choose|i: int|
                0 <= i < items.len() && (#[trigger] items[i]).0.id() == id
                    && items[i].0.seen_by.contains(node);
            assert(plain[i].0.id() == id);
            assert(plain[i].0 == sender.store.entry(id));
        }
        assert forall|node: Seq<char>| target.contains(node) implies seen_among(items, id).contains(
            node,
        ) by {
            assert(items[k].0.id() == id);
            assert(items[k].0.seen_by.contains(node));
        }
        assert(seen_among(items, id) =~= target);
    }
    assert forall|id: EntryId| #[trigger]
        receiver.store.entries.contains_key(id) implies after.entries[id].msg
        == receiver.store.entries[id].msg && after.entries[id].msg_id
        == receiver.store.entries[id].msg_id && after.entries[id].seen_by == (if gossip.ids().contains(
        id,
    ) {
        receiver.store.entries[id].seen_by.union(
            sender.store.entries[id].seen_by.insert(receiver.node_id),
        )
    } else {
        receiver.store.entries[id].seen_by
    }) by {
        assert(merged.entries[id] == receiver.store.entries[id].seen_also_by(
            seen_among(items, id),
        ));
        if !gossip.ids().contains(id) {
            assert(seen_among(items, id) =~= Set::<Seq<char>>::empty());
            assert(merged.entries[id].seen_by =~= receiver.store.entries[id].seen_by);
        }
    }
    assert forall|id: EntryId|
        !receiver.store.entries.contains_key(id) && #[trigger] gossip.ids().contains(
            id,
        ) implies after.entries[id].msg == sender.store.entries[id].msg && after.entries[id].msg_id
        == sender.store.entries[id].msg_id && after.entries[id].seen_by
        == sender.store.entries[id].seen_by.insert(receiver.node_id) by {
        assert(incoming_ids(items).contains(id));
        lemma_merge_all_origin(receiver.store, items, id);
        let i = choose|i: int|
            0 <= i < items.len() && (#[trigger] items[i]).0.id() == id && merged.entries[id].msg_id
                == items[i].0.msg_id && merged.entries[id].msg == items[i].0.msg
                && merged.entries[id].tier == items[i].1;
        assert(plain[i].0.id() == id);
        assert(plain[i].0 == sender.store.entry(id));
        assert(merged.entries[id].seen_by == seen_among(items, id));
    }
    assert forall|id: EntryId| #[trigger]
        after.entries.contains_key(id) && after.entries[id].tier == LogTier::Anchored implies (
    receiver.store.entries.contains_key(id) && receiver.store.entries[id].tier
        == LogTier::Anchored) || cluster.subset_of(after.entries[id].seen_by) by {
        if !merged.fully_seen(id, cluster) {
            assert(merged.entries[id].tier == LogTier::Anchored);
            if receiver.store.entries.contains_key(id) {
                assert(merged.entries[id] == receiver.store.entries[id].seen_also_by(
                    seen_among(items, id),
                ));
            } else {
                assert(incoming_ids(items).contains(id));
                lemma_merge_all_origin(receiver.store, items, id);
                let i = choose|i: int|
                    0 <= i < items.len() && (#[trigger] items[i]).0.id() == id
                        && merged.entries[id].msg_id == items[i].0.msg_id && merged.entries[id].msg
                        == items[i].0.msg && merged.entries[id].tier == items[i].1;
                let c = gossip.committed.len();
                if i < c {
                    assert(items[i] == arriving(stamped.committed, LogTier::Committed)[i]);
                } else {
                    assert(items[i] == arriving(stamped.uncommitted, LogTier::Uncommitted)[i - c]);
                }
            }
        }
    }
}

/// An exchange loses no entry anywhere, and brings the receiver nothing
/// but what the sender held.
proof fn lemma_exchange_grows(cluster: ClusterView, step: Exchange, cap: nat)
    requires
        coherent(cluster),
        allows(cluster, step, cap),
    ensures
        exchanged(cluster, step).dom() == cluster.dom(),
        forall|node: Seq<char>, id: EntryId| #[trigger]
            holds(cluster, node, id) ==> holds(exchanged(cluster, step), node, id),
        forall|node: Seq<char>, id: EntryId| #[trigger]
            holds(exchanged(cluster, step), node, id) ==> holds(cluster, node, id) || (node
                == step.receiver && holds(cluster, step.sender, id)),
        forall|id: EntryId| #[trigger]
            step.gossip.ids().contains(id) ==> holds(exchanged(cluster, step), step.receiver, id),
{
    let after = exchanged(cluster, step);
    if !step.gossip.is_empty() {
        let sender = cluster[step.sender];
        let receiver = cluster[step.receiver];
        lemma_received(receiver, sender, cap, step.gossip, cluster.dom());
        assert(after.dom() =~= cluster.dom());
        assert(after[step.receiver].store == receiver.store.receive(step.gossip, cluster.dom()));
        assert(after[step.sender].store == sender.store.mark_seen(
            step.gossip.ids(),
            step.receiver,
        ));
        assert forall|node: Seq<char>, id: EntryId| #[trigger]
            holds(cluster, node, id) implies holds(after, node, id) by {
            if node == step.receiver {
                assert(after[node].store.entries.contains_key(id));
            } else if node == step.sender {
                assert(after[node].store.entries.contains_key(id));
            } else {
                assert(after[node] == cluster[node]);
            }
        }
        assert forall|node: Seq<char>, id: EntryId| #[trigger]
            holds(after, node, id) implies holds(cluster, node, id) || (node == step.receiver
            && holds(cluster, step.sender, id)) by {
            if node == step.receiver {
                assert(receiver.store.entries.contains_key(id) || step.gossip.ids().contains(id));
            } else if node == step.sender {
                assert(sender.store.entries.contains_key(id));
            } else {
                assert(after[node] == cluster[node]);
            }
        }
        assert forall|id: EntryId| #[trigger] step.gossip.ids().contains(id) implies holds(
            after,
            step.receiver,
            id,
        ) by {
            assert(after[step.receiver].store.entries.contains_key(id));
        }
    } else {
        assert forall|id: EntryId| #[trigger] step.gossip.ids().contains(id) implies holds(
            after,
            step.receiver,
            id,
        ) by {
            if entry_ids(step.gossip.committed).contains(id) {
                let i = choose|i: int|
                    0 <= i < step.gossip.committed.len() && (
                    #[trigger] step.gossip.committed[i]).id() == id;
            }
            if entry_ids(step.gossip.uncommitted).contains(id) {
                let i = choose|i: int|
                    0 <= i < step.gossip.uncommitted.len() && (
                    #[trigger] step.gossip.uncommitted[i]).id() == id;
            }
        }
    }
}

proof fn lemma_exchange_members(cluster: ClusterView, step: Exchange, cap: nat)
    requires
        coherent(cluster),
        allows(cluster, step, cap),
    ensures
        members_agree(exchanged(cluster, step)),
{
    let after = exchanged(cluster, step);
    if !step.gossip.is_empty() {
        let sender = cluster[step.sender];
        let receiver = cluster[step.receiver];
        lemma_received(receiver, sender, cap, step.gossip, cluster.dom());
        assert(after.dom() =~= cluster.dom());
        assert forall|node: Seq<char>| #[trigger] after.contains_key(node) implies after[node].node_id
            == node && after[node].store.src == node && after[node].cluster == after.dom() by {
            assert(cluster.contains_key(node));
            if node != step.receiver && node != step.sender {
                assert(after[node] == cluster[node]);
            }
        }
    }
}

proof fn lemma_exchange_beliefs(cluster: ClusterView, step: Exchange, cap: nat)
    requires
        coherent(cluster),
        allows(cluster, step, cap),
    ensures
        beliefs_hold(exchanged(cluster, step)),
{
    let after = exchanged(cluster, step);
    lemma_exchange_grows(cluster, step, cap);
    if !step.gossip.is_empty() {
        let sender = cluster[step.sender];
        let receiver = cluster[step.receiver];
        lemma_received(receiver, sender, cap, step.gossip, cluster.dom());
        assert forall|a: Seq<char>, b: Seq<char>, id: EntryId|
            after.contains_key(a) && after.contains_key(b) && a != b
                && #[trigger] after[a].known[b].contains(id) implies holds(after, b, id) by {
            assert(cluster.contains_key(a) && cluster.contains_key(b));
            if a == step.sender {
                if b == step.receiver {
                    if sender.known[b].contains(id) {
                        assert(holds(cluster, b, id));
                    } else {
                        assert(step.gossip.ids().contains(id));
                    }
                } else {
                    assert(after[a].known[b] == sender.known[b]);
                    assert(cluster[a].known[b].contains(id));
                    assert(holds(cluster, b, id));
                }
            } else if a == step.receiver {
                if b == step.sender {
                    if receiver.known[b].contains(id) {
                        assert(holds(cluster, b, id));
                    } else {
                        assert(step.gossip.ids().contains(id));
                        assert(holds(cluster, b, id));
                    }
                } else {
                    assert(after[a].known[b] == receiver.known[b]);
                    assert(cluster[a].known[b].contains(id));
                    assert(holds(cluster, b, id));
                }
            } else {
                assert(after[a] == cluster[a]);
                assert(cluster[a].known[b].contains(id));
                assert(holds(cluster, b, id));
            }
        }
    }
}

proof fn lemma_exchange_sightings(cluster: ClusterView, step: Exchange, cap: nat)
    requires
        coherent(cluster),
        allows(cluster, step, cap),
    ensures
        sightings_hold(exchanged(cluster, step)),
{
    let after = exchanged(cluster, step);
    lemma_exchange_grows(cluster, step, cap);
    if !step.gossip.is_empty() {
        let sender = cluster[step.sender];
        let receiver = cluster[step.receiver];
        lemma_received(receiver, sender, cap, step.gossip, cluster.dom());
        assert forall|node: Seq<char>, id: EntryId, other: Seq<char>|
            holds(after, node, id) && after.contains_key(other)
                && #[trigger] after[node].store.entries[id].seen_by.contains(
                other,
            ) implies holds(after, other, id) by {
            assert(cluster.contains_key(other));
            if node == step.sender {
                assert(holds(cluster, node, id));
                if sender.store.entries[id].seen_by.contains(other) {
                    assert(cluster[node].store.entries[id].seen_by.contains(other));
                    assert(holds(cluster, other, id));
                } else {
                    assert(step.gossip.ids().contains(id) && other == step.receiver);
                }
            } else if node == step.receiver {
                if other != step.receiver {
                    if receiver.store.entries.contains_key(id)
                        && receiver.store.entries[id].seen_by.contains(other) {
                        assert(holds(cluster, node, id));
                        assert(cluster[node].store.entries[id].seen_by.contains(other));
                        assert(holds(cluster, other, id));
                    } else {
                        assert(step.gossip.ids().contains(id));
                        assert(holds(cluster, step.sender, id));
                        assert(cluster[step.sender].store.entries[id].seen_by.contains(other));
                        assert(holds(cluster, other, id));
                    }
                }
            } else {
                assert(after[node] == cluster[node]);
                assert(holds(cluster, node, id));
                assert(cluster[node].store.entries[id].seen_by.contains(other));
                assert(holds(cluster, other, id));
            }
        }
    }
}

/// The node that held in the old cluster the content that `node` holds of
/// `id` in the new one.
spec fn source_of(cluster: ClusterView, step: Exchange, node: Seq<char>, id: EntryId) -> Seq<char> {
    if node == step.receiver && !cluster[node].store.entries.contains_key(id) {
        step.sender
    } else {
        node
    }
}

proof fn lemma_exchange_contents(cluster: ClusterView, step: Exchange, cap: nat)
    requires
        coherent(cluster),
        allows(cluster, step, cap),
    ensures
        contents_agree(exchanged(cluster, step)),
{
    let after = exchanged(cluster, step);
    lemma_exchange_grows(cluster, step, cap);
    if !step.gossip.is_empty() {
        let sender = cluster[step.sender];
        let receiver = cluster[step.receiver];
        lemma_received(receiver, sender, cap, step.gossip, cluster.dom());
        assert forall|node: Seq<char>, id: EntryId| #[trigger] holds(after, node, id) implies holds(
            cluster,
            source_of(cluster, step, node, id),
            id,
        ) && after[node].store.entries[id].msg == cluster[source_of(
            cluster,
            step,
            node,
            id,
        )].store.entries[id].msg && after[node].store.entries[id].msg_id == cluster[source_of(
            cluster,
            step,
            node,
            id,
        )].store.entries[id].msg_id by {
            if node == step.receiver {
                if !receiver.store.entries.contains_key(id) {
                    assert(step.gossip.ids().contains(id));
                }
            } else if node == step.sender {
            } else {
                assert(after[node] == cluster[node]);
            }
        }
        assert forall|first: Seq<char>, second: Seq<char>, id: EntryId|
            #[trigger] holds(after, first, id) && #[trigger] holds(
                after,
                second,
                id,
            ) implies after[first].store.entries[id].msg == after[second].store.entries[id].msg
            && after[first].store.entries[id].msg_id
            == after[second].store.entries[id].msg_id by {
            let a = source_of(cluster, step, first, id);
            let b = source_of(cluster, step, second, id);
            assert(holds(cluster, a, id) && holds(cluster, b, id));
        }
    }
}

proof fn lemma_exchange_anchors(cluster: ClusterView, step: Exchange, cap: nat)
    requires
        coherent(cluster),
        allows(cluster, step, cap),
    ensures
        anchors_hold(exchanged(cluster, step)),
{
    let after = exchanged(cluster, step);
    lemma_exchange_grows(cluster, step, cap);
    if !step.gossip.is_empty() {
        let sender = cluster[step.sender];
        let receiver = cluster[step.receiver];
        lemma_received(receiver, sender, cap, step.gossip, cluster.dom());
        assert(after.dom() =~= cluster.dom());
        assert forall|node: Seq<char>, id: EntryId|
            #[trigger] holds(after, node, id) && after[node].store.entries[id].tier
                == LogTier::Anchored implies after.dom().subset_of(
            after[node].store.entries[id].seen_by,
        ) by {
            if node == step.receiver {
                let stored = after[node].store;
                assert(stored.entries.contains_key(id));
                if receiver.store.entries.contains_key(id) && receiver.store.entries[id].tier
                    == LogTier::Anchored {
                    assert(holds(cluster, node, id));
                    assert(cluster.dom().subset_of(receiver.store.entries[id].seen_by));
                }
            } else if node == step.sender {
                assert(holds(cluster, node, id));
                assert(cluster.dom().subset_of(sender.store.entries[id].seen_by));
            } else {
                assert(after[node] == cluster[node]);
                assert(holds(cluster, node, id));
            }
        }
    }
}

/// An exchange in a cluster at rest leaves the cluster at rest, loses
/// nothing, and brings in nothing that no node held. If neither batch was
/// full, the receiver afterwards holds every entry that the sender held.
pub proof fn lemma_exchange(cluster: ClusterView, step: Exchange, cap: nat)
    requires
        coherent(cluster),
        allows(cluster, step, cap),
    ensures
        coherent(exchanged(cluster, step)),
        exchanged(cluster, step).dom() == cluster.dom(),
        forall|node: Seq<char>, id: EntryId| #[trigger]
            holds(cluster, node, id) ==> holds(exchanged(cluster, step), node, id),
        forall|node: Seq<char>, id: EntryId| #[trigger]
            holds(exchanged(cluster, step), node, id) ==> holds(cluster, node, id) || holds(
                cluster,
                step.sender,
                id,
            ),
        complete(step.gossip, cap) ==> forall|id: EntryId| #[trigger]
            holds(cluster, step.sender, id) ==> holds(exchanged(cluster, step), step.receiver, id),
{
    lemma_exchange_grows(cluster, step, cap);
    lemma_exchange_members(cluster, step, cap);
    lemma_exchange_beliefs(cluster, step, cap);
    lemma_exchange_sightings(cluster, step, cap);
    lemma_exchange_contents(cluster, step, cap);
    lemma_exchange_anchors(cluster, step, cap);
    let after = exchanged(cluster, step);
    let sender = cluster[step.sender];
    if complete(step.gossip, cap) {
        assert forall|id: EntryId| #[trigger] holds(cluster, step.sender, id) implies holds(
            after,
            step.receiver,
            id,
        ) by {
            let tier = sender.store.entries[id].tier;
            if tier == LogTier::Anchored {
                assert(cluster.dom().subset_of(sender.store.entries[id].seen_by));
                assert(sender.store.entries[id].seen_by.contains(step.receiver));
                assert(holds(cluster, step.receiver, id));
            } else if sender.known[step.receiver].contains(id) {
                assert(holds(cluster, step.receiver, id));
            } else {
                assert(sender.store.pending(tier, sender.known[step.receiver]).contains(id));
                if tier == LogTier::Committed {
                    let i = choose|i: int|
                        0 <= i < step.gossip.committed.len() && (
                        #[trigger] step.gossip.committed[i]).id() == id;
                    assert(entry_ids(step.gossip.committed).contains(id));
                } else {
                    let i = choose|i: int|
                        0 <= i < step.gossip.uncommitted.len() && (
                        #[trigger] step.gossip.uncommitted[i]).id() == id;
                    assert(entry_ids(step.gossip.uncommitted).contains(id));
                }
                assert(step.gossip.ids().contains(id));
            }
        }
    }
}

/// The cluster after a list of exchanges, first to last.
pub open spec fn run(cluster: ClusterView, steps: Seq<Exchange>) -> ClusterView
    decreases steps.len(),
{
    if steps.len() == 0 {
        cluster
    } else {
        exchanged(run(cluster, steps.drop_last()), steps.last())
    }
}

/// Whether each exchange of the list may happen when its turn comes.
pub open spec fn allowed_run(cluster: ClusterView, steps: Seq<Exchange>, cap: nat) -> bool
    decreases steps.len(),
{
    steps.len() == 0 || (allowed_run(cluster, steps.drop_last(), cap) && allows(
        run(cluster, steps.drop_last()),
        steps.last(),
        cap,
    ))
}

/// Whether the list holds, for every node and every other node, an
/// exchange from the one to the other in which neither batch was full.
pub open spec fn covers(nodes: Set<Seq<char>>, steps: Seq<Exchange>, cap: nat) -> bool {
    forall|sender: Seq<char>, receiver: Seq<char>|
        #![trigger nodes.contains(sender), nodes.contains(receiver)]
        nodes.contains(sender) && nodes.contains(receiver) && sender != receiver ==> exists|k: int|
            0 <= k < steps.len() && (#[trigger] steps[k]).sender == sender && steps[k].receiver
                == receiver && complete(steps[k].gossip, cap)
}

/// A run of exchanges from a cluster at rest: every stage is at rest, and
/// what a node holds at some stage it holds at the end.
proof fn lemma_run_stage(cluster: ClusterView, steps: Seq<Exchange>, cap: nat, k: int)
    requires
        coherent(cluster),
        allowed_run(cluster, steps, cap),
        0 <= k <= steps.len(),
    ensures
        coherent(run(cluster, steps.take(k))),
        run(cluster, steps.take(k)).dom() == cluster.dom(),
        k < steps.len() ==> allows(run(cluster, steps.take(k)), steps[k], cap),
        forall|node: Seq<char>, id: EntryId| #[trigger]
            holds(run(cluster, steps.take(k)), node, id) ==> holds(run(cluster, steps), node, id),
    decreases steps.len(),
{
    if k == steps.len() {
        assert(steps.take(k) =~= steps);
        if steps.len() > 0 {
            lemma_run_stage(cluster, steps.drop_last(), cap, k - 1);
            assert(steps.drop_last().take(k - 1) =~= steps.drop_last());
            lemma_exchange(run(cluster, steps.drop_last()), steps.last(), cap);
        }
    } else {
        let head = steps.drop_last();
        assert(head.take(k) =~= steps.take(k));
        lemma_run_stage(cluster, head, cap, k);
        lemma_run_stage(cluster, head, cap, head.len() as int);
        assert(head.take(head.len() as int) =~= head);
        lemma_exchange(run(cluster, head), steps.last(), cap);
        if k == head.len() {
            assert(steps[k] == steps.last());
        } else {
            assert(steps[k] == head[k]);
        }
    }
}

/// A run of exchanges brings in nothing that no node held at the start.
proof fn lemma_run_origin(cluster: ClusterView, steps: Seq<Exchange>, cap: nat, node: Seq<char>, id: EntryId)
    requires
        coherent(cluster),
        allowed_run(cluster, steps, cap),
        holds(run(cluster, steps), node, id),
    ensures
        exists|first: Seq<char>| #[trigger] holds(cluster, first, id),
    decreases steps.len(),
{
    if steps.len() == 0 {
        assert(holds(cluster, node, id));
    } else {
        let head = steps.drop_last();
        lemma_run_stage(cluster, head, cap, head.len() as int);
        assert(head.take(head.len() as int) =~= head);
        lemma_exchange(run(cluster, head), steps.last(), cap);
        if holds(run(cluster, head), node, id) {
            lemma_run_origin(cluster, head, cap, node, id);
        } else {
            assert(holds(run(cluster, head), steps.last().sender, id));
            lemma_run_origin(cluster, head, cap, steps.last().sender, id);
        }
    }
}

/// Convergence. Take a cluster at rest in which nothing is written any
/// more, and a run of gossip exchanges that holds, for every node and
/// every other node, an exchange from the one to the other in which
/// neither batch was full. After the run every node holds the same
/// entries with the same content: for every key, the `(offset, value)`
/// pairs are the same at every node.
pub proof fn lemma_convergence(cluster: ClusterView, steps: Seq<Exchange>, cap: nat)
    requires
        coherent(cluster),
        allowed_run(cluster, steps, cap),
        covers(cluster.dom(), steps, cap),
    ensures
        run(cluster, steps).dom() == cluster.dom(),
        coherent(run(cluster, steps)),
        forall|first: Seq<char>, second: Seq<char>, id: EntryId|
            #![trigger holds(run(cluster, steps), first, id), cluster.contains_key(second)]
            holds(run(cluster, steps), first, id) && cluster.contains_key(second) ==> holds(
                run(cluster, steps),
                second,
                id,
            ),
        forall|first: Seq<char>, second: Seq<char>, key: Seq<char>|
            #![trigger run(cluster, steps)[first].store.pairs(key), run(cluster, steps)[second].store.pairs(key)]
            cluster.contains_key(first) && cluster.contains_key(second) ==> run(
                cluster,
                steps,
            )[first].store.pairs(key) == run(cluster, steps)[second].store.pairs(key),
{
    let end = run(cluster, steps);
    lemma_run_stage(cluster, steps, cap, steps.len() as int);
    assert(steps.take(steps.len() as int) =~= steps);
    assert forall|first: Seq<char>, second: Seq<char>, id: EntryId|
        #![trigger holds(end, first, id), cluster.contains_key(second)]
        holds(end, first, id) && cluster.contains_key(second) implies holds(end, second, id) by {
        lemma_run_origin(cluster, steps, cap, first, id);
        let origin = choose|origin: Seq<char>| #[trigger] holds(cluster, origin, id);
        lemma_run_stage(cluster, steps, cap, 0);
        assert(steps.take(0) =~= Seq::<Exchange>::empty());
        if origin != second {
            assert(cluster.dom().contains(origin) && cluster.dom().contains(second));
            let k = choose|k: int|
                0 <= k < steps.len() && (#[trigger] steps[k]).sender == origin && steps[k].receiver
                    == second && complete(steps[k].gossip, cap);
            lemma_run_stage(cluster, steps, cap, k);
            lemma_run_stage(cluster, steps, cap, k + 1);
            let before = run(cluster, steps.take(k));
            lemma_allowed_prefix(cluster, steps, cap, k);
            lemma_run_stage(cluster, steps.take(k), cap, 0);
            assert(steps.take(k).take(0) =~= Seq::<Exchange>::empty());
            assert(holds(before, origin, id));
            lemma_exchange(before, steps[k], cap);
            assert(steps.take(k + 1).drop_last() =~= steps.take(k));
            assert(steps.take(k + 1).last() == steps[k]);
            assert(run(cluster, steps.take(k + 1)) == exchanged(before, steps[k]));
            assert(holds(run(cluster, steps.take(k + 1)), second, id));
        }
    }
    assert forall|first: Seq<char>, second: Seq<char>, key: Seq<char>|
        #![trigger end[first].store.pairs(key), end[second].store.pairs(key)]
        cluster.contains_key(first) && cluster.contains_key(second) implies end[first].store.pairs(
        key,
    ) == end[second].store.pairs(key) by {
        let a = end[first].store.pairs(key);
        let b = end[second].store.pairs(key);
        assert forall|pair: (usize, usize)| a.contains(pair) <==> b.contains(pair) by {
            let id = (key, pair.0);
            if a.contains(pair) {
                assert(holds(end, first, id));
                assert(holds(end, second, id));
            }
            if b.contains(pair) {
                assert(holds(end, second, id));
                assert(holds(end, first, id));
            }
        }
        assert(a =~= b);
    }
}

/// The first exchanges of an allowed run are an allowed run.
proof fn lemma_allowed_prefix(cluster: ClusterView, steps: Seq<Exchange>, cap: nat, k: int)
    requires
        allowed_run(cluster, steps, cap),
        0 <= k <= steps.len(),
    ensures
        allowed_run(cluster, steps.take(k), cap),
    decreases steps.len(),
{
    if k == steps.len() {
        assert(steps.take(k) =~= steps);
    } else {
        lemma_allowed_prefix(cluster, steps.drop_last(), cap, k);
        assert(steps.drop_last().take(k) =~= steps.take(k));
    }
}

/// Whether every entry that a node of the cluster holds is in `universe`.
pub open spec fn within(cluster: ClusterView, universe: Set<EntryId>) -> bool {
    forall|node: Seq<char>, id: EntryId| #[trigger] holds(cluster, node, id) ==> universe.contains(id)
}

/// How many exchanges of the list go from `sender` to `receiver`.
pub open spec fn exchange_count(steps: Seq<Exchange>, sender: Seq<char>, receiver: Seq<char>) -> nat
    decreases steps.len(),
{
    if steps.len() == 0 {
        0
    } else {
        exchange_count(steps.drop_last(), sender, receiver) + (if steps.last().sender == sender
            && steps.last().receiver == receiver {
            1nat
        } else {
            0nat
        })
    }
}

/// How many exchanges of the list go from `sender` to `receiver` with a
/// full batch, so that something pending may have been left out.
pub open spec fn full_count(
    steps: Seq<Exchange>,
    sender: Seq<char>,
    receiver: Seq<char>,
    cap: nat,
) -> nat
    decreases steps.len(),
{
    if steps.len() == 0 {
        0
    } else {
        full_count(steps.drop_last(), sender, receiver, cap) + (if steps.last().sender == sender
            && steps.last().receiver == receiver && !complete(steps.last().gossip, cap) {
            1nat
        } else {
            0nat
        })
    }
}

/// A list of entries with distinct identities has as many identities as
/// entries.
proof fn lemma_entry_ids_len(entries: Seq<LogEntryView>)
    requires
        forall|i: int, j: int|
            0 <= i < j < entries.len() ==> (#[trigger] entries[i]).id() != (
            #[trigger] entries[j]).id(),
    ensures
        entry_ids(entries).finite(),
        entry_ids(entries).len() == entries.len(),
    decreases entries.len(),
{
    if entries.len() == 0 {
        assert(entry_ids(entries) =~= Set::<EntryId>::empty());
    } else {
        let head = entries.drop_last();
        let last = entries.last();
        assert forall|i: int, j: int| 0 <= i < j < head.len() implies (#[trigger] head[i]).id() != (
        #[trigger] head[j]).id() by {
            assert(head[i] == entries[i] && head[j] == entries[j]);
        }
        lemma_entry_ids_len(head);
        if entry_ids(head).contains(last.id()) {
            let i = choose|i: int| 0 <= i < head.len() && (#[trigger] head[i]).id() == last.id();
            assert(entries[i].id() != entries[entries.len() - 1].id());
        }
        assert forall|id: EntryId| entry_ids(entries).contains(id) <==> entry_ids(head).insert(
            last.id(),
        ).contains(id) by {
            if entry_ids(entries).contains(id) {
                let i = choose|i: int| 0 <= i < entries.len() && (#[trigger] entries[i]).id() == id;
                if i < head.len() {
                    assert(head[i].id() == id);
                }
            }
            if entry_ids(head).contains(id) {
                let i = choose|i: int| 0 <= i < head.len() && (#[trigger] head[i]).id() == id;
                assert(entries[i].id() == id);
            }
            if id == last.id() {
                assert(entries[entries.len() - 1].id() == id);
            }
        }
        assert(entry_ids(entries) =~= entry_ids(head).insert(last.id()));
    }
}

/// What a node believes another node to hold lies within what is held
/// anywhere.
proof fn lemma_known_within(
    cluster: ClusterView,
    universe: Set<EntryId>,
    sender: Seq<char>,
    receiver: Seq<char>,
)
    requires
        coherent(cluster),
        within(cluster, universe),
        universe.finite(),
        cluster.contains_key(sender),
        cluster.contains_key(receiver),
        sender != receiver,
    ensures
        cluster[sender].known[receiver].subset_of(universe),
        cluster[sender].known[receiver].finite(),
        cluster[sender].known[receiver].len() <= universe.len(),
{
    let known = cluster[sender].known[receiver];
    assert forall|id: EntryId| known.contains(id) implies universe.contains(id) by {
        assert(cluster[sender].known[receiver].contains(id));
        assert(holds(cluster, receiver, id));
    }
    vstd::set_lib::lemma_len_subset(known, universe);
}

/// An exchange takes nothing from what one node believes of another, and
/// an exchange between the two with a full batch adds at least a batch.
proof fn lemma_exchange_known(
    cluster: ClusterView,
    step: Exchange,
    cap: nat,
    universe: Set<EntryId>,
    sender: Seq<char>,
    receiver: Seq<char>,
)
    requires
        coherent(cluster),
        within(cluster, universe),
        universe.finite(),
        allows(cluster, step, cap),
        cap > 0,
        cluster.contains_key(sender),
        cluster.contains_key(receiver),
        sender != receiver,
    ensures
        cluster[sender].known[receiver].len() + (if step.sender == sender && step.receiver
            == receiver && !complete(step.gossip, cap) {
            cap
        } else {
            0
        }) <= exchanged(cluster, step)[sender].known[receiver].len(),
{
    let before = cluster[sender].known[receiver];
    let after = exchanged(cluster, step)[sender].known[receiver];
    lemma_exchange(cluster, step, cap);
    assert(within(exchanged(cluster, step), universe)) by {
        assert forall|node: Seq<char>, id: EntryId| #[trigger]
            holds(exchanged(cluster, step), node, id) implies universe.contains(id) by {
            assert(holds(cluster, node, id) || holds(cluster, step.sender, id));
        }
    }
    lemma_known_within(cluster, universe, sender, receiver);
    lemma_known_within(exchanged(cluster, step), universe, sender, receiver);
    assert(before.subset_of(after)) by {
        if !step.gossip.is_empty() {
            if step.sender == sender {
                if step.receiver != receiver {
                    assert(after == before);
                }
            } else if step.receiver == sender {
                if step.sender != receiver {
                    assert(after == before);
                }
            } else {
                assert(exchanged(cluster, step)[sender] == cluster[sender]);
            }
        }
    }
    vstd::set_lib::lemma_len_subset(before, after);
    if step.sender == sender && step.receiver == receiver && !complete(step.gossip, cap) {
        let full = if step.gossip.committed.len() >= cap {
            step.gossip.committed
        } else {
            step.gossip.uncommitted
        };
        let tier = if step.gossip.committed.len() >= cap {
            LogTier::Committed
        } else {
            LogTier::Uncommitted
        };
        assert(cluster[sender].store.is_delta(tier, before, cap, full));
        assert(full.len() == cap);
        lemma_entry_ids_len(full);
        let batch = entry_ids(full);
        assert(batch.disjoint(before)) by {
            assert forall|id: EntryId| batch.contains(id) implies !before.contains(id) by {
                let i = choose|i: int| 0 <= i < full.len() && (#[trigger] full[i]).id() == id;
                assert(cluster[sender].store.pending(tier, before).contains(full[i].id()));
            }
        }
        assert(!step.gossip.is_empty());
        assert(after == before.union(step.gossip.ids()));
        assert(batch.union(before).subset_of(after));
        vstd::set_lib::lemma_set_disjoint_lens(batch, before);
        assert(batch + before =~= batch.union(before));
        vstd::set_lib::lemma_len_subset(batch.union(before), after);
    }
}

/// In a run of exchanges from a cluster at rest, the exchanges from one
/// node to another with a full batch are few: their number times the size
/// of a batch is at most the number of entries held anywhere.
pub proof fn lemma_full_exchanges_bounded(
    cluster: ClusterView,
    steps: Seq<Exchange>,
    cap: nat,
    universe: Set<EntryId>,
    sender: Seq<char>,
    receiver: Seq<char>,
)
    requires
        coherent(cluster),
        allowed_run(cluster, steps, cap),
        cap > 0,
        universe.finite(),
        within(cluster, universe),
        cluster.contains_key(sender),
        cluster.contains_key(receiver),
        sender != receiver,
    ensures
        within(run(cluster, steps), universe),
        coherent(run(cluster, steps)),
        run(cluster, steps).dom() == cluster.dom(),
        full_count(steps, sender, receiver, cap) * cap <= run(
            cluster,
            steps,
        )[sender].known[receiver].len(),
        full_count(steps, sender, receiver, cap) * cap <= universe.len(),
    decreases steps.len(),
{
    if steps.len() == 0 {
        lemma_known_within(cluster, universe, sender, receiver);
        assert(full_count(steps, sender, receiver, cap) * cap == 0) by (nonlinear_arith)
            requires
                full_count(steps, sender, receiver, cap) == 0,
        ;
    } else {
        let head = steps.drop_last();
        let before = run(cluster, head);
        lemma_full_exchanges_bounded(cluster, head, cap, universe, sender, receiver);
        lemma_exchange(before, steps.last(), cap);
        assert(within(run(cluster, steps), universe)) by {
            assert forall|node: Seq<char>, id: EntryId| #[trigger]
                holds(run(cluster, steps), node, id) implies universe.contains(id) by {
                assert(holds(before, node, id) || holds(before, steps.last().sender, id));
            }
        }
        lemma_exchange_known(before, steps.last(), cap, universe, sender, receiver);
        lemma_known_within(run(cluster, steps), universe, sender, receiver);
        let count = full_count(head, sender, receiver, cap);
        assert((count + 1) * cap == count * cap + cap) by (nonlinear_arith);
    }
}

/// If a list holds more exchanges from one node to another than it holds
/// such exchanges with a full batch, one of them left nothing out.
proof fn lemma_some_complete(steps: Seq<Exchange>, sender: Seq<char>, receiver: Seq<char>, cap: nat)
    requires
        full_count(steps, sender, receiver, cap) < exchange_count(steps, sender, receiver),
    ensures
        exists|k: int|
            0 <= k < steps.len() && (#[trigger] steps[k]).sender == sender && steps[k].receiver
                == receiver && complete(steps[k].gossip, cap),
    decreases steps.len(),
{
    if steps.len() > 0 {
        let head = steps.drop_last();
        let last = steps.last();
        if last.sender == sender && last.receiver == receiver && complete(last.gossip, cap) {
            assert(steps[steps.len() - 1] == last);
        } else {
            lemma_some_complete(head, sender, receiver, cap);
            let k = choose|k: int|
                0 <= k < head.len() && (#[trigger] head[k]).sender == sender && head[k].receiver
                    == receiver && complete(head[k].gossip, cap);
            assert(steps[k] == head[k]);
        }
    }
}

/// Convergence in a bounded number of rounds. Take a cluster at rest in
/// which nothing is written any more and which holds no more than
/// `universe.len()` entries in all, and gossip with batches of `cap`. If
/// every node served every other node more often than that many entries
/// fill batches, then every node holds the same entries with the same
/// content: for every key, the `(offset, value)` pairs are the same at
/// every node.
pub proof fn lemma_convergence_in_rounds(
    cluster: ClusterView,
    steps: Seq<Exchange>,
    cap: nat,
    universe: Set<EntryId>,
)
    requires
        coherent(cluster),
        allowed_run(cluster, steps, cap),
        cap > 0,
        universe.finite(),
        within(cluster, universe),
        forall|sender: Seq<char>, receiver: Seq<char>|
            #![trigger cluster.dom().contains(sender), cluster.dom().contains(receiver)]
            cluster.dom().contains(sender) && cluster.dom().contains(receiver) && sender
                != receiver ==> exchange_count(steps, sender, receiver) * cap > universe.len(),
    ensures
        covers(cluster.dom(), steps, cap),
        forall|first: Seq<char>, second: Seq<char>, key: Seq<char>|
            #![trigger run(cluster, steps)[first].store.pairs(key), run(cluster, steps)[second].store.pairs(key)]
            cluster.contains_key(first) && cluster.contains_key(second) ==> run(
                cluster,
                steps,
            )[first].store.pairs(key) == run(cluster, steps)[second].store.pairs(key),
{
    assert forall|sender: Seq<char>, receiver: Seq<char>|
        #![trigger cluster.dom().contains(sender), cluster.dom().contains(receiver)]
        cluster.dom().contains(sender) && cluster.dom().contains(receiver) && sender
            != receiver implies exists|k: int|
        0 <= k < steps.len() && (#[trigger] steps[k]).sender == sender && steps[k].receiver
            == receiver && complete(steps[k].gossip, cap) by {
        lemma_full_exchanges_bounded(cluster, steps, cap, universe, sender, receiver);
        let full = full_count(steps, sender, receiver, cap);
        let all = exchange_count(steps, sender, receiver);
        assert(full < all) by (nonlinear_arith)
            requires
                full * cap <= universe.len(),
                all * cap > universe.len(),
                cap > 0,
        ;
        lemma_some_complete(steps, sender, receiver, cap);
    }
    lemma_convergence(cluster, steps, cap);
}

/// Whether every node has been told who it is and who else is there, and
/// holds nothing yet.
pub open spec fn started(cluster: ClusterView) -> bool {
    forall|node: Seq<char>| #[trigger]
        cluster.contains_key(node) ==> {
            &&& cluster[node].node_id == node
            &&& cluster[node].store.src == node
            &&& cluster[node].cluster == cluster.dom()
            &&& cluster[node].store.entries == Map::<EntryId, crate::log_model::Record>::empty()
            &&& forall|other: Seq<char>|
                cluster.contains_key(other) && other != node ==> #[trigger] cluster[node].known[other]
                    == Set::<EntryId>::empty()
        }
}

/// The cluster after `node` appended a message under a fresh offset.
pub open spec fn written(
    cluster: ClusterView,
    node: Seq<char>,
    key: Seq<char>,
    msg_id: usize,
    offset: usize,
    msg: usize,
) -> ClusterView {
    cluster.insert(
        node,
        cluster[node].with_store(cluster[node].store.append(key, msg_id, offset, msg)),
    )
}

/// A cluster that has just started is at rest.
pub proof fn lemma_started_is_coherent(cluster: ClusterView)
    requires
        started(cluster),
    ensures
        coherent(cluster),
{
    assert forall|sender: Seq<char>, receiver: Seq<char>, id: EntryId|
        cluster.contains_key(sender) && cluster.contains_key(receiver) && sender != receiver
            && #[trigger] cluster[sender].known[receiver].contains(id) implies holds(
        cluster,
        receiver,
        id,
    ) by {
        assert(cluster[sender].known[receiver] == Set::<EntryId>::empty());
    }
}

/// A write under an offset that no node holds leaves a cluster at rest at
/// rest. That the offset is fresh is what the offset service promises.
pub proof fn lemma_write_keeps_coherent(
    cluster: ClusterView,
    node: Seq<char>,
    key: Seq<char>,
    msg_id: usize,
    offset: usize,
    msg: usize,
)
    requires
        coherent(cluster),
        cluster.contains_key(node),
        forall|other: Seq<char>| !holds(cluster, other, (key, offset)),
    ensures
        coherent(written(cluster, node, key, msg_id, offset, msg)),
{
    let after = written(cluster, node, key, msg_id, offset, msg);
    let id = (key, offset);
    assert(after.dom() =~= cluster.dom());
    assert forall|other: Seq<char>, held: EntryId| #[trigger] holds(after, other, held) implies (
    held == id && other == node) || (held != id && holds(cluster, other, held)
        && after[other].store.entries[held] == cluster[other].store.entries[held]) by {
        if other != node {
            assert(after[other] == cluster[other]);
            assert(!holds(cluster, other, id));
        } else {
            assert(!holds(cluster, node, id));
        }
    }
    assert forall|other: Seq<char>, held: EntryId| #[trigger] holds(cluster, other, held) implies holds(
        after,
        other,
        held,
    ) by {
        if other != node {
            assert(after[other] == cluster[other]);
        }
    }
    assert(members_agree(after)) by {
        assert forall|other: Seq<char>| #[trigger] after.contains_key(other) implies after[other].node_id
            == other && after[other].store.src == other && after[other].cluster == after.dom() by {
            assert(cluster.contains_key(other));
            if other != node {
                assert(after[other] == cluster[other]);
            }
        }
    }
    assert(beliefs_hold(after)) by {
        assert forall|sender: Seq<char>, receiver: Seq<char>, held: EntryId|
            after.contains_key(sender) && after.contains_key(receiver) && sender != receiver
                && #[trigger] after[sender].known[receiver].contains(held) implies holds(
            after,
            receiver,
            held,
        ) by {
            assert(cluster.contains_key(sender) && cluster.contains_key(receiver));
            assert(after[sender].known == cluster[sender].known);
            assert(cluster[sender].known[receiver].contains(held));
            assert(holds(cluster, receiver, held));
        }
    }
    assert(sightings_hold(after)) by {
        assert forall|holder: Seq<char>, held: EntryId, other: Seq<char>|
            holds(after, holder, held) && after.contains_key(other)
                && #[trigger] after[holder].store.entries[held].seen_by.contains(
                other,
            ) implies holds(after, other, held) by {
            if held != id {
                assert(holds(cluster, holder, held));
                assert(cluster[holder].store.entries[held].seen_by.contains(other));
                assert(holds(cluster, other, held));
            }
        }
    }
    assert(contents_agree(after)) by {
        assert forall|first: Seq<char>, second: Seq<char>, held: EntryId|
            #[trigger] holds(after, first, held) && #[trigger] holds(
                after,
                second,
                held,
            ) implies after[first].store.entries[held].msg == after[second].store.entries[held].msg
            && after[first].store.entries[held].msg_id
            == after[second].store.entries[held].msg_id by {
            if held != id {
                assert(holds(cluster, first, held) && holds(cluster, second, held));
            }
        }
    }
    assert(anchors_hold(after)) by {
        assert forall|holder: Seq<char>, held: EntryId|
            #[trigger] holds(after, holder, held) && after[holder].store.entries[held].tier
                == LogTier::Anchored implies after.dom().subset_of(
            after[holder].store.entries[held].seen_by,
        ) by {
            if held != id {
                assert(holds(cluster, holder, held));
                assert(after[holder].store.entries[held] == cluster[holder].store.entries[held]);
                assert(cluster.dom().subset_of(cluster[holder].store.entries[held].seen_by));
            } else {
                assert(holder == node);
                assert(!holds(cluster, node, id));
                assert(after[node].store.entries[id].tier == LogTier::Uncommitted);
            }
        }
    }
}

} // verus!
