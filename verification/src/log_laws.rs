//! Laws of the log model: merging is idempotent and commutative, what is
//! recorded only moves forward, commits never go back, and entries are
//! anchored only once the whole cluster has seen them.
use crate::log_entry::{entry_ids, EntryId, LogEntryView, LogTier};
use crate::log_model::{stamp_all, GossipView, Record, StoreView};
use vstd::prelude::*;

verus! {

/// An incoming entry with the tier it arrives in.
pub type Incoming = (LogEntryView, LogTier);

/// Every entry of the list, arriving in `tier`.
pub open spec fn arriving(entries: Seq<LogEntryView>, tier: LogTier) -> Seq<Incoming> {
    Seq::new(entries.len(), |i: int| (entries[i], tier))
}

/// What a gossip message carries, in the order in which it is merged.
pub open spec fn carried(gossip: GossipView) -> Seq<Incoming> {
    arriving(gossip.committed, LogTier::Committed) + arriving(
        gossip.uncommitted,
        LogTier::Uncommitted,
    )
}

/// The identities among incoming entries.
pub open spec fn incoming_ids(items: Seq<Incoming>) -> Set<EntryId> {
    Set::new(|id: EntryId| exists|i: int| 0 <= i < items.len() && (#[trigger] items[i]).0.id() == id)
}

/// Every node that some incoming entry with identity `id` names as having
/// seen it.
pub open spec fn seen_among(items: Seq<Incoming>, id: EntryId) -> Set<Seq<char>> {
    Set::new(
        |node: Seq<char>|
            exists|i: int|
                0 <= i < items.len() && (#[trigger] items[i]).0.id() == id
                    && items[i].0.seen_by.contains(node),
    )
}

/// Merging incoming entries, each into its own tier, first to last.
pub open spec fn merge_all(store: StoreView, items: Seq<Incoming>) -> StoreView
    decreases items.len(),
{
    if items.len() == 0 {
        store
    } else {
        merge_all(store, items.drop_last()).merge_one(items.last().0, items.last().1)
    }
}

/// Two batches agree over a store when every entry that is new to the
/// store and that both bring gets the same content and the same tier from
/// either batch alone.
pub open spec fn batches_agree(store: StoreView, first: Seq<Incoming>, second: Seq<Incoming>) -> bool {
    forall|id: EntryId|
        !store.entries.contains_key(id) && #[trigger] incoming_ids(first).contains(id)
            && incoming_ids(second).contains(id) ==> {
            let a = merge_all(store, first).entries[id];
            let b = merge_all(store, second).entries[id];
            a.msg_id == b.msg_id && a.msg == b.msg && a.tier == b.tier
        }
}

proof fn lemma_incoming_step(items: Seq<Incoming>, id: EntryId)
    requires
        items.len() > 0,
    ensures
        incoming_ids(items).contains(id) <==> incoming_ids(items.drop_last()).contains(id)
            || items.last().0.id() == id,
        seen_among(items, id) == seen_among(items.drop_last(), id).union(
            if items.last().0.id() == id {
                items.last().0.seen_by
            } else {
                Set::empty()
            },
        ),
{
    let head = items.drop_last();
    let last = items.last();
    if incoming_ids(items).contains(id) {
        let i = choose|i: int| 0 <= i < items.len() && (#[trigger] items[i]).0.id() == id;
        if i < head.len() {
            assert(head[i] == items[i]);
        }
    }
    if incoming_ids(head).contains(id) {
        let i = choose|i: int| 0 <= i < head.len() && (#[trigger] head[i]).0.id() == id;
        assert(items[i] == head[i]);
    }
    if last.0.id() == id {
        assert(items[items.len() - 1] == last);
    }
    let a = seen_among(items, id);
    let b = seen_among(head, id).union(
        if last.0.id() == id {
            last.0.seen_by
        } else {
            Set::empty()
        },
    );
    assert forall|node: Seq<char>| a.contains(node) implies b.contains(node) by {
        let i = choose|i: int|
            0 <= i < items.len() && (#[trigger] items[i]).0.id() == id && items[i].0.seen_by.contains(
                node,
            );
        if i < head.len() {
            assert(head[i] == items[i]);
        }
    }
    assert forall|node: Seq<char>| b.contains(node) implies a.contains(node) by {
        if seen_among(head, id).contains(node) {
            let i = choose|i: int|
                0 <= i < head.len() && (#[trigger] head[i]).0.id() == id
                    && head[i].0.seen_by.contains(node);
            assert(items[i] == head[i]);
        } else {
            assert(items[items.len() - 1] == last);
        }
    }
    assert(a =~= b);
}

/// What merging leaves of the store: its owner and committed offsets are
/// kept, it holds what it held and what came in, and an entry it held
/// gains exactly the nodes that the incoming occurrences name.
pub proof fn lemma_merge_all_shape(store: StoreView, items: Seq<Incoming>)
    ensures
        merge_all(store, items).src == store.src,
        merge_all(store, items).committed == store.committed,
        forall|id: EntryId| #[trigger]
            merge_all(store, items).entries.contains_key(id) <==> store.entries.contains_key(id)
                || incoming_ids(items).contains(id),
        forall|id: EntryId| #[trigger]
            store.entries.contains_key(id) ==> merge_all(store, items).entries[id]
                == store.entries[id].seen_also_by(seen_among(items, id)),
        forall|id: EntryId|
            !store.entries.contains_key(id) && #[trigger] incoming_ids(items).contains(id)
                ==> merge_all(store, items).entries[id].seen_by == seen_among(items, id),
    decreases items.len(),
{
    let merged = merge_all(store, items);
    if items.len() == 0 {
        assert forall|id: EntryId| #[trigger] store.entries.contains_key(id) implies merged.entries[id]
            == store.entries[id].seen_also_by(seen_among(items, id)) by {
            assert(store.entries[id].seen_by.union(seen_among(items, id))
                =~= store.entries[id].seen_by);
        }
    } else {
        let head = items.drop_last();
        let last = items.last();
        let before = merge_all(store, head);
        lemma_merge_all_shape(store, head);
        assert forall|id: EntryId| #[trigger]
            merged.entries.contains_key(id) <==> store.entries.contains_key(id) || incoming_ids(
                items,
            ).contains(id) by {
            lemma_incoming_step(items, id);
            assert(before.entries.contains_key(id) <==> store.entries.contains_key(id)
                || incoming_ids(head).contains(id));
        }
        assert forall|id: EntryId| #[trigger] store.entries.contains_key(id) implies merged.entries[id]
            == store.entries[id].seen_also_by(seen_among(items, id)) by {
            lemma_incoming_step(items, id);
            assert(before.entries.contains_key(id));
            assert(merged.entries[id].seen_by =~= store.entries[id].seen_by.union(
                seen_among(items, id),
            ));
        }
        assert forall|id: EntryId|
            !store.entries.contains_key(id) && #[trigger] incoming_ids(items).contains(
                id,
            ) implies merged.entries[id].seen_by == seen_among(items, id) by {
            lemma_incoming_step(items, id);
            assert(before.entries.contains_key(id) <==> store.entries.contains_key(id)
                || incoming_ids(head).contains(id));
            if incoming_ids(head).contains(id) {
                assert(before.entries[id].seen_by == seen_among(head, id));
            } else {
                assert(seen_among(head, id) =~= Set::<Seq<char>>::empty());
            }
            assert(merged.entries[id].seen_by =~= seen_among(items, id));
        }
    }
}

/// What merging records of an entry that is new to the store does not
/// depend on what else the store holds.
pub proof fn lemma_merge_all_fresh(
    first: StoreView,
    second: StoreView,
    items: Seq<Incoming>,
    id: EntryId,
)
    requires
        !first.entries.contains_key(id),
        !second.entries.contains_key(id),
    ensures
        merge_all(first, items).entries.contains_key(id) == merge_all(
            second,
            items,
        ).entries.contains_key(id),
        merge_all(first, items).entries.contains_key(id) ==> merge_all(first, items).entries[id]
            == merge_all(second, items).entries[id],
    decreases items.len(),
{
    if items.len() > 0 {
        lemma_merge_all_fresh(first, second, items.drop_last(), id);
    }
}

/// Merging one batch after another is merging both in one go.
pub proof fn lemma_merge_all_concat(store: StoreView, first: Seq<Incoming>, second: Seq<Incoming>)
    ensures
        merge_all(store, first + second) == merge_all(merge_all(store, first), second),
    decreases second.len(),
{
    if second.len() == 0 {
        assert(first + second =~= first);
    } else {
        lemma_merge_all_concat(store, first, second.drop_last());
        assert((first + second).drop_last() =~= first + second.drop_last());
        assert((first + second).last() == second.last());
    }
}

/// Merging the same batch twice leaves what merging it once leaves.
pub proof fn lemma_merge_all_idempotent(store: StoreView, items: Seq<Incoming>)
    ensures
        merge_all(merge_all(store, items), items) == merge_all(store, items),
{
    let once = merge_all(store, items);
    let twice = merge_all(once, items);
    lemma_merge_all_shape(store, items);
    lemma_merge_all_shape(once, items);
    assert forall|id: EntryId| #[trigger] once.entries.contains_key(id) implies twice.entries[id]
        =~= once.entries[id] by {
        if !store.entries.contains_key(id) {
            assert(incoming_ids(items).contains(id));
        }
        assert(twice.entries[id] == once.entries[id].seen_also_by(seen_among(items, id)));
        assert(once.entries[id].seen_by.union(seen_among(items, id)) =~= once.entries[id].seen_by);
    }
    assert(twice.entries =~= once.entries);
    assert(twice =~= once);
}

/// Two batches that agree over the store can be merged in either order.
pub proof fn lemma_merge_all_commutes(store: StoreView, first: Seq<Incoming>, second: Seq<Incoming>)
    requires
        batches_agree(store, first, second),
    ensures
        merge_all(merge_all(store, first), second) == merge_all(merge_all(store, second), first),
{
    let a = merge_all(store, first);
    let b = merge_all(store, second);
    let ab = merge_all(a, second);
    let ba = merge_all(b, first);
    lemma_merge_all_shape(store, first);
    lemma_merge_all_shape(store, second);
    lemma_merge_all_shape(a, second);
    lemma_merge_all_shape(b, first);
    assert forall|id: EntryId| ab.entries.contains_key(id) <==> ba.entries.contains_key(id) by {
        assert(ab.entries.contains_key(id) <==> a.entries.contains_key(id) || incoming_ids(
            second,
        ).contains(id));
        assert(ba.entries.contains_key(id) <==> b.entries.contains_key(id) || incoming_ids(
            first,
        ).contains(id));
        assert(a.entries.contains_key(id) <==> store.entries.contains_key(id) || incoming_ids(
            first,
        ).contains(id));
        assert(b.entries.contains_key(id) <==> store.entries.contains_key(id) || incoming_ids(
            second,
        ).contains(id));
    }
    assert forall|id: EntryId| ab.entries.contains_key(id) implies ab.entries[id]
        =~= ba.entries[id] by {
        assert(a.entries.contains_key(id) <==> store.entries.contains_key(id) || incoming_ids(
            first,
        ).contains(id));
        assert(b.entries.contains_key(id) <==> store.entries.contains_key(id) || incoming_ids(
            second,
        ).contains(id));
        assert(ab.entries.contains_key(id) <==> a.entries.contains_key(id) || incoming_ids(
            second,
        ).contains(id));
        if store.entries.contains_key(id) {
            assert(a.entries[id] == store.entries[id].seen_also_by(seen_among(first, id)));
            assert(b.entries[id] == store.entries[id].seen_also_by(seen_among(second, id)));
            assert(ab.entries[id] == a.entries[id].seen_also_by(seen_among(second, id)));
            assert(ba.entries[id] == b.entries[id].seen_also_by(seen_among(first, id)));
            assert(ab.entries[id].seen_by =~= ba.entries[id].seen_by);
        } else if incoming_ids(first).contains(id) && incoming_ids(second).contains(id) {
            assert(ab.entries[id] == a.entries[id].seen_also_by(seen_among(second, id)));
            assert(ba.entries[id] == b.entries[id].seen_also_by(seen_among(first, id)));
            assert(a.entries[id].seen_by == seen_among(first, id));
            assert(b.entries[id].seen_by == seen_among(second, id));
            assert(ab.entries[id].seen_by =~= ba.entries[id].seen_by);
        } else if incoming_ids(first).contains(id) {
            assert(!b.entries.contains_key(id));
            lemma_merge_all_fresh(store, b, first, id);
            assert(ab.entries[id] == a.entries[id].seen_also_by(seen_among(second, id)));
            assert(seen_among(second, id) =~= Set::<Seq<char>>::empty());
            assert(ab.entries[id].seen_by =~= a.entries[id].seen_by);
        } else {
            assert(incoming_ids(second).contains(id));
            assert(!a.entries.contains_key(id));
            lemma_merge_all_fresh(store, a, second, id);
            assert(ba.entries[id] == b.entries[id].seen_also_by(seen_among(first, id)));
            assert(seen_among(first, id) =~= Set::<Seq<char>>::empty());
            assert(ba.entries[id].seen_by =~= b.entries[id].seen_by);
        }
    }
    assert(ab.entries =~= ba.entries);
    assert(ab =~= ba);
}

/// Two batches that can be merged in either order agree over the store.
pub proof fn lemma_merge_all_commutes_only_if(
    store: StoreView,
    first: Seq<Incoming>,
    second: Seq<Incoming>,
)
    requires
        merge_all(merge_all(store, first), second) == merge_all(merge_all(store, second), first),
    ensures
        batches_agree(store, first, second),
{
    let a = merge_all(store, first);
    let b = merge_all(store, second);
    lemma_merge_all_shape(store, first);
    lemma_merge_all_shape(store, second);
    lemma_merge_all_shape(a, second);
    lemma_merge_all_shape(b, first);
    assert forall|id: EntryId|
        !store.entries.contains_key(id) && #[trigger] incoming_ids(first).contains(id)
            && incoming_ids(second).contains(id) implies {
        let ra = merge_all(store, first).entries[id];
        let rb = merge_all(store, second).entries[id];
        ra.msg_id == rb.msg_id && ra.msg == rb.msg && ra.tier == rb.tier
    } by {
        assert(a.entries.contains_key(id));
        assert(b.entries.contains_key(id));
        assert(merge_all(a, second).entries[id] == a.entries[id].seen_also_by(
            seen_among(second, id),
        ));
        assert(merge_all(b, first).entries[id] == b.entries[id].seen_also_by(
            seen_among(first, id),
        ));
    }
}

/// Merging a list into one tier is merging each of its entries as
/// arriving in that tier.
pub proof fn lemma_merge_is_merge_all(store: StoreView, entries: Seq<LogEntryView>, tier: LogTier)
    ensures
        store.merge(entries, tier) == merge_all(store, arriving(entries, tier)),
    decreases entries.len(),
{
    if entries.len() > 0 {
        lemma_merge_is_merge_all(store, entries.drop_last(), tier);
        assert(arriving(entries, tier).drop_last() =~= arriving(entries.drop_last(), tier));
    }
}

/// Merging a gossip message is merging what it carries.
pub proof fn lemma_merge_gossip_is_merge_all(store: StoreView, gossip: GossipView)
    ensures
        store.merge_gossip(gossip) == merge_all(store, carried(gossip)),
{
    lemma_merge_is_merge_all(store, gossip.committed, LogTier::Committed);
    lemma_merge_is_merge_all(
        store.merge(gossip.committed, LogTier::Committed),
        gossip.uncommitted,
        LogTier::Uncommitted,
    );
    lemma_merge_all_concat(
        store,
        arriving(gossip.committed, LogTier::Committed),
        arriving(gossip.uncommitted, LogTier::Uncommitted),
    );
}

/// Merging the same entries into the same tier twice leaves what merging
/// them once leaves.
pub proof fn lemma_merge_idempotent(store: StoreView, entries: Seq<LogEntryView>, tier: LogTier)
    ensures
        store.merge(entries, tier).merge(entries, tier) == store.merge(entries, tier),
{
    lemma_merge_is_merge_all(store, entries, tier);
    lemma_merge_is_merge_all(store.merge(entries, tier), entries, tier);
    lemma_merge_all_idempotent(store, arriving(entries, tier));
}

/// Merging the same gossip message twice leaves what merging it once
/// leaves.
pub proof fn lemma_merge_gossip_idempotent(store: StoreView, gossip: GossipView)
    ensures
        store.merge_gossip(gossip).merge_gossip(gossip) == store.merge_gossip(gossip),
{
    lemma_merge_gossip_is_merge_all(store, gossip);
    lemma_merge_gossip_is_merge_all(store.merge_gossip(gossip), gossip);
    lemma_merge_all_idempotent(store, carried(gossip));
}

/// Two gossip messages agree over a store when every entry that is new to
/// the store and that both carry gets the same content and the same tier
/// from either message alone.
pub open spec fn gossips_agree(store: StoreView, first: GossipView, second: GossipView) -> bool {
    batches_agree(store, carried(first), carried(second))
}

/// Gossip from two neighbours can be merged in either order, if and only
/// if the two messages agree over the store.
pub proof fn lemma_merge_gossip_commutes(store: StoreView, first: GossipView, second: GossipView)
    ensures
        gossips_agree(store, first, second) <==> store.merge_gossip(first).merge_gossip(second)
            == store.merge_gossip(second).merge_gossip(first),
{
    lemma_merge_gossip_is_merge_all(store, first);
    lemma_merge_gossip_is_merge_all(store, second);
    lemma_merge_gossip_is_merge_all(store.merge_gossip(first), second);
    lemma_merge_gossip_is_merge_all(store.merge_gossip(second), first);
    if gossips_agree(store, first, second) {
        lemma_merge_all_commutes(store, carried(first), carried(second));
    }
    if store.merge_gossip(first).merge_gossip(second) == store.merge_gossip(second).merge_gossip(
        first,
    ) {
        lemma_merge_all_commutes_only_if(store, carried(first), carried(second));
    }
}

/// Anchoring before a merge adds nothing to anchoring after it.
pub proof fn lemma_anchor_absorbed(store: StoreView, items: Seq<Incoming>, cluster: Set<Seq<char>>)
    ensures
        merge_all(store.anchor(cluster), items).anchor(cluster) == merge_all(store, items).anchor(
            cluster,
        ),
{
    let early = store.anchor(cluster);
    let a = merge_all(early, items).anchor(cluster);
    let b = merge_all(store, items).anchor(cluster);
    lemma_merge_all_shape(early, items);
    lemma_merge_all_shape(store, items);
    assert forall|id: EntryId| a.entries.contains_key(id) <==> b.entries.contains_key(id) by {
        assert(merge_all(early, items).entries.contains_key(id) <==> early.entries.contains_key(id)
            || incoming_ids(items).contains(id));
        assert(merge_all(store, items).entries.contains_key(id) <==> store.entries.contains_key(id)
            || incoming_ids(items).contains(id));
    }
    assert forall|id: EntryId| a.entries.contains_key(id) implies a.entries[id]
        =~= b.entries[id] by {
        assert(merge_all(early, items).entries.contains_key(id) <==> early.entries.contains_key(id)
            || incoming_ids(items).contains(id));
        if store.entries.contains_key(id) {
            assert(early.entries.contains_key(id));
            assert(merge_all(early, items).entries[id] == early.entries[id].seen_also_by(
                seen_among(items, id),
            ));
            assert(merge_all(store, items).entries[id] == store.entries[id].seen_also_by(
                seen_among(items, id),
            ));
        } else {
            lemma_merge_all_fresh(early, store, items, id);
        }
    }
    assert(a.entries =~= b.entries);
    assert(a =~= b);
}

/// Anchoring twice leaves what anchoring once leaves.
pub proof fn lemma_anchor_idempotent(store: StoreView, cluster: Set<Seq<char>>)
    ensures
        store.anchor(cluster).anchor(cluster) == store.anchor(cluster),
{
    assert(store.anchor(cluster).anchor(cluster).entries =~= store.anchor(cluster).entries);
    assert(store.anchor(cluster).anchor(cluster) =~= store.anchor(cluster));
}

/// Applying the same gossip message to a store twice leaves the state
/// that applying it once leaves.
pub proof fn lemma_receive_idempotent(store: StoreView, gossip: GossipView, cluster: Set<Seq<char>>)
    ensures
        store.receive(gossip, cluster).receive(gossip, cluster) == store.receive(gossip, cluster),
{
    let stamped = gossip.stamped(store.src);
    let merged = store.merge_gossip(stamped);
    lemma_merge_gossip_is_merge_all(store, stamped);
    lemma_merge_all_shape(store, carried(stamped));
    assert(store.receive(gossip, cluster).src == store.src);
    lemma_merge_gossip_is_merge_all(merged.anchor(cluster), stamped);
    lemma_anchor_absorbed(merged, carried(stamped), cluster);
    lemma_merge_all_idempotent(store, carried(stamped));
}

/// Two gossip messages can be received in either order by a store in a
/// cluster when every entry that is new to the store and that both carry
/// gets the same content from either message alone, and the same tier
/// unless the two messages together show that the whole cluster has seen
/// it.
pub open spec fn receipts_agree(
    store: StoreView,
    first: GossipView,
    second: GossipView,
    cluster: Set<Seq<char>>,
) -> bool {
    let a = store.merge_gossip(first.stamped(store.src));
    let b = store.merge_gossip(second.stamped(store.src));
    forall|id: EntryId|
        !store.entries.contains_key(id) && #[trigger] a.entries.contains_key(id)
            && b.entries.contains_key(id) ==> a.entries[id].msg_id == b.entries[id].msg_id
            && a.entries[id].msg == b.entries[id].msg && (a.entries[id].tier == b.entries[id].tier
            || cluster.subset_of(a.entries[id].seen_by.union(b.entries[id].seen_by)))
}

/// Receiving gossip from one neighbour and then from another leaves the
/// same state as receiving them the other way round, if and only if the
/// two messages agree in the sense of `receipts_agree`.
pub proof fn lemma_receive_commutes(
    store: StoreView,
    first: GossipView,
    second: GossipView,
    cluster: Set<Seq<char>>,
)
    ensures
        receipts_agree(store, first, second, cluster) <==> store.receive(first, cluster).receive(
            second,
            cluster,
        ) == store.receive(second, cluster).receive(first, cluster),
{
    let x = carried(first.stamped(store.src));
    let y = carried(second.stamped(store.src));
    let a = merge_all(store, x);
    let b = merge_all(store, y);
    let ab = merge_all(a, y);
    let ba = merge_all(b, x);
    lemma_merge_gossip_is_merge_all(store, first.stamped(store.src));
    lemma_merge_gossip_is_merge_all(store, second.stamped(store.src));
    lemma_merge_all_shape(store, x);
    lemma_merge_all_shape(store, y);
    lemma_merge_all_shape(a, y);
    lemma_merge_all_shape(b, x);
    lemma_merge_gossip_is_merge_all(a.anchor(cluster), second.stamped(store.src));
    lemma_merge_gossip_is_merge_all(b.anchor(cluster), first.stamped(store.src));
    lemma_anchor_absorbed(a, y, cluster);
    lemma_anchor_absorbed(b, x, cluster);
    let left = store.receive(first, cluster).receive(second, cluster);
    let right = store.receive(second, cluster).receive(first, cluster);
    assert(left == ab.anchor(cluster));
    assert(right == ba.anchor(cluster));
    assert forall|id: EntryId| ab.entries.contains_key(id) <==> ba.entries.contains_key(id) by {
        assert(ab.entries.contains_key(id) <==> a.entries.contains_key(id) || incoming_ids(
            y,
        ).contains(id));
        assert(ba.entries.contains_key(id) <==> b.entries.contains_key(id) || incoming_ids(
            x,
        ).contains(id));
        assert(a.entries.contains_key(id) <==> store.entries.contains_key(id) || incoming_ids(
            x,
        ).contains(id));
        assert(b.entries.contains_key(id) <==> store.entries.contains_key(id) || incoming_ids(
            y,
        ).contains(id));
    }
    assert forall|id: EntryId| #[trigger] ab.entries.contains_key(id) implies (
    store.entries.contains_key(id) || !a.entries.contains_key(id) || !b.entries.contains_key(id))
        ==> ab.entries[id] =~= ba.entries[id] by {
        assert(a.entries.contains_key(id) <==> store.entries.contains_key(id) || incoming_ids(
            x,
        ).contains(id));
        assert(b.entries.contains_key(id) <==> store.entries.contains_key(id) || incoming_ids(
            y,
        ).contains(id));
        assert(ab.entries.contains_key(id) <==> a.entries.contains_key(id) || incoming_ids(
            y,
        ).contains(id));
        if store.entries.contains_key(id) {
            assert(a.entries[id] == store.entries[id].seen_also_by(seen_among(x, id)));
            assert(b.entries[id] == store.entries[id].seen_also_by(seen_among(y, id)));
            assert(ab.entries[id] == a.entries[id].seen_also_by(seen_among(y, id)));
            assert(ba.entries[id] == b.entries[id].seen_also_by(seen_among(x, id)));
            assert(ab.entries[id].seen_by =~= ba.entries[id].seen_by);
        } else if !b.entries.contains_key(id) {
            lemma_merge_all_fresh(store, b, x, id);
            assert(ab.entries[id] == a.entries[id].seen_also_by(seen_among(y, id)));
            assert(seen_among(y, id) =~= Set::<Seq<char>>::empty());
            assert(ab.entries[id].seen_by =~= a.entries[id].seen_by);
        } else if !a.entries.contains_key(id) {
            lemma_merge_all_fresh(store, a, y, id);
            assert(ba.entries[id] == b.entries[id].seen_also_by(seen_among(x, id)));
            assert(seen_among(x, id) =~= Set::<Seq<char>>::empty());
            assert(ba.entries[id].seen_by =~= b.entries[id].seen_by);
        }
    }
    assert forall|id: EntryId|
        !store.entries.contains_key(id) && #[trigger] a.entries.contains_key(id)
            && b.entries.contains_key(id) implies ab.entries[id] == a.entries[id].seen_also_by(
        b.entries[id].seen_by,
    ) && ba.entries[id] == b.entries[id].seen_also_by(a.entries[id].seen_by) by {
        assert(a.entries.contains_key(id) <==> store.entries.contains_key(id) || incoming_ids(
            x,
        ).contains(id));
        assert(b.entries.contains_key(id) <==> store.entries.contains_key(id) || incoming_ids(
            y,
        ).contains(id));
        assert(ab.entries[id] == a.entries[id].seen_also_by(seen_among(y, id)));
        assert(ba.entries[id] == b.entries[id].seen_also_by(seen_among(x, id)));
        assert(a.entries[id].seen_by == seen_among(x, id));
        assert(b.entries[id].seen_by == seen_among(y, id));
    }
    if receipts_agree(store, first, second, cluster) {
        assert forall|id: EntryId| left.entries.contains_key(id) implies left.entries[id]
            =~= right.entries[id] by {
            assert(ab.entries.contains_key(id));
            if !store.entries.contains_key(id) && a.entries.contains_key(id)
                && b.entries.contains_key(id) {
                assert(ab.entries[id].seen_by =~= ba.entries[id].seen_by);
                assert(ab.entries[id].seen_by =~= a.entries[id].seen_by.union(
                    b.entries[id].seen_by,
                ));
            }
        }
        assert(left.entries =~= right.entries);
        assert(left =~= right);
    }
    if left == right {
        assert forall|id: EntryId|
            !store.entries.contains_key(id) && #[trigger] a.entries.contains_key(id)
                && b.entries.contains_key(id) implies a.entries[id].msg_id == b.entries[id].msg_id
            && a.entries[id].msg == b.entries[id].msg && (a.entries[id].tier == b.entries[id].tier
            || cluster.subset_of(a.entries[id].seen_by.union(b.entries[id].seen_by))) by {
            assert(ab.entries.contains_key(id));
            assert(left.entries[id] == right.entries[id]);
            assert(ab.entries[id].seen_by =~= a.entries[id].seen_by.union(b.entries[id].seen_by));
        }
    }
}

/// A store may always stay as it is.
pub proof fn lemma_evolves_reflexive(store: StoreView)
    ensures
        store.evolves_to(store),
{
}

/// What a store may become in two steps it may become in one.
pub proof fn lemma_evolves_transitive(first: StoreView, second: StoreView, third: StoreView)
    requires
        first.evolves_to(second),
        second.evolves_to(third),
    ensures
        first.evolves_to(third),
{
    assert forall|id: EntryId| #[trigger] first.entries.contains_key(id) implies third.entries.contains_key(
        id,
    ) && first.entries[id].evolves_to(third.entries[id]) by {
        assert(second.entries.contains_key(id));
        assert(third.entries.contains_key(id));
    }
    assert forall|key: Seq<char>| #[trigger] first.committed.contains_key(key) implies third.committed.contains_key(
        key,
    ) && first.committed[key] <= third.committed[key] by {
        assert(second.committed.contains_key(key));
        assert(third.committed.contains_key(key));
    }
}

/// Merging one entry loses nothing: every `seen_by` it touches only grows
/// and every tier stays.
pub proof fn lemma_merge_one_evolves(store: StoreView, entry: LogEntryView, tier: LogTier)
    ensures
        store.evolves_to(store.merge_one(entry, tier)),
{
}

/// Merging entries loses nothing: every `seen_by` only grows and no tier
/// goes back.
pub proof fn lemma_merge_evolves(store: StoreView, entries: Seq<LogEntryView>, tier: LogTier)
    ensures
        store.evolves_to(store.merge(entries, tier)),
    decreases entries.len(),
{
    if entries.len() > 0 {
        let before = store.merge(entries.drop_last(), tier);
        lemma_merge_evolves(store, entries.drop_last(), tier);
        lemma_merge_one_evolves(before, entries.last(), tier);
        lemma_evolves_transitive(store, before, store.merge(entries, tier));
    }
}

/// Committing one key moves entries forward only and never lowers a
/// committed offset.
pub proof fn lemma_commit_one_evolves(store: StoreView, key: Seq<char>, offset: usize)
    ensures
        store.evolves_to(store.commit_one(key, offset)),
{
}

/// Committing moves entries forward only and never lowers a committed
/// offset.
pub proof fn lemma_commit_evolves(store: StoreView, offsets: Seq<EntryId>)
    ensures
        store.evolves_to(store.commit(offsets)),
    decreases offsets.len(),
{
    if offsets.len() > 0 {
        let before = store.commit(offsets.drop_last());
        lemma_commit_evolves(store, offsets.drop_last());
        lemma_commit_one_evolves(before, offsets.last().0, offsets.last().1);
        lemma_evolves_transitive(store, before, store.commit(offsets));
    }
}

/// Anchoring moves entries forward only.
pub proof fn lemma_anchor_evolves(store: StoreView, cluster: Set<Seq<char>>)
    ensures
        store.evolves_to(store.anchor(cluster)),
{
}

/// Recording who holds an entry only adds to its `seen_by`.
pub proof fn lemma_mark_seen_evolves(store: StoreView, ids: Set<EntryId>, node: Seq<char>)
    ensures
        store.evolves_to(store.mark_seen(ids, node)),
{
}

/// Receiving gossip loses nothing: every `seen_by` only grows and no tier
/// goes back.
pub proof fn lemma_receive_evolves(store: StoreView, gossip: GossipView, cluster: Set<Seq<char>>)
    ensures
        store.evolves_to(store.receive(gossip, cluster)),
{
    let stamped = gossip.stamped(store.src);
    let first = store.merge(stamped.committed, LogTier::Committed);
    let second = first.merge(stamped.uncommitted, LogTier::Uncommitted);
    lemma_merge_evolves(store, stamped.committed, LogTier::Committed);
    lemma_merge_evolves(first, stamped.uncommitted, LogTier::Uncommitted);
    lemma_anchor_evolves(second, cluster);
    lemma_evolves_transitive(store, first, second);
    lemma_evolves_transitive(store, second, second.anchor(cluster));
}

/// A commit below the committed offset of its key changes nothing: after
/// committing `high`, committing a lower offset for the same key leaves
/// the store, and with it the committed offset, as it was.
pub proof fn lemma_commit_monotonic(store: StoreView, key: Seq<char>, high: usize, low: usize)
    requires
        low < high,
    ensures
        store.commit_one(key, high).commit_one(key, low) == store.commit_one(key, high),
        store.commit_one(key, high).committed.contains_key(key),
        store.commit_one(key, high).committed[key] >= high,
{
}

/// Anchoring moves an entry to the anchored tier only when the whole
/// cluster has seen it.
pub proof fn lemma_anchor_safe(store: StoreView, cluster: Set<Seq<char>>)
    ensures
        store.anchors_safely(store.anchor(cluster), cluster),
{
}

/// An anchored entry stays anchored whatever the store becomes.
pub proof fn lemma_anchored_stays(store: StoreView, next: StoreView, id: EntryId)
    requires
        store.evolves_to(next),
        store.entries.contains_key(id),
        store.entries[id].tier == LogTier::Anchored,
    ensures
        next.entries.contains_key(id),
        next.entries[id].tier == LogTier::Anchored,
{
}

/// Merging into a tier other than the anchored one anchors nothing.
pub proof fn lemma_merge_anchors_nothing(
    store: StoreView,
    entries: Seq<LogEntryView>,
    tier: LogTier,
    cluster: Set<Seq<char>>,
)
    requires
        tier != LogTier::Anchored,
    ensures
        store.anchors_safely(store.merge(entries, tier), cluster),
    decreases entries.len(),
{
    if entries.len() > 0 {
        lemma_merge_anchors_nothing(store, entries.drop_last(), tier, cluster);
        let before = store.merge(entries.drop_last(), tier);
        let after = store.merge(entries, tier);
        assert forall|id: EntryId| #[trigger]
            after.entries.contains_key(id) && after.entries[id].tier
                == LogTier::Anchored implies (store.entries.contains_key(id)
            && store.entries[id].tier == LogTier::Anchored) || after.fully_seen(id, cluster) by {
            assert(before.entries.contains_key(id) && before.entries[id].tier == LogTier::Anchored);
        }
    }
}

/// Committing anchors nothing.
pub proof fn lemma_commit_anchors_nothing(
    store: StoreView,
    offsets: Seq<EntryId>,
    cluster: Set<Seq<char>>,
)
    ensures
        store.anchors_safely(store.commit(offsets), cluster),
    decreases offsets.len(),
{
    if offsets.len() > 0 {
        lemma_commit_anchors_nothing(store, offsets.drop_last(), cluster);
        let before = store.commit(offsets.drop_last());
        let after = store.commit(offsets);
        assert forall|id: EntryId| #[trigger]
            after.entries.contains_key(id) && after.entries[id].tier
                == LogTier::Anchored implies (store.entries.contains_key(id)
            && store.entries[id].tier == LogTier::Anchored) || after.fully_seen(id, cluster) by {
            assert(before.entries.contains_key(id) && before.entries[id].tier == LogTier::Anchored);
        }
    }
}

/// Recording who holds an entry anchors nothing.
pub proof fn lemma_mark_seen_anchors_nothing(
    store: StoreView,
    ids: Set<EntryId>,
    node: Seq<char>,
    cluster: Set<Seq<char>>,
)
    ensures
        store.anchors_safely(store.mark_seen(ids, node), cluster),
{
}

/// Entries that were anchored safely in each of two steps were anchored
/// safely over both, as long as the second step lost nothing.
pub proof fn lemma_anchors_safely_transitive(
    first: StoreView,
    second: StoreView,
    third: StoreView,
    cluster: Set<Seq<char>>,
)
    requires
        first.anchors_safely(second, cluster),
        second.anchors_safely(third, cluster),
        second.evolves_to(third),
    ensures
        first.anchors_safely(third, cluster),
{
    assert forall|id: EntryId| #[trigger]
        third.entries.contains_key(id) && third.entries[id].tier == LogTier::Anchored implies (
    first.entries.contains_key(id) && first.entries[id].tier == LogTier::Anchored)
        || third.fully_seen(id, cluster) by {
        if second.entries.contains_key(id) && second.entries[id].tier == LogTier::Anchored {
            if !(first.entries.contains_key(id) && first.entries[id].tier == LogTier::Anchored) {
                assert(second.fully_seen(id, cluster));
                assert(second.entries[id].evolves_to(third.entries[id]));
            }
        }
    }
}

/// Receiving gossip moves an entry to the anchored tier only when the
/// whole cluster has seen it.
pub proof fn lemma_receive_anchors_safely(
    store: StoreView,
    gossip: GossipView,
    cluster: Set<Seq<char>>,
)
    ensures
        store.anchors_safely(store.receive(gossip, cluster), cluster),
{
    let stamped = gossip.stamped(store.src);
    let first = store.merge(stamped.committed, LogTier::Committed);
    let second = first.merge(stamped.uncommitted, LogTier::Uncommitted);
    lemma_merge_anchors_nothing(store, stamped.committed, LogTier::Committed, cluster);
    lemma_merge_anchors_nothing(first, stamped.uncommitted, LogTier::Uncommitted, cluster);
    lemma_merge_evolves(first, stamped.uncommitted, LogTier::Uncommitted);
    lemma_anchors_safely_transitive(store, first, second, cluster);
    lemma_anchor_safe(second, cluster);
    lemma_anchor_evolves(second, cluster);
    lemma_anchors_safely_transitive(store, second, second.anchor(cluster), cluster);
}

/// Neither committing nor anchoring changes what a poll sees: a listing
/// of the store stays a listing of it.
pub proof fn lemma_listing_ignores_tiers(
    store: StoreView,
    next: StoreView,
    key: Seq<char>,
    from: usize,
    list: Seq<(usize, usize)>,
)
    requires
        store.is_listing(key, from, list),
        store.evolves_to(next),
        next.entries.dom() == store.entries.dom(),
    ensures
        next.is_listing(key, from, list),
{
    assert forall|i: int| 0 <= i < list.len() implies from <= (#[trigger] list[i]).0
        && next.entries.contains_key((key, list[i].0)) && next.entries[(key, list[i].0)].msg
        == list[i].1 by {
        assert(store.entries.contains_key((key, list[i].0)));
    }
    assert forall|offset: usize|
        from <= offset && #[trigger] next.entries.contains_key((key, offset)) implies exists|i: int|
        0 <= i < list.len() && (#[trigger] list[i]).0 == offset by {
        assert(store.entries.dom().contains((key, offset)));
        assert(store.entries.contains_key((key, offset)));
    }
}

/// Merging leaves the owner of the store and the committed offsets alone.
pub proof fn lemma_merge_keeps_owner(store: StoreView, entries: Seq<LogEntryView>, tier: LogTier)
    ensures
        store.merge(entries, tier).src == store.src,
        store.merge(entries, tier).committed == store.committed,
    decreases entries.len(),
{
    if entries.len() > 0 {
        lemma_merge_keeps_owner(store, entries.drop_last(), tier);
    }
}

/// Committing leaves the owner of the store alone.
pub proof fn lemma_commit_keeps_owner(store: StoreView, offsets: Seq<EntryId>)
    ensures
        store.commit(offsets).src == store.src,
    decreases offsets.len(),
{
    if offsets.len() > 0 {
        lemma_commit_keeps_owner(store, offsets.drop_last());
    }
}

/// Recording a node as holding one set of entries and then another is
/// recording it as holding both.
pub proof fn lemma_mark_seen_twice(
    store: StoreView,
    first: Set<EntryId>,
    second: Set<EntryId>,
    node: Seq<char>,
)
    ensures
        store.mark_seen(first, node).mark_seen(second, node) == store.mark_seen(
            first.union(second),
            node,
        ),
{
    let a = store.mark_seen(first, node).mark_seen(second, node);
    let b = store.mark_seen(first.union(second), node);
    assert forall|id: EntryId| a.entries.contains_key(id) implies a.entries[id]
        =~= b.entries[id] by {
        assert(a.entries[id].seen_by =~= b.entries[id].seen_by);
    }
    assert(a.entries =~= b.entries);
    assert(a =~= b);
}

/// What merging records of an entry that is new to the store comes from
/// one of the incoming entries with that identity: its content and the
/// tier it arrived in.
pub proof fn lemma_merge_all_origin(store: StoreView, items: Seq<Incoming>, id: EntryId)
    requires
        !store.entries.contains_key(id),
        incoming_ids(items).contains(id),
    ensures
        exists|i: int|
            0 <= i < items.len() && (#[trigger] items[i]).0.id() == id && merge_all(
                store,
                items,
            ).entries[id].msg_id == items[i].0.msg_id && merge_all(store, items).entries[id].msg
                == items[i].0.msg && merge_all(store, items).entries[id].tier == items[i].1,
    decreases items.len(),
{
    lemma_merge_all_shape(store, items.drop_last());
    lemma_incoming_step(items, id);
    let head = items.drop_last();
    if incoming_ids(head).contains(id) {
        lemma_merge_all_origin(store, head, id);
        let i = choose|i: int|
            0 <= i < head.len() && (#[trigger] head[i]).0.id() == id && merge_all(
                store,
                head,
            ).entries[id].msg_id == head[i].0.msg_id && merge_all(store, head).entries[id].msg
                == head[i].0.msg && merge_all(store, head).entries[id].tier == head[i].1;
        assert(items[i] == head[i]);
        assert(merge_all(store, head).entries.contains_key(id));
    } else {
        assert(!merge_all(store, head).entries.contains_key(id));
        assert(items[items.len() - 1].0.id() == id);
    }
}

/// One write to a store: an entry that it takes in, whether appended here
/// or pushed by another node, or a commit of a key up to an offset.
pub enum Feed {
    Entry { entry: LogEntryView },
    Commit { key: Seq<char>, offset: usize },
}

/// The store after it was fed the writes, first to last.
pub open spec fn fed(store: StoreView, feeds: Seq<Feed>) -> StoreView
    decreases feeds.len(),
{
    if feeds.len() == 0 {
        store
    } else {
        let before = fed(store, feeds.drop_last());
        match feeds.last() {
            Feed::Entry { entry } => before.merge_one(entry, LogTier::Uncommitted),
            Feed::Commit { key, offset } => before.commit_one(key, offset),
        }
    }
}

/// Whether the write brings an entry with this identity and this value.
pub open spec fn brings(feed: Feed, id: EntryId, msg: usize) -> bool {
    match feed {
        Feed::Entry { entry } => entry.id() == id && entry.msg == msg,
        Feed::Commit { .. } => false,
    }
}

/// Whether the writes bring an entry with this identity and this value.
pub open spec fn feeds_entry(feeds: Seq<Feed>, id: EntryId, msg: usize) -> bool {
    exists|i: int| 0 <= i < feeds.len() && brings(#[trigger] feeds[i], id, msg)
}

/// Whether the writes bring one value only under each identity, as they
/// do when every offset was assigned once.
pub open spec fn feeds_agree(feeds: Seq<Feed>) -> bool {
    forall|id: EntryId, first: usize, second: usize|
        #![trigger feeds_entry(feeds, id, first), feeds_entry(feeds, id, second)]
        feeds_entry(feeds, id, first) && feeds_entry(feeds, id, second) ==> first == second
}

/// The `(offset, value)` pairs that the writes bring for `key`.
pub open spec fn fed_pairs(feeds: Seq<Feed>, key: Seq<char>) -> Set<(usize, usize)> {
    Set::new(|pair: (usize, usize)| feeds_entry(feeds, (key, pair.0), pair.1))
}

proof fn lemma_feeds_entry_step(feeds: Seq<Feed>, id: EntryId, msg: usize)
    requires
        feeds.len() > 0,
    ensures
        feeds_entry(feeds, id, msg) <==> feeds_entry(feeds.drop_last(), id, msg) || brings(
            feeds.last(),
            id,
            msg,
        ),
{
    let head = feeds.drop_last();
    if feeds_entry(feeds, id, msg) {
        let i = choose|i: int| 0 <= i < feeds.len() && brings(#[trigger] feeds[i], id, msg);
        if i < head.len() {
            assert(head[i] == feeds[i]);
        }
    }
    if feeds_entry(head, id, msg) {
        let i = choose|i: int| 0 <= i < head.len() && brings(#[trigger] head[i], id, msg);
        assert(feeds[i] == head[i]);
    }
    if brings(feeds.last(), id, msg) {
        assert(feeds[feeds.len() - 1] == feeds.last());
    }
}

/// What an empty store holds after it was fed writes that agree: the
/// entries that the writes bring, each with the value they bring, whatever
/// the order of the writes and however often one is repeated.
pub proof fn lemma_fed_holds(src: Seq<char>, feeds: Seq<Feed>)
    requires
        feeds_agree(feeds),
    ensures
        forall|id: EntryId, msg: usize|
            #![trigger feeds_entry(feeds, id, msg)]
            feeds_entry(feeds, id, msg) <==> fed(StoreView::empty(src), feeds).entries.contains_key(
                id,
            ) && fed(StoreView::empty(src), feeds).entries[id].msg == msg,
    decreases feeds.len(),
{
    let store = fed(StoreView::empty(src), feeds);
    if feeds.len() == 0 {
        assert forall|id: EntryId, msg: usize|
            #![trigger feeds_entry(feeds, id, msg)]
            feeds_entry(feeds, id, msg) <==> store.entries.contains_key(id) && store.entries[id].msg
                == msg by {}
    } else {
        let head = feeds.drop_last();
        let before = fed(StoreView::empty(src), head);
        assert(feeds_agree(head)) by {
            assert forall|id: EntryId, first: usize, second: usize|
                #![trigger feeds_entry(head, id, first), feeds_entry(head, id, second)]
                feeds_entry(head, id, first) && feeds_entry(head, id, second) implies first
                == second by {
                lemma_feeds_entry_step(feeds, id, first);
                lemma_feeds_entry_step(feeds, id, second);
            }
        }
        lemma_fed_holds(src, head);
        assert forall|id: EntryId, msg: usize|
            #![trigger feeds_entry(feeds, id, msg)]
            feeds_entry(feeds, id, msg) <==> store.entries.contains_key(id) && store.entries[id].msg
                == msg by {
            lemma_feeds_entry_step(feeds, id, msg);
            assert(feeds_entry(head, id, msg) <==> before.entries.contains_key(id)
                && before.entries[id].msg == msg);
            match feeds.last() {
                Feed::Entry { entry } => {
                    if entry.id() == id {
                        lemma_feeds_entry_step(feeds, id, entry.msg);
                        assert(feeds_entry(feeds, id, entry.msg));
                        if before.entries.contains_key(id) {
                            let held = before.entries[id].msg;
                            assert(feeds_entry(head, id, held) <==> before.entries.contains_key(id)
                                && before.entries[id].msg == held);
                            lemma_feeds_entry_step(feeds, id, held);
                            assert(feeds_entry(feeds, id, held));
                            assert(held == entry.msg);
                        }
                        if feeds_entry(feeds, id, msg) {
                            assert(msg == entry.msg);
                        }
                    }
                },
                Feed::Commit { key, offset } => {},
            }
        }
    }
}

/// Two stores that were fed the same entries, in any order, with any
/// repeats, and with whatever commits, hold the same `(offset, value)`
/// pairs for every key: those that the writes bring.
pub proof fn lemma_same_entries_same_pairs(
    first_src: Seq<char>,
    first: Seq<Feed>,
    second_src: Seq<char>,
    second: Seq<Feed>,
    key: Seq<char>,
)
    requires
        feeds_agree(first),
        forall|id: EntryId, msg: usize|
            #![trigger feeds_entry(first, id, msg)]
            #![trigger feeds_entry(second, id, msg)]
            feeds_entry(first, id, msg) <==> feeds_entry(second, id, msg),
    ensures
        fed(StoreView::empty(first_src), first).pairs(key) == fed_pairs(first, key),
        fed(StoreView::empty(second_src), second).pairs(key) == fed_pairs(first, key),
{
    assert(feeds_agree(second)) by {
        assert forall|id: EntryId, a: usize, b: usize|
            #![trigger feeds_entry(second, id, a), feeds_entry(second, id, b)]
            feeds_entry(second, id, a) && feeds_entry(second, id, b) implies a == b by {
            assert(feeds_entry(first, id, a) && feeds_entry(first, id, b));
        }
    }
    lemma_fed_holds(first_src, first);
    lemma_fed_holds(second_src, second);
    let a = fed(StoreView::empty(first_src), first);
    let b = fed(StoreView::empty(second_src), second);
    assert forall|pair: (usize, usize)| a.pairs(key).contains(pair) <==> fed_pairs(
        first,
        key,
    ).contains(pair) by {
        assert(feeds_entry(first, (key, pair.0), pair.1) <==> a.entries.contains_key((key, pair.0))
            && a.entries[(key, pair.0)].msg == pair.1);
    }
    assert forall|pair: (usize, usize)| b.pairs(key).contains(pair) <==> fed_pairs(
        first,
        key,
    ).contains(pair) by {
        assert(feeds_entry(second, (key, pair.0), pair.1) <==> b.entries.contains_key(
            (key, pair.0),
        ) && b.entries[(key, pair.0)].msg == pair.1);
        assert(feeds_entry(first, (key, pair.0), pair.1) <==> feeds_entry(
            second,
            (key, pair.0),
            pair.1,
        ));
    }
    assert(a.pairs(key) =~= fed_pairs(first, key));
    assert(b.pairs(key) =~= fed_pairs(first, key));
}

/// A listing from an offset holds the pairs of the key at or above that
/// offset, and no others.
pub proof fn lemma_listing_holds_pairs(
    store: StoreView,
    key: Seq<char>,
    from: usize,
    list: Seq<(usize, usize)>,
)
    requires
        store.is_listing(key, from, list),
    ensures
        forall|pair: (usize, usize)|
            list.contains(pair) <==> store.pairs(key).contains(pair) && from <= pair.0,
{
    assert forall|pair: (usize, usize)|
        list.contains(pair) <==> store.pairs(key).contains(pair) && from <= pair.0 by {
        if list.contains(pair) {
            let i = choose|i: int| 0 <= i < list.len() && list[i] == pair;
            assert(from <= list[i].0);
        }
        if store.pairs(key).contains(pair) && from <= pair.0 {
            assert(store.entries.contains_key((key, pair.0)));
            let i = choose|i: int| 0 <= i < list.len() && (#[trigger] list[i]).0 == pair.0;
            assert(list[i] == pair);
        }
    }
}

} // verus!
