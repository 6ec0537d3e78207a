//! The replicated log as a mathematical object: a map from entry identity
//! to what is recorded of the entry, and the committed offset of each key.
use crate::log_entry::{entry_ids, EntryId, LogEntryView, LogTier};
use vstd::prelude::*;

verus! {

/// What a store records of one entry besides its identity.
#[verifier::ext_equal]
pub struct Record {
    pub msg_id: usize,
    pub msg: usize,
    pub seen_by: Set<Seq<char>>,
    pub tier: LogTier,
}

/// The state of one node's log store.
#[verifier::ext_equal]
pub struct StoreView {
    /// The id of the node that owns the store.
    pub src: Seq<char>,
    /// Every entry the store holds, by identity. An entry is in one tier.
    pub entries: Map<EntryId, Record>,
    /// The highest offset committed for each key.
    pub committed: Map<Seq<char>, usize>,
}

/// What one gossip message carries: entries the sender holds as committed
/// and entries it holds as uncommitted.
pub struct GossipView {
    pub committed: Seq<LogEntryView>,
    pub uncommitted: Seq<LogEntryView>,
}

/// Every entry of the list, also seen by `node`.
pub open spec fn stamp_all(entries: Seq<LogEntryView>, node: Seq<char>) -> Seq<LogEntryView> {
    Seq::new(entries.len(), |i: int| entries[i].stamped(node))
}

impl GossipView {
    /// The same message with every entry also seen by `node`.
    pub open spec fn stamped(self, node: Seq<char>) -> GossipView {
        GossipView {
            committed: stamp_all(self.committed, node),
            uncommitted: stamp_all(self.uncommitted, node),
        }
    }

    /// The identities of the entries the message carries.
    pub open spec fn ids(self) -> Set<EntryId> {
        entry_ids(self.committed).union(entry_ids(self.uncommitted))
    }
}

impl Record {
    /// The record of an entry that arrives in `tier`.
    pub open spec fn of(entry: LogEntryView, tier: LogTier) -> Record {
        Record { msg_id: entry.msg_id, msg: entry.msg, seen_by: entry.seen_by, tier }
    }

    /// The same record, also seen by every node of `nodes`.
    pub open spec fn seen_also_by(self, nodes: Set<Seq<char>>) -> Record {
        Record { seen_by: self.seen_by.union(nodes), ..self }
    }

    /// The same record in another tier.
    pub open spec fn in_tier(self, tier: LogTier) -> Record {
        Record { tier, ..self }
    }

    /// A record may become `next`: content is kept, `seen_by` only grows,
    /// and the tier never goes back.
    pub open spec fn evolves_to(self, next: Record) -> bool {
        &&& next.msg_id == self.msg_id
        &&& next.msg == self.msg
        &&& self.seen_by.subset_of(next.seen_by)
        &&& self.tier.rank() <= next.tier.rank()
    }
}

impl StoreView {
    /// A store that holds nothing.
    pub open spec fn empty(src: Seq<char>) -> StoreView {
        StoreView { src, entries: Map::empty(), committed: Map::empty() }
    }

    /// The entry under `id` as it would be sent to another node.
    pub open spec fn entry(self, id: EntryId) -> LogEntryView {
        LogEntryView {
            msg_id: self.entries[id].msg_id,
            key: id.0,
            offset: id.1,
            msg: self.entries[id].msg,
            seen_by: self.entries[id].seen_by,
        }
    }

    /// Whether the store holds any entry for `key`.
    pub open spec fn has_key(self, key: Seq<char>) -> bool {
        exists|offset: usize| self.entries.contains_key((key, offset))
    }

    /// Merging one incoming entry: an entry already held, in whatever tier,
    /// gains the incoming `seen_by` and is otherwise untouched; a new entry
    /// enters the tier it arrived in.
    pub open spec fn merge_one(self, entry: LogEntryView, tier: LogTier) -> StoreView {
        let id = entry.id();
        let record = if self.entries.contains_key(id) {
            self.entries[id].seen_also_by(entry.seen_by)
        } else {
            Record::of(entry, tier)
        };
        StoreView { entries: self.entries.insert(id, record), ..self }
    }

    /// Merging a list of incoming entries, first to last.
    pub open spec fn merge(self, entries: Seq<LogEntryView>, tier: LogTier) -> StoreView
        decreases entries.len(),
    {
        if entries.len() == 0 {
            self
        } else {
            self.merge(entries.drop_last(), tier).merge_one(entries.last(), tier)
        }
    }

    /// Merging what a gossip message carries: its committed entries into
    /// the committed tier, then its uncommitted entries into the
    /// uncommitted tier.
    pub open spec fn merge_gossip(self, gossip: GossipView) -> StoreView {
        self.merge(gossip.committed, LogTier::Committed).merge(
            gossip.uncommitted,
            LogTier::Uncommitted,
        )
    }

    /// Receiving a gossip message in a cluster: every carried entry is
    /// stamped as seen by this node and merged, then what the whole cluster
    /// has seen is anchored.
    pub open spec fn receive(self, gossip: GossipView, cluster: Set<Seq<char>>) -> StoreView {
        self.merge_gossip(gossip.stamped(self.src)).anchor(cluster)
    }

    /// Appending a fresh entry written at this node.
    pub open spec fn append(self, key: Seq<char>, msg_id: usize, offset: usize, msg: usize) -> StoreView {
        self.merge_one(
            LogEntryView { msg_id, key, offset, msg, seen_by: set![self.src] },
            LogTier::Uncommitted,
        )
    }

    /// Whether a commit of `offset` for `key` takes effect: it must not lie
    /// below what is committed for the key already.
    pub open spec fn commit_applies(self, key: Seq<char>, offset: usize) -> bool {
        self.committed.contains_key(key) ==> self.committed[key] <= offset
    }

    /// Committing one key up to `offset`: when the commit applies, every
    /// uncommitted entry of the key at or below `offset` becomes committed
    /// and `offset` is recorded; otherwise nothing changes.
    pub open spec fn commit_one(self, key: Seq<char>, offset: usize) -> StoreView {
        if self.commit_applies(key, offset) {
            StoreView {
                entries: Map::new(
                    |id: EntryId| self.entries.contains_key(id),
                    |id: EntryId|
                        if id.0 == key && id.1 <= offset && self.entries[id].tier
                            == LogTier::Uncommitted {
                            self.entries[id].in_tier(LogTier::Committed)
                        } else {
                            self.entries[id]
                        },
                ),
                committed: self.committed.insert(key, offset),
                ..self
            }
        } else {
            self
        }
    }

    /// Committing a list of `(key, offset)` pairs, first to last.
    pub open spec fn commit(self, offsets: Seq<EntryId>) -> StoreView
        decreases offsets.len(),
    {
        if offsets.len() == 0 {
            self
        } else {
            self.commit(offsets.drop_last()).commit_one(offsets.last().0, offsets.last().1)
        }
    }

    /// Whether the entry under `id` has been seen by the whole cluster.
    pub open spec fn fully_seen(self, id: EntryId, cluster: Set<Seq<char>>) -> bool {
        cluster.subset_of(self.entries[id].seen_by)
    }

    /// Anchoring: every entry seen by the whole cluster moves to the
    /// anchored tier; all others stay where they are.
    pub open spec fn anchor(self, cluster: Set<Seq<char>>) -> StoreView {
        StoreView {
            entries: Map::new(
                |id: EntryId| self.entries.contains_key(id),
                |id: EntryId|
                    if self.fully_seen(id, cluster) {
                        self.entries[id].in_tier(LogTier::Anchored)
                    } else {
                        self.entries[id]
                    },
            ),
            ..self
        }
    }

    /// Recording that `node` holds each entry of `ids` that the store holds.
    pub open spec fn mark_seen(self, ids: Set<EntryId>, node: Seq<char>) -> StoreView {
        StoreView {
            entries: Map::new(
                |id: EntryId| self.entries.contains_key(id),
                |id: EntryId|
                    if ids.contains(id) {
                        self.entries[id].seen_also_by(set![node])
                    } else {
                        self.entries[id]
                    },
            ),
            ..self
        }
    }

    /// The entries of `key` that are in `tier`.
    pub open spec fn tier_ids(self, key: Seq<char>, tier: LogTier) -> Set<EntryId> {
        Set::new(
            |id: EntryId| self.entries.contains_key(id) && id.0 == key && self.entries[id].tier == tier,
        )
    }

    /// How many entries of `key` are in the committed tier.
    pub open spec fn committed_count(self, key: Seq<char>) -> nat {
        self.tier_ids(key, LogTier::Committed).len()
    }

    /// Whether `list` is the listing of `key` from offset `from`: the
    /// `(offset, value)` pairs of every entry of the key at or above `from`,
    /// in whatever tier, by ascending offset, each offset once.
    pub open spec fn is_listing(self, key: Seq<char>, from: usize, list: Seq<(usize, usize)>) -> bool {
        &&& forall|i: int, j: int| 0 <= i < j < list.len() ==> list[i].0 < list[j].0
        &&& forall|i: int|
            0 <= i < list.len() ==> from <= (#[trigger] list[i]).0 && self.entries.contains_key(
                (key, list[i].0),
            ) && self.entries[(key, list[i].0)].msg == list[i].1
        &&& forall|offset: usize|
            from <= offset && #[trigger] self.entries.contains_key((key, offset)) ==> exists|i: int|
                0 <= i < list.len() && (#[trigger] list[i]).0 == offset
    }

    /// The `(offset, value)` pairs of every entry of `key`, in every tier.
    pub open spec fn pairs(self, key: Seq<char>) -> Set<(usize, usize)> {
        Set::new(
            |pair: (usize, usize)|
                self.entries.contains_key((key, pair.0)) && self.entries[(key, pair.0)].msg == pair.1,
        )
    }

    /// The requests of a poll that name a key the store holds, in order.
    pub open spec fn known_requests(self, requests: Seq<EntryId>) -> Seq<EntryId>
        decreases requests.len(),
    {
        if requests.len() == 0 {
            Seq::empty()
        } else {
            let rest = self.known_requests(requests.drop_last());
            if self.has_key(requests.last().0) {
                rest.push(requests.last())
            } else {
                rest
            }
        }
    }

    /// Whether `result` answers a poll: one listing for each request that
    /// names a key the store holds, in the order of the requests.
    pub open spec fn is_poll_result(
        self,
        requests: Seq<EntryId>,
        result: Seq<(Seq<char>, Seq<(usize, usize)>)>,
    ) -> bool {
        let known = self.known_requests(requests);
        &&& result.len() == known.len()
        &&& forall|i: int|
            0 <= i < result.len() ==> (#[trigger] result[i]).0 == known[i].0 && self.is_listing(
                known[i].0,
                known[i].1,
                result[i].1,
            )
    }

    /// Whether the store has anything to report of the commits of `key`: it
    /// holds committed entries of the key, or a commit of the key took
    /// effect here.
    pub open spec fn reports_commits(self, key: Seq<char>) -> bool {
        self.committed_count(key) > 0 || self.committed.contains_key(key)
    }

    /// For each key of `keys` of which the store has commits to report, in
    /// order, the key and the number of its committed entries. Entries that
    /// arrived as committed count like those committed here.
    pub open spec fn committed_counts(self, keys: Seq<Seq<char>>) -> Seq<(Seq<char>, nat)>
        decreases keys.len(),
    {
        if keys.len() == 0 {
            Seq::empty()
        } else {
            let rest = self.committed_counts(keys.drop_last());
            if self.reports_commits(keys.last()) {
                rest.push((keys.last(), self.committed_count(keys.last())))
            } else {
                rest
            }
        }
    }

    /// The entries in `tier` that are not among `known`.
    pub open spec fn pending(self, tier: LogTier, known: Set<EntryId>) -> Set<EntryId> {
        Set::new(
            |id: EntryId|
                self.entries.contains_key(id) && self.entries[id].tier == tier && !known.contains(id),
        )
    }

    /// Whether `delta` is a batch of at most `cap` pending entries: each
    /// once, each as the store holds it, and all of them unless the batch
    /// is full. Which ones a full batch holds is left open.
    pub open spec fn is_delta(
        self,
        tier: LogTier,
        known: Set<EntryId>,
        cap: nat,
        delta: Seq<LogEntryView>,
    ) -> bool {
        &&& delta.len() <= cap
        &&& forall|i: int, j: int|
            0 <= i < j < delta.len() ==> (#[trigger] delta[i]).id() != (#[trigger] delta[j]).id()
        &&& forall|i: int|
            0 <= i < delta.len() ==> self.pending(tier, known).contains((#[trigger] delta[i]).id())
                && delta[i] == self.entry(delta[i].id())
        &&& delta.len() < cap ==> forall|id: EntryId| #[trigger]
            self.pending(tier, known).contains(id) ==> exists|i: int|
                0 <= i < delta.len() && (#[trigger] delta[i]).id() == id
    }

    /// The store may become `next`: no entry is lost, every record evolves
    /// forward, and no committed offset goes down.
    pub open spec fn evolves_to(self, next: StoreView) -> bool {
        &&& forall|id: EntryId| #[trigger]
            self.entries.contains_key(id) ==> next.entries.contains_key(id)
                && self.entries[id].evolves_to(next.entries[id])
        &&& forall|key: Seq<char>| #[trigger]
            self.committed.contains_key(key) ==> next.committed.contains_key(key)
                && self.committed[key] <= next.committed[key]
    }

    /// Entries enter the anchored tier between `self` and `next` only when
    /// the whole cluster has seen them.
    pub open spec fn anchors_safely(self, next: StoreView, cluster: Set<Seq<char>>) -> bool {
        forall|id: EntryId| #[trigger]
            next.entries.contains_key(id) && next.entries[id].tier == LogTier::Anchored ==> (
            self.entries.contains_key(id) && self.entries[id].tier == LogTier::Anchored)
                || next.fully_seen(id, cluster)
    }
}

impl StoreView {
    /// A listing stays a listing when the store gains an entry that the
    /// listing does not cover.
    pub proof fn lemma_listing_skip(
        self,
        key: Seq<char>,
        from: usize,
        list: Seq<(usize, usize)>,
        id: EntryId,
        record: Record,
    )
        requires
            self.is_listing(key, from, list),
            !self.entries.contains_key(id),
            id.0 != key || id.1 < from,
        ensures
            (StoreView { entries: self.entries.insert(id, record), ..self }).is_listing(
                key,
                from,
                list,
            ),
    {
        let next = StoreView { entries: self.entries.insert(id, record), ..self };
        assert forall|offset: usize|
            from <= offset && #[trigger] next.entries.contains_key((key, offset)) implies exists|
            i: int,
        | 0 <= i < list.len() && (#[trigger] list[i]).0 == offset by {
            assert(self.entries.contains_key((key, offset)));
        }
    }

    /// When the store gains an entry of `key` at or above `from`, the
    /// listing gains its pair at the place that keeps the offsets ascending.
    pub proof fn lemma_listing_insert(
        self,
        key: Seq<char>,
        from: usize,
        list: Seq<(usize, usize)>,
        at: usize,
        record: Record,
        j: int,
    )
        requires
            self.is_listing(key, from, list),
            !self.entries.contains_key((key, at)),
            from <= at,
            0 <= j <= list.len(),
            forall|a: int| 0 <= a < j ==> list[a].0 < at,
            j < list.len() ==> at <= list[j].0,
        ensures
            (StoreView { entries: self.entries.insert((key, at), record), ..self }).is_listing(
                key,
                from,
                list.insert(j, (at, record.msg)),
            ),
    {
        let next = StoreView { entries: self.entries.insert((key, at), record), ..self };
        let longer = list.insert(j, (at, record.msg));
        assert forall|a: int| j <= a < list.len() implies at < (#[trigger] list[a]).0 by {
            if j < a {
                assert(list[j].0 < list[a].0);
            }
        }
        assert forall|a: int, b: int| 0 <= a < b < longer.len() implies longer[a].0
            < longer[b].0 by {
            let old_a = if a < j { a } else { a - 1 };
            let old_b = if b < j { b } else { b - 1 };
            if a != j {
                assert(longer[a] == list[old_a]);
            }
            if b != j {
                assert(longer[b] == list[old_b]);
            }
        }
        assert forall|a: int| 0 <= a < longer.len() implies from <= (#[trigger] longer[a]).0
            && next.entries.contains_key((key, longer[a].0)) && next.entries[(
            key,
            longer[a].0,
        )].msg == longer[a].1 by {
            if a != j {
                let old_a = if a < j { a } else { a - 1 };
                assert(longer[a] == list[old_a]);
            }
        }
        assert forall|offset: usize|
            from <= offset && #[trigger] next.entries.contains_key((key, offset)) implies exists|
            a: int,
        | 0 <= a < longer.len() && (#[trigger] longer[a]).0 == offset by {
            if offset == at {
                assert(longer[j].0 == at);
            } else {
                assert(self.entries.contains_key((key, offset)));
                let old_a = choose|a: int| 0 <= a < list.len() && (#[trigger] list[a]).0 == offset;
                let a = if old_a < j { old_a } else { old_a + 1 };
                assert(longer[a] == list[old_a]);
            }
        }
    }

    /// A key and an offset have one listing only.
    pub proof fn lemma_listing_unique(
        self,
        key: Seq<char>,
        from: usize,
        first: Seq<(usize, usize)>,
        second: Seq<(usize, usize)>,
    )
        requires
            self.is_listing(key, from, first),
            self.is_listing(key, from, second),
        ensures
            first == second,
        decreases first.len(),
    {
        if first.len() == 0 {
            if second.len() > 0 {
                assert(self.entries.contains_key((key, second[0].0)));
            }
            assert(first =~= second);
        } else {
            let top = first.last();
            assert(self.entries.contains_key((key, top.0)));
            let b = choose|b: int| 0 <= b < second.len() && (#[trigger] second[b]).0 == top.0;
            if b < second.len() - 1 {
                let beyond = second[second.len() - 1];
                assert(second[b].0 < beyond.0);
                assert(self.entries.contains_key((key, beyond.0)));
                let a = choose|a: int| 0 <= a < first.len() && (#[trigger] first[a]).0 == beyond.0;
                if a < first.len() - 1 {
                    assert(first[a].0 < first[first.len() - 1].0);
                }
            }
            assert(second.last() == top);
            let rest = StoreView { entries: self.entries.remove((key, top.0)), ..self };
            let first_rest = first.drop_last();
            let second_rest = second.drop_last();
            assert(rest.is_listing(key, from, first_rest)) by {
                assert forall|i: int| 0 <= i < first_rest.len() implies from <= (
                #[trigger] first_rest[i]).0 && rest.entries.contains_key((key, first_rest[i].0))
                    && rest.entries[(key, first_rest[i].0)].msg == first_rest[i].1 by {
                    assert(first_rest[i] == first[i]);
                    assert(first[i].0 < first[first.len() - 1].0);
                }
                assert forall|offset: usize|
                    from <= offset && #[trigger] rest.entries.contains_key(
                        (key, offset),
                    ) implies exists|i: int|
                    0 <= i < first_rest.len() && (#[trigger] first_rest[i]).0 == offset by {
                    assert(self.entries.contains_key((key, offset)));
                    let i = choose|i: int| 0 <= i < first.len() && (#[trigger] first[i]).0 == offset;
                    assert(first_rest[i] == first[i]);
                }
            }
            assert(rest.is_listing(key, from, second_rest)) by {
                assert forall|i: int| 0 <= i < second_rest.len() implies from <= (
                #[trigger] second_rest[i]).0 && rest.entries.contains_key(
                    (key, second_rest[i].0),
                ) && rest.entries[(key, second_rest[i].0)].msg == second_rest[i].1 by {
                    assert(second_rest[i] == second[i]);
                    assert(second[i].0 < second[second.len() - 1].0);
                }
                assert forall|offset: usize|
                    from <= offset && #[trigger] rest.entries.contains_key(
                        (key, offset),
                    ) implies exists|i: int|
                    0 <= i < second_rest.len() && (#[trigger] second_rest[i]).0 == offset by {
                    assert(self.entries.contains_key((key, offset)));
                    let i = choose|i: int|
                        0 <= i < second.len() && (#[trigger] second[i]).0 == offset;
                    assert(second_rest[i] == second[i]);
                }
            }
            rest.lemma_listing_unique(key, from, first_rest, second_rest);
            assert(first =~= first_rest.push(top));
            assert(second =~= second_rest.push(top));
        }
    }
}

impl StoreView {
    /// How the entries of a key in a tier change when the store gains an
    /// entry: the new entry joins them if it is of that key and tier.
    pub proof fn lemma_tier_ids_insert(self, key: Seq<char>, tier: LogTier, id: EntryId, record: Record)
        requires
            !self.entries.contains_key(id),
            self.tier_ids(key, tier).finite(),
        ensures
            ({
                let next = StoreView { entries: self.entries.insert(id, record), ..self };
                &&& next.tier_ids(key, tier).finite()
                &&& next.tier_ids(key, tier).len() == self.tier_ids(key, tier).len() + (if id.0 == key
                    && record.tier == tier {
                    1nat
                } else {
                    0nat
                })
            }),
    {
        let next = StoreView { entries: self.entries.insert(id, record), ..self };
        if id.0 == key && record.tier == tier {
            assert(next.tier_ids(key, tier) =~= self.tier_ids(key, tier).insert(id));
        } else {
            assert(next.tier_ids(key, tier) =~= self.tier_ids(key, tier));
        }
    }

    /// A store that holds nothing has no entries in any tier.
    pub proof fn lemma_tier_ids_empty(self, key: Seq<char>, tier: LogTier)
        requires
            self.entries == Map::<EntryId, Record>::empty(),
        ensures
            self.tier_ids(key, tier).finite(),
            self.tier_ids(key, tier).len() == 0,
    {
        assert(self.tier_ids(key, tier) =~= Set::<EntryId>::empty());
    }
}

} // verus!
