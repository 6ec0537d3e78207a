//! The log store of one node: every entry it holds, each in one tier, and
//! the committed offset of each key.
use crate::log_entry::{
    count_views, entry_ids, entry_views, id_set, listing_views, pair_views, EntryId, LogEntry,
    LogEntryView, LogTier,
};
use crate::log_model::{Record, StoreView};
use crate::names::{
    contains_all, distinct_names, insert_name, name_seq, name_set, union_names,
};
use vstd::hash_map::StringHashMap;
use vstd::prelude::*;

verus! {

/// One held entry and the tier it is in.
struct Slot {
    entry: LogEntry,
    tier: LogTier,
}

/// The log store of one node.
pub struct LogStore {
    src: String,
    slots: Vec<Slot>,
    offsets: StringHashMap<usize>,
}

spec fn slot_id(slot: Slot) -> EntryId {
    (slot.entry.key@, slot.entry.offset)
}

spec fn slot_record(slot: Slot) -> Record {
    Record {
        msg_id: slot.entry.msg_id,
        msg: slot.entry.msg,
        seen_by: name_set(slot.entry.seen_by@),
        tier: slot.tier,
    }
}

spec fn holds(slots: Seq<Slot>, id: EntryId) -> bool {
    exists|i: int| 0 <= i < slots.len() && slot_id(#[trigger] slots[i]) == id
}

spec fn index_of(slots: Seq<Slot>, id: EntryId) -> int {
    choose|i: int| 0 <= i < slots.len() && slot_id(#[trigger] slots[i]) == id
}

spec fn unique(slots: Seq<Slot>) -> bool {
    forall|i: int, j: int|
        0 <= i < j < slots.len() ==> slot_id(#[trigger] slots[i]) != slot_id(#[trigger] slots[j])
}

spec fn records(slots: Seq<Slot>) -> Map<EntryId, Record> {
    Map::new(|id: EntryId| holds(slots, id), |id: EntryId| slot_record(slots[index_of(slots, id)]))
}

spec fn seen_once(slots: Seq<Slot>) -> bool {
    forall|i: int| 0 <= i < slots.len() ==> distinct_names((#[trigger] slots[i]).entry.seen_by@)
}

proof fn lemma_index_of(slots: Seq<Slot>, i: int)
    requires
        unique(slots),
        0 <= i < slots.len(),
    ensures
        holds(slots, slot_id(slots[i])),
        index_of(slots, slot_id(slots[i])) == i,
        records(slots).contains_key(slot_id(slots[i])),
        records(slots)[slot_id(slots[i])] == slot_record(slots[i]),
{
    let id = slot_id(slots[i]);
    assert(holds(slots, id));
    let j = index_of(slots, id);
    if j < i {
        assert(slot_id(slots[j]) != slot_id(slots[i]));
    } else if i < j {
        assert(slot_id(slots[i]) != slot_id(slots[j]));
    }
}

proof fn lemma_records_push(slots: Seq<Slot>, slot: Slot)
    requires
        unique(slots),
        !holds(slots, slot_id(slot)),
    ensures
        unique(slots.push(slot)),
        records(slots.push(slot)) == records(slots).insert(slot_id(slot), slot_record(slot)),
{
    let more = slots.push(slot);
    assert forall|i: int, j: int| 0 <= i < j < more.len() implies slot_id(#[trigger] more[i])
        != slot_id(#[trigger] more[j]) by {
        if j == slots.len() {
            assert(more[i] == slots[i]);
            assert(more[j] == slot);
        } else {
            assert(more[i] == slots[i]);
            assert(more[j] == slots[j]);
        }
    }
    let a = records(more);
    let b = records(slots).insert(slot_id(slot), slot_record(slot));
    assert forall|id: EntryId| a.contains_key(id) <==> b.contains_key(id) by {
        if holds(more, id) {
            let i = index_of(more, id);
            if i < slots.len() {
                assert(more[i] == slots[i]);
            }
        }
        if holds(slots, id) {
            let i = index_of(slots, id);
            assert(more[i] == slots[i]);
        }
        if id == slot_id(slot) {
            assert(more[slots.len() as int] == slot);
        }
    }
    assert forall|id: EntryId| a.contains_key(id) implies a[id] == b[id] by {
        let i = index_of(more, id);
        lemma_index_of(more, i);
        if i < slots.len() {
            assert(more[i] == slots[i]);
            lemma_index_of(slots, i);
        }
    }
    assert(a =~= b);
}

proof fn lemma_records_update(slots: Seq<Slot>, i: int, slot: Slot)
    requires
        unique(slots),
        0 <= i < slots.len(),
        slot_id(slot) == slot_id(slots[i]),
    ensures
        unique(slots.update(i, slot)),
        records(slots.update(i, slot)) == records(slots).insert(slot_id(slot), slot_record(slot)),
{
    let next = slots.update(i, slot);
    assert forall|a: int, b: int| 0 <= a < b < next.len() implies slot_id(#[trigger] next[a])
        != slot_id(#[trigger] next[b]) by {
        assert(slot_id(next[a]) == slot_id(slots[a]));
        assert(slot_id(next[b]) == slot_id(slots[b]));
    }
    lemma_records_same_ids(slots, next);
    let a = records(next);
    let b = records(slots).insert(slot_id(slot), slot_record(slot));
    lemma_index_of(slots, i);
    assert forall|id: EntryId| a.contains_key(id) implies a[id] == b[id] by {
        let k = index_of(slots, id);
        lemma_index_of(slots, k);
        lemma_index_of(next, k);
    }
    assert(a =~= b);
}

/// Two lists with the same ids position by position hold the same ids, and
/// each id is found at the same position in both.
proof fn lemma_records_same_ids(before: Seq<Slot>, after: Seq<Slot>)
    requires
        unique(before),
        before.len() == after.len(),
        forall|k: int| 0 <= k < before.len() ==> slot_id(#[trigger] after[k]) == slot_id(before[k]),
    ensures
        unique(after),
        forall|id: EntryId| holds(after, id) <==> holds(before, id),
        forall|id: EntryId| holds(before, id) ==> index_of(after, id) == index_of(before, id),
        records(after).dom() == records(before).dom(),
{
    assert forall|a: int, b: int| 0 <= a < b < after.len() implies slot_id(#[trigger] after[a])
        != slot_id(#[trigger] after[b]) by {
        assert(slot_id(after[a]) == slot_id(before[a]));
        assert(slot_id(after[b]) == slot_id(before[b]));
        assert(slot_id(before[a]) != slot_id(before[b]));
    }
    assert forall|id: EntryId| holds(after, id) <==> holds(before, id) by {
        if holds(after, id) {
            let k = index_of(after, id);
            assert(slot_id(before[k]) == id);
        }
        if holds(before, id) {
            let k = index_of(before, id);
            assert(slot_id(after[k]) == id);
        }
    }
    assert forall|id: EntryId| holds(before, id) implies index_of(after, id) == index_of(
        before,
        id,
    ) by {
        let k = index_of(before, id);
        assert(slot_id(after[k]) == id);
        lemma_index_of(after, k);
    }
    assert(records(after).dom() =~= records(before).dom());
}

/// The store that holds the first `upto` slots only.
spec fn prefix_store(slots: Seq<Slot>, upto: int) -> StoreView {
    StoreView { src: Seq::empty(), entries: records(slots.take(upto)), committed: Map::empty() }
}

proof fn lemma_prefix_step(slots: Seq<Slot>, i: int)
    requires
        unique(slots),
        0 <= i < slots.len(),
    ensures
        unique(slots.take(i)),
        !holds(slots.take(i), slot_id(slots[i])),
        records(slots.take(i + 1)) == records(slots.take(i)).insert(
            slot_id(slots[i]),
            slot_record(slots[i]),
        ),
{
    let head = slots.take(i);
    assert forall|a: int, b: int| 0 <= a < b < head.len() implies slot_id(#[trigger] head[a])
        != slot_id(#[trigger] head[b]) by {
        assert(head[a] == slots[a] && head[b] == slots[b]);
    }
    if holds(head, slot_id(slots[i])) {
        let k = index_of(head, slot_id(slots[i]));
        assert(head[k] == slots[k]);
        assert(slot_id(slots[k]) != slot_id(slots[i]));
    }
    lemma_records_push(head, slots[i]);
    assert(head.push(slots[i]) =~= slots.take(i + 1));
}

proof fn lemma_records_len(slots: Seq<Slot>)
    requires
        unique(slots),
    ensures
        records(slots).dom().finite(),
        records(slots).dom().len() == slots.len(),
    decreases slots.len(),
{
    if slots.len() == 0 {
        assert(records(slots).dom() =~= Set::<EntryId>::empty());
    } else {
        let i = slots.len() - 1;
        lemma_prefix_step(slots, i);
        lemma_records_len(slots.take(i));
        assert(slots.take(i + 1) =~= slots);
        assert(records(slots).dom() =~= records(slots.take(i)).dom().insert(slot_id(slots[i])));
    }
}

impl View for LogStore {
    type V = StoreView;

    closed spec fn view(&self) -> StoreView {
        StoreView { src: self.src@, entries: records(self.slots@), committed: self.offsets@ }
    }
}

impl LogStore {
    /// No two held entries share a key and an offset, and no held entry
    /// names a node twice as having seen it.
    pub closed spec fn wf(&self) -> bool {
        unique(self.slots@) && seen_once(self.slots@)
    }

    /// An empty store owned by node `src`.
    pub fn new(src: &str) -> (store: Self)
        ensures
            store.wf(),
            store@ == StoreView::empty(src@),
    {
        let store = LogStore { src: src.to_owned(), slots: Vec::new(), offsets: StringHashMap::new() };
        assert(store@.entries =~= Map::<EntryId, Record>::empty());
        store
    }

    /// Names the node that owns the store; what it holds is kept.
    pub fn init(&mut self, src: &str)
        requires
            old(self).wf(),
        ensures
            final(self).wf(),
            final(self)@ == (StoreView { src: src@, ..old(self)@ }),
    {
        self.src = src.to_owned();
    }

    /// The position of the entry `(key, offset)`, if it is held.
    fn find(&self, key: &String, offset: usize) -> (found: Option<usize>)
        ensures
            match found {
                Some(i) => i < self.slots.len() && slot_id(self.slots[i as int]) == (key@, offset),
                None => !holds(self.slots@, (key@, offset)),
            },
    {
        let mut i: usize = 0;
        while i < self.slots.len()
            invariant
                i <= self.slots.len(),
                forall|j: int| 0 <= j < i ==> slot_id(#[trigger] self.slots[j]) != (key@, offset),
            decreases self.slots.len() - i,
        {
            if self.slots[i].entry.offset == offset && self.slots[i].entry.key == *key {
                return Some(i);
            }
            i += 1;
        }
        None
    }

    /// Merges one incoming entry that arrived in `tier`.
    pub fn merge_entry(&mut self, entry: LogEntry, tier: LogTier)
        requires
            old(self).wf(),
        ensures
            final(self).wf(),
            final(self)@ == old(self)@.merge_one(entry@, tier),
    {
        match self.find(&entry.key, entry.offset) {
            Some(i) => {
                let ghost before = self.slots@;
                union_names(&mut self.slots[i].entry.seen_by, &entry.seen_by);
                proof {
                    lemma_index_of(before, i as int);
                    lemma_records_update(before, i as int, self.slots@[i as int]);
                    assert(self.slots@ =~= before.update(i as int, self.slots@[i as int]));
                    assert forall|k: int| 0 <= k < self.slots@.len() implies distinct_names(
                        (#[trigger] self.slots@[k]).entry.seen_by@,
                    ) by {
                        if k != i {
                            assert(self.slots@[k] == before[k]);
                        }
                    }
                }
            },
            None => {
                let mut seen_by: Vec<String> = Vec::new();
                union_names(&mut seen_by, &entry.seen_by);
                let slot = Slot {
                    entry: LogEntry {
                        msg_id: entry.msg_id,
                        key: entry.key,
                        offset: entry.offset,
                        msg: entry.msg,
                        seen_by,
                    },
                    tier,
                };
                proof {
                    crate::names::lemma_name_set_empty();
                    assert(name_set(slot.entry.seen_by@) =~= name_set(entry.seen_by@));
                    lemma_records_push(self.slots@, slot);
                }
                let ghost before = self.slots@;
                self.slots.push(slot);
                proof {
                    assert forall|k: int| 0 <= k < self.slots@.len() implies distinct_names(
                        (#[trigger] self.slots@[k]).entry.seen_by@,
                    ) by {
                        if k < before.len() {
                            assert(self.slots@[k] == before[k]);
                        }
                    }
                }
            },
        }
    }

    /// Merges incoming entries that arrived in `tier`, first to last: an
    /// entry already held gains the incoming `seen_by` and keeps its tier; a
    /// new entry enters `tier`.
    pub fn merge_incoming(&mut self, entries: &Vec<LogEntry>, tier: LogTier)
        requires
            old(self).wf(),
        ensures
            final(self).wf(),
            final(self)@ == old(self)@.merge(entry_views(entries@), tier),
    {
        let mut i: usize = 0;
        proof {
            assert(entry_views(entries@).take(0) =~= Seq::<LogEntryView>::empty());
        }
        while i < entries.len()
            invariant
                i <= entries.len(),
                self.wf(),
                self@ == old(self)@.merge(entry_views(entries@).take(i as int), tier),
            decreases entries.len() - i,
        {
            proof {
                let upto = entry_views(entries@).take(i + 1);
                assert(upto.drop_last() =~= entry_views(entries@).take(i as int));
                assert(upto.last() == entries@[i as int]@);
            }
            self.merge_entry(entries[i].clone(), tier);
            i += 1;
        }
        proof {
            assert(entry_views(entries@).take(entries.len() as int) =~= entry_views(entries@));
        }
    }

    /// Takes in an entry pushed by another node: it enters the uncommitted
    /// tier unless it is held already.
    pub fn insert(&mut self, log_entry: LogEntry)
        requires
            old(self).wf(),
        ensures
            final(self).wf(),
            final(self)@ == old(self)@.merge_one(log_entry@, LogTier::Uncommitted),
    {
        self.merge_entry(log_entry, LogTier::Uncommitted)
    }

    /// Appends a message written at this node under the offset that the
    /// offset service assigned, and returns the new entry.
    pub fn append(&mut self, key: &str, msg_id: usize, offset: usize, msg: usize) -> (entry: LogEntry)
        requires
            old(self).wf(),
        ensures
            final(self).wf(),
            final(self)@ == old(self)@.append(key@, msg_id, offset, msg),
            entry@ == (LogEntryView {
                msg_id,
                key: key@,
                offset,
                msg,
                seen_by: set![old(self)@.src],
            }),
    {
        let mut seen_by: Vec<String> = Vec::new();
        seen_by.push(self.src.clone());
        let entry = LogEntry { msg_id, key: key.to_owned(), offset, msg, seen_by };
        proof {
            assert(entry@.seen_by =~= set![self@.src]) by {
                assert(entry.seen_by@[0]@ == self.src@);
            }
        }
        self.merge_entry(entry.clone(), LogTier::Uncommitted);
        entry
    }

    /// Whether an entry of `key` is held.
    pub fn has_key(&self, key: &str) -> (held: bool)
        ensures
            held == self@.has_key(key@),
    {
        let wanted = key.to_owned();
        let mut i: usize = 0;
        while i < self.slots.len()
            invariant
                i <= self.slots.len(),
                wanted@ == key@,
                forall|j: int| 0 <= j < i ==> slot_id(#[trigger] self.slots[j]).0 != key@,
            decreases self.slots.len() - i,
        {
            if self.slots[i].entry.key == wanted {
                proof {
                    let at = self.slots[i as int].entry.offset;
                    assert(slot_id(self.slots@[i as int]) == (key@, at));
                    assert(holds(self.slots@, (key@, at)));
                    assert(self@.entries.contains_key((key@, at)));
                }
                return true;
            }
            i += 1;
        }
        proof {
            assert forall|offset: usize| !self@.entries.contains_key((key@, offset)) by {
                if holds(self.slots@, (key@, offset)) {
                    let k = index_of(self.slots@, (key@, offset));
                    assert(slot_id(self.slots[k]).0 == key@);
                }
            }
        }
        false
    }

    /// The `(offset, value)` pairs of the entries of `key` at or above
    /// `offset`, in every tier, by ascending offset.
    pub fn list_from(&self, key: &str, offset: usize) -> (list: Vec<(usize, usize)>)
        requires
            self.wf(),
        ensures
            self@.is_listing(key@, offset, list@),
    {
        let wanted = key.to_owned();
        let mut list: Vec<(usize, usize)> = Vec::new();
        let mut i: usize = 0;
        proof {
            assert(records(self.slots@.take(0)) =~= Map::<EntryId, Record>::empty());
        }
        while i < self.slots.len()
            invariant
                i <= self.slots.len(),
                self.wf(),
                wanted@ == key@,
                prefix_store(self.slots@, i as int).is_listing(key@, offset, list@),
            decreases self.slots.len() - i,
        {
            proof {
                lemma_prefix_step(self.slots@, i as int);
            }
            let ghost head = prefix_store(self.slots@, i as int);
            let ghost record = slot_record(self.slots@[i as int]);
            if self.slots[i].entry.offset >= offset && self.slots[i].entry.key == wanted {
                let at = self.slots[i].entry.offset;
                let msg = self.slots[i].entry.msg;
                let mut j: usize = 0;
                while j < list.len() && list[j].0 < at
                    invariant
                        j <= list.len(),
                        forall|a: int| 0 <= a < j ==> list[a].0 < at,
                    decreases list.len() - j,
                {
                    j += 1;
                }
                proof {
                    head.lemma_listing_insert(key@, offset, list@, at, record, j as int);
                }
                list.insert(j, (at, msg));
            } else {
                proof {
                    head.lemma_listing_skip(
                        key@,
                        offset,
                        list@,
                        slot_id(self.slots@[i as int]),
                        record,
                    );
                }
            }
            i += 1;
        }
        proof {
            assert(self.slots@.take(self.slots.len() as int) =~= self.slots@);
        }
        list
    }

    /// Answers a poll: for each `(key, offset)` request that names a key
    /// the store holds, the key with its listing from that offset.
    pub fn list_logs(&self, keys: &Vec<(String, usize)>) -> (logs: Vec<(String, Vec<(usize, usize)>)>)
        requires
            self.wf(),
        ensures
            self@.is_poll_result(pair_views(keys@), listing_views(logs@)),
    {
        let mut logs: Vec<(String, Vec<(usize, usize)>)> = Vec::new();
        let mut i: usize = 0;
        proof {
            assert(pair_views(keys@).take(0) =~= Seq::<EntryId>::empty());
        }
        while i < keys.len()
            invariant
                i <= keys.len(),
                self.wf(),
                self@.is_poll_result(pair_views(keys@).take(i as int), listing_views(logs@)),
            decreases keys.len() - i,
        {
            let ghost requests = pair_views(keys@).take(i as int);
            let ghost upto = pair_views(keys@).take(i + 1);
            proof {
                assert(upto.drop_last() =~= requests);
                assert(upto.last() == (keys@[i as int].0@, keys@[i as int].1));
            }
            if self.has_key(keys[i].0.as_str()) {
                let list = self.list_from(keys[i].0.as_str(), keys[i].1);
                let ghost before = listing_views(logs@);
                logs.push((keys[i].0.clone(), list));
                proof {
                    let known = self@.known_requests(upto);
                    let result = listing_views(logs@);
                    assert(known == self@.known_requests(requests).push(upto.last()));
                    assert forall|a: int| 0 <= a < result.len() implies (#[trigger] result[a]).0
                        == known[a].0 && self@.is_listing(known[a].0, known[a].1, result[a].1) by {
                        if a < before.len() {
                            assert(result[a] == before[a]);
                        }
                    }
                }
            }
            i += 1;
        }
        proof {
            assert(pair_views(keys@).take(keys.len() as int) =~= pair_views(keys@));
        }
        logs
    }

    /// How many entries of `key` are in the committed tier.
    pub fn committed_count(&self, key: &str) -> (count: usize)
        requires
            self.wf(),
        ensures
            count == self@.committed_count(key@),
    {
        let wanted = key.to_owned();
        let mut count: usize = 0;
        let mut i: usize = 0;
        proof {
            assert(records(self.slots@.take(0)) =~= Map::<EntryId, Record>::empty());
            prefix_store(self.slots@, 0).lemma_tier_ids_empty(key@, LogTier::Committed);
        }
        while i < self.slots.len()
            invariant
                i <= self.slots.len(),
                count <= i,
                self.wf(),
                wanted@ == key@,
                prefix_store(self.slots@, i as int).tier_ids(key@, LogTier::Committed).finite(),
                count == prefix_store(self.slots@, i as int).committed_count(key@),
            decreases self.slots.len() - i,
        {
            proof {
                lemma_prefix_step(self.slots@, i as int);
                prefix_store(self.slots@, i as int).lemma_tier_ids_insert(
                    key@,
                    LogTier::Committed,
                    slot_id(self.slots@[i as int]),
                    slot_record(self.slots@[i as int]),
                );
            }
            if self.slots[i].tier == LogTier::Committed && self.slots[i].entry.key == wanted {
                count += 1;
            }
            i += 1;
        }
        proof {
            assert(self.slots@.take(self.slots.len() as int) =~= self.slots@);
            assert(self@.tier_ids(key@, LogTier::Committed) =~= prefix_store(
                self.slots@,
                self.slots.len() as int,
            ).tier_ids(key@, LogTier::Committed));
        }
        count
    }

    /// For each key of `keys` that has entries in the committed tier, or
    /// for which a commit took effect here, the key with the number of its
    /// committed entries. A key of which neither holds is left out.
    pub fn list_committed_offsets(&self, keys: &Vec<String>) -> (counts: Vec<(String, usize)>)
        requires
            self.wf(),
        ensures
            count_views(counts@) == self@.committed_counts(name_seq(keys@)),
    {
        let mut counts: Vec<(String, usize)> = Vec::new();
        let mut i: usize = 0;
        proof {
            assert(name_seq(keys@).take(0) =~= Seq::<Seq<char>>::empty());
            assert(count_views(counts@) =~= Seq::<(Seq<char>, nat)>::empty());
        }
        while i < keys.len()
            invariant
                i <= keys.len(),
                self.wf(),
                count_views(counts@) == self@.committed_counts(name_seq(keys@).take(i as int)),
            decreases keys.len() - i,
        {
            proof {
                let upto = name_seq(keys@).take(i + 1);
                assert(upto.drop_last() =~= name_seq(keys@).take(i as int));
                assert(upto.last() == keys@[i as int]@);
            }
            let count = self.committed_count(keys[i].as_str());
            if count > 0 || self.offsets.contains_key(keys[i].as_str()) {
                let ghost before = count_views(counts@);
                counts.push((keys[i].clone(), count));
                proof {
                    assert(count_views(counts@) =~= before.push((keys@[i as int]@, count as nat)));
                }
            }
            i += 1;
        }
        proof {
            assert(name_seq(keys@).take(keys.len() as int) =~= name_seq(keys@));
        }
        counts
    }

    /// A batch of at most `cap` entries in `tier` whose identity is not in
    /// `known`, each as the store holds it.
    pub fn pending(&self, tier: LogTier, known: &Vec<(String, usize)>, cap: usize) -> (delta: Vec<
        LogEntry,
    >)
        requires
            self.wf(),
        ensures
            self@.is_delta(tier, id_set(known@), cap as nat, entry_views(delta@)),
            forall|i: int| 0 <= i < delta.len() ==> distinct_names((#[trigger] delta[i]).seen_by@),
    {
        let mut delta: Vec<LogEntry> = Vec::new();
        let ghost mut picked: Seq<int> = Seq::empty();
        let mut i: usize = 0;
        while i < self.slots.len() && delta.len() < cap
            invariant
                i <= self.slots.len(),
                self.wf(),
                delta.len() <= cap,
                picked.len() == delta.len(),
                forall|d: int| 0 <= d < picked.len() ==> 0 <= #[trigger] picked[d] < i,
                forall|c: int, d: int| 0 <= c < d < picked.len() ==> picked[c] < picked[d],
                forall|d: int|
                    0 <= d < picked.len() ==> (#[trigger] delta[d])@ == self.slots[picked[d]].entry@,
                forall|d: int| 0 <= d < delta.len() ==> distinct_names((#[trigger] delta[d]).seen_by@),
                forall|d: int|
                    0 <= d < picked.len() ==> self.slots[#[trigger] picked[d]].tier == tier
                        && !id_set(known@).contains(slot_id(self.slots[picked[d]])),
                forall|k: int|
                    0 <= k < i && (#[trigger] self.slots[k]).tier == tier && !id_set(known@).contains(
                        slot_id(self.slots[k]),
                    ) ==> exists|d: int| 0 <= d < picked.len() && #[trigger] picked[d] == k,
            decreases self.slots.len() - i,
        {
            if self.slots[i].tier == tier && !holds_pair(
                known,
                &self.slots[i].entry.key,
                self.slots[i].entry.offset,
            ) {
                let ghost sent = delta@;
                let ghost before = picked;
                delta.push(self.slots[i].entry.clone());
                proof {
                    picked = picked.push(i as int);
                }
                assert forall|d: int| 0 <= d < picked.len() implies (#[trigger] delta[d])@
                    == self.slots[picked[d]].entry@ by {
                    if d < before.len() {
                        assert(delta[d] == sent[d]);
                        assert(picked[d] == before[d]);
                    }
                }
                assert forall|d: int| 0 <= d < delta.len() implies distinct_names(
                    (#[trigger] delta[d]).seen_by@,
                ) by {
                    if d < sent.len() {
                        assert(delta[d] == sent[d]);
                    } else {
                        assert(distinct_names(self.slots@[i as int].entry.seen_by@));
                    }
                }
                assert forall|d: int| 0 <= d < picked.len() implies self.slots[
                #[trigger] picked[d]].tier == tier && !id_set(known@).contains(
                    slot_id(self.slots[picked[d]]),
                ) by {
                    if d < before.len() {
                        assert(picked[d] == before[d]);
                    }
                }
                assert forall|k: int|
                    0 <= k < i + 1 && (#[trigger] self.slots[k]).tier == tier && !id_set(
                        known@,
                    ).contains(slot_id(self.slots[k])) implies exists|d: int|
                    0 <= d < picked.len() && #[trigger] picked[d] == k by {
                    if k == i {
                        assert(picked[before.len() as int] == k);
                    } else {
                        let d = choose|d: int| 0 <= d < before.len() && #[trigger] before[d] == k;
                        assert(picked[d] == k);
                    }
                }
            }
            i += 1;
        }
        proof {
            let views = entry_views(delta@);
            let waiting = self@.pending(tier, id_set(known@));
            assert forall|d: int| 0 <= d < views.len() implies waiting.contains(
                (#[trigger] views[d]).id(),
            ) && views[d] == self@.entry(views[d].id()) by {
                lemma_index_of(self.slots@, picked[d]);
                assert(views[d] == delta[d]@);
            }
            assert forall|c: int, d: int| 0 <= c < d < views.len() implies (#[trigger] views[c]).id()
                != (#[trigger] views[d]).id() by {
                assert(views[c] == delta[c]@ && views[d] == delta[d]@);
                assert(slot_id(self.slots[picked[c]]) != slot_id(self.slots[picked[d]]));
            }
            if delta.len() < cap {
                assert forall|id: EntryId| #[trigger] waiting.contains(id) implies exists|d: int|
                    0 <= d < views.len() && (#[trigger] views[d]).id() == id by {
                    let k = index_of(self.slots@, id);
                    lemma_index_of(self.slots@, k);
                    let d = choose|d: int| 0 <= d < picked.len() && #[trigger] picked[d] == k;
                    assert(views[d] == delta[d]@);
                }
            }
        }
        delta
    }

    /// The id of the node that owns the store.
    pub fn src(&self) -> (src: &str)
        ensures
            src@ == self@.src,
    {
        self.src.as_str()
    }

    /// How many entries the store holds, over all tiers.
    pub fn len(&self) -> (len: usize)
        requires
            self.wf(),
        ensures
            self@.entries.dom().finite(),
            len == self@.entries.dom().len(),
    {
        proof {
            lemma_records_len(self.slots@);
        }
        self.slots.len()
    }

    /// The tier of the entry `(key, offset)`, if it is held.
    pub fn tier_of(&self, key: &str, offset: usize) -> (tier: Option<LogTier>)
        requires
            self.wf(),
        ensures
            tier == (if self@.entries.contains_key((key@, offset)) {
                Some(self@.entries[(key@, offset)].tier)
            } else {
                None
            }),
    {
        let wanted = key.to_owned();
        match self.find(&wanted, offset) {
            Some(i) => {
                proof {
                    lemma_index_of(self.slots@, i as int);
                }
                Some(self.slots[i].tier)
            },
            None => None,
        }
    }

    /// The entry `(key, offset)` as the store holds it, if it is held.
    pub fn get(&self, key: &str, offset: usize) -> (entry: Option<LogEntry>)
        requires
            self.wf(),
        ensures
            match entry {
                Some(entry) => self@.entries.contains_key((key@, offset)) && entry@ == self@.entry(
                    (key@, offset),
                ) && distinct_names(entry.seen_by@),
                None => !self@.entries.contains_key((key@, offset)),
            },
    {
        let wanted = key.to_owned();
        match self.find(&wanted, offset) {
            Some(i) => {
                proof {
                    lemma_index_of(self.slots@, i as int);
                }
                Some(self.slots[i].entry.clone())
            },
            None => None,
        }
    }

    /// The offset committed for `key`, if any commit for the key took effect.
    pub fn committed_offset(&self, key: &str) -> (offset: Option<usize>)
        ensures
            offset == (if self@.committed.contains_key(key@) {
                Some(self@.committed[key@])
            } else {
                None
            }),
    {
        match self.offsets.get(key) {
            Some(offset) => Some(*offset),
            None => None,
        }
    }

    /// Commits one key up to `offset`; a commit below the key's committed
    /// offset changes nothing.
    pub fn commit_one(&mut self, key: &str, offset: usize)
        requires
            old(self).wf(),
        ensures
            final(self).wf(),
            final(self)@ == old(self)@.commit_one(key@, offset),
    {
        let applies = match self.offsets.get(key) {
            Some(committed) => *committed <= offset,
            None => true,
        };
        if !applies {
            return ;
        }
        let key = key.to_owned();
        let ghost before = self.slots@;
        let mut i: usize = 0;
        while i < self.slots.len()
            invariant
                i <= self.slots.len(),
                self.slots.len() == before.len(),
                self.src == old(self).src,
                self.offsets == old(self).offsets,
                forall|k: int|
                    0 <= k < before.len() ==> slot_id(#[trigger] self.slots[k]) == slot_id(before[k]),
                forall|k: int|
                    0 <= k < i ==> slot_record(#[trigger] self.slots[k]) == (if slot_id(before[k]).0
                        == key@ && slot_id(before[k]).1 <= offset && before[k].tier
                        == LogTier::Uncommitted {
                        slot_record(before[k]).in_tier(LogTier::Committed)
                    } else {
                        slot_record(before[k])
                    }),
                forall|k: int| i <= k < before.len() ==> #[trigger] self.slots[k] == before[k],
                seen_once(self.slots@),
            decreases self.slots.len() - i,
        {
            if self.slots[i].entry.offset <= offset && self.slots[i].tier == LogTier::Uncommitted
                && self.slots[i].entry.key == key {
                self.slots[i].tier = LogTier::Committed;
            }
            i += 1;
        }
        self.offsets.insert(key, offset);
        proof {
            lemma_records_same_ids(before, self.slots@);
            let target = old(self)@.commit_one(key@, offset);
            assert forall|id: EntryId| self@.entries.contains_key(id) implies self@.entries[id]
                == target.entries[id] by {
                let k = index_of(before, id);
                lemma_index_of(before, k);
                lemma_index_of(self.slots@, k);
            }
            assert(self@.entries =~= target.entries);
        }
    }

    /// Commits each `(key, offset)` pair, first to last: the key's
    /// uncommitted entries at or below the offset become committed and the
    /// offset is recorded, unless the offset lies below what is committed
    /// for the key already.
    pub fn commit(&mut self, offsets: &Vec<(String, usize)>)
        requires
            old(self).wf(),
        ensures
            final(self).wf(),
            final(self)@ == old(self)@.commit(pair_views(offsets@)),
    {
        let mut i: usize = 0;
        proof {
            assert(pair_views(offsets@).take(0) =~= Seq::<EntryId>::empty());
        }
        while i < offsets.len()
            invariant
                i <= offsets.len(),
                self.wf(),
                self@ == old(self)@.commit(pair_views(offsets@).take(i as int)),
            decreases offsets.len() - i,
        {
            proof {
                let upto = pair_views(offsets@).take(i + 1);
                assert(upto.drop_last() =~= pair_views(offsets@).take(i as int));
                assert(upto.last() == (offsets@[i as int].0@, offsets@[i as int].1));
            }
            self.commit_one(offsets[i].0.as_str(), offsets[i].1);
            i += 1;
        }
        proof {
            assert(pair_views(offsets@).take(offsets.len() as int) =~= pair_views(offsets@));
        }
    }

    /// Moves every entry that the whole of `cluster` has seen to the
    /// anchored tier.
    pub fn anchor(&mut self, cluster: &Vec<String>)
        requires
            old(self).wf(),
        ensures
            final(self).wf(),
            final(self)@ == old(self)@.anchor(name_set(cluster@)),
    {
        let ghost before = self.slots@;
        let ghost all = name_set(cluster@);
        let mut i: usize = 0;
        while i < self.slots.len()
            invariant
                i <= self.slots.len(),
                self.slots.len() == before.len(),
                self.src == old(self).src,
                self.offsets == old(self).offsets,
                all == name_set(cluster@),
                forall|k: int|
                    0 <= k < before.len() ==> slot_id(#[trigger] self.slots[k]) == slot_id(before[k]),
                forall|k: int|
                    0 <= k < i ==> slot_record(#[trigger] self.slots[k]) == (if all.subset_of(
                        slot_record(before[k]).seen_by,
                    ) {
                        slot_record(before[k]).in_tier(LogTier::Anchored)
                    } else {
                        slot_record(before[k])
                    }),
                forall|k: int| i <= k < before.len() ==> #[trigger] self.slots[k] == before[k],
                seen_once(self.slots@),
            decreases self.slots.len() - i,
        {
            if contains_all(&self.slots[i].entry.seen_by, cluster) {
                self.slots[i].tier = LogTier::Anchored;
            }
            i += 1;
        }
        proof {
            lemma_records_same_ids(before, self.slots@);
            let target = old(self)@.anchor(all);
            assert forall|id: EntryId| self@.entries.contains_key(id) implies self@.entries[id]
                == target.entries[id] by {
                let k = index_of(before, id);
                lemma_index_of(before, k);
                lemma_index_of(self.slots@, k);
            }
            assert(self@.entries =~= target.entries);
        }
    }

    /// Records that `node` holds each of `entries` that the store holds.
    pub fn mark_seen(&mut self, entries: &Vec<LogEntry>, node: &String)
        requires
            old(self).wf(),
        ensures
            final(self).wf(),
            final(self)@ == old(self)@.mark_seen(entry_ids(entry_views(entries@)), node@),
    {
        let ghost before = self.slots@;
        let ghost ids = entry_ids(entry_views(entries@));
        let mut i: usize = 0;
        while i < self.slots.len()
            invariant
                i <= self.slots.len(),
                self.slots.len() == before.len(),
                self.src == old(self).src,
                self.offsets == old(self).offsets,
                ids == entry_ids(entry_views(entries@)),
                forall|k: int|
                    0 <= k < before.len() ==> slot_id(#[trigger] self.slots[k]) == slot_id(before[k]),
                forall|k: int|
                    0 <= k < i ==> slot_record(#[trigger] self.slots[k]) == (if ids.contains(
                        slot_id(before[k]),
                    ) {
                        slot_record(before[k]).seen_also_by(set![node@])
                    } else {
                        slot_record(before[k])
                    }),
                forall|k: int| i <= k < before.len() ==> #[trigger] self.slots[k] == before[k],
                seen_once(self.slots@),
            decreases self.slots.len() - i,
        {
            if holds_entry(entries, &self.slots[i].entry.key, self.slots[i].entry.offset) {
                let ghost seen = name_set(self.slots[i as int].entry.seen_by@);
                insert_name(&mut self.slots[i].entry.seen_by, node);
                proof {
                    assert(seen.insert(node@) =~= seen.union(set![node@]));
                }
            }
            i += 1;
        }
        proof {
            lemma_records_same_ids(before, self.slots@);
            let target = old(self)@.mark_seen(ids, node@);
            assert forall|id: EntryId| self@.entries.contains_key(id) implies self@.entries[id]
                == target.entries[id] by {
                let k = index_of(before, id);
                lemma_index_of(before, k);
                lemma_index_of(self.slots@, k);
            }
            assert(self@.entries =~= target.entries);
        }
    }
}

/// Whether the list holds the pair `(key, offset)`.
pub fn holds_pair(pairs: &Vec<(String, usize)>, key: &String, offset: usize) -> (found: bool)
    ensures
        found == id_set(pairs@).contains((key@, offset)),
{
    let mut i: usize = 0;
    while i < pairs.len()
        invariant
            i <= pairs.len(),
            forall|j: int|
                0 <= j < i ==> !((#[trigger] pairs[j]).0@ == key@ && pairs[j].1 == offset),
        decreases pairs.len() - i,
    {
        if pairs[i].1 == offset && pairs[i].0 == *key {
            return true;
        }
        i += 1;
    }
    false
}

/// Whether the list holds an entry with this key and offset.
pub fn holds_entry(entries: &Vec<LogEntry>, key: &String, offset: usize) -> (found: bool)
    ensures
        found == entry_ids(entry_views(entries@)).contains((key@, offset)),
{
    let mut i: usize = 0;
    while i < entries.len()
        invariant
            i <= entries.len(),
            forall|j: int| 0 <= j < i ==> (#[trigger] entry_views(entries@)[j]).id() != (key@, offset),
        decreases entries.len() - i,
    {
        if entries[i].offset == offset && entries[i].key == *key {
            assert(entry_views(entries@)[i as int].id() == (key@, offset));
            return true;
        }
        i += 1;
    }
    false
}

} // verus!
