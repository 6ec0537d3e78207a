//! Log entries and the tiers they move through.
use crate::names::{clone_names, name_set};
use vstd::prelude::*;

verus! {

/// The stage of replication a log entry has reached. An entry only ever
/// moves forward: uncommitted, then committed, then anchored.
#[derive(Clone, Copy, Debug, PartialEq, Eq, Structural)]
pub enum LogTier {
    Uncommitted,
    Committed,
    Anchored,
}

impl LogTier {
    /// Position of the tier in the one-way lifecycle.
    pub open spec fn rank(self) -> nat {
        match self {
            LogTier::Uncommitted => 0,
            LogTier::Committed => 1,
            LogTier::Anchored => 2,
        }
    }
}

/// What identifies an entry: its key and its offset under that key.
pub type EntryId = (Seq<char>, usize);

/// One message of a key's log, with the nodes known to hold it.
#[derive(Debug)]
pub struct LogEntry {
    pub msg_id: usize,
    pub key: String,
    pub offset: usize,
    pub msg: usize,
    pub seen_by: Vec<String>,
}

/// A log entry as specifications see it; `seen_by` is a set.
pub struct LogEntryView {
    pub msg_id: usize,
    pub key: Seq<char>,
    pub offset: usize,
    pub msg: usize,
    pub seen_by: Set<Seq<char>>,
}

impl LogEntryView {
    /// The identity under which entries are deduplicated.
    pub open spec fn id(self) -> EntryId {
        (self.key, self.offset)
    }

    /// The same entry, also seen by `node`.
    pub open spec fn stamped(self, node: Seq<char>) -> LogEntryView {
        LogEntryView { seen_by: self.seen_by.insert(node), ..self }
    }
}

impl View for LogEntry {
    type V = LogEntryView;

    open spec fn view(&self) -> LogEntryView {
        LogEntryView {
            msg_id: self.msg_id,
            key: self.key@,
            offset: self.offset,
            msg: self.msg,
            seen_by: name_set(self.seen_by@),
        }
    }
}

impl Clone for LogEntry {
    fn clone(&self) -> (copy: Self)
        ensures
            copy@ == self@,
            copy.seen_by@ == self.seen_by@,
    {
        LogEntry {
            msg_id: self.msg_id,
            key: self.key.clone(),
            offset: self.offset,
            msg: self.msg,
            seen_by: clone_names(&self.seen_by),
        }
    }
}

impl LogEntry {
    /// An entry with these parts.
    pub fn new(msg_id: usize, key: String, offset: usize, msg: usize, seen_by: Vec<String>) -> (entry:
        Self)
        ensures
            entry == (LogEntry { msg_id, key, offset, msg, seen_by }),
    {
        LogEntry { msg_id, key, offset, msg, seen_by }
    }

    /// Whether both entries are the same logical entry: same key, same offset.
    pub fn same_entry(&self, other: &LogEntry) -> (same: bool)
        ensures
            same == (self@.id() == other@.id()),
    {
        self.offset == other.offset && self.key == other.key
    }
}

/// The views of a list of entries, in order.
pub open spec fn entry_views(entries: Seq<LogEntry>) -> Seq<LogEntryView> {
    Seq::new(entries.len(), |i: int| entries[i]@)
}

/// A list of `(key, offset)` pairs as specifications see it.
pub open spec fn pair_views(pairs: Seq<(String, usize)>) -> Seq<EntryId> {
    Seq::new(pairs.len(), |i: int| (pairs[i].0@, pairs[i].1))
}

/// The identities that a list of `(key, offset)` pairs names.
pub open spec fn id_set(pairs: Seq<(String, usize)>) -> Set<EntryId> {
    Set::new(
        |id: EntryId| exists|i: int| 0 <= i < pairs.len() && (#[trigger] pairs[i]).0@ == id.0 && pairs[i].1 == id.1,
    )
}

/// The identities of a list of entries.
pub open spec fn entry_ids(entries: Seq<LogEntryView>) -> Set<EntryId> {
    Set::new(|id: EntryId| exists|i: int| 0 <= i < entries.len() && (#[trigger] entries[i]).id() == id)
}

/// The answer to a poll as specifications see it: a key and its listing.
pub open spec fn listing_views(result: Seq<(String, Vec<(usize, usize)>)>) -> Seq<
    (Seq<char>, Seq<(usize, usize)>),
> {
    Seq::new(result.len(), |i: int| (result[i].0@, result[i].1@))
}

/// A list of keys with a count each as specifications see it.
pub open spec fn count_views(counts: Seq<(String, usize)>) -> Seq<(Seq<char>, nat)> {
    Seq::new(counts.len(), |i: int| (counts[i].0@, counts[i].1 as nat))
}

} // verus!
