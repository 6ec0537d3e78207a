//! What a node believes each neighbour holds already: for every
//! neighbour, the identities of the entries that were sent to it or that
//! came from it. It is a best guess, not an acknowledgment.
use crate::log_entry::{entry_ids, entry_views, id_set, EntryId, LogEntry};
use crate::log_store::holds_pair;
use crate::names::name_set;
use vstd::prelude::*;

verus! {

/// One neighbour and the entries it is believed to hold.
struct Peer {
    node: String,
    known: Vec<(String, usize)>,
}

/// The beliefs of one node about all its neighbours.
pub struct PeerKnowledge {
    peers: Vec<Peer>,
}

spec fn listed(peers: Seq<Peer>, node: Seq<char>) -> bool {
    exists|i: int| 0 <= i < peers.len() && (#[trigger] peers[i]).node@ == node
}

spec fn place_of(peers: Seq<Peer>, node: Seq<char>) -> int {
    choose|i: int| 0 <= i < peers.len() && (#[trigger] peers[i]).node@ == node
}

spec fn distinct(peers: Seq<Peer>) -> bool {
    forall|i: int, j: int|
        0 <= i < j < peers.len() ==> (#[trigger] peers[i]).node@ != (#[trigger] peers[j]).node@
}

/// Whether no pair occurs twice in the list.
pub open spec fn pairs_once(pairs: Seq<(String, usize)>) -> bool {
    forall|i: int, j: int|
        0 <= i < j < pairs.len() ==> !((#[trigger] pairs[i]).0@ == (#[trigger] pairs[j]).0@
            && pairs[i].1 == pairs[j].1)
}

spec fn known_once(peers: Seq<Peer>) -> bool {
    forall|i: int| 0 <= i < peers.len() ==> pairs_once((#[trigger] peers[i]).known@)
}

spec fn beliefs(peers: Seq<Peer>) -> Map<Seq<char>, Set<EntryId>> {
    Map::new(
        |node: Seq<char>| listed(peers, node),
        |node: Seq<char>| id_set(peers[place_of(peers, node)].known@),
    )
}

proof fn lemma_place_of(peers: Seq<Peer>, i: int)
    requires
        distinct(peers),
        0 <= i < peers.len(),
    ensures
        listed(peers, peers[i].node@),
        place_of(peers, peers[i].node@) == i,
        beliefs(peers).contains_key(peers[i].node@),
        beliefs(peers)[peers[i].node@] == id_set(peers[i].known@),
{
    let node = peers[i].node@;
    assert(listed(peers, node));
    let j = place_of(peers, node);
    if j < i {
        assert(peers[j].node@ != peers[i].node@);
    } else if i < j {
        assert(peers[i].node@ != peers[j].node@);
    }
}

proof fn lemma_beliefs_push(peers: Seq<Peer>, peer: Peer)
    requires
        distinct(peers),
        !listed(peers, peer.node@),
    ensures
        distinct(peers.push(peer)),
        beliefs(peers.push(peer)) == beliefs(peers).insert(peer.node@, id_set(peer.known@)),
{
    let more = peers.push(peer);
    assert forall|i: int, j: int| 0 <= i < j < more.len() implies (#[trigger] more[i]).node@ != (
    #[trigger] more[j]).node@ by {
        assert(more[i] == peers[i]);
        if j < peers.len() {
            assert(more[j] == peers[j]);
        }
    }
    let a = beliefs(more);
    let b = beliefs(peers).insert(peer.node@, id_set(peer.known@));
    assert forall|node: Seq<char>| a.contains_key(node) <==> b.contains_key(node) by {
        if listed(more, node) {
            let i = place_of(more, node);
            if i < peers.len() {
                assert(more[i] == peers[i]);
            }
        }
        if listed(peers, node) {
            let i = place_of(peers, node);
            assert(more[i] == peers[i]);
        }
        if node == peer.node@ {
            assert(more[peers.len() as int] == peer);
        }
    }
    assert forall|node: Seq<char>| a.contains_key(node) implies a[node] == b[node] by {
        let i = place_of(more, node);
        lemma_place_of(more, i);
        if i < peers.len() {
            assert(more[i] == peers[i]);
            lemma_place_of(peers, i);
        }
    }
    assert(a =~= b);
}

proof fn lemma_beliefs_update(peers: Seq<Peer>, i: int, peer: Peer)
    requires
        distinct(peers),
        0 <= i < peers.len(),
        peer.node@ == peers[i].node@,
    ensures
        distinct(peers.update(i, peer)),
        beliefs(peers.update(i, peer)) == beliefs(peers).insert(peer.node@, id_set(peer.known@)),
{
    let next = peers.update(i, peer);
    assert forall|a: int, b: int| 0 <= a < b < next.len() implies (#[trigger] next[a]).node@ != (
    #[trigger] next[b]).node@ by {
        assert(next[a].node@ == peers[a].node@);
        assert(next[b].node@ == peers[b].node@);
    }
    let x = beliefs(next);
    let y = beliefs(peers).insert(peer.node@, id_set(peer.known@));
    assert forall|node: Seq<char>| x.contains_key(node) <==> y.contains_key(node) by {
        if listed(next, node) {
            let k = place_of(next, node);
            assert(peers[k].node@ == node);
        }
        if listed(peers, node) {
            let k = place_of(peers, node);
            assert(next[k].node@ == node);
        }
    }
    lemma_place_of(peers, i);
    assert forall|node: Seq<char>| x.contains_key(node) implies x[node] == y[node] by {
        let k = place_of(next, node);
        lemma_place_of(next, k);
        if k != i {
            assert(next[k] == peers[k]);
            lemma_place_of(peers, k);
        }
    }
    assert(x =~= y);
}

proof fn lemma_id_set_push(pairs: Seq<(String, usize)>, pair: (String, usize))
    ensures
        id_set(pairs.push(pair)) == id_set(pairs).insert((pair.0@, pair.1)),
{
    let more = pairs.push(pair);
    let a = id_set(more);
    let b = id_set(pairs).insert((pair.0@, pair.1));
    assert forall|id: EntryId| a.contains(id) implies b.contains(id) by {
        let i = choose|i: int|
            0 <= i < more.len() && (#[trigger] more[i]).0@ == id.0 && more[i].1 == id.1;
        if i < pairs.len() {
            assert(pairs[i] == more[i]);
        }
    }
    assert forall|id: EntryId| b.contains(id) implies a.contains(id) by {
        if id == (pair.0@, pair.1) {
            assert(more[pairs.len() as int] == pair);
        } else {
            let i = choose|i: int|
                0 <= i < pairs.len() && (#[trigger] pairs[i]).0@ == id.0 && pairs[i].1 == id.1;
            assert(more[i] == pairs[i]);
        }
    }
    assert(a =~= b);
}

/// Adds the identity of each entry to the list unless it is there.
fn note_entries(known: &mut Vec<(String, usize)>, entries: &Vec<LogEntry>)
    requires
        pairs_once(old(known)@),
    ensures
        id_set(final(known)@) == id_set(old(known)@).union(entry_ids(entry_views(entries@))),
        pairs_once(final(known)@),
{
    let mut i: usize = 0;
    proof {
        assert(id_set(known@).union(entry_ids(entry_views(entries@).take(0))) =~= id_set(known@));
    }
    while i < entries.len()
        invariant
            i <= entries.len(),
            pairs_once(known@),
            id_set(known@) == id_set(old(known)@).union(
                entry_ids(entry_views(entries@).take(i as int)),
            ),
        decreases entries.len() - i,
    {
        let ghost before = known@;
        let ghost head = entry_views(entries@).take(i as int);
        let ghost upto = entry_views(entries@).take(i + 1);
        let ghost id = (entries@[i as int].key@, entries@[i as int].offset);
        if !holds_pair(known, &entries[i].key, entries[i].offset) {
            proof {
                lemma_id_set_push(known@, (entries@[i as int].key, entries@[i as int].offset));
            }
            known.push((entries[i].key.clone(), entries[i].offset));
            proof {
                assert forall|a: int, b: int| 0 <= a < b < known@.len() implies !((
                #[trigger] known@[a]).0@ == (#[trigger] known@[b]).0@ && known@[a].1
                    == known@[b].1) by {
                    if b < before.len() {
                        assert(known@[a] == before[a] && known@[b] == before[b]);
                    } else {
                        assert(known@[a] == before[a]);
                        if before[a].0@ == id.0 && before[a].1 == id.1 {
                            assert(id_set(before).contains(id));
                        }
                    }
                }
            }
        } else {
            assert(id_set(known@).insert(id) =~= id_set(known@));
        }
        proof {
            assert(id_set(known@) == id_set(before).insert(id));
            assert(upto =~= head.push(entries@[i as int]@));
            assert(entry_ids(upto) =~= entry_ids(head).insert(id)) by {
                assert forall|x: EntryId| entry_ids(upto).contains(x) implies entry_ids(
                    head,
                ).insert(id).contains(x) by {
                    let k = choose|k: int| 0 <= k < upto.len() && (#[trigger] upto[k]).id() == x;
                    if k < head.len() {
                        assert(head[k] == upto[k]);
                    }
                }
                assert forall|x: EntryId| entry_ids(head).insert(id).contains(
                    x,
                ) implies entry_ids(upto).contains(x) by {
                    if x == id {
                        assert(upto[head.len() as int].id() == x);
                    } else {
                        let k = choose|k: int| 0 <= k < head.len() && (#[trigger] head[k]).id() == x;
                        assert(upto[k] == head[k]);
                    }
                }
            }
            assert(id_set(known@) =~= id_set(old(known)@).union(entry_ids(upto)));
        }
        i += 1;
    }
    proof {
        assert(entry_views(entries@).take(entries.len() as int) =~= entry_views(entries@));
    }
}

impl View for PeerKnowledge {
    type V = Map<Seq<char>, Set<EntryId>>;

    closed spec fn view(&self) -> Map<Seq<char>, Set<EntryId>> {
        beliefs(self.peers@)
    }
}

/// The beliefs after `nodes` are taken up as neighbours: nothing is
/// believed of them yet; what was believed of other nodes is kept.
pub open spec fn with_neighbors(
    beliefs: Map<Seq<char>, Set<EntryId>>,
    nodes: Set<Seq<char>>,
) -> Map<Seq<char>, Set<EntryId>> {
    Map::new(
        |node: Seq<char>| beliefs.contains_key(node) || nodes.contains(node),
        |node: Seq<char>|
            if nodes.contains(node) {
                Set::empty()
            } else {
                beliefs[node]
            },
    )
}

impl PeerKnowledge {
    /// No neighbour is listed twice, and of no neighbour an entry is
    /// recorded twice.
    pub closed spec fn wf(&self) -> bool {
        distinct(self.peers@) && known_once(self.peers@)
    }

    /// Beliefs about nobody.
    pub fn new() -> (knowledge: Self)
        ensures
            knowledge.wf(),
            knowledge@ == Map::<Seq<char>, Set<EntryId>>::empty(),
    {
        let knowledge = PeerKnowledge { peers: Vec::new() };
        assert(knowledge@ =~= Map::<Seq<char>, Set<EntryId>>::empty());
        knowledge
    }

    /// Where the neighbour is listed, if it is.
    fn find(&self, node: &String) -> (found: Option<usize>)
        ensures
            match found {
                Some(i) => i < self.peers.len() && self.peers[i as int].node@ == node@,
                None => !listed(self.peers@, node@),
            },
    {
        let mut i: usize = 0;
        while i < self.peers.len()
            invariant
                i <= self.peers.len(),
                forall|j: int| 0 <= j < i ==> (#[trigger] self.peers[j]).node@ != node@,
            decreases self.peers.len() - i,
        {
            if self.peers[i].node == *node {
                return Some(i);
            }
            i += 1;
        }
        None
    }

    /// Takes up `node` as a neighbour of which nothing is believed yet.
    pub fn add_peer(&mut self, node: &str)
        requires
            old(self).wf(),
        ensures
            final(self).wf(),
            final(self)@ == old(self)@.insert(node@, Set::empty()),
    {
        let name = node.to_owned();
        let ghost before = self.peers@;
        match self.find(&name) {
            Some(i) => {
                self.peers[i].known = Vec::new();
                proof {
                    lemma_beliefs_update(before, i as int, self.peers@[i as int]);
                    assert(self.peers@ =~= before.update(i as int, self.peers@[i as int]));
                    assert(id_set(self.peers@[i as int].known@) =~= Set::<EntryId>::empty());
                }
            },
            None => {
                let peer = Peer { node: name, known: Vec::new() };
                proof {
                    lemma_beliefs_push(before, peer);
                    assert(id_set(peer.known@) =~= Set::<EntryId>::empty());
                }
                self.peers.push(peer);
            },
        }
    }

    /// Takes up every node of `nodes` as a neighbour of which nothing is
    /// believed yet.
    pub fn extend(&mut self, nodes: &Vec<String>)
        requires
            old(self).wf(),
        ensures
            final(self).wf(),
            final(self)@ == with_neighbors(old(self)@, name_set(nodes@)),
    {
        let mut i: usize = 0;
        proof {
            assert(name_set(nodes@.take(0)) =~= Set::<Seq<char>>::empty());
            assert(self@ =~= with_neighbors(old(self)@, Set::<Seq<char>>::empty()));
        }
        while i < nodes.len()
            invariant
                i <= nodes.len(),
                self.wf(),
                self@ == with_neighbors(old(self)@, name_set(nodes@.take(i as int))),
            decreases nodes.len() - i,
        {
            proof {
                crate::names::lemma_name_set_push(nodes@.take(i as int), nodes@[i as int]);
                assert(nodes@.take(i as int).push(nodes@[i as int]) =~= nodes@.take(i + 1));
            }
            let ghost before = self@;
            self.add_peer(nodes[i].as_str());
            proof {
                assert(self@ =~= with_neighbors(old(self)@, name_set(nodes@.take(i + 1))));
            }
            i += 1;
        }
        proof {
            assert(nodes@.take(nodes.len() as int) =~= nodes@);
        }
    }

    /// Whether `node` is a neighbour.
    pub fn has_peer(&self, node: &str) -> (found: bool)
        ensures
            found == self@.contains_key(node@),
    {
        let name = node.to_owned();
        self.find(&name).is_some()
    }

    /// Whether `node` is believed to hold the entry `(key, offset)`.
    pub fn knows(&self, node: &str, key: &str, offset: usize) -> (known: bool)
        requires
            self.wf(),
        ensures
            known == (self@.contains_key(node@) && self@[node@].contains((key@, offset))),
    {
        let name = node.to_owned();
        match self.find(&name) {
            Some(i) => {
                proof {
                    lemma_place_of(self.peers@, i as int);
                }
                let wanted = key.to_owned();
                holds_pair(&self.peers[i].known, &wanted, offset)
            },
            None => false,
        }
    }

    /// The identities that `node` is believed to hold, if it is a neighbour.
    pub fn known_to(&self, node: &str) -> (known: Option<&Vec<(String, usize)>>)
        requires
            self.wf(),
        ensures
            match known {
                Some(known) => self@.contains_key(node@) && id_set(known@) == self@[node@]
                    && pairs_once(known@),
                None => !self@.contains_key(node@),
            },
    {
        let name = node.to_owned();
        match self.find(&name) {
            Some(i) => {
                proof {
                    lemma_place_of(self.peers@, i as int);
                }
                Some(&self.peers[i].known)
            },
            None => None,
        }
    }

    /// Records that `node` holds each of `entries`. Returns whether `node`
    /// is a neighbour; of a stranger nothing is recorded.
    pub fn mark(&mut self, node: &str, entries: &Vec<LogEntry>) -> (is_peer: bool)
        requires
            old(self).wf(),
        ensures
            final(self).wf(),
            is_peer == old(self)@.contains_key(node@),
            is_peer ==> final(self)@ == old(self)@.insert(
                node@,
                old(self)@[node@].union(entry_ids(entry_views(entries@))),
            ),
            !is_peer ==> final(self)@ == old(self)@,
    {
        let name = node.to_owned();
        let ghost before = self.peers@;
        match self.find(&name) {
            Some(i) => {
                proof {
                    lemma_place_of(before, i as int);
                }
                note_entries(&mut self.peers[i].known, entries);
                proof {
                    lemma_beliefs_update(before, i as int, self.peers@[i as int]);
                    assert(self.peers@ =~= before.update(i as int, self.peers@[i as int]));
                }
                true
            },
            None => false,
        }
    }
}

} // verus!
