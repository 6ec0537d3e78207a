//! A node that spreads broadcast values through the cluster by periodic
//! gossip along a given topology.
use crate::name_map::{reset_names, NameMap};
use crate::names::{clone_names, name_seq};
use crate::numbers::{
    add_number, add_numbers, clone_numbers, numbers_without, with_number, with_numbers, without,
};
use crate::{bump, message_views, next_id, Body, Message, MessageView, Node, NodeError};
use vstd::prelude::*;

verus! {

/// What a message of the broadcast protocol carries.
#[derive(Debug)]
pub enum Payload {
    Init { node_id: String, node_ids: Vec<String> },
    InitOk,
    Broadcast { message: usize },
    BroadcastOk,
    Read,
    ReadOk { messages: Vec<usize> },
    Topology { topology: Vec<(String, Vec<String>)> },
    TopologyOk,
    TriggerGossip,
    Gossip { seen: Vec<usize> },
}

/// A payload as specifications see it.
#[allow(inconsistent_fields)]
pub enum PayloadView {
    Init { node_id: Seq<char>, node_ids: Seq<Seq<char>> },
    InitOk,
    Broadcast { message: usize },
    BroadcastOk,
    Read,
    ReadOk { messages: Seq<usize> },
    Topology { topology: Seq<(Seq<char>, Seq<Seq<char>>)> },
    TopologyOk,
    TriggerGossip,
    Gossip { seen: Seq<usize> },
}

/// A topology as specifications see it: nodes with their neighbours.
pub open spec fn topology_view(topology: Seq<(String, Vec<String>)>) -> Seq<
    (Seq<char>, Seq<Seq<char>>),
> {
    Seq::new(topology.len(), |i: int| (topology[i].0@, name_seq(topology[i].1@)))
}

/// The neighbours that the topology gives `node`: those of the first
/// line that names it, or none.
pub open spec fn neighbors_in(topology: Seq<(Seq<char>, Seq<Seq<char>>)>, node: Seq<char>) -> Seq<
    Seq<char>,
>
    decreases topology.len(),
{
    if topology.len() == 0 {
        Seq::empty()
    } else if topology.first().0 == node {
        topology.first().1
    } else {
        neighbors_in(topology.drop_first(), node)
    }
}

impl View for Payload {
    type V = PayloadView;

    open spec fn view(&self) -> PayloadView {
        match self {
            Payload::Init { node_id, node_ids } => PayloadView::Init {
                node_id: node_id@,
                node_ids: name_seq(node_ids@),
            },
            Payload::InitOk => PayloadView::InitOk,
            Payload::Broadcast { message } => PayloadView::Broadcast { message: *message },
            Payload::BroadcastOk => PayloadView::BroadcastOk,
            Payload::Read => PayloadView::Read,
            Payload::ReadOk { messages } => PayloadView::ReadOk { messages: messages@ },
            Payload::Topology { topology } => PayloadView::Topology {
                topology: topology_view(topology@),
            },
            Payload::TopologyOk => PayloadView::TopologyOk,
            Payload::TriggerGossip => PayloadView::TriggerGossip,
            Payload::Gossip { seen } => PayloadView::Gossip { seen: seen@ },
        }
    }
}

/// A message of the broadcast protocol as specifications see it.
pub type Letter = MessageView<PayloadView>;

/// What handling an event gives.
pub type Outcome = Result<Seq<Letter>, NodeError>;

/// A broadcast node.
pub struct BroadcastNode {
    node_id: String,
    message_id: usize,
    messages: Vec<usize>,
    neighbors: Vec<String>,
    known: NameMap<Vec<usize>>,
}

/// The state of a broadcast node.
#[verifier::ext_equal]
pub struct BroadcastView {
    pub node_id: Seq<char>,
    pub message_id: usize,
    /// Every value seen, in the order of arrival, each once.
    pub messages: Seq<usize>,
    /// The nodes that gossip goes to.
    pub neighbors: Seq<Seq<char>>,
    /// The values that each node is known to have sent.
    pub known: Map<Seq<char>, Seq<usize>>,
}

/// What the nodes are known to have, with each list taken by its view.
pub open spec fn known_view(known: Map<Seq<char>, Vec<usize>>) -> Map<Seq<char>, Seq<usize>> {
    Map::new(|name: Seq<char>| known.contains_key(name), |name: Seq<char>| known[name]@)
}

impl View for BroadcastNode {
    type V = BroadcastView;

    closed spec fn view(&self) -> BroadcastView {
        BroadcastView {
            node_id: self.node_id@,
            message_id: self.message_id,
            messages: self.messages@,
            neighbors: name_seq(self.neighbors@),
            known: known_view(self.known@),
        }
    }
}

impl BroadcastView {
    /// The node after it sent something.
    pub open spec fn next(self) -> BroadcastView {
        BroadcastView { message_id: next_id(self.message_id), ..self }
    }

    /// Whether every neighbour is a node of which something is known.
    pub open spec fn neighbors_known(self) -> bool {
        forall|i: int| 0 <= i < self.neighbors.len() ==> self.known.contains_key(#[trigger] self.neighbors[i])
    }

    /// The gossip for every neighbour, in order: the values that the
    /// neighbour is not known to have.
    pub open spec fn gossip(self) -> Seq<Letter> {
        Seq::new(
            self.neighbors.len(),
            |i: int|
                MessageView {
                    src: self.node_id,
                    dest: self.neighbors[i],
                    msg_id: Some(self.message_id),
                    in_reply_to: None,
                    payload: PayloadView::Gossip {
                        seen: without(self.messages, self.known[self.neighbors[i]]),
                    },
                },
        )
    }

    /// What handling `request` makes of the node, and what it gives.
    /// Gossip from a node of which nothing is known, and a gossip trigger
    /// while that holds of a neighbour, are errors and change nothing.
    pub open spec fn step(self, request: Letter) -> (BroadcastView, Outcome) {
        match request.payload {
            PayloadView::Init { node_id, node_ids } => (
                BroadcastView {
                    node_id,
                    known: reset_names(self.known, node_ids, Seq::empty()),
                    ..self
                }.next(),
                Ok(seq![request.reply(None, PayloadView::InitOk)]),
            ),
            PayloadView::Broadcast { message } => (
                BroadcastView { messages: with_number(self.messages, message), ..self }.next(),
                Ok(seq![request.reply(Some(self.message_id), PayloadView::BroadcastOk)]),
            ),
            PayloadView::Read => (
                self.next(),
                Ok(
                    seq![
                        request.reply(
                            Some(self.message_id),
                            PayloadView::ReadOk { messages: self.messages },
                        ),
                    ],
                ),
            ),
            PayloadView::Topology { topology } => (
                BroadcastView { neighbors: neighbors_in(topology, self.node_id), ..self }.next(),
                Ok(seq![request.reply(Some(self.message_id), PayloadView::TopologyOk)]),
            ),
            PayloadView::Gossip { seen } => if self.known.contains_key(request.src) {
                (
                    BroadcastView {
                        known: self.known.insert(
                            request.src,
                            with_numbers(self.known[request.src], seen),
                        ),
                        messages: with_numbers(self.messages, seen),
                        ..self
                    },
                    Ok(Seq::empty()),
                )
            } else {
                (self, Err(NodeError::UnknownNode))
            },
            PayloadView::TriggerGossip => if self.neighbors.len() == 0 {
                (self, Ok(Seq::empty()))
            } else if self.neighbors_known() {
                (self.next(), Ok(self.gossip()))
            } else {
                (self, Err(NodeError::UnknownNode))
            },
            _ => (self, Ok(Seq::empty())),
        }
    }
}

/// The neighbours that the topology gives `node`.
fn neighbors_of(topology: &Vec<(String, Vec<String>)>, node: &String) -> (neighbors: Vec<String>)
    ensures
        name_seq(neighbors@) == neighbors_in(topology_view(topology@), node@),
{
    let mut i: usize = 0;
    let ghost lines = topology_view(topology@);
    proof {
        assert(lines.skip(0) =~= lines);
    }
    while i < topology.len()
        invariant
            i <= topology.len(),
            lines == topology_view(topology@),
            neighbors_in(lines, node@) == neighbors_in(lines.skip(i as int), node@),
        decreases topology.len() - i,
    {
        proof {
            let rest = lines.skip(i as int);
            assert(rest.first() == lines[i as int]);
            assert(rest.drop_first() =~= lines.skip(i + 1));
        }
        if topology[i].0 == *node {
            return clone_names(&topology[i].1);
        }
        i += 1;
    }
    let neighbors: Vec<String> = Vec::new();
    proof {
        assert(lines.skip(i as int) =~= Seq::<(Seq<char>, Seq<Seq<char>>)>::empty());
        assert(name_seq(neighbors@) =~= Seq::<Seq<char>>::empty());
    }
    neighbors
}

/// Whether no list of the map holds a value twice.
pub open spec fn lists_distinct(known: Map<Seq<char>, Vec<usize>>) -> bool {
    forall|name: Seq<char>| #[trigger] known.contains_key(name) ==> known[name]@.no_duplicates()
}

/// What a handler returned, as specifications see it.
pub open spec fn outcome_view(result: Result<Vec<Message<Payload>>, NodeError>) -> Outcome {
    match result {
        Ok(messages) => Ok(message_views(messages@)),
        Err(error) => Err(error),
    }
}

impl BroadcastNode {
    /// A node before `init`.
    pub open spec fn fresh() -> BroadcastView {
        BroadcastView {
            node_id: "uninit"@,
            message_id: 0,
            messages: Seq::empty(),
            neighbors: Seq::empty(),
            known: Map::empty(),
        }
    }

    /// The map of what is known has no name twice, and neither the values
    /// seen nor the values known of a node hold a value twice.
    pub closed spec fn well_formed(&self) -> bool {
        &&& self.known.wf()
        &&& self.messages@.no_duplicates()
        &&& lists_distinct(self.known@)
    }

    /// A node before `init`.
    pub fn new() -> (node: Self)
        ensures
            node.well_formed(),
            node@ == Self::fresh(),
    {
        let node = Self {
            node_id: "uninit".to_owned(),
            message_id: 0,
            messages: Vec::new(),
            neighbors: Vec::new(),
            known: NameMap::new(),
        };
        proof {
            assert(name_seq(node.neighbors@) =~= Seq::<Seq<char>>::empty());
            assert(known_view(node.known@) =~= Map::<Seq<char>, Seq<usize>>::empty());
            assert(node@ =~= Self::fresh());
        }
        node
    }

    /// Every value seen so far.
    pub fn messages(&self) -> (messages: &Vec<usize>)
        ensures
            messages@ == self@.messages,
            self.well_formed() ==> messages@.no_duplicates(),
    {
        &self.messages
    }

    /// The id that the next message from this node carries.
    pub fn message_id(&self) -> (id: usize)
        ensures
            id == self@.message_id,
    {
        self.message_id
    }

    /// Queues `message` for sending and uses up the message id.
    pub fn send_message(&mut self, out: &mut Vec<Message<Payload>>, message: Message<Payload>)
        requires
            old(self).well_formed(),
        ensures
            final(self).well_formed(),
            final(self)@ == old(self)@.next(),
            final(out)@ == old(out)@.push(message),
    {
        out.push(message);
        self.message_id = bump(self.message_id);
    }

    /// Queues a batch of messages for sending; the whole batch uses up
    /// one message id.
    pub fn send_messages(&mut self, out: &mut Vec<Message<Payload>>, messages: Vec<Message<Payload>>)
        requires
            old(self).well_formed(),
        ensures
            final(self).well_formed(),
            final(self)@ == old(self)@.next(),
            final(out)@ == old(out)@ + messages@,
    {
        let mut messages = messages;
        out.append(&mut messages);
        self.message_id = bump(self.message_id);
    }

    /// Handles `init`: takes the id, forgets what was known of every node
    /// of the cluster, and answers `init_ok`.
    pub fn handle_init(&mut self, message: &Message<Payload>, node_id: &str, node_ids: &Vec<String>) -> (out:
        Vec<Message<Payload>>)
        requires
            old(self).well_formed(),
        ensures
            final(self).well_formed(),
            (final(self)@, Ok::<Seq<Letter>, NodeError>(message_views(out@))) == old(self)@.step(
                message@.carrying(PayloadView::Init { node_id: node_id@, node_ids: name_seq(node_ids@) }),
            ),
    {
        self.node_id = node_id.to_owned();
        let mut i: usize = 0;
        proof {
            assert(known_view(self.known@) =~= reset_names(
                old(self)@.known,
                name_seq(node_ids@).take(0),
                Seq::empty(),
            ));
        }
        while i < node_ids.len()
            invariant
                i <= node_ids.len(),
                self.known.wf(),
                lists_distinct(self.known@),
                self.node_id@ == node_id@,
                self.message_id == old(self).message_id,
                self.messages == old(self).messages,
                self.neighbors == old(self).neighbors,
                known_view(self.known@) == reset_names(
                    old(self)@.known,
                    name_seq(node_ids@).take(i as int),
                    Seq::empty(),
                ),
            decreases node_ids.len() - i,
        {
            let ghost before = self.known@;
            self.known.insert(node_ids[i].as_str(), Vec::new());
            proof {
                let head = name_seq(node_ids@).take(i as int);
                let prior = known_view(before);
                assert(prior == reset_names(old(self)@.known, head, Seq::<usize>::empty()));
                let upto = name_seq(node_ids@).take(i + 1);
                assert(upto =~= head.push(node_ids@[i as int]@));
                assert forall|name: Seq<char>| upto.contains(name) <==> head.contains(name) || name
                    == node_ids@[i as int]@ by {
                    if upto.contains(name) {
                        let k = choose|k: int| 0 <= k < upto.len() && upto[k] == name;
                        if k < head.len() {
                            assert(head[k] == name);
                        }
                    }
                    if head.contains(name) {
                        let k = choose|k: int| 0 <= k < head.len() && head[k] == name;
                        assert(upto[k] == name);
                    }
                    if name == node_ids@[i as int]@ {
                        assert(upto[head.len() as int] == name);
                    }
                }
                let target = reset_names(old(self)@.known, upto, Seq::<usize>::empty());
                let now = known_view(self.known@);
                assert forall|name: Seq<char>| now.contains_key(name) <==> target.contains_key(
                    name,
                ) by {
                    assert(prior.contains_key(name) <==> before.contains_key(name));
                    assert(prior.contains_key(name) <==> old(self)@.known.contains_key(name)
                        || head.contains(name));
                }
                assert forall|name: Seq<char>| now.contains_key(name) implies now[name]
                    == target[name] by {
                    assert(prior.contains_key(name) <==> before.contains_key(name));
                    if name == node_ids@[i as int]@ {
                        assert(now[name] =~= Seq::<usize>::empty());
                    } else {
                        assert(prior[name] == before[name]@);
                    }
                }
                assert(now =~= target);
            }
            i += 1;
        }
        proof {
            assert(name_seq(node_ids@).take(node_ids.len() as int) =~= name_seq(node_ids@));
        }
        let reply = message.reply(None, Payload::InitOk);
        let mut out: Vec<Message<Payload>> = Vec::new();
        self.send_message(&mut out, reply);
        proof {
            assert(message_views(out@) =~= seq![message@.reply(None, PayloadView::InitOk)]);
            assert(self@ =~= old(self)@.step(
                message@.carrying(PayloadView::Init { node_id: node_id@, node_ids: name_seq(node_ids@) }),
            ).0);
        }
        out
    }

    /// Handles `broadcast`: keeps the value and answers `broadcast_ok`.
    pub fn handle_broadcast(&mut self, message: &Message<Payload>, value: usize) -> (out: Vec<
        Message<Payload>,
    >)
        requires
            old(self).well_formed(),
        ensures
            final(self).well_formed(),
            (final(self)@, Ok::<Seq<Letter>, NodeError>(message_views(out@))) == old(self)@.step(
                message@.carrying(PayloadView::Broadcast { message: value }),
            ),
    {
        let reply = message.reply(Some(self.message_id), Payload::BroadcastOk);
        add_number(&mut self.messages, value);
        let mut out: Vec<Message<Payload>> = Vec::new();
        self.send_message(&mut out, reply);
        proof {
            assert(message_views(out@) =~= seq![
                message@.reply(Some(old(self)@.message_id), PayloadView::BroadcastOk),
            ]);
            assert(self@ =~= old(self)@.step(
                message@.carrying(PayloadView::Broadcast { message: value }),
            ).0);
        }
        out
    }

    /// Handles `read`: answers with every value seen so far.
    pub fn handle_read(&mut self, message: &Message<Payload>) -> (out: Vec<Message<Payload>>)
        requires
            old(self).well_formed(),
        ensures
            final(self).well_formed(),
            (final(self)@, Ok::<Seq<Letter>, NodeError>(message_views(out@))) == old(self)@.step(
                message@.carrying(PayloadView::Read),
            ),
    {
        let reply = message.reply(
            Some(self.message_id),
            Payload::ReadOk { messages: clone_numbers(&self.messages) },
        );
        let mut out: Vec<Message<Payload>> = Vec::new();
        self.send_message(&mut out, reply);
        proof {
            assert(message_views(out@) =~= seq![
                message@.reply(
                    Some(old(self)@.message_id),
                    PayloadView::ReadOk { messages: old(self)@.messages },
                ),
            ]);
            assert(self@ =~= old(self)@.step(message@.carrying(PayloadView::Read)).0);
        }
        out
    }

    /// Handles `topology`: takes the neighbours that the topology gives
    /// this node, none if it does not name this node, and answers
    /// `topology_ok`.
    pub fn handle_topology(
        &mut self,
        message: &Message<Payload>,
        topology: &Vec<(String, Vec<String>)>,
    ) -> (out: Vec<Message<Payload>>)
        requires
            old(self).well_formed(),
        ensures
            final(self).well_formed(),
            (final(self)@, Ok::<Seq<Letter>, NodeError>(message_views(out@))) == old(self)@.step(
                message@.carrying(PayloadView::Topology { topology: topology_view(topology@) }),
            ),
    {
        let reply = message.reply(Some(self.message_id), Payload::TopologyOk);
        let neighbors = neighbors_of(topology, &self.node_id);
        self.neighbors = neighbors;
        let mut out: Vec<Message<Payload>> = Vec::new();
        self.send_message(&mut out, reply);
        proof {
            assert(message_views(out@) =~= seq![
                message@.reply(Some(old(self)@.message_id), PayloadView::TopologyOk),
            ]);
            assert(self@ =~= old(self)@.step(
                message@.carrying(PayloadView::Topology { topology: topology_view(topology@) }),
            ).0);
        }
        out
    }
}

impl BroadcastNode {
    /// Handles gossip from `src`: the values are kept, and `src` is known
    /// to have them. Gossip from a node of which nothing is known is an
    /// error.
    pub fn handle_gossip(&mut self, message: &Message<Payload>, seen: &Vec<usize>) -> (result:
        Result<Vec<Message<Payload>>, NodeError>)
        requires
            old(self).well_formed(),
        ensures
            final(self).well_formed(),
            (final(self)@, outcome_view(result)) == old(self)@.step(
                message@.carrying(PayloadView::Gossip { seen: seen@ }),
            ),
    {
        let src = message.src();
        let mut theirs = match self.known.get(src) {
            Some(theirs) => clone_numbers(theirs),
            None => {
                return Err(NodeError::UnknownNode);
            },
        };
        let ghost before = self.known@;
        add_numbers(&mut theirs, seen);
        self.known.insert(src, theirs);
        add_numbers(&mut self.messages, seen);
        let out: Vec<Message<Payload>> = Vec::new();
        proof {
            let now = known_view(self.known@);
            let target = known_view(before).insert(
                src@,
                with_numbers(known_view(before)[src@], seen@),
            );
            assert forall|name: Seq<char>| now.contains_key(name) <==> target.contains_key(
                name,
            ) by {
                assert(known_view(before).contains_key(name) <==> before.contains_key(name));
            }
            assert forall|name: Seq<char>| now.contains_key(name) implies now[name]
                == target[name] by {
                assert(known_view(before).contains_key(name) <==> before.contains_key(name));
            }
            assert(now =~= target);
            assert(message_views(out@) =~= Seq::<Letter>::empty());
            assert(self@ =~= old(self)@.step(
                message@.carrying(PayloadView::Gossip { seen: seen@ }),
            ).0);
        }
        Ok(out)
    }

    /// Whether something is known of every neighbour.
    fn neighbors_known(&self) -> (all: bool)
        requires
            self.well_formed(),
        ensures
            all == self@.neighbors_known(),
    {
        let mut i: usize = 0;
        while i < self.neighbors.len()
            invariant
                i <= self.neighbors.len(),
                forall|k: int|
                    0 <= k < i ==> self@.known.contains_key(#[trigger] self@.neighbors[k]),
            decreases self.neighbors.len() - i,
        {
            if !self.known.contains_key(self.neighbors[i].as_str()) {
                proof {
                    assert(self@.neighbors[i as int] == self.neighbors[i as int]@);
                    assert(!self@.known.contains_key(self@.neighbors[i as int]));
                }
                return false;
            }
            proof {
                assert(self@.neighbors[i as int] == self.neighbors[i as int]@);
            }
            i += 1;
        }
        true
    }

    /// Handles the gossip trigger: every neighbour gets the values that
    /// it is not known to have, also when there are none. Without
    /// neighbours nothing happens.
    pub fn handle_trigger_gossip(&mut self) -> (result: Result<Vec<Message<Payload>>, NodeError>)
        requires
            old(self).well_formed(),
        ensures
            final(self).well_formed(),
            (final(self)@, outcome_view(result)) == old(self)@.step(
                MessageView {
                    src: old(self)@.node_id,
                    dest: old(self)@.node_id,
                    msg_id: None,
                    in_reply_to: None,
                    payload: PayloadView::TriggerGossip,
                },
            ),
    {
        let mut out: Vec<Message<Payload>> = Vec::new();
        if self.neighbors.len() == 0 {
            proof {
                assert(message_views(out@) =~= Seq::<Letter>::empty());
            }
            return Ok(out);
        }
        if !self.neighbors_known() {
            return Err(NodeError::UnknownNode);
        }
        let mut messages: Vec<Message<Payload>> = Vec::new();
        let mut i: usize = 0;
        while i < self.neighbors.len()
            invariant
                i <= self.neighbors.len(),
                self == old(self),
                self.well_formed(),
                self@.neighbors_known(),
                messages.len() == i,
                forall|k: int| 0 <= k < i ==> (#[trigger] messages[k])@ == self@.gossip()[k],
            decreases self.neighbors.len() - i,
        {
            proof {
                assert(self@.neighbors[i as int] == self.neighbors[i as int]@);
                assert(self@.known.contains_key(self@.neighbors[i as int]));
            }
            let not_seen = match self.known.get(self.neighbors[i].as_str()) {
                Some(theirs) => numbers_without(&self.messages, theirs),
                None => Vec::new(),
            };
            let message = Message::new(
                self.node_id.clone(),
                self.neighbors[i].clone(),
                Body::new(Some(self.message_id), None, Payload::Gossip { seen: not_seen }),
            );
            let ghost before = messages@;
            messages.push(message);
            assert forall|k: int| 0 <= k < i + 1 implies (#[trigger] messages[k])@
                == self@.gossip()[k] by {
                if k < i {
                    assert(messages[k] == before[k]);
                }
            }
            i += 1;
        }
        proof {
            assert(message_views(messages@) =~= self@.gossip());
        }
        self.send_messages(&mut out, messages);
        proof {
            assert(out@ =~= messages@);
        }
        Ok(out)
    }
}

impl Node<Payload> for BroadcastNode {
    open spec fn wf(&self) -> bool {
        self.well_formed()
    }

    open spec fn handles(
        &self,
        message: &Message<Payload>,
        post: &Self,
        result: &Result<Vec<Message<Payload>>, NodeError>,
    ) -> bool {
        (post@, outcome_view(*result)) == self@.step(message@)
    }

    fn handle_message(&mut self, message: &Message<Payload>) -> (result: Result<
        Vec<Message<Payload>>,
        NodeError,
    >) {
        match &message.body.payload {
            Payload::Init { node_id, node_ids } => Ok(
                self.handle_init(message, node_id.as_str(), node_ids),
            ),
            Payload::Broadcast { message: value } => Ok(self.handle_broadcast(message, *value)),
            Payload::Read => Ok(self.handle_read(message)),
            Payload::Topology { topology } => Ok(self.handle_topology(message, topology)),
            Payload::TriggerGossip => self.handle_trigger_gossip(),
            Payload::Gossip { seen } => self.handle_gossip(message, seen),
            _ => {
                let out: Vec<Message<Payload>> = Vec::new();
                assert(message_views(out@) =~= Seq::<Letter>::empty());
                Ok(out)
            },
        }
    }
}

} // verus!
