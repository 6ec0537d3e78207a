//! A node of a counter that only grows: every node keeps each increment
//! under the id of the message that brought it, and periodic gossip
//! spreads the increments.
use crate::name_map::{reset_names, NameMap};
use crate::names::name_seq;
use crate::numbers::{add_number, clone_numbers, has_number, with_number};
use crate::{bump, message_views, next_id, Body, Message, MessageView, Node, NodeError};
use vstd::prelude::*;

verus! {

/// What a message of the counter protocol carries.
#[derive(Debug)]
pub enum Payload {
    Init { node_id: String, node_ids: Vec<String> },
    InitOk,
    Add { delta: usize },
    AddOk,
    Read,
    ReadOk { value: usize },
    TriggerGossip,
    Gossip { seen: Vec<(usize, usize)> },
}

/// A payload as specifications see it.
pub enum PayloadView {
    Init { node_id: Seq<char>, node_ids: Seq<Seq<char>> },
    InitOk,
    Add { delta: usize },
    AddOk,
    Read,
    ReadOk { value: usize },
    TriggerGossip,
    Gossip { seen: Seq<(usize, usize)> },
}

impl View for Payload {
    type V = PayloadView;

    open spec fn view(&self) -> PayloadView {
        match self {
            Payload::Init { node_id, node_ids } => PayloadView::Init {
                node_id: node_id@,
                node_ids: name_seq(node_ids@),
            },
            Payload::InitOk => PayloadView::InitOk,
            Payload::Add { delta } => PayloadView::Add { delta: *delta },
            Payload::AddOk => PayloadView::AddOk,
            Payload::Read => PayloadView::Read,
            Payload::ReadOk { value } => PayloadView::ReadOk { value: *value },
            Payload::TriggerGossip => PayloadView::TriggerGossip,
            Payload::Gossip { seen } => PayloadView::Gossip { seen: seen@ },
        }
    }
}

/// A message of the counter protocol as specifications see it.
pub type Letter = MessageView<PayloadView>;

/// What handling an event gives.
pub type Outcome = Result<Seq<Letter>, NodeError>;

/// The sum of two numbers; past the largest number the count starts
/// again at zero.
pub open spec fn wrapping_sum(a: usize, b: usize) -> usize {
    if a + b > usize::MAX {
        (a + b - usize::MAX - 1) as usize
    } else {
        (a + b) as usize
    }
}

/// The names of `node_ids` other than `me`, in their order.
pub open spec fn except(node_ids: Seq<Seq<char>>, me: Seq<char>) -> Seq<Seq<char>>
    decreases node_ids.len(),
{
    if node_ids.len() == 0 {
        Seq::empty()
    } else if node_ids.last() == me {
        except(node_ids.drop_last(), me)
    } else {
        except(node_ids.drop_last(), me).push(node_ids.last())
    }
}

/// Whether the list holds an increment under `id`.
pub open spec fn has_id(list: Seq<(usize, usize)>, id: usize) -> bool {
    exists|i: int| 0 <= i < list.len() && (#[trigger] list[i]).0 == id
}

/// The list with `value` under `id`: in place of what was there, or at
/// the end.
pub open spec fn put(list: Seq<(usize, usize)>, id: usize, value: usize) -> Seq<(usize, usize)> {
    if has_id(list, id) {
        Seq::new(
            list.len(),
            |i: int|
                if list[i].0 == id {
                    (id, value)
                } else {
                    list[i]
                },
        )
    } else {
        list.push((id, value))
    }
}

/// Whether no two increments of the list are kept under one id.
pub open spec fn distinct_ids(list: Seq<(usize, usize)>) -> bool {
    forall|i: int, j: int| 0 <= i < j < list.len() ==> (#[trigger] list[i]).0 != (#[trigger] list[j]).0
}

/// Whether no list of the map holds an id twice.
pub open spec fn lists_distinct(known: Map<Seq<char>, Vec<usize>>) -> bool {
    forall|name: Seq<char>| #[trigger] known.contains_key(name) ==> known[name]@.no_duplicates()
}

/// Putting a value under an id keeps one increment per id.
pub proof fn lemma_put_distinct(list: Seq<(usize, usize)>, id: usize, value: usize)
    requires
        distinct_ids(list),
    ensures
        distinct_ids(put(list, id, value)),
{
    let next = put(list, id, value);
    assert forall|i: int, j: int| 0 <= i < j < next.len() implies (#[trigger] next[i]).0 != (
    #[trigger] next[j]).0 by {
        if has_id(list, id) {
            assert(next[i].0 == list[i].0 && next[j].0 == list[j].0);
        } else if j < list.len() {
            assert(next[i] == list[i] && next[j] == list[j]);
        } else {
            assert(next[i] == list[i]);
        }
    }
}

/// The ids of a list of increments, in order.
pub open spec fn ids_of(list: Seq<(usize, usize)>) -> Seq<usize> {
    Seq::new(list.len(), |i: int| list[i].0)
}

/// The increments whose id is not in `known`, in their order.
pub open spec fn unknown_to(list: Seq<(usize, usize)>, known: Seq<usize>) -> Seq<(usize, usize)>
    decreases list.len(),
{
    if list.len() == 0 {
        Seq::empty()
    } else if known.contains(list.last().0) {
        unknown_to(list.drop_last(), known)
    } else {
        unknown_to(list.drop_last(), known).push(list.last())
    }
}

/// The ids of `known` with those of `seen` added, first to last.
pub open spec fn with_ids(known: Seq<usize>, seen: Seq<(usize, usize)>) -> Seq<usize>
    decreases seen.len(),
{
    if seen.len() == 0 {
        known
    } else {
        with_number(with_ids(known, seen.drop_last()), seen.last().0)
    }
}

/// The increments and the total after gossip was taken in, first to
/// last: an increment under a new id is kept and counted; one under an id
/// that is there takes the place of the old one and is not counted.
pub open spec fn absorbed(list: Seq<(usize, usize)>, total: usize, seen: Seq<(usize, usize)>) -> (
    Seq<(usize, usize)>,
    usize,
)
    decreases seen.len(),
{
    if seen.len() == 0 {
        (list, total)
    } else {
        let before = absorbed(list, total, seen.drop_last());
        let last = seen.last();
        (
            put(before.0, last.0, last.1),
            if has_id(before.0, last.0) {
                before.1
            } else {
                wrapping_sum(before.1, last.1)
            },
        )
    }
}

/// A counter node.
pub struct GrowOnlyCounterNode {
    node_id: String,
    message_id: usize,
    messages: Vec<(usize, usize)>,
    value: usize,
    neighbors: Vec<String>,
    known: NameMap<Vec<usize>>,
}

/// The state of a counter node.
#[verifier::ext_equal]
pub struct CounterView {
    pub node_id: Seq<char>,
    pub message_id: usize,
    /// Every increment seen, under the id of the message that brought it.
    pub messages: Seq<(usize, usize)>,
    /// The total.
    pub value: usize,
    /// The nodes that gossip goes to.
    pub neighbors: Seq<Seq<char>>,
    /// The ids that each node is known to have sent.
    pub known: Map<Seq<char>, Seq<usize>>,
}

/// What the nodes are known to have, with each list taken by its view.
pub open spec fn known_view(known: Map<Seq<char>, Vec<usize>>) -> Map<Seq<char>, Seq<usize>> {
    Map::new(|name: Seq<char>| known.contains_key(name), |name: Seq<char>| known[name]@)
}

impl View for GrowOnlyCounterNode {
    type V = CounterView;

    closed spec fn view(&self) -> CounterView {
        CounterView {
            node_id: self.node_id@,
            message_id: self.message_id,
            messages: self.messages@,
            value: self.value,
            neighbors: name_seq(self.neighbors@),
            known: known_view(self.known@),
        }
    }
}

impl CounterView {
    /// The node after it sent something.
    pub open spec fn next(self) -> CounterView {
        CounterView { message_id: next_id(self.message_id), ..self }
    }

    /// Whether something is known of every neighbour.
    pub open spec fn neighbors_known(self) -> bool {
        forall|i: int| 0 <= i < self.neighbors.len() ==> self.known.contains_key(#[trigger] self.neighbors[i])
    }

    /// The gossip for every neighbour, in order: the increments whose id
    /// the neighbour is not known to have.
    pub open spec fn gossip(self) -> Seq<Letter> {
        Seq::new(
            self.neighbors.len(),
            |i: int|
                MessageView {
                    src: self.node_id,
                    dest: self.neighbors[i],
                    msg_id: Some(self.message_id),
                    in_reply_to: None,
                    payload: PayloadView::Gossip {
                        seen: unknown_to(self.messages, self.known[self.neighbors[i]]),
                    },
                },
        )
    }

    /// What handling `request` makes of the node, and what it gives. An
    /// `add` without a message id, gossip from a node of which nothing is
    /// known, and a gossip trigger while that holds of a neighbour, are
    /// errors and change nothing.
    pub open spec fn step(self, request: Letter) -> (CounterView, Outcome) {
        match request.payload {
            PayloadView::Init { node_id, node_ids } => (
                CounterView {
                    node_id,
                    neighbors: except(node_ids, node_id),
                    known: reset_names(self.known, except(node_ids, node_id), Seq::empty()),
                    ..self
                }.next(),
                Ok(seq![request.reply(None, PayloadView::InitOk)]),
            ),
            PayloadView::Add { delta } => match request.msg_id {
                Some(id) => (
                    CounterView {
                        messages: put(self.messages, id, delta),
                        value: wrapping_sum(self.value, delta),
                        ..self
                    }.next(),
                    Ok(seq![request.reply(Some(self.message_id), PayloadView::AddOk)]),
                ),
                None => (self, Err(NodeError::MissingMessageId)),
            },
            PayloadView::Read => (
                self.next(),
                Ok(
                    seq![
                        request.reply(
                            Some(self.message_id),
                            PayloadView::ReadOk { value: self.value },
                        ),
                    ],
                ),
            ),
            PayloadView::Gossip { seen } => if self.known.contains_key(request.src) {
                (
                    CounterView {
                        known: self.known.insert(
                            request.src,
                            with_ids(self.known[request.src], seen),
                        ),
                        messages: absorbed(self.messages, self.value, seen).0,
                        value: absorbed(self.messages, self.value, seen).1,
                        ..self
                    },
                    Ok(Seq::empty()),
                )
            } else {
                (self, Err(NodeError::UnknownNode))
            },
            PayloadView::TriggerGossip => if self.neighbors.len() == 0 {
                (self, Ok(Seq::empty()))
            } else if self.neighbors_known() {
                (self.next(), Ok(self.gossip()))
            } else {
                (self, Err(NodeError::UnknownNode))
            },
            _ => (self, Ok(Seq::empty())),
        }
    }
}

/// What a handler returned, as specifications see it.
pub open spec fn outcome_view(result: Result<Vec<Message<Payload>>, NodeError>) -> Outcome {
    match result {
        Ok(messages) => Ok(message_views(messages@)),
        Err(error) => Err(error),
    }
}

/// The sum of two numbers, starting again at zero past the largest.
pub fn add_wrapping(a: usize, b: usize) -> (sum: usize)
    ensures
        sum == wrapping_sum(a, b),
{
    if b <= usize::MAX - a {
        a + b
    } else {
        b - (usize::MAX - a) - 1
    }
}

/// Whether the list holds an increment under `id`.
fn holds_id(list: &Vec<(usize, usize)>, id: usize) -> (found: bool)
    ensures
        found == has_id(list@, id),
{
    let mut i: usize = 0;
    while i < list.len()
        invariant
            i <= list.len(),
            forall|j: int| 0 <= j < i ==> (#[trigger] list[j]).0 != id,
        decreases list.len() - i,
    {
        if list[i].0 == id {
            return true;
        }
        i += 1;
    }
    false
}

/// Puts `value` under `id`; returns whether `id` was there.
fn put_value(list: &mut Vec<(usize, usize)>, id: usize, value: usize) -> (was_there: bool)
    ensures
        was_there == has_id(old(list)@, id),
        final(list)@ == put(old(list)@, id, value),
        distinct_ids(old(list)@) ==> distinct_ids(final(list)@),
{
    proof {
        if distinct_ids(list@) {
            lemma_put_distinct(list@, id, value);
        }
    }
    if !holds_id(list, id) {
        list.push((id, value));
        return false;
    }
    let mut i: usize = 0;
    while i < list.len()
        invariant
            i <= list.len(),
            list.len() == old(list).len(),
            forall|j: int|
                0 <= j < i ==> #[trigger] list[j] == (if old(list)[j].0 == id {
                    (id, value)
                } else {
                    old(list)[j]
                }),
            forall|j: int| i <= j < list.len() ==> #[trigger] list[j] == old(list)[j],
        decreases list.len() - i,
    {
        if list[i].0 == id {
            list[i] = (id, value);
        }
        i += 1;
    }
    assert(list@ =~= put(old(list)@, id, value));
    true
}

/// The increments whose id `known` does not hold.
fn increments_unknown_to(list: &Vec<(usize, usize)>, known: &Vec<usize>) -> (rest: Vec<
    (usize, usize),
>)
    ensures
        rest@ == unknown_to(list@, known@),
{
    let mut rest: Vec<(usize, usize)> = Vec::new();
    let mut i: usize = 0;
    assert(list@.take(0) =~= Seq::<(usize, usize)>::empty());
    while i < list.len()
        invariant
            i <= list.len(),
            rest@ == unknown_to(list@.take(i as int), known@),
        decreases list.len() - i,
    {
        assert(list@.take(i + 1).drop_last() =~= list@.take(i as int));
        if !has_number(known, list[i].0) {
            rest.push(list[i]);
        }
        i += 1;
    }
    assert(list@.take(list.len() as int) =~= list@);
    rest
}

impl GrowOnlyCounterNode {
    /// A node before `init`.
    pub open spec fn fresh() -> CounterView {
        CounterView {
            node_id: "uninit"@,
            message_id: 0,
            messages: Seq::empty(),
            value: 0,
            neighbors: Seq::empty(),
            known: Map::empty(),
        }
    }

    /// The map of what is known has no name twice, no two increments are
    /// kept under one id, and no list of known ids holds an id twice.
    pub closed spec fn well_formed(&self) -> bool {
        &&& self.known.wf()
        &&& distinct_ids(self.messages@)
        &&& lists_distinct(self.known@)
    }

    /// A node before `init`.
    pub fn new() -> (node: Self)
        ensures
            node.well_formed(),
            node@ == Self::fresh(),
    {
        let node = Self {
            node_id: "uninit".to_owned(),
            message_id: 0,
            messages: Vec::new(),
            value: 0,
            neighbors: Vec::new(),
            known: NameMap::new(),
        };
        proof {
            assert(name_seq(node.neighbors@) =~= Seq::<Seq<char>>::empty());
            assert(known_view(node.known@) =~= Map::<Seq<char>, Seq<usize>>::empty());
            assert(node@ =~= Self::fresh());
        }
        node
    }

    /// The total.
    pub fn value(&self) -> (value: usize)
        ensures
            value == self@.value,
    {
        self.value
    }

    /// The id that the next message from this node carries.
    pub fn message_id(&self) -> (id: usize)
        ensures
            id == self@.message_id,
    {
        self.message_id
    }

    /// Queues `message` for sending and uses up the message id.
    pub fn send_message(&mut self, out: &mut Vec<Message<Payload>>, message: Message<Payload>)
        requires
            old(self).well_formed(),
        ensures
            final(self).well_formed(),
            final(self)@ == old(self)@.next(),
            final(out)@ == old(out)@.push(message),
    {
        out.push(message);
        self.message_id = bump(self.message_id);
    }

    /// Queues a batch of messages for sending; the whole batch uses up
    /// one message id.
    pub fn send_messages(&mut self, out: &mut Vec<Message<Payload>>, messages: Vec<Message<Payload>>)
        requires
            old(self).well_formed(),
        ensures
            final(self).well_formed(),
            final(self)@ == old(self)@.next(),
            final(out)@ == old(out)@ + messages@,
    {
        let mut messages = messages;
        out.append(&mut messages);
        self.message_id = bump(self.message_id);
    }

    /// Handles `init`: takes the id, takes every other node as a
    /// neighbour of which nothing is known yet, and answers `init_ok`.
    pub fn handle_init(&mut self, message: &Message<Payload>, node_id: &str, node_ids: &Vec<String>) -> (out:
        Vec<Message<Payload>>)
        requires
            old(self).well_formed(),
        ensures
            final(self).well_formed(),
            (final(self)@, Ok::<Seq<Letter>, NodeError>(message_views(out@))) == old(self)@.step(
                message@.carrying(PayloadView::Init { node_id: node_id@, node_ids: name_seq(node_ids@) }),
            ),
    {
        let me = node_id.to_owned();
        let mut nodes: Vec<String> = Vec::new();
        let mut i: usize = 0;
        proof {
            assert(name_seq(node_ids@).take(0) =~= Seq::<Seq<char>>::empty());
            assert(name_seq(nodes@) =~= Seq::<Seq<char>>::empty());
            assert(known_view(self.known@) =~= reset_names(
                old(self)@.known,
                Seq::<Seq<char>>::empty(),
                Seq::empty(),
            ));
        }
        while i < node_ids.len()
            invariant
                i <= node_ids.len(),
                self.known.wf(),
                lists_distinct(self.known@),
                me@ == node_id@,
                self.node_id == old(self).node_id,
                self.message_id == old(self).message_id,
                self.messages == old(self).messages,
                self.value == old(self).value,
                self.neighbors == old(self).neighbors,
                name_seq(nodes@) == except(name_seq(node_ids@).take(i as int), node_id@),
                known_view(self.known@) == reset_names(
                    old(self)@.known,
                    name_seq(nodes@),
                    Seq::empty(),
                ),
            decreases node_ids.len() - i,
        {
            proof {
                let upto = name_seq(node_ids@).take(i + 1);
                assert(upto.drop_last() =~= name_seq(node_ids@).take(i as int));
                assert(upto.last() == node_ids@[i as int]@);
            }
            if !(node_ids[i] == me) {
                let ghost before = self.known@;
                let ghost head = name_seq(nodes@);
                self.known.insert(node_ids[i].as_str(), Vec::new());
                nodes.push(node_ids[i].clone());
                proof {
                    let upto = name_seq(nodes@);
                    let prior = known_view(before);
                    assert(upto =~= head.push(node_ids@[i as int]@));
                    assert forall|name: Seq<char>| upto.contains(name) <==> head.contains(name)
                        || name == node_ids@[i as int]@ by {
                        if upto.contains(name) {
                            let k = choose|k: int| 0 <= k < upto.len() && upto[k] == name;
                            if k < head.len() {
                                assert(head[k] == name);
                            }
                        }
                        if head.contains(name) {
                            let k = choose|k: int| 0 <= k < head.len() && head[k] == name;
                            assert(upto[k] == name);
                        }
                        if name == node_ids@[i as int]@ {
                            assert(upto[head.len() as int] == name);
                        }
                    }
                    let target = reset_names(old(self)@.known, upto, Seq::<usize>::empty());
                    let now = known_view(self.known@);
                    assert forall|name: Seq<char>| now.contains_key(name) <==> target.contains_key(
                        name,
                    ) by {
                        assert(prior.contains_key(name) <==> before.contains_key(name));
                        assert(prior.contains_key(name) <==> old(self)@.known.contains_key(name)
                            || head.contains(name));
                    }
                    assert forall|name: Seq<char>| now.contains_key(name) implies now[name]
                        == target[name] by {
                        assert(prior.contains_key(name) <==> before.contains_key(name));
                        if name == node_ids@[i as int]@ {
                            assert(now[name] =~= Seq::<usize>::empty());
                        } else {
                            assert(prior[name] == before[name]@);
                        }
                    }
                    assert(now =~= target);
                }
            }
            i += 1;
        }
        proof {
            assert(name_seq(node_ids@).take(node_ids.len() as int) =~= name_seq(node_ids@));
        }
        self.node_id = me;
        self.neighbors = nodes;
        let reply = message.reply(None, Payload::InitOk);
        let mut out: Vec<Message<Payload>> = Vec::new();
        self.send_message(&mut out, reply);
        proof {
            assert(message_views(out@) =~= seq![message@.reply(None, PayloadView::InitOk)]);
            assert(self@ =~= old(self)@.step(
                message@.carrying(PayloadView::Init { node_id: node_id@, node_ids: name_seq(node_ids@) }),
            ).0);
        }
        out
    }

    /// Handles `add`: keeps the increment under the id of the message,
    /// adds it to the total, and answers `add_ok`. An `add` without a
    /// message id is an error.
    pub fn handle_add(&mut self, message: &Message<Payload>, delta: usize) -> (result: Result<
        Vec<Message<Payload>>,
        NodeError,
    >)
        requires
            old(self).well_formed(),
        ensures
            final(self).well_formed(),
            (final(self)@, outcome_view(result)) == old(self)@.step(
                message@.carrying(PayloadView::Add { delta }),
            ),
    {
        let id = match message.msg_id() {
            Some(id) => id,
            None => {
                return Err(NodeError::MissingMessageId);
            },
        };
        let reply = message.reply(Some(self.message_id), Payload::AddOk);
        put_value(&mut self.messages, id, delta);
        self.value = add_wrapping(self.value, delta);
        let mut out: Vec<Message<Payload>> = Vec::new();
        self.send_message(&mut out, reply);
        proof {
            assert(message_views(out@) =~= seq![
                message@.reply(Some(old(self)@.message_id), PayloadView::AddOk),
            ]);
            assert(self@ =~= old(self)@.step(message@.carrying(PayloadView::Add { delta })).0);
        }
        Ok(out)
    }

    /// Handles `read`: answers with the total.
    pub fn handle_read(&mut self, message: &Message<Payload>) -> (out: Vec<Message<Payload>>)
        requires
            old(self).well_formed(),
        ensures
            final(self).well_formed(),
            (final(self)@, Ok::<Seq<Letter>, NodeError>(message_views(out@))) == old(self)@.step(
                message@.carrying(PayloadView::Read),
            ),
    {
        let reply = message.reply(Some(self.message_id), Payload::ReadOk { value: self.value });
        let mut out: Vec<Message<Payload>> = Vec::new();
        self.send_message(&mut out, reply);
        proof {
            assert(message_views(out@) =~= seq![
                message@.reply(
                    Some(old(self)@.message_id),
                    PayloadView::ReadOk { value: old(self)@.value },
                ),
            ]);
            assert(self@ =~= old(self)@.step(message@.carrying(PayloadView::Read)).0);
        }
        out
    }

    /// Handles gossip from `src`: `src` is known to have every id; an
    /// increment under a new id is kept and counted, one under an id that
    /// is there takes the place of the old one. Gossip from a node of
    /// which nothing is known is an error.
    pub fn handle_gossip(&mut self, message: &Message<Payload>, seen: &Vec<(usize, usize)>) -> (result:
        Result<Vec<Message<Payload>>, NodeError>)
        requires
            old(self).well_formed(),
        ensures
            final(self).well_formed(),
            (final(self)@, outcome_view(result)) == old(self)@.step(
                message@.carrying(PayloadView::Gossip { seen: seen@ }),
            ),
    {
        let src = message.src();
        let mut theirs = match self.known.get(src) {
            Some(theirs) => clone_numbers(theirs),
            None => {
                return Err(NodeError::UnknownNode);
            },
        };
        let ghost before = self.known@;
        let mut i: usize = 0;
        proof {
            assert(seen@.take(0) =~= Seq::<(usize, usize)>::empty());
        }
        while i < seen.len()
            invariant
                i <= seen.len(),
                self.known == old(self).known,
                self.node_id == old(self).node_id,
                self.message_id == old(self).message_id,
                self.neighbors == old(self).neighbors,
                distinct_ids(self.messages@),
                theirs@.no_duplicates(),
                theirs@ == with_ids(before[src@]@, seen@.take(i as int)),
                (self.messages@, self.value) == absorbed(
                    old(self)@.messages,
                    old(self)@.value,
                    seen@.take(i as int),
                ),
            decreases seen.len() - i,
        {
            proof {
                assert(seen@.take(i + 1).drop_last() =~= seen@.take(i as int));
            }
            add_number(&mut theirs, seen[i].0);
            if !put_value(&mut self.messages, seen[i].0, seen[i].1) {
                self.value = add_wrapping(self.value, seen[i].1);
            }
            i += 1;
        }
        proof {
            assert(seen@.take(seen.len() as int) =~= seen@);
        }
        self.known.insert(src, theirs);
        let out: Vec<Message<Payload>> = Vec::new();
        proof {
            let now = known_view(self.known@);
            let target = known_view(before).insert(src@, with_ids(known_view(before)[src@], seen@));
            assert forall|name: Seq<char>| now.contains_key(name) <==> target.contains_key(
                name,
            ) by {
                assert(known_view(before).contains_key(name) <==> before.contains_key(name));
            }
            assert forall|name: Seq<char>| now.contains_key(name) implies now[name]
                == target[name] by {
                assert(known_view(before).contains_key(name) <==> before.contains_key(name));
            }
            assert(now =~= target);
            assert(message_views(out@) =~= Seq::<Letter>::empty());
            assert(self@ =~= old(self)@.step(
                message@.carrying(PayloadView::Gossip { seen: seen@ }),
            ).0);
        }
        Ok(out)
    }

    /// Whether something is known of every neighbour.
    fn neighbors_known(&self) -> (all: bool)
        requires
            self.well_formed(),
        ensures
            all == self@.neighbors_known(),
    {
        let mut i: usize = 0;
        while i < self.neighbors.len()
            invariant
                i <= self.neighbors.len(),
                forall|k: int|
                    0 <= k < i ==> self@.known.contains_key(#[trigger] self@.neighbors[k]),
            decreases self.neighbors.len() - i,
        {
            if !self.known.contains_key(self.neighbors[i].as_str()) {
                proof {
                    assert(self@.neighbors[i as int] == self.neighbors[i as int]@);
                    assert(!self@.known.contains_key(self@.neighbors[i as int]));
                }
                return false;
            }
            proof {
                assert(self@.neighbors[i as int] == self.neighbors[i as int]@);
            }
            i += 1;
        }
        true
    }

    /// Handles the gossip trigger: every neighbour gets the increments
    /// whose id it is not known to have, also when there are none.
    /// Without neighbours nothing happens.
    pub fn handle_trigger_gossip(&mut self) -> (result: Result<Vec<Message<Payload>>, NodeError>)
        requires
            old(self).well_formed(),
        ensures
            final(self).well_formed(),
            (final(self)@, outcome_view(result)) == old(self)@.step(
                MessageView {
                    src: old(self)@.node_id,
                    dest: old(self)@.node_id,
                    msg_id: None,
                    in_reply_to: None,
                    payload: PayloadView::TriggerGossip,
                },
            ),
    {
        let mut out: Vec<Message<Payload>> = Vec::new();
        if self.neighbors.len() == 0 {
            proof {
                assert(message_views(out@) =~= Seq::<Letter>::empty());
            }
            return Ok(out);
        }
        if !self.neighbors_known() {
            return Err(NodeError::UnknownNode);
        }
        let mut messages: Vec<Message<Payload>> = Vec::new();
        let mut i: usize = 0;
        while i < self.neighbors.len()
            invariant
                i <= self.neighbors.len(),
                self == old(self),
                self.well_formed(),
                self@.neighbors_known(),
                messages.len() == i,
                forall|k: int| 0 <= k < i ==> (#[trigger] messages[k])@ == self@.gossip()[k],
            decreases self.neighbors.len() - i,
        {
            proof {
                assert(self@.neighbors[i as int] == self.neighbors[i as int]@);
                assert(self@.known.contains_key(self@.neighbors[i as int]));
            }
            let not_seen = match self.known.get(self.neighbors[i].as_str()) {
                Some(theirs) => increments_unknown_to(&self.messages, theirs),
                None => Vec::new(),
            };
            let message = Message::new(
                self.node_id.clone(),
                self.neighbors[i].clone(),
                Body::new(Some(self.message_id), None, Payload::Gossip { seen: not_seen }),
            );
            let ghost before = messages@;
            messages.push(message);
            assert forall|k: int| 0 <= k < i + 1 implies (#[trigger] messages[k])@
                == self@.gossip()[k] by {
                if k < i {
                    assert(messages[k] == before[k]);
                }
            }
            i += 1;
        }
        proof {
            assert(message_views(messages@) =~= self@.gossip());
        }
        self.send_messages(&mut out, messages);
        proof {
            assert(out@ =~= messages@);
        }
        Ok(out)
    }
}

impl Node<Payload> for GrowOnlyCounterNode {
    open spec fn wf(&self) -> bool {
        self.well_formed()
    }

    open spec fn handles(
        &self,
        message: &Message<Payload>,
        post: &Self,
        result: &Result<Vec<Message<Payload>>, NodeError>,
    ) -> bool {
        (post@, outcome_view(*result)) == self@.step(message@)
    }

    fn handle_message(&mut self, message: &Message<Payload>) -> (result: Result<
        Vec<Message<Payload>>,
        NodeError,
    >) {
        match &message.body.payload {
            Payload::Init { node_id, node_ids } => Ok(
                self.handle_init(message, node_id.as_str(), node_ids),
            ),
            Payload::Add { delta } => self.handle_add(message, *delta),
            Payload::Read => Ok(self.handle_read(message)),
            Payload::TriggerGossip => self.handle_trigger_gossip(),
            Payload::Gossip { seen } => self.handle_gossip(message, seen),
            _ => {
                let out: Vec<Message<Payload>> = Vec::new();
                assert(message_views(out@) =~= Seq::<Letter>::empty());
                Ok(out)
            },
        }
    }
}

} // verus!
