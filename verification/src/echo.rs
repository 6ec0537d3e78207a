//! A node that answers every `echo` with the text it was sent.
use crate::names::name_seq;
use crate::{bump, message_views, next_id, Message, MessageView, Node, NodeError};
use vstd::prelude::*;

verus! {

/// What a message of the echo protocol carries.
#[derive(Debug)]
pub enum Payload {
    Init { node_id: String, node_ids: Vec<String> },
    InitOk,
    Echo { echo: String },
    EchoOk { echo: String },
}

/// A payload as specifications see it.
pub enum PayloadView {
    Init { node_id: Seq<char>, node_ids: Seq<Seq<char>> },
    InitOk,
    Echo { echo: Seq<char> },
    EchoOk { echo: Seq<char> },
}

impl View for Payload {
    type V = PayloadView;

    open spec fn view(&self) -> PayloadView {
        match self {
            Payload::Init { node_id, node_ids } => PayloadView::Init {
                node_id: node_id@,
                node_ids: name_seq(node_ids@),
            },
            Payload::InitOk => PayloadView::InitOk,
            Payload::Echo { echo } => PayloadView::Echo { echo: echo@ },
            Payload::EchoOk { echo } => PayloadView::EchoOk { echo: echo@ },
        }
    }
}

/// An echo node.
pub struct EchoNode {
    node_id: String,
    message_id: usize,
}

/// The state of an echo node.
pub struct EchoView {
    pub node_id: Seq<char>,
    pub message_id: usize,
}

impl View for EchoNode {
    type V = EchoView;

    closed spec fn view(&self) -> EchoView {
        EchoView { node_id: self.node_id@, message_id: self.message_id }
    }
}

impl EchoView {
    /// What handling `request` makes of the node, and what it sends.
    /// `init` names the node and is answered without a message id;
    /// `echo` is answered with the same text; nothing else is answered.
    pub open spec fn step(self, request: MessageView<PayloadView>) -> (EchoView, Seq<
        MessageView<PayloadView>,
    >) {
        match request.payload {
            PayloadView::Init { node_id, node_ids } => (
                EchoView { node_id, message_id: next_id(self.message_id) },
                seq![request.reply(None, PayloadView::InitOk)],
            ),
            PayloadView::Echo { echo } => (
                EchoView { message_id: next_id(self.message_id), ..self },
                seq![request.reply(Some(self.message_id), PayloadView::EchoOk { echo })],
            ),
            _ => (self, Seq::empty()),
        }
    }
}

impl EchoNode {
    /// A node before `init`.
    pub fn new() -> (node: Self)
        ensures
            node@ == (EchoView { node_id: "uninit"@, message_id: 0 }),
    {
        Self { node_id: "uninit".to_owned(), message_id: 0 }
    }

    /// This node's id.
    pub fn node_id(&self) -> (id: &str)
        ensures
            id@ == self@.node_id,
    {
        self.node_id.as_str()
    }

    /// The id that the next message from this node carries.
    pub fn message_id(&self) -> (id: usize)
        ensures
            id == self@.message_id,
    {
        self.message_id
    }

    /// Queues `message` for sending and uses up the message id.
    pub fn send_message(&mut self, out: &mut Vec<Message<Payload>>, message: Message<Payload>)
        ensures
            final(self)@ == (EchoView { message_id: next_id(old(self)@.message_id), ..old(self)@ }),
            final(out)@ == old(out)@.push(message),
    {
        out.push(message);
        self.message_id = bump(self.message_id);
    }

    /// Handles `init`: takes the id and answers `init_ok`.
    pub fn handle_init(&mut self, message: &Message<Payload>, node_id: &str) -> (out: Vec<
        Message<Payload>,
    >)
        ensures
            final(self)@ == (EchoView {
                node_id: node_id@,
                message_id: next_id(old(self)@.message_id),
            }),
            message_views(out@) == seq![message@.reply(None, PayloadView::InitOk)],
    {
        self.node_id = node_id.to_owned();
        let reply = message.reply(None, Payload::InitOk);
        let mut out: Vec<Message<Payload>> = Vec::new();
        self.send_message(&mut out, reply);
        assert(message_views(out@) =~= seq![message@.reply(None, PayloadView::InitOk)]);
        out
    }

    /// Handles `echo`: answers `echo_ok` with the same text.
    pub fn handle_echo(&mut self, message: &Message<Payload>, echo: &str) -> (out: Vec<
        Message<Payload>,
    >)
        ensures
            final(self)@ == (EchoView { message_id: next_id(old(self)@.message_id), ..old(self)@ }),
            message_views(out@) == seq![
                message@.reply(Some(old(self)@.message_id), PayloadView::EchoOk { echo: echo@ }),
            ],
    {
        let reply = message.reply(Some(self.message_id), Payload::EchoOk { echo: echo.to_owned() });
        let mut out: Vec<Message<Payload>> = Vec::new();
        self.send_message(&mut out, reply);
        assert(message_views(out@) =~= seq![
            message@.reply(Some(old(self)@.message_id), PayloadView::EchoOk { echo: echo@ }),
        ]);
        out
    }
}

impl Node<Payload> for EchoNode {
    open spec fn wf(&self) -> bool {
        true
    }

    open spec fn handles(
        &self,
        message: &Message<Payload>,
        post: &Self,
        result: &Result<Vec<Message<Payload>>, NodeError>,
    ) -> bool {
        &&& *result matches Ok(out)
        &&& (post@, message_views(out@)) == self@.step(message@)
    }

    fn handle_message(&mut self, message: &Message<Payload>) -> (result: Result<
        Vec<Message<Payload>>,
        NodeError,
    >) {
        let out = match &message.body.payload {
            Payload::Init { node_id, .. } => self.handle_init(message, node_id.as_str()),
            Payload::Echo { echo } => self.handle_echo(message, echo.as_str()),
            _ => {
                let out: Vec<Message<Payload>> = Vec::new();
                assert(message_views(out@) =~= Seq::<MessageView<PayloadView>>::empty());
                out
            },
        };
        Ok(out)
    }
}

} // verus!
