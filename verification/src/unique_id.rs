//! A node that hands out ids that are unique across the cluster: its own
//! node id, a hyphen, and a random UUID in its 32-digit form.
use crate::names::name_seq;
use crate::{bump, message_views, next_id, Message, MessageView, Node, NodeError};
use vstd::prelude::*;
use vstd::string::StringExecFns;

verus! {

/// What a message of the unique-id protocol carries.
#[derive(Debug)]
pub enum Payload {
    Init { node_id: String, node_ids: Vec<String> },
    InitOk,
    Generate,
    GenerateOk { id: String },
}

/// A payload as specifications see it.
pub enum PayloadView {
    Init { node_id: Seq<char>, node_ids: Seq<Seq<char>> },
    InitOk,
    Generate,
    GenerateOk { id: Seq<char> },
}

impl View for Payload {
    type V = PayloadView;

    open spec fn view(&self) -> PayloadView {
        match self {
            Payload::Init { node_id, node_ids } => PayloadView::Init {
                node_id: node_id@,
                node_ids: name_seq(node_ids@),
            },
            Payload::InitOk => PayloadView::InitOk,
            Payload::Generate => PayloadView::Generate,
            Payload::GenerateOk { id } => PayloadView::GenerateOk { id: id@ },
        }
    }
}

/// Whether `c` is a decimal digit or one of the letters `a` to `f`.
pub open spec fn is_lower_hex(c: char) -> bool {
    c == '0' || c == '1' || c == '2' || c == '3' || c == '4' || c == '5' || c == '6' || c == '7'
        || c == '8' || c == '9' || c == 'a' || c == 'b' || c == 'c' || c == 'd' || c == 'e' || c
        == 'f'
}

/// Whether `text` has the shape of a UUID in its simple form: 32
/// lower-case hexadecimal digits.
pub open spec fn is_simple_uuid(text: Seq<char>) -> bool {
    text.len() == 32 && forall|i: int| 0 <= i < 32 ==> is_lower_hex(#[trigger] text[i])
}

/// The id made of a node id and a UUID.
pub open spec fn unique_id(node_id: Seq<char>, uuid: Seq<char>) -> Seq<char> {
    node_id + seq!['-'] + uuid
}

/// A fresh random UUID in its simple form, from `uuid::Uuid::new_v4`
/// formatted through `uuid::Uuid::simple`. The contract claims the shape
/// only, 32 lower-case hexadecimal digits; which digits come out is left
/// to chance, and two calls need not agree. The call panics if the
/// operating system gives no random bytes.
#[verifier::external_body]
fn random_uuid() -> (text: String)
    ensures
        is_simple_uuid(text@),
{
    uuid::Uuid::new_v4().simple().to_string()
}

/// A unique-id node.
pub struct UniqueIdNode {
    node_id: String,
    message_id: usize,
}

/// The state of a unique-id node.
pub struct UniqueIdView {
    pub node_id: Seq<char>,
    pub message_id: usize,
}

impl View for UniqueIdNode {
    type V = UniqueIdView;

    closed spec fn view(&self) -> UniqueIdView {
        UniqueIdView { node_id: self.node_id@, message_id: self.message_id }
    }
}

impl UniqueIdView {
    /// The node after it sent something.
    pub open spec fn next(self) -> UniqueIdView {
        UniqueIdView { message_id: next_id(self.message_id), ..self }
    }

    /// The answer to `generate` when the UUID drawn is `uuid`.
    pub open spec fn generated(self, request: MessageView<PayloadView>, uuid: Seq<char>) -> Seq<
        MessageView<PayloadView>,
    > {
        seq![
            request.reply(
                Some(self.message_id),
                PayloadView::GenerateOk { id: unique_id(self.node_id, uuid) },
            ),
        ]
    }

    /// Whether handling `request` may leave the node as `post` and send
    /// `out`. `init` names the node; `generate` is answered with an id
    /// made of the node id and some UUID; nothing else is answered.
    pub open spec fn steps(
        self,
        request: MessageView<PayloadView>,
        post: UniqueIdView,
        out: Seq<MessageView<PayloadView>>,
    ) -> bool {
        match request.payload {
            PayloadView::Init { node_id, node_ids } => post == (UniqueIdView {
                node_id,
                message_id: next_id(self.message_id),
            }) && out == seq![request.reply(None, PayloadView::InitOk)],
            PayloadView::Generate => post == self.next() && exists|uuid: Seq<char>| #[trigger]
                is_simple_uuid(uuid) && out == self.generated(request, uuid),
            _ => post == self && out == Seq::<MessageView<PayloadView>>::empty(),
        }
    }
}

impl UniqueIdNode {
    /// A node before `init`.
    pub fn new() -> (node: Self)
        ensures
            node@ == (UniqueIdView { node_id: "uninit"@, message_id: 0 }),
    {
        Self { node_id: "uninit".to_owned(), message_id: 0 }
    }

    /// This node's id.
    pub fn node_id(&self) -> (id: &str)
        ensures
            id@ == self@.node_id,
    {
        self.node_id.as_str()
    }

    /// The id that the next message from this node carries.
    pub fn message_id(&self) -> (id: usize)
        ensures
            id == self@.message_id,
    {
        self.message_id
    }

    /// Queues `message` for sending and uses up the message id.
    pub fn send_message(&mut self, out: &mut Vec<Message<Payload>>, message: Message<Payload>)
        ensures
            final(self)@ == old(self)@.next(),
            final(out)@ == old(out)@.push(message),
    {
        out.push(message);
        self.message_id = bump(self.message_id);
    }

    /// Handles `init`: takes the id and answers `init_ok`.
    pub fn handle_init(&mut self, message: &Message<Payload>, node_id: &str) -> (out: Vec<
        Message<Payload>,
    >)
        ensures
            final(self)@ == (UniqueIdView {
                node_id: node_id@,
                message_id: next_id(old(self)@.message_id),
            }),
            message_views(out@) == seq![message@.reply(None, PayloadView::InitOk)],
    {
        self.node_id = node_id.to_owned();
        let reply = message.reply(None, Payload::InitOk);
        let mut out: Vec<Message<Payload>> = Vec::new();
        self.send_message(&mut out, reply);
        assert(message_views(out@) =~= seq![message@.reply(None, PayloadView::InitOk)]);
        out
    }

    /// Answers `generate` with the id made of this node's id and `uuid`.
    pub fn handle_generate_with(&mut self, message: &Message<Payload>, uuid: &str) -> (out: Vec<
        Message<Payload>,
    >)
        ensures
            final(self)@ == old(self)@.next(),
            message_views(out@) == old(self)@.generated(message@, uuid@),
    {
        proof {
            reveal_strlit("-");
        }
        let id = self.node_id.clone().concat("-").concat(uuid);
        assert(id@ =~= unique_id(self.node_id@, uuid@));
        let reply = message.reply(Some(self.message_id), Payload::GenerateOk { id });
        let mut out: Vec<Message<Payload>> = Vec::new();
        self.send_message(&mut out, reply);
        assert(message_views(out@) =~= old(self)@.generated(message@, uuid@));
        out
    }

    /// Handles `generate`: draws a random UUID and answers with the id
    /// made of this node's id and that UUID.
    pub fn handle_generate(&mut self, message: &Message<Payload>) -> (out: Vec<Message<Payload>>)
        ensures
            final(self)@ == old(self)@.next(),
            exists|uuid: Seq<char>| #[trigger]
                is_simple_uuid(uuid) && message_views(out@) == old(self)@.generated(message@, uuid),
    {
        let uuid = random_uuid();
        self.handle_generate_with(message, uuid.as_str())
    }
}

impl Node<Payload> for UniqueIdNode {
    open spec fn wf(&self) -> bool {
        true
    }

    open spec fn handles(
        &self,
        message: &Message<Payload>,
        post: &Self,
        result: &Result<Vec<Message<Payload>>, NodeError>,
    ) -> bool {
        &&& *result matches Ok(out)
        &&& self@.steps(message@, post@, message_views(out@))
    }

    fn handle_message(&mut self, message: &Message<Payload>) -> (result: Result<
        Vec<Message<Payload>>,
        NodeError,
    >) {
        let out = match &message.body.payload {
            Payload::Init { node_id, .. } => self.handle_init(message, node_id.as_str()),
            Payload::Generate => self.handle_generate(message),
            _ => {
                let out: Vec<Message<Payload>> = Vec::new();
                assert(message_views(out@) =~= Seq::<MessageView<PayloadView>>::empty());
                out
            },
        };
        Ok(out)
    }
}

} // verus!
