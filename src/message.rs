//! The message envelope shared by every workload, and the reply rules.
use vstd::prelude::*;

verus! {

/// The body of a message: an optional id, an optional correlation id and the
/// workload payload.
pub struct Body<Payload> {
    pub id: Option<usize>,
    pub in_reply_to: Option<usize>,
    pub payload: Payload,
}

/// An envelope: who sent it, to whom, and what it carries.
pub struct Message<Payload> {
    pub src: String,
    pub dst: String,
    pub body: Body<Payload>,
}

/// What the first message of a run carries: the node's own id and the ids of
/// every node of the cluster.
pub struct Init {
    pub node_id: String,
    pub node_ids: Vec<String>,
}

/// The payloads of the start-up exchange.
pub enum InitPayload {
    Init(Init),
    InitOk,
}

/// What a node is handed, one at a time: a message, an event it injected
/// itself (a timer tick), or the end of its input.
pub enum Event<Payload, InjectedPayload> {
    Message(Message<Payload>),
    Injected(InjectedPayload),
    EOF,
}

/// `reply` answers `req`: it goes back to where `req` came from, names
/// `req`'s id as the one it answers, and carries id `id`.
pub open spec fn answers<P, Q>(reply: Message<P>, req: Message<Q>, id: usize) -> bool {
    &&& reply.src@ == req.dst@
    &&& reply.dst@ == req.src@
    &&& reply.body.in_reply_to == req.body.id
    &&& reply.body.id == Some(id)
}

/// Key-value service error code: the key does not exist.
pub const KEY_NOT_EXIST_CODE: u8 = 20;

/// Key-value service error code: a compare-and-swap found another value.
pub const PRECONDITION_FAILED_CODE: u8 = 22;

/// Why a step did not complete.
pub enum GanError {
    SendError(String),
    Rpc { code: u8, text: String },
    Normal(String),
    PreconditionFailed,
    KeyNotExist,
}

impl<Payload> Message<Payload> {
    /// Turns a request into its reply: source and destination swap, the reply
    /// answers the request's id, and takes the next id of `id` when one is given.
    pub fn into_reply(self, id: Option<&mut usize>) -> (r: Self)
        requires
            id matches Some(c) ==> *c < usize::MAX,
        ensures
            r.src@ == self.dst@,
            r.dst@ == self.src@,
            r.body.in_reply_to == self.body.id,
            r.body.payload == self.body.payload,
            id is None ==> r.body.id is None,
            id is Some ==> r.body.id == Some(*(id->0)) && *final(id->0) == *(id->0) + 1,
    {
        let next = match id {
            Some(c) => {
                let mid = *c;
                *c = mid + 1;
                Some(mid)
            },
            None => None,
        };
        Message {
            src: self.dst,
            dst: self.src,
            body: Body { id: next, in_reply_to: self.body.id, payload: self.body.payload },
        }
    }

    /// A fresh request from `node_id` to `typ`, answering `in_reply_to`, with
    /// the default payload and the next id of `id` when one is given.
    pub fn kv_message(
        node_id: &str,
        typ: &str,
        id: Option<&mut usize>,
        in_reply_to: Option<usize>,
    ) -> (r: Self) where Payload: Default
        requires
            id is Some ==> *(id->0) < usize::MAX,
        ensures
            r.src@ == node_id@,
            r.dst@ == typ@,
            r.body.in_reply_to == in_reply_to,
            id is None ==> r.body.id is None,
            id is Some ==> r.body.id == Some(*(id->0)) && *final(id->0) == *(id->0) + 1,
    {
        let next = match id {
            Some(c) => {
                let mid = *c;
                *c = mid + 1;
                Some(mid)
            },
            None => None,
        };
        Message {
            src: node_id.to_string(),
            dst: typ.to_string(),
            body: Body { id: next, in_reply_to, payload: Payload::default() },
        }
    }
}

impl Message<InitPayload> {
    /// Answers the first message of a run. When it is an `init`, the reply is
    /// an `init_ok` with id 0 that answers the request's id, sent back to
    /// where the request came from, and the node's start-up data comes with it.
    pub fn into_init_reply(self) -> (r: Result<(Message<InitPayload>, Init), GanError>)
        ensures
            self.body.payload is Init <==> r is Ok,
            r matches Ok((reply, init)) ==> {
                &&& reply.src@ == self.dst@
                &&& reply.dst@ == self.src@
                &&& reply.body.id == Some(0usize)
                &&& reply.body.in_reply_to == self.body.id
                &&& reply.body.payload is InitOk
                &&& init == self.body.payload->Init_0
            },
            r matches Err(e) ==> e is Normal,
    {
        match self.body.payload {
            InitPayload::Init(init) => {
                let reply = Message {
                    src: self.dst,
                    dst: self.src,
                    body: Body { id: Some(0), in_reply_to: self.body.id, payload: InitPayload::InitOk },
                };
                Ok((reply, init))
            },
            InitPayload::InitOk => Err(GanError::Normal("first message should be init".to_string())),
        }
    }
}

} // verus!
