//! The shared counter: one integer kept in the sequential key-value service
//! under key `Counter`, changed only by compare-and-swap.
//!
//! Each client request becomes an operation that waits for one key-value reply
//! at a time; the node keeps every such operation, keyed by the id of the
//! request it waits on, so other traffic is served meanwhile.
use vstd::prelude::*;
use crate::kv::{rpc_error, rpc_error_spec};
use crate::message::{answers, Event, GanError, Init, Message, KEY_NOT_EXIST_CODE, PRECONDITION_FAILED_CODE};
use crate::pending::{expire, find_awaiting, index_awaiting, lemma_index_awaiting, still_waits, Pending, Tick};
use crate::random::gen_below;

verus! {

/// The payloads of the counter workload, with those of the key-value service.
pub enum Payload {
    Add { delta: u64 },
    AddOk,
    Read,
    ReadOk { value: u64 },
    KvRead { key: String },
    Write { key: String, value: u64 },
    WriteOk,
    Cas { key: String, from: u64, to: u64, create_if_not_exists: bool },
    CasOk,
    Error { code: u8, text: String },
}

/// Where an operation on the counter stands: the reply it waits for.
pub enum CounterOp {
    /// An add waits for the counter's value.
    AddRead { delta: u64 },
    /// An add found no counter and waits for it to be written as 0.
    AddInit { delta: u64 },
    /// An add waits for its compare-and-swap from `from` to `from + delta`.
    AddCas { delta: u64, from: u64 },
    /// A read waits for its synchronising write.
    ReadSync,
    /// A read waits for the counter's value.
    ReadRead,
    /// A read found no counter and waits for it to be written as 0.
    ReadInit,
}

/// A call on the counter key.
pub enum KvCall {
    Read,
    WriteZero,
    Cas { from: u64, to: u64 },
}

/// What an operation does on a reply.
pub enum Move {
    /// Makes another call, and waits in the new state.
    Call { op: CounterOp, call: KvCall },
    /// Is done: an add (no value) or a read of `value`.
    Done { value: Option<u64> },
}

/// The counter protocol: for an operation in state `op` and the service's
/// reply `reply`, what it does next; `None` when the operation fails.
pub open spec fn move_spec(op: CounterOp, reply: Payload) -> Option<Move> {
    match op {
        CounterOp::AddRead { delta } => match reply {
            Payload::ReadOk { value } => if value + delta <= u64::MAX {
                Some(Move::Call { op: CounterOp::AddCas { delta, from: value }, call: KvCall::Cas { from: value, to: (value + delta) as u64 } })
            } else {
                None
            },
            Payload::Error { code, .. } => if code == KEY_NOT_EXIST_CODE {
                Some(Move::Call { op: CounterOp::AddInit { delta }, call: KvCall::WriteZero })
            } else {
                None
            },
            _ => None,
        },
        CounterOp::AddInit { delta } => match reply {
            Payload::WriteOk => Some(Move::Call { op: CounterOp::AddCas { delta, from: 0 }, call: KvCall::Cas { from: 0, to: delta } }),
            _ => None,
        },
        CounterOp::AddCas { delta, from } => match reply {
            Payload::CasOk => Some(Move::Done { value: None }),
            Payload::Error { code, .. } => if code == PRECONDITION_FAILED_CODE {
                Some(Move::Call { op: CounterOp::AddRead { delta }, call: KvCall::Read })
            } else {
                None
            },
            _ => None,
        },
        CounterOp::ReadSync => match reply {
            Payload::WriteOk => Some(Move::Call { op: CounterOp::ReadRead, call: KvCall::Read }),
            _ => None,
        },
        CounterOp::ReadRead => match reply {
            Payload::ReadOk { value } => Some(Move::Done { value: Some(value) }),
            Payload::Error { code, .. } => if code == KEY_NOT_EXIST_CODE {
                Some(Move::Call { op: CounterOp::ReadInit, call: KvCall::WriteZero })
            } else {
                None
            },
            _ => None,
        },
        CounterOp::ReadInit => match reply {
            Payload::WriteOk => Some(Move::Done { value: Some(0) }),
            _ => None,
        },
    }
}

/// Applies the counter protocol to one reply. A failure is the service's
/// own error when the reply was one.
pub fn advance(op: &CounterOp, reply: &Payload) -> (r: Result<Move, GanError>)
    ensures
        r is Ok <==> move_spec(*op, *reply) is Some,
        r matches Ok(m) ==> move_spec(*op, *reply) == Some(m),
        r is Err && reply is Error ==> r == Err::<Move, GanError>(rpc_error_spec(reply->code, reply->text)),
{
    match op {
        CounterOp::AddRead { delta } => match reply {
            Payload::ReadOk { value } => if *value <= u64::MAX - *delta {
                Ok(Move::Call { op: CounterOp::AddCas { delta: *delta, from: *value }, call: KvCall::Cas { from: *value, to: *value + *delta } })
            } else {
                Err(GanError::Normal("the counter would overflow".to_string()))
            },
            Payload::Error { code, text } => if *code == KEY_NOT_EXIST_CODE {
                Ok(Move::Call { op: CounterOp::AddInit { delta: *delta }, call: KvCall::WriteZero })
            } else {
                Err(rpc_error(*code, text.clone()))
            },
            _ => Err(GanError::Normal("should not be other payload".to_string())),
        },
        CounterOp::AddInit { delta } => match reply {
            Payload::WriteOk => Ok(Move::Call { op: CounterOp::AddCas { delta: *delta, from: 0 }, call: KvCall::Cas { from: 0, to: *delta } }),
            Payload::Error { code, text } => Err(rpc_error(*code, text.clone())),
            _ => Err(GanError::Normal("should not be other payload".to_string())),
        },
        CounterOp::AddCas { delta, from } => match reply {
            Payload::CasOk => Ok(Move::Done { value: None }),
            Payload::Error { code, text } => if *code == PRECONDITION_FAILED_CODE {
                Ok(Move::Call { op: CounterOp::AddRead { delta: *delta }, call: KvCall::Read })
            } else {
                Err(rpc_error(*code, text.clone()))
            },
            _ => Err(GanError::Normal("should not be other payload".to_string())),
        },
        CounterOp::ReadSync => match reply {
            Payload::WriteOk => Ok(Move::Call { op: CounterOp::ReadRead, call: KvCall::Read }),
            Payload::Error { code, text } => Err(rpc_error(*code, text.clone())),
            _ => Err(GanError::Normal("should not be other payload".to_string())),
        },
        CounterOp::ReadRead => match reply {
            Payload::ReadOk { value } => Ok(Move::Done { value: Some(*value) }),
            Payload::Error { code, text } => if *code == KEY_NOT_EXIST_CODE {
                Ok(Move::Call { op: CounterOp::ReadInit, call: KvCall::WriteZero })
            } else {
                Err(rpc_error(*code, text.clone()))
            },
            _ => Err(GanError::Normal("should not be other payload".to_string())),
        },
        CounterOp::ReadInit => match reply {
            Payload::WriteOk => Ok(Move::Done { value: Some(0) }),
            Payload::Error { code, text } => Err(rpc_error(*code, text.clone())),
            _ => Err(GanError::Normal("should not be other payload".to_string())),
        },
    }
}

/// The key under which the counter is kept.
pub open spec fn counter_key() -> Seq<char> {
    seq!['C', 'o', 'u', 'n', 't', 'e', 'r']
}

/// The key of the synchronising write.
pub open spec fn sync_key() -> Seq<char> {
    seq!['s', 'y', 'n', 'c']
}

/// The name of the sequential key-value service.
pub open spec fn seq_kv() -> Seq<char> {
    seq!['s', 'e', 'q', '-', 'k', 'v']
}

/// Values of the synchronising write lie below this bound.
pub const SYNC_VALUE_BOUND: u64 = 1_000_000_000;

/// `msg` is request `id` of node `node_id` to the sequential key-value
/// service, and makes `call` on the counter key.
pub open spec fn is_call(msg: Message<Payload>, node_id: Seq<char>, id: usize, call: KvCall) -> bool {
    &&& msg.src@ == node_id
    &&& msg.dst@ == seq_kv()
    &&& msg.body.id == Some(id)
    &&& msg.body.in_reply_to is None
    &&& match call {
        KvCall::Read => msg.body.payload matches Payload::KvRead { key } && key@ == counter_key(),
        KvCall::WriteZero => msg.body.payload matches Payload::Write { key, value } && key@ == counter_key() && value == 0,
        KvCall::Cas { from, to } => msg.body.payload matches Payload::Cas { key, from: f, to: t, create_if_not_exists }
            && key@ == counter_key() && f == from && t == to && create_if_not_exists,
    }
}

/// `msg` is request `id` of node `node_id`: a write of some value below
/// the bound under the synchronising key.
pub open spec fn is_sync(msg: Message<Payload>, node_id: Seq<char>, id: usize) -> bool {
    &&& msg.src@ == node_id
    &&& msg.dst@ == seq_kv()
    &&& msg.body.id == Some(id)
    &&& msg.body.in_reply_to is None
    &&& msg.body.payload matches Payload::Write { key, value } && key@ == sync_key() && value < SYNC_VALUE_BOUND
}

/// A node of the counter workload.
pub struct CounterNode {
    pub id: usize,
    pub node_id: String,
    /// The node's clock, in milliseconds, as the last tick set it.
    pub now: u64,
    pub pending: Vec<Pending<Payload, CounterOp>>,
}

/// Builds request `id` of node `node_id` that makes `call` on the counter key.
fn call_message(node_id: &String, id: usize, call: &KvCall) -> (r: Message<Payload>)
    ensures
        is_call(r, node_id@, id, *call),
{
    proof {
        reveal_strlit("Counter");
        reveal_strlit("seq-kv");
        assert("Counter"@ =~= counter_key());
        assert("seq-kv"@ =~= seq_kv());
    }
    let key = "Counter".to_string();
    let payload = match call {
        KvCall::Read => Payload::KvRead { key },
        KvCall::WriteZero => Payload::Write { key, value: 0 },
        KvCall::Cas { from, to } => Payload::Cas { key, from: *from, to: *to, create_if_not_exists: true },
    };
    Message {
        src: node_id.clone(),
        dst: "seq-kv".to_string(),
        body: crate::message::Body { id: Some(id), in_reply_to: None, payload },
    }
}

impl CounterNode {
    /// A node with nothing in flight, whose next message id is 1.
    pub fn from_init(init: Init) -> (r: Self)
        ensures
            r.id == 1,
            r.node_id@ == init.node_id@,
            r.pending@.len() == 0,
            r.now == 0,
    {
        CounterNode { id: 1, node_id: init.node_id, now: 0, pending: Vec::new() }
    }

    /// Serves one event.
    ///
    /// An `add` of 0 is answered at once. Any other `add` starts by reading
    /// the counter; a `read` starts with a write under the synchronising key.
    /// A reply of the service moves the operation that waits on it as the
    /// counter protocol says: it makes its next call, answers its client, or
    /// fails and is dropped. Every message sent takes the next message id.
    pub fn step(&mut self, input: Event<Payload, Tick>) -> (r: Result<Vec<Message<Payload>>, GanError>)
        ensures
            final(self).node_id == old(self).node_id,
            !(input is Injected) ==> final(self).now == old(self).now,
            match input {
                Event::Message(m) => match m.body.payload {
                    Payload::Add { delta } => if old(self).id == usize::MAX {
                        r is Err && *final(self) == *old(self)
                    } else if delta == 0 {
                        r matches Ok(out) && out@.len() == 1
                        && answers(out@[0], m, old(self).id)
                        && out@[0].body.payload is AddOk
                        && final(self).id == old(self).id + 1
                        && final(self).pending@ == old(self).pending@
                    } else {
                        r matches Ok(out) && out@.len() == 1
                        && is_call(out@[0], old(self).node_id@, old(self).id, KvCall::Read)
                        && final(self).id == old(self).id + 1
                        && final(self).pending@ == old(self).pending@.push(Pending {
                            awaiting: old(self).id, since: old(self).now, request: m, op: CounterOp::AddRead { delta } })
                    },
                    Payload::Read => if old(self).id == usize::MAX {
                        r is Err && *final(self) == *old(self)
                    } else {
                        r matches Ok(out) && out@.len() == 1
                        && is_sync(out@[0], old(self).node_id@, old(self).id)
                        && final(self).id == old(self).id + 1
                        && final(self).pending@ == old(self).pending@.push(Pending {
                            awaiting: old(self).id, since: old(self).now, request: m, op: CounterOp::ReadSync })
                    },
                    Payload::ReadOk { .. } | Payload::WriteOk | Payload::CasOk | Payload::Error { .. } => {
                        let i = match m.body.in_reply_to {
                            Some(a) => index_awaiting(old(self).pending@, a),
                            None => -1,
                        };
                        if i == -1 || old(self).id == usize::MAX {
                            r is Err && *final(self) == *old(self)
                        } else {
                            let p = old(self).pending@[i];
                            match move_spec(p.op, m.body.payload) {
                                Some(Move::Call { op, call }) => r matches Ok(out) && out@.len() == 1
                                    && is_call(out@[0], old(self).node_id@, old(self).id, call)
                                    && final(self).id == old(self).id + 1
                                    && final(self).pending@ == old(self).pending@.update(i, Pending {
                                        awaiting: old(self).id, since: old(self).now, request: p.request, op }),
                                Some(Move::Done { value }) => r matches Ok(out) && out@.len() == 1
                                    && answers(out@[0], p.request, old(self).id)
                                    && match value {
                                        None => out@[0].body.payload is AddOk,
                                        Some(v) => out@[0].body.payload == (Payload::ReadOk { value: v }),
                                    }
                                    && final(self).id == old(self).id + 1
                                    && final(self).pending@ == old(self).pending@.remove(i),
                                None => r is Err && final(self).id == old(self).id
                                    && final(self).pending@ == old(self).pending@.remove(i),
                            }
                        }
                    },
                    _ => r is Err && *final(self) == *old(self),
                },
                Event::Injected(t) => final(self).now == t.now_ms && final(self).id == old(self).id
                    && final(self).pending@ == old(self).pending@.filter(still_waits::<Payload, CounterOp>(t.now_ms))
                    && (r is Ok <==> final(self).pending@.len() == old(self).pending@.len())
                    && (r matches Ok(out) ==> out@.len() == 0),
                Event::EOF => r matches Ok(out) && out@.len() == 0 && *final(self) == *old(self),
            },
    {
        let input = match input {
            Event::Message(m) => m,
            Event::Injected(t) => {
                self.now = t.now_ms;
                let dropped = expire(&mut self.pending, t.now_ms);
                if dropped > 0 {
                    return Err(GanError::Normal("wait response timeout".to_string()));
                }
                return Ok(Vec::new());
            },
            Event::EOF => {
                return Ok(Vec::new());
            },
        };
        let mut out: Vec<Message<Payload>> = Vec::new();
        match &input.body.payload {
            Payload::Add { delta } => {
                if self.id == usize::MAX {
                    return Err(GanError::Normal("message ids exhausted".to_string()));
                }
                let delta = *delta;
                if delta == 0 {
                    let mut reply = input.into_reply(Some(&mut self.id));
                    reply.body.payload = Payload::AddOk;
                    out.push(reply);
                } else {
                    let id = self.id;
                    out.push(call_message(&self.node_id, id, &KvCall::Read));
                    self.id = id + 1;
                    self.pending.push(Pending { awaiting: id, since: self.now, request: input, op: CounterOp::AddRead { delta } });
                }
                Ok(out)
            },
            Payload::Read => {
                if self.id == usize::MAX {
                    return Err(GanError::Normal("message ids exhausted".to_string()));
                }
                let id = self.id;
                proof {
                    reveal_strlit("sync");
                    reveal_strlit("seq-kv");
                    assert("sync"@ =~= sync_key());
                    assert("seq-kv"@ =~= seq_kv());
                }
                let value = gen_below(SYNC_VALUE_BOUND);
                out.push(Message {
                    src: self.node_id.clone(),
                    dst: "seq-kv".to_string(),
                    body: crate::message::Body {
                        id: Some(id),
                        in_reply_to: None,
                        payload: Payload::Write { key: "sync".to_string(), value },
                    },
                });
                self.id = id + 1;
                self.pending.push(Pending { awaiting: id, since: self.now, request: input, op: CounterOp::ReadSync });
                Ok(out)
            },
            Payload::ReadOk { .. } | Payload::WriteOk | Payload::CasOk | Payload::Error { .. } => {
                let found = match input.body.in_reply_to {
                    Some(a) => find_awaiting(&self.pending, a),
                    None => None,
                };
                let i = match found {
                    Some(i) => i,
                    None => {
                        return Err(GanError::Normal("a reply that no operation waits for".to_string()));
                    },
                };
                if self.id == usize::MAX {
                    return Err(GanError::Normal("message ids exhausted".to_string()));
                }
                proof {
                    lemma_index_awaiting(self.pending@, input.body.in_reply_to->0);
                }
                match advance(&self.pending[i].op, &input.body.payload) {
                    Ok(Move::Call { op, call }) => {
                        let id = self.id;
                        out.push(call_message(&self.node_id, id, &call));
                        self.id = id + 1;
                        self.pending[i].awaiting = id;
                        self.pending[i].since = self.now;
                        self.pending[i].op = op;
                        Ok(out)
                    },
                    Ok(Move::Done { value }) => {
                        let p = self.pending.remove(i);
                        let mut reply = p.request.into_reply(Some(&mut self.id));
                        reply.body.payload = match value {
                            None => Payload::AddOk,
                            Some(v) => Payload::ReadOk { value: v },
                        };
                        out.push(reply);
                        Ok(out)
                    },
                    Err(e) => {
                        self.pending.remove(i);
                        Err(e)
                    },
                }
            },
            _ => Err(GanError::Normal("we should never receive this payload".to_string())),
        }
    }
}

/// The sum of `ds`.
pub open spec fn sum(ds: Seq<u64>) -> int
    decreases ds.len(),
{
    if ds.len() == 0 {
        0
    } else {
        sum(ds.drop_last()) + ds.last()
    }
}

/// `call` is the compare-and-swap that the counter protocol makes for an
/// add of `delta`, after reading the counter or after creating it.
pub open spec fn swap_of_add(call: KvCall, delta: u64) -> bool {
    ||| exists|value: u64| move_spec(CounterOp::AddRead { delta }, Payload::ReadOk { value })
        == Some(Move::Call { op: CounterOp::AddCas { delta, from: call->from }, call })
    ||| move_spec(CounterOp::AddInit { delta }, Payload::WriteOk)
        == Some(Move::Call { op: CounterOp::AddCas { delta, from: call->from }, call })
}

/// Acknowledged adds sum up. Take the compare-and-swaps that the protocol
/// made for adds of `deltas`, in the order in which the service applied them,
/// each acknowledged, so each found the counter at the value it expected,
/// starting from `start`. Then after each of them the counter holds `start`
/// plus the deltas so far, and in the end `start` plus their sum, whatever
/// the interleaving of the adds' other calls.
pub proof fn lemma_acknowledged_adds(start: u64, calls: Seq<KvCall>, deltas: Seq<u64>)
    requires
        calls.len() == deltas.len(),
        forall|i: int| 0 <= i < calls.len() ==> #[trigger] swap_of_add(calls[i], deltas[i]),
        forall|i: int| 0 <= i < calls.len() ==> (#[trigger] calls[i])->from == start + sum(deltas.subrange(0, i)),
    ensures
        forall|i: int| 0 <= i < calls.len() ==> (#[trigger] calls[i])->to == start + sum(deltas.subrange(0, i + 1)),
{
    assert forall|i: int| 0 <= i < calls.len() implies (#[trigger] calls[i])->to == start + sum(deltas.subrange(0, i + 1)) by {
        assert(swap_of_add(calls[i], deltas[i]));
        assert(calls[i]->to == calls[i]->from + deltas[i]);
        assert(deltas.subrange(0, i + 1).drop_last() =~= deltas.subrange(0, i));
    }
}

/// A read reads the counter only after its synchronising write was
/// acknowledged: no other state and reply lead to the read of a read.
pub proof fn lemma_read_after_sync(op: CounterOp, reply: Payload, call: KvCall)
    requires
        move_spec(op, reply) == Some(Move::Call { op: CounterOp::ReadRead, call }),
    ensures
        op is ReadSync,
        reply is WriteOk,
        call is Read,
{
}

} // verus!
