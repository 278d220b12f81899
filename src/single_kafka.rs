//! The single-node Kafka workload: requests served from a local log.
use vstd::prelude::*;
use crate::log_storage::{KafkaStorage, pairs_view, polled_view, strings_view};
use crate::message::{answers, Event, GanError, Init, Message};

verus! {

/// The payloads of the single-node Kafka workload.
pub enum Payload {
    Send { key: String, msg: u64 },
    SendOk { offset: u64 },
    Poll { offsets: Vec<(String, u64)> },
    PollOk { msgs: Vec<(String, Vec<(u64, u64)>)> },
    CommitOffsets { offsets: Vec<(String, u64)> },
    CommitOffsetsOk,
    ListCommittedOffsets { keys: Vec<String> },
    ListCommittedOffsetsOk { offsets: Vec<(String, u64)> },
    Error { code: u8, text: String },
}

/// A node that keeps the whole log itself.
pub struct KafkaNode {
    pub id: usize,
    pub node_id: String,
    pub storage: KafkaStorage,
}

impl KafkaNode {
    pub open spec fn wf(&self) -> bool {
        self.storage.wf()
    }

    /// A node with an empty log; its next message id is 1.
    pub fn from_init(init: Init) -> (r: Self)
        ensures
            r.wf(),
            r.id == 1,
            r.node_id@ == init.node_id@,
            r.storage.next_offset() == 0,
            forall|k: Seq<char>| #[trigger] r.storage.log_of(k) == Seq::<(u64, u64)>::empty(),
            forall|k: Seq<char>| #[trigger] r.storage.committed_of(k) is None,
    {
        KafkaNode { id: 1, node_id: init.node_id, storage: KafkaStorage::new() }
    }

    /// Serves one event. A request gets exactly one reply, which answers it
    /// with the node's next message id; an `error` report gets none; a reply
    /// addressed to this node is refused; the end of input does nothing.
    pub fn step(&mut self, input: Event<Payload, ()>) -> (r: Result<Vec<Message<Payload>>, GanError>)
        requires
            old(self).wf(),
        ensures
            final(self).wf(),
            final(self).node_id == old(self).node_id,
            match input {
                Event::Message(m) => match m.body.payload {
                    Payload::Send { key, msg } => {
                        if old(self).id < usize::MAX && old(self).storage.next_offset() < u64::MAX {
                            r matches Ok(out) && out@.len() == 1
                            && answers(out@[0], m, old(self).id)
                            && out@[0].body.payload == (Payload::SendOk { offset: old(self).storage.next_offset() })
                            && final(self).id == old(self).id + 1
                            && final(self).storage.next_offset() == old(self).storage.next_offset() + 1
                            && final(self).storage.log_of(key@) == old(self).storage.log_of(key@).push(
                                (old(self).storage.next_offset(), msg))
                            && forall|k: Seq<char>| k != key@ ==> #[trigger] final(self).storage.log_of(k)
                                == old(self).storage.log_of(k)
                        } else {
                            r is Err && *final(self) == *old(self)
                        }
                    },
                    Payload::Poll { offsets } => {
                        if old(self).id < usize::MAX {
                            r matches Ok(out) && out@.len() == 1
                            && answers(out@[0], m, old(self).id)
                            && (out@[0].body.payload matches Payload::PollOk { msgs }
                                && polled_view(msgs@) == old(self).storage.polled(pairs_view(offsets@)))
                            && final(self).id == old(self).id + 1
                            && final(self).storage == old(self).storage
                        } else {
                            r is Err && *final(self) == *old(self)
                        }
                    },
                    Payload::CommitOffsets { offsets } => {
                        if old(self).id < usize::MAX {
                            r matches Ok(out) && out@.len() == 1
                            && answers(out@[0], m, old(self).id)
                            && out@[0].body.payload is CommitOffsetsOk
                            && final(self).id == old(self).id + 1
                            && final(self).storage.next_offset() == old(self).storage.next_offset()
                            && forall|k: Seq<char>| #[trigger] final(self).storage.log_of(k) == old(self).storage.log_of(k)
                            && forall|k: Seq<char>| #[trigger] final(self).storage.committed_of(k)
                                == match crate::log_storage::last_commit(offsets@, k) {
                                    Some(o) => Some(o),
                                    None => old(self).storage.committed_of(k),
                                }
                        } else {
                            r is Err && *final(self) == *old(self)
                        }
                    },
                    Payload::ListCommittedOffsets { keys } => {
                        if old(self).id < usize::MAX {
                            r matches Ok(out) && out@.len() == 1
                            && answers(out@[0], m, old(self).id)
                            && (out@[0].body.payload matches Payload::ListCommittedOffsetsOk { offsets }
                                && pairs_view(offsets@) == old(self).storage.listed(strings_view(keys@)))
                            && final(self).id == old(self).id + 1
                            && final(self).storage == old(self).storage
                        } else {
                            r is Err && *final(self) == *old(self)
                        }
                    },
                    Payload::Error { .. } => r matches Ok(out) && out@.len() == 0 && *final(self) == *old(self),
                    _ => r is Err && *final(self) == *old(self),
                },
                Event::Injected(_) => r is Err && *final(self) == *old(self),
                Event::EOF => r matches Ok(out) && out@.len() == 0 && *final(self) == *old(self),
            },
    {
        let input = match input {
            Event::Message(m) => m,
            Event::Injected(_) => {
                return Err(GanError::Normal("no events are injected into this node".to_string()));
            },
            Event::EOF => {
                return Ok(Vec::new());
            },
        };
        let is_request = match &input.body.payload {
            Payload::Send { .. } | Payload::Poll { .. } | Payload::CommitOffsets { .. }
            | Payload::ListCommittedOffsets { .. } => true,
            Payload::Error { .. } => {
                return Ok(Vec::new());
            },
            _ => false,
        };
        if !is_request {
            return Err(GanError::Normal("should not exist invalid response".to_string()));
        }
        if self.id == usize::MAX {
            return Err(GanError::Normal("message ids exhausted".to_string()));
        }
        let ghost req = input;
        let mut reply = input.into_reply(Some(&mut self.id));
        let payload = match reply.body.payload {
            Payload::Send { key, msg } => {
                match self.storage.send(key, msg) {
                    Ok(offset) => Payload::SendOk { offset },
                    Err(e) => {
                        self.id = self.id - 1;
                        return Err(e);
                    },
                }
            },
            Payload::Poll { offsets } => {
                match self.storage.poll(offsets) {
                    Ok(msgs) => Payload::PollOk { msgs },
                    Err(e) => {
                        self.id = self.id - 1;
                        return Err(e);
                    },
                }
            },
            Payload::CommitOffsets { offsets } => {
                match self.storage.commit_offsets(offsets) {
                    Ok(()) => Payload::CommitOffsetsOk,
                    Err(e) => {
                        self.id = self.id - 1;
                        return Err(e);
                    },
                }
            },
            Payload::ListCommittedOffsets { keys } => {
                let offsets = self.storage.list_committed_offsets(keys);
                Payload::ListCommittedOffsetsOk { offsets }
            },
            other => other,
        };
        reply.body.payload = payload;
        let mut out: Vec<Message<Payload>> = Vec::new();
        out.push(reply);
        Ok(out)
    }
}

} // verus!
