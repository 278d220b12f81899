//! The unique-id workload: ids built from the node id and a message id.
use vstd::prelude::*;
use crate::message::{answers, Event, GanError, Init, Message};
use crate::text::{decimal, push_char, push_decimal};

verus! {

/// The payloads of the unique-id workload.
pub enum Payload {
    Generate,
    GenerateOk { guid: String },
}

/// The id handed out for message id `id` of node `node_id`: `<node_id>-<id>`.
pub open spec fn guid_of(node_id: Seq<char>, id: usize) -> Seq<char> {
    node_id.push('-') + decimal(id as nat)
}

/// A node that hands out ids unique across the cluster.
pub struct UniqueNode {
    pub id: usize,
    pub node_id: String,
}

impl UniqueNode {
    /// A node named as `init` says, whose next message id is 1.
    pub fn from_init(init: Init) -> (r: Self)
        ensures
            r.id == 1,
            r.node_id@ == init.node_id@,
    {
        UniqueNode { id: 1, node_id: init.node_id }
    }

    /// Answers a `generate` with `generate_ok`, whose id is this node's id and
    /// the reply's own message id, joined by `-`. A `generate_ok` is refused.
    pub fn step(&mut self, input: Event<Payload, ()>) -> (r: Result<Vec<Message<Payload>>, GanError>)
        ensures
            final(self).node_id == old(self).node_id,
            match input {
                Event::Message(m) => match m.body.payload {
                    Payload::Generate => if old(self).id < usize::MAX {
                        r matches Ok(out) && out@.len() == 1
                        && answers(out@[0], m, old(self).id)
                        && (out@[0].body.payload matches Payload::GenerateOk { guid }
                            && guid@ == guid_of(old(self).node_id@, old(self).id))
                        && final(self).id == old(self).id + 1
                    } else {
                        r is Err && final(self).id == old(self).id
                    },
                    Payload::GenerateOk { .. } => r is Err && final(self).id == old(self).id,
                },
                Event::Injected(_) => r is Err && final(self).id == old(self).id,
                Event::EOF => r matches Ok(out) && out@.len() == 0 && final(self).id == old(self).id,
            },
    {
        let input = match input {
            Event::Message(m) => m,
            Event::Injected(_) => {
                return Err(GanError::Normal("no events are injected into this node".to_string()));
            },
            Event::EOF => {
                return Ok(Vec::new());
            },
        };
        if matches!(input.body.payload, Payload::GenerateOk { .. }) {
            return Err(GanError::Normal("we should never receive generate_ok".to_string()));
        }
        if self.id == usize::MAX {
            return Err(GanError::Normal("message ids exhausted".to_string()));
        }
        let mid = self.id;
        let mut reply = input.into_reply(Some(&mut self.id));
        let mut guid = self.node_id.clone();
        push_char(&mut guid, '-');
        push_decimal(&mut guid, mid as u64);
        reply.body.payload = Payload::GenerateOk { guid };
        let mut out: Vec<Message<Payload>> = Vec::new();
        out.push(reply);
        Ok(out)
    }
}

} // verus!
