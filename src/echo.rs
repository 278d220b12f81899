//! The echo workload: every `echo` comes back as `echo_ok` with the same text.
use vstd::prelude::*;
use crate::message::{answers, Event, GanError, Init, Message};

verus! {

/// The payloads of the echo workload.
pub enum Payload {
    Echo { echo: String },
    EchoOk { echo: String },
}

/// A node that answers each `echo` with its text.
pub struct EchoNode {
    pub id: usize,
}

impl EchoNode {
    /// A node whose next message id is 1; an echo node needs nothing from start-up.
    pub fn from_init(_init: Init) -> (r: Self)
        ensures
            r.id == 1,
    {
        EchoNode { id: 1 }
    }

    /// Answers an `echo` with an `echo_ok` carrying the same text and the
    /// node's next message id; an `echo_ok` and the end of input get nothing.
    pub fn step(&mut self, input: Event<Payload, ()>) -> (r: Result<Vec<Message<Payload>>, GanError>)
        ensures
            match input {
                Event::Message(m) => match m.body.payload {
                    Payload::Echo { echo } => if old(self).id < usize::MAX {
                        r matches Ok(out) && out@.len() == 1
                        && answers(out@[0], m, old(self).id)
                        && (out@[0].body.payload matches Payload::EchoOk { echo: e } && e@ == echo@)
                        && final(self).id == old(self).id + 1
                    } else {
                        r is Err && final(self).id == old(self).id
                    },
                    Payload::EchoOk { .. } => r matches Ok(out) && out@.len() == 0 && final(self).id == old(self).id,
                },
                Event::Injected(_) => r is Err && final(self).id == old(self).id,
                Event::EOF => r matches Ok(out) && out@.len() == 0 && final(self).id == old(self).id,
            },
    {
        let input = match input {
            Event::Message(m) => m,
            Event::Injected(_) => {
                return Err(GanError::Normal("no events are injected into this node".to_string()));
            },
            Event::EOF => {
                return Ok(Vec::new());
            },
        };
        if matches!(input.body.payload, Payload::EchoOk { .. }) {
            return Ok(Vec::new());
        }
        if self.id == usize::MAX {
            return Err(GanError::Normal("message ids exhausted".to_string()));
        }
        let mut reply = input.into_reply(Some(&mut self.id));
        let payload = match reply.body.payload {
            Payload::Echo { echo } => Payload::EchoOk { echo },
            other => other,
        };
        reply.body.payload = payload;
        let mut out: Vec<Message<Payload>> = Vec::new();
        out.push(reply);
        Ok(out)
    }
}

} // verus!
