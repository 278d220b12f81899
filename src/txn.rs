//! The transaction workload: reads and writes of integer keys, applied in
//! order on a local store, with each transaction's writes sent to every other
//! node as a best-effort `sync`.
use vstd::prelude::*;
use std::collections::HashMap;
use crate::message::{answers, Event, GanError, Init, Message};
use crate::text::chars_of;
use crate::broadcast::names;

verus! {

broadcast use vstd::std_specs::hash::group_hash_axioms;

/// The payloads of the transaction workload. An operation is
/// `(kind, key, value)`, where the kind is `r` or `w`.
pub enum Payload {
    Txn { txn: Vec<(String, u64, Option<u64>)> },
    TxnOk { txn: Vec<(String, u64, Option<u64>)> },
    Sync { changed: Vec<(u64, u64)> },
    SyncOk,
    Error { code: u8, text: String },
}

pub open spec fn is_read_op(op: Seq<char>) -> bool {
    op == seq!['r']
}

pub open spec fn is_write_op(op: Seq<char>) -> bool {
    op == seq!['w']
}

/// Operations seen through their kinds' chars.
pub open spec fn ops_view(t: Seq<(String, u64, Option<u64>)>) -> Seq<(Seq<char>, u64, Option<u64>)> {
    t.map_values(|e: (String, u64, Option<u64>)| (e.0@, e.1, e.2))
}

/// Every write of `ops` names its value.
pub open spec fn writes_have_values(ops: Seq<(Seq<char>, u64, Option<u64>)>) -> bool {
    forall|i: int| 0 <= i < ops.len() && is_write_op(#[trigger] ops[i].0) ==> ops[i].2 is Some
}

/// Running `ops` in order on `store`: the store after them, what each read
/// and write answers (other kinds are left out), and the `(key, value)`
/// pairs written.
pub open spec fn run_txn(store: Map<u64, u64>, ops: Seq<(Seq<char>, u64, Option<u64>)>)
    -> (Map<u64, u64>, Seq<(Seq<char>, u64, Option<u64>)>, Seq<(u64, u64)>)
    decreases ops.len(),
{
    if ops.len() == 0 {
        (store, Seq::empty(), Seq::empty())
    } else {
        let (m, res, changed) = run_txn(store, ops.drop_last());
        let (op, key, value) = ops.last();
        if is_read_op(op) {
            (m, res.push((op, key, if m.contains_key(key) { Some(m[key]) } else { None })), changed)
        } else if is_write_op(op) {
            (m.insert(key, value->0), res.push((op, key, value)), changed.push((key, value->0)))
        } else {
            (m, res, changed)
        }
    }
}

/// The store after writing each pair of `changed` in order.
pub open spec fn apply_changes(store: Map<u64, u64>, changed: Seq<(u64, u64)>) -> Map<u64, u64>
    decreases changed.len(),
{
    if changed.len() == 0 {
        store
    } else {
        apply_changes(store, changed.drop_last()).insert(changed.last().0, changed.last().1)
    }
}

fn op_is(op: &String, c: char) -> (r: bool)
    ensures
        r == (op@ == seq![c]),
{
    let cs = chars_of(op.as_str());
    let r = cs.len() == 1 && cs[0] == c;
    proof {
        if cs@.len() == 1 {
            assert(cs@ =~= seq![cs@[0]] || cs@[0] != c);
        }
    }
    r
}

/// A node of the transaction workload.
pub struct TxnNode {
    pub id: usize,
    pub node_id: String,
    pub node_ids: Vec<String>,
    pub storage: HashMap<u64, u64>,
}

impl TxnNode {
    /// A node with an empty store, whose next message id is 1.
    pub fn from_init(init: Init) -> (r: Self)
        ensures
            r.id == 1,
            r.node_id@ == init.node_id@,
            r.node_ids@ == init.node_ids@,
            r.storage@ == Map::<u64, u64>::empty(),
    {
        TxnNode { id: 1, node_id: init.node_id, node_ids: init.node_ids, storage: HashMap::new() }
    }

    /// Runs the operations of a transaction in order on the store; see
    /// `run_txn`.
    pub fn apply_txn(&mut self, txn: &Vec<(String, u64, Option<u64>)>) -> (r: (Vec<(String, u64, Option<u64>)>, Vec<(u64, u64)>))
        requires
            writes_have_values(ops_view(txn@)),
        ensures
            (final(self).storage@, ops_view(r.0@), r.1@) == run_txn(old(self).storage@, ops_view(txn@)),
            final(self).id == old(self).id,
            final(self).node_id == old(self).node_id,
            final(self).node_ids == old(self).node_ids,
    {
        let mut result: Vec<(String, u64, Option<u64>)> = Vec::new();
        let mut changed: Vec<(u64, u64)> = Vec::new();
        let mut i: usize = 0;
        while i < txn.len()
            invariant
                i <= txn@.len(),
                writes_have_values(ops_view(txn@)),
                (self.storage@, ops_view(result@), changed@) == run_txn(old(self).storage@, ops_view(txn@.subrange(0, i as int))),
                self.id == old(self).id,
                self.node_id == old(self).node_id,
                self.node_ids == old(self).node_ids,
            decreases txn@.len() - i,
        {
            let op = &txn[i].0;
            let key = txn[i].1;
            let value = txn[i].2;
            let ghost ops = ops_view(txn@.subrange(0, i + 1));
            proof {
                assert(ops.drop_last() =~= ops_view(txn@.subrange(0, i as int)));
                assert(ops.last() == (op@, key, value));
                assert(ops_view(txn@)[i as int] == (op@, key, value));
            }
            let ghost before = result@;
            if op_is(op, 'r') {
                let v = match self.storage.get(&key) {
                    Some(v) => Some(*v),
                    None => None,
                };
                result.push((op.clone(), key, v));
                proof {
                    assert(ops_view(result@) =~= ops_view(before).push((op@, key, v)));
                }
            } else if op_is(op, 'w') {
                let w = match value {
                    Some(w) => w,
                    None => 0,
                };
                self.storage.insert(key, w);
                result.push((op.clone(), key, value));
                changed.push((key, w));
                proof {
                    assert(ops_view(result@) =~= ops_view(before).push((op@, key, value)));
                }
            }
            i = i + 1;
        }
        proof {
            assert(txn@.subrange(0, i as int) =~= txn@);
        }
        (result, changed)
    }
}

/// The names of the nodes other than `self_id`, in order.
pub open spec fn others(node_ids: Seq<String>, self_id: Seq<char>) -> Seq<Seq<char>> {
    names(node_ids).filter(|n: Seq<char>| n != self_id)
}

/// The destinations of a list of messages, in order.
pub open spec fn dests<P>(out: Seq<Message<P>>) -> Seq<Seq<char>> {
    out.map_values(|m: Message<P>| m.dst@)
}

/// Whether every write of `txn` names its value.
pub fn check_writes(txn: &Vec<(String, u64, Option<u64>)>) -> (r: bool)
    ensures
        r == writes_have_values(ops_view(txn@)),
{
    let mut k: usize = 0;
    while k < txn.len()
        invariant
            k <= txn@.len(),
            forall|j: int| 0 <= j < k && is_write_op(#[trigger] ops_view(txn@)[j].0) ==> ops_view(txn@)[j].2 is Some,
        decreases txn@.len() - k,
    {
        proof {
            assert(ops_view(txn@)[k as int] == (txn@[k as int].0@, txn@[k as int].1, txn@[k as int].2));
        }
        if op_is(&txn[k].0, 'w') && txn[k].2.is_none() {
            proof {
                assert(is_write_op(ops_view(txn@)[k as int].0));
            }
            return false;
        }
        k = k + 1;
    }
    true
}

fn copy_pairs(v: &Vec<(u64, u64)>) -> (r: Vec<(u64, u64)>)
    ensures
        r@ == v@,
{
    let mut r: Vec<(u64, u64)> = Vec::new();
    let mut i: usize = 0;
    while i < v.len()
        invariant
            i <= v@.len(),
            r@ == v@.subrange(0, i as int),
        decreases v@.len() - i,
    {
        r.push(v[i]);
        proof {
            assert(r@ =~= v@.subrange(0, i + 1));
        }
        i = i + 1;
    }
    proof {
        assert(v@.subrange(0, i as int) =~= v@);
    }
    r
}

impl TxnNode {
    /// Writes each pair of `changed` in order.
    pub fn apply_sync(&mut self, changed: &Vec<(u64, u64)>)
        ensures
            final(self).storage@ == apply_changes(old(self).storage@, changed@),
            final(self).id == old(self).id,
            final(self).node_id == old(self).node_id,
            final(self).node_ids == old(self).node_ids,
    {
        let mut i: usize = 0;
        while i < changed.len()
            invariant
                i <= changed@.len(),
                self.storage@ == apply_changes(old(self).storage@, changed@.subrange(0, i as int)),
                self.id == old(self).id,
                self.node_id == old(self).node_id,
                self.node_ids == old(self).node_ids,
            decreases changed@.len() - i,
        {
            let (k, v) = changed[i];
            self.storage.insert(k, v);
            proof {
                assert(changed@.subrange(0, i + 1).drop_last() =~= changed@.subrange(0, i as int));
            }
            i = i + 1;
        }
        proof {
            assert(changed@.subrange(0, i as int) =~= changed@);
        }
    }

    /// Serves one event.
    ///
    /// A `txn` whose writes all name a value runs on the store and is
    /// answered with what each read and write gave; when it wrote anything,
    /// every other node is first sent a `sync` of the pairs written. A `sync`
    /// is applied and answered. An `error` report and a `sync_ok` get nothing;
    /// a `txn_ok` is refused.
    pub fn step(&mut self, input: Event<Payload, ()>) -> (r: Result<Vec<Message<Payload>>, GanError>)
        ensures
            final(self).node_id == old(self).node_id,
            final(self).node_ids == old(self).node_ids,
            match input {
                Event::Message(m) => match m.body.payload {
                    Payload::Txn { txn } => {
                        let run = run_txn(old(self).storage@, ops_view(txn@));
                        let syncs = if run.2.len() > 0 { others(old(self).node_ids@, old(self).node_id@) } else { Seq::empty() };
                        if writes_have_values(ops_view(txn@)) && old(self).id + 1 + old(self).node_ids@.len() <= usize::MAX {
                            r matches Ok(out) && out@.len() == syncs.len() + 1
                            && final(self).storage@ == run.0
                            && answers(out@.last(), m, old(self).id)
                            && (out@.last().body.payload matches Payload::TxnOk { txn: res } && ops_view(res@) == run.1)
                            && dests(out@.drop_last()) == syncs
                            && (forall|k: int| 0 <= k < syncs.len() ==> {
                                &&& (#[trigger] out@[k]).src@ == old(self).node_id@
                                &&& out@[k].body.id == Some((old(self).id + 1 + k) as usize)
                                &&& out@[k].body.in_reply_to is None
                                &&& out@[k].body.payload matches Payload::Sync { changed } && changed@ == run.2
                            })
                            && final(self).id == old(self).id + 1 + syncs.len()
                        } else {
                            r is Err && *final(self) == *old(self)
                        }
                    },
                    Payload::Sync { changed } => if old(self).id < usize::MAX {
                        r matches Ok(out) && out@.len() == 1
                        && answers(out@[0], m, old(self).id)
                        && out@[0].body.payload is SyncOk
                        && final(self).storage@ == apply_changes(old(self).storage@, changed@)
                        && final(self).id == old(self).id + 1
                    } else {
                        r is Err && *final(self) == *old(self)
                    },
                    Payload::TxnOk { .. } => r is Err && *final(self) == *old(self),
                    _ => r matches Ok(out) && out@.len() == 0 && *final(self) == *old(self),
                },
                Event::Injected(_) => r is Err && *final(self) == *old(self),
                Event::EOF => r matches Ok(out) && out@.len() == 0 && *final(self) == *old(self),
            },
    {
        let input = match input {
            Event::Message(m) => m,
            Event::Injected(_) => {
                return Err(GanError::Normal("no events are injected into this node".to_string()));
            },
            Event::EOF => {
                return Ok(Vec::new());
            },
        };
        let mut out: Vec<Message<Payload>> = Vec::new();
        match &input.body.payload {
            Payload::Txn { txn } => {
                if self.id >= usize::MAX - self.node_ids.len() {
                    return Err(GanError::Normal("message ids exhausted".to_string()));
                }
                if !check_writes(txn) {
                    return Err(GanError::Normal("a write without a value".to_string()));
                }
                let (result, changed) = self.apply_txn(txn);
                let mut reply = input.into_reply(Some(&mut self.id));
                if changed.len() > 0 {
                    let ghost pred = |n: Seq<char>| n != self.node_id@;
                    let ghost st = self.storage@;
                    let mut j: usize = 0;
                    proof {
                        reveal(Seq::filter);
                        assert(dests(out@) =~= names(self.node_ids@).subrange(0, 0).filter(pred));
                    }
                    while j < self.node_ids.len()
                        invariant
                            j <= self.node_ids@.len(),
                            pred == (|n: Seq<char>| n != self.node_id@),
                            dests(out@) == names(self.node_ids@).subrange(0, j as int).filter(pred),
                            self.id == old(self).id + 1 + out@.len(),
                            out@.len() <= j,
                            self.id + (self.node_ids@.len() - j) <= usize::MAX,
                            self.node_id == old(self).node_id,
                            self.node_ids == old(self).node_ids,
                            self.storage@ == st,
                            forall|k: int| 0 <= k < out@.len() ==> {
                                &&& (#[trigger] out@[k]).src@ == self.node_id@
                                &&& out@[k].body.id == Some((old(self).id + 1 + k) as usize)
                                &&& out@[k].body.in_reply_to is None
                                &&& out@[k].body.payload matches Payload::Sync { changed: c } && c@ == changed@
                            },
                        decreases self.node_ids@.len() - j,
                    {
                        let node = &self.node_ids[j];
                        let ghost before = out@;
                        if !(*node == self.node_id) {
                            let id = self.id;
                            out.push(Message {
                                src: self.node_id.clone(),
                                dst: node.clone(),
                                body: crate::message::Body {
                                    id: Some(id),
                                    in_reply_to: None,
                                    payload: Payload::Sync { changed: copy_pairs(&changed) },
                                },
                            });
                            self.id = id + 1;
                            proof {
                                assert(dests(out@) =~= dests(before).push(node@));
                                assert forall|k: int| 0 <= k < out@.len() implies {
                                    &&& (#[trigger] out@[k]).src@ == self.node_id@
                                    &&& out@[k].body.id == Some((old(self).id + 1 + k) as usize)
                                    &&& out@[k].body.in_reply_to is None
                                    &&& out@[k].body.payload matches Payload::Sync { changed: c } && c@ == changed@
                                } by {
                                    if k < before.len() {
                                        assert(out@[k] == before[k]);
                                    }
                                }
                            }
                        }
                        proof {
                            let sub = names(self.node_ids@).subrange(0, j + 1);
                            assert(sub =~= names(self.node_ids@).subrange(0, j as int).push(node@));
                            names(self.node_ids@).subrange(0, j as int).lemma_filter_push(node@, pred);
                        }
                        j = j + 1;
                    }
                    proof {
                        assert(names(self.node_ids@).subrange(0, j as int) =~= names(self.node_ids@));
                    }
                }
                reply.body.payload = Payload::TxnOk { txn: result };
                let ghost syncs = out@;
                out.push(reply);
                proof {
                    assert(out@.drop_last() =~= syncs);
                    if changed@.len() == 0 {
                        assert(dests(syncs) =~= Seq::<Seq<char>>::empty());
                    }
                    assert forall|k: int| 0 <= k < syncs.len() implies #[trigger] out@[k] == syncs[k] by {}
                }
                Ok(out)
            },
            Payload::Sync { changed } => {
                if self.id == usize::MAX {
                    return Err(GanError::Normal("message ids exhausted".to_string()));
                }
                self.apply_sync(changed);
                let mut reply = input.into_reply(Some(&mut self.id));
                reply.body.payload = Payload::SyncOk;
                out.push(reply);
                Ok(out)
            },
            Payload::TxnOk { .. } => Err(GanError::Normal("should not exist invalid response".to_string())),
            _ => Ok(out),
        }
    }
}

} // verus!
