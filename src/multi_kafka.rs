//! The multi-node Kafka workload: every log lives in the linearizable
//! key-value service, laid out as `segment` says.
//!
//! Each request becomes an operation that waits for one reply at a time; the
//! node keeps every such operation keyed by the id of the request it waits
//! on, so requests forwarded by other nodes are served while its own wait.
//! A send whose key another node owns is forwarded there.
use vstd::prelude::*;
use crate::kv::{rpc_error, rpc_error_spec};
use crate::message::{answers, Body, Event, GanError, Init, Message, KEY_NOT_EXIST_CODE, PRECONDITION_FAILED_CODE};
use crate::segment::{
    append_entry, commit_key, commit_prefix, entry_key, entry_key_spec, latest_key, latest_prefix,
    parse_segment, prefixed, route, route_spec, segment_append, segment_entries, segment_start,
    BATCH_SIZE,
};
use crate::pending::{expire, find_awaiting, index_awaiting, still_waits, Pending, Tick};
use crate::text::{decimal, parse_u64, parse_u64_spec, to_decimal};
use crate::broadcast::names;

verus! {

/// The payloads of the multi-node Kafka workload, with those of the
/// key-value service.
pub enum Payload {
    Send { key: String, msg: u64 },
    ForwardSend { key: String, msg: u64 },
    SendOk { offset: u64 },
    Poll { offsets: Vec<(String, u64)> },
    PollOk { msgs: Vec<(String, Vec<(u64, u64)>)> },
    CommitOffsets { offsets: Vec<(String, u64)> },
    CommitOffsetsOk,
    ListCommittedOffsets { keys: Vec<String> },
    ListCommittedOffsetsOk { offsets: Vec<(String, u64)> },
    Error { code: u8, text: String },
    KvRead { key: String },
    ReadOk { value: String },
    Write { key: String, value: String },
    WriteOk,
    Cas { key: String, from: String, to: String, create_if_not_exists: bool },
    CasOk,
}

/// Where an operation stands: the reply it waits for.
#[allow(inconsistent_fields)]
pub enum KafkaOp {
    /// A send waits for the topic's last handed-out offset.
    ReadLatest { key: String, value: u64 },
    /// A send waits for its compare-and-swap that claims `offset`.
    ClaimOffset { key: String, value: u64, offset: u64 },
    /// A send that holds `offset` waits for the segment of that offset.
    ReadSegment { key: String, value: u64, offset: u64 },
    /// A send waits for its segment to be written back.
    WriteSegment { offset: u64 },
    /// A send handed to the key's owner waits for the owner's answer.
    Forwarded,
    /// A poll waits for the segment of key `offsets[done]` that starts at
    /// `start`; `found` holds that key's entries so far.
    PollSegment { offsets: Vec<(String, u64)>, done: usize, start: u64, found: Vec<(u64, u64)>, result: Vec<(String, Vec<(u64, u64)>)> },
    /// A commit waits for the write of key `offsets[done]`.
    Commit { offsets: Vec<(String, u64)>, done: usize },
    /// A listing waits for the committed offset of `keys[done]`.
    List { keys: Vec<String>, done: usize, result: Vec<(String, u64)> },
}

/// What an operation does next.
pub enum Next {
    /// Sends `payload` to the key-value service and waits as `op`.
    Call { op: KafkaOp, payload: Payload },
    /// Answers its request with `payload`.
    Done { payload: Payload },
}

/// The offset a send tries to claim after reading the topic's last offset
/// `s`: the next one, or 0 when the topic has none yet; `None` when offsets
/// have run out.
pub open spec fn candidate_spec(s: Seq<char>) -> Option<u64> {
    match parse_u64_spec(s) {
        Some(b) => if b < u64::MAX {
            Some((b + 1) as u64)
        } else {
            None
        },
        None => Some(0),
    }
}

/// `p` is the compare-and-swap that claims offset `c` of topic `key`,
/// expecting the last offset to read `from`.
pub open spec fn is_claim(p: Payload, key: Seq<char>, from: Seq<char>, c: u64) -> bool {
    p matches Payload::Cas { key: k, from: f, to: t, create_if_not_exists }
        && k@ == prefixed(latest_prefix(), key) && f@ == from && t@ == decimal(c as nat) && create_if_not_exists
}

/// `op` is a send of `value` under `key` that waits as `claim` says.
pub open spec fn claims(op: KafkaOp, key: Seq<char>, value: u64, c: u64) -> bool {
    op matches KafkaOp::ClaimOffset { key: k, value: v, offset } && k@ == key && v == value && offset == c
}

/// The key a poll reads for its key `offsets[done]` at segment `start`.
pub open spec fn poll_reads(op: KafkaOp, payload: Payload) -> bool {
    op matches KafkaOp::PollSegment { offsets, done, start, .. } && done < offsets@.len()
        && (payload matches Payload::KvRead { key } && key@ == entry_key_spec(offsets@[done as int].0@, start))
}

/// Reads the first segment of the next key of a poll that can have one,
/// from key `offsets[done]` on; answers the poll when none is left.
fn poll_from(offsets: Vec<(String, u64)>, done: usize, result: Vec<(String, Vec<(u64, u64)>)>) -> (r: Next)
    requires
        done <= offsets@.len(),
    ensures
        r is Call ==> poll_reads(r->op, r->Call_payload),
        r is Done ==> r->Done_payload is PollOk,
        done == offsets@.len() ==> r == (Next::Done { payload: Payload::PollOk { msgs: result } }),
        r is Done ==> r == (Next::Done { payload: Payload::PollOk { msgs: result } }),
        r matches Next::Call { op, .. } ==> (op matches KafkaOp::PollSegment { offsets: o2, done: d2, found, result: r2, .. }
            && o2 == offsets && d2 >= done && found@.len() == 0 && r2 == result),
        done < offsets@.len() && segment_start(offsets@[done as int].1) <= u64::MAX - BATCH_SIZE ==> (r matches Next::Call { op, payload }
            && (op matches KafkaOp::PollSegment { offsets: o2, done: d2, start, found, .. }
                && o2 == offsets && d2 == done && start == segment_start(offsets@[done as int].1) && found@.len() == 0)
            && (payload matches Payload::KvRead { key }
                && key@ == entry_key_spec(offsets@[done as int].0@, segment_start(offsets@[done as int].1)))),
{
    let mut d = done;
    while d < offsets.len()
        invariant
            done <= d <= offsets@.len(),
            d > done ==> segment_start(offsets@[done as int].1) > u64::MAX - BATCH_SIZE,
        decreases offsets@.len() - d,
    {
        let from = offsets[d].1;
        let start = from - from % BATCH_SIZE;
        if start <= u64::MAX - BATCH_SIZE {
            let key = entry_key(offsets[d].0.as_str(), start);
            return Next::Call {
                op: KafkaOp::PollSegment { offsets, done: d, start, found: Vec::new(), result },
                payload: Payload::KvRead { key },
            };
        }
        d = d + 1;
    }
    Next::Done { payload: Payload::PollOk { msgs: result } }
}

/// Moves a poll on after segment text `seg` of its current key: a non-empty
/// segment adds its entries at or beyond the key's offset and the next
/// segment is read; an empty one finishes the key.
fn poll_segment(
    offsets: Vec<(String, u64)>,
    done: usize,
    start: u64,
    found: Vec<(u64, u64)>,
    result: Vec<(String, Vec<(u64, u64)>)>,
    seg: &str,
) -> (r: Next)
    requires
        done < offsets@.len(),
    ensures
        r is Call ==> poll_reads(r->op, r->Call_payload),
        r is Done ==> r->Done_payload is PollOk,
        seg@.len() > 0 && start <= u64::MAX - 2 * BATCH_SIZE ==> (r matches Next::Call { op, payload }
            && (op matches KafkaOp::PollSegment { offsets: o2, done: d2, start: s2, found: f2, result: r2 }
                && o2 == offsets && d2 == done && s2 == start + BATCH_SIZE && r2 == result
                && f2@ == found@ + segment_entries(seg@, offsets@[done as int].1))
            && (payload matches Payload::KvRead { key }
                && key@ == entry_key_spec(offsets@[done as int].0@, (start + BATCH_SIZE) as u64))),
        seg@.len() == 0 ==> ({
            let kept = if found@.len() > 0 { result@.push((offsets@[done as int].0, found)) } else { result@ };
            match r {
                Next::Call { op, .. } => op matches KafkaOp::PollSegment { offsets: o2, done: d2, found: f2, result: r2, .. }
                    && o2 == offsets && d2 > done && f2@.len() == 0 && r2@ == kept,
                Next::Done { payload } => payload matches Payload::PollOk { msgs } && msgs@ == kept,
            }
        }),
        seg@.len() == 0 && done + 1 == offsets@.len() ==> (r matches Next::Done { payload }
            && (payload matches Payload::PollOk { msgs } && msgs@ == if found@.len() > 0 {
                result@.push((offsets@[done as int].0, found))
            } else {
                result@
            })),
{
    let mut found = found;
    let mut result = result;
    let n = offsets.len();
    if !seg.is_empty() {
        let mut entries = parse_segment(seg, offsets[done].1);
        found.append(&mut entries);
        if start <= u64::MAX - 2 * BATCH_SIZE {
            let next_start = start + BATCH_SIZE;
            let key = entry_key(offsets[done].0.as_str(), next_start);
            return Next::Call {
                op: KafkaOp::PollSegment { offsets, done, start: next_start, found, result },
                payload: Payload::KvRead { key },
            };
        }
    }
    if found.len() > 0 {
        result.push((offsets[done].0.clone(), found));
    }
    assert(done < n);
    poll_from(offsets, done + 1, result)
}

/// Writes the committed offset of key `offsets[done]`, or answers the
/// commit when no key is left.
fn commit_from(offsets: Vec<(String, u64)>, done: usize) -> (r: Next)
    requires
        done <= offsets@.len(),
    ensures
        done < offsets@.len() ==> (r matches Next::Call { op, payload }
            && op == (KafkaOp::Commit { offsets, done })
            && (payload matches Payload::Write { key, value }
            && key@ == prefixed(commit_prefix(), offsets@[done as int].0@)
            && value@ == decimal(offsets@[done as int].1 as nat))),
        done == offsets@.len() ==> (r matches Next::Done { payload } && payload is CommitOffsetsOk),
{
    if done == offsets.len() {
        return Next::Done { payload: Payload::CommitOffsetsOk };
    }
    let key = commit_key(offsets[done].0.as_str());
    let value = to_decimal(offsets[done].1);
    Next::Call { op: KafkaOp::Commit { offsets, done }, payload: Payload::Write { key, value } }
}

/// Reads the committed offset of `keys[done]`, or answers the listing when
/// no key is left.
fn list_from(keys: Vec<String>, done: usize, result: Vec<(String, u64)>) -> (r: Next)
    requires
        done <= keys@.len(),
    ensures
        done < keys@.len() ==> (r matches Next::Call { op, payload }
            && (op matches KafkaOp::List { keys: ks, done: d, result: res } && ks == keys && d == done && res == result)
            && (payload matches Payload::KvRead { key } && key@ == prefixed(commit_prefix(), keys@[done as int]@))),
        done == keys@.len() ==> (r matches Next::Done { payload }
            && payload == (Payload::ListCommittedOffsetsOk { offsets: result })),
{
    if done == keys.len() {
        return Next::Done { payload: Payload::ListCommittedOffsetsOk { offsets: result } };
    }
    let key = commit_key(keys[done].as_str());
    Next::Call { op: KafkaOp::List { keys, done, result }, payload: Payload::KvRead { key } }
}

/// The first call of a send of `value` under `key`: read the topic's last
/// handed-out offset.
pub fn start_send(key: String, value: u64) -> (r: Next)
    ensures
        r matches Next::Call { op, payload }
            && (op matches KafkaOp::ReadLatest { key: k, value: v } && k@ == key@ && v == value)
            && (payload matches Payload::KvRead { key: lk } && lk@ == prefixed(latest_prefix(), key@)),
{
    let lk = latest_key(key.as_str());
    Next::Call { op: KafkaOp::ReadLatest { key, value }, payload: Payload::KvRead { key: lk } }
}

/// The claim of offset `c` for a send of `value` under `key`, expecting the
/// topic's last offset to read `from`.
fn claim(key: String, value: u64, from: String, c: u64) -> (r: Next)
    ensures
        r matches Next::Call { op, payload } && claims(op, key@, value, c) && is_claim(payload, key@, from@, c),
{
    let lk = latest_key(key.as_str());
    let to = to_decimal(c);
    Next::Call {
        op: KafkaOp::ClaimOffset { key, value, offset: c },
        payload: Payload::Cas { key: lk, from, to, create_if_not_exists: true },
    }
}

/// What moving operation `op` on with reply `reply` gives, as `advance` does it.
pub open spec fn advance_post(op: KafkaOp, reply: Payload, r: Result<Next, GanError>) -> bool {
    &&& (op matches KafkaOp::ReadLatest { key, value } ==> match reply {
            Payload::ReadOk { value: s } => match candidate_spec(s@) {
                Some(c) => r matches Ok(Next::Call { op: o2, payload }) && claims(o2, key@, value, c) && is_claim(payload, key@, s@, c),
                None => r is Err,
            },
            Payload::Error { code, text } => if code == KEY_NOT_EXIST_CODE {
                r matches Ok(Next::Call { op: o2, payload }) && claims(o2, key@, value, 0) && is_claim(payload, key@, Seq::empty(), 0)
            } else {
                r == Err::<Next, GanError>(rpc_error_spec(code, text))
            },
            _ => r is Err,
        })
    &&& (op matches KafkaOp::ClaimOffset { key, value, offset } ==> match reply {
            Payload::CasOk => if segment_start(offset) <= u64::MAX - BATCH_SIZE {
                r matches Ok(Next::Call { op: o2, payload })
                    && (o2 matches KafkaOp::ReadSegment { key: k, value: v, offset: o } && k@ == key@ && v == value && o == offset)
                    && (payload matches Payload::KvRead { key: ek } && ek@ == entry_key_spec(key@, segment_start(offset)))
            } else {
                r is Err
            },
            Payload::Error { code, text } => if code == PRECONDITION_FAILED_CODE && offset < u64::MAX {
                r matches Ok(Next::Call { op: o2, payload }) && claims(o2, key@, value, (offset + 1) as u64)
                    && is_claim(payload, key@, decimal(offset as nat), (offset + 1) as u64)
            } else {
                r == Err::<Next, GanError>(rpc_error_spec(code, text))
            },
            _ => r is Err,
        })
    &&& (op matches KafkaOp::ReadSegment { key, value, offset } ==> match reply {
            Payload::ReadOk { value: s } => segment_start(offset) <= u64::MAX - BATCH_SIZE ==>
                (r matches Ok(Next::Call { op: o2, payload })
                    && o2 == (KafkaOp::WriteSegment { offset })
                    && (payload matches Payload::Write { key: ek, value: seg }
                    && ek@ == entry_key_spec(key@, segment_start(offset)) && seg@ == segment_append(s@, offset, value))),
            Payload::Error { code, text } => if code == KEY_NOT_EXIST_CODE {
                segment_start(offset) <= u64::MAX - BATCH_SIZE ==>
                (r matches Ok(Next::Call { op: o2, payload })
                    && o2 == (KafkaOp::WriteSegment { offset })
                    && (payload matches Payload::Write { key: ek, value: seg }
                    && ek@ == entry_key_spec(key@, segment_start(offset)) && seg@ == segment_append(Seq::empty(), offset, value)))
            } else {
                r == Err::<Next, GanError>(rpc_error_spec(code, text))
            },
            _ => r is Err,
        })
    &&& (op matches KafkaOp::WriteSegment { offset } ==> match reply {
            Payload::WriteOk => r == Ok::<Next, GanError>(Next::Done { payload: Payload::SendOk { offset } }),
            Payload::Error { code, text } => r == Err::<Next, GanError>(rpc_error_spec(code, text)),
            _ => r is Err,
        })
    &&& (op is Forwarded ==> match reply {
            Payload::SendOk { offset } => r == Ok::<Next, GanError>(Next::Done { payload: Payload::SendOk { offset } }),
            Payload::Error { code, text } => r == Err::<Next, GanError>(rpc_error_spec(code, text)),
            _ => r is Err,
        })
    &&& (op is PollSegment ==> match reply {
            Payload::ReadOk { .. } => r matches Ok(n) && (n is Call ==> poll_reads(n->op, n->Call_payload))
                && (n is Done ==> n->Done_payload is PollOk),
            Payload::Error { code, text } => if code == KEY_NOT_EXIST_CODE {
                r matches Ok(n) && (n is Call ==> poll_reads(n->op, n->Call_payload))
                    && (n is Done ==> n->Done_payload is PollOk)
            } else {
                r == Err::<Next, GanError>(rpc_error_spec(code, text))
            },
            _ => r is Err,
        })
    &&& (op matches KafkaOp::PollSegment { offsets, done, start, found, result } ==> done >= offsets@.len() || match reply {
            Payload::ReadOk { value: s } => s@.len() > 0 && start <= u64::MAX - 2 * BATCH_SIZE ==> (r matches Ok(Next::Call { op: o2, payload })
                && (o2 matches KafkaOp::PollSegment { offsets: os, done: d2, start: s2, found: f2, result: r2 }
                    && os == offsets && d2 == done && s2 == start + BATCH_SIZE && r2 == result
                    && f2@ == found@ + segment_entries(s@, offsets@[done as int].1))
                && (payload matches Payload::KvRead { key }
                    && key@ == entry_key_spec(offsets@[done as int].0@, (start + BATCH_SIZE) as u64))),
            _ => true,
        })
    &&& (op matches KafkaOp::PollSegment { offsets, done, found, result, .. } ==> done + 1 != offsets@.len() || match reply {
            Payload::ReadOk { value: s } => s@.len() == 0 ==> (r matches Ok(Next::Done { payload })
                && (payload matches Payload::PollOk { msgs } && msgs@ == if found@.len() > 0 {
                    result@.push((offsets@[done as int].0, found))
                } else {
                    result@
                })),
            Payload::Error { code, .. } => code == KEY_NOT_EXIST_CODE ==> (r matches Ok(Next::Done { payload })
                && (payload matches Payload::PollOk { msgs } && msgs@ == if found@.len() > 0 {
                    result@.push((offsets@[done as int].0, found))
                } else {
                    result@
                })),
            _ => true,
        })
    &&& (op matches KafkaOp::PollSegment { offsets, done, found, result, .. } ==> done + 1 >= offsets@.len() || {
            let kept = if found@.len() > 0 { result@.push((offsets@[done as int].0, found)) } else { result@ };
            let ended = match reply {
                Payload::ReadOk { value: s } => s@.len() == 0,
                Payload::Error { code, .. } => code == KEY_NOT_EXIST_CODE,
                _ => false,
            };
            ended ==> (r matches Ok(n) && match n {
                Next::Call { op: o2, payload } => o2 matches KafkaOp::PollSegment { offsets: os, done: d2, found: f2, result: r2, .. }
                    && os == offsets && d2 > done && f2@.len() == 0 && r2@ == kept,
                Next::Done { payload } => payload matches Payload::PollOk { msgs } && msgs@ == kept,
            })
        })
    &&& (op matches KafkaOp::Commit { offsets, done } ==> match reply {
            Payload::WriteOk => done < offsets@.len() ==> ((done + 1 < offsets@.len() ==> (r matches Ok(Next::Call { op: o2, payload })
                && o2 == (KafkaOp::Commit { offsets, done: (done + 1) as usize })
                && (payload matches Payload::Write { key, value }
                && key@ == prefixed(commit_prefix(), offsets@[done + 1].0@)
                && value@ == decimal(offsets@[done + 1].1 as nat))))
                && (done + 1 == offsets@.len() ==> (r matches Ok(Next::Done { payload }) && payload is CommitOffsetsOk))),
            Payload::Error { code, text } => r == Err::<Next, GanError>(rpc_error_spec(code, text)),
            _ => r is Err,
        })
    &&& (op matches KafkaOp::List { keys, done, result } ==> done >= keys@.len() || {
            let listed = match reply {
                Payload::ReadOk { value: s } => match parse_u64_spec(s@) {
                    Some(o) => result@.push((keys@[done as int], o)),
                    None => result@,
                },
                _ => result@,
            };
            (reply is ReadOk || reply is Error) ==> {
                &&& done + 1 == keys@.len() ==> (r matches Ok(Next::Done { payload })
                    && (payload matches Payload::ListCommittedOffsetsOk { offsets } && offsets@ == listed))
                &&& done + 1 < keys@.len() ==> (r matches Ok(Next::Call { op: o2, payload })
                    && (o2 matches KafkaOp::List { keys: k2, done: d2, result: r2 } && k2 == keys && d2 == done + 1 && r2@ == listed)
                    && (payload matches Payload::KvRead { key } && key@ == prefixed(commit_prefix(), keys@[done + 1]@)))
            }
        })
    &&& (op matches KafkaOp::List { keys, done, result } ==> match reply {
            Payload::ReadOk { .. } | Payload::Error { .. } => done < keys@.len() ==> (r is Ok
                && (done + 1 == keys@.len() ==> (r matches Ok(Next::Done { payload }) && payload is ListCommittedOffsetsOk))),
            _ => r is Err,
        })
}

/// Moves operation `op` on with the reply `reply`.
///
/// A send reads the topic's last offset, claims the next one by
/// compare-and-swap (the one after what it read, or 0 when there is none),
/// and when another node claimed it first tries the one after; holding its
/// offset, it adds `offset:value` to that offset's segment and writes the
/// segment back, then answers with the offset. A forwarded send answers with
/// the owner's offset. Polls, commits and listings go key by key.
pub fn advance(op: KafkaOp, reply: &Payload) -> (r: Result<Next, GanError>)
    ensures
        advance_post(op, *reply, r),
{
    match op {
        KafkaOp::ReadLatest { key, value } => match reply {
            Payload::ReadOk { value: s } => {
                let c = match parse_u64(s.as_str()) {
                    Some(b) => if b < u64::MAX {
                        b + 1
                    } else {
                        return Err(GanError::Normal("no offsets left".to_string()));
                    },
                    None => 0,
                };
                Ok(claim(key, value, s.clone(), c))
            },
            Payload::Error { code, text } => if *code == KEY_NOT_EXIST_CODE {
                Ok(claim(key, value, String::new(), 0))
            } else {
                Err(rpc_error(*code, text.clone()))
            },
            _ => Err(GanError::Normal("should not exist invalid response".to_string())),
        },
        KafkaOp::ClaimOffset { key, value, offset } => match reply {
            Payload::CasOk => {
                let start = offset - offset % BATCH_SIZE;
                if start > u64::MAX - BATCH_SIZE {
                    return Err(GanError::Normal("no offsets left".to_string()));
                }
                let ek = entry_key(key.as_str(), start);
                Ok(Next::Call { op: KafkaOp::ReadSegment { key, value, offset }, payload: Payload::KvRead { key: ek } })
            },
            Payload::Error { code, text } => if *code == PRECONDITION_FAILED_CODE && offset < u64::MAX {
                Ok(claim(key, value, to_decimal(offset), offset + 1))
            } else {
                Err(rpc_error(*code, text.clone()))
            },
            _ => Err(GanError::Normal("should not exist invalid response".to_string())),
        },
        KafkaOp::ReadSegment { key, value, offset } => {
            let mut seg = match reply {
                Payload::ReadOk { value: s } => s.clone(),
                Payload::Error { code, text } => if *code == KEY_NOT_EXIST_CODE {
                    String::new()
                } else {
                    return Err(rpc_error(*code, text.clone()));
                },
                _ => {
                    return Err(GanError::Normal("should not exist invalid response".to_string()));
                },
            };
            let start = offset - offset % BATCH_SIZE;
            if start > u64::MAX - BATCH_SIZE {
                return Err(GanError::Normal("no offsets left".to_string()));
            }
            let ek = entry_key(key.as_str(), start);
            append_entry(&mut seg, offset, value);
            Ok(Next::Call { op: KafkaOp::WriteSegment { offset }, payload: Payload::Write { key: ek, value: seg } })
        },
        KafkaOp::WriteSegment { offset } => match reply {
            Payload::WriteOk => Ok(Next::Done { payload: Payload::SendOk { offset } }),
            Payload::Error { code, text } => Err(rpc_error(*code, text.clone())),
            _ => Err(GanError::Normal("should not exist invalid response".to_string())),
        },
        KafkaOp::Forwarded => match reply {
            Payload::SendOk { offset } => Ok(Next::Done { payload: Payload::SendOk { offset: *offset } }),
            Payload::Error { code, text } => Err(rpc_error(*code, text.clone())),
            _ => Err(GanError::Normal("should not exist invalid response".to_string())),
        },
        KafkaOp::PollSegment { offsets, done, start, found, result } => {
            proof {
                reveal_strlit("");
            }
            let seg = match reply {
                Payload::ReadOk { value: s } => s.as_str(),
                Payload::Error { code, text } => if *code == KEY_NOT_EXIST_CODE {
                    ""
                } else {
                    return Err(rpc_error(*code, text.clone()));
                },
                _ => {
                    return Err(GanError::Normal("should not exist invalid response".to_string()));
                },
            };
            if done >= offsets.len() {
                return Ok(Next::Done { payload: Payload::PollOk { msgs: result } });
            }
            Ok(poll_segment(offsets, done, start, found, result, seg))
        },
        KafkaOp::Commit { offsets, done } => match reply {
            Payload::WriteOk => if done < offsets.len() {
                Ok(commit_from(offsets, done + 1))
            } else {
                Ok(Next::Done { payload: Payload::CommitOffsetsOk })
            },
            Payload::Error { code, text } => Err(rpc_error(*code, text.clone())),
            _ => Err(GanError::Normal("should not exist invalid response".to_string())),
        },
        KafkaOp::List { keys, done, result } => {
            let mut result = result;
            match reply {
                Payload::ReadOk { value: s } => {
                    if done < keys.len() {
                        match parse_u64(s.as_str()) {
                            Some(o) => result.push((keys[done].clone(), o)),
                            None => {},
                        }
                    }
                },
                Payload::Error { .. } => {},
                _ => {
                    return Err(GanError::Normal("should not exist invalid response".to_string()));
                },
            }
            if done < keys.len() {
                Ok(list_from(keys, done + 1, result))
            } else {
                Ok(Next::Done { payload: Payload::ListCommittedOffsetsOk { offsets: result } })
            }
        },
    }
}

/// A claim of offset `c`, made after reading `from` or as the retry after
/// `c - 1` was taken, expects the topic's last-offset text to read as
/// `c - 1`, or, for offset 0, not to read as an offset at all. A
/// compare-and-swap succeeds only on the text it expects and claims are the
/// only writes of that text, so the offsets a topic hands out follow one
/// another: 0, 1, 2, and so on.
pub proof fn lemma_claim_expects_previous(from: Seq<char>, c: u64)
    requires
        candidate_spec(from) == Some(c) || (c > 0 && from == decimal((c - 1) as nat)),
    ensures
        c == 0 ==> parse_u64_spec(from) is None,
        c > 0 ==> parse_u64_spec(from) == Some((c - 1) as u64),
{
    if candidate_spec(from) != Some(c) {
        crate::text::lemma_parse_decimal((c - 1) as u64);
    }
}

/// The name of the linearizable key-value service.
pub open spec fn lin_kv() -> Seq<char> {
    seq!['l', 'i', 'n', '-', 'k', 'v']
}

/// `msg` is call `id` of node `node_id` to the linearizable key-value
/// service, carrying `payload`.
pub open spec fn is_kv_call(msg: Message<Payload>, node_id: Seq<char>, id: usize, payload: Payload) -> bool {
    &&& msg.src@ == node_id
    &&& msg.dst@ == lin_kv()
    &&& msg.body.id == Some(id)
    &&& msg.body.in_reply_to is None
    &&& msg.body.payload == payload
}

/// After operation `i` of `before` was moved on as `n` says, the node is
/// `after` and the step gave `r`: a call is sent and the operation waits on
/// it, a finished operation answers its request, a failed one is dropped.
pub open spec fn moved(before: KafkaNode, after: KafkaNode, i: int, r: Result<Vec<Message<Payload>>, GanError>, n: Result<Next, GanError>) -> bool {
    let p = before.pending@[i];
    match n {
        Ok(Next::Call { op, payload }) => r matches Ok(out) && out@.len() == 1
            && is_kv_call(out@[0], before.node_id@, before.id, payload)
            && after.id == before.id + 1
            && after.pending@ == before.pending@.update(i, Pending {
                awaiting: before.id, since: before.now, request: p.request, op }),
        Ok(Next::Done { payload }) => r matches Ok(out) && out@.len() == 1
            && answers(out@[0], p.request, before.id) && out@[0].body.payload == payload
            && after.id == before.id + 1
            && after.pending@ == before.pending@.remove(i),
        Err(e) => r == Err::<Vec<Message<Payload>>, GanError>(e) && after.id == before.id
            && after.pending@ == before.pending@.remove(i),
    }
}

/// The step that served reply `reply` to operation `i` of `before` moved it
/// on as the protocol says, giving node `after` and result `r`.
pub open spec fn reply_moves(before: KafkaNode, after: KafkaNode, i: int, reply: Payload, r: Result<Vec<Message<Payload>>, GanError>) -> bool {
    exists|n: Result<Next, GanError>| #[trigger] advance_post(before.pending@[i].op, reply, n)
        && moved(before, after, i, r, n)
}

/// A node of the multi-node Kafka workload.
pub struct KafkaNode {
    pub id: usize,
    pub node_id: String,
    pub node_ids: Vec<String>,
    /// The node's clock, in milliseconds, as the last tick set it.
    pub now: u64,
    pub pending: Vec<Pending<Payload, KafkaOp>>,
}

impl KafkaNode {
    /// A node with nothing in flight, whose next message id is 1.
    pub fn from_init(init: Init) -> (r: Self)
        ensures
            r.id == 1,
            r.node_id@ == init.node_id@,
            r.node_ids@ == init.node_ids@,
            r.pending@.len() == 0,
            r.now == 0,
    {
        KafkaNode { id: 1, node_id: init.node_id, node_ids: init.node_ids, now: 0, pending: Vec::new() }
    }

    fn kv_call(&self, id: usize, payload: Payload) -> (r: Message<Payload>)
        ensures
            is_kv_call(r, self.node_id@, id, payload),
    {
        proof {
            reveal_strlit("lin-kv");
            assert("lin-kv"@ =~= lin_kv());
        }
        Message {
            src: self.node_id.clone(),
            dst: "lin-kv".to_string(),
            body: Body { id: Some(id), in_reply_to: None, payload },
        }
    }

    /// Acts on what an operation does next: a call is sent and the operation
    /// waits on it; a finished one answers its request.
    fn begin(&mut self, request: Message<Payload>, next: Next) -> (r: Vec<Message<Payload>>)
        requires
            old(self).id < usize::MAX,
        ensures
            final(self).id == old(self).id + 1,
            final(self).node_id == old(self).node_id,
            final(self).node_ids == old(self).node_ids,
            final(self).now == old(self).now,
            r@.len() == 1,
            match next {
                Next::Call { op, payload } => is_kv_call(r@[0], old(self).node_id@, old(self).id, payload)
                    && final(self).pending@ == old(self).pending@.push(Pending { awaiting: old(self).id, since: old(self).now, request, op }),
                Next::Done { payload } => answers(r@[0], request, old(self).id) && r@[0].body.payload == payload
                    && final(self).pending@ == old(self).pending@,
            },
    {
        let mut out: Vec<Message<Payload>> = Vec::new();
        match next {
            Next::Call { op, payload } => {
                let id = self.id;
                out.push(self.kv_call(id, payload));
                self.id = id + 1;
                self.pending.push(Pending { awaiting: id, since: self.now, request, op });
            },
            Next::Done { payload } => {
                let mut reply = request.into_reply(Some(&mut self.id));
                reply.body.payload = payload;
                out.push(reply);
            },
        }
        out
    }

    /// Serves one event.
    ///
    /// A `send` whose key another node owns is forwarded to that node; any
    /// other `send`, and every `forward_send`, starts allocating an offset at
    /// once, whatever this node is waiting for, so two nodes that forward to
    /// each other both go on. Polls, commits and listings start their first
    /// call, or are answered at once when they name no key. A reply moves the
    /// operation that waits on it: it makes its next call, answers its
    /// request, or fails and is dropped. An `error` that no operation waits
    /// for is only reported.
    pub fn step(&mut self, input: Event<Payload, Tick>) -> (r: Result<Vec<Message<Payload>>, GanError>)
        ensures
            final(self).node_id == old(self).node_id,
            final(self).node_ids == old(self).node_ids,
            !(input is Injected) ==> final(self).now == old(self).now,
            match input {
                Event::Message(m) => match m.body.payload {
                    Payload::Send { key, msg } => if old(self).id == usize::MAX {
                        r is Err && *final(self) == *old(self)
                    } else {
                        match route_spec(key@, old(self).node_id@, old(self).node_ids@.len()) {
                            Some(i) => r matches Ok(out) && out@.len() == 1
                                && out@[0].src@ == old(self).node_id@
                                && out@[0].dst@ == old(self).node_ids@[i as int]@
                                && out@[0].body.id == Some(old(self).id)
                                && out@[0].body.in_reply_to is None
                                && (out@[0].body.payload matches Payload::ForwardSend { key: k, msg: v } && k@ == key@ && v == msg)
                                && final(self).id == old(self).id + 1
                                && final(self).pending@ == old(self).pending@.push(Pending {
                                    awaiting: old(self).id, since: old(self).now, request: m, op: KafkaOp::Forwarded }),
                            None => r matches Ok(out) && out@.len() == 1
                                && out@[0].dst@ == lin_kv()
                                && out@[0].body.id == Some(old(self).id)
                                && (out@[0].body.payload matches Payload::KvRead { key: lk } && lk@ == prefixed(latest_prefix(), key@))
                                && final(self).id == old(self).id + 1
                                && final(self).pending@.len() == old(self).pending@.len() + 1
                                && final(self).pending@.drop_last() == old(self).pending@
                                && (final(self).pending@.last().op matches KafkaOp::ReadLatest { key: k, value: v } && k@ == key@ && v == msg),
                        }
                    },
                    Payload::ForwardSend { key, msg } => if old(self).id == usize::MAX {
                        r is Err && *final(self) == *old(self)
                    } else {
                        r matches Ok(out) && out@.len() == 1
                        && out@[0].dst@ == lin_kv()
                        && out@[0].body.id == Some(old(self).id)
                        && (out@[0].body.payload matches Payload::KvRead { key: lk } && lk@ == prefixed(latest_prefix(), key@))
                        && final(self).id == old(self).id + 1
                        && final(self).pending@.len() == old(self).pending@.len() + 1
                        && final(self).pending@.drop_last() == old(self).pending@
                        && (final(self).pending@.last().op matches KafkaOp::ReadLatest { key: k, value: v } && k@ == key@ && v == msg)
                    },
                    Payload::Poll { offsets } => if old(self).id == usize::MAX {
                        r is Err && *final(self) == *old(self)
                    } else {
                        r matches Ok(out) && out@.len() == 1 && final(self).id == old(self).id + 1
                        && (offsets@.len() == 0 ==> answers(out@[0], m, old(self).id)
                            && (out@[0].body.payload matches Payload::PollOk { msgs } && msgs@.len() == 0)
                            && final(self).pending@ == old(self).pending@)
                        && (offsets@.len() > 0 && segment_start(offsets@[0].1) <= u64::MAX - BATCH_SIZE ==>
                            out@[0].dst@ == lin_kv() && out@[0].body.id == Some(old(self).id)
                            && (out@[0].body.payload matches Payload::KvRead { key }
                                && key@ == entry_key_spec(offsets@[0].0@, segment_start(offsets@[0].1)))
                            && final(self).pending@.drop_last() == old(self).pending@
                            && final(self).pending@.len() == old(self).pending@.len() + 1
                            && final(self).pending@.last().awaiting == old(self).id
                            && final(self).pending@.last().request == m
                            && (final(self).pending@.last().op matches KafkaOp::PollSegment { offsets: o2, done, start, found, result }
                                && same_pairs(o2@, offsets@) && done == 0 && start == segment_start(offsets@[0].1)
                                && found@.len() == 0 && result@.len() == 0))
                    },
                    Payload::CommitOffsets { offsets } => if old(self).id == usize::MAX {
                        r is Err && *final(self) == *old(self)
                    } else {
                        r matches Ok(out) && out@.len() == 1 && final(self).id == old(self).id + 1
                        && (offsets@.len() == 0 ==> answers(out@[0], m, old(self).id)
                            && out@[0].body.payload is CommitOffsetsOk
                            && final(self).pending@ == old(self).pending@)
                        && (offsets@.len() > 0 ==>
                            out@[0].dst@ == lin_kv() && out@[0].body.id == Some(old(self).id)
                            && (out@[0].body.payload matches Payload::Write { key, value }
                                && key@ == prefixed(commit_prefix(), offsets@[0].0@)
                                && value@ == decimal(offsets@[0].1 as nat))
                            && final(self).pending@.drop_last() == old(self).pending@
                            && final(self).pending@.len() == old(self).pending@.len() + 1
                            && final(self).pending@.last().awaiting == old(self).id
                            && final(self).pending@.last().request == m
                            && (final(self).pending@.last().op matches KafkaOp::Commit { offsets: o2, done }
                                && same_pairs(o2@, offsets@) && done == 0))
                    },
                    Payload::ListCommittedOffsets { keys } => if old(self).id == usize::MAX {
                        r is Err && *final(self) == *old(self)
                    } else {
                        r matches Ok(out) && out@.len() == 1 && final(self).id == old(self).id + 1
                        && (keys@.len() == 0 ==> answers(out@[0], m, old(self).id)
                            && (out@[0].body.payload matches Payload::ListCommittedOffsetsOk { offsets } && offsets@.len() == 0)
                            && final(self).pending@ == old(self).pending@)
                        && (keys@.len() > 0 ==>
                            out@[0].dst@ == lin_kv() && out@[0].body.id == Some(old(self).id)
                            && (out@[0].body.payload matches Payload::KvRead { key }
                                && key@ == prefixed(commit_prefix(), keys@[0]@))
                            && final(self).pending@.drop_last() == old(self).pending@
                            && final(self).pending@.len() == old(self).pending@.len() + 1
                            && final(self).pending@.last().awaiting == old(self).id
                            && final(self).pending@.last().request == m
                            && (final(self).pending@.last().op matches KafkaOp::List { keys: k2, done, result }
                                && names(k2@) == names(keys@) && done == 0 && result@.len() == 0))
                    },
                    Payload::SendOk { .. } | Payload::ReadOk { .. } | Payload::WriteOk | Payload::CasOk | Payload::Error { .. } => {
                        let i = match m.body.in_reply_to {
                            Some(a) => index_awaiting(old(self).pending@, a),
                            None => -1,
                        };
                        if i == -1 {
                            *final(self) == *old(self) && (m.body.payload is Error <==> r is Ok)
                                && (r matches Ok(out) ==> out@.len() == 0)
                        } else if old(self).id == usize::MAX {
                            r is Err && *final(self) == *old(self)
                        } else {
                            reply_moves(*old(self), *final(self), i, m.body.payload, r)
                        }
                    },
                    _ => r is Err && *final(self) == *old(self),
                },
                Event::Injected(t) => final(self).now == t.now_ms && final(self).id == old(self).id
                    && final(self).pending@ == old(self).pending@.filter(still_waits::<Payload, KafkaOp>(t.now_ms))
                    && (r is Ok <==> final(self).pending@.len() == old(self).pending@.len())
                    && (r matches Ok(out) ==> out@.len() == 0),
                Event::EOF => r matches Ok(out) && out@.len() == 0 && *final(self) == *old(self),
            },
    {
        let input = match input {
            Event::Message(m) => m,
            Event::Injected(t) => {
                self.now = t.now_ms;
                let dropped = expire(&mut self.pending, t.now_ms);
                if dropped > 0 {
                    return Err(GanError::Normal("wait response timeout".to_string()));
                }
                return Ok(Vec::new());
            },
            Event::EOF => {
                return Ok(Vec::new());
            },
        };
        let is_reply = match &input.body.payload {
            Payload::SendOk { .. } | Payload::ReadOk { .. } | Payload::WriteOk | Payload::CasOk | Payload::Error { .. } => true,
            _ => false,
        };
        if is_reply {
            let found = match input.body.in_reply_to {
                Some(a) => find_awaiting(&self.pending, a),
                None => None,
            };
            let i = match found {
                Some(i) => i,
                None => {
                    if matches!(input.body.payload, Payload::Error { .. }) {
                        return Ok(Vec::new());
                    }
                    return Err(GanError::Normal("a reply that no operation waits for".to_string()));
                },
            };
            if self.id == usize::MAX {
                return Err(GanError::Normal("message ids exhausted".to_string()));
            }
            let ghost before = self.pending@;
            let p = self.pending.remove(i);
            let ghost rest = self.pending@;
            let res = advance(p.op, &input.body.payload);
            let ghost gres = res;
            match res {
                Ok(Next::Call { op, payload }) => {
                    let id = self.id;
                    let mut out: Vec<Message<Payload>> = Vec::new();
                    out.push(self.kv_call(id, payload));
                    self.id = id + 1;
                    self.pending.insert(i, Pending { awaiting: id, since: self.now, request: p.request, op });
                    proof {
                        assert(self.pending@ =~= before.update(i as int, Pending {
                            awaiting: id, since: self.now, request: p.request, op }));
                        assert(advance_post(before[i as int].op, input.body.payload, gres));
                        assert(moved(*old(self), *self, i as int, Ok::<Vec<Message<Payload>>, GanError>(out), gres));
                        assert(old(self).pending@[i as int] == before[i as int]);
                        assert(reply_moves(*old(self), *self, i as int, input.body.payload, Ok::<Vec<Message<Payload>>, GanError>(out)));
                    }
                    return Ok(out);
                },
                Ok(Next::Done { payload }) => {
                    let mut reply = p.request.into_reply(Some(&mut self.id));
                    reply.body.payload = payload;
                    let mut out: Vec<Message<Payload>> = Vec::new();
                    out.push(reply);
                    proof {
                        assert(advance_post(before[i as int].op, input.body.payload, gres));
                        assert(moved(*old(self), *self, i as int, Ok::<Vec<Message<Payload>>, GanError>(out), gres));
                        assert(old(self).pending@[i as int] == before[i as int]);
                        assert(reply_moves(*old(self), *self, i as int, input.body.payload, Ok::<Vec<Message<Payload>>, GanError>(out)));
                    }
                    return Ok(out);
                },
                Err(e) => {
                    proof {
                        assert(advance_post(before[i as int].op, input.body.payload, gres));
                        assert(moved(*old(self), *self, i as int, Err::<Vec<Message<Payload>>, GanError>(e), gres));
                        assert(old(self).pending@[i as int] == before[i as int]);
                        assert(reply_moves(*old(self), *self, i as int, input.body.payload, Err::<Vec<Message<Payload>>, GanError>(e)));
                    }
                    return Err(e);
                },
            }
        }
        if self.id == usize::MAX {
            return Err(GanError::Normal("message ids exhausted".to_string()));
        }
        let next = match &input.body.payload {
            Payload::Send { key, msg } => {
                match route(key.as_str(), self.node_id.as_str(), self.node_ids.len()) {
                    Some(owner) => {
                        let id = self.id;
                        let dest = self.node_ids[owner as usize].clone();
                        let mut out: Vec<Message<Payload>> = Vec::new();
                        out.push(Message {
                            src: self.node_id.clone(),
                            dst: dest,
                            body: Body { id: Some(id), in_reply_to: None, payload: Payload::ForwardSend { key: key.clone(), msg: *msg } },
                        });
                        self.id = id + 1;
                        self.pending.push(Pending { awaiting: id, since: self.now, request: input, op: KafkaOp::Forwarded });
                        return Ok(out);
                    },
                    None => start_send(key.clone(), *msg),
                }
            },
            Payload::ForwardSend { key, msg } => start_send(key.clone(), *msg),
            Payload::Poll { offsets } => poll_from(copy_offsets(offsets), 0, Vec::new()),
            Payload::CommitOffsets { offsets } => commit_from(copy_offsets(offsets), 0),
            Payload::ListCommittedOffsets { keys } => list_from(copy_keys(keys), 0, Vec::new()),
            _ => {
                return Err(GanError::Normal("should not exist invalid response for step".to_string()));
            },
        };
        Ok(self.begin(input, next))
    }
}

/// Two lists of `(key, offset)` pairs with the same keys' chars and offsets.
pub open spec fn same_pairs(a: Seq<(String, u64)>, b: Seq<(String, u64)>) -> bool {
    a.len() == b.len() && forall|i: int| 0 <= i < a.len() ==> (#[trigger] a[i]).0@ == b[i].0@ && a[i].1 == b[i].1
}

fn copy_offsets(v: &Vec<(String, u64)>) -> (r: Vec<(String, u64)>)
    ensures
        same_pairs(r@, v@),
{
    let mut r: Vec<(String, u64)> = Vec::new();
    let mut i: usize = 0;
    while i < v.len()
        invariant
            i <= v@.len(),
            r@.len() == i,
            forall|j: int| 0 <= j < i ==> (#[trigger] r@[j]).0@ == v@[j].0@ && r@[j].1 == v@[j].1,
        decreases v@.len() - i,
    {
        r.push((v[i].0.clone(), v[i].1));
        i = i + 1;
    }
    r
}

fn copy_keys(v: &Vec<String>) -> (r: Vec<String>)
    ensures
        names(r@) == names(v@),
        r@.len() == v@.len(),
        forall|i: int| 0 <= i < v@.len() ==> (#[trigger] r@[i])@ == v@[i]@,
{
    let mut r: Vec<String> = Vec::new();
    let mut i: usize = 0;
    while i < v.len()
        invariant
            i <= v@.len(),
            r@.len() == i,
            forall|j: int| 0 <= j < i ==> (#[trigger] r@[j])@ == v@[j]@,
        decreases v@.len() - i,
    {
        r.push(v[i].clone());
        i = i + 1;
    }
    r
}

} // verus!
