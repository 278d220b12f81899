use std::collections::HashMap;

use rustengan::message::{Body, Event, GanError, Init, Message};
use rustengan::pending::Tick;
use rustengan::multi_kafka::Payload as P;
use rustengan::{broadcast, counter, kv, log_storage, multi_kafka, segment, text, txn};

fn msg<P>(src: &str, dst: &str, id: Option<usize>, payload: P) -> Message<P> {
    Message { src: src.to_string(), dst: dst.to_string(), body: Body { id, in_reply_to: None, payload } }
}

fn init(node_id: &str, node_ids: &[&str]) -> Init {
    Init { node_id: node_id.to_string(), node_ids: node_ids.iter().map(|s| s.to_string()).collect() }
}

fn strings(v: &[&str]) -> Vec<String> {
    v.iter().map(|s| s.to_string()).collect()
}

#[test]
fn decimal_round_trips() {
    assert_eq!(text::to_decimal(0), "0");
    assert_eq!(text::to_decimal(12345), "12345");
    assert_eq!(text::to_decimal(u64::MAX), "18446744073709551615");
    assert_eq!(text::parse_u64("12345"), Some(12345));
    assert_eq!(text::parse_u64("18446744073709551615"), Some(u64::MAX));
    assert_eq!(text::parse_u64("18446744073709551616"), None);
    assert_eq!(text::parse_u64(""), None);
    assert_eq!(text::parse_u64("12a"), None);
    assert_eq!(text::parse_u64("+5"), None);
}

#[test]
fn storage_offsets_increase_per_key() {
    let mut s = log_storage::KafkaStorage::new();
    let a = s.send("a".to_string(), 1).ok().unwrap();
    let b = s.send("b".to_string(), 2).ok().unwrap();
    let c = s.send("a".to_string(), 3).ok().unwrap();
    assert_eq!((a, b, c), (0, 1, 2));
    assert!(a < c);
}

#[test]
fn storage_poll_from_middle() {
    let mut s = log_storage::KafkaStorage::new();
    for i in 0..5u64 {
        s.send("a".to_string(), 10 + i).ok().unwrap();
        s.send("b".to_string(), 20 + i).ok().unwrap();
    }
    let r = s.poll(vec![("a".to_string(), 5), ("b".to_string(), 100), ("c".to_string(), 0)]).ok().unwrap();
    assert_eq!(r, vec![("a".to_string(), vec![(6u64, 13u64), (8, 14)])]);
    for (_, entries) in &r {
        for w in entries.windows(2) {
            assert!(w[0].0 < w[1].0);
        }
        assert!(entries.iter().all(|e| e.0 >= 5));
    }
}

#[test]
fn storage_poll_empty() {
    let s = log_storage::KafkaStorage::new();
    assert_eq!(s.poll(vec![("a".to_string(), 0)]).ok().unwrap(), vec![]);
}

#[test]
fn storage_commits_overwrite() {
    let mut s = log_storage::KafkaStorage::new();
    s.commit_offsets(vec![("k".to_string(), 3)]).ok().unwrap();
    s.commit_offsets(vec![("k".to_string(), 7), ("j".to_string(), 1)]).ok().unwrap();
    assert_eq!(
        s.list_committed_offsets(strings(&["k", "x", "j"])),
        vec![("k".to_string(), 7u64), ("j".to_string(), 1)]
    );
}

#[test]
fn segment_text() {
    let mut seg = String::new();
    segment::append_entry(&mut seg, 3, 7);
    assert_eq!(seg, "3:7");
    segment::append_entry(&mut seg, 4, 9);
    assert_eq!(seg, "3:7,4:9");
    assert_eq!(segment::parse_segment("3:7,x,4:9,5:,6:1:2", 4), vec![(4u64, 9u64)]);
    assert_eq!(segment::parse_segment("", 0), vec![]);
    assert_eq!(segment::entry_key("k", 20), "entry_k_20-40");
    assert_eq!(segment::latest_key("k"), "latest_k");
    assert_eq!(segment::commit_key("k"), "commit_k");
}

#[test]
fn send_routing() {
    assert_eq!(segment::route("7", "n1", 3), None);
    assert_eq!(segment::route("8", "n1", 3), Some(2));
    assert_eq!(segment::route("abc", "n1", 3), None);
    assert_eq!(segment::route("8", "x", 3), None);
}

#[test]
fn kv_error_codes() {
    assert!(matches!(kv::rpc_error(20, "gone".to_string()), GanError::KeyNotExist));
    assert!(matches!(kv::rpc_error(22, "no".to_string()), GanError::PreconditionFailed));
    match kv::rpc_error(11, "busy".to_string()) {
        GanError::Rpc { code, text } => {
            assert_eq!(code, 11);
            assert_eq!(text, "busy");
        }
        _ => panic!("expected a plain rpc error"),
    }
}

#[test]
fn counter_protocol_moves() {
    let r = counter::advance(&counter::CounterOp::AddRead { delta: 1 }, &counter::Payload::ReadOk { value: u64::MAX });
    assert!(r.is_err());
    match counter::advance(&counter::CounterOp::AddRead { delta: 2 }, &counter::Payload::ReadOk { value: 5 }) {
        Ok(counter::Move::Call { op: counter::CounterOp::AddCas { delta: 2, from: 5 }, call: counter::KvCall::Cas { from: 5, to: 7 } }) => {}
        _ => panic!("expected the swap from 5 to 7"),
    }
    match counter::advance(&counter::CounterOp::AddCas { delta: 2, from: 5 }, &counter::Payload::Error { code: 22, text: String::new() }) {
        Ok(counter::Move::Call { op: counter::CounterOp::AddRead { delta: 2 }, call: counter::KvCall::Read }) => {}
        _ => panic!("expected a fresh read"),
    }
    match counter::advance(&counter::CounterOp::ReadInit, &counter::Payload::WriteOk) {
        Ok(counter::Move::Done { value: Some(0) }) => {}
        _ => panic!("expected a read of 0"),
    }
}

#[test]
fn counter_add_zero_is_immediate() {
    let mut node = counter::CounterNode::from_init(init("n1", &["n1"]));
    let out = node.step(Event::Message(msg("c1", "n1", Some(1), counter::Payload::Add { delta: 0 }))).ok().unwrap();
    assert_eq!(out.len(), 1);
    assert!(matches!(out[0].body.payload, counter::Payload::AddOk));
}

#[test]
fn counter_read_syncs_first() {
    let mut node = counter::CounterNode::from_init(init("n1", &["n1"]));
    let out = node.step(Event::Message(msg("c1", "n1", Some(1), counter::Payload::Read))).ok().unwrap();
    assert_eq!(out.len(), 1);
    assert_eq!(out[0].dst, "seq-kv");
    match &out[0].body.payload {
        counter::Payload::Write { key, value } => {
            assert_eq!(key, "sync");
            assert!(*value < counter::SYNC_VALUE_BOUND);
        }
        _ => panic!("expected the synchronising write"),
    }
    let stray = Message { src: "seq-kv".to_string(), dst: "n1".to_string(), body: Body { id: None, in_reply_to: Some(99), payload: counter::Payload::WriteOk } };
    assert!(node.step(Event::Message(stray)).is_err());
}

#[test]
fn broadcast_topology_without_self_fails() {
    let mut node = broadcast::BroadcastNode::from_init(init("n1", &["n1", "n2"]));
    let topology = vec![("n2".to_string(), strings(&["n1"]))];
    assert!(node.step(Event::Message(msg("c1", "n1", Some(1), broadcast::Payload::Topology { topology }))).is_err());
}

#[test]
fn broadcast_topology_takes_every_extra_when_few() {
    let mut node = broadcast::BroadcastNode::from_init(init("n1", &["n1", "n2", "n3", "n4", "n5"]));
    let topology = vec![
        ("n1".to_string(), strings(&["n2"])),
        ("n2".to_string(), strings(&["n1"])),
        ("n3".to_string(), vec![]),
        ("n4".to_string(), vec![]),
        ("n5".to_string(), vec![]),
    ];
    let (out, _) = node.step(Event::Message(msg("c1", "n1", Some(1), broadcast::Payload::Topology { topology }))).ok().unwrap();
    assert!(matches!(out[0].body.payload, broadcast::Payload::TopologyOk));
    assert_eq!(node.neighborhood, strings(&["n2", "n3"]));
}

#[test]
fn neighborhood_selection_follows_draws() {
    let seeds = strings(&["n2", "zz", "n1"]);
    let rem = strings(&["n3", "n4", "n5"]);
    let picks = vec![false, true, true];
    let peers = strings(&["n1", "n2", "n3", "n4", "n5"]);
    let r = broadcast::select_neighborhood(&seeds, &rem, &picks, &peers, &"n1".to_string(), 2);
    assert_eq!(r, strings(&["n2", "n4"]));
    let topology = vec![("n1".to_string(), strings(&["n2"])), ("n2".to_string(), vec![]), ("n3".to_string(), vec![])];
    assert_eq!(broadcast::remaining_keys(&topology, &"n1".to_string(), &strings(&["n2"])), strings(&["n3"]));
}

#[test]
fn broadcast_gossip_merges_and_wakes() {
    let mut node = broadcast::BroadcastNode::from_init(init("n1", &["n1", "n2"]));
    let (out, wake) = node
        .step(Event::Message(msg("n2", "n1", None, broadcast::Payload::Gossip { seen: vec![1, 2, 2] })))
        .ok()
        .unwrap();
    assert!(out.is_empty());
    assert!(wake);
    assert_eq!(node.messages, vec![1, 2]);
    assert_eq!(node.gossip_delta, 2);
    let (_, wake) = node
        .step(Event::Message(msg("n2", "n1", None, broadcast::Payload::Gossip { seen: vec![2, 3] })))
        .ok()
        .unwrap();
    assert!(!wake);
    assert_eq!(node.messages, vec![1, 2, 3]);
    assert!(node.step(Event::Message(msg("n9", "n1", None, broadcast::Payload::Gossip { seen: vec![4] }))).is_err());
}

#[test]
fn broadcast_gossip_carries_novel_values() {
    let mut node = broadcast::BroadcastNode::from_init(init("n1", &["n1", "n2"]));
    let topology = vec![("n1".to_string(), strings(&["n2"])), ("n2".to_string(), strings(&["n1"])), ("n3".to_string(), vec![]), ("n4".to_string(), vec![])];
    node.step(Event::Message(msg("c1", "n1", Some(1), broadcast::Payload::Topology { topology }))).ok().unwrap();
    assert_eq!(node.neighborhood, strings(&["n2"]));
    node.step(Event::Message(msg("c1", "n1", Some(2), broadcast::Payload::Broadcast { message: 5 }))).ok().unwrap();
    node.step(Event::Message(msg("c1", "n1", Some(3), broadcast::Payload::Broadcast { message: 6 }))).ok().unwrap();
    assert_eq!(node.id, 4);
    let (out, _) = node.step(Event::Injected(broadcast::InjectedPayload::Gossip)).ok().unwrap();
    assert_eq!(out.len(), 1);
    assert_eq!(out[0].dst, "n2");
    assert_eq!(out[0].body.id, Some(4));
    assert_eq!(node.id, 5);
    match &out[0].body.payload {
        broadcast::Payload::Gossip { seen } => assert_eq!(seen, &vec![5, 6]),
        _ => panic!("expected gossip"),
    }
}

#[test]
fn gossip_seen_keeps_picked() {
    let (already, novel) = broadcast::partition_known(&vec![1, 2, 3, 4], &vec![2, 4, 9]);
    assert_eq!(already, vec![2, 4]);
    assert_eq!(novel, vec![1, 3]);
    assert_eq!(broadcast::gossip_seen(&novel, &already, &vec![false, true]), vec![1, 3, 4]);
}

#[test]
fn txn_runs_in_order_and_syncs() {
    let mut node = txn::TxnNode::from_init(init("n1", &["n1", "n2", "n3"]));
    let ops = vec![("r".to_string(), 1, None), ("w".to_string(), 1, Some(5)), ("r".to_string(), 1, None), ("x".to_string(), 2, None)];
    let out = node.step(Event::Message(msg("c1", "n1", Some(7), txn::Payload::Txn { txn: ops }))).ok().unwrap();
    assert_eq!(out.len(), 3);
    assert_eq!(out[0].dst, "n2");
    assert_eq!(out[1].dst, "n3");
    assert_eq!(out[0].body.id, Some(2));
    assert_eq!(out[1].body.id, Some(3));
    match &out[0].body.payload {
        txn::Payload::Sync { changed } => assert_eq!(changed, &vec![(1u64, 5u64)]),
        _ => panic!("expected sync"),
    }
    let reply = &out[2];
    assert_eq!(reply.body.id, Some(1));
    assert_eq!(reply.body.in_reply_to, Some(7));
    match &reply.body.payload {
        txn::Payload::TxnOk { txn } => assert_eq!(
            txn,
            &vec![("r".to_string(), 1u64, None), ("w".to_string(), 1, Some(5)), ("r".to_string(), 1, Some(5))]
        ),
        _ => panic!("expected txn_ok"),
    }
}

#[test]
fn txn_write_without_value_fails() {
    let mut node = txn::TxnNode::from_init(init("n1", &["n1"]));
    let ops = vec![("w".to_string(), 1, None)];
    assert!(node.step(Event::Message(msg("c1", "n1", Some(1), txn::Payload::Txn { txn: ops }))).is_err());
    assert_eq!(node.id, 1);
}

#[test]
fn txn_sync_applies() {
    let mut node = txn::TxnNode::from_init(init("n1", &["n1", "n2"]));
    let out = node.step(Event::Message(msg("n2", "n1", Some(4), txn::Payload::Sync { changed: vec![(3, 4), (3, 6)] }))).ok().unwrap();
    assert!(matches!(out[0].body.payload, txn::Payload::SyncOk));
    assert_eq!(node.storage.get(&3), Some(&6));
    let ops = vec![("r".to_string(), 3, None)];
    let out = node.step(Event::Message(msg("c1", "n1", Some(5), txn::Payload::Txn { txn: ops }))).ok().unwrap();
    assert_eq!(out.len(), 1);
}

/// A linearizable key-value service holding text values.
fn lin_kv(store: &mut HashMap<String, String>, call: &Message<multi_kafka::Payload>) -> Message<multi_kafka::Payload> {
    let payload = match &call.body.payload {
        P::KvRead { key } => match store.get(key) {
            Some(v) => P::ReadOk { value: v.clone() },
            None => P::Error { code: 20, text: "key does not exist".to_string() },
        },
        P::Write { key, value } => {
            store.insert(key.clone(), value.clone());
            P::WriteOk
        }
        P::Cas { key, from, to, create_if_not_exists } => match store.get(key).cloned() {
            Some(v) if &v == from => {
                store.insert(key.clone(), to.clone());
                P::CasOk
            }
            Some(_) => P::Error { code: 22, text: "precondition failed".to_string() },
            None if *create_if_not_exists => {
                store.insert(key.clone(), to.clone());
                P::CasOk
            }
            None => P::Error { code: 20, text: "key does not exist".to_string() },
        },
        _ => panic!("not a key-value call"),
    };
    Message { src: call.dst.clone(), dst: call.src.clone(), body: Body { id: None, in_reply_to: call.body.id, payload } }
}

fn kafka_request(
    node: &mut multi_kafka::KafkaNode,
    store: &mut HashMap<String, String>,
    id: usize,
    payload: multi_kafka::Payload,
) -> multi_kafka::Payload {
    let mut out = node.step(Event::Message(msg("c1", &node.node_id.clone(), Some(id), payload))).ok().expect("request accepted");
    loop {
        assert_eq!(out.len(), 1);
        let m = out.pop().unwrap();
        if m.dst == "c1" {
            assert_eq!(m.body.in_reply_to, Some(id));
            return m.body.payload;
        }
        assert_eq!(m.dst, "lin-kv");
        let reply = lin_kv(store, &m);
        out = node.step(Event::Message(reply)).ok().expect("reply accepted");
    }
}

#[test]
fn multi_kafka_send_poll_commit_list() {
    let mut node = multi_kafka::KafkaNode::from_init(init("n0", &["n0"]));
    let mut store = HashMap::new();
    for (i, v) in [100u64, 200, 300].iter().enumerate() {
        match kafka_request(&mut node, &mut store, i + 1, P::Send { key: "k1".to_string(), msg: *v }) {
            P::SendOk { offset } => assert_eq!(offset, i as u64),
            _ => panic!("expected send_ok"),
        }
    }
    assert_eq!(store.get("latest_k1").map(String::as_str), Some("2"));
    assert_eq!(store.get("entry_k1_0-20").map(String::as_str), Some("0:100,1:200,2:300"));
    match kafka_request(&mut node, &mut store, 10, P::Poll { offsets: vec![("k1".to_string(), 1), ("k2".to_string(), 0)] }) {
        P::PollOk { msgs } => assert_eq!(msgs, vec![("k1".to_string(), vec![(1u64, 200u64), (2, 300)])]),
        _ => panic!("expected poll_ok"),
    }
    assert!(matches!(
        kafka_request(&mut node, &mut store, 11, P::CommitOffsets { offsets: vec![("k1".to_string(), 2)] }),
        P::CommitOffsetsOk
    ));
    match kafka_request(&mut node, &mut store, 12, P::ListCommittedOffsets { keys: strings(&["k1", "k2"]) }) {
        P::ListCommittedOffsetsOk { offsets } => assert_eq!(offsets, vec![("k1".to_string(), 2u64)]),
        _ => panic!("expected list_committed_offsets_ok"),
    }
    assert!(node.pending.is_empty());
}

#[test]
fn multi_kafka_claim_retries_after_lost_race() {
    let mut node = multi_kafka::KafkaNode::from_init(init("n0", &["n0"]));
    let mut store = HashMap::new();
    let mut out = node.step(Event::Message(msg("c1", "n0", Some(1), P::Send { key: "k".to_string(), msg: 9 }))).ok().unwrap();
    let read = out.pop().unwrap();
    let reply = lin_kv(&mut store, &read);
    out = node.step(Event::Message(reply)).ok().unwrap();
    store.insert("latest_k".to_string(), "0".to_string());
    let cas = out.pop().unwrap();
    let reply = lin_kv(&mut store, &cas);
    assert!(matches!(reply.body.payload, P::Error { code: 22, .. }));
    out = node.step(Event::Message(reply)).ok().unwrap();
    let mut m = out.pop().unwrap();
    loop {
        let reply = lin_kv(&mut store, &m);
        let mut next = node.step(Event::Message(reply)).ok().unwrap();
        m = next.pop().unwrap();
        if m.dst == "c1" {
            break;
        }
    }
    match m.body.payload {
        P::SendOk { offset } => assert_eq!(offset, 1),
        _ => panic!("expected send_ok"),
    }
}

#[test]
fn multi_kafka_forwards_and_serves_forwards_while_waiting() {
    let mut node = multi_kafka::KafkaNode::from_init(init("n0", &["n0", "n1"]));
    let out = node.step(Event::Message(msg("c1", "n0", Some(1), P::Send { key: "1".to_string(), msg: 5 }))).ok().unwrap();
    assert_eq!(out[0].dst, "n1");
    assert!(matches!(&out[0].body.payload, P::ForwardSend { key, msg: 5 } if key == "1"));
    let forward_id = out[0].body.id;
    let out = node.step(Event::Message(msg("n1", "n0", Some(8), P::ForwardSend { key: "2".to_string(), msg: 6 }))).ok().unwrap();
    assert_eq!(out[0].dst, "lin-kv");
    let answer = Message { src: "n1".to_string(), dst: "n0".to_string(), body: Body { id: Some(3), in_reply_to: forward_id, payload: P::SendOk { offset: 41 } } };
    let out = node.step(Event::Message(answer)).ok().unwrap();
    assert_eq!(out[0].dst, "c1");
    assert_eq!(out[0].body.in_reply_to, Some(1));
    assert!(matches!(out[0].body.payload, P::SendOk { offset: 41 }));
}

#[test]
fn counter_call_times_out() {
    let mut node = counter::CounterNode::from_init(init("n1", &["n1"]));
    node.step(Event::Message(msg("c1", "n1", Some(1), counter::Payload::Add { delta: 3 }))).ok().unwrap();
    assert_eq!(node.pending.len(), 1);
    assert!(node.step(Event::Injected(Tick { now_ms: 999 })).is_ok());
    assert_eq!(node.pending.len(), 1);
    assert!(node.step(Event::Injected(Tick { now_ms: 1000 })).is_err());
    assert!(node.pending.is_empty());
    assert_eq!(node.now, 1000);
}

#[test]
fn multi_kafka_call_times_out_after_its_last_call() {
    let mut node = multi_kafka::KafkaNode::from_init(init("n0", &["n0"]));
    let mut store = HashMap::new();
    let mut out = node.step(Event::Message(msg("c1", "n0", Some(1), P::Send { key: "k".to_string(), msg: 1 }))).ok().unwrap();
    assert!(node.step(Event::Injected(Tick { now_ms: 900 })).is_ok());
    let read = out.pop().unwrap();
    out = node.step(Event::Message(lin_kv(&mut store, &read))).ok().unwrap();
    assert_eq!(out.len(), 1);
    assert!(node.step(Event::Injected(Tick { now_ms: 1800 })).is_ok());
    assert_eq!(node.pending.len(), 1);
    assert!(node.step(Event::Injected(Tick { now_ms: 1900 })).is_err());
    assert!(node.pending.is_empty());
}

#[test]
fn storage_send_appends_record_bytes() {
    let mut s = log_storage::KafkaStorage::new();
    s.send("a".to_string(), 7).ok().unwrap();
    let r = s.poll(vec![("a".to_string(), 0)]).ok().unwrap();
    assert_eq!(r, vec![("a".to_string(), vec![(0u64, 7u64)])]);
}

#[test]
fn multi_kafka_failed_segment_write_is_typed() {
    let op = multi_kafka::KafkaOp::WriteSegment { offset: 3 };
    match multi_kafka::advance(op, &P::Error { code: 11, text: "busy".to_string() }) {
        Err(GanError::Rpc { code, text }) => {
            assert_eq!(code, 11);
            assert_eq!(text, "busy");
        }
        _ => panic!("expected the service's error"),
    }
    let op = multi_kafka::KafkaOp::ClaimOffset { key: "k".to_string(), value: 1, offset: 0 };
    assert!(matches!(multi_kafka::advance(op, &P::Error { code: 20, text: String::new() }), Err(GanError::KeyNotExist)));
}

#[test]
fn multi_kafka_poll_keeps_every_key() {
    let mut node = multi_kafka::KafkaNode::from_init(init("n0", &["n0"]));
    let mut store = HashMap::new();
    for (i, k) in ["a", "b", "a"].iter().enumerate() {
        kafka_request(&mut node, &mut store, i + 1, P::Send { key: k.to_string(), msg: 5 + i as u64 });
    }
    match kafka_request(&mut node, &mut store, 9, P::Poll { offsets: vec![("a".to_string(), 0), ("b".to_string(), 0)] }) {
        P::PollOk { msgs } => assert_eq!(
            msgs,
            vec![("a".to_string(), vec![(0u64, 5u64), (1, 7)]), ("b".to_string(), vec![(0u64, 6u64)])]
        ),
        _ => panic!("expected poll_ok"),
    }
}
