use rustengan::message::{Body, Event, Init, InitPayload, Message};
use rustengan::{broadcast, counter, echo, single_kafka, unique_ids};

fn msg<P>(src: &str, dst: &str, id: Option<usize>, payload: P) -> Message<P> {
    Message { src: src.to_string(), dst: dst.to_string(), body: Body { id, in_reply_to: None, payload } }
}

fn init(node_id: &str, node_ids: &[&str]) -> Init {
    Init { node_id: node_id.to_string(), node_ids: node_ids.iter().map(|s| s.to_string()).collect() }
}

#[test]
fn init_reply_answers_with_id_zero() {
    let m = msg("c1", "n1", Some(1), InitPayload::Init(init("n1", &["n1"])));
    let (reply, got) = m.into_init_reply().ok().expect("init is accepted");
    assert_eq!(reply.src, "n1");
    assert_eq!(reply.dst, "c1");
    assert_eq!(reply.body.id, Some(0));
    assert_eq!(reply.body.in_reply_to, Some(1));
    assert!(matches!(reply.body.payload, InitPayload::InitOk));
    assert_eq!(got.node_id, "n1");
    assert_eq!(got.node_ids, vec!["n1".to_string()]);
}

#[test]
fn init_reply_refuses_init_ok() {
    let m = msg("c1", "n1", Some(1), InitPayload::InitOk);
    assert!(m.into_init_reply().is_err());
}

#[test]
fn echo_after_init() {
    let mut node = echo::EchoNode::from_init(init("n1", &["n1"]));
    let out = node
        .step(Event::Message(msg("c1", "n1", Some(2), echo::Payload::Echo { echo: "hi".to_string() })))
        .ok()
        .expect("echo is served");
    assert_eq!(out.len(), 1);
    let r = &out[0];
    assert_eq!(r.src, "n1");
    assert_eq!(r.dst, "c1");
    assert_eq!(r.body.id, Some(1));
    assert_eq!(r.body.in_reply_to, Some(2));
    match &r.body.payload {
        echo::Payload::EchoOk { echo } => assert_eq!(echo, "hi"),
        _ => panic!("expected echo_ok"),
    }
    assert_eq!(node.id, 2);
}

#[test]
fn unique_id_after_init() {
    let mut node = unique_ids::UniqueNode::from_init(init("n1", &["n1"]));
    let out = node
        .step(Event::Message(msg("c1", "n1", Some(3), unique_ids::Payload::Generate)))
        .ok()
        .expect("generate is served");
    assert_eq!(out.len(), 1);
    assert_eq!(out[0].body.in_reply_to, Some(3));
    match &out[0].body.payload {
        unique_ids::Payload::GenerateOk { guid } => assert_eq!(guid, "n1-1"),
        _ => panic!("expected generate_ok"),
    }
    let out = node
        .step(Event::Message(msg("c1", "n1", Some(4), unique_ids::Payload::Generate)))
        .ok()
        .unwrap();
    match &out[0].body.payload {
        unique_ids::Payload::GenerateOk { guid } => assert_eq!(guid, "n1-2"),
        _ => panic!("expected generate_ok"),
    }
}

#[test]
fn broadcast_single_node() {
    let mut node = broadcast::BroadcastNode::from_init(init("n1", &["n1"]));
    let (out, _) = node
        .step(Event::Message(msg("c1", "n1", Some(1), broadcast::Payload::Broadcast { message: 42 })))
        .ok()
        .unwrap();
    assert_eq!(out.len(), 1);
    assert!(matches!(out[0].body.payload, broadcast::Payload::BroadcastOk));
    let (out, _) = node.step(Event::Message(msg("c1", "n1", Some(2), broadcast::Payload::Read))).ok().unwrap();
    match &out[0].body.payload {
        broadcast::Payload::ReadOk { messages } => assert_eq!(messages, &vec![42u64]),
        _ => panic!("expected read_ok"),
    }
}

/// A sequential key-value service holding `u64` values, answering the
/// counter node's calls.
fn counter_kv(kv: &mut std::collections::HashMap<String, u64>, call: &Message<counter::Payload>) -> Message<counter::Payload> {
    let payload = match &call.body.payload {
        counter::Payload::KvRead { key } => match kv.get(key) {
            Some(v) => counter::Payload::ReadOk { value: *v },
            None => counter::Payload::Error { code: 20, text: "key does not exist".to_string() },
        },
        counter::Payload::Write { key, value } => {
            kv.insert(key.clone(), *value);
            counter::Payload::WriteOk
        }
        counter::Payload::Cas { key, from, to, create_if_not_exists } => match kv.get(key).copied() {
            Some(v) if v == *from => {
                kv.insert(key.clone(), *to);
                counter::Payload::CasOk
            }
            Some(_) => counter::Payload::Error { code: 22, text: "precondition failed".to_string() },
            None if *create_if_not_exists => {
                kv.insert(key.clone(), *to);
                counter::Payload::CasOk
            }
            None => counter::Payload::Error { code: 20, text: "key does not exist".to_string() },
        },
        _ => panic!("not a key-value call"),
    };
    Message {
        src: call.dst.clone(),
        dst: call.src.clone(),
        body: Body { id: None, in_reply_to: call.body.id, payload },
    }
}

/// Runs one client request on a counter node against `kv` until it is answered.
fn counter_request(
    node: &mut counter::CounterNode,
    kv: &mut std::collections::HashMap<String, u64>,
    id: usize,
    payload: counter::Payload,
) -> counter::Payload {
    let mut out = node.step(Event::Message(msg("c1", "n1", Some(id), payload))).ok().expect("request accepted");
    loop {
        assert_eq!(out.len(), 1);
        let m = out.pop().unwrap();
        if m.dst == "c1" {
            assert_eq!(m.body.in_reply_to, Some(id));
            return m.body.payload;
        }
        assert_eq!(m.dst, "seq-kv");
        let reply = counter_kv(kv, &m);
        out = node.step(Event::Message(reply)).ok().expect("reply accepted");
    }
}

#[test]
fn counter_add_then_read() {
    let mut node = counter::CounterNode::from_init(init("n1", &["n1"]));
    let mut kv = std::collections::HashMap::new();
    assert!(matches!(counter_request(&mut node, &mut kv, 1, counter::Payload::Add { delta: 3 }), counter::Payload::AddOk));
    assert!(matches!(counter_request(&mut node, &mut kv, 2, counter::Payload::Add { delta: 3 }), counter::Payload::AddOk));
    assert!(matches!(counter_request(&mut node, &mut kv, 3, counter::Payload::Add { delta: 4 }), counter::Payload::AddOk));
    match counter_request(&mut node, &mut kv, 4, counter::Payload::Read) {
        counter::Payload::ReadOk { value } => assert_eq!(value, 10),
        _ => panic!("expected read_ok"),
    }
    assert!(node.pending.is_empty());
}

fn kafka_step(node: &mut single_kafka::KafkaNode, id: usize, payload: single_kafka::Payload) -> single_kafka::Payload {
    let mut out = node.step(Event::Message(msg("c1", "n1", Some(id), payload))).ok().expect("request served");
    assert_eq!(out.len(), 1);
    let r = out.pop().unwrap();
    assert_eq!(r.body.in_reply_to, Some(id));
    r.body.payload
}

#[test]
fn kafka_send_poll_commit_list() {
    let mut node = single_kafka::KafkaNode::from_init(init("n1", &["n1"]));
    match kafka_step(&mut node, 1, single_kafka::Payload::Send { key: "k1".to_string(), msg: 100 }) {
        single_kafka::Payload::SendOk { offset } => assert_eq!(offset, 0),
        _ => panic!("expected send_ok"),
    }
    match kafka_step(&mut node, 2, single_kafka::Payload::Send { key: "k1".to_string(), msg: 200 }) {
        single_kafka::Payload::SendOk { offset } => assert_eq!(offset, 1),
        _ => panic!("expected send_ok"),
    }
    match kafka_step(&mut node, 3, single_kafka::Payload::Poll { offsets: vec![("k1".to_string(), 0)] }) {
        single_kafka::Payload::PollOk { msgs } => {
            assert_eq!(msgs, vec![("k1".to_string(), vec![(0u64, 100u64), (1, 200)])]);
        }
        _ => panic!("expected poll_ok"),
    }
    assert!(matches!(
        kafka_step(&mut node, 4, single_kafka::Payload::CommitOffsets { offsets: vec![("k1".to_string(), 1)] }),
        single_kafka::Payload::CommitOffsetsOk
    ));
    match kafka_step(&mut node, 5, single_kafka::Payload::ListCommittedOffsets { keys: vec!["k1".to_string()] }) {
        single_kafka::Payload::ListCommittedOffsetsOk { offsets } => {
            assert_eq!(offsets, vec![("k1".to_string(), 1u64)]);
        }
        _ => panic!("expected list_committed_offsets_ok"),
    }
}
