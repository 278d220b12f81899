use rustengan::message::{Body, Message};

#[test]
fn into_reply_swaps_and_numbers() {
    let m = Message { src: "c1".to_string(), dst: "n1".to_string(), body: Body { id: Some(9), in_reply_to: None, payload: 5u8 } };
    let mut next: usize = 4;
    let r = m.into_reply(Some(&mut next));
    assert_eq!(r.src, "n1");
    assert_eq!(r.dst, "c1");
    assert_eq!(r.body.id, Some(4));
    assert_eq!(r.body.in_reply_to, Some(9));
    assert_eq!(r.body.payload, 5u8);
    assert_eq!(next, 5);
}

#[test]
fn into_reply_without_id() {
    let m = Message { src: "c1".to_string(), dst: "n1".to_string(), body: Body { id: None, in_reply_to: None, payload: 1u8 } };
    let r = m.into_reply(None);
    assert_eq!(r.body.id, None);
    assert_eq!(r.body.in_reply_to, None);
}

#[test]
fn kv_message_takes_next_id() {
    let mut next: usize = 7;
    let m: Message<String> = Message::kv_message("n1", "lin-kv", Some(&mut next), Some(3));
    assert_eq!(m.src, "n1");
    assert_eq!(m.dst, "lin-kv");
    assert_eq!(m.body.id, Some(7));
    assert_eq!(m.body.in_reply_to, Some(3));
    assert_eq!(m.body.payload, "");
    assert_eq!(next, 8);
}
