use nats_core::client::Message;
use nats_core::jetstream::AckKind;
use nats_core::proto::decode;
use nats_core::proto::encode_op;
use nats_core::proto::encode_u64;
use nats_core::proto::ClientOp;
use nats_core::proto::Decoded;
use nats_core::proto::Headers;
use nats_core::proto::ServerOp;

fn bv(s: &str) -> Vec<u8> {
    s.as_bytes().to_vec()
}

#[test]
fn encodes_numbers_in_decimal() {
    assert_eq!(encode_u64(0), bv("0"));
    assert_eq!(encode_u64(7), bv("7"));
    assert_eq!(encode_u64(120000), bv("120000"));
    assert_eq!(encode_u64(u64::MAX), bv("18446744073709551615"));
}

#[test]
fn encodes_publish_frames() {
    let op = ClientOp::Pub { subject: bv("x"), reply_to: None, payload: bv("hi") };
    assert_eq!(encode_op(&op), bv("PUB x 2\r\nhi\r\n"));
    let op = ClientOp::Pub { subject: bv("x"), reply_to: Some(bv("inbox.1")), payload: bv("") };
    assert_eq!(encode_op(&op), bv("PUB x inbox.1 0\r\n\r\n"));
}

#[test]
fn encodes_headered_publish_frames() {
    let headers = Headers { entries: vec![(bv("K"), bv("V"))] };
    let op = ClientOp::Hpub { subject: bv("x"), reply_to: None, headers, payload: bv("hi") };
    // The header block is "NATS/1.0\r\nK: V\r\n\r\n": 18 bytes, 20 in all.
    assert_eq!(encode_op(&op), bv("HPUB x 18 20\r\nNATS/1.0\r\nK: V\r\n\r\nhi\r\n"));
}

#[test]
fn encodes_subscription_frames() {
    let op = ClientOp::Sub { subject: bv("x"), queue_group: None, sid: 1 };
    assert_eq!(encode_op(&op), bv("SUB x 1\r\n"));
    let op = ClientOp::Sub { subject: bv("x"), queue_group: Some(bv("g")), sid: 12 };
    assert_eq!(encode_op(&op), bv("SUB x g 12\r\n"));
    let op = ClientOp::Unsub { sid: 12, max_msgs: None };
    assert_eq!(encode_op(&op), bv("UNSUB 12\r\n"));
    let op = ClientOp::Unsub { sid: 12, max_msgs: Some(5) };
    assert_eq!(encode_op(&op), bv("UNSUB 12 5\r\n"));
}

#[test]
fn encodes_heartbeat_frames() {
    assert_eq!(encode_op(&ClientOp::Ping), bv("PING\r\n"));
    assert_eq!(encode_op(&ClientOp::Pong), bv("PONG\r\n"));
}

#[test]
fn decodes_control_frames() {
    match decode(&bv("PING\r\n"), 0) {
        Decoded::Frame(ServerOp::Ping, 6) => {},
        _ => panic!("expected a PING"),
    }
    match decode(&bv("PONG\r\nrest"), 0) {
        Decoded::Frame(ServerOp::Pong, 6) => {},
        _ => panic!("expected a PONG"),
    }
}

#[test]
fn decodes_error_frames() {
    match decode(&bv("-ERR 'Unknown Subject'\r\n"), 0) {
        Decoded::Frame(ServerOp::ErrMsg(text), used) => {
            assert_eq!(text, bv("'Unknown Subject'"));
            assert_eq!(used, 24);
        },
        _ => panic!("expected an error frame"),
    }
}

#[test]
fn decodes_messages_with_and_without_reply() {
    match decode(&bv("MSG x 1 2\r\nhi\r\n"), 0) {
        Decoded::Frame(ServerOp::Msg { subject, sid, reply_to, payload }, used) => {
            assert_eq!(subject, bv("x"));
            assert_eq!(sid, 1);
            assert!(reply_to.is_none());
            assert_eq!(payload, bv("hi"));
            assert_eq!(used, 15);
        },
        _ => panic!("expected a message"),
    }
    match decode(&bv("MSG x 1 inbox.1 2\r\nhi\r\n"), 0) {
        Decoded::Frame(ServerOp::Msg { reply_to, .. }, _) => {
            assert_eq!(reply_to, Some(bv("inbox.1")));
        },
        _ => panic!("expected a message with a reply subject"),
    }
}

#[test]
fn decodes_headered_messages() {
    let wire = bv("HMSG x 1 18 20\r\nNATS/1.0\r\nK: V\r\n\r\nhi\r\n");
    match decode(&wire, 0) {
        Decoded::Frame(ServerOp::Hmsg { subject, headers, sid, reply_to, payload }, used) => {
            assert_eq!(subject, bv("x"));
            assert_eq!(sid, 1);
            assert!(reply_to.is_none());
            assert_eq!(headers.entries, vec![(bv("K"), bv("V"))]);
            assert_eq!(payload, bv("hi"));
            assert_eq!(used, wire.len());
        },
        _ => panic!("expected a headered message"),
    }
}

#[test]
fn info_lines_carry_their_raw_body() {
    // Server-info snapshots carry JSON owned by the connector; the decoder
    // hands the body over raw.
    match decode(&bv("INFO {\"headers\":true}\r\n"), 0) {
        Decoded::Frame(ServerOp::InfoLine(body), used) => {
            assert_eq!(body, bv("{\"headers\":true}"));
            assert_eq!(used, 23);
        },
        _ => panic!("expected an info line"),
    }
}

#[test]
fn unknown_lines_pass_through() {
    match decode(&bv("WHAT is this\r\n"), 0) {
        Decoded::Frame(ServerOp::Unknown(line), used) => {
            assert_eq!(line, bv("WHAT is this"));
            assert_eq!(used, 14);
        },
        _ => panic!("expected an unknown line"),
    }
}

#[test]
fn incomplete_input_asks_for_more() {
    match decode(&bv("MSG x 1 2"), 0) {
        Decoded::Incomplete => {},
        _ => panic!("no line break yet"),
    }
    match decode(&bv("MSG x 1 2\r\nh"), 0) {
        Decoded::Incomplete => {},
        _ => panic!("payload not complete yet"),
    }
}

#[test]
fn torn_frames_are_malformed() {
    match decode(&bv("MSG x one 2\r\nhi\r\n"), 0) {
        Decoded::Malformed => {},
        _ => panic!("a non-numeric identifier breaks the frame"),
    }
    match decode(&bv("MSG x 01 2\r\nhi\r\n"), 0) {
        Decoded::Malformed => {},
        _ => panic!("a leading zero is not canonical"),
    }
    match decode(&bv("MSG x 1 2\r\nhixx\r\n"), 0) {
        Decoded::Malformed => {},
        _ => panic!("the payload must end on its line break"),
    }
}

#[test]
fn decodes_from_an_offset() {
    let wire = bv("PING\r\nPONG\r\n");
    match decode(&wire, 6) {
        Decoded::Frame(ServerOp::Pong, 6) => {},
        _ => panic!("expected the second frame"),
    }
}

#[test]
fn ack_kinds_have_their_wire_payloads() {
    assert_eq!(AckKind::Ack.payload(), bv("+ACK"));
    assert_eq!(AckKind::Nak.payload(), bv("-NAK"));
    assert_eq!(AckKind::Progress.payload(), bv("+WPI"));
    assert_eq!(AckKind::Next.payload(), bv("+NXT"));
    assert_eq!(AckKind::Term.payload(), bv("+TERM"));
}

fn msg_with_reply(reply: Option<Vec<u8>>) -> Message {
    Message { subject: bv("x"), reply, data: bv(""), headers: None, double_acked: false }
}

#[test]
fn stream_metadata_parses_a_new_reply_subject() {
    let m = msg_with_reply(Some(bv("$JS.ACK.dom.hash.orders.pull.1.22.333.4444.5.tok")));
    let info = m.jetstream_message_info().unwrap();
    assert_eq!(info.domain, Some(bv("dom")));
    assert_eq!(info.acc_hash, Some(bv("hash")));
    assert_eq!(info.stream, bv("orders"));
    assert_eq!(info.consumer, bv("pull"));
    assert_eq!(info.delivered, 1);
    assert_eq!(info.stream_seq, 22);
    assert_eq!(info.consumer_seq, 333);
    assert_eq!(info.published_nanos, 4444);
    assert_eq!(info.pending, 5);
    assert_eq!(info.token, Some(bv("tok")));
}

#[test]
fn stream_metadata_underscore_means_no_domain() {
    let m = msg_with_reply(Some(bv("$JS.ACK._.hash.orders.pull.1.22.333.4444.5.tok")));
    let info = m.jetstream_message_info().unwrap();
    assert_eq!(info.domain, None);
}

#[test]
fn stream_metadata_parses_an_old_reply_subject() {
    let m = msg_with_reply(Some(bv("$JS.ACK.orders.pull.1.22.333.4444.5")));
    let info = m.jetstream_message_info().unwrap();
    assert_eq!(info.domain, None);
    assert_eq!(info.acc_hash, None);
    assert_eq!(info.stream, bv("orders"));
    assert_eq!(info.consumer, bv("pull"));
    assert_eq!(info.delivered, 1);
    assert_eq!(info.pending, 5);
    assert_eq!(info.token, None);
}

#[test]
fn stream_metadata_rejects_everything_else() {
    assert!(msg_with_reply(None).jetstream_message_info().is_none());
    assert!(msg_with_reply(Some(bv("inbox.1"))).jetstream_message_info().is_none());
    // A token count between the two known shapes is not metadata.
    let m = msg_with_reply(Some(bv("$JS.ACK.orders.pull.1.22.333.4444.5.extra")));
    assert!(m.jetstream_message_info().is_none());
    // A number that does not read back canonically is rejected.
    let m = msg_with_reply(Some(bv("$JS.ACK.orders.pull.01.22.333.4444.5")));
    assert!(m.jetstream_message_info().is_none());
}
