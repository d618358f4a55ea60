use nats_core::buffer::Buffer;
use nats_core::client::Client;
use nats_core::client::Effect;
use nats_core::client::HeartbeatAction;
use nats_core::client::Message;
use nats_core::client::PongWaiter;
use nats_core::proto::decode;
use nats_core::proto::Decoded;
use nats_core::proto::Headers;
use nats_core::proto::ServerInfo;
use nats_core::proto::ServerOp;
use nats_core::ClientError;
use nats_core::MAX_PINGS_OUT;
use nats_core::PING_INTERVAL_MS;

fn bv(s: &str) -> Vec<u8> {
    s.as_bytes().to_vec()
}

fn info(headers: bool) -> ServerInfo {
    ServerInfo { headers, connect_urls: Vec::new() }
}

fn connected(headers: bool) -> Client {
    let (mut c, _first) = Client::new(1024, 0);
    c.reconnect(info(headers)).unwrap();
    c.connection_ready();
    c
}

#[test]
fn handshake_completes_on_first_healthy_connection() {
    // The pending-PONG queue starts with the initial waiter; establishing
    // the first connection completes it, which is what connect blocks on.
    let (mut c, first_waiter) = Client::new(1024, 0);
    assert!(c.writer.is_none());
    c.reconnect(info(true)).unwrap();
    // The snapshot is only staged until the replay reaches the wire.
    assert!(c.writer.is_some());
    assert!(!c.server_info().headers);
    let fired = c.connection_ready();
    assert_eq!(fired, vec![first_waiter]);
    assert!(c.server_info().headers);
}

#[test]
fn publish_subscribe_delivers_message() {
    let mut c = connected(true);
    let sid = c.subscribe(bv("x"), None).unwrap();
    assert_eq!(sid, 1);
    c.publish(bv("x"), None, None, bv("hi")).unwrap();
    let w = c.writer.as_ref().unwrap();
    assert_eq!(w.pending, bv("SUB x 1\r\nPUB x 2\r\nhi\r\n"));
    // The server routes the publish back to the subscription.
    let wire = bv("MSG x 1 2\r\nhi\r\n");
    let (op, used) = match decode(&wire, 0) {
        Decoded::Frame(op, used) => (op, used),
        _ => panic!("expected a whole frame"),
    };
    assert_eq!(used, wire.len());
    match c.handle_op(op, 5) {
        Effect::Nothing => {},
        _ => panic!("a message needs no outside action"),
    }
    assert_eq!(c.last_active, 5);
    let sub = &c.subscriptions[0].1;
    assert_eq!(sub.messages.len(), 1);
    assert_eq!(sub.messages[0].subject, bv("x"));
    assert_eq!(sub.messages[0].data, bv("hi"));
    assert!(sub.messages[0].headers.is_none());
}

#[test]
fn headers_rejected_without_server_support() {
    let mut c = connected(false);
    let hdrs = Headers { entries: vec![(bv("K"), bv("V"))] };
    let r = c.publish(bv("x"), None, Some(hdrs), bv(""));
    assert_eq!(r, Err(ClientError::InvalidInput));
}

#[test]
fn reconnect_replays_subscriptions_then_buffered_publishes() {
    let mut c = connected(true);
    let sid = c.subscribe(bv("x"), None).unwrap();
    assert_eq!(sid, 1);
    // The link breaks; a publish while disconnected is buffered.
    c.drop_writer();
    c.publish(bv("x"), None, None, bv("a")).unwrap();
    assert!(c.writer.is_none());
    // The first bytes on the new connection announce the live subscription,
    // then replay the buffered publish, before anything else.
    c.reconnect(info(true)).unwrap();
    let w = c.writer.as_ref().unwrap();
    assert_eq!(w.sent, bv("SUB x 1\r\nPUB x 1\r\na\r\n"));
    assert_eq!(w.pending, bv(""));
    c.connection_ready();
}

#[test]
fn reconnect_announces_exactly_the_live_sids() {
    let mut c = connected(true);
    let s1 = c.subscribe(bv("x"), None).unwrap();
    let s2 = c.subscribe(bv("y"), Some(bv("g"))).unwrap();
    assert!(s2 > s1);
    c.unsubscribe(s1).unwrap();
    c.drop_writer();
    c.reconnect(info(true)).unwrap();
    let w = c.writer.as_ref().unwrap();
    assert_eq!(w.sent, bv("SUB y g 2\r\n"));
}

#[test]
fn failed_replay_fails_waiters_fast_and_keeps_the_old_snapshot() {
    // A reconnect whose replay never reaches the wire must not look
    // healthy: the snapshot stays the old one, and the taken waiters are
    // dropped rather than left to wait out their timeouts.
    let mut c = connected(false);
    let id = c.flush().unwrap();
    c.drop_writer();
    c.reconnect(info(true)).unwrap();
    assert!(!c.server_info().headers);
    let dropped = c.on_write_failure();
    assert_eq!(dropped, vec![id]);
    assert!(c.writer.is_none());
    assert!(c.pongs.is_empty());
}

#[test]
fn try_publish_rejects_headers_without_server_support() {
    let mut c = connected(false);
    let hdrs = Headers { entries: vec![(bv("K"), bv("V"))] };
    let r = c.try_publish(bv("x"), None, Some(hdrs), bv(""));
    assert_eq!(r, Some(Err(ClientError::InvalidInput)));
}

#[test]
fn info_line_is_surfaced_for_the_connector() {
    let mut c = connected(false);
    let wire = bv("INFO {\"headers\":true}\r\nPING\r\n");
    let (op, used) = match decode(&wire, 0) {
        Decoded::Frame(op, used) => (op, used),
        _ => panic!("expected a whole frame"),
    };
    match c.handle_op(op, 1) {
        Effect::InfoLine(body) => assert_eq!(body, bv("{\"headers\":true}")),
        _ => panic!("the raw info body goes to the connector"),
    }
    // The connector parses the body and the snapshot comes back as an
    // info frame of its own.
    let parsed = ServerInfo { headers: true, connect_urls: vec![bv("10.0.0.2:4222")] };
    match c.handle_op(ServerOp::Info(parsed), 2) {
        Effect::NewUrls(urls) => assert_eq!(urls, vec![bv("10.0.0.2:4222")]),
        _ => panic!("discovered urls go to the connector"),
    }
    assert!(c.server_info().headers);
    match decode(&wire, used) {
        Decoded::Frame(ServerOp::Ping, 6) => {},
        _ => panic!("decoding continues after the info line"),
    }
}

#[test]
fn heartbeat_trips_after_two_silent_intervals() {
    let mut c = connected(true);
    let t1 = PING_INTERVAL_MS + 1;
    match c.heartbeat_timeout(t1) {
        HeartbeatAction::Pinged => {},
        _ => panic!("an idle connection gets a heartbeat"),
    }
    assert_eq!(c.pings_out, 1);
    let t2 = 2 * PING_INTERVAL_MS + 2;
    match c.heartbeat_timeout(t2) {
        HeartbeatAction::Pinged => {},
        _ => panic!("a second heartbeat goes out"),
    }
    assert_eq!(c.pings_out, MAX_PINGS_OUT);
    // With the limit reached and still no activity, the connection counts
    // as dead: the writer is dropped and the supervisor reconnects.
    match c.heartbeat_timeout(t2 + 1) {
        HeartbeatAction::Dropped(ids) => assert_eq!(ids, Vec::<u64>::new()),
        _ => panic!("the dead connection is dropped"),
    }
    assert!(c.writer.is_none());
}

#[test]
fn heartbeat_ping_goes_on_the_wire() {
    let mut c = connected(true);
    c.heartbeat_timeout(PING_INTERVAL_MS + 1);
    assert_eq!(c.writer.as_ref().unwrap().sent, bv("PING\r\n"));
    assert_eq!(c.pongs, vec![PongWaiter::Kicker]);
}

#[test]
fn pong_resets_ping_count() {
    let mut c = connected(true);
    c.heartbeat_timeout(PING_INTERVAL_MS + 1);
    assert_eq!(c.pings_out, 1);
    c.handle_op(ServerOp::Pong, PING_INTERVAL_MS + 2);
    assert_eq!(c.pings_out, 0);
    // The kicker was the queued waiter: receiving the PONG re-arms flushing.
    assert!(c.kicker_signaled);
    assert!(c.pongs.is_empty());
}

#[test]
fn flush_waiter_stays_pending_while_server_is_silent() {
    let mut c = connected(true);
    let id = c.flush().unwrap();
    assert_eq!(c.writer.as_ref().unwrap().sent, bv("PING\r\n"));
    // Nothing arrives: the waiter stays queued. The caller's timed wait on
    // it is what turns silence into a connection-reset error; the entry is
    // reaped on the next disconnect.
    assert_eq!(c.pongs, vec![PongWaiter::OneShot(id)]);
    let dropped = c.on_write_failure();
    assert_eq!(dropped, vec![id]);
    assert!(c.pongs.is_empty());
}

#[test]
fn pongs_complete_flushes_in_fifo_order() {
    let mut c = connected(true);
    let id1 = c.flush().unwrap();
    let id2 = c.flush().unwrap();
    match c.handle_op(ServerOp::Pong, 1) {
        Effect::Fired(id) => assert_eq!(id, id1),
        _ => panic!("the first PONG completes the first flush"),
    }
    match c.handle_op(ServerOp::Pong, 2) {
        Effect::Fired(id) => assert_eq!(id, id2),
        _ => panic!("the second PONG completes the second flush"),
    }
}

#[test]
fn sids_increase_per_subscribe() {
    let mut c = connected(true);
    let s1 = c.subscribe(bv("a"), None).unwrap();
    let s2 = c.subscribe(bv("b"), None).unwrap();
    let s3 = c.subscribe(bv("c"), None).unwrap();
    assert!(s1 < s2 && s2 < s3);
}

#[test]
fn buffer_partition_and_saturation() {
    let mut b = Buffer::new(4);
    assert_eq!(b.write(&[1, 2, 3]), Ok(3));
    b.flush();
    assert!(b.flushed() <= b.written() && b.written() <= b.capacity());
    // A frame that does not fit saturates the buffer: written == capacity,
    // and later smaller writes fail too.
    assert_eq!(b.write(&[4, 5]), Err(ClientError::BufferFull));
    assert_eq!(b.written(), b.capacity());
    assert_eq!(b.write(&[6]), Err(ClientError::BufferFull));
    // Only the committed frames come back out.
    let taken = b.clear();
    assert_eq!(taken, vec![1, 2, 3]);
    assert_eq!(b.written(), 0);
    assert_eq!(b.flushed(), 0);
}

#[test]
fn disconnected_publish_overflow_reports_buffer_full() {
    let (mut c, _) = Client::new(4, 0);
    let r = c.publish(bv("x"), None, None, bv("aaaa"));
    assert_eq!(r, Err(ClientError::BufferFull));
    assert_eq!(c.buffer.written(), c.buffer.capacity());
}

#[test]
fn publish_after_shutdown_is_not_connected() {
    let mut c = connected(true);
    c.close();
    let r = c.publish(bv("x"), None, None, bv("hi"));
    assert_eq!(r, Err(ClientError::NotConnected));
    assert_eq!(c.subscribe(bv("x"), None), Err(ClientError::NotConnected));
    assert_eq!(c.flush(), Err(ClientError::NotConnected));
    assert!(c.reconnect(info(true)).is_err());
}

#[test]
fn close_unsubscribes_everything_and_is_idempotent() {
    let mut c = connected(true);
    c.subscribe(bv("x"), None).unwrap();
    c.subscribe(bv("y"), None).unwrap();
    c.flush().unwrap();
    c.close();
    assert!(c.subscriptions.is_empty());
    assert!(c.pongs.is_empty());
    let sent = c.writer.as_ref().unwrap().sent.clone();
    assert!(sent.ends_with(b"UNSUB 1\r\nUNSUB 2\r\n"));
    // Closing again changes nothing.
    c.close();
    assert_eq!(c.writer.as_ref().unwrap().sent, sent);
}

#[test]
fn unsubscribe_unknown_sid_is_a_no_op() {
    let mut c = connected(true);
    let before = c.writer.as_ref().unwrap().pending.clone();
    assert_eq!(c.unsubscribe(99), Ok(()));
    assert_eq!(c.writer.as_ref().unwrap().pending, before);
}

#[test]
fn try_publish_declines_when_the_frame_may_not_fit() {
    let mut c = connected(true);
    // The conservative estimate alone exceeds the write buffer capacity.
    let big = vec![0u8; 32000];
    assert!(c.try_publish(bv("x"), None, None, big).is_none());
    // A small frame goes through and requests a flush.
    let r = c.try_publish(bv("x"), None, None, bv("hi"));
    assert_eq!(r, Some(Ok(())));
    assert!(c.kicker_signaled);
    assert_eq!(c.writer.as_ref().unwrap().pending, bv("PUB x 2\r\nhi\r\n"));
}

#[test]
fn server_error_and_unknown_frames_surface_effects() {
    let mut c = connected(true);
    match c.handle_op(ServerOp::ErrMsg(bv("'Authorization Violation'")), 1) {
        Effect::ServerError(text) => assert_eq!(text, bv("'Authorization Violation'")),
        _ => panic!("a server error goes to the error callback"),
    }
    match c.handle_op(ServerOp::Unknown(bv("WHAT")), 2) {
        Effect::UnknownLine(line) => assert_eq!(line, bv("WHAT")),
        _ => panic!("an unknown line is logged"),
    }
}

#[test]
fn info_frame_replaces_snapshot_and_surfaces_urls() {
    let mut c = connected(false);
    let fresh = ServerInfo { headers: true, connect_urls: vec![bv("10.0.0.2:4222")] };
    match c.handle_op(ServerOp::Info(fresh), 3) {
        Effect::NewUrls(urls) => assert_eq!(urls, vec![bv("10.0.0.2:4222")]),
        _ => panic!("discovered urls go to the connector"),
    }
    assert!(c.server_info().headers);
}

#[test]
fn ping_from_server_answered_with_pong() {
    let mut c = connected(true);
    c.handle_op(ServerOp::Ping, 1);
    assert_eq!(c.writer.as_ref().unwrap().pending, bv("PONG\r\n"));
    assert!(c.kicker_signaled);
}

#[test]
fn message_for_gone_subscription_is_dropped_silently() {
    let mut c = connected(true);
    let wire = bv("MSG x 7 2\r\nhi\r\n");
    let op = match decode(&wire, 0) {
        Decoded::Frame(op, _) => op,
        _ => panic!("expected a whole frame"),
    };
    c.handle_op(op, 1);
    assert!(c.subscriptions.is_empty());
}

#[test]
fn respond_without_reply_subject_is_invalid_input() {
    let mut c = connected(true);
    let m = Message {
        subject: bv("x"),
        reply: None,
        data: bv("hi"),
        headers: None,
        double_acked: false,
    };
    assert_eq!(m.respond(&mut c, bv("ok")), Err(ClientError::InvalidInput));
}

#[test]
fn respond_publishes_on_the_reply_subject() {
    let mut c = connected(true);
    let m = Message {
        subject: bv("x"),
        reply: Some(bv("inbox.1")),
        data: bv("hi"),
        headers: None,
        double_acked: false,
    };
    m.respond(&mut c, bv("ok")).unwrap();
    assert_eq!(c.writer.as_ref().unwrap().pending, bv("PUB inbox.1 2\r\nok\r\n"));
}

#[test]
fn ack_skips_a_message_already_acknowledged_round_trip() {
    let mut c = connected(true);
    let m = Message {
        subject: bv("x"),
        reply: Some(bv("inbox.1")),
        data: bv(""),
        headers: None,
        double_acked: true,
    };
    m.ack(&mut c).unwrap();
    assert_eq!(c.writer.as_ref().unwrap().pending, bv(""));
    let fresh = Message::from_message(m);
    assert!(!fresh.double_acked);
    fresh.ack(&mut c).unwrap();
    assert_eq!(c.writer.as_ref().unwrap().pending, bv("PUB inbox.1 0\r\n\r\n"));
}

#[test]
fn no_responders_needs_empty_body_and_status_header() {
    let with = Message {
        subject: bv("x"),
        reply: None,
        data: bv(""),
        headers: Some(Headers { entries: vec![(bv("Status"), bv("503"))] }),
        double_acked: false,
    };
    assert!(with.is_no_responders());
    let wrong_status = Message {
        headers: Some(Headers { entries: vec![(bv("Status"), bv("404"))] }),
        ..from_parts()
    };
    assert!(!wrong_status.is_no_responders());
    let body = Message { data: bv("x"), ..with_status() };
    assert!(!body.is_no_responders());
    let none = Message { headers: None, ..from_parts() };
    assert!(!none.is_no_responders());
}

fn from_parts() -> Message {
    Message { subject: bv("x"), reply: None, data: bv(""), headers: None, double_acked: false }
}

fn with_status() -> Message {
    Message {
        headers: Some(Headers { entries: vec![(bv("Status"), bv("503"))] }),
        ..from_parts()
    }
}

#[test]
fn try_publish_estimate_boundary_is_exact() {
    // The conservative estimate is 1024 plus the subject, reply and payload
    // lengths; with an empty write buffer the frame is declined exactly
    // when the estimate exceeds the capacity.
    let mut c = connected(true);
    let room = nats_core::BUF_CAPACITY - 1024 - 1;
    let fits = vec![0u8; room];
    assert!(c.try_publish(bv("x"), None, None, fits).is_some());
    let mut c = connected(true);
    let too_big = vec![0u8; room + 1];
    assert!(c.try_publish(bv("x"), None, None, too_big).is_none());
}

#[test]
fn try_publish_estimate_counts_headers() {
    // Each header contributes its key and value lengths plus three.
    let mut c = connected(true);
    let hdrs = Headers { entries: vec![(bv("K"), bv("V"))] };
    let room = nats_core::BUF_CAPACITY - 1024 - 1 - 5;
    let fits = vec![0u8; room];
    assert!(c.try_publish(bv("x"), None, Some(hdrs), fits).is_some());
    let mut c = connected(true);
    let hdrs = Headers { entries: vec![(bv("K"), bv("V"))] };
    let too_big = vec![0u8; room + 1];
    assert!(c.try_publish(bv("x"), None, Some(hdrs), too_big).is_none());
}

#[test]
fn headered_message_reaches_its_subscription() {
    let mut c = connected(true);
    let sid = c.subscribe(bv("x"), None).unwrap();
    assert_eq!(sid, 1);
    let wire = bv("HMSG x 1 18 20\r\nNATS/1.0\r\nK: V\r\n\r\nhi\r\n");
    let op = match decode(&wire, 0) {
        Decoded::Frame(op, _) => op,
        _ => panic!("expected a headered message"),
    };
    c.handle_op(op, 1);
    let sub = &c.subscriptions[0].1;
    assert_eq!(sub.messages.len(), 1);
    let headers = sub.messages[0].headers.as_ref().unwrap();
    assert_eq!(headers.entries, vec![(bv("K"), bv("V"))]);
}

#[test]
fn pong_while_disconnected_leaves_the_queue_alone() {
    // A PONG received while disconnected came from a dead connection and
    // does not correspond to the next expected one.
    let mut c = connected(true);
    let id = c.flush().unwrap();
    c.drop_writer();
    match c.handle_op(ServerOp::Pong, 1) {
        Effect::Nothing => {},
        _ => panic!("no waiter completes while disconnected"),
    }
    assert_eq!(c.pongs, vec![PongWaiter::OneShot(id)]);
    assert_eq!(c.pings_out, 0);
}

#[test]
fn ack_kind_sends_its_payload_on_the_reply_subject() {
    let mut c = connected(true);
    let m = Message {
        subject: bv("x"),
        reply: Some(bv("inbox.9")),
        data: bv(""),
        headers: None,
        double_acked: false,
    };
    m.ack_kind(&mut c, nats_core::jetstream::AckKind::Nak).unwrap();
    assert_eq!(c.writer.as_ref().unwrap().pending, bv("PUB inbox.9 4\r\n-NAK\r\n"));
}

#[test]
fn ack_buffers_while_disconnected() {
    let mut c = connected(true);
    c.drop_writer();
    let m = Message {
        subject: bv("x"),
        reply: Some(bv("inbox.9")),
        data: bv(""),
        headers: None,
        double_acked: false,
    };
    m.ack(&mut c).unwrap();
    assert_eq!(c.buffer.clear(), bv("PUB inbox.9 0\r\n\r\n"));
}
