//! The connection engine: one client's state and every transition on it.
//!
//! The client multiplexes publishes and subscriptions over one connection to
//! a broker, buffers publishes while disconnected, replays subscription state
//! on reconnect and tracks liveness with a PING/PONG heartbeat. Each
//! operation here is a sequential state transition on plain values; the
//! process around the engine owns the socket, the clock, the locks and the
//! channels, performs the actions an operation returns, and reports outside
//! events — decoded frames, timer ticks, write failures — back into it.
//!
//! In that process the writer is a buffered stream writer; here it is the
//! pair of the bytes already flushed to the wire (`sent`) and the bytes
//! encoded but not yet flushed (`pending`). A one-shot flush waiter is an
//! identifier that the process maps to a notification channel; the flush
//! kicker — the capacity-one edge signal asking the periodic worker for a
//! flush — is a boolean.
use vstd::prelude::*;

use crate::buffer::Buffer;
use crate::proto::ClientOp;
use crate::proto::Headers;
use crate::proto::ServerInfo;
use crate::proto::ServerOp;
use crate::proto::encode_fits;
use crate::proto::encode_op;
use crate::proto::render_client_op;
use crate::ClientError;
use crate::MAX_PINGS_OUT;
use crate::PING_INTERVAL_MS;

verus! {

/// The model of the buffered writer on the active connection.
#[derive(Debug)]
pub struct Writer {
    /// Bytes flushed to the wire on this connection, oldest first.
    pub sent: Vec<u8>,
    /// Bytes encoded but not yet flushed.
    pub pending: Vec<u8>,
}

/// One registered subscription.
#[derive(Debug)]
pub struct Subscription {
    pub subject: Vec<u8>,
    pub queue_group: Option<Vec<u8>>,
    /// The delivery handoff: messages dispatched to this subscription that
    /// the consumer has not taken yet.
    pub messages: Vec<Message>,
}

/// A message delivered to a subscription.
#[derive(Clone, Debug)]
pub struct Message {
    /// The subject this message came from.
    pub subject: Vec<u8>,
    /// Optional reply subject for responding to this message.
    pub reply: Option<Vec<u8>>,
    /// The message contents.
    pub data: Vec<u8>,
    /// Optional headers attached to this message.
    pub headers: Option<Headers>,
    /// Whether this message has already been acknowledged round-trip.
    pub double_acked: bool,
}

/// One entry of the pending-PONG queue: whoever the next PONG from the
/// server satisfies.
#[derive(Clone, Copy, Debug, PartialEq, Eq, Structural)]
pub enum PongWaiter {
    /// A one-shot flush waiter, named by an identifier.
    OneShot(u64),
    /// The flush kicker itself: receiving this PONG re-arms flushing.
    Kicker,
}

/// What the surrounding process must do after a server frame was handled.
pub enum Effect {
    Nothing,
    /// Complete the one-shot flush waiter with this identifier.
    Fired(u64),
    /// Report this server error text through the error callback.
    ServerError(Vec<u8>),
    /// Log this unrecognized line and continue.
    UnknownLine(Vec<u8>),
    /// Hand this raw info body to the connector to parse; the parsed
    /// snapshot comes back as an info frame.
    InfoLine(Vec<u8>),
    /// Hand these discovered peer URLs to the connector.
    NewUrls(Vec<Vec<u8>>),
}

/// What the periodic worker must do after an idle interval elapsed.
pub enum HeartbeatAction {
    /// The connection is dead: shut the stream down and drop the one-shot
    /// waiters with these identifiers.
    Dropped(Vec<u64>),
    /// A heartbeat PING was encoded and committed; send the writer's bytes.
    Pinged,
    /// Nothing to do.
    Idle,
}

pub open spec fn has_sid(s: Seq<(u64, Subscription)>, sid: u64) -> bool {
    exists|i: int| 0 <= i < s.len() && s[i].0 == sid
}

/// The position of a subscription identifier in the table. Meaningful only
/// when the identifier is there; identifiers are unique under the client
/// invariant.
pub open spec fn sid_index(s: Seq<(u64, Subscription)>, sid: u64) -> int {
    choose|i: int| 0 <= i < s.len() && s[i].0 == sid
}

/// The subscribe announcement of one table entry.
pub open spec fn sub_announce_bytes(e: (u64, Subscription)) -> Seq<u8> {
    render_client_op(
        ClientOp::Sub { subject: e.1.subject, queue_group: e.1.queue_group, sid: e.0 },
    )
}

/// The bytes that re-announce every live subscription, in table order, each
/// with its original identifier.
pub open spec fn sub_announcements(s: Seq<(u64, Subscription)>) -> Seq<u8>
    decreases s.len(),
{
    if s.len() == 0 {
        Seq::empty()
    } else {
        sub_announce_bytes(s[0]) + sub_announcements(s.skip(1))
    }
}

/// The identifiers of the one-shot waiters of a pending-PONG queue, front
/// first.
pub open spec fn oneshot_ids(q: Seq<PongWaiter>) -> Seq<u64>
    decreases q.len(),
{
    if q.len() == 0 {
        Seq::empty()
    } else {
        match q[0] {
            PongWaiter::OneShot(id) => seq![id] + oneshot_ids(q.skip(1)),
            PongWaiter::Kicker => oneshot_ids(q.skip(1)),
        }
    }
}

pub open spec fn has_kicker(q: Seq<PongWaiter>) -> bool {
    exists|i: int| 0 <= i < q.len() && q[i] is Kicker
}

/// The frame a publish sends: headered when headers are supplied.
pub open spec fn publish_op(
    subject: Vec<u8>,
    reply_to: Option<Vec<u8>>,
    headers: Option<Headers>,
    payload: Vec<u8>,
) -> ClientOp {
    match headers {
        Option::Some(h) => ClientOp::Hpub { subject, reply_to, headers: h, payload },
        Option::None => ClientOp::Pub { subject, reply_to, payload },
    }
}

/// A client's state: the write side, the read side, and the shared flags.
#[derive(Debug)]
pub struct Client {
    /// The active connection's writer; absent while reconnecting or closed.
    pub writer: Option<Writer>,
    /// The reconnect buffer holding publishes issued while disconnected.
    pub buffer: Buffer,
    /// The next subscription identifier; strictly increasing.
    pub next_sid: u64,
    /// The live subscriptions, in the order they were made.
    pub subscriptions: Vec<(u64, Subscription)>,
    /// The pending-PONG queue, front first: the k-th PONG from the server
    /// satisfies the k-th entry.
    pub pongs: Vec<PongWaiter>,
    /// The next one-shot flush waiter identifier.
    pub next_pong_id: u64,
    /// When the server was last heard from, in milliseconds.
    pub last_active: u64,
    /// Unanswered heartbeat PINGs on this connection.
    pub pings_out: u8,
    /// Set once shutdown was requested; never cleared.
    pub shut_down: bool,
    /// The flush kicker: whether a flush has been requested and not yet
    /// performed.
    pub kicker_signaled: bool,
    /// The snapshot of the most recent server info.
    pub server_info: ServerInfo,
    /// The server info of a freshly negotiated connection whose replay has
    /// not yet reached the wire; installed once the connection proves
    /// healthy.
    pub staged_info: Option<ServerInfo>,
}

impl Client {
    /// What every operation preserves: the buffer partition bounds, unique
    /// subscription identifiers below the next one, an empty reconnect
    /// buffer whenever a writer is installed, and a bounded count of
    /// unanswered PINGs.
    pub open spec fn inv(self) -> bool {
        &&& self.buffer.inv()
        &&& (forall|i: int, j: int|
            0 <= i < j < self.subscriptions@.len() ==> self.subscriptions@[i].0
                != self.subscriptions@[j].0)
        &&& (forall|i: int|
            0 <= i < self.subscriptions@.len() ==> self.subscriptions@[i].0 < self.next_sid)
        &&& (self.writer is Some ==> self.buffer.spec_written() == 0)
        &&& (self.buffer.spec_flushed() == self.buffer.spec_written()
            || self.buffer.spec_written() == self.buffer.spec_capacity())
        &&& self.pings_out <= MAX_PINGS_OUT
    }

    /// Creates the engine of a fresh client. The pending-PONG queue starts
    /// with one waiter: the first PONG of the initial handshake completes
    /// it, which is what the connect call blocks on.
    pub fn new(reconnect_buffer_size: usize, now_ms: u64) -> (r: (Client, u64))
        ensures
            r.0.inv(),
            r.0.writer is None,
            r.0.buffer.spec_capacity() == reconnect_buffer_size,
            r.0.buffer.spec_written() == 0,
            r.0.next_sid == 1,
            r.0.subscriptions@.len() == 0,
            r.1 == 0,
            r.0.pongs@ == seq![PongWaiter::OneShot(r.1)],
            r.0.next_pong_id == r.1 + 1,
            r.0.last_active == now_ms,
            r.0.pings_out == 0,
            !r.0.shut_down,
            !r.0.kicker_signaled,
            !r.0.server_info.headers,
            r.0.staged_info is None,
    {
        let mut pongs: Vec<PongWaiter> = Vec::new();
        pongs.push(PongWaiter::OneShot(0));
        let c = Client {
            writer: Option::None,
            buffer: Buffer::new(reconnect_buffer_size),
            next_sid: 1,
            subscriptions: Vec::new(),
            pongs,
            next_pong_id: 1,
            last_active: now_ms,
            pings_out: 0,
            shut_down: false,
            kicker_signaled: false,
            server_info: ServerInfo::new(),
            staged_info: Option::None,
        };
        (c, 0)
    }

    /// Fails with a not-connected error once shutdown has been requested.
    pub fn check_shutdown(&self) -> (r: Result<(), ClientError>)
        ensures
            r is Ok <==> !self.shut_down,
            r is Err ==> r->Err_0 == ClientError::NotConnected,
    {
        if self.shut_down {
            Err(ClientError::NotConnected)
        } else {
            Ok(())
        }
    }

    /// Requests shutdown. Returns whether this was the first request;
    /// nothing else changes, and the flag never clears again.
    pub fn shutdown(&mut self) -> (r: bool)
        ensures
            *final(self) == (Client { shut_down: true, ..*old(self) }),
            r == !old(self).shut_down,
    {
        let was = self.shut_down;
        self.shut_down = true;
        !was
    }

    /// Notes activity from the server at the given time.
    pub fn update_activity(&mut self, now_ms: u64)
        ensures
            *final(self) == (Client { last_active: now_ms, ..*old(self) }),
    {
        self.last_active = now_ms;
    }

    /// A copy of the server info received most recently.
    pub fn server_info(&self) -> (r: ServerInfo)
        ensures
            r.headers == self.server_info.headers,
            r.connect_urls@.len() == self.server_info.connect_urls@.len(),
            forall|i: int|
                0 <= i < r.connect_urls@.len() ==> r.connect_urls@[i]@
                    == self.server_info.connect_urls@[i]@,
    {
        let mut urls: Vec<Vec<u8>> = Vec::new();
        let n = self.server_info.connect_urls.len();
        let mut i: usize = 0;
        while i < n
            invariant
                i <= n,
                n == self.server_info.connect_urls@.len(),
                urls@.len() == i,
                forall|j: int|
                    0 <= j < i ==> urls@[j]@ == self.server_info.connect_urls@[j]@,
            decreases n - i,
        {
            let mut u: Vec<u8> = Vec::new();
            u.extend_from_slice(self.server_info.connect_urls[i].as_slice());
            urls.push(u);
            i = i + 1;
        }
        ServerInfo { headers: self.server_info.headers, connect_urls: urls }
    }

    /// Publishes a message with an optional reply subject and optional
    /// headers.
    ///
    /// Headers on a server without header support are invalid input; after
    /// shutdown nothing is sent. With a writer installed the frame goes
    /// into it and a flush is requested; while disconnected the frame goes
    /// into the reconnect buffer, which fails with a buffer-full error when
    /// it saturates.
    pub fn publish(
        &mut self,
        subject: Vec<u8>,
        reply_to: Option<Vec<u8>>,
        headers: Option<Headers>,
        payload: Vec<u8>,
    ) -> (r: Result<(), ClientError>)
        requires
            old(self).inv(),
            encode_fits(publish_op(subject, reply_to, headers, payload)),
        ensures
            final(self).inv(),
            ({
                let op = publish_op(subject, reply_to, headers, payload);
                let bytes = render_client_op(op);
                if headers is Some && !old(self).server_info.headers {
                    r == Result::<(), ClientError>::Err(ClientError::InvalidInput) && *final(self)
                        == *old(self)
                } else if old(self).shut_down {
                    r == Result::<(), ClientError>::Err(ClientError::NotConnected) && *final(self)
                        == *old(self)
                } else if old(self).writer is Some {
                    &&& r is Ok
                    &&& final(self).writer is Some
                    &&& final(self).writer->0.sent@ == old(self).writer->0.sent@
                    &&& final(self).writer->0.pending@ == old(self).writer->0.pending@ + bytes
                    &&& final(self).kicker_signaled
                    &&& *final(self) == (Client {
                        writer: final(self).writer,
                        kicker_signaled: true,
                        ..*old(self)
                    })
                } else if old(self).buffer.spec_written() + bytes.len()
                    <= old(self).buffer.spec_capacity() {
                    &&& r is Ok
                    &&& final(self).buffer.committed() == old(self).buffer.committed() + bytes
                    &&& final(self).buffer.spec_written() == final(self).buffer.spec_flushed()
                    &&& final(self).buffer.spec_capacity() == old(self).buffer.spec_capacity()
                    &&& *final(self) == (Client { buffer: final(self).buffer, ..*old(self) })
                } else {
                    &&& r == Result::<(), ClientError>::Err(ClientError::BufferFull)
                    &&& final(self).buffer.spec_written() == final(self).buffer.spec_capacity()
                    &&& final(self).buffer.committed() == old(self).buffer.committed()
                    &&& *final(self) == (Client { buffer: final(self).buffer, ..*old(self) })
                }
            }),
    {
        if headers.is_some() && !self.server_info.headers {
            return Err(ClientError::InvalidInput);
        }
        if self.shut_down {
            return Err(ClientError::NotConnected);
        }
        let op = match headers {
            Option::Some(h) => ClientOp::Hpub { subject, reply_to, headers: h, payload },
            Option::None => ClientOp::Pub { subject, reply_to, payload },
        };
        let mut bytes = encode_op(&op);
        match &mut self.writer {
            Option::Some(w) => {
                w.pending.append(&mut bytes);
                self.kicker_signaled = true;
                Ok(())
            },
            Option::None => {
                proof {
                    crate::proto::lemma_render_client_op_nonempty(op);
                    if old(self).buffer.spec_flushed() != old(self).buffer.spec_written() {
                        assert(old(self).buffer.spec_written()
                            == old(self).buffer.spec_capacity());
                    }
                }
                match self.buffer.write(bytes.as_slice()) {
                    Ok(_) => {
                        self.buffer.flush();
                        proof {
                            let w = old(self).buffer.spec_written();
                            assert(self.buffer.committed() =~= old(self).buffer.bytes@.take(w)
                                + bytes@);
                            assert(old(self).buffer.committed() == old(self).buffer.bytes@.take(
                                w,
                            ));
                        }
                        Ok(())
                    },
                    Err(e) => Err(e),
                }
            },
        }
    }
    /// Subscribes to a subject, with an optional queue group.
    ///
    /// The new subscription gets the next identifier, is announced on the
    /// wire when a writer is present, and is entered into the table with an
    /// empty delivery handoff. Fails only after shutdown.
    pub fn subscribe(&mut self, subject: Vec<u8>, queue_group: Option<Vec<u8>>) -> (r: Result<
        u64,
        ClientError,
    >)
        requires
            old(self).inv(),
            old(self).next_sid < u64::MAX,
        ensures
            final(self).inv(),
            old(self).shut_down ==> r == Result::<u64, ClientError>::Err(
                ClientError::NotConnected,
            ) && *final(self) == *old(self),
            !old(self).shut_down ==> {
                &&& r == Result::<u64, ClientError>::Ok(old(self).next_sid)
                &&& final(self).next_sid == old(self).next_sid + 1
                &&& final(self).subscriptions@.len() == old(self).subscriptions@.len() + 1
                &&& final(self).subscriptions@.take(old(self).subscriptions@.len() as int) == old(
                    self,
                ).subscriptions@
                &&& final(self).subscriptions@.last().0 == old(self).next_sid
                &&& final(self).subscriptions@.last().1.subject@ == subject@
                &&& (final(self).subscriptions@.last().1.queue_group is Some <==> queue_group
                    is Some)
                &&& (queue_group is Some ==> final(self).subscriptions@.last().1.queue_group->0@
                    == queue_group->0@)
                &&& final(self).subscriptions@.last().1.messages@ == Seq::<Message>::empty()
                &&& (old(self).writer is Some ==> {
                    &&& final(self).writer is Some
                    &&& final(self).writer->0.sent@ == old(self).writer->0.sent@
                    &&& final(self).writer->0.pending@ == old(self).writer->0.pending@
                        + render_client_op(
                        ClientOp::Sub { subject, queue_group, sid: old(self).next_sid },
                    )
                    &&& final(self).kicker_signaled
                })
                &&& (old(self).writer is None ==> final(self).writer is None
                    && final(self).kicker_signaled == old(self).kicker_signaled)
                &&& *final(self) == (Client {
                    next_sid: final(self).next_sid,
                    subscriptions: final(self).subscriptions,
                    writer: final(self).writer,
                    kicker_signaled: final(self).kicker_signaled,
                    ..*old(self)
                })
            },
    {
        if self.shut_down {
            return Err(ClientError::NotConnected);
        }
        let sid = self.next_sid;
        self.next_sid = sid + 1;
        let sub_subject = copy_bytes(&subject);
        let sub_queue = copy_opt_bytes(&queue_group);
        match &mut self.writer {
            Option::Some(w) => {
                let op = ClientOp::Sub { subject, queue_group, sid };
                let mut bytes = encode_op(&op);
                w.pending.append(&mut bytes);
                self.kicker_signaled = true;
            },
            Option::None => {},
        }
        let entry = Subscription {
            subject: sub_subject,
            queue_group: sub_queue,
            messages: Vec::new(),
        };
        self.subscriptions.push((sid, entry));
        proof {
            assert(self.subscriptions@.take(old(self).subscriptions@.len() as int) =~= old(
                self,
            ).subscriptions@);
        }
        Ok(sid)
    }

    /// Removes a subscription. Removing an identifier that is not in the
    /// table is a no-op; otherwise an unsubscribe frame goes out when a
    /// writer is present.
    pub fn unsubscribe(&mut self, sid: u64) -> (r: Result<(), ClientError>)
        requires
            old(self).inv(),
        ensures
            final(self).inv(),
            r is Ok,
            !has_sid(old(self).subscriptions@, sid) ==> *final(self) == *old(self),
            has_sid(old(self).subscriptions@, sid) ==> {
                &&& final(self).subscriptions@ == old(self).subscriptions@.remove(
                    sid_index(old(self).subscriptions@, sid),
                )
                &&& (old(self).writer is Some ==> {
                    &&& final(self).writer is Some
                    &&& final(self).writer->0.sent@ == old(self).writer->0.sent@
                    &&& final(self).writer->0.pending@ == old(self).writer->0.pending@
                        + render_client_op(ClientOp::Unsub { sid, max_msgs: Option::None })
                    &&& final(self).kicker_signaled
                })
                &&& (old(self).writer is None ==> final(self).writer is None
                    && final(self).kicker_signaled == old(self).kicker_signaled)
                &&& *final(self) == (Client {
                    subscriptions: final(self).subscriptions,
                    writer: final(self).writer,
                    kicker_signaled: final(self).kicker_signaled,
                    ..*old(self)
                })
            },
    {
        let idx = match self.find_sub_index(sid) {
            Option::Some(i) => i,
            Option::None => {
                return Ok(());
            },
        };
        proof {
            let ci = sid_index(self.subscriptions@, sid);
            assert(0 <= ci < self.subscriptions@.len() && self.subscriptions@[ci].0 == sid);
            assert(ci == idx);
        }
        self.subscriptions.remove(idx);
        match &mut self.writer {
            Option::Some(w) => {
                let op = ClientOp::Unsub { sid, max_msgs: Option::None };
                let mut bytes = encode_op(&op);
                w.pending.append(&mut bytes);
                self.kicker_signaled = true;
            },
            Option::None => {},
        }
        Ok(())
    }

    /// Handles one decoded server frame, as the background dispatcher does
    /// for every frame it reads.
    ///
    /// Every frame counts as server activity. An info snapshot replaces the
    /// stored one and surfaces the discovered URLs; a raw info line is
    /// surfaced for the connector to parse; a PING is answered with
    /// a PONG when connected; a PONG clears the unanswered-PING count and
    /// completes the front entry of the pending-PONG queue; a message is
    /// offered to its subscription's handoff and dropped silently when the
    /// subscription is gone; a server error is surfaced for the error
    /// callback; an unknown line is surfaced for logging.
    pub fn handle_op(&mut self, op: ServerOp, now_ms: u64) -> (eff: Effect)
        requires
            old(self).inv(),
        ensures
            final(self).inv(),
            final(self).last_active == now_ms,
            match op {
                ServerOp::Info(info) => {
                    &&& *final(self) == (Client {
                        last_active: now_ms,
                        server_info: info,
                        ..*old(self)
                    })
                    &&& eff is NewUrls
                    &&& eff->NewUrls_0@.len() == info.connect_urls@.len()
                    &&& (forall|i: int|
                        0 <= i < info.connect_urls@.len() ==> eff->NewUrls_0@[i]@
                            == info.connect_urls@[i]@)
                },
                ServerOp::Ping => {
                    &&& eff is Nothing
                    &&& (old(self).writer is Some ==> {
                        &&& final(self).writer is Some
                        &&& final(self).writer->0.sent@ == old(self).writer->0.sent@
                        &&& final(self).writer->0.pending@ == old(self).writer->0.pending@
                            + render_client_op(ClientOp::Pong)
                        &&& final(self).kicker_signaled
                    })
                    &&& (old(self).writer is None ==> final(self).writer is None
                        && final(self).kicker_signaled == old(self).kicker_signaled)
                    &&& *final(self) == (Client {
                        last_active: now_ms,
                        writer: final(self).writer,
                        kicker_signaled: final(self).kicker_signaled,
                        ..*old(self)
                    })
                },
                ServerOp::Pong => {
                    &&& final(self).pings_out == 0
                    &&& (if old(self).writer is Some && old(self).pongs@.len() > 0 {
                        &&& final(self).pongs@ == old(self).pongs@.skip(1)
                        &&& (match old(self).pongs@[0] {
                            PongWaiter::OneShot(id) => eff == Effect::Fired(id)
                                && final(self).kicker_signaled == old(self).kicker_signaled,
                            PongWaiter::Kicker => eff is Nothing && final(self).kicker_signaled,
                        })
                    } else {
                        &&& final(self).pongs@ == old(self).pongs@
                        &&& eff is Nothing
                        &&& final(self).kicker_signaled == old(self).kicker_signaled
                    })
                    &&& *final(self) == (Client {
                        last_active: now_ms,
                        pings_out: 0,
                        pongs: final(self).pongs,
                        kicker_signaled: final(self).kicker_signaled,
                        ..*old(self)
                    })
                },
                ServerOp::Msg { subject, sid, reply_to, payload } => {
                    let msg = Message {
                        subject,
                        reply: reply_to,
                        data: payload,
                        headers: Option::None,
                        double_acked: false,
                    };
                    &&& eff is Nothing
                    &&& delivered_to(old(self).subscriptions@, final(self).subscriptions@, sid, msg)
                    &&& *final(self) == (Client {
                        last_active: now_ms,
                        subscriptions: final(self).subscriptions,
                        ..*old(self)
                    })
                },
                ServerOp::Hmsg { subject, headers, sid, reply_to, payload } => {
                    let msg = Message {
                        subject,
                        reply: reply_to,
                        data: payload,
                        headers: Option::Some(headers),
                        double_acked: false,
                    };
                    &&& eff is Nothing
                    &&& delivered_to(old(self).subscriptions@, final(self).subscriptions@, sid, msg)
                    &&& *final(self) == (Client {
                        last_active: now_ms,
                        subscriptions: final(self).subscriptions,
                        ..*old(self)
                    })
                },
                ServerOp::InfoLine(body) => {
                    &&& eff == Effect::InfoLine(body)
                    &&& *final(self) == (Client { last_active: now_ms, ..*old(self) })
                },
                ServerOp::ErrMsg(text) => {
                    &&& eff == Effect::ServerError(text)
                    &&& *final(self) == (Client { last_active: now_ms, ..*old(self) })
                },
                ServerOp::Unknown(line) => {
                    &&& eff == Effect::UnknownLine(line)
                    &&& *final(self) == (Client { last_active: now_ms, ..*old(self) })
                },
            },
    {
        self.last_active = now_ms;
        match op {
            ServerOp::Info(info) => {
                let mut urls: Vec<Vec<u8>> = Vec::new();
                let n = info.connect_urls.len();
                let mut i: usize = 0;
                while i < n
                    invariant
                        i <= n,
                        n == info.connect_urls@.len(),
                        urls@.len() == i,
                        forall|j: int| 0 <= j < i ==> urls@[j]@ == info.connect_urls@[j]@,
                    decreases n - i,
                {
                    urls.push(copy_bytes(&info.connect_urls[i]));
                    i = i + 1;
                }
                self.server_info = info;
                Effect::NewUrls(urls)
            },
            ServerOp::Ping => {
                match &mut self.writer {
                    Option::Some(w) => {
                        let mut bytes = encode_op(&ClientOp::Pong);
                        w.pending.append(&mut bytes);
                        self.kicker_signaled = true;
                    },
                    Option::None => {},
                }
                Effect::Nothing
            },
            ServerOp::Pong => {
                self.pings_out = 0;
                if self.writer.is_some() && self.pongs.len() > 0 {
                    let front = self.pongs.remove(0);
                    proof {
                        assert(self.pongs@ =~= old(self).pongs@.skip(1));
                    }
                    match front {
                        PongWaiter::OneShot(id) => Effect::Fired(id),
                        PongWaiter::Kicker => {
                            self.kicker_signaled = true;
                            Effect::Nothing
                        },
                    }
                } else {
                    Effect::Nothing
                }
            },
            ServerOp::Msg { subject, sid, reply_to, payload } => {
                let msg = Message {
                    subject,
                    reply: reply_to,
                    data: payload,
                    headers: Option::None,
                    double_acked: false,
                };
                self.deliver(sid, msg);
                Effect::Nothing
            },
            ServerOp::Hmsg { subject, headers, sid, reply_to, payload } => {
                let msg = Message {
                    subject,
                    reply: reply_to,
                    data: payload,
                    headers: Option::Some(headers),
                    double_acked: false,
                };
                self.deliver(sid, msg);
                Effect::Nothing
            },
            ServerOp::InfoLine(body) => Effect::InfoLine(body),
            ServerOp::ErrMsg(text) => Effect::ServerError(text),
            ServerOp::Unknown(line) => Effect::UnknownLine(line),
        }
    }

    /// Offers a message to the handoff of the subscription with the given
    /// identifier; a message for a gone subscription is dropped silently.
    fn deliver(&mut self, sid: u64, msg: Message)
        requires
            old(self).inv(),
        ensures
            final(self).inv(),
            delivered_to(old(self).subscriptions@, final(self).subscriptions@, sid, msg),
            *final(self) == (Client { subscriptions: final(self).subscriptions, ..*old(self) }),
    {
        let idx = match self.find_sub_index(sid) {
            Option::Some(i) => i,
            Option::None => {
                return ;
            },
        };
        let mut entry = self.subscriptions.remove(idx);
        entry.1.messages.push(msg);
        self.subscriptions.insert(idx, entry);
        proof {
            assert(0 <= idx < old(self).subscriptions@.len());
            let ci = sid_index(old(self).subscriptions@, sid);
            assert(old(self).subscriptions@[idx as int].0 == sid);
            assert(ci == idx);
            assert(forall|j: int|
                0 <= j < old(self).subscriptions@.len() && j != idx
                    ==> final(self).subscriptions@[j] == old(self).subscriptions@[j]);
        }
    }

    /// Prepares the client for a freshly negotiated connection.
    ///
    /// Every live subscription is re-announced with its original identifier,
    /// then the reconnect buffer's committed publishes replay: the new
    /// writer starts out with exactly those bytes flushed, before anything
    /// else. The server info is only staged, and the pending-PONG queue is
    /// left alone: neither the snapshot nor the waiters may change before
    /// the replay reached the wire. Once it has, [`Self::connection_ready`]
    /// installs the snapshot and completes the waiters; if it fails
    /// instead, [`Self::on_write_failure`] drops them.
    pub fn reconnect(&mut self, info: ServerInfo) -> (r: Result<(), ClientError>)
        requires
            old(self).inv(),
        ensures
            final(self).inv(),
            old(self).shut_down ==> r == Result::<(), ClientError>::Err(
                ClientError::NotConnected,
            ) && *final(self) == *old(self),
            !old(self).shut_down ==> {
                &&& r is Ok
                &&& final(self).writer is Some
                &&& final(self).writer->0.sent@ == sub_announcements(old(self).subscriptions@)
                    + old(self).buffer.committed()
                &&& final(self).writer->0.pending@ == Seq::<u8>::empty()
                &&& final(self).buffer.spec_written() == 0
                &&& final(self).buffer.spec_flushed() == 0
                &&& final(self).buffer.spec_capacity() == old(self).buffer.spec_capacity()
                &&& final(self).staged_info == Option::Some(info)
                &&& *final(self) == (Client {
                    writer: final(self).writer,
                    buffer: final(self).buffer,
                    staged_info: final(self).staged_info,
                    ..*old(self)
                })
            },
    {
        if self.shut_down {
            return Err(ClientError::NotConnected);
        }
        // Drop the current writer, if there is one.
        self.writer = Option::None;
        // Re-announce the subscriptions that existed before the reconnect.
        let mut sent: Vec<u8> = Vec::new();
        let n = self.subscriptions.len();
        let mut i: usize = 0;
        while i < n
            invariant
                i <= n,
                n == self.subscriptions@.len(),
                *self == (Client { writer: Option::None, ..*old(self) }),
                sent@ == sub_announcements(self.subscriptions@.take(i as int)),
            decreases n - i,
        {
            let subject = copy_bytes(&self.subscriptions[i].1.subject);
            let queue_group = copy_opt_bytes(&self.subscriptions[i].1.queue_group);
            let sid = self.subscriptions[i].0;
            let op = ClientOp::Sub { subject, queue_group, sid };
            let mut bytes = encode_op(&op);
            proof {
                assert(render_client_op(op) == sub_announce_bytes(
                    self.subscriptions@[i as int],
                ));
                assert(self.subscriptions@.take(i as int).push(self.subscriptions@[i as int])
                    =~= self.subscriptions@.take(i + 1));
                lemma_sub_announcements_push(
                    self.subscriptions@.take(i as int),
                    self.subscriptions@[i as int],
                );
            }
            sent.append(&mut bytes);
            i = i + 1;
        }
        proof {
            assert(self.subscriptions@.take(n as int) =~= self.subscriptions@);
        }
        // Replay the buffered publishes and stage the new connection; its
        // server info waits until the replay reached the wire.
        let mut buffered = self.buffer.clear();
        sent.append(&mut buffered);
        self.writer = Option::Some(Writer { sent, pending: Vec::new() });
        self.staged_info = Option::Some(info);
        Ok(())
    }

    /// Marks the staged connection healthy, once its replay reached the
    /// wire: the staged server info is installed, and the whole
    /// pending-PONG queue is taken and completed — the reconnect itself
    /// satisfies any in-flight flush. Returns the completed one-shot
    /// waiters, in queue order.
    pub fn connection_ready(&mut self) -> (r: Vec<u64>)
        requires
            old(self).inv(),
            old(self).staged_info is Some,
        ensures
            final(self).inv(),
            r@ == oneshot_ids(old(self).pongs@),
            final(self).server_info == old(self).staged_info->0,
            final(self).staged_info is None,
            final(self).pongs@ == Seq::<PongWaiter>::empty(),
            final(self).kicker_signaled == (old(self).kicker_signaled || has_kicker(
                old(self).pongs@,
            )),
            *final(self) == (Client {
                server_info: final(self).server_info,
                staged_info: Option::None,
                pongs: final(self).pongs,
                kicker_signaled: final(self).kicker_signaled,
                ..*old(self)
            }),
    {
        let staged = self.staged_info.take();
        match staged {
            Option::Some(info) => {
                self.server_info = info;
            },
            Option::None => {},
        }
        let mut fired: Vec<u64> = Vec::new();
        let np = self.pongs.len();
        let mut j: usize = 0;
        while j < np
            invariant
                j <= np,
                np == self.pongs@.len(),
                self.pongs@ == old(self).pongs@,
                fired@ == oneshot_ids(self.pongs@.take(j as int)),
                self.kicker_signaled == (old(self).kicker_signaled || has_kicker(
                    self.pongs@.take(j as int),
                )),
                old(self).staged_info is Some,
                *self == (Client {
                    server_info: old(self).staged_info->0,
                    staged_info: Option::None,
                    kicker_signaled: self.kicker_signaled,
                    ..*old(self)
                }),
            decreases np - j,
        {
            proof {
                assert(self.pongs@.take(j as int).push(self.pongs@[j as int]) =~= self.pongs@.take(
                    j + 1,
                ));
                lemma_oneshot_ids_push(self.pongs@.take(j as int), self.pongs@[j as int]);
            }
            match self.pongs[j] {
                PongWaiter::OneShot(id) => {
                    fired.push(id);
                    proof {
                        assert(fired@ =~= oneshot_ids(self.pongs@.take(j + 1)));
                    }
                },
                PongWaiter::Kicker => {
                    self.kicker_signaled = true;
                },
            }
            j = j + 1;
        }
        proof {
            assert(self.pongs@.take(np as int) =~= self.pongs@);
        }
        self.pongs.clear();
        fired
    }

    /// Commits the writer's pending bytes to the wire, as the periodic
    /// worker does when the flush kicker was signaled.
    pub fn commit_flush(&mut self)
        requires
            old(self).inv(),
        ensures
            final(self).inv(),
            old(self).writer is Some ==> {
                &&& final(self).writer is Some
                &&& final(self).writer->0.sent@ == old(self).writer->0.sent@ + old(
                    self,
                ).writer->0.pending@
                &&& final(self).writer->0.pending@ == Seq::<u8>::empty()
                &&& *final(self) == (Client { writer: final(self).writer, ..*old(self) })
            },
            old(self).writer is None ==> *final(self) == *old(self),
    {
        match &mut self.writer {
            Option::Some(w) => {
                w.sent.append(&mut w.pending);
            },
            Option::None => {},
        }
    }

    /// The local-disconnect action after a write or flush failure: the
    /// writer is dropped, any staged connection is discarded, and the
    /// pending-PONG queue is cleared — those PONGs will never arrive.
    /// Returns the one-shot waiters to drop, whose holders then see a
    /// connection-reset error.
    pub fn on_write_failure(&mut self) -> (r: Vec<u64>)
        requires
            old(self).inv(),
        ensures
            final(self).inv(),
            r@ == oneshot_ids(old(self).pongs@),
            final(self).writer is None,
            final(self).staged_info is None,
            final(self).pongs@ == Seq::<PongWaiter>::empty(),
            *final(self) == (Client {
                writer: Option::None,
                staged_info: Option::None,
                pongs: final(self).pongs,
                ..*old(self)
            }),
    {
        self.writer = Option::None;
        self.staged_info = Option::None;
        let mut dropped: Vec<u64> = Vec::new();
        let np = self.pongs.len();
        let mut j: usize = 0;
        while j < np
            invariant
                j <= np,
                np == self.pongs@.len(),
                self.pongs@ == old(self).pongs@,
                dropped@ == oneshot_ids(self.pongs@.take(j as int)),
            decreases np - j,
        {
            proof {
                assert(self.pongs@.take(j as int).push(self.pongs@[j as int]) =~= self.pongs@.take(
                    j + 1,
                ));
                lemma_oneshot_ids_push(self.pongs@.take(j as int), self.pongs@[j as int]);
            }
            match self.pongs[j] {
                PongWaiter::OneShot(id) => {
                    dropped.push(id);
                    proof {
                        assert(dropped@ =~= oneshot_ids(self.pongs@.take(j + 1)));
                    }
                },
                PongWaiter::Kicker => {},
            }
            j = j + 1;
        }
        proof {
            assert(self.pongs@.take(np as int) =~= self.pongs@);
        }
        self.pongs.clear();
        dropped
    }

    /// Drops the writer after the dispatcher exited with a broken stream;
    /// the supervisor then reconnects.
    pub fn drop_writer(&mut self)
        ensures
            *final(self) == (Client { writer: Option::None, ..*old(self) }),
    {
        self.writer = Option::None;
    }

    /// Clears the unanswered-PING count, as the supervisor does before each
    /// reconnect attempt.
    pub fn clear_pings(&mut self)
        ensures
            *final(self) == (Client { pings_out: 0, ..*old(self) }),
    {
        self.pings_out = 0;
    }

    /// The periodic worker's decision when its receive timed out with no
    /// flush requested.
    ///
    /// Too many unanswered PINGs mean a dead connection: the writer is
    /// dropped and the queued waiters with it. An idle connection gets one
    /// more PING, whose expected PONG is the flush kicker itself — receiving
    /// it re-arms flushing. Otherwise nothing happens.
    pub fn heartbeat_timeout(&mut self, now_ms: u64) -> (r: HeartbeatAction)
        requires
            old(self).inv(),
            now_ms >= old(self).last_active,
        ensures
            final(self).inv(),
            if old(self).pings_out >= MAX_PINGS_OUT {
                &&& r is Dropped
                &&& r->Dropped_0@ == oneshot_ids(old(self).pongs@)
                &&& final(self).writer is None
                &&& final(self).pongs@ == Seq::<PongWaiter>::empty()
                &&& *final(self) == (Client {
                    writer: Option::None,
                    staged_info: Option::None,
                    pongs: final(self).pongs,
                    ..*old(self)
                })
            } else if now_ms - old(self).last_active > PING_INTERVAL_MS {
                &&& r is Pinged
                &&& final(self).pings_out == old(self).pings_out + 1
                &&& final(self).pongs@ == old(self).pongs@.push(PongWaiter::Kicker)
                &&& (old(self).writer is Some ==> {
                    &&& final(self).writer is Some
                    &&& final(self).writer->0.sent@ == old(self).writer->0.sent@ + old(
                        self,
                    ).writer->0.pending@ + render_client_op(ClientOp::Ping)
                    &&& final(self).writer->0.pending@ == Seq::<u8>::empty()
                })
                &&& (old(self).writer is None ==> final(self).writer is None)
                &&& *final(self) == (Client {
                    pings_out: final(self).pings_out,
                    pongs: final(self).pongs,
                    writer: final(self).writer,
                    ..*old(self)
                })
            } else {
                r is Idle && *final(self) == *old(self)
            },
    {
        if self.pings_out >= MAX_PINGS_OUT {
            let dropped = self.on_write_failure();
            HeartbeatAction::Dropped(dropped)
        } else if now_ms - self.last_active > PING_INTERVAL_MS {
            self.pings_out = self.pings_out + 1;
            self.pongs.push(PongWaiter::Kicker);
            match &mut self.writer {
                Option::Some(w) => {
                    let mut bytes = encode_op(&ClientOp::Ping);
                    w.pending.append(&mut bytes);
                    w.sent.append(&mut w.pending);
                },
                Option::None => {},
            }
            HeartbeatAction::Pinged
        } else {
            HeartbeatAction::Idle
        }
    }

    /// The state transition of a round-trip flush: when connected, a PING
    /// goes out and the writer is flushed for real; either way a fresh
    /// one-shot waiter joins the pending-PONG queue. Returns the waiter's
    /// identifier; the caller then blocks on it until the matching PONG
    /// arrives, a reconnect completes it, or its timeout ends in a
    /// connection-reset error.
    pub fn flush(&mut self) -> (r: Result<u64, ClientError>)
        requires
            old(self).inv(),
            old(self).next_pong_id < u64::MAX,
        ensures
            final(self).inv(),
            old(self).shut_down ==> r == Result::<u64, ClientError>::Err(
                ClientError::NotConnected,
            ) && *final(self) == *old(self),
            !old(self).shut_down ==> {
                &&& r == Result::<u64, ClientError>::Ok(old(self).next_pong_id)
                &&& final(self).next_pong_id == old(self).next_pong_id + 1
                &&& final(self).pongs@ == old(self).pongs@.push(
                    PongWaiter::OneShot(old(self).next_pong_id),
                )
                &&& (old(self).writer is Some ==> {
                    &&& final(self).writer is Some
                    &&& final(self).writer->0.sent@ == old(self).writer->0.sent@ + old(
                        self,
                    ).writer->0.pending@ + render_client_op(ClientOp::Ping)
                    &&& final(self).writer->0.pending@ == Seq::<u8>::empty()
                })
                &&& (old(self).writer is None ==> final(self).writer is None)
                &&& *final(self) == (Client {
                    next_pong_id: final(self).next_pong_id,
                    pongs: final(self).pongs,
                    writer: final(self).writer,
                    ..*old(self)
                })
            },
    {
        if self.shut_down {
            return Err(ClientError::NotConnected);
        }
        match &mut self.writer {
            Option::Some(w) => {
                let mut bytes = encode_op(&ClientOp::Ping);
                w.pending.append(&mut bytes);
                w.sent.append(&mut w.pending);
            },
            Option::None => {},
        }
        let id = self.next_pong_id;
        self.next_pong_id = id + 1;
        self.pongs.push(PongWaiter::OneShot(id));
        Ok(id)
    }

    /// Closes the client: idempotent, and never fails.
    ///
    /// The first close takes and drops every subscription, sending a
    /// best-effort unsubscribe for each, flushes the writer, and wakes
    /// every pending flush by clearing the queue; the waiters are dropped,
    /// not completed. A later close does nothing.
    pub fn close(&mut self)
        requires
            old(self).inv(),
        ensures
            final(self).inv(),
            final(self).shut_down,
            old(self).shut_down ==> *final(self) == *old(self),
            !old(self).shut_down ==> {
                &&& final(self).subscriptions@ == Seq::<(u64, Subscription)>::empty()
                &&& final(self).pongs@ == Seq::<PongWaiter>::empty()
                &&& (old(self).writer is Some ==> {
                    &&& final(self).writer is Some
                    &&& final(self).writer->0.sent@ == old(self).writer->0.sent@ + old(
                        self,
                    ).writer->0.pending@ + unsub_all(old(self).subscriptions@)
                    &&& final(self).writer->0.pending@ == Seq::<u8>::empty()
                    &&& (old(self).subscriptions@.len() > 0 ==> final(self).kicker_signaled)
                    &&& (old(self).subscriptions@.len() == 0 ==> final(self).kicker_signaled
                        == old(self).kicker_signaled)
                })
                &&& (old(self).writer is None ==> final(self).writer is None && final(self).kicker_signaled == old(self).kicker_signaled)
                &&& *final(self) == (Client {
                    shut_down: true,
                    subscriptions: final(self).subscriptions,
                    pongs: final(self).pongs,
                    writer: final(self).writer,
                    kicker_signaled: final(self).kicker_signaled,
                    ..*old(self)
                })
            },
    {
        if !self.shutdown() {
            return ;
        }
        // Send a best-effort unsubscribe for every subscription and drop
        // them all.
        let n = self.subscriptions.len();
        let mut i: usize = 0;
        while i < n
            invariant
                i <= n,
                n == old(self).subscriptions@.len(),
                self.subscriptions@ == old(self).subscriptions@,
                old(self).writer is Some ==> {
                    &&& self.writer is Some
                    &&& self.writer->0.sent@ == old(self).writer->0.sent@
                    &&& self.writer->0.pending@ == old(self).writer->0.pending@ + unsub_all(
                        old(self).subscriptions@.take(i as int),
                    )
                    &&& (i > 0 ==> self.kicker_signaled)
                    &&& (i == 0 ==> self.kicker_signaled == old(self).kicker_signaled)
                },
                old(self).writer is None ==> self.writer is None && self.kicker_signaled == old(
                    self,
                ).kicker_signaled,
                *self == (Client {
                    shut_down: true,
                    writer: self.writer,
                    kicker_signaled: self.kicker_signaled,
                    ..*old(self)
                }),
            decreases n - i,
        {
            let sid = self.subscriptions[i].0;
            proof {
                assert(old(self).subscriptions@.take(i as int).push(
                    old(self).subscriptions@[i as int],
                ) =~= old(self).subscriptions@.take(i + 1));
                lemma_unsub_all_push(
                    old(self).subscriptions@.take(i as int),
                    old(self).subscriptions@[i as int],
                );
            }
            match &mut self.writer {
                Option::Some(w) => {
                    let op = ClientOp::Unsub { sid, max_msgs: Option::None };
                    let mut bytes = encode_op(&op);
                    w.pending.append(&mut bytes);
                    self.kicker_signaled = true;
                },
                Option::None => {},
            }
            i = i + 1;
        }
        proof {
            assert(old(self).subscriptions@.take(n as int) =~= old(self).subscriptions@);
        }
        self.subscriptions.clear();
        // Flush the writer in case there are buffered frames, and wake up
        // all pending flushes.
        self.commit_flush();
        self.pongs.clear();
    }

    /// Attempts to publish without blocking.
    ///
    /// In the surrounding process the write lock is only tried, and
    /// contention yields nothing; this transition covers the rest. Nothing
    /// is also the answer when the writer's buffered bytes plus a
    /// conservative size estimate for this frame would overflow the write
    /// buffer's capacity — the deliberate overestimate keeps the later
    /// write from blocking. Otherwise this publishes as [`Self::publish`]
    /// does: headers on a server without header support are invalid input.
    pub fn try_publish(
        &mut self,
        subject: Vec<u8>,
        reply_to: Option<Vec<u8>>,
        headers: Option<Headers>,
        payload: Vec<u8>,
    ) -> (r: Option<Result<(), ClientError>>)
        requires
            old(self).inv(),
            encode_fits(publish_op(subject, reply_to, headers, payload)),
        ensures
            final(self).inv(),
            ({
                let op = publish_op(subject, reply_to, headers, payload);
                let bytes = render_client_op(op);
                let estimate = estimate_size(subject, reply_to, headers, payload);
                if headers is Some && !old(self).server_info.headers {
                    r == Option::Some(Result::<(), ClientError>::Err(ClientError::InvalidInput))
                        && *final(self) == *old(self)
                } else if old(self).shut_down {
                    r == Option::Some(Result::<(), ClientError>::Err(ClientError::NotConnected))
                        && *final(self) == *old(self)
                } else if old(self).writer is Some {
                    if crate::BUF_CAPACITY - old(self).writer->0.pending@.len() < estimate {
                        r is None && *final(self) == *old(self)
                    } else {
                        &&& r == Option::Some(Result::<(), ClientError>::Ok(()))
                        &&& final(self).writer is Some
                        &&& final(self).writer->0.sent@ == old(self).writer->0.sent@
                        &&& final(self).writer->0.pending@ == old(self).writer->0.pending@ + bytes
                        &&& final(self).kicker_signaled
                        &&& *final(self) == (Client {
                            writer: final(self).writer,
                            kicker_signaled: true,
                            ..*old(self)
                        })
                    }
                } else if old(self).buffer.spec_written() + bytes.len()
                    <= old(self).buffer.spec_capacity() {
                    &&& r == Option::Some(Result::<(), ClientError>::Ok(()))
                    &&& final(self).buffer.committed() == old(self).buffer.committed() + bytes
                    &&& final(self).buffer.spec_written() == final(self).buffer.spec_flushed()
                    &&& final(self).buffer.spec_capacity() == old(self).buffer.spec_capacity()
                    &&& *final(self) == (Client { buffer: final(self).buffer, ..*old(self) })
                } else {
                    &&& r == Option::Some(Result::<(), ClientError>::Err(ClientError::BufferFull))
                    &&& final(self).buffer.spec_written() == final(self).buffer.spec_capacity()
                    &&& final(self).buffer.committed() == old(self).buffer.committed()
                    &&& *final(self) == (Client { buffer: final(self).buffer, ..*old(self) })
                }
            }),
    {
        if headers.is_some() && !self.server_info.headers {
            return Option::Some(Err(ClientError::InvalidInput));
        }
        if self.shut_down {
            return Option::Some(Err(ClientError::NotConnected));
        }
        // A conservative estimate of what this frame will take in the write
        // buffer: overestimating is fine, underestimating is not. The
        // accumulation saturates above the capacity, where the exact value
        // no longer matters.
        let mut est = sat_add(1024, subject.len());
        est = match &reply_to {
            Option::Some(rep) => sat_add(est, rep.len()),
            Option::None => est,
        };
        est = sat_add(est, payload.len());
        match &headers {
            Option::Some(h) => {
                let ghost base = est as int;
                let hn = h.entries.len();
                let mut k: usize = 0;
                while k < hn
                    invariant
                        k <= hn,
                        hn == h.entries@.len(),
                        sat_rel(
                            base + header_fields_size(h.view_entries().take(k as int)),
                            est as int,
                        ),
                        base >= 0,
                    decreases hn - k,
                {
                    proof {
                        assert(h.view_entries().take(k as int).push(h.view_entries()[k as int])
                            =~= h.view_entries().take(k + 1));
                        lemma_header_fields_size_push(
                            h.view_entries().take(k as int),
                            h.view_entries()[k as int],
                        );
                        assert(h.view_entries()[k as int].0 == h.entries@[k as int].0@);
                        assert(h.view_entries()[k as int].1 == h.entries@[k as int].1@);
                    }
                    est = sat_add(est, h.entries[k].0.len());
                    est = sat_add(est, h.entries[k].1.len());
                    est = sat_add(est, 3);
                    k = k + 1;
                }
                proof {
                    assert(h.view_entries().take(hn as int) =~= h.view_entries());
                }
            },
            Option::None => {},
        }
        let op = match headers {
            Option::Some(h) => ClientOp::Hpub { subject, reply_to, headers: h, payload },
            Option::None => ClientOp::Pub { subject, reply_to, payload },
        };
        match &mut self.writer {
            Option::Some(w) => {
                // Check whether the whole frame surely fits in the write
                // buffer; encoding then cannot block.
                if w.pending.len() > crate::BUF_CAPACITY
                    || crate::BUF_CAPACITY - w.pending.len() < est {
                    return Option::None;
                }
                let mut bytes = encode_op(&op);
                w.pending.append(&mut bytes);
                self.kicker_signaled = true;
                Option::Some(Ok(()))
            },
            Option::None => {
                proof {
                    crate::proto::lemma_render_client_op_nonempty(op);
                    if old(self).buffer.spec_flushed() != old(self).buffer.spec_written() {
                        assert(old(self).buffer.spec_written()
                            == old(self).buffer.spec_capacity());
                    }
                }
                let bytes = encode_op(&op);
                match self.buffer.write(bytes.as_slice()) {
                    Ok(_) => {
                        self.buffer.flush();
                        proof {
                            let w = old(self).buffer.spec_written();
                            assert(self.buffer.committed() =~= old(self).buffer.bytes@.take(w)
                                + bytes@);
                            assert(old(self).buffer.committed() == old(self).buffer.bytes@.take(
                                w,
                            ));
                        }
                        Option::Some(Ok(()))
                    },
                    Err(e) => Option::Some(Err(e)),
                }
            },
        }
    }

    /// The position of a subscription in the table, when it is there.
    fn find_sub_index(&self, sid: u64) -> (r: Option<usize>)
        ensures
            match r {
                Option::Some(i) => i < self.subscriptions@.len() && self.subscriptions@[
                    i as int
                ].0 == sid,
                Option::None => !has_sid(self.subscriptions@, sid),
            },
    {
        let n = self.subscriptions.len();
        let mut i: usize = 0;
        while i < n
            invariant
                i <= n,
                n == self.subscriptions@.len(),
                forall|j: int| 0 <= j < i ==> self.subscriptions@[j].0 != sid,
            decreases n - i,
        {
            if self.subscriptions[i].0 == sid {
                return Option::Some(i);
            }
            i = i + 1;
        }
        Option::None
    }
}

/// The unsubscribe frames for every entry of a table, in table order.
pub open spec fn unsub_all(s: Seq<(u64, Subscription)>) -> Seq<u8>
    decreases s.len(),
{
    if s.len() == 0 {
        Seq::empty()
    } else {
        render_client_op(ClientOp::Unsub { sid: s[0].0, max_msgs: Option::None }) + unsub_all(
            s.skip(1),
        )
    }
}

/// The conservative size estimate of a publish frame: a fixed allowance
/// plus the subject, reply and payload lengths, plus each header's key and
/// value with a separator allowance.
pub open spec fn estimate_size(
    subject: Vec<u8>,
    reply_to: Option<Vec<u8>>,
    headers: Option<Headers>,
    payload: Vec<u8>,
) -> nat {
    1024 + subject@.len() + (match reply_to {
        Option::Some(r) => r@.len(),
        Option::None => 0,
    }) + payload@.len() + (match headers {
        Option::Some(h) => header_fields_size(h.view_entries()),
        Option::None => 0,
    })
}

/// The headers' share of the size estimate.
pub open spec fn header_fields_size(hs: Seq<(Seq<u8>, Seq<u8>)>) -> nat
    decreases hs.len(),
{
    if hs.len() == 0 {
        0
    } else {
        hs[0].0.len() + hs[0].1.len() + 3 + header_fields_size(hs.skip(1))
    }
}

/// Growing a header list by one entry grows its share of the estimate by
/// that entry's key and value lengths and a separator allowance.
pub proof fn lemma_header_fields_size_push(hs: Seq<(Seq<u8>, Seq<u8>)>, e: (Seq<u8>, Seq<u8>))
    ensures
        header_fields_size(hs.push(e)) == header_fields_size(hs) + e.0.len() + e.1.len() + 3,
    decreases hs.len(),
{
    if hs.len() == 0 {
        assert(hs.push(e).skip(1) =~= Seq::<(Seq<u8>, Seq<u8>)>::empty());
        assert(hs.push(e)[0] == e);
        assert(header_fields_size(hs.push(e)) == e.0.len() + e.1.len() + 3 + header_fields_size(
            hs.push(e).skip(1),
        ));
    } else {
        assert(hs.push(e)[0] == hs[0]);
        assert(hs.push(e).skip(1) =~= hs.skip(1).push(e));
        lemma_header_fields_size_push(hs.skip(1), e);
        assert(header_fields_size(hs.push(e)) == hs[0].0.len() + hs[0].1.len() + 3
            + header_fields_size(hs.push(e).skip(1)));
    }
}

/// How a saturating accumulation relates to the exact sum it stands for:
/// they agree up to the write buffer capacity, above which only "too large"
/// is kept.
pub open spec fn sat_rel(exact: int, acc: int) -> bool {
    &&& (exact <= crate::BUF_CAPACITY ==> acc == exact)
    &&& (exact > crate::BUF_CAPACITY ==> acc > crate::BUF_CAPACITY)
}

/// Growing a table by one entry grows its announcements by that entry's.
pub proof fn lemma_sub_announcements_push(s: Seq<(u64, Subscription)>, e: (u64, Subscription))
    ensures
        sub_announcements(s.push(e)) == sub_announcements(s) + sub_announce_bytes(e),
    decreases s.len(),
{
    if s.len() == 0 {
        assert(s.push(e).skip(1) =~= Seq::<(u64, Subscription)>::empty());
        assert(s.push(e)[0] == e);
        assert(sub_announcements(s.push(e)) == sub_announce_bytes(e) + sub_announcements(
            s.push(e).skip(1),
        ));
        assert(sub_announcements(s.push(e)) =~= sub_announcements(s) + sub_announce_bytes(e));
    } else {
        assert(s.push(e)[0] == s[0]);
        assert(s.push(e).skip(1) =~= s.skip(1).push(e));
        lemma_sub_announcements_push(s.skip(1), e);
        assert(sub_announcements(s.push(e)) =~= sub_announcements(s) + sub_announce_bytes(e));
    }
}

/// Growing a table by one entry grows its unsubscribe frames by that
/// entry's.
pub proof fn lemma_unsub_all_push(s: Seq<(u64, Subscription)>, e: (u64, Subscription))
    ensures
        unsub_all(s.push(e)) == unsub_all(s) + render_client_op(
            ClientOp::Unsub { sid: e.0, max_msgs: Option::None },
        ),
    decreases s.len(),
{
    if s.len() == 0 {
        assert(s.push(e).skip(1) =~= Seq::<(u64, Subscription)>::empty());
        assert(s.push(e)[0] == e);
        assert(unsub_all(s.push(e)) == render_client_op(
            ClientOp::Unsub { sid: e.0, max_msgs: Option::None },
        ) + unsub_all(s.push(e).skip(1)));
        assert(unsub_all(s.push(e)) =~= unsub_all(s) + render_client_op(
            ClientOp::Unsub { sid: e.0, max_msgs: Option::None },
        ));
    } else {
        assert(s.push(e)[0] == s[0]);
        assert(s.push(e).skip(1) =~= s.skip(1).push(e));
        lemma_unsub_all_push(s.skip(1), e);
        assert(unsub_all(s.push(e)) =~= unsub_all(s) + render_client_op(
            ClientOp::Unsub { sid: e.0, max_msgs: Option::None },
        ));
    }
}

/// Growing a queue by one waiter grows its one-shot identifiers by that
/// waiter's, and its kicker presence accordingly.
pub proof fn lemma_oneshot_ids_push(q: Seq<PongWaiter>, w: PongWaiter)
    ensures
        oneshot_ids(q.push(w)) == oneshot_ids(q) + (match w {
            PongWaiter::OneShot(id) => seq![id],
            PongWaiter::Kicker => Seq::<u64>::empty(),
        }),
        has_kicker(q.push(w)) == (has_kicker(q) || w is Kicker),
    decreases q.len(),
{
    if q.len() == 0 {
        assert(q.push(w).skip(1) =~= Seq::<PongWaiter>::empty());
        assert(q.push(w)[0] == w);
        assert(oneshot_ids(q.push(w)) == (match q.push(w)[0] {
            PongWaiter::OneShot(id) => seq![id] + oneshot_ids(q.push(w).skip(1)),
            PongWaiter::Kicker => oneshot_ids(q.push(w).skip(1)),
        }));
        assert(oneshot_ids(q.push(w)) =~= oneshot_ids(q) + (match w {
            PongWaiter::OneShot(id) => seq![id],
            PongWaiter::Kicker => Seq::<u64>::empty(),
        }));
        if w is Kicker {
            assert(q.push(w)[0] is Kicker);
        }
        if has_kicker(q.push(w)) {
            let i = choose|i: int| 0 <= i < q.push(w).len() && q.push(w)[i] is Kicker;
            assert(i == 0);
        }
    } else {
        assert(q.push(w)[0] == q[0]);
        assert(q.push(w).skip(1) =~= q.skip(1).push(w));
        lemma_oneshot_ids_push(q.skip(1), w);
        assert(oneshot_ids(q.push(w)) =~= oneshot_ids(q) + (match w {
            PongWaiter::OneShot(id) => seq![id],
            PongWaiter::Kicker => Seq::<u64>::empty(),
        }));
        assert(has_kicker(q.push(w)) == (has_kicker(q) || w is Kicker)) by {
            if has_kicker(q) {
                let i = choose|i: int| 0 <= i < q.len() && q[i] is Kicker;
                assert(q.push(w)[i] is Kicker);
            }
            if w is Kicker {
                assert(q.push(w)[q.len() as int] is Kicker);
            }
            if has_kicker(q.push(w)) {
                let i = choose|i: int| 0 <= i < q.push(w).len() && q.push(w)[i] is Kicker;
                if i < q.len() {
                    assert(q[i] is Kicker);
                }
            }
        }
    }
}

/// The key of the status header a server sets on service responses.
pub open spec fn status_key() -> Seq<u8> {
    seq![83u8, 116u8, 97u8, 116u8, 117u8, 115u8]
}

/// The status value of a no-responders service response.
pub open spec fn no_responders_status() -> Seq<u8> {
    seq![53u8, 48u8, 51u8]
}

/// Whether a message is a no-responders response: an empty body whose
/// status header carries the no-responders status.
pub open spec fn is_no_responders_spec(m: Message) -> bool {
    &&& m.data@.len() == 0
    &&& m.headers is Some
    &&& exists|i: int|
        0 <= i < m.headers->0.view_entries().len() && m.headers->0.view_entries()[i] == (
        status_key(),
        no_responders_status(),
        )
}

impl Message {
    /// Takes a raw message into a fresh delivery: the same contents, not
    /// yet acknowledged round-trip.
    pub fn from_message(message: Message) -> (r: Message)
        ensures
            r.subject == message.subject,
            r.reply == message.reply,
            r.data == message.data,
            r.headers == message.headers,
            !r.double_acked,
    {
        Message {
            subject: message.subject,
            reply: message.reply,
            data: message.data,
            headers: message.headers,
            double_acked: false,
        }
    }

    /// Responds to a request message on its reply subject. A message
    /// without a reply subject cannot be answered: invalid input.
    pub fn respond(&self, client: &mut Client, payload: Vec<u8>) -> (r: Result<(), ClientError>)
        requires
            old(client).inv(),
        ensures
            final(client).inv(),
            self.reply is None ==> r == Result::<(), ClientError>::Err(ClientError::InvalidInput)
                && *final(client) == *old(client),
            self.reply is Some ==> {
                let bytes = render_client_op(
                    ClientOp::Pub {
                        subject: self.reply->0,
                        reply_to: Option::None,
                        payload,
                    },
                );
                if old(client).shut_down {
                    r == Result::<(), ClientError>::Err(ClientError::NotConnected) && *final(client) == *old(client)
                } else if old(client).writer is Some {
                    &&& r is Ok
                    &&& final(client).writer is Some
                    &&& final(client).writer->0.sent@ == old(client).writer->0.sent@
                    &&& final(client).writer->0.pending@ == old(client).writer->0.pending@ + bytes
                    &&& final(client).kicker_signaled
                    &&& *final(client) == (Client {
                        writer: final(client).writer,
                        kicker_signaled: true,
                        ..*old(client)
                    })
                } else if old(client).buffer.spec_written() + bytes.len() <= old(client).buffer.spec_capacity() {
                    &&& r is Ok
                    &&& final(client).buffer.committed() == old(client).buffer.committed() + bytes
                    &&& *final(client) == (Client { buffer: final(client).buffer, ..*old(client) })
                } else {
                    &&& r == Result::<(), ClientError>::Err(ClientError::BufferFull)
                    &&& final(client).buffer.spec_written() == final(client).buffer.spec_capacity()
                    &&& final(client).buffer.committed() == old(client).buffer.committed()
                    &&& *final(client) == (Client { buffer: final(client).buffer, ..*old(client) })
                }
            },
    {
        match &self.reply {
            Option::None => Err(ClientError::InvalidInput),
            Option::Some(rep) => client.publish(
                copy_bytes(rep),
                Option::None,
                Option::None,
                payload,
            ),
        }
    }

    /// Acknowledges a message with the default acknowledgement: an empty
    /// response on its reply subject. Does nothing once the message has
    /// been acknowledged round-trip.
    pub fn ack(&self, client: &mut Client) -> (r: Result<(), ClientError>)
        requires
            old(client).inv(),
        ensures
            final(client).inv(),
            self.double_acked ==> r is Ok && *final(client) == *old(client),
            !self.double_acked && self.reply is None ==> r == Result::<(), ClientError>::Err(
                ClientError::InvalidInput,
            ) && *final(client) == *old(client),
            !self.double_acked && self.reply is Some ==> {
                let bytes = crate::proto::render_pub(
                    self.reply->0@,
                    Option::None,
                    Seq::<u8>::empty(),
                );
                if old(client).shut_down {
                    r == Result::<(), ClientError>::Err(ClientError::NotConnected) && *final(client) == *old(client)
                } else if old(client).writer is Some {
                    &&& r is Ok
                    &&& final(client).writer is Some
                    &&& final(client).writer->0.sent@ == old(client).writer->0.sent@
                    &&& final(client).writer->0.pending@ == old(client).writer->0.pending@ + bytes
                    &&& final(client).kicker_signaled
                    &&& *final(client) == (Client {
                        writer: final(client).writer,
                        kicker_signaled: true,
                        ..*old(client)
                    })
                } else if old(client).buffer.spec_written() + bytes.len() <= old(client).buffer.spec_capacity() {
                    &&& r is Ok
                    &&& final(client).buffer.committed() == old(client).buffer.committed() + bytes
                    &&& *final(client) == (Client { buffer: final(client).buffer, ..*old(client) })
                } else {
                    &&& r == Result::<(), ClientError>::Err(ClientError::BufferFull)
                    &&& final(client).buffer.spec_written() == final(client).buffer.spec_capacity()
                    &&& final(client).buffer.committed() == old(client).buffer.committed()
                    &&& *final(client) == (Client { buffer: final(client).buffer, ..*old(client) })
                }
            },
    {
        if self.double_acked {
            return Ok(());
        }
        let payload: Vec<u8> = Vec::new();
        let r = self.respond(client, payload);
        proof {
            if self.reply is Some {
                assert(render_client_op(
                    ClientOp::Pub {
                        subject: self.reply->0,
                        reply_to: Option::None,
                        payload,
                    },
                ) =~= crate::proto::render_pub(
                    self.reply->0@,
                    Option::None,
                    Seq::<u8>::empty(),
                ));
            }
        }
        r
    }

    /// Acknowledges a message with the given acknowledgement kind, sent as
    /// a response on its reply subject. Does not look at whether the
    /// message was already acknowledged round-trip.
    pub fn ack_kind(&self, client: &mut Client, kind: crate::jetstream::AckKind) -> (r: Result<
        (),
        ClientError,
    >)
        requires
            old(client).inv(),
        ensures
            final(client).inv(),
            self.reply is None ==> r == Result::<(), ClientError>::Err(ClientError::InvalidInput)
                && *final(client) == *old(client),
            self.reply is Some ==> {
                let bytes = crate::proto::render_pub(
                    self.reply->0@,
                    Option::None,
                    crate::jetstream::ack_payload(kind),
                );
                if old(client).shut_down {
                    r == Result::<(), ClientError>::Err(ClientError::NotConnected) && *final(client) == *old(client)
                } else if old(client).writer is Some {
                    &&& r is Ok
                    &&& final(client).writer is Some
                    &&& final(client).writer->0.sent@ == old(client).writer->0.sent@
                    &&& final(client).writer->0.pending@ == old(client).writer->0.pending@ + bytes
                    &&& final(client).kicker_signaled
                    &&& *final(client) == (Client {
                        writer: final(client).writer,
                        kicker_signaled: true,
                        ..*old(client)
                    })
                } else if old(client).buffer.spec_written() + bytes.len() <= old(client).buffer.spec_capacity() {
                    &&& r is Ok
                    &&& final(client).buffer.committed() == old(client).buffer.committed() + bytes
                    &&& *final(client) == (Client { buffer: final(client).buffer, ..*old(client) })
                } else {
                    &&& r == Result::<(), ClientError>::Err(ClientError::BufferFull)
                    &&& final(client).buffer.spec_written() == final(client).buffer.spec_capacity()
                    &&& final(client).buffer.committed() == old(client).buffer.committed()
                    &&& *final(client) == (Client { buffer: final(client).buffer, ..*old(client) })
                }
            },
    {
        let payload = kind.payload();
        let r = self.respond(client, payload);
        proof {
            if self.reply is Some {
                assert(render_client_op(
                    ClientOp::Pub {
                        subject: self.reply->0,
                        reply_to: Option::None,
                        payload,
                    },
                ) =~= crate::proto::render_pub(
                    self.reply->0@,
                    Option::None,
                    crate::jetstream::ack_payload(kind),
                ));
            }
        }
        r
    }

    /// Whether this message is the server's no-responders response: an
    /// empty body carrying the no-responders status header.
    pub fn is_no_responders(&self) -> (r: bool)
        ensures
            r == is_no_responders_spec(*self),
    {
        if self.data.len() != 0 {
            return false;
        }
        if self.headers.is_none() {
            return false;
        }
        let hdrs = self.headers.as_ref().unwrap();
        proof {
            assert(*hdrs == self.headers->0);
        }
        let mut skey: Vec<u8> = Vec::new();
        skey.push(83);
        skey.push(116);
        skey.push(97);
        skey.push(116);
        skey.push(117);
        skey.push(115);
        let mut sval: Vec<u8> = Vec::new();
        sval.push(53);
        sval.push(48);
        sval.push(51);
        proof {
            assert(skey@ =~= status_key());
            assert(sval@ =~= no_responders_status());
        }
        let n = hdrs.entries.len();
        let mut i: usize = 0;
        while i < n
            invariant
                i <= n,
                n == hdrs.entries@.len(),
                self.headers is Some,
                *hdrs == self.headers->0,
                self.data@.len() == 0,
                skey@ == status_key(),
                sval@ == no_responders_status(),
                forall|j: int|
                    0 <= j < i ==> hdrs.view_entries()[j] != (status_key(), no_responders_status()),
            decreases n - i,
        {
            let entry = &hdrs.entries[i];
            proof {
                assert(*entry == hdrs.entries@[i as int]);
            }
            let key_eq = bytes_eq(&entry.0, &skey);
            let val_eq = bytes_eq(&entry.1, &sval);
            if key_eq && val_eq {
                proof {
                    assert(hdrs.view_entries().len() == n);
                    assert(hdrs.view_entries()[i as int] == (
                        hdrs.entries@[i as int].0@,
                        hdrs.entries@[i as int].1@,
                    ));
                    assert(hdrs.entries@[i as int].0@ == status_key());
                    assert(hdrs.entries@[i as int].1@ == no_responders_status());
                    assert(hdrs.view_entries()[i as int] == (
                        status_key(),
                        no_responders_status(),
                    ));
                    assert(self.headers->0.view_entries()[i as int] == (
                        status_key(),
                        no_responders_status(),
                    ));
                    assert(is_no_responders_spec(*self));
                }
                return true;
            }
            proof {
                assert(hdrs.view_entries()[i as int] == (
                    hdrs.entries@[i as int].0@,
                    hdrs.entries@[i as int].1@,
                ));
            }
            i = i + 1;
        }
        false
    }
}

/// Compares two byte vectors for equal contents.
fn bytes_eq(a: &Vec<u8>, b: &Vec<u8>) -> (r: bool)
    ensures
        r == (a@ == b@),
{
    if a.len() != b.len() {
        proof {
            assert(a@ != b@);
        }
        return false;
    }
    let n = a.len();
    let mut i: usize = 0;
    while i < n
        invariant
            i <= n,
            n == a@.len() && n == b@.len(),
            forall|j: int| 0 <= j < i ==> a@[j] == b@[j],
        decreases n - i,
    {
        if a[i] != b[i] {
            return false;
        }
        i = i + 1;
    }
    proof {
        assert(a@ =~= b@);
    }
    true
}

/// How a delivered message changes the subscription table: the handoff of
/// the addressed subscription grew by exactly that message, and everything
/// else stands as it was. A message whose subscription is gone changes
/// nothing.
pub open spec fn delivered_to(
    before: Seq<(u64, Subscription)>,
    after: Seq<(u64, Subscription)>,
    sid: u64,
    msg: Message,
) -> bool {
    if has_sid(before, sid) {
        let i = sid_index(before, sid);
        &&& after.len() == before.len()
        &&& (forall|j: int| 0 <= j < before.len() && j != i ==> after[j] == before[j])
        &&& after[i].0 == before[i].0
        &&& after[i].1.subject == before[i].1.subject
        &&& after[i].1.queue_group == before[i].1.queue_group
        &&& after[i].1.messages@ == before[i].1.messages@.push(msg)
    } else {
        after == before
    }
}

/// Adds to a size estimate, saturating above the write buffer capacity,
/// where the exact value no longer matters.
fn sat_add(acc: usize, term: usize) -> (r: usize)
    ensures
        acc + term <= crate::BUF_CAPACITY ==> r == acc + term,
        acc + term > crate::BUF_CAPACITY ==> r > crate::BUF_CAPACITY,
{
    if acc > crate::BUF_CAPACITY {
        acc
    } else {
        match acc.checked_add(term) {
            Option::Some(v) => v,
            Option::None => crate::BUF_CAPACITY + 1,
        }
    }
}

/// Subscription identifiers are strictly increasing: of two subscribes on
/// one client, the later one returns the larger identifier, and none is
/// ever reused.
///
/// A subscribe returns the client's `next_sid` and leaves the counter one
/// higher, and no operation's contract lets the counter shrink; so from any
/// state reached after the first subscribe, the identifier the next
/// subscribe hands out is larger.
pub proof fn lemma_sid_monotonic(after_first: Client, before_second: Client, sid1: u64, sid2: u64)
    requires
        after_first.next_sid == sid1 + 1,
        before_second.next_sid >= after_first.next_sid,
        sid2 == before_second.next_sid,
    ensures
        sid2 > sid1,
{
}

/// PONGs satisfy flush waiters first-in, first-out: with a pending queue
/// `q` on one connection, after `k` PONGs have each taken the front entry,
/// the next PONG takes exactly `q[k]` — so the i-th completed flush is the
/// one whose PING went out i-th.
pub proof fn lemma_pong_fifo(q: Seq<PongWaiter>, k: int)
    requires
        0 <= k < q.len(),
    ensures
        q.skip(k)[0] == q[k],
        q.skip(k).skip(1) == q.skip(k + 1),
{
    assert(q.skip(k).skip(1) =~= q.skip(k + 1));
}

/// A reconnect announces every live subscription: the replayed bytes hold,
/// in table order, the subscribe frame of each entry with its original
/// identifier — no more and no fewer.
pub proof fn lemma_announcement_of_each(s: Seq<(u64, Subscription)>, i: int)
    requires
        0 <= i < s.len(),
    ensures
        sub_announcements(s) == sub_announcements(s.take(i)) + sub_announce_bytes(s[i])
            + sub_announcements(s.skip(i + 1)),
    decreases i,
{
    if i == 0 {
        assert(s.take(0) =~= Seq::<(u64, Subscription)>::empty());
        assert(sub_announcements(s) == sub_announce_bytes(s[0]) + sub_announcements(s.skip(1)));
        assert(sub_announcements(s) =~= sub_announcements(s.take(0)) + sub_announce_bytes(s[0])
            + sub_announcements(s.skip(1)));
    } else {
        lemma_announcement_of_each(s.skip(1), i - 1);
        assert(s.skip(1).take(i - 1) =~= s.take(i).skip(1));
        assert(s.skip(1).skip(i) =~= s.skip(i + 1));
        assert(s.skip(1)[i - 1] == s[i]);
        assert(sub_announcements(s) == sub_announce_bytes(s[0]) + sub_announcements(s.skip(1)));
        assert(s.take(i)[0] == s[0]);
        assert(sub_announcements(s.take(i)) == sub_announce_bytes(s[0]) + sub_announcements(
            s.take(i).skip(1),
        ));
        assert(sub_announcements(s) =~= sub_announcements(s.take(i)) + sub_announce_bytes(s[i])
            + sub_announcements(s.skip(i + 1)));
    }
}

/// Copies a byte vector.
fn copy_bytes(v: &Vec<u8>) -> (r: Vec<u8>)
    ensures
        r@ == v@,
{
    let mut out: Vec<u8> = Vec::new();
    out.extend_from_slice(v.as_slice());
    out
}

/// Copies an optional byte vector.
fn copy_opt_bytes(v: &Option<Vec<u8>>) -> (r: Option<Vec<u8>>)
    ensures
        r is Some <==> v is Some,
        r is Some ==> r->0@ == v->0@,
{
    match v {
        Option::Some(b) => Option::Some(copy_bytes(b)),
        Option::None => Option::None,
    }
}

} // verus!
