//! Wire frames of the line protocol and their byte-level codec.
//!
//! Outbound client frames (`ClientOp`) are encoded by [`encode_op`], whose
//! contract gives the exact byte sequence through the `render_*` spec
//! functions. Inbound server frames (`ServerOp`) are decoded by [`decode`],
//! which accepts the canonical renderings and whose contract says that the
//! consumed bytes are exactly the rendering of the frame it returns.
//!
//! Server-info snapshots (`INFO`) carry a JSON body; parsing it is the
//! connector's job, so [`decode`] hands an `INFO` line back with its raw
//! body, and the engine receives the parsed `ServerInfo` value as its own
//! frame afterwards.
use vstd::prelude::*;

verus! {

/// A snapshot of the capabilities the server announced most recently.
#[derive(Clone, Debug)]
pub struct ServerInfo {
    /// Whether the server supports message headers.
    pub headers: bool,
    /// Peer URLs discovered for reconnecting.
    pub connect_urls: Vec<Vec<u8>>,
}

impl ServerInfo {
    pub fn new() -> (r: ServerInfo)
        ensures
            !r.headers,
            r.connect_urls@.len() == 0,
    {
        ServerInfo { headers: false, connect_urls: Vec::new() }
    }
}

/// Message headers: a list of key/value pairs.
#[derive(Clone, Debug)]
pub struct Headers {
    pub entries: Vec<(Vec<u8>, Vec<u8>)>,
}

/// A list of key/value pairs as a sequence of byte sequences.
pub open spec fn entries_view(s: Seq<(Vec<u8>, Vec<u8>)>) -> Seq<(Seq<u8>, Seq<u8>)> {
    s.map(|i: int, kv: (Vec<u8>, Vec<u8>)| (kv.0@, kv.1@))
}

impl Headers {
    /// The headers as a sequence of key/value byte sequences.
    pub open spec fn view_entries(self) -> Seq<(Seq<u8>, Seq<u8>)> {
        entries_view(self.entries@)
    }

    pub fn new() -> (r: Headers)
        ensures
            r.view_entries().len() == 0,
    {
        Headers { entries: Vec::new() }
    }

    pub fn push(&mut self, key: Vec<u8>, value: Vec<u8>)
        ensures
            final(self).view_entries() == old(self).view_entries().push((key@, value@)),
    {
        self.entries.push((key, value));
        proof {
            assert(self.view_entries() =~= old(self).view_entries().push((key@, value@)));
        }
    }
}

/// An outbound frame from client to server.
pub enum ClientOp {
    Pub { subject: Vec<u8>, reply_to: Option<Vec<u8>>, payload: Vec<u8> },
    Hpub { subject: Vec<u8>, reply_to: Option<Vec<u8>>, headers: Headers, payload: Vec<u8> },
    Sub { subject: Vec<u8>, queue_group: Option<Vec<u8>>, sid: u64 },
    Unsub { sid: u64, max_msgs: Option<u64> },
    Ping,
    Pong,
}

impl ClientOp {
    /// Whether this frame is a publish, which may be buffered while
    /// disconnected; every other frame is dropped when there is no writer.
    pub open spec fn is_pub_family(self) -> bool {
        self is Pub || self is Hpub
    }
}

/// An inbound frame from server to client.
pub enum ServerOp {
    /// A parsed server-info snapshot, as the connector hands it over.
    Info(ServerInfo),
    /// The raw body of an info line off the wire, for the connector to
    /// parse.
    InfoLine(Vec<u8>),
    Msg { subject: Vec<u8>, sid: u64, reply_to: Option<Vec<u8>>, payload: Vec<u8> },
    Hmsg { subject: Vec<u8>, headers: Headers, sid: u64, reply_to: Option<Vec<u8>>, payload: Vec<u8> },
    Ping,
    Pong,
    ErrMsg(Vec<u8>),
    Unknown(Vec<u8>),
}

/// The result of decoding the front of a byte stream.
pub enum Decoded {
    /// One whole frame and the number of bytes it occupied.
    Frame(ServerOp, usize),
    /// The bytes so far hold no whole frame; more input is needed.
    Incomplete,
    /// The bytes cannot begin a frame; the connection is broken.
    Malformed,
}

pub open spec fn crlf() -> Seq<u8> {
    seq![13u8, 10u8]
}

pub open spec fn sp() -> Seq<u8> {
    seq![32u8]
}

/// The decimal digits of `n`, most significant first.
pub open spec fn dec_digits(n: nat) -> Seq<u8>
    decreases n,
{
    if n < 10 {
        seq![(48 + n) as u8]
    } else {
        dec_digits(n / 10).push((48 + n % 10) as u8)
    }
}

pub open spec fn is_digit(b: u8) -> bool {
    48 <= b <= 57
}

/// The value of a digit string, most significant first.
pub open spec fn digits_val(s: Seq<u8>) -> nat
    decreases s.len(),
{
    if s.len() == 0 {
        0
    } else {
        digits_val(s.drop_last()) * 10 + (s.last() - 48) as nat
    }
}

/// A digit string as the encoder writes it: nonempty, digits only, and no
/// leading zero unless it is exactly "0".
pub open spec fn is_canonical_digits(s: Seq<u8>) -> bool {
    &&& s.len() > 0
    &&& (forall|i: int| 0 <= i < s.len() ==> is_digit(s[i]))
    &&& (s.len() > 1 ==> s[0] != 48)
}

/// An optional token followed by one space, as it appears between fields.
pub open spec fn opt_tok(t: Option<Seq<u8>>) -> Seq<u8> {
    match t {
        Option::Some(s) => s + sp(),
        Option::None => Seq::empty(),
    }
}

/// One rendered header line: `key: value` and a line break.
pub open spec fn render_header(kv: (Seq<u8>, Seq<u8>)) -> Seq<u8> {
    kv.0 + seq![58u8, 32u8] + kv.1 + crlf()
}

pub open spec fn render_header_list(hs: Seq<(Seq<u8>, Seq<u8>)>) -> Seq<u8>
    decreases hs.len(),
{
    if hs.len() == 0 {
        Seq::empty()
    } else {
        render_header(hs[0]) + render_header_list(hs.skip(1))
    }
}

/// The header block: the protocol version line, the header lines, and a
/// blank line.
pub open spec fn header_block(hs: Seq<(Seq<u8>, Seq<u8>)>) -> Seq<u8> {
    seq![78u8, 65u8, 84u8, 83u8, 47u8, 49u8, 46u8, 48u8, 13u8, 10u8] + render_header_list(hs)
        + crlf()
}

/// The exact bytes of a plain publish frame, over the views of its fields.
pub open spec fn render_pub(subject: Seq<u8>, reply_to: Option<Seq<u8>>, payload: Seq<u8>) -> Seq<
    u8,
> {
    seq![80u8, 85u8, 66u8, 32u8] + subject + sp() + opt_tok(reply_to) + dec_digits(payload.len())
        + crlf() + payload + crlf()
}

/// The exact bytes of an outbound frame on the wire.
pub open spec fn render_client_op(op: ClientOp) -> Seq<u8> {
    match op {
        ClientOp::Pub { subject, reply_to, payload } => seq![80u8, 85u8, 66u8, 32u8] + subject@
            + sp() + opt_tok(spec_opt_view(reply_to)) + dec_digits(payload@.len()) + crlf()
            + payload@ + crlf(),
        ClientOp::Hpub { subject, reply_to, headers, payload } => {
            let block = header_block(headers.view_entries());
            seq![72u8, 80u8, 85u8, 66u8, 32u8] + subject@ + sp() + opt_tok(
                spec_opt_view(reply_to),
            ) + dec_digits(block.len()) + sp() + dec_digits(block.len() + payload@.len()) + crlf()
                + block + payload@ + crlf()
        },
        ClientOp::Sub { subject, queue_group, sid } => seq![83u8, 85u8, 66u8, 32u8] + subject@
            + sp() + opt_tok(spec_opt_view(queue_group)) + dec_digits(sid as nat) + crlf(),
        ClientOp::Unsub { sid, max_msgs } => seq![85u8, 78u8, 83u8, 85u8, 66u8, 32u8] + dec_digits(
            sid as nat,
        ) + (match max_msgs {
            Option::Some(m) => sp() + dec_digits(m as nat),
            Option::None => Seq::empty(),
        }) + crlf(),
        ClientOp::Ping => seq![80u8, 73u8, 78u8, 71u8, 13u8, 10u8],
        ClientOp::Pong => seq![80u8, 79u8, 78u8, 71u8, 13u8, 10u8],
    }
}

/// The exact bytes of an inbound frame on the wire. A parsed server-info
/// snapshot carries a JSON body owned by the connector, so it has no
/// rendering here and the decoder never returns one; the raw info line it
/// came from has.
pub open spec fn render_server_op(op: ServerOp) -> Seq<u8> {
    match op {
        ServerOp::Info(_) => Seq::empty(),
        ServerOp::InfoLine(body) => seq![73u8, 78u8, 70u8, 79u8, 32u8] + body@ + crlf(),
        ServerOp::Msg { subject, sid, reply_to, payload } => seq![77u8, 83u8, 71u8, 32u8]
            + subject@ + sp() + dec_digits(sid as nat) + sp() + opt_tok(spec_opt_view(reply_to))
            + dec_digits(payload@.len()) + crlf() + payload@ + crlf(),
        ServerOp::Hmsg { subject, headers, sid, reply_to, payload } => {
            let block = header_block(headers.view_entries());
            seq![72u8, 77u8, 83u8, 71u8, 32u8] + subject@ + sp() + dec_digits(sid as nat) + sp()
                + opt_tok(spec_opt_view(reply_to)) + dec_digits(block.len()) + sp() + dec_digits(
                block.len() + payload@.len(),
            ) + crlf() + block + payload@ + crlf()
        },
        ServerOp::Ping => seq![80u8, 73u8, 78u8, 71u8, 13u8, 10u8],
        ServerOp::Pong => seq![80u8, 79u8, 78u8, 71u8, 13u8, 10u8],
        ServerOp::ErrMsg(msg) => seq![45u8, 69u8, 82u8, 82u8, 32u8] + msg@ + crlf(),
        ServerOp::Unknown(line) => line@ + crlf(),
    }
}

/// Whether the input holds, from `start` on, a whole error frame carrying
/// `msg`: the error word, the text — which holds no carriage return — and
/// the line break.
pub open spec fn err_wire_at(input: Seq<u8>, start: int, msg: Seq<u8>) -> bool {
    &&& (forall|i: int| 0 <= i < msg.len() ==> msg[i] != 13)
    &&& start + 7 + msg.len() <= input.len()
    &&& input.subrange(start, start + 7 + msg.len()) == seq![45u8, 69u8, 82u8, 82u8, 32u8] + msg
        + crlf()
}

/// Whether the decoder returned exactly the error frame carrying `msg`.
pub open spec fn is_err_frame(r: Decoded, msg: Seq<u8>) -> bool {
    match r {
        Decoded::Frame(op, used) => {
            &&& op is ErrMsg
            &&& op->ErrMsg_0@ == msg
            &&& used == 7 + msg.len()
        },
        _ => false,
    }
}

/// Whether the input holds, from `start` on, one whole line that begins no
/// known frame word, and its line break.
pub open spec fn unknown_wire_at(input: Seq<u8>, start: int, line: Seq<u8>) -> bool {
    &&& (forall|i: int| 0 <= i < line.len() ==> line[i] != 13)
    &&& start + line.len() + 2 <= input.len()
    &&& input.subrange(start, start + line.len() as int + 2) == line + crlf()
    &&& line != seq![80u8, 73u8, 78u8, 71u8]
    &&& line != seq![80u8, 79u8, 78u8, 71u8]
    &&& !(line.len() >= 5 && line.take(5) == seq![45u8, 69u8, 82u8, 82u8, 32u8])
    &&& !(line.len() >= 4 && line.take(4) == seq![77u8, 83u8, 71u8, 32u8])
    &&& !(line.len() >= 5 && line.take(5) == seq![72u8, 77u8, 83u8, 71u8, 32u8])
    &&& !(line.len() >= 5 && line.take(5) == seq![73u8, 78u8, 70u8, 79u8, 32u8])
}

/// Whether the decoder passed exactly that line through as unknown.
pub open spec fn is_unknown_frame(r: Decoded, line: Seq<u8>) -> bool {
    match r {
        Decoded::Frame(op, used) => {
            &&& op is Unknown
            &&& op->Unknown_0@ == line
            &&& used == line.len() + 2
        },
        _ => false,
    }
}

/// What the bytes of a whole unknown line look like, spelled out.
proof fn lemma_unknown_wire_bytes(input: Seq<u8>, start: int, line: Seq<u8>)
    requires
        0 <= start,
        unknown_wire_at(input, start, line),
    ensures
        forall|j: int| 0 <= j < line.len() ==> input[start + j] == line[j],
        forall|j: int| start <= j < start + line.len() ==> input[j] != 13,
        input[start + line.len()] == 13,
        input[start + line.len() + 1] == 10,
{
    let head = line + crlf();
    let sub = input.subrange(start, start + line.len() as int + 2);
    assert forall|j: int| 0 <= j < head.len() implies input[start + j] == head[j] by {
        assert(sub[j] == input[start + j]);
    }
    assert forall|j: int| 0 <= j < line.len() implies input[start + j] == line[j] by {
        assert(input[start + j] == head[j]);
        assert(head[j] == line[j]);
    }
    assert forall|j: int| start <= j < start + line.len() implies input[j] != 13 by {
        assert(input[start + (j - start)] == head[j - start]);
        assert(head[j - start] == line[j - start]);
    }
    assert(input[start + line.len() as int] == head[line.len() as int]);
    assert(input[start + (line.len() as int + 1)] == head[line.len() as int + 1]);
}

/// What the bytes of a whole error frame look like, spelled out.
proof fn lemma_err_wire_bytes(input: Seq<u8>, start: int, msg: Seq<u8>)
    requires
        0 <= start,
        err_wire_at(input, start, msg),
    ensures
        input[start] == 45,
        input[start + 1] == 69,
        input[start + 2] == 82,
        input[start + 3] == 82,
        input[start + 4] == 32,
        input[start + 5 + msg.len()] == 13,
        input[start + 6 + msg.len()] == 10,
        forall|j: int| 0 <= j < msg.len() ==> input[start + 5 + j] == msg[j],
        forall|j: int| start <= j < start + 5 + msg.len() ==> input[j] != 13,
{
    let head = seq![45u8, 69u8, 82u8, 82u8, 32u8] + msg + crlf();
    let sub = input.subrange(start, start + 7 + msg.len());
    assert forall|j: int| 0 <= j < head.len() implies input[start + j] == head[j] by {
        assert(sub[j] == input[start + j]);
    }
    assert forall|j: int| 0 <= j < msg.len() implies input[start + 5 + j] == msg[j] by {
        assert(input[start + (5 + j)] == head[5 + j]);
        assert(head[5 + j] == msg[j]);
    }
    assert forall|j: int| start <= j < start + 5 + msg.len() implies input[j] != 13 by {
        assert(input[start + (j - start)] == head[j - start]);
        if j - start >= 5 {
            assert(head[j - start] == msg[j - start - 5]);
        }
    }
    assert(input[start + 0] == head[0]);
    assert(input[start + 1] == head[1]);
    assert(input[start + 2] == head[2]);
    assert(input[start + 3] == head[3]);
    assert(input[start + 4] == head[4]);
    assert(input[start + (5 + msg.len() as int)] == head[5 + msg.len() as int]);
    assert(input[start + (6 + msg.len() as int)] == head[6 + msg.len() as int]);
}

pub open spec fn spec_opt_view(o: Option<Vec<u8>>) -> Option<Seq<u8>> {
    match o {
        Option::Some(v) => Option::Some(v@),
        Option::None => Option::None,
    }
}

/// Writes the decimal digits of `n`, most significant first.
pub fn encode_u64(n: u64) -> (r: Vec<u8>)
    ensures
        r@ == dec_digits(n as nat),
    decreases n,
{
    if n < 10 {
        let mut out: Vec<u8> = Vec::new();
        out.push(48 + (n as u8));
        out
    } else {
        let mut out = encode_u64(n / 10);
        out.push(48 + ((n % 10) as u8));
        out
    }
}

/// Appending one header extends the rendered list by the rendered header.
pub proof fn lemma_render_header_list_push(hs: Seq<(Seq<u8>, Seq<u8>)>, kv: (Seq<u8>, Seq<u8>))
    ensures
        render_header_list(hs.push(kv)) == render_header_list(hs) + render_header(kv),
    decreases hs.len(),
{
    if hs.len() == 0 {
        assert(hs.push(kv).skip(1) =~= Seq::<(Seq<u8>, Seq<u8>)>::empty());
        assert(hs.push(kv)[0] == kv);
        assert(render_header_list(hs.push(kv)) == render_header(kv) + render_header_list(
            hs.push(kv).skip(1),
        ));
        assert(render_header_list(hs.push(kv)) =~= render_header_list(hs) + render_header(kv));
    } else {
        assert(hs.push(kv)[0] == hs[0]);
        assert(hs.push(kv).skip(1) =~= hs.skip(1).push(kv));
        lemma_render_header_list_push(hs.skip(1), kv);
        assert(render_header_list(hs.push(kv)) =~= render_header_list(hs) + render_header(kv));
    }
}

/// Whether the sizes an encoded frame must compute fit the machine.
pub open spec fn encode_fits(op: ClientOp) -> bool {
    match op {
        ClientOp::Hpub { headers, payload, .. } => header_block(headers.view_entries()).len()
            + payload@.len() <= usize::MAX,
        _ => true,
    }
}

/// Writes the header block of a headered publish.
pub fn encode_header_block(h: &Headers) -> (r: Vec<u8>)
    ensures
        r@ == header_block(h.view_entries()),
{
    let mut out: Vec<u8> = Vec::new();
    out.push(78);
    out.push(65);
    out.push(84);
    out.push(83);
    out.push(47);
    out.push(49);
    out.push(46);
    out.push(48);
    out.push(13);
    out.push(10);
    proof {
        assert(out@ =~= seq![78u8, 65u8, 84u8, 83u8, 47u8, 49u8, 46u8, 48u8, 13u8, 10u8]
            + render_header_list(h.view_entries().take(0)));
    }
    let n = h.entries.len();
    let mut i: usize = 0;
    while i < n
        invariant
            i <= n,
            n == h.entries@.len(),
            out@ == seq![78u8, 65u8, 84u8, 83u8, 47u8, 49u8, 46u8, 48u8, 13u8, 10u8]
                + render_header_list(h.view_entries().take(i as int)),
        decreases n - i,
    {
        let ghost pre = out@;
        let kv = &h.entries[i];
        out.extend_from_slice(kv.0.as_slice());
        out.push(58);
        out.push(32);
        out.extend_from_slice(kv.1.as_slice());
        out.push(13);
        out.push(10);
        proof {
            let hs = h.view_entries();
            assert(out@ =~= pre + render_header(hs[i as int]));
            assert(hs.take(i as int).push(hs[i as int]) =~= hs.take(i + 1));
            lemma_render_header_list_push(hs.take(i as int), hs[i as int]);
        }
        i = i + 1;
    }
    out.push(13);
    out.push(10);
    proof {
        assert(h.view_entries().take(n as int) =~= h.view_entries());
        assert(out@ =~= header_block(h.view_entries()));
    }
    out
}

/// Encodes one outbound frame into the exact bytes the wire carries.
pub fn encode_op(op: &ClientOp) -> (r: Vec<u8>)
    requires
        encode_fits(*op),
    ensures
        r@ == render_client_op(*op),
{
    let mut out: Vec<u8> = Vec::new();
    match op {
        ClientOp::Pub { subject, reply_to, payload } => {
            out.push(80);
            out.push(85);
            out.push(66);
            out.push(32);
            out.extend_from_slice(subject.as_slice());
            out.push(32);
            if let Option::Some(r) = reply_to {
                out.extend_from_slice(r.as_slice());
                out.push(32);
            }
            let mut digits = encode_u64(payload.len() as u64);
            out.append(&mut digits);
            out.push(13);
            out.push(10);
            out.extend_from_slice(payload.as_slice());
            out.push(13);
            out.push(10);
            proof {
                assert(out@ =~= render_client_op(*op));
            }
        },
        ClientOp::Hpub { subject, reply_to, headers, payload } => {
            let mut block = encode_header_block(headers);
            out.push(72);
            out.push(80);
            out.push(85);
            out.push(66);
            out.push(32);
            out.extend_from_slice(subject.as_slice());
            out.push(32);
            if let Option::Some(r) = reply_to {
                out.extend_from_slice(r.as_slice());
                out.push(32);
            }
            let mut hdigits = encode_u64(block.len() as u64);
            out.append(&mut hdigits);
            out.push(32);
            let total = block.len() + payload.len();
            let mut tdigits = encode_u64(total as u64);
            out.append(&mut tdigits);
            out.push(13);
            out.push(10);
            out.append(&mut block);
            out.extend_from_slice(payload.as_slice());
            out.push(13);
            out.push(10);
            proof {
                assert(out@ =~= render_client_op(*op));
            }
        },
        ClientOp::Sub { subject, queue_group, sid } => {
            out.push(83);
            out.push(85);
            out.push(66);
            out.push(32);
            out.extend_from_slice(subject.as_slice());
            out.push(32);
            if let Option::Some(q) = queue_group {
                out.extend_from_slice(q.as_slice());
                out.push(32);
            }
            let mut digits = encode_u64(*sid);
            out.append(&mut digits);
            out.push(13);
            out.push(10);
            proof {
                assert(out@ =~= render_client_op(*op));
            }
        },
        ClientOp::Unsub { sid, max_msgs } => {
            out.push(85);
            out.push(78);
            out.push(83);
            out.push(85);
            out.push(66);
            out.push(32);
            let mut digits = encode_u64(*sid);
            out.append(&mut digits);
            if let Option::Some(m) = max_msgs {
                out.push(32);
                let mut mdigits = encode_u64(*m);
                out.append(&mut mdigits);
            }
            out.push(13);
            out.push(10);
            proof {
                assert(out@ =~= render_client_op(*op));
            }
        },
        ClientOp::Ping => {
            out.push(80);
            out.push(73);
            out.push(78);
            out.push(71);
            out.push(13);
            out.push(10);
            proof {
                assert(out@ =~= render_client_op(*op));
            }
        },
        ClientOp::Pong => {
            out.push(80);
            out.push(79);
            out.push(78);
            out.push(71);
            out.push(13);
            out.push(10);
            proof {
                assert(out@ =~= render_client_op(*op));
            }
        },
    }
    out
}

/// Every rendered outbound frame holds at least its frame word.
pub proof fn lemma_render_client_op_nonempty(op: ClientOp)
    ensures
        render_client_op(op).len() > 0,
{
}

/// Splitting a range of the input at an interior point splits its bytes.
pub proof fn lemma_subrange_split(s: Seq<u8>, a: int, m: int, b: int)
    requires
        0 <= a <= m <= b <= s.len(),
    ensures
        s.subrange(a, b) == s.subrange(a, m) + s.subrange(m, b),
{
    assert(s.subrange(a, b) =~= s.subrange(a, m) + s.subrange(m, b));
}

/// Looks for the first line break: a carriage return directly followed by
/// a line feed, at or after `from`.
fn find_crlf(input: &Vec<u8>, from: usize) -> (r: Option<usize>)
    requires
        from <= input@.len(),
    ensures
        match r {
            Option::Some(i) => from <= i && i + 2 <= input@.len() && input@[i as int] == 13
                && input@[i as int + 1] == 10 && (forall|j: int|
                from <= j < i ==> !(#[trigger] input@[j] == 13 && input@[j + 1] == 10)),
            Option::None => forall|j: int|
                from <= j && j + 2 <= input@.len() ==> !(#[trigger] input@[j] == 13 && input@[j
                    + 1] == 10),
        },
{
    let n = input.len();
    if n < 2 {
        return Option::None;
    }
    let mut i = from;
    while i < n - 1
        invariant
            from <= i,
            i <= n,
            n == input@.len(),
            n >= 2,
            forall|j: int| from <= j < i ==> !(#[trigger] input@[j] == 13 && input@[j + 1] == 10),
        decreases n - i,
    {
        if input[i] == 13 && input[i + 1] == 10 {
            return Option::Some(i);
        }
        i = i + 1;
    }
    Option::None
}

/// Looks for the first occurrence of the byte `b` in `[from, to)`.
pub(crate) fn find_byte(input: &Vec<u8>, from: usize, to: usize, b: u8) -> (r: Option<usize>)
    requires
        from <= to <= input@.len(),
    ensures
        match r {
            Option::Some(i) => from <= i < to && input@[i as int] == b && (forall|j: int|
                from <= j < i ==> input@[j] != b),
            Option::None => forall|j: int| from <= j < to ==> input@[j] != b,
        },
{
    let mut i = from;
    while i < to
        invariant
            from <= i <= to,
            to <= input@.len(),
            forall|j: int| from <= j < i ==> input@[j] != b,
        decreases to - i,
    {
        if input[i] == b {
            return Option::Some(i);
        }
        i = i + 1;
    }
    Option::None
}

/// Copies the bytes in `[from, to)` out of the input.
pub(crate) fn copy_range(input: &Vec<u8>, from: usize, to: usize) -> (r: Vec<u8>)
    requires
        from <= to <= input@.len(),
    ensures
        r@ == input@.subrange(from as int, to as int),
{
    let mut out: Vec<u8> = Vec::new();
    let mut i = from;
    while i < to
        invariant
            from <= i <= to,
            to <= input@.len(),
            out@ == input@.subrange(from as int, i as int),
        decreases to - i,
    {
        out.push(input[i]);
        proof {
            assert(out@ =~= input@.subrange(from as int, i + 1));
        }
        i = i + 1;
    }
    out
}

/// A longer front of a digit string never has a larger value than the
/// whole.
proof fn lemma_digits_val_take_le(s: Seq<u8>, i: int)
    requires
        0 <= i <= s.len(),
    ensures
        digits_val(s.take(i)) <= digits_val(s),
    decreases s.len() - i,
{
    if i == s.len() {
        assert(s.take(i) =~= s);
    } else {
        lemma_digits_val_take_le(s, i + 1);
        assert(s.take(i + 1).drop_last() =~= s.take(i));
        assert(digits_val(s.take(i + 1)) == digits_val(s.take(i)) * 10 + (s.take(i + 1).last()
            - 48) as nat);
    }
}

/// Reads a canonical decimal number from `[from, to)`: exactly the
/// rendering of a number that fits the machine word, and nothing else.
pub(crate) fn parse_u64_range(input: &Vec<u8>, from: usize, to: usize) -> (r: Option<u64>)
    requires
        from <= to <= input@.len(),
    ensures
        match r {
            Option::Some(v) => dec_digits(v as nat) == input@.subrange(from as int, to as int),
            Option::None => !(is_canonical_digits(input@.subrange(from as int, to as int))
                && digits_val(input@.subrange(from as int, to as int)) <= u64::MAX),
        },
{
    let ghost whole = input@.subrange(from as int, to as int);
    if from == to {
        return Option::None;
    }
    if to - from > 1 && input[from] == 48 {
        proof {
            assert(whole[0] == input@[from as int]);
        }
        return Option::None;
    }
    let mut acc: u64 = 0;
    let mut i = from;
    while i < to
        invariant
            from <= i <= to,
            to <= input@.len(),
            whole == input@.subrange(from as int, to as int),
            acc as nat == digits_val(input@.subrange(from as int, i as int)),
            forall|j: int| from <= j < i ==> is_digit(input@[j]),
        decreases to - i,
    {
        let b = input[i];
        if b < 48 || b > 57 {
            proof {
                assert(whole[i - from] == input@[i as int]);
                assert(!is_digit(whole[i - from]));
            }
            return Option::None;
        }
        proof {
            let tok = input@.subrange(from as int, i + 1);
            assert(tok.drop_last() =~= input@.subrange(from as int, i as int));
            assert(tok.last() == input@[i as int]);
            // Were the whole range a number that fits, this step's value
            // would fit too: a front of the digits never exceeds the whole.
            if is_canonical_digits(whole) && digits_val(whole) <= u64::MAX {
                lemma_digits_val_take_le(whole, i + 1 - from);
                assert(whole.take(i + 1 - from) =~= tok);
                assert(digits_val(tok) <= u64::MAX);
            }
        }
        let step = match acc.checked_mul(10) {
            Option::Some(x) => match x.checked_add((b - 48) as u64) {
                Option::Some(y) => y,
                Option::None => {
                    return Option::None;
                },
            },
            Option::None => {
                proof {
                    let tok = input@.subrange(from as int, i + 1);
                    assert(digits_val(tok) >= acc as nat * 10);
                }
                return Option::None;
            },
        };
        acc = step;
        i = i + 1;
    }
    proof {
        let tok = input@.subrange(from as int, to as int);
        assert(is_canonical_digits(tok)) by {
            assert(forall|j: int| 0 <= j < tok.len() ==> is_digit(#[trigger] tok[j]));
            if tok.len() > 1 {
                assert(tok[0] == input@[from as int]);
            }
        }
        lemma_canonical_digits_round_trip(tok);
    }
    Option::Some(acc)
}

/// A canonical digit string is the rendering of its own value.
pub proof fn lemma_canonical_digits_round_trip(s: Seq<u8>)
    requires
        is_canonical_digits(s),
    ensures
        dec_digits(digits_val(s)) == s,
    decreases s.len(),
{
    if s.len() == 1 {
        assert(digits_val(s) == digits_val(s.drop_last()) * 10 + (s[0] - 48));
        assert(digits_val(s.drop_last()) == 0);
        assert(dec_digits(digits_val(s)) =~= s);
    } else {
        let hd = s.drop_last();
        assert(is_canonical_digits(hd)) by {
            assert(forall|i: int| 0 <= i < hd.len() ==> hd[i] == s[i]);
        }
        lemma_canonical_digits_round_trip(hd);
        lemma_canonical_leading_value(hd);
        let v = digits_val(s);
        let hv = digits_val(hd);
        let d = (s.last() - 48) as nat;
        assert(v == hv * 10 + d);
        assert(hv >= 1);
        assert(v >= 10 && v / 10 == hv && v % 10 == d) by (nonlinear_arith)
            requires
                v == hv * 10 + d,
                hv >= 1,
                d < 10,
        ;
        assert(dec_digits(v) == dec_digits(hv).push((48 + d) as u8));
        assert(dec_digits(v) =~= s);
    }
}

/// A canonical digit string longer than one digit, or one not equal to "0",
/// has a value of at least one.
pub proof fn lemma_canonical_leading_value(s: Seq<u8>)
    requires
        is_canonical_digits(s),
        s.len() > 1 || s[0] != 48,
    ensures
        digits_val(s) >= 1,
    decreases s.len(),
{
    if s.len() == 1 {
        assert(digits_val(s) == digits_val(s.drop_last()) * 10 + (s[0] - 48));
    } else {
        let hd = s.drop_last();
        assert(is_canonical_digits(hd)) by {
            assert(forall|i: int| 0 <= i < hd.len() ==> hd[i] == s[i]);
        }
        if hd.len() > 1 || hd[0] != 48 {
            lemma_canonical_leading_value(hd);
            assert(digits_val(hd) * 10 >= 10) by (nonlinear_arith)
                requires
                    digits_val(hd) >= 1,
            ;
        } else {
            assert(s[0] != 48 && hd[0] == s[0]);
        }
    }
}

/// Decodes the frame at the front of `input`, starting at `start`.
///
/// When a whole frame is there, the bytes it occupied are exactly the
/// rendering of the frame returned; a heartbeat frame, an error frame or a
/// whole line beginning no known frame word at the front is moreover never
/// missed. An info line is handed back with its raw body, whose JSON
/// belongs to the connector; a line the protocol does not know at all is
/// handed back as an unknown frame. A line that begins a known frame but
/// breaks its shape, a number with a leading zero among that, is malformed
/// and the connection counts as broken.
#[verifier::rlimit(60)]
pub fn decode(input: &Vec<u8>, start: usize) -> (r: Decoded)
    requires
        start <= input@.len(),
    ensures
        match r {
            Decoded::Frame(op, used) => start + used <= input@.len() && input@.subrange(
                start as int,
                start as int + used,
            ) == render_server_op(op) && !(op is Info),
            Decoded::Incomplete => true,
            Decoded::Malformed => true,
        },
        start + 6 <= input@.len() && input@.subrange(start as int, start as int + 6)
            == render_server_op(ServerOp::Ping) ==> r == Decoded::Frame(ServerOp::Ping, 6),
        start + 6 <= input@.len() && input@.subrange(start as int, start as int + 6)
            == render_server_op(ServerOp::Pong) ==> r == Decoded::Frame(ServerOp::Pong, 6),
        forall|msg: Seq<u8>|
            err_wire_at(input@, start as int, msg) ==> is_err_frame(r, msg),
        forall|line: Seq<u8>|
            #[trigger] unknown_wire_at(input@, start as int, line) ==> is_unknown_frame(r, line),
{
    let ilen = input.len();
    let le0 = match find_crlf(input, start) {
        Option::Some(i) => i,
        Option::None => {
            proof {
                if start + 6 <= input@.len() {
                    let control = input@.subrange(start as int, start as int + 6);
                    if control == render_server_op(ServerOp::Ping) || control == render_server_op(
                        ServerOp::Pong,
                    ) {
                        assert(input@[start as int + 4] == 13 && input@[start as int + 5] == 10);
                    }
                }
                assert forall|msg: Seq<u8>| !err_wire_at(input@, start as int, msg) by {
                    if err_wire_at(input@, start as int, msg) {
                        lemma_err_wire_bytes(input@, start as int, msg);
                        let e = start as int + 5 + msg.len();
                        assert(input@[e] == 13 && input@[e + 1] == 10);
                    }
                }
                assert forall|line: Seq<u8>| !unknown_wire_at(input@, start as int, line) by {
                    if unknown_wire_at(input@, start as int, line) {
                        lemma_unknown_wire_bytes(input@, start as int, line);
                        let e = start as int + line.len();
                        assert(input@[e] == 13 && input@[e + 1] == 10);
                    }
                }
            }
            return Decoded::Incomplete;
        },
    };
    proof {
        // An error frame at the front pins the first line break to the end
        // of its text: the error word and the text hold no line break.
        assert forall|msg: Seq<u8>| err_wire_at(input@, start as int, msg) implies le0 == start + 5
            + msg.len() && input@[start as int] == 45 && input@[start as int + 1] == 69
            && input@[start as int + 2] == 82 && input@[start as int + 3] == 82 && input@[
            start as int + 4
        ] == 32 by {
            lemma_err_wire_bytes(input@, start as int, msg);
            let e = start as int + 5 + msg.len();
            if le0 < e {
                assert(input@[le0 as int] != 13);
                assert(false);
            }
            if le0 > e {
                assert(!(input@[e] == 13 && input@[e + 1] == 10));
            }
        }
        // An unknown line at the front pins the first line break to its end.
        assert forall|line: Seq<u8>|
            unknown_wire_at(input@, start as int, line) implies le0 == start + line.len() by {
            lemma_unknown_wire_bytes(input@, start as int, line);
            let e = start as int + line.len();
            if le0 < e {
                assert(input@[le0 as int] != 13);
                assert(false);
            }
            if le0 > e {
                assert(!(input@[e] == 13 && input@[e + 1] == 10));
            }
        }
        // A control frame at the front pins the first line break to its own.
        if start + 6 <= input@.len() {
            let control = input@.subrange(start as int, start as int + 6);
            if control == render_server_op(ServerOp::Ping) || control == render_server_op(
                ServerOp::Pong,
            ) {
                assert(input@[start as int + 4] == 13 && input@[start as int + 5] == 10);
                assert(input@[start as int] == 80 && input@[start as int + 2] == 78);
                if le0 < start + 4 {
                    assert(input@[le0 as int] == 13);
                    assert(input@[le0 as int] == control[le0 - start]);
                } else if le0 > start + 4 {
                    assert(!(input@[start as int + 4] == 13 && input@[start as int + 5] == 10));
                }
                assert(le0 == start + 4);
            }
        }
    }
    let line_len = le0 - start;
    if line_len == 4 && input[start] == 80 && input[start + 1] == 73 && input[start + 2] == 78
        && input[start + 3] == 71 {
        proof {
            assert(input@.subrange(start as int, start as int + 6) =~= render_server_op(
                ServerOp::Ping,
            ));
            assert forall|line: Seq<u8>| !unknown_wire_at(input@, start as int, line) by {
                if unknown_wire_at(input@, start as int, line) {
                    lemma_unknown_wire_bytes(input@, start as int, line);
                    assert(line =~= seq![80u8, 73u8, 78u8, 71u8]);
                }
            }
        }
        return Decoded::Frame(ServerOp::Ping, 6);
    }
    if line_len == 4 && input[start] == 80 && input[start + 1] == 79 && input[start + 2] == 78
        && input[start + 3] == 71 {
        proof {
            assert(input@.subrange(start as int, start as int + 6) =~= render_server_op(
                ServerOp::Pong,
            ));
            assert forall|line: Seq<u8>| !unknown_wire_at(input@, start as int, line) by {
                if unknown_wire_at(input@, start as int, line) {
                    lemma_unknown_wire_bytes(input@, start as int, line);
                    assert(line =~= seq![80u8, 79u8, 78u8, 71u8]);
                }
            }
        }
        return Decoded::Frame(ServerOp::Pong, 6);
    }
    if line_len >= 5 && input[start] == 45 && input[start + 1] == 69 && input[start + 2] == 82
        && input[start + 3] == 82 && input[start + 4] == 32 {
        let msg = copy_range(input, start + 5, le0);
        proof {
            let iv = input@;
            let s = start as int;
            let l = le0 as int;
            assert(iv.subrange(s, s + 5) =~= seq![45u8, 69u8, 82u8, 82u8, 32u8]);
            lemma_subrange_split(iv, s, s + 5, l);
            assert(iv.subrange(l, l + 2) =~= crlf());
            lemma_subrange_split(iv, s, l, l + 2);
        }
        let used = le0 + 2 - start;
        proof {
            assert forall|line: Seq<u8>| !unknown_wire_at(input@, start as int, line) by {
                if unknown_wire_at(input@, start as int, line) {
                    lemma_unknown_wire_bytes(input@, start as int, line);
                    assert(line.take(5) =~= seq![45u8, 69u8, 82u8, 82u8, 32u8]);
                }
            }
            assert forall|m: Seq<u8>|
                err_wire_at(input@, start as int, m) implies is_err_frame(
                Decoded::Frame(ServerOp::ErrMsg(msg), used as usize),
                m,
            ) by {
                lemma_err_wire_bytes(input@, start as int, m);
                assert(le0 == start + 5 + m.len());
                assert forall|j: int| 0 <= j < m.len() implies msg@[j] == m[j] by {
                    assert(msg@[j] == input@[start as int + 5 + j]);
                }
                assert(msg@ =~= m);
            }
        }
        return Decoded::Frame(ServerOp::ErrMsg(msg), used);
    }
    if line_len >= 5 && input[start] == 73 && input[start + 1] == 78 && input[start + 2] == 70
        && input[start + 3] == 79 && input[start + 4] == 32 {
        let body = copy_range(input, start + 5, le0);
        proof {
            let iv = input@;
            let s = start as int;
            let l = le0 as int;
            assert(iv.subrange(s, s + 5) =~= seq![73u8, 78u8, 70u8, 79u8, 32u8]);
            lemma_subrange_split(iv, s, s + 5, l);
            assert(iv.subrange(l, l + 2) =~= crlf());
            lemma_subrange_split(iv, s, l, l + 2);
        }
        proof {
            assert forall|line: Seq<u8>| !unknown_wire_at(input@, start as int, line) by {
                if unknown_wire_at(input@, start as int, line) {
                    lemma_unknown_wire_bytes(input@, start as int, line);
                    assert(line.take(5) =~= seq![73u8, 78u8, 70u8, 79u8, 32u8]);
                }
            }
        }
        let used = le0 + 2 - start;
        return Decoded::Frame(ServerOp::InfoLine(body), used);
    }
    if line_len >= 4 && input[start] == 77 && input[start + 1] == 83 && input[start + 2] == 71
        && input[start + 3] == 32 {
        proof {
            assert forall|line: Seq<u8>| !unknown_wire_at(input@, start as int, line) by {
                if unknown_wire_at(input@, start as int, line) {
                    lemma_unknown_wire_bytes(input@, start as int, line);
                    assert(line.take(4) =~= seq![77u8, 83u8, 71u8, 32u8]);
                }
            }
        }
        return decode_msg(input, start, le0);
    }
    if line_len >= 5 && input[start] == 72 && input[start + 1] == 77 && input[start + 2] == 83
        && input[start + 3] == 71 && input[start + 4] == 32 {
        proof {
            assert forall|line: Seq<u8>| !unknown_wire_at(input@, start as int, line) by {
                if unknown_wire_at(input@, start as int, line) {
                    lemma_unknown_wire_bytes(input@, start as int, line);
                    assert(line.take(5) =~= seq![72u8, 77u8, 83u8, 71u8, 32u8]);
                }
            }
        }
        return decode_hmsg(input, start, le0);
    }
    let line = copy_range(input, start, le0);
    let used = le0 + 2 - start;
    proof {
        let iv = input@;
        let s = start as int;
        let l = le0 as int;
        assert(iv.subrange(l, l + 2) =~= crlf());
        lemma_subrange_split(iv, s, l, l + 2);
        assert forall|lh: Seq<u8>|
            unknown_wire_at(iv, s, lh) implies is_unknown_frame(
            Decoded::Frame(ServerOp::Unknown(line), used as usize),
            lh,
        ) by {
            lemma_unknown_wire_bytes(iv, s, lh);
            assert forall|k: int| 0 <= k < lh.len() implies line@[k] == lh[k] by {
                assert(line@[k] == iv.subrange(s, l)[k]);
                assert(iv[s + k] == lh[k]);
            }
            assert(line@ =~= lh);
        }
    }
    Decoded::Frame(ServerOp::Unknown(line), used)
}

/// Reads the body of a plain message frame whose line begins at `start` and
/// whose line break sits at `le0`.
#[verifier::rlimit(80)]
fn decode_msg(input: &Vec<u8>, start: usize, le0: usize) -> (r: Decoded)
    requires
        start + 4 <= le0,
        le0 + 2 <= input@.len(),
        input@[start as int] == 77,
        input@[start as int + 1] == 83,
        input@[start as int + 2] == 71,
        input@[start as int + 3] == 32,
        input@[le0 as int] == 13,
        input@[le0 as int + 1] == 10,
    ensures
        match r {
            Decoded::Frame(op, used) => start + used <= input@.len() && input@.subrange(
                start as int,
                start as int + used,
            ) == render_server_op(op) && !(op is Info),
            Decoded::Incomplete => true,
            Decoded::Malformed => true,
        },
{
    let ilen = input.len();
    let t0 = start + 4;
    let sp1 = match find_byte(input, t0, le0, 32) {
        Option::Some(i) => i,
        Option::None => {
            return Decoded::Malformed;
        },
    };
    let sp2 = match find_byte(input, sp1 + 1, le0, 32) {
        Option::Some(i) => i,
        Option::None => {
            return Decoded::Malformed;
        },
    };
    let (has_reply, sp3) = match find_byte(input, sp2 + 1, le0, 32) {
        Option::Some(i) => {
            if find_byte(input, i + 1, le0, 32).is_some() {
                return Decoded::Malformed;
            }
            (true, i)
        },
        Option::None => (false, 0usize),
    };
    let sid = match parse_u64_range(input, sp1 + 1, sp2) {
        Option::Some(v) => v,
        Option::None => {
            return Decoded::Malformed;
        },
    };
    let nb_from = if has_reply {
        sp3 + 1
    } else {
        sp2 + 1
    };
    let nb = match parse_u64_range(input, nb_from, le0) {
        Option::Some(v) => v,
        Option::None => {
            return Decoded::Malformed;
        },
    };
    let p = le0 + 2;
    let remaining = ilen - p;
    if remaining < 2 || nb > (remaining - 2) as u64 {
        return Decoded::Incomplete;
    }
    let nbu = nb as usize;
    if !(input[p + nbu] == 13 && input[p + nbu + 1] == 10) {
        return Decoded::Malformed;
    }
    let subject = copy_range(input, t0, sp1);
    let reply_to = if has_reply {
        Option::Some(copy_range(input, sp2 + 1, sp3))
    } else {
        Option::None
    };
    let payload = copy_range(input, p, p + nbu);
    let used = p + nbu + 2 - start;
    let op = ServerOp::Msg { subject, sid, reply_to, payload };
    proof {
        let iv = input@;
        let s = start as int;
        let a = s + 4;
        let i1 = sp1 as int;
        let b = i1 + 1;
        let i2 = sp2 as int;
        let c = i2 + 1;
        let l = le0 as int;
        let pp = l + 2;
        let pe = pp + nbu;
        let fin = pe + 2;
        let subj = iv.subrange(a, i1);
        assert(iv.subrange(s, a) =~= seq![77u8, 83u8, 71u8, 32u8]);
        lemma_subrange_split(iv, s, a, i1);
        assert(iv.subrange(i1, b) =~= sp());
        lemma_subrange_split(iv, s, i1, b);
        lemma_subrange_split(iv, s, b, i2);
        assert(iv.subrange(i2, c) =~= sp());
        lemma_subrange_split(iv, s, i2, c);
        let head = seq![77u8, 83u8, 71u8, 32u8] + subj + sp() + dec_digits(sid as nat) + sp();
        assert(iv.subrange(s, c) == head);
        if has_reply {
            let i3 = sp3 as int;
            let d = i3 + 1;
            let rep = iv.subrange(i2 + 1, i3);
            lemma_subrange_split(iv, s, c, i3);
            assert(iv.subrange(i3, d) =~= sp());
            lemma_subrange_split(iv, s, i3, d);
            assert(head + rep + sp() =~= head + (rep + sp()));
            assert(iv.subrange(s, d) == head + opt_tok(spec_opt_view(reply_to)));
            lemma_subrange_split(iv, s, d, l);
        } else {
            assert(head + opt_tok(spec_opt_view(reply_to)) =~= head);
            lemma_subrange_split(iv, s, c, l);
        }
        assert(iv.subrange(s, l) == head + opt_tok(spec_opt_view(reply_to)) + dec_digits(
            nb as nat,
        ));
        assert(iv.subrange(l, pp) =~= crlf());
        lemma_subrange_split(iv, s, l, pp);
        lemma_subrange_split(iv, s, pp, pe);
        assert(iv.subrange(pe, fin) =~= crlf());
        lemma_subrange_split(iv, s, pe, fin);
        assert(payload@.len() == nb as nat);
        assert(iv.subrange(s, s + used) == render_server_op(op));
    }
    Decoded::Frame(op, used)
}

/// Reads the body of a headered message frame whose line begins at `start`
/// and whose line break sits at `le0`.
#[verifier::rlimit(100)]
fn decode_hmsg(input: &Vec<u8>, start: usize, le0: usize) -> (r: Decoded)
    requires
        start + 5 <= le0,
        le0 + 2 <= input@.len(),
        input@[start as int] == 72,
        input@[start as int + 1] == 77,
        input@[start as int + 2] == 83,
        input@[start as int + 3] == 71,
        input@[start as int + 4] == 32,
        input@[le0 as int] == 13,
        input@[le0 as int + 1] == 10,
    ensures
        match r {
            Decoded::Frame(op, used) => start + used <= input@.len() && input@.subrange(
                start as int,
                start as int + used,
            ) == render_server_op(op) && !(op is Info),
            Decoded::Incomplete => true,
            Decoded::Malformed => true,
        },
{
    let ilen = input.len();
    let t0 = start + 5;
    let sp1 = match find_byte(input, t0, le0, 32) {
        Option::Some(i) => i,
        Option::None => {
            return Decoded::Malformed;
        },
    };
    let sp2 = match find_byte(input, sp1 + 1, le0, 32) {
        Option::Some(i) => i,
        Option::None => {
            return Decoded::Malformed;
        },
    };
    let sp3 = match find_byte(input, sp2 + 1, le0, 32) {
        Option::Some(i) => i,
        Option::None => {
            return Decoded::Malformed;
        },
    };
    let (has_reply, sp4) = match find_byte(input, sp3 + 1, le0, 32) {
        Option::Some(i) => {
            if find_byte(input, i + 1, le0, 32).is_some() {
                return Decoded::Malformed;
            }
            (true, i)
        },
        Option::None => (false, 0usize),
    };
    let sid = match parse_u64_range(input, sp1 + 1, sp2) {
        Option::Some(v) => v,
        Option::None => {
            return Decoded::Malformed;
        },
    };
    let (h_from, h_to) = if has_reply {
        (sp3 + 1, sp4)
    } else {
        (sp2 + 1, sp3)
    };
    let t_from = if has_reply {
        sp4 + 1
    } else {
        sp3 + 1
    };
    let hlen = match parse_u64_range(input, h_from, h_to) {
        Option::Some(v) => v,
        Option::None => {
            return Decoded::Malformed;
        },
    };
    let tlen = match parse_u64_range(input, t_from, le0) {
        Option::Some(v) => v,
        Option::None => {
            return Decoded::Malformed;
        },
    };
    if hlen < 12 || tlen < hlen {
        return Decoded::Malformed;
    }
    let p = le0 + 2;
    let remaining = ilen - p;
    if remaining < 2 || tlen > (remaining - 2) as u64 {
        return Decoded::Incomplete;
    }
    let tl = tlen as usize;
    let hl = hlen as usize;
    if !(input[p + tl] == 13 && input[p + tl + 1] == 10) {
        return Decoded::Malformed;
    }
    // The header block: the version line, then header lines, then a blank
    // line, occupying exactly [p, p + hl).
    if !(input[p] == 78 && input[p + 1] == 65 && input[p + 2] == 84 && input[p + 3] == 83
        && input[p + 4] == 47 && input[p + 5] == 49 && input[p + 6] == 46 && input[p + 7] == 48
        && input[p + 8] == 13 && input[p + 9] == 10) {
        return Decoded::Malformed;
    }
    let hend = p + hl;
    if !(input[hend - 2] == 13 && input[hend - 1] == 10) {
        return Decoded::Malformed;
    }
    let mut entries: Vec<(Vec<u8>, Vec<u8>)> = Vec::new();
    let mut q = p + 10;
    while q < hend - 2
        invariant
            p + 10 <= q <= hend - 2,
            p + 12 <= hend <= input@.len(),
            input@.subrange(p + 10, q as int) == render_header_list(entries_view(entries@)),
        decreases hend - q,
    {
        let le = match find_crlf(input, q) {
            Option::Some(i) => i,
            Option::None => {
                return Decoded::Malformed;
            },
        };
        if le < q || le > hend - 4 {
            return Decoded::Malformed;
        }
        let colon = match find_byte(input, q, le, 58) {
            Option::Some(i) => i,
            Option::None => {
                return Decoded::Malformed;
            },
        };
        if colon + 1 >= le || input[colon + 1] != 32 {
            return Decoded::Malformed;
        }
        let key = copy_range(input, q, colon);
        let value = copy_range(input, colon + 2, le);
        proof {
            let iv = input@;
            let qq = q as int;
            let co = colon as int;
            let ll = le as int;
            assert(iv.subrange(co, co + 2) =~= seq![58u8, 32u8]);
            lemma_subrange_split(iv, qq, co, co + 2);
            lemma_subrange_split(iv, qq, co + 2, ll);
            assert(iv.subrange(ll, ll + 2) =~= crlf());
            lemma_subrange_split(iv, qq, ll, ll + 2);
            assert(iv.subrange(qq, ll + 2) == render_header((key@, value@)));
            lemma_subrange_split(iv, p + 10, qq, ll + 2);
            lemma_render_header_list_push(entries_view(entries@), (key@, value@));
            assert(entries_view(entries@.push((key, value))) =~= entries_view(
                entries@,
            ).push((key@, value@)));
        }
        entries.push((key, value));
        q = le + 2;
    }
    let headers = Headers { entries };
    let subject = copy_range(input, t0, sp1);
    let reply_to = if has_reply {
        Option::Some(copy_range(input, sp2 + 1, sp3))
    } else {
        Option::None
    };
    let payload = copy_range(input, hend, p + tl);
    let used = p + tl + 2 - start;
    let op = ServerOp::Hmsg { subject, headers, sid, reply_to, payload };
    proof {
        let iv = input@;
        let s = start as int;
        let a = s + 5;
        let i1 = sp1 as int;
        let b = i1 + 1;
        let i2 = sp2 as int;
        let c = i2 + 1;
        let l = le0 as int;
        let pp = l + 2;
        let he = hend as int;
        let pe = p + tl;
        let fin = pe + 2;
        let subj = iv.subrange(a, i1);
        let block = iv.subrange(pp, he);
        // The header block renders to exactly its own bytes.
        assert(iv.subrange(pp, pp + 10) =~= seq![78u8, 65u8, 84u8, 83u8, 47u8, 49u8, 46u8, 48u8, 13u8, 10u8]);
        lemma_subrange_split(iv, pp, pp + 10, q as int);
        assert(iv.subrange(he - 2, he) =~= crlf());
        lemma_subrange_split(iv, pp, q as int, he);
        assert(block == header_block(headers.view_entries()));
        assert(block.len() == hlen as nat);
        // Assemble the whole frame from its pieces, left to right.
        assert(iv.subrange(s, a) =~= seq![72u8, 77u8, 83u8, 71u8, 32u8]);
        lemma_subrange_split(iv, s, a, i1);
        assert(iv.subrange(i1, b) =~= sp());
        lemma_subrange_split(iv, s, i1, b);
        lemma_subrange_split(iv, s, b, i2);
        assert(iv.subrange(i2, c) =~= sp());
        lemma_subrange_split(iv, s, i2, c);
        let head = seq![72u8, 77u8, 83u8, 71u8, 32u8] + subj + sp() + dec_digits(sid as nat)
            + sp();
        assert(iv.subrange(s, c) == head);
        let i3 = sp3 as int;
        if has_reply {
            let i4 = sp4 as int;
            let rep = iv.subrange(i2 + 1, i3);
            lemma_subrange_split(iv, s, c, i3);
            assert(iv.subrange(i3, i3 + 1) =~= sp());
            lemma_subrange_split(iv, s, i3, i3 + 1);
            assert(head + rep + sp() =~= head + (rep + sp()));
            assert(iv.subrange(s, i3 + 1) == head + opt_tok(spec_opt_view(reply_to)));
            lemma_subrange_split(iv, s, i3 + 1, i4);
            assert(iv.subrange(i4, i4 + 1) =~= sp());
            lemma_subrange_split(iv, s, i4, i4 + 1);
            lemma_subrange_split(iv, s, i4 + 1, l);
        } else {
            assert(head + opt_tok(spec_opt_view(reply_to)) =~= head);
            lemma_subrange_split(iv, s, c, i3);
            assert(iv.subrange(i3, i3 + 1) =~= sp());
            lemma_subrange_split(iv, s, i3, i3 + 1);
            lemma_subrange_split(iv, s, i3 + 1, l);
        }
        assert(iv.subrange(s, l) == head + opt_tok(spec_opt_view(reply_to)) + dec_digits(
            hlen as nat,
        ) + sp() + dec_digits(tlen as nat));
        assert(iv.subrange(l, pp) =~= crlf());
        lemma_subrange_split(iv, s, l, pp);
        lemma_subrange_split(iv, s, pp, he);
        lemma_subrange_split(iv, s, he, pe);
        assert(iv.subrange(pe, fin) =~= crlf());
        lemma_subrange_split(iv, s, pe, fin);
        assert(payload@.len() == tlen - hlen);
        assert(block.len() + payload@.len() == tlen as nat);
        assert(iv.subrange(s, s + used) == render_server_op(op));
    }
    Decoded::Frame(op, used)
}

} // verus!
