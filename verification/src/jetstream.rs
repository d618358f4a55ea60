//! The stream-layer helpers of a message: acknowledgement kinds and the
//! metadata a stream-managed server encodes into a reply subject.
use vstd::prelude::*;

use crate::client::Message;
use crate::proto::copy_range;
use crate::proto::dec_digits;
use crate::proto::find_byte;
use crate::proto::parse_u64_range;

verus! {

/// The kinds of acknowledgement a consumer can send for a stream message.
#[derive(Clone, Copy, Debug, PartialEq, Eq, Structural)]
pub enum AckKind {
    /// Acknowledge a message as processed.
    Ack,
    /// Signal that the message was not processed and should be redelivered.
    Nak,
    /// Signal that processing is still under way.
    Progress,
    /// Acknowledge and ask for the next message.
    Next,
    /// Terminate delivery of the message.
    Term,
}

/// The bytes an acknowledgement kind sends on the reply subject.
pub open spec fn ack_payload(kind: AckKind) -> Seq<u8> {
    match kind {
        AckKind::Ack => seq![43u8, 65u8, 67u8, 75u8],
        AckKind::Nak => seq![45u8, 78u8, 65u8, 75u8],
        AckKind::Progress => seq![43u8, 87u8, 80u8, 73u8],
        AckKind::Next => seq![43u8, 78u8, 88u8, 84u8],
        AckKind::Term => seq![43u8, 84u8, 69u8, 82u8, 77u8],
    }
}

impl AckKind {
    /// Writes this kind's acknowledgement bytes.
    pub fn payload(&self) -> (r: Vec<u8>)
        ensures
            r@ == ack_payload(*self),
    {
        let mut out: Vec<u8> = Vec::new();
        match self {
            AckKind::Ack => {
                out.push(43);
                out.push(65);
                out.push(67);
                out.push(75);
            },
            AckKind::Nak => {
                out.push(45);
                out.push(78);
                out.push(65);
                out.push(75);
            },
            AckKind::Progress => {
                out.push(43);
                out.push(87);
                out.push(80);
                out.push(73);
            },
            AckKind::Next => {
                out.push(43);
                out.push(78);
                out.push(88);
                out.push(84);
            },
            AckKind::Term => {
                out.push(43);
                out.push(84);
                out.push(69);
                out.push(82);
                out.push(77);
            },
        }
        proof {
            assert(out@ =~= ack_payload(*self));
        }
        out
    }
}

/// The metadata a stream-managed server encodes into an acknowledgement
/// reply subject. Times are nanoseconds since the epoch; turning them into
/// a calendar value is the caller's business.
pub struct JetStreamMessageInfo {
    /// The domain the message came from, when one was named.
    pub domain: Option<Vec<u8>>,
    /// The hash of the account the message belongs to.
    pub acc_hash: Option<Vec<u8>>,
    /// The stream the message is in.
    pub stream: Vec<u8>,
    /// The consumer the message was delivered to.
    pub consumer: Vec<u8>,
    /// How many times this message was delivered.
    pub delivered: u64,
    /// The message's sequence number in the stream.
    pub stream_seq: u64,
    /// The message's sequence number for the consumer.
    pub consumer_seq: u64,
    /// When the message was published, in nanoseconds since the epoch.
    pub published_nanos: u64,
    /// How many messages are still pending for the consumer.
    pub pending: u64,
    /// A trailing token of newer servers.
    pub token: Option<Vec<u8>>,
}

/// The prefix of an acknowledgement reply subject.
pub open spec fn js_prefix() -> Seq<u8> {
    seq![36u8, 74u8, 83u8, 46u8, 65u8, 67u8, 75u8, 46u8]
}

/// A token of a dot-separated subject: it holds no dot itself.
pub open spec fn no_dot(t: Seq<u8>) -> bool {
    forall|i: int| 0 <= i < t.len() ==> t[i] != 46
}

pub open spec fn all_no_dot(ts: Seq<Seq<u8>>) -> bool {
    forall|i: int| 0 <= i < ts.len() ==> no_dot(#[trigger] ts[i])
}

/// The tokens of a dot-separated subject, joined back together.
pub open spec fn join_dots(ts: Seq<Seq<u8>>) -> Seq<u8>
    decreases ts.len(),
{
    if ts.len() == 0 {
        Seq::empty()
    } else if ts.len() == 1 {
        ts[0]
    } else {
        ts[0] + seq![46u8] + join_dots(ts.skip(1))
    }
}

/// Splitting off one more token extends the joined subject by a dot and
/// that token.
pub proof fn lemma_join_dots_push(ts: Seq<Seq<u8>>, t: Seq<u8>)
    requires
        ts.len() > 0,
    ensures
        join_dots(ts.push(t)) == join_dots(ts) + seq![46u8] + t,
    decreases ts.len(),
{
    if ts.len() == 1 {
        assert(ts.push(t)[0] == ts[0]);
        assert(ts.push(t).skip(1) =~= seq![t]);
        assert(join_dots(ts.push(t)) == ts[0] + seq![46u8] + join_dots(seq![t]));
        assert(join_dots(seq![t]) == t);
    } else {
        assert(ts.push(t)[0] == ts[0]);
        assert(ts.push(t).skip(1) =~= ts.skip(1).push(t));
        lemma_join_dots_push(ts.skip(1), t);
        assert(join_dots(ts.push(t)) =~= join_dots(ts) + seq![46u8] + t);
    }
}

/// Dot-free tokens join to a subject in only one way: two token lists with
/// the same joined subject are the same list.
pub proof fn lemma_join_dots_unique(a: Seq<Seq<u8>>, b: Seq<Seq<u8>>)
    requires
        a.len() >= 1,
        b.len() >= 1,
        all_no_dot(a),
        all_no_dot(b),
        join_dots(a) == join_dots(b),
    ensures
        a == b,
    decreases a.len(),
{
    assert(no_dot(a[0]));
    assert(no_dot(b[0]));
    if a.len() == 1 && b.len() == 1 {
        assert(join_dots(a) == a[0]);
        assert(join_dots(b) == b[0]);
        assert(a =~= b);
    } else if a.len() == 1 {
        assert(join_dots(b) == b[0] + seq![46u8] + join_dots(b.skip(1)));
        assert(join_dots(b)[b[0].len() as int] == 46);
        assert(join_dots(a) == a[0]);
        assert(a[0][b[0].len() as int] != 46);
        assert(false);
    } else if b.len() == 1 {
        assert(join_dots(a) == a[0] + seq![46u8] + join_dots(a.skip(1)));
        assert(join_dots(a)[a[0].len() as int] == 46);
        assert(join_dots(b) == b[0]);
        assert(b[0][a[0].len() as int] != 46);
        assert(false);
    } else {
        assert(join_dots(a) == a[0] + seq![46u8] + join_dots(a.skip(1)));
        assert(join_dots(b) == b[0] + seq![46u8] + join_dots(b.skip(1)));
        assert(join_dots(a)[a[0].len() as int] == 46);
        assert(join_dots(b)[b[0].len() as int] == 46);
        if a[0].len() < b[0].len() {
            assert(join_dots(b)[a[0].len() as int] == b[0][a[0].len() as int]);
            assert(b[0][a[0].len() as int] != 46);
            assert(false);
        }
        if b[0].len() < a[0].len() {
            assert(join_dots(a)[b[0].len() as int] == a[0][b[0].len() as int]);
            assert(a[0][b[0].len() as int] != 46);
            assert(false);
        }
        assert(a[0].len() == b[0].len());
        assert forall|k: int| 0 <= k < a[0].len() implies a[0][k] == b[0][k] by {
            assert(join_dots(a)[k] == a[0][k]);
            assert(join_dots(b)[k] == b[0][k]);
        }
        assert(a[0] =~= b[0]);
        let n0 = a[0].len() as int;
        assert(join_dots(a.skip(1)).len() == join_dots(b.skip(1)).len());
        assert forall|k: int|
            0 <= k < join_dots(a.skip(1)).len() implies join_dots(a.skip(1))[k] == join_dots(
            b.skip(1),
        )[k] by {
            assert(join_dots(a)[n0 + 1 + k] == join_dots(a.skip(1))[k]);
            assert(join_dots(b)[n0 + 1 + k] == join_dots(b.skip(1))[k]);
        }
        assert(join_dots(a.skip(1)) =~= join_dots(b.skip(1)));
        assert(all_no_dot(a.skip(1))) by {
            assert(forall|i: int| 0 <= i < a.skip(1).len() ==> a.skip(1)[i] == a[i + 1]);
        }
        assert(all_no_dot(b.skip(1))) by {
            assert(forall|i: int| 0 <= i < b.skip(1).len() ==> b.skip(1)[i] == b[i + 1]);
        }
        lemma_join_dots_unique(a.skip(1), b.skip(1));
        assert(a.len() == b.len());
        assert forall|i: int| 0 <= i < a.len() implies a[i] == b[i] by {
            if i >= 1 {
                assert(a.skip(1)[i - 1] == a[i]);
                assert(b.skip(1)[i - 1] == b[i]);
            }
        }
        assert(a =~= b);
    }
}

/// The views of a list of tokens.
pub open spec fn tokens_view(ts: Seq<Vec<u8>>) -> Seq<Seq<u8>> {
    ts.map(|i: int, t: Vec<u8>| t@)
}

/// How the metadata corresponds to the tokens of the reply subject after
/// the acknowledgement prefix. Newer servers send ten or more tokens,
/// where a lone underscore means no domain and only the first ten count;
/// older servers send exactly seven.
pub open spec fn info_matches(info: JetStreamMessageInfo, ts: Seq<Seq<u8>>) -> bool {
    if ts.len() >= 10 {
        &&& (ts[0] == seq![95u8] ==> info.domain is None)
        &&& (ts[0] != seq![95u8] ==> info.domain is Some && info.domain->0@ == ts[0])
        &&& info.acc_hash is Some && info.acc_hash->0@ == ts[1]
        &&& info.stream@ == ts[2]
        &&& info.consumer@ == ts[3]
        &&& dec_digits(info.delivered as nat) == ts[4]
        &&& dec_digits(info.stream_seq as nat) == ts[5]
        &&& dec_digits(info.consumer_seq as nat) == ts[6]
        &&& dec_digits(info.published_nanos as nat) == ts[7]
        &&& dec_digits(info.pending as nat) == ts[8]
        &&& info.token is Some && info.token->0@ == ts[9]
    } else if ts.len() == 7 {
        &&& info.domain is None
        &&& info.acc_hash is None
        &&& info.stream@ == ts[0]
        &&& info.consumer@ == ts[1]
        &&& dec_digits(info.delivered as nat) == ts[2]
        &&& dec_digits(info.stream_seq as nat) == ts[3]
        &&& dec_digits(info.consumer_seq as nat) == ts[4]
        &&& dec_digits(info.published_nanos as nat) == ts[5]
        &&& dec_digits(info.pending as nat) == ts[6]
        &&& info.token is None
    } else {
        false
    }
}

/// A canonical number that fits the machine word.
pub open spec fn canon_fits(t: Seq<u8>) -> bool {
    crate::proto::is_canonical_digits(t) && crate::proto::digits_val(t) <= u64::MAX
}

/// Whether a token list has one of the two known shapes with readable
/// numbers at the numeric places.
pub open spec fn js_numeric_ok(ts: Seq<Seq<u8>>) -> bool {
    if ts.len() >= 10 {
        &&& canon_fits(ts[4])
        &&& canon_fits(ts[5])
        &&& canon_fits(ts[6])
        &&& canon_fits(ts[7])
        &&& canon_fits(ts[8])
    } else if ts.len() == 7 {
        &&& canon_fits(ts[2])
        &&& canon_fits(ts[3])
        &&& canon_fits(ts[4])
        &&& canon_fits(ts[5])
        &&& canon_fits(ts[6])
    } else {
        false
    }
}

/// Whether a reply subject is a whole acknowledgement subject carrying
/// exactly these tokens: the prefix, then the tokens joined by dots, in one
/// of the two known shapes with readable numbers.
pub open spec fn js_tokens_at(reply: Option<Vec<u8>>, ts: Seq<Seq<u8>>) -> bool {
    &&& reply is Some
    &&& reply->0@.len() >= 8
    &&& reply->0@.take(8) == js_prefix()
    &&& ts.len() >= 1
    &&& all_no_dot(ts)
    &&& join_dots(ts) == reply->0@.skip(8)
    &&& js_numeric_ok(ts)
}

/// Splits the bytes after `start` at every dot.
fn split_dots(input: &Vec<u8>, start: usize) -> (r: Vec<Vec<u8>>)
    requires
        start <= input@.len(),
    ensures
        r@.len() >= 1,
        all_no_dot(tokens_view(r@)),
        join_dots(tokens_view(r@)) == input@.skip(start as int),
{
    let ilen = input.len();
    let mut out: Vec<Vec<u8>> = Vec::new();
    let mut from = start;
    loop
        invariant
            start <= from <= ilen,
            ilen == input@.len(),
            all_no_dot(tokens_view(out@)),
            out@.len() == 0 ==> from == start,
            out@.len() > 0 ==> from > start && input@[from - 1] == 46 && input@.subrange(
                start as int,
                from - 1,
            ) == join_dots(tokens_view(out@)),
        decreases ilen - from + 1,
    {
        match find_byte(input, from, ilen, 46) {
            Option::Some(d) => {
                let tok = copy_range(input, from, d);
                proof {
                    lemma_tokens_view_push(out@, tok);
                    if out@.len() > 0 {
                        lemma_join_dots_push(tokens_view(out@), tok@);
                        crate::proto::lemma_subrange_split(input@, start as int, from - 1, d as int);
                        assert(input@.subrange(from - 1, d as int) =~= seq![46u8] + tok@);
                        assert(join_dots(tokens_view(out@)) + (seq![46u8] + tok@)
                            =~= join_dots(tokens_view(out@)) + seq![46u8] + tok@);
                    } else {
                        assert(join_dots(tokens_view(out@).push(tok@)) == tok@);
                        assert(input@.subrange(start as int, d as int) == tok@);
                    }
                }
                out.push(tok);
                from = d + 1;
            },
            Option::None => {
                let tok = copy_range(input, from, ilen);
                proof {
                    lemma_tokens_view_push(out@, tok);
                    if out@.len() > 0 {
                        lemma_join_dots_push(tokens_view(out@), tok@);
                        crate::proto::lemma_subrange_split(
                            input@,
                            start as int,
                            from - 1,
                            ilen as int,
                        );
                        assert(input@.subrange(from - 1, ilen as int) =~= seq![46u8] + tok@);
                        assert(join_dots(tokens_view(out@)) + (seq![46u8] + tok@)
                            =~= join_dots(tokens_view(out@)) + seq![46u8] + tok@);
                    } else {
                        assert(join_dots(tokens_view(out@).push(tok@)) == tok@);
                    }
                    assert(input@.subrange(start as int, ilen as int) =~= input@.skip(
                        start as int,
                    ));
                }
                out.push(tok);
                return out;
            },
        }
    }
}

/// Pushing a token onto a list pushes its view onto the views.
proof fn lemma_tokens_view_push(ts: Seq<Vec<u8>>, t: Vec<u8>)
    ensures
        tokens_view(ts.push(t)) == tokens_view(ts).push(t@),
{
    assert(tokens_view(ts.push(t)) =~= tokens_view(ts).push(t@));
}

impl Message {
    /// Reads the stream metadata out of this message's reply subject, when
    /// it is an acknowledgement subject: the prefix, then dot-separated
    /// tokens — ten or more from newer servers, exactly seven from older
    /// ones. Anything else, a count in between, or a number that does not
    /// read back canonically, gives nothing.
    pub fn jetstream_message_info(&self) -> (r: Option<JetStreamMessageInfo>)
        ensures
            self.reply is None ==> r is None,
            match r {
                Option::Some(info) => {
                    &&& self.reply is Some
                    &&& self.reply->0@.len() >= 8
                    &&& self.reply->0@.take(8) == js_prefix()
                    &&& exists|ts: Seq<Seq<u8>>|
                        join_dots(ts) == self.reply->0@.skip(8) && all_no_dot(ts) && #[trigger]
                        info_matches(info, ts)
                },
                Option::None => true,
            },
            forall|ts: Seq<Seq<u8>>|
                #[trigger] js_tokens_at(self.reply, ts) ==> r is Some && info_matches(r->0, ts),
    {
        let rep = match &self.reply {
            Option::Some(rep) => rep,
            Option::None => {
                return Option::None;
            },
        };
        if rep.len() < 8 {
            proof {
                assert forall|ts: Seq<Seq<u8>>| !js_tokens_at(self.reply, ts) by {
                    if js_tokens_at(self.reply, ts) {
                        assert(self.reply->0@.len() >= 8);
                    }
                }
            }
            return Option::None;
        }
        if !(rep[0] == 36 && rep[1] == 74 && rep[2] == 83 && rep[3] == 46 && rep[4] == 65 && rep[5]
            == 67 && rep[6] == 75 && rep[7] == 46) {
            proof {
                assert forall|ts: Seq<Seq<u8>>| !js_tokens_at(self.reply, ts) by {
                    if js_tokens_at(self.reply, ts) {
                        assert forall|k: int|
                            0 <= k < 8 implies self.reply->0@[k] == js_prefix()[k] by {
                            assert(self.reply->0@.take(8)[k] == js_prefix()[k]);
                        }
                        assert(self.reply->0@[0] == 36);
                        assert(self.reply->0@[1] == 74);
                        assert(self.reply->0@[2] == 83);
                        assert(self.reply->0@[3] == 46);
                        assert(self.reply->0@[4] == 65);
                        assert(self.reply->0@[5] == 67);
                        assert(self.reply->0@[6] == 75);
                        assert(self.reply->0@[7] == 46);
                    }
                }
            }
            return Option::None;
        }
        proof {
            assert(rep@.take(8) =~= js_prefix());
        }
        let tokens = split_dots(rep, 8);
        proof {
            // Dot-free tokens join uniquely, so any tokens the subject
            // holds are exactly the split.
            let tv = tokens_view(tokens@);
            assert forall|k: int| 0 <= k < tokens@.len() implies tv[k] == #[trigger] tokens@[k]@
                by {}
            assert forall|k: int|
                0 <= k < tokens@.len() implies #[trigger] tokens@[k]@.subrange(
                0,
                tokens@[k]@.len() as int,
            ) == tokens@[k]@ by {
                assert(tokens@[k]@.subrange(0, tokens@[k]@.len() as int) =~= tokens@[k]@);
            }
            assert forall|ts: Seq<Seq<u8>>|
                js_tokens_at(self.reply, ts) implies ts == tokens_view(tokens@) by {
                lemma_join_dots_unique(ts, tokens_view(tokens@));
            }
        }
        if tokens.len() >= 10 {
            let domain = if tokens[0].len() == 1 && tokens[0][0] == 95 {
                Option::None
            } else {
                Option::Some(copy_range(&tokens[0], 0, tokens[0].len()))
            };
            let acc_hash = Option::Some(copy_range(&tokens[1], 0, tokens[1].len()));
            let stream = copy_range(&tokens[2], 0, tokens[2].len());
            let consumer = copy_range(&tokens[3], 0, tokens[3].len());
            let delivered = match parse_u64_range(&tokens[4], 0, tokens[4].len()) {
                Option::Some(v) => v,
                Option::None => {
                    proof {
                        assert forall|ts: Seq<Seq<u8>>| !js_tokens_at(self.reply, ts) by {
                            if js_tokens_at(self.reply, ts) {
                                assert(ts == tokens_view(tokens@));
                            }
                        }
                    }
                    return Option::None;
                },
            };
            let stream_seq = match parse_u64_range(&tokens[5], 0, tokens[5].len()) {
                Option::Some(v) => v,
                Option::None => {
                    proof {
                        assert forall|ts: Seq<Seq<u8>>| !js_tokens_at(self.reply, ts) by {
                            if js_tokens_at(self.reply, ts) {
                                assert(ts == tokens_view(tokens@));
                            }
                        }
                    }
                    return Option::None;
                },
            };
            let consumer_seq = match parse_u64_range(&tokens[6], 0, tokens[6].len()) {
                Option::Some(v) => v,
                Option::None => {
                    proof {
                        assert forall|ts: Seq<Seq<u8>>| !js_tokens_at(self.reply, ts) by {
                            if js_tokens_at(self.reply, ts) {
                                assert(ts == tokens_view(tokens@));
                            }
                        }
                    }
                    return Option::None;
                },
            };
            let published_nanos = match parse_u64_range(&tokens[7], 0, tokens[7].len()) {
                Option::Some(v) => v,
                Option::None => {
                    proof {
                        assert forall|ts: Seq<Seq<u8>>| !js_tokens_at(self.reply, ts) by {
                            if js_tokens_at(self.reply, ts) {
                                assert(ts == tokens_view(tokens@));
                            }
                        }
                    }
                    return Option::None;
                },
            };
            let pending = match parse_u64_range(&tokens[8], 0, tokens[8].len()) {
                Option::Some(v) => v,
                Option::None => {
                    proof {
                        assert forall|ts: Seq<Seq<u8>>| !js_tokens_at(self.reply, ts) by {
                            if js_tokens_at(self.reply, ts) {
                                assert(ts == tokens_view(tokens@));
                            }
                        }
                    }
                    return Option::None;
                },
            };
            let token = Option::Some(copy_range(&tokens[9], 0, tokens[9].len()));
            let info = JetStreamMessageInfo {
                domain,
                acc_hash,
                stream,
                consumer,
                delivered,
                stream_seq,
                consumer_seq,
                published_nanos,
                pending,
                token,
            };
            proof {
                let ts = tokens_view(tokens@);
                assert(forall|k: int| 0 <= k < tokens@.len() ==> ts[k] == #[trigger] tokens@[k]@);
                assert forall|k: int| 0 <= k < tokens@.len() implies #[trigger] tokens@[k]@.subrange(
                    0,
                    tokens@[k]@.len() as int,
                ) == tokens@[k]@ by {
                    assert(tokens@[k]@.subrange(0, tokens@[k]@.len() as int) =~= tokens@[k]@);
                }
                if tokens@[0]@.len() == 1 && tokens@[0]@[0] == 95 {
                    assert(ts[0] =~= seq![95u8]);
                } else {
                    assert(ts[0] != seq![95u8]);
                }
                assert(info_matches(info, ts));
            }
            Option::Some(info)
        } else if tokens.len() == 7 {
            let stream = copy_range(&tokens[0], 0, tokens[0].len());
            let consumer = copy_range(&tokens[1], 0, tokens[1].len());
            let delivered = match parse_u64_range(&tokens[2], 0, tokens[2].len()) {
                Option::Some(v) => v,
                Option::None => {
                    proof {
                        assert forall|ts: Seq<Seq<u8>>| !js_tokens_at(self.reply, ts) by {
                            if js_tokens_at(self.reply, ts) {
                                assert(ts == tokens_view(tokens@));
                            }
                        }
                    }
                    return Option::None;
                },
            };
            let stream_seq = match parse_u64_range(&tokens[3], 0, tokens[3].len()) {
                Option::Some(v) => v,
                Option::None => {
                    proof {
                        assert forall|ts: Seq<Seq<u8>>| !js_tokens_at(self.reply, ts) by {
                            if js_tokens_at(self.reply, ts) {
                                assert(ts == tokens_view(tokens@));
                            }
                        }
                    }
                    return Option::None;
                },
            };
            let consumer_seq = match parse_u64_range(&tokens[4], 0, tokens[4].len()) {
                Option::Some(v) => v,
                Option::None => {
                    proof {
                        assert forall|ts: Seq<Seq<u8>>| !js_tokens_at(self.reply, ts) by {
                            if js_tokens_at(self.reply, ts) {
                                assert(ts == tokens_view(tokens@));
                            }
                        }
                    }
                    return Option::None;
                },
            };
            let published_nanos = match parse_u64_range(&tokens[5], 0, tokens[5].len()) {
                Option::Some(v) => v,
                Option::None => {
                    proof {
                        assert forall|ts: Seq<Seq<u8>>| !js_tokens_at(self.reply, ts) by {
                            if js_tokens_at(self.reply, ts) {
                                assert(ts == tokens_view(tokens@));
                            }
                        }
                    }
                    return Option::None;
                },
            };
            let pending = match parse_u64_range(&tokens[6], 0, tokens[6].len()) {
                Option::Some(v) => v,
                Option::None => {
                    proof {
                        assert forall|ts: Seq<Seq<u8>>| !js_tokens_at(self.reply, ts) by {
                            if js_tokens_at(self.reply, ts) {
                                assert(ts == tokens_view(tokens@));
                            }
                        }
                    }
                    return Option::None;
                },
            };
            let info = JetStreamMessageInfo {
                domain: Option::None,
                acc_hash: Option::None,
                stream,
                consumer,
                delivered,
                stream_seq,
                consumer_seq,
                published_nanos,
                pending,
                token: Option::None,
            };
            proof {
                let ts = tokens_view(tokens@);
                assert(forall|k: int| 0 <= k < tokens@.len() ==> ts[k] == #[trigger] tokens@[k]@);
                assert forall|k: int| 0 <= k < tokens@.len() implies #[trigger] tokens@[k]@.subrange(
                    0,
                    tokens@[k]@.len() as int,
                ) == tokens@[k]@ by {
                    assert(tokens@[k]@.subrange(0, tokens@[k]@.len() as int) =~= tokens@[k]@);
                }
                assert(info_matches(info, ts));
            }
            Option::Some(info)
        } else {
            proof {
                assert forall|ts: Seq<Seq<u8>>| !js_tokens_at(self.reply, ts) by {
                    if js_tokens_at(self.reply, ts) {
                        assert(ts == tokens_view(tokens@));
                        assert(!js_numeric_ok(ts));
                    }
                }
            }
            Option::None
        }
    }
}

} // verus!
