//! The control protocol between the tunnel's client and server: its seven
//! messages and their binary form.
//!
//! A message is a 32-bit little-endian tag followed by its fields; lists,
//! byte strings and texts are preceded by their length in 64 bits. Bytes that
//! follow a complete message are ignored by the reader.

use crate::wire::{
    holds_at, lemma_holds_at_split, lemma_take_put_blob, lemma_take_put_text, lemma_take_put_texts,
    lemma_take_put_u32, lemma_take_put_u64, put_blob, put_text, put_texts, put_u32, put_u64,
    put_raw, spec_blob, take_blob, take_text, take_texts, take_u32, take_u64, spec_take_blob, spec_take_text,
    spec_take_texts, spec_take_u32, spec_take_u64, spec_text, spec_texts, texts_fit,
};
use vstd::bytes::*;
use vstd::prelude::*;
use vstd::slice::slice_to_vec;
use vstd::utf8::*;

verus! {

/// What the server asks of a client: to serve the connection known as `key`,
/// which was made for `domain`.
#[derive(Debug, Clone, PartialEq, Eq)]
pub struct Request {
    /// The rendezvous key of the waiting connection.
    pub key: Vec<u8>,
    /// The host name that the waiting connection asked for.
    pub domain: String,
}

impl Request {
    pub fn new(key: Vec<u8>, domain: String) -> (r: Self)
        ensures
            r.key == key,
            r.domain == domain,
    {
        Self { key, domain }
    }
}

/// A message of the control protocol.
#[derive(Debug, Clone, PartialEq, Eq)]
pub enum Protocol {
    /// A client announces the host names it serves.
    Register { domains: Vec<String> },
    /// The server accepted the registration.
    Accepted,
    /// The server refused the registration.
    Error,
    /// The server asks the client to serve a waiting connection.
    Request(Request),
    /// First message on a fresh connection: this connection serves `key`.
    Response { key: Vec<u8> },
    Ping,
    Pong,
}

/// A message as a mathematical value.
pub enum Message {
    Register { domains: Seq<Seq<char>> },
    Accepted,
    Error,
    Request { key: Seq<u8>, domain: Seq<char> },
    Response { key: Seq<u8> },
    Ping,
    Pong,
}

impl View for Protocol {
    type V = Message;

    open spec fn view(&self) -> Message {
        match self {
            Protocol::Register { domains } => Message::Register { domains: domains.deep_view() },
            Protocol::Accepted => Message::Accepted,
            Protocol::Error => Message::Error,
            Protocol::Request(r) => Message::Request { key: r.key@, domain: r.domain@ },
            Protocol::Response { key } => Message::Response { key: key@ },
            Protocol::Ping => Message::Ping,
            Protocol::Pong => Message::Pong,
        }
    }
}

pub const TAG_REGISTER: u32 = 0;

pub const TAG_ACCEPTED: u32 = 1;

pub const TAG_ERROR: u32 = 2;

pub const TAG_REQUEST: u32 = 3;

pub const TAG_RESPONSE: u32 = 4;

pub const TAG_PING: u32 = 5;

pub const TAG_PONG: u32 = 6;

/// The binary form of a message.
pub open spec fn spec_encode(m: Message) -> Seq<u8> {
    match m {
        Message::Register { domains } => spec_u32_to_le_bytes(TAG_REGISTER) + (
        spec_u64_to_le_bytes(domains.len() as u64) + spec_texts(domains)),
        Message::Accepted => spec_u32_to_le_bytes(TAG_ACCEPTED),
        Message::Error => spec_u32_to_le_bytes(TAG_ERROR),
        Message::Request { key, domain } => spec_u32_to_le_bytes(TAG_REQUEST) + (spec_blob(key)
            + spec_text(domain)),
        Message::Response { key } => spec_u32_to_le_bytes(TAG_RESPONSE) + spec_blob(key),
        Message::Ping => spec_u32_to_le_bytes(TAG_PING),
        Message::Pong => spec_u32_to_le_bytes(TAG_PONG),
    }
}

/// The message that `b` starts with, if it starts with one.
pub open spec fn spec_decode(b: Seq<u8>) -> Option<Message> {
    match spec_take_u32(b, 0) {
        Some((tag, at)) => {
            if tag == TAG_REGISTER {
                match spec_take_u64(b, at) {
                    Some((n, from)) => match spec_take_texts(b, from, n as nat) {
                        Some((domains, _)) => Some(Message::Register { domains }),
                        None => None,
                    },
                    None => None,
                }
            } else if tag == TAG_ACCEPTED {
                Some(Message::Accepted)
            } else if tag == TAG_ERROR {
                Some(Message::Error)
            } else if tag == TAG_REQUEST {
                match spec_take_blob(b, at) {
                    Some((key, from)) => match spec_take_text(b, from) {
                        Some((domain, _)) => Some(Message::Request { key, domain }),
                        None => None,
                    },
                    None => None,
                }
            } else if tag == TAG_RESPONSE {
                match spec_take_blob(b, at) {
                    Some((key, _)) => Some(Message::Response { key }),
                    None => None,
                }
            } else if tag == TAG_PING {
                Some(Message::Ping)
            } else if tag == TAG_PONG {
                Some(Message::Pong)
            } else {
                None
            }
        },
        None => None,
    }
}

/// Whether every length in `m` fits the 64-bit field that carries it.
pub open spec fn lengths_fit(m: Message) -> bool {
    match m {
        Message::Register { domains } => domains.len() <= u64::MAX && texts_fit(domains),
        Message::Request { key, domain } => key.len() <= u64::MAX && encode_utf8(domain).len()
            <= u64::MAX,
        Message::Response { key } => key.len() <= u64::MAX,
        _ => true,
    }
}

/// Decoding undoes encoding: the binary form of a message, with whatever
/// follows it, is read back as that message.
pub proof fn lemma_decode_encode(m: Message, rest: Seq<u8>)
    requires
        lengths_fit(m),
    ensures
        spec_decode(spec_encode(m) + rest) == Some(m),
{
    let b = spec_encode(m) + rest;
    lemma_auto_spec_u32_to_from_le_bytes();
    lemma_auto_spec_u64_to_from_le_bytes();
    assert(holds_at(b, 0, spec_encode(m))) by {
        assert(b.subrange(0, spec_encode(m).len() as int) == spec_encode(m));
    }
    match m {
        Message::Register { domains } => {
            let count = spec_u64_to_le_bytes(domains.len() as u64);
            lemma_holds_at_split(b, 0, spec_u32_to_le_bytes(TAG_REGISTER), count + spec_texts(domains));
            lemma_take_put_u32(b, 0, TAG_REGISTER);
            lemma_holds_at_split(b, 4, count, spec_texts(domains));
            lemma_take_put_u64(b, 4, domains.len() as u64);
            lemma_take_put_texts(b, 12, domains);
        },
        Message::Request { key, domain } => {
            lemma_holds_at_split(
                b,
                0,
                spec_u32_to_le_bytes(TAG_REQUEST),
                spec_blob(key) + spec_text(domain),
            );
            lemma_take_put_u32(b, 0, TAG_REQUEST);
            lemma_holds_at_split(b, 4, spec_blob(key), spec_text(domain));
            lemma_take_put_blob(b, 4, key);
            lemma_take_put_text(b, 12 + key.len() as int, domain);
        },
        Message::Response { key } => {
            lemma_holds_at_split(b, 0, spec_u32_to_le_bytes(TAG_RESPONSE), spec_blob(key));
            lemma_take_put_u32(b, 0, TAG_RESPONSE);
            lemma_take_put_blob(b, 4, key);
        },
        Message::Accepted => {
            lemma_take_put_u32(b, 0, TAG_ACCEPTED);
        },
        Message::Error => {
            lemma_take_put_u32(b, 0, TAG_ERROR);
        },
        Message::Ping => {
            lemma_take_put_u32(b, 0, TAG_PING);
        },
        Message::Pong => {
            lemma_take_put_u32(b, 0, TAG_PONG);
        },
    }
}

impl Protocol {
    /// The binary form of the message.
    pub fn encode(&self) -> (bytes: Vec<u8>)
        ensures
            bytes@ == spec_encode(self@),
    {
        let mut out: Vec<u8> = Vec::new();
        match self {
            Protocol::Register { domains } => {
                put_u32(&mut out, TAG_REGISTER);
                put_u64(&mut out, domains.len() as u64);
                put_texts(&mut out, domains);
                assert(out@ == spec_encode(self@));
            },
            Protocol::Accepted => {
                put_u32(&mut out, TAG_ACCEPTED);
            },
            Protocol::Error => {
                put_u32(&mut out, TAG_ERROR);
            },
            Protocol::Request(r) => {
                put_u32(&mut out, TAG_REQUEST);
                put_blob(&mut out, r.key.as_slice());
                put_text(&mut out, r.domain.as_str());
                assert(out@ == spec_encode(self@));
            },
            Protocol::Response { key } => {
                put_u32(&mut out, TAG_RESPONSE);
                put_blob(&mut out, key.as_slice());
            },
            Protocol::Ping => {
                put_u32(&mut out, TAG_PING);
            },
            Protocol::Pong => {
                put_u32(&mut out, TAG_PONG);
            },
        }
        out
    }

    /// Reads the message that `b` starts with. There is none where the tag is
    /// not one of the seven, where `b` ends before the message does, or where
    /// a text is not UTF-8.
    pub fn decode(b: &[u8]) -> (r: Option<Protocol>)
        ensures
            match r {
                Some(m) => spec_decode(b@) == Some(m@),
                None => spec_decode(b@).is_none(),
            },
    {
        let (tag, at) = match take_u32(b, 0) {
            Some(x) => x,
            None => {
                return None;
            },
        };
        if tag == TAG_REGISTER {
            match take_u64(b, at) {
                Some((n, from)) => match take_texts(b, from, n) {
                    Some((domains, _)) => Some(Protocol::Register { domains }),
                    None => None,
                },
                None => None,
            }
        } else if tag == TAG_ACCEPTED {
            Some(Protocol::Accepted)
        } else if tag == TAG_ERROR {
            Some(Protocol::Error)
        } else if tag == TAG_REQUEST {
            match take_blob(b, at) {
                Some((key, from)) => match take_text(b, from) {
                    Some((domain, _)) => Some(Protocol::Request(Request { key: slice_to_vec(key), domain })),
                    None => None,
                },
                None => None,
            }
        } else if tag == TAG_RESPONSE {
            match take_blob(b, at) {
                Some((key, _)) => Some(Protocol::Response { key: slice_to_vec(key) }),
                None => None,
            }
        } else if tag == TAG_PING {
            Some(Protocol::Ping)
        } else if tag == TAG_PONG {
            Some(Protocol::Pong)
        } else {
            None
        }
    }
}

/// The largest payload that the two length bytes of a frame can announce.
pub const MAX_PAYLOAD: usize = 65535;

/// The payload length that the two bytes of a frame's head announce: a
/// 16-bit integer, high byte first.
pub open spec fn spec_head_len(hi: u8, lo: u8) -> int {
    hi * 256 + lo
}

/// A frame: the payload's length in two bytes, high byte first, then the
/// payload.
pub open spec fn spec_frame(payload: Seq<u8>) -> Seq<u8> {
    seq![(payload.len() / 256) as u8, (payload.len() % 256) as u8] + payload
}

/// Puts `payload` in a frame. A sender never lets a frame reach 65535 bytes.
pub fn frame(payload: &[u8]) -> (bytes: Vec<u8>)
    requires
        payload@.len() + 2 < 65535,
    ensures
        bytes@ == spec_frame(payload@),
{
    let len = payload.len();
    let mut out: Vec<u8> = Vec::with_capacity(len + 2);
    out.push((len / 256) as u8);
    out.push((len % 256) as u8);
    put_raw(&mut out, payload);
    out
}

/// Where a receiver stands within the frame that is arriving.
pub enum State {
    /// In the two bytes of the length: `read` of them are in `head`.
    ReadLen { head: [u8; 2], read: usize },
    /// In the payload, which has `len` bytes: those in `buf` have arrived.
    ReadPayload { buf: Vec<u8>, len: usize },
}

impl State {
    /// The bytes of the arriving frame that have been taken in.
    pub open spec fn pending(self) -> Seq<u8> {
        match self {
            State::ReadLen { head, read } => head@.subrange(0, read as int),
            State::ReadPayload { buf, len } => seq![(len / 256) as u8, (len % 256) as u8] + buf@,
        }
    }

    /// A state is sound when it awaits at least one byte more.
    pub open spec fn wf(self) -> bool {
        match self {
            State::ReadLen { head, read } => read < 2,
            State::ReadPayload { buf, len } => buf@.len() < len <= MAX_PAYLOAD,
        }
    }

    /// The state before the first byte of a frame.
    pub fn new() -> (s: Self)
        ensures
            s.wf(),
            s.pending() == Seq::<u8>::empty(),
    {
        State::ReadLen { head: [0, 0], read: 0 }
    }
}

/// How many bytes the receiver awaits after `pending`: the rest of the
/// length, or else the rest of the payload.
pub open spec fn spec_wanted(pending: Seq<u8>) -> int {
    if pending.len() < 2 {
        2 - pending.len()
    } else {
        2 + spec_head_len(pending[0], pending[1]) - pending.len()
    }
}

/// What taking in some bytes leads to.
pub enum Outcome {
    /// The frame is not complete yet.
    More,
    /// A frame is complete and holds this message.
    Frame(Message),
    /// The stream ended between two frames.
    End,
    /// The stream ended within a frame.
    UnexpectedEof,
    /// A frame is complete and holds no message.
    Malformed,
}

/// The step of a receiver that holds `pending` and is handed `data`, the
/// result of one read: an empty `data` says that the stream has ended.
/// Gives the bytes held afterwards, and the outcome.
pub open spec fn spec_recv(pending: Seq<u8>, data: Seq<u8>) -> (Seq<u8>, Outcome) {
    let all = pending + data;
    if data.len() == 0 {
        (
            pending,
            if pending.len() == 0 {
                Outcome::End
            } else {
                Outcome::UnexpectedEof
            },
        )
    } else if all.len() < 2 || all.len() < 2 + spec_head_len(all[0], all[1]) {
        (all, Outcome::More)
    } else {
        (
            Seq::empty(),
            match spec_decode(all.subrange(2, all.len() as int)) {
                Some(m) => Outcome::Frame(m),
                None => Outcome::Malformed,
            },
        )
    }
}

/// What a receiver reports of a read that went well.
#[derive(Debug, Clone, PartialEq, Eq)]
pub enum Progress {
    /// The frame is not complete yet: read again.
    More,
    /// A message has arrived.
    Frame(Protocol),
    /// The stream ended between two frames.
    End,
}

/// Why a receiver gives up on a stream.
#[derive(Debug, Clone, Copy, PartialEq, Eq)]
pub enum FrameError {
    /// The stream ended within a frame.
    UnexpectedEof,
    /// A frame was complete and held no message.
    Malformed,
}

/// The outcome that a receiver's report stands for.
pub open spec fn spec_report(r: Result<Progress, FrameError>) -> Outcome {
    match r {
        Ok(Progress::More) => Outcome::More,
        Ok(Progress::Frame(m)) => Outcome::Frame(m@),
        Ok(Progress::End) => Outcome::End,
        Err(FrameError::UnexpectedEof) => Outcome::UnexpectedEof,
        Err(FrameError::Malformed) => Outcome::Malformed,
    }
}

/// Takes the frames of a stream in, read by read. It keeps what has arrived
/// of a frame, so a caller may stop between two reads and go on later.
pub struct Receiver {
    state: State,
}

impl Receiver {
    #[verifier::type_invariant]
    spec fn inv(self) -> bool {
        self.state.wf()
    }

    /// The bytes of the arriving frame that have been taken in.
    pub closed spec fn pending(self) -> Seq<u8> {
        self.state.pending()
    }

    pub fn new() -> (r: Self)
        ensures
            r.pending() == Seq::<u8>::empty(),
    {
        Self { state: State::new() }
    }

    /// How many bytes the next read may bring at most: never none.
    pub fn wanted(&self) -> (n: usize)
        ensures
            n == spec_wanted(self.pending()),
            1 <= n <= MAX_PAYLOAD,
    {
        proof {
            use_type_invariant(self);
        }
        match &self.state {
            State::ReadLen { head, read } => 2 - *read,
            State::ReadPayload { buf, len } => {
                proof {
                    lemma_head_len(*len);
                }
                *len - buf.len()
            },
        }
    }

    /// Takes in `data`, the bytes that one read has brought; none say that
    /// the stream has ended.
    pub fn recv(&mut self, data: &[u8]) -> (r: Result<Progress, FrameError>)
        requires
            data@.len() <= spec_wanted(old(self).pending()),
        ensures
            final(self).pending() == spec_recv(old(self).pending(), data@).0,
            spec_report(r) == spec_recv(old(self).pending(), data@).1,
    {
        proof {
            use_type_invariant(&*self);
        }
        let ghost before = self.state.pending();
        let mut state = State::new();
        core::mem::swap(&mut self.state, &mut state);
        match state {
            State::ReadLen { head, read } => {
                if data.len() == 0 {
                    self.state = State::ReadLen { head, read };
                    if read == 0 {
                        Ok(Progress::End)
                    } else {
                        Err(FrameError::UnexpectedEof)
                    }
                } else if read + data.len() < 2 {
                    self.state = State::ReadLen { head: [data[0], 0], read: 1 };
                    assert(self.state.pending() == before + data@);
                    Ok(Progress::More)
                } else {
                    let hi = if read == 0 {
                        data[0]
                    } else {
                        head[0]
                    };
                    let lo = if read == 0 {
                        data[1]
                    } else {
                        data[0]
                    };
                    let len = hi as usize * 256 + lo as usize;
                    let ghost all = before + data@;
                    assert(all == seq![hi, lo]);
                    if len == 0 {
                        assert(all.subrange(2, all.len() as int) == Seq::<u8>::empty());
                        Err(FrameError::Malformed)
                    } else {
                        proof {
                            lemma_head_len(len);
                        }
                        self.state = State::ReadPayload { buf: Vec::with_capacity(len), len };
                        assert(self.state.pending() == all);
                        Ok(Progress::More)
                    }
                }
            },
            State::ReadPayload { buf, len } => {
                let mut buf = buf;
                proof {
                    lemma_head_len(len);
                }
                let ghost head = seq![(len / 256) as u8, (len % 256) as u8];
                if data.len() == 0 {
                    self.state = State::ReadPayload { buf, len };
                    Err(FrameError::UnexpectedEof)
                } else {
                    put_raw(&mut buf, data);
                    let ghost all = before + data@;
                    assert(all == head + buf@);
                    if buf.len() == len {
                        assert(all.subrange(2, all.len() as int) == buf@);
                        match Protocol::decode(buf.as_slice()) {
                            Some(m) => Ok(Progress::Frame(m)),
                            None => Err(FrameError::Malformed),
                        }
                    } else {
                        self.state = State::ReadPayload { buf, len };
                        Ok(Progress::More)
                    }
                }
            },
        }
    }
}

/// The two bytes of a head announce the length they were made from.
proof fn lemma_head_len(len: usize)
    requires
        len <= MAX_PAYLOAD,
    ensures
        spec_head_len((len / 256) as u8, (len % 256) as u8) == len,
{
}

/// What handing a receiver several reads in turn leads to: the outcome of
/// the first read that is not `More`, or of the last one.
pub open spec fn spec_recv_all(pending: Seq<u8>, reads: Seq<Seq<u8>>) -> (Seq<u8>, Outcome)
    decreases reads.len(),
{
    if reads.len() == 0 {
        (pending, Outcome::More)
    } else {
        let step = spec_recv(pending, reads[0]);
        if reads.len() == 1 || step.1 != Outcome::More {
            step
        } else {
            spec_recv_all(step.0, reads.drop_first())
        }
    }
}

/// The bytes of several reads, joined in their order.
pub open spec fn spec_join(reads: Seq<Seq<u8>>) -> Seq<u8>
    decreases reads.len(),
{
    if reads.len() == 0 {
        Seq::empty()
    } else {
        reads[0] + spec_join(reads.drop_first())
    }
}

/// A frame that arrives in two pieces is the frame that was sent: a receiver
/// that holds the first `i` bytes of the frame of `m` and is handed the bytes
/// up to `j` reports `m` if the frame ends there, and else holds the first `j`
/// bytes and awaits more. With `i` at 0 and `j` at the end, a frame that
/// arrives whole is read as its message.
pub proof fn lemma_recv_resumes(m: Message, i: int, j: int)
    requires
        lengths_fit(m),
        spec_encode(m).len() <= MAX_PAYLOAD,
        0 <= i < j <= spec_frame(spec_encode(m)).len(),
    ensures
        spec_recv(
            spec_frame(spec_encode(m)).subrange(0, i),
            spec_frame(spec_encode(m)).subrange(i, j),
        ) == if j == spec_frame(spec_encode(m)).len() {
            (Seq::<u8>::empty(), Outcome::Frame(m))
        } else {
            (spec_frame(spec_encode(m)).subrange(0, j), Outcome::More)
        },
{
    let payload = spec_encode(m);
    let f = spec_frame(payload);
    let all = f.subrange(0, i) + f.subrange(i, j);
    assert(all == f.subrange(0, j));
    if j >= 2 {
        lemma_head_len(payload.len() as usize);
        assert(all[0] == (payload.len() / 256) as u8);
        assert(all[1] == (payload.len() % 256) as u8);
        if j == f.len() {
            assert(all.subrange(2, all.len() as int) == payload);
            lemma_decode_encode(m, Seq::empty());
            assert(payload + Seq::<u8>::empty() == payload);
        }
    }
}

/// However the stream cuts a frame into reads, the receiver reports the
/// message that was sent, at the last read and not before: a receiver that
/// holds the first `i` bytes of the frame of `m`, and is handed the rest in
/// any number of reads, none of them empty, ends with `m` and holds nothing.
pub proof fn lemma_recv_any_cut(m: Message, i: int, reads: Seq<Seq<u8>>)
    requires
        lengths_fit(m),
        spec_encode(m).len() <= MAX_PAYLOAD,
        0 <= i < spec_frame(spec_encode(m)).len(),
        forall|k: int| 0 <= k < reads.len() ==> (#[trigger] reads[k]).len() > 0,
        spec_join(reads) == spec_frame(spec_encode(m)).subrange(
            i,
            spec_frame(spec_encode(m)).len() as int,
        ),
    ensures
        spec_recv_all(spec_frame(spec_encode(m)).subrange(0, i), reads) == (
            Seq::<u8>::empty(),
            Outcome::Frame(m),
        ),
    decreases reads.len(),
{
    let f = spec_frame(spec_encode(m));
    let tail = f.subrange(i, f.len() as int);
    if reads.len() == 0 {
        assert(tail.len() > 0);
    } else {
        let rest = reads.drop_first();
        let j = i + reads[0].len();
        assert(tail == reads[0] + spec_join(rest));
        assert(reads[0] == tail.subrange(0, reads[0].len() as int));
        assert(reads[0] == f.subrange(i, j));
        lemma_recv_resumes(m, i, j);
        if rest.len() == 0 {
            assert(spec_join(rest).len() == 0);
        } else {
            assert(rest[0].len() > 0);
            assert(spec_join(rest) == rest[0] + spec_join(rest.drop_first()));
            assert(spec_join(rest) == tail.subrange(reads[0].len() as int, tail.len() as int));
            assert(spec_join(rest) == f.subrange(j, f.len() as int));
            assert forall|k: int| 0 <= k < rest.len() implies (#[trigger] rest[k]).len() > 0 by {
                assert(rest[k] == reads[k + 1]);
            }
            lemma_recv_any_cut(m, j, rest);
        }
    }
}

} // verus!
