//! What goes over the wire: requests and responses, each as the payload of a
//! frame that is prefixed by its length.
use bytes::{BufMut, BytesMut};
use vstd::prelude::*;

use crate::door::{door_procedure, key_parts, reply_of, request_in};
use crate::key::Key;
use crate::natural::be_value;
use crate::text::{decimal, lemma_decimal_reads_back, numeral_value, usize_text};

verus! {

/// The most bytes that the payload of a frame may have when it is read.
pub const MAX_PAYLOAD: usize = 16 * 1024 * 1024;

/// How many bytes the length in front of a payload takes.
pub const HEADER_LEN: usize = 4;

/// A call of a door.
#[derive(Clone, Debug)]
pub struct DoorRequest {
    /// The argument of the call.
    pub data: String,
}

/// What a door returned.
#[derive(Clone, Debug)]
pub struct DoorResponse {
    /// The result of the call.
    pub data: String,
    /// What went wrong, if anything did.
    pub error: Option<String>,
}

/// Where the reading of a frame stands.
#[derive(Clone, Copy, Debug)]
pub enum FrameReader {
    /// The length is read next.
    Header,
    /// The payload is read next.
    Body {
        /// How many bytes it has.
        len: usize,
    },
}

/// What the bytes that were read make of a frame.
#[derive(Debug)]
pub enum Fed {
    /// There is more to read.
    More(FrameReader),
    /// The payload is complete.
    Payload(Vec<u8>),
    /// The payload would have this many bytes, which is too many.
    TooLarge(usize),
}

/// The model of `Fed`.
pub enum FedView {
    /// There is more to read.
    More(FrameReader),
    /// The payload is complete.
    Payload(Seq<u8>),
    /// The payload would have this many bytes, which is too many.
    TooLarge(nat),
}

/// What the bytes of a stream hold where a frame begins.
pub enum FrameView {
    /// A payload, and what follows the frame.
    Payload(Seq<u8>, Seq<u8>),
    /// A payload of this many bytes, which is too many.
    TooLarge(nat),
    /// Not yet a whole frame.
    Incomplete,
}

/// The model of a `DoorResponse`.
pub struct ResponseView {
    /// The result of the call.
    pub data: Seq<char>,
    /// What went wrong, if anything did.
    pub error: Option<Seq<char>>,
}

impl View for DoorResponse {
    type V = ResponseView;

    open spec fn view(&self) -> ResponseView {
        ResponseView {
            data: self.data@,
            error: match self.error {
                Some(error) => Some(error@),
                None => None,
            },
        }
    }
}

impl View for Fed {
    type V = FedView;

    open spec fn view(&self) -> FedView {
        match self {
            Fed::More(next) => FedView::More(*next),
            Fed::Payload(payload) => FedView::Payload(payload@),
            Fed::TooLarge(len) => FedView::TooLarge(*len as nat),
        }
    }
}

/// The four big-endian bytes of `n`.
pub open spec fn u32_bytes(n: u32) -> Seq<u8> {
    seq![
        (n / 0x1000000) as u8,
        (n / 0x10000 % 0x100) as u8,
        (n / 0x100 % 0x100) as u8,
        (n % 0x100) as u8,
    ]
}

/// A payload with its length in front. The length is kept in 32 bits: of a larger
/// one the low 32 bits remain.
pub open spec fn frame_of(payload: Seq<u8>) -> Seq<u8> {
    u32_bytes((payload.len() % 0x1_0000_0000) as u32) + payload
}

/// How many bytes the reading of a frame goes on with.
pub open spec fn wanted(state: FrameReader) -> nat {
    match state {
        FrameReader::Header => HEADER_LEN as nat,
        FrameReader::Body { len } => len as nat,
    }
}

/// What the bytes that were wanted make of a frame.
pub open spec fn fed(state: FrameReader, bytes: Seq<u8>) -> FedView {
    match state {
        FrameReader::Header => if be_value(bytes) > MAX_PAYLOAD {
            FedView::TooLarge(be_value(bytes))
        } else {
            FedView::More(FrameReader::Body { len: be_value(bytes) as usize })
        },
        FrameReader::Body { .. } => FedView::Payload(bytes),
    }
}

/// What a reader that stands at `state` makes of the bytes of a stream.
pub open spec fn read_on(state: FrameReader, stream: Seq<u8>) -> FrameView
    decreases
        (match state {
            FrameReader::Header => 1nat,
            FrameReader::Body { .. } => 0nat,
        }),
{
    if stream.len() < wanted(state) {
        FrameView::Incomplete
    } else {
        let rest = stream.skip(wanted(state) as int);
        match (state, fed(state, stream.take(wanted(state) as int))) {
            (FrameReader::Header, FedView::More(FrameReader::Body { len })) => read_on(
                FrameReader::Body { len },
                rest,
            ),
            (_, FedView::Payload(payload)) => FrameView::Payload(payload, rest),
            (_, FedView::TooLarge(len)) => FrameView::TooLarge(len),
            _ => FrameView::Incomplete,
        }
    }
}

/// `bytes::BytesMut`, a growing buffer of bytes.
#[verifier::external_type_specification]
#[verifier::external_body]
pub struct ExBytesMut(BytesMut);

/// The bytes that a `BytesMut` holds, from the first to the last.
pub uninterp spec fn buffered(buf: BytesMut) -> Seq<u8>;

/// `BytesMut::with_capacity` gives an empty buffer. It panics where the capacity
/// is more than `isize::MAX`.
pub assume_specification[ BytesMut::with_capacity ](capacity: usize) -> (buf: BytesMut)
    requires
        capacity <= isize::MAX,
    ensures
        buffered(buf) == Seq::<u8>::empty(),
;

/// `BytesMut::extend_from_slice` appends the bytes. It panics where the buffer
/// would have to hold more than `isize::MAX` bytes.
pub assume_specification[ BytesMut::extend_from_slice ](buf: &mut BytesMut, extend: &[u8])
    requires
        buffered(*old(buf)).len() + extend@.len() <= isize::MAX,
    ensures
        buffered(*final(buf)) == buffered(*old(buf)) + extend@,
;

/// `put_u32` of `BufMut` appends the four big-endian bytes of a number to a
/// `BytesMut`. It panics where there is no room for them.
#[verifier::external_body]
fn put_u32(buf: &mut BytesMut, n: u32)
    requires
        buffered(*old(buf)).len() + 4 <= isize::MAX,
    ensures
        buffered(*final(buf)) == buffered(*old(buf)) + u32_bytes(n),
{
    buf.put_u32(n);
}

/// A `BytesMut` is read as the slice of the bytes that it holds, which `to_vec`
/// copies.
#[verifier::external_body]
fn buffered_bytes(buf: &BytesMut) -> (r: Vec<u8>)
    ensures
        r@ == buffered(*buf),
{
    buf.to_vec()
}

/// The number that the four bytes of a header stand for.
fn header_value(bytes: &[u8]) -> (r: u32)
    requires
        bytes@.len() == HEADER_LEN,
    ensures
        r as nat == be_value(bytes@),
{
    proof {
        lemma_four_bytes(bytes@);
    }
    ((bytes[0] as u32 * 256 + bytes[1] as u32) * 256 + bytes[2] as u32) * 256 + bytes[3] as u32
}

/// Puts the length in front of a payload.
pub fn frame(payload: &[u8]) -> (r: Vec<u8>)
    requires
        HEADER_LEN + payload@.len() <= isize::MAX,
    ensures
        r@ == frame_of(payload@),
{
    let len: usize = payload.len();
    let mut buf = BytesMut::with_capacity(HEADER_LEN + len);
    assert((len as u32) as int == len as int % 0x1_0000_0000) by (bit_vector);
    put_u32(&mut buf, #[verifier::truncate] (len as u32));
    buf.extend_from_slice(payload);
    assert(buffered(buf) =~= frame_of(payload@));
    buffered_bytes(&buf)
}

impl FrameReader {
    /// How many bytes to read next.
    pub fn wants(&self) -> (r: usize)
        ensures
            r as nat == wanted(*self),
    {
        match self {
            FrameReader::Header => HEADER_LEN,
            FrameReader::Body { len } => *len,
        }
    }

    /// Takes the bytes that were wanted.
    pub fn feed(self, bytes: Vec<u8>) -> (r: Fed)
        requires
            bytes@.len() == wanted(self),
        ensures
            r@ == fed(self, bytes@),
            match (self, r) {
                (FrameReader::Header, Fed::More(FrameReader::Body { len })) => len as nat
                    == be_value(bytes@) && len <= MAX_PAYLOAD,
                (FrameReader::Header, Fed::TooLarge(len)) => len as nat == be_value(bytes@) && len
                    > MAX_PAYLOAD,
                (FrameReader::Body { .. }, Fed::Payload(payload)) => payload@ == bytes@,
                _ => false,
            },
    {
        match self {
            FrameReader::Header => {
                let len: usize = header_value(bytes.as_slice()) as usize;
                if len > MAX_PAYLOAD {
                    Fed::TooLarge(len)
                } else {
                    Fed::More(FrameReader::Body { len })
                }
            },
            FrameReader::Body { .. } => Fed::Payload(bytes),
        }
    }
}

/// The words for a payload of `len` bytes, which is too large.
pub open spec fn too_large_text(len: nat) -> Seq<char> {
    "message too large: "@ + decimal(len)
}

/// The words for a payload that is too large.
pub fn too_large_message(len: usize) -> (r: String)
    ensures
        r@ == "message too large: "@ + decimal(len as nat),
        r@ == too_large_text(len as nat),
{
    let mut s = String::new();
    s.append("message too large: ");
    s.append(usize_text(len).as_str());
    assert(s@ =~= "message too large: "@ + decimal(len as nat));
    s
}

/// The response of a door with this key, or without, to a call.
pub open spec fn response_to(key: Option<(nat, usize)>, args: Seq<char>) -> ResponseView {
    ResponseView { data: reply_of(key, args), error: None }
}

/// What the caller makes of a response: the result, or what went wrong.
pub open spec fn outcome_of(response: ResponseView) -> Result<Seq<char>, Seq<char>> {
    match response.error {
        Some(error) => Err("door error: "@ + error),
        None => Ok(response.data),
    }
}

/// Answers a call of a door.
pub fn handle_request(key: Option<&Key>, request: &DoorRequest) -> (r: DoorResponse)
    requires
        key matches Some(k) ==> k.wf() && (request_in(request.data@) is Answer ==> k.bits
            <= isize::MAX),
    ensures
        r.data@ == reply_of(key_parts(key), request.data@),
        r.error is None,
        r@ == response_to(key_parts(key), request.data@),
{
    DoorResponse { data: door_procedure(key, request.data.as_str()), error: None }
}

impl DoorResponse {
    /// The result of the call, or what went wrong.
    pub fn outcome(self) -> (r: Result<String, String>)
        ensures
            match (self.error, r) {
                (None, Ok(data)) => data@ == self.data@,
                (Some(error), Err(message)) => message@ == "door error: "@ + error@,
                _ => false,
            },
            match r {
                Ok(data) => outcome_of(self@) == Ok::<Seq<char>, Seq<char>>(data@),
                Err(message) => outcome_of(self@) == Err::<Seq<char>, Seq<char>>(message@),
            },
    {
        match self.error {
            Some(error) => {
                let mut message = String::new();
                message.append("door error: ");
                message.append(error.as_str());
                assert(message@ =~= "door error: "@ + error@);
                Err(message)
            },
            None => Ok(self.data),
        }
    }
}

/// A payload of up to `MAX_PAYLOAD` bytes that was framed is read back, and the
/// reader stops where the frame ends. One that is larger, and whose length has 32
/// bits, is refused.
pub proof fn law_frame_reads_back(payload: Seq<u8>, rest: Seq<u8>)
    requires
        payload.len() < 0x1_0000_0000,
    ensures
        read_on(FrameReader::Header, frame_of(payload) + rest) == if payload.len() <= MAX_PAYLOAD {
            FrameView::Payload(payload, rest)
        } else {
            FrameView::TooLarge(payload.len())
        },
{
    let stream = frame_of(payload) + rest;
    let n = payload.len() as u32;
    lemma_u32_bytes_value(n);
    assert(stream.take(4) =~= u32_bytes(n));
    assert(stream.skip(4) =~= payload + rest);
    reveal_with_fuel(read_on, 2);
    if payload.len() <= MAX_PAYLOAD {
        let body = payload + rest;
        assert(body.take(payload.len() as int) =~= payload);
        assert(body.skip(payload.len() as int) =~= rest);
    }
}

proof fn lemma_u32_bytes_value(n: u32)
    ensures
        be_value(u32_bytes(n)) == n,
{
    lemma_four_bytes(u32_bytes(n));
}

proof fn lemma_four_bytes(s: Seq<u8>)
    requires
        s.len() == 4,
    ensures
        be_value(s) == ((s[0] * 256 + s[1]) * 256 + s[2]) * 256 + s[3],
{
    reveal_with_fuel(be_value, 5);
    assert(s.drop_last() =~= seq![s[0], s[1], s[2]]);
    assert(s.drop_last().drop_last() =~= seq![s[0], s[1]]);
    assert(s.drop_last().drop_last().drop_last() =~= seq![s[0]]);
    assert(s.drop_last().drop_last().drop_last().drop_last() =~= Seq::<u8>::empty());
}

/// A frame holds the whole payload behind four bytes, which give its length up to
/// 32 bits. So different payloads have different frames.
pub proof fn law_frame_holds_the_payload(payload: Seq<u8>, other: Seq<u8>)
    ensures
        frame_of(payload).len() == 4 + payload.len(),
        frame_of(payload).skip(4) == payload,
        be_value(frame_of(payload).take(4)) == payload.len() % 0x1_0000_0000,
        frame_of(payload) == frame_of(other) ==> payload == other,
{
    lemma_u32_bytes_value((payload.len() % 0x1_0000_0000) as u32);
    assert(frame_of(payload).take(4) =~= u32_bytes((payload.len() % 0x1_0000_0000) as u32));
    assert(frame_of(payload).skip(4) =~= payload);
    assert(frame_of(other).skip(4) =~= other);
}

/// A reader that is fed a frame in the parts that it wants asks for four bytes, then
/// for as many as the payload has, and then gives the whole payload.
pub proof fn law_reader_gives_the_whole_payload(payload: Seq<u8>)
    requires
        payload.len() <= 16777216,
    ensures
        wanted(FrameReader::Header) == 4,
        ({
            let first = fed(FrameReader::Header, frame_of(payload).take(4));
            &&& first matches FedView::More(next)
            &&& wanted(next) == payload.len()
            &&& fed(next, frame_of(payload).skip(4)) == FedView::Payload(payload)
        }),
{
    law_frame_holds_the_payload(payload, payload);
}

/// Whatever four bytes a reader is fed for a header, it then asks for as many bytes
/// as they give, most significant first, unless they give more than 16 MiB; and
/// whatever it is fed for a payload, it gives unchanged.
pub proof fn law_reader_goes_by_the_header(header: Seq<u8>, len: usize, bytes: Seq<u8>)
    requires
        header.len() == 4,
        bytes.len() == len,
    ensures
        ({
            let n = header[0] * 0x1000000 + header[1] * 0x10000 + header[2] * 0x100 + header[3];
            match fed(FrameReader::Header, header) {
                FedView::More(next) => n <= 16777216 && next is Body && wanted(next) == n,
                FedView::TooLarge(told) => n > 16777216 && told == n,
                FedView::Payload(_) => false,
            }
        }),
        wanted(FrameReader::Body { len }) == len,
        fed(FrameReader::Body { len }, bytes) == FedView::Payload(bytes),
{
    lemma_four_bytes(header);
}

/// The words for a payload that is too large end with its length in decimal.
pub proof fn law_too_large_tells_the_length(len: nat)
    ensures
        too_large_text(len).take(19) == "message too large: "@,
        too_large_text(len).skip(19) == decimal(len),
        numeral_value(too_large_text(len).skip(19)) == len,
{
    reveal_strlit("message too large: ");
    assert(too_large_text(len).take(19) =~= "message too large: "@);
    assert(too_large_text(len).skip(19) =~= decimal(len));
    lemma_decimal_reads_back(len);
}

/// A caller gets what the door's procedure answers, all of it and without an error.
pub proof fn law_caller_gets_the_reply(key: Option<(nat, usize)>, args: Seq<char>)
    ensures
        outcome_of(response_to(key, args)) == Ok::<Seq<char>, Seq<char>>(reply_of(key, args)),
        response_to(key, args).error is None,
{
}

/// A response without an error gives its data, and one with an error gives the
/// whole error behind the same words, whatever its data are.
pub proof fn law_outcome_tells_data_or_error(data: Seq<char>, error: Seq<char>)
    ensures
        outcome_of(ResponseView { data, error: None }) == Ok::<Seq<char>, Seq<char>>(data),
        outcome_of(ResponseView { data, error: Some(error) }) matches Err(message) && message.len()
            == 12 + error.len() && message.take(12) == "door error: "@ && message.skip(12) == error,
{
    reveal_strlit("door error: ");
    let message = "door error: "@ + error;
    assert(message.take(12) =~= "door error: "@);
    assert(message.skip(12) =~= error);
}

} // verus!
