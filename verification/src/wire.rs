//! The wire format (plaintext).
//!
//! One frame per UDP datagram: a 4-byte magic, a one-byte frame type, then the frame body. This module
//! is pure bytes in and out; no I/O lives here.
//!
//! [`encoded`] and [`decoded`] say what the codec computes. They are inverse to one another, see
//! [`law_decode_inverts_encode`] and [`law_encode_inverts_decode`].

use bytes::Bytes;
use vstd::prelude::*;
use vstd::slice::slice_subrange;
use vstd::string::*;

use crate::payload;
use crate::text;

verus! {

/// The protocol identity `QRK`: the bytes every datagram opens with, at every version, forever. A
/// datagram that does not open with these is not a quirk datagram, and that is the only thing an
/// identity mismatch is allowed to mean.
pub const IDENTITY: [u8; 3] = [0x51, 0x52, 0x4b];

/// The packet grammar this build speaks (`0`), written after [`IDENTITY`] and parsed (never compared
/// whole) on read: together they are the four magic bytes `QRK0`.
pub const VERSION: [u8; 1] = [0x30];

/// The length of a raw ed25519 public key.
pub const KEY_LEN: usize = 32;

pub const T_HELLO: u8 = 0x01;

pub const T_HELLO_ACK: u8 = 0x02;

pub const T_DATAGRAM: u8 = 0x03;

pub const T_DATA: u8 = 0x04;

pub const T_ACK: u8 = 0x05;

pub const T_FIN: u8 = 0x06;

/// The version half of a datagram's magic: the byte after [`IDENTITY`], naming which packet grammar
/// the peer that wrote it speaks.
///
/// Parsed as a value rather than folded into one four-byte comparison, because the two halves of the
/// magic answer different questions: "not our protocol" and "our protocol, another build" are two
/// facts, and a receiver that throws the distinction away cannot tell an operator which one it saw.
#[derive(Debug, Clone, Copy, PartialEq, Eq)]
pub struct WireVersion([u8; 1]);

impl View for WireVersion {
    type V = u8;

    closed spec fn view(&self) -> u8 {
        self.0[0]
    }
}

impl WireVersion {
    /// The version this build speaks.
    pub fn ours() -> (version: Self)
        ensures
            version@ == VERSION[0],
    {
        WireVersion(VERSION)
    }

    /// Split the version half off the front of `after_identity`. The width of the field lives here, in
    /// the type that owns it, so the reader and the writer cannot drift apart.
    pub fn split(after_identity: &[u8]) -> (split: Option<(Self, &[u8])>)
        ensures
            after_identity@.len() == 0 <==> split is None,
            split matches Some((version, rest)) ==> {
                &&& version@ == after_identity@[0]
                &&& rest@ == after_identity@.skip(1)
            },
    {
        if after_identity.len() == 0 {
            return None;
        }
        let rest = slice_subrange(after_identity, 1, after_identity.len());
        assert(rest@ =~= after_identity@.skip(1));
        Some((WireVersion([after_identity[0]]), rest))
    }

    /// The bytes as they go on the wire.
    pub fn as_bytes(&self) -> (bytes: &[u8; 1])
        ensures
            bytes@ == seq![self@],
    {
        assert(self.0@ =~= seq![self@]);
        &self.0
    }

    /// Renders the whole four-byte tag (`QRK0`), because that is the form the source and the changelog
    /// use, so anyone holding one from a log line can match it against what they read. A peer's version
    /// byte is arbitrary and need not be printable, so it is escaped rather than trusted.
    pub fn to_string(&self) -> (tag: String)
        ensures
            tag@ == version_tag(self@),
    {
        let mut tag = String::new();
        text::push_escaped(&mut tag, IDENTITY[0]);
        text::push_escaped(&mut tag, IDENTITY[1]);
        text::push_escaped(&mut tag, IDENTITY[2]);
        text::push_escaped(&mut tag, self.0[0]);
        proof {
            reveal_strlit("QRK");
        }
        assert(tag@ =~= version_tag(self@));
        tag
    }
}

/// The printable form of a version: the identity, then the version byte, escaped.
pub open spec fn version_tag(version: u8) -> Seq<char> {
    "QRK"@ + text::escape_ascii(version)
}

/// Whether `bytes` is non-empty and every byte falls in `lo..=hi`.
pub fn all_between(bytes: &[u8], lo: u8, hi: u8) -> (all: bool)
    ensures
        all == (bytes@.len() > 0 && forall|i: int| 0 <= i < bytes@.len() ==> lo <= #[trigger] bytes@[i] <= hi),
{
    let mut at: usize = 0;
    while at < bytes.len()
        invariant
            at <= bytes@.len(),
            forall|i: int| 0 <= i < at ==> lo <= #[trigger] bytes@[i] <= hi,
        decreases bytes@.len() - at,
    {
        if bytes[at] < lo || bytes[at] > hi {
            return false;
        }
        at = at + 1;
    }
    bytes.len() != 0
}

/// The magic splits by rule, not by a remembered offset: the identity is a run of capitals, the version
/// is the digits after it, four bytes in all. A digit is never a capital, so "all capitals, then all
/// digits" is exactly "the maximal leading capital run".
pub fn magic_splits_by_rule() -> (holds: bool)
    ensures
        holds,
{
    proof {
        law_magic_is_capitals_then_digits();
    }
    all_between(IDENTITY.as_slice(), 0x41, 0x5a) && all_between(VERSION.as_slice(), 0x30, 0x39)
        && IDENTITY.len() + VERSION.len() == 4
}

// ---------------------------------------------------------------------------------------------------
// What a frame is, and what it looks like on the wire
// ---------------------------------------------------------------------------------------------------
/// A single quirk protocol frame.
#[derive(Debug, PartialEq, Eq)]
pub enum Frame {
    /// Connection initiator announcing its identity.
    Hello {
        /// The initiator's raw ed25519 public key.
        key: [u8; KEY_LEN],
    },
    /// Connection responder announcing its identity.
    HelloAck {
        /// The responder's raw ed25519 public key.
        key: [u8; KEY_LEN],
    },
    /// An unreliable datagram payload on an established connection.
    Datagram {
        /// The datagram bytes.
        data: Bytes,
    },
    /// A reliable stream data segment: the `seq`-th frame of stream `stream`.
    Data {
        /// The stream this segment belongs to.
        stream: u32,
        /// The per-frame sequence number within the stream.
        seq: u32,
        /// The segment bytes.
        bytes: Bytes,
    },
    /// Cumulative acknowledgement: the receiver has every segment below `seq` of `stream`.
    Ack {
        /// The acknowledged stream.
        stream: u32,
        /// The next sequence number the receiver still needs.
        seq: u32,
    },
    /// The sender has finished writing to `stream`. Carries the sequence number the terminator
    /// occupies (one past the last data segment), so the receiver only signals end-of-stream once
    /// reassembly has reached it and a reordered final segment cannot be delivered as a truncated EOF.
    Fin {
        /// The finished stream.
        stream: u32,
        /// The sequence number the FIN occupies: one past the sender's last data segment.
        seq: u32,
    },
}

/// A frame with its payload as a plain sequence of bytes.
pub enum FrameView {
    Hello { key: Seq<u8> },
    HelloAck { key: Seq<u8> },
    Datagram { data: Seq<u8> },
    Data { stream: u32, seq: u32, bytes: Seq<u8> },
    Ack { stream: u32, seq: u32 },
    Fin { stream: u32, seq: u32 },
}

impl View for Frame {
    type V = FrameView;

    open spec fn view(&self) -> FrameView {
        match *self {
            Frame::Hello { key } => FrameView::Hello { key: key@ },
            Frame::HelloAck { key } => FrameView::HelloAck { key: key@ },
            Frame::Datagram { data } => FrameView::Datagram { data: payload::contents(data) },
            Frame::Data { stream, seq, bytes } => FrameView::Data {
                stream,
                seq,
                bytes: payload::contents(bytes),
            },
            Frame::Ack { stream, seq } => FrameView::Ack { stream, seq },
            Frame::Fin { stream, seq } => FrameView::Fin { stream, seq },
        }
    }
}

impl FrameView {
    /// Whether a key, where the frame carries one, has the length of a key. Every [`Frame`] does.
    pub open spec fn valid(self) -> bool {
        match self {
            FrameView::Hello { key } => key.len() == KEY_LEN,
            FrameView::HelloAck { key } => key.len() == KEY_LEN,
            _ => true,
        }
    }

    /// The byte that names the kind of frame.
    pub open spec fn type_byte(self) -> u8 {
        match self {
            FrameView::Hello { .. } => T_HELLO,
            FrameView::HelloAck { .. } => T_HELLO_ACK,
            FrameView::Datagram { .. } => T_DATAGRAM,
            FrameView::Data { .. } => T_DATA,
            FrameView::Ack { .. } => T_ACK,
            FrameView::Fin { .. } => T_FIN,
        }
    }

    /// What follows the type byte.
    pub open spec fn body(self) -> Seq<u8> {
        match self {
            FrameView::Hello { key } => key,
            FrameView::HelloAck { key } => key,
            FrameView::Datagram { data } => data,
            FrameView::Data { stream, seq, bytes } => be_bytes(stream) + be_bytes(seq) + bytes,
            FrameView::Ack { stream, seq } => be_bytes(stream) + be_bytes(seq),
            FrameView::Fin { stream, seq } => be_bytes(stream) + be_bytes(seq),
        }
    }
}

/// The four bytes of `value`, most significant first.
pub open spec fn be_bytes(value: u32) -> Seq<u8> {
    seq![
        (value / 0x100_0000) as u8,
        (value / 0x1_0000 % 0x100) as u8,
        (value / 0x100 % 0x100) as u8,
        (value % 0x100) as u8,
    ]
}

/// The number whose four bytes, most significant first, `bytes` begins with.
pub open spec fn be_value(bytes: Seq<u8>) -> u32 {
    (bytes[0] * 0x100_0000 + bytes[1] * 0x1_0000 + bytes[2] * 0x100 + bytes[3]) as u32
}

/// The magic bytes every datagram of this build opens with: `QRK0`.
pub open spec fn magic() -> Seq<u8> {
    IDENTITY@ + VERSION@
}

/// The datagram that carries `frame`: the magic, the type byte, the body.
pub open spec fn encoded(frame: FrameView) -> Seq<u8> {
    magic() + seq![frame.type_byte()] + frame.body()
}

/// Why a datagram could not be decoded into a [`Frame`].
///
/// **Every variant is dropped in silence, and a version mismatch must stay that way.** These bytes
/// arrive in an unauthenticated UDP datagram whose source address is a claim, so any reply is a packet
/// an attacker can aim at a third party by writing that party's address into the `from` field. A
/// responder that answers unsolicited datagrams is a reflection amplifier and an unauthenticated scan
/// target, and that outweighs the diagnostic every time. So this type deliberately carries no `answer`
/// constructor.
#[derive(Debug, PartialEq, Eq)]
pub enum DecodeError {
    /// The datagram did not begin with [`IDENTITY`], so it is not a quirk datagram. On a shared UDP
    /// port this is the ordinary case: stray scans and other protocols land here.
    Foreign,
    /// A quirk datagram from a build that speaks a different packet grammar. Distinguishable from a
    /// foreign datagram so a log line can say which was seen; never answered, per this type's doc.
    Version {
        /// The version the peer's datagram named.
        peer: WireVersion,
    },
    /// The datagram ended before a full frame was read, or carried trailing bytes.
    Truncated,
    /// The frame type byte was not recognized.
    UnknownType(u8),
}

/// A decoding error with the peer's version as a plain byte.
pub enum DecodeErrorView {
    Foreign,
    Version { peer: u8 },
    Truncated,
    UnknownType(u8),
}

impl View for DecodeError {
    type V = DecodeErrorView;

    open spec fn view(&self) -> DecodeErrorView {
        match *self {
            DecodeError::Foreign => DecodeErrorView::Foreign,
            DecodeError::Version { peer } => DecodeErrorView::Version { peer: peer@ },
            DecodeError::Truncated => DecodeErrorView::Truncated,
            DecodeError::UnknownType(ty) => DecodeErrorView::UnknownType(ty),
        }
    }
}

impl DecodeErrorView {
    /// The line an operator reads.
    pub open spec fn message(self) -> Seq<char> {
        match self {
            DecodeErrorView::Foreign => "not a quirk datagram"@,
            DecodeErrorView::Version { peer } => "quirk wire version mismatch: the datagram is "@
                + version_tag(peer) + ", this build speaks "@ + version_tag(VERSION[0]),
            DecodeErrorView::Truncated => "truncated frame"@,
            DecodeErrorView::UnknownType(ty) => "unknown frame type 0x"@ + text::hex_byte(ty),
        }
    }
}

impl DecodeError {
    /// The error as a line of text.
    pub fn to_string(&self) -> (message: String)
        ensures
            message@ == self@.message(),
    {
        match self {
            DecodeError::Foreign => String::from_str("not a quirk datagram"),
            DecodeError::Version { peer } => {
                let ours = WireVersion::ours();
                let mut message = String::from_str("quirk wire version mismatch: the datagram is ");
                message.append(peer.to_string().as_str());
                message.append(", this build speaks ");
                message.append(ours.to_string().as_str());
                message
            },
            DecodeError::Truncated => String::from_str("truncated frame"),
            DecodeError::UnknownType(ty) => {
                let mut message = String::from_str("unknown frame type 0x");
                text::push_hex_byte(&mut message, *ty);
                message
            },
        }
    }
}

/// What the body of a frame of type `ty` says.
pub open spec fn decoded_body(ty: u8, body: Seq<u8>) -> Result<FrameView, DecodeErrorView> {
    if ty == T_HELLO && body.len() == KEY_LEN {
        Ok(FrameView::Hello { key: body })
    } else if ty == T_HELLO_ACK && body.len() == KEY_LEN {
        Ok(FrameView::HelloAck { key: body })
    } else if ty == T_DATAGRAM {
        Ok(FrameView::Datagram { data: body })
    } else if ty == T_DATA && body.len() >= 8 {
        Ok(
            FrameView::Data {
                stream: be_value(body),
                seq: be_value(body.skip(4)),
                bytes: body.skip(8),
            },
        )
    } else if ty == T_ACK && body.len() == 8 {
        Ok(FrameView::Ack { stream: be_value(body), seq: be_value(body.skip(4)) })
    } else if ty == T_FIN && body.len() == 8 {
        Ok(FrameView::Fin { stream: be_value(body), seq: be_value(body.skip(4)) })
    } else if T_HELLO <= ty <= T_FIN {
        Err(DecodeErrorView::Truncated)
    } else {
        Err(DecodeErrorView::UnknownType(ty))
    }
}

/// What a datagram says: the frame it carries, or why it carries none. The identity is judged first,
/// then the version, then the type, then the body.
pub open spec fn decoded(datagram: Seq<u8>) -> Result<FrameView, DecodeErrorView> {
    if !IDENTITY@.is_prefix_of(datagram) {
        Err(DecodeErrorView::Foreign)
    } else if datagram.len() == 3 {
        Err(DecodeErrorView::Truncated)
    } else if datagram[3] != VERSION[0] {
        Err(DecodeErrorView::Version { peer: datagram[3] })
    } else if datagram.len() == 4 {
        Err(DecodeErrorView::Truncated)
    } else {
        decoded_body(datagram[4], datagram.skip(5))
    }
}

impl Clone for Frame {
    fn clone(&self) -> (copy: Self)
        ensures
            copy@ == self@,
    {
        match self {
            Frame::Hello { key } => Frame::Hello { key: *key },
            Frame::HelloAck { key } => Frame::HelloAck { key: *key },
            Frame::Datagram { data } => Frame::Datagram { data: data.clone() },
            Frame::Data { stream, seq, bytes } => Frame::Data {
                stream: *stream,
                seq: *seq,
                bytes: bytes.clone(),
            },
            Frame::Ack { stream, seq } => Frame::Ack { stream: *stream, seq: *seq },
            Frame::Fin { stream, seq } => Frame::Fin { stream: *stream, seq: *seq },
        }
    }
}

// ---------------------------------------------------------------------------------------------------
// The codec
// ---------------------------------------------------------------------------------------------------
fn push_slice(buf: &mut Vec<u8>, bytes: &[u8])
    ensures
        final(buf)@ == old(buf)@ + bytes@,
{
    buf.extend_from_slice(bytes);
    assert(buf@ =~= old(buf)@ + bytes@);
}

fn push_u32(buf: &mut Vec<u8>, value: u32)
    ensures
        final(buf)@ == old(buf)@ + be_bytes(value),
{
    buf.push((value / 0x100_0000) as u8);
    buf.push((value / 0x1_0000 % 0x100) as u8);
    buf.push((value / 0x100 % 0x100) as u8);
    buf.push((value % 0x100) as u8);
    assert(buf@ =~= old(buf)@ + be_bytes(value));
}

impl Frame {
    /// Append the framed byte encoding to `buf`.
    pub fn encode(&self, buf: &mut Vec<u8>)
        ensures
            final(buf)@ == old(buf)@ + encoded(self@),
    {
        push_slice(buf, IDENTITY.as_slice());
        push_slice(buf, VERSION.as_slice());
        match self {
            Frame::Hello { key } => {
                buf.push(T_HELLO);
                push_slice(buf, key.as_slice());
            },
            Frame::HelloAck { key } => {
                buf.push(T_HELLO_ACK);
                push_slice(buf, key.as_slice());
            },
            Frame::Datagram { data } => {
                buf.push(T_DATAGRAM);
                push_slice(buf, payload::as_slice(data));
            },
            Frame::Data { stream, seq, bytes } => {
                buf.push(T_DATA);
                push_u32(buf, *stream);
                push_u32(buf, *seq);
                push_slice(buf, payload::as_slice(bytes));
            },
            Frame::Ack { stream, seq } => {
                buf.push(T_ACK);
                push_u32(buf, *stream);
                push_u32(buf, *seq);
            },
            Frame::Fin { stream, seq } => {
                buf.push(T_FIN);
                push_u32(buf, *stream);
                push_u32(buf, *seq);
            },
        }
        assert(buf@ =~= old(buf)@ + encoded(self@));
    }

    /// Encode into a fresh buffer.
    pub fn to_bytes(&self) -> (bytes: Vec<u8>)
        ensures
            bytes@ == encoded(self@),
    {
        let mut buf: Vec<u8> = Vec::new();
        self.encode(&mut buf);
        assert(buf@ =~= encoded(self@));
        buf
    }

    /// Decode one frame from a datagram.
    ///
    /// The magic is parsed as [`IDENTITY`] plus a [`WireVersion`], never compared as four bytes, so
    /// that "not our protocol" and "our protocol, another build" stay two facts instead of one.
    /// Neither is answered: see [`DecodeError`] for why this wire must stay silent about both.
    pub fn decode(bytes: &[u8]) -> (frame: Result<Self, DecodeError>)
        ensures
            match decoded(bytes@) {
                Ok(view) => frame is Ok && frame->Ok_0@ == view,
                Err(error) => frame is Err && frame->Err_0@ == error,
            },
    {
        let rest = match strip_identity(bytes) {
            Some(rest) => rest,
            None => return Err(DecodeError::Foreign),
        };
        let (version, rest) = match WireVersion::split(rest) {
            Some(split) => split,
            None => return Err(DecodeError::Truncated),
        };
        if version.0[0] != VERSION[0] {
            return Err(DecodeError::Version { peer: version });
        }
        if rest.len() == 0 {
            return Err(DecodeError::Truncated);
        }
        let ty: u8 = rest[0];
        let body = slice_subrange(rest, 1, rest.len());
        assert(body@ =~= bytes@.skip(5));
        if ty == T_HELLO {
            let key = key_from(body)?;
            Ok(Frame::Hello { key })
        } else if ty == T_HELLO_ACK {
            let key = key_from(body)?;
            Ok(Frame::HelloAck { key })
        } else if ty == T_DATAGRAM {
            Ok(Frame::Datagram { data: payload::copy_from_slice(body) })
        } else if ty == T_DATA {
            let (stream, rest) = read_u32(body)?;
            let (seq, rest) = read_u32(rest)?;
            assert(rest@ =~= body@.skip(8));
            Ok(Frame::Data { stream, seq, bytes: payload::copy_from_slice(rest) })
        } else if ty == T_ACK {
            let (stream, rest) = read_u32(body)?;
            let (seq, rest) = read_u32(rest)?;
            expect_empty(rest)?;
            Ok(Frame::Ack { stream, seq })
        } else if ty == T_FIN {
            let (stream, rest) = read_u32(body)?;
            let (seq, rest) = read_u32(rest)?;
            expect_empty(rest)?;
            Ok(Frame::Fin { stream, seq })
        } else {
            Err(DecodeError::UnknownType(ty))
        }
    }
}

// ---------------------------------------------------------------------------------------------------
// Reading the parts of a datagram
// ---------------------------------------------------------------------------------------------------
/// What follows the identity, if the datagram begins with it.
fn strip_identity(datagram: &[u8]) -> (rest: Option<&[u8]>)
    ensures
        rest is Some <==> IDENTITY@.is_prefix_of(datagram@),
        rest matches Some(rest) ==> rest@ == datagram@.skip(3),
{
    if datagram.len() < 3 || datagram[0] != IDENTITY[0] || datagram[1] != IDENTITY[1] || datagram[2]
        != IDENTITY[2] {
        return None;
    }
    let rest = slice_subrange(datagram, 3, datagram.len());
    assert(rest@ =~= datagram@.skip(3));
    assert(IDENTITY@ =~= datagram@.subrange(0, 3));
    Some(rest)
}

/// A key, if `body` is exactly one.
pub fn key_from(body: &[u8]) -> (key: Result<[u8; KEY_LEN], DecodeError>)
    ensures
        key is Ok <==> body@.len() == KEY_LEN,
        key matches Ok(key) ==> key@ == body@,
        key matches Err(error) ==> error == DecodeError::Truncated,
{
    if body.len() != KEY_LEN {
        return Err(DecodeError::Truncated);
    }
    let mut key: [u8; KEY_LEN] = [0u8; KEY_LEN];
    let mut at: usize = 0;
    while at < KEY_LEN
        invariant
            at <= KEY_LEN,
            body@.len() == KEY_LEN,
            forall|i: int| 0 <= i < at ==> #[trigger] key@[i] == body@[i],
        decreases KEY_LEN - at,
    {
        key[at] = body[at];
        at = at + 1;
    }
    assert(key@ =~= body@);
    Ok(key)
}

/// The big-endian number at the front of `body`, and what follows it.
pub fn read_u32(body: &[u8]) -> (read: Result<(u32, &[u8]), DecodeError>)
    ensures
        read is Ok <==> body@.len() >= 4,
        read matches Ok((value, rest)) ==> value == be_value(body@) && rest@ == body@.skip(4),
        read matches Err(error) ==> error == DecodeError::Truncated,
{
    if body.len() < 4 {
        return Err(DecodeError::Truncated);
    }
    let value: u32 = body[0] as u32 * 0x100_0000 + body[1] as u32 * 0x1_0000 + body[2] as u32 * 0x100
        + body[3] as u32;
    let rest = slice_subrange(body, 4, body.len());
    assert(rest@ =~= body@.skip(4));
    Ok((value, rest))
}

/// Nothing may follow a complete frame.
pub fn expect_empty(rest: &[u8]) -> (empty: Result<(), DecodeError>)
    ensures
        empty is Ok <==> rest@.len() == 0,
        empty matches Err(error) ==> error == DecodeError::Truncated,
{
    if rest.len() == 0 {
        Ok(())
    } else {
        Err(DecodeError::Truncated)
    }
}

// ---------------------------------------------------------------------------------------------------
// Laws
// ---------------------------------------------------------------------------------------------------
/// The magic is four bytes: capitals (the identity), then digits (the version).
pub proof fn law_magic_is_capitals_then_digits()
    ensures
        magic().len() == 4,
        magic() == IDENTITY@ + VERSION@,
        IDENTITY@.len() > 0 && forall|i: int|
            0 <= i < IDENTITY@.len() ==> 0x41 <= #[trigger] IDENTITY@[i] <= 0x5a,
        VERSION@.len() > 0 && forall|i: int|
            0 <= i < VERSION@.len() ==> 0x30 <= #[trigger] VERSION@[i] <= 0x39,
{
}

/// A number survives being written and read.
proof fn lemma_be_value_of_bytes(value: u32, rest: Seq<u8>)
    ensures
        be_value(be_bytes(value) + rest) == value,
{
    let bytes = be_bytes(value) + rest;
    assert(bytes[0] == value / 0x100_0000);
    assert(bytes[1] == value / 0x1_0000 % 0x100);
    assert(bytes[2] == value / 0x100 % 0x100);
    assert(bytes[3] == value % 0x100);
}

/// Four bytes survive being read and written.
proof fn lemma_be_bytes_of_value(bytes: Seq<u8>)
    requires
        bytes.len() >= 4,
    ensures
        be_bytes(be_value(bytes)) == bytes.take(4),
{
    let value = be_value(bytes) as int;
    let (b0, b1, b2, b3) = (bytes[0] as int, bytes[1] as int, bytes[2] as int, bytes[3] as int);
    vstd::arithmetic::div_mod::lemma_fundamental_div_mod_converse(value, 0x100_0000, b0, b1 * 0x1_0000 + b2 * 0x100 + b3);
    vstd::arithmetic::div_mod::lemma_fundamental_div_mod_converse(value, 0x1_0000, b0 * 0x100 + b1, b2 * 0x100 + b3);
    vstd::arithmetic::div_mod::lemma_fundamental_div_mod_converse(value, 0x100, b0 * 0x1_0000 + b1 * 0x100 + b2, b3);
    vstd::arithmetic::div_mod::lemma_fundamental_div_mod_converse(b0 * 0x100 + b1, 0x100, b0, b1);
    vstd::arithmetic::div_mod::lemma_fundamental_div_mod_converse(b0 * 0x1_0000 + b1 * 0x100 + b2, 0x100, b0 * 0x100 + b1, b2);
    assert(be_bytes(be_value(bytes)) =~= bytes.take(4));
}

/// Every frame survives the wire: decoding what was encoded gives the frame back.
pub proof fn law_decode_inverts_encode(frame: FrameView)
    requires
        frame.valid(),
    ensures
        decoded(encoded(frame)) == Ok::<FrameView, DecodeErrorView>(frame),
{
    let datagram = encoded(frame);
    let body = frame.body();
    assert(datagram.subrange(0, 3) =~= IDENTITY@);
    assert(datagram[3] == VERSION[0]);
    assert(datagram[4] == frame.type_byte());
    assert(datagram.skip(5) =~= body);
    match frame {
        FrameView::Data { stream, seq, bytes } => {
            lemma_be_value_of_bytes(stream, be_bytes(seq) + bytes);
            assert(body =~= be_bytes(stream) + (be_bytes(seq) + bytes));
            lemma_be_value_of_bytes(seq, bytes);
            assert(body.skip(4) =~= be_bytes(seq) + bytes);
            assert(body.skip(8) =~= bytes);
        },
        FrameView::Ack { stream, seq } => {
            lemma_be_value_of_bytes(stream, be_bytes(seq));
            lemma_be_value_of_bytes(seq, seq![]);
            assert(body.skip(4) =~= be_bytes(seq) + seq![]);
        },
        FrameView::Fin { stream, seq } => {
            lemma_be_value_of_bytes(stream, be_bytes(seq));
            lemma_be_value_of_bytes(seq, seq![]);
            assert(body.skip(4) =~= be_bytes(seq) + seq![]);
        },
        _ => {},
    }
}

/// The wire is canonical: a datagram that decodes is exactly the encoding of the frame it decodes to,
/// so no two datagrams mean the same frame and nothing rides along behind one.
pub proof fn law_encode_inverts_decode(datagram: Seq<u8>)
    requires
        decoded(datagram) is Ok,
    ensures
        decoded(datagram)->Ok_0.valid(),
        encoded(decoded(datagram)->Ok_0) == datagram,
{
    let frame = decoded(datagram)->Ok_0;
    let body = datagram.skip(5);
    assert(datagram.subrange(0, 3) =~= IDENTITY@);
    assert(body == frame.body()) by {
        match frame {
            FrameView::Data { stream, seq, bytes } => {
                lemma_be_bytes_of_value(body);
                lemma_be_bytes_of_value(body.skip(4));
                assert(body =~= body.take(4) + body.skip(4).take(4) + body.skip(8));
            },
            FrameView::Ack { stream, seq } => {
                lemma_be_bytes_of_value(body);
                lemma_be_bytes_of_value(body.skip(4));
                assert(body =~= body.take(4) + body.skip(4).take(4));
            },
            FrameView::Fin { stream, seq } => {
                lemma_be_bytes_of_value(body);
                lemma_be_bytes_of_value(body.skip(4));
                assert(body =~= body.take(4) + body.skip(4).take(4));
            },
            _ => {},
        }
    }
    assert(datagram =~= encoded(frame));
}

/// The two halves of the magic answer different questions: a datagram is foreign exactly when it does
/// not begin with the identity, and a version mismatch is reported exactly when it does and the byte
/// after it is another version. A version mismatch is never a foreign datagram.
pub proof fn law_version_mismatch_is_not_foreign(datagram: Seq<u8>, peer: u8)
    ensures
        decoded(datagram) == Err::<FrameView, DecodeErrorView>(DecodeErrorView::Foreign)
            <==> !IDENTITY@.is_prefix_of(datagram),
        decoded(datagram) == Err::<FrameView, DecodeErrorView>(DecodeErrorView::Version { peer })
            <==> IDENTITY@.is_prefix_of(datagram) && datagram.len() > 3 && datagram[3] == peer && peer
            != VERSION[0],
{
}

/// Whether `datagram` opens with the three letters `QRK`.
pub open spec fn is_quirk(datagram: Seq<u8>) -> bool {
    datagram.len() >= 3 && datagram[0] == 0x51 && datagram[1] == 0x52 && datagram[2] == 0x4b
}

/// The number that the four bytes of `datagram` from `at` on spell, most significant byte first.
pub open spec fn number_at(datagram: Seq<u8>, at: int) -> int {
    datagram[at] * 0x100_0000 + datagram[at + 1] * 0x1_0000 + datagram[at + 2] * 0x100 + datagram[at
        + 3]
}

/// Where everything stands in a datagram: `QRK0`, a byte that names the kind of frame, and behind it the
/// key, or the payload, or the stream and the sequence number, four bytes each with the most significant
/// first, and then the payload of a segment. Nothing else.
pub proof fn law_the_layout_of_a_datagram(frame: FrameView)
    ensures
        ({
            let datagram = encoded(frame);
            &&& datagram.len() >= 5
            &&& is_quirk(datagram)
            &&& datagram[3] == 0x30
            &&& match frame {
                FrameView::Hello { key } => datagram[4] == 1 && datagram.skip(5) == key,
                FrameView::HelloAck { key } => datagram[4] == 2 && datagram.skip(5) == key,
                FrameView::Datagram { data } => datagram[4] == 3 && datagram.skip(5) == data,
                FrameView::Data { stream, seq, bytes } => {
                    &&& datagram[4] == 4
                    &&& datagram.len() == 13 + bytes.len()
                    &&& number_at(datagram, 5) == stream
                    &&& number_at(datagram, 9) == seq
                    &&& datagram.skip(13) == bytes
                },
                FrameView::Ack { stream, seq } => {
                    &&& datagram[4] == 5
                    &&& datagram.len() == 13
                    &&& number_at(datagram, 5) == stream
                    &&& number_at(datagram, 9) == seq
                },
                FrameView::Fin { stream, seq } => {
                    &&& datagram[4] == 6
                    &&& datagram.len() == 13
                    &&& number_at(datagram, 5) == stream
                    &&& number_at(datagram, 9) == seq
                },
            }
        }),
{
    let datagram = encoded(frame);
    let body = frame.body();
    assert(datagram.skip(5) =~= body);
    assert(forall|i: int| 0 <= i < body.len() ==> datagram[5 + i] == body[i]);
    match frame {
        FrameView::Data { stream, seq, bytes } => {
            lemma_number(stream);
            lemma_number(seq);
            assert(body.skip(8) =~= bytes);
            assert(datagram.skip(13) =~= bytes);
        },
        FrameView::Ack { stream, seq } => {
            lemma_number(stream);
            lemma_number(seq);
        },
        FrameView::Fin { stream, seq } => {
            lemma_number(stream);
            lemma_number(seq);
        },
        _ => {},
    }
}

/// Four bytes spell the number they were made of.
proof fn lemma_number(value: u32)
    ensures
        be_bytes(value).len() == 4,
        number_at(be_bytes(value), 0) == value,
{
    lemma_be_value_of_bytes(value, seq![]);
    assert(be_bytes(value) + seq![] =~= be_bytes(value));
}

/// A number on the wire is its four bytes, most significant first, whatever follows them; no number is
/// written in any other way.
pub proof fn law_numbers_are_big_endian(value: u32, bytes: Seq<u8>)
    requires
        bytes.len() >= 4,
    ensures
        be_bytes(value).len() == 4,
        number_at(be_bytes(value), 0) == value,
        be_value(bytes) == number_at(bytes, 0),
{
    lemma_number(value);
}

/// Why a datagram is dropped, by its bytes alone. It is foreign exactly if it does not open with `QRK`;
/// of another version exactly if it does and another byte than `0` comes next; of an unknown type exactly
/// if it opens with `QRK0` and the byte after that names no kind of frame; and truncated exactly if it
/// ends before that byte, or its length does not suit the kind of frame. Everything else carries a frame.
pub proof fn law_a_datagram_is_dropped_for_one_reason(datagram: Seq<u8>, byte: u8)
    ensures
        ({
            let ours = is_quirk(datagram) && datagram.len() >= 4 && datagram[3] == 0x30;
            let kind = datagram[4];
            let suits = if kind == 1 || kind == 2 {
                datagram.len() == 5 + 32
            } else if kind == 4 {
                datagram.len() >= 13
            } else if kind == 5 || kind == 6 {
                datagram.len() == 13
            } else {
                true
            };
            let said = decoded(datagram);
            &&& said == Err::<FrameView, DecodeErrorView>(DecodeErrorView::Foreign) <==> !is_quirk(
                datagram,
            )
            &&& said == Err::<FrameView, DecodeErrorView>(DecodeErrorView::Version { peer: byte })
                <==> is_quirk(datagram) && datagram.len() >= 4 && datagram[3] == byte && byte != 0x30
            &&& said == Err::<FrameView, DecodeErrorView>(DecodeErrorView::UnknownType(byte)) <==> ours
                && datagram.len() >= 5 && kind == byte && !(1 <= byte <= 6)
            &&& said == Err::<FrameView, DecodeErrorView>(DecodeErrorView::Truncated) <==> (is_quirk(
                datagram,
            ) && datagram.len() == 3) || (ours && (datagram.len() == 4 || (1 <= kind <= 6 && !suits)))
            &&& said is Ok <==> ours && datagram.len() >= 5 && 1 <= kind <= 6 && suits
        }),
{
    if is_quirk(datagram) {
        assert(datagram.subrange(0, 3) =~= IDENTITY@);
    }
    if IDENTITY@.is_prefix_of(datagram) {
        assert(datagram.subrange(0, 3)[0] == 0x51);
        assert(datagram.subrange(0, 3)[1] == 0x52);
        assert(datagram.subrange(0, 3)[2] == 0x4b);
    }
    if datagram.len() >= 5 {
        assert(datagram.skip(5).len() == datagram.len() - 5);
    }
}

/// A version is shown as the four bytes a datagram of it opens with, the last one escaped.
pub proof fn law_a_version_is_shown_as_its_magic(version: u8)
    ensures
        version_tag(version).len() >= 4,
        version_tag(version).take(3) == seq!['Q', 'R', 'K'],
        text::unescaped(version_tag(version).skip(3)) == Some(version as int),
        0x30 <= version <= 0x39 ==> version_tag(version).skip(3) == seq![version as char],
{
    reveal_strlit("QRK");
    text::law_escaping_is_safe_and_reads_back(version);
    assert(version_tag(version).take(3) =~= seq!['Q', 'R', 'K']);
    assert(version_tag(version).skip(3) =~= text::escape_ascii(version));
}

/// Each reason for dropping a datagram reads as its own line, which names the version or the type that
/// was seen.
pub proof fn law_decode_errors_read_as_their_lines(byte: u8)
    ensures
        DecodeErrorView::Foreign.message() == "not a quirk datagram"@,
        DecodeErrorView::Truncated.message() == "truncated frame"@,
        DecodeErrorView::UnknownType(byte).message() == "unknown frame type 0x"@ + text::hex_byte(byte),
        (DecodeErrorView::Version { peer: byte }).message()
            == "quirk wire version mismatch: the datagram is "@ + version_tag(byte)
            + ", this build speaks "@ + version_tag(0x30),
{
}

} // verus!
