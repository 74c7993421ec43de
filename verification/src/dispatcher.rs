//! The receive engine of a connection: what each inbound frame means for the datagram queue, the
//! stream's read half, and the send engine.
//!
//! The engine decides; its driver acts. [`Dispatcher::on_frame`] takes one inbound frame and returns
//! the [`Reaction`] that the driver carries out.

use bytes::Bytes;
use vstd::prelude::*;

use crate::payload;
use crate::stream::{flat, Reassembly, StreamRx};
use crate::wire::{decoded, encoded, DecodeErrorView, Frame, FrameView};

verus! {

/// What the receive engine knows about the stream.
pub struct Receiving {
    /// The reassembled part of the stream.
    pub stream: Reassembly,
    /// The sequence number the peer's FIN occupies, once seen.
    pub fin: Option<u32>,
    /// Whether the read half has been closed.
    pub read_closed: bool,
}

/// What an inbound frame calls for.
pub enum Response {
    /// Nothing.
    Ignore,
    /// Queue a datagram for the application.
    Datagram { data: Seq<u8> },
    /// Hand `delivered` to the reader, end the stream cleanly if it `finished`, and acknowledge
    /// everything below `ack`.
    Stream { delivered: Seq<u8>, finished: bool, ack: nat },
    /// Tell the send engine that the peer has every segment below `seq`.
    PeerAck { seq: u32 },
}

/// Whether a stream whose next segment is `next` has reached the FIN.
pub open spec fn complete(next: nat, fin: Option<u32>) -> bool {
    fin matches Some(fin) && fin <= next
}

/// The datagram that acknowledges everything below `seq`.
pub open spec fn ack_packet(seq: nat) -> Seq<u8> {
    encoded(FrameView::Ack { stream: 0, seq: seq as u32 })
}

impl Receiving {
    /// Nothing received, nothing finished.
    pub open spec fn fresh() -> Self {
        Receiving { stream: Reassembly::fresh(), fin: None, read_closed: false }
    }

    /// The read half is closed exactly once reassembly has reached the FIN.
    pub open spec fn wf(self) -> bool {
        &&& self.stream.wf()
        &&& self.stream.next <= u32::MAX
        &&& self.read_closed == complete(self.stream.next, self.fin)
        &&& self.read_closed ==> self.fin->0 < u32::MAX
    }

    /// What is known after `frame`. Data and FIN count while the read half is open; nothing counts
    /// after. Only the stream's own frames matter.
    pub open spec fn after(self, frame: FrameView) -> Self {
        match frame {
            FrameView::Data { stream: _, seq, bytes } if !self.read_closed => {
                let stream = self.stream.accepted(seq, bytes);
                Receiving { stream, read_closed: complete(stream.next, self.fin), ..self }
            },
            FrameView::Fin { stream: _, seq } if !self.read_closed => {
                Receiving {
                    fin: Some(seq),
                    read_closed: complete(self.stream.next, Some(seq)),
                    ..self
                }
            },
            _ => self,
        }
    }

    /// The cumulative ack that describes this state: one past the FIN once the stream has ended, so
    /// that the terminator counts as acknowledged, and the next segment needed before that.
    pub open spec fn ack(self) -> nat {
        if self.read_closed {
            (self.fin->0 + 1) as nat
        } else {
            self.stream.next
        }
    }

    /// What `frame` calls for. Every stream frame is answered with the ack of the state it led to; a
    /// FIN or data that comes again after the end delivers nothing and is acked past the FIN.
    pub open spec fn response(self, frame: FrameView) -> Response {
        match frame {
            FrameView::Datagram { data } => Response::Datagram { data },
            FrameView::Data { stream: _, seq, bytes } => Response::Stream {
                delivered: if self.read_closed {
                    Seq::empty()
                } else {
                    self.stream.delivered(seq, bytes)
                },
                finished: !self.read_closed && self.after(frame).read_closed,
                ack: self.after(frame).ack(),
            },
            FrameView::Fin { stream: _, seq } => Response::Stream {
                delivered: Seq::empty(),
                finished: !self.read_closed && self.after(frame).read_closed,
                ack: self.after(frame).ack(),
            },
            FrameView::Ack { stream: _, seq } => Response::PeerAck { seq },
            _ => Response::Ignore,
        }
    }

    /// Whether the sequence numbers that `frame` leads to are still sequence numbers.
    pub open spec fn fits(self, frame: FrameView) -> bool {
        &&& self.after(frame).stream.next <= u32::MAX
        &&& self.after(frame).read_closed ==> self.after(frame).fin->0 < u32::MAX
    }
}

/// What the driver does about an inbound frame.
pub enum Reaction {
    /// Nothing.
    Ignore,
    /// Queue the datagram for the application.
    Datagram {
        /// The datagram bytes.
        data: Bytes,
    },
    /// Write `delivered` to the reader; if `finished`, shut the read half for a clean EOF; send `reply`
    /// to the peer; if `finished`, signal that the inbound direction has closed.
    Stream {
        /// The bytes that are now in order.
        delivered: Vec<u8>,
        /// Whether the stream ends here.
        finished: bool,
        /// The encoded ack to send back.
        reply: Vec<u8>,
    },
    /// Pass the peer's ack to the send engine.
    PeerAck {
        /// The next sequence number the peer still needs.
        seq: u32,
    },
}

impl Reaction {
    /// Whether the driver is told to do exactly what `response` says.
    pub open spec fn carries_out(&self, response: Response) -> bool {
        match (*self, response) {
            (Reaction::Ignore, Response::Ignore) => true,
            (Reaction::Datagram { data }, Response::Datagram { data: bytes }) => payload::contents(data)
                == bytes,
            (
                Reaction::Stream { delivered, finished, reply },
                Response::Stream { delivered: bytes, finished: end, ack },
            ) => delivered@ == bytes && finished == end && ack <= u32::MAX && reply@ == ack_packet(ack),
            (Reaction::PeerAck { seq }, Response::PeerAck { seq: acked }) => seq == acked,
            _ => false,
        }
    }
}

/// The connection's receive engine: routes each inbound frame to the datagram queue, the stream's read
/// half (reassembling and acking), or the send engine (acks of our writes).
pub struct Dispatcher {
    reassembler: StreamRx,
    /// The FIN's sequence, once seen. The read half is only shut down once reassembly has caught up to
    /// it, so a reordered or retransmitted final data segment arriving after the FIN cannot be
    /// delivered as a truncated clean EOF.
    fin_seq: Option<u32>,
    /// Whether the read half has been closed. The engine keeps running past this to route the peer's
    /// acks of our own writes (the reverse direction outlives our read half), so it must not exit when
    /// the stream terminates, only stop delivering data.
    read_closed: bool,
}

impl View for Dispatcher {
    type V = Receiving;

    closed spec fn view(&self) -> Receiving {
        Receiving { stream: self.reassembler@, fin: self.fin_seq, read_closed: self.read_closed }
    }
}

impl Dispatcher {
    /// An engine for a fresh connection.
    pub fn new() -> (dispatcher: Self)
        ensures
            dispatcher@ == Receiving::fresh(),
            dispatcher@.wf(),
    {
        Dispatcher { reassembler: StreamRx::new(), fin_seq: None, read_closed: false }
    }

    /// Whether the FIN has been seen and reassembly has reached it, so that all data is delivered.
    fn terminate_if_complete(&self, ack: u32, fin_seq: Option<u32>) -> (terminates: bool)
        ensures
            terminates == complete(ack as nat, fin_seq),
    {
        match fin_seq {
            Some(fin_seq) => ack >= fin_seq,
            None => false,
        }
    }

    /// The datagram that acknowledges everything below `seq`.
    fn send_ack(&self, seq: u32) -> (packet: Vec<u8>)
        ensures
            packet@ == ack_packet(seq as nat),
    {
        Frame::Ack { stream: 0, seq }.to_bytes()
    }

    /// Whether the sequence numbers that `frame` leads to are still sequence numbers.
    pub fn fits(&self, frame: &Frame) -> (fits: bool)
        requires
            self@.wf(),
        ensures
            fits == self@.fits(frame@),
    {
        if self.read_closed {
            return true;
        }
        match frame {
            Frame::Data { seq, .. } => match self.reassembler.ack_after(*seq) {
                Some(ack) => match self.fin_seq {
                    Some(fin_seq) => ack < fin_seq || fin_seq < u32::MAX,
                    None => true,
                },
                None => false,
            },
            Frame::Fin { seq, .. } => self.reassembler.ack() < *seq || *seq < u32::MAX,
            _ => true,
        }
    }

    /// Take one inbound frame.
    pub fn on_frame(&mut self, frame: Frame) -> (reaction: Reaction)
        requires
            old(self)@.wf(),
            old(self)@.fits(frame@),
        ensures
            final(self)@ == old(self)@.after(frame@),
            final(self)@.wf(),
            reaction.carries_out(old(self)@.response(frame@)),
    {
        match frame {
            Frame::Datagram { data } => Reaction::Datagram { data },
            Frame::Data { stream: _, seq, bytes } => {
                if self.read_closed {
                    return self.past_the_end();
                }
                let delivered = self.reassembler.accept(seq, bytes);
                self.advance(delivered)
            },
            Frame::Fin { stream: _, seq } => {
                if self.read_closed {
                    return self.past_the_end();
                }
                self.fin_seq = Some(seq);
                self.advance(Vec::new())
            },
            Frame::Ack { stream: _, seq } => Reaction::PeerAck { seq },
            _ => Reaction::Ignore,
        }
    }

    /// Close the read half if the stream is complete, and acknowledge what there is.
    fn advance(&mut self, delivered: Vec<u8>) -> (reaction: Reaction)
        requires
            old(self)@.stream.next <= u32::MAX,
            !old(self)@.read_closed,
            complete(old(self)@.stream.next, old(self)@.fin) ==> old(self)@.fin->0 < u32::MAX,
        ensures
            final(self)@ == (Receiving {
                read_closed: complete(old(self)@.stream.next, old(self)@.fin),
                ..old(self)@
            }),
            reaction.carries_out(
                (Response::Stream {
                    delivered: delivered@,
                    finished: final(self)@.read_closed,
                    ack: final(self)@.ack(),
                }),
            ),
    {
        let ack: u32 = self.reassembler.ack();
        if let Some(fin_seq) = self.fin_seq {
            if self.terminate_if_complete(ack, self.fin_seq) {
                self.read_closed = true;
                // Ack one past the FIN so the sender's stop-and-wait loop sees the terminator
                // acknowledged.
                let reply = self.send_ack(fin_seq + 1);
                return Reaction::Stream { delivered, finished: true, reply };
            }
        }
        // Data may still be missing; ack progress so the sender retransmits the gap.
        let reply = self.send_ack(ack);
        Reaction::Stream { delivered, finished: false, reply }
    }

    /// A retransmitted FIN or trailing data after clean EOF: re-ack past the FIN so a peer that lost
    /// our terminating ack stops retransmitting, and deliver nothing.
    fn past_the_end(&self) -> (reaction: Reaction)
        requires
            self@.wf(),
            self@.read_closed,
        ensures
            reaction.carries_out(
                (Response::Stream { delivered: Seq::empty(), finished: false, ack: self@.ack() }),
            ),
    {
        let delivered: Vec<u8> = Vec::new();
        match self.fin_seq {
            Some(fin_seq) => {
                let reply = self.send_ack(fin_seq + 1);
                Reaction::Stream { delivered, finished: false, reply }
            },
            None => Reaction::Ignore,
        }
    }
}

// ---------------------------------------------------------------------------------------------------
// Laws
// ---------------------------------------------------------------------------------------------------
/// The end is told once and is final: the stream ends on a frame only if it had not ended before and
/// reassembly has reached the FIN; from then on no frame changes anything or delivers anything.
pub proof fn law_the_end_is_final(receiving: Receiving, frame: FrameView, later: FrameView)
    requires
        receiving.wf(),
    ensures
        (receiving.response(frame) matches Response::Stream { delivered, finished, ack } && finished)
            ==> {
            &&& !receiving.read_closed
            &&& receiving.after(frame).read_closed
            &&& complete(receiving.after(frame).stream.next, receiving.after(frame).fin)
        },
        receiving.read_closed ==> {
            &&& receiving.after(later) == receiving
            &&& receiving.response(later) matches Response::Stream { delivered, finished, ack }
                ==> delivered == Seq::<u8>::empty() && !finished && ack == receiving.ack()
        },
{
}

/// Acks are cumulative: what has been acknowledged once stays acknowledged, unless the peer takes back
/// segments it has sent, with a FIN that lies below what was already delivered.
pub proof fn law_acks_only_grow(receiving: Receiving, frame: FrameView)
    requires
        receiving.wf(),
        !(frame is Fin && frame->Fin_seq < receiving.stream.next),
    ensures
        receiving.ack() <= receiving.after(frame).ack(),
{
    match frame {
        FrameView::Data { stream, seq, bytes } => {
            crate::stream::law_the_ack_only_grows(receiving.stream, seq, bytes);
        },
        _ => {},
    }
}

/// The reverse direction outlives the read half: whatever has become of the inbound stream, the peer's
/// acks of our own writes reach the send engine, and change nothing else.
pub proof fn law_acks_always_reach_the_send_engine(receiving: Receiving, ack: u32)
    ensures
        decoded(ack_packet(ack as nat)) is Ok,
        receiving.response(decoded(ack_packet(ack as nat))->Ok_0) == (Response::PeerAck { seq: ack }),
        receiving.after(decoded(ack_packet(ack as nat))->Ok_0) == receiving,
{
    crate::wire::law_decode_inverts_encode(FrameView::Ack { stream: 0, seq: ack });
}

/// A datagram arrives as it was sent, and is nobody else's business: the frame that carries it is
/// queued with the same bytes, and the stream is as it was.
pub proof fn law_a_datagram_arrives_as_sent(receiving: Receiving, data: Seq<u8>)
    ensures
        decoded(encoded(FrameView::Datagram { data })) is Ok,
        receiving.response(decoded(encoded(FrameView::Datagram { data }))->Ok_0)
            == (Response::Datagram { data }),
        receiving.after(decoded(encoded(FrameView::Datagram { data }))->Ok_0) == receiving,
{
    crate::wire::law_decode_inverts_encode(FrameView::Datagram { data });
}

/// The end waits for every segment, whatever the peer sends: on a stream frame the stream ends exactly if
/// it had not ended, a FIN is known, the latest one, and every segment below its number has been
/// received. Only then is the ack one past the FIN; before that it is the first segment that has not
/// been received. A FIN delivers nothing, and data leaves what is known of the FIN alone.
pub proof fn law_the_end_waits_for_every_segment(receiving: Receiving, frame: FrameView)
    requires
        receiving.wf(),
        receiving.fits(frame),
        !receiving.read_closed,
        frame is Data || frame is Fin,
    ensures
        ({
            let after = receiving.after(frame);
            let fin = if frame is Fin {
                Some(frame->Fin_seq)
            } else {
                receiving.fin
            };
            let done = fin is Some && forall|seq: u32| seq < fin->0 ==> after.stream.holds(seq);
            &&& after.wf()
            &&& after.fin == fin
            &&& after.read_closed == done
            &&& frame is Fin ==> after.stream == receiving.stream
            &&& frame is Data ==> after.stream == receiving.stream.accepted(
                frame->Data_seq,
                frame->bytes,
            )
            &&& receiving.response(frame) is Stream
            &&& receiving.response(frame)->finished == done
            &&& receiving.response(frame)->delivered == if frame is Data {
                receiving.stream.delivered(frame->Data_seq, frame->bytes)
            } else {
                Seq::empty()
            }
            &&& done ==> receiving.response(frame)->ack == fin->0 + 1
            &&& !done ==> {
                let ack = receiving.response(frame)->ack;
                &&& ack <= u32::MAX
                &&& forall|seq: u32| seq < ack ==> after.stream.holds(seq)
                &&& !after.stream.holds(ack as u32)
            }
        }),
{
    let after = receiving.after(frame);
    if frame is Data {
        crate::stream::law_received_stays_received(
            receiving.stream,
            frame->Data_seq,
            frame->bytes,
        );
    }
    assert(!after.stream.holds(after.stream.next as u32));
}

/// Only the very last sequence number is too much: a frame can be taken unless it leaves no segment to
/// ask for, every one there can be having been received, or ends the stream at a FIN that has the last
/// number, past which there is no ack. After the end of the stream every frame can be.
pub proof fn law_only_the_last_number_is_too_much(receiving: Receiving, frame: FrameView)
    requires
        receiving.wf(),
    ensures
        receiving.read_closed ==> receiving.fits(frame),
        frame !is Data && frame !is Fin ==> receiving.fits(frame),
        !receiving.read_closed && frame is Fin ==> (receiving.fits(frame) <==> !(frame->Fin_seq
            == u32::MAX && forall|seq: u32| seq < u32::MAX ==> receiving.stream.holds(seq))),
        !receiving.read_closed && frame is Data ==> (receiving.fits(frame) <==> {
            &&& exists|seq: u32| !receiving.stream.holds(seq) && seq != frame->Data_seq
            &&& receiving.fin == Some(u32::MAX) ==> exists|seq: u32|
                seq < u32::MAX && !receiving.stream.holds(seq) && seq != frame->Data_seq
        }),
        receiving.fits(frame) ==> receiving.after(frame).wf(),
{
    let stream = receiving.stream;
    if !receiving.read_closed && frame is Fin {
        assert(!stream.holds(stream.next as u32));
    }
    if !receiving.read_closed && frame is Data {
        let seq = frame->Data_seq;
        let after = stream.accepted(seq, frame->bytes);
        crate::stream::law_received_stays_received(stream, seq, frame->bytes);
        crate::stream::law_a_segment_delivers_what_it_completes(stream, seq, frame->bytes);
        assert forall|other: u32| !stream.holds(other) && other != seq implies after.next <= other by {
            assert(!after.holds(other));
        }
    }
}

/// Every frame of the stream is answered, at any time, and nothing else is: data and FIN always call for
/// an ack. After the end of the stream they still do, so that a peer that lost the last ack gets it
/// again, one past the FIN, but nothing is delivered and the end is not reported again.
pub proof fn law_every_stream_frame_is_answered(receiving: Receiving, frame: FrameView)
    requires
        receiving.wf(),
    ensures
        receiving.response(frame) is Stream <==> frame is Data || frame is Fin,
        receiving.read_closed && (frame is Data || frame is Fin) ==> {
            &&& receiving.fin is Some
            &&& receiving.response(frame) == (Response::Stream {
                delivered: Seq::empty(),
                finished: false,
                ack: (receiving.fin->0 + 1) as nat,
            })
            &&& receiving.after(frame) == receiving
        },
{
}

/// Other frames are not the stream's business: a datagram is queued as it is, an ack goes to the send
/// engine, a greeting is ignored, and none of them changes what is known of the stream.
pub proof fn law_other_frames_leave_the_stream_alone(receiving: Receiving, frame: FrameView)
    requires
        frame !is Data && frame !is Fin,
    ensures
        receiving.after(frame) == receiving,
        frame is Datagram ==> receiving.response(frame) == (Response::Datagram {
            data: frame->data,
        }),
        frame is Ack ==> receiving.response(frame) == (Response::PeerAck { seq: frame->Ack_seq }),
        frame is Hello || frame is HelloAck ==> receiving.response(frame) is Ignore,
{
}

/// The driver is told what the frame calls for, no more and no less: the same bytes for the reader, the
/// end of the stream exactly when it ends, and a reply that reads as an ack of the same number.
pub proof fn law_a_reaction_says_what_is_called_for(reaction: Reaction, response: Response)
    requires
        reaction.carries_out(response),
    ensures
        response is Ignore <==> reaction is Ignore,
        response is Datagram <==> reaction is Datagram,
        response is Stream <==> reaction is Stream,
        response is PeerAck <==> reaction is PeerAck,
        response is Datagram ==> payload::contents(reaction->data) == response->data,
        response is PeerAck ==> reaction->seq == response->seq,
        response is Stream ==> {
            &&& reaction->delivered@ == response->delivered
            &&& reaction->finished == response->finished
            &&& response->ack <= u32::MAX
            &&& decoded(reaction->reply@) == Ok::<FrameView, DecodeErrorView>(
                FrameView::Ack { stream: 0, seq: response->ack as u32 },
            )
        },
{
    if response is Stream {
        crate::wire::law_decode_inverts_encode(
            FrameView::Ack { stream: 0, seq: response->ack as u32 },
        );
    }
}

// ---------------------------------------------------------------------------------------------------
// A stream as it arrives
// ---------------------------------------------------------------------------------------------------
/// One frame that reaches the receive engine while a stream is being received.
pub enum Arrival {
    /// The data segment numbered `seq`.
    Segment { stream: u32, seq: u32 },
    /// The FIN.
    End { stream: u32 },
    /// A frame that is not the stream's.
    Other { frame: FrameView },
}

impl Arrival {
    /// Whether this is an arrival of a stream of `count` segments.
    pub open spec fn belongs(self, count: nat) -> bool {
        match self {
            Arrival::Segment { stream: _, seq } => seq < count,
            Arrival::End { .. } => true,
            Arrival::Other { frame } => frame !is Data && frame !is Fin,
        }
    }

    /// The frame that arrives, of the stream of `chunks`: segment `i` carries chunk `i`, and the FIN is
    /// numbered one past the last segment.
    pub open spec fn frame(self, chunks: Seq<Seq<u8>>) -> FrameView {
        match self {
            Arrival::Segment { stream, seq } => FrameView::Data {
                stream,
                seq,
                bytes: chunks[seq as int],
            },
            Arrival::End { stream } => FrameView::Fin { stream, seq: chunks.len() as u32 },
            Arrival::Other { frame } => frame,
        }
    }
}

/// Whether segment `seq` is among `arrivals`.
pub open spec fn came(arrivals: Seq<Arrival>, seq: nat) -> bool {
    exists|i: int|
        0 <= i < arrivals.len() && #[trigger] arrivals[i] is Segment && arrivals[i]->seq == seq
}

/// Whether the FIN is among `arrivals`.
pub open spec fn end_came(arrivals: Seq<Arrival>) -> bool {
    exists|i: int| 0 <= i < arrivals.len() && #[trigger] arrivals[i] is End
}

/// What a receive engine has made of the frames that reached it.
pub struct Heard {
    /// What the engine knows.
    pub receiving: Receiving,
    /// All that it has handed to the reader.
    pub bytes: Seq<u8>,
    /// How often it has reported the end of the stream.
    pub ends: nat,
    /// What it has acknowledged last, or nothing.
    pub ack: nat,
}

impl Heard {
    /// What a fresh engine makes of `arrivals` of the stream of `chunks`.
    pub open spec fn after(chunks: Seq<Seq<u8>>, arrivals: Seq<Arrival>) -> Self
        decreases arrivals.len(),
    {
        if arrivals.len() == 0 {
            Heard { receiving: Receiving::fresh(), bytes: Seq::empty(), ends: 0, ack: 0 }
        } else {
            let before = Heard::after(chunks, arrivals.drop_last());
            let frame = arrivals.last().frame(chunks);
            let receiving = before.receiving.after(frame);
            match before.receiving.response(frame) {
                Response::Stream { delivered, finished, ack } => Heard {
                    receiving,
                    bytes: before.bytes + delivered,
                    ends: before.ends + if finished {
                        1nat
                    } else {
                        0
                    },
                    ack,
                },
                _ => Heard { receiving, ..before },
            }
        }
    }
}

/// One more arrival adds just itself to what came.
proof fn lemma_came(arrivals: Seq<Arrival>)
    requires
        arrivals.len() > 0,
    ensures
        forall|seq: nat| #[trigger]
            came(arrivals, seq) <==> came(arrivals.drop_last(), seq) || (arrivals.last() is Segment
                && arrivals.last()->seq == seq),
        end_came(arrivals) <==> end_came(arrivals.drop_last()) || arrivals.last() is End,
{
    let fewer = arrivals.drop_last();
    let last = arrivals.len() - 1;
    assert forall|seq: nat| #[trigger]
        came(arrivals, seq) <==> came(fewer, seq) || (arrivals.last() is Segment
            && arrivals.last()->seq == seq) by {
        if came(fewer, seq) {
            let i = choose|i: int|
                0 <= i < fewer.len() && #[trigger] fewer[i] is Segment && fewer[i]->seq == seq;
            assert(arrivals[i] is Segment);
        }
        if came(arrivals, seq) {
            let i = choose|i: int|
                0 <= i < arrivals.len() && #[trigger] arrivals[i] is Segment && arrivals[i]->seq == seq;
            if i < last {
                assert(fewer[i] is Segment);
            }
        }
        if arrivals.last() is Segment {
            assert(arrivals[last] is Segment);
        }
    }
    if end_came(fewer) {
        let i = choose|i: int| 0 <= i < fewer.len() && #[trigger] fewer[i] is End;
        assert(arrivals[i] is End);
    }
    if end_came(arrivals) {
        let i = choose|i: int| 0 <= i < arrivals.len() && #[trigger] arrivals[i] is End;
        if i < last {
            assert(fewer[i] is End);
        }
    }
    if arrivals.last() is End {
        assert(arrivals[last] is End);
    }
}

/// What the engine knows says what came, and the other way round.
proof fn lemma_heard(chunks: Seq<Seq<u8>>, arrivals: Seq<Arrival>)
    requires
        chunks.len() < u32::MAX,
        forall|i: int| 0 <= i < arrivals.len() ==> (#[trigger] arrivals[i]).belongs(chunks.len()),
    ensures
        ({
            let heard = Heard::after(chunks, arrivals);
            let receiving = heard.receiving;
            &&& receiving.wf()
            &&& receiving.stream.agrees(chunks)
            &&& forall|seq: u32| #[trigger]
                receiving.stream.holds(seq) <==> came(arrivals, seq as nat)
            &&& receiving.fin == if end_came(arrivals) {
                Some(chunks.len() as u32)
            } else {
                None
            }
            &&& heard.bytes == flat(chunks.take(receiving.stream.next as int))
            &&& heard.ends == if receiving.read_closed {
                1nat
            } else {
                0
            }
            &&& heard.ack == receiving.ack()
        }),
    decreases arrivals.len(),
{
    if arrivals.len() == 0 {
        assert(chunks.take(0) =~= Seq::empty());
    } else {
        let fewer = arrivals.drop_last();
        let arrival = arrivals.last();
        assert(forall|i: int| 0 <= i < fewer.len() ==> fewer[i] == arrivals[i]);
        assert(arrivals[arrivals.len() - 1].belongs(chunks.len()));
        lemma_heard(chunks, fewer);
        lemma_came(arrivals);
        let before = Heard::after(chunks, fewer);
        assert(before.bytes + Seq::<u8>::empty() =~= before.bytes);
        match arrival {
            Arrival::Segment { stream, seq } => {
                crate::stream::lemma_accept(before.receiving.stream, chunks, seq);
                if before.receiving.read_closed {
                    assert(before.receiving.stream.holds(seq));
                }
            },
            _ => {},
        }
    }
}

/// A clean end is never a truncated stream: whatever order the segments and the FIN of a stream arrive
/// in, however often, and whatever else arrives between them, with `missing` the number of the first
/// segment that has not arrived: exactly the chunks before it have been handed to the reader, once each
/// and in order; the end is reported exactly once the FIN and every segment have arrived, and once only;
/// and the ack is one past the FIN only then, and `missing` before. The engine can take whatever arrives
/// next.
pub proof fn law_a_late_segment_is_never_lost(
    chunks: Seq<Seq<u8>>,
    arrivals: Seq<Arrival>,
    missing: nat,
    next: Arrival,
)
    requires
        chunks.len() < u32::MAX,
        forall|i: int| 0 <= i < arrivals.len() ==> (#[trigger] arrivals[i]).belongs(chunks.len()),
        missing <= chunks.len(),
        forall|seq: nat| seq < missing ==> #[trigger] came(arrivals, seq),
        missing < chunks.len() ==> !came(arrivals, missing),
        next.belongs(chunks.len()),
    ensures
        ({
            let heard = Heard::after(chunks, arrivals);
            let over = end_came(arrivals) && missing == chunks.len();
            &&& heard.bytes == flat(chunks.take(missing as int))
            &&& heard.ends == if over {
                1nat
            } else {
                0
            }
            &&& heard.ack == if over {
                chunks.len() + 1
            } else {
                missing
            }
            &&& over ==> heard.bytes == flat(chunks)
            &&& heard.receiving.wf()
            &&& heard.receiving.fits(next.frame(chunks))
        }),
{
    let heard = Heard::after(chunks, arrivals);
    let stream = heard.receiving.stream;
    lemma_heard(chunks, arrivals);
    assert(stream.next == missing) by {
        if stream.next < missing {
            assert(came(arrivals, stream.next));
            assert(stream.holds(stream.next as u32));
        }
        if missing < stream.next {
            assert(stream.holds(missing as u32));
        }
    }
    assert(chunks.take(chunks.len() as int) =~= chunks);
    if next is Segment {
        crate::stream::lemma_accept(stream, chunks, next->seq);
    }
}

} // verus!
