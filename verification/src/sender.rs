//! The send engine of a connection: stop-and-wait delivery of the user's writes, then of the FIN.
//!
//! The engine decides; its driver acts. The driver reads a chunk of the user's writes when it is told
//! to, transmits [`Sender::packet`], and reports back an ack ([`Sender::on_ack`]) or a timeout
//! ([`Sender::on_timeout`]), after which it transmits the packet again.

use vstd::prelude::*;

use crate::payload;
use crate::wire::{decoded, encoded, DecodeErrorView, Frame, FrameView};
use crate::{MAX_DATAGRAM, STREAM_CHUNK};

verus! {

/// What the send engine is doing.
pub enum Phase {
    /// Waiting for the user to write or to finish.
    Reading,
    /// Retransmitting `packet` until it is acked; `fin` if it is the terminator.
    Awaiting { packet: Seq<u8>, fin: bool },
    /// The terminator has been acked.
    Finished,
    /// No ack can arrive any more.
    Stopped,
}

/// What the send engine knows.
pub struct Sending {
    /// The sequence number of the packet being sent, or of the next one to send. Every data segment
    /// below it has been acked.
    pub seq: nat,
    /// What the engine is doing.
    pub phase: Phase,
}

/// The datagram that carries data segment `seq`.
pub open spec fn data_packet(seq: nat, bytes: Seq<u8>) -> Seq<u8> {
    encoded(FrameView::Data { stream: 0, seq: seq as u32, bytes })
}

/// The datagram that says the stream ends before segment `seq`.
pub open spec fn fin_packet(seq: nat) -> Seq<u8> {
    encoded(FrameView::Fin { stream: 0, seq: seq as u32 })
}

impl Sending {
    /// Nothing sent yet.
    pub open spec fn fresh() -> Self {
        Sending { seq: 0, phase: Phase::Reading }
    }

    /// What the engine does about a read: a chunk goes out as the next segment, and the end of the
    /// writes (an empty chunk) as the FIN, which occupies the sequence number after the last segment.
    pub open spec fn after_read(self, chunk: Seq<u8>) -> Self {
        if chunk.len() == 0 {
            Sending { phase: Phase::Awaiting { packet: fin_packet(self.seq), fin: true }, ..self }
        } else {
            Sending {
                phase: Phase::Awaiting { packet: data_packet(self.seq, chunk), fin: false },
                ..self
            }
        }
    }

    /// What the engine does about an ack: one that passes the packet ends the wait for it, any other
    /// is stale. `None` means that no ack can ever arrive.
    pub open spec fn after_ack(self, ack: Option<u32>) -> Self {
        match ack {
            None => Sending { phase: Phase::Stopped, ..self },
            Some(ack) => if ack <= self.seq {
                self
            } else if self.phase->fin {
                Sending { phase: Phase::Finished, ..self }
            } else {
                Sending { seq: self.seq + 1, phase: Phase::Reading }
            },
        }
    }
}

/// What the driver of the send engine does next.
#[derive(Debug, Clone, Copy, PartialEq, Eq, Structural)]
pub enum Next {
    /// Read the next chunk of the user's writes.
    Read,
    /// Keep waiting for an ack.
    Wait,
    /// Stop: the stream is finished, or nothing can finish it.
    Stop,
}

/// What the driver of a send engine in phase `phase` does next.
pub open spec fn next_of(phase: Phase) -> Next {
    match phase {
        Phase::Reading => Next::Read,
        Phase::Awaiting { .. } => Next::Wait,
        Phase::Finished => Next::Stop,
        Phase::Stopped => Next::Stop,
    }
}

/// The connection's send engine: delivers each chunk of the user's writes reliably with stop-and-wait
/// retransmission, then finishes the stream by delivering a FIN reliably too, so a lost terminator is
/// retransmitted rather than hanging the peer's reader forever.
pub struct Sender {
    seq: u32,
    /// The encoded frame in flight, while one is.
    packet: Vec<u8>,
    state: State,
}

enum State {
    Reading,
    Awaiting { fin: bool },
    Finished,
    Stopped,
}

impl View for Sender {
    type V = Sending;

    closed spec fn view(&self) -> Sending {
        Sending {
            seq: self.seq as nat,
            phase: match self.state {
                State::Reading => Phase::Reading,
                State::Awaiting { fin } => Phase::Awaiting { packet: self.packet@, fin },
                State::Finished => Phase::Finished,
                State::Stopped => Phase::Stopped,
            },
        }
    }
}

impl Sender {
    /// The packet in flight always fits the peer's receive buffer.
    #[verifier::type_invariant]
    spec fn packet_fits(self) -> bool {
        self.state is Awaiting ==> self.packet@.len() <= MAX_DATAGRAM
    }

    /// An engine for a fresh connection.
    pub fn new() -> (sender: Self)
        ensures
            sender@ == Sending::fresh(),
    {
        Sender { seq: 0, packet: Vec::new(), state: State::Reading }
    }

    /// Take one read of the user's writes, of at most [`STREAM_CHUNK`] bytes; an empty chunk says that
    /// they have ended.
    pub fn on_read(&mut self, chunk: &[u8])
        requires
            old(self)@.phase is Reading,
            chunk@.len() <= STREAM_CHUNK,
        ensures
            final(self)@ == old(self)@.after_read(chunk@),
    {
        if chunk.len() == 0 {
            self.packet = Frame::Fin { stream: 0, seq: self.seq }.to_bytes();
            self.state = State::Awaiting { fin: true };
        } else {
            let bytes = payload::copy_from_slice(chunk);
            self.packet = Frame::Data { stream: 0, seq: self.seq, bytes }.to_bytes();
            self.state = State::Awaiting { fin: false };
        }
    }

    /// The datagram in flight: what to transmit once a chunk or the end of the writes has been read.
    pub fn packet(&self) -> (packet: &[u8])
        requires
            self@.phase is Awaiting,
        ensures
            packet@ == self@.phase->packet,
            packet@.len() <= MAX_DATAGRAM,
    {
        proof {
            use_type_invariant(self);
        }
        self.packet.as_slice()
    }

    /// The wait for an ack has timed out: the datagram to transmit again. It is the one in flight, and
    /// it stays in flight, however often the wait times out.
    pub fn on_timeout(&self) -> (packet: &[u8])
        requires
            self@.phase is Awaiting,
        ensures
            packet@ == self@.phase->packet,
            packet@.len() <= MAX_DATAGRAM,
    {
        self.packet()
    }

    /// Whether the outbound direction has drained: every written byte and the FIN have been acked, so
    /// nothing is left to retransmit and the connection may be dropped. An engine that was stopped
    /// before that never drains.
    pub fn drained(&self) -> (drained: bool)
        ensures
            drained == (self@.phase is Finished),
    {
        match self.state {
            State::Finished => true,
            _ => false,
        }
    }

    /// Take one ack, or `None` if the ack channel has closed, meaning that the receive engine is gone
    /// and no ack can ever arrive.
    pub fn on_ack(&mut self, ack: Option<u32>) -> (next: Next)
        requires
            old(self)@.phase is Awaiting,
        ensures
            final(self)@ == old(self)@.after_ack(ack),
            next == next_of(final(self)@.phase),
            next == Next::Wait <==> ack is Some && ack->0 <= old(self)@.seq,
            next == Next::Wait ==> final(self)@ == old(self)@,
            next == Next::Read <==> ack is Some && ack->0 > old(self)@.seq && !old(self)@.phase->fin,
            next == Next::Stop <==> final(self)@.phase is Finished || final(self)@.phase is Stopped,
    {
        match ack {
            None => {
                self.state = State::Stopped;
                Next::Stop
            },
            Some(ack) => {
                if ack <= self.seq {
                    return Next::Wait;  // stale ack; keep waiting
                }
                match self.state {
                    State::Awaiting { fin: false } => {
                        self.state = State::Reading;
                        self.seq = self.seq + 1;
                        Next::Read
                    },
                    _ => {
                        self.state = State::Finished;
                        Next::Stop
                    },
                }
            },
        }
    }
}

// ---------------------------------------------------------------------------------------------------
// Runs
// ---------------------------------------------------------------------------------------------------
/// One step of the send engine. A timeout is none: it repeats the packet in flight and leaves the engine
/// as it is.
pub enum Step {
    /// The engine reads a chunk of the user's writes, or their end (an empty chunk).
    Read { chunk: Seq<u8> },
    /// The engine takes an ack, from whatever peer, or learns that none can arrive any more.
    Ack { ack: Option<u32> },
}

impl Sending {
    /// Whether `step` can be taken.
    pub open spec fn can(self, step: Step) -> bool {
        match step {
            Step::Read { chunk } => self.phase is Reading && chunk.len() <= STREAM_CHUNK,
            Step::Ack { .. } => self.phase is Awaiting,
        }
    }

    /// The engine after `step`.
    pub open spec fn after(self, step: Step) -> Self {
        match step {
            Step::Read { chunk } => self.after_read(chunk),
            Step::Ack { ack } => self.after_ack(ack),
        }
    }

    /// A fresh engine after `steps`.
    pub open spec fn run(steps: Seq<Step>) -> Self
        decreases steps.len(),
    {
        if steps.len() == 0 {
            Sending::fresh()
        } else {
            Sending::run(steps.drop_last()).after(steps.last())
        }
    }

    /// Whether a fresh engine can take `steps`.
    pub open spec fn possible(steps: Seq<Step>) -> bool
        decreases steps.len(),
    {
        steps.len() > 0 ==> Sending::possible(steps.drop_last()) && Sending::run(
            steps.drop_last(),
        ).can(steps.last())
    }
}

/// The chunks of the user's writes that were read in `steps`.
pub open spec fn chunks_read(steps: Seq<Step>) -> Seq<Seq<u8>>
    decreases steps.len(),
{
    if steps.len() == 0 {
        Seq::empty()
    } else {
        match steps.last() {
            Step::Read { chunk } if chunk.len() > 0 => chunks_read(steps.drop_last()).push(chunk),
            _ => chunks_read(steps.drop_last()),
        }
    }
}

/// Whether the end of the user's writes was read in `steps`.
pub open spec fn end_read(steps: Seq<Step>) -> bool
    decreases steps.len(),
{
    steps.len() > 0 && (end_read(steps.drop_last()) || (steps.last() matches Step::Read { chunk }
        && chunk.len() == 0))
}

/// The packets sent in `steps`, in order, retransmissions left out.
pub open spec fn sent(steps: Seq<Step>) -> Seq<Seq<u8>>
    decreases steps.len(),
{
    if steps.len() == 0 {
        Seq::empty()
    } else if steps.last() is Read {
        sent(steps.drop_last()).push(Sending::run(steps).phase->packet)
    } else {
        sent(steps.drop_last())
    }
}

/// The packets of a stream: one data segment per chunk, numbered from zero, then the FIN if the stream
/// has `ended`.
pub open spec fn stream_packets(chunks: Seq<Seq<u8>>, ended: bool) -> Seq<Seq<u8>> {
    let segments = Seq::new(chunks.len(), |i: int| data_packet(i as nat, chunks[i]));
    if ended {
        segments.push(fin_packet(chunks.len()))
    } else {
        segments
    }
}

/// Whether `step` is an ack of every packet up to the one numbered `seq`.
pub open spec fn acks_past(step: Step, seq: nat) -> bool {
    step matches Step::Ack { ack: Some(ack) } && ack > seq
}

/// Where the engine is says how much it has read and sent.
proof fn lemma_run(steps: Seq<Step>)
    requires
        Sending::possible(steps),
    ensures
        ({
            let sending = Sending::run(steps);
            let chunks = chunks_read(steps);
            &&& sending.seq <= u32::MAX
            &&& forall|i: int| 0 <= i < chunks.len() ==> 0 < (#[trigger] chunks[i]).len()
                <= STREAM_CHUNK
            &&& sent(steps) == stream_packets(chunks, end_read(steps))
            &&& match sending.phase {
                Phase::Reading => sending.seq == chunks.len() && !end_read(steps),
                Phase::Awaiting { packet, fin } => end_read(steps) == fin && sending.seq + 1 == sent(
                    steps,
                ).len() && packet == sent(steps).last(),
                Phase::Finished => end_read(steps) && sending.seq == chunks.len(),
                Phase::Stopped => sending.seq + 1 == sent(steps).len(),
            }
        }),
    decreases steps.len(),
{
    if steps.len() > 0 {
        let before = steps.drop_last();
        lemma_run(before);
        if steps.last() is Read {
            assert(sent(steps) =~= stream_packets(chunks_read(steps), end_read(steps)));
        }
    } else {
        assert(sent(steps) =~= stream_packets(chunks_read(steps), end_read(steps)));
    }
}

/// The engine moves past a packet only on an ack past it, taken while that packet was the last one sent.
proof fn lemma_acked(steps: Seq<Step>, k: nat)
    requires
        Sending::possible(steps),
        k < Sending::run(steps).seq,
    ensures
        exists|i: int|
            0 <= i < steps.len() && #[trigger] acks_past(steps[i], k) && sent(steps.take(i)).len() == k
                + 1,
    decreases steps.len(),
{
    let before = steps.drop_last();
    lemma_run(before);
    let last = steps.len() - 1;
    if k < Sending::run(before).seq {
        lemma_acked(before, k);
        let i = choose|i: int|
            0 <= i < before.len() && #[trigger] acks_past(before[i], k) && sent(before.take(i)).len()
                == k + 1;
        assert(before.take(i) =~= steps.take(i));
        assert(acks_past(steps[i], k));
    } else {
        assert(before =~= steps.take(last));
        assert(acks_past(steps[last], k));
    }
}

/// What goes out is the user's writes: retransmissions left out, the engine sends one data frame per
/// chunk it reads, numbered from zero in the order of the writes, each with at least one and at most
/// [`STREAM_CHUNK`] bytes, and after the end of the writes the FIN, numbered one past the last of them,
/// and nothing after it. Numbers do not wrap, and no packet is too large for the peer's receive buffer.
/// An engine that has finished has sent all of it.
pub proof fn law_the_frames_sent_are_the_writes_in_order(steps: Seq<Step>)
    requires
        Sending::possible(steps),
    ensures
        sent(steps) == stream_packets(chunks_read(steps), end_read(steps)),
        sent(steps).len() <= u32::MAX + 1,
        forall|i: int|
            0 <= i < chunks_read(steps).len() ==> 0 < (#[trigger] chunks_read(steps)[i]).len()
                <= STREAM_CHUNK,
        forall|i: int|
            0 <= i < sent(steps).len() ==> (#[trigger] sent(steps)[i]).len() <= MAX_DATAGRAM,
        Sending::run(steps).phase is Finished ==> end_read(steps),
        forall|i: int|
            0 <= i < chunks_read(steps).len() ==> decoded(#[trigger] sent(steps)[i]) == Ok::<
                FrameView,
                DecodeErrorView,
            >(FrameView::Data { stream: 0, seq: i as u32, bytes: chunks_read(steps)[i] }),
        end_read(steps) ==> sent(steps).len() == chunks_read(steps).len() + 1 && decoded(
            sent(steps).last(),
        ) == Ok::<FrameView, DecodeErrorView>(
            FrameView::Fin { stream: 0, seq: chunks_read(steps).len() as u32 },
        ),
        !end_read(steps) ==> sent(steps).len() == chunks_read(steps).len(),
{
    lemma_run(steps);
    let chunks = chunks_read(steps);
    assert forall|i: int| 0 <= i < chunks.len() implies decoded(#[trigger] sent(steps)[i]) == Ok::<
        FrameView,
        DecodeErrorView,
    >(FrameView::Data { stream: 0, seq: i as u32, bytes: chunks[i] }) by {
        crate::wire::law_decode_inverts_encode(
            FrameView::Data { stream: 0, seq: i as u32, bytes: chunks[i] },
        );
    }
    crate::wire::law_decode_inverts_encode(FrameView::Fin { stream: 0, seq: chunks.len() as u32 });
}

/// Stop and wait: a packet is sent only after an ack past the one before it has come in, and that ack
/// came while the packet before it was the last one sent.
pub proof fn law_a_packet_waits_for_the_ack_of_the_one_before(steps: Seq<Step>, k: nat)
    requires
        Sending::possible(steps),
        k + 1 < sent(steps).len(),
    ensures
        exists|i: int|
            0 <= i < steps.len() && #[trigger] acks_past(steps[i], k) && sent(steps.take(i)).len() == k
                + 1,
{
    lemma_run(steps);
    lemma_acked(steps, k);
}

/// Draining takes an ack past the FIN: an ack of a data segment, an ack that stops at the FIN's own
/// sequence number, and the end of all acks do not drain the engine.
pub proof fn law_only_an_ack_past_the_fin_drains(sending: Sending, ack: Option<u32>)
    requires
        sending.phase is Awaiting,
    ensures
        sending.after_ack(ack).phase is Finished <==> sending.phase->fin && ack is Some && ack->0
            > sending.seq,
{
}

/// The driver is told to do what the engine is waiting for, whatever is in flight: to keep waiting
/// exactly on an ack that does not pass the packet, and then the packet stays in flight as it is; to read
/// on exactly when a data segment has just been acked, and then the next number is one higher; to stop
/// exactly when the FIN has been acked or no ack can arrive any more. It never stops with a packet
/// unacked that could still be.
pub proof fn law_the_driver_waits_until_the_packet_is_acked(sending: Sending, ack: Option<u32>)
    requires
        sending.phase is Awaiting,
    ensures
        ({
            let after = sending.after_ack(ack);
            let next = next_of(after.phase);
            let fin = sending.phase->fin;
            let passes = ack is Some && ack->0 > sending.seq;
            let stale = ack is Some && ack->0 <= sending.seq;
            &&& stale <==> next == Next::Wait
            &&& stale ==> after == sending
            &&& passes && !fin <==> next == Next::Read
            &&& passes && !fin ==> after.phase is Reading && after.seq == sending.seq + 1
            &&& (passes && fin) || ack is None <==> next == Next::Stop
            &&& passes && fin ==> after.phase is Finished && after.seq == sending.seq
            &&& ack is None ==> after.phase is Stopped && after.seq == sending.seq
        }),
{
}

/// What the driver is told follows where the engine is, for every engine: it reads while the engine
/// reads, waits while any packet at all is in flight, and stops only if the engine is done for good.
pub proof fn law_the_driver_follows_the_engine(sending: Sending)
    ensures
        sending.phase is Reading <==> next_of(sending.phase) == Next::Read,
        sending.phase is Awaiting <==> next_of(sending.phase) == Next::Wait,
        sending.phase is Finished || sending.phase is Stopped <==> next_of(sending.phase)
            == Next::Stop,
{
}

/// A read puts one packet in flight that says what was read: a chunk goes out as the data segment with
/// the engine's number and exactly the bytes of the chunk, the end of the writes as the FIN with that
/// number. The number stays as it is until the packet is acked.
pub proof fn law_a_read_puts_what_was_read_in_flight(sending: Sending, chunk: Seq<u8>)
    requires
        sending.phase is Reading,
        sending.seq <= u32::MAX,
    ensures
        ({
            let after = sending.after_read(chunk);
            &&& after.seq == sending.seq
            &&& after.phase is Awaiting
            &&& after.phase->fin == (chunk.len() == 0)
            &&& decoded(after.phase->packet) == Ok::<FrameView, DecodeErrorView>(
                if chunk.len() == 0 {
                    FrameView::Fin { stream: 0, seq: sending.seq as u32 }
                } else {
                    FrameView::Data { stream: 0, seq: sending.seq as u32, bytes: chunk }
                },
            )
        }),
{
    crate::wire::law_decode_inverts_encode(FrameView::Fin { stream: 0, seq: sending.seq as u32 });
    crate::wire::law_decode_inverts_encode(
        FrameView::Data { stream: 0, seq: sending.seq as u32, bytes: chunk },
    );
}

/// A stream packet always fits the receiver's buffer: a chunk the engine reads is at most
/// [`STREAM_CHUNK`] bytes, and no packet made of one is longer than [`MAX_DATAGRAM`].
pub proof fn law_stream_packets_fit(sending: Sending, chunk: Seq<u8>)
    requires
        chunk.len() <= STREAM_CHUNK,
    ensures
        sending.after_read(chunk).phase is Awaiting,
        sending.after_read(chunk).phase->packet.len() <= MAX_DATAGRAM,
{
}

} // verus!
