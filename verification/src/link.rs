//! What the two engines achieve together: a reliable stream over an unreliable link.
//!
//! A [`Link`] is one direction of a connection as an onlooker sees it: a send engine, a receive engine,
//! and between them a network that may lose, repeat, delay and reorder every datagram. The laws below
//! hold after every history that such a network can produce, whatever the application wrote.
//!
//! The wire is not authenticated, so the model has no forger: stream frames that neither engine sent on
//! this connection, such as those left over from an earlier connection at the same address, are outside
//! of it. Every other stray datagram is inside, as [`Event::Noise`].

use vstd::prelude::*;

use crate::connection::quiesced;
use crate::dispatcher::{ack_packet, Receiving, Response};
use crate::sender::{data_packet, fin_packet, Phase, Sending};
use crate::stream::flat;
use crate::wire::{decoded, DecodeErrorView, FrameView};
use crate::{MAX_DATAGRAM, STREAM_CHUNK};

verus! {

/// One direction of a connection.
pub struct Link {
    /// The chunks of the writer's bytes that the send engine has read.
    pub written: Seq<Seq<u8>>,
    /// Whether the writer has finished.
    pub ended: bool,
    /// Whether the send engine has reported the outbound direction drained.
    pub drained: bool,
    /// The send engine.
    pub sending: Sending,
    /// Every datagram the send engine has transmitted. Any of them may arrive, any number of times, in
    /// any order, or never.
    pub packets: Set<Seq<u8>>,
    /// The receive engine.
    pub receiving: Receiving,
    /// The bytes the receive engine has handed to the reader.
    pub read: Seq<u8>,
    /// How often the reader has been told that the stream ended cleanly.
    pub ends: nat,
    /// Every datagram the receive engine has answered with. Any of them may arrive, any number of
    /// times, in any order, or never.
    pub replies: Set<Seq<u8>>,
}

/// One event on a link.
pub enum Event {
    /// The send engine reads a chunk of the writer's bytes, or their end (an empty chunk), and
    /// transmits it.
    Read { chunk: Seq<u8> },
    /// The send engine times out and transmits its packet again.
    Timeout,
    /// The network delivers one of the transmitted datagrams.
    Deliver { packet: Seq<u8> },
    /// The network delivers one of the replies.
    Reply { packet: Seq<u8> },
    /// The network delivers a datagram from elsewhere that is no frame of this stream: undecodable, or
    /// a handshake, datagram or ack frame.
    Noise { packet: Seq<u8> },
    /// The sending side's receive engine goes away.
    Abandon,
}

/// The frame of the stream that a datagram carries, if it carries one.
pub open spec fn stream_frame(packet: Seq<u8>) -> Option<FrameView> {
    match decoded(packet) {
        Ok(FrameView::Data { stream, seq, bytes }) => Some(FrameView::Data { stream, seq, bytes }),
        Ok(FrameView::Fin { stream, seq }) => Some(FrameView::Fin { stream, seq }),
        _ => None,
    }
}

impl Link {
    /// A link on which nothing has happened.
    pub open spec fn fresh() -> Self {
        Link {
            written: Seq::empty(),
            ended: false,
            drained: false,
            sending: Sending::fresh(),
            packets: Set::empty(),
            receiving: Receiving::fresh(),
            read: Seq::empty(),
            ends: 0,
            replies: Set::empty(),
        }
    }

    /// Whether `event` can happen. The send engine reads at most [`STREAM_CHUNK`] bytes at a time, and
    /// sequence numbers are 32 bits wide, so a stream has fewer than `u32::MAX` segments; nothing else is
    /// asked of the application or the network.
    pub open spec fn can(self, event: Event) -> bool {
        match event {
            Event::Read { chunk } => self.sending.phase is Reading && chunk.len() <= STREAM_CHUNK && (
            chunk.len() > 0 ==> self.written.len() + 1 < u32::MAX),
            Event::Timeout => self.sending.phase is Awaiting,
            Event::Deliver { packet } => self.packets.contains(packet),
            Event::Reply { packet } => self.replies.contains(packet) && self.sending.phase is Awaiting,
            Event::Noise { packet } => stream_frame(packet) is None,
            Event::Abandon => self.sending.phase is Awaiting,
        }
    }

    /// The receive engine takes one frame.
    pub open spec fn take(self, frame: FrameView) -> Self {
        let receiving = self.receiving.after(frame);
        match self.receiving.response(frame) {
            Response::Stream { delivered, finished, ack } => Link {
                receiving,
                read: self.read + delivered,
                ends: self.ends + if finished {
                    1nat
                } else {
                    0
                },
                replies: self.replies.insert(ack_packet(ack)),
                ..self
            },
            _ => Link { receiving, ..self },
        }
    }

    /// The link after `event`.
    pub open spec fn after(self, event: Event) -> Self {
        match event {
            Event::Read { chunk } => {
                let sending = self.sending.after_read(chunk);
                Link {
                    written: if chunk.len() == 0 {
                        self.written
                    } else {
                        self.written.push(chunk)
                    },
                    ended: chunk.len() == 0,
                    sending,
                    packets: self.packets.insert(sending.phase->packet),
                    ..self
                }
            },
            Event::Timeout => Link {
                packets: self.packets.insert(self.sending.phase->packet),
                ..self
            },
            Event::Deliver { packet } => match decoded(packet) {
                Ok(frame) => self.take(frame),
                Err(_) => self,
            },
            Event::Reply { packet } => match decoded(packet) {
                Ok(FrameView::Ack { stream, seq }) => Link {
                    sending: self.sending.after_ack(Some(seq)),
                    drained: self.sending.after_ack(Some(seq)).phase is Finished,
                    ..self
                },
                _ => self,
            },
            Event::Noise { packet } => match decoded(packet) {
                Ok(frame) => self.take(frame),
                Err(_) => self,
            },
            Event::Abandon => Link { sending: self.sending.after_ack(None), ..self },
        }
    }

    /// The link after a history.
    pub open spec fn replay(history: Seq<Event>) -> Self
        decreases history.len(),
    {
        if history.len() == 0 {
            Link::fresh()
        } else {
            Link::replay(history.drop_last()).after(history.last())
        }
    }

    /// Whether a history can happen.
    pub open spec fn possible(history: Seq<Event>) -> bool
        decreases history.len(),
    {
        history.len() > 0 ==> Link::possible(history.drop_last()) && Link::replay(
            history.drop_last(),
        ).can(history.last())
    }

    /// Everything the writer wrote.
    pub open spec fn wrote(self) -> Seq<u8> {
        flat(self.written)
    }
}

// ---------------------------------------------------------------------------------------------------
// The invariant
// ---------------------------------------------------------------------------------------------------
impl Link {
    /// The packet that carries chunk `i` of the written stream.
    pub open spec fn segment(self, i: nat) -> Seq<u8> {
        data_packet(i, self.written[i as int])
    }

    /// Whether `packet` is a packet of the written stream: one of its segments, or its FIN.
    pub open spec fn genuine(self, packet: Seq<u8>) -> bool {
        ||| self.ended && packet == fin_packet(self.written.len())
        ||| exists|i: nat| i < self.written.len() && packet == #[trigger] self.segment(i)
    }

    /// Whether `packet` acknowledges no more than has been received.
    pub open spec fn honest(self, packet: Seq<u8>) -> bool {
        exists|ack: nat| ack <= self.receiving.ack() && packet == #[trigger] ack_packet(ack)
    }

    /// The send engine is where the written stream says it is, and never ahead of the receive engine.
    pub open spec fn sending_inv(self) -> bool {
        let n = self.written.len();
        &&& n < u32::MAX
        &&& forall|i: int| 0 <= i < n ==> 0 < (#[trigger] self.written[i]).len() <= STREAM_CHUNK
        &&& self.drained == (self.sending.phase is Finished)
        &&& self.sending.seq <= self.receiving.stream.next
        &&& match self.sending.phase {
            Phase::Reading => self.sending.seq == n && !self.ended,
            Phase::Awaiting { packet, fin: true } => self.sending.seq == n && self.ended && packet
                == fin_packet(n),
            Phase::Awaiting { packet, fin: false } => self.sending.seq + 1 == n && !self.ended && packet
                == self.segment(self.sending.seq),
            Phase::Finished => self.sending.seq == n && self.ended && self.receiving.read_closed,
            Phase::Stopped => self.sending.seq <= n <= self.sending.seq + 1,
        }
        &&& forall|packet: Seq<u8>| #[trigger] self.packets.contains(packet) ==> self.genuine(packet)
    }

    /// The receive engine holds only what was written, and has handed over exactly the part below the
    /// segment it needs next.
    pub open spec fn receiving_inv(self) -> bool {
        let n = self.written.len();
        let stream = self.receiving.stream;
        &&& stream.agrees(self.written)
        &&& self.read == flat(self.written.take(stream.next as int))
        &&& self.ended ==> stream.next == n
        &&& self.receiving.fin matches Some(fin) ==> self.ended && fin == n
        &&& self.receiving.read_closed == self.receiving.fin is Some
        &&& self.ends == if self.receiving.read_closed {
            1nat
        } else {
            0
        }
        &&& forall|packet: Seq<u8>| #[trigger] self.replies.contains(packet) ==> self.honest(packet)
    }

    /// What holds of a link at all times.
    pub open spec fn inv(self) -> bool {
        self.sending_inv() && self.receiving_inv()
    }
}

/// What was transmitted and answered stays genuine and honest while the written stream stays the same
/// and the ack only grows.
proof fn lemma_still_genuine(link: Link, after: Link, reply: Seq<u8>)
    requires
        link.inv(),
        after.written == link.written,
        after.ended == link.ended,
        after.packets == link.packets,
        link.receiving.ack() <= after.receiving.ack(),
        after.honest(reply),
        after.replies == link.replies.insert(reply) || after.replies == link.replies,
    ensures
        forall|packet: Seq<u8>| #[trigger] after.packets.contains(packet) ==> after.genuine(packet),
        forall|packet: Seq<u8>| #[trigger] after.replies.contains(packet) ==> after.honest(packet),
{
    assert forall|packet: Seq<u8>| #[trigger] after.packets.contains(packet) implies after.genuine(
        packet,
    ) by {
        assert(link.genuine(packet));
        if !(link.ended && packet == fin_packet(link.written.len())) {
            let i = choose|i: nat| i < link.written.len() && packet == #[trigger] link.segment(i);
            assert(packet == after.segment(i));
        }
    }
    assert forall|packet: Seq<u8>| #[trigger] after.replies.contains(packet) implies after.honest(
        packet,
    ) by {
        if link.replies.contains(packet) {
            assert(link.honest(packet));
            let ack = choose|ack: nat|
                ack <= link.receiving.ack() && packet == #[trigger] ack_packet(ack);
            assert(ack <= after.receiving.ack() && packet == ack_packet(ack));
        }
    }
}

/// Delivering a segment keeps the invariant.
proof fn lemma_deliver_segment(link: Link, i: nat)
    requires
        link.inv(),
        i < link.written.len(),
    ensures
        decoded(link.segment(i)) == Ok::<FrameView, DecodeErrorView>(
            FrameView::Data { stream: 0, seq: i as u32, bytes: link.written[i as int] },
        ),
        link.receiving.fits(decoded(link.segment(i))->Ok_0),
        link.after(Event::Deliver { packet: link.segment(i) }).inv(),
{
    let frame = FrameView::Data { stream: 0, seq: i as u32, bytes: link.written[i as int] };
    crate::wire::law_decode_inverts_encode(frame);
    let after = link.take(frame);
    crate::stream::lemma_accept(link.receiving.stream, link.written, i as u32);
    assert(link.read + Seq::<u8>::empty() =~= link.read);
    let reply = ack_packet(after.receiving.ack());
    assert(after.honest(reply));
    lemma_still_genuine(link, after, reply);
}

/// Delivering the FIN keeps the invariant, and closes the read half.
proof fn lemma_deliver_fin(link: Link)
    requires
        link.inv(),
        link.ended,
    ensures
        decoded(fin_packet(link.written.len())) == Ok::<FrameView, DecodeErrorView>(
            FrameView::Fin { stream: 0, seq: link.written.len() as u32 },
        ),
        link.receiving.fits(decoded(fin_packet(link.written.len()))->Ok_0),
        link.after(Event::Deliver { packet: fin_packet(link.written.len()) }).inv(),
        link.after(Event::Deliver { packet: fin_packet(link.written.len()) }).receiving.read_closed,
{
    let frame = FrameView::Fin { stream: 0, seq: link.written.len() as u32 };
    crate::wire::law_decode_inverts_encode(frame);
    let after = link.take(frame);
    assert(link.read + Seq::<u8>::empty() =~= link.read);
    let reply = ack_packet(after.receiving.ack());
    assert(after.honest(reply));
    lemma_still_genuine(link, after, reply);
}

/// Delivering a genuine packet keeps the invariant.
proof fn lemma_deliver(link: Link, packet: Seq<u8>)
    requires
        link.inv(),
        link.genuine(packet),
    ensures
        decoded(packet) is Ok,
        link.receiving.fits(decoded(packet)->Ok_0),
        link.after(Event::Deliver { packet }).inv(),
{
    if link.ended && packet == fin_packet(link.written.len()) {
        lemma_deliver_fin(link);
    } else {
        let i = choose|i: nat| i < link.written.len() && packet == #[trigger] link.segment(i);
        lemma_deliver_segment(link, i);
    }
}

/// Receiving an honest reply keeps the invariant.
proof fn lemma_reply(link: Link, packet: Seq<u8>)
    requires
        link.inv(),
        link.can(Event::Reply { packet }),
    ensures
        link.after(Event::Reply { packet }).inv(),
{
    let after = link.after(Event::Reply { packet });
    assert(link.honest(packet));
    let ack = choose|ack: nat| ack <= link.receiving.ack() && packet == #[trigger] ack_packet(ack);
    crate::wire::law_decode_inverts_encode(FrameView::Ack { stream: 0, seq: ack as u32 });
    assert(after.honest(packet));
    lemma_still_genuine(link, after, packet);
}

/// Reading a chunk, or the end of the writes, keeps the invariant.
proof fn lemma_read(link: Link, chunk: Seq<u8>)
    requires
        link.inv(),
        link.can(Event::Read { chunk }),
    ensures
        link.after(Event::Read { chunk }).inv(),
{
    let after = link.after(Event::Read { chunk });
    let n = link.written.len();
    assert(after.written.take(link.receiving.stream.next as int) =~= link.written.take(
        link.receiving.stream.next as int,
    ));
    assert forall|other: Seq<u8>| #[trigger] after.packets.contains(other) implies after.genuine(
        other,
    ) by {
        if link.packets.contains(other) {
            assert(link.genuine(other));
            let i = choose|i: nat| i < n && other == #[trigger] link.segment(i);
            assert(other == after.segment(i));
        } else if chunk.len() > 0 {
            assert(other == after.segment(n));
        }
    }
    assert forall|reply: Seq<u8>| #[trigger] after.replies.contains(reply) implies after.honest(
        reply,
    ) by {
        assert(link.honest(reply));
        let ack = choose|ack: nat| ack <= link.receiving.ack() && reply == #[trigger] ack_packet(ack);
        assert(ack <= after.receiving.ack() && reply == ack_packet(ack));
    }
}

/// The network handing over something that is no frame of the stream, a retransmission, and giving up
/// all keep the invariant.
proof fn lemma_other(link: Link, event: Event)
    requires
        link.inv(),
        link.can(event),
        event is Timeout || event is Noise || event is Abandon,
    ensures
        link.after(event).inv(),
{
    let after = link.after(event);
    if event is Timeout {
        assert(link.genuine(link.sending.phase->packet)) by {
            if !link.sending.phase->fin {
                assert(link.sending.phase->packet == link.segment(link.sending.seq));
            }
        }
        assert forall|other: Seq<u8>| #[trigger] after.packets.contains(other) implies after.genuine(
            other,
        ) by {
            assert(link.genuine(other));
            if !(link.ended && other == fin_packet(link.written.len())) {
                let i = choose|i: nat| i < link.written.len() && other == #[trigger] link.segment(i);
                assert(other == after.segment(i));
            }
        }
        assert forall|reply: Seq<u8>| #[trigger] after.replies.contains(reply) implies after.honest(
            reply,
        ) by {
            assert(link.honest(reply));
        }
    } else {
        let reply = ack_packet(after.receiving.ack());
        assert(after.honest(reply));
        lemma_still_genuine(link, after, reply);
    }
}

/// Whatever happens next, the invariant still holds after it.
pub proof fn lemma_step(link: Link, event: Event)
    requires
        link.inv(),
        link.can(event),
    ensures
        link.after(event).inv(),
{
    match event {
        Event::Read { chunk } => lemma_read(link, chunk),
        Event::Deliver { packet } => {
            assert(link.genuine(packet));
            lemma_deliver(link, packet);
        },
        Event::Reply { packet } => lemma_reply(link, packet),
        _ => lemma_other(link, event),
    }
}

/// The packet in flight, once it arrives, is answered with an ack that passes it, and that ack ends the
/// wait for it.
pub proof fn lemma_arrival(link: Link)
    requires
        link.inv(),
        link.sending.phase is Awaiting,
    ensures
        ({
            let arrived = link.after(Event::Deliver { packet: link.sending.phase->packet });
            let ack = arrived.receiving.ack();
            &&& link.sending.seq < ack <= u32::MAX
            &&& arrived.sending == link.sending
            &&& arrived.replies.contains(ack_packet(ack))
            &&& decoded(ack_packet(ack)) == Ok::<FrameView, DecodeErrorView>(
                FrameView::Ack { stream: 0, seq: ack as u32 },
            )
        }),
{
    let arrived = link.after(Event::Deliver { packet: link.sending.phase->packet });
    if link.sending.phase->fin {
        lemma_deliver_fin(link);
    } else {
        lemma_deliver_segment(link, link.sending.seq);
        crate::stream::lemma_accept(
            link.receiving.stream,
            link.written,
            link.sending.seq as u32,
        );
    }
    crate::wire::law_decode_inverts_encode(
        FrameView::Ack { stream: 0, seq: arrived.receiving.ack() as u32 },
    );
}

/// The invariant holds after every possible history.
pub proof fn lemma_history(history: Seq<Event>)
    requires
        Link::possible(history),
    ensures
        Link::replay(history).inv(),
    decreases history.len(),
{
    if history.len() > 0 {
        lemma_history(history.drop_last());
        lemma_step(Link::replay(history.drop_last()), history.last());
    } else {
        let link = Link::fresh();
        assert(link.written.take(0) =~= Seq::empty());
    }
}

// ---------------------------------------------------------------------------------------------------
// Laws
// ---------------------------------------------------------------------------------------------------
/// In order, exactly once, nothing else: whatever the network did, the reader has been handed a prefix
/// of what the writer wrote.
pub proof fn law_reads_a_prefix_of_the_writes(history: Seq<Event>)
    requires
        Link::possible(history),
    ensures
        Link::replay(history).read.is_prefix_of(Link::replay(history).wrote()),
{
    let link = Link::replay(history);
    lemma_history(history);
    crate::stream::lemma_flat_prefix(link.written, link.receiving.stream.next as int);
}

/// A clean end is a complete stream: the reader is told at most once that the stream ended, and then
/// the writer has finished and the reader holds everything that was written. No reordering, loss or
/// repetition can make a truncated stream look complete.
pub proof fn law_a_clean_end_is_complete(history: Seq<Event>)
    requires
        Link::possible(history),
    ensures
        Link::replay(history).ends <= 1,
        Link::replay(history).ends == 1 ==> Link::replay(history).ended && Link::replay(history).read
            == Link::replay(history).wrote(),
{
    let link = Link::replay(history);
    lemma_history(history);
    if link.ends == 1 {
        assert(link.written.take(link.written.len() as int) =~= link.written);
    }
}

/// Drained means delivered: once the send engine has reported the outbound direction drained, the writer
/// has finished, and the reader has been handed everything that was written and told that the stream
/// ended cleanly. Dropping the connection truncates nothing and leaves no reader waiting for a FIN.
pub proof fn law_drained_means_delivered(history: Seq<Event>)
    requires
        Link::possible(history),
        Link::replay(history).drained,
    ensures
        Link::replay(history).ended,
        Link::replay(history).read == Link::replay(history).wrote(),
        Link::replay(history).ends == 1,
{
    let link = Link::replay(history);
    lemma_history(history);
    assert(link.written.take(link.written.len() as int) =~= link.written);
}

/// At most one segment is outstanding: everything the send engine has read, but for the chunk it is
/// sending, has been handed to the reader.
pub proof fn law_at_most_one_segment_is_outstanding(history: Seq<Event>)
    requires
        Link::possible(history),
    ensures
        Link::replay(history).written.len() <= Link::replay(history).receiving.stream.next + 1,
        Link::replay(history).read == flat(
            Link::replay(history).written.take(Link::replay(history).receiving.stream.next as int),
        ),
{
    lemma_history(history);
}

/// A connection that waited for both directions loses nothing: once the inbound stream has ended and
/// the outbound direction has drained, each side's reader holds everything that the other side wrote,
/// and has been told that the stream ended.
pub proof fn law_quiesced_means_nothing_is_in_flight(outbound: Seq<Event>, inbound: Seq<Event>)
    requires
        Link::possible(outbound),
        Link::possible(inbound),
        Link::replay(outbound).drained,
        Link::replay(inbound).ends == 1,
    ensures
        Link::replay(outbound).ended && Link::replay(outbound).read == Link::replay(outbound).wrote(),
        Link::replay(outbound).ends == 1,
        Link::replay(inbound).ended && Link::replay(inbound).read == Link::replay(inbound).wrote(),
{
    law_drained_means_delivered(outbound);
    law_a_clean_end_is_complete(inbound);
}

/// When the wait for a connection to close is over, nothing is lost in a direction whose engine is
/// still there: unless the receive engine is gone, the peer has finished and every byte it wrote has
/// been handed to our reader; unless the send engine is gone, every byte we wrote has been handed to the
/// peer's reader, which has been told that the stream ended. With both engines there, both flags are
/// set, and nothing is in flight in either direction.
pub proof fn law_a_close_waited_for_loses_nothing(
    outbound: Seq<Event>,
    inbound: Seq<Event>,
    receiver_gone: bool,
    sender_gone: bool,
)
    requires
        Link::possible(outbound),
        Link::possible(inbound),
        quiesced(
            Link::replay(inbound).ends == 1,
            receiver_gone,
            Link::replay(outbound).drained,
            sender_gone,
        ),
    ensures
        receiver_gone || (Link::replay(inbound).ended && Link::replay(inbound).read == Link::replay(
            inbound,
        ).wrote()),
        sender_gone || (Link::replay(outbound).ended && Link::replay(outbound).read == Link::replay(
            outbound,
        ).wrote() && Link::replay(outbound).ends == 1),
        !receiver_gone && !sender_gone ==> Link::replay(inbound).ends == 1 && Link::replay(
            outbound,
        ).drained,
{
    if !receiver_gone {
        law_a_clean_end_is_complete(inbound);
    }
    if !sender_gone {
        law_drained_means_delivered(outbound);
    }
}

/// The FIN is sent until it is acked: the outbound direction has drained exactly when the FIN has been
/// acked. While a segment or the FIN is still unacked it has not, though every byte may have arrived.
pub proof fn law_drained_waits_for_the_fin(history: Seq<Event>)
    requires
        Link::possible(history),
    ensures
        Link::replay(history).drained == (Link::replay(history).sending.phase is Finished),
        Link::replay(history).sending.phase is Awaiting ==> !Link::replay(history).drained,
{
    lemma_history(history);
}

/// A connection whose ack channel has closed before the FIN was acked never drains, whatever the network
/// still brings.
pub proof fn law_an_abandoned_stream_never_drains(history: Seq<Event>, later: Seq<Event>)
    requires
        Link::possible(history + later),
        Link::replay(history).sending.phase is Stopped,
    ensures
        Link::replay(history + later).sending.phase is Stopped,
        !Link::replay(history + later).drained,
    decreases later.len(),
{
    let whole = history + later;
    if later.len() == 0 {
        assert(whole =~= history);
    } else {
        assert(whole.drop_last() =~= history + later.drop_last());
        law_an_abandoned_stream_never_drains(history, later.drop_last());
    }
    lemma_history(whole);
}

/// Loss is recovered: from any point of any history at which the send engine waits for an ack, one
/// timeout, one delivery of the retransmitted packet and one delivery of the answer to it end the wait.
/// The answer is a reply the receive engine gave to that very packet, however often it came before.
pub proof fn law_a_retransmission_recovers(history: Seq<Event>)
    requires
        Link::possible(history),
        Link::replay(history).sending.phase is Awaiting,
    ensures
        ({
            let link = Link::replay(history);
            let packet = link.sending.phase->packet;
            let arrived = link.after(Event::Timeout).after(Event::Deliver { packet });
            let reply = ack_packet(arrived.receiving.ack());
            let acked = arrived.after(Event::Reply { packet: reply });
            &&& link.can(Event::Timeout)
            &&& link.after(Event::Timeout).can(Event::Deliver { packet })
            &&& arrived.can(Event::Reply { packet: reply })
            &&& link.sending.phase->fin ==> acked.sending.phase is Finished && acked.ends == 1
            &&& !link.sending.phase->fin ==> acked.sending.phase is Reading && acked.sending.seq
                == link.sending.seq + 1
        }),
{
    let link = Link::replay(history);
    lemma_history(history);
    lemma_step(link, Event::Timeout);
    let resent = link.after(Event::Timeout);
    lemma_arrival(resent);
    let arrived = resent.after(Event::Deliver { packet: link.sending.phase->packet });
    lemma_step(resent, Event::Deliver { packet: link.sending.phase->packet });
    lemma_reply(arrived, ack_packet(arrived.receiving.ack()));
}

/// Between two engines of this library nothing is too large: every packet that the send engine transmits
/// fits the datagram buffer at the other end, and sequence numbers never run out, so that the receive
/// engine can take it.
pub proof fn law_genuine_packets_fit(history: Seq<Event>, packet: Seq<u8>)
    requires
        Link::possible(history),
        Link::replay(history).packets.contains(packet),
    ensures
        packet.len() <= MAX_DATAGRAM,
        decoded(packet) is Ok,
        Link::replay(history).receiving.wf(),
        Link::replay(history).receiving.fits(decoded(packet)->Ok_0),
{
    let link = Link::replay(history);
    lemma_history(history);
    assert(link.genuine(packet));
    assert(packet.len() <= MAX_DATAGRAM) by {
        if !(link.ended && packet == fin_packet(link.written.len())) {
            let i = choose|i: nat| i < link.written.len() && packet == #[trigger] link.segment(i);
            assert(link.written[i as int].len() <= STREAM_CHUNK);
        }
    }
    lemma_deliver(link, packet);
}

} // verus!
