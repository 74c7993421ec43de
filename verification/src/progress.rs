//! That a stream gets through: over a network that loses only finitely many datagrams, every stream is
//! read to its end.
//!
//! What is read is never wrong, whatever the network does: that is what the laws of [`crate::link`] say.
//! Here the network is asked for something in return. A [`run`](at) is an endless sequence of events on
//! a link; if from some point on whatever is sent arrives in the end, in any order and any number of
//! times, the stream ends. An [`Exchange`] is a link whose two sides drop their sends by a fixed
//! schedule, and for it the number of rounds that suffice is given.

use vstd::prelude::*;

use crate::dispatcher::ack_packet;
use crate::link::{
    law_drained_means_delivered, lemma_arrival, lemma_history, lemma_step, Event, Link,
};
use crate::sender::{Phase, Sending};
use crate::stream::flat;
use crate::STREAM_CHUNK;

verus! {

/// Whether a stream has got through: the writer has finished, the reader has been handed everything that
/// was written and been told once that the stream ended, and the send engine has drained.
pub open spec fn got_through(link: Link) -> bool {
    link.ended && link.read == link.wrote() && link.ends == 1 && link.drained
}

/// How far the send engine has come: every chunk read and every packet acked counts one.
pub open spec fn rank(sending: Sending) -> nat {
    match sending.phase {
        Phase::Reading => 2 * sending.seq,
        Phase::Awaiting { .. } => 2 * sending.seq + 1,
        Phase::Finished => 2 * sending.seq + 2,
        Phase::Stopped => 0,
    }
}

/// An event either leaves the send engine as it is or takes it further.
proof fn lemma_event(link: Link, event: Event)
    requires
        link.inv(),
        link.can(event),
        event !is Abandon,
        link.sending.phase !is Stopped,
    ensures
        link.after(event).inv(),
        link.after(event).sending.phase !is Stopped,
        link.after(event).sending == link.sending || rank(link.after(event).sending) > rank(
            link.sending,
        ),
        link.sending.phase is Finished ==> link.after(event).sending == link.sending,
{
    lemma_step(link, event);
}

// ---------------------------------------------------------------------------------------------------
// Endless runs
// ---------------------------------------------------------------------------------------------------
/// The first `count` events of a run.
pub open spec fn prefix(run: spec_fn(nat) -> Event, count: nat) -> Seq<Event> {
    Seq::new(count, |i: int| run(i as nat))
}

/// The link after the first `count` events of a run.
pub open spec fn at(run: spec_fn(nat) -> Event, count: nat) -> Link {
    Link::replay(prefix(run, count))
}

/// Whether a run can happen.
pub open spec fn can_happen(run: spec_fn(nat) -> Event) -> bool {
    forall|i: nat| (#[trigger] at(run, i)).can(run(i))
}

/// Whether the sending side keeps going: it reads on when it is done with a packet, it times out while
/// it waits for an ack that does not come, and the connection stays alive.
pub open spec fn keeps_going(run: spec_fn(nat) -> Event) -> bool {
    &&& forall|i: nat| (#[trigger] at(run, i)).sending.phase is Reading ==> reads_from(run, i)
    &&& forall|i: nat| (#[trigger] at(run, i)).sending.phase is Awaiting ==> times_out_from(run, i)
    &&& forall|i: nat| (#[trigger] run(i)) !is Abandon
}

/// Whether the send engine reads at event `i` or later.
pub open spec fn reads_from(run: spec_fn(nat) -> Event, i: nat) -> bool {
    exists|j: nat| j >= i && #[trigger] run(j) is Read
}

/// Whether the send engine times out at event `i` or later, unless its wait is over first.
pub open spec fn times_out_from(run: spec_fn(nat) -> Event, i: nat) -> bool {
    exists|j: nat| j >= i && (#[trigger] run(j) is Timeout || at(run, j).sending.phase !is Awaiting)
}

/// Whether nothing that either side sends at event `start` or later is lost: every packet the send
/// engine transmits is delivered in the end, and every answer to a delivered packet reaches the send
/// engine in the end, unless that has stopped waiting.
pub open spec fn loses_nothing_from(run: spec_fn(nat) -> Event, start: nat) -> bool {
    &&& forall|i: nat|
        i >= start && (#[trigger] run(i) is Read || run(i) is Timeout) ==> delivers_after(
            run,
            i,
            at(run, i + 1).sending.phase->packet,
        )
    &&& forall|i: nat|
        i >= start && #[trigger] run(i) is Deliver ==> answers_after(
            run,
            i,
            ack_packet(at(run, i + 1).receiving.ack()),
        )
}

/// Whether `packet` is delivered after event `i`.
pub open spec fn delivers_after(run: spec_fn(nat) -> Event, i: nat, packet: Seq<u8>) -> bool {
    exists|j: nat| j > i && #[trigger] run(j) == (Event::Deliver { packet })
}

/// Whether `reply` reaches the send engine after event `i`, unless that stops waiting.
pub open spec fn answers_after(run: spec_fn(nat) -> Event, i: nat, reply: Seq<u8>) -> bool {
    exists|j: nat|
        j > i && (#[trigger] run(j) == (Event::Reply { packet: reply }) || at(run, j).sending.phase
            !is Awaiting)
}

/// Whether the stream has got through from event `end` on.
pub open spec fn through_from(run: spec_fn(nat) -> Event, end: nat) -> bool {
    forall|i: nat| i >= end ==> got_through(#[trigger] at(run, i))
}

/// A run goes on one event at a time, and the invariant holds all along.
proof fn lemma_at(run: spec_fn(nat) -> Event, i: nat)
    requires
        can_happen(run),
    ensures
        Link::possible(prefix(run, i)),
        at(run, i).inv(),
        at(run, i).can(run(i)),
        at(run, i + 1) == at(run, i).after(run(i)),
    decreases i,
{
    assert(prefix(run, i + 1).drop_last() =~= prefix(run, i));
    if i > 0 {
        let before = (i - 1) as nat;
        lemma_at(run, before);
        assert(prefix(run, i).drop_last() =~= prefix(run, before));
    }
    lemma_history(prefix(run, i));
}

/// The send engine never goes back.
proof fn lemma_never_back(run: spec_fn(nat) -> Event, i: nat, j: nat)
    requires
        can_happen(run),
        keeps_going(run),
        i <= j,
    ensures
        at(run, j).inv(),
        at(run, j).sending.phase !is Stopped,
        at(run, j).sending == at(run, i).sending || rank(at(run, j).sending) > rank(
            at(run, i).sending,
        ),
        at(run, i).sending.phase is Finished ==> at(run, j).sending == at(run, i).sending,
    decreases j,
{
    lemma_at(run, j);
    if j > 0 {
        let before = (j - 1) as nat;
        lemma_at(run, before);
        if i < j {
            lemma_never_back(run, i, before);
        } else {
            lemma_never_back(run, before, before);
        }
        assert(run(before) !is Abandon);
        lemma_event(at(run, before), run(before));
    }
}

/// A send engine that has not finished gets further.
proof fn lemma_gets_further(run: spec_fn(nat) -> Event, lossless: nat, i: nat) -> (j: nat)
    requires
        can_happen(run),
        keeps_going(run),
        loses_nothing_from(run, lossless),
        at(run, i).sending.phase !is Finished,
    ensures
        rank(at(run, j).sending) > rank(at(run, i).sending),
{
    let sending = at(run, i).sending;
    lemma_never_back(run, i, i);
    if sending.phase is Reading {
        let read = choose|j: nat| j >= i && #[trigger] run(j) is Read;
        lemma_never_back(run, i, read);
        lemma_at(run, read);
        if at(run, read).sending != sending {
            read
        } else {
            read + 1
        }
    } else {
        let from = if i < lossless {
            lossless
        } else {
            i
        };
        lemma_never_back(run, i, from);
        if at(run, from).sending != sending {
            from
        } else {
            let sent = choose|j: nat|
                j >= from && (#[trigger] run(j) is Timeout || at(run, j).sending.phase !is Awaiting);
            lemma_never_back(run, i, sent);
            lemma_at(run, sent);
            if at(run, sent).sending != sending {
                sent
            } else {
                let packet = sending.phase->packet;
                assert(delivers_after(run, sent, packet));
                let arrived = choose|j: nat|
                    j > sent && #[trigger] run(j) == (Event::Deliver { packet });
                lemma_never_back(run, i, arrived);
                lemma_at(run, arrived);
                if at(run, arrived).sending != sending {
                    arrived
                } else {
                    lemma_arrival(at(run, arrived));
                    let reply = ack_packet(at(run, arrived + 1).receiving.ack());
                    assert(answers_after(run, arrived, reply));
                    let acked = choose|j: nat|
                        j > arrived && (#[trigger] run(j) == (Event::Reply { packet: reply }) || at(
                            run,
                            j,
                        ).sending.phase !is Awaiting);
                    lemma_never_back(run, i, acked);
                    lemma_at(run, acked);
                    if at(run, acked).sending != sending {
                        acked
                    } else {
                        acked + 1
                    }
                }
            }
        }
    }
}

/// The send engine finishes.
proof fn lemma_finishes(run: spec_fn(nat) -> Event, lossless: nat, i: nat) -> (end: nat)
    requires
        can_happen(run),
        keeps_going(run),
        loses_nothing_from(run, lossless),
    ensures
        at(run, end).sending.phase is Finished,
    decreases 2 * u32::MAX - rank(at(run, i).sending),
{
    if at(run, i).sending.phase is Finished {
        i
    } else {
        let j = lemma_gets_further(run, lossless, i);
        lemma_at(run, j);
        lemma_never_back(run, j, j);
        lemma_finishes(run, lossless, j)
    }
}

/// Loss is always recovered: a run in which only finitely many sends of either side are lost, so that
/// nothing is lost from some event on, comes to a point from which on the stream has got through: the
/// reader holds exactly what was written and has been told once that it ended, and the send engine has
/// drained. The network may otherwise delay, reorder and repeat as it likes, and bring strays.
pub proof fn law_a_stream_gets_through_finite_loss(run: spec_fn(nat) -> Event, lossless: nat)
    requires
        can_happen(run),
        keeps_going(run),
        loses_nothing_from(run, lossless),
    ensures
        exists|end: nat| through_from(run, end),
{
    let end = lemma_finishes(run, lossless, 0);
    assert(through_from(run, end)) by {
        assert forall|i: nat| i >= end implies got_through(#[trigger] at(run, i)) by {
            lemma_never_back(run, end, i);
            lemma_at(run, i);
            law_drained_means_delivered(prefix(run, i));
        }
    }
}

// ---------------------------------------------------------------------------------------------------
// Drop schedules
// ---------------------------------------------------------------------------------------------------
/// A stream sent over a link whose two sides drop some of their sends.
pub struct Exchange {
    /// What has happened on the link.
    pub history: Seq<Event>,
    /// How many datagrams the sending side has sent, dropped ones included.
    pub sends: nat,
    /// How many datagrams the receiving side has sent, dropped ones included.
    pub answers: nat,
}

/// Whether a schedule of 1-based send counts, such as a [`crate::socket::Faulty`] follows, drops the
/// `count`-th send.
pub open spec fn drops(schedule: Seq<u64>, count: nat) -> bool {
    count <= u64::MAX && schedule.contains(count as u64)
}

/// The chunk that is read after the first `count` of `chunks`: the next one, or the empty one that says
/// there are no more.
pub open spec fn chunk_after(chunks: Seq<Seq<u8>>, count: nat) -> Seq<u8> {
    if count < chunks.len() {
        chunks[count as int]
    } else {
        Seq::empty()
    }
}

impl Exchange {
    /// Nothing of the stream sent yet, on a connection whose sides have sent this much before.
    pub open spec fn fresh(sends: nat, answers: nat) -> Self {
        Exchange { history: Seq::empty(), sends, answers }
    }

    /// The link.
    pub open spec fn link(self) -> Link {
        Link::replay(self.history)
    }

    /// One round: the send engine reads the next of `chunks` and sends it, or times out and sends its
    /// packet again; unless that is dropped, it arrives and is answered; unless the answer is dropped,
    /// it arrives too.
    pub open spec fn round(self, chunks: Seq<Seq<u8>>, outbound: Seq<u64>, inbound: Seq<u64>) -> Self {
        let link = self.link();
        if link.sending.phase is Finished {
            self
        } else {
            let event = if link.sending.phase is Reading {
                Event::Read { chunk: chunk_after(chunks, link.written.len()) }
            } else {
                Event::Timeout
            };
            let sent = Exchange { history: self.history.push(event), sends: self.sends + 1, ..self };
            if drops(outbound, sent.sends) {
                sent
            } else {
                let packet = sent.link().sending.phase->packet;
                let arrived = Exchange {
                    history: sent.history.push(Event::Deliver { packet }),
                    answers: sent.answers + 1,
                    ..sent
                };
                if drops(inbound, arrived.answers) {
                    arrived
                } else {
                    let reply = ack_packet(arrived.link().receiving.ack());
                    Exchange {
                        history: arrived.history.push(Event::Reply { packet: reply }),
                        ..arrived
                    }
                }
            }
        }
    }

    /// The exchange after `count` rounds.
    pub open spec fn rounds(
        self,
        chunks: Seq<Seq<u8>>,
        outbound: Seq<u64>,
        inbound: Seq<u64>,
        count: nat,
    ) -> Self
        decreases count,
    {
        if count == 0 {
            self
        } else {
            self.rounds(chunks, outbound, inbound, (count - 1) as nat).round(chunks, outbound, inbound)
        }
    }

    /// What has been read so far is the beginning of `chunks`, and nothing has gone wrong.
    pub open spec fn inv(self, chunks: Seq<Seq<u8>>) -> bool {
        let link = self.link();
        &&& Link::possible(self.history)
        &&& link.sending.phase !is Stopped
        &&& link.written.len() <= chunks.len()
        &&& link.written == chunks.take(link.written.len() as int)
        &&& link.ended ==> link.written.len() == chunks.len()
    }

    /// How many more rounds suffice, if no send after the `last_out`-th and no answer after the
    /// `last_in`-th is dropped: a round uses up a send that may be dropped, or an answer that may be
    /// dropped, or gets one of the packets acked.
    pub open spec fn rounds_left(self, chunks: Seq<Seq<u8>>, last_out: nat, last_in: nat) -> int {
        let sending = self.link().sending;
        let acked = if sending.phase is Finished {
            sending.seq + 1
        } else {
            sending.seq
        };
        (if self.sends < last_out {
            last_out - self.sends
        } else {
            0
        }) + (if self.answers < last_in {
            last_in - self.answers
        } else {
            0
        }) + (chunks.len() + 1 - acked)
    }
}

/// One more event of a history.
proof fn lemma_push(history: Seq<Event>, event: Event)
    requires
        Link::possible(history),
        Link::replay(history).can(event),
    ensures
        Link::possible(history.push(event)),
        Link::replay(history.push(event)) == Link::replay(history).after(event),
        Link::replay(history).inv(),
        Link::replay(history.push(event)).inv(),
{
    assert(history.push(event).drop_last() =~= history);
    lemma_history(history);
    lemma_history(history.push(event));
}

/// A round brings the end of the exchange nearer.
proof fn lemma_round(
    exchange: Exchange,
    chunks: Seq<Seq<u8>>,
    outbound: Seq<u64>,
    inbound: Seq<u64>,
    last_out: nat,
    last_in: nat,
)
    requires
        exchange.inv(chunks),
        chunks.len() < u32::MAX,
        forall|i: int| 0 <= i < chunks.len() ==> 0 < (#[trigger] chunks[i]).len() <= STREAM_CHUNK,
        forall|count: u64| #[trigger] outbound.contains(count) ==> count <= last_out,
        forall|count: u64| #[trigger] inbound.contains(count) ==> count <= last_in,
    ensures
        exchange.round(chunks, outbound, inbound).inv(chunks),
        exchange.link().sending.phase is Finished || exchange.round(
            chunks,
            outbound,
            inbound,
        ).rounds_left(chunks, last_out, last_in) < exchange.rounds_left(chunks, last_out, last_in),
{
    let link = exchange.link();
    lemma_history(exchange.history);
    if link.sending.phase !is Finished {
        let event = if link.sending.phase is Reading {
            Event::Read { chunk: chunk_after(chunks, link.written.len()) }
        } else {
            Event::Timeout
        };
        let sent = Exchange {
            history: exchange.history.push(event),
            sends: exchange.sends + 1,
            ..exchange
        };
        lemma_push(exchange.history, event);
        assert(sent.link().written =~= chunks.take(sent.link().written.len() as int));
        if !drops(outbound, sent.sends) {
            let packet = sent.link().sending.phase->packet;
            let arrived = Exchange {
                history: sent.history.push(Event::Deliver { packet }),
                answers: sent.answers + 1,
                ..sent
            };
            lemma_push(sent.history, Event::Deliver { packet });
            lemma_arrival(sent.link());
            if !drops(inbound, arrived.answers) {
                let reply = ack_packet(arrived.link().receiving.ack());
                lemma_push(arrived.history, Event::Reply { packet: reply });
            }
        }
    }
}

/// After some rounds the exchange has ended, or that many fewer are left.
proof fn lemma_rounds(
    start: Exchange,
    chunks: Seq<Seq<u8>>,
    outbound: Seq<u64>,
    inbound: Seq<u64>,
    last_out: nat,
    last_in: nat,
    count: nat,
)
    requires
        start.inv(chunks),
        chunks.len() < u32::MAX,
        forall|i: int| 0 <= i < chunks.len() ==> 0 < (#[trigger] chunks[i]).len() <= STREAM_CHUNK,
        forall|count: u64| #[trigger] outbound.contains(count) ==> count <= last_out,
        forall|count: u64| #[trigger] inbound.contains(count) ==> count <= last_in,
    ensures
        ({
            let after = start.rounds(chunks, outbound, inbound, count);
            &&& after.inv(chunks)
            &&& after.link().sending.phase is Finished || after.rounds_left(chunks, last_out, last_in)
                + count <= start.rounds_left(chunks, last_out, last_in)
        }),
    decreases count,
{
    if count > 0 {
        let fewer = (count - 1) as nat;
        lemma_rounds(start, chunks, outbound, inbound, last_out, last_in, fewer);
        lemma_round(
            start.rounds(chunks, outbound, inbound, fewer),
            chunks,
            outbound,
            inbound,
            last_out,
            last_in,
        );
    }
}

/// A drop schedule is survived: whatever is written, and whichever sends the two sides drop, as long as
/// neither drops one after a certain count, the reader gets exactly what was written and then the end
/// of the stream, and the send engine drains. One round for each chunk, one for the FIN, and one for
/// each send of either side that may be dropped are enough.
pub proof fn law_a_drop_schedule_is_survived(
    chunks: Seq<Seq<u8>>,
    outbound: Seq<u64>,
    inbound: Seq<u64>,
    sends: nat,
    answers: nat,
    last_out: nat,
    last_in: nat,
    count: nat,
)
    requires
        chunks.len() < u32::MAX,
        forall|i: int| 0 <= i < chunks.len() ==> 0 < (#[trigger] chunks[i]).len() <= STREAM_CHUNK,
        forall|count: u64| #[trigger] outbound.contains(count) ==> count <= last_out,
        forall|count: u64| #[trigger] inbound.contains(count) ==> count <= last_in,
        count >= chunks.len() + 1 + last_out + last_in,
    ensures
        ({
            let after = Exchange::fresh(sends, answers).rounds(chunks, outbound, inbound, count);
            &&& Link::possible(after.history)
            &&& got_through(after.link())
            &&& after.link().read == flat(chunks)
        }),
{
    let start = Exchange::fresh(sends, answers);
    assert(start.link().written =~= chunks.take(0));
    lemma_rounds(start, chunks, outbound, inbound, last_out, last_in, count);
    let after = start.rounds(chunks, outbound, inbound, count);
    lemma_history(after.history);
    law_drained_means_delivered(after.history);
    assert(chunks.take(chunks.len() as int) =~= chunks);
}

} // verus!
