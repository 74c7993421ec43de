//! The engines against each other, over links that lose and repeat.

use bytes::Bytes;

use quirk::dispatcher::{Dispatcher, Reaction};
use quirk::sender::{Next, Sender};
use quirk::socket::{Fate, Faults, Faulty};
use quirk::wire::Frame;
use quirk::{MAX_DATAGRAM, STREAM_CHUNK};

/// One direction of a connection, run to its end: every packet crosses `outbound`, every ack crosses
/// `inbound`, and a packet that is not answered is retransmitted.
struct Transfer {
    read: Vec<u8>,
    ends: usize,
    drained_at: Option<usize>,
    transmissions: usize,
}

fn transfer(payload: &[u8], mut outbound: Faulty, mut inbound: Faulty) -> Transfer {
    let mut sender = Sender::new();
    let mut dispatcher = Dispatcher::new();
    let mut transfer = Transfer {
        read: Vec::new(),
        ends: 0,
        drained_at: None,
        transmissions: 0,
    };
    let mut rest = payload;
    let mut last_ack = 0;
    loop {
        let (chunk, after) = rest.split_at(rest.len().min(STREAM_CHUNK));
        rest = after;
        sender.on_read(chunk);
        let mut packet = sender.packet().to_vec();
        let next = loop {
            assert!(!sender.drained());
            assert!(packet.len() <= MAX_DATAGRAM);
            transfer.transmissions += 1;
            if let Fate::Drop { reported } = outbound.send_to(&packet) {
                assert_eq!(reported, packet.len());
                packet = sender.on_timeout().to_vec();
                continue;
            }
            let frame = Frame::decode(&packet).unwrap();
            assert!(dispatcher.fits(&frame));
            let reply = match dispatcher.on_frame(frame) {
                Reaction::Stream { delivered, finished, reply } => {
                    transfer.read.extend(delivered);
                    assert!(payload.starts_with(&transfer.read));
                    transfer.ends += finished as usize;
                    reply
                }
                _ => panic!("a stream packet was not a stream frame"),
            };
            if inbound.send_to(&reply) != Fate::Send {
                packet = sender.on_timeout().to_vec();
                continue;
            }
            match Frame::decode(&reply).unwrap() {
                Frame::Ack { stream: 0, seq } => {
                    assert!(last_ack <= seq);
                    last_ack = seq;
                    match sender.on_ack(Some(seq)) {
                        Next::Wait => continue,
                        next => break next,
                    }
                }
                _ => panic!("the reply was not an ack"),
            }
        };
        if sender.drained() {
            assert_eq!(transfer.ends, 1);
            transfer.drained_at = Some(transfer.read.len());
        }
        if next == Next::Stop {
            return transfer;
        }
    }
}

fn pattern(len: u32) -> Vec<u8> {
    (0..len).map(|i| (i % 251) as u8).collect()
}

fn lossless() -> Faulty {
    Faulty::new(Faults::default())
}

/// A dropped stream data frame is retransmitted, so every byte still arrives in order.
#[test]
fn recovers_a_dropped_data_frame() {
    let payload = pattern(2048);
    let run = transfer(&payload, Faulty::new(Faults::drop_sends(vec![2])), lossless());
    assert_eq!(run.read, payload, "the dropped data frame was recovered");
    assert_eq!(run.transmissions, 4);
    assert_eq!(run.ends, 1);
}

/// A repeatedly-dropped FIN is retransmitted until acked, so the reader observes a clean end.
#[test]
fn recovers_a_dropped_fin() {
    let payload = pattern(512);
    let run = transfer(&payload, Faulty::new(Faults::drop_sends(vec![2, 3, 4])), lossless());
    assert_eq!(run.read, payload, "the dropped FIN was recovered as a clean EOF");
    assert_eq!(run.transmissions, 5);
    assert_eq!(run.ends, 1);
}

/// A data frame the sender retransmits (because an ack was lost) is not double-delivered.
#[test]
fn suppresses_a_retransmitted_duplicate() {
    let payload = pattern(512);
    let run = transfer(&payload, lossless(), Faulty::new(Faults::drop_sends(vec![1])));
    assert_eq!(run.read, payload, "the retransmitted duplicate was suppressed");
    assert_eq!(run.transmissions, 3);
    assert_eq!(run.ends, 1);
}

#[test]
fn a_large_payload_arrives_in_chunks() {
    let payload = pattern(10_000);
    let run = transfer(&payload, lossless(), lossless());
    assert_eq!(run.read, payload);
    assert_eq!(run.transmissions, 11);
    assert_eq!(run.drained_at, Some(payload.len()));
    assert_eq!(run.ends, 1);
}

#[test]
fn an_empty_stream_ends_cleanly() {
    let run = transfer(&[], lossless(), Faulty::new(Faults::drop_sends(vec![1])));
    assert_eq!(run.read, Vec::<u8>::new());
    assert_eq!(run.ends, 1);
    assert_eq!(run.transmissions, 2);
    assert_eq!(run.drained_at, Some(0));
}

fn stream_reaction(reaction: Reaction) -> (Vec<u8>, bool, u32) {
    match reaction {
        Reaction::Stream { delivered, finished, reply } => match Frame::decode(&reply) {
            Ok(Frame::Ack { stream: 0, seq }) => (delivered, finished, seq),
            other => panic!("not an ack: {other:?}"),
        },
        _ => panic!("not a stream reaction"),
    }
}

fn data(seq: u32, bytes: &'static [u8]) -> Frame {
    Frame::Data { stream: 0, seq, bytes: Bytes::from_static(bytes) }
}

fn fin(seq: u32) -> Frame {
    Frame::Fin { stream: 0, seq }
}

/// Retransmissions left out, the frames are the chunks of the writes in order, then the FIN; each waits
/// for the ack of the one before.
#[test]
fn the_frames_sent_are_the_writes_in_order() {
    let payload = pattern(2500);
    let mut sender = Sender::new();
    let mut sent = Vec::new();
    let mut next = Next::Read;
    let mut rest = &payload[..];
    while next == Next::Read {
        let (chunk, after) = rest.split_at(rest.len().min(STREAM_CHUNK));
        rest = after;
        sender.on_read(chunk);
        assert!(sender.packet().len() <= MAX_DATAGRAM);
        assert!(sender.on_timeout().len() <= MAX_DATAGRAM);
        sent.push(Frame::decode(sender.packet()).unwrap());
        let seq = sent.len() as u32 - 1;
        assert_eq!(sender.on_ack(Some(seq)), Next::Wait);
        next = sender.on_ack(Some(seq + 1));
    }
    let data = |seq, range: std::ops::Range<usize>| Frame::Data {
        stream: 0,
        seq,
        bytes: Bytes::copy_from_slice(&payload[range]),
    };
    assert_eq!(
        sent,
        [data(0, 0..1024), data(1, 1024..2048), data(2, 2048..2500), fin(3)]
    );
    assert!(sender.drained());
}

/// Whatever a finite schedule drops, the stream gets through, and in no more transmissions than one per
/// chunk, one for the FIN, and one per send of either side that may be dropped.
#[test]
fn finite_drop_schedules_are_survived() {
    let schedules: [&[u64]; 6] = [&[], &[1], &[2, 3], &[1, 2, 3, 4, 5], &[7, 3], &[1, 3, 5, 7, 9]];
    for payload in [pattern(0), pattern(1), pattern(1024), pattern(1025), pattern(5000)] {
        for outbound in schedules {
            for inbound in schedules {
                let run = transfer(
                    &payload,
                    Faulty::new(Faults::drop_sends(outbound.to_vec())),
                    Faulty::new(Faults::drop_sends(inbound.to_vec())),
                );
                assert_eq!(run.read, payload);
                assert_eq!(run.ends, 1);
                assert_eq!(run.drained_at, Some(payload.len()));
                let last = |schedule: &[u64]| schedule.iter().copied().max().unwrap_or(0) as usize;
                let chunks = payload.len().div_ceil(STREAM_CHUNK);
                assert!(run.transmissions <= chunks + 1 + last(outbound) + last(inbound));
            }
        }
    }
}

/// A final segment that arrives after the FIN is delivered before the stream ends.
#[test]
fn a_late_segment_is_not_a_truncated_end() {
    let mut dispatcher = Dispatcher::new();
    assert_eq!(stream_reaction(dispatcher.on_frame(fin(2))), (vec![], false, 0));
    assert_eq!(stream_reaction(dispatcher.on_frame(data(1, b"b"))), (vec![], false, 0));
    assert_eq!(
        stream_reaction(dispatcher.on_frame(data(0, b"a"))),
        (b"ab".to_vec(), true, 3)
    );
}

#[test]
fn frames_after_the_end_are_acked_past_the_fin_and_ignored() {
    let mut dispatcher = Dispatcher::new();
    assert_eq!(
        stream_reaction(dispatcher.on_frame(data(0, b"a"))),
        (b"a".to_vec(), false, 1)
    );
    assert_eq!(stream_reaction(dispatcher.on_frame(fin(1))), (vec![], true, 2));
    assert_eq!(stream_reaction(dispatcher.on_frame(fin(1))), (vec![], false, 2));
    assert_eq!(stream_reaction(dispatcher.on_frame(data(1, b"x"))), (vec![], false, 2));
    assert_eq!(stream_reaction(dispatcher.on_frame(fin(9))), (vec![], false, 2));
    // Our own writes are still acked through the engine.
    assert!(matches!(
        dispatcher.on_frame(Frame::Ack { stream: 0, seq: 3 }),
        Reaction::PeerAck { seq: 3 }
    ));
}

#[test]
fn other_frames_go_their_own_way() {
    let mut dispatcher = Dispatcher::new();
    match dispatcher.on_frame(Frame::Datagram { data: Bytes::from_static(b"ping") }) {
        Reaction::Datagram { data } => assert_eq!(data.as_ref(), b"ping"),
        _ => panic!("a datagram was not queued"),
    }
    assert!(matches!(
        dispatcher.on_frame(Frame::Ack { stream: 0, seq: 7 }),
        Reaction::PeerAck { seq: 7 }
    ));
    assert!(matches!(
        dispatcher.on_frame(Frame::Hello { key: [0; 32] }),
        Reaction::Ignore
    ));
    assert!(matches!(
        dispatcher.on_frame(Frame::HelloAck { key: [0; 32] }),
        Reaction::Ignore
    ));
}

#[test]
fn numbers_at_the_limit_fit_until_they_are_reached() {
    let dispatcher = Dispatcher::new();
    assert!(dispatcher.fits(&fin(u32::MAX)));
    assert!(dispatcher.fits(&data(u32::MAX, b"z")));
    assert!(dispatcher.fits(&data(0, b"a")));
}

/// Once both directions have quiesced, each side has read what the other wrote.
#[test]
fn both_directions_arrive_before_a_connection_may_drop() {
    let (there, back) = (pattern(3000), pattern(700));
    let lossy = || Faulty::new(Faults::drop_sends(vec![1, 3, 4]));
    let outbound = transfer(&there, lossy(), lossy());
    let inbound = transfer(&back, lossy(), lossy());
    assert_eq!(outbound.drained_at, Some(there.len()));
    assert_eq!(outbound.read, there);
    assert_eq!((inbound.ends, inbound.read), (1, back));
}

#[test]
fn a_stale_ack_is_waited_out() {
    let mut sender = Sender::new();
    sender.on_read(b"hello");
    assert_eq!(
        Frame::decode(sender.packet()),
        Ok(data(0, b"hello"))
    );
    assert_eq!(sender.on_ack(Some(0)), Next::Wait);
    assert_eq!(sender.on_ack(Some(1)), Next::Read);
    sender.on_read(b"");
    assert_eq!(Frame::decode(sender.packet()), Ok(fin(1)));
    assert_eq!(sender.on_ack(Some(1)), Next::Wait);
    assert_eq!(sender.on_ack(Some(2)), Next::Stop);
}

/// All data is acked and the writes have ended, but only the ack of the FIN drains the engine.
#[test]
fn drained_waits_for_the_ack_of_the_fin() {
    let mut sender = Sender::new();
    assert!(!sender.drained());
    sender.on_read(b"hello");
    assert!(!sender.drained());
    assert_eq!(sender.on_ack(Some(1)), Next::Read);
    assert!(!sender.drained());
    sender.on_read(b"");
    assert!(!sender.drained());
    assert_eq!(sender.on_ack(Some(1)), Next::Wait);
    assert!(!sender.drained());
    assert_eq!(sender.on_ack(Some(2)), Next::Stop);
    assert!(sender.drained());
}

/// If the ack channel closes before the FIN is acked, the engine stops without draining.
#[test]
fn an_unacked_fin_never_drains() {
    let mut sender = Sender::new();
    sender.on_read(b"");
    assert_eq!(sender.on_ack(None), Next::Stop);
    assert!(!sender.drained());
}

#[test]
fn a_timeout_repeats_the_packet_in_flight() {
    let mut sender = Sender::new();
    sender.on_read(b"hello");
    assert_eq!(Frame::decode(sender.on_timeout()), Ok(data(0, b"hello")));
    assert_eq!(sender.on_timeout(), sender.packet());
    assert_eq!(sender.on_ack(Some(1)), Next::Read);
    sender.on_read(b"");
    assert_eq!(Frame::decode(sender.on_timeout()), Ok(fin(1)));
    assert_eq!(sender.on_ack(Some(2)), Next::Stop);
}

#[test]
fn a_closed_ack_channel_stops_the_sender() {
    let mut sender = Sender::new();
    sender.on_read(b"hello");
    assert_eq!(sender.on_ack(None), Next::Stop);
    assert!(!sender.drained());
}

#[test]
fn faults_follow_their_schedule() {
    let mut faulty = Faulty::new(Faults::drop_sends(vec![2, 4]));
    assert!(faulty.can_count());
    let fates: Vec<Fate> = (0..5).map(|_| faulty.send_to(b"abc")).collect();
    assert_eq!(
        fates,
        [
            Fate::Send,
            Fate::Drop { reported: 3 },
            Fate::Send,
            Fate::Drop { reported: 3 },
            Fate::Send
        ]
    );
    let faults = Faults::drop_sends(vec![1, 1, 9]);
    assert_eq!(faults.clone().drop_sends, vec![1, 1, 9]);
    assert!(faults.drops(9));
    assert!(!faults.drops(2));
    assert!(Faults::default().drop_sends.is_empty());
}
