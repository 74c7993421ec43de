//! Handshake, demultiplexing, routes, identities, connections.

use bytes::Bytes;

use quirk::connection::{wait_closed, wait_true, Connection, DatagramQueue, Received};
use quirk::endpoint::{Delivery, Dial, DialStep, Driver, Verdict};
use quirk::error::Error;
use quirk::identity::Identity;
use quirk::routes::{PeerAddr, RouteTable};
use quirk::wire::Frame;

const DIALER: PeerAddr = PeerAddr::V4 { ip: 0x7f00_0001, port: 1000 };
const ACCEPTOR: PeerAddr = PeerAddr::V4 { ip: 0x7f00_0001, port: 2000 };

/// Two endpoints complete the handshake and each learns the other's identity.
#[test]
fn handshake_exchanges_identities() {
    let dialer = Identity::generate().unwrap();
    let acceptor = Identity::generate().unwrap();
    let mut dialer_routes: RouteTable<&str> = RouteTable::new();
    let mut acceptor_routes: RouteTable<&str> = RouteTable::new();

    let (dial, hello) = Dial::begin(&mut dialer_routes, dialer.public_key(), ACCEPTOR, "dial");
    let driver = Driver::new(acceptor.public_key());
    let reply = match driver.on_datagram(&mut acceptor_routes, DIALER, &hello, Some("accepted")) {
        Verdict::Welcome { generation, peer_key, reply } => {
            assert_eq!(generation, 0);
            assert_eq!(peer_key, dialer.public_key(), "acceptor sees the dialer");
            reply
        }
        _ => panic!("the hello was not welcomed"),
    };
    assert_eq!(driver.route_to_existing(&acceptor_routes, DIALER), Some(&"accepted"));

    let back = Driver::new(dialer.public_key());
    let frame = match back.on_datagram(&mut dialer_routes, ACCEPTOR, &reply, Some("unused")) {
        Verdict::Forward { frame } => frame,
        _ => panic!("the answer was not forwarded"),
    };
    match dial.on_frame(&mut dialer_routes, Some(frame)) {
        DialStep::Established { peer_key } => {
            assert_eq!(peer_key, acceptor.public_key(), "dialer sees the acceptor")
        }
        _ => panic!("the dial was not established"),
    }
    assert_eq!(back.route_to_existing(&dialer_routes, ACCEPTOR), Some(&"dial"));
    assert_eq!(dial.generation(), 0);
}

/// A persisted secret yields a stable public key; a fresh identity differs.
#[test]
fn bind_with_secret_is_deterministic() {
    let secret = [7u8; 32];
    let first = Identity::from_secret(secret);
    let second = Identity::from_secret(secret);
    assert_eq!(
        first.public_key(),
        second.public_key(),
        "the same secret yields the same identity"
    );
    assert_eq!(first.secret(), secret);
    let fresh = Identity::generate().unwrap();
    assert_ne!(
        first.public_key(),
        fresh.public_key(),
        "a fresh bind is a different identity"
    );
    assert_ne!(fresh.secret(), Identity::generate().unwrap().secret());
}

#[test]
fn an_identity_needs_a_drawn_secret() {
    let secret = [9u8; 32];
    let drawn = Identity::from_draw(Some(secret)).unwrap();
    assert_eq!(drawn.secret(), secret);
    assert_eq!(drawn.public_key(), Identity::from_secret(secret).public_key());
    assert!(Identity::from_draw(None).is_none());
}

/// The public key is the one `ed25519-dalek` derives directly from the same secret.
#[test]
fn public_key_is_the_ed25519_key_of_the_secret() {
    let secret = [42u8; 32];
    let expected = ed25519_dalek::SigningKey::from_bytes(&secret)
        .verifying_key()
        .to_bytes();
    assert_eq!(Identity::from_secret(secret).public_key(), expected);
    assert_ne!(expected, secret);
}

/// A datagram this endpoint cannot decode gets no packet back, whichever half of the magic is wrong.
#[test]
fn an_undecodable_datagram_is_never_answered() {
    let driver = Driver::new([1; 32]);
    let mut routes: RouteTable<u8> = RouteTable::new();
    for datagram in [&b"QRK1\x01"[..], b"XRK0\x01", b"QRK0", b"", b"QRK0\xff"] {
        assert!(matches!(
            driver.on_datagram(&mut routes, DIALER, datagram, Some(0)),
            Verdict::Silent
        ));
        assert!(routes.get(DIALER).is_none());
    }
}

/// An answer is exactly as long as the hello it answers.
#[test]
fn an_answer_amplifies_nothing() {
    let driver = Driver::new([1; 32]);
    let mut routes: RouteTable<u8> = RouteTable::new();
    let hello = Frame::Hello { key: [2; 32] }.to_bytes();
    match driver.on_datagram(&mut routes, DIALER, &hello, Some(0)) {
        Verdict::Welcome { reply, .. } => {
            assert_eq!(reply.len(), hello.len());
            assert_eq!(Frame::decode(&reply), Ok(Frame::HelloAck { key: [1; 32] }));
        }
        _ => panic!("the hello was not welcomed"),
    }
}

/// Where no more connections may await acceptance, a hello is dropped and not answered.
#[test]
fn an_excess_hello_is_dropped() {
    let driver = Driver::new([1; 32]);
    let mut routes: RouteTable<u8> = RouteTable::new();
    let hello = Frame::Hello { key: [2; 32] }.to_bytes();
    assert!(matches!(
        driver.on_datagram(&mut routes, DIALER, &hello, None),
        Verdict::Silent
    ));
    assert!(routes.get(DIALER).is_none());
}

/// A hello from an address that has a route opens a new connection instead of reaching the old one.
#[test]
fn reused_address_is_not_black_holed_after_close() {
    let driver = Driver::new([1; 32]);
    let mut routes: RouteTable<&str> = RouteTable::new();
    let hello = Frame::Hello { key: [2; 32] }.to_bytes();
    let mut open = |routes: &mut RouteTable<&'static str>, inbound| match driver
        .on_datagram(routes, DIALER, &hello, Some(inbound))
    {
        Verdict::Welcome { generation, peer_key, .. } => {
            Connection::new(generation, DIALER, peer_key, ())
        }
        _ => panic!("the hello was not welcomed"),
    };
    let first = open(&mut routes, "first");
    let second = open(&mut routes, "second");
    assert_eq!(routes.get(DIALER).unwrap().inbound, "second");
    // The old connection drops after the new one was opened: the new route stays.
    first.release(&mut routes);
    assert_eq!(routes.get(DIALER).unwrap().inbound, "second");
    second.release(&mut routes);
    assert!(routes.get(DIALER).is_none());
    let third = open(&mut routes, "third");
    assert_eq!(routes.get(DIALER).unwrap().inbound, "third");
    assert_eq!(routes.get(DIALER).unwrap().generation, 2);
    assert_eq!(third.peer_key(), [2; 32]);
    assert_eq!(third.peer_addr(), DIALER);
}

/// The demultiplexer serves several connections at once.
#[test]
fn accepts_multiple_concurrent_connections() {
    let driver = Driver::new([1; 32]);
    let mut routes: RouteTable<u16> = RouteTable::new();
    let addr = |port: u16| PeerAddr::V6 { ip6: 1, port, flowinfo: 0, scope_id: 0 };
    for port in 1..=3u16 {
        let hello = Frame::Hello { key: [port as u8; 32] }.to_bytes();
        match driver.on_datagram(&mut routes, addr(port), &hello, Some(port)) {
            Verdict::Welcome { generation, peer_key, .. } => {
                assert_eq!(generation, port as u64 - 1);
                assert_eq!(peer_key, [port as u8; 32]);
            }
            _ => panic!("the hello was not welcomed"),
        }
    }
    routes.remove(addr(1));
    assert!(routes.get(addr(1)).is_none());
    assert_eq!(routes.get(addr(2)).unwrap().inbound, 2);
    assert_eq!(routes.get(addr(3)).unwrap().inbound, 3);
    routes.remove(addr(1));
    assert_eq!(routes.get(addr(3)).unwrap().generation, 2);
}

#[test]
fn a_dead_route_is_pruned() {
    let driver = Driver::new([1; 32]);
    let mut routes: RouteTable<u8> = RouteTable::new();
    routes.install(DIALER, 9);
    driver.settle(&mut routes, DIALER, Delivery::Delivered);
    driver.settle(&mut routes, DIALER, Delivery::Shed);
    assert_eq!(driver.route_to_existing(&routes, DIALER), Some(&9));
    driver.settle(&mut routes, DIALER, Delivery::Closed);
    assert_eq!(driver.route_to_existing(&routes, DIALER), None);
}

#[test]
fn a_dial_skips_stale_frames_and_fails_when_its_route_is_gone() {
    let mut routes: RouteTable<u8> = RouteTable::new();
    let (dial, hello) = Dial::begin(&mut routes, [3; 32], ACCEPTOR, 0);
    assert_eq!(Frame::decode(&hello), Ok(Frame::Hello { key: [3; 32] }));
    for stale in [
        Frame::Ack { stream: 0, seq: 4 },
        Frame::Fin { stream: 0, seq: 4 },
        Frame::Datagram { data: Bytes::from_static(b"late") },
    ] {
        assert!(matches!(dial.on_frame(&mut routes, Some(stale)), DialStep::Waiting));
    }
    let (redial, _) = Dial::begin(&mut routes, [3; 32], ACCEPTOR, 1);
    match dial.on_frame(&mut routes, None) {
        DialStep::Failed { error } => assert_eq!(error.to_string(), "unexpected handshake frame"),
        _ => panic!("the dial did not fail"),
    }
    // The newer dial's route is untouched by the failure of the older one.
    assert_eq!(routes.get(ACCEPTOR).unwrap().inbound, 1);
    assert!(matches!(redial.on_frame(&mut routes, None), DialStep::Failed { .. }));
    assert!(routes.get(ACCEPTOR).is_none());
}

#[test]
fn the_stream_is_available_once() {
    let mut connection = Connection::new(0, DIALER, [0; 32], "halves");
    assert!(matches!(connection.open_bi(), Ok("halves")));
    assert!(matches!(connection.open_bi(), Err(Error::Closed)));
    assert!(matches!(connection.accept_bi(), Err(Error::Closed)));
    let mut connection = Connection::new(0, DIALER, [0; 32], "halves");
    assert!(matches!(connection.accept_bi(), Ok("halves")));
    assert!(matches!(connection.open_bi(), Err(Error::Closed)));
}

/// Datagrams cross the wire as they were sent.
#[test]
fn datagrams_flow_both_ways() {
    let connection = Connection::new(0, DIALER, [0; 32], ());
    let mut queue = DatagramQueue::new(4);
    for data in [&b"ping"[..], b"pong"] {
        match Frame::decode(&connection.send_datagram(data)) {
            Ok(Frame::Datagram { data }) => queue.push(data),
            other => panic!("not a datagram: {other:?}"),
        }
    }
    assert!(matches!(queue.pop(), Received::Datagram { data } if data.as_ref() == b"ping"));
    assert!(matches!(queue.pop(), Received::Datagram { data } if data.as_ref() == b"pong"));
    assert!(matches!(queue.pop(), Received::Pending));
}

#[test]
fn a_full_datagram_queue_sheds_the_oldest() {
    let mut queue = DatagramQueue::new(2);
    for data in [&b"1"[..], b"2", b"3"] {
        queue.push(Bytes::copy_from_slice(data));
    }
    queue.close();
    assert!(matches!(queue.pop(), Received::Datagram { data } if data.as_ref() == b"2"));
    assert!(matches!(queue.pop(), Received::Datagram { data } if data.as_ref() == b"3"));
    assert!(matches!(queue.pop(), Received::Closed));
}

#[test]
fn a_wait_ends_when_the_flag_is_set_or_the_engine_is_gone() {
    assert!(!wait_true(false, false));
    assert!(wait_true(true, false));
    assert!(wait_true(false, true));
}

/// The inbound FIN alone does not close the connection, and neither does the outbound one; an engine
/// that is gone is not waited for.
#[test]
fn a_close_waits_for_both_directions() {
    assert!(!wait_closed(false, false, false, false));
    assert!(!wait_closed(true, false, false, false));
    assert!(!wait_closed(false, false, true, false));
    assert!(wait_closed(true, false, true, false));
    assert!(wait_closed(true, false, false, true));
    assert!(wait_closed(false, true, true, false));
    assert!(wait_closed(false, true, false, true));
    assert!(!wait_closed(false, true, false, false));
    assert!(!wait_closed(false, false, false, true));
}

#[test]
fn errors_read_as_lines_of_text() {
    let io = || std::io::Error::from(std::io::ErrorKind::AddrInUse);
    assert_eq!(Error::Bind(io()).to_string(), "bind udp socket");
    assert_eq!(Error::Io(io()).to_string(), "socket io");
    assert_eq!(Error::Handshake.to_string(), "unexpected handshake frame");
    assert_eq!(Error::Closed.to_string(), "endpoint closed");
}
