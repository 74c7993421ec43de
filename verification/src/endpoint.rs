//! The decisions of an endpoint: what each datagram that reaches its socket means, and how a dial
//! proceeds.
//!
//! The socket and the queues belong to the driver around this module. It hands in what arrived and
//! carries out the [`Verdict`] or the [`DialStep`] that comes back.

use vstd::prelude::*;

use crate::error::Error;
use crate::routes::{PeerAddr, RouteTable};
use crate::wire::{decoded, encoded, DecodeErrorView, Frame, FrameView, KEY_LEN};

verus! {

/// What the demultiplexer does about one datagram.
pub enum Verdict {
    /// Nothing at all: no packet goes back.
    Silent,
    /// Hand the frame to the live route for its source, if there is one.
    Forward {
        /// The frame.
        frame: Frame,
    },
    /// A connection has been opened: send `reply` and queue the connection for the application.
    Welcome {
        /// The generation of the connection's route.
        generation: u64,
        /// The key the peer announced.
        peer_key: [u8; KEY_LEN],
        /// The encoded answer.
        reply: Vec<u8>,
    },
}

/// The packet that goes back in answer to `datagram`, if any does: only a `Hello` is answered, and only
/// if there is `room` for another connection to await acceptance.
pub open spec fn answer(our_key: Seq<u8>, datagram: Seq<u8>, room: bool) -> Option<Seq<u8>> {
    match decoded(datagram) {
        Ok(FrameView::Hello { .. }) if room => Some(encoded(FrameView::HelloAck { key: our_key })),
        _ => None,
    }
}

/// What became of a frame that was handed to a route.
#[derive(Debug, Clone, Copy, PartialEq, Eq, Structural)]
pub enum Delivery {
    /// The connection has it.
    Delivered,
    /// The connection's queue was full and the frame was shed.
    Shed,
    /// The connection is gone.
    Closed,
}

/// The demultiplexer: routes every datagram to its connection or opens a new one.
pub struct Driver {
    our_key: [u8; KEY_LEN],
}

impl View for Driver {
    type V = Seq<u8>;

    closed spec fn view(&self) -> Seq<u8> {
        self.our_key@
    }
}

impl Driver {
    /// A demultiplexer that announces `our_key`.
    pub fn new(our_key: [u8; KEY_LEN]) -> (driver: Self)
        ensures
            driver@ == our_key@,
    {
        Driver { our_key }
    }

    /// Take one datagram. `inbound` is the way into the connection that the datagram may open, or
    /// `None` if there is no room for another connection to await acceptance.
    ///
    /// A `Hello` always (re)opens a connection: it signals a peer starting a fresh session, so it must
    /// never be routed into an existing (possibly dead) connection for its address. Where there is no
    /// room it is dropped, and the dialer sees no answer. A datagram that does not decode is dropped in
    /// silence.
    pub fn on_datagram<T>(
        &self,
        routes: &mut RouteTable<T>,
        from: PeerAddr,
        datagram: &[u8],
        inbound: Option<T>,
    ) -> (verdict: Verdict)
        ensures
            match decoded(datagram@) {
                Err(_) => verdict is Silent && final(routes)@ == old(routes)@,
                Ok(FrameView::Hello { key }) => match inbound {
                    Some(inbound) => {
                        &&& verdict is Welcome
                        &&& verdict->generation == old(routes)@.next
                        &&& verdict->peer_key@ == key
                        &&& final(routes)@ == old(routes)@.installed(from, inbound)
                    },
                    None => verdict is Silent && final(routes)@ == old(routes)@,
                },
                Ok(frame) => {
                    &&& verdict is Forward
                    &&& verdict->frame@ == frame
                    &&& final(routes)@ == old(routes)@
                },
            },
            match verdict {
                Verdict::Welcome { generation: _, peer_key: _, reply } => answer(
                    self@,
                    datagram@,
                    inbound is Some,
                ) == Some(reply@),
                _ => answer(self@, datagram@, inbound is Some) is None,
            },
    {
        let frame = match Frame::decode(datagram) {
            Ok(frame) => frame,
            Err(_) => return Verdict::Silent,
        };
        match frame {
            Frame::Hello { key } => match inbound {
                Some(inbound) => {
                    let generation: u64 = routes.install(from, inbound);
                    let reply = Frame::HelloAck { key: self.our_key }.to_bytes();
                    Verdict::Welcome { generation, peer_key: key, reply }
                },
                None => Verdict::Silent,
            },
            frame => Verdict::Forward { frame },
        }
    }

    /// The way into the live connection for `from`, if there is one.
    pub fn route_to_existing<'a, T>(
        &self,
        routes: &'a RouteTable<T>,
        from: PeerAddr,
    ) -> (inbound: Option<&'a T>)
        ensures
            match inbound {
                Some(inbound) => routes@.routes.contains_key(from) && routes@.routes[from].inbound
                    == *inbound,
                None => !routes@.routes.contains_key(from),
            },
    {
        match routes.get(from) {
            Some(route) => Some(&route.inbound),
            None => None,
        }
    }

    /// Settle a delivery to the route for `from`: a route whose connection has been dropped is pruned,
    /// so it cannot keep absorbing (and black-holing) frames. A frame that was shed under flood was
    /// handled for a live route, just as one that was delivered.
    pub fn settle<T>(&self, routes: &mut RouteTable<T>, from: PeerAddr, delivery: Delivery)
        ensures
            final(routes)@ == match delivery {
                Delivery::Closed => old(routes)@.removed(from),
                _ => old(routes)@,
            },
    {
        match delivery {
            Delivery::Delivered | Delivery::Shed => {},
            Delivery::Closed => routes.remove(from),
        }
    }
}

/// How a dial goes on.
pub enum DialStep {
    /// The handshake is complete.
    Established {
        /// The key the peer announced.
        peer_key: [u8; KEY_LEN],
    },
    /// Wait for the next frame.
    Waiting,
    /// The handshake cannot complete.
    Failed {
        /// Why.
        error: Error,
    },
}

/// A dial in progress: its route is installed, its `Hello` sent or about to be.
#[derive(Debug, Clone, Copy)]
pub struct Dial {
    peer: PeerAddr,
    generation: u64,
}

impl Dial {
    /// The peer being dialed.
    pub closed spec fn peer(&self) -> PeerAddr {
        self.peer
    }

    /// The generation of the dial's route.
    pub closed spec fn route_generation(&self) -> u64 {
        self.generation
    }

    /// Start dialing `peer`: install its route, and return the `Hello` to send.
    pub fn begin<T>(
        routes: &mut RouteTable<T>,
        our_key: [u8; KEY_LEN],
        peer: PeerAddr,
        inbound: T,
    ) -> (begun: (Dial, Vec<u8>))
        ensures
            begun.0.peer() == peer,
            begun.0.route_generation() == old(routes)@.next,
            begun.1@ == encoded(FrameView::Hello { key: our_key@ }),
            final(routes)@ == old(routes)@.installed(peer, inbound),
    {
        let generation: u64 = routes.install(peer, inbound);
        let hello = Frame::Hello { key: our_key }.to_bytes();
        (Dial { peer, generation }, hello)
    }

    /// The generation of the dial's route.
    pub fn generation(&self) -> (generation: u64)
        ensures
            generation == self.route_generation(),
    {
        self.generation
    }

    /// Take the next frame from the dial's route, or `None` if the route is gone.
    ///
    /// Only the `HelloAck` counts: any late frame still draining from a prior connection at this reused
    /// address is skipped, since a stray stale ack must not be mistaken for a failed handshake. If the
    /// route is gone, only the dial's own entry is pruned, so a concurrent redial's is untouched.
    pub fn on_frame<T>(&self, routes: &mut RouteTable<T>, frame: Option<Frame>) -> (step: DialStep)
        ensures
            match frame {
                Some(Frame::HelloAck { key }) => {
                    &&& step is Established
                    &&& step->peer_key == key
                    &&& final(routes)@ == old(routes)@
                },
                Some(_) => step is Waiting && final(routes)@ == old(routes)@,
                None => {
                    &&& step is Failed
                    &&& step->error == Error::Handshake
                    &&& final(routes)@ == old(routes)@.pruned(self.peer(), self.route_generation())
                },
            },
    {
        match frame {
            Some(Frame::HelloAck { key }) => DialStep::Established { peer_key: key },
            Some(_) => DialStep::Waiting,
            None => {
                routes.prune_route(self.peer, self.generation);
                DialStep::Failed { error: Error::Handshake }
            },
        }
    }
}

// ---------------------------------------------------------------------------------------------------
// Laws
// ---------------------------------------------------------------------------------------------------
/// The one answer a spoofable wire may give to what it cannot decode: none.
pub proof fn law_an_undecodable_datagram_is_never_answered(
    our_key: Seq<u8>,
    datagram: Seq<u8>,
    room: bool,
)
    requires
        decoded(datagram) is Err,
    ensures
        answer(our_key, datagram, room) is None,
{
}

/// An endpoint amplifies nothing: what it sends back to an unsolicited datagram is exactly as long as
/// the datagram.
pub proof fn law_an_answer_is_no_longer_than_what_it_answers(
    our_key: Seq<u8>,
    datagram: Seq<u8>,
    room: bool,
)
    requires
        our_key.len() == KEY_LEN,
        answer(our_key, datagram, room) is Some,
    ensures
        answer(our_key, datagram, room)->0.len() == datagram.len(),
{
    crate::wire::law_encode_inverts_decode(datagram);
}

/// The handshake exchanges identities: the `Hello` of a dialer tells the acceptor the dialer's key, and
/// the answer tells the dialer the acceptor's.
pub proof fn law_the_handshake_exchanges_identities(dialer: Seq<u8>, acceptor: Seq<u8>)
    requires
        dialer.len() == KEY_LEN,
        acceptor.len() == KEY_LEN,
    ensures
        ({
            let hello = encoded(FrameView::Hello { key: dialer });
            let reply = answer(acceptor, hello, true);
            &&& decoded(hello) == Ok::<FrameView, DecodeErrorView>(FrameView::Hello { key: dialer })
            &&& reply is Some
            &&& decoded(reply->0) == Ok::<FrameView, DecodeErrorView>(
                FrameView::HelloAck { key: acceptor },
            )
        }),
{
    crate::wire::law_decode_inverts_encode(FrameView::Hello { key: dialer });
    crate::wire::law_decode_inverts_encode(FrameView::HelloAck { key: acceptor });
}

/// Only a greeting is answered: a packet goes back exactly if the datagram is a `Hello` and there is room
/// for the connection it opens, and then it is the `HelloAck` with our key.
pub proof fn law_only_a_hello_is_answered(our_key: Seq<u8>, datagram: Seq<u8>, room: bool)
    requires
        our_key.len() == KEY_LEN,
    ensures
        answer(our_key, datagram, room) is Some <==> room && exists|key: Seq<u8>|
            key.len() == KEY_LEN && datagram == #[trigger] encoded(FrameView::Hello { key }),
        answer(our_key, datagram, room) matches Some(reply) ==> decoded(reply) == Ok::<
            FrameView,
            DecodeErrorView,
        >(FrameView::HelloAck { key: our_key }),
{
    crate::wire::law_decode_inverts_encode(FrameView::HelloAck { key: our_key });
    if answer(our_key, datagram, room) is Some {
        crate::wire::law_encode_inverts_decode(datagram);
        let key = decoded(datagram)->Ok_0->Hello_key;
        assert(datagram == encoded(FrameView::Hello { key }));
    }
    if exists|key: Seq<u8>|
        key.len() == KEY_LEN && datagram == #[trigger] encoded(FrameView::Hello { key }) {
        let key = choose|key: Seq<u8>|
            key.len() == KEY_LEN && datagram == #[trigger] encoded(FrameView::Hello { key });
        crate::wire::law_decode_inverts_encode(FrameView::Hello { key });
    }
}

} // verus!
