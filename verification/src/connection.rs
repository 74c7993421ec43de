//! An established connection: its identity, its one bidirectional stream, its datagrams, and its close.

use std::collections::VecDeque;

use bytes::Bytes;
use vstd::prelude::*;

use crate::error::Error;
use crate::payload;
use crate::routes::{PeerAddr, RouteTable};
use crate::wire::{encoded, Frame, FrameView, KEY_LEN};

verus! {

/// What a connection is.
pub struct ConnectionView<S> {
    /// The generation that installed the connection's route.
    pub generation: u64,
    /// The peer's socket address.
    pub peer_addr: PeerAddr,
    /// The peer's raw public key.
    pub peer_key: Seq<u8>,
    /// The stream's two halves, until they are taken.
    pub stream: Option<S>,
}

/// An established connection to one peer. `S` is whatever the two halves of its bidirectional stream
/// are.
pub struct Connection<S> {
    /// The generation that installed this connection's route, so that its drop prunes only its own
    /// entry and never a newer connection's route for the same reused address.
    generation: u64,
    peer_addr: PeerAddr,
    peer_key: [u8; KEY_LEN],
    stream: Option<S>,
}

impl<S> View for Connection<S> {
    type V = ConnectionView<S>;

    closed spec fn view(&self) -> ConnectionView<S> {
        ConnectionView {
            generation: self.generation,
            peer_addr: self.peer_addr,
            peer_key: self.peer_key@,
            stream: self.stream,
        }
    }
}

impl<S> Connection<S> {
    /// A connection whose stream has not been taken.
    pub fn new(generation: u64, peer_addr: PeerAddr, peer_key: [u8; KEY_LEN], stream: S) -> (connection:
        Self)
        ensures
            connection@ == (ConnectionView {
                generation,
                peer_addr,
                peer_key: peer_key@,
                stream: Some(stream),
            }),
    {
        Connection { generation, peer_addr, peer_key, stream: Some(stream) }
    }

    /// The peer's raw ed25519 public key, as announced in the handshake.
    pub fn peer_key(&self) -> (key: [u8; KEY_LEN])
        ensures
            key@ == self@.peer_key,
    {
        self.peer_key
    }

    /// The peer's socket address.
    pub fn peer_addr(&self) -> (addr: PeerAddr)
        ensures
            addr == self@.peer_addr,
    {
        self.peer_addr
    }

    /// Take the connection's bidirectional stream: a write half and a read half. Available once.
    pub fn open_bi(&mut self) -> (halves: Result<S, Error>)
        ensures
            match old(self)@.stream {
                Some(stream) => halves == Ok::<S, Error>(stream),
                None => halves == Err::<S, Error>(Error::Closed),
            },
            final(self)@ == (ConnectionView { stream: None, ..old(self)@ }),
    {
        match self.stream.take() {
            Some(stream) => Ok(stream),
            None => Err(Error::Closed),
        }
    }

    /// The single stream is symmetric, so accepting it is the same as opening it.
    pub fn accept_bi(&mut self) -> (halves: Result<S, Error>)
        ensures
            match old(self)@.stream {
                Some(stream) => halves == Ok::<S, Error>(stream),
                None => halves == Err::<S, Error>(Error::Closed),
            },
            final(self)@ == (ConnectionView { stream: None, ..old(self)@ }),
    {
        self.open_bi()
    }

    /// What goes out for `send_datagram`: the datagram frame that carries `data`.
    pub fn send_datagram(&self, data: &[u8]) -> (packet: Vec<u8>)
        ensures
            packet@ == encoded(FrameView::Datagram { data: data@ }),
    {
        Frame::Datagram { data: payload::copy_from_slice(data) }.to_bytes()
    }

    /// The end of the connection: prune its peer-address route so a dead connection cannot black-hole a
    /// peer that later dials from the same address, and so the routing table does not grow without
    /// bound. Removes only its own entry (matched by generation), never a newer connection's route for
    /// a reused address.
    pub fn release<T>(&self, routes: &mut RouteTable<T>)
        ensures
            final(routes)@ == old(routes)@.pruned(self@.peer_addr, self@.generation),
    {
        routes.prune_route(self.peer_addr, self.generation);
    }
}

/// Whether a wait for an engine's flag is over: the flag is set, or the engine is gone, so that no
/// further progress is possible and blocking would hang forever.
pub fn wait_true(flag: bool, engine_gone: bool) -> (over: bool)
    ensures
        over == (flag || engine_gone),
{
    flag || engine_gone
}

/// Whether both directions have quiesced: the inbound stream has `closed` or the receive engine is gone,
/// and the outbound direction has `drained` or the send engine is gone.
pub open spec fn quiesced(closed: bool, receiver_gone: bool, drained: bool, sender_gone: bool) -> bool {
    (closed || receiver_gone) && (drained || sender_gone)
}

/// Whether a wait for the connection to close is over: the peer has finished sending (its FIN seen and
/// all inbound bytes delivered) and our own writes have been delivered and acked. Only then is it safe to
/// drop the connection, which prunes its route and severs the engines; returning on the inbound FIN alone
/// would let a caller drop mid-retransmit and truncate outbound data still in flight.
pub fn wait_closed(closed: bool, receiver_gone: bool, drained: bool, sender_gone: bool) -> (over: bool)
    ensures
        over == quiesced(closed, receiver_gone, drained, sender_gone),
{
    wait_true(closed, receiver_gone) && wait_true(drained, sender_gone)
}

// ---------------------------------------------------------------------------------------------------
// Datagrams
// ---------------------------------------------------------------------------------------------------
/// What a datagram queue holds.
pub struct Queued {
    /// The datagrams, oldest first.
    pub items: Seq<Seq<u8>>,
    /// How many there may be.
    pub capacity: nat,
    /// Whether more may come.
    pub closed: bool,
}

impl Queued {
    /// The queue never holds more than it may.
    pub open spec fn wf(self) -> bool {
        self.items.len() <= self.capacity && self.capacity > 0
    }

    /// The queue after one more datagram: a full queue sheds its oldest.
    pub open spec fn pushed(self, data: Seq<u8>) -> Self {
        let kept = if self.items.len() >= self.capacity {
            self.items.drop_first()
        } else {
            self.items
        };
        Queued { items: kept.push(data), ..self }
    }

    /// The queue after several more.
    pub open spec fn pushed_all(self, arrivals: Seq<Seq<u8>>) -> Self
        decreases arrivals.len(),
    {
        if arrivals.len() == 0 {
            self
        } else {
            self.pushed_all(arrivals.drop_last()).pushed(arrivals.last())
        }
    }
}

/// What a reader of a datagram queue gets.
pub enum Received {
    /// The oldest datagram.
    Datagram {
        /// The datagram bytes.
        data: Bytes,
    },
    /// Nothing yet.
    Pending,
    /// Nothing ever again.
    Closed,
}

/// Received datagrams that await the application. Datagrams are unreliable by definition, so dropping
/// under flood is the contract, not a failure: a full queue sheds the oldest.
pub struct DatagramQueue {
    items: VecDeque<Bytes>,
    capacity: usize,
    closed: bool,
}

impl View for DatagramQueue {
    type V = Queued;

    closed spec fn view(&self) -> Queued {
        Queued {
            items: self.items@.map_values(|data: Bytes| payload::contents(data)),
            capacity: self.capacity as nat,
            closed: self.closed,
        }
    }
}

impl DatagramQueue {
    /// A queue for at most `capacity` datagrams.
    pub fn new(capacity: usize) -> (queue: Self)
        requires
            capacity > 0,
        ensures
            queue@ == (Queued { items: Seq::empty(), capacity: capacity as nat, closed: false }),
            queue@.wf(),
    {
        let queue = DatagramQueue { items: VecDeque::new(), capacity, closed: false };
        assert(queue@.items =~= Seq::empty());
        queue
    }

    /// Queue a datagram, shedding the oldest if the queue is full.
    pub fn push(&mut self, data: Bytes)
        requires
            old(self)@.wf(),
        ensures
            final(self)@ == old(self)@.pushed(payload::contents(data)),
            final(self)@.wf(),
    {
        if self.items.len() >= self.capacity {
            let _ = self.items.pop_front();
            assert(self@.items =~= old(self)@.items.drop_first());
        }
        let ghost kept = self@.items;
        self.items.push_back(data);
        assert(self@.items =~= kept.push(payload::contents(data)));
    }

    /// Take the oldest datagram.
    pub fn pop(&mut self) -> (received: Received)
        ensures
            match received {
                Received::Datagram { data } => {
                    &&& old(self)@.items.len() > 0
                    &&& payload::contents(data) == old(self)@.items[0]
                    &&& final(self)@ == (Queued { items: old(self)@.items.drop_first(), ..old(self)@ })
                },
                Received::Pending => {
                    &&& old(self)@.items.len() == 0
                    &&& !old(self)@.closed
                    &&& final(self)@ == old(self)@
                },
                Received::Closed => {
                    &&& old(self)@.items.len() == 0
                    &&& old(self)@.closed
                    &&& final(self)@ == old(self)@
                },
            },
    {
        match self.items.pop_front() {
            Some(data) => {
                assert(self@.items =~= old(self)@.items.drop_first());
                Received::Datagram { data }
            },
            None => {
                assert(self@.items =~= old(self)@.items);
                if self.closed {
                    Received::Closed
                } else {
                    Received::Pending
                }
            },
        }
    }

    /// No more datagrams will come.
    pub fn close(&mut self)
        ensures
            final(self)@ == (Queued { closed: true, ..old(self)@ }),
    {
        self.closed = true;
    }
}

// ---------------------------------------------------------------------------------------------------
// Laws
// ---------------------------------------------------------------------------------------------------
/// One direction is not enough to close, and a missing engine is not waited for: while the inbound
/// stream is open, or the outbound direction not drained, the wait goes on as long as the engine in
/// question is there; once each direction is done or its engine gone, it is over.
pub proof fn law_a_close_needs_both_directions(
    closed: bool,
    receiver_gone: bool,
    drained: bool,
    sender_gone: bool,
)
    ensures
        !closed && !receiver_gone ==> !quiesced(closed, receiver_gone, drained, sender_gone),
        !drained && !sender_gone ==> !quiesced(closed, receiver_gone, drained, sender_gone),
        receiver_gone && sender_gone ==> quiesced(closed, receiver_gone, drained, sender_gone),
        closed && drained ==> quiesced(closed, receiver_gone, drained, sender_gone),
        closed && sender_gone ==> quiesced(closed, receiver_gone, drained, sender_gone),
        receiver_gone && drained ==> quiesced(closed, receiver_gone, drained, sender_gone),
{
}

/// The last `count` of `items`, or all of them if there are fewer.
pub open spec fn newest<A>(items: Seq<A>, count: nat) -> Seq<A> {
    if items.len() <= count {
        items
    } else {
        items.skip(items.len() - count)
    }
}

/// Queueing a datagram queues it, and does nothing else: the datagram is the newest in the queue, as it
/// came, behind what was there; only the oldest gives way, and only if there was no room; and the queue
/// is closed afterwards exactly if it was before. Only a close closes a queue, so a reader of one that
/// nobody closed is never told that nothing will come again.
pub proof fn law_queueing_a_datagram_closes_nothing(queue: Queued, data: Seq<u8>)
    requires
        queue.wf(),
    ensures
        ({
            let after = queue.pushed(data);
            &&& after.closed == queue.closed
            &&& after.capacity == queue.capacity
            &&& after.items.len() > 0 && after.items.last() == data
            &&& queue.items.len() < queue.capacity ==> after.items.drop_last() == queue.items
            &&& queue.items.len() == queue.capacity ==> after.items.drop_last() == queue.items.skip(1)
        }),
{
    let after = queue.pushed(data);
    if queue.items.len() < queue.capacity {
        assert(after.items.drop_last() =~= queue.items);
    } else {
        assert(after.items.drop_last() =~= queue.items.skip(1));
    }
}

/// A flood costs only old datagrams: whatever arrives, the queue holds the newest of what it held and
/// what arrived, in order, and never more than its capacity, and it is closed exactly if it was before.
pub proof fn law_a_flood_sheds_the_oldest(queue: Queued, arrivals: Seq<Seq<u8>>)
    requires
        queue.wf(),
    ensures
        queue.pushed_all(arrivals).wf(),
        queue.pushed_all(arrivals).items == newest(queue.items + arrivals, queue.capacity),
        queue.pushed_all(arrivals).capacity == queue.capacity,
        queue.pushed_all(arrivals).closed == queue.closed,
    decreases arrivals.len(),
{
    if arrivals.len() == 0 {
        assert(queue.items + arrivals =~= queue.items);
    } else {
        law_a_flood_sheds_the_oldest(queue, arrivals.drop_last());
        assert(queue.items + arrivals =~= (queue.items + arrivals.drop_last()).push(arrivals.last()));
        assert(queue.pushed_all(arrivals).items =~= newest(queue.items + arrivals, queue.capacity));
    }
}

} // verus!
