//! quirk: a QUIC-shaped transport over UDP, with its protocol logic verified.
//!
//! Connections, reliable in-order streams and unreliable datagrams, with the framing, handshake and
//! retransmission written out by hand. It is not interoperable with standard QUIC. This crate holds the
//! decisions; the sockets, tasks and timers that carry them out live around it.
//!
//! - [`wire`]: the codec. Frames to datagrams and back.
//! - [`endpoint`]: the demultiplexer and the handshake, over the routing table of [`routes`].
//! - [`connection`]: what an established connection is, and its datagram queue.
//! - [`sender`] and [`dispatcher`]: the send and receive engines of a connection's stream, the latter
//!   over the reassembly of [`stream`].
//! - [`link`]: what the two engines achieve together over a network that loses, repeats and reorders.
//! - [`progress`]: that a stream reaches its end over a network that loses only so much.
//! - [`identity`]: ed25519 identities.
//! - [`socket`]: deterministic fault injection.
//!
//! Each state machine has a view, a plain mathematical state, and its methods are specified by functions
//! from one state to the next. What holds of the library as a whole is stated over those functions, in
//! the proof functions whose names begin with `law_`.

use vstd::prelude::*;

pub use crate::connection::Connection;
pub use crate::error::Error;

pub mod connection;
pub mod dispatcher;
pub mod endpoint;
pub mod error;
pub mod identity;
pub mod link;
pub mod payload;
pub mod progress;
pub mod routes;
pub mod sender;
pub mod socket;
pub mod stream;
pub mod text;
pub mod wire;

verus! {

/// The largest datagram quirk will read. Comfortably below common path MTUs.
pub const MAX_DATAGRAM: usize = 1500;

/// The payload size of each reliable-stream data frame.
pub const STREAM_CHUNK: usize = 1024;

/// How long to wait for an ack before retransmitting a stream frame, in milliseconds.
pub const RETRANSMIT_MILLIS: u64 = 200;

/// Buffer size of the in-process duplex bridging a stream's user half and its engine.
pub const DUPLEX_BUF: usize = 64 * 1024;

/// How many inbound connections may await acceptance before a flooding dialer is shed. Bounded so a peer
/// opening connections faster than the application accepts them cannot grow memory without limit; excess
/// `Hello`s are dropped and the dialer, seeing no `HelloAck`, retries or fails.
pub const ACCEPT_CAPACITY: usize = 128;

/// How many undispatched frames may queue per connection before further arrivals are shed. Stop-and-wait
/// keeps at most one data frame outstanding, so a small window suffices for the honest path; a flooding
/// peer that overruns it simply looks like a lossy link, and the reliability layer recovers.
pub const INBOUND_CAPACITY: usize = 256;

/// How many received datagrams may queue for the application before the oldest are shed. Datagrams are
/// unreliable by definition, so dropping under flood is the contract, not a failure.
pub const DATAGRAM_CAPACITY: usize = 256;

/// How many acks may queue for the send engine before further acks are shed. Acks are cumulative and
/// stop-and-wait needs only the latest, so a dropped ack at most triggers one retransmit.
pub const ACK_CAPACITY: usize = 64;

} // verus!
