# quirk

A QUIC-style transport over UDP, written from scratch and verified with Verus: connections, reliable
in-order streams, and unreliable datagrams. It is not interoperable with standard QUIC.

- `src/` is the library: the wire codec, the handshake and demultiplexer, the routing table, the send and
  receive engines, stream reassembly, identities and fault injection, as state machines with contracts.
  The proof functions named `law_...` state what holds of the library as a whole, such as that a stream
  over a lossy, repeating, reordering network is read exactly as it was written, and to its end if only
  finitely many datagrams are lost.
- `app/` is the transport around it: tokio sockets, tasks, queues and timers that carry out what the
  library decides.
- `tests/` run the library on concrete values.

What is trusted rather than proved is the behaviour of a few functions of `bytes`, `ed25519-dalek`, `rand`
and the standard library; each stands behind one small item that says what is assumed of it (`src/payload.rs`,
`src/identity.rs`, `src/text.rs`, `src/error.rs`).

Not yet: a Noise handshake (identity is nominal today), multiple streams per connection, connection ids,
congestion control, and NAT traversal.
