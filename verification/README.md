# sutp

The Simple UDP Transport Protocol: a reliable, in-order byte stream over UDP
datagrams. The library in `src/` is verified with Verus; `app/` runs it on the
tokio stack as an echo server.

## Layout

- `src/wire.rs`: big-endian integers and the CRC-32 sum (byteorder, flate2).
- `src/chunk.rs`: the chunk wire format; reading and writing, proved inverse.
- `src/segment.rs`: segments (header, chunks, CRC-32), ACK/NAK queries,
  validation and compression negotiation.
- `src/window.rs`: the sliding window that brings received segments into order.
- `src/stream.rs`: the protocol automaton of an established connection, with
  the laws of in-order delivery, acknowledgement, abort and shutdown.
- `src/handshake.rs`: the decisions of the three-way handshake.
- `src/driver.rs`: the routing decisions of the socket multiplexer.
- `src/codec.rs`: framing of segments in a buffer, and a counting reader.
- `app/`: sockets, channels, timers and futures around the library, and the
  echo server's `main`.
