//! The Simple UDP Transport Protocol (SUTP): the wire format of chunks and
//! segments, the sliding window that brings received segments into order,
//! the protocol automaton of a connection, and the decisions of the
//! handshake and of the socket multiplexer, each with a machine-checked
//! contract. Sockets, channels and timers are left to the caller.

pub mod wire;
pub mod window;
pub mod chunk;
pub mod segment;
pub mod stream;
pub mod codec;
pub mod handshake;
pub mod driver;


