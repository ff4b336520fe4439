//! The decisions of the background processor that shares one UDP socket
//! among the connections of a listener or a single connecting stream.
//!
//! The socket, the channels and the table of connections belong to the
//! caller; it asks here where a received segment goes and whether there is
//! anything left to serve.

use crate::chunk::ReadError;
use crate::segment;
use crate::segment::{Segment, SegmentView};
use vstd::prelude::*;

verus! {

/// The size of the queue for new connections.
pub const NEW_CONN_QUEUE_SIZE: usize = 8;

/// The size of a connection's queue of newly arrived segments.
pub const STREAM_SEGMENT_QUEUE_SIZE: usize = 8;

/// Where a received segment goes.
#[derive(Copy, Clone, Debug, PartialEq, Eq, Structural)]
pub enum Route {
    /// To the connection of the address it came from.
    Forward,
    /// It opens a new connection, to be handed to the listener.
    NewConnection,
    /// Nowhere: it is invalid, or not the first segment of a connection, or
    /// no new connections are accepted.
    Discard,
}

/// Where the reading result `segment` from an address goes: to the
/// connection of that address, if there is one; else, while new
/// connections are accepted, a valid first segment of a connection (SYN,
/// without SACK) opens one; anything else is discarded.
pub open spec fn spec_route(has_connection: bool, accepting: bool, segment: Result<SegmentView, ()>) -> Route {
    if has_connection {
        Route::Forward
    } else if accepting && (segment matches Ok(seg) && segment::contains_syn(seg.chunks)
        && !segment::contains_sack(seg.chunks)) {
        Route::NewConnection
    } else {
        Route::Discard
    }
}

/// Decides where the reading result `segment` goes. `has_connection` tells
/// whether a connection to its address exists, `accepting` whether new
/// connections can be handed to the listener now.
pub fn route_segment(has_connection: bool, accepting: bool, segment: &Result<Segment, ReadError>) -> (r: Route)
    ensures
        r == spec_route(
            has_connection,
            accepting,
            match *segment {
                Ok(seg) => Ok(seg@),
                Err(_) => Err(()),
            },
        ),
{
    if has_connection {
        return Route::Forward;
    }
    if !accepting {
        return Route::Discard;
    }
    match segment {
        Ok(seg) => if seg.is_syn1() {
            Route::NewConnection
        } else {
            Route::Discard
        },
        Err(_) => Route::Discard,
    }
}

/// Routing laws. A segment from an address with a connection always goes
/// to that connection. Without one, a segment opens a new connection only
/// while new connections are accepted, and only if it holds a SYN chunk and
/// no SACK chunk: an answer in a handshake (SYN and SACK), a plain data or
/// ACK segment, and a read error never open one. Every SYN segment without
/// SACK does open one while connections are accepted, and so the first
/// segment of every handshake does.
pub proof fn lemma_route(has_connection: bool, accepting: bool, segment: Result<SegmentView, ()>)
    ensures
        has_connection ==> spec_route(has_connection, accepting, segment) == Route::Forward,
        spec_route(has_connection, accepting, segment) == Route::NewConnection ==> {
            &&& !has_connection
            &&& accepting
            &&& segment is Ok
            &&& segment::contains_syn(segment->Ok_0.chunks)
            &&& !segment::contains_sack(segment->Ok_0.chunks)
        },
        segment matches Ok(seg) && segment::contains_sack(seg.chunks) ==> spec_route(
            has_connection,
            accepting,
            segment,
        ) != Route::NewConnection,
        !has_connection && accepting && (segment matches Ok(seg) && segment::contains_syn(
            seg.chunks,
        ) && !segment::contains_sack(seg.chunks)) ==> spec_route(has_connection, accepting, segment)
            == Route::NewConnection,
        !has_connection && !accepting ==> spec_route(has_connection, accepting, segment)
            == Route::Discard,
{
}

/// The first segment of a handshake opens a connection at a listener that
/// accepts; the answer to it, which ACKs it, never does.
pub proof fn lemma_route_handshake(
    seq_no: u32,
    answer_seq_no: u32,
    alg: Option<crate::chunk::CompressionAlgorithm>,
)
    ensures
        spec_route(false, true, Ok(crate::handshake::syn1_segment(seq_no))) == Route::NewConnection,
        spec_route(false, true, Ok(crate::handshake::syn2_segment(answer_seq_no, seq_no, alg)))
            == Route::Discard,
{
    let first = crate::handshake::syn1_segment(seq_no);
    assert(segment::is_syn(first.chunks[0]));
    if segment::contains_sack(first.chunks) {
        let i = choose|i: int| 0 <= i < first.chunks.len() && segment::is_sack(#[trigger] first.chunks[i]);
        assert(i == 0 || i == 1);
    }
    let answer = crate::handshake::syn2_segment(answer_seq_no, seq_no, alg);
    assert(segment::is_sack(answer.chunks[1]));
}

/// Whether the processor has nothing left to serve: the listener is gone
/// (or there never was one), no new connection is being handed over, and
/// no connection is left.
pub fn should_quit(accepting: bool, handing_over: bool, connections: usize) -> (q: bool)
    ensures
        q == (!accepting && !handing_over && connections == 0),
{
    !accepting && !handing_over && connections == 0
}

} // verus!
