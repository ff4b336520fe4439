//! The decisions of the three-way handshake.
//!
//! The connecting side sends a SYN segment offering its compression
//! algorithms (`Connect`); the accepting side answers with a SYN segment that
//! ACKs it (`Accept`); the connecting side's stream then ACKs that answer,
//! and the accepting side checks this third segment. Sending, waiting and
//! timeouts are left to the caller, who reports what arrived.

use crate::chunk::{Chunk, ChunkView, CompressionAlgorithm, ReadError};
use crate::chunk;
use crate::segment::{Segment, SegmentBuilder, SegmentView};
use crate::segment;
use crate::stream;
use crate::stream::next_seq_no;
use vstd::prelude::*;

verus! {

/// The window size announced in the handshake segments.
pub const HANDSHAKE_WINDOW_SIZE: u32 = 16384;

/// The parameters of an established connection, as a handshake ends with
/// them.
#[derive(Copy, Clone, Debug, PartialEq, Eq, Structural)]
pub struct Established {
    pub local_seq_no: u32,
    /// The highest consecutively received remote sequence number.
    pub remote_seq_no: u32,
    pub remote_window_size: u32,
    pub compression_algorithm: Option<CompressionAlgorithm>,
}

/// What a handshake does after a response arrived.
#[derive(Copy, Clone, Debug, PartialEq, Eq, Structural)]
pub enum HandshakeStep {
    /// Send the handshake segment again and wait for the next response.
    Resend,
    /// The connection is established.
    Established(Established),
    /// The connection setup fails with the read error that arrived.
    Failed,
    /// The answer is no handshake answer: the abort segment is to be sent,
    /// and the connection setup fails.
    Abort,
}

/// Draws a random initial sequence number.
///
/// Calls `rand::random::<u32>()`; nothing is claimed of the number drawn.
#[verifier::external_body]
fn random_seq_no() -> u32 {
    rand::random::<u32>()
}

/// The first segment of a connection: SYN, offering the supported
/// compression algorithms.
pub open spec fn syn1_segment(seq_no: u32) -> SegmentView {
    SegmentView {
        chunks: seq![
            ChunkView::Syn,
            ChunkView::CompressionNegotiation(
                seq![CompressionAlgorithm::Snappy, CompressionAlgorithm::Gzip],
            ),
        ],
        seq_no,
        window_size: HANDSHAKE_WINDOW_SIZE,
    }
}

/// The answer to the first segment: SYN, ACKing it, and naming the
/// selected compression algorithm, if any.
pub open spec fn syn2_segment(
    local_seq_no: u32,
    remote_seq_no: u32,
    alg: Option<CompressionAlgorithm>,
) -> SegmentView {
    SegmentView {
        chunks: seq![ChunkView::Syn, ChunkView::Sack(remote_seq_no, Seq::empty())] + match alg {
            Some(a) => seq![ChunkView::CompressionNegotiation(seq![a])],
            None => Seq::empty(),
        },
        seq_no: local_seq_no,
        window_size: HANDSHAKE_WINDOW_SIZE,
    }
}

/// The segment that aborts a connection: a single ABRT chunk.
pub open spec fn abrt_segment(seq_no: u32, window: u32) -> SegmentView {
    SegmentView { chunks: seq![ChunkView::Abort], seq_no, window_size: window }
}

/// The connecting side's decision on a response. An answer must hold a SYN
/// and a SACK chunk, else the setup is aborted; an answer that ACKs the
/// first segment establishes the connection, unless a compression
/// negotiation chunk in it names more than one algorithm or one that was
/// not offered, which aborts the setup; an answer that does not ACK the
/// first segment makes it send that segment again, and so does a read
/// error.
pub open spec fn spec_connect_step(local_seq_no: u32, response: Result<SegmentView, ()>) -> HandshakeStep {
    match response {
        Ok(seg) => if !(segment::contains_syn(seg.chunks) && segment::contains_sack(seg.chunks)) {
            HandshakeStep::Abort
        } else if segment::spec_ack(seg.chunks, local_seq_no) == Some(true) {
            if !segment::valid_compression_answer(seg.chunks) {
                HandshakeStep::Abort
            } else {
                HandshakeStep::Established(
                    Established {
                        local_seq_no,
                        remote_seq_no: seg.seq_no,
                        remote_window_size: seg.window_size,
                        compression_algorithm: segment::spec_select_compression_alg(seg.chunks),
                    },
                )
            }
        } else {
            HandshakeStep::Resend
        },
        Err(()) => HandshakeStep::Resend,
    }
}

/// The abstract form of a received segment or read error.
pub open spec fn response_view(r: Result<Segment, ReadError>) -> Result<SegmentView, ()> {
    match r {
        Ok(seg) => Ok(seg@),
        Err(_) => Err(()),
    }
}

/// The connecting side of the handshake.
#[derive(Debug)]
pub struct Connect {
    local_seq_no: u32,
    init_segment_buf: Vec<u8>,
}

impl Connect {
    /// The local sequence number, the one of the first segment.
    pub closed spec fn spec_local_seq_no(&self) -> u32 {
        self.local_seq_no
    }

    /// The first segment in serialized form.
    pub closed spec fn spec_init_segment(&self) -> Seq<u8> {
        self.init_segment_buf@
    }

    /// Starts a handshake with a random initial sequence number.
    pub fn new() -> (c: Self)
        ensures
            c.spec_init_segment() == segment::segment_bytes(syn1_segment(c.spec_local_seq_no())),
    {
        Self::with_seq_no(random_seq_no())
    }

    /// Starts a handshake with the initial sequence number `seq_no`.
    pub fn with_seq_no(seq_no: u32) -> (c: Self)
        ensures
            c.spec_local_seq_no() == seq_no,
            c.spec_init_segment() == segment::segment_bytes(syn1_segment(seq_no)),
    {
        let comp_algs = chunk::supported_compression_algs();
        let segment = SegmentBuilder::new().seq_no(seq_no).window_size(HANDSHAKE_WINDOW_SIZE).with_chunk(
            Chunk::Syn,
        ).with_chunk(Chunk::CompressionNegotiation(comp_algs)).build();
        assert(segment@.chunks =~= syn1_segment(seq_no).chunks);
        assert(segment::is_writable(segment@)) by {
            assert(chunk::is_writable(segment@.chunks[0]));
            assert(chunk::is_writable(segment@.chunks[1]));
        }
        Connect { local_seq_no: seq_no, init_segment_buf: segment.to_vec() }
    }

    /// The local sequence number, the one of the first segment.
    pub fn local_seq_no(&self) -> (n: u32)
        ensures
            n == self.spec_local_seq_no(),
    {
        self.local_seq_no
    }

    /// The first segment in serialized form, to be sent (again).
    pub fn init_segment_buf(&self) -> (b: &[u8])
        ensures
            b@ == self.spec_init_segment(),
    {
        self.init_segment_buf.as_slice()
    }

    /// The segment that aborts the setup, in serialized form: an ABRT chunk
    /// under the sequence number after the first segment's.
    pub fn abort_segment(&self) -> (b: Vec<u8>)
        ensures
            b@ == segment::segment_bytes(
                abrt_segment(next_seq_no(self.spec_local_seq_no()), HANDSHAKE_WINDOW_SIZE),
            ),
    {
        let segment = SegmentBuilder::new().seq_no(self.local_seq_no.wrapping_add(1)).window_size(
            HANDSHAKE_WINDOW_SIZE,
        ).with_chunk(Chunk::Abort).build();
        assert(segment@.chunks =~= seq![ChunkView::Abort]);
        assert(segment::is_writable(segment@)) by {
            assert(chunk::is_writable(segment@.chunks[0]));
        }
        segment.to_vec()
    }

    /// Decides on a response that arrived while waiting for the answer to
    /// the first segment.
    pub fn on_response(&self, response: &Result<Segment, ReadError>) -> (step: HandshakeStep)
        ensures
            step == spec_connect_step(self.spec_local_seq_no(), response_view(*response)),
    {
        match response {
            Ok(segment) => {
                if !(segment.contains_syn() && segment.contains_sack()) {
                    HandshakeStep::Abort
                } else if segment.is_syn2_and_acks(self.local_seq_no) {
                    if !segment.has_valid_compression_answer() {
                        return HandshakeStep::Abort;
                    }
                    HandshakeStep::Established(
                        Established {
                            local_seq_no: self.local_seq_no,
                            remote_seq_no: segment.seq_no,
                            remote_window_size: segment.window_size,
                            compression_algorithm: segment.select_compression_alg(),
                        },
                    )
                } else {
                    HandshakeStep::Resend
                }
            },
            Err(_) => HandshakeStep::Resend,
        }
    }
}

/// The abstract state of the accepting side.
pub struct AcceptView {
    pub local_seq_no: u32,
    pub remote_seq_no: u32,
    pub compression_algorithm: Option<CompressionAlgorithm>,
    /// The answer to the first segment, in serialized form.
    pub ack_segment: Seq<u8>,
}

/// The accepting side's decision on the third segment of the handshake,
/// and the remote sequence number it expects after it: the segment must
/// follow the first one and must not NAK the answer, else the answer is
/// sent again; a read error fails the setup.
pub open spec fn spec_accept_step(a: AcceptView, response: Result<SegmentView, ()>) -> (AcceptView, HandshakeStep) {
    match response {
        Err(()) => (a, HandshakeStep::Failed),
        Ok(seg) => if seg.seq_no != next_seq_no(a.remote_seq_no) {
            (AcceptView { remote_seq_no: seg.seq_no, ..a }, HandshakeStep::Resend)
        } else if segment::spec_ack(seg.chunks, a.local_seq_no) == Some(false) {
            (a, HandshakeStep::Resend)
        } else {
            (
                a,
                HandshakeStep::Established(
                    Established {
                        local_seq_no: a.local_seq_no,
                        remote_seq_no: seg.seq_no,
                        remote_window_size: seg.window_size,
                        compression_algorithm: a.compression_algorithm,
                    },
                ),
            )
        },
    }
}

/// The accepting side of the handshake.
#[derive(Debug)]
pub struct Accept {
    local_seq_no: u32,
    remote_seq_no: u32,
    compression_algorithm: Option<CompressionAlgorithm>,
    ack_segment: Vec<u8>,
}

impl View for Accept {
    type V = AcceptView;

    closed spec fn view(&self) -> AcceptView {
        AcceptView {
            local_seq_no: self.local_seq_no,
            remote_seq_no: self.remote_seq_no,
            compression_algorithm: self.compression_algorithm,
            ack_segment: self.ack_segment@,
        }
    }
}

/// The accepting side right after the first segment `first` arrived.
pub open spec fn accept_start(local_seq_no: u32, first: SegmentView) -> AcceptView {
    let alg = segment::spec_select_compression_alg(first.chunks);
    AcceptView {
        local_seq_no,
        remote_seq_no: first.seq_no,
        compression_algorithm: alg,
        ack_segment: segment::segment_bytes(syn2_segment(local_seq_no, first.seq_no, alg)),
    }
}

/// The connecting side's decisions. It establishes the connection only on
/// an answer that holds a SYN and a SACK chunk, ACKs its sequence number
/// and names a valid compression algorithm, if any; the connection then has
/// the answer's sequence number and window and the algorithm named. An
/// answer that holds SYN and SACK but does not ACK the sequence number (it
/// NAKs it, or ACKs only lower ones) makes it send the first segment again,
/// and so does a read error; an answer without SYN or without SACK aborts
/// the setup.
pub proof fn lemma_connect_step(local_seq_no: u32, response: Result<SegmentView, ()>)
    ensures
        spec_connect_step(local_seq_no, response) is Established ==> (response matches Ok(seg) && {
            &&& segment::contains_syn(seg.chunks)
            &&& segment::contains_sack(seg.chunks)
            &&& segment::spec_ack(seg.chunks, local_seq_no) == Some(true)
            &&& segment::valid_compression_answer(seg.chunks)
        }),
        spec_connect_step(local_seq_no, response) matches HandshakeStep::Established(e) ==> {
            &&& e.local_seq_no == local_seq_no
            &&& e.remote_seq_no == response->Ok_0.seq_no
            &&& e.remote_window_size == response->Ok_0.window_size
            &&& e.compression_algorithm == segment::spec_select_compression_alg(
                response->Ok_0.chunks,
            )
        },
        (response matches Ok(seg) && segment::contains_syn(seg.chunks) && segment::contains_sack(
            seg.chunks,
        ) && segment::spec_ack(seg.chunks, local_seq_no) != Some(true)) ==> spec_connect_step(
            local_seq_no,
            response,
        ) == HandshakeStep::Resend,
        response is Err ==> spec_connect_step(local_seq_no, response) == HandshakeStep::Resend,
        (response matches Ok(seg) && !(segment::contains_syn(seg.chunks) && segment::contains_sack(
            seg.chunks,
        ))) ==> spec_connect_step(local_seq_no, response) == HandshakeStep::Abort,
{
}

/// The accepting side's decisions on the third segment. A segment with the
/// sequence number after the first one that does not NAK the answer
/// establishes the connection, whether or not it ACKs the answer, with the
/// segment's sequence number and window and the algorithm chosen before; a
/// resend on a segment with that number happens only when it NAKs the
/// answer. A segment with another number makes it resend and expect the
/// successor of that number; a read error fails the setup. Nothing else of
/// the accepting side changes.
pub proof fn lemma_accept_step(a: AcceptView, response: Result<SegmentView, ()>)
    ensures
        response is Err ==> spec_accept_step(a, response) == (a, HandshakeStep::Failed),
        (response matches Ok(seg) && seg.seq_no == next_seq_no(a.remote_seq_no)
            && segment::spec_ack(seg.chunks, a.local_seq_no) != Some(false)) ==> spec_accept_step(
            a,
            response,
        ) == (
            a,
            HandshakeStep::Established(
                Established {
                    local_seq_no: a.local_seq_no,
                    remote_seq_no: response->Ok_0.seq_no,
                    remote_window_size: response->Ok_0.window_size,
                    compression_algorithm: a.compression_algorithm,
                },
            ),
        ),
        (response matches Ok(seg) && seg.seq_no == next_seq_no(a.remote_seq_no)
            && spec_accept_step(a, response).1 == HandshakeStep::Resend) ==> segment::spec_ack(
            response->Ok_0.chunks,
            a.local_seq_no,
        ) == Some(false),
        (response matches Ok(seg) && seg.seq_no != next_seq_no(a.remote_seq_no)) ==> spec_accept_step(
            a,
            response,
        ) == (AcceptView { remote_seq_no: response->Ok_0.seq_no, ..a }, HandshakeStep::Resend),
        spec_accept_step(a, response).0.local_seq_no == a.local_seq_no,
        spec_accept_step(a, response).0.compression_algorithm == a.compression_algorithm,
        spec_accept_step(a, response).0.ack_segment == a.ack_segment,
{
}

/// Both sides of a handshake agree on the connection. The accepting side
/// answers the first segment of the connecting side with its own sequence
/// number and Snappy compression, the first algorithm offered; that answer
/// establishes the connecting side with the accepting side's sequence
/// number, the announced window and Snappy; and the SACK segment that the
/// connecting side's stream sends next, ACKing the answer without NAKs,
/// establishes the accepting side with the same algorithm.
pub proof fn lemma_handshake_agreement(connect_seq_no: u32, accept_seq_no: u32, window: u32)
    ensures
        ({
            let a = accept_start(accept_seq_no, syn1_segment(connect_seq_no));
            let answer = syn2_segment(accept_seq_no, connect_seq_no, a.compression_algorithm);
            let third = stream::ack_segment(
                next_seq_no(connect_seq_no),
                window,
                accept_seq_no,
                Seq::empty(),
            );
            &&& a.remote_seq_no == connect_seq_no
            &&& a.compression_algorithm == Some(CompressionAlgorithm::Snappy)
            &&& spec_connect_step(connect_seq_no, Ok(answer)) == HandshakeStep::Established(
                Established {
                    local_seq_no: connect_seq_no,
                    remote_seq_no: accept_seq_no,
                    remote_window_size: HANDSHAKE_WINDOW_SIZE,
                    compression_algorithm: Some(CompressionAlgorithm::Snappy),
                },
            )
            &&& spec_accept_step(a, Ok(third)) == (
                a,
                HandshakeStep::Established(
                    Established {
                        local_seq_no: accept_seq_no,
                        remote_seq_no: next_seq_no(connect_seq_no),
                        remote_window_size: window,
                        compression_algorithm: Some(CompressionAlgorithm::Snappy),
                    },
                ),
            )
        }),
{
    let first = syn1_segment(connect_seq_no);
    let offer = seq![CompressionAlgorithm::Snappy, CompressionAlgorithm::Gzip];
    reveal_with_fuel(segment::first_known, 2);
    reveal_with_fuel(segment::spec_select_compression_alg, 2);
    assert(segment::spec_select_compression_alg(first.chunks) == Some(CompressionAlgorithm::Snappy)) by {
        assert(first.chunks.drop_first() =~= seq![ChunkView::CompressionNegotiation(offer)]);
        assert(segment::first_known(offer) == Some(CompressionAlgorithm::Snappy));
    }
    let a = accept_start(accept_seq_no, first);
    let answer = syn2_segment(accept_seq_no, connect_seq_no, a.compression_algorithm);
    let c = answer.chunks;
    let snappy = seq![CompressionAlgorithm::Snappy];
    assert(c =~= seq![
        ChunkView::Syn,
        ChunkView::Sack(connect_seq_no, Seq::empty()),
        ChunkView::CompressionNegotiation(snappy),
    ]);
    assert(segment::contains_syn(c)) by {
        assert(segment::is_syn(c[0]));
    }
    assert(segment::contains_sack(c)) by {
        assert(segment::is_sack(c[1]));
    }
    assert(segment::spec_ack(c, connect_seq_no) == Some(true)) by {
        reveal_with_fuel(segment::spec_ack, 2);
        assert(c.drop_first()[0] == ChunkView::Sack(connect_seq_no, Seq::empty()));
        assert(!Seq::<u32>::empty().contains(connect_seq_no));
    }
    assert(segment::spec_select_compression_alg(c) == Some(CompressionAlgorithm::Snappy)) by {
        reveal_with_fuel(segment::spec_select_compression_alg, 3);
        assert(c.drop_first().drop_first() =~= seq![ChunkView::CompressionNegotiation(snappy)]);
        assert(segment::first_known(snappy) == Some(CompressionAlgorithm::Snappy));
    }
    let third = stream::ack_segment(next_seq_no(connect_seq_no), window, accept_seq_no, Seq::empty());
    segment::lemma_ack_single_sack(accept_seq_no, Seq::empty(), accept_seq_no);
    assert(!Seq::<u32>::empty().contains(accept_seq_no));
}

impl Accept {
    /// Answers the first segment of a connection, with a random local
    /// sequence number.
    pub fn from_syn(first: &Segment) -> (a: Self)
        ensures
            a@ == accept_start(a@.local_seq_no, first@),
    {
        Self::with_seq_no(random_seq_no(), first)
    }

    /// Answers the first segment of a connection, with the local sequence
    /// number `local_seq_no`.
    pub fn with_seq_no(local_seq_no: u32, first: &Segment) -> (a: Self)
        ensures
            a@ == accept_start(local_seq_no, first@),
    {
        let remote_seq_no = first.seq_no;
        let compression_algorithm = first.select_compression_alg();
        let naks: Vec<u32> = Vec::new();
        assert(naks@ =~= Seq::<u32>::empty());
        let mut builder = SegmentBuilder::new().seq_no(local_seq_no).window_size(
            HANDSHAKE_WINDOW_SIZE,
        ).with_chunk(Chunk::Syn).with_chunk(Chunk::Sack(remote_seq_no, naks));
        if let Some(alg) = compression_algorithm {
            builder = builder.with_chunk(alg.into_chunk());
        }
        let segment = builder.build();
        assert(segment@.chunks =~= syn2_segment(local_seq_no, remote_seq_no, compression_algorithm).chunks);
        assert(segment::is_writable(segment@)) by {
            assert(chunk::is_writable(segment@.chunks[0]));
            assert(chunk::is_writable(segment@.chunks[1]));
            if compression_algorithm is Some {
                assert(chunk::is_writable(segment@.chunks[2]));
            }
        }
        Accept {
            local_seq_no,
            remote_seq_no,
            compression_algorithm,
            ack_segment: segment.to_vec(),
        }
    }

    /// The answer to the first segment, to be sent (again).
    pub fn ack_segment(&self) -> (b: &[u8])
        ensures
            b@ == self@.ack_segment,
    {
        self.ack_segment.as_slice()
    }

    /// The local sequence number.
    pub fn local_seq_no(&self) -> (n: u32)
        ensures
            n == self@.local_seq_no,
    {
        self.local_seq_no
    }

    /// Decides on a response that arrived while waiting for the third
    /// segment.
    pub fn on_response(&mut self, response: &Result<Segment, ReadError>) -> (step: HandshakeStep)
        ensures
            (final(self)@, step) == spec_accept_step(old(self)@, response_view(*response)),
    {
        match response {
            Err(_) => HandshakeStep::Failed,
            Ok(segment) => {
                if segment.seq_no != self.remote_seq_no.wrapping_add(1) {
                    self.remote_seq_no = segment.seq_no;
                    HandshakeStep::Resend
                } else if segment.ack(self.local_seq_no).is_nak() {
                    HandshakeStep::Resend
                } else {
                    HandshakeStep::Established(
                        Established {
                            local_seq_no: self.local_seq_no,
                            remote_seq_no: segment.seq_no,
                            remote_window_size: segment.window_size,
                            compression_algorithm: self.compression_algorithm,
                        },
                    )
                }
            },
        }
    }
}

} // verus!
