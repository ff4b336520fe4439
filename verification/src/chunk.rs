//! The wire format of SUTP chunks.
//!
//! A chunk is a 16-bit type and a 16-bit payload length, both big-endian,
//! followed by the payload and zero bytes that pad it to a multiple of four.

use crate::segment::ValidationError;
use crate::wire;
use vstd::prelude::*;
use vstd::slice::slice_to_vec;

verus! {

/// The size of a `u16` on the wire.
pub const U16_SIZE: usize = 2;

/// The size of a `u32` on the wire.
pub const U32_SIZE: usize = 4;

/// The constant overhead of serializing a single chunk: type and length.
pub const BINARY_OVERHEAD: usize = 4;

/// The largest payload length the 16-bit length field can hold.
pub const MAX_PAYLOAD_LEN: usize = 0xffff;

/// An SUTP chunk.
#[derive(Clone, Debug, PartialEq, Eq, Hash)]
pub enum Chunk {
    /// The chunk is a payload chunk containing data to be transferred.
    Payload(Vec<u8>),
    /// SYN chunk.
    Syn,
    /// FIN chunk.
    Fin,
    /// ABRT chunk.
    Abort,
    /// SACK chunk: the ACK number and the NAK list.
    Sack(u32, Vec<u32>),
    /// Compression negotiation chunk: a list of compression algorithms.
    CompressionNegotiation(Vec<CompressionAlgorithm>),
    /// Security flag chunk; the flag is true if the segment is insecure.
    SecurityFlag(bool),
    /// Unknown chunk with arbitrary data: the type and the payload data.
    Unknown(u16, Vec<u8>),
}

/// The type of compression algorithm to be applied.
#[derive(Clone, Copy, Debug, PartialEq, Eq, Hash, Structural)]
pub enum CompressionAlgorithm {
    Gzip,
    Snappy,
    Unknown(u32),
}

/// The abstract value of a chunk.
pub enum ChunkView {
    Payload(Seq<u8>),
    Syn,
    Fin,
    Abort,
    Sack(u32, Seq<u32>),
    CompressionNegotiation(Seq<CompressionAlgorithm>),
    SecurityFlag(bool),
    Unknown(u16, Seq<u8>),
}

/// The errors reading a chunk or a segment can give.
#[derive(Debug, PartialEq, Eq)]
pub enum ReadError {
    /// The data ended in the middle of a chunk or a header.
    UnexpectedEof,
    /// A SACK chunk's list length is not a multiple of four.
    SackLength,
    /// A compression negotiation chunk's list length is not a multiple of four.
    CompressionListLength,
    /// The CRC-32 sum at the end does not match the data: `got` is the sum
    /// computed over the data, `wanted` the one that was transmitted.
    CrcMismatch { got: u32, wanted: u32 },
    /// The segment was read, but its contents are not valid.
    Invalid(ValidationError),
}

impl View for Chunk {
    type V = ChunkView;

    open spec fn view(&self) -> ChunkView {
        match self {
            Chunk::Payload(d) => ChunkView::Payload(d@),
            Chunk::Syn => ChunkView::Syn,
            Chunk::Fin => ChunkView::Fin,
            Chunk::Abort => ChunkView::Abort,
            Chunk::Sack(a, l) => ChunkView::Sack(*a, l@),
            Chunk::CompressionNegotiation(l) => ChunkView::CompressionNegotiation(l@),
            Chunk::SecurityFlag(b) => ChunkView::SecurityFlag(*b),
            Chunk::Unknown(t, d) => ChunkView::Unknown(*t, d@),
        }
    }
}

// ---------------------------------------------------------------------------
// The wire format, as spec functions.
// ---------------------------------------------------------------------------

/// The padding that brings a payload of `n` bytes to a multiple of four.
pub open spec fn padding(n: nat) -> nat {
    ((4 - (n % 4)) % 4) as nat
}

/// `n` zero bytes.
pub open spec fn zeros(n: nat) -> Seq<u8> {
    Seq::new(n, |i: int| 0u8)
}

/// The number on the wire of a compression algorithm.
pub open spec fn alg_to_u32(a: CompressionAlgorithm) -> u32 {
    match a {
        CompressionAlgorithm::Gzip => 0x1,
        CompressionAlgorithm::Snappy => 0x4,
        CompressionAlgorithm::Unknown(x) => x,
    }
}

/// The compression algorithm of a number on the wire.
pub open spec fn alg_from_u32(x: u32) -> CompressionAlgorithm {
    if x == 0x1 {
        CompressionAlgorithm::Gzip
    } else if x == 0x4 {
        CompressionAlgorithm::Snappy
    } else {
        CompressionAlgorithm::Unknown(x)
    }
}

/// An algorithm that reads back as itself: `Unknown` does not carry the
/// number of a known algorithm.
pub open spec fn alg_is_canonical(a: CompressionAlgorithm) -> bool {
    match a {
        CompressionAlgorithm::Unknown(x) => x != 0x1 && x != 0x4,
        _ => true,
    }
}

/// The big-endian bytes of a list of `u32`s, one after the other.
pub open spec fn u32s_be(list: Seq<u32>) -> Seq<u8> {
    Seq::new(4 * list.len(), |j: int| wire::u32_be_bytes(list[j / 4])[j % 4])
}

/// The `k` big-endian `u32`s at the front of `s`.
pub open spec fn u32s_from(s: Seq<u8>, k: nat) -> Seq<u32> {
    Seq::new(k, |i: int| wire::u32_from_be(s.subrange(4 * i, 4 * i + 4)))
}

/// The type number of a chunk.
pub open spec fn chunk_type(c: ChunkView) -> u16 {
    match c {
        ChunkView::Payload(_) => 0x0,
        ChunkView::Syn => 0x1,
        ChunkView::Fin => 0x2,
        ChunkView::Abort => 0x3,
        ChunkView::Sack(_, _) => 0x4,
        ChunkView::CompressionNegotiation(_) => 0xa0,
        ChunkView::SecurityFlag(_) => 0xfe,
        ChunkView::Unknown(t, _) => t,
    }
}

/// The payload bytes of a chunk, before padding.
pub open spec fn chunk_payload(c: ChunkView) -> Seq<u8> {
    match c {
        ChunkView::Payload(d) => d,
        ChunkView::Syn => Seq::empty(),
        ChunkView::Fin => Seq::empty(),
        ChunkView::Abort => Seq::empty(),
        ChunkView::Sack(a, naks) => wire::u32_be_bytes(a) + u32s_be(naks),
        ChunkView::CompressionNegotiation(l) => u32s_be(l.map_values(|a| alg_to_u32(a))),
        ChunkView::SecurityFlag(b) => seq![if b { 1u8 } else { 0u8 }],
        ChunkView::Unknown(_, d) => d,
    }
}

/// The serialized form of a chunk: type, payload length, payload, padding.
pub open spec fn chunk_bytes(c: ChunkView) -> Seq<u8> {
    let p = chunk_payload(c);
    wire::u16_be_bytes(chunk_type(c)) + wire::u16_be_bytes(p.len() as u16) + p + zeros(padding(p.len()))
}

/// The length of the serialized form of a chunk.
pub open spec fn chunk_len(c: ChunkView) -> nat {
    BINARY_OVERHEAD as nat + chunk_payload(c).len() + padding(chunk_payload(c).len())
}

/// The payload fits the 16-bit length field, so that the chunk can be written.
pub open spec fn is_writable(c: ChunkView) -> bool {
    chunk_payload(c).len() <= MAX_PAYLOAD_LEN
}

/// A chunk that can be written and reads back as itself.
pub open spec fn is_canonical(c: ChunkView) -> bool {
    &&& is_writable(c)
    &&& match c {
        ChunkView::CompressionNegotiation(l) => forall|i: int|
            0 <= i < l.len() ==> alg_is_canonical(#[trigger] l[i]),
        ChunkView::Unknown(t, _) => t != 0x0 && t != 0x1 && t != 0x2 && t != 0x3 && t != 0x4
            && t != 0xa0 && t != 0xfe,
        _ => true,
    }
}

/// The flag chunk of a type number in `1..=3`.
pub open spec fn flag_chunk(ty: u16) -> ChunkView {
    if ty == 0x1 {
        ChunkView::Syn
    } else if ty == 0x2 {
        ChunkView::Fin
    } else {
        ChunkView::Abort
    }
}

/// The number of NAK entries in a SACK chunk with a list of `len` bytes.
pub open spec fn nak_count(len: nat) -> nat {
    if len >= 4 {
        ((len - 4) / 4) as nat
    } else {
        0
    }
}

/// What reading the part of a chunk after its type gives.
pub enum BodyRead {
    Eof,
    SackLength,
    CompressionListLength,
    /// The reader panics here: a SACK chunk with an empty list and fewer
    /// than four bytes behind it, or a security flag chunk whose length
    /// exceeds the data.
    Stuck,
    /// The chunk, the number of payload bytes that decides the padding, and
    /// the number of bytes consumed.
    Done(ChunkView, nat, nat),
}

/// Reads the length and payload of a chunk of type `ty` from `r`.
pub open spec fn spec_read_body(ty: u16, r: Seq<u8>) -> BodyRead {
    let len = wire::u16_from_be(r) as nat;
    let body = r.skip(2);
    if ty == 0x1 || ty == 0x2 || ty == 0x3 {
        if body.len() < len {
            BodyRead::Eof
        } else {
            BodyRead::Done(flag_chunk(ty), len, 2 + len)
        }
    } else if ty == 0x4 {
        if len % 4 != 0 {
            BodyRead::SackLength
        } else if body.len() < len {
            BodyRead::Eof
        } else if body.len() < 4 {
            BodyRead::Stuck
        } else {
            BodyRead::Done(
                ChunkView::Sack(wire::u32_from_be(body), u32s_from(body.skip(4), nak_count(len))),
                len,
                2 + len,
            )
        }
    } else if ty == 0xa0 {
        if len % 4 != 0 {
            BodyRead::CompressionListLength
        } else if body.len() < len {
            BodyRead::Eof
        } else {
            BodyRead::Done(
                ChunkView::CompressionNegotiation(
                    u32s_from(body, len / 4).map_values(|x| alg_from_u32(x)),
                ),
                len,
                2 + len,
            )
        }
    } else if ty == 0xfe {
        if body.len() < 1 {
            BodyRead::Eof
        } else if body.len() < len {
            BodyRead::Stuck
        } else {
            BodyRead::Done(ChunkView::SecurityFlag(body[0] != 0), 1, 2 + len)
        }
    } else {
        if body.len() < len {
            BodyRead::Eof
        } else if ty == 0x0 {
            BodyRead::Done(ChunkView::Payload(body.take(len as int)), len, 2 + len)
        } else {
            BodyRead::Done(ChunkView::Unknown(ty, body.take(len as int)), len, 2 + len)
        }
    }
}

/// What reading a chunk from the front of some data gives.
pub enum ChunkRead {
    /// Fewer than four bytes are left: the end of the chunk list.
    End,
    Eof,
    SackLength,
    CompressionListLength,
    /// The reader panics on this data.
    Stuck,
    /// The chunk and the number of bytes it occupies, padding included.
    Read(ChunkView, nat),
}

/// Reads a chunk from the front of `s`.
pub open spec fn spec_read_chunk(s: Seq<u8>) -> ChunkRead {
    if s.len() < 4 {
        ChunkRead::End
    } else {
        match spec_read_body(wire::u16_from_be(s), s.skip(2)) {
            BodyRead::Eof => ChunkRead::Eof,
            BodyRead::SackLength => ChunkRead::SackLength,
            BodyRead::CompressionListLength => ChunkRead::CompressionListLength,
            BodyRead::Stuck => ChunkRead::Stuck,
            BodyRead::Done(c, n, adv) => if s.len() - 2 - adv < padding(n) {
                ChunkRead::Eof
            } else {
                ChunkRead::Read(c, 2 + adv + padding(n))
            },
        }
    }
}

/// `res` is the executable form of the outcome `spec`.
pub open spec fn read_chunk_result(
    res: Result<Option<(Chunk, usize)>, ReadError>,
    spec: ChunkRead,
) -> bool {
    match spec {
        ChunkRead::End => res matches Ok(None),
        ChunkRead::Eof => res matches Err(ReadError::UnexpectedEof),
        ChunkRead::SackLength => res matches Err(ReadError::SackLength),
        ChunkRead::CompressionListLength => res matches Err(ReadError::CompressionListLength),
        ChunkRead::Stuck => false,
        ChunkRead::Read(c, n) => res matches Ok(Some((ch, m))) && ch@ == c && m == n,
    }
}

/// `res` is the executable form of the outcome `spec` of reading a body.
pub open spec fn read_body_result(
    res: Result<(Chunk, usize, usize), ReadError>,
    spec: BodyRead,
) -> bool {
    match spec {
        BodyRead::Eof => res matches Err(ReadError::UnexpectedEof),
        BodyRead::SackLength => res matches Err(ReadError::SackLength),
        BodyRead::CompressionListLength => res matches Err(ReadError::CompressionListLength),
        BodyRead::Stuck => false,
        BodyRead::Done(c, n, adv) => res matches Ok((ch, m, a)) && ch@ == c && m == n && a
            == adv,
    }
}

// ---------------------------------------------------------------------------
// Lemmas about the wire format.
// ---------------------------------------------------------------------------

proof fn lemma_u32s_be_push(list: Seq<u32>, v: u32)
    ensures
        u32s_be(list.push(v)) == u32s_be(list) + wire::u32_be_bytes(v),
{
    wire::lemma_u32_be_roundtrip(v);
    assert(u32s_be(list.push(v)) =~= u32s_be(list) + wire::u32_be_bytes(v)) by {
        assert forall|j: int| 0 <= j < 4 * list.len() + 4 implies #[trigger] u32s_be(list.push(v))[j] == (
        u32s_be(list) + wire::u32_be_bytes(v))[j] by {
            if j < 4 * list.len() {
                assert(j / 4 < list.len());
            } else {
                assert(j / 4 == list.len());
                assert(j % 4 == j - 4 * list.len());
            }
        }
    }
}

/// Reading back a written list of `u32`s gives the list.
proof fn lemma_u32s_roundtrip(list: Seq<u32>, rest: Seq<u8>)
    ensures
        u32s_from(u32s_be(list) + rest, list.len()) == list,
{
    let s = u32s_be(list) + rest;
    assert forall|i: int| 0 <= i < list.len() implies #[trigger] u32s_from(s, list.len())[i]
        == list[i] by {
        wire::lemma_u32_be_roundtrip(list[i]);
        assert(s.subrange(4 * i, 4 * i + 4) =~= wire::u32_be_bytes(list[i])) by {
            assert forall|k: int| 0 <= k < 4 implies #[trigger] s.subrange(4 * i, 4 * i + 4)[k]
                == wire::u32_be_bytes(list[i])[k] by {
                assert((4 * i + k) / 4 == i);
                assert((4 * i + k) % 4 == k);
            }
        }
    }
    assert(u32s_from(s, list.len()) =~= list);
}

/// Every algorithm's number reads back as the algorithm, and every number is
/// the number of the algorithm it reads as.
pub proof fn lemma_alg_roundtrip(a: CompressionAlgorithm, x: u32)
    ensures
        alg_is_canonical(a) ==> alg_from_u32(alg_to_u32(a)) == a,
        alg_to_u32(alg_from_u32(x)) == x,
        alg_is_canonical(alg_from_u32(x)),
{
}

/// The length of a chunk's serialized form is `chunk_len`, a multiple of four.
pub proof fn lemma_chunk_len(c: ChunkView)
    ensures
        chunk_bytes(c).len() == chunk_len(c),
        chunk_len(c) % 4 == 0,
        chunk_len(c) >= BINARY_OVERHEAD,
{
    wire::lemma_u16_be_roundtrip(chunk_type(c));
    wire::lemma_u16_be_roundtrip(chunk_payload(c).len() as u16);
}

/// Reading the length and payload of a written canonical chunk, followed by
/// any data, gives the chunk back.
#[verifier::rlimit(30)]
proof fn lemma_body_roundtrip(c: ChunkView, tail: Seq<u8>)
    requires
        is_canonical(c),
    ensures
        spec_read_body(
            chunk_type(c),
            wire::u16_be_bytes(chunk_payload(c).len() as u16) + (chunk_payload(c) + tail),
        ) == BodyRead::Done(c, chunk_payload(c).len(), 2 + chunk_payload(c).len()),
{
    let p = chunk_payload(c);
    let r = wire::u16_be_bytes(p.len() as u16) + (p + tail);
    wire::lemma_u16_be_roundtrip(p.len() as u16);
    assert(wire::u16_from_be(r) == p.len());
    assert(r.skip(2) =~= p + tail);
    let body = r.skip(2);
    match c {
        ChunkView::Payload(d) => {
            assert(body.take(d.len() as int) =~= d);
        },
        ChunkView::Unknown(t, d) => {
            assert(body.take(d.len() as int) =~= d);
        },
        ChunkView::Sack(a, naks) => {
            lemma_sack_body(a, naks, tail);
        },
        ChunkView::CompressionNegotiation(list) => {
            lemma_compression_body(list, tail);
        },
        ChunkView::SecurityFlag(b) => {
            assert(body[0] == p[0]);
        },
        _ => {},
    }
}

proof fn lemma_sack_body(a: u32, naks: Seq<u32>, tail: Seq<u8>)
    ensures
        ({
            let body = wire::u32_be_bytes(a) + u32s_be(naks) + tail;
            &&& wire::u32_from_be(body) == a
            &&& u32s_from(body.skip(4), naks.len()) == naks
        }),
{
    let body = wire::u32_be_bytes(a) + u32s_be(naks) + tail;
    wire::lemma_u32_be_roundtrip(a);
    assert(body.skip(4) =~= u32s_be(naks) + tail);
    lemma_u32s_roundtrip(naks, tail);
}

proof fn lemma_compression_body(list: Seq<CompressionAlgorithm>, tail: Seq<u8>)
    requires
        forall|i: int| 0 <= i < list.len() ==> alg_is_canonical(#[trigger] list[i]),
    ensures
        u32s_from(u32s_be(list.map_values(|a| alg_to_u32(a))) + tail, list.len()).map_values(
            |x| alg_from_u32(x),
        ) == list,
{
    let nums = list.map_values(|a| alg_to_u32(a));
    lemma_u32s_roundtrip(nums, tail);
    let parsed = u32s_from(u32s_be(nums) + tail, list.len());
    assert(parsed == nums);
    assert(parsed.map_values(|x| alg_from_u32(x)) =~= list) by {
        assert forall|i: int| 0 <= i < list.len() implies #[trigger] list[i] == alg_from_u32(
            nums[i],
        ) by {
            assert(alg_is_canonical(list[i]));
        }
    }
}

/// Reading a written canonical chunk gives the chunk back and consumes
/// exactly its serialized form, whatever data follows it.
pub proof fn lemma_chunk_roundtrip(c: ChunkView, rest: Seq<u8>)
    requires
        is_canonical(c),
    ensures
        spec_read_chunk(chunk_bytes(c) + rest) == ChunkRead::Read(c, chunk_len(c)),
{
    let p = chunk_payload(c);
    let ty = chunk_type(c);
    let s = chunk_bytes(c) + rest;
    let tail = zeros(padding(p.len())) + rest;
    lemma_chunk_len(c);
    wire::lemma_u16_be_roundtrip(ty);
    let h = wire::u16_be_bytes(ty);
    let l = wire::u16_be_bytes(p.len() as u16);
    assert(s =~= h + (l + (p + tail)));
    assert(s.skip(2) =~= l + (p + tail));
    assert(wire::u16_from_be(s) == ty);
    lemma_body_roundtrip(c, tail);
}

impl CompressionAlgorithm {
    /// Creates a chunk containing this compression algorithm.
    pub fn into_chunk(self) -> (c: Chunk)
        ensures
            c@ == ChunkView::CompressionNegotiation(seq![self]),
    {
        let c = Chunk::CompressionNegotiation(vec![self]);
        assert(c@ == ChunkView::CompressionNegotiation(seq![self])) by {
            if let Chunk::CompressionNegotiation(v) = c {
                assert(v@ =~= seq![self]);
            }
        }
        c
    }

    /// Returns whether the algorithm is known.
    pub fn is_known(self) -> (b: bool)
        ensures
            b == !(self is Unknown),
    {
        match self {
            CompressionAlgorithm::Unknown(_) => false,
            _ => true,
        }
    }

    /// The algorithm that a number on the wire stands for.
    pub fn from_u32(val: u32) -> (a: Self)
        ensures
            a == alg_from_u32(val),
    {
        match val {
            0x1 => CompressionAlgorithm::Gzip,
            0x4 => CompressionAlgorithm::Snappy,
            x => CompressionAlgorithm::Unknown(x),
        }
    }

    /// The number on the wire of this algorithm.
    pub fn to_u32(self) -> (x: u32)
        ensures
            x == alg_to_u32(self),
    {
        match self {
            CompressionAlgorithm::Gzip => 0x1,
            CompressionAlgorithm::Snappy => 0x4,
            CompressionAlgorithm::Unknown(x) => x,
        }
    }
}

impl From<u32> for CompressionAlgorithm {
    /// The algorithm that a number on the wire stands for.
    fn from(val: u32) -> (a: Self) {
        CompressionAlgorithm::from_u32(val)
    }
}

impl vstd::std_specs::convert::FromSpecImpl<u32> for CompressionAlgorithm {
    open spec fn obeys_from_spec() -> bool {
        true
    }

    open spec fn from_spec(v: u32) -> Self {
        alg_from_u32(v)
    }
}

impl From<CompressionAlgorithm> for u32 {
    /// The number on the wire of an algorithm.
    fn from(alg: CompressionAlgorithm) -> (x: Self) {
        alg.to_u32()
    }
}

impl vstd::std_specs::convert::FromSpecImpl<CompressionAlgorithm> for u32 {
    open spec fn obeys_from_spec() -> bool {
        true
    }

    open spec fn from_spec(v: CompressionAlgorithm) -> Self {
        alg_to_u32(v)
    }
}

/// The algorithms this implementation supports, in order of preference.
pub fn supported_compression_algs() -> (algs: Vec<CompressionAlgorithm>)
    ensures
        algs@ == seq![CompressionAlgorithm::Snappy, CompressionAlgorithm::Gzip],
{
    let algs = vec![CompressionAlgorithm::Snappy, CompressionAlgorithm::Gzip];
    assert(algs@ =~= seq![CompressionAlgorithm::Snappy, CompressionAlgorithm::Gzip]);
    algs
}

impl Chunk {
    /// Calculates the length of the chunk in its binary serialized form.
    pub fn binary_len(&self) -> (n: usize)
        requires
            chunk_len(self@) <= usize::MAX,
        ensures
            n == chunk_len(self@),
            n == chunk_bytes(self@).len(),
    {
        proof {
            lemma_chunk_len(self@);
        }
        let payload_size = match self {
            Chunk::Abort | Chunk::Fin | Chunk::Syn => 0,
            Chunk::CompressionNegotiation(algs) => {
                assert(chunk_payload(self@).len() == 4 * algs@.len());
                algs.len() * U32_SIZE
            },
            Chunk::Unknown(_, data) | Chunk::Payload(data) => {
                data.len() + Self::calculate_padding(data.len())
            },
            Chunk::Sack(_, list) => {
                assert(chunk_payload(self@).len() == 4 + 4 * list@.len());
                U32_SIZE + list.len() * U32_SIZE
            },
            Chunk::SecurityFlag(_) => U32_SIZE,
        };
        payload_size + BINARY_OVERHEAD
    }

    /// Returns whether the chunk is an ABRT chunk.
    pub fn is_abrt(&self) -> (b: bool)
        ensures
            b == (self@ is Abort),
    {
        match self {
            Chunk::Abort => true,
            _ => false,
        }
    }

    /// Returns whether the chunk is a compression negotiation chunk.
    pub fn is_compression_negotiation(&self) -> (b: bool)
        ensures
            b == (self@ is CompressionNegotiation),
    {
        match self {
            Chunk::CompressionNegotiation(_) => true,
            _ => false,
        }
    }

    /// Returns whether the chunk is a FIN chunk.
    pub fn is_fin(&self) -> (b: bool)
        ensures
            b == (self@ is Fin),
    {
        match self {
            Chunk::Fin => true,
            _ => false,
        }
    }

    /// Returns whether the chunk is a payload chunk.
    pub fn is_payload(&self) -> (b: bool)
        ensures
            b == (self@ is Payload),
    {
        match self {
            Chunk::Payload(_) => true,
            _ => false,
        }
    }

    /// Returns whether the chunk is a SACK chunk.
    pub fn is_sack(&self) -> (b: bool)
        ensures
            b == (self@ is Sack),
    {
        match self {
            Chunk::Sack(_, _) => true,
            _ => false,
        }
    }

    /// Returns whether the chunk is a security flag chunk.
    pub fn is_security_flag(&self) -> (b: bool)
        ensures
            b == (self@ is SecurityFlag),
    {
        match self {
            Chunk::SecurityFlag(_) => true,
            _ => false,
        }
    }

    /// Returns whether the chunk is a SYN chunk.
    pub fn is_syn(&self) -> (b: bool)
        ensures
            b == (self@ is Syn),
    {
        match self {
            Chunk::Syn => true,
            _ => false,
        }
    }

    /// Returns whether the chunk is an unknown chunk.
    pub fn is_unknown(&self) -> (b: bool)
        ensures
            b == (self@ is Unknown),
    {
        match self {
            Chunk::Unknown(_, _) => true,
            _ => false,
        }
    }

    /// Calculates the required padding for a chunk payload of the given size.
    pub fn calculate_padding(payload_length: usize) -> (p: usize)
        ensures
            p == padding(payload_length as nat),
            p < 4,
    {
        (4 - (payload_length % 4)) % 4
    }

    /// Whether `read_from` would panic on `r`: the data starts with a SACK
    /// chunk with an empty list and fewer than four bytes behind it, or with
    /// a security flag chunk whose length exceeds the data.
    pub fn read_would_panic(r: &[u8]) -> (b: bool)
        ensures
            b == (spec_read_chunk(r@) is Stuck),
    {
        if r.len() < BINARY_OVERHEAD {
            return false;
        }
        let ty = wire::read_u16_be(r);
        let len = wire::read_u16_be(&r[U16_SIZE..r.len()]) as usize;
        let body_len = r.len() - BINARY_OVERHEAD;
        proof {
            assert(r@.skip(2).skip(2).len() == body_len);
        }
        if ty == 0x4 {
            len % 4 == 0 && body_len >= len && body_len < U32_SIZE
        } else if ty == 0xfe {
            body_len >= 1 && body_len < len
        } else {
            false
        }
    }

    /// Reads a chunk from the front of `r`.
    ///
    /// Returns `Ok(None)` when fewer than four bytes are left, which marks the
    /// end of a chunk list. Otherwise returns the chunk and the number of
    /// bytes it occupied, padding included.
    pub fn read_from(r: &[u8]) -> (res: Result<Option<(Chunk, usize)>, ReadError>)
        requires
            !(spec_read_chunk(r@) is Stuck),
        ensures
            read_chunk_result(res, spec_read_chunk(r@)),
            res matches Ok(Some((_, n))) ==> 4 <= n <= r@.len(),
    {
        if r.len() < U32_SIZE {
            return Ok(None);
        }
        let ty = wire::read_u16_be(r);
        let rest = &r[U16_SIZE..r.len()];
        assert(rest@ == r@.skip(2));
        // Type list as specified in the SUTP data format.
        let (variant, bytes_read, advanced) = match ty {
            0x0 => Self::read_payload(rest),
            0x1 => Self::read_syn(rest),
            0x2 => Self::read_fin(rest),
            0x3 => Self::read_abrt(rest),
            0x4 => Self::read_sack(rest),
            0xa0 => Self::read_compression_negotiation(rest),
            0xfe => Self::read_security_flag(rest),
            x => Self::read_unknown(x, rest),
        }?;
        // Discard padding between chunks
        let padding = Self::calculate_padding(bytes_read);
        if rest.len() - advanced < padding {
            return Err(ReadError::UnexpectedEof);
        }
        Ok(Some((variant, U16_SIZE + advanced + padding)))
    }

    /// Writes the chunk to the end of `w`.
    pub fn write_to(&self, w: &mut Vec<u8>)
        requires
            is_writable(self@),
        ensures
            final(w)@ == old(w)@ + chunk_bytes(self@),
    {
        let payload_length = match self {
            Chunk::Abort => Self::write_abrt(w),
            Chunk::CompressionNegotiation(list) => Self::write_compression_negotiation(list, w),
            Chunk::Fin => Self::write_fin(w),
            Chunk::Payload(data) => Self::write_payload(data, w),
            Chunk::Sack(ack_no, nak_list) => Self::write_sack(*ack_no, nak_list, w),
            Chunk::SecurityFlag(is_insecure) => Self::write_security_flag(*is_insecure, w),
            Chunk::Syn => Self::write_syn(w),
            Chunk::Unknown(ty, data) => Self::write_unknown(*ty, data, w),
        };
        // Write padding as necessary
        let padding = Self::calculate_padding(payload_length);
        let ghost before = w@;
        let mut i: usize = 0;
        while i < padding
            invariant
                i <= padding,
                w@ == before + zeros(i as nat),
            decreases padding - i,
        {
            w.push(0u8);
            i = i + 1;
            assert(w@ =~= before + zeros(i as nat));
        }
        assert(w@ =~= old(w)@ + chunk_bytes(self@));
    }
}

// Read implementations
impl Chunk {
    /// Reads an ABRT chunk.
    fn read_abrt(r: &[u8]) -> (res: Result<(Chunk, usize, usize), ReadError>)
        requires
            r@.len() >= 2,
        ensures
            read_body_result(res, spec_read_body(0x3, r@)),
    {
        Self::read_flag_chunk(Chunk::Abort, r)
    }

    /// Reads an SUTP compression negotiation chunk.
    fn read_compression_negotiation(r: &[u8]) -> (res: Result<(Chunk, usize, usize), ReadError>)
        requires
            r@.len() >= 2,
        ensures
            read_body_result(res, spec_read_body(0xa0, r@)),
    {
        let len = wire::read_u16_be(r) as usize;
        // Ensure the list length is valid (i. e. a multiple of the size of a u32)
        if (len % U32_SIZE) != 0 {
            return Err(ReadError::CompressionListLength);
        }
        if r.len() - U16_SIZE < len {
            return Err(ReadError::UnexpectedEof);
        }
        let body = &r[U16_SIZE..r.len()];
        assert(body@ == r@.skip(2));
        let nums = read_u32_list(body, len / U32_SIZE);
        let mut list: Vec<CompressionAlgorithm> = Vec::new();
        let mut i: usize = 0;
        while i < nums.len()
            invariant
                i <= nums@.len(),
                list@ == nums@.take(i as int).map_values(|x| alg_from_u32(x)),
            decreases nums@.len() - i,
        {
            list.push(CompressionAlgorithm::from_u32(nums[i]));
            i = i + 1;
            assert(list@ =~= nums@.take(i as int).map_values(|x| alg_from_u32(x)));
        }
        assert(nums@.take(nums@.len() as int) =~= nums@);
        Ok((Chunk::CompressionNegotiation(list), len, U16_SIZE + len))
    }

    /// Reads a FIN chunk.
    fn read_fin(r: &[u8]) -> (res: Result<(Chunk, usize, usize), ReadError>)
        requires
            r@.len() >= 2,
        ensures
            read_body_result(res, spec_read_body(0x2, r@)),
    {
        Self::read_flag_chunk(Chunk::Fin, r)
    }

    /// Reads a payload chunk: an unknown chunk whose data becomes the payload.
    fn read_payload(r: &[u8]) -> (res: Result<(Chunk, usize, usize), ReadError>)
        requires
            r@.len() >= 2,
        ensures
            read_body_result(res, spec_read_body(0x0, r@)),
    {
        match Self::read_data(r) {
            Ok((data, len, adv)) => Ok((Chunk::Payload(data), len, adv)),
            Err(e) => Err(e),
        }
    }

    /// Reads a SACK chunk.
    fn read_sack(r: &[u8]) -> (res: Result<(Chunk, usize, usize), ReadError>)
        requires
            r@.len() >= 2,
            !(spec_read_body(0x4, r@) is Stuck),
        ensures
            read_body_result(res, spec_read_body(0x4, r@)),
    {
        let len = wire::read_u16_be(r) as usize;
        if (len % U32_SIZE) != 0 {
            return Err(ReadError::SackLength);
        }
        if r.len() - U16_SIZE < len {
            return Err(ReadError::UnexpectedEof);
        }
        let body = &r[U16_SIZE..r.len()];
        assert(body@ == r@.skip(2));
        let ack_no = wire::read_u32_be(body);
        let nak_count = if len >= U32_SIZE {
            (len - U32_SIZE) / U32_SIZE
        } else {
            0
        };
        let after_ack = &body[U32_SIZE..body.len()];
        assert(after_ack@ == body@.skip(4));
        let nak_list = read_u32_list(after_ack, nak_count);
        Ok((Chunk::Sack(ack_no, nak_list), len, U16_SIZE + len))
    }

    /// Reads a security flag chunk.
    fn read_security_flag(r: &[u8]) -> (res: Result<(Chunk, usize, usize), ReadError>)
        requires
            r@.len() >= 2,
            !(spec_read_body(0xfe, r@) is Stuck),
        ensures
            read_body_result(res, spec_read_body(0xfe, r@)),
    {
        // A length other than one is tolerated; one byte is read as the flag.
        let len = wire::read_u16_be(r) as usize;
        if r.len() - U16_SIZE < 1 {
            return Err(ReadError::UnexpectedEof);
        }
        let flag_value = r[U16_SIZE];
        Ok((Chunk::SecurityFlag(flag_value != 0), 1, U16_SIZE + len))
    }

    /// Reads a SYN chunk.
    fn read_syn(r: &[u8]) -> (res: Result<(Chunk, usize, usize), ReadError>)
        requires
            r@.len() >= 2,
        ensures
            read_body_result(res, spec_read_body(0x1, r@)),
    {
        Self::read_flag_chunk(Chunk::Syn, r)
    }

    /// Reads the length and data of a chunk that carries raw data.
    fn read_data(r: &[u8]) -> (res: Result<(Vec<u8>, usize, usize), ReadError>)
        requires
            r@.len() >= 2,
        ensures
            ({
                let len = wire::u16_from_be(r@) as nat;
                let body = r@.skip(2);
                match res {
                    Ok((d, n, adv)) => body.len() >= len && d@ == body.take(len as int) && n
                        == len && adv == 2 + len,
                    Err(e) => body.len() < len && e == ReadError::UnexpectedEof,
                }
            }),
    {
        let len = wire::read_u16_be(r) as usize;
        let body = &r[U16_SIZE..r.len()];
        assert(body@ == r@.skip(2));
        if body.len() < len {
            return Err(ReadError::UnexpectedEof);
        }
        let data = slice_to_vec(&body[0..len]);
        assert(data@ == body@.take(len as int));
        Ok((data, len, U16_SIZE + len))
    }

    /// Reads the data of an unknown chunk of type `ty`.
    fn read_unknown(ty: u16, r: &[u8]) -> (res: Result<(Chunk, usize, usize), ReadError>)
        requires
            r@.len() >= 2,
        ensures
            ty != 0x0 && ty != 0x1 && ty != 0x2 && ty != 0x3 && ty != 0x4 && ty != 0xa0 && ty
                != 0xfe ==> read_body_result(res, spec_read_body(ty, r@)),
    {
        match Self::read_data(r) {
            Ok((data, len, adv)) => Ok((Chunk::Unknown(ty, data), len, adv)),
            Err(e) => Err(e),
        }
    }

    /// Reads a flag (zero-sized) chunk; a nonzero length is tolerated and
    /// its bytes are skipped.
    fn read_flag_chunk(ch: Chunk, r: &[u8]) -> (res: Result<(Chunk, usize, usize), ReadError>)
        requires
            r@.len() >= 2,
        ensures
            ({
                let len = wire::u16_from_be(r@) as nat;
                match res {
                    Ok((c, n, adv)) => r@.len() - 2 >= len && c == ch && n == len && adv == 2
                        + len,
                    Err(e) => r@.len() - 2 < len && e == ReadError::UnexpectedEof,
                }
            }),
    {
        let len = wire::read_u16_be(r) as usize;
        if r.len() - U16_SIZE < len {
            return Err(ReadError::UnexpectedEof);
        }
        Ok((ch, len, U16_SIZE + len))
    }
}

/// Reads `count` big-endian `u32`s from the front of `data`.
fn read_u32_list(data: &[u8], count: usize) -> (list: Vec<u32>)
    requires
        4 * count <= data@.len(),
    ensures
        list@ == u32s_from(data@, count as nat),
{
    let mut list: Vec<u32> = Vec::new();
    let mut i: usize = 0;
    let mut off: usize = 0;
    while i < count
        invariant
            i <= count,
            off == 4 * i,
            4 * count <= data@.len(),
            data@.len() == data.len(),
            list@ == u32s_from(data@, i as nat),
        decreases count - i,
    {
        let v = wire::read_u32_be(&data[off..off + 4]);
        list.push(v);
        i = i + 1;
        off = off + 4;
        assert(list@ =~= u32s_from(data@, i as nat));
    }
    list
}

// Write implementations
impl Chunk {
    /// Writes an ABRT chunk.
    fn write_abrt(w: &mut Vec<u8>) -> (n: usize)
        ensures
            n == 0,
            final(w)@ == old(w)@ + wire::u16_be_bytes(0x3) + wire::u16_be_bytes(0),
    {
        Self::write_chunk_header(0x3, 0, w);
        0
    }

    /// Writes a compression negotiation chunk.
    fn write_compression_negotiation(list: &Vec<CompressionAlgorithm>, w: &mut Vec<u8>) -> (n: usize)
        requires
            4 * list@.len() <= MAX_PAYLOAD_LEN,
        ensures
            n == 4 * list@.len(),
            final(w)@ == old(w)@ + wire::u16_be_bytes(0xa0) + wire::u16_be_bytes(n as u16) + u32s_be(
                list@.map_values(|a| alg_to_u32(a)),
            ),
    {
        let payload_size = list.len() * U32_SIZE;
        Self::write_chunk_header(0xa0, payload_size as u16, w);
        let ghost start = w@;
        let mut i: usize = 0;
        while i < list.len()
            invariant
                i <= list@.len(),
                w@ == start + u32s_be(list@.take(i as int).map_values(|a| alg_to_u32(a))),
            decreases list@.len() - i,
        {
            let alg = list[i];
            wire::put_u32_be(w, alg.to_u32());
            proof {
                let nums = list@.take(i as int).map_values(|a| alg_to_u32(a));
                lemma_u32s_be_push(nums, alg_to_u32(alg));
                assert(list@.take(i + 1).map_values(|a| alg_to_u32(a)) =~= nums.push(
                    alg_to_u32(alg),
                ));
            }
            i = i + 1;
        }
        assert(list@.take(list@.len() as int) =~= list@);
        payload_size
    }

    /// Writes a FIN chunk.
    fn write_fin(w: &mut Vec<u8>) -> (n: usize)
        ensures
            n == 0,
            final(w)@ == old(w)@ + wire::u16_be_bytes(0x2) + wire::u16_be_bytes(0),
    {
        Self::write_chunk_header(0x2, 0, w);
        0
    }

    /// Writes a payload chunk containing the given data.
    fn write_payload(data: &Vec<u8>, w: &mut Vec<u8>) -> (n: usize)
        requires
            data@.len() <= MAX_PAYLOAD_LEN,
        ensures
            n == data@.len(),
            final(w)@ == old(w)@ + wire::u16_be_bytes(0x0) + wire::u16_be_bytes(n as u16) + data@,
    {
        Self::write_chunk_header(0x0, data.len() as u16, w);
        wire::put_bytes(w, data.as_slice());
        data.len()
    }

    /// Writes a SACK chunk containing the given data.
    fn write_sack(ack_no: u32, nak_list: &Vec<u32>, w: &mut Vec<u8>) -> (n: usize)
        requires
            4 + 4 * nak_list@.len() <= MAX_PAYLOAD_LEN,
        ensures
            n == 4 + 4 * nak_list@.len(),
            final(w)@ == old(w)@ + wire::u16_be_bytes(0x4) + wire::u16_be_bytes(n as u16) + (wire::u32_be_bytes(
                ack_no,
            ) + u32s_be(nak_list@)),
    {
        let payload_len = U32_SIZE + nak_list.len() * U32_SIZE;
        Self::write_chunk_header(0x4, payload_len as u16, w);
        let ghost start = w@;
        wire::put_u32_be(w, ack_no);
        let mut i: usize = 0;
        while i < nak_list.len()
            invariant
                i <= nak_list@.len(),
                w@ == start + wire::u32_be_bytes(ack_no) + u32s_be(nak_list@.take(i as int)),
            decreases nak_list@.len() - i,
        {
            let nak_no = nak_list[i];
            wire::put_u32_be(w, nak_no);
            proof {
                lemma_u32s_be_push(nak_list@.take(i as int), nak_no);
                assert(nak_list@.take(i + 1) =~= nak_list@.take(i as int).push(nak_no));
            }
            i = i + 1;
        }
        assert(nak_list@.take(nak_list@.len() as int) =~= nak_list@);
        assert(w@ =~= start + (wire::u32_be_bytes(ack_no) + u32s_be(nak_list@)));
        payload_len
    }

    /// Writes a security flag chunk.
    fn write_security_flag(is_insecure: bool, w: &mut Vec<u8>) -> (n: usize)
        ensures
            n == 1,
            final(w)@ == old(w)@ + wire::u16_be_bytes(0xfe) + wire::u16_be_bytes(1) + seq![
                if is_insecure {
                    1u8
                } else {
                    0u8
                },
            ],
    {
        Self::write_chunk_header(0xfe, 1, w);
        w.push(
            if is_insecure {
                1
            } else {
                0
            },
        );
        1
    }

    /// Writes a SYN chunk.
    fn write_syn(w: &mut Vec<u8>) -> (n: usize)
        ensures
            n == 0,
            final(w)@ == old(w)@ + wire::u16_be_bytes(0x1) + wire::u16_be_bytes(0),
    {
        Self::write_chunk_header(0x1, 0, w);
        0
    }

    /// Writes an unknown chunk of the given type.
    fn write_unknown(ty: u16, data: &Vec<u8>, w: &mut Vec<u8>) -> (n: usize)
        requires
            data@.len() <= MAX_PAYLOAD_LEN,
        ensures
            n == data@.len(),
            final(w)@ == old(w)@ + wire::u16_be_bytes(ty) + wire::u16_be_bytes(n as u16) + data@,
    {
        Self::write_chunk_header(ty, data.len() as u16, w);
        wire::put_bytes(w, data.as_slice());
        data.len()
    }

    /// Writes chunk type and payload length.
    fn write_chunk_header(ty: u16, len: u16, w: &mut Vec<u8>)
        ensures
            final(w)@ == old(w)@ + wire::u16_be_bytes(ty) + wire::u16_be_bytes(len),
    {
        wire::put_u16_be(w, ty);
        wire::put_u16_be(w, len);
    }
}

} // verus!
