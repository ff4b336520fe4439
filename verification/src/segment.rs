//! The wire format and the checks of SUTP segments.
//!
//! A segment is a sequence number and a window size, both big-endian `u32`s,
//! followed by its chunks and the CRC-32 sum of everything before it.

use crate::chunk;
use crate::chunk::{Chunk, ChunkView, CompressionAlgorithm, ReadError};
use crate::wire;
use vstd::prelude::*;

verus! {

/// The overhead in bytes of serializing a single segment, besides the size
/// of the chunks: a 64 bit header and a 32 bit CRC.
pub const BINARY_OVERHEAD: usize = 12;

/// Whether a segment is ACKed or NAKed or whether the status is unknown.
#[derive(Clone, Copy, Debug, Hash, Eq, PartialEq, Structural)]
pub struct AckNak(pub Option<bool>);

/// An SUTP segment.
#[derive(Clone, Debug, Default, Hash, Eq, PartialEq)]
pub struct Segment {
    pub chunks: Vec<Chunk>,
    pub seq_no: u32,
    pub window_size: u32,
}

/// The abstract value of a segment.
pub struct SegmentView {
    pub chunks: Seq<ChunkView>,
    pub seq_no: u32,
    pub window_size: u32,
}

/// A builder for an SUTP segment.
#[derive(Clone, Debug, Default, Hash, Eq, PartialEq)]
pub struct SegmentBuilder {
    chunks: Vec<Chunk>,
    seq_no: Option<u32>,
    window_size: Option<u32>,
}

/// A specific segment validation issue.
#[derive(Copy, Clone, Debug, Eq, Hash, PartialEq, Structural)]
pub enum Issue {
    /// There is a conflict within the chunks' meanings, e. g. a SYN and an
    /// ABRT together in the same segment.
    Conflict,
    /// There is illegal chunk duplication.
    DuplicatedChunks { abrt: bool, fin: bool, syn: bool },
    /// The segment does not contain any chunks.
    NoChunks,
}

/// The error when segment validation is not successful.
#[derive(Clone, Debug, Eq, Hash, PartialEq)]
pub struct ValidationError {
    issues: Vec<Issue>,
}

impl View for Segment {
    type V = SegmentView;

    open spec fn view(&self) -> SegmentView {
        SegmentView {
            chunks: self.chunks@.map_values(|c: Chunk| c@),
            seq_no: self.seq_no,
            window_size: self.window_size,
        }
    }
}

// ---------------------------------------------------------------------------
// Spec functions.
// ---------------------------------------------------------------------------

/// Whether the chunk list ACKs (`Some(true)`) or NAKs (`Some(false)`) the
/// sequence number `n`: the first SACK chunk that lists `n` as NAKed or
/// whose ACK number is at least `n` decides.
pub open spec fn spec_ack(chunks: Seq<ChunkView>, n: u32) -> Option<bool>
    decreases chunks.len(),
{
    if chunks.len() == 0 {
        None
    } else {
        match chunks[0] {
            ChunkView::Sack(ack, naks) => if naks.contains(n) {
                Some(false)
            } else if ack >= n {
                Some(true)
            } else {
                spec_ack(chunks.drop_first(), n)
            },
            _ => spec_ack(chunks.drop_first(), n),
        }
    }
}

/// The serialized chunks, one after the other.
pub open spec fn chunks_bytes(s: Seq<ChunkView>) -> Seq<u8>
    decreases s.len(),
{
    if s.len() == 0 {
        Seq::empty()
    } else {
        chunk::chunk_bytes(s[0]) + chunks_bytes(s.drop_first())
    }
}

/// The summed serialized length of the chunks.
pub open spec fn chunks_len(s: Seq<ChunkView>) -> nat
    decreases s.len(),
{
    if s.len() == 0 {
        0
    } else {
        chunk::chunk_len(s[0]) + chunks_len(s.drop_first())
    }
}

/// The serialized segment without its CRC sum.
pub open spec fn raw_bytes(v: SegmentView) -> Seq<u8> {
    wire::u32_be_bytes(v.seq_no) + wire::u32_be_bytes(v.window_size) + chunks_bytes(v.chunks)
}

/// The serialized segment: header, chunks and the CRC-32 sum of both.
pub open spec fn segment_bytes(v: SegmentView) -> Seq<u8> {
    raw_bytes(v) + wire::u32_be_bytes(wire::crc32_of(raw_bytes(v)))
}

/// The length of the serialized segment.
pub open spec fn segment_len(v: SegmentView) -> nat {
    BINARY_OVERHEAD as nat + chunks_len(v.chunks)
}

/// Every chunk can be written.
pub open spec fn is_writable(v: SegmentView) -> bool {
    forall|i: int| 0 <= i < v.chunks.len() ==> chunk::is_writable(#[trigger] v.chunks[i])
}

/// Every chunk reads back as itself.
pub open spec fn is_canonical(v: SegmentView) -> bool {
    forall|i: int| 0 <= i < v.chunks.len() ==> chunk::is_canonical(#[trigger] v.chunks[i])
}

/// The first known algorithm in a list.
pub open spec fn first_known(l: Seq<CompressionAlgorithm>) -> Option<CompressionAlgorithm>
    decreases l.len(),
{
    if l.len() == 0 {
        None
    } else if !(l[0] is Unknown) {
        Some(l[0])
    } else {
        first_known(l.drop_first())
    }
}

/// The first known algorithm in the compression negotiation chunks, taken
/// in order.
pub open spec fn spec_select_compression_alg(chunks: Seq<ChunkView>) -> Option<CompressionAlgorithm>
    decreases chunks.len(),
{
    if chunks.len() == 0 {
        None
    } else {
        match chunks[0] {
            ChunkView::CompressionNegotiation(l) => match first_known(l) {
                Some(a) => Some(a),
                None => spec_select_compression_alg(chunks.drop_first()),
            },
            _ => spec_select_compression_alg(chunks.drop_first()),
        }
    }
}

/// A compression negotiation list as an answer may hold it: at most one
/// algorithm, and a supported one.
pub open spec fn is_valid_answer_list(l: Seq<CompressionAlgorithm>) -> bool {
    l.len() <= 1 && (l.len() == 1 ==> !(l[0] is Unknown))
}

/// Every compression negotiation chunk is a valid answer.
pub open spec fn valid_compression_answer(chunks: Seq<ChunkView>) -> bool {
    forall|i: int|
        0 <= i < chunks.len() ==> (#[trigger] chunks[i] matches ChunkView::CompressionNegotiation(l)
            ==> is_valid_answer_list(l))
}

/// The number of chunks satisfying `p`.
pub open spec fn count_chunks(s: Seq<ChunkView>, p: spec_fn(ChunkView) -> bool) -> nat
    decreases s.len(),
{
    if s.len() == 0 {
        0
    } else {
        count_chunks(s.drop_last(), p) + if p(s.last()) {
            1nat
        } else {
            0nat
        }
    }
}

/// The chunk is an ABRT chunk.
pub open spec fn is_abrt(c: ChunkView) -> bool {
    c is Abort
}

/// The chunk is a FIN chunk.
pub open spec fn is_fin(c: ChunkView) -> bool {
    c is Fin
}

/// The chunk is a SYN chunk.
pub open spec fn is_syn(c: ChunkView) -> bool {
    c is Syn
}

/// The chunk is a SACK chunk.
pub open spec fn is_sack(c: ChunkView) -> bool {
    c is Sack
}

/// Some chunk is a SYN chunk.
pub open spec fn contains_syn(s: Seq<ChunkView>) -> bool {
    exists|i: int| 0 <= i < s.len() && is_syn(#[trigger] s[i])
}

/// Some chunk is a SACK chunk.
pub open spec fn contains_sack(s: Seq<ChunkView>) -> bool {
    exists|i: int| 0 <= i < s.len() && is_sack(#[trigger] s[i])
}

/// Some chunk is an ABRT chunk.
pub open spec fn contains_abrt(s: Seq<ChunkView>) -> bool {
    exists|i: int| 0 <= i < s.len() && is_abrt(#[trigger] s[i])
}

/// Every chunk is a SACK chunk.
pub open spec fn all_sack(s: Seq<ChunkView>) -> bool {
    forall|i: int| 0 <= i < s.len() ==> is_sack(#[trigger] s[i])
}

/// Every chunk is an ABRT chunk.
pub open spec fn all_abrt(s: Seq<ChunkView>) -> bool {
    forall|i: int| 0 <= i < s.len() ==> is_abrt(#[trigger] s[i])
}

/// The duplication issue: a flag chunk occurs more than once.
pub open spec fn duplication_issue(s: Seq<ChunkView>) -> Option<Issue> {
    let abrt = count_chunks(s, |c| is_abrt(c)) > 1;
    let fin = count_chunks(s, |c| is_fin(c)) > 1;
    let syn = count_chunks(s, |c| is_syn(c)) > 1;
    if abrt || fin || syn {
        Some(Issue::DuplicatedChunks { abrt, fin, syn })
    } else {
        None
    }
}

/// The conflict issue: an ABRT chunk together with other chunks.
pub open spec fn conflict_issue(s: Seq<ChunkView>) -> Option<Issue> {
    if contains_abrt(s) && !all_abrt(s) {
        Some(Issue::Conflict)
    } else {
        None
    }
}

/// The issues of a segment, in the order they are checked.
pub open spec fn spec_issues(s: Seq<ChunkView>) -> Seq<Issue> {
    (if s.len() == 0 {
        seq![Issue::NoChunks]
    } else {
        Seq::empty()
    }) + (match duplication_issue(s) {
        Some(i) => seq![i],
        None => Seq::empty(),
    }) + (match conflict_issue(s) {
        Some(i) => seq![i],
        None => Seq::empty(),
    })
}

/// What reading a list of chunks gives.
pub enum ChunksRead {
    Chunks(Seq<ChunkView>),
    Eof,
    SackLength,
    CompressionListLength,
    /// The reader panics on this data.
    Stuck,
}

/// Reads chunks until fewer than four bytes are left.
pub open spec fn spec_read_chunks(s: Seq<u8>) -> ChunksRead
    decreases s.len(),
{
    match chunk::spec_read_chunk(s) {
        chunk::ChunkRead::End => ChunksRead::Chunks(Seq::empty()),
        chunk::ChunkRead::Eof => ChunksRead::Eof,
        chunk::ChunkRead::SackLength => ChunksRead::SackLength,
        chunk::ChunkRead::CompressionListLength => ChunksRead::CompressionListLength,
        chunk::ChunkRead::Stuck => ChunksRead::Stuck,
        chunk::ChunkRead::Read(c, n) => if 0 < n <= s.len() {
            match spec_read_chunks(s.skip(n as int)) {
                ChunksRead::Chunks(rest) => ChunksRead::Chunks(seq![c] + rest),
                other => other,
            }
        } else {
            ChunksRead::Chunks(seq![c])
        },
    }
}

/// What reading a segment gives.
pub enum SegmentRead {
    Segment(SegmentView),
    Eof,
    SackLength,
    CompressionListLength,
    CrcMismatch(u32, u32),
    /// The reader panics on this data.
    Stuck,
}

/// Reads a segment without its CRC sum.
pub open spec fn spec_read_raw(s: Seq<u8>) -> SegmentRead {
    if s.len() < 8 {
        SegmentRead::Eof
    } else {
        match spec_read_chunks(s.skip(8)) {
            ChunksRead::Chunks(chunks) => SegmentRead::Segment(
                SegmentView {
                    chunks,
                    seq_no: wire::u32_from_be(s),
                    window_size: wire::u32_from_be(s.skip(4)),
                },
            ),
            ChunksRead::Eof => SegmentRead::Eof,
            ChunksRead::SackLength => SegmentRead::SackLength,
            ChunksRead::CompressionListLength => SegmentRead::CompressionListLength,
            ChunksRead::Stuck => SegmentRead::Stuck,
        }
    }
}

/// Reads a segment whose last four bytes are the CRC-32 sum of the rest.
pub open spec fn spec_read_segment(s: Seq<u8>) -> SegmentRead {
    if s.len() < 4 {
        SegmentRead::Eof
    } else {
        let data = s.take(s.len() - 4);
        let got = wire::crc32_of(data);
        let wanted = wire::u32_from_be(s.skip(s.len() - 4));
        if got != wanted {
            SegmentRead::CrcMismatch(got, wanted)
        } else {
            spec_read_raw(data)
        }
    }
}

/// `res` is the executable form of the outcome `spec`.
pub open spec fn read_segment_result(res: Result<Segment, ReadError>, spec: SegmentRead) -> bool {
    match spec {
        SegmentRead::Segment(v) => res matches Ok(seg) && seg@ == v,
        SegmentRead::Eof => res matches Err(ReadError::UnexpectedEof),
        SegmentRead::SackLength => res matches Err(ReadError::SackLength),
        SegmentRead::CompressionListLength => res matches Err(ReadError::CompressionListLength),
        SegmentRead::CrcMismatch(got, wanted) => res matches Err(ReadError::CrcMismatch { got: g, wanted: w })
            && g == got && w == wanted,
        SegmentRead::Stuck => false,
    }
}

// ---------------------------------------------------------------------------
// Lemmas.
// ---------------------------------------------------------------------------

proof fn lemma_chunks_add(a: Seq<ChunkView>, b: Seq<ChunkView>)
    ensures
        chunks_bytes(a + b) == chunks_bytes(a) + chunks_bytes(b),
        chunks_len(a + b) == chunks_len(a) + chunks_len(b),
    decreases a.len(),
{
    if a.len() == 0 {
        assert(a + b =~= b);
        assert(chunks_bytes(a) + chunks_bytes(b) =~= chunks_bytes(b));
    } else {
        lemma_chunks_add(a.drop_first(), b);
        assert((a + b).drop_first() =~= a.drop_first() + b);
        assert(chunks_bytes(a + b) =~= chunks_bytes(a) + chunks_bytes(b));
    }
}

proof fn lemma_chunks_push(a: Seq<ChunkView>, c: ChunkView)
    ensures
        chunks_bytes(a.push(c)) == chunks_bytes(a) + chunk::chunk_bytes(c),
        chunks_len(a.push(c)) == chunks_len(a) + chunk::chunk_len(c),
{
    lemma_chunks_add(a, seq![c]);
    assert(a + seq![c] =~= a.push(c));
    assert(seq![c].drop_first() =~= Seq::<ChunkView>::empty());
    reveal_with_fuel(chunks_bytes, 2);
    reveal_with_fuel(chunks_len, 2);
    assert(chunks_bytes(seq![c]) =~= chunk::chunk_bytes(c));
}

/// The serialized length of a chunk list is the sum of the chunk lengths.
pub proof fn lemma_chunks_bytes_len(s: Seq<ChunkView>)
    ensures
        chunks_bytes(s).len() == chunks_len(s),
    decreases s.len(),
{
    if s.len() > 0 {
        chunk::lemma_chunk_len(s[0]);
        lemma_chunks_bytes_len(s.drop_first());
    }
}

/// Reading written canonical chunks gives them back.
#[verifier::rlimit(50)]
pub proof fn lemma_chunks_roundtrip(s: Seq<ChunkView>)
    requires
        forall|i: int| 0 <= i < s.len() ==> chunk::is_canonical(#[trigger] s[i]),
    ensures
        spec_read_chunks(chunks_bytes(s)) == ChunksRead::Chunks(s),
    decreases s.len(),
{
    if s.len() == 0 {
        assert(chunk::spec_read_chunk(chunks_bytes(s)) == chunk::ChunkRead::End);
        assert(s =~= Seq::<ChunkView>::empty());
    } else {
        let c = s[0];
        let rest = s.drop_first();
        assert(chunk::is_canonical(c));
        assert forall|i: int| 0 <= i < rest.len() implies chunk::is_canonical(#[trigger] rest[i]) by {
            assert(rest[i] == s[i + 1]);
        }
        lemma_chunks_roundtrip(rest);
        chunk::lemma_chunk_roundtrip(c, chunks_bytes(rest));
        chunk::lemma_chunk_len(c);
        let all = chunks_bytes(s);
        assert(all =~= chunk::chunk_bytes(c) + chunks_bytes(rest));
        assert(all.skip(chunk::chunk_len(c) as int) =~= chunks_bytes(rest));
        assert(chunk::spec_read_chunk(all) == chunk::ChunkRead::Read(c, chunk::chunk_len(c)));
        assert(spec_read_chunks(all.skip(chunk::chunk_len(c) as int)) == ChunksRead::Chunks(rest));
        assert(seq![c] + rest =~= s);
    }
}

/// Reading a written canonical segment gives it back.
pub proof fn lemma_segment_roundtrip(v: SegmentView)
    requires
        is_canonical(v),
    ensures
        spec_read_segment(segment_bytes(v)) == SegmentRead::Segment(v),
{
    let raw = raw_bytes(v);
    let s = segment_bytes(v);
    wire::lemma_u32_be_roundtrip(v.seq_no);
    wire::lemma_u32_be_roundtrip(v.window_size);
    wire::lemma_u32_be_roundtrip(wire::crc32_of(raw));
    assert(s.take(s.len() - 4) =~= raw);
    assert(s.skip(s.len() - 4) =~= wire::u32_be_bytes(wire::crc32_of(raw)));
    assert(raw.skip(8) =~= chunks_bytes(v.chunks));
    assert(raw.skip(4) =~= wire::u32_be_bytes(v.window_size) + chunks_bytes(v.chunks));
    lemma_chunks_roundtrip(v.chunks);
}

/// The serialized length of a segment is `segment_len`.
pub proof fn lemma_segment_len(v: SegmentView)
    ensures
        segment_bytes(v).len() == segment_len(v),
{
    lemma_chunks_bytes_len(v.chunks);
}

/// A chunk list is either ACKing, NAKing or silent on a sequence number,
/// and a NAK listing wins over the ACK number.
pub proof fn lemma_ack_single_sack(ack: u32, naks: Seq<u32>, n: u32)
    ensures
        spec_ack(seq![ChunkView::Sack(ack, naks)], n) == if naks.contains(n) {
            Some(false)
        } else if ack >= n {
            Some(true)
        } else {
            None
        },
{
    let s = seq![ChunkView::Sack(ack, naks)];
    assert(s.drop_first() =~= Seq::<ChunkView>::empty());
    reveal_with_fuel(spec_ack, 2);
}

proof fn lemma_count_chunks_push(s: Seq<ChunkView>, c: ChunkView, p: spec_fn(ChunkView) -> bool)
    ensures
        count_chunks(s.push(c), p) == count_chunks(s, p) + if p(c) {
            1nat
        } else {
            0nat
        },
        count_chunks(s, p) <= s.len(),
    decreases s.len(),
{
    assert(s.push(c).drop_last() =~= s);
    if s.len() > 0 {
        lemma_count_chunks_push(s.drop_last(), s.last(), p);
        assert(s.drop_last().push(s.last()) =~= s);
    }
}

/// Two distinct chunks satisfy `p`.
pub open spec fn occurs_twice(s: Seq<ChunkView>, p: spec_fn(ChunkView) -> bool) -> bool {
    exists|i: int, j: int| #![trigger s[i], s[j]] 0 <= i < j < s.len() && p(s[i]) && p(s[j])
}

/// Some chunk satisfies `p`.
pub open spec fn occurs(s: Seq<ChunkView>, p: spec_fn(ChunkView) -> bool) -> bool {
    exists|i: int| 0 <= i < s.len() && p(#[trigger] s[i])
}

/// Counting chunks: more than none means one occurs, more than one means
/// two distinct ones occur.
proof fn lemma_count_occurs(s: Seq<ChunkView>, p: spec_fn(ChunkView) -> bool)
    ensures
        (count_chunks(s, p) > 0) == occurs(s, p),
        (count_chunks(s, p) > 1) == occurs_twice(s, p),
    decreases s.len(),
{
    if s.len() > 0 {
        let t = s.drop_last();
        let n = s.len() - 1;
        lemma_count_occurs(t, p);
        assert forall|i: int| 0 <= i < t.len() implies #[trigger] t[i] == s[i] by {}
        if occurs(s, p) && !p(s[n]) {
            let i = choose|i: int| 0 <= i < s.len() && p(#[trigger] s[i]);
            assert(t[i] == s[i]);
        }
        if occurs(t, p) {
            let i = choose|i: int| 0 <= i < t.len() && p(#[trigger] t[i]);
            assert(s[i] == t[i]);
        }
        if occurs_twice(s, p) {
            let (i, j) = choose|i: int, j: int|
                #![trigger s[i], s[j]]
                0 <= i < j < s.len() && p(s[i]) && p(s[j]);
            assert(t[i] == s[i]);
            if j < n {
                assert(t[j] == s[j]);
                assert(occurs_twice(t, p));
            } else {
                assert(occurs(t, p));
            }
        }
        if occurs_twice(t, p) {
            let (i, j) = choose|i: int, j: int|
                #![trigger t[i], t[j]]
                0 <= i < j < t.len() && p(t[i]) && p(t[j]);
            assert(s[i] == t[i] && s[j] == t[j]);
        }
        if occurs(t, p) && p(s[n]) {
            let i = choose|i: int| 0 <= i < t.len() && p(#[trigger] t[i]);
            assert(s[i] == t[i]);
            assert(p(s[i]) && p(s[n]));
        }
    }
}

/// Validation catches every repeated flag chunk. A segment has the
/// duplication issue exactly when some kind of flag chunk (ABRT, FIN or
/// SYN) occurs at two places; the issue names exactly the kinds that do;
/// and such a segment fails validation.
pub proof fn lemma_duplication_detected(s: Seq<ChunkView>)
    ensures
        (duplication_issue(s) is Some) == (occurs_twice(s, |c: ChunkView| is_abrt(c))
            || occurs_twice(s, |c: ChunkView| is_fin(c)) || occurs_twice(
            s,
            |c: ChunkView| is_syn(c),
        )),
        duplication_issue(s) is Some ==> duplication_issue(s) == Some(
            Issue::DuplicatedChunks {
                abrt: occurs_twice(s, |c: ChunkView| is_abrt(c)),
                fin: occurs_twice(s, |c: ChunkView| is_fin(c)),
                syn: occurs_twice(s, |c: ChunkView| is_syn(c)),
            },
        ),
        duplication_issue(s) is Some ==> spec_issues(s).len() > 0,
{
    lemma_count_occurs(s, |c: ChunkView| is_abrt(c));
    lemma_count_occurs(s, |c: ChunkView| is_fin(c));
    lemma_count_occurs(s, |c: ChunkView| is_syn(c));
}

impl AckNak {
    /// Checks whether the AckNak is the ACK variant.
    pub fn is_ack(self) -> (b: bool)
        ensures
            b == (self.0 == Some(true)),
    {
        match self {
            AckNak(Some(v)) => v,
            _ => false,
        }
    }

    /// Whether the ACK / NAK state is known.
    pub fn is_known(self) -> (b: bool)
        ensures
            b == (self.0 is Some),
    {
        match self {
            AckNak(Some(_)) => true,
            _ => false,
        }
    }

    /// Checks whether the AckNak is the NAK variant.
    pub fn is_nak(self) -> (b: bool)
        ensures
            b == (self.0 == Some(false)),
    {
        match self {
            AckNak(Some(v)) => !v,
            _ => false,
        }
    }
}

/// Whether `n` occurs in `list`.
fn contains_u32(list: &Vec<u32>, n: u32) -> (b: bool)
    ensures
        b == list@.contains(n),
{
    let mut i: usize = 0;
    while i < list.len()
        invariant
            i <= list@.len(),
            forall|j: int| 0 <= j < i ==> list@[j] != n,
        decreases list@.len() - i,
    {
        if list[i] == n {
            return true;
        }
        i = i + 1;
    }
    false
}

impl Segment {
    /// Checks whether this segment ACKs or NAKs the given sequence number.
    pub fn ack(&self, other_seq_no: u32) -> (r: AckNak)
        ensures
            r.0 == spec_ack(self@.chunks, other_seq_no),
    {
        let ghost chunks = self@.chunks;
        assert(chunks.skip(0) =~= chunks);
        let mut i: usize = 0;
        while i < self.chunks.len()
            invariant
                i <= chunks.len(),
                chunks == self@.chunks,
                spec_ack(chunks, other_seq_no) == spec_ack(chunks.skip(i as int), other_seq_no),
            decreases chunks.len() - i,
        {
            let ghost rest = chunks.skip(i as int);
            assert(rest.drop_first() =~= chunks.skip(i + 1));
            match &self.chunks[i] {
                Chunk::Sack(ack, nak_list) => {
                    assert(rest[0] == ChunkView::Sack(*ack, nak_list@));
                    if contains_u32(nak_list, other_seq_no) {
                        return AckNak(Some(false));
                    } else if *ack >= other_seq_no {
                        return AckNak(Some(true));
                    }
                },
                _ => {},
            }
            i = i + 1;
        }
        AckNak(None)
    }

    /// Gets the length of the segment in bytes if it were serialized.
    pub fn binary_len(&self) -> (n: usize)
        requires
            segment_len(self@) <= usize::MAX,
        ensures
            n == segment_len(self@),
            n == segment_bytes(self@).len(),
    {
        proof {
            lemma_segment_len(self@);
        }
        let ghost chunks = self@.chunks;
        let mut chunk_len: usize = 0;
        let mut i: usize = 0;
        while i < self.chunks.len()
            invariant
                i <= chunks.len(),
                chunks == self@.chunks,
                chunk_len == chunks_len(chunks.take(i as int)),
                chunks_len(chunks) + BINARY_OVERHEAD <= usize::MAX,
            decreases chunks.len() - i,
        {
            proof {
                lemma_chunks_push(chunks.take(i as int), chunks[i as int]);
                assert(chunks.take(i + 1) =~= chunks.take(i as int).push(chunks[i as int]));
                lemma_chunks_add(chunks.take(i + 1), chunks.skip(i + 1));
                assert(chunks.take(i + 1) + chunks.skip(i + 1) =~= chunks);
            }
            chunk_len = chunk_len + self.chunks[i].binary_len();
            i = i + 1;
        }
        assert(chunks.take(i as int) =~= chunks);
        chunk_len + BINARY_OVERHEAD
    }

    /// Determines if the segment contains just SACK chunks.
    pub fn is_just_sack(&self) -> (b: bool)
        ensures
            b == all_sack(self@.chunks),
    {
        let mut i: usize = 0;
        while i < self.chunks.len()
            invariant
                i <= self@.chunks.len(),
                forall|j: int| 0 <= j < i ==> is_sack(#[trigger] self@.chunks[j]),
            decreases self@.chunks.len() - i,
        {
            if !self.chunks[i].is_sack() {
                assert(!is_sack(self@.chunks[i as int]));
                return false;
            }
            i = i + 1;
        }
        true
    }

    /// Whether receiving this segment calls for an acknowledgement: it holds
    /// a chunk other than a SACK chunk. Segments of SACK chunks alone are not
    /// acknowledged, to avoid ACK loops.
    pub fn needs_ack(&self) -> (b: bool)
        ensures
            b == !all_sack(self@.chunks),
    {
        !self.is_just_sack()
    }

    /// Whether some chunk is a SYN chunk.
    pub(crate) fn contains_syn(&self) -> (b: bool)
        ensures
            b == contains_syn(self@.chunks),
    {
        let mut i: usize = 0;
        while i < self.chunks.len()
            invariant
                i <= self@.chunks.len(),
                forall|j: int| 0 <= j < i ==> !is_syn(#[trigger] self@.chunks[j]),
            decreases self@.chunks.len() - i,
        {
            if self.chunks[i].is_syn() {
                assert(is_syn(self@.chunks[i as int]));
                return true;
            }
            i = i + 1;
        }
        false
    }

    /// Whether some chunk is a SACK chunk.
    pub(crate) fn contains_sack(&self) -> (b: bool)
        ensures
            b == contains_sack(self@.chunks),
    {
        let mut i: usize = 0;
        while i < self.chunks.len()
            invariant
                i <= self@.chunks.len(),
                forall|j: int| 0 <= j < i ==> !is_sack(#[trigger] self@.chunks[j]),
            decreases self@.chunks.len() - i,
        {
            if self.chunks[i].is_sack() {
                assert(is_sack(self@.chunks[i as int]));
                return true;
            }
            i = i + 1;
        }
        false
    }

    /// Checks whether the segment is a "SYN->" segment: the very first
    /// segment on the wire, initiating a connection.
    pub fn is_syn1(&self) -> (b: bool)
        ensures
            b == (contains_syn(self@.chunks) && !contains_sack(self@.chunks)),
    {
        let contains_syn = self.contains_syn();
        let contains_sack = self.contains_sack();
        contains_syn && !contains_sack
    }

    /// Checks whether the segment is a "<-SYN" segment answering the first
    /// one: it contains a SYN chunk and ACKs `syn1_seq_no`.
    pub fn is_syn2_and_acks(&self, syn1_seq_no: u32) -> (b: bool)
        ensures
            b == (contains_syn(self@.chunks) && spec_ack(self@.chunks, syn1_seq_no)
                == Some(true)),
    {
        let contains_syn = self.contains_syn();
        contains_syn && self.ack(syn1_seq_no).is_ack()
    }

    /// Whether every compression negotiation chunk holds at most one
    /// algorithm, and a supported one.
    pub(crate) fn has_valid_compression_answer(&self) -> (b: bool)
        ensures
            b == valid_compression_answer(self@.chunks),
    {
        let mut i: usize = 0;
        while i < self.chunks.len()
            invariant
                i <= self@.chunks.len(),
                forall|j: int|
                    0 <= j < i ==> (#[trigger] self@.chunks[j] matches ChunkView::CompressionNegotiation(
                        l,
                    ) ==> is_valid_answer_list(l)),
            decreases self@.chunks.len() - i,
        {
            match &self.chunks[i] {
                Chunk::CompressionNegotiation(list) => {
                    assert(self@.chunks[i as int] == ChunkView::CompressionNegotiation(list@));
                    if list.len() > 1 || (list.len() == 1 && !list[0].is_known()) {
                        return false;
                    }
                },
                _ => {},
            }
            i = i + 1;
        }
        true
    }

    /// Selects the most-preferred supported compression algorithm, if one
    /// is present.
    pub fn select_compression_alg(&self) -> (r: Option<CompressionAlgorithm>)
        ensures
            r == spec_select_compression_alg(self@.chunks),
    {
        let ghost chunks = self@.chunks;
        assert(chunks.skip(0) =~= chunks);
        let mut i: usize = 0;
        while i < self.chunks.len()
            invariant
                i <= chunks.len(),
                chunks == self@.chunks,
                spec_select_compression_alg(chunks) == spec_select_compression_alg(
                    chunks.skip(i as int),
                ),
            decreases chunks.len() - i,
        {
            let ghost rest = chunks.skip(i as int);
            assert(rest.drop_first() =~= chunks.skip(i + 1));
            match &self.chunks[i] {
                Chunk::CompressionNegotiation(list) => {
                    assert(rest[0] == ChunkView::CompressionNegotiation(list@));
                    assert(list@.skip(0) =~= list@);
                    let mut k: usize = 0;
                    while k < list.len()
                        invariant
                            k <= list@.len(),
                            first_known(list@) == first_known(list@.skip(k as int)),
                            i < chunks.len(),
                            chunks == self@.chunks,
                            spec_select_compression_alg(chunks) == spec_select_compression_alg(
                                chunks.skip(i as int),
                            ),
                            chunks.skip(i as int)[0] == ChunkView::CompressionNegotiation(list@),
                        decreases list@.len() - k,
                    {
                        assert(list@.skip(k as int).drop_first() =~= list@.skip(k + 1));
                        assert(list@.skip(k as int)[0] == list@[k as int]);
                        if list[k].is_known() {
                            return Some(list[k]);
                        }
                        k = k + 1;
                    }
                },
                _ => {},
            }
            i = i + 1;
        }
        None
    }

    /// Validates the segment's contents for the general case: it has
    /// chunks, no flag chunk occurs twice, and an ABRT chunk stands alone.
    pub fn validate(&self) -> (r: Result<(), ValidationError>)
        ensures
            match r {
                Ok(()) => spec_issues(self@.chunks).len() == 0,
                Err(e) => e.spec_issues() == spec_issues(self@.chunks) && e.spec_issues().len()
                    > 0,
            },
    {
        let mut errors: Vec<Issue> = Vec::new();
        if self.chunks.len() == 0 {
            errors.push(Issue::NoChunks);
        }
        let dup = self.check_illegal_duplication();
        if let Some(e) = dup {
            errors.push(e);
        }
        let conflict = self.check_conflicts();
        if let Some(e) = conflict {
            errors.push(e);
        }
        assert(errors@ =~= spec_issues(self@.chunks));
        if errors.len() == 0 {
            Ok(())
        } else {
            Err(ValidationError::new(errors))
        }
    }

    /// Checks whether the segment contains chunk conflicts.
    pub fn check_conflicts(&self) -> (r: Option<Issue>)
        ensures
            r == conflict_issue(self@.chunks),
    {
        let mut contains_abrt = false;
        let mut all_abort = true;
        let mut i: usize = 0;
        while i < self.chunks.len()
            invariant
                i <= self@.chunks.len(),
                contains_abrt == exists|j: int| 0 <= j < i && is_abrt(#[trigger] self@.chunks[j]),
                all_abort == forall|j: int| 0 <= j < i ==> is_abrt(#[trigger] self@.chunks[j]),
            decreases self@.chunks.len() - i,
        {
            if self.chunks[i].is_abrt() {
                assert(is_abrt(self@.chunks[i as int]));
                contains_abrt = true;
            } else {
                assert(!is_abrt(self@.chunks[i as int]));
                all_abort = false;
            }
            i = i + 1;
        }
        if contains_abrt && !all_abort {
            Some(Issue::Conflict)
        } else {
            None
        }
    }

    /// Checks whether the segment contains illegal duplication of flag
    /// chunks and returns the issue.
    pub fn check_illegal_duplication(&self) -> (r: Option<Issue>)
        ensures
            r == duplication_issue(self@.chunks),
    {
        let ghost chunks = self@.chunks;
        let mut abrt_count: usize = 0;
        let mut fin_count: usize = 0;
        let mut syn_count: usize = 0;
        let mut i: usize = 0;
        while i < self.chunks.len()
            invariant
                i <= chunks.len(),
                chunks == self@.chunks,
                abrt_count == count_chunks(chunks.take(i as int), |c| is_abrt(c)),
                fin_count == count_chunks(chunks.take(i as int), |c| is_fin(c)),
                syn_count == count_chunks(chunks.take(i as int), |c| is_syn(c)),
                abrt_count <= i,
                fin_count <= i,
                syn_count <= i,
            decreases chunks.len() - i,
        {
            proof {
                let t = chunks.take(i as int);
                assert(chunks.take(i + 1) =~= t.push(chunks[i as int]));
                lemma_count_chunks_push(t, chunks[i as int], |c| is_abrt(c));
                lemma_count_chunks_push(t, chunks[i as int], |c| is_fin(c));
                lemma_count_chunks_push(t, chunks[i as int], |c| is_syn(c));
            }
            if self.chunks[i].is_abrt() {
                abrt_count = abrt_count + 1;
            }
            if self.chunks[i].is_fin() {
                fin_count = fin_count + 1;
            }
            if self.chunks[i].is_syn() {
                syn_count = syn_count + 1;
            }
            i = i + 1;
        }
        assert(chunks.take(i as int) =~= chunks);
        if abrt_count > 1 || fin_count > 1 || syn_count > 1 {
            Some(Issue::DuplicatedChunks { abrt: abrt_count > 1, fin: fin_count > 1, syn: syn_count > 1 })
        } else {
            None
        }
    }
}

/// Prepends `cs` to the chunks of a successful read.
pub open spec fn prepend(cs: Seq<ChunkView>, rd: ChunksRead) -> ChunksRead {
    match rd {
        ChunksRead::Chunks(rest) => ChunksRead::Chunks(cs + rest),
        other => other,
    }
}

impl Segment {
    /// Reads a segment from `r` and verifies the CRC-32 sum in its last four
    /// bytes. The whole of `r` is the segment.
    pub fn read_from(r: &[u8]) -> (res: Result<Segment, ReadError>)
        requires
            !(spec_read_segment(r@) is Stuck),
        ensures
            read_segment_result(res, spec_read_segment(r@)),
    {
        if r.len() < chunk::U32_SIZE {
            return Err(ReadError::UnexpectedEof);
        }
        let split = r.len() - chunk::U32_SIZE;
        let data_part = &r[0..split];
        let crc_part = &r[split..r.len()];
        assert(data_part@ == r@.take(r@.len() - 4));
        assert(crc_part@ == r@.skip(r@.len() - 4));
        let actual_crc = wire::crc32(data_part);
        let expected_crc = wire::read_u32_be(crc_part);
        if actual_crc != expected_crc {
            return Err(ReadError::CrcMismatch { got: actual_crc, wanted: expected_crc });
        }
        Self::read_from_raw(data_part)
    }

    /// Reads a segment, verifies the CRC-32 sum and validates the contents.
    ///
    /// A validation failure is reported as `ReadError::Invalid`.
    pub fn read_from_and_validate(r: &[u8]) -> (res: Result<Segment, ReadError>)
        requires
            !(spec_read_segment(r@) is Stuck),
        ensures
            match spec_read_segment(r@) {
                SegmentRead::Segment(v) => if spec_issues(v.chunks).len() == 0 {
                    res matches Ok(seg) && seg@ == v
                } else {
                    res matches Err(ReadError::Invalid(e)) && e.spec_issues() == spec_issues(
                        v.chunks,
                    )
                },
                other => read_segment_result(res, other),
            },
    {
        let segment = Self::read_from(r)?;
        match segment.validate() {
            Ok(()) => Ok(segment),
            Err(e) => Err(ReadError::Invalid(e)),
        }
    }

    /// Whether `read_from` would panic on `r`: some chunk the reader reaches
    /// is a SACK chunk with an empty list and fewer than four bytes behind
    /// it, or a security flag chunk whose length exceeds the data.
    pub fn read_would_panic(r: &[u8]) -> (b: bool)
        ensures
            b == (spec_read_segment(r@) is Stuck),
    {
        if r.len() < chunk::U32_SIZE {
            return false;
        }
        let split = r.len() - chunk::U32_SIZE;
        let data = &r[0..split];
        let crc_part = &r[split..r.len()];
        assert(data@ == r@.take(r@.len() - 4));
        assert(crc_part@ == r@.skip(r@.len() - 4));
        if wire::crc32(data) != wire::read_u32_be(crc_part) || data.len() < 8 {
            return false;
        }
        let mut pos: usize = 8;
        assert(data@.skip(8) == data@.skip(pos as int));
        loop
            invariant
                8 <= pos <= data@.len(),
                (spec_read_segment(r@) is Stuck) == (spec_read_chunks(data@.skip(8)) is Stuck),
                (spec_read_chunks(data@.skip(8)) is Stuck) == (spec_read_chunks(
                    data@.skip(pos as int),
                ) is Stuck),
            decreases data@.len() - pos,
        {
            let rest = &data[pos..data.len()];
            assert(rest@ == data@.skip(pos as int));
            if Chunk::read_would_panic(rest) {
                return true;
            }
            match Chunk::read_from(rest) {
                Ok(Some((_, n))) => {
                    assert(rest@.skip(n as int) =~= data@.skip(pos + n));
                    pos = pos + n;
                },
                _ => {
                    return false;
                },
            }
        }
    }

    /// Writes the segment, followed by its CRC-32 sum, to the end of `w`.
    pub fn write_to(&self, w: &mut Vec<u8>)
        requires
            is_writable(self@),
        ensures
            final(w)@ == old(w)@ + segment_bytes(self@),
    {
        let mut data: Vec<u8> = Vec::new();
        self.write_to_raw(&mut data);
        let crc_sum = wire::crc32(data.as_slice());
        wire::put_bytes(w, data.as_slice());
        wire::put_u32_be(w, crc_sum);
        assert(w@ =~= old(w)@ + segment_bytes(self@));
    }

    /// Writes the segment to a new vector of bytes.
    pub fn to_vec(&self) -> (v: Vec<u8>)
        requires
            is_writable(self@),
        ensures
            v@ == segment_bytes(self@),
    {
        let mut buf: Vec<u8> = Vec::new();
        self.write_to(&mut buf);
        assert(buf@ =~= segment_bytes(self@));
        buf
    }

    /// Reads a segment from `r` without verifying a CRC sum.
    fn read_from_raw(r: &[u8]) -> (res: Result<Segment, ReadError>)
        requires
            !(spec_read_raw(r@) is Stuck),
        ensures
            read_segment_result(res, spec_read_raw(r@)),
    {
        if r.len() < 2 * chunk::U32_SIZE {
            return Err(ReadError::UnexpectedEof);
        }
        let seq_no = wire::read_u32_be(r);
        let after_seq = &r[chunk::U32_SIZE..r.len()];
        assert(after_seq@ == r@.skip(4));
        let window_size = wire::read_u32_be(after_seq);
        let mut chunk_list: Vec<Chunk> = Vec::new();
        let mut pos: usize = 8;
        let ghost all = spec_read_chunks(r@.skip(8));
        assert(r@.skip(8) == r@.skip(pos as int));
        assert(chunk_list@.map_values(|c: Chunk| c@) =~= Seq::<ChunkView>::empty());
        proof {
            match all {
                ChunksRead::Chunks(rest) => {
                    assert(Seq::<ChunkView>::empty() + rest =~= rest);
                },
                _ => {},
            }
        }
        loop
            invariant
                8 <= pos <= r@.len(),
                all == spec_read_chunks(r@.skip(8)),
                !(all is Stuck),
                all == prepend(
                    chunk_list@.map_values(|c: Chunk| c@),
                    spec_read_chunks(r@.skip(pos as int)),
                ),
                seq_no == wire::u32_from_be(r@),
                window_size == wire::u32_from_be(r@.skip(4)),
            decreases r@.len() - pos,
        {
            let rest = &r[pos..r.len()];
            assert(rest@ == r@.skip(pos as int));
            let ghost cs = chunk_list@.map_values(|c: Chunk| c@);
            match Chunk::read_from(rest) {
                Ok(Some((ch, n))) => {
                    assert(rest@.skip(n as int) =~= r@.skip(pos + n));
                    let ghost c = ch@;
                    let ghost tail = spec_read_chunks(r@.skip(pos + n));
                    chunk_list.push(ch);
                    pos = pos + n;
                    proof {
                        assert(chunk_list@.map_values(|c: Chunk| c@) =~= cs.push(c));
                        match tail {
                            ChunksRead::Chunks(t) => {
                                assert(cs + (seq![c] + t) =~= cs.push(c) + t);
                            },
                            _ => {},
                        }
                    }
                },
                Ok(None) => {
                    proof {
                        assert(cs + Seq::<ChunkView>::empty() =~= cs);
                    }
                    return Ok(Segment { chunks: chunk_list, seq_no, window_size });
                },
                Err(e) => {
                    return Err(e);
                },
            }
        }
    }

    /// Writes the segment without its CRC sum to the end of `w`.
    fn write_to_raw(&self, w: &mut Vec<u8>)
        requires
            is_writable(self@),
        ensures
            final(w)@ == old(w)@ + raw_bytes(self@),
    {
        let ghost start = w@;
        wire::put_u32_be(w, self.seq_no);
        wire::put_u32_be(w, self.window_size);
        let ghost chunks = self@.chunks;
        let mut i: usize = 0;
        while i < self.chunks.len()
            invariant
                i <= chunks.len(),
                chunks == self@.chunks,
                is_writable(self@),
                w@ == start + wire::u32_be_bytes(self.seq_no) + wire::u32_be_bytes(self.window_size)
                    + chunks_bytes(chunks.take(i as int)),
            decreases chunks.len() - i,
        {
            proof {
                lemma_chunks_push(chunks.take(i as int), chunks[i as int]);
                assert(chunks.take(i + 1) =~= chunks.take(i as int).push(chunks[i as int]));
                assert(chunk::is_writable(chunks[i as int]));
            }
            self.chunks[i].write_to(w);
            i = i + 1;
        }
        assert(chunks.take(i as int) =~= chunks);
        assert(w@ =~= old(w)@ + raw_bytes(self@));
    }
}

impl SegmentBuilder {
    /// The chunks added so far.
    pub closed spec fn spec_chunks(&self) -> Seq<ChunkView> {
        self.chunks@.map_values(|c: Chunk| c@)
    }

    /// The sequence number, if set.
    pub closed spec fn spec_seq_no(&self) -> Option<u32> {
        self.seq_no
    }

    /// The window size, if set.
    pub closed spec fn spec_window_size(&self) -> Option<u32> {
        self.window_size
    }

    /// Constructs a new segment builder.
    pub fn new() -> (b: Self)
        ensures
            b.spec_chunks() == Seq::<ChunkView>::empty(),
            b.spec_seq_no() is None,
            b.spec_window_size() is None,
    {
        let b = Self { chunks: Vec::new(), seq_no: None, window_size: None };
        assert(b.spec_chunks() =~= Seq::<ChunkView>::empty());
        b
    }

    /// Builds the final segment; the sequence number and the window size
    /// must have been set.
    pub fn build(self) -> (s: Segment)
        requires
            self.spec_seq_no() is Some,
            self.spec_window_size() is Some,
        ensures
            s@ == (SegmentView {
                chunks: self.spec_chunks(),
                seq_no: self.spec_seq_no().unwrap(),
                window_size: self.spec_window_size().unwrap(),
            }),
    {
        Segment {
            chunks: self.chunks,
            seq_no: self.seq_no.unwrap(),
            window_size: self.window_size.unwrap(),
        }
    }

    /// Sets the sequence number.
    pub fn seq_no(self, seq_no: u32) -> (b: Self)
        ensures
            b.spec_chunks() == self.spec_chunks(),
            b.spec_seq_no() == Some(seq_no),
            b.spec_window_size() == self.spec_window_size(),
    {
        let mut b = self;
        b.seq_no = Some(seq_no);
        b
    }

    /// Sets the window size.
    pub fn window_size(self, size: u32) -> (b: Self)
        ensures
            b.spec_chunks() == self.spec_chunks(),
            b.spec_seq_no() == self.spec_seq_no(),
            b.spec_window_size() == Some(size),
    {
        let mut b = self;
        b.window_size = Some(size);
        b
    }

    /// Adds a chunk to the list of chunks.
    pub fn with_chunk(self, ch: Chunk) -> (b: Self)
        ensures
            b.spec_chunks() == self.spec_chunks().push(ch@),
            b.spec_seq_no() == self.spec_seq_no(),
            b.spec_window_size() == self.spec_window_size(),
    {
        let ghost c = ch@;
        let mut b = self;
        b.chunks.push(ch);
        assert(b.spec_chunks() =~= self.spec_chunks().push(c));
        b
    }
}

/// The parts, with `sep` between each two of them.
pub open spec fn join(parts: Seq<Seq<char>>, sep: Seq<char>) -> Seq<char>
    decreases parts.len(),
{
    if parts.len() == 0 {
        Seq::empty()
    } else if parts.len() == 1 {
        parts[0]
    } else {
        join(parts.drop_last(), sep) + sep + parts.last()
    }
}

/// The names of the duplicated flag chunks.
pub open spec fn duplicated_names(abrt: bool, fin: bool, syn: bool) -> Seq<Seq<char>> {
    (if abrt {
        seq!["ABRT"@]
    } else {
        Seq::empty()
    }) + (if fin {
        seq!["FIN"@]
    } else {
        Seq::empty()
    }) + (if syn {
        seq!["SYN"@]
    } else {
        Seq::empty()
    })
}

/// The human-readable description of an issue.
pub open spec fn issue_text(i: Issue) -> Seq<char> {
    match i {
        Issue::Conflict => "conflicting chunks"@,
        Issue::DuplicatedChunks { abrt, fin, syn } => "duplicated "@ + join(
            duplicated_names(abrt, fin, syn),
            ", "@,
        ),
        Issue::NoChunks => "empty chunk list"@,
    }
}

/// Appends `part` to a joined text, with `sep` before it unless it is the
/// first part.
proof fn lemma_join_push(parts: Seq<Seq<char>>, sep: Seq<char>, part: Seq<char>)
    ensures
        join(parts.push(part), sep) == if parts.len() == 0 {
            part
        } else {
            join(parts, sep) + sep + part
        },
{
    assert(parts.push(part).drop_last() =~= parts);
}

impl Issue {
    /// The human-readable description of the issue.
    pub fn to_string(&self) -> (s: String)
        ensures
            s@ == issue_text(*self),
    {
        match *self {
            Issue::Conflict => String::from_str("conflicting chunks"),
            Issue::DuplicatedChunks { abrt, fin, syn } => {
                let mut s = String::from_str("duplicated ");
                let ghost prefix = s@;
                let ghost mut parts: Seq<Seq<char>> = Seq::empty();
                let mut first = true;
                if abrt {
                    s.append("ABRT");
                    proof {
                        lemma_join_push(parts, ", "@, "ABRT"@);
                        parts = parts.push("ABRT"@);
                    }
                    first = false;
                }
                assert(s@ == prefix + join(parts, ", "@) && first == (parts.len() == 0));
                if fin {
                    if !first {
                        s.append(", ");
                    }
                    s.append("FIN");
                    proof {
                        lemma_join_push(parts, ", "@, "FIN"@);
                        parts = parts.push("FIN"@);
                    }
                    first = false;
                }
                assert(s@ == prefix + join(parts, ", "@) && first == (parts.len() == 0));
                if syn {
                    if !first {
                        s.append(", ");
                    }
                    s.append("SYN");
                    proof {
                        lemma_join_push(parts, ", "@, "SYN"@);
                        parts = parts.push("SYN"@);
                    }
                }
                assert(parts =~= duplicated_names(abrt, fin, syn));
                s
            },
            Issue::NoChunks => String::from_str("empty chunk list"),
        }
    }
}

impl ValidationError {
    /// The issues found.
    pub closed spec fn spec_issues(&self) -> Seq<Issue> {
        self.issues@
    }

    /// Constructs a new validation error from the given, non-empty list of issues.
    pub fn new(issues: Vec<Issue>) -> (e: Self)
        requires
            issues@.len() > 0,
        ensures
            e.spec_issues() == issues@,
    {
        Self { issues }
    }

    /// Obtains the underlying issues.
    pub fn issues(&self) -> (r: &[Issue])
        ensures
            r@ == self.spec_issues(),
    {
        self.issues.as_slice()
    }

    /// The human-readable description of the error: its issues, one after
    /// the other.
    pub fn to_string(&self) -> (s: String)
        ensures
            s@ == "segment validation failed: "@ + join(
                self.spec_issues().map_values(|i: Issue| issue_text(i)),
                "; "@,
            ),
    {
        let mut s = String::from_str("segment validation failed: ");
        let ghost prefix = s@;
        let ghost texts = self.spec_issues().map_values(|i: Issue| issue_text(i));
        let mut i: usize = 0;
        while i < self.issues.len()
            invariant
                i <= texts.len(),
                texts == self.spec_issues().map_values(|i: Issue| issue_text(i)),
                s@ == prefix + join(texts.take(i as int), "; "@),
            decreases texts.len() - i,
        {
            let text = self.issues[i].to_string();
            if i > 0 {
                s.append("; ");
            }
            s.append(text.as_str());
            proof {
                lemma_join_push(texts.take(i as int), "; "@, texts[i as int]);
                assert(texts.take(i as int).push(texts[i as int]) =~= texts.take(i + 1));
            }
            i = i + 1;
        }
        assert(texts.take(i as int) =~= texts);
        s
    }
}

} // verus!
