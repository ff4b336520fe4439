use sutp::chunk::{Chunk, CompressionAlgorithm, ReadError};
use sutp::segment::{AckNak, Issue, Segment, SegmentBuilder, ValidationError, BINARY_OVERHEAD};

fn all_kinds_segment() -> Segment {
    SegmentBuilder::new()
        .seq_no(1)
        .window_size(2)
        .with_chunk(Chunk::Syn)
        .with_chunk(Chunk::Abort)
        .with_chunk(Chunk::Sack(4, vec![5, 6, 7]))
        .with_chunk(Chunk::CompressionNegotiation(vec![CompressionAlgorithm::Gzip]))
        .with_chunk(Chunk::Payload(Vec::new()))
        .with_chunk(Chunk::SecurityFlag(false))
        .with_chunk(Chunk::Fin)
        .build()
}

#[test]
fn segment_binary_len() {
    let sq_empty = SegmentBuilder::new().seq_no(20).window_size(10).build();
    assert_eq!(sq_empty.binary_len(), BINARY_OVERHEAD);

    let sq_1_ch = SegmentBuilder::new()
        .seq_no(20)
        .window_size(10)
        .with_chunk(Chunk::Syn)
        .build();

    assert_eq!(sq_1_ch.binary_len(), BINARY_OVERHEAD + 4);
}

#[test]
fn builder() {
    let sq = SegmentBuilder::new()
        .seq_no(20)
        .window_size(10)
        .with_chunk(Chunk::Syn)
        .build();

    let expected = Segment {
        chunks: vec![Chunk::Syn],
        seq_no: 20,
        window_size: 10,
    };

    assert_eq!(sq, expected);
}

#[test]
fn deserialize_multiple() {
    let segment = all_kinds_segment();

    let mut buf = Vec::new();

    segment.write_to(&mut buf);
    let written = buf.len();
    assert!(written > 0);
    segment.write_to(&mut buf);

    assert!(buf.len() > 0);

    // Split the buffer because segment parsing reads until the end
    let (part_a, part_b) = buf.split_at(written);

    assert_eq!(segment, Segment::read_from(part_a).unwrap());
    assert_eq!(segment, Segment::read_from(part_b).unwrap());
}

#[test]
fn illegal_duplication_invalid() {
    let segment = SegmentBuilder::new()
        .seq_no(1)
        .window_size(1)
        .with_chunk(Chunk::Syn)
        .with_chunk(Chunk::Syn)
        .with_chunk(Chunk::Abort)
        .with_chunk(Chunk::Abort)
        .with_chunk(Chunk::Fin)
        .with_chunk(Chunk::Fin)
        .build();

    assert_eq!(
        Some(Issue::DuplicatedChunks {
            abrt: true,
            fin: true,
            syn: true,
        }),
        segment.check_illegal_duplication()
    );
}

#[test]
fn illegal_duplication_valid() {
    let segment = SegmentBuilder::new()
        .seq_no(1)
        .window_size(1)
        .with_chunk(Chunk::Syn)
        .with_chunk(Chunk::Abort)
        .with_chunk(Chunk::Fin)
        .build();

    assert_eq!(None, segment.check_illegal_duplication());
}

#[test]
fn select_compression_negotiation() {
    let segment = SegmentBuilder::new()
        .seq_no(1)
        .window_size(1)
        .with_chunk(Chunk::CompressionNegotiation(vec![
            CompressionAlgorithm::Gzip,
            CompressionAlgorithm::Snappy,
        ]))
        .build();

    assert_eq!(segment.select_compression_alg(), Some(CompressionAlgorithm::Gzip),);
}

#[test]
fn select_compression_negotiation_mixed() {
    let segment = SegmentBuilder::new()
        .seq_no(1)
        .window_size(1)
        .with_chunk(Chunk::CompressionNegotiation(vec![
            CompressionAlgorithm::Unknown(100),
            CompressionAlgorithm::Snappy,
        ]))
        .build();

    assert_eq!(segment.select_compression_alg(), Some(CompressionAlgorithm::Snappy),);
}

#[test]
fn select_compression_negotiation_empty() {
    let segment = SegmentBuilder::new()
        .seq_no(1)
        .window_size(1)
        .with_chunk(Chunk::CompressionNegotiation(Vec::new()))
        .build();

    assert!(segment.select_compression_alg().is_none());
}

#[test]
fn select_compression_negotiation_unknown() {
    let segment = SegmentBuilder::new()
        .seq_no(1)
        .window_size(1)
        .with_chunk(Chunk::CompressionNegotiation(vec![CompressionAlgorithm::Unknown(100)]))
        .build();

    assert!(segment.select_compression_alg().is_none());
}

#[test]
fn serde() {
    let segment = all_kinds_segment();
    let serialized_segment = segment.to_vec();

    assert_eq!(segment, Segment::read_from(&serialized_segment).unwrap(),);
}

/// Ensure we cannot read data from nothing.
#[test]
fn segment_zero_input() {
    let data: Vec<u8> = Vec::new();

    match Segment::read_from(&data) {
        Ok(_) => panic!("Read segment from empty data."),
        Err(ref e) if *e != ReadError::UnexpectedEof => panic!("Unexpected error kind"),
        _ => {}
    }
}

#[test]
fn segment_binary_len_matches_bytes() {
    let segment = all_kinds_segment();
    assert_eq!(segment.to_vec().len(), segment.binary_len());
}

#[test]
fn segment_crc_mismatch() {
    let segment = SegmentBuilder::new().seq_no(5).window_size(6).with_chunk(Chunk::Fin).build();
    let mut bytes = segment.to_vec();
    let last = bytes.len() - 5;
    bytes[last] ^= 0xff;
    match Segment::read_from(&bytes) {
        Err(ReadError::CrcMismatch { got, wanted }) => assert_ne!(got, wanted),
        other => panic!("unexpected {:?}", other),
    }
}

#[test]
fn segment_ack_and_nak() {
    let segment = SegmentBuilder::new()
        .seq_no(1)
        .window_size(1)
        .with_chunk(Chunk::Sack(10, vec![7, 12]))
        .build();
    assert!(segment.ack(5).is_ack());
    assert!(segment.ack(10).is_ack());
    assert!(segment.ack(7).is_nak());
    assert!(segment.ack(12).is_nak());
    assert!(!segment.ack(11).is_known());
    assert_eq!(segment.ack(11), AckNak(None));
    assert!(!segment.ack(11).is_ack() && !segment.ack(11).is_nak());
}

#[test]
fn segment_classification() {
    let syn1 = SegmentBuilder::new().seq_no(3).window_size(1).with_chunk(Chunk::Syn).build();
    assert!(syn1.is_syn1());
    assert!(!syn1.is_just_sack());
    let syn2 = SegmentBuilder::new()
        .seq_no(9)
        .window_size(1)
        .with_chunk(Chunk::Syn)
        .with_chunk(Chunk::Sack(3, vec![]))
        .build();
    assert!(!syn2.is_syn1());
    assert!(syn2.is_syn2_and_acks(3));
    assert!(!syn2.is_syn2_and_acks(4));
    let ack_only = SegmentBuilder::new()
        .seq_no(10)
        .window_size(1)
        .with_chunk(Chunk::Sack(3, vec![]))
        .build();
    assert!(ack_only.is_just_sack());
    assert!(!ack_only.needs_ack());
    assert!(syn1.needs_ack());
}

#[test]
fn segment_validation() {
    let empty = SegmentBuilder::new().seq_no(1).window_size(1).build();
    let err = empty.validate().unwrap_err();
    assert_eq!(err.issues(), &[Issue::NoChunks]);

    let conflict = SegmentBuilder::new()
        .seq_no(1)
        .window_size(1)
        .with_chunk(Chunk::Abort)
        .with_chunk(Chunk::Syn)
        .build();
    assert_eq!(conflict.check_conflicts(), Some(Issue::Conflict));
    assert_eq!(conflict.validate().unwrap_err().issues(), &[Issue::Conflict]);

    let only_abort = SegmentBuilder::new().seq_no(1).window_size(1).with_chunk(Chunk::Abort).build();
    assert_eq!(only_abort.validate(), Ok(()));

    let e = ValidationError::new(vec![Issue::NoChunks, Issue::Conflict]);
    assert_eq!(e.issues(), &[Issue::NoChunks, Issue::Conflict]);

    let bytes = empty.to_vec();
    match Segment::read_from_and_validate(&bytes) {
        Err(ReadError::Invalid(e)) => assert_eq!(e.issues(), &[Issue::NoChunks]),
        other => panic!("unexpected {:?}", other),
    }
    let bytes = only_abort.to_vec();
    assert_eq!(Segment::read_from_and_validate(&bytes).unwrap(), only_abort);
}

#[test]
fn segment_read_would_panic() {
    // A segment whose only chunk is a SACK chunk with an empty list, followed
    // by nothing, sends the reader past the end of the data.
    let mut raw = vec![0, 0, 0, 1, 0, 0, 0, 2, 0x0, 0x4, 0x0, 0x0];
    let crc = {
        let mut c = flate2::Crc::new();
        c.update(&raw);
        c.sum()
    };
    raw.extend_from_slice(&crc.to_be_bytes());
    assert!(Segment::read_would_panic(&raw));
    let good = SegmentBuilder::new().seq_no(1).window_size(1).with_chunk(Chunk::Fin).build();
    assert!(!Segment::read_would_panic(&good.to_vec()));
}

#[test]
fn issue_and_validation_error_text() {
    assert_eq!(Issue::Conflict.to_string(), "conflicting chunks");
    assert_eq!(Issue::NoChunks.to_string(), "empty chunk list");
    assert_eq!(
        Issue::DuplicatedChunks { abrt: true, fin: false, syn: true }.to_string(),
        "duplicated ABRT, SYN"
    );
    assert_eq!(
        Issue::DuplicatedChunks { abrt: false, fin: true, syn: false }.to_string(),
        "duplicated FIN"
    );
    let err = ValidationError::new(vec![Issue::NoChunks, Issue::Conflict]);
    assert_eq!(
        err.to_string(),
        "segment validation failed: empty chunk list; conflicting chunks"
    );
}
