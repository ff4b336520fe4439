use sutp::chunk::{Chunk, CompressionAlgorithm, ReadError, BINARY_OVERHEAD};

fn read(data: &[u8]) -> Chunk {
    Chunk::read_from(data).unwrap().unwrap().0
}

#[test]
fn chunk_binary_len() {
    assert_eq!(BINARY_OVERHEAD, Chunk::Abort.binary_len());
    assert_eq!(BINARY_OVERHEAD, Chunk::Fin.binary_len());
    assert_eq!(BINARY_OVERHEAD, Chunk::Syn.binary_len());

    assert_eq!(BINARY_OVERHEAD + 4, Chunk::Payload(vec![1]).binary_len());
    assert_eq!(BINARY_OVERHEAD + 4, Chunk::Unknown(10, vec![1]).binary_len());
    assert_eq!(BINARY_OVERHEAD + 24, Chunk::Sack(14, vec![1, 2, 3, 4, 5]).binary_len());
}

#[test]
fn deserialize_compression_negotiation() {
    let data = vec![
        0x0, 0xa0, 0x0, 0xc, 0x0, 0x0, 0x0, 0x1, 0x0, 0x0, 0x0, 0xa, 0x0, 0x0, 0x0, 0x4,
    ];

    assert_eq!(
        read(&data),
        Chunk::CompressionNegotiation(vec![
            CompressionAlgorithm::Gzip,
            CompressionAlgorithm::Unknown(10),
            CompressionAlgorithm::Snappy,
        ]),
    );
}

#[test]
fn deserialize_compression_negotiation_zero_length() {
    let data = vec![0x0, 0xa0, 0x0, 0x0];
    assert_eq!(read(&data), Chunk::CompressionNegotiation(Vec::new()));
}

#[test]
fn deserialize_flag_chunks() {
    fn deserialize_flag_chunk(ty: u8, should: Chunk) {
        // Check the base case
        let data = vec![0x0, ty, 0x0, 0x0];
        assert_eq!(read(&data), should);

        // (Technically) incorrect lengths parse the same, since the chunk is
        // padded to multiples of 32 bits.
        let data = vec![
            vec![0x0, ty, 0x0, 0x1, 0x0, 0x0, 0x0, 0x0],
            vec![0x0, ty, 0x0, 0x2, 0x0, 0x0, 0x0, 0x0],
            vec![0x0, ty, 0x0, 0x3, 0x0, 0x0, 0x0, 0x0],
            vec![0x0, ty, 0x0, 0x4, 0x0, 0x0, 0x0, 0x0],
        ];
        for cur in data.into_iter() {
            assert_eq!(read(&cur), should);
        }
    }

    deserialize_flag_chunk(0x1, Chunk::Syn);
    deserialize_flag_chunk(0x2, Chunk::Fin);
    deserialize_flag_chunk(0x3, Chunk::Abort);
}

#[test]
fn deserialize_payload() {
    let data = vec![0x0, 0x0, 0x0, 0x4, 0x1, 0x2, 0x3, 0x4];
    assert_eq!(read(&data), Chunk::Payload(vec![0x1, 0x2, 0x3, 0x4]));
}

#[test]
fn deserialize_payload_empty() {
    let data = vec![0x0, 0x0, 0x0, 0x0];
    assert_eq!(read(&data), Chunk::Payload(Vec::new()));
}

#[test]
fn deserialize_sack_chunk() {
    let data = vec![
        0x0, 0x4, 0x0, 0xc, 0x0, 0x0, 0x0, 0x4, 0x0, 0x0, 0x0, 0x6, 0x0, 0x0, 0x0, 0x5,
    ];
    assert_eq!(read(&data), Chunk::Sack(4, vec![6, 5]));
}

#[test]
#[should_panic]
fn deserialize_sack_chunk_zero_length() {
    let data = vec![0x0, 0x4, 0x0, 0x0];
    read(&data);
}

#[test]
#[should_panic]
fn deserialize_sack_chunk_invalid_length() {
    let data = vec![0x0, 0x4, 0x0, 0x4];
    read(&data);
}

#[test]
fn deserialize_sack_chunk_empty_nak_list() {
    let data = vec![0x0, 0x4, 0x0, 0x4, 0x0, 0x0, 0x0, 0x4];
    assert_eq!(read(&data), Chunk::Sack(4, Vec::new()));
}

#[test]
fn serialize_compression_negotiation() {
    let mut buf = Vec::new();
    let algorithms = vec![CompressionAlgorithm::Snappy, CompressionAlgorithm::Gzip];

    Chunk::CompressionNegotiation(algorithms).write_to(&mut buf);

    let expected = &[0x0, 0xa0, 0x0, 0x8, 0x0, 0x0, 0x0, 0x4, 0x0, 0x0, 0x0, 0x1];
    assert_eq!(&buf, expected);
}

#[test]
fn serialize_compression_negotiation_empty() {
    let mut buf = Vec::new();
    Chunk::CompressionNegotiation(Vec::new()).write_to(&mut buf);

    let expected = &[0x0, 0xa0, 0x0, 0x0];
    assert_eq!(&buf, expected);
}

#[test]
fn serialize_flag_chunks() {
    fn serialize_flag_chunk(ch: Chunk, expected_type: u8) {
        let mut buf = vec![];
        ch.write_to(&mut buf);

        assert_eq!(&buf, &[0x0, expected_type, 0x0, 0x0]);
    }

    serialize_flag_chunk(Chunk::Syn, 0x1);
    serialize_flag_chunk(Chunk::Fin, 0x2);
    serialize_flag_chunk(Chunk::Abort, 0x3);
}

#[test]
fn serialize_payload() {
    let mut buf = Vec::new();
    let payload = vec![0x0, 0x0, 0x1, 0x1];

    Chunk::Payload(payload).write_to(&mut buf);

    let expected = &[0x0, 0x0, 0x0, 0x4, 0x0, 0x0, 0x1, 0x1];
    assert_eq!(&buf, expected);
}

#[test]
fn serialize_payload_empty() {
    let mut buf = Vec::new();

    Chunk::Payload(Vec::new()).write_to(&mut buf);

    let expected = &[0x0, 0x0, 0x0, 0x0];
    assert_eq!(&buf, expected);
}

#[test]
fn serialize_sack_chunk() {
    let chunk = Chunk::Sack(4, vec![5, 6, 7]);

    let mut buf = Vec::new();
    chunk.write_to(&mut buf);

    let expected = &[
        0x0, 0x4, 0x0, 0x10, 0x0, 0x0, 0x0, 0x4, 0x0, 0x0, 0x0, 0x5, 0x0, 0x0, 0x0, 0x6, 0x0, 0x0,
        0x0, 0x7,
    ];
    assert_eq!(&buf, expected);
}

#[test]
fn serialize_sack_chunk_empty_nak_list() {
    let chunk = Chunk::Sack(17, Vec::new());

    let mut buf = Vec::new();
    chunk.write_to(&mut buf);

    let expected = &[0x0, 0x4, 0x0, 0x4, 0x0, 0x0, 0x0, 0x11];
    assert_eq!(&buf, expected);
}

#[test]
fn chunk_zero_input() {
    let data: Vec<u8> = vec![];
    assert!(Chunk::read_from(&data).unwrap().is_none());
}

#[test]
fn chunk_roundtrip_every_kind() {
    let chunks = vec![
        Chunk::Payload(vec![9, 8, 7, 6, 5]),
        Chunk::Syn,
        Chunk::Fin,
        Chunk::Abort,
        Chunk::Sack(0xdead_beef, vec![1, 0xffff_ffff]),
        Chunk::CompressionNegotiation(vec![CompressionAlgorithm::Unknown(77)]),
        Chunk::SecurityFlag(true),
        Chunk::SecurityFlag(false),
        Chunk::Unknown(0x1234, vec![1, 2, 3]),
    ];
    for ch in chunks {
        let mut buf = vec![];
        ch.write_to(&mut buf);
        assert_eq!(buf.len(), ch.binary_len());
        assert_eq!(buf.len() % 4, 0);
        buf.extend_from_slice(&[0xaa, 0xbb]);
        let (back, used) = Chunk::read_from(&buf).unwrap().unwrap();
        assert_eq!(back, ch);
        assert_eq!(used, ch.binary_len());
    }
}

#[test]
fn chunk_security_flag_bytes() {
    let mut buf = vec![];
    Chunk::SecurityFlag(true).write_to(&mut buf);
    assert_eq!(buf, vec![0x0, 0xfe, 0x0, 0x1, 0x1, 0x0, 0x0, 0x0]);
    assert_eq!(Chunk::SecurityFlag(true).binary_len(), 8);
}

#[test]
fn chunk_read_errors() {
    // A payload longer than the data.
    assert_eq!(Chunk::read_from(&[0x0, 0x0, 0x0, 0x8, 0x1]), Err(ReadError::UnexpectedEof));
    // A payload whose padding is cut off.
    assert_eq!(Chunk::read_from(&[0x0, 0x0, 0x0, 0x1, 0x1]), Err(ReadError::UnexpectedEof));
    // List lengths that are not multiples of four.
    assert_eq!(Chunk::read_from(&[0x0, 0x4, 0x0, 0x3, 0, 0, 0, 0]), Err(ReadError::SackLength));
    assert_eq!(
        Chunk::read_from(&[0x0, 0xa0, 0x0, 0x2, 0, 0, 0, 0]),
        Err(ReadError::CompressionListLength)
    );
    // Fewer than four bytes mark the end of a chunk list.
    assert_eq!(Chunk::read_from(&[0x0, 0x1, 0x0]), Ok(None));
}

#[test]
fn chunk_read_would_panic() {
    assert!(Chunk::read_would_panic(&[0x0, 0x4, 0x0, 0x0]));
    assert!(!Chunk::read_would_panic(&[0x0, 0x4, 0x0, 0x4]));
    assert!(Chunk::read_would_panic(&[0x0, 0xfe, 0x0, 0x8, 0x1]));
    assert!(!Chunk::read_would_panic(&[0x0, 0x1, 0x0, 0x0]));
}

#[test]
fn chunk_predicates_and_padding() {
    assert!(Chunk::Abort.is_abrt());
    assert!(Chunk::CompressionNegotiation(vec![]).is_compression_negotiation());
    assert!(Chunk::Fin.is_fin());
    assert!(Chunk::Payload(vec![]).is_payload());
    assert!(Chunk::Sack(0, vec![]).is_sack());
    assert!(Chunk::SecurityFlag(false).is_security_flag());
    assert!(Chunk::Syn.is_syn());
    assert!(Chunk::Unknown(9, vec![]).is_unknown());
    assert!(!Chunk::Syn.is_fin());
    assert_eq!(Chunk::calculate_padding(0), 0);
    assert_eq!(Chunk::calculate_padding(1), 3);
    assert_eq!(Chunk::calculate_padding(6), 2);
}

#[test]
fn compression_algorithm_numbers() {
    assert_eq!(CompressionAlgorithm::from_u32(1), CompressionAlgorithm::Gzip);
    assert_eq!(CompressionAlgorithm::from_u32(4), CompressionAlgorithm::Snappy);
    assert_eq!(CompressionAlgorithm::from_u32(7), CompressionAlgorithm::Unknown(7));
    assert_eq!(CompressionAlgorithm::Gzip.to_u32(), 1);
    assert_eq!(CompressionAlgorithm::Snappy.to_u32(), 4);
    assert_eq!(CompressionAlgorithm::Unknown(9).to_u32(), 9);
    assert!(CompressionAlgorithm::Gzip.is_known());
    assert!(!CompressionAlgorithm::Unknown(3).is_known());
    assert_eq!(
        CompressionAlgorithm::Snappy.into_chunk(),
        Chunk::CompressionNegotiation(vec![CompressionAlgorithm::Snappy])
    );
    assert_eq!(
        sutp::chunk::supported_compression_algs(),
        vec![CompressionAlgorithm::Snappy, CompressionAlgorithm::Gzip]
    );
}

#[test]
fn compression_algorithm_from_conversions() {
    assert_eq!(CompressionAlgorithm::from(1u32), CompressionAlgorithm::Gzip);
    assert_eq!(CompressionAlgorithm::from(4u32), CompressionAlgorithm::Snappy);
    assert_eq!(CompressionAlgorithm::from(9u32), CompressionAlgorithm::Unknown(9));
    assert_eq!(u32::from(CompressionAlgorithm::Snappy), 4);
    assert_eq!(u32::from(CompressionAlgorithm::Unknown(77)), 77);
}
