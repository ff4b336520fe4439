use std::io::Cursor;
use sutp::chunk::{Chunk, ReadError};
use sutp::codec::{CountingReader, SutpCodec};
use sutp::segment::SegmentBuilder;

#[test]
fn counting_read() {
    let data = Cursor::new(vec![1, 2, 3, 4, 5]);
    let mut reader = CountingReader::new(data);

    let mut target = vec![0; 10];
    assert_eq!(reader.read(&mut target).unwrap(), 5);
    assert_eq!(reader.count(), 5);
}

#[test]
fn counting_read_accumulates() {
    let data = Cursor::new(vec![1, 2, 3, 4, 5, 6, 7]);
    let mut reader = CountingReader::new(data);
    assert_eq!(reader.count(), 0);

    let mut target = vec![0; 3];
    assert_eq!(reader.read(&mut target).unwrap(), 3);
    assert_eq!(target, vec![1, 2, 3]);
    assert_eq!(reader.read(&mut target).unwrap(), 3);
    assert_eq!(target, vec![4, 5, 6]);
    assert_eq!(reader.read(&mut target).unwrap(), 1);
    assert_eq!(reader.read(&mut target).unwrap(), 0);
    assert_eq!(reader.count(), 7);
}

#[test]
fn codec_roundtrip() {
    let segment = SegmentBuilder::new()
        .seq_no(7)
        .window_size(1024)
        .with_chunk(Chunk::Syn)
        .with_chunk(Chunk::Payload(vec![1, 2, 3]))
        .build();

    let mut codec = SutpCodec;
    let mut buf = Vec::new();
    codec.encode(segment.clone(), &mut buf).unwrap();
    assert_eq!(buf, segment.to_vec());

    let decoded = codec.decode(&mut buf).unwrap();
    assert_eq!(decoded, Some(segment));
    assert!(buf.is_empty());
}

#[test]
fn codec_incomplete_and_corrupt() {
    let mut codec = SutpCodec;

    let mut short = vec![1, 2, 3];
    assert_eq!(codec.decode(&mut short).unwrap(), None);
    assert_eq!(short, vec![1, 2, 3]);

    let segment = SegmentBuilder::new()
        .seq_no(1)
        .window_size(2)
        .with_chunk(Chunk::Fin)
        .build();
    let mut bytes = segment.to_vec();
    let last = bytes.len() - 1;
    bytes[last] ^= 0xff;
    let kept = bytes.clone();
    match codec.decode(&mut bytes) {
        Err(ReadError::CrcMismatch { .. }) => {}
        other => panic!("unexpected result {:?}", other),
    }
    assert_eq!(bytes, kept);
}

#[test]
fn counting_read_counts_outcomes() {
    let mut reader = CountingReader::new(Cursor::new(vec![0u8; 4]));
    assert_eq!(reader.count_read(Ok(3)).unwrap(), 3);
    assert_eq!(reader.count(), 3);
    let failed = reader.count_read(Err(std::io::Error::new(std::io::ErrorKind::Other, "gone")));
    assert_eq!(failed.unwrap_err().kind(), std::io::ErrorKind::Other);
    assert_eq!(reader.count(), 3);
}
