use sutp::chunk::{Chunk, CompressionAlgorithm};
use sutp::driver::{route_segment, should_quit, Route};
use sutp::handshake::{Accept, Connect, Established, HandshakeStep, HANDSHAKE_WINDOW_SIZE};
use sutp::segment::{Segment, SegmentBuilder};
use sutp::stream::{
    FlushAction, Outgoing, StreamError, StreamState, SutpStream, BUF_SIZE, OUTGOING_PAYLOAD_SIZE,
};

fn decode(bytes: &[u8]) -> Segment {
    assert!(!Segment::read_would_panic(bytes));
    Segment::read_from_and_validate(bytes).unwrap()
}

/// Flushes every outgoing segment that is due and returns them, decoded.
fn flush(stream: &mut SutpStream) -> Vec<Segment> {
    stream.prepare_segments();
    let mut sent = Vec::new();
    for seq_no in stream.outgoing_keys() {
        match stream.flush_check(seq_no, false, false).unwrap() {
            FlushAction::Send(bytes) => {
                stream.mark_sent(seq_no);
                sent.push(decode(&bytes));
            }
            FlushAction::Skip => {}
            FlushAction::Stop => break,
        }
    }
    sent
}

/// Hands `segments` to `stream` and acknowledges them.
fn receive(stream: &mut SutpStream, segments: Vec<Segment>) {
    let drained = stream.absorb_segments(segments, false).unwrap();
    assert!(stream.nak_count() <= sutp::stream::MAX_NAKS);
    stream.acknowledge(&drained);
}

fn read_all(stream: &mut SutpStream) -> Vec<u8> {
    let mut out = Vec::new();
    let mut buf = [0u8; 64];
    while let Some(n) = stream.read_buffered(&mut buf) {
        out.extend_from_slice(&buf[..n]);
    }
    out
}

fn data_segment(seq_no: u32, payload: &[u8]) -> Segment {
    SegmentBuilder::new()
        .seq_no(seq_no)
        .window_size(1024)
        .with_chunk(Chunk::Payload(payload.to_vec()))
        .build()
}

/// Sets up a connected pair of streams through the handshake.
fn connected_pair() -> (SutpStream, SutpStream) {
    let connect = Connect::with_seq_no(100);
    let syn1 = decode(connect.init_segment_buf());
    assert!(syn1.is_syn1());
    assert_eq!(route_segment(false, true, &Ok(syn1.clone())), Route::NewConnection);

    let mut accept = Accept::with_seq_no(500, &syn1);
    let answer = decode(accept.ack_segment());
    let established = match connect.on_response(&Ok(answer.clone())) {
        HandshakeStep::Established(e) => e,
        other => panic!("unexpected step {:?}", other),
    };
    assert_eq!(
        established,
        Established {
            local_seq_no: 100,
            remote_seq_no: 500,
            remote_window_size: HANDSHAKE_WINDOW_SIZE,
            compression_algorithm: Some(CompressionAlgorithm::Snappy),
        }
    );

    let mut client = SutpStream::create(
        established.local_seq_no,
        established.remote_seq_no,
        established.remote_window_size,
        established.compression_algorithm,
    );
    receive(&mut client, vec![answer]);
    let third = flush(&mut client);
    assert_eq!(third.len(), 1);
    assert_eq!(third[0].seq_no, 101);
    assert_eq!(third[0].chunks, vec![Chunk::Sack(500, vec![])]);

    let accepted = match accept.on_response(&Ok(third[0].clone())) {
        HandshakeStep::Established(e) => e,
        other => panic!("unexpected step {:?}", other),
    };
    assert_eq!(accepted.local_seq_no, 500);
    assert_eq!(accepted.remote_seq_no, 101);
    assert_eq!(accepted.compression_algorithm, Some(CompressionAlgorithm::Snappy));

    let mut server = SutpStream::create(
        accepted.local_seq_no,
        accepted.remote_seq_no,
        accepted.remote_window_size,
        accepted.compression_algorithm,
    );
    receive(&mut server, third);
    // A segment with just a SACK chunk is not ACKed.
    assert!(server.outgoing_keys().is_empty());
    (client, server)
}

#[test]
fn stream_handshake_transfer_and_shutdown() {
    let (mut client, mut server) = connected_pair();

    assert_eq!(client.poll_write(b"Hello"), Ok(Some(5)));
    let sent = flush(&mut client);
    // The SACK of the handshake waits for its resend timer.
    assert_eq!(sent.len(), 1);
    assert_eq!(sent[0].seq_no, 102);
    assert_eq!(sent[0].chunks, vec![Chunk::Payload(b"Hello".to_vec())]);

    receive(&mut server, sent);
    assert_eq!(read_all(&mut server), b"Hello".to_vec());

    // The server ACKs everything up to the data segment.
    let acks = flush(&mut server);
    assert_eq!(acks.len(), 1);
    assert_eq!(acks[0].seq_no, 501);
    assert_eq!(acks[0].chunks, vec![Chunk::Sack(102, vec![])]);
    receive(&mut client, acks);
    assert!(client.outgoing_keys().is_empty());

    // Shutdown: FIN from the client closes the server's receiving half.
    assert!(!client.shutdown_step());
    assert_eq!(client.state(), StreamState::FinSent);
    let fin = flush(&mut client);
    assert_eq!(fin.len(), 1);
    assert_eq!(fin[0].chunks, vec![Chunk::Fin]);
    receive(&mut server, fin);
    assert_eq!(server.state(), StreamState::FinRecvd);
    let mut buf = [0u8; 8];
    assert_eq!(server.read_when_closed(&mut buf), Some(0));

    // The server shuts down in turn; its FIN closes the client.
    assert!(!server.shutdown_step());
    assert_eq!(server.state(), StreamState::LastBreath);
    let server_out = flush(&mut server);
    assert_eq!(server_out.len(), 2);
    assert_eq!(server_out[0].chunks, vec![Chunk::Sack(103, vec![])]);
    assert_eq!(server_out[1].chunks, vec![Chunk::Fin]);
    receive(&mut client, server_out);
    assert_eq!(client.state(), StreamState::Closed);
    assert!(client.shutdown_step());

    assert!(!server.shutdown_step());
    assert_eq!(server.state(), StreamState::Closed);
    assert!(server.shutdown_step());
    assert_eq!(server.poll_write(b"x"), Err(StreamError::NotConnected));
    assert_eq!(server.assert_can_flush(), Err(StreamError::NotConnected));
}

#[test]
fn stream_large_write_is_split_in_order() {
    let (mut client, mut server) = connected_pair();
    let data: Vec<u8> = (0..2500u32).map(|i| (i % 251) as u8).collect();
    assert_eq!(client.poll_write(&data), Ok(Some(2500)));
    let sent = flush(&mut client);
    let payloads: Vec<&Segment> = sent
        .iter()
        .filter(|s| matches!(s.chunks[0], Chunk::Payload(_)))
        .collect();
    assert_eq!(payloads.len(), 3);
    assert_eq!(payloads[0].seq_no, 102);
    assert_eq!(payloads[1].seq_no, 103);
    assert_eq!(payloads[2].seq_no, 104);
    let sizes: Vec<usize> = payloads
        .iter()
        .map(|s| match &s.chunks[0] {
            Chunk::Payload(p) => p.len(),
            _ => 0,
        })
        .collect();
    assert_eq!(sizes, vec![OUTGOING_PAYLOAD_SIZE, OUTGOING_PAYLOAD_SIZE, 452]);
    // The window announced is the free space of the write buffer.
    assert_eq!(payloads[0].window_size as usize, BUF_SIZE - 2500);

    receive(&mut server, sent);
    assert_eq!(read_all(&mut server), data);
}

#[test]
fn stream_out_of_order_and_duplicates() {
    let mut stream = SutpStream::create(7, 10, 4096, None);
    // Segment 10 is expected first; 12 and 11 arrive before it.
    receive(&mut stream, vec![data_segment(12, b"c"), data_segment(11, b"b")]);
    assert!(read_all(&mut stream).is_empty());
    assert!(stream.outgoing_keys().is_empty());

    receive(&mut stream, vec![data_segment(10, b"a")]);
    assert_eq!(read_all(&mut stream), b"abc".to_vec());
    // One SACK, naming 12 as the highest consecutively received.
    assert_eq!(stream.outgoing_keys(), vec![8]);

    // A duplicate is dropped and not read twice.
    let drained = stream.absorb_segments(vec![data_segment(11, b"b")], false).unwrap();
    assert_eq!(drained.highest_seq_no, None);
    assert!(!drained.needs_ack);
    assert!(drained.has_recvd_segments);
    assert!(read_all(&mut stream).is_empty());
}

#[test]
fn stream_nak_when_window_overflows() {
    let mut stream = SutpStream::create(1, 0, 4096, None);
    let far = sutp::stream::ORDER_BUF_CAPACITY as u32;
    let drained = stream.absorb_segments(vec![data_segment(far, b"x")], false).unwrap();
    assert_eq!(stream.nak_count(), 1);
    assert_eq!(drained.highest_seq_no, None);
    // Delivering segment 0 calls for an ACK that NAKs the one too far ahead.
    receive(&mut stream, vec![data_segment(0, b"y")]);
    let acks = flush(&mut stream);
    assert_eq!(acks.len(), 1);
    assert_eq!(acks[0].chunks, vec![Chunk::Sack(0, vec![far])]);
}

#[test]
fn stream_abort_clears_everything() {
    let mut stream = SutpStream::create(1, 5, 4096, None);
    assert_eq!(stream.poll_write(b"pending"), Ok(Some(7)));
    stream.prepare_segments();
    assert_eq!(stream.outgoing_keys(), vec![2]);
    let abort = SegmentBuilder::new()
        .seq_no(5)
        .window_size(0)
        .with_chunk(Chunk::Abort)
        .build();
    assert_eq!(
        stream.absorb_segments(vec![abort], false),
        Err(StreamError::ConnectionAborted)
    );
    assert_eq!(stream.state(), StreamState::Closed);
    assert!(stream.outgoing_keys().is_empty());
}

#[test]
fn stream_driver_away() {
    let mut stream = SutpStream::create(1, 5, 4096, None);
    assert_eq!(
        stream.absorb_segments(vec![data_segment(5, b"z")], true),
        Err(StreamError::DriverAway)
    );
}

#[test]
fn stream_flush_respects_timers_and_window() {
    let mut stream = SutpStream::create(1, 5, 4, None);
    assert_eq!(stream.poll_write(b"abc"), Ok(Some(3)));
    stream.prepare_segments();
    // The serialized segment does not fit a remote window of four bytes.
    assert!(matches!(stream.flush_check(2, false, false), Ok(FlushAction::Stop)));
    // An unknown sequence number is skipped.
    assert!(matches!(stream.flush_check(99, false, false), Ok(FlushAction::Skip)));

    let mut wide = SutpStream::create(1, 5, 4096, None);
    assert_eq!(wide.poll_write(b"abc"), Ok(Some(3)));
    wide.prepare_segments();
    assert!(matches!(wide.flush_check(2, false, false), Ok(FlushAction::Send(_))));
    wide.mark_sent(2);
    // The resend timer runs: nothing to do until it elapses.
    assert!(matches!(wide.flush_check(2, false, false), Ok(FlushAction::Skip)));
    assert!(matches!(wide.flush_check(2, false, true), Ok(FlushAction::Send(_))));
    // An elapsed failure timer closes the stream.
    assert_eq!(wide.flush_check(2, true, false).err(), Some(StreamError::TimedOut));
    assert_eq!(wide.state(), StreamState::Closed);
}

#[test]
fn stream_nak_triggers_resend() {
    let mut stream = SutpStream::create(1, 5, 4096, None);
    assert_eq!(stream.poll_write(b"abc"), Ok(Some(3)));
    stream.prepare_segments();
    stream.mark_sent(2);
    assert!(matches!(stream.flush_check(2, false, false), Ok(FlushAction::Skip)));
    let nak = SegmentBuilder::new()
        .seq_no(5)
        .window_size(4096)
        .with_chunk(Chunk::Sack(1, vec![2]))
        .build();
    receive(&mut stream, vec![nak]);
    assert_eq!(stream.outgoing_keys(), vec![2]);
    assert!(matches!(stream.flush_check(2, false, false), Ok(FlushAction::Send(_))));
}

#[test]
fn stream_write_buffer_fills_up() {
    let mut stream = SutpStream::create(1, 5, 4096, None);
    let big = vec![7u8; BUF_SIZE + 10];
    assert_eq!(stream.poll_write(&big), Ok(Some(BUF_SIZE)));
    assert_eq!(stream.poll_write(b"more"), Ok(None));
    assert_eq!(stream.poll_write(b""), Ok(Some(0)));
}

#[test]
fn stream_sequence_numbers_wrap() {
    let mut stream = SutpStream::create(u32::MAX, 5, 4096, None);
    assert_eq!(stream.get_seq_no(), 0);
    assert_eq!(stream.get_seq_no(), 1);
}

#[test]
fn stream_fill_buf_partial() {
    let mut stream = SutpStream::create(1, 5, 4096, None);
    receive(&mut stream, vec![data_segment(5, b"abcdef")]);
    let mut small = [0u8; 4];
    assert_eq!(stream.fill_buf(&mut small), 4);
    assert_eq!(&small, b"abcd");
    assert_eq!(stream.read_buffered(&mut small), Some(2));
    assert_eq!(&small[..2], b"ef");
    assert_eq!(stream.read_buffered(&mut small), None);
    assert_eq!(stream.read_when_closed(&mut small), None);
}

#[test]
fn outgoing_timers() {
    let mut o = Outgoing::new(vec![1, 2, 3]);
    assert_eq!(o.should_send(true, false), Ok(true));
    o.start_timers();
    assert_eq!(o.should_send(false, false), Ok(false));
    assert_eq!(o.should_send(false, true), Ok(true));
    assert_eq!(o.should_send(true, false), Err(StreamError::TimedOut));
    o.send_immediately();
    assert!(o.fail_timeout_set);
    assert!(!o.resend_timeout_set);
}

#[test]
fn driver_routes_and_quits() {
    let syn1 = SegmentBuilder::new()
        .seq_no(1)
        .window_size(1)
        .with_chunk(Chunk::Syn)
        .build();
    let data = data_segment(2, b"x");
    assert_eq!(route_segment(true, false, &Ok(data.clone())), Route::Forward);
    assert_eq!(route_segment(false, true, &Ok(syn1.clone())), Route::NewConnection);
    assert_eq!(route_segment(false, false, &Ok(syn1)), Route::Discard);
    assert_eq!(route_segment(false, true, &Ok(data)), Route::Discard);
    assert_eq!(
        route_segment(false, true, &Err(sutp::chunk::ReadError::UnexpectedEof)),
        Route::Discard
    );
    assert!(should_quit(false, false, 0));
    assert!(!should_quit(true, false, 0));
    assert!(!should_quit(false, true, 0));
    assert!(!should_quit(false, false, 1));
}

#[test]
fn handshake_retries() {
    let connect = Connect::with_seq_no(10);
    // A read error and an answer that does not ACK the first segment are retried.
    assert_eq!(
        connect.on_response(&Err(sutp::chunk::ReadError::UnexpectedEof)),
        HandshakeStep::Resend
    );
    let wrong = SegmentBuilder::new()
        .seq_no(3)
        .window_size(1)
        .with_chunk(Chunk::Syn)
        .with_chunk(Chunk::Sack(9, vec![]))
        .build();
    assert_eq!(connect.on_response(&Ok(wrong)), HandshakeStep::Resend);

    let syn1 = decode(connect.init_segment_buf());
    let mut accept = Accept::with_seq_no(77, &syn1);
    assert_eq!(accept.local_seq_no(), 77);
    // A third segment out of sequence is answered again, expecting its successor.
    let stray = SegmentBuilder::new()
        .seq_no(40)
        .window_size(1)
        .with_chunk(Chunk::Sack(77, vec![]))
        .build();
    assert_eq!(accept.on_response(&Ok(stray)), HandshakeStep::Resend);
    let naking = SegmentBuilder::new()
        .seq_no(41)
        .window_size(1)
        .with_chunk(Chunk::Sack(10, vec![77]))
        .build();
    assert_eq!(accept.on_response(&Ok(naking)), HandshakeStep::Resend);
    let good = SegmentBuilder::new()
        .seq_no(41)
        .window_size(5)
        .with_chunk(Chunk::Sack(77, vec![]))
        .build();
    assert_eq!(
        accept.on_response(&Ok(good)),
        HandshakeStep::Established(Established {
            local_seq_no: 77,
            remote_seq_no: 41,
            remote_window_size: 5,
            compression_algorithm: Some(CompressionAlgorithm::Snappy),
        })
    );
    assert_eq!(
        accept.on_response(&Err(sutp::chunk::ReadError::UnexpectedEof)),
        HandshakeStep::Failed
    );
}

#[test]
fn handshake_random_sequence_numbers() {
    let connect = Connect::new();
    let syn1 = decode(connect.init_segment_buf());
    assert_eq!(syn1.seq_no, connect.local_seq_no());
    let accept = Accept::from_syn(&syn1);
    let answer = decode(accept.ack_segment());
    assert_eq!(answer.seq_no, accept.local_seq_no());
    assert!(answer.is_syn2_and_acks(connect.local_seq_no()));
}

#[test]
fn stream_reordered_batch_is_read_in_order() {
    let mut stream = SutpStream::create(3, 20, 4096, None);
    receive(
        &mut stream,
        vec![
            data_segment(22, b"ghi"),
            data_segment(20, b"abc"),
            data_segment(23, b"jk"),
            data_segment(21, b"def"),
        ],
    );
    assert_eq!(read_all(&mut stream), b"abcdefghijk".to_vec());
    let acks = flush(&mut stream);
    assert_eq!(acks.len(), 1);
    assert_eq!(acks[0].seq_no, 4);
    assert_eq!(acks[0].chunks, vec![Chunk::Sack(23, vec![])]);
}

#[test]
fn handshake_answer_without_syn_or_sack_aborts() {
    let connect = Connect::with_seq_no(10);
    let no_syn = SegmentBuilder::new()
        .seq_no(3)
        .window_size(1)
        .with_chunk(Chunk::Sack(10, vec![]))
        .build();
    assert_eq!(connect.on_response(&Ok(no_syn)), HandshakeStep::Abort);
    let no_sack = SegmentBuilder::new()
        .seq_no(3)
        .window_size(1)
        .with_chunk(Chunk::Syn)
        .build();
    assert_eq!(connect.on_response(&Ok(no_sack)), HandshakeStep::Abort);

    let abort = decode(&connect.abort_segment());
    assert_eq!(abort.seq_no, 11);
    assert_eq!(abort.window_size, HANDSHAKE_WINDOW_SIZE);
    assert_eq!(abort.chunks, vec![Chunk::Abort]);
}

#[test]
fn handshake_answer_with_invalid_compression_aborts() {
    let connect = Connect::with_seq_no(10);
    let answer = |algs: Vec<CompressionAlgorithm>| {
        SegmentBuilder::new()
            .seq_no(3)
            .window_size(1)
            .with_chunk(Chunk::Syn)
            .with_chunk(Chunk::Sack(10, vec![]))
            .with_chunk(Chunk::CompressionNegotiation(algs))
            .build()
    };
    let unknown = answer(vec![CompressionAlgorithm::Unknown(100)]);
    assert_eq!(connect.on_response(&Ok(unknown)), HandshakeStep::Abort);
    let two = answer(vec![CompressionAlgorithm::Snappy, CompressionAlgorithm::Gzip]);
    assert_eq!(connect.on_response(&Ok(two)), HandshakeStep::Abort);
    let gzip = answer(vec![CompressionAlgorithm::Gzip]);
    match connect.on_response(&Ok(gzip)) {
        HandshakeStep::Established(e) => {
            assert_eq!(e.compression_algorithm, Some(CompressionAlgorithm::Gzip));
            assert_eq!(e.remote_seq_no, 3);
        }
        other => panic!("unexpected step {:?}", other),
    }
    let empty = answer(vec![]);
    match connect.on_response(&Ok(empty)) {
        HandshakeStep::Established(e) => assert_eq!(e.compression_algorithm, None),
        other => panic!("unexpected step {:?}", other),
    }
}

#[test]
fn stream_window_shrinks_on_send_and_follows_announcements() {
    let mut stream = SutpStream::create(1, 5, 4096, None);
    assert_eq!(stream.poll_write(b"abc"), Ok(Some(3)));
    stream.prepare_segments();
    let len = match stream.flush_check(2, false, false) {
        Ok(FlushAction::Send(bytes)) => bytes.len(),
        other => panic!("unexpected action {:?}", other.is_ok()),
    };
    stream.mark_sent(2);
    assert_eq!(stream.remote_window_size() as usize, 4096 - len);
    // Marking an unknown sequence number changes nothing.
    stream.mark_sent(77);
    assert_eq!(stream.remote_window_size() as usize, 4096 - len);

    // The next in-order segment announces the remote window anew.
    let ack = SegmentBuilder::new()
        .seq_no(5)
        .window_size(9000)
        .with_chunk(Chunk::Sack(2, vec![]))
        .build();
    receive(&mut stream, vec![ack]);
    assert_eq!(stream.remote_window_size(), 9000);

    // A window smaller than a segment drops to zero.
    let mut narrow = SutpStream::create(1, 5, 10, None);
    assert_eq!(narrow.poll_write(b"abc"), Ok(Some(3)));
    narrow.prepare_segments();
    narrow.mark_sent(2);
    assert_eq!(narrow.remote_window_size(), 0);
}

#[test]
fn stream_delivers_each_segment_once_in_order() {
    let mut stream = SutpStream::create(3, 20, 4096, None);
    let two_chunks = SegmentBuilder::new()
        .seq_no(21)
        .window_size(1024)
        .with_chunk(Chunk::Payload(b"de".to_vec()))
        .with_chunk(Chunk::Payload(b"f".to_vec()))
        .build();
    // 22 waits behind the gap at 20; a copy of 22 arrives while it waits,
    // and 24 stays behind the gap at 23.
    receive(
        &mut stream,
        vec![data_segment(22, b"ghi"), data_segment(24, b"zz")],
    );
    assert!(read_all(&mut stream).is_empty());
    receive(
        &mut stream,
        vec![
            data_segment(22, b"XXX"),
            two_chunks,
            data_segment(20, b"abc"),
            data_segment(20, b"YYY"),
        ],
    );
    assert_eq!(read_all(&mut stream), b"abcdefghi".to_vec());
    // A copy of a segment taken out before is dropped.
    receive(&mut stream, vec![data_segment(21, b"QQ")]);
    assert!(read_all(&mut stream).is_empty());
    // Filling the gap releases 23 and the waiting 24.
    receive(&mut stream, vec![data_segment(23, b"jk")]);
    assert_eq!(read_all(&mut stream), b"jkzz".to_vec());
}

#[test]
fn stream_abort_behind_a_gap_waits_for_the_gap() {
    let mut stream = SutpStream::create(1, 10, 4096, None);
    assert_eq!(stream.poll_write(b"pending"), Ok(Some(7)));
    stream.prepare_segments();
    let abort = SegmentBuilder::new()
        .seq_no(12)
        .window_size(0)
        .with_chunk(Chunk::Abort)
        .build();
    // The ABRT segment waits behind the gap at 10.
    receive(&mut stream, vec![abort, data_segment(11, b"b")]);
    assert_eq!(stream.state(), StreamState::Open);
    assert_eq!(stream.outgoing_keys(), vec![2]);
    // Filling the gap releases it: the stream call fails, and everything is
    // dropped, the data that came before the ABRT chunk included.
    assert_eq!(
        stream.absorb_segments(vec![data_segment(10, b"a")], false),
        Err(StreamError::ConnectionAborted)
    );
    assert_eq!(stream.state(), StreamState::Closed);
    assert!(stream.outgoing_keys().is_empty());
    let mut buf = [0u8; 8];
    assert_eq!(stream.read_buffered(&mut buf), None);
}

#[test]
fn stream_fin_in_a_run_closes_the_receiving_half() {
    let mut stream = SutpStream::create(1, 10, 4096, None);
    let fin = SegmentBuilder::new()
        .seq_no(12)
        .window_size(64)
        .with_chunk(Chunk::Payload(b"c".to_vec()))
        .with_chunk(Chunk::Fin)
        .build();
    receive(&mut stream, vec![fin, data_segment(11, b"b"), data_segment(10, b"a")]);
    assert_eq!(stream.state(), StreamState::FinRecvd);
    assert_eq!(stream.remote_window_size(), 64);
    let mut buf = [0u8; 8];
    assert_eq!(stream.read_when_closed(&mut buf), Some(3));
    assert_eq!(&buf[..3], b"abc");
}
