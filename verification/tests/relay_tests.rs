//! Tests of the frame pump.
use ssh_broker::protocol::{
    read_one_frame, write_frame, ExitCode, FrameHeader, FrameKind, FrameReader, Handshake,
    ProtocolError, ReadEvent, ReadScript, Resize, Stream, TransportError,
};
use ssh_broker::relay::{
    keeps_watching, pump_buffered, pump_decode, pump_read, pump_until_peer_gone, write_data,
    FrameSink, Outcome, PumpError, PumpStep, SinkError, TestSink,
};

fn interrupted() -> ReadEvent {
    ReadEvent::Interrupted(TransportError("interrupted".into()))
}

fn whole(wire: Vec<u8>) -> ReadScript {
    ReadScript::new(vec![ReadEvent::Bytes(wire)])
}

fn bytewise(wire: &[u8]) -> ReadScript {
    ReadScript::new(wire.iter().map(|b| ReadEvent::Bytes(vec![*b])).collect())
}

fn pump(wire: Vec<u8>) -> (Result<Outcome, PumpError>, TestSink) {
    let mut sink = TestSink::default();
    let result = pump_decode(&mut whole(wire), &mut FrameReader::new(), &mut sink);
    (result, sink)
}

#[test]
fn data_and_exit_roundtrip() {
    let mut wire = Vec::new();
    write_data(&mut wire, Stream::Stdout, b"out").unwrap();
    write_frame(&mut wire, FrameKind::Exit, &ExitCode(7).encode()).unwrap();
    let (outcome, sink) = pump(wire);
    assert_eq!(outcome, Ok(Outcome::Exited(7)));
    assert_eq!(sink.stdout, b"out");
    assert!(sink.stderr.is_empty());
}

#[test]
fn exit_propagates_high_bit_code() {
    let mut wire = Vec::new();
    write_frame(&mut wire, FrameKind::Exit, &ExitCode(0xC000_0142u32 as i32).encode()).unwrap();
    let (outcome, _) = pump(wire);
    assert_eq!(outcome, Ok(Outcome::Exited(0xC000_0142u32 as i32)));
}

#[test]
fn peer_closed_without_exit_is_distinct_from_exit_zero() {
    let mut wire = Vec::new();
    write_data(&mut wire, Stream::Stdout, b"partial").unwrap();
    let (outcome, sink) = pump(wire);
    assert_eq!(outcome, Ok(Outcome::PeerClosed));
    assert_eq!(sink.stdout, b"partial");
}

#[test]
fn stderr_stream_kept_separate() {
    let mut wire = Vec::new();
    write_data(&mut wire, Stream::Stdout, b"O").unwrap();
    write_data(&mut wire, Stream::Stderr, b"E").unwrap();
    write_frame(&mut wire, FrameKind::Exit, &ExitCode(0).encode()).unwrap();
    let (outcome, sink) = pump(wire);
    assert_eq!(outcome, Ok(Outcome::Exited(0)));
    assert_eq!(sink.stdout, b"O");
    assert_eq!(sink.stderr, b"E");
}

#[test]
fn resize_frame_dispatched() {
    let mut wire = Vec::new();
    write_frame(&mut wire, FrameKind::Resize, &Resize { cols: 120, rows: 40 }.encode()).unwrap();
    write_frame(&mut wire, FrameKind::Exit, &ExitCode(0).encode()).unwrap();
    let (outcome, sink) = pump(wire);
    assert_eq!(outcome, Ok(Outcome::Exited(0)));
    assert_eq!(sink.resizes, vec![Resize { cols: 120, rows: 40 }]);
}

#[test]
fn pump_decode_errors_on_truncation_at_eof() {
    // Header claims 10 payload bytes; only 2 are sent, then EOF.
    let mut wire = FrameHeader {
        kind: FrameKind::Data,
        len: 10,
    }
    .encode()
    .to_vec();
    wire.extend_from_slice(&[Stream::Stdout as u8, b'x']);
    let (result, _) = pump(wire);
    assert!(
        result.is_err(),
        "truncated stream must error, got {result:?} instead of a truncation error"
    );
}

#[test]
fn pump_decode_errors_on_handshake_midstream() {
    let mut wire = Vec::new();
    // A HANDSHAKE frame is illegal once the stream is running.
    write_frame(&mut wire, FrameKind::Handshake, b"\x00").unwrap();
    let (result, _) = pump(wire);
    assert_eq!(
        result,
        Err(PumpError::Protocol(ProtocolError::UnexpectedHandshake))
    );
}

#[test]
fn pump_decode_continues_from_handshake_readers_residual() {
    // The SAME FrameReader is handed to pump_decode: pipelined DATA must not be lost.
    let mut wire = Vec::new();
    write_frame(
        &mut wire,
        FrameKind::Handshake,
        &Handshake::pty_default().encode().unwrap(),
    )
    .unwrap();
    write_data(&mut wire, Stream::Stdout, b"after-handshake").unwrap();
    write_frame(&mut wire, FrameKind::Exit, &ExitCode(0).encode()).unwrap();
    let mut rx = whole(wire);
    let mut fr = FrameReader::new();
    let hs = read_one_frame(&mut rx, &mut fr).unwrap();
    assert_eq!(hs.kind, FrameKind::Handshake);
    let mut sink = TestSink::default();
    let outcome = pump_decode(&mut rx, &mut fr, &mut sink).unwrap();
    assert_eq!(outcome, Outcome::Exited(0));
    assert_eq!(sink.stdout, b"after-handshake");
}

#[test]
fn pump_decode_errors_on_empty_data_payload() {
    // A DATA frame with no stream tag at all is malformed.
    let mut wire = Vec::new();
    write_frame(&mut wire, FrameKind::Data, &[]).unwrap();
    let (result, _) = pump(wire);
    assert_eq!(result, Err(PumpError::Protocol(ProtocolError::MissingStreamTag)));
}

#[test]
fn pump_decode_errors_on_bad_stream_tag() {
    let mut wire = Vec::new();
    write_frame(&mut wire, FrameKind::Data, &[9, b'x']).unwrap(); // tag 9 is invalid
    let (result, _) = pump(wire);
    assert_eq!(result, Err(PumpError::Protocol(ProtocolError::BadStreamTag(9))));
}

#[test]
fn pump_decode_accepts_tag_only_data_as_empty_write() {
    let mut wire = Vec::new();
    write_frame(&mut wire, FrameKind::Data, &[Stream::Stdout as u8]).unwrap();
    write_frame(&mut wire, FrameKind::Exit, &ExitCode(0).encode()).unwrap();
    let (outcome, sink) = pump(wire);
    assert_eq!(outcome, Ok(Outcome::Exited(0)));
    assert!(sink.stdout.is_empty());
}

#[test]
fn pump_decode_errors_on_truncated_exit_payload() {
    // EXIT needs a 4-byte code; a short payload must error, not silently misreport.
    let mut wire = Vec::new();
    write_frame(&mut wire, FrameKind::Exit, &[0, 0]).unwrap();
    let (result, _) = pump(wire);
    assert_eq!(result, Err(PumpError::Protocol(ProtocolError::ShortExit(2))));
}

#[test]
fn pump_decode_errors_on_short_resize_payload() {
    let mut wire = Vec::new();
    write_frame(&mut wire, FrameKind::Resize, &[1, 2, 3]).unwrap();
    let (result, _) = pump(wire);
    assert_eq!(result, Err(PumpError::Protocol(ProtocolError::ShortResize(3))));
}

/// A sink that refuses every frame and counts the attempts.
struct FailingSink {
    calls: usize,
}

impl FrameSink for FailingSink {
    fn on_data(&mut self, _stream: Stream, _bytes: &[u8]) -> Result<(), SinkError> {
        self.calls += 1;
        Err(SinkError("the relayed command closed its own stdin".into()))
    }
    fn on_resize(&mut self, _size: Resize) -> Result<(), SinkError> {
        Ok(())
    }
}

/// A sink failure must be reported as a sink failure, not as a lost peer.
#[test]
fn a_failing_sink_is_not_reported_as_the_peer_going_away() {
    let mut wire = Vec::new();
    write_data(&mut wire, Stream::Stdin, b"hello").unwrap();
    let err = pump_decode(
        &mut whole(wire),
        &mut FrameReader::new(),
        &mut FailingSink { calls: 0 },
    )
    .expect_err("the sink fails");
    assert!(
        matches!(err, PumpError::Sink(_)),
        "a sink failure must be classified as Sink, got {err:?}"
    );
    assert!(!err.peer_gone(), "a sink failure says nothing about the peer");
    assert_eq!(
        err.message(),
        "sink failed: the relayed command closed its own stdin"
    );
}

/// A stream cut mid-frame is the peer going away, not a local problem.
#[test]
fn a_truncated_frame_is_reported_as_the_peer_going_away() {
    let mut wire = FrameHeader {
        kind: FrameKind::Data,
        len: 4,
    }
    .encode()
    .to_vec();
    wire.extend_from_slice(b"xx");
    let (result, _) = pump(wire);
    let err = result.expect_err("truncated");
    assert!(
        matches!(err, PumpError::Protocol(_)),
        "a truncated stream must be classified as Protocol, got {err:?}"
    );
    assert_eq!(err, PumpError::Protocol(ProtocolError::Truncated(7)));
    assert!(err.peer_gone(), "a truncated stream means the peer is gone");
}

/// A clean close with no EXIT frame is still the peer going away.
#[test]
fn a_clean_close_without_exit_is_peer_closed() {
    let outcome = pump_decode(
        &mut ReadScript::new(vec![]),
        &mut FrameReader::new(),
        &mut TestSink::default(),
    )
    .expect("clean EOF");
    assert_eq!(outcome, Outcome::PeerClosed);
}

/// `Interrupted` is retried, not reported as a lost peer.
#[test]
fn an_interrupted_read_is_retried_not_treated_as_a_lost_peer() {
    let mut framed = Vec::new();
    write_frame(&mut framed, FrameKind::Exit, &ExitCode(7).encode()).unwrap();
    let mut r = ReadScript::new(vec![interrupted(), ReadEvent::Bytes(framed)]);

    let mut fr = FrameReader::new();
    let outcome =
        pump_decode(&mut r, &mut fr, &mut TestSink::default()).expect("interrupted is retried");
    assert_eq!(
        outcome,
        Outcome::Exited(7),
        "the queued exit code must survive the signal"
    );
}

/// A transport failure that does not clear by itself is `Transport`, and the peer is gone.
#[test]
fn a_broken_transport_is_reported_as_the_peer_going_away() {
    let mut broken = ReadScript::new(vec![ReadEvent::Failed(TransportError(
        "connection reset".into(),
    ))]);
    let mut fr = FrameReader::new();
    let err = pump_decode(&mut broken, &mut fr, &mut TestSink::default()).expect_err("broken");
    assert!(
        matches!(err, PumpError::Transport(_)),
        "a fatal read failure must be classified as Transport, got {err:?}"
    );
    assert!(err.peer_gone(), "a broken transport means the peer is gone");
    assert_eq!(err.message(), "transport read failed: connection reset");
}

/// A sink failure stops delivery, never watching.
#[test]
fn pump_until_peer_gone_keeps_watching_after_a_sink_failure() {
    let mut first = Vec::new();
    write_data(&mut first, Stream::Stdin, b"breaks the sink").unwrap();
    let mut second = Vec::new();
    write_data(&mut second, Stream::Stdin, b"arrives anyway").unwrap();

    let mut reads = ReadScript::new(vec![
        ReadEvent::Bytes(first),
        ReadEvent::Bytes(second),
        ReadEvent::Bytes(vec![]),
    ]);
    let mut sink = FailingSink { calls: 0 };
    pump_until_peer_gone(&mut reads, &mut FrameReader::new(), &mut sink);

    assert_eq!(
        reads.remaining(),
        0,
        "the pump must keep reading to end-of-stream; stopping at the sink failure hides the disconnect"
    );
    assert_eq!(sink.calls, 1, "delivery must stop at the first sink failure");
}

/// A working sink receives every frame, and the pump returns at end-of-stream rather than after
/// the first one.
#[test]
fn pump_until_peer_gone_delivers_every_frame_to_a_working_sink() {
    let mut framed = Vec::new();
    write_data(&mut framed, Stream::Stdout, b"one").unwrap();
    write_data(&mut framed, Stream::Stdout, b"two").unwrap();
    let mut sink = TestSink::default();
    pump_until_peer_gone(&mut whole(framed), &mut FrameReader::new(), &mut sink);
    assert_eq!(sink.stdout, b"onetwo");
}

#[test]
fn chunking_does_not_change_what_is_delivered() {
    let mut wire = Vec::new();
    write_data(&mut wire, Stream::Stdout, b"first").unwrap();
    write_frame(&mut wire, FrameKind::Resize, &Resize { cols: 1, rows: 2 }.encode()).unwrap();
    write_data(&mut wire, Stream::Stderr, b"second").unwrap();
    write_frame(&mut wire, FrameKind::Exit, &ExitCode(-1).encode()).unwrap();
    let (outcome, sink) = pump(wire.clone());
    let mut split = TestSink::default();
    let again = pump_decode(&mut bytewise(&wire), &mut FrameReader::new(), &mut split);
    assert_eq!(outcome, Ok(Outcome::Exited(-1)));
    assert_eq!(again, outcome);
    assert_eq!(split.stdout, sink.stdout);
    assert_eq!(split.stderr, b"second");
    assert_eq!(split.resizes, vec![Resize { cols: 1, rows: 2 }]);
}

#[test]
fn pump_steps_say_when_to_read() {
    let mut fr = FrameReader::new();
    let mut sink = TestSink::default();
    assert!(matches!(pump_buffered(&mut fr, &mut sink), PumpStep::Read));
    let mut wire = Vec::new();
    write_data(&mut wire, Stream::Pty, b"x").unwrap();
    assert!(pump_read(&mut fr, ReadEvent::Bytes(wire)).is_none());
    assert!(pump_read(&mut fr, interrupted()).is_none());
    assert!(matches!(pump_buffered(&mut fr, &mut sink), PumpStep::Read));
    assert_eq!(sink.stdout, b"x");
    assert_eq!(
        pump_read(&mut fr, ReadEvent::Bytes(vec![])),
        Some(Ok(Outcome::PeerClosed))
    );
}

#[test]
fn write_data_refuses_what_no_frame_can_hold() {
    let mut wire = Vec::new();
    let big = vec![0u8; 1 << 20];
    assert_eq!(
        write_data(&mut wire, Stream::Stdout, &big),
        Err(ProtocolError::PayloadTooLarge((1 << 20) + 1))
    );
    assert!(wire.is_empty());
    write_data(&mut wire, Stream::Stdout, &big[1..]).unwrap();
    assert_eq!(wire.len(), 5 + (1 << 20));
}

/// The steps that a caller with a transport of its own drives.
#[test]
fn a_session_comes_through_a_transport_in_pieces() {
    let mut wire = Vec::new();
    write_data(&mut wire, Stream::Stdout, &[0, 255, 10]).unwrap();
    write_data(&mut wire, Stream::Stderr, b"err").unwrap();
    write_frame(&mut wire, FrameKind::Resize, &Resize { cols: 100, rows: 40 }.encode()).unwrap();
    write_frame(&mut wire, FrameKind::Exit, &ExitCode(-3).encode()).unwrap();
    let mut fr = FrameReader::new();
    let mut sink = TestSink::default();
    let mut pieces = wire.chunks(3);
    let outcome = loop {
        if let PumpStep::Done(result) = pump_buffered(&mut fr, &mut sink) {
            break result;
        }
        let piece = pieces.next().unwrap_or_default().to_vec();
        if let Some(result) = pump_read(&mut fr, ReadEvent::Bytes(piece)) {
            break result;
        }
    };
    assert_eq!(outcome, Ok(Outcome::Exited(-3)));
    assert_eq!(sink.stdout, [0, 255, 10]);
    assert_eq!(sink.stderr, b"err");
    assert_eq!(sink.resizes, vec![Resize { cols: 100, rows: 40 }]);
}

/// Only a failed sink leaves a peer to be watched.
#[test]
fn watching_goes_on_only_after_a_sink_failure() {
    assert!(keeps_watching(&Err(PumpError::Sink(SinkError("full".into())))));
    assert!(!keeps_watching(&Err(PumpError::Transport(TransportError("gone".into())))));
    assert!(!keeps_watching(&Err(PumpError::Protocol(ProtocolError::MissingStreamTag))));
    assert!(!keeps_watching(&Ok(Outcome::PeerClosed)));
    assert!(!keeps_watching(&Ok(Outcome::Exited(0))));
}
