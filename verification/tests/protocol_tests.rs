//! Tests of the frame codec and the handshake.
use ssh_broker::protocol::{
    accept_read, read_one_frame, write_frame, ExitCode, FrameHeader, FrameKind, FrameReader,
    Handshake, Mode, ProtocolError, ReadEvent, ReadScript, Resize, Stream, TransportError,
    MAX_FRAME, PROTOCOL_VERSION,
};

#[test]
fn header_roundtrips() {
    let h = FrameHeader {
        kind: FrameKind::Data,
        len: 5,
    };
    let bytes = h.encode();
    // u8 kind + u32-LE len
    assert_eq!(bytes, [FrameKind::Data as u8, 5, 0, 0, 0]);
    assert_eq!(FrameHeader::decode(&bytes).unwrap(), h);
}

#[test]
fn stream_tag_roundtrips() {
    for s in [Stream::Pty, Stream::Stdin, Stream::Stdout, Stream::Stderr] {
        assert_eq!(Stream::from_u8(s as u8).unwrap(), s);
        assert_eq!(s.to_u8(), s as u8);
    }
    assert!(Stream::from_u8(99).is_none());
}

#[test]
fn resize_payload_roundtrips() {
    let r = Resize { cols: 120, rows: 40 };
    assert_eq!(Resize::decode(&r.encode()).unwrap(), r);
}

#[test]
fn resize_decode_rejects_short() {
    assert!(Resize::decode(&[1, 2, 3]).is_err());
}

#[test]
fn exit_payload_roundtrips() {
    assert_eq!(ExitCode::decode(&ExitCode(3).encode()).unwrap(), ExitCode(3));
}

#[test]
fn exit_code_preserves_high_bit() {
    let raw: u32 = 0xC000_0142;
    let code = ExitCode(raw as i32); // negative as i32
    let decoded = ExitCode::decode(&code.encode()).unwrap();
    assert_eq!(decoded, code);
    // The bits survive the round-trip back to u32.
    assert_eq!(decoded.0 as u32, raw);
}

#[test]
fn exit_code_decode_rejects_short() {
    assert!(ExitCode::decode(&[0, 0, 0]).is_err());
}

#[test]
fn handshake_roundtrips() {
    let h = Handshake {
        version: PROTOCOL_VERSION,
        mode: Mode::Pty,
        cols: 100,
        rows: 30,
        term: "xterm-256color".into(),
        cwd: "C:\\Users\\example".into(),
        command: None,
        env: vec![("LANG".into(), "C".into())],
    };
    let bytes = h.encode().unwrap();
    assert_eq!(Handshake::decode(&bytes).unwrap(), h);
}

#[test]
fn handshake_exec_carries_command() {
    let h = Handshake {
        mode: Mode::Exec,
        command: Some("git status".into()),
        ..Handshake::pty_default()
    };
    assert_eq!(
        Handshake::decode(&h.encode().unwrap()).unwrap().command.as_deref(),
        Some("git status")
    );
}

#[test]
fn handshake_decode_rejects_version_mismatch() {
    let mut h = Handshake::pty_default();
    h.version = PROTOCOL_VERSION + 1;
    let bytes = h.encode().unwrap();
    assert!(
        Handshake::decode(&bytes).is_err(),
        "decode must reject a foreign protocol version"
    );
    assert_eq!(
        Handshake::decode(&bytes),
        Err(ProtocolError::VersionMismatch(2))
    );
}

#[test]
fn handshake_bytes_are_exact() {
    // Varints, then texts behind their length, an optional text behind a tag, a list behind its
    // length.
    let h = Handshake {
        version: 1,
        mode: Mode::Exec,
        cols: 300,
        rows: 24,
        term: "x".into(),
        cwd: "\u{e9}".into(),
        command: Some("ls".into()),
        env: vec![("A".into(), "".into())],
    };
    assert_eq!(
        h.encode().unwrap(),
        vec![
            1, 1, 0xac, 0x02, 24, 1, b'x', 2, 0xc3, 0xa9, 1, 2, b'l', b's', 1, 1, b'A', 0
        ]
    );
    let mut none = Handshake::pty_default();
    none.term = String::new();
    assert_eq!(none.encode().unwrap(), vec![1, 0, 80, 24, 0, 0, 0, 0]);
}

#[test]
fn handshake_ignores_trailing_bytes_and_rejects_garbage() {
    let h = Handshake::pty_default();
    let mut bytes = h.encode().unwrap();
    bytes.extend_from_slice(b"trailing");
    assert_eq!(Handshake::decode(&bytes).unwrap(), h);
    let cut = ProtocolError::BadHandshake("Hit the end of buffer, expected more data".into());
    assert_eq!(cut.message(), "Hit the end of buffer, expected more data");
    assert_eq!(Handshake::decode(&[]), Err(cut.clone()));
    assert_eq!(Handshake::decode(&[1]), Err(cut));
    assert_eq!(
        Handshake::decode(&[1, 0, 80, 24, 1, 0xff, 0, 0, 0]),
        Err(ProtocolError::BadHandshake("Tried to parse invalid utf-8".into()))
    );
    // A mode that does not exist.
    assert_eq!(
        Handshake::decode(&[1, 2, 80, 24, 0, 0, 0, 0]),
        Err(ProtocolError::BadMode)
    );
    assert_eq!(ProtocolError::BadMode.message(), "Serde Deserialization Error");
    // It is refused whatever follows: nothing at all, or a term that is no text.
    assert_eq!(Handshake::decode(&[1, 2]), Err(ProtocolError::BadMode));
    assert_eq!(
        Handshake::decode(&[9, 2, 80, 24, 1, 0xff]),
        Err(ProtocolError::BadMode)
    );
    // A foreign version is looked at only once every field is read.
    assert_eq!(
        Handshake::decode(&[9, 0, 80, 24, 1, 0xff]),
        Err(ProtocolError::BadHandshake("Tried to parse invalid utf-8".into()))
    );
}

#[test]
fn handshake_from_wire_checks_mode_before_version() {
    let wire = |version: u16, mode: u32| {
        (
            version,
            mode,
            80u16,
            24u16,
            String::from("t"),
            String::new(),
            None,
            Vec::new(),
        )
    };
    assert_eq!(Handshake::from_wire(wire(9, 7)), Err(ProtocolError::BadMode));
    assert_eq!(Handshake::from_wire(wire(9, 0)), Err(ProtocolError::VersionMismatch(9)));
    let h = Handshake::from_wire(wire(1, 1)).unwrap();
    assert_eq!(h.mode, Mode::Exec);
    assert_eq!(h.term, "t");
}

#[test]
fn reader_reassembles_split_frames() {
    let mut wire = Vec::new();
    write_frame(&mut wire, FrameKind::Data, &[Stream::Stdout as u8, b'h', b'i']).unwrap();
    write_frame(&mut wire, FrameKind::Exit, &ExitCode(0).encode()).unwrap();

    let mut reader = FrameReader::new();
    let mut out = Vec::new();
    for byte in wire {
        // one byte at a time = worst-case fragmentation
        reader.push(&[byte]);
        while let Some(frame) = reader.next_frame().unwrap() {
            out.push(frame);
        }
    }
    assert_eq!(out.len(), 2);
    assert_eq!(out[0].kind, FrameKind::Data);
    assert_eq!(out[0].payload, vec![Stream::Stdout as u8, b'h', b'i']);
    assert_eq!(out[1].kind, FrameKind::Exit);
    assert_eq!(out[1].payload, ExitCode(0).encode().to_vec());
}

#[test]
fn reader_handles_multiple_frames_in_one_push() {
    let mut wire = Vec::new();
    write_frame(&mut wire, FrameKind::Data, b"\x02ab").unwrap();
    write_frame(&mut wire, FrameKind::Data, b"\x02cd").unwrap();
    let mut reader = FrameReader::new();
    reader.push(&wire);
    assert_eq!(reader.next_frame().unwrap().unwrap().payload, b"\x02ab");
    assert_eq!(reader.next_frame().unwrap().unwrap().payload, b"\x02cd");
    assert!(reader.next_frame().unwrap().is_none());
}

#[test]
fn reader_returns_none_when_incomplete() {
    let mut reader = FrameReader::new();
    // header claims 3 payload bytes, only 1 supplied
    reader.push(&[FrameKind::Data as u8, 3, 0, 0, 0, b'a']);
    assert!(reader.next_frame().unwrap().is_none());
    reader.push(b"bc");
    assert_eq!(reader.next_frame().unwrap().unwrap().payload, b"abc");
}

#[test]
fn reader_rejects_bad_kind_in_stream() {
    let mut reader = FrameReader::new();
    reader.push(&[9, 0, 0, 0, 0]); // bad kind byte
    assert!(reader.next_frame().is_err());
    assert_eq!(reader.buffered_len(), 5);
}

#[test]
fn header_decode_rejects_bad_kind() {
    assert!(FrameHeader::decode(&[9, 0, 0, 0, 0]).is_err());
}

#[test]
fn header_decode_rejects_oversize_len() {
    let len = (MAX_FRAME + 1).to_le_bytes();
    assert!(FrameHeader::decode(&[FrameKind::Data as u8, len[0], len[1], len[2], len[3]]).is_err());
}

#[test]
fn header_decode_accepts_the_longest_frame() {
    let len = MAX_FRAME.to_le_bytes();
    let h = FrameHeader::decode(&[3, len[0], len[1], len[2], len[3]]).unwrap();
    assert_eq!(h, FrameHeader { kind: FrameKind::Exit, len: 1 << 20 });
}

#[test]
fn write_frame_rejects_oversize_payload() {
    let big = vec![0u8; (MAX_FRAME as usize) + 1];
    let mut sink = Vec::new();
    assert!(write_frame(&mut sink, FrameKind::Data, &big).is_err());
    assert!(sink.is_empty());
}

/// A script that hands out at most `chunk` bytes per read.
fn chunked(data: Vec<u8>, chunk: usize) -> ReadScript {
    ReadScript::new(
        data.chunks(chunk)
            .map(|c| ReadEvent::Bytes(c.to_vec()))
            .collect(),
    )
}

#[test]
fn read_one_frame_leaves_pipelined_bytes_for_reuse() {
    // One write: a HANDSHAKE frame immediately followed by a DATA frame.
    let mut wire = Vec::new();
    let hs = Handshake::pty_default();
    write_frame(&mut wire, FrameKind::Handshake, &hs.encode().unwrap()).unwrap();
    write_frame(&mut wire, FrameKind::Data, &[Stream::Pty as u8, b'x']).unwrap();

    let mut conn = ReadScript::new(vec![ReadEvent::Bytes(wire)]);
    let mut fr = FrameReader::new();

    // Consumes only the handshake...
    let f1 = read_one_frame(&mut conn, &mut fr).unwrap();
    assert_eq!(f1.kind, FrameKind::Handshake);
    assert_eq!(Handshake::decode(&f1.payload).unwrap(), hs);

    // ...and the DATA frame is still available via the SAME FrameReader.
    let f2 = read_one_frame(&mut conn, &mut fr).unwrap();
    assert_eq!(f2.kind, FrameKind::Data);
    assert_eq!(f2.payload, vec![Stream::Pty as u8, b'x']);
}

#[test]
fn read_one_frame_reassembles_across_reads() {
    let mut wire = Vec::new();
    write_frame(&mut wire, FrameKind::Data, b"\x00hello").unwrap();
    let mut conn = chunked(wire, 1); // one byte per read
    let mut fr = FrameReader::new();
    let f = read_one_frame(&mut conn, &mut fr).unwrap();
    assert_eq!(f.payload, b"\x00hello");
}

#[test]
fn read_one_frame_errors_on_eof_before_complete() {
    let mut wire = Vec::new();
    write_frame(&mut wire, FrameKind::Data, b"\x00abc").unwrap();
    wire.truncate(3); // chop mid-frame, then EOF
    let mut conn = ReadScript::new(vec![ReadEvent::Bytes(wire)]);
    let mut fr = FrameReader::new();
    assert!(read_one_frame(&mut conn, &mut fr).is_err());
}

#[test]
fn read_one_frame_reports_each_read_error() {
    let read = |event: ReadEvent| {
        let mut conn = ReadScript::new(vec![event]);
        read_one_frame(&mut conn, &mut FrameReader::new())
    };
    let interrupted = TransportError("Interrupted system call".into());
    assert_eq!(
        read(ReadEvent::Interrupted(interrupted.clone())),
        Err(ProtocolError::Read(interrupted.clone()))
    );
    assert_eq!(ProtocolError::Read(interrupted).message(), "Interrupted system call");
    assert_eq!(read(ReadEvent::Bytes(vec![])), Err(ProtocolError::UnexpectedEof));
    assert_eq!(
        read(ReadEvent::Failed(TransportError("gone".into()))),
        Err(ProtocolError::Read(TransportError("gone".into())))
    );
    assert_eq!(
        read(ReadEvent::Bytes(vec![7, 0, 0, 0, 0])),
        Err(ProtocolError::BadFrameKind(7))
    );
    let mut fr = FrameReader::default();
    accept_read(&mut fr, ReadEvent::Bytes(vec![1, 2])).unwrap();
    assert_eq!(fr.buffered_len(), 2);
}

#[test]
fn protocol_errors_say_what_happened() {
    assert_eq!(ProtocolError::ShortHeader(3).message(), "short header: 3 < 5");
    assert_eq!(ProtocolError::BadFrameKind(9).message(), "bad frame kind 9");
    assert_eq!(
        ProtocolError::FrameTooLarge(1048577).message(),
        "frame too large: 1048577 > 1048576"
    );
    assert_eq!(ProtocolError::ShortResize(0).message(), "short resize payload: 0");
    assert_eq!(ProtocolError::ShortExit(2).message(), "short exit payload: 2");
    assert_eq!(
        ProtocolError::PayloadTooLarge(1048580).message(),
        "payload too large: 1048580 > 1048576"
    );
    assert_eq!(
        ProtocolError::VersionMismatch(2).message(),
        "protocol version mismatch: peer 2 != ours 1"
    );
    assert_eq!(
        ProtocolError::Truncated(7).message(),
        "stream truncated: 7 buffered byte(s) without a complete frame"
    );
    assert_eq!(ProtocolError::BadStreamTag(255).message(), "bad stream tag 255");
    assert_eq!(
        ProtocolError::Read(TransportError("reset".into())).message(),
        "reset"
    );
}
