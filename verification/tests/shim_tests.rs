//! Tests of the shim: the EXEC relay, the fail-open decision, the output filter and the sniffer.
use ssh_broker::protocol::{
    read_one_frame, write_frame, ExitCode, FrameKind, FrameReader, Handshake, Mode, ProtocolError,
    ReadEvent, ReadScript, Resize, Stream, TransportError, PROTOCOL_VERSION,
};
use ssh_broker::relay::{pump_decode, write_data, FrameSink, Outcome, PumpError, SinkError};
use ssh_broker::shim::{
    decide_fail_open, decide_fallback, is_transfer_command, make_handshake, map_outcome,
    normalize_exec, program_basename, run_exec_on, size_to_resize, split_command, ExecOutSink,
    FailOpen, Fallback, MouseModeSniffer, XtwinopsFilter,
};

/// Everything an EXEC session gave: the exit code, stdout, stderr and what went to the agent.
struct Session {
    code: i32,
    out: Vec<u8>,
    err: Vec<u8>,
    sent: Vec<u8>,
}

fn run(command: &str, agent: Vec<ReadEvent>, stdin: Vec<ReadEvent>) -> Session {
    let hs = Handshake {
        mode: Mode::Exec,
        command: Some(command.into()),
        ..Handshake::pty_default()
    };
    let mut sent = Vec::new();
    let mut out = Vec::new();
    let mut err = Vec::new();
    let code = run_exec_on(
        &mut ReadScript::new(agent),
        &mut sent,
        &hs,
        &mut out,
        &mut err,
        &mut ReadScript::new(stdin),
    )
    .unwrap();
    Session { code, out, err, sent }
}

#[test]
fn exec_shim_relays_streams_and_exit() {
    let mut agent = Vec::new();
    write_data(&mut agent, Stream::Stdout, b"OUT").unwrap();
    write_data(&mut agent, Stream::Stderr, b"ERR").unwrap();
    write_frame(&mut agent, FrameKind::Exit, &ExitCode(2).encode()).unwrap();
    let s = run("whatever", vec![ReadEvent::Bytes(agent)], vec![]);

    let mut fr = FrameReader::new();
    let mut sent = ReadScript::new(vec![ReadEvent::Bytes(s.sent)]);
    let frame = read_one_frame(&mut sent, &mut fr).unwrap();
    assert_eq!(frame.kind, FrameKind::Handshake);
    let hs = Handshake::decode(&frame.payload).unwrap();
    assert_eq!(hs.mode, Mode::Exec);
    assert_eq!(hs.command.as_deref(), Some("whatever"));

    assert_eq!(s.code, 2);
    assert_eq!(s.out, b"OUT");
    assert_eq!(s.err, b"ERR");
}

/// The EXEC relay must be byte-transparent: all 256 byte values, in chunks that do not align
/// with the value cycle.
#[test]
fn exec_relay_is_byte_clean_from_the_agent() {
    let payload: Vec<u8> = (0..=255u8).cycle().take(1024).collect();
    let chunks: Vec<Vec<u8>> = vec![
        payload[..1].to_vec(),
        payload[1..257].to_vec(),
        payload[257..].to_vec(),
    ];
    let mut agent = Vec::new();
    for c in &chunks {
        write_data(&mut agent, Stream::Stdout, c).unwrap();
    }
    // The same bytes on stderr: the streams stay separate and both stay clean.
    write_data(&mut agent, Stream::Stderr, &payload).unwrap();
    write_frame(&mut agent, FrameKind::Exit, &ExitCode(0).encode()).unwrap();
    let s = run("x", vec![ReadEvent::Bytes(agent)], vec![]);
    assert_eq!(s.code, 0);
    assert_eq!(s.out, payload, "stdout must round-trip every byte value unchanged");
    assert_eq!(s.err, payload, "stderr must round-trip too, and not merge into stdout");
}

/// Bytes the client sends must reach the agent unchanged, and the end of input is an empty frame.
#[test]
fn exec_relay_is_byte_clean_to_the_agent() {
    let payload: Vec<u8> = (0..=255u8).cycle().take(1024).collect();
    let mut agent = Vec::new();
    write_frame(&mut agent, FrameKind::Exit, &ExitCode(0).encode()).unwrap();
    let stdin = payload
        .chunks(300)
        .map(|c| ReadEvent::Bytes(c.to_vec()))
        .collect();
    let s = run("x", vec![ReadEvent::Bytes(agent)], stdin);

    let mut fr = FrameReader::new();
    let mut sent = ReadScript::new(vec![ReadEvent::Bytes(s.sent)]);
    let _ = read_one_frame(&mut sent, &mut fr).unwrap(); // the handshake
    let mut got = Vec::new();
    loop {
        let frame = read_one_frame(&mut sent, &mut fr).unwrap();
        assert_eq!(frame.kind, FrameKind::Data);
        assert_eq!(frame.payload[0], Stream::Stdin as u8, "only stdin flows upstream in EXEC");
        let bytes = &frame.payload[1..];
        if bytes.is_empty() {
            break; // the end-of-stdin marker
        }
        got.extend_from_slice(bytes);
    }
    assert_eq!(s.code, 0);
    assert_eq!(got, payload, "stdin must round-trip every byte value unchanged");
    assert_eq!(fr.buffered_len(), 0);
}

#[test]
fn exec_stdin_error_still_marks_the_end() {
    let mut agent = Vec::new();
    write_frame(&mut agent, FrameKind::Exit, &ExitCode(0).encode()).unwrap();
    let failed = ReadEvent::Failed(TransportError("closed".into()));
    let s = run(
        "x",
        vec![ReadEvent::Bytes(agent)],
        vec![ReadEvent::Bytes(b"a".to_vec()), failed, ReadEvent::Bytes(b"b".to_vec())],
    );
    // The marker is the last frame: kind DATA, one payload byte, the stdin tag.
    assert_eq!(&s.sent[s.sent.len() - 6..], &[1, 1, 0, 0, 0, 1]);
    assert_eq!(&s.sent[s.sent.len() - 13..s.sent.len() - 6], &[1, 2, 0, 0, 0, 1, b'a']);
}

#[test]
fn exec_refuses_a_handshake_that_no_frame_can_hold() {
    let hs = make_handshake(&Some("x".repeat(1 << 20)), "t".into(), 80, 24);
    let mut sent = Vec::new();
    let r = run_exec_on(
        &mut ReadScript::new(vec![]),
        &mut sent,
        &hs,
        &mut Vec::new(),
        &mut Vec::new(),
        &mut ReadScript::new(vec![]),
    );
    assert!(matches!(r, Err(ProtocolError::PayloadTooLarge(_))));
    assert!(sent.is_empty());
}

#[test]
fn exec_shim_dead_agent_is_255_not_command_failure() {
    let mut agent = Vec::new();
    write_data(&mut agent, Stream::Stdout, b"partial output").unwrap();
    let s = run("x", vec![ReadEvent::Bytes(agent)], vec![]);
    assert_eq!(s.code, 255, "a dead agent (no EXIT frame) must map to 255");
    assert_eq!(s.out, b"partial output");
}

#[test]
fn exec_shim_truncated_stream_is_254() {
    let s = run("x", vec![ReadEvent::Bytes(vec![2u8, 5, 0])], vec![]);
    assert_eq!(s.code, 254, "a truncated frame must map to 254");
}

#[test]
fn size_event_maps_to_resize_frame() {
    assert_eq!(size_to_resize(120, 40), Resize { cols: 120, rows: 40 });
}

#[test]
fn normalize_exec_trims_but_keeps_a_blank_command_an_exec() {
    assert_eq!(normalize_exec(Some("  cmd  ".into())), Some("cmd".into()));
    assert_eq!(
        normalize_exec(Some(" ".into())),
        Some(String::new()),
        "stays an exec"
    );
    assert_eq!(normalize_exec(None), None);
}

#[test]
fn boundary_is_narrower_than_unicode_whitespace() {
    assert_eq!(
        normalize_exec(Some("\u{a0}scp -t /p".into())),
        Some("\u{a0}scp -t /p".into())
    );
    assert_eq!(
        normalize_exec(Some("\r\n scp -t /p \t".into())),
        Some("scp -t /p".into())
    );
}

#[test]
fn exec_out_sink_flushes_each_frame() {
    // Streaming or binary output (no newlines) must reach the client immediately.
    let mut sink = ExecOutSink::new();
    sink.on_data(Stream::Stdout, b"binary-no-newline").unwrap();
    sink.on_data(Stream::Stderr, b"err-no-newline").unwrap();
    assert_eq!(sink.out.bytes, b"binary-no-newline");
    assert_eq!(sink.out.flushes.len(), 1, "stdout must flush after each frame");
    assert_eq!(sink.err.bytes, b"err-no-newline");
    assert_eq!(sink.err.flushes.len(), 1, "stderr must flush after each frame");
}

#[test]
fn fail_open_when_agent_unreachable() {
    assert_eq!(decide_fallback(true), Fallback::LocalShellWithWarning);
    assert_eq!(decide_fallback(false), Fallback::Relay);
}

/// A command runs DIRECTLY, and only an interactive session gets a shell.
#[test]
fn fail_open_runs_a_command_directly_and_only_interactive_gets_a_shell() {
    let cmd = r#"scp -t "C:\path with spaces\out.bin""#;
    assert_eq!(
        decide_fail_open(Some(cmd.to_string())),
        FailOpen::Passthrough(cmd.to_string()),
        "an EXEC command must run directly, byte for byte, never through a re-quoting shell"
    );
    assert_eq!(
        decide_fail_open(None),
        FailOpen::LocalShell,
        "an interactive session carries no command to run, so it gets pwsh"
    );
}

#[test]
fn split_command_respects_quotes() {
    assert_eq!(
        split_command("\"C:\\Program Files\\scp.exe\"  -t\t\"\" a\"b c\"d"),
        vec!["C:\\Program Files\\scp.exe", "-t", "", "ab cd"]
    );
    assert!(split_command(" \u{3000}\t").is_empty());
    assert_eq!(split_command("\"open end"), vec!["open end"]);
}

#[test]
fn program_basename_strips_directories_and_suffix() {
    assert_eq!(program_basename("C:\\Tools/SFTP-Server.EXE"), "sftp-server");
    assert_eq!(program_basename("scp"), "scp");
    assert_eq!(program_basename("dir\\"), "");
    assert_eq!(program_basename(".exe"), "");
}

#[test]
fn transfer_commands_are_recognized_by_shape() {
    assert!(is_transfer_command("internal-sftp"));
    assert!(is_transfer_command("\"C:\\Program Files\\OpenSSH\\sftp-server.exe\" -l INFO"));
    assert!(is_transfer_command("scp -r -t /tmp/x"));
    assert!(is_transfer_command("SCP.exe -f file"));
    // The flag must stand directly before the single trailing path.
    assert!(!is_transfer_command("scp -t"));
    assert!(!is_transfer_command("scp -t a b"));
    assert!(!is_transfer_command("scp a host:b"));
    assert!(!is_transfer_command("git status"));
    assert!(!is_transfer_command(""));
}

#[test]
fn xtwinops_filter_passes_plain_text_through() {
    let mut f = XtwinopsFilter::new();
    assert_eq!(f.filter(b"hello world"), b"hello world");
}

#[test]
fn xtwinops_filter_strips_window_manipulation() {
    let mut f = XtwinopsFilter::new();
    assert_eq!(f.filter(b"a\x1b[8;50;100tb"), b"ab");
}

#[test]
fn xtwinops_filter_preserves_other_csi() {
    let mut f = XtwinopsFilter::new();
    assert_eq!(f.filter(b"\x1b[31mred\x1b[0m"), b"\x1b[31mred\x1b[0m");
}

#[test]
fn xtwinops_filter_handles_sequence_split_across_reads() {
    let mut f = XtwinopsFilter::new();
    assert_eq!(f.filter(b"X\x1b[8;50"), b"X");
    assert_eq!(f.filter(b";100tY"), b"Y");

    // A non-XTWINOPS CSI split across reads is reassembled and emitted in full.
    let mut g = XtwinopsFilter::new();
    assert_eq!(g.filter(b"\x1b[3"), b"");
    assert_eq!(g.filter(b"1m!"), b"\x1b[31m!");
}

#[test]
fn xtwinops_filter_passes_non_csi_escape_through() {
    let mut f = XtwinopsFilter::default();
    assert_eq!(f.filter(b"\x1b]0;title\x07"), b"\x1b]0;title\x07");
}

#[test]
fn xtwinops_filter_releases_what_is_not_a_sequence() {
    let mut f = XtwinopsFilter::new();
    // Two escapes in a row: the first is released, the second starts a sequence.
    assert_eq!(f.filter(b"\x1b\x1b[1t!"), b"\x1b!");
    // A control byte breaks a sequence off, and an escape there starts a new one.
    assert_eq!(f.filter(b"\x1b[1\x07\x1b[2\x1b[3tz"), b"\x1b[1\x07\x1b[2z");
}

#[test]
fn map_outcome_exit_code_policy() {
    // A clean exit propagates verbatim.
    assert_eq!(map_outcome(Ok(Outcome::Exited(7))), 7);
    assert_eq!(map_outcome(Ok(Outcome::Exited(0))), 0);
    // A dead/abrupt peer is never 0; protocol errors get a distinct nonzero.
    assert_eq!(map_outcome(Ok(Outcome::PeerClosed)), 255);
    assert_eq!(
        map_outcome(Err(PumpError::Protocol(ProtocolError::Truncated(1)))),
        254
    );
}

#[test]
fn make_handshake_pty_fields() {
    let hs = make_handshake(&None, "screen-256color".into(), 100, 30);
    assert_eq!(hs.mode, Mode::Pty);
    assert_eq!(hs.command, None);
    assert_eq!((hs.cols, hs.rows), (100, 30));
    assert_eq!(hs.term, "screen-256color");
    assert!(hs.cwd.is_empty()); // agent uses the session-1 default cwd
    assert!(hs.env.is_empty()); // nothing forwarded in v1
    assert_eq!(hs.version, PROTOCOL_VERSION);
}

#[test]
fn make_handshake_exec_fields() {
    let hs = make_handshake(&Some("git status".into()), "xterm".into(), 80, 24);
    assert_eq!(hs.mode, Mode::Exec);
    assert_eq!(hs.command.as_deref(), Some("git status"));
}

#[test]
fn sniffer_requires_both_tracking_and_sgr() {
    let mut s = MouseModeSniffer::new();
    assert!(!s.forward_mouse());
    s.observe(b"\x1b[?1000h"); // tracking on, SGR still off
    assert!(s.tracking_on());
    assert!(!s.sgr_on());
    assert!(!s.forward_mouse());
    s.observe(b"\x1b[?1006h"); // SGR on, now both
    assert!(s.forward_mouse());
}

#[test]
fn sniffer_multi_param_single_csi() {
    let mut s = MouseModeSniffer::new();
    s.observe(b"\x1b[?1002;1006h"); // button-drag tracking + SGR in one sequence
    assert!(s.forward_mouse());
}

#[test]
fn sniffer_disable_one_tracking_mode_keeps_another() {
    let mut s = MouseModeSniffer::new();
    s.observe(b"\x1b[?1000h\x1b[?1002h\x1b[?1006h");
    assert!(s.forward_mouse());
    s.observe(b"\x1b[?1000l"); // disable click-tracking; button-drag (1002) still on
    assert!(s.tracking_on());
    assert!(s.forward_mouse());
    s.observe(b"\x1b[?1002l"); // now no tracking modes remain
    assert!(!s.tracking_on());
    assert!(!s.forward_mouse());
}

#[test]
fn sniffer_handles_sequence_split_across_reads() {
    let mut s = MouseModeSniffer::new();
    s.observe(b"\x1b[?100");
    s.observe(b"0h\x1b[?10");
    s.observe(b"06h");
    assert!(s.forward_mouse());
}

#[test]
fn sniffer_ignores_unrelated_sequences() {
    let mut s = MouseModeSniffer::new();
    // SGR colour and XTWINOPS must not flip any mouse flag.
    s.observe(b"\x1b[31mred\x1b[0m\x1b[8;50;100t");
    assert!(!s.tracking_on());
    assert!(!s.sgr_on());
    // A non-private CSI ending in 'h' (e.g. SM, no '?') must not be read as a mode set.
    s.observe(b"\x1b[4h");
    assert!(!s.tracking_on());
    s.observe(b"\x1b[1000h");
    assert!(!s.tracking_on());
}

#[test]
fn sniffer_focus_set_and_clear() {
    let mut s = MouseModeSniffer::new();
    assert!(!s.focus_on());
    s.observe(b"\x1b[?1004h"); // focus reporting on
    assert!(s.focus_on());
    s.observe(b"\x1b[?1004l"); // focus reporting off
    assert!(!s.focus_on());
}

#[test]
fn sniffer_focus_combined_with_mouse_in_one_csi() {
    let mut s = MouseModeSniffer::new();
    s.observe(b"\x1b[?1002;1004;1006h"); // button-drag tracking + focus + SGR in one sequence
    assert!(s.focus_on());
    assert!(s.tracking_on());
    assert!(s.sgr_on());
    assert!(s.forward_mouse());
}

#[test]
fn sniffer_focus_handles_sequence_split_across_reads() {
    let mut s = MouseModeSniffer::new();
    s.observe(b"\x1b[?100");
    s.observe(b"4h");
    assert!(s.focus_on());
}

#[test]
fn sniffer_focus_independent_of_mouse_flags() {
    // ?1004 must not flip mouse tracking/sgr, and mouse modes must not flip focus.
    let mut s = MouseModeSniffer::new();
    s.observe(b"\x1b[?1004h");
    assert!(s.focus_on());
    assert!(!s.tracking_on());
    assert!(!s.sgr_on());
    assert!(!s.forward_mouse());

    let mut t = MouseModeSniffer::new();
    t.observe(b"\x1b[?1000h\x1b[?1006h"); // mouse tracking + SGR
    assert!(t.forward_mouse());
    assert!(!t.focus_on());
}

#[test]
fn sniffer_reads_numbers_without_overflow() {
    let mut s = MouseModeSniffer::default();
    // A number that does not fit is no mode, and a stray escape starts afresh.
    s.observe(b"\x1b[?99999999999999999999;1003h");
    assert!(s.tracking_on());
    s.observe(b"\x1b[?1006\x1b[?1003l");
    assert!(!s.tracking_on());
    assert!(!s.sgr_on());
    // A byte outside the grammar ends the sequence without effect.
    s.observe(b"\x1b[?1006:1h");
    assert!(!s.sgr_on());
}

/// Writes that the client takes, and then none any more.
struct LostClient {
    taken: Vec<u8>,
    left: usize,
}

impl FrameSink for LostClient {
    fn on_data(&mut self, _stream: Stream, bytes: &[u8]) -> Result<(), SinkError> {
        if self.left == 0 {
            return Err(SinkError("broken pipe".into()));
        }
        self.left -= 1;
        self.taken.extend_from_slice(bytes);
        Ok(())
    }

    fn on_resize(&mut self, _size: Resize) -> Result<(), SinkError> {
        Ok(())
    }
}

#[test]
fn a_lost_client_is_254() {
    let mut wire = Vec::new();
    write_data(&mut wire, Stream::Stdout, b"one").unwrap();
    write_data(&mut wire, Stream::Stdout, b"two").unwrap();
    write_frame(&mut wire, FrameKind::Exit, &ExitCode(0).encode()).unwrap();
    let mut rx = ReadScript::new(vec![ReadEvent::Bytes(wire)]);
    let mut client = LostClient { taken: Vec::new(), left: 1 };
    let outcome = pump_decode(&mut rx, &mut FrameReader::new(), &mut client);
    assert_eq!(outcome, Err(PumpError::Sink(SinkError("broken pipe".into()))));
    assert_eq!(map_outcome(outcome), 254);
    assert_eq!(client.taken, b"one");
}
