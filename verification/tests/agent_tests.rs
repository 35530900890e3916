//! Tests of the agent's decisions.
use ssh_broker::agent::{
    child_cwd, exit_frame, open_session, output_chunk, session_code, teardown_steps,
    teardown_warning, ConnectionError, InputQueue, TeardownStep, WriterAction,
};
use ssh_broker::protocol::{
    read_one_frame, Frame, FrameKind, FrameReader, Handshake, Mode, ProtocolError, ReadEvent,
    ReadScript, Stream,
};
use ssh_broker::relay::{pump_decode, Outcome, TestSink};
use ssh_broker::shim::{forward_stdin, make_handshake, send_handshake};

#[test]
fn empty_handshake_cwd_falls_back_to_home() {
    let home = Some(String::from(r"C:\Users\me"));
    assert_eq!(child_cwd("", home.clone()), home);
}

#[test]
fn explicit_handshake_cwd_wins_over_home() {
    assert_eq!(
        child_cwd(r"C:\work", Some(String::from(r"C:\Users\me"))),
        Some(String::from(r"C:\work"))
    );
}

#[test]
fn empty_cwd_and_no_home_is_none() {
    assert_eq!(child_cwd("", None), None);
}

#[test]
fn teardown_warns_only_when_the_reap_failed() {
    assert!(teardown_warning(true).is_none(), "a clean reap needs no warning");
    let w = teardown_warning(false).expect("a failed reap must warn");
    assert!(
        w.contains("block"),
        "the warning must say what is about to happen: {w:?}"
    );
}

fn frame(kind: FrameKind, payload: Vec<u8>) -> Frame {
    Frame { kind, payload }
}

#[test]
fn session_is_what_the_shim_asked_for() {
    let hs = make_handshake(&Some("git status".into()), "t".into(), 80, 24);
    let plan = open_session(
        &frame(FrameKind::Handshake, hs.encode().unwrap()),
        Some("C:\\Users\\me".into()),
    )
    .unwrap();
    assert_eq!(plan.mode, Mode::Exec);
    assert_eq!(plan.command, "git status");
    assert_eq!(plan.cwd.as_deref(), Some("C:\\Users\\me"));

    let hs = make_handshake(&None, "t".into(), 132, 50);
    let plan = open_session(&frame(FrameKind::Handshake, hs.encode().unwrap()), None).unwrap();
    assert_eq!(plan.command, "pwsh.exe -NoLogo");
    assert_eq!((plan.mode, plan.cols, plan.rows, plan.cwd), (Mode::Pty, 132, 50, None));
}

#[test]
fn agent_rejects_non_handshake_first_frame() {
    // A DATA frame where a HANDSHAKE is required.
    let refused = open_session(&frame(FrameKind::Data, b"\x00oops".to_vec()), None).unwrap_err();
    assert_eq!(refused, ConnectionError::NotAHandshake);
    assert_eq!(refused.message(), "first frame was not a handshake");
    assert_eq!(
        open_session(&frame(FrameKind::Handshake, vec![]), None),
        Err(ConnectionError::Protocol(ProtocolError::BadHandshake(
            "Hit the end of buffer, expected more data".into()
        )))
    );
    let mut foreign = Handshake::pty_default();
    foreign.version = 3;
    assert_eq!(
        open_session(&frame(FrameKind::Handshake, foreign.encode().unwrap()), None)
            .unwrap_err()
            .message(),
        "protocol version mismatch: peer 3 != ours 1"
    );
}

#[test]
fn output_becomes_frames_until_its_end() {
    let mut tx = Vec::new();
    assert!(output_chunk(Stream::Stderr, b"E", &mut tx));
    assert_eq!(tx, [1, 2, 0, 0, 0, 3, b'E']);
    assert!(!output_chunk(Stream::Stderr, b"", &mut tx));
    assert_eq!(tx.len(), 7);
    exit_frame(-2, &mut tx);
    assert_eq!(tx[7..], [3, 4, 0, 0, 0, 0xfe, 0xff, 0xff, 0xff]);
}

#[test]
fn empty_frame_closes_stdin_in_exec_only() {
    let mut q = InputQueue::new(Mode::Exec);
    assert_eq!(q.on_data(b"a"), WriterAction::Send(b"a".to_vec()));
    assert_eq!(q.on_data(b""), WriterAction::Close);
    assert_eq!(q.on_data(b"late"), WriterAction::Discard);
    assert_eq!(q.on_data(b""), WriterAction::Discard);
    let mut pty = InputQueue::new(Mode::Pty);
    assert_eq!(pty.on_data(b""), WriterAction::Send(vec![]));
    assert_eq!(pty.on_data(b"x"), WriterAction::Send(b"x".to_vec()));
}

#[test]
fn teardown_sends_the_exit_code_after_the_output() {
    assert_eq!(session_code(None), 1);
    assert_eq!(
        teardown_steps(Mode::Pty, Some(9)),
        vec![
            TeardownStep::Reap,
            TeardownStep::ClosePty,
            TeardownStep::JoinOutput,
            TeardownStep::SendExit(9),
            TeardownStep::Shutdown,
            TeardownStep::JoinInput,
        ]
    );
    assert_eq!(
        teardown_steps(Mode::Exec, None),
        vec![
            TeardownStep::Reap,
            TeardownStep::JoinOutput,
            TeardownStep::SendExit(1),
            TeardownStep::Shutdown,
            TeardownStep::JoinInput,
        ]
    );
}

/// What the shim puts on the wire, taken off it by the agent.
#[test]
fn an_exec_session_reaches_the_agent() {
    let hs = make_handshake(&Some("sort /R".into()), "xterm".into(), 80, 24);
    let mut wire = Vec::new();
    send_handshake(&mut wire, &hs).unwrap();
    let mut stdin = ReadScript::new(vec![
        ReadEvent::Bytes(vec![1, 0, 255]),
        ReadEvent::Bytes(vec![10]),
    ]);
    forward_stdin(&mut stdin, &mut wire);
    assert_eq!(stdin.remaining(), 0);
    let mut reads = ReadScript::new(vec![ReadEvent::Bytes(wire)]);
    let mut fr = FrameReader::new();
    let first = read_one_frame(&mut reads, &mut fr).unwrap();
    let plan = open_session(&first, Some("C:\\Users\\u".into())).unwrap();
    assert_eq!(plan.mode, Mode::Exec);
    assert_eq!(plan.command, "sort /R");
    assert_eq!(plan.cwd.as_deref(), Some("C:\\Users\\u"));
    let mut sink = TestSink::default();
    let outcome = pump_decode(&mut reads, &mut fr, &mut sink);
    assert_eq!(outcome, Ok(Outcome::PeerClosed));
    assert_eq!(sink.stdout, [1, 0, 255, 10]);
}
