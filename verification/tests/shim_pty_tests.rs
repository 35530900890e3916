//! Tests of the interactive path's decisions.
use ssh_broker::protocol::{Handshake, Mode, Resize};
use ssh_broker::shim::FailOpen;
use ssh_broker::shim_pty::{
    after_local, after_relay, console_size, enter_with, fail_open_command, plan_interactive,
    plan_relay, record_kind, restore, term_or_default, ConsoleCall, ConsoleHandle, ConsoleScript,
    EnterStep, InputGate, InputRecord, PtyInput, PtyOutput, RecordKind, RelayEnd, RelayPlan,
    ShimAction, Window, RAW_IN, VT_OUT,
};
use ssh_broker::vtinput::{KeyEvent, MouseEvent};

#[test]
fn fail_open_maps_interactive_to_pwsh_and_passes_an_exec_command_through() {
    assert_eq!(fail_open_command(&FailOpen::LocalShell), "pwsh -NoLogo");
    let cmd = r#"scp -t "C:\path with spaces\out.bin""#;
    assert_eq!(
        fail_open_command(&FailOpen::Passthrough(cmd.to_string())),
        cmd,
        "an EXEC command must reach the spawn byte for byte"
    );
}

/// A late `SetMode` failure must still roll back whatever was changed, and must not undo a
/// suppression that was never applied.
#[test]
fn enter_rolls_back_only_what_it_actually_changed_on_partial_failure() {
    let in_orig = 0x1111;
    let out_orig = 0x2222;
    let mut console = ConsoleScript::new(vec![true, false]);

    let result = enter_with(&mut console, in_orig, out_orig, true);

    assert!(
        result.is_none(),
        "the second call was made to fail, so entering must fail"
    );
    let calls = &console.calls;
    assert_eq!(
        calls.len(),
        4,
        "expected 2 construction calls + 2 restore calls, got: {calls:?}"
    );
    assert_eq!(
        calls[0],
        ConsoleCall::SetMode(ConsoleHandle::Input, RAW_IN),
        "construction must set stdin to raw mode first"
    );
    assert_eq!(
        calls[1],
        ConsoleCall::SetMode(ConsoleHandle::Output, out_orig | VT_OUT)
    );
    assert_eq!(
        calls[2],
        ConsoleCall::SetMode(ConsoleHandle::Input, in_orig),
        "stdin's ORIGINAL mode must be restored"
    );
    assert_eq!(
        calls[3],
        ConsoleCall::SetMode(ConsoleHandle::Output, out_orig),
        "stdout's original mode must be restored too"
    );
    assert!(
        !calls.iter().any(|c| matches!(c, ConsoleCall::SuppressCtrl(_))),
        "a suppression that was never applied must not be undone"
    );
}

#[test]
fn enter_and_restore_are_symmetric() {
    let mut console = ConsoleScript::new(vec![]);
    let modes = enter_with(&mut console, 7, 9, true).unwrap();
    assert_eq!(modes.step, EnterStep::Entered);
    assert!(modes.ctrl_suppressed);
    restore(&mut console, &modes);
    assert_eq!(
        console.calls[3..],
        [
            ConsoleCall::SetMode(ConsoleHandle::Input, 7),
            ConsoleCall::SetMode(ConsoleHandle::Output, 9),
            ConsoleCall::SuppressCtrl(false),
        ]
    );
    // Suppressing the signals failed: entering still succeeds, and nothing is set free.
    let mut other = ConsoleScript::new(vec![true, true, false]);
    let modes = enter_with(&mut other, 7, 9, true).unwrap();
    assert!(!modes.ctrl_suppressed);
    restore(&mut other, &modes);
    assert_eq!(other.calls.len(), 5);
    // The very first call fails: both modes are put back all the same.
    let mut broken = ConsoleScript::new(vec![false]);
    assert!(enter_with(&mut broken, 7, 9, true).is_none());
    assert_eq!(broken.calls.len(), 3);
    // Without a console nothing is touched.
    let mut none = ConsoleScript::new(vec![]);
    let modes = enter_with(&mut none, 7, 9, false).unwrap();
    restore(&mut none, &modes);
    assert!(none.calls.is_empty());
}

#[test]
fn relay_end_decides_exit_or_local_run() {
    assert!(matches!(
        after_relay(RelayEnd::Completed(-5), Some("x".into())),
        ShimAction::Exit(-5)
    ));
    match after_relay(RelayEnd::Unavailable, Some("x y".into())) {
        ShimAction::RunLocally(f) => assert_eq!(f, FailOpen::Passthrough("x y".into())),
        other => panic!("{other:?}"),
    }
    match after_relay(RelayEnd::SetupFailed, None) {
        ShimAction::RunLocally(f) => assert_eq!(f, FailOpen::LocalShell),
        other => panic!("{other:?}"),
    }
}

#[test]
fn local_run_keeps_the_code_or_reports_255() {
    let exec = FailOpen::Passthrough("x".into());
    let end = after_local(Some(0xC000_0142), &exec);
    assert_eq!((end.code as u32, end.complain), (0xC000_0142, false));
    let failed = after_local(None, &exec);
    assert_eq!((failed.code, failed.complain), (255, true));
    // In a terminal, stderr would corrupt the stream.
    let interactive = after_local(None, &FailOpen::LocalShell);
    assert_eq!((interactive.code, interactive.complain), (255, false));
}

#[test]
fn relay_plan_follows_connection_and_command() {
    match plan_relay(true, &Some("x".into()), "t".into()) {
        RelayPlan::FailOpen { warn } => assert!(warn),
        other => panic!("{other:?}"),
    }
    match plan_relay(true, &None, "t".into()) {
        RelayPlan::FailOpen { warn } => assert!(!warn),
        other => panic!("{other:?}"),
    }
    match plan_relay(false, &Some("ls".into()), "vt100".into()) {
        RelayPlan::Exec(hs) => assert_eq!(
            hs,
            Handshake {
                mode: Mode::Exec,
                term: "vt100".into(),
                command: Some("ls".into()),
                ..Handshake::pty_default()
            }
        ),
        other => panic!("{other:?}"),
    }
    assert!(matches!(plan_relay(false, &None, "t".into()), RelayPlan::Interactive));
}

#[test]
fn interactive_plan_needs_a_console() {
    let window = Some(Window { left: 0, top: 0, right: 99, bottom: 29 });
    assert!(plan_interactive(false, "t".into(), window).is_none());
    let hs = plan_interactive(true, "t".into(), window).unwrap();
    assert_eq!((hs.cols, hs.rows, hs.mode), (100, 30, Mode::Pty));
    assert_eq!(console_size(None), Resize { cols: 80, rows: 24 });
    assert_eq!(term_or_default(None), "xterm-256color");
    assert_eq!(term_or_default(Some("screen".into())), "screen");
}

#[test]
fn output_is_filtered_and_opens_the_gate() {
    let mut out = PtyOutput::new();
    let first = out.on_output(b"a\x1b[8;1;1tb\x1b[?1000;10");
    assert_eq!(first.bytes, b"ab");
    assert!(!first.forward && !first.focus);
    let second = out.on_output(b"06h\x1b[?1004hc");
    assert_eq!(second.bytes, b"\x1b[?1000;1006h\x1b[?1004hc");
    assert!(second.forward && second.focus);
}

fn click(buttons: u32) -> InputRecord {
    InputRecord::Mouse(MouseEvent {
        x: 0,
        y: 0,
        button_state: buttons,
        control_key_state: 0,
        event_flags: 0,
    })
}

#[test]
fn input_records_become_frames_behind_the_gate() {
    let open = InputGate { forward: true, focus: true };
    let closed = InputGate { forward: false, focus: false };
    let mut input = PtyInput::new();
    let mut tx = Vec::new();

    let key = InputRecord::Key(KeyEvent {
        virtual_key_code: 65,
        virtual_scan_code: 30,
        unicode_char: 97,
        key_down: true,
        control_key_state: 0,
        repeat_count: 1,
    });
    input.on_record(&key, closed, &mut tx);
    assert_eq!(tx, b"\x01\x12\x00\x00\x00\x00\x1b[65;30;97;1;0;1_");

    tx.clear();
    let size = InputRecord::WindowBufferSize(Some(Window { left: 0, top: 0, right: 79, bottom: 23 }));
    input.on_record(&size, closed, &mut tx);
    assert_eq!(tx, b"\x02\x04\x00\x00\x00\x50\x00\x18\x00");

    // Closed: nothing is sent, and the press is forgotten.
    tx.clear();
    input.on_record(&InputRecord::Focus(true), closed, &mut tx);
    input.on_record(&InputRecord::Other, open, &mut tx);
    input.on_record(&click(1), closed, &mut tx);
    assert!(tx.is_empty());
    input.on_record(&click(0), open, &mut tx);
    assert!(tx.is_empty(), "no release for a press that was never forwarded");

    input.on_record(&click(1), open, &mut tx);
    assert_eq!(tx, b"\x01\x0a\x00\x00\x00\x00\x1b[<0;1;1M");

    tx.clear();
    input.on_records(
        &[InputRecord::Focus(true), InputRecord::Focus(false)],
        open,
        &mut tx,
    );
    assert_eq!(tx, b"\x01\x04\x00\x00\x00\x00\x1b[I\x01\x04\x00\x00\x00\x00\x1b[O");
}

#[test]
fn record_kinds_follow_the_event_type() {
    assert_eq!(record_kind(1), RecordKind::Key);
    assert_eq!(record_kind(2), RecordKind::Mouse);
    assert_eq!(record_kind(4), RecordKind::WindowBufferSize);
    assert_eq!(record_kind(16), RecordKind::Focus);
    assert_eq!(record_kind(8), RecordKind::Other);
}
