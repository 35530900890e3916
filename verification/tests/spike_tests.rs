//! Tests of the diagnostics, and of the pseudoconsole host's decisions.
use ssh_broker::conpty::{
    after_write, next_pty_flags, read_count, to_dimension, write_all_on, WriteScript, WriteStep,
};
use ssh_broker::protocol::Resize;
use ssh_broker::shim_pty::{InputRecord, Window};
use ssh_broker::spike::{
    case_report, describe, diag_header, diag_kind, nested_command, nested_input, ptytest_cases,
    ptytest_report, reference_report, try_dispatch, wait_timed_out, CaseOutcome, DiagKind, DiagLog,
    DiagRecord, ReferenceOutcome, SpikeVerb,
};
use ssh_broker::text::{
    chars_of, contains_text, parse_number, split_lines, split_words, string_of, to_wide,
};
use ssh_broker::vtinput::{KeyEvent, MouseEvent};

fn args(items: &[&str]) -> Vec<String> {
    items.iter().map(|s| s.to_string()).collect()
}

#[test]
fn spike_verbs_are_told_from_the_rest() {
    assert_eq!(try_dispatch(&args(&["diag"])), Some(SpikeVerb::Diag));
    assert_eq!(try_dispatch(&args(&["ptytest"])), Some(SpikeVerb::PtyTest));
    assert_eq!(
        try_dispatch(&args(&["conpty", "cmd.exe"])),
        Some(SpikeVerb::Conpty("cmd.exe".into()))
    );
    assert_eq!(
        try_dispatch(&args(&["conpty"])),
        Some(SpikeVerb::Conpty("C:\\Program Files\\PowerShell\\7\\pwsh.exe".into()))
    );
    assert_eq!(try_dispatch(&args(&["agent"])), None);
    assert_eq!(try_dispatch(&[]), None);
}

fn key(vk: u16, down: bool) -> DiagRecord {
    DiagRecord::Key(KeyEvent {
        virtual_key_code: vk,
        virtual_scan_code: 1,
        unicode_char: 0x1b,
        key_down: down,
        control_key_state: 0x20,
        repeat_count: 1,
    })
}

fn mouse(flags: u32) -> DiagRecord {
    DiagRecord::Mouse(MouseEvent {
        x: -1,
        y: 12,
        button_state: 1,
        control_key_state: 0,
        event_flags: flags,
    })
}

#[test]
fn records_are_described() {
    assert_eq!(
        describe(&key(0x1b, true)),
        "KEY  down vk=0x1B sc=0x01 uc=0x001B cks=0x00000020 rep=1"
    );
    assert_eq!(
        describe(&key(0x141, false)),
        "KEY  up   vk=0x141 sc=0x01 uc=0x001B cks=0x00000020 rep=1"
    );
    assert_eq!(
        describe(&mouse(2)),
        "MOUSE dblclick pos=(-1,12) btn=0x00000001 flags=0x2 cks=0x00000000"
    );
    assert_eq!(
        describe(&mouse(0)),
        "MOUSE button   pos=(-1,12) btn=0x00000001 flags=0x0 cks=0x00000000"
    );
    assert_eq!(
        describe(&DiagRecord::BufferSize(-5, 300)),
        "RESIZE buffer dwSize=(-5,300)"
    );
    assert_eq!(describe(&DiagRecord::Menu), "MENU (internal)");
    assert_eq!(describe(&DiagRecord::Focus(true)), "FOCUS set=true");
    assert_eq!(describe(&DiagRecord::Unknown(0x20)), "UNKNOWN EventType=0x0020");
    assert_eq!(
        diag_header(0x1f7, 0x98),
        "# ssh-broker diag  original_mode=0x000001F7  set_mode=0x00000098"
    );
}

#[test]
fn log_ends_at_three_escapes_in_a_row() {
    let mut log = DiagLog::new();
    assert!(!log.on_record(&key(0x1b, true)).quit);
    assert!(!log.on_record(&key(0x1b, false)).quit);
    assert!(!log.on_record(&key(0x1b, true)).quit);
    assert!(!log.on_record(&key(0x41, true)).quit);
    assert!(!log.on_record(&key(0x1b, true)).quit);
    assert!(!log.on_record(&key(0x1b, true)).quit);
    let moved = log.on_record(&mouse(1));
    assert!(!moved.quit && !moved.echo);
    let last = log.on_record(&key(0x1b, true));
    assert!(last.quit && last.echo);
}

#[test]
fn cases_are_reported() {
    assert_eq!(
        case_report("a", "cmd", None, &CaseOutcome::Ran(None, 0x102, 0, None)),
        "[a] flags=None\n  cmd=cmd\n  CreateProcessW=OK\n  wait=0x102  exit=0x00000000 (0)\n"
    );
    assert_eq!(
        case_report(
            "b",
            "cmd",
            Some(6),
            &CaseOutcome::Ran(Some(48), 0, 0xC000_0142, Some(b"h\"i\xff".to_vec()))
        ),
        "[b] flags=Some(6)\n  cmd=cmd\n  CreatePseudoConsole=OK\n  attr_list_bytes=48\n  CreateProcessW=OK\n  wait=0x0  exit=0xC0000142 (3221225794)\n  out(4b)=\"h\\\"i\u{fffd}\"\n"
    );
    assert_eq!(
        case_report("c", "x", Some(0), &CaseOutcome::AttrFailed(7)),
        "[c] flags=Some(0)\n  cmd=x\n  CreatePseudoConsole=OK\n  attr_list_bytes=7\n  attribute-list setup FAILED\n"
    );
    assert!(case_report("c", "x", Some(0), &CaseOutcome::PipeFailed).ends_with("  CreatePipe FAILED\n"));
    assert!(case_report("c", "x", Some(0), &CaseOutcome::PtyFailed("E".into()))
        .ends_with("  CreatePseudoConsole FAILED: E\n"));
    assert!(case_report("c", "x", None, &CaseOutcome::SpawnFailed(None, "E".into()))
        .ends_with("cmd=x\n  CreateProcessW FAILED: E\n"));
    assert!(wait_timed_out(0x102) && !wait_timed_out(0));
}

#[test]
fn long_output_is_cut_to_a_line() {
    let out = vec![b'x'; 200];
    let report = case_report("a", "c", Some(2), &CaseOutcome::Ran(Some(1), 0, 0, Some(out)));
    assert!(report.ends_with(&format!("  out(200b)=\"{}\"\n", "x".repeat(160))));
}

#[test]
fn reference_is_reported() {
    assert_eq!(
        reference_report("c", &ReferenceOutcome::SpawnFailed("E".into())),
        "[conpty-crate] cmd=c\n  spawn FAILED: E\n"
    );
    assert_eq!(
        reference_report(
            "c",
            &ReferenceOutcome::Ran(9, Some("no".into()), Ok(3), b"o".to_vec())
        ),
        "[conpty-crate] cmd=c\n  spawn=OK pid=9\n  output() FAILED: no\n  wait exit=0x00000003 (3)\n  out(1b)=\"o\"\n"
    );
    assert_eq!(
        reference_report("c", &ReferenceOutcome::Ran(9, None, Err("t".into()), vec![])),
        "[conpty-crate] cmd=c\n  spawn=OK pid=9\n  wait FAILED/timeout: t\n  out(0b)=\"\"\n"
    );
}

#[test]
fn matrix_is_reported_case_by_case() {
    let cases = ptytest_cases();
    assert_eq!(cases[0], ("no-conpty", None));
    assert_eq!(cases[6], ("ALL(2|4|8=E)", Some(0xE)));
    assert_eq!(
        ptytest_report(2, &args(&["A\n", "B\n"])),
        "=== ssh-broker ptytest: ConPTY flag matrix (child=cmd.exe)  running_in_session=2 ===\nA\n\nB\n\n"
    );
}

#[test]
fn nested_shell_gets_keys_and_sizes() {
    assert_eq!(
        nested_command("C:\\p s.exe", "C:\\n.ps1"),
        "\"C:\\p s.exe\" -NoLogo -NoExit -File \"C:\\n.ps1\""
    );
    let k = KeyEvent {
        virtual_key_code: 65,
        virtual_scan_code: 30,
        unicode_char: 97,
        key_down: true,
        control_key_state: 0,
        repeat_count: 1,
    };
    let input = nested_input(&[
        InputRecord::Key(k),
        InputRecord::Focus(true),
        InputRecord::WindowBufferSize(None),
        InputRecord::WindowBufferSize(Some(Window { left: 0, top: 0, right: 9, bottom: 4 })),
        InputRecord::Key(KeyEvent { key_down: false, ..k }),
    ]);
    assert_eq!(input.bytes, b"\x1b[65;30;97;1;0;1_\x1b[65;30;97;0;0;1_");
    assert_eq!(input.sizes, vec![Resize { cols: 10, rows: 5 }]);
}

#[test]
fn pseudoconsole_falls_back_to_fewer_flags() {
    assert_eq!(next_pty_flags(None), Some(0xe));
    assert_eq!(next_pty_flags(Some(0xe)), Some(0x6));
    assert_eq!(next_pty_flags(Some(0x6)), None);
    assert_eq!(to_dimension(0), 1);
    assert_eq!(to_dimension(120), 120);
    assert_eq!(to_dimension(40000), 40000u16 as i16);
    assert_eq!(read_count(None), 0);
    assert_eq!(read_count(Some(5)), 5);
}

#[test]
fn short_writes_are_continued() {
    let mut h = WriteScript { answers: vec![Some(1), Some(2)], written: vec![] };
    assert!(write_all_on(&mut h, b"hello"));
    assert_eq!(h.written, b"hello");
    let mut broken = WriteScript { answers: vec![Some(3), None], written: b"x".to_vec() };
    assert!(!write_all_on(&mut broken, b"hello"));
    assert_eq!(broken.written, b"xhel");
    let mut stuck = WriteScript { answers: vec![Some(0)], written: vec![] };
    assert!(!write_all_on(&mut stuck, b"hello"));
    assert!(stuck.written.is_empty());
    assert!(write_all_on(&mut stuck, b""));
    assert_eq!(after_write(5, 2, Some(3)), WriteStep::Done);
    assert_eq!(after_write(5, 2, Some(1)), WriteStep::From(3));
}

#[test]
fn texts_are_split_like_lines_and_words() {
    let text = chars_of("a\r\nb\n\nc\r");
    let lines: Vec<String> = split_lines(&text).iter().map(|l| string_of(l)).collect();
    assert_eq!(lines, "a\r\nb\n\nc\r".lines().collect::<Vec<_>>());
    let spaced = "\u{2003}one  two\tthree\u{85}";
    let words: Vec<String> = split_words(&chars_of(spaced)).iter().map(|w| string_of(w)).collect();
    assert_eq!(words, spaced.split_whitespace().collect::<Vec<_>>());
    assert!(contains_text(&chars_of("abcab"), "cab"));
    assert!(contains_text(&chars_of(""), ""));
    assert!(!contains_text(&chars_of("abcab"), "cba"));
}

#[test]
fn numbers_are_read_like_std_reads_them() {
    for text in ["0", "+7", "007", "255", "256", "-1", "", "+", "1 ", "++1", "\u{661}"] {
        assert_eq!(
            parse_number(&chars_of(text), 255).map(|n| n as u8),
            text.parse::<u8>().ok(),
            "{text}"
        );
    }
}

#[test]
fn wide_texts_are_utf16_with_a_zero() {
    for text in ["", "a\u{e9}", "\u{ffff}\u{10000}\u{10ffff}"] {
        let mut want: Vec<u16> = text.encode_utf16().collect();
        want.push(0);
        assert_eq!(to_wide(text), want);
    }
}

#[test]
fn kinds_of_records_follow_the_event_type() {
    assert_eq!(diag_kind(1), DiagKind::Key);
    assert_eq!(diag_kind(2), DiagKind::Mouse);
    assert_eq!(diag_kind(4), DiagKind::BufferSize);
    assert_eq!(diag_kind(8), DiagKind::Menu);
    assert_eq!(diag_kind(16), DiagKind::Focus);
    assert_eq!(diag_kind(0), DiagKind::Unknown(0));
    assert_eq!(diag_kind(3), DiagKind::Unknown(3));
}
