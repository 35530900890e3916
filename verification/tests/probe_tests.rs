//! Tests of the probe's line and payload.
use ssh_broker::protocol::{ReadEvent, ReadScript, TransportError};
use ssh_broker::provision::probe::{
    arrived_intact, binary_probe_ok, binary_probe_payload, dpapi_roundtrip, emit_binary_probe,
    format_probe_line, parity, parse_probe_line, parse_probe_report, probe_end, symlink_state,
    upstream_payload_ok, NoProbeLine, ProbeResult, SymlinkState, UpstreamState,
};

#[test]
fn probe_line_round_trips() {
    let line = format_probe_line(1, true, SymlinkState::Blocked, true);
    assert_eq!(line, "PROBE session_id=1 dpapi=ok symlink=blocked upstream=ok");
    assert_eq!(
        parse_probe_line(&line).unwrap(),
        ProbeResult {
            session_id: 1,
            dpapi_ok: true,
            symlink: SymlinkState::Blocked,
            upstream_ok: true,
        }
    );
}

/// `upstream` is default-deny, like `dpapi`.
#[test]
fn a_missing_upstream_token_reads_as_not_proven() {
    let old = "PROBE session_id=1 dpapi=ok symlink=skip";
    assert!(!parse_probe_line(old).unwrap().upstream_ok);
    let failed = format_probe_line(1, true, SymlinkState::Followed, false);
    assert!(failed.contains("upstream=fail"));
    assert!(!parse_probe_line(&failed).unwrap().upstream_ok);
    // What is missing is told from what failed.
    assert_eq!(parse_probe_report(old).unwrap().upstream, UpstreamState::Absent);
    assert_eq!(parse_probe_report(&failed).unwrap().upstream, UpstreamState::Fail);
    assert!(!UpstreamState::Absent.proven() && !UpstreamState::Fail.proven());
    assert!(UpstreamState::Intact.proven());
    assert!(UpstreamState::Absent.detail().contains("re-run `apply`"));
    assert_eq!(
        UpstreamState::Fail.detail(),
        "the payload verify sent upstream did not reach the child intact"
    );
    assert_eq!(UpstreamState::Intact.detail(), "");
}

#[test]
fn symlink_states_round_trip() {
    for st in [SymlinkState::Followed, SymlinkState::Blocked, SymlinkState::Skipped] {
        let line = format_probe_line(2, false, st, true);
        assert_eq!(parse_probe_line(&line).unwrap().symlink, st);
    }
    // Only a confirmed block is a parity failure.
    assert!(SymlinkState::Blocked.is_failure());
    assert!(!SymlinkState::Followed.is_failure());
    assert!(!SymlinkState::Skipped.is_failure());
    assert_eq!(SymlinkState::Followed.as_str(), "ok");
}

/// The payload must survive an exact round trip, and the check must be sensitive to a SINGLE
/// flipped byte.
#[test]
fn binary_probe_round_trips_and_detects_a_single_flipped_byte() {
    let mut buf = Vec::new();
    emit_binary_probe(&mut buf);
    assert!(binary_probe_ok(&buf));

    // Surrounding output is expected.
    let mut noisy = b"leading junk\n".to_vec();
    noisy.extend_from_slice(&buf);
    noisy.extend_from_slice(b"PROBE session_id=1 dpapi=ok symlink=skip\n");
    assert!(binary_probe_ok(&noisy), "must tolerate surrounding output");

    let payload_start = b"BINPROBE<".len();
    for i in [payload_start, payload_start + 128, payload_start + 255] {
        let mut broken = buf.clone();
        broken[i] ^= 0x01;
        assert!(!binary_probe_ok(&broken), "a flipped byte at {i} must fail the check");
    }

    // Default-deny: absent or truncated is a FAILURE, never a silent pass.
    assert!(!binary_probe_ok(b"no markers here"));
    assert!(!binary_probe_ok(&buf[..buf.len() - 4]));
}

/// The brackets must not occur inside the data they delimit.
#[test]
fn binary_probe_markers_cannot_collide_with_the_payload() {
    let payload = binary_probe_payload();
    for marker in [b"BINPROBE<".as_slice(), b">BINPROBE".as_slice()] {
        assert!(
            !payload.windows(marker.len()).any(|w| w == marker),
            "marker {:?} must not appear inside the payload",
            String::from_utf8_lossy(marker)
        );
    }
}

#[test]
fn binary_probe_bytes_are_exact() {
    let mut buf = b"x".to_vec();
    emit_binary_probe(&mut buf);
    assert_eq!(buf.len(), 1 + 9 + 256 + 9 + 1);
    assert!(buf.starts_with(b"xBINPROBE<\x00\x01\x02"));
    assert!(buf.ends_with(b"\xfd\xfe\xff>BINPROBE\n"));
}

#[test]
fn parse_is_default_deny_on_gating_keys() {
    let r = parse_probe_line("PROBE session_id=2").unwrap();
    assert_eq!(
        r,
        ProbeResult {
            session_id: 2,
            dpapi_ok: false,
            symlink: SymlinkState::Skipped,
            upstream_ok: false,
        }
    );
    // A session that is no number, or too large a one, reads as 0.
    assert_eq!(parse_probe_line("PROBE session_id=x").unwrap().session_id, 0);
    assert_eq!(parse_probe_line("PROBE session_id=4294967296").unwrap().session_id, 0);
    assert_eq!(
        parse_probe_line("PROBE session_id=4294967295").unwrap().session_id,
        u32::MAX
    );
}

#[test]
fn parse_tolerates_surrounding_noise() {
    let out = "starting...\nPROBE session_id=7 dpapi=ok symlink=ok upstream=ok\nbye\n";
    assert_eq!(
        parse_probe_line(out).unwrap(),
        ProbeResult {
            session_id: 7,
            dpapi_ok: true,
            symlink: SymlinkState::Followed,
            upstream_ok: true,
        }
    );
    assert_eq!(
        parse_probe_line("PROBED\r\n \t PROBE\u{a0}x dpapi=no\r\nPROBE dpapi=ok\r\n")
            .unwrap()
            .dpapi_ok,
        true
    );
}

#[test]
fn parse_errors_when_no_probe_line() {
    assert!(parse_probe_line("nothing here\njust noise").is_err());
    assert_eq!(NoProbeLine.message(), "no PROBE line in probe output");
}

fn upload(events: Vec<ReadEvent>) -> Result<bool, TransportError> {
    upstream_payload_ok(&mut ReadScript::new(events))
}

#[test]
fn exact_payload_reports_upstream_ok() {
    let payload: Vec<u8> = (0..=255u8).collect();
    let ok = upload(vec![
        ReadEvent::Bytes(payload[..100].to_vec()),
        ReadEvent::Interrupted(TransportError("EINTR".into())),
        ReadEvent::Bytes(payload[100..].to_vec()),
    ])
    .unwrap();
    let line = format_probe_line(0, false, SymlinkState::Skipped, ok);
    assert!(line.contains("upstream=ok"), "expected upstream=ok, got: {line}");
    assert!(arrived_intact(&payload));
}

#[test]
fn one_flipped_byte_reports_upstream_fail() {
    let mut payload: Vec<u8> = (0..=255u8).collect();
    payload[128] ^= 0xFF;
    let ok = upload(vec![ReadEvent::Bytes(payload)]).unwrap();
    let line = format_probe_line(0, false, SymlinkState::Skipped, ok);
    assert!(line.contains("upstream=fail"), "expected upstream=fail, got: {line}");
}

#[test]
fn empty_stdin_reports_upstream_fail() {
    let ok = upload(vec![]).unwrap();
    let line = format_probe_line(0, false, SymlinkState::Skipped, ok);
    assert!(line.contains("upstream=fail"), "expected upstream=fail, got: {line}");
}

#[test]
fn upload_error_is_reported() {
    let e = TransportError("broken".into());
    assert_eq!(
        upload(vec![ReadEvent::Bytes(vec![0]), ReadEvent::Failed(e.clone())]),
        Err(e)
    );
}

#[test]
fn parity_needs_a_session_and_secrets() {
    assert!(parity(1, true, SymlinkState::Skipped));
    assert!(!parity(0, true, SymlinkState::Followed));
    assert!(!parity(1, false, SymlinkState::Followed));
    assert!(!parity(1, true, SymlinkState::Blocked));
    assert_eq!(symlink_state(false, true, true), SymlinkState::Skipped);
    assert_eq!(symlink_state(true, false, true), SymlinkState::Skipped);
    assert_eq!(symlink_state(true, true, true), SymlinkState::Followed);
    assert_eq!(symlink_state(true, true, false), SymlinkState::Blocked);
}

#[test]
fn a_secret_must_come_back_unchanged() {
    assert!(dpapi_roundtrip(b"secret", Some(b"secret".to_vec())));
    assert!(!dpapi_roundtrip(b"secret", Some(b"Secret".to_vec())));
    assert!(!dpapi_roundtrip(b"secret", Some(Vec::new())));
    assert!(!dpapi_roundtrip(b"secret", None));
    assert!(dpapi_roundtrip(b"", Some(Vec::new())));
}

#[test]
fn probe_output_is_the_payload_and_its_line() {
    let end = probe_end(1, true, SymlinkState::Skipped, false);
    let mut expected = Vec::new();
    emit_binary_probe(&mut expected);
    expected.extend_from_slice(b"PROBE session_id=1 dpapi=ok symlink=skip upstream=fail\n");
    assert_eq!(end.stdout, expected);
    // What was sent to it decides nothing here: it is a row of its own.
    assert_eq!(end.code, 0);
    assert!(binary_probe_ok(&end.stdout));
    assert_eq!(probe_end(1, true, SymlinkState::Blocked, true).code, 1);
    assert_eq!(probe_end(0, true, SymlinkState::Followed, true).code, 1);
    assert_eq!(probe_end(1, false, SymlinkState::Followed, true).code, 1);
}
