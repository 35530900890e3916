//! Tests of the error codes and of containment.
use ssh_broker::winutil::{
    attribute_words, hresult_from_win32, next_action, resumed, win_error_from, ContainAction,
    JobCause, JobError,
};

const ERROR_ACCESS_DENIED: i32 = 5;
const E_FAIL: i32 = 0x8000_4005u32 as i32;

/// A real OS error code must survive the conversion.
#[test]
fn win_error_from_preserves_the_underlying_os_code() {
    let e = JobError {
        text: "access denied".into(),
        cause: JobCause::Io(Some(ERROR_ACCESS_DENIED)),
    };
    let converted = win_error_from(&e, "assign the shell to a job object");
    assert_eq!(
        converted.code,
        0x8007_0005u32 as i32,
        "the real OS code must reach the log, not a placeholder"
    );
    assert!(
        converted.message.contains("assign the shell to a job object"),
        "the context must survive: {:?}",
        converted.message
    );
}

/// A failure carrying no OS code still converts, rather than inventing one.
#[test]
fn win_error_from_falls_back_when_there_is_no_os_code() {
    let e = JobError {
        text: "process containment failed: job objects unavailable".into(),
        cause: JobCause::Other,
    };
    let converted = win_error_from(&e, "contain");
    assert_eq!(converted.code, E_FAIL);
    assert!(converted.message.contains("job objects unavailable"));
    for cause in [JobCause::Io(None), JobCause::Source(None), JobCause::Source(Some(None))] {
        let e = JobError { text: String::new(), cause };
        assert_eq!(win_error_from(&e, "x").code, E_FAIL);
    }
}

/// A variant that carries its OS error as a source must be read too.
#[test]
fn win_error_from_reads_os_codes_from_source_carrying_variants() {
    let e = JobError {
        text: "could not open the process".into(),
        cause: JobCause::Source(Some(Some(ERROR_ACCESS_DENIED))),
    };
    assert_eq!(win_error_from(&e, "assess").code, hresult_from_win32(5));
    let wrapped = JobError {
        text: "may have started".into(),
        cause: JobCause::Wrapped(Box::new(JobCause::Io(Some(ERROR_ACCESS_DENIED)))),
    };
    assert_eq!(win_error_from(&wrapped, "assess").code, hresult_from_win32(5));
}

/// A code that already is a result code must survive unchanged.
#[test]
fn win_error_from_does_not_re_encode_an_hresult() {
    let encoded = hresult_from_win32(5);
    assert_eq!(encoded as u32, 0x8007_0005);
    let e = JobError {
        text: "x".into(),
        cause: JobCause::Io(Some(encoded)),
    };
    assert_eq!(win_error_from(&e, "ctx").code, encoded);
    assert_eq!(hresult_from_win32(0), 0);
    assert_eq!(hresult_from_win32(0x12345), 0x8007_2345u32 as i32);
}

#[test]
fn an_uncontained_process_never_runs() {
    assert_eq!(next_action(ContainAction::Assign, false), ContainAction::Terminate);
    assert_eq!(next_action(ContainAction::Terminate, false), ContainAction::Abandoned);
    assert_eq!(next_action(ContainAction::Assign, true), ContainAction::Resume);
    assert_eq!(next_action(ContainAction::Resume, false), ContainAction::KillTree);
    assert_eq!(next_action(ContainAction::Resume, true), ContainAction::Contained);
    assert!(!resumed(u32::MAX));
    assert!(resumed(1));
}

#[test]
fn attribute_words_round_up() {
    assert_eq!(attribute_words(0, 8), 1);
    assert_eq!(attribute_words(8, 8), 1);
    assert_eq!(attribute_words(9, 8), 2);
    assert_eq!(attribute_words(48, 8), 6);
}
