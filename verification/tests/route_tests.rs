//! Tests of argv dispatch.
use ssh_broker::{route, Route};

#[test]
fn bare_is_interactive_shim() {
    assert_eq!(route(&[]), Route::Shim { command: None });
}

#[test]
fn dash_c_is_exec_shim() {
    assert_eq!(
        route(&["-c".into(), "echo hi".into()]),
        Route::Shim {
            command: Some("echo hi".into())
        }
    );
}

#[test]
fn dash_c_joins_multiword_command() {
    // Everything after `-c` is reassembled, not just args[1].
    assert_eq!(
        route(&["-c".into(), "git".into(), "commit -m".into(), "x y".into()]),
        Route::Shim {
            command: Some("git commit -m x y".into())
        }
    );
}

#[test]
fn dash_c_with_no_command_is_none() {
    assert_eq!(route(&["-c".into()]), Route::Shim { command: None });
}

#[test]
fn agent_verb_is_agent() {
    assert_eq!(route(&["agent".into()]), Route::Agent);
}

#[test]
fn apply_and_verify_verbs() {
    assert_eq!(route(&["apply".into()]), Route::Apply);
    assert_eq!(route(&["verify".into()]), Route::Verify);
    assert_eq!(route(&["verify-probe".into()]), Route::VerifyProbe);
}

#[test]
fn ssh_exec_of_verify_probe_word_is_still_shim_exec() {
    assert_eq!(
        route(&["-c".into(), "verify-probe".into()]),
        Route::Shim {
            command: Some("verify-probe".into())
        }
    );
}

#[test]
fn ssh_exec_of_word_agent_is_still_shim_exec() {
    assert_eq!(
        route(&["-c".into(), "agent".into()]),
        Route::Shim {
            command: Some("agent".into())
        }
    );
}

#[test]
fn unknown_words_are_the_interactive_shim() {
    assert_eq!(route(&["Agent".into(), "x".into()]), Route::Shim { command: None });
}
