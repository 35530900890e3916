//! Tests of the socket address and of the decision to bind.
use ssh_broker::afunix::{
    may_bind, next_bind_action, socket_dir, socket_path, start_bind, unix_addr, AddrError,
    BindAction, BindFacts, BindRefusal, Platform,
};

#[test]
fn unix_addr_accepts_a_normal_short_path() {
    assert!(unix_addr("/tmp/ssh-broker/a.sock").is_ok());
}

#[test]
fn unix_addr_rejects_an_overlong_path() {
    // sockaddr_un sun_path is ~108 bytes; a 200-char path must be rejected loudly.
    let long = format!("/tmp/{}.sock", "x".repeat(200));
    assert!(unix_addr(&long).is_err());
}

#[test]
fn unix_addr_is_that_of_the_path() {
    let addr = unix_addr("/tmp/a.sock").unwrap();
    assert!(addr.is_unix());
    assert_eq!(addr.as_pathname(), Some(std::path::Path::new("/tmp/a.sock")));
}

#[test]
fn unix_addr_holds_a_path_with_its_final_zero() {
    assert!(unix_addr(&"x".repeat(103)).is_ok());
    let refused = unix_addr(&"x".repeat(108)).err().unwrap();
    assert_eq!(
        refused,
        AddrError {
            bytes: 108,
            reason: "path must be shorter than SUN_LEN".into(),
        }
    );
    assert_eq!(
        refused.message(),
        "AF_UNIX socket path is invalid or too long (108 bytes; sockaddr_un limit ~108): \
         path must be shorter than SUN_LEN"
    );
    // The limit is in bytes, not in characters.
    assert!(unix_addr(&"\u{e9}".repeat(54)).is_err());
}

#[test]
fn production_socket_path_fits_sockaddr_un() {
    assert_eq!(socket_dir(), "C:\\ProgramData\\ssh-broker\\s");
    assert_eq!(socket_path(), "C:\\ProgramData\\ssh-broker\\s\\a.sock");
    assert!(unix_addr(&socket_path()).is_ok());
}

const FINE: BindFacts = BindFacts {
    has_dir: true,
    locked_down: true,
    exists: false,
    answered: false,
    is_socket: true,
    removed: true,
};

#[test]
fn bind_refuses_an_unhardened_directory() {
    let open = BindFacts { locked_down: false, ..FINE };
    assert_eq!(may_bind(Platform::Windows, &open), Err(BindRefusal::NotLockedDown));
    assert_eq!(
        BindRefusal::NotLockedDown.message("p", "C:\\s", ""),
        "socket directory C:\\s is not locked down; refusing to bind (fail-closed)"
    );
    assert_eq!(
        may_bind(Platform::Windows, &BindFacts { has_dir: false, ..FINE }),
        Err(BindRefusal::NoParent)
    );
    assert_eq!(may_bind(Platform::Windows, &FINE), Ok(()));
}

#[test]
fn bind_refuses_when_a_live_listener_holds_the_path() {
    let live = BindFacts { exists: true, answered: true, ..FINE };
    assert_eq!(may_bind(Platform::Unix, &live), Err(BindRefusal::AlreadyListening));
    assert_eq!(may_bind(Platform::Windows, &live), Err(BindRefusal::AlreadyListening));
    assert_eq!(
        BindRefusal::AlreadyListening.message("/tmp/s", "", ""),
        "an agent is already listening on /tmp/s; refusing to bind"
    );
}

#[test]
fn bind_reclaims_a_stale_socket_file() {
    let stale = BindFacts { exists: true, ..FINE };
    assert_eq!(may_bind(Platform::Unix, &stale), Ok(()));
    // A file that is not a socket is left alone.
    let file = BindFacts { is_socket: false, ..stale };
    assert_eq!(may_bind(Platform::Unix, &file), Err(BindRefusal::NotASocket));
    assert_eq!(may_bind(Platform::Windows, &file), Ok(()));
    let stuck = BindFacts { removed: false, ..stale };
    assert_eq!(may_bind(Platform::Windows, &stuck), Err(BindRefusal::RemoveFailed));
    assert_eq!(
        BindRefusal::RemoveFailed.message("/tmp/s", "", "busy"),
        "failed to reclaim stale socket /tmp/s: busy"
    );
}

#[test]
fn bind_probes_before_it_removes() {
    let p = Platform::Windows;
    let mut a = start_bind(p);
    let mut trace = vec![a];
    for yes in [true, true, true, false, true] {
        a = next_bind_action(p, a, yes);
        trace.push(a);
    }
    assert_eq!(
        trace,
        vec![
            BindAction::FindDir,
            BindAction::VerifyDir,
            BindAction::TestExists,
            BindAction::Probe,
            BindAction::Remove,
            BindAction::Bind,
        ]
    );
}
