//! Tests of the bounded wait and its flag.
use ssh_broker::provision::bounded::{
    await_bounded, probe_timeout_from_args, wait_once, wait_result, AwaitError, Received, Timeout,
    TimeoutArgError, DEFAULT_PROBE_TIMEOUT,
};

fn args(items: &[&str]) -> Vec<String> {
    items.iter().map(|s| (*s).to_string()).collect()
}

/// A value already waiting is returned, bound or no bound.
#[test]
fn a_ready_value_is_returned() {
    let (tx, rx) = std::sync::mpsc::channel();
    tx.send(7).unwrap();
    assert_eq!(await_bounded(&rx, Some(Timeout::from_secs(30))).unwrap(), 7);

    let (tx, rx) = std::sync::mpsc::channel();
    tx.send(9).unwrap();
    assert_eq!(await_bounded(&rx, None).unwrap(), 9);
}

/// Expiry must be an error carrying the remedy. Nothing is ever sent, and the sender is kept
/// alive, or the channel would disconnect.
#[test]
fn expiry_reports_the_bound_and_how_to_raise_it() {
    let (_tx, rx) = std::sync::mpsc::channel::<u8>();
    let err = await_bounded(&rx, Some(Timeout::from_millis(1)))
        .unwrap_err()
        .message();
    assert!(
        err.contains("--probe-timeout"),
        "the error must name the flag that raises the bound: {err}"
    );
    assert!(
        !err.contains("relay delivered nothing"),
        "expiry must not blame the relay: {err}"
    );
    assert!(err.contains("within 0s"));
    let bound = Timeout::from_millis(2);
    assert_eq!(
        await_bounded(&rx, Some(bound)),
        Err(AwaitError::Expired(bound)),
        "the bound that expired is the one that was given"
    );
}

/// A worker that dies without reporting must surface as an error too.
#[test]
fn a_dead_worker_is_an_error_not_a_default() {
    let (tx, rx) = std::sync::mpsc::channel::<u8>();
    drop(tx);
    assert!(await_bounded(&rx, Some(Timeout::from_secs(30))).is_err());

    let (tx, rx) = std::sync::mpsc::channel::<u8>();
    drop(tx);
    assert!(
        await_bounded(&rx, None).is_err(),
        "an unbounded wait must not hang on a dead sender"
    );
}

/// A wait with a bound and one without see the same values, in order.
#[test]
fn a_receiver_is_waited_on_one_value_at_a_time() {
    let (tx, rx) = std::sync::mpsc::channel();
    tx.send(1).unwrap();
    tx.send(2).unwrap();
    assert!(matches!(wait_once(&rx, None), Received::Value(1)));
    assert!(matches!(wait_once(&rx, Some(Timeout::from_secs(30))), Received::Value(2)));
    let bound = Timeout::from_millis(1);
    assert!(matches!(wait_once(&rx, Some(bound)), Received::Expired(b) if b == bound));
    drop(tx);
    assert!(matches!(wait_once(&rx, None), Received::Stopped));
    assert_eq!(await_bounded(&rx, None), Err(AwaitError::Stopped));
    assert_eq!(await_bounded(&rx, Some(bound)), Err(AwaitError::Stopped));
}

#[test]
fn wait_result_has_no_default() {
    let bound = Timeout::from_secs(5);
    assert_eq!(wait_result(Received::Value('x')), Ok('x'));
    assert_eq!(
        wait_result::<char>(Received::Expired(bound)),
        Err(AwaitError::Expired(bound))
    );
    assert_eq!(wait_result::<char>(Received::Stopped), Err(AwaitError::Stopped));
    assert_eq!(
        AwaitError::Stopped.message(),
        "the probe worker stopped without reporting"
    );
}

/// `--probe-timeout 0` means WAIT INDEFINITELY.
#[test]
fn zero_means_wait_indefinitely() {
    assert_eq!(
        probe_timeout_from_args(&args(&["verify", "--probe-timeout", "0"])).unwrap(),
        None
    );
    assert_eq!(
        probe_timeout_from_args(&args(&["verify", "--probe-timeout=0"])).unwrap(),
        None
    );
}

/// Both spellings must work.
#[test]
fn both_spellings_are_accepted_and_absence_means_the_default() {
    let five = Some(Timeout::from_secs(5));
    assert_eq!(
        probe_timeout_from_args(&args(&["verify", "--probe-timeout", "5"])).unwrap(),
        five
    );
    assert_eq!(
        probe_timeout_from_args(&args(&["verify", "--probe-timeout=5"])).unwrap(),
        five
    );
    assert_eq!(
        probe_timeout_from_args(&args(&["verify"])).unwrap(),
        Some(Timeout::from_secs(DEFAULT_PROBE_TIMEOUT)),
        "no flag must mean the default, not an unbounded wait"
    );
    assert_eq!(DEFAULT_PROBE_TIMEOUT, 30);
}

/// A present-but-unusable value must fail loudly and name the flag.
#[test]
fn a_malformed_value_errors_and_names_the_flag() {
    for bad in [
        args(&["verify", "--probe-timeout", "abc"]),
        args(&["verify", "--probe-timeout", "-1"]),
        args(&["verify", "--probe-timeout="]),
        args(&["verify", "--probe-timeout"]), // flag last, no value follows
    ] {
        let err = probe_timeout_from_args(&bad).unwrap_err().message();
        assert!(err.contains("--probe-timeout"), "{bad:?} -> {err}");
    }
    assert_eq!(
        probe_timeout_from_args(&args(&["--probe-timeout", "a\"b"]))
            .unwrap_err()
            .message(),
        "--probe-timeout wants whole seconds (0 waits indefinitely), not \"a\\\"b\""
    );
    assert_eq!(
        probe_timeout_from_args(&args(&["--probe-timeout"])),
        Err(TimeoutArgError::Missing)
    );
}

#[test]
fn the_largest_bound_is_read_and_a_larger_one_is_not() {
    assert_eq!(
        probe_timeout_from_args(&args(&["--probe-timeout=+18446744073709551615"])).unwrap(),
        Some(Timeout::from_secs(u64::MAX))
    );
    assert_eq!(
        probe_timeout_from_args(&args(&["--probe-timeout=18446744073709551616"])),
        Err(TimeoutArgError::Malformed("18446744073709551616".into()))
    );
    assert_eq!(Timeout::from_millis(1500), Timeout { secs: 1, nanos: 500_000_000 });
}
