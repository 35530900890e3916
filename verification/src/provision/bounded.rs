//! bounded: `verify`'s bounded wait, and the `--probe-timeout` flag that sizes it.
//!
//! If the agent dies, its socket ends and the probe fails without a clock. The bound covers what
//! has no such signal: an agent that is alive while its child never produces output. It turns a
//! hang into a report; `--probe-timeout 0` keeps the hang for whoever is debugging one.

use vstd::prelude::*;
use crate::shim::texts;
use crate::text::{
    begins_with, chars_of, debug_string, debug_text, dec, is_string, number_in, parse_number,
    push_dec, starts_with, string_of,
};

verus! {

/// A span of time.
#[derive(Debug, Clone, Copy, PartialEq, Eq, Structural)]
pub struct Timeout {
    pub secs: u64,
    /// Below one second.
    pub nanos: u32,
}

impl Timeout {
    pub open spec fn wf(self) -> bool {
        self.nanos < 1_000_000_000
    }

    pub fn from_secs(secs: u64) -> (t: Timeout)
        ensures
            t == (Timeout { secs, nanos: 0 }),
            t.wf(),
    {
        Timeout { secs, nanos: 0 }
    }

    pub fn from_millis(millis: u64) -> (t: Timeout)
        ensures
            t.secs == millis / 1000,
            t.nanos == (millis % 1000) * 1_000_000,
            t.wf(),
    {
        Timeout { secs: millis / 1000, nanos: (millis % 1000) as u32 * 1_000_000 }
    }
}

/// The default bound, in seconds. Generous: it exists to turn a hang into a report, not to police
/// how fast a healthy host answers.
pub const DEFAULT_PROBE_TIMEOUT: u64 = 30;

/// Why a `--probe-timeout` cannot be used.
#[derive(Debug, Clone, PartialEq, Eq)]
pub enum TimeoutArgError {
    /// Nothing follows the flag.
    Missing,
    /// What follows is not a number of seconds.
    Malformed(String),
}

impl TimeoutArgError {
    pub open spec fn text(self) -> Seq<char> {
        match self {
            TimeoutArgError::Missing =>
            "--probe-timeout needs a value in seconds (0 waits indefinitely)"@,
            TimeoutArgError::Malformed(raw) =>
            "--probe-timeout wants whole seconds (0 waits indefinitely), not "@ + debug_text(raw@),
        }
    }

    pub fn message(&self) -> (s: String)
        ensures
            s@ == self.text(),
    {
        match self {
            TimeoutArgError::Missing =>
            "--probe-timeout needs a value in seconds (0 waits indefinitely)".to_owned(),
            TimeoutArgError::Malformed(raw) => {
                let mut s: String =
                    "--probe-timeout wants whole seconds (0 waits indefinitely), not ".to_owned();
                let quoted: String = debug_string(raw.as_str());
                s.append(quoted.as_str());
                s
            },
        }
    }
}

/// What the arguments say of the bound.
pub ghost enum TimeoutArg {
    Absent,
    Missing,
    Value(Seq<char>),
}

/// What the arguments from `i` on say of the bound: the first of `--probe-timeout=<value>` and
/// `--probe-timeout <value>` counts.
pub open spec fn timeout_arg(args: Seq<Seq<char>>, i: int) -> TimeoutArg
    decreases args.len() - i,
{
    if i >= args.len() {
        TimeoutArg::Absent
    } else if begins_with(args[i], "--probe-timeout="@) {
        TimeoutArg::Value(args[i].skip("--probe-timeout="@.len() as int))
    } else if args[i] == "--probe-timeout"@ {
        if i + 1 < args.len() {
            TimeoutArg::Value(args[i + 1])
        } else {
            TimeoutArg::Missing
        }
    } else {
        timeout_arg(args, i + 1)
    }
}

/// The bound that a value in seconds stands for; 0 is none.
fn timeout_from(raw: &[char]) -> (r: Result<Option<Timeout>, TimeoutArgError>)
    ensures
        match number_in(raw@, u64::MAX as nat) {
            Some(n) => r == Ok::<_, TimeoutArgError>(
                if n == 0 {
                    None
                } else {
                    Some(Timeout { secs: n as u64, nanos: 0 })
                },
            ),
            None => r is Err && r->Err_0 is Malformed && r->Err_0->Malformed_0@ == raw@,
        },
{
    match parse_number(raw, u64::MAX) {
        Some(0) => Ok(None),
        Some(secs) => Ok(Some(Timeout::from_secs(secs))),
        None => Err(TimeoutArgError::Malformed(string_of(raw))),
    }
}

/// Read `--probe-timeout` from the arguments, in either spelling; 0 is an indefinite wait, and no
/// flag the default. A value that is no number of seconds is an error, never the default: whoever
/// asked to wait must not be told that the agent failed.
pub fn probe_timeout_from_args(args: &[String]) -> (r: Result<Option<Timeout>, TimeoutArgError>)
    ensures
        match timeout_arg(texts(args@), 0) {
            TimeoutArg::Absent => r == Ok::<_, TimeoutArgError>(
                Some(Timeout { secs: DEFAULT_PROBE_TIMEOUT, nanos: 0 }),
            ),
            TimeoutArg::Missing => r == Err::<Option<Timeout>, _>(TimeoutArgError::Missing),
            TimeoutArg::Value(raw) => match number_in(raw, u64::MAX as nat) {
                Some(n) => r == Ok::<_, TimeoutArgError>(
                    if n == 0 {
                        None
                    } else {
                        Some(Timeout { secs: n as u64, nanos: 0 })
                    },
                ),
                None => r is Err && r->Err_0 is Malformed && r->Err_0->Malformed_0@ == raw,
            },
        },
        r matches Ok(Some(t)) ==> t.wf(),
{
    let ghost all = texts(args@);
    let mut i: usize = 0;
    while i < args.len()
        invariant
            i <= args@.len(),
            all == texts(args@),
            timeout_arg(all, 0) == timeout_arg(all, i as int),
        decreases args@.len() - i,
    {
        assert(all[i as int] == args@[i as int]@);
        let a: Vec<char> = chars_of(args[i].as_str());
        proof {
            reveal_strlit("--probe-timeout=");
            reveal_strlit("--probe-timeout");
        }
        if starts_with(a.as_slice(), "--probe-timeout=") {
            let raw: &[char] = vstd::slice::slice_subrange(a.as_slice(), 16, a.len());
            assert(raw@ =~= a@.skip(16));
            return timeout_from(raw);
        }
        if is_string(args[i].as_str(), "--probe-timeout") {
            if i + 1 < args.len() {
                assert(all[i + 1] == args@[i + 1]@);
                let raw: Vec<char> = chars_of(args[i + 1].as_str());
                return timeout_from(raw.as_slice());
            }
            return Err(TimeoutArgError::Missing);
        }
        i += 1;
    }
    Ok(Some(Timeout::from_secs(DEFAULT_PROBE_TIMEOUT)))
}

/// A receiver of a channel.
#[verifier::external_type_specification]
#[verifier::external_body]
#[verifier::reject_recursive_types(T)]
pub struct ExReceiver<T>(std::sync::mpsc::Receiver<T>);

/// What waiting on a channel gave.
#[derive(Debug)]
pub enum Received<T> {
    Value(T),
    /// The time was up: nothing came within it.
    Expired(Timeout),
    /// Every sender is gone.
    Stopped,
}

/// `std::sync::mpsc::Receiver::recv`: waits until there is a value or no sender is left, for
/// however long. Which of the two comes depends on the senders, so nothing is said of it but that
/// no time is ever up.
#[verifier::external_body]
fn receive<T>(rx: &std::sync::mpsc::Receiver<T>) -> (c: Received<T>)
    ensures
        !(c is Expired),
{
    match rx.recv() {
        Ok(v) => Received::Value(v),
        Err(_) => Received::Stopped,
    }
}

/// `std::sync::mpsc::Receiver::recv_timeout`: waits until there is a value, no sender is left, or
/// the time is up. Which of them comes depends on the senders and the clock, so nothing is said of
/// it but that the time that is up is the one that was given.
#[verifier::external_body]
fn receive_within<T>(rx: &std::sync::mpsc::Receiver<T>, bound: Timeout) -> (c: Received<T>)
    requires
        bound.wf(),
    ensures
        c matches Received::Expired(t) ==> t == bound,
{
    match rx.recv_timeout(std::time::Duration::new(bound.secs, bound.nanos)) {
        Ok(v) => Received::Value(v),
        Err(std::sync::mpsc::RecvTimeoutError::Timeout) => Received::Expired(bound),
        Err(std::sync::mpsc::RecvTimeoutError::Disconnected) => Received::Stopped,
    }
}

/// Whether `c` is what came of a wait on `rx` for as long as `timeout` says: of `receive` where
/// there is no bound, and of `receive_within` that very bound where there is one.
pub closed spec fn came<T>(
    rx: &std::sync::mpsc::Receiver<T>,
    timeout: Option<Timeout>,
    c: Received<T>,
) -> bool {
    match timeout {
        None => call_ensures(receive::<T>, (rx,), c),
        Some(bound) => call_ensures(receive_within::<T>, (rx, bound), c),
    }
}

/// Call a function, and keep what it came to as a fact of that call.
fn call_one<A, C, F: Fn(A) -> C>(f: F, a: A) -> (c: C)
    requires
        call_requires(f, (a,)),
    ensures
        call_ensures(f, (a,), c),
{
    f(a)
}

/// The same with two arguments.
fn call_two<A, B, C, F: Fn(A, B) -> C>(f: F, a: A, b: B) -> (c: C)
    requires
        call_requires(f, (a, b)),
    ensures
        call_ensures(f, (a, b), c),
{
    f(a, b)
}

/// Wait once on a receiver, for as long as `timeout` says; without one, indefinitely. What comes
/// depends on the senders and the clock.
pub fn wait_once<T>(rx: &std::sync::mpsc::Receiver<T>, timeout: Option<Timeout>) -> (c: Received<T>)
    requires
        timeout is Some ==> timeout->0.wf(),
    ensures
        came(rx, timeout, c),
        c matches Received::Expired(bound) ==> timeout == Some(bound),
{
    match timeout {
        None => call_one(receive::<T>, rx),
        Some(bound) => call_two(receive_within::<T>, rx, bound),
    }
}

/// Why a wait gave nothing.
#[derive(Debug, Clone, Copy, PartialEq, Eq, Structural)]
pub enum AwaitError {
    /// Nothing came within the bound.
    Expired(Timeout),
    /// The worker stopped without reporting.
    Stopped,
}

impl AwaitError {
    /// The text of the error. It names what is known, that no output came within so many whole
    /// seconds, and how to raise the bound.
    pub open spec fn text(self) -> Seq<char> {
        match self {
            AwaitError::Expired(bound) =>
            "the agent accepted the connection but the probe produced no output within "@ + dec(
                bound.secs as nat,
            )
                + "s \u{2014} the agent or the session-1 child may be wedged. Raise the bound with `--probe-timeout <seconds>`, or `--probe-timeout 0` to wait indefinitely"@,
            AwaitError::Stopped => "the probe worker stopped without reporting"@,
        }
    }

    pub fn message(&self) -> (s: String)
        ensures
            s@ == self.text(),
    {
        match self {
            AwaitError::Expired(bound) => {
                let mut s: String =
                    "the agent accepted the connection but the probe produced no output within ".to_owned();
                push_dec(&mut s, bound.secs);
                s.append(
                    "s \u{2014} the agent or the session-1 child may be wedged. Raise the bound with `--probe-timeout <seconds>`, or `--probe-timeout 0` to wait indefinitely",
                );
                s
            },
            AwaitError::Stopped => "the probe worker stopped without reporting".to_owned(),
        }
    }
}

/// What a wait comes to, given what the channel gave. Only a value is a result: neither an expired
/// wait nor a dead worker has a default.
pub open spec fn result_of<T>(received: Received<T>) -> Result<T, AwaitError> {
    match received {
        Received::Value(v) => Ok(v),
        Received::Stopped => Err(AwaitError::Stopped),
        Received::Expired(bound) => Err(AwaitError::Expired(bound)),
    }
}

pub fn wait_result<T>(received: Received<T>) -> (r: Result<T, AwaitError>)
    ensures
        r == result_of(received),
{
    match received {
        Received::Value(v) => Ok(v),
        Received::Stopped => Err(AwaitError::Stopped),
        Received::Expired(bound) => Err(AwaitError::Expired(bound)),
    }
}

/// Wait for a value, giving up after `timeout` if there is one; without one, wait indefinitely.
/// The result is that of what came of a wait on `rx` for exactly that long. What comes depends on
/// the senders and the clock; only a wait with a bound expires, and the bound that it reports is
/// that one.
pub fn await_bounded<T>(rx: &std::sync::mpsc::Receiver<T>, timeout: Option<Timeout>) -> (r: Result<
    T,
    AwaitError,
>)
    requires
        timeout is Some ==> timeout->0.wf(),
    ensures
        exists|c: Received<T>| #[trigger] came(rx, timeout, c) && r == result_of(c),
        r matches Err(AwaitError::Expired(bound)) ==> timeout == Some(bound),
{
    let received: Received<T> = wait_once(rx, timeout);
    wait_result(received)
}

// Laws.

/// The two spellings of the flag mean the same: the value behind it, wherever the flag stands and
/// whatever follows. A number of seconds is that bound, 0 is none, and anything else is refused.
pub proof fn law_flag_sets_the_bound(
    args: &[String],
    r: Result<Option<Timeout>, TimeoutArgError>,
    front: Seq<Seq<char>>,
    n: nat,
    back: Seq<Seq<char>>,
)
    requires
        call_ensures(probe_timeout_from_args, (args,), r),
        forall|i: int|
            0 <= i < front.len() ==> !begins_with(#[trigger] front[i], "--probe-timeout="@) && front[i]
                != "--probe-timeout"@,
        texts(args@) == front + seq!["--probe-timeout"@, dec(n)] + back || texts(args@) == front
            + seq!["--probe-timeout="@ + dec(n)] + back,
    ensures
        0 < n <= u64::MAX ==> r == Ok::<_, TimeoutArgError>(
            Some(Timeout { secs: n as u64, nanos: 0 }),
        ),
        n == 0 ==> r == Ok::<_, TimeoutArgError>(None::<Timeout>),
        n > u64::MAX ==> r is Err && r->Err_0 is Malformed,
{
    let all = texts(args@);
    let k = front.len() as int;
    reveal_strlit("--probe-timeout=");
    reveal_strlit("--probe-timeout");
    assert forall|j: int| 0 <= j < k implies all[j] == #[trigger] front[j] by {
    }
    lemma_flag_at(front, all, 0);
    if all == front + seq!["--probe-timeout"@, dec(n)] + back {
        assert(all[k] == "--probe-timeout"@);
        assert(all[k + 1] == dec(n));
        assert(all[k].len() == 15);
        assert(timeout_arg(all, k) == TimeoutArg::Value(dec(n)));
    } else {
        let joined = "--probe-timeout="@ + dec(n);
        assert(all[k] == joined);
        assert(joined.take(16) =~= "--probe-timeout="@);
        assert(joined.skip(16) =~= dec(n));
        assert(timeout_arg(all, k) == TimeoutArg::Value(dec(n)));
    }
    crate::text::law_decimal_round_trip(n, n);
    if n <= u64::MAX {
        crate::text::law_decimal_round_trip(n, u64::MAX as nat);
    } else {
        crate::text::law_numbers_are_digits(n, u64::MAX as nat, Seq::empty(), 0);
    }
}

proof fn lemma_flag_at(front: Seq<Seq<char>>, all: Seq<Seq<char>>, i: int)
    requires
        0 <= i <= front.len() < all.len(),
        forall|j: int| 0 <= j < front.len() ==> all[j] == #[trigger] front[j],
        forall|j: int|
            0 <= j < front.len() ==> !begins_with(#[trigger] front[j], "--probe-timeout="@) && front[j]
                != "--probe-timeout"@,
    ensures
        timeout_arg(all, i) == timeout_arg(all, front.len() as int),
    decreases front.len() - i,
{
    if i < front.len() {
        assert(all[i] == front[i]);
        lemma_flag_at(front, all, i + 1);
    }
}

/// Without the flag the bound is thirty seconds; a flag with nothing behind it is refused.
pub proof fn law_absent_flag_is_the_default(
    args: &[String],
    r: Result<Option<Timeout>, TimeoutArgError>,
)
    requires
        call_ensures(probe_timeout_from_args, (args,), r),
        forall|i: int|
            0 <= i < args@.len() - 1 ==> !begins_with(
                #[trigger] texts(args@)[i],
                "--probe-timeout="@,
            ) && texts(args@)[i] != "--probe-timeout"@,
        args@.len() > 0 ==> !begins_with(texts(args@)[args@.len() - 1], "--probe-timeout="@),
    ensures
        args@.len() > 0 && texts(args@)[args@.len() - 1] == "--probe-timeout"@ ==> r == Err::<
            Option<Timeout>,
            _,
        >(TimeoutArgError::Missing),
        args@.len() == 0 || texts(args@)[args@.len() - 1] != "--probe-timeout"@ ==> r == Ok::<
            _,
            TimeoutArgError,
        >(Some(Timeout { secs: 30, nanos: 0 })),
{
    let all = texts(args@);
    if all.len() > 0 {
        let front = all.drop_last();
        assert forall|j: int| 0 <= j < front.len() implies !begins_with(
            #[trigger] front[j],
            "--probe-timeout="@,
        ) && front[j] != "--probe-timeout"@ by {
            assert(front[j] == all[j]);
        }
        lemma_flag_at(front, all, 0);
        assert(timeout_arg(all, all.len() as int) == TimeoutArg::Absent);
    }
}

/// A value that came is the result; neither an expired wait nor a dead worker is ever one.
pub proof fn law_only_a_value_is_a_result<T>(c: Received<T>)
    ensures
        result_of(c) is Ok <==> c is Value,
        c matches Received::Value(v) ==> result_of(c) == Ok::<_, AwaitError>(v),
        c matches Received::Expired(b) ==> result_of(c) == Err::<T, _>(AwaitError::Expired(b)),
        c is Stopped ==> result_of(c) == Err::<T, _>(AwaitError::Stopped),
{
}

} // verus!
