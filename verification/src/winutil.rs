//! winutil: error codes, and the order in which a process is contained.

use vstd::prelude::*;
use crate::protocol::{bits_of, from_bits, to_signed, to_unsigned};

verus! {

/// The code of a failure of which nothing more is known.
pub const E_FAIL: u32 = 0x8000_4005;

/// Why a process could not be put into a job.
#[derive(Debug)]
pub struct JobError {
    /// The text of the error.
    pub text: String,
    pub cause: JobCause,
}

/// What an error carries of the system's own error; each code is there if the system gave one.
#[derive(Debug)]
pub enum JobCause {
    /// It is the system's error.
    Io(Option<i32>),
    /// It has the system's error as its source, or no source.
    Source(Option<Option<i32>>),
    /// It wraps another error of the same kind.
    Wrapped(Box<JobCause>),
    /// It carries none.
    Other,
}

impl JobCause {
    /// The system's code, if there is one.
    pub open spec fn code(self) -> Option<i32>
        decreases self,
    {
        match self {
            JobCause::Io(c) => c,
            JobCause::Source(Some(c)) => c,
            JobCause::Source(None) => None,
            JobCause::Wrapped(inner) => inner.code(),
            JobCause::Other => None,
        }
    }

    pub fn os_code(&self) -> (c: Option<i32>)
        ensures
            c == self.code(),
        decreases self,
    {
        match self {
            JobCause::Io(c) => *c,
            JobCause::Source(Some(c)) => *c,
            JobCause::Source(None) => None,
            JobCause::Wrapped(inner) => inner.os_code(),
            JobCause::Other => None,
        }
    }
}

/// A Windows error: a result code and a message.
#[derive(Debug, Clone, PartialEq, Eq)]
pub struct WinError {
    pub code: i32,
    pub message: String,
}

/// The result code of a system error code. One that is zero or already a result code (negative)
/// stays as it is; any other becomes a failure of the Win32 facility with its low word.
pub open spec fn hresult(code: i32) -> i32 {
    if code <= 0 {
        code
    } else {
        from_bits(0x8007_0000 + code % 0x10000)
    }
}

pub fn hresult_from_win32(code: u32) -> (r: i32)
    ensures
        r == hresult(from_bits(code as int)),
{
    if code == 0 || code >= 0x8000_0000 {
        to_signed(code)
    } else {
        to_signed(0x8007_0000 + code % 0x10000)
    }
}

/// Turn a containment failure into a Windows error, keeping the system's code when there is one.
/// A code that was made up instead would send whoever reads the log after a cause that was never
/// there.
pub fn win_error_from(e: &JobError, context: &str) -> (w: WinError)
    ensures
        w.code == match e.cause.code() {
            Some(c) => hresult(c),
            None => from_bits(E_FAIL as int),
        },
        w.message@ == context@ + ": "@ + e.text@,
{
    let code: i32 = match e.cause.os_code() {
        Some(c) => {
            let bits: u32 = to_unsigned(c);
            assert(from_bits(bits as int) == c);
            hresult_from_win32(bits)
        },
        None => to_signed(E_FAIL),
    };
    let mut message: String = context.to_owned();
    message.append(": ");
    message.append(e.text.as_str());
    WinError { code, message }
}

/// What is done to a process that was created suspended.
#[derive(Debug, Clone, Copy, PartialEq, Eq, Structural)]
pub enum ContainAction {
    /// Put it into a job.
    Assign,
    /// Let it run.
    Resume,
    /// Kill it: it is in no job and must not run.
    Terminate,
    /// Kill it together with its job.
    KillTree,
    /// It runs, contained.
    Contained,
    /// It was killed; the failure is reported.
    Abandoned,
}

/// What follows an action, given whether it succeeded. Resuming comes only after the process is
/// in a job, or a descendant could be born outside of it. A kill that fails is reported, and the
/// process abandoned all the same.
pub open spec fn after_action(a: ContainAction, ok: bool) -> ContainAction {
    match a {
        ContainAction::Assign => if ok {
            ContainAction::Resume
        } else {
            ContainAction::Terminate
        },
        ContainAction::Resume => if ok {
            ContainAction::Contained
        } else {
            ContainAction::KillTree
        },
        ContainAction::Terminate => ContainAction::Abandoned,
        ContainAction::KillTree => ContainAction::Abandoned,
        ContainAction::Contained => ContainAction::Contained,
        ContainAction::Abandoned => ContainAction::Abandoned,
    }
}

pub fn next_action(a: ContainAction, ok: bool) -> (n: ContainAction)
    ensures
        n == after_action(a, ok),
{
    match a {
        ContainAction::Assign => {
            if ok {
                ContainAction::Resume
            } else {
                ContainAction::Terminate
            }
        },
        ContainAction::Resume => {
            if ok {
                ContainAction::Contained
            } else {
                ContainAction::KillTree
            }
        },
        ContainAction::Terminate => ContainAction::Abandoned,
        ContainAction::KillTree => ContainAction::Abandoned,
        ContainAction::Contained => ContainAction::Contained,
        ContainAction::Abandoned => ContainAction::Abandoned,
    }
}

/// Whether resuming the thread failed: its previous suspend count is then all ones.
pub fn resumed(previous: u32) -> (ok: bool)
    ensures
        ok == (previous != u32::MAX),
{
    previous != 0xffff_ffff
}

/// How many words of `word` bytes hold `bytes` bytes, at least one.
pub fn attribute_words(bytes: usize, word: usize) -> (n: usize)
    requires
        word > 0,
    ensures
        n >= 1,
        n * word >= bytes,
        n == 1 || (n - 1) * word < bytes,
{
    let whole: usize = bytes / word;
    let rest: usize = bytes % word;
    proof {
        assert(bytes == whole * word + rest) by (nonlinear_arith)
            requires
                word > 0,
                whole == bytes / word,
                rest == bytes % word,
        ;
        assert((whole + 1) * word == whole * word + word) by (nonlinear_arith);
        assert((whole - 1) * word == whole * word - word) by (nonlinear_arith);
        assert(whole == 0 ==> whole * word == 0) by (nonlinear_arith);
        assert(rest > 0 ==> whole < usize::MAX) by (nonlinear_arith)
            requires
                word > 0,
                bytes == whole * word + rest,
                bytes <= usize::MAX,
        ;
    }
    if rest > 0 {
        whole + 1
    } else if whole == 0 {
        1
    } else {
        whole
    }
}

// Laws.

/// A system code survives: the low word of the result code is the code.
pub proof fn law_code_survives(code: i32)
    requires
        0 < code < 0x10000,
    ensures
        bits_of(hresult(code)) == 0x8007_0000 + code,
        hresult(code) < 0,
{
}

/// A code that already is a result code is not encoded a second time.
pub proof fn law_encoding_twice_is_encoding_once(code: i32)
    ensures
        hresult(hresult(code)) == hresult(code),
{
}

/// A process runs only if it is contained: after any run of answers, `Contained` was reached by
/// assigning and then resuming, both with success.
pub proof fn law_only_a_contained_process_runs(assigned: bool, is_resumed: bool, killed: bool)
    ensures
        ({
            let second = after_action(ContainAction::Assign, assigned);
            let third = after_action(
                second,
                if second == ContainAction::Resume {
                    is_resumed
                } else {
                    killed
                },
            );
            let end = after_action(third, killed);
            &&& second == ContainAction::Resume <==> assigned
            &&& end == ContainAction::Contained <==> assigned && is_resumed
            &&& end == ContainAction::Abandoned <==> !(assigned && is_resumed)
        }),
{
}

/// The code that is reported is that of the system's own error wherever the failure carries one, on
/// whatever level, and the text is always there.
pub proof fn law_wrapped_code_is_found(cause: JobCause, c: i32)
    ensures
        JobCause::Wrapped(Box::new(cause)).code() == cause.code(),
        JobCause::Io(Some(c)).code() == Some(c),
        JobCause::Source(Some(Some(c))).code() == Some(c),
        JobCause::Source(None).code() is None,
        JobCause::Io(None).code() is None,
        JobCause::Other.code() is None,
{
}

/// Two system codes are never reported as the same one, and none as a success.
pub proof fn law_codes_stay_different(a: i32, b: i32)
    requires
        0 < a < 0x10000,
        0 < b < 0x10000,
        hresult(a) == hresult(b),
    ensures
        a == b,
        hresult(a) < 0,
{
    law_code_survives(a);
    law_code_survives(b);
}

} // verus!
