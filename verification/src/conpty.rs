//! conpty: the decisions of the pseudoconsole host: sizes, creation flags, and writing a buffer
//! whole.

use vstd::prelude::*;

verus! {

/// Fixes resize-reflow artifacts.
pub const RESIZE_QUIRK: u32 = 0x0002;

/// Accept win32-input-mode sequences.
pub const WIN32_INPUT_MODE: u32 = 0x0004;

/// Relay the child's output directly.
pub const PASSTHROUGH_MODE: u32 = 0x0008;

/// The flags with which a pseudoconsole is created: all of them, and where that failed, those
/// without passthrough. `None` where both have failed.
pub fn next_pty_flags(tried: Option<u32>) -> (flags: Option<u32>)
    ensures
        flags == match tried {
            None => Some(RESIZE_QUIRK | WIN32_INPUT_MODE | PASSTHROUGH_MODE),
            Some(t) => if t == RESIZE_QUIRK | WIN32_INPUT_MODE | PASSTHROUGH_MODE {
                Some(RESIZE_QUIRK | WIN32_INPUT_MODE)
            } else {
                None
            },
        },
{
    match tried {
        None => Some(RESIZE_QUIRK | WIN32_INPUT_MODE | PASSTHROUGH_MODE),
        Some(t) => {
            if t == RESIZE_QUIRK | WIN32_INPUT_MODE | PASSTHROUGH_MODE {
                Some(RESIZE_QUIRK | WIN32_INPUT_MODE)
            } else {
                None
            }
        },
    }
}

/// A dimension of a pseudoconsole, at least 1, in the 16 signed bits that the system takes.
pub open spec fn dimension(n: u16) -> int {
    if n == 0 {
        1
    } else if n < 0x8000 {
        n as int
    } else {
        n - 0x10000
    }
}

pub fn to_dimension(n: u16) -> (d: i16)
    ensures
        d == dimension(n),
{
    if n == 0 {
        1
    } else if n < 0x8000 {
        n as i16
    } else {
        (n as i32 - 0x10000) as i16
    }
}

/// How many bytes a read gave: none where it failed, which is the end of the stream to the relay.
pub fn read_count(read: Option<u32>) -> (n: usize)
    ensures
        n == match read {
            Some(k) => k,
            None => 0,
        },
{
    match read {
        Some(k) => k as usize,
        None => 0,
    }
}

/// How a write of a whole buffer goes on.
#[derive(Debug, Clone, Copy, PartialEq, Eq, Structural)]
pub enum WriteStep {
    /// Everything is written.
    Done,
    /// Write from this offset on.
    From(usize),
    /// The write failed, or took nothing: stop, rather than drop the tail of a sequence.
    Failed,
}

/// What follows a write from `offset` on of a buffer of `len` bytes, given how many it took.
pub fn after_write(len: usize, offset: usize, written: Option<u32>) -> (step: WriteStep)
    requires
        offset < len,
        written is Some ==> written->0 <= len - offset,
    ensures
        step == match written {
            None => WriteStep::Failed,
            Some(n) => if n == 0 {
                WriteStep::Failed
            } else if offset + n == len {
                WriteStep::Done
            } else {
                WriteStep::From((offset + n) as usize)
            },
        },
{
    match written {
        None => WriteStep::Failed,
        Some(n) => {
            if n == 0 {
                WriteStep::Failed
            } else if offset + n as usize == len {
                WriteStep::Done
            } else {
                WriteStep::From(offset + n as usize)
            }
        },
    }
}

/// A handle whose writes are known beforehand: each takes at most so many bytes, or fails. After
/// the last of them every write takes everything.
#[derive(Debug)]
pub struct WriteScript {
    pub answers: Vec<Option<u32>>,
    pub written: Vec<u8>,
}

/// How many of the offered bytes a write takes.
pub open spec fn taken(offered: nat, answer: Option<u32>) -> nat {
    match answer {
        None => 0,
        Some(n) => if n < offered {
            n as nat
        } else {
            offered
        },
    }
}

/// How many bytes of a buffer are written before it is whole or a write fails.
pub open spec fn total_taken(len: nat, answers: Seq<Option<u32>>) -> nat
    decreases answers.len(),
{
    if len == 0 || answers.len() == 0 {
        len
    } else {
        let n = taken(len, answers[0]);
        if n == 0 {
            0
        } else {
            n + total_taken((len - n) as nat, answers.skip(1))
        }
    }
}

/// The answers that are left once a buffer is written or a write has failed.
pub open spec fn answers_left(len: nat, answers: Seq<Option<u32>>) -> Seq<Option<u32>>
    decreases answers.len(),
{
    if len == 0 || answers.len() == 0 {
        answers
    } else {
        let n = taken(len, answers[0]);
        if n == 0 {
            answers.skip(1)
        } else {
            answers_left((len - n) as nat, answers.skip(1))
        }
    }
}

/// Write the whole buffer, going on after each short write. Says whether everything was written;
/// what was written is always the front of the buffer.
pub fn write_all_on(handle: &mut WriteScript, buf: &[u8]) -> (ok: bool)
    requires
        buf@.len() <= u32::MAX,
    ensures
        ({
            let n = total_taken(buf@.len(), old(handle).answers@);
            &&& final(handle).written@ == old(handle).written@ + buf@.take(n as int)
            &&& final(handle).answers@ == answers_left(buf@.len(), old(handle).answers@)
            &&& ok == (n == buf@.len())
        }),
{
    let ghost answers0 = handle.answers@;
    let ghost before = handle.written@;
    let len: usize = buf.len();
    let mut offset: usize = 0;
    proof {
        lemma_total_taken(buf@.len(), answers0);
        assert(before + buf@.take(0) =~= before);
    }
    while offset < len
        invariant
            len == buf@.len(),
            len <= u32::MAX,
            offset <= len,
            answers0 == old(handle).answers@,
            before == old(handle).written@,
            handle.written@ == before + buf@.take(offset as int),
            total_taken(buf@.len(), answers0) == offset + total_taken(
                (len - offset) as nat,
                handle.answers@,
            ),
            answers_left(buf@.len(), answers0) == answers_left(
                (len - offset) as nat,
                handle.answers@,
            ),
        decreases len - offset,
    {
        let ghost rest = handle.answers@;
        let offered: u32 = (len - offset) as u32;
        let written: Option<u32> = if handle.answers.len() == 0 {
            Some(offered)
        } else {
            let answer: Option<u32> = handle.answers.remove(0);
            assert(handle.answers@ =~= rest.skip(1));
            match answer {
                None => None,
                Some(n) => {
                    if n < offered {
                        Some(n)
                    } else {
                        Some(offered)
                    }
                },
            }
        };
        let step: WriteStep = after_write(len, offset, written);
        proof {
            lemma_total_taken((len - offset) as nat, rest);
        }
        match step {
            WriteStep::Failed => {
                return false;
            },
            WriteStep::Done => {
                let part: &[u8] = vstd::slice::slice_subrange(buf, offset, len);
                handle.written.extend_from_slice(part);
                assert(handle.written@ =~= before + buf@.take(len as int));
                proof {
                    if rest.len() > 0 {
                        lemma_total_taken(0, rest.skip(1));
                        assert(answers_left(0, rest.skip(1)) == rest.skip(1));
                    }
                }
                return true;
            },
            WriteStep::From(next) => {
                let part: &[u8] = vstd::slice::slice_subrange(buf, offset, next);
                handle.written.extend_from_slice(part);
                assert(handle.written@ =~= before + buf@.take(next as int));
                offset = next;
            },
        }
    }
    true
}

proof fn lemma_total_taken(len: nat, answers: Seq<Option<u32>>)
    ensures
        total_taken(len, answers) <= len,
    decreases answers.len(),
{
    if len > 0 && answers.len() > 0 {
        let n = taken(len, answers[0]);
        if n > 0 {
            lemma_total_taken((len - n) as nat, answers.skip(1));
        }
    }
}

/// Short writes are continued: where no write fails or takes nothing, everything is written,
/// however little each takes.
pub proof fn law_short_writes_are_continued(len: nat, answers: Seq<Option<u32>>)
    requires
        forall|i: int| 0 <= i < answers.len() ==> (#[trigger] answers[i]) is Some && answers[i]->0 > 0,
    ensures
        total_taken(len, answers) == len,
    decreases answers.len(),
{
    if len > 0 && answers.len() > 0 {
        let fewer = answers.skip(1);
        assert forall|i: int| 0 <= i < fewer.len() implies (#[trigger] fewer[i]) is Some
            && fewer[i]->0 > 0 by {
            assert(fewer[i] == answers[i + 1]);
        }
        assert(answers[0] is Some && answers[0]->0 > 0);
        let n = taken(len, answers[0]);
        law_short_writes_are_continued((len - n) as nat, fewer);
    }
}

/// A write that fails, or takes nothing, ends it: what was written before it stays written, and
/// nothing is written after it.
pub proof fn law_failed_write_ends_it(len: nat, first: u32, rest: Seq<Option<u32>>)
    requires
        0 < first < len,
    ensures
        total_taken(len, seq![Some(first), None] + rest) == first,
        total_taken(len, seq![Some(first), Some(0u32)] + rest) == first,
        total_taken(len, seq![None::<u32>] + rest) == 0,
{
    let a = seq![Some(first), None] + rest;
    let b = seq![Some(first), Some(0u32)] + rest;
    assert(a.skip(1)[0] is None);
    assert(b.skip(1)[0] == Some(0u32));
    reveal_with_fuel(total_taken, 3);
    assert((seq![None::<u32>] + rest)[0] is None);
}

/// A pseudoconsole is first asked for with everything, then without passthrough, and then no more.
pub proof fn law_flags_are_tried_in_order(a: Option<u32>, b: Option<u32>, c: Option<u32>)
    requires
        call_ensures(next_pty_flags, (None,), a),
        a is Some ==> call_ensures(next_pty_flags, (a,), b),
        b is Some ==> call_ensures(next_pty_flags, (b,), c),
    ensures
        a == Some(0xeu32),
        b == Some(0x6u32),
        c is None,
{
    assert(0x2u32 | 0x4u32 | 0x8u32 == 0xe && 0x2u32 | 0x4u32 == 0x6) by (bit_vector);
}

/// A dimension is passed on as it is wherever the system can hold it, and is never 0.
pub proof fn law_dimensions_are_kept(n: u16, d: i16)
    requires
        call_ensures(to_dimension, (n,), d),
    ensures
        0 < n < 0x8000 ==> d == n,
        d != 0,
{
}

} // verus!
