//! xtwinops: stripping window-manipulation sequences from terminal output.

use vstd::prelude::*;

verus! {

pub const ESC: u8 = 0x1b;

/// `[`, which makes an escape a control sequence.
pub const BRACKET: u8 = 0x5b;

/// `t`, the final byte of a window-manipulation sequence.
pub const WINDOW_OP: u8 = 0x74;

/// Parameter and intermediate bytes of a control sequence.
pub open spec fn is_param(b: u8) -> bool {
    0x20 <= b <= 0x3f
}

/// The byte that completes a control sequence.
pub open spec fn is_final(b: u8) -> bool {
    0x40 <= b <= 0x7e
}

/// Where the run of parameter bytes that goes on at `i` ends.
pub open spec fn param_end(s: Seq<u8>, i: int) -> int
    decreases s.len() - i,
{
    if i < s.len() && is_param(s[i]) {
        param_end(s, i + 1)
    } else {
        i
    }
}

/// What is forwarded of a stream, and the sequence at its end that is not complete yet.
pub ghost struct Shown {
    pub out: Seq<u8>,
    pub held: Seq<u8>,
}

/// Forwarding `front` before what follows.
pub open spec fn forward(front: Seq<u8>, s: Shown) -> Shown {
    Shown { out: front + s.out, held: s.held }
}

/// What is forwarded of a stream: every byte but those of `ESC [ <params> t`. A sequence that is
/// cut by the end of the stream is held; one that is cut by a byte outside its grammar is
/// forwarded, and that byte is looked at afresh.
pub open spec fn shown(s: Seq<u8>) -> Shown
    decreases s.len(),
    via shown_decreases
{
    if s.len() == 0 {
        Shown { out: Seq::empty(), held: Seq::empty() }
    } else if s[0] != ESC {
        forward(s.take(1), shown(s.skip(1)))
    } else if s.len() == 1 {
        Shown { out: Seq::empty(), held: s }
    } else if s[1] != BRACKET {
        forward(s.take(1), shown(s.skip(1)))
    } else {
        let n = param_end(s, 2);
        if n >= s.len() {
            Shown { out: Seq::empty(), held: s }
        } else if s[n] == WINDOW_OP {
            shown(s.skip(n + 1))
        } else if is_final(s[n]) {
            forward(s.take(n + 1), shown(s.skip(n + 1)))
        } else {
            forward(s.take(n), shown(s.skip(n)))
        }
    }
}

#[via_fn]
proof fn shown_decreases(s: Seq<u8>) {
    lemma_param_end(s, 2);
}

proof fn lemma_param_end(s: Seq<u8>, i: int)
    ensures
        param_end(s, i) >= i,
        i <= s.len() ==> param_end(s, i) <= s.len(),
        forall|j: int| i <= j < param_end(s, i) ==> is_param(#[trigger] s[j]),
        i <= param_end(s, i) < s.len() ==> !is_param(s[param_end(s, i)]),
    decreases s.len() - i,
{
    if i < s.len() && is_param(s[i]) {
        lemma_param_end(s, i + 1);
    }
}

/// A run of parameter bytes that is known to end at `n`.
proof fn lemma_param_end_is(s: Seq<u8>, i: int, n: int)
    requires
        0 <= i <= n <= s.len(),
        forall|j: int| i <= j < n ==> is_param(#[trigger] s[j]),
        n < s.len() ==> !is_param(s[n]),
    ensures
        param_end(s, i) == n,
    decreases n - i,
{
    if i < n {
        assert(is_param(s[i]));
        lemma_param_end_is(s, i + 1, n);
    }
}

/// Whether bytes are the beginning of a control sequence that is not complete.
pub open spec fn is_held(h: Seq<u8>) -> bool {
    ||| h.len() == 0
    ||| h == seq![ESC]
    ||| h.len() >= 2 && h[0] == ESC && h[1] == BRACKET && forall|j: int|
        2 <= j < h.len() ==> is_param(#[trigger] h[j])
}

/// How a stream is cut into chunks does not matter: what is held of the first chunk is looked at
/// again together with the second.
pub proof fn law_filter_chunking(a: Seq<u8>, b: Seq<u8>)
    ensures
        shown(a + b) == forward(shown(a).out, shown(shown(a).held + b)),
    decreases a.len(),
{
    let none = Seq::<u8>::empty();
    if a.len() == 0 {
        assert(a + b =~= b);
        assert(none + b =~= b);
        assert(none + shown(b).out =~= shown(b).out);
    } else if a[0] != ESC {
        law_filter_chunking(a.skip(1), b);
        assert((a + b).skip(1) =~= a.skip(1) + b);
        assert((a + b).take(1) =~= a.take(1));
        lemma_forward(a.take(1), a.skip(1), b);
    } else if a.len() == 1 {
        assert(none + shown(a + b).out =~= shown(a + b).out);
    } else if a[1] != BRACKET {
        law_filter_chunking(a.skip(1), b);
        assert((a + b).skip(1) =~= a.skip(1) + b);
        assert((a + b).take(1) =~= a.take(1));
        lemma_forward(a.take(1), a.skip(1), b);
    } else {
        let n = param_end(a, 2);
        lemma_param_end(a, 2);
        if n >= a.len() {
            assert(none + shown(a + b).out =~= shown(a + b).out);
        } else {
            lemma_param_end_is(a + b, 2, n);
            if is_final(a[n]) {
                law_filter_chunking(a.skip(n + 1), b);
                assert((a + b).skip(n + 1) =~= a.skip(n + 1) + b);
                assert((a + b).take(n + 1) =~= a.take(n + 1));
                lemma_forward(a.take(n + 1), a.skip(n + 1), b);
            } else {
                law_filter_chunking(a.skip(n), b);
                assert((a + b).skip(n) =~= a.skip(n) + b);
                assert((a + b).take(n) =~= a.take(n));
                lemma_forward(a.take(n), a.skip(n), b);
            }
        }
    }
}

proof fn lemma_forward(front: Seq<u8>, rest: Seq<u8>, b: Seq<u8>)
    ensures
        forward(front, forward(shown(rest).out, shown(shown(rest).held + b))) == forward(
            forward(front, shown(rest)).out,
            shown(forward(front, shown(rest)).held + b),
        ),
{
    let end = shown(shown(rest).held + b).out;
    assert(front + (shown(rest).out + end) =~= (front + shown(rest).out) + end);
}

/// What one more byte does to a held sequence.
proof fn lemma_step(h: Seq<u8>, b: u8)
    requires
        is_held(h),
    ensures
        h.len() == 0 && b != ESC ==> shown(h.push(b)) == (Shown {
            out: seq![b],
            held: Seq::empty(),
        }),
        h.len() == 0 && b == ESC ==> shown(h.push(b)) == (Shown {
            out: Seq::empty(),
            held: seq![ESC],
        }),
        h.len() == 1 && b == BRACKET ==> shown(h.push(b)) == (Shown {
            out: Seq::empty(),
            held: h.push(b),
        }),
        h.len() == 1 && b != BRACKET ==> shown(h.push(b)) == forward(h, shown(seq![b])),
        h.len() >= 2 && is_param(b) ==> shown(h.push(b)) == (Shown {
            out: Seq::empty(),
            held: h.push(b),
        }),
        h.len() >= 2 && b == WINDOW_OP ==> shown(h.push(b)) == (Shown {
            out: Seq::empty(),
            held: Seq::empty(),
        }),
        h.len() >= 2 && is_final(b) && b != WINDOW_OP ==> shown(h.push(b)) == (Shown {
            out: h.push(b),
            held: Seq::empty(),
        }),
        h.len() >= 2 && !is_param(b) && !is_final(b) ==> shown(h.push(b)) == forward(
            h,
            shown(seq![b]),
        ),
{
    let s = h.push(b);
    let none = Seq::<u8>::empty();
    assert(shown(none) == (Shown { out: none, held: none }));
    if h.len() == 0 {
        assert(s =~= seq![b]);
        assert(s.skip(1) =~= none);
        assert(s.take(1) + none =~= seq![b]);
    } else if h.len() == 1 {
        assert(s.skip(1) =~= seq![b]);
        assert(s.take(1) =~= h);
        if b == BRACKET {
            lemma_param_end(s, 2);
        }
    } else {
        let n = s.len() - 1;
        if is_param(b) {
            assert forall|j: int| 2 <= j < s.len() implies is_param(#[trigger] s[j]) by {
                if j < n {
                    assert(s[j] == h[j]);
                }
            }
            lemma_param_end_is(s, 2, s.len() as int);
        } else {
            assert forall|j: int| 2 <= j < n implies is_param(#[trigger] s[j]) by {
                assert(s[j] == h[j]);
            }
            lemma_param_end_is(s, 2, n);
            assert(s.skip(n + 1) =~= none);
            assert(s.take(n + 1) =~= s);
            assert(s.take(n) =~= h);
            assert(s.skip(n) =~= seq![b]);
            assert(s + none =~= s);
        }
    }
}

/// Strips XTWINOPS window-manipulation sequences (`CSI <params> t`) from a VT byte stream; a
/// real terminal would answer them with spurious window queries and prompts. Every other byte,
/// the other control sequences and the other escapes included, passes unchanged. A sequence that
/// is split across chunks is handled.
#[derive(Debug)]
pub struct XtwinopsFilter {
    state: FilterState,
    /// The bytes of a sequence whose final byte is not yet seen.
    pending: Vec<u8>,
}

#[derive(Debug, Clone, Copy, PartialEq, Eq, Structural)]
enum FilterState {
    Normal,
    /// Saw ESC, awaiting `[`.
    Esc,
    /// Inside `ESC [`, accumulating until the final byte.
    Csi,
}

impl View for XtwinopsFilter {
    type V = Seq<u8>;

    /// The bytes that are held.
    closed spec fn view(&self) -> Seq<u8> {
        self.pending@
    }
}

impl Default for XtwinopsFilter {
    fn default() -> (f: Self)
        ensures
            f.wf(),
            f@ == Seq::<u8>::empty(),
    {
        XtwinopsFilter { state: FilterState::Normal, pending: Vec::new() }
    }
}

impl XtwinopsFilter {
    /// The held bytes are the beginning of a control sequence, and the state says how far it is.
    pub closed spec fn wf(&self) -> bool {
        &&& is_held(self.pending@)
        &&& self.state == if self.pending@.len() == 0 {
            FilterState::Normal
        } else if self.pending@.len() == 1 {
            FilterState::Esc
        } else {
            FilterState::Csi
        }
    }

    pub fn new() -> (f: Self)
        ensures
            f.wf(),
            f@ == Seq::<u8>::empty(),
    {
        XtwinopsFilter { state: FilterState::Normal, pending: Vec::new() }
    }

    /// Filter one chunk, returning the bytes to forward downstream.
    pub fn filter(&mut self, input: &[u8]) -> (out: Vec<u8>)
        requires
            old(self).wf(),
        ensures
            final(self).wf(),
            out@ == shown(old(self)@ + input@).out,
            final(self)@ == shown(old(self)@ + input@).held,
    {
        let mut out: Vec<u8> = Vec::with_capacity(input.len());
        let ghost held0 = self.pending@;
        proof {
            lemma_held_is_shown_nothing(held0);
            assert(held0 + input@.take(0) =~= held0);
        }
        let mut i: usize = 0;
        while i < input.len()
            invariant
                i <= input@.len(),
                held0 == old(self)@,
                self.wf(),
                shown(held0 + input@.take(i as int)) == (Shown {
                    out: out@,
                    held: self.pending@,
                }),
            decreases input@.len() - i,
        {
            let b: u8 = input[i];
            let ghost done = held0 + input@.take(i as int);
            let ghost out0 = out@;
            let ghost h = self.pending@;
            proof {
                assert(held0 + input@.take(i + 1) =~= done.push(b));
                law_filter_chunking(done, seq![b]);
                assert(done + seq![b] =~= done.push(b));
                assert(h + seq![b] =~= h.push(b));
                lemma_step(h, b);
                lemma_step(Seq::empty(), b);
                assert(Seq::<u8>::empty().push(b) =~= seq![b]);
            }
            match self.state {
                FilterState::Normal => {
                    self.begin(b, &mut out);
                },
                FilterState::Esc => {
                    if b == BRACKET {
                        self.state = FilterState::Csi;
                        self.pending.push(b);
                    } else {
                        // Not a control sequence: release the held ESC and look at this byte
                        // afresh.
                        self.release(&mut out);
                        self.begin(b, &mut out);
                    }
                },
                FilterState::Csi => {
                    if 0x20 <= b && b <= 0x3f {
                        self.pending.push(b);
                    } else if 0x40 <= b && b <= 0x7e {
                        // The sequence is complete. Drop it only if it is XTWINOPS.
                        self.pending.push(b);
                        if b != WINDOW_OP {
                            self.release(&mut out);
                        } else {
                            self.pending = Vec::new();
                            self.state = FilterState::Normal;
                        }
                    } else {
                        // A byte outside the grammar: emit what was held; the byte may itself
                        // start a new escape.
                        self.release(&mut out);
                        self.begin(b, &mut out);
                    }
                },
            }
            proof {
                let next = shown(h.push(b));
                assert(self.pending@ =~= next.held);
                assert(out@ =~= out0 + next.out);
            }
            i += 1;
        }
        assert(input@.take(i as int) =~= input@);
        out
    }

    /// Emit the held bytes.
    fn release(&mut self, out: &mut Vec<u8>)
        ensures
            final(self).state == FilterState::Normal,
            final(self).pending@ == Seq::<u8>::empty(),
            final(out)@ == old(out)@ + old(self).pending@,
    {
        out.append(&mut self.pending);
        self.pending = Vec::new();
        self.state = FilterState::Normal;
    }

    /// Look at a byte while nothing is held: an ESC starts holding, anything else passes.
    fn begin(&mut self, b: u8, out: &mut Vec<u8>)
        requires
            old(self).pending@.len() == 0,
            old(self).state == FilterState::Normal,
        ensures
            final(self).wf(),
            b == ESC ==> final(self).pending@ == seq![ESC] && final(out)@ == old(out)@,
            b != ESC ==> final(self).pending@.len() == 0 && final(out)@ == old(out)@.push(b),
    {
        if b == ESC {
            self.state = FilterState::Esc;
            self.pending.push(b);
            assert(self.pending@ =~= seq![ESC]);
        } else {
            out.push(b);
        }
    }
}

/// Of held bytes nothing is forwarded yet.
proof fn lemma_held_is_shown_nothing(h: Seq<u8>)
    requires
        is_held(h),
    ensures
        shown(h) == (Shown { out: Seq::empty(), held: h }),
{
    if h.len() == 0 {
        assert(h =~= Seq::<u8>::empty());
    } else if h.len() >= 2 {
        lemma_param_end_is(h, 2, h.len() as int);
    }
}

// Laws.

/// A control sequence with the given parameter bytes and final byte.
pub open spec fn csi(params: Seq<u8>, last: u8) -> Seq<u8> {
    seq![0x1bu8, 0x5b] + params.push(last)
}

proof fn lemma_csi(params: Seq<u8>, last: u8, rest: Seq<u8>)
    requires
        forall|j: int| 0 <= j < params.len() ==> 0x20 <= #[trigger] params[j] <= 0x3f,
        is_final(last),
    ensures
        ({
            let s = csi(params, last) + rest;
            let n = params.len() as int + 2;
            &&& param_end(s, 2) == n
            &&& s[0] == ESC
            &&& s[1] == BRACKET
            &&& s[n] == last
            &&& s.take(n + 1) == csi(params, last)
            &&& s.skip(n + 1) == rest
        }),
{
    let s = csi(params, last) + rest;
    let n = params.len() as int + 2;
    assert forall|j: int| 2 <= j < n implies is_param(#[trigger] s[j]) by {
        assert(s[j] == params[j - 2]);
    }
    lemma_param_end_is(s, 2, n);
    assert(s.take(n + 1) =~= csi(params, last));
    assert(s.skip(n + 1) =~= rest);
}

/// A window-manipulation sequence is dropped, and what follows it is forwarded as if it had
/// never been there.
pub proof fn law_window_sequence_is_dropped(params: Seq<u8>, rest: Seq<u8>)
    requires
        forall|j: int| 0 <= j < params.len() ==> 0x20 <= #[trigger] params[j] <= 0x3f,
    ensures
        shown(csi(params, 0x74) + rest) == shown(rest),
{
    lemma_csi(params, WINDOW_OP, rest);
}

/// Every other control sequence passes, byte for byte.
pub proof fn law_other_sequence_passes(params: Seq<u8>, last: u8, rest: Seq<u8>)
    requires
        forall|j: int| 0 <= j < params.len() ==> 0x20 <= #[trigger] params[j] <= 0x3f,
        0x40 <= last <= 0x7e,
        last != 0x74,
    ensures
        shown(csi(params, last) + rest) == forward(csi(params, last), shown(rest)),
{
    lemma_csi(params, last, rest);
}

/// Text without an escape passes, byte for byte, and nothing of it is held.
pub proof fn law_plain_text_passes(s: Seq<u8>)
    requires
        forall|i: int| 0 <= i < s.len() ==> (#[trigger] s[i]) != 0x1b,
    ensures
        shown(s) == (Shown { out: s, held: Seq::empty() }),
    decreases s.len(),
{
    if s.len() > 0 {
        let rest = s.skip(1);
        assert forall|i: int| 0 <= i < rest.len() implies (#[trigger] rest[i]) != ESC by {
            assert(rest[i] == s[i + 1]);
        }
        law_plain_text_passes(rest);
        assert(s.take(1) + rest =~= s);
    } else {
        assert(s =~= Seq::<u8>::empty());
    }
}

/// Only window-manipulation sequences are lost: of a stream without a `t`, every byte is
/// forwarded or still held.
pub proof fn law_nothing_else_is_lost(s: Seq<u8>)
    requires
        forall|i: int| 0 <= i < s.len() ==> (#[trigger] s[i]) != WINDOW_OP,
    ensures
        shown(s).out + shown(s).held == s,
    decreases s.len(), 0nat,
{
    if s.len() == 0 {
        assert(shown(s).out + shown(s).held =~= s);
    } else if s[0] != ESC {
        lemma_nothing_lost_behind(s, 1);
    } else if s.len() == 1 {
        assert(shown(s).out + shown(s).held =~= s);
    } else if s[1] != BRACKET {
        lemma_nothing_lost_behind(s, 1);
    } else {
        let n = param_end(s, 2);
        lemma_param_end(s, 2);
        if n >= s.len() {
            assert(shown(s).out + shown(s).held =~= s);
        } else {
            assert(s[n] != WINDOW_OP);
            if is_final(s[n]) {
                lemma_nothing_lost_behind(s, n + 1);
            } else {
                lemma_nothing_lost_behind(s, n);
            }
        }
    }
}

proof fn lemma_nothing_lost_behind(s: Seq<u8>, n: int)
    requires
        forall|i: int| 0 <= i < s.len() ==> (#[trigger] s[i]) != WINDOW_OP,
        0 < n <= s.len(),
    ensures
        ({
            let f = forward(s.take(n), shown(s.skip(n)));
            f.out + f.held == s
        }),
    decreases s.len() - n, 1nat,
{
    let rest = s.skip(n);
    assert forall|i: int| 0 <= i < rest.len() implies (#[trigger] rest[i]) != WINDOW_OP by {
        assert(rest[i] == s[i + n]);
    }
    law_nothing_else_is_lost(rest);
    let f = forward(s.take(n), shown(rest));
    assert(f.out + f.held =~= s.take(n) + (shown(rest).out + shown(rest).held));
    assert(s.take(n) + rest =~= s);
}

/// An escape that does not begin a control sequence passes, whatever stands behind it.
pub proof fn law_other_escape_passes(b: u8, rest: Seq<u8>)
    requires
        b != 0x5b,
    ensures
        shown(seq![0x1bu8, b] + rest) == forward(seq![0x1bu8], shown(seq![b] + rest)),
{
    let s = seq![0x1bu8, b] + rest;
    assert(s[1] == b);
    assert(s.take(1) =~= seq![0x1bu8]);
    assert(s.skip(1) =~= seq![b] + rest);
}

/// A control sequence that is broken off by a byte that cannot stand in one passes as far as it
/// went, and that byte is looked at afresh. So nothing behind it can make it a window sequence.
pub proof fn law_broken_sequence_passes(params: Seq<u8>, b: u8, rest: Seq<u8>)
    requires
        forall|j: int| 0 <= j < params.len() ==> 0x20 <= #[trigger] params[j] <= 0x3f,
        b < 0x20 || b > 0x7e,
    ensures
        shown(seq![0x1bu8, 0x5b] + params + (seq![b] + rest)) == forward(
            seq![0x1bu8, 0x5b] + params,
            shown(seq![b] + rest),
        ),
{
    let head = seq![0x1bu8, 0x5b] + params;
    let s = head + (seq![b] + rest);
    let n = params.len() as int + 2;
    assert forall|j: int| 2 <= j < n implies is_param(#[trigger] s[j]) by {
        assert(s[j] == params[j - 2]);
    }
    assert(s[0] == 0x1b && s[1] == 0x5b && s[n] == b);
    lemma_param_end_is(s, 2, n);
    assert(s.take(n) =~= head);
    assert(s.skip(n) =~= seq![b] + rest);
}

/// A sequence that is not complete is held, and nothing of it is shown before it is.
pub proof fn law_unfinished_sequence_is_held(params: Seq<u8>)
    requires
        forall|j: int| 0 <= j < params.len() ==> 0x20 <= #[trigger] params[j] <= 0x3f,
    ensures
        shown(seq![0x1bu8, 0x5b] + params) == (Shown {
            out: Seq::empty(),
            held: seq![0x1bu8, 0x5b] + params,
        }),
{
    let s = seq![0x1bu8, 0x5b] + params;
    assert(s.len() >= 2 && s[0] == ESC && s[1] == BRACKET);
    assert forall|j: int| 2 <= j < s.len() implies is_param(#[trigger] s[j]) by {
        assert(s[j] == params[j - 2]);
    }
    lemma_param_end_is(s, 2, s.len() as int);
}

} // verus!
