//! sniffer: which events the shell asked for, read from its output.

use vstd::prelude::*;
use crate::text::dec_bytes;
use crate::xtwinops::{BRACKET, ESC, is_final};

verus! {

pub const QUESTION: u8 = 0x3f;

pub const SEMICOLON: u8 = 0x3b;

/// `h`, the final byte that sets modes.
pub const SET: u8 = 0x68;

/// `l`, the final byte that resets modes.
pub const RESET: u8 = 0x6c;

/// The modes that matter here.
#[derive(Debug, Clone, Copy, PartialEq, Eq, Structural)]
pub struct Modes {
    /// Mode 1000, clicks.
    pub click: bool,
    /// Mode 1002, motion with a button held.
    pub drag: bool,
    /// Mode 1003, every motion.
    pub motion: bool,
    /// Mode 1006, SGR extended coordinates.
    pub sgr: bool,
    /// Mode 1004, focus in and out.
    pub focus: bool,
}

impl Modes {
    /// Nothing is asked for.
    pub open spec fn none() -> Modes {
        Modes { click: false, drag: false, motion: false, sgr: false, focus: false }
    }

    /// Any of the tracking modes.
    pub open spec fn tracking(self) -> bool {
        self.click || self.drag || self.motion
    }

    /// The modes after one of them is set or reset; an unknown one changes nothing.
    pub open spec fn with(self, mode: u32, set: bool) -> Modes {
        if mode == 1000 {
            Modes { click: set, ..self }
        } else if mode == 1002 {
            Modes { drag: set, ..self }
        } else if mode == 1003 {
            Modes { motion: set, ..self }
        } else if mode == 1004 {
            Modes { focus: set, ..self }
        } else if mode == 1006 {
            Modes { sgr: set, ..self }
        } else {
            self
        }
    }

    /// The modes after each of a list is set or reset in turn.
    pub open spec fn with_all(self, modes: Seq<u32>, set: bool) -> Modes
        decreases modes.len(),
    {
        if modes.len() == 0 {
            self
        } else {
            self.with_all(modes.drop_last(), set).with(modes.last(), set)
        }
    }
}

pub open spec fn is_digit(b: u8) -> bool {
    0x30 <= b <= 0x39
}

/// The bytes of a control sequence that do not end it: `?`, digits, `;` and intermediates.
pub open spec fn is_body(b: u8) -> bool {
    b == QUESTION || is_digit(b) || b == SEMICOLON || 0x20 <= b <= 0x2f
}

/// The number behind the last `;` of a sequence's body, at most `u32::MAX`.
pub open spec fn last_number(body: Seq<u8>) -> u32
    decreases body.len(),
{
    if body.len() == 0 || body.last() == SEMICOLON {
        0
    } else if is_digit(body.last()) {
        let n = last_number(body.drop_last()) * 10 + (body.last() - 0x30);
        if n > u32::MAX {
            u32::MAX
        } else {
            n as u32
        }
    } else {
        last_number(body.drop_last())
    }
}

/// Whether there is a digit behind the last `;`.
pub open spec fn has_digits(body: Seq<u8>) -> bool
    decreases body.len(),
{
    if body.len() == 0 || body.last() == SEMICOLON {
        false
    } else {
        is_digit(body.last()) || has_digits(body.drop_last())
    }
}

/// The numbers in front of the `;` of a body.
pub open spec fn closed_numbers(body: Seq<u8>) -> Seq<u32>
    decreases body.len(),
{
    if body.len() == 0 {
        Seq::empty()
    } else if body.last() == SEMICOLON {
        closed_numbers(body.drop_last()).push(last_number(body.drop_last()))
    } else {
        closed_numbers(body.drop_last())
    }
}

/// The parameters of a sequence.
pub open spec fn numbers(body: Seq<u8>) -> Seq<u32> {
    if has_digits(body) {
        closed_numbers(body).push(last_number(body))
    } else {
        closed_numbers(body)
    }
}

/// The modes after a whole sequence: only `? ... h` and `? ... l` have an effect.
pub open spec fn after_sequence(modes: Modes, body: Seq<u8>, last: u8) -> Modes {
    if body.contains(QUESTION) && (last == SET || last == RESET) {
        modes.with_all(numbers(body), last == SET)
    } else {
        modes
    }
}

/// Where the body of a sequence that goes on at `i` ends.
pub open spec fn body_end(s: Seq<u8>, i: int) -> int
    decreases s.len() - i,
{
    if i < s.len() && is_body(s[i]) {
        body_end(s, i + 1)
    } else {
        i
    }
}

/// The modes after a stream, and the sequence at its end that is not complete yet.
pub ghost struct Sniffed {
    pub modes: Modes,
    pub held: Seq<u8>,
}

/// The modes after a stream of output: those of every `ESC [ ? <params> h|l` in it, in order. A
/// byte outside the grammar ends a sequence without effect.
pub open spec fn sniff(modes: Modes, s: Seq<u8>) -> Sniffed
    decreases s.len(),
    via sniff_decreases
{
    if s.len() == 0 {
        Sniffed { modes, held: Seq::empty() }
    } else if s[0] != ESC {
        sniff(modes, s.skip(1))
    } else if s.len() == 1 {
        Sniffed { modes, held: s }
    } else if s[1] == ESC {
        sniff(modes, s.skip(1))
    } else if s[1] != BRACKET {
        sniff(modes, s.skip(2))
    } else {
        let n = body_end(s, 2);
        if n >= s.len() {
            Sniffed { modes, held: s }
        } else if is_final(s[n]) {
            sniff(after_sequence(modes, s.subrange(2, n), s[n]), s.skip(n + 1))
        } else {
            sniff(modes, s.skip(n))
        }
    }
}

#[via_fn]
proof fn sniff_decreases(modes: Modes, s: Seq<u8>) {
    lemma_body_end(s, 2);
}

proof fn lemma_body_end(s: Seq<u8>, i: int)
    ensures
        body_end(s, i) >= i,
        i <= s.len() ==> body_end(s, i) <= s.len(),
        forall|j: int| i <= j < body_end(s, i) ==> is_body(#[trigger] s[j]),
        i <= body_end(s, i) < s.len() ==> !is_body(s[body_end(s, i)]),
    decreases s.len() - i,
{
    if i < s.len() && is_body(s[i]) {
        lemma_body_end(s, i + 1);
    }
}

proof fn lemma_body_end_is(s: Seq<u8>, i: int, n: int)
    requires
        0 <= i <= n <= s.len(),
        forall|j: int| i <= j < n ==> is_body(#[trigger] s[j]),
        n < s.len() ==> !is_body(s[n]),
    ensures
        body_end(s, i) == n,
    decreases n - i,
{
    if i < n {
        assert(is_body(s[i]));
        lemma_body_end_is(s, i + 1, n);
    }
}

/// How the output is cut into chunks does not matter.
pub proof fn law_sniff_chunking(modes: Modes, a: Seq<u8>, b: Seq<u8>)
    ensures
        sniff(modes, a + b) == sniff(sniff(modes, a).modes, sniff(modes, a).held + b),
    decreases a.len(),
{
    if a.len() == 0 {
        assert(a + b =~= b);
        assert(Seq::<u8>::empty() + b =~= b);
    } else if a[0] != ESC {
        law_sniff_chunking(modes, a.skip(1), b);
        assert((a + b).skip(1) =~= a.skip(1) + b);
    } else if a.len() == 1 {
    } else if a[1] == ESC {
        law_sniff_chunking(modes, a.skip(1), b);
        assert((a + b).skip(1) =~= a.skip(1) + b);
    } else if a[1] != BRACKET {
        law_sniff_chunking(modes, a.skip(2), b);
        assert((a + b).skip(2) =~= a.skip(2) + b);
    } else {
        let n = body_end(a, 2);
        lemma_body_end(a, 2);
        if n < a.len() {
            lemma_body_end_is(a + b, 2, n);
            assert((a + b).subrange(2, n) =~= a.subrange(2, n));
            if is_final(a[n]) {
                law_sniff_chunking(
                    after_sequence(modes, a.subrange(2, n), a[n]),
                    a.skip(n + 1),
                    b,
                );
                assert((a + b).skip(n + 1) =~= a.skip(n + 1) + b);
            } else {
                law_sniff_chunking(modes, a.skip(n), b);
                assert((a + b).skip(n) =~= a.skip(n) + b);
            }
        }
    }
}

/// What is held while the body of a sequence is read.
pub open spec fn held_body(body: Seq<u8>) -> Seq<u8> {
    seq![ESC, BRACKET] + body
}

/// What one byte does outside a sequence, and behind an escape.
proof fn lemma_short_step(modes: Modes, b: u8)
    ensures
        sniff(modes, Seq::empty()) == (Sniffed { modes, held: Seq::empty() }),
        sniff(modes, seq![b]) == (Sniffed {
            modes,
            held: if b == ESC {
                seq![ESC]
            } else {
                Seq::empty()
            },
        }),
        sniff(modes, seq![ESC].push(b)) == (Sniffed {
            modes,
            held: if b == BRACKET {
                held_body(Seq::empty())
            } else if b == ESC {
                seq![ESC]
            } else {
                Seq::empty()
            },
        }),
{
    let one = seq![b];
    let two = seq![ESC].push(b);
    assert(sniff(modes, Seq::empty()) == (Sniffed { modes, held: Seq::empty() }));
    assert(one.skip(1) =~= Seq::<u8>::empty());
    assert(sniff(modes, one) == (Sniffed {
        modes,
        held: if b == ESC {
            one
        } else {
            Seq::empty()
        },
    }));
    assert(two.skip(1) =~= one);
    assert(two.skip(2) =~= Seq::<u8>::empty());
    if b == BRACKET {
        lemma_body_end_is(two, 2, 2);
        assert(two =~= held_body(Seq::empty()));
    }
}

/// What one more byte does while the body of a sequence is read.
proof fn lemma_body_step(modes: Modes, body: Seq<u8>, b: u8)
    requires
        forall|j: int| 0 <= j < body.len() ==> is_body(#[trigger] body[j]),
    ensures
        is_body(b) ==> sniff(modes, held_body(body).push(b)) == (Sniffed {
            modes,
            held: held_body(body.push(b)),
        }),
        is_final(b) ==> sniff(modes, held_body(body).push(b)) == (Sniffed {
            modes: after_sequence(modes, body, b),
            held: Seq::empty(),
        }),
        !is_body(b) && !is_final(b) ==> sniff(modes, held_body(body).push(b)) == (Sniffed {
            modes,
            held: if b == ESC {
                seq![ESC]
            } else {
                Seq::empty()
            },
        }),
{
    let s = held_body(body).push(b);
    let n = s.len() - 1;
    assert forall|j: int| 2 <= j < n implies is_body(#[trigger] s[j]) by {
        assert(s[j] == body[j - 2]);
    }
    if is_body(b) {
        assert forall|j: int| 2 <= j < s.len() implies is_body(#[trigger] s[j]) by {
            if j < n {
                assert(s[j] == body[j - 2]);
            }
        }
        lemma_body_end_is(s, 2, s.len() as int);
        assert(s =~= held_body(body.push(b)));
    } else {
        lemma_body_end_is(s, 2, n);
        assert(s.subrange(2, n) =~= body);
        assert(s.skip(n + 1) =~= Seq::<u8>::empty());
        assert(s.skip(n) =~= seq![b]);
        lemma_short_step(modes, b);
        lemma_short_step(after_sequence(modes, body, b), b);
    }
}

/// Observes the agent's output for the shell enabling and disabling mouse tracking and focus
/// reporting, so that those events are forwarded only when the shell wants them. Recognizes the
/// DEC private modes `CSI ? <params> h|l`: tracking 1000, 1002 and 1003, SGR encoding 1006 and
/// focus reporting 1004. A sequence that is split across chunks is handled.
pub struct MouseModeSniffer {
    state: SniffState,
    private: bool,
    params: Vec<u32>,
    cur: u32,
    cur_has_digits: bool,
    modes: Modes,
    body: Ghost<Seq<u8>>,
}

#[derive(Debug, Clone, Copy, PartialEq, Eq, Structural)]
enum SniffState {
    Normal,
    Esc,
    Csi,
}

impl View for MouseModeSniffer {
    type V = Sniffed;

    closed spec fn view(&self) -> Sniffed {
        Sniffed {
            modes: self.modes,
            held: match self.state {
                SniffState::Normal => Seq::empty(),
                SniffState::Esc => seq![ESC],
                SniffState::Csi => held_body(self.body@),
            },
        }
    }
}

impl Default for MouseModeSniffer {
    fn default() -> (s: Self)
        ensures
            s.wf(),
            s@ == (Sniffed { modes: Modes::none(), held: Seq::empty() }),
    {
        MouseModeSniffer::new()
    }
}

impl MouseModeSniffer {
    /// The accumulators say what the body of the sequence that is being read says.
    pub closed spec fn wf(&self) -> bool {
        &&& forall|j: int| 0 <= j < self.body@.len() ==> is_body(#[trigger] self.body@[j])
        &&& self.private == self.body@.contains(QUESTION)
        &&& self.params@ == closed_numbers(self.body@)
        &&& self.cur == last_number(self.body@)
        &&& self.cur_has_digits == has_digits(self.body@)
    }

    pub fn new() -> (s: Self)
        ensures
            s.wf(),
            s@ == (Sniffed { modes: Modes::none(), held: Seq::empty() }),
    {
        let s: MouseModeSniffer = MouseModeSniffer {
            state: SniffState::Normal,
            private: false,
            params: Vec::new(),
            cur: 0,
            cur_has_digits: false,
            modes: Modes { click: false, drag: false, motion: false, sgr: false, focus: false },
            body: Ghost(Seq::empty()),
        };
        assert(closed_numbers(Seq::<u8>::empty()) =~= Seq::<u32>::empty());
        s
    }

    /// Feed a chunk of output bytes (does not modify or consume them).
    pub fn observe(&mut self, bytes: &[u8])
        requires
            old(self).wf(),
        ensures
            final(self).wf(),
            final(self)@ == sniff(old(self)@.modes, old(self)@.held + bytes@),
    {
        let ghost before = self@;
        proof {
            lemma_held_is_kept(self);
            assert(before.held + bytes@.take(0) =~= before.held);
        }
        let mut i: usize = 0;
        while i < bytes.len()
            invariant
                i <= bytes@.len(),
                before == old(self)@,
                self.wf(),
                self@ == sniff(before.modes, before.held + bytes@.take(i as int)),
            decreases bytes@.len() - i,
        {
            let b: u8 = bytes[i];
            proof {
                let done = before.held + bytes@.take(i as int);
                assert(before.held + bytes@.take(i + 1) =~= done + seq![b]);
                law_sniff_chunking(before.modes, done, seq![b]);
                assert(self@.held + seq![b] =~= self@.held.push(b));
                assert(Seq::<u8>::empty().push(b) =~= seq![b]);
                lemma_short_step(self.modes, b);
            }
            match self.state {
                SniffState::Normal => {
                    if b == ESC {
                        self.state = SniffState::Esc;
                    }
                },
                SniffState::Esc => {
                    if b == BRACKET {
                        self.reset_csi_accum();
                        self.state = SniffState::Csi;
                    } else if b != ESC {
                        self.state = SniffState::Normal;
                    }
                },
                SniffState::Csi => {
                    self.csi_byte(b);
                },
            }
            i += 1;
        }
        assert(bytes@.take(i as int) =~= bytes@);
    }

    fn csi_byte(&mut self, b: u8)
        requires
            old(self).wf(),
            old(self).state == SniffState::Csi,
        ensures
            final(self).wf(),
            final(self)@ == sniff(old(self)@.modes, old(self)@.held.push(b)),
    {
        let ghost body = self.body@;
        let ghost more = body.push(b);
        proof {
            lemma_body_step(self.modes, body, b);
            assert(more.drop_last() =~= body);
            assert forall|x: u8| more.contains(x) == (body.contains(x) || x == b) by {
                if body.contains(x) {
                    let j = choose|j: int| 0 <= j < body.len() && body[j] == x;
                    assert(more[j] == x);
                }
                if x == b {
                    assert(more[body.len() as int] == x);
                }
                if more.contains(x) && x != b {
                    let j = choose|j: int| 0 <= j < more.len() && more[j] == x;
                    assert(body[j] == x);
                }
            }
        }
        if b == QUESTION {
            self.private = true;
            self.body = Ghost(more);
        } else if 0x30 <= b && b <= 0x39 {
            self.cur = push_digit(self.cur, b - 0x30);
            self.cur_has_digits = true;
            self.body = Ghost(more);
        } else if b == SEMICOLON {
            self.params.push(self.cur);
            self.cur = 0;
            self.cur_has_digits = false;
            self.body = Ghost(more);
        } else if 0x40 <= b && b <= 0x7e {
            // Final byte. Apply only DEC-private set and reset.
            if self.cur_has_digits {
                self.params.push(self.cur);
            }
            assert(self.params@ == numbers(body));
            if self.private && (b == SET || b == RESET) {
                let set: bool = b == SET;
                let ghost start = self.modes;
                let mut i: usize = 0;
                assert(self.params@.take(0) =~= Seq::<u32>::empty());
                while i < self.params.len()
                    invariant
                        i <= self.params@.len(),
                        self.params@ == numbers(body),
                        self.modes == start.with_all(self.params@.take(i as int), set),
                    decreases self.params@.len() - i,
                {
                    let mode: u32 = self.params[i];
                    self.apply_mode(mode, set);
                    assert(self.params@.take(i + 1).drop_last() =~= self.params@.take(i as int));
                    i += 1;
                }
                assert(self.params@.take(i as int) =~= numbers(body));
            }
            self.end_csi();
        } else if 0x20 <= b && b <= 0x2f {
            self.body = Ghost(more);
        } else {
            // A byte outside the grammar (or a stray ESC) aborts the sequence.
            self.end_csi();
            if b == ESC {
                self.state = SniffState::Esc;
            }
        }
    }

    fn apply_mode(&mut self, mode: u32, set: bool)
        ensures
            final(self).modes == old(self).modes.with(mode, set),
            final(self).params == old(self).params,
    {
        match mode {
            1000 => {
                self.modes.click = set;
            },
            1002 => {
                self.modes.drag = set;
            },
            1003 => {
                self.modes.motion = set;
            },
            1004 => {
                self.modes.focus = set;
            },
            1006 => {
                self.modes.sgr = set;
            },
            // Other encodings are not supported: SGR stays off and nothing is forwarded.
            _ => {},
        }
    }

    fn reset_csi_accum(&mut self)
        ensures
            final(self).wf(),
            final(self).body@ == Seq::<u8>::empty(),
            final(self).modes == old(self).modes,
            final(self).state == old(self).state,
    {
        self.private = false;
        self.params = Vec::new();
        self.cur = 0;
        self.cur_has_digits = false;
        self.body = Ghost(Seq::empty());
        assert(closed_numbers(Seq::<u8>::empty()) =~= Seq::<u32>::empty());
    }

    fn end_csi(&mut self)
        ensures
            final(self).wf(),
            final(self).modes == old(self).modes,
            final(self).state == SniffState::Normal,
    {
        self.reset_csi_accum();
        self.state = SniffState::Normal;
    }

    /// Any of the tracking modes is enabled.
    pub fn tracking_on(&self) -> (b: bool)
        ensures
            b == self@.modes.tracking(),
    {
        self.modes.click || self.modes.drag || self.modes.motion
    }

    /// SGR extended coordinates are enabled.
    pub fn sgr_on(&self) -> (b: bool)
        ensures
            b == self@.modes.sgr,
    {
        self.modes.sgr
    }

    /// Focus reporting is enabled: focus events are sent only then.
    pub fn focus_on(&self) -> (b: bool)
        ensures
            b == self@.modes.focus,
    {
        self.modes.focus
    }

    /// Forward mouse events only when the shell enabled tracking and the SGR encoding, which is
    /// the only one that is emitted.
    pub fn forward_mouse(&self) -> (b: bool)
        ensures
            b == (self@.modes.tracking() && self@.modes.sgr),
    {
        self.tracking_on() && self.modes.sgr
    }
}

/// A number with one more digit, at most `u32::MAX`.
fn push_digit(n: u32, d: u8) -> (r: u32)
    requires
        d <= 9,
    ensures
        r == if n * 10 + d > u32::MAX {
            u32::MAX as int
        } else {
            n * 10 + d
        },
{
    let wide: u64 = n as u64 * 10 + d as u64;
    if wide > u32::MAX as u64 {
        u32::MAX
    } else {
        wide as u32
    }
}

/// What is held has no effect yet.
proof fn lemma_held_is_kept(s: &MouseModeSniffer)
    requires
        s.wf(),
    ensures
        s@ == sniff(s@.modes, s@.held),
{
    if s.state == SniffState::Csi {
        let h = held_body(s.body@);
        assert forall|j: int| 2 <= j < h.len() implies is_body(#[trigger] h[j]) by {
            assert(h[j] == s.body@[j - 2]);
        }
        lemma_body_end_is(h, 2, h.len() as int);
    }
}

// Laws.

/// A mode sequence has the effect of its parameters, and what follows is read on.
pub proof fn law_mode_sequence_applies(modes: Modes, body: Seq<u8>, last: u8, rest: Seq<u8>)
    requires
        forall|j: int| 0 <= j < body.len() ==> is_body(#[trigger] body[j]),
        is_final(last),
    ensures
        sniff(modes, held_body(body).push(last) + rest) == sniff(
            after_sequence(modes, body, last),
            rest,
        ),
{
    let s = held_body(body).push(last);
    lemma_body_step(modes, body, last);
    law_sniff_chunking(modes, s, rest);
    assert(Seq::<u8>::empty() + rest =~= rest);
}

/// Output without an escape changes nothing.
pub proof fn law_plain_output_changes_nothing(modes: Modes, s: Seq<u8>)
    requires
        forall|i: int| 0 <= i < s.len() ==> (#[trigger] s[i]) != ESC,
    ensures
        sniff(modes, s) == (Sniffed { modes, held: Seq::empty() }),
    decreases s.len(),
{
    if s.len() > 0 {
        let rest = s.skip(1);
        assert forall|i: int| 0 <= i < rest.len() implies (#[trigger] rest[i]) != ESC by {
            assert(rest[i] == s[i + 1]);
        }
        law_plain_output_changes_nothing(modes, rest);
    }
}

/// Focus reporting and mouse tracking are independent: setting or resetting the one leaves the
/// other as it was.
pub proof fn law_focus_is_independent_of_the_mouse(modes: Modes, mode: u32, set: bool)
    ensures
        mode != 1004 ==> modes.with(mode, set).focus == modes.focus,
        mode == 1004 ==> modes.with(mode, set) == (Modes { focus: set, ..modes }),
{
}

/// Mode numbers as they stand in a sequence: in decimal, with a `;` between each two.
pub open spec fn mode_list(modes: Seq<u32>) -> Seq<u8>
    decreases modes.len(),
{
    if modes.len() == 0 {
        Seq::empty()
    } else if modes.len() == 1 {
        dec_bytes(modes[0] as nat)
    } else {
        mode_list(modes.drop_last()) + seq![0x3bu8] + dec_bytes(modes.last() as nat)
    }
}

/// The sequence with which a program sets or resets modes: `ESC [ ? n1 ; n2 ; ... h`, or `l`.
pub open spec fn mode_sequence(modes: Seq<u32>, set: bool) -> Seq<u8> {
    seq![0x1bu8, 0x5b, 0x3f] + mode_list(modes) + seq![
        if set {
            0x68u8
        } else {
            0x6cu8
        },
    ]
}

/// A sequence sets or resets every mode that it lists, however many there are, and leaves the
/// others as they were; nothing of it is held back.
pub proof fn law_listed_modes_are_switched(before: Modes, modes: Seq<u32>, set: bool, rest: Seq<u8>)
    requires
        modes.len() >= 1,
    ensures
        ({
            let after = sniff(before, mode_sequence(modes, set));
            &&& after.held == Seq::<u8>::empty()
            &&& after.modes.click == if modes.contains(1000) { set } else { before.click }
            &&& after.modes.drag == if modes.contains(1002) { set } else { before.drag }
            &&& after.modes.motion == if modes.contains(1003) { set } else { before.motion }
            &&& after.modes.focus == if modes.contains(1004) { set } else { before.focus }
            &&& after.modes.sgr == if modes.contains(1006) { set } else { before.sgr }
            &&& sniff(before, mode_sequence(modes, set) + rest) == sniff(after.modes, rest)
        }),
{
    let body = seq![0x3fu8] + mode_list(modes);
    let last: u8 = if set {
        0x68u8
    } else {
        0x6cu8
    };
    let s = held_body(body).push(last);
    lemma_mode_list(modes);
    assert(mode_sequence(modes, set) =~= s);
    assert(body[0] == QUESTION);
    assert(body.contains(QUESTION));
    assert(closed_numbers(body).push(last_number(body)) =~= modes);
    law_mode_sequence_applies(before, body, last, rest);
    law_mode_sequence_applies(before, body, last, Seq::empty());
    assert(s + Seq::<u8>::empty() =~= s);
    lemma_with_all(before, modes, set);
}

/// What the body of a sequence that lists modes says.
proof fn lemma_mode_list(modes: Seq<u32>)
    requires
        modes.len() >= 1,
    ensures
        ({
            let body = seq![0x3fu8] + mode_list(modes);
            &&& forall|j: int| 0 <= j < body.len() ==> is_body(#[trigger] body[j])
            &&& closed_numbers(body) == modes.drop_last()
            &&& last_number(body) == modes.last()
            &&& has_digits(body)
        }),
    decreases modes.len(),
{
    let body = seq![0x3fu8] + mode_list(modes);
    let front = if modes.len() == 1 {
        seq![0x3fu8]
    } else {
        seq![0x3fu8] + mode_list(modes.drop_last()) + seq![0x3bu8]
    };
    if modes.len() == 1 {
        assert(front.drop_last() =~= Seq::<u8>::empty());
        assert(closed_numbers(front.drop_last()) == Seq::<u32>::empty());
        assert(last_number(front.drop_last()) == 0);
        assert(closed_numbers(front) =~= modes.drop_last());
        assert(last_number(front) == 0);
    } else {
        let inner = seq![0x3fu8] + mode_list(modes.drop_last());
        lemma_mode_list(modes.drop_last());
        assert(front.drop_last() =~= inner);
        assert(closed_numbers(front) =~= modes.drop_last());
        assert forall|j: int| 0 <= j < front.len() implies is_body(#[trigger] front[j]) by {
            if j < inner.len() {
                assert(front[j] == inner[j]);
            }
        }
    }
    assert(body =~= front + dec_bytes(modes.last() as nat));
    lemma_number_behind(front, modes.last() as nat);
}

/// A number that is written behind a body without a number at its end is its last one.
proof fn lemma_number_behind(front: Seq<u8>, n: nat)
    requires
        n <= u32::MAX,
        last_number(front) == 0,
        forall|j: int| 0 <= j < front.len() ==> is_body(#[trigger] front[j]),
    ensures
        ({
            let body = front + dec_bytes(n);
            &&& forall|j: int| 0 <= j < body.len() ==> is_body(#[trigger] body[j])
            &&& closed_numbers(body) == closed_numbers(front)
            &&& last_number(body) == n
            &&& has_digits(body)
        }),
    decreases n,
{
    let body = front + dec_bytes(n);
    if n < 10 {
        assert(body.drop_last() =~= front);
    } else {
        lemma_number_behind(front, n / 10);
        let shorter = front + dec_bytes(n / 10);
        assert(body.drop_last() =~= shorter);
        assert forall|j: int| 0 <= j < body.len() implies is_body(#[trigger] body[j]) by {
            if j < shorter.len() {
                assert(body[j] == shorter[j]);
            }
        }
    }
}

proof fn lemma_with_all(before: Modes, modes: Seq<u32>, set: bool)
    ensures
        ({
            let after = before.with_all(modes, set);
            &&& after.click == if modes.contains(1000) { set } else { before.click }
            &&& after.drag == if modes.contains(1002) { set } else { before.drag }
            &&& after.motion == if modes.contains(1003) { set } else { before.motion }
            &&& after.focus == if modes.contains(1004) { set } else { before.focus }
            &&& after.sgr == if modes.contains(1006) { set } else { before.sgr }
        }),
    decreases modes.len(),
{
    if modes.len() > 0 {
        let front = modes.drop_last();
        lemma_with_all(before, front, set);
        assert forall|m: u32| modes.contains(m) == (front.contains(m) || modes.last() == m) by {
            if modes.contains(m) {
                let i = choose|i: int| 0 <= i < modes.len() && modes[i] == m;
                if i < front.len() {
                    assert(front[i] == m);
                }
            }
            if front.contains(m) {
                let i = choose|i: int| 0 <= i < front.len() && front[i] == m;
                assert(modes[i] == m);
            }
            if modes.last() == m {
                assert(modes[modes.len() - 1] == m);
            }
        }
    }
}

/// Mouse events are wanted from the moment a program has set a tracking mode and the SGR encoding,
/// in either order and whatever else it sets, until it has reset the encoding or every tracking
/// mode; focus reports from the moment it has set their mode until it resets it.
pub proof fn law_modes_open_and_close_the_gate(before: Modes, modes: Seq<u32>)
    requires
        modes.len() >= 1,
    ensures
        ({
            let on = sniff(before, mode_sequence(modes, true)).modes;
            let off = sniff(before, mode_sequence(modes, false)).modes;
            &&& modes.contains(1000) || modes.contains(1002) || modes.contains(1003)
                ==> on.tracking()
            &&& before.tracking() ==> on.tracking()
            &&& modes.contains(1000) && modes.contains(1002) && modes.contains(1003)
                ==> !off.tracking()
            &&& !before.tracking() ==> !off.tracking()
            &&& modes.contains(1006) ==> on.sgr && !off.sgr
            &&& modes.contains(1004) ==> on.focus && !off.focus
        }),
{
    law_listed_modes_are_switched(before, modes, true, Seq::empty());
    law_listed_modes_are_switched(before, modes, false, Seq::empty());
}

/// A sequence that is not private, or that does not end in `h` or `l`, switches no mode.
pub proof fn law_other_sequences_switch_nothing(before: Modes, body: Seq<u8>, last: u8)
    requires
        forall|j: int| 0 <= j < body.len() ==> is_body(#[trigger] body[j]),
        0x40 <= last <= 0x7e,
        !body.contains(0x3f) || (last != 0x68 && last != 0x6c),
    ensures
        sniff(before, seq![0x1bu8, 0x5b] + body + seq![last]) == (Sniffed {
            modes: before,
            held: Seq::empty(),
        }),
{
    let s = held_body(body).push(last);
    assert(seq![0x1bu8, 0x5b] + body + seq![last] =~= s);
    law_mode_sequence_applies(before, body, last, Seq::empty());
    assert(s + Seq::<u8>::empty() =~= s);
}

/// What the sniffer answers: mouse events are forwarded exactly while some tracking mode and the
/// SGR encoding are on, and focus reports exactly while their mode is.
pub proof fn law_answers_follow_the_modes(
    s: &MouseModeSniffer,
    forward: bool,
    tracking: bool,
    sgr: bool,
    focus: bool,
)
    requires
        call_ensures(MouseModeSniffer::forward_mouse, (s,), forward),
        call_ensures(MouseModeSniffer::tracking_on, (s,), tracking),
        call_ensures(MouseModeSniffer::sgr_on, (s,), sgr),
        call_ensures(MouseModeSniffer::focus_on, (s,), focus),
    ensures
        tracking <==> s@.modes.click || s@.modes.drag || s@.modes.motion,
        sgr <==> s@.modes.sgr,
        focus <==> s@.modes.focus,
        forward <==> tracking && sgr,
{
}

} // verus!
