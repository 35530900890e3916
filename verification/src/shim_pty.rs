//! shim_pty: the decisions of the interactive path of the shim: what to relay, what to run when
//! the relay is not to be had, how console input becomes frames and frames become output, and
//! how the console's modes are changed and restored.

use vstd::prelude::*;
use crate::protocol::{
    FrameKind, FrameView, Handshake, HandshakeView, Mode, PROTOCOL_VERSION, Resize, Stream,
    frame_bytes, from_bits, text_of, to_signed, write_frame,
};
use crate::relay::{SinkEvent, event_frame, write_data};
use crate::shim::{
    FailOpen, Fallback, decide_fail_open, decide_fallback, fail_open_of, make_handshake,
    size_to_resize,
};
use crate::sniffer::{MouseModeSniffer, Modes, Sniffed, sniff};
use crate::vtinput::{
    KeyEvent, MouseEncoder, MouseEvent, buttons_after, encode_key_event, extent, key_bytes,
    mouse_bytes, win_size,
};
use crate::xtwinops::{XtwinopsFilter, shown};

verus! {

// The run of the shim.

/// How the attempt to relay went.
#[derive(Debug, Clone, Copy, PartialEq, Eq, Structural)]
pub enum RelayEnd {
    /// A relay completed with this exit code.
    Completed(i32),
    /// The agent is unreachable, or there is no interactive console.
    Unavailable,
    /// Setting the relay up failed before the agent ran anything.
    SetupFailed,
}

/// What the shim does after the attempt to relay.
#[derive(Debug)]
pub enum ShimAction {
    Exit(i32),
    RunLocally(FailOpen),
}

/// A completed relay ends the shim with the child's code. Anything else fails open: the agent
/// ran nothing, so running the command here cannot run it twice.
pub fn after_relay(end: RelayEnd, exec: Option<String>) -> (a: ShimAction)
    ensures
        a == match end {
            RelayEnd::Completed(code) => ShimAction::Exit(code),
            _ => ShimAction::RunLocally(fail_open_of(exec)),
        },
{
    match end {
        RelayEnd::Completed(code) => ShimAction::Exit(code),
        _ => ShimAction::RunLocally(decide_fail_open(exec)),
    }
}

/// The command of a fail-open outcome.
pub open spec fn local_command(decision: FailOpen) -> Seq<char> {
    match decision {
        FailOpen::Passthrough(c) => c@,
        FailOpen::LocalShell => "pwsh -NoLogo"@,
    }
}

/// The command each fail-open outcome runs: an interactive session has nothing of its own to
/// run and gets `pwsh`; an EXEC command is passed through untouched.
pub fn fail_open_command(decision: &FailOpen) -> (cmd: &str)
    ensures
        cmd@ == local_command(*decision),
{
    match decision {
        FailOpen::Passthrough(cmd) => cmd.as_str(),
        FailOpen::LocalShell => "pwsh -NoLogo",
    }
}

/// How the shim ends after running locally.
#[derive(Debug, Clone, Copy, PartialEq, Eq, Structural)]
pub struct LocalEnd {
    pub code: i32,
    /// Whether the reason is written to stderr. In PTY mode that would corrupt the terminal
    /// stream, so there it goes only to the log.
    pub complain: bool,
}

/// The end of the shim after the local run, given the child's exit code if it could be run and
/// asked for it. The bits of the code are kept; a failure of the shim itself is 255.
pub fn after_local(code: Option<u32>, decision: &FailOpen) -> (end: LocalEnd)
    ensures
        end.code == match code {
            Some(c) => from_bits(c as int),
            None => 255,
        },
        end.complain == (code is None && *decision is Passthrough),
{
    match code {
        Some(c) => LocalEnd { code: to_signed(c), complain: false },
        None => LocalEnd {
            code: 255,
            complain: match decision {
                FailOpen::Passthrough(_) => true,
                FailOpen::LocalShell => false,
            },
        },
    }
}

/// What to do once connecting to the agent was tried.
#[derive(Debug)]
pub enum RelayPlan {
    /// Fail open; `warn` says whether stderr may carry the warning.
    FailOpen { warn: bool },
    /// Relay a command with this handshake.
    Exec(Handshake),
    /// Enter the console, and relay an interactive session if there is one.
    Interactive,
}

/// The terminal's name, `xterm-256color` where the environment has none.
pub fn term_or_default(term: Option<String>) -> (t: String)
    ensures
        t@ == match term {
            Some(name) => name@,
            None => "xterm-256color"@,
        },
{
    match term {
        Some(name) => name,
        None => "xterm-256color".to_owned(),
    }
}

/// Decide how to relay. Without the agent the shim fails open, with a warning where stderr is
/// clean. A command is relayed with a nominal console size; a session without one needs a
/// console first, and no handshake is sent before it has it.
pub fn plan_relay(connect_err: bool, exec: &Option<String>, term: String) -> (plan: RelayPlan)
    ensures
        match plan {
            RelayPlan::FailOpen { warn } => connect_err && warn == (exec is Some),
            RelayPlan::Exec(hs) => !connect_err && exec is Some && hs@ == (HandshakeView {
                version: PROTOCOL_VERSION,
                mode: Mode::Exec,
                cols: 80,
                rows: 24,
                term: term@,
                cwd: Seq::empty(),
                command: text_of(*exec),
                env: Seq::empty(),
            }),
            RelayPlan::Interactive => !connect_err && exec is None,
        },
{
    match decide_fallback(connect_err) {
        Fallback::LocalShellWithWarning => RelayPlan::FailOpen { warn: exec.is_some() },
        Fallback::Relay => {
            if exec.is_some() {
                RelayPlan::Exec(make_handshake(exec, term, 80, 24))
            } else {
                RelayPlan::Interactive
            }
        },
    }
}

/// The visible window of a console: its inclusive edges.
#[derive(Debug, Clone, Copy, PartialEq, Eq, Structural)]
pub struct Window {
    pub left: i16,
    pub top: i16,
    pub right: i16,
    pub bottom: i16,
}

/// The size of a window; 80 by 24 where it could not be queried.
pub open spec fn size_of_window(window: Option<Window>) -> Resize {
    match window {
        Some(w) => Resize {
            cols: extent(w.left, w.right) as u16,
            rows: extent(w.top, w.bottom) as u16,
        },
        None => Resize { cols: 80, rows: 24 },
    }
}

/// The visible window's size, or an 80 by 24 default if the query failed.
pub fn console_size(window: Option<Window>) -> (size: Resize)
    ensures
        size == size_of_window(window),
{
    match window {
        Some(w) => {
            let (cols, rows) = win_size(w.left, w.top, w.right, w.bottom);
            size_to_resize(cols, rows)
        },
        None => size_to_resize(80, 24),
    }
}

/// The handshake of an interactive session; none without a console, which makes the shim fail
/// open.
pub fn plan_interactive(is_console: bool, term: String, window: Option<Window>) -> (plan: Option<
    Handshake,
>)
    ensures
        plan is Some <==> is_console,
        plan is Some ==> plan->0@ == (HandshakeView {
            version: PROTOCOL_VERSION,
            mode: Mode::Pty,
            cols: size_of_window(window).cols,
            rows: size_of_window(window).rows,
            term: term@,
            cwd: Seq::empty(),
            command: None,
            env: Seq::empty(),
        }),
{
    if !is_console {
        return None;
    }
    let size: Resize = console_size(window);
    Some(make_handshake(&None, term, size.cols, size.rows))
}

// Output: what the console shows.

/// What one piece of the agent's output comes to.
#[derive(Debug)]
pub struct OutputStep {
    /// The bytes to write to the console.
    pub bytes: Vec<u8>,
    /// Whether mouse events are forwarded from now on.
    pub forward: bool,
    /// Whether focus events are forwarded from now on.
    pub focus: bool,
}

/// The agent's output on its way to the console: mouse-mode changes are observed and
/// window-manipulation sequences are stripped.
pub struct PtyOutput {
    filter: XtwinopsFilter,
    sniffer: MouseModeSniffer,
}

impl PtyOutput {
    pub closed spec fn wf(&self) -> bool {
        self.filter.wf() && self.sniffer.wf()
    }

    /// The bytes that the filter holds.
    pub closed spec fn held(&self) -> Seq<u8> {
        self.filter@
    }

    /// The modes that were observed, and the sequence that is not complete.
    pub closed spec fn sniffed(&self) -> Sniffed {
        self.sniffer@
    }

    pub fn new() -> (p: Self)
        ensures
            p.wf(),
            p.held() == Seq::<u8>::empty(),
            p.sniffed() == (Sniffed { modes: Modes::none(), held: Seq::empty() }),
    {
        PtyOutput { filter: XtwinopsFilter::new(), sniffer: MouseModeSniffer::new() }
    }

    /// Take one piece of output. Which events are wanted is known before its bytes are shown.
    pub fn on_output(&mut self, bytes: &[u8]) -> (step: OutputStep)
        requires
            old(self).wf(),
        ensures
            final(self).wf(),
            step.bytes@ == shown(old(self).held() + bytes@).out,
            final(self).held() == shown(old(self).held() + bytes@).held,
            final(self).sniffed() == sniff(
                old(self).sniffed().modes,
                old(self).sniffed().held + bytes@,
            ),
            step.forward == (final(self).sniffed().modes.tracking()
                && final(self).sniffed().modes.sgr),
            step.focus == final(self).sniffed().modes.focus,
    {
        self.sniffer.observe(bytes);
        let forward: bool = self.sniffer.forward_mouse();
        let focus: bool = self.sniffer.focus_on();
        let out: Vec<u8> = self.filter.filter(bytes);
        OutputStep { bytes: out, forward, focus }
    }
}

// Input: what the agent gets.

/// The kind of a console input record.
#[derive(Debug, Clone, Copy, PartialEq, Eq, Structural)]
pub enum RecordKind {
    Key,
    Mouse,
    WindowBufferSize,
    Focus,
    /// Menu records and the like, which are internal.
    Other,
}

/// The kind that a record's event type stands for.
pub fn record_kind(event_type: u16) -> (k: RecordKind)
    ensures
        event_type == 0x0001 <==> k == RecordKind::Key,
        event_type == 0x0002 <==> k == RecordKind::Mouse,
        event_type == 0x0004 <==> k == RecordKind::WindowBufferSize,
        event_type == 0x0010 <==> k == RecordKind::Focus,
{
    match event_type {
        0x0001 => RecordKind::Key,
        0x0002 => RecordKind::Mouse,
        0x0004 => RecordKind::WindowBufferSize,
        0x0010 => RecordKind::Focus,
        _ => RecordKind::Other,
    }
}

/// A console input record.
#[derive(Debug, Clone, Copy, PartialEq, Eq, Structural)]
pub enum InputRecord {
    Key(KeyEvent),
    Mouse(MouseEvent),
    /// The buffer's size changed. The record says nothing of the visible window, so that is
    /// queried anew.
    WindowBufferSize(Option<Window>),
    Focus(bool),
    Other,
}

/// Which events the brokered shell wants.
#[derive(Debug, Clone, Copy, PartialEq, Eq, Structural)]
pub struct InputGate {
    /// SGR mouse events.
    pub forward: bool,
    /// Focus reports.
    pub focus: bool,
}

/// The frames that one record puts on the wire, given the buttons that count as held.
pub open spec fn record_wire(buttons: u32, rec: InputRecord, gate: InputGate) -> Seq<u8> {
    match rec {
        InputRecord::Key(k) => pty_frame(key_bytes(k)),
        InputRecord::WindowBufferSize(window) => frame_bytes(
            FrameView { kind: FrameKind::Resize, payload: size_of_window(window).bytes() },
        ),
        InputRecord::Mouse(m) => if gate.forward && mouse_bytes(buttons, m).len() > 0 {
            pty_frame(mouse_bytes(buttons, m))
        } else {
            Seq::empty()
        },
        InputRecord::Focus(focused) => if !gate.focus {
            Seq::empty()
        } else if focused {
            pty_frame(seq![0x1bu8, 0x5b, 0x49])
        } else {
            pty_frame(seq![0x1bu8, 0x5b, 0x4f])
        },
        InputRecord::Other => Seq::empty(),
    }
}

/// A DATA frame on the terminal stream.
pub open spec fn pty_frame(bytes: Seq<u8>) -> Seq<u8> {
    frame_bytes(event_frame(SinkEvent::Data(Stream::Pty, bytes)))
}

/// The buttons that count as held after a record. While mouse events are not forwarded, none
/// does.
pub open spec fn record_buttons(buttons: u32, rec: InputRecord, gate: InputGate) -> u32 {
    match rec {
        InputRecord::Mouse(m) => if gate.forward {
            buttons_after(buttons, m)
        } else {
            0
        },
        _ => buttons,
    }
}

/// Console input on its way to the agent.
#[derive(Debug)]
pub struct PtyInput {
    enc: MouseEncoder,
}

impl View for PtyInput {
    type V = u32;

    /// The buttons that count as held.
    closed spec fn view(&self) -> u32 {
        self.enc@
    }
}

impl PtyInput {
    pub fn new() -> (p: Self)
        ensures
            p@ == 0,
    {
        PtyInput { enc: MouseEncoder::default() }
    }

    /// Put one console record on the wire. Mouse and focus events are forwarded only when the
    /// shell asked for them; while the mouse is not forwarded, the held buttons are forgotten.
    pub fn on_record(&mut self, rec: &InputRecord, gate: InputGate, tx: &mut Vec<u8>)
        ensures
            final(tx)@ == old(tx)@ + record_wire(old(self)@, *rec, gate),
            final(self)@ == record_buttons(old(self)@, *rec, gate),
    {
        match rec {
            InputRecord::Key(k) => {
                let bytes: Vec<u8> = encode_key_event(k);
                proof {
                    lemma_key_is_short(*k);
                }
                let _ = write_data(tx, Stream::Pty, bytes.as_slice());
            },
            InputRecord::WindowBufferSize(window) => {
                let size: Resize = console_size(*window);
                let payload: [u8; 4] = size.encode();
                let _ = write_frame(tx, FrameKind::Resize, &payload);
            },
            InputRecord::Mouse(m) => {
                if gate.forward {
                    let bytes: Vec<u8> = self.enc.encode_sgr(m);
                    proof {
                        lemma_mouse_is_short(old(self)@, *m);
                    }
                    if bytes.len() > 0 {
                        let _ = write_data(tx, Stream::Pty, bytes.as_slice());
                    } else {
                        assert(tx@ =~= old(tx)@ + Seq::<u8>::empty());
                    }
                } else {
                    self.enc.reset();
                    assert(tx@ =~= old(tx)@ + Seq::<u8>::empty());
                }
            },
            InputRecord::Focus(focused) => {
                if gate.focus {
                    let seq: [u8; 3] = if *focused {
                        [0x1b, 0x5b, 0x49]
                    } else {
                        [0x1b, 0x5b, 0x4f]
                    };
                    assert(*focused ==> seq@ =~= seq![0x1bu8, 0x5b, 0x49]);
                    assert(!*focused ==> seq@ =~= seq![0x1bu8, 0x5b, 0x4f]);
                    let _ = write_data(tx, Stream::Pty, &seq);
                } else {
                    assert(tx@ =~= old(tx)@ + Seq::<u8>::empty());
                }
            },
            InputRecord::Other => {
                assert(tx@ =~= old(tx)@ + Seq::<u8>::empty());
            },
        }
    }

    /// Put a batch of console records on the wire, in order.
    pub fn on_records(&mut self, recs: &[InputRecord], gate: InputGate, tx: &mut Vec<u8>)
        ensures
            final(tx)@ == old(tx)@ + batch_wire(old(self)@, recs@, gate),
            final(self)@ == batch_buttons(old(self)@, recs@, gate),
    {
        let ghost start = self@;
        let mut i: usize = 0;
        assert(recs@.take(0) =~= Seq::<InputRecord>::empty());
        assert(tx@ =~= tx@ + batch_wire(start, recs@.take(0), gate));
        while i < recs.len()
            invariant
                i <= recs@.len(),
                start == old(self)@,
                tx@ == old(tx)@ + batch_wire(start, recs@.take(i as int), gate),
                self@ == batch_buttons(start, recs@.take(i as int), gate),
            decreases recs@.len() - i,
        {
            let ghost before = tx@;
            self.on_record(&recs[i], gate, tx);
            proof {
                let done = recs@.take(i + 1);
                assert(done.drop_last() =~= recs@.take(i as int));
                assert(tx@ =~= old(tx)@ + batch_wire(start, done, gate));
            }
            i += 1;
        }
        assert(recs@.take(i as int) =~= recs@);
    }
}

/// The frames that a batch of records puts on the wire.
pub open spec fn batch_wire(buttons: u32, recs: Seq<InputRecord>, gate: InputGate) -> Seq<u8>
    decreases recs.len(),
{
    if recs.len() == 0 {
        Seq::empty()
    } else {
        batch_wire(buttons, recs.drop_last(), gate) + record_wire(
            batch_buttons(buttons, recs.drop_last(), gate),
            recs.last(),
            gate,
        )
    }
}

/// The buttons that count as held after a batch of records.
pub open spec fn batch_buttons(buttons: u32, recs: Seq<InputRecord>, gate: InputGate) -> u32
    decreases recs.len(),
{
    if recs.len() == 0 {
        buttons
    } else {
        record_buttons(batch_buttons(buttons, recs.drop_last(), gate), recs.last(), gate)
    }
}

proof fn lemma_dec_is_short(n: nat, digits: nat)
    requires
        digits >= 1,
        n < pow10(digits),
    ensures
        crate::text::dec_bytes(n).len() <= digits,
    decreases digits,
{
    if n >= 10 {
        assert(digits >= 2) by {
            if digits == 1 {
                assert(pow10(1) == 10 * pow10(0));
            }
        }
        let fewer = (digits - 1) as nat;
        assert(pow10(digits) == 10 * pow10(fewer));
        assert(n / 10 < pow10(fewer));
        lemma_dec_is_short(n / 10, fewer);
    }
}

spec fn pow10(n: nat) -> nat
    decreases n,
{
    if n == 0 {
        1
    } else {
        10 * pow10((n - 1) as nat)
    }
}

proof fn lemma_u32_is_short(n: nat)
    requires
        n <= u32::MAX,
    ensures
        crate::text::dec_bytes(n).len() <= 10,
{
    reveal_with_fuel(pow10, 11);
    lemma_dec_is_short(n, 10);
}

proof fn lemma_key_is_short(k: KeyEvent)
    ensures
        key_bytes(k).len() < 100,
{
    lemma_u32_is_short(k.virtual_key_code as nat);
    lemma_u32_is_short(k.virtual_scan_code as nat);
    lemma_u32_is_short(k.unicode_char as nat);
    lemma_u32_is_short(0);
    lemma_u32_is_short(1);
    lemma_u32_is_short(k.control_key_state as nat);
    lemma_u32_is_short(k.repeat_count as nat);
}

proof fn lemma_report_is_short(cb: nat, cx: nat, cy: nat, press: bool)
    requires
        cb <= u32::MAX,
        cx <= u32::MAX,
        cy <= u32::MAX,
    ensures
        crate::vtinput::report(cb, cx, cy, press).len() <= 36,
{
    lemma_u32_is_short(cb);
    lemma_u32_is_short(cx);
    lemma_u32_is_short(cy);
}

proof fn lemma_mouse_is_short(buttons: u32, m: MouseEvent)
    ensures
        mouse_bytes(buttons, m).len() <= 180,
{
    let mods = crate::vtinput::modifiers(m.control_key_state);
    let cx = crate::vtinput::coordinate(m.x);
    let cy = crate::vtinput::coordinate(m.y);
    assert(mods <= 28);
    assert(cx <= 32768 && cy <= 32768);
    lemma_report_is_short(crate::vtinput::wheel_code(m) + mods, cx, cy, true);
    lemma_report_is_short(crate::vtinput::held_code(m.button_state) + 32 + mods, cx, cy, true);
    lemma_report_is_short(0 + mods, cx, cy, crate::vtinput::any_bit(m.button_state, 0x0001));
    lemma_report_is_short(1 + mods, cx, cy, crate::vtinput::any_bit(m.button_state, 0x0004));
    lemma_report_is_short(2 + mods, cx, cy, crate::vtinput::any_bit(m.button_state, 0x0002));
    lemma_report_is_short(128 + mods, cx, cy, crate::vtinput::any_bit(m.button_state, 0x0008));
    lemma_report_is_short(129 + mods, cx, cy, crate::vtinput::any_bit(m.button_state, 0x0010));
}

// The console's modes.

/// Raw input: window and mouse events as records, extended flags. Stored absolutely, so it
/// clears processed, line and echo input, and Ctrl-C arrives as a key record.
pub const RAW_IN: u32 = 0x0098;

/// Output bits added to the inherited mode: render the agent's output, and inject no carriage
/// return on a line feed.
pub const VT_OUT: u32 = 0x000d;

#[derive(Debug, Clone, Copy, PartialEq, Eq, Structural)]
pub enum ConsoleHandle {
    Input,
    Output,
}

/// A call on the console.
#[derive(Debug, Clone, Copy, PartialEq, Eq, Structural)]
pub enum ConsoleCall {
    SetMode(ConsoleHandle, u32),
    /// Suppress the Ctrl events as signals, or stop doing so.
    SuppressCtrl(bool),
}

/// How far entering raw mode is.
#[derive(Debug, Clone, Copy, PartialEq, Eq, Structural)]
pub enum EnterStep {
    SetInput,
    SetOutput,
    Suppress,
    Entered,
    /// A mode could not be set; the changes are to be undone.
    Failed,
}

/// The original modes of the console, and what of them was changed. Without a console nothing is
/// changed and nothing restored.
#[derive(Debug, Clone, Copy, PartialEq, Eq, Structural)]
pub struct ConsoleModes {
    pub in_orig: u32,
    pub out_orig: u32,
    pub is_console: bool,
    /// Whether suppressing the Ctrl events succeeded. That is an absolute change, which must not
    /// be undone where it was not made.
    pub ctrl_suppressed: bool,
    pub step: EnterStep,
}

impl ConsoleModes {
    /// The guard holds the original modes before either is changed.
    pub fn begin(in_orig: u32, out_orig: u32, is_console: bool) -> (m: Self)
        ensures
            m == (ConsoleModes {
                in_orig,
                out_orig,
                is_console,
                ctrl_suppressed: false,
                step: if is_console {
                    EnterStep::SetInput
                } else {
                    EnterStep::Entered
                },
            }),
    {
        ConsoleModes {
            in_orig,
            out_orig,
            is_console,
            ctrl_suppressed: false,
            step: if is_console {
                EnterStep::SetInput
            } else {
                EnterStep::Entered
            },
        }
    }

    /// The next call of entering raw mode.
    pub open spec fn pending(self) -> Option<ConsoleCall> {
        match self.step {
            EnterStep::SetInput => Some(ConsoleCall::SetMode(ConsoleHandle::Input, RAW_IN)),
            EnterStep::SetOutput => Some(
                ConsoleCall::SetMode(ConsoleHandle::Output, self.out_orig | VT_OUT),
            ),
            EnterStep::Suppress => Some(ConsoleCall::SuppressCtrl(true)),
            _ => None,
        }
    }

    /// The guard after that call went well or not. Suppressing the Ctrl events is insurance:
    /// failing to does not fail the whole.
    pub open spec fn answered(self, ok: bool) -> ConsoleModes {
        match self.step {
            EnterStep::SetInput => ConsoleModes {
                step: if ok {
                    EnterStep::SetOutput
                } else {
                    EnterStep::Failed
                },
                ..self
            },
            EnterStep::SetOutput => ConsoleModes {
                step: if ok {
                    EnterStep::Suppress
                } else {
                    EnterStep::Failed
                },
                ..self
            },
            EnterStep::Suppress => ConsoleModes {
                ctrl_suppressed: ok,
                step: EnterStep::Entered,
                ..self
            },
            _ => self,
        }
    }

    /// The call to make next, if any.
    pub fn next_call(&self) -> (c: Option<ConsoleCall>)
        ensures
            c == self.pending(),
    {
        match self.step {
            EnterStep::SetInput => Some(ConsoleCall::SetMode(ConsoleHandle::Input, RAW_IN)),
            EnterStep::SetOutput => Some(
                ConsoleCall::SetMode(ConsoleHandle::Output, self.out_orig | VT_OUT),
            ),
            EnterStep::Suppress => Some(ConsoleCall::SuppressCtrl(true)),
            _ => None,
        }
    }

    /// Take in how the call went.
    pub fn answer(&mut self, ok: bool)
        ensures
            *final(self) == old(self).answered(ok),
    {
        match self.step {
            EnterStep::SetInput => {
                self.step = if ok {
                    EnterStep::SetOutput
                } else {
                    EnterStep::Failed
                };
            },
            EnterStep::SetOutput => {
                self.step = if ok {
                    EnterStep::Suppress
                } else {
                    EnterStep::Failed
                };
            },
            EnterStep::Suppress => {
                self.ctrl_suppressed = ok;
                self.step = EnterStep::Entered;
            },
            _ => {},
        }
    }

    /// The calls that undo what was done. Setting a mode back is harmless even where it was
    /// never changed; the Ctrl events are only set free if they were suppressed.
    pub open spec fn undo(self) -> Seq<ConsoleCall> {
        let modes = seq![
            ConsoleCall::SetMode(ConsoleHandle::Input, self.in_orig),
            ConsoleCall::SetMode(ConsoleHandle::Output, self.out_orig),
        ];
        if !self.is_console {
            Seq::empty()
        } else if self.ctrl_suppressed {
            modes.push(ConsoleCall::SuppressCtrl(false))
        } else {
            modes
        }
    }

    pub fn restore_calls(&self) -> (calls: Vec<ConsoleCall>)
        ensures
            calls@ == self.undo(),
    {
        let mut calls: Vec<ConsoleCall> = Vec::new();
        if self.is_console {
            calls.push(ConsoleCall::SetMode(ConsoleHandle::Input, self.in_orig));
            calls.push(ConsoleCall::SetMode(ConsoleHandle::Output, self.out_orig));
            if self.ctrl_suppressed {
                calls.push(ConsoleCall::SuppressCtrl(false));
            }
        }
        assert(calls@ =~= self.undo());
        calls
    }
}

/// A console whose answers are known beforehand: call number `i` succeeds unless `answers[i]` is
/// `false`. It records the calls.
#[derive(Debug)]
pub struct ConsoleScript {
    pub answers: Vec<bool>,
    pub calls: Vec<ConsoleCall>,
}

/// The answer to call number `i`.
pub open spec fn nth_answer(answers: Seq<bool>, i: int) -> bool {
    i >= answers.len() || answers[i]
}

impl ConsoleScript {
    pub fn new(answers: Vec<bool>) -> (s: Self)
        ensures
            s.answers == answers,
            s.calls@ == Seq::<ConsoleCall>::empty(),
    {
        ConsoleScript { answers, calls: Vec::new() }
    }

    pub fn call(&mut self, c: ConsoleCall) -> (ok: bool)
        ensures
            ok == nth_answer(old(self).answers@, old(self).calls@.len() as int),
            final(self).answers == old(self).answers,
            final(self).calls@ == old(self).calls@.push(c),
    {
        let i: usize = self.calls.len();
        self.calls.push(c);
        i >= self.answers.len() || self.answers[i]
    }
}

/// Enter raw mode on a console. Where a mode cannot be set, everything is put back before the
/// failure is reported.
pub fn enter_with(
    console: &mut ConsoleScript,
    in_orig: u32,
    out_orig: u32,
    is_console: bool,
) -> (r: Option<ConsoleModes>)
    ensures
        final(console).answers == old(console).answers,
        ({
            let n = old(console).calls@.len() as int;
            let first = nth_answer(old(console).answers@, n);
            let second = nth_answer(old(console).answers@, n + 1);
            let third = nth_answer(old(console).answers@, n + 2);
            let raw_in = ConsoleCall::SetMode(ConsoleHandle::Input, RAW_IN);
            let vt_out = ConsoleCall::SetMode(ConsoleHandle::Output, out_orig | VT_OUT);
            let back = seq![
                ConsoleCall::SetMode(ConsoleHandle::Input, in_orig),
                ConsoleCall::SetMode(ConsoleHandle::Output, out_orig),
            ];
            let made = final(console).calls@;
            let before = old(console).calls@;
            if !is_console {
                made == before && r == Some(
                    ConsoleModes {
                        in_orig,
                        out_orig,
                        is_console,
                        ctrl_suppressed: false,
                        step: EnterStep::Entered,
                    },
                )
            } else if !first {
                made == before + (seq![raw_in] + back) && r is None
            } else if !second {
                made == before + (seq![raw_in, vt_out] + back) && r is None
            } else {
                made == before + seq![raw_in, vt_out, ConsoleCall::SuppressCtrl(true)] && r == Some(
                    ConsoleModes {
                        in_orig,
                        out_orig,
                        is_console,
                        ctrl_suppressed: third,
                        step: EnterStep::Entered,
                    },
                )
            }
        }),
{
    let mut modes: ConsoleModes = ConsoleModes::begin(in_orig, out_orig, is_console);
    let ghost before = console.calls@;
    if !is_console {
        return Some(modes);
    }
    let input: Option<ConsoleCall> = modes.next_call();
    if let Some(c) = input {
        let ok: bool = console.call(c);
        modes.answer(ok);
    }
    let output: Option<ConsoleCall> = modes.next_call();
    if let Some(c) = output {
        let ok: bool = console.call(c);
        modes.answer(ok);
    }
    let ctrl: Option<ConsoleCall> = modes.next_call();
    if let Some(c) = ctrl {
        let ok: bool = console.call(c);
        modes.answer(ok);
    }
    if let EnterStep::Failed = modes.step {
        let ghost made = console.calls@;
        restore(console, &modes);
        proof {
            let all = console.calls@;
            assert(made.len() == before.len() + 1 ==> made + modes.undo() =~= before + (seq![
                made[before.len() as int],
            ] + modes.undo()));
            assert(made.len() == before.len() + 2 ==> made + modes.undo() =~= before + (seq![
                made[before.len() as int],
                made[before.len() as int + 1],
            ] + modes.undo()));
        }
        return None;
    }
    assert(console.calls@ =~= before + seq![
        ConsoleCall::SetMode(ConsoleHandle::Input, RAW_IN),
        ConsoleCall::SetMode(ConsoleHandle::Output, out_orig | VT_OUT),
        ConsoleCall::SuppressCtrl(true),
    ]);
    Some(modes)
}

/// Put the console's modes back.
pub fn restore(console: &mut ConsoleScript, modes: &ConsoleModes)
    ensures
        final(console).answers == old(console).answers,
        final(console).calls@ == old(console).calls@ + modes.undo(),
{
    let calls: Vec<ConsoleCall> = modes.restore_calls();
    let mut i: usize = 0;
    while i < calls.len()
        invariant
            i <= calls@.len(),
            calls@ == modes.undo(),
            console.answers == old(console).answers,
            console.calls@ =~= old(console).calls@ + calls@.take(i as int),
        decreases calls@.len() - i,
    {
        let _ = console.call(calls[i]);
        i += 1;
    }
    assert(calls@.take(i as int) =~= calls@);
}

// Laws.

/// The state of a console.
pub ghost struct ConsoleState {
    pub input: u32,
    pub output: u32,
    pub ctrl_suppressed: bool,
}

/// The state after a call that went well.
pub open spec fn after_call(s: ConsoleState, c: ConsoleCall) -> ConsoleState {
    match c {
        ConsoleCall::SetMode(ConsoleHandle::Input, m) => ConsoleState { input: m, ..s },
        ConsoleCall::SetMode(ConsoleHandle::Output, m) => ConsoleState { output: m, ..s },
        ConsoleCall::SuppressCtrl(b) => ConsoleState { ctrl_suppressed: b, ..s },
    }
}

/// The state after calls, of which those with a `false` answer changed nothing.
pub open spec fn after_calls(
    s: ConsoleState,
    calls: Seq<ConsoleCall>,
    answers: Seq<bool>,
) -> ConsoleState
    decreases calls.len(),
{
    if calls.len() == 0 {
        s
    } else {
        let before = after_calls(s, calls.drop_last(), answers);
        if nth_answer(answers, calls.len() - 1) {
            after_call(before, calls.last())
        } else {
            before
        }
    }
}

/// Undoing an entered or failed guard puts the modes back and sets free the Ctrl events exactly
/// if the guard had suppressed them.
pub proof fn law_undo_restores_the_console(m: ConsoleModes, s: ConsoleState)
    requires
        m.is_console,
    ensures
        after_calls(s, m.undo(), Seq::empty()) == (ConsoleState {
            input: m.in_orig,
            output: m.out_orig,
            ctrl_suppressed: s.ctrl_suppressed && !m.ctrl_suppressed,
        }),
{
    let none = Seq::<bool>::empty();
    let u = m.undo();
    assert(u.take(1) =~= seq![ConsoleCall::SetMode(ConsoleHandle::Input, m.in_orig)]);
    assert(u.take(1).drop_last() =~= Seq::<ConsoleCall>::empty());
    assert(u.take(2).drop_last() =~= u.take(1));
    assert(after_calls(s, u.take(1).drop_last(), none) == s);
    assert(after_calls(s, u.take(1), none) == (ConsoleState { input: m.in_orig, ..s }));
    assert(after_calls(s, u.take(2), none) == (ConsoleState {
        input: m.in_orig,
        output: m.out_orig,
        ..s
    }));
    if m.ctrl_suppressed {
        assert(u.drop_last() =~= u.take(2));
    } else {
        assert(u =~= u.take(2));
    }
}

/// A mouse event that is not forwarded leaves nothing behind: no frame, and no button that
/// counts as held, so that no release is reported for a press that the shell never saw.
pub proof fn law_gated_mouse_is_forgotten(buttons: u32, m: MouseEvent, gate: InputGate)
    requires
        !gate.forward,
    ensures
        record_wire(buttons, InputRecord::Mouse(m), gate) == Seq::<u8>::empty(),
        record_buttons(buttons, InputRecord::Mouse(m), gate) == 0,
{
}

/// A shell that did not ask for focus reports gets none.
pub proof fn law_focus_is_gated(buttons: u32, focused: bool, gate: InputGate)
    ensures
        record_wire(buttons, InputRecord::Focus(focused), gate).len() > 0 <==> gate.focus,
{
}

/// Failing to enter raw mode leaves the console as it was: whichever of the two modes could not
/// be set, putting both back restores it, and the Ctrl events are never touched.
pub proof fn law_failed_enter_leaves_no_trace(s: ConsoleState)
    ensures
        ({
            let raw_in = ConsoleCall::SetMode(ConsoleHandle::Input, RAW_IN);
            let vt_out = ConsoleCall::SetMode(ConsoleHandle::Output, s.output | VT_OUT);
            let back_in = ConsoleCall::SetMode(ConsoleHandle::Input, s.input);
            let back_out = ConsoleCall::SetMode(ConsoleHandle::Output, s.output);
            &&& after_calls(s, seq![raw_in, back_in, back_out], seq![false]) == s
            &&& after_calls(s, seq![raw_in, vt_out, back_in, back_out], seq![true, false]) == s
        }),
{
    let raw_in = ConsoleCall::SetMode(ConsoleHandle::Input, RAW_IN);
    let vt_out = ConsoleCall::SetMode(ConsoleHandle::Output, s.output | VT_OUT);
    let back_in = ConsoleCall::SetMode(ConsoleHandle::Input, s.input);
    let back_out = ConsoleCall::SetMode(ConsoleHandle::Output, s.output);
    let three = seq![raw_in, back_in, back_out];
    let first = seq![false];
    assert(three.drop_last() =~= three.take(2));
    assert(three.take(2).drop_last() =~= three.take(1));
    assert(three.take(1).drop_last() =~= Seq::<ConsoleCall>::empty());
    assert(after_calls(s, Seq::<ConsoleCall>::empty(), first) == s);
    assert(after_calls(s, three.take(1), first) == s);
    assert(after_calls(s, three.take(2), first) == s);
    let four = seq![raw_in, vt_out, back_in, back_out];
    let second = seq![true, false];
    assert(four.drop_last() =~= four.take(3));
    assert(four.take(3).drop_last() =~= four.take(2));
    assert(four.take(2).drop_last() =~= four.take(1));
    assert(four.take(1).drop_last() =~= Seq::<ConsoleCall>::empty());
    assert(after_calls(s, Seq::<ConsoleCall>::empty(), second) == s);
    assert(after_calls(s, four.take(1), second) == (ConsoleState { input: RAW_IN, ..s }));
    assert(after_calls(s, four.take(2), second) == (ConsoleState { input: RAW_IN, ..s }));
    assert(after_calls(s, four.take(3), second) == s);
}

/// Failing open runs a command byte for byte as it was asked for.
pub proof fn law_fail_open_keeps_the_command(cmd: String)
    ensures
        local_command(fail_open_of(Some(cmd))) == cmd@,
{
}

/// What one record comes to at the agent: the events that its frames are read as.
pub open spec fn record_events(buttons: u32, rec: InputRecord, gate: InputGate) -> Seq<SinkEvent> {
    match rec {
        InputRecord::Key(k) => seq![SinkEvent::Data(Stream::Pty, key_bytes(k))],
        InputRecord::WindowBufferSize(window) => seq![SinkEvent::Resize(size_of_window(window))],
        InputRecord::Mouse(m) => if gate.forward && mouse_bytes(buttons, m).len() > 0 {
            seq![SinkEvent::Data(Stream::Pty, mouse_bytes(buttons, m))]
        } else {
            Seq::empty()
        },
        InputRecord::Focus(focused) => if !gate.focus {
            Seq::empty()
        } else if focused {
            seq![SinkEvent::Data(Stream::Pty, seq![0x1bu8, 0x5b, 0x49])]
        } else {
            seq![SinkEvent::Data(Stream::Pty, seq![0x1bu8, 0x5b, 0x4f])]
        },
        InputRecord::Other => Seq::empty(),
    }
}

/// Whatever a record puts on the wire, the agent reads it as terminal input or as a size, and in
/// front of whatever follows. A key always arrives, whatever the shell asked for; so does a size.
pub proof fn law_input_reaches_the_agent(
    buttons: u32,
    rec: InputRecord,
    gate: InputGate,
    tail: Seq<u8>,
)
    ensures
        ({
            let es = record_events(buttons, rec, gate);
            let d = crate::relay::drain(record_wire(buttons, rec, gate) + tail, Seq::empty());
            let after = crate::relay::drain(tail, Seq::empty());
            &&& d.calls == crate::relay::accepted(es) + after.calls
            &&& d.rest == after.rest
            &&& d.end == after.end
        }),
        rec is Key ==> record_events(buttons, rec, gate) == seq![
            SinkEvent::Data(Stream::Pty, key_bytes(rec->Key_0)),
        ],
        rec is WindowBufferSize ==> record_events(buttons, rec, gate).len() == 1,
{
    let es = record_events(buttons, rec, gate);
    if let InputRecord::Key(k) = rec {
        lemma_key_is_short(k);
    }
    if let InputRecord::Mouse(m) = rec {
        lemma_mouse_is_short(buttons, m);
    }
    assert forall|i: int| 0 <= i < es.len() implies crate::relay::fits(#[trigger] es[i]) by {
    }
    if es.len() > 0 {
        assert(es.skip(1) =~= Seq::<SinkEvent>::empty());
        assert(crate::relay::events_wire(es.skip(1)) =~= Seq::<u8>::empty());
        assert(crate::relay::events_wire(es) =~= record_wire(buttons, rec, gate));
    } else {
        assert(crate::relay::events_wire(es) =~= record_wire(buttons, rec, gate));
    }
    crate::relay::law_written_events_are_delivered(es, tail);
}

/// A batch is its records one after the other: cutting it in two changes neither what is sent nor
/// which buttons count as held.
pub proof fn law_batches_join(
    buttons: u32,
    a: Seq<InputRecord>,
    b: Seq<InputRecord>,
    gate: InputGate,
)
    ensures
        batch_wire(buttons, a + b, gate) == batch_wire(buttons, a, gate) + batch_wire(
            batch_buttons(buttons, a, gate),
            b,
            gate,
        ),
        batch_buttons(buttons, a + b, gate) == batch_buttons(
            batch_buttons(buttons, a, gate),
            b,
            gate,
        ),
    decreases b.len(),
{
    let all = a + b;
    if b.len() == 0 {
        assert(all =~= a);
        assert(batch_wire(buttons, a, gate) + Seq::<u8>::empty() =~= batch_wire(buttons, a, gate));
    } else {
        law_batches_join(buttons, a, b.drop_last(), gate);
        assert(all.drop_last() =~= a + b.drop_last());
        assert(all.last() == b.last());
        assert(batch_wire(buttons, all, gate) =~= batch_wire(buttons, a, gate) + batch_wire(
            batch_buttons(buttons, a, gate),
            b,
            gate,
        ));
    }
}

/// A single record is a batch of one.
pub proof fn law_one_record_is_a_batch(buttons: u32, rec: InputRecord, gate: InputGate)
    ensures
        batch_wire(buttons, seq![rec], gate) == record_wire(buttons, rec, gate),
        batch_buttons(buttons, seq![rec], gate) == record_buttons(buttons, rec, gate),
        batch_wire(buttons, Seq::empty(), gate) == Seq::<u8>::empty(),
        batch_buttons(buttons, Seq::empty(), gate) == buttons,
{
    let one = seq![rec];
    assert(one.drop_last() =~= Seq::<InputRecord>::empty());
    assert(batch_buttons(buttons, one.drop_last(), gate) == buttons);
    assert(batch_wire(buttons, one.drop_last(), gate) == Seq::<u8>::empty());
    assert(batch_wire(buttons, one, gate) =~= record_wire(buttons, rec, gate));
}

/// A press that the shell was told of is followed by the release: with forwarding on throughout,
/// a button event leaves exactly its own buttons as held, and repeating it sends nothing.
pub proof fn law_forwarded_buttons_are_kept(buttons: u32, m: MouseEvent, gate: InputGate)
    requires
        gate.forward,
        m.event_flags & 0x1 == 0,
        m.event_flags & 0x4 == 0,
        m.event_flags & 0x8 == 0,
    ensures
        record_wire(
            record_buttons(buttons, InputRecord::Mouse(m), gate),
            InputRecord::Mouse(m),
            gate,
        ) == Seq::<u8>::empty(),
{
    crate::vtinput::law_reported_once(buttons, m);
}

/// A size that cannot be asked for is 80 by 24; one that can is the window's own.
pub proof fn law_console_size(window: Option<Window>, size: Resize)
    requires
        call_ensures(console_size, (window,), size),
    ensures
        window is None ==> size.cols == 80 && size.rows == 24,
        size.cols >= 1 && size.rows >= 1,
        window matches Some(w) ==> {
            &&& (w.left <= w.right && w.right - w.left < 0xffff ==> size.cols == w.right - w.left + 1)
            &&& (w.top <= w.bottom && w.bottom - w.top < 0xffff ==> size.rows == w.bottom - w.top
                + 1)
        },
{
}

/// Entering raw mode, where every call goes well, leaves the console with the raw input mode, with
/// the output bits added to what it had, and with the Ctrl events suppressed; undoing that leaves
/// it as it was before.
pub proof fn law_raw_mode_is_entered_and_left(m: ConsoleModes, s: ConsoleState)
    requires
        m == (ConsoleModes {
            in_orig: s.input,
            out_orig: s.output,
            is_console: true,
            ctrl_suppressed: false,
            step: EnterStep::SetInput,
        }),
        !s.ctrl_suppressed,
    ensures
        ({
            let m1 = m.answered(true);
            let m2 = m1.answered(true);
            let m3 = m2.answered(true);
            &&& m.pending() is Some && m1.pending() is Some && m2.pending() is Some
            &&& m3.pending() is None
            &&& m3.step == EnterStep::Entered
            &&& ({
                let raw = after_call(
                    after_call(after_call(s, m.pending()->0), m1.pending()->0),
                    m2.pending()->0,
                );
                &&& raw.input == 0x98
                &&& raw.output == s.output | 0xd
                &&& raw.ctrl_suppressed
                &&& after_calls(raw, m3.undo(), Seq::empty()) == s
            })
        }),
{
    let m3 = m.answered(true).answered(true).answered(true);
    let raw = after_call(
        after_call(after_call(s, m.pending()->0), m.answered(true).pending()->0),
        m.answered(true).answered(true).pending()->0,
    );
    law_undo_restores_the_console(m3, raw);
}

/// A mode that cannot be set ends the attempt; not being able to suppress the Ctrl events does not,
/// and they are then not set free either. Without a console nothing is done at all.
pub proof fn law_failures_of_raw_mode(m: ConsoleModes)
    ensures
        m.step == EnterStep::SetInput || m.step == EnterStep::SetOutput ==> m.answered(false).step
            == EnterStep::Failed,
        m.answered(false).step == EnterStep::Failed ==> m.answered(false).pending() is None,
        m.step == EnterStep::Suppress ==> m.answered(false).step == EnterStep::Entered
            && !m.answered(false).ctrl_suppressed,
        !m.is_console ==> m.undo() == Seq::<ConsoleCall>::empty(),
        !m.ctrl_suppressed ==> !m.undo().contains(ConsoleCall::SuppressCtrl(false)),
{
}

/// After a completed relay the shim ends with the command's code and runs nothing itself; after any
/// other end it runs what was asked for here, so nothing is ever run twice.
pub proof fn law_nothing_runs_twice(end: RelayEnd, exec: Option<String>, a: ShimAction)
    requires
        call_ensures(after_relay, (end, exec), a),
    ensures
        a is Exit <==> end is Completed,
        end matches RelayEnd::Completed(code) ==> a == ShimAction::Exit(code),
        !(end is Completed) ==> a == ShimAction::RunLocally(fail_open_of(exec)),
{
}

/// The end of a local run keeps the bits of its code; where there is none it is 255, and only a
/// command's stderr hears of it.
pub proof fn law_local_run_ends(code: Option<u32>, decision: &FailOpen, end: LocalEnd)
    requires
        call_ensures(after_local, (code, decision), end),
    ensures
        code matches Some(c) ==> crate::protocol::bits_of(end.code) == c && !end.complain,
        code is None ==> end.code == 255,
        end.complain <==> code is None && *decision is Passthrough,
{
    if let Some(c) = code {
        crate::protocol::law_exit_bits_survive(c);
    }
}

/// Every command is relayed where the agent answers, none where it does not; only a command may
/// hear the warning on stderr.
pub proof fn law_relay_follows_the_agent(
    connect_err: bool,
    exec: &Option<String>,
    term: String,
    plan: RelayPlan,
)
    requires
        call_ensures(plan_relay, (connect_err, exec, term), plan),
    ensures
        plan is FailOpen <==> connect_err,
        plan is Exec <==> !connect_err && exec is Some,
        plan is Interactive <==> !connect_err && exec is None,
        plan matches RelayPlan::FailOpen { warn } ==> warn == (exec is Some),
        plan matches RelayPlan::Exec(hs) ==> text_of(hs.command) == text_of(*exec) && hs.mode
            == Mode::Exec && hs.term@ == term@,
{
}

} // verus!
