//! agent: the decisions of the resident agent: what a connection asks for, how input reaches the
//! child, and in which order a session is torn down.

use vstd::prelude::*;
use crate::protocol::{
    ExitCode, Frame, FrameKind, FrameView, Handshake, HandshakeView, Mode, ProtocolError, Stream,
    frame_bytes, handshake_in, handshake_of, text_of, write_frame,
};
use crate::relay::{SinkEvent, event_frame, write_data};

verus! {

/// Default shell when the handshake carries no command.
pub fn default_shell() -> (s: String)
    ensures
        s@ == "pwsh.exe -NoLogo"@,
{
    "pwsh.exe -NoLogo".to_owned()
}

/// The directory a child starts in: the handshake's own if it names one, else the home.
pub open spec fn start_dir(handshake_cwd: Seq<char>, home: Option<Seq<char>>) -> Option<Seq<char>> {
    if handshake_cwd.len() == 0 {
        home
    } else {
        Some(handshake_cwd)
    }
}

/// The working directory to start the child in: the handshake's explicit `cwd` if any, else the
/// user's home directory, as a normal login does.
pub fn child_cwd(handshake_cwd: &str, home: Option<String>) -> (cwd: Option<String>)
    ensures
        text_of(cwd) == start_dir(handshake_cwd@, text_of(home)),
{
    if handshake_cwd.is_empty() {
        home
    } else {
        Some(handshake_cwd.to_owned())
    }
}

/// What a connection asks for.
#[derive(Debug, Clone, PartialEq, Eq)]
pub struct SessionPlan {
    pub mode: Mode,
    pub command: String,
    pub cols: u16,
    pub rows: u16,
    pub cwd: Option<String>,
}

/// The model of a plan.
pub ghost struct PlanView {
    pub mode: Mode,
    pub command: Seq<char>,
    pub cols: u16,
    pub rows: u16,
    pub cwd: Option<Seq<char>>,
}

impl View for SessionPlan {
    type V = PlanView;

    open spec fn view(&self) -> PlanView {
        PlanView {
            mode: self.mode,
            command: self.command@,
            cols: self.cols,
            rows: self.rows,
            cwd: text_of(self.cwd),
        }
    }
}

/// The plan of a session with the given handshake and home directory.
pub open spec fn plan_of(h: HandshakeView, home: Option<Seq<char>>) -> PlanView {
    PlanView {
        mode: h.mode,
        command: match h.command {
            Some(c) => c,
            None => "pwsh.exe -NoLogo"@,
        },
        cols: h.cols,
        rows: h.rows,
        cwd: start_dir(h.cwd, home),
    }
}

/// The session that a handshake asks for: its command or the default shell, in its directory or
/// the home.
pub fn plan_session(hs: Handshake, home: Option<String>) -> (p: SessionPlan)
    ensures
        p@ == plan_of(hs@, text_of(home)),
{
    let cwd: Option<String> = child_cwd(hs.cwd.as_str(), home);
    let command: String = match hs.command {
        Some(c) => c,
        None => default_shell(),
    };
    SessionPlan { mode: hs.mode, command, cols: hs.cols, rows: hs.rows, cwd }
}

/// Why a connection is refused.
#[derive(Debug, Clone, PartialEq, Eq)]
pub enum ConnectionError {
    NotAHandshake,
    Protocol(ProtocolError),
}

impl ConnectionError {
    pub open spec fn text(self) -> Seq<char> {
        match self {
            ConnectionError::NotAHandshake => "first frame was not a handshake"@,
            ConnectionError::Protocol(e) => e.text(),
        }
    }

    pub fn message(&self) -> (s: String)
        ensures
            s@ == self.text(),
    {
        match self {
            ConnectionError::NotAHandshake => "first frame was not a handshake".to_owned(),
            ConnectionError::Protocol(e) => e.message(),
        }
    }
}

/// The session that the first frame of a connection asks for. Anything but a handshake of this
/// protocol's version is refused.
pub fn open_session(first: &Frame, home: Option<String>) -> (r: Result<
    SessionPlan,
    ConnectionError,
>)
    ensures
        first.kind != FrameKind::Handshake ==> r == Err::<SessionPlan, _>(
            ConnectionError::NotAHandshake,
        ),
        first.kind == FrameKind::Handshake ==> match handshake_in(first.payload@) {
            Err(why) => r is Err && r->Err_0 is Protocol && r->Err_0->Protocol_0.reports(why),
            Ok(h) => r is Ok && r->Ok_0@ == plan_of(h, text_of(home)),
        },
        forall|h: HandshakeView|
            #![trigger h.bytes()]
            first.kind == FrameKind::Handshake && h.bytes().is_prefix_of(
                first.payload@,
            ) && h.version == crate::protocol::PROTOCOL_VERSION ==> r is Ok && r->Ok_0@ == plan_of(
                h,
                text_of(home),
            ),
{
    match first.kind {
        FrameKind::Handshake => {},
        _ => {
            return Err(ConnectionError::NotAHandshake);
        },
    }
    match Handshake::decode(first.payload.as_slice()) {
        Err(e) => Err(ConnectionError::Protocol(e)),
        Ok(hs) => Ok(plan_session(hs, home)),
    }
}

// Output of the child.

/// Put one read of a child's output on the wire as a DATA frame; nothing at all is its end. Says
/// whether to read on.
pub fn output_chunk(stream: Stream, bytes: &[u8], tx: &mut Vec<u8>) -> (more: bool)
    ensures
        more == (0 < bytes@.len() < crate::protocol::MAX_FRAME),
        more ==> final(tx)@ == old(tx)@ + frame_bytes(
            event_frame(SinkEvent::Data(stream, bytes@)),
        ),
        !more ==> final(tx)@ == old(tx)@,
{
    if bytes.len() == 0 || bytes.len() >= crate::protocol::MAX_FRAME as usize {
        return false;
    }
    let _ = write_data(tx, stream, bytes);
    true
}

/// Put the exit code on the wire.
pub fn exit_frame(code: i32, tx: &mut Vec<u8>)
    ensures
        final(tx)@ == old(tx)@ + frame_bytes(
            FrameView { kind: FrameKind::Exit, payload: ExitCode(code).bytes() },
        ),
{
    let payload: [u8; 4] = ExitCode(code).encode();
    let _ = write_frame(tx, FrameKind::Exit, &payload);
}

// Input of the child.

/// What is done with input for a child.
#[derive(Debug, Clone, PartialEq, Eq)]
pub enum WriterAction {
    /// Queue the bytes for the writer.
    Send(Vec<u8>),
    /// Close the child's stdin, and keep the session.
    Close,
    /// Its stdin is closed: drop the bytes.
    Discard,
}

/// The model of what is done with input.
pub ghost enum WriterView {
    Send(Seq<u8>),
    Close,
    Discard,
}

impl View for WriterAction {
    type V = WriterView;

    open spec fn view(&self) -> WriterView {
        match *self {
            WriterAction::Send(bytes) => WriterView::Send(bytes@),
            WriterAction::Close => WriterView::Close,
            WriterAction::Discard => WriterView::Discard,
        }
    }
}

/// What is done with the bytes of one DATA frame, given whether the child's stdin is open and
/// whether an empty frame closes it.
pub open spec fn queue_action(open: bool, eof_marker: bool, bytes: Seq<u8>) -> WriterView {
    if !open {
        WriterView::Discard
    } else if eof_marker && bytes.len() == 0 {
        WriterView::Close
    } else {
        WriterView::Send(bytes)
    }
}

/// What is done with the bytes of DATA frames, one after the other.
pub open spec fn queue_actions(open: bool, eof_marker: bool, frames: Seq<Seq<u8>>) -> Seq<WriterView>
    decreases frames.len(),
{
    if frames.len() == 0 {
        Seq::empty()
    } else {
        let action = queue_action(open, eof_marker, frames[0]);
        seq![action] + queue_actions(open && !(action is Close), eof_marker, frames.skip(1))
    }
}

/// The queue to a child's input, which is written from a thread of its own: the frame reader must
/// never wait for a child that does not read, or it would not see a disconnect.
#[derive(Debug)]
pub struct InputQueue {
    /// Whether an empty frame closes the child's stdin, as in an EXEC session.
    eof_marker: bool,
    open: bool,
}

impl InputQueue {
    pub closed spec fn is_open(&self) -> bool {
        self.open
    }

    pub closed spec fn has_eof_marker(&self) -> bool {
        self.eof_marker
    }

    /// The queue of a session: only EXEC has an end-of-stdin marker, because a terminal's input
    /// belongs to the session.
    pub fn new(mode: Mode) -> (q: Self)
        ensures
            q.is_open(),
            q.has_eof_marker() == (mode == Mode::Exec),
    {
        let eof_marker: bool = match mode {
            Mode::Exec => true,
            Mode::Pty => false,
        };
        InputQueue { eof_marker, open: true }
    }

    /// Take the bytes of one DATA frame. The empty frame that marks the end of stdin closes it
    /// without ending the session; what comes after it is dropped.
    pub fn on_data(&mut self, bytes: &[u8]) -> (a: WriterAction)
        ensures
            final(self).has_eof_marker() == old(self).has_eof_marker(),
            a@ == queue_action(old(self).is_open(), old(self).has_eof_marker(), bytes@),
            final(self).is_open() == (old(self).is_open() && !(a is Close)),
    {
        if !self.open {
            return WriterAction::Discard;
        }
        if self.eof_marker && bytes.len() == 0 {
            self.open = false;
            return WriterAction::Close;
        }
        WriterAction::Send(vstd::slice::slice_to_vec(bytes))
    }
}

// Teardown.

/// The warning teardown owes an operator when a failed reap means that the joins can block.
pub fn teardown_warning(reaped: bool) -> (w: Option<&'static str>)
    ensures
        w is Some <==> !reaped,
        w is Some ==> w->0@
            == "the process tree survived teardown; joining the output pumps will block until whatever still holds the session's pipes exits"@,
{
    if reaped {
        None
    } else {
        Some(
            "the process tree survived teardown; joining the output pumps will block until whatever still holds the session's pipes exits",
        )
    }
}

/// The code a session ends with: the child's, or 1 where waiting for it failed.
pub fn session_code(waited: Option<i32>) -> (code: i32)
    ensures
        code == match waited {
            Some(c) => c,
            None => 1,
        },
{
    match waited {
        Some(c) => c,
        None => 1,
    }
}

/// A step of tearing a session down once its child is gone.
#[derive(Debug, Clone, Copy, PartialEq, Eq, Structural)]
pub enum TeardownStep {
    /// Kill what the child left behind, which closes the pipes it holds.
    Reap,
    /// Close the pseudoconsole, which ends its output.
    ClosePty,
    /// Wait until every output pump has drained.
    JoinOutput,
    /// Send the exit code.
    SendExit(i32),
    /// Close the connection, which ends the input pump.
    Shutdown,
    JoinInput,
}

/// The steps of tearing a session down. The exit code is sent once nothing else can write a
/// frame, and the connection is closed behind it.
pub open spec fn teardown(mode: Mode, waited: Option<i32>) -> Seq<TeardownStep> {
    let code = match waited {
        Some(c) => c,
        None => 1,
    };
    match mode {
        Mode::Pty => seq![
            TeardownStep::Reap,
            TeardownStep::ClosePty,
            TeardownStep::JoinOutput,
            TeardownStep::SendExit(code),
            TeardownStep::Shutdown,
            TeardownStep::JoinInput,
        ],
        Mode::Exec => seq![
            TeardownStep::Reap,
            TeardownStep::JoinOutput,
            TeardownStep::SendExit(code),
            TeardownStep::Shutdown,
            TeardownStep::JoinInput,
        ],
    }
}

pub fn teardown_steps(mode: Mode, waited: Option<i32>) -> (steps: Vec<TeardownStep>)
    ensures
        steps@ == teardown(mode, waited),
{
    let mut steps: Vec<TeardownStep> = Vec::new();
    steps.push(TeardownStep::Reap);
    if let Mode::Pty = mode {
        steps.push(TeardownStep::ClosePty);
    }
    steps.push(TeardownStep::JoinOutput);
    steps.push(TeardownStep::SendExit(session_code(waited)));
    steps.push(TeardownStep::Shutdown);
    steps.push(TeardownStep::JoinInput);
    assert(steps@ =~= teardown(mode, waited));
    steps
}

// Laws.

/// Exactly one exit code is sent, after the output is drained and before the connection is
/// closed, and the input pump is joined last.
pub proof fn law_exit_code_comes_last(mode: Mode, waited: Option<i32>)
    ensures
        ({
            let steps = teardown(mode, waited);
            let n = steps.len();
            &&& steps[n - 4] == TeardownStep::JoinOutput
            &&& steps[n - 3] is SendExit
            &&& steps[n - 2] == TeardownStep::Shutdown
            &&& steps[n - 1] == TeardownStep::JoinInput
            &&& forall|i: int| 0 <= i < n && (#[trigger] steps[i]) is SendExit ==> i == n - 3
        }),
{
}

/// Whatever arrives on stdin is written to a command unchanged and in order; the marker behind it
/// closes the command's stdin, and what follows the marker is dropped.
pub proof fn law_stdin_reaches_the_child(chunks: Seq<Seq<u8>>, late: Seq<Seq<u8>>)
    requires
        forall|i: int| 0 <= i < chunks.len() ==> (#[trigger] chunks[i]).len() > 0,
    ensures
        queue_actions(true, true, chunks + seq![Seq::empty()] + late) == chunks.map_values(
            |c: Seq<u8>| WriterView::Send(c),
        ) + seq![WriterView::Close] + late.map_values(|c: Seq<u8>| WriterView::Discard),
    decreases chunks.len(),
{
    let all = chunks + seq![Seq::empty()] + late;
    let sent = chunks.map_values(|c: Seq<u8>| WriterView::Send(c));
    let dropped = late.map_values(|c: Seq<u8>| WriterView::Discard);
    if chunks.len() == 0 {
        assert(all[0].len() == 0);
        assert(all.skip(1) =~= late);
        lemma_closed_drops(late);
        assert(queue_actions(true, true, all) =~= sent + seq![WriterView::Close] + dropped);
    } else {
        let rest = chunks.skip(1);
        assert forall|i: int| 0 <= i < rest.len() implies (#[trigger] rest[i]).len() > 0 by {
            assert(rest[i] == chunks[i + 1]);
        }
        law_stdin_reaches_the_child(rest, late);
        assert(all[0] == chunks[0]);
        assert(all.skip(1) =~= rest + seq![Seq::empty()] + late);
        assert(queue_actions(true, true, all) =~= sent + seq![WriterView::Close] + dropped);
    }
}

proof fn lemma_closed_drops(late: Seq<Seq<u8>>)
    ensures
        queue_actions(false, true, late) == late.map_values(|c: Seq<u8>| WriterView::Discard),
    decreases late.len(),
{
    if late.len() > 0 {
        lemma_closed_drops(late.skip(1));
    }
    assert(queue_actions(false, true, late) =~= late.map_values(
        |c: Seq<u8>| WriterView::Discard,
    ));
}

/// A terminal's input is written whole: nothing in it closes it.
pub proof fn law_terminal_input_is_never_closed(chunks: Seq<Seq<u8>>)
    ensures
        queue_actions(true, false, chunks) == chunks.map_values(|c: Seq<u8>| WriterView::Send(c)),
    decreases chunks.len(),
{
    if chunks.len() > 0 {
        law_terminal_input_is_never_closed(chunks.skip(1));
    }
    assert(queue_actions(true, false, chunks) =~= chunks.map_values(
        |c: Seq<u8>| WriterView::Send(c),
    ));
}

/// What the shim asks for is what the agent opens: a handshake for a command opens an EXEC
/// session with that very command, and one without a command a terminal with the default shell
/// and the given size, each in the user's home.
pub proof fn law_session_is_what_was_asked(
    command: Option<Seq<char>>,
    term: Seq<char>,
    cols: u16,
    rows: u16,
    home: Option<Seq<char>>,
)
    ensures
        ({
            let h = HandshakeView {
                version: crate::protocol::PROTOCOL_VERSION,
                mode: if command is Some {
                    Mode::Exec
                } else {
                    Mode::Pty
                },
                cols,
                rows,
                term,
                cwd: Seq::empty(),
                command,
                env: Seq::empty(),
            };
            &&& handshake_of(h.fields()) == Ok::<_, crate::protocol::Refusal>(h)
            &&& plan_of(h, home) == (PlanView {
                mode: h.mode,
                command: match command {
                    Some(c) => c,
                    None => "pwsh.exe -NoLogo"@,
                },
                cols,
                rows,
                cwd: home,
            })
        }),
{
}

/// The one exit code that is sent is the child's own, whatever it is and in either kind of
/// session; where waiting for the child failed, it is 1.
pub proof fn law_exit_code_is_the_childs(mode: Mode, waited: Option<i32>, i: int)
    requires
        0 <= i < teardown(mode, waited).len(),
        teardown(mode, waited)[i] is SendExit,
    ensures
        waited is Some ==> teardown(mode, waited)[i] == TeardownStep::SendExit(waited->0),
        waited is None ==> teardown(mode, waited)[i] == TeardownStep::SendExit(1),
{
}

/// Different codes never look alike to the client: the frame that is sent for one carries that
/// very code.
pub proof fn law_exit_frame_carries_the_code(code: i32, tail: Seq<u8>)
    ensures
        ({
            let sent = frame_bytes(
                FrameView { kind: FrameKind::Exit, payload: ExitCode(code).bytes() },
            );
            let d = crate::relay::drain(sent + tail, Seq::empty());
            d.end == Some(Ok::<_, crate::relay::PumpError>(crate::relay::Outcome::Exited(code)))
                && d.rest == tail
        }),
{
    let f = FrameView { kind: FrameKind::Exit, payload: ExitCode(code).bytes() };
    crate::protocol::law_exit_round_trip(ExitCode(code));
    crate::protocol::law_written_frame_comes_first(f, tail);
}

/// A teardown takes each of its steps once. What the child left behind is killed before anything
/// is waited for; a terminal, and only a terminal, has its pseudoconsole closed, before the output
/// is waited for.
pub proof fn law_teardown_takes_each_step_once(mode: Mode, waited: Option<i32>)
    ensures
        ({
            let steps = teardown(mode, waited);
            &&& steps[0] == TeardownStep::Reap
            &&& forall|i: int, j: int|
                0 <= i < j < steps.len() ==> #[trigger] steps[i] != #[trigger] steps[j]
            &&& steps.contains(TeardownStep::ClosePty) <==> mode == Mode::Pty
            &&& forall|i: int, j: int|
                0 <= i < steps.len() && 0 <= j < steps.len() && #[trigger] steps[i]
                    == TeardownStep::ClosePty && #[trigger] steps[j] == TeardownStep::JoinOutput
                    ==> i < j
            &&& steps.contains(TeardownStep::JoinOutput)
            &&& steps.contains(TeardownStep::JoinInput)
            &&& steps.contains(TeardownStep::Shutdown)
        }),
{
    let steps = teardown(mode, waited);
    let n = steps.len();
    assert(steps[n - 4] == TeardownStep::JoinOutput);
    assert(steps[n - 2] == TeardownStep::Shutdown);
    assert(steps[n - 1] == TeardownStep::JoinInput);
    if mode == Mode::Pty {
        assert(steps[1] == TeardownStep::ClosePty);
    }
}

/// A session starts in the directory that its handshake names, and in the home where it names
/// none; it runs the command of its handshake, and the default shell where it has none.
pub proof fn law_handshake_decides_the_session(h: HandshakeView, home: Option<Seq<char>>)
    ensures
        h.cwd.len() > 0 ==> plan_of(h, home).cwd == Some(h.cwd),
        h.cwd.len() == 0 ==> plan_of(h, home).cwd == home,
        h.command is Some ==> plan_of(h, home).command == h.command->0,
        h.command is None ==> plan_of(h, home).command == "pwsh.exe -NoLogo"@,
        plan_of(h, home).mode == h.mode,
        plan_of(h, home).cols == h.cols,
        plan_of(h, home).rows == h.rows,
{
}

/// The steps that are handed out bring the child's code: the one exit code among them is that code,
/// or 1 where there is none.
pub proof fn law_teardown_brings_the_code(
    mode: Mode,
    waited: Option<i32>,
    steps: Vec<TeardownStep>,
    i: int,
)
    requires
        call_ensures(teardown_steps, (mode, waited), steps),
    ensures
        exists|j: int| 0 <= j < steps@.len() && (#[trigger] steps@[j]) is SendExit,
        0 <= i < steps@.len() && steps@[i] is SendExit ==> steps@[i] == TeardownStep::SendExit(
            match waited {
                Some(c) => c,
                None => 1,
            },
        ),
{
    law_exit_code_comes_last(mode, waited);
    let n = steps@.len();
    assert(steps@[n - 3] is SendExit);
    if 0 <= i < n && steps@[i] is SendExit {
        law_exit_code_is_the_childs(mode, waited, i);
    }
}

/// A connection opens a session only with a handshake, and then the very session that it asks for:
/// its kind, its command or the default shell, its size, and its directory or the home.
pub proof fn law_handshake_opens_its_session(
    first: &Frame,
    home: Option<String>,
    r: Result<SessionPlan, ConnectionError>,
    h: HandshakeView,
)
    requires
        call_ensures(open_session, (first, home), r),
    ensures
        first.kind != FrameKind::Handshake ==> r == Err::<SessionPlan, _>(
            ConnectionError::NotAHandshake,
        ),
        first.kind == FrameKind::Handshake && h.version == 1 && h.bytes().is_prefix_of(first.payload@)
            ==> {
            &&& r is Ok
            &&& r->Ok_0.mode == h.mode
            &&& r->Ok_0.cols == h.cols
            &&& r->Ok_0.rows == h.rows
            &&& h.command is Some ==> r->Ok_0.command@ == h.command->0
            &&& h.command is None ==> r->Ok_0.command@ == "pwsh.exe -NoLogo"@
            &&& h.cwd.len() > 0 ==> text_of(r->Ok_0.cwd) == Some(h.cwd)
            &&& h.cwd.len() == 0 ==> text_of(r->Ok_0.cwd) == text_of(home)
        },
{
}

} // verus!
