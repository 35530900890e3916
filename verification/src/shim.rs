//! shim: the SSH default shell. Relays the terminal or the streams to the agent, and fails open
//! to a local shell if the agent is unreachable.

use vstd::prelude::*;
use crate::protocol::{
    FrameKind, FrameReader, FrameView, Handshake, HandshakeView, MAX_FRAME, Mode, PROTOCOL_VERSION,
    ProtocolError, ReadEvent, ReadScript, ReadView, Resize, Stream, frame_bytes, text_of,
    write_frame,
};
use crate::relay::{
    FrameSink, Outcome, PumpError, SinkCall, SinkError, SinkEvent, accepted, accepting, behind,
    collected, event_frame, events_wire, law_written_events_are_delivered, next_read, pump,
    pump_decode, pumped, replies_of, took, write_data,
};
use crate::text::{
    CharClass, chars_of, is_string, is_text, is_white, is_whitespace, lowered, string_of, to_lower, trim,
    trimmed,
};

pub use crate::sniffer::MouseModeSniffer;
pub use crate::xtwinops::XtwinopsFilter;

verus! {

// EXEC relay.

/// Output that a reader has got once it is flushed.
#[derive(Debug)]
pub struct OutBuffer {
    pub bytes: Vec<u8>,
    /// How many of the bytes the reader had got after each flush.
    pub flushes: Vec<usize>,
}

impl OutBuffer {
    /// Whether it was flushed `n` times, and holds nothing that the reader has not got.
    pub open spec fn is_flushed(&self, n: nat) -> bool {
        &&& self.flushes@.len() == n
        &&& if n == 0 {
            self.bytes@.len() == 0
        } else {
            self.flushes@.last() == self.bytes@.len()
        }
    }

    pub fn new() -> (b: Self)
        ensures
            b.bytes@ == Seq::<u8>::empty(),
            b.flushes@ == Seq::<usize>::empty(),
    {
        OutBuffer { bytes: Vec::new(), flushes: Vec::new() }
    }

    pub fn write_all(&mut self, bytes: &[u8])
        ensures
            final(self).bytes@ == old(self).bytes@ + bytes@,
            final(self).flushes == old(self).flushes,
    {
        self.bytes.extend_from_slice(bytes);
        assert(self.bytes@ =~= old(self).bytes@ + bytes@);
    }

    pub fn flush(&mut self)
        ensures
            final(self).bytes@ == old(self).bytes@,
            final(self).flushes@ == old(self).flushes@.push(old(self).bytes.len()),
    {
        self.flushes.push(self.bytes.len());
    }
}

/// How many DATA events there are on stderr, or on every other stream.
pub open spec fn data_calls(calls: Seq<SinkCall>, stderr: bool) -> nat
    decreases calls.len(),
{
    if calls.len() == 0 {
        0
    } else {
        let before = data_calls(calls.drop_last(), stderr);
        match calls.last().event {
            SinkEvent::Data(s, _) => if (s == Stream::Stderr) == stderr {
                before + 1
            } else {
                before
            },
            SinkEvent::Resize(_) => before,
        }
    }
}

/// Where a stream of the agent's output goes in an EXEC session.
#[derive(Debug, Clone, Copy, PartialEq, Eq, Structural)]
pub enum ExecTarget {
    Stdout,
    Stderr,
}

/// Stderr is kept separate; everything else is output.
pub fn exec_target(stream: Stream) -> (t: ExecTarget)
    ensures
        t == if stream == Stream::Stderr {
            ExecTarget::Stderr
        } else {
            ExecTarget::Stdout
        },
{
    match stream {
        Stream::Stderr => ExecTarget::Stderr,
        _ => ExecTarget::Stdout,
    }
}

/// Routes the agent's decoded output streams to the EXEC writers, keeping stderr separate, and
/// flushes after each frame: output without a newline would otherwise sit in a line buffer.
pub struct ExecOutSink {
    pub out: OutBuffer,
    pub err: OutBuffer,
    pub made: Ghost<Seq<SinkCall>>,
}

impl ExecOutSink {
    pub fn new() -> (s: Self)
        ensures
            s.wf(),
            s.calls() == Seq::<SinkCall>::empty(),
    {
        ExecOutSink { out: OutBuffer::new(), err: OutBuffer::new(), made: Ghost(Seq::empty()) }
    }
}

impl FrameSink for ExecOutSink {
    open spec fn records(&self) -> bool {
        true
    }

    open spec fn calls(&self) -> Seq<SinkCall> {
        self.made@
    }

    /// It holds what was delivered, flushed after each frame, and has accepted every call.
    open spec fn wf(&self) -> bool {
        &&& self.out.bytes@ == collected(self.calls(), false)
        &&& self.err.bytes@ == collected(self.calls(), true)
        &&& self.out.is_flushed(data_calls(self.calls(), false))
        &&& self.err.is_flushed(data_calls(self.calls(), true))
        &&& accepting(replies_of(self.calls()))
    }

    fn on_data(&mut self, stream: Stream, bytes: &[u8]) -> (r: Result<(), SinkError>) {
        let r: Result<(), SinkError> = Ok(());
        match exec_target(stream) {
            ExecTarget::Stderr => {
                self.err.write_all(bytes);
                self.err.flush();
            },
            ExecTarget::Stdout => {
                self.out.write_all(bytes);
                self.out.flush();
            },
        }
        self.made = Ghost(
            self.made@.push(SinkCall { event: SinkEvent::Data(stream, bytes@), reply: r }),
        );
        assert(self.calls().drop_last() =~= old(self).calls());
        assert(replies_of(self.calls()) =~= replies_of(old(self).calls()).push(r));
        r
    }

    fn on_resize(&mut self, size: Resize) -> (r: Result<(), SinkError>) {
        let r: Result<(), SinkError> = Ok(());
        self.made = Ghost(self.made@.push(SinkCall { event: SinkEvent::Resize(size), reply: r }));
        assert(self.calls().drop_last() =~= old(self).calls());
        assert(replies_of(self.calls()) =~= replies_of(old(self).calls()).push(r));
        r
    }
}

/// What one read of stdin puts on the wire.
pub open spec fn stdin_event_wire(read: ReadView) -> Seq<u8> {
    match read {
        ReadView::Bytes(b) => if b.len() < MAX_FRAME {
            frame_bytes(event_frame(SinkEvent::Data(Stream::Stdin, b)))
        } else {
            Seq::empty()
        },
        _ => frame_bytes(event_frame(SinkEvent::Data(Stream::Stdin, Seq::empty()))),
    }
}

/// Whether stdin is read on after a read.
pub open spec fn stdin_goes_on(read: ReadView) -> bool {
    read matches ReadView::Bytes(b) && 0 < b.len() < MAX_FRAME
}

/// What the whole of stdin puts on the wire.
pub open spec fn stdin_wire(reads: Seq<ReadView>) -> Seq<u8>
    decreases reads.len(),
{
    if reads.len() > 0 && stdin_goes_on(reads[0]) {
        stdin_event_wire(reads[0]) + stdin_wire(behind(reads, 1))
    } else {
        stdin_event_wire(next_read(reads))
    }
}

/// The reads that are left once stdin was forwarded.
pub open spec fn stdin_left(reads: Seq<ReadView>) -> Seq<ReadView>
    decreases reads.len(),
{
    if reads.len() > 0 && stdin_goes_on(reads[0]) {
        stdin_left(behind(reads, 1))
    } else {
        behind(reads, 1)
    }
}

/// Put one read of stdin on the wire as a `DATA(Stdin)` frame. At its end, or on a read error,
/// the empty frame that marks the end of stdin is written, and the connection stays open. Says
/// whether to read on.
pub fn forward_stdin_event(event: ReadEvent, tx: &mut Vec<u8>) -> (more: bool)
    ensures
        more == stdin_goes_on(event@),
        final(tx)@ == old(tx)@ + stdin_event_wire(event@),
{
    let none: Vec<u8> = Vec::new();
    match event {
        ReadEvent::Bytes(b) => {
            if b.len() >= MAX_FRAME as usize {
                assert(tx@ =~= old(tx)@ + stdin_event_wire(event@));
                false
            } else if b.len() > 0 {
                let _ = write_data(tx, Stream::Stdin, b.as_slice());
                true
            } else {
                assert(b@ =~= none@);
                let _ = write_data(tx, Stream::Stdin, none.as_slice());
                false
            }
        },
        _ => {
            let _ = write_data(tx, Stream::Stdin, none.as_slice());
            false
        },
    }
}

/// Forward `stdin` as `DATA(Stdin)` frames, ending with the end-of-stdin marker.
pub fn forward_stdin(stdin: &mut ReadScript, tx: &mut Vec<u8>)
    ensures
        final(tx)@ == old(tx)@ + stdin_wire(old(stdin)@),
        final(stdin)@ == stdin_left(old(stdin)@),
{
    let ghost reads0 = stdin@;
    let ghost wire0 = tx@;
    loop
        invariant
            wire0 == old(tx)@,
            reads0 == old(stdin)@,
            wire0 + stdin_wire(reads0) == tx@ + stdin_wire(stdin@),
            stdin_left(reads0) == stdin_left(stdin@),
        decreases stdin@.len(),
    {
        let ghost reads = stdin@;
        let ghost wire = tx@;
        let event: ReadEvent = stdin.read();
        assert(event@ == next_read(reads));
        assert(stdin@ =~= behind(reads, 1));
        if !forward_stdin_event(event, tx) {
            return;
        }
        assert((wire + stdin_event_wire(reads[0])) + stdin_wire(stdin@) =~= wire + (
        stdin_event_wire(reads[0]) + stdin_wire(stdin@)));
    }
}

/// The frame that opens a connection.
pub open spec fn handshake_frame(h: HandshakeView) -> FrameView {
    FrameView { kind: FrameKind::Handshake, payload: h.bytes() }
}

/// Put the handshake on the wire.
pub fn send_handshake(tx: &mut Vec<u8>, hs: &Handshake) -> (r: Result<(), ProtocolError>)
    ensures
        hs@.bytes().len() <= MAX_FRAME ==> r is Ok && final(tx)@ == old(tx)@ + frame_bytes(
            handshake_frame(hs@),
        ),
        hs@.bytes().len() > MAX_FRAME ==> r == Err::<(), _>(
            ProtocolError::PayloadTooLarge(hs@.bytes().len() as usize),
        ) && final(tx)@ == old(tx)@,
{
    match hs.encode() {
        Err(e) => Err(e),
        Ok(payload) => write_frame(tx, FrameKind::Handshake, payload.as_slice()),
    }
}

/// Relay an EXEC session: send the handshake, forward `stdin` as `DATA(Stdin)` frames, and write
/// the agent's stdout and stderr, kept separate, to `out` and `err`. Gives the child's exit code.
pub fn run_exec_on(
    rx: &mut ReadScript,
    tx: &mut Vec<u8>,
    hs: &Handshake,
    out: &mut Vec<u8>,
    err: &mut Vec<u8>,
    stdin: &mut ReadScript,
) -> (r: Result<i32, ProtocolError>)
    ensures
        hs@.bytes().len() > MAX_FRAME ==> r == Err::<i32, _>(
            ProtocolError::PayloadTooLarge(hs@.bytes().len() as usize),
        ) && final(tx)@ == old(tx)@ && final(out)@ == old(out)@ && final(err)@ == old(err)@
            && final(rx)@ == old(rx)@ && final(stdin)@ == old(stdin)@,
        hs@.bytes().len() <= MAX_FRAME ==> {
            let p = pump(Seq::empty(), old(rx)@, Seq::empty());
            &&& r == Ok::<_, ProtocolError>(exit_code_of(p.result))
            &&& final(out)@ == old(out)@ + collected(p.calls, false)
            &&& final(err)@ == old(err)@ + collected(p.calls, true)
            &&& final(tx)@ == old(tx)@ + frame_bytes(handshake_frame(hs@)) + stdin_wire(
                old(stdin)@,
            )
            &&& final(rx)@ == p.reads
            &&& final(stdin)@ == stdin_left(old(stdin)@)
        },
{
    match send_handshake(tx, hs) {
        Err(e) => {
            return Err(e);
        },
        Ok(()) => {},
    }
    forward_stdin(stdin, tx);
    let mut sink: ExecOutSink = ExecOutSink::new();
    let mut fr: FrameReader = FrameReader::new();
    let ghost reads = rx@;
    let ghost sink0 = sink;
    let outcome: Result<Outcome, PumpError> = pump_decode(rx, &mut fr, &mut sink);
    proof {
        let made = choose|made: Seq<SinkCall>| #[trigger]
            pumped(Seq::empty(), reads, made, fr@, rx@, outcome) && took(sink0, sink, made);
        assert(sink.calls() =~= made);
        crate::relay::law_accepting_is_unanswered(Seq::empty(), reads, replies_of(made));
    }
    out.append(&mut sink.out.bytes);
    err.append(&mut sink.err.bytes);
    Ok(map_outcome(outcome))
}

// Transfer detection.

/// Whether position `i` of a command line stands between double quotes.
pub open spec fn quoted(s: Seq<char>, i: int) -> bool
    decreases i,
{
    if i <= 0 {
        false
    } else if s[i - 1] == '"' {
        !quoted(s, i - 1)
    } else {
        quoted(s, i - 1)
    }
}

/// Whether position `i` separates tokens: whitespace outside quotes.
pub open spec fn separates(s: Seq<char>, i: int) -> bool {
    is_white(s[i]) && !quoted(s, i)
}

/// Where the run of characters that do not separate, going on at `i`, ends.
pub open spec fn run_end(s: Seq<char>, i: int) -> int
    decreases s.len() - i,
{
    if i < s.len() && !separates(s, i) {
        run_end(s, i + 1)
    } else {
        i
    }
}

/// A text without its double quotes.
pub open spec fn unquoted(s: Seq<char>) -> Seq<char>
    decreases s.len(),
{
    if s.len() == 0 {
        Seq::empty()
    } else if s.last() == '"' {
        unquoted(s.drop_last())
    } else {
        unquoted(s.drop_last()).push(s.last())
    }
}

/// The tokens of a command line from position `i` on: its runs of characters that do not
/// separate, without their quotes.
pub open spec fn tokens_from(s: Seq<char>, i: int) -> Seq<Seq<char>>
    decreases s.len() - i,
    via tokens_decrease
{
    if i >= s.len() {
        Seq::empty()
    } else if separates(s, i) {
        tokens_from(s, i + 1)
    } else {
        seq![unquoted(s.subrange(i, run_end(s, i + 1)))] + tokens_from(s, run_end(s, i + 1))
    }
}

#[via_fn]
proof fn tokens_decrease(s: Seq<char>, i: int) {
    lemma_run_end(s, i + 1);
}

proof fn lemma_run_end(s: Seq<char>, i: int)
    ensures
        run_end(s, i) >= i,
        i <= s.len() ==> run_end(s, i) <= s.len(),
    decreases s.len() - i,
{
    if i < s.len() && !separates(s, i) {
        lemma_run_end(s, i + 1);
    }
}

/// The texts of a list of strings.
pub open spec fn texts(v: Seq<String>) -> Seq<Seq<char>> {
    v.map_values(|t: String| t@)
}

/// Split a command line into tokens, respecting double quotes (so a program path with spaces
/// stays one token). The quotes are stripped; a backslash does not escape one.
pub fn split_command(cmd: &str) -> (tokens: Vec<String>)
    ensures
        texts(tokens@) == tokens_from(cmd@, 0),
{
    let s: Vec<char> = chars_of(cmd);
    let mut tokens: Vec<String> = Vec::new();
    let mut cur: Vec<char> = Vec::new();
    let mut in_quotes: bool = false;
    let mut has_token: bool = false;
    let mut i: usize = 0;
    let ghost mut start: int = 0;
    assert(texts(tokens@) =~= Seq::<Seq<char>>::empty());
    assert(tokens_from(s@, 0) =~= texts(tokens@) + tokens_from(s@, start));
    while i < s.len()
        invariant
            s@ == cmd@,
            i <= s@.len(),
            0 <= start <= i,
            in_quotes == quoted(s@, i as int),
            tokens_from(s@, 0) == texts(tokens@) + tokens_from(s@, start),
            !has_token ==> start == i && cur@ == Seq::<char>::empty(),
            has_token ==> {
                &&& start < i
                &&& !separates(s@, start)
                &&& cur@ == unquoted(s@.subrange(start, i as int))
                &&& run_end(s@, start + 1) == run_end(s@, i as int)
            },
        decreases s@.len() - i,
    {
        let c: char = s[i];
        let ghost tail = s@.subrange(start, i + 1);
        proof {
            assert(tail.drop_last() =~= s@.subrange(start, i as int));
            assert(tail.last() == c);
            assert(s@.subrange(start, start) =~= Seq::<char>::empty());
            assert(unquoted(Seq::<char>::empty()) =~= Seq::<char>::empty());
        }
        if c == '"' {
            in_quotes = !in_quotes;
            has_token = true;
        } else if is_whitespace(c) && !in_quotes {
            if has_token {
                let token: String = string_of(cur.as_slice());
                let ghost before = texts(tokens@);
                tokens.push(token);
                proof {
                    assert(run_end(s@, i as int) == i);
                    assert(texts(tokens@) =~= before.push(token@));
                    assert(tokens_from(s@, start) == seq![token@] + tokens_from(s@, i as int));
                    assert(before + (seq![token@] + tokens_from(s@, i as int)) =~= texts(tokens@)
                        + tokens_from(s@, i as int));
                }
                cur = Vec::new();
                has_token = false;
            }
            proof {
                assert(tokens_from(s@, i as int) == tokens_from(s@, i + 1));
                start = i + 1;
            }
        } else {
            cur.push(c);
            has_token = true;
        }
        i += 1;
    }
    if has_token {
        let token: String = string_of(cur.as_slice());
        let ghost before = texts(tokens@);
        tokens.push(token);
        proof {
            assert(run_end(s@, i as int) == i);
            assert(texts(tokens@) =~= before.push(token@));
            assert(tokens_from(s@, i as int) =~= Seq::<Seq<char>>::empty());
            assert(tokens_from(s@, start) =~= seq![token@]);
            assert(before + seq![token@] =~= texts(tokens@));
        }
    } else {
        assert(texts(tokens@) + Seq::<Seq<char>>::empty() =~= texts(tokens@));
    }
    tokens
}

/// Where the last component of a path that ends at `n` begins.
pub open spec fn base_start(s: Seq<char>, n: int) -> int
    decreases n,
{
    if n <= 0 {
        0
    } else if s[n - 1] == '\\' || s[n - 1] == '/' {
        n
    } else {
        base_start(s, n - 1)
    }
}

/// A text without the given suffix, or as it is where it does not end in it.
pub open spec fn without_suffix(s: Seq<char>, suffix: Seq<char>) -> Seq<char> {
    if s.len() >= suffix.len() && s.skip(s.len() - suffix.len()) == suffix {
        s.take(s.len() - suffix.len())
    } else {
        s
    }
}

/// The lower-case name of a program, without its directories and without `.exe`.
pub open spec fn basename(s: Seq<char>) -> Seq<char> {
    without_suffix(lowered(s.skip(base_start(s, s.len() as int))), ".exe"@)
}

/// The program's lower-case base name without an `.exe` suffix (path separators stripped).
pub fn program_basename(prog: &str) -> (name: String)
    ensures
        name@ == basename(prog@),
{
    let s: Vec<char> = chars_of(prog);
    let mut n: usize = s.len();
    while n > 0 && !(s[n - 1] == '\\' || s[n - 1] == '/')
        invariant
            s@ == prog@,
            n <= s@.len(),
            base_start(s@, s@.len() as int) == base_start(s@, n as int),
        decreases n,
    {
        n -= 1;
    }
    let tail: &[char] = vstd::slice::slice_subrange(s.as_slice(), n, s.len());
    assert(tail@ =~= prog@.skip(n as int));
    let base: Vec<char> = to_lower(tail);
    proof {
        reveal_strlit(".exe");
    }
    if base.len() >= 4 {
        let cut: usize = base.len() - 4;
        let suffix: &[char] = vstd::slice::slice_subrange(base.as_slice(), cut, base.len());
        assert(suffix@ =~= base@.skip(cut as int));
        if is_text(suffix, ".exe") {
            let stem: &[char] = vstd::slice::slice_subrange(base.as_slice(), 0, cut);
            assert(stem@ =~= base@.take(cut as int));
            return string_of(stem);
        }
    }
    string_of(base.as_slice())
}

/// Whether tokens are those of a file transfer: the sftp helper, or `scp` with the protocol's
/// internal `-t` or `-f` directly before the single trailing path.
pub open spec fn is_transfer(tokens: Seq<Seq<char>>) -> bool {
    tokens.len() > 0 && {
        let prog = basename(tokens[0]);
        ||| prog == "sftp-server"@
        ||| prog == "internal-sftp"@
        ||| prog == "scp"@ && tokens.len() >= 2 && (tokens[tokens.len() - 2] == "-t"@
            || tokens[tokens.len() - 2] == "-f"@)
    }
}

/// Whether an EXEC command is an sftp or scp file transfer. Detected by the subsystem helper or
/// by the position of the protocol's internal flags, which nobody types, so that an `scp` to a
/// third host is not taken for one.
pub fn is_transfer_command(cmd: &str) -> (b: bool)
    ensures
        b == is_transfer(tokens_from(cmd@, 0)),
{
    let tokens: Vec<String> = split_command(cmd);
    let ghost all = texts(tokens@);
    if tokens.len() == 0 {
        return false;
    }
    assert(all[0] == tokens@[0]@);
    let prog: String = program_basename(tokens[0].as_str());
    if is_string(prog.as_str(), "sftp-server") || is_string(prog.as_str(), "internal-sftp") {
        return true;
    }
    proof {
        reveal_strlit("scp");
        reveal_strlit("sftp-server");
        reveal_strlit("internal-sftp");
    }
    if is_string(prog.as_str(), "scp") && tokens.len() >= 2 {
        let n: usize = tokens.len() - 2;
        assert(all[all.len() - 2] == tokens@[n as int]@);
        return is_string(tokens[n].as_str(), "-t") || is_string(tokens[n].as_str(), "-f");
    }
    false
}

// PTY relay helpers.

/// The `RESIZE` frame's payload for a console size.
pub fn size_to_resize(cols: u16, rows: u16) -> (r: Resize)
    ensures
        r == (Resize { cols, rows }),
{
    Resize { cols, rows }
}

// Mode selection and fail-open.

/// What the shim should do once it has tried to reach the agent.
#[derive(Debug, Clone, Copy, PartialEq, Eq, Structural)]
pub enum Fallback {
    /// The agent answered: relay this session to it.
    Relay,
    /// The agent is unreachable: run a local shell, so the machine is never locked out, and warn
    /// that parity is unavailable.
    LocalShellWithWarning,
}

/// Decide the shim's action from whether connecting to the agent failed.
pub fn decide_fallback(connect_err: bool) -> (f: Fallback)
    ensures
        connect_err ==> f == Fallback::LocalShellWithWarning,
        !connect_err ==> f == Fallback::Relay,
{
    if connect_err {
        Fallback::LocalShellWithWarning
    } else {
        Fallback::Relay
    }
}

/// What to run locally when the agent is unreachable.
#[derive(Debug, Clone, PartialEq, Eq)]
pub enum FailOpen {
    /// Run the command directly, as it is.
    Passthrough(String),
    /// Run an interactive shell.
    LocalShell,
}

/// What is run locally for a command, or for none.
pub open spec fn fail_open_of(exec: Option<String>) -> FailOpen {
    match exec {
        Some(cmd) => FailOpen::Passthrough(cmd),
        None => FailOpen::LocalShell,
    }
}

/// A command runs directly, byte for byte, because a shell would parse and quote it again; only
/// an interactive session gets a shell.
pub fn decide_fail_open(exec: Option<String>) -> (f: FailOpen)
    ensures
        f == fail_open_of(exec),
{
    match exec {
        Some(cmd) => FailOpen::Passthrough(cmd),
        None => FailOpen::LocalShell,
    }
}

/// Strip the separators around a command. A blank command stays an exec request; a Unicode space
/// is part of an argument and stays.
pub fn normalize_exec(exec: Option<String>) -> (r: Option<String>)
    ensures
        text_of(r) == match exec {
            Some(cmd) => Some(trimmed(cmd@, CharClass::Boundary)),
            None => None,
        },
{
    match exec {
        Some(cmd) => {
            let v: Vec<char> = chars_of(cmd.as_str());
            Some(string_of(trim(v.as_slice(), CharClass::Boundary)))
        },
        None => None,
    }
}

/// The exit code that an outcome comes to.
pub open spec fn exit_code_of(outcome: Result<Outcome, PumpError>) -> i32 {
    match outcome {
        Ok(Outcome::Exited(code)) => code,
        Ok(Outcome::PeerClosed) => 255,
        Err(_) => 254,
    }
}

/// Map the relay outcome to the shim's process exit code. A clean exit propagates the child's
/// code as it is; a peer that closed with no EXIT frame, and a protocol error, have distinct
/// non-zero codes.
pub fn map_outcome(outcome: Result<Outcome, PumpError>) -> (code: i32)
    ensures
        code == exit_code_of(outcome),
{
    match outcome {
        Ok(Outcome::Exited(code)) => code,
        Ok(Outcome::PeerClosed) => 255,
        Err(_) => 254,
    }
}

/// Build the handshake from the shim's inputs. EXEC mode if and only if a command is present;
/// `cwd` and `env` are empty, because the agent supplies the session's own.
pub fn make_handshake(exec: &Option<String>, term: String, cols: u16, rows: u16) -> (h: Handshake)
    ensures
        h@ == (HandshakeView {
            version: PROTOCOL_VERSION,
            mode: if exec is Some {
                Mode::Exec
            } else {
                Mode::Pty
            },
            cols,
            rows,
            term: term@,
            cwd: Seq::empty(),
            command: text_of(*exec),
            env: Seq::empty(),
        }),
{
    let mode: Mode = if exec.is_some() {
        Mode::Exec
    } else {
        Mode::Pty
    };
    let command: Option<String> = match exec {
        Some(cmd) => Some(cmd.clone()),
        None => None,
    };
    let h: Handshake = Handshake {
        version: PROTOCOL_VERSION,
        mode,
        cols,
        rows,
        term,
        cwd: String::new(),
        command,
        env: Vec::new(),
    };
    assert(h@.env =~= Seq::<(Seq<char>, Seq<char>)>::empty());
    h
}

// Laws.

/// Only a command that exited with 0 is reported as 0: a dead agent or a broken stream never
/// looks like success.
pub proof fn law_zero_means_the_command_succeeded(outcome: Result<Outcome, PumpError>)
    ensures
        exit_code_of(outcome) == 0 <==> outcome == Ok::<_, PumpError>(Outcome::Exited(0)),
{
}

/// The chunks that a script of reads hands out before its end.
pub open spec fn stdin_chunks(reads: Seq<ReadView>) -> Seq<Seq<u8>>
    decreases reads.len(),
{
    if reads.len() > 0 && stdin_goes_on(reads[0]) {
        seq![reads[0]->Bytes_0] + stdin_chunks(behind(reads, 1))
    } else {
        Seq::empty()
    }
}

/// Where stdin stops: at its end, at a read error, or at a chunk too long for a frame.
pub open spec fn stdin_stop(reads: Seq<ReadView>) -> ReadView
    decreases reads.len(),
{
    if reads.len() > 0 && stdin_goes_on(reads[0]) {
        stdin_stop(behind(reads, 1))
    } else {
        next_read(reads)
    }
}

/// Chunks of stdin as events.
pub open spec fn stdin_events(chunks: Seq<Seq<u8>>) -> Seq<SinkEvent> {
    chunks.map_values(|c: Seq<u8>| SinkEvent::Data(Stream::Stdin, c))
}

/// What stdin puts on the wire is delivered chunk by chunk, unchanged and in order, and then the
/// empty frame that marks its end, which no chunk can be taken for.
pub proof fn law_stdin_reaches_the_agent(reads: Seq<ReadView>)
    requires
        !(stdin_stop(reads) matches ReadView::Bytes(b) && b.len() >= MAX_FRAME),
    ensures
        ({
            let marker = SinkEvent::Data(Stream::Stdin, Seq::empty());
            let events = stdin_events(stdin_chunks(reads)).push(marker);
            &&& stdin_wire(reads) == events_wire(events)
            &&& crate::relay::drain(stdin_wire(reads), Seq::empty()).calls == accepted(events)
            &&& crate::relay::drain(stdin_wire(reads), Seq::empty()).rest == Seq::<u8>::empty()
            &&& forall|i: int|
                0 <= i < stdin_chunks(reads).len() ==> (#[trigger] stdin_chunks(reads)[i]).len() > 0
        }),
{
    let marker = SinkEvent::Data(Stream::Stdin, Seq::empty());
    let events = stdin_events(stdin_chunks(reads)).push(marker);
    lemma_stdin_wire(reads);
    lemma_stdin_fits(reads);
    assert forall|i: int| 0 <= i < events.len() implies crate::relay::fits(#[trigger] events[i]) by {
        if i < stdin_chunks(reads).len() {
            assert(stdin_chunks(reads)[i].len() < MAX_FRAME);
        }
    }
    law_written_events_are_delivered(events, Seq::empty());
    assert(events_wire(events) + Seq::<u8>::empty() =~= events_wire(events));
    assert(accepted(events) + Seq::<SinkCall>::empty() =~= accepted(events));
}

proof fn lemma_stdin_wire(reads: Seq<ReadView>)
    requires
        !(stdin_stop(reads) matches ReadView::Bytes(b) && b.len() >= MAX_FRAME),
    ensures
        stdin_wire(reads) == events_wire(
            stdin_events(stdin_chunks(reads)).push(SinkEvent::Data(Stream::Stdin, Seq::empty())),
        ),
    decreases reads.len(),
{
    let marker = SinkEvent::Data(Stream::Stdin, Seq::empty());
    let events = stdin_events(stdin_chunks(reads)).push(marker);
    if reads.len() > 0 && stdin_goes_on(reads[0]) {
        let rest = behind(reads, 1);
        lemma_stdin_wire(rest);
        assert(events.skip(1) =~= stdin_events(stdin_chunks(rest)).push(marker));
    } else {
        assert(events =~= seq![marker]);
        assert(events.skip(1) =~= Seq::<SinkEvent>::empty());
        assert(events_wire(events.skip(1)) =~= Seq::<u8>::empty());
        assert(events_wire(events) =~= frame_bytes(event_frame(marker)));
        if let ReadView::Bytes(b) = next_read(reads) {
            assert(b =~= Seq::<u8>::empty());
        }
    }
}

proof fn lemma_stdin_fits(reads: Seq<ReadView>)
    ensures
        forall|i: int|
            0 <= i < stdin_chunks(reads).len() ==> 0 < (#[trigger] stdin_chunks(reads)[i]).len()
                < MAX_FRAME,
    decreases reads.len(),
{
    if reads.len() > 0 && stdin_goes_on(reads[0]) {
        lemma_stdin_fits(behind(reads, 1));
        assert forall|i: int| 0 <= i < stdin_chunks(reads).len() implies 0 < (
        #[trigger] stdin_chunks(reads)[i]).len() < MAX_FRAME by {
            if i > 0 {
                assert(stdin_chunks(reads)[i] == stdin_chunks(behind(reads, 1))[i - 1]);
            }
        }
    }
}

/// What the shim puts on the wire is what the agent takes off it: the handshake as the first
/// frame, and behind it stdin, chunk by chunk and unchanged, with the marker of its end.
pub proof fn law_exec_session_reaches_the_agent(h: HandshakeView, reads: Seq<ReadView>)
    requires
        h.bytes().len() <= MAX_FRAME,
        !(stdin_stop(reads) matches ReadView::Bytes(b) && b.len() >= MAX_FRAME),
    ensures
        ({
            let sent = frame_bytes(handshake_frame(h)) + stdin_wire(reads);
            let one = crate::protocol::read_one(Seq::empty(), seq![ReadView::Bytes(sent)]);
            let marker = SinkEvent::Data(Stream::Stdin, Seq::empty());
            let d = crate::relay::drain(one.rest, Seq::empty());
            &&& one.result == Ok::<_, ProtocolError>(handshake_frame(h))
            &&& d.calls == accepted(stdin_events(stdin_chunks(reads)).push(marker))
            &&& d.rest == Seq::<u8>::empty()
        }),
{
    let sent = frame_bytes(handshake_frame(h)) + stdin_wire(reads);
    let none = Seq::<ReadView>::empty();
    crate::protocol::law_pipelined_bytes_are_kept(handshake_frame(h), stdin_wire(reads), none);
    assert(seq![ReadView::Bytes(sent)] + none =~= seq![ReadView::Bytes(sent)]);
    law_stdin_reaches_the_agent(reads);
}

/// The bytes that events carry on a stream, one behind the other.
pub open spec fn stream_bytes(es: Seq<SinkEvent>, stream: Stream) -> Seq<u8>
    decreases es.len(),
{
    if es.len() == 0 {
        Seq::empty()
    } else {
        let before = stream_bytes(es.drop_last(), stream);
        match es.last() {
            SinkEvent::Data(s, b) if s == stream => before + b,
            _ => before,
        }
    }
}

/// The output of a command reaches the client byte for byte, stdout and stderr apart, however
/// the two are mixed on the wire, and so does the command's code.
pub proof fn law_output_reaches_the_client(es: Seq<SinkEvent>, code: i32)
    requires
        forall|i: int|
            0 <= i < es.len() ==> ((#[trigger] es[i]) matches SinkEvent::Data(s, b) && b.len()
                < MAX_FRAME && (s == Stream::Stdout || s == Stream::Stderr)),
    ensures
        ({
            let exit = FrameView {
                kind: FrameKind::Exit,
                payload: crate::protocol::ExitCode(code).bytes(),
            };
            let p = pump(
                Seq::empty(),
                seq![ReadView::Bytes(events_wire(es) + frame_bytes(exit))],
                Seq::empty(),
            );
            &&& collected(p.calls, false) == stream_bytes(es, Stream::Stdout)
            &&& collected(p.calls, true) == stream_bytes(es, Stream::Stderr)
            &&& exit_code_of(p.result) == code
        }),
{
    crate::relay::law_session_comes_through(es, Some(code));
    lemma_collected(es);
}

proof fn lemma_collected(es: Seq<SinkEvent>)
    requires
        forall|i: int|
            0 <= i < es.len() ==> ((#[trigger] es[i]) matches SinkEvent::Data(s, b) && (s
                == Stream::Stdout || s == Stream::Stderr)),
    ensures
        collected(accepted(es), false) == stream_bytes(es, Stream::Stdout),
        collected(accepted(es), true) == stream_bytes(es, Stream::Stderr),
    decreases es.len(),
{
    if es.len() > 0 {
        lemma_collected(es.drop_last());
        assert(accepted(es).drop_last() =~= accepted(es.drop_last()));
        assert(accepted(es).last().event == es[es.len() - 1]);
    }
}

/// A client that is gone ends the session: where one of its streams refuses the agent's output,
/// nothing more is written and the code is 254.
pub proof fn law_lost_client_is_reported(
    es: Seq<SinkEvent>,
    k: int,
    e: SinkError,
    tail: Seq<u8>,
    reads: Seq<ReadView>,
)
    requires
        0 <= k < es.len(),
        forall|i: int| 0 <= i <= k ==> crate::relay::fits(#[trigger] es[i]),
    ensures
        ({
            let p = pump(
                Seq::empty(),
                seq![ReadView::Bytes(events_wire(es) + tail)] + reads,
                crate::relay::refusing(k as nat, e),
            );
            &&& p.calls == accepted(es.take(k)).push(SinkCall { event: es[k], reply: Err(e) })
            &&& exit_code_of(p.result) == 254
        }),
{
    crate::relay::law_refusal_ends_the_pump(es, k, e, tail, reads);
}

/// A whole EXEC session as the shim reports it: the command's code where the agent sent it, 255
/// where the agent died first, and 254 where the stream was cut inside a frame.
pub proof fn law_session_codes(es: Seq<SinkEvent>, code: i32, f: FrameView, n: int)
    requires
        forall|i: int| 0 <= i < es.len() ==> crate::relay::fits(#[trigger] es[i]),
        f.payload.len() <= MAX_FRAME,
        0 < n < frame_bytes(f).len(),
    ensures
        ({
            let exit = frame_bytes(
                FrameView {
                    kind: FrameKind::Exit,
                    payload: crate::protocol::ExitCode(code).bytes(),
                },
            );
            let all = events_wire(es);
            let none = Seq::<Result<(), SinkError>>::empty();
            let start = Seq::<u8>::empty();
            &&& exit_code_of(pump(start, seq![ReadView::Bytes(all + exit)], none).result) == code
            &&& exit_code_of(pump(start, seq![ReadView::Bytes(all)], none).result) == 255
            &&& exit_code_of(
                pump(start, seq![ReadView::Bytes(all + frame_bytes(f).take(n))], none).result,
            ) == 254
        }),
{
    crate::relay::law_session_comes_through(es, Some(code));
    crate::relay::law_session_comes_through(es, None);
    assert(events_wire(es) + Seq::<u8>::empty() =~= events_wire(es));
    crate::relay::law_cut_stream_is_a_protocol_error(es, f, n);
}

proof fn lemma_quoted_shift(p: Seq<char>, s: Seq<char>, i: int)
    requires
        0 <= i <= s.len(),
        !quoted(p, p.len() as int),
    ensures
        quoted(p + s, p.len() + i) == quoted(s, i),
    decreases i,
{
    if i > 0 {
        lemma_quoted_shift(p, s, i - 1);
        assert((p + s)[p.len() + i - 1] == s[i - 1]);
    } else {
        lemma_quoted_front(p, s, p.len() as int);
    }
}

proof fn lemma_quoted_front(p: Seq<char>, s: Seq<char>, i: int)
    requires
        0 <= i <= p.len(),
    ensures
        quoted(p + s, i) == quoted(p, i),
    decreases i,
{
    if i > 0 {
        lemma_quoted_front(p, s, i - 1);
        assert((p + s)[i - 1] == p[i - 1]);
    }
}

proof fn lemma_run_end_shift(p: Seq<char>, s: Seq<char>, i: int)
    requires
        0 <= i <= s.len(),
        !quoted(p, p.len() as int),
    ensures
        run_end(p + s, p.len() + i) == p.len() + run_end(s, i),
    decreases s.len() - i,
{
    if i < s.len() {
        lemma_quoted_shift(p, s, i);
        assert((p + s)[p.len() + i] == s[i]);
        if !separates(s, i) {
            lemma_run_end_shift(p, s, i + 1);
        }
    }
}

/// What stands behind closed quotes is split as if it stood alone.
proof fn lemma_tokens_shift(p: Seq<char>, s: Seq<char>, i: int)
    requires
        0 <= i <= s.len(),
        !quoted(p, p.len() as int),
    ensures
        tokens_from(p + s, p.len() + i) == tokens_from(s, i),
    decreases s.len() - i,
{
    if i < s.len() {
        lemma_quoted_shift(p, s, i);
        assert((p + s)[p.len() + i] == s[i]);
        if separates(s, i) {
            lemma_tokens_shift(p, s, i + 1);
        } else {
            lemma_run_end(s, i + 1);
            lemma_run_end_shift(p, s, i + 1);
            let end = run_end(s, i + 1);
            lemma_tokens_shift(p, s, end);
            assert((p + s).subrange(p.len() + i, p.len() + end) =~= s.subrange(i, end));
        }
    }
}

/// Text without a double quote.
pub open spec fn quoteless(s: Seq<char>) -> bool {
    forall|i: int| 0 <= i < s.len() ==> (#[trigger] s[i]) != '"'
}

proof fn lemma_quoteless(s: Seq<char>)
    requires
        quoteless(s),
    ensures
        unquoted(s) == s,
    decreases s.len(),
{
    if s.len() > 0 {
        assert(quoteless(s.drop_last())) by {
            assert forall|i: int| 0 <= i < s.drop_last().len() implies (#[trigger] s.drop_last()[i])
                != '"' by {
                assert(s[i] != '"');
            }
        }
        lemma_quoteless(s.drop_last());
        assert(s.last() != '"');
        assert(s.drop_last().push(s.last()) =~= s);
    } else {
        assert(unquoted(s) =~= s);
    }
}

proof fn lemma_unquoted_join(a: Seq<char>, b: Seq<char>)
    ensures
        unquoted(a + b) == unquoted(a) + unquoted(b),
    decreases b.len(),
{
    if b.len() == 0 {
        assert(a + b =~= a);
        assert(unquoted(a) + Seq::<char>::empty() =~= unquoted(a));
    } else {
        assert((a + b).drop_last() =~= a + b.drop_last());
        lemma_unquoted_join(a, b.drop_last());
        if b.last() != '"' {
            assert((unquoted(a) + unquoted(b.drop_last())).push(b.last()) =~= unquoted(a)
                + unquoted(b));
        }
    }
}

/// A quoted text in front of a space is the first token, spaces and all.
pub proof fn law_quoted_text_is_one_token(t: Seq<char>, rest: Seq<char>)
    requires
        quoteless(t),
    ensures
        tokens_from(seq!['"'] + t + seq!['"', ' '] + rest, 0) == seq![t] + tokens_from(rest, 0),
        tokens_from(seq!['"'] + t + seq!['"'], 0) == seq![t],
{
    let q = seq!['"'] + t + seq!['"'];
    let front = q + seq![' '];
    let s = front + rest;
    assert(s =~= seq!['"'] + t + seq!['"', ' '] + rest);
    lemma_quoted_text(t, seq![' '] + rest);
    assert(q + (seq![' '] + rest) =~= s);
    let n = q.len() as int;
    assert(s[n] == ' ');
    assert(separates(s, n));
    assert(run_end(s, n) == n);
    lemma_run_to(s, 1, n);
    assert(s.subrange(0, n) =~= q);
    lemma_quoted_unquotes(t);
    assert(!separates(s, 0));
    assert(tokens_from(s, 0) == seq![t] + tokens_from(s, n));
    assert(tokens_from(s, n) == tokens_from(s, n + 1));
    lemma_quoted_text(t, seq![' ']);
    assert(quoted(front, n) == false) by {
        assert(q + seq![' '] =~= front);
    }
    assert(front[n] == ' ');
    assert(!quoted(front, n + 1));
    lemma_tokens_shift(front, rest, 0);
    // And where nothing follows.
    lemma_quoted_text(t, Seq::empty());
    assert(q + Seq::<char>::empty() =~= q);
    assert(run_end(q, n) == n);
    lemma_run_to(q, 1, n);
    assert(q.subrange(0, n) =~= q);
    assert(!separates(q, 0));
    assert(tokens_from(q, n) =~= Seq::<Seq<char>>::empty());
    assert(seq![t] + Seq::<Seq<char>>::empty() =~= seq![t]);
}

proof fn lemma_quoted_unquotes(t: Seq<char>)
    requires
        quoteless(t),
    ensures
        unquoted(seq!['"'] + t + seq!['"']) == t,
{
    let one = seq!['"'];
    lemma_unquoted_join(one + t, one);
    lemma_unquoted_join(one, t);
    lemma_quoteless(t);
    assert(one.drop_last() =~= Seq::<char>::empty());
    assert(unquoted(Seq::<char>::empty()) =~= Seq::<char>::empty());
    assert(unquoted(one) =~= Seq::<char>::empty());
    assert(Seq::<char>::empty() + t =~= t);
    assert(t + Seq::<char>::empty() =~= t);
}

/// Inside the quotes everything is quoted, and behind them nothing is.
proof fn lemma_quoted_text(t: Seq<char>, rest: Seq<char>)
    requires
        quoteless(t),
    ensures
        ({
            let s = seq!['"'] + t + seq!['"'] + rest;
            &&& forall|i: int| 1 <= i <= t.len() + 1 ==> #[trigger] quoted(s, i)
            &&& !quoted(s, t.len() as int + 2)
            &&& forall|i: int| 1 <= i < t.len() + 2 ==> !#[trigger] separates(s, i)
        }),
{
    let s = seq!['"'] + t + seq!['"'] + rest;
    assert forall|i: int| 1 <= i <= t.len() + 1 implies #[trigger] quoted(s, i) by {
        lemma_quoted_inside(t, rest, i);
    }
    assert(s[t.len() as int + 1] == '"');
    assert(quoted(s, t.len() as int + 1));
    assert forall|i: int| 1 <= i < t.len() + 2 implies !#[trigger] separates(s, i) by {
        assert(quoted(s, i));
    }
}

proof fn lemma_quoted_inside(t: Seq<char>, rest: Seq<char>, i: int)
    requires
        quoteless(t),
        1 <= i <= t.len() + 1,
    ensures
        quoted(seq!['"'] + t + seq!['"'] + rest, i),
    decreases i,
{
    let s = seq!['"'] + t + seq!['"'] + rest;
    if i == 1 {
        assert(s[0] == '"');
        assert(!quoted(s, 0));
    } else {
        lemma_quoted_inside(t, rest, i - 1);
        assert(s[i - 1] == t[i - 2]);
        assert(t[i - 2] != '"');
    }
}

proof fn lemma_run_to(s: Seq<char>, i: int, n: int)
    requires
        0 <= i <= n <= s.len(),
        forall|j: int| i <= j < n ==> !#[trigger] separates(s, j),
    ensures
        run_end(s, i) == run_end(s, n),
    decreases n - i,
{
    if i < n {
        assert(!separates(s, i));
        lemma_run_to(s, i + 1, n);
    }
}

/// A plain word in front of a space is the first token.
pub proof fn law_plain_word_is_one_token(w: Seq<char>, rest: Seq<char>)
    requires
        w.len() > 0,
        quoteless(w),
        forall|i: int| 0 <= i < w.len() ==> !is_white(#[trigger] w[i]),
    ensures
        tokens_from(w + seq![' '] + rest, 0) == seq![w] + tokens_from(rest, 0),
{
    let front = w + seq![' '];
    let s = front + rest;
    let n = w.len() as int;
    assert forall|j: int| 0 <= j < n implies !#[trigger] separates(s, j) by {
        assert(s[j] == w[j]);
        assert(!is_white(w[j]));
    }
    lemma_unquoted_front(w, seq![' '] + rest, n);
    assert(s =~= w + (seq![' '] + rest));
    assert(s[n] == ' ');
    assert(separates(s, n));
    assert(run_end(s, n) == n);
    lemma_run_to(s, 1, n);
    assert(s.subrange(0, n) =~= w);
    lemma_quoteless(w);
    assert(!separates(s, 0));
    assert(tokens_from(s, n) == tokens_from(s, n + 1));
    lemma_unquoted_front(w, seq![' '], n);
    assert(front =~= w + seq![' ']);
    assert(front[n] == ' ');
    assert(!quoted(front, n + 1));
    lemma_tokens_shift(front, rest, 0);
}

proof fn lemma_unquoted_front(w: Seq<char>, rest: Seq<char>, i: int)
    requires
        quoteless(w),
        0 <= i <= w.len(),
    ensures
        !quoted(w + rest, i),
    decreases i,
{
    if i > 0 {
        lemma_unquoted_front(w, rest, i - 1);
        assert((w + rest)[i - 1] == w[i - 1]);
        assert(w[i - 1] != '"');
    }
}

/// A program is told by its own name: the directories in front of it do not count, whichever way
/// their separators lean, nor does the case of its letters, nor an `.exe` behind it.
pub proof fn law_program_name_is_bare(dir: Seq<char>, sep: char, name: Seq<char>)
    requires
        sep == '\\' || sep == '/',
    ensures
        basename(dir + seq![sep] + name) == basename(name),
        basename(lowered(name)) == basename(name),
        (forall|i: int| 0 <= i < name.len() ==> (#[trigger] name[i]) != '\\' && name[i] != '/')
            ==> basename(name + seq!['.', 'e', 'x', 'e']) == lowered(name),
{
    let s = dir + seq![sep] + name;
    let n = dir.len() as int + 1;
    lemma_base_start(dir + seq![sep], name, name.len() as int);
    assert(s.skip(n + base_start(name, name.len() as int)) =~= name.skip(
        base_start(name, name.len() as int),
    ));
    let low = lowered(name);
    lemma_base_start_lowered(name, name.len() as int);
    let b = base_start(name, name.len() as int);
    crate::text::law_lower_case(name.skip(b), 'a');
    assert(lowered(low.skip(b)) =~= lowered(lowered(name.skip(b))));
    if forall|i: int| 0 <= i < name.len() ==> (#[trigger] name[i]) != '\\' && name[i] != '/' {
        let full = name + seq!['.', 'e', 'x', 'e'];
        reveal_strlit(".exe");
        assert forall|i: int| 0 <= i < full.len() implies (#[trigger] full[i]) != '\\' && full[i]
            != '/' by {
            if i < name.len() {
                assert(full[i] == name[i]);
            }
        }
        lemma_no_separator(full, full.len() as int);
        assert(full.skip(0) =~= full);
        let l = lowered(full);
        assert(l.skip(l.len() - 4) =~= ".exe"@);
        assert(l.take(l.len() - 4) =~= lowered(name));
    }
}

proof fn lemma_base_start(front: Seq<char>, name: Seq<char>, n: int)
    requires
        front.len() > 0,
        front.last() == '\\' || front.last() == '/',
        0 <= n <= name.len(),
    ensures
        base_start(front + name, front.len() + n) == front.len() + base_start(name, n),
        0 <= base_start(name, n) <= n,
    decreases n,
{
    let s = front + name;
    if n > 0 {
        assert(s[front.len() + n - 1] == name[n - 1]);
        lemma_base_start(front, name, n - 1);
    } else {
        assert(s[front.len() - 1] == front.last());
    }
}

proof fn lemma_base_start_lowered(name: Seq<char>, n: int)
    requires
        0 <= n <= name.len(),
    ensures
        base_start(lowered(name), n) == base_start(name, n),
        0 <= base_start(name, n) <= n,
    decreases n,
{
    if n > 0 {
        assert(lowered(name)[n - 1] == crate::text::lower(name[n - 1]));
        lemma_base_start_lowered(name, n - 1);
    }
}

proof fn lemma_no_separator(s: Seq<char>, n: int)
    requires
        0 <= n <= s.len(),
        forall|i: int| 0 <= i < s.len() ==> (#[trigger] s[i]) != '\\' && s[i] != '/',
    ensures
        base_start(s, n) == 0,
    decreases n,
{
    if n > 0 {
        assert(s[n - 1] != '\\');
        lemma_no_separator(s, n - 1);
    }
}

/// An `scp` is a transfer exactly if the flag that the protocol itself uses stands directly in
/// front of its last argument, whatever options come before; the helpers of sftp always are one,
/// whatever their arguments; nothing else is.
pub proof fn law_transfers_are_told_by_shape(
    prog: Seq<char>,
    options: Seq<Seq<char>>,
    flag: Seq<char>,
    path: Seq<char>,
)
    ensures
        basename(prog) == seq!['s', 'c', 'p'] ==> (is_transfer(seq![prog] + options + seq![flag, path])
            <==> (flag == seq!['-', 't'] || flag == seq!['-', 'f'])),
        basename(prog) == seq!['s', 'c', 'p'] ==> !is_transfer(seq![prog]),
        basename(prog) == "sftp-server"@ || basename(prog) == "internal-sftp"@ ==> is_transfer(
            seq![prog] + options,
        ),
        basename(prog) != seq!['s', 'c', 'p'] && basename(prog) != "sftp-server"@ && basename(prog)
            != "internal-sftp"@ ==> !is_transfer(seq![prog] + options),
        !is_transfer(Seq::empty()),
{
    reveal_strlit("scp");
    reveal_strlit("-t");
    reveal_strlit("-f");
    reveal_strlit("sftp-server");
    reveal_strlit("internal-sftp");
    assert("scp"@ =~= seq!['s', 'c', 'p']);
    assert("-t"@ =~= seq!['-', 't']);
    assert("-f"@ =~= seq!['-', 'f']);
    assert("scp"@.len() == 3 && "sftp-server"@.len() == 11 && "internal-sftp"@.len() == 13);
    let t = seq![prog] + options + seq![flag, path];
    assert(t[0] == prog);
    assert(t[t.len() - 2] == flag);
    assert((seq![prog] + options)[0] == prog);
}

/// A session without a command runs the plain shell when it fails open, and a command never does.
pub proof fn law_fail_open_by_kind(exec: Option<String>)
    ensures
        exec is None ==> fail_open_of(exec) == FailOpen::LocalShell,
        exec is Some ==> fail_open_of(exec) == FailOpen::Passthrough(exec->0),
{
}

/// What the shim asks the agent for: a terminal of the console's size exactly where there is no
/// command, and otherwise that very command; in the agent's own directory and environment, in this
/// version of the protocol.
pub proof fn law_handshake_is_what_was_given(
    exec: &Option<String>,
    term: String,
    cols: u16,
    rows: u16,
    h: Handshake,
)
    requires
        call_ensures(make_handshake, (exec, term, cols, rows), h),
    ensures
        h.mode == Mode::Pty <==> exec is None,
        text_of(h.command) == text_of(*exec),
        h.cols == cols,
        h.rows == rows,
        h.term@ == term@,
        h.cwd@.len() == 0,
        h.env@.len() == 0,
        h.version == 1,
{
    assert(h@.env.len() == h.env@.len());
}

/// Stripping a command keeps it a command: only the four separators go, and only from its ends.
pub proof fn law_stripped_command_is_kept(
    exec: Option<String>,
    r: Option<String>,
    front: Seq<char>,
    cmd: Seq<char>,
    back: Seq<char>,
)
    requires
        call_ensures(normalize_exec, (exec,), r),
        exec is Some ==> exec->0@ == front + cmd + back,
        crate::text::made_of(front, CharClass::Boundary),
        crate::text::made_of(back, CharClass::Boundary),
        cmd.len() == 0 || !CharClass::Boundary.has(cmd[0]) && !CharClass::Boundary.has(cmd.last()),
    ensures
        r is Some <==> exec is Some,
        exec is Some ==> r->0@ == cmd,
{
    crate::text::law_trimming_takes_only_the_ends(front, cmd, back, CharClass::Boundary);
}

/// The code that the shim ends with: the command's own where it exited, and otherwise one that is
/// never 0 and tells a dead agent from a broken stream.
pub proof fn law_codes_are_told_apart(outcome: Result<Outcome, PumpError>, code: i32)
    requires
        call_ensures(map_outcome, (outcome,), code),
    ensures
        outcome matches Ok(Outcome::Exited(c)) ==> code == c,
        outcome == Ok::<_, PumpError>(Outcome::PeerClosed) ==> code == 255,
        outcome is Err ==> code == 254,
{
}

/// Stdin is forwarded whole: each piece that was read as one frame, unchanged and in order, and
/// then the one empty frame that marks its end, whether it ended or failed. Nothing behind that is
/// read.
pub proof fn law_stdin_is_sent_whole(chunks: Seq<Seq<u8>>, stop: ReadView, rest: Seq<ReadView>)
    requires
        forall|i: int| 0 <= i < chunks.len() ==> 0 < (#[trigger] chunks[i]).len() < 1_048_576,
        stop matches ReadView::Bytes(b) ==> b.len() == 0,
    ensures
        ({
            let reads = chunks.map_values(|c: Seq<u8>| ReadView::Bytes(c)) + seq![stop] + rest;
            let events = chunks.map_values(|c: Seq<u8>| SinkEvent::Data(Stream::Stdin, c)).push(
                SinkEvent::Data(Stream::Stdin, Seq::empty()),
            );
            stdin_wire(reads) == events_wire(events) && stdin_left(reads) == rest
        }),
    decreases chunks.len(),
{
    let reads = chunks.map_values(|c: Seq<u8>| ReadView::Bytes(c)) + seq![stop] + rest;
    let marker = SinkEvent::Data(Stream::Stdin, Seq::<u8>::empty());
    let events = chunks.map_values(|c: Seq<u8>| SinkEvent::Data(Stream::Stdin, c)).push(marker);
    if chunks.len() == 0 {
        assert(reads[0] == stop);
        assert(behind(reads, 1) =~= rest);
        assert(events =~= seq![marker]);
        assert(events.skip(1) =~= Seq::<SinkEvent>::empty());
        assert(events_wire(events.skip(1)) =~= Seq::<u8>::empty());
        if let ReadView::Bytes(b) = stop {
            assert(b =~= Seq::<u8>::empty());
        }
        assert(stdin_event_wire(stop) =~= events_wire(events));
    } else {
        let fewer = chunks.skip(1);
        assert forall|i: int| 0 <= i < fewer.len() implies 0 < (#[trigger] fewer[i]).len()
            < 1_048_576 by {
            assert(fewer[i] == chunks[i + 1]);
        }
        law_stdin_is_sent_whole(fewer, stop, rest);
        assert(0 < chunks[0].len() < 1_048_576);
        assert(reads[0] == ReadView::Bytes(chunks[0]));
        assert(behind(reads, 1) =~= fewer.map_values(|c: Seq<u8>| ReadView::Bytes(c)) + seq![stop]
            + rest);
        assert(events.skip(1) =~= fewer.map_values(
            |c: Seq<u8>| SinkEvent::Data(Stream::Stdin, c),
        ).push(marker));
        assert(events[0] == SinkEvent::Data(Stream::Stdin, chunks[0]));
    }
}

/// Space in front of a command, and more of it between its tokens, changes nothing.
pub proof fn law_space_is_skipped(s: Seq<char>)
    ensures
        tokens_from(seq![' '] + s, 0) == tokens_from(s, 0),
        tokens_from(Seq::empty(), 0) == Seq::<Seq<char>>::empty(),
{
    let front = seq![' '];
    let t = front + s;
    assert(t[0] == ' ');
    assert(!quoted(t, 0));
    assert(!quoted(front, 0));
    assert(!quoted(front, 1));
    lemma_tokens_shift(front, s, 0);
}

} // verus!
