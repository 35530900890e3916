//! relay: frame pumping (encode, decode, dispatch), independent of the transport.

use vstd::prelude::*;
use crate::protocol::{
    ExitCode, Frame, FrameKind, FrameReader, FrameView, MAX_FRAME, ProtocolError, ReadEvent,
    ReadScript, ReadView, Resize, Stream, TransportError, exit_of, first_frame, frame_bytes,
    resize_of, stream_of, write_frame, law_cut_frame_is_incomplete,
    law_later_bytes_keep_the_first_frame,
    law_exit_round_trip, law_resize_round_trip, law_written_frame_comes_first,
};

verus! {

/// Result of a decode pump. `Exited(n)`: a clean `EXIT(n)` frame was received. `PeerClosed`:
/// the stream ended with no exit frame (a dead or abruptly closed peer). The two never meet, so
/// a dead agent cannot look like a successful command.
#[derive(Debug, Clone, Copy, PartialEq, Eq, Structural)]
pub enum Outcome {
    Exited(i32),
    PeerClosed,
}

/// Why a sink could not take a frame.
#[derive(Debug, Clone, PartialEq, Eq)]
pub struct SinkError(pub String);

/// Why a decode pump stopped without a clean end of stream.
///
/// The pump sits between a transport and a sink and is the only code that knows which of them
/// failed. The variants report what happened; what to do about it is the caller's decision. The
/// distinction that matters is whether the far end is still reachable: see
/// [`PumpError::peer_gone`].
#[derive(Debug, Clone, PartialEq, Eq)]
pub enum PumpError {
    /// Reading the transport failed for a reason that does not clear by itself.
    Transport(TransportError),
    /// The bytes did not form valid frames.
    Protocol(ProtocolError),
    /// The local sink failed. Says nothing about the peer, which is often still there.
    Sink(SinkError),
}

impl PumpError {
    /// Whether the far end is unreachable. A sink failure is local; the other two mean that the
    /// peer is gone.
    pub fn peer_gone(&self) -> (b: bool)
        ensures
            b == !(*self is Sink),
    {
        match self {
            PumpError::Sink(_) => false,
            _ => true,
        }
    }

    /// The text of the error.
    pub open spec fn text(self) -> Seq<char> {
        match self {
            PumpError::Transport(e) => "transport read failed: "@ + e.0@,
            PumpError::Protocol(e) => "protocol error: "@ + e.text(),
            PumpError::Sink(e) => "sink failed: "@ + e.0@,
        }
    }

    pub fn message(&self) -> (s: String)
        ensures
            s@ == self.text(),
    {
        match self {
            PumpError::Transport(e) => "transport read failed: ".to_owned().concat(e.0.as_str()),
            PumpError::Protocol(e) => "protocol error: ".to_owned().concat(e.message().as_str()),
            PumpError::Sink(e) => "sink failed: ".to_owned().concat(e.0.as_str()),
        }
    }
}

/// What is delivered to a sink.
pub ghost enum SinkEvent {
    Data(Stream, Seq<u8>),
    Resize(Resize),
}

/// One call of a sink: what was delivered and what it answered.
pub ghost struct SinkCall {
    pub event: SinkEvent,
    pub reply: Result<(), SinkError>,
}

/// Where decoded DATA and RESIZE frames are delivered. What a sink answers is its own affair. The
/// model of one that keeps a record is the calls that were made on it.
pub trait FrameSink {
    /// Whether the sink keeps a record of the calls. One that does not owes nothing.
    open spec fn records(&self) -> bool {
        false
    }

    /// The calls that were made so far, if it keeps a record.
    open spec fn calls(&self) -> Seq<SinkCall> {
        Seq::empty()
    }

    /// What holds of the sink between calls.
    open spec fn wf(&self) -> bool {
        true
    }

    fn on_data(&mut self, stream: Stream, bytes: &[u8]) -> (r: Result<(), SinkError>)
        requires
            old(self).wf(),
        ensures
            final(self).wf(),
            final(self).records() == old(self).records(),
            old(self).records() ==> final(self).calls() == old(self).calls().push(
                SinkCall { event: SinkEvent::Data(stream, bytes@), reply: r },
            ),
    ;

    fn on_resize(&mut self, size: Resize) -> (r: Result<(), SinkError>)
        requires
            old(self).wf(),
        ensures
            final(self).wf(),
            final(self).records() == old(self).records(),
            old(self).records() ==> final(self).calls() == old(self).calls().push(
                SinkCall { event: SinkEvent::Resize(size), reply: r },
            ),
    ;
}

/// A sink that accepts and drops everything, so a pump can keep watching a peer to which it can
/// no longer deliver.
pub struct DiscardSink {
    pub made: Ghost<Seq<SinkCall>>,
}

impl DiscardSink {
    pub fn new() -> (r: Self)
        ensures
            r.wf(),
            r.calls() == Seq::<SinkCall>::empty(),
    {
        DiscardSink { made: Ghost(Seq::empty()) }
    }
}

impl FrameSink for DiscardSink {
    open spec fn records(&self) -> bool {
        true
    }

    open spec fn calls(&self) -> Seq<SinkCall> {
        self.made@
    }

    /// It has accepted every call.
    open spec fn wf(&self) -> bool {
        accepting(replies_of(self.calls()))
    }

    fn on_data(&mut self, stream: Stream, bytes: &[u8]) -> (r: Result<(), SinkError>) {
        let r: Result<(), SinkError> = Ok(());
        self.made = Ghost(
            self.made@.push(SinkCall { event: SinkEvent::Data(stream, bytes@), reply: r }),
        );
        assert(replies_of(self.calls()) =~= replies_of(old(self).calls()).push(r));
        r
    }

    fn on_resize(&mut self, size: Resize) -> (r: Result<(), SinkError>) {
        let r: Result<(), SinkError> = Ok(());
        self.made = Ghost(self.made@.push(SinkCall { event: SinkEvent::Resize(size), reply: r }));
        assert(replies_of(self.calls()) =~= replies_of(old(self).calls()).push(r));
        r
    }
}

/// A sink that collects what it is given. `stderr` is kept separate; everything else (PTY,
/// stdout, stdin) goes to `stdout`.
pub struct TestSink {
    pub stdout: Vec<u8>,
    pub stderr: Vec<u8>,
    pub resizes: Vec<Resize>,
    pub made: Ghost<Seq<SinkCall>>,
}

/// The bytes of the DATA events on stderr, or on every other stream.
pub open spec fn collected(calls: Seq<SinkCall>, stderr: bool) -> Seq<u8>
    decreases calls.len(),
{
    if calls.len() == 0 {
        Seq::empty()
    } else {
        let before = collected(calls.drop_last(), stderr);
        match calls.last().event {
            SinkEvent::Data(s, b) => if (s == Stream::Stderr) == stderr {
                before + b
            } else {
                before
            },
            SinkEvent::Resize(_) => before,
        }
    }
}

/// The sizes of the RESIZE events.
pub open spec fn sizes(calls: Seq<SinkCall>) -> Seq<Resize>
    decreases calls.len(),
{
    if calls.len() == 0 {
        Seq::empty()
    } else {
        let before = sizes(calls.drop_last());
        match calls.last().event {
            SinkEvent::Data(_, _) => before,
            SinkEvent::Resize(r) => before.push(r),
        }
    }
}

impl Default for TestSink {
    fn default() -> (r: Self)
        ensures
            r.wf(),
            r.calls() == Seq::<SinkCall>::empty(),
    {
        TestSink {
            stdout: Vec::new(),
            stderr: Vec::new(),
            resizes: Vec::new(),
            made: Ghost(Seq::empty()),
        }
    }
}

impl FrameSink for TestSink {
    open spec fn records(&self) -> bool {
        true
    }

    open spec fn calls(&self) -> Seq<SinkCall> {
        self.made@
    }

    /// It holds exactly what was delivered, and has accepted every call.
    open spec fn wf(&self) -> bool {
        &&& self.stdout@ == collected(self.calls(), false)
        &&& self.stderr@ == collected(self.calls(), true)
        &&& self.resizes@ == sizes(self.calls())
        &&& accepting(replies_of(self.calls()))
    }

    fn on_data(&mut self, stream: Stream, bytes: &[u8]) -> (r: Result<(), SinkError>) {
        let r: Result<(), SinkError> = Ok(());
        let ghost call = SinkCall { event: SinkEvent::Data(stream, bytes@), reply: r };
        match stream {
            Stream::Stderr => self.stderr.extend_from_slice(bytes),
            _ => self.stdout.extend_from_slice(bytes),
        }
        self.made = Ghost(self.made@.push(call));
        assert(replies_of(self.calls()) =~= replies_of(old(self).calls()).push(r));
        assert(self.calls().drop_last() =~= old(self).calls());
        assert(self.stdout@ =~= collected(self.calls(), false));
        assert(self.stderr@ =~= collected(self.calls(), true));
        r
    }

    fn on_resize(&mut self, size: Resize) -> (r: Result<(), SinkError>) {
        let r: Result<(), SinkError> = Ok(());
        self.resizes.push(size);
        self.made = Ghost(self.made@.push(SinkCall { event: SinkEvent::Resize(size), reply: r }));
        assert(replies_of(self.calls()) =~= replies_of(old(self).calls()).push(r));
        assert(self.calls().drop_last() =~= old(self).calls());
        r
    }
}

/// Append a `DATA` frame: `[stream tag: u8][bytes...]`.
pub fn write_data(w: &mut Vec<u8>, stream: Stream, bytes: &[u8]) -> (r: Result<(), ProtocolError>)
    requires
        bytes@.len() < usize::MAX,
    ensures
        bytes@.len() < MAX_FRAME ==> r is Ok && final(w)@ == old(w)@ + frame_bytes(
            event_frame(SinkEvent::Data(stream, bytes@)),
        ),
        bytes@.len() >= MAX_FRAME ==> r == Err::<(), _>(
            ProtocolError::PayloadTooLarge((bytes@.len() + 1) as usize),
        ) && final(w)@ == old(w)@,
{
    let mut payload: Vec<u8> = Vec::with_capacity(1 + bytes.len());
    payload.push(stream.to_u8());
    payload.extend_from_slice(bytes);
    assert(payload@ =~= seq![stream.tag()] + bytes@);
    write_frame(w, FrameKind::Data, payload.as_slice())
}

/// The frame that carries an event.
pub open spec fn event_frame(e: SinkEvent) -> FrameView {
    match e {
        SinkEvent::Data(stream, bytes) => FrameView {
            kind: FrameKind::Data,
            payload: seq![stream.tag()] + bytes,
        },
        SinkEvent::Resize(size) => FrameView { kind: FrameKind::Resize, payload: size.bytes() },
    }
}

/// What a decoded frame asks for.
pub ghost enum FrameAction {
    Deliver(SinkEvent),
    Finish(i32),
    Reject(ProtocolError),
}

pub open spec fn frame_action(f: FrameView) -> FrameAction {
    match f.kind {
        FrameKind::Data => if f.payload.len() == 0 {
            FrameAction::Reject(ProtocolError::MissingStreamTag)
        } else {
            match stream_of(f.payload[0]) {
                None => FrameAction::Reject(ProtocolError::BadStreamTag(f.payload[0])),
                Some(s) => FrameAction::Deliver(SinkEvent::Data(s, f.payload.skip(1))),
            }
        },
        FrameKind::Resize => match resize_of(f.payload) {
            Err(e) => FrameAction::Reject(e),
            Ok(size) => FrameAction::Deliver(SinkEvent::Resize(size)),
        },
        FrameKind::Exit => match exit_of(f.payload) {
            Err(e) => FrameAction::Reject(e),
            Ok(code) => FrameAction::Finish(code.0),
        },
        FrameKind::Handshake => FrameAction::Reject(ProtocolError::UnexpectedHandshake),
    }
}

/// What stands behind the first `n` elements.
pub open spec fn behind<A>(s: Seq<A>, n: nat) -> Seq<A> {
    if n < s.len() {
        s.skip(n as int)
    } else {
        Seq::empty()
    }
}

/// What draining a buffer does: the calls made on the sink, the bytes that are left, and how the
/// pump ends, if it does.
pub ghost struct Drained {
    pub calls: Seq<SinkCall>,
    pub rest: Seq<u8>,
    pub end: Option<Result<Outcome, PumpError>>,
}

/// Dispatching the whole frames of a buffer, given what the sink answers to each call in turn
/// (a call without an answer in `replies` is accepted).
pub open spec fn drain(buf: Seq<u8>, replies: Seq<Result<(), SinkError>>) -> Drained
    decreases buf.len(),
{
    match first_frame(buf) {
        Err(e) => Drained {
            calls: Seq::empty(),
            rest: buf,
            end: Some(Err(PumpError::Protocol(e))),
        },
        Ok(None) => Drained { calls: Seq::empty(), rest: buf, end: None },
        Ok(Some((f, rest))) => match frame_action(f) {
            FrameAction::Reject(e) => Drained {
                calls: Seq::empty(),
                rest,
                end: Some(Err(PumpError::Protocol(e))),
            },
            FrameAction::Finish(code) => Drained {
                calls: Seq::empty(),
                rest,
                end: Some(Ok(Outcome::Exited(code))),
            },
            FrameAction::Deliver(event) => {
                let reply = first_reply(replies);
                let call = SinkCall { event, reply };
                match reply {
                    Err(e) => Drained {
                        calls: seq![call],
                        rest,
                        end: Some(Err(PumpError::Sink(e))),
                    },
                    Ok(()) => {
                        let more = drain(rest, behind(replies, 1));
                        Drained { calls: seq![call] + more.calls, rest: more.rest, end: more.end }
                    },
                }
            },
        },
    }
}

/// The answer to the next call.
pub open spec fn first_reply(replies: Seq<Result<(), SinkError>>) -> Result<(), SinkError> {
    if replies.len() == 0 {
        Ok(())
    } else {
        replies[0]
    }
}

/// The answers of a record of calls.
pub open spec fn replies_of(calls: Seq<SinkCall>) -> Seq<Result<(), SinkError>> {
    calls.map_values(|c: SinkCall| c.reply)
}

/// Answers that all accept.
pub open spec fn accepting(replies: Seq<Result<(), SinkError>>) -> bool {
    forall|i: int| 0 <= i < replies.len() ==> (#[trigger] replies[i]) is Ok
}

/// What a decode pump does: the calls made on the sink, the bytes left in the buffer, the reads
/// that were not used, and the result.
pub ghost struct Pumped {
    pub calls: Seq<SinkCall>,
    pub rest: Seq<u8>,
    pub reads: Seq<ReadView>,
    pub result: Result<Outcome, PumpError>,
}

/// How a read ends a pump whose buffer holds `rest`, if it does.
pub open spec fn read_end(rest: Seq<u8>, read: ReadView) -> Option<Result<Outcome, PumpError>> {
    match read {
        ReadView::Interrupted(_) => None,
        ReadView::Failed(e) => Some(Err(PumpError::Transport(e))),
        ReadView::Bytes(b) => if b.len() > 0 {
            None
        } else if rest.len() > 0 {
            Some(Err(PumpError::Protocol(ProtocolError::Truncated(rest.len() as usize))))
        } else {
            Some(Ok(Outcome::PeerClosed))
        },
    }
}

/// The bytes that a read adds to the buffer.
pub open spec fn read_bytes(read: ReadView) -> Seq<u8> {
    match read {
        ReadView::Bytes(b) => b,
        _ => Seq::empty(),
    }
}

/// The read at the front of a script; behind its last one the stream is at its end.
pub open spec fn next_read(reads: Seq<ReadView>) -> ReadView {
    if reads.len() == 0 {
        ReadView::Bytes(Seq::empty())
    } else {
        reads[0]
    }
}

/// Reading and dispatching frames until an EXIT frame, the end of the stream or a failure.
pub open spec fn pump(
    buf: Seq<u8>,
    reads: Seq<ReadView>,
    replies: Seq<Result<(), SinkError>>,
) -> Pumped
    decreases reads.len(),
{
    let d = drain(buf, replies);
    match d.end {
        Some(result) => Pumped { calls: d.calls, rest: d.rest, reads, result },
        None => match read_end(d.rest, next_read(reads)) {
            Some(result) => Pumped {
                calls: d.calls,
                rest: d.rest,
                reads: behind(reads, 1),
                result,
            },
            None => if reads.len() == 0 {
                Pumped { calls: d.calls, rest: d.rest, reads, result: Ok(Outcome::PeerClosed) }
            } else {
                let more = pump(
                    d.rest + read_bytes(reads[0]),
                    behind(reads, 1),
                    behind(replies, d.calls.len()),
                );
                Pumped {
                    calls: d.calls + more.calls,
                    rest: more.rest,
                    reads: more.reads,
                    result: more.result,
                }
            },
        },
    }
}

/// What a decode pump does next.
pub enum PumpStep {
    /// The buffered frames are dispatched: read the transport.
    Read,
    Done(Result<Outcome, PumpError>),
}

/// What a sink answered, given how dispatching a frame to it ended.
spec fn answered(end: Option<Result<Outcome, PumpError>>) -> Result<(), SinkError> {
    match end {
        Some(Err(PumpError::Sink(e))) => Err(e),
        _ => Ok(()),
    }
}

proof fn lemma_accepted(reply: Result<(), SinkError>)
    ensures
        reply is Ok ==> reply == Ok::<(), SinkError>(()),
{
    if let Ok(u) = reply {
        assert(u == ());
    }
}

/// Dispatch one frame to `sink`; `None` to go on.
fn dispatch<S: FrameSink>(frame: Frame, sink: &mut S) -> (r: Option<Result<Outcome, PumpError>>)
    requires
        old(sink).wf(),
    ensures
        final(sink).wf(),
        final(sink).records() == old(sink).records(),
        match frame_action(frame@) {
            FrameAction::Reject(e) => r == Some(Err::<Outcome, _>(PumpError::Protocol(e)))
                && final(sink).calls() == old(sink).calls(),
            FrameAction::Finish(code) => r == Some(Ok::<_, PumpError>(Outcome::Exited(code)))
                && final(sink).calls() == old(sink).calls(),
            FrameAction::Deliver(event) => {
                &&& r is None || r->0 is Err && r->0->Err_0 is Sink
                &&& old(sink).records() ==> final(sink).calls() == old(sink).calls().push(
                    SinkCall { event, reply: answered(r) },
                )
            },
        },
{
    match frame.kind {
        FrameKind::Data => {
            if frame.payload.len() == 0 {
                return Some(Err(PumpError::Protocol(ProtocolError::MissingStreamTag)));
            }
            let tag: u8 = frame.payload[0];
            match Stream::from_u8(tag) {
                None => Some(Err(PumpError::Protocol(ProtocolError::BadStreamTag(tag)))),
                Some(stream) => {
                    let bytes: &[u8] = vstd::slice::slice_subrange(
                        frame.payload.as_slice(),
                        1,
                        frame.payload.len(),
                    );
                    assert(bytes@ =~= frame.payload@.skip(1));
                    let reply: Result<(), SinkError> = sink.on_data(stream, bytes);
                    proof {
                        lemma_accepted(reply);
                    }
                    match reply {
                        Ok(()) => None,
                        Err(e) => Some(Err(PumpError::Sink(e))),
                    }
                },
            }
        },
        FrameKind::Resize => match Resize::decode(frame.payload.as_slice()) {
            Err(e) => Some(Err(PumpError::Protocol(e))),
            Ok(size) => {
                let reply: Result<(), SinkError> = sink.on_resize(size);
                proof {
                    lemma_accepted(reply);
                }
                match reply {
                    Ok(()) => None,
                    Err(e) => Some(Err(PumpError::Sink(e))),
                }
            },
        },
        FrameKind::Exit => match ExitCode::decode(frame.payload.as_slice()) {
            Err(e) => Some(Err(PumpError::Protocol(e))),
            Ok(code) => Some(Ok(Outcome::Exited(code.0))),
        },
        FrameKind::Handshake => Some(
            Err(PumpError::Protocol(ProtocolError::UnexpectedHandshake)),
        ),
    }
}

/// Dispatching the frames of a buffer with the calls `made`, each answered as it says, leaves
/// `rest` and comes to `step`.
pub open spec fn dispatched(
    buf: Seq<u8>,
    made: Seq<SinkCall>,
    rest: Seq<u8>,
    step: PumpStep,
) -> bool {
    let d = drain(buf, replies_of(made));
    &&& made == d.calls
    &&& rest == d.rest
    &&& step == match d.end {
        None => PumpStep::Read,
        Some(result) => PumpStep::Done(result),
    }
}

/// What became of a sink with the calls `made`: one that keeps a record has recorded them.
pub open spec fn took<S: FrameSink>(before: S, after: S, made: Seq<SinkCall>) -> bool {
    &&& after.records() == before.records()
    &&& before.records() ==> after.calls() == before.calls() + made
}

/// Dispatch every whole frame that `fr` holds.
pub fn pump_buffered<S: FrameSink>(fr: &mut FrameReader, sink: &mut S) -> (step: PumpStep)
    requires
        old(sink).wf(),
    ensures
        final(sink).wf(),
        exists|made: Seq<SinkCall>| #[trigger]
            dispatched(old(fr)@, made, final(fr)@, step) && took(*old(sink), *final(sink), made),
{
    let ghost buf0 = fr@;
    let ghost mut made: Seq<SinkCall> = Seq::empty();
    proof {
        assert(sink.calls() + made =~= sink.calls());
        assert forall|later: Seq<Result<(), SinkError>>| drained_after(buf0, made, buf0, later) by {
            assert(replies_of(made) + later =~= later);
            assert(made + drain(buf0, later).calls =~= drain(buf0, later).calls);
        }
    }
    loop
        invariant
            sink.wf(),
            took(*old(sink), *sink, made),
            buf0 == old(fr)@,
            forall|later: Seq<Result<(), SinkError>>| drained_after(buf0, made, fr@, later),
        decreases fr@.len(),
    {
        let ghost here = fr@;
        proof {
            let none = Seq::<Result<(), SinkError>>::empty();
            assert(drained_after(buf0, made, here, none));
            assert(replies_of(made) + none =~= replies_of(made));
            assert(made + Seq::<SinkCall>::empty() =~= made);
        }
        match fr.next_frame() {
            Err(e) => {
                let step: PumpStep = PumpStep::Done(Err(PumpError::Protocol(e)));
                assert(dispatched(buf0, made, fr@, step));
                return step;
            },
            Ok(None) => {
                assert(dispatched(buf0, made, fr@, PumpStep::Read));
                return PumpStep::Read;
            },
            Ok(Some(frame)) => {
                let ghost f = frame@;
                let end: Option<Result<Outcome, PumpError>> = dispatch(frame, sink);
                let ghost before = made;
                proof {
                    if let FrameAction::Deliver(event) = frame_action(f) {
                        let call = SinkCall { event, reply: answered(end) };
                        made = before.push(call);
                        assert(old(sink).calls() + made =~= (old(sink).calls() + before).push(
                            call,
                        ));
                        assert(drained_after(buf0, before, here, seq![call.reply]));
                        assert(replies_of(before) + seq![call.reply] =~= replies_of(made));
                        assert(before + seq![call] =~= made);
                    }
                }
                match end {
                    Some(result) => {
                        let step: PumpStep = PumpStep::Done(result);
                        assert(dispatched(buf0, made, fr@, step));
                        return step;
                    },
                    None => {
                        proof {
                            let call = made.last();
                            assert forall|later: Seq<Result<(), SinkError>>|
                                drained_after(buf0, made, fr@, later) by {
                                let ahead = seq![call.reply] + later;
                                assert(drained_after(buf0, before, here, ahead));
                                assert(replies_of(before) + ahead =~= replies_of(made) + later);
                                assert(behind(ahead, 1) =~= later);
                                assert(before + (seq![call] + drain(fr@, later).calls) =~= made
                                    + drain(fr@, later).calls);
                            }
                        }
                    },
                }
            },
        }
    }
}

/// Draining `buf0` makes the calls `made`, then does what draining `buf` does.
spec fn drained_after(
    buf0: Seq<u8>,
    made: Seq<SinkCall>,
    buf: Seq<u8>,
    later: Seq<Result<(), SinkError>>,
) -> bool {
    let whole = drain(buf0, replies_of(made) + later);
    let part = drain(buf, later);
    whole.calls == made + part.calls && whole.rest == part.rest && whole.end == part.end
}

/// Take in what one read of the transport gave, after the buffered frames are dispatched. An
/// interrupted read is retried, because the peer is still there; no bytes at all are the end of
/// the stream, which a correct peer reaches on a frame boundary.
pub fn pump_read(fr: &mut FrameReader, event: ReadEvent) -> (r: Option<Result<Outcome, PumpError>>)
    ensures
        r == read_end(old(fr)@, event@),
        r is Some ==> final(fr)@ == old(fr)@,
        r is None ==> final(fr)@ == old(fr)@ + read_bytes(event@),
{
    match event {
        ReadEvent::Interrupted(_) => {
            assert(fr@ + Seq::<u8>::empty() =~= fr@);
            None
        },
        ReadEvent::Failed(e) => Some(Err(PumpError::Transport(e))),
        ReadEvent::Bytes(bytes) => {
            if bytes.len() > 0 {
                fr.push(bytes.as_slice());
                None
            } else if fr.buffered_len() > 0 {
                Some(Err(PumpError::Protocol(ProtocolError::Truncated(fr.buffered_len()))))
            } else {
                Some(Ok(Outcome::PeerClosed))
            }
        },
    }
}

/// Pumping with the calls `made`, each answered as it says, leaves `rest` and `left` and comes to
/// `result`.
pub open spec fn pumped(
    buf: Seq<u8>,
    reads: Seq<ReadView>,
    made: Seq<SinkCall>,
    rest: Seq<u8>,
    left: Seq<ReadView>,
    result: Result<Outcome, PumpError>,
) -> bool {
    pump(buf, reads, replies_of(made)) == (Pumped { calls: made, rest, reads: left, result })
}

/// Read frames from `r` until an `EXIT` frame or the end of the stream, dispatching `DATA` and
/// `RESIZE` to `sink`. `fr` may hold bytes already, so a pump can follow a handshake that was
/// read with `read_one_frame`. A `HANDSHAKE` frame mid-stream is a protocol error.
#[verifier::rlimit(50)]
pub fn pump_decode<S: FrameSink>(
    r: &mut ReadScript,
    fr: &mut FrameReader,
    sink: &mut S,
) -> (result: Result<Outcome, PumpError>)
    requires
        old(sink).wf(),
    ensures
        final(sink).wf(),
        exists|made: Seq<SinkCall>| #[trigger]
            pumped(old(fr)@, old(r)@, made, final(fr)@, final(r)@, result) && took(
                *old(sink),
                *final(sink),
                made,
            ),
{
    let ghost buf0 = fr@;
    let ghost reads0 = r@;
    let ghost mut made: Seq<SinkCall> = Seq::empty();
    proof {
        assert(sink.calls() + made =~= sink.calls());
        assert forall|later: Seq<Result<(), SinkError>>|
            pumped_after(buf0, reads0, made, buf0, reads0, later) by {
            assert(replies_of(made) + later =~= later);
            assert(made + pump(buf0, reads0, later).calls =~= pump(buf0, reads0, later).calls);
        }
    }
    loop
        invariant
            sink.wf(),
            took(*old(sink), *sink, made),
            buf0 == old(fr)@,
            reads0 == old(r)@,
            forall|later: Seq<Result<(), SinkError>>|
                pumped_after(buf0, reads0, made, fr@, r@, later),
        decreases r@.len(),
    {
        let ghost before = made;
        let ghost sink0 = *sink;
        let ghost here = fr@;
        let ghost reads = r@;
        let step: PumpStep = pump_buffered(fr, sink);
        let ghost fresh = choose|fresh: Seq<SinkCall>| #[trigger]
            dispatched(here, fresh, fr@, step) && took(sink0, *sink, fresh);
        let ghost d = drain(here, replies_of(fresh));
        proof {
            made = before + fresh;
            assert(old(sink).calls() + made =~= (old(sink).calls() + before) + fresh);
            assert(pumped_after(buf0, reads0, before, here, reads, replies_of(fresh)));
            assert(replies_of(before) + replies_of(fresh) =~= replies_of(made));
        }
        match step {
            PumpStep::Done(result) => {
                assert(pumped(buf0, reads0, made, fr@, r@, result));
                return result;
            },
            PumpStep::Read => {},
        }
        let event: ReadEvent = r.read();
        let ghost read = event@;
        assert(read == next_read(reads));
        assert(r@ =~= behind(reads, 1));
        match pump_read(fr, event) {
            Some(result) => {
                assert(pumped(buf0, reads0, made, fr@, r@, result));
                return result;
            },
            None => {
                proof {
                    assert forall|later: Seq<Result<(), SinkError>>|
                        pumped_after(buf0, reads0, made, fr@, r@, later) by {
                        let ahead = replies_of(fresh) + later;
                        assert(pumped_after(buf0, reads0, before, here, reads, ahead));
                        assert(replies_of(before) + ahead =~= replies_of(made) + later);
                        lemma_unused_replies(here, replies_of(fresh), later);
                        assert(behind(ahead, fresh.len()) =~= later);
                        let more = pump(fr@, r@, later);
                        assert(before + (fresh + more.calls) =~= made + more.calls);
                    }
                }
            },
        }
    }
}

/// Pumping from `buf0` and `reads0` makes the calls `made`, then does what pumping from `buf`
/// and `reads` does.
spec fn pumped_after(
    buf0: Seq<u8>,
    reads0: Seq<ReadView>,
    made: Seq<SinkCall>,
    buf: Seq<u8>,
    reads: Seq<ReadView>,
    later: Seq<Result<(), SinkError>>,
) -> bool {
    let whole = pump(buf0, reads0, replies_of(made) + later);
    let part = pump(buf, reads, later);
    &&& whole.calls == made + part.calls
    &&& whole.rest == part.rest
    &&& whole.reads == part.reads
    &&& whole.result == part.result
}

/// Answers behind those to the calls that are made have no effect.
proof fn lemma_unused_replies(
    buf: Seq<u8>,
    replies: Seq<Result<(), SinkError>>,
    later: Seq<Result<(), SinkError>>,
)
    requires
        drain(buf, replies).calls.len() <= replies.len(),
    ensures
        drain(buf, replies + later) == drain(buf, replies),
    decreases buf.len(),
{
    if let Ok(Some((f, rest))) = first_frame(buf) {
        if let FrameAction::Deliver(event) = frame_action(f) {
            assert(drain(buf, replies).calls.len() >= 1);
            assert(first_reply(replies + later) == first_reply(replies));
            if first_reply(replies) is Ok {
                let fewer = behind(replies, 1);
                assert(behind(replies + later, 1) =~= fewer + later);
                lemma_unused_replies(rest, fewer, later);
            }
        }
    }
}

/// Deliver frames from `r` to `sink` until the peer is gone, not merely until the sink is.
///
/// A sink failure is local and the peer is usually still connected: delivery stops there, but
/// watching does not, and the pump goes on with the frames discarded. Returning early would
/// leave nobody reading the transport, and the peer's disconnect would never be observed.
pub fn pump_until_peer_gone<S: FrameSink>(r: &mut ReadScript, fr: &mut FrameReader, sink: &mut S)
    requires
        old(sink).wf(),
    ensures
        final(sink).wf(),
        exists|made: Seq<SinkCall>| #[trigger]
            watched_with(old(fr)@, old(r)@, made, final(fr)@, final(r)@) && took(
                *old(sink),
                *final(sink),
                made,
            ),
{
    let ghost buf0 = fr@;
    let ghost reads0 = r@;
    let ghost sink0 = *sink;
    let result: Result<Outcome, PumpError> = pump_decode(r, fr, sink);
    let ghost made = choose|made: Seq<SinkCall>| #[trigger]
        pumped(buf0, reads0, made, fr@, r@, result) && took(sink0, *sink, made);
    if keeps_watching(&result) {
        let mut discard: DiscardSink = DiscardSink::new();
        let ghost rest = fr@;
        let ghost reads = r@;
        let ghost discard0 = discard;
        let last: Result<Outcome, PumpError> = pump_decode(r, fr, &mut discard);
        proof {
            let dropped = choose|dropped: Seq<SinkCall>| #[trigger]
                pumped(rest, reads, dropped, fr@, r@, last) && took(discard0, discard, dropped);
            assert(discard.calls() =~= dropped);
            law_accepting_is_unanswered(rest, reads, replies_of(dropped));
        }
    }
    assert(watched_with(buf0, reads0, made, fr@, r@));
}

/// Whether a pump that ended goes on with the frames discarded: only its sink failed, and the
/// peer is still there to be watched.
pub fn keeps_watching(result: &Result<Outcome, PumpError>) -> (b: bool)
    ensures
        b == (result matches Err(e) && e is Sink),
{
    match result {
        Ok(_) => false,
        Err(e) => !e.peer_gone(),
    }
}

/// Delivering with the calls `made`, each answered as it says, and then watching until the peer
/// is gone, leaves `rest` and `left`.
pub open spec fn watched_with(
    buf: Seq<u8>,
    reads: Seq<ReadView>,
    made: Seq<SinkCall>,
    rest: Seq<u8>,
    left: Seq<ReadView>,
) -> bool {
    let p = pump(buf, reads, replies_of(made));
    &&& made == p.calls
    &&& rest == watched(p).rest
    &&& left == watched(p).reads
}

/// What watching the peer comes to: where the sink failed, pumping on with everything accepted.
pub open spec fn watched(p: Pumped) -> Pumped {
    match p.result {
        Err(PumpError::Sink(_)) => pump(p.rest, p.reads, Seq::empty()),
        _ => p,
    }
}

/// A sink that accepts everything is one of which no answer is known.
pub proof fn law_accepting_is_unanswered(
    buf: Seq<u8>,
    reads: Seq<ReadView>,
    replies: Seq<Result<(), SinkError>>,
)
    requires
        accepting(replies),
    ensures
        pump(buf, reads, replies) == pump(buf, reads, Seq::empty()),
    decreases reads.len(),
{
    let none = Seq::<Result<(), SinkError>>::empty();
    lemma_accepting_drain(buf, replies);
    let d = drain(buf, replies);
    if d.end is None && read_end(d.rest, next_read(reads)) is None && reads.len() > 0 {
        let fewer = behind(replies, d.calls.len());
        assert(behind(none, d.calls.len()) =~= none);
        law_accepting_is_unanswered(d.rest + read_bytes(reads[0]), behind(reads, 1), fewer);
    }
}

proof fn lemma_accepting_drain(buf: Seq<u8>, replies: Seq<Result<(), SinkError>>)
    requires
        accepting(replies),
    ensures
        drain(buf, replies) == drain(buf, Seq::empty()),
    decreases buf.len(),
{
    let none = Seq::<Result<(), SinkError>>::empty();
    if let Ok(Some((f, rest))) = first_frame(buf) {
        if let FrameAction::Deliver(event) = frame_action(f) {
            if replies.len() > 0 {
                assert(replies[0] is Ok);
                assert(replies[0]->Ok_0 == ());
            }
            assert(first_reply(replies) == first_reply(none));
            assert(behind(none, 1) =~= none);
            lemma_accepting_drain(rest, behind(replies, 1));
        }
    }
}

// Laws.

/// Watching goes on until the peer is gone: it never ends with a sink failure.
pub proof fn law_watching_ends_with_the_peer(
    buf: Seq<u8>,
    reads: Seq<ReadView>,
    replies: Seq<Result<(), SinkError>>,
)
    ensures
        !(watched(pump(buf, reads, replies)).result matches Err(PumpError::Sink(_))),
{
    let p = pump(buf, reads, replies);
    if p.result matches Err(PumpError::Sink(_)) {
        lemma_discarding_never_fails(p.rest, p.reads);
    }
}

proof fn lemma_discarding_never_fails(buf: Seq<u8>, reads: Seq<ReadView>)
    ensures
        !(pump(buf, reads, Seq::empty()).result matches Err(PumpError::Sink(_))),
    decreases reads.len(),
{
    let none = Seq::<Result<(), SinkError>>::empty();
    lemma_discarding_drain(buf);
    let d = drain(buf, none);
    assert(behind(none, d.calls.len()) =~= none);
    if d.end is None && read_end(d.rest, next_read(reads)) is None && reads.len() > 0 {
        lemma_discarding_never_fails(d.rest + read_bytes(reads[0]), behind(reads, 1));
    }
}

proof fn lemma_discarding_drain(buf: Seq<u8>)
    ensures
        !(drain(buf, Seq::empty()).end matches Some(Err(PumpError::Sink(_)))),
    decreases buf.len(),
{
    let none = Seq::<Result<(), SinkError>>::empty();
    assert(behind(none, 1) =~= none);
    if let Ok(Some((f, rest))) = first_frame(buf) {
        lemma_discarding_drain(rest);
    }
}

/// Draining two pieces of a stream one after the other is draining them at once.
proof fn lemma_drain_split(x: Seq<u8>, y: Seq<u8>, replies: Seq<Result<(), SinkError>>)
    ensures
        ({
            let d = drain(x, replies);
            let e = drain(d.rest + y, behind(replies, d.calls.len()));
            let whole = drain(x + y, replies);
            &&& d.end is Some ==> whole == (Drained {
                calls: d.calls,
                rest: d.rest + y,
                end: d.end,
            })
            &&& d.end is None ==> whole == (Drained {
                calls: d.calls + e.calls,
                rest: e.rest,
                end: e.end,
            })
        }),
    decreases x.len(),
{
    law_later_bytes_keep_the_first_frame(x, y);
    let d = drain(x, replies);
    match first_frame(x) {
        Ok(Some((f, rest))) => {
            if let FrameAction::Deliver(event) = frame_action(f) {
                if first_reply(replies) is Ok {
                    let fewer = behind(replies, 1);
                    lemma_drain_split(rest, y, fewer);
                    let more = drain(rest, fewer);
                    assert(behind(fewer, more.calls.len()) =~= behind(replies, d.calls.len()));
                    let e = drain(d.rest + y, behind(replies, d.calls.len()));
                    let call = SinkCall { event, reply: first_reply(replies) };
                    assert(seq![call] + (more.calls + e.calls) =~= d.calls + e.calls);
                }
            }
        },
        Ok(None) => {
            assert(behind(replies, 0) =~= replies);
            assert(d.calls + drain(x + y, replies).calls =~= drain(x + y, replies).calls);
        },
        Err(_) => {},
    }
}

/// After a drain that did not end the pump there is no whole frame left.
proof fn lemma_drained_is_dry(buf: Seq<u8>, replies: Seq<Result<(), SinkError>>)
    ensures
        drain(buf, replies).end is None ==> first_frame(drain(buf, replies).rest) == Ok::<
            Option<(FrameView, Seq<u8>)>,
            ProtocolError,
        >(None),
    decreases buf.len(),
{
    if let Ok(Some((f, rest))) = first_frame(buf) {
        lemma_drained_is_dry(rest, behind(replies, 1));
    }
}

/// How the stream is cut into two reads does not matter to what is delivered and how it ends.
#[verifier::rlimit(50)]
pub proof fn law_two_reads_are_one(
    buf: Seq<u8>,
    a: Seq<u8>,
    b: Seq<u8>,
    reads: Seq<ReadView>,
    replies: Seq<Result<(), SinkError>>,
)
    requires
        a.len() > 0,
        b.len() > 0,
    ensures
        ({
            let split = pump(
                buf,
                seq![ReadView::Bytes(a), ReadView::Bytes(b)] + reads,
                replies,
            );
            let whole = pump(buf, seq![ReadView::Bytes(a + b)] + reads, replies);
            split.calls == whole.calls && split.result == whole.result
        }),
{
    let two = seq![ReadView::Bytes(a), ReadView::Bytes(b)] + reads;
    let one = seq![ReadView::Bytes(a + b)] + reads;
    let second = seq![ReadView::Bytes(b)] + reads;
    assert(behind(two, 1) =~= second);
    assert(behind(one, 1) =~= reads);
    assert(behind(second, 1) =~= reads);
    let d = drain(buf, replies);
    if d.end is None {
        let later = behind(replies, d.calls.len());
        let x = d.rest + a;
        assert(d.rest + (a + b) =~= x + b);
        lemma_drain_split(x, b, later);
        let d2 = drain(x, later);
        let left = pump(x, second, later);
        let right = pump(x + b, reads, later);
        if d2.end is None {
            let last = behind(later, d2.calls.len());
            let e = drain(d2.rest + b, last);
            let tail = pump(d2.rest + b, reads, last);
            assert(left.calls == d2.calls + tail.calls && left.result == tail.result);
            assert(behind(later, (d2.calls + e.calls).len()) =~= behind(last, e.calls.len()));
            if e.end is None && read_end(e.rest, next_read(reads)) is None && reads.len() > 0 {
                let deep = pump(
                    e.rest + read_bytes(reads[0]),
                    behind(reads, 1),
                    behind(last, e.calls.len()),
                );
                assert((d2.calls + e.calls) + deep.calls =~= d2.calls + (e.calls + deep.calls));
            }
        }
        assert(left.calls == right.calls && left.result == right.result);
        assert(pump(buf, two, replies).calls == d.calls + left.calls);
        assert(pump(buf, one, replies).calls == d.calls + right.calls);
    }
}

/// Chunks as reads.
pub open spec fn chunk_reads(chunks: Seq<Seq<u8>>) -> Seq<ReadView> {
    chunks.map_values(|c: Seq<u8>| ReadView::Bytes(c))
}

/// Chunks one behind the other.
pub open spec fn joined(chunks: Seq<Seq<u8>>) -> Seq<u8>
    decreases chunks.len(),
{
    if chunks.len() == 0 {
        Seq::empty()
    } else {
        chunks[0] + joined(chunks.skip(1))
    }
}

/// However the bytes of a stream are cut into reads, the same frames are delivered and the pump
/// ends in the same way.
pub proof fn law_chunking_does_not_matter(
    buf: Seq<u8>,
    chunks: Seq<Seq<u8>>,
    reads: Seq<ReadView>,
    replies: Seq<Result<(), SinkError>>,
)
    requires
        chunks.len() > 0,
        forall|i: int| 0 <= i < chunks.len() ==> (#[trigger] chunks[i]).len() > 0,
    ensures
        ({
            let split = pump(buf, chunk_reads(chunks) + reads, replies);
            let whole = pump(buf, seq![ReadView::Bytes(joined(chunks))] + reads, replies);
            split.calls == whole.calls && split.result == whole.result
        }),
    decreases chunks.len(),
{
    let tail = chunks.skip(1);
    if chunks.len() == 1 {
        assert(joined(tail) =~= Seq::<u8>::empty());
        assert(joined(chunks) =~= chunks[0]);
        assert(chunk_reads(chunks) =~= seq![ReadView::Bytes(joined(chunks))]);
    } else {
        let a = chunks[0];
        let b = chunks[1];
        let rest = chunks.skip(2);
        let merged = seq![a + b] + rest;
        assert forall|i: int| 0 <= i < merged.len() implies (#[trigger] merged[i]).len() > 0 by {
            if i > 0 {
                assert(merged[i] == chunks[i + 1]);
            }
        }
        law_chunking_does_not_matter(buf, merged, reads, replies);
        assert(merged.skip(1) =~= rest);
        assert(tail.skip(1) =~= rest);
        assert(joined(tail) == b + joined(rest));
        assert(joined(merged) =~= joined(chunks));
        law_two_reads_are_one(buf, a, b, chunk_reads(rest) + reads, replies);
        assert(seq![ReadView::Bytes(a), ReadView::Bytes(b)] + (chunk_reads(rest) + reads)
            =~= chunk_reads(chunks) + reads);
        assert(seq![ReadView::Bytes(a + b)] + (chunk_reads(rest) + reads) =~= chunk_reads(merged)
            + reads);
    }
}

/// An interrupted read changes nothing.
#[verifier::rlimit(50)]
pub proof fn law_interrupted_read_is_retried(
    buf: Seq<u8>,
    e: TransportError,
    reads: Seq<ReadView>,
    replies: Seq<Result<(), SinkError>>,
)
    ensures
        ({
            let with = pump(buf, seq![ReadView::Interrupted(e)] + reads, replies);
            let without = pump(buf, reads, replies);
            &&& with.calls == without.calls
            &&& with.rest == without.rest
            &&& with.result == without.result
            &&& drain(buf, replies).end is None ==> with.reads == without.reads
        }),
{
    let all = seq![ReadView::Interrupted(e)] + reads;
    assert(behind(all, 1) =~= reads);
    let d = drain(buf, replies);
    if d.end is None {
        lemma_drained_is_dry(buf, replies);
        let later = behind(replies, d.calls.len());
        let none = Seq::<SinkCall>::empty();
        assert(d.rest + Seq::<u8>::empty() =~= d.rest);
        assert(drain(d.rest, later) == (Drained { calls: none, rest: d.rest, end: None }));
        assert(behind(later, 0) =~= later);
        let more = pump(d.rest, reads, later);
        assert(pump(buf, all, replies).calls == d.calls + more.calls);
        if read_end(d.rest, next_read(reads)) is None && reads.len() > 0 {
            let deep = pump(d.rest + read_bytes(reads[0]), behind(reads, 1), later);
            assert(none + deep.calls =~= deep.calls);
        } else {
            assert(d.calls + none =~= d.calls);
        }
    }
}

/// Whether the frame of an event can be written.
pub open spec fn fits(e: SinkEvent) -> bool {
    match e {
        SinkEvent::Data(_, bytes) => bytes.len() < MAX_FRAME,
        SinkEvent::Resize(_) => true,
    }
}

/// The frames of events on the wire, one behind the other.
pub open spec fn events_wire(es: Seq<SinkEvent>) -> Seq<u8>
    decreases es.len(),
{
    if es.len() == 0 {
        Seq::empty()
    } else {
        frame_bytes(event_frame(es[0])) + events_wire(es.skip(1))
    }
}

/// The calls that deliver events to a sink that accepts them all.
pub open spec fn accepted(es: Seq<SinkEvent>) -> Seq<SinkCall> {
    es.map_values(|e: SinkEvent| SinkCall { event: e, reply: Ok(()) })
}

/// Events that were written are delivered, byte for byte and in order, before anything behind
/// them.
#[verifier::rlimit(50)]
pub proof fn law_written_events_are_delivered(es: Seq<SinkEvent>, tail: Seq<u8>)
    requires
        forall|i: int| 0 <= i < es.len() ==> fits(#[trigger] es[i]),
    ensures
        ({
            let d = drain(events_wire(es) + tail, Seq::empty());
            let after = drain(tail, Seq::empty());
            &&& d.calls == accepted(es) + after.calls
            &&& d.rest == after.rest
            &&& d.end == after.end
        }),
    decreases es.len(),
{
    let none = Seq::<Result<(), SinkError>>::empty();
    if es.len() == 0 {
        assert(events_wire(es) + tail =~= tail);
        assert(accepted(es) + drain(tail, none).calls =~= drain(tail, none).calls);
    } else {
        let rest = es.skip(1);
        assert forall|i: int| 0 <= i < rest.len() implies fits(#[trigger] rest[i]) by {
            assert(rest[i] == es[i + 1]);
        }
        let behind_first = events_wire(rest) + tail;
        assert(events_wire(es) + tail =~= frame_bytes(event_frame(es[0])) + behind_first);
        assert(fits(es[0]));
        lemma_event_frame(es[0], behind_first);
        law_written_events_are_delivered(rest, tail);
        let call = SinkCall { event: es[0], reply: Ok(()) };
        let after = drain(tail, none).calls;
        assert(seq![call] + (accepted(rest) + after) =~= accepted(es) + after);
    }
}

proof fn lemma_event_frame(e: SinkEvent, tail: Seq<u8>)
    requires
        fits(e),
    ensures
        ({
            let d = drain(frame_bytes(event_frame(e)) + tail, Seq::empty());
            let after = drain(tail, Seq::empty());
            &&& d.calls == seq![SinkCall { event: e, reply: Ok(()) }] + after.calls
            &&& d.rest == after.rest
            &&& d.end == after.end
        }),
{
    let none = Seq::<Result<(), SinkError>>::empty();
    lemma_event_is_delivered(e);
    law_written_frame_comes_first(event_frame(e), tail);
    assert(behind(none, 1) =~= none);
}

proof fn lemma_event_is_delivered(e: SinkEvent)
    requires
        fits(e),
    ensures
        event_frame(e).payload.len() <= MAX_FRAME,
        frame_action(event_frame(e)) == FrameAction::Deliver(e),
{
    let f = event_frame(e);
    match e {
        SinkEvent::Data(stream, bytes) => {
            assert(f.payload.skip(1) =~= bytes);
        },
        SinkEvent::Resize(size) => {
            law_resize_round_trip(size);
        },
    }
}

/// A whole session: the events that the peer wrote are delivered, and then the pump ends with
/// the exit code that it wrote, or, if it closed without one, with `PeerClosed`.
pub proof fn law_session_comes_through(es: Seq<SinkEvent>, code: Option<i32>)
    requires
        forall|i: int| 0 <= i < es.len() ==> fits(#[trigger] es[i]),
    ensures
        ({
            let exit = match code {
                Some(c) => frame_bytes(
                    FrameView { kind: FrameKind::Exit, payload: ExitCode(c).bytes() },
                ),
                None => Seq::empty(),
            };
            let p = pump(
                Seq::empty(),
                seq![ReadView::Bytes(events_wire(es) + exit)],
                Seq::empty(),
            );
            &&& p.calls == accepted(es)
            &&& p.rest == Seq::<u8>::empty()
            &&& p.result == Ok::<_, PumpError>(
                match code {
                    Some(c) => Outcome::Exited(c),
                    None => Outcome::PeerClosed,
                },
            )
        }),
{
    let none = Seq::<Result<(), SinkError>>::empty();
    let f = FrameView { kind: FrameKind::Exit, payload: ExitCode(code->0).bytes() };
    let exit = match code {
        Some(c) => frame_bytes(f),
        None => Seq::empty(),
    };
    law_written_events_are_delivered(es, exit);
    if code is Some {
        law_exit_round_trip(ExitCode(code->0));
        law_written_frame_comes_first(f, Seq::empty());
        assert(frame_bytes(f) + Seq::<u8>::empty() =~= exit);
        assert(drain(exit, none) == (Drained {
            calls: Seq::empty(),
            rest: Seq::empty(),
            end: Some(Ok(Outcome::Exited(code->0))),
        }));
    }
    let bytes = events_wire(es) + exit;
    let reads = seq![ReadView::Bytes(bytes)];
    let d = drain(bytes, none);
    assert(accepted(es) + Seq::<SinkCall>::empty() =~= accepted(es));
    let start = drain(Seq::<u8>::empty(), none);
    assert(start.calls.len() == 0 && start.rest =~= Seq::<u8>::empty());
    assert(behind(none, 0) =~= none);
    assert(behind(reads, 1) =~= Seq::<ReadView>::empty());
    assert(Seq::<u8>::empty() + bytes =~= bytes);
    if bytes.len() > 0 {
        let more = pump(bytes, Seq::empty(), none);
        assert(more.calls == d.calls);
        assert(start.calls + more.calls =~= more.calls);
    } else {
        assert(d.calls =~= start.calls);
    }
}

/// A stream that is cut inside a frame is a protocol error, distinct from a clean close, and
/// nothing of that frame is delivered.
pub proof fn law_cut_stream_is_a_protocol_error(es: Seq<SinkEvent>, f: FrameView, n: int)
    requires
        forall|i: int| 0 <= i < es.len() ==> fits(#[trigger] es[i]),
        f.payload.len() <= MAX_FRAME,
        0 < n < frame_bytes(f).len(),
    ensures
        ({
            let p = pump(
                Seq::empty(),
                seq![ReadView::Bytes(events_wire(es) + frame_bytes(f).take(n))],
                Seq::empty(),
            );
            &&& p.calls == accepted(es)
            &&& p.result == Err::<Outcome, _>(
                PumpError::Protocol(ProtocolError::Truncated(n as usize)),
            )
        }),
{
    let none = Seq::<Result<(), SinkError>>::empty();
    let cut = frame_bytes(f).take(n);
    law_cut_frame_is_incomplete(f, n);
    law_written_events_are_delivered(es, cut);
    let bytes = events_wire(es) + cut;
    let reads = seq![ReadView::Bytes(bytes)];
    let d = drain(bytes, none);
    assert(drain(cut, none) == (Drained { calls: Seq::empty(), rest: cut, end: None }));
    assert(accepted(es) + Seq::<SinkCall>::empty() =~= accepted(es));
    assert(d == (Drained { calls: accepted(es), rest: cut, end: None }));
    let start = drain(Seq::<u8>::empty(), none);
    assert(start.calls.len() == 0 && start.rest =~= Seq::<u8>::empty());
    assert(behind(none, 0) =~= none);
    assert(behind(reads, 1) =~= Seq::<ReadView>::empty());
    assert(Seq::<u8>::empty() + bytes =~= bytes);
    let more = pump(bytes, Seq::empty(), none);
    assert(more.calls == d.calls);
    assert(start.calls + more.calls =~= more.calls);
}

/// A sink that refuses an event ends the pump there: what was written before it was accepted, it
/// is the last call, and its error is the result.
pub proof fn law_refusal_ends_the_pump(
    es: Seq<SinkEvent>,
    k: int,
    e: SinkError,
    tail: Seq<u8>,
    reads: Seq<ReadView>,
)
    requires
        0 <= k < es.len(),
        forall|i: int| 0 <= i <= k ==> fits(#[trigger] es[i]),
    ensures
        ({
            let p = pump(
                Seq::empty(),
                seq![ReadView::Bytes(events_wire(es) + tail)] + reads,
                refusing(k as nat, e),
            );
            &&& p.calls == accepted(es.take(k)).push(SinkCall { event: es[k], reply: Err(e) })
            &&& p.result == Err::<Outcome, _>(PumpError::Sink(e))
        }),
{
    let replies = refusing(k as nat, e);
    let bytes = events_wire(es) + tail;
    let all = seq![ReadView::Bytes(bytes)] + reads;
    let start = Seq::<u8>::empty();
    lemma_refused_drain(es, k, e, tail);
    assert(bytes.len() > 0);
    assert(drain(start, replies) == (Drained { calls: Seq::empty(), rest: start, end: None }));
    assert(start + read_bytes(all[0]) =~= bytes);
    assert(behind(replies, 0) =~= replies);
    let more = pump(bytes, behind(all, 1), replies);
    assert(Seq::<SinkCall>::empty() + more.calls =~= more.calls);
}

/// Answers of a sink that accepts `k` calls and refuses the next.
pub open spec fn refusing(k: nat, e: SinkError) -> Seq<Result<(), SinkError>> {
    Seq::new(k, |i: int| Ok(())).push(Err(e))
}

#[verifier::rlimit(50)]
proof fn lemma_refused_drain(es: Seq<SinkEvent>, k: int, e: SinkError, tail: Seq<u8>)
    requires
        0 <= k < es.len(),
        forall|i: int| 0 <= i <= k ==> fits(#[trigger] es[i]),
    ensures
        ({
            let d = drain(events_wire(es) + tail, refusing(k as nat, e));
            &&& d.calls == accepted(es.take(k)).push(SinkCall { event: es[k], reply: Err(e) })
            &&& d.end == Some(Err::<Outcome, _>(PumpError::Sink(e)))
        }),
    decreases k,
{
    let f = event_frame(es[0]);
    let rest = es.skip(1);
    let after = events_wire(rest) + tail;
    let replies = refusing(k as nat, e);
    assert(fits(es[0]));
    assert(events_wire(es) + tail =~= frame_bytes(f) + after);
    lemma_event_is_delivered(es[0]);
    law_written_frame_comes_first(f, after);
    let d = drain(events_wire(es) + tail, replies);
    if k == 0 {
        assert(d.calls =~= accepted(es.take(0)).push(SinkCall { event: es[0], reply: Err(e) }));
    } else {
        assert forall|i: int| 0 <= i <= k - 1 implies fits(#[trigger] rest[i]) by {
            assert(rest[i] == es[i + 1]);
        }
        lemma_refused_drain(rest, k - 1, e, tail);
        assert(behind(replies, 1) =~= refusing((k - 1) as nat, e));
        assert(d.calls =~= accepted(es.take(k)).push(SinkCall { event: es[k], reply: Err(e) }));
    }
}

/// The bytes that reads bring, one behind the other.
pub open spec fn bytes_read(reads: Seq<ReadView>) -> Seq<u8>
    decreases reads.len(),
{
    if reads.len() == 0 {
        Seq::empty()
    } else {
        read_bytes(reads[0]) + bytes_read(reads.skip(1))
    }
}

/// Reads of a peer that is there until it closes: bytes in whatever pieces, interrupted or not,
/// and the end of the stream as the last of them.
pub open spec fn peer_closes(reads: Seq<ReadView>) -> bool {
    &&& reads.len() > 0
    &&& reads.last() == ReadView::Bytes(Seq::empty())
    &&& forall|i: int|
        0 <= i < reads.len() - 1 ==> (#[trigger] reads[i]) is Interrupted || reads[i] is Bytes
            && reads[i]->Bytes_0.len() > 0
}

/// The calls of a sink that was given the front of some events: each in its turn, and nothing
/// behind one that it refused.
pub open spec fn delivered_front(made: Seq<SinkCall>, es: Seq<SinkEvent>) -> bool {
    &&& made.len() <= es.len()
    &&& forall|i: int| 0 <= i < made.len() ==> (#[trigger] made[i]).event == es[i]
    &&& forall|i: int| 0 <= i < made.len() - 1 ==> (#[trigger] made[i]).reply is Ok
    &&& made.len() < es.len() ==> made.len() > 0 && made.last().reply is Err
}

/// Whatever a sink refuses, the peer is watched until it is gone. Where the stream is events, cut
/// into reads in any way, and then its end, nothing is left of it: every read is taken, the end
/// among them, and no byte stays buffered. The sink gets every event up to the first that it
/// refuses.
pub proof fn law_watching_takes_the_whole_stream(
    es: Seq<SinkEvent>,
    buf: Seq<u8>,
    reads: Seq<ReadView>,
    made: Seq<SinkCall>,
    rest: Seq<u8>,
    left: Seq<ReadView>,
)
    requires
        forall|i: int| 0 <= i < es.len() ==> fits(#[trigger] es[i]),
        peer_closes(reads),
        buf + bytes_read(reads) == events_wire(es),
        watched_with(buf, reads, made, rest, left),
    ensures
        rest == Seq::<u8>::empty(),
        left == Seq::<ReadView>::empty(),
        delivered_front(made, es),
{
    let replies = replies_of(made);
    let p = pump(buf, reads, replies);
    lemma_pump_takes_events(es, buf, reads, replies);
    if p.result is Err {
        let k = p.calls.len() as int;
        let later = es.skip(k);
        assert forall|i: int| 0 <= i < later.len() implies fits(#[trigger] later[i]) by {
            assert(later[i] == es[i + k]);
        }
        lemma_pump_takes_events(later, p.rest, p.reads, Seq::empty());
        lemma_discarding_never_fails(p.rest, p.reads);
    }
}

/// A pump whose sink accepts everything delivers every event of such a stream, takes every read,
/// and ends with the peer's close.
pub proof fn law_pump_takes_the_whole_stream(
    es: Seq<SinkEvent>,
    buf: Seq<u8>,
    reads: Seq<ReadView>,
    made: Seq<SinkCall>,
    rest: Seq<u8>,
    left: Seq<ReadView>,
    result: Result<Outcome, PumpError>,
)
    requires
        forall|i: int| 0 <= i < es.len() ==> fits(#[trigger] es[i]),
        peer_closes(reads),
        buf + bytes_read(reads) == events_wire(es),
        pumped(buf, reads, made, rest, left, result),
    ensures
        delivered_front(made, es),
        made.len() > 0 && made.last().reply is Err ==> result == Err::<Outcome, _>(
            PumpError::Sink(made.last().reply->Err_0),
        ),
        !(made.len() > 0 && made.last().reply is Err) ==> {
            &&& result == Ok::<_, PumpError>(Outcome::PeerClosed)
            &&& made.len() == es.len()
            &&& rest == Seq::<u8>::empty()
            &&& left == Seq::<ReadView>::empty()
        },
{
    lemma_pump_takes_events(es, buf, reads, replies_of(made));
}

/// Draining a buffer of a stream of events, of which `tail` has not been read yet.
#[verifier::rlimit(50)]
proof fn lemma_drain_takes_events(
    es: Seq<SinkEvent>,
    buf: Seq<u8>,
    tail: Seq<u8>,
    replies: Seq<Result<(), SinkError>>,
)
    requires
        forall|i: int| 0 <= i < es.len() ==> fits(#[trigger] es[i]),
        buf + tail == events_wire(es),
    ensures
        ({
            let d = drain(buf, replies);
            let k = d.calls.len() as int;
            &&& k <= es.len()
            &&& forall|i: int| 0 <= i < k ==> (#[trigger] d.calls[i]).event == es[i]
            &&& forall|i: int| 0 <= i < k - 1 ==> (#[trigger] d.calls[i]).reply is Ok
            &&& d.rest + tail == events_wire(es.skip(k))
            &&& match d.end {
                None => (k > 0 ==> d.calls[k - 1].reply is Ok) && (tail.len() == 0 ==> k == es.len()
                    && d.rest.len() == 0),
                Some(r) => k > 0 && d.calls[k - 1].reply is Err && r == Err::<Outcome, _>(
                    PumpError::Sink(d.calls[k - 1].reply->Err_0),
                ),
            }
        }),
    decreases es.len(),
{
    let d = drain(buf, replies);
    let none = Seq::<u8>::empty();
    law_later_bytes_keep_the_first_frame(buf, tail);
    if es.len() == 0 {
        assert(buf =~= none);
        assert(es.skip(0) =~= es);
    } else {
        let rest_es = es.skip(1);
        assert(fits(es[0]));
        lemma_event_is_delivered(es[0]);
        law_written_frame_comes_first(event_frame(es[0]), events_wire(rest_es));
        assert forall|i: int| 0 <= i < rest_es.len() implies fits(#[trigger] rest_es[i]) by {
            assert(rest_es[i] == es[i + 1]);
        }
        match first_frame(buf) {
            Err(e) => {
                assert(false);
            },
            Ok(None) => {
                assert(es.skip(0) =~= es);
                if tail.len() == 0 {
                    assert(buf + tail =~= buf);
                    assert(false);
                }
            },
            Ok(Some((f, rest))) => {
                assert(f == event_frame(es[0]) && rest + tail == events_wire(rest_es));
                let reply = first_reply(replies);
                let call = SinkCall { event: es[0], reply };
                if reply is Ok {
                    let fewer = behind(replies, 1);
                    lemma_drain_takes_events(rest_es, rest, tail, fewer);
                    let more = drain(rest, fewer);
                    let k = more.calls.len() as int;
                    assert(d.calls == seq![call] + more.calls);
                    assert forall|i: int| 0 <= i < k + 1 implies (#[trigger] d.calls[i]).event
                        == es[i] by {
                        if i > 0 {
                            assert(d.calls[i] == more.calls[i - 1]);
                            assert(rest_es[i - 1] == es[i]);
                        }
                    }
                    assert forall|i: int| 0 <= i < k implies (#[trigger] d.calls[i]).reply is Ok by {
                        if i > 0 {
                            assert(d.calls[i] == more.calls[i - 1]);
                        }
                    }
                    assert(rest_es.skip(k) =~= es.skip(k + 1));
                    if k > 0 {
                        assert(d.calls[k] == more.calls[k - 1]);
                    }
                }
            },
        }
    }
}

/// Pumping a stream of events.
#[verifier::rlimit(50)]
proof fn lemma_pump_takes_events(
    es: Seq<SinkEvent>,
    buf: Seq<u8>,
    reads: Seq<ReadView>,
    replies: Seq<Result<(), SinkError>>,
)
    requires
        forall|i: int| 0 <= i < es.len() ==> fits(#[trigger] es[i]),
        peer_closes(reads),
        buf + bytes_read(reads) == events_wire(es),
    ensures
        ({
            let p = pump(buf, reads, replies);
            let k = p.calls.len() as int;
            &&& delivered_front(p.calls, es)
            &&& if k > 0 && p.calls.last().reply is Err {
                &&& p.result == Err::<Outcome, _>(PumpError::Sink(p.calls.last().reply->Err_0))
                &&& peer_closes(p.reads)
                &&& p.rest + bytes_read(p.reads) == events_wire(es.skip(k))
            } else {
                &&& p.result == Ok::<_, PumpError>(Outcome::PeerClosed)
                &&& p.rest.len() == 0
                &&& p.reads.len() == 0
            }
        }),
    decreases reads.len(),
{
    let p = pump(buf, reads, replies);
    let d = drain(buf, replies);
    let k = d.calls.len() as int;
    let tail = bytes_read(reads);
    lemma_drain_takes_events(es, buf, tail, replies);
    if d.end is None {
        let read = reads[0];
        let fewer = reads.skip(1);
        assert(behind(reads, 1) =~= fewer);
        let later_es = es.skip(k);
        assert forall|i: int| 0 <= i < later_es.len() implies fits(#[trigger] later_es[i]) by {
            assert(later_es[i] == es[i + k]);
        }
        if reads.len() == 1 {
            assert(read == ReadView::Bytes(Seq::empty()));
            assert(bytes_read(fewer) =~= Seq::<u8>::empty());
            assert(tail =~= Seq::<u8>::empty());
            assert(d.rest + tail =~= d.rest);
        } else {
            assert(reads[0] is Interrupted || reads[0] is Bytes && reads[0]->Bytes_0.len() > 0);
            assert forall|i: int| 0 <= i < fewer.len() - 1 implies (#[trigger] fewer[i])
                is Interrupted || fewer[i] is Bytes && fewer[i]->Bytes_0.len() > 0 by {
                assert(fewer[i] == reads[i + 1]);
            }
            assert(fewer.last() == reads.last());
            let now = d.rest + read_bytes(read);
            assert(now + bytes_read(fewer) =~= d.rest + tail);
            let later = behind(replies, d.calls.len());
            lemma_pump_takes_events(later_es, now, fewer, later);
            let more = pump(now, fewer, later);
            let n = more.calls.len() as int;
            assert(p.calls == d.calls + more.calls);
            assert forall|i: int| 0 <= i < p.calls.len() implies (#[trigger] p.calls[i]).event
                == es[i] by {
                if i >= k {
                    assert(p.calls[i] == more.calls[i - k]);
                    assert(later_es[i - k] == es[i]);
                }
            }
            assert forall|i: int| 0 <= i < p.calls.len() - 1 implies (#[trigger] p.calls[i]).reply
                is Ok by {
                if i >= k {
                    assert(p.calls[i] == more.calls[i - k]);
                } else {
                    assert(p.calls[i] == d.calls[i]);
                }
            }
            assert(later_es.skip(n) =~= es.skip(k + n));
            if n > 0 {
                assert(p.calls.last() == more.calls.last());
            } else if k > 0 {
                assert(p.calls.last() == d.calls[k - 1]);
            }
        }
    }
}

/// An EXIT frame on the wire.
pub open spec fn exit_wire(code: i32) -> Seq<u8> {
    frame_bytes(FrameView { kind: FrameKind::Exit, payload: ExitCode(code).bytes() })
}

/// Reads that bring bytes, in whatever pieces, interrupted or not.
pub open spec fn peer_writes(reads: Seq<ReadView>) -> bool {
    forall|i: int|
        0 <= i < reads.len() ==> (#[trigger] reads[i]) is Interrupted || reads[i] is Bytes
            && reads[i]->Bytes_0.len() > 0
}

/// The peer's EXIT frame is the end, whatever a sink has refused before it and however the stream
/// is cut: it is read over all the events in front of it, and nothing behind it is lost or taken
/// for an event.
pub proof fn law_exit_ends_the_watch(
    es: Seq<SinkEvent>,
    code: i32,
    after: Seq<u8>,
    buf: Seq<u8>,
    reads: Seq<ReadView>,
    made: Seq<SinkCall>,
    rest: Seq<u8>,
    left: Seq<ReadView>,
)
    requires
        forall|i: int| 0 <= i < es.len() ==> fits(#[trigger] es[i]),
        peer_writes(reads),
        buf + bytes_read(reads) == events_wire(es) + (exit_wire(code) + after),
        watched_with(buf, reads, made, rest, left),
    ensures
        rest + bytes_read(left) == after,
        delivered_front(made, es),
{
    let p = pump(buf, reads, replies_of(made));
    lemma_pump_to_exit(es, code, after, buf, reads, replies_of(made));
    if p.result is Err {
        let k = p.calls.len() as int;
        let later = es.skip(k);
        assert forall|i: int| 0 <= i < later.len() implies fits(#[trigger] later[i]) by {
            assert(later[i] == es[i + k]);
        }
        lemma_pump_to_exit(later, code, after, p.rest, p.reads, Seq::empty());
        lemma_discarding_never_fails(p.rest, p.reads);
    }
}

/// A pump whose sink accepts everything delivers the events in front of an EXIT frame and ends with
/// its code, however the stream is cut.
pub proof fn law_exit_ends_the_pump(
    es: Seq<SinkEvent>,
    code: i32,
    after: Seq<u8>,
    buf: Seq<u8>,
    reads: Seq<ReadView>,
    made: Seq<SinkCall>,
    rest: Seq<u8>,
    left: Seq<ReadView>,
    result: Result<Outcome, PumpError>,
)
    requires
        forall|i: int| 0 <= i < es.len() ==> fits(#[trigger] es[i]),
        peer_writes(reads),
        buf + bytes_read(reads) == events_wire(es) + (exit_wire(code) + after),
        pumped(buf, reads, made, rest, left, result),
    ensures
        delivered_front(made, es),
        made.len() > 0 && made.last().reply is Err ==> result == Err::<Outcome, _>(
            PumpError::Sink(made.last().reply->Err_0),
        ),
        !(made.len() > 0 && made.last().reply is Err) ==> {
            &&& result == Ok::<_, PumpError>(Outcome::Exited(code))
            &&& made.len() == es.len()
            &&& rest + bytes_read(left) == after
        },
{
    lemma_pump_to_exit(es, code, after, buf, reads, replies_of(made));
}

#[verifier::rlimit(50)]
proof fn lemma_drain_to_exit(
    es: Seq<SinkEvent>,
    code: i32,
    after: Seq<u8>,
    buf: Seq<u8>,
    tail: Seq<u8>,
    replies: Seq<Result<(), SinkError>>,
)
    requires
        forall|i: int| 0 <= i < es.len() ==> fits(#[trigger] es[i]),
        buf + tail == events_wire(es) + (exit_wire(code) + after),
    ensures
        ({
            let d = drain(buf, replies);
            let k = d.calls.len() as int;
            &&& k <= es.len()
            &&& forall|i: int| 0 <= i < k ==> (#[trigger] d.calls[i]).event == es[i]
            &&& forall|i: int| 0 <= i < k - 1 ==> (#[trigger] d.calls[i]).reply is Ok
            &&& match d.end {
                None => (k > 0 ==> d.calls[k - 1].reply is Ok) && tail.len() > 0 && d.rest + tail
                    == events_wire(es.skip(k)) + (exit_wire(code) + after),
                Some(Ok(o)) => (k > 0 ==> d.calls[k - 1].reply is Ok) && o == Outcome::Exited(code)
                    && k == es.len() && d.rest + tail == after,
                Some(r) => k > 0 && d.calls[k - 1].reply is Err && r == Err::<Outcome, _>(
                    PumpError::Sink(d.calls[k - 1].reply->Err_0),
                ) && d.rest + tail == events_wire(es.skip(k)) + (exit_wire(code) + after),
            }
        }),
    decreases es.len(),
{
    let d = drain(buf, replies);
    let stop = exit_wire(code) + after;
    let f_exit = FrameView { kind: FrameKind::Exit, payload: ExitCode(code).bytes() };
    law_later_bytes_keep_the_first_frame(buf, tail);
    law_exit_round_trip(ExitCode(code));
    law_written_frame_comes_first(f_exit, after);
    if es.len() == 0 {
        assert(events_wire(es) + stop =~= stop);
        assert(es.skip(0) =~= es);
        if tail.len() == 0 {
            assert(buf + tail =~= buf);
        }
    } else {
        let rest_es = es.skip(1);
        let behind_first = events_wire(rest_es) + stop;
        assert(fits(es[0]));
        lemma_event_is_delivered(es[0]);
        assert(events_wire(es) + stop =~= frame_bytes(event_frame(es[0])) + behind_first);
        law_written_frame_comes_first(event_frame(es[0]), behind_first);
        assert forall|i: int| 0 <= i < rest_es.len() implies fits(#[trigger] rest_es[i]) by {
            assert(rest_es[i] == es[i + 1]);
        }
        match first_frame(buf) {
            Err(e) => {
                assert(false);
            },
            Ok(None) => {
                assert(es.skip(0) =~= es);
                if tail.len() == 0 {
                    assert(buf + tail =~= buf);
                    assert(false);
                }
            },
            Ok(Some((f, rest))) => {
                assert(f == event_frame(es[0]) && rest + tail == behind_first);
                let reply = first_reply(replies);
                let call = SinkCall { event: es[0], reply };
                if reply is Ok {
                    let fewer = behind(replies, 1);
                    lemma_drain_to_exit(rest_es, code, after, rest, tail, fewer);
                    let more = drain(rest, fewer);
                    let k = more.calls.len() as int;
                    assert(d.calls == seq![call] + more.calls);
                    assert forall|i: int| 0 <= i < k + 1 implies (#[trigger] d.calls[i]).event
                        == es[i] by {
                        if i > 0 {
                            assert(d.calls[i] == more.calls[i - 1]);
                            assert(rest_es[i - 1] == es[i]);
                        }
                    }
                    assert forall|i: int| 0 <= i < k implies (#[trigger] d.calls[i]).reply is Ok by {
                        if i > 0 {
                            assert(d.calls[i] == more.calls[i - 1]);
                        }
                    }
                    assert(rest_es.skip(k) =~= es.skip(k + 1));
                    if k > 0 {
                        assert(d.calls[k] == more.calls[k - 1]);
                    }
                }
            },
        }
    }
}

#[verifier::rlimit(50)]
proof fn lemma_pump_to_exit(
    es: Seq<SinkEvent>,
    code: i32,
    after: Seq<u8>,
    buf: Seq<u8>,
    reads: Seq<ReadView>,
    replies: Seq<Result<(), SinkError>>,
)
    requires
        forall|i: int| 0 <= i < es.len() ==> fits(#[trigger] es[i]),
        peer_writes(reads),
        buf + bytes_read(reads) == events_wire(es) + (exit_wire(code) + after),
    ensures
        ({
            let p = pump(buf, reads, replies);
            let k = p.calls.len() as int;
            &&& delivered_front(p.calls, es)
            &&& if k > 0 && p.calls.last().reply is Err {
                &&& p.result == Err::<Outcome, _>(PumpError::Sink(p.calls.last().reply->Err_0))
                &&& peer_writes(p.reads)
                &&& p.rest + bytes_read(p.reads) == events_wire(es.skip(k)) + (exit_wire(code)
                    + after)
            } else {
                &&& p.result == Ok::<_, PumpError>(Outcome::Exited(code))
                &&& p.rest + bytes_read(p.reads) == after
            }
        }),
    decreases reads.len(),
{
    let p = pump(buf, reads, replies);
    let d = drain(buf, replies);
    let k = d.calls.len() as int;
    let tail = bytes_read(reads);
    lemma_drain_to_exit(es, code, after, buf, tail, replies);
    if d.end is None {
        let read = reads[0];
        let fewer = reads.skip(1);
        assert(behind(reads, 1) =~= fewer);
        assert(reads[0] is Interrupted || reads[0] is Bytes && reads[0]->Bytes_0.len() > 0);
        let later_es = es.skip(k);
        assert forall|i: int| 0 <= i < later_es.len() implies fits(#[trigger] later_es[i]) by {
            assert(later_es[i] == es[i + k]);
        }
        assert forall|i: int| 0 <= i < fewer.len() implies (#[trigger] fewer[i]) is Interrupted
            || fewer[i] is Bytes && fewer[i]->Bytes_0.len() > 0 by {
            assert(fewer[i] == reads[i + 1]);
        }
        let now = d.rest + read_bytes(read);
        assert(now + bytes_read(fewer) =~= d.rest + tail);
        let later = behind(replies, d.calls.len());
        lemma_pump_to_exit(later_es, code, after, now, fewer, later);
        let more = pump(now, fewer, later);
        let n = more.calls.len() as int;
        assert(p.calls == d.calls + more.calls);
        assert forall|i: int| 0 <= i < p.calls.len() implies (#[trigger] p.calls[i]).event == es[i] by {
            if i >= k {
                assert(p.calls[i] == more.calls[i - k]);
                assert(later_es[i - k] == es[i]);
            }
        }
        assert forall|i: int| 0 <= i < p.calls.len() - 1 implies (#[trigger] p.calls[i]).reply
            is Ok by {
            if i >= k {
                assert(p.calls[i] == more.calls[i - k]);
            } else {
                assert(p.calls[i] == d.calls[i]);
            }
        }
        assert(later_es.skip(n) =~= es.skip(k + n));
        if n > 0 {
            assert(p.calls.last() == more.calls.last());
        } else if k > 0 {
            assert(p.calls.last() == d.calls[k - 1]);
        }
    }
}

/// A frame that no peer of this protocol writes ends the pump as a protocol error, whatever stands
/// behind it, and nothing of it is delivered: a handshake where none belongs, data without a stream
/// or of a stream that does not exist, and a size or a code that is cut short.
pub proof fn law_malformed_frame_ends_the_pump(
    f: FrameView,
    tail: Seq<u8>,
    replies: Seq<Result<(), SinkError>>,
)
    requires
        f.payload.len() <= MAX_FRAME,
        f.kind == FrameKind::Handshake || f.kind == FrameKind::Data && (f.payload.len() == 0
            || f.payload[0] > 3) || f.kind == FrameKind::Resize && f.payload.len() < 4 || f.kind
            == FrameKind::Exit && f.payload.len() < 4,
    ensures
        ({
            let d = drain(frame_bytes(f) + tail, replies);
            &&& d.calls.len() == 0
            &&& d.end matches Some(Err(PumpError::Protocol(_)))
        }),
{
    law_written_frame_comes_first(f, tail);
}

/// Every other frame is delivered or ends the pump with its code: data to its stream without the
/// byte that tells it, a size as it is, and a code as it is.
pub proof fn law_every_frame_has_its_effect(f: FrameView, tail: Seq<u8>)
    requires
        f.payload.len() <= MAX_FRAME,
    ensures
        ({
            let d = drain(frame_bytes(f) + tail, Seq::empty());
            &&& f.kind == FrameKind::Data && f.payload.len() > 0 && f.payload[0] == 0
                ==> d.calls.len() > 0 && d.calls[0].event == SinkEvent::Data(
                Stream::Pty,
                f.payload.skip(1),
            )
            &&& f.kind == FrameKind::Data && f.payload.len() > 0 && f.payload[0] == 1
                ==> d.calls.len() > 0 && d.calls[0].event == SinkEvent::Data(
                Stream::Stdin,
                f.payload.skip(1),
            )
            &&& f.kind == FrameKind::Data && f.payload.len() > 0 && f.payload[0] == 2
                ==> d.calls.len() > 0 && d.calls[0].event == SinkEvent::Data(
                Stream::Stdout,
                f.payload.skip(1),
            )
            &&& f.kind == FrameKind::Data && f.payload.len() > 0 && f.payload[0] == 3
                ==> d.calls.len() > 0 && d.calls[0].event == SinkEvent::Data(
                Stream::Stderr,
                f.payload.skip(1),
            )
            &&& f.kind == FrameKind::Resize && f.payload.len() >= 4 ==> d.calls.len() > 0
                && d.calls[0].event is Resize
            &&& f.kind == FrameKind::Exit && f.payload.len() >= 4 ==> d.calls.len() == 0 && d.rest
                == tail && (d.end matches Some(Ok(Outcome::Exited(_))))
        }),
{
    law_written_frame_comes_first(f, tail);
}

/// Bytes that cannot be a frame end the pump as a protocol error.
pub proof fn law_garbage_ends_the_pump(b: Seq<u8>, replies: Seq<Result<(), SinkError>>)
    requires
        b.len() >= 5,
        b[0] > 3,
    ensures
        drain(b, replies).calls.len() == 0,
        drain(b, replies).end == Some(
            Err::<Outcome, _>(PumpError::Protocol(ProtocolError::BadFrameKind(b[0]))),
        ),
{
}

/// A read that fails ends the pump with that failure, once what is buffered was dispatched; so does
/// the end of the stream, cleanly on a frame boundary and as a protocol error inside a frame.
pub proof fn law_reads_end_the_pump(
    buf: Seq<u8>,
    e: TransportError,
    reads: Seq<ReadView>,
    replies: Seq<Result<(), SinkError>>,
)
    requires
        drain(buf, replies).end is None,
    ensures
        ({
            let d = drain(buf, replies);
            let failed = pump(buf, seq![ReadView::Failed(e)] + reads, replies);
            let ended = pump(buf, seq![ReadView::Bytes(Seq::empty())] + reads, replies);
            &&& failed.result == Err::<Outcome, _>(PumpError::Transport(e))
            &&& failed.calls == d.calls && failed.reads == reads
            &&& ended.calls == d.calls && ended.reads == reads
            &&& d.rest.len() == 0 ==> ended.result == Ok::<_, PumpError>(Outcome::PeerClosed)
            &&& d.rest.len() > 0 ==> ended.result is Err && ended.result->Err_0 is Protocol
        }),
{
    let a = seq![ReadView::Failed(e)] + reads;
    let b = seq![ReadView::Bytes(Seq::<u8>::empty())] + reads;
    assert(behind(a, 1) =~= reads);
    assert(behind(b, 1) =~= reads);
}

/// Only a failure of the sink itself says nothing of the peer.
pub proof fn law_only_a_sink_failure_leaves_the_peer(e: &PumpError, gone: bool, b: bool)
    requires
        call_ensures(PumpError::peer_gone, (e,), gone),
        call_ensures(keeps_watching, (&Err(*e),), b),
    ensures
        gone <==> *e is Transport || *e is Protocol,
        b <==> !gone,
{
}

} // verus!
