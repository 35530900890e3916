//! probe: the parity checks' results, and the payload that proves the relay byte-transparent.

use vstd::prelude::*;
use vstd::utf8::encode_utf8;
use crate::protocol::{ReadEvent, ReadScript, ReadView, TransportError};
use crate::relay::behind;
use crate::text::{
    CharClass, begins_with, char_lists, chars_of, dec, is_text, is_white, lines, number_in,
    parse_number, push_dec, split_lines, split_words, starts_with, trim_front, trim_start, words,
};

verus! {

/// Outcome of following a symlink. `Skipped`: the link could not even be created, so nothing was
/// tested. `Blocked`: it was created but not followed, which is the one failure.
#[derive(Debug, Clone, Copy, PartialEq, Eq, Structural)]
pub enum SymlinkState {
    Followed,
    Blocked,
    Skipped,
}

/// The state that a word stands for; an unknown one means untested.
pub open spec fn symlink_of(s: Seq<char>) -> SymlinkState {
    if s == "ok"@ {
        SymlinkState::Followed
    } else if s == "blocked"@ {
        SymlinkState::Blocked
    } else {
        SymlinkState::Skipped
    }
}

impl SymlinkState {
    /// The word that stands for the state.
    pub open spec fn word(self) -> Seq<char> {
        match self {
            SymlinkState::Followed => "ok"@,
            SymlinkState::Blocked => "blocked"@,
            SymlinkState::Skipped => "skip"@,
        }
    }

    pub fn as_str(self) -> (s: &'static str)
        ensures
            s@ == self.word(),
    {
        match self {
            SymlinkState::Followed => "ok",
            SymlinkState::Blocked => "blocked",
            SymlinkState::Skipped => "skip",
        }
    }

    fn parse(s: &[char]) -> (r: SymlinkState)
        ensures
            r == symlink_of(s@),
    {
        if is_text(s, "ok") {
            SymlinkState::Followed
        } else if is_text(s, "blocked") {
            SymlinkState::Blocked
        } else {
            SymlinkState::Skipped
        }
    }

    /// Whether this outcome fails parity (only a confirmed block does).
    pub fn is_failure(self) -> (b: bool)
        ensures
            b == (self == SymlinkState::Blocked),
    {
        match self {
            SymlinkState::Blocked => true,
            _ => false,
        }
    }
}

/// The state of a symlink probe from what it could do: make the file and its link, and read back
/// through the link what the file holds.
pub fn symlink_state(made_file: bool, made_link: bool, read_back: bool) -> (s: SymlinkState)
    ensures
        s == if !made_file || !made_link {
            SymlinkState::Skipped
        } else if read_back {
            SymlinkState::Followed
        } else {
            SymlinkState::Blocked
        },
{
    if !made_file || !made_link {
        SymlinkState::Skipped
    } else if read_back {
        SymlinkState::Followed
    } else {
        SymlinkState::Blocked
    }
}

#[derive(Debug, Clone, Copy, PartialEq, Eq, Structural)]
pub struct ProbeResult {
    pub session_id: u32,
    pub dpapi_ok: bool,
    pub symlink: SymlinkState,
    /// Whether the payload that was sent to the child reached it unchanged. Only the child can
    /// see what arrived.
    pub upstream_ok: bool,
}

/// Outcome of the check of what was sent to the child. `Absent`, an old child that reports
/// nothing, is not proven either, but the remedy is another.
#[derive(Debug, Clone, Copy, PartialEq, Eq, Structural)]
pub enum UpstreamState {
    Intact,
    Fail,
    Absent,
}

impl UpstreamState {
    /// Proven intact: only `Intact` passes.
    pub fn proven(self) -> (b: bool)
        ensures
            b == (self == UpstreamState::Intact),
    {
        match self {
            UpstreamState::Intact => true,
            _ => false,
        }
    }

    pub open spec fn detail_text(self) -> Seq<char> {
        match self {
            UpstreamState::Intact => Seq::empty(),
            UpstreamState::Fail =>
            "the payload verify sent upstream did not reach the child intact"@,
            UpstreamState::Absent =>
            "the installed probe child predates this check and reported nothing \u{2014} re-run `apply` (stop the agent first: it cannot replace the exe while the agent holds it open)"@,
        }
    }

    /// What verify's row says.
    pub fn detail(self) -> (s: String)
        ensures
            s@ == self.detail_text(),
    {
        match self {
            UpstreamState::Intact => String::new(),
            UpstreamState::Fail =>
            "the payload verify sent upstream did not reach the child intact".to_owned(),
            UpstreamState::Absent =>
            "the installed probe child predates this check and reported nothing \u{2014} re-run `apply` (stop the agent first: it cannot replace the exe while the agent holds it open)".to_owned(),
        }
    }
}

// The payload.

/// `BINPROBE<`
pub open spec fn open_marker() -> Seq<u8> {
    seq![0x42u8, 0x49, 0x4e, 0x50, 0x52, 0x4f, 0x42, 0x45, 0x3c]
}

/// `>BINPROBE`
pub open spec fn close_marker() -> Seq<u8> {
    seq![0x3eu8, 0x42, 0x49, 0x4e, 0x50, 0x52, 0x4f, 0x42, 0x45]
}

/// Every byte value, in ascending order.
pub open spec fn payload() -> Seq<u8> {
    Seq::new(256, |i: int| i as u8)
}

fn open_bytes() -> (b: [u8; 9])
    ensures
        b@ == open_marker(),
{
    let b: [u8; 9] = [0x42, 0x49, 0x4e, 0x50, 0x52, 0x4f, 0x42, 0x45, 0x3c];
    assert(b@ =~= open_marker());
    b
}

fn close_bytes() -> (b: [u8; 9])
    ensures
        b@ == close_marker(),
{
    let b: [u8; 9] = [0x3e, 0x42, 0x49, 0x4e, 0x50, 0x52, 0x4f, 0x42, 0x45];
    assert(b@ =~= close_marker());
    b
}

/// The payload the probe child writes and `verify` checks: every one of the 256 byte values, so
/// that the zero, the highest, a lone CR, a lone LF and invalid UTF-8 all have to survive.
pub fn binary_probe_payload() -> (p: Vec<u8>)
    ensures
        p@ == payload(),
{
    let mut p: Vec<u8> = Vec::new();
    let mut i: u32 = 0;
    while i < 256
        invariant
            i <= 256,
            p@ =~= payload().take(i as int),
        decreases 256 - i,
    {
        p.push(i as u8);
        i += 1;
    }
    assert(p@ =~= payload());
    p
}

/// The bracketed payload, with a line feed so that what follows starts cleanly.
pub open spec fn emitted() -> Seq<u8> {
    open_marker() + payload() + close_marker() + seq![0x0au8]
}

/// Write the bracketed payload.
pub fn emit_binary_probe(w: &mut Vec<u8>)
    ensures
        final(w)@ == old(w)@ + emitted(),
{
    let front: [u8; 9] = open_bytes();
    let middle: Vec<u8> = binary_probe_payload();
    let back: [u8; 9] = close_bytes();
    w.extend_from_slice(&front);
    w.extend_from_slice(middle.as_slice());
    w.extend_from_slice(&back);
    w.push(0x0a);
    assert(w@ =~= old(w)@ + emitted());
}

/// Whether bytes stand in others at a position.
pub open spec fn bytes_at(h: Seq<u8>, n: Seq<u8>, i: int) -> bool {
    0 <= i && i + n.len() <= h.len() && h.subrange(i, i + n.len()) == n
}

/// Where bytes stand first in others, from position `i` on.
pub open spec fn find_from(h: Seq<u8>, n: Seq<u8>, i: int) -> Option<int>
    decreases h.len() + 1 - i,
{
    if i + n.len() > h.len() {
        None
    } else if bytes_at(h, n, i) {
        Some(i)
    } else {
        find_from(h, n, i + 1)
    }
}

/// Whether two byte strings are the same.
fn same_bytes(a: &[u8], b: &[u8]) -> (same: bool)
    ensures
        same == (a@ == b@),
{
    if a.len() != b.len() {
        return false;
    }
    let mut i: usize = 0;
    while i < a.len()
        invariant
            a@.len() == b@.len(),
            i <= a@.len(),
            forall|j: int| 0 <= j < i ==> a@[j] == b@[j],
        decreases a@.len() - i,
    {
        if a[i] != b[i] {
            return false;
        }
        i += 1;
    }
    assert(a@ =~= b@);
    true
}

fn find_bytes(haystack: &[u8], needle: &[u8]) -> (r: Option<usize>)
    requires
        needle@.len() > 0,
    ensures
        match find_from(haystack@, needle@, 0) {
            Some(i) => r is Some && r->0 == i,
            None => r is None,
        },
        r is Some ==> bytes_at(haystack@, needle@, r->0 as int),
{
    let total: usize = haystack.len();
    let width: usize = needle.len();
    if total < width {
        return None;
    }
    let last: usize = total - width;
    let mut i: usize = 0;
    while i <= last
        invariant
            total == haystack@.len(),
            width == needle@.len(),
            width > 0,
            last == total - width,
            i <= last + 1,
            find_from(haystack@, needle@, 0) == find_from(haystack@, needle@, i as int),
        decreases last + 1 - i,
    {
        let here: &[u8] = vstd::slice::slice_subrange(haystack, i, i + width);
        if same_bytes(here, needle) {
            assert(bytes_at(haystack@, needle@, i as int));
            return Some(i);
        }
        i += 1;
    }
    None
}

/// The bytes between the first opening marker and the first closing one behind it.
pub open spec fn extracted(stdout: Seq<u8>) -> Option<Seq<u8>> {
    match find_from(stdout, open_marker(), 0) {
        None => None,
        Some(i) => {
            let rest = stdout.skip(i + 9);
            match find_from(rest, close_marker(), 0) {
                None => None,
                Some(j) => Some(rest.take(j)),
            }
        },
    }
}

/// Whether the payload crossed the agent, the child's pipes and the relay byte for byte. A
/// missing or truncated marker is a failure.
pub fn binary_probe_ok(stdout: &[u8]) -> (ok: bool)
    ensures
        ok == (extracted(stdout@) == Some(payload())),
{
    let front: [u8; 9] = open_bytes();
    let back: [u8; 9] = close_bytes();
    let total: usize = stdout.len();
    match find_bytes(stdout, &front) {
        None => false,
        Some(i) => {
            assert(i + open_marker().len() <= total);
            let rest: &[u8] = vstd::slice::slice_subrange(stdout, i + 9, total);
            assert(rest@ =~= stdout@.skip(i + 9));
            match find_bytes(rest, &back) {
                None => false,
                Some(j) => {
                    let got: &[u8] = vstd::slice::slice_subrange(rest, 0, j);
                    assert(got@ =~= rest@.take(j as int));
                    let want: Vec<u8> = binary_probe_payload();
                    same_bytes(got, want.as_slice())
                },
            }
        },
    }
}

/// Everything that a script of reads hands out before its end, or why it cannot be read.
pub open spec fn read_all(reads: Seq<ReadView>) -> Result<Seq<u8>, TransportError>
    decreases reads.len(),
{
    if reads.len() == 0 {
        Ok(Seq::empty())
    } else {
        match reads[0] {
            ReadView::Failed(e) => Err(e),
            ReadView::Interrupted(_) => read_all(behind(reads, 1)),
            ReadView::Bytes(b) => if b.len() == 0 {
                Ok(Seq::empty())
            } else {
                match read_all(behind(reads, 1)) {
                    Ok(rest) => Ok(b + rest),
                    Err(e) => Err(e),
                }
            },
        }
    }
}

/// The reads that are left once a script was read to its end or to a failure.
pub open spec fn reads_left(reads: Seq<ReadView>) -> Seq<ReadView>
    decreases reads.len(),
{
    if reads.len() == 0 {
        reads
    } else {
        match reads[0] {
            ReadView::Failed(_) => behind(reads, 1),
            ReadView::Interrupted(_) => reads_left(behind(reads, 1)),
            ReadView::Bytes(b) => if b.len() == 0 {
                behind(reads, 1)
            } else {
                reads_left(behind(reads, 1))
            },
        }
    }
}

/// Whether what arrived on the probe child's stdin is the payload that was sent to it. A short
/// or empty read is not; a read error is reported, not taken for an intact arrival.
pub fn upstream_payload_ok(r: &mut ReadScript) -> (res: Result<bool, TransportError>)
    ensures
        match read_all(old(r)@) {
            Ok(got) => res == Ok::<_, TransportError>(got == payload()),
            Err(e) => res == Err::<bool, _>(e),
        },
        final(r)@ == reads_left(old(r)@),
{
    let mut got: Vec<u8> = Vec::new();
    let ghost reads0 = r@;
    loop
        invariant
            reads0 == old(r)@,
            match read_all(r@) {
                Ok(rest) => read_all(reads0) == Ok::<_, TransportError>(got@ + rest),
                Err(e) => read_all(reads0) == Err::<Seq<u8>, _>(e),
            },
            reads_left(reads0) == reads_left(r@),
        decreases r@.len(),
    {
        let ghost reads = r@;
        if r.remaining() == 0 {
            assert(got@ + Seq::<u8>::empty() =~= got@);
            return Ok(arrived_intact(got.as_slice()));
        }
        let event: ReadEvent = r.read();
        assert(r@ =~= behind(reads, 1));
        match event {
            ReadEvent::Failed(e) => {
                return Err(e);
            },
            ReadEvent::Interrupted(_) => {},
            ReadEvent::Bytes(b) => {
                if b.len() == 0 {
                    assert(got@ + Seq::<u8>::empty() =~= got@);
                    return Ok(arrived_intact(got.as_slice()));
                }
                let ghost before = got@;
                got.extend_from_slice(b.as_slice());
                proof {
                    assert(got@ =~= before + b@);
                    if let Ok(rest) = read_all(r@) {
                        assert(before + (b@ + rest) =~= got@ + rest);
                    }
                }
            },
        }
    }
}

/// Whether bytes are the payload.
pub fn arrived_intact(got: &[u8]) -> (ok: bool)
    ensures
        ok == (got@ == payload()),
{
    let want: Vec<u8> = binary_probe_payload();
    same_bytes(got, want.as_slice())
}

// The probe line.

/// The word for a check.
pub open spec fn verdict(ok: bool) -> Seq<char> {
    if ok {
        "ok"@
    } else {
        "fail"@
    }
}

/// The line that reports a probe.
pub open spec fn probe_line(
    session_id: u32,
    dpapi_ok: bool,
    symlink: SymlinkState,
    upstream_ok: bool,
) -> Seq<char> {
    "PROBE session_id="@ + dec(session_id as nat) + " dpapi="@ + verdict(dpapi_ok) + " symlink="@
        + symlink.word() + " upstream="@ + verdict(upstream_ok)
}

/// The single line `verify-probe` prints.
pub fn format_probe_line(
    session_id: u32,
    dpapi_ok: bool,
    symlink: SymlinkState,
    upstream_ok: bool,
) -> (line: String)
    ensures
        line@ == probe_line(session_id, dpapi_ok, symlink, upstream_ok),
{
    let mut line: String = "PROBE session_id=".to_owned();
    push_dec(&mut line, session_id as u64);
    line.append(" dpapi=");
    line.append(
        if dpapi_ok {
            "ok"
        } else {
            "fail"
        },
    );
    line.append(" symlink=");
    line.append(symlink.as_str());
    line.append(" upstream=");
    line.append(
        if upstream_ok {
            "ok"
        } else {
            "fail"
        },
    );
    line
}

/// A report as it is read: what the words say, and whether there is one about the upload at all.
#[derive(Debug, Clone, Copy, PartialEq, Eq, Structural)]
pub struct ProbeReport {
    pub session_id: u32,
    pub dpapi_ok: bool,
    pub symlink: SymlinkState,
    pub upstream: UpstreamState,
}

/// What a report says where nothing is reported: nothing is proven, and the symlink untested.
pub open spec fn empty_report() -> ProbeReport {
    ProbeReport {
        session_id: 0,
        dpapi_ok: false,
        symlink: SymlinkState::Skipped,
        upstream: UpstreamState::Absent,
    }
}

/// The report after one more word. Unknown words are ignored.
pub open spec fn with_word(r: ProbeReport, w: Seq<char>) -> ProbeReport {
    if begins_with(w, "session_id="@) {
        ProbeReport {
            session_id: match number_in(w.skip("session_id="@.len() as int), u32::MAX as nat) {
                Some(n) => n as u32,
                None => 0,
            },
            ..r
        }
    } else if begins_with(w, "dpapi="@) {
        ProbeReport { dpapi_ok: w.skip("dpapi="@.len() as int) == "ok"@, ..r }
    } else if begins_with(w, "symlink="@) {
        ProbeReport { symlink: symlink_of(w.skip("symlink="@.len() as int)), ..r }
    } else if begins_with(w, "upstream="@) {
        ProbeReport {
            upstream: if w.skip("upstream="@.len() as int) == "ok"@ {
                UpstreamState::Intact
            } else {
                UpstreamState::Fail
            },
            ..r
        }
    } else {
        r
    }
}

/// The report of words, in order.
pub open spec fn report_of(ws: Seq<Seq<char>>) -> ProbeReport
    decreases ws.len(),
{
    if ws.len() == 0 {
        empty_report()
    } else {
        with_word(report_of(ws.drop_last()), ws.last())
    }
}

/// Whether a line is a probe line.
pub open spec fn is_probe_line(line: Seq<char>) -> bool {
    begins_with(trim_front(line, CharClass::Whitespace), "PROBE "@)
}

/// The report of the first probe line from line `i` on.
pub open spec fn report_from(ls: Seq<Seq<char>>, i: int) -> Option<ProbeReport>
    decreases ls.len() - i,
{
    if i >= ls.len() {
        None
    } else if is_probe_line(ls[i]) {
        Some(report_of(words(ls[i])))
    } else {
        report_from(ls, i + 1)
    }
}

/// There is no probe line in the output.
#[derive(Debug, Clone, Copy, PartialEq, Eq, Structural)]
pub struct NoProbeLine;

impl NoProbeLine {
    pub fn message(&self) -> (s: String)
        ensures
            s@ == "no PROBE line in probe output"@,
    {
        "no PROBE line in probe output".to_owned()
    }
}

fn rest_of<'a>(w: &'a [char], n: usize) -> (r: &'a [char])
    requires
        n <= w@.len(),
    ensures
        r@ == w@.skip(n as int),
{
    let r: &[char] = vstd::slice::slice_subrange(w, n, w.len());
    assert(r@ =~= w@.skip(n as int));
    r
}

fn add_word(r: ProbeReport, w: &[char]) -> (n: ProbeReport)
    ensures
        n == with_word(r, w@),
{
    proof {
        reveal_strlit("session_id=");
        reveal_strlit("dpapi=");
        reveal_strlit("symlink=");
        reveal_strlit("upstream=");
    }
    let mut n: ProbeReport = r;
    if starts_with(w, "session_id=") {
        n.session_id = match parse_number(rest_of(w, 11), u32::MAX as u64) {
            Some(x) => x as u32,
            None => 0,
        };
    } else if starts_with(w, "dpapi=") {
        n.dpapi_ok = is_text(rest_of(w, 6), "ok");
    } else if starts_with(w, "symlink=") {
        n.symlink = SymlinkState::parse(rest_of(w, 8));
    } else if starts_with(w, "upstream=") {
        n.upstream = if is_text(rest_of(w, 9), "ok") {
            UpstreamState::Intact
        } else {
            UpstreamState::Fail
        };
    }
    n
}

fn read_words(line: &[char]) -> (r: ProbeReport)
    ensures
        r == report_of(words(line@)),
{
    let ws: Vec<Vec<char>> = split_words(line);
    let ghost all = char_lists(ws@);
    let mut r: ProbeReport = ProbeReport {
        session_id: 0,
        dpapi_ok: false,
        symlink: SymlinkState::Skipped,
        upstream: UpstreamState::Absent,
    };
    let mut i: usize = 0;
    assert(all.take(0) =~= Seq::<Seq<char>>::empty());
    while i < ws.len()
        invariant
            i <= ws@.len(),
            all == char_lists(ws@),
            r == report_of(all.take(i as int)),
        decreases ws@.len() - i,
    {
        proof {
            let now = all.take(i + 1);
            assert(now.drop_last() =~= all.take(i as int));
            assert(now.last() == ws@[i as int]@);
        }
        r = add_word(r, ws[i].as_slice());
        i += 1;
    }
    assert(all.take(i as int) =~= all);
    r
}

/// Parse the probe line out of the child's output, tolerant of noise around it, and say what it
/// reports of the upload.
pub fn parse_probe_report(stdout: &str) -> (res: Result<ProbeReport, NoProbeLine>)
    ensures
        res == match report_from(lines(stdout@), 0) {
            Some(r) => Ok(r),
            None => Err(NoProbeLine),
        },
{
    let text: Vec<char> = chars_of(stdout);
    let ls: Vec<Vec<char>> = split_lines(text.as_slice());
    let ghost all = char_lists(ls@);
    let mut i: usize = 0;
    while i < ls.len()
        invariant
            i <= ls@.len(),
            all == char_lists(ls@),
            all == lines(stdout@),
            report_from(all, 0) == report_from(all, i as int),
        decreases ls@.len() - i,
    {
        assert(all[i as int] == ls@[i as int]@);
        let line: &[char] = ls[i].as_slice();
        if starts_with(trim_start(line, CharClass::Whitespace), "PROBE ") {
            return Ok(read_words(line));
        }
        i += 1;
    }
    Err(NoProbeLine)
}

/// Parse the probe line out of the child's output. A missing line is an error; a missing `dpapi`
/// or `upstream` reads as failed and a missing session as 0, so that nothing is taken for proven
/// that was not reported; a missing symlink is untested.
pub fn parse_probe_line(stdout: &str) -> (res: Result<ProbeResult, NoProbeLine>)
    ensures
        res == match report_from(lines(stdout@), 0) {
            Some(r) => Ok(
                ProbeResult {
                    session_id: r.session_id,
                    dpapi_ok: r.dpapi_ok,
                    symlink: r.symlink,
                    upstream_ok: r.upstream == UpstreamState::Intact,
                },
            ),
            None => Err(NoProbeLine),
        },
{
    match parse_probe_report(stdout) {
        Ok(r) => Ok(
            ProbeResult {
                session_id: r.session_id,
                dpapi_ok: r.dpapi_ok,
                symlink: r.symlink,
                upstream_ok: r.upstream.proven(),
            },
        ),
        Err(e) => Err(e),
    }
}

/// Whether a secret survived being protected and unprotected again; it did not where either
/// failed.
pub fn dpapi_roundtrip(sample: &[u8], round: Option<Vec<u8>>) -> (ok: bool)
    ensures
        ok == (round is Some && round->0@ == sample@),
{
    match round {
        Some(r) => same_bytes(r.as_slice(), sample),
        None => false,
    }
}

/// What the probe child writes and how it ends.
#[derive(Debug)]
pub struct ProbeEnd {
    pub stdout: Vec<u8>,
    pub code: i32,
}

/// The output of the probe child: the payload, then the probe line; and its code, 0 if its session
/// is at parity and 1 if not. The upload does not count for the code, because it is told in the
/// line.
pub fn probe_end(
    session_id: u32,
    dpapi_ok: bool,
    symlink: SymlinkState,
    upstream_ok: bool,
) -> (end: ProbeEnd)
    ensures
        end.stdout@ == emitted() + encode_utf8(
            probe_line(session_id, dpapi_ok, symlink, upstream_ok),
        ) + seq![0x0au8],
        end.code == if session_id != 0 && dpapi_ok && symlink != SymlinkState::Blocked {
            0i32
        } else {
            1i32
        },
{
    let mut stdout: Vec<u8> = Vec::new();
    emit_binary_probe(&mut stdout);
    let line: String = format_probe_line(session_id, dpapi_ok, symlink, upstream_ok);
    stdout.extend_from_slice(line.as_str().as_bytes());
    stdout.push(0x0a);
    assert(stdout@ =~= emitted() + encode_utf8(line@) + seq![0x0au8]);
    let code: i32 = if parity(session_id, dpapi_ok, symlink) {
        0
    } else {
        1
    };
    ProbeEnd { stdout, code }
}

/// Whether a session is at parity: it is not session 0, its secrets work, and no symlink was
/// blocked.
pub fn parity(session_id: u32, dpapi_ok: bool, symlink: SymlinkState) -> (ok: bool)
    ensures
        ok == (session_id != 0 && dpapi_ok && symlink != SymlinkState::Blocked),
{
    session_id != 0 && dpapi_ok && !symlink.is_failure()
}

// Laws.

/// The markers cannot be mistaken for the payload: neither stands anywhere in it.
pub proof fn law_markers_are_not_in_the_payload(i: int)
    ensures
        !bytes_at(payload(), open_marker(), i),
        !bytes_at(payload(), close_marker(), i),
{
    let p = payload();
    if bytes_at(p, open_marker(), i) {
        assert(p.subrange(i, i + 9)[0] == p[i]);
        assert(p.subrange(i, i + 9)[1] == p[i + 1]);
    }
    if bytes_at(p, close_marker(), i) {
        assert(p.subrange(i, i + 9)[0] == p[i]);
        assert(p.subrange(i, i + 9)[1] == p[i + 1]);
    }
}

proof fn lemma_find_is(h: Seq<u8>, n: Seq<u8>, i: int, at: int)
    requires
        0 <= i <= at,
        bytes_at(h, n, at),
        forall|j: int| i <= j < at ==> !bytes_at(h, n, j),
    ensures
        find_from(h, n, i) == Some(at),
    decreases at - i,
{
    if i < at {
        assert(!bytes_at(h, n, i));
        lemma_find_is(h, n, i + 1, at);
    }
}

proof fn lemma_find_is_first(h: Seq<u8>, n: Seq<u8>, i: int, at: int)
    requires
        0 <= i <= at,
        bytes_at(h, n, at),
    ensures
        find_from(h, n, i) is Some,
        i <= find_from(h, n, i)->0 <= at,
    decreases at - i,
{
    if i < at && !bytes_at(h, n, i) {
        lemma_find_is_first(h, n, i + 1, at);
    }
}

/// What was emitted is found intact, whatever follows it, and whatever precedes it that does not
/// make up an opening marker.
pub proof fn law_emitted_probe_is_intact(before: Seq<u8>, after: Seq<u8>)
    requires
        forall|i: int| 0 <= i < before.len() ==> !#[trigger] bytes_at(
            before + emitted(),
            open_marker(),
            i,
        ),
    ensures
        extracted(before + emitted() + after) == Some(payload()),
{
    let out = before + emitted() + after;
    let n = before.len() as int;
    assert(out.subrange(n, n + 9) =~= open_marker());
    assert forall|i: int| 0 <= i < n implies !#[trigger] bytes_at(out, open_marker(), i) by {
        if bytes_at(out, open_marker(), i) {
            assert(out.subrange(i, i + 9) =~= (before + emitted()).subrange(i, i + 9));
            assert(bytes_at(before + emitted(), open_marker(), i));
        }
    }
    lemma_find_is(out, open_marker(), 0, n);
    let rest = out.skip(n + 9);
    let tail = close_marker() + seq![0x0au8] + after;
    assert(rest =~= payload() + tail);
    assert(rest.subrange(256, 265) =~= close_marker());
    assert forall|j: int| 0 <= j < 256 implies !#[trigger] bytes_at(rest, close_marker(), j) by {
        lemma_no_early_close(tail, j);
    }
    lemma_find_is(rest, close_marker(), 0, 256);
    assert(rest.take(256) =~= payload());
}

/// The closing marker does not begin inside the payload: it would have to hold two bytes that do
/// not follow each other, or begin with the payload's last byte.
proof fn lemma_no_early_close(tail: Seq<u8>, j: int)
    requires
        0 <= j < 256,
    ensures
        !bytes_at(payload() + tail, close_marker(), j),
{
    let h = payload() + tail;
    if bytes_at(h, close_marker(), j) {
        assert(h.subrange(j, j + 9)[0] == h[j]);
        assert(h.subrange(j, j + 9)[1] == h[j + 1]);
        assert(h[j] == payload()[j]);
        if j + 1 < 256 {
            assert(h[j + 1] == payload()[j + 1]);
        }
    }
}

/// Any damage to the payload is noticed: 256 other bytes between the markers are not accepted,
/// however little they differ.
pub proof fn law_damage_is_noticed(got: Seq<u8>, after: Seq<u8>)
    requires
        got.len() == 256,
        got != payload(),
    ensures
        extracted(open_marker() + got + close_marker() + after) != Some(payload()),
{
    let out = open_marker() + got + close_marker() + after;
    assert(out.subrange(0, 9) =~= open_marker());
    lemma_find_is(out, open_marker(), 0, 0);
    let rest = out.skip(9);
    assert(rest =~= got + (close_marker() + after));
    assert(rest.subrange(256, 265) =~= close_marker());
    lemma_find_is_first(rest, close_marker(), 0, 256);
    let j = find_from(rest, close_marker(), 0)->0;
    if j == 256 {
        assert(rest.take(256) =~= got);
    } else {
        assert(rest.take(j).len() == j);
        assert(payload().len() == 256);
    }
}

/// Output without an opening marker proves nothing.
pub proof fn law_missing_marker_is_a_failure(out: Seq<u8>)
    requires
        forall|i: int| !#[trigger] bytes_at(out, open_marker(), i),
    ensures
        extracted(out) is None,
{
    lemma_find_nothing(out, open_marker(), 0);
}

proof fn lemma_find_nothing(h: Seq<u8>, n: Seq<u8>, i: int)
    requires
        forall|j: int| !#[trigger] bytes_at(h, n, j),
    ensures
        find_from(h, n, i) is None,
    decreases h.len() + 1 - i,
{
    if i + n.len() <= h.len() {
        assert(!bytes_at(h, n, i));
        lemma_find_nothing(h, n, i + 1);
    }
}

/// A probe line that was written reads back as what it reports.
pub proof fn law_probe_line_round_trip(
    session_id: u32,
    dpapi_ok: bool,
    symlink: SymlinkState,
    upstream_ok: bool,
)
    ensures
        report_from(lines(probe_line(session_id, dpapi_ok, symlink, upstream_ok)), 0) == Some(
            ProbeReport {
                session_id,
                dpapi_ok,
                symlink,
                upstream: if upstream_ok {
                    UpstreamState::Intact
                } else {
                    UpstreamState::Fail
                },
            },
        ),
{
    let line = probe_line(session_id, dpapi_ok, symlink, upstream_ok);
    lemma_line_words(session_id, dpapi_ok, symlink, upstream_ok);
    crate::text::law_one_line(line);
    lemma_line_report(session_id, dpapi_ok, symlink, upstream_ok);
    assert(lines(line)[0] == line);
}

/// The words of a probe line.
spec fn line_words(
    session_id: u32,
    dpapi_ok: bool,
    symlink: SymlinkState,
    upstream_ok: bool,
) -> Seq<Seq<char>> {
    seq![
        "PROBE"@,
        "session_id="@ + dec(session_id as nat),
        "dpapi="@ + verdict(dpapi_ok),
        "symlink="@ + symlink.word(),
        "upstream="@ + verdict(upstream_ok),
    ]
}

proof fn lemma_dec_chars(n: nat)
    ensures
        dec(n).len() > 0,
        forall|i: int| 0 <= i < dec(n).len() ==> '0' <= (#[trigger] dec(n)[i]) <= '9',
    decreases n,
{
    if n >= 10 {
        lemma_dec_chars(n / 10);
    }
}

/// Text that is one word.
spec fn one_word(w: Seq<char>) -> bool {
    w.len() > 0 && forall|i: int| 0 <= i < w.len() ==> !is_white(#[trigger] w[i])
}

#[verifier::rlimit(50)]
proof fn lemma_five_words(
    w0: Seq<char>,
    w1: Seq<char>,
    w2: Seq<char>,
    w3: Seq<char>,
    w4: Seq<char>,
)
    requires
        one_word(w0),
        one_word(w1),
        one_word(w2),
        one_word(w3),
        one_word(w4),
    ensures
        ({
            let sp = seq![' '];
            let line = w0 + sp + (w1 + sp + (w2 + sp + (w3 + sp + w4)));
            &&& words(line) == seq![w0, w1, w2, w3, w4]
            &&& forall|i: int| 0 <= i < line.len() ==> (#[trigger] line[i]) != '\n'
        }),
{
    let sp = seq![' '];
    let t3 = w3 + sp + w4;
    let t2 = w2 + sp + t3;
    let t1 = w1 + sp + t2;
    let line = w0 + sp + t1;
    crate::text::law_first_word(w0, t1);
    crate::text::law_first_word(w1, t2);
    crate::text::law_first_word(w2, t3);
    crate::text::law_first_word(w3, w4);
    crate::text::law_first_word(w4, Seq::empty());
    assert(words(line) =~= seq![w0, w1, w2, w3, w4]);
    lemma_no_newline(w3, w4);
    lemma_no_newline(w2, t3);
    lemma_no_newline(w1, t2);
    lemma_no_newline(w0, t1);
}

proof fn lemma_no_newline(w: Seq<char>, t: Seq<char>)
    requires
        one_word(w),
        one_word(t) || forall|i: int| 0 <= i < t.len() ==> (#[trigger] t[i]) != '\n',
    ensures
        forall|i: int|
            0 <= i < (w + seq![' '] + t).len() ==> (#[trigger] (w + seq![' '] + t)[i]) != '\n',
{
    let all = w + seq![' '] + t;
    assert forall|i: int| 0 <= i < all.len() implies (#[trigger] all[i]) != '\n' by {
        if i < w.len() {
            assert(all[i] == w[i]);
        } else if i == w.len() {
            assert(all[i] == ' ');
        } else {
            assert(all[i] == t[i - w.len() - 1]);
        }
    }
}

#[verifier::rlimit(50)]
proof fn lemma_line_is_words(
    session_id: u32,
    dpapi_ok: bool,
    symlink: SymlinkState,
    upstream_ok: bool,
)
    ensures
        ({
            let sp = seq![' '];
            let w = line_words(session_id, dpapi_ok, symlink, upstream_ok);
            &&& one_word(w[0]) && one_word(w[1]) && one_word(w[2]) && one_word(w[3]) && one_word(
                w[4],
            )
            &&& probe_line(session_id, dpapi_ok, symlink, upstream_ok) == w[0] + sp + (w[1] + sp + (
            w[2] + sp + (w[3] + sp + w[4])))
        }),
{
    reveal_strlit("PROBE session_id=");
    reveal_strlit("PROBE");
    reveal_strlit("session_id=");
    reveal_strlit(" dpapi=");
    reveal_strlit("dpapi=");
    reveal_strlit(" symlink=");
    reveal_strlit("symlink=");
    reveal_strlit(" upstream=");
    reveal_strlit("upstream=");
    reveal_strlit("ok");
    reveal_strlit("fail");
    reveal_strlit("blocked");
    reveal_strlit("skip");
    lemma_dec_chars(session_id as nat);
    let sp = seq![' '];
    let w = line_words(session_id, dpapi_ok, symlink, upstream_ok);
    assert("PROBE session_id="@ =~= "PROBE"@ + sp + "session_id="@);
    assert(" dpapi="@ =~= sp + "dpapi="@);
    assert(" symlink="@ =~= sp + "symlink="@);
    assert(" upstream="@ =~= sp + "upstream="@);
    assert(probe_line(session_id, dpapi_ok, symlink, upstream_ok) =~= w[0] + sp + (w[1] + sp + (w[2]
        + sp + (w[3] + sp + w[4]))));
}

proof fn lemma_line_words(
    session_id: u32,
    dpapi_ok: bool,
    symlink: SymlinkState,
    upstream_ok: bool,
)
    ensures
        ({
            let line = probe_line(session_id, dpapi_ok, symlink, upstream_ok);
            &&& words(line) == line_words(session_id, dpapi_ok, symlink, upstream_ok)
            &&& line.len() > 0
            &&& forall|i: int| 0 <= i < line.len() ==> (#[trigger] line[i]) != '\n'
            &&& is_probe_line(line)
        }),
{
    let w = line_words(session_id, dpapi_ok, symlink, upstream_ok);
    let line = probe_line(session_id, dpapi_ok, symlink, upstream_ok);
    lemma_line_is_words(session_id, dpapi_ok, symlink, upstream_ok);
    lemma_five_words(w[0], w[1], w[2], w[3], w[4]);
    assert(words(line) =~= w);
    reveal_strlit("PROBE");
    reveal_strlit("PROBE ");
    assert(line[0] == 'P');
    assert(trim_front(line, CharClass::Whitespace) == line);
    assert(line.take(6) =~= "PROBE "@);
}

proof fn lemma_line_report(
    session_id: u32,
    dpapi_ok: bool,
    symlink: SymlinkState,
    upstream_ok: bool,
)
    ensures
        report_of(line_words(session_id, dpapi_ok, symlink, upstream_ok)) == (ProbeReport {
            session_id,
            dpapi_ok,
            symlink,
            upstream: if upstream_ok {
                UpstreamState::Intact
            } else {
                UpstreamState::Fail
            },
        }),
{
    reveal_strlit("PROBE");
    reveal_strlit("session_id=");
    reveal_strlit("dpapi=");
    reveal_strlit("symlink=");
    reveal_strlit("upstream=");
    reveal_strlit("ok");
    reveal_strlit("fail");
    reveal_strlit("blocked");
    reveal_strlit("skip");
    let ws = line_words(session_id, dpapi_ok, symlink, upstream_ok);
    let w1 = ws[1];
    let w2 = ws[2];
    let w3 = ws[3];
    let w4 = ws[4];
    assert(ws.take(5) =~= ws);
    assert(ws.take(5).drop_last() =~= ws.take(4));
    assert(ws.take(4).drop_last() =~= ws.take(3));
    assert(ws.take(3).drop_last() =~= ws.take(2));
    assert(ws.take(2).drop_last() =~= ws.take(1));
    assert(ws.take(1).drop_last() =~= Seq::<Seq<char>>::empty());
    assert(report_of(Seq::<Seq<char>>::empty()) == empty_report());
    assert(report_of(ws.take(1)) == empty_report());
    // The session.
    assert(w1.take(11) =~= "session_id="@);
    assert(w1.skip(11) =~= dec(session_id as nat));
    crate::text::law_decimal_round_trip(session_id as nat, u32::MAX as nat);
    assert(report_of(ws.take(2)) == (ProbeReport { session_id, ..empty_report() }));
    // The secrets.
    assert(w2.take(6) =~= "dpapi="@);
    assert(w2.skip(6) =~= verdict(dpapi_ok));
    assert("ok"@.len() == 2 && "fail"@.len() == 4);
    assert(report_of(ws.take(3)) == (ProbeReport { session_id, dpapi_ok, ..empty_report() }));
    // The symlink.
    assert(!begins_with(w3, "session_id="@)) by {
        if begins_with(w3, "session_id="@) {
            assert(w3.take(11)[1] == w3[1]);
        }
    }
    assert(!begins_with(w3, "dpapi="@)) by {
        if begins_with(w3, "dpapi="@) {
            assert(w3.take(6)[0] == w3[0]);
        }
    }
    assert(w3.take(8) =~= "symlink="@);
    assert(w3.skip(8) =~= symlink.word());
    assert("blocked"@.len() == 7 && "skip"@.len() == 4);
    assert(symlink_of(symlink.word()) == symlink);
    assert(report_of(ws.take(4)) == (ProbeReport {
        session_id,
        dpapi_ok,
        symlink,
        ..empty_report()
    }));
    // The upload.
    assert(!begins_with(w4, "session_id="@)) by {
        if begins_with(w4, "session_id="@) {
            assert(w4.take(11)[0] == w4[0]);
        }
    }
    assert(!begins_with(w4, "dpapi="@)) by {
        if begins_with(w4, "dpapi="@) {
            assert(w4.take(6)[0] == w4[0]);
        }
    }
    assert(!begins_with(w4, "symlink="@)) by {
        if begins_with(w4, "symlink="@) {
            assert(w4.take(8)[0] == w4[0]);
        }
    }
    assert(w4.take(9) =~= "upstream="@);
    assert(w4.skip(9) =~= verdict(upstream_ok));
}

/// Lines in front of the probe line, and whatever follows it, do not matter.
pub proof fn law_noise_is_ignored(noise: Seq<Seq<char>>, line: Seq<char>, after: Seq<Seq<char>>)
    requires
        forall|i: int| 0 <= i < noise.len() ==> !is_probe_line(#[trigger] noise[i]),
        is_probe_line(line),
    ensures
        report_from(noise + seq![line] + after, 0) == Some(report_of(words(line))),
{
    lemma_noise(noise, line, after, 0);
}

proof fn lemma_noise(noise: Seq<Seq<char>>, line: Seq<char>, after: Seq<Seq<char>>, i: int)
    requires
        forall|j: int| 0 <= j < noise.len() ==> !is_probe_line(#[trigger] noise[j]),
        is_probe_line(line),
        0 <= i <= noise.len(),
    ensures
        report_from(noise + seq![line] + after, i) == Some(report_of(words(line))),
    decreases noise.len() - i,
{
    let all = noise + seq![line] + after;
    if i < noise.len() {
        assert(all[i] == noise[i]);
        assert(!is_probe_line(noise[i]));
        lemma_noise(noise, line, after, i + 1);
    } else {
        assert(all[i] == line);
    }
}

/// What the probe child writes proves the relay byte-transparent where it arrives unchanged.
pub proof fn law_probe_output_is_intact(line: Seq<u8>)
    ensures
        extracted(emitted() + line) == Some(payload()),
{
    let none = Seq::<u8>::empty();
    law_emitted_probe_is_intact(none, line);
    assert(none + emitted() =~= emitted());
}

/// Nothing is taken for proven that a line does not say: secrets work only where a word says so,
/// the upload is intact only where a word says so, and the session is 0 where none names it.
pub proof fn law_report_denies_by_default(ws: Seq<Seq<char>>)
    ensures
        report_of(ws).dpapi_ok ==> ws.contains("dpapi="@ + "ok"@),
        report_of(ws).upstream == UpstreamState::Intact ==> ws.contains("upstream="@ + "ok"@),
        report_of(ws).session_id != 0 ==> exists|i: int|
            0 <= i < ws.len() && begins_with(#[trigger] ws[i], "session_id="@),
        report_of(ws).symlink == SymlinkState::Blocked ==> ws.contains("symlink="@ + "blocked"@),
    decreases ws.len(),
{
    if ws.len() > 0 {
        let front = ws.drop_last();
        law_report_denies_by_default(front);
        let w = ws.last();
        assert(ws[ws.len() - 1] == w);
        reveal_strlit("session_id=");
        reveal_strlit("dpapi=");
        reveal_strlit("symlink=");
        reveal_strlit("upstream=");
        assert(begins_with(w, "dpapi="@) ==> w =~= "dpapi="@ + w.skip("dpapi="@.len() as int));
        assert(begins_with(w, "symlink="@) ==> w =~= "symlink="@ + w.skip(
            "symlink="@.len() as int,
        ));
        assert(begins_with(w, "upstream="@) ==> w =~= "upstream="@ + w.skip(
            "upstream="@.len() as int,
        ));
        assert forall|x: Seq<char>| front.contains(x) implies ws.contains(x) by {
            let i = choose|i: int| 0 <= i < front.len() && front[i] == x;
            assert(ws[i] == x);
        }
        if exists|i: int| 0 <= i < front.len() && begins_with(#[trigger] front[i], "session_id="@) {
            let i = choose|i: int|
                0 <= i < front.len() && begins_with(#[trigger] front[i], "session_id="@);
            assert(begins_with(ws[i], "session_id="@));
        }
    }
}

/// What comes in is everything up to its end, however it is cut into reads and whether they are
/// interrupted; so the payload is taken for intact exactly where it is.
pub proof fn law_upload_is_put_together(chunks: Seq<Seq<u8>>)
    requires
        forall|i: int| 0 <= i < chunks.len() ==> (#[trigger] chunks[i]).len() > 0,
    ensures
        read_all(
            chunks.map_values(|c: Seq<u8>| ReadView::Bytes(c)).push(ReadView::Bytes(Seq::empty())),
        ) == Ok::<_, TransportError>(crate::relay::joined(chunks)),
    decreases chunks.len(),
{
    let reads = chunks.map_values(|c: Seq<u8>| ReadView::Bytes(c)).push(
        ReadView::Bytes(Seq::empty()),
    );
    if chunks.len() > 0 {
        let fewer = chunks.skip(1);
        assert forall|i: int| 0 <= i < fewer.len() implies (#[trigger] fewer[i]).len() > 0 by {
            assert(fewer[i] == chunks[i + 1]);
        }
        law_upload_is_put_together(fewer);
        assert(behind(reads, 1) =~= fewer.map_values(|c: Seq<u8>| ReadView::Bytes(c)).push(
            ReadView::Bytes(Seq::empty()),
        ));
        assert(chunks[0].len() > 0);
        assert(reads[0] == ReadView::Bytes(chunks[0]));
    } else {
        assert(reads[0] == ReadView::Bytes(Seq::empty()));
    }
}

/// A read that fails is a failure, whatever came before it; one that is interrupted is none.
pub proof fn law_failed_upload_is_reported(
    c: Seq<u8>,
    e: TransportError,
    reads: Seq<ReadView>,
)
    requires
        c.len() > 0,
    ensures
        read_all(seq![ReadView::Bytes(c), ReadView::Failed(e)] + reads) == Err::<Seq<u8>, _>(e),
        read_all(seq![ReadView::Interrupted(e)] + reads) == read_all(reads),
{
    let all = seq![ReadView::Bytes(c), ReadView::Failed(e)] + reads;
    assert(behind(all, 1)[0] == ReadView::Failed(e));
    assert(all[0] == ReadView::Bytes(c));
    assert(read_all(behind(all, 1)) == Err::<Seq<u8>, _>(e));
    assert(behind(seq![ReadView::Interrupted(e)] + reads, 1) =~= reads);
}

/// A session is at parity exactly where it is not session 0, its secrets work, and no symlink was
/// blocked; one that could not be tested counts as none.
pub proof fn law_parity(session_id: u32, dpapi_ok: bool, symlink: SymlinkState, ok: bool)
    requires
        call_ensures(parity, (session_id, dpapi_ok, symlink), ok),
    ensures
        ok ==> session_id != 0 && dpapi_ok && symlink != SymlinkState::Blocked,
        session_id != 0 && dpapi_ok && (symlink == SymlinkState::Followed || symlink
            == SymlinkState::Skipped) ==> ok,
{
}

/// The probe child ends with 0 exactly at parity, whatever arrived on its stdin, and writes the
/// payload in front of its line.
pub proof fn law_probe_end(
    session_id: u32,
    dpapi_ok: bool,
    symlink: SymlinkState,
    upstream_ok: bool,
    end: ProbeEnd,
)
    requires
        call_ensures(probe_end, (session_id, dpapi_ok, symlink, upstream_ok), end),
    ensures
        end.code == 0 || end.code == 1,
        end.code == 0 <==> session_id != 0 && dpapi_ok && symlink != SymlinkState::Blocked,
        extracted(end.stdout@) == Some(payload()),
{
    let line = encode_utf8(probe_line(session_id, dpapi_ok, symlink, upstream_ok)) + seq![0x0au8];
    law_probe_output_is_intact(line);
    assert(end.stdout@ =~= emitted() + line);
}

/// The payload holds every byte once, in order.
pub proof fn law_payload_holds_every_byte(b: u8)
    ensures
        payload().len() == 256,
        payload()[b as int] == b,
{
}

/// A symlink is blocked only where it could be made and not read through; where it could not be
/// made, nothing was tested.
pub proof fn law_symlink_states(made_file: bool, made_link: bool, read_back: bool, s: SymlinkState)
    requires
        call_ensures(symlink_state, (made_file, made_link, read_back), s),
    ensures
        s == SymlinkState::Blocked <==> made_file && made_link && !read_back,
        s == SymlinkState::Followed <==> made_file && made_link && read_back,
{
}

} // verus!
