//! protocol: length-prefixed typed frames and the handshake.
//!
//! A frame on the wire is `[kind: u8][len: u32-LE][payload: len bytes]`: a 5-byte header
//! followed by `len` payload bytes. A delimiter would have to be escaped, because the terminal
//! data stream is arbitrary binary.

use vstd::prelude::*;
use vstd::utf8::encode_utf8;
use crate::text::{dec, push_dec};

verus! {

pub const HEADER_LEN: usize = 5;

/// Guard against absurd allocations from a malformed length prefix (1 MiB).
pub const MAX_FRAME: u32 = 1_048_576;

pub const PROTOCOL_VERSION: u16 = 1;

/// Why reading the transport failed.
#[derive(Debug, Clone, PartialEq, Eq)]
pub struct TransportError(pub String);

/// Why bytes were refused.
#[derive(Debug, Clone, PartialEq, Eq)]
pub enum ProtocolError {
    ShortHeader(usize),
    BadFrameKind(u8),
    FrameTooLarge(u32),
    ShortResize(usize),
    ShortExit(usize),
    PayloadTooLarge(usize),
    /// The payload is not the encoding of a handshake, and what `postcard` says of it.
    BadHandshake(String),
    /// The handshake's mode is none.
    BadMode,
    VersionMismatch(u16),
    UnexpectedEof,
    Read(TransportError),
    MissingStreamTag,
    BadStreamTag(u8),
    UnexpectedHandshake,
    Truncated(usize),
}

impl ProtocolError {
    /// The text of the error.
    pub open spec fn text(self) -> Seq<char> {
        match self {
            ProtocolError::ShortHeader(n) => "short header: "@ + dec(n as nat) + " < 5"@,
            ProtocolError::BadFrameKind(b) => "bad frame kind "@ + dec(b as nat),
            ProtocolError::FrameTooLarge(n) => "frame too large: "@ + dec(n as nat) + " > 1048576"@,
            ProtocolError::ShortResize(n) => "short resize payload: "@ + dec(n as nat),
            ProtocolError::ShortExit(n) => "short exit payload: "@ + dec(n as nat),
            ProtocolError::PayloadTooLarge(n) => "payload too large: "@ + dec(n as nat)
                + " > 1048576"@,
            ProtocolError::BadHandshake(reason) => reason@,
            ProtocolError::BadMode => "Serde Deserialization Error"@,
            ProtocolError::VersionMismatch(v) => "protocol version mismatch: peer "@ + dec(v as nat)
                + " != ours 1"@,
            ProtocolError::UnexpectedEof => "unexpected EOF before a complete frame"@,
            ProtocolError::Read(e) => e.0@,
            ProtocolError::MissingStreamTag => "DATA frame missing stream tag"@,
            ProtocolError::BadStreamTag(b) => "bad stream tag "@ + dec(b as nat),
            ProtocolError::UnexpectedHandshake => "unexpected HANDSHAKE frame mid-stream"@,
            ProtocolError::Truncated(n) => "stream truncated: "@ + dec(n as nat)
                + " buffered byte(s) without a complete frame"@,
        }
    }

    pub fn message(&self) -> (s: String)
        ensures
            s@ == self.text(),
    {
        proof {
            reveal_strlit("");
        }
        match self {
            ProtocolError::ShortHeader(n) => numbered("short header: ", *n as u64, " < 5"),
            ProtocolError::BadFrameKind(b) => numbered("bad frame kind ", *b as u64, ""),
            ProtocolError::FrameTooLarge(n) => numbered(
                "frame too large: ",
                *n as u64,
                " > 1048576",
            ),
            ProtocolError::ShortResize(n) => numbered("short resize payload: ", *n as u64, ""),
            ProtocolError::ShortExit(n) => numbered("short exit payload: ", *n as u64, ""),
            ProtocolError::PayloadTooLarge(n) => numbered(
                "payload too large: ",
                *n as u64,
                " > 1048576",
            ),
            ProtocolError::BadHandshake(reason) => reason.clone(),
            ProtocolError::BadMode => "Serde Deserialization Error".to_owned(),
            ProtocolError::VersionMismatch(v) => numbered(
                "protocol version mismatch: peer ",
                *v as u64,
                " != ours 1",
            ),
            ProtocolError::UnexpectedEof => "unexpected EOF before a complete frame".to_owned(),
            ProtocolError::Read(e) => e.0.clone(),
            ProtocolError::MissingStreamTag => "DATA frame missing stream tag".to_owned(),
            ProtocolError::BadStreamTag(b) => numbered("bad stream tag ", *b as u64, ""),
            ProtocolError::UnexpectedHandshake => "unexpected HANDSHAKE frame mid-stream".to_owned(),
            ProtocolError::Truncated(n) => numbered(
                "stream truncated: ",
                *n as u64,
                " buffered byte(s) without a complete frame",
            ),
        }
    }
}

/// A number between two texts.
fn numbered(before: &str, n: u64, after: &str) -> (s: String)
    ensures
        s@ == before@ + dec(n as nat) + after@,
        after@.len() == 0 ==> s@ == before@ + dec(n as nat),
{
    let mut s: String = before.to_owned();
    push_dec(&mut s, n);
    s.append(after);
    assert(after@.len() == 0 ==> s@ =~= before@ + dec(n as nat));
    s
}

#[derive(Debug, Clone, Copy, PartialEq, Eq, Structural)]
pub enum FrameKind {
    Handshake,
    Data,
    Resize,
    Exit,
}

impl FrameKind {
    /// The byte that stands for the kind on the wire.
    pub open spec fn tag(self) -> u8 {
        match self {
            FrameKind::Handshake => 0,
            FrameKind::Data => 1,
            FrameKind::Resize => 2,
            FrameKind::Exit => 3,
        }
    }

    pub fn to_u8(self) -> (b: u8)
        ensures
            b == self.tag(),
    {
        match self {
            FrameKind::Handshake => 0,
            FrameKind::Data => 1,
            FrameKind::Resize => 2,
            FrameKind::Exit => 3,
        }
    }

    pub fn from_u8(b: u8) -> (r: Option<Self>)
        ensures
            r == kind_of(b),
    {
        match b {
            0 => Some(FrameKind::Handshake),
            1 => Some(FrameKind::Data),
            2 => Some(FrameKind::Resize),
            3 => Some(FrameKind::Exit),
            _ => None,
        }
    }
}

/// The kind that a byte stands for.
pub open spec fn kind_of(b: u8) -> Option<FrameKind> {
    if b == 0 {
        Some(FrameKind::Handshake)
    } else if b == 1 {
        Some(FrameKind::Data)
    } else if b == 2 {
        Some(FrameKind::Resize)
    } else if b == 3 {
        Some(FrameKind::Exit)
    } else {
        None
    }
}

/// The number that two bytes stand for, the least significant first.
pub open spec fn le16(a: u8, b: u8) -> int {
    a + 256 * b
}

/// The number that four bytes stand for, the least significant first.
pub open spec fn le32(a: u8, b: u8, c: u8, d: u8) -> int {
    a + 256 * b + 65536 * c + 16777216 * d
}

/// The two bytes of a number below 2^16, the least significant first.
pub open spec fn le16_bytes(x: int) -> Seq<u8> {
    seq![(x % 256) as u8, (x / 256) as u8]
}

/// The four bytes of a number below 2^32, the least significant first.
pub open spec fn le32_bytes(x: int) -> Seq<u8> {
    seq![
        (x % 256) as u8,
        ((x / 256) % 256) as u8,
        ((x / 65536) % 256) as u8,
        (x / 16777216) as u8,
    ]
}

/// The number that two bytes stand for.
pub fn join16(a: u8, b: u8) -> (x: u16)
    ensures
        x == le16(a, b),
{
    (a as u16) + 256 * (b as u16)
}

fn join32(a: u8, b: u8, c: u8, d: u8) -> (x: u32)
    ensures
        x == le32(a, b, c, d),
{
    (a as u32) + 256 * (b as u32) + 65536 * (c as u32) + 16777216 * (d as u32)
}

fn split16(x: u16) -> (b: [u8; 2])
    ensures
        b@ == le16_bytes(x as int),
{
    let b: [u8; 2] = [(x % 256) as u8, (x / 256) as u8];
    assert(b@ =~= le16_bytes(x as int));
    b
}

fn split32(x: u32) -> (b: [u8; 4])
    ensures
        b@ == le32_bytes(x as int),
{
    let b: [u8; 4] = [
        (x % 256) as u8,
        ((x / 256) % 256) as u8,
        ((x / 65536) % 256) as u8,
        (x / 16777216) as u8,
    ];
    assert(b@ =~= le32_bytes(x as int));
    b
}

#[derive(Debug, Clone, Copy, PartialEq, Eq, Structural)]
pub struct FrameHeader {
    pub kind: FrameKind,
    pub len: u32,
}

/// What a header says, or why it says nothing.
pub open spec fn header_of(b: Seq<u8>) -> Result<FrameHeader, ProtocolError> {
    if b.len() < HEADER_LEN {
        Err(ProtocolError::ShortHeader(b.len() as usize))
    } else {
        match kind_of(b[0]) {
            None => Err(ProtocolError::BadFrameKind(b[0])),
            Some(kind) => if le32(b[1], b[2], b[3], b[4]) > MAX_FRAME {
                Err(ProtocolError::FrameTooLarge(le32(b[1], b[2], b[3], b[4]) as u32))
            } else {
                Ok(FrameHeader { kind, len: le32(b[1], b[2], b[3], b[4]) as u32 })
            },
        }
    }
}

impl FrameHeader {
    /// The header on the wire.
    pub open spec fn bytes(self) -> Seq<u8> {
        seq![self.kind.tag()] + le32_bytes(self.len as int)
    }

    pub fn encode(&self) -> (b: [u8; HEADER_LEN])
        ensures
            b@ == self.bytes(),
    {
        let l: [u8; 4] = split32(self.len);
        let b: [u8; HEADER_LEN] = [self.kind.to_u8(), l[0], l[1], l[2], l[3]];
        assert(b@ =~= self.bytes());
        b
    }

    pub fn decode(b: &[u8]) -> (r: Result<Self, ProtocolError>)
        ensures
            r == header_of(b@),
    {
        if b.len() < HEADER_LEN {
            return Err(ProtocolError::ShortHeader(b.len()));
        }
        match FrameKind::from_u8(b[0]) {
            None => Err(ProtocolError::BadFrameKind(b[0])),
            Some(kind) => {
                let len: u32 = join32(b[1], b[2], b[3], b[4]);
                if len > MAX_FRAME {
                    Err(ProtocolError::FrameTooLarge(len))
                } else {
                    Ok(FrameHeader { kind, len })
                }
            },
        }
    }
}

/// DATA-frame stream tag (the first payload byte). PTY mode uses a single merged terminal
/// stream; EXEC mode keeps stdin, stdout and stderr separate.
///
/// In EXEC mode a `DATA(Stdin)` frame with no bytes is the end-of-stdin marker: it closes the
/// child's stdin and keeps the connection open for stdout, stderr and EXIT. Closing the socket
/// is the distinct disconnect signal.
#[derive(Debug, Clone, Copy, PartialEq, Eq, Structural)]
pub enum Stream {
    Pty,
    Stdin,
    Stdout,
    Stderr,
}

/// The stream that a tag stands for.
pub open spec fn stream_of(b: u8) -> Option<Stream> {
    if b == 0 {
        Some(Stream::Pty)
    } else if b == 1 {
        Some(Stream::Stdin)
    } else if b == 2 {
        Some(Stream::Stdout)
    } else if b == 3 {
        Some(Stream::Stderr)
    } else {
        None
    }
}

impl Stream {
    /// The byte that stands for the stream on the wire.
    pub open spec fn tag(self) -> u8 {
        match self {
            Stream::Pty => 0,
            Stream::Stdin => 1,
            Stream::Stdout => 2,
            Stream::Stderr => 3,
        }
    }

    pub fn to_u8(self) -> (b: u8)
        ensures
            b == self.tag(),
    {
        match self {
            Stream::Pty => 0,
            Stream::Stdin => 1,
            Stream::Stdout => 2,
            Stream::Stderr => 3,
        }
    }

    pub fn from_u8(b: u8) -> (r: Option<Self>)
        ensures
            r == stream_of(b),
    {
        match b {
            0 => Some(Stream::Pty),
            1 => Some(Stream::Stdin),
            2 => Some(Stream::Stdout),
            3 => Some(Stream::Stderr),
            _ => None,
        }
    }
}

/// RESIZE payload (PTY only): the new console size.
#[derive(Debug, Clone, Copy, PartialEq, Eq, Structural)]
pub struct Resize {
    pub cols: u16,
    pub rows: u16,
}

/// What a RESIZE payload says; bytes after the fourth are ignored.
pub open spec fn resize_of(b: Seq<u8>) -> Result<Resize, ProtocolError> {
    if b.len() < 4 {
        Err(ProtocolError::ShortResize(b.len() as usize))
    } else {
        Ok(Resize { cols: le16(b[0], b[1]) as u16, rows: le16(b[2], b[3]) as u16 })
    }
}

impl Resize {
    /// The payload on the wire.
    pub open spec fn bytes(self) -> Seq<u8> {
        le16_bytes(self.cols as int) + le16_bytes(self.rows as int)
    }

    pub fn encode(&self) -> (b: [u8; 4])
        ensures
            b@ == self.bytes(),
    {
        let c: [u8; 2] = split16(self.cols);
        let r: [u8; 2] = split16(self.rows);
        let b: [u8; 4] = [c[0], c[1], r[0], r[1]];
        assert(b@ =~= self.bytes());
        b
    }

    pub fn decode(b: &[u8]) -> (r: Result<Self, ProtocolError>)
        ensures
            r == resize_of(b@),
    {
        if b.len() < 4 {
            return Err(ProtocolError::ShortResize(b.len()));
        }
        Ok(Resize { cols: join16(b[0], b[1]), rows: join16(b[2], b[3]) })
    }
}

/// The 32 bits of a signed number, read as an unsigned one.
pub open spec fn bits_of(x: i32) -> int {
    if x < 0 {
        x + 0x1_0000_0000
    } else {
        x as int
    }
}

/// The signed number that 32 bits stand for.
pub open spec fn from_bits(x: int) -> i32 {
    if x >= 0x8000_0000 {
        (x - 0x1_0000_0000) as i32
    } else {
        x as i32
    }
}

/// The bits of a signed number as an unsigned one.
pub fn to_unsigned(x: i32) -> (u: u32)
    ensures
        u == bits_of(x),
{
    if x < 0 {
        (x as i64 + 0x1_0000_0000) as u32
    } else {
        x as u32
    }
}

/// The signed number that has the given bits.
pub fn to_signed(u: u32) -> (x: i32)
    ensures
        x == from_bits(u as int),
{
    if u >= 0x8000_0000 {
        (u as i64 - 0x1_0000_0000) as i32
    } else {
        u as i32
    }
}

/// EXIT payload: the child's exit code. The bits of the unsigned code that the system reports
/// are carried unchanged, so a code with the high bit set survives a round trip.
#[derive(Debug, Clone, Copy, PartialEq, Eq, Structural)]
pub struct ExitCode(pub i32);

/// What an EXIT payload says; bytes after the fourth are ignored.
pub open spec fn exit_of(b: Seq<u8>) -> Result<ExitCode, ProtocolError> {
    if b.len() < 4 {
        Err(ProtocolError::ShortExit(b.len() as usize))
    } else {
        Ok(ExitCode(from_bits(le32(b[0], b[1], b[2], b[3]))))
    }
}

impl ExitCode {
    /// The payload on the wire.
    pub open spec fn bytes(self) -> Seq<u8> {
        le32_bytes(bits_of(self.0))
    }

    pub fn encode(&self) -> (b: [u8; 4])
        ensures
            b@ == self.bytes(),
    {
        split32(to_unsigned(self.0))
    }

    pub fn decode(b: &[u8]) -> (r: Result<Self, ProtocolError>)
        ensures
            r == exit_of(b@),
    {
        if b.len() < 4 {
            return Err(ProtocolError::ShortExit(b.len()));
        }
        Ok(ExitCode(to_signed(join32(b[0], b[1], b[2], b[3]))))
    }
}

#[derive(Debug, Clone, Copy, PartialEq, Eq, Structural)]
pub enum Mode {
    Pty,
    Exec,
}

impl Mode {
    /// The number that stands for the mode on the wire.
    pub open spec fn index(self) -> u32 {
        match self {
            Mode::Pty => 0,
            Mode::Exec => 1,
        }
    }

    fn to_u32(self) -> (n: u32)
        ensures
            n == self.index(),
    {
        match self {
            Mode::Pty => 0,
            Mode::Exec => 1,
        }
    }
}

/// The first frame on a connection is a HANDSHAKE frame whose payload is this struct in the
/// `postcard` encoding. The shim fills `term`, `cwd` and the allow-listed `env`.
#[derive(Debug, Clone, PartialEq, Eq)]
pub struct Handshake {
    pub version: u16,
    pub mode: Mode,
    pub cols: u16,
    pub rows: u16,
    pub term: String,
    pub cwd: String,
    pub command: Option<String>,
    pub env: Vec<(String, String)>,
}

/// The model of a handshake.
pub ghost struct HandshakeView {
    pub version: u16,
    pub mode: Mode,
    pub cols: u16,
    pub rows: u16,
    pub term: Seq<char>,
    pub cwd: Seq<char>,
    pub command: Option<Seq<char>>,
    pub env: Seq<(Seq<char>, Seq<char>)>,
}

/// The fields of a handshake as they stand on the wire: the mode is a number.
pub type WireHandshake = (
    u16,
    u32,
    u16,
    u16,
    String,
    String,
    Option<String>,
    Vec<(String, String)>,
);

/// The model of the fields on the wire.
pub type WireFields = (
    u16,
    u32,
    u16,
    u16,
    Seq<char>,
    Seq<char>,
    Option<Seq<char>>,
    Seq<(Seq<char>, Seq<char>)>,
);

/// The text of an optional string.
pub open spec fn text_of(s: Option<String>) -> Option<Seq<char>> {
    match s {
        Some(t) => Some(t@),
        None => None,
    }
}

/// The texts of a list of pairs.
pub open spec fn pairs_of(env: Seq<(String, String)>) -> Seq<(Seq<char>, Seq<char>)> {
    env.map_values(|p: (String, String)| (p.0@, p.1@))
}

pub open spec fn wire_fields(w: WireHandshake) -> WireFields {
    (w.0, w.1, w.2, w.3, w.4@, w.5@, text_of(w.6), pairs_of(w.7@))
}

impl View for Handshake {
    type V = HandshakeView;

    open spec fn view(&self) -> HandshakeView {
        HandshakeView {
            version: self.version,
            mode: self.mode,
            cols: self.cols,
            rows: self.rows,
            term: self.term@,
            cwd: self.cwd@,
            command: text_of(self.command),
            env: pairs_of(self.env@),
        }
    }
}

impl HandshakeView {
    pub open spec fn fields(self) -> WireFields {
        (
            self.version,
            self.mode.index(),
            self.cols,
            self.rows,
            self.term,
            self.cwd,
            self.command,
            self.env,
        )
    }

    /// The handshake on the wire.
    pub open spec fn bytes(self) -> Seq<u8> {
        handshake_bytes(self.fields())
    }
}

/// A number in groups of seven bits, the least significant first; every byte but the last has
/// its high bit set.
pub open spec fn varint(n: nat) -> Seq<u8>
    decreases n,
{
    if n < 128 {
        seq![n as u8]
    } else {
        seq![(n % 128 + 128) as u8] + varint(n / 128)
    }
}

/// A text: its length in bytes, then the bytes.
pub open spec fn text_bytes(s: Seq<char>) -> Seq<u8> {
    varint(encode_utf8(s).len()) + encode_utf8(s)
}

/// Pairs of texts, one behind the other.
pub open spec fn pairs_bytes(env: Seq<(Seq<char>, Seq<char>)>) -> Seq<u8>
    decreases env.len(),
{
    if env.len() == 0 {
        Seq::empty()
    } else {
        pairs_bytes(env.drop_last()) + text_bytes(env.last().0) + text_bytes(env.last().1)
    }
}

/// The `postcard` encoding of a handshake's fields, in their order.
pub open spec fn handshake_bytes(f: WireFields) -> Seq<u8> {
    varint(f.0 as nat) + varint(f.1 as nat) + varint(f.2 as nat) + varint(f.3 as nat)
        + text_bytes(f.4) + text_bytes(f.5) + (match f.6 {
        None => seq![0u8],
        Some(t) => seq![1u8] + text_bytes(t),
    }) + varint(f.7.len()) + pairs_bytes(f.7)
}

/// What `postcard::from_bytes` reads from bytes as a handshake's fields, or the text of the error
/// that it reports.
pub uninterp spec fn postcard_fields(b: Seq<u8>) -> Result<
    (
        u16,
        u32,
        u16,
        u16,
        Seq<char>,
        Seq<char>,
        Option<Seq<char>>,
        Seq<(Seq<char>, Seq<char>)>,
    ),
    Seq<char>,
>;

/// `postcard::to_stdvec` on a handshake's fields as a tuple. It never fails on them: the output
/// is a growing vector and every length is known. Each number is written as a varint, each text
/// as its length in bytes and its UTF-8 bytes, an absent text as a zero byte and a present one
/// behind a one, a list as its length and its items.
#[verifier::external_body]
fn postcard_encode(
    version: u16,
    mode: u32,
    cols: u16,
    rows: u16,
    term: &str,
    cwd: &str,
    command: &Option<String>,
    env: &Vec<(String, String)>,
) -> (r: Result<Vec<u8>, String>)
    ensures
        r is Ok,
        r->Ok_0@ == handshake_bytes(
            (version, mode, cols, rows, term@, cwd@, text_of(*command), pairs_of(env@)),
        ),
{
    match postcard::to_stdvec(&(version, mode, cols, rows, term, cwd, command, env)) {
        Ok(bytes) => Ok(bytes),
        Err(e) => Err(e.to_string()),
    }
}

/// `postcard::from_bytes` of a handshake's fields as a tuple. What it reads from arbitrary bytes,
/// or the text of its error, has a name; where the bytes begin with the encoding of some fields, it reads those fields and
/// ignores what follows.
#[verifier::external_body]
fn postcard_decode(b: &[u8]) -> (r: Result<WireHandshake, String>)
    ensures
        match r {
            Ok(w) => postcard_fields(b@) == Ok::<_, Seq<char>>(wire_fields(w)),
            Err(e) => postcard_fields(b@) == Err::<WireFields, _>(e@),
        },
        forall|f: WireFields| #[trigger]
            handshake_bytes(f).is_prefix_of(b@) ==> r is Ok && wire_fields(r->Ok_0) == f,
{
    match postcard::from_bytes::<WireHandshake>(b) {
        Ok(fields) => Ok(fields),
        Err(e) => Err(e.to_string()),
    }
}

/// What `postcard::take_from_bytes` reads from the front of bytes as a handshake's version and
/// mode, or the text of the error that it reports.
pub uninterp spec fn postcard_front(b: Seq<u8>) -> Result<(u16, u32), Seq<char>>;

/// `postcard::take_from_bytes` of a handshake's version and mode as a tuple, the bytes behind them
/// left alone. What it reads from arbitrary bytes, or the text of its error, has a name; where the
/// bytes begin with the encoding of some fields, it reads the first two of those.
#[verifier::external_body]
fn postcard_take_front(b: &[u8]) -> (r: Result<(u16, u32), String>)
    ensures
        match r {
            Ok(front) => postcard_front(b@) == Ok::<_, Seq<char>>(front),
            Err(e) => postcard_front(b@) == Err::<(u16, u32), _>(e@),
        },
        forall|f: WireFields| #[trigger]
            handshake_bytes(f).is_prefix_of(b@) ==> r is Ok && r->Ok_0 == (f.0, f.1),
{
    match postcard::take_from_bytes::<(u16, u32)>(b) {
        Ok((front, _)) => Ok(front),
        Err(e) => Err(e.to_string()),
    }
}

/// Why a payload is no handshake.
pub ghost enum Refusal {
    /// What `postcard` says of it.
    Malformed(Seq<char>),
    BadMode,
    Version(u16),
}

impl ProtocolError {
    /// Whether the error reports a refusal.
    pub open spec fn reports(self, why: Refusal) -> bool {
        match why {
            Refusal::Malformed(reason) => self is BadHandshake && self->BadHandshake_0@ == reason,
            Refusal::BadMode => self is BadMode,
            Refusal::Version(v) => self is VersionMismatch && self->VersionMismatch_0 == v,
        }
    }
}

/// The handshake that a payload holds, or why it holds none. The fields are read in their order: a
/// mode that does not exist is refused whatever follows it, and the version is looked at once
/// every field is read.
pub open spec fn handshake_in(b: Seq<u8>) -> Result<HandshakeView, Refusal> {
    match postcard_front(b) {
        Err(reason) => Err(Refusal::Malformed(reason)),
        Ok(front) => if front.1 > 1 {
            Err(Refusal::BadMode)
        } else {
            match postcard_fields(b) {
                Err(reason) => Err(Refusal::Malformed(reason)),
                Ok(f) => handshake_of(f),
            }
        },
    }
}

/// The handshake that the fields on the wire stand for, or why they stand for none.
pub open spec fn handshake_of(f: WireFields) -> Result<HandshakeView, Refusal> {
    if f.1 > 1 {
        Err(Refusal::BadMode)
    } else if f.0 != PROTOCOL_VERSION {
        Err(Refusal::Version(f.0))
    } else {
        Ok(
            HandshakeView {
                version: f.0,
                mode: if f.1 == 0 {
                    Mode::Pty
                } else {
                    Mode::Exec
                },
                cols: f.2,
                rows: f.3,
                term: f.4,
                cwd: f.5,
                command: f.6,
                env: f.7,
            },
        )
    }
}

impl Handshake {
    /// The payload of the handshake frame.
    pub fn encode(&self) -> (r: Result<Vec<u8>, ProtocolError>)
        ensures
            r is Ok,
            r->Ok_0@ == self@.bytes(),
    {
        match postcard_encode(
            self.version,
            self.mode.to_u32(),
            self.cols,
            self.rows,
            self.term.as_str(),
            self.cwd.as_str(),
            &self.command,
            &self.env,
        ) {
            Ok(b) => Ok(b),
            Err(reason) => Err(ProtocolError::BadHandshake(reason)),
        }
    }

    /// Read a handshake frame's payload. A mode that does not exist is refused, whatever follows
    /// it, and so is a foreign protocol version. Bytes behind the handshake are ignored, and a handshake of this version that was encoded reads back as
    /// itself.
    pub fn decode(b: &[u8]) -> (r: Result<Self, ProtocolError>)
        ensures
            match handshake_in(b@) {
                Err(why) => r is Err && r->Err_0.reports(why),
                Ok(h) => r is Ok && r->Ok_0@ == h,
            },
            forall|h: HandshakeView|
                #![trigger h.bytes()]
                h.bytes().is_prefix_of(b@) ==> if h.version == PROTOCOL_VERSION {
                    r is Ok && r->Ok_0@ == h
                } else {
                    r == Err::<Self, _>(ProtocolError::VersionMismatch(h.version))
                },
    {
        match postcard_take_front(b) {
            Err(reason) => {
                assert forall|h: HandshakeView| #[trigger] h.bytes().is_prefix_of(b@) implies false by {
                    assert(handshake_bytes(h.fields()).is_prefix_of(b@));
                }
                return Err(ProtocolError::BadHandshake(reason));
            },
            Ok((_, index)) => {
                assert forall|h: HandshakeView| #[trigger] h.bytes().is_prefix_of(b@) implies index
                    == h.mode.index() by {
                    assert(handshake_bytes(h.fields()).is_prefix_of(b@));
                }
                if index > 1 {
                    return Err(ProtocolError::BadMode);
                }
            },
        }
        match postcard_decode(b) {
            Err(reason) => {
                assert forall|h: HandshakeView| #[trigger] h.bytes().is_prefix_of(b@) implies false by {
                    assert(handshake_bytes(h.fields()).is_prefix_of(b@));
                }
                Err(ProtocolError::BadHandshake(reason))
            },
            Ok(w) => {
                let ghost f = wire_fields(w);
                assert forall|h: HandshakeView| #[trigger]
                    h.bytes().is_prefix_of(b@) implies h.fields() == f by {
                    assert(handshake_bytes(h.fields()).is_prefix_of(b@));
                }
                Handshake::from_wire(w)
            },
        }
    }

    /// The handshake that the fields read from the wire stand for.
    pub fn from_wire(w: WireHandshake) -> (r: Result<Self, ProtocolError>)
        ensures
            match handshake_of(wire_fields(w)) {
                Err(why) => r is Err && r->Err_0.reports(why),
                Ok(h) => r is Ok && r->Ok_0@ == h,
            },
    {
        let (version, index, cols, rows, term, cwd, command, env) = w;
        let mode: Mode = match index {
            0 => Mode::Pty,
            1 => Mode::Exec,
            _ => {
                return Err(ProtocolError::BadMode);
            },
        };
        if version != PROTOCOL_VERSION {
            return Err(ProtocolError::VersionMismatch(version));
        }
        Ok(Handshake { version, mode, cols, rows, term, cwd, command, env })
    }

    /// A minimal interactive-PTY handshake.
    pub fn pty_default() -> (h: Self)
        ensures
            h@ == (HandshakeView {
                version: PROTOCOL_VERSION,
                mode: Mode::Pty,
                cols: 80,
                rows: 24,
                term: "xterm-256color"@,
                cwd: Seq::empty(),
                command: None,
                env: Seq::empty(),
            }),
    {
        let h: Handshake = Handshake {
            version: PROTOCOL_VERSION,
            mode: Mode::Pty,
            cols: 80,
            rows: 24,
            term: "xterm-256color".to_owned(),
            cwd: String::new(),
            command: None,
            env: Vec::new(),
        };
        assert(h@.env =~= Seq::<(Seq<char>, Seq<char>)>::empty());
        h
    }
}

/// A fully reassembled frame: its kind and the payload bytes, without the header.
#[derive(Debug, Clone, PartialEq, Eq)]
pub struct Frame {
    pub kind: FrameKind,
    pub payload: Vec<u8>,
}

/// The model of a frame.
pub ghost struct FrameView {
    pub kind: FrameKind,
    pub payload: Seq<u8>,
}

impl View for Frame {
    type V = FrameView;

    open spec fn view(&self) -> FrameView {
        FrameView { kind: self.kind, payload: self.payload@ }
    }
}

/// A frame on the wire.
pub open spec fn frame_bytes(f: FrameView) -> Seq<u8> {
    FrameHeader { kind: f.kind, len: f.payload.len() as u32 }.bytes() + f.payload
}

/// The first frame of a buffer and the bytes behind it; `None` while more bytes are needed.
pub open spec fn first_frame(b: Seq<u8>) -> Result<Option<(FrameView, Seq<u8>)>, ProtocolError> {
    if b.len() < HEADER_LEN {
        Ok(None)
    } else {
        match header_of(b) {
            Err(e) => Err(e),
            Ok(h) => if b.len() < HEADER_LEN + h.len {
                Ok(None)
            } else {
                Ok(
                    Some(
                        (
                            FrameView {
                                kind: h.kind,
                                payload: b.subrange(
                                    HEADER_LEN as int,
                                    HEADER_LEN + h.len,
                                ),
                            },
                            b.subrange(HEADER_LEN + h.len, b.len() as int),
                        ),
                    ),
                )
            },
        }
    }
}

fn append_bytes(w: &mut Vec<u8>, bytes: &[u8])
    ensures
        final(w)@ == old(w)@ + bytes@,
{
    w.extend_from_slice(bytes);
    assert(w@ =~= old(w)@ + bytes@);
}

/// Append one length-prefixed frame (`[header][payload]`) to `w`. A payload longer than
/// `MAX_FRAME` is refused and nothing is written.
pub fn write_frame(w: &mut Vec<u8>, kind: FrameKind, payload: &[u8]) -> (r: Result<
    (),
    ProtocolError,
>)
    ensures
        payload@.len() <= MAX_FRAME ==> r is Ok && final(w)@ == old(w)@ + frame_bytes(
            FrameView { kind, payload: payload@ },
        ),
        payload@.len() > MAX_FRAME ==> r == Err::<(), _>(
            ProtocolError::PayloadTooLarge(payload@.len() as usize),
        ) && final(w)@ == old(w)@,
{
    if payload.len() as u64 > MAX_FRAME as u64 {
        return Err(ProtocolError::PayloadTooLarge(payload.len()));
    }
    let header: FrameHeader = FrameHeader { kind, len: payload.len() as u32 };
    let head: [u8; HEADER_LEN] = header.encode();
    append_bytes(w, &head);
    append_bytes(w, payload);
    assert(w@ =~= old(w)@ + frame_bytes(FrameView { kind, payload: payload@ }));
    Ok(())
}

/// Incremental frame reassembler: feed arbitrary byte chunks with `push`, pull whole frames
/// with `next_frame`. The bytes that do not make up a frame yet are kept between chunks.
#[derive(Debug)]
pub struct FrameReader {
    buf: Vec<u8>,
}

impl View for FrameReader {
    type V = Seq<u8>;

    closed spec fn view(&self) -> Seq<u8> {
        self.buf@
    }
}

impl Default for FrameReader {
    fn default() -> (r: Self)
        ensures
            r@ == Seq::<u8>::empty(),
    {
        FrameReader { buf: Vec::new() }
    }
}

impl FrameReader {
    pub fn new() -> (r: Self)
        ensures
            r@ == Seq::<u8>::empty(),
    {
        FrameReader { buf: Vec::new() }
    }

    pub fn push(&mut self, bytes: &[u8])
        ensures
            final(self)@ == old(self)@ + bytes@,
    {
        append_bytes(&mut self.buf, bytes);
    }

    /// Bytes buffered but not yet consumed into a complete frame. After all available frames
    /// are drained, a non-zero value at the end of the stream means that it was cut mid-frame.
    pub fn buffered_len(&self) -> (n: usize)
        ensures
            n == self@.len(),
    {
        self.buf.len()
    }

    /// `Ok(Some(frame))` once a whole frame is buffered; `Ok(None)` if more bytes are needed;
    /// `Err` on a malformed header (bad kind or oversize length), which stays in the buffer.
    pub fn next_frame(&mut self) -> (r: Result<Option<Frame>, ProtocolError>)
        ensures
            match first_frame(old(self)@) {
                Err(e) => r == Err::<Option<Frame>, _>(e) && final(self)@ == old(self)@,
                Ok(None) => r == Ok::<_, ProtocolError>(None::<Frame>) && final(self)@ == old(self)@,
                Ok(Some((f, rest))) => r is Ok && r->Ok_0 is Some && r->Ok_0->0@ == f
                    && final(self)@ == rest,
            },
    {
        if self.buf.len() < HEADER_LEN {
            return Ok(None);
        }
        match FrameHeader::decode(self.buf.as_slice()) {
            Err(e) => Err(e),
            Ok(header) => {
                let total: usize = HEADER_LEN + header.len as usize;
                if self.buf.len() < total {
                    return Ok(None);
                }
                let ghost all = self.buf@;
                let rest: Vec<u8> = self.buf.split_off(total);
                let payload: Vec<u8> = self.buf.split_off(HEADER_LEN);
                assert(payload@ =~= all.subrange(HEADER_LEN as int, total as int));
                self.buf = rest;
                Ok(Some(Frame { kind: header.kind, payload }))
            },
        }
    }
}

/// What one read of the transport gave.
#[derive(Debug, Clone, PartialEq, Eq)]
pub enum ReadEvent {
    /// The bytes that arrived; none at all means the end of the stream.
    Bytes(Vec<u8>),
    /// A signal arrived mid-read; the peer is still there. What the system says of it.
    Interrupted(TransportError),
    /// The read failed for a reason that does not clear by itself.
    Failed(TransportError),
}

/// The model of a read.
pub ghost enum ReadView {
    Bytes(Seq<u8>),
    Interrupted(TransportError),
    Failed(TransportError),
}

impl View for ReadEvent {
    type V = ReadView;

    open spec fn view(&self) -> ReadView {
        match *self {
            ReadEvent::Bytes(b) => ReadView::Bytes(b@),
            ReadEvent::Interrupted(e) => ReadView::Interrupted(e),
            ReadEvent::Failed(e) => ReadView::Failed(e),
        }
    }
}

/// A transport whose reads are known beforehand, in order. After the last one every read is at
/// the end of the stream.
#[derive(Debug)]
pub struct ReadScript {
    events: Vec<ReadEvent>,
}

impl View for ReadScript {
    type V = Seq<ReadView>;

    closed spec fn view(&self) -> Seq<ReadView> {
        self.events@.map_values(|e: ReadEvent| e@)
    }
}

impl ReadScript {
    pub fn new(events: Vec<ReadEvent>) -> (r: Self)
        ensures
            r@ == events@.map_values(|e: ReadEvent| e@),
    {
        ReadScript { events }
    }

    /// How many reads of the script are still to come.
    pub fn remaining(&self) -> (n: usize)
        ensures
            n == self@.len(),
    {
        self.events.len()
    }

    pub fn read(&mut self) -> (e: ReadEvent)
        ensures
            old(self)@.len() == 0 ==> e@ == ReadView::Bytes(Seq::<u8>::empty()) && final(self)@
                == old(self)@,
            old(self)@.len() > 0 ==> e@ == old(self)@[0] && final(self)@ == old(
                self,
            )@.drop_first(),
    {
        if self.events.len() == 0 {
            let none: Vec<u8> = Vec::new();
            return ReadEvent::Bytes(none);
        }
        let e: ReadEvent = self.events.remove(0);
        assert(self@ =~= old(self)@.drop_first());
        e
    }
}

/// What reading one frame gives, and what is left of the buffer and of the reads.
pub ghost struct ReadOne {
    pub result: Result<FrameView, ProtocolError>,
    pub rest: Seq<u8>,
    pub reads: Seq<ReadView>,
}

/// Reading one frame: from the buffer if it holds one, else from as many reads as it takes.
pub open spec fn read_one(b: Seq<u8>, reads: Seq<ReadView>) -> ReadOne
    decreases reads.len(),
{
    match first_frame(b) {
        Err(e) => ReadOne { result: Err(e), rest: b, reads },
        Ok(Some((f, rest))) => ReadOne { result: Ok(f), rest, reads },
        Ok(None) => if reads.len() == 0 {
            ReadOne { result: Err(ProtocolError::UnexpectedEof), rest: b, reads }
        } else {
            match read_error(reads[0]) {
                Some(e) => ReadOne { result: Err(e), rest: b, reads: reads.drop_first() },
                None => read_one(b + reads[0]->Bytes_0, reads.drop_first()),
            }
        },
    }
}

/// Why a read does not bring the frame nearer, if it does not.
pub open spec fn read_error(read: ReadView) -> Option<ProtocolError> {
    match read {
        ReadView::Bytes(c) => if c.len() == 0 {
            Some(ProtocolError::UnexpectedEof)
        } else {
            None
        },
        ReadView::Interrupted(e) => Some(ProtocolError::Read(e)),
        ReadView::Failed(e) => Some(ProtocolError::Read(e)),
    }
}

/// Take in one read while a frame is incomplete. Anything but bytes is an error.
pub fn accept_read(fr: &mut FrameReader, event: ReadEvent) -> (r: Result<(), ProtocolError>)
    ensures
        match read_error(event@) {
            Some(e) => r == Err::<(), _>(e) && final(fr)@ == old(fr)@,
            None => r is Ok && final(fr)@ == old(fr)@ + event@->Bytes_0,
        },
{
    match event {
        ReadEvent::Bytes(c) => {
            if c.len() == 0 {
                return Err(ProtocolError::UnexpectedEof);
            }
            fr.push(c.as_slice());
            Ok(())
        },
        ReadEvent::Interrupted(e) => Err(ProtocolError::Read(e)),
        ReadEvent::Failed(e) => Err(ProtocolError::Read(e)),
    }
}

/// Read exactly one whole frame from `r`, using `fr`'s buffer. Bytes read past the end of this
/// frame stay in `fr`, so the same reader can be handed to `pump_decode` afterwards without
/// losing pipelined data. It is an error if the stream ends or the read is interrupted before a
/// complete frame, or if a header is malformed.
pub fn read_one_frame(r: &mut ReadScript, fr: &mut FrameReader) -> (res: Result<
    Frame,
    ProtocolError,
>)
    ensures
        ({
            let one = read_one(old(fr)@, old(r)@);
            &&& match one.result {
                Ok(f) => res is Ok && res->Ok_0@ == f,
                Err(e) => res == Err::<Frame, _>(e),
            }
            &&& final(fr)@ == one.rest
            &&& final(r)@ == one.reads
        }),
{
    loop
        invariant
            read_one(fr@, r@) == read_one(old(fr)@, old(r)@),
        decreases r@.len() + 1,
    {
        match fr.next_frame() {
            Err(e) => {
                return Err(e);
            },
            Ok(Some(frame)) => {
                return Ok(frame);
            },
            Ok(None) => {},
        }
        if r.remaining() == 0 {
            return Err(ProtocolError::UnexpectedEof);
        }
        let event: ReadEvent = r.read();
        match accept_read(fr, event) {
            Err(e) => {
                return Err(e);
            },
            Ok(()) => {},
        }
    }
}

// Laws.

/// A header that is written reads back as itself.
pub proof fn law_header_round_trip(h: FrameHeader)
    requires
        h.len <= MAX_FRAME,
    ensures
        header_of(h.bytes()) == Ok::<_, ProtocolError>(h),
{
    lemma_le32(h.len as int);
}

/// A stream's tag stands for that stream, and for no other.
pub proof fn law_stream_round_trip(s: Stream, b: u8)
    ensures
        stream_of(s.tag()) == Some(s),
        stream_of(b) == Some(s) ==> b == s.tag(),
{
}

/// A size that is written reads back as itself.
pub proof fn law_resize_round_trip(r: Resize)
    ensures
        resize_of(r.bytes()) == Ok::<_, ProtocolError>(r),
{
}

/// An exit code that is written reads back as itself, whatever its sign.
pub proof fn law_exit_round_trip(c: ExitCode)
    ensures
        exit_of(c.bytes()) == Ok::<_, ProtocolError>(c),
{
    lemma_le32(bits_of(c.0));
}

/// The bits of the system's unsigned exit code survive the signed form that is carried.
pub proof fn law_exit_bits_survive(raw: u32)
    ensures
        bits_of(from_bits(raw as int)) == raw,
        exit_of(ExitCode(from_bits(raw as int)).bytes()) is Ok,
        bits_of(exit_of(ExitCode(from_bits(raw as int)).bytes())->Ok_0.0) == raw,
{
    law_exit_round_trip(ExitCode(from_bits(raw as int)));
}

proof fn lemma_le32(x: int)
    requires
        0 <= x < 0x1_0000_0000,
    ensures
        le32_bytes(x).len() == 4,
        le32(
            le32_bytes(x)[0],
            le32_bytes(x)[1],
            le32_bytes(x)[2],
            le32_bytes(x)[3],
        ) == x,
{
    let q1 = x / 256;
    let q2 = q1 / 256;
    let q3 = q2 / 256;
    assert(x == 256 * q1 + x % 256);
    assert(q1 == 256 * q2 + q1 % 256);
    assert(q2 == 256 * q3 + q2 % 256);
    assert(x / 65536 == q2);
    assert(x / 16777216 == q3);
    assert(0 <= q3 < 256);
    assert(le32_bytes(x)[0] == x % 256);
    assert(le32_bytes(x)[1] == q1 % 256);
    assert(le32_bytes(x)[2] == q2 % 256);
    assert(le32_bytes(x)[3] == q3);
}

/// The first frame of a buffer that begins with a written frame is that frame, and every byte
/// behind it is kept.
pub proof fn law_written_frame_comes_first(f: FrameView, tail: Seq<u8>)
    requires
        f.payload.len() <= MAX_FRAME,
    ensures
        first_frame(frame_bytes(f) + tail) == Ok::<_, ProtocolError>(Some((f, tail))),
{
    let h = FrameHeader { kind: f.kind, len: f.payload.len() as u32 };
    let b = frame_bytes(f) + tail;
    lemma_le32(h.len as int);
    assert(h.bytes().len() == 5);
    assert(b[0] == h.bytes()[0] && b[1] == h.bytes()[1] && b[2] == h.bytes()[2] && b[3]
        == h.bytes()[3] && b[4] == h.bytes()[4]);
    assert(header_of(b) == Ok::<_, ProtocolError>(h));
    assert(b.subrange(5, 5 + h.len) =~= f.payload);
    assert(b.subrange(5 + h.len, b.len() as int) =~= tail);
}

/// A frame that was cut short is not a frame yet: more bytes are asked for.
pub proof fn law_cut_frame_is_incomplete(f: FrameView, n: int)
    requires
        f.payload.len() <= MAX_FRAME,
        0 <= n < frame_bytes(f).len(),
    ensures
        first_frame(frame_bytes(f).take(n)) == Ok::<
            Option<(FrameView, Seq<u8>)>,
            ProtocolError,
        >(None),
{
    let h = FrameHeader { kind: f.kind, len: f.payload.len() as u32 };
    let b = frame_bytes(f).take(n);
    lemma_le32(h.len as int);
    assert(h.bytes().len() == 5);
    if n >= 5 {
        assert(b[0] == h.bytes()[0] && b[1] == h.bytes()[1] && b[2] == h.bytes()[2] && b[3]
            == h.bytes()[3] && b[4] == h.bytes()[4]);
        assert(header_of(b) == Ok::<_, ProtocolError>(h));
    }
}

/// Bytes that arrive later change neither the frame that is already there nor the refusal of a
/// malformed header.
pub proof fn law_later_bytes_keep_the_first_frame(b: Seq<u8>, more: Seq<u8>)
    ensures
        match first_frame(b) {
            Err(e) => first_frame(b + more) == Err::<Option<(FrameView, Seq<u8>)>, _>(e),
            Ok(Some((f, rest))) => first_frame(b + more) == Ok::<_, ProtocolError>(
                Some((f, rest + more)),
            ),
            Ok(None) => true,
        },
{
    if b.len() >= HEADER_LEN {
        assert(header_of(b + more) == header_of(b));
        if let Ok(Some((f, rest))) = first_frame(b) {
            let h = header_of(b)->Ok_0;
            assert((b + more).subrange(5, 5 + h.len) =~= f.payload);
            assert((b + more).subrange(5 + h.len, (b + more).len() as int) =~= rest + more);
        }
    }
}

/// The frames at the front of a buffer, and the bytes behind the last of them.
pub open spec fn frames_in(b: Seq<u8>) -> (Seq<FrameView>, Seq<u8>)
    decreases b.len(),
{
    match first_frame(b) {
        Ok(Some((f, rest))) => (seq![f] + frames_in(rest).0, frames_in(rest).1),
        _ => (Seq::empty(), b),
    }
}

/// Frames on the wire, one behind the other.
pub open spec fn wire(fs: Seq<FrameView>) -> Seq<u8>
    decreases fs.len(),
{
    if fs.len() == 0 {
        Seq::empty()
    } else {
        frame_bytes(fs[0]) + wire(fs.drop_first())
    }
}

/// Frames that are written one behind the other come back in order, with nothing left over.
pub proof fn law_written_frames_come_back(fs: Seq<FrameView>)
    requires
        forall|i: int| 0 <= i < fs.len() ==> (#[trigger] fs[i]).payload.len() <= MAX_FRAME,
    ensures
        frames_in(wire(fs)) == (fs, Seq::<u8>::empty()),
    decreases fs.len(),
{
    if fs.len() > 0 {
        let rest = fs.drop_first();
        assert forall|i: int| 0 <= i < rest.len() implies (#[trigger] rest[i]).payload.len()
            <= MAX_FRAME by {
            assert(rest[i] == fs[i + 1]);
        }
        law_written_frames_come_back(rest);
        law_written_frame_comes_first(fs[0], wire(rest));
        assert(seq![fs[0]] + rest =~= fs);
    } else {
        assert(frames_in(wire(fs)).0 =~= fs);
    }
}

/// How a stream is cut into chunks does not matter: taking the frames of one chunk and then
/// those of what is left together with the next chunk gives the frames of both at once.
pub proof fn law_chunking_keeps_frames(a: Seq<u8>, b: Seq<u8>)
    ensures
        frames_in(a + b).0 == frames_in(a).0 + frames_in(frames_in(a).1 + b).0,
        frames_in(a + b).1 == frames_in(frames_in(a).1 + b).1,
    decreases a.len(),
{
    law_later_bytes_keep_the_first_frame(a, b);
    match first_frame(a) {
        Ok(Some((f, rest))) => {
            law_chunking_keeps_frames(rest, b);
            assert(frames_in(a + b).0 =~= frames_in(a).0 + frames_in(frames_in(a).1 + b).0);
        },
        _ => {
            assert(frames_in(a + b).0 =~= frames_in(a).0 + frames_in(a + b).0);
        },
    }
}

/// A frame that was written is read back, and the bytes that arrived with it stay buffered.
pub proof fn law_pipelined_bytes_are_kept(f: FrameView, more: Seq<u8>, reads: Seq<ReadView>)
    requires
        f.payload.len() <= MAX_FRAME,
    ensures
        read_one(
            Seq::empty(),
            seq![ReadView::Bytes(frame_bytes(f) + more)] + reads,
        ) == (ReadOne { result: Ok(f), rest: more, reads }),
{
    law_written_frame_comes_first(f, more);
    let all = seq![ReadView::Bytes(frame_bytes(f) + more)] + reads;
    assert(all.drop_first() =~= reads);
    assert(Seq::<u8>::empty() + (frame_bytes(f) + more) =~= frame_bytes(f) + more);
    assert(frame_bytes(f).len() >= 5);
    reveal_with_fuel(read_one, 2);
}

/// A frame on the wire is one byte for its kind, its payload's length in four bytes with the least
/// significant first, and the payload.
pub proof fn law_frame_layout(f: FrameView)
    requires
        f.payload.len() <= MAX_FRAME,
    ensures
        ({
            let b = frame_bytes(f);
            &&& b.len() == 5 + f.payload.len()
            &&& b[0] == 0 <==> f.kind == FrameKind::Handshake
            &&& b[0] == 1 <==> f.kind == FrameKind::Data
            &&& b[0] == 2 <==> f.kind == FrameKind::Resize
            &&& b[0] == 3 <==> f.kind == FrameKind::Exit
            &&& b[1] + 0x100 * b[2] + 0x10000 * b[3] + 0x1000000 * b[4] == f.payload.len()
            &&& b.skip(5) == f.payload
        }),
{
    let b = frame_bytes(f);
    lemma_le32(f.payload.len() as int);
    assert(b.skip(5) =~= f.payload);
}

/// A stream is told by one byte: 0 for the terminal, 1 for stdin, 2 for stdout and 3 for stderr.
/// Every other byte tells none.
pub proof fn law_stream_tags(b: u8)
    ensures
        stream_of(b) == Some(Stream::Pty) <==> b == 0,
        stream_of(b) == Some(Stream::Stdin) <==> b == 1,
        stream_of(b) == Some(Stream::Stdout) <==> b == 2,
        stream_of(b) == Some(Stream::Stderr) <==> b == 3,
        stream_of(b) is None <==> b > 3,
{
}

/// A header is refused exactly where its kind is none or its length is over the limit; the kind is
/// looked at first. Fewer than five bytes are no header.
pub proof fn law_bad_headers_are_refused(b: Seq<u8>)
    requires
        b.len() <= usize::MAX,
    ensures
        header_of(b) is Ok <==> b.len() >= 5 && b[0] <= 3 && b[1] + 0x100 * b[2] + 0x10000 * b[3]
            + 0x1000000 * b[4] <= 1_048_576,
        b.len() < 5 <==> header_of(b) matches Err(ProtocolError::ShortHeader(_)),
        b.len() >= 5 && b[0] > 3 ==> header_of(b) == Err::<FrameHeader, _>(
            ProtocolError::BadFrameKind(b[0]),
        ),
        b.len() >= 5 && b[0] <= 3 && header_of(b) is Err ==> header_of(b)->Err_0 is FrameTooLarge,
        header_of(b) is Ok ==> header_of(b)->Ok_0.len == b[1] + 0x100 * b[2] + 0x10000 * b[3]
            + 0x1000000 * b[4],
{
}

/// A size and an exit code take four bytes each, the least significant first; fewer are refused,
/// and bytes behind them change nothing.
pub proof fn law_payload_layout(r: Resize, c: ExitCode, b: Seq<u8>, more: Seq<u8>)
    ensures
        r.bytes().len() == 4,
        r.bytes()[0] + 0x100 * r.bytes()[1] == r.cols,
        r.bytes()[2] + 0x100 * r.bytes()[3] == r.rows,
        c.bytes().len() == 4,
        resize_of(r.bytes() + more) == Ok::<_, ProtocolError>(r),
        exit_of(c.bytes() + more) == Ok::<_, ProtocolError>(c),
        b.len() < 4 ==> resize_of(b) is Err && exit_of(b) is Err,
        b.len() >= 4 ==> resize_of(b) is Ok && exit_of(b) is Ok,
{
    law_resize_round_trip(r);
    law_exit_round_trip(c);
    let x = r.bytes() + more;
    assert(x[0] == r.bytes()[0] && x[1] == r.bytes()[1] && x[2] == r.bytes()[2] && x[3]
        == r.bytes()[3]);
    let y = c.bytes() + more;
    assert(y[0] == c.bytes()[0] && y[1] == c.bytes()[1] && y[2] == c.bytes()[2] && y[3]
        == c.bytes()[3]);
    let cols = r.cols as int;
    let rows = r.rows as int;
    assert(cols % 256 + 256 * (cols / 256) == cols);
    assert(rows % 256 + 256 * (rows / 256) == rows);
}

/// The bytes of chunks, one behind the other.
pub open spec fn chunk_bytes(chunks: Seq<Seq<u8>>) -> Seq<u8>
    decreases chunks.len(),
{
    if chunks.len() == 0 {
        Seq::empty()
    } else {
        chunks[0] + chunk_bytes(chunks.skip(1))
    }
}

/// Chunks as reads.
pub open spec fn as_reads(chunks: Seq<Seq<u8>>) -> Seq<ReadView> {
    chunks.map_values(|c: Seq<u8>| ReadView::Bytes(c))
}

/// A frame is read back however it is cut into reads, and every byte behind it is still there:
/// buffered, or in the reads that were not taken.
#[verifier::rlimit(50)]
pub proof fn law_cut_frame_is_read_back(
    f: FrameView,
    more: Seq<u8>,
    buf: Seq<u8>,
    chunks: Seq<Seq<u8>>,
)
    requires
        f.payload.len() <= MAX_FRAME,
        forall|i: int| 0 <= i < chunks.len() ==> (#[trigger] chunks[i]).len() > 0,
        buf + chunk_bytes(chunks) == frame_bytes(f) + more,
    ensures
        ({
            let one = read_one(buf, as_reads(chunks));
            &&& one.result == Ok::<_, ProtocolError>(f)
            &&& exists|k: int|
                0 <= k <= chunks.len() && one.reads == as_reads(#[trigger] chunks.skip(k)) && one.rest + chunk_bytes(chunks.skip(k)) == more
        }),
    decreases chunks.len(),
{
    let tail = chunk_bytes(chunks);
    let reads = as_reads(chunks);
    law_written_frame_comes_first(f, more);
    law_later_bytes_keep_the_first_frame(buf, tail);
    match first_frame(buf) {
        Err(_) => {},
        Ok(Some((g, rest))) => {
            assert(chunks.skip(0) =~= chunks);
            assert(rest + chunk_bytes(chunks.skip(0)) == more);
        },
        Ok(None) => {
            if chunks.len() == 0 {
                assert(buf + tail =~= buf);
            } else {
                assert(chunks[0].len() > 0);
                let fewer = chunks.skip(1);
                let now = buf + chunks[0];
                assert(now + chunk_bytes(fewer) =~= buf + tail);
                assert forall|i: int| 0 <= i < fewer.len() implies (#[trigger] fewer[i]).len() > 0 by {
                    assert(fewer[i] == chunks[i + 1]);
                }
                law_cut_frame_is_read_back(f, more, now, fewer);
                let fewer_reads = as_reads(fewer);
                assert(reads.drop_first() =~= fewer_reads);
                let one = read_one(now, fewer_reads);
                let k = choose|k: int|
                    0 <= k <= fewer.len() && one.reads == as_reads(#[trigger] fewer.skip(k)) && one.rest + chunk_bytes(fewer.skip(k)) == more;
                assert(chunks.skip(k + 1) =~= fewer.skip(k));
            }
        },
    }
}

/// A stream that ends inside a frame gives no frame: the end is reported, and the bytes stay.
pub proof fn law_stream_cut_inside_a_frame(f: FrameView, n: int)
    requires
        f.payload.len() <= MAX_FRAME,
        0 <= n < frame_bytes(f).len(),
    ensures
        ({
            let one = read_one(frame_bytes(f).take(n), Seq::empty());
            one.result == Err::<FrameView, _>(ProtocolError::UnexpectedEof) && one.rest
                == frame_bytes(f).take(n)
        }),
{
    law_cut_frame_is_incomplete(f, n);
}

/// The fields on the wire are a handshake exactly where the mode exists and the version is this
/// one, and then it has those very fields.
pub proof fn law_handshake_fields(f: WireFields)
    ensures
        handshake_of(f) is Ok <==> f.1 <= 1 && f.0 == 1,
        handshake_of(f) is Ok ==> handshake_of(f)->Ok_0.fields() == f,
        f.1 > 1 ==> handshake_of(f) == Err::<HandshakeView, _>(Refusal::BadMode),
        f.1 <= 1 && f.0 != 1 ==> handshake_of(f) == Err::<HandshakeView, _>(Refusal::Version(f.0)),
{
}

/// A payload is refused for its mode whatever follows it and whatever its version; for what cannot
/// be read before its version is looked at; and otherwise for its version alone.
pub proof fn law_refusals_come_in_order(b: Seq<u8>)
    ensures
        postcard_front(b) is Err ==> handshake_in(b) == Err::<HandshakeView, _>(
            Refusal::Malformed(postcard_front(b)->Err_0),
        ),
        postcard_front(b) is Ok && postcard_front(b)->Ok_0.1 > 1 ==> handshake_in(b) == Err::<
            HandshakeView,
            _,
        >(Refusal::BadMode),
        postcard_front(b) is Ok && postcard_front(b)->Ok_0.1 <= 1 && postcard_fields(b) is Err
            ==> handshake_in(b) == Err::<HandshakeView, _>(
            Refusal::Malformed(postcard_fields(b)->Err_0),
        ),
        handshake_in(b) is Ok ==> handshake_in(b)->Ok_0.version == 1 && postcard_fields(b) == Ok::<
            _,
            Seq<char>,
        >(handshake_in(b)->Ok_0.fields()),
{
    if postcard_fields(b) is Ok {
        law_handshake_fields(postcard_fields(b)->Ok_0);
    }
}

/// A handshake that was encoded is decoded to itself, whatever it holds and whatever stands behind
/// it; one of another version is refused as such.
pub proof fn law_handshake_reads_back(
    hs: &Handshake,
    sent: Result<Vec<u8>, ProtocolError>,
    b: &[u8],
    got: Result<Handshake, ProtocolError>,
)
    requires
        call_ensures(Handshake::encode, (hs,), sent),
        call_ensures(Handshake::decode, (b,), got),
        sent is Ok ==> sent->Ok_0@.is_prefix_of(b@),
    ensures
        sent is Ok,
        hs.version == 1 ==> got is Ok && got->Ok_0@ == hs@,
        hs.version != 1 ==> got == Err::<Handshake, _>(ProtocolError::VersionMismatch(hs.version)),
{
    assert(hs@.bytes().is_prefix_of(b@));
}

} // verus!
