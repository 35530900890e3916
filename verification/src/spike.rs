//! spike: the diagnostics: a record log of console input, a matrix of pseudoconsole flags, and a
//! nested relay. Here is what they say and decide; the console and the processes are elsewhere.

use vstd::prelude::*;
use crate::protocol::Resize;
use crate::shim_pty::{InputRecord, console_size, size_of_window};
use crate::text::{
    begins_with, chars_of, debug_string, debug_text, dec, dec_int, hex, is_string, push_dec,
    push_dec_int, push_hex, starts_with, string_of, utf8_lossy, utf8_lossy_text,
};
use crate::vtinput::{KeyEvent, MouseEvent, any_bit, encode_key_event, key_bytes};

verus! {

/// A diagnostic that the arguments name.
#[derive(Debug, Clone, PartialEq, Eq)]
pub enum SpikeVerb {
    Diag,
    PtyTest,
    /// The nested relay, with the shell to run in it.
    Conpty(String),
}

/// The diagnostic that arguments name, if they do; the nested relay runs the shell that is named
/// behind it, or PowerShell.
pub fn try_dispatch(args: &[String]) -> (r: Option<SpikeVerb>)
    ensures
        args@.len() == 0 ==> r is None,
        args@.len() > 0 ==> if args@[0]@ == "diag"@ {
            r == Some(SpikeVerb::Diag)
        } else if args@[0]@ == "ptytest"@ {
            r == Some(SpikeVerb::PtyTest)
        } else if args@[0]@ == "conpty"@ {
            &&& r is Some
            &&& r->0 is Conpty
            &&& r->0->Conpty_0@ == if args@.len() > 1 {
                args@[1]@
            } else {
                "C:\\Program Files\\PowerShell\\7\\pwsh.exe"@
            }
        } else {
            r is None
        },
{
    if args.len() == 0 {
        return None;
    }
    let verb: &str = args[0].as_str();
    if is_string(verb, "diag") {
        Some(SpikeVerb::Diag)
    } else if is_string(verb, "ptytest") {
        Some(SpikeVerb::PtyTest)
    } else if is_string(verb, "conpty") {
        if args.len() > 1 {
            Some(SpikeVerb::Conpty(args[1].clone()))
        } else {
            Some(SpikeVerb::Conpty("C:\\Program Files\\PowerShell\\7\\pwsh.exe".to_owned()))
        }
    } else {
        None
    }
}

// The record log.

/// A console record as it is logged.
#[derive(Debug, Clone, Copy, PartialEq, Eq, Structural)]
pub enum DiagRecord {
    Key(KeyEvent),
    Mouse(MouseEvent),
    /// The new size of the buffer.
    BufferSize(i16, i16),
    Menu,
    Focus(bool),
    /// An event type that is not known.
    Unknown(u16),
}

/// The kind of a console record as it is logged.
#[derive(Debug, Clone, Copy, PartialEq, Eq, Structural)]
pub enum DiagKind {
    Key,
    Mouse,
    BufferSize,
    Menu,
    Focus,
    /// An event type that is not known.
    Unknown(u16),
}

/// The kind that a record's event type stands for.
pub fn diag_kind(event_type: u16) -> (k: DiagKind)
    ensures
        k == match event_type {
            0x0001 => DiagKind::Key,
            0x0002 => DiagKind::Mouse,
            0x0004 => DiagKind::BufferSize,
            0x0008 => DiagKind::Menu,
            0x0010 => DiagKind::Focus,
            other => DiagKind::Unknown(other),
        },
{
    match event_type {
        0x0001 => DiagKind::Key,
        0x0002 => DiagKind::Mouse,
        0x0004 => DiagKind::BufferSize,
        0x0008 => DiagKind::Menu,
        0x0010 => DiagKind::Focus,
        other => DiagKind::Unknown(other),
    }
}

/// What a mouse event is, padded to one width.
pub open spec fn mouse_kind(flags: u32) -> Seq<char> {
    if any_bit(flags, 0x0001) {
        "move    "@
    } else if any_bit(flags, 0x0002) {
        "dblclick"@
    } else if any_bit(flags, 0x0004) {
        "wheel   "@
    } else if any_bit(flags, 0x0008) {
        "hwheel  "@
    } else {
        "button  "@
    }
}

/// The line that is logged for a record.
pub open spec fn record_line(rec: DiagRecord) -> Seq<char> {
    match rec {
        DiagRecord::Key(k) => "KEY  "@ + (if k.key_down {
            "down"@
        } else {
            "up  "@
        }) + " vk=0x"@ + hex(k.virtual_key_code as nat, 2) + " sc=0x"@ + hex(
            k.virtual_scan_code as nat,
            2,
        ) + " uc=0x"@ + hex(k.unicode_char as nat, 4) + " cks=0x"@ + hex(
            k.control_key_state as nat,
            8,
        ) + " rep="@ + dec(k.repeat_count as nat),
        DiagRecord::Mouse(m) => "MOUSE "@ + mouse_kind(m.event_flags) + " pos=("@ + dec_int(
            m.x as int,
        ) + ","@ + dec_int(m.y as int) + ") btn=0x"@ + hex(m.button_state as nat, 8)
            + " flags=0x"@ + hex(m.event_flags as nat, 0) + " cks=0x"@ + hex(
            m.control_key_state as nat,
            8,
        ),
        DiagRecord::BufferSize(x, y) => "RESIZE buffer dwSize=("@ + dec_int(x as int) + ","@
            + dec_int(y as int) + ")"@,
        DiagRecord::Menu => "MENU (internal)"@,
        DiagRecord::Focus(set) => if set {
            "FOCUS set=true"@
        } else {
            "FOCUS set=false"@
        },
        DiagRecord::Unknown(t) => "UNKNOWN EventType=0x"@ + hex(t as nat, 4),
    }
}

/// The line that is logged for a record.
pub fn describe(rec: &DiagRecord) -> (line: String)
    ensures
        line@ == record_line(*rec),
{
    match rec {
        DiagRecord::Key(k) => {
            let mut s: String = "KEY  ".to_owned();
            s.append(
                if k.key_down {
                    "down"
                } else {
                    "up  "
                },
            );
            s.append(" vk=0x");
            push_hex(&mut s, k.virtual_key_code as u32, 2);
            s.append(" sc=0x");
            push_hex(&mut s, k.virtual_scan_code as u32, 2);
            s.append(" uc=0x");
            push_hex(&mut s, k.unicode_char as u32, 4);
            s.append(" cks=0x");
            push_hex(&mut s, k.control_key_state, 8);
            s.append(" rep=");
            push_dec(&mut s, k.repeat_count as u64);
            s
        },
        DiagRecord::Mouse(m) => {
            let kind: &str = if m.event_flags & 0x0001 != 0 {
                "move    "
            } else if m.event_flags & 0x0002 != 0 {
                "dblclick"
            } else if m.event_flags & 0x0004 != 0 {
                "wheel   "
            } else if m.event_flags & 0x0008 != 0 {
                "hwheel  "
            } else {
                "button  "
            };
            let mut s: String = "MOUSE ".to_owned();
            s.append(kind);
            s.append(" pos=(");
            push_dec_int(&mut s, m.x as i64);
            s.append(",");
            push_dec_int(&mut s, m.y as i64);
            s.append(") btn=0x");
            push_hex(&mut s, m.button_state, 8);
            s.append(" flags=0x");
            push_hex(&mut s, m.event_flags, 0);
            s.append(" cks=0x");
            push_hex(&mut s, m.control_key_state, 8);
            s
        },
        DiagRecord::BufferSize(x, y) => {
            let mut s: String = "RESIZE buffer dwSize=(".to_owned();
            push_dec_int(&mut s, *x as i64);
            s.append(",");
            push_dec_int(&mut s, *y as i64);
            s.append(")");
            s
        },
        DiagRecord::Menu => "MENU (internal)".to_owned(),
        DiagRecord::Focus(set) => {
            if *set {
                "FOCUS set=true".to_owned()
            } else {
                "FOCUS set=false".to_owned()
            }
        },
        DiagRecord::Unknown(t) => {
            let mut s: String = "UNKNOWN EventType=0x".to_owned();
            push_hex(&mut s, *t as u32, 4);
            s
        },
    }
}

/// The header of the log.
pub fn diag_header(original: u32, set: u32) -> (s: String)
    ensures
        s@ == "# ssh-broker diag  original_mode=0x"@ + hex(original as nat, 8) + "  set_mode=0x"@
            + hex(set as nat, 8),
{
    let mut s: String = "# ssh-broker diag  original_mode=0x".to_owned();
    push_hex(&mut s, original, 8);
    s.append("  set_mode=0x");
    push_hex(&mut s, set, 8);
    s
}

/// What is done about one record.
#[derive(Debug)]
pub struct DiagStep {
    /// The line to log.
    pub line: String,
    /// Whether it is shown as well: everything but the mouse's motion.
    pub echo: bool,
    /// Whether the log ends.
    pub quit: bool,
}

/// The record log: it ends when Esc is pressed three times in a row.
#[derive(Debug)]
pub struct DiagLog {
    esc_run: u32,
}

impl View for DiagLog {
    type V = nat;

    /// How many times in a row Esc was pressed, up to three.
    closed spec fn view(&self) -> nat {
        self.esc_run as nat
    }
}

/// How often Esc was pressed in a row after a record. Releasing a key and anything but a key do
/// not count.
pub open spec fn esc_after(run: nat, rec: DiagRecord) -> nat {
    match rec {
        DiagRecord::Key(k) => if !k.key_down {
            run
        } else if k.virtual_key_code != 0x1b {
            0
        } else if run < 3 {
            run + 1
        } else {
            run
        },
        _ => run,
    }
}

impl DiagLog {
    pub fn new() -> (d: Self)
        ensures
            d@ == 0,
    {
        DiagLog { esc_run: 0 }
    }

    pub fn on_record(&mut self, rec: &DiagRecord) -> (step: DiagStep)
        ensures
            final(self)@ == esc_after(old(self)@, *rec),
            step.line@ == record_line(*rec),
            step.echo == !begins_with(record_line(*rec), "MOUSE move"@),
            step.quit == (*rec is Key && rec->Key_0.key_down && final(self)@ >= 3),
    {
        let line: String = describe(rec);
        let chars: Vec<char> = chars_of(line.as_str());
        let echo: bool = !starts_with(chars.as_slice(), "MOUSE move");
        let mut quit: bool = false;
        if let DiagRecord::Key(k) = rec {
            if k.key_down {
                if k.virtual_key_code == 0x1b {
                    if self.esc_run < 3 {
                        self.esc_run += 1;
                    }
                } else {
                    self.esc_run = 0;
                }
                quit = self.esc_run >= 3;
            }
        }
        DiagStep { line, echo, quit }
    }
}

// The flag matrix.

/// Up to 160 characters of output, quoted, behind its length.
pub open spec fn output_line(output: Seq<u8>) -> Seq<char> {
    let text = utf8_lossy_text(output);
    let shown = if text.len() > 160 {
        text.take(160)
    } else {
        text
    };
    "  out("@ + dec(output.len()) + "b)="@ + debug_text(shown) + "\n"@
}

fn push_output(s: &mut String, output: &[u8])
    ensures
        final(s)@ == old(s)@ + output_line(output@),
{
    let text: String = utf8_lossy(output);
    let chars: Vec<char> = chars_of(text.as_str());
    let n: usize = if chars.len() > 160 {
        160
    } else {
        chars.len()
    };
    let front: &[char] = vstd::slice::slice_subrange(chars.as_slice(), 0, n);
    proof {
        if chars@.len() > 160 {
            assert(front@ =~= chars@.take(160));
        } else {
            assert(front@ =~= chars@);
        }
    }
    let shown: String = string_of(front);
    let quoted: String = debug_string(shown.as_str());
    s.append("  out(");
    push_dec(s, output.len() as u64);
    s.append("b)=");
    s.append(quoted.as_str());
    s.append("\n");
    assert(s@ =~= old(s)@ + output_line(output@));
}

/// How one case of the matrix went.
#[derive(Debug)]
pub enum CaseOutcome {
    PipeFailed,
    PtyFailed(String),
    /// The attribute list, of so many bytes, could not be set up.
    AttrFailed(usize),
    /// The child could not be created; with a pseudoconsole, the attribute list's bytes.
    SpawnFailed(Option<usize>, String),
    /// The child ran: the list's bytes, the wait's result, the exit code, and what it wrote.
    Ran(Option<usize>, u32, u32, Option<Vec<u8>>),
}

/// `None` or `Some(n)`.
pub open spec fn flags_text(flags: Option<u32>) -> Seq<char> {
    match flags {
        None => "None"@,
        Some(n) => "Some("@ + dec(n as nat) + ")"@,
    }
}

/// The lines of a pseudoconsole that was created.
pub open spec fn created_lines(attr: Option<usize>) -> Seq<char> {
    match attr {
        None => Seq::empty(),
        Some(n) => "  CreatePseudoConsole=OK\n  attr_list_bytes="@ + dec(n as nat) + "\n"@,
    }
}

fn push_created(s: &mut String, attr: Option<usize>)
    ensures
        final(s)@ == old(s)@ + created_lines(attr),
{
    if let Some(n) = attr {
        s.append("  CreatePseudoConsole=OK\n  attr_list_bytes=");
        push_dec(s, n as u64);
        s.append("\n");
        assert(s@ =~= old(s)@ + created_lines(attr));
    } else {
        assert(s@ =~= old(s)@ + created_lines(attr));
    }
}

/// What a case's outcome adds to its report.
pub open spec fn outcome_lines(outcome: CaseOutcome) -> Seq<char> {
    match outcome {
        CaseOutcome::PipeFailed => "  CreatePipe FAILED\n"@,
        CaseOutcome::PtyFailed(e) => "  CreatePseudoConsole FAILED: "@ + e@ + "\n"@,
        CaseOutcome::AttrFailed(n) => created_lines(Some(n)) + "  attribute-list setup FAILED\n"@,
        CaseOutcome::SpawnFailed(attr, e) => created_lines(attr) + "  CreateProcessW FAILED: "@ + e@
            + "\n"@,
        CaseOutcome::Ran(attr, wait, code, output) => created_lines(attr)
            + "  CreateProcessW=OK\n  wait=0x"@ + hex(wait as nat, 0) + "  exit=0x"@ + hex(
            code as nat,
            8,
        ) + " ("@ + dec(code as nat) + ")\n"@ + (match output {
            Some(o) => output_line(o@),
            None => Seq::empty(),
        }),
    }
}

/// The report of one case of the matrix.
#[verifier::rlimit(50)]
pub fn case_report(
    label: &str,
    cmdline: &str,
    flags: Option<u32>,
    outcome: &CaseOutcome,
) -> (report: String)
    ensures
        report@ == "["@ + label@ + "] flags="@ + flags_text(flags) + "\n  cmd="@ + cmdline@ + "\n"@
            + outcome_lines(*outcome),
{
    let mut s: String = "[".to_owned();
    s.append(label);
    s.append("] flags=");
    let ghost before = s@;
    match flags {
        None => {
            s.append("None");
        },
        Some(n) => {
            s.append("Some(");
            push_dec(&mut s, n as u64);
            s.append(")");
        },
    }
    assert(s@ =~= before + flags_text(flags));
    s.append("\n  cmd=");
    s.append(cmdline);
    s.append("\n");
    let ghost head = s@;
    match outcome {
        CaseOutcome::PipeFailed => {
            s.append("  CreatePipe FAILED\n");
        },
        CaseOutcome::PtyFailed(e) => {
            s.append("  CreatePseudoConsole FAILED: ");
            s.append(e.as_str());
            s.append("\n");
        },
        CaseOutcome::AttrFailed(n) => {
            push_created(&mut s, Some(*n));
            s.append("  attribute-list setup FAILED\n");
        },
        CaseOutcome::SpawnFailed(attr, e) => {
            push_created(&mut s, *attr);
            s.append("  CreateProcessW FAILED: ");
            s.append(e.as_str());
            s.append("\n");
        },
        CaseOutcome::Ran(attr, wait, code, output) => {
            push_created(&mut s, *attr);
            s.append("  CreateProcessW=OK\n  wait=0x");
            push_hex(&mut s, *wait, 0);
            s.append("  exit=0x");
            push_hex(&mut s, *code, 8);
            s.append(" (");
            push_dec(&mut s, *code as u64);
            s.append(")\n");
            if let Some(o) = output {
                push_output(&mut s, o.as_slice());
            }
        },
    }
    assert(s@ =~= head + outcome_lines(*outcome));
    s
}

/// Whether a wait timed out, so that the child is still running and has to be killed.
pub fn wait_timed_out(wait: u32) -> (b: bool)
    ensures
        b == (wait == 0x0102),
{
    wait == 0x0102
}

/// How the same child went through the reference implementation.
#[derive(Debug)]
pub enum ReferenceOutcome {
    SpawnFailed(String),
    /// Its process, why its output could not be had, its exit code or why not, and its output.
    Ran(u32, Option<String>, Result<u32, String>, Vec<u8>),
}

/// The line of output that could not be had, if it could not.
pub open spec fn output_error_line(e: Option<String>) -> Seq<char> {
    match e {
        Some(reason) => "  output() FAILED: "@ + reason@ + "\n"@,
        None => Seq::empty(),
    }
}

fn push_output_error(s: &mut String, e: &Option<String>)
    ensures
        final(s)@ == old(s)@ + output_error_line(*e),
{
    if let Some(reason) = e {
        s.append("  output() FAILED: ");
        s.append(reason.as_str());
        s.append("\n");
    }
    assert(s@ =~= old(s)@ + output_error_line(*e));
}

/// The line of the wait for the child.
pub open spec fn wait_line(wait: Result<u32, String>) -> Seq<char> {
    match wait {
        Ok(code) => "  wait exit=0x"@ + hex(code as nat, 8) + " ("@ + dec(code as nat) + ")\n"@,
        Err(e) => "  wait FAILED/timeout: "@ + e@ + "\n"@,
    }
}

fn push_wait(s: &mut String, wait: &Result<u32, String>)
    ensures
        final(s)@ == old(s)@ + wait_line(*wait),
{
    match wait {
        Ok(code) => {
            s.append("  wait exit=0x");
            push_hex(s, *code, 8);
            s.append(" (");
            push_dec(s, *code as u64);
            s.append(")\n");
        },
        Err(e) => {
            s.append("  wait FAILED/timeout: ");
            s.append(e.as_str());
            s.append("\n");
        },
    }
    assert(s@ =~= old(s)@ + wait_line(*wait));
}

/// What the reference's outcome adds to its report.
pub open spec fn reference_lines(outcome: ReferenceOutcome) -> Seq<char> {
    match outcome {
        ReferenceOutcome::SpawnFailed(e) => "  spawn FAILED: "@ + e@ + "\n"@,
        ReferenceOutcome::Ran(pid, output_error, wait, output) => "  spawn=OK pid="@ + dec(
            pid as nat,
        ) + "\n"@ + output_error_line(output_error) + wait_line(wait) + output_line(output@),
    }
}

/// The report of the reference implementation.
#[verifier::rlimit(50)]
pub fn reference_report(cmdline: &str, outcome: &ReferenceOutcome) -> (report: String)
    ensures
        report@ == "[conpty-crate] cmd="@ + cmdline@ + "\n"@ + reference_lines(*outcome),
{
    let mut s: String = "[conpty-crate] cmd=".to_owned();
    s.append(cmdline);
    s.append("\n");
    let ghost head = s@;
    match outcome {
        ReferenceOutcome::SpawnFailed(e) => {
            s.append("  spawn FAILED: ");
            s.append(e.as_str());
            s.append("\n");
        },
        ReferenceOutcome::Ran(pid, output_error, wait, output) => {
            s.append("  spawn=OK pid=");
            push_dec(&mut s, *pid as u64);
            s.append("\n");
            push_output_error(&mut s, output_error);
            push_wait(&mut s, wait);
            push_output(&mut s, output.as_slice());
        },
    }
    assert(s@ =~= head + reference_lines(*outcome));
    s
}

/// The cases of the matrix: their labels, and the flags of their pseudoconsole if they have one.
pub fn ptytest_cases() -> (cases: [(&'static str, Option<u32>); 7])
    ensures
        cases@[0].0@ == "no-conpty"@ && cases@[0].1 is None,
        cases@[1].0@ == "flags=0"@ && cases@[1].1 == Some(0x0u32),
        cases@[2].0@ == "RESIZE_QUIRK(2)"@ && cases@[2].1 == Some(0x2u32),
        cases@[3].0@ == "WIN32_INPUT(4)"@ && cases@[3].1 == Some(0x4u32),
        cases@[4].0@ == "PASSTHROUGH(8)"@ && cases@[4].1 == Some(0x8u32),
        cases@[5].0@ == "RESIZE|WIN32(6)"@ && cases@[5].1 == Some(0x6u32),
        cases@[6].0@ == "ALL(2|4|8=E)"@ && cases@[6].1 == Some(0xeu32),
{
    [
        ("no-conpty", None),
        ("flags=0", Some(0x0)),
        ("RESIZE_QUIRK(2)", Some(0x2)),
        ("WIN32_INPUT(4)", Some(0x4)),
        ("PASSTHROUGH(8)", Some(0x8)),
        ("RESIZE|WIN32(6)", Some(0x6)),
        ("ALL(2|4|8=E)", Some(0xe)),
    ]
}

/// Reports, each with an empty line behind it.
pub open spec fn listed(reports: Seq<String>) -> Seq<char>
    decreases reports.len(),
{
    if reports.len() == 0 {
        Seq::empty()
    } else {
        listed(reports.drop_last()) + reports.last()@ + "\n"@
    }
}

/// The report of the whole matrix.
pub fn ptytest_report(session: u32, reports: &[String]) -> (report: String)
    ensures
        report@
            == "=== ssh-broker ptytest: ConPTY flag matrix (child=cmd.exe)  running_in_session="@
            + dec(session as nat) + " ===\n"@ + listed(reports@),
{
    let mut s: String =
        "=== ssh-broker ptytest: ConPTY flag matrix (child=cmd.exe)  running_in_session=".to_owned();
    push_dec(&mut s, session as u64);
    s.append(" ===\n");
    let ghost head = s@;
    let mut i: usize = 0;
    assert(reports@.take(0) =~= Seq::<String>::empty());
    assert(s@ =~= head + listed(reports@.take(0)));
    while i < reports.len()
        invariant
            i <= reports@.len(),
            s@ == head + listed(reports@.take(i as int)),
        decreases reports@.len() - i,
    {
        s.append(reports[i].as_str());
        s.append("\n");
        proof {
            let now = reports@.take(i + 1);
            assert(now.drop_last() =~= reports@.take(i as int));
            assert(s@ =~= head + listed(now));
        }
        i += 1;
    }
    assert(reports@.take(i as int) =~= reports@);
    s
}

// The nested relay.

/// The command of the nested shell, which first runs a script that names it.
pub fn nested_command(shell: &str, script: &str) -> (s: String)
    ensures
        s@ == "\""@ + shell@ + "\" -NoLogo -NoExit -File \""@ + script@ + "\""@,
{
    let mut s: String = "\"".to_owned();
    s.append(shell);
    s.append("\" -NoLogo -NoExit -File \"");
    s.append(script);
    s.append("\"");
    s
}

/// What a batch of console records gives the nested shell: keys as input, and window sizes.
#[derive(Debug)]
pub struct NestedInput {
    pub bytes: Vec<u8>,
    pub sizes: Vec<Resize>,
}

/// The input sequences of the keys of a batch.
pub open spec fn key_input(recs: Seq<InputRecord>) -> Seq<u8>
    decreases recs.len(),
{
    if recs.len() == 0 {
        Seq::empty()
    } else {
        let before = key_input(recs.drop_last());
        match recs.last() {
            InputRecord::Key(k) => before + key_bytes(k),
            _ => before,
        }
    }
}

/// The sizes of a batch, where the window could be queried.
pub open spec fn size_input(recs: Seq<InputRecord>) -> Seq<Resize>
    decreases recs.len(),
{
    if recs.len() == 0 {
        Seq::empty()
    } else {
        let before = size_input(recs.drop_last());
        match recs.last() {
            InputRecord::WindowBufferSize(Some(w)) => before.push(size_of_window(Some(w))),
            _ => before,
        }
    }
}

/// Turn a batch of console records into input for the nested shell. The mouse and the focus are
/// not forwarded.
pub fn nested_input(recs: &[InputRecord]) -> (input: NestedInput)
    ensures
        input.bytes@ == key_input(recs@),
        input.sizes@ == size_input(recs@),
{
    let mut bytes: Vec<u8> = Vec::new();
    let mut sizes: Vec<Resize> = Vec::new();
    let mut i: usize = 0;
    assert(recs@.take(0) =~= Seq::<InputRecord>::empty());
    while i < recs.len()
        invariant
            i <= recs@.len(),
            bytes@ == key_input(recs@.take(i as int)),
            sizes@ == size_input(recs@.take(i as int)),
        decreases recs@.len() - i,
    {
        assert(recs@.take(i + 1).drop_last() =~= recs@.take(i as int));
        match &recs[i] {
            InputRecord::Key(k) => {
                let mut key: Vec<u8> = encode_key_event(k);
                bytes.append(&mut key);
            },
            InputRecord::WindowBufferSize(window) => {
                if window.is_some() {
                    sizes.push(console_size(*window));
                }
            },
            _ => {},
        }
        i += 1;
    }
    assert(recs@.take(i as int) =~= recs@);
    NestedInput { bytes, sizes }
}

// Laws.

/// Three presses of Esc in a row end the log, whatever is released or moved in between.
pub proof fn law_third_escape_quits(esc: KeyEvent, between: DiagRecord)
    requires
        esc.key_down,
        esc.virtual_key_code == 0x1b,
        !(between is Key) || !between->Key_0.key_down,
    ensures
        ({
            let first = esc_after(esc_after(0, DiagRecord::Key(esc)), between);
            let second = esc_after(esc_after(first, DiagRecord::Key(esc)), between);
            esc_after(second, DiagRecord::Key(esc)) == 3
        }),
{
}

/// The log ends only on the third press of Esc in a row: any other key that is pressed begins the
/// count anew, and what is released, and what is no key, does not count at all.
pub proof fn law_only_escapes_in_a_row_count(run: nat, rec: DiagRecord)
    requires
        run <= 3,
    ensures
        esc_after(run, rec) <= 3,
        esc_after(run, rec) == 3 && run < 3 ==> run == 2 && rec is Key && rec->Key_0.key_down
            && rec->Key_0.virtual_key_code == 0x1b,
        rec is Key && rec->Key_0.key_down && rec->Key_0.virtual_key_code != 0x1b ==> esc_after(
            run,
            rec,
        ) == 0,
        !(rec is Key && rec->Key_0.key_down) ==> esc_after(run, rec) == run,
        run < 3 && rec is Key && rec->Key_0.key_down && rec->Key_0.virtual_key_code == 0x1b
            ==> esc_after(run, rec) == run + 1,
{
}

/// Keys reach the nested shell in their order, and sizes in theirs, however the records are cut
/// into batches; a key is never lost to a size, nor a size to a key.
pub proof fn law_nested_batches_join(a: Seq<InputRecord>, b: Seq<InputRecord>)
    ensures
        key_input(a + b) == key_input(a) + key_input(b),
        size_input(a + b) == size_input(a) + size_input(b),
    decreases b.len(),
{
    let all = a + b;
    if b.len() == 0 {
        assert(all =~= a);
        assert(key_input(a) + key_input(b) =~= key_input(a));
        assert(size_input(a) + size_input(b) =~= size_input(a));
    } else {
        law_nested_batches_join(a, b.drop_last());
        assert(all.drop_last() =~= a + b.drop_last());
        assert(key_input(all) =~= key_input(a) + key_input(b));
        assert(size_input(all) =~= size_input(a) + size_input(b));
    }
}

/// One key is its sequence, and nothing but a key is input; one size that could be asked for is
/// that size.
pub proof fn law_nested_record(rec: InputRecord)
    ensures
        rec is Key ==> key_input(seq![rec]) == key_bytes(rec->Key_0),
        !(rec is Key) ==> key_input(seq![rec]) == Seq::<u8>::empty(),
        rec matches InputRecord::WindowBufferSize(Some(w)) ==> size_input(seq![rec]) == seq![
            size_of_window(Some(w)),
        ],
        !(rec is WindowBufferSize) ==> size_input(seq![rec]) == Seq::<Resize>::empty(),
{
    let one = seq![rec];
    assert(one.drop_last() =~= Seq::<InputRecord>::empty());
    assert(key_input(one.drop_last()) =~= Seq::<u8>::empty());
    assert(size_input(one.drop_last()) =~= Seq::<Resize>::empty());
    if let InputRecord::Key(k) = rec {
        assert(key_input(one) =~= key_bytes(k));
    }
    if let InputRecord::WindowBufferSize(Some(w)) = rec {
        assert(size_input(one) =~= seq![size_of_window(Some(w))]);
    }
}

} // verus!
