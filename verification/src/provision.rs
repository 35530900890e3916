//! provision: the decisions of self-install (`apply`) and self-check (`verify`).
//!
//! `apply` is ordered so that a partial run never costs SSH access: the default shell is changed
//! last, after the socket directory is ready and the program is in place. The account that the
//! directory admits is resolved by name, so that a run as SYSTEM admits the account that the
//! agent runs as.

use vstd::prelude::*;
use vstd::utf8::encode_utf8;
use crate::protocol::{join16, le16, le16_bytes, text_of};
use crate::provision::probe::{ProbeReport, SymlinkState, UpstreamState};
use crate::provision::report::{Check, CheckView, checks};
use crate::provision::schtasks::{
    parse_query_registered, unit_bytes, xml_has_interactive_token,
};
use crate::provision::sshd::{
    Subsystem, SubsystemView, declarations, declared_in_all, parse_subsystems, same_declarations,
};
use crate::shim::texts;
use crate::text::{
    CharClass, chars_of, debug_string, debug_text, dec, dec_int, holds, is_string, is_text, lines,
    lowered, push_dec, push_dec_int, string_of, to_lower, trim, trimmed, units, utf16_lossy,
    utf16_lossy_text, utf8_lossy, utf8_lossy_text,
};

pub mod bounded;
pub mod config;
pub mod probe;
pub mod registry;
pub mod report;
pub mod schtasks;
pub mod sshd;

verus! {

/// The install root.
pub fn base_dir() -> (d: String)
    ensures
        d@ == "C:\\ProgramData\\ssh-broker"@,
{
    "C:\\ProgramData\\ssh-broker".to_owned()
}

/// Where `apply` keeps the install config.
pub fn config_path() -> (p: String)
    ensures
        p@ == "C:\\ProgramData\\ssh-broker"@ + "\\config.toml"@,
{
    let mut p: String = base_dir();
    p.append("\\config.toml");
    p
}

/// Where the program is installed: everything registers this path, because one that can be
/// deleted would cost SSH access the moment it is.
pub fn canonical_exe() -> (p: String)
    ensures
        p@ == "C:\\ProgramData\\ssh-broker"@ + "\\ssh-broker.exe"@,
{
    let mut p: String = base_dir();
    p.append("\\ssh-broker.exe");
    p
}

/// Whether a user name is that of a service: none, SYSTEM, a machine account or one of the
/// service accounts, in whatever case.
pub open spec fn is_service(name: Seq<char>) -> bool {
    ||| name.len() == 0
    ||| lowered(name) == "system"@
    ||| name.last() == '$'
    ||| lowered(name) == "local service"@
    ||| lowered(name) == "network service"@
}

/// The interactive user running `apply`, if it is one: the account that the directory admits must
/// never be a service.
pub fn interactive_user(name: Option<String>) -> (r: Option<String>)
    ensures
        r == match name {
            Some(n) => if is_service(n@) {
                None
            } else {
                Some(n)
            },
            None => None,
        },
{
    match name {
        None => None,
        Some(n) => {
            let v: Vec<char> = chars_of(n.as_str());
            if v.len() == 0 {
                return None;
            }
            let low: Vec<char> = to_lower(v.as_slice());
            if is_text(low.as_slice(), "system") || v[v.len() - 1] == '$' || is_text(
                low.as_slice(),
                "local service",
            ) || is_text(low.as_slice(), "network service") {
                None
            } else {
                Some(n)
            }
        },
    }
}

/// Where the first `--user` stands among arguments, from `i` on.
pub open spec fn user_flag(args: Seq<Seq<char>>, i: int) -> int
    decreases args.len() - i,
{
    if i < args.len() && args[i] != "--user"@ {
        user_flag(args, i + 1)
    } else {
        i
    }
}

/// The account behind the first `--user`, if it is not empty.
pub fn arg_user(args: &[String]) -> (r: Option<String>)
    ensures
        ({
            let all = texts(args@);
            let i = user_flag(all, 0);
            text_of(r) == if i + 1 < all.len() && all[i + 1].len() > 0 {
                Some(all[i + 1])
            } else {
                None
            }
        }),
{
    let ghost all = texts(args@);
    let mut i: usize = 0;
    while i < args.len()
        invariant
            i <= args@.len(),
            all == texts(args@),
            user_flag(all, 0) == user_flag(all, i as int),
        decreases args@.len() - i,
    {
        assert(all[i as int] == args@[i as int]@);
        if is_string(args[i].as_str(), "--user") {
            if i + 1 < args.len() {
                assert(all[i + 1] == args@[i + 1]@);
                if !args[i + 1].as_str().is_empty() {
                    return Some(args[i + 1].clone());
                }
            }
            return None;
        }
        i += 1;
    }
    None
}

/// A registry value as a path: without the whitespace around it and the quotes within that.
pub open spec fn bare_path(s: Seq<char>) -> Seq<char> {
    trimmed(trimmed(s, CharClass::Whitespace), CharClass::Quote)
}

/// Compare a registry value with a path, without regard to ASCII case.
pub fn eq_path(a: &str, b: &str) -> (same: bool)
    ensures
        same == (lowered(bare_path(a@)) == lowered(b@)),
{
    let va: Vec<char> = chars_of(a);
    let vb: Vec<char> = chars_of(b);
    let bare: &[char] = trim(trim(va.as_slice(), CharClass::Whitespace), CharClass::Quote);
    let low_a: Vec<char> = to_lower(bare);
    let low_b: Vec<char> = to_lower(vb.as_slice());
    let text_b: String = string_of(low_b.as_slice());
    is_text(low_a.as_slice(), text_b.as_str())
}

/// Whether the default-shell pair is the one that is wanted.
pub open spec fn is_our_shell(shell: Seq<char>, opt: Seq<char>, exe: Seq<char>) -> bool {
    lowered(bare_path(shell)) == lowered(exe) && opt == "-c"@
}

/// Whether the default-shell pair that was read back is the one that was written.
pub fn default_shell_ok(shell: &str, opt: &str, exe: &str) -> (ok: bool)
    ensures
        ok == is_our_shell(shell@, opt@, exe@),
{
    eq_path(shell, exe) && is_string(opt, "-c")
}

// Output of other programs.

/// How many of the first `n` bytes are zero.
pub open spec fn zeros(b: Seq<u8>, n: int) -> nat
    decreases n,
{
    if n <= 0 {
        0
    } else {
        zeros(b, n - 1) + (if b[n - 1] == 0 {
            1nat
        } else {
            0
        })
    }
}

/// Whether bytes begin with the mark of UTF-16LE.
pub open spec fn has_mark(b: Seq<u8>) -> bool {
    b.len() >= 2 && b[0] == 0xff && b[1] == 0xfe
}

/// Whether the first bytes hold so many zeros that they are UTF-16.
pub open spec fn zero_heavy(b: Seq<u8>) -> bool {
    zeros(
        b,
        if b.len() < 64 {
            b.len() as int
        } else {
            64
        },
    ) > 8
}

/// Bytes as UTF-16 units, the least significant first; an odd byte at the end is dropped.
pub open spec fn paired(b: Seq<u8>) -> Seq<u16> {
    Seq::new((b.len() / 2) as nat, |i: int| le16(b[2 * i], b[2 * i + 1]) as u16)
}

/// The text that a program's output holds.
pub open spec fn output_text(b: Seq<u8>) -> Seq<char> {
    if has_mark(b) {
        utf16_lossy_text(paired(b.skip(2)))
    } else if zero_heavy(b) {
        utf16_lossy_text(paired(b))
    } else {
        utf8_lossy_text(b)
    }
}

/// The units of output that is UTF-16; `None` where it is not.
pub fn output_units(bytes: &[u8]) -> (r: Option<Vec<u16>>)
    ensures
        has_mark(bytes@) ==> r is Some && r->0@ == paired(bytes@.skip(2)),
        !has_mark(bytes@) && zero_heavy(bytes@) ==> r is Some && r->0@ == paired(bytes@),
        !has_mark(bytes@) && !zero_heavy(bytes@) ==> r is None,
{
    let len: usize = bytes.len();
    let mark: bool = len >= 2 && bytes[0] == 0xff && bytes[1] == 0xfe;
    let window: usize = if len < 64 {
        len
    } else {
        64
    };
    let mut count: usize = 0;
    let mut i: usize = 0;
    while i < window
        invariant
            i <= window,
            window <= bytes@.len(),
            window <= 64,
            count <= i,
            count == zeros(bytes@, i as int),
        decreases window - i,
    {
        if bytes[i] == 0 {
            count += 1;
        }
        i += 1;
    }
    if !mark && count <= 8 {
        return None;
    }
    let start: usize = if mark {
        2
    } else {
        0
    };
    let body: &[u8] = vstd::slice::slice_subrange(bytes, start, len);
    let ghost b = body@;
    proof {
        if mark {
            assert(b =~= bytes@.skip(2));
        } else {
            assert(b =~= bytes@);
        }
    }
    let n: usize = body.len() / 2;
    let mut units: Vec<u16> = Vec::new();
    let mut k: usize = 0;
    while k < n
        invariant
            k <= n,
            b == body@,
            n == b.len() / 2,
            n <= usize::MAX / 2,
            units@ =~= paired(b).take(k as int),
        decreases n - k,
    {
        let unit: u16 = join16(body[2 * k], body[2 * k + 1]);
        assert(unit == paired(b)[k as int]);
        units.push(unit);
        k += 1;
    }
    assert(units@ =~= paired(b));
    Some(units)
}

/// The UTF-8 bytes of a text never begin with the mark of UTF-16.
proof fn lemma_text_has_no_mark(t: Seq<char>)
    ensures
        !has_mark(encode_utf8(t)),
{
    if t.len() > 0 {
        vstd::utf8::encode_utf8_first_scalar(t);
        assert(vstd::utf8::valid_first_scalar(encode_utf8(t)));
    }
}

/// The units that are made of the bytes of units are those units.
proof fn lemma_paired_bytes(u: Seq<u16>)
    ensures
        unit_bytes(u).len() == 2 * u.len(),
        paired(unit_bytes(u)) == u,
    decreases u.len(),
{
    if u.len() == 0 {
        assert(paired(unit_bytes(u)) =~= u);
    } else {
        let before = u.drop_last();
        lemma_paired_bytes(before);
        let b = unit_bytes(before);
        let x = u.last() as int;
        assert(unit_bytes(u) == b + le16_bytes(x));
        assert forall|i: int| 0 <= i < u.len() implies paired(unit_bytes(u))[i] == u[i] by {
            if i < before.len() {
                assert(paired(b)[i] == before[i]);
                assert(unit_bytes(u)[2 * i] == b[2 * i]);
                assert(unit_bytes(u)[2 * i + 1] == b[2 * i + 1]);
            } else {
                assert(unit_bytes(u)[2 * i] == (x % 256) as u8);
                assert(unit_bytes(u)[2 * i + 1] == (x / 256) as u8);
                assert(x % 256 + 256 * (x / 256) == x);
            }
        }
        assert(paired(unit_bytes(u)) =~= u);
    }
}

/// Whether bytes are a text in a form that its decoding recovers: UTF-8, UTF-16 behind its mark,
/// or UTF-16 that is told by its zeros.
pub open spec fn is_output(b: Seq<u8>, t: Seq<char>) -> bool {
    ||| b == encode_utf8(t) && !zero_heavy(b)
    ||| b == seq![0xffu8, 0xfe] + unit_bytes(units(t))
    ||| b == unit_bytes(units(t)) && !has_mark(b) && zero_heavy(b)
}

/// Decode a program's output, which can be UTF-16LE on a redirected pipe (a mark, or many zeros);
/// otherwise it is UTF-8.
pub fn decode_output(bytes: &[u8]) -> (s: String)
    ensures
        s@ == output_text(bytes@),
        forall|t: Seq<char>| #[trigger] is_output(bytes@, t) ==> s@ == t,
{
    proof {
        assert forall|t: Seq<char>| #[trigger] is_output(bytes@, t) implies if has_mark(bytes@) {
            paired(bytes@.skip(2)) == units(t)
        } else if zero_heavy(bytes@) {
            paired(bytes@) == units(t)
        } else {
            bytes@ == encode_utf8(t)
        } by {
            lemma_text_has_no_mark(t);
            lemma_paired_bytes(units(t));
            if bytes@ == seq![0xffu8, 0xfe] + unit_bytes(units(t)) {
                assert(bytes@.skip(2) =~= unit_bytes(units(t)));
            }
        }
    }
    match output_units(bytes) {
        Some(units) => utf16_lossy(units.as_slice()),
        None => utf8_lossy(bytes),
    }
}

// Reading sshd's declarations.

/// Where sshd is looked for: on the path, then where it is normally installed.
pub fn sshd_candidates() -> (v: Vec<String>)
    ensures
        texts(v@) == seq!["sshd"@, "C:\\Windows\\System32\\OpenSSH\\sshd.exe"@],
{
    let mut v: Vec<String> = Vec::new();
    v.push("sshd".to_owned());
    v.push("C:\\Windows\\System32\\OpenSSH\\sshd.exe".to_owned());
    assert(texts(v@) =~= seq!["sshd"@, "C:\\Windows\\System32\\OpenSSH\\sshd.exe"@]);
    v
}

/// What running `sshd -T` came to.
#[derive(Debug)]
pub enum SshdRun {
    /// It ran, with success or not.
    Ran { success: bool, stdout: Vec<u8>, stderr: Vec<u8> },
    /// It could not be run, and why.
    NotRun(String),
}

/// The declarations that a run gives, or why it gives none.
pub open spec fn run_declares(exe: Seq<char>, run: SshdRun) -> Result<
    Seq<SubsystemView>,
    Seq<char>,
> {
    match run {
        SshdRun::Ran { success, stdout, stderr } => if success {
            Ok(declared_in_all(lines(output_text(stdout@))))
        } else {
            Err(
                "`"@ + exe + " -T` failed: "@ + trimmed(
                    output_text(stderr@),
                    CharClass::Whitespace,
                ),
            )
        },
        SshdRun::NotRun(e) => Err("could not run `"@ + exe + "`: "@ + e@),
    }
}

/// Read the declarations from one run of `sshd -T`.
pub fn sshd_declarations(exe: &str, run: &SshdRun) -> (r: Result<Vec<Subsystem>, String>)
    ensures
        match run_declares(exe@, *run) {
            Ok(d) => r is Ok && declarations(r->Ok_0@) == d,
            Err(e) => r is Err && r->Err_0@ == e,
        },
        run matches SshdRun::Ran { success: true, stdout, .. } ==> forall|t: Seq<char>| #[trigger]
            is_output(stdout@, t) ==> r is Ok && declarations(r->Ok_0@) == declared_in_all(
                lines(t),
            ),
{
    match run {
        SshdRun::Ran { success, stdout, stderr } => {
            if *success {
                let dump: String = decode_output(stdout.as_slice());
                Ok(parse_subsystems(dump.as_str()))
            } else {
                let text: String = decode_output(stderr.as_slice());
                let v: Vec<char> = chars_of(text.as_str());
                let reason: String = string_of(trim(v.as_slice(), CharClass::Whitespace));
                let mut s: String = "`".to_owned();
                s.append(exe);
                s.append(" -T` failed: ");
                s.append(reason.as_str());
                Err(s)
            }
        },
        SshdRun::NotRun(e) => {
            let mut s: String = "could not run `".to_owned();
            s.append(exe);
            s.append("`: ");
            s.append(e.as_str());
            Err(s)
        },
    }
}

/// The text of the error of provisioning without sshd's declarations.
pub open spec fn no_declarations_text(last: Option<Seq<char>>) -> Seq<char> {
    "could not read sshd's effective configuration ("@ + (match last {
        Some(reason) => reason,
        None => "no attempt was made"@,
    })
        + "); the shim routes transfers by matching sshd's own Subsystem declarations, so provisioning cannot proceed without it"@
}

/// The error of provisioning without sshd's declarations, given the last reason. An empty list
/// would look healthy and match nothing.
pub fn no_declarations(last: Option<String>) -> (s: String)
    ensures
        s@ == no_declarations_text(text_of(last)),
{
    let mut s: String = "could not read sshd's effective configuration (".to_owned();
    match last {
        Some(reason) => s.append(reason.as_str()),
        None => s.append("no attempt was made"),
    }
    s.append(
        "); the shim routes transfers by matching sshd's own Subsystem declarations, so provisioning cannot proceed without it",
    );
    s
}

/// What follows a run of one of the candidates.
#[derive(Debug)]
pub enum SshdNext {
    /// Try the candidate with this number; the last one gave none, and why.
    Try(usize, String),
    Found(Vec<Subsystem>),
    /// No candidate is left.
    Failed(String),
}

/// Go on after running the candidate number `tried`: the first run that gives declarations counts,
/// and where none does, the last reason is reported.
pub fn after_sshd(tried: usize, exe: &str, run: &SshdRun) -> (n: SshdNext)
    ensures
        match run_declares(exe@, *run) {
            Ok(d) => n is Found && declarations(n->Found_0@) == d,
            Err(reason) => if tried == 0 {
                n is Try && n->Try_0 == 1 && n->Try_1@ == reason
            } else {
                n is Failed && n->Failed_0@ == no_declarations_text(Some(reason))
            },
        },
{
    match sshd_declarations(exe, run) {
        Ok(declared) => SshdNext::Found(declared),
        Err(reason) => {
            if tried == 0 {
                SshdNext::Try(1, reason)
            } else {
                SshdNext::Failed(no_declarations(Some(reason)))
            }
        },
    }
}

// Installing.

/// What installing the program needs.
#[derive(Debug, Clone, Copy, PartialEq, Eq, Structural)]
pub enum InstallAction {
    /// It is in place.
    Keep,
    Copy,
    /// It could not be replaced, because a running agent holds it: go on with the one there is.
    KeepOld,
    Refuse(InstallRefusal),
    Installed,
}

#[derive(Debug, Clone, Copy, PartialEq, Eq, Structural)]
pub enum InstallRefusal {
    /// It could not be copied, and there is none.
    CopyFailed,
    /// There is none after all.
    Missing,
}

/// Copy unless the running program is the installed one, or the same bytes.
pub fn install_action(same_path: bool, identical: bool) -> (a: InstallAction)
    ensures
        a == if same_path || identical {
            InstallAction::Keep
        } else {
            InstallAction::Copy
        },
{
    if same_path || identical {
        InstallAction::Keep
    } else {
        InstallAction::Copy
    }
}

/// What follows an attempt to copy, given whether there is an installed program.
pub fn after_copy(copied: bool, present: bool) -> (a: InstallAction)
    ensures
        a == if copied {
            InstallAction::Keep
        } else if present {
            InstallAction::KeepOld
        } else {
            InstallAction::Refuse(InstallRefusal::CopyFailed)
        },
{
    if copied {
        InstallAction::Keep
    } else if present {
        InstallAction::KeepOld
    } else {
        InstallAction::Refuse(InstallRefusal::CopyFailed)
    }
}

/// The program is installed only if it is there in the end.
pub fn finish_install(present: bool) -> (a: InstallAction)
    ensures
        a == if present {
            InstallAction::Installed
        } else {
            InstallAction::Refuse(InstallRefusal::Missing)
        },
{
    if present {
        InstallAction::Installed
    } else {
        InstallAction::Refuse(InstallRefusal::Missing)
    }
}

/// A step of `apply`.
#[derive(Debug, Clone, Copy, PartialEq, Eq, Structural)]
pub enum ApplyStep {
    /// Put the program in its place.
    Install,
    /// Resolve the account, and its identifier.
    ResolveAccount,
    /// Create the directories and lock the socket directory down.
    Harden,
    /// Check that it is locked down.
    VerifyAcl,
    /// Read sshd's declarations.
    ReadDeclarations,
    /// Record the account.
    WriteConfig,
    RegisterAgent,
    RegisterSelfHeal,
    /// Make the program the default shell.
    SetShell,
    /// Check that it is.
    ReadBack,
    /// Start the agent, where somebody is logged in; not being able to is only reported.
    StartAgent,
    Done,
    Aborted,
}

/// What follows a step. Every step but the last must succeed, or nothing more is done.
pub open spec fn after_step(s: ApplyStep, ok: bool) -> ApplyStep {
    match s {
        ApplyStep::StartAgent => ApplyStep::Done,
        ApplyStep::Done => ApplyStep::Done,
        ApplyStep::Aborted => ApplyStep::Aborted,
        _ => if !ok {
            ApplyStep::Aborted
        } else {
            match s {
                ApplyStep::Install => ApplyStep::ResolveAccount,
                ApplyStep::ResolveAccount => ApplyStep::Harden,
                ApplyStep::Harden => ApplyStep::VerifyAcl,
                ApplyStep::VerifyAcl => ApplyStep::ReadDeclarations,
                ApplyStep::ReadDeclarations => ApplyStep::WriteConfig,
                ApplyStep::WriteConfig => ApplyStep::RegisterAgent,
                ApplyStep::RegisterAgent => ApplyStep::RegisterSelfHeal,
                ApplyStep::RegisterSelfHeal => ApplyStep::SetShell,
                ApplyStep::SetShell => ApplyStep::ReadBack,
                _ => ApplyStep::StartAgent,
            }
        },
    }
}

pub fn next_step(s: ApplyStep, ok: bool) -> (n: ApplyStep)
    ensures
        n == after_step(s, ok),
{
    if !ok {
        return match s {
            ApplyStep::StartAgent => ApplyStep::Done,
            ApplyStep::Done => ApplyStep::Done,
            _ => ApplyStep::Aborted,
        };
    }
    match s {
        ApplyStep::Install => ApplyStep::ResolveAccount,
        ApplyStep::ResolveAccount => ApplyStep::Harden,
        ApplyStep::Harden => ApplyStep::VerifyAcl,
        ApplyStep::VerifyAcl => ApplyStep::ReadDeclarations,
        ApplyStep::ReadDeclarations => ApplyStep::WriteConfig,
        ApplyStep::WriteConfig => ApplyStep::RegisterAgent,
        ApplyStep::RegisterAgent => ApplyStep::RegisterSelfHeal,
        ApplyStep::RegisterSelfHeal => ApplyStep::SetShell,
        ApplyStep::SetShell => ApplyStep::ReadBack,
        ApplyStep::ReadBack => ApplyStep::StartAgent,
        ApplyStep::StartAgent => ApplyStep::Done,
        ApplyStep::Done => ApplyStep::Done,
        ApplyStep::Aborted => ApplyStep::Aborted,
    }
}

/// Whether there is a console session to start the agent in: its number is not all ones.
pub fn starts_agent(active_console: u32) -> (b: bool)
    ensures
        b == (active_console != u32::MAX),
{
    active_console != 0xffff_ffff
}

// Verifying.

/// What `verify` found out. Each result that could not be had comes with its reason.
#[derive(Debug)]
pub struct VerifyFacts {
    /// The default-shell pair: the shell and its option.
    pub shell: Result<(String, String), String>,
    pub exe: String,
    pub exe_present: bool,
    /// The account of the saved config.
    pub saved_user: Option<String>,
    /// Whether the socket directory is locked down for that account.
    pub acl_ok: bool,
    pub agent_xml: String,
    pub agent_queried: bool,
    pub selfheal_queried: bool,
    pub reachable: bool,
    pub recorded: Vec<Subsystem>,
    pub current: Result<Vec<Subsystem>, String>,
    /// What the probe reported through the agent, and whether its payload arrived intact.
    pub probe: Result<(ProbeReport, bool), String>,
    pub active_console: u32,
}

/// `true` or `false`.
pub open spec fn bool_text(b: bool) -> Seq<char> {
    if b {
        "true"@
    } else {
        "false"@
    }
}

fn push_bool(s: &mut String, b: bool)
    ensures
        final(s)@ == old(s)@ + bool_text(b),
{
    if b {
        s.append("true");
    } else {
        s.append("false");
    }
}

/// The row of the default-shell pair: it points at the installed program, which is there.
pub open spec fn shell_row(f: VerifyFacts) -> CheckView {
    match f.shell {
        Ok((shell, opt)) => CheckView {
            name: "DefaultShell pair"@,
            pass: is_our_shell(shell@, opt@, f.exe@) && f.exe_present,
            detail: "shell="@ + debug_text(shell@) + " opt="@ + debug_text(opt@),
        },
        Err(e) => CheckView { name: "DefaultShell pair"@, pass: false, detail: e@ },
    }
}

fn check_shell(f: &VerifyFacts) -> (c: Check)
    ensures
        c@ == shell_row(*f),
{
    match &f.shell {
        Ok((shell, opt)) => {
            let pass: bool = default_shell_ok(shell.as_str(), opt.as_str(), f.exe.as_str())
                && f.exe_present;
            let mut detail: String = "shell=".to_owned();
            let quoted_shell: String = debug_string(shell.as_str());
            detail.append(quoted_shell.as_str());
            detail.append(" opt=");
            let quoted_opt: String = debug_string(opt.as_str());
            detail.append(quoted_opt.as_str());
            Check::new("DefaultShell pair", pass, detail.as_str())
        },
        Err(e) => Check::new("DefaultShell pair", false, e.as_str()),
    }
}

/// The row of the socket directory: it is locked down for the configured account.
pub open spec fn acl_row(f: VerifyFacts) -> CheckView {
    match f.saved_user {
        Some(u) => CheckView {
            name: "socket dir ACL"@,
            pass: f.acl_ok,
            detail: "grantee="@ + u@,
        },
        None => CheckView {
            name: "socket dir ACL"@,
            pass: false,
            detail: "no config target_user"@,
        },
    }
}

fn check_acl(f: &VerifyFacts) -> (c: Check)
    ensures
        c@ == acl_row(*f),
{
    match &f.saved_user {
        Some(u) => {
            let mut detail: String = "grantee=".to_owned();
            detail.append(u.as_str());
            Check::new("socket dir ACL", f.acl_ok, detail.as_str())
        },
        None => Check::new("socket dir ACL", false, "no config target_user"),
    }
}

/// The row of the agent's task: it is registered, and interactive.
pub open spec fn task_row(f: VerifyFacts) -> CheckView {
    let registered = f.agent_queried && holds(f.agent_xml@, "<Task"@);
    let interactive = holds(lowered(f.agent_xml@), "interactivetoken"@);
    CheckView {
        name: "agent task"@,
        pass: registered && interactive,
        detail: "registered="@ + bool_text(registered) + " interactive_token="@ + bool_text(
            interactive,
        ),
    }
}

fn check_task(f: &VerifyFacts) -> (c: Check)
    ensures
        c@ == task_row(*f),
{
    let registered: bool = parse_query_registered(f.agent_xml.as_str(), f.agent_queried);
    let interactive: bool = xml_has_interactive_token(f.agent_xml.as_str());
    let mut detail: String = "registered=".to_owned();
    push_bool(&mut detail, registered);
    detail.append(" interactive_token=");
    push_bool(&mut detail, interactive);
    Check::new("agent task", registered && interactive, detail.as_str())
}

/// The row of the self-heal task: informational, because it cannot always be queried.
pub open spec fn selfheal_row(f: VerifyFacts) -> CheckView {
    CheckView {
        name: "self-heal task (info)"@,
        pass: true,
        detail: if f.selfheal_queried {
            "registered"@
        } else {
            "not queryable (needs elevation)"@
        },
    }
}

/// The row of the recorded declarations: they are the ones that sshd reports. Informational where
/// sshd could not be asked.
pub open spec fn declarations_row(f: VerifyFacts) -> CheckView {
    let recorded = declarations(f.recorded@);
    match f.current {
        Ok(current) => if declarations(current@) == recorded {
            CheckView {
                name: "subsystem declarations"@,
                pass: true,
                detail: dec(recorded.len()) + " declared, matching sshd"@,
            }
        } else {
            CheckView {
                name: "subsystem declarations"@,
                pass: false,
                detail: "STALE \u{2014} re-run apply (recorded "@ + dec(recorded.len())
                    + ", sshd now reports "@ + dec(current@.len()) + ")"@,
            }
        },
        Err(e) => CheckView {
            name: "subsystem declarations (info)"@,
            pass: true,
            detail: "recorded "@ + dec(recorded.len()) + "; could not re-check: "@ + e@,
        },
    }
}

fn check_declarations(f: &VerifyFacts) -> (c: Check)
    ensures
        c@ == declarations_row(*f),
{
    match &f.current {
        Ok(current) => {
            if same_declarations(current.as_slice(), f.recorded.as_slice()) {
                let mut detail: String = String::new();
                push_dec(&mut detail, f.recorded.len() as u64);
                detail.append(" declared, matching sshd");
                assert(detail@ =~= dec(f.recorded@.len()) + " declared, matching sshd"@);
                Check::new("subsystem declarations", true, detail.as_str())
            } else {
                let mut detail: String = "STALE \u{2014} re-run apply (recorded ".to_owned();
                push_dec(&mut detail, f.recorded.len() as u64);
                detail.append(", sshd now reports ");
                push_dec(&mut detail, current.len() as u64);
                detail.append(")");
                Check::new("subsystem declarations", false, detail.as_str())
            }
        },
        Err(e) => {
            let mut detail: String = "recorded ".to_owned();
            push_dec(&mut detail, f.recorded.len() as u64);
            detail.append("; could not re-check: ");
            detail.append(e.as_str());
            Check::new("subsystem declarations (info)", true, detail.as_str())
        },
    }
}

/// What a symlink's row says of its state.
pub open spec fn symlink_text(s: SymlinkState) -> Seq<char> {
    match s {
        SymlinkState::Followed => "Ok"@,
        SymlinkState::Blocked => "Blocked"@,
        SymlinkState::Skipped => "Skipped"@,
    }
}

/// The rows of the probe: any session but 0 is an interactive one, secrets work, no symlink was
/// blocked, and the payload arrived intact both ways.
pub open spec fn probe_rows(f: VerifyFacts) -> Seq<CheckView> {
    match f.probe {
        Ok((p, intact)) => seq![
            CheckView {
                name: "interactive session (via agent)"@,
                pass: p.session_id != 0,
                detail: "session_id="@ + dec(p.session_id as nat) + " (active console="@ + dec(
                    f.active_console as nat,
                ) + ")"@,
            },
            CheckView { name: "DPAPI (via agent)"@, pass: p.dpapi_ok, detail: Seq::empty() },
            CheckView {
                name: "symlink (via agent)"@,
                pass: p.symlink != SymlinkState::Blocked,
                detail: symlink_text(p.symlink),
            },
            CheckView {
                name: "binary transparency (via agent)"@,
                pass: intact,
                detail: if intact {
                    Seq::empty()
                } else {
                    "payload did not survive the relay byte for byte"@
                },
            },
            CheckView {
                name: "binary upload (via agent)"@,
                pass: p.upstream == UpstreamState::Intact,
                detail: p.upstream.detail_text(),
            },
        ],
        Err(e) => seq![
            CheckView {
                name: "parity probe (via agent)"@,
                pass: false,
                detail: "unavailable: "@ + e@,
            },
        ],
    }
}

fn check_probe(f: &VerifyFacts) -> (rows: Vec<Check>)
    ensures
        checks(rows@) == probe_rows(*f),
{
    proof {
        reveal_strlit("");
    }
    assert(""@ =~= Seq::<char>::empty());
    let mut rows: Vec<Check> = Vec::new();
    match &f.probe {
        Ok((p, intact)) => {
            let mut session: String = "session_id=".to_owned();
            push_dec(&mut session, p.session_id as u64);
            session.append(" (active console=");
            push_dec(&mut session, f.active_console as u64);
            session.append(")");
            rows.push(
                Check::new(
                    "interactive session (via agent)",
                    p.session_id != 0,
                    session.as_str(),
                ),
            );
            rows.push(Check::new("DPAPI (via agent)", p.dpapi_ok, ""));
            rows.push(
                Check::new(
                    "symlink (via agent)",
                    !p.symlink.is_failure(),
                    match p.symlink {
                        SymlinkState::Followed => "Ok",
                        SymlinkState::Blocked => "Blocked",
                        SymlinkState::Skipped => "Skipped",
                    },
                ),
            );
            rows.push(
                Check::new(
                    "binary transparency (via agent)",
                    *intact,
                    if *intact {
                        ""
                    } else {
                        "payload did not survive the relay byte for byte"
                    },
                ),
            );
            let upload: String = p.upstream.detail();
            rows.push(
                Check::new("binary upload (via agent)", p.upstream.proven(), upload.as_str()),
            );
        },
        Err(e) => {
            let mut detail: String = "unavailable: ".to_owned();
            detail.append(e.as_str());
            rows.push(Check::new("parity probe (via agent)", false, detail.as_str()));
        },
    }
    assert(checks(rows@) =~= probe_rows(*f));
    rows
}

/// The rows of `verify`: the local state, then the probe through the agent.
pub open spec fn verify_report(f: VerifyFacts) -> Seq<CheckView> {
    seq![
        shell_row(f),
        acl_row(f),
        task_row(f),
        selfheal_row(f),
        CheckView { name: "socket reachable"@, pass: f.reachable, detail: Seq::empty() },
        declarations_row(f),
    ] + probe_rows(f)
}

/// Turn what was found out into the rows of the report.
pub fn verify_rows(f: &VerifyFacts) -> (rows: Vec<Check>)
    ensures
        checks(rows@) == verify_report(*f),
{
    proof {
        reveal_strlit("");
    }
    assert(""@ =~= Seq::<char>::empty());
    let mut rows: Vec<Check> = Vec::new();
    rows.push(check_shell(f));
    rows.push(check_acl(f));
    rows.push(check_task(f));
    rows.push(
        Check::new(
            "self-heal task (info)",
            true,
            if f.selfheal_queried {
                "registered"
            } else {
                "not queryable (needs elevation)"
            },
        ),
    );
    rows.push(Check::new("socket reachable", f.reachable, ""));
    rows.push(check_declarations(f));
    let mut probed: Vec<Check> = check_probe(f);
    let ghost first = rows@;
    let ghost second = probed@;
    rows.append(&mut probed);
    assert(checks(rows@) =~= checks(first) + checks(second));
    assert(checks(rows@) =~= verify_report(*f));
    rows
}

/// The command that runs the probe in the agent's session.
pub fn probe_command(exe: &str) -> (s: String)
    ensures
        s@ == "\""@ + exe@ + "\" verify-probe"@,
{
    let mut s: String = "\"".to_owned();
    s.append(exe);
    s.append("\" verify-probe");
    s
}

/// Whether the relay itself failed, and not the command: its own two codes.
pub fn relay_failed(code: i32) -> (b: bool)
    ensures
        b == (code == 254 || code == 255),
{
    code == 254 || code == 255
}

/// What a probe through the agent came to, given its exit code, its output and its errors: its
/// report and whether the payload in the raw output is intact, or why there is neither. The
/// payload is looked for in the bytes, because it does not survive being made text.
pub fn probe_result(code: i32, out: &[u8], err: &[u8]) -> (r: Result<(ProbeReport, bool), String>)
    ensures
        if code == 254 || code == 255 {
            r is Err && r->Err_0@ == "probe relay failed (code "@ + dec_int(code as int)
                + "; stderr="@ + trimmed(utf8_lossy_text(err@), CharClass::Whitespace) + ")"@
        } else {
            match probe::report_from(lines(utf8_lossy_text(out@)), 0) {
                Some(report) => r is Ok && r->Ok_0.0 == report && r->Ok_0.1 == (probe::extracted(
                    out@,
                ) == Some(probe::payload())),
                None => r is Err && r->Err_0@ == "no PROBE line in probe output"@,
            }
        },
{
    if relay_failed(code) {
        let text: String = utf8_lossy(err);
        let v: Vec<char> = chars_of(text.as_str());
        let reason: String = string_of(trim(v.as_slice(), CharClass::Whitespace));
        let mut s: String = "probe relay failed (code ".to_owned();
        push_dec_int(&mut s, code as i64);
        s.append("; stderr=");
        s.append(reason.as_str());
        s.append(")");
        return Err(s);
    }
    let intact: bool = probe::binary_probe_ok(out);
    let text: String = utf8_lossy(out);
    match probe::parse_probe_report(text.as_str()) {
        Ok(report) => Ok((report, intact)),
        Err(e) => Err(e.message()),
    }
}

/// Arguments as they are shown in an error: quoted, in brackets.
pub open spec fn quoted_args(args: Seq<String>) -> Seq<char>
    decreases args.len(),
{
    if args.len() == 0 {
        Seq::empty()
    } else if args.len() == 1 {
        debug_text(args[0]@)
    } else {
        quoted_args(args.drop_last()) + ", "@ + debug_text(args.last()@)
    }
}

/// The error of a `schtasks` that failed: its arguments, and what it wrote.
pub fn schtasks_error(args: &[String], stderr: &[u8]) -> (s: String)
    ensures
        s@ == "schtasks ["@ + quoted_args(args@) + "] failed: "@ + trimmed(
            output_text(stderr@),
            CharClass::Whitespace,
        ),
{
    let mut s: String = "schtasks [".to_owned();
    let ghost head = s@;
    let mut i: usize = 0;
    assert(args@.take(0) =~= Seq::<String>::empty());
    assert(s@ =~= head + quoted_args(args@.take(0)));
    while i < args.len()
        invariant
            i <= args@.len(),
            s@ == head + quoted_args(args@.take(i as int)),
        decreases args@.len() - i,
    {
        if i > 0 {
            s.append(", ");
        }
        let quoted: String = debug_string(args[i].as_str());
        s.append(quoted.as_str());
        proof {
            let now = args@.take(i + 1);
            assert(now.drop_last() =~= args@.take(i as int));
            assert(now.last() == args@[i as int]);
            assert(s@ =~= head + quoted_args(now));
        }
        i += 1;
    }
    assert(args@.take(i as int) =~= args@);
    s.append("] failed: ");
    let text: String = decode_output(stderr);
    let v: Vec<char> = chars_of(text.as_str());
    let reason: String = string_of(trim(v.as_slice(), CharClass::Whitespace));
    s.append(reason.as_str());
    s
}

// Laws.

/// How many steps of `apply` come before a step.
pub open spec fn rank(s: ApplyStep) -> nat {
    match s {
        ApplyStep::Install => 0,
        ApplyStep::ResolveAccount => 1,
        ApplyStep::Harden => 2,
        ApplyStep::VerifyAcl => 3,
        ApplyStep::ReadDeclarations => 4,
        ApplyStep::WriteConfig => 5,
        ApplyStep::RegisterAgent => 6,
        ApplyStep::RegisterSelfHeal => 7,
        ApplyStep::SetShell => 8,
        ApplyStep::ReadBack => 9,
        ApplyStep::StartAgent => 10,
        ApplyStep::Done => 11,
        ApplyStep::Aborted => 12,
    }
}

/// The step that is reached after answers, from the first step on.
pub open spec fn reached(answers: Seq<bool>) -> ApplyStep
    decreases answers.len(),
{
    if answers.len() == 0 {
        ApplyStep::Install
    } else {
        after_step(reached(answers.drop_last()), answers.last())
    }
}

/// The default shell is changed only after everything that SSH access rests on is in place: the
/// step is reached by exactly the eight steps before it, each with success.
pub proof fn law_shell_is_changed_last(answers: Seq<bool>)
    requires
        reached(answers) == ApplyStep::SetShell,
    ensures
        answers.len() == 8,
        forall|i: int| 0 <= i < answers.len() ==> #[trigger] answers[i],
{
    lemma_reached(answers);
}

proof fn lemma_reached(answers: Seq<bool>)
    requires
        rank(reached(answers)) <= 8,
    ensures
        answers.len() == rank(reached(answers)),
        forall|i: int| 0 <= i < answers.len() ==> #[trigger] answers[i],
    decreases answers.len(),
{
    if answers.len() > 0 {
        let before = answers.drop_last();
        assert(rank(reached(before)) < 8);
        lemma_reached(before);
        assert forall|i: int| 0 <= i < answers.len() implies #[trigger] answers[i] by {
            if i < before.len() {
                assert(answers[i] == before[i]);
            }
        }
    }
}

/// A report passes only if the socket directory was found locked down, the agent answers, and its
/// session is at parity with its payload intact both ways.
pub proof fn law_passing_report_means_parity(f: VerifyFacts)
    requires
        report::all_pass(verify_report(f)),
    ensures
        f.saved_user is Some && f.acl_ok,
        f.reachable,
        f.probe is Ok,
        f.probe->Ok_0.0.session_id != 0,
        f.probe->Ok_0.0.dpapi_ok,
        f.probe->Ok_0.0.symlink != SymlinkState::Blocked,
        f.probe->Ok_0.0.upstream == UpstreamState::Intact,
        f.probe->Ok_0.1,
{
    let rows = verify_report(f);
    assert(rows[1] == acl_row(f));
    assert(rows[4].pass == f.reachable);
    assert(rows[6] == probe_rows(f)[0]);
    if f.probe is Ok {
        assert(rows[7] == probe_rows(f)[1]);
        assert(rows[8] == probe_rows(f)[2]);
        assert(rows[9] == probe_rows(f)[3]);
        assert(rows[10] == probe_rows(f)[4]);
    }
}

/// Whether a step was taken on the way through answers, with success.
pub open spec fn succeeded(answers: Seq<bool>, s: ApplyStep) -> bool {
    exists|k: int|
        0 <= k < answers.len() && reached(#[trigger] answers.take(k)) == s && answers[k]
}

/// The default shell is changed only once the program is installed, the account resolved, the
/// directory locked down and found so, sshd asked, the account recorded, and both tasks registered.
pub proof fn law_everything_precedes_the_shell(answers: Seq<bool>)
    requires
        reached(answers) == ApplyStep::SetShell,
    ensures
        succeeded(answers, ApplyStep::Install),
        succeeded(answers, ApplyStep::ResolveAccount),
        succeeded(answers, ApplyStep::Harden),
        succeeded(answers, ApplyStep::VerifyAcl),
        succeeded(answers, ApplyStep::ReadDeclarations),
        succeeded(answers, ApplyStep::WriteConfig),
        succeeded(answers, ApplyStep::RegisterAgent),
        succeeded(answers, ApplyStep::RegisterSelfHeal),
{
    lemma_reached(answers);
    lemma_step_at(answers, 0);
    lemma_step_at(answers, 1);
    lemma_step_at(answers, 2);
    lemma_step_at(answers, 3);
    lemma_step_at(answers, 4);
    lemma_step_at(answers, 5);
    lemma_step_at(answers, 6);
    lemma_step_at(answers, 7);
}

/// The steps of `apply` in their order.
spec fn step_number(k: int) -> ApplyStep {
    if k == 0 {
        ApplyStep::Install
    } else if k == 1 {
        ApplyStep::ResolveAccount
    } else if k == 2 {
        ApplyStep::Harden
    } else if k == 3 {
        ApplyStep::VerifyAcl
    } else if k == 4 {
        ApplyStep::ReadDeclarations
    } else if k == 5 {
        ApplyStep::WriteConfig
    } else if k == 6 {
        ApplyStep::RegisterAgent
    } else if k == 7 {
        ApplyStep::RegisterSelfHeal
    } else if k == 8 {
        ApplyStep::SetShell
    } else if k == 9 {
        ApplyStep::ReadBack
    } else if k == 10 {
        ApplyStep::StartAgent
    } else {
        ApplyStep::Done
    }
}

proof fn lemma_step_at(answers: Seq<bool>, k: int)
    requires
        0 <= k <= answers.len(),
        k <= 11,
        forall|i: int| 0 <= i < k && i < 10 ==> #[trigger] answers[i],
    ensures
        reached(answers.take(k)) == step_number(k),
    decreases k,
{
    if k > 0 {
        lemma_step_at(answers, k - 1);
        let t = answers.take(k);
        assert(t.drop_last() =~= answers.take(k - 1));
        assert(t.last() == answers[k - 1]);
    }
}

/// Where every step succeeds, all of them are taken and `apply` is done; not being able to start
/// the agent does not undo that.
pub proof fn law_apply_runs_to_the_end(answers: Seq<bool>)
    requires
        answers.len() == 11,
        forall|i: int| 0 <= i < 10 ==> #[trigger] answers[i],
    ensures
        reached(answers) == ApplyStep::Done,
        succeeded(answers, ApplyStep::SetShell),
        succeeded(answers, ApplyStep::ReadBack),
        reached(answers.take(10)) == ApplyStep::StartAgent,
{
    lemma_step_at(answers, 8);
    lemma_step_at(answers, 9);
    lemma_step_at(answers, 10);
    lemma_step_at(answers, 11);
    assert(answers.take(11) =~= answers);
}

/// A step that fails, before the agent is to be started, is the last: nothing more is done, whatever
/// would have come.
pub proof fn law_failure_aborts(answers: Seq<bool>, k: int)
    requires
        0 <= k < 10,
        k < answers.len(),
        forall|i: int| 0 <= i < k ==> #[trigger] answers[i],
        !answers[k],
    ensures
        reached(answers) == ApplyStep::Aborted,
    decreases answers.len(),
{
    let before = answers.drop_last();
    if answers.len() == k + 1 {
        lemma_step_at(answers, k);
        assert(before =~= answers.take(k));
    } else {
        assert forall|i: int| 0 <= i < k implies #[trigger] before[i] by {
            assert(before[i] == answers[i]);
        }
        assert(before[k] == answers[k]);
        law_failure_aborts(before, k);
    }
}

/// `verify` passes exactly where everything that it looks at is right: the shell is the installed
/// program, the directory is locked down for the saved account, the agent's task is registered and
/// interactive, the agent answers, the recorded declarations are sshd's own if sshd could be asked,
/// and the probe found parity with its payload intact both ways. Nothing else counts.
#[verifier::rlimit(50)]
pub proof fn law_report_passes_exactly(f: VerifyFacts)
    ensures
        report::all_pass(verify_report(f)) <==> {
            &&& f.shell is Ok && f.exe_present && is_our_shell(
                f.shell->Ok_0.0@,
                f.shell->Ok_0.1@,
                f.exe@,
            )
            &&& f.saved_user is Some && f.acl_ok
            &&& f.agent_queried && holds(f.agent_xml@, "<Task"@) && holds(
                lowered(f.agent_xml@),
                "interactivetoken"@,
            )
            &&& f.reachable
            &&& f.current is Ok ==> declarations(f.current->Ok_0@) == declarations(f.recorded@)
            &&& f.probe is Ok && f.probe->Ok_0.1 && f.probe->Ok_0.0.session_id != 0
                && f.probe->Ok_0.0.dpapi_ok && f.probe->Ok_0.0.symlink != SymlinkState::Blocked
                && f.probe->Ok_0.0.upstream == UpstreamState::Intact
        },
{
    let rows = verify_report(f);
    let local = seq![
        shell_row(f),
        acl_row(f),
        task_row(f),
        selfheal_row(f),
        CheckView { name: "socket reachable"@, pass: f.reachable, detail: Seq::empty() },
        declarations_row(f),
    ];
    let more = probe_rows(f);
    assert(rows =~= local + more);
    assert forall|i: int| 0 <= i < local.len() implies rows[i] == #[trigger] local[i] by {
    }
    assert forall|i: int| 0 <= i < more.len() implies rows[6 + i] == #[trigger] more[i] by {
    }
    if report::all_pass(rows) {
        assert(rows[0] == local[0] && rows[1] == local[1] && rows[2] == local[2]);
        assert(rows[4] == local[4] && rows[5] == local[5]);
        assert(rows[6] == more[0]);
        if f.probe is Ok {
            assert(rows[7] == more[1] && rows[8] == more[2] && rows[9] == more[3] && rows[10]
                == more[4]);
        }
    } else {
        let i = choose|i: int| 0 <= i < rows.len() && !(#[trigger] rows[i]).pass;
        if i < 6 {
            assert(rows[i] == local[i]);
        } else {
            assert(rows[i] == more[i - 6]);
        }
    }
}

/// The pair is ours exactly for the option `-c` and a shell that is the program's path, in quotes
/// or not and in either case of letters.
pub proof fn law_our_shell(exe: Seq<char>, opt: Seq<char>)
    requires
        exe.len() > 0,
        exe[0] != '"',
        exe.last() != '"',
        !crate::text::is_white(exe[0]),
        !crate::text::is_white(exe.last()),
    ensures
        is_our_shell(exe, opt, exe) <==> opt == seq!['-', 'c'],
        is_our_shell(seq!['"'] + exe + seq!['"'], opt, exe) <==> opt == seq!['-', 'c'],
        is_our_shell(lowered(exe), opt, exe) ==> opt == seq!['-', 'c'],
{
    reveal_strlit("-c");
    assert("-c"@ =~= seq!['-', 'c']);
    let none = Seq::<char>::empty();
    let q = seq!['"'];
    crate::text::law_trimming_takes_only_the_ends(none, exe, none, CharClass::Whitespace);
    crate::text::law_trimming_takes_only_the_ends(none, exe, none, CharClass::Quote);
    assert(none + exe + none =~= exe);
    let quoted = q + exe + q;
    crate::text::law_trimming_takes_only_the_ends(none, quoted, none, CharClass::Whitespace);
    crate::text::law_trimming_takes_only_the_ends(q, exe, q, CharClass::Quote);
    assert(none + quoted + none =~= quoted);
}

/// The account of `--user` is the argument right behind the first one, wherever it stands and
/// whatever follows.
pub proof fn law_user_flag_names_the_account(
    args: &[String],
    r: Option<String>,
    front: Seq<Seq<char>>,
    user: Seq<char>,
    back: Seq<Seq<char>>,
)
    requires
        call_ensures(arg_user, (args,), r),
        forall|i: int| 0 <= i < front.len() ==> (#[trigger] front[i]) != "--user"@,
        texts(args@) == front + seq!["--user"@, user] + back,
    ensures
        user.len() > 0 ==> r is Some && r->0@ == user,
        user.len() == 0 ==> r is None,
{
    let all = texts(args@);
    lemma_user_flag(front, all, 0);
    assert(all[front.len() as int + 1] == user);
}

proof fn lemma_user_flag(front: Seq<Seq<char>>, all: Seq<Seq<char>>, i: int)
    requires
        0 <= i <= front.len() < all.len(),
        forall|j: int| 0 <= j < front.len() ==> (#[trigger] front[j]) != "--user"@ && all[j]
            == front[j],
        all[front.len() as int] == "--user"@,
    ensures
        user_flag(all, i) == front.len(),
    decreases front.len() - i,
{
    if i < front.len() {
        assert(front[i] != "--user"@);
        lemma_user_flag(front, all, i + 1);
    }
}

/// Without the flag there is no account.
pub proof fn law_no_user_flag(args: &[String], r: Option<String>)
    requires
        call_ensures(arg_user, (args,), r),
        forall|i: int| 0 <= i < args@.len() ==> (#[trigger] texts(args@)[i]) != "--user"@,
    ensures
        r is None,
{
    lemma_no_user_flag(texts(args@), 0);
}

proof fn lemma_no_user_flag(all: Seq<Seq<char>>, i: int)
    requires
        0 <= i <= all.len(),
        forall|j: int| 0 <= j < all.len() ==> (#[trigger] all[j]) != "--user"@,
    ensures
        user_flag(all, i) == all.len(),
    decreases all.len() - i,
{
    if i < all.len() {
        assert(all[i] != "--user"@);
        lemma_no_user_flag(all, i + 1);
    }
}

/// A service is never taken for the interactive user, in whatever case its name is written; nor is
/// a machine account. Anyone else is taken as they are.
pub proof fn law_services_are_not_users(name: Option<String>, r: Option<String>)
    requires
        call_ensures(interactive_user, (name,), r),
    ensures
        r is Some ==> r == name,
        name is None ==> r is None,
        name matches Some(n) ==> (r is None <==> n@.len() == 0 || n@.last() == '$' || lowered(n@)
            == "system"@ || lowered(n@) == "local service"@ || lowered(n@) == "network service"@),
{
}

/// The relay's own failures are told from the command's: 254 and 255 are, and no other code is.
pub proof fn law_relay_failures(code: i32, b: bool)
    requires
        call_ensures(relay_failed, (code,), b),
    ensures
        b <==> code == 254 || code == 255,
{
}

/// UTF-16 text is told from UTF-8 by its zeros: nine characters below 256 are enough, and text
/// without a zero is never taken for it.
pub proof fn law_utf16_is_told_by_its_zeros(u: Seq<u16>, b: Seq<u8>)
    ensures
        u.len() >= 9 && (forall|i: int| 0 <= i < 9 ==> 0 < #[trigger] u[i] < 256) ==> zero_heavy(
            unit_bytes(u),
        ) && !has_mark(unit_bytes(u)),
        (forall|i: int| 0 <= i < b.len() ==> #[trigger] b[i] != 0) ==> !zero_heavy(b),
{
    if u.len() >= 9 && forall|i: int| 0 <= i < 9 ==> 0 < #[trigger] u[i] < 256 {
        let bytes = unit_bytes(u);
        lemma_paired_bytes(u);
        let n = if bytes.len() < 64 {
            bytes.len() as int
        } else {
            64
        };
        assert forall|i: int| 0 <= i < 9 implies #[trigger] bytes[2 * i + 1] == 0 by {
            assert(paired(bytes)[i] == u[i]);
            assert(0 < u[i] < 256);
        }
        assert(bytes[1] == 0) by {
            assert(bytes[2 * 0int + 1] == 0);
        }
        lemma_odd_zeros(bytes, 9);
        lemma_zeros_grow(bytes, 18, n);
    }
    if forall|i: int| 0 <= i < b.len() ==> #[trigger] b[i] != 0 {
        lemma_no_zeros(
            b,
            if b.len() < 64 {
                b.len() as int
            } else {
                64
            },
        );
    }
}

proof fn lemma_odd_zeros(b: Seq<u8>, k: int)
    requires
        0 <= k,
        2 * k <= b.len(),
        forall|i: int| 0 <= i < k ==> #[trigger] b[2 * i + 1] == 0,
    ensures
        zeros(b, 2 * k) >= k,
    decreases k,
{
    if k > 0 {
        lemma_odd_zeros(b, k - 1);
        assert(b[2 * (k - 1) + 1] == 0);
        assert(zeros(b, 2 * k) == zeros(b, 2 * k - 1) + 1);
        assert(zeros(b, 2 * k - 1) >= zeros(b, 2 * k - 2));
    }
}

proof fn lemma_zeros_grow(b: Seq<u8>, m: int, n: int)
    requires
        0 <= m <= n <= b.len(),
    ensures
        zeros(b, m) <= zeros(b, n),
    decreases n - m,
{
    if m < n {
        lemma_zeros_grow(b, m, n - 1);
    }
}

proof fn lemma_no_zeros(b: Seq<u8>, n: int)
    requires
        0 <= n <= b.len(),
        forall|i: int| 0 <= i < b.len() ==> #[trigger] b[i] != 0,
    ensures
        zeros(b, n) == 0,
    decreases n,
{
    if n > 0 {
        assert(b[n - 1] != 0);
        lemma_no_zeros(b, n - 1);
    }
}

} // verus!
