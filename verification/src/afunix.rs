//! afunix: the local socket: its address, where it lives, and when it may be bound.

use vstd::prelude::*;
use vstd::string::*;
use crate::text::{dec, push_dec};

verus! {

/// A socket address of the `socket2` crate.
#[verifier::external_type_specification]
#[verifier::external_body]
pub struct ExSockAddr(socket2::SockAddr);

/// The greatest length of a local socket address's path buffer among Windows, Linux, macOS and
/// the BSDs. The buffer holds a final zero as well.
pub const SUN_PATH_LEN: usize = 108;

/// The least length of that buffer among those systems.
pub const SUN_PATH_MIN: usize = 104;

/// The address that `socket2::SockAddr::unix` makes of a path.
pub uninterp spec fn unix_sockaddr(path: Seq<char>) -> socket2::SockAddr;

/// Whether a path is too long for every path buffer. A path that begins with a zero byte needs no
/// final one on some systems.
pub open spec fn too_long(path: Seq<char>, bytes: nat) -> bool {
    bytes > SUN_PATH_LEN || (bytes == SUN_PATH_LEN && path[0] != '\0')
}

/// `socket2::SockAddr::unix` on a path, with the text of its error. The path buffer is 108 bytes
/// on Windows and on Linux, and 104 on macOS and the BSDs: a path that fits the shortest together
/// with a final zero gives the address of that path, and one that does not fit the longest an
/// error, which says that the path is too long. Of a path in between nothing is said, because the
/// systems differ on it.
#[verifier::external_body]
fn sockaddr_unix(path: &str) -> (r: Result<socket2::SockAddr, String>)
    ensures
        path.spec_bytes().len() < SUN_PATH_MIN ==> r is Ok,
        too_long(path@, path.spec_bytes().len()) ==> r is Err,
        match r {
            Ok(a) => a == unix_sockaddr(path@),
            Err(e) => e@ == "path must be shorter than SUN_LEN"@,
        },
{
    match socket2::SockAddr::unix(path) {
        Ok(a) => Ok(a),
        Err(e) => Err(e.to_string()),
    }
}

/// A path that is no socket address.
#[derive(Debug, Clone, PartialEq, Eq)]
pub struct AddrError {
    /// The path's length in bytes.
    pub bytes: usize,
    pub reason: String,
}

impl AddrError {
    pub open spec fn text(self) -> Seq<char> {
        "AF_UNIX socket path is invalid or too long ("@ + dec(self.bytes as nat)
            + " bytes; sockaddr_un limit ~108): "@ + self.reason@
    }

    pub fn message(&self) -> (s: String)
        ensures
            s@ == self.text(),
    {
        let mut s: String = "AF_UNIX socket path is invalid or too long (".to_owned();
        push_dec(&mut s, self.bytes as u64);
        s.append(" bytes; sockaddr_un limit ~108): ");
        s.append(self.reason.as_str());
        s
    }
}

/// The address of a local socket, with a path that is too long for it reported as such.
pub fn unix_addr(path: &str) -> (r: Result<socket2::SockAddr, AddrError>)
    ensures
        path.spec_bytes().len() < SUN_PATH_MIN ==> r is Ok,
        too_long(path@, path.spec_bytes().len()) ==> r is Err,
        match r {
            Ok(a) => a == unix_sockaddr(path@),
            Err(e) => e.bytes == path.spec_bytes().len() && e.reason@
                == "path must be shorter than SUN_LEN"@,
        },
{
    match sockaddr_unix(path) {
        Ok(a) => Ok(a),
        Err(reason) => Err(AddrError { bytes: path.as_bytes().len(), reason }),
    }
}

/// The production socket directory, under a system path and short.
pub fn socket_dir() -> (d: String)
    ensures
        d@ == "C:\\ProgramData\\ssh-broker\\s"@,
{
    "C:\\ProgramData\\ssh-broker\\s".to_owned()
}

/// The production socket path, shared by the agent and the shim, directly under the directory.
pub fn socket_path() -> (p: String)
    ensures
        p@ == "C:\\ProgramData\\ssh-broker\\s"@ + "\\a.sock"@,
{
    let mut p: String = socket_dir();
    p.append("\\a.sock");
    p
}

/// The system that the socket is bound on. Only Windows has the directory's access control to
/// check, and only elsewhere can a file be told from a socket.
#[derive(Debug, Clone, Copy, PartialEq, Eq, Structural)]
pub enum Platform {
    Windows,
    Unix,
}

/// What is done on the way to binding a socket.
#[derive(Debug, Clone, Copy, PartialEq, Eq, Structural)]
pub enum BindAction {
    /// Find the directory of the path.
    FindDir,
    /// Check that the directory is locked down.
    VerifyDir,
    /// See whether there is an entry at the path.
    TestExists,
    /// Connect to it, to see whether a live agent answers.
    Probe,
    /// See whether the entry is a socket.
    TestIsSocket,
    /// Remove the socket that a dead predecessor left.
    Remove,
    Bind,
    Refuse(BindRefusal),
}

/// Why a socket is not bound.
#[derive(Debug, Clone, Copy, PartialEq, Eq, Structural)]
pub enum BindRefusal {
    NoParent,
    NotLockedDown,
    AlreadyListening,
    NotASocket,
    RemoveFailed,
}

impl BindRefusal {
    /// The text of the refusal for a path, its directory, and what the system said.
    pub open spec fn text(self, path: Seq<char>, dir: Seq<char>, reason: Seq<char>) -> Seq<char> {
        match self {
            BindRefusal::NoParent => "socket path has no parent directory"@,
            BindRefusal::NotLockedDown => "socket directory "@ + dir
                + " is not locked down; refusing to bind (fail-closed)"@,
            BindRefusal::AlreadyListening => "an agent is already listening on "@ + path
                + "; refusing to bind"@,
            BindRefusal::NotASocket => path
                + " exists and is not a socket; refusing to remove it"@,
            BindRefusal::RemoveFailed => "failed to reclaim stale socket "@ + path + ": "@ + reason,
        }
    }

    pub fn message(&self, path: &str, dir: &str, reason: &str) -> (s: String)
        ensures
            s@ == self.text(path@, dir@, reason@),
    {
        match self {
            BindRefusal::NoParent => "socket path has no parent directory".to_owned(),
            BindRefusal::NotLockedDown => {
                let mut s: String = "socket directory ".to_owned();
                s.append(dir);
                s.append(" is not locked down; refusing to bind (fail-closed)");
                s
            },
            BindRefusal::AlreadyListening => {
                let mut s: String = "an agent is already listening on ".to_owned();
                s.append(path);
                s.append("; refusing to bind");
                s
            },
            BindRefusal::NotASocket => {
                let mut s: String = path.to_owned();
                s.append(" exists and is not a socket; refusing to remove it");
                s
            },
            BindRefusal::RemoveFailed => {
                let mut s: String = "failed to reclaim stale socket ".to_owned();
                s.append(path);
                s.append(": ");
                s.append(reason);
                s
            },
        }
    }
}

/// The first thing to do: Windows checks the directory before anything else.
pub open spec fn first_bind_action(p: Platform) -> BindAction {
    match p {
        Platform::Windows => BindAction::FindDir,
        Platform::Unix => BindAction::TestExists,
    }
}

/// What follows an action, given whether it said yes. Nothing is removed before a probe found
/// that nobody answers, and nothing is bound in a directory that is not locked down.
pub open spec fn after_bind_action(p: Platform, a: BindAction, yes: bool) -> BindAction {
    match a {
        BindAction::FindDir => if yes {
            BindAction::VerifyDir
        } else {
            BindAction::Refuse(BindRefusal::NoParent)
        },
        BindAction::VerifyDir => if yes {
            BindAction::TestExists
        } else {
            BindAction::Refuse(BindRefusal::NotLockedDown)
        },
        BindAction::TestExists => if yes {
            BindAction::Probe
        } else {
            BindAction::Bind
        },
        BindAction::Probe => if yes {
            BindAction::Refuse(BindRefusal::AlreadyListening)
        } else {
            match p {
                Platform::Unix => BindAction::TestIsSocket,
                Platform::Windows => BindAction::Remove,
            }
        },
        BindAction::TestIsSocket => if yes {
            BindAction::Remove
        } else {
            BindAction::Refuse(BindRefusal::NotASocket)
        },
        BindAction::Remove => if yes {
            BindAction::Bind
        } else {
            BindAction::Refuse(BindRefusal::RemoveFailed)
        },
        BindAction::Bind => BindAction::Bind,
        BindAction::Refuse(r) => BindAction::Refuse(r),
    }
}

pub fn start_bind(p: Platform) -> (a: BindAction)
    ensures
        a == first_bind_action(p),
{
    match p {
        Platform::Windows => BindAction::FindDir,
        Platform::Unix => BindAction::TestExists,
    }
}

pub fn next_bind_action(p: Platform, a: BindAction, yes: bool) -> (n: BindAction)
    ensures
        n == after_bind_action(p, a, yes),
{
    match a {
        BindAction::FindDir => {
            if yes {
                BindAction::VerifyDir
            } else {
                BindAction::Refuse(BindRefusal::NoParent)
            }
        },
        BindAction::VerifyDir => {
            if yes {
                BindAction::TestExists
            } else {
                BindAction::Refuse(BindRefusal::NotLockedDown)
            }
        },
        BindAction::TestExists => {
            if yes {
                BindAction::Probe
            } else {
                BindAction::Bind
            }
        },
        BindAction::Probe => {
            if yes {
                BindAction::Refuse(BindRefusal::AlreadyListening)
            } else {
                match p {
                    Platform::Unix => BindAction::TestIsSocket,
                    Platform::Windows => BindAction::Remove,
                }
            }
        },
        BindAction::TestIsSocket => {
            if yes {
                BindAction::Remove
            } else {
                BindAction::Refuse(BindRefusal::NotASocket)
            }
        },
        BindAction::Remove => {
            if yes {
                BindAction::Bind
            } else {
                BindAction::Refuse(BindRefusal::RemoveFailed)
            }
        },
        BindAction::Bind => BindAction::Bind,
        BindAction::Refuse(r) => BindAction::Refuse(r),
    }
}

/// What is the case at the path of a socket.
#[derive(Debug, Clone, Copy, PartialEq, Eq, Structural)]
pub struct BindFacts {
    pub has_dir: bool,
    pub locked_down: bool,
    pub exists: bool,
    pub answered: bool,
    pub is_socket: bool,
    pub removed: bool,
}

impl BindFacts {
    /// What an action says.
    pub open spec fn says(self, a: BindAction) -> bool {
        match a {
            BindAction::FindDir => self.has_dir,
            BindAction::VerifyDir => self.locked_down,
            BindAction::TestExists => self.exists,
            BindAction::Probe => self.answered,
            BindAction::TestIsSocket => self.is_socket,
            BindAction::Remove => self.removed,
            _ => true,
        }
    }

    fn ask(&self, a: BindAction) -> (yes: bool)
        ensures
            yes == self.says(a),
    {
        match a {
            BindAction::FindDir => self.has_dir,
            BindAction::VerifyDir => self.locked_down,
            BindAction::TestExists => self.exists,
            BindAction::Probe => self.answered,
            BindAction::TestIsSocket => self.is_socket,
            BindAction::Remove => self.removed,
            _ => true,
        }
    }
}

/// Whether a socket may be bound: in a directory that is locked down, at a path where nothing is
/// or where a socket that nobody answers on was removed.
pub fn may_bind(p: Platform, facts: &BindFacts) -> (r: Result<(), BindRefusal>)
    ensures
        r == if p == Platform::Windows && !facts.has_dir {
            Err(BindRefusal::NoParent)
        } else if p == Platform::Windows && !facts.locked_down {
            Err(BindRefusal::NotLockedDown)
        } else if !facts.exists {
            Ok(())
        } else if facts.answered {
            Err(BindRefusal::AlreadyListening)
        } else if p == Platform::Unix && !facts.is_socket {
            Err(BindRefusal::NotASocket)
        } else if !facts.removed {
            Err(BindRefusal::RemoveFailed)
        } else {
            Ok(())
        },
{
    let mut a: BindAction = start_bind(p);
    let mut left: u32 = 6;
    loop
        invariant
            bind_end(p, *facts, a, left as nat) == bind_end(
                p,
                *facts,
                first_bind_action(p),
                6,
            ),
            steps_left(a) <= left,
        decreases left,
    {
        match a {
            BindAction::Bind => {
                proof {
                    lemma_bind_stays(p, *facts, a, left as nat);
                    lemma_bind_end(p, *facts);
                }
                return Ok(());
            },
            BindAction::Refuse(r) => {
                proof {
                    lemma_bind_stays(p, *facts, a, left as nat);
                    lemma_bind_end(p, *facts);
                }
                return Err(r);
            },
            _ => {},
        }
        let yes: bool = facts.ask(a);
        a = next_bind_action(p, a, yes);
        left -= 1;
    }
}

/// Where `n` actions lead.
spec fn bind_end(p: Platform, f: BindFacts, a: BindAction, n: nat) -> BindAction
    decreases n,
{
    if n == 0 {
        a
    } else {
        bind_end(p, f, after_bind_action(p, a, f.says(a)), (n - 1) as nat)
    }
}

/// How many actions can follow at most.
spec fn steps_left(a: BindAction) -> nat {
    match a {
        BindAction::FindDir => 6,
        BindAction::VerifyDir => 5,
        BindAction::TestExists => 4,
        BindAction::Probe => 3,
        BindAction::TestIsSocket => 2,
        BindAction::Remove => 1,
        _ => 0,
    }
}

proof fn lemma_bind_stays(p: Platform, f: BindFacts, a: BindAction, n: nat)
    requires
        a is Bind || a is Refuse,
    ensures
        bind_end(p, f, a, n) == a,
    decreases n,
{
    if n > 0 {
        lemma_bind_stays(p, f, a, (n - 1) as nat);
    }
}

proof fn lemma_bind_end(p: Platform, f: BindFacts)
    ensures
        bind_end(p, f, first_bind_action(p), 6) == if p == Platform::Windows && !f.has_dir {
            BindAction::Refuse(BindRefusal::NoParent)
        } else if p == Platform::Windows && !f.locked_down {
            BindAction::Refuse(BindRefusal::NotLockedDown)
        } else if !f.exists {
            BindAction::Bind
        } else if f.answered {
            BindAction::Refuse(BindRefusal::AlreadyListening)
        } else if p == Platform::Unix && !f.is_socket {
            BindAction::Refuse(BindRefusal::NotASocket)
        } else if !f.removed {
            BindAction::Refuse(BindRefusal::RemoveFailed)
        } else {
            BindAction::Bind
        },
{
    reveal_with_fuel(bind_end, 8);
}

// Laws.

/// The production socket's path fits a socket address.
pub proof fn law_socket_path_fits()
    ensures
        vstd::utf8::encode_utf8("C:\\ProgramData\\ssh-broker\\s"@ + "\\a.sock"@).len()
            < SUN_PATH_MIN,
{
    reveal_strlit("C:\\ProgramData\\ssh-broker\\s");
    reveal_strlit("\\a.sock");
    let p = "C:\\ProgramData\\ssh-broker\\s"@ + "\\a.sock"@;
    assert(vstd::utf8::is_ascii_chars(p));
    vstd::utf8::is_ascii_chars_encode_utf8(p);
}

/// Where answers lead, one after the other, from an action on.
pub open spec fn bind_walk(p: Platform, a: BindAction, answers: Seq<bool>) -> BindAction
    decreases answers.len(),
{
    if answers.len() == 0 {
        a
    } else {
        bind_walk(p, after_bind_action(p, a, answers[0]), answers.skip(1))
    }
}

proof fn lemma_walk_stays(p: Platform, a: BindAction, answers: Seq<bool>)
    requires
        a is Bind || a is Refuse,
    ensures
        bind_walk(p, a, answers) == a,
    decreases answers.len(),
{
    if answers.len() > 0 {
        lemma_walk_stays(p, a, answers.skip(1));
    }
}

proof fn lemma_walk_step(p: Platform, a: BindAction, answers: Seq<bool>, i: int)
    requires
        0 <= i < answers.len(),
    ensures
        bind_walk(p, a, answers.skip(i)) == bind_walk(
            p,
            after_bind_action(p, a, answers[i]),
            answers.skip(i + 1),
        ),
        ({
            let n = after_bind_action(p, a, answers[i]);
            n is Bind || n is Refuse ==> bind_walk(p, a, answers.skip(i)) == n
        }),
{
    let rest = answers.skip(i);
    assert(rest[0] == answers[i]);
    assert(rest.skip(1) =~= answers.skip(i + 1));
    let n = after_bind_action(p, a, answers[i]);
    if n is Bind || n is Refuse {
        lemma_walk_stays(p, n, answers.skip(i + 1));
    }
}

/// On Windows nothing is bound unless the path has a directory that was found locked down, and
/// then either nothing stands at the path, or nobody answered there and what stood there was
/// removed. The answers come in that order: directory, locked down, exists, answered, removed.
pub proof fn law_windows_bind_is_fail_closed(answers: Seq<bool>)
    requires
        answers.len() >= 5,
    ensures
        bind_walk(Platform::Windows, first_bind_action(Platform::Windows), answers) is Bind <==> (
        answers[0] && answers[1] && (!answers[2] || (!answers[3] && answers[4]))),
        !answers[0] ==> bind_walk(Platform::Windows, first_bind_action(Platform::Windows), answers)
            == BindAction::Refuse(BindRefusal::NoParent),
        answers[0] && !answers[1] ==> bind_walk(
            Platform::Windows,
            first_bind_action(Platform::Windows),
            answers,
        ) == BindAction::Refuse(BindRefusal::NotLockedDown),
        answers[0] && answers[1] && answers[2] && answers[3] ==> bind_walk(
            Platform::Windows,
            first_bind_action(Platform::Windows),
            answers,
        ) == BindAction::Refuse(BindRefusal::AlreadyListening),
{
    let p = Platform::Windows;
    assert(answers.skip(0) =~= answers);
    lemma_walk_step(p, BindAction::FindDir, answers, 0);
    lemma_walk_step(p, BindAction::VerifyDir, answers, 1);
    lemma_walk_step(p, BindAction::TestExists, answers, 2);
    lemma_walk_step(p, BindAction::Probe, answers, 3);
    lemma_walk_step(p, BindAction::Remove, answers, 4);
}

/// Elsewhere nothing is bound unless nothing stands at the path, or nobody answered there and it
/// was a socket that was removed. The answers come in that order: exists, answered, is a socket,
/// removed.
pub proof fn law_unix_bind_spares_other_files(answers: Seq<bool>)
    requires
        answers.len() >= 4,
    ensures
        bind_walk(Platform::Unix, first_bind_action(Platform::Unix), answers) is Bind <==> (
        !answers[0] || (!answers[1] && answers[2] && answers[3])),
        answers[0] && answers[1] ==> bind_walk(
            Platform::Unix,
            first_bind_action(Platform::Unix),
            answers,
        ) == BindAction::Refuse(BindRefusal::AlreadyListening),
        answers[0] && !answers[1] && !answers[2] ==> bind_walk(
            Platform::Unix,
            first_bind_action(Platform::Unix),
            answers,
        ) == BindAction::Refuse(BindRefusal::NotASocket),
{
    let p = Platform::Unix;
    assert(answers.skip(0) =~= answers);
    lemma_walk_step(p, BindAction::TestExists, answers, 0);
    lemma_walk_step(p, BindAction::Probe, answers, 1);
    lemma_walk_step(p, BindAction::TestIsSocket, answers, 2);
    lemma_walk_step(p, BindAction::Remove, answers, 3);
}

/// What stands at the path is removed only after it was found that nobody answers there: right
/// after that on Windows, and elsewhere once it was found to be a socket as well.
pub proof fn law_removal_follows_a_silent_probe(p: Platform, a: BindAction, yes: bool)
    ensures
        after_bind_action(p, a, yes) == BindAction::Remove && a != BindAction::TestIsSocket ==> p
            == Platform::Windows && a == BindAction::Probe && !yes,
        after_bind_action(p, a, yes) == BindAction::TestIsSocket ==> p == Platform::Unix && a
            == BindAction::Probe && !yes,
        after_bind_action(p, BindAction::TestIsSocket, yes) == BindAction::Remove <==> yes,
        after_bind_action(p, BindAction::Probe, true) == BindAction::Refuse(
            BindRefusal::AlreadyListening,
        ),
{
}

} // verus!
