//! spawn: how a child process is created: what it inherits, what its standard handles are, and
//! that it is suspended until it is contained.

use vstd::prelude::*;

verus! {

/// The creation flag of a process that does not run yet.
pub const CREATE_SUSPENDED: u32 = 0x0000_0004;

/// The creation flag of a process with an attribute list.
pub const EXTENDED_STARTUP: u32 = 0x0008_0000;

/// Both of them.
pub const EXTENDED_SUSPENDED: u32 = 0x0008_0004;

/// The startup flag that makes the given standard handles count.
pub const USE_STD_HANDLES: u32 = 0x0000_0100;

/// The attribute that restricts what is inherited to a list of handles.
pub const ATTRIBUTE_HANDLE_LIST: u32 = 0x0002_0002;

/// The attribute that binds a pseudoconsole to a process.
pub const ATTRIBUTE_PSEUDOCONSOLE: u32 = 0x0002_0016;

/// What a child is created for.
#[derive(Debug, Clone, Copy, PartialEq, Eq, Structural)]
pub enum ChildKind {
    /// A command with its three streams redirected to pipes.
    Exec,
    /// A shell in a pseudoconsole.
    Pty,
    /// A command run by the shim itself, with the shim's own streams if they are to be used.
    Local { stdio: bool },
}

/// What a child's standard handles are.
#[derive(Debug, Clone, Copy, PartialEq, Eq, Structural)]
pub enum StdHandles {
    /// The child's ends of the pipes.
    Pipes,
    /// None, so that the parent's do not reach into a pseudoconsole.
    Null,
    /// The parent's own.
    Own,
    /// Whatever the system gives it.
    Default,
}

/// How a child is created.
#[derive(Debug, Clone, Copy, PartialEq, Eq, Structural)]
pub struct SpawnSettings {
    pub creation_flags: u32,
    pub startup_flags: u32,
    pub attribute: Option<u32>,
    pub inherit_handles: bool,
    pub std_handles: StdHandles,
}

/// The settings of each kind of child. Every one is created suspended, because it must be
/// contained before it runs.
pub open spec fn settings_of(kind: ChildKind) -> SpawnSettings {
    match kind {
        ChildKind::Exec => SpawnSettings {
            creation_flags: EXTENDED_SUSPENDED,
            startup_flags: USE_STD_HANDLES,
            attribute: Some(ATTRIBUTE_HANDLE_LIST),
            inherit_handles: true,
            std_handles: StdHandles::Pipes,
        },
        ChildKind::Pty => SpawnSettings {
            creation_flags: EXTENDED_SUSPENDED,
            startup_flags: USE_STD_HANDLES,
            attribute: Some(ATTRIBUTE_PSEUDOCONSOLE),
            inherit_handles: false,
            std_handles: StdHandles::Null,
        },
        ChildKind::Local { stdio } => SpawnSettings {
            creation_flags: CREATE_SUSPENDED,
            startup_flags: if stdio {
                USE_STD_HANDLES
            } else {
                0
            },
            attribute: None,
            inherit_handles: stdio,
            std_handles: if stdio {
                StdHandles::Own
            } else {
                StdHandles::Default
            },
        },
    }
}

pub fn spawn_settings(kind: ChildKind) -> (s: SpawnSettings)
    ensures
        s == settings_of(kind),
{
    match kind {
        ChildKind::Exec => SpawnSettings {
            creation_flags: EXTENDED_SUSPENDED,
            startup_flags: USE_STD_HANDLES,
            attribute: Some(ATTRIBUTE_HANDLE_LIST),
            inherit_handles: true,
            std_handles: StdHandles::Pipes,
        },
        ChildKind::Pty => SpawnSettings {
            creation_flags: EXTENDED_SUSPENDED,
            startup_flags: USE_STD_HANDLES,
            attribute: Some(ATTRIBUTE_PSEUDOCONSOLE),
            inherit_handles: false,
            std_handles: StdHandles::Null,
        },
        ChildKind::Local { stdio } => SpawnSettings {
            creation_flags: CREATE_SUSPENDED,
            startup_flags: if stdio {
                USE_STD_HANDLES
            } else {
                0
            },
            attribute: None,
            inherit_handles: stdio,
            std_handles: if stdio {
                StdHandles::Own
            } else {
                StdHandles::Default
            },
        },
    }
}

/// An end of one of the pipes of a command.
#[derive(Debug, Clone, Copy, PartialEq, Eq, Structural)]
pub enum PipeEnd {
    StdinRead,
    StdinWrite,
    StdoutRead,
    StdoutWrite,
    StderrRead,
    StderrWrite,
}

impl PipeEnd {
    /// Whether it is one of the three ends that the child gets, in the order of its standard
    /// handles.
    pub open spec fn is_childs(self) -> bool {
        self == PipeEnd::StdinRead || self == PipeEnd::StdoutWrite || self == PipeEnd::StderrWrite
    }
}

/// The ends that a command inherits: these three and no other handle, in the order of its
/// standard handles. The parent closes its own copies of them once the child is there, so that
/// it sees the end of the child's output.
pub fn inherited_ends() -> (ends: [PipeEnd; 3])
    ensures
        ends@ == seq![PipeEnd::StdinRead, PipeEnd::StdoutWrite, PipeEnd::StderrWrite],
{
    let ends: [PipeEnd; 3] = [PipeEnd::StdinRead, PipeEnd::StdoutWrite, PipeEnd::StderrWrite];
    assert(ends@ =~= seq![PipeEnd::StdinRead, PipeEnd::StdoutWrite, PipeEnd::StderrWrite]);
    ends
}

/// Whether the parent keeps an end, and does not hand it to the child.
pub fn parent_keeps(end: PipeEnd) -> (b: bool)
    ensures
        b == !end.is_childs(),
{
    match end {
        PipeEnd::StdinRead => false,
        PipeEnd::StdoutWrite => false,
        PipeEnd::StderrWrite => false,
        _ => true,
    }
}

// Laws.

/// No child runs before it is contained: each is created suspended. One with an attribute, and
/// no other, is created with an attribute list.
pub proof fn law_every_child_starts_suspended(kind: ChildKind)
    ensures
        settings_of(kind).creation_flags & CREATE_SUSPENDED != 0,
        settings_of(kind).creation_flags & EXTENDED_STARTUP != 0 <==> settings_of(
            kind,
        ).attribute is Some,
{
    assert(0x0008_0004u32 & 0x0000_0004u32 != 0 && 0x0000_0004u32 & 0x0000_0004u32 != 0)
        by (bit_vector);
    assert(0x0008_0004u32 & 0x0008_0000u32 != 0 && 0x0000_0004u32 & 0x0008_0000u32 == 0)
        by (bit_vector);
}

/// A child that inherits handles beyond the shim's own streams inherits only those of a list.
pub proof fn law_inheritance_is_restricted(kind: ChildKind)
    ensures
        settings_of(kind).inherit_handles && !(kind is Local) ==> settings_of(kind).attribute
            == Some(ATTRIBUTE_HANDLE_LIST),
{
}

/// Each of the three pipes has one end on either side: of its two ends the child gets one and the
/// parent keeps the other.
pub proof fn law_pipes_have_two_sides(end: PipeEnd)
    ensures
        PipeEnd::StdinRead.is_childs() != PipeEnd::StdinWrite.is_childs(),
        PipeEnd::StdoutRead.is_childs() != PipeEnd::StdoutWrite.is_childs(),
        PipeEnd::StderrRead.is_childs() != PipeEnd::StderrWrite.is_childs(),
        PipeEnd::StdinRead.is_childs(),
        PipeEnd::StdoutWrite.is_childs(),
        PipeEnd::StderrWrite.is_childs(),
{
}

/// A terminal gets its pseudoconsole and inherits nothing, so that the parent's streams do not
/// reach into it; a command gets its pipes, and only through the list of handles; a local run gets
/// the shim's own streams exactly if they are to be used.
pub proof fn law_children_get_their_own_streams(kind: ChildKind, s: SpawnSettings)
    requires
        call_ensures(spawn_settings, (kind,), s),
    ensures
        s.creation_flags & 0x4 != 0,
        kind == ChildKind::Pty ==> s.attribute == Some(0x0002_0016u32) && !s.inherit_handles
            && s.std_handles == StdHandles::Null && s.startup_flags & 0x100 != 0,
        kind == ChildKind::Exec ==> s.attribute == Some(0x0002_0002u32) && s.inherit_handles
            && s.std_handles == StdHandles::Pipes && s.startup_flags & 0x100 != 0,
        kind matches ChildKind::Local { stdio } ==> s.attribute is None && s.inherit_handles == stdio
            && (s.std_handles == StdHandles::Own <==> stdio) && (s.startup_flags & 0x100 != 0
            <==> stdio),
{
    law_every_child_starts_suspended(kind);
    assert(0x100u32 & 0x100u32 != 0 && 0u32 & 0x100u32 == 0) by (bit_vector);
}

} // verus!
