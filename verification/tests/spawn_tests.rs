//! Tests of how children are created.
use ssh_broker::spawn::{
    inherited_ends, parent_keeps, spawn_settings, ChildKind, PipeEnd, SpawnSettings, StdHandles,
};

const SUSPENDED: u32 = 0x4;

#[test]
fn each_kind_of_child_has_its_settings() {
    assert_eq!(
        spawn_settings(ChildKind::Exec),
        SpawnSettings {
            creation_flags: 0x0008_0004,
            startup_flags: 0x100,
            attribute: Some(0x0002_0002),
            inherit_handles: true,
            std_handles: StdHandles::Pipes,
        }
    );
    assert_eq!(
        spawn_settings(ChildKind::Pty),
        SpawnSettings {
            creation_flags: 0x0008_0004,
            startup_flags: 0x100,
            attribute: Some(0x0002_0016),
            inherit_handles: false,
            std_handles: StdHandles::Null,
        }
    );
    assert_eq!(
        spawn_settings(ChildKind::Local { stdio: true }),
        SpawnSettings {
            creation_flags: 0x4,
            startup_flags: 0x100,
            attribute: None,
            inherit_handles: true,
            std_handles: StdHandles::Own,
        }
    );
    assert_eq!(
        spawn_settings(ChildKind::Local { stdio: false }),
        SpawnSettings {
            creation_flags: 0x4,
            startup_flags: 0,
            attribute: None,
            inherit_handles: false,
            std_handles: StdHandles::Default,
        }
    );
}

#[test]
fn every_child_starts_suspended() {
    for kind in [
        ChildKind::Exec,
        ChildKind::Pty,
        ChildKind::Local { stdio: true },
        ChildKind::Local { stdio: false },
    ] {
        assert_ne!(spawn_settings(kind).creation_flags & SUSPENDED, 0);
    }
}

#[test]
fn each_pipe_has_one_end_on_either_side() {
    let ends = inherited_ends();
    assert_eq!(
        ends,
        [PipeEnd::StdinRead, PipeEnd::StdoutWrite, PipeEnd::StderrWrite]
    );
    for end in ends {
        assert!(!parent_keeps(end));
    }
    for end in [PipeEnd::StdinWrite, PipeEnd::StdoutRead, PipeEnd::StderrRead] {
        assert!(parent_keeps(end));
    }
}
