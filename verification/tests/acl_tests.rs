//! Tests of the access-control check.
use ssh_broker::acl::{
    hardened_sddl, verify_dir_acl, Ace, DirSecurity, Sid, FILE_ALL_ACCESS, INHERITED_ACE,
    SE_DACL_PRESENT, SE_DACL_PROTECTED,
};

fn sid(n: u8) -> Sid {
    Sid { bytes: vec![1, 1, 0, 0, 0, 0, 0, 5, n, 0, 0, 0] }
}

fn grant(n: u8) -> Ace {
    Ace { kind: 0, flags: 0, size: 20, mask: FILE_ALL_ACCESS, trustee: Some(sid(n)) }
}

const ME: u8 = 77;
const SYSTEM: u8 = 18;
const ADMINS: u8 = 32;
const EVERYONE: u8 = 1;

fn hardened() -> DirSecurity {
    DirSecurity {
        control: SE_DACL_PRESENT | SE_DACL_PROTECTED,
        owner: Some(sid(ME)),
        dacl: Some(vec![grant(ME), grant(SYSTEM), grant(ADMINS)]),
    }
}

fn verifies(dir: &DirSecurity) -> bool {
    verify_dir_acl(dir, &sid(ME), &sid(SYSTEM), &sid(ADMINS))
}

#[test]
fn harden_then_verify_roundtrips() {
    assert!(verifies(&hardened()), "a freshly hardened dir must verify");
    // The order of the entries does not matter, nor which of the three is the owner.
    let mut other = hardened();
    other.dacl = Some(vec![grant(ADMINS), grant(ME), grant(SYSTEM)]);
    other.owner = Some(sid(SYSTEM));
    assert!(verifies(&other));
    assert_eq!(
        hardened_sddl("S-1-5-21-7"),
        "O:S-1-5-21-7D:P(A;;FA;;;S-1-5-21-7)(A;;FA;;;SY)(A;;FA;;;BA)"
    );
}

#[test]
fn unhardened_dir_does_not_verify() {
    let mut absent = hardened();
    absent.dacl = None;
    assert!(!verifies(&absent));
    let mut missing = hardened();
    missing.control = SE_DACL_PROTECTED;
    assert!(!verifies(&missing));
    let mut few = hardened();
    few.dacl = Some(vec![grant(ME), grant(SYSTEM)]);
    assert!(!verifies(&few));
    let mut twice = hardened();
    twice.dacl = Some(vec![grant(ME), grant(ME), grant(SYSTEM)]);
    assert!(!verifies(&twice));
}

#[test]
fn hardened_dir_with_extra_everyone_ace_does_not_verify() {
    let mut dir = hardened();
    dir.dacl = Some(vec![grant(ME), grant(SYSTEM), grant(ADMINS), grant(EVERYONE)]);
    assert!(!verifies(&dir), "a dir granting Everyone must NOT verify");
    dir.dacl = Some(vec![grant(ME), grant(EVERYONE), grant(ADMINS)]);
    assert!(!verifies(&dir));
}

#[test]
fn hardened_dir_with_deny_ace_does_not_verify() {
    let mut dir = hardened();
    let mut deny = grant(EVERYONE);
    deny.kind = 1;
    dir.dacl = Some(vec![deny, grant(ME), grant(SYSTEM), grant(ADMINS)]);
    assert!(!verifies(&dir), "a DENY ACE must break verification");
}

#[test]
fn a_grant_turned_into_a_denial_does_not_verify() {
    let mut dir = hardened();
    let mut deny = grant(ME);
    deny.kind = 1;
    dir.dacl = Some(vec![deny, grant(SYSTEM), grant(ADMINS)]);
    assert!(!verifies(&dir));
}

#[test]
fn hardened_dir_with_inheritance_enabled_does_not_verify() {
    let mut dir = hardened();
    dir.control = SE_DACL_PRESENT;
    assert!(!verifies(&dir), "a non-protected (inheritance-enabled) DACL must NOT verify");
    let mut inherited = hardened();
    let mut ace = grant(SYSTEM);
    ace.flags = INHERITED_ACE;
    inherited.dacl = Some(vec![grant(ME), ace, grant(ADMINS)]);
    assert!(!verifies(&inherited));
}

#[test]
fn anything_but_a_whole_full_grant_does_not_verify() {
    let with = |ace: Ace| {
        let mut dir = hardened();
        dir.dacl = Some(vec![grant(ME), grant(SYSTEM), ace]);
        verifies(&dir)
    };
    assert!(with(grant(ADMINS)));
    assert!(!with(Ace { mask: FILE_ALL_ACCESS - 1, ..grant(ADMINS) }));
    assert!(!with(Ace { size: 11, ..grant(ADMINS) }));
    assert!(!with(Ace { trustee: None, ..grant(ADMINS) }));
}

#[test]
fn foreign_owner_does_not_verify() {
    let mut dir = hardened();
    dir.owner = Some(sid(EVERYONE));
    assert!(!verifies(&dir));
    dir.owner = None;
    assert!(!verifies(&dir));
}

#[test]
fn system_as_target_never_verifies() {
    let dir = DirSecurity {
        control: SE_DACL_PRESENT | SE_DACL_PROTECTED,
        owner: Some(sid(SYSTEM)),
        dacl: Some(vec![grant(SYSTEM), grant(SYSTEM), grant(ADMINS)]),
    };
    assert!(!verify_dir_acl(&dir, &sid(SYSTEM), &sid(SYSTEM), &sid(ADMINS)));
}
