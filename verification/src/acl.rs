//! acl: the access control of the socket directory.
//!
//! A local socket says nothing of its peer here, so the directory's access-control list is the
//! whole boundary: whoever can connect gets a shell as the user. The list must be explicit and
//! protected, granting full control to the target user, SYSTEM and Administrators, and nobody
//! operates on a directory whose list, read back, is not exactly that.

use vstd::prelude::*;

verus! {

/// The type of an entry that allows access.
pub const ACE_TYPE_ALLOWED: u8 = 0;

/// The flag of an inherited entry.
pub const INHERITED_ACE: u8 = 0x10;

/// The size of an allowing entry up to the start of its trustee.
pub const ALLOWED_ACE_SIZE: u16 = 12;

/// Full control over a file or directory.
pub const FILE_ALL_ACCESS: u32 = 0x001f_01ff;

/// The control bit of a descriptor that has an access-control list.
pub const SE_DACL_PRESENT: u16 = 0x0004;

/// The control bit of a list that inherits nothing.
pub const SE_DACL_PROTECTED: u16 = 0x1000;

/// The accounts that are admitted besides the target user.
#[derive(Debug, Clone, Copy, PartialEq, Eq, Structural)]
pub enum WellKnown {
    System,
    Administrators,
}

/// A security identifier, in its binary form.
#[derive(Debug, Clone, PartialEq, Eq)]
pub struct Sid {
    pub bytes: Vec<u8>,
}

impl View for Sid {
    type V = Seq<u8>;

    open spec fn view(&self) -> Seq<u8> {
        self.bytes@
    }
}

impl Sid {
    /// Whether two identifiers are the same.
    pub fn same(&self, other: &Sid) -> (b: bool)
        ensures
            b == (self@ == other@),
    {
        if self.bytes.len() != other.bytes.len() {
            return false;
        }
        let mut i: usize = 0;
        while i < self.bytes.len()
            invariant
                self.bytes@.len() == other.bytes@.len(),
                i <= self.bytes@.len(),
                forall|j: int| 0 <= j < i ==> self.bytes@[j] == other.bytes@[j],
            decreases self.bytes@.len() - i,
        {
            if self.bytes[i] != other.bytes[i] {
                return false;
            }
            i += 1;
        }
        assert(self@ =~= other@);
        true
    }
}

/// The identifier of an entry or an owner; `None` where it is not a valid one.
pub open spec fn sid_of(s: Option<Sid>) -> Option<Seq<u8>> {
    match s {
        Some(x) => Some(x@),
        None => None,
    }
}

/// An entry of an access-control list. The mask and the trustee are only read from an entry that
/// is large enough to hold them.
#[derive(Debug, Clone, PartialEq, Eq)]
pub struct Ace {
    pub kind: u8,
    pub flags: u8,
    pub size: u16,
    pub mask: u32,
    /// `None` where it is not a valid identifier.
    pub trustee: Option<Sid>,
}

/// What was read back of a directory's security.
#[derive(Debug, Clone, PartialEq, Eq)]
pub struct DirSecurity {
    /// The control bits of the descriptor.
    pub control: u16,
    /// `None` where it is absent or not a valid identifier.
    pub owner: Option<Sid>,
    /// `None` where there is no list, which admits everyone.
    pub dacl: Option<Vec<Ace>>,
}

/// The model of an entry.
pub ghost struct AceView {
    pub kind: u8,
    pub flags: u8,
    pub size: u16,
    pub mask: u32,
    pub trustee: Option<Seq<u8>>,
}

/// The model of a directory's security.
pub ghost struct SecurityView {
    pub control: u16,
    pub owner: Option<Seq<u8>>,
    pub dacl: Option<Seq<AceView>>,
}

impl View for Ace {
    type V = AceView;

    open spec fn view(&self) -> AceView {
        AceView {
            kind: self.kind,
            flags: self.flags,
            size: self.size,
            mask: self.mask,
            trustee: sid_of(self.trustee),
        }
    }
}

/// The models of a list of entries.
pub open spec fn entries(aces: Seq<Ace>) -> Seq<AceView> {
    aces.map_values(|a: Ace| a@)
}

impl View for DirSecurity {
    type V = SecurityView;

    open spec fn view(&self) -> SecurityView {
        SecurityView {
            control: self.control,
            owner: sid_of(self.owner),
            dacl: match self.dacl {
                Some(aces) => Some(entries(aces@)),
                None => None,
            },
        }
    }
}

/// Whether an entry is an explicit grant of full control.
pub open spec fn is_full_grant(a: AceView) -> bool {
    &&& a.flags & INHERITED_ACE == 0
    &&& a.kind == ACE_TYPE_ALLOWED
    &&& a.size >= ALLOWED_ACE_SIZE
    &&& a.mask == FILE_ALL_ACCESS
}

/// Whether a directory is locked down for a target: its list is there and protected, its owner
/// is one of the three admitted accounts, and its entries are exactly three explicit grants of
/// full control, one to each of the three.
pub open spec fn locked_down(
    s: SecurityView,
    target: Seq<u8>,
    system: Seq<u8>,
    admins: Seq<u8>,
) -> bool {
    &&& s.dacl is Some
    &&& s.control & SE_DACL_PRESENT != 0
    &&& s.control & SE_DACL_PROTECTED != 0
    &&& s.owner == Some(target) || s.owner == Some(system) || s.owner == Some(admins)
    &&& exactly(s.dacl->0, target, system, admins)
}

/// Whether entries are exactly one explicit grant of full control to each of three accounts.
pub open spec fn exactly(
    aces: Seq<AceView>,
    target: Seq<u8>,
    system: Seq<u8>,
    admins: Seq<u8>,
) -> bool {
    &&& target != system && target != admins && system != admins
    &&& aces.len() == 3
    &&& forall|i: int| 0 <= i < aces.len() ==> is_full_grant(#[trigger] aces[i])
    &&& grants(aces, target)
    &&& grants(aces, system)
    &&& grants(aces, admins)
}

/// Whether some entry is for an account.
pub open spec fn grants(aces: Seq<AceView>, sid: Seq<u8>) -> bool {
    exists|i: int| 0 <= i < aces.len() && (#[trigger] aces[i]).trustee == Some(sid)
}

/// Where three different accounts each have an entry among three, no two entries are for the
/// same account and none is for a fourth.
proof fn lemma_exactly_is_one_each(
    aces: Seq<AceView>,
    target: Seq<u8>,
    system: Seq<u8>,
    admins: Seq<u8>,
)
    requires
        exactly(aces, target, system, admins),
    ensures
        forall|i: int, j: int|
            0 <= i < j < 3 ==> (#[trigger] aces[i]).trustee != (#[trigger] aces[j]).trustee,
        forall|i: int|
            0 <= i < 3 ==> ((#[trigger] aces[i]).trustee == Some(target) || aces[i].trustee
                == Some(system) || aces[i].trustee == Some(admins)),
{
    let t = choose|i: int| 0 <= i < aces.len() && (#[trigger] aces[i]).trustee == Some(target);
    let s = choose|i: int| 0 <= i < aces.len() && (#[trigger] aces[i]).trustee == Some(system);
    let a = choose|i: int| 0 <= i < aces.len() && (#[trigger] aces[i]).trustee == Some(admins);
    assert(t != s && t != a && s != a);
    assert(0 == t || 0 == s || 0 == a);
    assert(1 == t || 1 == s || 1 == a);
    assert(2 == t || 2 == s || 2 == a);
}

/// Whether what was read back of a directory is exactly the locked-down set: a list that is
/// present and protected, whose entries are full-control grants to the target user, SYSTEM and
/// Administrators, each once, with an owner among them and no inherited or denying entry.
/// Anything else, a missing list included, is refused.
pub fn verify_dir_acl(dir: &DirSecurity, target_user: &Sid, system: &Sid, admins: &Sid) -> (ok:
    bool)
    ensures
        ok == locked_down(dir@, target_user@, system@, admins@),
{
    // A missing list means unrestricted access.
    match &dir.dacl {
        None => false,
        Some(aces) => {
            if dir.control & SE_DACL_PRESENT == 0 || dir.control & SE_DACL_PROTECTED == 0 {
                return false;
            }
            let owner_ok: bool = match &dir.owner {
                None => false,
                Some(owner) => owner.same(target_user) || owner.same(system) || owner.same(admins),
            };
            if !owner_ok {
                return false;
            }
            verify_aces(aces.as_slice(), target_user, system, admins)
        },
    }
}

fn verify_aces(aces: &[Ace], target_user: &Sid, system: &Sid, admins: &Sid) -> (ok: bool)
    ensures
        ok == exactly(entries(aces@), target_user@, system@, admins@),
{
    let ghost all = entries(aces@);
    let ghost t = target_user@;
    let ghost s = system@;
    let ghost a = admins@;
    let mut seen: [bool; 3] = [false, false, false];
    // Which entry was seen for each account.
    let ghost mut at: Seq<int> = seq![-1, -1, -1];
    let mut i: usize = 0;
    while i < aces.len()
        invariant
            i <= aces@.len(),
            all == entries(aces@),
            t == target_user@,
            s == system@,
            a == admins@,
            seen@.len() == 3,
            at.len() == 3,
            forall|j: int| 0 <= j < i ==> is_full_grant(#[trigger] all[j]),
            seen@[0] ==> 0 <= at[0] < i && all[at[0]].trustee == Some(t),
            seen@[1] ==> 0 <= at[1] < i && all[at[1]].trustee == Some(s) && t != s,
            seen@[2] ==> 0 <= at[2] < i && all[at[2]].trustee == Some(a) && t != a && s != a,
            i == (if seen@[0] {
                1int
            } else {
                0
            }) + (if seen@[1] {
                1int
            } else {
                0
            }) + (if seen@[2] {
                1int
            } else {
                0
            }),
        decreases aces@.len() - i,
    {
        let ace: &Ace = &aces[i];
        assert(all[i as int] == ace@);
        proof {
            if exactly(all, t, s, a) {
                lemma_exactly_is_one_each(all, t, s, a);
            }
        }
        // An inherited entry, a denying one, one too short to hold a trustee, or a grant of
        // anything but full control.
        if ace.flags & INHERITED_ACE != 0 || ace.kind != ACE_TYPE_ALLOWED || ace.size
            < ALLOWED_ACE_SIZE || ace.mask != FILE_ALL_ACCESS {
            assert(!is_full_grant(all[i as int]));
            return false;
        }
        let which: Option<usize> = match &ace.trustee {
            None => None,
            Some(trustee) => {
                if trustee.same(target_user) {
                    Some(0)
                } else if trustee.same(system) {
                    Some(1)
                } else if trustee.same(admins) {
                    Some(2)
                } else {
                    None
                }
            },
        };
        match which {
            // An unexpected grantee.
            None => {
                return false;
            },
            Some(k) => {
                if seen[k] {
                    // A second entry for the same grantee.
                    assert(all[at[k as int]].trustee == all[i as int].trustee);
                    return false;
                }
                seen[k] = true;
                proof {
                    at = at.update(k as int, i as int);
                }
            },
        }
        i += 1;
    }
    let ok: bool = i == 3 && seen[0] && seen[1] && seen[2];
    proof {
        if ok {
            assert(all[at[0]].trustee == Some(t));
            assert(all[at[1]].trustee == Some(s));
            assert(all[at[2]].trustee == Some(a));
        }
    }
    ok
}

/// The text of the descriptor that locks a directory down: `P` is protected, `FA` full control,
/// `SY` is SYSTEM and `BA` the built-in Administrators; the target user is the owner.
pub open spec fn hardened_text(target: Seq<char>) -> Seq<char> {
    "O:"@ + target + "D:P(A;;FA;;;"@ + target + ")(A;;FA;;;SY)(A;;FA;;;BA)"@
}

/// The descriptor to set on a directory, given the text form of the target user's identifier.
pub fn hardened_sddl(target: &str) -> (sddl: String)
    ensures
        sddl@ == hardened_text(target@),
{
    let mut s: String = "O:".to_owned();
    s.append(target);
    s.append("D:P(A;;FA;;;");
    s.append(target);
    s.append(")(A;;FA;;;SY)(A;;FA;;;BA)");
    s
}

// Laws.

/// An explicit grant of full control to an account.
pub open spec fn full_grant(sid: Seq<u8>) -> AceView {
    AceView {
        kind: ACE_TYPE_ALLOWED,
        flags: 0,
        size: (8 + sid.len()) as u16,
        mask: FILE_ALL_ACCESS,
        trustee: Some(sid),
    }
}

/// Whether bytes are as many as an identifier can have.
pub open spec fn is_sid_long(sid: Seq<u8>) -> bool {
    8 <= sid.len() <= 68
}

/// What is read back of a directory on which the hardened descriptor was set.
pub open spec fn hardened(target: Seq<u8>, system: Seq<u8>, admins: Seq<u8>) -> SecurityView {
    SecurityView {
        control: 0x1004,
        owner: Some(target),
        dacl: Some(seq![full_grant(target), full_grant(system), full_grant(admins)]),
    }
}

/// A freshly hardened directory verifies, if and only if the three accounts are different.
pub proof fn law_hardened_verifies(target: Seq<u8>, system: Seq<u8>, admins: Seq<u8>)
    requires
        is_sid_long(target),
        is_sid_long(system),
        is_sid_long(admins),
    ensures
        locked_down(hardened(target, system, admins), target, system, admins) <==> (target != system
            && target != admins && system != admins),
{
    let aces = hardened(target, system, admins).dacl->0;
    assert(0x1004u16 & 0x0004u16 != 0 && 0x1004u16 & 0x1000u16 != 0) by (bit_vector);
    assert(0u8 & 0x10u8 == 0) by (bit_vector);
    assert(aces[0].trustee == Some(target));
    assert(aces[1].trustee == Some(system));
    assert(aces[2].trustee == Some(admins));
}

/// A directory that grants anything to a fourth account, or a second time to one of the three,
/// does not verify.
pub proof fn law_extra_entry_is_refused(
    s: SecurityView,
    extra: AceView,
    target: Seq<u8>,
    system: Seq<u8>,
    admins: Seq<u8>,
)
    requires
        s.dacl is Some,
        locked_down(s, target, system, admins),
    ensures
        !locked_down(
            SecurityView { dacl: Some(s.dacl->0.push(extra)), ..s },
            target,
            system,
            admins,
        ),
{
}

/// A directory with an entry that is inherited, denies, or grants less or more than full control
/// does not verify.
pub proof fn law_other_entry_is_refused(
    s: SecurityView,
    i: int,
    target: Seq<u8>,
    system: Seq<u8>,
    admins: Seq<u8>,
)
    requires
        s.dacl is Some,
        0 <= i < s.dacl->0.len(),
        !is_full_grant(s.dacl->0[i]),
    ensures
        !locked_down(s, target, system, admins),
{
}

/// A directory that inherits, or that has no list at all, does not verify.
pub proof fn law_unprotected_is_refused(
    s: SecurityView,
    target: Seq<u8>,
    system: Seq<u8>,
    admins: Seq<u8>,
)
    requires
        s.control & SE_DACL_PROTECTED == 0 || s.control & SE_DACL_PRESENT == 0 || s.dacl is None,
    ensures
        !locked_down(s, target, system, admins),
{
}

/// Every account that a locked-down directory admits is one of the three.
pub proof fn law_only_the_three_are_admitted(
    s: SecurityView,
    i: int,
    target: Seq<u8>,
    system: Seq<u8>,
    admins: Seq<u8>,
)
    requires
        locked_down(s, target, system, admins),
        0 <= i < s.dacl->0.len(),
    ensures
        s.dacl->0[i].trustee == Some(target) || s.dacl->0[i].trustee == Some(system)
            || s.dacl->0[i].trustee == Some(admins),
{
    lemma_exactly_is_one_each(s.dacl->0, target, system, admins);
}

/// An owner that is not one of the three admitted accounts, or none at all, is refused.
pub proof fn law_foreign_owner_is_refused(
    s: SecurityView,
    target: Seq<u8>,
    system: Seq<u8>,
    admins: Seq<u8>,
)
    requires
        s.owner != Some(target),
        s.owner != Some(system),
        s.owner != Some(admins),
    ensures
        !locked_down(s, target, system, admins),
{
}

/// A directory that does not admit one of the three accounts is refused.
pub proof fn law_missing_grant_is_refused(
    s: SecurityView,
    target: Seq<u8>,
    system: Seq<u8>,
    admins: Seq<u8>,
    missing: Seq<u8>,
)
    requires
        s.dacl is Some,
        missing == target || missing == system || missing == admins,
        forall|i: int| 0 <= i < s.dacl->0.len() ==> (#[trigger] s.dacl->0[i]).trustee != Some(
            missing,
        ),
    ensures
        !locked_down(s, target, system, admins),
{
}

/// What is exact is the set: three plain grants of full control verify in whatever order they
/// stand, with any of the three as the owner, and with any control bits beside the two that are
/// asked for.
pub proof fn law_any_order_verifies(
    s: SecurityView,
    a: Seq<u8>,
    b: Seq<u8>,
    c: Seq<u8>,
    target: Seq<u8>,
    system: Seq<u8>,
    admins: Seq<u8>,
)
    requires
        target != system,
        target != admins,
        system != admins,
        is_sid_long(target),
        is_sid_long(system),
        is_sid_long(admins),
        a != b,
        a != c,
        b != c,
        a == target || a == system || a == admins,
        b == target || b == system || b == admins,
        c == target || c == system || c == admins,
        s.control & 0x0004 != 0,
        s.control & 0x1000 != 0,
        s.owner == Some(target) || s.owner == Some(system) || s.owner == Some(admins),
        s.dacl == Some(seq![full_grant(a), full_grant(b), full_grant(c)]),
    ensures
        locked_down(s, target, system, admins),
{
    let aces = s.dacl->0;
    assert(0u8 & 0x10u8 == 0) by (bit_vector);
    assert(aces[0].trustee == Some(a));
    assert(aces[1].trustee == Some(b));
    assert(aces[2].trustee == Some(c));
}

/// Full control is `0x001f01ff` and nothing else, a grant is an entry of type 0, and an inherited
/// one has the bit `0x10`: an entry that differs in any of these spoils the directory.
pub proof fn law_entry_is_exact(
    s: SecurityView,
    i: int,
    target: Seq<u8>,
    system: Seq<u8>,
    admins: Seq<u8>,
)
    requires
        locked_down(s, target, system, admins),
        0 <= i < s.dacl->0.len(),
    ensures
        s.dacl->0.len() == 3,
        s.dacl->0[i].mask == 0x001f_01ff,
        s.dacl->0[i].kind == 0,
        s.dacl->0[i].flags & 0x10 == 0,
        s.control & 0x0004 != 0,
        s.control & 0x1000 != 0,
{
    assert(is_full_grant(s.dacl->0[i]));
}

/// The directory is locked down for one user alone: what verifies for one does not verify for
/// another.
pub proof fn law_locked_down_for_one(
    s: SecurityView,
    target: Seq<u8>,
    other: Seq<u8>,
    system: Seq<u8>,
    admins: Seq<u8>,
)
    requires
        locked_down(s, target, system, admins),
        locked_down(s, other, system, admins),
    ensures
        target == other,
{
    let aces = s.dacl->0;
    lemma_exactly_is_one_each(aces, target, system, admins);
    let i = choose|i: int| 0 <= i < aces.len() && (#[trigger] aces[i]).trustee == Some(other);
    law_only_the_three_are_admitted(s, i, target, system, admins);
}

/// The check itself keeps these laws: what it accepts is protected, owned by one of the three, and
/// admits those three and nobody else, each with full control.
pub proof fn law_accepted_directory(
    dir: &DirSecurity,
    target: &Sid,
    system: &Sid,
    admins: &Sid,
    ok: bool,
    i: int,
)
    requires
        call_ensures(verify_dir_acl, (dir, target, system, admins), ok),
        ok,
    ensures
        dir.control & 0x0004 != 0,
        dir.control & 0x1000 != 0,
        dir@.owner == Some(target@) || dir@.owner == Some(system@) || dir@.owner == Some(admins@),
        dir@.dacl is Some && dir@.dacl->0.len() == 3,
        0 <= i < 3 ==> ({
            let ace = dir@.dacl->0[i];
            &&& ace.kind == 0 && ace.mask == 0x001f_01ff && ace.flags & 0x10 == 0
            &&& ace.trustee == Some(target@) || ace.trustee == Some(system@) || ace.trustee == Some(
                admins@,
            )
        }),
{
    if 0 <= i < 3 {
        law_entry_is_exact(dir@, i, target@, system@, admins@);
        law_only_the_three_are_admitted(dir@, i, target@, system@, admins@);
    }
}

/// And it accepts every such directory: one with the three plain grants, in any order.
pub proof fn law_hardened_directory_is_accepted(
    dir: &DirSecurity,
    target: &Sid,
    system: &Sid,
    admins: &Sid,
    ok: bool,
)
    requires
        call_ensures(verify_dir_acl, (dir, target, system, admins), ok),
        dir@ == hardened(target@, system@, admins@),
        is_sid_long(target@),
        is_sid_long(system@),
        is_sid_long(admins@),
    ensures
        ok <==> target@ != system@ && target@ != admins@ && system@ != admins@,
{
    law_hardened_verifies(target@, system@, admins@);
}

/// The descriptor that locks a directory down names its user as the owner, is protected, and has
/// three entries: full control for that user, for SYSTEM and for the Administrators. Another user
/// gives another descriptor.
pub proof fn law_descriptor_is_for_the_user(target: Seq<char>, other: Seq<char>)
    ensures
        hardened_text(target) == "O:"@ + target + "D:P"@ + full_entry(target) + full_entry("SY"@)
            + full_entry("BA"@),
        hardened_text(target) == hardened_text(other) ==> target == other,
{
    reveal_strlit("O:");
    reveal_strlit("D:P");
    reveal_strlit("D:P(A;;FA;;;");
    reveal_strlit("(A;;FA;;;");
    reveal_strlit(")");
    reveal_strlit(")(A;;FA;;;SY)(A;;FA;;;BA)");
    reveal_strlit("SY");
    reveal_strlit("BA");
    let a = hardened_text(target);
    let b = hardened_text(other);
    assert("D:P(A;;FA;;;"@ =~= "D:P"@ + "(A;;FA;;;"@);
    assert(")(A;;FA;;;SY)(A;;FA;;;BA)"@ =~= ")"@ + full_entry("SY"@) + full_entry("BA"@));
    assert(a =~= "O:"@ + target + "D:P"@ + full_entry(target) + full_entry("SY"@) + full_entry(
        "BA"@,
    ));
    let n = target.len() as int;
    assert(a.subrange(2, 2 + n) =~= target);
    if a == b {
        assert(a.len() == 2 * target.len() + b.len() - 2 * other.len());
        assert(b.subrange(2, 2 + n) =~= other);
    }
}

/// An entry that grants full control to an account.
pub open spec fn full_entry(account: Seq<char>) -> Seq<char> {
    "(A;;FA;;;"@ + account + ")"@
}

} // verus!
