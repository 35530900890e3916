//! sshd: reading the effective sshd configuration.
//!
//! A request for a subsystem reaches the shim as a plain command string. What says which binary
//! runs is the administrator's declaration, so a command is compared with what was declared, and
//! the declarations are read from `sshd -T`, which prints the very string that is handed on.

use vstd::prelude::*;
use crate::text::{
    CharClass, begins_with, char_lists, chars_of, is_string, is_white, law_line_behind_lines,
    lines, split_lines, starts_with, string_of, trim, trim_front, trim_start, trimmed,
};

verus! {

/// One subsystem declaration, as sshd resolved it.
#[derive(Debug, Clone, PartialEq, Eq)]
pub struct Subsystem {
    /// The key a client names in a subsystem request.
    pub name: String,
    /// The command string that sshd hands to the login shell.
    pub command_line: String,
}

/// The model of a declaration.
pub ghost struct SubsystemView {
    pub name: Seq<char>,
    pub command_line: Seq<char>,
}

impl View for Subsystem {
    type V = SubsystemView;

    open spec fn view(&self) -> SubsystemView {
        SubsystemView { name: self.name@, command_line: self.command_line@ }
    }
}

/// The models of a list of declarations.
pub open spec fn declarations(v: Seq<Subsystem>) -> Seq<SubsystemView> {
    v.map_values(|s: Subsystem| s@)
}

/// Where the first space of a text stands, or its length.
pub open spec fn first_space(s: Seq<char>, i: int) -> int
    decreases s.len() - i,
{
    if i < s.len() && s[i] != ' ' {
        first_space(s, i + 1)
    } else {
        i
    }
}

/// The declaration of a line: `subsystem <name> <command>`, with whitespace around the line and
/// the command ignored. A line without a name or a command declares nothing.
pub open spec fn declared_in(line: Seq<char>) -> Option<SubsystemView> {
    let t = trim_front(line, CharClass::Whitespace);
    if !begins_with(t, "subsystem "@) {
        None
    } else {
        let rest = t.skip("subsystem "@.len() as int);
        let n = first_space(rest, 0);
        if n >= rest.len() {
            None
        } else {
            let name = trimmed(rest.take(n), CharClass::Whitespace);
            let command_line = trimmed(rest.skip(n + 1), CharClass::Whitespace);
            if name.len() == 0 || command_line.len() == 0 {
                None
            } else {
                Some(SubsystemView { name, command_line })
            }
        }
    }
}

/// The declarations of lines, in order.
pub open spec fn declared_in_all(ls: Seq<Seq<char>>) -> Seq<SubsystemView>
    decreases ls.len(),
{
    if ls.len() == 0 {
        Seq::empty()
    } else {
        let before = declared_in_all(ls.drop_last());
        match declared_in(ls.last()) {
            Some(s) => before.push(s),
            None => before,
        }
    }
}

fn parse_line(line: &[char]) -> (r: Option<Subsystem>)
    ensures
        match declared_in(line@) {
            Some(s) => r is Some && r->0@ == s,
            None => r is None,
        },
{
    let t: &[char] = trim_start(line, CharClass::Whitespace);
    if !starts_with(t, "subsystem ") {
        return None;
    }
    proof {
        reveal_strlit("subsystem ");
    }
    let rest: &[char] = vstd::slice::slice_subrange(t, 10, t.len());
    assert(rest@ =~= t@.skip(10));
    let mut n: usize = 0;
    while n < rest.len() && rest[n] != ' '
        invariant
            n <= rest@.len(),
            first_space(rest@, 0) == first_space(rest@, n as int),
        decreases rest@.len() - n,
    {
        n += 1;
    }
    if n >= rest.len() {
        return None;
    }
    let front: &[char] = vstd::slice::slice_subrange(rest, 0, n);
    let back: &[char] = vstd::slice::slice_subrange(rest, n + 1, rest.len());
    assert(front@ =~= rest@.take(n as int));
    assert(back@ =~= rest@.skip(n + 1));
    let name: &[char] = trim(front, CharClass::Whitespace);
    let command_line: &[char] = trim(back, CharClass::Whitespace);
    if name.len() == 0 || command_line.len() == 0 {
        return None;
    }
    Some(Subsystem { name: string_of(name), command_line: string_of(command_line) })
}

/// Parse the subsystem declarations out of `sshd -T` output. Unknown and malformed lines are
/// skipped, so that a new directive does not break provisioning; a declaration without a command
/// is skipped too, or it would match an empty command.
pub fn parse_subsystems(dump: &str) -> (out: Vec<Subsystem>)
    ensures
        declarations(out@) == declared_in_all(lines(dump@)),
{
    let text: Vec<char> = chars_of(dump);
    let ls: Vec<Vec<char>> = split_lines(text.as_slice());
    let ghost all = char_lists(ls@);
    let mut out: Vec<Subsystem> = Vec::new();
    let mut i: usize = 0;
    assert(all.take(0) =~= Seq::<Seq<char>>::empty());
    assert(declarations(out@) =~= declared_in_all(all.take(0)));
    while i < ls.len()
        invariant
            i <= ls@.len(),
            all == char_lists(ls@),
            declarations(out@) == declared_in_all(all.take(i as int)),
        decreases ls@.len() - i,
    {
        let ghost before = declarations(out@);
        proof {
            let now = all.take(i + 1);
            assert(now.drop_last() =~= all.take(i as int));
            assert(now.last() == ls@[i as int]@);
        }
        match parse_line(ls[i].as_slice()) {
            Some(s) => {
                out.push(s);
                assert(declarations(out@) =~= before.push(s@));
            },
            None => {},
        }
        i += 1;
    }
    assert(all.take(i as int) =~= all);
    out
}

/// Whether a command is one of the declared command lines.
pub open spec fn is_declared(command: Seq<char>, declared: Seq<SubsystemView>) -> bool {
    exists|i: int| 0 <= i < declared.len() && (#[trigger] declared[i]).command_line == command
}

/// Whether `command` is one of the declared subsystem command lines: an exact comparison of the
/// whole, not of a prefix, a base name or a token.
pub fn matches_declaration(command: &str, declared: &[Subsystem]) -> (b: bool)
    ensures
        b == is_declared(command@, declarations(declared@)),
{
    let ghost all = declarations(declared@);
    let mut i: usize = 0;
    while i < declared.len()
        invariant
            i <= declared@.len(),
            all == declarations(declared@),
            forall|j: int| 0 <= j < i ==> (#[trigger] all[j]).command_line != command@,
        decreases declared@.len() - i,
    {
        assert(all[i as int] == declared@[i as int]@);
        if is_string(declared[i].command_line.as_str(), command) {
            return true;
        }
        i += 1;
    }
    false
}

/// Whether two lists of declarations are the same.
pub fn same_declarations(a: &[Subsystem], b: &[Subsystem]) -> (same: bool)
    ensures
        same == (declarations(a@) == declarations(b@)),
{
    let ghost va = declarations(a@);
    let ghost vb = declarations(b@);
    if a.len() != b.len() {
        assert(va.len() != vb.len());
        return false;
    }
    let mut i: usize = 0;
    while i < a.len()
        invariant
            a@.len() == b@.len(),
            va == declarations(a@),
            vb == declarations(b@),
            i <= a@.len(),
            forall|j: int| 0 <= j < i ==> va[j] == vb[j],
        decreases a@.len() - i,
    {
        assert(va[i as int] == a@[i as int]@);
        assert(vb[i as int] == b@[i as int]@);
        if !is_string(a[i].name.as_str(), b[i].name.as_str()) || !is_string(
            a[i].command_line.as_str(),
            b[i].command_line.as_str(),
        ) {
            return false;
        }
        i += 1;
    }
    assert(va =~= vb);
    true
}

/// Declarations as sshd prints them, one to a line.
pub open spec fn declaration_lines(d: Seq<SubsystemView>) -> Seq<char>
    decreases d.len(),
{
    if d.len() == 0 {
        Seq::empty()
    } else {
        declaration_lines(d.drop_last()) + declaration_line(d.last()) + seq!['\n']
    }
}

/// A declaration as a line.
pub open spec fn declaration_line(s: SubsystemView) -> Seq<char> {
    "subsystem "@ + s.name + seq![' '] + s.command_line
}

// Laws.

/// Whether a declaration can be read from a line: its name and command are there, without
/// whitespace around them, in one line, and without a space in the name.
pub open spec fn is_declarable(s: SubsystemView) -> bool {
    &&& s.name.len() > 0
    &&& s.command_line.len() > 0
    &&& !is_white(s.name[0]) && !is_white(s.name.last())
    &&& !is_white(s.command_line[0]) && !is_white(s.command_line.last())
    &&& forall|i: int| 0 <= i < s.name.len() ==> (#[trigger] s.name[i]) != ' ' && s.name[i] != '\n'
    &&& forall|i: int| 0 <= i < s.command_line.len() ==> (#[trigger] s.command_line[i]) != '\n'
}

/// A declaration that sshd prints is read as itself.
pub proof fn law_declaration_line_round_trip(s: SubsystemView)
    requires
        is_declarable(s),
    ensures
        declared_in(declaration_line(s)) == Some(s),
{
    reveal_strlit("subsystem ");
    let line = declaration_line(s);
    let key = "subsystem "@;
    assert(key.len() == 10);
    assert(line[0] == 's');
    assert(trim_front(line, CharClass::Whitespace) == line);
    assert(line.take(10) =~= key);
    let rest = line.skip(10);
    assert(rest =~= s.name + seq![' '] + s.command_line);
    let n = s.name.len() as int;
    assert forall|i: int| 0 <= i < n implies (#[trigger] rest[i]) != ' ' by {
        assert(rest[i] == s.name[i]);
    }
    assert(rest[n] == ' ');
    lemma_first_space(rest, 0, n);
    assert(rest.take(n) =~= s.name);
    assert(rest.skip(n + 1) =~= s.command_line);
    assert(trimmed(s.name, CharClass::Whitespace) == s.name);
    assert(trimmed(s.command_line, CharClass::Whitespace) == s.command_line);
}

proof fn lemma_first_space(s: Seq<char>, i: int, n: int)
    requires
        0 <= i <= n < s.len(),
        forall|j: int| i <= j < n ==> (#[trigger] s[j]) != ' ',
        s[n] == ' ',
    ensures
        first_space(s, i) == n,
    decreases n - i,
{
    if i < n {
        assert(s[i] != ' ');
        lemma_first_space(s, i + 1, n);
    }
}

/// The declarations that sshd prints are read as themselves, in order.
pub proof fn law_declarations_round_trip(d: Seq<SubsystemView>)
    requires
        forall|i: int| 0 <= i < d.len() ==> is_declarable(#[trigger] d[i]),
    ensures
        declared_in_all(lines(declaration_lines(d))) == d,
    decreases d.len(),
{
    let text = declaration_lines(d);
    lemma_declaration_lines(d);
    let ls = d.map_values(|s: SubsystemView| declaration_line(s));
    lemma_all_declared(d);
    assert(lines(text) == ls);
}

proof fn lemma_all_declared(d: Seq<SubsystemView>)
    requires
        forall|i: int| 0 <= i < d.len() ==> is_declarable(#[trigger] d[i]),
    ensures
        declared_in_all(d.map_values(|s: SubsystemView| declaration_line(s))) == d,
    decreases d.len(),
{
    let ls = d.map_values(|s: SubsystemView| declaration_line(s));
    if d.len() > 0 {
        let front = d.drop_last();
        assert forall|i: int| 0 <= i < front.len() implies is_declarable(#[trigger] front[i]) by {
            assert(front[i] == d[i]);
        }
        lemma_all_declared(front);
        assert(ls.drop_last() =~= front.map_values(|s: SubsystemView| declaration_line(s)));
        assert(is_declarable(d[d.len() - 1]));
        law_declaration_line_round_trip(d.last());
        assert(front.push(d.last()) =~= d);
    } else {
        assert(declared_in_all(ls) =~= d);
    }
}

proof fn lemma_declaration_lines(d: Seq<SubsystemView>)
    requires
        forall|i: int| 0 <= i < d.len() ==> is_declarable(#[trigger] d[i]),
    ensures
        lines(declaration_lines(d)) == d.map_values(|s: SubsystemView| declaration_line(s)),
    decreases d.len(),
{
    let ls = d.map_values(|s: SubsystemView| declaration_line(s));
    if d.len() > 0 {
        let front = d.drop_last();
        assert forall|i: int| 0 <= i < front.len() implies is_declarable(#[trigger] front[i]) by {
            assert(front[i] == d[i]);
        }
        lemma_declaration_lines(front);
        let line = declaration_line(d.last());
        reveal_strlit("subsystem ");
        assert(is_declarable(d[d.len() - 1]));
        let s = d.last();
        let n = s.name.len() as int;
        assert forall|i: int| 0 <= i < line.len() implies (#[trigger] line[i]) != '\n' by {
            if i >= 10 && i < 10 + n {
                assert(line[i] == s.name[i - 10]);
            } else if i > 10 + n {
                assert(line[i] == s.command_line[i - 11 - n]);
            }
        }
        assert(line.last() == s.command_line.last());
        law_line_behind_lines(declaration_lines(front), line);
        lemma_ends_in_line_feed(front);
        assert(declaration_lines(d) =~= declaration_lines(front) + line + seq!['\n']);
        assert(lines(declaration_lines(front)).push(line) =~= ls);
    } else {
        assert(lines(declaration_lines(d)) =~= ls);
    }
}

proof fn lemma_ends_in_line_feed(d: Seq<SubsystemView>)
    ensures
        declaration_lines(d).len() > 0 ==> declaration_lines(d).last() == '\n',
{
}

/// Nothing that is declared is empty, so an empty command never matches.
pub proof fn law_empty_command_never_matches(ls: Seq<Seq<char>>)
    ensures
        !is_declared(Seq::empty(), declared_in_all(ls)),
    decreases ls.len(),
{
    if ls.len() > 0 {
        let before = declared_in_all(ls.drop_last());
        let all = declared_in_all(ls);
        law_empty_command_never_matches(ls.drop_last());
        assert forall|i: int| 0 <= i < all.len() implies (#[trigger] all[i]).command_line
            != Seq::<char>::empty() by {
            if i < before.len() {
                assert(all[i] == before[i]);
            }
        }
    }
}

/// Only a line that begins with the keyword and a space declares anything, whatever else it says;
/// so the lines between declarations do not count.
pub proof fn law_other_lines_declare_nothing(line: Seq<char>, front: Seq<Seq<char>>, back: Seq<Seq<char>>)
    requires
        !begins_with(trim_front(line, CharClass::Whitespace), "subsystem "@),
    ensures
        declared_in(line) is None,
        declared_in_all(front + seq![line] + back) == declared_in_all(front + back),
    decreases back.len(),
{
    let with = front + seq![line] + back;
    let without = front + back;
    if back.len() == 0 {
        assert(with.drop_last() =~= front);
        assert(without =~= front);
    } else {
        law_other_lines_declare_nothing(line, front, back.drop_last());
        assert(with.drop_last() =~= front + seq![line] + back.drop_last());
        assert(without.drop_last() =~= front + back.drop_last());
        assert(with.last() == back.last() && without.last() == back.last());
    }
}

/// A command matches only as a whole: it is one of the declared command lines, or none of them.
pub proof fn law_commands_match_as_a_whole(command: &str, declared: &[Subsystem], b: bool)
    requires
        call_ensures(matches_declaration, (command, declared), b),
    ensures
        b <==> exists|i: int|
            0 <= i < declared@.len() && (#[trigger] declared@[i]).command_line@ == command@,
{
    let d = declarations(declared@);
    if b {
        let i = choose|i: int| 0 <= i < d.len() && (#[trigger] d[i]).command_line == command@;
        assert(declared@[i].command_line@ == command@);
    }
    if exists|i: int| 0 <= i < declared@.len() && (#[trigger] declared@[i]).command_line@ == command@ {
        let i = choose|i: int|
            0 <= i < declared@.len() && (#[trigger] declared@[i]).command_line@ == command@;
        assert(d[i].command_line == command@);
    }
}

/// Declarations are the same only in the same order and number, each with the same name and
/// command.
pub proof fn law_same_declarations(a: &[Subsystem], b: &[Subsystem], same: bool)
    requires
        call_ensures(same_declarations, (a, b), same),
    ensures
        same <==> a@.len() == b@.len() && forall|i: int|
            0 <= i < a@.len() ==> (#[trigger] a@[i]).name@ == b@[i].name@ && a@[i].command_line@
                == b@[i].command_line@,
{
    let x = declarations(a@);
    let y = declarations(b@);
    if same {
        assert forall|i: int| 0 <= i < a@.len() implies (#[trigger] a@[i]).name@ == b@[i].name@
            && a@[i].command_line@ == b@[i].command_line@ by {
            assert(x[i] == y[i]);
        }
    } else if a@.len() == b@.len() && forall|i: int|
        0 <= i < a@.len() ==> (#[trigger] a@[i]).name@ == b@[i].name@ && a@[i].command_line@
            == b@[i].command_line@ {
        assert forall|i: int| 0 <= i < x.len() implies x[i] == y[i] by {
            assert(a@[i].name@ == b@[i].name@);
        }
        assert(x =~= y);
    }
}

} // verus!
