//! schtasks: Task Scheduler definitions, argument lists and query results.
//!
//! The agent task is registered from XML to set its logon type to InteractiveToken: that, and
//! not the trigger, is what makes the agent run in the interactive session. Its run level is
//! LeastPrivilege, because an elevated token would not match the socket directory.

use vstd::prelude::*;
use crate::protocol::le16_bytes;
use crate::shim::{
    law_plain_word_is_one_token, law_quoted_text_is_one_token, quoteless, texts, tokens_from,
};
use crate::text::{
    chars_of, contains_text, holds, lowered, stands_at, to_lower, to_wide, units,
};

verus! {

pub const AGENT_TASK: &'static str = "ssh-broker-agent";

pub const SELFHEAL_TASK: &'static str = "ssh-broker-apply";

/// A character as it stands in XML text.
pub open spec fn entity(c: char) -> Seq<char> {
    if c == '&' {
        "&amp;"@
    } else if c == '<' {
        "&lt;"@
    } else if c == '>' {
        "&gt;"@
    } else if c == '"' {
        "&quot;"@
    } else if c == '\'' {
        "&apos;"@
    } else {
        seq![c]
    }
}

/// A text as it stands in XML text.
pub open spec fn escaped(s: Seq<char>) -> Seq<char>
    decreases s.len(),
{
    if s.len() == 0 {
        Seq::empty()
    } else {
        escaped(s.drop_last()) + entity(s.last())
    }
}

/// Escape the characters that have a meaning in XML.
fn xml_escape(s: &str) -> (out: String)
    ensures
        out@ == escaped(s@),
{
    let v: Vec<char> = chars_of(s);
    let mut out: String = String::new();
    let mut i: usize = 0;
    assert(v@.take(0) =~= Seq::<char>::empty());
    while i < v.len()
        invariant
            i <= v@.len(),
            out@ == escaped(v@.take(i as int)),
        decreases v@.len() - i,
    {
        let c: char = v[i];
        assert(v@.take(i + 1).drop_last() =~= v@.take(i as int));
        if c == '&' {
            out.append("&amp;");
        } else if c == '<' {
            out.append("&lt;");
        } else if c == '>' {
            out.append("&gt;");
        } else if c == '"' {
            out.append("&quot;");
        } else if c == '\'' {
            out.append("&apos;");
        } else {
            out.push(c);
        }
        assert(out@ =~= escaped(v@.take(i + 1)));
        i += 1;
    }
    assert(v@.take(i as int) =~= s@);
    out
}

/// The definition of the agent's task up to the user that triggers it.
pub const XML_HEAD: &'static str = "<?xml version=\"1.0\" encoding=\"UTF-16\"?>\n<Task version=\"1.2\" xmlns=\"http://schemas.microsoft.com/windows/2004/02/mit/task\">\n  <RegistrationInfo><Description>ssh-broker session-1 relay agent</Description></RegistrationInfo>\n  <Triggers><LogonTrigger><Enabled>true</Enabled><UserId>";

/// From that user to the one it runs as.
pub const XML_PRINCIPAL: &'static str = "</UserId></LogonTrigger></Triggers>\n  <Principals><Principal id=\"Author\">\n    <UserId>";

/// The end of that user.
pub const XML_USER_END: &'static str = "</UserId>\n    ";

/// The logon type and the run level.
pub const XML_LOGON: &'static str = "<LogonType>InteractiveToken</LogonType>\n    <RunLevel>LeastPrivilege</RunLevel>";

/// The settings, up to the program that is run.
pub const XML_SETTINGS: &'static str = "\n  </Principal></Principals>\n  <Settings>\n    <MultipleInstancesPolicy>IgnoreNew</MultipleInstancesPolicy>\n    <ExecutionTimeLimit>PT0S</ExecutionTimeLimit>\n    <DisallowStartIfOnBatteries>false</DisallowStartIfOnBatteries>\n    <StopIfGoingOnBatteries>false</StopIfGoingOnBatteries>\n    <!-- The project forbids arbitrary retry caps, and this is the one documented exception: the\n         Task Scheduler schema requires a Count with RestartOnFailure and has no unbounded form.\n         A failure outlasting these attempts is covered at the next boot or logon, by the\n         ONSTART self-heal task and the agent task's own logon trigger \u{2014} not before. -->\n    <RestartOnFailure><Interval>PT1M</Interval><Count>3</Count></RestartOnFailure>\n    <Enabled>true</Enabled>\n  </Settings>\n  <Actions Context=\"Author\"><Exec>\n    <Command>";

/// The arguments and the end.
pub const XML_TAIL: &'static str = "</Command>\n    <Arguments>agent</Arguments>\n  </Exec></Actions>\n</Task>\n";

/// The definition of the agent's task.
pub open spec fn task_xml(exe: Seq<char>, user: Seq<char>) -> Seq<char> {
    XML_HEAD@ + escaped(user) + XML_PRINCIPAL@ + escaped(user) + XML_USER_END@ + XML_LOGON@
        + XML_SETTINGS@ + escaped(exe) + XML_TAIL@
}

/// The agent's logon task: runs `<exe> agent` in the interactive session of the target user,
/// triggered by that user's logon.
pub fn agent_task_xml(exe: &str, user: &str) -> (xml: String)
    ensures
        xml@ == task_xml(exe@, user@),
{
    let user_text: String = xml_escape(user);
    let exe_text: String = xml_escape(exe);
    let mut xml: String = XML_HEAD.to_owned();
    xml.append(user_text.as_str());
    xml.append(XML_PRINCIPAL);
    xml.append(user_text.as_str());
    xml.append(XML_USER_END);
    xml.append(XML_LOGON);
    xml.append(XML_SETTINGS);
    xml.append(exe_text.as_str());
    xml.append(XML_TAIL);
    xml
}

/// UTF-16 units as bytes, the least significant first.
pub open spec fn unit_bytes(u: Seq<u16>) -> Seq<u8>
    decreases u.len(),
{
    if u.len() == 0 {
        Seq::empty()
    } else {
        unit_bytes(u.drop_last()) + le16_bytes(u.last() as int)
    }
}

/// Encode the task's XML for the file that `schtasks` reads: UTF-16LE with a byte-order mark. A
/// UTF-8 file is rejected.
pub fn xml_file_bytes(xml: &str) -> (bytes: Vec<u8>)
    ensures
        bytes@ == seq![0xffu8, 0xfe] + unit_bytes(units(xml@)),
{
    let w: Vec<u16> = to_wide(xml);
    let ghost u = units(xml@);
    let mut bytes: Vec<u8> = Vec::new();
    bytes.push(0xff);
    bytes.push(0xfe);
    let n: usize = w.len() - 1;
    let mut i: usize = 0;
    assert(u.take(0) =~= Seq::<u16>::empty());
    assert(bytes@ =~= seq![0xffu8, 0xfe] + unit_bytes(u.take(0)));
    while i < n
        invariant
            i <= n,
            n == u.len(),
            w@ == u.push(0),
            bytes@ == seq![0xffu8, 0xfe] + unit_bytes(u.take(i as int)),
        decreases n - i,
    {
        let x: u16 = w[i];
        bytes.push((x % 256) as u8);
        bytes.push((x / 256) as u8);
        proof {
            let now = u.take(i + 1);
            assert(now.drop_last() =~= u.take(i as int));
            assert(now.last() == x);
            assert(bytes@ =~= seq![0xffu8, 0xfe] + unit_bytes(now));
        }
        i += 1;
    }
    assert(u.take(i as int) =~= u);
    bytes
}

/// Register a task from an XML definition (idempotent).
pub fn create_from_xml_argv(name: &str, xml_path: &str) -> (argv: Vec<String>)
    ensures
        texts(argv@) == seq!["/Create"@, "/TN"@, name@, "/XML"@, xml_path@, "/F"@],
{
    let mut argv: Vec<String> = Vec::new();
    argv.push("/Create".to_owned());
    argv.push("/TN".to_owned());
    argv.push(name.to_owned());
    argv.push("/XML".to_owned());
    argv.push(xml_path.to_owned());
    argv.push("/F".to_owned());
    assert(texts(argv@) =~= seq!["/Create"@, "/TN"@, name@, "/XML"@, xml_path@, "/F"@]);
    argv
}

/// What the self-heal task runs: `apply` for the recorded account. Both names are quoted, so that
/// one with a space stays one argument.
pub open spec fn selfheal_command(exe: Seq<char>, user: Seq<char>) -> Seq<char> {
    "\""@ + exe + "\" apply --user \""@ + user + "\""@
}

/// The task that runs `apply` as SYSTEM on boot. The account is part of its command, so that the
/// run resolves the same one and never its own.
pub fn selfheal_task_argv(exe: &str, user: &str) -> (argv: Vec<String>)
    ensures
        texts(argv@) == seq![
            "/Create"@,
            "/TN"@,
            SELFHEAL_TASK@,
            "/TR"@,
            selfheal_command(exe@, user@),
            "/SC"@,
            "ONSTART"@,
            "/RU"@,
            "SYSTEM"@,
            "/RL"@,
            "HIGHEST"@,
            "/F"@,
        ],
{
    let mut command: String = "\"".to_owned();
    command.append(exe);
    command.append("\" apply --user \"");
    command.append(user);
    command.append("\"");
    let mut argv: Vec<String> = Vec::new();
    argv.push("/Create".to_owned());
    argv.push("/TN".to_owned());
    argv.push(SELFHEAL_TASK.to_owned());
    argv.push("/TR".to_owned());
    argv.push(command);
    argv.push("/SC".to_owned());
    argv.push("ONSTART".to_owned());
    argv.push("/RU".to_owned());
    argv.push("SYSTEM".to_owned());
    argv.push("/RL".to_owned());
    argv.push("HIGHEST".to_owned());
    argv.push("/F".to_owned());
    assert(texts(argv@) =~= seq![
        "/Create"@,
        "/TN"@,
        SELFHEAL_TASK@,
        "/TR"@,
        selfheal_command(exe@, user@),
        "/SC"@,
        "ONSTART"@,
        "/RU"@,
        "SYSTEM"@,
        "/RL"@,
        "HIGHEST"@,
        "/F"@,
    ]);
    argv
}

/// Start a task now, as the principal that it names.
pub fn run_task_argv(name: &str) -> (argv: Vec<String>)
    ensures
        texts(argv@) == seq!["/Run"@, "/TN"@, name@],
{
    let mut argv: Vec<String> = Vec::new();
    argv.push("/Run".to_owned());
    argv.push("/TN".to_owned());
    argv.push(name.to_owned());
    assert(texts(argv@) =~= seq!["/Run"@, "/TN"@, name@]);
    argv
}

/// Print a task's definition.
pub fn query_task_argv(name: &str) -> (argv: Vec<String>)
    ensures
        texts(argv@) == seq!["/Query"@, "/TN"@, name@, "/XML"@],
{
    let mut argv: Vec<String> = Vec::new();
    argv.push("/Query".to_owned());
    argv.push("/TN".to_owned());
    argv.push(name.to_owned());
    argv.push("/XML".to_owned());
    assert(texts(argv@) =~= seq!["/Query"@, "/TN"@, name@, "/XML"@]);
    argv
}

/// A task is registered if and only if the query succeeded and printed a task definition.
pub fn parse_query_registered(stdout: &str, exit_ok: bool) -> (b: bool)
    ensures
        b == (exit_ok && holds(stdout@, "<Task"@)),
{
    let v: Vec<char> = chars_of(stdout);
    exit_ok && contains_text(v.as_slice(), "<Task")
}

/// Whether a queried task's XML declares the InteractiveToken logon type, in whatever case.
pub fn xml_has_interactive_token(query_xml: &str) -> (b: bool)
    ensures
        b == holds(lowered(query_xml@), "interactivetoken"@),
{
    let v: Vec<char> = chars_of(query_xml);
    let w: Vec<char> = to_lower(v.as_slice());
    contains_text(w.as_slice(), "interactivetoken")
}

// Laws.

/// Whatever the program and the user are named, the agent's task is interactive, is recognized
/// as such, and is recognized as registered.
pub proof fn law_agent_task_is_interactive(exe: Seq<char>, user: Seq<char>)
    ensures
        holds(task_xml(exe, user), "<LogonType>InteractiveToken</LogonType>"@),
        holds(task_xml(exe, user), "<RunLevel>LeastPrivilege</RunLevel>"@),
        holds(lowered(task_xml(exe, user)), "interactivetoken"@),
        holds(task_xml(exe, user), "<Task"@),
{
    let xml = task_xml(exe, user);
    let front = XML_HEAD@ + escaped(user) + XML_PRINCIPAL@ + escaped(user) + XML_USER_END@;
    let n = front.len() as int;
    reveal_strlit(
        "<LogonType>InteractiveToken</LogonType>\n    <RunLevel>LeastPrivilege</RunLevel>",
    );
    reveal_strlit("<LogonType>InteractiveToken</LogonType>");
    reveal_strlit("<RunLevel>LeastPrivilege</RunLevel>");
    reveal_strlit("interactivetoken");
    let logon = "<LogonType>InteractiveToken</LogonType>"@;
    let level = "<RunLevel>LeastPrivilege</RunLevel>"@;
    let token = "interactivetoken"@;
    assert(XML_LOGON@.len() == 79);
    assert(xml.subrange(n, n + XML_LOGON@.len()) =~= XML_LOGON@);
    assert(XML_LOGON@.subrange(0, logon.len() as int) =~= logon);
    assert(xml.subrange(n, n + logon.len()) =~= XML_LOGON@.subrange(0, logon.len() as int));
    assert(stands_at(xml, logon, n));
    assert(XML_LOGON@.subrange(44, 79) =~= level);
    assert(xml.subrange(n + 44, n + 79) =~= XML_LOGON@.subrange(44, 79));
    assert(stands_at(xml, level, n + 44));
    assert(lowered(XML_LOGON@.subrange(11, 27)) =~= token);
    assert(lowered(xml).subrange(n + 11, n + 27) =~= lowered(XML_LOGON@.subrange(11, 27)));
    assert(stands_at(lowered(xml), token, n + 11));
    lemma_head_is_a_task(xml, escaped(user) + XML_PRINCIPAL@ + escaped(user) + XML_USER_END@
        + XML_LOGON@ + XML_SETTINGS@ + escaped(exe) + XML_TAIL@);
}

proof fn lemma_head_is_a_task(xml: Seq<char>, rest: Seq<char>)
    requires
        xml =~= XML_HEAD@ + rest,
    ensures
        holds(xml, "<Task"@),
{
    reveal_strlit("<Task");
    reveal_strlit(
        "<?xml version=\"1.0\" encoding=\"UTF-16\"?>\n<Task version=\"1.2\" xmlns=\"http://schemas.microsoft.com/windows/2004/02/mit/task\">\n  <RegistrationInfo><Description>ssh-broker session-1 relay agent</Description></RegistrationInfo>\n  <Triggers><LogonTrigger><Enabled>true</Enabled><UserId>",
    );
    assert(xml.subrange(40, 45) =~= "<Task"@);
    assert(stands_at(xml, "<Task"@, 40));
}

/// No character of a name ends an element or begins one: what is escaped holds neither `<` nor
/// `>` nor a quote.
pub proof fn law_escaped_text_is_text(s: Seq<char>, i: int)
    requires
        0 <= i < escaped(s).len(),
    ensures
        escaped(s)[i] != '<',
        escaped(s)[i] != '>',
        escaped(s)[i] != '"',
        escaped(s)[i] != '\'',
    decreases s.len(),
{
    reveal_strlit("&amp;");
    reveal_strlit("&lt;");
    reveal_strlit("&gt;");
    reveal_strlit("&quot;");
    reveal_strlit("&apos;");
    let front = escaped(s.drop_last());
    if i < front.len() {
        law_escaped_text_is_text(s.drop_last(), i);
    } else {
        assert(escaped(s)[i] == entity(s.last())[i - front.len()]);
    }
}

/// The self-heal task's command comes apart into the program, `apply`, `--user` and the account,
/// each in one piece, even where a name has spaces.
pub proof fn law_selfheal_command_comes_apart(exe: Seq<char>, user: Seq<char>)
    requires
        quoteless(exe),
        quoteless(user),
    ensures
        tokens_from(selfheal_command(exe, user), 0) == seq![exe, "apply"@, "--user"@, user],
{
    reveal_strlit("\"");
    reveal_strlit("\" apply --user \"");
    reveal_strlit("apply");
    reveal_strlit("--user");
    let q = seq!['"'];
    let last = q + user + q;
    let third = "--user"@ + seq![' '] + last;
    let second = "apply"@ + seq![' '] + third;
    let all = q + exe + seq!['"', ' '] + second;
    assert("\""@ =~= q);
    assert("\" apply --user \""@ =~= seq!['"', ' '] + "apply"@ + seq![' '] + "--user"@ + seq![' ']
        + q);
    assert(selfheal_command(exe, user) =~= all);
    law_quoted_text_is_one_token(exe, second);
    law_plain_word_is_one_token("apply"@, third);
    law_plain_word_is_one_token("--user"@, last);
    law_quoted_text_is_one_token(user, Seq::empty());
    assert(tokens_from(all, 0) =~= seq![exe, "apply"@, "--user"@, user]);
}

/// Escaping loses nothing: two different texts never look alike in the task's definition.
pub proof fn law_escaping_loses_nothing(a: Seq<char>, b: Seq<char>)
    requires
        escaped(a) == escaped(b),
    ensures
        a == b,
    decreases a.len(),
{
    reveal_strlit("&amp;");
    reveal_strlit("&lt;");
    reveal_strlit("&gt;");
    reveal_strlit("&quot;");
    reveal_strlit("&apos;");
    if a.len() == 0 {
        if b.len() > 0 {
            lemma_escaped_front(b);
            assert(entity(b[0]).len() > 0);
        }
        assert(a =~= b);
    } else {
        lemma_escaped_front(a);
        assert(entity(a[0]).len() > 0);
        if b.len() == 0 {
            assert(escaped(b).len() == 0);
        } else {
            lemma_escaped_front(b);
            let x = entity(a[0]) + escaped(a.skip(1));
            let y = entity(b[0]) + escaped(b.skip(1));
            assert(x == y);
            assert(x[0] == entity(a[0])[0] && y[0] == entity(b[0])[0]);
            if entity(a[0]).len() > 1 {
                assert(x[1] == entity(a[0])[1]);
                assert(x[2] == entity(a[0])[2]);
            }
            if entity(b[0]).len() > 1 {
                assert(y[1] == entity(b[0])[1]);
                assert(y[2] == entity(b[0])[2]);
            }
            assert(a[0] == b[0]);
            let n = entity(a[0]).len() as int;
            assert(x.skip(n) =~= escaped(a.skip(1)));
            assert(y.skip(n) =~= escaped(b.skip(1)));
            law_escaping_loses_nothing(a.skip(1), b.skip(1));
            assert(a =~= seq![a[0]] + a.skip(1));
            assert(b =~= seq![b[0]] + b.skip(1));
        }
    }
}

proof fn lemma_escaped_front(s: Seq<char>)
    requires
        s.len() > 0,
    ensures
        escaped(s) == entity(s[0]) + escaped(s.skip(1)),
    decreases s.len(),
{
    let none = Seq::<char>::empty();
    if s.len() == 1 {
        assert(s.drop_last() =~= none);
        assert(s.skip(1) =~= none);
        assert(escaped(s) =~= entity(s[0]) + escaped(s.skip(1)));
    } else {
        lemma_escaped_front(s.drop_last());
        assert(s.drop_last().skip(1) =~= s.skip(1).drop_last());
        assert(s.skip(1).last() == s.last());
        assert(escaped(s) =~= entity(s[0]) + escaped(s.skip(1)));
    }
}

/// The definition names the user twice and the program once, each escaped: a task for another user
/// or another program is another definition.
pub proof fn law_task_is_for_that_user_and_program(
    exe: Seq<char>,
    user: Seq<char>,
    other_exe: Seq<char>,
)
    requires
        task_xml(exe, user) == task_xml(other_exe, user),
    ensures
        exe == other_exe,
        holds(task_xml(exe, user), escaped(user)),
        holds(task_xml(exe, user), escaped(exe)),
{
    let front = XML_HEAD@ + escaped(user) + XML_PRINCIPAL@ + escaped(user) + XML_USER_END@
        + XML_LOGON@ + XML_SETTINGS@;
    let a = task_xml(exe, user);
    let b = task_xml(other_exe, user);
    let n = front.len() as int;
    let tail = XML_TAIL@;
    let la = escaped(exe).len() as int;
    let lb = escaped(other_exe).len() as int;
    assert(a =~= front + escaped(exe) + tail);
    assert(b =~= front + escaped(other_exe) + tail);
    assert(a.len() == n + la + tail.len() && b.len() == n + lb + tail.len());
    assert(la == lb);
    assert(a.subrange(n, n + la) =~= escaped(exe));
    assert(b.subrange(n, n + lb) =~= escaped(other_exe));
    law_escaping_loses_nothing(exe, other_exe);
    assert(stands_at(a, escaped(exe), n));
    let h = XML_HEAD@.len() as int;
    assert(a.subrange(h, h + escaped(user).len()) =~= escaped(user));
    assert(stands_at(a, escaped(user), h));
}

/// The file of a definition begins with the mark of its encoding and holds two bytes for each unit
/// of its text.
pub proof fn law_task_file(xml: &str, bytes: Vec<u8>)
    requires
        call_ensures(xml_file_bytes, (xml,), bytes),
    ensures
        bytes@.len() == 2 + 2 * units(xml@).len(),
        bytes@[0] == 0xff,
        bytes@[1] == 0xfe,
        forall|i: int| 0 <= i < units(xml@).len() ==> bytes@[2 + 2 * i] + 256 * bytes@[3 + 2 * i]
            == #[trigger] units(xml@)[i],
{
    lemma_unit_bytes(units(xml@));
    let b = unit_bytes(units(xml@));
    assert forall|i: int| 0 <= i < units(xml@).len() implies bytes@[2 + 2 * i] + 256 * bytes@[3 + 2
        * i] == #[trigger] units(xml@)[i] by {
        assert(bytes@[2 + 2 * i] == b[2 * i]);
        assert(bytes@[3 + 2 * i] == b[2 * i + 1]);
    }
}

proof fn lemma_unit_bytes(u: Seq<u16>)
    ensures
        unit_bytes(u).len() == 2 * u.len(),
        forall|i: int|
            0 <= i < u.len() ==> unit_bytes(u)[2 * i] + 256 * unit_bytes(u)[2 * i + 1]
                == #[trigger] u[i],
    decreases u.len(),
{
    if u.len() > 0 {
        let front = u.drop_last();
        lemma_unit_bytes(front);
        let x = u.last() as int;
        assert(x % 256 + 256 * (x / 256) == x);
        assert forall|i: int| 0 <= i < u.len() implies unit_bytes(u)[2 * i] + 256 * unit_bytes(u)[2
            * i + 1] == #[trigger] u[i] by {
            if i < front.len() {
                assert(front[i] == u[i]);
                assert(unit_bytes(u)[2 * i] == unit_bytes(front)[2 * i]);
                assert(unit_bytes(u)[2 * i + 1] == unit_bytes(front)[2 * i + 1]);
            }
        }
    }
}

/// The self-heal task runs at every start as SYSTEM, and what it runs is the program with `apply`
/// for the very user.
pub proof fn law_selfheal_runs_apply(exe: &str, user: &str, argv: Vec<String>)
    requires
        call_ensures(selfheal_task_argv, (exe, user), argv),
        quoteless(exe@),
        quoteless(user@),
    ensures
        argv@.len() == 12,
        argv@[3]@ == "/TR"@,
        tokens_from(argv@[4]@, 0) == seq![exe@, "apply"@, "--user"@, user@],
        argv@[5]@ == "/SC"@ && argv@[6]@ == "ONSTART"@,
        argv@[7]@ == "/RU"@ && argv@[8]@ == "SYSTEM"@,
        argv@[11]@ == "/F"@,
{
    law_selfheal_command_comes_apart(exe@, user@);
    let t = texts(argv@);
    assert(t.len() == argv@.len());
    assert(t[3] == argv@[3]@ && t[4] == argv@[4]@ && t[5] == argv@[5]@ && t[6] == argv@[6]@);
    assert(t[7] == argv@[7]@ && t[8] == argv@[8]@ && t[11] == argv@[11]@);
}

/// A task counts as registered only where the query succeeded and shows a task, and as interactive
/// only where it says so, in whatever case.
pub proof fn law_query_results(stdout: &str, exit_ok: bool, registered: bool, interactive: bool)
    requires
        call_ensures(parse_query_registered, (stdout, exit_ok), registered),
        call_ensures(xml_has_interactive_token, (stdout,), interactive),
    ensures
        !exit_ok ==> !registered,
        exit_ok ==> (registered <==> exists|i: int| stands_at(stdout@, "<Task"@, i)),
        interactive <==> exists|i: int| stands_at(lowered(stdout@), "interactivetoken"@, i),
{
}

} // verus!
