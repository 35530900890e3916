//! route: argv dispatch.
//!
//! The shim is the default action, because sshd's default shell is a bare path that cannot carry
//! an argument: a known verb in first position selects a subcommand, anything else (nothing, or
//! sshd's `-c "cmd"`) is the shim.

use vstd::prelude::*;
use crate::protocol::text_of;
use crate::text::is_string;

verus! {

#[derive(Debug, Clone, PartialEq, Eq)]
pub enum Route {
    /// The SSH default shell. `command` is that of `-c "cmd"`, and `None` for an interactive
    /// session.
    Shim { command: Option<String> },
    Agent,
    Apply,
    Verify,
    /// The parity-probe child that the agent spawns for `verify`.
    VerifyProbe,
}

/// The model of a route.
pub ghost enum RouteView {
    Shim(Option<Seq<char>>),
    Agent,
    Apply,
    Verify,
    VerifyProbe,
}

impl View for Route {
    type V = RouteView;

    open spec fn view(&self) -> RouteView {
        match *self {
            Route::Shim { command } => RouteView::Shim(text_of(command)),
            Route::Agent => RouteView::Agent,
            Route::Apply => RouteView::Apply,
            Route::Verify => RouteView::Verify,
            Route::VerifyProbe => RouteView::VerifyProbe,
        }
    }
}

/// Texts with a space between each two.
pub open spec fn spaced(args: Seq<String>) -> Seq<char>
    decreases args.len(),
{
    if args.len() == 0 {
        Seq::empty()
    } else if args.len() == 1 {
        args[0]@
    } else {
        spaced(args.drop_last()) + seq![' '] + args.last()@
    }
}

/// Where arguments lead.
pub open spec fn route_of(args: Seq<String>) -> RouteView {
    if args.len() == 0 {
        RouteView::Shim(None)
    } else if args[0]@ == "agent"@ {
        RouteView::Agent
    } else if args[0]@ == "apply"@ {
        RouteView::Apply
    } else if args[0]@ == "verify"@ {
        RouteView::Verify
    } else if args[0]@ == "verify-probe"@ {
        RouteView::VerifyProbe
    } else if args[0]@ == "-c"@ && args.len() > 1 {
        RouteView::Shim(Some(spaced(args.skip(1))))
    } else {
        RouteView::Shim(None)
    }
}

/// Dispatch the arguments after the program name. A known verb in first position wins; otherwise
/// it is the shim. The command of `-c` is everything behind it joined with spaces, so that one
/// that arrives split is not truncated; `-c` with nothing behind it is an interactive shim.
pub fn route(args: &[String]) -> (r: Route)
    ensures
        r@ == route_of(args@),
{
    if args.len() == 0 {
        return Route::Shim { command: None };
    }
    let verb: &str = args[0].as_str();
    if is_string(verb, "agent") {
        Route::Agent
    } else if is_string(verb, "apply") {
        Route::Apply
    } else if is_string(verb, "verify") {
        Route::Verify
    } else if is_string(verb, "verify-probe") {
        Route::VerifyProbe
    } else if is_string(verb, "-c") && args.len() > 1 {
        let mut cmd: String = args[1].clone();
        let ghost tail = args@.skip(1);
        let mut i: usize = 2;
        assert(tail.take(1) =~= seq![args@[1]]);
        while i < args.len()
            invariant
                2 <= i <= args@.len(),
                tail == args@.skip(1),
                cmd@ == spaced(tail.take(i - 1)),
            decreases args@.len() - i,
        {
            cmd.push(' ');
            cmd.append(args[i].as_str());
            proof {
                let now = tail.take(i as int);
                assert(now.drop_last() =~= tail.take(i - 1));
                assert(now.last() == args@[i as int]);
                assert(cmd@ =~= spaced(now));
            }
            i += 1;
        }
        assert(tail.take(i - 1) =~= tail);
        Route::Shim { command: Some(cmd) }
    } else {
        Route::Shim { command: None }
    }
}

// Laws.

/// What comes behind `-c` is always a command, whatever it says: an SSH command that is named
/// like a verb never selects that verb.
pub proof fn law_exec_is_never_a_verb(args: Seq<String>)
    requires
        args.len() > 1,
        args[0]@ == "-c"@,
    ensures
        route_of(args) == RouteView::Shim(Some(spaced(args.skip(1)))),
{
    reveal_strlit("-c");
    reveal_strlit("agent");
    reveal_strlit("apply");
    reveal_strlit("verify");
    reveal_strlit("verify-probe");
    assert("-c"@.len() != "agent"@.len());
    assert("-c"@.len() != "apply"@.len());
    assert("-c"@.len() != "verify"@.len());
    assert("-c"@.len() != "verify-probe"@.len());
}

/// A verb leads to its own place, whatever arguments follow it.
pub proof fn law_verbs_are_told_by_the_first_argument(args: Seq<String>)
    requires
        args.len() >= 1,
    ensures
        route_of(args) is Agent <==> args[0]@ == seq!['a', 'g', 'e', 'n', 't'],
        route_of(args) is Apply <==> args[0]@ == seq!['a', 'p', 'p', 'l', 'y'],
        route_of(args) is Verify <==> args[0]@ == seq!['v', 'e', 'r', 'i', 'f', 'y'],
        route_of(args) is VerifyProbe <==> args[0]@ == seq![
            'v', 'e', 'r', 'i', 'f', 'y', '-', 'p', 'r', 'o', 'b', 'e',
        ],
{
    reveal_strlit("agent");
    reveal_strlit("apply");
    reveal_strlit("verify");
    reveal_strlit("verify-probe");
    reveal_strlit("-c");
    assert("agent"@ =~= seq!['a', 'g', 'e', 'n', 't']);
    assert("apply"@ =~= seq!['a', 'p', 'p', 'l', 'y']);
    assert("verify"@ =~= seq!['v', 'e', 'r', 'i', 'f', 'y']);
    assert("verify-probe"@ =~= seq![
        'v', 'e', 'r', 'i', 'f', 'y', '-', 'p', 'r', 'o', 'b', 'e',
    ]);
    assert("agent"@[0] == 'a' && "agent"@[1] == 'g');
    assert("apply"@[0] == 'a' && "apply"@[1] == 'p');
    assert("verify"@.len() == 6 && "verify-probe"@.len() == 12);
    assert("verify"@[0] == 'v' && "verify-probe"@[0] == 'v' && "-c"@[0] == '-');
}

/// Whatever stands behind the first argument counts only for `-c`: two command lines that begin
/// with the same other argument lead to the same place.
pub proof fn law_only_a_command_looks_further(a: Seq<String>, b: Seq<String>)
    requires
        a.len() >= 1,
        b.len() >= 1,
        a[0]@ == b[0]@,
        a[0]@ != seq!['-', 'c'],
    ensures
        route_of(a) == route_of(b),
{
    reveal_strlit("-c");
    assert("-c"@ =~= seq!['-', 'c']);
}

/// Anything that is neither a verb nor a command is an interactive shim: nothing at all, `-c` with
/// nothing behind it, and every other word.
pub proof fn law_the_shim_is_the_default(args: Seq<String>)
    requires
        !(route_of(args) is Agent),
        !(route_of(args) is Apply),
        !(route_of(args) is Verify),
        !(route_of(args) is VerifyProbe),
    ensures
        route_of(args) is Shim,
        route_of(args) == RouteView::Shim(None) <==> !(args.len() > 1 && args[0]@ == seq!['-', 'c']),
{
    reveal_strlit("-c");
    assert("-c"@ =~= seq!['-', 'c']);
}

/// A command that arrives whole is kept as it is, and one that arrives split is put together
/// again: the command of the words `a` and then `b` is that of `a`, a space, and that of `b`.
pub proof fn law_split_command_is_joined(c: String, a: Seq<String>, b: Seq<String>)
    requires
        c@ == seq!['-', 'c'],
        a.len() >= 1,
        b.len() >= 1,
    ensures
        route_of(seq![c] + a) is Shim && route_of(seq![c] + a)->Shim_0 is Some,
        a.len() == 1 ==> route_of(seq![c] + a) == RouteView::Shim(Some(a[0]@)),
        route_of(seq![c] + (a + b)) == RouteView::Shim(
            Some(
                route_of(seq![c] + a)->Shim_0->0 + seq![' '] + route_of(seq![c] + b)->Shim_0->0,
            ),
        ),
{
    reveal_strlit("-c");
    reveal_strlit("agent");
    reveal_strlit("apply");
    reveal_strlit("verify");
    reveal_strlit("verify-probe");
    assert("-c"@ =~= seq!['-', 'c']);
    assert(c@[0] == '-');
    assert("agent"@[0] == 'a' && "apply"@[0] == 'a' && "verify"@[0] == 'v' && "verify-probe"@[0]
        == 'v');
    assert((seq![c] + a).skip(1) =~= a);
    assert((seq![c] + b).skip(1) =~= b);
    assert((seq![c] + (a + b)).skip(1) =~= a + b);
    lemma_spaced(a, b);
}

proof fn lemma_spaced(a: Seq<String>, b: Seq<String>)
    requires
        a.len() >= 1,
        b.len() >= 1,
    ensures
        spaced(a + b) == spaced(a) + seq![' '] + spaced(b),
    decreases b.len(),
{
    let all = a + b;
    assert(all.drop_last() =~= a + b.drop_last());
    if b.len() == 1 {
        assert(b.drop_last() =~= Seq::<String>::empty());
        assert(all.drop_last() =~= a);
    } else {
        lemma_spaced(a, b.drop_last());
        assert(spaced(all) =~= spaced(a) + seq![' '] + spaced(b));
    }
}

/// The dispatch itself keeps these laws: what it returns for a verb is that verb's route, whatever
/// follows; for `-c` and one more argument it is the shim with that argument as its command; and
/// for anything else the interactive shim.
pub proof fn law_dispatch(args: &[String], r: Route)
    requires
        call_ensures(route, (args,), r),
    ensures
        args@.len() >= 1 && args@[0]@ == seq!['a', 'g', 'e', 'n', 't'] ==> r is Agent,
        args@.len() >= 1 && args@[0]@ == seq!['a', 'p', 'p', 'l', 'y'] ==> r is Apply,
        args@.len() >= 1 && args@[0]@ == seq!['v', 'e', 'r', 'i', 'f', 'y'] ==> r is Verify,
        args@.len() >= 1 && args@[0]@ == seq![
            'v', 'e', 'r', 'i', 'f', 'y', '-', 'p', 'r', 'o', 'b', 'e',
        ] ==> r is VerifyProbe,
        args@.len() == 2 && args@[0]@ == seq!['-', 'c'] ==> (r matches Route::Shim {
            command: Some(c),
        } && c@ == args@[1]@),
        args@.len() == 0 ==> r matches Route::Shim { command: None },
        r is Agent ==> args@.len() >= 1 && args@[0]@ == seq!['a', 'g', 'e', 'n', 't'],
        r is Apply ==> args@.len() >= 1 && args@[0]@ == seq!['a', 'p', 'p', 'l', 'y'],
{
    if args@.len() >= 1 {
        law_verbs_are_told_by_the_first_argument(args@);
        if args@[0]@ == seq!['-', 'c'] && args@.len() == 2 {
            let behind = args@.skip(1);
            law_split_command_is_joined(args@[0], behind, behind);
            assert(seq![args@[0]] + behind =~= args@);
        }
    }
}

} // verus!
