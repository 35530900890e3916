//! registry: the OpenSSH default-shell pair.

use vstd::prelude::*;

verus! {

/// The two values in fail-safe write order: the command option first, the shell path second. A
/// crash between the two writes then leaves the option with the old shell, which is harmless,
/// rather than the new shell without its option.
pub fn registry_pair(exe: &str) -> (pair: [(&'static str, String); 2])
    ensures
        pair@[0].0@ == "DefaultShellCommandOption"@,
        pair@[0].1@ == "-c"@,
        pair@[1].0@ == "DefaultShell"@,
        pair@[1].1@ == exe@,
{
    [
        ("DefaultShellCommandOption", "-c".to_owned()),
        ("DefaultShell", exe.to_owned()),
    ]
}

/// The production OpenSSH key under the local machine's root.
pub const OPENSSH_KEY: &'static str = "SOFTWARE\\OpenSSH";

/// How many characters of a buffer of `capacity` units a value of `bytes` bytes has, without the
/// zero at its end.
pub fn value_chars(bytes: u32, capacity: usize) -> (n: usize)
    ensures
        n == if bytes / 2 == 0 {
            0
        } else if bytes / 2 - 1 > capacity {
            capacity as int
        } else {
            bytes / 2 - 1
        },
{
    let units: usize = (bytes / 2) as usize;
    if units == 0 {
        0
    } else if units - 1 > capacity {
        capacity
    } else {
        units - 1
    }
}

// Laws.

/// The option is written before the shell, so that a write that is broken off between the two
/// never leaves the new shell without its option.
pub proof fn law_option_is_written_first(exe: &str, pair: [(&'static str, String); 2])
    requires
        call_ensures(registry_pair, (exe,), pair),
    ensures
        pair@[0].0@ == "DefaultShellCommandOption"@,
        pair@[0].1@ == seq!['-', 'c'],
        pair@[1].0@ == "DefaultShell"@,
        pair@[1].1@ == exe@,
{
    reveal_strlit("-c");
    assert("-c"@ =~= seq!['-', 'c']);
}

} // verus!
