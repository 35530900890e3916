# ssh_broker

The broker gives a Windows SSH session the environment of a session at the machine itself. A
shim, installed as sshd's default shell, relays the terminal or the streams of a command to an
agent that runs in an interactive session and hosts the real shell there. The two speak
length-prefixed frames over a local socket whose directory admits nobody but the user, SYSTEM and
Administrators.

- `src/` is the library. Every item in it is verified with Verus: the frame codec and the pump
  (`protocol`, `relay`), the shim's filters and decisions (`shim`, `shim_pty`, `xtwinops`,
  `sniffer`, `vtinput`), the agent's decisions (`agent`, `conpty`, `spawn`, `winutil`), the access
  control (`acl`, `afunix`), argument dispatch (`route`), provisioning (`provision`) and the
  diagnostics (`spike`). `text` holds what they all need of strings and numbers.
- `tests/` runs the library.
- `app/` is the program around it: sockets, processes, consoles, files, the registry.

A law of the library is a public proof function whose name begins with `law_`.

What is trusted and not proved is marked `external_body` or `assume_specification`, and says above
it what is claimed of the outside function: the `postcard` encoding of the handshake, the `toml`
document of the config, the socket address of `socket2`, waiting on a channel, and four functions
of the standard library on strings.
