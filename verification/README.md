# wire_client

A headless client for build 5875 (1.12.1) of the wire protocol, with the capacity benchmark and the
collector of playerbot evidence that go with it.

- `src/` is the library. Every function in it is verified by Verus against the contract above its
  body. It holds the header cipher and the reading of frames, what a session keeps track of, the
  verdicts of the probes and scenarios, the parsers of metrics, logs, packets and command lines, the
  schedule of a benchmark's players and its report, and everything that is concluded from the
  transactions of playerbots.
- `tests/` runs the library on concrete values, with the outside crates linked.
- `app/` is the program: sockets, files, child processes, floating point, and the derives of outside
  crates. It performs what the library asks for and hands back what came of it.

Where the library calls another crate it does so behind a small function marked
`#[verifier::external_body]`, or an `assume_specification`, whose comment names the call and says
what is relied upon. These are in `cipher.rs` and `logon.rs` (`wow_srp`), `capture.rs` (`sha2`), and
`text.rs`, `receive.rs` and `wire.rs` (the standard library).

Times are integers, in the unit that each module names. Numbers that the program reads as floating
point enter the library as the bits of a double; the library compares and orders them, and the
program adds and divides them.
